[package]
name = "cch23"
version = "0.1.0"
edition = "2021"
publish = false

[dependencies]
actix-web = "4"
base64 = "0.21"
serde = { version = "1", features = ["derive"] }
serde_json = "1"
reqwest = { version = "0.11", default-features = false, features = ["json", "rustls-tls"] }
uom = "0.35"
shuttle-actix-web = "0.35"
shuttle-runtime = "0.35"
