//! The request logic of a small set of HTTP endpoints: packet ids folded by XOR and
//! cubed, reindeer contests, elf counting, cookie decoding and baking.

pub mod packets;
pub mod elves;
pub mod text;
pub mod reindeer;
pub mod cookie;
pub mod pantry;
