use cch23::cookie::{cookie_payload, decode, decoded_text, CookieError};
use cch23::pantry::{bake, bake_one, Ingredients};

fn ingredients(pairs: &[(&str, u64)]) -> Ingredients {
    let mut m = Ingredients::new();
    for (name, amount) in pairs {
        m.insert(name.to_string(), *amount);
    }
    m
}

fn from_json(value: &serde_json::Value) -> Ingredients {
    let mut m = Ingredients::new();
    for (name, amount) in value.as_object().unwrap() {
        m.insert(name.clone(), amount.as_u64().unwrap());
    }
    m
}

#[test]
fn decode_test() {
    let data = "recipe=eyJmbG91ciI6MTAwLCJjaG9jb2xhdGUgY2hpcHMiOjIwfQ==";
    let expected = r#"{"flour":100,"chocolate chips":20}"#;
    assert_eq!(decode(data).unwrap(), expected);
}

#[test]
fn decode_errors() {
    assert_eq!(decode("no separator here"), Err(CookieError::MissingSeparator));
    assert_eq!(decode("recipe=not base64!"), Err(CookieError::InvalidBase64));
    // "/w==" is the single byte 0xff, which is not UTF-8.
    assert_eq!(decode("recipe=/w=="), Err(CookieError::InvalidUtf8));
    assert_eq!(decode("recipe="), Ok(String::new()));
}

#[test]
fn payload_is_after_the_first_equals_sign() {
    assert_eq!(cookie_payload("a=b=c"), Some("b=c"));
    assert_eq!(cookie_payload("=x"), Some("x"));
    assert_eq!(cookie_payload("abc"), None);
    assert_eq!(cookie_payload("é=ü"), Some("ü"));
}

#[test]
fn decoded_bytes_to_text() {
    assert_eq!(decoded_text(None), Err(CookieError::InvalidBase64));
    assert_eq!(decoded_text(Some(vec![0xff])), Err(CookieError::InvalidUtf8));
    assert_eq!(decoded_text(Some("hé".as_bytes().to_vec())), Ok("hé".to_string()));
}

#[test]
fn bake_test() {
    let data = "recipe=eyJyZWNpcGUiOnsiZmxvdXIiOjk1LCJzdWdhciI6NTAsImJ1dHRlciI6MzAsImJha2luZyBwb3dkZXIiOjEwLCJjaG9jb2xhdGUgY2hpcHMiOjUwfSwicGFudHJ5Ijp7ImZsb3VyIjozODUsInN1Z2FyIjo1MDcsImJ1dHRlciI6MjEyMiwiYmFraW5nIHBvd2RlciI6ODY1LCJjaG9jb2xhdGUgY2hpcHMiOjQ1N319";
    let expected_cookies = 4;
    let expected_pantry = [
        ("flour", 5),
        ("sugar", 307),
        ("butter", 2002),
        ("baking powder", 825),
        ("chocolate chips", 257),
    ];
    let text = decode(data).unwrap();
    let cookie: serde_json::Value = serde_json::from_str(&text).unwrap();
    let recipe = from_json(&cookie["recipe"]);
    let pantry = from_json(&cookie["pantry"]);
    assert!(recipe.needs_something());
    let baked = bake(&recipe, &pantry);
    assert_eq!(baked.cookies, expected_cookies);
    for (ingredient, amount) in expected_pantry.iter() {
        assert_eq!(baked.pantry.get(&ingredient.to_string()), Some(*amount));
    }
    assert_eq!(baked.pantry.len(), expected_pantry.len());
}

#[test]
fn bad_bake_test() {
    let data =
        "recipe=eyJyZWNpcGUiOnsic2xpbWUiOjl9LCJwYW50cnkiOnsiY29iYmxlc3RvbmUiOjY0LCJzdGljayI6IDR9fQ==";
    let expected_cookies = 0;
    let expected_pantry = [("cobblestone", 64), ("stick", 4)];
    let text = decode(data).unwrap();
    let cookie: serde_json::Value = serde_json::from_str(&text).unwrap();
    let recipe = from_json(&cookie["recipe"]);
    let pantry = from_json(&cookie["pantry"]);
    let baked = bake(&recipe, &pantry);
    assert_eq!(baked.cookies, expected_cookies);
    for (ingredient, amount) in expected_pantry.iter() {
        assert_eq!(baked.pantry.get(&ingredient.to_string()), Some(*amount));
    }
    assert_eq!(baked.pantry.len(), 2);
}

#[test]
fn zero_amounts_get_an_entry_once_a_cookie_is_baked() {
    let recipe = ingredients(&[("flour", 2), ("salt", 0)]);
    let pantry = ingredients(&[("flour", 5)]);
    let baked = bake(&recipe, &pantry);
    assert_eq!(baked.cookies, 2);
    assert_eq!(baked.pantry.get(&"flour".to_string()), Some(1));
    assert_eq!(baked.pantry.get(&"salt".to_string()), Some(0));

    // No cookie: the pantry is left as it was, without the zero entry.
    let pantry = ingredients(&[("flour", 1)]);
    let baked = bake(&recipe, &pantry);
    assert_eq!(baked.cookies, 0);
    assert_eq!(baked.pantry.get(&"salt".to_string()), None);
    assert_eq!(baked.pantry.len(), 1);
}

#[test]
fn one_cookie_at_a_time() {
    let recipe = ingredients(&[("flour", 3), ("sugar", 1)]);
    let pantry = ingredients(&[("flour", 7), ("sugar", 10), ("eggs", 2)]);
    let once = bake_one(&pantry, &recipe).unwrap();
    assert_eq!(once.get(&"flour".to_string()), Some(4));
    assert_eq!(once.get(&"sugar".to_string()), Some(9));
    assert_eq!(once.get(&"eggs".to_string()), Some(2));
    let twice = bake_one(&once, &recipe).unwrap();
    assert!(bake_one(&twice, &recipe).is_none());
    assert_eq!(bake(&recipe, &pantry).cookies, 2);
}

#[test]
fn huge_amounts() {
    let recipe = ingredients(&[("flour", u64::MAX)]);
    let pantry = ingredients(&[("flour", u64::MAX)]);
    assert_eq!(bake(&recipe, &pantry).cookies, 1);
}

#[test]
fn needs_something_sees_positive_amounts() {
    assert!(!Ingredients::new().needs_something());
    assert!(!ingredients(&[("salt", 0)]).needs_something());
    assert!(ingredients(&[("salt", 0), ("flour", 1)]).needs_something());
}

#[test]
fn insert_overwrites() {
    let mut m = Ingredients::new();
    m.insert("a".to_string(), 1);
    m.insert("b".to_string(), 2);
    m.insert("a".to_string(), 3);
    assert_eq!(m.len(), 2);
    assert_eq!(m.get(&"a".to_string()), Some(3));
    let mut v = m.to_vec();
    v.sort();
    assert_eq!(v, vec![("a".to_string(), 3), ("b".to_string(), 2)]);
    assert_eq!(m.duplicate().get(&"b".to_string()), Some(2));
}

#[test]
fn cookies_are_the_least_quotient() {
    let recipe = ingredients(&[("flour", 3), ("sugar", 2), ("salt", 0)]);
    let pantry = ingredients(&[("flour", 10), ("sugar", 5)]);
    let baked = bake(&recipe, &pantry);
    // min(10 / 3, 5 / 2) = 2
    assert_eq!(baked.cookies, 2);
    assert_eq!(baked.pantry.get(&"flour".to_string()), Some(4));
    assert_eq!(baked.pantry.get(&"sugar".to_string()), Some(1));
    assert_eq!(baked.pantry.get(&"salt".to_string()), Some(0));
}
