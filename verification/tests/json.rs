use d4t4::{parse, Data, Value};

const JSON: &str = r#"{
    "null": null,
    "true": true,
    "false": false,
    "number": 3.7e-5,
    "integer": 42,
    "negative": -17,
    "zero": 0,
    "large": 18446744073709551615,
    "larger": 184467440737095516150,
    "exponent": 1E3,
    "string": "— alpha\n\tbeta \"quoted\" \\ \/ end",
    "empty": "",
    "array": [0, 1, 0.25, -1.5e+2, "a", [], {}, [[[]]]],
    "object with long key": {
        "k": "v",
        "": "empty key",
        "nested": { "a": [ { "b": null } ] }
    }
}"#;

fn standard(value: &Value) -> serde_json::Value {
    match value {
        Value::Null => serde_json::Value::Null,
        Value::Bool(b) => serde_json::Value::Bool(*b),
        Value::Number(n) => serde_json::Value::Number(n.clone()),
        Value::String(s) => serde_json::Value::String(s.clone()),
        Value::Array(items) => serde_json::Value::Array(items.iter().map(standard).collect()),
        Value::Object(members) => {
            let mut map = serde_json::Map::new();
            for (key, held) in members {
                map.insert(key.clone(), standard(held));
            }
            serde_json::Value::Object(map)
        }
    }
}

#[test]
fn it_can_parse_json() {
    let v: serde_json::Value = serde_json::from_str(JSON).unwrap();
    let x = parse(JSON).unwrap();
    assert_eq!(v, standard(&x));
}

#[test]
fn both_flavours_read_json_alike() {
    let v: serde_json::Value = serde_json::from_str(JSON).unwrap();
    let x = Data::parse(JSON).unwrap();
    assert_eq!(v, standard(&x));
}

#[test]
fn what_the_language_adds_reads_as_the_plain_text_does() {
    let relaxed = "// head\n{ a: 'x', \"b\": [1, 2, /* two */ 3,], `c`: { d: null, }, }";
    let plain = r#"{ "a": "x", "b": [1, 2, 3], "c": { "d": null } }"#;
    let v: serde_json::Value = serde_json::from_str(plain).unwrap();
    assert_eq!(v, standard(&parse(relaxed).unwrap()));
    assert_eq!(v, standard(&parse(plain).unwrap()));
}

#[test]
fn members_keep_their_order() {
    let x = parse(r#"{ "b": 1, "a": 2, "c": 3 }"#).unwrap();
    match x {
        Value::Object(members) => {
            let keys: Vec<&str> = members.iter().map(|m| m.0.as_str()).collect();
            assert_eq!(keys, vec!["b", "a", "c"]);
        }
        _ => panic!("an object was read"),
    }
}
