use d4t4::{Data, Value};

#[test]
fn array_it_can_parse_array() {
    let markup = r#"[
    "JSON Test Pattern pass1",
    {
        "object with 1 member": ["array with 1 element"]
    },
    {},
    [],
    -42,
    true,
    false,
    null,
]"#;
    let x = Data::parse(markup).unwrap();
    let expected = Value::Array(vec![
        Value::String("JSON Test Pattern pass1".to_string()),
        Value::Object(vec![(
            "object with 1 member".to_string(),
            Value::Array(vec![Value::String("array with 1 element".to_string())]),
        )]),
        Value::Object(vec![]),
        Value::Array(vec![]),
        Value::Number(serde_json::Number::from(-42)),
        Value::Bool(true),
        Value::Bool(false),
        Value::Null,
    ]);
    assert_eq!(x, expected);
}
