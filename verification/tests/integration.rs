use d4t4::{Data, Error, Value};

#[test]
fn it_can_parse_object() {
    let markup = r#"{
    "values": {
        "r": 10,
        "g": 10,
        "b": 100
    },
    "two": "rgba(${values.r}, ${values.g}, ${values.b}, 0.1)",
    "tree": "${values.r}px"
}"#;
    assert_eq!(Data::parse(markup), Err(Error::UnsupportedSubstitution));
}

#[test]
fn it_can_parse_object_of_strings() {
    let markup = r#"{
    "values": {
        "r": "10",
        "g": "10",
        "b": "100"
    },
    "two": "rgba(${values.r}, ${values.g}, ${values.b}, 0.1)",
    "tree": "${values.r}px"
}"#;
    let x = Data::parse(markup).unwrap();
    let text = |s: &str| Value::String(s.to_string());
    let values = Value::Object(vec![
        ("r".to_string(), text("10")),
        ("g".to_string(), text("10")),
        ("b".to_string(), text("100")),
    ]);
    assert_eq!(
        x,
        Value::Object(vec![
            ("values".to_string(), values),
            ("two".to_string(), text("rgba(10, 10, 100, 0.1)")),
            ("tree".to_string(), text("10px")),
        ])
    );
}

#[test]
fn integration_it_can_parse_array() {
    let markup = r#"[
    {
        "key": "value"
    }
]"#;
    let x = Data::parse(markup).unwrap();
    assert_eq!(
        x,
        Value::Array(vec![Value::Object(vec![(
            "key".to_string(),
            Value::String("value".to_string())
        )])])
    );
}
