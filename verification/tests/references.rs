use d4t4::{parse, Error, Value};

fn text(s: &str) -> Value {
    Value::String(s.to_string())
}

fn object(members: Vec<(&str, Value)>) -> Value {
    Value::Object(members.into_iter().map(|(k, v)| (k.to_string(), v)).collect())
}

#[test]
fn it_can_parse_references_at_root() {
    let markup = r#"{
    "value": "10px",
    "border": "border-width: &{value}"
}"#;
    let x = parse(markup).unwrap();
    assert_eq!(
        x,
        object(vec![("value", text("10px")), ("border", text("border-width: 10px"))])
    );
}

#[test]
fn it_can_parse_multiple_references() {
    let markup = r#"{
    "r": "10",
    "g": "10",
    "b": "100",
    "color": "rgba(&{r}, &{g}, &{b}, 0.1)"
}"#;
    let x = parse(markup).unwrap();
    assert_eq!(
        x,
        object(vec![
            ("r", text("10")),
            ("g", text("10")),
            ("b", text("100")),
            ("color", text("rgba(10, 10, 100, 0.1)")),
        ])
    );
}

#[test]
fn it_can_parse_nested_references() {
    let markup = r#"{
    "value": "10",
    "object": {
        "width": "&{value}px"
    }
}"#;
    let x = parse(markup).unwrap();
    assert_eq!(
        x,
        object(vec![("value", text("10")), ("object", object(vec![("width", text("10px"))]))])
    );
}

#[test]
fn it_can_parse_deeply_nested_references() {
    let markup = r#"{
    "value": "10",
    "one": {
        "two": {
            "three": {
                "width": "&{value}px"
            }
        }
    }
}"#;
    let x = parse(markup).unwrap();
    let three = object(vec![("width", text("10px"))]);
    let two = object(vec![("three", three)]);
    let one = object(vec![("two", two)]);
    assert_eq!(x, object(vec![("value", text("10")), ("one", one)]));
}

#[test]
fn it_can_parse_nested_targets() {
    let markup = r#"{
    "value": {
        "r": "10",
        "g": "10",
        "b": "10",
    },
    "color": "rgba(&{value.r}, &{value.g}, &{value.b}, 0.1)"
}"#;
    let x = parse(markup).unwrap();
    let value = object(vec![("r", text("10")), ("g", text("10")), ("b", text("10"))]);
    assert_eq!(x, object(vec![("value", value), ("color", text("rgba(10, 10, 10, 0.1)"))]));
}

#[test]
fn it_can_parse_deeply_nested_targets() {
    let markup = r#"{
    "value": {
        "color": {
            "black": {
                "r": "0",
                "g": "0",
                "b": "0",
            }
        }
    },
    "color": "rgba(&{value.color.black.r}, &{value.color.black.g}, &{value.color.black.b}, 0.1)"
}"#;
    let x = parse(markup).unwrap();
    let black = object(vec![("r", text("0")), ("g", text("0")), ("b", text("0"))]);
    let value = object(vec![("color", object(vec![("black", black)]))]);
    assert_eq!(x, object(vec![("value", value), ("color", text("rgba(0, 0, 0, 0.1)"))]));
}

#[test]
fn it_can_reference_from_within_array() {
    let markup = r#"{
    "variables": {
        "name": "kalle",
        "surname": "anka"
    },
    "person": [
        {
            "name": "&{variables.name}"
        },
        {
            "surname": "&{variables.surname}"
        }
    ]
}"#;
    let x = parse(markup).unwrap();
    let variables = object(vec![("name", text("kalle")), ("surname", text("anka"))]);
    let person = Value::Array(vec![
        object(vec![("name", text("kalle"))]),
        object(vec![("surname", text("anka"))]),
    ]);
    assert_eq!(x, object(vec![("variables", variables), ("person", person)]));
}

#[test]
fn it_thows_error_when_reference_in_key() {
    let markup = r#"{
    "value": "10px",
    "key &{value}": "border-width: &{value}"
}"#;
    assert!(parse(markup).is_err());
    assert_eq!(parse(markup), Err(Error::ReferenceInKey));
}

#[test]
fn it_thows_error_when_referencing_arrays() {
    let markup = r#"{
    reference: [1, 2, 3],
    key: "&{reference}",
}"#;
    let x = parse(markup).err().unwrap();
    assert_eq!(
        format!("{}", x.message()),
        "Referencing arrays are not supported, failed at key: reference"
    );
    assert_eq!(
        x,
        Error::ArrayReference { target: "reference".to_string(), segment: "reference".to_string() }
    );
}

#[test]
fn it_thows_error_when_key_is_not_found() {
    let markup = r#"{
    hej: [1, 2, 3],
    hey: "&{tjena}",
}"#;
    let x = parse(markup).err().unwrap();
    assert_eq!(format!("{}", x.message()), "No data was found in: tjena at tjena");
}

#[test]
fn it_thows_error_when_key_is_not_found_in_nested() {
    let markup = r#"{
    variables: {
        colors: {
            r: "100",
            g: "100",
            b: "100"
        }
    },
    card: {
        color: "&{variables.colors.d}",
    },
}"#;
    let x = parse(markup).err().unwrap();
    assert_eq!(format!("{}", x.message()), "No data was found in: variables.colors.d at d");
    assert_eq!(
        x,
        Error::NotFound {
            target: "variables.colors.d".to_string(),
            missing_segment: "d".to_string()
        }
    );
}

#[test]
fn a_reference_to_a_number_is_not_substituted() {
    let markup = r#"{ "key1": 1, "key2": "&{key1}px" }"#;
    assert_eq!(parse(markup), Err(Error::UnsupportedSubstitution));
}

#[test]
fn a_reference_to_an_object_is_not_substituted() {
    let markup = r#"{ "key1": { "a": "b" }, "key2": "&{key1}" }"#;
    assert_eq!(parse(markup), Err(Error::UnsupportedSubstitution));
}

#[test]
fn a_reference_in_a_string_of_an_array_is_not_substituted() {
    let markup = r#"{ "v": "x", "k": ["&{v}"] }"#;
    assert_eq!(parse(markup), Err(Error::UnsupportedSubstitution));
}

#[test]
fn a_reference_in_a_root_array_finds_nothing() {
    let markup = r#"[{ "v": "x" }, "&{v}"]"#;
    assert_eq!(
        parse(markup),
        Err(Error::NotFound { target: "v".to_string(), missing_segment: "v".to_string() })
    );
}

#[test]
fn references_are_not_chained() {
    let markup = r#"{
    "key1": "1px",
    "key2": "&{key1} 2px",
    "key3": "&{key2} 3px",
}"#;
    let x = parse(markup).unwrap();
    assert_eq!(
        x,
        object(vec![
            ("key1", text("1px")),
            ("key2", text("1px 2px")),
            ("key3", text("&{key1} 2px 3px")),
        ])
    );
}

#[test]
fn every_occurrence_of_a_placeholder_is_replaced() {
    let markup = r#"{ "a": "x", "b": "&{a}-&{a}-&{a}" }"#;
    let x = parse(markup).unwrap();
    assert_eq!(x, object(vec![("a", text("x")), ("b", text("x-x-x"))]));
}

#[test]
fn the_other_sigil_is_plain_text() {
    let markup = r#"{ "a": "x", "b": "${a}" }"#;
    let x = parse(markup).unwrap();
    assert_eq!(x, object(vec![("a", text("x")), ("b", text("${a}"))]));
}

#[test]
fn a_scalar_element_of_an_array_is_passed_over() {
    let markup = r#"{ "x": "1", "a": [{ "b": "&{x}" }, "s", 7] }"#;
    let x = parse(markup).unwrap();
    let a = Value::Array(vec![
        object(vec![("b", text("1"))]),
        text("s"),
        Value::Number(serde_json::Number::from(7)),
    ]);
    assert_eq!(x, object(vec![("x", text("1")), ("a", a)]));
}

#[test]
fn every_element_of_an_array_gets_the_whole_path() {
    let markup = r#"{
    "x": "1",
    "y": "2",
    "a": [
        { "b": { "c": "&{x}" } },
        { "b": { "c": "&{y}" } }
    ]
}"#;
    let x = parse(markup).unwrap();
    let a = Value::Array(vec![
        object(vec![("b", object(vec![("c", text("1"))]))]),
        object(vec![("b", object(vec![("c", text("2"))]))]),
    ]);
    assert_eq!(x, object(vec![("x", text("1")), ("y", text("2")), ("a", a)]));
}

#[test]
fn a_key_with_a_dot_hides_the_owner() {
    let markup = r#"{ "x": "1", "a": 5, "a.b": "&{x}" }"#;
    assert_eq!(parse(markup), Err(Error::UnknownKey("b".to_string())));
}
