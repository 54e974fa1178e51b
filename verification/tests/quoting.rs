use d4t4::{parse, Value};

fn text(s: &str) -> Value {
    Value::String(s.to_string())
}

fn object(members: Vec<(&str, Value)>) -> Value {
    Value::Object(members.into_iter().map(|(k, v)| (k.to_string(), v)).collect())
}

#[test]
fn it_can_parse_double_quotes() {
    let markup = r#"{
    "name": "Mr. Anderson",
    "greeting": "We meet again &{name}",
}"#;
    let x = parse(markup).unwrap();
    assert_eq!(
        x,
        object(vec![
            ("name", text("Mr. Anderson")),
            ("greeting", text("We meet again Mr. Anderson")),
        ])
    );
}

#[test]
fn it_can_parse_single_quotes() {
    let markup = r#"{
    'name': 'Mr. Anderson',
    'greeting': 'We meet again &{name}',
}"#;
    let x = parse(markup).unwrap();
    assert_eq!(
        x,
        object(vec![
            ("name", text("Mr. Anderson")),
            ("greeting", text("We meet again Mr. Anderson")),
        ])
    );
}

#[test]
fn it_can_parse_mixed_quotations() {
    let markup = r#"{
    "name": 'Mr. Anderson',
    "greeting": 'We "meet" again &{name}',
}"#;
    let x = parse(markup).unwrap();
    assert_eq!(
        x,
        object(vec![
            ("name", text("Mr. Anderson")),
            ("greeting", text("We \"meet\" again Mr. Anderson")),
        ])
    );
}

#[test]
fn it_can_parse_double_inside_single_quotes() {
    let markup = r#"{
    'name': 'Mr. Anderson',
    'greeting': 'We "meet" again &{name}',
}"#;
    let x = parse(markup).unwrap();
    assert_eq!(
        x,
        object(vec![
            ("name", text("Mr. Anderson")),
            ("greeting", text("We \"meet\" again Mr. Anderson")),
        ])
    );
}

#[test]
fn it_can_parse_single_inside_double_quotes() {
    let markup = r#"{
    "name": "Mr. Anderson",
    "greeting": "We 'meet' again &{name}",
}"#;
    let x = parse(markup).unwrap();
    assert_eq!(
        x,
        object(vec![
            ("name", text("Mr. Anderson")),
            ("greeting", text("We 'meet' again Mr. Anderson")),
        ])
    );
}

#[test]
fn it_can_parse_double_with_escaped_double() {
    let markup = r#"{
    "name": "Mr. Anderson",
    "greeting": "We \"meet\" again &{name}",
}"#;
    let x = parse(markup).unwrap();
    assert_eq!(
        x,
        object(vec![
            ("name", text("Mr. Anderson")),
            ("greeting", text("We \"meet\" again Mr. Anderson")),
        ])
    );
}

#[test]
fn it_can_parse_single_with_escaped_single() {
    let markup = r#"{
    'name': 'Mr. Anderson',
    'greeting': 'We \'meet\' again &{name}',
}"#;
    let x = parse(markup).unwrap();
    assert_eq!(
        x,
        object(vec![
            ("name", text("Mr. Anderson")),
            ("greeting", text("We 'meet' again Mr. Anderson")),
        ])
    );
}

#[test]
fn it_can_parse_backtick_quotes() {
    let markup = "{ `name`: `a \"b\" 'c'` }";
    let x = parse(markup).unwrap();
    assert_eq!(x, object(vec![("name", text("a \"b\" 'c'"))]));
}

#[test]
fn equal_escapes_are_each_decoded_where_they_stand() {
    let markup = r#"{ "a": "1\n2\n3\n", "b": "\\n\n", "c": "\t\\t\t" }"#;
    let x = parse(markup).unwrap();
    assert_eq!(
        x,
        object(vec![("a", text("1\n2\n3\n")), ("b", text("\\n\n")), ("c", text("\t\\t\t"))])
    );
}

#[test]
fn every_escape_has_its_character() {
    let markup = r#"{ "a": "\/\\\r\t\"\'\b\f\n\u0041\u00e5" }"#;
    let x = parse(markup).unwrap();
    assert_eq!(x, object(vec![("a", text("/\\\r\t\"'\u{8}\u{c}\nA\u{e5}"))]));
}

#[test]
fn text_beyond_ascii_is_kept() {
    let markup = "{ \"namn\": \"Åsa 🦀\", \"hälsning\": \"Hej &{namn}!\" }";
    let x = parse(markup).unwrap();
    assert_eq!(x, object(vec![("namn", text("Åsa 🦀")), ("hälsning", text("Hej Åsa 🦀!"))]));
}
