use d4t4::{Data, Error, Myson, Value, Zen};

const MARKUP: &str = r#"{ name: 'kalle', greeting: "hej ${name}", list: [1, 2] }"#;

#[test]
fn myson_holds_what_the_document_says() {
    let held = Myson::parse(MARKUP).unwrap();
    assert_eq!(held.value(), &Data::parse(MARKUP).unwrap());
    match held.into_value() {
        Value::Object(members) => {
            assert_eq!(members[1], ("greeting".to_string(), Value::String("hej kalle".to_string())));
        }
        _ => panic!("an object was read"),
    }
}

#[test]
fn zen_holds_what_the_document_says() {
    let held = Zen::parse(MARKUP).unwrap();
    assert_eq!(held.value(), &Data::parse(MARKUP).unwrap());
    assert_eq!(held.into_value(), Data::parse(MARKUP).unwrap());
}

#[test]
fn the_holders_fail_as_the_reader_does() {
    assert_eq!(Myson::parse("{a: 1, a: 2}").err(), Some(Error::DuplicateKey("a".to_string())));
    assert_eq!(Zen::parse("{a: ${b}}").err(), Some(Error::Syntax(4)));
    assert_eq!(
        Zen::parse("{a: '${b}'}").err(),
        Some(Error::NotFound { target: "b".to_string(), missing_segment: "b".to_string() })
    );
}
