use d4t4::builder::{
    add_reference_to_ctx, number_value, parse_array, parse_bool, parse_number, parse_object,
    parse_string, parse_unicode, parse_value, read_string, remove_wrapping_quotes,
    replace_escape_in_string_pair,
};
use d4t4::context::Context;
use d4t4::tokenizer::{tokenize, Node, Rule};
use d4t4::{Error, Value};

fn chars(s: &str) -> Vec<char> {
    s.chars().collect()
}

fn text(s: &str) -> Value {
    Value::String(s.to_string())
}

fn targets(ctx: &Context) -> Vec<(String, Vec<String>)> {
    ctx.references
        .iter()
        .map(|group| (group.0.clone(), group.1.iter().map(|r| r.target.clone()).collect()))
        .collect()
}

#[test]
fn parse_unicode_gives_the_character_of_the_code() {
    assert_eq!(parse_unicode("\\u0041"), Ok("A".to_string()));
    assert_eq!(parse_unicode("\\u00e5"), Ok("å".to_string()));
    assert_eq!(parse_unicode("\\u00E5"), Ok("å".to_string()));
    assert_eq!(parse_unicode("\\u20AC"), Ok("€".to_string()));
    assert_eq!(parse_unicode("\\u0000"), Ok("\u{0}".to_string()));
    assert_eq!(parse_unicode("\\uffff"), Ok("\u{ffff}".to_string()));
    assert_eq!(parse_unicode("\\ud7ff"), Ok("\u{d7ff}".to_string()));
    assert_eq!(parse_unicode("\\ue000"), Ok("\u{e000}".to_string()));
}

#[test]
fn parse_unicode_rejects_what_is_no_scalar_value() {
    assert_eq!(parse_unicode("\\ud800"), Err(Error::InvalidUnicode("d800".to_string())));
    assert_eq!(parse_unicode("\\udfff"), Err(Error::InvalidUnicode("dfff".to_string())));
    assert_eq!(parse_unicode("\\u12g4"), Err(Error::InvalidUnicode("12g4".to_string())));
    assert_eq!(parse_unicode("\\u41"), Err(Error::InvalidUnicode("41".to_string())));
    assert_eq!(parse_unicode("\\u+041"), Err(Error::InvalidUnicode("+041".to_string())));
    assert_eq!(parse_unicode("\\u00041"), Err(Error::InvalidUnicode("00041".to_string())));
    assert_eq!(parse_unicode("\\u"), Err(Error::InvalidUnicode("".to_string())));
    assert_eq!(parse_unicode("\\"), Err(Error::InvalidUnicode("".to_string())));
    assert_eq!(parse_unicode(""), Err(Error::InvalidUnicode("".to_string())));
}

#[test]
fn a_surrogate_in_a_document_is_an_error() {
    assert_eq!(
        d4t4::parse(r#"["a\ud800b"]"#),
        Err(Error::InvalidUnicode("d800".to_string()))
    );
}

#[test]
fn remove_wrapping_quotes_takes_the_first_and_the_last_character() {
    let mut s = "\"abc\"".to_string();
    remove_wrapping_quotes(&mut s);
    assert_eq!(s, "abc");
    let mut s = "'å'".to_string();
    remove_wrapping_quotes(&mut s);
    assert_eq!(s, "å");
    let mut s = "\"\"".to_string();
    remove_wrapping_quotes(&mut s);
    assert_eq!(s, "");
    let mut s = "x".to_string();
    remove_wrapping_quotes(&mut s);
    assert_eq!(s, "");
    let mut s = String::new();
    remove_wrapping_quotes(&mut s);
    assert_eq!(s, "");
}

#[test]
fn parse_bool_reads_the_two_literals() {
    assert_eq!(parse_bool("true"), Ok(Value::Bool(true)));
    assert_eq!(parse_bool("false"), Ok(Value::Bool(false)));
    assert_eq!(parse_bool("True"), Err(Error::Literal("True".to_string())));
    assert_eq!(parse_bool(" true"), Err(Error::Literal(" true".to_string())));
    assert_eq!(parse_bool(""), Err(Error::Literal("".to_string())));
}

#[test]
fn parse_number_reads_what_serde_json_reads() {
    assert_eq!(parse_number("42"), Ok(Value::Number(serde_json::Number::from(42))));
    assert_eq!(parse_number("-42"), Ok(Value::Number(serde_json::Number::from(-42))));
    assert_eq!(
        parse_number("1.5"),
        Ok(Value::Number(serde_json::Number::from_f64(1.5).unwrap()))
    );
    assert_eq!(
        parse_number("1e3"),
        Ok(Value::Number(serde_json::Number::from_f64(1000.0).unwrap()))
    );
    assert_eq!(parse_number("abc"), Err(Error::Literal("abc".to_string())));
    assert_eq!(parse_number("4 2"), Err(Error::Literal("4 2".to_string())));
    assert_eq!(parse_number(""), Err(Error::Literal("".to_string())));
    assert_eq!(parse_number("true"), Err(Error::Literal("true".to_string())));
    assert_eq!(parse_number("1e999"), Err(Error::Literal("1e999".to_string())));
}

#[test]
fn number_value_wraps_a_number_and_names_the_text_otherwise() {
    assert_eq!(
        number_value(Some(serde_json::Number::from(7)), "7"),
        Ok(Value::Number(serde_json::Number::from(7)))
    );
    assert_eq!(number_value(None, "x7"), Err(Error::Literal("x7".to_string())));
}

#[test]
fn a_number_too_large_for_a_double_is_a_literal_error() {
    assert_eq!(d4t4::parse("[1e999]"), Err(Error::Literal("1e999".to_string())));
}

#[test]
fn parse_string_strips_quotes_and_records_placeholders() {
    let src = chars(r#"["a\tb &{x.y} c &{z}"]"#);
    let root = tokenize(&src, '&').unwrap();
    let mut ctx = Context::default();
    ctx.location.push("k".to_string());
    ctx.location.push("l".to_string());
    let value = parse_string(&src, &root.children[0], &mut ctx, true);
    assert_eq!(value, Ok(text("a\tb &{x.y} c &{z}")));
    assert_eq!(
        targets(&ctx),
        vec![("k.l".to_string(), vec!["x.y".to_string(), "z".to_string()])]
    );
    assert_eq!(ctx.location, vec!["k".to_string(), "l".to_string()]);
    assert!(ctx.references[0].1.iter().all(|r| r.value.is_none() && r.location == "k.l"));
}

#[test]
fn parse_string_refuses_a_placeholder_where_none_is_allowed() {
    let src = chars(r#"["a &{x}"]"#);
    let root = tokenize(&src, '&').unwrap();
    let mut ctx = Context::default();
    assert_eq!(parse_string(&src, &root.children[0], &mut ctx, false), Err(Error::ReferenceInKey));
    assert!(ctx.references.is_empty());
    assert_eq!(read_string(&src, &root.children[0], &mut ctx, false), Err(Error::ReferenceInKey));
}

#[test]
fn parse_string_reads_a_key_without_quotes() {
    let src = chars("{na-me_1: 1}");
    let root = tokenize(&src, '&').unwrap();
    let mut ctx = Context::default();
    let key = &root.children[0].children[0];
    assert_eq!(read_string(&src, key, &mut ctx, false), Ok("na-me_1".to_string()));
}

#[test]
fn replace_escape_in_string_pair_appends_the_decoded_run() {
    let src = chars(r#"["ab\n\ncd\\"]"#);
    let root = tokenize(&src, '&').unwrap();
    let run = &root.children[0].children[0];
    assert_eq!(run.rule, Rule::Text);
    let mut out = "> ".to_string();
    assert_eq!(replace_escape_in_string_pair(&src, run, &mut out, run.start), Ok(()));
    assert_eq!(out, "> ab\n\ncd\\");
}

#[test]
fn replace_escape_in_string_pair_leaves_the_string_on_an_error() {
    let src = chars(r#"["ab\n\udc00"]"#);
    let root = tokenize(&src, '&').unwrap();
    let run = &root.children[0].children[0];
    let mut out = "> ".to_string();
    assert_eq!(
        replace_escape_in_string_pair(&src, run, &mut out, run.start),
        Err(Error::InvalidUnicode("dc00".to_string()))
    );
    assert_eq!(out, "> ");
}

#[test]
fn add_reference_to_ctx_groups_by_location() {
    let src = chars("abc");
    let mut ctx = Context::default();
    let a = Node { rule: Rule::Reference, start: 0, end: 1, children: vec![] };
    let bc = Node { rule: Rule::Reference, start: 1, end: 3, children: vec![] };
    ctx.location.push("one".to_string());
    assert_eq!(add_reference_to_ctx(&src, &a, &mut ctx), Ok(()));
    ctx.location.push("two".to_string());
    assert_eq!(add_reference_to_ctx(&src, &bc, &mut ctx), Ok(()));
    ctx.location.pop();
    assert_eq!(add_reference_to_ctx(&src, &bc, &mut ctx), Ok(()));
    assert_eq!(
        targets(&ctx),
        vec![
            ("one".to_string(), vec!["a".to_string(), "bc".to_string()]),
            ("one.two".to_string(), vec!["bc".to_string()]),
        ]
    );
}

#[test]
fn parse_value_builds_every_kind() {
    let src = chars(r#"[null, true, 1, "s", [], {}]"#);
    let root = tokenize(&src, '&').unwrap();
    let mut ctx = Context::default();
    let built: Vec<Value> =
        root.children.iter().map(|n| parse_value(&src, n, &mut ctx).unwrap()).collect();
    assert_eq!(
        built,
        vec![
            Value::Null,
            Value::Bool(true),
            Value::Number(serde_json::Number::from(1)),
            text("s"),
            Value::Array(vec![]),
            Value::Object(vec![]),
        ]
    );
    assert_eq!(
        parse_array(&src, &root.children, &mut ctx),
        Ok(Value::Array(built))
    );
}

#[test]
fn parse_object_records_owners_below_arrays_without_an_index() {
    let src = chars(r#"{a: [{b: "&{x}"}, {b: "&{y}", c: ["&{z}"]}], "d": "&{x}"}"#);
    let root = tokenize(&src, '&').unwrap();
    let mut ctx = Context::default();
    let built = parse_object(&src, &root.children, &mut ctx).unwrap();
    let first = Value::Object(vec![("b".to_string(), text("&{x}"))]);
    let second = Value::Object(vec![
        ("b".to_string(), text("&{y}")),
        ("c".to_string(), Value::Array(vec![text("&{z}")])),
    ]);
    assert_eq!(
        built,
        Value::Object(vec![
            ("a".to_string(), Value::Array(vec![first, second])),
            ("d".to_string(), text("&{x}")),
        ])
    );
    assert_eq!(
        targets(&ctx),
        vec![
            ("a.b".to_string(), vec!["x".to_string(), "y".to_string()]),
            ("a.c".to_string(), vec!["z".to_string()]),
            ("d".to_string(), vec!["x".to_string()]),
        ]
    );
    assert!(ctx.location.is_empty());
}

#[test]
fn parse_object_finds_a_repeated_key_after_its_value() {
    let src = chars(r#"{a: 1, a: "\ud800"}"#);
    let root = tokenize(&src, '&').unwrap();
    let mut ctx = Context::default();
    assert_eq!(
        parse_object(&src, &root.children, &mut ctx),
        Err(Error::InvalidUnicode("d800".to_string()))
    );
    assert!(ctx.location.is_empty());
}
