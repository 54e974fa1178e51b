use d4t4::context::{Context, Reference};
use d4t4::resolver::{
    get_reference_value, get_reference_values, placeholder_token, set_reference_value_at_target,
    set_reference_values,
};
use d4t4::{Error, Value};

fn text(s: &str) -> Value {
    Value::String(s.to_string())
}

fn object(members: Vec<(&str, Value)>) -> Value {
    Value::Object(members.into_iter().map(|(k, v)| (k.to_string(), v)).collect())
}

fn reference(target: &str, value: Option<Value>, location: &str) -> Reference {
    Reference { target: target.to_string(), value, location: location.to_string() }
}

fn path(segments: &[&str]) -> Vec<String> {
    segments.iter().map(|s| s.to_string()).collect()
}

fn tree() -> Value {
    object(vec![
        ("a", object(vec![("b", object(vec![("c", text("deep"))])), ("n", Value::Null)])),
        ("list", Value::Array(vec![text("x")])),
        ("s", text("top")),
        ("", object(vec![("", text("nameless"))])),
        ("seven", Value::Number(serde_json::Number::from(7))),
    ])
}

#[test]
fn resolve_returns_the_value_at_the_path() {
    let data = tree();
    let r = reference("t", None, "");
    assert_eq!(get_reference_value(&data, &r, "s"), Ok(text("top")));
    assert_eq!(get_reference_value(&data, &r, "a.b.c"), Ok(text("deep")));
    assert_eq!(get_reference_value(&data, &r, "a.n"), Ok(Value::Null));
    assert_eq!(get_reference_value(&data, &r, "."), Ok(text("nameless")));
    assert_eq!(
        get_reference_value(&data, &r, "seven"),
        Ok(Value::Number(serde_json::Number::from(7)))
    );
}

#[test]
fn resolve_returns_an_object_where_the_path_ends_at_one() {
    let data = tree();
    let r = reference("t", None, "");
    assert_eq!(
        get_reference_value(&data, &r, "a.b"),
        Ok(object(vec![("c", text("deep"))]))
    );
    assert_eq!(get_reference_value(&data, &r, ""), Ok(object(vec![("", text("nameless"))])));
}

#[test]
fn resolve_stops_at_the_first_value_that_is_no_object() {
    let data = tree();
    let r = reference("t", None, "");
    assert_eq!(get_reference_value(&data, &r, "s.more.segments"), Ok(text("top")));
}

#[test]
fn resolve_names_the_target_and_the_missing_segment() {
    let data = tree();
    let r = reference("the.target", None, "");
    assert_eq!(
        get_reference_value(&data, &r, "a.x.c"),
        Err(Error::NotFound {
            target: "the.target".to_string(),
            missing_segment: "x".to_string()
        })
    );
    assert_eq!(
        get_reference_value(&data, &r, "a..c"),
        Err(Error::NotFound { target: "the.target".to_string(), missing_segment: "".to_string() })
    );
    assert_eq!(
        get_reference_value(&text("scalar"), &r, "a"),
        Err(Error::NotFound { target: "the.target".to_string(), missing_segment: "a".to_string() })
    );
}

#[test]
fn resolve_rejects_a_path_through_an_array() {
    let data = tree();
    let r = reference("list.0", None, "");
    let fault = Error::ArrayReference { target: "list.0".to_string(), segment: "list".to_string() };
    assert_eq!(get_reference_value(&data, &r, "list"), Err(fault.clone()));
    assert_eq!(get_reference_value(&data, &r, "list.0"), Err(fault));
}

#[test]
fn get_reference_values_fills_in_every_value() {
    let data = tree();
    let mut ctx = Context::default();
    ctx.references.push((
        "one".to_string(),
        vec![reference("s", None, "one"), reference("a.b.c", None, "one")],
    ));
    ctx.references.push(("two".to_string(), vec![reference("seven", None, "two")]));
    assert_eq!(get_reference_values(&data, &mut ctx), Ok(()));
    assert_eq!(ctx.references[0].1[0].value, Some(text("top")));
    assert_eq!(ctx.references[0].1[1].value, Some(text("deep")));
    assert_eq!(
        ctx.references[1].1[0].value,
        Some(Value::Number(serde_json::Number::from(7)))
    );
    assert_eq!(ctx.references[0].1[1].target, "a.b.c");
    assert_eq!(ctx.references.len(), 2);
}

#[test]
fn get_reference_values_stops_at_the_first_fault() {
    let data = tree();
    let mut ctx = Context::default();
    ctx.references.push((
        "one".to_string(),
        vec![reference("s", None, "one"), reference("nope", None, "one")],
    ));
    ctx.references.push(("two".to_string(), vec![reference("seven", None, "two")]));
    assert_eq!(
        get_reference_values(&data, &mut ctx),
        Err(Error::NotFound { target: "nope".to_string(), missing_segment: "nope".to_string() })
    );
    assert_eq!(ctx.references[0].1[0].value, Some(text("top")));
    assert_eq!(ctx.references[0].1[1].value, None);
    assert_eq!(ctx.references[1].1[0].value, None);
}

#[test]
fn placeholder_token_wraps_the_target() {
    assert_eq!(placeholder_token('&', &"a.b".to_string()), "&{a.b}");
    assert_eq!(placeholder_token('$', &"".to_string()), "${}");
}

#[test]
fn substitution_replaces_the_tokens_of_each_reference_in_turn() {
    let mut data = text("&{a} and &{b} and &{a}, not ${a}");
    let refs = vec![
        reference("a", Some(text("&{b}")), ""),
        reference("b", Some(text("B")), ""),
    ];
    assert_eq!(set_reference_value_at_target(&mut data, &path(&[]), 0, &refs, true, '&'), Ok(()));
    assert_eq!(data, text("B and B and B, not ${a}"));
}

#[test]
fn substitution_passes_over_a_reference_without_a_value() {
    let mut data = text("&{a} &{b}");
    let refs = vec![reference("a", None, ""), reference("b", Some(text("B")), "")];
    assert_eq!(set_reference_value_at_target(&mut data, &path(&[]), 0, &refs, true, '&'), Ok(()));
    assert_eq!(data, text("&{a} B"));
}

#[test]
fn substitution_needs_strings_on_both_sides() {
    let seven = Value::Number(serde_json::Number::from(7));
    let mut data = text("&{a}");
    let refs = vec![reference("a", Some(seven.clone()), "")];
    assert_eq!(
        set_reference_value_at_target(&mut data, &path(&[]), 0, &refs, true, '&'),
        Err(Error::UnsupportedSubstitution)
    );
    assert_eq!(data, text("&{a}"));
    let mut data = seven.clone();
    let refs = vec![reference("a", Some(text("x")), "")];
    assert_eq!(
        set_reference_value_at_target(&mut data, &path(&[]), 0, &refs, true, '&'),
        Err(Error::UnsupportedSubstitution)
    );
    let mut data = seven.clone();
    assert_eq!(set_reference_value_at_target(&mut data, &path(&[]), 0, &vec![], true, '&'), Ok(()));
    assert_eq!(data, seven);
}

#[test]
fn an_array_hands_the_path_to_each_element() {
    let mut data = object(vec![(
        "items",
        Value::Array(vec![
            object(vec![("name", text("${v}"))]),
            object(vec![("other", text("x"))]),
            Value::Array(vec![object(vec![("name", text("<${v}>"))])]),
            text("${v}"),
        ]),
    )]);
    let refs = vec![reference("v", Some(text("kalle")), "items.name")];
    assert_eq!(
        set_reference_value_at_target(&mut data, &path(&["items", "name"]), 0, &refs, true, '$'),
        Ok(())
    );
    assert_eq!(
        data,
        object(vec![(
            "items",
            Value::Array(vec![
                object(vec![("name", text("kalle"))]),
                object(vec![("other", text("x"))]),
                Value::Array(vec![object(vec![("name", text("<kalle>"))])]),
                text("${v}"),
            ]),
        )])
    );
}

#[test]
fn a_missing_key_is_a_fault_below_an_object_only() {
    let refs = vec![reference("v", Some(text("x")), "a.b")];
    let mut data = object(vec![("a", object(vec![("c", text("&{v}"))]))]);
    assert_eq!(
        set_reference_value_at_target(&mut data, &path(&["a", "b"]), 0, &refs, true, '&'),
        Err(Error::UnknownKey("b".to_string()))
    );
    assert_eq!(
        set_reference_value_at_target(&mut data, &path(&["z", "b"]), 0, &refs, true, '&'),
        Err(Error::UnknownKey("z".to_string()))
    );
    assert_eq!(
        set_reference_value_at_target(&mut data, &path(&["z", "b"]), 0, &refs, false, '&'),
        Ok(())
    );
    let mut scalar = text("s");
    assert_eq!(
        set_reference_value_at_target(&mut scalar, &path(&["a"]), 0, &refs, true, '&'),
        Err(Error::UnknownKey("a".to_string()))
    );
    assert_eq!(
        set_reference_value_at_target(&mut scalar, &path(&["a"]), 0, &refs, false, '&'),
        Ok(())
    );
    assert_eq!(scalar, text("s"));
}

#[test]
fn a_fault_leaves_the_elements_before_it_substituted() {
    let mut data = Value::Array(vec![
        object(vec![("k", text("&{v}"))]),
        object(vec![("k", Value::Null)]),
        object(vec![("k", text("&{v}"))]),
    ]);
    let refs = vec![reference("v", Some(text("x")), "k")];
    assert_eq!(
        set_reference_value_at_target(&mut data, &path(&["k"]), 0, &refs, true, '&'),
        Err(Error::UnsupportedSubstitution)
    );
    assert_eq!(
        data,
        Value::Array(vec![
            object(vec![("k", text("x"))]),
            object(vec![("k", Value::Null)]),
            object(vec![("k", text("&{v}"))]),
        ])
    );
}

#[test]
fn set_reference_values_walks_every_group() {
    let mut data = object(vec![
        ("a", text("&{x}")),
        ("b", object(vec![("c", text("&{x}&{y}"))])),
    ]);
    let mut ctx = Context::default();
    ctx.references.push(("a".to_string(), vec![reference("x", Some(text("1")), "a")]));
    ctx.references.push((
        "b.c".to_string(),
        vec![reference("x", Some(text("1")), "b.c"), reference("y", Some(text("2")), "b.c")],
    ));
    assert_eq!(set_reference_values(&mut data, &ctx, '&'), Ok(()));
    assert_eq!(data, object(vec![("a", text("1")), ("b", object(vec![("c", text("12"))]))]));
}
