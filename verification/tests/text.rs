use d4t4::text::{join_path, replace, split_path, string_from, to_chars, token_at};
use d4t4::Error;

fn strings(parts: &[&str]) -> Vec<String> {
    parts.iter().map(|s| s.to_string()).collect()
}

#[test]
fn split_path_cuts_at_every_dot() {
    assert_eq!(split_path("a.b.c"), strings(&["a", "b", "c"]));
    assert_eq!(split_path("abc"), strings(&["abc"]));
    assert_eq!(split_path(""), strings(&[""]));
    assert_eq!(split_path("."), strings(&["", ""]));
    assert_eq!(split_path("a..b."), strings(&["a", "", "b", ""]));
    assert_eq!(split_path("å.ö"), strings(&["å", "ö"]));
}

#[test]
fn join_path_puts_dots_between() {
    assert_eq!(join_path(&strings(&["a", "b", "c"])), "a.b.c");
    assert_eq!(join_path(&strings(&["a"])), "a");
    assert_eq!(join_path(&strings(&[])), "");
    assert_eq!(join_path(&strings(&["", ""])), ".");
}

#[test]
fn joining_the_parts_of_a_split_gives_the_text_back() {
    for path in ["", "a", "a.b", ".a.", "..", "x.y.z.w"] {
        assert_eq!(join_path(&split_path(path)), path);
    }
}

#[test]
fn replace_takes_occurrences_from_left_to_right() {
    assert_eq!(replace("aXbXc", "X", "--"), "a--b--c");
    assert_eq!(replace("aaaa", "aa", "b"), "bb");
    assert_eq!(replace("aaa", "aa", "b"), "ba");
    assert_eq!(replace("abc", "abcd", "x"), "abc");
    assert_eq!(replace("abc", "", "x"), "abc");
    assert_eq!(replace("", "a", "x"), "");
    assert_eq!(replace("&{a}&{a}", "&{a}", ""), "");
    assert_eq!(replace("ååå", "å", "a"), "aaa");
}

#[test]
fn token_at_compares_in_place() {
    let s = to_chars("hello");
    assert!(token_at(&s, &to_chars("ell"), 1));
    assert!(!token_at(&s, &to_chars("ell"), 2));
    assert!(!token_at(&s, &to_chars("lox"), 3));
    assert!(token_at(&s, &to_chars(""), 5));
}

#[test]
fn string_from_copies_a_span() {
    let s = to_chars("héllo");
    assert_eq!(s.len(), 5);
    assert_eq!(string_from(&s, 1, 4), "éll");
    assert_eq!(string_from(&s, 2, 2), "");
}

#[test]
fn every_error_has_its_message() {
    assert_eq!(Error::Syntax(0).message(), "The text does not follow the grammar at offset 0");
    assert_eq!(
        Error::Syntax(1204).message(),
        "The text does not follow the grammar at offset 1204"
    );
    assert_eq!(
        Error::DuplicateKey("k".to_string()).message(),
        "Object already contains key: k"
    );
    assert_eq!(Error::ReferenceInKey.message(), "References are not allowed inside of keys");
    assert_eq!(Error::Literal("tru".to_string()).message(), "Not a literal: tru");
    assert_eq!(Error::InvalidUnicode("d800".to_string()).message(), "unknown unicode d800");
    assert_eq!(
        Error::NotFound { target: "a.b".to_string(), missing_segment: "b".to_string() }.message(),
        "No data was found in: a.b at b"
    );
    assert_eq!(
        Error::ArrayReference { target: "a.b".to_string(), segment: "a".to_string() }.message(),
        "Referencing arrays are not supported, failed at key: a"
    );
    assert_eq!(Error::UnknownKey("k".to_string()).message(), "unknown reference key k");
    assert_eq!(
        Error::UnsupportedSubstitution.message(),
        "only string references have been implemented"
    );
    let e = Error::NotFound { target: "a".to_string(), missing_segment: "a".to_string() };
    assert_eq!(e.clone(), e);
}

#[test]
fn a_value_is_cloned_whole() {
    let x = d4t4::parse(r#"{"a": [1, 2.5, "s", null, true, {"b": {}}]}"#).unwrap();
    assert_eq!(x.clone(), x);
}
