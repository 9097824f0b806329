//! The verified text utilities, exercised directly.

use callgraph::text::{dec_string, eq_str, join_segments, join_two, lex_le_str, name_listed,
    rsplit_sep, sort_strings, str_contains, str_ends_with, strip_quotes};

#[test]
fn string_equality_is_by_characters() {
    assert!(eq_str("abc", "abc"));
    assert!(!eq_str("abc", "abd"));
    assert!(!eq_str("abc", "ab"));
    assert!(eq_str("", ""));
}

#[test]
fn joining_uses_the_separator() {
    let parts = vec!["x".to_string(), "y".to_string()];
    assert_eq!(join_segments(&parts), "x::y");
    assert_eq!(join_two("Engine", "run"), "Engine::run");
}

#[test]
fn splitting_at_the_last_separator() {
    assert_eq!(rsplit_sep("a::b::c"), Some(("a::b".to_string(), "c".to_string())));
    assert_eq!(rsplit_sep("plain"), None);
    assert_eq!(rsplit_sep("a:::b"), Some(("a:".to_string(), "b".to_string())));
}

#[test]
fn substring_and_suffix_search() {
    assert!(str_contains("crate::tests::x", "tests"));
    assert!(!str_contains("crate", "tests"));
    assert!(str_contains("anything", ""));
    assert!(str_ends_with("parser_test", "_test"));
    assert!(!str_ends_with("test_parser", "_test"));
}

#[test]
fn quotes_are_stripped_from_labels() {
    assert_eq!(strip_quotes("a\"b\"c"), "abc");
    assert_eq!(strip_quotes("plain"), "plain");
    assert_eq!(strip_quotes("\"\""), "");
}

#[test]
fn decimal_rendering_is_exact() {
    assert_eq!(dec_string(0), "0");
    assert_eq!(dec_string(7), "7");
    assert_eq!(dec_string(10), "10");
    assert_eq!(dec_string(90301), "90301");
}

#[test]
fn sorting_is_lexicographic() {
    assert!(lex_le_str("alpha", "beta"));
    assert!(!lex_le_str("beta", "alpha"));
    assert!(lex_le_str("ab", "abc"));
    let v = vec!["zeta".to_string(), "alpha".to_string(), "mid".to_string()];
    let sorted = sort_strings(&v);
    assert_eq!(sorted, vec!["alpha".to_string(), "mid".to_string(), "zeta".to_string()]);
}

#[test]
fn listed_names_are_found() {
    let v = vec!["a".to_string(), "b".to_string()];
    assert!(name_listed(&v, "b"));
    assert!(!name_listed(&v, "c"));
}
