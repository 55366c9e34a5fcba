use a3s_vec::index::scalar::{like_literal_prefix, like_match};

#[test]
fn wildcard_matching_agrees_with_filter_syntax() {
    assert!(like_match("src/lib.rs", "src/%"));
    assert!(like_match("main.rs", "*.rs"));
    assert!(like_match("abc", "a_c"));
    assert!(!like_match("src/lib.rs", "tests/%"));
}

#[test]
fn like_prefix_stops_before_the_first_wildcard() {
    assert_eq!(like_literal_prefix("src/%/lib.rs").as_deref(), Some("src/"));
    assert_eq!(like_literal_prefix("main.rs").as_deref(), Some("main.rs"));
    assert_eq!(like_literal_prefix("_ain.rs"), None);
    assert_eq!(like_literal_prefix("*.rs"), None);
}

#[test]
fn wildcards_match_empty_runs_and_underscore_needs_a_character() {
    assert!(like_match("", "%"));
    assert!(like_match("", ""));
    assert!(!like_match("", "_"));
    assert!(like_match("abc", "%%c"));
    assert!(like_match("abc", "a*%*"));
    assert!(!like_match("ab", "a_c"));
    assert!(like_match("\u{4e2d}\u{6587}", "_\u{6587}"));
    assert!(!like_match("abc", "abcd"));
    assert!(!like_match("abcd", "abc"));
}
