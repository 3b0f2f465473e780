use rusync::matching::{paths_match, str_is_prefix};

#[test]
fn path_under_nested_file() {
    assert!(paths_match(&"/a/b".to_string(), &"/a/b/c.txt".to_string()));
}

#[test]
fn path_under_is_not_segment_safe() {
    // the documented literal-prefix semantics: /a/b matches /a/bc too
    assert!(paths_match(&"/a/b".to_string(), &"/a/bc".to_string()));
}

#[test]
fn path_not_under_unrelated() {
    assert!(!paths_match(&"/a/b".to_string(), &"/a/a".to_string()));
    assert!(!paths_match(&"/a/b".to_string(), &"/a".to_string()));
}

#[test]
fn prefix_reflexive() {
    assert!(str_is_prefix("some-name", "some-name"));
}

#[test]
fn prefix_empty_query_matches_all() {
    assert!(str_is_prefix("", "anything"));
    assert!(str_is_prefix("", ""));
}

#[test]
fn prefix_plain_cases() {
    assert!(str_is_prefix("doc", "documents"));
    assert!(!str_is_prefix("documents", "doc"));
    assert!(!str_is_prefix("dod", "documents"));
}
