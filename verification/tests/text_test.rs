use forgeindex::pattern::{
    after_last_str, before_first_str, last_word_str, prefix_within_str, replace_all_str, split_char_str,
    strip_prefix_str, trim_end_matches_str, trim_set_str, trim_start_matches_str,
};

#[test]
fn affixes_are_trimmed_repeatedly() {
    assert_eq!(trim_start_matches_str("\"\"\"doc\"\"\"", "\"\"\""), "doc\"\"\"");
    assert_eq!(trim_end_matches_str("a;;;", ";"), "a");
    assert_eq!(trim_set_str("('x')", &['(', ')', '\'']), "x");
    assert_eq!(strip_prefix_str("use a::b;", "use "), Some("a::b;".to_string()));
    assert_eq!(strip_prefix_str("import x", "use "), None);
}

#[test]
fn texts_split_as_str_does() {
    assert_eq!(split_char_str("a,b,,c", ','), vec!["a", "b", "", "c"]);
    assert_eq!(split_char_str("", ','), vec![""]);
    assert_eq!(before_first_str("x as y as z", " as "), "x");
    assert_eq!(after_last_str("java.util.List", '.'), "List");
    assert_eq!(last_word_str("(r *Router)  "), Some("*Router)".to_string()));
    assert_eq!(last_word_str("   "), None);
    assert_eq!(replace_all_str("a::b::c", "::", "/"), "a/b/c");
}

#[test]
fn byte_prefixes_stop_at_whole_characters() {
    assert_eq!(prefix_within_str("héllo", 2), "h");
    assert_eq!(prefix_within_str("héllo", 3), "hé");
    assert_eq!(prefix_within_str("abc", 10), "abc");
}
