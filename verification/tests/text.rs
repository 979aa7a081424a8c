use bokfell::text::{excerpt_matches, normalize_whitespace};

#[test]
fn collapses_whitespace_only() {
    assert_eq!(
        normalize_whitespace("  To nest an\n  ordered\tlist,  add "),
        "To nest an ordered list, add"
    );
    assert_eq!(
        normalize_whitespace("a *strong* `code`"),
        "a *strong* `code`"
    );
}

#[test]
fn matches_substrings_after_normalization() {
    let block = "To nest an ordered list, add a marker character for each level\nof nesting.";
    assert!(excerpt_matches(
        block,
        "add a marker character for each level of nesting"
    ));
    assert!(excerpt_matches(
        block,
        "add a marker character\n    for each level\n    of nesting."
    ));
    assert!(excerpt_matches(block, "level of nest"));
    assert!(!excerpt_matches(
        block,
        "add a marker character for every level"
    ));
    assert!(!excerpt_matches(block, "add a  marker charactor"));
    assert!(!excerpt_matches(block, "   "));
}

#[test]
fn normalization_is_idempotent_on_examples() {
    for s in ["", "   ", " a  b\t\nc ", "x"] {
        let once = normalize_whitespace(s);
        assert_eq!(normalize_whitespace(&once), once);
    }
    assert_eq!(normalize_whitespace(" \t\n "), "");
}
