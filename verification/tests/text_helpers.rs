use sysml::canonical::{
    canonical_name_text, canonical_short_name_text, canonical_string_literal_text, comment_text_of,
    ends_with_text, without_wildcard_text,
};
use sysml::order::text_before;
use sysml::strings::{debug_quoted, decimal_text, is_blank_text, join3, trim_text};

#[test]
fn canonical_names_drop_quotes_and_brackets() {
    assert_eq!(canonical_name_text("  'Flight Computer'  "), "Flight Computer");
    assert_eq!(canonical_name_text("'"), "'");
    assert_eq!(canonical_name_text("plain"), "plain");
    assert_eq!(canonical_short_name_text("<'REQ-1'>"), "REQ-1");
    assert_eq!(canonical_short_name_text("<REQ_THREE>"), "REQ_THREE");
    assert_eq!(canonical_string_literal_text("\"REQ-BASE\""), "REQ-BASE");
}

#[test]
fn comment_text_strips_delimiters() {
    assert_eq!(comment_text_of("/* The system shall work. */"), "The system shall work.");
    assert_eq!(comment_text_of("  /**/ "), "");
    assert_eq!(comment_text_of("/*/"), "/*/");
    assert_eq!(comment_text_of("no delimiters"), "no delimiters");
}

#[test]
fn wildcard_suffix_is_removed() {
    assert_eq!(without_wildcard_text(" Architecture::* "), "Architecture");
    assert_eq!(without_wildcard_text("Architecture::Computer"), "Architecture::Computer");
    assert!(ends_with_text("part_definition", "_definition"));
    assert!(!ends_with_text("usage", "_usage"));
}

#[test]
fn text_order_is_lexicographic() {
    assert!(text_before("a", "b"));
    assert!(text_before("a", "ab"));
    assert!(!text_before("ab", "a"));
    assert!(!text_before("same", "same"));
    assert!(text_before("Z", "a"));
}

#[test]
fn string_helpers() {
    assert_eq!(trim_text("\t x y \n"), "x y");
    assert!(is_blank_text(" \t\n"));
    assert!(!is_blank_text(" a "));
    assert_eq!(join3("a", "b", "c"), "abc");
    assert_eq!(decimal_text(4021), "4021");
    assert_eq!(decimal_text(0), "0");
    assert_eq!(debug_quoted("say \"hi\""), "\"say \\\"hi\\\"\"");
}
