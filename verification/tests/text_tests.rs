use postcode_ingest::text::normalize_code;
use postcode_ingest::text::str_eq;

#[test]
fn normalize_strips_spaces_and_uppercases() {
    assert_eq!(normalize_code("3511 ab"), "3511AB".to_string());
    assert_eq!(normalize_code("ab 1 c"), "AB1C".to_string());
    assert_eq!(normalize_code("AB1"), "AB1".to_string());
}

#[test]
fn normalize_empty_and_spaces_only() {
    assert_eq!(normalize_code(""), "".to_string());
    assert_eq!(normalize_code("   "), "".to_string());
}

#[test]
fn normalize_leaves_other_characters_alone() {
    assert_eq!(normalize_code("a-1!z"), "A-1!Z".to_string());
    assert_eq!(normalize_code("ZX 9"), "ZX9".to_string());
}

#[test]
fn str_eq_by_value() {
    assert!(str_eq("abc", "abc"));
    assert!(!str_eq("abc", "abd"));
    assert!(!str_eq("abc", "ab"));
    assert!(str_eq("", ""));
    assert!(!str_eq("", "a"));
}
