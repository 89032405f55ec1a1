use block_analysis::text::{
    contains_in_small_letters, contains_text, is_before, parse_u64, text_eq,
};

#[test]
fn substrings_are_found_anywhere() {
    assert!(contains_text("slot was skipped", "skipped"));
    assert!(contains_text("abc", ""));
    assert!(contains_text("", ""));
    assert!(!contains_text("ab", "abc"));
    assert!(contains_text("aab", "ab"));
    assert!(contains_in_small_letters("Too MANY Requests", "too many requests"));
    assert!(!contains_in_small_letters("too few requests", "too many requests"));
}

#[test]
fn texts_are_ordered_by_code_point() {
    assert!(is_before("a", "b") && !is_before("b", "a"));
    assert!(is_before("a", "aa") && !is_before("aa", "a"));
    assert!(!is_before("a", "a"));
    assert!(is_before("Z", "a"));
    assert!(is_before("\u{7f}", "\u{ffff}") && is_before("\u{ffff}", "\u{10000}"));
    assert!(text_eq("ab", "ab") && !text_eq("ab", "ac") && !text_eq("ab", "a"));
}

#[test]
fn amounts_are_read_in_decimal() {
    assert_eq!(parse_u64("0"), Some(0));
    assert_eq!(parse_u64("+17"), Some(17));
    assert_eq!(parse_u64("007"), Some(7));
    assert_eq!(parse_u64("18446744073709551615"), Some(u64::MAX));
    for bad in ["", "+", "-1", "18446744073709551616", "1.5", " 1", "1_000", "++1"] {
        assert_eq!(parse_u64(bad), None);
        assert!(bad.parse::<u64>().is_err());
    }
}
