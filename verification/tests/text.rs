use clipvault::text::{decimal_text, is_blank, parse_index, parse_number, same, strip};

#[test]
fn numbers_are_read_as_they_are_written() {
    for n in [0u64, 7, 10, 42, 1000, 18446744073709551615] {
        assert_eq!(decimal_text(n), n.to_string());
        assert_eq!(parse_number(&decimal_text(n)), Some(n));
    }
}

#[test]
fn only_whole_numbers_that_fit_are_read() {
    assert_eq!(parse_number("+5"), Some(5));
    assert_eq!(parse_number("007"), Some(7));
    for text in ["", "+", "-1", "++1", "1 ", " 1", "1.0", "0x1", "١", "18446744073709551616"] {
        assert_eq!(parse_number(text), None);
        assert_eq!(text.parse::<u64>().ok(), None);
    }
    assert_eq!(parse_index("20"), Some(20));
    assert_eq!(parse_index("99999999999999999999999"), None);
}

#[test]
fn prefixes_are_stripped_where_they_are_there() {
    assert_eq!(strip("KeyV", "Key").as_deref(), Some("V"));
    assert_eq!(strip("Key", "Key").as_deref(), Some(""));
    assert_eq!(strip("Ke", "Key"), None);
    assert_eq!(strip("keyV", "Key"), None);
    assert_eq!(strip("é☕", "é").as_deref(), Some("☕"));
}

#[test]
fn blankness_and_sameness() {
    assert!(is_blank(""));
    assert!(is_blank(" \t\n\u{a0}"));
    assert!(!is_blank(" x "));
    assert!(same("é", "é"));
    assert!(!same("é", "e\u{301}"));
}
