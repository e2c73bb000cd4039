use clipvault::display::{entry_line, format_entry, format_timestamp, preview, timestamp_at};
use clipvault::history::HistoryEntry;

#[test]
fn collapses_newlines_and_tabs_to_single_spaces() {
    assert_eq!(preview("one\ntwo\t\tthree", 80), "one two three");
    assert_eq!(preview("a\r\n\r\nb", 80), "a b");
}

#[test]
fn trims_leading_and_trailing_whitespace() {
    assert_eq!(preview("  \t padded \n ", 80), "padded");
    assert_eq!(preview("   \n\t ", 80), "");
    assert_eq!(preview("", 80), "");
}

#[test]
fn strips_control_characters() {
    // An entry carrying escape sequences must not be able to move the cursor
    // or recolor the terminal.
    let out = preview("red\u{1b}[31mtext\u{0}end", 80);
    assert_eq!(out, "red [31mtext end");
    assert!(!out.contains('\u{1b}'));
}

#[test]
fn truncation_fits_within_the_budget_including_the_ellipsis() {
    let out = preview(&"x".repeat(200), 10);
    assert_eq!(out, "xxxxxxxxx…");
    assert_eq!(out.chars().count(), 10);
}

#[test]
fn content_at_exactly_the_budget_is_not_truncated() {
    let out = preview(&"x".repeat(10), 10);
    assert_eq!(out, "x".repeat(10));
    assert!(!out.ends_with('…'));
}

#[test]
fn truncation_counts_characters_not_bytes() {
    // Each of these is multi-byte; a byte-based cut would split one and panic.
    let out = preview(&"é".repeat(50), 10);
    assert_eq!(out.chars().count(), 10);
    assert_eq!(out, format!("{}…", "é".repeat(9)));
}

#[test]
fn zero_width_yields_nothing() {
    assert_eq!(preview("anything", 0), "");
}

#[test]
fn malformed_timestamp_falls_back_to_the_raw_value() {
    assert_eq!(format_timestamp("not-a-date"), "not-a-date");
}

#[test]
fn valid_timestamp_is_reformatted() {
    let out = format_timestamp("2026-08-19T14:00:00+00:00");
    assert!(out.starts_with("2026-08-19"), "unexpected: {out}");
    assert_eq!(out.len(), 19);
}

#[test]
fn one_moment_written_two_ways_is_shown_one_way() {
    let a = format_timestamp("2026-08-19T14:00:00+00:00");
    let b = format_timestamp("2026-08-19T16:00:00.25+02:00");
    assert_eq!(a, b);
    assert!(a.ends_with(":00:00") || a.ends_with(":30:00") || a.ends_with(":45:00"));
}

#[test]
fn leap_second_and_extreme_years_are_shown() {
    assert_eq!(format_timestamp("2016-12-31T23:59:60Z").len(), 19);
    assert_eq!(format_timestamp("0001-01-02T00:00:00Z").len(), 19);
    assert_eq!(format_timestamp("9999-12-30T23:59:59Z").len(), 19);
}

#[test]
fn ellipsis_replaces_the_last_character_when_a_space_is_due() {
    // "ab" fits three characters, "ab c" does not.
    assert_eq!(preview("ab c", 3), "ab…");
    assert_eq!(preview("abc d", 3), "ab…");
    assert_eq!(preview("abc", 3), "abc");
    assert_eq!(preview("abc  \n", 3), "abc");
    assert_eq!(preview("xy", 1), "…");
}

#[test]
fn preview_of_a_preview_is_the_same() {
    let content = "  several\twords \u{7}in a\nline that is cut ";
    for width in 0..40 {
        let once = preview(content, width);
        assert_eq!(preview(&once, width), once);
        assert!(once.chars().count() <= width);
        assert!(!once.chars().any(char::is_control));
    }
}

#[test]
fn entry_lines_are_padded_to_five_digits() {
    let entry = HistoryEntry {
        id: 1,
        timestamp: "not-a-date".to_string(),
        content: "two\nlines".to_string(),
        source: None,
        source_bundle_id: None,
    };
    assert_eq!(format_entry(7, &entry), "    7  not-a-date  two lines");
    assert_eq!(entry_line(123456, "when", "x"), "123456  when  x");
    assert_eq!(entry_line(0, "when", ""), "    0  when  ");
}

#[test]
fn an_entry_is_always_one_safe_line() {
    let entry = HistoryEntry {
        id: 1,
        timestamp: " not\n\u{1b}[2Ja-date\u{7f}\r\n".to_string(),
        content: "two\nlines".to_string(),
        source: None,
        source_bundle_id: None,
    };
    let line = format_entry(7, &entry);
    assert_eq!(line, "    7  not [2Ja-date  two lines");
    assert!(!line.chars().any(char::is_control));
    assert_eq!(entry_line(1, "a\tb\u{85}", "x"), "    1  a b  x");
    // Only where it is shown: the stored value is handed on as it is.
    assert_eq!(format_timestamp("a\nb"), "a\nb");
}

#[test]
fn a_moment_is_shown_at_an_offset() {
    let raw = "2026-08-19T14:00:00+00:00";
    assert_eq!(timestamp_at(raw, 0), "2026-08-19 14:00:00");
    assert_eq!(timestamp_at(raw, 7_200), "2026-08-19 16:00:00");
    assert_eq!(timestamp_at(raw, -50_400), "2026-08-19 00:00:00");
    assert_eq!(timestamp_at(raw, 86_399), "2026-08-20 13:59:59");
    assert_eq!(timestamp_at("2026-08-19T16:00:00.25+02:00", 0), "2026-08-19 14:00:00");
    assert_eq!(timestamp_at("2016-12-31T23:59:60Z", 0), "2016-12-31 23:59:60");
    assert_eq!(timestamp_at("not-a-date", 3_600), "not-a-date");
}
