use clipvault::fuzzy::{score, SCAN_LIMIT};

#[test]
fn matches_a_plain_substring() {
    assert!(score("world", "hello world").is_some());
}

#[test]
fn matches_a_scattered_subsequence() {
    assert!(score("hlo", "hello").is_some());
    assert!(score("gcm", "git commit -m").is_some());
}

#[test]
fn rejects_characters_out_of_order() {
    assert!(score("olleh", "hello").is_none());
    assert!(score("xyz", "hello").is_none());
}

#[test]
fn is_case_insensitive() {
    assert!(score("HELLO", "hello").is_some());
    assert!(score("hello", "HELLO").is_some());
}

#[test]
fn an_empty_query_matches_anything() {
    assert_eq!(score("", "whatever"), Some(0));
}

#[test]
fn a_contiguous_run_outscores_a_scattered_one() {
    // Both match, but "hello" as one piece is what you meant.
    let tight = score("hello", "hello there").unwrap();
    let loose = score("hello", "h e l l o").unwrap();
    assert!(tight > loose, "tight {tight} should beat loose {loose}");
}

#[test]
fn a_word_start_outscores_a_mid_word_hit() {
    let start = score("cat", "the cat sat").unwrap();
    let middle = score("cat", "concatenate").unwrap();
    assert!(start > middle, "start {start} should beat middle {middle}");
}

#[test]
fn scoring_stops_at_the_scan_limit() {
    // A match past the cutoff isn't found, which is the documented trade.
    let text = format!("{}needle", "x".repeat(SCAN_LIMIT));
    assert!(score("needle", &text).is_none());

    let early = format!("needle{}", "x".repeat(SCAN_LIMIT));
    assert!(score("needle", &early).is_some());
}

#[test]
fn multibyte_text_does_not_panic_or_mismatch() {
    assert!(score("caf", "café ☕ latte").is_some());
    assert!(score("☕", "café ☕ latte").is_some());
}

#[test]
fn scores_add_up_match_by_match() {
    // A leading match, then four adjacent ones.
    assert_eq!(score("hello", "hello there"), Some(77));
    // A leading match, then four word starts with a gap of one each.
    assert_eq!(score("hello", "h e l l o"), Some(53));
    // A word start, then two adjacent matches.
    assert_eq!(score("cat", "the cat sat"), Some(43));
    // A leading match, a gap of three, an adjacent match.
    assert_eq!(score("cat", "concatenate"), Some(27));
    // The hump of a camelCase name.
    assert_eq!(score("b", "fooBar"), Some(7));
    // A plain match inside a word.
    assert_eq!(score("o", "fooBar"), Some(1));
    // One huge gap costs no more than ten.
    assert_eq!(score("ab", &format!("a{}b", "x".repeat(500))), Some(4));
}

#[test]
fn case_folds_outside_ascii_too() {
    assert_eq!(score("É", "é"), Some(13));
    assert_eq!(score("é", "É"), Some(13));
    // A character with a lowercase form of two characters matches neither.
    assert_eq!(score("i", "İ"), None);
    // A letter outside ASCII is part of a word, a symbol is not.
    assert_eq!(score("b", "éb"), Some(1));
    assert_eq!(score("b", "☕b"), Some(11));
    assert_eq!(score("é", "aÉ"), Some(7));
}

#[test]
fn query_case_makes_no_difference_to_the_score() {
    let entry = "Deploy the API server";
    assert_eq!(score("API", entry), score("api", entry));
    assert_eq!(score("DePloY", entry), score("deploy", entry));
}

#[test]
fn nothing_past_the_scan_limit_counts() {
    let base = "y".repeat(SCAN_LIMIT);
    let a = format!("{base}y");
    let b = format!("{base}z needle");
    assert_eq!(score("yy", &a), score("yy", &b));
    assert_eq!(score("yz", &b), None);
}
