use clipvault::watch::{capture_line, farewell_line, is_new_content, next_slice, Watcher};

#[test]
fn fresh_content_is_recorded() {
    assert!(is_new_content("hello", None));
    assert!(is_new_content("hello", Some("something else")));
}

#[test]
fn repeating_the_last_capture_is_not() {
    // The clipboard reads the same on every poll until you copy again, so
    // this is the common case, not the edge case.
    assert!(!is_new_content("hello", Some("hello")));
}

#[test]
fn whitespace_only_content_is_skipped() {
    assert!(!is_new_content("", None));
    assert!(!is_new_content("   ", None));
    assert!(!is_new_content("\n\t\n", None));
}

#[test]
fn surrounding_whitespace_still_counts_as_content() {
    // Copying an indented line of code is normal; only the empty case is
    // uninteresting, and the entry is stored with its whitespace intact.
    assert!(is_new_content("    indented", None));
}

#[test]
fn a_whitespace_difference_is_a_real_change() {
    // Trimming is a test for emptiness, not the comparison key: copying the
    // same word with different indentation is a genuine new capture.
    assert!(is_new_content("hello ", Some("hello")));
}

#[test]
fn every_unicode_blank_is_blank() {
    assert!(!is_new_content("\u{a0}\u{2003}\u{3000}\u{85}", None));
    // A zero-width space is not white space.
    assert!(is_new_content("\u{200b}", None));
}

#[test]
fn watcher_never_records_the_same_thing_twice_in_a_row() {
    let mut watcher = Watcher::new(Some("before".to_string()));
    let mut recorded: Vec<&str> = Vec::new();
    for seen in ["before", "a", "a", " ", "b", "b", "a", "", "a"] {
        if watcher.wants(seen) {
            watcher.record(seen.to_string(), true);
            recorded.push(seen);
        }
    }
    assert_eq!(recorded, ["a", "b", "a"]);
    assert_eq!(watcher.captured(), 3);
}

#[test]
fn concealed_content_counts_as_seen_but_not_as_captured() {
    let mut watcher = Watcher::new(None);
    assert!(watcher.wants("secret"));
    watcher.conceal("secret".to_string());
    assert!(!watcher.wants("secret"));
    assert_eq!(watcher.captured(), 0);
}

#[test]
fn a_failed_write_counts_as_seen_but_not_as_captured() {
    let mut watcher = Watcher::new(None);
    assert!(!watcher.record("a".to_string(), false));
    assert!(!watcher.wants("a"));
    assert_eq!(watcher.captured(), 0);
}

#[test]
fn a_prune_is_due_after_every_25th_capture() {
    let mut watcher = Watcher::new(None);
    let mut due: Vec<usize> = Vec::new();
    for n in 1..=80 {
        // A failed write in between makes no difference.
        watcher.record(format!("lost {n}"), false);
        if watcher.record(format!("entry {n}"), true) {
            due.push(n);
        }
    }
    assert_eq!(due, [25, 50, 75]);
}

#[test]
fn reports_read_as_they_should() {
    assert_eq!(capture_line("two\nlines"), "  + two lines");
    assert_eq!(farewell_line(0), "\nstopped — 0 entries captured this session");
    assert_eq!(farewell_line(1), "\nstopped — 1 entry captured this session");
    assert_eq!(farewell_line(20), "\nstopped — 20 entries captured this session");
}

#[test]
fn sleep_slices_add_up() {
    for total in [0u64, 1, 49, 50, 51, 730, 750] {
        let mut slept: u64 = 0;
        let mut slices = 0;
        while let Some(slice) = next_slice(slept, total) {
            assert!(slice > 0 && slice <= 50);
            slept += slice;
            slices += 1;
        }
        assert_eq!(slept, total);
        assert_eq!(slices, (total + 49) / 50);
    }
}
