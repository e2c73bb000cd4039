use clipvault::history::{
    capture, captured_at, delete_entry, needs_restricting, new_entry, prune, read_history,
    read_tail, ClockError, HistoryEntry, OWNER_ONLY_DIR, OWNER_ONLY_FILE,
};
use clipvault::lines::{frame_after, frame_line, frame_lines, read_lines};
use clipvault::source::Source;
use clipvault::tail::{tail_from, TailScan, TAIL_CHUNK_BYTES};

fn line(id: u128, content: &str) -> String {
    let content = serde_json::to_string(content).unwrap();
    format!("{{\"id\":{id},\"timestamp\":\"2026-08-19T14:00:00+00:00\",\"content\":{content}}}\n")
}

fn buffer(count: usize) -> Vec<u8> {
    (0..count)
        .map(|i| line(i as u128, &format!("entry {i}")))
        .collect::<String>()
        .into_bytes()
}

fn field(value: &serde_json::Value, name: &str) -> Option<String> {
    value.get(name).and_then(|v| v.as_str()).map(|s| s.to_string())
}

fn parse(line: &str) -> Option<HistoryEntry> {
    let value: serde_json::Value = serde_json::from_str(line).ok()?;
    Some(HistoryEntry {
        id: value.get("id")?.as_u64()? as u128,
        timestamp: field(&value, "timestamp")?,
        content: field(&value, "content")?,
        source: field(&value, "source"),
        source_bundle_id: field(&value, "source_bundle_id"),
    })
}

fn parse_all(lines: Vec<String>) -> Vec<Option<HistoryEntry>> {
    lines.iter().map(|line| parse(line)).collect()
}

fn tail(data: &[u8], limit: usize) -> Vec<HistoryEntry> {
    read_tail(parse_all(tail_from(data, limit)), limit)
}

fn contents(entries: &[HistoryEntry]) -> Vec<&str> {
    entries.iter().map(|e| e.content.as_str()).collect()
}

fn entry(content: &str) -> HistoryEntry {
    new_entry(1, "t".to_string(), content, None)
}

fn entries(list: &[&str]) -> Vec<HistoryEntry> {
    list.iter().map(|content| entry(content)).collect()
}

#[test]
fn tail_returns_the_newest_entries_oldest_first() {
    let data = buffer(10);
    let got = tail(&data, 3);
    assert_eq!(contents(&got), ["entry 7", "entry 8", "entry 9"]);
}

#[test]
fn tail_handles_a_history_shorter_than_the_limit() {
    let data = buffer(2);
    let got = tail(&data, 25);
    assert_eq!(got.len(), 2);
}

#[test]
fn tail_of_an_empty_file_is_empty() {
    let got = tail(&[], 5);
    assert!(got.is_empty());
}

#[test]
fn tail_spans_many_chunks_without_losing_or_splitting_entries() {
    // Each entry is padded so the scan has to walk backwards several times and
    // stitch partial lines together.
    let padded: String = (0..40)
        .map(|i| line(i, &format!("{}{}", "x".repeat(900), i)))
        .collect();
    let data = padded.into_bytes();
    assert!(
        data.len() as u64 > TAIL_CHUNK_BYTES * 3,
        "test needs multiple chunks"
    );

    let got = tail(&data, 5);

    assert_eq!(got.len(), 5);
    assert!(got[4].content.ends_with("39"));
    assert!(got[0].content.ends_with("35"));
}

#[test]
fn tail_skips_a_partial_line_left_by_a_chunk_boundary() {
    // What the backwards scan actually sees when it lands mid-line: a JSON
    // fragment terminated by the newline of the line it was cut out of.
    let mut data = b"{\"id\":0,\"timesta\n".to_vec();
    data.extend_from_slice(&buffer(3));

    let got = tail(&data, 10);
    assert_eq!(
        got.len(),
        3,
        "the fragment should drop, the 3 whole lines stay"
    );
}

#[test]
fn tail_skips_a_final_line_left_half_written_by_a_kill() {
    let mut data = buffer(3);
    data.extend_from_slice(b"{\"id\":99,\"timestamp\":\"2026");

    let got = tail(&data, 10);
    assert_eq!(got.len(), 3);
    assert_eq!(got[2].content, "entry 2");
}

#[test]
fn tail_agrees_with_the_whole_history() {
    let text: String = (0..60)
        .map(|i| line(i, &format!("é{}{}", "ü".repeat(300), i)))
        .collect();
    let mut data = text.into_bytes();
    for open in ["", "{\"id\":99"] {
        data.extend_from_slice(open.as_bytes());
        let all = read_history(parse_all(read_lines(&data)));
        assert_eq!(all.len(), 60);
        for limit in [0usize, 1, 7, 30, 59, 60, 61, 500] {
            let got = tail(&data, limit);
            let from = all.len().saturating_sub(limit);
            assert_eq!(contents(&got), contents(&all[from..]));
        }
    }
}

#[test]
fn tail_among_broken_lines_is_an_end_of_the_history() {
    let text: String = (0..40)
        .map(|i| {
            if i % 3 == 0 {
                format!("broken {}\n", "x".repeat(700))
            } else {
                line(i, &format!("{}{}", "x".repeat(700), i))
            }
        })
        .collect();
    let data = text.into_bytes();
    let all = read_history(parse_all(read_lines(&data)));
    for limit in [1usize, 5, 9, 20, 30, 100] {
        let got = tail(&data, limit);
        assert!(got.len() <= limit && !got.is_empty());
        assert_eq!(contents(&got), contents(&all[all.len() - got.len()..]));
    }
}

#[test]
fn a_scan_stops_as_soon_as_it_has_enough() {
    let data: Vec<u8> = "0123456789\n".repeat(3000).into_bytes();
    let mut scan = TailScan::new(data.len() as u64, 3);
    let (start, count) = scan.next_read().unwrap();
    assert_eq!(count as u64, TAIL_CHUNK_BYTES);
    assert_eq!(start, data.len() as u64 - TAIL_CHUNK_BYTES);
    scan.supply(data[start as usize..start as usize + count].to_vec());
    assert!(scan.next_read().is_none());
    assert_eq!(scan.lines().last().unwrap(), "0123456789");

    let mut scan = TailScan::new(5, 3);
    assert_eq!(scan.next_read(), Some((0, 5)));
    scan.supply(b"a\nb\nc".to_vec());
    assert!(scan.next_read().is_none());
    assert_eq!(scan.lines(), ["a", "b", "c"]);
}

#[test]
fn a_line_that_is_no_text_costs_nothing_else() {
    let data = b"good\nb\xffd\r\n \n\nlast";
    assert_eq!(tail_from(data, 10), ["good", "b\u{fffd}d", "last"]);
    assert_eq!(read_lines(data), ["good", "last"]);
    assert_eq!(
        read_lines("a\r\n\n \t\nb\rc\nd\r".as_bytes()),
        ["a", "b\rc", "d\r"]
    );
    assert_eq!(read_lines(b""), Vec::<String>::new());
    // A kill in the middle of a character.
    let mut data = buffer(2);
    let cut = line(2, "é").into_bytes();
    let at = cut.iter().position(|b| *b == 0xc3).unwrap();
    data.extend_from_slice(&cut[..at + 1]);
    let all = read_history(parse_all(read_lines(&data)));
    assert_eq!(contents(&all), ["entry 0", "entry 1"]);
    assert_eq!(contents(&tail(&data, 10)), contents(&all));
}

#[test]
fn an_appended_line_is_read_back() {
    let mut data = buffer(2);
    data.extend_from_slice(frame_line("{\"é\":1}").as_bytes());
    let lines = read_lines(&data);
    assert_eq!(lines.len(), 3);
    assert_eq!(lines[2], "{\"é\":1}");
    assert_eq!(frame_after(Some(b'\n'), "{\"é\":1}"), frame_line("{\"é\":1}"));
}

#[test]
fn an_append_recovers_from_a_kill() {
    for fragment in ["", "{\"id\":2,\"time", "{\"id\":2}\r"] {
        let mut data = buffer(2);
        data.extend_from_slice(fragment.as_bytes());
        let added = line(3, "after");
        let framed = frame_after(data.last().copied(), added.trim_end());
        data.extend_from_slice(framed.as_bytes());
        let all = read_history(parse_all(read_lines(&data)));
        assert_eq!(contents(&all), ["entry 0", "entry 1", "after"]);
        assert_eq!(contents(&tail(&data, 1)), ["after"]);
    }
    // A whole entry that lost only its newline stays.
    let mut data = buffer(2);
    data.pop();
    data.extend_from_slice(frame_after(Some(b'}'), line(3, "after").trim_end()).as_bytes());
    let all = read_history(parse_all(read_lines(&data)));
    assert_eq!(contents(&all), ["entry 0", "entry 1", "after"]);
    assert_eq!(frame_after(Some(b'y'), "x"), "\nx\n");
    assert_eq!(frame_after(Some(b'\n'), "x"), "x\n");
    assert_eq!(frame_after(None, "x"), "x\n");
}

#[test]
fn a_rewritten_file_is_read_back() {
    let lines: Vec<String> = ["{1}", "{é}", "{☕}"].iter().map(|s| s.to_string()).collect();
    let file = frame_lines(&lines);
    assert_eq!(file, "{1}\n{é}\n{☕}\n");
    assert_eq!(read_lines(file.as_bytes()), lines);
    assert_eq!(frame_lines(&Vec::new()), "");
}

#[test]
fn unparseable_lines_are_skipped() {
    let parsed = vec![Some(entry("a")), None, Some(entry("b")), None];
    assert_eq!(contents(&read_history(parsed)), ["a", "b"]);
    let parsed = vec![Some(entry("a")), None, Some(entry("b")), Some(entry("c"))];
    assert_eq!(contents(&read_tail(parsed, 2)), ["b", "c"]);
}

#[test]
fn a_half_written_line_costs_nothing_else() {
    let mut data = buffer(2);
    data.extend_from_slice(b"{\"id\":2,\"time");
    let all = read_history(parse_all(read_lines(&data)));
    assert_eq!(contents(&all), ["entry 0", "entry 1"]);
}

#[test]
fn deleting_removes_every_copy_and_nothing_else() {
    let r = delete_entry(entries(&["a", "b", "a", "c"]), "a");
    assert_eq!(contents(&r.kept), ["b", "c"]);
    assert_eq!(r.removed, 2);
    let r = delete_entry(r.kept, "a");
    assert_eq!(contents(&r.kept), ["b", "c"]);
    assert_eq!(r.removed, 0);
}

#[test]
fn pruning_keeps_the_newest() {
    let r = prune(entries(&["a", "b", "c", "d"]), 3);
    assert_eq!(contents(&r.kept), ["b", "c", "d"]);
    assert_eq!(r.removed, 1);
    let r = prune(r.kept, 3);
    assert_eq!(r.removed, 0);
    let r = prune(r.kept, 0);
    assert_eq!(contents(&r.kept), ["b", "c", "d"]);
    assert_eq!(r.removed, 0);
}

#[test]
fn pruning_before_a_capture_makes_no_difference() {
    let mut early = prune(entries(&["a", "b", "c"]), 2).kept;
    early.push(entry("d"));
    let late = prune(entries(&["a", "b", "c", "d"]), 2).kept;
    assert_eq!(contents(&prune(early, 2).kept), contents(&late));
}

#[test]
fn a_capture_carries_its_source() {
    let source = Source {
        name: Some("Safari".to_string()),
        bundle_id: None,
    };
    let entry = capture("copied", Some(&source)).unwrap();
    assert_eq!(entry.content, "copied");
    assert_eq!(entry.source.as_deref(), Some("Safari"));
    assert!(entry.source_bundle_id.is_none());
    // The clock says something later than 2020, in both of its forms.
    assert!(entry.id > 1_577_836_800_000_000_000);
    assert!(entry.timestamp.starts_with("20"));
    assert!(entry.timestamp.ends_with("+00:00"));
    assert_eq!(clipvault::display::format_timestamp(&entry.timestamp).len(), 19);

    let entry = capture("copied", None).unwrap();
    assert!(entry.source.is_none() && entry.source_bundle_id.is_none());
}

#[test]
fn the_clock_decides_whether_there_is_an_entry() {
    let source = Source {
        name: None,
        bundle_id: Some("com.apple.Notes".to_string()),
    };
    let entry = captured_at(Some(1_787_148_000_000_000_007), "copied", Some(&source)).unwrap();
    assert_eq!(entry.id, 1_787_148_000_000_000_007);
    assert_eq!(entry.timestamp, "2026-08-19T14:00:00.000000007+00:00");
    assert_eq!(entry.content, "copied");
    assert!(entry.source.is_none());
    assert_eq!(entry.source_bundle_id.as_deref(), Some("com.apple.Notes"));

    let entry = captured_at(Some(0), "copied", None).unwrap();
    assert_eq!(entry.timestamp, "1970-01-01T00:00:00+00:00");
    let entry = captured_at(Some(253_402_300_799_500_000_000), "copied", None).unwrap();
    assert_eq!(entry.timestamp, "9999-12-31T23:59:59.500+00:00");

    let refused = captured_at(None, "copied", None);
    assert_eq!(refused.unwrap_err(), ClockError::BeforeEpoch);
    // Past the last year of the calendar, and past the seconds it can count.
    for nanos in [9_000_000_000_000_000_000_000_000, u128::MAX] {
        let refused = captured_at(Some(nanos), "copied", None);
        assert_eq!(refused.unwrap_err(), ClockError::BeyondCalendar);
    }
}

#[test]
fn permissions_are_repaired_only_where_they_are_loose() {
    assert!(needs_restricting(0o100644, OWNER_ONLY_FILE));
    assert!(!needs_restricting(0o100600, OWNER_ONLY_FILE));
    assert!(needs_restricting(0o040755, OWNER_ONLY_DIR));
    assert!(!needs_restricting(0o040700, OWNER_ONLY_DIR));
    assert!(needs_restricting(0o100400, OWNER_ONLY_FILE));
}
