use clipvault::history::{new_entry, HistoryEntry};
use clipvault::palette::{
    candidates_of, palette_height, row_at, Candidate, KeyPress, PaletteAction, PaletteState,
    PALETTE_LIST_GAP, PALETTE_ROWS, PALETTE_ROW_HEIGHT, PALETTE_SEARCH_HEIGHT,
};
use clipvault::source::Source;

fn candidates(count: usize) -> Vec<Candidate> {
    (0..count)
        .map(|i| Candidate {
            content: format!("entry {i}"),
            preview: format!("entry {i}"),
            meta: String::new(),
            bundle_id: None,
        })
        .collect()
}

fn palette(count: usize) -> PaletteState {
    PaletteState {
        query: String::new(),
        selection: 0,
        offset: 0,
        matches: (0..count).collect(),
    }
}

#[test]
fn palette_selection_reaches_results_past_the_visible_rows() {
    // Clamping the selection to the row count would make anything beyond the
    // last visible row impossible to pick.
    let mut state = palette(40);
    for _ in 0..20 {
        state.move_selection(1);
    }
    assert_eq!(state.selection, 20);
    assert!(state.matches.len() > PALETTE_ROWS);
}

#[test]
fn palette_the_window_scrolls_to_keep_the_selection_visible() {
    let mut state = palette(40);
    for _ in 0..PALETTE_ROWS {
        state.move_selection(1);
    }
    // Selection just stepped past the last row, so the window moved by one.
    assert_eq!(state.selection, PALETTE_ROWS);
    assert_eq!(state.offset, 1);
    assert_eq!(state.visible().len(), PALETTE_ROWS);
    assert!(state.visible().contains(&state.selection));
}

#[test]
fn palette_the_selection_stops_at_both_ends_instead_of_wrapping() {
    let mut state = palette(30);

    // Already at the top: up does nothing.
    state.move_selection(-1);
    assert_eq!(state.selection, 0);
    assert_eq!(state.offset, 0);

    // Walk to the bottom and keep pushing.
    for _ in 0..40 {
        state.move_selection(1);
    }
    assert_eq!(state.selection, 29, "should rest on the last result");
    assert!(state.visible().contains(&29), "end should be on screen");

    // And back up, still without wrapping.
    for _ in 0..40 {
        state.move_selection(-1);
    }
    assert_eq!(state.selection, 0);
    assert_eq!(state.offset, 0, "window should follow back to the top");
}

#[test]
fn palette_a_short_result_list_never_scrolls() {
    let mut state = palette(3);
    for _ in 0..10 {
        state.move_selection(1);
    }
    assert_eq!(state.offset, 0);
    assert_eq!(state.visible().len(), 3);
}

#[test]
fn palette_no_matches_leaves_the_selection_pinned_and_the_window_empty() {
    let mut state = palette(0);
    state.move_selection(1);
    state.move_selection(-1);
    assert_eq!(state.selection, 0);
    assert!(state.visible().is_empty());
}

#[test]
fn palette_filtering_resets_the_scroll_position() {
    let all = candidates(40);
    let mut state = palette(40);
    for _ in 0..20 {
        state.move_selection(1);
    }
    assert!(state.offset > 0);

    state.query = "entry 3".to_string();
    state.refilter(&all);
    // A new query starts from the top; leaving the old scroll would hide the
    // best match.
    assert_eq!(state.selection, 0);
    assert_eq!(state.offset, 0);
}

#[test]
fn palette_refilter_ranks_the_closest_match_first() {
    let all = candidates(40);
    let mut state = palette(40);
    state.query = "entry 7".to_string();
    state.refilter(&all);

    let best = &all[state.matches[0]];
    assert_eq!(best.content, "entry 7");
}

fn key(code: u16) -> KeyPress {
    KeyPress {
        code,
        command: false,
        control: false,
        plain: None,
        typed: None,
    }
}

fn typed(text: &str) -> KeyPress {
    KeyPress {
        typed: Some(text.to_string()),
        ..key(0)
    }
}

fn command(text: &str) -> KeyPress {
    KeyPress {
        command: true,
        plain: Some(text.to_string()),
        typed: Some(text.to_string()),
        ..key(0)
    }
}

fn control(text: &str) -> KeyPress {
    KeyPress {
        control: true,
        plain: Some(text.to_string()),
        typed: Some("\u{e}".to_string()),
        ..key(0)
    }
}

#[test]
fn candidates_are_newest_first() {
    let source = Source {
        name: Some("Safari".to_string()),
        bundle_id: Some("com.apple.Safari".to_string()),
    };
    let entries: Vec<HistoryEntry> = vec![
        new_entry(1, "t".to_string(), "old\nentry", None),
        new_entry(2, "t".to_string(), &"n".repeat(100), Some(&source)),
    ];
    let ages = vec!["2h".to_string(), "now".to_string()];
    let got = candidates_of(&entries, &ages);
    assert_eq!(got.len(), 2);
    assert_eq!(got[0].content, "n".repeat(100));
    assert_eq!(got[0].preview, format!("{}…", "n".repeat(81)));
    assert_eq!(got[0].meta, "Safari · now");
    assert_eq!(got[0].bundle_id.as_deref(), Some("com.apple.Safari"));
    assert_eq!(got[1].content, "old\nentry");
    assert_eq!(got[1].preview, "old entry");
    assert_eq!(got[1].meta, "2h");
    assert!(got[1].bundle_id.is_none());
}

#[test]
fn keys_end_the_palette_or_move_in_it() {
    let all = candidates(20);
    let mut state = PaletteState::opened(20);
    assert_eq!(state.press(&key(125), &all), PaletteAction::Stay);
    assert_eq!(state.press(&key(125), &all), PaletteAction::Stay);
    assert_eq!(state.press(&key(126), &all), PaletteAction::Stay);
    assert_eq!(state.selection, 1);
    assert_eq!(state.press(&control("n"), &all), PaletteAction::Stay);
    assert_eq!(state.selection, 2);
    assert_eq!(state.press(&control("p"), &all), PaletteAction::Stay);
    assert_eq!(state.press(&control("x"), &all), PaletteAction::Stay);
    assert_eq!(state.selection, 1);
    assert!(state.query.is_empty());
    assert_eq!(state.press(&key(36), &all), PaletteAction::Accept);
    assert_eq!(state.press(&key(76), &all), PaletteAction::Accept);
    assert_eq!(state.picked(&all).as_deref(), Some("entry 1"));
    assert_eq!(state.press(&key(53), &all), PaletteAction::Cancel);
}

#[test]
fn typing_filters_and_backspace_undoes_it() {
    let all = candidates(20);
    let mut state = PaletteState::opened(20);
    state.press(&typed("1"), &all);
    assert_eq!(state.query, "1");
    let listed = state.matches.clone();
    assert_eq!(listed, [1, 10, 11, 12, 13, 14, 15, 16, 17, 18, 19]);
    state.press(&typed("9\u{7}"), &all);
    assert_eq!(state.query, "19");
    assert_eq!(state.matches, [19]);
    state.press(&key(51), &all);
    assert_eq!(state.query, "1");
    assert_eq!(state.matches, listed);
    state.press(&key(51), &all);
    state.press(&key(51), &all);
    assert_eq!(state.matches, PaletteState::opened(20).matches);
    // Nothing printable leaves everything as it is.
    state.press(&key(125), &all);
    state.press(&typed("\u{1b}"), &all);
    assert_eq!(state.selection, 1);
    state.press(&key(0), &all);
    assert_eq!(state.selection, 1);
}

#[test]
fn digits_with_command_take_a_row() {
    let all = candidates(20);
    let mut state = PaletteState::opened(20);
    assert_eq!(state.press(&command("3"), &all), PaletteAction::Accept);
    assert_eq!(state.picked(&all).as_deref(), Some("entry 2"));
    // Counted from the top of the window.
    for _ in 0..10 {
        state.move_selection(1);
    }
    assert_eq!(state.offset, 5);
    assert_eq!(state.press(&command("1"), &all), PaletteAction::Accept);
    assert_eq!(state.picked(&all).as_deref(), Some("entry 5"));
    assert_eq!(state.press(&command("8"), &all), PaletteAction::Accept);
    assert_eq!(state.picked(&all).as_deref(), Some("entry 12"));
    // The ninth is just below the window, which does not move for it.
    assert_eq!(state.press(&command("9"), &all), PaletteAction::Accept);
    assert_eq!(state.picked(&all).as_deref(), Some("entry 13"));
    assert_eq!(state.offset, 5);
    for other in ["0", "a", "", "٣"] {
        let before = state.selection;
        assert_eq!(state.press(&command(other), &all), PaletteAction::Stay);
        assert_eq!(state.selection, before);
    }
    let mut short = PaletteState::opened(2);
    assert_eq!(short.press(&command("3"), &all), PaletteAction::Stay);
    assert_eq!(short.press(&command("2"), &all), PaletteAction::Accept);
    let mut eight = PaletteState::opened(8);
    assert_eq!(eight.press(&command("9"), &all), PaletteAction::Stay);
    assert_eq!(eight.selection, 0);
}

#[test]
fn clicks_take_the_row_they_hit() {
    let all = candidates(3);
    let mut state = PaletteState::opened(3);
    assert_eq!(state.click(None), PaletteAction::Stay);
    assert_eq!(state.click(Some(3)), PaletteAction::Stay);
    assert_eq!(state.selection, 0);
    assert_eq!(state.click(Some(2)), PaletteAction::Accept);
    assert_eq!(state.picked(&all).as_deref(), Some("entry 2"));
    let empty = PaletteState::opened(0);
    assert!(empty.picked(&all).is_none());
}

#[test]
fn every_result_can_be_reached_and_is_on_screen() {
    let mut state = PaletteState::opened(20);
    for n in 0..20 {
        assert_eq!(state.selection, n);
        assert!(state.visible().contains(&n));
        assert_eq!(state.visible().len(), PALETTE_ROWS);
        let screen = state.screen();
        let selected: Vec<usize> =
            screen.rows.iter().filter(|r| r.selected).map(|r| r.candidate).collect();
        assert_eq!(selected, [n]);
        state.move_selection(1);
    }
}

#[test]
fn the_screen_says_what_is_listed() {
    let all = candidates(20);
    let mut state = PaletteState::opened(20);
    let screen = state.screen();
    assert_eq!(screen.query, "Search clipboard history");
    assert!(screen.prompting);
    assert_eq!(screen.rows.len(), 8);
    assert!(screen.message.is_none());
    assert_eq!(screen.count, "1 of 20 results");
    assert_eq!(screen.height, 8);

    state.press(&key(125), &all);
    assert_eq!(state.screen().count, "2 of 20 results");

    state.press(&typed("19"), &all);
    let screen = state.screen();
    assert_eq!(screen.query, "19");
    assert!(!screen.prompting);
    assert_eq!(screen.count, "1 result");
    assert_eq!(screen.rows.len(), 1);
    assert_eq!(screen.rows[0].candidate, 19);
    assert_eq!(screen.height, 1);

    state.press(&typed("zz"), &all);
    let screen = state.screen();
    assert_eq!(screen.message.as_deref(), Some("No matches for “19zz”"));
    assert_eq!(screen.count, "no results");
    assert!(screen.rows.is_empty());
    assert_eq!(screen.height, 1);

    let screen = PaletteState::opened(0).screen();
    assert_eq!(screen.message.as_deref(), Some("No clipboard history yet"));
}

/// Top of the result list, measured the same way the layout does.
fn list_top(height: f64) -> f64 {
    height - PALETTE_SEARCH_HEIGHT as f64 - PALETTE_LIST_GAP as f64
}

/// The row under a window-relative point.
fn row_under(point: (f64, f64), height: f64) -> Option<usize> {
    let below = list_top(height) - point.1;
    let depth = if below > 0.0 { Some(below.floor() as u64) } else { None };
    row_at(depth, height as u64)
}

#[test]
fn palette_clicks_map_to_the_row_under_the_pointer() {
    let height = palette_height(PALETTE_ROWS) as f64;
    let top = list_top(height);
    let row_height = PALETTE_ROW_HEIGHT as f64;

    // Just under the search field is the first row; window coords run up.
    assert_eq!(row_under((100.0, top - 1.0), height), Some(0));
    assert_eq!(row_under((100.0, top - row_height * 2.5), height), Some(2));
    // The last row still resolves rather than falling into the footer.
    assert_eq!(
        row_under((100.0, top - row_height * PALETTE_ROWS as f64 + 1.0), height),
        Some(PALETTE_ROWS - 1)
    );
}

#[test]
fn palette_clicks_on_the_chrome_select_nothing() {
    let height = palette_height(PALETTE_ROWS) as f64;

    // In the search field.
    assert_eq!(row_under((100.0, height - 10.0), height), None);
    // In the gap between the search field and the first row.
    assert_eq!(row_under((100.0, list_top(height) + 2.0), height), None);
    // In the footer.
    assert_eq!(row_under((100.0, 10.0), height), None);
}

#[test]
fn rows_fill_the_list_of_any_palette() {
    assert_eq!(palette_height(1), 148);
    assert_eq!(palette_height(PALETTE_ROWS), 484);
    for rows in 0..=PALETTE_ROWS {
        let height = palette_height(rows);
        for depth in 0..500u64 {
            let expected = if depth < 48 * rows as u64 {
                Some((depth / 48) as usize)
            } else {
                None
            };
            assert_eq!(row_at(Some(depth), height), expected);
        }
    }
    assert_eq!(row_at(None, 484), None);
    assert_eq!(row_at(Some(0), 50), None);
    // A taller window has no more rows than the palette.
    assert_eq!(row_at(Some(400), 1000), None);
}
