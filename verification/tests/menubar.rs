use clipvault::palette::{
    palette_height, row_at, Candidate, PaletteState, PALETTE_LIST_GAP, PALETTE_ROWS,
    PALETTE_ROW_HEIGHT, PALETTE_SEARCH_HEIGHT,
};

fn candidates(count: usize) -> Vec<Candidate> {
    (0..count)
        .map(|i| Candidate {
            content: format!("entry {i}"),
            preview: format!("entry {i}"),
            meta: String::new(),
            bundle_id: None,
        })
        .collect()
}

fn palette(count: usize) -> PaletteState {
    PaletteState {
        query: String::new(),
        selection: 0,
        offset: 0,
        matches: (0..count).collect(),
    }
}

#[test]
fn menubar_selection_reaches_results_past_the_visible_rows() {
    // Clamping the selection to the row count would make anything beyond the
    // last visible row impossible to pick.
    let mut state = palette(40);
    for _ in 0..20 {
        state.move_selection(1);
    }
    assert_eq!(state.selection, 20);
    assert!(state.matches.len() > PALETTE_ROWS);
}

#[test]
fn menubar_the_window_scrolls_to_keep_the_selection_visible() {
    let mut state = palette(40);
    for _ in 0..PALETTE_ROWS {
        state.move_selection(1);
    }
    // Selection just stepped past the last row, so the window moved by one.
    assert_eq!(state.selection, PALETTE_ROWS);
    assert_eq!(state.offset, 1);
    assert_eq!(state.visible().len(), PALETTE_ROWS);
    assert!(state.visible().contains(&state.selection));
}

#[test]
fn menubar_the_selection_stops_at_both_ends_instead_of_wrapping() {
    let mut state = palette(30);

    // Already at the top: up does nothing.
    state.move_selection(-1);
    assert_eq!(state.selection, 0);
    assert_eq!(state.offset, 0);

    // Walk to the bottom and keep pushing.
    for _ in 0..40 {
        state.move_selection(1);
    }
    assert_eq!(state.selection, 29, "should rest on the last result");
    assert!(state.visible().contains(&29), "end should be on screen");

    // And back up, still without wrapping.
    for _ in 0..40 {
        state.move_selection(-1);
    }
    assert_eq!(state.selection, 0);
    assert_eq!(state.offset, 0, "window should follow back to the top");
}

#[test]
fn menubar_a_short_result_list_never_scrolls() {
    let mut state = palette(3);
    for _ in 0..10 {
        state.move_selection(1);
    }
    assert_eq!(state.offset, 0);
    assert_eq!(state.visible().len(), 3);
}

#[test]
fn menubar_no_matches_leaves_the_selection_pinned_and_the_window_empty() {
    let mut state = palette(0);
    state.move_selection(1);
    state.move_selection(-1);
    assert_eq!(state.selection, 0);
    assert!(state.visible().is_empty());
}

#[test]
fn menubar_filtering_resets_the_scroll_position() {
    let all = candidates(40);
    let mut state = palette(40);
    for _ in 0..20 {
        state.move_selection(1);
    }
    assert!(state.offset > 0);

    state.query = "entry 3".to_string();
    state.refilter(&all);
    // A new query starts from the top; leaving the old scroll would hide the
    // best match.
    assert_eq!(state.selection, 0);
    assert_eq!(state.offset, 0);
}

#[test]
fn menubar_refilter_ranks_the_closest_match_first() {
    let all = candidates(40);
    let mut state = palette(40);
    state.query = "entry 7".to_string();
    state.refilter(&all);

    let best = &all[state.matches[0]];
    assert_eq!(best.content, "entry 7");
}

/// Top of the result list, measured the same way the layout does.
fn list_top(height: f64) -> f64 {
    height - PALETTE_SEARCH_HEIGHT as f64 - PALETTE_LIST_GAP as f64
}

/// The row under a window-relative point.
fn row_under(point: (f64, f64), height: f64) -> Option<usize> {
    let below = list_top(height) - point.1;
    let depth = if below > 0.0 { Some(below.floor() as u64) } else { None };
    row_at(depth, height as u64)
}

#[test]
fn menubar_clicks_map_to_the_row_under_the_pointer() {
    let height = palette_height(PALETTE_ROWS) as f64;
    let top = list_top(height);
    let row_height = PALETTE_ROW_HEIGHT as f64;

    // Just under the search field is the first row; window coords run up.
    assert_eq!(row_under((100.0, top - 1.0), height), Some(0));
    assert_eq!(row_under((100.0, top - row_height * 2.5), height), Some(2));
    // The last row still resolves rather than falling into the footer.
    assert_eq!(
        row_under((100.0, top - row_height * PALETTE_ROWS as f64 + 1.0), height),
        Some(PALETTE_ROWS - 1)
    );
}

#[test]
fn menubar_clicks_on_the_chrome_select_nothing() {
    let height = palette_height(PALETTE_ROWS) as f64;

    // In the search field.
    assert_eq!(row_under((100.0, height - 10.0), height), None);
    // In the gap between the search field and the first row.
    assert_eq!(row_under((100.0, list_top(height) + 2.0), height), None);
    // In the footer.
    assert_eq!(row_under((100.0, 10.0), height), None);
}
