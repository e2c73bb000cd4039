//! The search palette: what is listed, which result is selected and which part
//! of the list is on screen.

use vstd::prelude::*;
use vstd::slice::slice_subrange;

use crate::display;
use crate::display::preview;
use crate::fuzzy;
use crate::fuzzy::score;
use crate::history::HistoryEntry;
use crate::menu;
use crate::menu::metadata_line;
use crate::rank;
use crate::rank::rank;
use crate::text;
use crate::text::{chars_of, copy_option, decimal_text, same};

verus! {

/// Result rows the palette shows at once. Results beyond this scroll.
pub const PALETTE_ROWS: usize = 8;

/// Preview width inside the palette, which is wider than the menu.
pub const PALETTE_PREVIEW_WIDTH: usize = 82;

/// Heights of the palette's parts, in points. A row has two lines: the content,
/// and where it came from.
pub const PALETTE_ROW_HEIGHT: u64 = 48;

pub const PALETTE_SEARCH_HEIGHT: u64 = 62;

/// Gap between the search field's rule and the first result, so a selected top
/// row doesn't sit flush against what you're typing.
pub const PALETTE_LIST_GAP: u64 = 8;

pub const PALETTE_FOOTER_HEIGHT: u64 = 30;

/// Total height for a palette showing `rows` results.
pub open spec fn height_of(rows: int) -> int {
    PALETTE_SEARCH_HEIGHT + PALETTE_LIST_GAP + PALETTE_ROW_HEIGHT * rows + PALETTE_FOOTER_HEIGHT
}

/// Total height for a palette showing `rows` results, in points.
pub fn palette_height(rows: usize) -> (r: u64)
    requires
        height_of(rows as int) <= u64::MAX,
    ensures
        r == height_of(rows as int),
{
    assert(PALETTE_ROW_HEIGHT * rows == 48 * rows);
    PALETTE_SEARCH_HEIGHT + PALETTE_LIST_GAP + PALETTE_ROW_HEIGHT * rows as u64
        + PALETTE_FOOTER_HEIGHT
}

/// The result row that lies `depth` whole points below the top of the list, in a
/// palette `height` points high: none in the footer, and none past the last row.
pub open spec fn row_below(depth: int, height: int) -> Option<int> {
    let list = height - PALETTE_SEARCH_HEIGHT - PALETTE_LIST_GAP - PALETTE_FOOTER_HEIGHT;
    if depth < list && depth / 48 < PALETTE_ROWS {
        Some(depth / 48)
    } else {
        None
    }
}

/// Which result row a point falls on, if any. `depth` says how many whole points
/// it lies below the top of the list, and is `None` at the top or above.
pub fn row_at(depth: Option<u64>, height: u64) -> (r: Option<usize>)
    ensures
        match depth {
            Some(d) => match row_below(d as int, height as int) {
                Some(row) => r is Some && r->0 == row,
                None => r is None,
            },
            None => r is None,
        },
{
    let chrome: u64 = PALETTE_SEARCH_HEIGHT + PALETTE_LIST_GAP + PALETTE_FOOTER_HEIGHT;
    match depth {
        Some(d) => {
            if height < chrome || d >= height - chrome {
                return None;
            }
            let row: u64 = d / PALETTE_ROW_HEIGHT;
            if row < PALETTE_ROWS as u64 {
                Some(row as usize)
            } else {
                None
            }
        },
        None => None,
    }
}

/// One searchable history entry, flattened once when the palette opens.
pub struct Candidate {
    pub content: String,
    pub preview: String,
    pub meta: String,
    pub bundle_id: Option<String>,
}

/// What a [`Candidate`] holds.
pub struct CandidateView {
    pub content: Seq<char>,
    pub preview: Seq<char>,
    pub meta: Seq<char>,
    pub bundle_id: Option<Seq<char>>,
}

impl View for Candidate {
    type V = CandidateView;

    open spec fn view(&self) -> CandidateView {
        CandidateView {
            content: self.content@,
            preview: self.preview@,
            meta: self.meta@,
            bundle_id: text::option_view(self.bundle_id),
        }
    }
}

/// The candidate made of an entry that is as old as `age` says.
pub open spec fn candidate_of(entry: HistoryEntry, age: Seq<char>) -> CandidateView {
    CandidateView {
        content: entry.content@,
        preview: display::preview_of(entry.content@, PALETTE_PREVIEW_WIDTH as nat),
        meta: menu::metadata_of(text::option_view(entry.source), age),
        bundle_id: text::option_view(entry.source_bundle_id),
    }
}

/// A candidate stands for one entry throughout: it holds the whole of its content,
/// a preview of just that, where it came from and how old it is, and the app that
/// its icon is looked up by.
pub open spec fn stands_for(c: Candidate, entry: HistoryEntry, age: Seq<char>) -> bool {
    &&& c.content@ == entry.content@
    &&& c.preview@ == display::preview_of(entry.content@, 82)
    &&& entry.source is None ==> c.meta@ == age
    &&& entry.source matches Some(app) ==> c.meta@ == app@ + " · "@ + age
    &&& c.bundle_id is Some <==> entry.source_bundle_id is Some
    &&& entry.source_bundle_id matches Some(id) ==> (c.bundle_id->0)@ == id@
}

/// The candidates made of a history, newest first; `ages` says how old each of
/// its entries is.
pub fn candidates_of(entries: &Vec<HistoryEntry>, ages: &Vec<String>) -> (r: Vec<Candidate>)
    requires
        ages@.len() == entries@.len(),
    ensures
        r@.len() == entries@.len(),
        forall|i: int|
            0 <= i < r@.len() ==> (#[trigger] r@[i])@ == candidate_of(
                entries@[entries@.len() - 1 - i],
                ages@[entries@.len() - 1 - i]@,
            ),
        forall|i: int|
            0 <= i < r@.len() ==> stands_for(
                #[trigger] r@[i],
                entries@[entries@.len() - 1 - i],
                ages@[entries@.len() - 1 - i]@,
            ),
{
    let mut out: Vec<Candidate> = Vec::new();
    let mut left: usize = entries.len();
    while left > 0
        invariant
            left + out@.len() == entries@.len(),
            ages@.len() == entries@.len(),
            forall|i: int|
                0 <= i < out@.len() ==> (#[trigger] out@[i])@ == candidate_of(
                    entries@[entries@.len() - 1 - i],
                    ages@[entries@.len() - 1 - i]@,
                ),
            forall|i: int|
                0 <= i < out@.len() ==> stands_for(
                    #[trigger] out@[i],
                    entries@[entries@.len() - 1 - i],
                    ages@[entries@.len() - 1 - i]@,
                ),
        decreases left,
    {
        left -= 1;
        let entry = &entries[left];
        out.push(
            Candidate {
                content: entry.content.clone(),
                preview: preview(entry.content.as_str(), PALETTE_PREVIEW_WIDTH),
                meta: metadata_line(entry, ages[left].as_str()),
                bundle_id: copy_option(&entry.source_bundle_id),
            },
        );
    }
    out
}

/// What the candidates of a list hold as content.
pub open spec fn contents(candidates: Seq<Candidate>) -> Seq<Seq<char>> {
    candidates.map_values(|c: Candidate| c.content@)
}

/// What each content scores for `query`.
pub open spec fn scores(query: Seq<char>, contents: Seq<Seq<char>>) -> Seq<Option<int>> {
    contents.map_values(|content: Seq<char>| fuzzy::score_of(query, content))
}

/// The palette's live state.
pub struct PaletteState {
    pub query: String,
    /// Index into `matches`, not into the visible rows: results past the
    /// visible window are reachable, and `offset` scrolls to follow.
    pub selection: usize,
    pub offset: usize,
    /// Indices into the candidate list, best match first.
    pub matches: Vec<usize>,
}

/// What a [`PaletteState`] holds.
#[verifier::ext_equal]
pub struct PaletteModel {
    pub query: Seq<char>,
    pub selection: int,
    pub offset: int,
    pub matches: Seq<usize>,
}

impl View for PaletteState {
    type V = PaletteModel;

    open spec fn view(&self) -> PaletteModel {
        PaletteModel {
            query: self.query@,
            selection: self.selection as int,
            offset: self.offset as int,
            matches: self.matches@,
        }
    }
}

impl PaletteModel {
    /// The selection is a result and is on screen, and the window never runs
    /// past the last result while there are results above it.
    pub open spec fn well_formed(self) -> bool {
        if self.matches.len() == 0 {
            self.selection == 0 && self.offset == 0
        } else {
            &&& 0 <= self.offset <= self.selection < self.offset + PALETTE_ROWS
            &&& self.selection < self.matches.len()
            &&& self.offset > 0 ==> self.offset + PALETTE_ROWS <= self.matches.len()
        }
    }

    /// Every result is one of `n` candidates.
    pub open spec fn lists(self, n: nat) -> bool {
        forall|k: int| 0 <= k < self.matches.len() ==> #[trigger] self.matches[k] < n
    }

    /// The results on screen.
    pub open spec fn window(self) -> Seq<usize> {
        let end = if self.offset + PALETTE_ROWS < self.matches.len() {
            self.offset + PALETTE_ROWS
        } else {
            self.matches.len() as int
        };
        let start = if self.offset < end {
            self.offset
        } else {
            end
        };
        self.matches.subrange(start, end)
    }

    /// The same list with another result selected and brought on screen.
    pub open spec fn scrolled_to(self, selection: int) -> PaletteModel {
        PaletteModel {
            selection,
            offset: if selection < self.offset {
                selection
            } else if selection >= self.offset + PALETTE_ROWS {
                selection + 1 - PALETTE_ROWS
            } else {
                self.offset
            },
            ..self
        }
    }

    /// The selection moved by one, down or up. It stops at both ends.
    pub open spec fn stepped(self, down: bool) -> PaletteModel {
        let last = self.matches.len() - 1;
        if self.matches.len() == 0 {
            PaletteModel { selection: 0, offset: 0, ..self }
        } else if down {
            self.scrolled_to(
                if self.selection < last {
                    self.selection + 1
                } else {
                    last
                },
            )
        } else {
            self.scrolled_to(
                if self.selection > 0 {
                    self.selection - 1
                } else {
                    0
                },
            )
        }
    }

    /// The results of `query` among `contents`, from the top.
    pub open spec fn refiltered(self, query: Seq<char>, contents: Seq<Seq<char>>) -> PaletteModel {
        PaletteModel {
            query,
            selection: 0,
            offset: 0,
            matches: rank::ranking_of(scores(query, contents)),
        }
    }

    /// The result on row `row`, counted from the top of the screen, selected where
    /// there is one.
    pub open spec fn on_row(self, row: int) -> Option<PaletteModel> {
        if self.offset + row < self.matches.len() {
            Some(PaletteModel { selection: self.offset + row, ..self })
        } else {
            None
        }
    }
}

/// What an event ends in.
#[derive(Debug, Clone, Copy, PartialEq, Eq, Structural)]
pub enum PaletteAction {
    /// The palette stays open.
    Stay,
    /// The selected result is taken.
    Accept,
    /// The palette closes with nothing taken.
    Cancel,
}

/// A key press, as the window system reports it.
pub struct KeyPress {
    pub code: u16,
    pub command: bool,
    pub control: bool,
    /// The characters of the key without its modifiers.
    pub plain: Option<String>,
    /// The characters that the press types.
    pub typed: Option<String>,
}

/// What a [`KeyPress`] holds.
pub struct KeyView {
    pub code: u16,
    pub command: bool,
    pub control: bool,
    pub plain: Option<Seq<char>>,
    pub typed: Option<Seq<char>>,
}

impl View for KeyPress {
    type V = KeyView;

    open spec fn view(&self) -> KeyView {
        KeyView {
            code: self.code,
            command: self.command,
            control: self.control,
            plain: text::option_view(self.plain),
            typed: text::option_view(self.typed),
        }
    }
}

/// The key codes of the return key and of the one on the keypad.
pub const KEY_RETURN: u16 = 36;

pub const KEY_ENTER: u16 = 76;

pub const KEY_ESCAPE: u16 = 53;

pub const KEY_UP: u16 = 126;

pub const KEY_DOWN: u16 = 125;

pub const KEY_BACKSPACE: u16 = 51;

/// The row that a digit from 1 to 9 stands for, counted from 0.
pub open spec fn digit_row(plain: Option<Seq<char>>) -> Option<int> {
    match plain {
        Some(s) => if s.len() > 0 && '1' <= s[0] <= '9' {
            Some(s[0] as int - '1' as int)
        } else {
            None
        },
        None => None,
    }
}

/// The characters of `typed` that can be typed into a query.
pub open spec fn printable(typed: Seq<char>) -> Seq<char> {
    typed.filter(|c: char| !text::control(c))
}

/// What a key press does to the palette, and what it ends in.
pub open spec fn pressed(m: PaletteModel, key: KeyView, contents: Seq<Seq<char>>) -> (
    PaletteModel,
    PaletteAction,
) {
    if key.code == KEY_RETURN || key.code == KEY_ENTER {
        (m, PaletteAction::Accept)
    } else if key.code == KEY_ESCAPE {
        (m, PaletteAction::Cancel)
    } else if key.code == KEY_UP {
        (m.stepped(false), PaletteAction::Stay)
    } else if key.code == KEY_DOWN {
        (m.stepped(true), PaletteAction::Stay)
    } else if key.code == KEY_BACKSPACE {
        (
            m.refiltered(
                if m.query.len() > 0 {
                    m.query.drop_last()
                } else {
                    m.query
                },
                contents,
            ),
            PaletteAction::Stay,
        )
    } else if key.command {
        match digit_row(key.plain) {
            Some(row) => match m.on_row(row) {
                Some(picked) => (picked, PaletteAction::Accept),
                None => (m, PaletteAction::Stay),
            },
            None => (m, PaletteAction::Stay),
        }
    } else if key.control {
        if key.plain == Some("n"@) {
            (m.stepped(true), PaletteAction::Stay)
        } else if key.plain == Some("p"@) {
            (m.stepped(false), PaletteAction::Stay)
        } else {
            (m, PaletteAction::Stay)
        }
    } else {
        match key.typed {
            Some(typed) => if printable(typed).len() > 0 {
                (m.refiltered(m.query + printable(typed), contents), PaletteAction::Stay)
            } else {
                (m, PaletteAction::Stay)
            },
            None => (m, PaletteAction::Stay),
        }
    }
}

/// What a click on a row, or beside the rows, does to the palette.
pub open spec fn clicked(m: PaletteModel, row: Option<usize>) -> (PaletteModel, PaletteAction) {
    match row {
        Some(r) => match m.on_row(r as int) {
            Some(picked) => (picked, PaletteAction::Accept),
            None => (m, PaletteAction::Stay),
        },
        None => (m, PaletteAction::Stay),
    }
}

/// The content of the selected result, if there is one.
pub open spec fn picked_of(m: PaletteModel, contents: Seq<Seq<char>>) -> Option<Seq<char>> {
    if m.selection < m.matches.len() {
        Some(contents[m.matches[m.selection] as int])
    } else {
        None
    }
}

fn printable_text(typed: &str) -> (out: String)
    ensures
        out@ == printable(typed@),
{
    let chars: Vec<char> = chars_of(typed);
    let mut out = String::new();
    let mut i: usize = 0;
    let ghost keeps = |c: char| !text::control(c);
    assert(typed@.take(0).filter(keeps) == Seq::<char>::empty()) by {
        assert(typed@.take(0) == Seq::<char>::empty());
        reveal_with_fuel(Seq::filter, 1);
    }
    while i < chars.len()
        invariant
            chars@ == typed@,
            i <= chars@.len(),
            keeps == (|c: char| !text::control(c)),
            out@ == typed@.take(i as int).filter(keeps),
        decreases chars.len() - i,
    {
        let c: char = chars[i];
        proof {
            assert(typed@.take(i + 1) == typed@.take(i as int).push(c));
            typed@.take(i as int).lemma_filter_push(c, keeps);
        }
        if !c.is_control() {
            out.push(c);
        }
        i += 1;
    }
    assert(typed@.take(i as int) == typed@);
    out
}

impl PaletteState {
    /// The palette as it opens on `count` candidates: everything is listed.
    pub fn opened(count: usize) -> (state: PaletteState)
        ensures
            state@ == opened_on(count as nat),
            state.query@.len() == 0,
            state.selection == 0,
            state.offset == 0,
            state.matches@.len() == count,
            forall|i: int| 0 <= i < count ==> #[trigger] state.matches@[i] == i,
    {
        let mut matches: Vec<usize> = Vec::new();
        let mut i: usize = 0;
        while i < count
            invariant
                i <= count,
                matches@ == Seq::new(i as nat, |k: int| k as usize),
            decreases count - i,
        {
            matches.push(i);
            i += 1;
            assert(matches@ =~= Seq::new(i as nat, |k: int| k as usize));
        }
        let state = PaletteState { query: String::new(), selection: 0, offset: 0, matches };
        assert(state@ =~= opened_on(count as nat));
        state
    }

    /// Lists the candidates that match the query, best first; ties keep their
    /// order, which is newest first.
    pub fn refilter(&mut self, candidates: &[Candidate])
        ensures
            final(self)@ == old(self)@.refiltered(old(self)@.query, contents(candidates@)),
            final(self).query@ == old(self).query@,
            final(self).selection == 0,
            final(self).offset == 0,
            final(self).matches@.no_duplicates(),
            forall|k: int|
                0 <= k < final(self).matches@.len() ==> (#[trigger] final(self).matches@[k] as int)
                    < candidates@.len() && fuzzy::score_of(
                    old(self).query@,
                    candidates@[final(self).matches@[k] as int].content@,
                ) is Some,
            forall|i: int|
                0 <= i < candidates@.len() && fuzzy::score_of(
                    old(self).query@,
                    (#[trigger] candidates@[i]).content@,
                ) is Some ==> final(self).matches@.contains(i as usize),
            forall|j: int, k: int|
                0 <= j < k < final(self).matches@.len() ==> {
                    let first = #[trigger] final(self).matches@[j];
                    let second = #[trigger] final(self).matches@[k];
                    let a = fuzzy::score_of(
                        old(self).query@,
                        candidates@[first as int].content@,
                    )->0;
                    let b = fuzzy::score_of(
                        old(self).query@,
                        candidates@[second as int].content@,
                    )->0;
                    a > b || (a == b && first < second)
                },
    {
        let mut scored: Vec<Option<i32>> = Vec::new();
        let mut i: usize = 0;
        let ghost wanted = scores(self.query@, contents(candidates@));
        while i < candidates.len()
            invariant
                i <= candidates@.len(),
                wanted == scores(self.query@, contents(candidates@)),
                rank::score_view(scored@) == wanted.take(i as int),
            decreases candidates.len() - i,
        {
            let ghost before = rank::score_view(scored@);
            scored.push(score(self.query.as_str(), candidates[i].content.as_str()));
            assert(wanted[i as int] == fuzzy::score_of(self.query@, candidates@[i as int].content@));
            assert(rank::score_view(scored@) =~= before.push(wanted[i as int]));
            assert(wanted.take(i + 1) =~= wanted.take(i as int).push(wanted[i as int]));
            i += 1;
        }
        assert(wanted.take(i as int) =~= wanted);
        self.matches = rank(&scored);
        proof {
            assert(scored@.len() == candidates@.len()) by {
                assert(rank::score_view(scored@).len() == wanted.len());
            }
            assert forall|i: int| 0 <= i < candidates@.len() implies ({
                let s = fuzzy::score_of(self.query@, (#[trigger] candidates@[i]).content@);
                &&& scored@[i] is Some <==> s is Some
                &&& s is Some ==> scored@[i]->0 == s->0
            }) by {
                assert(rank::score_view(scored@)[i] == wanted[i]);
                assert(wanted[i] == fuzzy::score_of(self.query@, candidates@[i].content@));
            }
            assert forall|k: int| 0 <= k < self.matches@.len() implies (
            #[trigger] self.matches@[k] as int) < candidates@.len() && fuzzy::score_of(
                self.query@,
                candidates@[self.matches@[k] as int].content@,
            ) is Some by {
                assert(scored@[self.matches@[k] as int] is Some);
            }
            assert forall|i: int|
                0 <= i < candidates@.len() && fuzzy::score_of(
                    self.query@,
                    (#[trigger] candidates@[i]).content@,
                ) is Some implies self.matches@.contains(i as usize) by {
                assert(scored@[i] is Some);
            }
        }
        self.selection = 0;
        self.offset = 0;
    }

    /// Moves the selection up where `delta` is negative, and otherwise down.
    ///
    /// Stops at both ends rather than wrapping. Wrapping from the last result
    /// back to the first makes it impossible to tell, while holding a key,
    /// whether you are at the bottom or have gone round again.
    pub fn move_selection(&mut self, delta: isize)
        ensures
            final(self)@ == old(self)@.stepped(delta >= 0),
    {
        if self.matches.len() == 0 {
            self.selection = 0;
            self.offset = 0;
            return;
        }
        let last: usize = self.matches.len() - 1;
        if delta < 0 {
            self.selection = self.selection.saturating_sub(1);
        } else if self.selection < last {
            self.selection = self.selection + 1;
        } else {
            self.selection = last;
        }
        self.scroll_into_view();
    }

    /// Keeps `offset` such that the selection is always on screen.
    pub fn scroll_into_view(&mut self)
        ensures
            final(self)@ == old(self)@.scrolled_to(old(self)@.selection),
    {
        if self.selection < self.offset {
            self.offset = self.selection;
        } else if self.selection - self.offset >= PALETTE_ROWS {
            self.offset = self.selection - (PALETTE_ROWS - 1);
        }
    }

    /// The results on screen.
    pub fn visible(&self) -> (r: &[usize])
        ensures
            r@ == self@.window(),
            r@.len() <= 8,
            forall|k: int|
                0 <= k < r@.len() ==> self.offset + k < self.matches@.len() && #[trigger] r@[k]
                    == self.matches@[self.offset + k],
            self.offset + r@.len() < self.matches@.len() ==> r@.len() == 8,
    {
        let total: usize = self.matches.len();
        if self.offset >= total {
            slice_subrange(self.matches.as_slice(), total, total)
        } else if total - self.offset > PALETTE_ROWS {
            slice_subrange(self.matches.as_slice(), self.offset, self.offset + PALETTE_ROWS)
        } else {
            slice_subrange(self.matches.as_slice(), self.offset, total)
        }
    }

    /// Selects the result on row `row`, counted from the top of the screen, where
    /// there is one.
    fn select_row(&mut self, row: usize) -> (r: PaletteAction)
        ensures
            match old(self)@.on_row(row as int) {
                Some(picked) => final(self)@ == picked && r == PaletteAction::Accept,
                None => final(self)@ == old(self)@ && r == PaletteAction::Stay,
            },
    {
        let total: usize = self.matches.len();
        if self.offset < total && row < total - self.offset {
            self.selection = self.offset + row;
            PaletteAction::Accept
        } else {
            PaletteAction::Stay
        }
    }

    /// A click on a row picks it. People reach for the mouse whether or not the
    /// palette is keyboard-first.
    pub fn click(&mut self, row: Option<usize>) -> (r: PaletteAction)
        ensures
            (final(self)@, r) == clicked(old(self)@, row),
    {
        match row {
            Some(row) => self.select_row(row),
            None => PaletteAction::Stay,
        }
    }

    /// Handles a key press.
    pub fn press(&mut self, key: &KeyPress, candidates: &[Candidate]) -> (r: PaletteAction)
        ensures
            (final(self)@, r) == pressed(old(self)@, key@, contents(candidates@)),
    {
        if key.code == KEY_RETURN || key.code == KEY_ENTER {
            return PaletteAction::Accept;
        }
        if key.code == KEY_ESCAPE {
            return PaletteAction::Cancel;
        }
        if key.code == KEY_UP {
            self.move_selection(-1);
        } else if key.code == KEY_DOWN {
            self.move_selection(1);
        } else if key.code == KEY_BACKSPACE {
            self.query.pop();
            self.refilter(candidates);
        } else if key.command {
            // ⌘1–⌘9 lands straight on a row, the same way the menu numbers its
            // entries.
            if let Some(plain) = &key.plain {
                let chars: Vec<char> = chars_of(plain.as_str());
                if chars.len() > 0 && '1' <= chars[0] && chars[0] <= '9' {
                    let row: usize = (chars[0] as u32 - 49) as usize;
                    return self.select_row(row);
                }
            }
        } else if key.control {
            // ⌃N/⌃P are the same motion in fzf and vim.
            if let Some(plain) = &key.plain {
                if same(plain.as_str(), "n") {
                    self.move_selection(1);
                } else if same(plain.as_str(), "p") {
                    proof {
                        reveal_strlit("n");
                        reveal_strlit("p");
                        assert("n"@[0] != "p"@[0]);
                    }
                    self.move_selection(-1);
                }
            }
        } else if let Some(typed) = &key.typed {
            let added: String = printable_text(typed.as_str());
            let chars: Vec<char> = chars_of(added.as_str());
            if chars.len() > 0 {
                self.query.append(added.as_str());
                self.refilter(candidates);
            }
        }
        PaletteAction::Stay
    }

    /// The content of the selected result, if there is one.
    pub fn picked(&self, candidates: &[Candidate]) -> (r: Option<String>)
        requires
            self@.lists(candidates@.len()),
        ensures
            text::option_view(r) == picked_of(self@, contents(candidates@)),
            r is Some <==> self.selection < self.matches@.len(),
            r matches Some(content) ==> content@
                == candidates@[self.matches@[self.selection as int] as int].content@,
    {
        if self.selection < self.matches.len() {
            let index: usize = self.matches[self.selection];
            assert(self@.matches[self.selection as int] == index);
            Some(candidates[index].content.clone())
        } else {
            None
        }
    }
}

/// The palette as it opens on `n` candidates.
pub open spec fn opened_on(n: nat) -> PaletteModel {
    PaletteModel {
        query: seq![],
        selection: 0,
        offset: 0,
        matches: Seq::new(n, |k: int| k as usize),
    }
}

/// A row on screen.
pub struct ScreenRow {
    /// Which candidate the row shows.
    pub candidate: usize,
    pub selected: bool,
}

/// What the palette shows.
pub struct Screen {
    /// The search line.
    pub query: String,
    /// Whether the search line shows a prompt rather than a query.
    pub prompting: bool,
    pub rows: Vec<ScreenRow>,
    /// What stands in place of the rows when nothing matches.
    pub message: Option<String>,
    /// Position within the results, so scrolling past the visible rows is
    /// legible rather than silent.
    pub count: String,
    /// How many rows the panel makes room for.
    pub height: usize,
}

/// What the search line shows. An empty query shows a prompt rather than a blank
/// line, so the palette never looks like it failed to open.
pub open spec fn query_shown(query: Seq<char>) -> Seq<char> {
    if query.len() == 0 {
        "Search clipboard history"@
    } else {
        query
    }
}

/// What stands in place of the rows when nothing matches.
pub open spec fn message_shown(query: Seq<char>, found: nat) -> Option<Seq<char>> {
    if found > 0 {
        None
    } else if query.len() == 0 {
        Some("No clipboard history yet"@)
    } else {
        Some("No matches for “"@ + query + "”"@)
    }
}

/// How the position within `found` results is told.
pub open spec fn count_shown(selection: int, found: nat) -> Seq<char> {
    if found == 0 {
        "no results"@
    } else if found == 1 {
        "1 result"@
    } else {
        text::decimal((selection + 1) as nat) + " of "@ + text::decimal(found) + " results"@
    }
}

/// `rows` shows the results on screen, and marks the selected one.
pub open spec fn rows_show(rows: Seq<ScreenRow>, m: PaletteModel) -> bool {
    &&& rows.len() == m.window().len()
    &&& forall|slot: int|
        0 <= slot < rows.len() ==> (#[trigger] rows[slot]).candidate == m.window()[slot]
            && rows[slot].selected == (m.offset + slot == m.selection)
}

impl PaletteState {
    /// What the palette shows.
    pub fn screen(&self) -> (r: Screen)
        requires
            self.matches@.len() > 1 ==> self.selection < usize::MAX,
        ensures
            r.query@ == query_shown(self@.query),
            r.prompting == (self@.query.len() == 0),
            rows_show(r.rows@, self@),
            r.rows@.len() <= 8,
            self.offset + r.rows@.len() < self.matches@.len() ==> r.rows@.len() == 8,
            forall|slot: int|
                0 <= slot < r.rows@.len() ==> {
                    let row = #[trigger] r.rows@[slot];
                    &&& self.offset + slot < self.matches@.len()
                    &&& row.candidate == self.matches@[self.offset + slot]
                    &&& row.selected <==> self.offset + slot == self.selection
                },
            r.message is Some <==> self.matches@.len() == 0,
            text::option_view(r.message) == message_shown(self@.query, self@.matches.len()),
            r.count@ == count_shown(self@.selection, self@.matches.len()),
            r.height == if self@.window().len() == 0 {
                1
            } else {
                self@.window().len()
            },
    {
        let prompting: bool = self.query.as_str().is_empty();
        let query = if prompting {
            "Search clipboard history".to_owned()
        } else {
            self.query.clone()
        };

        let visible: &[usize] = self.visible();
        let shown: usize = visible.len();
        let mut rows: Vec<ScreenRow> = Vec::new();
        let mut slot: usize = 0;
        while slot < shown
            invariant
                slot <= shown,
                shown == visible@.len(),
                visible@ == self@.window(),
                rows@.len() == slot,
                forall|k: int|
                    0 <= k < slot ==> (#[trigger] rows@[k]).candidate == visible@[k]
                        && rows@[k].selected == (self@.offset + k == self@.selection),
            decreases shown - slot,
        {
            let selected: bool = self.selection >= self.offset && self.selection - self.offset
                == slot;
            rows.push(ScreenRow { candidate: visible[slot], selected });
            slot += 1;
        }

        let found: usize = self.matches.len();
        let message: Option<String> = if found > 0 {
            None
        } else if prompting {
            Some("No clipboard history yet".to_owned())
        } else {
            let mut out = "No matches for “".to_owned();
            out.append(self.query.as_str());
            out.append("”");
            Some(out)
        };

        let count = if found == 0 {
            "no results".to_owned()
        } else if found == 1 {
            "1 result".to_owned()
        } else {
            let mut out = decimal_text((self.selection + 1) as u64);
            out.append(" of ");
            out.append(decimal_text(found as u64).as_str());
            out.append(" results");
            out
        };

        // At least one row: the "no matches" line needs somewhere to sit.
        let height: usize = if shown == 0 {
            1
        } else {
            shown
        };
        Screen { query, prompting, rows, message, count, height }
    }
}

/// Stepping `n` times in one direction.
pub open spec fn stepped_by(m: PaletteModel, down: bool, n: nat) -> PaletteModel
    decreases n,
{
    if n == 0 {
        m
    } else {
        stepped_by(m, down, (n - 1) as nat).stepped(down)
    }
}

/// Every step keeps the selection a result that is on screen, and changes
/// neither the query nor the results.
pub proof fn law_step_keeps_the_selection_on_screen(m: PaletteModel, down: bool)
    requires
        m.well_formed(),
    ensures
        m.stepped(down).well_formed(),
        m.stepped(down).matches == m.matches,
        m.stepped(down).query == m.query,
{
}

/// The selection stops at both ends instead of wrapping: `n` steps down end `n`
/// results further or at the last one, `n` steps up `n` results back or at the
/// first.
pub proof fn law_steps_stop_at_both_ends(m: PaletteModel, n: nat)
    requires
        m.well_formed(),
        m.matches.len() > 0,
    ensures
        stepped_by(m, true, n).selection == if m.selection + n < m.matches.len() {
            m.selection + n
        } else {
            m.matches.len() - 1
        },
        stepped_by(m, false, n).selection == if m.selection >= n {
            m.selection - n
        } else {
            0
        },
        stepped_by(m, true, n).well_formed(),
        stepped_by(m, false, n).well_formed(),
        stepped_by(m, true, n).matches == m.matches,
        stepped_by(m, false, n).matches == m.matches,
    decreases n,
{
    if n > 0 {
        law_steps_stop_at_both_ends(m, (n - 1) as nat);
    }
}

/// Every result can be reached with the arrow keys alone, also those past the
/// visible rows.
pub proof fn law_every_result_is_reachable(m: PaletteModel, target: int)
    requires
        m.well_formed(),
        0 <= target < m.matches.len(),
    ensures
        exists|down: bool, n: nat| #[trigger] stepped_by(m, down, n).selection == target,
{
    if target >= m.selection {
        let n = (target - m.selection) as nat;
        law_steps_stop_at_both_ends(m, n);
        assert(stepped_by(m, true, n).selection == target);
    } else {
        let n = (m.selection - target) as nat;
        law_steps_stop_at_both_ends(m, n);
        assert(stepped_by(m, false, n).selection == target);
    }
}

/// The selected result is among those on screen, in the place the selection says.
pub proof fn law_selected_row_is_on_screen(m: PaletteModel)
    requires
        m.well_formed(),
        m.matches.len() > 0,
    ensures
        0 <= m.selection - m.offset < m.window().len(),
        m.window()[m.selection - m.offset] == m.matches[m.selection],
{
}

/// As many results are on screen as there is room for; a list that fits is shown
/// whole and never scrolls.
pub proof fn law_window_is_full(m: PaletteModel)
    requires
        m.well_formed(),
    ensures
        m.window().len() == if m.matches.len() < PALETTE_ROWS {
            m.matches.len()
        } else {
            PALETTE_ROWS as nat
        },
        m.matches.len() <= PALETTE_ROWS ==> m.offset == 0 && m.window() == m.matches,
{
    if m.matches.len() <= PALETTE_ROWS {
        assert(m.window() =~= m.matches);
    }
}

proof fn lemma_refiltered(m: PaletteModel, query: Seq<char>, contents: Seq<Seq<char>>)
    requires
        contents.len() <= usize::MAX,
    ensures
        m.refiltered(query, contents).lists(contents.len()),
        m.refiltered(query, contents).well_formed(),
        rank::is_ranking(scores(query, contents), m.refiltered(query, contents).matches),
{
    rank::lemma_ranking_exists(scores(query, contents));
}

/// Filtering starts from the top: a new query shows its best match, selected, and
/// lists exactly the candidates that have a score for it.
pub proof fn law_filtering_starts_from_the_top(
    m: PaletteModel,
    query: Seq<char>,
    contents: Seq<Seq<char>>,
)
    requires
        contents.len() <= usize::MAX,
    ensures
        ({
            let f = m.refiltered(query, contents);
            &&& f.selection == 0 && f.offset == 0
            &&& f.well_formed()
            &&& rank::is_ranking(scores(query, contents), f.matches)
        }),
{
    lemma_refiltered(m, query, contents);
}

/// Whatever key is pressed, the results stay among the candidates and the
/// selection stays a result. It also stays on screen, but for the digit 9, which
/// takes the result just below the last visible row, and closes the palette with
/// it.
pub proof fn law_keys_keep_the_selection_valid(
    m: PaletteModel,
    key: KeyView,
    contents: Seq<Seq<char>>,
)
    requires
        m.well_formed(),
        m.lists(contents.len()),
        contents.len() <= usize::MAX,
    ensures
        ({
            let (after, action) = pressed(m, key, contents);
            &&& after.lists(contents.len())
            &&& after.matches.len() == 0 || 0 <= after.selection < after.matches.len()
            &&& after.well_formed() || {
                &&& key.command && digit_row(key.plain) == Some(PALETTE_ROWS as int)
                &&& action == PaletteAction::Accept
                &&& after == PaletteModel { selection: m.offset + PALETTE_ROWS, ..m }
            }
        }),
{
    let shorter = if m.query.len() > 0 {
        m.query.drop_last()
    } else {
        m.query
    };
    lemma_refiltered(m, shorter, contents);
    if let Some(typed) = key.typed {
        lemma_refiltered(m, m.query + printable(typed), contents);
    }
}

/// A click on a row that is on screen keeps the selection there.
pub proof fn law_clicks_keep_the_selection_valid(m: PaletteModel, row: Option<usize>, n: nat)
    requires
        m.well_formed(),
        m.lists(n),
        row matches Some(r) ==> r < PALETTE_ROWS,
    ensures
        clicked(m, row).0.well_formed(),
        clicked(m, row).0.lists(n),
{
}

/// A backspace undoes a character: typing one and deleting it lists what the
/// query listed before, from the top.
pub proof fn law_backspace_undoes_a_character(
    m: PaletteModel,
    typed: KeyView,
    back: KeyView,
    contents: Seq<Seq<char>>,
    c: char,
)
    requires
        typed.code != KEY_RETURN,
        typed.code != KEY_ENTER,
        typed.code != KEY_ESCAPE,
        typed.code != KEY_UP,
        typed.code != KEY_DOWN,
        typed.code != KEY_BACKSPACE,
        !typed.command,
        !typed.control,
        typed.typed == Some(seq![c]),
        !text::control(c),
        back.code == KEY_BACKSPACE,
    ensures
        pressed(pressed(m, typed, contents).0, back, contents).0 == m.refiltered(m.query, contents),
{
    let keeps = |c: char| !text::control(c);
    assert(seq![c] == Seq::<char>::empty().push(c));
    Seq::<char>::empty().lemma_filter_push(c, keeps);
    assert(Seq::<char>::empty().filter(keeps) == Seq::<char>::empty()) by {
        reveal_with_fuel(Seq::filter, 1);
    }
    assert(printable(seq![c]) == seq![c]);
    let longer = m.query + seq![c];
    assert(longer.drop_last() =~= m.query);
}

/// The palette opens on what an empty query lists: everything, in order.
pub proof fn law_empty_query_lists_everything(m: PaletteModel, contents: Seq<Seq<char>>)
    requires
        contents.len() <= usize::MAX,
    ensures
        m.refiltered(seq![], contents) == opened_on(contents.len()),
{
    let all = Seq::new(contents.len(), |k: int| k as usize);
    let s = scores(seq![], contents);
    assert forall|i: usize| (i as int) < s.len() && s[i as int] is Some implies #[trigger] all.contains(
        i,
    ) by {
        assert(all[i as int] == i);
    }
    assert(rank::is_ranking(s, all));
    rank::law_ranking_is_unique(s, all, rank::ranking_of(s));
}

/// The palette opens in order, with every candidate listed.
pub proof fn law_palette_opens_well(n: nat)
    requires
        n <= usize::MAX,
    ensures
        opened_on(n).well_formed(),
        opened_on(n).lists(n),
{
}

/// A palette that shows `rows` results has room for exactly these: each row takes
/// its height's worth of points, one below the other, and no point outside them
/// falls on a row.
pub proof fn law_rows_fill_the_list(rows: int, depth: int)
    requires
        0 <= rows <= PALETTE_ROWS,
        0 <= depth,
    ensures
        row_below(depth, height_of(rows)) == if depth < 48 * rows {
            Some(depth / 48)
        } else {
            None
        },
        row_below(depth, height_of(rows)) matches Some(row) ==> 0 <= row < rows,
{
    assert(PALETTE_ROW_HEIGHT * rows == 48 * rows);
}

/// Filtering looks at the whole of what was copied: a candidate is listed exactly
/// where its content has a score for the query, whatever is shown of it, and what
/// is listed before something else has a higher score, or the same and is newer.
pub proof fn law_filtering_lists_the_best_first(
    m: PaletteModel,
    query: Seq<char>,
    contents: Seq<Seq<char>>,
)
    requires
        contents.len() <= usize::MAX,
    ensures
        ({
            let f = m.refiltered(query, contents);
            &&& f.query == query
            &&& f.matches.no_duplicates()
            &&& forall|k: int|
                0 <= k < f.matches.len() ==> (#[trigger] f.matches[k] as int) < contents.len()
                    && fuzzy::score_of(query, contents[f.matches[k] as int]) is Some
            &&& forall|i: int|
                0 <= i < contents.len() && fuzzy::score_of(query, #[trigger] contents[i]) is Some
                    ==> f.matches.contains(i as usize)
            &&& forall|j: int, k: int|
                0 <= j < k < f.matches.len() ==> {
                    let a = fuzzy::score_of(query, contents[#[trigger] f.matches[j] as int])->0;
                    let b = fuzzy::score_of(query, contents[#[trigger] f.matches[k] as int])->0;
                    a > b || (a == b && f.matches[j] < f.matches[k])
                }
        }),
{
    let s = scores(query, contents);
    let f = m.refiltered(query, contents);
    rank::law_best_score_comes_first(s);
    assert forall|i: int| 0 <= i < contents.len() implies s[i] == fuzzy::score_of(
        query,
        #[trigger] contents[i],
    ) by {}
    assert forall|i: int|
        0 <= i < contents.len() && fuzzy::score_of(
            query,
            #[trigger] contents[i],
        ) is Some implies f.matches.contains(i as usize) by {
        assert(s[i] is Some);
    }
    assert forall|j: int, k: int| 0 <= j < k < f.matches.len() implies {
        let a = fuzzy::score_of(query, contents[#[trigger] f.matches[j] as int])->0;
        let b = fuzzy::score_of(query, contents[#[trigger] f.matches[k] as int])->0;
        a > b || (a == b && f.matches[j] < f.matches[k])
    } by {
        assert(s[f.matches[j] as int] == fuzzy::score_of(query, contents[f.matches[j] as int]));
        assert(s[f.matches[k] as int] == fuzzy::score_of(query, contents[f.matches[k] as int]));
    }
}

/// Filtering finds the query wherever it is: a candidate whose content holds the
/// characters of the lowercased query in order, at any places among its first
/// 4096, is listed, whatever their case and however far behind its preview they
/// lie.
pub proof fn law_filtering_finds_the_query_anywhere(
    m: PaletteModel,
    query: Seq<char>,
    contents: Seq<Seq<char>>,
    i: int,
    p: Seq<int>,
)
    requires
        contents.len() <= usize::MAX,
        0 <= i < contents.len(),
        p.len() == text::folded_text(query).len(),
        forall|k: int|
            0 <= k < p.len() ==> 0 <= #[trigger] p[k] < contents[i].len() && p[k] < 4096
                && text::folded_char(contents[i][p[k]]) == seq![text::folded_text(query)[k]],
        forall|j: int, k: int| 0 <= j < k < p.len() ==> #[trigger] p[j] < #[trigger] p[k],
    ensures
        m.refiltered(query, contents).matches.contains(i as usize),
{
    law_filtering_lists_the_best_first(m, query, contents);
    fuzzy::law_found_iff_the_letters_are_there_in_order(query, contents[i]);
    if query.len() == 0 {
        assert(query =~= Seq::<char>::empty());
    }
    assert(fuzzy::score_of(query, contents[i]) is Some);
}

/// In particular a candidate is listed whose content holds the lowercased query as
/// one piece.
pub proof fn law_filtering_finds_substrings(
    m: PaletteModel,
    query: Seq<char>,
    contents: Seq<Seq<char>>,
    i: int,
    at: int,
)
    requires
        contents.len() <= usize::MAX,
        0 <= i < contents.len(),
        0 <= at,
        at + text::folded_text(query).len() <= contents[i].len(),
        at + text::folded_text(query).len() <= 4096,
        forall|k: int|
            0 <= k < text::folded_text(query).len() ==> text::folded_char(
                #[trigger] contents[i][at + k],
            ) == seq![text::folded_text(query)[k]],
    ensures
        m.refiltered(query, contents).matches.contains(i as usize),
{
    let needle = text::folded_text(query);
    let p = Seq::new(needle.len(), |k: int| at + k);
    assert forall|k: int| 0 <= k < p.len() implies 0 <= #[trigger] p[k] < contents[i].len() && p[k]
        < 4096 && text::folded_char(contents[i][p[k]]) == seq![needle[k]] by {
        assert(contents[i][p[k]] == contents[i][at + k]);
    }
    law_filtering_finds_the_query_anywhere(m, query, contents, i, p);
}

/// What is taken is what the marked row shows: the content of the candidate on the
/// one row of the screen that is marked as selected. Nothing is taken only where
/// there are no results.
pub proof fn law_taken_is_what_the_marked_row_shows(
    m: PaletteModel,
    contents: Seq<Seq<char>>,
    rows: Seq<ScreenRow>,
    slot: int,
)
    requires
        m.well_formed(),
        m.lists(contents.len()),
        rows_show(rows, m),
    ensures
        picked_of(m, contents) is None <==> m.matches.len() == 0,
        m.matches.len() > 0 ==> picked_of(m, contents) == Some(
            contents[m.window()[m.selection - m.offset] as int],
        ),
        0 <= slot < rows.len() ==> rows[slot].candidate == m.matches[m.offset + slot],
        0 <= slot < rows.len() && rows[slot].selected ==> picked_of(m, contents) == Some(
            contents[rows[slot].candidate as int],
        ),
        m.matches.len() > 0 ==> 0 <= m.selection - m.offset < rows.len() && rows[m.selection
            - m.offset].selected,
{
    if 0 <= slot < rows.len() {
        assert(rows[slot].candidate == m.window()[slot]);
    }
    if m.matches.len() > 0 {
        let marked = m.selection - m.offset;
        assert(m.window().len() == rows.len());
        assert(rows[marked].selected);
    }
}

/// What return takes right after typing is the best match: it has a score for the
/// query, and no candidate has a higher one.
pub proof fn law_best_match_is_taken(m: PaletteModel, query: Seq<char>, contents: Seq<Seq<char>>)
    requires
        contents.len() <= usize::MAX,
    ensures
        match picked_of(m.refiltered(query, contents), contents) {
            Some(taken) => {
                &&& contents.contains(taken)
                &&& fuzzy::score_of(query, taken) is Some
                &&& forall|i: int|
                    0 <= i < contents.len() && fuzzy::score_of(
                        query,
                        #[trigger] contents[i],
                    ) is Some ==> fuzzy::score_of(query, contents[i])->0 <= fuzzy::score_of(
                        query,
                        taken,
                    )->0
            },
            None => forall|i: int|
                0 <= i < contents.len() ==> fuzzy::score_of(query, #[trigger] contents[i]) is None,
        },
{
    law_filtering_lists_the_best_first(m, query, contents);
    let f = m.refiltered(query, contents);
    if f.matches.len() > 0 {
        let first = f.matches[0];
        let taken = contents[first as int];
        assert(picked_of(f, contents) == Some(taken));
        assert forall|i: int|
            0 <= i < contents.len() && fuzzy::score_of(
                query,
                #[trigger] contents[i],
            ) is Some implies fuzzy::score_of(query, contents[i])->0 <= fuzzy::score_of(
            query,
            taken,
        )->0 by {
            assert(f.matches.contains(i as usize));
            let k = choose|k: int| 0 <= k < f.matches.len() && f.matches[k] == i as usize;
            if k > 0 {
                assert(f.matches[0] == first && f.matches[k] == i as usize);
            }
        }
    } else {
        assert forall|i: int| 0 <= i < contents.len() implies fuzzy::score_of(
            query,
            #[trigger] contents[i],
        ) is None by {
            if fuzzy::score_of(query, contents[i]) is Some {
                assert(f.matches.contains(i as usize));
            }
        }
    }
}

/// The results on screen are those from the top of the window on, in order: eight,
/// or as many as are left.
pub proof fn law_window_shows_results_in_order(m: PaletteModel, k: int)
    requires
        0 <= m.offset <= m.matches.len(),
    ensures
        m.window().len() == if m.matches.len() - m.offset < 8 {
            m.matches.len() - m.offset
        } else {
            8
        },
        0 <= k < m.window().len() ==> m.window()[k] == m.matches[m.offset + k],
{
}

/// The window moves no further than it has to: it stays where it is while the
/// selection stays on screen, and otherwise moves by the one row that was missing.
pub proof fn law_window_moves_by_a_row(m: PaletteModel, down: bool)
    requires
        m.well_formed(),
        m.matches.len() > 0,
    ensures
        ({
            let after = m.stepped(down);
            &&& m.offset <= after.selection < m.offset + 8 ==> after.offset == m.offset
            &&& after.selection < m.offset ==> after.offset == m.offset - 1
            &&& after.selection >= m.offset + 8 ==> after.offset == m.offset + 1
            &&& after.query == m.query && after.matches == m.matches
            &&& down && m.selection + 1 < m.matches.len() ==> after.selection == m.selection + 1
            &&& !down && m.selection > 0 ==> after.selection == m.selection - 1
        }),
{
}

/// What the keys are for. Return takes what is selected and escape takes nothing;
/// the arrows, and ⌃N and ⌃P, move the selection down and up; backspace takes the
/// last character off the query.
pub proof fn law_keys_do_what_they_say(m: PaletteModel, key: KeyView, contents: Seq<Seq<char>>)
    ensures
        key.code == 36 || key.code == 76 ==> pressed(m, key, contents) == (m, PaletteAction::Accept),
        key.code == 53 ==> pressed(m, key, contents) == (m, PaletteAction::Cancel),
        key.code == 126 ==> pressed(m, key, contents) == (m.stepped(false), PaletteAction::Stay),
        key.code == 125 ==> pressed(m, key, contents) == (m.stepped(true), PaletteAction::Stay),
        key.code == 51 && m.query.len() > 0 ==> pressed(m, key, contents) == (
            m.refiltered(m.query.drop_last(), contents),
            PaletteAction::Stay,
        ),
        plain_key(key) && !key.command && key.control && key.plain == Some("n"@) ==> pressed(
            m,
            key,
            contents,
        ) == (m.stepped(true), PaletteAction::Stay),
        plain_key(key) && !key.command && key.control && key.plain == Some("p"@) ==> pressed(
            m,
            key,
            contents,
        ) == (m.stepped(false), PaletteAction::Stay),
        plain_key(key) && !key.command && key.control && key.plain != Some("n"@) && key.plain
            != Some("p"@) ==> pressed(m, key, contents) == (m, PaletteAction::Stay),
        plain_key(key) && !key.command && !key.control && key.typed is None ==> pressed(
            m,
            key,
            contents,
        ) == (m, PaletteAction::Stay),
        key.code == 51 && m.query.len() == 0 ==> pressed(m, key, contents) == (
            m.refiltered(m.query, contents),
            PaletteAction::Stay,
        ),
{
    reveal_strlit("n");
    reveal_strlit("p");
    assert("n"@[0] != "p"@[0]);
}

/// A key that is none of return, escape, the arrows and backspace.
pub open spec fn plain_key(key: KeyView) -> bool {
    key.code != 36 && key.code != 76 && key.code != 53 && key.code != 126 && key.code != 125
        && key.code != 51
}

/// What is typed goes to the end of the query, character by character: control
/// characters are left out, and everything else is kept as it is.
pub proof fn law_typing_extends_the_query(
    m: PaletteModel,
    key: KeyView,
    contents: Seq<Seq<char>>,
    typed: Seq<char>,
)
    requires
        plain_key(key),
        !key.command,
        !key.control,
        key.typed == Some(typed),
        typed.len() > 0,
        forall|i: int| 0 <= i < typed.len() ==> !text::control(#[trigger] typed[i]),
    ensures
        pressed(m, key, contents) == (m.refiltered(m.query + typed, contents), PaletteAction::Stay),
{
    crate::lines::lemma_filter_all(typed, |c: char| !text::control(c));
}

/// Which of the characters typed are kept is decided one by one.
pub proof fn law_typed_characters_are_judged_one_by_one(typed: Seq<char>, c: char)
    ensures
        printable(Seq::empty()) == Seq::<char>::empty(),
        printable(typed.push(c)) == if text::control(c) {
            printable(typed)
        } else {
            printable(typed).push(c)
        },
{
    typed.lemma_filter_push(c, |c: char| !text::control(c));
    reveal_with_fuel(Seq::filter, 1);
}

/// A digit with the command key takes the result that many rows down the screen,
/// where there is one; with anything else that key does nothing.
pub proof fn law_digits_take_a_row(m: PaletteModel, key: KeyView, contents: Seq<Seq<char>>, n: int)
    requires
        plain_key(key),
        key.command,
        1 <= n <= 9,
    ensures
        key.plain matches Some(s) && s.len() > 0 && s[0] as int == 48 + n ==> pressed(
            m,
            key,
            contents,
        ) == if m.offset + n - 1 < m.matches.len() {
            (PaletteModel { selection: m.offset + n - 1, ..m }, PaletteAction::Accept)
        } else {
            (m, PaletteAction::Stay)
        },
        key.plain is None ==> pressed(m, key, contents) == (m, PaletteAction::Stay),
        key.plain matches Some(s) && (s.len() == 0 || !('1' <= s[0] <= '9')) ==> pressed(
            m,
            key,
            contents,
        ) == (m, PaletteAction::Stay),
{
}

/// A click takes the result on the row that it hits, where there is one.
pub proof fn law_click_takes_the_row_it_hits(m: PaletteModel, row: usize)
    ensures
        clicked(m, None) == (m, PaletteAction::Stay),
        clicked(m, Some(row)) == if m.offset + row < m.matches.len() {
            (PaletteModel { selection: m.offset + row, ..m }, PaletteAction::Accept)
        } else {
            (m, PaletteAction::Stay)
        },
{
}

/// The position told is the place of the selection among the results, counted from
/// 1, and what is told in place of rows names the query.
pub proof fn law_screen_tells_the_position(query: Seq<char>, selection: int, found: nat)
    requires
        0 <= selection,
    ensures
        found > 1 ==> count_shown(selection, found) == text::decimal((selection + 1) as nat)
            + " of "@ + text::decimal(found) + " results"@,
        message_shown(query, found) is Some <==> found == 0,
        query.len() > 0 ==> message_shown(query, 0) == Some("No matches for “"@ + query + "”"@)
            && query_shown(query) == query,
{
}

/// A candidate is made of one entry throughout, and of the whole of it: only its
/// preview is cut.
pub proof fn law_candidate_is_made_of_one_entry(entry: HistoryEntry, age: Seq<char>)
    ensures
        ({
            let c = candidate_of(entry, age);
            &&& c.content == entry.content@
            &&& c.preview == display::preview_of(entry.content@, 82)
            &&& entry.source is None ==> c.meta == age
            &&& entry.source matches Some(app) ==> c.meta == app@ + " · "@ + age
            &&& entry.source_bundle_id is None ==> c.bundle_id is None
            &&& entry.source_bundle_id matches Some(id) ==> c.bundle_id == Some(id@)
        }),
{
}

/// The contents that are searched and taken are those of the candidates, in order.
pub proof fn law_contents_are_those_of_the_candidates(candidates: Seq<Candidate>, i: int)
    requires
        0 <= i < candidates.len(),
    ensures
        contents(candidates).len() == candidates.len(),
        contents(candidates)[i] == candidates[i].content@,
{
}

/// The palette is as high as its parts: 62 points for the search, 8 below it, 48 for
/// each row and 30 for the footer.
pub proof fn law_height_is_that_of_the_parts(rows: int)
    ensures
        height_of(rows) == 62 + 8 + 48 * rows + 30,
{
    assert(PALETTE_ROW_HEIGHT * rows == 48 * rows);
}

/// The palette opens on everything: each candidate is listed once, in its place,
/// and the first is selected.
pub proof fn law_palette_opens_on_everything(n: nat, i: int)
    requires
        n <= usize::MAX,
        0 <= i < n,
    ensures
        opened_on(n).query.len() == 0,
        opened_on(n).selection == 0,
        opened_on(n).matches.len() == n,
        opened_on(n).matches[i] == i,
{
}

} // verus!
