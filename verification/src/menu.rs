//! The menu: its rows, and what the commands below them do.

use vstd::prelude::*;

use crate::display;
use crate::display::preview;
use crate::history;
use crate::history::HistoryEntry;
use crate::lines;
use crate::pins;
use crate::pins::{is_pinned, toggle_pin, Pin};
use crate::tail;
use crate::text;
use crate::text::{borrow_option, copy_option, decimal_text, same, same_option};

verus! {

/// Preview width inside the menu: narrower than the terminal's, since a menu that
/// stretches across the screen is unusable.
pub const MENU_PREVIEW_WIDTH: usize = 60;

/// How many rows of a section have a shortcut.
pub const NUMBERED_ROWS: usize = 9;

/// The shortcut of a row: the command key and a digit, with shift or without.
#[derive(Debug, Clone, Copy, PartialEq, Eq, Structural)]
pub struct DigitKey {
    pub digit: u8,
    pub shift: bool,
}

/// The shortcut of the row at `position`, counted from 0.
pub open spec fn digit_key(position: int, shift: bool) -> Option<DigitKey> {
    if 0 <= position < NUMBERED_ROWS {
        Some(DigitKey { digit: (position + 1) as u8, shift })
    } else {
        None
    }
}

/// ⌘1–⌘9 for the first nine rows and nothing beyond, the same place Safari stops
/// numbering tabs.
pub fn digit_accelerator(position: usize, extra_shift: bool) -> (r: Option<DigitKey>)
    ensures
        r == digit_key(position as int, extra_shift),
{
    if position < NUMBERED_ROWS {
        Some(DigitKey { digit: (position + 1) as u8, shift: extra_shift })
    } else {
        None
    }
}

/// The dimmed second line on a row: where it came from and how old it is.
pub open spec fn metadata_of(source: Option<Seq<char>>, age: Seq<char>) -> Seq<char> {
    match source {
        Some(app) => app + " · "@ + age,
        None => age,
    }
}

/// The dimmed second line on a row: where it came from and how old it is.
pub fn metadata_line(entry: &HistoryEntry, age: &str) -> (r: String)
    ensures
        r@ == metadata_of(text::option_view(entry.source), age@),
{
    match &entry.source {
        Some(app) => {
            let mut out = app.clone();
            out.append(" · ");
            out.append(age);
            out
        },
        None => age.to_owned(),
    }
}

/// A row that copies its content back to the clipboard when it is clicked.
pub struct MenuRow {
    pub content: String,
    pub label: String,
    pub subtitle: Option<String>,
    /// The app whose icon the row shows.
    pub bundle_id: Option<String>,
    pub key: Option<DigitKey>,
    /// Whether the content is on the clipboard now.
    pub current: bool,
}

/// One item in the menu's dynamic top section.
pub enum TopItem {
    Row(MenuRow),
    /// A disabled section header.
    Label(String),
    Separator,
}

/// What a [`MenuRow`] holds.
pub struct RowView {
    pub content: Seq<char>,
    pub label: Seq<char>,
    pub subtitle: Option<Seq<char>>,
    pub bundle_id: Option<Seq<char>>,
    pub key: Option<DigitKey>,
    pub current: bool,
}

/// What a [`TopItem`] holds.
pub enum TopView {
    Row(RowView),
    Label(Seq<char>),
    Separator,
}

impl View for MenuRow {
    type V = RowView;

    open spec fn view(&self) -> RowView {
        RowView {
            content: self.content@,
            label: self.label@,
            subtitle: text::option_view(self.subtitle),
            bundle_id: text::option_view(self.bundle_id),
            key: self.key,
            current: self.current,
        }
    }
}

impl View for TopItem {
    type V = TopView;

    open spec fn view(&self) -> TopView {
        match self {
            TopItem::Row(row) => TopView::Row(row@),
            TopItem::Label(label) => TopView::Label(label@),
            TopItem::Separator => TopView::Separator,
        }
    }
}

/// What the items of a section hold.
pub open spec fn top_views(top: Seq<TopItem>) -> Seq<TopView> {
    top.map_values(|item: TopItem| item@)
}

/// The row for `content`. Without subtitles the metadata has to ride in the
/// label, which is worse-looking but better than losing it.
pub open spec fn row_of(
    content: Seq<char>,
    bundle_id: Option<Seq<char>>,
    metadata: Option<Seq<char>>,
    key: Option<DigitKey>,
    last: Option<Seq<char>>,
    subtitles: bool,
) -> RowView {
    let shown = display::preview_of(content, MENU_PREVIEW_WIDTH as nat);
    RowView {
        content,
        label: match metadata {
            Some(m) => if subtitles {
                shown
            } else {
                shown + "  ·  "@ + m
            },
            None => shown,
        },
        subtitle: if subtitles {
            metadata
        } else {
            None
        },
        bundle_id,
        key,
        current: last == Some(content),
    }
}

fn push_row(
    top: &mut Vec<TopItem>,
    content: &str,
    bundle_id: &Option<String>,
    metadata: Option<String>,
    key: Option<DigitKey>,
    last: Option<&str>,
    subtitles: bool,
)
    ensures
        top_views(final(top)@) == top_views(old(top)@).push(
            TopView::Row(
                row_of(
                    content@,
                    text::option_view(*bundle_id),
                    text::option_view(metadata),
                    key,
                    text::option_str_view(last),
                    subtitles,
                ),
            ),
        ),
{
    let ghost before = top@;
    let mut label = preview(content, MENU_PREVIEW_WIDTH);
    let ghost shown = label@;
    let mut subtitle: Option<String> = None;
    if let Some(m) = metadata {
        if subtitles {
            subtitle = Some(m);
        } else {
            label.append("  ·  ");
            label.append(m.as_str());
        }
    }
    let row = MenuRow {
        content: content.to_owned(),
        label,
        subtitle,
        bundle_id: copy_option(bundle_id),
        key,
        current: same_option(last, Some(content)),
    };
    top.push(TopItem::Row(row));
    assert(top_views(top@) =~= top_views(before).push(TopView::Row(row@)));
}

fn push_label(top: &mut Vec<TopItem>, label: &str)
    ensures
        top_views(final(top)@) == top_views(old(top)@).push(TopView::Label(label@)),
{
    let ghost before = top@;
    top.push(TopItem::Label(label.to_owned()));
    assert(top_views(top@) =~= top_views(before).push(TopView::Label(label@)));
}

fn push_separator(top: &mut Vec<TopItem>)
    ensures
        top_views(final(top)@) == top_views(old(top)@).push(TopView::Separator),
{
    let ghost before = top@;
    top.push(TopItem::Separator);
    assert(top_views(top@) =~= top_views(before).push(TopView::Separator));
}

/// The rows of the pins, numbered with shift.
pub open spec fn pinned_rows(
    pinned: Seq<pins::PinView>,
    last: Option<Seq<char>>,
    subtitles: bool,
) -> Seq<TopView> {
    Seq::new(
        pinned.len(),
        |i: int|
            TopView::Row(
                row_of(
                    pinned[i].content,
                    pinned[i].source_bundle_id,
                    pinned[i].source,
                    digit_key(i, true),
                    last,
                    subtitles,
                ),
            ),
    )
}

/// The rows of the recent entries, newest first, numbered without shift.
pub open spec fn recent_rows(
    entries: Seq<history::EntryView>,
    ages: Seq<Seq<char>>,
    last: Option<Seq<char>>,
    subtitles: bool,
) -> Seq<TopView> {
    let n = entries.len();
    Seq::new(
        n,
        |i: int|
            TopView::Row(
                row_of(
                    entries[n - 1 - i].content,
                    entries[n - 1 - i].source_bundle_id,
                    Some(metadata_of(entries[n - 1 - i].source, ages[n - 1 - i])),
                    digit_key(i, false),
                    last,
                    subtitles,
                ),
            ),
    )
}

/// The dynamic section of the menu: the pins under their header, where there are
/// any, and the recent entries under theirs.
pub open spec fn top_section(
    pinned: Seq<pins::PinView>,
    entries: Seq<history::EntryView>,
    ages: Seq<Seq<char>>,
    last: Option<Seq<char>>,
    subtitles: bool,
) -> Seq<TopView> {
    (if pinned.len() > 0 {
        seq![TopView::Label("Pinned"@)] + pinned_rows(pinned, last, subtitles) + seq![
            TopView::Separator,
        ]
    } else {
        seq![]
    }) + (if entries.len() == 0 {
        seq![TopView::Label("No clipboard history yet"@)]
    } else {
        seq![TopView::Label("Recent"@)] + recent_rows(entries, ages, last, subtitles)
    })
}

proof fn lemma_rows_show_their_own(
    top: Seq<TopItem>,
    pinned: Seq<Pin>,
    entries: Seq<HistoryEntry>,
    ages: Seq<String>,
    last: Option<&str>,
    subtitles: bool,
)
    requires
        ages.len() == entries.len(),
        top_views(top) == top_section(
            pins::pin_views(pinned),
            history::entry_views(entries),
            lines::text_views(ages),
            text::option_str_view(last),
            subtitles,
        ),
    ensures
        ({
            let above: int = if pinned.len() > 0 {
                (pinned.len() + 2) as int
            } else {
                0
            };
            let n = entries.len();
            &&& top.len() == above + 1 + n
            &&& forall|k: int|
                1 <= k <= pinned.len() ==> (#[trigger] top[k] matches TopItem::Row(row) && {
                    let pin = pinned[k - 1];
                    &&& row.content@ == pin.content@
                    &&& row.bundle_id is Some <==> pin.source_bundle_id is Some
                    &&& pin.source_bundle_id is Some ==> (row.bundle_id->0)@ == (
                    pin.source_bundle_id->0)@
                    &&& row.current <==> last is Some && (last->0)@ == pin.content@
                    &&& row.subtitle is Some <==> subtitles && pin.source is Some
                    &&& row.subtitle is Some ==> (row.subtitle->0)@ == (pin.source->0)@
                })
            &&& forall|k: int|
                above < k <= above + n ==> (#[trigger] top[k] matches TopItem::Row(row) && {
                    let entry = entries[n - (k - above)];
                    let age = ages[n - (k - above)]@;
                    &&& row.content@ == entry.content@
                    &&& row.bundle_id is Some <==> entry.source_bundle_id is Some
                    &&& entry.source_bundle_id is Some ==> (row.bundle_id->0)@ == (
                    entry.source_bundle_id->0)@
                    &&& row.current <==> last is Some && (last->0)@ == entry.content@
                    &&& row.subtitle is Some <==> subtitles
                    &&& subtitles && entry.source is None ==> (row.subtitle->0)@ == age
                    &&& subtitles && entry.source is Some ==> (row.subtitle->0)@ == (
                    entry.source->0)@ + " · "@ + age
                })
        }),
{
    let views = top_views(top);
    let n = entries.len();
    let above: int = if pinned.len() > 0 {
        (pinned.len() + 2) as int
    } else {
        0
    };
    assert(views.len() == top.len());
    assert forall|k: int| 1 <= k <= pinned.len() implies (#[trigger] top[k] matches TopItem::Row(
        row,
    ) && {
        let pin = pinned[k - 1];
        &&& row.content@ == pin.content@
        &&& row.bundle_id is Some <==> pin.source_bundle_id is Some
        &&& pin.source_bundle_id is Some ==> (row.bundle_id->0)@ == (pin.source_bundle_id->0)@
        &&& row.current <==> last is Some && (last->0)@ == pin.content@
        &&& row.subtitle is Some <==> subtitles && pin.source is Some
        &&& row.subtitle is Some ==> (row.subtitle->0)@ == (pin.source->0)@
    }) by {
        assert(views[k] == top[k]@);
        assert(pins::pin_views(pinned)[k - 1] == pinned[k - 1]@);
    }
    assert forall|k: int| above < k <= above + n implies (#[trigger] top[k] matches TopItem::Row(row)
        && {
        let entry = entries[n - (k - above)];
        let age = ages[n - (k - above)]@;
        &&& row.content@ == entry.content@
        &&& row.bundle_id is Some <==> entry.source_bundle_id is Some
        &&& entry.source_bundle_id is Some ==> (row.bundle_id->0)@ == (entry.source_bundle_id->0)@
        &&& row.current <==> last is Some && (last->0)@ == entry.content@
        &&& row.subtitle is Some <==> subtitles
        &&& subtitles && entry.source is None ==> (row.subtitle->0)@ == age
        &&& subtitles && entry.source is Some ==> (row.subtitle->0)@ == (entry.source->0)@ + " · "@
            + age
    }) by {
        let at = n - (k - above);
        assert(views[k] == top[k]@);
        assert(history::entry_views(entries)[at] == entries[at]@);
        assert(lines::text_views(ages)[at] == ages[at]@);
    }
}

/// The dynamic section of the menu; `ages` says how old each entry is.
pub fn build_recent_rows(
    pinned: &Vec<Pin>,
    entries: &Vec<HistoryEntry>,
    ages: &Vec<String>,
    last: Option<&str>,
    subtitles: bool,
) -> (top: Vec<TopItem>)
    requires
        ages@.len() == entries@.len(),
    ensures
        top_views(top@) == top_section(
            pins::pin_views(pinned@),
            history::entry_views(entries@),
            lines::text_views(ages@),
            text::option_str_view(last),
            subtitles,
        ),
        ({
            let above: int = if pinned@.len() > 0 {
                (pinned@.len() + 2) as int
            } else {
                0
            };
            let n = entries@.len();
            &&& top@.len() == above + 1 + n
            &&& forall|k: int|
                1 <= k <= pinned@.len() ==> (#[trigger] top@[k] matches TopItem::Row(row) && {
                    let pin = pinned@[k - 1];
                    &&& row.content@ == pin.content@
                    &&& row.bundle_id is Some <==> pin.source_bundle_id is Some
                    &&& pin.source_bundle_id is Some ==> (row.bundle_id->0)@ == (
                    pin.source_bundle_id->0)@
                    &&& row.current <==> last is Some && (last->0)@ == pin.content@
                    &&& row.subtitle is Some <==> subtitles && pin.source is Some
                    &&& row.subtitle is Some ==> (row.subtitle->0)@ == (pin.source->0)@
                })
            &&& forall|k: int|
                above < k <= above + n ==> (#[trigger] top@[k] matches TopItem::Row(row) && {
                    let entry = entries@[n - (k - above)];
                    let age = ages@[n - (k - above)]@;
                    &&& row.content@ == entry.content@
                    &&& row.bundle_id is Some <==> entry.source_bundle_id is Some
                    &&& entry.source_bundle_id is Some ==> (row.bundle_id->0)@ == (
                    entry.source_bundle_id->0)@
                    &&& row.current <==> last is Some && (last->0)@ == entry.content@
                    &&& row.subtitle is Some <==> subtitles
                    &&& subtitles && entry.source is None ==> (row.subtitle->0)@ == age
                    &&& subtitles && entry.source is Some ==> (row.subtitle->0)@ == (
                    entry.source->0)@ + " · "@ + age
                })
        }),
{
    let ghost l = text::option_str_view(last);
    let ghost pv = pins::pin_views(pinned@);
    let ghost ev = history::entry_views(entries@);
    let ghost av = lines::text_views(ages@);
    let mut top: Vec<TopItem> = Vec::new();
    assert(top_views(top@) =~= Seq::<TopView>::empty());
    if pinned.len() > 0 {
        push_label(&mut top, "Pinned");
        let ghost rows = pinned_rows(pv, l, subtitles);
        let ghost head = top_views(top@);
        let mut i: usize = 0;
        assert(head + rows.take(0) =~= head);
        while i < pinned.len()
            invariant
                i <= pinned@.len(),
                l == text::option_str_view(last),
                pv == pins::pin_views(pinned@),
                rows == pinned_rows(pv, l, subtitles),
                top_views(top@) == head + rows.take(i as int),
            decreases pinned.len() - i,
        {
            let pin = &pinned[i];
            // The pin carries its own source, so this costs no scan of the
            // history per pinned row.
            push_row(
                &mut top,
                pin.content.as_str(),
                &pin.source_bundle_id,
                copy_option(&pin.source),
                digit_accelerator(i, true),
                last,
                subtitles,
            );
            assert(pv[i as int] == pin@);
            assert(head + rows.take(i + 1) =~= (head + rows.take(i as int)).push(rows[i as int]));
            i += 1;
        }
        assert(rows.take(i as int) =~= rows);
        push_separator(&mut top);
        assert(top_views(top@) =~= seq![TopView::Label("Pinned"@)] + rows + seq![
            TopView::Separator,
        ]);
    }
    let ghost above = top_views(top@);
    if entries.len() == 0 {
        push_label(&mut top, "No clipboard history yet");
        assert(top_views(top@) =~= above + seq![TopView::Label("No clipboard history yet"@)]);
        proof {
            lemma_rows_show_their_own(top@, pinned@, entries@, ages@, last, subtitles);
        }
        return top;
    }
    push_label(&mut top, "Recent");
    let ghost rows = recent_rows(ev, av, l, subtitles);
    let ghost head = top_views(top@);
    assert(head + rows.take(0) =~= head);
    let mut i: usize = 0;
    let total: usize = entries.len();
    while i < total
        invariant
            i <= total,
            total == entries@.len(),
            ages@.len() == total,
            l == text::option_str_view(last),
            ev == history::entry_views(entries@),
            av == lines::text_views(ages@),
            rows == recent_rows(ev, av, l, subtitles),
            top_views(top@) == head + rows.take(i as int),
        decreases total - i,
    {
        let at: usize = total - 1 - i;
        let entry = &entries[at];
        push_row(
            &mut top,
            entry.content.as_str(),
            &entry.source_bundle_id,
            Some(metadata_line(entry, ages[at].as_str())),
            digit_accelerator(i, false),
            last,
            subtitles,
        );
        assert(ev[at as int] == entry@);
        assert(av[at as int] == ages@[at as int]@);
        assert(head + rows.take(i + 1) =~= (head + rows.take(i as int)).push(rows[i as int]));
        i += 1;
    }
    assert(rows.take(i as int) =~= rows);
    assert(top_views(top@) =~= above + (seq![TopView::Label("Recent"@)] + rows));
    proof {
        lemma_rows_show_their_own(top@, pinned@, entries@, ages@, last, subtitles);
    }
    top
}

/// What an event of the menu asks for.
pub enum MenuCommand {
    Quit,
    Clear,
    ToggleLogin,
    Search,
    TogglePin,
    Delete,
    Preferences,
    /// The content of a row is to go back on the clipboard.
    Take(String),
    /// The event belongs to no item that can be clicked.
    Nothing,
}

/// What a [`MenuCommand`] holds.
pub enum CommandView {
    Quit,
    Clear,
    ToggleLogin,
    Search,
    TogglePin,
    Delete,
    Preferences,
    Take(Seq<char>),
    Nothing,
}

impl View for MenuCommand {
    type V = CommandView;

    open spec fn view(&self) -> CommandView {
        match self {
            MenuCommand::Quit => CommandView::Quit,
            MenuCommand::Clear => CommandView::Clear,
            MenuCommand::ToggleLogin => CommandView::ToggleLogin,
            MenuCommand::Search => CommandView::Search,
            MenuCommand::TogglePin => CommandView::TogglePin,
            MenuCommand::Delete => CommandView::Delete,
            MenuCommand::Preferences => CommandView::Preferences,
            MenuCommand::Take(content) => CommandView::Take(content@),
            MenuCommand::Nothing => CommandView::Nothing,
        }
    }
}

/// The ids of the fixed commands below the rows.
pub struct FooterIds {
    pub quit: String,
    pub clear: String,
    pub login: String,
    pub search: String,
    pub pin: String,
    pub delete: String,
    pub prefs: String,
}

/// The first row with the given id, from position `from` on.
pub open spec fn row_with(
    top: Seq<TopView>,
    ids: Seq<Seq<char>>,
    id: Seq<char>,
    from: int,
) -> Option<RowView>
    decreases top.len() - from,
{
    if from < 0 || from >= top.len() {
        None
    } else {
        match top[from] {
            TopView::Row(row) => if ids[from] == id {
                Some(row)
            } else {
                row_with(top, ids, id, from + 1)
            },
            _ => row_with(top, ids, id, from + 1),
        }
    }
}

/// What the event of the item `id` asks for.
pub open spec fn command_of(
    id: Seq<char>,
    footer: FooterIds,
    top: Seq<TopView>,
    ids: Seq<Seq<char>>,
) -> CommandView {
    if id == footer.quit@ {
        CommandView::Quit
    } else if id == footer.clear@ {
        CommandView::Clear
    } else if id == footer.login@ {
        CommandView::ToggleLogin
    } else if id == footer.search@ {
        CommandView::Search
    } else if id == footer.pin@ {
        CommandView::TogglePin
    } else if id == footer.delete@ {
        CommandView::Delete
    } else if id == footer.prefs@ {
        CommandView::Preferences
    } else {
        match row_with(top, ids, id, 0) {
            Some(row) => CommandView::Take(row.content),
            None => CommandView::Nothing,
        }
    }
}

/// What the event of the item `id` asks for; `ids` holds the ids of the items of
/// the dynamic section.
pub fn menu_command(
    id: &str,
    footer: &FooterIds,
    top: &Vec<TopItem>,
    ids: &Vec<String>,
) -> (r: MenuCommand)
    requires
        ids@.len() == top@.len(),
    ensures
        r@ == command_of(id@, *footer, top_views(top@), lines::text_views(ids@)),
{
    if same(id, footer.quit.as_str()) {
        return MenuCommand::Quit;
    }
    if same(id, footer.clear.as_str()) {
        return MenuCommand::Clear;
    }
    if same(id, footer.login.as_str()) {
        return MenuCommand::ToggleLogin;
    }
    if same(id, footer.search.as_str()) {
        return MenuCommand::Search;
    }
    if same(id, footer.pin.as_str()) {
        return MenuCommand::TogglePin;
    }
    if same(id, footer.delete.as_str()) {
        return MenuCommand::Delete;
    }
    if same(id, footer.prefs.as_str()) {
        return MenuCommand::Preferences;
    }
    let ghost tv = top_views(top@);
    let ghost iv = lines::text_views(ids@);
    let mut i: usize = 0;
    while i < top.len()
        invariant
            i <= top@.len(),
            ids@.len() == top@.len(),
            tv == top_views(top@),
            iv == lines::text_views(ids@),
            row_with(tv, iv, id@, 0) == row_with(tv, iv, id@, i as int),
            command_of(id@, *footer, tv, iv) == match row_with(tv, iv, id@, 0) {
                Some(row) => CommandView::Take(row.content),
                None => CommandView::Nothing,
            },
        decreases top.len() - i,
    {
        assert(tv[i as int] == top@[i as int]@);
        assert(iv[i as int] == ids@[i as int]@);
        if let TopItem::Row(row) = &top[i] {
            if same(id, ids[i].as_str()) {
                return MenuCommand::Take(row.content.clone());
            }
        }
        i += 1;
    }
    MenuCommand::Nothing
}

/// How the pin command reads.
#[derive(Debug, Clone, Copy, PartialEq, Eq, Structural)]
pub enum PinItem {
    /// It cannot be used, and keeps its text.
    Disabled,
    /// "Pin Current Clipboard".
    Pin,
    /// "Unpin Current Clipboard".
    Unpin,
}

/// The pin command reads as pin or unpin depending on what's on the clipboard
/// right now, which avoids needing a control on every row. `pinned` is `None`
/// where the pins cannot be read.
pub fn pin_item(current: Option<&str>, pinned: Option<&Vec<Pin>>) -> (r: PinItem)
    ensures
        r == match (text::option_str_view(current), pinned) {
            (Some(content), Some(pins)) => if pins::holds_pin(pins::pin_views(pins@), content) {
                PinItem::Unpin
            } else {
                PinItem::Pin
            },
            _ => PinItem::Disabled,
        },
{
    match (current, pinned) {
        (Some(content), Some(pins)) => if is_pinned(pins, content) {
            PinItem::Unpin
        } else {
            PinItem::Pin
        },
        _ => PinItem::Disabled,
    }
}

/// The newest entry with the given content.
pub open spec fn newest_with(entries: Seq<history::EntryView>, content: Seq<char>) -> Option<
    history::EntryView,
>
    decreases entries.len(),
{
    if entries.len() == 0 {
        None
    } else if entries.last().content == content {
        Some(entries.last())
    } else {
        newest_with(entries.drop_last(), content)
    }
}

/// The pin for `content`, with the source that the newest such entry recorded.
pub open spec fn pin_for(entries: Seq<history::EntryView>, content: Seq<char>) -> pins::PinView {
    pins::PinView {
        content,
        source: match newest_with(entries, content) {
            Some(e) => e.source,
            None => None,
        },
        source_bundle_id: match newest_with(entries, content) {
            Some(e) => e.source_bundle_id,
            None => None,
        },
    }
}

/// Where the newest entry with the given content stands.
fn find_newest(entries: &Vec<HistoryEntry>, content: &str) -> (r: Option<usize>)
    ensures
        match r {
            Some(i) => i < entries@.len() && newest_with(
                history::entry_views(entries@),
                content@,
            ) == Some(entries@[i as int]@),
            None => newest_with(history::entry_views(entries@), content@) is None,
        },
{
    let ghost views = history::entry_views(entries@);
    let mut left: usize = entries.len();
    assert(views.take(left as int) =~= views);
    while left > 0
        invariant
            left <= entries@.len(),
            views == history::entry_views(entries@),
            newest_with(views, content@) == newest_with(views.take(left as int), content@),
        decreases left,
    {
        left -= 1;
        assert(views.take(left + 1).drop_last() =~= views.take(left as int));
        assert(views.take(left + 1).last() == entries@[left as int]@);
        if same(entries[left].content.as_str(), content) {
            return Some(left);
        }
    }
    None
}

/// Pins whatever is on the clipboard, carrying over its recorded source so the
/// pinned row can show the same icon and app name; unpins it where it is pinned.
/// Returns the state it ended up in.
pub fn toggle_pin_for_current(
    current: &str,
    entries: &Vec<HistoryEntry>,
    pinned: &mut Vec<Pin>,
) -> (r: bool)
    ensures
        pins::pin_views(final(pinned)@) == pins::toggled(
            pins::pin_views(old(pinned)@),
            pin_for(history::entry_views(entries@), current@),
        ),
        r == !pins::holds_pin(pins::pin_views(old(pinned)@), current@),
        r == exists|i: int|
            0 <= i < final(pinned)@.len() && (#[trigger] final(pinned)@[i]).content@ == current@,
        r ==> final(pinned)@.len() > 0 && final(pinned)@[0].content@ == current@,
{
    match find_newest(entries, current) {
        Some(i) => toggle_pin(
            pinned,
            current,
            borrow_option(&entries[i].source),
            borrow_option(&entries[i].source_bundle_id),
        ),
        None => toggle_pin(pinned, current, None, None),
    }
}

/// What a prune that dropped `removed` entries reports, if anything.
pub fn prune_report(removed: usize) -> (r: Option<String>)
    ensures
        text::option_view(r) == if removed == 0 {
            None
        } else {
            Some("clipvault: pruned "@ + text::decimal(removed as nat) + " old entries"@)
        },
{
    if removed == 0 {
        return None;
    }
    let mut out = "clipvault: pruned ".to_owned();
    out.append(decimal_text(removed as u64).as_str());
    out.append(" old entries");
    Some(out)
}

/// Whether the login item is checked after an attempt to change it: the other way
/// round where it worked, and as it really is where it did not.
pub fn login_checked(was_on: bool, changed: bool, is_on: bool) -> (r: bool)
    ensures
        r == if changed {
            !was_on
        } else {
            is_on
        },
{
    if changed {
        !was_on
    } else {
        is_on
    }
}

/// No two rows of the menu have the same shortcut: positions of a section have
/// different digits, and pins and recent entries differ in shift.
pub proof fn law_shortcuts_are_distinct(i: int, shift: bool, j: int, other: bool)
    requires
        digit_key(i, shift) is Some,
        digit_key(i, shift) == digit_key(j, other),
    ensures
        i == j,
        shift == other,
{
}

/// Every pin has a row, and every entry too, in the order the menu promises:
/// most recently pinned first, then newest first. Nothing else can be clicked.
pub proof fn law_every_entry_has_a_row(
    pinned: Seq<pins::PinView>,
    entries: Seq<history::EntryView>,
    ages: Seq<Seq<char>>,
    last: Option<Seq<char>>,
    subtitles: bool,
)
    requires
        ages.len() == entries.len(),
    ensures
        ({
            let top = top_section(pinned, entries, ages, last, subtitles);
            let above: int = if pinned.len() > 0 {
                (pinned.len() + 2) as int
            } else {
                0
            };
            &&& top.len() == above + 1 + entries.len()
            &&& forall|i: int|
                0 <= i < pinned.len() ==> (#[trigger] top[i + 1] matches TopView::Row(row)
                    && row.content == pinned[i].content)
            &&& forall|i: int|
                0 <= i < entries.len() ==> (#[trigger] top[above + 1 + i] matches TopView::Row(row)
                    && row.content == entries[entries.len() - 1 - i].content)
        }),
{
}

/// What was deleted is offered nowhere: once its entries and its pin are gone, no
/// row of the menu copies it back, however many recent entries the menu shows.
pub proof fn law_deleted_content_is_not_offered(
    pinned: Seq<pins::PinView>,
    entries: Seq<HistoryEntry>,
    content: Seq<char>,
    limit: nat,
    ages: Seq<Seq<char>>,
    last: Option<Seq<char>>,
    subtitles: bool,
)
    ensures
        ({
            let shown = tail::newest(history::others(entries, content), limit);
            let top = top_section(
                pins::without_pin(pinned, content),
                history::entry_views(shown),
                ages,
                last,
                subtitles,
            );
            forall|k: int|
                0 <= k < top.len() ==> (#[trigger] top[k] matches TopView::Row(row) ==> row.content
                    != content)
        }),
{
    let kept = history::others(entries, content);
    let shown = tail::newest(kept, limit);
    let views = history::entry_views(shown);
    let left = pins::without_pin(pinned, content);
    history::law_deleted_content_is_gone(entries, content);
    pins::law_removed_pin_is_gone(pinned, content);
    assert forall|i: int| 0 <= i < left.len() implies (#[trigger] left[i]).content != content by {}
    assert forall|i: int| 0 <= i < views.len() implies (#[trigger] views[i]).content != content by {
        assert(shown[i] == kept[i + kept.len() - shown.len()]);
    }
    let top = top_section(left, views, ages, last, subtitles);
    let above: int = if left.len() > 0 {
        (left.len() + 2) as int
    } else {
        0
    };
    assert forall|k: int| 0 <= k < top.len() implies (#[trigger] top[k] matches TopView::Row(row)
        ==> row.content != content) by {
        if 1 <= k <= left.len() && left.len() > 0 {
            assert(left[k - 1].content != content);
        } else if k > above {
            assert(views[views.len() - 1 - (k - above - 1)].content != content);
        }
    }
}

proof fn lemma_row_with(top: Seq<TopView>, ids: Seq<Seq<char>>, at: int, from: int)
    requires
        ids.len() == top.len(),
        0 <= from <= at < top.len(),
        top[at] is Row,
        forall|i: int| 0 <= i < at ==> #[trigger] ids[i] != ids[at],
    ensures
        row_with(top, ids, ids[at], from) == Some(top[at]->Row_0),
    decreases at - from,
{
    if from < at {
        assert(ids[from] != ids[at]);
        lemma_row_with(top, ids, at, from + 1);
    }
}

/// A click on a row copies the content of that row, where ids are distinct.
pub proof fn law_click_takes_its_own_row(
    footer: FooterIds,
    top: Seq<TopView>,
    ids: Seq<Seq<char>>,
    at: int,
)
    requires
        ids.len() == top.len(),
        0 <= at < top.len(),
        top[at] is Row,
        forall|i: int| 0 <= i < at ==> #[trigger] ids[i] != ids[at],
        ids[at] != footer.quit@,
        ids[at] != footer.clear@,
        ids[at] != footer.login@,
        ids[at] != footer.search@,
        ids[at] != footer.pin@,
        ids[at] != footer.delete@,
        ids[at] != footer.prefs@,
    ensures
        command_of(ids[at], footer, top, ids) == CommandView::Take((top[at]->Row_0).content),
{
    lemma_row_with(top, ids, at, 0);
}

/// Pinning takes the source of an entry of the same content, where there is one.
pub proof fn law_newest_entry_is_found(entries: Seq<history::EntryView>, content: Seq<char>)
    ensures
        newest_with(entries, content) matches Some(e) ==> entries.contains(e) && e.content
            == content,
        newest_with(entries, content) is None ==> forall|i: int|
            0 <= i < entries.len() ==> (#[trigger] entries[i]).content != content,
    decreases entries.len(),
{
    if entries.len() > 0 {
        if entries.last().content == content {
            assert(entries[entries.len() - 1] == entries.last());
        } else {
            let before = entries.drop_last();
            law_newest_entry_is_found(before, content);
            if let Some(e) = newest_with(entries, content) {
                let k = choose|k: int| 0 <= k < before.len() && before[k] == e;
                assert(entries[k] == e);
            } else {
                assert forall|i: int| 0 <= i < entries.len() implies (#[trigger] entries[i]).content
                    != content by {
                    if i < before.len() {
                        assert(before[i] == entries[i]);
                    }
                }
            }
        }
    }
}

/// The first nine rows of a section have the digits 1 to 9, in order, and no other
/// row has a shortcut.
pub proof fn law_rows_are_numbered_in_order(position: int, shift: bool)
    ensures
        0 <= position < 9 ==> digit_key(position, shift) == Some(
            DigitKey { digit: (position + 1) as u8, shift },
        ),
        position >= 9 ==> digit_key(position, shift) is None,
{
}

/// Each recent row shows one entry throughout: the row `i` below the header has the
/// content, the icon, the source, the age and the preview of the same entry, the
/// `i`th from the end, and is marked where that content is on the clipboard.
pub proof fn law_each_recent_row_shows_one_entry(
    pinned: Seq<pins::PinView>,
    entries: Seq<history::EntryView>,
    ages: Seq<Seq<char>>,
    last: Option<Seq<char>>,
    subtitles: bool,
    i: int,
)
    requires
        ages.len() == entries.len(),
        0 <= i < entries.len(),
    ensures
        ({
            let top = top_section(pinned, entries, ages, last, subtitles);
            let above: int = if pinned.len() > 0 {
                (pinned.len() + 2) as int
            } else {
                0
            };
            let entry = entries[entries.len() - 1 - i];
            let age = ages[entries.len() - 1 - i];
            let told = match entry.source {
                Some(app) => app + " · "@ + age,
                None => age,
            };
            top[above + 1 + i] matches TopView::Row(row) && {
                &&& row.content == entry.content
                &&& row.bundle_id == entry.source_bundle_id
                &&& subtitles ==> row.label == display::preview_of(entry.content, 60)
                    && row.subtitle == Some(told)
                &&& !subtitles ==> row.label == display::preview_of(entry.content, 60) + "  ·  "@
                    + told && row.subtitle is None
                &&& row.current <==> last == Some(entry.content)
                &&& row.key == if i < 9 {
                    Some(DigitKey { digit: (i + 1) as u8, shift: false })
                } else {
                    None
                }
            }
        }),
{
}

/// Each pinned row shows one pin throughout: the row `i` below the header has the
/// content, the icon, the source and the preview of the same pin, the `i`th, and is
/// marked where that content is on the clipboard.
pub proof fn law_each_pinned_row_shows_one_pin(
    pinned: Seq<pins::PinView>,
    entries: Seq<history::EntryView>,
    ages: Seq<Seq<char>>,
    last: Option<Seq<char>>,
    subtitles: bool,
    i: int,
)
    requires
        0 <= i < pinned.len(),
    ensures
        ({
            let top = top_section(pinned, entries, ages, last, subtitles);
            let pin = pinned[i];
            top[i + 1] matches TopView::Row(row) && {
                &&& row.content == pin.content
                &&& row.bundle_id == pin.source_bundle_id
                &&& subtitles || pin.source is None ==> row.label == display::preview_of(
                    pin.content,
                    60,
                )
                &&& subtitles ==> row.subtitle == pin.source
                &&& !subtitles ==> row.subtitle is None
                &&& !subtitles ==> (pin.source matches Some(app) ==> row.label
                    == display::preview_of(pin.content, 60) + "  ·  "@ + app)
                &&& row.current <==> last == Some(pin.content)
                &&& row.key == if i < 9 {
                    Some(DigitKey { digit: (i + 1) as u8, shift: true })
                } else {
                    None
                }
            }
        }),
{
}

/// The sections of the menu stand under their headers: the pins first, where there
/// are any, with a line below them, and the recent entries last.
pub proof fn law_sections_stand_under_their_headers(
    pinned: Seq<pins::PinView>,
    entries: Seq<history::EntryView>,
    ages: Seq<Seq<char>>,
    last: Option<Seq<char>>,
    subtitles: bool,
)
    ensures
        ({
            let top = top_section(pinned, entries, ages, last, subtitles);
            let header = if entries.len() == 0 {
                TopView::Label("No clipboard history yet"@)
            } else {
                TopView::Label("Recent"@)
            };
            &&& pinned.len() == 0 ==> top[0] == header
            &&& pinned.len() > 0 ==> top[0] == TopView::Label("Pinned"@) && top[pinned.len() as int
                + 1] == TopView::Separator && top[pinned.len() as int + 2] == header
        }),
{
}

/// A click on a row of the menu puts the text of the very entry that the row shows
/// back on the clipboard, in full.
pub proof fn law_click_on_a_recent_row_takes_its_entry(
    footer: FooterIds,
    pinned: Seq<pins::PinView>,
    entries: Seq<history::EntryView>,
    ages: Seq<Seq<char>>,
    last: Option<Seq<char>>,
    subtitles: bool,
    ids: Seq<Seq<char>>,
    i: int,
)
    requires
        ages.len() == entries.len(),
        0 <= i < entries.len(),
        ({
            let above: int = if pinned.len() > 0 {
                (pinned.len() + 2) as int
            } else {
                0
            };
            let id = ids[above + 1 + i];
            &&& ids.len() == above + 1 + entries.len()
            &&& forall|k: int| 0 <= k < above + 1 + i ==> #[trigger] ids[k] != id
            &&& id != footer.quit@ && id != footer.clear@ && id != footer.login@
            &&& id != footer.search@ && id != footer.pin@ && id != footer.delete@
            &&& id != footer.prefs@
        }),
    ensures
        ({
            let above: int = if pinned.len() > 0 {
                (pinned.len() + 2) as int
            } else {
                0
            };
            let top = top_section(pinned, entries, ages, last, subtitles);
            command_of(ids[above + 1 + i], footer, top, ids) == CommandView::Take(
                entries[entries.len() - 1 - i].content,
            )
        }),
{
    let above: int = if pinned.len() > 0 {
        (pinned.len() + 2) as int
    } else {
        0
    };
    let top = top_section(pinned, entries, ages, last, subtitles);
    law_each_recent_row_shows_one_entry(pinned, entries, ages, last, subtitles, i);
    law_click_takes_its_own_row(footer, top, ids, above + 1 + i);
}

proof fn lemma_no_row_with(top: Seq<TopView>, ids: Seq<Seq<char>>, id: Seq<char>, from: int)
    requires
        ids.len() == top.len(),
        0 <= from,
        forall|i: int| 0 <= i < top.len() && top[i] is Row ==> #[trigger] ids[i] != id,
    ensures
        row_with(top, ids, id, from) is None,
    decreases top.len() - from,
{
    if from < top.len() {
        assert(top[from] is Row ==> ids[from] != id);
        lemma_no_row_with(top, ids, id, from + 1);
    }
}

/// Each command of the menu does what its own item says, where the items have ids
/// of their own, and the event of no item at all asks for nothing.
pub proof fn law_commands_answer_to_their_own_items(
    footer: FooterIds,
    top: Seq<TopView>,
    ids: Seq<Seq<char>>,
    id: Seq<char>,
)
    requires
        ids.len() == top.len(),
        seq![
            footer.quit@,
            footer.clear@,
            footer.login@,
            footer.search@,
            footer.pin@,
            footer.delete@,
            footer.prefs@,
        ].no_duplicates(),
    ensures
        command_of(footer.quit@, footer, top, ids) == CommandView::Quit,
        command_of(footer.clear@, footer, top, ids) == CommandView::Clear,
        command_of(footer.login@, footer, top, ids) == CommandView::ToggleLogin,
        command_of(footer.search@, footer, top, ids) == CommandView::Search,
        command_of(footer.pin@, footer, top, ids) == CommandView::TogglePin,
        command_of(footer.delete@, footer, top, ids) == CommandView::Delete,
        command_of(footer.prefs@, footer, top, ids) == CommandView::Preferences,
        !seq![
            footer.quit@,
            footer.clear@,
            footer.login@,
            footer.search@,
            footer.pin@,
            footer.delete@,
            footer.prefs@,
        ].contains(id) && (forall|i: int|
            0 <= i < top.len() && top[i] is Row ==> #[trigger] ids[i] != id) ==> command_of(
            id,
            footer,
            top,
            ids,
        ) == CommandView::Nothing,
{
    let all = seq![
        footer.quit@,
        footer.clear@,
        footer.login@,
        footer.search@,
        footer.pin@,
        footer.delete@,
        footer.prefs@,
    ];
    assert(forall|i: int, j: int| 0 <= i < j < 7 ==> all[i] != all[j]);
    assert(all[0] == footer.quit@ && all[1] == footer.clear@ && all[2] == footer.login@ && all[3]
        == footer.search@ && all[4] == footer.pin@ && all[5] == footer.delete@ && all[6]
        == footer.prefs@);
    if !all.contains(id) && (forall|i: int|
        0 <= i < top.len() && top[i] is Row ==> #[trigger] ids[i] != id) {
        assert(id != all[0] && id != all[1] && id != all[2] && id != all[3] && id != all[4] && id
            != all[5] && id != all[6]);
        lemma_no_row_with(top, ids, id, 0);
    }
}

/// Of several entries of one content the newest is found: a newer entry is found
/// first where it has that content, and changes nothing where it has another.
pub proof fn law_newer_entries_are_found_first(
    entries: Seq<history::EntryView>,
    newer: history::EntryView,
    content: Seq<char>,
)
    ensures
        newest_with(entries.push(newer), content) == if newer.content == content {
            Some(newer)
        } else {
            newest_with(entries, content)
        },
        newest_with(Seq::empty(), content) is None,
{
    assert(entries.push(newer).drop_last() =~= entries);
}

/// A pin made of what is on the clipboard holds just that, with the source and the
/// icon of the newest entry of that content.
pub proof fn law_pin_carries_the_newest_source(
    entries: Seq<history::EntryView>,
    content: Seq<char>,
    at: int,
)
    requires
        0 <= at < entries.len(),
        entries[at].content == content,
        forall|i: int| at < i < entries.len() ==> (#[trigger] entries[i]).content != content,
    ensures
        pin_for(entries, content) == (pins::PinView {
            content,
            source: entries[at].source,
            source_bundle_id: entries[at].source_bundle_id,
        }),
    decreases entries.len(),
{
    if entries.last().content != content {
        let before = entries.drop_last();
        assert(entries[entries.len() - 1] == entries.last());
        assert forall|i: int| at < i < before.len() implies (#[trigger] before[i]).content
            != content by {
            assert(before[i] == entries[i]);
        }
        law_pin_carries_the_newest_source(before, content, at);
    } else if at < entries.len() - 1 {
        assert(entries[entries.len() - 1].content != content);
    }
}

/// A pin of something that the history does not hold carries no source.
pub proof fn law_pin_of_unknown_content_has_no_source(
    entries: Seq<history::EntryView>,
    content: Seq<char>,
)
    requires
        forall|i: int| 0 <= i < entries.len() ==> (#[trigger] entries[i]).content != content,
    ensures
        pin_for(entries, content) == (pins::PinView {
            content,
            source: None,
            source_bundle_id: None,
        }),
{
    law_newest_entry_is_found(entries, content);
    if let Some(e) = newest_with(entries, content) {
        let k = choose|k: int| 0 <= k < entries.len() && entries[k] == e;
        assert(entries[k].content != content);
    }
}

} // verus!
