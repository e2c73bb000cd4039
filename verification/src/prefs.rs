//! The preferences window: what it shows, and the settings it is left with.

use vstd::prelude::*;

use crate::config;
use crate::config::{Config, OPENS_MENU, OPENS_SEARCH};
use crate::palette::{KEY_ENTER, KEY_ESCAPE, KEY_RETURN};
use crate::text;
use crate::text::{decimal_text, parse_index, parse_number, same};

verus! {

/// A setting that is edited as a number.
pub struct NumberRow {
    pub label: String,
    pub value: String,
    /// A unit or hint beside the field, so the labels stay short.
    pub hint: String,
}

/// What a [`NumberRow`] holds.
pub struct NumberRowView {
    pub label: Seq<char>,
    pub value: Seq<char>,
    pub hint: Seq<char>,
}

impl View for NumberRow {
    type V = NumberRowView;

    open spec fn view(&self) -> NumberRowView {
        NumberRowView { label: self.label@, value: self.value@, hint: self.hint@ }
    }
}

/// What the rows of a form hold.
pub open spec fn row_views(rows: Seq<NumberRow>) -> Seq<NumberRowView> {
    rows.map_values(|r: NumberRow| r@)
}

/// The numbers among the settings, as they are shown for editing.
pub open spec fn numbers_of(c: config::ConfigView) -> Seq<NumberRowView> {
    seq![
        NumberRowView {
            label: "Poll interval"@,
            value: text::decimal(c.poll_interval_ms as nat),
            hint: "milliseconds"@,
        },
        NumberRowView {
            label: "Entries in menu"@,
            value: text::decimal(c.menu_entries as nat),
            hint: "rows"@,
        },
        NumberRowView {
            label: "History limit"@,
            value: text::decimal(c.history_limit as nat),
            hint: "entries (0 keeps everything)"@,
        },
    ]
}

fn number_row(label: &str, value: u64, hint: &str) -> (r: NumberRow)
    ensures
        r@ == (NumberRowView { label: label@, value: text::decimal(value as nat), hint: hint@ }),
{
    NumberRow { label: label.to_owned(), value: decimal_text(value), hint: hint.to_owned() }
}

/// The numbers among the settings, as they are shown for editing.
pub fn number_rows(settings: &Config) -> (r: Vec<NumberRow>)
    ensures
        row_views(r@) == numbers_of(settings@),
{
    let mut rows: Vec<NumberRow> = Vec::new();
    rows.push(number_row("Poll interval", settings.poll_interval_ms, "milliseconds"));
    rows.push(number_row("Entries in menu", settings.menu_entries as u64, "rows"));
    rows.push(
        number_row("History limit", settings.history_limit as u64, "entries (0 keeps everything)"),
    );
    assert(row_views(rows@) =~= numbers_of(settings@));
    rows
}

/// Which item of the popup "Menu", "Search" is selected.
pub fn opens_index(settings: &Config) -> (r: isize)
    ensures
        r == if settings@.hotkey_opens == OPENS_SEARCH@ {
            1int
        } else {
            0int
        },
{
    if same(settings.hotkey_opens.as_str(), OPENS_SEARCH) {
        1
    } else {
        0
    }
}

/// What stands beside the shortcut: what it resolves to, so a typo is visible
/// before saving rather than after the shortcut quietly stops working.
pub fn resolved_text(described: &str) -> (r: String)
    ensures
        r@ == described@ + "   e.g. cmd+shift+V"@,
{
    let mut out = described.to_owned();
    out.append("   e.g. cmd+shift+V");
    out
}

/// The form as it is left: what each field holds, and which item of the popup is
/// selected.
pub struct Form {
    pub shortcut: String,
    pub poll_interval: String,
    pub menu_entries: String,
    pub history_limit: String,
    pub opens: isize,
}

/// What a [`Form`] holds.
pub struct FormView {
    pub shortcut: Seq<char>,
    pub poll_interval: Seq<char>,
    pub menu_entries: Seq<char>,
    pub history_limit: Seq<char>,
    pub opens: int,
}

impl View for Form {
    type V = FormView;

    open spec fn view(&self) -> FormView {
        FormView {
            shortcut: self.shortcut@,
            poll_interval: self.poll_interval@,
            menu_entries: self.menu_entries@,
            history_limit: self.history_limit@,
            opens: self.opens as int,
        }
    }
}

/// The number in a field, padding aside, or `fallback` where it holds none that
/// is `max` or less.
pub open spec fn field_number(field: Seq<char>, max: nat, fallback: nat) -> nat {
    match text::number_in(text::trimmed(field)) {
        Some(n) => if n <= max {
            n
        } else {
            fallback
        },
        None => fallback,
    }
}

/// The settings that a form holds. A number typed into nonsense keeps its current
/// value.
pub open spec fn form_config(form: FormView, current: config::ConfigView) -> config::ConfigView {
    config::ConfigView {
        hotkey: form.shortcut,
        poll_interval_ms: field_number(
            form.poll_interval,
            u64::MAX as nat,
            current.poll_interval_ms as nat,
        ) as u64,
        menu_entries: field_number(
            form.menu_entries,
            usize::MAX as nat,
            current.menu_entries as nat,
        ) as usize,
        history_limit: field_number(
            form.history_limit,
            usize::MAX as nat,
            current.history_limit as nat,
        ) as usize,
        hotkey_opens: if form.opens == 1 {
            OPENS_SEARCH@
        } else {
            OPENS_MENU@
        },
    }
}

/// The settings that saving a form leads to.
pub fn edited(form: &Form, current: &Config) -> (r: Config)
    ensures
        r@ == config::usable(form_config(form@, current@)),
        !text::blank(form.shortcut@) ==> r.hotkey@ == form.shortcut@,
        r.hotkey_opens@ == "search"@ <==> form.opens == 1,
{
    let poll_interval_ms: u64 = match parse_number(form.poll_interval.trim()) {
        Some(n) => n,
        None => current.poll_interval_ms,
    };
    let menu_entries: usize = match parse_index(form.menu_entries.trim()) {
        Some(n) => n,
        None => current.menu_entries,
    };
    let history_limit: usize = match parse_index(form.history_limit.trim()) {
        Some(n) => n,
        None => current.history_limit,
    };
    let hotkey_opens = if form.opens == 1 {
        OPENS_SEARCH.to_owned()
    } else {
        OPENS_MENU.to_owned()
    };
    proof {
        config::law_sanitizing_keeps_what_is_usable(form_config(form@, current@));
        reveal_strlit("menu");
        reveal_strlit("search");
        assert(OPENS_MENU@.len() == 4 && OPENS_SEARCH@.len() == 6);
    }
    let config = Config {
        hotkey: form.shortcut.clone(),
        poll_interval_ms,
        menu_entries,
        history_limit,
        hotkey_opens,
    };
    config.sanitized()
}

/// What a key press in the window does.
#[derive(Debug, Clone, Copy, PartialEq, Eq, Structural)]
pub enum PrefsAction {
    Save,
    Cancel,
    /// It reaches the field being typed into.
    Pass,
}

/// What a key press in the window does: return saves, escape cancels.
pub fn prefs_key(code: u16) -> (r: PrefsAction)
    ensures
        r == if code == KEY_RETURN || code == KEY_ENTER {
            PrefsAction::Save
        } else if code == KEY_ESCAPE {
            PrefsAction::Cancel
        } else {
            PrefsAction::Pass
        },
        r == PrefsAction::Save <==> code == 36 || code == 76,
        r == PrefsAction::Cancel <==> code == 53,
{
    if code == KEY_RETURN || code == KEY_ENTER {
        PrefsAction::Save
    } else if code == KEY_ESCAPE {
        PrefsAction::Cancel
    } else {
        PrefsAction::Pass
    }
}

/// The form that shows `c`.
pub open spec fn form_of(c: config::ConfigView) -> FormView {
    FormView {
        shortcut: c.hotkey,
        poll_interval: numbers_of(c)[0].value,
        menu_entries: numbers_of(c)[1].value,
        history_limit: numbers_of(c)[2].value,
        opens: if c.hotkey_opens == OPENS_SEARCH@ {
            1
        } else {
            0
        },
    }
}

proof fn lemma_number_survives(n: nat, max: nat, fallback: nat)
    requires
        n <= max,
    ensures
        field_number(text::decimal(n), max, fallback) == n,
{
    text::law_decimal_is_read_back(n);
    text::lemma_decimal_untrimmed(n);
}

/// Saving a form that was not edited changes nothing, where the settings were
/// sanitized.
pub proof fn law_unedited_form_changes_nothing(c: config::ConfigView)
    requires
        config::usable(c) == c,
    ensures
        config::usable(form_config(form_of(c), c)) == c,
{
    lemma_number_survives(c.poll_interval_ms as nat, u64::MAX as nat, c.poll_interval_ms as nat);
    lemma_number_survives(c.menu_entries as nat, usize::MAX as nat, c.menu_entries as nat);
    lemma_number_survives(c.history_limit as nat, usize::MAX as nat, c.history_limit as nat);
    config::law_sanitized_is_usable(c);
    assert(OPENS_MENU@ != OPENS_SEARCH@) by {
        reveal_strlit("menu");
        reveal_strlit("search");
        assert(OPENS_MENU@.len() == 4);
        assert(OPENS_SEARCH@.len() == 6);
    }
}

/// Each setting is taken from its own field: a number typed into it, padding aside,
/// is the setting, where it fits, and anything else keeps what the setting was.
pub proof fn law_each_setting_is_taken_from_its_own_field(
    form: FormView,
    current: config::ConfigView,
)
    ensures
        ({
            let c = form_config(form, current);
            &&& c.hotkey == form.shortcut
            &&& text::number_in(text::trimmed(form.poll_interval)) matches Some(n) ==> c.poll_interval_ms
                == if n <= u64::MAX {
                n as int
            } else {
                current.poll_interval_ms as int
            }
            &&& text::number_in(text::trimmed(form.poll_interval)) is None ==> c.poll_interval_ms
                == current.poll_interval_ms
            &&& text::number_in(text::trimmed(form.menu_entries)) matches Some(n) ==> c.menu_entries
                == if n <= usize::MAX {
                n as int
            } else {
                current.menu_entries as int
            }
            &&& text::number_in(text::trimmed(form.menu_entries)) is None ==> c.menu_entries
                == current.menu_entries
            &&& text::number_in(text::trimmed(form.history_limit)) matches Some(n)
                ==> c.history_limit == if n <= usize::MAX {
                n as int
            } else {
                current.history_limit as int
            }
            &&& text::number_in(text::trimmed(form.history_limit)) is None ==> c.history_limit
                == current.history_limit
            &&& form.opens == 1 ==> c.hotkey_opens == "search"@
            &&& form.opens != 1 ==> c.hotkey_opens == "menu"@
        }),
{
}

/// Each field shows the setting that it is labelled with.
pub proof fn law_each_field_shows_its_own_setting(c: config::ConfigView)
    ensures
        numbers_of(c).len() == 3,
        numbers_of(c)[0].label == "Poll interval"@ && numbers_of(c)[0].value == text::decimal(
            c.poll_interval_ms as nat,
        ),
        numbers_of(c)[1].label == "Entries in menu"@ && numbers_of(c)[1].value == text::decimal(
            c.menu_entries as nat,
        ),
        numbers_of(c)[2].label == "History limit"@ && numbers_of(c)[2].value == text::decimal(
            c.history_limit as nat,
        ),
        ({
            let form = form_of(c);
            &&& form.shortcut == c.hotkey
            &&& form.poll_interval == text::decimal(c.poll_interval_ms as nat)
            &&& form.menu_entries == text::decimal(c.menu_entries as nat)
            &&& form.history_limit == text::decimal(c.history_limit as nat)
            &&& form.opens == 1 <==> c.hotkey_opens == "search"@
        }),
{
}

/// Editing one field changes one setting: a number in range that is typed into a
/// form is saved, and all else stays as it was, as long as the limit still covers
/// the menu.
pub proof fn law_editing_one_field_changes_one_setting(
    c: config::ConfigView,
    poll: u64,
    entries: usize,
    limit: usize,
)
    requires
        config::usable(c) == c,
    ensures
        100 <= poll <= 10_000 ==> config::usable(
            form_config(FormView { poll_interval: text::decimal(poll as nat), ..form_of(c) }, c),
        ) == (config::ConfigView { poll_interval_ms: poll, ..c }),
        1 <= entries <= 50 && (c.history_limit == 0 || entries <= c.history_limit)
            ==> config::usable(
            form_config(FormView { menu_entries: text::decimal(entries as nat), ..form_of(c) }, c),
        ) == (config::ConfigView { menu_entries: entries, ..c }),
        limit == 0 || limit >= c.menu_entries ==> config::usable(
            form_config(FormView { history_limit: text::decimal(limit as nat), ..form_of(c) }, c),
        ) == (config::ConfigView { history_limit: limit, ..c }),
{
    law_unedited_form_changes_nothing(c);
    config::law_sanitized_is_usable(c);
    lemma_number_survives(c.poll_interval_ms as nat, u64::MAX as nat, c.poll_interval_ms as nat);
    lemma_number_survives(c.menu_entries as nat, usize::MAX as nat, c.menu_entries as nat);
    lemma_number_survives(c.history_limit as nat, usize::MAX as nat, c.history_limit as nat);
    lemma_number_survives(poll as nat, u64::MAX as nat, c.poll_interval_ms as nat);
    lemma_number_survives(entries as nat, usize::MAX as nat, c.menu_entries as nat);
    lemma_number_survives(limit as nat, usize::MAX as nat, c.history_limit as nat);
    assert(form_config(form_of(c), c).hotkey_opens == c.hotkey_opens) by {
        reveal_strlit("menu");
        reveal_strlit("search");
        assert(OPENS_MENU@.len() == 4 && OPENS_SEARCH@.len() == 6);
    }
}

} // verus!
