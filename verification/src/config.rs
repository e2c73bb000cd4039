//! User settings: their defaults, and what keeps hand-edited ones usable.

use vstd::prelude::*;

use crate::text;
use crate::text::{is_blank, same};

verus! {

/// The shortcut that opens the app where no other is set.
pub const DEFAULT_HOTKEY: &'static str = "cmd+shift+KeyV";

/// Values accepted by [`Config::hotkey_opens`].
pub const OPENS_MENU: &'static str = "menu";

pub const OPENS_SEARCH: &'static str = "search";

#[derive(Debug, Clone, PartialEq, Eq)]
pub struct Config {
    /// Global shortcut, e.g. "cmd+shift+KeyV".
    pub hotkey: String,
    /// Milliseconds between clipboard polls.
    pub poll_interval_ms: u64,
    /// How many recent entries the menu lists.
    pub menu_entries: usize,
    /// Entries kept on disk; older ones are pruned. 0 disables pruning.
    pub history_limit: usize,
    /// What the global shortcut opens: "menu" or "search".
    pub hotkey_opens: String,
}

/// What a [`Config`] holds.
pub struct ConfigView {
    pub hotkey: Seq<char>,
    pub poll_interval_ms: u64,
    pub menu_entries: usize,
    pub history_limit: usize,
    pub hotkey_opens: Seq<char>,
}

impl View for Config {
    type V = ConfigView;

    open spec fn view(&self) -> ConfigView {
        ConfigView {
            hotkey: self.hotkey@,
            poll_interval_ms: self.poll_interval_ms,
            menu_entries: self.menu_entries,
            history_limit: self.history_limit,
            hotkey_opens: self.hotkey_opens@,
        }
    }
}

/// The settings of a fresh install.
pub open spec fn defaults() -> ConfigView {
    ConfigView {
        hotkey: DEFAULT_HOTKEY@,
        poll_interval_ms: 750,
        menu_entries: 15,
        history_limit: 1000,
        hotkey_opens: OPENS_MENU@,
    }
}

impl Default for Config {
    fn default() -> (config: Self)
        ensures
            config@ == defaults(),
            config.hotkey@ == "cmd+shift+KeyV"@,
            config.poll_interval_ms == 750,
            config.menu_entries == 15,
            config.history_limit == 1000,
            config.hotkey_opens@ == "menu"@,
    {
        Config {
            hotkey: DEFAULT_HOTKEY.to_owned(),
            poll_interval_ms: 750,
            menu_entries: 15,
            history_limit: 1000,
            hotkey_opens: OPENS_MENU.to_owned(),
        }
    }
}

/// `n`, moved to the nearer end of `low` to `high` where it lies outside.
pub open spec fn clamped(n: int, low: int, high: int) -> int {
    if n < low {
        low
    } else if n > high {
        high
    } else {
        n
    }
}

/// The stored value asks for the search, whatever its case and padding.
pub open spec fn asks_for_search(opens: Seq<char>) -> bool {
    text::folded_text(text::trimmed(opens)) == OPENS_SEARCH@
}

/// `c` with every value that would make the app unusable replaced.
pub open spec fn usable(c: ConfigView) -> ConfigView {
    let menu_entries = clamped(c.menu_entries as int, 1, 50) as usize;
    ConfigView {
        hotkey: if text::blank(c.hotkey) {
            DEFAULT_HOTKEY@
        } else {
            c.hotkey
        },
        poll_interval_ms: clamped(c.poll_interval_ms as int, 100, 10_000) as u64,
        menu_entries,
        history_limit: if c.history_limit == 0 || c.history_limit > menu_entries {
            c.history_limit
        } else {
            menu_entries
        },
        hotkey_opens: if asks_for_search(c.hotkey_opens) {
            OPENS_SEARCH@
        } else {
            OPENS_MENU@
        },
    }
}

impl Config {
    /// Clamps values that would make the app unusable if hand-edited to
    /// something silly: a 1ms poll pegs a core, 0 menu entries hides history.
    pub fn sanitized(self) -> (r: Self)
        ensures
            r@ == usable(self@),
            100 <= self.poll_interval_ms <= 10_000 ==> r.poll_interval_ms == self.poll_interval_ms,
            1 <= self.menu_entries <= 50 ==> r.menu_entries == self.menu_entries,
            !text::blank(self.hotkey@) ==> r.hotkey@ == self.hotkey@,
            self.history_limit == 0 || self.history_limit >= r.menu_entries ==> r.history_limit
                == self.history_limit,
    {
        let defaults = Config::default();
        let hotkey = if is_blank(self.hotkey.as_str()) {
            defaults.hotkey
        } else {
            self.hotkey
        };
        let poll_interval_ms: u64 = if self.poll_interval_ms < 100 {
            100
        } else if self.poll_interval_ms > 10_000 {
            10_000
        } else {
            self.poll_interval_ms
        };
        let menu_entries: usize = if self.menu_entries < 1 {
            1
        } else if self.menu_entries > 50 {
            50
        } else {
            self.menu_entries
        };
        // Anything unrecognised falls back to the menu rather than silently
        // doing nothing when the shortcut is pressed.
        let opens = self.hotkey_opens.trim().to_lowercase();
        let hotkey_opens = if same(opens.as_str(), OPENS_SEARCH) {
            OPENS_SEARCH.to_owned()
        } else {
            OPENS_MENU.to_owned()
        };
        let history_limit: usize = if self.history_limit == 0 || self.history_limit
            > menu_entries {
            self.history_limit
        } else {
            menu_entries
        };
        Config { hotkey, poll_interval_ms, menu_entries, history_limit, hotkey_opens }
    }
}

/// What became of the settings file.
pub enum Stored {
    /// There is none, or it cannot be read.
    Unreadable,
    /// It holds something else than settings.
    Corrupt,
    /// It holds these settings, with defaults for those that are absent.
    Parsed(Config),
}

/// Loads the config, falling back to defaults for anything missing or corrupt.
/// Settings are never important enough to stop the app from starting.
pub fn load(stored: Stored) -> (r: Config)
    ensures
        r@ == match stored {
            Stored::Parsed(config) => usable(config@),
            _ => defaults(),
        },
        !(stored is Parsed) ==> r.poll_interval_ms == 750 && r.menu_entries == 15 && r.history_limit
            == 1000 && r.hotkey@ == "cmd+shift+KeyV"@ && r.hotkey_opens@ == "menu"@,
{
    match stored {
        Stored::Unreadable => Config::default(),
        Stored::Corrupt => {
            proof {
                law_defaults_are_usable();
            }
            Config::default().sanitized()
        },
        Stored::Parsed(config) => config.sanitized(),
    }
}

/// Whether two sets of settings are the same.
pub fn same_config(a: &Config, b: &Config) -> (r: bool)
    ensures
        r == (a@ == b@),
        r <==> a.hotkey@ == b.hotkey@ && a.poll_interval_ms == b.poll_interval_ms && a.menu_entries
            == b.menu_entries && a.history_limit == b.history_limit && a.hotkey_opens@
            == b.hotkey_opens@,
{
    same(a.hotkey.as_str(), b.hotkey.as_str()) && a.poll_interval_ms == b.poll_interval_ms
        && a.menu_entries == b.menu_entries && a.history_limit == b.history_limit && same(
        a.hotkey_opens.as_str(),
        b.hotkey_opens.as_str(),
    )
}

proof fn lemma_menu_is_not_search()
    ensures
        !asks_for_search(OPENS_MENU@),
{
    reveal_strlit("menu");
    reveal_strlit("search");
    let m = OPENS_MENU@;
    lemma_untouched(m);
    assert(text::folded_text(m).len() == 4);
}

proof fn lemma_search_is_search()
    ensures
        asks_for_search(OPENS_SEARCH@),
{
    reveal_strlit("search");
    let s = OPENS_SEARCH@;
    lemma_untouched(s);
    assert(text::folded_text(s) =~= s);
}

proof fn lemma_untouched(s: Seq<char>)
    requires
        s.len() > 0,
        !text::white_space(s.first()),
        !text::white_space(s.last()),
    ensures
        text::trimmed(s) == s,
{
}

/// Sanitized settings are ones the app works with: a shortcut, a poll that
/// neither pegs a core nor lags, a menu that shows something, a limit that never
/// sits below what the menu wants to show, and a shortcut target that exists.
pub proof fn law_sanitized_is_usable(c: ConfigView)
    ensures
        ({
            let u = usable(c);
            &&& !text::blank(u.hotkey)
            &&& 100 <= u.poll_interval_ms <= 10_000
            &&& 1 <= u.menu_entries <= 50
            &&& u.history_limit == 0 || u.history_limit >= u.menu_entries
            &&& u.hotkey_opens == OPENS_MENU@ || u.hotkey_opens == OPENS_SEARCH@
        }),
{
    assert(!text::blank(DEFAULT_HOTKEY@)) by {
        reveal_strlit("cmd+shift+KeyV");
        assert(!text::white_space(DEFAULT_HOTKEY@[0]));
    }
}

/// Sanitizing settles: doing it again changes nothing.
pub proof fn law_sanitizing_settles(c: ConfigView)
    ensures
        usable(usable(c)) == usable(c),
{
    law_sanitized_is_usable(c);
    lemma_menu_is_not_search();
    lemma_search_is_search();
}

/// The defaults need no sanitizing.
pub proof fn law_defaults_are_usable()
    ensures
        usable(defaults()) == defaults(),
{
    assert(!text::blank(DEFAULT_HOTKEY@)) by {
        reveal_strlit("cmd+shift+KeyV");
        assert(!text::white_space(DEFAULT_HOTKEY@[0]));
    }
    lemma_menu_is_not_search();
}

/// No limit stays no limit, and settings that are already in range stay as they
/// are; a limit is in range where it covers the menu.
pub proof fn law_sanitizing_keeps_what_is_usable(c: ConfigView)
    ensures
        c.history_limit == 0 ==> usable(c).history_limit == 0,
        !text::blank(c.hotkey) ==> usable(c).hotkey == c.hotkey,
        100 <= c.poll_interval_ms <= 10_000 ==> usable(c).poll_interval_ms == c.poll_interval_ms,
        1 <= c.menu_entries <= 50 ==> usable(c).menu_entries == c.menu_entries,
        1 <= c.menu_entries <= 50 && c.history_limit >= c.menu_entries ==> usable(c).history_limit
            == c.history_limit,
        c.history_limit >= 50 ==> usable(c).history_limit == c.history_limit,
        c.hotkey_opens == OPENS_MENU@ || c.hotkey_opens == OPENS_SEARCH@ ==> usable(c).hotkey_opens
            == c.hotkey_opens,
{
    lemma_menu_is_not_search();
    lemma_search_is_search();
}

/// A setting out of range goes to the nearer end of it, a limit that the menu would
/// not fit into is raised to what the menu shows, and a shortcut that is not there
/// is the default one.
pub proof fn law_sanitizing_goes_to_the_nearer_end(c: ConfigView)
    ensures
        c.poll_interval_ms < 100 ==> usable(c).poll_interval_ms == 100,
        c.poll_interval_ms > 10_000 ==> usable(c).poll_interval_ms == 10_000,
        c.menu_entries == 0 ==> usable(c).menu_entries == 1,
        c.menu_entries > 50 ==> usable(c).menu_entries == 50,
        0 < c.history_limit < usable(c).menu_entries ==> usable(c).history_limit == usable(
            c,
        ).menu_entries,
        text::blank(c.hotkey) ==> usable(c).hotkey == "cmd+shift+KeyV"@,
{
}

/// The shortcut opens the search where "search" is stored, whatever its case and
/// the white space around it, and the menu where anything else is.
pub proof fn law_search_is_opened_where_it_is_asked_for(c: ConfigView)
    ensures
        text::folded_text(text::trimmed(c.hotkey_opens)) == "search"@ ==> usable(c).hotkey_opens
            == "search"@,
        text::folded_text(text::trimmed(c.hotkey_opens)) != "search"@ ==> usable(c).hotkey_opens
            == "menu"@,
{
}

/// The settings of a fresh install: a poll every 750 milliseconds, 15 entries in the
/// menu, 1000 on disk, and a shortcut that opens the menu.
pub proof fn law_defaults_are_these()
    ensures
        defaults().hotkey == "cmd+shift+KeyV"@,
        defaults().poll_interval_ms == 750,
        defaults().menu_entries == 15,
        defaults().history_limit == 1000,
        defaults().hotkey_opens == "menu"@,
{
}

} // verus!
