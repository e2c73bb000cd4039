//! What the menu bar app remembers between events, and what each event does to
//! it.

use vstd::prelude::*;

use crate::config;
use crate::config::{same_config, Config, OPENS_SEARCH};
use crate::text;
use crate::text::{borrow_option, same};
use crate::watch;
use crate::watch::{is_new_content, PRUNE_EVERY_CAPTURES, TICK_MS};

verus! {

/// How many ticks lie between two polls that are `poll_interval_ms` apart: at
/// least one.
pub open spec fn ticks_between_polls(poll_interval_ms: u64) -> u32 {
    if poll_interval_ms < TICK_MS {
        1
    } else {
        (poll_interval_ms / TICK_MS) as u32
    }
}

/// How many ticks lie between two polls that are `poll_interval_ms` apart: at
/// least one.
pub fn ticks_per_poll(poll_interval_ms: u64) -> (r: u32)
    ensures
        r == ticks_between_polls(poll_interval_ms),
{
    if poll_interval_ms < TICK_MS {
        1
    } else {
        (poll_interval_ms / TICK_MS) as u32
    }
}

/// A poll interval whose ticks can be counted. Sanitized settings have one.
pub open spec fn countable(poll_interval_ms: u64) -> bool {
    poll_interval_ms / TICK_MS <= u32::MAX
}

/// What the menu bar app remembers between events.
pub struct Session {
    /// Clipboard text as of the last poll, for change detection.
    last: Option<String>,
    ticks_to_poll: u32,
    poll_every_ticks: u32,
    captures_since_prune: u32,
    settings: Config,
}

/// What a [`Session`] holds.
pub struct SessionView {
    pub last: Option<Seq<char>>,
    pub ticks_to_poll: int,
    pub poll_every_ticks: int,
    pub captures_since_prune: int,
    pub settings: config::ConfigView,
}

impl View for Session {
    type V = SessionView;

    closed spec fn view(&self) -> SessionView {
        SessionView {
            last: text::option_view(self.last),
            ticks_to_poll: self.ticks_to_poll as int,
            poll_every_ticks: self.poll_every_ticks as int,
            captures_since_prune: self.captures_since_prune as int,
            settings: self.settings@,
        }
    }
}

/// A tick, and whether it is time to poll.
pub open spec fn ticked(m: SessionView) -> (SessionView, bool) {
    if m.ticks_to_poll == 1 {
        (SessionView { ticks_to_poll: m.poll_every_ticks, ..m }, true)
    } else {
        (SessionView { ticks_to_poll: m.ticks_to_poll - 1, ..m }, false)
    }
}

/// A poll that found `seen`, flagged as secret or not, and what is to be recorded.
/// Content that is passed over counts as seen.
pub open spec fn observed(m: SessionView, seen: Option<Seq<char>>, concealed: bool) -> (
    SessionView,
    Option<Seq<char>>,
) {
    match seen {
        Some(s) => if watch::fresh(s, m.last) {
            (
                SessionView { last: Some(s), ..m },
                if concealed {
                    None
                } else {
                    Some(s)
                },
            )
        } else {
            (m, None)
        },
        None => (m, None),
    }
}

/// A capture was written, and whether the history is to be pruned now.
pub open spec fn captured(m: SessionView) -> (SessionView, bool) {
    if m.captures_since_prune + 1 >= PRUNE_EVERY_CAPTURES {
        (SessionView { captures_since_prune: 0, ..m }, true)
    } else {
        (SessionView { captures_since_prune: m.captures_since_prune + 1, ..m }, false)
    }
}

/// New settings take effect: polling starts over at the new interval, and the
/// history is pruned.
pub open spec fn reconfigured(m: SessionView, settings: config::ConfigView) -> SessionView {
    let ticks = ticks_between_polls(settings.poll_interval_ms) as int;
    SessionView {
        last: m.last,
        ticks_to_poll: ticks,
        poll_every_ticks: ticks,
        captures_since_prune: 0,
        settings,
    }
}

/// What came of putting the next newest entry on the clipboard after one was
/// deleted.
pub enum Promotion {
    /// The history could not be read, or the clipboard not be set.
    Failed,
    /// Nothing is left to promote.
    Nothing,
    /// This content is on the clipboard now.
    Placed(String),
}

/// What the app takes to be on the clipboard after a promotion. Where nothing is
/// left, the clipboard stays as the system has it, but the deleted text is no
/// longer claimed to be current.
pub open spec fn promoted(m: SessionView, outcome: Promotion) -> SessionView {
    match outcome {
        Promotion::Failed => m,
        Promotion::Nothing => SessionView { last: None, ..m },
        Promotion::Placed(content) => SessionView { last: Some(content@), ..m },
    }
}

/// What the global shortcut opens.
#[derive(Debug, Clone, Copy, PartialEq, Eq, Structural)]
pub enum Surface {
    Menu,
    Search,
}

impl Session {
    #[verifier::type_invariant]
    spec fn inv(self) -> bool {
        &&& self.ticks_to_poll >= 1
        &&& self.poll_every_ticks >= 1
        &&& self.captures_since_prune < PRUNE_EVERY_CAPTURES
    }

    /// A session that starts with `last` on the clipboard, which is not to be
    /// recorded again.
    pub fn new(last: Option<String>, settings: Config) -> (s: Session)
        requires
            countable(settings.poll_interval_ms),
        ensures
            s@ == (SessionView {
                last: text::option_view(last),
                ticks_to_poll: ticks_between_polls(settings.poll_interval_ms) as int,
                poll_every_ticks: ticks_between_polls(settings.poll_interval_ms) as int,
                captures_since_prune: 0,
                settings: settings@,
            }),
    {
        let ticks: u32 = ticks_per_poll(settings.poll_interval_ms);
        Session {
            last,
            ticks_to_poll: ticks,
            poll_every_ticks: ticks,
            captures_since_prune: 0,
            settings,
        }
    }

    /// One tick of the timer; says whether it is time to poll.
    pub fn tick(&mut self) -> (poll: bool)
        ensures
            (final(self)@, poll) == ticked(old(self)@),
    {
        proof {
            use_type_invariant(&*self);
        }
        if self.ticks_to_poll == 1 {
            self.ticks_to_poll = self.poll_every_ticks;
            true
        } else {
            self.ticks_to_poll = self.ticks_to_poll - 1;
            false
        }
    }

    /// Looks at what a poll found, and hands back what is to be recorded. Same
    /// four gates as the watcher: it is text, it is not blank, it is not what was
    /// there before, and it is not flagged as secret.
    pub fn observe(&mut self, seen: Option<String>, concealed: bool) -> (r: Option<String>)
        ensures
            final(self)@ == observed(old(self)@, text::option_view(seen), concealed).0,
            text::option_view(r) == observed(old(self)@, text::option_view(seen), concealed).1,
            r is Some <==> !concealed && seen is Some && !text::blank((seen->0)@)
                && old(self)@.last != Some((seen->0)@),
            r matches Some(entry) ==> entry@ == (seen->0)@ && final(self)@.last == Some(entry@),
    {
        proof {
            use_type_invariant(&*self);
        }
        match seen {
            Some(text) => {
                if !is_new_content(text.as_str(), borrow_option(&self.last)) {
                    return None;
                }
                let entry: Option<String> = if concealed {
                    None
                } else {
                    Some(text.clone())
                };
                self.last = Some(text);
                entry
            },
            None => None,
        }
    }

    /// Counts a capture that was written; says whether to prune now.
    pub fn capture(&mut self) -> (prune: bool)
        ensures
            (final(self)@, prune) == captured(old(self)@),
            prune <==> old(self)@.captures_since_prune == 24,
    {
        proof {
            use_type_invariant(&*self);
        }
        if self.captures_since_prune + 1 >= PRUNE_EVERY_CAPTURES {
            self.captures_since_prune = 0;
            true
        } else {
            self.captures_since_prune = self.captures_since_prune + 1;
            false
        }
    }

    /// The history was pruned, so the count towards the next prune starts over.
    pub fn prune(&mut self)
        ensures
            final(self)@ == (SessionView { captures_since_prune: 0, ..old(self)@ }),
    {
        proof {
            use_type_invariant(&*self);
        }
        self.captures_since_prune = 0;
    }

    /// A deliberate pick was put on the clipboard, or could not be. What was put
    /// there by the app itself is remembered, so that the next poll doesn't log
    /// it back as a brand new capture.
    pub fn take(&mut self, content: String, placed: bool)
        ensures
            final(self)@ == if placed {
                (SessionView { last: Some(content@), ..old(self)@ })
            } else {
                old(self)@
            },
    {
        proof {
            use_type_invariant(&*self);
        }
        if placed {
            self.last = Some(content);
        }
    }

    /// The current entry was deleted, and the next newest was to take its place on
    /// the clipboard, so you're never left holding something you just deleted.
    pub fn promote(&mut self, outcome: Promotion)
        ensures
            final(self)@ == promoted(old(self)@, outcome),
    {
        proof {
            use_type_invariant(&*self);
        }
        match outcome {
            Promotion::Failed => {},
            Promotion::Nothing => {
                self.last = None;
            },
            Promotion::Placed(content) => {
                self.last = Some(content);
            },
        }
    }

    /// Puts new settings into effect.
    pub fn finish_settings(&mut self, updated: Config)
        requires
            countable(updated.poll_interval_ms),
        ensures
            final(self)@ == reconfigured(old(self)@, updated@),
    {
        proof {
            use_type_invariant(&*self);
        }
        let ticks: u32 = ticks_per_poll(updated.poll_interval_ms);
        self.poll_every_ticks = ticks;
        self.ticks_to_poll = ticks;
        self.settings = updated;
        self.captures_since_prune = 0;
    }

    /// What the app takes to be on the clipboard.
    pub fn last(&self) -> (r: Option<&str>)
        ensures
            text::option_str_view(r) == self@.last,
    {
        borrow_option(&self.last)
    }

    pub fn settings(&self) -> (r: &Config)
        ensures
            r@ == self@.settings,
    {
        &self.settings
    }

    /// What the global shortcut opens. It is a preference, not a decision to make
    /// for the user.
    pub fn surface(&self) -> (r: Surface)
        ensures
            r == if self@.settings.hotkey_opens == OPENS_SEARCH@ {
                Surface::Search
            } else {
                Surface::Menu
            },
    {
        if same(self.settings.hotkey_opens.as_str(), OPENS_SEARCH) {
            Surface::Search
        } else {
            Surface::Menu
        }
    }
}

/// Whether any of the queued hotkey events is a press. Each press also delivers a
/// matching release, and holding the shortcut can queue several presses; they
/// open one surface together.
pub fn any_pressed(presses: &Vec<bool>) -> (r: bool)
    ensures
        r == presses@.contains(true),
{
    let mut i: usize = 0;
    while i < presses.len()
        invariant
            i <= presses@.len(),
            forall|k: int| 0 <= k < i ==> !#[trigger] presses@[k],
        decreases presses.len() - i,
    {
        if presses[i] {
            assert(presses@[i as int] == true);
            return true;
        }
        i += 1;
    }
    false
}

/// What saving edited settings calls for.
#[derive(Debug, Clone, Copy, PartialEq, Eq, Structural)]
pub enum SettingsChange {
    /// Nothing was edited.
    Nothing,
    /// The shortcut has to be bound anew first.
    Rebind,
    /// The settings take effect as they are.
    Finish,
}

/// What saving `updated` in place of `current` calls for.
pub fn settings_change(current: &Config, updated: &Config) -> (r: SettingsChange)
    ensures
        r == if updated@ == current@ {
            SettingsChange::Nothing
        } else if updated@.hotkey != current@.hotkey {
            SettingsChange::Rebind
        } else {
            SettingsChange::Finish
        },
{
    if same_config(updated, current) {
        SettingsChange::Nothing
    } else if !same(updated.hotkey.as_str(), current.hotkey.as_str()) {
        SettingsChange::Rebind
    } else {
        SettingsChange::Finish
    }
}

/// The settings to keep after an attempt to bind the new shortcut. Where it
/// failed, the stored shortcut stays the one that is actually bound.
pub fn settled(updated: Config, current: &Config, bound: bool) -> (r: Config)
    ensures
        r@ == if bound {
            updated@
        } else {
            (config::ConfigView { hotkey: current@.hotkey, ..updated@ })
        },
{
    if bound {
        updated
    } else {
        Config { hotkey: current.hotkey.clone(), ..updated }
    }
}

/// What is said when a shortcut cannot be bound. A shortcut another app already
/// owns would otherwise appear to save and then quietly not work.
pub fn unavailable_text(wanted: &str, kept: &str) -> (r: String)
    ensures
        r@ == wanted@
            + " could not be registered — another app is probably using it. Keeping "@ + kept@
            + "."@,
{
    let mut out = wanted.to_owned();
    out.append(" could not be registered — another app is probably using it. Keeping ");
    out.append(kept);
    out.append(".");
    out
}

/// The session after `n` ticks.
pub open spec fn ticked_by(m: SessionView, n: nat) -> SessionView
    decreases n,
{
    if n == 0 {
        m
    } else {
        ticked(ticked_by(m, (n - 1) as nat)).0
    }
}

/// Polls come at a steady pace: none before the tick that is due, one on it, and
/// then the whole interval lies ahead again.
pub proof fn law_polls_come_when_due(m: SessionView, n: nat)
    requires
        m.ticks_to_poll >= 1,
        n < m.ticks_to_poll,
    ensures
        ticked_by(m, n).ticks_to_poll == m.ticks_to_poll - n,
        ticked_by(m, n).poll_every_ticks == m.poll_every_ticks,
        ticked(ticked_by(m, n)).1 <==> n + 1 == m.ticks_to_poll,
        n + 1 == m.ticks_to_poll ==> ticked(ticked_by(m, n)).0.ticks_to_poll == m.poll_every_ticks,
    decreases n,
{
    if n > 0 {
        law_polls_come_when_due(m, (n - 1) as nat);
    }
}

/// What the app itself put on the clipboard is not recorded: neither what was
/// picked nor what was promoted after a deletion.
pub proof fn law_own_content_is_not_recorded(m: SessionView, content: Seq<char>, concealed: bool)
    requires
        m.last == Some(content),
    ensures
        observed(m, Some(content), concealed) == (m, None::<Seq<char>>),
{
}

/// Whatever is recorded is not recorded again by the next poll.
pub proof fn law_nothing_is_recorded_twice_in_a_row(
    m: SessionView,
    seen: Option<Seq<char>>,
    concealed: bool,
    again: bool,
)
    ensures
        observed(observed(m, seen, concealed).0, seen, again).1 is None,
        observed(m, seen, concealed).1 matches Some(s) ==> !text::blank(s) && m.last != Some(s)
            && !concealed,
{
}

/// Sanitized settings have an interval whose ticks can be counted, and polls lie
/// between two and two hundred ticks apart.
pub proof fn law_sanitized_interval_is_countable(c: config::ConfigView)
    ensures
        countable(config::usable(c).poll_interval_ms),
        2 <= ticks_between_polls(config::usable(c).poll_interval_ms) <= 200,
{
}

/// Everything new is recorded: text that holds some character other than white
/// space, differs from what was there before and is not flagged as secret is
/// handed back just as it is, whatever else it holds.
pub proof fn law_all_new_content_is_handed_back(m: SessionView, seen: Seq<char>, c: char)
    requires
        seen.contains(c),
        !text::white_space(c),
        m.last != Some(seen),
    ensures
        observed(m, Some(seen), false) == (SessionView { last: Some(seen), ..m }, Some(seen)),
{
    text::law_blank_goes_by_character(seen, Seq::empty(), c);
}

/// What is not worth recording leaves no trace: no text, white space alone and
/// what was there before change nothing, and a secret changes nothing but what was
/// seen last.
pub proof fn law_what_is_passed_over_leaves_no_trace(
    m: SessionView,
    seen: Seq<char>,
    concealed: bool,
)
    ensures
        observed(m, None, concealed) == (m, None::<Seq<char>>),
        text::blank(seen) || m.last == Some(seen) ==> observed(m, Some(seen), concealed) == (
            m,
            None::<Seq<char>>,
        ),
        !text::blank(seen) ==> observed(m, Some(seen), true) == (
            SessionView { last: Some(seen), ..m },
            None::<Seq<char>>,
        ),
{
}

/// The menu bar app and the watcher record alike.
pub proof fn law_session_and_watcher_agree(
    m: SessionView,
    w: watch::WatchModel,
    seen: Seq<char>,
    concealed: bool,
)
    requires
        m.last == w.last,
    ensures
        ({
            let poll = watch::Poll::Text { seen, concealed, written: true };
            &&& observed(m, Some(seen), concealed).1 == watch::polled(w, poll).1
            &&& observed(m, Some(seen), concealed).0.last == watch::polled(w, poll).0.last
        }),
{
}

/// Every 25th capture calls for a prune, and nothing else about the session
/// changes with one.
pub proof fn law_every_25th_capture_prunes(m: SessionView)
    requires
        0 <= m.captures_since_prune < 25,
    ensures
        captured(m).1 <==> m.captures_since_prune == 24,
        captured(m).0 == (SessionView {
            captures_since_prune: (m.captures_since_prune + 1) % 25,
            ..m
        }),
{
}

/// As many ticks of 50 milliseconds lie between two polls as fit into the
/// interval, and never none.
pub proof fn law_ticks_fill_the_interval(poll_interval_ms: u64)
    requires
        countable(poll_interval_ms),
    ensures
        ticks_between_polls(poll_interval_ms) >= 1,
        poll_interval_ms >= 50 ==> 50 * ticks_between_polls(poll_interval_ms) <= poll_interval_ms
            < 50 * ticks_between_polls(poll_interval_ms) + 50,
        poll_interval_ms < 50 ==> ticks_between_polls(poll_interval_ms) == 1,
{
}

/// New settings take effect from the next tick on, and what is on the clipboard is
/// not forgotten: it is not recorded again.
pub proof fn law_new_settings_keep_what_was_seen(
    m: SessionView,
    settings: config::ConfigView,
    concealed: bool,
)
    ensures
        ({
            let after = reconfigured(m, settings);
            &&& after.settings == settings
            &&& after.last == m.last
            &&& after.ticks_to_poll == after.poll_every_ticks
            &&& after.poll_every_ticks == ticks_between_polls(settings.poll_interval_ms)
            &&& after.captures_since_prune == 0
            &&& m.last matches Some(s) ==> observed(after, Some(s), concealed).1 is None
        }),
{
}

/// What is promoted after a deletion is what the app takes to be on the clipboard
/// from then on; where nothing is left, nothing is, and the deleted text counts as
/// new should it be copied again. A promotion that failed changes nothing.
pub proof fn law_promotion_is_remembered(m: SessionView, content: String)
    ensures
        promoted(m, Promotion::Placed(content)) == (SessionView { last: Some(content@), ..m }),
        promoted(m, Promotion::Nothing) == (SessionView { last: None, ..m }),
        promoted(m, Promotion::Failed) == m,
        !text::blank(content@) ==> observed(
            promoted(m, Promotion::Nothing),
            Some(content@),
            false,
        ).1 == Some(content@),
{
}

} // verus!
