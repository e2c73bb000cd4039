//! Watching the clipboard: which changes are recorded, and when the history is
//! trimmed.

use vstd::prelude::*;

use crate::display;
use crate::display::{preview, PREVIEW_WIDTH};
use crate::text;
use crate::text::{borrow_option, decimal_text, is_blank, same_option};

verus! {

/// Captures between prunes. Pruning rewrites the whole file, so it shouldn't
/// ride along on every copy.
pub const PRUNE_EVERY_CAPTURES: u32 = 25;

/// Slice length for the interruptible sleep, in milliseconds, so that a request
/// to stop is acted on promptly instead of after a full poll interval.
pub const TICK_MS: u64 = 50;

/// A poll's text is worth recording, given what the previous poll saw.
pub open spec fn fresh(seen: Seq<char>, last: Option<Seq<char>>) -> bool {
    !text::blank(seen) && last != Some(seen)
}

/// Whether a poll's text is worth recording, given what the previous poll saw.
///
/// Whitespace-only content is not something anyone meant to copy, and identical
/// content means the user simply hasn't copied anything new since the last poll.
pub fn is_new_content(text: &str, last: Option<&str>) -> (r: bool)
    ensures
        r == fresh(text@, text::option_str_view(last)),
        r <==> !text::blank(text@) && !(last is Some && (last->0)@ == text@),
{
    !is_blank(text) && !same_option(last, Some(text))
}

/// What a watcher remembers between polls.
pub struct Watcher {
    last: Option<String>,
    captured: usize,
    since_prune: u32,
}

/// What a [`Watcher`] holds.
pub struct WatchModel {
    /// What the last poll saw that was worth a look.
    pub last: Option<Seq<char>>,
    /// How many entries were recorded.
    pub captured: nat,
    /// How many of them since the last prune.
    pub since_prune: nat,
}

impl View for Watcher {
    type V = WatchModel;

    closed spec fn view(&self) -> WatchModel {
        WatchModel {
            last: text::option_view(self.last),
            captured: self.captured as nat,
            since_prune: self.since_prune as nat,
        }
    }
}

/// The watcher after an attempt to record `seen`, and whether a prune is due. A
/// failed write shouldn't kill a long-running watcher: what was seen still counts
/// as seen, so one bad entry can't spam the log.
pub open spec fn recorded(m: WatchModel, seen: Seq<char>, written: bool) -> (WatchModel, bool) {
    if !written {
        (WatchModel { last: Some(seen), ..m }, false)
    } else if m.since_prune + 1 >= PRUNE_EVERY_CAPTURES {
        (WatchModel { last: Some(seen), captured: m.captured + 1, since_prune: 0 }, true)
    } else {
        (
            WatchModel {
                last: Some(seen),
                captured: m.captured + 1,
                since_prune: m.since_prune + 1,
            },
            false,
        )
    }
}

impl Watcher {
    #[verifier::type_invariant]
    spec fn inv(self) -> bool {
        self.since_prune < PRUNE_EVERY_CAPTURES
    }

    /// A watcher that starts with `last` on the clipboard, which is not to be
    /// recorded again.
    pub fn new(last: Option<String>) -> (w: Watcher)
        ensures
            w@ == (WatchModel { last: text::option_view(last), captured: 0, since_prune: 0 }),
    {
        Watcher { last, captured: 0, since_prune: 0 }
    }

    /// Whether what a poll saw is worth recording.
    pub fn wants(&self, seen: &str) -> (r: bool)
        ensures
            r == fresh(seen@, self@.last),
            r <==> !text::blank(seen@) && self@.last != Some(seen@),
    {
        is_new_content(seen, borrow_option(&self.last))
    }

    /// Passes over content that is not to be recorded, such as a password. It
    /// counts as seen, so it isn't looked at again on every poll.
    pub fn conceal(&mut self, seen: String)
        ensures
            final(self)@ == (WatchModel { last: Some(seen@), ..old(self)@ }),
    {
        proof {
            use_type_invariant(&*self);
        }
        self.last = Some(seen);
    }

    /// Takes note of an attempt to record what a poll saw, and says whether the
    /// history is to be pruned now.
    pub fn record(&mut self, seen: String, written: bool) -> (prune: bool)
        requires
            written ==> old(self)@.captured < usize::MAX,
        ensures
            (final(self)@, prune) == recorded(old(self)@, seen@, written),
            final(self)@.last == Some(seen@),
            final(self)@.captured == old(self)@.captured + if written {
                1int
            } else {
                0
            },
            prune ==> written,
    {
        proof {
            use_type_invariant(&*self);
        }
        self.last = Some(seen);
        if !written {
            return false;
        }
        self.captured = self.captured + 1;
        if self.since_prune + 1 >= PRUNE_EVERY_CAPTURES {
            self.since_prune = 0;
            true
        } else {
            self.since_prune = self.since_prune + 1;
            false
        }
    }

    /// How many entries were recorded.
    pub fn captured(&self) -> (r: usize)
        ensures
            r == self@.captured,
    {
        self.captured
    }
}

/// The line that reports a capture.
pub fn capture_line(text: &str) -> (r: String)
    ensures
        r@ == "  + "@ + display::preview_of(text@, PREVIEW_WIDTH as nat),
        r@ == "  + "@ + display::preview_of(text@, 80),
{
    let mut out = "  + ".to_owned();
    out.append(preview(text, PREVIEW_WIDTH).as_str());
    out
}

/// The line that ends a session in which `captured` entries were recorded.
pub open spec fn farewell(captured: nat) -> Seq<char> {
    "\nstopped — "@ + text::decimal(captured) + " "@ + if captured == 1 {
        "entry"@
    } else {
        "entries"@
    } + " captured this session"@
}

/// The line that ends a session in which `captured` entries were recorded.
pub fn farewell_line(captured: usize) -> (r: String)
    ensures
        r@ == farewell(captured as nat),
{
    let noun = if captured == 1 {
        "entry"
    } else {
        "entries"
    };
    let mut out = "\nstopped — ".to_owned();
    out.append(decimal_text(captured as u64).as_str());
    out.append(" ");
    out.append(noun);
    out.append(" captured this session");
    out
}

/// How long to sleep next, of `total` milliseconds of which `slept` are over;
/// `None` when it is time to wake.
pub open spec fn slice_of(slept: int, total: int) -> Option<int> {
    if slept >= total {
        None
    } else if total - slept < TICK_MS {
        Some(total - slept)
    } else {
        Some(TICK_MS as int)
    }
}

/// How long to sleep next, of `total` milliseconds of which `slept` are over;
/// `None` when it is time to wake.
pub fn next_slice(slept: u64, total: u64) -> (r: Option<u64>)
    ensures
        r is Some <==> slice_of(slept as int, total as int) is Some,
        r matches Some(s) ==> slice_of(slept as int, total as int) == Some(s as int),
{
    if slept >= total {
        None
    } else if total - slept < TICK_MS {
        Some(total - slept)
    } else {
        Some(TICK_MS)
    }
}

/// What a poll finds.
pub enum Poll {
    /// Nothing that is text.
    Nothing,
    /// Text, flagged as secret or not, and whether recording it works.
    Text { seen: Seq<char>, concealed: bool, written: bool },
}

/// What a poll does to a watcher, and what is recorded.
pub open spec fn polled(m: WatchModel, poll: Poll) -> (WatchModel, Option<Seq<char>>) {
    match poll {
        Poll::Nothing => (m, None),
        Poll::Text { seen, concealed, written } => if !fresh(seen, m.last) {
            (m, None)
        } else if concealed {
            (WatchModel { last: Some(seen), ..m }, None)
        } else {
            (
                recorded(m, seen, written).0,
                if written {
                    Some(seen)
                } else {
                    None
                },
            )
        },
    }
}

/// The watcher after a number of polls.
pub open spec fn watched(m: WatchModel, polls: Seq<Poll>) -> WatchModel
    decreases polls.len(),
{
    if polls.len() == 0 {
        m
    } else {
        polled(watched(m, polls.drop_last()), polls.last()).0
    }
}

/// What is recorded in a number of polls.
pub open spec fn captures(m: WatchModel, polls: Seq<Poll>) -> Seq<Seq<char>>
    decreases polls.len(),
{
    if polls.len() == 0 {
        seq![]
    } else {
        let before = captures(m, polls.drop_last());
        match polled(watched(m, polls.drop_last()), polls.last()).1 {
            Some(seen) => before.push(seen),
            None => before,
        }
    }
}

/// Nothing but text that is no secret, and every write works.
pub open spec fn plain(polls: Seq<Poll>) -> bool {
    forall|i: int|
        0 <= i < polls.len() ==> (#[trigger] polls[i] matches Poll::Text { concealed, written, .. }
            ==> !concealed && written)
}

/// What is recorded is never blank, never flagged as secret, and never what the
/// watcher saw last.
pub proof fn law_only_new_content_is_recorded(m: WatchModel, poll: Poll)
    ensures
        polled(m, poll).1 matches Some(seen) ==> !text::blank(seen) && m.last != Some(seen)
            && !(poll->concealed) && polled(m, poll).0.last == Some(seen),
{
}

/// The same content is never recorded twice in a row, nor is what was on the
/// clipboard when the watch began recorded first, as long as nothing is passed
/// over or lost in between.
pub proof fn law_no_duplicates_in_a_row(m: WatchModel, polls: Seq<Poll>)
    requires
        plain(polls),
    ensures
        ({
            let c = captures(m, polls);
            &&& forall|i: int| 0 < i < c.len() ==> #[trigger] c[i] != c[i - 1]
            &&& c.len() > 0 ==> m.last != Some(c[0]) && watched(m, polls).last == Some(c.last())
            &&& c.len() == 0 ==> watched(m, polls).last == m.last
        }),
    decreases polls.len(),
{
    if polls.len() > 0 {
        let before = polls.drop_last();
        assert forall|i: int| 0 <= i < before.len() implies (#[trigger] before[i] matches Poll::Text {
            concealed,
            written,
            ..
        } ==> !concealed && written) by {
            assert(before[i] == polls[i]);
        }
        law_no_duplicates_in_a_row(m, before);
        assert(polls[polls.len() - 1] == polls.last());
        let c = captures(m, polls);
        let b = captures(m, before);
        assert forall|i: int| 0 < i < c.len() implies #[trigger] c[i] != c[i - 1] by {
            if i < b.len() {
                assert(c[i] == b[i] && c[i - 1] == b[i - 1]);
            }
        }
    }
}

/// The history is pruned after every 25th capture: the captures since the last
/// prune are those that are left over of the captures so far.
pub proof fn law_prunes_keep_their_cadence(m: WatchModel, seen: Seq<char>, written: bool)
    requires
        m.since_prune == m.captured % (PRUNE_EVERY_CAPTURES as nat),
    ensures
        ({
            let (after, prune) = recorded(m, seen, written);
            &&& after.since_prune == after.captured % (PRUNE_EVERY_CAPTURES as nat)
            &&& prune == (written && after.captured % (PRUNE_EVERY_CAPTURES as nat) == 0)
        }),
{
    let n = PRUNE_EVERY_CAPTURES as nat;
    assert(n == 25);
    let c = m.captured;
    assert((c + 1) % 25 == if c % 25 == 24 {
        0
    } else {
        c % 25 + 1
    });
}

/// How long a sleep of `total` milliseconds has lasted after `n` slices.
pub open spec fn slept_after(total: int, n: nat) -> int
    decreases n,
{
    if n == 0 {
        0
    } else {
        let before = slept_after(total, (n - 1) as nat);
        match slice_of(before, total) {
            Some(slice) => before + slice,
            None => before,
        }
    }
}

/// The slices of a sleep add up to it exactly, and none is longer than a tick.
pub proof fn law_slices_add_up(total: int, n: nat)
    requires
        total >= 0,
    ensures
        slept_after(total, n) == if n * TICK_MS < total {
            n * TICK_MS
        } else {
            total
        },
        slice_of(slept_after(total, n), total) is None <==> n * TICK_MS >= total,
        slice_of(slept_after(total, n), total) matches Some(s) ==> 0 < s <= TICK_MS,
    decreases n,
{
    assert(TICK_MS == 50);
    if n > 0 {
        law_slices_add_up(total, (n - 1) as nat);
        assert((n - 1) * 50 + 50 == n * 50);
    }
}

/// Everything new is recorded: text that holds some character other than white
/// space, differs from what was seen last and is not flagged as secret is
/// recorded just as it is, whatever else it holds, wherever writing works.
pub proof fn law_all_new_content_is_recorded(
    m: WatchModel,
    seen: Seq<char>,
    c: char,
    written: bool,
)
    requires
        seen.contains(c),
        !text::white_space(c),
        m.last != Some(seen),
    ensures
        fresh(seen, m.last),
        ({
            let (after, kept) = polled(m, Poll::Text { seen, concealed: false, written });
            &&& kept == if written {
                Some(seen)
            } else {
                None
            }
            &&& after.last == Some(seen)
            &&& after.captured == m.captured + if written {
                1int
            } else {
                0
            }
        }),
{
    text::law_blank_goes_by_character(seen, Seq::empty(), c);
}

/// What is not worth recording leaves no trace: white space alone and what was
/// seen last change nothing, and a secret changes nothing but what was seen last.
pub proof fn law_what_is_passed_over_leaves_no_trace(
    m: WatchModel,
    seen: Seq<char>,
    concealed: bool,
    written: bool,
)
    ensures
        polled(m, Poll::Nothing) == (m, None::<Seq<char>>),
        text::blank(seen) || m.last == Some(seen) ==> polled(
            m,
            Poll::Text { seen, concealed, written },
        ) == (m, None::<Seq<char>>),
        !text::blank(seen) ==> polled(m, Poll::Text { seen, concealed: true, written }) == (
            WatchModel { last: Some(seen), ..m },
            None::<Seq<char>>,
        ),
{
}

/// Polls that each find something else than the one before, none of it blank.
pub open spec fn ever_new(polls: Seq<Poll>, texts: Seq<Seq<char>>, last: Option<Seq<char>>) -> bool {
    &&& polls.len() == texts.len()
    &&& forall|i: int|
        0 <= i < polls.len() ==> #[trigger] polls[i] == (Poll::Text {
            seen: texts[i],
            concealed: false,
            written: true,
        })
    &&& forall|i: int| 0 <= i < texts.len() ==> !text::blank(#[trigger] texts[i])
    &&& forall|i: int| 0 < i < texts.len() ==> #[trigger] texts[i] != texts[i - 1]
    &&& texts.len() > 0 ==> last != Some(texts[0])
}

/// Nothing copied is lost: where each poll finds something else than the one
/// before it, all of it is recorded, in that order.
pub proof fn law_every_change_is_recorded(m: WatchModel, polls: Seq<Poll>, texts: Seq<Seq<char>>)
    requires
        ever_new(polls, texts, m.last),
    ensures
        captures(m, polls) == texts,
        watched(m, polls).captured == m.captured + texts.len(),
        texts.len() > 0 ==> watched(m, polls).last == Some(texts.last()),
    decreases polls.len(),
{
    if polls.len() > 0 {
        let before = polls.drop_last();
        let earlier = texts.drop_last();
        assert forall|i: int| 0 <= i < before.len() implies #[trigger] before[i] == (Poll::Text {
            seen: earlier[i],
            concealed: false,
            written: true,
        }) by {
            assert(before[i] == polls[i]);
        }
        assert forall|i: int| 0 <= i < earlier.len() implies !text::blank(
            #[trigger] earlier[i],
        ) by {
            assert(earlier[i] == texts[i]);
        }
        assert forall|i: int| 0 < i < earlier.len() implies #[trigger] earlier[i] != earlier[i
            - 1] by {
            assert(texts[i] != texts[i - 1]);
        }
        law_every_change_is_recorded(m, before, earlier);
        assert(polls[polls.len() - 1] == polls.last());
        assert(!text::blank(texts[texts.len() - 1]));
        if texts.len() > 1 {
            assert(texts[texts.len() - 1] != texts[texts.len() - 2]);
            assert(earlier.last() == texts[texts.len() - 2]);
        } else {
            assert(before =~= Seq::<Poll>::empty());
        }
        assert(captures(m, polls) =~= earlier.push(texts.last()));
        assert(earlier.push(texts.last()) =~= texts);
    } else {
        assert(captures(m, polls) =~= texts);
    }
}

/// What a watcher remembers of an attempt to record something: it was seen, and
/// it counts only where it was written; every 25th that was calls for a prune.
pub proof fn law_attempts_are_counted(m: WatchModel, seen: Seq<char>, written: bool)
    requires
        m.since_prune < 25,
    ensures
        ({
            let (after, prune) = recorded(m, seen, written);
            &&& after.last == Some(seen)
            &&& !written ==> after.captured == m.captured && after.since_prune == m.since_prune
                && !prune
            &&& written ==> after.captured == m.captured + 1 && (prune <==> m.since_prune == 24)
                && after.since_prune == if prune {
                0
            } else {
                m.since_prune + 1
            }
        }),
{
}

/// The line that ends a session says how many entries were recorded.
pub proof fn law_farewell_tells_the_count(captured: nat)
    ensures
        farewell(1) == "\nstopped — "@ + text::decimal(1) + " entry captured this session"@,
        captured != 1 ==> farewell(captured) == "\nstopped — "@ + text::decimal(captured)
            + " entries captured this session"@,
{
    reveal_strlit(" ");
    reveal_strlit("entry");
    reveal_strlit("entries");
    reveal_strlit(" captured this session");
    reveal_strlit(" entry captured this session");
    reveal_strlit(" entries captured this session");
    assert(farewell(1) =~= "\nstopped — "@ + text::decimal(1) + " entry captured this session"@);
    if captured != 1 {
        assert(farewell(captured) =~= "\nstopped — "@ + text::decimal(captured)
            + " entries captured this session"@);
    }
}

} // verus!
