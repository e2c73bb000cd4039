//! Pinned snippets, kept at the top of the menu and never pruned.
//!
//! Stored separately from the history rather than as a flag on an entry: the
//! history is append-only, so flipping a field in place would mean rewriting
//! the whole file. Pins are keyed by content, so pinning survives its
//! entry aging out.

use vstd::prelude::*;

use crate::lines;
use crate::text;
use crate::text::{own_option, same};

verus! {

/// A pinned snippet. The source app rides along so the menu can show its icon
/// without scanning the history for a matching entry on every rebuild.
#[derive(Debug, Clone, PartialEq, Eq)]
pub struct Pin {
    pub content: String,
    pub source: Option<String>,
    pub source_bundle_id: Option<String>,
}

/// What a [`Pin`] holds.
pub struct PinView {
    pub content: Seq<char>,
    pub source: Option<Seq<char>>,
    pub source_bundle_id: Option<Seq<char>>,
}

impl View for Pin {
    type V = PinView;

    open spec fn view(&self) -> PinView {
        PinView {
            content: self.content@,
            source: text::option_view(self.source),
            source_bundle_id: text::option_view(self.source_bundle_id),
        }
    }
}

/// What the pins of a list hold.
pub open spec fn pin_views(pins: Seq<Pin>) -> Seq<PinView> {
    pins.map_values(|p: Pin| p@)
}

/// A pin as it is stored: in full, or, in files written by the first version of
/// pinning, as its bare content.
pub enum StoredPin {
    Rich(Pin),
    Legacy(String),
}

impl From<StoredPin> for Pin {
    fn from(stored: StoredPin) -> (pin: Self) {
        match stored {
            StoredPin::Rich(pin) => pin,
            StoredPin::Legacy(content) => Pin { content, source: None, source_bundle_id: None },
        }
    }
}

impl vstd::std_specs::convert::FromSpecImpl<StoredPin> for Pin {
    open spec fn obeys_from_spec() -> bool {
        true
    }

    open spec fn from_spec(stored: StoredPin) -> Pin {
        match stored {
            StoredPin::Rich(pin) => pin,
            StoredPin::Legacy(content) => Pin { content, source: None, source_bundle_id: None },
        }
    }
}

/// Upper bound, so pins can't crowd the recent list out of the menu.
pub const MAX_PINS: usize = 9;

/// The pins of a file, most recently pinned first; `None` where the file does
/// not hold pins. A corrupt pins file shouldn't stop the app from starting; the
/// worst case is you re-pin a few things.
pub fn read_pins(stored: Option<Vec<StoredPin>>) -> (pins: Vec<Pin>)
    ensures
        pins@ == match stored {
            Some(list) => list@.map_values(
                |s: StoredPin| <Pin as vstd::std_specs::convert::FromSpec<StoredPin>>::from_spec(s),
            ),
            None => Seq::empty(),
        },
        stored is None ==> pins@.len() == 0,
        stored matches Some(list) ==> {
            &&& pins@.len() == list@.len()
            &&& forall|i: int|
                0 <= i < list@.len() ==> match #[trigger] list@[i] {
                    StoredPin::Rich(pin) => pins@[i] == pin,
                    StoredPin::Legacy(content) => pins@[i].content@ == content@
                        && pins@[i].source is None && pins@[i].source_bundle_id is None,
                }
        },
{
    let mut pins: Vec<Pin> = Vec::new();
    if let Some(list) = stored {
        let ghost all = list@;
        for item in it: list
            invariant
                it.seq() == all,
                pins@ == all.take(it.index()).map_values(
                    |s: StoredPin|
                        <Pin as vstd::std_specs::convert::FromSpec<StoredPin>>::from_spec(s),
                ),
        {
            pins.push(Pin::from(item));
            assert(all.take(it.index() + 1) == all.take(it.index()).push(item));
        }
        assert(all.take(all.len() as int) == all);
    }
    pins
}

/// `content` is among the pins.
pub open spec fn holds_pin(pins: Seq<PinView>, content: Seq<char>) -> bool {
    exists|i: int| 0 <= i < pins.len() && (#[trigger] pins[i]).content == content
}

/// The pins with `pin` in front, without those that are then too many.
pub open spec fn with_pin(pins: Seq<PinView>, pin: PinView) -> Seq<PinView> {
    let longer = seq![pin] + pins;
    if longer.len() > MAX_PINS {
        longer.take(MAX_PINS as int)
    } else {
        longer
    }
}

/// The pins after `pin` was toggled: without any pin of its content where there
/// was one, and otherwise with it.
pub open spec fn toggled(pins: Seq<PinView>, pin: PinView) -> Seq<PinView> {
    if holds_pin(pins, pin.content) {
        without_pin(pins, pin.content)
    } else {
        with_pin(pins, pin)
    }
}

/// A pin is for something else than `content`.
pub open spec fn unlike(content: Seq<char>) -> spec_fn(PinView) -> bool {
    |p: PinView| p.content != content
}

/// The pins without those of `content`.
pub open spec fn without_pin(pins: Seq<PinView>, content: Seq<char>) -> Seq<PinView> {
    pins.filter(unlike(content))
}

pub fn is_pinned(pins: &Vec<Pin>, content: &str) -> (r: bool)
    ensures
        r == holds_pin(pin_views(pins@), content@),
        r == exists|i: int| 0 <= i < pins@.len() && (#[trigger] pins@[i]).content@ == content@,
{
    let ghost views = pin_views(pins@);
    let mut i: usize = 0;
    while i < pins.len()
        invariant
            i <= pins@.len(),
            views == pin_views(pins@),
            forall|k: int| 0 <= k < i ==> (#[trigger] views[k]).content != content@,
        decreases pins.len() - i,
    {
        assert(views[i as int] == pins@[i as int]@);
        if same(pins[i].content.as_str(), content) {
            assert(pins@[i as int].content@ == content@);
            return true;
        }
        i += 1;
    }
    assert forall|k: int| 0 <= k < pins@.len() implies (#[trigger] pins@[k]).content@
        != content@ by {
        assert(views[k].content != content@);
    }
    false
}

/// Pins `content` if it isn't pinned, unpins it if it is.
/// Returns the state it ended up in.
pub fn toggle_pin(
    pins: &mut Vec<Pin>,
    content: &str,
    source: Option<&str>,
    source_bundle_id: Option<&str>,
) -> (r: bool)
    ensures
        pin_views(final(pins)@) == toggled(
            pin_views(old(pins)@),
            (PinView {
                content: content@,
                source: text::option_str_view(source),
                source_bundle_id: text::option_str_view(source_bundle_id),
            }),
        ),
        r == !holds_pin(pin_views(old(pins)@), content@),
        r == holds_pin(pin_views(final(pins)@), content@),
        r == exists|i: int|
            0 <= i < final(pins)@.len() && (#[trigger] final(pins)@[i]).content@ == content@,
        r ==> {
            &&& 0 < final(pins)@.len() <= 9
            &&& final(pins)@[0].content@ == content@
            &&& text::option_view(final(pins)@[0].source) == text::option_str_view(source)
            &&& text::option_view(final(pins)@[0].source_bundle_id) == text::option_str_view(
                source_bundle_id,
            )
            &&& forall|i: int|
                0 < i < final(pins)@.len() ==> #[trigger] final(pins)@[i] == old(pins)@[i - 1]
            &&& final(pins)@.len() == if old(pins)@.len() < 9 {
                old(pins)@.len() + 1
            } else {
                9
            }
        },
{
    let ghost before = pin_views(pins@);
    if is_pinned(pins, content) {
        let mut taken: Vec<Pin> = Vec::new();
        std::mem::swap(&mut taken, pins);
        let (mut kept, _) = remove_pin(taken, content);
        std::mem::swap(&mut kept, pins);
        proof {
            law_removed_pin_is_gone(before, content@);
            assert forall|i: int| 0 <= i < pins@.len() implies (#[trigger] pins@[i]).content@
                != content@ by {
                assert(pin_views(pins@)[i] == pins@[i]@);
            }
        }
        return false;
    }
    let pin = Pin {
        content: content.to_owned(),
        source: own_option(source),
        source_bundle_id: own_option(source_bundle_id),
    };
    let ghost view = pin@;
    pins.insert(0, pin);
    assert(pin_views(pins@) =~= seq![view] + before);
    pins.truncate(MAX_PINS);
    assert(pin_views(pins@) =~= with_pin(before, view));
    assert(pin_views(pins@)[0] == view);
    assert(pins@[0].content@ == content@);
    true
}

/// Drops a pin if it exists, and says whether it did. Used when its entry is
/// deleted outright, so the menu can't keep offering something the history no
/// longer has.
pub fn remove_pin(pins: Vec<Pin>, content: &str) -> (r: (Vec<Pin>, bool))
    ensures
        pin_views(r.0@) == without_pin(pin_views(pins@), content@),
        r.1 == holds_pin(pin_views(pins@), content@),
        forall|i: int| 0 <= i < r.0@.len() ==> (#[trigger] r.0@[i]).content@ != content@,
        r.1 == exists|i: int|
            0 <= i < pins@.len() && (#[trigger] pins@[i]).content@ == content@,
{
    let ghost held = pins@;
    let ghost all = pin_views(pins@);
    let mut kept: Vec<Pin> = Vec::new();
    let mut changed: bool = false;
    assert(without_pin(all.take(0), content@) == Seq::<PinView>::empty()) by {
        assert(all.take(0) == Seq::<PinView>::empty());
        reveal_with_fuel(Seq::filter, 1);
    }
    assert(pin_views(kept@) == Seq::<PinView>::empty());
    for pin in it: pins
        invariant
            all == pin_views(it.seq()),
            pin_views(kept@) == without_pin(all.take(it.index()), content@),
            changed == exists|i: int| 0 <= i < it.index() && (#[trigger] all[i]).content == content@,
    {
        let ghost before = kept@;
        proof {
            let i = it.index();
            assert(all[i] == pin@);
            assert(all.take(i + 1) == all.take(i).push(pin@));
            all.take(i).lemma_filter_push(pin@, unlike(content@));
        }
        if same(pin.content.as_str(), content) {
            changed = true;
        } else {
            kept.push(pin);
            assert(pin_views(kept@) == pin_views(before).push(pin@));
        }
    }
    assert(all.take(all.len() as int) == all);
    proof {
        assert forall|i: int| 0 <= i < kept@.len() implies (#[trigger] kept@[i]).content@
            != content@ by {
            law_removed_pin_is_gone(all, content@);
            assert(pin_views(kept@)[i] == kept@[i]@);
        }
        if changed {
            let k = choose|k: int| 0 <= k < all.len() && (#[trigger] all[k]).content == content@;
            assert(held[k].content@ == content@);
        } else {
            assert forall|i: int| 0 <= i < held.len() implies (#[trigger] held[i]).content@
                != content@ by {
                assert(all[i] == held[i]@);
            }
        }
    }
    (kept, changed)
}

/// No two pins have the same content.
pub open spec fn distinct(pins: Seq<PinView>) -> bool {
    forall|i: int, j: int|
        0 <= i < j < pins.len() ==> (#[trigger] pins[i]).content != (#[trigger] pins[j]).content
}

/// Toggling never takes a list past the cap, and never lengthens one that already
/// is past it.
pub proof fn law_pins_are_capped(pins: Seq<PinView>, pin: PinView)
    ensures
        toggled(pins, pin).len() <= MAX_PINS || toggled(pins, pin).len() <= pins.len(),
        pins.len() <= MAX_PINS ==> toggled(pins, pin).len() <= MAX_PINS,
{
    pins.lemma_filter_len(unlike(pin.content));
}

/// A new pin comes first, and the others keep their order behind it; the oldest
/// goes where there would be too many.
pub proof fn law_newest_pin_comes_first(pins: Seq<PinView>, pin: PinView)
    requires
        !holds_pin(pins, pin.content),
    ensures
        toggled(pins, pin)[0] == pin,
        toggled(pins, pin).drop_first() == if pins.len() < MAX_PINS {
            pins
        } else {
            pins.take(MAX_PINS - 1)
        },
{
    assert(toggled(pins, pin).drop_first() =~= if pins.len() < MAX_PINS {
        pins
    } else {
        pins.take(MAX_PINS - 1)
    });
}

/// A toggle turns pinned into unpinned and back, whatever the list holds.
pub proof fn law_toggle_flips(pins: Seq<PinView>, pin: PinView)
    ensures
        holds_pin(toggled(pins, pin), pin.content) == !holds_pin(pins, pin.content),
{
    if holds_pin(pins, pin.content) {
        law_removed_pin_is_gone(pins, pin.content);
    } else {
        assert(toggled(pins, pin)[0] == pin);
    }
}

proof fn lemma_filter_keeps_distinct(pins: Seq<PinView>, content: Seq<char>)
    requires
        distinct(pins),
    ensures
        distinct(without_pin(pins, content)),
    decreases pins.len(),
{
    if pins.len() > 0 {
        let before = pins.drop_last();
        let pin = pins.last();
        assert forall|i: int, j: int| 0 <= i < j < before.len() implies (
        #[trigger] before[i]).content != (#[trigger] before[j]).content by {
            assert(before[i] == pins[i] && before[j] == pins[j]);
        }
        lemma_filter_keeps_distinct(before, content);
        before.lemma_filter_push(pin, unlike(content));
        assert(before.push(pin) == pins);
        let kept = without_pin(before, content);
        if pin.content != content {
            let longer = without_pin(pins, content);
            assert(longer == kept.push(pin));
            assert forall|i: int, j: int| 0 <= i < j < longer.len() implies (
            #[trigger] longer[i]).content != (#[trigger] longer[j]).content by {
                assert(longer[i] == kept[i]);
                if j < kept.len() {
                    assert(longer[j] == kept[j]);
                } else {
                    before.lemma_filter_contains_rev(unlike(content), kept[i]);
                    let k = choose|k: int| 0 <= k < before.len() && before[k] == kept[i];
                    assert(pins[k] == kept[i] && pins[pins.len() - 1] == pin);
                }
            }
        }
    } else {
        reveal_with_fuel(Seq::filter, 1);
    }
}

/// Pins of distinct content stay distinct.
pub proof fn law_pins_stay_distinct(pins: Seq<PinView>, pin: PinView)
    requires
        distinct(pins),
    ensures
        distinct(toggled(pins, pin)),
        distinct(without_pin(pins, pin.content)),
{
    lemma_filter_keeps_distinct(pins, pin.content);
    let after = toggled(pins, pin);
    if !holds_pin(pins, pin.content) {
        assert forall|i: int, j: int| 0 <= i < j < after.len() implies (#[trigger] after[i]).content
            != (#[trigger] after[j]).content by {
            assert(after[j] == pins[j - 1]);
            if i > 0 {
                assert(after[i] == pins[i - 1]);
            }
        }
    }
}

/// Pinning something and then unpinning it changes nothing, as long as no pin
/// had to make room.
pub proof fn law_toggling_twice_undoes_itself(pins: Seq<PinView>, pin: PinView)
    requires
        !holds_pin(pins, pin.content),
        pins.len() < MAX_PINS,
    ensures
        toggled(toggled(pins, pin), pin) == pins,
{
    let once = toggled(pins, pin);
    let first = seq![pin];
    assert(once[0] == pin);
    assert(once =~= first + pins);
    Seq::filter_distributes_over_add(first, pins, unlike(pin.content));
    assert(first.filter(unlike(pin.content)) == Seq::<PinView>::empty()) by {
        reveal_with_fuel(Seq::filter, 2);
    }
    lines::lemma_filter_all(pins, unlike(pin.content));
    assert(Seq::<PinView>::empty() + pins == pins);
}

/// Removing a pin leaves none of that content and every other one.
pub proof fn law_removed_pin_is_gone(pins: Seq<PinView>, content: Seq<char>)
    ensures
        !holds_pin(without_pin(pins, content), content),
        forall|p: PinView|
            pins.contains(p) && p.content != content ==> #[trigger] without_pin(
                pins,
                content,
            ).contains(p),
{
    let kept = without_pin(pins, content);
    if holds_pin(kept, content) {
        let k = choose|k: int| 0 <= k < kept.len() && (#[trigger] kept[k]).content == content;
        pins.lemma_filter_pred(unlike(content), k);
    }
    assert forall|p: PinView| pins.contains(p) && p.content != content implies #[trigger] without_pin(
        pins,
        content,
    ).contains(p) by {
        let i = choose|i: int| 0 <= i < pins.len() && pins[i] == p;
        pins.lemma_filter_contains(unlike(content), i);
    }
}

/// Removing goes pin by pin: each stays, in its place, exactly where its content is
/// something else.
pub proof fn law_removing_goes_pin_by_pin(pins: Seq<PinView>, pin: PinView, content: Seq<char>)
    ensures
        without_pin(Seq::empty(), content) == Seq::<PinView>::empty(),
        without_pin(pins.push(pin), content) == if pin.content == content {
            without_pin(pins, content)
        } else {
            without_pin(pins, content).push(pin)
        },
{
    pins.lemma_filter_push(pin, unlike(content));
    reveal_with_fuel(Seq::filter, 1);
}

/// Whether something is pinned is a matter of each pin.
pub proof fn law_pinned_goes_pin_by_pin(pins: Seq<PinView>, pin: PinView, content: Seq<char>)
    ensures
        !holds_pin(Seq::empty(), content),
        holds_pin(pins.push(pin), content) <==> pin.content == content || holds_pin(pins, content),
{
    let longer = pins.push(pin);
    if pin.content == content {
        assert(longer[pins.len() as int].content == content);
    }
    if holds_pin(pins, content) {
        let k = choose|k: int| 0 <= k < pins.len() && (#[trigger] pins[k]).content == content;
        assert(longer[k].content == content);
    }
    if holds_pin(longer, content) && pin.content != content {
        let k = choose|k: int| 0 <= k < longer.len() && (#[trigger] longer[k]).content == content;
        assert(pins[k].content == content);
    }
}

/// Toggling one thing leaves every other as it was: a pin of other content stays
/// when something is unpinned, and when something is pinned only the oldest of nine
/// goes.
pub proof fn law_toggle_leaves_the_others(pins: Seq<PinView>, pin: PinView, i: int)
    requires
        0 <= i < pins.len(),
        pins[i].content != pin.content,
        i < 8 || holds_pin(pins, pin.content),
    ensures
        toggled(pins, pin).contains(pins[i]),
{
    if holds_pin(pins, pin.content) {
        law_removed_pin_is_gone(pins, pin.content);
    } else {
        assert(toggled(pins, pin)[i + 1] == pins[i]);
    }
}

} // verus!
