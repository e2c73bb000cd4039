//! Subsequence scoring, so typing `hlo` finds `hello world`.
//!
//! Deliberately a small greedy matcher: the corpus is one clipboard history,
//! and the scoring only has to be good enough to put the obvious hit first.

use vstd::prelude::*;

use crate::text;
use crate::text::{chars_of, lower_char};

verus! {

/// Characters scanned per entry before giving up.
///
/// A clipboard entry can be an entire file. Scoring all of it on every
/// keystroke is what would make the palette feel slow, and a match thousands of
/// characters into a blob isn't something you'd recognise in a one-line preview.
pub const SCAN_LIMIT: usize = 4096;

/// Every matched character is worth this much before bonuses.
pub const BASE: i32 = 1;

/// Adjacent to the previous match. This has to outweigh [`WORD_START`], or a
/// query spread across word boundaries ("h e l l o") outranks the contiguous
/// run the user actually meant.
pub const CONSECUTIVE: i32 = 15;

/// First character after a separator.
pub const WORD_START: i32 = 10;

/// A lowercase-to-uppercase transition, for camelCase identifiers.
pub const CAMEL_HUMP: i32 = 6;

/// Matching the very first character of the entry.
pub const LEADING: i32 = 12;

/// Charged per skipped character, so tight matches win.
pub const GAP_PENALTY: i32 = 1;

/// Ceiling on the gap penalty, so one huge gap can't dominate the score.
pub const MAX_GAP_PENALTY: i32 = 10;

/// The part of an entry that is looked at: its first [`SCAN_LIMIT`] characters.
pub open spec fn scanned(text: Seq<char>) -> Seq<char> {
    if text.len() <= SCAN_LIMIT {
        text
    } else {
        text.take(SCAN_LIMIT as int)
    }
}

/// `c` counts as the needle character `n`: its lowercase form is `n` alone.
pub open spec fn folds(c: char, n: char) -> bool {
    text::folded_char(c) == seq![n]
}

/// Where the needle is found in `hay` from position `from` on, each character
/// at the earliest place left for it; `None` where some character has no place.
pub open spec fn greedy(needle: Seq<char>, hay: Seq<char>, from: int) -> Option<Seq<int>>
    decreases hay.len() - from,
{
    if needle.len() == 0 {
        Some(seq![])
    } else if from >= hay.len() {
        None
    } else if folds(hay[from], needle[0]) {
        after(seq![from], greedy(needle.drop_first(), hay, from + 1))
    } else {
        greedy(needle, hay, from + 1)
    }
}

/// `found`, and then what was found later, if that was found at all.
pub open spec fn after(found: Seq<int>, later: Option<Seq<int>>) -> Option<Seq<int>> {
    match later {
        Some(p) => Some(found + p),
        None => None,
    }
}

/// What the place of a match adds: the start of the entry, the start of a word,
/// or a hump of a camelCase name.
pub open spec fn place_bonus(hay: Seq<char>, at: int) -> int {
    if at == 0 {
        LEADING as int
    } else if !text::word_char(hay[at - 1]) {
        WORD_START as int
    } else if text::lower_letter(hay[at - 1]) && text::upper_letter(hay[at]) {
        CAMEL_HUMP as int
    } else {
        0
    }
}

/// What the distance to the match before it adds: a bonus right behind it, and
/// a bounded charge for the characters skipped.
pub open spec fn distance_bonus(previous: int, at: int) -> int {
    let gap = at - previous - 1;
    if gap == 0 {
        CONSECUTIVE as int
    } else if gap * GAP_PENALTY < MAX_GAP_PENALTY {
        -gap * GAP_PENALTY
    } else {
        -(MAX_GAP_PENALTY as int)
    }
}

/// What the `k`th match is worth.
pub open spec fn worth(hay: Seq<char>, positions: Seq<int>, k: int) -> int {
    BASE + place_bonus(hay, positions[k]) + if k > 0 {
        distance_bonus(positions[k - 1], positions[k])
    } else {
        0
    }
}

/// What all the matches are worth together.
pub open spec fn points(hay: Seq<char>, positions: Seq<int>) -> int
    decreases positions.len(),
{
    if positions.len() == 0 {
        0
    } else {
        points(hay, positions.drop_last()) + worth(hay, positions, positions.len() - 1)
    }
}

/// The score of `text` for `query`: 0 for an empty query, and otherwise what
/// the earliest matches of the lowercased query are worth, if it is there.
pub open spec fn score_of(query: Seq<char>, text: Seq<char>) -> Option<int> {
    if query.len() == 0 {
        Some(0)
    } else {
        match greedy(text::folded_text(query), scanned(text), 0) {
            Some(p) => Some(points(scanned(text), p)),
            None => None,
        }
    }
}

proof fn lemma_points_push(hay: Seq<char>, positions: Seq<int>, at: int)
    ensures
        points(hay, positions.push(at)) == points(hay, positions) + BASE + place_bonus(hay, at) + if positions.len() > 0 {
            distance_bonus(positions.last(), at)
        } else {
            0
        },
{
    let longer = positions.push(at);
    assert(longer.drop_last() == positions);
}

/// Scores `text` against `query`, or `None` if the query isn't a subsequence.
/// Higher is better. An empty query matches everything at a flat score.
///
/// The scan is greedy, taking the earliest match for each character. Searching
/// `gcm` locks onto the `m` inside "co**m**mit" rather than the `-m` that was
/// meant, so that entry scores lower than it deserves.
pub fn score(query: &str, text: &str) -> (r: Option<i32>)
    ensures
        r is Some <==> score_of(query@, text@) is Some,
        r matches Some(v) ==> score_of(query@, text@) == Some(v as int),
{
    if query.is_empty() {
        return Some(0);
    }
    let lowered: String = query.to_lowercase();
    let needle: Vec<char> = chars_of(lowered.as_str());
    let mut hay: Vec<char> = chars_of(text);
    hay.truncate(SCAN_LIMIT);
    assert(hay@ == scanned(text@));

    let mut total: i32 = 0;
    let mut matched: usize = 0;
    let mut previous: Option<usize> = None;
    let mut index: usize = 0;
    let ghost mut found: Seq<int> = seq![];

    assert(needle@.skip(0) == needle@);
    proof {
        match greedy(needle@, hay@, 0) {
            Some(p) => {
                assert(found + p == p);
            },
            None => {},
        }
    }
    while index < hay.len() && matched < needle.len()
        invariant
            index <= hay@.len() <= SCAN_LIMIT,
            matched <= index,
            matched <= needle@.len(),
            matched == found.len(),
            greedy(needle@, hay@, 0) == after(found, greedy(needle@.skip(matched as int), hay@, index as int)),
            total == points(hay@, found),
            -10 * matched <= total <= 43 * matched,
            previous is None <==> found.len() == 0,
            previous matches Some(p) ==> p == found.last() && p < index,
        decreases hay.len() - index,
    {
        let raw: char = hay[index];
        let ghost rest = needle@.skip(matched as int);
        let lower: Vec<char> = chars_of(lower_char(raw).as_str());
        if lower.len() == 1 && lower[0] == needle[matched] {
            assert(lower@ == seq![rest[0]]);
            let mut bonus: i32 = BASE;
            if index == 0 {
                bonus = bonus + LEADING;
            } else {
                let before: char = hay[index - 1];
                if !before.is_alphanumeric() {
                    // Start of a word: usually what someone is aiming at.
                    bonus = bonus + WORD_START;
                } else if before.is_lowercase() && raw.is_uppercase() {
                    bonus = bonus + CAMEL_HUMP;
                }
            }
            let mut charge: i32 = 0;
            if let Some(p) = previous {
                let gap: usize = index - p - 1;
                if gap == 0 {
                    // Runs of adjacent characters are the strongest signal that
                    // this is the match the user meant.
                    bonus = bonus + CONSECUTIVE;
                }
                let full: i32 = gap as i32 * GAP_PENALTY;
                charge = if full < MAX_GAP_PENALTY {
                    full
                } else {
                    MAX_GAP_PENALTY
                };
            }
            proof {
                lemma_points_push(hay@, found, index as int);
                assert(needle@.skip(matched + 1) == rest.drop_first());
                match greedy(rest.drop_first(), hay@, index + 1) {
                    Some(p) => {
                        assert(found + (seq![index as int] + p) == found.push(index as int) + p);
                    },
                    None => {},
                }
                found = found.push(index as int);
            }
            total = total - charge + bonus;
            previous = Some(index);
            matched += 1;
        } else {
            assert(!folds(raw, rest[0])) by {
                if folds(raw, rest[0]) {
                    assert(lower@ == seq![rest[0]]);
                    assert(lower@.len() == 1 && lower@[0] == rest[0]);
                }
            }
        }
        index += 1;
    }
    if matched == needle.len() {
        assert(found + Seq::<int>::empty() == found);
        Some(total)
    } else {
        None
    }
}

/// The needle lies in `hay` at `positions`, in order.
pub open spec fn embeds(needle: Seq<char>, hay: Seq<char>, positions: Seq<int>) -> bool {
    &&& positions.len() == needle.len()
    &&& forall|k: int|
        0 <= k < needle.len() ==> 0 <= #[trigger] positions[k] < hay.len() && folds(
            hay[positions[k]],
            needle[k],
        )
    &&& forall|j: int, k: int|
        0 <= j < k < positions.len() ==> #[trigger] positions[j] < #[trigger] positions[k]
}

proof fn lemma_greedy_embeds(needle: Seq<char>, hay: Seq<char>, from: int)
    requires
        0 <= from,
    ensures
        greedy(needle, hay, from) matches Some(p) ==> embeds(needle, hay, p) && (p.len() > 0 ==> p[0]
            >= from),
    decreases hay.len() - from,
{
    if needle.len() > 0 && from < hay.len() {
        if folds(hay[from], needle[0]) {
            lemma_greedy_embeds(needle.drop_first(), hay, from + 1);
            if let Some(q) = greedy(needle.drop_first(), hay, from + 1) {
                let p = seq![from] + q;
                assert forall|k: int| 0 <= k < needle.len() implies 0 <= #[trigger] p[k]
                    < hay.len() && folds(hay[p[k]], needle[k]) by {
                    if k > 0 {
                        assert(p[k] == q[k - 1]);
                        assert(needle[k] == needle.drop_first()[k - 1]);
                    }
                }
                assert forall|j: int, k: int| 0 <= j < k < p.len() implies #[trigger] p[j]
                    < #[trigger] p[k] by {
                    assert(p[k] == q[k - 1]);
                    if j > 0 {
                        assert(p[j] == q[j - 1]);
                    } else if k > 1 {
                        assert(q[0] < q[k - 1]);
                    }
                }
            }
        } else {
            lemma_greedy_embeds(needle, hay, from + 1);
        }
    }
}

proof fn lemma_embedded_is_found(needle: Seq<char>, hay: Seq<char>, from: int, p: Seq<int>)
    requires
        0 <= from,
        embeds(needle, hay, p),
        p.len() > 0 ==> p[0] >= from,
    ensures
        greedy(needle, hay, from) is Some,
    decreases hay.len() - from,
{
    if needle.len() > 0 {
        assert(p[0] < hay.len());
        if folds(hay[from], needle[0]) {
            let rest = needle.drop_first();
            let q = p.drop_first();
            assert forall|k: int| 0 <= k < rest.len() implies 0 <= #[trigger] q[k] < hay.len()
                && folds(hay[q[k]], rest[k]) by {
                assert(q[k] == p[k + 1]);
            }
            assert forall|j: int, k: int| 0 <= j < k < q.len() implies #[trigger] q[j]
                < #[trigger] q[k] by {
                assert(q[j] == p[j + 1] && q[k] == p[k + 1]);
            }
            if q.len() > 0 {
                assert(q[0] == p[1]);
            }
            lemma_embedded_is_found(rest, hay, from + 1, q);
        } else {
            assert(p[0] != from) by {
                if p[0] == from {
                    assert(folds(hay[p[0]], needle[0]));
                }
            }
            lemma_embedded_is_found(needle, hay, from + 1, p);
        }
    }
}

/// An entry has a score exactly when the lowercased query is a subsequence of
/// the part of it that is scanned: taking the earliest match for each character
/// never misses one.
pub proof fn law_scored_iff_subsequence(query: Seq<char>, entry: Seq<char>)
    requires
        query.len() > 0,
    ensures
        score_of(query, entry) is Some <==> exists|p: Seq<int>|
            embeds(text::folded_text(query), scanned(entry), p),
{
    let needle = text::folded_text(query);
    let hay = scanned(entry);
    lemma_greedy_embeds(needle, hay, 0);
    if exists|p: Seq<int>| embeds(needle, hay, p) {
        let p = choose|p: Seq<int>| embeds(needle, hay, p);
        if p.len() > 0 {
            assert(0 <= p[0]);
        }
        lemma_embedded_is_found(needle, hay, 0, p);
    }
}

/// An entry that holds the query as one piece, within the part of it that is
/// scanned, is found, whatever the case of its letters, as long as each of those
/// letters folds to the one character that the query has there.
pub proof fn law_substring_is_found(query: Seq<char>, entry: Seq<char>, at: int)
    requires
        0 <= at,
        at + text::folded_text(query).len() <= scanned(entry).len(),
        forall|k: int|
            0 <= k < text::folded_text(query).len() ==> folds(
                #[trigger] scanned(entry)[at + k],
                text::folded_text(query)[k],
            ),
    ensures
        score_of(query, entry) is Some,
{
    if query.len() > 0 {
        let needle = text::folded_text(query);
        let hay = scanned(entry);
        let p = Seq::new(needle.len(), |k: int| at + k);
        assert forall|k: int| 0 <= k < needle.len() implies 0 <= #[trigger] p[k] < hay.len()
            && folds(hay[p[k]], needle[k]) by {
            assert(hay[p[k]] == scanned(entry)[at + k]);
        }
        assert(embeds(needle, hay, p));
        lemma_embedded_is_found(needle, hay, 0, p);
    }
}

/// The case of a query makes no difference: two queries with the same lowercase
/// form score every entry alike.
pub proof fn law_query_case_is_ignored(a: Seq<char>, b: Seq<char>, entry: Seq<char>)
    requires
        text::folded_text(a) == text::folded_text(b),
    ensures
        score_of(a, entry) == score_of(b, entry),
{
}

/// Nothing past the scan limit has any influence: entries that agree up to it
/// score alike.
pub proof fn law_only_the_scanned_part_counts(query: Seq<char>, a: Seq<char>, b: Seq<char>)
    requires
        scanned(a) == scanned(b),
    ensures
        score_of(query, a) == score_of(query, b),
{
}

proof fn lemma_run_points(hay: Seq<char>, p: Seq<int>)
    requires
        adjacent(p),
    ensures
        p.len() > 0 ==> points(hay, p) >= 16 * p.len() - 15,
    decreases p.len(),
{
    if p.len() > 0 {
        let shorter = p.drop_last();
        let k = p.len() - 1;
        assert forall|j: int| 1 <= j < shorter.len() implies #[trigger] shorter[j] == shorter[j - 1]
            + 1 by {
            assert(p[j] == p[j - 1] + 1);
        }
        lemma_run_points(hay, shorter);
        assert(points(hay, p) == points(hay, shorter) + worth(hay, p, k));
        if k > 0 {
            assert(p[k] == p[k - 1] + 1);
        }
    }
}

proof fn lemma_scattered_points(hay: Seq<char>, p: Seq<int>)
    requires
        scattered(p),
        p.len() > 0 ==> p[0] >= 0,
    ensures
        p.len() > 0 ==> points(hay, p) <= 10 * p.len() + 3,
        p.len() > 0 ==> p.last() >= 0,
    decreases p.len(),
{
    if p.len() > 0 {
        let shorter = p.drop_last();
        let k = p.len() - 1;
        assert forall|j: int| 1 <= j < shorter.len() implies #[trigger] shorter[j] > shorter[j - 1]
            + 1 by {
            assert(p[j] > p[j - 1] + 1);
        }
        lemma_scattered_points(hay, shorter);
        assert(points(hay, p) == points(hay, shorter) + worth(hay, p, k));
        if k > 0 {
            assert(p[k] > p[k - 1] + 1);
            assert(p[k - 1] == shorter.last());
            assert(distance_bonus(p[k - 1], p[k]) <= -1);
        }
    }
}

/// Each position right behind the one before it.
pub open spec fn adjacent(positions: Seq<int>) -> bool {
    forall|k: int| 1 <= k < positions.len() ==> #[trigger] positions[k] == positions[k - 1] + 1
}

/// No position right behind the one before it.
pub open spec fn scattered(positions: Seq<int>) -> bool {
    forall|k: int| 1 <= k < positions.len() ==> #[trigger] positions[k] > positions[k - 1] + 1
}

/// A query of four characters or more that is there in one piece outscores any
/// match of as many characters in which no two are adjacent, wherever the two
/// matches lie.
pub proof fn law_a_run_outscores_a_scatter(
    hay: Seq<char>,
    run: Seq<int>,
    other: Seq<char>,
    scatter: Seq<int>,
)
    requires
        run.len() == scatter.len(),
        run.len() >= 4,
        adjacent(run),
        scattered(scatter),
        scatter[0] >= 0,
    ensures
        points(hay, run) > points(other, scatter),
{
    lemma_run_points(hay, run);
    lemma_scattered_points(other, scatter);
}

/// The first 4096 characters of an entry are looked at, and no others.
pub proof fn law_scan_stops_at_the_limit(entry: Seq<char>)
    ensures
        entry.len() <= 4096 ==> scanned(entry) == entry,
        entry.len() > 4096 ==> scanned(entry) == entry.take(4096),
{
}

/// An entry is found exactly where the characters of the lowercased query stand
/// among its first 4096, in order and whatever their case. An empty query finds
/// everything.
pub proof fn law_found_iff_the_letters_are_there_in_order(query: Seq<char>, entry: Seq<char>)
    ensures
        score_of(Seq::empty(), entry) == Some(0int),
        query.len() > 0 ==> (score_of(query, entry) is Some <==> exists|p: Seq<int>|
            #![trigger p.len()]
            p.len() == text::folded_text(query).len() && (forall|k: int|
                0 <= k < p.len() ==> 0 <= #[trigger] p[k] < entry.len() && p[k] < 4096
                    && text::folded_char(entry[p[k]]) == seq![text::folded_text(query)[k]]) && (
            forall|j: int, k: int|
                0 <= j < k < p.len() ==> #[trigger] p[j] < #[trigger] p[k])),
{
    if query.len() > 0 {
        let needle = text::folded_text(query);
        let hay = scanned(entry);
        law_scored_iff_subsequence(query, entry);
        if score_of(query, entry) is Some {
            let p = choose|p: Seq<int>| embeds(needle, hay, p);
            assert(p.len() == needle.len());
            assert forall|k: int| 0 <= k < p.len() implies 0 <= #[trigger] p[k] < entry.len()
                && p[k] < 4096 && text::folded_char(entry[p[k]]) == seq![needle[k]] by {
                assert(folds(hay[p[k]], needle[k]));
            }
        }
        if exists|p: Seq<int>|
            #![trigger p.len()]
            p.len() == needle.len() && (forall|k: int|
                0 <= k < p.len() ==> 0 <= #[trigger] p[k] < entry.len() && p[k] < 4096
                    && text::folded_char(entry[p[k]]) == seq![needle[k]]) && (forall|j: int, k: int|
                0 <= j < k < p.len() ==> #[trigger] p[j] < #[trigger] p[k]) {
            let p = choose|p: Seq<int>|
                #![trigger p.len()]
                p.len() == needle.len() && (forall|k: int|
                    0 <= k < p.len() ==> 0 <= #[trigger] p[k] < entry.len() && p[k] < 4096
                        && text::folded_char(entry[p[k]]) == seq![needle[k]]) && (forall|
                    j: int,
                    k: int,
                |
                    0 <= j < k < p.len() ==> #[trigger] p[j] < #[trigger] p[k]);
            assert forall|k: int| 0 <= k < needle.len() implies 0 <= #[trigger] p[k] < hay.len()
                && folds(hay[p[k]], needle[k]) by {
                assert(hay[p[k]] == entry[p[k]]);
            }
            assert(embeds(needle, hay, p));
        }
    }
}

proof fn lemma_greedy_is_earliest(
    needle: Seq<char>,
    hay: Seq<char>,
    from: int,
    p: Seq<int>,
    q: Seq<int>,
)
    requires
        0 <= from,
        embeds(needle, hay, p),
        p.len() > 0 ==> p[0] >= from,
        greedy(needle, hay, from) == Some(q),
    ensures
        q.len() == needle.len(),
        forall|k: int| 0 <= k < needle.len() ==> #[trigger] q[k] <= p[k],
    decreases hay.len() - from,
{
    if needle.len() > 0 {
        assert(p[0] < hay.len());
        if folds(hay[from], needle[0]) {
            let rest = needle.drop_first();
            let later = p.drop_first();
            assert forall|k: int| 0 <= k < rest.len() implies 0 <= #[trigger] later[k] < hay.len()
                && folds(hay[later[k]], rest[k]) by {
                assert(later[k] == p[k + 1]);
            }
            assert forall|j: int, k: int| 0 <= j < k < later.len() implies #[trigger] later[j]
                < #[trigger] later[k] by {
                assert(later[j] == p[j + 1] && later[k] == p[k + 1]);
            }
            if later.len() > 0 {
                assert(later[0] == p[1]);
            }
            let found = greedy(rest, hay, from + 1)->0;
            lemma_greedy_is_earliest(rest, hay, from + 1, later, found);
            assert(q == seq![from] + found);
            assert forall|k: int| 0 <= k < needle.len() implies #[trigger] q[k] <= p[k] by {
                if k > 0 {
                    assert(q[k] == found[k - 1]);
                    assert(found[k - 1] <= later[k - 1]);
                }
            }
        } else {
            assert(p[0] != from) by {
                if p[0] == from {
                    assert(folds(hay[p[0]], needle[0]));
                }
            }
            lemma_greedy_is_earliest(needle, hay, from + 1, p, q);
        }
    }
}

/// The score is what the earliest places are worth: wherever the query lies in an
/// entry, it is scored at places of which none lies further back.
pub proof fn law_earliest_places_are_scored(query: Seq<char>, entry: Seq<char>, p: Seq<int>)
    requires
        query.len() > 0,
        p.len() == text::folded_text(query).len(),
        forall|k: int|
            0 <= k < p.len() ==> 0 <= #[trigger] p[k] < entry.len() && p[k] < 4096
                && text::folded_char(entry[p[k]]) == seq![text::folded_text(query)[k]],
        forall|j: int, k: int| 0 <= j < k < p.len() ==> #[trigger] p[j] < #[trigger] p[k],
    ensures
        exists|q: Seq<int>| #[trigger]
            points(entry, q) == score_of(query, entry)->0 && score_of(query, entry) is Some
                && q.len() == p.len() && (forall|k: int|
                0 <= k < q.len() ==> 0 <= #[trigger] q[k] <= p[k] && text::folded_char(entry[q[k]])
                    == seq![text::folded_text(query)[k]]) && (forall|j: int, k: int|
                0 <= j < k < q.len() ==> #[trigger] q[j] < #[trigger] q[k]),
{
    let needle = text::folded_text(query);
    let hay = scanned(entry);
    assert forall|k: int| 0 <= k < needle.len() implies 0 <= #[trigger] p[k] < hay.len() && folds(
        hay[p[k]],
        needle[k],
    ) by {
        assert(hay[p[k]] == entry[p[k]]);
    }
    assert(embeds(needle, hay, p));
    if p.len() > 0 {
        assert(0 <= p[0]);
    }
    lemma_embedded_is_found(needle, hay, 0, p);
    let q = greedy(needle, hay, 0)->0;
    lemma_greedy_embeds(needle, hay, 0);
    lemma_greedy_is_earliest(needle, hay, 0, p, q);
    assert(hay =~= entry.take(hay.len() as int));
    lemma_points_in_the_scanned_part(hay, entry, q);
    assert forall|k: int| 0 <= k < q.len() implies 0 <= #[trigger] q[k] <= p[k]
        && text::folded_char(entry[q[k]]) == seq![needle[k]] by {
        assert(folds(hay[q[k]], needle[k]));
    }
    assert(points(entry, q) == score_of(query, entry)->0);
}

proof fn lemma_points_in_the_scanned_part(hay: Seq<char>, entry: Seq<char>, p: Seq<int>)
    requires
        hay.len() <= entry.len(),
        hay == entry.take(hay.len() as int),
        forall|k: int| 0 <= k < p.len() ==> 0 <= #[trigger] p[k] < hay.len(),
    ensures
        points(hay, p) == points(entry, p),
    decreases p.len(),
{
    if p.len() > 0 {
        let before = p.drop_last();
        assert forall|k: int| 0 <= k < before.len() implies 0 <= #[trigger] before[k] < hay.len() by {
            assert(before[k] == p[k]);
        }
        lemma_points_in_the_scanned_part(hay, entry, before);
        let at = p[p.len() - 1];
        assert(0 <= at < hay.len());
        assert(hay[at] == entry[at]);
        if at > 0 {
            assert(hay[at - 1] == entry[at - 1]);
        }
    }
}

/// What each match adds to the score: 1, with 12 more at the very start of the
/// entry, 10 more at the start of a word or 6 more at the hump of a camelCase name;
/// 15 more right behind the match before it, and otherwise one less for every
/// character skipped, but never more than 10 less.
pub proof fn law_matches_add_up(hay: Seq<char>, positions: Seq<int>, at: int)
    requires
        0 <= at < hay.len(),
        positions.len() > 0 ==> 0 <= positions.last() < at,
    ensures
        points(hay, Seq::empty()) == 0,
        ({
            let placed: int = if at == 0 {
                12
            } else if !text::word_char(hay[at - 1]) {
                10
            } else if text::lower_letter(hay[at - 1]) && text::upper_letter(hay[at]) {
                6
            } else {
                0
            };
            let skipped: int = at - positions.last() - 1;
            let moved: int = if positions.len() == 0 {
                0
            } else if skipped == 0 {
                15
            } else if skipped < 10 {
                -skipped
            } else {
                -10
            };
            points(hay, positions.push(at)) == points(hay, positions) + 1 + placed + moved
        }),
{
    lemma_points_push(hay, positions, at);
}

} // verus!
