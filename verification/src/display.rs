//! Turns history entries into single safe terminal lines.

use vstd::prelude::*;

use crate::clock;
use crate::clock::{ask_local_offset, parse_rfc3339, render_time};
use crate::history::HistoryEntry;
use crate::text;
use crate::text::{chars_of, decimal_text};

verus! {

/// Max width, in characters, of a rendered content preview.
pub const PREVIEW_WIDTH: usize = 80;

/// Width that an index is padded to, on the left.
pub const INDEX_WIDTH: usize = 5;

/// A character that a preview never shows as it is.
pub open spec fn gap(c: char) -> bool {
    text::white_space(c) || text::control(c)
}

/// `s` on one line: every run of gaps between other characters is one space, and
/// none is left at either end.
pub open spec fn flat(s: Seq<char>) -> Seq<char>
    decreases s.len(),
{
    if s.len() == 0 {
        seq![]
    } else {
        let before = s.drop_last();
        let c = s.last();
        if gap(c) {
            flat(before)
        } else if flat(before).len() > 0 && gap(before.last()) {
            flat(before).push(' ').push(c)
        } else {
            flat(before).push(c)
        }
    }
}

/// What a preview of `content` in at most `max_chars` characters shows: the
/// content on one line, cut with an ellipsis where it is too long.
pub open spec fn preview_of(content: Seq<char>, max_chars: nat) -> Seq<char> {
    if max_chars == 0 {
        seq![]
    } else if flat(content).len() <= max_chars {
        flat(content)
    } else {
        flat(content).take(max_chars - 1).push('…')
    }
}

proof fn lemma_flat_grows(s: Seq<char>, i: int)
    requires
        0 <= i <= s.len(),
    ensures
        flat(s.take(i)).len() <= flat(s).len(),
        flat(s).take(flat(s.take(i)).len() as int) == flat(s.take(i)),
    decreases s.len() - i,
{
    if i == s.len() {
        assert(s.take(i) == s);
        assert(flat(s).take(flat(s).len() as int) == flat(s));
    } else {
        lemma_flat_grows(s, i + 1);
        let longer = s.take(i + 1);
        assert(longer.drop_last() == s.take(i));
        let n = flat(s.take(i)).len() as int;
        let m = flat(longer).len() as int;
        assert(flat(longer).take(n) == flat(s.take(i)));
        assert(flat(s).take(m).take(n) == flat(s).take(n));
    }
}

/// Flattens `content` to a single line and truncates it to `max_chars`.
///
/// Every run of whitespace and control characters collapses to one space, so a
/// multi-line entry (or one carrying escape sequences) can't wreck the terminal
/// layout. Truncation counts characters rather than bytes so a UTF-8 sequence is
/// never split; the trailing ellipsis fits inside `max_chars`.
pub fn preview(content: &str, max_chars: usize) -> (r: String)
    ensures
        r@ == preview_of(content@, max_chars as nat),
{
    if max_chars == 0 {
        return String::new();
    }
    let chars: Vec<char> = chars_of(content);
    let mut out = String::new();
    let mut len: usize = 0;  // characters pushed so far
    let mut pending_space: bool = false;
    let mut i: usize = 0;
    while i < chars.len()
        invariant
            chars@ == content@,
            i <= chars@.len(),
            max_chars > 0,
            out@ == flat(content@.take(i as int)),
            len == out@.len(),
            len <= max_chars,
            pending_space == (len > 0 && i > 0 && gap(content@[i - 1])),
        decreases chars.len() - i,
    {
        let c: char = chars[i];
        let ghost longer = content@.take(i + 1);
        proof {
            assert(longer.drop_last() == content@.take(i as int));
            assert(longer.last() == c);
            lemma_flat_grows(content@, i + 1);
        }
        if c.is_whitespace() || c.is_control() {
            // Note the gap, but only emit it once real text follows: that
            // drops leading and trailing padding for free.
            pending_space = len > 0;
        } else {
            let needed: usize = if pending_space {
                2
            } else {
                1
            };
            if needed > max_chars - len {
                assert(flat(content@).len() > max_chars);
                if len == max_chars {
                    out.pop();
                }
                assert(out@ =~= flat(longer).take(max_chars - 1));
                assert(out@ =~= flat(content@).take(max_chars - 1)) by {
                    let m = flat(longer).len() as int;
                    assert(flat(content@).take(m).take(max_chars - 1) =~= flat(content@).take(
                        max_chars - 1,
                    ));
                }
                out.push('…');
                return out;
            }
            if pending_space {
                out.push(' ');
                len += 1;
                pending_space = false;
            }
            out.push(c);
            len += 1;
        }
        i += 1;
    }
    assert(content@.take(i as int) == content@);
    out
}

proof fn lemma_flat_is_no_longer(s: Seq<char>)
    ensures
        flat(s).len() <= s.len(),
        s.len() > 0 && gap(s.last()) ==> flat(s).len() < s.len(),
    decreases s.len(),
{
    if s.len() > 0 {
        lemma_flat_is_no_longer(s.drop_last());
    }
}

/// `s` on one line, none of it cut off.
fn flattened(s: &str) -> (r: String)
    ensures
        r@ == flat(s@),
{
    let width: usize = chars_of(s).len();
    proof {
        lemma_flat_is_no_longer(s@);
    }
    preview(s, width)
}

/// What is shown for the stored timestamp `raw` at an offset from UTC: the moment
/// it names, or `raw` itself where it names none.
pub open spec fn timestamp_of(raw: Seq<char>, offset: i32) -> Seq<char> {
    match clock::rfc3339_instant(raw) {
        Some(at) => clock::rendered_time(at.0, at.1, offset)->0,
        None => raw,
    }
}

/// What is shown for the stored timestamp `raw`: the moment it names, at the
/// offset that the machine's time zone has then, or `raw` itself where it names
/// none.
pub open spec fn timestamp_shown(raw: Seq<char>, shown: Seq<char>) -> bool {
    match clock::rfc3339_instant(raw) {
        Some(at) => exists|offset: i32|
            -86_400 < offset < 86_400 && #[trigger] clock::local_offset_at(at.0, offset) && shown
                == timestamp_of(raw, offset),
        None => shown == raw,
    }
}

/// Renders the stored RFC 3339 timestamp at an offset from UTC, in seconds.
/// Falls back to the raw value so a malformed timestamp still shows its row.
pub fn timestamp_at(raw: &str, offset: i32) -> (r: String)
    requires
        -86_400 < offset < 86_400,
    ensures
        r@ == timestamp_of(raw@, offset),
        match clock::rfc3339_instant(raw@) {
            Some(at) => clock::rendered_time(at.0, at.1, offset) == Some(r@),
            None => r@ == raw@,
        },
{
    match parse_rfc3339(raw) {
        Some((seconds, nanos)) => match render_time(seconds, nanos, offset) {
            Some(shown) => shown,
            None => raw.to_owned(),
        },
        None => raw.to_owned(),
    }
}

/// Renders the stored RFC 3339 timestamp in the local timezone.
/// Falls back to the raw value so a malformed timestamp still shows its row.
pub fn format_timestamp(raw: &str) -> (r: String)
    ensures
        timestamp_shown(raw@, r@),
        match clock::rfc3339_instant(raw@) {
            Some(at) => exists|offset: i32| #[trigger]
                clock::local_offset_at(at.0, offset) && clock::rendered_time(at.0, at.1, offset)
                    == Some(r@),
            None => r@ == raw@,
        },
{
    match parse_rfc3339(raw) {
        Some((seconds, _)) => timestamp_at(raw, ask_local_offset(seconds)),
        None => raw.to_owned(),
    }
}

/// `n` copies of a space.
pub open spec fn spaces(n: nat) -> Seq<char> {
    Seq::new(n, |i: int| ' ')
}

/// `index` in decimal, padded on the left to [`INDEX_WIDTH`].
pub open spec fn padded_index(index: nat) -> Seq<char> {
    let digits = text::decimal(index);
    if digits.len() < INDEX_WIDTH {
        spaces((INDEX_WIDTH - digits.len()) as nat) + digits
    } else {
        digits
    }
}

/// One line of a listing: `index  timestamp  preview`. The time is flattened too,
/// since a timestamp that names no moment is shown as it was stored.
pub open spec fn entry_line_of(index: nat, shown: Seq<char>, content: Seq<char>) -> Seq<char> {
    padded_index(index) + spaces(2) + flat(shown) + spaces(2) + preview_of(
        content,
        PREVIEW_WIDTH as nat,
    )
}

fn push_spaces(out: &mut String, n: usize)
    ensures
        final(out)@ == old(out)@ + spaces(n as nat),
{
    let ghost before = out@;
    let mut i: usize = 0;
    while i < n
        invariant
            i <= n,
            out@ == before + spaces(i as nat),
        decreases n - i,
    {
        out.push(' ');
        i += 1;
        assert(out@ =~= before + spaces(i as nat));
    }
    assert(out@ =~= before + spaces(n as nat));
}

/// The line of a listing for the entry at `index`, with `shown` for its time.
pub fn entry_line(index: usize, shown: &str, content: &str) -> (r: String)
    ensures
        r@ == entry_line_of(index as nat, shown@, content@),
        forall|i: int| 0 <= i < r@.len() ==> !text::control(#[trigger] r@[i]),
{
    let digits = decimal_text(index as u64);
    let written: Vec<char> = chars_of(digits.as_str());
    let mut out = String::new();
    if written.len() < INDEX_WIDTH {
        push_spaces(&mut out, INDEX_WIDTH - written.len());
    }
    out.append(digits.as_str());
    assert(out@ =~= padded_index(index as nat));
    push_spaces(&mut out, 2);
    out.append(flattened(shown).as_str());
    push_spaces(&mut out, 2);
    out.append(preview(content, PREVIEW_WIDTH).as_str());
    proof {
        law_entry_line_is_safe(index as nat, shown@, content@);
        assert(out@ == entry_line_of(index as nat, shown@, content@));
    }
    out
}

/// One history entry as `index  timestamp  preview`, on a single line that is
/// safe to print.
pub fn format_entry(index: usize, entry: &HistoryEntry) -> (r: String)
    ensures
        forall|i: int| 0 <= i < r@.len() ==> !text::control(#[trigger] r@[i]),
        exists|shown: Seq<char>| #[trigger]
            timestamp_shown(entry.timestamp@, shown) && r@ == entry_line_of(
                index as nat,
                shown,
                entry.content@,
            ),
{
    let shown = format_timestamp(entry.timestamp.as_str());
    entry_line(index, shown.as_str(), entry.content.as_str())
}

/// A line that a preview leaves as it is: its only gaps are single spaces
/// between other characters.
pub open spec fn tidy(s: Seq<char>) -> bool {
    &&& forall|i: int| 0 <= i < s.len() && gap(#[trigger] s[i]) ==> s[i] == ' '
    &&& forall|i: int| 0 < i < s.len() && gap(#[trigger] s[i]) ==> !gap(s[i - 1])
    &&& s.len() > 0 ==> !gap(s.first()) && !gap(s.last())
}

proof fn lemma_flat_is_tidy(s: Seq<char>)
    ensures
        tidy(flat(s)),
        forall|i: int| 0 <= i < flat(s).len() ==> #[trigger] flat(s)[i] == ' ' || s.contains(flat(s)[i]),
    decreases s.len(),
{
    if s.len() > 0 {
        let before = s.drop_last();
        lemma_flat_is_tidy(before);
        let f = flat(s);
        let g = flat(before);
        assert forall|i: int| 0 <= i < f.len() implies #[trigger] f[i] == ' ' || s.contains(f[i]) by {
            if i < g.len() {
                assert(f[i] == g[i]);
                if g[i] != ' ' {
                    let k = choose|k: int| 0 <= k < before.len() && before[k] == g[i];
                    assert(s[k] == f[i]);
                }
            } else if f[i] != ' ' {
                assert(s[s.len() - 1] == f[i]);
            }
        }
        assert forall|i: int| 0 <= i < f.len() && gap(#[trigger] f[i]) implies f[i] == ' ' by {
            if i < g.len() {
                assert(f[i] == g[i]);
            }
        }
        assert forall|i: int| 0 < i < f.len() && gap(#[trigger] f[i]) implies !gap(f[i - 1]) by {
            if i < g.len() {
                assert(f[i] == g[i]);
                assert(f[i - 1] == g[i - 1]);
            } else {
                assert(f[i - 1] == g.last());
            }
        }
        if g.len() > 0 {
            assert(f.first() == g.first());
        }
    }
}

proof fn lemma_tidy_prefix(t: Seq<char>, i: int)
    requires
        tidy(t),
        0 <= i <= t.len(),
    ensures
        flat(t.take(i)) == if i > 0 && gap(t[i - 1]) {
            t.take(i - 1)
        } else {
            t.take(i)
        },
    decreases i,
{
    if i > 0 {
        lemma_tidy_prefix(t, i - 1);
        let p = t.take(i);
        assert(p.drop_last() == t.take(i - 1));
        assert(p.last() == t[i - 1]);
        if gap(t[i - 1]) {
            assert(i > 1 ==> !gap(t[i - 2]));
        } else {
            if i > 1 && gap(t[i - 2]) {
                assert(t.take(i - 1).last() == t[i - 2]);
                assert(i > 2) by {
                    if i == 2 {
                        assert(t[0] == t.first());
                    }
                }
                assert(t.take(i - 2).push(' ').push(t[i - 1]) =~= t.take(i));
            } else if i > 1 {
                assert(t.take(i - 1).last() == t[i - 2]);
                assert(t.take(i - 1).push(t[i - 1]) =~= t.take(i));
            } else {
                assert(t.take(i - 1).push(t[i - 1]) =~= t.take(i));
            }
        }
    } else {
        assert(t.take(0) == Seq::<char>::empty());
    }
}

proof fn lemma_tidy_is_flat(t: Seq<char>)
    requires
        tidy(t),
    ensures
        flat(t) == t,
{
    lemma_tidy_prefix(t, t.len() as int);
    assert(t.take(t.len() as int) == t);
}

/// A preview never takes more room than it was given, the ellipsis counted in.
pub proof fn law_preview_fits(content: Seq<char>, max_chars: nat)
    ensures
        preview_of(content, max_chars).len() <= max_chars,
{
}

/// A preview is one line that is safe to print: no control character, no gap but
/// single spaces between other characters, and nothing that neither the content
/// holds nor stands for a gap or for what was cut off.
pub proof fn law_preview_is_one_safe_line(content: Seq<char>, max_chars: nat)
    ensures
        tidy(preview_of(content, max_chars)),
        forall|i: int|
            0 <= i < preview_of(content, max_chars).len() ==> {
                let c = #[trigger] preview_of(content, max_chars)[i];
                !text::control(c) && (c == ' ' || c == '…' || content.contains(c))
            },
{
    lemma_flat_is_tidy(content);
    let f = flat(content);
    let p = preview_of(content, max_chars);
    if max_chars > 0 && f.len() > max_chars {
        assert forall|i: int| 0 <= i < p.len() && gap(#[trigger] p[i]) implies p[i] == ' ' by {
            assert(p[i] == f[i]);
        }
        assert forall|i: int| 0 < i < p.len() && gap(#[trigger] p[i]) implies !gap(p[i - 1]) by {
            assert(p[i] == f[i]);
            assert(p[i - 1] == f[i - 1]);
        }
        assert(p.last() == '…');
        if max_chars > 1 {
            assert(p.first() == f.first());
        }
    }
    assert forall|i: int| 0 <= i < p.len() implies {
        let c = #[trigger] p[i];
        !text::control(c) && (c == ' ' || c == '…' || content.contains(c))
    } by {
        if p[i] != '…' {
            assert(p[i] == f[i]);
        }
    }
}

/// A line of a listing is one safe line, whatever the entry holds: no line break,
/// no escape, no other control character.
pub proof fn law_entry_line_is_safe(index: nat, shown: Seq<char>, content: Seq<char>)
    ensures
        forall|i: int|
            0 <= i < entry_line_of(index, shown, content).len() ==> !text::control(
                #[trigger] entry_line_of(index, shown, content)[i],
            ),
{
    let digits = text::decimal(index);
    let time = flat(shown);
    let p = preview_of(content, PREVIEW_WIDTH as nat);
    text::lemma_decimal_digits(index);
    lemma_flat_is_tidy(shown);
    law_preview_is_one_safe_line(content, PREVIEW_WIDTH as nat);
    assert forall|i: int| 0 <= i < digits.len() implies !text::control(#[trigger] digits[i]) by {
        assert(text::ascii_digit(digits[i]));
    }
    assert forall|i: int| 0 <= i < time.len() implies !text::control(#[trigger] time[i]) by {}
    assert forall|i: int| 0 <= i < p.len() implies !text::control(#[trigger] p[i]) by {}
    let head = padded_index(index);
    assert forall|i: int| 0 <= i < head.len() implies !text::control(#[trigger] head[i]) by {}
}

/// Content with nothing to flatten that fits is shown as it is; in particular a
/// preview of a preview is the same preview.
pub proof fn law_preview_of_a_preview(content: Seq<char>, max_chars: nat)
    ensures
        preview_of(preview_of(content, max_chars), max_chars) == preview_of(content, max_chars),
        tidy(content) && content.len() <= max_chars ==> preview_of(content, max_chars) == content,
{
    law_preview_is_one_safe_line(content, max_chars);
    lemma_tidy_is_flat(preview_of(content, max_chars));
    if tidy(content) {
        lemma_tidy_is_flat(content);
    }
}

/// A preview keeps every character that can be shown, in order: leaving out the
/// spaces of a line that is not cut leaves what leaving out the white space and the
/// control characters leaves of the content.
pub proof fn law_preview_keeps_every_character(content: Seq<char>)
    ensures
        flat(content).filter(shown()) == content.filter(shown()),
    decreases content.len(),
{
    reveal_with_fuel(Seq::filter, 1);
    if content.len() > 0 {
        let before = content.drop_last();
        let c = content.last();
        law_preview_keeps_every_character(before);
        before.lemma_filter_push(c, shown());
        assert(before.push(c) =~= content);
        flat(before).lemma_filter_push(c, shown());
        flat(before).lemma_filter_push(' ', shown());
        flat(before).push(' ').lemma_filter_push(c, shown());
    }
}

/// Neither white space nor a control character.
pub open spec fn shown() -> spec_fn(char) -> bool {
    |c: char| !text::white_space(c) && !text::control(c)
}

proof fn lemma_flat_after_gap(a: Seq<char>, g: char, b: Seq<char>)
    requires
        text::white_space(g) || text::control(g),
    ensures
        flat(a.push(g) + b) == if flat(a).len() == 0 {
            flat(b)
        } else if flat(b).len() == 0 {
            flat(a)
        } else {
            flat(a).push(' ') + flat(b)
        },
        flat(b).len() == 0 ==> forall|i: int| 0 <= i < b.len() ==> gap(#[trigger] b[i]),
    decreases b.len(),
{
    let s = a.push(g) + b;
    if b.len() == 0 {
        assert(s =~= a.push(g));
        assert(a.push(g).drop_last() =~= a);
    } else {
        let shorter = b.drop_last();
        let c = b.last();
        lemma_flat_after_gap(a, g, shorter);
        assert(s.drop_last() =~= a.push(g) + shorter);
        assert(s.last() == c);
        let previous = s.drop_last().last();
        if shorter.len() > 0 {
            assert(previous == shorter.last());
        } else {
            assert(previous == g);
        }
        if gap(c) {
            if flat(b).len() == 0 {
                assert forall|i: int| 0 <= i < b.len() implies gap(#[trigger] b[i]) by {
                    if i < shorter.len() {
                        assert(b[i] == shorter[i]);
                    }
                }
            }
        } else {
            if flat(shorter).len() == 0 {
                if shorter.len() > 0 {
                    assert(gap(shorter[shorter.len() - 1]));
                }
                assert(flat(b) =~= seq![c]);
                if flat(a).len() > 0 {
                    assert(flat(s) =~= flat(a).push(' ') + flat(b));
                } else {
                    assert(flat(s) =~= flat(b));
                }
            } else if flat(a).len() > 0 {
                assert(flat(s) =~= flat(a).push(' ') + flat(b));
            }
        }
    }
}

/// A gap in the content shows as one space between what lies on either side of it,
/// and as nothing at an end; text without gaps shows as it is.
pub proof fn law_gaps_show_as_single_spaces(a: Seq<char>, g: char, b: Seq<char>)
    requires
        text::white_space(g) || text::control(g),
    ensures
        flat(a.push(g) + b) == if flat(a).len() == 0 {
            flat(b)
        } else if flat(b).len() == 0 {
            flat(a)
        } else {
            flat(a) + seq![' '] + flat(b)
        },
        (forall|i: int|
            0 <= i < a.len() ==> !text::white_space(#[trigger] a[i]) && !text::control(a[i]))
            ==> flat(a) == a,
{
    lemma_flat_after_gap(a, g, b);
    assert(flat(a).push(' ') + flat(b) =~= flat(a) + seq![' '] + flat(b));
    if forall|i: int|
        0 <= i < a.len() ==> !text::white_space(#[trigger] a[i]) && !text::control(a[i]) {
        lemma_tidy_is_flat(a);
    }
}

/// A preview shows the whole line where it fits, and otherwise as much of its start
/// as leaves room for an ellipsis.
pub proof fn law_preview_cuts_only_what_does_not_fit(content: Seq<char>, max_chars: nat)
    ensures
        flat(content).len() <= max_chars ==> preview_of(content, max_chars) == flat(content),
        0 < max_chars < flat(content).len() ==> preview_of(content, max_chars) == flat(
            content,
        ).take(max_chars - 1) + seq!['…'],
        content.len() <= max_chars ==> preview_of(content, max_chars) == flat(content),
{
    lemma_flat_is_no_longer(content);
    if max_chars == 0 {
        assert(flat(content).len() == 0 ==> flat(content) =~= Seq::<char>::empty());
    } else if flat(content).len() > max_chars {
        assert(preview_of(content, max_chars) =~= flat(content).take(max_chars - 1) + seq!['…']);
    }
}

/// A line of a listing tells the position, the time and the start of the content,
/// in that order and two spaces apart; the position is padded on the left to five
/// characters.
pub proof fn law_entry_line_tells_position_time_and_content(
    index: nat,
    shown: Seq<char>,
    content: Seq<char>,
)
    ensures
        ({
            let digits = text::decimal(index);
            let pad: nat = if digits.len() < 5 {
                (5 - digits.len()) as nat
            } else {
                0
            };
            entry_line_of(index, shown, content) == Seq::new(pad, |i: int| ' ') + digits + seq![
                ' ',
                ' ',
            ] + flat(shown) + seq![' ', ' '] + preview_of(content, 80)
        }),
{
    let digits = text::decimal(index);
    let pad: nat = if digits.len() < 5 {
        (5 - digits.len()) as nat
    } else {
        0
    };
    assert(spaces(2) =~= seq![' ', ' ']);
    assert(padded_index(index) =~= Seq::new(pad, |i: int| ' ') + digits);
}

/// What is shown for a timestamp goes by the moment it names alone: two that name
/// one moment are shown alike at any offset, and what names none is shown as it is.
pub proof fn law_timestamps_are_shown_by_their_moment(a: Seq<char>, b: Seq<char>, offset: i32)
    ensures
        clock::rfc3339_instant(a) is None ==> timestamp_of(a, offset) == a && (timestamp_shown(a, b)
            <==> b == a),
        clock::rfc3339_instant(a) is Some && clock::rfc3339_instant(a) == clock::rfc3339_instant(b)
            ==> timestamp_of(a, offset) == timestamp_of(b, offset),
        clock::rfc3339_instant(a) matches Some(at) ==> timestamp_of(a, offset)
            == clock::rendered_time(at.0, at.1, offset)->0,
{
}

} // verus!
