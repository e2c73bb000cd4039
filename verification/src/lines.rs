//! Lines of bytes: how a history file is cut into text, and how text is framed
//! for it.

use vstd::prelude::*;
use vstd::utf8::*;

use crate::text;
use crate::text::is_blank;

verus! {

/// The byte that ends a line.
pub const NEWLINE: u8 = 10;

/// A byte that belongs to the end of a line when it comes right before it.
pub const RETURN: u8 = 13;

/// The text that `String::from_utf8_lossy` makes of bytes.
pub uninterp spec fn lossy_text(bytes: Seq<u8>) -> Seq<char>;

/// `String::from_utf8_lossy`, by name; bytes that are UTF-8 are read as they are.
#[verifier::external_body]
pub(crate) fn decode_lossy(bytes: &[u8]) -> (r: String)
    ensures
        r@ == lossy_text(bytes@),
        valid_utf8(bytes@) ==> r@ == decode_utf8(bytes@),
{
    String::from_utf8_lossy(bytes).into_owned()
}

/// `std::str::from_utf8`: the text that the bytes encode, if they are UTF-8.
#[verifier::external_body]
pub(crate) fn decode_strict(bytes: &[u8]) -> (r: Option<String>)
    ensures
        r is Some <==> valid_utf8(bytes@),
        r matches Some(s) ==> s@ == decode_utf8(bytes@),
{
    match std::str::from_utf8(bytes) {
        Ok(s) => Some(s.to_string()),
        Err(_) => None,
    }
}

/// What is left of any bytes as text: what they encode, and where they are not
/// UTF-8, what a lossy reading makes of them.
pub open spec fn salvaged(bytes: Seq<u8>) -> Seq<char> {
    if valid_utf8(bytes) {
        decode_utf8(bytes)
    } else {
        lossy_text(bytes)
    }
}

/// Where the first line of `b` ends: at its first newline, or at its end.
pub open spec fn line_end(b: Seq<u8>) -> int
    decreases b.len(),
{
    if b.len() == 0 || b[0] == NEWLINE {
        0
    } else {
        1 + line_end(b.drop_first())
    }
}

/// A line without the carriage return at its end, where it has one.
pub open spec fn without_return(line: Seq<u8>) -> Seq<u8> {
    if line.len() > 0 && line.last() == RETURN {
        line.drop_last()
    } else {
        line
    }
}

/// The lines of `b`. Each ends with a newline, or a carriage return and a
/// newline, that is not part of it; the last may lack its newline.
pub open spec fn byte_lines(b: Seq<u8>) -> Seq<Seq<u8>>
    decreases b.len(),
{
    let n = line_end(b);
    if b.len() == 0 {
        seq![]
    } else if 0 <= n < b.len() {
        seq![without_return(b.take(n))] + byte_lines(b.skip(n + 1))
    } else {
        seq![b]
    }
}

/// What byte vectors hold.
pub open spec fn byte_views(v: Seq<Vec<u8>>) -> Seq<Seq<u8>> {
    v.map_values(|line: Vec<u8>| line@)
}

/// What strings hold.
pub open spec fn text_views(v: Seq<String>) -> Seq<Seq<char>> {
    v.map_values(|line: String| line@)
}

/// The lines that hold more than white space.
pub open spec fn filled(lines: Seq<Seq<char>>) -> Seq<Seq<char>> {
    lines.filter(|line: Seq<char>| !text::blank(line))
}

/// A line is UTF-8.
pub open spec fn utf8_line() -> spec_fn(Seq<u8>) -> bool {
    |line: Seq<u8>| valid_utf8(line)
}

/// Those lines that are UTF-8, as the text they encode.
pub open spec fn decoded(lines: Seq<Seq<u8>>) -> Seq<Seq<char>> {
    lines.filter(utf8_line()).map_values(|line: Seq<u8>| decode_utf8(line))
}

/// Those lines that are UTF-8 and not blank, as the text they encode.
pub open spec fn legible(lines: Seq<Seq<u8>>) -> Seq<Seq<char>> {
    filled(decoded(lines))
}

/// The lines of a file as text, without those that are not UTF-8 and the blank
/// ones.
pub open spec fn text_lines(b: Seq<u8>) -> Seq<Seq<char>> {
    legible(byte_lines(b))
}

/// The lines of any bytes as text, without the blank ones.
pub open spec fn lossy_lines(b: Seq<u8>) -> Seq<Seq<char>> {
    filled(byte_lines(b).map_values(|line: Seq<u8>| salvaged(line)))
}

proof fn lemma_line_end(cur: Seq<u8>, rest: Seq<u8>)
    requires
        !cur.contains(NEWLINE),
        rest.len() > 0 ==> rest[0] == NEWLINE,
    ensures
        line_end(cur + rest) == cur.len(),
    decreases cur.len(),
{
    if cur.len() > 0 {
        assert(cur.contains(cur[0]));
        let shorter = cur.drop_first();
        assert(!shorter.contains(NEWLINE)) by {
            if shorter.contains(NEWLINE) {
                let k = choose|k: int| 0 <= k < shorter.len() && shorter[k] == NEWLINE;
                assert(cur[k + 1] == NEWLINE);
            }
        }
        lemma_line_end(shorter, rest);
        assert((cur + rest).drop_first() == shorter + rest);
    } else {
        assert(cur + rest == rest);
    }
}

pub(crate) proof fn lemma_line_end_bounds(b: Seq<u8>)
    ensures
        0 <= line_end(b) <= b.len(),
        line_end(b) < b.len() ==> b[line_end(b)] == NEWLINE,
        !b.take(line_end(b)).contains(NEWLINE),
    decreases b.len(),
{
    if b.len() > 0 && b[0] != NEWLINE {
        lemma_line_end_bounds(b.drop_first());
        let n = line_end(b);
        if b.take(n).contains(NEWLINE) {
            let k = choose|k: int| 0 <= k < b.take(n).len() && b.take(n)[k] == NEWLINE;
            assert(b.drop_first().take(n - 1)[k - 1] == NEWLINE);
        }
    }
}

proof fn lemma_first_line(cur: Seq<u8>, rest: Seq<u8>)
    requires
        !cur.contains(NEWLINE),
    ensures
        byte_lines(cur.push(NEWLINE) + rest) == seq![without_return(cur)] + byte_lines(rest),
{
    let b = cur.push(NEWLINE) + rest;
    let tail = seq![NEWLINE] + rest;
    assert(b == cur + tail);
    lemma_line_end(cur, tail);
    assert(b.take(cur.len() as int) == cur);
    assert(b.skip(cur.len() as int + 1) == rest);
}

pub(crate) proof fn lemma_one_line(cur: Seq<u8>)
    requires
        !cur.contains(NEWLINE),
    ensures
        byte_lines(cur.push(NEWLINE)) == seq![without_return(cur)],
{
    lemma_first_line(cur, Seq::empty());
    assert(cur.push(NEWLINE) + Seq::<u8>::empty() == cur.push(NEWLINE));
    assert(byte_lines(Seq::<u8>::empty()) == Seq::<Seq<u8>>::empty());
    assert(seq![without_return(cur)] + Seq::<Seq<u8>>::empty() == seq![without_return(cur)]);
}

/// The lines of `b`, each in a vector of its own.
fn split_lines(b: &[u8]) -> (out: Vec<Vec<u8>>)
    ensures
        byte_views(out@) == byte_lines(b@),
{
    let mut out: Vec<Vec<u8>> = Vec::new();
    let mut current: Vec<u8> = Vec::new();
    let mut i: usize = 0;
    assert(current@ + b@.skip(0) == b@);
    assert(byte_views(out@) == Seq::<Seq<u8>>::empty());
    while i < b.len()
        invariant
            i <= b@.len(),
            !current@.contains(NEWLINE),
            byte_lines(b@) == byte_views(out@) + byte_lines(current@ + b@.skip(i as int)),
        decreases b.len() - i,
    {
        let x: u8 = b[i];
        let ghost rest = b@.skip(i + 1);
        assert(b@.skip(i as int) == seq![x] + rest);
        if x == NEWLINE {
            let ghost line = current@;
            let ghost done = byte_views(out@);
            proof {
                assert(current@ + b@.skip(i as int) == line.push(NEWLINE) + rest);
                lemma_first_line(line, rest);
            }
            if current.len() > 0 && current[current.len() - 1] == RETURN {
                current.pop();
            }
            assert(current@ == without_return(line));
            out.push(current);
            current = Vec::new();
            assert(byte_views(out@) == done.push(without_return(line)));
            assert(current@ + rest == rest);
            assert(done + (seq![without_return(line)] + byte_lines(rest)) == done.push(
                without_return(line),
            ) + byte_lines(rest));
        } else {
            let ghost line = current@;
            current.push(x);
            assert(current@ + rest == line + b@.skip(i as int));
            assert(!current@.contains(NEWLINE)) by {
                if current@.contains(NEWLINE) {
                    let k = choose|k: int| 0 <= k < current@.len() && current@[k] == NEWLINE;
                    assert(line[k] == NEWLINE);
                }
            }
        }
        i += 1;
    }
    let ghost line = current@;
    assert(line + b@.skip(i as int) == line);
    proof {
        lemma_line_end(line, Seq::empty());
        assert(line + Seq::<u8>::empty() == line);
    }
    let ghost done = byte_views(out@);
    if current.len() > 0 {
        out.push(current);
        assert(byte_views(out@) == done.push(line));
    } else {
        assert(byte_lines(line) == Seq::<Seq<u8>>::empty());
    }
    assert(byte_views(out@) =~= byte_lines(b@));
    out
}

pub(crate) proof fn lemma_filled_push(lines: Seq<Seq<char>>, line: Seq<char>)
    ensures
        filled(lines.push(line)) == if text::blank(line) {
            filled(lines)
        } else {
            filled(lines).push(line)
        },
{
    lines.lemma_filter_push(line, |line: Seq<char>| !text::blank(line));
}

proof fn lemma_filled_empty()
    ensures
        filled(Seq::empty()) == Seq::<Seq<char>>::empty(),
{
    reveal_with_fuel(Seq::filter, 1);
}

pub(crate) proof fn lemma_legible_empty()
    ensures
        legible(Seq::empty()) == Seq::<Seq<char>>::empty(),
{
    lemma_filled_empty();
    reveal_with_fuel(Seq::filter, 1);
    assert(decoded(Seq::empty()) == Seq::<Seq<char>>::empty());
}

pub(crate) proof fn lemma_legible_push(lines: Seq<Seq<u8>>, line: Seq<u8>)
    ensures
        legible(lines.push(line)) == if valid_utf8(line) && !text::blank(decode_utf8(line)) {
            legible(lines).push(decode_utf8(line))
        } else {
            legible(lines)
        },
{
    lines.lemma_filter_push(line, utf8_line());
    if valid_utf8(line) {
        assert(decoded(lines.push(line)) == decoded(lines).push(decode_utf8(line)));
        lemma_filled_push(decoded(lines), decode_utf8(line));
    }
}

pub(crate) proof fn lemma_legible_one(line: Seq<u8>)
    ensures
        legible(seq![line]) == if valid_utf8(line) && !text::blank(decode_utf8(line)) {
            seq![decode_utf8(line)]
        } else {
            seq![]
        },
{
    lemma_legible_empty();
    lemma_legible_push(Seq::empty(), line);
    assert(seq![line] == Seq::<Seq<u8>>::empty().push(line));
}

/// The lines of a file as text, oldest first, without the blank ones.
///
/// A line that is not UTF-8 is left out rather than fatal, so that a character
/// cut in two by a kill during a write costs nothing but its own line.
pub fn read_lines(file: &[u8]) -> (out: Vec<String>)
    ensures
        text_views(out@) == text_lines(file@),
{
    let split: Vec<Vec<u8>> = split_lines(file);
    let mut out: Vec<String> = Vec::new();
    let mut i: usize = 0;
    let ghost all = byte_lines(file@);
    proof {
        lemma_legible_empty();
        assert(all.take(0) == Seq::<Seq<u8>>::empty());
    }
    assert(text_views(out@) == Seq::<Seq<char>>::empty());
    while i < split.len()
        invariant
            i <= split@.len(),
            byte_views(split@) == all,
            text_views(out@) == legible(all.take(i as int)),
        decreases split.len() - i,
    {
        assert(all[i as int] == split@[i as int]@);
        proof {
            lemma_legible_push(all.take(i as int), all[i as int]);
            assert(all.take(i + 1) == all.take(i as int).push(all[i as int]));
        }
        if let Some(line) = decode_strict(split[i].as_slice()) {
            let ghost before = out@;
            if !is_blank(line.as_str()) {
                out.push(line);
                assert(text_views(out@) == text_views(before).push(line@));
            }
        }
        i += 1;
    }
    assert(all.take(i as int) == all);
    out
}

/// The lines of any bytes as text, without the blank ones; what is not UTF-8
/// shows as replacement characters.
pub fn salvage_lines(bytes: &[u8]) -> (out: Vec<String>)
    ensures
        text_views(out@) == lossy_lines(bytes@),
{
    let split: Vec<Vec<u8>> = split_lines(bytes);
    let mut out: Vec<String> = Vec::new();
    let mut i: usize = 0;
    let ghost decoded = byte_lines(bytes@).map_values(|line: Seq<u8>| salvaged(line));
    assert(filled(decoded.take(0)) == Seq::<Seq<char>>::empty()) by {
        assert(decoded.take(0) == Seq::<Seq<char>>::empty());
        reveal_with_fuel(Seq::filter, 1);
    }
    assert(text_views(out@) == Seq::<Seq<char>>::empty());
    while i < split.len()
        invariant
            i <= split@.len(),
            byte_views(split@) == byte_lines(bytes@),
            decoded == byte_lines(bytes@).map_values(|line: Seq<u8>| salvaged(line)),
            text_views(out@) == filled(decoded.take(i as int)),
        decreases split.len() - i,
    {
        assert(byte_lines(bytes@)[i as int] == split@[i as int]@);
        let line: String = decode_lossy(split[i].as_slice());
        proof {
            lemma_filled_push(decoded.take(i as int), line@);
            assert(decoded.take(i + 1) == decoded.take(i as int).push(line@));
        }
        let ghost before = out@;
        if !is_blank(line.as_str()) {
            out.push(line);
            assert(text_views(out@) == text_views(before).push(line@));
        }
        i += 1;
    }
    assert(decoded.take(i as int) == decoded);
    out
}

/// Text that can stand on a line of its own and be read back: something other
/// than white space, no newline in it and no carriage return at its end.
pub open spec fn sound_line(line: Seq<char>) -> bool {
    &&& !text::blank(line)
    &&& !line.contains('\n')
    &&& line.last() != '\r'
}

/// Lines one after the other, each with its newline.
pub open spec fn framed(lines: Seq<Seq<char>>) -> Seq<char>
    decreases lines.len(),
{
    if lines.len() == 0 {
        seq![]
    } else {
        framed(lines.drop_last()) + lines.last().push('\n')
    }
}

/// One line with its newline.
pub fn frame_line(line: &str) -> (r: String)
    ensures
        r@ == line@.push('\n'),
{
    let mut out = line.to_owned();
    out.push('\n');
    out
}

/// The last byte of a file, where it has one.
pub open spec fn last_byte(b: Seq<u8>) -> Option<u8> {
    if b.len() > 0 {
        Some(b.last())
    } else {
        None
    }
}

/// What is appended for a line to a file with that last byte: the line with its
/// newline, on a line of its own whether or not the file ends with a whole line.
pub open spec fn framed_after(last: Option<u8>, line: Seq<char>) -> Seq<char> {
    if last is None || last == Some(NEWLINE) {
        line.push('\n')
    } else {
        seq!['\n'] + line.push('\n')
    }
}

/// One line as it is appended to a file whose last byte is `last`, `None` where
/// it is empty. A line that was left half-written is closed first, so that the
/// new one does not run on from it.
pub fn frame_after(last: Option<u8>, line: &str) -> (r: String)
    ensures
        r@ == framed_after(last, line@),
{
    let mut out = String::new();
    if let Some(byte) = last {
        if byte != NEWLINE {
            out.push('\n');
        }
    }
    out.append(frame_line(line).as_str());
    assert(out@ =~= framed_after(last, line@));
    out
}

/// The lines of a whole file, as it is rewritten.
pub fn frame_lines(lines: &Vec<String>) -> (r: String)
    ensures
        r@ == framed(text_views(lines@)),
{
    let mut out = String::new();
    let mut i: usize = 0;
    let ghost views = text_views(lines@);
    while i < lines.len()
        invariant
            i <= lines@.len(),
            views == text_views(lines@),
            out@ == framed(views.take(i as int)),
        decreases lines.len() - i,
    {
        out.append(frame_line(lines[i].as_str()).as_str());
        assert(views.take(i + 1).drop_last() == views.take(i as int));
        i += 1;
    }
    assert(views.take(i as int) == views);
    out
}

/// Bytes that end where a line ends, so that what is appended starts a line.
pub open spec fn at_line_start(b: Seq<u8>) -> bool {
    b.len() == 0 || b.last() == NEWLINE
}

pub(crate) proof fn lemma_lines_concat(x: Seq<u8>, y: Seq<u8>)
    requires
        at_line_start(x),
    ensures
        byte_lines(x + y) == byte_lines(x) + byte_lines(y),
    decreases x.len(),
{
    if x.len() == 0 {
        assert(x + y == y);
        assert(byte_lines(x) + byte_lines(y) == byte_lines(y));
    } else {
        let n = line_end(x);
        lemma_line_end_bounds(x);
        if n == x.len() {
            assert(x.take(n) == x);
            assert(x.contains(x[x.len() - 1]));
        }
        let cur = x.take(n);
        let rest = x.skip(n + 1);
        assert(x == cur.push(NEWLINE) + rest);
        lemma_first_line(cur, rest);
        assert(x + y == cur.push(NEWLINE) + (rest + y));
        lemma_first_line(cur, rest + y);
        assert(rest.len() > 0 ==> rest.last() == x.last());
        lemma_lines_concat(rest, y);
        assert(seq![without_return(cur)] + (byte_lines(rest) + byte_lines(y)) == seq![
            without_return(cur),
        ] + byte_lines(rest) + byte_lines(y));
    }
}

pub(crate) proof fn lemma_filled_concat(a: Seq<Seq<char>>, b: Seq<Seq<char>>)
    ensures
        filled(a + b) == filled(a) + filled(b),
{
    Seq::filter_distributes_over_add(a, b, |line: Seq<char>| !text::blank(line));
}

pub(crate) proof fn lemma_legible_concat(a: Seq<Seq<u8>>, b: Seq<Seq<u8>>)
    ensures
        legible(a + b) == legible(a) + legible(b),
{
    Seq::filter_distributes_over_add(a, b, utf8_line());
    assert(decoded(a + b) == decoded(a) + decoded(b));
    lemma_filled_concat(decoded(a), decoded(b));
}

pub(crate) proof fn lemma_text_concat(x: Seq<u8>, y: Seq<u8>)
    requires
        at_line_start(x),
    ensures
        text_lines(x + y) == text_lines(x) + text_lines(y),
{
    lemma_lines_concat(x, y);
    lemma_legible_concat(byte_lines(x), byte_lines(y));
}

/// Closing the last line of a file changes that line alone, and only by the
/// carriage return at its end, where it has one.
proof fn lemma_closed(file: Seq<u8>)
    requires
        !at_line_start(file),
    ensures
        byte_lines(file).len() > 0,
        byte_lines(file).last().len() > 0,
        byte_lines(file).last().last() == file.last(),
        byte_lines(file.push(NEWLINE)) == byte_lines(file).drop_last().push(
            without_return(byte_lines(file).last()),
        ),
    decreases file.len(),
{
    let n = line_end(file);
    lemma_line_end_bounds(file);
    let cur = file.take(n);
    if n == file.len() {
        assert(cur == file);
        lemma_one_line(file);
        assert(byte_lines(file) == seq![file]);
        assert(byte_lines(file).drop_last().push(without_return(file)) =~= seq![
            without_return(file),
        ]);
    } else {
        let rest = file.skip(n + 1);
        assert(rest.len() > 0 && rest.last() == file.last());
        lemma_closed(rest);
        assert(file == cur.push(NEWLINE) + rest);
        assert(file.push(NEWLINE) == cur.push(NEWLINE) + rest.push(NEWLINE));
        lemma_first_line(cur, rest);
        lemma_first_line(cur, rest.push(NEWLINE));
        assert(byte_lines(file).last() == byte_lines(rest).last());
        assert(byte_lines(file.push(NEWLINE)) =~= byte_lines(file).drop_last().push(
            without_return(byte_lines(file).last()),
        ));
    }
}

/// What a file reads as once its last line is closed: what it read as before, but
/// for the carriage return at the end of that line.
pub(crate) proof fn lemma_closed_text(file: Seq<u8>)
    requires
        !at_line_start(file),
    ensures
        ({
            let start = byte_lines(file).drop_last();
            let open = byte_lines(file).last();
            &&& text_lines(file) == legible(start) + legible(seq![open])
            &&& text_lines(file.push(NEWLINE)) == legible(start) + legible(
                seq![without_return(open)],
            )
            &&& open.len() > 0 && open.last() == file.last()
        }),
{
    let l = byte_lines(file);
    let start = l.drop_last();
    lemma_closed(file);
    assert(l == start + seq![l.last()]);
    lemma_legible_concat(start, seq![l.last()]);
    assert(byte_lines(file.push(NEWLINE)) =~= start + seq![without_return(l.last())]);
    lemma_legible_concat(start, seq![without_return(l.last())]);
}

/// A carriage return at the end of a line decodes to itself, and makes a blank
/// line of a blank line.
pub(crate) proof fn lemma_decode_return(line: Seq<u8>)
    requires
        line.len() > 0,
        line.last() == RETURN,
    ensures
        valid_utf8(line) <==> valid_utf8(line.drop_last()),
        valid_utf8(line) ==> decode_utf8(line) == decode_utf8(line.drop_last()).push('\r'),
        valid_utf8(line) ==> (text::blank(decode_utf8(line)) <==> text::blank(
            decode_utf8(line.drop_last()),
        )),
{
    lemma_utf8_without_return(line);
    if valid_utf8(line) {
        let start = line.drop_last();
        let chars = decode_utf8(start);
        decode_utf8_encode_utf8(start);
        lemma_encode_concat(chars, seq!['\r']);
        lemma_encode_one('\r');
        lemma_encode_scalar('\r');
        assert(chars.push('\r') == chars + seq!['\r']);
        assert(encode_utf8(chars.push('\r')) =~= line);
        encode_utf8_decode_utf8(chars.push('\r'));
        let longer = chars.push('\r');
        if text::blank(longer) {
            assert forall|i: int| 0 <= i < chars.len() implies text::white_space(
                #[trigger] chars[i],
            ) by {
                assert(chars[i] == longer[i]);
            }
        }
    }
}

proof fn lemma_encode_concat(a: Seq<char>, b: Seq<char>)
    ensures
        encode_utf8(a + b) == encode_utf8(a) + encode_utf8(b),
    decreases a.len(),
{
    if a.len() == 0 {
        assert(a + b == b);
        assert(encode_utf8(a) + encode_utf8(b) == encode_utf8(b));
    } else {
        lemma_encode_concat(a.drop_first(), b);
        assert((a + b).drop_first() == a.drop_first() + b);
        assert(encode_utf8(a + b) == encode_scalar(a[0] as u32) + (encode_utf8(a.drop_first())
            + encode_utf8(b)));
        assert(encode_utf8(a) + encode_utf8(b) == encode_scalar(a[0] as u32) + (encode_utf8(
            a.drop_first(),
        ) + encode_utf8(b)));
    }
}

proof fn lemma_encode_scalar(c: char)
    ensures
        ({
            let b = encode_scalar(c as u32);
            &&& b.len() > 0
            &&& c as u32 <= 0x7f ==> b.len() == 1 && b[0] as int == c as int
            &&& c as u32 > 0x7f ==> forall|i: int| 0 <= i < b.len() ==> #[trigger] b[i] >= 0x80
        }),
{
    let v = c as u32;
    if v <= 0x7f {
        assert(v & 0x7f == v) by (bit_vector)
            requires
                v <= 0x7f,
        ;
    } else {
        assert(0xC0u8 | ((v >> 6) & 0x1F) as u8 >= 0x80) by (bit_vector);
        assert(0xE0u8 | ((v >> 12) & 0x0F) as u8 >= 0x80) by (bit_vector);
        assert(0xF0u8 | ((v >> 18) & 0x7) as u8 >= 0x80) by (bit_vector);
        assert(0x80u8 | (v & 0x3F) as u8 >= 0x80) by (bit_vector);
        assert(0x80u8 | ((v >> 6) & 0x3F) as u8 >= 0x80) by (bit_vector);
        assert(0x80u8 | ((v >> 12) & 0x3F) as u8 >= 0x80) by (bit_vector);
    }
}

proof fn lemma_encode_newline_free(line: Seq<char>)
    requires
        !line.contains('\n'),
    ensures
        !encode_utf8(line).contains(NEWLINE),
    decreases line.len(),
{
    if line.len() > 0 {
        let rest = line.drop_first();
        assert(!rest.contains('\n')) by {
            if rest.contains('\n') {
                let k = choose|k: int| 0 <= k < rest.len() && rest[k] == '\n';
                assert(line[k + 1] == '\n');
            }
        }
        lemma_encode_newline_free(rest);
        assert(line.contains(line[0]));
        lemma_encode_scalar(line[0]);
        let head = encode_scalar(line[0] as u32);
        let b = encode_utf8(line);
        if b.contains(NEWLINE) {
            let k = choose|k: int| 0 <= k < b.len() && b[k] == NEWLINE;
            if k < head.len() {
                assert(head[k] == NEWLINE);
                char_is_scalar(line[0]);
                assert(line[0] as int == '\n' as int);
                assert(line[0] == '\n');
            } else {
                assert(encode_utf8(rest)[k - head.len()] == NEWLINE);
            }
        }
    }
}

proof fn lemma_encode_one(c: char)
    ensures
        encode_utf8(seq![c]) == encode_scalar(c as u32),
{
    assert(seq![c].drop_first() == Seq::<char>::empty());
    assert(encode_utf8(Seq::<char>::empty()) == Seq::<u8>::empty());
    assert(encode_utf8(seq![c]) =~= encode_scalar(c as u32));
}

proof fn lemma_encode_framed_line(line: Seq<char>)
    requires
        sound_line(line),
    ensures
        byte_lines(encode_utf8(line.push('\n'))) == seq![encode_utf8(line)],
        at_line_start(encode_utf8(line.push('\n'))),
{
    let b = encode_utf8(line);
    lemma_encode_newline_free(line);
    lemma_encode_concat(line, seq!['\n']);
    lemma_encode_one('\n');
    lemma_encode_scalar('\n');
    assert(line.push('\n') == line + seq!['\n']);
    assert(encode_utf8(line.push('\n')) == b.push(NEWLINE) + Seq::<u8>::empty());
    lemma_first_line(b, Seq::empty());
    assert(byte_lines(Seq::<u8>::empty()) == Seq::<Seq<u8>>::empty());
    assert(without_return(b) == b) by {
        let start = line.drop_last();
        let c = line.last();
        assert(line == start + seq![c]);
        lemma_encode_concat(start, seq![c]);
        lemma_encode_one(c);
        lemma_encode_scalar(c);
        let e = encode_scalar(c as u32);
        assert(b.last() == e[e.len() - 1]);
        if b.last() == RETURN {
            assert(c as int == '\r' as int);
            assert(c == '\r');
        }
    }
    assert(seq![b] + Seq::<Seq<u8>>::empty() == seq![b]);
}

proof fn lemma_text_framed_line(line: Seq<char>)
    requires
        sound_line(line),
    ensures
        text_lines(encode_utf8(line.push('\n'))) == seq![line],
{
    lemma_encode_framed_line(line);
    encode_utf8_decode_utf8(line);
    encode_utf8_valid_utf8(line);
    lemma_legible_one(encode_utf8(line));
}

/// What is appended goes where the file was closed.
pub(crate) proof fn lemma_framed_after(file: Seq<u8>, line: Seq<char>)
    requires
        sound_line(line),
    ensures
        ({
            let closed = if at_line_start(file) {
                file
            } else {
                file.push(NEWLINE)
            };
            let longer = file + encode_utf8(framed_after(last_byte(file), line));
            text_lines(longer) == text_lines(closed).push(line) && at_line_start(longer)
        }),
{
    let added = encode_utf8(line.push('\n'));
    let closed = if at_line_start(file) {
        file
    } else {
        file.push(NEWLINE)
    };
    lemma_encode_one('\n');
    lemma_encode_scalar('\n');
    lemma_encode_concat(seq!['\n'], line.push('\n'));
    assert(file + encode_utf8(framed_after(last_byte(file), line)) =~= closed + added);
    lemma_encode_framed_line(line);
    lemma_text_concat(closed, added);
    lemma_text_framed_line(line);
    assert(text_lines(closed) + seq![line] == text_lines(closed).push(line));
    lemma_encode_concat(line, seq!['\n']);
    assert(line.push('\n') == line + seq!['\n']);
    assert((closed + added).last() == added.last());
}

/// What is appended is what is read: a line framed onto the end of a file is read
/// back as it was, after everything that was there before, whether or not the
/// file ended with a whole line. (A carriage return at the very end of a file is
/// part of its last line only until that line is closed.)
pub proof fn law_appended_line_is_read_back(file: Seq<u8>, line: Seq<char>)
    requires
        sound_line(line),
        file.len() > 0 ==> file.last() != RETURN,
    ensures
        ({
            let longer = file + encode_utf8(framed_after(last_byte(file), line));
            text_lines(longer) == text_lines(file).push(line) && at_line_start(longer)
        }),
{
    lemma_framed_after(file, line);
    if !at_line_start(file) {
        lemma_closed_text(file);
    }
}

/// What is written is what is read: a rewritten file gives back its lines, in
/// order, with none lost and none added.
pub proof fn law_rewritten_file_is_read_back(lines: Seq<Seq<char>>)
    requires
        forall|i: int| 0 <= i < lines.len() ==> sound_line(#[trigger] lines[i]),
    ensures
        text_lines(encode_utf8(framed(lines))) == lines,
        at_line_start(encode_utf8(framed(lines))),
    decreases lines.len(),
{
    if lines.len() == 0 {
        assert(byte_lines(Seq::<u8>::empty()) == Seq::<Seq<u8>>::empty());
        lemma_legible_empty();
        assert(text_lines(encode_utf8(framed(lines))) =~= lines);
    } else {
        let before = lines.drop_last();
        let line = lines.last();
        assert forall|i: int| 0 <= i < before.len() implies sound_line(#[trigger] before[i]) by {
            assert(before[i] == lines[i]);
        }
        law_rewritten_file_is_read_back(before);
        lemma_encode_concat(framed(before), line.push('\n'));
        assert(sound_line(lines[lines.len() - 1]));
        lemma_framed_after(encode_utf8(framed(before)), line);
        assert(before.push(line) == lines);
    }
}

proof fn lemma_utf8_cut(b: Seq<u8>, i: int)
    requires
        valid_utf8(b),
        0 <= i <= b.len(),
        i < b.len() ==> b[i] < 0x80,
    ensures
        valid_utf8(b.take(i)),
        valid_utf8(b.skip(i)),
{
    if i < b.len() {
        is_char_boundary_iff_not_is_continuation_byte(b, i);
    } else {
        is_char_boundary_start_end_of_seq(b);
    }
    valid_utf8_split(b, i);
    assert(b.subrange(0, i) == b.take(i));
    assert(b.subrange(i, b.len() as int) == b.skip(i));
}

proof fn lemma_utf8_ascii_first(b: Seq<u8>)
    requires
        b.len() > 0,
        b[0] < 0x80,
    ensures
        valid_utf8(b) <==> valid_utf8(b.skip(1)),
{
    let v = b[0];
    assert(v & 0x7f < 0x80) by (bit_vector);
    assert(pop_first_scalar(b) =~= b.skip(1));
}

proof fn lemma_utf8_without_return(line: Seq<u8>)
    ensures
        valid_utf8(line) <==> valid_utf8(without_return(line)),
{
    if line.len() > 0 && line.last() == RETURN {
        let start = line.drop_last();
        let one = seq![RETURN];
        assert(one.skip(1) == Seq::<u8>::empty());
        lemma_utf8_ascii_first(one);
        if valid_utf8(start) {
            valid_utf8_concat(start, one);
            assert(start + one == line);
        }
        if valid_utf8(line) {
            lemma_utf8_cut(line, line.len() - 1);
            assert(line.take(line.len() - 1) == start);
        }
    }
}

/// A file is UTF-8 exactly when each of its lines is.
pub proof fn law_text_line_by_line(b: Seq<u8>)
    ensures
        valid_utf8(b) <==> forall|i: int|
            0 <= i < byte_lines(b).len() ==> valid_utf8(#[trigger] byte_lines(b)[i]),
    decreases b.len(),
{
    if b.len() > 0 {
        let n = line_end(b);
        lemma_line_end_bounds(b);
        if n < b.len() {
            let cur = b.take(n);
            let tail = b.skip(n);
            let rest = b.skip(n + 1);
            law_text_line_by_line(rest);
            assert(tail.skip(1) == rest);
            lemma_utf8_ascii_first(tail);
            lemma_utf8_without_return(cur);
            let lines = byte_lines(b);
            assert(lines[0] == without_return(cur));
            if valid_utf8(b) {
                lemma_utf8_cut(b, n);
                assert forall|i: int| 0 <= i < lines.len() implies valid_utf8(#[trigger] lines[i]) by {
                    if i > 0 {
                        assert(lines[i] == byte_lines(rest)[i - 1]);
                    }
                }
            }
            if forall|i: int| 0 <= i < lines.len() ==> valid_utf8(#[trigger] lines[i]) {
                assert forall|i: int| 0 <= i < byte_lines(rest).len() implies valid_utf8(
                    #[trigger] byte_lines(rest)[i],
                ) by {
                    assert(byte_lines(rest)[i] == lines[i + 1]);
                }
                valid_utf8_concat(cur, tail);
                assert(cur + tail == b);
            }
        } else {
            assert(byte_lines(b)[0] == b);
        }
    }
}

pub(crate) proof fn lemma_filter_all<T>(s: Seq<T>, p: spec_fn(T) -> bool)
    requires
        forall|i: int| 0 <= i < s.len() ==> p(#[trigger] s[i]),
    ensures
        s.filter(p) == s,
    decreases s.len(),
{
    reveal_with_fuel(Seq::filter, 1);
    if s.len() > 0 {
        let shorter = s.drop_last();
        assert forall|i: int| 0 <= i < shorter.len() implies p(#[trigger] shorter[i]) by {
            assert(shorter[i] == s[i]);
        }
        lemma_filter_all(shorter, p);
        assert(p(s[s.len() - 1]));
        assert(shorter.push(s.last()) == s);
    }
}

/// No line of a UTF-8 file is left out for its encoding, and a lossy reading
/// reads it alike.
pub proof fn law_no_line_of_text_is_lost(b: Seq<u8>)
    requires
        valid_utf8(b),
    ensures
        text_lines(b) == filled(byte_lines(b).map_values(|line: Seq<u8>| decode_utf8(line))),
        lossy_lines(b) == text_lines(b),
{
    law_text_line_by_line(b);
    let l = byte_lines(b);
    lemma_filter_all(l, utf8_line());
    assert(l.map_values(|line: Seq<u8>| salvaged(line)) =~= l.map_values(
        |line: Seq<u8>| decode_utf8(line),
    ));
}

/// A file is cut at its newlines: up to the first one lies a line, which a
/// carriage return right before the newline is not part of, and behind it lie the
/// lines of the rest. What is behind the last newline is a line too, as it is.
pub proof fn law_lines_are_cut_at_newlines(line: Seq<u8>, rest: Seq<u8>)
    requires
        !line.contains(10u8),
    ensures
        byte_lines(line.push(13u8).push(10u8) + rest) == seq![line] + byte_lines(rest),
        line.len() == 0 || line.last() != 13u8 ==> byte_lines(line.push(10u8) + rest) == seq![line]
            + byte_lines(rest),
        line.len() > 0 ==> byte_lines(line) == seq![line],
        byte_lines(Seq::empty()) == Seq::<Seq<u8>>::empty(),
{
    let returned = line.push(13u8);
    assert(!returned.contains(10u8)) by {
        if returned.contains(10u8) {
            let k = choose|k: int| 0 <= k < returned.len() && returned[k] == 10u8;
            assert(line[k] == 10u8);
        }
    }
    lemma_first_line(returned, rest);
    assert(returned.drop_last() =~= line);
    lemma_first_line(line, rest);
    lemma_line_end(line, Seq::empty());
    assert(line + Seq::<u8>::empty() =~= line);
}

/// The lines of a file are read one by one: a line of UTF-8 that is not blank is
/// read as the text it encodes, and any other is left out.
pub proof fn law_lines_are_read_one_by_one(lines: Seq<Seq<u8>>, line: Seq<u8>)
    ensures
        legible(Seq::empty()) == Seq::<Seq<char>>::empty(),
        legible(lines.push(line)) == if valid_utf8(line) && !text::blank(decode_utf8(line)) {
            legible(lines).push(decode_utf8(line))
        } else {
            legible(lines)
        },
{
    lemma_legible_empty();
    lemma_legible_push(lines, line);
}

/// What is written for lines is each of them with its newline, one after the
/// other.
pub proof fn law_lines_are_framed_one_by_one(lines: Seq<Seq<char>>, line: Seq<char>)
    ensures
        framed(Seq::empty()) == Seq::<char>::empty(),
        framed(lines.push(line)) == framed(lines) + line + seq!['\n'],
        framed_after(None, line) == line + seq!['\n'],
        framed_after(Some(10u8), line) == line + seq!['\n'],
        forall|b: u8|
            b != 10 ==> #[trigger] framed_after(Some(b), line) == seq!['\n'] + line + seq!['\n'],
{
    assert(lines.push(line).drop_last() =~= lines);
    assert(framed(lines.push(line)) =~= framed(lines) + line + seq!['\n']);
    assert forall|b: u8| b != 10 implies #[trigger] framed_after(Some(b), line) == seq!['\n'] + line
        + seq!['\n'] by {
        assert(framed_after(Some(b), line) =~= seq!['\n'] + line + seq!['\n']);
    }
}

} // verus!
