//! Reading a file from its end, chunk by chunk, until enough lines are there.
//!
//! The newest entries of a file that is only ever appended to are at its end, so
//! walking backwards costs as much as what is wanted rather than as much as
//! there is.

use vstd::prelude::*;
use vstd::utf8::*;

use crate::lines;
use crate::lines::{salvage_lines, NEWLINE};
use crate::text;

verus! {

/// How much to pull per backwards step.
pub const TAIL_CHUNK_BYTES: u64 = 8 * 1024;

/// The number of newlines in `b`.
pub open spec fn newlines(b: Seq<u8>) -> nat
    decreases b.len(),
{
    if b.len() == 0 {
        0
    } else {
        newlines(b.drop_last()) + if b.last() == NEWLINE {
            1nat
        } else {
            0
        }
    }
}

/// The size of a step back from `position`: a chunk, or what is left.
pub open spec fn step_from(position: int) -> int {
    if position < TAIL_CHUNK_BYTES {
        position
    } else {
        TAIL_CHUNK_BYTES as int
    }
}

/// Where a walk back from `position` stops: where the bytes behind it hold more
/// newlines than `limit`, or at the start. The one newline more makes up for the
/// first line, which is usually cut.
pub open spec fn stop_from(data: Seq<u8>, limit: nat, position: int) -> int
    decreases position,
{
    if position <= 0 || newlines(data.skip(position)) > limit {
        position
    } else {
        stop_from(data, limit, position - step_from(position))
    }
}

/// The bytes at the end of `data` that a walk for `limit` lines ends up with.
pub open spec fn tail_of(data: Seq<u8>, limit: nat) -> Seq<u8> {
    data.skip(stop_from(data, limit, data.len() as int))
}

proof fn lemma_newlines_concat(a: Seq<u8>, b: Seq<u8>)
    ensures
        newlines(a + b) == newlines(a) + newlines(b),
    decreases b.len(),
{
    if b.len() == 0 {
        assert(a + b == a);
    } else {
        lemma_newlines_concat(a, b.drop_last());
        assert((a + b).drop_last() == a + b.drop_last());
    }
}

proof fn lemma_newlines_bound(b: Seq<u8>)
    ensures
        newlines(b) <= b.len(),
    decreases b.len(),
{
    if b.len() > 0 {
        lemma_newlines_bound(b.drop_last());
    }
}

fn count_newlines(b: &[u8]) -> (n: usize)
    ensures
        n == newlines(b@),
{
    let mut n: usize = 0;
    let mut i: usize = 0;
    while i < b.len()
        invariant
            i <= b@.len(),
            n <= i,
            n == newlines(b@.take(i as int)),
        decreases b.len() - i,
    {
        assert(b@.take(i + 1).drop_last() == b@.take(i as int));
        if b[i] == NEWLINE {
            n += 1;
        }
        i += 1;
    }
    assert(b@.take(i as int) == b@);
    n
}

/// A walk back through a file: which bytes it wants next, and those it has.
pub struct TailScan {
    limit: usize,
    position: u64,
    found: usize,
    tail: Vec<u8>,
}

impl TailScan {
    /// The newlines among the bytes so far are counted right.
    pub closed spec fn well_formed(&self) -> bool {
        self.found == newlines(self.tail@)
    }

    /// How many lines are wanted.
    pub closed spec fn wanted(&self) -> nat {
        self.limit as nat
    }

    /// Where in the file the bytes so far start.
    pub closed spec fn at(&self) -> int {
        self.position as int
    }

    /// The bytes so far.
    pub closed spec fn bytes(&self) -> Seq<u8> {
        self.tail@
    }

    /// The scan has the bytes of `data` from its position on.
    pub open spec fn follows(&self, data: Seq<u8>) -> bool {
        &&& self.well_formed()
        &&& 0 <= self.at() <= data.len()
        &&& self.bytes() == data.skip(self.at())
    }

    /// The start and the length of the bytes that are wanted next; `None` once
    /// there are enough, or no more.
    pub open spec fn next_step(&self) -> Option<(int, int)> {
        if self.at() > 0 && newlines(self.bytes()) <= self.wanted() {
            Some((self.at() - step_from(self.at()), step_from(self.at())))
        } else {
            None
        }
    }

    /// A scan for `limit` lines, at the end of a file of `len` bytes.
    pub fn new(len: u64, limit: usize) -> (scan: TailScan)
        ensures
            scan.well_formed(),
            scan.wanted() == limit,
            scan.at() == len,
            scan.bytes() == Seq::<u8>::empty(),
    {
        TailScan { limit, position: len, found: 0, tail: Vec::new() }
    }

    /// Which bytes of the file to read next: where they start, and how many.
    pub fn next_read(&self) -> (r: Option<(u64, usize)>)
        requires
            self.well_formed(),
        ensures
            r is Some <==> self.next_step() is Some,
            r matches Some(step) ==> self.next_step() == Some((step.0 as int, step.1 as int)),
    {
        if self.position > 0 && self.found <= self.limit {
            let step: u64 = if self.position < TAIL_CHUNK_BYTES {
                self.position
            } else {
                TAIL_CHUNK_BYTES
            };
            Some((self.position - step, step as usize))
        } else {
            None
        }
    }

    /// Takes the bytes that were asked for.
    pub fn supply(&mut self, chunk: Vec<u8>)
        requires
            old(self).well_formed(),
            old(self).next_step() is Some,
            chunk@.len() == (old(self).next_step()->0).1,
        ensures
            final(self).well_formed(),
            final(self).wanted() == old(self).wanted(),
            final(self).at() == (old(self).next_step()->0).0,
            final(self).bytes() == chunk@ + old(self).bytes(),
    {
        let mut chunk = chunk;
        proof {
            lemma_newlines_concat(chunk@, self.tail@);
            lemma_newlines_bound(chunk@ + self.tail@);
        }
        let added: usize = count_newlines(chunk.as_slice());
        self.position = self.position - chunk.len() as u64;
        chunk.append(&mut self.tail);
        assert(newlines(chunk@) <= chunk.len());
        self.found = self.found + added;
        self.tail = chunk;
    }

    /// The lines among the bytes so far, oldest first. The first may be cut.
    pub fn lines(&self) -> (r: Vec<String>)
        ensures
            lines::text_views(r@) == lines::lossy_lines(self.bytes()),
    {
        salvage_lines(self.tail.as_slice())
    }
}

/// The lines at the end of `data` that a scan for `limit` lines ends up with,
/// oldest first.
pub fn tail_from(data: &[u8], limit: usize) -> (r: Vec<String>)
    ensures
        lines::text_views(r@) == lines::lossy_lines(tail_of(data@, limit as nat)),
{
    let total: usize = data.len();
    let mut scan = TailScan::new(total as u64, limit);
    assert(data@.skip(data@.len() as int) == Seq::<u8>::empty());
    loop
        invariant
            total == data@.len(),
            scan.follows(data@),
            scan.wanted() == limit,
            stop_from(data@, limit as nat, data@.len() as int) == stop_from(
                data@,
                limit as nat,
                scan.at(),
            ),
        decreases scan.at(),
    {
        match scan.next_read() {
            None => {
                return scan.lines();
            },
            Some((start, count)) => {
                let chunk: Vec<u8> = copy_range(data, start as usize, count);
                assert(chunk@ + data@.skip(start + count) == data@.skip(start as int));
                scan.supply(chunk);
            },
        }
    }
}

/// `count` bytes of `data`, from `start` on.
fn copy_range(data: &[u8], start: usize, count: usize) -> (out: Vec<u8>)
    requires
        start + count <= data@.len(),
    ensures
        out@ == data@.subrange(start as int, start + count),
{
    let mut out: Vec<u8> = Vec::new();
    let mut i: usize = 0;
    let total: usize = data.len();
    while i < count
        invariant
            i <= count,
            total == data@.len(),
            start + count <= total,
            out@ == data@.subrange(start as int, start + i),
        decreases count - i,
    {
        out.push(data[start + i]);
        i += 1;
        assert(out@ == data@.subrange(start as int, start + i));
    }
    out
}

/// The last `limit` of `s`, or all of it where it has no more.
pub open spec fn newest<T>(s: Seq<T>, limit: nat) -> Seq<T> {
    if s.len() <= limit {
        s
    } else {
        s.skip(s.len() - limit)
    }
}

/// The bytes of `b` up to its last newline: its whole lines.
pub open spec fn whole(b: Seq<u8>) -> Seq<u8>
    decreases b.len(),
{
    if b.len() == 0 || b.last() == NEWLINE {
        b
    } else {
        whole(b.drop_last())
    }
}

/// Every whole line of `data` is text that `parse` takes for an entry.
pub open spec fn all_parse<E>(data: Seq<u8>, parse: spec_fn(Seq<char>) -> Option<E>) -> bool {
    forall|i: int|
        0 <= i < lines::byte_lines(whole(data)).len() ==> line_parses(
            #[trigger] lines::byte_lines(whole(data))[i],
            parse,
        )
}

pub open spec fn line_parses<E>(line: Seq<u8>, parse: spec_fn(Seq<char>) -> Option<E>) -> bool {
    &&& valid_utf8(line)
    &&& !text::blank(decode_utf8(line))
    &&& parse(decode_utf8(line)) is Some
}

/// A line is text, or nothing that passes for an entry once it is salvaged.
pub open spec fn reads_alike<E>(line: Seq<u8>, parse: spec_fn(Seq<char>) -> Option<E>) -> bool {
    valid_utf8(line) || parse(lines::salvaged(line)) is None
}

/// No line of `data` is an entry to a lossy reading only.
pub open spec fn all_read_alike<E>(data: Seq<u8>, parse: spec_fn(Seq<char>) -> Option<E>) -> bool {
    forall|i: int|
        0 <= i < lines::byte_lines(data).len() ==> reads_alike(
            #[trigger] lines::byte_lines(data)[i],
            parse,
        )
}

proof fn lemma_whole(b: Seq<u8>)
    ensures
        whole(b).len() <= b.len(),
        b.take(whole(b).len() as int) == whole(b),
        lines::at_line_start(whole(b)),
        newlines(whole(b)) == newlines(b),
    decreases b.len(),
{
    if b.len() == 0 || b.last() == NEWLINE {
        assert(b.take(b.len() as int) == b);
    } else {
        let shorter = b.drop_last();
        lemma_whole(shorter);
        assert(b.take(whole(b).len() as int) == shorter.take(whole(b).len() as int));
    }
}

proof fn lemma_whole_concat(x: Seq<u8>, y: Seq<u8>)
    requires
        lines::at_line_start(x),
    ensures
        whole(x + y) == x + whole(y),
    decreases y.len(),
{
    if y.len() == 0 {
        assert(x + y == x);
        assert(x + whole(y) == x);
    } else {
        assert((x + y).last() == y.last());
        if y.last() != NEWLINE {
            assert((x + y).drop_last() == x + y.drop_last());
            lemma_whole_concat(x, y.drop_last());
        }
    }
}

proof fn lemma_whole_lines(w: Seq<u8>)
    requires
        lines::at_line_start(w),
    ensures
        lines::byte_lines(w).len() == newlines(w),
    decreases w.len(),
{
    if w.len() > 0 {
        let n = lines::line_end(w);
        lines::lemma_line_end_bounds(w);
        if n == w.len() {
            assert(w.take(n) == w);
            assert(w.contains(w[w.len() - 1]));
        }
        let first = w.take(n + 1);
        let rest = w.skip(n + 1);
        assert(w == first + rest);
        assert(rest.len() > 0 ==> rest.last() == w.last());
        lemma_newlines_concat(first, rest);
        lemma_newlines_one_line(first);
        lemma_whole_lines(rest);
    }
}

proof fn lemma_newlines_none(b: Seq<u8>)
    requires
        !b.contains(NEWLINE),
    ensures
        newlines(b) == 0,
    decreases b.len(),
{
    if b.len() > 0 {
        assert(b.contains(b[b.len() - 1]));
        let shorter = b.drop_last();
        if shorter.contains(NEWLINE) {
            let k = choose|k: int| 0 <= k < shorter.len() && shorter[k] == NEWLINE;
            assert(b[k] == NEWLINE);
        }
        lemma_newlines_none(shorter);
    }
}

proof fn lemma_newlines_one_line(first: Seq<u8>)
    requires
        first.len() > 0,
        first.last() == NEWLINE,
        !first.drop_last().contains(NEWLINE),
    ensures
        newlines(first) == 1,
{
    lemma_newlines_none(first.drop_last());
}

pub(crate) proof fn lemma_filter_map_concat<A, B>(a: Seq<A>, b: Seq<A>, f: spec_fn(A) -> Option<B>)
    ensures
        (a + b).filter_map(f) == a.filter_map(f) + b.filter_map(f),
    decreases b.len(),
{
    if b.len() == 0 {
        assert(a + b == a);
        assert(b.filter_map(f) == Seq::<B>::empty());
        assert(a.filter_map(f) + Seq::<B>::empty() == a.filter_map(f));
    } else {
        lemma_filter_map_concat(a, b.drop_last(), f);
        assert((a + b).drop_last() == a + b.drop_last());
        assert((a + b).last() == b.last());
        assert((a + b).filter_map(f) =~= a.filter_map(f) + b.filter_map(f));
    }
}

/// The entries that `parse` finds among the lines that are text.
spec fn strict_entries<E>(b: Seq<Seq<u8>>, parse: spec_fn(Seq<char>) -> Option<E>) -> Seq<E> {
    lines::legible(b).filter_map(parse)
}

/// The entries that `parse` finds among lines once they are salvaged.
spec fn lossy_entries<E>(b: Seq<Seq<u8>>, parse: spec_fn(Seq<char>) -> Option<E>) -> Seq<E> {
    lines::filled(b.map_values(|line: Seq<u8>| lines::salvaged(line))).filter_map(parse)
}

proof fn lemma_strict_concat<E>(
    a: Seq<Seq<u8>>,
    b: Seq<Seq<u8>>,
    parse: spec_fn(Seq<char>) -> Option<E>,
)
    ensures
        strict_entries(a + b, parse) == strict_entries(a, parse) + strict_entries(b, parse),
{
    lines::lemma_legible_concat(a, b);
    lemma_filter_map_concat(lines::legible(a), lines::legible(b), parse);
}

proof fn lemma_lossy_concat<E>(
    a: Seq<Seq<u8>>,
    b: Seq<Seq<u8>>,
    parse: spec_fn(Seq<char>) -> Option<E>,
)
    ensures
        lossy_entries(a + b, parse) == lossy_entries(a, parse) + lossy_entries(b, parse),
{
    let read = |line: Seq<u8>| lines::salvaged(line);
    assert((a + b).map_values(read) == a.map_values(read) + b.map_values(read));
    lines::lemma_filled_concat(a.map_values(read), b.map_values(read));
    lemma_filter_map_concat(
        lines::filled(a.map_values(read)),
        lines::filled(b.map_values(read)),
        parse,
    );
}

proof fn lemma_all_entries<E>(b: Seq<Seq<u8>>, parse: spec_fn(Seq<char>) -> Option<E>)
    requires
        forall|i: int| 0 <= i < b.len() ==> line_parses(#[trigger] b[i], parse),
    ensures
        strict_entries(b, parse).len() == b.len(),
    decreases b.len(),
{
    if b.len() > 0 {
        let before = b.drop_last();
        assert(line_parses(b[b.len() - 1], parse));
        assert forall|i: int| 0 <= i < before.len() implies line_parses(
            #[trigger] before[i],
            parse,
        ) by {
            assert(before[i] == b[i]);
        }
        lemma_all_entries(before, parse);
        lines::lemma_legible_push(before, b.last());
        assert(before.push(b.last()) == b);
        assert(lines::legible(b).drop_last() == lines::legible(before));
    } else {
        assert(b == Seq::<Seq<u8>>::empty());
        lines::lemma_legible_empty();
    }
}

proof fn lemma_filter_map_push<A, B>(s: Seq<A>, x: A, f: spec_fn(A) -> Option<B>)
    ensures
        s.push(x).filter_map(f) == match f(x) {
            Some(y) => s.filter_map(f).push(y),
            None => s.filter_map(f),
        },
{
    assert(s.push(x).drop_last() == s);
    assert(s.push(x).filter_map(f) =~= match f(x) {
        Some(y) => s.filter_map(f).push(y),
        None => s.filter_map(f),
    });
}

proof fn lemma_same_entries<E>(b: Seq<Seq<u8>>, parse: spec_fn(Seq<char>) -> Option<E>)
    requires
        forall|i: int| 0 <= i < b.len() ==> reads_alike(#[trigger] b[i], parse),
    ensures
        lossy_entries(b, parse) == strict_entries(b, parse),
    decreases b.len(),
{
    let read = |line: Seq<u8>| lines::salvaged(line);
    if b.len() > 0 {
        let before = b.drop_last();
        let line = b.last();
        assert(reads_alike(b[b.len() - 1], parse));
        assert forall|i: int| 0 <= i < before.len() implies reads_alike(
            #[trigger] before[i],
            parse,
        ) by {
            assert(before[i] == b[i]);
        }
        lemma_same_entries(before, parse);
        assert(before.push(line) == b);
        lines::lemma_legible_push(before, line);
        assert(b.map_values(read) == before.map_values(read).push(lines::salvaged(line)));
        lines::lemma_filled_push(before.map_values(read), lines::salvaged(line));
        lemma_filter_map_push(lines::legible(before), decode_utf8(line), parse);
        lemma_filter_map_push(
            lines::filled(before.map_values(read)),
            lines::salvaged(line),
            parse,
        );
    } else {
        assert(b == Seq::<Seq<u8>>::empty());
        lines::lemma_legible_empty();
        assert(b.map_values(read) == Seq::<Seq<char>>::empty());
        reveal_with_fuel(Seq::filter, 1);
        assert(lines::filled(b.map_values(read)) == Seq::<Seq<char>>::empty());
    }
}

/// Where the lines of `head + rest` are read alike, so are those of `rest`.
proof fn lemma_same_end<E>(head: Seq<u8>, rest: Seq<u8>, parse: spec_fn(Seq<char>) -> Option<E>)
    requires
        lines::at_line_start(head),
        all_read_alike(head + rest, parse),
    ensures
        lossy_entries(lines::byte_lines(rest), parse) == strict_entries(
            lines::byte_lines(rest),
            parse,
        ),
{
    lines::lemma_lines_concat(head, rest);
    assert forall|i: int| 0 <= i < lines::byte_lines(rest).len() implies reads_alike(
        #[trigger] lines::byte_lines(rest)[i],
        parse,
    ) by {
        assert(lines::byte_lines(head + rest)[lines::byte_lines(head).len() + i]
            == lines::byte_lines(rest)[i]);
    }
    lemma_same_entries(lines::byte_lines(rest), parse);
}

proof fn lemma_newest_of_concat<T>(a: Seq<T>, b: Seq<T>, limit: nat)
    requires
        b.len() >= limit,
    ensures
        newest(a + b, limit) == newest(b, limit),
{
    assert(newest(a + b, limit) =~= newest(b, limit));
}

proof fn lemma_stop(data: Seq<u8>, limit: nat, position: int)
    requires
        0 <= position <= data.len(),
    ensures
        ({
            let p = stop_from(data, limit, position);
            0 <= p <= data.len() && (p > 0 ==> newlines(data.skip(p)) > limit)
        }),
    decreases position,
{
    if position > 0 && newlines(data.skip(position)) <= limit {
        lemma_stop(data, limit, position - step_from(position));
    }
}

/// Reading from the end agrees with reading everything: where each whole line of
/// a file is an entry, the newest `limit` entries of the tail are the newest
/// `limit` entries of the history. A final line left half-written changes
/// nothing, whether or not it passes for an entry, as long as it does not do so
/// only once it is salvaged.
pub proof fn law_tail_agrees_with_history<E>(
    data: Seq<u8>,
    limit: nat,
    parse: spec_fn(Seq<char>) -> Option<E>,
)
    requires
        all_parse(data, parse),
        all_read_alike(data, parse),
    ensures
        newest(lines::lossy_lines(tail_of(data, limit)).filter_map(parse), limit) == newest(
            lines::text_lines(data).filter_map(parse),
            limit,
        ),
{
    let p = stop_from(data, limit, data.len() as int);
    lemma_stop(data, limit, data.len() as int);
    let suffix = data.skip(p);
    if p == 0 {
        assert(suffix == data);
        lemma_same_entries(lines::byte_lines(data), parse);
    } else {
        let n = lines::line_end(suffix);
        lines::lemma_line_end_bounds(suffix);
        if n == suffix.len() {
            assert(suffix.take(n) == suffix);
            lemma_newlines_none(suffix);
        }
        let cut = suffix.take(n + 1);
        let rest = suffix.skip(n + 1);
        assert(suffix == cut + rest);
        assert(cut.drop_last() == suffix.take(n));
        lemma_newlines_concat(cut, rest);
        lemma_newlines_one_line(cut);
        let head = data.take(p) + cut;
        assert(data == head + rest);
        assert(lines::at_line_start(head));
        // The file and the tail differ only before `rest`.
        lines::lemma_lines_concat(head, rest);
        lines::lemma_lines_concat(cut, rest);
        lemma_strict_concat(lines::byte_lines(head), lines::byte_lines(rest), parse);
        lemma_lossy_concat(lines::byte_lines(cut), lines::byte_lines(rest), parse);
        // Both read `rest` alike.
        lemma_same_end(head, rest, parse);
        // `rest` holds enough whole lines, and each of them is an entry.
        let w = whole(rest);
        let open = rest.skip(w.len() as int);
        lemma_whole(rest);
        lemma_whole_concat(head, rest);
        lemma_whole_lines(w);
        lines::lemma_lines_concat(head, w);
        assert forall|i: int| 0 <= i < lines::byte_lines(w).len() implies line_parses(
            #[trigger] lines::byte_lines(w)[i],
            parse,
        ) by {
            assert(lines::byte_lines(whole(data))[lines::byte_lines(head).len() + i]
                == lines::byte_lines(w)[i]);
        }
        lemma_all_entries(lines::byte_lines(w), parse);
        assert(rest == w + open);
        lines::lemma_lines_concat(w, open);
        lemma_strict_concat(lines::byte_lines(w), lines::byte_lines(open), parse);
        let found = strict_entries(lines::byte_lines(rest), parse);
        lemma_newest_of_concat(strict_entries(lines::byte_lines(head), parse), found, limit);
        lemma_newest_of_concat(lossy_entries(lines::byte_lines(cut), parse), found, limit);
    }
}

/// A walk for `limit` lines ends inside the file, and the line it starts with,
/// which is usually cut, is no entry.
pub open spec fn drops_cut_line<E>(
    data: Seq<u8>,
    limit: nat,
    parse: spec_fn(Seq<char>) -> Option<E>,
) -> bool {
    let tail = tail_of(data, limit);
    tail.len() < data.len() ==> parse(
        lines::salvaged(lines::without_return(tail.take(lines::line_end(tail)))),
    ) is None
}

/// Whatever the lines of a file hold, the entries read from its end are the last
/// ones of its history, with none skipped among them, as long as the line that
/// the walk cut in two does not pass for an entry, and no line does so only once
/// it is salvaged.
pub proof fn law_tail_is_an_end_of_history<E>(
    data: Seq<u8>,
    limit: nat,
    parse: spec_fn(Seq<char>) -> Option<E>,
)
    requires
        all_read_alike(data, parse),
        drops_cut_line(data, limit, parse),
    ensures
        ({
            let tail = newest(lines::lossy_lines(tail_of(data, limit)).filter_map(parse), limit);
            let history = lines::text_lines(data).filter_map(parse);
            tail.len() <= history.len() && tail == history.skip(history.len() - tail.len())
        }),
{
    let p = stop_from(data, limit, data.len() as int);
    lemma_stop(data, limit, data.len() as int);
    let suffix = data.skip(p);
    let found = lines::lossy_lines(suffix).filter_map(parse);
    let history = lines::text_lines(data).filter_map(parse);
    if p == 0 {
        assert(suffix == data);
        lemma_same_entries(lines::byte_lines(data), parse);
    } else {
        let n = lines::line_end(suffix);
        lines::lemma_line_end_bounds(suffix);
        if n == suffix.len() {
            assert(suffix.take(n) == suffix);
            lemma_newlines_none(suffix);
        }
        let cut = suffix.take(n + 1);
        let rest = suffix.skip(n + 1);
        assert(suffix == cut + rest);
        let head = data.take(p) + cut;
        assert(data == head + rest);
        lines::lemma_lines_concat(head, rest);
        lines::lemma_lines_concat(cut, rest);
        lemma_strict_concat(lines::byte_lines(head), lines::byte_lines(rest), parse);
        lemma_lossy_concat(lines::byte_lines(cut), lines::byte_lines(rest), parse);
        lemma_same_end(head, rest, parse);
        let lossy = |line: Seq<u8>| lines::salvaged(line);
        // The cut line is the only one before `rest`, and it is no entry.
        let line = lines::without_return(suffix.take(n));
        lines::lemma_one_line(suffix.take(n));
        assert(cut == suffix.take(n).push(NEWLINE));
        assert(lines::byte_lines(cut).map_values(lossy) =~= seq![lines::salvaged(line)]);
        let texts = lines::filled(lines::byte_lines(cut).map_values(lossy));
        lines::lemma_filled_push(Seq::empty(), lines::salvaged(line));
        assert(seq![lines::salvaged(line)] =~= Seq::<Seq<char>>::empty().push(
            lines::salvaged(line),
        ));
        assert(lines::filled(Seq::empty()) == Seq::<Seq<char>>::empty()) by {
            reveal_with_fuel(Seq::filter, 1);
        }
        assert(texts.filter_map(parse) =~= Seq::<E>::empty()) by {
            assert(Seq::<Seq<char>>::empty().filter_map(parse) == Seq::<E>::empty());
            if texts.len() > 0 {
                assert(texts.drop_last() == Seq::<Seq<char>>::empty());
                assert(texts.last() == lines::salvaged(line));
            }
        }
        let kept = strict_entries(lines::byte_lines(rest), parse);
        assert(found =~= kept);
        assert(history == strict_entries(lines::byte_lines(head), parse) + kept);
    }
    assert(found.len() <= history.len() && found =~= history.skip(history.len() - found.len()));
    assert(newest(found, limit) =~= history.skip(history.len() - newest(found, limit).len()));
}

/// The newest of a list are at its end, in order: as many as were asked for, or
/// all there are.
pub proof fn law_newest_are_at_the_end<T>(s: Seq<T>, limit: nat)
    ensures
        newest(s, limit).len() == if s.len() < limit {
            s.len()
        } else {
            limit
        },
        forall|i: int|
            0 <= i < newest(s, limit).len() ==> #[trigger] newest(s, limit)[i] == s[s.len()
                - newest(s, limit).len() + i],
{
}

proof fn lemma_stop_is_near(data: Seq<u8>, limit: nat, position: int)
    requires
        0 <= position <= data.len(),
    ensures
        ({
            let p = stop_from(data, limit, position);
            p < position ==> exists|q: int|
                p < q <= position && q - p <= 8192 && newlines(#[trigger] data.skip(q)) <= limit
        }),
        stop_from(data, limit, position) <= position,
    decreases position,
{
    if position > 0 && newlines(data.skip(position)) <= limit {
        let next = position - step_from(position);
        lemma_stop_is_near(data, limit, next);
        if stop_from(data, limit, next) == next {
            assert(newlines(data.skip(position)) <= limit);
        }
    }
}

/// A walk from the end stops as soon as it can: it ends up with the end of the
/// file, which holds more newlines than lines are wanted or is all there is, and
/// without its first 8 KiB it would hold too few.
pub proof fn law_walk_stops_when_it_has_enough(data: Seq<u8>, limit: nat)
    ensures
        ({
            let tail = tail_of(data, limit);
            &&& tail.len() <= data.len()
            &&& tail == data.skip(data.len() - tail.len())
            &&& tail.len() == data.len() || newlines(tail) > limit
            &&& tail.len() > 0 ==> exists|q: int|
                0 < q <= tail.len() && q <= 8192 && newlines(#[trigger] tail.skip(q)) <= limit
        }),
{
    let p = stop_from(data, limit, data.len() as int);
    lemma_stop(data, limit, data.len() as int);
    lemma_stop_is_near(data, limit, data.len() as int);
    let tail = tail_of(data, limit);
    if tail.len() > 0 {
        let q = choose|q: int|
            p < q <= data.len() && q - p <= 8192 && newlines(#[trigger] data.skip(q)) <= limit;
        assert(tail.skip(q - p) =~= data.skip(q));
    }
}

/// Newlines are counted one by one.
pub proof fn law_newlines_are_counted(b: Seq<u8>, x: u8)
    ensures
        newlines(Seq::empty()) == 0,
        newlines(b.push(x)) == newlines(b) + if x == 10 {
            1nat
        } else {
            0
        },
{
    assert(b.push(x).drop_last() =~= b);
}

} // verus!
