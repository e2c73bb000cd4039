//! The history: one entry per line, oldest first.

use vstd::prelude::*;
use vstd::utf8::*;

use crate::clock;
use crate::clock::{read_clock, timestamp_at_nanos};
use crate::lines;
use crate::source;
use crate::source::Source;
use crate::tail;
use crate::text;
use crate::text::{copy_option, same};

verus! {

/// One captured clipboard change.
#[derive(Debug)]
pub struct HistoryEntry {
    pub id: u128,
    pub timestamp: String,
    pub content: String,
    /// Name of the app that was frontmost at capture time. Optional so entries
    /// written before source tracking existed still load.
    pub source: Option<String>,
    /// Bundle id of that app, used to look up its icon for the menu.
    pub source_bundle_id: Option<String>,
}

/// What a [`HistoryEntry`] holds.
pub struct EntryView {
    pub id: u128,
    pub timestamp: Seq<char>,
    pub content: Seq<char>,
    pub source: Option<Seq<char>>,
    pub source_bundle_id: Option<Seq<char>>,
}

impl View for HistoryEntry {
    type V = EntryView;

    open spec fn view(&self) -> EntryView {
        EntryView {
            id: self.id,
            timestamp: self.timestamp@,
            content: self.content@,
            source: text::option_view(self.source),
            source_bundle_id: text::option_view(self.source_bundle_id),
        }
    }
}

/// What the entries of a list hold.
pub open spec fn entry_views(entries: Seq<HistoryEntry>) -> Seq<EntryView> {
    entries.map_values(|e: HistoryEntry| e@)
}

/// The entry for `content`, captured at the given moment from the given app.
pub open spec fn entry_of(
    id: u128,
    timestamp: Seq<char>,
    content: Seq<char>,
    from: Option<source::SourceView>,
) -> EntryView {
    EntryView {
        id,
        timestamp,
        content,
        source: match from {
            Some(s) => s.name,
            None => None,
        },
        source_bundle_id: match from {
            Some(s) => s.bundle_id,
            None => None,
        },
    }
}

/// The view of an optional source.
pub open spec fn source_view(from: Option<&Source>) -> Option<source::SourceView> {
    match from {
        Some(s) => Some(s@),
        None => None,
    }
}

/// The entry names the app that it came from: by the same name and the same bundle
/// id, and by neither where no app is known.
pub open spec fn names_source(entry: HistoryEntry, from: Option<&Source>) -> bool {
    match from {
        Some(s) => {
            &&& entry.source is Some <==> s.name is Some
            &&& s.name is Some ==> (entry.source->0)@ == (s.name->0)@
            &&& entry.source_bundle_id is Some <==> s.bundle_id is Some
            &&& s.bundle_id is Some ==> (entry.source_bundle_id->0)@ == (s.bundle_id->0)@
        },
        None => entry.source is None && entry.source_bundle_id is None,
    }
}

/// The entry for `content`, captured at the given moment from the given app.
pub fn new_entry(id: u128, timestamp: String, content: &str, from: Option<&Source>) -> (entry:
    HistoryEntry)
    ensures
        entry@ == entry_of(id, timestamp@, content@, source_view(from)),
        entry.id == id,
        entry.timestamp@ == timestamp@,
        entry.content@ == content@,
        names_source(entry, from),
{
    let (source, source_bundle_id) = match from {
        Some(s) => (copy_option(&s.name), copy_option(&s.bundle_id)),
        None => (None, None),
    };
    HistoryEntry { id, timestamp, content: content.to_owned(), source, source_bundle_id }
}

/// Why the clock cannot date an entry.
#[derive(Debug, Clone, Copy, PartialEq, Eq, Structural)]
pub enum ClockError {
    /// It is set to a time before 1970.
    BeforeEpoch,
    /// It is set to a time that the calendar does not have.
    BeyondCalendar,
}

/// The entry for `content`, captured from the given app when the clock said
/// `nanos`; id and timestamp are that one moment.
pub open spec fn captured(
    nanos: Option<u128>,
    content: Seq<char>,
    from: Option<source::SourceView>,
) -> Result<EntryView, ClockError> {
    match nanos {
        Some(id) => match clock::timestamp_of_nanos(id) {
            Some(timestamp) => Ok(entry_of(id, timestamp, content, from)),
            None => Err(ClockError::BeyondCalendar),
        },
        None => Err(ClockError::BeforeEpoch),
    }
}

/// What an attempt to make an entry came to.
pub open spec fn attempt_view(r: Result<HistoryEntry, ClockError>) -> Result<EntryView, ClockError> {
    match r {
        Ok(entry) => Ok(entry@),
        Err(e) => Err(e),
    }
}

/// Up to the end of the year 9999 there is an entry, and its timestamp is read
/// back as the very moment that the clock said.
pub open spec fn dated(nanos: Option<u128>, r: Result<HistoryEntry, ClockError>) -> bool {
    nanos matches Some(id) ==> clock::before_year_10000(id) ==> {
        &&& r is Ok
        &&& clock::rfc3339_instant((r->Ok_0).timestamp@) == Some(
            ((id / clock::SECOND) as i64, (id % clock::SECOND) as u32),
        )
    }
}

/// The entry for `content`, captured from the given app when the clock said
/// `nanos` nanoseconds since 1970, or `None` for an earlier time.
pub fn captured_at(nanos: Option<u128>, content: &str, from: Option<&Source>) -> (r: Result<
    HistoryEntry,
    ClockError,
>)
    ensures
        attempt_view(r) == captured(nanos, content@, source_view(from)),
        dated(nanos, r),
        nanos is None ==> r == Err::<HistoryEntry, ClockError>(ClockError::BeforeEpoch),
        r matches Ok(entry) ==> nanos == Some(entry.id) && entry.content@ == content@
            && names_source(entry, from),
{
    match nanos {
        Some(id) => match timestamp_at_nanos(id) {
            Some(timestamp) => Ok(new_entry(id, timestamp, content, from)),
            None => Err(ClockError::BeyondCalendar),
        },
        None => Err(ClockError::BeforeEpoch),
    }
}

/// The entry for `content`, captured now from the given app.
///
/// Nanoseconds since 1970 make the id: monotonic in practice, and it needs no
/// lookup of the previous entry on restart (unlike an incrementing counter).
/// Which moment that is, and whether it lies after 1970, is up to the clock.
pub fn capture(content: &str, from: Option<&Source>) -> (r: Result<HistoryEntry, ClockError>)
    ensures
        exists|nanos: Option<u128>|
            {
                &&& #[trigger] clock::clock_said(nanos)
                &&& attempt_view(r) == captured(nanos, content@, source_view(from))
                &&& dated(nanos, r)
            },
        r matches Ok(entry) ==> entry.content@ == content@ && names_source(entry, from),
{
    let nanos: Option<u128> = read_clock();
    captured_at(nanos, content, from)
}

/// What optional entries hold.
pub open spec fn parsed_views(parsed: Seq<Option<HistoryEntry>>) -> Seq<Option<EntryView>> {
    parsed.map_values(
        |e: Option<HistoryEntry>|
            match e {
                Some(entry) => Some(entry@),
                None => None,
            },
    )
}

/// The entries among `parsed`, in order.
pub open spec fn present(parsed: Seq<Option<EntryView>>) -> Seq<EntryView> {
    parsed.filter_map(|e: Option<EntryView>| e)
}

/// The whole history, oldest first: the entries of the lines that parsed.
///
/// Unparseable lines are skipped rather than fatal: a half-written final line
/// (from a kill during a write) or a hand-edit shouldn't make the rest of the
/// history unreadable.
pub fn read_history(parsed: Vec<Option<HistoryEntry>>) -> (entries: Vec<HistoryEntry>)
    ensures
        entry_views(entries@) == present(parsed_views(parsed@)),
        entries@ == parsed@.filter_map(|e: Option<HistoryEntry>| e),
{
    let ghost views = parsed_views(parsed@);
    let ghost all = parsed@;
    let ghost keep = |e: Option<HistoryEntry>| e;
    let mut entries: Vec<HistoryEntry> = Vec::new();
    assert(all.take(0) == Seq::<Option<HistoryEntry>>::empty());
    assert(views.take(0) == Seq::<Option<EntryView>>::empty());
    assert(entry_views(entries@) == Seq::<EntryView>::empty());
    for item in it: parsed
        invariant
            views == parsed_views(it.seq()),
            all == it.seq(),
            keep == (|e: Option<HistoryEntry>| e),
            entries@ == all.take(it.index()).filter_map(keep),
            entry_views(entries@) == present(views.take(it.index())),
    {
        let ghost before = entries@;
        proof {
            views.lemma_filter_map_take_succ(|e: Option<EntryView>| e, it.index());
            all.lemma_filter_map_take_succ(keep, it.index());
        }
        if let Some(entry) = item {
            entries.push(entry);
            assert(entry_views(entries@) == entry_views(before).push(entry@));
        }
    }
    assert(views.take(views.len() as int) == views);
    assert(all.take(all.len() as int) == all);
    entries
}

/// At most `limit` entries from the end of the history, oldest first, given what
/// became of the lines at the end of the file.
pub fn read_tail(parsed: Vec<Option<HistoryEntry>>, limit: usize) -> (r: Vec<HistoryEntry>)
    ensures
        entry_views(r@) == tail::newest(present(parsed_views(parsed@)), limit as nat),
        r@.len() <= limit,
        ({
            let all = parsed@.filter_map(|e: Option<HistoryEntry>| e);
            &&& r@.len() == if all.len() < limit {
                all.len() as int
            } else {
                limit as int
            }
            &&& r@ == all.skip(all.len() - r@.len())
        }),
{
    let entries = read_history(parsed);
    let r = newest_entries(entries, limit);
    assert(r@ =~= entries@.skip(entries@.len() - r@.len()));
    assert(entry_views(r@) =~= tail::newest(entry_views(entries@), limit as nat));
    r
}

/// The last `limit` of `entries`, or all of them where there are no more.
fn newest_entries(entries: Vec<HistoryEntry>, limit: usize) -> (r: Vec<HistoryEntry>)
    ensures
        r@ == tail::newest(entries@, limit as nat),
{
    let mut entries = entries;
    if entries.len() > limit {
        let cutoff: usize = entries.len() - limit;
        entries.split_off(cutoff)
    } else {
        entries
    }
}

/// A history after some of its entries went.
pub struct Rewrite {
    /// The entries that stay, in order.
    pub kept: Vec<HistoryEntry>,
    /// How many went. Where none did, the file need not be written.
    pub removed: usize,
}

/// An entry's content is something else than `content`.
pub open spec fn differs(content: Seq<char>) -> spec_fn(HistoryEntry) -> bool {
    |e: HistoryEntry| e.content@ != content
}

/// The entries whose content is not `content`.
pub open spec fn others(entries: Seq<HistoryEntry>, content: Seq<char>) -> Seq<HistoryEntry> {
    entries.filter(differs(content))
}

/// Removes every entry whose content matches.
pub fn delete_entry(entries: Vec<HistoryEntry>, content: &str) -> (r: Rewrite)
    ensures
        r.kept@ == others(entries@, content@),
        r.removed == entries@.len() - r.kept@.len(),
{
    let ghost all = entries@;
    let total: usize = entries.len();
    let mut kept: Vec<HistoryEntry> = Vec::new();
    assert(others(all.take(0), content@) == Seq::<HistoryEntry>::empty()) by {
        assert(all.take(0) == Seq::<HistoryEntry>::empty());
        reveal_with_fuel(Seq::filter, 1);
    }
    for entry in it: entries
        invariant
            it.seq() == all,
            kept@ == others(all.take(it.index()), content@),
            kept@.len() <= it.index(),
    {
        proof {
            let i = it.index();
            assert(all.take(i + 1) == all.take(i).push(entry));
            all.take(i).lemma_filter_push(entry, differs(content@));
        }
        if !same(entry.content.as_str(), content) {
            kept.push(entry);
        }
    }
    assert(all.take(all.len() as int) == all);
    let removed: usize = total - kept.len();
    Rewrite { kept, removed }
}

/// The history that is left of `entries` when only `limit` are kept; 0 keeps
/// everything.
pub open spec fn pruned<T>(entries: Seq<T>, limit: nat) -> Seq<T> {
    if limit == 0 {
        entries
    } else {
        tail::newest(entries, limit)
    }
}

/// Trims the history to its newest `limit` entries. `limit` of 0 means keep
/// everything.
pub fn prune(entries: Vec<HistoryEntry>, limit: usize) -> (r: Rewrite)
    ensures
        r.kept@ == pruned(entries@, limit as nat),
        r.removed == entries@.len() - r.kept@.len(),
        limit == 0 || entries@.len() <= limit ==> r.kept@ == entries@,
        0 < limit < entries@.len() ==> r.kept@ == entries@.skip(entries@.len() - limit),
{
    let total: usize = entries.len();
    let kept: Vec<HistoryEntry> = if limit == 0 {
        entries
    } else {
        newest_entries(entries, limit)
    };
    let removed: usize = total - kept.len();
    Rewrite { kept, removed }
}

/// The permission bits of a file's mode.
pub const PERMISSION_BITS: u32 = 0o777;

/// Owner-only. Clipboard history is a record of everything you have copied, so
/// it has no business being readable by other accounts on the machine, which is
/// what the default umask would give it.
pub const OWNER_ONLY_FILE: u32 = 0o600;

pub const OWNER_ONLY_DIR: u32 = 0o700;

/// Whether a path's permissions, as they are in `mode`, are to be set to
/// `wanted`.
pub fn needs_restricting(mode: u32, wanted: u32) -> (r: bool)
    ensures
        r == (mode & PERMISSION_BITS != wanted),
        r == (mode & 0o777 != wanted),
{
    mode & PERMISSION_BITS != wanted
}

/// Deleting leaves no entry with that content and no other entry out, and doing
/// it again changes nothing.
pub proof fn law_deleted_content_is_gone(entries: Seq<HistoryEntry>, content: Seq<char>)
    ensures
        forall|i: int|
            0 <= i < others(entries, content).len() ==> (#[trigger] others(
                entries,
                content,
            )[i]).content@ != content,
        forall|e: HistoryEntry|
            entries.contains(e) && e.content@ != content ==> #[trigger] others(
                entries,
                content,
            ).contains(e),
        others(others(entries, content), content) == others(entries, content),
{
    let p = differs(content);
    let kept = others(entries, content);
    assert forall|i: int| 0 <= i < kept.len() implies (#[trigger] kept[i]).content@ != content by {
        entries.lemma_filter_pred(p, i);
    }
    assert forall|e: HistoryEntry| entries.contains(e) && e.content@ != content implies #[trigger] others(
        entries,
        content,
    ).contains(e) by {
        let i = choose|i: int| 0 <= i < entries.len() && entries[i] == e;
        entries.lemma_filter_contains(p, i);
    }
    lines::lemma_filter_all(kept, p);
}

/// Pruning keeps the newest entries, in order and never more than the limit, and
/// doing it again changes nothing; a limit of 0 keeps everything.
pub proof fn law_pruning_keeps_the_newest<T>(entries: Seq<T>, limit: nat)
    ensures
        limit > 0 ==> pruned(entries, limit).len() <= limit,
        0 < limit <= entries.len() ==> pruned(entries, limit).len() == limit,
        limit == 0 || entries.len() <= limit ==> pruned(entries, limit) == entries,
        pruned(entries, limit).len() <= entries.len(),
        entries.skip(entries.len() - pruned(entries, limit).len()) == pruned(entries, limit),
        pruned(pruned(entries, limit), limit) == pruned(entries, limit),
{
    assert(entries.skip(0) == entries);
}

/// Pruning after every capture keeps as much as pruning now and then: entries
/// that a prune dropped never come back as newest.
pub proof fn law_pruning_commutes_with_capture<T>(entries: Seq<T>, entry: T, limit: nat)
    ensures
        pruned(pruned(entries, limit).push(entry), limit) == pruned(entries.push(entry), limit),
{
    assert(pruned(pruned(entries, limit).push(entry), limit) =~= pruned(
        entries.push(entry),
        limit,
    ));
}

/// `parse` reads back what `write` writes, and what `write` writes can stand on a
/// line of its own.
pub open spec fn faithful<E>(
    write: spec_fn(E) -> Seq<char>,
    parse: spec_fn(Seq<char>) -> Option<E>,
) -> bool {
    forall|e: E| lines::sound_line(#[trigger] write(e)) && parse(write(e)) == Some(e)
}

/// The entries that `parse` finds in a file.
pub open spec fn stored<E>(file: Seq<u8>, parse: spec_fn(Seq<char>) -> Option<E>) -> Seq<E> {
    lines::text_lines(file).filter_map(parse)
}

/// The file that holds `entries`, one line each.
pub open spec fn written<E>(entries: Seq<E>, write: spec_fn(E) -> Seq<char>) -> Seq<u8> {
    encode_utf8(lines::framed(entries.map_values(write)))
}

proof fn lemma_all_found<E>(
    entries: Seq<E>,
    write: spec_fn(E) -> Seq<char>,
    parse: spec_fn(Seq<char>) -> Option<E>,
)
    requires
        faithful(write, parse),
    ensures
        entries.map_values(write).filter_map(parse) == entries,
    decreases entries.len(),
{
    let texts = entries.map_values(write);
    if entries.len() > 0 {
        let before = entries.drop_last();
        lemma_all_found(before, write, parse);
        assert(texts.drop_last() == before.map_values(write));
        assert(texts.last() == write(entries.last()));
        assert(texts.filter_map(parse) =~= entries);
    } else {
        assert(texts.filter_map(parse) =~= entries);
    }
}

/// Parsing the lines of a file one by one and reading the history from that finds
/// the entries that the file holds.
pub proof fn law_history_is_read_line_by_line(
    file: Seq<u8>,
    parse: spec_fn(Seq<char>) -> Option<EntryView>,
)
    ensures
        present(lines::text_lines(file).map_values(parse)) == stored(file, parse),
{
    lemma_present(lines::text_lines(file), parse);
}

proof fn lemma_present(texts: Seq<Seq<char>>, parse: spec_fn(Seq<char>) -> Option<EntryView>)
    ensures
        present(texts.map_values(parse)) == texts.filter_map(parse),
    decreases texts.len(),
{
    let parsed = texts.map_values(parse);
    if texts.len() > 0 {
        lemma_present(texts.drop_last(), parse);
        assert(parsed.drop_last() == texts.drop_last().map_values(parse));
        assert(parsed.last() == parse(texts.last()));
        assert(present(parsed) =~= texts.filter_map(parse));
    } else {
        assert(present(parsed) =~= texts.filter_map(parse));
    }
}

/// A carriage return after a text changes nothing of what `parse` makes of it.
pub open spec fn ignores_return<E>(parse: spec_fn(Seq<char>) -> Option<E>) -> bool {
    forall|t: Seq<char>| #[trigger] parse(t.push('\r')) == parse(t)
}

/// A file that ends with a carriage return is read the same once its last line is
/// closed, which takes that carriage return away.
pub open spec fn closes_alike<E>(file: Seq<u8>, parse: spec_fn(Seq<char>) -> Option<E>) -> bool {
    file.len() > 0 && file.last() == lines::RETURN ==> ignores_return(parse)
}

proof fn lemma_found_in_one<E>(line: Seq<u8>, parse: spec_fn(Seq<char>) -> Option<E>)
    ensures
        lines::legible(seq![line]).filter_map(parse) == if valid_utf8(line) && !text::blank(
            decode_utf8(line),
        ) && parse(decode_utf8(line)) is Some {
            seq![parse(decode_utf8(line))->0]
        } else {
            seq![]
        },
{
    lines::lemma_legible_one(line);
    let found = lines::legible(seq![line]);
    assert(Seq::<Seq<char>>::empty().filter_map(parse) == Seq::<E>::empty());
    if found.len() > 0 {
        assert(found.drop_last() == Seq::<Seq<char>>::empty());
        assert(found.filter_map(parse) =~= if parse(decode_utf8(line)) is Some {
            seq![parse(decode_utf8(line))->0]
        } else {
            seq![]
        });
    }
}

proof fn lemma_closed_history<E>(file: Seq<u8>, parse: spec_fn(Seq<char>) -> Option<E>)
    requires
        !lines::at_line_start(file),
        closes_alike(file, parse),
    ensures
        stored(file.push(lines::NEWLINE), parse) == stored(file, parse),
{
    lines::lemma_closed_text(file);
    let start = lines::legible(lines::byte_lines(file).drop_last());
    let open = lines::byte_lines(file).last();
    let closed = lines::without_return(open);
    tail::lemma_filter_map_concat(start, lines::legible(seq![open]), parse);
    tail::lemma_filter_map_concat(start, lines::legible(seq![closed]), parse);
    lemma_found_in_one(open, parse);
    lemma_found_in_one(closed, parse);
    if open.last() == lines::RETURN {
        lines::lemma_decode_return(open);
    }
}

/// What is appended is what is read: after an entry has been appended to a file,
/// the history is what it was and that entry, and the file ends with a whole
/// line, whether or not it did before.
pub proof fn law_appended_entry_is_read_back<E>(
    file: Seq<u8>,
    entry: E,
    write: spec_fn(E) -> Seq<char>,
    parse: spec_fn(Seq<char>) -> Option<E>,
)
    requires
        faithful(write, parse),
        closes_alike(file, parse),
    ensures
        ({
            let longer = file + encode_utf8(
                lines::framed_after(lines::last_byte(file), write(entry)),
            );
            &&& stored(longer, parse) == stored(file, parse).push(entry)
            &&& lines::at_line_start(longer)
        }),
{
    let line = write(entry);
    let closed = if lines::at_line_start(file) {
        file
    } else {
        file.push(lines::NEWLINE)
    };
    lines::lemma_framed_after(file, line);
    if !lines::at_line_start(file) {
        lemma_closed_history(file, parse);
    }
    let longer = lines::text_lines(closed).push(line);
    assert(longer.drop_last() == lines::text_lines(closed));
    assert(longer.filter_map(parse) =~= stored(file, parse).push(entry));
}

/// What is rewritten is what is read: a rewritten file gives back the entries it
/// was made of, in order.
pub proof fn law_rewritten_history_is_read_back<E>(
    entries: Seq<E>,
    write: spec_fn(E) -> Seq<char>,
    parse: spec_fn(Seq<char>) -> Option<E>,
)
    requires
        faithful(write, parse),
    ensures
        stored(written(entries, write), parse) == entries,
        lines::at_line_start(written(entries, write)),
{
    let texts = entries.map_values(write);
    assert forall|i: int| 0 <= i < texts.len() implies lines::sound_line(#[trigger] texts[i]) by {
        assert(texts[i] == write(entries[i]));
    }
    lines::law_rewritten_file_is_read_back(texts);
    lemma_all_found(entries, write, parse);
}

/// A final line left half-written by a kill costs nothing but itself: where it is
/// cut inside a character or does not parse, the history is what the whole lines
/// before it hold.
pub proof fn law_half_written_line_costs_nothing_else<E>(
    file: Seq<u8>,
    fragment: Seq<u8>,
    parse: spec_fn(Seq<char>) -> Option<E>,
)
    requires
        lines::at_line_start(file),
        !fragment.contains(lines::NEWLINE),
        valid_utf8(fragment) ==> parse(decode_utf8(fragment)) is None,
    ensures
        stored(file + fragment, parse) == stored(file, parse),
{
    lines::lemma_text_concat(file, fragment);
    tail::lemma_filter_map_concat(lines::text_lines(file), lines::text_lines(fragment), parse);
    if fragment.len() > 0 {
        lines::lemma_line_end_bounds(fragment);
        assert(lines::byte_lines(fragment) == seq![fragment]);
        lemma_found_in_one(fragment, parse);
    } else {
        lines::lemma_legible_empty();
        assert(lines::byte_lines(fragment) == Seq::<Seq<u8>>::empty());
        assert(Seq::<Seq<char>>::empty().filter_map(parse) == Seq::<E>::empty());
    }
    assert(stored(file, parse) + Seq::<E>::empty() == stored(file, parse));
}

/// A kill during a write costs no capture that follows it: the entry appended
/// next is read back behind the whole lines from before.
pub proof fn law_append_recovers_from_a_kill<E>(
    file: Seq<u8>,
    fragment: Seq<u8>,
    entry: E,
    write: spec_fn(E) -> Seq<char>,
    parse: spec_fn(Seq<char>) -> Option<E>,
)
    requires
        faithful(write, parse),
        lines::at_line_start(file),
        !fragment.contains(lines::NEWLINE),
        valid_utf8(fragment) ==> parse(decode_utf8(fragment)) is None,
        closes_alike(fragment, parse),
    ensures
        ({
            let left = file + fragment;
            let longer = left + encode_utf8(
                lines::framed_after(lines::last_byte(left), write(entry)),
            );
            stored(longer, parse) == stored(file, parse).push(entry)
        }),
{
    let left = file + fragment;
    law_half_written_line_costs_nothing_else(file, fragment, parse);
    assert(fragment.len() > 0 ==> left.last() == fragment.last());
    assert(fragment.len() == 0 ==> left == file);
    law_appended_entry_is_read_back(left, entry, write, parse);
}

/// A capture holds exactly the text that was copied, with its white space intact,
/// the moment that the clock said as its id, and the app that it came from; two
/// captures are the same only where all of that is.
pub proof fn law_capture_is_faithful(
    nanos: Option<u128>,
    content: Seq<char>,
    from: Option<source::SourceView>,
    other: Seq<char>,
)
    ensures
        captured(nanos, content, from) matches Ok(entry) ==> {
            &&& entry.content == content
            &&& nanos == Some(entry.id)
            &&& clock::timestamp_of_nanos(entry.id) == Some(entry.timestamp)
            &&& from is None ==> entry.source is None && entry.source_bundle_id is None
            &&& from matches Some(s) ==> entry.source == s.name && entry.source_bundle_id
                == s.bundle_id
            &&& captured(nanos, other, from) == captured(nanos, content, from) ==> other == content
        },
        captured(nanos, content, from) is Ok <==> nanos is Some && clock::timestamp_of_nanos(
            nanos->0,
        ) is Some,
{
}

/// The entry made of a moment, a text and an app holds each of them unchanged.
pub proof fn law_entry_holds_what_it_was_made_of(
    id: u128,
    timestamp: Seq<char>,
    content: Seq<char>,
    name: Option<Seq<char>>,
    bundle_id: Option<Seq<char>>,
)
    ensures
        ({
            let e = entry_of(id, timestamp, content, Some(source::SourceView { name, bundle_id }));
            &&& e.id == id && e.timestamp == timestamp && e.content == content
            &&& e.source == name && e.source_bundle_id == bundle_id
        }),
        ({
            let e = entry_of(id, timestamp, content, None);
            &&& e.id == id && e.timestamp == timestamp && e.content == content
            &&& e.source is None && e.source_bundle_id is None
        }),
{
}

/// The history is made of its lines one by one: a line that parsed adds its entry
/// at the end, and one that did not adds nothing.
pub proof fn law_history_grows_line_by_line(parsed: Seq<Option<EntryView>>, entry: EntryView)
    ensures
        present(Seq::empty()) == Seq::<EntryView>::empty(),
        present(parsed.push(Some(entry))) == present(parsed).push(entry),
        present(parsed.push(None)) == present(parsed),
{
    assert(parsed.push(Some(entry)).drop_last() =~= parsed);
    assert(parsed.push(None).drop_last() =~= parsed);
    assert(present(parsed.push(Some(entry))) =~= present(parsed).push(entry));
    assert(present(parsed.push(None)) =~= present(parsed));
    assert(present(Seq::empty()) =~= Seq::<EntryView>::empty());
}

/// Deleting goes entry by entry: each stays, in its place, exactly where its
/// content is something else.
pub proof fn law_deleting_goes_entry_by_entry(
    entries: Seq<HistoryEntry>,
    entry: HistoryEntry,
    content: Seq<char>,
)
    ensures
        others(Seq::empty(), content) == Seq::<HistoryEntry>::empty(),
        others(entries.push(entry), content) == if entry.content@ == content {
            others(entries, content)
        } else {
            others(entries, content).push(entry)
        },
{
    entries.lemma_filter_push(entry, differs(content));
    reveal_with_fuel(Seq::filter, 1);
}

} // verus!
