//! The command line: which command is meant, and what each one prints.

use vstd::prelude::*;

use crate::display;
use crate::display::{format_entry, preview, PREVIEW_WIDTH};
use crate::fuzzy;
use crate::fuzzy::score;
use crate::history::HistoryEntry;
use crate::lines;
use crate::rank;
use crate::rank::rank;
use crate::text;
use crate::text::{decimal_text, parse_index, same};

verus! {

pub const DEFAULT_LIST_COUNT: usize = 20;

pub const USAGE: &'static str =
    "clipvault — a clipboard history keeper

USAGE:
    clipvault [watch]           Poll the clipboard and record every change (default)
    clipvault list [-n N]       Show the last N entries (default 20)
    clipvault search <term>     Case-insensitive substring search across history
    clipvault copy <index>      Put a past entry back on the clipboard
    clipvault help              Show this message

History lives in ~/.clipvault/history.jsonl. Indices shown by `list` and
`search` are absolute positions in that file, so they stay valid as new
entries arrive and can be passed straight to `copy`.

The menu bar app (ClipVault.app) watches and reads the same file. Build it
with ./scripts/bundle.sh --install, then press Cmd+Shift+V for the history.
";

/// What the command line asks for.
#[derive(Debug, Clone, Copy, PartialEq, Eq, Structural)]
pub enum Command {
    Watch,
    List,
    Search,
    Copy,
    Help,
}

/// Why a command cannot be carried out.
#[derive(Debug, Clone, PartialEq, Eq)]
pub enum CliError {
    UnknownCommand(String),
    MissingCount,
    InvalidCount(String),
    UnexpectedArgument(String),
    MissingTerm,
    TooManyTerms,
    NeedsOneIndex,
    InvalidIndex(String),
    NoEntry { index: usize, held: usize },
}

/// What a [`CliError`] holds.
pub enum CliErrorView {
    UnknownCommand(Seq<char>),
    MissingCount,
    InvalidCount(Seq<char>),
    UnexpectedArgument(Seq<char>),
    MissingTerm,
    TooManyTerms,
    NeedsOneIndex,
    InvalidIndex(Seq<char>),
    NoEntry { index: nat, held: nat },
}

impl View for CliError {
    type V = CliErrorView;

    open spec fn view(&self) -> CliErrorView {
        match self {
            CliError::UnknownCommand(s) => CliErrorView::UnknownCommand(s@),
            CliError::MissingCount => CliErrorView::MissingCount,
            CliError::InvalidCount(s) => CliErrorView::InvalidCount(s@),
            CliError::UnexpectedArgument(s) => CliErrorView::UnexpectedArgument(s@),
            CliError::MissingTerm => CliErrorView::MissingTerm,
            CliError::TooManyTerms => CliErrorView::TooManyTerms,
            CliError::NeedsOneIndex => CliErrorView::NeedsOneIndex,
            CliError::InvalidIndex(s) => CliErrorView::InvalidIndex(s@),
            CliError::NoEntry { index, held } => CliErrorView::NoEntry {
                index: *index as nat,
                held: *held as nat,
            },
        }
    }
}

/// How an error reads.
pub open spec fn message_of(e: CliErrorView) -> Seq<char> {
    match e {
        CliErrorView::UnknownCommand(s) => "unknown command '"@ + s + "'\n\n"@ + USAGE@,
        CliErrorView::MissingCount => "`-n` needs a number, e.g. `clipvault list -n 20`"@,
        CliErrorView::InvalidCount(s) => "invalid count '"@ + s + "' — expected a whole number"@,
        CliErrorView::UnexpectedArgument(s) => "unexpected argument '"@ + s + "' for `list`"@,
        CliErrorView::MissingTerm => "`search` needs a term, e.g. `clipvault search ssh`"@,
        CliErrorView::TooManyTerms =>
            "`search` takes a single term — quote it if it contains spaces"@,
        CliErrorView::NeedsOneIndex =>
            "`copy` needs one index from `clipvault list`, e.g. `clipvault copy 42`"@,
        CliErrorView::InvalidIndex(s) => "invalid index '"@ + s + "' — expected a whole number"@,
        CliErrorView::NoEntry { index, held } => "no entry "@ + text::decimal(index)
            + " — history holds "@ + text::decimal(held) + " entries"@,
    }
}

fn around(before: &str, middle: &str, after: &str) -> (r: String)
    ensures
        r@ == before@ + middle@ + after@,
{
    let mut out = before.to_owned();
    out.append(middle);
    out.append(after);
    out
}

impl CliError {
    /// How the error reads.
    pub fn message(&self) -> (r: String)
        ensures
            r@ == message_of(self@),
    {
        match self {
            CliError::UnknownCommand(s) => {
                let mut out = around("unknown command '", s.as_str(), "'\n\n");
                out.append(USAGE);
                out
            },
            CliError::MissingCount => "`-n` needs a number, e.g. `clipvault list -n 20`".to_owned(),
            CliError::InvalidCount(s) => around(
                "invalid count '",
                s.as_str(),
                "' — expected a whole number",
            ),
            CliError::UnexpectedArgument(s) => around(
                "unexpected argument '",
                s.as_str(),
                "' for `list`",
            ),
            CliError::MissingTerm => "`search` needs a term, e.g. `clipvault search ssh`".to_owned(),
            CliError::TooManyTerms => {
                "`search` takes a single term — quote it if it contains spaces".to_owned()
            },
            CliError::NeedsOneIndex => {
                "`copy` needs one index from `clipvault list`, e.g. `clipvault copy 42`".to_owned()
            },
            CliError::InvalidIndex(s) => around(
                "invalid index '",
                s.as_str(),
                "' — expected a whole number",
            ),
            CliError::NoEntry { index, held } => {
                let mut out = around(
                    "no entry ",
                    decimal_text(*index as u64).as_str(),
                    " — history holds ",
                );
                out.append(decimal_text(*held as u64).as_str());
                out.append(" entries");
                out
            },
        }
    }
}

/// The command that a word names.
pub open spec fn command_named(word: Seq<char>) -> Option<Command> {
    if word == "watch"@ {
        Some(Command::Watch)
    } else if word == "list"@ {
        Some(Command::List)
    } else if word == "search"@ {
        Some(Command::Search)
    } else if word == "copy"@ {
        Some(Command::Copy)
    } else if word == "help"@ || word == "-h"@ || word == "--help"@ {
        Some(Command::Help)
    } else {
        None
    }
}

/// The command that a command line starts with. Where there is none, it is to
/// watch.
pub fn command(args: &Vec<String>) -> (r: Result<Command, CliError>)
    ensures
        match r {
            Ok(c) => c == if args@.len() == 0 {
                Command::Watch
            } else {
                command_named(args@[0]@)->0
            } && (args@.len() > 0 ==> command_named(args@[0]@) is Some),
            Err(e) => args@.len() > 0 && command_named(args@[0]@) is None && e@
                == CliErrorView::UnknownCommand(args@[0]@),
        },
{
    if args.len() == 0 {
        return Ok(Command::Watch);
    }
    let word: &str = args[0].as_str();
    if same(word, "watch") {
        Ok(Command::Watch)
    } else if same(word, "list") {
        Ok(Command::List)
    } else if same(word, "search") {
        Ok(Command::Search)
    } else if same(word, "copy") {
        Ok(Command::Copy)
    } else if same(word, "help") || same(word, "-h") || same(word, "--help") {
        Ok(Command::Help)
    } else {
        Err(CliError::UnknownCommand(args[0].clone()))
    }
}

/// How many entries the arguments of `list` ask for, where `count` is asked for
/// so far. The last count given wins.
pub open spec fn count_in(args: Seq<Seq<char>>, count: nat) -> Result<nat, CliErrorView>
    decreases args.len(),
{
    if args.len() == 0 {
        Ok(count)
    } else if args[0] == "-n"@ || args[0] == "--number"@ {
        if args.len() == 1 {
            Err(CliErrorView::MissingCount)
        } else {
            match text::number_in(args[1]) {
                Some(n) => if n <= usize::MAX {
                    count_in(args.skip(2), n)
                } else {
                    Err(CliErrorView::InvalidCount(args[1]))
                },
                None => Err(CliErrorView::InvalidCount(args[1])),
            }
        }
    } else {
        Err(CliErrorView::UnexpectedArgument(args[0]))
    }
}

/// How many entries the arguments of `list` ask for.
pub fn parse_count(args: &[String]) -> (r: Result<usize, CliError>)
    ensures
        match r {
            Ok(n) => count_in(lines::text_views(args@), DEFAULT_LIST_COUNT as nat) == Ok::<
                nat,
                CliErrorView,
            >(n as nat),
            Err(e) => count_in(lines::text_views(args@), DEFAULT_LIST_COUNT as nat) == Err::<
                nat,
                CliErrorView,
            >(e@),
        },
{
    let ghost views = lines::text_views(args@);
    let total: usize = args.len();
    let mut count: usize = DEFAULT_LIST_COUNT;
    let mut i: usize = 0;
    assert(views.skip(0) =~= views);
    while i < total
        invariant
            total == args@.len(),
            i <= total,
            views == lines::text_views(args@),
            count_in(views, DEFAULT_LIST_COUNT as nat) == count_in(
                views.skip(i as int),
                count as nat,
            ),
        decreases total - i,
    {
        let ghost rest = views.skip(i as int);
        assert(rest[0] == args@[i as int]@);
        let arg: &str = args[i].as_str();
        if !same(arg, "-n") && !same(arg, "--number") {
            return Err(CliError::UnexpectedArgument(args[i].clone()));
        }
        if total - i == 1 {
            return Err(CliError::MissingCount);
        }
        assert(rest[1] == args@[i + 1]@);
        match parse_index(args[i + 1].as_str()) {
            Some(n) => {
                count = n;
            },
            None => {
                return Err(CliError::InvalidCount(args[i + 1].clone()));
            },
        }
        assert(rest.skip(2) =~= views.skip(i + 2));
        i += 2;
    }
    Ok(count)
}

/// `line` shows `entry` under `index`.
pub open spec fn shows(line: Seq<char>, index: int, entry: HistoryEntry) -> bool {
    exists|shown: Seq<char>| #[trigger]
        display::timestamp_shown(entry.timestamp@, shown) && line == display::entry_line_of(
            index as nat,
            shown,
            entry.content@,
        )
}

/// Where a listing of the last `count` of `total` entries starts.
pub open spec fn list_start(total: nat, count: nat) -> int {
    if total <= count {
        0
    } else {
        total - count
    }
}

/// What `list` prints: the last `count` entries under their positions, counted
/// from 1, oldest first.
pub fn list(entries: &Vec<HistoryEntry>, count: usize) -> (r: Vec<String>)
    ensures
        entries@.len() == 0 ==> lines::text_views(r@) == seq![
            "no history yet — run `clipvault watch` to start capturing"@,
        ],
        entries@.len() > 0 ==> ({
            let start = list_start(entries@.len(), count as nat);
            &&& r@.len() == entries@.len() - start
            &&& forall|k: int|
                0 <= k < r@.len() ==> shows((#[trigger] r@[k])@, start + k + 1, entries@[start + k])
        }),
        entries@.len() > 0 ==> r@.len() == if entries@.len() < count {
            entries@.len() as int
        } else {
            count as int
        },
{
    let mut out: Vec<String> = Vec::new();
    let total: usize = entries.len();
    if total == 0 {
        out.push("no history yet — run `clipvault watch` to start capturing".to_owned());
        assert(lines::text_views(out@) =~= seq![
            "no history yet — run `clipvault watch` to start capturing"@,
        ]);
        return out;
    }
    let start: usize = total.saturating_sub(count);
    let mut i: usize = start;
    while i < total
        invariant
            total == entries@.len(),
            start <= i <= total,
            start == list_start(total as nat, count as nat),
            out@.len() == i - start,
            forall|k: int|
                0 <= k < out@.len() ==> shows(
                    (#[trigger] out@[k])@,
                    start + k + 1,
                    entries@[start + k],
                ),
        decreases total - i,
    {
        let line: String = format_entry(i + 1, &entries[i]);
        assert(shows(line@, i + 1, entries@[i as int]));
        out.push(line);
        i += 1;
    }
    out
}

/// The term that `search` was given.
pub fn search_term(args: &[String]) -> (r: Result<String, CliError>)
    ensures
        match r {
            Ok(term) => args@.len() == 1 && term@ == args@[0]@,
            Err(e) => e@ == if args@.len() == 0 {
                CliErrorView::MissingTerm
            } else {
                CliErrorView::TooManyTerms
            } && args@.len() != 1,
        },
{
    if args.len() == 0 {
        Err(CliError::MissingTerm)
    } else if args.len() == 1 {
        Ok(args[0].clone())
    } else {
        Err(CliError::TooManyTerms)
    }
}

/// What each entry scores for `term`.
pub open spec fn entry_scores(term: Seq<char>, entries: Seq<HistoryEntry>) -> Seq<Option<int>> {
    entries.map_values(|e: HistoryEntry| fuzzy::score_of(term, e.content@))
}

/// What `search` prints: the entries that match, best match first and ties in
/// history order, under their positions, counted from 1.
pub fn search(term: &str, entries: &Vec<HistoryEntry>) -> (r: Vec<String>)
    ensures
        ({
            let order = rank::ranking_of(entry_scores(term@, entries@));
            &&& rank::is_ranking(entry_scores(term@, entries@), order)
            &&& order.len() == 0 ==> lines::text_views(r@) == seq![
                "no matches for '"@ + term@ + "'"@,
            ]
            &&& order.len() > 0 ==> r@.len() == order.len() && forall|k: int|
                0 <= k < r@.len() ==> shows(
                    (#[trigger] r@[k])@,
                    order[k] + 1,
                    entries@[order[k] as int],
                )
        }),
        exists|order: Seq<usize>|
            #![trigger order.len()]
            {
                &&& order.no_duplicates()
                &&& forall|k: int|
                    0 <= k < order.len() ==> (#[trigger] order[k] as int) < entries@.len()
                        && fuzzy::score_of(term@, entries@[order[k] as int].content@) is Some
                &&& forall|i: int|
                    0 <= i < entries@.len() && fuzzy::score_of(
                        term@,
                        (#[trigger] entries@[i]).content@,
                    ) is Some ==> order.contains(i as usize)
                &&& forall|j: int, k: int|
                    0 <= j < k < order.len() ==> {
                        let first = #[trigger] order[j];
                        let second = #[trigger] order[k];
                        let a = fuzzy::score_of(term@, entries@[first as int].content@)->0;
                        let b = fuzzy::score_of(term@, entries@[second as int].content@)->0;
                        a > b || (a == b && first < second)
                    }
                &&& order.len() == 0 ==> r@.len() == 1 && r@[0]@ == "no matches for '"@ + term@ + "'"@
                &&& order.len() > 0 ==> r@.len() == order.len()
                &&& order.len() > 0 ==> forall|k: int|
                    0 <= k < r@.len() ==> shows(
                        (#[trigger] r@[k])@,
                        order[k] + 1,
                        entries@[order[k] as int],
                    )
            },
{
    let ghost wanted = entry_scores(term@, entries@);
    let mut scored: Vec<Option<i32>> = Vec::new();
    let total: usize = entries.len();
    let mut i: usize = 0;
    while i < total
        invariant
            i <= total,
            total == entries@.len(),
            wanted == entry_scores(term@, entries@),
            rank::score_view(scored@) == wanted.take(i as int),
        decreases total - i,
    {
        let ghost before = rank::score_view(scored@);
        scored.push(score(term, entries[i].content.as_str()));
        assert(wanted[i as int] == fuzzy::score_of(term@, entries@[i as int].content@));
        assert(rank::score_view(scored@) =~= before.push(wanted[i as int]));
        assert(wanted.take(i + 1) =~= wanted.take(i as int).push(wanted[i as int]));
        i += 1;
    }
    assert(wanted.take(i as int) =~= wanted);
    let order: Vec<usize> = rank(&scored);
    proof {
        law_search_ranks_by_content(term@, entries@);
        assert(order@.len() == order@.len());
    }
    let mut out: Vec<String> = Vec::new();
    if order.len() == 0 {
        out.push(around("no matches for '", term, "'"));
        assert(lines::text_views(out@) =~= seq!["no matches for '"@ + term@ + "'"@]);
        return out;
    }
    let mut k: usize = 0;
    while k < order.len()
        invariant
            k <= order@.len(),
            out@.len() == k,
            total == entries@.len(),
            wanted == entry_scores(term@, entries@),
            rank::is_ranking(wanted, order@),
            forall|j: int|
                0 <= j < out@.len() ==> shows(
                    (#[trigger] out@[j])@,
                    order@[j] + 1,
                    entries@[order@[j] as int],
                ),
        decreases order.len() - k,
    {
        let at: usize = order[k];
        assert(order@[k as int] < wanted.len());
        let line: String = format_entry(at + 1, &entries[at]);
        assert(shows(line@, at + 1, entries@[at as int]));
        out.push(line);
        k += 1;
    }
    out
}

/// The position that `copy` was given, counted from 1.
pub fn copy_index(args: &[String]) -> (r: Result<usize, CliError>)
    ensures
        match r {
            Ok(n) => args@.len() == 1 && text::number_in(args@[0]@) == Some(n as nat),
            Err(e) => if args@.len() == 1 {
                e@ == CliErrorView::InvalidIndex(args@[0]@) && (text::number_in(args@[0]@) is None
                    || text::number_in(args@[0]@)->0 > usize::MAX)
            } else {
                e@ == CliErrorView::NeedsOneIndex
            },
        },
{
    if args.len() != 1 {
        return Err(CliError::NeedsOneIndex);
    }
    match parse_index(args[0].as_str()) {
        Some(n) => Ok(n),
        None => Err(CliError::InvalidIndex(args[0].clone())),
    }
}

/// The entry at a position, counted from 1.
pub open spec fn entry_at<T>(entries: Seq<T>, index: nat) -> Option<T> {
    if 1 <= index <= entries.len() {
        Some(entries[index - 1])
    } else {
        None
    }
}

/// The content that `copy` puts on the clipboard.
pub fn copy(index: usize, entries: &Vec<HistoryEntry>) -> (r: Result<String, CliError>)
    ensures
        match r {
            Ok(content) => entry_at(entries@, index as nat) is Some && content@ == (entry_at(
                entries@,
                index as nat,
            )->0).content@,
            Err(e) => entry_at(entries@, index as nat) is None && e@ == (CliErrorView::NoEntry {
                index: index as nat,
                held: entries@.len(),
            }),
        },
        r is Ok <==> 1 <= index <= entries@.len(),
        r matches Ok(content) ==> content@ == entries@[index - 1].content@,
        r matches Err(e) ==> e == (CliError::NoEntry { index, held: entries.len() }),
{
    let held: usize = entries.len();
    if index >= 1 && index <= held {
        Ok(entries[index - 1].content.clone())
    } else {
        Err(CliError::NoEntry { index, held })
    }
}

/// What `copy` prints once the content is on the clipboard.
pub fn copied_line(content: &str) -> (r: String)
    ensures
        r@ == "copied "@ + display::preview_of(content@, PREVIEW_WIDTH as nat),
        r@ == "copied "@ + display::preview_of(content@, 80),
{
    let mut out = "copied ".to_owned();
    out.append(preview(content, PREVIEW_WIDTH).as_str());
    out
}

/// A position that `list` or `search` shows can be passed straight to `copy`, and
/// names the entry it was shown with: the position of entry `i` is `i + 1`, and
/// its digits are read as that number.
pub proof fn law_shown_index_can_be_copied<T>(entries: Seq<T>, i: int)
    requires
        0 <= i < entries.len(),
    ensures
        text::number_in(text::decimal((i + 1) as nat)) == Some((i + 1) as nat),
        entry_at(entries, (i + 1) as nat) == Some(entries[i]),
{
    text::law_decimal_is_read_back((i + 1) as nat);
}

/// Positions stay valid as new entries arrive.
pub proof fn law_index_survives_new_entries<T>(entries: Seq<T>, newer: Seq<T>, index: nat)
    requires
        entry_at(entries, index) is Some,
    ensures
        entry_at(entries + newer, index) == entry_at(entries, index),
{
}

/// `list` shows the newest entries: as many as were asked for, or all there are.
pub proof fn law_list_shows_the_newest(total: nat, count: nat)
    ensures
        total - list_start(total, count) == if total < count {
            total
        } else {
            count
        },
{
}

/// A search lists every entry that holds the term as one piece, within the part
/// of it that is scanned and whatever the case of its letters, as long as each of
/// those letters folds to the one character that the term has there.
pub proof fn law_search_finds_substrings(
    term: Seq<char>,
    entries: Seq<HistoryEntry>,
    i: usize,
    at: int,
)
    requires
        entries.len() <= usize::MAX,
        i < entries.len(),
        ({
            let scanned = fuzzy::scanned(entries[i as int].content@);
            let needle = text::folded_text(term);
            &&& 0 <= at
            &&& at + needle.len() <= scanned.len()
            &&& forall|k: int|
                0 <= k < needle.len() ==> fuzzy::folds(#[trigger] scanned[at + k], needle[k])
        }),
    ensures
        rank::ranking_of(entry_scores(term, entries)).contains(i),
{
    fuzzy::law_substring_is_found(term, entries[i as int].content@, at);
    let s = entry_scores(term, entries);
    rank::lemma_ranking_exists(s);
    assert(s[i as int] is Some);
}

/// A search looks at the whole of what was copied: an entry is listed exactly where
/// its content has a score for the term, and what is listed before something else
/// has a higher score, or the same and is older.
pub proof fn law_search_ranks_by_content(term: Seq<char>, entries: Seq<HistoryEntry>)
    requires
        entries.len() <= usize::MAX,
    ensures
        ({
            let order = rank::ranking_of(entry_scores(term, entries));
            &&& order.no_duplicates()
            &&& forall|k: int|
                0 <= k < order.len() ==> (#[trigger] order[k] as int) < entries.len()
                    && fuzzy::score_of(term, entries[order[k] as int].content@) is Some
            &&& forall|i: int|
                0 <= i < entries.len() && fuzzy::score_of(
                    term,
                    (#[trigger] entries[i]).content@,
                ) is Some ==> order.contains(i as usize)
            &&& forall|j: int, k: int|
                0 <= j < k < order.len() ==> {
                    let first = #[trigger] order[j];
                    let second = #[trigger] order[k];
                    let a = fuzzy::score_of(term, entries[first as int].content@)->0;
                    let b = fuzzy::score_of(term, entries[second as int].content@)->0;
                    a > b || (a == b && first < second)
                }
        }),
{
    let s = entry_scores(term, entries);
    let order = rank::ranking_of(s);
    rank::law_best_score_comes_first(s);
    assert forall|i: int| 0 <= i < entries.len() implies s[i] == fuzzy::score_of(
        term,
        (#[trigger] entries[i]).content@,
    ) by {}
    assert forall|i: int|
        0 <= i < entries.len() && fuzzy::score_of(
            term,
            (#[trigger] entries[i]).content@,
        ) is Some implies order.contains(i as usize) by {
        assert(s[i] is Some);
    }
    assert forall|j: int, k: int| 0 <= j < k < order.len() implies {
        let first = #[trigger] order[j];
        let second = #[trigger] order[k];
        let a = fuzzy::score_of(term, entries[first as int].content@)->0;
        let b = fuzzy::score_of(term, entries[second as int].content@)->0;
        a > b || (a == b && first < second)
    } by {
        assert(s[order[j] as int] == fuzzy::score_of(term, entries[order[j] as int].content@));
        assert(s[order[k] as int] == fuzzy::score_of(term, entries[order[k] as int].content@));
    }
}

/// A line that shows an entry tells the position it can be copied by, and the start
/// of that very entry's content.
pub proof fn law_shown_line_tells_its_entry(line: Seq<char>, index: int, entry: HistoryEntry)
    requires
        shows(line, index, entry),
        index >= 0,
    ensures
        exists|shown: Seq<char>| #[trigger]
            display::timestamp_shown(entry.timestamp@, shown) && line == display::entry_line_of(
                index as nat,
                shown,
                entry.content@,
            ),
        ({
            let told = display::preview_of(entry.content@, 80);
            told.len() <= line.len() && line.skip(line.len() - told.len()) == told
        }),
{
    let shown = choose|shown: Seq<char>| #[trigger]
        display::timestamp_shown(entry.timestamp@, shown) && line == display::entry_line_of(
            index as nat,
            shown,
            entry.content@,
        );
    let told = display::preview_of(entry.content@, 80);
    display::law_entry_line_tells_position_time_and_content(index as nat, shown, entry.content@);
    assert(line.skip(line.len() - told.len()) =~= told);
}

/// `list` leaves out entries only at the start, and only where more are there than
/// were asked for: what it shows ends with the newest.
pub proof fn law_list_ends_with_the_newest(total: nat, count: nat)
    ensures
        0 <= list_start(total, count) <= total,
        total <= count ==> list_start(total, count) == 0,
        count < total ==> list_start(total, count) + count == total,
{
}

/// Each command goes by its own name, and by no other but for help, which has three.
pub proof fn law_commands_go_by_their_names(word: Seq<char>)
    ensures
        command_named("watch"@) == Some(Command::Watch),
        command_named("list"@) == Some(Command::List),
        command_named("search"@) == Some(Command::Search),
        command_named("copy"@) == Some(Command::Copy),
        command_named("help"@) == Some(Command::Help),
        command_named("-h"@) == Some(Command::Help),
        command_named("--help"@) == Some(Command::Help),
        command_named(word) is Some ==> word == "watch"@ || word == "list"@ || word == "search"@
            || word == "copy"@ || word == "help"@ || word == "-h"@ || word == "--help"@,
{
    reveal_strlit("watch");
    reveal_strlit("list");
    reveal_strlit("search");
    reveal_strlit("copy");
    reveal_strlit("help");
    reveal_strlit("-h");
    reveal_strlit("--help");
    assert("watch"@[0] == 'w' && "list"@[0] == 'l' && "search"@[0] == 's' && "copy"@[0] == 'c'
        && "help"@[0] == 'h' && "-h"@[1] == 'h' && "--help"@[1] == '-' && "-h"@[0] == '-'
        && "--help"@[0] == '-');
}

/// The last count given to `list` wins, a count that is no number or not there is
/// refused, and so is anything that is no count; with no arguments there are 20.
pub proof fn law_last_count_wins(args: Seq<Seq<char>>, count: nat, n: nat, word: Seq<char>)
    ensures
        count_in(Seq::empty(), count) == Ok::<nat, CliErrorView>(count),
        DEFAULT_LIST_COUNT == 20,
        count_in(args, count) is Ok && n <= usize::MAX ==> count_in(
            args.push("-n"@).push(text::decimal(n)),
            count,
        ) == Ok::<nat, CliErrorView>(n) && count_in(
            args.push("--number"@).push(text::decimal(n)),
            count,
        ) == Ok::<nat, CliErrorView>(n),
        count_in(args, count) is Ok ==> count_in(args.push("-n"@), count) == Err::<
            nat,
            CliErrorView,
        >(CliErrorView::MissingCount),
        count_in(args, count) is Ok && word != "-n"@ && word != "--number"@ ==> count_in(
            args.push(word),
            count,
        ) == Err::<nat, CliErrorView>(CliErrorView::UnexpectedArgument(word)),
        count_in(args, count) is Ok && text::number_in(word) is None ==> count_in(
            args.push("-n"@).push(word),
            count,
        ) == Err::<nat, CliErrorView>(CliErrorView::InvalidCount(word)),
    decreases args.len(),
{
    text::law_decimal_is_read_back(n);
    if args.len() == 0 {
        reveal_with_fuel(count_in, 2);
        let a = args.push("-n"@).push(text::decimal(n));
        let b = args.push("--number"@).push(text::decimal(n));
        let c = args.push("-n"@).push(word);
        assert(a.skip(2) =~= Seq::<Seq<char>>::empty());
        assert(b.skip(2) =~= Seq::<Seq<char>>::empty());
        assert(c.len() == 2);
    } else if count_in(args, count) is Ok {
        let rest = args.skip(2);
        let next = text::number_in(args[1])->0;
        law_last_count_wins(rest, next, n, word);
        assert(args.push("-n"@).push(text::decimal(n)).skip(2) =~= rest.push("-n"@).push(
            text::decimal(n),
        ));
        assert(args.push("--number"@).push(text::decimal(n)).skip(2) =~= rest.push(
            "--number"@,
        ).push(text::decimal(n)));
        assert(args.push("-n"@).skip(2) =~= rest.push("-n"@));
        assert(args.push(word).skip(2) =~= rest.push(word));
        assert(args.push("-n"@).push(word).skip(2) =~= rest.push("-n"@).push(word));
    }
}

/// An error names what it is about: the word that was not understood, or the
/// position that was asked for and how many entries there are.
pub proof fn law_errors_name_what_they_are_about(s: Seq<char>, index: nat, held: nat)
    ensures
        message_of(CliErrorView::UnknownCommand(s)) == "unknown command '"@ + s + "'\n\n"@ + USAGE@,
        message_of(CliErrorView::InvalidCount(s)) == "invalid count '"@ + s
            + "' — expected a whole number"@,
        message_of(CliErrorView::InvalidIndex(s)) == "invalid index '"@ + s
            + "' — expected a whole number"@,
        message_of(CliErrorView::UnexpectedArgument(s)) == "unexpected argument '"@ + s
            + "' for `list`"@,
        message_of(CliErrorView::NoEntry { index, held }) == "no entry "@ + text::decimal(index)
            + " — history holds "@ + text::decimal(held) + " entries"@,
{
}

} // verus!
