use clipvault::cli::{
    command, copied_line, copy, copy_index, list, parse_count, search, search_term, CliError,
    Command, USAGE,
};
use clipvault::history::{new_entry, HistoryEntry};

fn args(list: &[&str]) -> Vec<String> {
    list.iter().map(|s| s.to_string()).collect()
}

fn entries(list: &[&str]) -> Vec<HistoryEntry> {
    list.iter()
        .map(|content| new_entry(1, "then".to_string(), content, None))
        .collect()
}

#[test]
fn commands_are_told_apart() {
    assert_eq!(command(&args(&[])), Ok(Command::Watch));
    assert_eq!(command(&args(&["watch"])), Ok(Command::Watch));
    assert_eq!(command(&args(&["list", "-n", "3"])), Ok(Command::List));
    assert_eq!(command(&args(&["search", "x"])), Ok(Command::Search));
    assert_eq!(command(&args(&["copy", "1"])), Ok(Command::Copy));
    for word in ["help", "-h", "--help"] {
        assert_eq!(command(&args(&[word])), Ok(Command::Help));
    }
    let e = command(&args(&["frob"])).unwrap_err();
    assert_eq!(e, CliError::UnknownCommand("frob".to_string()));
    assert_eq!(e.message(), format!("unknown command 'frob'\n\n{USAGE}"));
    assert!(USAGE.starts_with("clipvault — a clipboard history keeper\n\nUSAGE:\n"));
    assert!(USAGE.ends_with("for the history.\n"));
}

#[test]
fn counts_are_parsed() {
    assert_eq!(parse_count(&args(&[])), Ok(20));
    assert_eq!(parse_count(&args(&["-n", "5"])), Ok(5));
    assert_eq!(parse_count(&args(&["--number", "0"])), Ok(0));
    assert_eq!(parse_count(&args(&["-n", "5", "--number", "7"])), Ok(7));

    let e = parse_count(&args(&["-n"])).unwrap_err();
    assert_eq!(e, CliError::MissingCount);
    assert_eq!(e.message(), "`-n` needs a number, e.g. `clipvault list -n 20`");
    let e = parse_count(&args(&["-n", "5", "-n", "few"])).unwrap_err();
    assert_eq!(e.message(), "invalid count 'few' — expected a whole number");
    let e = parse_count(&args(&["-n", "-3"])).unwrap_err();
    assert_eq!(e, CliError::InvalidCount("-3".to_string()));
    let e = parse_count(&args(&["all"])).unwrap_err();
    assert_eq!(e.message(), "unexpected argument 'all' for `list`");
}

#[test]
fn listing_shows_the_newest_under_their_positions() {
    let all = entries(&["a", "b", "c"]);
    assert_eq!(list(&all, 2), ["    2  then  b", "    3  then  c"]);
    assert_eq!(list(&all, 20).len(), 3);
    assert!(list(&all, 0).is_empty());
    assert_eq!(
        list(&Vec::new(), 5),
        ["no history yet — run `clipvault watch` to start capturing"]
    );
}

#[test]
fn searching_shows_the_best_match_first() {
    let all = entries(&["s x s x h", "nothing", "ssh key", "ssh", "see sh"]);
    assert_eq!(
        search("SSH", &all),
        ["    3  then  ssh key", "    4  then  ssh", "    5  then  see sh", "    1  then  s x s x h"]
    );
    assert_eq!(search("zebra", &all), ["no matches for 'zebra'"]);
    assert_eq!(search("", &all).len(), 5);
}

#[test]
fn a_search_takes_one_term() {
    assert_eq!(search_term(&args(&["ssh"])), Ok("ssh".to_string()));
    let e = search_term(&args(&[])).unwrap_err();
    assert_eq!(e, CliError::MissingTerm);
    assert_eq!(e.message(), "`search` needs a term, e.g. `clipvault search ssh`");
    let e = search_term(&args(&["a", "b"])).unwrap_err();
    assert_eq!(e, CliError::TooManyTerms);
    assert_eq!(
        e.message(),
        "`search` takes a single term — quote it if it contains spaces"
    );
}

#[test]
fn copying_goes_by_position() {
    let all = entries(&["a", "b", "c"]);
    assert_eq!(copy_index(&args(&["2"])), Ok(2));
    assert_eq!(copy(2, &all), Ok("b".to_string()));
    let e = copy(0, &all).unwrap_err();
    assert_eq!(e, CliError::NoEntry { index: 0, held: 3 });
    assert_eq!(e.message(), "no entry 0 — history holds 3 entries");
    assert_eq!(copy(4, &all).unwrap_err().message(), "no entry 4 — history holds 3 entries");
    let e = copy_index(&args(&["two"])).unwrap_err();
    assert_eq!(e, CliError::InvalidIndex("two".to_string()));
    assert_eq!(e.message(), "invalid index 'two' — expected a whole number");
    for bad in [args(&[]), args(&["1", "2"])] {
        let e = copy_index(&bad).unwrap_err();
        assert_eq!(e, CliError::NeedsOneIndex);
        assert_eq!(
            e.message(),
            "`copy` needs one index from `clipvault list`, e.g. `clipvault copy 42`"
        );
    }
    assert_eq!(copied_line("two\nlines"), "copied two lines");
}

#[test]
fn shown_positions_can_be_copied_and_survive_new_entries() {
    let mut all = entries(&["alpha", "beta", "gamma"]);
    let line = search("beta", &all).remove(0);
    let shown = line.split_whitespace().next().unwrap().to_string();
    all.push(new_entry(2, "then".to_string(), "delta", None));
    let index = copy_index(&[shown]).unwrap();
    assert_eq!(copy(index, &all), Ok("beta".to_string()));
}

#[test]
fn a_search_finds_every_substring() {
    let all = entries(&["MixedCase", "a mixed bag", "unmixed"]);
    assert_eq!(search("mixed", &all).len(), 3);
}
