use clipvault::history::{delete_entry, new_entry, HistoryEntry};
use clipvault::menu::{
    build_recent_rows, digit_accelerator, login_checked, menu_command, metadata_line, pin_item,
    prune_report, toggle_pin_for_current, DigitKey, FooterIds, MenuCommand, MenuRow, PinItem,
    TopItem,
};
use clipvault::pins::{remove_pin, toggle_pin, Pin};
use clipvault::source::Source;

fn source(name: &str) -> Source {
    Source {
        name: Some(name.to_string()),
        bundle_id: Some(format!("com.{name}")),
    }
}

fn entry(content: &str, from: Option<&Source>) -> HistoryEntry {
    new_entry(1, "t".to_string(), content, from)
}

fn row(item: &TopItem) -> &MenuRow {
    match item {
        TopItem::Row(row) => row,
        _ => panic!("not a row"),
    }
}

fn label(item: &TopItem) -> &str {
    match item {
        TopItem::Label(label) => label,
        _ => panic!("not a label"),
    }
}

#[test]
fn the_first_nine_rows_are_numbered() {
    for position in 0..9 {
        assert_eq!(
            digit_accelerator(position, false),
            Some(DigitKey { digit: position as u8 + 1, shift: false })
        );
    }
    assert_eq!(digit_accelerator(8, true), Some(DigitKey { digit: 9, shift: true }));
    assert_eq!(digit_accelerator(9, false), None);
}

#[test]
fn metadata_names_the_app_where_it_is_known() {
    assert_eq!(metadata_line(&entry("x", Some(&source("Safari"))), "2h ago"), "Safari · 2h ago");
    assert_eq!(metadata_line(&entry("x", None), "2h ago"), "2h ago");
}

#[test]
fn pins_come_first_and_entries_newest_first() {
    let mut pins: Vec<Pin> = Vec::new();
    toggle_pin(&mut pins, "old pin", None, None);
    toggle_pin(&mut pins, "new pin", Some("Notes"), Some("com.Notes"));
    let entries = vec![entry("older", None), entry("newer", Some(&source("Safari")))];
    let ages = vec!["2h".to_string(), "now".to_string()];
    let top = build_recent_rows(&pins, &entries, &ages, Some("newer"), true);
    assert_eq!(top.len(), 7);
    assert_eq!(label(&top[0]), "Pinned");
    let first = row(&top[1]);
    assert_eq!(first.content, "new pin");
    assert_eq!(first.label, "new pin");
    assert_eq!(first.subtitle.as_deref(), Some("Notes"));
    assert_eq!(first.bundle_id.as_deref(), Some("com.Notes"));
    assert_eq!(first.key, Some(DigitKey { digit: 1, shift: true }));
    assert!(!first.current);
    assert_eq!(row(&top[2]).content, "old pin");
    assert!(row(&top[2]).subtitle.is_none());
    assert!(matches!(top[3], TopItem::Separator));
    assert_eq!(label(&top[4]), "Recent");
    let newest = row(&top[5]);
    assert_eq!(newest.content, "newer");
    assert_eq!(newest.subtitle.as_deref(), Some("Safari · now"));
    assert_eq!(newest.key, Some(DigitKey { digit: 1, shift: false }));
    assert!(newest.current);
    assert_eq!(row(&top[6]).subtitle.as_deref(), Some("2h"));
}

fn taken(command: MenuCommand) -> Option<String> {
    match command {
        MenuCommand::Take(content) => Some(content),
        _ => None,
    }
}

#[test]
fn events_are_told_apart_by_their_ids() {
    let footer = FooterIds {
        quit: "q".to_string(),
        clear: "c".to_string(),
        login: "l".to_string(),
        search: "s".to_string(),
        pin: "p".to_string(),
        delete: "d".to_string(),
        prefs: "f".to_string(),
    };
    let entries = vec![entry("older", None), entry("newer", None)];
    let ages = vec!["2h".to_string(), "now".to_string()];
    let top = build_recent_rows(&Vec::new(), &entries, &ages, None, true);
    let ids: Vec<String> = ["10", "11", "12"].iter().map(|s| s.to_string()).collect();
    let command = |id: &str| menu_command(id, &footer, &top, &ids);
    assert!(matches!(command("q"), MenuCommand::Quit));
    assert!(matches!(command("c"), MenuCommand::Clear));
    assert!(matches!(command("l"), MenuCommand::ToggleLogin));
    assert!(matches!(command("s"), MenuCommand::Search));
    assert!(matches!(command("p"), MenuCommand::TogglePin));
    assert!(matches!(command("d"), MenuCommand::Delete));
    assert!(matches!(command("f"), MenuCommand::Preferences));
    assert!(matches!(command("10"), MenuCommand::Nothing));
    assert!(matches!(command("99"), MenuCommand::Nothing));
    assert_eq!(taken(command("11")).as_deref(), Some("newer"));
    assert_eq!(taken(command("12")).as_deref(), Some("older"));
    assert_eq!(taken(command("q")), None);
}

#[test]
fn without_subtitles_the_metadata_rides_in_the_label() {
    let entries = vec![entry(&"x".repeat(70), Some(&source("Safari")))];
    let ages = vec!["now".to_string()];
    let top = build_recent_rows(&Vec::new(), &entries, &ages, None, false);
    assert_eq!(top.len(), 2);
    let only = row(&top[1]);
    assert_eq!(only.label, format!("{}…  ·  Safari · now", "x".repeat(59)));
    assert!(only.subtitle.is_none());
}

#[test]
fn an_empty_history_says_so() {
    let top = build_recent_rows(&Vec::new(), &Vec::new(), &Vec::new(), None, true);
    assert_eq!(top.len(), 1);
    assert_eq!(label(&top[0]), "No clipboard history yet");
}

#[test]
fn the_pin_command_follows_the_clipboard() {
    let mut pins: Vec<Pin> = Vec::new();
    toggle_pin(&mut pins, "a", None, None);
    assert_eq!(pin_item(Some("a"), Some(&pins)), PinItem::Unpin);
    assert_eq!(pin_item(Some("b"), Some(&pins)), PinItem::Pin);
    assert_eq!(pin_item(None, Some(&pins)), PinItem::Disabled);
    assert_eq!(pin_item(Some("a"), None), PinItem::Disabled);
}

#[test]
fn a_pin_takes_the_source_of_the_newest_entry() {
    let entries = vec![
        entry("a", Some(&source("Old"))),
        entry("a", Some(&source("New"))),
        entry("b", Some(&source("Other"))),
    ];
    let mut pins: Vec<Pin> = Vec::new();
    assert!(toggle_pin_for_current("a", &entries, &mut pins));
    assert_eq!(pins[0].source.as_deref(), Some("New"));
    assert_eq!(pins[0].source_bundle_id.as_deref(), Some("com.New"));
    assert!(toggle_pin_for_current("gone", &entries, &mut pins));
    assert!(pins[0].source.is_none());
    assert!(!toggle_pin_for_current("a", &entries, &mut pins));
    assert_eq!(pins.len(), 1);
}

#[test]
fn what_was_deleted_is_offered_nowhere() {
    let entries = vec![entry("a", None), entry("b", None), entry("a", None)];
    let mut pins: Vec<Pin> = Vec::new();
    toggle_pin(&mut pins, "a", None, None);
    toggle_pin(&mut pins, "c", None, None);

    let kept = delete_entry(entries, "a").kept;
    let (pins, changed) = remove_pin(pins, "a");
    assert!(changed);
    let ages: Vec<String> = kept.iter().map(|_| "now".to_string()).collect();
    let top = build_recent_rows(&pins, &kept, &ages, Some("a"), true);
    let offered: Vec<&str> = top
        .iter()
        .filter_map(|item| match item {
            TopItem::Row(row) => Some(row.content.as_str()),
            _ => None,
        })
        .collect();
    assert_eq!(offered, ["c", "b"]);
}

#[test]
fn small_reports() {
    assert_eq!(prune_report(0), None);
    assert_eq!(prune_report(12).as_deref(), Some("clipvault: pruned 12 old entries"));
    assert!(login_checked(false, true, false));
    assert!(!login_checked(true, true, true));
    assert!(login_checked(false, false, true));
    assert!(!login_checked(true, false, false));
}
