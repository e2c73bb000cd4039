use clipvault::config::Config;
use clipvault::prefs::{edited, number_rows, opens_index, prefs_key, resolved_text, Form, PrefsAction};

fn form(config: &Config) -> Form {
    let rows = number_rows(config);
    Form {
        shortcut: config.hotkey.clone(),
        poll_interval: rows[0].value.clone(),
        menu_entries: rows[1].value.clone(),
        history_limit: rows[2].value.clone(),
        opens: opens_index(config),
    }
}

#[test]
fn the_form_shows_the_settings() {
    let rows = number_rows(&Config::default());
    let shown: Vec<(&str, &str, &str)> = rows
        .iter()
        .map(|r| (r.label.as_str(), r.value.as_str(), r.hint.as_str()))
        .collect();
    assert_eq!(
        shown,
        [
            ("Poll interval", "750", "milliseconds"),
            ("Entries in menu", "15", "rows"),
            ("History limit", "1000", "entries (0 keeps everything)"),
        ]
    );
    assert_eq!(opens_index(&Config::default()), 0);
    assert_eq!(resolved_text("⇧⌘V"), "⇧⌘V   e.g. cmd+shift+V");
}

#[test]
fn an_unedited_form_changes_nothing() {
    for config in [
        Config::default(),
        Config {
            hotkey: "ctrl+K".to_string(),
            poll_interval_ms: 100,
            menu_entries: 50,
            history_limit: 0,
            hotkey_opens: "search".to_string(),
        },
    ] {
        assert_eq!(edited(&form(&config), &config), config);
    }
}

#[test]
fn edits_are_read_and_sanitized() {
    let current = Config { history_limit: 400, ..Config::default() };
    let got = edited(
        &Form {
            shortcut: "ctrl+K".to_string(),
            poll_interval: " 5 ".to_string(),
            menu_entries: "\t20".to_string(),
            history_limit: "10".to_string(),
            opens: 1,
        },
        &current,
    );
    assert_eq!(
        got,
        Config {
            hotkey: "ctrl+K".to_string(),
            poll_interval_ms: 100,
            menu_entries: 20,
            history_limit: 20,
            hotkey_opens: "search".to_string(),
        }
    );
}

#[test]
fn nonsense_in_a_field_does_not_stick() {
    let current = Config {
        poll_interval_ms: 900,
        menu_entries: 7,
        history_limit: 400,
        ..Config::default()
    };
    let got = edited(
        &Form {
            shortcut: "".to_string(),
            poll_interval: "soon".to_string(),
            menu_entries: "-3".to_string(),
            history_limit: "many".to_string(),
            opens: -1,
        },
        &current,
    );
    assert_eq!(got.hotkey, "cmd+shift+KeyV");
    assert_eq!(got.poll_interval_ms, 900);
    assert_eq!(got.menu_entries, 7);
    assert_eq!(got.history_limit, 400);
    assert_eq!(got.hotkey_opens, "menu");
}

#[test]
fn return_saves_and_escape_cancels() {
    assert_eq!(prefs_key(36), PrefsAction::Save);
    assert_eq!(prefs_key(76), PrefsAction::Save);
    assert_eq!(prefs_key(53), PrefsAction::Cancel);
    assert_eq!(prefs_key(0), PrefsAction::Pass);
}
