use clipvault::config::{load, same_config, Config, Stored, OPENS_MENU, OPENS_SEARCH};

#[test]
fn hand_edited_nonsense_is_clamped() {
    let wild = Config {
        hotkey: "   ".into(),
        poll_interval_ms: 1,
        menu_entries: 0,
        history_limit: 3,
        ..Config::default()
    }
    .sanitized();

    assert_eq!(wild.hotkey, Config::default().hotkey);
    assert_eq!(wild.poll_interval_ms, 100);
    assert_eq!(wild.menu_entries, 1);
    // The cap can never sit below what the menu wants to show.
    assert!(wild.history_limit >= wild.menu_entries);
}

#[test]
fn hotkey_target_falls_back_to_the_menu_when_unrecognised() {
    let wild = Config {
        hotkey_opens: "banana".into(),
        ..Config::default()
    }
    .sanitized();
    assert_eq!(wild.hotkey_opens, OPENS_MENU);
}

#[test]
fn hotkey_target_accepts_search_in_any_casing() {
    let config = Config {
        hotkey_opens: "  SEARCH ".into(),
        ..Config::default()
    }
    .sanitized();
    assert_eq!(config.hotkey_opens, OPENS_SEARCH);
}

#[test]
fn zero_history_limit_means_unlimited_and_survives_sanitizing() {
    let config = Config {
        history_limit: 0,
        ..Config::default()
    }
    .sanitized();
    assert_eq!(config.history_limit, 0);
}

#[test]
fn defaults_are_what_a_fresh_install_has() {
    let config = Config::default();
    assert_eq!(config.hotkey, "cmd+shift+KeyV");
    assert_eq!(config.poll_interval_ms, 750);
    assert_eq!(config.menu_entries, 15);
    assert_eq!(config.history_limit, 1000);
    assert_eq!(config.hotkey_opens, "menu");
    assert_eq!(Config::default().sanitized(), config);
}

#[test]
fn values_too_large_are_clamped_as_well() {
    let config = Config {
        hotkey: " ctrl+K ".into(),
        poll_interval_ms: u64::MAX,
        menu_entries: 500,
        history_limit: 20,
        hotkey_opens: "\tSearch\n".into(),
    }
    .sanitized();
    assert_eq!(config.hotkey, " ctrl+K ");
    assert_eq!(config.poll_interval_ms, 10_000);
    assert_eq!(config.menu_entries, 50);
    assert_eq!(config.history_limit, 50);
    assert_eq!(config.hotkey_opens, "search");
    assert_eq!(config.clone().sanitized(), config);
}

#[test]
fn a_target_that_only_looks_like_search_is_the_menu() {
    let opens = |text: &str| {
        Config {
            hotkey_opens: text.into(),
            ..Config::default()
        }
        .sanitized()
        .hotkey_opens
    };
    // The long s lowercases to itself, not to an s.
    assert_eq!(opens("ſearch"), "menu");
    assert_eq!(opens("searches"), "menu");
    assert_eq!(opens(""), "menu");
    // The Kelvin sign lowercases to a k, so this is no match either way.
    assert_eq!(opens("SEAR\u{212a}"), "menu");
}

#[test]
fn loading_falls_back_to_the_defaults() {
    assert_eq!(load(Stored::Unreadable), Config::default());
    assert_eq!(load(Stored::Corrupt), Config::default());
    let stored = Config {
        menu_entries: 5,
        poll_interval_ms: 5,
        ..Config::default()
    };
    let loaded = load(Stored::Parsed(stored));
    assert_eq!(loaded.menu_entries, 5);
    assert_eq!(loaded.poll_interval_ms, 100);
}

#[test]
fn configs_compare_field_by_field() {
    let a = Config::default();
    assert!(same_config(&a, &Config::default()));
    assert!(!same_config(&a, &Config { hotkey: "x".into(), ..Config::default() }));
    assert!(!same_config(&a, &Config { poll_interval_ms: 1, ..Config::default() }));
    assert!(!same_config(&a, &Config { menu_entries: 1, ..Config::default() }));
    assert!(!same_config(&a, &Config { history_limit: 1, ..Config::default() }));
    assert!(!same_config(&a, &Config { hotkey_opens: "x".into(), ..Config::default() }));
}
