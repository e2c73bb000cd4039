use clipvault::config::Config;
use clipvault::session::{
    any_pressed, settings_change, settled, ticks_per_poll, unavailable_text, Promotion, Session,
    SettingsChange, Surface,
};

fn session(last: Option<&str>, poll_interval_ms: u64) -> Session {
    Session::new(
        last.map(|s| s.to_string()),
        Config { poll_interval_ms, ..Config::default() },
    )
}

fn see(session: &mut Session, text: &str) -> Option<String> {
    session.observe(Some(text.to_string()), false)
}

/// After which of `captures` captures a prune is due.
fn prunes(session: &mut Session, captures: usize) -> Vec<usize> {
    let mut due: Vec<usize> = Vec::new();
    for n in 1..=captures {
        if session.capture() {
            due.push(n);
        }
    }
    due
}

#[test]
fn intervals_are_counted_in_ticks() {
    assert_eq!(ticks_per_poll(750), 15);
    assert_eq!(ticks_per_poll(100), 2);
    assert_eq!(ticks_per_poll(99), 1);
    assert_eq!(ticks_per_poll(49), 1);
    assert_eq!(ticks_per_poll(0), 1);
    assert_eq!(ticks_per_poll(10_000), 200);
}

#[test]
fn polls_come_at_a_steady_pace() {
    let mut session = session(None, 150);
    let mut polls: Vec<usize> = Vec::new();
    for n in 1..=10 {
        if session.tick() {
            polls.push(n);
        }
    }
    assert_eq!(polls, [3, 6, 9]);
}

#[test]
fn four_gates_stand_before_a_capture() {
    let mut session = session(Some("before"), 750);
    assert_eq!(session.observe(None, false), None);
    assert_eq!(see(&mut session, " \n"), None);
    assert_eq!(see(&mut session, "before"), None);
    assert_eq!(session.last(), Some("before"));
    assert_eq!(session.observe(Some("secret".to_string()), true), None);
    assert_eq!(session.last(), Some("secret"));
    assert_eq!(see(&mut session, "secret"), None);
    assert_eq!(see(&mut session, "new").as_deref(), Some("new"));
    assert_eq!(see(&mut session, "new"), None);
}

#[test]
fn what_the_app_put_there_is_not_recorded() {
    let mut session = session(None, 750);
    session.take("picked".to_string(), true);
    assert_eq!(see(&mut session, "picked"), None);
    session.take("refused".to_string(), false);
    assert_eq!(session.last(), Some("picked"));
    session.promote(Promotion::Placed("next".to_string()));
    assert_eq!(see(&mut session, "next"), None);
    session.promote(Promotion::Failed);
    assert_eq!(session.last(), Some("next"));
    session.promote(Promotion::Nothing);
    assert_eq!(session.last(), None);
}

#[test]
fn prunes_keep_their_cadence() {
    let mut session = session(None, 750);
    assert_eq!(prunes(&mut session, 60), [25, 50]);
    session.prune();
    assert_eq!(prunes(&mut session, 25), [25]);
}

#[test]
fn new_settings_start_polling_over() {
    let mut session = session(Some("kept"), 750);
    session.tick();
    for _ in 0..10 {
        session.capture();
    }
    session.finish_settings(Config {
        poll_interval_ms: 100,
        hotkey_opens: "search".to_string(),
        ..Config::default()
    });
    assert_eq!(session.settings().poll_interval_ms, 100);
    assert_eq!(session.last(), Some("kept"));
    assert_eq!(session.surface(), Surface::Search);
    assert!(!session.tick());
    assert!(session.tick());
    assert_eq!(prunes(&mut session, 25), [25]);
}

#[test]
fn the_shortcut_opens_the_menu_by_default() {
    assert_eq!(session(None, 750).surface(), Surface::Menu);
    assert!(any_pressed(&vec![false, true, true]));
    assert!(!any_pressed(&vec![false, false]));
    assert!(!any_pressed(&Vec::new()));
}

#[test]
fn saving_settings_rebinds_only_a_new_shortcut() {
    let current = Config::default();
    assert_eq!(settings_change(&current, &Config::default()), SettingsChange::Nothing);
    let slower = Config { poll_interval_ms: 900, ..Config::default() };
    assert_eq!(settings_change(&current, &slower), SettingsChange::Finish);
    let moved = Config { hotkey: "ctrl+K".to_string(), poll_interval_ms: 900, ..Config::default() };
    assert_eq!(settings_change(&current, &moved), SettingsChange::Rebind);
    assert_eq!(settled(moved.clone(), &current, true), moved);
    assert_eq!(settled(moved, &current, false), slower);
    assert_eq!(
        unavailable_text("⌃K", "⇧⌘V"),
        "⌃K could not be registered — another app is probably using it. Keeping ⇧⌘V."
    );
}
