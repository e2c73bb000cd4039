use clipvault::hotkey::{
    describe, describe_shortcut, first_shortcut, key_glyph, parse, Shortcut, DEFAULT,
};

fn shortcut(mods: u32, key: &str) -> Shortcut {
    Shortcut {
        mods,
        key: key.to_string(),
    }
}

#[test]
fn an_unparseable_stored_shortcut_falls_back_to_the_default() {
    assert_eq!(describe("total+nonsense"), describe(DEFAULT));
}

#[test]
fn the_default_is_shift_command_v() {
    assert_eq!(describe(DEFAULT), "⇧⌘V");
    assert_eq!(parse(DEFAULT), shortcut(0x2200, "KeyV"));
    assert_eq!(parse("total+nonsense"), shortcut(0x2200, "KeyV"));
    assert_eq!(parse(""), shortcut(0x2200, "KeyV"));
    assert_eq!(parse("shift+KeyQ+alt"), shortcut(0x2200, "KeyV"));
}

#[test]
fn modifiers_come_in_the_canonical_order() {
    assert_eq!(describe("cmd+shift+alt+ctrl+K"), "⌃⌥⇧⌘K");
    assert_eq!(describe("option+Digit4"), "⌥4");
    assert_eq!(describe("F5"), "F5");
    assert_eq!(parse("alt+ctrl+ArrowUp"), shortcut(0x9, "ArrowUp"));
    assert_eq!(describe_shortcut(&shortcut(0x40, "KeyA")), "⌘A");
    assert_eq!(describe_shortcut(&shortcut(0, "KeyA")), "A");
}

#[test]
fn keys_with_a_symbol_show_it() {
    let pairs = [
        ("Space", "Space"),
        ("Enter", "↩"),
        ("Tab", "⇥"),
        ("Backspace", "⌫"),
        ("Delete", "⌦"),
        ("Escape", "⎋"),
        ("ArrowLeft", "←"),
        ("ArrowRight", "→"),
        ("ArrowUp", "↑"),
        ("ArrowDown", "↓"),
        ("Minus", "-"),
        ("Equal", "="),
        ("BracketLeft", "["),
        ("BracketRight", "]"),
        ("Semicolon", ";"),
        ("Quote", "'"),
        ("Comma", ","),
        ("Period", "."),
        ("Slash", "/"),
        ("Backslash", "\\"),
        ("Backquote", "`"),
    ];
    for (name, symbol) in pairs {
        assert_eq!(key_glyph(name), symbol);
        // The names are the ones that a stored shortcut is read into.
        assert_eq!(parse(name).key, name);
    }
    assert_eq!(key_glyph("KeyV"), "V");
    assert_eq!(key_glyph("Digit4"), "4");
    assert_eq!(key_glyph("PageDown"), "PageDown");
    assert_eq!(key_glyph("Key"), "");
    assert_eq!(key_glyph("Ke"), "Ke");
}

#[test]
fn the_first_shortcut_that_could_be_read_is_taken() {
    let a = shortcut(0x8, "KeyA");
    let b = shortcut(0x1, "KeyB");
    assert_eq!(first_shortcut(Some(a.clone()), Some(b.clone())), a);
    assert_eq!(first_shortcut(None, Some(b.clone())), b);
    assert_eq!(first_shortcut(None, None), shortcut(0x2200, "KeyV"));
}
