//! Reading a stored shortcut, and writing one for display.
//!
//! Shortcuts are stored as text (`"cmd+shift+KeyV"`) so the config file stays
//! hand-editable, but that is not what a user should have to read: they see
//! `⇧⌘V`.

use vstd::prelude::*;

use crate::text;
use crate::text::{same, strip};

verus! {

/// Used when nothing is stored, or what's stored can't be parsed.
pub const DEFAULT: &'static str = "cmd+shift+KeyV";

/// The bits that stand for the modifier keys.
pub const ALT: u32 = 0x1;

pub const CONTROL: u32 = 0x8;

pub const META: u32 = 0x40;

pub const SHIFT: u32 = 0x200;

pub const SUPER: u32 = 0x2000;

/// A keyboard shortcut: which modifiers are held, and which key is pressed.
#[derive(Debug, Clone, PartialEq, Eq)]
pub struct Shortcut {
    pub mods: u32,
    /// The name of the key's code, e.g. "KeyV".
    pub key: String,
}

/// What a [`Shortcut`] holds.
pub struct ShortcutView {
    pub mods: u32,
    pub key: Seq<char>,
}

impl View for Shortcut {
    type V = ShortcutView;

    open spec fn view(&self) -> ShortcutView {
        ShortcutView { mods: self.mods, key: self.key@ }
    }
}

/// What `global_hotkey` reads in a stored shortcut: the bits of its modifiers and
/// the name of its key's code, or `None` where it is not one. A modifier such as
/// "CmdOrCtrl" is one key on macOS and another elsewhere; `mac` says which.
pub uninterp spec fn hotkey_in(spec: Seq<char>, mac: bool) -> Option<(u32, Seq<char>)>;

/// What an optional shortcut holds.
pub open spec fn shortcut_view(s: Option<Shortcut>) -> Option<(u32, Seq<char>)> {
    match s {
        Some(s) => Some((s.mods, s.key@)),
        None => None,
    }
}

/// `str::parse` into a `global_hotkey::hotkey::HotKey`, by name: what is read on
/// macOS, or what is read elsewhere. Whether it can be read is the same on both.
/// "cmd+shift+KeyV" is the command key (the bit `SUPER`), shift and the key V on
/// both.
#[verifier::external_body]
fn read_hotkey(spec: &str) -> (r: Option<Shortcut>)
    ensures
        shortcut_view(r) == hotkey_in(spec@, true) || shortcut_view(r) == hotkey_in(spec@, false),
        r is Some <==> hotkey_in(spec@, true) is Some,
        r is Some <==> hotkey_in(spec@, false) is Some,
        spec@ == "cmd+shift+KeyV"@ ==> shortcut_view(r) == Some((0x2200u32, "KeyV"@)),
{
    match spec.parse::<global_hotkey::hotkey::HotKey>() {
        Ok(hotkey) => Some(Shortcut { mods: hotkey.mods.bits(), key: hotkey.key.to_string() }),
        Err(_) => None,
    }
}

/// The shortcut that is there when no other can be read: ⇧⌘V.
pub open spec fn default_shortcut() -> ShortcutView {
    ShortcutView { mods: 0x2200, key: "KeyV"@ }
}

/// The shortcut that was read, or else the default one.
pub open spec fn resolved(read: Option<(u32, Seq<char>)>) -> ShortcutView {
    match read {
        Some(s) => ShortcutView { mods: s.0, key: s.1 },
        None => default_shortcut(),
    }
}

/// The first of what was read in a stored shortcut and in the default one, or a
/// shortcut that needs no reading.
pub fn first_shortcut(read: Option<Shortcut>, fallback: Option<Shortcut>) -> (r: Shortcut)
    ensures
        r@ == match read {
            Some(s) => s@,
            None => resolved(shortcut_view(fallback)),
        },
        read matches Some(s) ==> r == s,
        read is None && fallback is Some ==> r == fallback->0,
        read is None && fallback is None ==> r.mods == 0x2200 && r.key@ == "KeyV"@,
{
    match read {
        Some(s) => s,
        None => match fallback {
            Some(s) => s,
            None => Shortcut { mods: 0x2200, key: "KeyV".to_owned() },
        },
    }
}

/// Parses a stored shortcut, falling back to the default.
///
/// A shortcut that won't parse must never leave the app with no way to open, so
/// this can't return an error.
pub fn parse(spec: &str) -> (r: Shortcut)
    ensures
        r@ == resolved(hotkey_in(spec@, true)) || r@ == resolved(hotkey_in(spec@, false)),
        spec@ == DEFAULT@ || hotkey_in(spec@, true) is None ==> r@ == default_shortcut(),
{
    let read: Option<Shortcut> = read_hotkey(spec);
    let fallback: Option<Shortcut> = read_hotkey(DEFAULT);
    first_shortcut(read, fallback)
}

/// All of `bits` are set in `mods`.
pub open spec fn holds(mods: u32, bits: u32) -> bool {
    mods & bits == bits
}

/// `c` where `on`, and nothing elsewhere.
pub open spec fn mark(on: bool, c: char) -> Seq<char> {
    if on {
        seq![c]
    } else {
        seq![]
    }
}

/// A shortcut the way macOS writes them: modifiers in the canonical ⌃⌥⇧⌘ order,
/// then the key.
pub open spec fn described(s: ShortcutView) -> Seq<char> {
    mark(holds(s.mods, CONTROL), '⌃') + mark(holds(s.mods, ALT), '⌥') + mark(
        holds(s.mods, SHIFT),
        '⇧',
    ) + mark(s.mods & (META | SUPER) != 0, '⌘') + glyph(s.key)
}

/// The printed form of the non-modifier key: a symbol for those that macOS writes
/// as one, and otherwise its name without "Key" or "Digit" in front.
pub open spec fn glyph(name: Seq<char>) -> Seq<char> {
    match symbol(name) {
        Some(s) => s,
        None => match text::stripped(name, "Key"@) {
            Some(rest) => rest,
            None => match text::stripped(name, "Digit"@) {
                Some(rest) => rest,
                None => name,
            },
        },
    }
}

/// The symbol of a key that has one.
pub open spec fn symbol(name: Seq<char>) -> Option<Seq<char>> {
    if name == "Space"@ {
        Some("Space"@)
    } else if name == "Enter"@ {
        Some("↩"@)
    } else if name == "Tab"@ {
        Some("⇥"@)
    } else if name == "Backspace"@ {
        Some("⌫"@)
    } else if name == "Delete"@ {
        Some("⌦"@)
    } else if name == "Escape"@ {
        Some("⎋"@)
    } else if name == "ArrowLeft"@ {
        Some("←"@)
    } else if name == "ArrowRight"@ {
        Some("→"@)
    } else if name == "ArrowUp"@ {
        Some("↑"@)
    } else if name == "ArrowDown"@ {
        Some("↓"@)
    } else if name == "Minus"@ {
        Some("-"@)
    } else if name == "Equal"@ {
        Some("="@)
    } else if name == "BracketLeft"@ {
        Some("["@)
    } else if name == "BracketRight"@ {
        Some("]"@)
    } else if name == "Semicolon"@ {
        Some(";"@)
    } else if name == "Quote"@ {
        Some("'"@)
    } else if name == "Comma"@ {
        Some(","@)
    } else if name == "Period"@ {
        Some("."@)
    } else if name == "Slash"@ {
        Some("/"@)
    } else if name == "Backslash"@ {
        Some("\\"@)
    } else if name == "Backquote"@ {
        Some("`"@)
    } else {
        None
    }
}

fn key_symbol(name: &str) -> (r: Option<&'static str>)
    ensures
        text::option_str_view(r) == symbol(name@),
{
    if same(name, "Space") {
        Some("Space")
    } else if same(name, "Enter") {
        Some("↩")
    } else if same(name, "Tab") {
        Some("⇥")
    } else if same(name, "Backspace") {
        Some("⌫")
    } else if same(name, "Delete") {
        Some("⌦")
    } else if same(name, "Escape") {
        Some("⎋")
    } else if same(name, "ArrowLeft") {
        Some("←")
    } else if same(name, "ArrowRight") {
        Some("→")
    } else if same(name, "ArrowUp") {
        Some("↑")
    } else if same(name, "ArrowDown") {
        Some("↓")
    } else if same(name, "Minus") {
        // macOS writes these as the symbol on the key, not its name.
        Some("-")
    } else if same(name, "Equal") {
        Some("=")
    } else if same(name, "BracketLeft") {
        Some("[")
    } else if same(name, "BracketRight") {
        Some("]")
    } else if same(name, "Semicolon") {
        Some(";")
    } else if same(name, "Quote") {
        Some("'")
    } else if same(name, "Comma") {
        Some(",")
    } else if same(name, "Period") {
        Some(".")
    } else if same(name, "Slash") {
        Some("/")
    } else if same(name, "Backslash") {
        Some("\\")
    } else if same(name, "Backquote") {
        Some("`")
    } else {
        None
    }
}

/// The printed form of the non-modifier key.
pub fn key_glyph(name: &str) -> (r: String)
    ensures
        r@ == glyph(name@),
{
    match key_symbol(name) {
        Some(s) => s.to_owned(),
        None => match strip(name, "Key") {
            Some(rest) => rest,
            None => match strip(name, "Digit") {
                Some(rest) => rest,
                None => name.to_owned(),
            },
        },
    }
}

/// A shortcut the way macOS writes them.
pub fn describe_shortcut(shortcut: &Shortcut) -> (r: String)
    ensures
        r@ == described(shortcut@),
{
    let mods: u32 = shortcut.mods;
    let mut out = String::new();
    if mods & CONTROL == CONTROL {
        out.push('⌃');
    }
    assert(out@ =~= mark(holds(mods, CONTROL), '⌃'));
    if mods & ALT == ALT {
        out.push('⌥');
    }
    assert(out@ =~= mark(holds(mods, CONTROL), '⌃') + mark(holds(mods, ALT), '⌥'));
    if mods & SHIFT == SHIFT {
        out.push('⇧');
    }
    assert(out@ =~= mark(holds(mods, CONTROL), '⌃') + mark(holds(mods, ALT), '⌥') + mark(
        holds(mods, SHIFT),
        '⇧',
    ));
    if mods & (META | SUPER) != 0 {
        out.push('⌘');
    }
    assert(out@ =~= mark(holds(mods, CONTROL), '⌃') + mark(holds(mods, ALT), '⌥') + mark(
        holds(mods, SHIFT),
        '⇧',
    ) + mark(mods & (META | SUPER) != 0, '⌘'));
    out.append(key_glyph(shortcut.key.as_str()).as_str());
    out
}

/// Renders a stored shortcut the way macOS writes them: modifiers in the
/// canonical ⌃⌥⇧⌘ order, then the key.
pub fn describe(spec: &str) -> (r: String)
    ensures
        r@ == described(resolved(hotkey_in(spec@, true))) || r@ == described(
            resolved(hotkey_in(spec@, false)),
        ),
        spec@ == DEFAULT@ || hotkey_in(spec@, true) is None ==> r@ == described(
            default_shortcut(),
        ),
{
    describe_shortcut(&parse(spec))
}

/// A shortcut that can be read is the one that was stored, and one that cannot is
/// the default: command and shift, and the key V.
pub proof fn law_unreadable_shortcut_is_the_default(mods: u32, key: Seq<char>)
    ensures
        resolved(Some((mods, key))) == (ShortcutView { mods, key }),
        resolved(None) == (ShortcutView { mods: 0x2200, key: "KeyV"@ }),
{
}

/// A shortcut is written as its modifiers, each shown exactly where it is held and
/// always in the order ⌃⌥⇧⌘, and its key behind them. The command key has two bits,
/// and either will do.
pub proof fn law_modifiers_are_shown_in_order(s: ShortcutView)
    ensures
        ({
            let control = if s.mods & 0x8 != 0 {
                seq!['⌃']
            } else {
                seq![]
            };
            let option = if s.mods & 0x1 != 0 {
                seq!['⌥']
            } else {
                seq![]
            };
            let shift = if s.mods & 0x200 != 0 {
                seq!['⇧']
            } else {
                seq![]
            };
            let command = if s.mods & 0x40 != 0 || s.mods & 0x2000 != 0 {
                seq!['⌘']
            } else {
                seq![]
            };
            described(s) == control + option + shift + command + glyph(s.key)
        }),
{
    let m = s.mods;
    assert((m & 0x8 == 0x8) <==> (m & 0x8 != 0)) by (bit_vector);
    assert((m & 0x1 == 0x1) <==> (m & 0x1 != 0)) by (bit_vector);
    assert((m & 0x200 == 0x200) <==> (m & 0x200 != 0)) by (bit_vector);
    assert((m & (0x40u32 | 0x2000u32) != 0) <==> (m & 0x40 != 0 || m & 0x2000 != 0)) by (bit_vector);
}

/// A letter or a digit is written as itself: what its key's name has behind "Key" or
/// "Digit". A key that macOS has a symbol for is written as that, and any other by
/// its name.
pub proof fn law_keys_are_written_as_themselves(name: Seq<char>, c: char)
    ensures
        glyph("Key"@ + seq![c]) == seq![c],
        glyph("Digit"@ + seq![c]) == seq![c],
        symbol(name) is Some ==> glyph(name) == symbol(name)->0,
        symbol(name) is None && text::stripped(name, "Key"@) is None && text::stripped(
            name,
            "Digit"@,
        ) is None ==> glyph(name) == name,
{
    reveal_strlit("Key");
    reveal_strlit("Digit");
    reveal_strlit("Space");
    reveal_strlit("Enter");
    reveal_strlit("Tab");
    reveal_strlit("Backspace");
    reveal_strlit("Delete");
    reveal_strlit("Escape");
    reveal_strlit("ArrowLeft");
    reveal_strlit("ArrowRight");
    reveal_strlit("ArrowUp");
    reveal_strlit("ArrowDown");
    reveal_strlit("Minus");
    reveal_strlit("Equal");
    reveal_strlit("BracketLeft");
    reveal_strlit("BracketRight");
    reveal_strlit("Semicolon");
    reveal_strlit("Quote");
    reveal_strlit("Comma");
    reveal_strlit("Period");
    reveal_strlit("Slash");
    reveal_strlit("Backslash");
    reveal_strlit("Backquote");
    let letter = "Key"@ + seq![c];
    let digit = "Digit"@ + seq![c];
    assert(letter.len() == 4 && letter[0] == 'K' && letter[1] == 'e');
    assert(digit.len() == 6 && digit[0] == 'D' && digit[1] == 'i');
    assert("Delete"@[1] == 'e');
    assert(symbol(letter) is None);
    assert(symbol(digit) is None);
    text::law_prefix_and_rest_make_up_the_text(letter, "Key"@, seq![c]);
    text::law_prefix_and_rest_make_up_the_text(digit, "Digit"@, seq![c]);
    assert(text::stripped(digit, "Key"@) is None) by {
        assert(digit.take(3)[0] != "Key"@[0]);
    }
}

/// The keys that macOS has a symbol for.
pub proof fn law_symbols_are_these()
    ensures
        symbol("Space"@) == Some("Space"@),
        symbol("Enter"@) == Some("↩"@),
        symbol("Tab"@) == Some("⇥"@),
        symbol("Backspace"@) == Some("⌫"@),
        symbol("Delete"@) == Some("⌦"@),
        symbol("Escape"@) == Some("⎋"@),
        symbol("ArrowLeft"@) == Some("←"@),
        symbol("ArrowRight"@) == Some("→"@),
        symbol("ArrowUp"@) == Some("↑"@),
        symbol("ArrowDown"@) == Some("↓"@),
        symbol("Minus"@) == Some("-"@),
        symbol("Equal"@) == Some("="@),
        symbol("BracketLeft"@) == Some("["@),
        symbol("BracketRight"@) == Some("]"@),
        symbol("Semicolon"@) == Some(";"@),
        symbol("Quote"@) == Some("'"@),
        symbol("Comma"@) == Some(","@),
        symbol("Period"@) == Some("."@),
        symbol("Slash"@) == Some("/"@),
        symbol("Backslash"@) == Some("\\"@),
        symbol("Backquote"@) == Some("`"@),
{
    reveal_strlit("Space");
    reveal_strlit("Enter");
    reveal_strlit("Tab");
    reveal_strlit("Backspace");
    reveal_strlit("Delete");
    reveal_strlit("Escape");
    reveal_strlit("ArrowLeft");
    reveal_strlit("ArrowRight");
    reveal_strlit("ArrowUp");
    reveal_strlit("ArrowDown");
    reveal_strlit("Minus");
    reveal_strlit("Equal");
    reveal_strlit("BracketLeft");
    reveal_strlit("BracketRight");
    reveal_strlit("Semicolon");
    reveal_strlit("Quote");
    reveal_strlit("Comma");
    reveal_strlit("Period");
    reveal_strlit("Slash");
    reveal_strlit("Backslash");
    reveal_strlit("Backquote");
    assert("Space"@.len() == 5 && "Space"@[0] == 'S');
    assert("Enter"@.len() == 5 && "Enter"@[0] == 'E');
    assert("Tab"@.len() == 3);
    assert("Backspace"@.len() == 9 && "Backspace"@[0] == 'B' && "Backspace"@[5] == 'p');
    assert("Backslash"@[5] == 'l');
    assert("Delete"@.len() == 6 && "Delete"@[0] == 'D');
    assert("Escape"@.len() == 6 && "Escape"@[0] == 'E');
    assert("ArrowLeft"@.len() == 9 && "ArrowLeft"@[0] == 'A' && "ArrowLeft"@[5] == 'L');
    assert("ArrowRight"@.len() == 10);
    assert("ArrowUp"@.len() == 7);
    assert("ArrowDown"@.len() == 9 && "ArrowDown"@[0] == 'A' && "ArrowDown"@[5] == 'D');
    assert("Minus"@.len() == 5 && "Minus"@[0] == 'M' && "Minus"@[4] == 's');
    assert("Equal"@.len() == 5 && "Equal"@[0] == 'E' && "Equal"@[4] == 'l');
    assert("BracketLeft"@.len() == 11 && "BracketLeft"@[0] == 'B');
    assert("BracketRight"@.len() == 12 && "BracketRight"@[0] == 'B');
    assert("Semicolon"@.len() == 9 && "Semicolon"@[0] == 'S' && "Semicolon"@[4] == 'c');
    assert("Quote"@.len() == 5 && "Quote"@[0] == 'Q' && "Quote"@[4] == 'e');
    assert("Comma"@.len() == 5 && "Comma"@[0] == 'C' && "Comma"@[4] == 'a');
    assert("Period"@.len() == 6 && "Period"@[0] == 'P' && "Period"@[4] == 'o');
    assert("Slash"@.len() == 5 && "Slash"@[0] == 'S' && "Slash"@[4] == 'h');
    assert("Backslash"@.len() == 9 && "Backslash"@[0] == 'B' && "Backslash"@[4] == 's');
    assert("Backquote"@.len() == 9 && "Backquote"@[0] == 'B' && "Backquote"@[4] == 'q');
}

} // verus!
