//! Clipboard history: what is recorded, how it is searched, shown and kept.

pub mod cli;
pub mod clock;
pub mod config;
pub mod display;
pub mod fuzzy;
pub mod history;
pub mod hotkey;
pub mod lines;
pub mod menu;
pub mod palette;
pub mod pins;
pub mod prefs;
pub mod rank;
pub mod session;
pub mod source;
pub mod tail;
pub mod text;
pub mod watch;
