# clipvault

A clipboard history keeper, as a verified library with a thin program around it.

- `src/` is the library. Every item of it is checked by Verus: what is recorded
  (`watch`, `session`), how the history file is cut into lines and read from its
  end (`lines`, `tail`, `history`), how it is searched (`fuzzy`, `rank`), shown
  (`display`, `cli`, `menu`, `palette`) and configured (`config`, `hotkey`,
  `prefs`, `pins`). Functions named `law_…` state what holds of the library as a
  whole. What is believed of the standard library, `chrono` and `global_hotkey`
  stands in `text`, `lines`, `clock` and `hotkey`, each with a comment that says
  what is claimed.
- `app/` is the program: files, the clipboard, the single-instance lock, and on
  macOS the menu bar app. It performs what the library decides.
- `tests/` runs the library with the real outside crates.
