# sh-hist

A picker for searching zsh shell history, split into a verified library and a thin
terminal front end.

- `src/` — the library, verified with Verus:
  - `text` — character helpers (whitespace and digit tests, copying, `&str` to characters).
  - `history` — `HistoryEntry`, the zsh history parser (plain and `EXTENDED_HISTORY`
    lines, multi-line commands, newest first) and duplicate filtering.
  - `search` — ranked, case-insensitive search: substring matches first, then in-order
    (fuzzy) matches.
  - `render` — one-line command previews and the labels of the visible results.
  - `state` — the picker's state (query, mode, matches, highlighted window) and how a key
    press changes it.
- `app/` — reads the history file, draws with ratatui, edits the query with tui-input and
  feeds crossterm key presses to the library. Run as `sh-hist --result-file <path>`: Enter
  writes the highlighted command to the file and exits with status 10 (run it), Tab does the
  same with status 11 (edit it), and quitting exits with status 0.
