//! The picker's state: the query, the input mode, the matches and the highlighted window of
//! results, and how a key press changes them.

use vstd::prelude::*;
use crate::history::HistoryEntry;
use crate::search::{search_history, search_results, searchable_texts};

verus! {

/// Whether keys edit the query or drive the result list.
#[derive(Debug, Clone, Copy, PartialEq, Eq, Structural)]
pub enum InputMode {
    Editing,
    Normal,
}

impl Default for InputMode {
    fn default() -> (mode: Self)
        ensures
            mode == InputMode::Editing,
    {
        InputMode::Editing
    }
}

/// The key of a key press, as far as the picker tells keys apart.
#[derive(Debug, Clone, Copy, PartialEq, Eq, Structural)]
pub enum Key {
    Char(char),
    Esc,
    Enter,
    Tab,
    Up,
    Down,
    Other,
}

/// A key press: the key and whether Control was held.
#[derive(Debug, Clone, Copy, PartialEq, Eq, Structural)]
pub struct KeyPress {
    pub key: Key,
    pub control: bool,
}

/// What the caller does after a key press.
#[derive(Debug, Clone, Copy, PartialEq, Eq, Structural)]
pub enum Action {
    /// Draw again and wait for the next key.
    Continue,
    /// Leave the picker.
    Quit,
    /// Hand the key to the input box, store its new text in `input` and update the matches.
    EditInput,
    /// Leave the picker with the command of the history entry at this index, to be run.
    Accept(usize),
    /// Leave the picker with the command of the history entry at this index, to be edited
    /// at the prompt.
    Edit(usize),
}

/// How a key press moves the highlighted result.
pub enum Move {
    Stay,
    Up,
    Down,
    Jump(nat),
}

/// The picker's state.
pub struct App {
    /// The text of the input box.
    pub input: String,
    /// The current input mode.
    pub input_mode: InputMode,
    /// Parsed shell history, newest command first.
    pub history: Vec<HistoryEntry>,
    /// All matching history indexes in search-rank order.
    pub matches: Vec<usize>,
    /// Offset of the highlighted command within matches.
    pub match_window_start: usize,
}

/// The window start one result up: one less, but not below zero.
pub open spec fn start_after_up(start: usize) -> usize {
    if start == 0 {
        0
    } else {
        (start - 1) as usize
    }
}

/// The window start one result down: one more, as long as it stays on a match.
pub open spec fn start_after_down(start: usize, match_count: nat) -> usize {
    if start + 1 < match_count {
        (start + 1) as usize
    } else {
        start
    }
}

/// The window start `distance` results down, if that is still a match; else unchanged.
pub open spec fn start_after_jump(start: usize, match_count: nat, distance: nat) -> usize {
    if start + distance < match_count {
        (start + distance) as usize
    } else {
        start
    }
}

/// The window start after a move.
pub open spec fn start_after_move(start: usize, match_count: nat, mv: Move) -> usize {
    match mv {
        Move::Stay => start,
        Move::Up => start_after_up(start),
        Move::Down => start_after_down(start, match_count),
        Move::Jump(d) => start_after_jump(start, match_count, d),
    }
}

/// The value of an ASCII digit character.
pub open spec fn digit_value(c: char) -> nat {
    (c as int - '0' as int) as nat
}

/// How a key press moves the window: in normal mode `j`/Down and `k`/Up move by one and a
/// digit jumps that far; in editing mode Down/Up and Control-`j`/Control-`k` move by one.
pub open spec fn key_move(mode: InputMode, press: KeyPress) -> Move {
    match mode {
        InputMode::Normal => match press.key {
            Key::Char(c) => if c == 'j' {
                Move::Down
            } else if c == 'k' {
                Move::Up
            } else if '0' <= c && c <= '9' {
                Move::Jump(digit_value(c))
            } else {
                Move::Stay
            },
            Key::Down => Move::Down,
            Key::Up => Move::Up,
            _ => Move::Stay,
        },
        InputMode::Editing => match press.key {
            Key::Down => Move::Down,
            Key::Up => Move::Up,
            Key::Char(c) => if press.control && c == 'j' {
                Move::Down
            } else if press.control && c == 'k' {
                Move::Up
            } else {
                Move::Stay
            },
            _ => Move::Stay,
        },
    }
}

/// The mode after a key press: `e` in normal mode starts editing, Esc while editing stops.
pub open spec fn mode_after_key(mode: InputMode, press: KeyPress) -> InputMode {
    match mode {
        InputMode::Normal => if press.key == Key::Char('e') {
            InputMode::Editing
        } else {
            mode
        },
        InputMode::Editing => if press.key == Key::Esc {
            InputMode::Normal
        } else {
            mode
        },
    }
}

/// The history index of the highlighted match, if the window start is on a match.
pub open spec fn highlighted(matches: Seq<usize>, start: usize) -> Option<usize> {
    if start < matches.len() {
        Some(matches[start as int])
    } else {
        None
    }
}

/// What follows a key press: `q` or Esc in normal mode quit; while editing, Enter accepts
/// and Tab takes for editing the highlighted match (when there is one), and every key that
/// is not Enter, Tab, Esc, Up, Down, Control-`j` or Control-`k` edits the input.
pub open spec fn action_after_key(
    mode: InputMode,
    press: KeyPress,
    matches: Seq<usize>,
    start: usize,
) -> Action {
    match mode {
        InputMode::Normal => if press.key == Key::Char('q') || press.key == Key::Esc {
            Action::Quit
        } else {
            Action::Continue
        },
        InputMode::Editing => match press.key {
            Key::Enter => match highlighted(matches, start) {
                Some(index) => Action::Accept(index),
                None => Action::Continue,
            },
            Key::Tab => match highlighted(matches, start) {
                Some(index) => Action::Edit(index),
                None => Action::Continue,
            },
            Key::Esc | Key::Up | Key::Down => Action::Continue,
            Key::Char(c) => if press.control && (c == 'j' || c == 'k') {
                Action::Continue
            } else {
                Action::EditInput
            },
            Key::Other => Action::EditInput,
        },
    }
}

/// The window start is on a match, or zero.
pub open spec fn window_in_bounds(start: usize, match_count: nat) -> bool {
    start == 0 || start < match_count
}

impl App {
    /// A picker over `history` with an empty query, in editing mode, listing the newest
    /// entries.
    pub fn new(history: Vec<HistoryEntry>) -> (app: Self)
        ensures
            app.input@ == Seq::<char>::empty(),
            app.input_mode == InputMode::Editing,
            app.history@ == history@,
            app.matches@ == search_results(searchable_texts(history@), Seq::empty(), history.len()),
            app.match_window_start == 0,
    {
        let mut app = App {
            input: String::new(),
            input_mode: InputMode::default(),
            history,
            matches: Vec::new(),
            match_window_start: 0,
        };
        app.update_matches();
        app
    }

    /// Searches the whole history for the input and highlights the first match.
    pub fn update_matches(&mut self)
        ensures
            final(self).matches@ == search_results(
                searchable_texts(old(self).history@),
                old(self).input@,
                old(self).history@.len() as usize,
            ),
            final(self).match_window_start == 0,
            final(self).input == old(self).input,
            final(self).input_mode == old(self).input_mode,
            final(self).history == old(self).history,
    {
        self.matches = search_history(self.history.as_slice(), self.input.as_str(), self.history.len());
        self.match_window_start = 0;
    }

    /// Highlights the previous result, if there is one.
    pub fn move_selection_up(&mut self)
        ensures
            final(self).match_window_start == start_after_up(old(self).match_window_start),
            final(self).matches == old(self).matches,
            final(self).input == old(self).input,
            final(self).input_mode == old(self).input_mode,
            final(self).history == old(self).history,
    {
        self.match_window_start = self.match_window_start.saturating_sub(1);
    }

    /// Highlights the next result, if there is one.
    pub fn move_selection_down(&mut self)
        ensures
            final(self).match_window_start == start_after_down(
                old(self).match_window_start,
                old(self).matches@.len(),
            ),
            final(self).matches == old(self).matches,
            final(self).input == old(self).input,
            final(self).input_mode == old(self).input_mode,
            final(self).history == old(self).history,
    {
        if self.match_window_start < self.matches.len().saturating_sub(1) {
            self.match_window_start += 1;
        }
    }

    /// Highlights the result `distance` places further down, if there is one.
    pub fn jump_to_result(&mut self, distance: usize)
        ensures
            final(self).match_window_start == start_after_jump(
                old(self).match_window_start,
                old(self).matches@.len(),
                distance as nat,
            ),
            final(self).matches == old(self).matches,
            final(self).input == old(self).input,
            final(self).input_mode == old(self).input_mode,
            final(self).history == old(self).history,
    {
        let match_count = self.matches.len();
        let window_start = match self.match_window_start.checked_add(distance) {
            Some(window_start) => window_start,
            None => {
                return;
            },
        };
        if window_start < match_count {
            self.match_window_start = window_start;
        }
    }

    /// Applies a key press: changes the mode, moves the highlight, and says what the caller
    /// does next. When the answer is `EditInput`, the caller hands the key to the input box,
    /// stores the box's new text in `input` and calls `update_matches`; on `Accept` or `Edit`
    /// it ends the picker with the command of the history entry the action names.
    pub fn handle_key(&mut self, press: KeyPress) -> (action: Action)
        ensures
            action == action_after_key(
                old(self).input_mode,
                press,
                old(self).matches@,
                old(self).match_window_start,
            ),
            final(self).input_mode == mode_after_key(old(self).input_mode, press),
            final(self).match_window_start == start_after_move(
                old(self).match_window_start,
                old(self).matches@.len(),
                key_move(old(self).input_mode, press),
            ),
            final(self).matches == old(self).matches,
            final(self).input == old(self).input,
            final(self).history == old(self).history,
    {
        match self.input_mode {
            InputMode::Normal => match press.key {
                Key::Char(c) => {
                    if c == 'e' {
                        self.input_mode = InputMode::Editing;
                    } else if c == 'q' {
                        return Action::Quit;
                    } else if c == 'j' {
                        self.move_selection_down();
                    } else if c == 'k' {
                        self.move_selection_up();
                    } else if '0' <= c && c <= '9' {
                        let digit = (c as u32 - '0' as u32) as usize;
                        self.jump_to_result(digit);
                    }
                    Action::Continue
                },
                Key::Esc => Action::Quit,
                Key::Down => {
                    self.move_selection_down();
                    Action::Continue
                },
                Key::Up => {
                    self.move_selection_up();
                    Action::Continue
                },
                _ => Action::Continue,
            },
            InputMode::Editing => match press.key {
                Key::Enter => {
                    if self.match_window_start < self.matches.len() {
                        Action::Accept(self.matches[self.match_window_start])
                    } else {
                        Action::Continue
                    }
                },
                Key::Tab => {
                    if self.match_window_start < self.matches.len() {
                        Action::Edit(self.matches[self.match_window_start])
                    } else {
                        Action::Continue
                    }
                },
                Key::Esc => {
                    self.input_mode = InputMode::Normal;
                    Action::Continue
                },
                Key::Down => {
                    self.move_selection_down();
                    Action::Continue
                },
                Key::Up => {
                    self.move_selection_up();
                    Action::Continue
                },
                Key::Char(c) => {
                    if press.control && c == 'j' {
                        self.move_selection_down();
                        Action::Continue
                    } else if press.control && c == 'k' {
                        self.move_selection_up();
                        Action::Continue
                    } else {
                        Action::EditInput
                    }
                },
                Key::Other => Action::EditInput,
            },
        }
    }
}

/// Law: every move keeps the window start on a match (or at zero).
pub proof fn lemma_moves_keep_window_in_bounds(start: usize, match_count: nat, mv: Move)
    requires
        window_in_bounds(start, match_count),
    ensures
        window_in_bounds(start_after_move(start, match_count, mv), match_count),
{
}

/// Law: moving down and then up returns to the same result, when the move down happened;
/// moving up and then down does too, when the move up happened and the start was on a
/// match.
pub proof fn lemma_up_undoes_down(start: usize, match_count: nat)
    requires
        match_count <= usize::MAX,
    ensures
        start + 1 < match_count ==> start_after_up(start_after_down(start, match_count)) == start,
        0 < start < match_count ==> start_after_down(start_after_up(start), match_count) == start,
{
}

/// Law: how each key moves the window start `s` over `n` matches. In both modes, Up (and
/// `k` in normal mode, Control-`k` while editing) moves to `s - 1` unless `s` is zero, and Down
/// (`j`, Control-`j`) moves to `s + 1` while that is still a match; any other key while editing
/// leaves `s` alone.
pub proof fn lemma_key_moves(s: usize, n: nat, control: bool)
    requires
        n <= usize::MAX,
    ensures
        ({
            let up = if s > 0 { s - 1 } else { s as int };
            let down = if s + 1 < n { s + 1 } else { s as int };
            &&& start_after_move(s, n, key_move(InputMode::Editing, KeyPress { key: Key::Up, control })) == up
            &&& start_after_move(s, n, key_move(InputMode::Editing, KeyPress { key: Key::Down, control })) == down
            &&& start_after_move(s, n, key_move(InputMode::Editing, KeyPress { key: Key::Char('k'), control: true })) == up
            &&& start_after_move(s, n, key_move(InputMode::Editing, KeyPress { key: Key::Char('j'), control: true })) == down
            &&& start_after_move(s, n, key_move(InputMode::Editing, KeyPress { key: Key::Char('k'), control: false })) == s
            &&& start_after_move(s, n, key_move(InputMode::Editing, KeyPress { key: Key::Enter, control })) == s
            &&& start_after_move(s, n, key_move(InputMode::Normal, KeyPress { key: Key::Up, control })) == up
            &&& start_after_move(s, n, key_move(InputMode::Normal, KeyPress { key: Key::Down, control })) == down
            &&& start_after_move(s, n, key_move(InputMode::Normal, KeyPress { key: Key::Char('k'), control })) == up
            &&& start_after_move(s, n, key_move(InputMode::Normal, KeyPress { key: Key::Char('j'), control })) == down
        }),
{
}

/// Law: in either mode, Up undoes Down when Down moved, and Down undoes Up when Up moved from
/// a match.
pub proof fn lemma_up_down_inverse(mode: InputMode, s: usize, n: nat, control: bool)
    requires
        n <= usize::MAX,
    ensures
        ({
            let up = key_move(mode, KeyPress { key: Key::Up, control });
            let down = key_move(mode, KeyPress { key: Key::Down, control });
            &&& s + 1 < n ==> start_after_move(start_after_move(s, n, down), n, up) == s
            &&& 0 < s < n ==> start_after_move(start_after_move(s, n, up), n, down) == s
        }),
{
}

/// Law: a jump reaches every match at or after the window start, the last one included, and
/// is ignored exactly when it would go past the last match.
pub proof fn lemma_jump_reaches_every_match(s: usize, n: nat, d: nat)
    requires
        n <= usize::MAX,
    ensures
        forall|t: int| s <= t < n ==> #[trigger] start_after_jump(s, n, (t - s) as nat) == t,
        s + d >= n ==> start_after_jump(s, n, d) == s,
        s + d < n ==> start_after_jump(s, n, d) == s + d,
{
}

/// Law: in normal mode a digit key jumps that many matches down, whenever that lands on a
/// match (`'0'` stays put), and is ignored otherwise.
pub proof fn lemma_digit_jumps(s: usize, n: nat, c: char, control: bool)
    requires
        n <= usize::MAX,
        '0' <= c && c <= '9',
    ensures
        ({
            let d = c as int - '0' as int;
            let target = start_after_move(s, n, key_move(InputMode::Normal, KeyPress { key: Key::Char(c), control }));
            &&& 0 <= d <= 9
            &&& s + d < n ==> target == s + d
            &&& s + d >= n ==> target == s
        }),
{
}

} // verus!
