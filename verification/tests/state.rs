use sh_hist::history::HistoryEntry;
use sh_hist::state::{Action, App, InputMode, Key, KeyPress};

#[test]
fn main_empty_query_returns_newest_commands() {
    let mut app = App {
        input: String::new(),
        input_mode: InputMode::default(),
        history: (0..12)
            .map(|index| HistoryEntry::new(format!("command {index}"), String::new(), false))
            .collect(),
        matches: Vec::new(),
        match_window_start: 0,
    };

    app.update_matches();

    assert_eq!(app.matches, (0..12).collect::<Vec<_>>());
    assert_eq!(app.match_window_start, 0);
}

#[test]
fn result_window_stays_within_match_boundaries() {
    let mut app = App {
        input: String::new(),
        input_mode: InputMode::default(),
        history: Vec::new(),
        matches: vec![0, 1],
        match_window_start: 0,
    };

    app.move_selection_up();
    assert_eq!(app.match_window_start, 0);

    app.move_selection_down();
    app.move_selection_down();
    assert_eq!(app.match_window_start, 1);
}

#[test]
fn numeric_selection_moves_the_result_window() {
    let mut app = App {
        input: String::new(),
        input_mode: InputMode::default(),
        history: Vec::new(),
        matches: (0..12).collect(),
        match_window_start: 2,
    };

    app.jump_to_result(4);
    assert_eq!(app.match_window_start, 6);

    app.jump_to_result(9);
    assert_eq!(app.match_window_start, 6);
}

#[test]
fn updating_matches_resets_result_window_to_first_match() {
    let mut app = App {
        input: String::new(),
        input_mode: InputMode::default(),
        history: (0..3)
            .map(|index| HistoryEntry::new(format!("command {index}"), String::new(), false))
            .collect(),
        matches: vec![1, 2],
        match_window_start: 1,
    };

    app.update_matches();

    assert_eq!(app.match_window_start, 0);
}

fn press(key: Key) -> KeyPress {
    KeyPress { key, control: false }
}

fn app_with_matches(count: usize) -> App {
    App {
        input: String::new(),
        input_mode: InputMode::Normal,
        history: Vec::new(),
        matches: (0..count).collect(),
        match_window_start: 0,
    }
}

#[test]
fn new_app_lists_newest_entries_in_editing_mode() {
    let history = vec![
        HistoryEntry::new("a".to_string(), String::new(), false),
        HistoryEntry::new("b".to_string(), String::new(), false),
    ];
    let app = App::new(history);
    assert_eq!(app.input_mode, InputMode::Editing);
    assert_eq!(app.matches, vec![0, 1]);
    assert_eq!(app.input, "");
}

#[test]
fn down_then_up_returns_to_the_same_result() {
    let mut app = app_with_matches(3);
    app.move_selection_down();
    assert_eq!(app.match_window_start, 1);
    app.move_selection_up();
    assert_eq!(app.match_window_start, 0);
}

#[test]
fn window_stays_put_without_matches() {
    let mut app = app_with_matches(0);
    app.move_selection_down();
    app.jump_to_result(3);
    app.move_selection_up();
    assert_eq!(app.match_window_start, 0);
}

#[test]
fn jump_with_overflowing_distance_is_ignored() {
    let mut app = app_with_matches(5);
    app.match_window_start = 2;
    app.jump_to_result(usize::MAX);
    assert_eq!(app.match_window_start, 2);
}

#[test]
fn normal_mode_keys() {
    let mut app = app_with_matches(12);
    assert_eq!(app.handle_key(press(Key::Char('j'))), Action::Continue);
    assert_eq!(app.match_window_start, 1);
    assert_eq!(app.handle_key(press(Key::Down)), Action::Continue);
    assert_eq!(app.match_window_start, 2);
    assert_eq!(app.handle_key(press(Key::Char('k'))), Action::Continue);
    assert_eq!(app.match_window_start, 1);
    assert_eq!(app.handle_key(press(Key::Char('7'))), Action::Continue);
    assert_eq!(app.match_window_start, 8);
    assert_eq!(app.handle_key(press(Key::Char('9'))), Action::Continue);
    assert_eq!(app.match_window_start, 8);
    assert_eq!(app.handle_key(press(Key::Up)), Action::Continue);
    assert_eq!(app.match_window_start, 7);
    assert_eq!(app.handle_key(press(Key::Char('x'))), Action::Continue);
    assert_eq!(app.handle_key(press(Key::Char('q'))), Action::Quit);
    assert_eq!(app.handle_key(press(Key::Esc)), Action::Quit);
    assert_eq!(app.input_mode, InputMode::Normal);
    assert_eq!(app.handle_key(press(Key::Char('e'))), Action::Continue);
    assert_eq!(app.input_mode, InputMode::Editing);
}

#[test]
fn editing_mode_keys() {
    let mut app = app_with_matches(4);
    app.input_mode = InputMode::Editing;
    assert_eq!(app.handle_key(press(Key::Char('j'))), Action::EditInput);
    assert_eq!(app.match_window_start, 0);
    assert_eq!(app.handle_key(KeyPress { key: Key::Char('j'), control: true }), Action::Continue);
    assert_eq!(app.match_window_start, 1);
    assert_eq!(app.handle_key(KeyPress { key: Key::Char('k'), control: true }), Action::Continue);
    assert_eq!(app.match_window_start, 0);
    assert_eq!(app.handle_key(press(Key::Down)), Action::Continue);
    assert_eq!(app.match_window_start, 1);
    assert_eq!(app.handle_key(press(Key::Enter)), Action::Accept(1));
    assert_eq!(app.handle_key(press(Key::Tab)), Action::Edit(1));
    assert_eq!(app.handle_key(press(Key::Other)), Action::EditInput);
    assert_eq!(app.handle_key(press(Key::Char('q'))), Action::EditInput);
    assert_eq!(app.handle_key(press(Key::Esc)), Action::Continue);
    assert_eq!(app.input_mode, InputMode::Normal);
}

#[test]
fn editing_the_input_and_updating_matches() {
    let history = vec![
        HistoryEntry::new("cargo build".to_string(), String::new(), false),
        HistoryEntry::new("ls".to_string(), String::new(), false),
    ];
    let mut app = App::new(history);
    app.move_selection_down();
    app.input = "ls".to_string();
    app.update_matches();
    assert_eq!(app.matches, vec![1]);
    assert_eq!(app.match_window_start, 0);
}

#[test]
fn enter_and_tab_choose_the_highlighted_entry() {
    let history = vec![
        HistoryEntry::new("git status".to_string(), String::new(), false),
        HistoryEntry::new("ls".to_string(), String::new(), false),
        HistoryEntry::new("git log".to_string(), String::new(), false),
    ];
    let mut app = App::new(history);
    app.input = "git".to_string();
    app.update_matches();
    assert_eq!(app.matches, vec![0, 2]);
    assert_eq!(app.handle_key(press(Key::Down)), Action::Continue);
    assert_eq!(app.handle_key(press(Key::Enter)), Action::Accept(2));
    assert_eq!(app.handle_key(press(Key::Tab)), Action::Edit(2));
    assert_eq!(app.history[2].command, "git log");
}

#[test]
fn enter_and_tab_without_matches_do_nothing() {
    let mut app = app_with_matches(0);
    app.input_mode = InputMode::Editing;
    assert_eq!(app.handle_key(press(Key::Enter)), Action::Continue);
    assert_eq!(app.handle_key(press(Key::Tab)), Action::Continue);
    assert_eq!(app.input_mode, InputMode::Editing);
}

#[test]
fn enter_in_normal_mode_does_nothing() {
    let mut app = app_with_matches(3);
    assert_eq!(app.handle_key(press(Key::Enter)), Action::Continue);
    assert_eq!(app.handle_key(press(Key::Tab)), Action::Continue);
}
