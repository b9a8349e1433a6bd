use sh_hist::history::{filter_duplicate_commands, parse_zsh_history, HistoryEntry};

#[test]
fn parses_extended_zsh_history_newest_first() {
    let entries = parse_zsh_history(": 100:0;git status\n: 101:2;cargo test\n", false);

    assert_eq!(entries[0].command, "cargo test");
    assert_eq!(entries[0].metadata, ": 101:2");
    assert_eq!(entries[1].command, "git status");
}

#[test]
fn parses_plain_history_newest_first() {
    let entries = parse_zsh_history("git status\ncargo check\n", false);

    assert_eq!(entries[0].command, "cargo check");
    assert_eq!(entries[1].command, "git status");
}

#[test]
fn preserves_multiline_extended_commands() {
    let entries = parse_zsh_history(
        ": 100:0;for file in *; do\n  echo $file\ndone\n: 101:0;git log\n",
        false,
    );

    assert_eq!(entries[1].command, "for file in *; do\n  echo $file\ndone");
}

#[test]
fn duplicate_filter_keeps_newest_entry() {
    let entries = vec![
        HistoryEntry::new("git status".to_string(), ": 101:0".to_string(), false),
        HistoryEntry::new("cargo check".to_string(), ": 100:0".to_string(), false),
        HistoryEntry::new("git status".to_string(), ": 99:0".to_string(), false),
    ];

    let filtered = filter_duplicate_commands(entries, false);

    assert_eq!(filtered.len(), 2);
    assert_eq!(filtered[0].metadata, ": 101:0");
}

#[test]
fn searchable_text_can_include_metadata() {
    let entry = HistoryEntry::new("git status".to_string(), ": 101:2".to_string(), true);

    assert_eq!(entry.searchable_text, ": 101:2 git status");
}

#[test]
fn searchable_text_is_the_command_without_metadata() {
    let entry = HistoryEntry::new("git status".to_string(), String::new(), true);
    assert_eq!(entry.searchable_text, "git status");
    let entry = HistoryEntry::new("git status".to_string(), ": 1:0".to_string(), false);
    assert_eq!(entry.searchable_text, "git status");
}

#[test]
fn empty_contents_give_no_entries() {
    assert!(parse_zsh_history("", false).is_empty());
    assert!(parse_zsh_history("\n\n", false).is_empty());
}

#[test]
fn crlf_line_endings_are_stripped() {
    let entries = parse_zsh_history("ls -la\r\npwd\r\n", false);
    assert_eq!(entries.len(), 2);
    assert_eq!(entries[0].command, "pwd");
    assert_eq!(entries[1].command, "ls -la");
}

#[test]
fn lone_carriage_return_is_kept() {
    let entries = parse_zsh_history("echo a\r", false);
    assert_eq!(entries[0].command, "echo a\r");
}

#[test]
fn malformed_headers_are_plain_lines() {
    let entries = parse_zsh_history(": :0;ls\n: 1:x;pwd\n:  1:0;echo\n", false);
    assert_eq!(entries.len(), 3);
    assert_eq!(entries[0].command, ":  1:0;echo");
    assert_eq!(entries[1].command, ": 1:x;pwd");
    assert_eq!(entries[2].command, ": :0;ls");
    assert_eq!(entries[2].metadata, "");
}

#[test]
fn extended_entry_with_empty_command_is_dropped() {
    let entries = parse_zsh_history(": 5:0;\n: 6:1;make\n", true);
    assert_eq!(entries.len(), 1);
    assert_eq!(entries[0].command, "make");
    assert_eq!(entries[0].metadata, ": 6:1");
    assert_eq!(entries[0].searchable_text, ": 6:1 make");
}

#[test]
fn empty_extended_command_continued_is_kept() {
    let entries = parse_zsh_history(": 5:0;\nsecond line\n", false);
    assert_eq!(entries.len(), 1);
    assert_eq!(entries[0].command, "\nsecond line");
}

#[test]
fn plain_lines_before_first_header_are_separate_entries() {
    let entries = parse_zsh_history("old one\n\n: 7:0;new\ncontinued\n", false);
    assert_eq!(entries.len(), 2);
    assert_eq!(entries[0].command, "new\ncontinued");
    assert_eq!(entries[1].command, "old one");
}

#[test]
fn command_may_contain_semicolons() {
    let entries = parse_zsh_history(": 10:3;a; b; c\n", false);
    assert_eq!(entries[0].command, "a; b; c");
    assert_eq!(entries[0].metadata, ": 10:3");
}

#[test]
fn parsed_commands_are_never_empty() {
    let entries = parse_zsh_history("\n: 1:0;\n\n: 2:0;x\n", false);
    assert!(entries.iter().all(|e| !e.command.is_empty()));
}

#[test]
fn showing_duplicates_keeps_everything() {
    let entries = vec![
        HistoryEntry::new("ls".to_string(), String::new(), false),
        HistoryEntry::new("ls".to_string(), String::new(), false),
    ];
    let kept = filter_duplicate_commands(entries.clone(), true);
    assert_eq!(kept, entries);
}

#[test]
fn filtering_twice_changes_nothing() {
    let entries = parse_zsh_history("a\nb\na\nc\nb\n", false);
    let once = filter_duplicate_commands(entries, false);
    let commands: Vec<&str> = once.iter().map(|e| e.command.as_str()).collect();
    assert_eq!(commands, vec!["b", "c", "a"]);
    let twice = filter_duplicate_commands(once.clone(), false);
    assert_eq!(twice, once);
}

#[test]
fn joined_files_parse_to_later_entries_first() {
    let a = "old\n: 1:0;first\ncontinued\n";
    let b = ": 2:0;second\nthird\n";
    let joined = format!("{a}{b}");
    for flag in [false, true] {
        let expected = [parse_zsh_history(b, flag), parse_zsh_history(a, flag)].concat();
        assert_eq!(parse_zsh_history(&joined, flag), expected);
    }
    assert_eq!(parse_zsh_history(&joined, false).len(), 3);
}
