use sh_hist::history::HistoryEntry;
use sh_hist::render::{command_preview, result_labels, truncate_with_ellipsis, MULTILINE_PREVIEW_MAX_CHARS};

#[test]
fn multiline_preview_compacts_and_marks_omission() {
    let preview = command_preview("for file in *; do\n  echo $file\ndone");

    assert_eq!(preview, "for file in *; do echo $file done...");
}

#[test]
fn long_preview_is_truncated_with_ellipsis() {
    let preview = command_preview(&"x".repeat(MULTILINE_PREVIEW_MAX_CHARS + 1));

    assert_eq!(preview.chars().count(), MULTILINE_PREVIEW_MAX_CHARS);
    assert!(preview.ends_with("..."));
}

#[test]
fn single_line_preview_is_compacted() {
    assert_eq!(command_preview("  git   status \t"), "git status");
    assert_eq!(command_preview(""), "");
    assert_eq!(command_preview("a\u{3000}b"), "a b");
}

#[test]
fn multiline_preview_already_ending_in_dots() {
    assert_eq!(command_preview("echo ...\n"), "echo ...");
}

#[test]
fn long_multiline_preview_fits() {
    let command = format!("{}\nmore", "y ".repeat(100));
    let preview = command_preview(&command);
    assert!(preview.chars().count() <= MULTILINE_PREVIEW_MAX_CHARS);
    assert!(preview.ends_with("..."));
}

#[test]
fn truncation_cases() {
    assert_eq!(truncate_with_ellipsis("short", 10), "short");
    assert_eq!(truncate_with_ellipsis("abcdef", 3), "...");
    assert_eq!(truncate_with_ellipsis("abcdef", 2), "..");
    assert_eq!(truncate_with_ellipsis("abcdef", 0), "");
    assert_eq!(truncate_with_ellipsis("ab  cdefgh", 7), "ab...");
    assert_eq!(truncate_with_ellipsis("abcdefgh", 6), "abc...");
}

#[test]
fn labels_of_visible_results() {
    let history = vec![
        HistoryEntry::new("ls".to_string(), String::new(), false),
        HistoryEntry::new("git\n  log".to_string(), String::new(), false),
        HistoryEntry::new("pwd".to_string(), String::new(), false),
    ];
    let labels = result_labels(&history, &[2, 1, 0], 1, 10);
    assert_eq!(labels, vec!["0 git log...".to_string(), "1 ls".to_string()]);
    let labels = result_labels(&history, &[2, 1, 0], 0, 2);
    assert_eq!(labels, vec!["0 pwd".to_string(), "1 git log...".to_string()]);
    assert!(result_labels(&history, &[2, 1, 0], 3, 10).is_empty());
    assert!(result_labels(&history, &[2, 1, 0], 7, 10).is_empty());
}

#[test]
fn labels_count_past_ten() {
    let history = vec![HistoryEntry::new("x".to_string(), String::new(), false)];
    let matches = vec![0usize; 12];
    let labels = result_labels(&history, &matches, 0, 12);
    assert_eq!(labels[10], "10 x");
    assert_eq!(labels[11], "11 x");
}
