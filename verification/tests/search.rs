use sh_hist::history::HistoryEntry;
use sh_hist::search::{is_subsequence_of, search_history, text_contains};

fn entry(command: &str) -> HistoryEntry {
    HistoryEntry::new(command.to_string(), String::new(), false)
}

fn chars(s: &str) -> Vec<char> {
    s.chars().collect()
}

#[test]
fn search_empty_query_returns_newest_commands() {
    let history = (0..12)
        .map(|index| entry(&format!("command {index}")))
        .collect::<Vec<_>>();

    assert_eq!(
        search_history(&history, "", 10),
        (0..10).collect::<Vec<_>>()
    );
}

#[test]
fn normal_matches_come_before_fuzzy_matches() {
    let history = vec![entry("go sleep"), entry("git stash"), entry("gs")];

    assert_eq!(search_history(&history, "gs", 10), vec![2, 0, 1]);
}

#[test]
fn fuzzy_results_exclude_normal_matches() {
    let history = vec![entry("git status"), entry("gs"), entry("go sleep")];

    assert_eq!(search_history(&history, "gs", 10), vec![1, 0, 2]);
}

#[test]
fn search_is_case_insensitive() {
    let history = vec![entry("Cargo Check")];

    assert_eq!(search_history(&history, "cargo", 10), vec![0]);
}

#[test]
fn result_count_is_capped() {
    let history = (0..12)
        .map(|index| entry(&format!("cargo command {index}")))
        .collect::<Vec<_>>();

    assert_eq!(search_history(&history, "cargo", 3), vec![0, 1, 2]);
}

#[test]
fn uppercase_query_matches_lowercase_text() {
    let history = vec![entry("make test"), entry("MAKE")];
    assert_eq!(search_history(&history, "MAKE", 10), vec![0, 1]);
}

#[test]
fn zero_max_results_still_returns_first_match() {
    let history = vec![entry("ab"), entry("ab")];
    assert_eq!(search_history(&history, "ab", 0), vec![0]);
    assert_eq!(search_history(&history, "", 0), Vec::<usize>::new());
    let fuzzy_only = vec![entry("a-b")];
    assert_eq!(search_history(&fuzzy_only, "ab", 0), vec![0]);
}

#[test]
fn empty_query_lists_whole_short_history() {
    let history = vec![entry("a"), entry("b")];
    assert_eq!(search_history(&history, "", 10), vec![0, 1]);
}

#[test]
fn non_matching_entries_are_left_out() {
    let history = vec![entry("ls"), entry("pwd"), entry("cd /tmp")];
    assert_eq!(search_history(&history, "xyz", 10), Vec::<usize>::new());
    assert_eq!(search_history(&history, "tmp", 10), vec![2]);
}

#[test]
fn every_fuzzy_match_is_listed_once() {
    let history = vec![entry("git log"), entry("grep log"), entry("gl"), entry("echo")];
    let result = search_history(&history, "gl", 10);
    assert_eq!(result, vec![2, 0, 1]);
}

#[test]
fn metadata_is_searched_when_included() {
    let history = vec![HistoryEntry::new("ls".to_string(), ": 123:0".to_string(), true)];
    assert_eq!(search_history(&history, "123", 10), vec![0]);
}

#[test]
fn substring_check() {
    assert!(text_contains(&chars("cargo test"), &chars("go t")));
    assert!(text_contains(&chars("abc"), &chars("")));
    assert!(!text_contains(&chars("ab"), &chars("abc")));
    assert!(!text_contains(&chars("a b"), &chars("ab")));
}

#[test]
fn subsequence_check() {
    assert!(is_subsequence_of(&chars("gs"), &chars("git status")));
    assert!(is_subsequence_of(&chars(""), &chars("")));
    assert!(!is_subsequence_of(&chars("sg"), &chars("gs")));
    assert!(is_subsequence_of(&chars("aa"), &chars("banana")));
}

#[test]
fn ascii_case_of_the_query_does_not_matter() {
    let history = vec![entry("Cargo Check"), entry("git STATUS"), entry("make clean")];
    for query in ["cargo", "gS", "MaKe c", "status", "zz"] {
        let plain = search_history(&history, query, 10);
        assert_eq!(search_history(&history, &query.to_ascii_uppercase(), 10), plain);
        assert_eq!(search_history(&history, &query.to_ascii_lowercase(), 10), plain);
    }
    assert_eq!(search_history(&history, "GS", 10), vec![1]);
}
