use git_projects::history::{
    history_path, load, record, record_entries, render, sort_by_history, sort_with_history,
    MAX_ENTRIES,
};

fn strings(items: &[&str]) -> Vec<String> {
    items.iter().map(|s| s.to_string()).collect()
}

/// Records `selected` into the history held in `file`, as the program does
/// with the history file.
fn record_into(file: &mut Vec<u8>, selected: &str) {
    if let Some(bytes) = record(file, selected) {
        *file = bytes;
    }
}

#[test]
fn puts_history_first_then_the_rest() {
    let repos = strings(&["a", "b", "c", "d"]);
    let history = strings(&["c", "a"]);

    assert_eq!(
        sort_with_history(repos, &history),
        strings(&["c", "a", "b", "d"])
    );
}

#[test]
fn ignores_history_entries_that_no_longer_exist() {
    let repos = strings(&["a", "b"]);
    let history = strings(&["gone", "b"]);

    assert_eq!(sort_with_history(repos, &history), strings(&["b", "a"]));
}

#[test]
fn tolerates_duplicate_history_entries() {
    let repos = strings(&["a", "b"]);
    let history = strings(&["b", "b", "a"]);

    assert_eq!(sort_with_history(repos, &history), strings(&["b", "a"]));
}

#[test]
fn empty_history_keeps_the_input_order() {
    let repos = strings(&["a", "b"]);

    assert_eq!(sort_with_history(repos, &[]), strings(&["a", "b"]));
}

#[test]
fn records_the_selection_at_the_top_without_duplicating_it() {
    let mut file: Vec<u8> = Vec::new();

    record_into(&mut file, "a");
    record_into(&mut file, "b");
    record_into(&mut file, "a");

    assert_eq!(load(&file), strings(&["a", "b"]));
}

#[test]
fn caps_the_file_length() {
    let mut file: Vec<u8> = Vec::new();

    for i in 0..(MAX_ENTRIES + 50) {
        record_into(&mut file, &format!("repo-{}", i));
    }

    let entries = load(&file);
    assert_eq!(entries.len(), MAX_ENTRIES);
    // Most recent first.
    assert_eq!(entries[0], format!("repo-{}", MAX_ENTRIES + 49));
}

#[test]
fn missing_file_loads_as_empty() {
    assert!(load(&[]).is_empty());
}

#[test]
fn load_skips_empty_lines_and_strips_crlf() {
    assert_eq!(load(b"a\r\n\nb\n\r\nc"), strings(&["a", "b", "c"]));
    assert_eq!(load(b"x\r\r\n"), strings(&["x\r"]));
}

#[test]
fn load_stops_at_the_first_line_that_is_not_utf8() {
    assert_eq!(load(b"a\nb\xff\nc\n"), strings(&["a"]));
    assert_eq!(load("é\n日本\n".as_bytes()), strings(&["é", "日本"]));
}

#[test]
fn render_writes_one_entry_per_line() {
    assert_eq!(render(&strings(&["a", "é"])), "a\né\n".as_bytes().to_vec());
    assert!(render(&[]).is_empty());
}

#[test]
fn loading_what_was_rendered_gives_the_entries_back() {
    let entries = strings(&["github.com/x/y", "ü", "a b"]);
    assert_eq!(load(&render(&entries)), entries);
}

#[test]
fn recording_nothing_writes_nothing() {
    assert_eq!(record(b"a\n", ""), None);
}

#[test]
fn record_moves_a_known_entry_to_the_top() {
    assert_eq!(
        record(b"a\nb\nc\n", "b"),
        Some(b"b\na\nc\n".to_vec())
    );
    assert_eq!(
        record_entries(&strings(&["a", "b", "a", "c"]), "d"),
        strings(&["d", "a", "b", "c"])
    );
}

#[test]
fn record_looks_at_no_more_than_the_scan_window() {
    // Entries past the first 400 lines of the old file are not kept, even
    // when fewer than the cap survive deduplication.
    let mut prev: Vec<String> = Vec::new();
    for _ in 0..400 {
        prev.push("same".to_string());
    }
    prev.push("late".to_string());
    assert_eq!(record_entries(&prev, "new"), strings(&["new", "same"]));
}

#[test]
fn sort_by_history_reads_the_history_file() {
    let repos = strings(&["a", "b", "c"]);
    assert_eq!(sort_by_history(repos, b"c\nzz\nb\n"), strings(&["c", "b", "a"]));
}

#[test]
fn sort_keeps_duplicate_repositories_missing_from_history() {
    let repos = strings(&["a", "a", "b"]);
    assert_eq!(sort_with_history(repos, &strings(&["b"])), strings(&["b", "a", "a"]));
}

#[test]
fn a_carriage_return_without_newline_is_kept() {
    assert_eq!(load(b"\r"), strings(&["\r"]));
    assert_eq!(load(b"a\nx\r"), strings(&["a", "x\r"]));
    assert_eq!(load(b"x\r\n"), strings(&["x"]));
}

#[test]
fn reloading_after_a_record_strips_carriage_returns() {
    // "x\r" was kept at the end of the file; rewritten with a newline after
    // it, its carriage return is dropped on the next load.
    let file = record(b"a\nx\r", "s").unwrap();
    assert_eq!(file, b"s\na\nx\r\n".to_vec());
    assert_eq!(load(&file), strings(&["s", "a", "x"]));
}

#[test]
fn recording_the_same_selection_twice_is_like_once() {
    let once = record(b"b\na\nb\nc\n", "a").unwrap();
    let twice = record(&once, "a").unwrap();
    assert_eq!(once, twice);
    assert_eq!(load(&once), strings(&["a", "b", "c"]));
}

#[test]
fn sorting_twice_is_like_once() {
    let history = strings(&["c", "x", "a", "c"]);
    let once = sort_with_history(strings(&["a", "b", "c", "d"]), &history);
    let twice = sort_with_history(once.clone(), &history);
    assert_eq!(once, twice);
}

#[test]
fn sorting_with_the_cleaned_history_is_the_same() {
    let repos = strings(&["a", "b", "c"]);
    let raw = strings(&["x", "c", "c", "a", "y"]);
    let clean = strings(&["c", "a"]);
    assert_eq!(
        sort_with_history(repos.clone(), &raw),
        sort_with_history(repos, &clean)
    );
}

#[test]
fn history_lives_under_the_data_directory() {
    assert_eq!(history_path(Some("/data"), Some("/home/me")), "/data/git-projects/history");
    assert_eq!(history_path(Some("/data/"), None), "/data/git-projects/history");
    assert_eq!(history_path(None, Some("/home/me")), "/home/me/.local/share/git-projects/history");
    assert_eq!(history_path(None, None), ".local/share/git-projects/history");
    assert_eq!(history_path(Some(""), Some("/home/me")), "git-projects/history");
}

#[test]
fn a_lone_carriage_return_entry_disappears_on_reload() {
    // "\r" is kept when read, written back as "\r\n", and then read as an
    // empty line, which is skipped.
    let file = record(b"a\n\r", "s").unwrap();
    assert_eq!(load(&file), strings(&["s", "a"]));
}

#[test]
fn dropping_a_carriage_return_can_repeat_an_entry() {
    let file = record(b"x\nx\r", "s").unwrap();
    assert_eq!(load(&file), strings(&["s", "x", "x"]));
}

#[test]
fn recording_again_drops_one_more_carriage_return() {
    let once = record(b"x\r\r\r\n", "s").unwrap();
    assert_eq!(load(&once), strings(&["s", "x\r"]));
    let twice = record(&once, "s").unwrap();
    assert_eq!(load(&twice), strings(&["s", "x"]));
}
