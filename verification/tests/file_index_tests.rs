use lite_edit_editor::file_change_debouncer::FileChangeDebouncer;
use lite_edit_editor::file_index::{
    find_match_positions, is_excluded, parse_recency, recency_path, score_match, score_path_match,
    trim, FileEvent, FsEventKind, FsEventPath, MatchResult, PausedFileIndexState, SharedState,
    MAX_RECENCY_ENTRIES,
};

fn strings(v: &[&str]) -> Vec<String> {
    v.iter().map(|s| s.to_string()).collect()
}

fn state_with(paths: &[&str], recency: &[&str]) -> SharedState {
    let mut s = SharedState::new(strings(recency));
    s.add_paths(strings(paths));
    s
}

fn paths_of(results: &[MatchResult]) -> Vec<String> {
    results.iter().map(|r| r.path.clone()).collect()
}

fn fs_path(path: &str, is_file: bool, exists: bool) -> FsEventPath {
    FsEventPath { path: path.to_string(), is_file, exists }
}

// Exclusion rules

#[test]
fn test_is_excluded_gitignore() {
    assert!(is_excluded(".gitignore"));
}

#[test]
fn test_is_excluded_git_config() {
    assert!(is_excluded(".git/config"));
}

#[test]
fn test_is_excluded_src_main() {
    assert!(!is_excluded("src/main.rs"));
}

#[test]
fn test_is_excluded_target() {
    assert!(is_excluded("target/debug/editor"));
}

#[test]
fn test_is_excluded_node_modules() {
    assert!(is_excluded("foo/node_modules/bar.js"));
}

#[test]
fn test_is_excluded_hidden_in_path() {
    assert!(is_excluded("src/.hidden/file.rs"));
}

#[test]
fn test_is_excluded_plain_names() {
    assert!(!is_excluded("targets/file.rs"));
    assert!(!is_excluded("docs/node_modules_notes.md"));
    assert!(!is_excluded("./src/lib.rs"));
}

// Scoring

#[test]
fn test_score_match_exact_prefix() {
    let score = score_match("main", "main.rs").unwrap();
    assert!(score > 200);
}

#[test]
fn test_score_match_no_match() {
    let score = score_match("xyz", "main.rs");
    assert!(score.is_none());
}

#[test]
fn test_score_match_subsequence() {
    let score = score_match("mr", "main.rs");
    assert!(score.is_some());
}

#[test]
fn test_score_match_case_insensitive() {
    let score = score_match("main", "MAIN.RS");
    assert!(score.is_some());
}

#[test]
fn test_score_match_exact_values() {
    // base 100 + consecutive run of 4 (40) + prefix 4*50 (200) + 255 - 7 bytes
    assert_eq!(score_match("main", "main.rs"), Some(588));
    // base 100 + no run + prefix 1*50 + 255 - 7
    assert_eq!(score_match("mr", "main.rs"), Some(398));
    // empty query: base score, no bonus, length penalty only
    assert_eq!(score_match("", "main.rs"), Some(1));
}

#[test]
fn test_find_match_positions_basic() {
    let query: Vec<char> = "mr".chars().collect();
    let target: Vec<char> = "main.rs".chars().collect();
    let positions = find_match_positions(&query, &target).unwrap();
    assert_eq!(positions, vec![0, 5]);
}

#[test]
fn test_find_match_positions_no_match() {
    let query: Vec<char> = "xyz".chars().collect();
    let target: Vec<char> = "main.rs".chars().collect();
    let positions = find_match_positions(&query, &target);
    assert!(positions.is_none());
}

#[test]
fn test_find_match_positions_greedy_and_empty() {
    let query: Vec<char> = "aa".chars().collect();
    let target: Vec<char> = "banana".chars().collect();
    assert_eq!(find_match_positions(&query, &target), Some(vec![1, 3]));
    let empty: Vec<char> = Vec::new();
    assert_eq!(find_match_positions(&empty, &target), Some(vec![]));
}

#[test]
fn test_score_path_match_basic() {
    let path = "docs/chunks/feature/GOAL.md";
    let score = score_path_match("docs", path);
    assert!(score.is_some(), "Expected score for 'docs' in path");
    assert!(score.unwrap() >= 100, "Score should include base score");
    let no_score = score_path_match("xyz", path);
    assert!(no_score.is_none(), "Expected no match for 'xyz'");
}

#[test]
fn test_score_path_match_consecutive_bonus() {
    let path = "testing/feature/main.rs";
    let consecutive_score = score_path_match("test", path);
    assert!(consecutive_score.is_some());
    let sparse_score = score_path_match("tig", path);
    assert!(sparse_score.is_some());
    assert!(
        consecutive_score.unwrap() > sparse_score.unwrap(),
        "Consecutive match should score higher than sparse match"
    );
}

#[test]
fn test_empty_query_path_match() {
    let path = "src/main.rs";
    let score = score_path_match("", path);
    assert!(score.is_some(), "Empty query should match any path");
    assert_eq!(score.unwrap(), 1, "Empty query should return score 1");
}

// Queries against the shared state

#[test]
fn test_empty_query_no_recency_lists_cache_in_order() {
    let state = state_with(&["src/main.rs", "Cargo.toml", "src/lib.rs"], &[]);
    let results = state.query("");
    assert_eq!(paths_of(&results), strings(&["Cargo.toml", "src/lib.rs", "src/main.rs"]));
    assert!(results.iter().all(|r| r.score == 1));
}

#[test]
fn test_empty_query_with_recency_lists_recent_first() {
    let state = state_with(&["a.rs", "b.rs", "c.rs"], &["c.rs", "a.rs"]);
    let results = state.query("");
    assert_eq!(paths_of(&results), strings(&["c.rs", "a.rs", "b.rs"]));
    assert_eq!(results[0].score, u32::MAX);
    assert_eq!(results[1].score, u32::MAX);
    assert_eq!(results[2].score, 1);
}

#[test]
fn test_empty_query_recency_not_cached_omitted() {
    let state = state_with(&["a.rs"], &["gone.rs", "a.rs"]);
    let results = state.query("");
    assert_eq!(paths_of(&results), strings(&["a.rs"]));
    assert_eq!(results[0].score, u32::MAX);
}

#[test]
fn test_query_main_ranks_main_above_domain() {
    let state = state_with(&["src/domain.rs", "src/main.rs"], &[]);
    let results = state.query("main");
    assert!(!results.is_empty());
    assert_eq!(results[0].path, "src/main.rs");
}

#[test]
fn test_query_case_insensitive() {
    let state = state_with(&["src/main.rs"], &[]);
    let results = state.query("MAIN");
    assert_eq!(paths_of(&results), strings(&["src/main.rs"]));
}

#[test]
fn test_nonempty_query_ignores_recency() {
    let state = state_with(&["alpha.rs", "beta.rs"], &["beta.rs"]);
    let results = state.query("alp");
    assert_eq!(paths_of(&results), strings(&["alpha.rs"]));
}

#[test]
fn test_excluded_paths_never_listed() {
    let state = state_with(&[".gitignore", "target/debug/app", "src/app.rs"], &[".gitignore"]);
    assert_eq!(paths_of(&state.query("")), strings(&["src/app.rs"]));
    assert_eq!(paths_of(&state.query("app")), strings(&["src/app.rs"]));
    assert!(state.query("gitignore").is_empty());
}

#[test]
fn test_query_directory_name_matches_path_only() {
    let state = state_with(&["file_search/mod.rs", "other/x.rs"], &[]);
    let results = state.query("file_search");
    assert_eq!(paths_of(&results), strings(&["file_search/mod.rs"]));
}

#[test]
fn test_filename_match_ranks_above_path_only_match() {
    let state = state_with(&["main/other.rs", "src/main.rs"], &[]);
    let results = state.query("main");
    assert_eq!(paths_of(&results), strings(&["src/main.rs", "main/other.rs"]));
}

#[test]
fn test_equal_scores_in_path_order() {
    let state = state_with(&["b/x.rs", "a/x.rs"], &[]);
    let results = state.query("x");
    assert_eq!(paths_of(&results), strings(&["a/x.rs", "b/x.rs"]));
    assert_eq!(results[0].score, results[1].score);
}

#[test]
fn test_add_paths_keeps_cache_sorted() {
    let state = state_with(&["b", "a", "c/d", "c"], &[]);
    assert_eq!(state.cache().clone(), strings(&["a", "b", "c", "c/d"]));
    assert!(state.contains("c/d"));
    assert!(state.contains("c//d/"));
    assert!(!state.contains("./b"));
    assert!(!state.contains("e"));
}

// Recency

#[test]
fn test_record_selection_deduplication() {
    let mut state = state_with(&["a.rs", "b.rs"], &[]);
    state.record_selection("/root", "/root/a.rs");
    state.record_selection("/root", "/root/b.rs");
    state.record_selection("/root", "/root/a.rs");
    assert_eq!(state.recency().clone(), strings(&["a.rs", "b.rs"]));
}

#[test]
fn test_record_selection_cap() {
    let mut state = SharedState::new(Vec::new());
    for i in 0..(MAX_RECENCY_ENTRIES + 10) {
        state.record_selection("/root", &format!("/root/file{}.rs", i));
    }
    assert_eq!(state.recency().len(), MAX_RECENCY_ENTRIES);
    assert_eq!(state.recency()[0], format!("file{}.rs", MAX_RECENCY_ENTRIES + 9));
}

#[test]
fn test_record_selection_outside_root_kept_absolute() {
    let mut state = SharedState::new(Vec::new());
    state.record_selection("/root", "/elsewhere/x.rs");
    assert_eq!(state.recency().clone(), strings(&["/elsewhere/x.rs"]));
}

#[test]
fn test_record_selection_twice_is_same_as_once() {
    let mut once = SharedState::new(strings(&["x.rs", "y.rs"]));
    once.record_selection("/r", "/r/y.rs");
    let mut twice = SharedState::new(strings(&["x.rs", "y.rs"]));
    twice.record_selection("/r", "/r/y.rs");
    twice.record_selection("/r", "/r/y.rs");
    assert_eq!(once.recency().clone(), twice.recency().clone());
    assert_eq!(once.recency().clone(), strings(&["y.rs", "x.rs"]));
}

#[test]
fn test_recency_path() {
    assert_eq!(recency_path("/root"), "/root/.lite-edit-recent");
    assert_eq!(recency_path("/root/"), "/root/.lite-edit-recent");
}

#[test]
fn test_recency_blank_lines_ignored() {
    let lines = strings(&["  a.rs ", "", "   ", "b.rs"]);
    assert_eq!(parse_recency(&lines), strings(&["a.rs", "b.rs"]));
}

#[test]
fn test_trim() {
    assert_eq!(trim("  a b \t\n"), "a b");
    assert_eq!(trim("   "), "");
}

// File system events

#[test]
fn test_fs_create_adds_file() {
    let mut state = state_with(&["a.rs"], &[]);
    let mut debouncer = FileChangeDebouncer::new(100);
    let (changed, events) = state.handle_fs_event(
        "/root",
        FsEventKind::Create,
        &vec![fs_path("/root/b.rs", true, true)],
        &mut debouncer,
        0,
    );
    assert!(changed);
    assert!(events.is_empty());
    assert_eq!(state.cache().clone(), strings(&["a.rs", "b.rs"]));
}

#[test]
fn test_fs_create_excluded_or_outside_ignored() {
    let mut state = state_with(&["a.rs"], &[]);
    let mut debouncer = FileChangeDebouncer::new(100);
    let (changed, events) = state.handle_fs_event(
        "/root",
        FsEventKind::Create,
        &vec![fs_path("/root/.git/HEAD", true, true), fs_path("/other/c.rs", true, true)],
        &mut debouncer,
        0,
    );
    assert!(!changed);
    assert!(events.is_empty());
    assert_eq!(state.cache().clone(), strings(&["a.rs"]));
}

#[test]
fn test_fs_remove_removes_and_reports_deletion() {
    let mut state = state_with(&["a.rs", "b.rs"], &[]);
    let mut debouncer = FileChangeDebouncer::new(100);
    let (changed, events) = state.handle_fs_event(
        "/root",
        FsEventKind::Remove,
        &vec![fs_path("/root/a.rs", false, false)],
        &mut debouncer,
        0,
    );
    assert!(changed);
    assert_eq!(events, vec![FileEvent::Deleted("/root/a.rs".to_string())]);
    assert_eq!(state.cache().clone(), strings(&["b.rs"]));
}

#[test]
fn test_fs_rename_both_moves_path() {
    let mut state = state_with(&["a.rs", "b.rs"], &[]);
    let mut debouncer = FileChangeDebouncer::new(100);
    let (changed, events) = state.handle_fs_event(
        "/root",
        FsEventKind::RenameBoth,
        &vec![fs_path("/root/a.rs", false, false), fs_path("/root/c.rs", true, true)],
        &mut debouncer,
        0,
    );
    assert!(changed);
    assert_eq!(
        events,
        vec![FileEvent::Renamed("/root/a.rs".to_string(), "/root/c.rs".to_string())]
    );
    assert_eq!(state.cache().clone(), strings(&["b.rs", "c.rs"]));
}

#[test]
fn test_fs_modify_content_registers_change() {
    let mut state = state_with(&["a.rs"], &[]);
    let mut debouncer = FileChangeDebouncer::new(100);
    let (changed, events) = state.handle_fs_event(
        "/root",
        FsEventKind::ModifyContent,
        &vec![fs_path("/root/a.rs", true, true)],
        &mut debouncer,
        1_000,
    );
    assert!(!changed);
    assert!(events.is_empty());
    assert_eq!(debouncer.pending_count(), 1);
    assert_eq!(debouncer.flush_ready(1_000 + 100_000_000), strings(&["/root/a.rs"]));
}

// Pausing

#[test]
fn test_paused_state_changed_files() {
    let state = PausedFileIndexState::new(vec![
        ("/r/a.rs".to_string(), Some(10)),
        ("/r/b.rs".to_string(), Some(20)),
        ("/r/c.rs".to_string(), None),
        ("/r/d.rs".to_string(), None),
    ]);
    assert_eq!(state.paths(), strings(&["/r/a.rs", "/r/b.rs", "/r/c.rs", "/r/d.rs"]));
    let changed = state.changed_files(&vec![Some(10), Some(25), Some(1), None]);
    assert_eq!(changed, strings(&["/r/b.rs", "/r/c.rs"]));
    assert!(PausedFileIndexState::empty().paths().is_empty());
}

#[test]
fn test_query_checked_matches_query() {
    let state = state_with(&["src/main.rs", "b.rs"], &["b.rs"]);
    assert_eq!(state.query_checked("MAIN"), Some(state.query("main")));
    assert_eq!(state.query_checked(""), Some(state.query("")));
}

#[test]
fn test_query_checked_long_query_without_match() {
    use_long_query();
}

fn use_long_query() {
    let state = state_with(&["src/a.rs", "b.rs"], &[]);
    let long = "x".repeat(lite_edit_editor::fuzzy::MAX_QUERY_CHARS + 1);
    assert_eq!(state.query_checked(&long), Some(Vec::new()));
}
