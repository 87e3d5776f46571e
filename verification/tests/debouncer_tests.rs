use lite_edit_editor::file_change_debouncer::{FileChangeDebouncer, DEFAULT_DEBOUNCE_MS};

const MS: u128 = 1_000_000;
const T0: u128 = 5_000_000_000;

#[test]
fn test_new_debouncer_is_empty() {
    let debouncer = FileChangeDebouncer::new(100);
    assert!(debouncer.is_empty());
    assert_eq!(debouncer.pending_count(), 0);
}

#[test]
fn test_register_adds_pending() {
    let mut debouncer = FileChangeDebouncer::new(100);
    debouncer.register("/test/file.rs".to_string(), T0);
    assert!(!debouncer.is_empty());
    assert_eq!(debouncer.pending_count(), 1);
}

#[test]
fn test_single_event_not_emitted_immediately() {
    let mut debouncer = FileChangeDebouncer::new(100);
    debouncer.register("/test/file.rs".to_string(), T0);
    let ready = debouncer.flush_ready(T0);
    assert!(ready.is_empty());
    assert_eq!(debouncer.pending_count(), 1);
}

#[test]
fn test_event_emitted_after_debounce_window() {
    let mut debouncer = FileChangeDebouncer::new(100);
    let path = "/test/file.rs".to_string();
    debouncer.register(path.clone(), T0);
    let ready = debouncer.flush_ready(T0 + 100 * MS);
    assert_eq!(ready.len(), 1);
    assert_eq!(ready[0], path);
    assert!(debouncer.is_empty());
}

#[test]
fn test_rapid_writes_coalesce() {
    let mut debouncer = FileChangeDebouncer::new(100);
    let path = "/test/file.rs".to_string();
    debouncer.register(path.clone(), T0);
    debouncer.register(path.clone(), T0 + 50 * MS);
    let ready = debouncer.flush_ready(T0 + 100 * MS);
    assert!(ready.is_empty(), "Should not emit yet - timer was reset");
    let ready = debouncer.flush_ready(T0 + 150 * MS);
    assert_eq!(ready.len(), 1);
    assert_eq!(ready[0], path);
}

#[test]
fn test_different_files_tracked_independently() {
    let mut debouncer = FileChangeDebouncer::new(100);
    let path1 = "/test/file1.rs".to_string();
    let path2 = "/test/file2.rs".to_string();
    debouncer.register(path1.clone(), T0);
    debouncer.register(path2.clone(), T0 + 50 * MS);
    assert_eq!(debouncer.pending_count(), 2);

    let ready = debouncer.flush_ready(T0 + 100 * MS);
    assert_eq!(ready.len(), 1);
    assert_eq!(ready[0], path1);
    assert_eq!(debouncer.pending_count(), 1);

    let ready = debouncer.flush_ready(T0 + 150 * MS);
    assert_eq!(ready.len(), 1);
    assert_eq!(ready[0], path2);
    assert!(debouncer.is_empty());
}

#[test]
fn test_flush_ready_with_no_pending() {
    let mut debouncer = FileChangeDebouncer::new(100);
    let ready = debouncer.flush_ready(T0);
    assert!(ready.is_empty());
}

#[test]
fn test_boundary_exactly_at_debounce() {
    let mut debouncer = FileChangeDebouncer::new(100);
    debouncer.register("/test/file.rs".to_string(), T0);
    let ready = debouncer.flush_ready(T0 + 100 * MS);
    assert_eq!(ready.len(), 1);
}

#[test]
fn test_just_before_debounce() {
    let mut debouncer = FileChangeDebouncer::new(100);
    debouncer.register("/test/file.rs".to_string(), T0);
    let ready = debouncer.flush_ready(T0 + 99 * MS);
    assert!(ready.is_empty());
}

#[test]
fn test_default_debounce_ms() {
    let debouncer = FileChangeDebouncer::with_default();
    assert!(debouncer.is_empty());
    assert_eq!(DEFAULT_DEBOUNCE_MS, 100);
}

#[test]
fn test_multiple_files_ready_at_once() {
    let mut debouncer = FileChangeDebouncer::new(100);
    for i in 0..3 {
        debouncer.register(format!("/test/file{}.rs", i), T0);
    }
    assert_eq!(debouncer.pending_count(), 3);
    let ready = debouncer.flush_ready(T0 + 100 * MS);
    assert_eq!(ready.len(), 3);
    assert!(debouncer.is_empty());
}

#[test]
fn test_flush_before_registration_time_keeps_pending() {
    let mut debouncer = FileChangeDebouncer::new(100);
    debouncer.register("/test/file.rs".to_string(), T0);
    let ready = debouncer.flush_ready(T0 - 10 * MS);
    assert!(ready.is_empty());
    assert_eq!(debouncer.pending_count(), 1);
}

#[test]
fn test_zero_window_emits_at_once() {
    let mut debouncer = FileChangeDebouncer::new(0);
    debouncer.register("/a".to_string(), T0);
    assert_eq!(debouncer.flush_ready(T0), vec!["/a".to_string()]);
}
