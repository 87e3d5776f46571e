use lite_edit_editor::file_change_suppression::{FileChangeSuppression, DEFAULT_SUPPRESSION_TTL_MS};

const MS: u128 = 1_000_000;

#[test]
fn test_new_registry_is_empty() {
    let registry = FileChangeSuppression::new();
    assert_eq!(registry.active_count(), 0);
}

#[test]
fn test_suppress_adds_entry() {
    let mut registry = FileChangeSuppression::new();
    registry.suppress("/test/file.rs".to_string());
    assert_eq!(registry.active_count(), 1);
}

#[test]
fn test_check_returns_true_for_suppressed() {
    let mut registry = FileChangeSuppression::new();
    let path = "/test/file.rs".to_string();
    registry.suppress(path.clone());
    assert!(registry.check(&path));
}

#[test]
fn test_check_returns_false_for_unknown() {
    let mut registry = FileChangeSuppression::new();
    assert!(!registry.check("/test/unknown.rs"));
}

#[test]
fn test_check_removes_suppression_one_shot() {
    let mut registry = FileChangeSuppression::new();
    let path = "/test/file.rs".to_string();
    registry.suppress(path.clone());
    assert!(registry.check(&path));
    assert!(!registry.check(&path));
}

#[test]
fn test_multiple_paths() {
    let mut registry = FileChangeSuppression::new();
    let path1 = "/test/file1.rs".to_string();
    let path2 = "/test/file2.rs".to_string();
    registry.suppress(path1.clone());
    registry.suppress(path2.clone());
    assert_eq!(registry.active_count(), 2);
    assert!(registry.check(&path1));
    assert_eq!(registry.active_count(), 1);
    assert!(registry.check(&path2));
    assert_eq!(registry.active_count(), 0);
}

#[test]
fn test_default() {
    let registry = FileChangeSuppression::default();
    assert_eq!(registry.active_count(), 0);
    assert_eq!(DEFAULT_SUPPRESSION_TTL_MS, 1000);
}

#[test]
fn test_check_at_returns_false_after_ttl_expires() {
    let mut registry = FileChangeSuppression::with_ttl(1);
    let path = "/test/file.rs".to_string();
    registry.suppress_at(path.clone(), 0);
    assert!(!registry.check_at(&path, 10 * MS));
}

#[test]
fn test_check_at_expiry_boundary() {
    let mut registry = FileChangeSuppression::with_ttl(50);
    registry.suppress_at("/a".to_string(), 100 * MS);
    // Still active one nanosecond before expiry, gone at expiry.
    assert!(registry.check_at("/a", 150 * MS - 1));
    registry.suppress_at("/a".to_string(), 100 * MS);
    assert!(!registry.check_at("/a", 150 * MS));
}

#[test]
fn test_resuppress_at_extends_ttl() {
    let mut registry = FileChangeSuppression::with_ttl(50);
    let path = "/test/file.rs".to_string();
    registry.suppress_at(path.clone(), 0);
    registry.suppress_at(path.clone(), 30 * MS);
    assert_eq!(registry.active_count_at(30 * MS), 1);
    assert!(registry.check_at(&path, 60 * MS));
}

#[test]
fn test_clean_expired_at_removes_old_entries() {
    let mut registry = FileChangeSuppression::with_ttl(1);
    registry.suppress_at("/test/file1.rs".to_string(), 0);
    registry.suppress_at("/test/file2.rs".to_string(), 10 * MS);
    assert!(!registry.check_at("/unrelated", 10 * MS));
    assert_eq!(registry.active_count_at(10 * MS), 1);
}

#[test]
fn test_equal_paths_match_after_normalization() {
    let mut registry = FileChangeSuppression::with_ttl(100);
    registry.suppress_at("/test//dir/./file.rs".to_string(), 0);
    assert!(registry.check_at("/test/dir/file.rs", 1));
}

#[test]
fn test_check_at_drops_expired_and_keeps_active_entries() {
    let mut registry = FileChangeSuppression::with_ttl(10);
    registry.suppress_at("/test/a.rs".to_string(), 0);
    registry.suppress_at("/test/b.rs".to_string(), 0);
    registry.suppress_at("/test/c.rs".to_string(), 20 * MS);
    assert!(!registry.check_at("/test/a.rs", 15 * MS));
    assert_eq!(registry.active_count_at(15 * MS), 1);
    assert!(!registry.check_at("/test/b.rs", 15 * MS));
    assert!(registry.check_at("/test/c.rs", 16 * MS));
    assert_eq!(registry.active_count_at(16 * MS), 0);
}
