use lite_edit_editor::file_picker::{mock_set_next_file, pick_file};

#[test]
fn test_mock_pick_file_returns_set_value() {
    let mut slot: Option<String> = None;
    mock_set_next_file(&mut slot, Some("/test/path.txt".to_string()));
    assert_eq!(pick_file(&mut slot), Some("/test/path.txt".to_string()));
}

#[test]
fn test_mock_pick_file_returns_none_by_default() {
    let mut slot: Option<String> = None;
    assert_eq!(pick_file(&mut slot), None);
}

#[test]
fn test_mock_pick_file_consumes_value() {
    let mut slot: Option<String> = None;
    mock_set_next_file(&mut slot, Some("/consumed.txt".to_string()));
    assert_eq!(pick_file(&mut slot), Some("/consumed.txt".to_string()));
    assert_eq!(pick_file(&mut slot), None);
}

#[test]
fn test_mock_pick_file_can_be_reset() {
    let mut slot: Option<String> = None;
    mock_set_next_file(&mut slot, Some("/first.txt".to_string()));
    let _ = pick_file(&mut slot);
    mock_set_next_file(&mut slot, Some("/second.txt".to_string()));
    assert_eq!(pick_file(&mut slot), Some("/second.txt".to_string()));
}

#[test]
fn test_mock_pick_file_none_value() {
    let mut slot: Option<String> = None;
    mock_set_next_file(&mut slot, None);
    assert_eq!(pick_file(&mut slot), None);
}
