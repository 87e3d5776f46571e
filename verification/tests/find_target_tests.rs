use lite_edit_editor::find_target::{FindFocusTarget, FindOutcome};
use lite_edit_editor::focus::{FocusLayer, FocusTarget, Handled};
use lite_edit_editor::input::{Key, KeyEvent, Modifiers};
use lite_edit_editor::mini_buffer::MiniBuffer;

fn char_key(ch: char) -> KeyEvent {
    KeyEvent::new(Key::Char(ch), Modifiers::default())
}

fn escape_key() -> KeyEvent {
    KeyEvent::new(Key::Escape, Modifiers::default())
}

fn return_key() -> KeyEvent {
    KeyEvent::new(Key::Return, Modifiers::default())
}

#[test]
fn find_target_handles_escape() {
    let mut target = FindFocusTarget::new(MiniBuffer::new());
    let result = target.handle_key(escape_key(), &mut ());
    assert_eq!(result, Handled::Yes);
    assert_eq!(target.take_outcome(), Some(FindOutcome::Closed));
}

#[test]
fn find_target_handles_return() {
    let mut target = FindFocusTarget::new(MiniBuffer::new());
    let result = target.handle_key(return_key(), &mut ());
    assert_eq!(result, Handled::Yes);
    assert_eq!(target.take_outcome(), Some(FindOutcome::FindNext));
}

#[test]
fn find_target_handles_typing() {
    let mut target = FindFocusTarget::new(MiniBuffer::new());
    let result = target.handle_key(char_key('a'), &mut ());
    assert_eq!(result, Handled::Yes);
    assert!(target.query_changed());
    assert_eq!(target.query(), "a");
}

#[test]
fn find_target_no_query_change_on_escape() {
    let mut target = FindFocusTarget::new(MiniBuffer::new());
    target.handle_key(escape_key(), &mut ());
    assert!(!target.query_changed());
}

#[test]
fn layer_is_find_in_file() {
    let target = FindFocusTarget::new(MiniBuffer::new());
    assert_eq!(target.layer(), FocusLayer::FindInFile);
}

#[test]
fn test_handle_text_input_updates_query() {
    let mut target = FindFocusTarget::new(MiniBuffer::new());
    target.handle_text_input("search");
    assert_eq!(target.query(), "search");
}

#[test]
fn test_handle_text_input_sets_changed_flag() {
    let mut target = FindFocusTarget::new(MiniBuffer::new());
    assert!(!target.query_changed());
    target.handle_text_input("a");
    assert!(target.query_changed());
}

#[test]
fn test_handle_text_input_empty_string_no_change() {
    let mut target = FindFocusTarget::new(MiniBuffer::new());
    target.handle_text_input("");
    assert!(!target.query_changed());
}

#[test]
fn test_handle_text_input_unicode() {
    let mut target = FindFocusTarget::new(MiniBuffer::new());
    target.handle_text_input("日本語");
    assert_eq!(target.query(), "日本語");
    assert!(target.query_changed());
}

#[test]
fn test_handle_text_input_multiple_calls() {
    let mut target = FindFocusTarget::new(MiniBuffer::new());
    target.handle_text_input("hel");
    target.clear_query_changed();
    target.handle_text_input("lo");
    assert_eq!(target.query(), "hello");
    assert!(target.query_changed());
}

#[test]
fn find_target_new_empty_has_empty_query() {
    let target = FindFocusTarget::new_empty();
    assert_eq!(target.query(), "");
    assert_eq!(target.pending_outcome(), None);
    assert!(!target.query_changed());
}

#[test]
fn find_target_backspace_changes_query() {
    let mut target = FindFocusTarget::new(MiniBuffer::new());
    target.handle_text_input("ab");
    target.clear_query_changed();
    let result = target.handle_key(KeyEvent::new(Key::Backspace, Modifiers::default()), &mut ());
    assert_eq!(result, Handled::Yes);
    assert_eq!(target.query(), "a");
    assert!(target.query_changed());
    assert_eq!(target.pending_outcome(), None);
}

#[test]
fn find_target_arrow_keeps_query() {
    let mut target = FindFocusTarget::new(MiniBuffer::new());
    target.handle_text_input("ab");
    target.clear_query_changed();
    target.handle_key(KeyEvent::new(Key::Left, Modifiers::default()), &mut ());
    assert_eq!(target.query(), "ab");
    assert!(!target.query_changed());
    assert_eq!(target.mini_buffer().cursor_position(), 1);
}

#[test]
fn find_target_take_outcome_clears() {
    let mut target = FindFocusTarget::new(MiniBuffer::new());
    target.handle_key(return_key(), &mut ());
    assert_eq!(target.take_outcome(), Some(FindOutcome::FindNext));
    assert_eq!(target.take_outcome(), None);
}
