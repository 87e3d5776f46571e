use lite_edit_editor::editor_state::{extension_changed, extension_of, join_path, resolve_picker_path};
use lite_edit_editor::editor_state::{decimal_string, tab_for_file, terminal_tab_label};
use lite_edit_editor::editor_state::{picker_items, picker_refresh_needed};
use lite_edit_editor::file_index::MatchResult;
use lite_edit_editor::editor_state::{
    cursor_blink_step, terminal_clipboard_key, BlinkRepaint, CursorBlink, TerminalClipboard,
    CURSOR_BLINK_INTERVAL_MS,
};
use lite_edit_editor::editor_state::{
    cancelled_follow_up, clamp_position_to_buffer, confirmed_follow_up, find_strip_opens,
    forced_close_action, global_shortcut, mouse_target, next_tab_index, picker_toggle,
    prev_tab_index, route_key, tab_close_action, tab_switch_allowed, window_title, ConfirmFollowUp,
    ConfirmPurpose, Direction, EditorCommand, EditorFocus, MouseTarget, PickerAction,
    TabCloseAction,
};
use lite_edit_editor::input::{Key, KeyEvent, Modifiers};
use lite_edit_editor::text_position::Position;

fn mods(shift: bool, command: bool, option: bool, control: bool) -> Modifiers {
    Modifiers { shift, command, option, control }
}

fn cmd(c: char) -> KeyEvent {
    KeyEvent::new(Key::Char(c), mods(false, true, false, false))
}

fn cmd_shift(c: char) -> KeyEvent {
    KeyEvent::new(Key::Char(c), mods(true, true, false, false))
}

#[test]
fn test_initial_focus_is_buffer() {
    assert_eq!(EditorFocus::default(), EditorFocus::Buffer);
}

#[test]
fn test_cmd_q_quits() {
    assert_eq!(route_key(&cmd('q'), EditorFocus::Buffer), EditorCommand::Quit);
    assert_eq!(route_key(&cmd('q'), EditorFocus::Selector), EditorCommand::Quit);
}

#[test]
fn test_ctrl_q_does_not_quit() {
    let e = KeyEvent::new(Key::Char('q'), mods(false, false, false, true));
    assert_eq!(route_key(&e, EditorFocus::Buffer), EditorCommand::Route(EditorFocus::Buffer));
}

#[test]
fn test_cmd_ctrl_q_does_not_quit() {
    let e = KeyEvent::new(Key::Char('q'), mods(false, true, false, true));
    assert_eq!(global_shortcut(&e), None);
    assert_eq!(route_key(&e, EditorFocus::Buffer), EditorCommand::Route(EditorFocus::Buffer));
}

#[test]
fn test_cmd_z_is_not_a_shortcut() {
    assert_eq!(route_key(&cmd('z'), EditorFocus::Buffer), EditorCommand::Route(EditorFocus::Buffer));
}

#[test]
fn test_plain_q_goes_to_focus() {
    let e = KeyEvent::char('q');
    assert_eq!(route_key(&e, EditorFocus::FindInFile), EditorCommand::Route(EditorFocus::FindInFile));
}

#[test]
fn test_shortcut_table() {
    assert_eq!(global_shortcut(&cmd('p')), Some(EditorCommand::TogglePicker));
    assert_eq!(global_shortcut(&cmd('s')), Some(EditorCommand::Save));
    assert_eq!(global_shortcut(&cmd('f')), Some(EditorCommand::Find));
    assert_eq!(global_shortcut(&cmd('n')), Some(EditorCommand::NewWorkspace));
    assert_eq!(global_shortcut(&cmd_shift('n')), None);
    assert_eq!(global_shortcut(&cmd('o')), Some(EditorCommand::OpenFile));
    assert_eq!(global_shortcut(&cmd('w')), Some(EditorCommand::CloseTab));
    assert_eq!(global_shortcut(&cmd_shift('w')), Some(EditorCommand::CloseWorkspace));
    assert_eq!(global_shortcut(&cmd_shift(']')), Some(EditorCommand::NextTab));
    assert_eq!(global_shortcut(&cmd_shift('[')), Some(EditorCommand::PrevTab));
    assert_eq!(global_shortcut(&cmd(']')), Some(EditorCommand::NextWorkspace));
    assert_eq!(global_shortcut(&cmd('[')), Some(EditorCommand::PrevWorkspace));
    assert_eq!(global_shortcut(&cmd('t')), Some(EditorCommand::NewTab));
    assert_eq!(global_shortcut(&cmd_shift('t')), Some(EditorCommand::NewTerminalTab));
}

#[test]
fn test_cmd_digits_switch_workspace() {
    assert_eq!(global_shortcut(&cmd('1')), Some(EditorCommand::SwitchWorkspace(0)));
    assert_eq!(global_shortcut(&cmd('9')), Some(EditorCommand::SwitchWorkspace(8)));
    assert_eq!(global_shortcut(&cmd('0')), None);
    assert_eq!(global_shortcut(&cmd_shift('3')), None);
}

#[test]
fn test_cmd_arrows() {
    let e = KeyEvent::new(Key::Left, mods(true, true, false, false));
    assert_eq!(global_shortcut(&e), Some(EditorCommand::MoveTab(Direction::Left)));
    let e = KeyEvent::new(Key::Down, mods(false, true, true, false));
    assert_eq!(global_shortcut(&e), Some(EditorCommand::FocusPane(Direction::Down)));
    let e = KeyEvent::new(Key::Up, mods(true, true, true, false));
    assert_eq!(global_shortcut(&e), Some(EditorCommand::MoveTab(Direction::Up)));
    let e = KeyEvent::new(Key::Right, mods(false, true, false, false));
    assert_eq!(global_shortcut(&e), None);
}

#[test]
fn test_cmd_p_toggles_picker() {
    assert_eq!(picker_toggle(EditorFocus::Buffer), PickerAction::Open);
    assert_eq!(picker_toggle(EditorFocus::Selector), PickerAction::Close);
    assert_eq!(picker_toggle(EditorFocus::FindInFile), PickerAction::Ignore);
    assert_eq!(picker_toggle(EditorFocus::ConfirmDialog), PickerAction::Ignore);
}

#[test]
fn test_cmd_f_opens_find_only_from_buffer_of_file_tab() {
    assert!(find_strip_opens(EditorFocus::Buffer, true));
    assert!(!find_strip_opens(EditorFocus::Buffer, false));
    assert!(!find_strip_opens(EditorFocus::Selector, true));
    assert!(!find_strip_opens(EditorFocus::FindInFile, true));
}

#[test]
fn test_mouse_target_follows_focus() {
    assert_eq!(mouse_target(EditorFocus::Selector, false), Some(MouseTarget::Selector));
    assert_eq!(mouse_target(EditorFocus::FindInFile, false), Some(MouseTarget::Buffer));
    assert_eq!(mouse_target(EditorFocus::ConfirmDialog, true), Some(MouseTarget::ConfirmDialog));
    assert_eq!(mouse_target(EditorFocus::ConfirmDialog, false), None);
}

#[test]
fn test_tab_cycling_wraps() {
    assert_eq!(next_tab_index(2, 3), Some(0));
    assert_eq!(next_tab_index(0, 3), Some(1));
    assert_eq!(prev_tab_index(0, 3), Some(2));
    assert_eq!(prev_tab_index(2, 3), Some(1));
    assert_eq!(next_tab_index(0, 1), None);
    assert_eq!(prev_tab_index(0, 1), None);
}

#[test]
fn test_tab_cycle_round_trip() {
    for active in 0..5 {
        let n = next_tab_index(active, 5).unwrap();
        assert_eq!(prev_tab_index(n, 5), Some(active));
    }
}

#[test]
fn test_tab_switch_allowed() {
    assert!(tab_switch_allowed(1, 0, 2));
    assert!(!tab_switch_allowed(0, 0, 2));
    assert!(!tab_switch_allowed(2, 0, 2));
}

#[test]
fn test_close_tab_decisions() {
    assert_eq!(tab_close_action(true, true, 1, 1), TabCloseAction::ConfirmUnsaved);
    assert_eq!(tab_close_action(false, true, 1, 3), TabCloseAction::ConfirmRunningTerminal);
    assert_eq!(tab_close_action(false, false, 1, 3), TabCloseAction::Close);
    assert_eq!(tab_close_action(false, false, 1, 1), TabCloseAction::ReplaceWithEmpty);
    assert_eq!(tab_close_action(false, false, 2, 1), TabCloseAction::CloseAndRemovePane);
    assert_eq!(forced_close_action(2, 2), TabCloseAction::Close);
}

#[test]
fn test_confirm_dialog_follow_ups() {
    assert_eq!(confirmed_follow_up(Some(ConfirmPurpose::CloseDirtyTab)), ConfirmFollowUp::ForceCloseTab);
    assert_eq!(confirmed_follow_up(Some(ConfirmPurpose::QuitWithDirtyTabs)), ConfirmFollowUp::Quit);
    assert_eq!(
        confirmed_follow_up(Some(ConfirmPurpose::CloseActiveTerminal)),
        ConfirmFollowUp::KillTerminalAndCloseTab
    );
    assert_eq!(
        confirmed_follow_up(Some(ConfirmPurpose::FileDeletedFromDisk)),
        ConfirmFollowUp::SaveToDeletedPath
    );
    assert_eq!(confirmed_follow_up(None), ConfirmFollowUp::Nothing);
    assert_eq!(cancelled_follow_up(Some(ConfirmPurpose::FileDeletedFromDisk)), ConfirmFollowUp::ForceCloseTab);
    assert_eq!(cancelled_follow_up(Some(ConfirmPurpose::QuitWithDirtyTabs)), ConfirmFollowUp::Nothing);
}

#[test]
fn test_window_title_returns_untitled_when_no_file() {
    assert_eq!(window_title(None, 1, None), "Untitled");
}

#[test]
fn test_window_title_returns_filename_when_file_associated() {
    assert_eq!(window_title(Some("/tmp/test.rs"), 1, Some("ws")), "test.rs");
}

#[test]
fn test_window_title_returns_filename_for_nested_path() {
    assert_eq!(window_title(Some("/a/b/c/deep.txt"), 1, None), "deep.txt");
}

#[test]
fn test_window_title_includes_workspace_label() {
    assert_eq!(window_title(Some("/p/main.rs"), 2, Some("proj")), "main.rs — proj");
    assert_eq!(window_title(None, 3, Some("w")), "Untitled — w");
    assert_eq!(window_title(Some("/"), 1, None), "Untitled");
}

#[test]
fn test_clamp_position_to_buffer() {
    let lines = [3usize, 0, 5];
    assert_eq!(clamp_position_to_buffer(Position::new(1, 4), &lines), Position::new(1, 0));
    assert_eq!(clamp_position_to_buffer(Position::new(9, 9), &lines), Position::new(2, 5));
    assert_eq!(clamp_position_to_buffer(Position::new(0, 2), &lines), Position::new(0, 2));
    assert_eq!(clamp_position_to_buffer(Position::new(4, 4), &[]), Position::new(0, 0));
}

fn blink(buffer_visible: bool, overlay_visible: bool) -> CursorBlink {
    CursorBlink { buffer_visible, overlay_visible }
}

#[test]
fn test_toggle_cursor_blink() {
    let (s, r) = cursor_blink_step(true, EditorFocus::Buffer, blink(true, true), 1000, 1000);
    assert_eq!(s, blink(false, true));
    assert_eq!(r, BlinkRepaint::CursorLine);
    let (s, r) = cursor_blink_step(true, EditorFocus::Buffer, s, 1000, 1000);
    assert_eq!(s, blink(true, true));
    assert_eq!(r, BlinkRepaint::CursorLine);
}

#[test]
fn test_recent_keystroke_keeps_cursor_solid() {
    let (s, r) = cursor_blink_step(true, EditorFocus::Buffer, blink(true, false), 10, 1000);
    assert_eq!(s, blink(true, false));
    assert_eq!(r, BlinkRepaint::Nothing);
    let (s, r) = cursor_blink_step(true, EditorFocus::Buffer, blink(false, false), 499, 1000);
    assert_eq!(s, blink(true, false));
    assert_eq!(r, BlinkRepaint::CursorLine);
    assert_eq!(CURSOR_BLINK_INTERVAL_MS, 500);
    let (s, _) = cursor_blink_step(true, EditorFocus::Buffer, blink(true, false), 500, 0);
    assert_eq!(s, blink(false, false));
}

#[test]
fn test_overlay_cursor_blinks_under_overlay() {
    let (s, r) = cursor_blink_step(true, EditorFocus::Selector, blink(true, true), 0, 900);
    assert_eq!(s, blink(true, false));
    assert_eq!(r, BlinkRepaint::FullViewport);
    let (s, r) = cursor_blink_step(true, EditorFocus::FindInFile, blink(true, false), 900, 20);
    assert_eq!(s, blink(true, true));
    assert_eq!(r, BlinkRepaint::FullViewport);
}

#[test]
fn test_confirm_dialog_and_terminal_blink() {
    let (s, r) = cursor_blink_step(true, EditorFocus::ConfirmDialog, blink(false, true), 900, 900);
    assert_eq!(s, blink(false, true));
    assert_eq!(r, BlinkRepaint::Nothing);
    let (s, r) = cursor_blink_step(false, EditorFocus::Selector, blink(true, true), 900, 0);
    assert_eq!(s, blink(false, true));
    assert_eq!(r, BlinkRepaint::FullViewport);
}

#[test]
fn test_terminal_clipboard_keys() {
    assert_eq!(terminal_clipboard_key(&cmd('c')), Some(TerminalClipboard::Copy));
    assert_eq!(terminal_clipboard_key(&cmd_shift('C')), Some(TerminalClipboard::Copy));
    assert_eq!(terminal_clipboard_key(&cmd('v')), Some(TerminalClipboard::Paste));
    assert_eq!(terminal_clipboard_key(&KeyEvent::char('c')), None);
    let e = KeyEvent::new(Key::Char('c'), mods(false, true, false, true));
    assert_eq!(terminal_clipboard_key(&e), None);
}

#[test]
fn test_join_path() {
    assert_eq!(join_path("/root", "src/main.rs"), "/root/src/main.rs");
    assert_eq!(join_path("/root/", "a"), "/root/a");
    assert_eq!(join_path("", "a"), "a");
    assert_eq!(join_path("/root", "/abs/x"), "/abs/x");
}

#[test]
fn test_resolve_picker_path() {
    let items = vec!["src/main.rs".to_string(), "README.md".to_string()];
    assert_eq!(resolve_picker_path(1, &items, "rea", "/ws"), "/ws/README.md");
    assert_eq!(resolve_picker_path(usize::MAX, &items, "new.txt", "/ws"), "/ws/new.txt");
    assert_eq!(resolve_picker_path(0, &[], "x", "/ws"), "/ws/x");
}

#[test]
fn test_extension_of() {
    assert_eq!(extension_of("/a/b.rs"), Some("rs".to_string()));
    assert_eq!(extension_of("archive.tar.gz"), Some("gz".to_string()));
    assert_eq!(extension_of("/home/.bashrc"), None);
    assert_eq!(extension_of("dir.d/file"), None);
    assert_eq!(extension_of("a."), Some("".to_string()));
    assert_eq!(extension_of("/"), None);
    assert!(extension_changed("/a/x.rs", "/a/x.py"));
    assert!(!extension_changed("/a/x.rs", "/b/y.rs"));
    assert!(extension_changed("/a/x", "/a/x.md"));
    assert!(!extension_changed("/a/x", "/a/y"));
}

#[test]
fn test_tab_for_file() {
    let files = vec![None, Some("/w/a.rs".to_string()), Some("/w/b.rs".to_string()), Some("/w/a.rs".to_string())];
    assert_eq!(tab_for_file(&files, "/w/a.rs"), Some(1));
    assert_eq!(tab_for_file(&files, "/w//b.rs"), Some(2));
    assert_eq!(tab_for_file(&files, "/w/c.rs"), None);
    assert_eq!(tab_for_file(&[], "/w/a.rs"), None);
}

#[test]
fn test_terminal_tab_labels() {
    assert_eq!(terminal_tab_label(0), "Terminal");
    assert_eq!(terminal_tab_label(1), "Terminal 2");
    assert_eq!(terminal_tab_label(9), "Terminal 10");
    assert_eq!(decimal_string(0), "0");
    assert_eq!(decimal_string(1234567), "1234567");
    assert_eq!(decimal_string(usize::MAX), usize::MAX.to_string());
}

#[test]
fn test_tick_picker_refresh_decision() {
    assert!(!picker_refresh_needed(EditorFocus::Buffer, 5, 1));
    assert!(!picker_refresh_needed(EditorFocus::Selector, 3, 3));
    assert!(picker_refresh_needed(EditorFocus::Selector, 4, 3));
    assert!(!picker_refresh_needed(EditorFocus::Selector, 2, 3));
}

#[test]
fn test_picker_items_are_result_paths() {
    let results = vec![
        MatchResult { path: "b.rs".to_string(), score: 9 },
        MatchResult { path: "a/c.rs".to_string(), score: 1 },
    ];
    assert_eq!(picker_items(&results), vec!["b.rs".to_string(), "a/c.rs".to_string()]);
}
