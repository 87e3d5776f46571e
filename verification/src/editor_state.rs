//! The editor's decisions: which command a key press triggers, how focus
//! moves between the buffer and its overlays, how tabs are cycled and closed,
//! and what the window title reads.
//!
//! Each decision is a function from the state it reads (focus, tab counts,
//! flags) and the event to the action to take; the caller performs the
//! action on its workspace model.

use vstd::prelude::*;
use crate::input::{Key, KeyEvent};
use crate::path_model::{file_name, file_name_of, string_push, join_relative, path_eq, paths_equal};
use crate::text_position::Position;
use crate::file_index::MatchResult;

verus! {

/// Which UI element currently owns keyboard and mouse focus.
#[derive(Debug, Clone, Copy, PartialEq, Eq, Structural)]
pub enum EditorFocus {
    /// Normal buffer editing.
    Buffer,
    /// The selector overlay (file picker) is active.
    Selector,
    /// The find-in-file strip is active.
    FindInFile,
    /// A confirm dialog is active.
    ConfirmDialog,
}

impl Default for EditorFocus {
    fn default() -> (f: Self)
        ensures
            f == EditorFocus::Buffer,
    {
        EditorFocus::Buffer
    }
}

/// A direction between panes.
#[derive(Debug, Clone, Copy, PartialEq, Eq, Structural)]
pub enum Direction {
    Left,
    Right,
    Up,
    Down,
}

/// What a key press asks the editor to do.
#[derive(Debug, Clone, Copy, PartialEq, Eq, Structural)]
pub enum EditorCommand {
    /// Cmd+Q: set the quit flag.
    Quit,
    /// Cmd+P: open or close the file picker.
    TogglePicker,
    /// Cmd+S: save the active file.
    Save,
    /// Cmd+F: open the find-in-file strip.
    Find,
    /// Cmd+N: create a new workspace.
    NewWorkspace,
    /// Cmd+O: open a file through the system file picker.
    OpenFile,
    /// Cmd+Shift+W: close the active workspace.
    CloseWorkspace,
    /// Cmd+W: close the active tab.
    CloseTab,
    /// Cmd+Shift+]: next tab.
    NextTab,
    /// Cmd+Shift+[: previous tab.
    PrevTab,
    /// Cmd+]: next workspace.
    NextWorkspace,
    /// Cmd+[: previous workspace.
    PrevWorkspace,
    /// Cmd+Shift+T: new terminal tab.
    NewTerminalTab,
    /// Cmd+T: new empty tab.
    NewTab,
    /// Cmd+1..9: switch to the workspace with this index (0-based).
    SwitchWorkspace(usize),
    /// Cmd+Shift+Arrow: move the active tab in a direction.
    MoveTab(Direction),
    /// Cmd+Option+Arrow: move focus to the pane in a direction.
    FocusPane(Direction),
    /// No shortcut: the event goes to the handler of this focus.
    Route(EditorFocus),
}

/// The direction of an arrow key.
pub open spec fn arrow_direction(key: Key) -> Option<Direction> {
    match key {
        Key::Right => Some(Direction::Right),
        Key::Left => Some(Direction::Left),
        Key::Down => Some(Direction::Down),
        Key::Up => Some(Direction::Up),
        _ => None,
    }
}

/// The 0-based workspace index of the digits `1` to `9`.
pub open spec fn workspace_digit(c: char) -> Option<usize> {
    if 49 <= (c as u32) && (c as u32) <= 57 {
        Some(((c as u32) - 49) as usize)
    } else {
        None
    }
}

/// The application shortcut that a key press triggers, if any. Shortcuts
/// need Command held and Control not held.
pub open spec fn shortcut_of(event: KeyEvent) -> Option<EditorCommand> {
    let m = event.modifiers;
    if !m.command || m.control {
        None
    } else {
        match event.key {
            Key::Char(c) => {
                if c == 'q' {
                    Some(EditorCommand::Quit)
                } else if c == 'p' {
                    Some(EditorCommand::TogglePicker)
                } else if c == 's' {
                    Some(EditorCommand::Save)
                } else if c == 'f' {
                    Some(EditorCommand::Find)
                } else if c == 'n' && !m.shift {
                    Some(EditorCommand::NewWorkspace)
                } else if c == 'o' {
                    Some(EditorCommand::OpenFile)
                } else if c == 'w' {
                    if m.shift {
                        Some(EditorCommand::CloseWorkspace)
                    } else {
                        Some(EditorCommand::CloseTab)
                    }
                } else if c == ']' {
                    if m.shift {
                        Some(EditorCommand::NextTab)
                    } else {
                        Some(EditorCommand::NextWorkspace)
                    }
                } else if c == '[' {
                    if m.shift {
                        Some(EditorCommand::PrevTab)
                    } else {
                        Some(EditorCommand::PrevWorkspace)
                    }
                } else if c == 't' {
                    if m.shift {
                        Some(EditorCommand::NewTerminalTab)
                    } else {
                        Some(EditorCommand::NewTab)
                    }
                } else if !m.shift && workspace_digit(c) is Some {
                    Some(EditorCommand::SwitchWorkspace(workspace_digit(c)->0))
                } else {
                    None
                }
            },
            _ => {
                match arrow_direction(event.key) {
                    Some(d) => {
                        if m.shift {
                            Some(EditorCommand::MoveTab(d))
                        } else if m.option {
                            Some(EditorCommand::FocusPane(d))
                        } else {
                            None
                        }
                    },
                    None => None,
                }
            },
        }
    }
}

/// The command for a key press under the given focus: its shortcut if it has
/// one, else delivery to the focused element.
pub open spec fn command_for(event: KeyEvent, focus: EditorFocus) -> EditorCommand {
    match shortcut_of(event) {
        Some(c) => c,
        None => EditorCommand::Route(focus),
    }
}

fn arrow_direction_of(key: Key) -> (r: Option<Direction>)
    ensures
        r == arrow_direction(key),
{
    match key {
        Key::Right => Some(Direction::Right),
        Key::Left => Some(Direction::Left),
        Key::Down => Some(Direction::Down),
        Key::Up => Some(Direction::Up),
        _ => None,
    }
}

/// Returns the application shortcut that the key press triggers, if any.
pub fn global_shortcut(event: &KeyEvent) -> (r: Option<EditorCommand>)
    ensures
        r == shortcut_of(*event),
{
    let m = event.modifiers;
    if !m.command || m.control {
        return None;
    }
    match event.key {
        Key::Char(c) => {
            if c == 'q' {
                Some(EditorCommand::Quit)
            } else if c == 'p' {
                Some(EditorCommand::TogglePicker)
            } else if c == 's' {
                Some(EditorCommand::Save)
            } else if c == 'f' {
                Some(EditorCommand::Find)
            } else if c == 'n' && !m.shift {
                Some(EditorCommand::NewWorkspace)
            } else if c == 'o' {
                Some(EditorCommand::OpenFile)
            } else if c == 'w' {
                if m.shift {
                    Some(EditorCommand::CloseWorkspace)
                } else {
                    Some(EditorCommand::CloseTab)
                }
            } else if c == ']' {
                if m.shift {
                    Some(EditorCommand::NextTab)
                } else {
                    Some(EditorCommand::NextWorkspace)
                }
            } else if c == '[' {
                if m.shift {
                    Some(EditorCommand::PrevTab)
                } else {
                    Some(EditorCommand::PrevWorkspace)
                }
            } else if c == 't' {
                if m.shift {
                    Some(EditorCommand::NewTerminalTab)
                } else {
                    Some(EditorCommand::NewTab)
                }
            } else {
                let v = c as u32;
                if !m.shift && 49 <= v && v <= 57 {
                    Some(EditorCommand::SwitchWorkspace((v - 49) as usize))
                } else {
                    None
                }
            }
        },
        _ => {
            match arrow_direction_of(event.key) {
                Some(d) => {
                    if m.shift {
                        Some(EditorCommand::MoveTab(d))
                    } else if m.option {
                        Some(EditorCommand::FocusPane(d))
                    } else {
                        None
                    }
                },
                None => None,
            }
        },
    }
}

/// Decides what a key press does: application shortcuts are checked before
/// the event is delivered to the focused element.
pub fn route_key(event: &KeyEvent, focus: EditorFocus) -> (r: EditorCommand)
    ensures
        r == command_for(*event, focus),
{
    match global_shortcut(event) {
        Some(c) => c,
        None => EditorCommand::Route(focus),
    }
}

/// A key press without Command, or with Control, is never a shortcut: it
/// always goes to the focused element.
pub proof fn law_unmodified_keys_reach_focus(event: KeyEvent, focus: EditorFocus)
    requires
        !event.modifiers.command || event.modifiers.control,
    ensures
        command_for(event, focus) == EditorCommand::Route(focus),
{
}

/// A shortcut does the same thing whichever element has focus.
pub proof fn law_shortcuts_ignore_focus(event: KeyEvent, a: EditorFocus, b: EditorFocus)
    requires
        shortcut_of(event) is Some,
    ensures
        command_for(event, a) == command_for(event, b),
        command_for(event, a) !is Route,
{
}

/// Quit is asked for by Command+Q without Control, in every focus, and by no
/// other key press: Control+Q, Command+Control+Q and a plain `q` never quit.
pub proof fn law_quit_only_on_cmd_q(event: KeyEvent, focus: EditorFocus)
    ensures
        command_for(event, focus) == EditorCommand::Quit <==> (event.modifiers.command
            && !event.modifiers.control && event.key == Key::Char('q')),
{
}

/// Command+Shift+Arrow moves the active tab, and Command+Option+Arrow (without
/// Shift) moves focus, toward the arrow's own direction: Right to the right,
/// Left to the left, Up upward, Down downward.
pub proof fn law_arrow_shortcuts_follow_the_arrow(event: KeyEvent, focus: EditorFocus)
    requires
        event.modifiers.command,
        !event.modifiers.control,
        event.modifiers.shift || event.modifiers.option,
    ensures
        ({
            let d = match event.key {
                Key::Right => Some(Direction::Right),
                Key::Left => Some(Direction::Left),
                Key::Up => Some(Direction::Up),
                Key::Down => Some(Direction::Down),
                _ => None,
            };
            d matches Some(dir) ==> command_for(event, focus) == if event.modifiers.shift {
                EditorCommand::MoveTab(dir)
            } else {
                EditorCommand::FocusPane(dir)
            }
        }),
{
}

// =============================================================================
// Focus transitions
// =============================================================================

/// What Cmd+P does to the file picker.
#[derive(Debug, Clone, Copy, PartialEq, Eq, Structural)]
pub enum PickerAction {
    /// Open the picker; focus moves to the selector.
    Open,
    /// Close the picker; focus returns to the buffer.
    Close,
    /// Do nothing (find strip or confirm dialog is active).
    Ignore,
}

/// Cmd+P toggles the picker from the buffer and back; it is ignored while
/// the find strip or a confirm dialog is active.
pub fn picker_toggle(focus: EditorFocus) -> (r: PickerAction)
    ensures
        r == (match focus {
            EditorFocus::Buffer => PickerAction::Open,
            EditorFocus::Selector => PickerAction::Close,
            _ => PickerAction::Ignore,
        }),
{
    match focus {
        EditorFocus::Buffer => PickerAction::Open,
        EditorFocus::Selector => PickerAction::Close,
        EditorFocus::FindInFile => PickerAction::Ignore,
        EditorFocus::ConfirmDialog => PickerAction::Ignore,
    }
}

/// The focus after a picker action.
pub open spec fn focus_after_picker(focus: EditorFocus, action: PickerAction) -> EditorFocus {
    match action {
        PickerAction::Open => EditorFocus::Selector,
        PickerAction::Close => EditorFocus::Buffer,
        PickerAction::Ignore => focus,
    }
}

/// Pressing Cmd+P twice from the buffer returns focus to the buffer.
pub proof fn law_picker_toggle_round_trip()
    ensures
        ({
            let f1 = focus_after_picker(
                EditorFocus::Buffer,
                PickerAction::Open,
            );
            &&& f1 == EditorFocus::Selector
            &&& focus_after_picker(f1, PickerAction::Close) == EditorFocus::Buffer
        }),
{
}

/// Cmd+F opens the find strip only from the buffer of a file tab; it does
/// nothing while the strip, the picker or a dialog is open, or on a
/// terminal tab.
pub fn find_strip_opens(focus: EditorFocus, active_tab_is_file: bool) -> (r: bool)
    ensures
        r == (active_tab_is_file && focus == EditorFocus::Buffer),
{
    active_tab_is_file && match focus {
        EditorFocus::Buffer => true,
        _ => false,
    }
}

/// Where a mouse event goes once it is outside the left rail and the tab
/// bars.
#[derive(Debug, Clone, Copy, PartialEq, Eq, Structural)]
pub enum MouseTarget {
    Selector,
    Buffer,
    ConfirmDialog,
}

/// Mouse events follow focus; in find mode they still reach the buffer, and
/// a confirm dialog only takes button presses.
pub fn mouse_target(focus: EditorFocus, is_press: bool) -> (r: Option<MouseTarget>)
    ensures
        r == (match focus {
            EditorFocus::Selector => Some(MouseTarget::Selector),
            EditorFocus::Buffer | EditorFocus::FindInFile => Some(MouseTarget::Buffer),
            EditorFocus::ConfirmDialog => if is_press {
                Some(MouseTarget::ConfirmDialog)
            } else {
                None
            },
        }),
{
    match focus {
        EditorFocus::Selector => Some(MouseTarget::Selector),
        EditorFocus::Buffer => Some(MouseTarget::Buffer),
        EditorFocus::FindInFile => Some(MouseTarget::Buffer),
        EditorFocus::ConfirmDialog => {
            if is_press {
                Some(MouseTarget::ConfirmDialog)
            } else {
                None
            }
        },
    }
}

// =============================================================================
// Tabs
// =============================================================================

/// The tab after `active` in a pane of `count` tabs, wrapping around; `None`
/// when there is only one tab (or none).
pub open spec fn next_tab_spec(active: int, count: int) -> Option<int> {
    if count > 1 {
        Some((active + 1) % count)
    } else {
        None
    }
}

/// The tab before `active` in a pane of `count` tabs, wrapping around;
/// `None` when there is only one tab (or none).
pub open spec fn prev_tab_spec(active: int, count: int) -> Option<int> {
    if count > 1 {
        if active == 0 {
            Some(count - 1)
        } else {
            Some(active - 1)
        }
    } else {
        None
    }
}

/// Returns the index of the next tab, wrapping from the last to the first.
pub fn next_tab_index(active: usize, count: usize) -> (r: Option<usize>)
    ensures
        r matches Some(i) ==> next_tab_spec(active as int, count as int) == Some(i as int),
        r is None <==> next_tab_spec(active as int, count as int) is None,
{
    if count > 1 {
        proof {
            assert((active as int + 1) % (count as int) == ((active as int % count as int) + 1)
                % (count as int)) by (nonlinear_arith)
                requires
                    count > 1,
            {
                vstd::arithmetic::div_mod::lemma_add_mod_noop(active as int, 1, count as int);
                vstd::arithmetic::div_mod::lemma_mod_twice(1, count as int);
            }
        }
        Some((active % count + 1) % count)
    } else {
        None
    }
}

/// Returns the index of the previous tab, wrapping from the first to the
/// last.
pub fn prev_tab_index(active: usize, count: usize) -> (r: Option<usize>)
    ensures
        r matches Some(i) ==> prev_tab_spec(active as int, count as int) == Some(i as int),
        r is None <==> prev_tab_spec(active as int, count as int) is None,
{
    if count > 1 {
        if active == 0 {
            Some(count - 1)
        } else {
            Some(active - 1)
        }
    } else {
        None
    }
}

/// A tab switch happens only to another existing tab.
pub fn tab_switch_allowed(index: usize, active: usize, count: usize) -> (r: bool)
    ensures
        r == (index < count && index != active),
{
    index < count && index != active
}

/// In a pane of several tabs, going to the next tab and then to the
/// previous one returns to the starting tab, and so does the reverse; the
/// next and the previous tab are other tabs of the pane.
pub proof fn law_tab_cycle_round_trip(active: int, count: int)
    requires
        0 <= active < count,
        count > 1,
    ensures
        next_tab_spec(active, count) matches Some(n) && 0 <= n < count && n != active
            && prev_tab_spec(n, count) == Some(active),
        prev_tab_spec(active, count) matches Some(p) && 0 <= p < count && p != active
            && next_tab_spec(p, count) == Some(active),
{
    if active + 1 < count {
        assert((active + 1) % count == active + 1) by {
            vstd::arithmetic::div_mod::lemma_small_mod((active + 1) as nat, count as nat);
        }
    } else {
        assert((active + 1) % count == 0) by {
            vstd::arithmetic::div_mod::lemma_mod_self_0(count);
        }
    }
    if active == 0 {
        assert((count - 1 + 1) % count == 0) by {
            vstd::arithmetic::div_mod::lemma_mod_self_0(count);
        }
    } else {
        assert(active % count == active) by {
            vstd::arithmetic::div_mod::lemma_small_mod(active as nat, count as nat);
        }
    }
}

/// What closing a tab does.
#[derive(Debug, Clone, Copy, PartialEq, Eq, Structural)]
pub enum TabCloseAction {
    /// The tab has unsaved changes: ask before abandoning them.
    ConfirmUnsaved,
    /// The tab is a terminal whose process still runs: ask before killing it.
    ConfirmRunningTerminal,
    /// Close the tab.
    Close,
    /// Close the pane's only tab and remove the emptied pane.
    CloseAndRemovePane,
    /// The workspace's only tab is replaced by an empty one.
    ReplaceWithEmpty,
}

/// What closing a tab does once any confirmation is settled.
pub open spec fn forced_close_spec(pane_count: int, tab_count: int) -> TabCloseAction {
    if pane_count > 1 {
        if tab_count == 1 {
            TabCloseAction::CloseAndRemovePane
        } else {
            TabCloseAction::Close
        }
    } else if tab_count > 1 {
        TabCloseAction::Close
    } else {
        TabCloseAction::ReplaceWithEmpty
    }
}

/// Closing a tab without confirmation: in a layout of several panes the
/// tab is closed, and a pane left empty is removed; in a single pane the
/// tab is closed unless it is the last, which is replaced by an empty tab.
pub fn forced_close_action(pane_count: usize, tab_count: usize) -> (r: TabCloseAction)
    ensures
        r == forced_close_spec(pane_count as int, tab_count as int),
{
    if pane_count > 1 {
        if tab_count == 1 {
            TabCloseAction::CloseAndRemovePane
        } else {
            TabCloseAction::Close
        }
    } else if tab_count > 1 {
        TabCloseAction::Close
    } else {
        TabCloseAction::ReplaceWithEmpty
    }
}

/// Closing a tab: a tab with unsaved changes, then a terminal with a running
/// process, asks for confirmation first; otherwise as [`forced_close_action`].
pub fn tab_close_action(dirty: bool, running_terminal: bool, pane_count: usize, tab_count: usize) -> (r:
    TabCloseAction)
    ensures
        dirty ==> r == TabCloseAction::ConfirmUnsaved,
        !dirty && running_terminal ==> r == TabCloseAction::ConfirmRunningTerminal,
        !dirty && !running_terminal ==> r == forced_close_spec(pane_count as int, tab_count as int),
{
    if dirty {
        TabCloseAction::ConfirmUnsaved
    } else if running_terminal {
        TabCloseAction::ConfirmRunningTerminal
    } else {
        forced_close_action(pane_count, tab_count)
    }
}

/// Closing never leaves the workspace without a tab: the last tab of the
/// last pane is replaced, never just removed.
pub proof fn law_last_tab_is_replaced(pane_count: int, tab_count: int)
    requires
        pane_count <= 1,
        tab_count <= 1,
    ensures
        forced_close_spec(pane_count, tab_count) == TabCloseAction::ReplaceWithEmpty,
{
}

// =============================================================================
// Confirm dialogs
// =============================================================================

/// What a confirm dialog was opened for.
#[derive(Debug, Clone, Copy, PartialEq, Eq, Structural)]
pub enum ConfirmPurpose {
    /// Closing a tab with unsaved changes.
    CloseDirtyTab,
    /// Quitting with unsaved tabs.
    QuitWithDirtyTabs,
    /// Closing a terminal whose process still runs.
    CloseActiveTerminal,
    /// The tab's file was deleted from disk.
    FileDeletedFromDisk,
}

/// What follows the answer to a confirm dialog (the dialog then closes and
/// focus returns to the buffer).
#[derive(Debug, Clone, Copy, PartialEq, Eq, Structural)]
pub enum ConfirmFollowUp {
    /// Close the tab without saving.
    ForceCloseTab,
    /// Set the quit flag.
    Quit,
    /// Kill the terminal's process and close its tab.
    KillTerminalAndCloseTab,
    /// Write the buffer back to the deleted file's path.
    SaveToDeletedPath,
    /// Nothing more.
    Nothing,
}

/// The follow-up of a confirmed dialog.
pub fn confirmed_follow_up(purpose: Option<ConfirmPurpose>) -> (r: ConfirmFollowUp)
    ensures
        r == (match purpose {
            Some(ConfirmPurpose::CloseDirtyTab) => ConfirmFollowUp::ForceCloseTab,
            Some(ConfirmPurpose::QuitWithDirtyTabs) => ConfirmFollowUp::Quit,
            Some(ConfirmPurpose::CloseActiveTerminal) => ConfirmFollowUp::KillTerminalAndCloseTab,
            Some(ConfirmPurpose::FileDeletedFromDisk) => ConfirmFollowUp::SaveToDeletedPath,
            None => ConfirmFollowUp::Nothing,
        }),
{
    match purpose {
        Some(ConfirmPurpose::CloseDirtyTab) => ConfirmFollowUp::ForceCloseTab,
        Some(ConfirmPurpose::QuitWithDirtyTabs) => ConfirmFollowUp::Quit,
        Some(ConfirmPurpose::CloseActiveTerminal) => ConfirmFollowUp::KillTerminalAndCloseTab,
        Some(ConfirmPurpose::FileDeletedFromDisk) => ConfirmFollowUp::SaveToDeletedPath,
        None => ConfirmFollowUp::Nothing,
    }
}

/// The follow-up of a cancelled dialog: for a deleted file, cancelling
/// abandons the tab; otherwise it only closes the dialog.
pub fn cancelled_follow_up(purpose: Option<ConfirmPurpose>) -> (r: ConfirmFollowUp)
    ensures
        r == (if purpose == Some(ConfirmPurpose::FileDeletedFromDisk) {
            ConfirmFollowUp::ForceCloseTab
        } else {
            ConfirmFollowUp::Nothing
        }),
{
    match purpose {
        Some(ConfirmPurpose::FileDeletedFromDisk) => ConfirmFollowUp::ForceCloseTab,
        _ => ConfirmFollowUp::Nothing,
    }
}

// =============================================================================
// Window title
// =============================================================================

/// The name shown for a tab: the file name of its associated path, or
/// `Untitled`.
pub open spec fn tab_name(associated_file: Option<Seq<char>>) -> Seq<char> {
    match associated_file {
        Some(p) => match file_name(p) {
            Some(n) => n,
            None => "Untitled"@,
        },
        None => "Untitled"@,
    }
}

/// The window title: the tab name, followed by ` — ` and the active
/// workspace's label when there is more than one workspace.
pub open spec fn window_title_spec(
    associated_file: Option<Seq<char>>,
    workspace_count: int,
    active_label: Option<Seq<char>>,
) -> Seq<char> {
    if workspace_count > 1 && active_label is Some {
        tab_name(associated_file) + seq![' ', '—', ' '] + active_label->0
    } else {
        tab_name(associated_file)
    }
}

/// Appends the characters of `t` to `s`.
fn push_str_chars(s: &mut String, t: &str)
    ensures
        final(s)@ == old(s)@ + t@,
{
    let ghost start = s@;
    for c in it: t.chars()
        invariant
            s@ == start + it.seq().take(it.index() as int),
            it.seq() == t@,
    {
        string_push(s, c);
        proof {
            assert(it.seq().take(it.index() + 1) =~= it.seq().take(it.index() as int).push(c));
        }
    }
    assert(t@.take(t@.len() as int) =~= t@);
}

/// Returns the window title for the active tab's associated file (if any),
/// the number of workspaces and the active workspace's label (if any).
pub fn window_title(
    associated_file: Option<&str>,
    workspace_count: usize,
    active_label: Option<&str>,
) -> (r: String)
    ensures
        r@ == window_title_spec(
            match associated_file {
                Some(p) => Some(p@),
                None => None,
            },
            workspace_count as int,
            match active_label {
                Some(l) => Some(l@),
                None => None,
            },
        ),
{
    let mut title = match associated_file {
        Some(p) => match file_name_of(p) {
            Some(n) => n,
            None => "Untitled".to_string(),
        },
        None => "Untitled".to_string(),
    };
    if workspace_count > 1 {
        if let Some(label) = active_label {
            string_push(&mut title, ' ');
            string_push(&mut title, '—');
            string_push(&mut title, ' ');
            push_str_chars(&mut title, label);
            proof {
                assert(title@ =~= tab_name(
                    match associated_file {
                        Some(p) => Some(p@),
                        None => None,
                    },
                ) + seq![' ', '—', ' '] + label@);
            }
        }
    }
    title
}

// =============================================================================
// Cursor clamping
// =============================================================================

/// A position clamped into a buffer whose lines have the given lengths: the
/// line into `[0, line_count - 1]`, the column into `[0, line length]`;
/// `(0, 0)` for a buffer without lines.
pub open spec fn clamped_position(line: int, col: int, line_lengths: Seq<usize>) -> (int, int) {
    if line_lengths.len() == 0 {
        (0, 0)
    } else {
        let l = if line < line_lengths.len() - 1 {
            line
        } else {
            line_lengths.len() - 1
        };
        let len = line_lengths[l] as int;
        (l, if col < len {
            col
        } else {
            len
        })
    }
}

/// Clamps a cursor position to be valid within a buffer, given the length
/// (in characters) of each of its lines.
pub fn clamp_position_to_buffer(pos: Position, line_lengths: &[usize]) -> (r: Position)
    ensures
        (r.line as int, r.col as int) == clamped_position(
            pos.line as int,
            pos.col as int,
            line_lengths@,
        ),
{
    let line_count = line_lengths.len();
    if line_count == 0 {
        return Position::new(0, 0);
    }
    let line = if pos.line < line_count - 1 {
        pos.line
    } else {
        line_count - 1
    };
    let line_len = line_lengths[line];
    let col = if pos.col < line_len {
        pos.col
    } else {
        line_len
    };
    Position::new(line, col)
}

/// Clamping is idempotent, and a clamped position lies in the buffer.
pub proof fn law_clamp_idempotent(line: int, col: int, line_lengths: Seq<usize>)
    requires
        line >= 0,
        col >= 0,
    ensures
        ({
            let (l, c) = clamped_position(line, col, line_lengths);
            &&& clamped_position(l, c, line_lengths) == (l, c)
            &&& line_lengths.len() > 0 ==> 0 <= l < line_lengths.len() && 0 <= c
                <= line_lengths[l] as int
        }),
{
}

// =============================================================================
// Cursor blinking
// =============================================================================

/// Interval of the cursor blink, in milliseconds; a keystroke within it
/// keeps the cursor solid.
pub const CURSOR_BLINK_INTERVAL_MS: u64 = 500;

/// Visibility of the buffer cursor and of the overlay (mini-buffer) cursor.
#[derive(Debug, Clone, Copy, PartialEq, Eq, Structural)]
pub struct CursorBlink {
    pub buffer_visible: bool,
    pub overlay_visible: bool,
}

/// What a blink tick asks to repaint.
#[derive(Debug, Clone, Copy, PartialEq, Eq, Structural)]
pub enum BlinkRepaint {
    /// Nothing changed.
    Nothing,
    /// The line of the buffer cursor.
    CursorLine,
    /// The whole viewport (terminal grid or overlay).
    FullViewport,
}

/// One blink of a cursor: a keystroke less than an interval ago makes it
/// visible (a repaint only when it was hidden); otherwise it toggles.
pub open spec fn blink_one(visible: bool, since_keystroke_ms: int) -> (bool, bool) {
    if since_keystroke_ms < CURSOR_BLINK_INTERVAL_MS {
        (true, !visible)
    } else {
        (!visible, true)
    }
}

/// A blink tick: on a terminal tab the buffer cursor blinks (the terminal
/// grid is repainted); on a file tab the focused cursor blinks: the buffer
/// cursor (its line is repainted) or, under the picker or the find strip,
/// the overlay cursor (the viewport is repainted); a confirm dialog has no
/// cursor. `since_*` are the milliseconds since the last keystroke in the
/// buffer and in the overlay.
pub open spec fn blink_spec(
    is_file_tab: bool,
    focus: EditorFocus,
    state: CursorBlink,
    since_keystroke_ms: int,
    since_overlay_keystroke_ms: int,
) -> (CursorBlink, BlinkRepaint) {
    if !is_file_tab || focus == EditorFocus::Buffer {
        let (v, changed) = blink_one(state.buffer_visible, since_keystroke_ms);
        let repaint = if !changed {
            BlinkRepaint::Nothing
        } else if is_file_tab {
            BlinkRepaint::CursorLine
        } else {
            BlinkRepaint::FullViewport
        };
        (CursorBlink { buffer_visible: v, ..state }, repaint)
    } else if focus == EditorFocus::ConfirmDialog {
        (state, BlinkRepaint::Nothing)
    } else {
        let (v, changed) = blink_one(state.overlay_visible, since_overlay_keystroke_ms);
        (CursorBlink { overlay_visible: v, ..state }, if changed {
            BlinkRepaint::FullViewport
        } else {
            BlinkRepaint::Nothing
        })
    }
}

fn blink_cursor(visible: bool, since_keystroke_ms: u128) -> (r: (bool, bool))
    ensures
        r == blink_one(visible, since_keystroke_ms as int),
{
    if since_keystroke_ms < CURSOR_BLINK_INTERVAL_MS as u128 {
        (true, !visible)
    } else {
        (!visible, true)
    }
}

/// Performs a blink tick; see [`blink_spec`].
pub fn cursor_blink_step(
    is_file_tab: bool,
    focus: EditorFocus,
    state: CursorBlink,
    since_keystroke_ms: u128,
    since_overlay_keystroke_ms: u128,
) -> (r: (CursorBlink, BlinkRepaint))
    ensures
        r == blink_spec(
            is_file_tab,
            focus,
            state,
            since_keystroke_ms as int,
            since_overlay_keystroke_ms as int,
        ),
{
    let buffer_focus = match focus {
        EditorFocus::Buffer => true,
        _ => false,
    };
    if !is_file_tab || buffer_focus {
        let (v, changed) = blink_cursor(state.buffer_visible, since_keystroke_ms);
        let repaint = if !changed {
            BlinkRepaint::Nothing
        } else if is_file_tab {
            BlinkRepaint::CursorLine
        } else {
            BlinkRepaint::FullViewport
        };
        (CursorBlink { buffer_visible: v, overlay_visible: state.overlay_visible }, repaint)
    } else {
        match focus {
            EditorFocus::ConfirmDialog => (state, BlinkRepaint::Nothing),
            _ => {
                let (v, changed) = blink_cursor(state.overlay_visible, since_overlay_keystroke_ms);
                let repaint = if changed {
                    BlinkRepaint::FullViewport
                } else {
                    BlinkRepaint::Nothing
                };
                (CursorBlink { buffer_visible: state.buffer_visible, overlay_visible: v }, repaint)
            },
        }
    }
}

/// Without typing, two blink ticks bring the cursors back to where they
/// were; right after typing, the focused cursor is visible.
pub proof fn law_blink_twice_restores(
    is_file_tab: bool,
    focus: EditorFocus,
    state: CursorBlink,
    since_keystroke_ms: int,
    since_overlay_keystroke_ms: int,
)
    ensures
        since_keystroke_ms >= CURSOR_BLINK_INTERVAL_MS && since_overlay_keystroke_ms
            >= CURSOR_BLINK_INTERVAL_MS ==> blink_spec(
            is_file_tab,
            focus,
            blink_spec(is_file_tab, focus, state, since_keystroke_ms, since_overlay_keystroke_ms).0,
            since_keystroke_ms,
            since_overlay_keystroke_ms,
        ).0 == state,
        since_keystroke_ms < CURSOR_BLINK_INTERVAL_MS && (!is_file_tab || focus
            == EditorFocus::Buffer) ==> blink_spec(
            is_file_tab,
            focus,
            state,
            since_keystroke_ms,
            since_overlay_keystroke_ms,
        ).0.buffer_visible,
{
}

// =============================================================================
// Terminal clipboard keys
// =============================================================================

/// A clipboard action on a terminal tab.
#[derive(Debug, Clone, Copy, PartialEq, Eq, Structural)]
pub enum TerminalClipboard {
    /// Cmd+C: copy the selected text.
    Copy,
    /// Cmd+V: paste the clipboard (bracketed paste).
    Paste,
}

/// On a terminal tab, Cmd+C copies and Cmd+V pastes (either case, without
/// Control); every other key is encoded for the terminal.
pub fn terminal_clipboard_key(event: &KeyEvent) -> (r: Option<TerminalClipboard>)
    ensures
        r == (if event.modifiers.command && !event.modifiers.control {
            match event.key {
                Key::Char(c) => if c == 'c' || c == 'C' {
                    Some(TerminalClipboard::Copy)
                } else if c == 'v' || c == 'V' {
                    Some(TerminalClipboard::Paste)
                } else {
                    None
                },
                _ => None,
            }
        } else {
            None
        }),
{
    if event.modifiers.command && !event.modifiers.control {
        match event.key {
            Key::Char(c) => {
                if c == 'c' || c == 'C' {
                    Some(TerminalClipboard::Copy)
                } else if c == 'v' || c == 'V' {
                    Some(TerminalClipboard::Paste)
                } else {
                    None
                }
            },
            _ => None,
        }
    } else {
        None
    }
}

// =============================================================================
// Paths chosen in the picker, renamed files
// =============================================================================

/// `base` joined with `name` (`Path::join` on Unix): an absolute `name`
/// replaces `base`; otherwise a `/` is put between them unless `base` is
/// empty or already ends with one.
pub open spec fn path_join(base: Seq<char>, name: Seq<char>) -> Seq<char> {
    if name.len() > 0 && name[0] == '/' {
        name
    } else {
        join_relative(base, name)
    }
}

/// Joins `name` onto `base` as `Path::join` does on Unix.
pub fn join_path(base: &str, name: &str) -> (r: String)
    ensures
        r@ == path_join(base@, name@),
{
    let mut out = String::new();
    let name_chars = crate::path_model::chars_of(name);
    if name_chars.len() > 0 && name_chars[0] == '/' {
        push_str_chars(&mut out, name);
        assert(out@ =~= name@);
        return out;
    }
    let base_chars = crate::path_model::chars_of(base);
    push_str_chars(&mut out, base);
    if base_chars.len() > 0 && base_chars[base_chars.len() - 1] != '/' {
        string_push(&mut out, '/');
    }
    push_str_chars(&mut out, name);
    out
}

/// The path a picker confirmation resolves to: the selected item under
/// `cwd`, or, when the index is past the items (no selection), the typed
/// query under `cwd` (a new file).
pub open spec fn picker_path(idx: int, items: Seq<Seq<char>>, query: Seq<char>, cwd: Seq<char>) -> Seq<
    char,
> {
    if 0 <= idx < items.len() {
        path_join(cwd, items[idx])
    } else {
        path_join(cwd, query)
    }
}

/// Resolves the path of a picker confirmation. Creating the file when it
/// does not exist yet (and the query is not empty) is left to the caller.
pub fn resolve_picker_path(idx: usize, items: &[String], query: &str, cwd: &str) -> (r: String)
    ensures
        r@ == picker_path(
            idx as int,
            items@.map_values(|s: String| s@),
            query@,
            cwd@,
        ),
{
    if idx < items.len() {
        join_path(cwd, items[idx].as_str())
    } else {
        join_path(cwd, query)
    }
}

/// The index just after the last `.` of `s`, if any.
pub open spec fn last_dot(s: Seq<char>) -> Option<int>
    decreases s.len(),
{
    if s.len() == 0 {
        None
    } else if s.last() == '.' {
        Some(s.len() - 1)
    } else {
        last_dot(s.drop_last())
    }
}

/// The extension of a path (`Path::extension`): what follows the last `.`
/// of its file name, unless the name has no `.` or its only `.` leads it.
pub open spec fn extension(p: Seq<char>) -> Option<Seq<char>> {
    match file_name(p) {
        Some(n) => match last_dot(n) {
            Some(k) => if k == 0 {
                None
            } else {
                Some(n.skip(k + 1))
            },
            None => None,
        },
        None => None,
    }
}

/// Returns the extension of a path.
pub fn extension_of(path: &str) -> (r: Option<String>)
    ensures
        match r {
            Some(e) => extension(path@) == Some(e@),
            None => extension(path@) is None,
        },
{
    let name = match file_name_of(path) {
        Some(n) => n,
        None => return None,
    };
    let chars = crate::path_model::chars_of(name.as_str());
    let ghost n = name@;
    let mut i: usize = chars.len();
    assert(n.take(n.len() as int) =~= n);
    while i > 0 && chars[i - 1] != '.'
        invariant
            i <= chars@.len(),
            chars@ == n,
            last_dot(n) == last_dot(n.take(i as int)),
        decreases i,
    {
        proof {
            assert(n.take(i as int).drop_last() =~= n.take(i - 1));
        }
        i = i - 1;
    }
    if i == 0 {
        proof {
            assert(n.take(0) =~= Seq::<char>::empty());
        }
        return None;
    }
    proof {
        assert(n.take(i as int).last() == '.');
        assert(last_dot(n.take(i as int)) == Some(i - 1));
    }
    if i == 1 {
        return None;
    }
    let mut out: Vec<char> = Vec::new();
    let mut j: usize = i;
    while j < chars.len()
        invariant
            i <= j <= chars@.len(),
            chars@ == n,
            out@ == n.subrange(i as int, j as int),
        decreases chars@.len() - j,
    {
        out.push(chars[j]);
        j = j + 1;
        assert(n.subrange(i as int, j as int) =~= n.subrange(i as int, j - 1).push(n[j - 1]));
    }
    assert(n.skip(i as int) =~= n.subrange(i as int, n.len() as int));
    Some(crate::path_model::string_from_chars(out.as_slice()))
}

/// A renamed file's extension changed (its syntax highlighting is then
/// set up again).
pub fn extension_changed(from: &str, to: &str) -> (r: bool)
    ensures
        r == (extension(from@) != extension(to@)),
{
    match (extension_of(from), extension_of(to)) {
        (Some(a), Some(b)) => !crate::path_model::str_eq(a.as_str(), b.as_str()),
        (None, None) => false,
        _ => true,
    }
}

// =============================================================================
// Tabs for files, terminal tab labels
// =============================================================================

/// The first tab whose associated file is `path` (tabs without a file are
/// skipped).
pub open spec fn first_tab_for_file(files: Seq<Option<Seq<char>>>, path: Seq<char>, from: int) -> Option<
    int,
>
    decreases files.len() - from,
{
    if from < 0 || from >= files.len() {
        None
    } else if files[from] matches Some(f) && path_eq(f, path) {
        Some(from)
    } else {
        first_tab_for_file(files, path, from + 1)
    }
}

/// The associated files of tabs, as character sequences.
pub open spec fn files_view(files: Seq<Option<String>>) -> Seq<Option<Seq<char>>> {
    files.map_values(
        |f: Option<String>|
            match f {
                Some(s) => Some(s@),
                None => None,
            },
    )
}

/// Returns the index of the first tab whose associated file is `path`: the
/// tab that a deletion or a rename of that file concerns.
pub fn tab_for_file(files: &[Option<String>], path: &str) -> (r: Option<usize>)
    ensures
        match r {
            Some(i) => first_tab_for_file(
                files_view(files@),
                path@,
                0,
            ) == Some(i as int),
            None => first_tab_for_file(
                files_view(files@),
                path@,
                0,
            ) is None,
        },
{
    let ghost fs = files_view(files@);
    let mut i: usize = 0;
    while i < files.len()
        invariant
            i <= files@.len(),
            fs == files_view(files@),
            first_tab_for_file(fs, path@, 0) == first_tab_for_file(fs, path@, i as int),
        decreases files@.len() - i,
    {
        match &files[i] {
            Some(f) => {
                if paths_equal(f.as_str(), path) {
                    return Some(i);
                }
            },
            None => {},
        }
        i = i + 1;
    }
    None
}

/// The decimal digits of `n`.
pub open spec fn decimal(n: nat) -> Seq<char>
    decreases n,
{
    let d = (48 + n % 10) as char;
    if n < 10 {
        seq![d]
    } else {
        decimal(n / 10).push(d)
    }
}

/// Returns the decimal representation of `n`.
pub fn decimal_string(n: usize) -> (r: String)
    ensures
        r@ == decimal(n as nat),
    decreases n,
{
    let c = char_of_digit((n % 10) as u32);
    if n < 10 {
        let mut s = String::new();
        string_push(&mut s, c);
        assert(s@ =~= seq![c]);
        s
    } else {
        let mut s = decimal_string(n / 10);
        string_push(&mut s, c);
        s
    }
}

fn char_of_digit(d: u32) -> (c: char)
    requires
        d < 10,
    ensures
        c == (48 + d) as char,
{
    if d == 0 {
        '0'
    } else if d == 1 {
        '1'
    } else if d == 2 {
        '2'
    } else if d == 3 {
        '3'
    } else if d == 4 {
        '4'
    } else if d == 5 {
        '5'
    } else if d == 6 {
        '6'
    } else if d == 7 {
        '7'
    } else if d == 8 {
        '8'
    } else {
        '9'
    }
}

/// The label of a new terminal tab: `Terminal` for the first, then
/// `Terminal 2`, `Terminal 3`, … after the terminal tabs already open.
pub open spec fn terminal_label(existing: nat) -> Seq<char> {
    if existing == 0 {
        "Terminal"@
    } else {
        "Terminal "@ + decimal(existing + 1)
    }
}

/// Returns the label of a new terminal tab, given how many terminal tabs the
/// workspace already has.
pub fn terminal_tab_label(existing: usize) -> (r: String)
    requires
        existing < usize::MAX,
    ensures
        r@ == terminal_label(existing as nat),
{
    if existing == 0 {
        "Terminal".to_string()
    } else {
        let mut label = "Terminal ".to_string();
        let digits = decimal_string(existing + 1);
        push_str_chars(&mut label, digits.as_str());
        label
    }
}

// =============================================================================
// Picker refresh
// =============================================================================

/// While the picker is open, its items are refreshed whenever the file
/// index's cache version has moved past the version they were computed at,
/// so results stream in while the directory walk runs.
pub fn picker_refresh_needed(focus: EditorFocus, cache_version: u64, items_version: u64) -> (r: bool)
    ensures
        r == (focus == EditorFocus::Selector && cache_version > items_version),
{
    match focus {
        EditorFocus::Selector => cache_version > items_version,
        _ => false,
    }
}

/// The picker's items for query results: their paths, in result order.
pub fn picker_items(results: &[MatchResult]) -> (r: Vec<String>)
    ensures
        r@.len() == results@.len(),
        forall|i: int| 0 <= i < r@.len() ==> #[trigger] r@[i]@ == results@[i].path@,
{
    let mut items: Vec<String> = Vec::new();
    let mut i: usize = 0;
    while i < results.len()
        invariant
            i <= results@.len(),
            items@.len() == i,
            forall|k: int| 0 <= k < i ==> #[trigger] items@[k]@ == results@[k].path@,
        decreases results@.len() - i,
    {
        items.push(results[i].path.clone());
        i = i + 1;
    }
    items
}

} // verus!
