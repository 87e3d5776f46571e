//! Keyboard input events delivered to focus targets.

use vstd::prelude::*;

verus! {

/// A key on the keyboard.
#[derive(Debug, Clone, Copy, PartialEq, Eq, Structural)]
pub enum Key {
    /// A character key (after keyboard layout mapping).
    Char(char),
    Return,
    Escape,
    Tab,
    Backspace,
    Delete,
    Left,
    Right,
    Up,
    Down,
    Home,
    End,
    PageUp,
    PageDown,
}

/// Modifier keys held during a key press.
#[derive(Debug, Clone, Copy, PartialEq, Eq, Structural)]
pub struct Modifiers {
    pub shift: bool,
    pub command: bool,
    pub option: bool,
    pub control: bool,
}

impl Default for Modifiers {
    fn default() -> (m: Self)
        ensures
            !m.shift && !m.command && !m.option && !m.control,
    {
        Modifiers { shift: false, command: false, option: false, control: false }
    }
}

/// A key press with its modifiers.
#[derive(Debug, Clone, Copy, PartialEq, Eq, Structural)]
pub struct KeyEvent {
    pub key: Key,
    pub modifiers: Modifiers,
}

impl KeyEvent {
    /// Creates a key event.
    pub fn new(key: Key, modifiers: Modifiers) -> (e: Self)
        ensures
            e.key == key,
            e.modifiers == modifiers,
    {
        KeyEvent { key, modifiers }
    }

    /// Creates a key event for a character key with no modifiers.
    pub fn char(c: char) -> (e: Self)
        ensures
            e.key == Key::Char(c),
            !e.modifiers.shift && !e.modifiers.command && !e.modifiers.option
                && !e.modifiers.control,
    {
        KeyEvent {
            key: Key::Char(c),
            modifiers: Modifiers { shift: false, command: false, option: false, control: false },
        }
    }
}

} // verus!
