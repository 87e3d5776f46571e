//! A single-line editable text field (the query field of the find strip and
//! of selectors).
//!
//! The field holds its text and a cursor (a character index). Typed text is
//! inserted at the cursor; Backspace and Delete remove the character before
//! and after the cursor; Left, Right, Home and End move the cursor. Keys with
//! the command or control modifier do not edit the text.

use vstd::prelude::*;
use crate::input::{Key, KeyEvent};
use crate::path_model::{chars_of, string_from_chars};

verus! {

/// A single-line editable text field.
pub struct MiniBuffer {
    text: Vec<char>,
    cursor: usize,
}

/// Text and cursor after inserting `s` at `cursor`.
pub open spec fn insert_at(text: Seq<char>, cursor: int, s: Seq<char>) -> (Seq<char>, int) {
    (text.take(cursor) + s + text.skip(cursor), cursor + s.len())
}

/// Text and cursor after handling `event`.
pub open spec fn key_effect(text: Seq<char>, cursor: int, event: KeyEvent) -> (Seq<char>, int) {
    if event.modifiers.command || event.modifiers.control {
        (text, cursor)
    } else {
        match event.key {
            Key::Char(c) => insert_at(text, cursor, seq![c]),
            Key::Backspace => if cursor > 0 {
                (text.remove(cursor - 1), cursor - 1)
            } else {
                (text, cursor)
            },
            Key::Delete => if cursor < text.len() {
                (text.remove(cursor), cursor)
            } else {
                (text, cursor)
            },
            Key::Left => if cursor > 0 {
                (text, cursor - 1)
            } else {
                (text, cursor)
            },
            Key::Right => if cursor < text.len() {
                (text, cursor + 1)
            } else {
                (text, cursor)
            },
            Key::Home => (text, 0),
            Key::End => (text, text.len() as int),
            _ => (text, cursor),
        }
    }
}

impl MiniBuffer {
    /// The text of the field.
    pub closed spec fn text(&self) -> Seq<char> {
        self.text@
    }

    /// The cursor position (a character index).
    pub closed spec fn cursor(&self) -> int {
        self.cursor as int
    }

    /// The cursor is within the text.
    pub open spec fn wf(&self) -> bool {
        0 <= self.cursor() <= self.text().len()
    }

    /// Returns whether the cursor is within the text.
    pub fn is_well_formed(&self) -> (b: bool)
        ensures
            b == self.wf(),
    {
        self.cursor <= self.text.len()
    }

    /// Creates an empty field.
    pub fn new() -> (m: Self)
        ensures
            m.wf(),
            m.text() == Seq::<char>::empty(),
            m.cursor() == 0,
    {
        MiniBuffer { text: Vec::new(), cursor: 0 }
    }

    /// Returns the text of the field.
    pub fn content(&self) -> (s: String)
        ensures
            s@ == self.text(),
    {
        string_from_chars(self.text.as_slice())
    }

    /// Returns the cursor position.
    pub fn cursor_position(&self) -> (c: usize)
        ensures
            c == self.cursor(),
    {
        self.cursor
    }

    /// Inserts text (from IME, keyboard or paste) at the cursor.
    pub fn handle_text_input(&mut self, text: &str)
        requires
            old(self).wf(),
        ensures
            final(self).wf(),
            (final(self).text(), final(self).cursor()) == insert_at(
                old(self).text(),
                old(self).cursor(),
                text@,
            ),
    {
        let add = chars_of(text);
        let ghost t0 = self.text@;
        let ghost c0 = self.cursor as int;
        let mut i: usize = 0;
        while i < add.len()
            invariant
                i <= add@.len(),
                self.cursor == c0 + i,
                self.text@ == t0.take(c0) + add@.take(i as int) + t0.skip(c0),
                0 <= c0 <= t0.len(),
            decreases add@.len() - i,
        {
            let pos = self.cursor;
            self.text.insert(pos, add[i]);
            let n = self.text.len();
            assert(pos < n);
            self.cursor = pos + 1;
            i = i + 1;
            assert(self.text@ =~= t0.take(c0) + add@.take(i as int) + t0.skip(c0));
        }
        assert(add@.take(add@.len() as int) =~= add@);
    }

    /// Handles a key event: edits the text or moves the cursor.
    pub fn handle_key(&mut self, event: KeyEvent)
        requires
            old(self).wf(),
        ensures
            final(self).wf(),
            (final(self).text(), final(self).cursor()) == key_effect(
                old(self).text(),
                old(self).cursor(),
                event,
            ),
    {
        if event.modifiers.command || event.modifiers.control {
            return;
        }
        let ghost t0 = self.text@;
        match event.key {
            Key::Char(c) => {
                let pos = self.cursor;
                self.text.insert(pos, c);
                let n = self.text.len();
                assert(pos < n);
                self.cursor = pos + 1;
                assert(self.text@ =~= t0.take(pos as int) + seq![c] + t0.skip(pos as int));
            },
            Key::Backspace => {
                if self.cursor > 0 {
                    let pos = self.cursor - 1;
                    self.cursor = pos;
                    self.text.remove(pos);
                }
            },
            Key::Delete => {
                if self.cursor < self.text.len() {
                    let pos = self.cursor;
                    self.text.remove(pos);
                }
            },
            Key::Left => {
                if self.cursor > 0 {
                    self.cursor = self.cursor - 1;
                }
            },
            Key::Right => {
                if self.cursor < self.text.len() {
                    self.cursor = self.cursor + 1;
                }
            },
            Key::Home => {
                self.cursor = 0;
            },
            Key::End => {
                self.cursor = self.text.len();
            },
            _ => {},
        }
    }
}

} // verus!
