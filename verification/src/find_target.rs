//! Find-in-file focus target.
//!
//! [`FindFocusTarget`] wraps a [`MiniBuffer`] and handles key events for the
//! find-in-file strip. It handles every key (typing, escape, return) and
//! returns `Handled::Yes` for all of them, so keys pressed while the find strip
//! is active don't propagate to lower layers.
//!
//! After handling, check `pending_outcome` to see what action the user took.

use vstd::prelude::*;
use crate::focus::{FocusLayer, FocusTarget, Handled};
use crate::input::{Key, KeyEvent};
use crate::mini_buffer::{MiniBuffer, key_effect, insert_at};
use crate::path_model::str_eq;

verus! {

/// Outcome of handling a key event in the find strip.
#[derive(Debug, Clone, Copy, PartialEq, Eq, Structural)]
pub enum FindOutcome {
    /// The find strip is still open; query may have changed.
    Pending,
    /// User pressed Escape - close the find strip.
    Closed,
    /// User pressed Return - advance to next match.
    FindNext,
}

/// Focus target for the find-in-file strip.
pub struct FindFocusTarget {
    /// The wrapped mini buffer for query editing.
    mini_buffer: MiniBuffer,
    /// The outcome from the last key event, if any.
    pending_outcome: Option<FindOutcome>,
    /// Whether the query changed in the last key event.
    query_changed: bool,
}

impl FindFocusTarget {
    /// The query field.
    pub closed spec fn field(&self) -> MiniBuffer {
        self.mini_buffer
    }

    /// The outcome recorded by the last Escape or Return.
    pub closed spec fn outcome(&self) -> Option<FindOutcome> {
        self.pending_outcome
    }

    /// Whether the last edit changed the query.
    pub closed spec fn changed(&self) -> bool {
        self.query_changed
    }

    /// Creates a new find focus target wrapping the given mini buffer.
    pub fn new(mini_buffer: MiniBuffer) -> (t: Self)
        ensures
            t.field() == mini_buffer,
            t.outcome() is None,
            !t.changed(),
    {
        FindFocusTarget { mini_buffer, pending_outcome: None, query_changed: false }
    }

    /// Creates a new find focus target with an empty mini buffer.
    pub fn new_empty() -> (t: Self)
        ensures
            t.field().wf(),
            t.field().text() == Seq::<char>::empty(),
            t.outcome() is None,
            !t.changed(),
    {
        FindFocusTarget { mini_buffer: MiniBuffer::new(), pending_outcome: None, query_changed: false }
    }

    /// Returns the pending outcome, if any.
    pub fn pending_outcome(&self) -> (o: Option<FindOutcome>)
        ensures
            o == self.outcome(),
    {
        self.pending_outcome
    }

    /// Takes and returns the pending outcome, clearing it.
    pub fn take_outcome(&mut self) -> (o: Option<FindOutcome>)
        ensures
            o == old(self).outcome(),
            final(self).outcome() is None,
            final(self).field() == old(self).field(),
            final(self).changed() == old(self).changed(),
    {
        let o = self.pending_outcome;
        self.pending_outcome = None;
        o
    }

    /// Returns true if the query changed in the last key event.
    pub fn query_changed(&self) -> (b: bool)
        ensures
            b == self.changed(),
    {
        self.query_changed
    }

    /// Clears the query_changed flag.
    pub fn clear_query_changed(&mut self)
        ensures
            !final(self).changed(),
            final(self).field() == old(self).field(),
            final(self).outcome() == old(self).outcome(),
    {
        self.query_changed = false;
    }

    /// Returns the current query content.
    pub fn query(&self) -> (s: String)
        ensures
            s@ == self.field().text(),
    {
        self.mini_buffer.content()
    }

    /// Returns a reference to the underlying mini buffer.
    pub fn mini_buffer(&self) -> (m: &MiniBuffer)
        ensures
            *m == self.field(),
    {
        &self.mini_buffer
    }

    /// Returns a mutable reference to the underlying mini buffer.
    pub fn mini_buffer_mut(&mut self) -> (m: &mut MiniBuffer)
        ensures
            *m == old(self).field(),
            final(self).field() == *final(m),
            final(self).outcome() == old(self).outcome(),
            final(self).changed() == old(self).changed(),
    {
        &mut self.mini_buffer
    }

    /// Handles text input events (from IME, keyboard, paste).
    ///
    /// Inserts text into the query field and records whether the content
    /// changed, so that live search can run.
    pub fn handle_text_input(&mut self, text: &str)
        requires
            old(self).field().wf(),
        ensures
            final(self).field().wf(),
            (final(self).field().text(), final(self).field().cursor()) == insert_at(
                old(self).field().text(),
                old(self).field().cursor(),
                text@,
            ),
            final(self).changed() == (final(self).field().text() != old(self).field().text()),
            final(self).outcome() == old(self).outcome(),
    {
        let prev_content = self.mini_buffer.content();
        self.mini_buffer.handle_text_input(text);
        let new_content = self.mini_buffer.content();
        self.query_changed = !str_eq(prev_content.as_str(), new_content.as_str());
    }
}

impl FocusTarget for FindFocusTarget {
    type Context = ();
    type Scroll = ();
    type Mouse = ();

    open spec fn layer_spec(&self) -> FocusLayer {
        FocusLayer::FindInFile
    }

    /// The find strip handles every key.
    open spec fn key_outcome(&self, event: KeyEvent) -> Handled {
        Handled::Yes
    }

    /// Scrolling does not change the find strip.
    open spec fn scroll_outcome(&self, delta: (), ctx: &(), after: &Self, ctx_after: &()) -> bool {
        *after == *self
    }

    /// Mouse events do not change the find strip.
    open spec fn mouse_outcome(&self, event: (), ctx: &(), after: &Self, ctx_after: &()) -> bool {
        *after == *self
    }

    fn layer(&self) -> (l: FocusLayer) {
        FocusLayer::FindInFile
    }

    /// Escape records `Closed`, Return records `FindNext`; any other key goes
    /// to the query field and records whether the query changed.
    fn handle_key(&mut self, event: KeyEvent, ctx: &mut ()) -> (h: Handled)
        ensures
            event.key == Key::Escape ==> final(self).outcome() == Some(FindOutcome::Closed)
                && final(self).field() == old(self).field() && final(self).changed() == old(
                self,
            ).changed(),
            event.key == Key::Return ==> final(self).outcome() == Some(FindOutcome::FindNext)
                && final(self).field() == old(self).field() && final(self).changed() == old(
                self,
            ).changed(),
            event.key != Key::Escape && event.key != Key::Return && old(self).field().wf() ==> {
                &&& final(self).field().wf()
                &&& (final(self).field().text(), final(self).field().cursor()) == key_effect(
                    old(self).field().text(),
                    old(self).field().cursor(),
                    event,
                )
                &&& final(self).changed() == (final(self).field().text() != old(
                    self,
                ).field().text())
                &&& final(self).outcome() == old(self).outcome()
            },
    {
        match event.key {
            Key::Escape => {
                self.pending_outcome = Some(FindOutcome::Closed);
                return Handled::Yes;
            },
            Key::Return => {
                self.pending_outcome = Some(FindOutcome::FindNext);
                return Handled::Yes;
            },
            _ => {},
        }
        if self.mini_buffer.is_well_formed() {
            let prev_content = self.mini_buffer.content();
            self.mini_buffer.handle_key(event);
            let new_content = self.mini_buffer.content();
            self.query_changed = !str_eq(prev_content.as_str(), new_content.as_str());
        }
        Handled::Yes
    }

    fn handle_scroll(&mut self, delta: (), ctx: &mut ()) {
    }

    fn handle_mouse(&mut self, event: (), ctx: &mut ()) {
    }
}

} // verus!
