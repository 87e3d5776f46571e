//! Event channel for the unified event queue.
//!
//! All event sources (view callbacks, the PTY reader thread, the blink timer,
//! the window delegate) send events through this channel, and a single drain
//! loop processes them sequentially. The channel is `std::sync::mpsc`: the
//! sender is `Send` and cloneable, the receiver stays on the main thread.
//!
//! PTY wakeups are debounced: while a wakeup is pending (sent and not yet
//! cleared by the drain loop), further wakeups are not sent.

use vstd::prelude::*;
use std::sync::Arc;
use std::sync::atomic::AtomicBool;
use std::sync::atomic::Ordering;
use std::sync::mpsc::{Receiver, Sender};
use crate::input::KeyEvent;

verus! {

/// An event for the drain loop.
#[derive(Debug, Clone, PartialEq, Eq)]
pub enum EditorEvent {
    /// A key press.
    Key(KeyEvent),
    /// PTY output is available.
    PtyWakeup,
    /// The cursor blink timer fired.
    CursorBlink,
    /// The window was resized.
    Resize,
    /// Files were dropped onto the view (paths).
    FileDrop(Vec<String>),
}

#[verifier::external_type_specification]
#[verifier::external_body]
#[verifier::reject_recursive_types(T)]
pub struct ExSender<T>(Sender<T>);

#[verifier::external_type_specification]
#[verifier::external_body]
#[verifier::reject_recursive_types(T)]
pub struct ExReceiver<T>(Receiver<T>);

/// Creates an `mpsc` channel (`std::sync::mpsc::channel`): the sender and
/// the receiver are the two halves of one new channel, which the ghost value
/// returned with them names.
#[verifier::external_body]
fn new_channel() -> (Sender<EditorEvent>, Receiver<EditorEvent>, Ghost<int>) {
    let (sender, receiver) = std::sync::mpsc::channel();
    (sender, receiver, Ghost(0))
}

/// Sends an event (`Sender::send`). Whether it succeeds depends on whether
/// the receiver is still alive, which nothing here states; on failure the
/// event that could not be sent comes back (`SendError` holds it).
#[verifier::external_body]
fn channel_send(sender: &Sender<EditorEvent>, event: EditorEvent) -> (r: Result<(), EditorEvent>)
    ensures
        r matches Err(e) ==> e == event,
{
    match sender.send(event) {
        Ok(()) => Ok(()),
        Err(std::sync::mpsc::SendError(e)) => Err(e),
    }
}

/// Receives an event without blocking (`Receiver::try_recv`); `None` when the
/// channel is empty or closed. What is received depends on the senders'
/// threads; nothing is stated of it.
#[verifier::external_body]
fn channel_try_recv(receiver: &Receiver<EditorEvent>) -> Option<EditorEvent> {
    match receiver.try_recv() {
        Ok(e) => Some(e),
        Err(_) => None,
    }
}

/// An event could not be sent because the receiver is gone; it holds the
/// event.
#[derive(Debug, Clone, PartialEq, Eq)]
pub struct EventSendError(pub EditorEvent);

/// Whether a PTY wakeup is sent, given whether one was already pending: a
/// pending wakeup suppresses the next.
pub fn pty_wakeup_sends(was_pending: bool) -> (send: bool)
    ensures
        send == !was_pending,
{
    !was_pending
}

struct EventSenderInner<W> {
    /// The mpsc sender.
    sender: Sender<EditorEvent>,
    /// The channel the sender feeds.
    channel: Ghost<int>,
    /// Callback to wake the run loop (called after each send).
    run_loop_waker: W,
    /// Whether a PTY wakeup is already pending (debouncing).
    wakeup_pending: AtomicBool,
}

/// Sender half of the event channel. Cloneable, and `Send` when the waker is.
///
/// `W` is the run-loop waker callback handed to [`create_event_channel`].
#[derive(Clone)]
pub struct EventSender<W> {
    inner: Arc<EventSenderInner<W>>,
}

/// Receiver half of the event channel. Stays on the main thread.
pub struct EventReceiver {
    receiver: Receiver<EditorEvent>,
    /// The channel the receiver reads.
    channel: Ghost<int>,
}

impl<W: Fn()> EventSender<W> {
    /// The run-loop waker may be called with no arguments.
    pub closed spec fn can_wake(&self) -> bool {
        call_requires(self.inner.run_loop_waker, ())
    }

    /// The channel this sender feeds.
    pub closed spec fn channel_id(&self) -> int {
        self.inner.channel@
    }
}

impl EventReceiver {
    /// The channel this receiver reads.
    pub closed spec fn channel_id(&self) -> int {
        self.channel@
    }
}

/// Creates a new event channel pair.
///
/// `run_loop_waker` is called after every send to wake the main run loop.
pub fn create_event_channel<W: Fn() + Send + Sync>(run_loop_waker: W) -> (r: (
    EventSender<W>,
    EventReceiver,
))
    requires
        call_requires(run_loop_waker, ()),
    ensures
        r.0.can_wake(),
        r.0.channel_id() == r.1.channel_id(),
{
    let (sender, receiver, channel) = new_channel();
    let inner = EventSenderInner {
        sender,
        channel,
        run_loop_waker,
        wakeup_pending: AtomicBool::new(false),
    };
    (EventSender { inner: Arc::new(inner) }, EventReceiver { receiver, channel })
}

impl<W: Fn()> EventSender<W> {
    fn send_and_wake(&self, event: EditorEvent) -> (r: Result<(), EventSendError>)
        requires
            self.can_wake(),
        ensures
            r matches Err(e) ==> e.0 == event,
    {
        let result = channel_send(&self.inner.sender, event);
        (self.inner.run_loop_waker)();
        match result {
            Ok(()) => Ok(()),
            Err(e) => Err(EventSendError(e)),
        }
    }

    /// Sends a key event to the channel and wakes the run loop.
    pub fn send_key(&self, event: KeyEvent) -> (r: Result<(), EventSendError>)
        requires
            self.can_wake(),
        ensures
            r matches Err(e) ==> e.0 == EditorEvent::Key(event),
    {
        self.send_and_wake(EditorEvent::Key(event))
    }

    /// Sends a PTY wakeup event and wakes the run loop, unless a wakeup is
    /// already pending: then nothing is sent, the waker is not called, and
    /// `Ok(())` is returned.
    pub fn send_pty_wakeup(&self) -> (r: Result<(), EventSendError>)
        requires
            self.can_wake(),
        ensures
            r matches Err(e) ==> e.0 == EditorEvent::PtyWakeup,
    {
        let was_pending = self.inner.wakeup_pending.swap(true, Ordering::SeqCst);
        if !pty_wakeup_sends(was_pending) {
            return Ok(());
        }
        self.send_and_wake(EditorEvent::PtyWakeup)
    }

    /// Sends a PTY wakeup event unconditionally, bypassing debouncing and
    /// leaving the pending flag as it is.
    pub fn send_pty_wakeup_followup(&self) -> (r: Result<(), EventSendError>)
        requires
            self.can_wake(),
        ensures
            r matches Err(e) ==> e.0 == EditorEvent::PtyWakeup,
    {
        self.send_and_wake(EditorEvent::PtyWakeup)
    }

    /// Clears the wakeup pending flag, so the next PTY wakeup is sent.
    pub fn clear_wakeup_pending(&self) {
        self.inner.wakeup_pending.store(false, Ordering::SeqCst);
    }

    /// Sends a cursor blink event and wakes the run loop.
    pub fn send_cursor_blink(&self) -> (r: Result<(), EventSendError>)
        requires
            self.can_wake(),
        ensures
            r matches Err(e) ==> e.0 == EditorEvent::CursorBlink,
    {
        self.send_and_wake(EditorEvent::CursorBlink)
    }

    /// Sends a resize event and wakes the run loop.
    pub fn send_resize(&self) -> (r: Result<(), EventSendError>)
        requires
            self.can_wake(),
        ensures
            r matches Err(e) ==> e.0 == EditorEvent::Resize,
    {
        self.send_and_wake(EditorEvent::Resize)
    }

    /// Sends a file drop event with the dropped paths and wakes the run loop.
    pub fn send_file_drop(&self, paths: Vec<String>) -> (r: Result<(), EventSendError>)
        requires
            self.can_wake(),
        ensures
            r matches Err(e) ==> e.0 == EditorEvent::FileDrop(paths),
    {
        self.send_and_wake(EditorEvent::FileDrop(paths))
    }
}

impl EventReceiver {
    /// Attempts to receive an event without blocking.
    pub fn try_recv(&self) -> Option<EditorEvent> {
        channel_try_recv(&self.receiver)
    }

    /// Drains all pending events from the channel, in order of arrival,
    /// without blocking: receives until the channel is empty (or closed).
    /// Which events are pending depends on the senders' threads.
    pub fn drain(&self) -> Vec<EditorEvent> {
        let mut events: Vec<EditorEvent> = Vec::new();
        while events.len() < usize::MAX
            decreases usize::MAX - events.len(),
        {
            match channel_try_recv(&self.receiver) {
                Some(e) => events.push(e),
                None => break,
            }
        }
        events
    }
}

} // verus!
