use lite_edit_editor::event_channel::{create_event_channel, pty_wakeup_sends, EditorEvent, EventSendError};
use lite_edit_editor::input::KeyEvent;
use std::sync::atomic::{AtomicUsize, Ordering};
use std::sync::Arc;

fn counter() -> (Arc<AtomicUsize>, Arc<AtomicUsize>) {
    let c = Arc::new(AtomicUsize::new(0));
    let d = c.clone();
    (c, d)
}

#[test]
fn test_send_key_event() {
    let (_waker_called, waker_called_clone) = counter();
    let (sender, receiver) = create_event_channel(move || {
        waker_called_clone.fetch_add(1, Ordering::SeqCst);
    });

    let event = KeyEvent::char('a');
    sender.send_key(event.clone()).unwrap();

    let received = receiver.try_recv().unwrap();
    match received {
        EditorEvent::Key(e) => assert_eq!(e, event),
        _ => panic!("Expected Key event"),
    }
}

#[test]
fn test_send_pty_wakeup_debouncing() {
    let (waker_called, waker_called_clone) = counter();
    let (sender, receiver) = create_event_channel(move || {
        waker_called_clone.fetch_add(1, Ordering::SeqCst);
    });

    sender.send_pty_wakeup().unwrap();
    sender.send_pty_wakeup().unwrap();
    sender.send_pty_wakeup().unwrap();

    let mut count = 0;
    while receiver.try_recv().is_some() {
        count += 1;
    }
    assert_eq!(count, 1);
    assert_eq!(waker_called.load(Ordering::SeqCst), 1);
}

#[test]
fn test_clear_wakeup_pending() {
    let (sender, receiver) = create_event_channel(|| {});

    sender.send_pty_wakeup().unwrap();
    sender.clear_wakeup_pending();
    sender.send_pty_wakeup().unwrap();

    let mut count = 0;
    while receiver.try_recv().is_some() {
        count += 1;
    }
    assert_eq!(count, 2);
}

#[test]
fn test_drain_all_events() {
    let (sender, receiver) = create_event_channel(|| {});

    sender.send_key(KeyEvent::char('a')).unwrap();
    sender.send_key(KeyEvent::char('b')).unwrap();
    sender.send_cursor_blink().unwrap();

    let events: Vec<_> = receiver.drain();
    assert_eq!(events.len(), 3);
}

#[test]
fn test_drain_keeps_order_and_empties_channel() {
    let (sender, receiver) = create_event_channel(|| {});

    sender.send_key(KeyEvent::char('a')).unwrap();
    sender.send_resize().unwrap();
    sender.send_key(KeyEvent::char('b')).unwrap();

    let events = receiver.drain();
    assert_eq!(
        events,
        vec![
            EditorEvent::Key(KeyEvent::char('a')),
            EditorEvent::Resize,
            EditorEvent::Key(KeyEvent::char('b')),
        ]
    );
    assert!(receiver.drain().is_empty());
    assert!(receiver.try_recv().is_none());
}

#[test]
fn test_send_key_calls_waker() {
    let (waker_called, waker_called_clone) = counter();
    let (sender, _receiver) = create_event_channel(move || {
        waker_called_clone.fetch_add(1, Ordering::SeqCst);
    });

    sender.send_key(KeyEvent::char('a')).unwrap();

    assert_eq!(waker_called.load(Ordering::SeqCst), 1, "Waker should be called after send_key");
}

#[test]
fn test_send_cursor_blink_calls_waker() {
    let (waker_called, waker_called_clone) = counter();
    let (sender, _receiver) = create_event_channel(move || {
        waker_called_clone.fetch_add(1, Ordering::SeqCst);
    });

    sender.send_cursor_blink().unwrap();

    assert_eq!(
        waker_called.load(Ordering::SeqCst),
        1,
        "Waker should be called after send_cursor_blink"
    );
}

#[test]
fn test_send_resize_calls_waker() {
    let (waker_called, waker_called_clone) = counter();
    let (sender, _receiver) = create_event_channel(move || {
        waker_called_clone.fetch_add(1, Ordering::SeqCst);
    });

    sender.send_resize().unwrap();

    assert_eq!(waker_called.load(Ordering::SeqCst), 1, "Waker should be called after send_resize");
}

#[test]
fn test_send_file_drop() {
    let (waker_called, waker_called_clone) = counter();
    let (sender, receiver) = create_event_channel(move || {
        waker_called_clone.fetch_add(1, Ordering::SeqCst);
    });

    let paths = vec!["/path/to/file.txt".to_string(), "/another/path.txt".to_string()];
    sender.send_file_drop(paths.clone()).unwrap();

    assert_eq!(
        waker_called.load(Ordering::SeqCst),
        1,
        "Waker should be called after send_file_drop"
    );

    let event = receiver.try_recv().unwrap();
    match event {
        EditorEvent::FileDrop(received_paths) => {
            assert_eq!(received_paths, paths);
        }
        _ => panic!("Expected FileDrop event"),
    }
}

#[test]
fn test_send_pty_wakeup_followup_bypasses_debouncing() {
    let (waker_called, waker_called_clone) = counter();
    let (sender, receiver) = create_event_channel(move || {
        waker_called_clone.fetch_add(1, Ordering::SeqCst);
    });

    sender.send_pty_wakeup().unwrap();
    sender.send_pty_wakeup_followup().unwrap();

    let mut count = 0;
    while receiver.try_recv().is_some() {
        count += 1;
    }
    assert_eq!(count, 2, "Both wakeup and followup should be sent");
    assert_eq!(waker_called.load(Ordering::SeqCst), 2);
}

#[test]
fn test_send_pty_wakeup_followup_does_not_affect_pending_flag() {
    let (sender, receiver) = create_event_channel(|| {});

    sender.send_pty_wakeup_followup().unwrap();
    sender.send_pty_wakeup().unwrap();

    let mut count = 0;
    while receiver.try_recv().is_some() {
        count += 1;
    }
    assert_eq!(count, 2);
}

#[test]
fn test_send_pty_wakeup_followup_always_sends() {
    let (waker_called, waker_called_clone) = counter();
    let (sender, receiver) = create_event_channel(move || {
        waker_called_clone.fetch_add(1, Ordering::SeqCst);
    });

    sender.send_pty_wakeup_followup().unwrap();
    sender.send_pty_wakeup_followup().unwrap();
    sender.send_pty_wakeup_followup().unwrap();

    let mut count = 0;
    while receiver.try_recv().is_some() {
        count += 1;
    }
    assert_eq!(count, 3, "All followup wakeups should be sent");
    assert_eq!(waker_called.load(Ordering::SeqCst), 3);
}

#[test]
fn test_send_after_receiver_dropped_is_error() {
    let (sender, receiver) = create_event_channel(|| {});
    drop(receiver);
    assert_eq!(sender.send_resize(), Err(EventSendError(EditorEvent::Resize)));
    let paths = vec!["/a".to_string()];
    assert_eq!(sender.send_file_drop(paths.clone()), Err(EventSendError(EditorEvent::FileDrop(paths))));
}

#[test]
fn test_cloned_sender_shares_pending_flag() {
    let (sender, receiver) = create_event_channel(|| {});
    let other = sender.clone();
    sender.send_pty_wakeup().unwrap();
    other.send_pty_wakeup().unwrap();
    assert_eq!(receiver.drain(), vec![EditorEvent::PtyWakeup]);
}

#[test]
fn test_pty_wakeup_sends_only_when_not_pending() {
    assert!(pty_wakeup_sends(false));
    assert!(!pty_wakeup_sends(true));
}
