use lite_edit_editor::focus::{FocusLayer, FocusStack, FocusTarget, Handled};
use lite_edit_editor::input::{Key, KeyEvent, Modifiers};

struct AlwaysHandles;

impl FocusTarget for AlwaysHandles {
    type Context = Vec<&'static str>;
    type Scroll = ();
    type Mouse = ();

    fn layer_spec(&self) -> FocusLayer {
        FocusLayer::Buffer
    }

    fn key_outcome(&self, _event: KeyEvent) -> Handled {
        Handled::Yes
    }

    fn layer(&self) -> FocusLayer {
        FocusLayer::Buffer
    }

    fn handle_key(&mut self, _event: KeyEvent, ctx: &mut Vec<&'static str>) -> Handled {
        ctx.push("always");
        Handled::Yes
    }

    fn scroll_outcome(&self, _delta: (), _ctx: &Vec<&'static str>, _after: &Self, _ctx_after: &Vec<&'static str>) -> bool {
        true
    }

    fn mouse_outcome(&self, _event: (), _ctx: &Vec<&'static str>, _after: &Self, _ctx_after: &Vec<&'static str>) -> bool {
        true
    }

    fn handle_scroll(&mut self, _delta: (), ctx: &mut Vec<&'static str>) {
        ctx.push("always-scroll");
    }

    fn handle_mouse(&mut self, _event: (), ctx: &mut Vec<&'static str>) {
        ctx.push("always-mouse");
    }
}

struct NeverHandles;

impl FocusTarget for NeverHandles {
    type Context = Vec<&'static str>;
    type Scroll = ();
    type Mouse = ();

    fn layer_spec(&self) -> FocusLayer {
        FocusLayer::GlobalShortcuts
    }

    fn key_outcome(&self, _event: KeyEvent) -> Handled {
        Handled::No
    }

    fn layer(&self) -> FocusLayer {
        FocusLayer::GlobalShortcuts
    }

    fn handle_key(&mut self, _event: KeyEvent, ctx: &mut Vec<&'static str>) -> Handled {
        ctx.push("never");
        Handled::No
    }

    fn scroll_outcome(&self, _delta: (), _ctx: &Vec<&'static str>, _after: &Self, _ctx_after: &Vec<&'static str>) -> bool {
        true
    }

    fn mouse_outcome(&self, _event: (), _ctx: &Vec<&'static str>, _after: &Self, _ctx_after: &Vec<&'static str>) -> bool {
        true
    }

    fn handle_scroll(&mut self, _delta: (), ctx: &mut Vec<&'static str>) {
        ctx.push("never-scroll");
    }

    fn handle_mouse(&mut self, _event: (), ctx: &mut Vec<&'static str>) {
        ctx.push("never-mouse");
    }
}

enum Mock {
    Always(AlwaysHandles),
    Never(NeverHandles),
}

impl FocusTarget for Mock {
    type Context = Vec<&'static str>;
    type Scroll = ();
    type Mouse = ();

    fn layer_spec(&self) -> FocusLayer {
        self.layer()
    }

    fn key_outcome(&self, event: KeyEvent) -> Handled {
        match self {
            Mock::Always(t) => t.key_outcome(event),
            Mock::Never(t) => t.key_outcome(event),
        }
    }

    fn layer(&self) -> FocusLayer {
        match self {
            Mock::Always(t) => t.layer(),
            Mock::Never(t) => t.layer(),
        }
    }

    fn handle_key(&mut self, event: KeyEvent, ctx: &mut Vec<&'static str>) -> Handled {
        match self {
            Mock::Always(t) => t.handle_key(event, ctx),
            Mock::Never(t) => t.handle_key(event, ctx),
        }
    }

    fn scroll_outcome(&self, _delta: (), _ctx: &Vec<&'static str>, _after: &Self, _ctx_after: &Vec<&'static str>) -> bool {
        true
    }

    fn mouse_outcome(&self, _event: (), _ctx: &Vec<&'static str>, _after: &Self, _ctx_after: &Vec<&'static str>) -> bool {
        true
    }

    fn handle_scroll(&mut self, delta: (), ctx: &mut Vec<&'static str>) {
        match self {
            Mock::Always(t) => t.handle_scroll(delta, ctx),
            Mock::Never(t) => t.handle_scroll(delta, ctx),
        }
    }

    fn handle_mouse(&mut self, event: (), ctx: &mut Vec<&'static str>) {
        match self {
            Mock::Always(t) => t.handle_mouse(event, ctx),
            Mock::Never(t) => t.handle_mouse(event, ctx),
        }
    }
}

fn make_key_event() -> KeyEvent {
    KeyEvent::new(Key::Char('a'), Modifiers::default())
}

#[test]
fn new_stack_is_empty() {
    let stack: FocusStack<Mock> = FocusStack::new();
    assert!(stack.is_empty());
    assert_eq!(stack.len(), 0);
}

#[test]
fn push_adds_to_top() {
    let mut stack = FocusStack::new();
    stack.push(Mock::Never(NeverHandles));
    assert_eq!(stack.len(), 1);
    assert!(!stack.is_empty());

    stack.push(Mock::Always(AlwaysHandles));
    assert_eq!(stack.len(), 2);

    assert_eq!(stack.top_layer(), FocusLayer::Buffer);
}

#[test]
fn pop_returns_top() {
    let mut stack = FocusStack::new();
    stack.push(Mock::Never(NeverHandles));
    stack.push(Mock::Always(AlwaysHandles));

    let popped = stack.pop();
    assert!(popped.is_some());
    assert_eq!(stack.len(), 1);

    assert_eq!(stack.top_layer(), FocusLayer::GlobalShortcuts);

    let popped = stack.pop();
    assert!(popped.is_some());
    assert!(stack.is_empty());

    let popped = stack.pop();
    assert!(popped.is_none());
}

#[test]
fn dispatch_key_top_handles_stops() {
    let mut stack = FocusStack::new();
    stack.push(Mock::Never(NeverHandles));
    stack.push(Mock::Always(AlwaysHandles));
    let mut calls: Vec<&'static str> = Vec::new();

    let result = stack.dispatch_key(make_key_event(), &mut calls);
    assert_eq!(result, Handled::Yes);
    // The target below the one that handled the key is not called.
    assert_eq!(calls, vec!["always"]);
}

#[test]
fn dispatch_key_top_unhandled_falls_through() {
    let mut stack = FocusStack::new();
    stack.push(Mock::Always(AlwaysHandles));
    stack.push(Mock::Never(NeverHandles));
    let mut calls: Vec<&'static str> = Vec::new();

    let result = stack.dispatch_key(make_key_event(), &mut calls);
    assert_eq!(result, Handled::Yes);
    assert_eq!(calls, vec!["never", "always"]);
}

#[test]
fn dispatch_key_empty_stack_returns_no() {
    let mut stack: FocusStack<Mock> = FocusStack::new();
    let mut calls: Vec<&'static str> = Vec::new();

    let result = stack.dispatch_key(make_key_event(), &mut calls);
    assert_eq!(result, Handled::No);
    assert!(calls.is_empty());
}

#[test]
fn dispatch_key_no_target_handles_returns_no() {
    let mut stack = FocusStack::new();
    stack.push(Mock::Never(NeverHandles));
    stack.push(Mock::Never(NeverHandles));
    let mut calls: Vec<&'static str> = Vec::new();

    let result = stack.dispatch_key(make_key_event(), &mut calls);
    assert_eq!(result, Handled::No);
    assert_eq!(calls, vec!["never", "never"]);
}

#[test]
fn top_layer_returns_default_for_empty_stack() {
    let stack: FocusStack<Mock> = FocusStack::new();
    assert_eq!(stack.top_layer(), FocusLayer::Buffer);
}

#[test]
fn focus_layer_default_is_buffer() {
    assert_eq!(FocusLayer::default(), FocusLayer::Buffer);
}

#[test]
fn push_then_pop_restores_stack() {
    let mut stack = FocusStack::new();
    stack.push(Mock::Never(NeverHandles));
    stack.push(Mock::Always(AlwaysHandles));
    let popped = stack.pop().unwrap();
    assert_eq!(popped.layer(), FocusLayer::Buffer);
    assert_eq!(stack.len(), 1);
    assert_eq!(stack.top_layer(), FocusLayer::GlobalShortcuts);
}

#[test]
fn default_stack_is_empty() {
    let stack: FocusStack<Mock> = FocusStack::default();
    assert!(stack.is_empty());
}

#[test]
fn dispatch_scroll_reaches_all_mouse_reaches_top() {
    let mut stack = FocusStack::new();
    stack.push(Mock::Always(AlwaysHandles));
    stack.push(Mock::Never(NeverHandles));
    let mut calls: Vec<&'static str> = Vec::new();
    stack.dispatch_scroll((), &mut calls);
    stack.dispatch_mouse((), &mut calls);
    assert_eq!(calls, vec!["never-scroll", "always-scroll", "never-mouse"]);

    let mut empty: FocusStack<Mock> = FocusStack::new();
    let mut none: Vec<&'static str> = Vec::new();
    empty.dispatch_scroll((), &mut none);
    empty.dispatch_mouse((), &mut none);
    assert!(none.is_empty());
}
