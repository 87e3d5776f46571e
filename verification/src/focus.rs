//! Focus target trait definition and focus stack.
//!
//! Focus targets interpret their own input. The `FocusStack` enables
//! composable focus targets with event propagation. Events are dispatched
//! top-down: the topmost target gets first crack; if it returns `Handled::No`,
//! the event falls through to the next target. This allows global shortcuts
//! to live at the bottom of the stack while overlays (find bar, selector,
//! dialog) push onto the stack and pop when dismissed.

use vstd::prelude::*;
use crate::input::KeyEvent;

verus! {

/// Result of handling an input event.
#[derive(Debug, Clone, Copy, PartialEq, Eq, Structural)]
pub enum Handled {
    /// The event was handled by this focus target
    Yes,
    /// The event was not handled (should propagate or be ignored)
    No,
}

/// Identifies what type of focus target is at the top of the stack.
///
/// The renderer uses it to decide which overlay to render.
#[derive(Debug, Clone, Copy, PartialEq, Eq, Structural)]
pub enum FocusLayer {
    /// Global shortcut target (bottom of stack, always present)
    GlobalShortcuts,
    /// Normal buffer editing mode
    Buffer,
    /// Selector overlay is active (file picker, command palette, etc.)
    Selector,
    /// Find-in-file strip is active
    FindInFile,
    /// Confirm dialog is active (e.g., abandon unsaved changes?)
    ConfirmDialog,
}

impl Default for FocusLayer {
    fn default() -> (l: Self)
        ensures
            l == FocusLayer::Buffer,
    {
        FocusLayer::Buffer
    }
}

/// A focus target that interprets input events.
///
/// Each focus target interprets its own input; the stack only delivers
/// events. The context, scroll and mouse event types are those of the
/// embedding application. Whether a target handles a key depends on the
/// target's state and the key (`key_outcome`).
pub trait FocusTarget {
    /// State that handlers mutate (buffer, viewport, dirty region...).
    type Context;
    /// A scroll event (trackpad or mouse wheel).
    type Scroll;
    /// A mouse event (click, drag).
    type Mouse;

    /// The layer this target reports.
    spec fn layer_spec(&self) -> FocusLayer;

    /// Whether this target, in its current state, handles `event`.
    spec fn key_outcome(&self, event: KeyEvent) -> Handled;

    /// Whether handling the scroll `delta` from this state and context `ctx`
    /// can leave the target in state `after` and the context as `ctx_after`.
    spec fn scroll_outcome(
        &self,
        delta: Self::Scroll,
        ctx: &Self::Context,
        after: &Self,
        ctx_after: &Self::Context,
    ) -> bool;

    /// Whether handling the mouse `event` from this state and context `ctx`
    /// can leave the target in state `after` and the context as `ctx_after`.
    spec fn mouse_outcome(
        &self,
        event: Self::Mouse,
        ctx: &Self::Context,
        after: &Self,
        ctx_after: &Self::Context,
    ) -> bool;

    /// Returns the focus layer type for this target.
    fn layer(&self) -> (l: FocusLayer)
        ensures
            l == self.layer_spec(),
    ;

    /// Handles a keyboard event, returning `Handled::Yes` if it was consumed.
    fn handle_key(&mut self, event: KeyEvent, ctx: &mut Self::Context) -> (h: Handled)
        ensures
            h == old(self).key_outcome(event),
    ;

    /// Handles a scroll event.
    fn handle_scroll(&mut self, delta: Self::Scroll, ctx: &mut Self::Context)
        ensures
            old(self).scroll_outcome(delta, &*old(ctx), &*final(self), &*final(ctx)),
    ;

    /// Handles a mouse event.
    fn handle_mouse(&mut self, event: Self::Mouse, ctx: &mut Self::Context)
        ensures
            old(self).mouse_outcome(event, &*old(ctx), &*final(self), &*final(ctx)),
    ;
}

/// `after` is what handling the scroll `delta` top-down makes of the
/// targets `before`: the target at index `i` is handled at step `n - 1 - i`,
/// from context `ctxs[n - 1 - i]` to context `ctxs[n - i]`, as its
/// `scroll_outcome` allows.
pub open spec fn scroll_steps<T: FocusTarget>(
    before: Seq<T>,
    after: Seq<T>,
    delta: T::Scroll,
    ctxs: Seq<T::Context>,
) -> bool {
    let n = before.len() as int;
    &&& after.len() == n
    &&& ctxs.len() == n + 1
    &&& forall|i: int|
        0 <= i < n ==> #[trigger] before[i].scroll_outcome(
            delta,
            &ctxs[n - 1 - i],
            &after[i],
            &ctxs[n - i],
        )
}

/// Some target of `ts` handles `event`.
pub open spec fn some_target_handles<T: FocusTarget>(ts: Seq<T>, event: KeyEvent) -> bool {
    exists|i: int| 0 <= i < ts.len() && #[trigger] ts[i].key_outcome(event) == Handled::Yes
}

/// An ordered stack of focus targets with top-down event propagation.
///
/// The stack is ordered from bottom (index 0) to top (last element).
pub struct FocusStack<T> {
    /// The stack of focus targets, ordered bottom (index 0) to top.
    targets: Vec<T>,
}

impl<T> FocusStack<T> {
    /// The targets, bottom first.
    pub closed spec fn targets(&self) -> Seq<T> {
        self.targets@
    }

    /// Creates a new empty focus stack.
    pub fn new() -> (s: Self)
        ensures
            s.targets() == Seq::<T>::empty(),
    {
        FocusStack { targets: Vec::new() }
    }

    /// Returns the number of targets in the stack.
    pub fn len(&self) -> (n: usize)
        ensures
            n == self.targets().len(),
    {
        self.targets.len()
    }

    /// Returns true if the stack is empty.
    pub fn is_empty(&self) -> (b: bool)
        ensures
            b == (self.targets().len() == 0),
    {
        self.targets.len() == 0
    }

    /// Pushes a focus target onto the top of the stack.
    pub fn push(&mut self, target: T)
        ensures
            final(self).targets() == old(self).targets().push(target),
    {
        self.targets.push(target);
    }

    /// Pops the topmost focus target from the stack; `None` if it is empty.
    pub fn pop(&mut self) -> (r: Option<T>)
        ensures
            old(self).targets().len() == 0 ==> r is None && final(self).targets() == old(
                self,
            ).targets(),
            old(self).targets().len() > 0 ==> r == Some(old(self).targets().last())
                && final(self).targets() == old(self).targets().drop_last(),
    {
        let r = self.targets.pop();
        proof {
            if old(self).targets().len() > 0 {
                assert(old(self).targets().drop_last() =~= old(self).targets().subrange(
                    0,
                    old(self).targets().len() - 1,
                ));
            }
        }
        r
    }

    /// Returns a mutable reference to the topmost focus target; `None` if it
    /// is empty.
    pub fn top_mut(&mut self) -> (r: Option<&mut T>)
        ensures
            old(self).targets().len() == 0 ==> r is None && final(self).targets() == old(
                self,
            ).targets(),
            old(self).targets().len() > 0 ==> (r matches Some(t) && *t == old(self).targets().last()
                && final(self).targets() == old(self).targets().update(
                old(self).targets().len() - 1,
                *final(t),
            )),
    {
        let n = self.targets.len();
        if n == 0 {
            None
        } else {
            Some(&mut self.targets[n - 1])
        }
    }

    /// Returns a reference to the topmost focus target; `None` if it is empty.
    pub fn top(&self) -> (r: Option<&T>)
        ensures
            self.targets().len() == 0 ==> r is None,
            self.targets().len() > 0 ==> r == Some(&self.targets().last()),
    {
        if self.targets.len() == 0 {
            None
        } else {
            Some(&self.targets[self.targets.len() - 1])
        }
    }
}

impl<T> Default for FocusStack<T> {
    /// An empty stack.
    fn default() -> (s: Self)
        ensures
            s.targets() == Seq::<T>::empty(),
    {
        Self::new()
    }
}

/// Pushing a target and then popping gives that target back and leaves the
/// stack as it was.
pub proof fn law_push_then_pop<T>(stack: Seq<T>, target: T)
    ensures
        stack.push(target).len() > 0,
        stack.push(target).last() == target,
        stack.push(target).drop_last() == stack,
{
    assert(stack.push(target).drop_last() =~= stack);
}

impl<T: FocusTarget> FocusStack<T> {
    /// Returns the focus layer of the topmost target, or `FocusLayer::Buffer`
    /// if the stack is empty.
    pub fn top_layer(&self) -> (l: FocusLayer)
        ensures
            self.targets().len() == 0 ==> l == FocusLayer::Buffer,
            self.targets().len() > 0 ==> l == self.targets().last().layer_spec(),
    {
        if self.targets.len() == 0 {
            FocusLayer::Buffer
        } else {
            self.targets[self.targets.len() - 1].layer()
        }
    }

    /// Dispatches a key event top-down through the stack.
    ///
    /// Starting from the topmost target, each target's `handle_key` is called.
    /// If a target returns `Handled::Yes`, propagation stops and `Handled::Yes`
    /// is returned. If all targets return `Handled::No`, `Handled::No` is
    /// returned. Targets below the one that handled the event are not called.
    pub fn dispatch_key(&mut self, event: KeyEvent, ctx: &mut T::Context) -> (h: Handled)
        ensures
            final(self).targets().len() == old(self).targets().len(),
            h == Handled::Yes <==> some_target_handles(old(self).targets(), event),
            forall|k: int, j: int|
                0 <= k < j < old(self).targets().len() && #[trigger] old(self).targets()[j].key_outcome(
                    event,
                ) == Handled::Yes ==> #[trigger] final(self).targets()[k] == old(self).targets()[k],
    {
        let ghost t0 = self.targets();
        let n = self.targets.len();
        let mut i = n;
        while i > 0
            invariant
                i <= n,
                n == t0.len(),
                self.targets().len() == n,
                forall|k: int| 0 <= k < i ==> self.targets()[k] == t0[k],
                forall|k: int| i <= k < n ==> #[trigger] t0[k].key_outcome(event) == Handled::No,
                t0 == old(self).targets(),
            decreases i,
        {
            i = i - 1;
            let h = self.targets[i].handle_key(event, ctx);
            if h == Handled::Yes {
                assert(t0[i as int].key_outcome(event) == Handled::Yes);
                assert forall|k: int, j: int|
                    0 <= k < j < n && #[trigger] t0[j].key_outcome(event) == Handled::Yes
                        implies #[trigger] self.targets()[k] == t0[k] by {
                    if k >= i {
                        assert(j > i);
                        assert(t0[j].key_outcome(event) == Handled::No);
                    }
                }
                return Handled::Yes;
            }
        }
        assert(!some_target_handles(t0, event));
        assert forall|k: int, j: int|
            0 <= k < j < n && #[trigger] t0[j].key_outcome(event) == Handled::Yes implies #[trigger] self.targets()[k]
                == t0[k] by {
            assert(t0[j].key_outcome(event) == Handled::No);
        }
        Handled::No
    }

    /// Dispatches a scroll event top-down through the stack: each target's
    /// `handle_scroll` is called, from the topmost to the bottom one, with the
    /// context as the previous target left it.
    pub fn dispatch_scroll(&mut self, delta: T::Scroll, ctx: &mut T::Context) where T::Scroll: Copy
        ensures
            exists|ctxs: Seq<T::Context>|
                scroll_steps(old(self).targets(), final(self).targets(), delta, ctxs) && ctxs[0]
                    == *old(ctx) && #[trigger] ctxs[old(self).targets().len() as int]
                    == *final(ctx),
    {
        let n = self.targets.len();
        let ghost t0 = self.targets();
        let ghost mut cs: Seq<T::Context> = seq![*ctx];
        let mut i = n;
        while i > 0
            invariant
                i <= n,
                n == t0.len(),
                t0 == old(self).targets(),
                self.targets().len() == n,
                cs.len() == n - i + 1,
                cs[0] == *old(ctx),
                cs[n - i] == *ctx,
                forall|k: int| 0 <= k < i ==> self.targets()[k] == t0[k],
                forall|k: int|
                    i <= k < n ==> #[trigger] t0[k].scroll_outcome(
                        delta,
                        &cs[n - 1 - k],
                        &self.targets()[k],
                        &cs[n - k],
                    ),
            decreases i,
        {
            i = i - 1;
            let ghost before = self.targets();
            self.targets[i].handle_scroll(delta, ctx);
            proof {
                cs = cs.push(*ctx);
                assert forall|k: int| 0 <= k < i implies self.targets()[k] == t0[k] by {
                    assert(self.targets()[k] == before[k]);
                }
                assert forall|k: int|
                    i <= k < n implies #[trigger] t0[k].scroll_outcome(
                        delta,
                        &cs[n - 1 - k],
                        &self.targets()[k],
                        &cs[n - k],
                    ) by {
                    if k > i {
                        assert(self.targets()[k] == before[k]);
                    }
                }
            }
        }
        assert(scroll_steps(t0, self.targets(), delta, cs));
    }

    /// Dispatches a mouse event to the topmost target only.
    pub fn dispatch_mouse(&mut self, event: T::Mouse, ctx: &mut T::Context)
        ensures
            old(self).targets().len() == 0 ==> final(self).targets() == old(self).targets()
                && *final(ctx) == *old(ctx),
            old(self).targets().len() > 0 ==> {
                let n = old(self).targets().len();
                &&& final(self).targets() == old(self).targets().update(
                    n - 1,
                    final(self).targets()[n - 1],
                )
                &&& old(self).targets()[n - 1].mouse_outcome(
                    event,
                    &*old(ctx),
                    &final(self).targets()[n - 1],
                    &*final(ctx),
                )
            },
    {
        let n = self.targets.len();
        if n > 0 {
            self.targets[n - 1].handle_mouse(event, ctx);
            proof {
                assert(self.targets() =~= old(self).targets().update(
                    n - 1,
                    self.targets()[n - 1],
                ));
            }
        }
    }
}

} // verus!
