//! Debouncing logic for file change events.
//!
//! When a file change is detected, we wait for a brief period (the debounce
//! window) before emitting the event. If another change arrives for the same
//! file within this window, the timer resets. This coalesces rapid successive
//! writes into a single event.
//!
//! Timestamps are nanoseconds on a monotonic clock (see [`Timestamp`]); they
//! are passed in by the caller.

use vstd::prelude::*;
use crate::path_model::{path_eq, paths_equal};

verus! {

/// Nanoseconds elapsed on a monotonic clock since some fixed origin.
pub type Timestamp = u128;

/// Default debounce window in milliseconds.
pub const DEFAULT_DEBOUNCE_MS: u64 = 100;

/// Nanoseconds in one millisecond.
pub const NANOS_PER_MILLI: u128 = 1_000_000;

/// Time from `earlier` to `now`, or zero when `earlier` is later than `now`
/// (as `Instant::duration_since` saturates).
pub open spec fn elapsed(now: int, earlier: int) -> int {
    if now >= earlier {
        now - earlier
    } else {
        0
    }
}

/// A pending entry is ready once its debounce window has fully elapsed.
pub open spec fn is_ready(last_change: int, now: int, window_ms: int) -> bool {
    elapsed(now, last_change) >= window_ms * 1_000_000
}

/// Pending paths with the time of their last change.
pub open spec fn pending_view(v: Seq<(String, Timestamp)>) -> Seq<(Seq<char>, int)> {
    v.map_values(|e: (String, Timestamp)| (e.0@, e.1 as int))
}

/// Index of the pending entry for `path`, if any.
pub open spec fn find_entry(p: Seq<(Seq<char>, int)>, path: Seq<char>) -> Option<int> {
    if exists|i: int| 0 <= i < p.len() && path_eq(#[trigger] p[i].0, path) {
        Some(choose|i: int| 0 <= i < p.len() && path_eq(#[trigger] p[i].0, path))
    } else {
        None
    }
}

/// No two pending entries are for the same path.
pub open spec fn distinct_paths(p: Seq<(Seq<char>, int)>) -> bool {
    forall|i: int, j: int|
        0 <= i < j < p.len() ==> !path_eq(#[trigger] p[i].0, #[trigger] p[j].0)
}

/// The pending list after registering a change of `path` at `now`: the time of
/// the path's entry is reset (the entry keeps its place and its key), or a new
/// entry is appended.
pub open spec fn register_spec(p: Seq<(Seq<char>, int)>, path: Seq<char>, now: int) -> Seq<
    (Seq<char>, int),
> {
    match find_entry(p, path) {
        Some(i) => p.update(i, (p[i].0, now)),
        None => p.push((path, now)),
    }
}

/// The entries that are ready at `now`, in pending order.
pub open spec fn ready_entries(p: Seq<(Seq<char>, int)>, now: int, window_ms: int) -> Seq<
    (Seq<char>, int),
>
    decreases p.len(),
{
    if p.len() == 0 {
        Seq::empty()
    } else {
        let r = ready_entries(p.drop_last(), now, window_ms);
        if is_ready(p.last().1, now, window_ms) {
            r.push(p.last())
        } else {
            r
        }
    }
}

/// The entries that are not yet ready at `now`, in pending order.
pub open spec fn waiting_entries(p: Seq<(Seq<char>, int)>, now: int, window_ms: int) -> Seq<
    (Seq<char>, int),
>
    decreases p.len(),
{
    if p.len() == 0 {
        Seq::empty()
    } else {
        let r = waiting_entries(p.drop_last(), now, window_ms);
        if !is_ready(p.last().1, now, window_ms) {
            r.push(p.last())
        } else {
            r
        }
    }
}

pub open spec fn entry_paths(p: Seq<(Seq<char>, int)>) -> Seq<Seq<char>> {
    p.map_values(|e: (Seq<char>, int)| e.0)
}

pub open spec fn strings_view(v: Seq<String>) -> Seq<Seq<char>> {
    v.map_values(|s: String| s@)
}

/// Debounces file change events, coalescing rapid successive writes.
///
/// When a file change is registered, the debouncer waits for the debounce
/// window to elapse before emitting. If another change arrives for the same
/// path within the window, the timer resets.
pub struct FileChangeDebouncer {
    /// Pending paths and when they were last changed.
    pending: Vec<(String, Timestamp)>,
    /// Debounce window in milliseconds.
    debounce_ms: u64,
}

impl FileChangeDebouncer {
    /// The pending paths with the time of their last change.
    pub closed spec fn pending(&self) -> Seq<(Seq<char>, int)> {
        pending_view(self.pending@)
    }

    /// The debounce window in milliseconds.
    pub closed spec fn window_ms(&self) -> int {
        self.debounce_ms as int
    }

    /// No path is pending twice.
    pub open spec fn wf(&self) -> bool {
        distinct_paths(self.pending())
    }

    /// Creates a new debouncer with the given debounce window.
    pub fn new(debounce_ms: u64) -> (d: Self)
        ensures
            d.wf(),
            d.pending() == Seq::<(Seq<char>, int)>::empty(),
            d.window_ms() == debounce_ms,
    {
        let d = FileChangeDebouncer { pending: Vec::new(), debounce_ms };
        assert(d.pending() =~= Seq::<(Seq<char>, int)>::empty());
        d
    }

    /// Creates a new debouncer with the default debounce window (100ms).
    pub fn with_default() -> (d: Self)
        ensures
            d.wf(),
            d.pending() == Seq::<(Seq<char>, int)>::empty(),
            d.window_ms() == DEFAULT_DEBOUNCE_MS,
    {
        Self::new(DEFAULT_DEBOUNCE_MS)
    }

    /// Register a file change event.
    ///
    /// Updates the timestamp for the given path. If the path is already
    /// pending, the timestamp is reset (extending the debounce window).
    pub fn register(&mut self, path: String, now: Timestamp)
        requires
            old(self).wf(),
        ensures
            final(self).wf(),
            final(self).window_ms() == old(self).window_ms(),
            final(self).pending() == register_spec(old(self).pending(), path@, now as int),
    {
        let ghost p = self.pending();
        let ghost w0 = self.debounce_ms;
        let mut i: usize = 0;
        while i < self.pending.len()
            invariant
                i <= self.pending@.len(),
                p == pending_view(self.pending@),
                p == old(self).pending(),
                w0 == self.debounce_ms,
                w0 == old(self).debounce_ms,
                distinct_paths(p),
                forall|k: int| 0 <= k < i ==> !path_eq(#[trigger] p[k].0, path@),
            decreases self.pending@.len() - i,
        {
            if paths_equal(self.pending[i].0.as_str(), path.as_str()) {
                proof {
                    assert(path_eq(p[i as int].0, path@));
                    let j = choose|j: int| 0 <= j < p.len() && path_eq(#[trigger] p[j].0, path@);
                    if j != i {
                        if j < i {
                            assert(!path_eq(p[j].0, path@));
                        } else {
                            assert(path_eq(p[i as int].0, p[j].0));
                            assert(!path_eq(p[i as int].0, p[j].0));
                        }
                    }
                }
                assert(find_entry(p, path@) == Some(i as int));
                let key = self.pending[i].0.clone();
                self.pending.set(i, (key, now));
                proof {
                    assert(self.pending() =~= p.update(i as int, (p[i as int].0, now as int)));
                    let q = self.pending();
                    assert forall|a: int, b: int| 0 <= a < b < q.len() implies !path_eq(
                        #[trigger] q[a].0,
                        #[trigger] q[b].0,
                    ) by {
                        assert(q[a].0 == p[a].0);
                        assert(q[b].0 == p[b].0);
                    }
                }
                return;
            }
            i = i + 1;
        }
        self.pending.push((path, now));
        proof {
            assert(self.pending() =~= p.push((path@, now as int)));
            let q = self.pending();
            assert forall|a: int, b: int| 0 <= a < b < q.len() implies !path_eq(
                #[trigger] q[a].0,
                #[trigger] q[b].0,
            ) by {
                if b == q.len() - 1 {
                    assert(!path_eq(p[a].0, path@));
                } else {
                    assert(q[b].0 == p[b].0);
                }
            }
        }
    }

    /// Check for paths whose debounce window has expired.
    ///
    /// Returns the paths that are ready to emit (their last change was at
    /// least `debounce_ms` ago), in pending order. These paths are removed
    /// from the pending set; the others stay, in order.
    pub fn flush_ready(&mut self, now: Timestamp) -> (ready: Vec<String>)
        requires
            old(self).wf(),
        ensures
            final(self).wf(),
            final(self).window_ms() == old(self).window_ms(),
            strings_view(ready@) == entry_paths(
                ready_entries(old(self).pending(), now as int, old(self).window_ms()),
            ),
            final(self).pending() == waiting_entries(
                old(self).pending(),
                now as int,
                old(self).window_ms(),
            ),
    {
        let ghost p = self.pending();
        let ghost w = self.window_ms();
        let mut ready: Vec<String> = Vec::new();
        let mut kept: Vec<(String, Timestamp)> = Vec::new();
        let window: u128 = (self.debounce_ms as u128) * NANOS_PER_MILLI;
        let mut i: usize = 0;
        assert(p.take(0) =~= Seq::<(Seq<char>, int)>::empty());
        while i < self.pending.len()
            invariant
                i <= self.pending@.len(),
                p == pending_view(self.pending@),
                w == self.debounce_ms as int,
                window as int == w * 1_000_000,
                strings_view(ready@) == entry_paths(ready_entries(p.take(i as int), now as int, w)),
                pending_view(kept@) == waiting_entries(p.take(i as int), now as int, w),
            decreases self.pending@.len() - i,
        {
            let t = self.pending[i].1;
            let elapsed_ns: u128 = if now >= t {
                now - t
            } else {
                0
            };
            let ghost before_ready = ready@;
            let ghost before_kept = kept@;
            proof {
                assert(p.take(i + 1).drop_last() =~= p.take(i as int));
                assert(p.take(i + 1).last() == p[i as int]);
            }
            if elapsed_ns >= window {
                ready.push(self.pending[i].0.clone());
                proof {
                    assert(strings_view(ready@) =~= strings_view(before_ready).push(p[i as int].0));
                    assert(entry_paths(ready_entries(p.take(i + 1), now as int, w)) =~= entry_paths(
                        ready_entries(p.take(i as int), now as int, w),
                    ).push(p[i as int].0));
                }
            } else {
                kept.push((self.pending[i].0.clone(), self.pending[i].1));
                proof {
                    assert(pending_view(kept@) =~= pending_view(before_kept).push(p[i as int]));
                }
            }
            i = i + 1;
        }
        proof {
            assert(p.take(p.len() as int) =~= p);
            lemma_waiting_subsequence(p, now as int, w);
        }
        self.pending = kept;
        ready
    }

    /// Returns the number of pending paths.
    pub fn pending_count(&self) -> (n: usize)
        ensures
            n == self.pending().len(),
    {
        self.pending.len()
    }

    /// Returns true if there are no pending paths.
    pub fn is_empty(&self) -> (b: bool)
        ensures
            b == (self.pending().len() == 0),
    {
        self.pending.len() == 0
    }
}

/// Every waiting entry is an entry of the pending list, and waiting entries
/// keep their relative order, so distinctness carries over.
proof fn lemma_waiting_subsequence(p: Seq<(Seq<char>, int)>, now: int, w: int)
    ensures
        distinct_paths(p) ==> distinct_paths(waiting_entries(p, now, w)),
        forall|k: int|
            0 <= k < waiting_entries(p, now, w).len() ==> exists|m: int|
                0 <= m < p.len() && #[trigger] waiting_entries(p, now, w)[k] == p[m],
    decreases p.len(),
{
    if p.len() > 0 {
        let q = p.drop_last();
        lemma_waiting_subsequence(q, now, w);
        let r = waiting_entries(q, now, w);
        assert forall|k: int| 0 <= k < r.len() implies exists|m: int|
            0 <= m < p.len() && #[trigger] r[k] == p[m] by {
            let m = choose|m: int| 0 <= m < q.len() && r[k] == q[m];
            assert(p[m] == q[m]);
        }
        if distinct_paths(p) {
            assert(distinct_paths(q)) by {
                assert forall|i: int, j: int| 0 <= i < j < q.len() implies !path_eq(
                    #[trigger] q[i].0,
                    #[trigger] q[j].0,
                ) by {
                    assert(q[i] == p[i]);
                    assert(q[j] == p[j]);
                }
            }
            if !is_ready(p.last().1, now, w) {
                let s = r.push(p.last());
                assert forall|i: int, j: int| 0 <= i < j < s.len() implies !path_eq(
                    #[trigger] s[i].0,
                    #[trigger] s[j].0,
                ) by {
                    if j == s.len() - 1 {
                        let m = choose|m: int| 0 <= m < q.len() && r[i] == q[m];
                        assert(p[m] == r[i]);
                        assert(p[p.len() - 1] == s[j]);
                    } else {
                        assert(s[i] == r[i]);
                        assert(s[j] == r[j]);
                    }
                }
            }
        }
    }
}

/// A change registered at `t` is emitted by a flush at `now` exactly when the
/// debounce window has elapsed since `t`; otherwise the path stays pending
/// with time `t`.
pub proof fn law_register_then_flush(
    p: Seq<(Seq<char>, int)>,
    path: Seq<char>,
    t: int,
    now: int,
    w: int,
)
    requires
        distinct_paths(p),
    ensures
        ({
            let q = register_spec(p, path, t);
            let i = match find_entry(p, path) {
                Some(k) => k,
                None => p.len() as int,
            };
            &&& 0 <= i < q.len()
            &&& path_eq(q[i].0, path)
            &&& q[i].1 == t
            &&& is_ready(t, now, w) ==> ready_entries(q, now, w).contains(q[i])
            &&& !is_ready(t, now, w) ==> waiting_entries(q, now, w).contains(q[i])
        }),
{
    let q = register_spec(p, path, t);
    let i = match find_entry(p, path) {
        Some(k) => k,
        None => p.len() as int,
    };
    crate::path_model::lemma_path_order(path, path, path);
    lemma_entry_split(q, i, now, w);
}

/// Rapid writes coalesce: registering a path that is already pending adds
/// no entry, and the path's entry then holds the latest time.
pub proof fn law_register_coalesces(p: Seq<(Seq<char>, int)>, path: Seq<char>, t1: int, t2: int)
    ensures
        ({
            let q1 = register_spec(p, path, t1);
            let q2 = register_spec(q1, path, t2);
            &&& q1.len() == p.len() + (if find_entry(p, path) is Some {
                0int
            } else {
                1int
            })
            &&& q2.len() == q1.len()
            &&& find_entry(q1, path) matches Some(i) && q2[i].1 == t2 && path_eq(q2[i].0, path)
        }),
{
    let q1 = register_spec(p, path, t1);
    crate::path_model::lemma_path_order(path, path, path);
    let i = match find_entry(p, path) {
        Some(k) => k,
        None => p.len() as int,
    };
    assert(path_eq(q1[i].0, path));
    assert(find_entry(q1, path) is Some);
}

/// A flush at `now` emits exactly the pending paths whose debounce window has
/// elapsed, each once (no two emitted paths are the same path), and keeps
/// exactly the other entries pending.
pub proof fn law_flush_ready_exact(p: Seq<(Seq<char>, int)>, now: int, w: int)
    requires
        distinct_paths(p),
    ensures
        forall|path: Seq<char>|
            #[trigger] entry_paths(ready_entries(p, now, w)).contains(path) <==> exists|t: int|
                #[trigger] p.contains((path, t)) && is_ready(t, now, w),
        distinct_paths(ready_entries(p, now, w)),
        forall|e: (Seq<char>, int)| #[trigger]
            waiting_entries(p, now, w).contains(e) <==> (p.contains(e) && !is_ready(e.1, now, w)),
{
    lemma_split_members(p, now, w);
    let r = ready_entries(p, now, w);
    assert forall|path: Seq<char>| #[trigger] entry_paths(r).contains(path) <==> exists|t: int|
        #[trigger] p.contains((path, t)) && is_ready(t, now, w) by {
        if entry_paths(r).contains(path) {
            let i = choose|i: int| 0 <= i < entry_paths(r).len() && entry_paths(r)[i] == path;
            assert(r.contains(r[i]));
            assert(r[i] == (path, r[i].1));
            assert(p.contains((path, r[i].1)));
        }
        if exists|t: int| #[trigger] p.contains((path, t)) && is_ready(t, now, w) {
            let t = choose|t: int| #[trigger] p.contains((path, t)) && is_ready(t, now, w);
            assert(r.contains((path, t)));
            let i = choose|i: int| 0 <= i < r.len() && r[i] == (path, t);
            assert(entry_paths(r)[i] == path);
        }
    }
}

/// What the ready and waiting entries hold: the pending entries that are
/// ready, and those that are not; the ready ones keep distinct paths.
proof fn lemma_split_members(p: Seq<(Seq<char>, int)>, now: int, w: int)
    ensures
        forall|e: (Seq<char>, int)| #[trigger]
            ready_entries(p, now, w).contains(e) <==> (p.contains(e) && is_ready(e.1, now, w)),
        forall|e: (Seq<char>, int)| #[trigger]
            waiting_entries(p, now, w).contains(e) <==> (p.contains(e) && !is_ready(e.1, now, w)),
        distinct_paths(p) ==> distinct_paths(ready_entries(p, now, w)),
    decreases p.len(),
{
    if p.len() > 0 {
        let q = p.drop_last();
        let x = p.last();
        lemma_split_members(q, now, w);
        let r = ready_entries(q, now, w);
        let s = waiting_entries(q, now, w);
        assert forall|e: (Seq<char>, int)| #[trigger] p.contains(e) <==> (q.contains(e) || e == x) by {
            if p.contains(e) {
                let i = choose|i: int| 0 <= i < p.len() && p[i] == e;
                if i < q.len() {
                    assert(q[i] == e);
                }
            }
            if q.contains(e) {
                let i = choose|i: int| 0 <= i < q.len() && q[i] == e;
                assert(p[i] == e);
            }
            if e == x {
                assert(p[p.len() - 1] == e);
            }
        }
        lemma_push_contains(r, x);
        lemma_push_contains(s, x);
        if distinct_paths(p) && is_ready(x.1, now, w) {
            assert(distinct_paths(q)) by {
                assert forall|i: int, j: int| 0 <= i < j < q.len() implies !path_eq(
                    #[trigger] q[i].0,
                    #[trigger] q[j].0,
                ) by {
                    assert(q[i] == p[i]);
                    assert(q[j] == p[j]);
                }
            }
            let t = r.push(x);
            assert forall|i: int, j: int| 0 <= i < j < t.len() implies !path_eq(
                #[trigger] t[i].0,
                #[trigger] t[j].0,
            ) by {
                if j == t.len() - 1 {
                    assert(t[i] == r[i]);
                    assert(r.contains(r[i]));
                    let m = choose|m: int| 0 <= m < q.len() && q[m] == r[i];
                    assert(p[m] == r[i]);
                    assert(p[p.len() - 1] == t[j]);
                } else {
                    assert(t[i] == r[i]);
                    assert(t[j] == r[j]);
                }
            }
        } else if distinct_paths(p) {
            assert(distinct_paths(q)) by {
                assert forall|i: int, j: int| 0 <= i < j < q.len() implies !path_eq(
                    #[trigger] q[i].0,
                    #[trigger] q[j].0,
                ) by {
                    assert(q[i] == p[i]);
                    assert(q[j] == p[j]);
                }
            }
        }
    }
}

pub(crate) proof fn lemma_push_contains(r: Seq<(Seq<char>, int)>, x: (Seq<char>, int))
    ensures
        forall|e: (Seq<char>, int)| #[trigger] r.push(x).contains(e) <==> (r.contains(e) || e == x),
{
    let t = r.push(x);
    assert forall|e: (Seq<char>, int)| #[trigger] t.contains(e) <==> (r.contains(e) || e == x) by {
        if t.contains(e) {
            let i = choose|i: int| 0 <= i < t.len() && t[i] == e;
            if i < r.len() {
                assert(r[i] == e);
            }
        }
        if r.contains(e) {
            let i = choose|i: int| 0 <= i < r.len() && r[i] == e;
            assert(t[i] == e);
        }
        if e == x {
            assert(t[r.len() as int] == e);
        }
    }
}

proof fn lemma_entry_split(q: Seq<(Seq<char>, int)>, i: int, now: int, w: int)
    requires
        0 <= i < q.len(),
    ensures
        is_ready(q[i].1, now, w) ==> ready_entries(q, now, w).contains(q[i]),
        !is_ready(q[i].1, now, w) ==> waiting_entries(q, now, w).contains(q[i]),
    decreases q.len(),
{
    if i < q.len() - 1 {
        lemma_entry_split(q.drop_last(), i, now, w);
        let r1 = ready_entries(q.drop_last(), now, w);
        let r2 = waiting_entries(q.drop_last(), now, w);
        if is_ready(q[i].1, now, w) {
            let k = choose|k: int| 0 <= k < r1.len() && r1[k] == q.drop_last()[i];
            if is_ready(q.last().1, now, w) {
                assert(r1.push(q.last())[k] == q[i]);
            }
        } else {
            let k = choose|k: int| 0 <= k < r2.len() && r2[k] == q.drop_last()[i];
            if !is_ready(q.last().1, now, w) {
                assert(r2.push(q.last())[k] == q[i]);
            }
        }
    } else {
        let r1 = ready_entries(q.drop_last(), now, w);
        let r2 = waiting_entries(q.drop_last(), now, w);
        if is_ready(q[i].1, now, w) {
            assert(r1.push(q.last())[r1.len() as int] == q[i]);
        } else {
            assert(r2.push(q.last())[r2.len() as int] == q[i]);
        }
    }
}

} // verus!
