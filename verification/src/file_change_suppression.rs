//! Self-write suppression for file change events.
//!
//! When the editor saves a file, the filesystem watcher will detect that change
//! and potentially trigger a reload/merge flow. To avoid this, we temporarily
//! suppress file change events for paths we're about to write.
//!
//! The suppression is time-limited: if no FileChanged event arrives within the
//! TTL (default: 1 second), the suppression entry expires and future changes
//! are processed normally.
//!
//! The `*_at` methods take the current time as an argument; the methods
//! without it read the monotonic clock.

use vstd::prelude::*;
use crate::file_change_debouncer::{Timestamp, NANOS_PER_MILLI};
use crate::path_model::{path_eq, paths_equal};

verus! {

/// Default suppression TTL in milliseconds.
pub const DEFAULT_SUPPRESSION_TTL_MS: u64 = 1000;

/// Nanoseconds in `Duration::MAX` (`u64::MAX` seconds plus 999,999,999 ns).
pub const MAX_DURATION_NANOS: u128 = 18_446_744_073_709_551_615_999_999_999;

#[verifier::external_type_specification]
#[verifier::external_body]
pub struct ExInstant(std::time::Instant);

/// Reads the monotonic clock (`Instant::now`).
#[verifier::external_body]
fn instant_now() -> std::time::Instant {
    std::time::Instant::now()
}

/// Nanoseconds elapsed since `origin` on the monotonic clock
/// (`Instant::elapsed`, as nanoseconds). A `Duration` never exceeds
/// `Duration::MAX`, so neither does the result.
#[verifier::external_body]
fn nanos_since(origin: &std::time::Instant) -> (t: Timestamp)
    ensures
        t <= MAX_DURATION_NANOS,
{
    origin.elapsed().as_nanos()
}

/// Suppression entries: path and expiry time.
pub open spec fn entries_view(v: Seq<(String, Timestamp)>) -> Seq<(Seq<char>, int)> {
    v.map_values(|e: (String, Timestamp)| (e.0@, e.1 as int))
}

/// Entries still active at `now` (expiry strictly after `now`), in order.
pub open spec fn active_entries(e: Seq<(Seq<char>, int)>, now: int) -> Seq<(Seq<char>, int)>
    decreases e.len(),
{
    if e.len() == 0 {
        Seq::empty()
    } else {
        let r = active_entries(e.drop_last(), now);
        if now < e.last().1 {
            r.push(e.last())
        } else {
            r
        }
    }
}

/// Index of the entry for `path`, if any.
pub open spec fn entry_index(e: Seq<(Seq<char>, int)>, path: Seq<char>) -> Option<int> {
    if exists|i: int| 0 <= i < e.len() && path_eq(#[trigger] e[i].0, path) {
        Some(choose|i: int| 0 <= i < e.len() && path_eq(#[trigger] e[i].0, path))
    } else {
        None
    }
}

pub open spec fn distinct_entries(e: Seq<(Seq<char>, int)>) -> bool {
    forall|i: int, j: int|
        0 <= i < j < e.len() ==> !path_eq(#[trigger] e[i].0, #[trigger] e[j].0)
}

/// Entries after suppressing `path` until `expiry`: the path's entry gets the
/// new expiry (keeping its place and key), or a new entry is appended.
pub open spec fn suppress_spec(e: Seq<(Seq<char>, int)>, path: Seq<char>, expiry: int) -> Seq<
    (Seq<char>, int),
> {
    match entry_index(e, path) {
        Some(i) => e.update(i, (e[i].0, expiry)),
        None => e.push((path, expiry)),
    }
}

/// Entries after suppressing `path` at time `now` with a TTL of `ttl_ms`.
pub open spec fn suppress_at_spec(e: Seq<(Seq<char>, int)>, path: Seq<char>, now: int, ttl_ms: int) -> Seq<
    (Seq<char>, int),
> {
    suppress_spec(e, path, now + ttl_ms * 1_000_000)
}

/// Result of checking `path` at `now`: expired entries are dropped, then the
/// path's entry (if any) is removed; the event is suppressed when that entry
/// was still active.
pub open spec fn check_spec(e: Seq<(Seq<char>, int)>, path: Seq<char>, now: int) -> (
    bool,
    Seq<(Seq<char>, int)>,
) {
    let a = active_entries(e, now);
    match entry_index(a, path) {
        Some(i) => (now < a[i].1, a.remove(i)),
        None => (false, a),
    }
}

/// Registry of paths whose file change events should be suppressed.
///
/// Use `suppress()` before writing to a file, and `check()` when receiving a
/// FileChanged event. If `check()` returns true, the event should be ignored.
pub struct FileChangeSuppression {
    /// Path and expiry time of each suppression.
    suppressions: Vec<(String, Timestamp)>,
    /// TTL for suppression entries, in milliseconds.
    ttl_ms: u64,
    /// Origin of the clock readings.
    origin: std::time::Instant,
    /// The latest clock reading used, in nanoseconds after `origin`.
    last_reading: Timestamp,
}

impl FileChangeSuppression {
    /// Suppression entries with their expiry times, in nanoseconds after the
    /// registry's clock origin (the clock reading taken when it was created;
    /// an opaque `Instant`, of which the view keeps nothing else).
    pub closed spec fn entries(&self) -> Seq<(Seq<char>, int)> {
        entries_view(self.suppressions@)
    }

    /// The TTL in milliseconds.
    pub closed spec fn ttl(&self) -> int {
        self.ttl_ms as int
    }

    /// The latest clock reading the registry used (by `suppress`, `check`),
    /// in nanoseconds after its clock origin; readings never go back.
    pub closed spec fn clock(&self) -> int {
        self.last_reading as int
    }

    /// No path has two suppression entries, and the clock reading is one a
    /// `Duration` can hold.
    pub open spec fn wf(&self) -> bool {
        &&& distinct_entries(self.entries())
        &&& 0 <= self.clock() <= MAX_DURATION_NANOS
    }

    /// Creates a new suppression registry with the default TTL (1 second).
    pub fn new() -> (r: Self)
        ensures
            r.wf(),
            r.entries() == Seq::<(Seq<char>, int)>::empty(),
            r.ttl() == DEFAULT_SUPPRESSION_TTL_MS,
    {
        Self::with_ttl(DEFAULT_SUPPRESSION_TTL_MS)
    }

    /// Creates a new suppression registry with a custom TTL in milliseconds.
    pub fn with_ttl(ttl_ms: u64) -> (r: Self)
        ensures
            r.wf(),
            r.entries() == Seq::<(Seq<char>, int)>::empty(),
            r.ttl() == ttl_ms,
    {
        let r = FileChangeSuppression {
            suppressions: Vec::new(),
            ttl_ms,
            origin: instant_now(),
            last_reading: 0,
        };
        assert(r.entries() =~= Seq::<(Seq<char>, int)>::empty());
        r
    }

    /// Marks a path for suppression until `now` plus the TTL.
    pub fn suppress_at(&mut self, path: String, now: Timestamp)
        requires
            old(self).wf(),
            now as int + old(self).ttl() * 1_000_000 <= u128::MAX,
        ensures
            final(self).wf(),
            final(self).ttl() == old(self).ttl(),
            final(self).clock() == old(self).clock(),
            final(self).entries() == suppress_at_spec(
                old(self).entries(),
                path@,
                now as int,
                old(self).ttl(),
            ),
    {
        let expiry: Timestamp = now + (self.ttl_ms as u128) * NANOS_PER_MILLI;
        assert(expiry as int == now + self.ttl_ms * 1_000_000);
        let ghost e = self.entries();
        let ghost t0 = self.ttl_ms;
        let mut i: usize = 0;
        while i < self.suppressions.len()
            invariant
                i <= self.suppressions@.len(),
                e == entries_view(self.suppressions@),
                e == old(self).entries(),
                t0 == self.ttl_ms,
                t0 == old(self).ttl_ms,
                self.last_reading == old(self).last_reading,
                0 <= self.last_reading <= MAX_DURATION_NANOS,
                expiry as int == now + t0 * 1_000_000,
                distinct_entries(e),
                forall|k: int| 0 <= k < i ==> !path_eq(#[trigger] e[k].0, path@),
            decreases self.suppressions@.len() - i,
        {
            if paths_equal(self.suppressions[i].0.as_str(), path.as_str()) {
                proof {
                    assert(e[i as int].0 == self.suppressions@[i as int].0@);
                    assert(path_eq(e[i as int].0, path@));
                    let j = choose|j: int| 0 <= j < e.len() && path_eq(#[trigger] e[j].0, path@);
                    if j != i {
                        if j > i {
                            assert(path_eq(e[i as int].0, e[j].0));
                        }
                    }
                    assert(entry_index(e, path@) == Some(i as int));
                }
                let key = self.suppressions[i].0.clone();
                self.suppressions.set(i, (key, expiry));
                proof {
                    let q = self.entries();
                    assert(q =~= e.update(i as int, (e[i as int].0, expiry as int)));
                    assert forall|a: int, b: int| 0 <= a < b < q.len() implies !path_eq(
                        #[trigger] q[a].0,
                        #[trigger] q[b].0,
                    ) by {
                        assert(q[a].0 == e[a].0);
                        assert(q[b].0 == e[b].0);
                    }
                }
                return;
            }
            i = i + 1;
        }
        self.suppressions.push((path, expiry));
        proof {
            let q = self.entries();
            assert(q =~= e.push((path@, expiry as int)));
            assert forall|a: int, b: int| 0 <= a < b < q.len() implies !path_eq(
                #[trigger] q[a].0,
                #[trigger] q[b].0,
            ) by {
                if b < q.len() - 1 {
                    assert(q[b].0 == e[b].0);
                }
            }
        }
    }

    /// Marks a path for suppression, reading the clock.
    ///
    /// Call this immediately before writing to a file. The suppression will
    /// expire after the TTL if not consumed by a `check()` call.
    pub fn suppress(&mut self, path: String)
        requires
            old(self).wf(),
        ensures
            final(self).wf(),
            final(self).ttl() == old(self).ttl(),
            final(self).clock() >= old(self).clock(),
            final(self).entries() == suppress_at_spec(
                old(self).entries(),
                path@,
                final(self).clock(),
                old(self).ttl(),
            ),
    {
        let now = self.read_clock();
        assert(now as int + self.ttl_ms * 1_000_000 <= u128::MAX);
        self.suppress_at(path, now);
    }

    /// Reads the clock, never going back from the latest reading used, and
    /// records the reading.
    fn read_clock(&mut self) -> (now: Timestamp)
        requires
            old(self).wf(),
        ensures
            final(self).wf(),
            final(self).ttl() == old(self).ttl(),
            final(self).entries() == old(self).entries(),
            final(self).clock() >= old(self).clock(),
            now as int == final(self).clock(),
    {
        let reading = nanos_since(&self.origin);
        if reading > self.last_reading {
            self.last_reading = reading;
        }
        self.last_reading
    }

    /// Removes the entries that have expired at `now`.
    fn clean_expired(&mut self, now: Timestamp)
        requires
            old(self).wf(),
        ensures
            final(self).wf(),
            final(self).ttl() == old(self).ttl(),
            final(self).clock() == old(self).clock(),
            final(self).entries() == active_entries(old(self).entries(), now as int),
    {
        let ghost e = self.entries();
        let mut kept: Vec<(String, Timestamp)> = Vec::new();
        let mut i: usize = 0;
        assert(e.take(0) =~= Seq::<(Seq<char>, int)>::empty());
        while i < self.suppressions.len()
            invariant
                i <= self.suppressions@.len(),
                e == entries_view(self.suppressions@),
                self.last_reading == old(self).last_reading,
                self.ttl_ms == old(self).ttl_ms,
                entries_view(kept@) == active_entries(e.take(i as int), now as int),
            decreases self.suppressions@.len() - i,
        {
            let ghost before = kept@;
            proof {
                assert(e.take(i + 1).drop_last() =~= e.take(i as int));
                assert(e.take(i + 1).last() == e[i as int]);
            }
            if now < self.suppressions[i].1 {
                kept.push((self.suppressions[i].0.clone(), self.suppressions[i].1));
                assert(entries_view(kept@) =~= entries_view(before).push(e[i as int]));
            }
            i = i + 1;
        }
        proof {
            assert(e.take(e.len() as int) =~= e);
            lemma_active_distinct(e, now as int);
        }
        self.suppressions = kept;
    }

    /// Checks at `now` whether a file change event for `path` should be
    /// suppressed.
    ///
    /// Expired entries are cleaned up first. If the path is still suppressed,
    /// returns true and removes the entry (one-shot behavior).
    pub fn check_at(&mut self, path: &str, now: Timestamp) -> (suppressed: bool)
        requires
            old(self).wf(),
        ensures
            final(self).wf(),
            final(self).ttl() == old(self).ttl(),
            final(self).clock() == old(self).clock(),
            (suppressed, final(self).entries()) == check_spec(old(self).entries(), path@, now as int),
    {
        self.clean_expired(now);
        let ghost a = self.entries();
        let mut i: usize = 0;
        while i < self.suppressions.len()
            invariant
                i <= self.suppressions@.len(),
                self.ttl_ms == old(self).ttl_ms,
                self.last_reading == old(self).last_reading,
                0 <= self.last_reading <= MAX_DURATION_NANOS,
                a == active_entries(old(self).entries(), now as int),
                a == entries_view(self.suppressions@),
                distinct_entries(a),
                forall|k: int| 0 <= k < i ==> !path_eq(#[trigger] a[k].0, path@),
            decreases self.suppressions@.len() - i,
        {
            if paths_equal(self.suppressions[i].0.as_str(), path) {
                proof {
                    assert(a[i as int].0 == self.suppressions@[i as int].0@);
                    assert(path_eq(a[i as int].0, path@));
                    let j = choose|j: int| 0 <= j < a.len() && path_eq(#[trigger] a[j].0, path@);
                    if j > i {
                        assert(path_eq(a[i as int].0, a[j].0));
                    }
                    assert(entry_index(a, path@) == Some(i as int));
                }
                let entry = self.suppressions.remove(i);
                proof {
                    let q = self.entries();
                    assert(q =~= a.remove(i as int));
                    assert forall|x: int, y: int| 0 <= x < y < q.len() implies !path_eq(
                        #[trigger] q[x].0,
                        #[trigger] q[y].0,
                    ) by {
                        let ox = if x < i {
                            x
                        } else {
                            x + 1
                        };
                        let oy = if y < i {
                            y
                        } else {
                            y + 1
                        };
                        assert(q[x] == a[ox]);
                        assert(q[y] == a[oy]);
                    }
                }
                return now < entry.1;
            }
            i = i + 1;
        }
        false
    }

    /// Checks if a file change event should be suppressed, reading the clock.
    ///
    /// If the path was marked for suppression and the TTL hasn't expired,
    /// returns true and removes the suppression entry (one-shot behavior).
    /// Also cleans up expired entries opportunistically.
    pub fn check(&mut self, path: &str) -> (suppressed: bool)
        requires
            old(self).wf(),
        ensures
            final(self).wf(),
            final(self).ttl() == old(self).ttl(),
            final(self).clock() >= old(self).clock(),
            (suppressed, final(self).entries()) == check_spec(
                old(self).entries(),
                path@,
                final(self).clock(),
            ),
    {
        let now = self.read_clock();
        self.check_at(path, now)
    }

    /// Returns the number of suppression entries still active at `now`.
    pub fn active_count_at(&self, now: Timestamp) -> (n: usize)
        ensures
            n == active_entries(self.entries(), now as int).len(),
    {
        let ghost e = self.entries();
        let mut n: usize = 0;
        let mut i: usize = 0;
        assert(e.take(0) =~= Seq::<(Seq<char>, int)>::empty());
        while i < self.suppressions.len()
            invariant
                i <= self.suppressions@.len(),
                e == entries_view(self.suppressions@),
                n == active_entries(e.take(i as int), now as int).len(),
                n <= i,
            decreases self.suppressions@.len() - i,
        {
            proof {
                assert(e.take(i + 1).drop_last() =~= e.take(i as int));
                assert(e.take(i + 1).last() == e[i as int]);
            }
            if now < self.suppressions[i].1 {
                n = n + 1;
            }
            i = i + 1;
        }
        assert(e.take(e.len() as int) =~= e);
        n
    }

    /// Returns the number of active (non-expired) suppression entries,
    /// reading the clock.
    pub fn active_count(&self) -> (n: usize)
        requires
            self.wf(),
        ensures
            exists|now: int|
                self.clock() <= now <= MAX_DURATION_NANOS && n == #[trigger] active_entries(
                    self.entries(),
                    now,
                ).len(),
    {
        let reading = nanos_since(&self.origin);
        let now = if reading > self.last_reading {
            reading
        } else {
            self.last_reading
        };
        self.active_count_at(now)
    }
}

proof fn lemma_active_distinct(e: Seq<(Seq<char>, int)>, now: int)
    ensures
        distinct_entries(e) ==> distinct_entries(active_entries(e, now)),
        forall|k: int|
            0 <= k < active_entries(e, now).len() ==> exists|m: int|
                0 <= m < e.len() && #[trigger] active_entries(e, now)[k] == e[m],
    decreases e.len(),
{
    if e.len() > 0 {
        let q = e.drop_last();
        lemma_active_distinct(q, now);
        let r = active_entries(q, now);
        assert forall|k: int| 0 <= k < r.len() implies exists|m: int|
            0 <= m < e.len() && #[trigger] r[k] == e[m] by {
            let m = choose|m: int| 0 <= m < q.len() && r[k] == q[m];
            assert(e[m] == q[m]);
        }
        if distinct_entries(e) {
            assert(distinct_entries(q)) by {
                assert forall|i: int, j: int| 0 <= i < j < q.len() implies !path_eq(
                    #[trigger] q[i].0,
                    #[trigger] q[j].0,
                ) by {
                    assert(q[i] == e[i]);
                    assert(q[j] == e[j]);
                }
            }
            if now < e.last().1 {
                let s = r.push(e.last());
                assert forall|i: int, j: int| 0 <= i < j < s.len() implies !path_eq(
                    #[trigger] s[i].0,
                    #[trigger] s[j].0,
                ) by {
                    if j == s.len() - 1 {
                        let m = choose|m: int| 0 <= m < q.len() && r[i] == q[m];
                        assert(e[m] == r[i]);
                        assert(e[e.len() - 1] == s[j]);
                    } else {
                        assert(s[i] == r[i]);
                        assert(s[j] == r[j]);
                    }
                }
            }
        }
    }
}

/// Suppressing a path and then checking it before the TTL elapses reports the
/// event as suppressed and consumes the entry, so a second check reports it as
/// not suppressed.
pub proof fn law_suppress_then_check(
    e: Seq<(Seq<char>, int)>,
    path: Seq<char>,
    t: int,
    ttl_ns: int,
    now: int,
)
    requires
        distinct_entries(e),
        t <= now < t + ttl_ns,
    ensures
        check_spec(suppress_spec(e, path, t + ttl_ns), path, now).0,
        !check_spec(check_spec(suppress_spec(e, path, t + ttl_ns), path, now).1, path, now).0,
{
    let s = suppress_spec(e, path, t + ttl_ns);
    let i = match entry_index(e, path) {
        Some(k) => k,
        None => e.len() as int,
    };
    assert(path_eq(s[i].0, path));
    assert(s[i].1 == t + ttl_ns);
    lemma_suppress_distinct(e, path, t + ttl_ns);
    lemma_active_keeps(s, now, i);
    let a = active_entries(s, now);
    let k = choose|k: int| 0 <= k < a.len() && a[k] == s[i];
    lemma_active_distinct(s, now);
    assert(entry_index(a, path) is Some);
    let j = entry_index(a, path)->0;
    assert(path_eq(a[j].0, path));
    if j != k {
        assert(path_eq(a[j].0, a[k].0));
    }
    let after = a.remove(j);
    assert forall|x: int| 0 <= x < after.len() implies !path_eq(#[trigger] after[x].0, path) by {
        let ox = if x < j {
            x
        } else {
            x + 1
        };
        assert(after[x] == a[ox]);
        if path_eq(a[ox].0, path) {
            assert(path_eq(a[ox].0, a[j].0));
        }
    }
    lemma_active_subset_no_path(after, now, path);
}

proof fn lemma_active_all_live(e: Seq<(Seq<char>, int)>, now: int)
    ensures
        forall|k: int| 0 <= k < active_entries(e, now).len() ==> now < (#[trigger] active_entries(
            e,
            now,
        )[k]).1,
    decreases e.len(),
{
    if e.len() > 0 {
        lemma_active_all_live(e.drop_last(), now);
        let r = active_entries(e.drop_last(), now);
        let a = active_entries(e, now);
        assert forall|k: int| 0 <= k < a.len() implies now < (#[trigger] a[k]).1 by {
            if k < r.len() {
                assert(a[k] == r[k]);
            }
        }
    }
}

/// With clock readings: a path suppressed at reading `c1` and then checked at
/// a reading `c2` no earlier (as the registry's readings are) is reported
/// suppressed exactly when `c2` comes before `c1` plus the TTL.
pub proof fn law_suppress_then_check_clocked(
    e: Seq<(Seq<char>, int)>,
    path: Seq<char>,
    ttl_ms: int,
    c1: int,
    c2: int,
)
    requires
        distinct_entries(e),
        0 <= ttl_ms,
        c1 <= c2,
    ensures
        check_spec(suppress_at_spec(e, path, c1, ttl_ms), path, c2).0 <==> c2 < c1 + ttl_ms
            * 1_000_000,
{
    if c2 < c1 + ttl_ms * 1_000_000 {
        law_suppress_then_check(e, path, c1, ttl_ms * 1_000_000, c2);
    } else {
        law_expired_suppression_not_honored(e, path, c1, ttl_ms * 1_000_000, c2);
    }
}

/// A suppression is not honored once its TTL has elapsed: checking the path
/// at or after the expiry reports the event as not suppressed.
pub proof fn law_expired_suppression_not_honored(
    e: Seq<(Seq<char>, int)>,
    path: Seq<char>,
    t: int,
    ttl_ns: int,
    now: int,
)
    requires
        distinct_entries(e),
        t + ttl_ns <= now,
    ensures
        !check_spec(suppress_spec(e, path, t + ttl_ns), path, now).0,
{
    let s = suppress_spec(e, path, t + ttl_ns);
    let i = match entry_index(e, path) {
        Some(k) => k,
        None => e.len() as int,
    };
    assert(path_eq(s[i].0, path));
    assert(s[i].1 == t + ttl_ns);
    lemma_suppress_distinct(e, path, t + ttl_ns);
    lemma_active_distinct(s, now);
    lemma_active_all_live(s, now);
    let a = active_entries(s, now);
    assert forall|k: int| 0 <= k < a.len() implies !path_eq(#[trigger] a[k].0, path) by {
        let m = choose|m: int| 0 <= m < s.len() && a[k] == s[m];
        if path_eq(s[m].0, path) {
            if m != i {
                crate::path_model::lemma_path_order(s[m].0, path, s[i].0);
                if m < i {
                    assert(!path_eq(s[m].0, s[i].0));
                } else {
                    assert(!path_eq(s[i].0, s[m].0));
                }
            }
            assert(now < a[k].1);
        }
    }
}

/// Checking `path` at `now` reports the event suppressed exactly when the
/// path has an entry still active at `now`; afterwards the registry holds
/// exactly the entries still active at `now` of the other paths (the path's
/// entry is consumed whatever its state, and expired entries are dropped).
pub proof fn law_check_exact(e: Seq<(Seq<char>, int)>, path: Seq<char>, now: int)
    requires
        distinct_entries(e),
    ensures
        check_spec(e, path, now).0 <==> exists|i: int|
            0 <= i < e.len() && path_eq(#[trigger] e[i].0, path) && now < e[i].1,
        forall|x: (Seq<char>, int)| #[trigger]
            check_spec(e, path, now).1.contains(x) <==> (e.contains(x) && !path_eq(x.0, path)
                && now < x.1),
{
    lemma_active_members(e, now);
    lemma_active_distinct(e, now);
    lemma_active_all_live(e, now);
    let a = active_entries(e, now);
    match entry_index(a, path) {
        Some(i) => {
            assert(a.contains(a[i]));
            let j = choose|j: int| 0 <= j < e.len() && e[j] == a[i];
            assert(path_eq(e[j].0, path) && now < e[j].1);
            let b = a.remove(i);
            assert forall|x: (Seq<char>, int)| #[trigger] b.contains(x) <==> (a.contains(x)
                && !path_eq(x.0, path)) by {
                if b.contains(x) {
                    let k = choose|k: int| 0 <= k < b.len() && b[k] == x;
                    let ok = if k < i {
                        k
                    } else {
                        k + 1
                    };
                    assert(a[ok] == x);
                    if path_eq(x.0, path) {
                        assert(path_eq(a[ok].0, a[i].0));
                    }
                }
                if a.contains(x) && !path_eq(x.0, path) {
                    let k = choose|k: int| 0 <= k < a.len() && a[k] == x;
                    assert(k != i);
                    let bk = if k < i {
                        k
                    } else {
                        k - 1
                    };
                    assert(b[bk] == x);
                }
            }
        },
        None => {
            if exists|j: int| 0 <= j < e.len() && path_eq(#[trigger] e[j].0, path) && now < e[j].1 {
                let j = choose|j: int|
                    0 <= j < e.len() && path_eq(#[trigger] e[j].0, path) && now < e[j].1;
                lemma_active_keeps(e, now, j);
                let k = choose|k: int| 0 <= k < a.len() && a[k] == e[j];
                assert(path_eq(a[k].0, path));
            }
            assert forall|x: (Seq<char>, int)| #[trigger] a.contains(x) implies !path_eq(x.0, path) by {
                let k = choose|k: int| 0 <= k < a.len() && a[k] == x;
                assert(!path_eq(a[k].0, path));
            }
        },
    }
}

/// The active entries are the entries still active at `now`.
proof fn lemma_active_members(e: Seq<(Seq<char>, int)>, now: int)
    ensures
        forall|x: (Seq<char>, int)| #[trigger]
            active_entries(e, now).contains(x) <==> (e.contains(x) && now < x.1),
    decreases e.len(),
{
    if e.len() > 0 {
        let q = e.drop_last();
        let y = e.last();
        lemma_active_members(q, now);
        crate::file_change_debouncer::lemma_push_contains(active_entries(q, now), y);
        assert forall|x: (Seq<char>, int)| #[trigger] e.contains(x) <==> (q.contains(x) || x == y) by {
            if e.contains(x) {
                let i = choose|i: int| 0 <= i < e.len() && e[i] == x;
                if i < q.len() {
                    assert(q[i] == x);
                }
            }
            if q.contains(x) {
                let i = choose|i: int| 0 <= i < q.len() && q[i] == x;
                assert(e[i] == x);
            }
            if x == y {
                assert(e[e.len() - 1] == x);
            }
        }
    }
}

proof fn lemma_suppress_distinct(e: Seq<(Seq<char>, int)>, path: Seq<char>, x: int)
    requires
        distinct_entries(e),
    ensures
        distinct_entries(suppress_spec(e, path, x)),
{
    let s = suppress_spec(e, path, x);
    match entry_index(e, path) {
        Some(i) => {
            assert forall|a: int, b: int| 0 <= a < b < s.len() implies !path_eq(
                #[trigger] s[a].0,
                #[trigger] s[b].0,
            ) by {
                assert(s[a].0 == e[a].0);
                assert(s[b].0 == e[b].0);
            }
        },
        None => {
            assert forall|a: int, b: int| 0 <= a < b < s.len() implies !path_eq(
                #[trigger] s[a].0,
                #[trigger] s[b].0,
            ) by {
                if b < e.len() {
                    assert(s[b] == e[b]);
                } else {
                    assert(!path_eq(e[a].0, path));
                }
                assert(s[a] == e[a]);
            }
        },
    }
}

proof fn lemma_active_keeps(e: Seq<(Seq<char>, int)>, now: int, i: int)
    requires
        0 <= i < e.len(),
        now < e[i].1,
    ensures
        active_entries(e, now).contains(e[i]),
    decreases e.len(),
{
    let r = active_entries(e.drop_last(), now);
    if i < e.len() - 1 {
        lemma_active_keeps(e.drop_last(), now, i);
        let k = choose|k: int| 0 <= k < r.len() && r[k] == e.drop_last()[i];
        if now < e.last().1 {
            assert(r.push(e.last())[k] == e[i]);
        }
    } else {
        assert(r.push(e.last())[r.len() as int] == e[i]);
    }
}

proof fn lemma_active_subset_no_path(e: Seq<(Seq<char>, int)>, now: int, path: Seq<char>)
    requires
        forall|x: int| 0 <= x < e.len() ==> !path_eq(#[trigger] e[x].0, path),
    ensures
        entry_index(active_entries(e, now), path) is None,
{
    lemma_active_distinct(e, now);
    let a = active_entries(e, now);
    assert forall|k: int| 0 <= k < a.len() implies !path_eq(#[trigger] a[k].0, path) by {
        let m = choose|m: int| 0 <= m < e.len() && a[k] == e[m];
        assert(!path_eq(e[m].0, path));
    }
}

impl Default for FileChangeSuppression {
    /// A registry with the default TTL (1 second).
    fn default() -> (r: Self)
        ensures
            r.wf(),
            r.entries() == Seq::<(Seq<char>, int)>::empty(),
            r.ttl() == DEFAULT_SUPPRESSION_TTL_MS,
    {
        Self::new()
    }
}

} // verus!
