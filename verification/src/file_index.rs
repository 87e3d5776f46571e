//! The path cache and recency list behind the fuzzy file picker.
//!
//! The cache holds the relative paths discovered under the index root, kept
//! sorted by path order. The recency list holds the files opened most
//! recently, most recent first. Queries are answered from these two lists:
//!
//! - an empty query lists recently opened files first (score `u32::MAX`),
//!   then the other cached paths in path order (score 1);
//! - a non-empty query scores every cached path against its file name and its
//!   whole path and lists the matches by descending score, then path order.
//!
//! Walking the directory tree, watching the file system and persisting the
//! recency list are done by the caller, which feeds the results in here.

use vstd::prelude::*;
use crate::path_model::{
    path_eq, path_lt, path_excluded, file_name, components, comps_prefix, stripped_path,
    relative_to, join_relative, paths_equal, compare_paths, PathOrder, file_name_of,
    make_relative, strip_path_prefix, chars_of, string_from_chars, lemma_path_order,
};
use crate::fuzzy::{
    lowercase, filename_score, path_score, utf8_len, to_lowercase, scorable,
    MAX_QUERY_CHARS,
};
pub use crate::path_model::is_excluded;
pub use crate::fuzzy::{score_match, score_path_match, find_match_positions};
use crate::file_change_debouncer::{strings_view, register_spec, FileChangeDebouncer, Timestamp};

verus! {

broadcast use vstd::seq_lib::group_to_multiset_ensures;

/// Maximum number of entries in the recency list.
pub const MAX_RECENCY_ENTRIES: usize = 50;

/// A result from a fuzzy file query.
#[derive(Debug, Clone, PartialEq, Eq)]
pub struct MatchResult {
    /// Path relative to the index root.
    pub path: String,
    /// Match score (higher is better).
    pub score: u32,
}

pub open spec fn results_view(v: Seq<MatchResult>) -> Seq<(Seq<char>, int)> {
    v.map_values(|m: MatchResult| (m.path@, m.score as int))
}

// =============================================================================
// Sequences of paths
// =============================================================================

/// Some path of `s` is equal to `p`.
pub open spec fn has_path(s: Seq<Seq<char>>, p: Seq<char>) -> bool {
    exists|i: int| 0 <= i < s.len() && path_eq(#[trigger] s[i], p)
}

/// `s` is in non-decreasing path order.
pub open spec fn sorted_paths(s: Seq<Seq<char>>) -> bool {
    forall|i: int, j: int| 0 <= i < j < s.len() ==> !path_lt(#[trigger] s[j], #[trigger] s[i])
}

/// First index from `i` whose path sorts strictly after `x`.
pub open spec fn upper_bound_from(s: Seq<Seq<char>>, x: Seq<char>, i: int) -> int
    decreases s.len() - i,
{
    if i < 0 || i >= s.len() {
        s.len() as int
    } else if path_lt(x, s[i]) {
        i
    } else {
        upper_bound_from(s, x, i + 1)
    }
}

/// `s` with `x` inserted after every path that does not sort after it.
pub open spec fn sorted_insert(s: Seq<Seq<char>>, x: Seq<char>) -> Seq<Seq<char>> {
    s.insert(upper_bound_from(s, x, 0), x)
}

/// `s` with every path equal to `p` removed.
pub open spec fn without_path(s: Seq<Seq<char>>, p: Seq<char>) -> Seq<Seq<char>>
    decreases s.len(),
{
    if s.len() == 0 {
        Seq::empty()
    } else {
        let r = without_path(s.drop_last(), p);
        if path_eq(s.last(), p) {
            r
        } else {
            r.push(s.last())
        }
    }
}

proof fn lemma_upper_bound(s: Seq<Seq<char>>, x: Seq<char>, i: int)
    requires
        0 <= i <= s.len(),
    ensures
        i <= upper_bound_from(s, x, i) <= s.len(),
        forall|k: int| i <= k < upper_bound_from(s, x, i) ==> !path_lt(x, #[trigger] s[k]),
        upper_bound_from(s, x, i) < s.len() ==> path_lt(x, s[upper_bound_from(s, x, i)]),
    decreases s.len() - i,
{
    if i < s.len() && !path_lt(x, s[i]) {
        lemma_upper_bound(s, x, i + 1);
    }
}

proof fn lemma_upper_bound_exact(s: Seq<Seq<char>>, x: Seq<char>, i: int, k: int)
    requires
        0 <= i <= k <= s.len(),
        forall|m: int| i <= m < k ==> !path_lt(x, #[trigger] s[m]),
        k == s.len() || path_lt(x, s[k]),
    ensures
        upper_bound_from(s, x, i) == k,
    decreases k - i,
{
    if i < k {
        lemma_upper_bound_exact(s, x, i + 1, k);
    }
}

/// Inserting in sorted position keeps a sorted sequence sorted.
pub proof fn lemma_sorted_insert(s: Seq<Seq<char>>, x: Seq<char>)
    requires
        sorted_paths(s),
    ensures
        sorted_paths(sorted_insert(s, x)),
        sorted_insert(s, x).to_multiset() == s.to_multiset().insert(x),
{
    let k = upper_bound_from(s, x, 0);
    lemma_upper_bound(s, x, 0);
    let r = sorted_insert(s, x);
    assert forall|i: int, j: int| 0 <= i < j < r.len() implies !path_lt(
        #[trigger] r[j],
        #[trigger] r[i],
    ) by {
        if j < k {
            assert(r[i] == s[i] && r[j] == s[j]);
        } else if j == k {
            assert(r[j] == x);
            assert(r[i] == s[i]);
        } else if i == k {
            assert(r[i] == x);
            assert(r[j] == s[j - 1]);
            lemma_path_order(s[j - 1], x, s[k]);
            if j - 1 > k {
                assert(!path_lt(s[j - 1], s[k]));
            }
        } else if i < k {
            assert(r[i] == s[i]);
            assert(r[j] == s[j - 1]);
        } else {
            assert(r[i] == s[i - 1]);
            assert(r[j] == s[j - 1]);
        }
    }
}

/// Returns true if some path of `v` is equal to `p`.
pub fn contains_path(v: &Vec<String>, p: &str) -> (r: bool)
    ensures
        r == has_path(strings_view(v@), p@),
{
    let ghost s = strings_view(v@);
    let mut i: usize = 0;
    while i < v.len()
        invariant
            i <= v@.len(),
            s == strings_view(v@),
            forall|k: int| 0 <= k < i ==> !path_eq(#[trigger] s[k], p@),
        decreases v@.len() - i,
    {
        if paths_equal(v[i].as_str(), p) {
            assert(s[i as int] == v@[i as int]@);
            return true;
        }
        i = i + 1;
    }
    false
}

/// Inserts `x` into the sorted vector `v`, after every path that does not sort
/// after it.
pub fn insert_sorted(v: &mut Vec<String>, x: String)
    ensures
        strings_view(final(v)@) == sorted_insert(strings_view(old(v)@), x@),
{
    let ghost s = strings_view(v@);
    let mut i: usize = 0;
    while i < v.len() && compare_paths(x.as_str(), v[i].as_str()) != PathOrder::Less
        invariant
            i <= v@.len(),
            s == strings_view(v@),
            s == strings_view(old(v)@),
            forall|k: int| 0 <= k < i ==> !path_lt(x@, #[trigger] s[k]),
        decreases v@.len() - i,
    {
        assert(s[i as int] == v@[i as int]@);
        i = i + 1;
    }
    proof {
        if i < v@.len() {
            assert(s[i as int] == v@[i as int]@);
        }
        lemma_upper_bound_exact(s, x@, 0, i as int);
    }
    let ghost xv = x@;
    v.insert(i, x);
    assert(strings_view(v@) =~= s.insert(i as int, xv));
}

/// Removes every path equal to `p` from `v`.
pub fn remove_path(v: &mut Vec<String>, p: &str)
    ensures
        strings_view(final(v)@) == without_path(strings_view(old(v)@), p@),
{
    let ghost s = strings_view(v@);
    let mut kept: Vec<String> = Vec::new();
    let mut i: usize = 0;
    assert(s.take(0) =~= Seq::<Seq<char>>::empty());
    while i < v.len()
        invariant
            i <= v@.len(),
            s == strings_view(v@),
            s == strings_view(old(v)@),
            strings_view(kept@) == without_path(s.take(i as int), p@),
        decreases v@.len() - i,
    {
        proof {
            assert(s.take(i + 1).drop_last() =~= s.take(i as int));
            assert(s.take(i + 1).last() == s[i as int]);
            assert(s[i as int] == v@[i as int]@);
        }
        if !paths_equal(v[i].as_str(), p) {
            let ghost before = strings_view(kept@);
            kept.push(v[i].clone());
            assert(strings_view(kept@) =~= before.push(s[i as int]));
        }
        i = i + 1;
    }
    assert(s.take(s.len() as int) =~= s);
    *v = kept;
}

// =============================================================================
// Queries
// =============================================================================

/// Recent files that are in the cache and not excluded, in recency order.
pub open spec fn recency_hits(rec: Seq<Seq<char>>, cache: Seq<Seq<char>>) -> Seq<Seq<char>>
    decreases rec.len(),
{
    if rec.len() == 0 {
        Seq::empty()
    } else {
        let r = recency_hits(rec.drop_last(), cache);
        if has_path(cache, rec.last()) && !path_excluded(rec.last()) {
            r.push(rec.last())
        } else {
            r
        }
    }
}

/// Cached paths that are neither among `seen` nor excluded, in cache order.
pub open spec fn remaining_paths(cache: Seq<Seq<char>>, seen: Seq<Seq<char>>) -> Seq<Seq<char>>
    decreases cache.len(),
{
    if cache.len() == 0 {
        Seq::empty()
    } else {
        let r = remaining_paths(cache.drop_last(), seen);
        if !has_path(seen, cache.last()) && !path_excluded(cache.last()) {
            r.push(cache.last())
        } else {
            r
        }
    }
}

pub open spec fn with_score(s: Seq<Seq<char>>, score: int) -> Seq<(Seq<char>, int)> {
    s.map_values(|p: Seq<char>| (p, score))
}

/// Results of an empty query: recent hits with score `u32::MAX`, then the
/// remaining cached paths with score 1.
pub open spec fn empty_query_results(cache: Seq<Seq<char>>, rec: Seq<Seq<char>>) -> Seq<
    (Seq<char>, int),
> {
    let hits = recency_hits(rec, cache);
    with_score(hits, u32::MAX as int) + with_score(remaining_paths(cache, hits), 1)
}

pub open spec fn sat_u32(x: int) -> int {
    if x > u32::MAX {
        u32::MAX as int
    } else {
        x
    }
}

/// Final score of `path` for the lower-case query `q`: the file-name score
/// counts double (saturating) and the path score is added (saturating); a
/// path matching only one way gets that score alone.
pub open spec fn combined_score(q: Seq<char>, path: Seq<char>) -> Option<int> {
    let fs = match file_name(path) {
        Some(n) => filename_score(q, lowercase(n), utf8_len(n) as int),
        None => None,
    };
    let ps = path_score(q, lowercase(path));
    match (fs, ps) {
        (Some(f), Some(p)) => Some(sat_u32(sat_u32(2 * f) + p)),
        (Some(f), None) => Some(sat_u32(2 * f)),
        (None, Some(p)) => Some(p),
        (None, None) => None,
    }
}

/// How a path's final score is made from its file-name score `f` and its
/// whole-path score `p` (each as the fuzzy scorer gives it for the lower-cased
/// name or path): with both, `2 * f` capped at `u32::MAX`, plus `p`, capped
/// again; with only a file-name match, `2 * f` capped; with only a path
/// match, `p`; with neither, no score.
pub proof fn law_combined_score_doubles_file_name(q: Seq<char>, path: Seq<char>)
    ensures
        ({
            let fs = match file_name(path) {
                Some(n) => filename_score(q, lowercase(n), utf8_len(n) as int),
                None => None,
            };
            let ps = path_score(q, lowercase(path));
            match (fs, ps) {
                (Some(f), Some(p)) => {
                    let doubled = if 2 * f > u32::MAX { u32::MAX as int } else { 2 * f };
                    combined_score(q, path) == Some(
                        if doubled + p > u32::MAX { u32::MAX as int } else { doubled + p },
                    )
                },
                (Some(f), None) => combined_score(q, path) == Some(
                    if 2 * f > u32::MAX { u32::MAX as int } else { 2 * f },
                ),
                (None, Some(p)) => combined_score(q, path) == Some(p),
                (None, None) => combined_score(q, path) is None,
            }
        }),
{
}

/// Non-excluded cached paths that match `q`, with their scores, in cache order.
pub open spec fn scored_paths(cache: Seq<Seq<char>>, q: Seq<char>) -> Seq<(Seq<char>, int)>
    decreases cache.len(),
{
    if cache.len() == 0 {
        Seq::empty()
    } else {
        let r = scored_paths(cache.drop_last(), q);
        let p = cache.last();
        if !path_excluded(p) && combined_score(q, p) is Some {
            r.push((p, combined_score(q, p)->0))
        } else {
            r
        }
    }
}

/// Result `a` is listed before result `b`: higher score first, then path order.
pub open spec fn result_before(a: (Seq<char>, int), b: (Seq<char>, int)) -> bool {
    a.1 > b.1 || (a.1 == b.1 && path_lt(a.0, b.0))
}

pub open spec fn sorted_results(r: Seq<(Seq<char>, int)>) -> bool {
    forall|i: int, j: int| 0 <= i < j < r.len() ==> !result_before(#[trigger] r[j], #[trigger] r[i])
}

proof fn lemma_result_order(a: (Seq<char>, int), b: (Seq<char>, int), c: (Seq<char>, int))
    ensures
        !result_before(a, a),
        result_before(a, b) && result_before(b, c) ==> result_before(a, c),
{
    lemma_path_order(a.0, b.0, c.0);
}

pub open spec fn result_upper_bound_from(s: Seq<(Seq<char>, int)>, x: (Seq<char>, int), i: int) -> int
    decreases s.len() - i,
{
    if i < 0 || i >= s.len() {
        s.len() as int
    } else if result_before(x, s[i]) {
        i
    } else {
        result_upper_bound_from(s, x, i + 1)
    }
}

proof fn lemma_result_upper_bound(s: Seq<(Seq<char>, int)>, x: (Seq<char>, int), i: int)
    requires
        0 <= i <= s.len(),
    ensures
        i <= result_upper_bound_from(s, x, i) <= s.len(),
        forall|k: int|
            i <= k < result_upper_bound_from(s, x, i) ==> !result_before(x, #[trigger] s[k]),
        result_upper_bound_from(s, x, i) < s.len() ==> result_before(
            x,
            s[result_upper_bound_from(s, x, i)],
        ),
    decreases s.len() - i,
{
    if i < s.len() && !result_before(x, s[i]) {
        lemma_result_upper_bound(s, x, i + 1);
    }
}

fn result_is_before(a: &MatchResult, b: &MatchResult) -> (r: bool)
    ensures
        r == result_before((a.path@, a.score as int), (b.path@, b.score as int)),
{
    if a.score != b.score {
        a.score > b.score
    } else {
        compare_paths(a.path.as_str(), b.path.as_str()) == PathOrder::Less
    }
}

/// Inserts `x` into the sorted results `v`, after every result not listed
/// after it.
fn insert_result(v: &mut Vec<MatchResult>, x: MatchResult)
    requires
        sorted_results(results_view(old(v)@)),
    ensures
        sorted_results(results_view(final(v)@)),
        results_view(final(v)@).to_multiset() == results_view(old(v)@).to_multiset().insert(
            (x.path@, x.score as int),
        ),
{
    let ghost s = results_view(v@);
    let ghost xv = (x.path@, x.score as int);
    let mut i: usize = 0;
    while i < v.len() && !result_is_before(&x, &v[i])
        invariant
            i <= v@.len(),
            s == results_view(v@),
            s == results_view(old(v)@),
            xv == (x.path@, x.score as int),
            forall|k: int| 0 <= k < i ==> !result_before(xv, #[trigger] s[k]),
        decreases v@.len() - i,
    {
        i = i + 1;
    }
    let ghost k = i as int;
    v.insert(i, x);
    let ghost r = results_view(v@);
    assert(r =~= s.insert(k, xv));
    assert forall|a: int, b: int| 0 <= a < b < r.len() implies !result_before(
        #[trigger] r[b],
        #[trigger] r[a],
    ) by {
        if b < k {
            assert(r[a] == s[a] && r[b] == s[b]);
        } else if b == k {
            assert(r[b] == xv);
            assert(r[a] == s[a]);
        } else if a == k {
            assert(r[a] == xv);
            assert(r[b] == s[b - 1]);
            assert(result_before(xv, s[k]));
            lemma_result_order(s[b - 1], xv, s[k]);
            lemma_result_order(s[k], s[k], s[k]);
            if b - 1 > k {
                assert(!result_before(s[b - 1], s[k]));
            }
        } else if a < k {
            assert(r[a] == s[a]);
            assert(r[b] == s[b - 1]);
        } else {
            assert(r[a] == s[a - 1]);
            assert(r[b] == s[b - 1]);
        }
    }
}

/// `2 * x`, saturating at `u32::MAX` (`u32::saturating_mul(x, 2)`).
fn double_saturating(x: u32) -> (r: u32)
    ensures
        r as int == sat_u32(2 * x),
{
    if x > u32::MAX / 2 {
        u32::MAX
    } else {
        x * 2
    }
}

/// Computes the final score of `path` for the lower-case query `q`.
fn combined_score_of(q: &str, path: &str) -> (r: Option<u32>)
    requires
        path_scorable(q@, path@),
    ensures
        match r {
            Some(s) => combined_score(q@, path@) == Some(s as int),
            None => combined_score(q@, path@) is None,
        },
{
    let name = file_name_of(path);
    let filename_score_opt = match &name {
        Some(n) => score_match(q, n.as_str()),
        None => None,
    };
    let path_score_opt = score_path_match(q, path);
    match (filename_score_opt, path_score_opt) {
        (Some(fs), Some(ps)) => Some(double_saturating(fs).saturating_add(ps)),
        (Some(fs), None) => Some(double_saturating(fs)),
        (None, Some(ps)) => Some(ps),
        (None, None) => None,
    }
}

/// The scores of the lower-case query `q` for `path`, for its file name and
/// for the whole path, fit in a `u32` (see `scorable`).
pub open spec fn path_scorable(q: Seq<char>, path: Seq<char>) -> bool {
    &&& scorable(q, lowercase(path))
    &&& file_name(path) matches Some(n) ==> scorable(q, lowercase(n))
}

/// The lower-case query `q` can be scored against every cached path that is
/// not excluded: it is at most `MAX_QUERY_CHARS` long, or longer than each
/// such path's lower-cased form and file name, which it then cannot match.
pub open spec fn query_scorable(q: Seq<char>, cache: Seq<Seq<char>>) -> bool {
    forall|i: int|
        0 <= i < cache.len() && !path_excluded(cache[i]) ==> #[trigger] path_scorable(q, cache[i])
}

/// Returns whether the scores of the lower-case query `q` for `path` fit in
/// a `u32`.
fn fits_scoring(q: &str, path: &str) -> (b: bool)
    ensures
        b == path_scorable(q@, path@),
{
    let qn = chars_of(q).len();
    if qn <= MAX_QUERY_CHARS {
        return true;
    }
    let lowered = to_lowercase(path);
    if qn <= chars_of(lowered.as_str()).len() {
        return false;
    }
    match file_name_of(path) {
        Some(n) => {
            let name_lower = to_lowercase(n.as_str());
            qn > chars_of(name_lower.as_str()).len()
        },
        None => true,
    }
}

/// The recency list after selecting `rel`: `rel` in front, every other entry
/// equal to it removed, cut to `MAX_RECENCY_ENTRIES` entries.
pub open spec fn recorded(rec: Seq<Seq<char>>, rel: Seq<char>) -> Seq<Seq<char>> {
    let r = seq![rel] + without_path(rec, rel);
    if r.len() > MAX_RECENCY_ENTRIES {
        r.take(MAX_RECENCY_ENTRIES as int)
    } else {
        r
    }
}

proof fn lemma_without_path_concat(a: Seq<Seq<char>>, b: Seq<Seq<char>>, p: Seq<char>)
    ensures
        without_path(a + b, p) == without_path(a, p) + without_path(b, p),
    decreases b.len(),
{
    if b.len() == 0 {
        assert(a + b =~= a);
        assert(without_path(a, p) + without_path(b, p) =~= without_path(a, p));
    } else {
        lemma_without_path_concat(a, b.drop_last(), p);
        assert((a + b).drop_last() =~= a + b.drop_last());
        assert((a + b).last() == b.last());
        if !path_eq(b.last(), p) {
            assert(without_path(a, p) + without_path(b.drop_last(), p).push(b.last()) =~= (
            without_path(a, p) + without_path(b.drop_last(), p)).push(b.last()));
        }
    }
}

proof fn lemma_without_absent(s: Seq<Seq<char>>, p: Seq<char>)
    requires
        forall|k: int| 0 <= k < s.len() ==> !path_eq(#[trigger] s[k], p),
    ensures
        without_path(s, p) == s,
    decreases s.len(),
{
    if s.len() > 0 {
        lemma_without_absent(s.drop_last(), p);
        assert(s.drop_last().push(s.last()) =~= s);
    }
}

proof fn lemma_recency_hits_members(rec: Seq<Seq<char>>, cache: Seq<Seq<char>>)
    ensures
        forall|k: int|
            0 <= k < recency_hits(rec, cache).len() ==> has_path(cache, #[trigger] recency_hits(rec, cache)[k])
                && !path_excluded(recency_hits(rec, cache)[k]),
    decreases rec.len(),
{
    if rec.len() > 0 {
        lemma_recency_hits_members(rec.drop_last(), cache);
        let r = recency_hits(rec.drop_last(), cache);
        let w = recency_hits(rec, cache);
        assert forall|k: int| 0 <= k < w.len() implies has_path(cache, #[trigger] w[k])
            && !path_excluded(w[k]) by {
            if k < r.len() {
                assert(w[k] == r[k]);
            } else {
                assert(w[k] == rec.last());
            }
        }
    }
}

proof fn lemma_remaining_members(cache: Seq<Seq<char>>, seen: Seq<Seq<char>>)
    ensures
        forall|k: int|
            0 <= k < remaining_paths(cache, seen).len() ==> (exists|i: int|
                0 <= i < cache.len() && cache[i] == #[trigger] remaining_paths(cache, seen)[k])
                && !path_excluded(remaining_paths(cache, seen)[k]),
    decreases cache.len(),
{
    if cache.len() > 0 {
        let q = cache.drop_last();
        lemma_remaining_members(q, seen);
        let r = remaining_paths(q, seen);
        assert forall|k: int| 0 <= k < r.len() implies exists|i: int|
            0 <= i < cache.len() && cache[i] == #[trigger] r[k] by {
            let i = choose|i: int| 0 <= i < q.len() && q[i] == r[k];
            assert(cache[i] == q[i]);
        }
        let w = remaining_paths(cache, seen);
        assert forall|k: int| 0 <= k < w.len() implies exists|i: int|
            0 <= i < cache.len() && cache[i] == #[trigger] w[k] by {
            if k < r.len() {
                assert(w[k] == r[k]);
            } else {
                assert(w[k] == cache[cache.len() - 1]);
            }
        }
    }
}

proof fn lemma_scored_members(cache: Seq<Seq<char>>, q: Seq<char>)
    ensures
        forall|k: int|
            0 <= k < scored_paths(cache, q).len() ==> (exists|i: int|
                0 <= i < cache.len() && cache[i] == (#[trigger] scored_paths(cache, q)[k]).0)
                && !path_excluded(scored_paths(cache, q)[k].0) && combined_score(
                q,
                scored_paths(cache, q)[k].0,
            ) == Some(scored_paths(cache, q)[k].1),
    decreases cache.len(),
{
    if cache.len() > 0 {
        let c = cache.drop_last();
        lemma_scored_members(c, q);
        let r = scored_paths(c, q);
        let w = scored_paths(cache, q);
        assert forall|k: int| 0 <= k < w.len() implies exists|i: int|
            0 <= i < cache.len() && cache[i] == (#[trigger] w[k]).0 by {
            if k < r.len() {
                assert(w[k] == r[k]);
                let i = choose|i: int| 0 <= i < c.len() && c[i] == r[k].0;
                assert(cache[i] == c[i]);
            } else {
                assert(w[k].0 == cache[cache.len() - 1]);
            }
        }
    }
}

proof fn lemma_member_has_path(s: Seq<Seq<char>>, i: int)
    requires
        0 <= i < s.len(),
    ensures
        has_path(s, s[i]),
{
    assert(path_eq(s[i], s[i]));
}

/// Whatever the query, only cached paths that are not excluded are listed
/// (no dotfiles or dot-directories, nothing under `target` or
/// `node_modules`); a non-empty query lists each with its combined score.
pub proof fn law_results_are_cached_and_not_excluded(
    cache: Seq<Seq<char>>,
    rec: Seq<Seq<char>>,
    q: Seq<char>,
)
    ensures
        forall|k: int|
            0 <= k < empty_query_results(cache, rec).len() ==> has_path(
                cache,
                (#[trigger] empty_query_results(cache, rec)[k]).0,
            ) && !path_excluded(empty_query_results(cache, rec)[k].0),
        forall|k: int|
            0 <= k < scored_paths(cache, q).len() ==> has_path(
                cache,
                (#[trigger] scored_paths(cache, q)[k]).0,
            ) && !path_excluded(scored_paths(cache, q)[k].0) && combined_score(
                q,
                scored_paths(cache, q)[k].0,
            ) == Some(scored_paths(cache, q)[k].1),
{
    let hits = recency_hits(rec, cache);
    let rem = remaining_paths(cache, hits);
    lemma_recency_hits_members(rec, cache);
    lemma_remaining_members(cache, hits);
    lemma_scored_members(cache, q);
    let e = empty_query_results(cache, rec);
    assert forall|k: int| 0 <= k < e.len() implies has_path(cache, (#[trigger] e[k]).0)
        && !path_excluded(e[k].0) by {
        if k < hits.len() {
            assert(e[k] == (hits[k], u32::MAX as int));
        } else {
            assert(e[k] == (rem[k - hits.len()], 1int));
            let i = choose|i: int| 0 <= i < cache.len() && cache[i] == rem[k - hits.len()];
            lemma_member_has_path(cache, i);
        }
    }
    let sp = scored_paths(cache, q);
    assert forall|k: int| 0 <= k < sp.len() implies has_path(cache, (#[trigger] sp[k]).0) by {
        let i = choose|i: int| 0 <= i < cache.len() && cache[i] == sp[k].0;
        lemma_member_has_path(cache, i);
    }
}

/// A non-empty query lists exactly the cached paths that are not excluded and
/// match the query (by file name or by whole path), each with its combined
/// score; when no path is cached twice, each is listed once.
pub proof fn law_fuzzy_query_exact(
    cache: Seq<Seq<char>>,
    q: Seq<char>,
    r: Seq<(Seq<char>, int)>,
)
    requires
        r.to_multiset() == scored_paths(cache, q).to_multiset(),
    ensures
        forall|x: (Seq<char>, int)| #[trigger]
            r.contains(x) <==> (cache.contains(x.0) && !path_excluded(x.0) && combined_score(q, x.0)
                == Some(x.1)),
        cache.no_duplicates() ==> forall|i: int, j: int|
            0 <= i < j < r.len() ==> (#[trigger] r[i]).0 != (#[trigger] r[j]).0,
{
    let sp = scored_paths(cache, q);
    lemma_scored_exact(cache, q);
    assert forall|x: (Seq<char>, int)| #[trigger] r.contains(x) <==> sp.contains(x) by {
        vstd::seq_lib::to_multiset_contains(r, x);
        vstd::seq_lib::to_multiset_contains(sp, x);
    }
    if cache.no_duplicates() {
        assert forall|i: int, j: int| 0 <= i < j < r.len() implies (#[trigger] r[i]).0 != (
        #[trigger] r[j]).0 by {
            if r[i].0 == r[j].0 {
                assert(r.contains(r[i]));
                assert(r.contains(r[j]));
                assert(r[i] == r[j]);
                lemma_count_two(r, i, j);
                lemma_count_at_most_one(sp, r[i]);
            }
        }
    }
}

/// The scored paths are exactly the cached, non-excluded, matching paths
/// with their scores; with no path cached twice, no path is scored twice.
proof fn lemma_scored_exact(cache: Seq<Seq<char>>, q: Seq<char>)
    ensures
        forall|x: (Seq<char>, int)| #[trigger]
            scored_paths(cache, q).contains(x) <==> (cache.contains(x.0) && !path_excluded(x.0)
                && combined_score(q, x.0) == Some(x.1)),
        cache.no_duplicates() ==> forall|i: int, j: int|
            0 <= i < j < scored_paths(cache, q).len() ==> (#[trigger] scored_paths(cache, q)[i]).0
                != (#[trigger] scored_paths(cache, q)[j]).0,
    decreases cache.len(),
{
    if cache.len() > 0 {
        let c = cache.drop_last();
        let p = cache.last();
        lemma_scored_exact(c, q);
        let r = scored_paths(c, q);
        let w = scored_paths(cache, q);
        assert forall|y: Seq<char>| #[trigger] cache.contains(y) <==> (c.contains(y) || y == p) by {
            if cache.contains(y) {
                let i = choose|i: int| 0 <= i < cache.len() && cache[i] == y;
                if i < c.len() {
                    assert(c[i] == y);
                }
            }
            if c.contains(y) {
                let i = choose|i: int| 0 <= i < c.len() && c[i] == y;
                assert(cache[i] == y);
            }
            if y == p {
                assert(cache[cache.len() - 1] == y);
            }
        }
        if !path_excluded(p) && combined_score(q, p) is Some {
            let x0 = (p, combined_score(q, p)->0);
            assert forall|x: (Seq<char>, int)| #[trigger] w.contains(x) <==> (r.contains(x) || x == x0) by {
                if w.contains(x) {
                    let i = choose|i: int| 0 <= i < w.len() && w[i] == x;
                    if i < r.len() {
                        assert(r[i] == x);
                    }
                }
                if r.contains(x) {
                    let i = choose|i: int| 0 <= i < r.len() && r[i] == x;
                    assert(w[i] == x);
                }
                if x == x0 {
                    assert(w[r.len() as int] == x);
                }
            }
            if cache.no_duplicates() {
                assert(c.no_duplicates()) by {
                    assert forall|i: int, j: int| 0 <= i < c.len() && 0 <= j < c.len() && i != j implies c[i] != c[j] by {
                        assert(c[i] == cache[i]);
                        assert(c[j] == cache[j]);
                    }
                }
                assert(!c.contains(p)) by {
                    if c.contains(p) {
                        let i = choose|i: int| 0 <= i < c.len() && c[i] == p;
                        assert(cache[i] == cache[cache.len() - 1]);
                    }
                }
                assert forall|i: int, j: int| 0 <= i < j < w.len() implies (#[trigger] w[i]).0 != (
                #[trigger] w[j]).0 by {
                    assert(w[i] == r[i]);
                    if j < r.len() {
                        assert(w[j] == r[j]);
                    } else {
                        assert(r.contains(r[i]));
                    }
                }
            }
        } else {
            if cache.no_duplicates() {
                assert(c.no_duplicates()) by {
                    assert forall|i: int, j: int| 0 <= i < c.len() && 0 <= j < c.len() && i != j implies c[i] != c[j] by {
                        assert(c[i] == cache[i]);
                        assert(c[j] == cache[j]);
                    }
                }
            }
        }
    }
}

/// An element that stands at two places of a sequence counts at least twice.
proof fn lemma_count_two(s: Seq<(Seq<char>, int)>, i: int, j: int)
    requires
        0 <= i < j < s.len(),
        s[i] == s[j],
    ensures
        s.to_multiset().count(s[i]) >= 2,
    decreases s.len(),
{
    let t = s.drop_last();
    assert(s =~= t.push(s.last()));
    vstd::seq_lib::to_multiset_build(t, s.last());
    if j == s.len() - 1 {
        assert(t[i] == s[i]);
        assert(t.contains(s[i]));
        vstd::seq_lib::to_multiset_contains(t, s[i]);
    } else {
        assert(t[i] == s[i]);
        assert(t[j] == s[j]);
        lemma_count_two(t, i, j);
    }
}

/// In a sequence whose entries have different paths, nothing counts twice.
proof fn lemma_count_at_most_one(s: Seq<(Seq<char>, int)>, x: (Seq<char>, int))
    requires
        forall|i: int, j: int| 0 <= i < j < s.len() ==> (#[trigger] s[i]).0 != (#[trigger] s[j]).0,
    ensures
        s.to_multiset().count(x) <= 1,
    decreases s.len(),
{
    if s.len() > 0 {
        let t = s.drop_last();
        assert(s =~= t.push(s.last()));
        vstd::seq_lib::to_multiset_build(t, s.last());
        assert forall|i: int, j: int| 0 <= i < j < t.len() implies (#[trigger] t[i]).0 != (
        #[trigger] t[j]).0 by {
            assert(t[i] == s[i]);
            assert(t[j] == s[j]);
        }
        lemma_count_at_most_one(t, x);
        if s.last() == x {
            vstd::seq_lib::to_multiset_contains(t, x);
            if t.contains(x) {
                let k = choose|k: int| 0 <= k < t.len() && t[k] == x;
                assert(s[k] == t[k]);
                assert(s[s.len() - 1] == x);
            }
        }
    } else {
        assert(s.to_multiset() =~= vstd::multiset::Multiset::empty());
    }
}

/// After a selection is recorded it is the most recent entry, no other entry
/// is equal to it, and the list holds at most `MAX_RECENCY_ENTRIES` entries;
/// recording the same selection again changes nothing.
pub proof fn law_record_selection(rec: Seq<Seq<char>>, rel: Seq<char>)
    ensures
        recorded(rec, rel).len() >= 1,
        recorded(rec, rel)[0] == rel,
        recorded(rec, rel).len() <= MAX_RECENCY_ENTRIES,
        forall|k: int| 1 <= k < recorded(rec, rel).len() ==> !path_eq(#[trigger] recorded(rec, rel)[k], rel),
        recorded(recorded(rec, rel), rel) == recorded(rec, rel),
{
    let w = without_path(rec, rel);
    lemma_without_path(rec, rel);
    let full = seq![rel] + w;
    let r = recorded(rec, rel);
    assert(r.len() >= 1 && r[0] == rel);
    assert forall|k: int| 1 <= k < r.len() implies !path_eq(#[trigger] r[k], rel) by {
        assert(r[k] == full[k]);
        assert(full[k] == w[k - 1]);
    }
    let tail = r.drop_first();
    assert(r =~= seq![rel] + tail);
    assert forall|k: int| 0 <= k < tail.len() implies !path_eq(#[trigger] tail[k], rel) by {
        assert(tail[k] == r[k + 1]);
    }
    lemma_without_absent(tail, rel);
    lemma_without_path_concat(seq![rel], tail, rel);
    assert(seq![rel].drop_last() =~= Seq::<Seq<char>>::empty());
    assert(components(rel) == components(rel));
    assert(path_eq(rel, rel));
    assert(without_path(Seq::<Seq<char>>::empty(), rel) =~= Seq::<Seq<char>>::empty());
    assert(seq![rel].last() == rel);
    assert(without_path(seq![rel], rel) =~= Seq::<Seq<char>>::empty());
    assert(seq![rel] + without_path(r, rel) =~= r) by {
        assert(without_path(r, rel) == without_path(seq![rel], rel) + without_path(tail, rel));
    }
}

// =============================================================================
// File system events
// =============================================================================

/// The kind of a file system event, as the watcher reports it.
#[derive(Debug, Clone, Copy, PartialEq, Eq, Structural)]
pub enum FsEventKind {
    /// A file or directory was created.
    Create,
    /// A file or directory was removed.
    Remove,
    /// A rename whose event carries both paths, `[from, to]`.
    RenameBoth,
    /// A rename reported one path at a time (source, target or either).
    RenameOther,
    /// The content of a file changed.
    ModifyContent,
    /// Some other modification (metadata and the like).
    ModifyOther,
    /// Any other event.
    Other,
}

/// A path named by a file system event, with what the file system showed of
/// it when the event was handled.
#[derive(Debug, Clone, PartialEq, Eq)]
pub struct FsEventPath {
    /// The absolute path.
    pub path: String,
    /// The path is a regular file.
    pub is_file: bool,
    /// Something exists at the path.
    pub exists: bool,
}

/// A callback to run for a file system event (without debouncing).
#[derive(Debug, Clone, PartialEq, Eq)]
pub enum FileEvent {
    /// A file was deleted (absolute path).
    Deleted(String),
    /// A file was renamed (absolute paths, from and to).
    Renamed(String, String),
}

pub enum FileEventView {
    Deleted(Seq<char>),
    Renamed(Seq<char>, Seq<char>),
}

pub open spec fn file_event_view(e: FileEvent) -> FileEventView {
    match e {
        FileEvent::Deleted(p) => FileEventView::Deleted(p@),
        FileEvent::Renamed(a, b) => FileEventView::Renamed(a@, b@),
    }
}

pub open spec fn events_view(v: Seq<FileEvent>) -> Seq<FileEventView> {
    v.map_values(|e: FileEvent| file_event_view(e))
}

pub open spec fn fs_paths_view(v: Seq<FsEventPath>) -> Seq<(Seq<char>, bool, bool)> {
    v.map_values(|p: FsEventPath| (p.path@, p.is_file, p.exists))
}

/// What handling a file system event does: the new cache, whether it
/// changed, the callbacks to run, and the debouncer's pending changes.
pub struct FsState {
    pub cache: Seq<Seq<char>>,
    pub changed: bool,
    pub events: Seq<FileEventView>,
    pub pending: Seq<(Seq<char>, int)>,
    /// A rename carrying both paths was already handled for this event.
    pub renamed: bool,
}

/// A rename event carrying both paths: the source leaves the cache, the target
/// joins it when it is a non-excluded file not yet cached, and the rename
/// callback runs.
pub open spec fn rename_both_step(st: FsState, root: Seq<char>, paths: Seq<(Seq<char>, bool, bool)>) -> FsState {
    let from = paths[0];
    let to = paths[1];
    let st1 = if comps_prefix(components(root), components(from.0)) && comps_prefix(
        components(root),
        components(to.0),
    ) {
        let fr = stripped_path(from.0, root);
        let tr = stripped_path(to.0, root);
        if !path_excluded(fr) || !path_excluded(tr) {
            let c1 = without_path(st.cache, fr);
            let c2 = if to.1 && !path_excluded(tr) && !has_path(c1, tr) {
                sorted_insert(c1, tr)
            } else {
                c1
            };
            FsState { cache: c2, changed: true, ..st }
        } else {
            st
        }
    } else {
        st
    };
    FsState { events: st1.events.push(FileEventView::Renamed(from.0, to.0)), ..st1 }
}

/// Handling of the `i`-th path of an event of kind `kind`. Paths outside the
/// root and excluded paths are skipped.
pub open spec fn fs_step(
    st: FsState,
    root: Seq<char>,
    kind: FsEventKind,
    paths: Seq<(Seq<char>, bool, bool)>,
    i: int,
    now: int,
) -> FsState {
    let p = paths[i];
    if !comps_prefix(components(root), components(p.0)) {
        st
    } else {
        let rel = stripped_path(p.0, root);
        if path_excluded(rel) {
            st
        } else {
            match kind {
                FsEventKind::Create => if p.1 && !has_path(st.cache, rel) {
                    FsState { cache: sorted_insert(st.cache, rel), changed: true, ..st }
                } else {
                    st
                },
                FsEventKind::Remove => FsState {
                    cache: without_path(st.cache, rel),
                    changed: true,
                    events: st.events.push(FileEventView::Deleted(p.0)),
                    ..st
                },
                FsEventKind::RenameBoth => if paths.len() >= 2 && !st.renamed {
                    FsState { renamed: true, ..rename_both_step(st, root, paths) }
                } else {
                    st
                },
                FsEventKind::RenameOther => if p.2 && p.1 {
                    if !has_path(st.cache, rel) {
                        FsState { cache: sorted_insert(st.cache, rel), changed: true, ..st }
                    } else {
                        st
                    }
                } else {
                    let c = without_path(st.cache, rel);
                    FsState { cache: c, changed: st.changed || c.len() != st.cache.len(), ..st }
                },
                FsEventKind::ModifyContent => FsState {
                    pending: register_spec(st.pending, p.0, now),
                    ..st
                },
                _ => st,
            }
        }
    }
}

/// Handling of the first `n` paths of an event.
pub open spec fn fs_fold(
    st: FsState,
    root: Seq<char>,
    kind: FsEventKind,
    paths: Seq<(Seq<char>, bool, bool)>,
    n: int,
    now: int,
) -> FsState
    decreases n,
{
    if n <= 0 {
        st
    } else {
        fs_step(fs_fold(st, root, kind, paths, n - 1, now), root, kind, paths, n - 1, now)
    }
}

/// A rename reported one path at a time, whose path is an existing file under
/// the root that is not excluded (the target of the rename), puts that file in
/// the cache, keeps every path that was cached, and reports a change when the
/// file was not cached before.
pub proof fn law_rename_target_joins_cache(
    cache: Seq<Seq<char>>,
    pending: Seq<(Seq<char>, int)>,
    root: Seq<char>,
    path: Seq<char>,
    now: int,
)
    requires
        comps_prefix(components(root), components(path)),
        !path_excluded(stripped_path(path, root)),
    ensures
        ({
            let st = fs_fold(
                FsState {
                    cache,
                    changed: false,
                    events: Seq::empty(),
                    pending,
                    renamed: false,
                },
                root,
                FsEventKind::RenameOther,
                seq![(path, true, true)],
                1,
                now,
            );
            let rel = stripped_path(path, root);
            &&& has_path(st.cache, rel)
            &&& forall|k: int| 0 <= k < cache.len() ==> has_path(st.cache, #[trigger] cache[k])
            &&& !has_path(cache, rel) ==> st.changed
        }),
{
    let init = FsState { cache, changed: false, events: Seq::empty(), pending, renamed: false };
    let paths = seq![(path, true, true)];
    assert(fs_fold(init, root, FsEventKind::RenameOther, paths, 0, now) == init);
    let st = fs_fold(init, root, FsEventKind::RenameOther, paths, 1, now);
    let rel = stripped_path(path, root);
    assert(paths[0] == (path, true, true));
    assert(path_eq(rel, rel));
    if has_path(cache, rel) {
        assert(st.cache == cache);
        assert forall|k: int| 0 <= k < cache.len() implies has_path(st.cache, #[trigger] cache[k]) by {
            assert(path_eq(cache[k], cache[k]));
        }
    } else {
        let u = upper_bound_from(cache, rel, 0);
        lemma_upper_bound(cache, rel, 0);
        assert(st.cache == cache.insert(u, rel));
        assert(st.cache[u] == rel);
        assert forall|k: int| 0 <= k < cache.len() implies has_path(st.cache, #[trigger] cache[k]) by {
            assert(path_eq(cache[k], cache[k]));
            if k < u {
                assert(st.cache[k] == cache[k]);
            } else {
                assert(st.cache[k + 1] == cache[k]);
            }
        }
    }
}

/// A removal, or a rename reported one path at a time whose path no longer
/// holds a file (the source of the rename), under the root and not excluded,
/// takes that path out of the cache; every cached path equal to another one
/// stays, and a removal always reports a change.
pub proof fn law_removed_path_leaves_cache(
    cache: Seq<Seq<char>>,
    pending: Seq<(Seq<char>, int)>,
    root: Seq<char>,
    path: Seq<char>,
    is_file: bool,
    exists: bool,
    kind: FsEventKind,
    now: int,
)
    requires
        comps_prefix(components(root), components(path)),
        !path_excluded(stripped_path(path, root)),
        kind == FsEventKind::Remove || (kind == FsEventKind::RenameOther && !(exists && is_file)),
    ensures
        ({
            let st = fs_fold(
                FsState {
                    cache,
                    changed: false,
                    events: Seq::empty(),
                    pending,
                    renamed: false,
                },
                root,
                kind,
                seq![(path, is_file, exists)],
                1,
                now,
            );
            let rel = stripped_path(path, root);
            &&& !has_path(st.cache, rel)
            &&& forall|k: int|
                0 <= k < cache.len() && !path_eq(#[trigger] cache[k], rel) ==> has_path(
                    st.cache,
                    cache[k],
                )
            &&& kind == FsEventKind::Remove ==> st.changed
        }),
{
    let init = FsState { cache, changed: false, events: Seq::empty(), pending, renamed: false };
    let paths = seq![(path, is_file, exists)];
    assert(fs_fold(init, root, kind, paths, 0, now) == init);
    let st = fs_fold(init, root, kind, paths, 1, now);
    let rel = stripped_path(path, root);
    assert(paths[0] == (path, is_file, exists));
    assert(st.cache == without_path(cache, rel));
    lemma_without_path(cache, rel);
    lemma_without_path_keeps(cache, rel);
    assert forall|k: int|
        0 <= k < cache.len() && !path_eq(#[trigger] cache[k], rel) implies has_path(
        st.cache,
        cache[k],
    ) by {
        let m = choose|m: int| 0 <= m < st.cache.len() && st.cache[m] == cache[k];
        assert(path_eq(st.cache[m], cache[k]));
    }
}

/// Every path not equal to `p` stays when `p` is removed.
proof fn lemma_without_path_keeps(s: Seq<Seq<char>>, p: Seq<char>)
    ensures
        forall|k: int|
            0 <= k < s.len() && !path_eq(#[trigger] s[k], p) ==> without_path(s, p).contains(s[k]),
    decreases s.len(),
{
    if s.len() > 0 {
        let q = s.drop_last();
        lemma_without_path_keeps(q, p);
        let r = without_path(q, p);
        assert forall|k: int|
            0 <= k < s.len() && !path_eq(#[trigger] s[k], p) implies without_path(s, p).contains(
            s[k],
        ) by {
            if k < q.len() {
                assert(q[k] == s[k]);
                let m = choose|m: int| 0 <= m < r.len() && r[m] == q[k];
                if !path_eq(s.last(), p) {
                    assert(r.push(s.last())[m] == s[k]);
                }
            } else {
                assert(r.push(s.last())[r.len() as int] == s[k]);
            }
        }
    }
}

/// Removing paths keeps a sorted sequence sorted, and keeps only its members.
pub proof fn lemma_without_path(s: Seq<Seq<char>>, p: Seq<char>)
    ensures
        sorted_paths(s) ==> sorted_paths(without_path(s, p)),
        without_path(s, p).len() <= s.len(),
        forall|k: int|
            0 <= k < without_path(s, p).len() ==> exists|m: int|
                0 <= m < s.len() && #[trigger] without_path(s, p)[k] == s[m],
        forall|k: int| 0 <= k < without_path(s, p).len() ==> !path_eq(#[trigger] without_path(s, p)[k], p),
    decreases s.len(),
{
    if s.len() > 0 {
        let q = s.drop_last();
        lemma_without_path(q, p);
        let r = without_path(q, p);
        assert forall|k: int| 0 <= k < r.len() implies exists|m: int|
            0 <= m < s.len() && #[trigger] r[k] == s[m] by {
            let m = choose|m: int| 0 <= m < q.len() && r[k] == q[m];
            assert(s[m] == q[m]);
        }
        if !path_eq(s.last(), p) {
            let w = r.push(s.last());
            assert forall|k: int| 0 <= k < w.len() implies exists|m: int|
                0 <= m < s.len() && #[trigger] w[k] == s[m] by {
                if k < r.len() {
                    let m = choose|m: int| 0 <= m < s.len() && r[k] == s[m];
                    assert(w[k] == r[k]);
                } else {
                    assert(w[k] == s[s.len() - 1]);
                }
            }
        }
        if sorted_paths(s) {
            assert(sorted_paths(q)) by {
                assert forall|i: int, j: int| 0 <= i < j < q.len() implies !path_lt(
                    #[trigger] q[j],
                    #[trigger] q[i],
                ) by {
                    assert(q[i] == s[i] && q[j] == s[j]);
                }
            }
            if !path_eq(s.last(), p) {
                let w = r.push(s.last());
                assert forall|i: int, j: int| 0 <= i < j < w.len() implies !path_lt(
                    #[trigger] w[j],
                    #[trigger] w[i],
                ) by {
                    if j == w.len() - 1 {
                        let m = choose|m: int| 0 <= m < q.len() && r[i] == q[m];
                        assert(w[i] == s[m]);
                        assert(w[j] == s[s.len() - 1]);
                    } else {
                        assert(w[i] == r[i] && w[j] == r[j]);
                    }
                }
            }
        }
    }
}

/// Shared state of a file index: the path cache and the recency list.
pub struct SharedState {
    /// Cached relative paths, in path order.
    cache: Vec<String>,
    /// Recent file selections, most recent first.
    recency: Vec<String>,
}

impl SharedState {
    /// The cached paths.
    pub closed spec fn cache_view(&self) -> Seq<Seq<char>> {
        strings_view(self.cache@)
    }

    /// The recency list, most recent first.
    pub closed spec fn recency_view(&self) -> Seq<Seq<char>> {
        strings_view(self.recency@)
    }

    /// The cache is kept in path order.
    pub open spec fn wf(&self) -> bool {
        sorted_paths(self.cache_view())
    }

    /// Creates the state with an empty cache and the given recency list.
    pub fn new(recency: Vec<String>) -> (s: Self)
        ensures
            s.wf(),
            s.cache_view() == Seq::<Seq<char>>::empty(),
            s.recency_view() == strings_view(recency@),
    {
        let s = SharedState { cache: Vec::new(), recency };
        assert(s.cache_view() =~= Seq::<Seq<char>>::empty());
        s
    }

    /// The recency list, most recent first (what is persisted to disk).
    pub fn recency(&self) -> (r: &Vec<String>)
        ensures
            strings_view(r@) == self.recency_view(),
    {
        &self.recency
    }

    /// The cached paths, in path order.
    pub fn cache(&self) -> (r: &Vec<String>)
        ensures
            strings_view(r@) == self.cache_view(),
    {
        &self.cache
    }

    /// Returns true if the cache holds a path equal to `path`.
    pub fn contains(&self, path: &str) -> (r: bool)
        ensures
            r == has_path(self.cache_view(), path@),
    {
        contains_path(&self.cache, path)
    }

    /// Adds a batch of discovered paths to the cache, keeping it in path order.
    pub fn add_paths(&mut self, batch: Vec<String>)
        requires
            old(self).wf(),
        ensures
            final(self).wf(),
            final(self).recency_view() == old(self).recency_view(),
            final(self).cache_view().to_multiset() == old(self).cache_view().to_multiset().add(
                strings_view(batch@).to_multiset(),
            ),
    {
        let ghost b = strings_view(batch@);
        let ghost c0 = self.cache_view();
        let mut i: usize = 0;
        assert(b.take(0) =~= Seq::<Seq<char>>::empty());
        while i < batch.len()
            invariant
                i <= batch@.len(),
                b == strings_view(batch@),
                self.wf(),
                self.recency_view() == old(self).recency_view(),
                c0 == old(self).cache_view(),
                self.cache_view().to_multiset() == c0.to_multiset().add(b.take(i as int).to_multiset()),
            decreases batch@.len() - i,
        {
            let ghost before = self.cache_view();
            proof {
                lemma_sorted_insert(before, b[i as int]);
                assert(b.take(i + 1) =~= b.take(i as int).push(b[i as int]));
                assert(batch@[i as int]@ == b[i as int]);
            }
            insert_sorted(&mut self.cache, batch[i].clone());
            i = i + 1;
        }
        assert(b.take(b.len() as int) =~= b);
    }

    /// Results of the empty query: recent files first (score `u32::MAX`),
    /// then the other cached paths in path order (score 1).
    fn query_empty(&self) -> (r: Vec<MatchResult>)
        ensures
            results_view(r@) == empty_query_results(self.cache_view(), self.recency_view()),
    {
        let ghost cache = self.cache_view();
        let ghost rec = self.recency_view();
        let mut results: Vec<MatchResult> = Vec::new();
        let mut seen: Vec<String> = Vec::new();
        let mut i: usize = 0;
        assert(rec.take(0) =~= Seq::<Seq<char>>::empty());
        while i < self.recency.len()
            invariant
                i <= self.recency@.len(),
                rec == self.recency_view(),
                cache == self.cache_view(),
                strings_view(seen@) == recency_hits(rec.take(i as int), cache),
                results_view(results@) == with_score(strings_view(seen@), u32::MAX as int),
            decreases self.recency@.len() - i,
        {
            let path = &self.recency[i];
            proof {
                assert(rec.take(i + 1).drop_last() =~= rec.take(i as int));
                assert(rec.take(i + 1).last() == rec[i as int]);
                assert(rec[i as int] == path@);
            }
            if self.contains(path.as_str()) && !is_excluded(path.as_str()) {
                let ghost s0 = strings_view(seen@);
                let ghost r0 = results_view(results@);
                seen.push(path.clone());
                results.push(MatchResult { path: path.clone(), score: u32::MAX });
                assert(strings_view(seen@) =~= s0.push(path@));
                assert(results_view(results@) =~= r0.push((path@, u32::MAX as int)));
                assert(with_score(strings_view(seen@), u32::MAX as int) =~= with_score(
                    s0,
                    u32::MAX as int,
                ).push((path@, u32::MAX as int)));
            }
            i = i + 1;
        }
        assert(rec.take(rec.len() as int) =~= rec);
        let ghost hits = strings_view(seen@);
        let ghost head = results_view(results@);
        let mut j: usize = 0;
        assert(cache.take(0) =~= Seq::<Seq<char>>::empty());
        assert(head + with_score(remaining_paths(cache.take(0), hits), 1) =~= head);
        while j < self.cache.len()
            invariant
                j <= self.cache@.len(),
                cache == self.cache_view(),
                hits == strings_view(seen@),
                results_view(results@) == head + with_score(remaining_paths(cache.take(j as int), hits), 1),
            decreases self.cache@.len() - j,
        {
            let path = &self.cache[j];
            proof {
                assert(cache.take(j + 1).drop_last() =~= cache.take(j as int));
                assert(cache.take(j + 1).last() == cache[j as int]);
                assert(cache[j as int] == path@);
            }
            if !contains_path(&seen, path.as_str()) && !is_excluded(path.as_str()) {
                let ghost r0 = results_view(results@);
                let ghost rem0 = remaining_paths(cache.take(j as int), hits);
                results.push(MatchResult { path: path.clone(), score: 1 });
                assert(results_view(results@) =~= r0.push((path@, 1)));
                assert(with_score(rem0.push(path@), 1) =~= with_score(rem0, 1).push((path@, 1)));
                assert(head + with_score(rem0.push(path@), 1) =~= (head + with_score(rem0, 1)).push(
                    (path@, 1),
                ));
            }
            j = j + 1;
        }
        assert(cache.take(cache.len() as int) =~= cache);
        results
    }

    /// Results of a non-empty lower-case query: matching non-excluded paths,
    /// by descending score then path order.
    fn query_fuzzy(&self, q: &str) -> (r: Vec<MatchResult>)
        requires
            query_scorable(q@, self.cache_view()),
        ensures
            sorted_results(results_view(r@)),
            results_view(r@).to_multiset() == scored_paths(self.cache_view(), q@).to_multiset(),
    {
        let ghost cache = self.cache_view();
        let mut results: Vec<MatchResult> = Vec::new();
        let mut i: usize = 0;
        assert(cache.take(0) =~= Seq::<Seq<char>>::empty());
        assert(scored_paths(Seq::<Seq<char>>::empty(), q@) =~= Seq::<(Seq<char>, int)>::empty());
        assert(results_view(results@) =~= Seq::<(Seq<char>, int)>::empty());
        while i < self.cache.len()
            invariant
                i <= self.cache@.len(),
                query_scorable(q@, cache),
                cache == self.cache_view(),
                sorted_results(results_view(results@)),
                results_view(results@).to_multiset() == scored_paths(cache.take(i as int), q@).to_multiset(),
            decreases self.cache@.len() - i,
        {
            let path = &self.cache[i];
            proof {
                assert(cache.take(i + 1).drop_last() =~= cache.take(i as int));
                assert(cache.take(i + 1).last() == cache[i as int]);
                assert(cache[i as int] == path@);
            }
            if !is_excluded(path.as_str()) {
                assert(path_scorable(q@, cache[i as int]));
                match combined_score_of(q, path.as_str()) {
                    Some(score) => {
                        insert_result(&mut results, MatchResult { path: path.clone(), score });
                    },
                    None => {},
                }
            }
            i = i + 1;
        }
        assert(cache.take(cache.len() as int) =~= cache);
        results
    }

    /// Scores the lower-case query `q` against the cache.
    ///
    /// An empty query lists recent files first, then the remaining cached
    /// paths; a non-empty one lists the matching paths by descending score,
    /// then path order.
    pub fn query_lowered(&self, q: &str) -> (r: Vec<MatchResult>)
        requires
            query_scorable(q@, self.cache_view()),
        ensures
            q@.len() == 0 ==> results_view(r@) == empty_query_results(
                self.cache_view(),
                self.recency_view(),
            ),
            q@.len() > 0 ==> sorted_results(results_view(r@)) && results_view(r@).to_multiset()
                == scored_paths(self.cache_view(), q@).to_multiset(),
    {
        if q.is_empty() {
            self.query_empty()
        } else {
            self.query_fuzzy(q)
        }
    }

    /// Scores `query` against the cache, case-insensitively: the query is
    /// lower-cased first. An empty query lists recent files first, then the
    /// remaining cached paths; a non-empty one lists the matching paths by
    /// descending score, then path order.
    pub fn query(&self, query: &str) -> (r: Vec<MatchResult>)
        requires
            query_scorable(lowercase(query@), self.cache_view()),
        ensures
            lowercase(query@).len() == 0 ==> results_view(r@) == empty_query_results(
                self.cache_view(),
                self.recency_view(),
            ),
            lowercase(query@).len() > 0 ==> sorted_results(results_view(r@))
                && results_view(r@).to_multiset() == scored_paths(
                self.cache_view(),
                lowercase(query@),
            ).to_multiset(),
    {
        let q = to_lowercase(query);
        self.query_lowered(q.as_str())
    }

    /// Like [`SharedState::query`], for any query: `None` when the
    /// lower-cased query is longer than `MAX_QUERY_CHARS` and at least as long
    /// as some cached, non-excluded path or its file name (lower-cased), where
    /// its scores might not fit in a `u32`.
    pub fn query_checked(&self, query: &str) -> (r: Option<Vec<MatchResult>>)
        ensures
            r is None <==> !query_scorable(lowercase(query@), self.cache_view()),
            r matches Some(v) ==> (lowercase(query@).len() == 0 ==> results_view(v@)
                == empty_query_results(self.cache_view(), self.recency_view())),
            r matches Some(v) ==> (lowercase(query@).len() > 0 ==> sorted_results(results_view(v@))
                && results_view(v@).to_multiset() == scored_paths(
                self.cache_view(),
                lowercase(query@),
            ).to_multiset()),
    {
        let q = to_lowercase(query);
        let ghost cache = self.cache_view();
        let mut i: usize = 0;
        while i < self.cache.len()
            invariant
                i <= self.cache@.len(),
                cache == self.cache_view(),
                q@ == lowercase(query@),
                forall|k: int|
                    0 <= k < i && !path_excluded(cache[k]) ==> #[trigger] path_scorable(q@, cache[k]),
            decreases self.cache@.len() - i,
        {
            let path = &self.cache[i];
            assert(cache[i as int] == path@);
            if !is_excluded(path.as_str()) && !fits_scoring(q.as_str(), path.as_str()) {
                return None;
            }
            i = i + 1;
        }
        Some(self.query(query))
    }

    /// The rename step of an event carrying both paths (see `rename_both_step`).
    fn rename_both(
        &mut self,
        root: &str,
        paths: &Vec<FsEventPath>,
        changed: &mut bool,
        events: &mut Vec<FileEvent>,
    )
        requires
            old(self).wf(),
            paths@.len() >= 2,
        ensures
            final(self).wf(),
            final(self).recency_view() == old(self).recency_view(),
            ({
                let st = rename_both_step(
                    FsState {
                        cache: old(self).cache_view(),
                        changed: *old(changed),
                        events: events_view(old(events)@),
                        pending: Seq::empty(),
                        renamed: false,
                    },
                    root@,
                    fs_paths_view(paths@),
                );
                &&& final(self).cache_view() == st.cache
                &&& *final(changed) == st.changed
                &&& events_view(final(events)@) == st.events
            }),
    {
        let from = &paths[0];
        let to = &paths[1];
        let ghost pv = fs_paths_view(paths@);
        assert(pv[0] == (from.path@, from.is_file, from.exists));
        assert(pv[1] == (to.path@, to.is_file, to.exists));
        let from_rel = strip_path_prefix(from.path.as_str(), root);
        let to_rel = strip_path_prefix(to.path.as_str(), root);
        match (from_rel, to_rel) {
            (Some(fr), Some(tr)) => {
                let from_excluded = is_excluded(fr.as_str());
                let to_excluded = is_excluded(tr.as_str());
                if !from_excluded || !to_excluded {
                    proof {
                        lemma_without_path(self.cache_view(), fr@);
                    }
                    remove_path(&mut self.cache, fr.as_str());
                    if to.is_file && !to_excluded && !contains_path(&self.cache, tr.as_str()) {
                        proof {
                            lemma_sorted_insert(self.cache_view(), tr@);
                        }
                        insert_sorted(&mut self.cache, tr);
                    }
                    *changed = true;
                }
            },
            _ => {},
        }
        let ghost before = events_view(events@);
        events.push(FileEvent::Renamed(from.path.clone(), to.path.clone()));
        assert(events_view(events@) =~= before.push(FileEventView::Renamed(from.path@, to.path@)));
    }

    /// Handles one file system event.
    ///
    /// For each path of the event that lies under `root` and is not excluded:
    /// a created file joins the cache; a removed path leaves it and a deletion
    /// callback is due; a rename carrying both paths moves the cached path and
    /// a rename callback is due (once per event); a rename reported one path at a time adds the
    /// path if it is now a file, else removes it; a content change is
    /// registered with the debouncer at `now`. Returns whether the cache
    /// changed (the caller then bumps its version) and the callbacks due, in
    /// order.
    pub fn handle_fs_event(
        &mut self,
        root: &str,
        kind: FsEventKind,
        paths: &Vec<FsEventPath>,
        debouncer: &mut FileChangeDebouncer,
        now: Timestamp,
    ) -> (r: (bool, Vec<FileEvent>))
        requires
            old(self).wf(),
            old(debouncer).wf(),
        ensures
            final(self).wf(),
            final(debouncer).wf(),
            final(debouncer).window_ms() == old(debouncer).window_ms(),
            final(self).recency_view() == old(self).recency_view(),
            ({
                let st = fs_fold(
                    FsState {
                        cache: old(self).cache_view(),
                        changed: false,
                        events: Seq::empty(),
                        pending: old(debouncer).pending(),
                        renamed: false,
                    },
                    root@,
                    kind,
                    fs_paths_view(paths@),
                    paths@.len() as int,
                    now as int,
                );
                &&& final(self).cache_view() == st.cache
                &&& r.0 == st.changed
                &&& events_view(r.1@) == st.events
                &&& final(debouncer).pending() == st.pending
            }),
    {
        let ghost init = FsState {
            cache: self.cache_view(),
            changed: false,
            events: Seq::empty(),
            pending: debouncer.pending(),
            renamed: false,
        };
        let ghost pv = fs_paths_view(paths@);
        let mut changed = false;
        let mut renamed = false;
        let mut events: Vec<FileEvent> = Vec::new();
        let mut i: usize = 0;
        assert(events_view(events@) =~= Seq::<FileEventView>::empty());
        while i < paths.len()
            invariant
                i <= paths@.len(),
                pv == fs_paths_view(paths@),
                self.wf(),
                debouncer.wf(),
                debouncer.window_ms() == old(debouncer).window_ms(),
                self.recency_view() == old(self).recency_view(),
                init == (FsState {
                    cache: old(self).cache_view(),
                    changed: false,
                    events: Seq::empty(),
                    pending: old(debouncer).pending(),
                    renamed: false,
                }),
                ({
                    let st = fs_fold(init, root@, kind, pv, i as int, now as int);
                    &&& self.cache_view() == st.cache
                    &&& changed == st.changed
                    &&& events_view(events@) == st.events
                    &&& debouncer.pending() == st.pending
                    &&& renamed == st.renamed
                }),
            decreases paths@.len() - i,
        {
            let p = &paths[i];
            assert(pv[i as int] == (p.path@, p.is_file, p.exists));
            match strip_path_prefix(p.path.as_str(), root) {
                None => {},
                Some(rel) => {
                    if !is_excluded(rel.as_str()) {
                        match kind {
                            FsEventKind::Create => {
                                if p.is_file && !contains_path(&self.cache, rel.as_str()) {
                                    proof {
                                        lemma_sorted_insert(self.cache_view(), rel@);
                                    }
                                    insert_sorted(&mut self.cache, rel);
                                    changed = true;
                                }
                            },
                            FsEventKind::Remove => {
                                proof {
                                    lemma_without_path(self.cache_view(), rel@);
                                }
                                remove_path(&mut self.cache, rel.as_str());
                                changed = true;
                                let ghost before = events_view(events@);
                                events.push(FileEvent::Deleted(p.path.clone()));
                                assert(events_view(events@) =~= before.push(
                                    FileEventView::Deleted(p.path@),
                                ));
                            },
                            FsEventKind::RenameBoth => {
                                if paths.len() >= 2 && !renamed {
                                    self.rename_both(root, paths, &mut changed, &mut events);
                                    renamed = true;
                                }
                            },
                            FsEventKind::RenameOther => {
                                if p.exists && p.is_file {
                                    if !contains_path(&self.cache, rel.as_str()) {
                                        proof {
                                            lemma_sorted_insert(self.cache_view(), rel@);
                                        }
                                        insert_sorted(&mut self.cache, rel);
                                        changed = true;
                                    }
                                } else {
                                    let len_before = self.cache.len();
                                    proof {
                                        lemma_without_path(self.cache_view(), rel@);
                                    }
                                    remove_path(&mut self.cache, rel.as_str());
                                    if self.cache.len() != len_before {
                                        changed = true;
                                    }
                                }
                            },
                            FsEventKind::ModifyContent => {
                                debouncer.register(p.path.clone(), now);
                            },
                            _ => {},
                        }
                    }
                },
            }
            i = i + 1;
        }
        (changed, events)
    }

    /// Records that `path` was just opened by the user.
    ///
    /// The path is made relative to `root` when it lies under it, removed from
    /// the recency list wherever it occurs, and put in front; the list is then
    /// cut to `MAX_RECENCY_ENTRIES` entries. The caller persists the new list.
    pub fn record_selection(&mut self, root: &str, path: &str)
        requires
            old(self).wf(),
        ensures
            final(self).wf(),
            final(self).cache_view() == old(self).cache_view(),
            final(self).recency_view() == recorded(old(self).recency_view(), relative_to(path@, root@)),
    {
        let relative = make_relative(path, root);
        remove_path(&mut self.recency, relative.as_str());
        let ghost rest = strings_view(self.recency@);
        let ghost rel = relative@;
        self.recency.insert(0, relative);
        assert(strings_view(self.recency@) =~= seq![rel] + rest);
        if self.recency.len() > MAX_RECENCY_ENTRIES {
            self.recency.truncate(MAX_RECENCY_ENTRIES);
            assert(strings_view(self.recency@) =~= (seq![rel] + rest).take(MAX_RECENCY_ENTRIES as int));
        }
    }
}

// =============================================================================
// Directory walk
// =============================================================================

/// The path under which a file found by the directory walk is indexed: its
/// path relative to `root`, when it lies under `root` and is not excluded;
/// otherwise `None` (the walk skips it, and does not descend into such a
/// directory).
pub fn indexed_relative_path(root: &str, path: &str) -> (r: Option<String>)
    ensures
        r is Some <==> comps_prefix(components(root@), components(path@)) && !path_excluded(
            stripped_path(path@, root@),
        ),
        r matches Some(s) ==> s@ == stripped_path(path@, root@),
{
    match strip_path_prefix(path, root) {
        Some(rel) => {
            if is_excluded(rel.as_str()) {
                None
            } else {
                Some(rel)
            }
        },
        None => None,
    }
}

// =============================================================================
// Recency persistence
// =============================================================================

/// Name of the file, under the index root, that holds the recency list.
pub open spec fn recency_file_name() -> Seq<char> {
    seq!['.', 'l', 'i', 't', 'e', '-', 'e', 'd', 'i', 't', '-', 'r', 'e', 'c', 'e', 'n', 't']
}

/// Returns the path of the recency file for a given root
/// (`<root>/.lite-edit-recent`).
pub fn recency_path(root: &str) -> (r: String)
    ensures
        r@ == join_relative(root@, recency_file_name()),
{
    let name: Vec<char> = vec![
        '.',
        'l',
        'i',
        't',
        'e',
        '-',
        'e',
        'd',
        'i',
        't',
        '-',
        'r',
        'e',
        'c',
        'e',
        'n',
        't',
    ];
    assert(name@ =~= recency_file_name());
    let base = chars_of(root);
    let mut out: Vec<char> = Vec::new();
    let mut i: usize = 0;
    while i < base.len()
        invariant
            i <= base@.len(),
            out@ == base@.take(i as int),
        decreases base@.len() - i,
    {
        out.push(base[i]);
        i = i + 1;
        assert(base@.take(i as int) =~= base@.take(i - 1).push(base@[i - 1]));
    }
    assert(base@.take(base@.len() as int) =~= base@);
    if base.len() > 0 && base[base.len() - 1] != '/' {
        out.push('/');
    }
    let ghost prefix = out@;
    let mut j: usize = 0;
    while j < name.len()
        invariant
            j <= name@.len(),
            out@ == prefix + name@.take(j as int),
        decreases name@.len() - j,
    {
        out.push(name[j]);
        j = j + 1;
        assert(name@.take(j as int) =~= name@.take(j - 1).push(name@[j - 1]));
        assert(prefix + name@.take(j as int) =~= (prefix + name@.take(j - 1)).push(name@[j - 1]));
    }
    assert(name@.take(name@.len() as int) =~= name@);
    string_from_chars(out.as_slice())
}

/// Unicode `White_Space` characters (`char::is_whitespace`).
pub open spec fn is_whitespace(c: char) -> bool {
    let v = c as u32;
    (0x09 <= v <= 0x0D) || v == 0x20 || v == 0x85 || v == 0xA0 || v == 0x1680 || (0x2000 <= v
        <= 0x200A) || v == 0x2028 || v == 0x2029 || v == 0x202F || v == 0x205F || v == 0x3000
}

fn char_is_whitespace(c: char) -> (r: bool)
    ensures
        r == is_whitespace(c),
{
    let v = c as u32;
    (0x09 <= v && v <= 0x0D) || v == 0x20 || v == 0x85 || v == 0xA0 || v == 0x1680 || (0x2000 <= v
        && v <= 0x200A) || v == 0x2028 || v == 0x2029 || v == 0x202F || v == 0x205F || v == 0x3000
}

/// `s` with leading and trailing whitespace removed (`str::trim`): the part
/// from the first to the last non-whitespace character.
#[verifier::opaque]
pub open spec fn trimmed(s: Seq<char>) -> Seq<char> {
    if forall|i: int| 0 <= i < s.len() ==> is_whitespace(#[trigger] s[i]) {
        Seq::empty()
    } else {
        let a = choose|a: int|
            0 <= a < s.len() && !is_whitespace(s[a]) && forall|k: int|
                0 <= k < a ==> is_whitespace(#[trigger] s[k]);
        let b = choose|b: int|
            0 <= b < s.len() && !is_whitespace(s[b]) && forall|k: int|
                b < k < s.len() ==> is_whitespace(#[trigger] s[k]);
        s.subrange(a, b + 1)
    }
}

/// Trims leading and trailing whitespace from a string.
pub fn trim(s: &str) -> (r: String)
    ensures
        r@ == trimmed(s@),
{
    let v = chars_of(s);
    let n = v.len();
    let mut a: usize = 0;
    while a < n && char_is_whitespace(v[a])
        invariant
            a <= n,
            n == v@.len(),
            forall|k: int| 0 <= k < a ==> is_whitespace(#[trigger] v@[k]),
        decreases n - a,
    {
        a = a + 1;
    }
    if a == n {
        proof {
            reveal(trimmed);
        }
        let e: Vec<char> = Vec::new();
        return string_from_chars(e.as_slice());
    }
    let mut b: usize = n - 1;
    while b > a && char_is_whitespace(v[b])
        invariant
            a <= b < n,
            n == v@.len(),
            !is_whitespace(v@[a as int]),
            forall|k: int| b < k < n ==> is_whitespace(#[trigger] v@[k]),
        decreases b,
    {
        b = b - 1;
    }
    proof {
        reveal(trimmed);
        let sv = v@;
        assert(!(forall|i: int| 0 <= i < sv.len() ==> is_whitespace(#[trigger] sv[i])));
        let ca = choose|x: int|
            0 <= x < sv.len() && !is_whitespace(sv[x]) && forall|k: int|
                0 <= k < x ==> is_whitespace(#[trigger] sv[k]);
        assert(0 <= a < sv.len() && !is_whitespace(sv[a as int]) && forall|k: int|
            0 <= k < a ==> is_whitespace(#[trigger] sv[k]));
        if ca < a {
            assert(is_whitespace(sv[ca]));
        }
        if ca > a {
            assert(is_whitespace(sv[a as int]));
        }
        assert(!is_whitespace(sv[b as int]));
        let cb = choose|x: int|
            0 <= x < sv.len() && !is_whitespace(sv[x]) && forall|k: int|
                x < k < sv.len() ==> is_whitespace(#[trigger] sv[k]);
        assert(0 <= b < sv.len() && !is_whitespace(sv[b as int]) && forall|k: int|
            b < k < sv.len() ==> is_whitespace(#[trigger] sv[k]));
        if cb < b {
            assert(is_whitespace(sv[b as int]));
        }
        if cb > b {
            assert(is_whitespace(sv[cb]));
        }
    }
    let mut out: Vec<char> = Vec::new();
    let mut i: usize = a;
    while i <= b
        invariant
            a <= i <= b + 1,
            b < n,
            n == v@.len(),
            out@ == v@.subrange(a as int, i as int),
        decreases b + 1 - i,
    {
        out.push(v[i]);
        i = i + 1;
        assert(v@.subrange(a as int, i as int) =~= v@.subrange(a as int, i - 1).push(v@[i - 1]));
    }
    string_from_chars(out.as_slice())
}

/// Recency entries read from the lines of the recency file: each line is
/// trimmed, blank lines are skipped, and at most `MAX_RECENCY_ENTRIES`
/// entries are kept.
pub open spec fn parsed_recency(lines: Seq<Seq<char>>) -> Seq<Seq<char>> {
    let all = nonblank_trimmed(lines);
    if all.len() > MAX_RECENCY_ENTRIES {
        all.take(MAX_RECENCY_ENTRIES as int)
    } else {
        all
    }
}

pub open spec fn nonblank_trimmed(lines: Seq<Seq<char>>) -> Seq<Seq<char>>
    decreases lines.len(),
{
    if lines.len() == 0 {
        Seq::empty()
    } else {
        let r = nonblank_trimmed(lines.drop_last());
        let t = trimmed(lines.last());
        if t.len() > 0 {
            r.push(t)
        } else {
            r
        }
    }
}

/// Parses the lines of a recency file into the recency list.
pub fn parse_recency(lines: &Vec<String>) -> (r: Vec<String>)
    ensures
        strings_view(r@) == parsed_recency(strings_view(lines@)),
{
    let ghost l = strings_view(lines@);
    let mut out: Vec<String> = Vec::new();
    let mut i: usize = 0;
    assert(l.take(0) =~= Seq::<Seq<char>>::empty());
    while i < lines.len()
        invariant
            i <= lines@.len(),
            l == strings_view(lines@),
            strings_view(out@) == nonblank_trimmed(l.take(i as int)),
        decreases lines@.len() - i,
    {
        proof {
            assert(l.take(i + 1).drop_last() =~= l.take(i as int));
            assert(l.take(i + 1).last() == l[i as int]);
            assert(l[i as int] == lines@[i as int]@);
        }
        let t = trim(lines[i].as_str());
        if !t.as_str().is_empty() {
            let ghost before = strings_view(out@);
            let ghost tv = t@;
            out.push(t);
            assert(strings_view(out@) =~= before.push(tv));
        }
        i = i + 1;
    }
    assert(l.take(l.len() as int) =~= l);
    if out.len() > MAX_RECENCY_ENTRIES {
        let ghost before = strings_view(out@);
        out.truncate(MAX_RECENCY_ENTRIES);
        assert(strings_view(out@) =~= before.take(MAX_RECENCY_ENTRIES as int));
    }
    out
}

// =============================================================================
// Pausing the watcher
// =============================================================================

/// State captured when pausing the file index watcher: the modification time
/// of each recently opened file (absolute path), or `None` when the file could
/// not be read. Times are nanoseconds relative to the Unix epoch.
#[derive(Debug, Default)]
pub struct PausedFileIndexState {
    file_mtimes: Vec<(String, Option<i128>)>,
}

/// A file counts as modified while paused when its modification time changed,
/// or when it appeared or disappeared.
pub open spec fn mtime_changed(old: Option<i128>, new: Option<i128>) -> bool {
    match (old, new) {
        (Some(a), Some(b)) => a != b,
        (None, Some(_)) => true,
        (Some(_), None) => true,
        (None, None) => false,
    }
}

pub open spec fn mtimes_view(v: Seq<(String, Option<i128>)>) -> Seq<(Seq<char>, Option<i128>)> {
    v.map_values(|e: (String, Option<i128>)| (e.0@, e.1))
}

/// Paths whose time in `current` differs from the captured one, in order.
pub open spec fn changed_files_spec(
    captured: Seq<(Seq<char>, Option<i128>)>,
    current: Seq<Option<i128>>,
) -> Seq<Seq<char>>
    decreases captured.len(),
{
    if captured.len() == 0 || current.len() != captured.len() {
        Seq::empty()
    } else {
        let r = changed_files_spec(captured.drop_last(), current.drop_last());
        if mtime_changed(captured.last().1, current.last()) {
            r.push(captured.last().0)
        } else {
            r
        }
    }
}

impl PausedFileIndexState {
    /// The captured paths with their modification times.
    pub closed spec fn entries(&self) -> Seq<(Seq<char>, Option<i128>)> {
        mtimes_view(self.file_mtimes@)
    }

    /// Captures the given paths with their modification times.
    pub fn new(file_mtimes: Vec<(String, Option<i128>)>) -> (s: Self)
        ensures
            s.entries() == mtimes_view(file_mtimes@),
    {
        PausedFileIndexState { file_mtimes }
    }

    /// The state of a watcher that was already paused: nothing captured.
    pub fn empty() -> (s: Self)
        ensures
            s.entries() == Seq::<(Seq<char>, Option<i128>)>::empty(),
    {
        let s = PausedFileIndexState { file_mtimes: Vec::new() };
        assert(s.entries() =~= Seq::<(Seq<char>, Option<i128>)>::empty());
        s
    }

    /// The captured paths, in order.
    pub fn paths(&self) -> (r: Vec<String>)
        ensures
            strings_view(r@) == self.entries().map_values(|e: (Seq<char>, Option<i128>)| e.0),
    {
        let ghost e = self.entries();
        let mut r: Vec<String> = Vec::new();
        let mut i: usize = 0;
        while i < self.file_mtimes.len()
            invariant
                i <= self.file_mtimes@.len(),
                e == self.entries(),
                r@.len() == i,
                forall|k: int| 0 <= k < i ==> #[trigger] r@[k]@ == e[k].0,
            decreases self.file_mtimes@.len() - i,
        {
            r.push(self.file_mtimes[i].0.clone());
            i = i + 1;
        }
        assert(strings_view(r@) =~= e.map_values(|x: (Seq<char>, Option<i128>)| x.0));
        r
    }

    /// The captured files that were modified, created or deleted while
    /// paused, given their current modification times (in the same order).
    pub fn changed_files(&self, current: &Vec<Option<i128>>) -> (r: Vec<String>)
        requires
            current@.len() == self.entries().len(),
        ensures
            strings_view(r@) == changed_files_spec(self.entries(), current@),
    {
        let ghost e = self.entries();
        let mut r: Vec<String> = Vec::new();
        let mut i: usize = 0;
        assert(e.take(0) =~= Seq::<(Seq<char>, Option<i128>)>::empty());
        assert(current@.take(0) =~= Seq::<Option<i128>>::empty());
        while i < self.file_mtimes.len()
            invariant
                i <= self.file_mtimes@.len(),
                e == self.entries(),
                current@.len() == e.len(),
                strings_view(r@) == changed_files_spec(e.take(i as int), current@.take(i as int)),
            decreases self.file_mtimes@.len() - i,
        {
            proof {
                assert(e.take(i + 1).drop_last() =~= e.take(i as int));
                assert(current@.take(i + 1).drop_last() =~= current@.take(i as int));
                assert(e.take(i + 1).last() == e[i as int]);
                assert(current@.take(i + 1).last() == current@[i as int]);
            }
            let old_t = self.file_mtimes[i].1;
            let new_t = current[i];
            let changed = match (old_t, new_t) {
                (Some(a), Some(b)) => a != b,
                (None, Some(_)) => true,
                (Some(_), None) => true,
                (None, None) => false,
            };
            if changed {
                let ghost before = strings_view(r@);
                r.push(self.file_mtimes[i].0.clone());
                assert(strings_view(r@) =~= before.push(e[i as int].0));
            }
            i = i + 1;
        }
        assert(e.take(e.len() as int) =~= e);
        assert(current@.take(current@.len() as int) =~= current@);
        r
    }
}

} // verus!
