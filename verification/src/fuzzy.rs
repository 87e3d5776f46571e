//! Fuzzy scoring of a query against file names and paths.
//!
//! A query matches a string when its characters occur in the string in order
//! (as a subsequence). Match positions are found by a greedy left-to-right
//! scan; the score rewards consecutive runs, a match that starts at the first
//! character, and short file names.

use vstd::prelude::*;
use crate::path_model::chars_of;

verus! {

/// The longest query, in characters, whose scores fit in a `u32`.
pub const MAX_QUERY_CHARS: usize = 71_582_782;

/// The lower-case mapping of a string (`str::to_lowercase`, Unicode rules).
pub uninterp spec fn lowercase(s: Seq<char>) -> Seq<char>;

/// Length in bytes of the UTF-8 encoding of `s`.
pub open spec fn utf8_len(s: Seq<char>) -> nat {
    vstd::utf8::encode_utf8(s).len()
}

/// Lower-cases a string with `str::to_lowercase`.
#[verifier::external_body]
pub(crate) fn to_lowercase(s: &str) -> (r: String)
    ensures
        r@ == lowercase(s@),
{
    s.to_lowercase()
}

// =============================================================================
// Greedy subsequence matching
// =============================================================================

/// Positions at which the characters of `q` are found in `t`, scanning greedily
/// from position `from`: each query character takes the first matching target
/// character after the previous match. `None` when some character is not found.
pub open spec fn greedy_positions(q: Seq<char>, t: Seq<char>, from: int) -> Option<Seq<int>>
    decreases q.len(), t.len() - from,
{
    if q.len() == 0 {
        Some(Seq::empty())
    } else if from >= t.len() || from < 0 {
        None
    } else if t[from] == q[0] {
        match greedy_positions(q.drop_first(), t, from + 1) {
            Some(r) => Some(seq![from] + r),
            None => None,
        }
    } else {
        greedy_positions(q, t, from + 1)
    }
}

/// `p` places the characters of `q` at strictly increasing positions of `t`.
pub open spec fn is_embedding(q: Seq<char>, t: Seq<char>, p: Seq<int>) -> bool {
    &&& p.len() == q.len()
    &&& forall|i: int| 0 <= i < p.len() ==> 0 <= #[trigger] p[i] < t.len() && t[p[i]] == q[i]
    &&& forall|i: int, j: int| 0 <= i < j < p.len() ==> p[i] < p[j]
}

/// `q` occurs in `t` as a subsequence.
pub open spec fn is_subsequence(q: Seq<char>, t: Seq<char>) -> bool {
    exists|p: Seq<int>| is_embedding(q, t, p)
}

pub open spec fn all_at_least(p: Seq<int>, from: int) -> bool {
    forall|i: int| 0 <= i < p.len() ==> #[trigger] p[i] >= from
}

/// The greedy scan only returns embeddings, and only positions at or after `from`.
pub proof fn lemma_greedy_sound(q: Seq<char>, t: Seq<char>, from: int)
    ensures
        greedy_positions(q, t, from) matches Some(p) ==> is_embedding(q, t, p) && all_at_least(
            p,
            from,
        ),
    decreases q.len(), t.len() - from,
{
    if q.len() == 0 {
    } else if from >= t.len() || from < 0 {
    } else if t[from] == q[0] {
        lemma_greedy_sound(q.drop_first(), t, from + 1);
        if let Some(r) = greedy_positions(q.drop_first(), t, from + 1) {
            let p = seq![from] + r;
            assert(p.len() == r.len() + 1);
            assert(r.len() == q.len() - 1);
            assert forall|i: int| 0 <= i < p.len() implies 0 <= #[trigger] p[i] < t.len() && t[p[i]]
                == q[i] by {
                if i > 0 {
                    assert(p[i] == r[i - 1]);
                    assert(q[i] == q.drop_first()[i - 1]);
                }
            }
            assert forall|i: int, j: int| 0 <= i < j < p.len() implies p[i] < p[j] by {
                if i > 0 {
                    assert(p[i] == r[i - 1]);
                }
                assert(p[j] == r[j - 1]);
                assert(r[j - 1] >= from + 1);
            }
            assert forall|i: int| 0 <= i < p.len() implies #[trigger] p[i] >= from by {
                if i > 0 {
                    assert(p[i] == r[i - 1]);
                }
            }
        }
    } else {
        lemma_greedy_sound(q, t, from + 1);
    }
}

/// Whenever some embedding of `q` into `t` starts at or after `from`, the greedy
/// scan succeeds, and each greedy position is at or before that embedding's.
pub proof fn lemma_greedy_complete(q: Seq<char>, t: Seq<char>, from: int, e: Seq<int>)
    requires
        is_embedding(q, t, e),
        all_at_least(e, from),
        from >= 0,
    ensures
        greedy_positions(q, t, from) is Some,
        forall|i: int|
            0 <= i < q.len() ==> #[trigger] greedy_positions(q, t, from)->0[i] <= e[i],
    decreases q.len(), t.len() - from,
{
    if q.len() == 0 {
    } else {
        assert(e[0] >= from);
        assert(e[0] < t.len());
        if t[from] == q[0] {
            let q1 = q.drop_first();
            let e1 = e.drop_first();
            assert forall|i: int| 0 <= i < e1.len() implies 0 <= #[trigger] e1[i] < t.len() && t[e1[i]]
                == q1[i] by {
                assert(e1[i] == e[i + 1]);
            }
            assert forall|i: int| 0 <= i < e1.len() implies #[trigger] e1[i] >= from + 1 by {
                assert(e1[i] == e[i + 1]);
                assert(e[0] < e[i + 1]);
            }
            assert forall|i: int, j: int| 0 <= i < j < e1.len() implies e1[i] < e1[j] by {
                assert(e1[i] == e[i + 1]);
                assert(e1[j] == e[j + 1]);
            }
            lemma_greedy_complete(q1, t, from + 1, e1);
            lemma_greedy_sound(q1, t, from + 1);
            let r = greedy_positions(q1, t, from + 1)->0;
            assert(r.len() == q1.len());
            let p = seq![from] + r;
            assert forall|i: int| 0 <= i < q.len() implies #[trigger] p[i] <= e[i] by {
                if i > 0 {
                    assert(p[i] == r[i - 1]);
                    assert(e1[i - 1] == e[i]);
                }
            }
        } else {
            assert(e[0] != from);
            assert forall|i: int| 0 <= i < e.len() implies #[trigger] e[i] >= from + 1 by {
                if i > 0 {
                    assert(e[0] < e[i]);
                }
            }
            lemma_greedy_complete(q, t, from + 1, e);
        }
    }
}

/// The greedy scan finds a match exactly when the query is a subsequence of
/// the target.
pub proof fn lemma_greedy_iff_subsequence(q: Seq<char>, t: Seq<char>)
    ensures
        greedy_positions(q, t, 0) is Some <==> is_subsequence(q, t),
{
    lemma_greedy_sound(q, t, 0);
    if is_subsequence(q, t) {
        let e = choose|p: Seq<int>| is_embedding(q, t, p);
        lemma_greedy_complete(q, t, 0, e);
    }
    if let Some(p) = greedy_positions(q, t, 0) {
        assert(is_embedding(q, t, p));
    }
}

pub open spec fn positions_view(v: Seq<usize>) -> Seq<int> {
    v.map_values(|x: usize| x as int)
}

/// A query matches only a target at least as long as itself.
proof fn lemma_greedy_fits(q: Seq<char>, t: Seq<char>, from: int)
    requires
        0 <= from <= t.len(),
    ensures
        greedy_positions(q, t, from) is Some ==> q.len() <= t.len() - from,
    decreases q.len(), t.len() - from,
{
    if q.len() > 0 && from < t.len() {
        if t[from] == q[0] {
            lemma_greedy_fits(q.drop_first(), t, from + 1);
        } else {
            lemma_greedy_fits(q, t, from + 1);
        }
    }
}

/// Scores of `q` against a target whose lower-case form is `target_lower`
/// fit in a `u32`: the query is at most `MAX_QUERY_CHARS` long, or longer
/// than the target, which it then cannot match.
pub open spec fn scorable(q: Seq<char>, target_lower: Seq<char>) -> bool {
    q.len() <= MAX_QUERY_CHARS || q.len() > target_lower.len()
}

proof fn lemma_greedy_len(q: Seq<char>, t: Seq<char>, from: int)
    ensures
        greedy_positions(q, t, from) matches Some(p) ==> p.len() == q.len(),
{
    lemma_greedy_sound(q, t, from);
}

/// Finds the positions in `target` where each character of `query` matches.
///
/// Uses a greedy left-to-right scan. Returns `None` if not all characters match.
pub fn find_match_positions(query: &[char], target: &[char]) -> (r: Option<Vec<usize>>)
    ensures
        match r {
            None => greedy_positions(query@, target@, 0) is None,
            Some(v) => greedy_positions(query@, target@, 0) == Some(positions_view(v@)),
        },
{
    let mut positions: Vec<usize> = Vec::new();
    let mut target_idx: usize = 0;
    let mut k: usize = 0;
    assert(query@.skip(0) =~= query@);
    assert(positions_view(positions@) =~= Seq::<int>::empty());
    while k < query.len()
        invariant
            k <= query@.len(),
            target_idx <= target@.len(),
            greedy_positions(query@, target@, 0) == match greedy_positions(
                query@.skip(k as int),
                target@,
                target_idx as int,
            ) {
                Some(r) => Some(positions_view(positions@) + r),
                None => None,
            },
        decreases query@.len() - k,
    {
        let qc = query[k];
        let ghost qk = query@.skip(k as int);
        assert(qk[0] == qc);
        while target_idx < target.len() && target[target_idx] != qc
            invariant
                k < query@.len(),
                qk == query@.skip(k as int),
                qk[0] == qc,
                target_idx <= target@.len(),
                greedy_positions(query@, target@, 0) == match greedy_positions(
                    qk,
                    target@,
                    target_idx as int,
                ) {
                    Some(r) => Some(positions_view(positions@) + r),
                    None => None,
                },
            decreases target@.len() - target_idx,
        {
            target_idx = target_idx + 1;
        }
        if target_idx >= target.len() {
            return None;
        }
        let ghost before = positions_view(positions@);
        proof {
            assert(qk.drop_first() =~= query@.skip(k + 1));
        }
        positions.push(target_idx);
        proof {
            assert(positions_view(positions@) =~= before.push(target_idx as int));
            match greedy_positions(query@.skip(k + 1), target@, target_idx + 1) {
                Some(r) => {
                    assert(before + (seq![target_idx as int] + r) =~= before.push(target_idx as int)
                        + r);
                },
                None => {},
            }
        }
        target_idx = target_idx + 1;
        k = k + 1;
    }
    proof {
        assert(query@.skip(k as int) =~= Seq::<char>::empty());
        assert(positions_view(positions@) + Seq::<int>::empty() =~= positions_view(positions@));
    }
    Some(positions)
}

// =============================================================================
// Scores
// =============================================================================

/// Running state of the consecutive-run scan over `p[0..n]`: the bonus so far
/// and the length of the current run.
pub open spec fn run_scan(p: Seq<int>, n: int) -> (int, int)
    decreases n,
{
    if n <= 1 {
        (0, 1)
    } else {
        let prev = run_scan(p, n - 1);
        if p[n - 1] == p[n - 2] + 1 {
            (prev.0, prev.1 + 1)
        } else {
            (
                if prev.1 >= 2 {
                    prev.0 + prev.1 * 10
                } else {
                    prev.0
                },
                1,
            )
        }
    }
}

/// Ten points per matched character for every run of two or more consecutive
/// match positions.
pub open spec fn consecutive_bonus(p: Seq<int>) -> int {
    let s = run_scan(p, p.len() as int);
    if s.1 >= 2 {
        s.0 + s.1 * 10
    } else {
        s.0
    }
}

/// Number of leading match positions that equal their index (`p[i] == i`).
pub open spec fn prefix_len_from(p: Seq<int>, i: int) -> int
    decreases p.len() - i,
{
    if i < 0 || i >= p.len() || p[i] != i {
        0
    } else {
        1 + prefix_len_from(p, i + 1)
    }
}

pub open spec fn prefix_len(p: Seq<int>) -> int {
    prefix_len_from(p, 0)
}

pub open spec fn min_int(a: int, b: int) -> int {
    if a <= b {
        a
    } else {
        b
    }
}

/// Score of a (lower-case) query against a file name whose lower-case form is
/// `name_lower` and whose UTF-8 length is `byte_len`: base 100, the consecutive
/// bonus, 50 per prefix-matched character, and `255 - min(byte_len, 255)`.
pub open spec fn filename_score(q: Seq<char>, name_lower: Seq<char>, byte_len: int) -> Option<int> {
    if q.len() == 0 {
        Some(1)
    } else {
        match greedy_positions(q, name_lower, 0) {
            None => None,
            Some(p) => Some(
                100 + consecutive_bonus(p) + prefix_len(p) * 50 + (255 - min_int(byte_len, 255)),
            ),
        }
    }
}

/// Score of a (lower-case) query against a whole path whose lower-case form is
/// `path_lower`: base 100 and the consecutive bonus.
pub open spec fn path_score(q: Seq<char>, path_lower: Seq<char>) -> Option<int> {
    if q.len() == 0 {
        Some(1)
    } else {
        match greedy_positions(q, path_lower, 0) {
            None => None,
            Some(p) => Some(100 + consecutive_bonus(p)),
        }
    }
}

pub open spec fn opt_u32_is(r: Option<u32>, s: Option<int>) -> bool {
    match r {
        None => s is None,
        Some(v) => s == Some(v as int),
    }
}

proof fn lemma_run_scan_bounds(p: Seq<int>, n: int)
    requires
        n >= 1,
    ensures
        1 <= run_scan(p, n).1 <= n,
        0 <= run_scan(p, n).0 <= 10 * (n - run_scan(p, n).1),
    decreases n,
{
    if n > 1 {
        lemma_run_scan_bounds(p, n - 1);
    }
}

proof fn lemma_bonus_bound(p: Seq<int>)
    ensures
        0 <= consecutive_bonus(p) <= 10 * p.len(),
{
    if p.len() >= 1 {
        lemma_run_scan_bounds(p, p.len() as int);
    }
}

proof fn lemma_prefix_len_bound(p: Seq<int>, i: int)
    requires
        0 <= i <= p.len(),
    ensures
        0 <= prefix_len_from(p, i) <= p.len() - i,
    decreases p.len() - i,
{
    if i < p.len() && p[i] == i {
        lemma_prefix_len_bound(p, i + 1);
    }
}

/// Computes the consecutive-run bonus of a list of match positions.
fn consecutive_bonus_of(positions: &Vec<usize>) -> (b: u32)
    requires
        positions@.len() <= MAX_QUERY_CHARS,
    ensures
        b as int == consecutive_bonus(positions_view(positions@)),
{
    let ghost p = positions_view(positions@);
    let n = positions.len();
    if n <= 1 {
        return 0;
    }
    let mut bonus: u32 = 0;
    let mut run_length: u32 = 1;
    let mut w: usize = 1;
    while w < n
        invariant
            1 <= w <= n,
            n == positions@.len(),
            n <= MAX_QUERY_CHARS,
            p == positions_view(positions@),
            run_scan(p, w as int) == (bonus as int, run_length as int),
        decreases n - w,
    {
        proof {
            lemma_run_scan_bounds(p, w as int);
        }
        if positions[w] > 0 && positions[w] - 1 == positions[w - 1] {
            run_length = run_length + 1;
        } else {
            if run_length >= 2 {
                bonus = bonus + run_length * 10;
            }
            run_length = 1;
        }
        w = w + 1;
    }
    proof {
        lemma_run_scan_bounds(p, n as int);
    }
    if run_length >= 2 {
        bonus = bonus + run_length * 10;
    }
    bonus
}

proof fn lemma_prefix_len_exact(p: Seq<int>, i: int, j: int)
    requires
        0 <= j <= i <= p.len(),
        forall|k: int| 0 <= k < i ==> p[k] == k,
        i == p.len() || p[i] != i,
    ensures
        prefix_len_from(p, j) == i - j,
    decreases i - j,
{
    if j < i {
        lemma_prefix_len_exact(p, i, j + 1);
    }
}

/// Counts the leading positions that equal their index.
fn prefix_len_of(positions: &Vec<usize>) -> (r: u32)
    requires
        positions@.len() <= MAX_QUERY_CHARS,
    ensures
        r as int == prefix_len(positions_view(positions@)),
{
    let ghost p = positions_view(positions@);
    let mut i: usize = 0;
    while i < positions.len() && positions[i] == i
        invariant
            i <= positions@.len(),
            p == positions_view(positions@),
            forall|k: int| 0 <= k < i ==> p[k] == k,
        decreases positions@.len() - i,
    {
        i = i + 1;
    }
    proof {
        lemma_prefix_len_exact(p, i as int, 0);
    }
    i as u32
}

/// Width in bytes of the UTF-8 encoding of `c`.
pub(crate) fn char_utf8_width(c: char) -> (w: u32)
    ensures
        w as int == vstd::utf8::encode_scalar(c as u32).len(),
        1 <= w <= 4,
{
    proof {
        vstd::utf8::char_is_scalar(c);
    }
    let v = c as u32;
    if v <= 0x7F {
        1
    } else if v <= 0x7FF {
        2
    } else if v <= 0xFFFF {
        3
    } else {
        4
    }
}

/// The UTF-8 encoding of a concatenation is the concatenation of the encodings.
pub proof fn lemma_encode_utf8_concat(a: Seq<char>, b: Seq<char>)
    ensures
        vstd::utf8::encode_utf8(a + b) == vstd::utf8::encode_utf8(a) + vstd::utf8::encode_utf8(b),
    decreases a.len(),
{
    if a.len() == 0 {
        assert(a + b =~= b);
        assert(vstd::utf8::encode_utf8(a) =~= Seq::<u8>::empty());
        assert(Seq::<u8>::empty() + vstd::utf8::encode_utf8(b) =~= vstd::utf8::encode_utf8(b));
    } else {
        assert((a + b).drop_first() =~= a.drop_first() + b);
        assert((a + b)[0] == a[0]);
        lemma_encode_utf8_concat(a.drop_first(), b);
        let e0 = vstd::utf8::encode_scalar(a[0] as u32);
        assert(e0 + (vstd::utf8::encode_utf8(a.drop_first()) + vstd::utf8::encode_utf8(b)) =~= (e0
            + vstd::utf8::encode_utf8(a.drop_first())) + vstd::utf8::encode_utf8(b));
    }
}

pub(crate) proof fn lemma_utf8_len_push(s: Seq<char>, c: char)
    ensures
        utf8_len(s.push(c)) == utf8_len(s) + vstd::utf8::encode_scalar(c as u32).len(),
{
    lemma_encode_utf8_concat(s, seq![c]);
    assert(s.push(c) =~= s + seq![c]);
    assert(seq![c].drop_first() =~= Seq::<char>::empty());
    assert(vstd::utf8::encode_utf8(Seq::<char>::empty()) =~= Seq::<u8>::empty());
    assert(vstd::utf8::encode_utf8(seq![c]) =~= vstd::utf8::encode_scalar(c as u32) + Seq::<u8>::empty());
}

pub(crate) proof fn lemma_utf8_len_monotone(s: Seq<char>, k: int)
    requires
        0 <= k <= s.len(),
    ensures
        utf8_len(s.take(k)) <= utf8_len(s),
    decreases s.len() - k,
{
    if k < s.len() {
        lemma_utf8_len_monotone(s, k + 1);
        assert(s.take(k + 1) =~= s.take(k).push(s[k]));
        lemma_utf8_len_push(s.take(k), s[k]);
    } else {
        assert(s.take(k) =~= s);
    }
}

/// Returns `min(utf8_len(s), 255)`.
fn utf8_len_capped(s: &[char]) -> (r: u32)
    ensures
        r as int == min_int(utf8_len(s@) as int, 255),
{
    let mut total: u32 = 0;
    let mut k: usize = 0;
    assert(s@.take(0) =~= Seq::<char>::empty());
    assert(vstd::utf8::encode_utf8(Seq::<char>::empty()) =~= Seq::<u8>::empty());
    while k < s.len()
        invariant
            k <= s@.len(),
            total as int == utf8_len(s@.take(k as int)),
            total < 255,
        decreases s@.len() - k,
    {
        let w = char_utf8_width(s[k]);
        proof {
            assert(s@.take(k + 1) =~= s@.take(k as int).push(s@[k as int]));
            lemma_utf8_len_push(s@.take(k as int), s@[k as int]);
        }
        total = total + w;
        k = k + 1;
        if total >= 255 {
            proof {
                lemma_utf8_len_monotone(s@, k as int);
            }
            return 255;
        }
    }
    assert(s@.take(k as int) =~= s@);
    total
}

/// Scores a query against a file name.
///
/// Returns `None` if the query's characters do not all occur, in order, in the
/// lower-cased file name; otherwise `Some(score)`, higher being better.
pub fn score_match(query: &str, filename: &str) -> (r: Option<u32>)
    requires
        scorable(query@, lowercase(filename@)),
    ensures
        opt_u32_is(r, filename_score(query@, lowercase(filename@), utf8_len(filename@) as int)),
{
    let filename_lower = to_lowercase(filename);
    let query_chars = chars_of(query);
    let filename_chars = chars_of(filename_lower.as_str());
    if query_chars.len() == 0 {
        return Some(1);
    }
    if query_chars.len() > filename_chars.len() {
        proof {
            lemma_greedy_fits(query@, filename_chars@, 0);
        }
        return None;
    }
    let positions = match find_match_positions(query_chars.as_slice(), filename_chars.as_slice()) {
        Some(p) => p,
        None => return None,
    };
    proof {
        lemma_greedy_len(query@, filename_chars@, 0);
        lemma_bonus_bound(positions_view(positions@));
        lemma_prefix_len_bound(positions_view(positions@), 0);
    }
    let mut score: u32 = 100;
    let consecutive = consecutive_bonus_of(&positions);
    score = score + consecutive;
    let prefix = prefix_len_of(&positions);
    score = score + prefix * 50;
    let filename_orig = chars_of(filename);
    let length_penalty: u32 = utf8_len_capped(filename_orig.as_slice());
    score = score + (255 - length_penalty);
    Some(score)
}

/// Scores a query against a full relative path.
///
/// Returns `None` if the query's characters do not all occur, in order, in the
/// lower-cased path; otherwise `Some(score)`. Only the base score and the
/// consecutive-run bonus apply (no prefix or length bonus).
pub fn score_path_match(query: &str, path: &str) -> (r: Option<u32>)
    requires
        scorable(query@, lowercase(path@)),
    ensures
        opt_u32_is(r, path_score(query@, lowercase(path@))),
{
    let path_lower = to_lowercase(path);
    let query_chars = chars_of(query);
    let path_chars = chars_of(path_lower.as_str());
    if query_chars.len() == 0 {
        return Some(1);
    }
    if query_chars.len() > path_chars.len() {
        proof {
            lemma_greedy_fits(query@, path_chars@, 0);
        }
        return None;
    }
    let positions = match find_match_positions(query_chars.as_slice(), path_chars.as_slice()) {
        Some(p) => p,
        None => return None,
    };
    proof {
        lemma_greedy_len(query@, path_chars@, 0);
        lemma_bonus_bound(positions_view(positions@));
    }
    let consecutive = consecutive_bonus_of(&positions);
    let score: u32 = 100u32.saturating_add(consecutive);
    Some(score)
}

} // verus!
