//! Positions in a text buffer and their byte offsets in its content.
//!
//! A position is a line and a column, both counted in characters from zero.
//! Lines are separated by `\n`. Byte offsets are into the UTF-8 encoding of
//! the buffer's content.

use vstd::prelude::*;
use crate::fuzzy::{utf8_len, char_utf8_width, lemma_utf8_len_push, lemma_utf8_len_monotone};
use crate::path_model::chars_of;

verus! {

/// A position in a text buffer: a line and a column, in characters.
#[derive(Debug, Clone, Copy, PartialEq, Eq, Structural)]
pub struct Position {
    pub line: usize,
    pub col: usize,
}

impl Position {
    /// Creates a position.
    pub fn new(line: usize, col: usize) -> (p: Self)
        ensures
            p.line == line,
            p.col == col,
    {
        Position { line, col }
    }
}

/// The character index at which line `line` starts, scanning from index `i`
/// as if `i` were a line start: the index just after the `line`-th newline
/// found from `i`; `None` when there are fewer newlines.
pub open spec fn line_start_from(s: Seq<char>, i: int, line: nat) -> Option<int>
    decreases s.len() - i, line,
{
    if line == 0 {
        Some(i)
    } else if i < 0 || i >= s.len() {
        None
    } else if s[i] == '\n' {
        line_start_from(s, i + 1, (line - 1) as nat)
    } else {
        line_start_from(s, i + 1, line)
    }
}

/// The character index at which line `line` of `s` starts.
pub open spec fn line_start(s: Seq<char>, line: nat) -> Option<int> {
    line_start_from(s, 0, line)
}

/// The number of characters from index `i` up to the next newline or the end.
pub open spec fn run_to_newline(s: Seq<char>, i: int) -> nat
    decreases s.len() - i,
{
    if i < 0 || i >= s.len() || s[i] == '\n' {
        0
    } else {
        1 + run_to_newline(s, i + 1)
    }
}

/// The byte offset of a position in `s`. The column is clamped to the end of
/// its line; a line past the last one gives the end of the content.
pub open spec fn position_offset(s: Seq<char>, line: nat, col: nat) -> nat {
    match line_start(s, line) {
        Some(st) => {
            let run = run_to_newline(s, st);
            let c = if col < run {
                col
            } else {
                run
            };
            utf8_len(s.take(st + c))
        },
        None => utf8_len(s),
    }
}

/// The line and column just after the characters of `t`: the number of
/// newlines in `t`, and the number of characters after the last of them.
pub open spec fn line_col(t: Seq<char>) -> (nat, nat)
    decreases t.len(),
{
    if t.len() == 0 {
        (0, 0)
    } else {
        let lc = line_col(t.drop_last());
        if t.last() == '\n' {
            (lc.0 + 1, 0)
        } else {
            (lc.0, lc.1 + 1)
        }
    }
}

/// The number of leading characters of `s`, from index `k` on, whose
/// encodings start before byte `off`.
pub open spec fn chars_before_from(s: Seq<char>, k: int, off: int) -> int
    decreases s.len() - k,
{
    if 0 <= k < s.len() && utf8_len(s.take(k)) < off {
        chars_before_from(s, k + 1, off)
    } else {
        k
    }
}

/// The position of byte offset `off` in `s`: the line and column after the
/// characters that start before `off`.
pub open spec fn offset_position(s: Seq<char>, off: int) -> (nat, nat) {
    line_col(s.take(chars_before_from(s, 0, off)))
}

proof fn lemma_line_start_step(s: Seq<char>, i: int, line: nat)
    requires
        0 <= i < s.len(),
        line > 0,
    ensures
        line_start_from(s, i, line) == (if s[i] == '\n' {
            line_start_from(s, i + 1, (line - 1) as nat)
        } else {
            line_start_from(s, i + 1, line)
        }),
{
}

proof fn lemma_run_split(s: Seq<char>, st: int, i: int)
    requires
        0 <= st <= i <= s.len(),
        forall|k: int| st <= k < i ==> s[k] != '\n',
    ensures
        run_to_newline(s, st) == (i - st) + run_to_newline(s, i),
    decreases i - st,
{
    if st < i {
        lemma_run_split(s, st + 1, i);
    }
}

/// Returns the byte offset of `pos` in `content`; the column is clamped to
/// the end of its line, and a line past the last gives the content's length.
pub fn position_to_byte_offset(content: &str, pos: Position) -> (r: usize)
    ensures
        r == position_offset(content@, pos.line as nat, pos.col as nat),
{
    let ghost s = content@;
    let total_bytes = content.as_bytes().len();
    assert(utf8_len(s) == total_bytes);
    let chars = chars_of(content);
    let n = chars.len();
    let mut i: usize = 0;
    let mut line: usize = 0;
    let mut bytes: usize = 0;
    assert(s.take(0) =~= Seq::<char>::empty());
    assert(vstd::utf8::encode_utf8(Seq::<char>::empty()) =~= Seq::<u8>::empty());
    while i < n && line < pos.line
        invariant
            chars@ == s,
            n == s.len(),
            i <= n,
            line <= pos.line,
            bytes == utf8_len(s.take(i as int)),
            utf8_len(s) == total_bytes,
            line_start(s, pos.line as nat) == line_start_from(s, i as int, (pos.line - line) as nat),
        decreases n - i,
    {
        proof {
            lemma_line_start_step(s, i as int, (pos.line - line) as nat);
            assert(s.take(i + 1) =~= s.take(i as int).push(s[i as int]));
            lemma_utf8_len_push(s.take(i as int), s[i as int]);
            lemma_utf8_len_monotone(s, i + 1);
        }
        let w = char_utf8_width(chars[i]);
        if chars[i] == '\n' {
            line = line + 1;
        }
        bytes = bytes + w as usize;
        i = i + 1;
    }
    if line < pos.line {
        assert(s.take(i as int) =~= s);
        return bytes;
    }
    let st: usize = i;
    let mut col: usize = 0;
    while i < n && chars[i] != '\n' && col < pos.col
        invariant
            chars@ == s,
            n == s.len(),
            st <= i <= n,
            i == st + col,
            col <= pos.col,
            bytes == utf8_len(s.take(i as int)),
            utf8_len(s) == total_bytes,
            forall|k: int| st <= k < i ==> s[k] != '\n',
        decreases n - i,
    {
        proof {
            assert(s.take(i + 1) =~= s.take(i as int).push(s[i as int]));
            lemma_utf8_len_push(s.take(i as int), s[i as int]);
            lemma_utf8_len_monotone(s, i + 1);
        }
        let w = char_utf8_width(chars[i]);
        bytes = bytes + w as usize;
        i = i + 1;
        col = col + 1;
    }
    proof {
        lemma_run_split(s, st as int, i as int);
    }
    bytes
}

proof fn lemma_line_col_push(t: Seq<char>, c: char)
    ensures
        line_col(t.push(c)) == (if c == '\n' {
            (line_col(t).0 + 1, 0nat)
        } else {
            (line_col(t).0, line_col(t).1 + 1)
        }),
{
    assert(t.push(c).drop_last() =~= t);
}

proof fn lemma_line_col_bound(t: Seq<char>)
    ensures
        line_col(t).0 <= t.len(),
        line_col(t).1 <= t.len(),
    decreases t.len(),
{
    if t.len() > 0 {
        lemma_line_col_bound(t.drop_last());
    }
}

/// Returns the position of byte offset `byte_offset` in `content`: the line
/// and column just after the characters whose encodings start before it.
pub fn byte_offset_to_position(content: &str, byte_offset: usize) -> (r: Position)
    ensures
        (r.line as nat, r.col as nat) == offset_position(content@, byte_offset as int),
{
    let ghost s = content@;
    let total_bytes = content.as_bytes().len();
    assert(utf8_len(s) == total_bytes);
    let chars = chars_of(content);
    let n = chars.len();
    let mut i: usize = 0;
    let mut line: usize = 0;
    let mut col: usize = 0;
    let mut current: usize = 0;
    assert(s.take(0) =~= Seq::<char>::empty());
    assert(vstd::utf8::encode_utf8(Seq::<char>::empty()) =~= Seq::<u8>::empty());
    while i < n && current < byte_offset
        invariant
            chars@ == s,
            n == s.len(),
            i <= n,
            current == utf8_len(s.take(i as int)),
            utf8_len(s) == total_bytes,
            (line as nat, col as nat) == line_col(s.take(i as int)),
            chars_before_from(s, 0, byte_offset as int) == chars_before_from(
                s,
                i as int,
                byte_offset as int,
            ),
        decreases n - i,
    {
        proof {
            assert(s.take(i + 1) =~= s.take(i as int).push(s[i as int]));
            lemma_utf8_len_push(s.take(i as int), s[i as int]);
            lemma_utf8_len_monotone(s, i + 1);
            lemma_line_col_push(s.take(i as int), s[i as int]);
            lemma_line_col_bound(s.take(i as int));
        }
        let c = chars[i];
        if c == '\n' {
            line = line + 1;
            col = 0;
        } else {
            col = col + 1;
        }
        let w = char_utf8_width(c);
        current = current + w as usize;
        i = i + 1;
    }
    Position::new(line, col)
}

proof fn lemma_line_start_bounds(s: Seq<char>, i: int, n: nat)
    requires
        0 <= i <= s.len(),
    ensures
        line_start_from(s, i, n) matches Some(st) ==> i <= st <= s.len(),
    decreases s.len() - i, n,
{
    if n > 0 && i < s.len() {
        if s[i] == '\n' {
            lemma_line_start_bounds(s, i + 1, (n - 1) as nat);
        } else {
            lemma_line_start_bounds(s, i + 1, n);
        }
    }
}

proof fn lemma_line_start_line_col(s: Seq<char>, i: int, n: nat)
    requires
        0 <= i <= s.len(),
        n >= 1,
        line_start_from(s, i, n) is Some,
    ensures
        line_col(s.take(line_start_from(s, i, n)->0)) == (line_col(s.take(i)).0 + n, 0nat),
    decreases s.len() - i, n,
{
    assert(s.take(i + 1) =~= s.take(i).push(s[i]));
    lemma_line_col_push(s.take(i), s[i]);
    if s[i] == '\n' {
        if n > 1 {
            lemma_line_start_line_col(s, i + 1, (n - 1) as nat);
        }
    } else {
        lemma_line_start_line_col(s, i + 1, n);
    }
}

proof fn lemma_run_no_newline(s: Seq<char>, st: int, t: int)
    requires
        0 <= st,
        0 <= t < run_to_newline(s, st),
    ensures
        st + t < s.len(),
        s[st + t] != '\n',
    decreases t,
{
    if t > 0 {
        lemma_run_no_newline(s, st + 1, t - 1);
    }
}

proof fn lemma_line_col_in_run(s: Seq<char>, st: int, m: int)
    requires
        0 <= st,
        0 <= m <= run_to_newline(s, st),
        st + m <= s.len(),
    ensures
        line_col(s.take(st + m)) == (line_col(s.take(st)).0, (line_col(s.take(st)).1 + m) as nat),
    decreases m,
{
    if m > 0 {
        lemma_line_col_in_run(s, st, m - 1);
        lemma_run_no_newline(s, st, m - 1);
        assert(s.take(st + m) =~= s.take(st + m - 1).push(s[st + m - 1]));
        lemma_line_col_push(s.take(st + m - 1), s[st + m - 1]);
    }
}

proof fn lemma_utf8_len_strict(s: Seq<char>, j: int, k: int)
    requires
        0 <= j < k <= s.len(),
    ensures
        utf8_len(s.take(j)) < utf8_len(s.take(k)),
    decreases k - j,
{
    assert(s.take(k) =~= s.take(k - 1).push(s[k - 1]));
    lemma_utf8_len_push(s.take(k - 1), s[k - 1]);
    if j < k - 1 {
        lemma_utf8_len_strict(s, j, k - 1);
    }
}

proof fn lemma_chars_before_exact(s: Seq<char>, j: int, k: int)
    requires
        0 <= j <= k <= s.len(),
    ensures
        chars_before_from(s, j, utf8_len(s.take(k)) as int) == k,
    decreases k - j,
{
    if j < k {
        lemma_utf8_len_strict(s, j, k);
        lemma_chars_before_exact(s, j + 1, k);
    }
}

/// Converting a position on an existing line to its byte offset and back
/// gives the same line, with the column cut to the line's length.
pub proof fn law_position_offset_round_trip(s: Seq<char>, line: nat, col: nat)
    requires
        line_start(s, line) is Some,
    ensures
        ({
            let run = run_to_newline(s, line_start(s, line)->0);
            offset_position(s, position_offset(s, line, col) as int) == (line, if col < run {
                col
            } else {
                run
            })
        }),
{
    let st = line_start(s, line)->0;
    lemma_line_start_bounds(s, 0, line);
    let run = run_to_newline(s, st);
    let c: int = if col < run {
        col as int
    } else {
        run as int
    };
    if run > 0 {
        lemma_run_no_newline(s, st, run - 1);
    }
    assert(st + c <= s.len());
    lemma_chars_before_exact(s, 0, st + c);
    assert(s.take(0) =~= Seq::<char>::empty());
    if line >= 1 {
        lemma_line_start_line_col(s, 0, line);
    }
    lemma_line_col_in_run(s, st, c);
}

// =============================================================================
// Case-insensitive search
// =============================================================================

/// The lower-case mapping of one character (`char::to_lowercase`).
pub uninterp spec fn char_lowercase(c: char) -> Seq<char>;

/// Lower-cases one character with `char::to_lowercase`, which yields one or
/// more characters.
#[verifier::external_body]
fn lowercase_char(c: char) -> (r: Vec<char>)
    ensures
        r@ == char_lowercase(c),
        r@.len() >= 1,
{
    c.to_lowercase().collect()
}

/// `s` with each character replaced by its lower-case mapping.
pub open spec fn lowered(s: Seq<char>) -> Seq<char>
    decreases s.len(),
{
    if s.len() == 0 {
        Seq::empty()
    } else {
        lowered(s.drop_last()) + char_lowercase(s.last())
    }
}

/// The end of the shortest run of characters of `c` starting at `i`, and
/// ending at `j` or later, whose lower-cased form is `ql`.
pub open spec fn match_end_from(c: Seq<char>, ql: Seq<char>, i: int, j: int) -> Option<int>
    decreases c.len() + 1 - j,
{
    if i < 0 || j < i || j > c.len() {
        None
    } else if lowered(c.subrange(i, j)) == ql {
        Some(j)
    } else {
        match_end_from(c, ql, i, j + 1)
    }
}

/// The first match of `ql` that starts at a character index from `i` on and
/// ends at or before `hi`: its start and end character indices. A match is
/// a run of characters whose lower-cased form is `ql`; from a given start,
/// the shortest such run counts.
pub open spec fn first_match(c: Seq<char>, ql: Seq<char>, i: int, hi: int) -> Option<(int, int)>
    decreases hi - i,
{
    if i < 0 || i >= hi {
        None
    } else {
        match match_end_from(c, ql, i, i) {
            Some(j) => if j <= hi {
                Some((i, j))
            } else {
                first_match(c, ql, i + 1, hi)
            },
            None => first_match(c, ql, i + 1, hi),
        }
    }
}

/// The character index of a position: the column is clamped to the end of
/// its line, and a line past the last one gives the end of the content.
pub open spec fn position_char_index(s: Seq<char>, line: nat, col: nat) -> int {
    match line_start(s, line) {
        Some(st) => {
            let run = run_to_newline(s, st);
            st + if col < run {
                col as int
            } else {
                run as int
            }
        },
        None => s.len() as int,
    }
}

/// The match found by a case-insensitive search for `query` from
/// `(line, col)`: the first match starting at or after that position, else
/// (wrapping around) the first one that ends at or before it. The result is
/// the match's range in `content`, as the positions of its first character
/// and of the character just after it. `None` for an empty query or no match.
pub open spec fn find_match_spec(content: Seq<char>, query: Seq<char>, line: nat, col: nat) -> Option<
    ((nat, nat), (nat, nat)),
> {
    let ql = lowered(query);
    let s = position_char_index(content, line, col);
    let found = match first_match(content, ql, s, content.len() as int) {
        Some(m) => Some(m),
        None => if s > 0 {
            first_match(content, ql, 0, s)
        } else {
            None
        },
    };
    if query.len() == 0 {
        None
    } else {
        match found {
            Some((a, b)) => Some((line_col(content.take(a)), line_col(content.take(b)))),
            None => None,
        }
    }
}

/// The line and column of a position.
pub open spec fn pos_view(p: Position) -> (nat, nat) {
    (p.line as nat, p.col as nat)
}

/// The matches of a search, as pairs of line and column.
pub open spec fn match_view(r: Option<(Position, Position)>) -> Option<((nat, nat), (nat, nat))> {
    match r {
        Some((a, b)) => Some((pos_view(a), pos_view(b))),
        None => None,
    }
}

proof fn lemma_lowered_push(s: Seq<char>, x: char)
    ensures
        lowered(s.push(x)) == lowered(s) + char_lowercase(x),
{
    assert(s.push(x).drop_last() =~= s);
}

/// Once the lower-cased run from `i` to `j` is no prefix of `ql`, no longer
/// run from `i` matches.
proof fn lemma_no_match_past(c: Seq<char>, ql: Seq<char>, i: int, j: int)
    requires
        0 <= i <= j <= c.len(),
        !(lowered(c.subrange(i, j)).len() <= ql.len() && ql.take(
            lowered(c.subrange(i, j)).len() as int,
        ) == lowered(c.subrange(i, j))),
    ensures
        match_end_from(c, ql, i, j) is None,
    decreases c.len() - j,
{
    let l = lowered(c.subrange(i, j));
    if l == ql {
        assert(ql.take(ql.len() as int) =~= ql);
    }
    if j < c.len() {
        assert(c.subrange(i, j + 1) =~= c.subrange(i, j).push(c[j]));
        lemma_lowered_push(c.subrange(i, j), c[j]);
        let l2 = lowered(c.subrange(i, j + 1));
        assert(l2 == l + char_lowercase(c[j]));
        if l2.len() <= ql.len() && ql.take(l2.len() as int) == l2 {
            assert(ql.take(l.len() as int) =~= l2.take(l.len() as int));
            assert(l2.take(l.len() as int) =~= l);
            assert(false);
        }
        lemma_no_match_past(c, ql, i, j + 1);
    } else {
        assert(match_end_from(c, ql, i, j + 1) is None);
    }
}

/// Lower-cases every character of `v`.
fn lowercase_each(v: &Vec<char>) -> (r: Vec<Vec<char>>)
    ensures
        r@.len() == v@.len(),
        forall|k: int| 0 <= k < v@.len() ==> #[trigger] r@[k]@ == char_lowercase(v@[k]),
{
    let mut r: Vec<Vec<char>> = Vec::new();
    let mut k: usize = 0;
    while k < v.len()
        invariant
            k <= v@.len(),
            r@.len() == k,
            forall|m: int| 0 <= m < k ==> #[trigger] r@[m]@ == char_lowercase(v@[m]),
        decreases v@.len() - k,
    {
        r.push(lowercase_char(v[k]));
        k = k + 1;
    }
    r
}

/// The lower-cased form of `v`, flattened.
fn lowercase_all(v: &Vec<char>) -> (r: Vec<char>)
    ensures
        r@ == lowered(v@),
{
    let mut r: Vec<char> = Vec::new();
    let mut k: usize = 0;
    assert(v@.take(0) =~= Seq::<char>::empty());
    while k < v.len()
        invariant
            k <= v@.len(),
            r@ == lowered(v@.take(k as int)),
        decreases v@.len() - k,
    {
        let img = lowercase_char(v[k]);
        let mut t: usize = 0;
        let ghost r0 = r@;
        while t < img.len()
            invariant
                t <= img@.len(),
                r@ == r0 + img@.take(t as int),
            decreases img@.len() - t,
        {
            r.push(img[t]);
            t = t + 1;
            assert(r@ =~= r0 + img@.take(t as int));
        }
        proof {
            assert(img@.take(img@.len() as int) =~= img@);
            assert(v@.take(k + 1) =~= v@.take(k as int).push(v@[k as int]));
            lemma_lowered_push(v@.take(k as int), v@[k as int]);
        }
        k = k + 1;
    }
    assert(v@.take(v@.len() as int) =~= v@);
    r
}

/// Returns the end of the shortest run of characters from `i` whose
/// lower-cased form is `ql`, given the lower-case mapping of each character.
fn match_end_at(c: Ghost<Seq<char>>, images: &Vec<Vec<char>>, ql: &Vec<char>, i: usize) -> (r: Option<
    usize,
>)
    requires
        images@.len() == c@.len(),
        forall|k: int| 0 <= k < c@.len() ==> #[trigger] images@[k]@ == char_lowercase(c@[k]),
        i <= c@.len(),
    ensures
        match r {
            Some(j) => match_end_from(c@, ql@, i as int, i as int) == Some(j as int),
            None => match_end_from(c@, ql@, i as int, i as int) is None,
        },
{
    let ghost cs = c@;
    let n = images.len();
    let mut j: usize = i;
    let mut acc: usize = 0;
    assert(cs.subrange(i as int, i as int) =~= Seq::<char>::empty());
    assert(lowered(Seq::<char>::empty()) =~= Seq::<char>::empty());
    assert(ql@.take(0) =~= Seq::<char>::empty());
    loop
        invariant
            n == cs.len(),
            images@.len() == cs.len(),
            forall|k: int| 0 <= k < cs.len() ==> #[trigger] images@[k]@ == char_lowercase(cs[k]),
            i <= j <= n,
            acc <= ql@.len(),
            lowered(cs.subrange(i as int, j as int)) == ql@.take(acc as int),
            match_end_from(cs, ql@, i as int, i as int) == match_end_from(
                cs,
                ql@,
                i as int,
                j as int,
            ),
            c@ == cs,
        decreases n - j, ql@.len() - acc,
    {
        if acc == ql.len() {
            assert(ql@.take(acc as int) =~= ql@);
            return Some(j);
        }
        assert(lowered(cs.subrange(i as int, j as int)) != ql@);
        if j == n {
            assert(match_end_from(cs, ql@, i as int, n + 1) is None);
            return None;
        }
        let img = &images[j];
        proof {
            assert(cs.subrange(i as int, j + 1) =~= cs.subrange(i as int, j as int).push(cs[j as int]));
            lemma_lowered_push(cs.subrange(i as int, j as int), cs[j as int]);
        }
        let ghost l2 = lowered(cs.subrange(i as int, j + 1));
        assert(images@[j as int]@ == char_lowercase(cs[j as int]));
        assert(l2 == ql@.take(acc as int) + img@);
        if img.len() > ql.len() - acc {
            proof {
                lemma_no_match_past(cs, ql@, i as int, j + 1);
            }
            return None;
        }
        assert(match_end_from(cs, ql@, i as int, j as int) == match_end_from(
            cs,
            ql@,
            i as int,
            j + 1,
        ));
        let mut t: usize = 0;
        while t < img.len()
            invariant
                acc + img@.len() <= ql.len(),
                ql@.len() == ql.len(),
                t <= img@.len(),
                l2 == ql@.take(acc as int) + img@,
                i < j + 1 <= cs.len(),
                l2 == lowered(cs.subrange(i as int, j + 1)),
                c@ == cs,
                match_end_from(cs, ql@, i as int, i as int) == match_end_from(
                    cs,
                    ql@,
                    i as int,
                    j + 1,
                ),
                forall|m: int| 0 <= m < t ==> img@[m] == ql@[acc + m],
            decreases img@.len() - t,
        {
            if img[t] != ql[acc + t] {
                proof {
                    assert(l2[acc + t] == img@[t as int]);
                    if l2.len() <= ql@.len() && ql@.take(l2.len() as int) == l2 {
                        assert(ql@.take(l2.len() as int)[acc + t] == ql@[acc + t]);
                    }
                    lemma_no_match_past(cs, ql@, i as int, j + 1);
                }
                return None;
            }
            t = t + 1;
        }
        proof {
            assert(l2 =~= ql@.take(acc + img@.len()));
        }
        acc = acc + img.len();
        j = j + 1;
    }
}

/// Returns the first match of `ql` starting at a character index from `lo`
/// on and ending at or before `hi`.
fn first_match_in(c: Ghost<Seq<char>>, images: &Vec<Vec<char>>, ql: &Vec<char>, lo: usize, hi: usize) -> (r:
    Option<(usize, usize)>)
    requires
        images@.len() == c@.len(),
        forall|k: int| 0 <= k < c@.len() ==> #[trigger] images@[k]@ == char_lowercase(c@[k]),
        hi <= c@.len(),
    ensures
        match r {
            Some((a, b)) => first_match(c@, ql@, lo as int, hi as int) == Some((a as int, b as int)),
            None => first_match(c@, ql@, lo as int, hi as int) is None,
        },
{
    let mut i: usize = lo;
    while i < hi
        invariant
            images@.len() == c@.len(),
            forall|k: int| 0 <= k < c@.len() ==> #[trigger] images@[k]@ == char_lowercase(c@[k]),
            hi <= c@.len(),
            lo <= i,
            first_match(c@, ql@, lo as int, hi as int) == first_match(c@, ql@, i as int, hi as int),
        decreases hi - i,
    {
        match match_end_at(c, images, ql, i) {
            Some(j) => {
                if j <= hi {
                    return Some((i, j));
                }
            },
            None => {},
        }
        i = i + 1;
    }
    None
}

/// Returns the character index of `pos` in `chars`.
fn position_to_char_index(chars: &Vec<char>, pos: Position) -> (r: usize)
    ensures
        r == position_char_index(chars@, pos.line as nat, pos.col as nat),
{
    let ghost s = chars@;
    let n = chars.len();
    let mut i: usize = 0;
    let mut line: usize = 0;
    while i < n && line < pos.line
        invariant
            chars@ == s,
            n == s.len(),
            i <= n,
            line <= pos.line,
            line_start(s, pos.line as nat) == line_start_from(s, i as int, (pos.line - line) as nat),
        decreases n - i,
    {
        proof {
            lemma_line_start_step(s, i as int, (pos.line - line) as nat);
        }
        if chars[i] == '\n' {
            line = line + 1;
        }
        i = i + 1;
    }
    if line < pos.line {
        return n;
    }
    let st: usize = i;
    let mut col: usize = 0;
    while i < n && chars[i] != '\n' && col < pos.col
        invariant
            chars@ == s,
            n == s.len(),
            st <= i <= n,
            i == st + col,
            col <= pos.col,
            forall|k: int| st <= k < i ==> s[k] != '\n',
        decreases n - i,
    {
        i = i + 1;
        col = col + 1;
    }
    proof {
        lemma_run_split(s, st as int, i as int);
    }
    i
}

/// Returns the position (line and column) just after the first `k`
/// characters of `chars`.
fn position_after(chars: &Vec<char>, k: usize) -> (r: Position)
    requires
        k <= chars@.len(),
    ensures
        pos_view(r) == line_col(chars@.take(k as int)),
{
    let ghost s = chars@;
    let mut i: usize = 0;
    let mut line: usize = 0;
    let mut col: usize = 0;
    assert(s.take(0) =~= Seq::<char>::empty());
    while i < k
        invariant
            chars@ == s,
            i <= k <= s.len(),
            (line as nat, col as nat) == line_col(s.take(i as int)),
        decreases k - i,
    {
        proof {
            assert(s.take(i + 1) =~= s.take(i as int).push(s[i as int]));
            lemma_line_col_push(s.take(i as int), s[i as int]);
            lemma_line_col_bound(s.take(i as int));
        }
        if chars[i] == '\n' {
            line = line + 1;
            col = 0;
        } else {
            col = col + 1;
        }
        i = i + 1;
    }
    Position::new(line, col)
}

/// Finds the next match of `query` in `content`, case-insensitively, from
/// `start_pos`: forward to the end of the content first, then wrapping
/// around from the beginning up to `start_pos`. A match is a run of
/// characters of `content` whose lower-cased form is the lower-cased query
/// (each character lower-cased on its own). Returns the match's range in
/// `content`: the positions of its first character and of the character
/// just after it; `None` when the query is empty or does not occur.
pub fn find_next_match(content: &str, query: &str, start_pos: Position) -> (r: Option<
    (Position, Position),
>)
    ensures
        match_view(r) == find_match_spec(
            content@,
            query@,
            start_pos.line as nat,
            start_pos.col as nat,
        ),
{
    if query.is_empty() {
        return None;
    }
    let chars = chars_of(content);
    let query_chars = chars_of(query);
    let ql = lowercase_all(&query_chars);
    let images = lowercase_each(&chars);
    let c = Ghost(chars@);
    let start = position_to_char_index(&chars, start_pos);
    proof {
        lemma_line_start_bounds(chars@, 0, start_pos.line as nat);
        let st = line_start(chars@, start_pos.line as nat);
        if st is Some {
            let run = run_to_newline(chars@, st->0);
            if run > 0 {
                lemma_run_no_newline(chars@, st->0, run - 1);
            }
        }
    }
    let found = match first_match_in(c, &images, &ql, start, chars.len()) {
        Some(m) => Some(m),
        None => {
            if start > 0 {
                first_match_in(c, &images, &ql, 0, start)
            } else {
                None
            }
        },
    };
    match found {
        Some((a, b)) => {
            proof {
                lemma_match_bounds(chars@, ql@, 0, chars@.len() as int);
                lemma_match_bounds(chars@, ql@, start as int, chars@.len() as int);
                lemma_match_bounds(chars@, ql@, 0, start as int);
            }
            Some((position_after(&chars, a), position_after(&chars, b)))
        },
        None => None,
    }
}

/// The search never misses an occurrence, and finds the first one: when some
/// non-empty run of characters of `content` lower-cases to the lower-cased
/// query and either starts at or after the search position or ends at or
/// before it (so that wrapping around reaches it), a match is found. A match
/// found is such a run, given by the positions of its ends: the one that
/// starts first at or after the search position, or, when no run starts
/// there, the one that starts first among those ending at or before it.
pub proof fn law_search_finds_first_occurrence(
    content: Seq<char>,
    query: Seq<char>,
    line: nat,
    col: nat,
    a: int,
    b: int,
)
    ensures
        ({
            let s = position_char_index(content, line, col);
            (query.len() > 0 && 0 <= a < b <= content.len() && lowered(content.subrange(a, b))
                == lowered(query) && (s <= a || b <= s)) ==> find_match_spec(
                content,
                query,
                line,
                col,
            ) is Some
        }),
        find_match_spec(content, query, line, col) matches Some((p1, p2)) ==> exists|x: int, y: int|
            {
                let s = position_char_index(content, line, col);
                &&& 0 <= x <= y <= content.len()
                &&& #[trigger] lowered(content.subrange(x, y)) == lowered(query)
                &&& p1 == line_col(content.take(x))
                &&& p2 == line_col(content.take(y))
                &&& forall|a2: int, b2: int|
                    s <= a2 < b2 <= content.len() && #[trigger] lowered(content.subrange(a2, b2))
                        == lowered(query) ==> s <= x <= a2
                &&& x < s ==> y <= s && forall|a2: int, b2: int|
                    0 <= a2 < b2 <= s && #[trigger] lowered(content.subrange(a2, b2)) == lowered(
                        query,
                    ) ==> x <= a2
            },
{
    let ql = lowered(query);
    let s = position_char_index(content, line, col);
    let n = content.len() as int;
    lemma_position_char_index_bounds(content, line, col);
    if query.len() > 0 && 0 <= a < b <= n && lowered(content.subrange(a, b)) == ql {
        if s <= a {
            lemma_first_match_found(content, ql, s, n, a, b);
        } else if b <= s {
            if first_match(content, ql, s, n) is None {
                lemma_first_match_found(content, ql, 0, s, a, b);
            }
        }
    }
    lemma_first_match_sound(content, ql, s, n);
    lemma_first_match_sound(content, ql, 0, s);
    lemma_match_bounds(content, ql, s, n);
    lemma_match_bounds(content, ql, 0, s);
    lemma_first_match_range(content, ql, s, n);
    lemma_first_match_range(content, ql, 0, s);
    if query.len() > 0 {
        match first_match(content, ql, s, n) {
            Some((x, y)) => {
                assert forall|a2: int, b2: int|
                    s <= a2 < b2 <= n && #[trigger] lowered(content.subrange(a2, b2)) == ql implies s
                    <= x <= a2 by {
                    lemma_first_match_found(content, ql, s, n, a2, b2);
                }
                assert(lowered(content.subrange(x, y)) == ql);
            },
            None => {
                if s > 0 {
                    match first_match(content, ql, 0, s) {
                        Some((x, y)) => {
                            assert forall|a2: int, b2: int|
                                s <= a2 < b2 <= n && #[trigger] lowered(content.subrange(a2, b2))
                                    == ql implies s <= x <= a2 by {
                                lemma_first_match_found(content, ql, s, n, a2, b2);
                            }
                            assert forall|a2: int, b2: int|
                                0 <= a2 < b2 <= s && #[trigger] lowered(content.subrange(a2, b2))
                                    == ql implies x <= a2 by {
                                lemma_first_match_found(content, ql, 0, s, a2, b2);
                            }
                            assert(lowered(content.subrange(x, y)) == ql);
                        },
                        None => {},
                    }
                }
            },
        }
    }
}

/// A match found from `lo` up to `hi` starts in `[lo, hi)`.
proof fn lemma_first_match_range(c: Seq<char>, ql: Seq<char>, lo: int, hi: int)
    ensures
        first_match(c, ql, lo, hi) matches Some((x, y)) ==> lo <= x < hi,
    decreases hi - lo,
{
    if !(lo < 0 || lo >= hi) {
        lemma_first_match_range(c, ql, lo + 1, hi);
    }
}

proof fn lemma_position_char_index_bounds(s: Seq<char>, line: nat, col: nat)
    ensures
        0 <= position_char_index(s, line, col) <= s.len(),
{
    lemma_line_start_bounds(s, 0, line);
    let st = line_start(s, line);
    if st is Some {
        let run = run_to_newline(s, st->0);
        if run > 0 {
            lemma_run_no_newline(s, st->0, run - 1);
        }
    }
}

/// A run from `i` to `j` that lower-cases to `ql` bounds the shortest one.
proof fn lemma_match_end_found(c: Seq<char>, ql: Seq<char>, i: int, j: int, k: int)
    requires
        0 <= i <= k <= j <= c.len(),
        lowered(c.subrange(i, j)) == ql,
    ensures
        match_end_from(c, ql, i, k) matches Some(e) && e <= j,
    decreases j - k,
{
    if lowered(c.subrange(i, k)) != ql {
        lemma_match_end_found(c, ql, i, j, k + 1);
    }
}

/// A run from `a` to `b` within `[lo, hi]` that lower-cases to `ql` is found,
/// or one that starts before it.
proof fn lemma_first_match_found(c: Seq<char>, ql: Seq<char>, lo: int, hi: int, a: int, b: int)
    requires
        0 <= lo <= a < b <= hi <= c.len(),
        lowered(c.subrange(a, b)) == ql,
    ensures
        first_match(c, ql, lo, hi) matches Some((x, y)) && lo <= x <= a,
    decreases a - lo,
{
    if lo == a {
        lemma_match_end_found(c, ql, a, b, a);
    } else {
        match match_end_from(c, ql, lo, lo) {
            Some(j) => if j > hi {
                lemma_first_match_found(c, ql, lo + 1, hi, a, b);
            },
            None => {
                lemma_first_match_found(c, ql, lo + 1, hi, a, b);
            },
        }
    }
}

proof fn lemma_match_end_sound(c: Seq<char>, ql: Seq<char>, i: int, j: int)
    ensures
        match_end_from(c, ql, i, j) matches Some(e) ==> lowered(c.subrange(i, e)) == ql,
    decreases c.len() + 1 - j,
{
    if !(i < 0 || j < i || j > c.len()) && lowered(c.subrange(i, j)) != ql {
        lemma_match_end_sound(c, ql, i, j + 1);
    }
}

/// Every match found lower-cases to `ql`.
proof fn lemma_first_match_sound(c: Seq<char>, ql: Seq<char>, i: int, hi: int)
    ensures
        first_match(c, ql, i, hi) matches Some((a, b)) ==> lowered(c.subrange(a, b)) == ql,
    decreases hi - i,
{
    if !(i < 0 || i >= hi) {
        lemma_match_end_sound(c, ql, i, i);
        lemma_first_match_sound(c, ql, i + 1, hi);
    }
}

proof fn lemma_match_end_bounds(c: Seq<char>, ql: Seq<char>, i: int, j: int)
    ensures
        match_end_from(c, ql, i, j) matches Some(e) ==> 0 <= i <= e <= c.len(),
    decreases c.len() + 1 - j,
{
    if !(i < 0 || j < i || j > c.len()) && lowered(c.subrange(i, j)) != ql {
        lemma_match_end_bounds(c, ql, i, j + 1);
    }
}

proof fn lemma_match_bounds(c: Seq<char>, ql: Seq<char>, i: int, hi: int)
    ensures
        first_match(c, ql, i, hi) matches Some((a, b)) ==> 0 <= a <= b <= hi && b <= c.len(),
    decreases hi - i,
{
    if !(i < 0 || i >= hi) {
        lemma_match_end_bounds(c, ql, i, i);
        lemma_match_bounds(c, ql, i + 1, hi);
    }
}

} // verus!
