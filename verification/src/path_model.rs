//! A model of Unix paths as strings.
//!
//! Paths are held as `String`s. Their meaning follows `std::path::Path` on a
//! Unix platform: a path is split on `/` into segments, empty segments and
//! `.` segments (other than a leading `.`) are dropped, a leading `/` is the
//! root, `..` is the parent directory, and everything else is a normal
//! component. Two paths are equal when their components are equal, and paths
//! are ordered lexicographically by their components.

use vstd::prelude::*;

verus! {

// =============================================================================
// Characters and strings
// =============================================================================

/// Collects the characters of `s` into a vector.
pub fn chars_of(s: &str) -> (v: Vec<char>)
    ensures
        v@ == s@,
{
    let mut v: Vec<char> = Vec::new();
    for c in it: s.chars()
        invariant
            v@ == it.seq().take(it.index() as int),
            it.seq() == s@,
    {
        v.push(c);
    }
    v
}

/// Appends one character to a string (`String::push`).
#[verifier::external_body]
pub(crate) fn string_push(s: &mut String, c: char)
    ensures
        final(s)@ == old(s)@.push(c),
{
    s.push(c);
}

/// Builds a string from a slice of characters.
pub fn string_from_chars(v: &[char]) -> (s: String)
    ensures
        s@ == v@,
{
    let mut s = String::new();
    let mut i: usize = 0;
    while i < v.len()
        invariant
            i <= v@.len(),
            s@ == v@.take(i as int),
        decreases v@.len() - i,
    {
        string_push(&mut s, v[i]);
        i = i + 1;
        assert(v@.take(i as int) =~= v@.take((i - 1) as int).push(v@[i - 1]));
    }
    assert(v@.take(v@.len() as int) =~= v@);
    s
}

/// Compares two character slices for equality.
pub fn chars_eq(a: &[char], b: &[char]) -> (r: bool)
    ensures
        r == (a@ == b@),
{
    if a.len() != b.len() {
        return false;
    }
    let mut i: usize = 0;
    while i < a.len()
        invariant
            a@.len() == b@.len(),
            i <= a@.len(),
            forall|k: int| 0 <= k < i ==> a@[k] == b@[k],
        decreases a@.len() - i,
    {
        if a[i] != b[i] {
            return false;
        }
        i = i + 1;
    }
    assert(a@ =~= b@);
    true
}

/// Compares two strings for equality of their characters.
pub fn str_eq(a: &str, b: &str) -> (r: bool)
    ensures
        r == (a@ == b@),
{
    let va = chars_of(a);
    let vb = chars_of(b);
    chars_eq(va.as_slice(), vb.as_slice())
}

// =============================================================================
// Segments and components
// =============================================================================

/// The `/`-separated segments of `p` from position `i`, where `cur` holds the
/// characters of the segment being read.
pub open spec fn segments_from(p: Seq<char>, i: int, cur: Seq<char>) -> Seq<Seq<char>>
    decreases p.len() - i,
{
    if i >= p.len() {
        seq![cur]
    } else if p[i] == '/' {
        seq![cur] + segments_from(p, i + 1, Seq::empty())
    } else {
        segments_from(p, i + 1, cur.push(p[i]))
    }
}

/// The `/`-separated segments of `p` (empty segments included).
pub open spec fn segments(p: Seq<char>) -> Seq<Seq<char>> {
    segments_from(p, 0, Seq::empty())
}

/// A component of a path, as `std::path::Component` has it on Unix.
pub enum Comp {
    Root,
    Cur,
    Parent,
    Normal(Seq<char>),
}

pub open spec fn is_dot(s: Seq<char>) -> bool {
    s.len() == 1 && s[0] == '.'
}

pub open spec fn is_dot_dot(s: Seq<char>) -> bool {
    s.len() == 2 && s[0] == '.' && s[1] == '.'
}

/// The component a segment stands for, away from the start of the path.
pub open spec fn segment_comp(s: Seq<char>) -> Option<Comp> {
    if s.len() == 0 || is_dot(s) {
        None
    } else if is_dot_dot(s) {
        Some(Comp::Parent)
    } else {
        Some(Comp::Normal(s))
    }
}

/// The components of a list of segments (none of them at the start of the path).
pub open spec fn normalize(segs: Seq<Seq<char>>) -> Seq<Comp>
    decreases segs.len(),
{
    if segs.len() == 0 {
        Seq::empty()
    } else {
        let r = normalize(segs.drop_last());
        match segment_comp(segs.last()) {
            Some(c) => r.push(c),
            None => r,
        }
    }
}

/// The components of the path `p`.
pub open spec fn components(p: Seq<char>) -> Seq<Comp> {
    let segs = segments(p);
    if p.len() > 0 && p[0] == '/' {
        seq![Comp::Root] + normalize(segs.drop_first())
    } else if is_dot(segs[0]) {
        seq![Comp::Cur] + normalize(segs.drop_first())
    } else {
        normalize(segs)
    }
}

/// A component, held as executable data.
pub enum PathComponent {
    RootDir,
    CurDir,
    ParentDir,
    Normal(Vec<char>),
}

impl PathComponent {
    pub open spec fn view_comp(&self) -> Comp {
        match self {
            PathComponent::RootDir => Comp::Root,
            PathComponent::CurDir => Comp::Cur,
            PathComponent::ParentDir => Comp::Parent,
            PathComponent::Normal(v) => Comp::Normal(v@),
        }
    }
}

pub open spec fn comps_view(v: Seq<PathComponent>) -> Seq<Comp> {
    v.map_values(|c: PathComponent| c.view_comp())
}

pub open spec fn segs_view(v: Seq<Vec<char>>) -> Seq<Seq<char>> {
    v.map_values(|c: Vec<char>| c@)
}

proof fn lemma_segments_from_len(p: Seq<char>, i: int, cur: Seq<char>)
    ensures
        segments_from(p, i, cur).len() >= 1,
    decreases p.len() - i,
{
    if i >= p.len() {
    } else if p[i] == '/' {
        lemma_segments_from_len(p, i + 1, Seq::empty());
    } else {
        lemma_segments_from_len(p, i + 1, cur.push(p[i]));
    }
}

/// Splits `p` on `/` into its segments.
pub fn split_segments(p: &[char]) -> (r: Vec<Vec<char>>)
    ensures
        segs_view(r@) == segments(p@),
{
    let mut acc: Vec<Vec<char>> = Vec::new();
    let mut cur: Vec<char> = Vec::new();
    let mut i: usize = 0;
    while i < p.len()
        invariant
            i <= p@.len(),
            segments(p@) == segs_view(acc@) + segments_from(p@, i as int, cur@),
        decreases p@.len() - i,
    {
        let c = p[i];
        if c == '/' {
            let ghost old_acc = acc@;
            let ghost old_cur = cur@;
            acc.push(cur);
            cur = Vec::new();
            assert(segs_view(acc@) =~= segs_view(old_acc).push(old_cur));
            assert(segs_view(acc@) + segments_from(p@, i + 1, cur@) =~= segs_view(old_acc) + (
            seq![old_cur] + segments_from(p@, i + 1, Seq::empty())));
        } else {
            cur.push(c);
        }
        i = i + 1;
    }
    let ghost old_acc = acc@;
    let ghost old_cur = cur@;
    acc.push(cur);
    assert(segs_view(acc@) =~= segs_view(old_acc).push(old_cur));
    assert(segs_view(acc@) =~= segs_view(old_acc) + seq![old_cur]);
    acc
}

fn segment_is_dot(s: &Vec<char>) -> (r: bool)
    ensures
        r == is_dot(s@),
{
    s.len() == 1 && s[0] == '.'
}

fn segment_is_dot_dot(s: &Vec<char>) -> (r: bool)
    ensures
        r == is_dot_dot(s@),
{
    s.len() == 2 && s[0] == '.' && s[1] == '.'
}

/// Appends the components of `segs[start..]` to `out`.
fn push_normalized(out: &mut Vec<PathComponent>, segs: &Vec<Vec<char>>, start: usize)
    requires
        start <= segs@.len(),
    ensures
        comps_view(final(out)@) == comps_view(old(out)@) + normalize(
            segs_view(segs@).subrange(start as int, segs@.len() as int),
        ),
{
    let ghost base = comps_view(out@);
    let mut i: usize = start;
    assert(segs_view(segs@).subrange(start as int, start as int) =~= Seq::<Seq<char>>::empty());
    while i < segs.len()
        invariant
            start <= i <= segs@.len(),
            comps_view(out@) == base + normalize(segs_view(segs@).subrange(start as int, i as int)),
        decreases segs@.len() - i,
    {
        let s = &segs[i];
        let ghost prev = segs_view(segs@).subrange(start as int, i as int);
        let ghost next = segs_view(segs@).subrange(start as int, i + 1);
        assert(next.drop_last() =~= prev);
        assert(next.last() == s@);
        if s.len() == 0 || segment_is_dot(s) {
        } else if segment_is_dot_dot(s) {
            let ghost before = out@;
            out.push(PathComponent::ParentDir);
            assert(comps_view(out@) =~= comps_view(before).push(Comp::Parent));
        } else {
            let ghost before = out@;
            out.push(PathComponent::Normal(s.clone()));
            assert(comps_view(out@) =~= comps_view(before).push(Comp::Normal(s@)));
        }
        i = i + 1;
    }
    assert(comps_view(out@) == base + normalize(segs_view(segs@).subrange(start as int, segs@.len() as int)));
}

/// Returns the components of the path given by its characters.
pub fn path_components(p: &[char]) -> (r: Vec<PathComponent>)
    ensures
        comps_view(r@) == components(p@),
{
    let segs = split_segments(p);
    proof {
        lemma_segments_from_len(p@, 0, Seq::empty());
    }
    let mut out: Vec<PathComponent> = Vec::new();
    let start: usize;
    if p.len() > 0 && p[0] == '/' {
        out.push(PathComponent::RootDir);
        start = 1;
    } else if segment_is_dot(&segs[0]) {
        out.push(PathComponent::CurDir);
        start = 1;
    } else {
        start = 0;
    }
    let ghost base = comps_view(out@);
    push_normalized(&mut out, &segs, start);
    proof {
        let sv = segs_view(segs@);
        if start == 1 {
            assert(sv.subrange(1, sv.len() as int) =~= sv.drop_first());
        } else {
            assert(sv.subrange(0, sv.len() as int) =~= sv);
            assert(base =~= Seq::<Comp>::empty());
            assert(comps_view(out@) =~= normalize(sv));
        }
    }
    out
}

/// Returns the components of the path `p`.
pub fn str_components(p: &str) -> (r: Vec<PathComponent>)
    ensures
        comps_view(r@) == components(p@),
{
    let v = chars_of(p);
    path_components(v.as_slice())
}

// =============================================================================
// Exclusion rules
// =============================================================================

/// True when a component name is excluded from indexing: dotfiles and
/// dot-directories, `target` and `node_modules`.
pub open spec fn name_excluded(s: Seq<char>) -> bool {
    (s.len() > 0 && s[0] == '.') || s == seq!['t', 'a', 'r', 'g', 'e', 't'] || s == seq![
        'n',
        'o',
        'd',
        'e',
        '_',
        'm',
        'o',
        'd',
        'u',
        'l',
        'e',
        's',
    ]
}

/// True when some normal component of `p` has an excluded name.
pub open spec fn path_excluded(p: Seq<char>) -> bool {
    let cs = components(p);
    exists|i: int| 0 <= i < cs.len() && #[trigger] comp_excluded(cs[i])
}

pub open spec fn comp_excluded(c: Comp) -> bool {
    match c {
        Comp::Normal(s) => name_excluded(s),
        _ => false,
    }
}

/// A path is excluded exactly when one of its normal components, at any
/// depth, starts with `.` or is named `target` or `node_modules`.
pub proof fn law_excluded_at_any_depth(p: Seq<char>)
    ensures
        path_excluded(p) <==> exists|i: int|
            0 <= i < components(p).len() && (#[trigger] components(p)[i] matches Comp::Normal(n)
                && ((n.len() > 0 && n[0] == '.') || n == seq!['t', 'a', 'r', 'g', 'e', 't'] || n
                == seq!['n', 'o', 'd', 'e', '_', 'm', 'o', 'd', 'u', 'l', 'e', 's'])),
{
    let cs = components(p);
    if path_excluded(p) {
        let i = choose|i: int| 0 <= i < cs.len() && #[trigger] comp_excluded(cs[i]);
        assert(cs[i] matches Comp::Normal(n) && name_excluded(n));
    }
    if exists|i: int|
        0 <= i < cs.len() && (#[trigger] cs[i] matches Comp::Normal(n) && ((n.len() > 0 && n[0]
            == '.') || n == seq!['t', 'a', 'r', 'g', 'e', 't'] || n == seq![
            'n',
            'o',
            'd',
            'e',
            '_',
            'm',
            'o',
            'd',
            'u',
            'l',
            'e',
            's',
        ])) {
        let i = choose|i: int|
            0 <= i < cs.len() && (#[trigger] cs[i] matches Comp::Normal(n) && ((n.len() > 0 && n[0]
                == '.') || n == seq!['t', 'a', 'r', 'g', 'e', 't'] || n == seq![
                'n',
                'o',
                'd',
                'e',
                '_',
                'm',
                'o',
                'd',
                'u',
                'l',
                'e',
                's',
            ]));
        assert(comp_excluded(cs[i]));
    }
}

/// Appending to any path a last component that starts with `.` (other than
/// `.` and `..`), or is named `target` or `node_modules`, gives an excluded
/// path, however deep it lies.
pub proof fn law_excluded_name_appended(a: Seq<char>, name: Seq<char>)
    requires
        name.len() > 0,
        forall|k: int| 0 <= k < name.len() ==> name[k] != '/',
        (name[0] == '.' && !is_dot(name) && !is_dot_dot(name)) || name == seq![
            't',
            'a',
            'r',
            'g',
            'e',
            't',
        ] || name == seq!['n', 'o', 'd', 'e', '_', 'm', 'o', 'd', 'u', 'l', 'e', 's'],
    ensures
        path_excluded(a + seq!['/'] + name),
{
    assert(!is_dot(name) && !is_dot_dot(name));
    lemma_components_append(a, name);
    let cs = components(a + seq!['/'] + name);
    assert(comp_excluded(cs[cs.len() - 1]));
}

/// The segments of `x` from `j` on, when no `/` follows `j`: one segment.
proof fn lemma_segments_no_slash(x: Seq<char>, j: int, cur: Seq<char>)
    requires
        0 <= j <= x.len(),
        forall|k: int| j <= k < x.len() ==> x[k] != '/',
    ensures
        segments_from(x, j, cur) == seq![cur + x.subrange(j, x.len() as int)],
    decreases x.len() - j,
{
    if j < x.len() {
        lemma_segments_no_slash(x, j + 1, cur.push(x[j]));
        assert(cur.push(x[j]) + x.subrange(j + 1, x.len() as int) =~= cur + x.subrange(
            j,
            x.len() as int,
        ));
    } else {
        assert(cur + x.subrange(j, x.len() as int) =~= cur);
    }
}

/// Appending `/name` (no `/` in `name`) adds one last segment, `name`.
proof fn lemma_segments_append(a: Seq<char>, name: Seq<char>, i: int, cur: Seq<char>)
    requires
        0 <= i <= a.len(),
        forall|k: int| 0 <= k < name.len() ==> name[k] != '/',
    ensures
        segments_from(a + seq!['/'] + name, i, cur) == segments_from(a, i, cur).push(name),
    decreases a.len() - i,
{
    let p = a + seq!['/'] + name;
    if i == a.len() {
        assert(p[i] == '/');
        lemma_segments_no_slash(p, i + 1, Seq::empty());
        assert(Seq::<char>::empty() + p.subrange(i + 1, p.len() as int) =~= name);
        assert(seq![cur] + seq![name] =~= seq![cur].push(name));
    } else if a[i] == '/' {
        assert(p[i] == a[i]);
        lemma_segments_append(a, name, i + 1, Seq::empty());
        assert(seq![cur] + segments_from(a, i + 1, Seq::empty()).push(name) =~= (seq![cur]
            + segments_from(a, i + 1, Seq::empty())).push(name));
    } else {
        assert(p[i] == a[i]);
        lemma_segments_append(a, name, i + 1, cur.push(a[i]));
    }
}

/// The last component of `a/name` is `name`, for a plain name (no `/`, not
/// `.` or `..`).
proof fn lemma_components_append(a: Seq<char>, name: Seq<char>)
    requires
        name.len() > 0,
        forall|k: int| 0 <= k < name.len() ==> name[k] != '/',
        !is_dot(name),
        !is_dot_dot(name),
    ensures
        components(a + seq!['/'] + name).len() > 0,
        components(a + seq!['/'] + name).last() == Comp::Normal(name),
{
    let p = a + seq!['/'] + name;
    lemma_segments_append(a, name, 0, Seq::empty());
    lemma_segments_from_len(a, 0, Seq::empty());
    let sa = segments(a);
    let segs = segments(p);
    assert(segs == sa.push(name));
    assert(segment_comp(name) == Some(Comp::Normal(name)));
    assert(sa.drop_first().push(name) =~= segs.drop_first());
    assert(sa.drop_first().push(name).drop_last() =~= sa.drop_first());
    assert(sa.push(name).drop_last() =~= sa);
    assert(segs[0] == sa[0]);
    if p[0] == '/' {
        assert(normalize(segs.drop_first()) == normalize(sa.drop_first()).push(Comp::Normal(name)));
    } else if is_dot(segs[0]) {
        assert(normalize(segs.drop_first()) == normalize(sa.drop_first()).push(Comp::Normal(name)));
    } else {
        assert(normalize(segs) == normalize(sa).push(Comp::Normal(name)));
    }
}

fn name_is_excluded(s: &Vec<char>) -> (r: bool)
    ensures
        r == name_excluded(s@),
{
    if s.len() > 0 && s[0] == '.' {
        return true;
    }
    let target: Vec<char> = vec!['t', 'a', 'r', 'g', 'e', 't'];
    let node_modules: Vec<char> = vec!['n', 'o', 'd', 'e', '_', 'm', 'o', 'd', 'u', 'l', 'e', 's'];
    let t = chars_eq(s.as_slice(), target.as_slice());
    let n = chars_eq(s.as_slice(), node_modules.as_slice());
    assert(target@ =~= seq!['t', 'a', 'r', 'g', 'e', 't']);
    assert(node_modules@ =~= seq!['n', 'o', 'd', 'e', '_', 'm', 'o', 'd', 'u', 'l', 'e', 's']);
    t || n
}

/// Returns true if the path should be excluded from indexing and query results.
///
/// A path is excluded when any of its normal components starts with `.`
/// (dotfiles and dot-directories) or is named `target` or `node_modules`.
pub fn is_excluded(path: &str) -> (r: bool)
    ensures
        r == path_excluded(path@),
{
    let comps = str_components(path);
    let mut i: usize = 0;
    while i < comps.len()
        invariant
            i <= comps@.len(),
            comps_view(comps@) == components(path@),
            forall|k: int| 0 <= k < i ==> !comp_excluded(#[trigger] comps_view(comps@)[k]),
        decreases comps@.len() - i,
    {
        match &comps[i] {
            PathComponent::Normal(name) => {
                if name_is_excluded(name) {
                    assert(comp_excluded(comps_view(comps@)[i as int]));
                    return true;
                }
            },
            _ => {},
        }
        i = i + 1;
    }
    false
}


// =============================================================================
// Path ordering and equality
// =============================================================================

/// Strict lexicographic order on character sequences (code point order, which
/// for UTF-8 text is also the byte order).
pub open spec fn chars_lt(a: Seq<char>, b: Seq<char>) -> bool
    decreases a.len(),
{
    if a.len() == 0 {
        b.len() > 0
    } else if b.len() == 0 {
        false
    } else if a[0] != b[0] {
        a[0] < b[0]
    } else {
        chars_lt(a.drop_first(), b.drop_first())
    }
}

pub open spec fn comp_rank(c: Comp) -> int {
    match c {
        Comp::Root => 0,
        Comp::Cur => 1,
        Comp::Parent => 2,
        Comp::Normal(_) => 3,
    }
}

/// Strict order on components: root, current dir, parent dir, then normal
/// components by name.
pub open spec fn comp_lt(a: Comp, b: Comp) -> bool {
    match (a, b) {
        (Comp::Normal(x), Comp::Normal(y)) => chars_lt(x, y),
        _ => comp_rank(a) < comp_rank(b),
    }
}

/// Strict lexicographic order on component sequences.
pub open spec fn comps_lt(a: Seq<Comp>, b: Seq<Comp>) -> bool
    decreases a.len(),
{
    if a.len() == 0 {
        b.len() > 0
    } else if b.len() == 0 {
        false
    } else if a[0] != b[0] {
        comp_lt(a[0], b[0])
    } else {
        comps_lt(a.drop_first(), b.drop_first())
    }
}

/// Path `a` sorts strictly before path `b`.
pub open spec fn path_lt(a: Seq<char>, b: Seq<char>) -> bool {
    comps_lt(components(a), components(b))
}

/// Paths `a` and `b` are equal (they have the same components).
pub open spec fn path_eq(a: Seq<char>, b: Seq<char>) -> bool {
    components(a) == components(b)
}

pub proof fn lemma_chars_lt_irreflexive(a: Seq<char>)
    ensures
        !chars_lt(a, a),
    decreases a.len(),
{
    if a.len() > 0 {
        lemma_chars_lt_irreflexive(a.drop_first());
    }
}

pub proof fn lemma_chars_lt_transitive(a: Seq<char>, b: Seq<char>, c: Seq<char>)
    requires
        chars_lt(a, b),
        chars_lt(b, c),
    ensures
        chars_lt(a, c),
    decreases a.len(),
{
    if a.len() > 0 && b.len() > 0 && c.len() > 0 && a[0] == b[0] && b[0] == c[0] {
        lemma_chars_lt_transitive(a.drop_first(), b.drop_first(), c.drop_first());
    }
}

pub proof fn lemma_chars_lt_total(a: Seq<char>, b: Seq<char>)
    requires
        a != b,
    ensures
        chars_lt(a, b) || chars_lt(b, a),
    decreases a.len(),
{
    if a.len() == 0 {
        assert(b.len() > 0) by {
            if b.len() == 0 {
                assert(a =~= b);
            }
        }
    } else if b.len() == 0 {
    } else if a[0] == b[0] {
        assert(a.drop_first() != b.drop_first()) by {
            if a.drop_first() == b.drop_first() {
                assert(a =~= seq![a[0]] + a.drop_first());
                assert(b =~= seq![b[0]] + b.drop_first());
            }
        }
        lemma_chars_lt_total(a.drop_first(), b.drop_first());
    }
}

pub proof fn lemma_comp_lt_irreflexive(a: Comp)
    ensures
        !comp_lt(a, a),
{
    if let Comp::Normal(x) = a {
        lemma_chars_lt_irreflexive(x);
    }
}

pub proof fn lemma_comp_lt_transitive(a: Comp, b: Comp, c: Comp)
    requires
        comp_lt(a, b),
        comp_lt(b, c),
    ensures
        comp_lt(a, c),
{
    match (a, b, c) {
        (Comp::Normal(x), Comp::Normal(y), Comp::Normal(z)) => {
            lemma_chars_lt_transitive(x, y, z);
        },
        _ => {},
    }
}

pub proof fn lemma_comp_lt_total(a: Comp, b: Comp)
    requires
        a != b,
    ensures
        comp_lt(a, b) || comp_lt(b, a),
{
    match (a, b) {
        (Comp::Normal(x), Comp::Normal(y)) => {
            lemma_chars_lt_total(x, y);
        },
        _ => {},
    }
}

pub proof fn lemma_comps_lt_irreflexive(a: Seq<Comp>)
    ensures
        !comps_lt(a, a),
    decreases a.len(),
{
    if a.len() > 0 {
        lemma_comps_lt_irreflexive(a.drop_first());
    }
}

pub proof fn lemma_comps_lt_transitive(a: Seq<Comp>, b: Seq<Comp>, c: Seq<Comp>)
    requires
        comps_lt(a, b),
        comps_lt(b, c),
    ensures
        comps_lt(a, c),
    decreases a.len(),
{
    if a.len() > 0 && b.len() > 0 && c.len() > 0 {
        if a[0] == b[0] && b[0] == c[0] {
            lemma_comps_lt_transitive(a.drop_first(), b.drop_first(), c.drop_first());
        } else if a[0] != b[0] && b[0] != c[0] {
            lemma_comp_lt_transitive(a[0], b[0], c[0]);
            if a[0] == c[0] {
                lemma_comp_lt_irreflexive(a[0]);
            }
        }
    }
}

pub proof fn lemma_comps_lt_total(a: Seq<Comp>, b: Seq<Comp>)
    requires
        a != b,
    ensures
        comps_lt(a, b) || comps_lt(b, a),
    decreases a.len(),
{
    if a.len() == 0 {
        assert(b.len() > 0) by {
            if b.len() == 0 {
                assert(a =~= b);
            }
        }
    } else if b.len() == 0 {
    } else if a[0] == b[0] {
        assert(a.drop_first() != b.drop_first()) by {
            if a.drop_first() == b.drop_first() {
                assert(a =~= seq![a[0]] + a.drop_first());
                assert(b =~= seq![b[0]] + b.drop_first());
            }
        }
        lemma_comps_lt_total(a.drop_first(), b.drop_first());
    } else {
        lemma_comp_lt_total(a[0], b[0]);
    }
}

/// Paths are totally ordered: `path_lt` is irreflexive and transitive, and of
/// two paths with different components one sorts before the other.
pub proof fn lemma_path_order(a: Seq<char>, b: Seq<char>, c: Seq<char>)
    ensures
        !path_lt(a, a),
        path_lt(a, b) && path_lt(b, c) ==> path_lt(a, c),
        !path_eq(a, b) ==> path_lt(a, b) || path_lt(b, a),
        path_eq(a, b) ==> !path_lt(a, b),
        path_lt(a, b) ==> !path_lt(b, a),
{
    lemma_comps_lt_irreflexive(components(a));
    if path_lt(a, b) && path_lt(b, c) {
        lemma_comps_lt_transitive(components(a), components(b), components(c));
    }
    if !path_eq(a, b) {
        lemma_comps_lt_total(components(a), components(b));
    }
    if path_lt(a, b) && path_lt(b, a) {
        lemma_comps_lt_transitive(components(a), components(b), components(a));
    }
}

/// The result of comparing two paths.
#[derive(Debug, Clone, Copy, PartialEq, Eq, Structural)]
pub enum PathOrder {
    Less,
    Equal,
    Greater,
}

fn compare_char_slices(a: &Vec<char>, b: &Vec<char>) -> (r: PathOrder)
    ensures
        r == PathOrder::Less <==> chars_lt(a@, b@),
        r == PathOrder::Equal <==> a@ == b@,
        r == PathOrder::Greater <==> chars_lt(b@, a@),
{
    let mut i: usize = 0;
    assert(a@.skip(0) =~= a@);
    assert(b@.skip(0) =~= b@);
    while i < a.len() && i < b.len()
        invariant
            i <= a@.len(),
            i <= b@.len(),
            a@.take(i as int) == b@.take(i as int),
            chars_lt(a@, b@) == chars_lt(a@.skip(i as int), b@.skip(i as int)),
            chars_lt(b@, a@) == chars_lt(b@.skip(i as int), a@.skip(i as int)),
            (a@ == b@) == (a@.skip(i as int) == b@.skip(i as int)),
        decreases a@.len() - i,
    {
        if a[i] != b[i] {
            assert(a@.skip(i as int)[0] == a@[i as int]);
            assert(b@.skip(i as int)[0] == b@[i as int]);
            assert(a@ != b@);
            if a[i] < b[i] {
                return PathOrder::Less;
            } else {
                return PathOrder::Greater;
            }
        }
        proof {
            let sa = a@.skip(i as int);
            let sb = b@.skip(i as int);
            assert(sa.drop_first() =~= a@.skip(i + 1));
            assert(sb.drop_first() =~= b@.skip(i + 1));
            assert(a@.take(i + 1) =~= a@.take(i as int).push(a@[i as int]));
            assert(b@.take(i + 1) =~= b@.take(i as int).push(b@[i as int]));
            assert(sa == sb <==> a@.skip(i + 1) == b@.skip(i + 1)) by {
                if a@.skip(i + 1) == b@.skip(i + 1) {
                    assert(sa =~= seq![sa[0]] + sa.drop_first());
                    assert(sb =~= seq![sb[0]] + sb.drop_first());
                }
            }
        }
        i = i + 1;
    }
    proof {
        if i == a.len() && i == b.len() {
            assert(a@.skip(i as int) =~= Seq::<char>::empty());
            assert(b@.skip(i as int) =~= Seq::<char>::empty());
        }
    }
    if i == a.len() && i == b.len() {
        PathOrder::Equal
    } else if i == a.len() {
        assert(a@.skip(i as int).len() == 0);
        PathOrder::Less
    } else {
        assert(b@.skip(i as int).len() == 0);
        PathOrder::Greater
    }
}

fn comp_rank_of(c: &PathComponent) -> (r: u8)
    ensures
        r as int == comp_rank(c.view_comp()),
{
    match c {
        PathComponent::RootDir => 0,
        PathComponent::CurDir => 1,
        PathComponent::ParentDir => 2,
        PathComponent::Normal(_) => 3,
    }
}

fn compare_components(a: &PathComponent, b: &PathComponent) -> (r: PathOrder)
    ensures
        r == PathOrder::Less <==> comp_lt(a.view_comp(), b.view_comp()),
        r == PathOrder::Equal <==> a.view_comp() == b.view_comp(),
        r == PathOrder::Greater <==> comp_lt(b.view_comp(), a.view_comp()),
{
    match (a, b) {
        (PathComponent::Normal(x), PathComponent::Normal(y)) => compare_char_slices(x, y),
        _ => {
            let ra = comp_rank_of(a);
            let rb = comp_rank_of(b);
            if ra < rb {
                PathOrder::Less
            } else if ra > rb {
                PathOrder::Greater
            } else {
                PathOrder::Equal
            }
        },
    }
}

fn compare_component_seqs(a: &Vec<PathComponent>, b: &Vec<PathComponent>) -> (r: PathOrder)
    ensures
        r == PathOrder::Less <==> comps_lt(comps_view(a@), comps_view(b@)),
        r == PathOrder::Equal <==> comps_view(a@) == comps_view(b@),
        r == PathOrder::Greater <==> comps_lt(comps_view(b@), comps_view(a@)),
{
    let ghost va = comps_view(a@);
    let ghost vb = comps_view(b@);
    let mut i: usize = 0;
    assert(va.skip(0) =~= va);
    assert(vb.skip(0) =~= vb);
    while i < a.len() && i < b.len()
        invariant
            i <= a@.len(),
            i <= b@.len(),
            va == comps_view(a@),
            vb == comps_view(b@),
            comps_lt(va, vb) == comps_lt(va.skip(i as int), vb.skip(i as int)),
            comps_lt(vb, va) == comps_lt(vb.skip(i as int), va.skip(i as int)),
            (va == vb) == (va.skip(i as int) == vb.skip(i as int)),
        decreases a@.len() - i,
    {
        let o = compare_components(&a[i], &b[i]);
        let ghost sa = va.skip(i as int);
        let ghost sb = vb.skip(i as int);
        assert(sa[0] == va[i as int]);
        assert(sb[0] == vb[i as int]);
        if o != PathOrder::Equal {
            assert(sa != sb);
            return o;
        }
        proof {
            assert(sa.drop_first() =~= va.skip(i + 1));
            assert(sb.drop_first() =~= vb.skip(i + 1));
            assert(sa == sb <==> va.skip(i + 1) == vb.skip(i + 1)) by {
                if va.skip(i + 1) == vb.skip(i + 1) {
                    assert(sa =~= seq![sa[0]] + sa.drop_first());
                    assert(sb =~= seq![sb[0]] + sb.drop_first());
                }
            }
        }
        i = i + 1;
    }
    proof {
        if i == a.len() && i == b.len() {
            assert(va.skip(i as int) =~= Seq::<Comp>::empty());
            assert(vb.skip(i as int) =~= Seq::<Comp>::empty());
        }
    }
    if i == a.len() && i == b.len() {
        PathOrder::Equal
    } else if i == a.len() {
        assert(va.skip(i as int).len() == 0);
        PathOrder::Less
    } else {
        assert(vb.skip(i as int).len() == 0);
        PathOrder::Greater
    }
}

/// Compares two paths by their components, as `Path`'s `Ord` does.
pub fn compare_paths(a: &str, b: &str) -> (r: PathOrder)
    ensures
        r == PathOrder::Less <==> path_lt(a@, b@),
        r == PathOrder::Equal <==> path_eq(a@, b@),
        r == PathOrder::Greater <==> path_lt(b@, a@),
{
    let ca = str_components(a);
    let cb = str_components(b);
    compare_component_seqs(&ca, &cb)
}

/// True when the two paths have the same components (`Path`'s `==`).
pub fn paths_equal(a: &str, b: &str) -> (r: bool)
    ensures
        r == path_eq(a@, b@),
{
    compare_paths(a, b) == PathOrder::Equal
}

// =============================================================================
// File names, prefixes and joining
// =============================================================================

/// The final component of `p` when it is a normal component (`Path::file_name`).
pub open spec fn file_name(p: Seq<char>) -> Option<Seq<char>> {
    let cs = components(p);
    if cs.len() > 0 && cs.last() is Normal {
        Some(cs.last()->Normal_0)
    } else {
        None
    }
}

/// Returns the final component of the path when it is a normal component.
pub fn file_name_of(path: &str) -> (r: Option<String>)
    ensures
        match r {
            Some(s) => file_name(path@) == Some(s@),
            None => file_name(path@) is None,
        },
{
    let comps = str_components(path);
    let n = comps.len();
    if n == 0 {
        return None;
    }
    proof {
        assert(comps_view(comps@).last() == comps@[n - 1].view_comp());
    }
    match &comps[n - 1] {
        PathComponent::Normal(v) => Some(string_from_chars(v.as_slice())),
        _ => None,
    }
}

/// The components of `a` are a leading part of the components of `b`
/// (`Path::starts_with`).
pub open spec fn comps_prefix(a: Seq<Comp>, b: Seq<Comp>) -> bool {
    a.len() <= b.len() && b.take(a.len() as int) == a
}

/// The path that `Path::strip_prefix` returns for `path` and `base`.
pub uninterp spec fn stripped_path(path: Seq<char>, base: Seq<char>) -> Seq<char>;

/// `Path::strip_prefix`: when the components of `base` are a leading part of
/// those of `path`, the rest of the path, which joined onto `base` gives
/// `path` back; otherwise `None`.
#[verifier::external_body]
pub(crate) fn strip_path_prefix(path: &str, base: &str) -> (r: Option<String>)
    ensures
        r is Some <==> comps_prefix(components(base@), components(path@)),
        r matches Some(s) ==> s@ == stripped_path(path@, base@) && components(s@) == components(
            path@,
        ).skip(components(base@).len() as int),
{
    match std::path::Path::new(path).strip_prefix(base) {
        Ok(p) => Some(p.to_string_lossy().into_owned()),
        Err(_) => None,
    }
}

/// `path` made relative to `base` when it lies under it, else `path` itself.
pub open spec fn relative_to(path: Seq<char>, base: Seq<char>) -> Seq<char> {
    if comps_prefix(components(base), components(path)) {
        stripped_path(path, base)
    } else {
        path
    }
}

/// Returns `path` relative to `base` when it lies under `base`, else `path`.
pub fn make_relative(path: &str, base: &str) -> (r: String)
    ensures
        r@ == relative_to(path@, base@),
{
    match strip_path_prefix(path, base) {
        Some(s) => s,
        None => path.to_string(),
    }
}

/// `base` joined with the relative file name `name`: a `/` is put between them
/// unless `base` is empty or already ends with `/` (`Path::join` on Unix).
pub open spec fn join_relative(base: Seq<char>, name: Seq<char>) -> Seq<char> {
    if base.len() == 0 || base.last() == '/' {
        base + name
    } else {
        base.push('/') + name
    }
}

} // verus!
