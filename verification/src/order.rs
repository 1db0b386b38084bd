//! The orders of `str` and of `Path`, and stable sorting by them.

use vstd::prelude::*;
use crate::text::{chars_eq, chars_of, split_char, split_char_exec, sviews, views};

verus! {

// ─── Text ─────────────────────────────────────────────────────────────────────

/// `a` sorts before `b` as `str` orders them: by code point, a proper prefix
/// first (the byte order of UTF-8).
pub open spec fn text_less(a: Seq<char>, b: Seq<char>) -> bool
    decreases a.len(),
{
    if a.len() == 0 {
        b.len() > 0
    } else if b.len() == 0 {
        false
    } else if a[0] != b[0] {
        (a[0] as u32) < (b[0] as u32)
    } else {
        text_less(a.drop_first(), b.drop_first())
    }
}

proof fn lemma_text_less_skip(a: Seq<char>, b: Seq<char>, i: int)
    requires
        0 <= i <= a.len(),
        i <= b.len(),
        a.take(i) == b.take(i),
    ensures
        text_less(a, b) == text_less(a.skip(i), b.skip(i)),
    decreases i,
{
    if i > 0 {
        assert(a[0] == a.take(i)[0]);
        assert(b[0] == b.take(i)[0]);
        assert(a.drop_first().take(i - 1) =~= a.take(i).drop_first());
        assert(b.drop_first().take(i - 1) =~= b.take(i).drop_first());
        lemma_text_less_skip(a.drop_first(), b.drop_first(), i - 1);
        assert(a.drop_first().skip(i - 1) =~= a.skip(i));
        assert(b.drop_first().skip(i - 1) =~= b.skip(i));
    } else {
        assert(a.skip(0) =~= a);
        assert(b.skip(0) =~= b);
    }
}

fn chars_less(a: &Vec<char>, b: &Vec<char>) -> (r: bool)
    ensures
        r == text_less(a@, b@),
{
    let mut i: usize = 0;
    while i < a.len() && i < b.len()
        invariant
            i <= a@.len(),
            i <= b@.len(),
            a@.take(i as int) == b@.take(i as int),
        decreases a@.len() - i,
    {
        if a[i] != b[i] {
            proof {
                lemma_text_less_skip(a@, b@, i as int);
                assert(a@.skip(i as int)[0] == a@[i as int]);
                assert(b@.skip(i as int)[0] == b@[i as int]);
            }
            return (a[i] as u32) < (b[i] as u32);
        }
        assert(a@.take(i + 1) =~= a@.take(i as int).push(a@[i as int]));
        assert(b@.take(i + 1) =~= b@.take(i as int).push(b@[i as int]));
        i = i + 1;
    }
    proof {
        lemma_text_less_skip(a@, b@, i as int);
    }
    a.len() < b.len()
}

/// Whether `a` sorts before `b`.
pub fn str_less(a: &str, b: &str) -> (r: bool)
    ensures
        r == text_less(a@, b@),
{
    let x = chars_of(a);
    let y = chars_of(b);
    chars_less(&x, &y)
}

// ─── Paths ────────────────────────────────────────────────────────────────────

/// A component of a Unix path, as `std::path::Component` has them.
pub enum PathComp {
    Root,
    Cur,
    Parent,
    Normal(Seq<char>),
}

/// The components of the pieces after the first: empty pieces and `.` are
/// dropped, `..` is the parent.
pub open spec fn normal_comps(pieces: Seq<Seq<char>>) -> Seq<PathComp>
    decreases pieces.len(),
{
    if pieces.len() == 0 {
        Seq::empty()
    } else {
        let rest = normal_comps(pieces.drop_last());
        let l = pieces.last();
        if l.len() == 0 || l == "."@ {
            rest
        } else if l == ".."@ {
            rest.push(PathComp::Parent)
        } else {
            rest.push(PathComp::Normal(l))
        }
    }
}

/// `Path::components` of `p`: a leading `/` is the root, a leading `.`
/// piece the current directory.
pub open spec fn path_components(p: Seq<char>) -> Seq<PathComp> {
    let pieces = split_char(p, '/');
    if p.len() > 0 && p[0] == '/' {
        seq![PathComp::Root] + normal_comps(pieces.drop_first())
    } else if pieces.len() > 0 && pieces[0] == "."@ {
        seq![PathComp::Cur] + normal_comps(pieces.drop_first())
    } else {
        normal_comps(pieces)
    }
}

pub open spec fn comp_rank(c: PathComp) -> int {
    match c {
        PathComp::Root => 0,
        PathComp::Cur => 1,
        PathComp::Parent => 2,
        PathComp::Normal(_) => 3,
    }
}

/// The order of `Component`: by kind, normal components by their text.
pub open spec fn comp_less(a: PathComp, b: PathComp) -> bool {
    match (a, b) {
        (PathComp::Normal(x), PathComp::Normal(y)) => text_less(x, y),
        _ => comp_rank(a) < comp_rank(b),
    }
}

/// Lexicographic order on component sequences.
pub open spec fn comps_less(a: Seq<PathComp>, b: Seq<PathComp>) -> bool
    decreases a.len(),
{
    if a.len() == 0 {
        b.len() > 0
    } else if b.len() == 0 {
        false
    } else if a[0] != b[0] {
        comp_less(a[0], b[0])
    } else {
        comps_less(a.drop_first(), b.drop_first())
    }
}

/// `a` sorts before `b` as `Path` orders them: component by component.
pub open spec fn path_less(a: Seq<char>, b: Seq<char>) -> bool {
    comps_less(path_components(a), path_components(b))
}

/// `a` and `b` name the same path, as `Path` compares them.
pub open spec fn same_path(a: Seq<char>, b: Seq<char>) -> bool {
    path_components(a) == path_components(b)
}

enum Comp {
    Root,
    Cur,
    Parent,
    Normal(Vec<char>),
}

impl View for Comp {
    type V = PathComp;

    closed spec fn view(&self) -> PathComp {
        match self {
            Comp::Root => PathComp::Root,
            Comp::Cur => PathComp::Cur,
            Comp::Parent => PathComp::Parent,
            Comp::Normal(t) => PathComp::Normal(t@),
        }
    }
}

spec fn comp_views(v: Seq<Comp>) -> Seq<PathComp> {
    Seq::new(v.len(), |i: int| v[i]@)
}

fn is_piece(v: &Vec<char>, c0: char, n: usize) -> (r: bool)
    requires
        n == 1 || n == 2,
    ensures
        n == 1 ==> (r == (v@ == seq![c0])),
        n == 2 ==> (r == (v@ == seq![c0, c0])),
{
    if v.len() != n {
        assert(n == 1 ==> v@ != seq![c0]);
        assert(n == 2 ==> v@ != seq![c0, c0]);
        return false;
    }
    if n == 1 {
        if v[0] == c0 {
            assert(v@ =~= seq![c0]);
            true
        } else {
            assert(v@[0] != seq![c0][0]);
            false
        }
    } else {
        if v[0] == c0 && v[1] == c0 {
            assert(v@ =~= seq![c0, c0]);
            true
        } else {
            assert(v@[0] != seq![c0, c0][0] || v@[1] != seq![c0, c0][1]);
            false
        }
    }
}

/// Appends the components of `pieces[from..]`.
fn push_normal(out: &mut Vec<Comp>, pieces: &Vec<Vec<char>>, from: usize)
    requires
        from <= pieces@.len(),
    ensures
        comp_views(final(out)@) == comp_views(old(out)@) + normal_comps(views(pieces@).skip(from as int)),
{
    proof {
        reveal_strlit(".");
        reveal_strlit("..");
    }
    let ghost start = comp_views(out@);
    let ghost ps = views(pieces@).skip(from as int);
    let mut i: usize = from;
    assert(ps.take(0) =~= Seq::<Seq<char>>::empty());
    assert(comp_views(out@) =~= start + normal_comps(ps.take(0)));
    while i < pieces.len()
        invariant
            from <= i <= pieces@.len(),
            ps == views(pieces@).skip(from as int),
            comp_views(out@) == start + normal_comps(ps.take(i - from)),
        decreases pieces@.len() - i,
    {
        proof {
            reveal_strlit(".");
            reveal_strlit("..");
        }
        let ghost before = comp_views(out@);
        assert(ps.take(i + 1 - from).drop_last() =~= ps.take(i - from));
        assert(ps.take(i + 1 - from).last() == pieces@[i as int]@);
        let p = &pieces[i];
        if p.len() == 0 || is_piece(p, '.', 1) {
            assert("."@ =~= seq!['.']);
        } else if is_piece(p, '.', 2) {
            assert(".."@ =~= seq!['.', '.']);
            out.push(Comp::Parent);
            assert(comp_views(out@) =~= before.push(PathComp::Parent));
        } else {
            assert("."@ =~= seq!['.']);
            assert(".."@ =~= seq!['.', '.']);
            let t = copy_chars(p);
            out.push(Comp::Normal(t));
            assert(comp_views(out@) =~= before.push(PathComp::Normal(p@)));
        }
        i = i + 1;
    }
    assert(ps.take(i - from) =~= ps);
}

fn copy_chars(v: &Vec<char>) -> (r: Vec<char>)
    ensures
        r@ == v@,
{
    let mut out: Vec<char> = Vec::new();
    let mut i: usize = 0;
    while i < v.len()
        invariant
            i <= v@.len(),
            out@ == v@.take(i as int),
        decreases v@.len() - i,
    {
        out.push(v[i]);
        i = i + 1;
        assert(out@ =~= v@.take(i as int));
    }
    assert(v@.take(i as int) =~= v@);
    out
}

fn components(p: &str) -> (r: Vec<Comp>)
    ensures
        comp_views(r@) == path_components(p@),
{
    proof {
        reveal_strlit(".");
    }
    let v = chars_of(p);
    let pieces = split_char_exec(&v, 0, v.len(), '/');
    proof {
        assert(v@.subrange(0, v@.len() as int) =~= v@);
        assert(views(pieces@).skip(0) =~= views(pieces@));
    }
    let mut out: Vec<Comp> = Vec::new();
    if v.len() > 0 && v[0] == '/' {
        out.push(Comp::Root);
        push_normal(&mut out, &pieces, 1);
        assert(views(pieces@).skip(1) =~= views(pieces@).drop_first());
    } else if pieces.len() > 0 && is_piece(&pieces[0], '.', 1) {
        assert("."@ =~= seq!['.']);
        out.push(Comp::Cur);
        push_normal(&mut out, &pieces, 1);
        assert(views(pieces@).skip(1) =~= views(pieces@).drop_first());
    } else {
        assert(pieces@.len() > 0 ==> views(pieces@)[0] != "."@) by {
            assert("."@ =~= seq!['.']);
        }
        push_normal(&mut out, &pieces, 0);
    }
    assert(comp_views(out@) =~= path_components(p@));
    out
}

fn comp_eq(a: &Comp, b: &Comp) -> (r: bool)
    ensures
        r == (a@ == b@),
{
    match (a, b) {
        (Comp::Root, Comp::Root) => true,
        (Comp::Cur, Comp::Cur) => true,
        (Comp::Parent, Comp::Parent) => true,
        (Comp::Normal(x), Comp::Normal(y)) => chars_eq(x, y),
        _ => false,
    }
}

fn comp_less_exec(a: &Comp, b: &Comp) -> (r: bool)
    ensures
        r == comp_less(a@, b@),
{
    match (a, b) {
        (Comp::Normal(x), Comp::Normal(y)) => chars_less(x, y),
        _ => rank(a) < rank(b),
    }
}

fn rank(c: &Comp) -> (r: u8)
    ensures
        r == comp_rank(c@),
{
    match c {
        Comp::Root => 0,
        Comp::Cur => 1,
        Comp::Parent => 2,
        Comp::Normal(_) => 3,
    }
}

proof fn lemma_comps_less_skip(a: Seq<PathComp>, b: Seq<PathComp>, i: int)
    requires
        0 <= i <= a.len(),
        i <= b.len(),
        a.take(i) == b.take(i),
    ensures
        comps_less(a, b) == comps_less(a.skip(i), b.skip(i)),
    decreases i,
{
    if i > 0 {
        assert(a[0] == a.take(i)[0]);
        assert(b[0] == b.take(i)[0]);
        assert(a.drop_first().take(i - 1) =~= a.take(i).drop_first());
        assert(b.drop_first().take(i - 1) =~= b.take(i).drop_first());
        lemma_comps_less_skip(a.drop_first(), b.drop_first(), i - 1);
        assert(a.drop_first().skip(i - 1) =~= a.skip(i));
        assert(b.drop_first().skip(i - 1) =~= b.skip(i));
    } else {
        assert(a.skip(0) =~= a);
        assert(b.skip(0) =~= b);
    }
}

/// Whether path `a` sorts before path `b`.
pub fn path_less_exec(a: &str, b: &str) -> (r: bool)
    ensures
        r == path_less(a@, b@),
{
    let x = components(a);
    let y = components(b);
    let ghost xv = comp_views(x@);
    let ghost yv = comp_views(y@);
    let mut i: usize = 0;
    while i < x.len() && i < y.len()
        invariant
            i <= x@.len(),
            i <= y@.len(),
            xv == comp_views(x@),
            yv == comp_views(y@),
            xv == path_components(a@),
            yv == path_components(b@),
            xv.take(i as int) == yv.take(i as int),
        decreases x@.len() - i,
    {
        assert(xv[i as int] == x@[i as int]@);
        assert(yv[i as int] == y@[i as int]@);
        if !comp_eq(&x[i], &y[i]) {
            proof {
                lemma_comps_less_skip(xv, yv, i as int);
                assert(xv.skip(i as int)[0] == xv[i as int]);
                assert(yv.skip(i as int)[0] == yv[i as int]);
            }
            return comp_less_exec(&x[i], &y[i]);
        }
        assert(xv.take(i + 1) =~= xv.take(i as int).push(xv[i as int]));
        assert(yv.take(i + 1) =~= yv.take(i as int).push(yv[i as int]));
        i = i + 1;
    }
    proof {
        lemma_comps_less_skip(xv, yv, i as int);
    }
    x.len() < y.len()
}

/// Whether `a` and `b` name the same path.
pub fn same_path_exec(a: &str, b: &str) -> (r: bool)
    ensures
        r == same_path(a@, b@),
{
    let x = components(a);
    let y = components(b);
    let ghost xv = comp_views(x@);
    let ghost yv = comp_views(y@);
    if x.len() != y.len() {
        assert(xv.len() != yv.len());
        return false;
    }
    let mut i: usize = 0;
    while i < x.len()
        invariant
            i <= x@.len(),
            x@.len() == y@.len(),
            xv == comp_views(x@),
            yv == comp_views(y@),
            xv == path_components(a@),
            yv == path_components(b@),
            forall|k: int| 0 <= k < i ==> xv[k] == yv[k],
        decreases x@.len() - i,
    {
        assert(xv[i as int] == x@[i as int]@);
        assert(yv[i as int] == y@[i as int]@);
        if !comp_eq(&x[i], &y[i]) {
            assert(xv[i as int] != yv[i as int]);
            return false;
        }
        i = i + 1;
    }
    assert(xv =~= yv);
    true
}

// ─── Stable sorting ───────────────────────────────────────────────────────────

/// The order of `Path` when `by_path`, else that of `str`.
pub open spec fn key_less(by_path: bool, a: Seq<char>, b: Seq<char>) -> bool {
    if by_path {
        path_less(a, b)
    } else {
        text_less(a, b)
    }
}

/// `s` with `x` inserted after the last element whose key does not sort
/// after the key of `x`.
pub open spec fn insert_by_key(keys: Seq<Seq<char>>, by_path: bool, s: Seq<usize>, x: usize) -> Seq<usize>
    decreases s.len(),
{
    if s.len() == 0 {
        seq![x]
    } else if !key_less(by_path, keys[x as int], keys[s.last() as int]) {
        s.push(x)
    } else {
        insert_by_key(keys, by_path, s.drop_last(), x).push(s.last())
    }
}

/// `s` stably sorted by key.
pub open spec fn sort_by_key(keys: Seq<Seq<char>>, by_path: bool, s: Seq<usize>) -> Seq<usize>
    decreases s.len(),
{
    if s.len() == 0 {
        Seq::empty()
    } else {
        insert_by_key(keys, by_path, sort_by_key(keys, by_path, s.drop_last()), s.last())
    }
}

/// The indices `0..n`.
pub open spec fn index_range(n: nat) -> Seq<usize> {
    Seq::new(n, |i: int| i as usize)
}

/// The positions of `keys` in the order of their keys, stably.
pub open spec fn sorted_positions(keys: Seq<Seq<char>>, by_path: bool) -> Seq<usize> {
    sort_by_key(keys, by_path, index_range(keys.len()))
}

proof fn lemma_insert_key_bounds(keys: Seq<Seq<char>>, by_path: bool, s: Seq<usize>, x: usize, n: int)
    requires
        forall|k: int| 0 <= k < s.len() ==> #[trigger] s[k] < n,
        x < n,
    ensures
        forall|k: int|
            0 <= k < insert_by_key(keys, by_path, s, x).len() ==> #[trigger] insert_by_key(keys, by_path, s, x)[k] < n,
    decreases s.len(),
{
    let r = insert_by_key(keys, by_path, s, x);
    if s.len() == 0 {
        assert(r =~= seq![x]);
    } else if !key_less(by_path, keys[x as int], keys[s.last() as int]) {
        assert(r =~= s.push(x));
        assert forall|k: int| 0 <= k < r.len() implies #[trigger] r[k] < n by {
            if k < s.len() {
                assert(r[k] == s[k]);
            }
        }
    } else {
        lemma_insert_key_bounds(keys, by_path, s.drop_last(), x, n);
        let r0 = insert_by_key(keys, by_path, s.drop_last(), x);
        assert(r =~= r0.push(s.last()));
        assert forall|k: int| 0 <= k < r.len() implies #[trigger] r[k] < n by {
            if k < r0.len() {
                assert(r[k] == r0[k]);
            } else {
                assert(r[k] == s[s.len() - 1]);
            }
        }
    }
}

proof fn lemma_sort_key_bounds(keys: Seq<Seq<char>>, by_path: bool, s: Seq<usize>, n: int)
    requires
        forall|k: int| 0 <= k < s.len() ==> #[trigger] s[k] < n,
    ensures
        forall|k: int| 0 <= k < sort_by_key(keys, by_path, s).len() ==> #[trigger] sort_by_key(keys, by_path, s)[k] < n,
    decreases s.len(),
{
    if s.len() > 0 {
        lemma_sort_key_bounds(keys, by_path, s.drop_last(), n);
        lemma_insert_key_bounds(keys, by_path, sort_by_key(keys, by_path, s.drop_last()), s.last(), n);
    }
}

/// The sorted positions are positions of `keys`.
pub proof fn lemma_sorted_positions_bounds(keys: Seq<Seq<char>>, by_path: bool)
    requires
        keys.len() <= usize::MAX,
    ensures
        forall|k: int| 0 <= k < sorted_positions(keys, by_path).len() ==> #[trigger] sorted_positions(keys, by_path)[k]
            < keys.len(),
{
    let all = index_range(keys.len());
    assert forall|k: int| 0 <= k < all.len() implies #[trigger] all[k] < keys.len() by {
        assert(all[k] == k as usize);
    }
    lemma_sort_key_bounds(keys, by_path, all, keys.len() as int);
}

fn key_less_exec(by_path: bool, a: &str, b: &str) -> (r: bool)
    ensures
        r == key_less(by_path, a@, b@),
{
    if by_path {
        path_less_exec(a, b)
    } else {
        str_less(a, b)
    }
}

fn insert_by_key_exec(keys: &[String], by_path: bool, s: &mut Vec<usize>, x: usize)
    requires
        x < keys@.len(),
        forall|k: int| 0 <= k < old(s)@.len() ==> #[trigger] old(s)@[k] < keys@.len(),
    ensures
        final(s)@ == insert_by_key(sviews(keys@), by_path, old(s)@, x),
    decreases old(s)@.len(),
{
    if s.len() == 0 {
        s.push(x);
        assert(s@ =~= seq![x]);
        return;
    }
    let last = s[s.len() - 1];
    if !key_less_exec(by_path, keys[x].as_str(), keys[last].as_str()) {
        s.push(x);
    } else {
        let ghost s0 = s@;
        s.pop();
        assert(s@ =~= s0.drop_last());
        insert_by_key_exec(keys, by_path, s, x);
        s.push(last);
    }
}

/// The positions of `keys`, stably sorted by key (`Path` order when
/// `by_path`, else `str` order).
pub fn sorted_order(keys: &[String], by_path: bool) -> (r: Vec<usize>)
    ensures
        r@ == sorted_positions(sviews(keys@), by_path),
        forall|k: int| 0 <= k < r@.len() ==> #[trigger] r@[k] < keys@.len(),
{
    let ghost kv = sviews(keys@);
    let ghost all = index_range(keys@.len());
    let mut out: Vec<usize> = Vec::new();
    let mut i: usize = 0;
    while i < keys.len()
        invariant
            i <= keys@.len(),
            kv == sviews(keys@),
            all == index_range(keys@.len()),
            out@ == sort_by_key(kv, by_path, all.take(i as int)),
            forall|k: int| 0 <= k < out@.len() ==> #[trigger] out@[k] < keys@.len(),
        decreases keys@.len() - i,
    {
        proof {
            assert(all.take(i + 1).drop_last() =~= all.take(i as int));
            assert(all.take(i + 1).last() == i);
        }
        let ghost before = out@;
        insert_by_key_exec(keys, by_path, &mut out, i);
        proof {
            lemma_insert_key_bounds(kv, by_path, before, i, keys@.len() as int);
        }
        i = i + 1;
    }
    assert(all.take(i as int) =~= all);
    out
}

} // verus!
