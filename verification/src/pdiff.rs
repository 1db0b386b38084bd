//! PDiff: updating a `Packages`/`Sources` index through the deltas listed in
//! its `*.diff/Index` file instead of downloading it whole.
//!
//! The index lists deltas between revisions (by SHA-256); a chain of deltas
//! from the cached revision to the target one is found by breadth-first
//! search and applied patch by patch, each result checked against its hash.

use vstd::prelude::*;
use crate::text::{chars_of, chars_eq, str_eq, push_str, push_chars, own, string_of, views, trim,
    trim_vec, words, words_exec, lines, lines_exec, debug_str, push_debug_str, ascii_lower,
    ascii_lower_vec, strip_trailing, strip_trailing_exec, find_sub, find_sub_exec, index_of};
use crate::numeric::{dec, u64_to_dec, parse_unsigned, parse_unsigned_exec, all_digits};
use crate::rdiff::{PdiffError, apply_rdiff_delta, apply_spec, fault_is, DeltaFault, hex_digit,
    hex_char, pdiff_error_text};
use crate::transport::{TransportError, gunzip, gz_decoded};

pub use crate::rdiff::{encode_rdiff_delta, RdiffOp};

verus! {

// ── The index ─────────────────────────────────────────────────────────────────

/// One delta listed in a `*.diff/Index` file.
#[derive(Debug, Clone, PartialEq, Eq)]
pub struct PdiffEntry {
    /// SHA-256 of the revision the delta applies to.
    pub old_sha256: String,
    /// SHA-256 of the revision it produces.
    pub new_sha256: String,
    /// Size of the compressed patch file.
    pub size: u64,
    /// Patch path, relative to the index's parent directory.
    pub patch_file: String,
}

pub struct EntryV {
    pub old: Seq<char>,
    pub new: Seq<char>,
    pub size: u64,
    pub patch: Seq<char>,
}

impl View for PdiffEntry {
    type V = EntryV;

    open spec fn view(&self) -> EntryV {
        EntryV { old: self.old_sha256@, new: self.new_sha256@, size: self.size, patch: self.patch_file@ }
    }
}

pub open spec fn entry_views(v: Seq<PdiffEntry>) -> Seq<EntryV> {
    Seq::new(v.len(), |i: int| v[i]@)
}

impl PdiffEntry {
    /// A copy of this entry.
    pub fn copy(&self) -> (r: PdiffEntry)
        ensures
            r@ == self@,
    {
        PdiffEntry {
            old_sha256: self.old_sha256.clone(),
            new_sha256: self.new_sha256.clone(),
            size: self.size,
            patch_file: self.patch_file.clone(),
        }
    }
}

/// A parsed `*.diff/Index` file.
#[derive(Debug, Clone)]
pub struct PdiffIndex {
    /// Available deltas, in file order.
    pub entries: Vec<PdiffEntry>,
}

/// Why a number did not parse as `u64`, as `ParseIntError` words it.
pub open spec fn int_error_text(s: Seq<char>) -> Seq<char> {
    let d = if s.len() > 0 && s[0] == '+' {
        s.drop_first()
    } else {
        s
    };
    if s.len() == 0 {
        "cannot parse integer from empty string"@
    } else if d.len() > 0 && all_digits(d) {
        "number too large to fit in target type"@
    } else {
        "invalid digit found in string"@
    }
}

/// One line of the index: blank, an entry `old new size patch`, or an
/// error message.
pub open spec fn index_line(line: Seq<char>) -> Result<Option<EntryV>, Seq<char>> {
    let t = trim(line);
    let ws = words(t, false);
    if t.len() == 0 {
        Ok(None)
    } else if ws.len() != 4 {
        Err("expected 4 fields, got "@ + dec(ws.len()) + ": "@ + debug_str(t))
    } else {
        match parse_unsigned(ws[2], 0xffff_ffff_ffff_ffff) {
            None => Err("bad size field: "@ + int_error_text(ws[2])),
            Some(n) => Ok(
                Some(
                    EntryV { old: ascii_lower(ws[0]), new: ascii_lower(ws[1]), size: n as u64, patch: ws[3] },
                ),
            ),
        }
    }
}

/// The entries of the lines `ls`; the first bad line gives the error.
pub open spec fn index_entries(ls: Seq<Seq<char>>) -> Result<Seq<EntryV>, Seq<char>>
    decreases ls.len(),
{
    if ls.len() == 0 {
        Ok(Seq::empty())
    } else {
        match index_entries(ls.drop_last()) {
            Err(m) => Err(m),
            Ok(es) => match index_line(ls.last()) {
                Err(m) => Err(m),
                Ok(None) => Ok(es),
                Ok(Some(e)) => Ok(es.push(e)),
            },
        }
    }
}

proof fn lemma_index_err(ls: Seq<Seq<char>>, k: int)
    requires
        0 <= k <= ls.len(),
        index_entries(ls.take(k)) is Err,
    ensures
        index_entries(ls.take(ls.len() as int)) == index_entries(ls.take(k)),
    decreases ls.len() - k,
{
    if k < ls.len() {
        assert(ls.take(k + 1).drop_last() =~= ls.take(k));
        lemma_index_err(ls, k + 1);
    }
}

fn int_error(s: &Vec<char>) -> (r: String)
    ensures
        r@ == int_error_text(s@),
{
    let n = s.len();
    if n == 0 {
        return own("cannot parse integer from empty string");
    }
    let start: usize = if s[0] == '+' { 1 } else { 0 };
    let mut i = start;
    while i < n && '0' <= s[i] && s[i] <= '9'
        invariant
            start <= i <= n == s@.len(),
            forall|k: int| start <= k < i ==> '0' <= #[trigger] s@[k] <= '9',
        decreases n - i,
    {
        i = i + 1;
    }
    proof {
        let d = s@.skip(start as int);
        assert(d =~= if s@[0] == '+' { s@.drop_first() } else { s@ });
        if i == n {
            assert(all_digits(d)) by {
                assert forall|k: int| 0 <= k < d.len() implies crate::text::is_digit(#[trigger] d[k]) by {
                    assert(d[k] == s@[k + start]);
                }
            }
        } else {
            assert(!crate::text::is_digit(d[i - start]));
        }
    }
    if n > start && i == n {
        own("number too large to fit in target type")
    } else {
        own("invalid digit found in string")
    }
}

impl PdiffIndex {
    /// Parses a `*.diff/Index` file: each non-blank line is
    /// `<old-sha256> <new-sha256> <size> <patch-file>`; hashes are lowercased.
    pub fn parse(text: &str) -> (r: Result<PdiffIndex, PdiffError>)
        ensures
            match index_entries(lines(text@)) {
                Ok(es) => r matches Ok(x) && entry_views(x.entries@) == es,
                Err(m) => r matches Err(PdiffError::Corrupt(x)) && x@ == m,
            },
    {
        let v = chars_of(text);
        let ls = lines_exec(&v, 0, v.len());
        proof {
            assert(v@.subrange(0, v@.len() as int) =~= v@);
        }
        let ghost lv = views(ls@);
        let mut entries: Vec<PdiffEntry> = Vec::new();
        let mut i: usize = 0;
        proof {
            assert(lv.take(0) =~= Seq::<Seq<char>>::empty());
            assert(entry_views(entries@) =~= Seq::<EntryV>::empty());
        }
        while i < ls.len()
            invariant
                i <= ls@.len(),
                lv == views(ls@),
                lv == lines(text@),
                index_entries(lv.take(i as int)) == Ok::<Seq<EntryV>, Seq<char>>(entry_views(entries@)),
            decreases ls.len() - i,
        {
            proof {
                assert(lv.take(i + 1).drop_last() =~= lv.take(i as int));
                assert(lv.take(i + 1).last() == ls@[i as int]@);
            }
            let t = trim_vec(&ls[i]);
            if t.len() > 0 {
                let ws = words_exec(&t, 0, t.len(), false);
                proof {
                    assert(t@.subrange(0, t@.len() as int) =~= t@);
                }
                if ws.len() != 4 {
                    let mut m = own("expected 4 fields, got ");
                    let c = u64_to_dec(ws.len() as u64);
                    push_str(&mut m, c.as_str());
                    push_str(&mut m, ": ");
                    push_debug_str(&mut m, &t);
                    proof {
                        lemma_index_err(lv, i + 1);
                        assert(lv.take(lv.len() as int) =~= lv);
                    }
                    return Err(PdiffError::Corrupt(m));
                }
                let sz = parse_unsigned_exec(&ws[2], 0, ws[2].len(), 0xffff_ffff_ffff_ffff);
                proof {
                    assert(ws@[2]@.subrange(0, ws@[2]@.len() as int) =~= ws@[2]@);
                }
                match sz {
                    None => {
                        let mut m = own("bad size field: ");
                        let e = int_error(&ws[2]);
                        push_str(&mut m, e.as_str());
                        proof {
                            lemma_index_err(lv, i + 1);
                            assert(lv.take(lv.len() as int) =~= lv);
                        }
                        return Err(PdiffError::Corrupt(m));
                    },
                    Some(size) => {
                        let e = PdiffEntry {
                            old_sha256: string_of(&ascii_lower_vec(&ws[0])),
                            new_sha256: string_of(&ascii_lower_vec(&ws[1])),
                            size,
                            patch_file: string_of(&ws[3]),
                        };
                        let ghost before = entry_views(entries@);
                        entries.push(e);
                        assert(entry_views(entries@) =~= before.push(entries@.last()@));
                    },
                }
            }
            i = i + 1;
        }
        proof {
            assert(lv.take(lv.len() as int) =~= lv);
        }
        Ok(PdiffIndex { entries })
    }
}

// ── Chains ────────────────────────────────────────────────────────────────────

/// Consecutive deltas connect: each produces the revision the next needs.
pub open spec fn linked(p: Seq<EntryV>) -> bool {
    forall|k: int| 0 <= k < p.len() - 1 ==> (#[trigger] p[k]).new == p[k + 1].old
}

/// `p` is a chain of listed deltas taking revision `from` to `to`.
pub open spec fn is_chain(es: Seq<EntryV>, p: Seq<EntryV>, from: Seq<char>, to: Seq<char>) -> bool {
    &&& forall|k: int| 0 <= k < p.len() ==> es.contains(#[trigger] p[k])
    &&& linked(p)
    &&& p.len() == 0 ==> from == to
    &&& p.len() > 0 ==> p[0].old == from && p.last().new == to
}

/// Some chain of listed deltas takes `from` to `to`.
pub open spec fn reachable(es: Seq<EntryV>, from: Seq<char>, to: Seq<char>) -> bool {
    exists|p: Seq<EntryV>| #[trigger] is_chain(es, p, from, to)
}

proof fn lemma_distinct_bound(s: Seq<int>, n: int)
    requires
        s.no_duplicates(),
        0 <= n,
        forall|i: int| 0 <= i < s.len() ==> 0 <= #[trigger] s[i] < n,
    ensures
        s.len() <= n,
{
    s.unique_seq_to_set();
    vstd::set_lib::lemma_int_range(0, n);
    assert(s.to_set().subset_of(vstd::set_lib::set_int_range(0, n)));
    vstd::set_lib::lemma_len_subset(s.to_set(), vstd::set_lib::set_int_range(0, n));
}

/// Search state: nodes `s` in discovery order, each (but the first) found
/// through delta `pe[k]` from node `pn[k]`.
spec fn tree_ok(es: Seq<EntryV>, s: Seq<Seq<char>>, pn: Seq<usize>, pe: Seq<usize>) -> bool {
    &&& s.len() >= 1
    &&& pn.len() == s.len()
    &&& pe.len() == s.len()
    &&& s.no_duplicates()
    &&& forall|k: int|
        1 <= k < s.len() ==> #[trigger] pn[k] < k && pe[k] < es.len() && es[pe[k] as int].old == s[pn[k]
            as int] && es[pe[k] as int].new == s[k]
}

/// The delta indices of the tree's edges.
spec fn edge_ids(pe: Seq<usize>) -> Seq<int> {
    Seq::new((pe.len() - 1) as nat, |i: int| pe[i + 1] as int)
}

proof fn lemma_tree_bound(es: Seq<EntryV>, s: Seq<Seq<char>>, pn: Seq<usize>, pe: Seq<usize>)
    requires
        tree_ok(es, s, pn, pe),
    ensures
        s.len() <= es.len() + 1,
{
    let ids = edge_ids(pe);
    assert forall|a: int, b: int| 0 <= a < ids.len() && 0 <= b < ids.len() && a != b implies ids[a]
        != ids[b] by {
        assert(pn[a + 1] < a + 1);
        assert(pn[b + 1] < b + 1);
        if ids[a] == ids[b] {
            assert(s[a + 1] == s[b + 1]);
        }
    }
    assert forall|i: int| 0 <= i < ids.len() implies 0 <= #[trigger] ids[i] < es.len() by {
        assert(pn[i + 1] < i + 1);
    }
    lemma_distinct_bound(ids, es.len() as int);
}

/// Every delta out of a closed node leads to a known node.
spec fn closed_upto(es: Seq<EntryV>, s: Seq<Seq<char>>, h: int) -> bool {
    forall|k: int, e: int| 0 <= k < h && 0 <= e < es.len() && #[trigger] es[e].old == #[trigger] s[k]
        ==> s.contains(es[e].new)
}

proof fn lemma_closed_reach(es: Seq<EntryV>, s: Seq<Seq<char>>, p: Seq<EntryV>, from: Seq<char>, to: Seq<char>)
    requires
        closed_upto(es, s, s.len() as int),
        s.contains(from),
        is_chain(es, p, from, to),
    ensures
        s.contains(to),
    decreases p.len(),
{
    if p.len() > 0 {
        let m = choose|m: int| 0 <= m < s.len() && s[m] == from;
        assert(es.contains(p[0]));
        let e = choose|e: int| 0 <= e < es.len() && es[e] == p[0];
        assert(es[e].old == s[m]);
        assert(s.contains(es[e].new));
        let q = p.drop_first();
        assert forall|k: int| 0 <= k < q.len() implies es.contains(#[trigger] q[k]) by {
            assert(q[k] == p[k + 1]);
        }
        assert forall|k: int| 0 <= k < q.len() - 1 implies (#[trigger] q[k]).new == q[k + 1].old by {
            assert(q[k] == p[k + 1]);
            assert(q[k + 1] == p[k + 2]);
        }
        if q.len() > 0 {
            assert(p[0].new == p[1].old);
            assert(q[0] == p[1]);
            assert(q.last() == p.last());
        }
        lemma_closed_reach(es, s, q, p[0].new, to);
    }
}

/// Number of tree edges from node `j` back to the first node.
spec fn depth(pn: Seq<usize>, j: int) -> nat
    decreases j,
{
    if j <= 0 || j >= pn.len() || pn[j] >= j {
        0
    } else {
        depth(pn, pn[j] as int) + 1
    }
}

proof fn lemma_depth_push(pn: Seq<usize>, x: usize, j: int)
    requires
        0 <= j < pn.len(),
    ensures
        depth(pn.push(x), j) == depth(pn, j),
    decreases j,
{
    if j > 0 && pn[j] < j {
        assert(pn.push(x)[j] == pn[j]);
        lemma_depth_push(pn, x, pn[j] as int);
    } else if j > 0 {
        assert(pn.push(x)[j] == pn[j]);
    }
}

/// No listed delta takes `a` to `b`.
spec fn no_edge(es: Seq<EntryV>, a: Seq<char>, b: Seq<char>) -> bool {
    forall|e: int| 0 <= e < es.len() && #[trigger] es[e].old == a ==> es[e].new != b
}

/// Breadth-first order: each node's parent is the first node with a delta
/// to it, and depths never decrease along the discovery order.
spec fn bfs_ok(es: Seq<EntryV>, s: Seq<Seq<char>>, pn: Seq<usize>) -> bool {
    &&& forall|j: int, k: int| #![trigger pn[j], s[k]] 1 <= j < s.len() && 0 <= k < pn[j] ==> no_edge(es, s[k], s[j])
    &&& forall|a: int, b: int| 0 <= a <= b < s.len() ==> #[trigger] depth(pn, a) <= #[trigger] depth(pn, b)
}

/// The `i`-th revision a chain passes through, starting at `from`.
spec fn chain_node(p: Seq<EntryV>, from: Seq<char>, i: int) -> Seq<char> {
    if i == 0 {
        from
    } else {
        p[i - 1].new
    }
}

/// Along a chain from the first node, every revision reached in `i` steps is
/// known at depth at most `i`, unless the node at `h` is already no deeper.
proof fn lemma_chain_depth(
    es: Seq<EntryV>,
    s: Seq<Seq<char>>,
    pn: Seq<usize>,
    pe: Seq<usize>,
    h: int,
    p: Seq<EntryV>,
    i: int,
)
    requires
        tree_ok(es, s, pn, pe),
        bfs_ok(es, s, pn),
        0 <= h < s.len(),
        closed_upto(es, s, h),
        is_chain(es, p, s[0], chain_node(p, s[0], p.len() as int)),
        0 <= i <= p.len(),
    ensures
        depth(pn, h) <= i || exists|k: int| 0 <= k < s.len() && s[k] == chain_node(p, s[0], i) && #[trigger] depth(pn, k) <= i,
    decreases i,
{
    if i == 0 {
        assert(depth(pn, 0) == 0);
        assert(depth(pn, 0) <= 0);
    } else {
        lemma_chain_depth(es, s, pn, pe, h, p, i - 1);
        if depth(pn, h) > i - 1 {
            let k = choose|k: int| 0 <= k < s.len() && s[k] == chain_node(p, s[0], i - 1) && #[trigger] depth(pn, k) <= i - 1;
            if k >= h {
                assert(depth(pn, h) <= depth(pn, k));
            } else {
                let x = p[i - 1];
                assert(es.contains(x));
                let e = choose|e: int| 0 <= e < es.len() && es[e] == x;
                assert(x.old == chain_node(p, s[0], i - 1)) by {
                    if i - 1 > 0 {
                        assert(p[i - 2].new == p[i - 1].old);
                    }
                }
                assert(es[e].old == s[k]);
                assert(s.contains(es[e].new));
                let j = choose|j: int| 0 <= j < s.len() && s[j] == es[e].new;
                assert(s[j] == chain_node(p, s[0], i));
                if j > 0 {
                    assert(pn[j] < j);
                    if k < pn[j] {
                        assert(no_edge(es, s[k], s[j]));
                        assert(es[e].new != s[j]);
                    }
                    assert(pn[j] <= k);
                    assert(depth(pn, pn[j] as int) <= depth(pn, k));
                    assert(depth(pn, j) == depth(pn, pn[j] as int) + 1);
                } else {
                    assert(depth(pn, 0) == 0);
                }
                assert(depth(pn, j) <= i);
            }
        }
    }
}

proof fn lemma_bfs_push(es: Seq<EntryV>, s: Seq<Seq<char>>, pn: Seq<usize>, h: usize, x: Seq<char>)
    requires
        bfs_ok(es, s, pn),
        s.len() == pn.len(),
        forall|j: int| 1 <= j < pn.len() ==> #[trigger] pn[j] < j,
        0 <= h < s.len(),
        depth(pn, s.len() - 1) <= depth(pn, h as int) + 1,
        closed_upto(es, s, h as int),
        !s.contains(x),
    ensures
        bfs_ok(es, s.push(x), pn.push(h)),
        depth(pn.push(h), s.len() as int) == depth(pn, h as int) + 1,
{
    let s1 = s.push(x);
    let p1 = pn.push(h);
    let n = s.len() as int;
    assert forall|a: int| 0 <= a < n implies depth(p1, a) == depth(pn, a) by {
        lemma_depth_push(pn, h, a);
    }
    assert(p1[n] == h);
    assert(depth(p1, n) == depth(p1, h as int) + 1);
    assert forall|j: int, k: int| #![trigger p1[j], s1[k]] 1 <= j < s1.len() && 0 <= k < p1[j] implies no_edge(
        es,
        s1[k],
        s1[j],
    ) by {
        if j < n {
            assert(p1[j] == pn[j] && s1[j] == s[j] && s1[k] == s[k]);
            assert(pn[j] < j);
            assert(no_edge(es, s[k], s[j]));
        } else {
            assert(s1[k] == s[k]);
            assert forall|e: int| 0 <= e < es.len() && #[trigger] es[e].old == s1[k] implies es[e].new != s1[j] by {
                assert(s.contains(es[e].new));
            }
        }
    }
    assert forall|a: int, b: int| 0 <= a <= b < s1.len() implies #[trigger] depth(p1, a) <= #[trigger] depth(p1, b) by {
        if b < n {
            assert(depth(pn, a) <= depth(pn, b));
        } else if a < n {
            assert(depth(pn, a) <= depth(pn, n - 1));
        }
    }
}

/// When the search reaches the target at node `h`, no chain to it is
/// shorter than the depth of `h`.
proof fn lemma_found_shortest(
    es: Seq<EntryV>,
    s: Seq<Seq<char>>,
    pn: Seq<usize>,
    pe: Seq<usize>,
    h: int,
    from: Seq<char>,
    to: Seq<char>,
)
    requires
        tree_ok(es, s, pn, pe),
        bfs_ok(es, s, pn),
        0 <= h < s.len(),
        closed_upto(es, s, h),
        s[0] == from,
        s[h] == to,
        from != to,
    ensures
        no_shorter(es, from, to, depth(pn, h)),
{
    assert forall|q: Seq<EntryV>| #[trigger] is_chain(es, q, from, to) implies depth(pn, h) <= q.len() by {
        assert(q.len() > 0);
        assert(chain_node(q, s[0], q.len() as int) == to);
        lemma_chain_depth(es, s, pn, pe, h, q, q.len() as int);
        if depth(pn, h) > q.len() {
            let k = choose|k: int| 0 <= k < s.len() && s[k] == chain_node(q, s[0], q.len() as int) && #[trigger] depth(pn, k) <= q.len();
            assert(k == h);
        }
    }
}

/// Every chain of listed deltas from `from` to `to` has at least `n` deltas.
pub open spec fn no_shorter(es: Seq<EntryV>, from: Seq<char>, to: Seq<char>, n: nat) -> bool {
    forall|q: Seq<EntryV>| #[trigger] is_chain(es, q, from, to) ==> n <= q.len()
}

fn find_node(s: &Vec<Vec<char>>, x: &Vec<char>) -> (r: usize)
    ensures
        r <= s@.len(),
        r < s@.len() ==> views(s@)[r as int] == x@,
        forall|k: int| 0 <= k < r ==> views(s@)[k] != x@,
{
    let mut i: usize = 0;
    while i < s.len()
        invariant
            i <= s@.len(),
            forall|k: int| 0 <= k < i ==> views(s@)[k] != x@,
        decreases s.len() - i,
    {
        if chars_eq(&s[i], x) {
            return i;
        }
        i = i + 1;
    }
    i
}

/// Finds a chain of deltas from revision `current` to `target` (compared
/// lowercased) by breadth-first search over the listed deltas; `None` when
/// there is none. An empty chain means `current` is `target`.
pub fn resolve_chain(index: &PdiffIndex, current: &str, target: &str) -> (r: Option<Vec<PdiffEntry>>)
    ensures
        match r {
            Some(p) => is_chain(
                entry_views(index.entries@),
                entry_views(p@),
                ascii_lower(current@),
                ascii_lower(target@),
            ),
            None => !reachable(entry_views(index.entries@), ascii_lower(current@), ascii_lower(target@)),
        },
        ascii_lower(current@) == ascii_lower(target@) ==> (r matches Some(p) && p@.len() == 0),
        r matches Some(p) ==> no_shorter(
            entry_views(index.entries@),
            ascii_lower(current@),
            ascii_lower(target@),
            p@.len(),
        ),
{
    let es = &index.entries;
    let ghost ev = entry_views(es@);
    let cv = chars_of(current);
    let tv = chars_of(target);
    let c = ascii_lower_vec(&cv);
    let t = ascii_lower_vec(&tv);
    if chars_eq(&c, &t) {
        let p: Vec<PdiffEntry> = Vec::new();
        proof {
            assert(is_chain(ev, entry_views(p@), c@, t@));
        }
        return Some(p);
    }
    let mut seen: Vec<Vec<char>> = Vec::new();
    let mut pn: Vec<usize> = Vec::new();
    let mut pe: Vec<usize> = Vec::new();
    let c0 = slice_all(&c);
    seen.push(c0);
    pn.push(0);
    pe.push(0);
    let mut head: usize = 0;
    proof {
        assert(views(seen@) =~= seq![c@]);
        assert(views(seen@).no_duplicates());
    }
    while head < seen.len()
        invariant
            ev == entry_views(es@),
            tree_ok(ev, views(seen@), pn@, pe@),
            views(seen@)[0] == c@,
            head <= seen@.len(),
            closed_upto(ev, views(seen@), head as int),
            forall|k: int| 0 <= k < head ==> views(seen@)[k] != t@,
            seen@.len() <= es@.len() + 1,
            bfs_ok(ev, views(seen@), pn@),
            head < seen@.len() ==> depth(pn@, seen@.len() - 1) <= depth(pn@, head as int) + 1,
        ensures
            head == seen@.len() || views(seen@)[head as int] == t@,
        decreases es@.len() + 1 - head,
    {
        if chars_eq(&seen[head], &t) {
            break;
        }
        let ghost u = views(seen@)[head as int];
        let mut ei: usize = 0;
        while ei < es.len()
            invariant
                ev == entry_views(es@),
                tree_ok(ev, views(seen@), pn@, pe@),
                views(seen@)[0] == c@,
                head < seen@.len(),
                u == views(seen@)[head as int],
                ei <= es@.len(),
                closed_upto(ev, views(seen@), head as int),
                forall|e: int| 0 <= e < ei && #[trigger] ev[e].old == u ==> views(seen@).contains(ev[e].new),
                forall|k: int| 0 <= k <= head ==> views(seen@)[k] != t@,
                seen@.len() <= es@.len() + 1,
                bfs_ok(ev, views(seen@), pn@),
                depth(pn@, seen@.len() - 1) <= depth(pn@, head as int) + 1,
            decreases es@.len() - ei,
        {
            let old_c = chars_of(es[ei].old_sha256.as_str());
            if chars_eq(&old_c, &seen[head]) {
                let nxt = chars_of(es[ei].new_sha256.as_str());
                let at = find_node(&seen, &nxt);
                if at >= seen.len() {
                    let ghost s0 = views(seen@);
                    let ghost pn0 = pn@;
                    let ghost pe0 = pe@;
                    seen.push(nxt);
                    pn.push(head);
                    pe.push(ei);
                    proof {
                        let s1 = views(seen@);
                        assert(s1 =~= s0.push(ev[ei as int].new));
                        assert forall|a: int, b: int| 0 <= a < b < s1.len() implies s1[a] != s1[b] by {
                            if b == s1.len() - 1 {
                                assert(s1[a] == s0[a]);
                            } else {
                                assert(s1[a] == s0[a] && s1[b] == s0[b]);
                            }
                        }
                        assert forall|k: int| 1 <= k < s1.len() implies #[trigger] pn@[k] < k && pe@[k]
                            < es@.len() && ev[pe@[k] as int].old == s1[pn@[k] as int] && ev[pe@[k] as int].new
                            == s1[k] by {
                            if k < s0.len() {
                                assert(pn@[k] == pn0[k] && pe@[k] == pe0[k]);
                                assert(s1[pn@[k] as int] == s0[pn0[k] as int]);
                            }
                        }
                        assert(tree_ok(ev, s1, pn@, pe@));
                        lemma_tree_bound(ev, s1, pn@, pe@);
                        assert(s1.contains(ev[ei as int].new)) by {
                            assert(s1[s0.len() as int] == ev[ei as int].new);
                        }
                        assert forall|k: int, e: int| 0 <= k < head && 0 <= e < ev.len() && #[trigger] ev[e].old
                            == #[trigger] s1[k] implies s1.contains(ev[e].new) by {
                            assert(s1[k] == s0[k]);
                            assert(s0.contains(ev[e].new));
                            let j = choose|j: int| 0 <= j < s0.len() && s0[j] == ev[e].new;
                            assert(s1[j] == ev[e].new);
                        }
                        assert forall|e: int| 0 <= e < ei && #[trigger] ev[e].old == u implies s1.contains(
                            ev[e].new,
                        ) by {
                            assert(s0.contains(ev[e].new));
                            let j = choose|j: int| 0 <= j < s0.len() && s0[j] == ev[e].new;
                            assert(s1[j] == ev[e].new);
                        }
                        lemma_bfs_push(ev, s0, pn0, head, ev[ei as int].new);
                        assert(pn@ =~= pn0.push(head));
                    }
                } else {
                    proof {
                        assert(views(seen@)[at as int] == ev[ei as int].new);
                    }
                }
            }
            ei = ei + 1;
        }
        proof {
            assert forall|k: int, e: int| 0 <= k < head + 1 && 0 <= e < ev.len() && #[trigger] ev[e].old
                == #[trigger] views(seen@)[k] implies views(seen@).contains(ev[e].new) by {
                if k == head {
                    assert(ev[e].old == u);
                }
            }
            if head + 1 < seen@.len() {
                assert(depth(pn@, head as int) <= depth(pn@, head + 1));
            }
        }
        head = head + 1;
    }
    let kt = find_node(&seen, &t);
    if kt >= seen.len() {
        proof {
            assert(head == seen@.len()) by {
                if head < seen@.len() {
                    assert(views(seen@)[head as int] == t@);
                }
            }
            if reachable(ev, c@, t@) {
                let p = choose|p: Seq<EntryV>| #[trigger] is_chain(ev, p, c@, t@);
                assert(views(seen@)[0] == c@);
                lemma_closed_reach(ev, views(seen@), p, c@, t@);
                let j = choose|j: int| 0 <= j < views(seen@).len() && views(seen@)[j] == t@;
            }
        }
        return None;
    }
    let mut rev: Vec<PdiffEntry> = Vec::new();
    let mut k = kt;
    let ghost mut chain: Seq<EntryV> = Seq::empty();
    proof {
        assert(is_chain(ev, chain, views(seen@)[k as int], t@));
    }
    while k != 0
        invariant
            ev == entry_views(es@),
            tree_ok(ev, views(seen@), pn@, pe@),
            k < seen@.len(),
            is_chain(ev, chain, views(seen@)[k as int], t@),
            entry_views(rev@) == chain.reverse(),
            kt < seen@.len(),
            chain.len() + depth(pn@, k as int) == depth(pn@, kt as int),
        decreases k,
    {
        proof {
            assert(pn@[k as int] < k);
            assert(depth(pn@, k as int) == depth(pn@, pn@[k as int] as int) + 1);
        }
        let e = es[pe[k]].copy();
        let ghost ce = ev[pe@[k as int] as int];
        let ghost prev = chain;
        let ghost rv = entry_views(rev@);
        rev.push(e);
        proof {
            let nc = seq![ce] + prev;
            assert(ev.contains(ce)) by {
                assert(ev[pe@[k as int] as int] == ce);
            }
            assert forall|m: int| 0 <= m < nc.len() implies ev.contains(#[trigger] nc[m]) by {
                if m > 0 {
                    assert(nc[m] == prev[m - 1]);
                }
            }
            assert forall|m: int| 0 <= m < nc.len() - 1 implies (#[trigger] nc[m]).new == nc[m + 1].old by {
                if m > 0 {
                    assert(nc[m] == prev[m - 1]);
                    assert(nc[m + 1] == prev[m]);
                }
            }
            if prev.len() > 0 {
                assert(nc.last() == prev.last());
            }
            chain = nc;
            assert(entry_views(rev@) =~= rv.push(ce));
            assert(nc.reverse() =~= prev.reverse().push(ce));
        }
        k = pn[k];
    }
    let mut path: Vec<PdiffEntry> = Vec::new();
    let mut j = rev.len();
    let ghost rv = entry_views(rev@);
    while j > 0
        invariant
            j <= rev@.len(),
            rv == entry_views(rev@),
            entry_views(path@) == rv.reverse().take(rev@.len() - j),
        decreases j,
    {
        let ghost before = entry_views(path@);
        path.push(rev[j - 1].copy());
        proof {
            assert(entry_views(path@) =~= before.push(rv[j - 1]));
            assert(rv.reverse()[rev@.len() - j] == rv[j - 1]);
            assert(entry_views(path@) =~= rv.reverse().take(rev@.len() - j + 1));
        }
        j = j - 1;
    }
    proof {
        assert(rv.reverse().take(rv.len() as int) =~= rv.reverse());
        assert(chain.reverse().reverse() =~= chain);
        assert(entry_views(path@) =~= chain);
        assert(depth(pn@, 0) == 0);
        lemma_found_shortest(ev, views(seen@), pn@, pe@, head as int, c@, t@);
    }
    Some(path)
}

fn slice_all(v: &Vec<char>) -> (r: Vec<char>)
    ensures
        r@ == v@,
{
    let r = crate::text::slice_of(v, 0, v.len());
    assert(r@ =~= v@);
    r
}

// ── Hashes ────────────────────────────────────────────────────────────────────

/// Name for the SHA-256 digest of `data`.
pub uninterp spec fn sha256_of(data: Seq<u8>) -> Seq<u8>;

/// The SHA-256 digest of `data`.
///
/// Wraps `sha2::Sha256::digest`; its 32-byte result is named by `sha256_of`,
/// a function of the data alone.
#[verifier::external_body]
fn sha256_digest(data: &[u8]) -> (r: Vec<u8>)
    ensures
        r@ == sha256_of(data@),
        r@.len() == 32,
{
    <sha2::Sha256 as sha2::Digest>::digest(data).to_vec()
}

/// Bytes as lowercase hexadecimal, two digits per byte.
pub open spec fn hex_spec(b: Seq<u8>) -> Seq<char>
    decreases b.len(),
{
    if b.len() == 0 {
        Seq::empty()
    } else {
        hex_spec(b.drop_last()) + seq![hex_digit((b.last() / 16) as int), hex_digit((b.last() % 16) as int)]
    }
}

/// Lowercase hexadecimal of `data`.
///
/// Wraps `hex::encode`, which writes each byte as its high and then its low
/// nibble, each as a character of `0123456789abcdef`.
#[verifier::external_body]
pub(crate) fn hex_encode(data: &[u8]) -> (r: String)
    ensures
        r@ == hex_spec(data@),
{
    hex::encode(data)
}

/// The lowercase hexadecimal SHA-256 of `bytes`.
pub fn sha256_hex(bytes: &[u8]) -> (r: String)
    ensures
        r@ == hex_spec(sha256_of(bytes@)),
{
    let d = sha256_digest(bytes);
    hex_encode(d.as_slice())
}

// ── URLs ──────────────────────────────────────────────────────────────────────

/// The `*.diff/Index` URL of a binary `Packages` index.
pub open spec fn packages_diff_url_spec(base: Seq<char>, suite: Seq<char>, component: Seq<char>, arch: Seq<char>) -> Seq<char> {
    crate::text::strip_trailing(base, '/') + "/dists/"@ + suite + "/"@ + component + "/binary-"@
        + arch + "/Packages.diff/Index"@
}

/// The `*.diff/Index` URL of a `Sources` index.
pub open spec fn sources_diff_url_spec(base: Seq<char>, suite: Seq<char>, component: Seq<char>) -> Seq<char> {
    crate::text::strip_trailing(base, '/') + "/dists/"@ + suite + "/"@ + component
        + "/source/Sources.diff/Index"@
}

/// The `*.diff/Index` URL of a binary `Packages` index.
pub fn packages_diff_index_url(base_url: &str, suite: &str, component: &str, arch: &str) -> (r: String)
    ensures
        r@ == packages_diff_url_spec(base_url@, suite@, component@, arch@),
{
    let b = chars_of(base_url);
    let t = strip_trailing_exec(&b, '/');
    let mut out = string_of(&t);
    push_str(&mut out, "/dists/");
    push_str(&mut out, suite);
    push_str(&mut out, "/");
    push_str(&mut out, component);
    push_str(&mut out, "/binary-");
    push_str(&mut out, arch);
    push_str(&mut out, "/Packages.diff/Index");
    out
}

/// The `*.diff/Index` URL of a `Sources` index.
pub fn sources_diff_index_url(base_url: &str, suite: &str, component: &str) -> (r: String)
    ensures
        r@ == sources_diff_url_spec(base_url@, suite@, component@),
{
    let b = chars_of(base_url);
    let t = strip_trailing_exec(&b, '/');
    let mut out = string_of(&t);
    push_str(&mut out, "/dists/");
    push_str(&mut out, suite);
    push_str(&mut out, "/");
    push_str(&mut out, component);
    push_str(&mut out, "/source/Sources.diff/Index");
    out
}

/// Start of the last occurrence of `p` in `s`, or -1.
pub open spec fn rfind_sub(s: Seq<char>, p: Seq<char>) -> int
    decreases s.len(),
{
    if s.len() < p.len() || s.len() == 0 {
        -1
    } else if s.skip(s.len() - p.len()) == p {
        s.len() - p.len()
    } else {
        rfind_sub(s.drop_last(), p)
    }
}

/// Start of the last `c` in `s`, or -1.
pub open spec fn rfind_char(s: Seq<char>, c: char) -> int
    decreases s.len(),
{
    if s.len() == 0 {
        -1
    } else if s.last() == c {
        s.len() - 1
    } else {
        rfind_char(s.drop_last(), c)
    }
}

/// The directory patch paths of a `*.diff/Index` URL are relative to: the
/// part before the last `/Packages.diff/`, or else up to and including the
/// last `/` (the first character when there is none), and a `/`.
pub open spec fn patch_base_spec(url: Seq<char>) -> Seq<char> {
    let p = rfind_sub(url, "/Packages.diff/"@);
    if p >= 0 {
        url.take(p) + "/"@
    } else {
        let cut = if rfind_char(url, '/') >= 0 {
            rfind_char(url, '/')
        } else {
            0
        };
        url.take(cut + 1) + "/"@
    }
}

proof fn lemma_rfind_sub(s: Seq<char>, p: Seq<char>)
    ensures
        -1 <= rfind_sub(s, p),
        rfind_sub(s, p) >= 0 ==> rfind_sub(s, p) <= s.len() - p.len(),
        rfind_sub(s, p) >= 0 ==> s.subrange(rfind_sub(s, p), rfind_sub(s, p) + p.len()) == p,
    decreases s.len(),
{
    if s.len() >= p.len() && s.len() > 0 {
        if s.skip(s.len() - p.len()) == p {
            assert(s.subrange(s.len() - p.len(), s.len() as int) =~= s.skip(s.len() - p.len()));
        } else {
            lemma_rfind_sub(s.drop_last(), p);
            let r = rfind_sub(s.drop_last(), p);
            if r >= 0 {
                assert(s.subrange(r, r + p.len()) =~= s.drop_last().subrange(r, r + p.len()));
            }
        }
    }
}

proof fn lemma_rfind_char(s: Seq<char>, c: char)
    ensures
        -1 <= rfind_char(s, c) < s.len(),
    decreases s.len(),
{
    if s.len() > 0 && s.last() != c {
        lemma_rfind_char(s.drop_last(), c);
    }
}

/// The base URL the patches of a `*.diff/Index` URL are fetched from.
pub fn patch_base_url(diff_index_url: &str) -> (r: String)
    requires
        diff_index_url@.len() > 0,
    ensures
        r@ == patch_base_spec(diff_index_url@),
{
    let u = chars_of(diff_index_url);
    let pat = chars_of("/Packages.diff/");
    let n = u.len();
    let m = pat.len();
    let mut found: Option<usize> = None;
    let mut e = n;
    proof {
        assert(u@.take(n as int) =~= u@);
    }
    while e >= m && e > 0
        invariant_except_break
            found is None,
        invariant
            e <= n == u@.len(),
            m == pat@.len(),
            rfind_sub(u@, pat@) == rfind_sub(u@.take(e as int), pat@),
        ensures
            match found {
                Some(j) => rfind_sub(u@, pat@) == j && j + m <= n,
                None => rfind_sub(u@, pat@) == -1,
            },
        decreases e,
    {
        let j = e - m;
        let ghost t = u@.take(e as int);
        proof {
            assert(t.skip(t.len() - m) =~= u@.subrange(j as int, j + m));
        }
        if matches_at_exec_s(&u, &pat, j) {
            found = Some(j);
            break;
        }
        proof {
            assert(t.drop_last() =~= u@.take(e - 1));
        }
        e = e - 1;
    }
    let ghost rf = rfind_sub(u@, pat@);
    match found {
        Some(p) => {
            let mut out = crate::text::string_of_range(&u, 0, p);
            push_str(&mut out, "/");
            proof {
                assert(out@ =~= u@.take(p as int) + "/"@);
            }
            out
        },
        None => {
            proof {
                lemma_rfind_sub(u@, pat@);
            }
            let mut k = n;
            assert(u@.take(n as int) =~= u@);
            while k > 0 && u[k - 1] != '/'
                invariant
                    k <= n == u@.len(),
                    rfind_char(u@, '/') == rfind_char(u@.take(k as int), '/'),
                decreases k,
            {
                assert(u@.take(k as int).drop_last() =~= u@.take(k - 1));
                k = k - 1;
            }
            proof {
                assert(u@.take(n as int) =~= u@);
                lemma_rfind_char(u@, '/');
            }
            let cut = if k > 0 { k - 1 } else { 0 };
            let mut out = crate::text::string_of_range(&u, 0, cut + 1);
            push_str(&mut out, "/");
            proof {
                assert(out@ =~= u@.take(cut + 1) + "/"@);
            }
            out
        },
    }
}

fn matches_at_exec_s(v: &Vec<char>, p: &Vec<char>, i: usize) -> (r: bool)
    ensures
        r == crate::text::matches_at(v@, p@, i as int),
{
    crate::text::matches_at_exec(v, p, i)
}

/// One step of a PDiff update: the gzip-compressed `patch` decoded and
/// applied to `basis`, and the result checked against `expected_sha256`.
pub fn apply_patch_step(basis: &[u8], patch: &[u8], expected_sha256: &str) -> (r: Result<Vec<u8>, TransportError>)
    ensures
        match gz_decoded(patch@) {
            None => r matches Err(TransportError::DecompressError(_)),
            Some(delta) => match apply_spec(basis@, delta) {
                Err(f) => r matches Err(TransportError::Pdiff(_)),
                Ok(out) => if hex_spec(sha256_of(out)) == expected_sha256@ {
                    r matches Ok(x) && x@ == out
                } else {
                    r matches Err(TransportError::Pdiff(m)) && m@ == "patch produced hash "@ + hex_spec(
                        sha256_of(out),
                    ) + ", expected "@ + expected_sha256@
                },
            },
        },
{
    let delta = match gunzip(patch) {
        Ok(d) => d,
        Err(m) => {
            return Err(TransportError::DecompressError(m));
        },
    };
    let out = match apply_rdiff_delta(basis, delta.as_slice()) {
        Ok(o) => o,
        Err(e) => {
            return Err(TransportError::Pdiff(e.to_string()));
        },
    };
    let got = sha256_hex(out.as_slice());
    if str_eq(got.as_str(), expected_sha256) {
        Ok(out)
    } else {
        let mut m = own("patch produced hash ");
        push_str(&mut m, got.as_str());
        push_str(&mut m, ", expected ");
        push_str(&mut m, expected_sha256);
        Err(TransportError::Pdiff(m))
    }
}


// ── Updating an index ────────────────────────────────────────────────────────

/// The locally cached index a delta chain is applied to.
pub struct PdiffBasis<'a> {
    /// SHA-256 of the cached index (must match the basis bytes).
    pub sha256: &'a str,
    /// The cached index bytes.
    pub bytes: &'a [u8],
}

/// Outcome of a PDiff update.
pub enum PdiffUpdate {
    /// The index was reconstructed by applying a delta chain (or already was
    /// the target revision); the new index bytes, which hash to the target.
    Reconstructed(Vec<u8>),
    /// No cached index to apply a chain to: the caller fetches the full
    /// index.
    NoDelta,
}

/// How a PDiff update begins.
pub enum PdiffStart {
    /// There is no cached index.
    NoDelta,
    /// The cached index already is the target revision: its bytes.
    Current(Vec<u8>),
    /// A delta chain is needed from the cached revision: its hash
    /// (lowercase) and its bytes.
    Chain(String, Vec<u8>),
}

fn copy_slice(d: &[u8]) -> (r: Vec<u8>)
    ensures
        r@ == d@,
{
    let mut out: Vec<u8> = Vec::new();
    let mut i: usize = 0;
    while i < d.len()
        invariant
            i <= d@.len(),
            out@ == d@.take(i as int),
        decreases d.len() - i,
    {
        out.push(d[i]);
        i = i + 1;
        assert(out@ =~= d@.take(i as int));
    }
    assert(d@.take(i as int) =~= d@);
    out
}

/// The first step of a PDiff update towards the revision `target_sha256`:
/// nothing to apply a chain to without a cached index; the cached bytes when
/// their hash is the target's (compared case-insensitively); otherwise a
/// chain from the cached revision.
pub fn pdiff_start(current: Option<&PdiffBasis>, target_sha256: &str) -> (r: PdiffStart)
    ensures
        match current {
            None => r is NoDelta,
            Some(b) => if ascii_lower(b.sha256@) == ascii_lower(target_sha256@) {
                r matches PdiffStart::Current(x) && x@ == b.bytes@
            } else {
                r matches PdiffStart::Chain(h, x) && h@ == ascii_lower(b.sha256@) && x@ == b.bytes@
            },
        },
{
    match current {
        None => PdiffStart::NoDelta,
        Some(b) => {
            let h = ascii_lower_vec(&chars_of(b.sha256));
            let t = ascii_lower_vec(&chars_of(target_sha256));
            if chars_eq(&h, &t) {
                PdiffStart::Current(copy_slice(b.bytes))
            } else {
                PdiffStart::Chain(string_of(&h), copy_slice(b.bytes))
            }
        },
    }
}

/// The last step of a PDiff update: the reconstructed index is the update
/// when it hashes to the target revision (compared case-insensitively).
pub fn pdiff_finish(basis: Vec<u8>, target_sha256: &str) -> (r: Result<PdiffUpdate, TransportError>)
    ensures
        if hex_spec(sha256_of(basis@)) == ascii_lower(target_sha256@) {
            r matches Ok(PdiffUpdate::Reconstructed(x)) && x@ == basis@
        } else {
            r matches Err(TransportError::Pdiff(m)) && m@ == "final hash "@ + hex_spec(sha256_of(basis@))
                + " != target "@ + target_sha256@
        },
{
    let got = sha256_hex(basis.as_slice());
    let t = ascii_lower_vec(&chars_of(target_sha256));
    if chars_eq(&chars_of(got.as_str()), &t) {
        Ok(PdiffUpdate::Reconstructed(basis))
    } else {
        let mut m = own("final hash ");
        push_str(&mut m, got.as_str());
        push_str(&mut m, " != target ");
        push_str(&mut m, target_sha256);
        Err(TransportError::Pdiff(m))
    }
}

} // verus!
