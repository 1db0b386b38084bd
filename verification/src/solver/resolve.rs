//! Turning a request into an install plan: the clauses of the universe are
//! solved, and among the selections found the resolver prefers the newest
//! versions of the requested packages, keeps installed packages, pulls in
//! recommendations and drops what nothing needs.

use vstd::prelude::*;
use crate::deb_version::{version_order, version_sign, Version, VersionView};
use crate::solver::encode::{
    contains_index, encode_clauses, encoded, lemma_add_new, lemma_encoded_valid, lemma_families_wf, lemma_matching_bounds,
    lemma_request_vars_bounds, lemma_valid_completed, lemma_valid_satisfies, matching, matching_package_indices,
    only_families, pos_lits, positive_literals, req_views, request_vars, selected, valid_selection,
};
use crate::solver::sat::{clause_sat, copy_clauses, is_true, literal_seqs, satisfies, Clause, Literal, Solver};
use crate::solver::certify::{total, unit_clauses, unsat};
use crate::solver::model::{copy_version, group_views, DependencyGroup, Package, PkgV, SolverError, SpecV};
use crate::solver::universe::{lemma_named_bounds, named, provided, Universe};
use crate::text::{own, str_eq};

verus! {

// ─── Plan entries ─────────────────────────────────────────────────────────────

/// A package name with a version.
pub type EntryV = (Seq<char>, VersionView);

pub open spec fn entry_views(v: Seq<(String, Version)>) -> Seq<EntryV> {
    Seq::new(v.len(), |k: int| (v[k].0@, v[k].1@))
}

/// The name and version of package `i`.
pub open spec fn entry_of(pkgs: Seq<PkgV>, i: usize) -> EntryV {
    (pkgs[i as int].name, pkgs[i as int].version)
}

/// `out` with `e` appended unless it is there already.
pub open spec fn push_absent(out: Seq<EntryV>, e: EntryV) -> Seq<EntryV> {
    if out.contains(e) {
        out
    } else {
        out.push(e)
    }
}

/// Whether two versions are the same.
fn same_version(a: &Version, b: &Version) -> (r: bool)
    ensures
        r == (a@ == b@),
{
    a.epoch == b.epoch && str_eq(a.upstream.as_str(), b.upstream.as_str()) && str_eq(
        a.revision.as_str(),
        b.revision.as_str(),
    )
}

/// Whether `out` lists `name` at version `v`.
fn contains_entry(out: &[(String, Version)], name: &str, v: &Version) -> (r: bool)
    ensures
        r == entry_views(out@).contains((name@, v@)),
{
    let ghost e = (name@, v@);
    let mut k: usize = 0;
    while k < out.len()
        invariant
            k <= out@.len(),
            e == (name@, v@),
            forall|m: int| 0 <= m < k ==> entry_views(out@)[m] != e,
        decreases out@.len() - k,
    {
        if str_eq(out[k].0.as_str(), name) && same_version(&out[k].1, v) {
            assert(entry_views(out@)[k as int] == e);
            return true;
        }
        k = k + 1;
    }
    false
}

/// The entry of package `i`.
fn entry_at(u: &Universe, i: usize) -> (r: (String, Version))
    requires
        i < u.pkgs().len(),
    ensures
        (r.0@, r.1@) == entry_of(u.pkgs(), i),
{
    let p = u.package(i);
    (own(p.name.as_str()), copy_version(&p.version))
}

// ─── The best package of a group ──────────────────────────────────────────────

/// The packages matching each alternative of `g`, alternative after
/// alternative.
pub open spec fn all_matching(pkgs: Seq<PkgV>, g: Seq<SpecV>) -> Seq<usize>
    decreases g.len(),
{
    if g.len() == 0 {
        Seq::empty()
    } else {
        all_matching(pkgs, g.drop_last()) + matching(pkgs, g.last())
    }
}

/// The first of `c` with the highest version.
pub open spec fn best_of(pkgs: Seq<PkgV>, c: Seq<usize>) -> Option<usize>
    decreases c.len(),
{
    if c.len() == 0 {
        None
    } else {
        match best_of(pkgs, c.drop_last()) {
            None => Some(c.last()),
            Some(b) => if version_order(pkgs[c.last() as int].version, pkgs[b as int].version) > 0 {
                Some(c.last())
            } else {
                Some(b)
            },
        }
    }
}

pub proof fn lemma_best_of_in(pkgs: Seq<PkgV>, c: Seq<usize>)
    ensures
        best_of(pkgs, c) matches Some(b) ==> c.contains(b),
        c.len() > 0 ==> best_of(pkgs, c) is Some,
    decreases c.len(),
{
    if c.len() > 0 {
        lemma_best_of_in(pkgs, c.drop_last());
        if let Some(b) = best_of(pkgs, c.drop_last()) {
            let k = choose|k: int| 0 <= k < c.drop_last().len() && c.drop_last()[k] == b;
            assert(c[k] == b);
        }
        assert(c[c.len() - 1] == c.last());
    }
}

pub proof fn lemma_all_matching_bounds(pkgs: Seq<PkgV>, g: Seq<SpecV>)
    ensures
        forall|k: int| 0 <= k < all_matching(pkgs, g).len() ==> #[trigger] all_matching(pkgs, g)[k] < pkgs.len(),
    decreases g.len(),
{
    if g.len() > 0 {
        lemma_all_matching_bounds(pkgs, g.drop_last());
        lemma_matching_bounds(pkgs, g.last());
        let x = all_matching(pkgs, g.drop_last());
        assert forall|k: int| 0 <= k < all_matching(pkgs, g).len() implies #[trigger] all_matching(pkgs, g)[k] < pkgs.len() by {
            if k < x.len() {
                assert(all_matching(pkgs, g)[k] == x[k]);
            } else {
                assert(all_matching(pkgs, g)[k] == matching(pkgs, g.last())[k - x.len()]);
            }
        }
    }
}

/// The highest-version package satisfying `group` (the first such, in the
/// order of the alternatives), if any.
fn best_satisfying(u: &Universe, group: &DependencyGroup) -> (r: Option<usize>)
    ensures
        r == best_of(u.pkgs(), all_matching(u.pkgs(), group@)),
{
    let ghost pkgs = u.pkgs();
    let ghost g = group@;
    let mut best: Option<usize> = None;
    let mut a: usize = 0;
    while a < group.alternatives.len()
        invariant
            a <= g.len(),
            g == group@,
            g.len() == group.alternatives@.len(),
            pkgs == u.pkgs(),
            best == best_of(pkgs, all_matching(pkgs, g.take(a as int))),
            best matches Some(b) ==> b < pkgs.len(),
        decreases g.len() - a,
    {
        let m = matching_package_indices(u, &group.alternatives[a]);
        let ghost before = all_matching(pkgs, g.take(a as int));
        proof {
            assert(g.take(a + 1).drop_last() =~= g.take(a as int));
            assert(g.take(a + 1).last() == group.alternatives@[a as int]@);
            assert(all_matching(pkgs, g.take(a + 1)) == before + m@);
            lemma_matching_bounds(pkgs, g[a as int]);
        }
        let mut t: usize = 0;
        while t < m.len()
            invariant
                t <= m@.len(),
                pkgs == u.pkgs(),
                forall|k: int| 0 <= k < m@.len() ==> #[trigger] m@[k] < pkgs.len(),
                best == best_of(pkgs, before + m@.take(t as int)),
                best matches Some(b) ==> b < pkgs.len(),
            decreases m@.len() - t,
        {
            let j = m[t];
            proof {
                assert((before + m@.take(t + 1)).drop_last() =~= before + m@.take(t as int));
                assert((before + m@.take(t + 1)).last() == j);
            }
            let take = match best {
                None => true,
                Some(b) => version_sign(&u.package(j).version, &u.package(b).version) > 0,
            };
            if take {
                best = Some(j);
            }
            t = t + 1;
        }
        proof {
            assert(m@.take(t as int) =~= m@);
        }
        a = a + 1;
    }
    proof {
        assert(g.take(a as int) =~= g);
    }
    best
}

// ─── Advisories ───────────────────────────────────────────────────────────────

/// `out` followed by the best package of each of the groups `gs` not listed
/// yet.
pub open spec fn advise_groups(pkgs: Seq<PkgV>, out: Seq<EntryV>, gs: Seq<Seq<SpecV>>) -> Seq<EntryV>
    decreases gs.len(),
{
    if gs.len() == 0 {
        out
    } else {
        let o = advise_groups(pkgs, out, gs.drop_last());
        match best_of(pkgs, all_matching(pkgs, gs.last())) {
            None => o,
            Some(j) => push_absent(o, entry_of(pkgs, j)),
        }
    }
}

/// The advisory relations of a package: `Recommends` or `Suggests`.
pub open spec fn advisory_groups(p: PkgV, rec: bool) -> Seq<Seq<SpecV>> {
    if rec {
        p.recommends
    } else {
        p.suggests
    }
}

/// The best packages of the `Recommends` (or `Suggests`) groups of the
/// packages below `m` selected under `a`, each listed once, in order.
pub open spec fn advisories(pkgs: Seq<PkgV>, a: Seq<Option<bool>>, rec: bool, m: nat) -> Seq<EntryV>
    decreases m,
{
    if m == 0 {
        Seq::empty()
    } else {
        let o = advisories(pkgs, a, rec, (m - 1) as nat);
        if a[m - 1] == Some(true) {
            advise_groups(pkgs, o, advisory_groups(pkgs[m - 1], rec))
        } else {
            o
        }
    }
}

/// Appends the best package of each group of `groups` not listed yet.
fn advise_into(u: &Universe, groups: &Vec<DependencyGroup>, out: &mut Vec<(String, Version)>)
    ensures
        entry_views(final(out)@) == advise_groups(u.pkgs(), entry_views(old(out)@), group_views(groups@)),
{
    let ghost pkgs = u.pkgs();
    let ghost start = entry_views(out@);
    let ghost gs = group_views(groups@);
    let mut k: usize = 0;
    while k < groups.len()
        invariant
            k <= groups@.len(),
            gs == group_views(groups@),
            pkgs == u.pkgs(),
            entry_views(out@) == advise_groups(pkgs, start, gs.take(k as int)),
        decreases groups@.len() - k,
    {
        proof {
            assert(gs.take(k + 1).drop_last() =~= gs.take(k as int));
            assert(gs.take(k + 1).last() == groups@[k as int]@);
        }
        match best_satisfying(u, &groups[k]) {
            Some(j) => {
                proof {
                    lemma_best_of_in(pkgs, all_matching(pkgs, gs[k as int]));
                    lemma_all_matching_bounds(pkgs, gs[k as int]);
                    let c = all_matching(pkgs, gs[k as int]);
                    let m = choose|m: int| 0 <= m < c.len() && c[m] == j;
                }
                let (name, version) = entry_at(u, j);
                if !contains_entry(out.as_slice(), name.as_str(), &version) {
                    let ghost before = out@;
                    out.push((name, version));
                    assert(entry_views(out@) =~= entry_views(before).push(entry_of(pkgs, j)));
                }
            },
            None => {},
        }
        k = k + 1;
    }
    proof {
        assert(gs.take(k as int) =~= gs);
    }
}

/// The `Recommends` and the `Suggests` of the selected packages, resolved to
/// their best packages.
fn compute_advisories(u: &Universe, assignment: &Vec<Option<bool>>) -> (r: (
    Vec<(String, Version)>,
    Vec<(String, Version)>,
))
    requires
        assignment@.len() == u.pkgs().len(),
    ensures
        entry_views(r.0@) == advisories(u.pkgs(), assignment@, true, u.pkgs().len()),
        entry_views(r.1@) == advisories(u.pkgs(), assignment@, false, u.pkgs().len()),
{
    let ghost pkgs = u.pkgs();
    let ghost a = assignment@;
    let mut recommended: Vec<(String, Version)> = Vec::new();
    let mut suggested: Vec<(String, Version)> = Vec::new();
    let n = u.len();
    let mut i: usize = 0;
    proof {
        assert(entry_views(recommended@) =~= Seq::<EntryV>::empty());
        assert(entry_views(suggested@) =~= Seq::<EntryV>::empty());
    }
    while i < n
        invariant
            i <= n,
            n == pkgs.len(),
            pkgs == u.pkgs(),
            a == assignment@,
            a.len() == n,
            entry_views(recommended@) == advisories(pkgs, a, true, i as nat),
            entry_views(suggested@) == advisories(pkgs, a, false, i as nat),
        decreases n - i,
    {
        if assignment[i] == Some(true) {
            let p = u.package(i);
            advise_into(u, &p.recommends, &mut recommended);
            advise_into(u, &p.suggests, &mut suggested);
        }
        i = i + 1;
    }
    (recommended, suggested)
}

// ─── Selections ───────────────────────────────────────────────────────────────

/// The packages below `m` selected under `a`, ascending.
pub open spec fn chosen(a: Seq<Option<bool>>, m: nat) -> Seq<usize>
    decreases m,
{
    if m == 0 {
        Seq::empty()
    } else {
        let r = chosen(a, (m - 1) as nat);
        if a[m - 1] == Some(true) {
            r.push((m - 1) as usize)
        } else {
            r
        }
    }
}

pub proof fn lemma_chosen(a: Seq<Option<bool>>, m: nat)
    requires
        m <= usize::MAX,
    ensures
        chosen(a, m).len() <= m,
        forall|k: int| 0 <= k < chosen(a, m).len() ==> #[trigger] chosen(a, m)[k] < m && a[chosen(a, m)[k] as int] == Some(true),
        forall|v: usize| v < m && a[v as int] == Some(true) ==> #[trigger] chosen(a, m).contains(v),
    decreases m,
{
    if m > 0 {
        let m0 = (m - 1) as nat;
        lemma_chosen(a, m0);
        let r = chosen(a, m0);
        let last = (m - 1) as usize;
        assert(chosen(a, m) == r || chosen(a, m) == r.push(last));
        assert forall|v: usize| v < m && a[v as int] == Some(true) implies #[trigger] chosen(a, m).contains(v) by {
            if v < m0 {
                assert(r.contains(v));
                let k = choose|k: int| 0 <= k < r.len() && r[k] == v;
                assert(chosen(a, m)[k] == v);
            } else {
                assert(chosen(a, m)[chosen(a, m).len() - 1] == v);
            }
        }
    }
}

/// More packages are selected under `b`, which selects all those `a` does
/// and `j` too.
pub proof fn lemma_chosen_grows(a: Seq<Option<bool>>, b: Seq<Option<bool>>, m: nat, j: usize)
    requires
        forall|v: int| 0 <= v < m && a[v] == Some(true) ==> #[trigger] b[v] == Some(true),
        j < m,
        b[j as int] == Some(true),
        a[j as int] != Some(true),
    ensures
        chosen(b, m).len() > chosen(a, m).len(),
    decreases m,
{
    lemma_chosen_sub(a, b, (m - 1) as nat);
    if j < m - 1 {
        lemma_chosen_grows(a, b, (m - 1) as nat, j);
    }
}

proof fn lemma_chosen_sub(a: Seq<Option<bool>>, b: Seq<Option<bool>>, m: nat)
    requires
        forall|v: int| 0 <= v < m && a[v] == Some(true) ==> #[trigger] b[v] == Some(true),
    ensures
        chosen(b, m).len() >= chosen(a, m).len(),
    decreases m,
{
    if m > 0 {
        lemma_chosen_sub(a, b, (m - 1) as nat);
    }
}

/// The name and version of each of `idx`.
pub open spec fn entries(pkgs: Seq<PkgV>, idx: Seq<usize>) -> Seq<EntryV> {
    Seq::new(idx.len(), |k: int| entry_of(pkgs, idx[k]))
}

/// The elements of `xs` that `ys` does not hold, in order.
pub open spec fn absent_from(xs: Seq<EntryV>, ys: Seq<EntryV>) -> Seq<EntryV>
    decreases xs.len(),
{
    if xs.len() == 0 {
        Seq::empty()
    } else {
        let r = absent_from(xs.drop_last(), ys);
        if ys.contains(xs.last()) {
            r
        } else {
            r.push(xs.last())
        }
    }
}

/// The indices of the selected packages, ascending.
fn selected_indices(a: &Vec<Option<bool>>) -> (r: Vec<usize>)
    ensures
        r@ == chosen(a@, a@.len()),
{
    let mut out: Vec<usize> = Vec::new();
    let mut v: usize = 0;
    while v < a.len()
        invariant
            v <= a@.len(),
            out@ == chosen(a@, v as nat),
        decreases a@.len() - v,
    {
        if a[v] == Some(true) {
            out.push(v);
        }
        v = v + 1;
    }
    out
}

/// The entries of `xs` that `ys` does not hold, in order.
fn entries_absent(xs: &[(String, Version)], ys: &[(String, Version)]) -> (r: Vec<(String, Version)>)
    ensures
        entry_views(r@) == absent_from(entry_views(xs@), entry_views(ys@)),
{
    let ghost xv = entry_views(xs@);
    let mut out: Vec<(String, Version)> = Vec::new();
    let mut k: usize = 0;
    assert(entry_views(out@) =~= Seq::<EntryV>::empty());
    while k < xs.len()
        invariant
            k <= xs@.len(),
            xv == entry_views(xs@),
            entry_views(out@) == absent_from(xv.take(k as int), entry_views(ys@)),
        decreases xs@.len() - k,
    {
        proof {
            assert(xv.take(k + 1).drop_last() =~= xv.take(k as int));
            assert(xv.take(k + 1).last() == xv[k as int]);
        }
        if !contains_entry(ys, xs[k].0.as_str(), &xs[k].1) {
            let ghost before = out@;
            out.push((own(xs[k].0.as_str()), copy_version(&xs[k].1)));
            assert(entry_views(out@) =~= entry_views(before).push(xv[k as int]));
        }
        k = k + 1;
    }
    assert(xv.take(k as int) =~= xv);
    out
}

// ─── Candidate order ──────────────────────────────────────────────────────────

/// `s` with `x` inserted after the last element whose version is at least
/// that of `x` (at the front when there is none).
pub open spec fn insert_by_version(pkgs: Seq<PkgV>, s: Seq<usize>, x: usize) -> Seq<usize>
    decreases s.len(),
{
    if s.len() == 0 {
        seq![x]
    } else if version_order(pkgs[s.last() as int].version, pkgs[x as int].version) >= 0 {
        s.push(x)
    } else {
        insert_by_version(pkgs, s.drop_last(), x).push(s.last())
    }
}

/// `s` ordered by descending version, stably: equal versions keep their
/// order.
pub open spec fn sorted_by_version(pkgs: Seq<PkgV>, s: Seq<usize>) -> Seq<usize>
    decreases s.len(),
{
    if s.len() == 0 {
        Seq::empty()
    } else {
        insert_by_version(pkgs, sorted_by_version(pkgs, s.drop_last()), s.last())
    }
}

proof fn lemma_insert_bounds(pkgs: Seq<PkgV>, s: Seq<usize>, x: usize, n: int)
    requires
        forall|k: int| 0 <= k < s.len() ==> #[trigger] s[k] < n,
        x < n,
    ensures
        forall|k: int| 0 <= k < insert_by_version(pkgs, s, x).len() ==> #[trigger] insert_by_version(pkgs, s, x)[k] < n,
    decreases s.len(),
{
    let r = insert_by_version(pkgs, s, x);
    if s.len() == 0 {
        assert(r =~= seq![x]);
    } else if version_order(pkgs[s.last() as int].version, pkgs[x as int].version) >= 0 {
        assert(r =~= s.push(x));
        assert forall|k: int| 0 <= k < r.len() implies #[trigger] r[k] < n by {
            if k < s.len() {
                assert(r[k] == s[k]);
            }
        }
    } else {
        lemma_insert_bounds(pkgs, s.drop_last(), x, n);
        let r0 = insert_by_version(pkgs, s.drop_last(), x);
        assert(r =~= r0.push(s.last()));
        assert forall|k: int| 0 <= k < r.len() implies #[trigger] r[k] < n by {
            if k < r0.len() {
                assert(r[k] == r0[k]);
            } else {
                assert(r[k] == s[s.len() - 1]);
            }
        }
    }
}

proof fn lemma_sorted_bounds(pkgs: Seq<PkgV>, s: Seq<usize>, n: int)
    requires
        forall|k: int| 0 <= k < s.len() ==> #[trigger] s[k] < n,
    ensures
        forall|k: int| 0 <= k < sorted_by_version(pkgs, s).len() ==> #[trigger] sorted_by_version(pkgs, s)[k] < n,
    decreases s.len(),
{
    if s.len() > 0 {
        lemma_sorted_bounds(pkgs, s.drop_last(), n);
        lemma_insert_bounds(pkgs, sorted_by_version(pkgs, s.drop_last()), s.last(), n);
    }
}

fn insert_by_version_exec(u: &Universe, s: &mut Vec<usize>, x: usize)
    requires
        x < u.pkgs().len(),
        forall|k: int| 0 <= k < old(s)@.len() ==> #[trigger] old(s)@[k] < u.pkgs().len(),
    ensures
        final(s)@ == insert_by_version(u.pkgs(), old(s)@, x),
    decreases old(s)@.len(),
{
    if s.len() == 0 {
        s.push(x);
        assert(s@ =~= seq![x]);
        return;
    }
    let last = s[s.len() - 1];
    if version_sign(&u.package(last).version, &u.package(x).version) >= 0 {
        s.push(x);
    } else {
        let ghost s0 = s@;
        s.pop();
        assert(s@ =~= s0.drop_last());
        insert_by_version_exec(u, s, x);
        s.push(last);
    }
}

/// The candidates `idx` by descending version, stably.
fn sort_by_version(u: &Universe, idx: &Vec<usize>) -> (r: Vec<usize>)
    requires
        forall|k: int| 0 <= k < idx@.len() ==> #[trigger] idx@[k] < u.pkgs().len(),
    ensures
        r@ == sorted_by_version(u.pkgs(), idx@),
{
    let ghost pkgs = u.pkgs();
    let mut out: Vec<usize> = Vec::new();
    let mut k: usize = 0;
    while k < idx.len()
        invariant
            k <= idx@.len(),
            pkgs == u.pkgs(),
            forall|m: int| 0 <= m < idx@.len() ==> #[trigger] idx@[m] < pkgs.len(),
            out@ == sorted_by_version(pkgs, idx@.take(k as int)),
        decreases idx@.len() - k,
    {
        proof {
            assert(idx@.take(k + 1).drop_last() =~= idx@.take(k as int));
            lemma_sorted_bounds(pkgs, idx@.take(k as int), pkgs.len() as int);
        }
        insert_by_version_exec(u, &mut out, idx[k]);
        k = k + 1;
    }
    assert(idx@.take(k as int) =~= idx@);
    out
}

// ─── Solving under assumptions ────────────────────────────────────────────────

/// Every clause of `cs` is non-empty and mentions only variables below `n`.
pub open spec fn fits(cs: Seq<Seq<Literal>>, n: nat) -> bool {
    &&& forall|k: int| 0 <= k < cs.len() ==> #[trigger] cs[k].len() > 0
    &&& forall|k: int, i: int| 0 <= k < cs.len() && 0 <= i < cs[k].len() ==> #[trigger] cs[k][i].var < n
}

/// `s` is ready to search over `n` variables, and its clauses start with
/// `cs`.
pub open spec fn ready_for(s: Solver, n: nat, cs: Seq<Seq<Literal>>) -> bool {
    &&& s.ready()
    &&& s.vars() == n
    &&& s.clause_seq().len() >= cs.len()
    &&& s.clause_seq().take(cs.len() as int) == cs
}

/// Moreover `s` holds a model of its clauses.
pub open spec fn solved_for(s: Solver, n: nat, cs: Seq<Seq<Literal>>) -> bool {
    ready_for(s, n, cs) && satisfies(s.model(), s.clause_seq())
}

proof fn lemma_solved_model(s: Solver, n: nat, cs: Seq<Seq<Literal>>)
    requires
        solved_for(s, n, cs),
    ensures
        satisfies(s.model(), cs),
        s.model().len() == n,
        s.wf(),
{
    s.lemma_ready_model();
    assert forall|k: int| 0 <= k < cs.len() implies #[trigger] clause_sat(s.model(), cs[k]) by {
        assert(s.clause_seq().take(cs.len() as int)[k] == s.clause_seq()[k]);
        assert(clause_sat(s.model(), s.clause_seq()[k]));
    }
}

/// A fresh solver over `clauses`, solved with `assumptions`; `None` exactly
/// when no selection makes every assumption true.
fn try_assumptions(n: usize, clauses: &Vec<Clause>, assumptions: &Vec<Literal>) -> (r: Option<Solver>)
    requires
        fits(literal_seqs(clauses@), n as nat),
        forall|i: int| 0 <= i < assumptions@.len() ==> #[trigger] assumptions@[i].var < n,
    ensures
        r matches Some(s) ==> solved_for(s, n as nat, literal_seqs(clauses@)) && forall|i: int|
            0 <= i < assumptions@.len() ==> #[trigger] is_true(s.model(), assumptions@[i]),
        r is None ==> unsat(literal_seqs(clauses@) + unit_clauses(assumptions@), n as nat),
{
    let cl = copy_clauses(clauses);
    let ghost cs = literal_seqs(clauses@);
    proof {
        assert forall|k: int| 0 <= k < cl@.len() implies #[trigger] cl@[k].literals@.len() > 0 by {
            assert(literal_seqs(cl@)[k] == cl@[k].literals@);
            assert(cs[k].len() > 0);
        }
        assert forall|k: int, i: int| 0 <= k < cl@.len() && 0 <= i < cl@[k].literals@.len() implies #[trigger] cl@[k].literals@[i].var
            < n by {
            assert(literal_seqs(cl@)[k] == cl@[k].literals@);
            assert(cs[k][i].var < n);
        }
    }
    let mut s = Solver::new(n, cl);
    proof {
        assert(s.clause_seq().take(cs.len() as int) =~= cs);
    }
    if s.solve_with_assumptions(assumptions.as_slice()) {
        Some(s)
    } else {
        None
    }
}

/// Positive literals for `vars`, then `last`.
fn literals_then(vars: &Vec<usize>, last: Literal) -> (r: Vec<Literal>)
    ensures
        r@ == pos_lits(vars@).push(last),
{
    let mut lits = positive_literals(vars);
    lits.push(last);
    lits
}

// ─── What the resolver prefers ────────────────────────────────────────────────

/// Every package of `sel` is selected under `a`.
pub open spec fn holds(a: Seq<Option<bool>>, sel: Seq<usize>) -> bool {
    forall|k: int| 0 <= k < sel.len() ==> selected(a, #[trigger] sel[k])
}

/// Some valid selection selects every package of `sel`.
pub open spec fn admits(pkgs: Seq<PkgV>, reqs: Seq<Seq<char>>, sel: Seq<usize>) -> bool {
    exists|a: Seq<Option<bool>>| #[trigger] valid_selection(pkgs, reqs, a) && holds(a, sel)
}

/// The first of `cands`, from position `c` on, that a valid selection can
/// select together with `pins`.
pub open spec fn pick_from(pkgs: Seq<PkgV>, reqs: Seq<Seq<char>>, pins: Seq<usize>, cands: Seq<usize>, c: int) -> Option<usize>
    decreases cands.len() - c,
{
    if c < 0 || c >= cands.len() {
        None
    } else if admits(pkgs, reqs, pins.push(cands[c])) {
        Some(cands[c])
    } else {
        pick_from(pkgs, reqs, pins, cands, c + 1)
    }
}

/// The packages that the first `x` requests are pinned to: each request in
/// turn to its newest package (by version, the earlier of equal versions)
/// that a valid selection can select together with the earlier pins; a
/// request none of whose packages can is not pinned.
pub open spec fn pins(pkgs: Seq<PkgV>, reqs: Seq<Seq<char>>, x: nat) -> Seq<usize>
    decreases x,
{
    if x == 0 || x > reqs.len() {
        Seq::empty()
    } else {
        let p = pins(pkgs, reqs, (x - 1) as nat);
        match pick_from(pkgs, reqs, p, sorted_by_version(pkgs, named(pkgs, reqs[x - 1])), 0) {
            Some(c) => p.push(c),
            None => p,
        }
    }
}

/// `e` is the name and version of the best package of some `Recommends`
/// group of some package.
pub open spec fn rec_entry(pkgs: Seq<PkgV>, e: EntryV) -> bool {
    exists|i: usize, g: int, j: usize|
        #![trigger rec_best(pkgs, i, g), entry_of(pkgs, j)]
        i < pkgs.len() && 0 <= g < pkgs[i as int].recommends.len() && rec_best(pkgs, i, g) == Some(j)
            && entry_of(pkgs, j) == e
}

/// Every entry of `es` is a recommendation.
pub open spec fn all_rec(pkgs: Seq<PkgV>, es: Seq<EntryV>) -> bool {
    forall|k: int| 0 <= k < es.len() ==> rec_entry(pkgs, #[trigger] es[k])
}

/// Package `v` is one the resolver never drops: a request names it, it is
/// installed (at or after `base`), or it is a recommendation.
pub open spec fn essential(pkgs: Seq<PkgV>, reqs: Seq<Seq<char>>, base: nat, v: usize) -> bool {
    ||| exists|x: int| 0 <= x < reqs.len() && #[trigger] reqs[x] == pkgs[v as int].name
    ||| base <= v
    ||| rec_entry(pkgs, entry_of(pkgs, v))
}

/// The selection `a` without package `v`, every other package decided.
pub open spec fn dropped(a: Seq<Option<bool>>, v: usize, n: nat) -> Seq<Option<bool>> {
    Seq::new(n, |u: int| Some(a[u] == Some(true) && u != v))
}

/// The selection after installed packages are kept: a valid selection of
/// the pins to which no installed package (at or after `base`) that it
/// leaves out can be added.
pub open spec fn kept_stage(pkgs: Seq<PkgV>, reqs: Seq<Seq<char>>, base: nat, b: Seq<Option<bool>>) -> bool {
    &&& b.len() == pkgs.len()
    &&& valid_selection(pkgs, reqs, b)
    &&& holds(b, pins(pkgs, reqs, reqs.len()))
    &&& forall|v: usize|
        base <= v < pkgs.len() ==> #[trigger] selected(b, v) || !admits(pkgs, reqs, chosen(b, pkgs.len()).push(v))
}

/// The selection `a` is the one the resolver prefers: it selects every
/// pinned package; it keeps every installed package that a selection of the
/// pins keeping as many installed packages as it can kept; and each package
/// it selects is essential or cannot be dropped from it.
pub open spec fn preferred(pkgs: Seq<PkgV>, reqs: Seq<Seq<char>>, base: nat, a: Seq<Option<bool>>) -> bool {
    &&& holds(a, pins(pkgs, reqs, reqs.len()))
    &&& exists|b: Seq<Option<bool>>|
        #[trigger] kept_stage(pkgs, reqs, base, b) && forall|v: usize|
            base <= v < pkgs.len() && selected(b, v) ==> #[trigger] selected(a, v)
    &&& forall|v: usize|
        v < pkgs.len() && #[trigger] selected(a, v) && !essential(pkgs, reqs, base, v) ==> !valid_selection(
            pkgs,
            reqs,
            dropped(a, v, pkgs.len()),
        )
}

/// A model of `cs` that makes every literal of `lits` true is a model of
/// `cs` with those literals as unit clauses.
proof fn lemma_sat_units(a: Seq<Option<bool>>, cs: Seq<Seq<Literal>>, lits: Seq<Literal>)
    requires
        satisfies(a, cs),
        forall|i: int| 0 <= i < lits.len() ==> #[trigger] is_true(a, lits[i]),
    ensures
        satisfies(a, cs + unit_clauses(lits)),
{
    let all = cs + unit_clauses(lits);
    assert forall|k: int| 0 <= k < all.len() implies #[trigger] clause_sat(a, all[k]) by {
        if k < cs.len() {
            assert(all[k] == cs[k]);
        } else {
            assert(all[k] == seq![lits[k - cs.len()]]);
            assert(is_true(a, all[k][0]));
        }
    }
}

/// When the clauses with the packages of `sel` forced have no model, no
/// valid selection selects them all.
proof fn lemma_unsat_not_admits(pkgs: Seq<PkgV>, reqs: Seq<Seq<char>>, cs: Seq<Seq<Literal>>, sel: Seq<usize>)
    requires
        only_families(pkgs, reqs, cs),
        forall|k: int| 0 <= k < sel.len() ==> #[trigger] sel[k] < pkgs.len(),
        unsat(cs + unit_clauses(pos_lits(sel)), pkgs.len()),
    ensures
        !admits(pkgs, reqs, sel),
{
    if admits(pkgs, reqs, sel) {
        let a = choose|a: Seq<Option<bool>>| #[trigger] valid_selection(pkgs, reqs, a) && holds(a, sel);
        let n = pkgs.len();
        let m = completed(a, n);
        lemma_valid_completed(pkgs, reqs, a);
        assert(m =~= Seq::new(pkgs.len(), |v: int| Some(a[v] == Some(true))));
        lemma_valid_satisfies(pkgs, reqs, cs, m);
        assert forall|i: int| 0 <= i < pos_lits(sel).len() implies #[trigger] is_true(m, pos_lits(sel)[i]) by {
            assert(selected(a, sel[i]));
        }
        lemma_sat_units(m, cs, pos_lits(sel));
        assert(total(m, n));
    }
}

/// A model of encoded clauses that selects every package of `sel` makes
/// them admissible.
proof fn lemma_model_admits(pkgs: Seq<PkgV>, reqs: Seq<Seq<char>>, cs: Seq<Seq<Literal>>, a: Seq<Option<bool>>, sel: Seq<usize>)
    requires
        encoded(pkgs, reqs, cs),
        satisfies(a, cs),
        holds(a, sel),
    ensures
        admits(pkgs, reqs, sel),
{
    lemma_encoded_valid(pkgs, reqs, cs, a);
}

/// Fewer packages to select are admissible when more are.
proof fn lemma_admits_fewer(pkgs: Seq<PkgV>, reqs: Seq<Seq<char>>, s1: Seq<usize>, s2: Seq<usize>)
    requires
        admits(pkgs, reqs, s2),
        forall|i: usize| #[trigger] s1.contains(i) ==> s2.contains(i),
    ensures
        admits(pkgs, reqs, s1),
{
    let a = choose|a: Seq<Option<bool>>| #[trigger] valid_selection(pkgs, reqs, a) && holds(a, s2);
    assert forall|k: int| 0 <= k < s1.len() implies selected(a, #[trigger] s1[k]) by {
        assert(s1.contains(s1[k]));
        let j = choose|j: int| 0 <= j < s2.len() && s2[j] == s1[k];
        assert(selected(a, s2[j]));
    }
    assert(valid_selection(pkgs, reqs, a) && holds(a, s1));
}

proof fn lemma_named_names(pkgs: Seq<PkgV>, k: Seq<char>)
    requires
        pkgs.len() <= usize::MAX,
    ensures
        forall|i: int| 0 <= i < named(pkgs, k).len() ==> #[trigger] named(pkgs, k)[i] < pkgs.len() && pkgs[named(pkgs, k)[i] as int].name == k,
    decreases pkgs.len(),
{
    if pkgs.len() > 0 {
        lemma_named_names(pkgs.drop_last(), k);
        let n0 = named(pkgs.drop_last(), k);
        assert forall|i: int| 0 <= i < named(pkgs, k).len() implies #[trigger] named(pkgs, k)[i] < pkgs.len() && pkgs[named(pkgs, k)[i] as int].name == k by {
            if i < n0.len() {
                assert(named(pkgs, k)[i] == n0[i]);
                assert(pkgs.drop_last()[n0[i] as int] == pkgs[n0[i] as int]);
            } else {
                assert(pkgs.last().name == k);
                assert(named(pkgs, k) == n0 + seq![(pkgs.len() - 1) as usize]);
                assert(named(pkgs, k)[i] == (pkgs.len() - 1) as usize);
            }
        }
    }
}

/// Every element of `s` (and `x`) is a package named `k`: so is every
/// element of `s` with `x` inserted.
proof fn lemma_insert_names(pkgs: Seq<PkgV>, s: Seq<usize>, x: usize, k: Seq<char>)
    requires
        forall|t: int| 0 <= t < s.len() ==> #[trigger] s[t] < pkgs.len() && pkgs[s[t] as int].name == k,
        x < pkgs.len() && pkgs[x as int].name == k,
    ensures
        forall|t: int| 0 <= t < insert_by_version(pkgs, s, x).len() ==> #[trigger] insert_by_version(pkgs, s, x)[t] < pkgs.len()
            && pkgs[insert_by_version(pkgs, s, x)[t] as int].name == k,
    decreases s.len(),
{
    let r = insert_by_version(pkgs, s, x);
    if s.len() == 0 {
        assert(r =~= seq![x]);
    } else if version_order(pkgs[s.last() as int].version, pkgs[x as int].version) >= 0 {
        assert(r =~= s.push(x));
        assert forall|t: int| 0 <= t < r.len() implies #[trigger] r[t] < pkgs.len() && pkgs[r[t] as int].name == k by {
            if t < s.len() {
                assert(r[t] == s[t]);
            }
        }
    } else {
        lemma_insert_names(pkgs, s.drop_last(), x, k);
        let r0 = insert_by_version(pkgs, s.drop_last(), x);
        assert(r =~= r0.push(s.last()));
        assert forall|t: int| 0 <= t < r.len() implies #[trigger] r[t] < pkgs.len() && pkgs[r[t] as int].name == k by {
            if t < r0.len() {
                assert(r[t] == r0[t]);
            } else {
                assert(r[t] == s[s.len() - 1]);
            }
        }
    }
}

proof fn lemma_sorted_names(pkgs: Seq<PkgV>, s: Seq<usize>, k: Seq<char>)
    requires
        forall|t: int| 0 <= t < s.len() ==> #[trigger] s[t] < pkgs.len() && pkgs[s[t] as int].name == k,
    ensures
        forall|t: int| 0 <= t < sorted_by_version(pkgs, s).len() ==> #[trigger] sorted_by_version(pkgs, s)[t] < pkgs.len()
            && pkgs[sorted_by_version(pkgs, s)[t] as int].name == k,
    decreases s.len(),
{
    if s.len() > 0 {
        assert forall|t: int| 0 <= t < s.drop_last().len() implies #[trigger] s.drop_last()[t] < pkgs.len() && pkgs[s.drop_last()[t] as int].name == k by {
            assert(s.drop_last()[t] == s[t]);
        }
        lemma_sorted_names(pkgs, s.drop_last(), k);
        lemma_insert_names(pkgs, sorted_by_version(pkgs, s.drop_last()), s.last(), k);
    }
}

proof fn lemma_pick_from_in(pkgs: Seq<PkgV>, reqs: Seq<Seq<char>>, p: Seq<usize>, cands: Seq<usize>, c: int)
    ensures
        pick_from(pkgs, reqs, p, cands, c) matches Some(v) ==> exists|t: int| 0 <= t < cands.len() && cands[t] == v,
    decreases cands.len() - c,
{
    if 0 <= c < cands.len() && !admits(pkgs, reqs, p.push(cands[c])) {
        lemma_pick_from_in(pkgs, reqs, p, cands, c + 1);
    }
}

/// Each pin is a package some request names.
proof fn lemma_pins_named(pkgs: Seq<PkgV>, reqs: Seq<Seq<char>>, x: nat)
    requires
        pkgs.len() <= usize::MAX,
    ensures
        forall|k: int| 0 <= k < pins(pkgs, reqs, x).len() ==> #[trigger] pins(pkgs, reqs, x)[k] < pkgs.len() && exists|y: int|
            0 <= y < reqs.len() && #[trigger] reqs[y] == pkgs[pins(pkgs, reqs, x)[k] as int].name,
    decreases x,
{
    if x > 0 && x <= reqs.len() {
        lemma_pins_named(pkgs, reqs, (x - 1) as nat);
        let p = pins(pkgs, reqs, (x - 1) as nat);
        let nm = reqs[x - 1];
        let cands = sorted_by_version(pkgs, named(pkgs, nm));
        lemma_named_names(pkgs, nm);
        lemma_sorted_names(pkgs, named(pkgs, nm), nm);
        lemma_pick_from_in(pkgs, reqs, p, cands, 0);
        let r = pins(pkgs, reqs, x);
        assert forall|k: int| 0 <= k < r.len() implies #[trigger] r[k] < pkgs.len() && exists|y: int|
            0 <= y < reqs.len() && #[trigger] reqs[y] == pkgs[r[k] as int].name by {
            if k < p.len() {
                assert(r[k] == p[k]);
            } else {
                let v = r[k];
                let t = choose|t: int| 0 <= t < cands.len() && cands[t] == v;
                assert(cands[t] < pkgs.len() && pkgs[cands[t] as int].name == nm);
                assert(reqs[x - 1] == pkgs[r[k] as int].name);
            }
        }
    }
}

// ─── The phases of a resolution ───────────────────────────────────────────────

/// Pins each request, in order, to its newest package that can still be
/// selected together with those pinned before; a request none of whose
/// packages can stays unpinned. `solver` becomes the last successful solve;
/// the answer is whether any request was pinned.
fn pin_requests(u: &Universe, n: usize, clauses: &Vec<Clause>, requests: &[&str], solver: &mut Solver) -> (r: bool)
    requires
        n == u.pkgs().len(),
        fits(literal_seqs(clauses@), n as nat),
        encoded(u.pkgs(), req_views(requests@), literal_seqs(clauses@)),
        only_families(u.pkgs(), req_views(requests@), literal_seqs(clauses@)),
        ready_for(*old(solver), n as nat, literal_seqs(clauses@)),
    ensures
        ready_for(*final(solver), n as nat, literal_seqs(clauses@)),
        r == (pins(u.pkgs(), req_views(requests@), requests@.len()).len() > 0),
        r ==> solved_for(*final(solver), n as nat, literal_seqs(clauses@)) && holds(
            final(solver).model(),
            pins(u.pkgs(), req_views(requests@), requests@.len()),
        ),
{
    let ghost cs = literal_seqs(clauses@);
    let ghost pkgs = u.pkgs();
    let ghost reqs = req_views(requests@);
    let mut pinned: Vec<usize> = Vec::new();
    let mut x: usize = 0;
    while x < requests.len()
        invariant
            x <= requests@.len(),
            n == u.pkgs().len(),
            pkgs == u.pkgs(),
            reqs == req_views(requests@),
            cs == literal_seqs(clauses@),
            fits(cs, n as nat),
            encoded(pkgs, reqs, cs),
            only_families(pkgs, reqs, cs),
            ready_for(*solver, n as nat, cs),
            pinned@ == pins(pkgs, reqs, x as nat),
            pinned@.len() > 0 ==> solved_for(*solver, n as nat, cs) && holds(solver.model(), pinned@),
            forall|k: int| 0 <= k < pinned@.len() ==> #[trigger] pinned@[k] < n,
        decreases requests@.len() - x,
    {
        let same_name = u.indices_named(requests[x]);
        proof {
            lemma_named_bounds(u.pkgs(), requests@[x as int]@);
        }
        let cands = sort_by_version(u, &same_name);
        proof {
            lemma_sorted_bounds(u.pkgs(), same_name@, n as int);
            assert(reqs[x as int] == requests@[x as int]@);
        }
        let ghost p0 = pinned@;
        let mut done = false;
        let mut c: usize = 0;
        while c < cands.len() && !done
            invariant
                c <= cands@.len(),
                x < requests@.len(),
                n == u.pkgs().len(),
                pkgs == u.pkgs(),
                reqs == req_views(requests@),
                cs == literal_seqs(clauses@),
                fits(cs, n as nat),
                encoded(pkgs, reqs, cs),
                only_families(pkgs, reqs, cs),
                ready_for(*solver, n as nat, cs),
                p0 == pins(pkgs, reqs, x as nat),
                cands@ == sorted_by_version(pkgs, named(pkgs, reqs[x as int])),
                !done ==> pinned@ == p0 && pick_from(pkgs, reqs, p0, cands@, 0) == pick_from(pkgs, reqs, p0, cands@, c as int),
                done ==> pinned@ == pins(pkgs, reqs, (x + 1) as nat),
                pinned@.len() > 0 ==> solved_for(*solver, n as nat, cs) && holds(solver.model(), pinned@),
                forall|k: int| 0 <= k < pinned@.len() ==> #[trigger] pinned@[k] < n,
                forall|k: int| 0 <= k < cands@.len() ==> #[trigger] cands@[k] < n,
            decreases cands@.len() - c,
        {
            let assumptions = literals_then(&pinned, Literal::pos(cands[c]));
            proof {
                assert(assumptions@ =~= pos_lits(p0.push(cands@[c as int])));
                assert forall|i: int| 0 <= i < assumptions@.len() implies #[trigger] assumptions@[i].var < n by {
                    if i < pinned@.len() {
                        assert(assumptions@[i] == pos_lits(pinned@)[i]);
                    }
                }
                assert forall|k: int| 0 <= k < p0.push(cands@[c as int]).len() implies #[trigger] p0.push(cands@[c as int])[k] < pkgs.len() by {
                    if k < p0.len() {
                        assert(p0.push(cands@[c as int])[k] == p0[k]);
                    }
                }
            }
            match try_assumptions(n, clauses, &assumptions) {
                Some(s) => {
                    proof {
                        lemma_solved_model(s, n as nat, cs);
                        let q = p0.push(cands@[c as int]);
                        assert forall|k: int| 0 <= k < q.len() implies selected(s.model(), #[trigger] q[k]) by {
                            assert(is_true(s.model(), assumptions@[k]));
                        }
                        lemma_model_admits(pkgs, reqs, cs, s.model(), q);
                    }
                    pinned.push(cands[c]);
                    *solver = s;
                    done = true;
                },
                None => {
                    proof {
                        lemma_unsat_not_admits(pkgs, reqs, cs, p0.push(cands@[c as int]));
                    }
                },
            }
            c = c + 1;
        }
        x = x + 1;
    }
    pinned.len() > 0
}

/// Keeps as many installed packages as possible: each installed candidate
/// not yet selected is added to the current selection when the clauses still
/// allow it. Nothing selected is dropped, and no installed package left out
/// can then be added to the selection.
fn keep_installed(
    u: &Universe,
    n: usize,
    clauses: &Vec<Clause>,
    requests: &[&str],
    installed_vars: &Vec<usize>,
    solver: &mut Solver,
)
    requires
        n == u.pkgs().len(),
        fits(literal_seqs(clauses@), n as nat),
        only_families(u.pkgs(), req_views(requests@), literal_seqs(clauses@)),
        solved_for(*old(solver), n as nat, literal_seqs(clauses@)),
        forall|k: int| 0 <= k < installed_vars@.len() ==> #[trigger] installed_vars@[k] < n,
    ensures
        solved_for(*final(solver), n as nat, literal_seqs(clauses@)),
        forall|v: usize| v < n && #[trigger] selected(old(solver).model(), v) ==> selected(final(solver).model(), v),
        forall|t: int|
            0 <= t < installed_vars@.len() ==> selected(final(solver).model(), #[trigger] installed_vars@[t]) || !admits(
                u.pkgs(),
                req_views(requests@),
                chosen(final(solver).model(), n as nat).push(installed_vars@[t]),
            ),
{
    let ghost cs = literal_seqs(clauses@);
    let ghost pkgs = u.pkgs();
    let ghost reqs = req_views(requests@);
    let ghost a0 = solver.model();
    proof {
        lemma_solved_model(*solver, n as nat, cs);
        lemma_chosen(solver.model(), n as nat);
    }
    let mut kept = selected_indices(solver.assignment());
    let mut t: usize = 0;
    while t < installed_vars.len()
        invariant
            t <= installed_vars@.len(),
            n == u.pkgs().len(),
            pkgs == u.pkgs(),
            reqs == req_views(requests@),
            cs == literal_seqs(clauses@),
            fits(cs, n as nat),
            only_families(pkgs, reqs, cs),
            solved_for(*solver, n as nat, cs),
            solver.model().len() == n,
            kept@ == chosen(solver.model(), n as nat),
            forall|k: int| 0 <= k < installed_vars@.len() ==> #[trigger] installed_vars@[k] < n,
            forall|k: int| 0 <= k < kept@.len() ==> #[trigger] kept@[k] < n,
            forall|v: usize| v < n && #[trigger] selected(a0, v) ==> selected(solver.model(), v),
            forall|t2: int|
                0 <= t2 < t ==> selected(solver.model(), #[trigger] installed_vars@[t2]) || !admits(
                    pkgs,
                    reqs,
                    chosen(solver.model(), n as nat).push(installed_vars@[t2]),
                ),
        decreases installed_vars@.len() - t,
    {
        let k = installed_vars[t];
        proof {
            lemma_solved_model(*solver, n as nat, cs);
            lemma_chosen(solver.model(), n as nat);
        }
        if !contains_index(&kept, k) {
            let assumptions = literals_then(&kept, Literal::pos(k));
            proof {
                assert(assumptions@ =~= pos_lits(kept@.push(k)));
                assert forall|i: int| 0 <= i < assumptions@.len() implies #[trigger] assumptions@[i].var < n by {
                    if i < kept@.len() {
                        assert(assumptions@[i] == pos_lits(kept@)[i]);
                    }
                }
            }
            let ghost before = solver.model();
            match try_assumptions(n, clauses, &assumptions) {
                Some(s) => {
                    proof {
                        lemma_solved_model(s, n as nat, cs);
                        lemma_chosen(s.model(), n as nat);
                        let b = s.model();
                        assert forall|v: usize| v < n && #[trigger] selected(before, v) implies selected(b, v) by {
                            assert(kept@.contains(v));
                            let j = choose|j: int| 0 <= j < kept@.len() && kept@[j] == v;
                            assert(is_true(b, assumptions@[j]));
                        }
                        assert(is_true(b, assumptions@[kept@.len() as int]));
                        assert forall|t2: int|
                            0 <= t2 < t implies selected(b, #[trigger] installed_vars@[t2]) || !admits(
                                pkgs,
                                reqs,
                                chosen(b, n as nat).push(installed_vars@[t2]),
                            ) by {
                            let w = installed_vars@[t2];
                            if !selected(b, w) {
                                assert(!selected(before, w));
                                let s1 = chosen(before, n as nat).push(w);
                                let s2 = chosen(b, n as nat).push(w);
                                assert forall|i: usize| #[trigger] s1.contains(i) implies s2.contains(i) by {
                                    if i == w {
                                        assert(s2[s2.len() - 1] == w);
                                    } else {
                                        let j = choose|j: int| 0 <= j < s1.len() && s1[j] == i;
                                        assert(chosen(before, n as nat)[j] == i);
                                        assert(selected(before, i));
                                        assert(chosen(b, n as nat).contains(i));
                                        let j2 = choose|j2: int| 0 <= j2 < chosen(b, n as nat).len() && chosen(b, n as nat)[j2] == i;
                                        assert(s2[j2] == i);
                                    }
                                }
                                if admits(pkgs, reqs, s2) {
                                    lemma_admits_fewer(pkgs, reqs, s1, s2);
                                }
                            }
                        }
                    }
                    kept = selected_indices(s.assignment());
                    *solver = s;
                },
                None => {
                    proof {
                        lemma_unsat_not_admits(pkgs, reqs, cs, kept@.push(k));
                    }
                },
            }
        } else {
            proof {
                let j = choose|j: int| 0 <= j < kept@.len() && kept@[j] == k;
                assert(selected(solver.model(), kept@[j]));
            }
        }
        t = t + 1;
    }
}

/// The best package of the `g`-th `Recommends` group of package `i`.
pub open spec fn rec_best(pkgs: Seq<PkgV>, i: usize, g: int) -> Option<usize> {
    best_of(pkgs, all_matching(pkgs, pkgs[i as int].recommends[g]))
}

/// The best packages, already selected in `a`, of the first `g`
/// `Recommends` groups of package `i`, in group order.
pub open spec fn held_recs_of(pkgs: Seq<PkgV>, a: Seq<Option<bool>>, i: usize, g: nat) -> Seq<EntryV>
    decreases g,
{
    if g == 0 {
        Seq::empty()
    } else {
        let r = held_recs_of(pkgs, a, i, (g - 1) as nat);
        match rec_best(pkgs, i, g - 1) {
            Some(j) => if a[j as int] == Some(true) {
                r.push(entry_of(pkgs, j))
            } else {
                r
            },
            None => r,
        }
    }
}

/// The same over every group of the first `k` packages of `sel`.
pub open spec fn held_recs(pkgs: Seq<PkgV>, a: Seq<Option<bool>>, sel: Seq<usize>, k: nat) -> Seq<EntryV>
    decreases k,
{
    if k == 0 {
        Seq::empty()
    } else {
        held_recs(pkgs, a, sel, (k - 1) as nat) + held_recs_of(
            pkgs,
            a,
            sel[k - 1],
            pkgs[sel[k - 1] as int].recommends.len(),
        )
    }
}

/// Every selected best recommendation of the selection `a`.
pub open spec fn all_held_recs(pkgs: Seq<PkgV>, a: Seq<Option<bool>>, n: nat) -> Seq<EntryV> {
    held_recs(pkgs, a, chosen(a, n), chosen(a, n).len())
}

/// A round that stopped at the `g`-th group of the `k`-th selected package of
/// `a`: the best package there was unselected in `a` and is selected in `b`,
/// and `new_rec` is `old_rec` with the selected best packages met before it
/// and then that package.
pub open spec fn rec_stop(
    pkgs: Seq<PkgV>,
    a: Seq<Option<bool>>,
    b: Seq<Option<bool>>,
    n: nat,
    old_rec: Seq<EntryV>,
    new_rec: Seq<EntryV>,
    k: int,
    g: int,
) -> bool {
    let sel = chosen(a, n);
    &&& 0 <= k < sel.len()
    &&& 0 <= g < pkgs[sel[k] as int].recommends.len()
    &&& rec_best(pkgs, sel[k], g) matches Some(j) && a[j as int] != Some(true) && b[j as int] == Some(true)
        && new_rec == old_rec + held_recs(pkgs, a, sel, k as nat) + held_recs_of(pkgs, a, sel[k], g as nat).push(
        entry_of(pkgs, j),
    )
}

/// One round of pulling in recommendations: for the first `Recommends` group
/// of a selected package whose best package is not selected and can be added
/// to the selection, adds it and answers `true`. Best packages found already
/// selected, and the one added, are recorded in `recommended`.
fn recommend_step(
    u: &Universe,
    n: usize,
    clauses: &Vec<Clause>,
    solver: &mut Solver,
    recommended: &mut Vec<(String, Version)>,
) -> (added: bool)
    requires
        n == u.pkgs().len(),
        fits(literal_seqs(clauses@), n as nat),
        solved_for(*old(solver), n as nat, literal_seqs(clauses@)),
        all_rec(u.pkgs(), entry_views(old(recommended)@)),
    ensures
        solved_for(*final(solver), n as nat, literal_seqs(clauses@)),
        all_rec(u.pkgs(), entry_views(final(recommended)@)),
        forall|v: int| 0 <= v < n && old(solver).model()[v] == Some(true) ==> #[trigger] final(solver).model()[v] == Some(true),
        added ==> chosen(final(solver).model(), n as nat).len() > chosen(old(solver).model(), n as nat).len(),
        !added ==> *final(solver) == *old(solver),
        !added ==> entry_views(final(recommended)@) == entry_views(old(recommended)@) + all_held_recs(
            u.pkgs(),
            old(solver).model(),
            n as nat,
        ),
        added ==> exists|k: int, g: int|
            #[trigger] rec_stop(
                u.pkgs(),
                old(solver).model(),
                final(solver).model(),
                n as nat,
                entry_views(old(recommended)@),
                entry_views(final(recommended)@),
                k,
                g,
            ),
{
    let ghost pkgs = u.pkgs();
    let ghost r0 = entry_views(recommended@);
    let ghost cs = literal_seqs(clauses@);
    let ghost a0 = solver.model();
    proof {
        lemma_solved_model(*solver, n as nat, cs);
        lemma_chosen(solver.model(), n as nat);
    }
    let current = selected_indices(solver.assignment());
    let mut idx: usize = 0;
    while idx < current.len()
        invariant
            idx <= current@.len(),
            n == u.pkgs().len(),
            cs == literal_seqs(clauses@),
            fits(cs, n as nat),
            solved_for(*solver, n as nat, cs),
            *solver == *old(solver),
            a0 == old(solver).model(),
            a0.len() == n,
            current@ == chosen(a0, n as nat),
            forall|k: int| 0 <= k < current@.len() ==> #[trigger] current@[k] < n && a0[current@[k] as int] == Some(true),
            forall|v: usize| v < n && a0[v as int] == Some(true) ==> #[trigger] current@.contains(v),
            pkgs == u.pkgs(),
            r0 == entry_views(old(recommended)@),
            all_rec(pkgs, entry_views(recommended@)),
            entry_views(recommended@) == r0 + held_recs(pkgs, a0, current@, idx as nat),
        decreases current@.len() - idx,
    {
        let i = current[idx];
        let groups = &u.package(i).recommends;
        proof {
            assert(groups@.len() == pkgs[i as int].recommends.len());
        }
        let mut g: usize = 0;
        while g < groups.len()
            invariant
                g <= groups@.len(),
                n == u.pkgs().len(),
                cs == literal_seqs(clauses@),
                fits(cs, n as nat),
                solved_for(*solver, n as nat, cs),
                *solver == *old(solver),
                a0 == old(solver).model(),
                a0.len() == n,
                current@ == chosen(a0, n as nat),
                forall|k: int| 0 <= k < current@.len() ==> #[trigger] current@[k] < n && a0[current@[k] as int] == Some(true),
                forall|v: usize| v < n && a0[v as int] == Some(true) ==> #[trigger] current@.contains(v),
                pkgs == u.pkgs(),
                r0 == entry_views(old(recommended)@),
                all_rec(pkgs, entry_views(recommended@)),
                idx < current@.len(),
                i == current@[idx as int],
                groups@.len() == pkgs[i as int].recommends.len(),
                forall|m: int| 0 <= m < groups@.len() ==> #[trigger] groups@[m]@ == pkgs[i as int].recommends[m],
                entry_views(recommended@) == r0 + held_recs(pkgs, a0, current@, idx as nat) + held_recs_of(
                    pkgs,
                    a0,
                    i,
                    g as nat,
                ),
            decreases groups@.len() - g,
        {
            let ghost before = entry_views(recommended@);
            proof {
                assert(groups@[g as int]@ == pkgs[i as int].recommends[g as int]);
            }
            match best_satisfying(u, &groups[g]) {
                Some(j) => {
                    proof {
                        let c = all_matching(u.pkgs(), groups@[g as int]@);
                        lemma_best_of_in(u.pkgs(), c);
                        lemma_all_matching_bounds(u.pkgs(), groups@[g as int]@);
                        let m = choose|m: int| 0 <= m < c.len() && c[m] == j;
                    }
                    proof {
                        assert(rec_best(pkgs, i, g as int) == Some(j));
                        assert(rec_entry(pkgs, entry_of(pkgs, j)));
                    }
                    if solver.assignment()[j] == Some(true) {
                        recommended.push(entry_at(u, j));
                        proof {
                            assert(entry_views(recommended@) =~= before.push(entry_of(pkgs, j)));
                            assert(all_rec(pkgs, entry_views(recommended@)));
                        }
                    } else {
                        let assumptions = literals_then(&current, Literal::pos(j));
                        proof {
                            assert forall|k: int| 0 <= k < assumptions@.len() implies #[trigger] assumptions@[k].var < n by {
                                if k < current@.len() {
                                    assert(assumptions@[k] == pos_lits(current@)[k]);
                                }
                            }
                        }
                        match try_assumptions(n, clauses, &assumptions) {
                            Some(s) => {
                                proof {
                                    lemma_solved_model(s, n as nat, cs);
                                    let b = s.model();
                                    assert forall|v: int| 0 <= v < n && a0[v] == Some(true) implies #[trigger] b[v] == Some(true) by {
                                        let vv = v as usize;
                                        assert(current@.contains(vv));
                                        let k = choose|k: int| 0 <= k < current@.len() && current@[k] == vv;
                                        assert(assumptions@[k] == pos_lits(current@)[k]);
                                        assert(is_true(b, assumptions@[k]));
                                    }
                                    assert(is_true(b, assumptions@[current@.len() as int]));
                                    lemma_chosen_grows(a0, b, n as nat, j);
                                }
                                recommended.push(entry_at(u, j));
                                *solver = s;
                                proof {
                                    assert(entry_views(recommended@) =~= before.push(entry_of(pkgs, j)));
                                    assert(all_rec(pkgs, entry_views(recommended@)));
                                    assert(rec_stop(
                                        pkgs,
                                        a0,
                                        solver.model(),
                                        n as nat,
                                        r0,
                                        entry_views(recommended@),
                                        idx as int,
                                        g as int,
                                    ));
                                }
                                return true;
                            },
                            None => {},
                        }
                    }
                },
                None => {},
            }
            proof {
                let hp = held_recs(pkgs, a0, current@, idx as nat);
                assert(entry_views(recommended@) =~= r0 + hp + held_recs_of(pkgs, a0, i, (g + 1) as nat));
            }
            g = g + 1;
        }
        proof {
            assert(held_recs(pkgs, a0, current@, (idx + 1) as nat) == held_recs(pkgs, a0, current@, idx as nat)
                + held_recs_of(pkgs, a0, i, pkgs[i as int].recommends.len()));
            assert(entry_views(recommended@) =~= r0 + held_recs(pkgs, a0, current@, (idx + 1) as nat));
        }
        idx = idx + 1;
    }
    false
}

/// Pulls in recommendations round after round, until none can be added;
/// answers the recommended packages met on the way.
fn pull_recommends(u: &Universe, n: usize, clauses: &Vec<Clause>, solver: &mut Solver) -> (r: Vec<(String, Version)>)
    requires
        n == u.pkgs().len(),
        fits(literal_seqs(clauses@), n as nat),
        solved_for(*old(solver), n as nat, literal_seqs(clauses@)),
    ensures
        solved_for(*final(solver), n as nat, literal_seqs(clauses@)),
        ends_with(entry_views(r@), all_held_recs(u.pkgs(), final(solver).model(), n as nat)),
        all_rec(u.pkgs(), entry_views(r@)),
        forall|v: int| 0 <= v < n && old(solver).model()[v] == Some(true) ==> #[trigger] final(solver).model()[v] == Some(true),
{
    let ghost cs = literal_seqs(clauses@);
    let ghost a0 = solver.model();
    let mut recommended: Vec<(String, Version)> = Vec::new();
    assert(entry_views(recommended@) =~= Seq::<EntryV>::empty());
    loop
        invariant
            n == u.pkgs().len(),
            cs == literal_seqs(clauses@),
            fits(cs, n as nat),
            solved_for(*solver, n as nat, cs),
            all_rec(u.pkgs(), entry_views(recommended@)),
            forall|v: int| 0 <= v < n && a0[v] == Some(true) ==> #[trigger] solver.model()[v] == Some(true),
        ensures
            solved_for(*solver, n as nat, cs),
            all_rec(u.pkgs(), entry_views(recommended@)),
            forall|v: int| 0 <= v < n && a0[v] == Some(true) ==> #[trigger] solver.model()[v] == Some(true),
            ends_with(entry_views(recommended@), all_held_recs(u.pkgs(), solver.model(), n as nat)),
        decreases n - chosen(solver.model(), n as nat).len(),
    {
        let ghost before = entry_views(recommended@);
        proof {
            lemma_solved_model(*solver, n as nat, cs);
            lemma_chosen(solver.model(), n as nat);
        }
        let added = recommend_step(u, n, clauses, solver, &mut recommended);
        proof {
            lemma_solved_model(*solver, n as nat, cs);
            lemma_chosen(solver.model(), n as nat);
        }
        if !added {
            proof {
                let h = all_held_recs(u.pkgs(), solver.model(), n as nat);
                let e = entry_views(recommended@);
                assert(e.subrange(e.len() - h.len(), e.len() as int) =~= h);
            }
            break;
        }
    }
    recommended
}

/// `s` ends with `t`.
pub open spec fn ends_with(s: Seq<EntryV>, t: Seq<EntryV>) -> bool {
    s.len() >= t.len() && s.subrange(s.len() - t.len(), s.len() as int) == t
}

/// Whether some request names `name`.
fn names_request(requests: &[&str], name: &str) -> (r: bool)
    ensures
        r == exists|x: int| 0 <= x < requests@.len() && #[trigger] requests@[x]@ == name@,
{
    let mut x: usize = 0;
    while x < requests.len()
        invariant
            x <= requests@.len(),
            forall|y: int| 0 <= y < x ==> #[trigger] requests@[y]@ != name@,
        decreases requests@.len() - x,
    {
        if str_eq(requests[x], name) {
            return true;
        }
        x = x + 1;
    }
    false
}

/// Package `v` is requested by name, installed (one of `iv`) or one of the
/// recommendations `recs`.
pub open spec fn kept_always(pkgs: Seq<PkgV>, reqs: Seq<Seq<char>>, iv: Seq<usize>, recs: Seq<EntryV>, v: usize) -> bool {
    ||| exists|x: int| 0 <= x < reqs.len() && #[trigger] reqs[x] == pkgs[v as int].name
    ||| iv.contains(v)
    ||| recs.contains(entry_of(pkgs, v))
}

/// Literals deciding every package: those selected under `a` but `v` true,
/// every other false.
fn literals_without(a: &Vec<Option<bool>>, v: usize) -> (r: Vec<Literal>)
    ensures
        r@.len() == a@.len(),
        forall|w: int|
            0 <= w < a@.len() ==> #[trigger] r@[w] == (Literal { var: w as usize, negated: !(a@[w] == Some(true) && w != v) }),
{
    let mut out: Vec<Literal> = Vec::new();
    let mut w: usize = 0;
    while w < a.len()
        invariant
            w <= a@.len(),
            out@.len() == w,
            forall|k: int|
                0 <= k < w ==> #[trigger] out@[k] == (Literal { var: k as usize, negated: !(a@[k] == Some(true) && k != v) }),
        decreases a@.len() - w,
    {
        if a[w] == Some(true) && w != v {
            out.push(Literal::pos(w));
        } else {
            out.push(Literal::neg(w));
        }
        w = w + 1;
    }
    out
}

/// When the clauses with every package decided as in `dropped(a, v, n)` have
/// no model, that selection is not valid.
proof fn lemma_drop_invalid(pkgs: Seq<PkgV>, reqs: Seq<Seq<char>>, cs: Seq<Seq<Literal>>, a: Seq<Option<bool>>, v: usize, lits: Seq<Literal>)
    requires
        only_families(pkgs, reqs, cs),
        a.len() == pkgs.len(),
        pkgs.len() <= usize::MAX,
        lits.len() == a.len(),
        forall|w: int|
            0 <= w < a.len() ==> #[trigger] lits[w] == (Literal { var: w as usize, negated: !(a[w] == Some(true) && w != v) }),
        unsat(cs + unit_clauses(lits), pkgs.len()),
    ensures
        !valid_selection(pkgs, reqs, dropped(a, v, pkgs.len())),
{
    let d = dropped(a, v, pkgs.len());
    if valid_selection(pkgs, reqs, d) {
        lemma_valid_satisfies(pkgs, reqs, cs, d);
        assert forall|i: int| 0 <= i < lits.len() implies #[trigger] is_true(d, lits[i]) by {
            let c = a[i] == Some(true) && i != v;
            assert(lits[i] == (Literal { var: i as usize, negated: !c }));
            assert(lits[i].var as int == i);
            assert(d[i] == Some(c));
        }
        lemma_sat_units(d, cs, lits);
        assert(total(d, pkgs.len()));
    }
}

/// Drops, one at a time, each selected package that is neither requested
/// by name, nor installed, nor a recommendation met on the way, whenever
/// the selection without it (and nothing else changed) is still valid;
/// rounds repeat until none can be dropped.
fn minimise(
    u: &Universe,
    n: usize,
    clauses: &Vec<Clause>,
    requests: &[&str],
    installed_vars: &Vec<usize>,
    recommended: &Vec<(String, Version)>,
    solver: &mut Solver,
)
    requires
        n == u.pkgs().len(),
        fits(literal_seqs(clauses@), n as nat),
        only_families(u.pkgs(), req_views(requests@), literal_seqs(clauses@)),
        solved_for(*old(solver), n as nat, literal_seqs(clauses@)),
    ensures
        solved_for(*final(solver), n as nat, literal_seqs(clauses@)),
        forall|v: usize|
            v < n && #[trigger] selected(old(solver).model(), v) && kept_always(
                u.pkgs(),
                req_views(requests@),
                installed_vars@,
                entry_views(recommended@),
                v,
            ) ==> selected(final(solver).model(), v),
        forall|v: usize|
            v < n && #[trigger] selected(final(solver).model(), v) && !kept_always(
                u.pkgs(),
                req_views(requests@),
                installed_vars@,
                entry_views(recommended@),
                v,
            ) ==> !valid_selection(u.pkgs(), req_views(requests@), dropped(final(solver).model(), v, n as nat)),
{
    let ghost cs = literal_seqs(clauses@);
    let ghost pkgs = u.pkgs();
    let ghost reqs = req_views(requests@);
    let ghost iv = installed_vars@;
    let ghost recs = entry_views(recommended@);
    let ghost a0 = solver.model();
    loop
        invariant
            n == u.pkgs().len(),
            pkgs == u.pkgs(),
            reqs == req_views(requests@),
            iv == installed_vars@,
            recs == entry_views(recommended@),
            cs == literal_seqs(clauses@),
            fits(cs, n as nat),
            only_families(pkgs, reqs, cs),
            solved_for(*solver, n as nat, cs),
            forall|v: usize|
                v < n && #[trigger] selected(a0, v) && kept_always(pkgs, reqs, iv, recs, v) ==> selected(solver.model(), v),
        ensures
            solved_for(*solver, n as nat, cs),
            forall|v: usize|
                v < n && #[trigger] selected(a0, v) && kept_always(pkgs, reqs, iv, recs, v) ==> selected(solver.model(), v),
            forall|v: usize|
                v < n && #[trigger] selected(solver.model(), v) && !kept_always(pkgs, reqs, iv, recs, v) ==> !valid_selection(
                    pkgs,
                    reqs,
                    dropped(solver.model(), v, n as nat),
                ),
        decreases chosen(solver.model(), n as nat).len(),
    {
        proof {
            lemma_solved_model(*solver, n as nat, cs);
            lemma_chosen(solver.model(), n as nat);
        }
        let ghost m0 = solver.model();
        let snapshot = selected_indices(solver.assignment());
        let mut changed = false;
        let mut t: usize = 0;
        while t < snapshot.len()
            invariant
                t <= snapshot@.len(),
                n == u.pkgs().len(),
                pkgs == u.pkgs(),
                reqs == req_views(requests@),
                iv == installed_vars@,
                recs == entry_views(recommended@),
                cs == literal_seqs(clauses@),
                fits(cs, n as nat),
                only_families(pkgs, reqs, cs),
                solved_for(*solver, n as nat, cs),
                m0.len() == n,
                snapshot@ == chosen(m0, n as nat),
                forall|k: int| 0 <= k < snapshot@.len() ==> #[trigger] snapshot@[k] < n && m0[snapshot@[k] as int] == Some(true),
                forall|v: usize|
                    v < n && #[trigger] selected(a0, v) && kept_always(pkgs, reqs, iv, recs, v) ==> selected(m0, v),
                forall|v: usize|
                    v < n && #[trigger] selected(a0, v) && kept_always(pkgs, reqs, iv, recs, v) ==> selected(solver.model(), v),
                solver.model().len() == n,
                !changed ==> solver.model() == m0,
                changed ==> chosen(solver.model(), n as nat).len() < chosen(m0, n as nat).len(),
                !changed ==> forall|t2: int|
                    0 <= t2 < t ==> kept_always(pkgs, reqs, iv, recs, #[trigger] snapshot@[t2]) || !valid_selection(
                        pkgs,
                        reqs,
                        dropped(m0, snapshot@[t2], n as nat),
                    ),
            decreases snapshot@.len() - t,
        {
            let v = snapshot[t];
            let p = u.package(v);
            let by_name = names_request(requests, p.name.as_str());
            let by_install = contains_index(installed_vars, v);
            let by_rec = contains_entry(recommended.as_slice(), p.name.as_str(), &p.version);
            proof {
                if by_name {
                    let x = choose|x: int| 0 <= x < requests@.len() && #[trigger] requests@[x]@ == p.name@;
                    assert(reqs[x] == pkgs[v as int].name);
                }
                if kept_always(pkgs, reqs, iv, recs, v) && !by_install && !by_rec {
                    let x = choose|x: int| 0 <= x < reqs.len() && #[trigger] reqs[x] == pkgs[v as int].name;
                    assert(requests@[x]@ == p.name@);
                }
            }
            let still = solver.assignment()[v] == Some(true);
            if !(by_name || by_install || by_rec) && still {
                let ghost cur = solver.model();
                let assumptions = literals_without(solver.assignment(), v);
                match try_assumptions(n, clauses, &assumptions) {
                    Some(s) => {
                        proof {
                            lemma_solved_model(s, n as nat, cs);
                            let b = s.model();
                            assert forall|w: int| 0 <= w < n && b[w] == Some(true) implies #[trigger] cur[w] == Some(true) by {
                                assert(is_true(b, assumptions@[w]));
                            }
                            assert(is_true(b, assumptions@[v as int]));
                            lemma_chosen_grows(b, cur, n as nat, v);
                            assert forall|w: usize|
                                w < n && #[trigger] selected(a0, w) && kept_always(pkgs, reqs, iv, recs, w) implies selected(b, w) by {
                                assert(selected(cur, w));
                                assert(w != v);
                                assert(is_true(b, assumptions@[w as int]));
                            }
                        }
                        *solver = s;
                        changed = true;
                    },
                    None => {
                        proof {
                            lemma_drop_invalid(pkgs, reqs, cs, cur, v, assumptions@);
                        }
                    },
                }
            }
            t = t + 1;
        }
        if !changed {
            proof {
                assert forall|v: usize|
                    v < n && #[trigger] selected(solver.model(), v) && !kept_always(pkgs, reqs, iv, recs, v) implies !valid_selection(
                    pkgs,
                    reqs,
                    dropped(solver.model(), v, n as nat),
                ) by {
                    assert(snapshot@.contains(v));
                    let t2 = choose|t2: int| 0 <= t2 < snapshot@.len() && snapshot@[t2] == v;
                    assert(kept_always(pkgs, reqs, iv, recs, snapshot@[t2]) || !valid_selection(pkgs, reqs, dropped(m0, snapshot@[t2], n as nat)));
                }
            }
            break;
        }
    }
}

// ─── Install plan and resolver ────────────────────────────────────────────────

/// The result of a dependency resolution.
#[derive(Debug)]
pub struct InstallPlan {
    /// Packages to install (not currently installed, or newly-upgraded versions).
    pub install: Vec<(String, Version)>,
    /// Packages to remove (currently installed versions that are dropped or
    /// replaced by an upgrade). Empty when no installed state was supplied.
    pub remove: Vec<(String, Version)>,
    /// Packages recommended by a selected package.
    pub recommended: Vec<(String, Version)>,
    /// Packages merely suggested by a selected package (informational).
    pub suggested: Vec<(String, Version)>,
}

/// Some package is named `r` or provides it.
pub open spec fn known(pkgs: Seq<PkgV>, r: Seq<char>) -> bool {
    named(pkgs, r).len() > 0 || provided(pkgs, r).len() > 0
}

/// An installed package as a candidate: its name and version, no relations.
pub open spec fn bare(e: EntryV) -> PkgV {
    PkgV {
        name: e.0,
        version: e.1,
        depends: Seq::empty(),
        pre_depends: Seq::empty(),
        conflicts: Seq::empty(),
        breaks: Seq::empty(),
        provides: Seq::empty(),
        recommends: Seq::empty(),
        suggests: Seq::empty(),
    }
}

/// The packages of the universe followed by the installed ones.
pub open spec fn with_installed(pkgs: Seq<PkgV>, inst: Seq<EntryV>) -> Seq<PkgV> {
    pkgs + Seq::new(inst.len(), |k: int| bare(inst[k]))
}

/// The message of a failed resolution.
pub open spec fn no_solution_text() -> Seq<char> {
    "no consistent package selection satisfies all constraints"@
}

/// A selection with every undecided package left out.
pub open spec fn completed(a: Seq<Option<bool>>, n: nat) -> Seq<Option<bool>> {
    Seq::new(n, |v: int| Some(a[v] == Some(true)))
}

/// No valid selection exists when the clauses of the families have no
/// model.
proof fn lemma_no_valid_selection(pkgs: Seq<PkgV>, reqs: Seq<Seq<char>>, cs: Seq<Seq<Literal>>)
    requires
        only_families(pkgs, reqs, cs),
        unsat(cs, pkgs.len()),
    ensures
        !exists|a: Seq<Option<bool>>| #[trigger] valid_selection(pkgs, reqs, a),
{
    if exists|a: Seq<Option<bool>>| #[trigger] valid_selection(pkgs, reqs, a) {
        let a = choose|a: Seq<Option<bool>>| #[trigger] valid_selection(pkgs, reqs, a);
        let m = completed(a, pkgs.len());
        assert forall|i: usize| i < pkgs.len() implies #[trigger] selected(m, i) == selected(a, i) by {}
        lemma_valid_completed(pkgs, reqs, a);
        lemma_valid_satisfies(pkgs, reqs, cs, m);
        assert(total(m, pkgs.len()));
    }
}

/// `plan` describes the selection `a` over `work`, a valid selection that the
/// resolver prefers (the installed packages are the last of `work`): it
/// installs the selected packages not installed, removes the installed
/// packages not selected, and lists the best packages of the `Recommends` and
/// `Suggests` of the selected packages.
pub open spec fn planned(
    work: Seq<PkgV>,
    reqs: Seq<Seq<char>>,
    inst: Seq<EntryV>,
    a: Seq<Option<bool>>,
    plan: InstallPlan,
) -> bool {
    let sel = entries(work, chosen(a, work.len()));
    &&& a.len() == work.len()
    &&& valid_selection(work, reqs, a)
    &&& preferred(work, reqs, (work.len() - inst.len()) as nat, a)
    &&& entry_views(plan.install@) == absent_from(sel, inst)
    &&& entry_views(plan.remove@) == absent_from(inst, sel)
    &&& entry_views(plan.recommended@) == advisories(work, a, true, work.len())
    &&& entry_views(plan.suggested@) == advisories(work, a, false, work.len())
}

/// What resolving `reqs` against the universe `pkgs` with the packages
/// `inst` installed answers: the first request no package is named or
/// provides is unknown; otherwise the plan of a valid selection over the
/// universe and the installed packages that the resolver prefers (requests
/// pinned to their newest selectable versions, installed packages kept,
/// unneeded packages dropped), or `NoSolution` exactly when no valid
/// selection exists.
pub open spec fn resolution(
    pkgs: Seq<PkgV>,
    reqs: Seq<Seq<char>>,
    inst: Seq<EntryV>,
    r: Result<InstallPlan, SolverError>,
) -> bool {
    match r {
        Err(SolverError::UnknownPackage(name)) => exists|x: int|
            0 <= x < reqs.len() && !#[trigger] known(pkgs, reqs[x]) && (forall|y: int|
                0 <= y < x ==> #[trigger] known(pkgs, reqs[y])) && name@ == reqs[x],
        Err(SolverError::NoSolution(msg)) => (forall|x: int| 0 <= x < reqs.len() ==> #[trigger] known(pkgs, reqs[x]))
            && msg@ == no_solution_text() && !exists|a: Seq<Option<bool>>|
            #[trigger] valid_selection(with_installed(pkgs, inst), reqs, a),
        Err(SolverError::ParseError(_)) => false,
        Ok(plan) => (forall|x: int| 0 <= x < reqs.len() ==> #[trigger] known(pkgs, reqs[x])) && exists|a: Seq<Option<bool>>|
            #[trigger] planned(with_installed(pkgs, inst), reqs, inst, a, plan),
    }
}

/// The selection left after pinning, keeping installed packages, pulling in
/// recommendations and dropping unneeded packages is the preferred one.
proof fn lemma_preferred_final(
    pkgs: Seq<PkgV>,
    reqs: Seq<Seq<char>>,
    cs: Seq<Seq<Literal>>,
    iv: Seq<usize>,
    recs: Seq<EntryV>,
    pinned: Seq<Option<bool>>,
    pre: Seq<Option<bool>>,
    kept: Seq<Option<bool>>,
    mid: Seq<Option<bool>>,
    recm: Seq<Option<bool>>,
    fin: Seq<Option<bool>>,
)
    requires
        pkgs.len() <= usize::MAX,
        iv.len() <= pkgs.len(),
        forall|t: int| 0 <= t < iv.len() ==> #[trigger] iv[t] == (pkgs.len() - iv.len()) + t,
        encoded(pkgs, reqs, cs),
        holds(pinned, pins(pkgs, reqs, reqs.len())),
        forall|v: usize|
            v < pkgs.len() && #[trigger] selected(pinned, v) && kept_always(pkgs, reqs, iv, Seq::<EntryV>::empty(), v)
                ==> selected(pre, v),
        forall|v: usize| v < pkgs.len() && #[trigger] selected(pre, v) ==> selected(kept, v),
        kept.len() == pkgs.len(),
        satisfies(kept, cs),
        forall|t: int|
            0 <= t < iv.len() ==> selected(kept, #[trigger] iv[t]) || !admits(pkgs, reqs, chosen(kept, pkgs.len()).push(iv[t])),
        forall|v: usize|
            v < pkgs.len() && #[trigger] selected(kept, v) && kept_always(pkgs, reqs, iv, Seq::<EntryV>::empty(), v)
                ==> selected(mid, v),
        forall|v: int| 0 <= v < pkgs.len() && mid[v] == Some(true) ==> #[trigger] recm[v] == Some(true),
        all_rec(pkgs, recs),
        fin.len() == pkgs.len(),
        forall|v: usize|
            v < pkgs.len() && #[trigger] selected(recm, v) && kept_always(pkgs, reqs, iv, recs, v) ==> selected(fin, v),
        forall|v: usize|
            v < pkgs.len() && #[trigger] selected(fin, v) && !kept_always(pkgs, reqs, iv, recs, v) ==> !valid_selection(
                pkgs,
                reqs,
                dropped(fin, v, pkgs.len()),
            ),
    ensures
        preferred(pkgs, reqs, (pkgs.len() - iv.len()) as nat, fin),
{
    let n = pkgs.len();
    let base = (pkgs.len() - iv.len()) as nat;
    let pset = pins(pkgs, reqs, reqs.len());
    lemma_pins_named(pkgs, reqs, reqs.len());
    lemma_encoded_valid(pkgs, reqs, cs, kept);
    assert forall|k: int| 0 <= k < pset.len() implies selected(kept, #[trigger] pset[k]) by {
        let v = pset[k];
        assert(selected(pinned, v));
        let y = choose|y: int| 0 <= y < reqs.len() && #[trigger] reqs[y] == pkgs[v as int].name;
        assert(kept_always(pkgs, reqs, iv, Seq::<EntryV>::empty(), v));
        assert(selected(pre, v));
    }
    assert forall|v: usize| base <= v < n implies #[trigger] selected(kept, v) || !admits(pkgs, reqs, chosen(kept, n).push(v)) by {
        let t = v - base;
        assert(iv[t] == v);
    }
    assert(kept_stage(pkgs, reqs, base, kept));
    assert forall|v: usize| base <= v < n && selected(kept, v) implies #[trigger] selected(fin, v) by {
        let t = v - base;
        assert(iv[t] == v);
        assert(iv.contains(v));
        assert(kept_always(pkgs, reqs, iv, Seq::<EntryV>::empty(), v));
        assert(selected(mid, v));
        assert(recm[v as int] == Some(true));
        assert(selected(recm, v));
    }
    assert forall|k: int| 0 <= k < pset.len() implies selected(fin, #[trigger] pset[k]) by {
        let v = pset[k];
        assert(selected(kept, v));
        let y = choose|y: int| 0 <= y < reqs.len() && #[trigger] reqs[y] == pkgs[v as int].name;
        assert(kept_always(pkgs, reqs, iv, Seq::<EntryV>::empty(), v));
        assert(selected(mid, v));
        assert(recm[v as int] == Some(true));
        assert(selected(recm, v));
        assert(kept_always(pkgs, reqs, iv, recs, v));
    }
    assert forall|v: usize|
        v < n && #[trigger] selected(fin, v) && !essential(pkgs, reqs, base, v) implies !valid_selection(
        pkgs,
        reqs,
        dropped(fin, v, n),
    ) by {
        if kept_always(pkgs, reqs, iv, recs, v) {
            if iv.contains(v) {
                let t = choose|t: int| 0 <= t < iv.len() && iv[t] == v;
                assert(iv[t] == base + t);
            } else if recs.contains(entry_of(pkgs, v)) {
                let k = choose|k: int| 0 <= k < recs.len() && recs[k] == entry_of(pkgs, v);
                assert(rec_entry(pkgs, recs[k]));
            }
        }
    }
}

proof fn lemma_absent_from(xs: Seq<EntryV>, ys: Seq<EntryV>)
    ensures
        forall|e: EntryV| #[trigger] absent_from(xs, ys).contains(e) <==> xs.contains(e) && !ys.contains(e),
    decreases xs.len(),
{
    if xs.len() > 0 {
        lemma_absent_from(xs.drop_last(), ys);
        let r = absent_from(xs.drop_last(), ys);
        assert forall|e: EntryV| #[trigger] absent_from(xs, ys).contains(e) <==> xs.contains(e) && !ys.contains(e) by {
            if xs.contains(e) && e != xs.last() {
                let k = choose|k: int| 0 <= k < xs.len() && xs[k] == e;
                assert(xs.drop_last()[k] == e);
            }
            if xs.drop_last().contains(e) {
                let k = choose|k: int| 0 <= k < xs.drop_last().len() && xs.drop_last()[k] == e;
                assert(xs[k] == e);
            }
            assert(xs[xs.len() - 1] == xs.last());
            if !ys.contains(xs.last()) {
                assert(absent_from(xs, ys) == r.push(xs.last()));
                if r.push(xs.last()).contains(e) && e != xs.last() {
                    let k = choose|k: int| 0 <= k < r.push(xs.last()).len() && r.push(xs.last())[k] == e;
                    assert(r[k] == e);
                }
                if r.contains(e) {
                    let k = choose|k: int| 0 <= k < r.len() && r[k] == e;
                    assert(r.push(xs.last())[k] == e);
                }
                assert(r.push(xs.last())[r.len() as int] == xs.last());
            }
        }
    }
}

/// The packages a resolution leaves installed — what the plan installs
/// together with the installed packages it does not remove — are exactly
/// the packages (by name and version) of a valid selection over the universe
/// and the installed packages; the plan removes only installed packages and
/// installs none that is installed.
pub proof fn lemma_plan_set(pkgs: Seq<PkgV>, reqs: Seq<Seq<char>>, inst: Seq<EntryV>, plan: InstallPlan)
    requires
        resolution(pkgs, reqs, inst, Ok(plan)),
    ensures
        exists|a: Seq<Option<bool>>|
            #[trigger] valid_selection(with_installed(pkgs, inst), reqs, a) && forall|e: EntryV|
                (entry_views(plan.install@).contains(e) || (inst.contains(e) && !entry_views(plan.remove@).contains(e)))
                    <==> #[trigger] entries(
                    with_installed(pkgs, inst),
                    chosen(a, with_installed(pkgs, inst).len()),
                ).contains(e),
        forall|e: EntryV| #[trigger] entry_views(plan.remove@).contains(e) ==> inst.contains(e),
        forall|e: EntryV| #[trigger] entry_views(plan.install@).contains(e) ==> !inst.contains(e),
{
    let w = with_installed(pkgs, inst);
    let a = choose|a: Seq<Option<bool>>| #[trigger] planned(w, reqs, inst, a, plan);
    let sel = entries(w, chosen(a, w.len()));
    lemma_absent_from(sel, inst);
    lemma_absent_from(inst, sel);
    assert(valid_selection(w, reqs, a));
}

proof fn lemma_resolution_ok(
    pkgs: Seq<PkgV>,
    reqs: Seq<Seq<char>>,
    inst: Seq<EntryV>,
    a: Seq<Option<bool>>,
    plan: InstallPlan,
)
    requires
        forall|x: int| 0 <= x < reqs.len() ==> #[trigger] known(pkgs, reqs[x]),
        planned(with_installed(pkgs, inst), reqs, inst, a, plan),
    ensures
        resolution(pkgs, reqs, inst, Ok(plan)),
{
    let r: Result<InstallPlan, SolverError> = Ok(plan);
    assert(r is Ok);
    assert(r->Ok_0 == plan);
    assert(planned(with_installed(pkgs, inst), reqs, inst, a, r->Ok_0));
    assert(exists|a: Seq<Option<bool>>| #[trigger] planned(with_installed(pkgs, inst), reqs, inst, a, r->Ok_0));
    assert(resolution(pkgs, reqs, inst, r));
}

proof fn lemma_known_extends(pkgs: Seq<PkgV>, extra: Seq<PkgV>, r: Seq<char>)
    ensures
        named(pkgs + extra, r).len() >= named(pkgs, r).len(),
        provided(pkgs + extra, r).len() >= provided(pkgs, r).len(),
    decreases extra.len(),
{
    if extra.len() == 0 {
        assert(pkgs + extra =~= pkgs);
    } else {
        lemma_known_extends(pkgs, extra.drop_last(), r);
        assert((pkgs + extra).drop_last() =~= pkgs + extra.drop_last());
    }
}

proof fn lemma_request_known(pkgs: Seq<PkgV>, r: Seq<char>)
    requires
        known(pkgs, r),
    ensures
        request_vars(pkgs, r).len() > 0,
{
    lemma_add_new(named(pkgs, r), provided(pkgs, r));
    if named(pkgs, r).len() == 0 {
        assert(provided(pkgs, r).contains(provided(pkgs, r)[0]));
        assert(request_vars(pkgs, r).contains(provided(pkgs, r)[0]));
    }
}

/// An installed package as a candidate of its own.
fn bare_package(e: &(String, Version)) -> (r: Package)
    ensures
        r@ == bare((e.0@, e.1@)),
{
    let r = Package {
        name: own(e.0.as_str()),
        version: copy_version(&e.1),
        depends: Vec::new(),
        pre_depends: Vec::new(),
        conflicts: Vec::new(),
        breaks: Vec::new(),
        provides: Vec::new(),
        recommends: Vec::new(),
        suggests: Vec::new(),
    };
    assert(r@.depends =~= Seq::<Seq<SpecV>>::empty());
    assert(r@.pre_depends =~= Seq::<Seq<SpecV>>::empty());
    assert(r@.conflicts =~= Seq::<Seq<SpecV>>::empty());
    assert(r@.breaks =~= Seq::<Seq<SpecV>>::empty());
    assert(r@.provides =~= Seq::<Seq<char>>::empty());
    assert(r@.recommends =~= Seq::<Seq<SpecV>>::empty());
    assert(r@.suggests =~= Seq::<Seq<SpecV>>::empty());
    r
}

/// Dependency resolver operating over a [`Universe`].
pub struct Resolver {
    universe: Universe,
    threads: usize,
}

impl Resolver {
    /// The packages of the universe.
    pub closed spec fn pkgs(&self) -> Seq<PkgV> {
        self.universe.pkgs()
    }

    /// How many portfolio workers a resolution runs.
    pub closed spec fn workers(&self) -> nat {
        self.threads as nat
    }

    /// A resolver over `universe` that searches on one thread.
    pub fn new(universe: Universe) -> (r: Resolver)
        ensures
            r.pkgs() == universe.pkgs(),
            r.workers() == 1,
    {
        Resolver { universe, threads: 1 }
    }

    /// A resolver over `universe` that runs a portfolio of `threads` searches.
    pub fn with_threads(universe: Universe, threads: usize) -> (r: Resolver)
        ensures
            r.pkgs() == universe.pkgs(),
            r.workers() == threads,
    {
        Resolver { universe, threads }
    }

    /// Resolve the given package names into an [`InstallPlan`]: as
    /// [`Resolver::resolve_with_installed`] with nothing installed (so
    /// `remove` is always empty).
    pub fn resolve(&self, requests: &[&str]) -> (r: Result<InstallPlan, SolverError>)
        ensures
            resolution(self.pkgs(), req_views(requests@), Seq::empty(), r),
    {
        let none: Vec<(String, Version)> = Vec::new();
        let r = self.resolve_with_installed(requests, none.as_slice());
        assert(entry_views(none@) =~= Seq::<EntryV>::empty());
        r
    }

    /// The universe followed by the installed packages, and the indices of
    /// the latter.
    fn working_universe(&self, installed: &[(String, Version)]) -> (r: (Universe, Vec<usize>))
        ensures
            r.0.pkgs() == with_installed(self.pkgs(), entry_views(installed@)),
            r.1@.len() == installed@.len(),
            forall|k: int| 0 <= k < r.1@.len() ==> #[trigger] r.1@[k] < r.0.pkgs().len(),
            forall|k: int| 0 <= k < r.1@.len() ==> #[trigger] r.1@[k] == self.pkgs().len() + k,
    {
        let ghost pkgs = self.pkgs();
        let ghost inst = entry_views(installed@);
        let mut work = self.universe.copy();
        let mut vars: Vec<usize> = Vec::new();
        let mut k: usize = 0;
        assert(work.pkgs() =~= with_installed(pkgs, inst.take(0)));
        while k < installed.len()
            invariant
                k <= installed@.len(),
                pkgs == self.pkgs(),
                inst == entry_views(installed@),
                work.pkgs() == with_installed(pkgs, inst.take(k as int)),
                vars@.len() == k,
                forall|t: int| 0 <= t < vars@.len() ==> #[trigger] vars@[t] < work.pkgs().len(),
                forall|t: int| 0 <= t < vars@.len() ==> #[trigger] vars@[t] == pkgs.len() + t,
            decreases installed@.len() - k,
        {
            let idx = work.len();
            let p = bare_package(&installed[k]);
            work.add_package(p);
            vars.push(idx);
            k = k + 1;
            assert(work.pkgs() =~= with_installed(pkgs, inst.take(k as int)));
        }
        assert(inst.take(k as int) =~= inst);
        (work, vars)
    }

    /// Resolve `requests` against the currently-installed packages.
    ///
    /// Installed versions are added to the universe as additional candidates
    /// so that the solver can model upgrades and removals. Each request is
    /// first pinned to its newest version that can be selected; then the
    /// selection keeps as many installed packages as it can, pulls in
    /// recommendations, and drops packages nothing needs (before each of
    /// those steps too, so that what the search happened to select blocks
    /// neither). The resulting
    /// [`InstallPlan`] reports:
    /// * `install` — packages not previously installed (or newly-upgraded versions),
    /// * `remove` — installed versions that are dropped or replaced by an upgrade,
    /// * `recommended` / `suggested` — advisory packages from the
    ///   `Recommends` / `Suggests` relations of selected packages.
    #[verifier::spinoff_prover]
    pub fn resolve_with_installed(&self, requests: &[&str], installed: &[(String, Version)]) -> (r: Result<
        InstallPlan,
        SolverError,
    >)
        ensures
            resolution(self.pkgs(), req_views(requests@), entry_views(installed@), r),
    {
        let ghost pkgs = self.pkgs();
        let ghost reqs = req_views(requests@);
        let ghost inst = entry_views(installed@);
        let mut x: usize = 0;
        while x < requests.len()
            invariant
                x <= requests@.len(),
                pkgs == self.pkgs(),
                reqs == req_views(requests@),
                forall|y: int| 0 <= y < x ==> #[trigger] known(pkgs, reqs[y]),
            decreases requests@.len() - x,
        {
            let name = requests[x];
            let is_known = self.universe.packages_named(name).len() > 0 || self.universe.providers_of(name).len() > 0;
            if !is_known {
                let r = Err(SolverError::UnknownPackage(own(name)));
                assert(!known(pkgs, reqs[x as int]));
                return r;
            }
            x = x + 1;
        }
        let (work, installed_vars) = self.working_universe(installed);
        let ghost wp = work.pkgs();
        proof {
            assert(reqs.len() == requests@.len());
            assert forall|y: int| 0 <= y < reqs.len() implies #[trigger] request_vars(wp, reqs[y]).len() > 0 by {
                assert(known(pkgs, reqs[y]));
                let extra = Seq::new(inst.len(), |k: int| bare(inst[k]));
                assert(wp == pkgs + extra);
                lemma_known_extends(pkgs, extra, reqs[y]);
                lemma_request_known(wp, reqs[y]);
            }
        }
        let n = work.len();
        if n == 0 {
            let plan = InstallPlan {
                install: Vec::new(),
                remove: Vec::new(),
                recommended: Vec::new(),
                suggested: Vec::new(),
            };
            proof {
                let a = Seq::<Option<bool>>::empty();
                if reqs.len() > 0 {
                    assert(request_vars(wp, reqs[0]).len() > 0);
                    lemma_request_vars_bounds(wp, reqs[0]);
                    assert(request_vars(wp, reqs[0])[0] < wp.len());
                }
                assert(reqs.len() == 0);
                assert(valid_selection(wp, reqs, a));
                assert(inst.len() == 0);
                assert(pins(wp, reqs, reqs.len()) =~= Seq::<usize>::empty());
                assert(kept_stage(wp, reqs, pkgs.len(), a));
                assert(preferred(wp, reqs, (wp.len() - inst.len()) as nat, a));
                assert(entries(wp, chosen(a, wp.len())) =~= Seq::<EntryV>::empty());
                assert(absent_from(inst, Seq::<EntryV>::empty()) =~= Seq::<EntryV>::empty());
                assert(entry_views(plan.install@) =~= Seq::<EntryV>::empty());
                assert(entry_views(plan.remove@) =~= Seq::<EntryV>::empty());
                assert(entry_views(plan.recommended@) =~= Seq::<EntryV>::empty());
                assert(entry_views(plan.suggested@) =~= Seq::<EntryV>::empty());
                assert(planned(wp, reqs, inst, a, plan));
                lemma_resolution_ok(pkgs, reqs, inst, a, plan);
            }
            return Ok(plan);
        }
        let clauses = encode_clauses(&work, requests);
        let ghost cs = literal_seqs(clauses@);
        proof {
            lemma_families_wf(wp, reqs, cs);
        }
        let fresh = copy_clauses(&clauses);
        proof {
            assert forall|k: int| 0 <= k < fresh@.len() implies #[trigger] fresh@[k].literals@.len() > 0 by {
                assert(literal_seqs(fresh@)[k] == fresh@[k].literals@);
            }
            assert forall|k: int, i: int| 0 <= k < fresh@.len() && 0 <= i < fresh@[k].literals@.len() implies #[trigger] fresh@[k].literals@[i].var
                < n by {
                assert(literal_seqs(fresh@)[k] == fresh@[k].literals@);
                assert(cs[k][i].var < n);
            }
        }
        let mut solver = Solver::new(n, fresh);
        proof {
            solver.lemma_fresh_ready();
            assert(solver.clause_seq().take(cs.len() as int) =~= cs);
        }
        let any_pinned = pin_requests(&work, n, &clauses, requests, &mut solver);
        let ghost pin_set = pins(wp, reqs, reqs.len());
        if !any_pinned && !solver.solve_parallel(self.threads) {
            // The clauses learnt under the pins may not follow from the clauses
            // alone: settle the answer on the clauses alone.
            let again = copy_clauses(&clauses);
            proof {
                assert forall|k: int| 0 <= k < again@.len() implies #[trigger] again@[k].literals@.len() > 0 by {
                    assert(literal_seqs(again@)[k] == again@[k].literals@);
                }
                assert forall|k: int, i: int| 0 <= k < again@.len() && 0 <= i < again@[k].literals@.len() implies #[trigger] again@[k].literals@[i].var
                    < n by {
                    assert(literal_seqs(again@)[k] == again@[k].literals@);
                    assert(cs[k][i].var < n);
                }
            }
            let mut check = Solver::new(n, again);
            proof {
                check.lemma_fresh_ready();
            }
            if !check.solve() {
                proof {
                    lemma_no_valid_selection(wp, reqs, cs);
                }
                return Err(SolverError::NoSolution(own("no consistent package selection satisfies all constraints")));
            }
            proof {
                assert(check.clause_seq().take(cs.len() as int) =~= cs);
            }
            solver = check;
        }
        proof {
            assert(solver.clause_seq().take(cs.len() as int) =~= cs);
        }
        let ghost pinned_model = solver.model();
        proof {
            assert(holds(pinned_model, pin_set));
        }
        // Drop what nothing needs before keeping installed packages and
        // looking for recommendations, so that a package the search happened
        // to select blocks neither.
        let no_recs: Vec<(String, Version)> = Vec::new();
        minimise(&work, n, &clauses, requests, &installed_vars, &no_recs, &mut solver);
        let ghost pre_model = solver.model();
        keep_installed(&work, n, &clauses, requests, &installed_vars, &mut solver);
        let ghost kept_model = solver.model();
        proof {
            lemma_solved_model(solver, n as nat, cs);
        }
        minimise(&work, n, &clauses, requests, &installed_vars, &no_recs, &mut solver);
        let ghost trimmed_model = solver.model();
        proof {
            assert(entry_views(no_recs@) =~= Seq::<EntryV>::empty());
        }
        let recommended_set = pull_recommends(&work, n, &clauses, &mut solver);
        let ghost rec_model = solver.model();
        minimise(&work, n, &clauses, requests, &installed_vars, &recommended_set, &mut solver);
        proof {
            lemma_solved_model(solver, n as nat, cs);
            lemma_chosen(solver.model(), n as nat);
            lemma_preferred_final(
                wp, reqs, cs, installed_vars@, entry_views(recommended_set@), pinned_model, pre_model, kept_model, trimmed_model,
                rec_model, solver.model(),
            );
        }
        let model = selected_indices(solver.assignment());
        let mut selected: Vec<(String, Version)> = Vec::new();
        let mut k: usize = 0;
        while k < model.len()
            invariant
                k <= model@.len(),
                n == wp.len(),
                wp == work.pkgs(),
                forall|t: int| 0 <= t < model@.len() ==> #[trigger] model@[t] < n,
                entry_views(selected@) == entries(wp, model@.take(k as int)),
            decreases model@.len() - k,
        {
            let ghost before = selected@;
            let e = entry_at(&work, model[k]);
            let ghost ev = (e.0@, e.1@);
            selected.push(e);
            proof {
                assert(entry_views(selected@) =~= entry_views(before).push(ev));
                assert(entries(wp, model@.take(k + 1)) =~= entries(wp, model@.take(k as int)).push(entry_of(wp, model@[k as int])));
            }
            k = k + 1;
        }
        assert(model@.take(k as int) =~= model@);
        let install = entries_absent(selected.as_slice(), installed);
        let remove = entries_absent(installed, selected.as_slice());
        let (recommended, suggested) = compute_advisories(&work, solver.assignment());
        let plan = InstallPlan { install, remove, recommended, suggested };
        proof {
            let a = solver.model();
            lemma_encoded_valid(wp, reqs, cs, a);
            assert(planned(wp, reqs, inst, a, plan));
            lemma_resolution_ok(pkgs, reqs, inst, a, plan);
        }
        Ok(plan)
    }
}

} // verus!
