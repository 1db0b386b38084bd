//! The dependency problem as clauses: variable `i` means "package `i` is
//! selected".
//!
//! * each request: one of the packages of that name, or providing it;
//! * at most one package of each name;
//! * a selected package's `Depends`/`Pre-Depends` groups: one satisfying
//!   package each (or the package is not selected, when none exists);
//! * a selected package's `Conflicts`/`Breaks`: no matching other package.

use vstd::prelude::*;
use crate::deb_version::{op_holds, version_order, ConstraintOp, VersionView};
use crate::solver::model::{group_views, DependencyGroup, DependencySpec, PkgV, SpecV};
use crate::solver::sat::{clause_sat, is_true, literal_seqs, satisfies, Clause, Literal};
use crate::solver::universe::{lemma_named_bounds, lemma_named_contains, lemma_provided_bounds, named, provided, Universe};

verus! {

// ─── Matching packages ────────────────────────────────────────────────────────

/// The indices of `idx` whose package meets the constraint `c`.
pub open spec fn meeting(idx: Seq<usize>, pkgs: Seq<PkgV>, c: Option<(ConstraintOp, VersionView)>) -> Seq<usize>
    decreases idx.len(),
{
    if idx.len() == 0 {
        Seq::empty()
    } else {
        let r = meeting(idx.drop_last(), pkgs, c);
        let i = idx.last();
        let keep = match c {
            None => true,
            Some((op, v)) => op_holds(op, version_order(pkgs[i as int].version, v)),
        };
        if keep {
            r.push(i)
        } else {
            r
        }
    }
}

/// `out` followed by the elements of `xs` it does not hold yet, in order.
pub open spec fn add_new(out: Seq<usize>, xs: Seq<usize>) -> Seq<usize>
    decreases xs.len(),
{
    if xs.len() == 0 {
        out
    } else {
        let r = add_new(out, xs.drop_last());
        if r.contains(xs.last()) {
            r
        } else {
            r.push(xs.last())
        }
    }
}

/// The packages matching a dependency specification: those of its name that
/// meet its constraint, then the providers of the name (each once).
pub open spec fn matching(pkgs: Seq<PkgV>, s: SpecV) -> Seq<usize> {
    add_new(meeting(named(pkgs, s.name), pkgs, s.constraint), provided(pkgs, s.name))
}

/// The packages satisfying some alternative of a group, each once.
pub open spec fn sat_vars(pkgs: Seq<PkgV>, g: Seq<SpecV>) -> Seq<usize>
    decreases g.len(),
{
    if g.len() == 0 {
        Seq::empty()
    } else {
        add_new(sat_vars(pkgs, g.drop_last()), matching(pkgs, g.last()))
    }
}

/// The candidates of a request: the packages of that name, then its
/// providers (each once).
pub open spec fn request_vars(pkgs: Seq<PkgV>, r: Seq<char>) -> Seq<usize> {
    add_new(named(pkgs, r), provided(pkgs, r))
}

pub proof fn lemma_add_new(out: Seq<usize>, xs: Seq<usize>)
    ensures
        forall|x: usize| #[trigger] add_new(out, xs).contains(x) <==> out.contains(x) || xs.contains(x),
        add_new(out, xs).len() >= out.len(),
        forall|i: int| 0 <= i < out.len() ==> #[trigger] add_new(out, xs)[i] == out[i],
    decreases xs.len(),
{
    if xs.len() > 0 {
        lemma_add_new(out, xs.drop_last());
        let r = add_new(out, xs.drop_last());
        let t = add_new(out, xs);
        let last = xs.last();
        assert(t == r || t == r.push(last));
        assert forall|x: usize| #[trigger] t.contains(x) implies out.contains(x) || xs.contains(x) by {
            let k = choose|k: int| 0 <= k < t.len() && t[k] == x;
            if k < r.len() {
                assert(r[k] == x);
                assert(r.contains(x));
                if xs.drop_last().contains(x) {
                    let m = choose|m: int| 0 <= m < xs.drop_last().len() && xs.drop_last()[m] == x;
                    assert(xs[m] == x);
                }
            } else {
                assert(xs[xs.len() - 1] == x);
            }
        }
        assert forall|x: usize| out.contains(x) || xs.contains(x) implies #[trigger] t.contains(x) by {
            if xs.contains(x) && !out.contains(x) {
                let m = choose|m: int| 0 <= m < xs.len() && xs[m] == x;
                if m < xs.len() - 1 {
                    assert(xs.drop_last()[m] == x);
                    assert(xs.drop_last().contains(x));
                }
            }
            if r.contains(x) {
                let k = choose|k: int| 0 <= k < r.len() && r[k] == x;
                assert(t[k] == x);
            } else {
                assert(x == last);
                assert(t[r.len() as int] == x);
            }
        }
    }
}

pub proof fn lemma_add_new_bounds(out: Seq<usize>, xs: Seq<usize>, n: int)
    requires
        forall|i: int| 0 <= i < out.len() ==> #[trigger] out[i] < n,
        forall|i: int| 0 <= i < xs.len() ==> #[trigger] xs[i] < n,
    ensures
        forall|i: int| 0 <= i < add_new(out, xs).len() ==> #[trigger] add_new(out, xs)[i] < n,
    decreases xs.len(),
{
    if xs.len() > 0 {
        lemma_add_new_bounds(out, xs.drop_last(), n);
        let r = add_new(out, xs.drop_last());
        assert forall|i: int| 0 <= i < add_new(out, xs).len() implies #[trigger] add_new(out, xs)[i] < n by {
            if i < r.len() {
                assert(add_new(out, xs)[i] == r[i]);
            } else {
                assert(xs[xs.len() - 1] < n);
            }
        }
    }
}

pub proof fn lemma_meeting_bounds(idx: Seq<usize>, pkgs: Seq<PkgV>, c: Option<(ConstraintOp, VersionView)>, n: int)
    requires
        forall|i: int| 0 <= i < idx.len() ==> #[trigger] idx[i] < n,
    ensures
        forall|i: int| 0 <= i < meeting(idx, pkgs, c).len() ==> #[trigger] meeting(idx, pkgs, c)[i] < n,
    decreases idx.len(),
{
    if idx.len() > 0 {
        lemma_meeting_bounds(idx.drop_last(), pkgs, c, n);
        let r = meeting(idx.drop_last(), pkgs, c);
        assert forall|i: int| 0 <= i < meeting(idx, pkgs, c).len() implies #[trigger] meeting(idx, pkgs, c)[i] < n by {
            if i < r.len() {
                assert(meeting(idx, pkgs, c)[i] == r[i]);
            } else {
                assert(idx[idx.len() - 1] < n);
            }
        }
    }
}

pub proof fn lemma_matching_bounds(pkgs: Seq<PkgV>, s: SpecV)
    ensures
        forall|i: int| 0 <= i < matching(pkgs, s).len() ==> #[trigger] matching(pkgs, s)[i] < pkgs.len(),
{
    lemma_named_bounds(pkgs, s.name);
    lemma_provided_bounds(pkgs, s.name);
    lemma_meeting_bounds(named(pkgs, s.name), pkgs, s.constraint, pkgs.len() as int);
    lemma_add_new_bounds(meeting(named(pkgs, s.name), pkgs, s.constraint), provided(pkgs, s.name), pkgs.len() as int);
}

pub proof fn lemma_sat_vars_bounds(pkgs: Seq<PkgV>, g: Seq<SpecV>)
    ensures
        forall|i: int| 0 <= i < sat_vars(pkgs, g).len() ==> #[trigger] sat_vars(pkgs, g)[i] < pkgs.len(),
    decreases g.len(),
{
    if g.len() > 0 {
        lemma_sat_vars_bounds(pkgs, g.drop_last());
        lemma_matching_bounds(pkgs, g.last());
        lemma_add_new_bounds(sat_vars(pkgs, g.drop_last()), matching(pkgs, g.last()), pkgs.len() as int);
    }
}

pub proof fn lemma_sat_vars_contains(pkgs: Seq<PkgV>, g: Seq<SpecV>, j: usize)
    ensures
        sat_vars(pkgs, g).contains(j) <==> exists|a: int| 0 <= a < g.len() && #[trigger] matching(pkgs, g[a]).contains(j),
    decreases g.len(),
{
    if g.len() > 0 {
        lemma_sat_vars_contains(pkgs, g.drop_last(), j);
        lemma_add_new(sat_vars(pkgs, g.drop_last()), matching(pkgs, g.last()));
        if exists|a: int| 0 <= a < g.len() && #[trigger] matching(pkgs, g[a]).contains(j) {
            let a = choose|a: int| 0 <= a < g.len() && #[trigger] matching(pkgs, g[a]).contains(j);
            if a < g.len() - 1 {
                assert(g.drop_last()[a] == g[a]);
            }
        }
        if exists|a: int| 0 <= a < g.drop_last().len() && #[trigger] matching(pkgs, g.drop_last()[a]).contains(j) {
            let a = choose|a: int| 0 <= a < g.drop_last().len() && #[trigger] matching(pkgs, g.drop_last()[a]).contains(j);
            assert(g[a] == g.drop_last()[a]);
        }
    }
}

// ─── Clauses ──────────────────────────────────────────────────────────────────

pub open spec fn pos_lits(vars: Seq<usize>) -> Seq<Literal> {
    Seq::new(vars.len(), |x: int| Literal { var: vars[x], negated: false })
}

pub open spec fn neg_lit(i: usize) -> Literal {
    Literal { var: i, negated: true }
}

/// Not both `i` and `j`.
pub open spec fn pair_clause(i: usize, j: usize) -> Seq<Literal> {
    seq![neg_lit(i), neg_lit(j)]
}

/// Not `i`, or one of `vars`.
pub open spec fn dep_clause(i: usize, vars: Seq<usize>) -> Seq<Literal> {
    seq![neg_lit(i)] + pos_lits(vars)
}

/// `c` is one of the clauses of `cs`.
pub open spec fn has_clause(cs: Seq<Seq<Literal>>, c: Seq<Literal>) -> bool {
    exists|k: int| 0 <= k < cs.len() && cs[k] == c
}

/// The relations a package must satisfy (`Depends` then `Pre-Depends`).
pub open spec fn requirements(p: PkgV) -> Seq<Seq<SpecV>> {
    p.depends + p.pre_depends
}

/// The relations a package must not meet (`Conflicts` then `Breaks`).
pub open spec fn exclusions(p: PkgV) -> Seq<Seq<SpecV>> {
    p.conflicts + p.breaks
}

/// What the clauses of `encode_clauses` hold, family by family.
pub open spec fn encoded(pkgs: Seq<PkgV>, reqs: Seq<Seq<char>>, cs: Seq<Seq<Literal>>) -> bool {
    &&& forall|x: int| 0 <= x < reqs.len() ==> #[trigger] has_clause(cs, pos_lits(request_vars(pkgs, reqs[x])))
    &&& forall|i: usize, j: usize|
        i < j < pkgs.len() && pkgs[i as int].name == pkgs[j as int].name ==> #[trigger] has_clause(cs, pair_clause(i, j))
    &&& forall|i: usize, g: int|
        i < pkgs.len() && 0 <= g < requirements(pkgs[i as int]).len() ==> #[trigger] has_clause(
            cs,
            dep_clause(i, sat_vars(pkgs, requirements(pkgs[i as int])[g])),
        )
    &&& forall|i: usize, g: int, a: int, j: usize|
        i < pkgs.len() && 0 <= g < exclusions(pkgs[i as int]).len() && 0 <= a < exclusions(pkgs[i as int])[g].len()
            && #[trigger] matching(pkgs, exclusions(pkgs[i as int])[g][a]).contains(j) && j != i ==> has_clause(cs, pair_clause(i, j))
}

/// Package `i` is selected under `a`.
pub open spec fn selected(a: Seq<Option<bool>>, i: usize) -> bool {
    is_true(a, Literal { var: i, negated: false })
}

/// Some package of `vs` is selected under `a`.
pub open spec fn some_selected(a: Seq<Option<bool>>, vs: Seq<usize>) -> bool {
    exists|i: usize| vs.contains(i) && #[trigger] selected(a, i)
}

/// A selection (the variables true under `a`) that meets every request and
/// relation: each request has a selected package of its name or providing
/// it; no two selected packages share a name; every requirement group of a
/// selected package has a selected matching package; no selected package
/// matches an exclusion of another selected package.
pub open spec fn valid_selection(pkgs: Seq<PkgV>, reqs: Seq<Seq<char>>, a: Seq<Option<bool>>) -> bool {
    &&& forall|x: int| 0 <= x < reqs.len() ==> #[trigger] some_selected(a, request_vars(pkgs, reqs[x]))
    &&& forall|i: usize, j: usize|
        i < j < pkgs.len() && pkgs[i as int].name == pkgs[j as int].name ==> !(#[trigger] selected(a, i)
            && #[trigger] selected(a, j))
    &&& forall|i: usize, g: int|
        i < pkgs.len() && selected(a, i) && 0 <= g < requirements(pkgs[i as int]).len() ==> #[trigger] some_selected(
            a,
            sat_vars(pkgs, requirements(pkgs[i as int])[g]),
        )
    &&& forall|i: usize, g: int, b: int, j: usize|
        i < pkgs.len() && selected(a, i) && 0 <= g < exclusions(pkgs[i as int]).len() && 0 <= b < exclusions(
            pkgs[i as int],
        )[g].len() && #[trigger] matching(pkgs, exclusions(pkgs[i as int])[g][b]).contains(j) && j != i
            ==> !selected(a, j)
}

/// Deciding every undecided package as left out keeps a selection valid.
pub proof fn lemma_valid_completed(pkgs: Seq<PkgV>, reqs: Seq<Seq<char>>, a: Seq<Option<bool>>)
    requires
        valid_selection(pkgs, reqs, a),
    ensures
        valid_selection(pkgs, reqs, Seq::new(pkgs.len(), |v: int| Some(a[v] == Some(true)))),
{
    let n = pkgs.len();
    let m = Seq::new(n, |v: int| Some(a[v] == Some(true)));
    assert forall|i: usize| i < n implies #[trigger] selected(m, i) == selected(a, i) by {}
    assert forall|x: int| 0 <= x < reqs.len() implies #[trigger] some_selected(m, request_vars(pkgs, reqs[x])) by {
        let vs = request_vars(pkgs, reqs[x]);
        assert(some_selected(a, vs));
        let i = choose|i: usize| vs.contains(i) && #[trigger] selected(a, i);
        lemma_request_vars_bounds(pkgs, reqs[x]);
        let k = choose|k: int| 0 <= k < vs.len() && vs[k] == i;
        assert(i < n);
        assert(selected(m, i));
    }
    assert forall|i: usize, j: usize|
        i < j < n && pkgs[i as int].name == pkgs[j as int].name implies !(#[trigger] selected(m, i)
            && #[trigger] selected(m, j)) by {
        assert(selected(m, i) == selected(a, i));
        assert(selected(m, j) == selected(a, j));
    }
    assert forall|i: usize, g: int|
        i < n && selected(m, i) && 0 <= g < requirements(pkgs[i as int]).len() implies #[trigger] some_selected(
            m,
            sat_vars(pkgs, requirements(pkgs[i as int])[g]),
        ) by {
        assert(selected(a, i));
        let vs = sat_vars(pkgs, requirements(pkgs[i as int])[g]);
        assert(some_selected(a, vs));
        let k = choose|k: usize| vs.contains(k) && #[trigger] selected(a, k);
        lemma_sat_vars_bounds(pkgs, requirements(pkgs[i as int])[g]);
        let t = choose|t: int| 0 <= t < vs.len() && vs[t] == k;
        assert(k < n);
        assert(selected(m, k));
    }
    assert forall|i: usize, g: int, b: int, j: usize|
        i < n && selected(m, i) && 0 <= g < exclusions(pkgs[i as int]).len() && 0 <= b < exclusions(
            pkgs[i as int],
        )[g].len() && #[trigger] matching(pkgs, exclusions(pkgs[i as int])[g][b]).contains(j) && j != i
            implies !selected(m, j) by {
        assert(selected(a, i));
        let s = exclusions(pkgs[i as int])[g][b];
        lemma_matching_bounds(pkgs, s);
        let t = choose|t: int| 0 <= t < matching(pkgs, s).len() && matching(pkgs, s)[t] == j;
        assert(j < n);
        assert(!selected(a, j));
    }
}

/// Satisfying the encoded clauses makes the selection valid.
pub proof fn lemma_encoded_valid(pkgs: Seq<PkgV>, reqs: Seq<Seq<char>>, cs: Seq<Seq<Literal>>, a: Seq<Option<bool>>)
    requires
        encoded(pkgs, reqs, cs),
        satisfies(a, cs),
    ensures
        valid_selection(pkgs, reqs, a),
{
    assert forall|x: int| 0 <= x < reqs.len() implies #[trigger] some_selected(a, request_vars(pkgs, reqs[x])) by {
        let vs = request_vars(pkgs, reqs[x]);
        let c = pos_lits(vs);
        assert(has_clause(cs, c));
        let k = choose|k: int| 0 <= k < cs.len() && cs[k] == c;
        assert(clause_sat(a, cs[k]));
        let m = choose|m: int| 0 <= m < c.len() && #[trigger] is_true(a, c[m]);
        assert(vs[m] == c[m].var);
        assert(vs.contains(c[m].var));
        assert(selected(a, c[m].var));
    }
    assert forall|i: usize, j: usize|
        i < j < pkgs.len() && pkgs[i as int].name == pkgs[j as int].name implies !(#[trigger] selected(a, i)
            && #[trigger] selected(a, j)) by {
        let c = pair_clause(i, j);
        assert(has_clause(cs, c));
        let k = choose|k: int| 0 <= k < cs.len() && cs[k] == c;
        assert(clause_sat(a, cs[k]));
        let m = choose|m: int| 0 <= m < c.len() && #[trigger] is_true(a, c[m]);
        assert(m == 0 || m == 1);
    }
    assert forall|i: usize, g: int|
        i < pkgs.len() && selected(a, i) && 0 <= g < requirements(pkgs[i as int]).len() implies #[trigger] some_selected(
            a,
            sat_vars(pkgs, requirements(pkgs[i as int])[g]),
        ) by {
        let sv = sat_vars(pkgs, requirements(pkgs[i as int])[g]);
        let c = dep_clause(i, sv);
        assert(has_clause(cs, c));
        let k = choose|k: int| 0 <= k < cs.len() && cs[k] == c;
        assert(clause_sat(a, cs[k]));
        let m = choose|m: int| 0 <= m < c.len() && #[trigger] is_true(a, c[m]);
        if m == 0 {
            assert(c[0] == neg_lit(i));
        } else {
            assert(c[m] == pos_lits(sv)[m - 1]);
            assert(sv[m - 1] == c[m].var);
            assert(sv.contains(c[m].var));
            assert(selected(a, c[m].var));
        }
    }
    assert forall|i: usize, g: int, b: int, j: usize|
        i < pkgs.len() && selected(a, i) && 0 <= g < exclusions(pkgs[i as int]).len() && 0 <= b < exclusions(
            pkgs[i as int],
        )[g].len() && #[trigger] matching(pkgs, exclusions(pkgs[i as int])[g][b]).contains(j) && j != i
            implies !selected(a, j) by {
        let c = pair_clause(i, j);
        assert(has_clause(cs, c));
        let k = choose|k: int| 0 <= k < cs.len() && cs[k] == c;
        assert(clause_sat(a, cs[k]));
        let m = choose|m: int| 0 <= m < c.len() && #[trigger] is_true(a, c[m]);
        assert(m == 0 || m == 1);
    }
}

/// The names of the requests.
pub open spec fn req_views(rs: Seq<&str>) -> Seq<Seq<char>> {
    Seq::new(rs.len(), |x: int| rs[x]@)
}

/// `c` is a clause of one of the four families of [`encoded`].
pub open spec fn family_clause(pkgs: Seq<PkgV>, reqs: Seq<Seq<char>>, c: Seq<Literal>) -> bool {
    ||| exists|x: int| 0 <= x < reqs.len() && c == #[trigger] pos_lits(request_vars(pkgs, reqs[x]))
    ||| exists|i: usize, j: usize|
        i < j < pkgs.len() && pkgs[i as int].name == pkgs[j as int].name && c == #[trigger] pair_clause(i, j)
    ||| exists|i: usize, g: int|
        i < pkgs.len() && 0 <= g < requirements(pkgs[i as int]).len() && c == #[trigger] dep_clause(
            i,
            sat_vars(pkgs, requirements(pkgs[i as int])[g]),
        )
    ||| exists|i: usize, g: int, b: int, j: usize|
        i < pkgs.len() && 0 <= g < exclusions(pkgs[i as int]).len() && 0 <= b < exclusions(pkgs[i as int])[g].len()
            && #[trigger] matching(pkgs, exclusions(pkgs[i as int])[g][b]).contains(j) && j != i && c
            == pair_clause(i, j)
}

/// Every clause of `cs` belongs to one of the families.
pub open spec fn only_families(pkgs: Seq<PkgV>, reqs: Seq<Seq<char>>, cs: Seq<Seq<Literal>>) -> bool {
    forall|k: int| 0 <= k < cs.len() ==> #[trigger] family_clause(pkgs, reqs, cs[k])
}

/// `cs1` extends `cs0`.
pub open spec fn grows(cs0: Seq<Seq<Literal>>, cs1: Seq<Seq<Literal>>) -> bool {
    cs0.len() <= cs1.len() && forall|k: int| 0 <= k < cs0.len() ==> #[trigger] cs1[k] == cs0[k]
}

pub proof fn lemma_grows(cs0: Seq<Seq<Literal>>, cs1: Seq<Seq<Literal>>)
    requires
        grows(cs0, cs1),
    ensures
        forall|c: Seq<Literal>| has_clause(cs0, c) ==> #[trigger] has_clause(cs1, c),
{
    assert forall|c: Seq<Literal>| has_clause(cs0, c) implies #[trigger] has_clause(cs1, c) by {
        let k = choose|k: int| 0 <= k < cs0.len() && cs0[k] == c;
        assert(cs1[k] == c);
    }
}

/// A valid selection that decides every package satisfies every clause of
/// the families: the encoding forbids no valid selection.
pub proof fn lemma_valid_satisfies(pkgs: Seq<PkgV>, reqs: Seq<Seq<char>>, cs: Seq<Seq<Literal>>, a: Seq<Option<bool>>)
    requires
        only_families(pkgs, reqs, cs),
        valid_selection(pkgs, reqs, a),
        a.len() == pkgs.len(),
        forall|v: int| 0 <= v < a.len() ==> #[trigger] a[v] is Some,
    ensures
        satisfies(a, cs),
{
    assert forall|k: int| 0 <= k < cs.len() implies #[trigger] clause_sat(a, cs[k]) by {
        let c = cs[k];
        assert(family_clause(pkgs, reqs, c));
        if exists|x: int| 0 <= x < reqs.len() && c == #[trigger] pos_lits(request_vars(pkgs, reqs[x])) {
            let x = choose|x: int| 0 <= x < reqs.len() && c == #[trigger] pos_lits(request_vars(pkgs, reqs[x]));
            let vs = request_vars(pkgs, reqs[x]);
            assert(some_selected(a, vs));
            let i = choose|i: usize| vs.contains(i) && #[trigger] selected(a, i);
            let m = choose|m: int| 0 <= m < vs.len() && vs[m] == i;
            assert(c[m] == Literal { var: i, negated: false });
            assert(is_true(a, c[m]));
        } else if exists|i: usize, j: usize|
            i < j < pkgs.len() && pkgs[i as int].name == pkgs[j as int].name && c == #[trigger] pair_clause(i, j) {
            let (i, j) = choose|i: usize, j: usize|
                i < j < pkgs.len() && pkgs[i as int].name == pkgs[j as int].name && c == #[trigger] pair_clause(i, j);
            assert(!(selected(a, i) && selected(a, j)));
            if !selected(a, i) {
                assert(is_true(a, c[0]));
            } else {
                assert(is_true(a, c[1]));
            }
        } else if exists|i: usize, g: int|
            i < pkgs.len() && 0 <= g < requirements(pkgs[i as int]).len() && c == #[trigger] dep_clause(
                i,
                sat_vars(pkgs, requirements(pkgs[i as int])[g]),
            ) {
            let (i, g) = choose|i: usize, g: int|
                i < pkgs.len() && 0 <= g < requirements(pkgs[i as int]).len() && c == #[trigger] dep_clause(
                    i,
                    sat_vars(pkgs, requirements(pkgs[i as int])[g]),
                );
            let sv = sat_vars(pkgs, requirements(pkgs[i as int])[g]);
            if selected(a, i) {
                assert(some_selected(a, sv));
                let j = choose|j: usize| sv.contains(j) && #[trigger] selected(a, j);
                let m = choose|m: int| 0 <= m < sv.len() && sv[m] == j;
                assert(c[m + 1] == pos_lits(sv)[m]);
                assert(is_true(a, c[m + 1]));
            } else {
                assert(c[0] == neg_lit(i));
                assert(is_true(a, c[0]));
            }
        } else {
            let (i, g, b, j) = choose|i: usize, g: int, b: int, j: usize|
                i < pkgs.len() && 0 <= g < exclusions(pkgs[i as int]).len() && 0 <= b < exclusions(
                    pkgs[i as int],
                )[g].len() && #[trigger] matching(pkgs, exclusions(pkgs[i as int])[g][b]).contains(j) && j != i
                    && c == pair_clause(i, j);
            let sp = exclusions(pkgs[i as int])[g][b];
            lemma_matching_bounds(pkgs, sp);
            let m = choose|m: int| 0 <= m < matching(pkgs, sp).len() && matching(pkgs, sp)[m] == j;
            assert(j < pkgs.len());
            if selected(a, i) {
                assert(!selected(a, j));
                assert(a[j as int] is Some);
                assert(is_true(a, c[1]));
            } else {
                assert(is_true(a, c[0]));
            }
        }
    }
}

pub proof fn lemma_request_vars_bounds(pkgs: Seq<PkgV>, r: Seq<char>)
    ensures
        forall|i: int| 0 <= i < request_vars(pkgs, r).len() ==> #[trigger] request_vars(pkgs, r)[i] < pkgs.len(),
{
    lemma_named_bounds(pkgs, r);
    lemma_provided_bounds(pkgs, r);
    lemma_add_new_bounds(named(pkgs, r), provided(pkgs, r), pkgs.len() as int);
}

/// The clauses of the families are non-empty and mention only package
/// indices, when every request has a candidate.
pub proof fn lemma_families_wf(pkgs: Seq<PkgV>, reqs: Seq<Seq<char>>, cs: Seq<Seq<Literal>>)
    requires
        only_families(pkgs, reqs, cs),
        forall|x: int| 0 <= x < reqs.len() ==> #[trigger] request_vars(pkgs, reqs[x]).len() > 0,
    ensures
        forall|k: int| 0 <= k < cs.len() ==> #[trigger] cs[k].len() > 0,
        forall|k: int, i: int| 0 <= k < cs.len() && 0 <= i < cs[k].len() ==> #[trigger] cs[k][i].var < pkgs.len(),
{
    assert forall|k: int| 0 <= k < cs.len() implies #[trigger] cs[k].len() > 0 && forall|i: int|
        0 <= i < cs[k].len() ==> #[trigger] cs[k][i].var < pkgs.len() by {
        let c = cs[k];
        assert(family_clause(pkgs, reqs, c));
        if exists|x: int| 0 <= x < reqs.len() && c == #[trigger] pos_lits(request_vars(pkgs, reqs[x])) {
            let x = choose|x: int| 0 <= x < reqs.len() && c == #[trigger] pos_lits(request_vars(pkgs, reqs[x]));
            lemma_request_vars_bounds(pkgs, reqs[x]);
            assert forall|i: int| 0 <= i < c.len() implies #[trigger] c[i].var < pkgs.len() by {
                assert(c[i].var == request_vars(pkgs, reqs[x])[i]);
            }
        } else if exists|i: usize, g: int|
            i < pkgs.len() && 0 <= g < requirements(pkgs[i as int]).len() && c == #[trigger] dep_clause(
                i,
                sat_vars(pkgs, requirements(pkgs[i as int])[g]),
            ) {
            let (i0, g) = choose|i: usize, g: int|
                i < pkgs.len() && 0 <= g < requirements(pkgs[i as int]).len() && c == #[trigger] dep_clause(
                    i,
                    sat_vars(pkgs, requirements(pkgs[i as int])[g]),
                );
            let sv = sat_vars(pkgs, requirements(pkgs[i0 as int])[g]);
            lemma_sat_vars_bounds(pkgs, requirements(pkgs[i0 as int])[g]);
            assert(c[0] == neg_lit(i0));
            assert forall|i: int| 0 <= i < c.len() implies #[trigger] c[i].var < pkgs.len() by {
                if i > 0 {
                    assert(c[i] == pos_lits(sv)[i - 1]);
                }
            }
        } else if exists|i: usize, j: usize|
            i < j < pkgs.len() && pkgs[i as int].name == pkgs[j as int].name && c == #[trigger] pair_clause(i, j) {
        } else {
            let (i0, g, b, j) = choose|i: usize, g: int, b: int, j: usize|
                i < pkgs.len() && 0 <= g < exclusions(pkgs[i as int]).len() && 0 <= b < exclusions(
                    pkgs[i as int],
                )[g].len() && #[trigger] matching(pkgs, exclusions(pkgs[i as int])[g][b]).contains(j) && j != i
                    && c == pair_clause(i, j);
            let sp = exclusions(pkgs[i0 as int])[g][b];
            lemma_matching_bounds(pkgs, sp);
            let m = choose|m: int| 0 <= m < matching(pkgs, sp).len() && matching(pkgs, sp)[m] == j;
        }
    }
}

// ─── Computing the candidates ────────────────────────────────────────────────

/// Whether `x` occurs in `v`.
pub fn contains_index(v: &Vec<usize>, x: usize) -> (r: bool)
    ensures
        r == v@.contains(x),
{
    let mut k: usize = 0;
    while k < v.len()
        invariant
            k <= v@.len(),
            forall|m: int| 0 <= m < k ==> v@[m] != x,
        decreases v@.len() - k,
    {
        if v[k] == x {
            return true;
        }
        k = k + 1;
    }
    false
}

/// Appends the elements of `xs` that `out` does not hold yet, in order.
fn push_new(out: &mut Vec<usize>, xs: &Vec<usize>)
    ensures
        final(out)@ == add_new(old(out)@, xs@),
{
    let ghost start = out@;
    let mut k: usize = 0;
    while k < xs.len()
        invariant
            k <= xs@.len(),
            out@ == add_new(start, xs@.take(k as int)),
        decreases xs@.len() - k,
    {
        let ghost before = out@;
        assert(xs@.take(k + 1).drop_last() =~= xs@.take(k as int));
        if !contains_index(out, xs[k]) {
            out.push(xs[k]);
        }
        k = k + 1;
        assert(out@ == add_new(start, xs@.take(k as int)));
    }
    assert(xs@.take(k as int) =~= xs@);
}

/// Package indices that match a dependency spec: the packages of its name
/// that meet its constraint, then the providers of the name.
pub fn matching_package_indices(u: &Universe, spec: &DependencySpec) -> (r: Vec<usize>)
    ensures
        r@ == matching(u.pkgs(), spec@),
{
    let ghost pkgs = u.pkgs();
    let idx = u.indices_named(spec.name.as_str());
    proof {
        lemma_named_bounds(pkgs, spec@.name);
    }
    let mut out: Vec<usize> = Vec::new();
    let mut k: usize = 0;
    while k < idx.len()
        invariant
            k <= idx@.len(),
            idx@ == named(pkgs, spec@.name),
            pkgs == u.pkgs(),
            forall|m: int| 0 <= m < idx@.len() ==> #[trigger] idx@[m] < pkgs.len(),
            out@ == meeting(idx@.take(k as int), pkgs, spec@.constraint),
        decreases idx@.len() - k,
    {
        let i = idx[k];
        assert(idx@.take(k + 1).drop_last() =~= idx@.take(k as int));
        assert(idx@.take(k + 1).last() == i);
        let keep = match &spec.constraint {
            None => true,
            Some(c) => c.satisfies(&u.package(i).version),
        };
        if keep {
            out.push(i);
        }
        k = k + 1;
    }
    assert(idx@.take(k as int) =~= idx@);
    let prov = u.indices_providing(spec.name.as_str());
    push_new(&mut out, &prov);
    out
}

/// The packages satisfying some alternative of `group`, each once.
fn satisfying_vars(u: &Universe, group: &DependencyGroup) -> (r: Vec<usize>)
    ensures
        r@ == sat_vars(u.pkgs(), group@),
{
    let ghost g = group@;
    let mut out: Vec<usize> = Vec::new();
    let mut a: usize = 0;
    while a < group.alternatives.len()
        invariant
            a <= g.len(),
            g == group@,
            g.len() == group.alternatives@.len(),
            out@ == sat_vars(u.pkgs(), g.take(a as int)),
        decreases g.len() - a,
    {
        let m = matching_package_indices(u, &group.alternatives[a]);
        assert(g.take(a + 1).drop_last() =~= g.take(a as int));
        assert(g.take(a + 1).last() == group.alternatives@[a as int]@);
        push_new(&mut out, &m);
        a = a + 1;
    }
    assert(g.take(a as int) =~= g);
    out
}

/// A positive literal for each of `vars`.
pub fn positive_literals(vars: &Vec<usize>) -> (r: Vec<Literal>)
    ensures
        r@ == pos_lits(vars@),
{
    let mut out: Vec<Literal> = Vec::new();
    let mut k: usize = 0;
    while k < vars.len()
        invariant
            k <= vars@.len(),
            out@ == pos_lits(vars@.take(k as int)),
        decreases vars@.len() - k,
    {
        out.push(Literal::pos(vars[k]));
        k = k + 1;
        assert(out@ =~= pos_lits(vars@.take(k as int)));
    }
    assert(vars@.take(k as int) =~= vars@);
    out
}

/// Variables (package indices) that satisfy a dependency group, as
/// positive literals.
fn satisfying_literals(u: &Universe, group: &DependencyGroup) -> (r: Vec<Literal>)
    ensures
        r@ == pos_lits(sat_vars(u.pkgs(), group@)),
{
    let vars = satisfying_vars(u, group);
    positive_literals(&vars)
}

/// The candidates of a request: the packages of that name, then the
/// providers of it not already among them.
fn request_candidates(u: &Universe, name: &str) -> (r: Vec<usize>)
    ensures
        r@ == request_vars(u.pkgs(), name@),
{
    let mut out = u.indices_named(name);
    let prov = u.indices_providing(name);
    push_new(&mut out, &prov);
    out
}

/// Appends a clause of one of the families.
fn push_family_clause(
    clauses: &mut Vec<Clause>,
    lits: Vec<Literal>,
    Ghost(pkgs): Ghost<Seq<PkgV>>,
    Ghost(reqs): Ghost<Seq<Seq<char>>>,
)
    requires
        only_families(pkgs, reqs, literal_seqs(old(clauses)@)),
        family_clause(pkgs, reqs, lits@),
    ensures
        literal_seqs(final(clauses)@) == literal_seqs(old(clauses)@).push(lits@),
        only_families(pkgs, reqs, literal_seqs(final(clauses)@)),
        grows(literal_seqs(old(clauses)@), literal_seqs(final(clauses)@)),
        has_clause(literal_seqs(final(clauses)@), lits@),
{
    let ghost cs0 = literal_seqs(clauses@);
    let ghost l = lits@;
    clauses.push(Clause { literals: lits });
    let ghost cs1 = literal_seqs(clauses@);
    assert(cs1 =~= cs0.push(l));
    assert(cs1[cs0.len() as int] == l);
}

/// Encodes the dependency problem of `u` as clauses over the package
/// indices; variable `i` means "package `i` is selected". The clauses are
/// exactly the four families of [`encoded`], each at least once.
pub fn encode_clauses(u: &Universe, requests: &[&str]) -> (r: Vec<Clause>)
    ensures
        encoded(u.pkgs(), req_views(requests@), literal_seqs(r@)),
        only_families(u.pkgs(), req_views(requests@), literal_seqs(r@)),
{
    let ghost pkgs = u.pkgs();
    let ghost reqs = req_views(requests@);
    let n = u.len();
    let mut clauses: Vec<Clause> = Vec::new();

    // At least one package of each request's name, or providing it.
    let mut x: usize = 0;
    while x < requests.len()
        invariant
            x <= requests@.len(),
            pkgs == u.pkgs(),
            reqs == req_views(requests@),
            only_families(pkgs, reqs, literal_seqs(clauses@)),
            forall|y: int| 0 <= y < x ==> #[trigger] has_clause(literal_seqs(clauses@), pos_lits(request_vars(pkgs, reqs[y]))),
        decreases requests@.len() - x,
    {
        let vars = request_candidates(u, requests[x]);
        let lits = positive_literals(&vars);
        let ghost cs0 = literal_seqs(clauses@);
        assert(reqs[x as int] == requests@[x as int]@);
        assert(family_clause(pkgs, reqs, lits@));
        push_family_clause(&mut clauses, lits, Ghost(pkgs), Ghost(reqs));
        proof {
            lemma_grows(cs0, literal_seqs(clauses@));
        }
        x = x + 1;
    }

    // At most one package of each name.
    let mut i: usize = 0;
    while i < n
        invariant
            i <= n,
            n == pkgs.len(),
            pkgs == u.pkgs(),
            reqs == req_views(requests@),
            only_families(pkgs, reqs, literal_seqs(clauses@)),
            forall|y: int| 0 <= y < reqs.len() ==> #[trigger] has_clause(literal_seqs(clauses@), pos_lits(request_vars(pkgs, reqs[y]))),
            forall|i2: usize, j: usize|
                i2 < i && i2 < j < pkgs.len() && pkgs[i2 as int].name == pkgs[j as int].name ==> #[trigger] has_clause(
                    literal_seqs(clauses@),
                    pair_clause(i2, j),
                ),
        decreases n - i,
    {
        let same = u.indices_named(u.package(i).name.as_str());
        let ghost name = pkgs[i as int].name;
        let mut t: usize = 0;
        while t < same.len()
            invariant
                i < n,
                n == pkgs.len(),
                t <= same@.len(),
                same@ == named(pkgs, name),
                name == pkgs[i as int].name,
                pkgs == u.pkgs(),
                reqs == req_views(requests@),
                only_families(pkgs, reqs, literal_seqs(clauses@)),
                forall|y: int| 0 <= y < reqs.len() ==> #[trigger] has_clause(literal_seqs(clauses@), pos_lits(request_vars(pkgs, reqs[y]))),
                forall|i2: usize, j: usize|
                    i2 < i && i2 < j < pkgs.len() && pkgs[i2 as int].name == pkgs[j as int].name ==> #[trigger] has_clause(
                        literal_seqs(clauses@),
                        pair_clause(i2, j),
                    ),
                forall|t2: int| 0 <= t2 < t && same@[t2] > i ==> #[trigger] has_clause(literal_seqs(clauses@), pair_clause(i, same@[t2])),
            decreases same@.len() - t,
        {
            let j = same[t];
            if j > i {
                proof {
                    lemma_named_contains(pkgs, name, j);
                    assert(same@.contains(j));
                }
                let lits = vec![Literal::neg(i), Literal::neg(j)];
                let ghost cs0 = literal_seqs(clauses@);
                assert(lits@ == pair_clause(i, j));
                assert(family_clause(pkgs, reqs, lits@));
                push_family_clause(&mut clauses, lits, Ghost(pkgs), Ghost(reqs));
                proof {
                    lemma_grows(cs0, literal_seqs(clauses@));
                }
            }
            t = t + 1;
        }
        proof {
            assert forall|j: usize| i < j < pkgs.len() && pkgs[i as int].name == pkgs[j as int].name implies #[trigger] has_clause(
                literal_seqs(clauses@),
                pair_clause(i, j),
            ) by {
                lemma_named_contains(pkgs, name, j);
                let t2 = choose|t2: int| 0 <= t2 < same@.len() && same@[t2] == j;
                assert(has_clause(literal_seqs(clauses@), pair_clause(i, same@[t2])));
            }
        }
        i = i + 1;
    }

    // Requirements and exclusions of each package.
    let mut i: usize = 0;
    while i < n
        invariant
            i <= n,
            n == pkgs.len(),
            pkgs == u.pkgs(),
            reqs == req_views(requests@),
            only_families(pkgs, reqs, literal_seqs(clauses@)),
            forall|y: int| 0 <= y < reqs.len() ==> #[trigger] has_clause(literal_seqs(clauses@), pos_lits(request_vars(pkgs, reqs[y]))),
            forall|i2: usize, j: usize|
                i2 < j < pkgs.len() && pkgs[i2 as int].name == pkgs[j as int].name ==> #[trigger] has_clause(
                    literal_seqs(clauses@),
                    pair_clause(i2, j),
                ),
            forall|i2: usize, g: int|
                i2 < i && 0 <= g < requirements(pkgs[i2 as int]).len() ==> #[trigger] has_clause(
                    literal_seqs(clauses@),
                    dep_clause(i2, sat_vars(pkgs, requirements(pkgs[i2 as int])[g])),
                ),
            forall|i2: usize, g: int, b: int, j: usize|
                i2 < i && 0 <= g < exclusions(pkgs[i2 as int]).len() && 0 <= b < exclusions(pkgs[i2 as int])[g].len()
                    && #[trigger] matching(pkgs, exclusions(pkgs[i2 as int])[g][b]).contains(j) && j != i2
                    ==> has_clause(literal_seqs(clauses@), pair_clause(i2, j)),
        decreases n - i,
    {
        let pkg = u.package(i);
        let ghost p = pkgs[i as int];
        let ghost cs_start = literal_seqs(clauses@);
        add_requirement_clauses(&mut clauses, u, i, Ghost(reqs));
        proof {
            lemma_grows(cs_start, literal_seqs(clauses@));
        }
        let ghost cs_mid = literal_seqs(clauses@);
        add_exclusion_clauses(&mut clauses, u, i, Ghost(reqs));
        proof {
            lemma_grows(cs_mid, literal_seqs(clauses@));
            lemma_grows(cs_start, cs_mid);
        }
        i = i + 1;
    }
    clauses
}

/// Appends, for each requirement group of package `i`, the clause "not `i`,
/// or one of the packages satisfying the group" (just "not `i`" when none
/// does).
fn add_requirement_clauses(clauses: &mut Vec<Clause>, u: &Universe, i: usize, Ghost(reqs): Ghost<Seq<Seq<char>>>)
    requires
        i < u.pkgs().len(),
        only_families(u.pkgs(), reqs, literal_seqs(old(clauses)@)),
    ensures
        only_families(u.pkgs(), reqs, literal_seqs(final(clauses)@)),
        grows(literal_seqs(old(clauses)@), literal_seqs(final(clauses)@)),
        forall|g: int|
            0 <= g < requirements(u.pkgs()[i as int]).len() ==> #[trigger] has_clause(
                literal_seqs(final(clauses)@),
                dep_clause(i, sat_vars(u.pkgs(), requirements(u.pkgs()[i as int])[g])),
            ),
{
    let ghost pkgs = u.pkgs();
    let ghost cs_start = literal_seqs(clauses@);
    let pkg = u.package(i);
    let ghost rq = requirements(pkgs[i as int]);
    let mut part: usize = 0;
    while part < 2
        invariant
            part <= 2,
            i < pkgs.len(),
            pkgs == u.pkgs(),
            pkg@ == pkgs[i as int],
            rq == requirements(pkgs[i as int]),
            rq == pkg@.depends + pkg@.pre_depends,
            only_families(pkgs, reqs, literal_seqs(clauses@)),
            grows(cs_start, literal_seqs(clauses@)),
            forall|g2: int|
                0 <= g2 < (if part == 0 { 0 } else if part == 1 { pkg@.depends.len() as int } else { rq.len() as int })
                    ==> #[trigger] has_clause(literal_seqs(clauses@), dep_clause(i, sat_vars(pkgs, rq[g2]))),
        decreases 2 - part,
    {
        let groups = if part == 0 {
            &pkg.depends
        } else {
            &pkg.pre_depends
        };
        let ghost off: int = if part == 0 { 0 } else { pkg@.depends.len() as int };
        let mut g: usize = 0;
        while g < groups.len()
            invariant
                g <= groups@.len(),
                part < 2,
                off == (if part == 0 { 0 } else { pkg@.depends.len() as int }),
                group_views(groups@) == (if part == 0 { pkg@.depends } else { pkg@.pre_depends }),
                i < pkgs.len(),
                pkgs == u.pkgs(),
                pkg@ == pkgs[i as int],
                rq == requirements(pkgs[i as int]),
                rq == pkg@.depends + pkg@.pre_depends,
                only_families(pkgs, reqs, literal_seqs(clauses@)),
                grows(cs_start, literal_seqs(clauses@)),
                forall|g2: int|
                    0 <= g2 < off + g ==> #[trigger] has_clause(literal_seqs(clauses@), dep_clause(i, sat_vars(pkgs, rq[g2]))),
            decreases groups@.len() - g,
        {
            let group = &groups[g];
            assert(group@ == rq[off + g]);
            let sat = satisfying_literals(u, group);
            let mut lits = vec![Literal::neg(i)];
            let mut k: usize = 0;
            while k < sat.len()
                invariant
                    k <= sat@.len(),
                    lits@ == seq![neg_lit(i)] + sat@.take(k as int),
                decreases sat@.len() - k,
            {
                lits.push(sat[k]);
                k = k + 1;
                assert(lits@ =~= seq![neg_lit(i)] + sat@.take(k as int));
            }
            assert(sat@.take(k as int) =~= sat@);
            assert(lits@ == dep_clause(i, sat_vars(pkgs, rq[off + g])));
            assert(family_clause(pkgs, reqs, lits@));
            let ghost cs0 = literal_seqs(clauses@);
            push_family_clause(clauses, lits, Ghost(pkgs), Ghost(reqs));
            proof {
                lemma_grows(cs0, literal_seqs(clauses@));
            }
            g = g + 1;
        }
        part = part + 1;
    }
}

/// Appends, for each package `j` other than `i` that matches a `Conflicts`
/// or `Breaks` alternative of package `i`, the clause "not both".
fn add_exclusion_clauses(clauses: &mut Vec<Clause>, u: &Universe, i: usize, Ghost(reqs): Ghost<Seq<Seq<char>>>)
    requires
        i < u.pkgs().len(),
        only_families(u.pkgs(), reqs, literal_seqs(old(clauses)@)),
    ensures
        only_families(u.pkgs(), reqs, literal_seqs(final(clauses)@)),
        grows(literal_seqs(old(clauses)@), literal_seqs(final(clauses)@)),
        forall|g: int, b: int, j: usize|
            0 <= g < exclusions(u.pkgs()[i as int]).len() && 0 <= b < exclusions(u.pkgs()[i as int])[g].len()
                && #[trigger] matching(u.pkgs(), exclusions(u.pkgs()[i as int])[g][b]).contains(j) && j != i
                ==> has_clause(literal_seqs(final(clauses)@), pair_clause(i, j)),
{
    let ghost pkgs = u.pkgs();
    let ghost cs_start = literal_seqs(clauses@);
    let pkg = u.package(i);
    let ghost ex = exclusions(pkgs[i as int]);
    let mut part: usize = 0;
    while part < 2
        invariant
            part <= 2,
            i < pkgs.len(),
            pkgs == u.pkgs(),
            pkg@ == pkgs[i as int],
            ex == exclusions(pkgs[i as int]),
            ex == pkg@.conflicts + pkg@.breaks,
            only_families(pkgs, reqs, literal_seqs(clauses@)),
            grows(cs_start, literal_seqs(clauses@)),
            forall|g2: int, b: int, j: usize|
                0 <= g2 < (if part == 0 { 0 } else if part == 1 { pkg@.conflicts.len() as int } else { ex.len() as int })
                    && 0 <= b < ex[g2].len() && #[trigger] matching(pkgs, ex[g2][b]).contains(j) && j != i
                    ==> has_clause(literal_seqs(clauses@), pair_clause(i, j)),
        decreases 2 - part,
    {
        let groups = if part == 0 {
            &pkg.conflicts
        } else {
            &pkg.breaks
        };
        let ghost off: int = if part == 0 { 0 } else { pkg@.conflicts.len() as int };
        let mut g: usize = 0;
        while g < groups.len()
            invariant
                g <= groups@.len(),
                part < 2,
                off == (if part == 0 { 0 } else { pkg@.conflicts.len() as int }),
                group_views(groups@) == (if part == 0 { pkg@.conflicts } else { pkg@.breaks }),
                i < pkgs.len(),
                pkgs == u.pkgs(),
                pkg@ == pkgs[i as int],
                ex == exclusions(pkgs[i as int]),
                ex == pkg@.conflicts + pkg@.breaks,
                only_families(pkgs, reqs, literal_seqs(clauses@)),
                grows(cs_start, literal_seqs(clauses@)),
                forall|g2: int, b: int, j: usize|
                    0 <= g2 < off + g && 0 <= b < ex[g2].len() && #[trigger] matching(pkgs, ex[g2][b]).contains(j) && j != i
                        ==> has_clause(literal_seqs(clauses@), pair_clause(i, j)),
            decreases groups@.len() - g,
        {
            let group = &groups[g];
            let ghost gg: int = off + g;
            assert(group@ == ex[gg]);
            let ghost cs_g = literal_seqs(clauses@);
            let mut b: usize = 0;
            while b < group.alternatives.len()
                invariant
                    b <= group@.len(),
                    group@.len() == group.alternatives@.len(),
                    group@ == ex[gg],
                    0 <= gg < ex.len(),
                    gg == off + g,
                    i < pkgs.len(),
                    pkgs == u.pkgs(),
                    ex == exclusions(pkgs[i as int]),
                    only_families(pkgs, reqs, literal_seqs(clauses@)),
                    grows(cs_start, literal_seqs(clauses@)),
                    grows(cs_g, literal_seqs(clauses@)),
                    forall|g2: int, b2: int, j: usize|
                        0 <= g2 < gg && 0 <= b2 < ex[g2].len() && #[trigger] matching(pkgs, ex[g2][b2]).contains(j) && j != i
                            ==> has_clause(cs_g, pair_clause(i, j)),
                    forall|b2: int, j: usize|
                        0 <= b2 < b && #[trigger] matching(pkgs, ex[gg][b2]).contains(j) && j != i
                            ==> has_clause(literal_seqs(clauses@), pair_clause(i, j)),
                decreases group@.len() - b,
            {
                let m = matching_package_indices(u, &group.alternatives[b]);
                let ghost sp = ex[gg][b as int];
                assert(sp == group.alternatives@[b as int]@);
                let ghost cs_b = literal_seqs(clauses@);
                let mut t: usize = 0;
                while t < m.len()
                    invariant
                        t <= m@.len(),
                        m@ == matching(pkgs, sp),
                        sp == ex[gg][b as int],
                        b < group@.len(),
                        group@ == ex[gg],
                        0 <= gg < ex.len(),
                        i < pkgs.len(),
                        pkgs == u.pkgs(),
                        ex == exclusions(pkgs[i as int]),
                        only_families(pkgs, reqs, literal_seqs(clauses@)),
                        grows(cs_start, literal_seqs(clauses@)),
                        grows(cs_g, literal_seqs(clauses@)),
                        grows(cs_b, literal_seqs(clauses@)),
                        forall|t2: int| 0 <= t2 < t && m@[t2] != i ==> #[trigger] has_clause(literal_seqs(clauses@), pair_clause(i, m@[t2])),
                    decreases m@.len() - t,
                {
                    let j = m[t];
                    if j != i {
                        let lits = vec![Literal::neg(i), Literal::neg(j)];
                        assert(lits@ == pair_clause(i, j));
                        assert(m@.contains(j));
                        assert(family_clause(pkgs, reqs, lits@));
                        let ghost cs0 = literal_seqs(clauses@);
                        push_family_clause(clauses, lits, Ghost(pkgs), Ghost(reqs));
                        proof {
                            lemma_grows(cs0, literal_seqs(clauses@));
                        }
                    }
                    t = t + 1;
                }
                proof {
                    lemma_grows(cs_b, literal_seqs(clauses@));
                    assert forall|b2: int, j: usize|
                        0 <= b2 < b + 1 && #[trigger] matching(pkgs, ex[gg][b2]).contains(j) && j != i
                            implies has_clause(literal_seqs(clauses@), pair_clause(i, j)) by {
                        if b2 == b {
                            let t2 = choose|t2: int| 0 <= t2 < m@.len() && m@[t2] == j;
                            assert(has_clause(literal_seqs(clauses@), pair_clause(i, m@[t2])));
                        }
                    }
                }
                b = b + 1;
            }
            proof {
                lemma_grows(cs_g, literal_seqs(clauses@));
            }
            g = g + 1;
        }
        part = part + 1;
    }
}

} // verus!
