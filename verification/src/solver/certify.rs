//! Checking an unsatisfiability answer: every learnt clause must follow from
//! the clauses before it by unit propagation, and so must the empty clause
//! at the end. A refutation that passes proves that no total assignment
//! satisfies the given clauses.

use vstd::prelude::*;
use crate::solver::sat::{
    clause_sat, count_open, extends, is_true, lemma_count_open_update, lit_val, literal_seqs, negation,
    satisfies, Clause, Literal,
};

verus! {

/// Every variable below `n` is assigned, and no other.
pub open spec fn total(m: Seq<Option<bool>>, n: nat) -> bool {
    m.len() == n && forall|v: int| 0 <= v < n ==> #[trigger] m[v] is Some
}

/// No total assignment over `n` variables satisfies `cs`.
pub open spec fn unsat(cs: Seq<Seq<Literal>>, n: nat) -> bool {
    forall|m: Seq<Option<bool>>| total(m, n) ==> !#[trigger] satisfies(m, cs)
}

/// The assumptions as one-literal clauses.
pub open spec fn unit_clauses(asms: Seq<Literal>) -> Seq<Seq<Literal>> {
    Seq::new(asms.len(), |i: int| seq![asms[i]])
}

/// Every literal of every clause names a variable below `n`.
pub open spec fn vars_below(cs: Seq<Seq<Literal>>, n: nat) -> bool {
    forall|k: int, i: int| 0 <= k < cs.len() && 0 <= i < cs[k].len() ==> #[trigger] cs[k][i].var < n
}

pub open spec fn clause_views(v: Seq<Vec<Literal>>) -> Seq<Seq<Literal>> {
    Seq::new(v.len(), |i: int| v[i]@)
}

/// What one clause says under a partial assignment.
pub enum Status {
    /// Every literal is false.
    Falsified,
    /// Every literal but this unassigned one is false.
    Unit(Literal),
    /// Anything else.
    Open,
}

fn clause_status(c: &Vec<Literal>, a: &Vec<Option<bool>>) -> (r: Status)
    requires
        forall|i: int| 0 <= i < c@.len() ==> #[trigger] c@[i].var < a@.len(),
    ensures
        r is Falsified ==> forall|i: int| 0 <= i < c@.len() ==> #[trigger] lit_val(a@, c@[i]) == Some(false),
        r matches Status::Unit(l) ==> l.var < a@.len() && lit_val(a@, l) is None && forall|i: int|
            0 <= i < c@.len() ==> c@[i] == l || #[trigger] lit_val(a@, c@[i]) == Some(false),
{
    let mut open: Option<Literal> = None;
    let mut i: usize = 0;
    while i < c.len()
        invariant
            i <= c@.len(),
            forall|j: int| 0 <= j < c@.len() ==> #[trigger] c@[j].var < a@.len(),
            open matches Some(l) ==> l.var < a@.len() && lit_val(a@, l) is None,
            forall|j: int| 0 <= j < i ==> (open matches Some(l) && c@[j] == l) || #[trigger] lit_val(a@, c@[j]) == Some(false),
        decreases c.len() - i,
    {
        let l = c[i];
        match a[l.var] {
            Some(b) => {
                if b != l.negated {
                    return Status::Open;
                }
            },
            None => {
                match open {
                    None => {
                        open = Some(l);
                    },
                    Some(o) => {
                        if o != l {
                            return Status::Open;
                        }
                    },
                }
            },
        }
        i = i + 1;
    }
    match open {
        None => Status::Falsified,
        Some(l) => Status::Unit(l),
    }
}

/// Unit propagation over `db` from `a`: `true` when some clause becomes
/// false. Every total assignment that extends the starting `a` and satisfies
/// `db` extends the final `a`; so on `true` there is none.
fn propagate_units(db: &Vec<Vec<Literal>>, a: &mut Vec<Option<bool>>) -> (conflict: bool)
    requires
        vars_below(clause_views(db@), old(a)@.len()),
    ensures
        final(a)@.len() == old(a)@.len(),
        forall|m: Seq<Option<bool>>|
            total(m, old(a)@.len()) && extends(m, old(a)@) && satisfies(m, clause_views(db@)) ==> #[trigger] extends(
                m,
                final(a)@,
            ),
        conflict ==> forall|m: Seq<Option<bool>>|
            total(m, old(a)@.len()) && extends(m, old(a)@) ==> !#[trigger] satisfies(m, clause_views(db@)),
{
    let ghost n = a@.len();
    let ghost a0 = a@;
    let ghost cs = clause_views(db@);
    loop
        invariant
            a@.len() == n,
            n == old(a)@.len(),
            a0 == old(a)@,
            cs == clause_views(db@),
            vars_below(cs, n),
            forall|m: Seq<Option<bool>>|
                total(m, n) && extends(m, a0) && satisfies(m, cs) ==> #[trigger] extends(m, a@),
        decreases count_open(a@),
    {
        let ghost start = count_open(a@);
        let mut changed = false;
        let mut k: usize = 0;
        while k < db.len()
            invariant
                a@.len() == n,
                n == old(a)@.len(),
                a0 == old(a)@,
                cs == clause_views(db@),
                vars_below(cs, n),
                k <= db@.len(),
                forall|m: Seq<Option<bool>>|
                    total(m, n) && extends(m, a0) && satisfies(m, cs) ==> #[trigger] extends(m, a@),
                changed ==> count_open(a@) < start,
                !changed ==> count_open(a@) == start,
            decreases db.len() - k,
        {
            assert(cs[k as int] == db@[k as int]@);
            assert forall|i: int| 0 <= i < db@[k as int]@.len() implies #[trigger] db@[k as int]@[i].var < a@.len() by {
                assert(cs[k as int][i].var < n);
            }
            match clause_status(&db[k], a) {
                Status::Falsified => {
                    proof {
                        assert forall|m: Seq<Option<bool>>| total(m, n) && extends(m, a0) implies !#[trigger] satisfies(m, cs) by {
                            if satisfies(m, cs) {
                                assert(extends(m, a@));
                                assert(clause_sat(m, cs[k as int]));
                                let i = choose|i: int| 0 <= i < cs[k as int].len() && #[trigger] is_true(m, cs[k as int][i]);
                                assert(lit_val(a@, cs[k as int][i]) == Some(false));
                                assert(a@[cs[k as int][i].var as int] is Some);
                            }
                        }
                    }
                    return true;
                },
                Status::Unit(l) => {
                    let ghost before = a@;
                    proof {
                        lemma_count_open_update(a@, l.var as int, !l.negated);
                    }
                    a.set(l.var, Some(!l.negated));
                    proof {
                        assert forall|m: Seq<Option<bool>>| total(m, n) && extends(m, a0) && satisfies(m, cs) implies #[trigger] extends(m, a@) by {
                            assert(extends(m, before));
                            assert(clause_sat(m, cs[k as int]));
                            let i = choose|i: int| 0 <= i < cs[k as int].len() && #[trigger] is_true(m, cs[k as int][i]);
                            let x = cs[k as int][i];
                            if x != l {
                                assert(lit_val(before, x) == Some(false));
                                assert(before[x.var as int] is Some);
                                assert(m[x.var as int] == before[x.var as int]);
                            }
                            assert(x == l);
                            assert(m[l.var as int] == Some(!l.negated));
                        }
                    }
                    changed = true;
                },
                Status::Open => {},
            }
            k = k + 1;
        }
        if !changed {
            return false;
        }
    }
}

/// Whether clause `c` follows from `db` by unit propagation: setting every
/// literal of `c` false and propagating reaches a false clause (or `c` holds
/// a literal and its negation). When it does, every total assignment that
/// satisfies `db` satisfies `c`.
fn rup_follows(db: &Vec<Vec<Literal>>, n: usize, c: &Vec<Literal>) -> (r: bool)
    requires
        vars_below(clause_views(db@), n as nat),
        forall|i: int| 0 <= i < c@.len() ==> #[trigger] c@[i].var < n,
    ensures
        r ==> forall|m: Seq<Option<bool>>| total(m, n as nat) && #[trigger] satisfies(m, clause_views(db@)) ==> clause_sat(m, c@),
{
    let mut a: Vec<Option<bool>> = Vec::new();
    let mut v: usize = 0;
    while v < n
        invariant
            v <= n,
            a@.len() == v,
            forall|u: int| 0 <= u < v ==> #[trigger] a@[u] is None,
        decreases n - v,
    {
        a.push(None);
        v = v + 1;
    }
    let mut i: usize = 0;
    while i < c.len()
        invariant
            i <= c@.len(),
            a@.len() == n,
            forall|j: int| 0 <= j < c@.len() ==> #[trigger] c@[j].var < n,
            forall|m: Seq<Option<bool>>|
                total(m, n as nat) && !clause_sat(m, c@) ==> #[trigger] extends(m, a@),
        decreases c.len() - i,
    {
        let l = c[i];
        match a[l.var] {
            Some(b) => {
                if b == !l.negated {
                    // `c` holds `l` and a literal setting its variable the other way.
                    proof {
                        assert forall|m: Seq<Option<bool>>| total(m, n as nat) && #[trigger] satisfies(m, clause_views(db@)) implies clause_sat(m, c@) by {
                            if !clause_sat(m, c@) {
                                assert(extends(m, a@));
                                assert(m[l.var as int] == Some(!l.negated));
                                assert(is_true(m, c@[i as int]));
                            }
                        }
                    }
                    return true;
                }
            },
            None => {
                let ghost before = a@;
                a.set(l.var, Some(l.negated));
                proof {
                    assert forall|m: Seq<Option<bool>>| total(m, n as nat) && !clause_sat(m, c@) implies #[trigger] extends(m, a@) by {
                        assert(extends(m, before));
                        assert(!is_true(m, c@[i as int]));
                        assert(m[l.var as int] is Some);
                    }
                }
            },
        }
        i = i + 1;
    }
    let ghost a1 = a@;
    let conflict = propagate_units(db, &mut a);
    proof {
        if conflict {
            assert forall|m: Seq<Option<bool>>| total(m, n as nat) && #[trigger] satisfies(m, clause_views(db@)) implies clause_sat(m, c@) by {
                if !clause_sat(m, c@) {
                    assert(extends(m, a1));
                }
            }
        }
    }
    conflict
}

fn clause_true(c: &Vec<Literal>, a: &Vec<Option<bool>>) -> (r: bool)
    requires
        forall|i: int| 0 <= i < c@.len() ==> #[trigger] c@[i].var < a@.len(),
    ensures
        r == clause_sat(a@, c@),
{
    let mut i: usize = 0;
    while i < c.len()
        invariant
            i <= c@.len(),
            forall|j: int| 0 <= j < c@.len() ==> #[trigger] c@[j].var < a@.len(),
            forall|j: int| 0 <= j < i ==> !#[trigger] is_true(a@, c@[j]),
        decreases c.len() - i,
    {
        let l = c[i];
        match a[l.var] {
            Some(b) => {
                if b != l.negated {
                    assert(is_true(a@, c@[i as int]));
                    return true;
                }
            },
            None => {},
        }
        i = i + 1;
    }
    false
}

fn all_true(db: &Vec<Vec<Literal>>, a: &Vec<Option<bool>>) -> (r: bool)
    requires
        vars_below(clause_views(db@), a@.len()),
    ensures
        r == satisfies(a@, clause_views(db@)),
{
    let ghost cs = clause_views(db@);
    let mut k: usize = 0;
    while k < db.len()
        invariant
            k <= db@.len(),
            cs == clause_views(db@),
            vars_below(cs, a@.len()),
            forall|j: int| 0 <= j < k ==> #[trigger] clause_sat(a@, cs[j]),
        decreases db.len() - k,
    {
        assert(cs[k as int] == db@[k as int]@);
        assert forall|i: int| 0 <= i < db@[k as int]@.len() implies #[trigger] db@[k as int]@[i].var < a@.len() by {
            assert(cs[k as int][i].var < a@.len());
        }
        if !clause_true(&db[k], a) {
            return false;
        }
        k = k + 1;
    }
    true
}

fn first_open(a: &Vec<Option<bool>>) -> (r: usize)
    ensures
        r <= a@.len(),
        r < a@.len() ==> a@[r as int] is None,
        forall|v: int| 0 <= v < r ==> #[trigger] a@[v] is Some,
{
    let mut v: usize = 0;
    while v < a.len()
        invariant
            v <= a@.len(),
            forall|u: int| 0 <= u < v ==> #[trigger] a@[u] is Some,
        decreases a.len() - v,
    {
        if a[v].is_none() {
            return v;
        }
        v = v + 1;
    }
    v
}

/// A complete search by splitting on each unassigned variable in turn: on
/// `true`, `a` becomes a total assignment extending the given one that
/// satisfies `db`; on `false`, no such assignment exists and `a` is as given.
fn split_search(db: &Vec<Vec<Literal>>, a: &mut Vec<Option<bool>>) -> (r: bool)
    requires
        vars_below(clause_views(db@), old(a)@.len()),
    ensures
        final(a)@.len() == old(a)@.len(),
        r ==> total(final(a)@, old(a)@.len()) && satisfies(final(a)@, clause_views(db@)) && extends(
            final(a)@,
            old(a)@,
        ),
        !r ==> final(a)@ == old(a)@,
        !r ==> forall|m: Seq<Option<bool>>|
            total(m, old(a)@.len()) && extends(m, old(a)@) ==> !#[trigger] satisfies(m, clause_views(db@)),
    decreases count_open(old(a)@),
{
    let ghost n = a@.len();
    let ghost a0 = a@;
    let ghost cs = clause_views(db@);
    let mut k: usize = 0;
    while k < db.len()
        invariant
            k <= db@.len(),
            a@ == a0,
            n == a0.len(),
            cs == clause_views(db@),
            vars_below(cs, n),
        decreases db.len() - k,
    {
        assert(cs[k as int] == db@[k as int]@);
        assert forall|i: int| 0 <= i < db@[k as int]@.len() implies #[trigger] db@[k as int]@[i].var < a@.len() by {
            assert(cs[k as int][i].var < n);
        }
        match clause_status(&db[k], a) {
            Status::Falsified => {
                proof {
                    assert forall|m: Seq<Option<bool>>| total(m, n) && extends(m, a0) implies !#[trigger] satisfies(m, cs) by {
                        if satisfies(m, cs) {
                            assert(clause_sat(m, cs[k as int]));
                            let i = choose|i: int| 0 <= i < cs[k as int].len() && #[trigger] is_true(m, cs[k as int][i]);
                            assert(lit_val(a0, cs[k as int][i]) == Some(false));
                            assert(a0[cs[k as int][i].var as int] is Some);
                        }
                    }
                }
                return false;
            },
            _ => {},
        }
        k = k + 1;
    }
    let v = first_open(a);
    if v >= a.len() {
        let ok = all_true(db, a);
        proof {
            assert(total(a0, n));
            if !ok {
                assert forall|m: Seq<Option<bool>>| total(m, n) && extends(m, a0) implies !#[trigger] satisfies(m, cs) by {
                    assert(m =~= a0);
                }
            }
            assert(extends(a0, a0));
        }
        return ok;
    }
    proof {
        lemma_count_open_update(a@, v as int, true);
        lemma_count_open_update(a@, v as int, false);
    }
    a.set(v, Some(true));
    let ghost at = a@;
    if split_search(db, a) {
        proof {
            assert(extends(a@, a0)) by {
                assert forall|u: int| 0 <= u < a0.len() && #[trigger] a0[u] is Some implies a@[u] == a0[u] by {
                    assert(at[u] == a0[u]);
                }
            }
        }
        return true;
    }
    a.set(v, Some(false));
    assert(a@ =~= a0.update(v as int, Some(false)));
    let ghost af = a@;
    if split_search(db, a) {
        proof {
            assert(extends(a@, a0)) by {
                assert forall|u: int| 0 <= u < a0.len() && #[trigger] a0[u] is Some implies a@[u] == a0[u] by {
                    assert(af[u] == a0[u]);
                }
            }
        }
        return true;
    }
    a.set(v, None);
    proof {
        assert(a@ =~= a0);
        assert forall|m: Seq<Option<bool>>| total(m, n) && extends(m, a0) implies !#[trigger] satisfies(m, cs) by {
            assert(m[v as int] is Some);
            if m[v as int] == Some(true) {
                assert(extends(m, at));
            } else {
                assert(m[v as int] == Some(false));
                assert forall|u: int| 0 <= u < af.len() && #[trigger] af[u] is Some implies m[u] == af[u] by {
                    if u != v {
                        assert(af[u] == a0[u]);
                    }
                }
                assert(extends(m, af));
            }
        }
    }
    false
}

/// Decides whether some total assignment over `n` variables satisfies the
/// clauses and makes every assumption true: a model when one exists.
pub fn complete_search(clauses: &Vec<Clause>, n: usize, asms: &[Literal]) -> (r: Option<Vec<Option<bool>>>)
    requires
        vars_below(literal_seqs(clauses@), n as nat),
        forall|i: int| 0 <= i < asms@.len() ==> #[trigger] asms@[i].var < n,
    ensures
        r matches Some(m) ==> total(m@, n as nat) && satisfies(m@, literal_seqs(clauses@)) && forall|i: int|
            0 <= i < asms@.len() ==> #[trigger] is_true(m@, asms@[i]),
        r is None ==> unsat(literal_seqs(clauses@) + unit_clauses(asms@), n as nat),
{
    let ghost cs = literal_seqs(clauses@);
    let ghost base = cs + unit_clauses(asms@);
    let mut db: Vec<Vec<Literal>> = Vec::new();
    let mut k: usize = 0;
    while k < clauses.len()
        invariant
            k <= clauses@.len(),
            cs == literal_seqs(clauses@),
            clause_views(db@) == cs.take(k as int),
        decreases clauses.len() - k,
    {
        let ghost before = clause_views(db@);
        db.push(copy_literals(&clauses[k].literals));
        assert(clause_views(db@) =~= before.push(cs[k as int]));
        k = k + 1;
        assert(clause_views(db@) =~= cs.take(k as int));
    }
    assert(cs.take(k as int) =~= cs);
    let mut a: Vec<Option<bool>> = Vec::new();
    let mut v: usize = 0;
    while v < n
        invariant
            v <= n,
            a@.len() == v,
            forall|u: int| 0 <= u < v ==> #[trigger] a@[u] is None,
        decreases n - v,
    {
        a.push(None);
        v = v + 1;
    }
    let mut j: usize = 0;
    while j < asms.len()
        invariant
            j <= asms@.len(),
            a@.len() == n,
            forall|i: int| 0 <= i < asms@.len() ==> #[trigger] asms@[i].var < n,
            forall|i: int| 0 <= i < j ==> #[trigger] is_true(a@, asms@[i]),
            forall|m: Seq<Option<bool>>|
                total(m, n as nat) && (forall|i: int| 0 <= i < asms@.len() ==> #[trigger] is_true(m, asms@[i]))
                    ==> #[trigger] extends(m, a@),
            cs == literal_seqs(clauses@),
            base == cs + unit_clauses(asms@),
        decreases asms.len() - j,
    {
        let l = asms[j];
        match a[l.var] {
            Some(b) => {
                if b == l.negated {
                    proof {
                        assert forall|m: Seq<Option<bool>>| total(m, n as nat) implies !#[trigger] satisfies(m, base) by {
                            if satisfies(m, base) {
                                assert forall|i: int| 0 <= i < asms@.len() implies #[trigger] is_true(m, asms@[i]) by {
                                    assert(base[cs.len() + i] == seq![asms@[i]]);
                                    assert(clause_sat(m, base[cs.len() + i]));
                                }
                                assert(extends(m, a@));
                                assert(is_true(m, asms@[j as int]));
                            }
                        }
                    }
                    return None;
                }
            },
            None => {
                let ghost before = a@;
                a.set(l.var, Some(!l.negated));
                proof {
                    assert forall|m: Seq<Option<bool>>|
                        total(m, n as nat) && (forall|i: int| 0 <= i < asms@.len() ==> #[trigger] is_true(m, asms@[i]))
                            implies #[trigger] extends(m, a@) by {
                        assert(extends(m, before));
                        assert(is_true(m, asms@[j as int]));
                    }
                    assert forall|i: int| 0 <= i < j + 1 implies #[trigger] is_true(a@, asms@[i]) by {
                        if i < j {
                            assert(is_true(before, asms@[i]));
                        }
                    }
                }
            },
        }
        j = j + 1;
    }
    let ghost a1 = a@;
    if split_search(&db, &mut a) {
        proof {
            assert forall|i: int| 0 <= i < asms@.len() implies #[trigger] is_true(a@, asms@[i]) by {
                assert(is_true(a1, asms@[i]));
                assert(a1[asms@[i].var as int] is Some);
            }
        }
        Some(a)
    } else {
        proof {
            assert forall|m: Seq<Option<bool>>| total(m, n as nat) implies !#[trigger] satisfies(m, base) by {
                if satisfies(m, base) {
                    assert forall|i: int| 0 <= i < asms@.len() implies #[trigger] is_true(m, asms@[i]) by {
                        assert(base[cs.len() + i] == seq![asms@[i]]);
                        assert(clause_sat(m, base[cs.len() + i]));
                    }
                    assert(extends(m, a1));
                    assert forall|q: int| 0 <= q < cs.len() implies #[trigger] clause_sat(m, cs[q]) by {
                        assert(base[q] == cs[q]);
                    }
                    assert(satisfies(m, clause_views(db@)));
                }
            }
        }
        None
    }
}

fn copy_literals(v: &Vec<Literal>) -> (r: Vec<Literal>)
    ensures
        r@ == v@,
{
    let mut out: Vec<Literal> = Vec::new();
    let mut i: usize = 0;
    while i < v.len()
        invariant
            i <= v@.len(),
            out@ == v@.take(i as int),
        decreases v.len() - i,
    {
        out.push(v[i]);
        i = i + 1;
        assert(out@ =~= v@.take(i as int));
    }
    assert(v@.take(i as int) =~= v@);
    out
}

/// Checks a refutation: the clauses after the first `k0` of `clauses` must
/// each follow by unit propagation from the first `k0`, the assumptions and
/// the ones checked before, and the empty clause must follow from them all.
/// On success no total assignment over `n` variables satisfies the first
/// `k0` clauses together with the assumptions.
/// Every literal of `c` names a variable below `n`.
fn vars_ok(c: &Vec<Literal>, n: usize) -> (r: bool)
    ensures
        r == forall|i: int| 0 <= i < c@.len() ==> #[trigger] c@[i].var < n,
{
    let mut i: usize = 0;
    while i < c.len()
        invariant
            i <= c@.len(),
            forall|j: int| 0 <= j < i ==> #[trigger] c@[j].var < n,
        decreases c.len() - i,
    {
        if c[i].var >= n {
            return false;
        }
        i = i + 1;
    }
    true
}

pub fn refutation_holds(clauses: &Vec<Clause>, k0: usize, n: usize, asms: &[Literal]) -> (r: bool)
    requires
        k0 <= clauses@.len(),
    ensures
        r ==> unsat(literal_seqs(clauses@).take(k0 as int) + unit_clauses(asms@), n as nat),
{
    let ghost cs = literal_seqs(clauses@);
    let ghost base = cs.take(k0 as int) + unit_clauses(asms@);
    let mut db: Vec<Vec<Literal>> = Vec::new();
    let mut k: usize = 0;
    while k < k0
        invariant
            k <= k0 <= clauses@.len(),
            cs == literal_seqs(clauses@),
            clause_views(db@) == cs.take(k as int),
            vars_below(cs.take(k as int), n as nat),
        decreases k0 - k,
    {
        if !vars_ok(&clauses[k].literals, n) {
            return false;
        }
        assert(cs[k as int] == clauses@[k as int].literals@);
        proof {
            assert forall|a: int, i: int| 0 <= a < k + 1 && 0 <= i < cs.take(k + 1)[a].len() implies #[trigger] cs.take(k + 1)[a][i].var < n by {
                if a < k {
                    assert(cs.take(k + 1)[a] == cs.take(k as int)[a]);
                }
            }
        }
        let ghost before = clause_views(db@);
        db.push(copy_literals(&clauses[k].literals));
        assert(clause_views(db@) =~= before.push(cs[k as int]));
        k = k + 1;
        assert(clause_views(db@) =~= cs.take(k as int));
    }
    let mut j: usize = 0;
    while j < asms.len()
        invariant
            j <= asms@.len(),
            clause_views(db@) == cs.take(k0 as int) + unit_clauses(asms@).take(j as int),
            vars_below(cs.take(k0 as int), n as nat),
            forall|i: int| 0 <= i < j ==> #[trigger] asms@[i].var < n,
        decreases asms.len() - j,
    {
        if asms[j].var >= n {
            return false;
        }
        let ghost before = clause_views(db@);
        let mut u: Vec<Literal> = Vec::new();
        u.push(asms[j]);
        db.push(u);
        assert(clause_views(db@) =~= before.push(seq![asms@[j as int]]));
        j = j + 1;
        assert(clause_views(db@) =~= cs.take(k0 as int) + unit_clauses(asms@).take(j as int));
    }
    assert(unit_clauses(asms@).take(j as int) =~= unit_clauses(asms@));
    proof {
        assert forall|a: int, i: int| 0 <= a < base.len() && 0 <= i < base[a].len() implies #[trigger] base[a][i].var < n by {
            if a < k0 {
                assert(base[a] == cs[a]);
            } else {
                assert(base[a] == seq![asms@[a - k0]]);
            }
        }
    }
    let mut t: usize = k0;
    while t < clauses.len()
        invariant
            k0 <= t <= clauses@.len(),
            cs == literal_seqs(clauses@),
            vars_below(clause_views(db@), n as nat),
            forall|m: Seq<Option<bool>>| total(m, n as nat) && #[trigger] satisfies(m, base) ==> satisfies(m, clause_views(db@)),
        decreases clauses.len() - t,
    {
        let c = &clauses[t].literals;
        assert(c@ == cs[t as int]);
        if !vars_ok(c, n) {
            return false;
        }
        if !rup_follows(&db, n, c) {
            return false;
        }
        let ghost before = clause_views(db@);
        db.push(copy_literals(c));
        proof {
            assert(clause_views(db@) =~= before.push(c@));
            assert forall|m: Seq<Option<bool>>| total(m, n as nat) && #[trigger] satisfies(m, base) implies satisfies(m, clause_views(db@)) by {
                assert(satisfies(m, before));
                assert(clause_sat(m, c@));
                assert forall|q: int| 0 <= q < clause_views(db@).len() implies #[trigger] clause_sat(m, clause_views(db@)[q]) by {
                    if q < before.len() {
                        assert(clause_views(db@)[q] == before[q]);
                    }
                }
            }
            assert forall|a: int, i: int| 0 <= a < clause_views(db@).len() && 0 <= i < clause_views(db@)[a].len() implies #[trigger] clause_views(db@)[a][i].var < n by {
                if a < before.len() {
                    assert(clause_views(db@)[a] == before[a]);
                } else {
                    assert(clause_views(db@)[a] == c@);
                    assert(c@[i].var < n);
                }
            }
        }
        t = t + 1;
    }
    let empty: Vec<Literal> = Vec::new();
    let ok = rup_follows(&db, n, &empty);
    proof {
        if ok {
            assert forall|m: Seq<Option<bool>>| total(m, n as nat) implies !#[trigger] satisfies(m, base) by {
                if satisfies(m, base) {
                    assert(satisfies(m, clause_views(db@)));
                    assert(clause_sat(m, empty@));
                    let i = choose|i: int| 0 <= i < empty@.len() && #[trigger] is_true(m, empty@[i]);
                }
            }
        }
    }
    ok
}

} // verus!
