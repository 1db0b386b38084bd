//! A CDCL SAT solver: unit propagation over per-variable watch lists,
//! conflict analysis, non-chronological backtracking and an activity-based
//! variable order.
//!
//! The property proved of it is the one its callers rely on: when a search
//! reports "satisfiable", the assignment it leaves satisfies every clause and
//! every assumption. It rests on two invariants kept across propagation,
//! decisions and backjumps: every clause is satisfied, has an unassigned
//! literal, or has a false literal whose negation waits in the propagation
//! queue; and every true literal in the queue belongs to the current decision
//! level.

use vstd::prelude::*;
use std::collections::VecDeque;
use rayon::iter::{IntoParallelIterator, ParallelIterator};
use crate::solver::certify::{complete_search, refutation_holds, unit_clauses, unsat};

verus! {

// ─── Literals and clauses ─────────────────────────────────────────────────────

/// A variable, or its negation.
#[derive(Debug, Clone, Copy, PartialEq, Eq, Structural)]
pub struct Literal {
    pub var: usize,
    pub negated: bool,
}

impl Literal {
    pub fn pos(var: usize) -> (r: Literal)
        ensures
            r == (Literal { var, negated: false }),
    {
        Literal { var, negated: false }
    }

    pub fn neg(var: usize) -> (r: Literal)
        ensures
            r == (Literal { var, negated: true }),
    {
        Literal { var, negated: true }
    }

    pub fn negate(self) -> (r: Literal)
        ensures
            r == negation(self),
    {
        Literal { var: self.var, negated: !self.negated }
    }
}

pub open spec fn negation(l: Literal) -> Literal {
    Literal { var: l.var, negated: !l.negated }
}

/// A disjunction of literals.
#[derive(Debug, Clone)]
pub struct Clause {
    pub literals: Vec<Literal>,
}

/// The value of `l` under the partial assignment `a`.
pub open spec fn lit_val(a: Seq<Option<bool>>, l: Literal) -> Option<bool> {
    match a[l.var as int] {
        Some(b) => Some(b != l.negated),
        None => None,
    }
}

/// The literals of `c` that are unassigned under `a`, in order.
pub open spec fn open_lits(a: Seq<Option<bool>>, c: Seq<Literal>) -> Seq<Literal>
    decreases c.len(),
{
    if c.len() == 0 {
        Seq::empty()
    } else if lit_val(a, c.last()) is None {
        open_lits(a, c.drop_last()).push(c.last())
    } else {
        open_lits(a, c.drop_last())
    }
}

pub open spec fn is_true(a: Seq<Option<bool>>, l: Literal) -> bool {
    lit_val(a, l) == Some(true)
}

/// Some literal of `c` is true under `a`.
pub open spec fn clause_sat(a: Seq<Option<bool>>, c: Seq<Literal>) -> bool {
    exists|i: int| 0 <= i < c.len() && #[trigger] is_true(a, c[i])
}

/// Every clause of `cs` is satisfied by `a`.
pub open spec fn satisfies(a: Seq<Option<bool>>, cs: Seq<Seq<Literal>>) -> bool {
    forall|k: int| 0 <= k < cs.len() ==> #[trigger] clause_sat(a, cs[k])
}

/// Some literal of `c` is unassigned.
pub open spec fn has_open(a: Seq<Option<bool>>, c: Seq<Literal>) -> bool {
    exists|i: int| 0 <= i < c.len() && #[trigger] lit_val(a, c[i]) is None
}

/// Some literal of `c` is false and its (true) negation waits in `q`.
pub open spec fn has_pending(a: Seq<Option<bool>>, q: Seq<Literal>, c: Seq<Literal>) -> bool {
    exists|i: int, k: int|
        0 <= i < c.len() && 0 <= k < q.len() && #[trigger] q[k] == negation(#[trigger] c[i])
            && is_true(a, q[k])
}

/// The propagation invariant for one clause.
pub open spec fn clause_ok(a: Seq<Option<bool>>, q: Seq<Literal>, c: Seq<Literal>) -> bool {
    clause_sat(a, c) || has_open(a, c) || has_pending(a, q, c)
}

pub open spec fn contains_lit(c: Seq<Literal>, l: Literal) -> bool {
    exists|i: int| 0 <= i < c.len() && c[i] == l
}

/// `k` occurs in `w`.
pub open spec fn listed(w: Seq<usize>, k: int) -> bool {
    exists|m: int| 0 <= m < w.len() && w[m] == k
}

/// Every clause is non-empty, mentions only variables below `n`, and is
/// listed in the watch list of each variable it mentions; watch lists hold
/// only clause indices.
pub open spec fn clauses_ok(n: int, cs: Seq<Seq<Literal>>, watch: Seq<Seq<usize>>) -> bool {
        &&& forall|k: int| 0 <= k < cs.len() ==> #[trigger] cs[k].len() > 0
        &&& forall|k: int, i: int|
            0 <= k < cs.len() && 0 <= i < cs[k].len() ==> #[trigger] cs[k][i].var < n
        &&& forall|k: int, i: int|
            #![trigger cs[k][i]]
            0 <= k < cs.len() && 0 <= i < cs[k].len() ==> listed(watch[cs[k][i].var as int], k)
        &&& forall|v: int, m: int|
            0 <= v < n && 0 <= m < watch[v].len() ==> #[trigger] watch[v][m]
                < cs.len()
}

/// The trail and the decision levels agree with the assignment: levels
/// start on the trail in order, every literal above the start of a level is
/// true and of a higher level, every variable of a level has a literal on the
/// trail at or above the level's start, and no variable is on the trail twice
/// above the first decision.
pub open spec fn trail_ok_of(n: int, a: Seq<Option<bool>>, level: Seq<usize>, t: Seq<Literal>, lim: Seq<usize>) -> bool {
    &&& forall|x: int, y: int| 0 <= x <= y < lim.len() ==> #[trigger] lim[x] <= #[trigger] lim[y]
    &&& forall|x: int| 0 <= x < lim.len() ==> #[trigger] lim[x] <= t.len()
    &&& forall|v: int| 0 <= v < n && a[v] is Some ==> #[trigger] level[v] <= lim.len()
    &&& forall|v: int| 0 <= v < n && a[v] is None ==> #[trigger] level[v] == 0
    &&& forall|x: int, j: int|
        #![trigger lim[x], t[j]]
        0 <= x < lim.len() && lim[x] <= j < t.len() ==> is_true(a, t[j])
            && level[t[j].var as int] > x
    &&& forall|v: int|
        0 <= v < n && a[v] is Some && #[trigger] level[v] > 0 ==> exists|j: int|
            lim[level[v] - 1] <= j < t.len() && #[trigger] t[j].var == v
    &&& lim.len() > 0 ==> forall|j1: int, j2: int|
        lim[0] <= j1 < j2 < t.len() ==> #[trigger] t[j1].var != #[trigger] t[j2].var
}

/// The clause indices of each watch list.
pub open spec fn watch_views(w: Seq<Vec<usize>>) -> Seq<Seq<usize>> {
    Seq::new(w.len(), |v: int| w[v]@)
}

/// The literals of each clause.
pub open spec fn literal_seqs(cl: Seq<Clause>) -> Seq<Seq<Literal>> {
    Seq::new(cl.len(), |k: int| cl[k].literals@)
}

// ─── The solver state ─────────────────────────────────────────────────────────

/// A CDCL solver over variables `0..num_vars`.
pub struct Solver {
    num_vars: usize,
    clauses: Vec<Clause>,
    assignment: Vec<Option<bool>>,
    /// The clause that forced each variable, `None` for decisions and
    /// assumptions.
    reason: Vec<Option<usize>>,
    /// Decision level at which each variable was assigned.
    level: Vec<usize>,
    /// Literals made true, in order.
    trail: Vec<Literal>,
    /// Where each decision level starts on the trail.
    trail_lim: Vec<usize>,
    /// For each variable, the clauses that mention it.
    watch: Vec<Vec<usize>>,
    /// Literals whose consequences are still to be propagated.
    prop_queue: VecDeque<Literal>,
    /// Activity of each variable: higher is decided first.
    activity: Vec<u64>,
    /// What a bump adds to an activity; it grows as the search goes on, so
    /// recent conflicts weigh more.
    var_inc: u64,
    /// Diversifies the decision order among the workers of a portfolio.
    seed: u64,
}

/// Activities are scaled down once one exceeds this.
pub const ACTIVITY_LIMIT: u64 = 0x1000_0000_0000_0000;

/// Every activity divided by 2^32.
pub open spec fn scaled_activity(a: Seq<u64>) -> Seq<u64> {
    Seq::new(a.len(), |i: int| (a[i] / 0x1_0000_0000) as u64)
}

/// The increment divided by 2^32, and at least 1.
pub open spec fn scaled_inc(inc: u64) -> u64 {
    if inc / 0x1_0000_0000 == 0 {
        1
    } else {
        (inc / 0x1_0000_0000) as u64
    }
}

impl Solver {
    pub closed spec fn clause_seq(&self) -> Seq<Seq<Literal>> {
        literal_seqs(self.clauses@)
    }

    /// The current assignment.
    pub closed spec fn model(&self) -> Seq<Option<bool>> {
        self.assignment@
    }

    pub closed spec fn vars(&self) -> nat {
        self.num_vars as nat
    }

    pub closed spec fn decision_level(&self) -> nat {
        self.trail_lim@.len()
    }

    /// The shape of the state: lengths agree and every index is in range.
    pub closed spec fn shape_ok(&self) -> bool {
        let n = self.num_vars as int;
        let cs = self.clause_seq();
        &&& self.assignment@.len() == n
        &&& self.reason@.len() == n
        &&& self.level@.len() == n
        &&& self.watch@.len() == n
        &&& self.activity@.len() == n
        &&& clauses_ok(n, cs, watch_views(self.watch@))
        &&& forall|v: int|
            0 <= v < n ==> match #[trigger] self.reason@[v] {
                Some(ci) => ci < cs.len(),
                None => true,
            }
        &&& forall|j: int| 0 <= j < self.trail@.len() ==> #[trigger] self.trail@[j].var < n
        &&& forall|j: int| 0 <= j < self.prop_queue@.len() ==> #[trigger] self.prop_queue@[j].var < n
    }

    /// The shape is right and the activities are within their limit.
    pub closed spec fn wf(&self) -> bool {
        &&& self.shape_ok()
        &&& 1 <= self.var_inc <= ACTIVITY_LIMIT
        &&& forall|v: int| 0 <= v < self.num_vars ==> #[trigger] self.activity@[v] <= ACTIVITY_LIMIT
    }

    /// The trail and the decision levels agree with the assignment.
    pub closed spec fn trail_ok(&self) -> bool {
        trail_ok_of(self.num_vars as int, self.assignment@, self.level@, self.trail@, self.trail_lim@)
    }

    /// The propagation invariants: every clause is satisfied, open or
    /// pending, and every true queued literal is of the current level.
    pub closed spec fn props_ok(&self) -> bool {
        let a = self.assignment@;
        let q = self.prop_queue@;
        let cs = self.clause_seq();
        &&& forall|k: int| 0 <= k < cs.len() ==> #[trigger] clause_ok(a, q, cs[k])
        &&& forall|k: int|
            0 <= k < q.len() && is_true(a, #[trigger] q[k]) ==> self.level@[q[k].var as int]
                == self.trail_lim@.len()
    }

    pub closed spec fn inv(&self) -> bool {
        self.wf() && self.trail_ok() && self.props_ok()
    }

    // ── Reading the assignment ────────────────────────────────────────────────

    fn lit_value(&self, lit: Literal) -> (r: Option<bool>)
        requires
            self.wf(),
            lit.var < self.num_vars,
        ensures
            r == lit_val(self.assignment@, lit),
    {
        match self.assignment[lit.var] {
            Some(b) => Some(b != lit.negated),
            None => None,
        }
    }

    /// `Some(true)` when satisfied, `Some(false)` when every literal is false,
    /// `None` otherwise.
    fn clause_status(&self, ci: usize) -> (r: Option<bool>)
        requires
            self.wf(),
            ci < self.clauses@.len(),
        ensures
            r == Some(true) <==> clause_sat(self.assignment@, self.clause_seq()[ci as int]),
            r is None <==> !clause_sat(self.assignment@, self.clause_seq()[ci as int]) && has_open(
                self.assignment@,
                self.clause_seq()[ci as int],
            ),
    {
        let ghost c = self.clause_seq()[ci as int];
        let ghost a = self.assignment@;
        let mut all_false = true;
        let mut i: usize = 0;
        while i < self.clauses[ci].literals.len()
            invariant
                self.wf(),
                ci < self.clauses@.len(),
                c == self.clause_seq()[ci as int],
                a == self.assignment@,
                c == self.clauses@[ci as int].literals@,
                i <= c.len(),
                forall|m: int| 0 <= m < i ==> !is_true(a, #[trigger] c[m]),
                all_false <==> forall|m: int| 0 <= m < i ==> lit_val(a, #[trigger] c[m]) is Some,
            decreases c.len() - i,
        {
            let lit = self.clauses[ci].literals[i];
            assert(lit == c[i as int]);
            match self.lit_value(lit) {
                Some(true) => {
                    assert(is_true(a, c[i as int]));
                    return Some(true);
                },
                Some(false) => {},
                None => {
                    all_false = false;
                },
            }
            i = i + 1;
        }
        if all_false {
            Some(false)
        } else {
            None
        }
    }

    fn all_assigned(&self) -> (r: bool)
        requires
            self.wf(),
        ensures
            r <==> forall|v: int| 0 <= v < self.num_vars ==> #[trigger] self.assignment@[v] is Some,
    {
        let mut v: usize = 0;
        while v < self.num_vars
            invariant
                self.wf(),
                v <= self.num_vars,
                forall|w: int| 0 <= w < v ==> #[trigger] self.assignment@[w] is Some,
            decreases self.num_vars - v,
        {
            if self.assignment[v].is_none() {
                return false;
            }
            v = v + 1;
        }
        true
    }
}


/// `b` keeps every assignment of `a` or drops it.
pub open spec fn weaker(b: Seq<Option<bool>>, a: Seq<Option<bool>>) -> bool {
    b.len() == a.len() && forall|v: int| 0 <= v < a.len() && #[trigger] b[v] is Some ==> b[v] == a[v]
}

/// Dropping assignments keeps the propagation invariant of a clause.
pub proof fn lemma_weaker_keeps_ok(a: Seq<Option<bool>>, b: Seq<Option<bool>>, q: Seq<Literal>, c: Seq<Literal>)
    requires
        weaker(b, a),
        clause_ok(a, q, c),
        forall|i: int| 0 <= i < c.len() ==> #[trigger] c[i].var < a.len(),
        forall|k: int| 0 <= k < q.len() ==> #[trigger] q[k].var < a.len(),
    ensures
        clause_ok(b, q, c),
{
    if clause_sat(a, c) {
        let i = choose|i: int| 0 <= i < c.len() && #[trigger] is_true(a, c[i]);
        if b[c[i].var as int] is Some {
            assert(is_true(b, c[i]));
        } else {
            assert(lit_val(b, c[i]) is None);
        }
    } else if has_open(a, c) {
        let i = choose|i: int| 0 <= i < c.len() && #[trigger] lit_val(a, c[i]) is None;
        assert(lit_val(b, c[i]) is None);
    } else {
        let (i, k) = choose|i: int, k: int|
            0 <= i < c.len() && 0 <= k < q.len() && #[trigger] q[k] == negation(#[trigger] c[i])
                && is_true(a, q[k]);
        if b[q[k].var as int] is Some {
            assert(is_true(b, q[k]));
        } else {
            assert(lit_val(b, c[i]) is None);
        }
    }
}

impl Solver {
    /// Makes `lit` true at the current decision level, forced by `reason`.
    fn assign(&mut self, lit: Literal, reason: Option<usize>)
        requires
            old(self).wf(),
            old(self).trail_ok(),
            lit.var < old(self).num_vars,
            old(self).trail_lim@.len() == 0 || old(self).assignment@[lit.var as int] is None,
            match reason {
                Some(ci) => ci < old(self).clauses@.len(),
                None => true,
            },
        ensures
            final(self).wf(),
            final(self).trail_ok(),
            final(self).num_vars == old(self).num_vars,
            final(self).clauses == old(self).clauses,
            final(self).watch == old(self).watch,
            final(self).prop_queue == old(self).prop_queue,
            final(self).trail_lim == old(self).trail_lim,
            final(self).activity == old(self).activity,
            final(self).var_inc == old(self).var_inc,
            final(self).seed == old(self).seed,
            final(self).trail@ == old(self).trail@.push(lit),
            final(self).assignment@ == old(self).assignment@.update(lit.var as int, Some(!lit.negated)),
            final(self).level@ == old(self).level@.update(lit.var as int, old(self).trail_lim.len()),
    {
        let ghost t0 = self.trail@;
        let ghost a0 = self.assignment@;
        self.assignment.set(lit.var, Some(!lit.negated));
        self.reason.set(lit.var, reason);
        let lv = self.trail_lim.len();
        self.level.set(lit.var, lv);
        self.trail.push(lit);
        proof {
            assert(self.clauses@ == old(self).clauses@);
            assert(self.clause_seq() =~= old(self).clause_seq());
            assert(self.watch@ == old(self).watch@);
            let a = self.assignment@;
            let t = self.trail@;
            let lim = self.trail_lim@;
            assert(is_true(a, lit));
            assert forall|x: int, j: int|
                #![trigger lim[x], t[j]]
                0 <= x < lim.len() && lim[x] <= j < t.len() implies is_true(a, t[j])
                && self.level@[t[j].var as int] > x by {
                if j < t0.len() {
                    assert(is_true(a0, t0[j]));
                    assert(t0[j].var != lit.var);
                }
            }
            assert forall|v: int|
                0 <= v < self.num_vars && a[v] is Some && #[trigger] self.level@[v] > 0
                implies exists|j: int| lim[self.level@[v] - 1] <= j < t.len() && #[trigger] t[j].var == v by {
                if v == lit.var {
                    assert(lim[lim.len() - 1] <= t0.len());
                    assert(t[t0.len() as int].var == v);
                } else {
                    assert(old(self).level@[v] == self.level@[v]);
                    assert(a0[v] is Some);
                    let j = choose|j: int| lim[old(self).level@[v] - 1] <= j < t0.len() && #[trigger] t0[j].var == v;
                    assert(t[j].var == v);
                }
            }
            if lim.len() > 0 {
                assert forall|j1: int, j2: int|
                    lim[0] <= j1 < j2 < t.len() implies #[trigger] t[j1].var != #[trigger] t[j2].var by {
                    if j2 == t0.len() {
                        assert(is_true(a0, t0[j1]));
                    }
                }
            }
            assert(trail_ok_of(self.num_vars as int, a, self.level@, t, lim));
        }
    }

    fn new_decision_level(&mut self)
        requires
            old(self).wf(),
            old(self).trail_ok(),
        ensures
            final(self).wf(),
            final(self).trail_ok(),
            final(self).num_vars == old(self).num_vars,
            final(self).clauses == old(self).clauses,
            final(self).watch == old(self).watch,
            final(self).prop_queue == old(self).prop_queue,
            final(self).assignment == old(self).assignment,
            final(self).level == old(self).level,
            final(self).trail == old(self).trail,
            final(self).activity == old(self).activity,
            final(self).var_inc == old(self).var_inc,
            final(self).seed == old(self).seed,
            final(self).trail_lim@ == old(self).trail_lim@.push(old(self).trail.len()),
    {
        let ghost lim0 = self.trail_lim@;
        let n = self.trail.len();
        self.trail_lim.push(n);
        proof {
            assert(self.clauses@ == old(self).clauses@);
            assert(self.clause_seq() =~= old(self).clause_seq());
            assert(self.watch@ == old(self).watch@);
            let a = self.assignment@;
            let t = self.trail@;
            let lim = self.trail_lim@;
            assert forall|x: int, y: int| 0 <= x <= y < lim.len() implies #[trigger] lim[x] <= #[trigger] lim[y] by {
                if y < lim0.len() {
                    assert(lim0[x] <= lim0[y]);
                } else if x < lim0.len() {
                    assert(lim0[x] <= t.len());
                }
            }
            assert forall|v: int|
                0 <= v < self.num_vars && a[v] is Some && #[trigger] self.level@[v] > 0
                implies exists|j: int| lim[self.level@[v] - 1] <= j < t.len() && #[trigger] t[j].var == v by {
                assert(lim0[self.level@[v] - 1] == lim[self.level@[v] - 1]);
            }
            assert forall|x: int, j: int|
                #![trigger lim[x], t[j]]
                0 <= x < lim.len() && lim[x] <= j < t.len() implies is_true(a, t[j])
                && self.level@[t[j].var as int] > x by {
                assert(x < lim0.len());
                assert(lim0[x] == lim[x]);
            }
            if lim0.len() > 0 {
                assert(lim[0] == lim0[0]);
            }
        }
    }
}


impl Solver {
    /// Undoes every assignment above decision level `lvl`.
    fn cancel_until(&mut self, lvl: usize)
        requires
            old(self).wf(),
            old(self).trail_ok(),
        ensures
            final(self).wf(),
            final(self).trail_ok(),
            final(self).num_vars == old(self).num_vars,
            final(self).clauses == old(self).clauses,
            final(self).watch == old(self).watch,
            final(self).prop_queue == old(self).prop_queue,
            final(self).activity == old(self).activity,
            final(self).var_inc == old(self).var_inc,
            final(self).seed == old(self).seed,
            weaker(final(self).assignment@, old(self).assignment@),
            forall|v: int|
                0 <= v < old(self).num_vars && #[trigger] final(self).assignment@[v] is Some
                    ==> final(self).level@[v] == old(self).level@[v],
            lvl < old(self).trail_lim@.len() ==> final(self).trail_lim@ == old(self).trail_lim@.take(
                lvl as int,
            ),
            lvl >= old(self).trail_lim@.len() ==> final(self).trail_lim@ == old(self).trail_lim@,
            forall|v: int|
                0 <= v < old(self).num_vars && old(self).assignment@[v] is Some && #[trigger] old(
                    self,
                ).level@[v] <= lvl ==> final(self).assignment@[v] == old(self).assignment@[v],
            forall|v: int|
                0 <= v < old(self).num_vars && old(self).assignment@[v] is Some && #[trigger] old(
                    self,
                ).level@[v] > lvl ==> final(self).assignment@[v] is None,
    {
        let ghost a0 = self.assignment@;
        let ghost l0 = self.level@;
        let ghost t0 = self.trail@;
        let ghost lim0 = self.trail_lim@;
        let ghost n = self.num_vars as int;
        let ghost cs0 = self.clause_seq();
        let ghost w0 = self.watch@;
        while self.trail_lim.len() > lvl
            invariant
                self.clauses == old(self).clauses,
                self.watch == old(self).watch,
                self.prop_queue == old(self).prop_queue,
                self.activity == old(self).activity,
                self.var_inc == old(self).var_inc,
                self.seed == old(self).seed,
                lvl < lim0.len() ==> self.trail_lim@.len() >= lvl,
                lvl >= lim0.len() ==> self.trail_lim@.len() == lim0.len(),
                self.num_vars as int == n,
                self.clause_seq() == cs0,
                self.watch@ == w0,
                clauses_ok(n, cs0, watch_views(w0)),
                self.assignment@.len() == n,
                self.reason@.len() == n,
                self.level@.len() == n,
                forall|v: int|
                    0 <= v < n ==> match #[trigger] self.reason@[v] {
                        Some(ci) => ci < cs0.len(),
                        None => true,
                    },
                a0.len() == n,
                l0.len() == n,
                forall|j: int| 0 <= j < t0.len() ==> #[trigger] t0[j].var < n,
                self.trail_lim@.len() <= lim0.len(),
                self.trail_lim@ == lim0.take(self.trail_lim@.len() as int),
                self.trail@ == t0.take(self.trail@.len() as int),
                self.trail@.len() <= t0.len(),
                self.trail_lim@.len() < lim0.len() ==> self.trail@.len() == lim0[self.trail_lim@.len() as int],
                self.trail_lim@.len() == lim0.len() ==> self.trail@.len() == t0.len(),
                forall|j: int| self.trail@.len() <= j < t0.len() ==> #[trigger] self.assignment@[t0[j].var as int] is None,
                forall|v: int| 0 <= v < n && #[trigger] self.assignment@[v] is Some ==> self.assignment@[v] == a0[v] && self.level@[v] == l0[v],
                forall|v: int| 0 <= v < n && a0[v] is None ==> #[trigger] self.assignment@[v] is None,
                forall|v: int| 0 <= v < n && #[trigger] self.assignment@[v] is None ==> self.level@[v] == 0,
                forall|v: int|
                    0 <= v < n && a0[v] is Some && (forall|j: int| self.trail@.len() <= j < t0.len() ==> #[trigger] t0[j].var != v)
                        ==> #[trigger] self.assignment@[v] == a0[v],
                // facts of the old state
                forall|x: int, y: int| 0 <= x <= y < lim0.len() ==> #[trigger] lim0[x] <= #[trigger] lim0[y],
                forall|x: int| 0 <= x < lim0.len() ==> #[trigger] lim0[x] <= t0.len(),
            decreases self.trail_lim@.len(),
        {
            let start = self.trail_lim.pop().unwrap();
            let ghost ll = self.trail_lim@.len();
            proof {
                assert(self.trail_lim@ == lim0.take(self.trail_lim@.len() as int));
                assert(start == lim0[self.trail_lim@.len() as int]);
            }
            while self.trail.len() > start
                invariant
                    self.clauses == old(self).clauses,
                    self.watch == old(self).watch,
                    self.prop_queue == old(self).prop_queue,
                    self.activity == old(self).activity,
                    self.var_inc == old(self).var_inc,
                    self.seed == old(self).seed,
                    self.trail_lim@.len() == ll,
                    self.num_vars as int == n,
                    self.clause_seq() == cs0,
                    self.watch@ == w0,
                    clauses_ok(n, cs0, watch_views(w0)),
                    self.assignment@.len() == n,
                    self.reason@.len() == n,
                    self.level@.len() == n,
                    forall|v: int|
                        0 <= v < n ==> match #[trigger] self.reason@[v] {
                            Some(ci) => ci < cs0.len(),
                            None => true,
                        },
                    a0.len() == n,
                    l0.len() == n,
                    forall|j: int| 0 <= j < t0.len() ==> #[trigger] t0[j].var < n,
                    self.trail_lim@.len() < lim0.len(),
                    self.trail_lim@ == lim0.take(self.trail_lim@.len() as int),
                    start == lim0[self.trail_lim@.len() as int],
                    start <= self.trail@.len(),
                    self.trail@ == t0.take(self.trail@.len() as int),
                    self.trail@.len() <= t0.len(),
                    forall|j: int| self.trail@.len() <= j < t0.len() ==> #[trigger] self.assignment@[t0[j].var as int] is None,
                    forall|v: int| 0 <= v < n && #[trigger] self.assignment@[v] is Some ==> self.assignment@[v] == a0[v] && self.level@[v] == l0[v],
                    forall|v: int| 0 <= v < n && a0[v] is None ==> #[trigger] self.assignment@[v] is None,
                    forall|v: int| 0 <= v < n && #[trigger] self.assignment@[v] is None ==> self.level@[v] == 0,
                    forall|v: int|
                        0 <= v < n && a0[v] is Some && (forall|j: int| self.trail@.len() <= j < t0.len() ==> #[trigger] t0[j].var != v)
                            ==> #[trigger] self.assignment@[v] == a0[v],
                    forall|x: int, y: int| 0 <= x <= y < lim0.len() ==> #[trigger] lim0[x] <= #[trigger] lim0[y],
                    forall|x: int| 0 <= x < lim0.len() ==> #[trigger] lim0[x] <= t0.len(),
                decreases self.trail@.len(),
            {
                let ghost tl = self.trail@.len();
                let lit = self.trail.pop().unwrap();
                proof {
                    assert(lit == t0[tl - 1]);
                    assert(self.trail@ =~= t0.take(tl - 1));
                }
                self.assignment.set(lit.var, None);
                self.reason.set(lit.var, None);
                self.level.set(lit.var, 0);
                proof {
                    let len = self.trail@.len();
                    assert forall|j: int| len <= j < t0.len() implies #[trigger] self.assignment@[t0[j].var as int] is None by {
                        if j >= tl {
                        } else {
                            assert(j == tl - 1);
                        }
                    }
                    assert forall|v: int|
                        0 <= v < n && a0[v] is Some && (forall|j: int| len <= j < t0.len() ==> #[trigger] t0[j].var != v)
                        implies #[trigger] self.assignment@[v] == a0[v] by {
                        assert(t0[tl - 1].var != v);
                    }
                }
            }
        }
        proof {
            let a = self.assignment@;
            let t = self.trail@;
            let lim = self.trail_lim@;
            assert(self.clauses@ == old(self).clauses@);
            assert(self.clause_seq() =~= old(self).clause_seq());
            if lvl < lim0.len() {
                assert(lim.len() == lvl);
                assert(t.len() == lim0[lvl as int]);
                assert forall|v: int|
                    0 <= v < n && a0[v] is Some && #[trigger] l0[v] > lvl implies a[v] is None by {
                    let j = choose|j: int| lim0[l0[v] - 1] <= j < t0.len() && #[trigger] t0[j].var == v;
                    assert(lim0[lvl as int] <= lim0[l0[v] - 1]);
                    assert(a[t0[j].var as int] is None);
                }
                assert forall|v: int|
                    0 <= v < n && a0[v] is Some && #[trigger] l0[v] <= lvl implies a[v] == a0[v] by {
                    assert forall|j: int| t.len() <= j < t0.len() implies #[trigger] t0[j].var != v by {
                        assert(l0[t0[j].var as int] > lvl);
                    }
                }
                // the trail invariants of the shorter trail
                assert forall|x: int, j: int|
                    #![trigger lim[x], t[j]]
                    0 <= x < lim.len() && lim[x] <= j < t.len() implies is_true(a, t[j])
                    && self.level@[t[j].var as int] > x by {
                    assert(lim[x] == lim0[x]);
                    assert(t[j] == t0[j]);
                    assert(is_true(a0, t0[j]));
                    assert forall|j2: int| t.len() <= j2 < t0.len() implies #[trigger] t0[j2].var != t0[j].var by {
                        assert(lim0[0] <= lim0[x]);
                    }
                }
                assert forall|v: int|
                    0 <= v < n && a[v] is Some && #[trigger] self.level@[v] > 0
                    implies exists|j: int| lim[self.level@[v] - 1] <= j < t.len() && #[trigger] t[j].var == v by {
                    assert(self.level@[v] == l0[v]);
                    assert(a0[v] is Some);
                    if l0[v] > lvl {
                        assert(a[v] is None);
                    }
                    assert(lim[l0[v] - 1] == lim0[l0[v] - 1]);
                    let j = choose|j: int| lim0[l0[v] - 1] <= j < t0.len() && #[trigger] t0[j].var == v;
                    if j >= t.len() {
                        assert(a[t0[j].var as int] is None);
                    }
                    assert(t[j].var == v);
                }
                if lim.len() > 0 {
                    assert(lim[0] == lim0[0]);
                }
                assert forall|x: int, y: int| 0 <= x <= y < lim.len() implies #[trigger] lim[x] <= #[trigger] lim[y] by {
                    assert(lim[x] == lim0[x] && lim[y] == lim0[y]);
                }
                assert forall|x: int| 0 <= x < lim.len() implies #[trigger] lim[x] <= t.len() by {
                    assert(lim[x] == lim0[x]);
                    assert(lim0[x] <= lim0[lvl as int]);
                }
                assert forall|v: int| 0 <= v < n && a[v] is Some implies #[trigger] self.level@[v] <= lim.len() by {
                    if l0[v] > lvl {
                    }
                }
            } else {
                assert(lim =~= lim0);
                assert(t =~= t0);
                assert forall|v: int| 0 <= v < n && a0[v] is Some implies #[trigger] a[v] == a0[v] by {
                    assert forall|j: int| t.len() <= j < t0.len() implies #[trigger] t0[j].var != v by {}
                }
                assert(a =~= a0);
                assert(self.level@ =~= l0);
            }
        }
    }
}


/// Number of unassigned variables.
pub open spec fn count_open(a: Seq<Option<bool>>) -> nat
    decreases a.len(),
{
    if a.len() == 0 {
        0
    } else {
        count_open(a.drop_last()) + if a.last() is None {
            1nat
        } else {
            0nat
        }
    }
}

pub proof fn lemma_count_open_update(a: Seq<Option<bool>>, v: int, b: bool)
    requires
        0 <= v < a.len(),
        a[v] is None,
    ensures
        count_open(a.update(v, Some(b))) + 1 == count_open(a),
    decreases a.len(),
{
    let u = a.update(v, Some(b));
    if v == a.len() - 1 {
        assert(u.drop_last() =~= a.drop_last());
    } else {
        assert(u.drop_last() =~= a.drop_last().update(v, Some(b)));
        lemma_count_open_update(a.drop_last(), v, b);
    }
}

/// `b` extends `a`: every assignment of `a` is kept.
pub open spec fn extends(b: Seq<Option<bool>>, a: Seq<Option<bool>>) -> bool {
    b.len() == a.len() && forall|v: int| 0 <= v < a.len() && #[trigger] a[v] is Some ==> b[v] == a[v]
}

/// Making an unassigned literal true, and queueing it, keeps the
/// propagation invariant of a clause.
proof fn lemma_assign_keeps_ok(a: Seq<Option<bool>>, q: Seq<Literal>, c: Seq<Literal>, u: Literal)
    requires
        clause_ok(a, q, c),
        0 <= u.var < a.len(),
        forall|i: int| 0 <= i < c.len() ==> #[trigger] c[i].var < a.len(),
        forall|k: int| 0 <= k < q.len() ==> #[trigger] q[k].var < a.len(),
    ensures
        clause_ok(a.update(u.var as int, Some(!u.negated)), q.push(u), c),
{
    let b = a.update(u.var as int, Some(!u.negated));
    let q2 = q.push(u);
    if clause_sat(a, c) {
        let i = choose|i: int| 0 <= i < c.len() && #[trigger] is_true(a, c[i]);
        if c[i].var != u.var || c[i] == u {
            assert(is_true(b, c[i]));
        } else {
            assert(c[i] == negation(u));
            assert(q2[q.len() as int] == negation(c[i]));
            assert(is_true(b, q2[q.len() as int]));
        }
    } else if has_open(a, c) {
        let i = choose|i: int| 0 <= i < c.len() && #[trigger] lit_val(a, c[i]) is None;
        if c[i].var != u.var {
            assert(lit_val(b, c[i]) is None);
        } else if c[i] == u {
            assert(is_true(b, c[i]));
        } else {
            assert(c[i] == negation(u));
            assert(q2[q.len() as int] == negation(c[i]));
            assert(is_true(b, q2[q.len() as int]));
        }
    } else {
        let (i, k) = choose|i: int, k: int|
            0 <= i < c.len() && 0 <= k < q.len() && #[trigger] q[k] == negation(#[trigger] c[i])
                && is_true(a, q[k]);
        assert(q2[k] == q[k]);
        if q[k].var != u.var || q[k] == u {
            assert(is_true(b, q2[k]));
        } else {
            assert(c[i] == u);
            assert(is_true(b, c[i]));
        }
    }
}

impl Solver {
    fn clause_contains(&self, ci: usize, l: Literal) -> (r: bool)
        requires
            self.wf(),
            ci < self.clauses@.len(),
        ensures
            r == contains_lit(self.clause_seq()[ci as int], l),
    {
        let ghost c = self.clause_seq()[ci as int];
        let mut i: usize = 0;
        while i < self.clauses[ci].literals.len()
            invariant
                ci < self.clauses@.len(),
                c == self.clauses@[ci as int].literals@,
                c == self.clause_seq()[ci as int],
                i <= c.len(),
                forall|m: int| 0 <= m < i ==> c[m] != l,
            decreases c.len() - i,
        {
            if self.clauses[ci].literals[i] == l {
                return true;
            }
            i = i + 1;
        }
        false
    }

    fn open_literals(&self, ci: usize) -> (r: Vec<Literal>)
        requires
            self.wf(),
            ci < self.clauses@.len(),
        ensures
            r@ == open_lits(self.assignment@, self.clause_seq()[ci as int]),
            forall|x: int| 0 <= x < r@.len() ==> contains_lit(self.clause_seq()[ci as int], #[trigger] r@[x])
                && lit_val(self.assignment@, r@[x]) is None,
    {
        let ghost c = self.clause_seq()[ci as int];
        let mut out: Vec<Literal> = Vec::new();
        let mut i: usize = 0;
        while i < self.clauses[ci].literals.len()
            invariant
                self.wf(),
                ci < self.clauses@.len(),
                c == self.clauses@[ci as int].literals@,
                c == self.clause_seq()[ci as int],
                i <= c.len(),
                forall|x: int| 0 <= x < out@.len() ==> contains_lit(c, #[trigger] out@[x])
                    && lit_val(self.assignment@, out@[x]) is None,
                out@ == open_lits(self.assignment@, c.take(i as int)),
            decreases c.len() - i,
        {
            let l = self.clauses[ci].literals[i];
            assert(c[i as int] == l);
            assert(c[i as int].var < self.num_vars);
            assert(c.take(i + 1).drop_last() =~= c.take(i as int));
            assert(c.take(i + 1).last() == l);
            if self.lit_value(l).is_none() {
                out.push(l);
            }
            i = i + 1;
        }
        assert(c.take(c.len() as int) =~= c);
        out
    }

    fn copy_watch(&self, v: usize) -> (r: Vec<usize>)
        requires
            self.wf(),
            v < self.num_vars,
        ensures
            r@ == self.watch@[v as int]@,
    {
        let mut out: Vec<usize> = Vec::new();
        let mut i: usize = 0;
        while i < self.watch[v].len()
            invariant
                self.wf(),
                v < self.num_vars,
                i <= self.watch@[v as int]@.len(),
                out@ == self.watch@[v as int]@.take(i as int),
            decreases self.watch@[v as int]@.len() - i,
        {
            out.push(self.watch[v][i]);
            i = i + 1;
            assert(out@ =~= self.watch@[v as int]@.take(i as int));
        }
        assert(self.watch@[v as int]@.take(i as int) =~= self.watch@[v as int]@);
        out
    }

    /// Unit propagation: takes queued literals in order, and for each clause
    /// holding its negation either finds it satisfied, reports it as the
    /// conflict (all false), or, when one literal is left open, makes that
    /// literal true and queues it.
    fn propagate(&mut self) -> (r: Option<usize>)
        requires
            old(self).inv(),
        ensures
            final(self).wf(),
            final(self).trail_ok(),
            final(self).num_vars == old(self).num_vars,
            final(self).clauses == old(self).clauses,
            final(self).watch == old(self).watch,
            final(self).trail_lim == old(self).trail_lim,
            final(self).activity == old(self).activity,
            final(self).var_inc == old(self).var_inc,
            final(self).seed == old(self).seed,
            extends(final(self).assignment@, old(self).assignment@),
            forall|v: int|
                0 <= v < old(self).num_vars && #[trigger] old(self).assignment@[v] is Some
                    ==> final(self).level@[v] == old(self).level@[v],
            forall|k: int|
                0 <= k < final(self).prop_queue@.len() && is_true(final(self).assignment@, #[trigger] final(self).prop_queue@[k])
                    ==> final(self).level@[final(self).prop_queue@[k].var as int] == final(self).trail_lim@.len(),
            r is None ==> final(self).props_ok() && final(self).prop_queue@.len() == 0,
            r matches Some(ci) ==> ci < final(self).clauses@.len() && exists|p: Literal|
                #![trigger is_true(final(self).assignment@, p)]
                p.var < final(self).num_vars && is_true(final(self).assignment@, p)
                    && final(self).level@[p.var as int] == final(self).trail_lim@.len()
                    && forall|k: int| 0 <= k < final(self).clause_seq().len() ==> clause_ok(
                        final(self).assignment@,
                        final(self).prop_queue@,
                        #[trigger] final(self).clause_seq()[k],
                    ) || contains_lit(final(self).clause_seq()[k], negation(p)),
    {
        let ghost a_orig = self.assignment@;
        let ghost l_orig = self.level@;
        loop
            invariant
                self.wf(),
                self.trail_ok(),
                self.props_ok(),
                self.num_vars == old(self).num_vars,
                self.clauses == old(self).clauses,
                self.watch == old(self).watch,
                self.trail_lim == old(self).trail_lim,
                self.activity == old(self).activity,
                self.var_inc == old(self).var_inc,
                self.seed == old(self).seed,
                a_orig == old(self).assignment@,
                l_orig == old(self).level@,
                extends(self.assignment@, a_orig),
                forall|v: int| 0 <= v < self.num_vars && #[trigger] a_orig[v] is Some ==> self.level@[v] == l_orig[v],
            ensures
                self.wf(),
                self.trail_ok(),
                self.props_ok(),
                self.prop_queue@.len() == 0,
                self.num_vars == old(self).num_vars,
                self.clauses == old(self).clauses,
                self.watch == old(self).watch,
                self.trail_lim == old(self).trail_lim,
                self.activity == old(self).activity,
                self.var_inc == old(self).var_inc,
                self.seed == old(self).seed,
                extends(self.assignment@, a_orig),
                forall|v: int| 0 <= v < self.num_vars && #[trigger] a_orig[v] is Some ==> self.level@[v] == l_orig[v],
            decreases count_open(self.assignment@), self.prop_queue@.len(),
        {
            let ghost q0 = self.prop_queue@;
            let lit = match self.prop_queue.pop_front() {
                Some(l) => l,
                None => {
                    break;
                },
            };
            let ghost q1 = self.prop_queue@;
            let ghost a1 = self.assignment@;
            let ghost cs = self.clause_seq();
            let ghost c_start = count_open(a1);
            assert(lit == q0[0]);
            assert(lit.var < self.num_vars);
            let neg = lit.negate();
            let var = lit.var;
            let ids = self.copy_watch(var);
            proof {
                assert forall|k: int| 0 <= k < cs.len() implies clause_ok(a1, q1, #[trigger] cs[k]) || (
                contains_lit(cs[k], neg) && is_true(a1, lit) && exists|m: int| 0 <= m < ids@.len() && ids@[m] == k) by {
                    assert(clause_ok(a1, q0, cs[k]));
                    if !clause_sat(a1, cs[k]) && !has_open(a1, cs[k]) && !has_pending(a1, q1, cs[k]) {
                        let (i, kk) = choose|i: int, kk: int|
                            0 <= i < cs[k].len() && 0 <= kk < q0.len() && #[trigger] q0[kk] == negation(#[trigger] cs[k][i])
                                && is_true(a1, q0[kk]);
                        if kk > 0 {
                            assert(q1[kk - 1] == q0[kk]);
                        }
                        assert(kk == 0);
                        assert(cs[k][i] == neg);
                        assert(listed(watch_views(self.watch@)[cs[k][i].var as int], k));
                    }
                }
                assert(is_true(a1, lit) ==> self.level@[lit.var as int] == self.trail_lim@.len());
            }
            let mut j: usize = 0;
            while j < ids.len()
                invariant
                    self.wf(),
                    self.trail_ok(),
                    self.num_vars == old(self).num_vars,
                    self.clauses == old(self).clauses,
                    self.watch == old(self).watch,
                    self.trail_lim == old(self).trail_lim,
                    self.activity == old(self).activity,
                    self.var_inc == old(self).var_inc,
                    self.seed == old(self).seed,
                    a_orig == old(self).assignment@,
                    l_orig == old(self).level@,
                    extends(self.assignment@, a_orig),
                    extends(self.assignment@, a1),
                    forall|v: int| 0 <= v < self.num_vars && #[trigger] a_orig[v] is Some ==> self.level@[v] == l_orig[v],
                    cs == self.clause_seq(),
                    neg == negation(lit),
                    lit.var < self.num_vars,
                    j <= ids@.len(),
                    ids@ == self.watch@[var as int]@,
                    var == lit.var,
                    is_true(a1, lit) ==> self.level@[lit.var as int] == self.trail_lim@.len(),
                    forall|v: int| 0 <= v < self.num_vars && a1[v] is None && #[trigger] self.assignment@[v] is Some
                        ==> self.level@[v] == self.trail_lim@.len(),
                    forall|k: int| 0 <= k < cs.len() ==> clause_ok(self.assignment@, self.prop_queue@, #[trigger] cs[k]) || (
                        contains_lit(cs[k], neg) && is_true(self.assignment@, lit) && exists|m: int| j <= m < ids@.len() && ids@[m] == k),
                    forall|k: int|
                        0 <= k < self.prop_queue@.len() && is_true(self.assignment@, #[trigger] self.prop_queue@[k])
                            ==> self.level@[self.prop_queue@[k].var as int] == self.trail_lim@.len(),
                    count_open(self.assignment@) + self.prop_queue@.len() == c_start + q1.len(),
                    self.prop_queue@.len() >= q1.len(),
                    c_start == count_open(a1),
                    count_open(a1) + q0.len() == c_start + q1.len() + 1,
                decreases ids@.len() - j,
            {
                let ci = ids[j];
                assert(watch_views(self.watch@)[var as int] == ids@);
                assert(watch_views(self.watch@)[var as int][j as int] < cs.len());
                assert(ci < cs.len());
                let ghost a2 = self.assignment@;
                let ghost qq = self.prop_queue@;
                if !self.clause_contains(ci, neg) {
                    proof {
                        assert forall|k: int| 0 <= k < cs.len() implies clause_ok(a2, qq, #[trigger] cs[k]) || (
                        contains_lit(cs[k], neg) && is_true(a2, lit) && exists|m: int| j + 1 <= m < ids@.len() && ids@[m] == k) by {
                            if !clause_ok(a2, qq, cs[k]) {
                                let m = choose|m: int| j <= m < ids@.len() && ids@[m] == k;
                                assert(m != j);
                            }
                        }
                    }
                    j = j + 1;
                    continue;
                }
                match self.clause_status(ci) {
                    Some(true) => {
                        proof {
                            assert forall|k: int| 0 <= k < cs.len() implies clause_ok(a2, qq, #[trigger] cs[k]) || (
                            contains_lit(cs[k], neg) && is_true(a2, lit) && exists|m: int| j + 1 <= m < ids@.len() && ids@[m] == k) by {
                                if !clause_ok(a2, qq, cs[k]) {
                                    let m = choose|m: int| j <= m < ids@.len() && ids@[m] == k;
                                    assert(m != j);
                                }
                            }
                        }
                    },
                    Some(false) => {
                        proof {
                            let c = cs[ci as int];
                            let i = choose|i: int| 0 <= i < c.len() && c[i] == neg;
                            assert(lit_val(a2, c[i]) is Some);
                            assert(!is_true(a2, c[i]));
                            assert(is_true(a2, lit));
                            assert(self.level@[lit.var as int] == self.trail_lim@.len());
                            assert forall|k: int| 0 <= k < self.clause_seq().len() implies clause_ok(
                                self.assignment@,
                                self.prop_queue@,
                                #[trigger] self.clause_seq()[k],
                            ) || contains_lit(self.clause_seq()[k], negation(lit)) by {}
                        }
                        return Some(ci);
                    },
                    None => {
                        let open = self.open_literals(ci);
                        if open.len() == 1 {
                            let u = open[0];
                            assert(contains_lit(cs[ci as int], u));
                            assert(u.var < self.num_vars);
                            self.assign(u, Some(ci));
                            self.prop_queue.push_back(u);
                            proof {
                                let a3 = self.assignment@;
                                let q3 = self.prop_queue@;
                                lemma_count_open_update(a2, u.var as int, !u.negated);
                                assert(a2[lit.var as int] is Some ==> lit.var != u.var);
                                assert forall|k: int| 0 <= k < cs.len() implies clause_ok(a3, q3, #[trigger] cs[k]) || (
                                contains_lit(cs[k], neg) && is_true(a3, lit) && exists|m: int| j + 1 <= m < ids@.len() && ids@[m] == k) by {
                                    assert(forall|i: int| 0 <= i < cs[k].len() ==> #[trigger] cs[k][i].var < self.num_vars);
                                    if k == ci {
                                        let i = choose|i: int| 0 <= i < cs[k].len() && cs[k][i] == u;
                                        assert(is_true(a3, cs[k][i]));
                                    } else if clause_ok(a2, qq, cs[k]) {
                                        lemma_assign_keeps_ok(a2, qq, cs[k], u);
                                    } else {
                                        let m = choose|m: int| j <= m < ids@.len() && ids@[m] == k;
                                        assert(m != j);
                                        assert(is_true(a3, lit));
                                    }
                                }
                                assert forall|k: int|
                                    0 <= k < q3.len() && is_true(a3, #[trigger] q3[k])
                                    implies self.level@[q3[k].var as int] == self.trail_lim@.len() by {
                                    if k < qq.len() {
                                        assert(q3[k] == qq[k]);
                                        if qq[k].var == u.var {
                                        } else {
                                            assert(is_true(a2, qq[k]));
                                        }
                                    }
                                }
                                assert(is_true(a1, lit) ==> is_true(a2, lit));
                            }
                        } else {
                            proof {
                                assert forall|k: int| 0 <= k < cs.len() implies clause_ok(a2, qq, #[trigger] cs[k]) || (
                                contains_lit(cs[k], neg) && is_true(a2, lit) && exists|m: int| j + 1 <= m < ids@.len() && ids@[m] == k) by {
                                    if !clause_ok(a2, qq, cs[k]) {
                                        let m = choose|m: int| j <= m < ids@.len() && ids@[m] == k;
                                        assert(m != j);
                                    }
                                }
                            }
                        }
                    },
                }
                j = j + 1;
            }
            proof {
                assert forall|k: int| 0 <= k < self.clause_seq().len() implies #[trigger] clause_ok(
                    self.assignment@, self.prop_queue@, self.clause_seq()[k]) by {
                    assert(cs[k] == self.clause_seq()[k]);
                }
            }
        }
        None
    }
}


/// Number of `true` entries.
pub open spec fn count_marked(s: Seq<bool>) -> nat
    decreases s.len(),
{
    if s.len() == 0 {
        0
    } else {
        count_marked(s.drop_last()) + if s.last() {
            1nat
        } else {
            0nat
        }
    }
}

proof fn lemma_count_marked_bound(s: Seq<bool>)
    ensures
        count_marked(s) <= s.len(),
    decreases s.len(),
{
    if s.len() > 0 {
        lemma_count_marked_bound(s.drop_last());
    }
}

proof fn lemma_count_marked_set(s: Seq<bool>, v: int, b: bool)
    requires
        0 <= v < s.len(),
    ensures
        count_marked(s.update(v, b)) + (if s[v] {
            1int
        } else {
            0int
        }) == count_marked(s) + (if b {
            1int
        } else {
            0int
        }),
    decreases s.len(),
{
    let u = s.update(v, b);
    if v == s.len() - 1 {
        assert(u.drop_last() =~= s.drop_last());
    } else {
        assert(u.drop_last() =~= s.drop_last().update(v, b));
        lemma_count_marked_set(s.drop_last(), v, b);
    }
}

impl Solver {
    /// The unassigned variable of highest activity; ties go to the larger
    /// key `v * 0x9E3779B97F4A7C15 + seed` (wrapping), so a seed of 0 keeps
    /// a fixed order and other seeds vary it.
    fn pick_var(&self) -> (r: Option<usize>)
        requires
            self.wf(),
        ensures
            match r {
                Some(v) => v < self.num_vars && self.assignment@[v as int] is None,
                None => forall|v: int| 0 <= v < self.num_vars ==> #[trigger] self.assignment@[v] is Some,
            },
    {
        let mut best_var: Option<usize> = None;
        let mut best_act: u64 = 0;
        let mut best_key: u64 = 0;
        let mut v: usize = 0;
        while v < self.num_vars
            invariant
                self.wf(),
                v <= self.num_vars,
                match best_var {
                    Some(b) => b < self.num_vars && self.assignment@[b as int] is None,
                    None => forall|w: int| 0 <= w < v ==> #[trigger] self.assignment@[w] is Some,
                },
            decreases self.num_vars - v,
        {
            if self.assignment[v].is_none() {
                let act = self.activity[v];
                let key = (v as u64).wrapping_mul(0x9E37_79B9_7F4A_7C15).wrapping_add(self.seed);
                let better = match best_var {
                    None => true,
                    Some(_) => act > best_act || (act == best_act && key > best_key),
                };
                if better {
                    best_var = Some(v);
                    best_act = act;
                    best_key = key;
                }
            }
            v = v + 1;
        }
        best_var
    }

    fn scale_activities(&mut self)
        requires
            old(self).shape_ok(),
            forall|v: int| 0 <= v < old(self).num_vars ==> #[trigger] old(self).activity@[v] <= 2 * ACTIVITY_LIMIT,
            old(self).var_inc <= 2 * ACTIVITY_LIMIT,
        ensures
            final(self).activity@ == scaled_activity(old(self).activity@),
            final(self).var_inc == scaled_inc(old(self).var_inc),
            final(self).wf(),
            final(self).num_vars == old(self).num_vars,
            final(self).clauses == old(self).clauses,
            final(self).watch == old(self).watch,
            final(self).assignment == old(self).assignment,
            final(self).reason == old(self).reason,
            final(self).level == old(self).level,
            final(self).trail == old(self).trail,
            final(self).trail_lim == old(self).trail_lim,
            final(self).prop_queue == old(self).prop_queue,
            final(self).seed == old(self).seed,
    {
        let mut i: usize = 0;
        while i < self.activity.len()
            invariant
                old(self).shape_ok(),
                self.activity@.len() == old(self).activity@.len(),
                self.num_vars == old(self).num_vars,
                self.clauses == old(self).clauses,
                self.watch == old(self).watch,
                self.assignment == old(self).assignment,
                self.reason == old(self).reason,
                self.level == old(self).level,
                self.trail == old(self).trail,
                self.trail_lim == old(self).trail_lim,
                self.prop_queue == old(self).prop_queue,
                self.seed == old(self).seed,
                self.var_inc == old(self).var_inc,
                i <= self.activity@.len(),
                forall|v: int| 0 <= v < i ==> #[trigger] self.activity@[v] <= ACTIVITY_LIMIT,
                forall|v: int| i <= v < self.activity@.len() ==> #[trigger] self.activity@[v] <= 2 * ACTIVITY_LIMIT,
                forall|v: int| 0 <= v < i ==> #[trigger] self.activity@[v] == old(self).activity@[v] / 0x1_0000_0000,
                forall|v: int| i <= v < self.activity@.len() ==> #[trigger] self.activity@[v] == old(self).activity@[v],
            decreases self.activity@.len() - i,
        {
            let a = self.activity[i] / 0x1_0000_0000;
            self.activity.set(i, a);
            i = i + 1;
        }
        let inc = self.var_inc / 0x1_0000_0000;
        self.var_inc = if inc == 0 {
            1
        } else {
            inc
        };
        proof {
            assert(self.clauses@ == old(self).clauses@);
            assert(self.clause_seq() =~= old(self).clause_seq());
            assert(self.watch@ == old(self).watch@);
            assert(self.activity@ =~= scaled_activity(old(self).activity@));
        }
    }

    /// Raises the activity of `v`; activities are scaled down together once
    /// one grows past the limit.
    fn var_bump_activity(&mut self, v: usize)
        requires
            old(self).wf(),
            v < old(self).num_vars,
        ensures
            ({
                let a = old(self).activity@[v as int] + old(self).var_inc;
                if a > ACTIVITY_LIMIT {
                    &&& final(self).activity@ == scaled_activity(old(self).activity@.update(v as int, a as u64))
                    &&& final(self).var_inc == scaled_inc(old(self).var_inc)
                } else {
                    &&& final(self).activity@ == old(self).activity@.update(v as int, a as u64)
                    &&& final(self).var_inc == old(self).var_inc
                }
            }),
            final(self).wf(),
            final(self).num_vars == old(self).num_vars,
            final(self).clauses == old(self).clauses,
            final(self).watch == old(self).watch,
            final(self).assignment == old(self).assignment,
            final(self).reason == old(self).reason,
            final(self).level == old(self).level,
            final(self).trail == old(self).trail,
            final(self).trail_lim == old(self).trail_lim,
            final(self).prop_queue == old(self).prop_queue,
            final(self).seed == old(self).seed,
    {
        let a = self.activity[v] + self.var_inc;
        self.activity.set(v, a);
        if a > ACTIVITY_LIMIT {
            self.scale_activities();
        } else {
            proof {
                assert(self.clauses@ == old(self).clauses@);
                assert(self.clause_seq() =~= old(self).clause_seq());
                assert(self.watch@ == old(self).watch@);
            }
        }
    }

    /// Makes later bumps weigh more (by a twentieth... nineteenth of the
    /// current increment, about the factor `1 / 0.95`).
    fn var_decay_activity(&mut self)
        requires
            old(self).wf(),
        ensures
            ({
                let inc = old(self).var_inc + old(self).var_inc / 19;
                if inc > ACTIVITY_LIMIT {
                    &&& final(self).activity@ == scaled_activity(old(self).activity@)
                    &&& final(self).var_inc == scaled_inc(inc as u64)
                } else {
                    &&& final(self).activity@ == old(self).activity@
                    &&& final(self).var_inc == inc
                }
            }),
            final(self).wf(),
            final(self).num_vars == old(self).num_vars,
            final(self).clauses == old(self).clauses,
            final(self).watch == old(self).watch,
            final(self).assignment == old(self).assignment,
            final(self).reason == old(self).reason,
            final(self).level == old(self).level,
            final(self).trail == old(self).trail,
            final(self).trail_lim == old(self).trail_lim,
            final(self).prop_queue == old(self).prop_queue,
            final(self).seed == old(self).seed,
    {
        let inc = self.var_inc + self.var_inc / 19;
        self.var_inc = inc;
        if inc > ACTIVITY_LIMIT {
            self.scale_activities();
        } else {
            proof {
                assert(self.clauses@ == old(self).clauses@);
                assert(self.clause_seq() =~= old(self).clause_seq());
                assert(self.watch@ == old(self).watch@);
            }
        }
    }
}


impl Solver {
    /// Conflict analysis: resolves the conflicting clause backwards along the
    /// trail through the reasons of the current level's literals until a
    /// decision, or a point where one current-level literal is left, is
    /// reached. Returns the learnt clause (the negated asserting literal
    /// first, then the lower-level literals met, all false now) and the
    /// level to backjump to: the highest level among those lower literals.
    fn analyze(&self, confl: usize) -> (r: Option<(Vec<Literal>, usize)>)
        requires
            self.wf(),
            self.trail_ok(),
            confl < self.clauses@.len(),
            self.trail_lim@.len() >= 1,
        ensures
            r matches Some((learnt, bt)) ==> {
                &&& learnt@.len() >= 1
                &&& bt < self.trail_lim@.len()
                &&& forall|i: int| 0 <= i < learnt@.len() ==> #[trigger] learnt@[i].var < self.num_vars
                &&& self.assignment@[learnt@[0].var as int] is Some ==> self.level@[learnt@[0].var as int] > bt
            },
    {
        let n = self.num_vars;
        let dl = self.trail_lim.len();
        let ghost cs = self.clause_seq();
        proof {
            assert(cs[confl as int].len() > 0);
            assert(cs[confl as int][0].var < n);
        }
        let mut seen: Vec<bool> = Vec::new();
        let mut k: usize = 0;
        while k < n
            invariant
                k <= n,
                seen@.len() == k,
                forall|v: int| 0 <= v < k ==> !#[trigger] seen@[v],
            decreases n - k,
        {
            seen.push(false);
            k = k + 1;
        }
        proof {
            assert(count_marked(seen@) == 0) by {
                lemma_count_none_marked(seen@);
            }
        }
        let mut out_learnt: Vec<Literal> = Vec::new();
        out_learnt.push(Literal::pos(0));
        let mut path_c: usize = 0;
        let mut index: usize = self.trail.len();
        let mut c: usize = confl;
        let mut p = Literal::pos(0);
        loop
            invariant_except_break
                path_c <= count_marked(seen@),
            invariant
                self.wf(),
                self.trail_ok(),
                n == self.num_vars,
                dl == self.trail_lim@.len(),
                dl >= 1,
                n >= 1,
                cs == self.clause_seq(),
                seen@.len() == n,
                c < self.clauses@.len(),
                index <= self.trail@.len(),
                out_learnt@.len() >= 1,
                forall|i: int| 0 <= i < out_learnt@.len() ==> #[trigger] out_learnt@[i].var < n,
                forall|i: int| 1 <= i < out_learnt@.len() ==> #[trigger] self.level@[out_learnt@[i].var as int] < dl,
            ensures
                out_learnt@.len() >= 1,
                forall|i: int| 0 <= i < out_learnt@.len() ==> #[trigger] out_learnt@[i].var < n,
                forall|i: int| 1 <= i < out_learnt@.len() ==> #[trigger] self.level@[out_learnt@[i].var as int] < dl,
                p.var < n,
                self.level@[p.var as int] >= dl,
            decreases index,
        {
            let mut i: usize = 0;
            while i < self.clauses[c].literals.len()
                invariant
                    self.wf(),
                    n == self.num_vars,
                    dl == self.trail_lim@.len(),
                    cs == self.clause_seq(),
                    c < self.clauses@.len(),
                    i <= cs[c as int].len(),
                    cs[c as int] == self.clauses@[c as int].literals@,
                    seen@.len() == n,
                    out_learnt@.len() >= 1,
                    forall|i: int| 0 <= i < out_learnt@.len() ==> #[trigger] out_learnt@[i].var < n,
                    forall|i: int| 1 <= i < out_learnt@.len() ==> #[trigger] self.level@[out_learnt@[i].var as int] < dl,
                    path_c <= count_marked(seen@),
                decreases cs[c as int].len() - i,
            {
                let lit = self.clauses[c].literals[i];
                assert(lit == cs[c as int][i as int]);
                let v = lit.var;
                if !seen[v] && self.level[v] > 0 {
                    proof {
                        lemma_count_marked_set(seen@, v as int, true);
                    }
                    seen.set(v, true);
                    proof {
                        lemma_count_marked_bound(seen@);
                    }
                    if self.level[v] >= dl {
                        path_c = path_c + 1;
                    } else {
                        out_learnt.push(lit);
                    }
                }
                i = i + 1;
            }
            let ghost start = index;
            let mut found = false;
            while index > 0
                invariant_except_break
                    !found,
                invariant
                    index <= start,
                    start <= self.trail@.len(),
                    found ==> index < start && index < self.trail@.len(),
                    found ==> seen@[self.trail@[index as int].var as int] && self.level@[self.trail@[index as int].var as int] >= dl,
                    seen@.len() == n,
                    self.wf(),
                    n == self.num_vars,
                ensures
                    found ==> index < start && index < self.trail@.len(),
                    found ==> seen@[self.trail@[index as int].var as int] && self.level@[self.trail@[index as int].var as int] >= dl,
                decreases index,
            {
                index = index - 1;
                let tl = self.trail[index];
                if seen[tl.var] && self.level[tl.var] >= dl {
                    found = true;
                    break;
                }
            }
            if !found {
                // Unreachable: the conflicting clause and every reason hold a
                // literal of the current level that sits lower on the trail.
                return None;
            }
            let cur = self.trail[index];
            proof {
                lemma_count_marked_set(seen@, cur.var as int, false);
            }
            seen.set(cur.var, false);
            match self.reason[cur.var] {
                Some(r) => {
                    c = r;
                    if path_c <= 1 {
                        p = cur;
                        break;
                    }
                    path_c = path_c - 1;
                },
                None => {
                    p = cur;
                    break;
                },
            }
        }
        out_learnt.set(0, p.negate());
        let mut btlevel: usize = 0;
        let mut j: usize = 1;
        while j < out_learnt.len()
            invariant
                self.wf(),
                1 <= j <= out_learnt@.len(),
                dl == self.trail_lim@.len(),
                n == self.num_vars,
                btlevel < dl,
                forall|i: int| 0 <= i < out_learnt@.len() ==> #[trigger] out_learnt@[i].var < n,
                forall|i: int| 1 <= i < out_learnt@.len() ==> #[trigger] self.level@[out_learnt@[i].var as int] < dl,
            decreases out_learnt@.len() - j,
        {
            let lv = self.level[out_learnt[j].var];
            if lv > btlevel {
                btlevel = lv;
            }
            j = j + 1;
        }
        Some((out_learnt, btlevel))
    }
}

proof fn lemma_count_none_marked(s: Seq<bool>)
    requires
        forall|v: int| 0 <= v < s.len() ==> !#[trigger] s[v],
    ensures
        count_marked(s) == 0,
    decreases s.len(),
{
    if s.len() > 0 {
        lemma_count_none_marked(s.drop_last());
    }
}


/// With nothing queued and every variable assigned, the propagation
/// invariant means every clause is satisfied.
proof fn lemma_complete_satisfies(a: Seq<Option<bool>>, q: Seq<Literal>, cs: Seq<Seq<Literal>>)
    requires
        q.len() == 0,
        forall|k: int| 0 <= k < cs.len() ==> #[trigger] clause_ok(a, q, cs[k]),
        forall|v: int| 0 <= v < a.len() ==> #[trigger] a[v] is Some,
        forall|k: int, i: int| 0 <= k < cs.len() && 0 <= i < cs[k].len() ==> #[trigger] cs[k][i].var < a.len(),
    ensures
        satisfies(a, cs),
{
    assert forall|k: int| 0 <= k < cs.len() implies #[trigger] clause_sat(a, cs[k]) by {
        assert(clause_ok(a, q, cs[k]));
        if has_open(a, cs[k]) {
            let i = choose|i: int| 0 <= i < cs[k].len() && #[trigger] lit_val(a, cs[k][i]) is None;
            assert(a[cs[k][i].var as int] is Some);
        }
    }
}

impl Solver {
    /// Adds a clause and lists it in the watch lists of its variables.
    fn add_clause(&mut self, lits: Vec<Literal>) -> (r: usize)
        requires
            old(self).wf(),
            lits@.len() > 0,
            forall|i: int| 0 <= i < lits@.len() ==> #[trigger] lits@[i].var < old(self).num_vars,
        ensures
            final(self).wf(),
            r == old(self).clauses@.len(),
            final(self).clause_seq() == old(self).clause_seq().push(lits@),
            final(self).num_vars == old(self).num_vars,
            final(self).assignment == old(self).assignment,
            final(self).reason == old(self).reason,
            final(self).level == old(self).level,
            final(self).trail == old(self).trail,
            final(self).trail_lim == old(self).trail_lim,
            final(self).prop_queue == old(self).prop_queue,
            final(self).activity == old(self).activity,
            final(self).var_inc == old(self).var_inc,
            final(self).seed == old(self).seed,
    {
        let ghost cs0 = self.clause_seq();
        let ghost w0 = self.watch@;
        let ghost l = lits@;
        let ci = self.clauses.len();
        self.clauses.push(Clause { literals: lits });
        proof {
            assert(self.clause_seq() =~= cs0.push(l));
        }
        let ghost cs = self.clause_seq();
        let n = self.num_vars;
        proof {
            assert forall|v: int, m: int| 0 <= v < n && 0 <= m < self.watch@[v]@.len() implies #[trigger] self.watch@[v]@[m] < cs.len() by {
                assert(watch_views(w0)[v] == w0[v]@);
                assert(watch_views(w0)[v][m] < cs0.len());
            }
        }
        let mut i: usize = 0;
        while i < self.clauses[ci].literals.len()
            invariant
                n == self.num_vars,
                n == old(self).num_vars,
                ci == cs0.len(),
                self.clauses@.len() == ci + 1,
                cs == cs0.push(l),
                cs == self.clause_seq(),
                self.clauses@[ci as int].literals@ == l,
                i <= l.len(),
                self.watch@.len() == n,
                clauses_ok(n as int, cs0, watch_views(w0)),
                forall|j: int| 0 <= j < l.len() ==> #[trigger] l[j].var < n,
                forall|v: int| 0 <= v < n ==> #[trigger] self.watch@[v]@.len() >= w0[v]@.len(),
                forall|v: int, m: int| 0 <= v < n && 0 <= m < w0[v]@.len() ==> #[trigger] self.watch@[v]@[m] == w0[v]@[m],
                forall|v: int, m: int| 0 <= v < n && 0 <= m < self.watch@[v]@.len() ==> #[trigger] self.watch@[v]@[m] < cs.len(),
                forall|j: int| 0 <= j < i ==> listed(self.watch@[#[trigger] l[j].var as int]@, ci as int),
                self.assignment == old(self).assignment,
                self.reason == old(self).reason,
                self.level == old(self).level,
                self.trail == old(self).trail,
                self.trail_lim == old(self).trail_lim,
                self.prop_queue == old(self).prop_queue,
                self.activity == old(self).activity,
                self.var_inc == old(self).var_inc,
                self.seed == old(self).seed,
            decreases l.len() - i,
        {
            let lit = self.clauses[ci].literals[i];
            assert(lit == l[i as int]);
            let v = lit.var;
            let mut w = copy_vec(&self.watch[v]);
            let ghost wv = w@;
            w.push(ci);
            let ghost before = self.watch@;
            self.watch.set(v, w);
            proof {
                assert(self.watch@[v as int]@ == wv.push(ci));
                assert forall|j: int| 0 <= j <= i implies listed(self.watch@[#[trigger] l[j].var as int]@, ci as int) by {
                    if j == i {
                        assert(self.watch@[v as int]@[wv.len() as int] == ci);
                    } else {
                        assert(listed(before[l[j].var as int]@, ci as int));
                        let m = choose|m: int| 0 <= m < before[l[j].var as int]@.len() && before[l[j].var as int]@[m] == ci;
                        if l[j].var == v {
                            assert(self.watch@[v as int]@[m] == ci);
                        } else {
                            assert(self.watch@[l[j].var as int] == before[l[j].var as int]);
                        }
                    }
                }
            }
            i = i + 1;
        }
        proof {
            assert forall|k: int, j: int|
                #![trigger cs[k][j]]
                0 <= k < cs.len() && 0 <= j < cs[k].len() implies listed(self.watch@[cs[k][j].var as int]@, k) by {
                if k < cs0.len() {
                    assert(cs[k] == cs0[k]);
                    assert(listed(watch_views(w0)[cs0[k][j].var as int], k));
                    let m = choose|m: int| 0 <= m < w0[cs0[k][j].var as int]@.len() && w0[cs0[k][j].var as int]@[m] == k;
                    assert(self.watch@[cs0[k][j].var as int]@[m] == k);
                } else {
                    assert(cs[k] == l);
                    assert(listed(self.watch@[l[j].var as int]@, ci as int));
                }
            }
            assert(clauses_ok(n as int, cs, watch_views(self.watch@)));
        }
        ci
    }

    /// A solver for `clauses` over `num_vars` variables, nothing assigned.
    pub fn new(num_vars: usize, clauses: Vec<Clause>) -> (r: Solver)
        requires
            forall|k: int| 0 <= k < clauses@.len() ==> #[trigger] clauses@[k].literals@.len() > 0,
            forall|k: int, i: int| 0 <= k < clauses@.len() && 0 <= i < clauses@[k].literals@.len()
                ==> #[trigger] clauses@[k].literals@[i].var < num_vars,
        ensures
            r.inv(),
            r.vars() == num_vars,
            r.clause_seq() == literal_seqs(clauses@),
            r.decision_level() == 0,
            forall|v: int| 0 <= v < num_vars ==> #[trigger] r.model()[v] is None,
            r.untouched(),
    {
        let mut assignment: Vec<Option<bool>> = Vec::new();
        let mut reason: Vec<Option<usize>> = Vec::new();
        let mut level: Vec<usize> = Vec::new();
        let mut watch: Vec<Vec<usize>> = Vec::new();
        let mut activity: Vec<u64> = Vec::new();
        let mut v: usize = 0;
        while v < num_vars
            invariant
                v <= num_vars,
                assignment@.len() == v,
                reason@.len() == v,
                level@.len() == v,
                watch@.len() == v,
                activity@.len() == v,
                forall|w: int| 0 <= w < v ==> #[trigger] assignment@[w] is None,
                forall|w: int| 0 <= w < v ==> #[trigger] reason@[w] is None,
                forall|w: int| 0 <= w < v ==> #[trigger] level@[w] == 0,
                forall|w: int| 0 <= w < v ==> #[trigger] watch@[w]@.len() == 0,
                forall|w: int| 0 <= w < v ==> #[trigger] activity@[w] == 0,
            decreases num_vars - v,
        {
            assignment.push(None);
            reason.push(None);
            level.push(0);
            watch.push(Vec::new());
            activity.push(0);
            v = v + 1;
        }
        let mut s = Solver {
            num_vars,
            clauses: Vec::new(),
            assignment,
            reason,
            level,
            trail: Vec::new(),
            trail_lim: Vec::new(),
            watch,
            prop_queue: VecDeque::new(),
            activity,
            var_inc: 1,
            seed: 0,
        };
        proof {
            assert(s.clause_seq() =~= Seq::<Seq<Literal>>::empty());
        }
        let ghost all = literal_seqs(clauses@);
        let mut k: usize = 0;
        while k < clauses.len()
            invariant
                s.wf(),
                s.num_vars == num_vars,
                k <= clauses@.len(),
                all == literal_seqs(clauses@),
                s.clause_seq() == all.take(k as int),
                forall|w: int| 0 <= w < num_vars ==> #[trigger] s.assignment@[w] is None,
                forall|w: int| 0 <= w < num_vars ==> #[trigger] s.level@[w] == 0,
                s.trail@.len() == 0,
                s.trail_lim@.len() == 0,
                s.prop_queue@.len() == 0,
                forall|kk: int| 0 <= kk < clauses@.len() ==> #[trigger] clauses@[kk].literals@.len() > 0,
                forall|kk: int, i: int| 0 <= kk < clauses@.len() && 0 <= i < clauses@[kk].literals@.len()
                    ==> #[trigger] clauses@[kk].literals@[i].var < num_vars,
            decreases clauses@.len() - k,
        {
            let lits = copy_vec(&clauses[k].literals);
            s.add_clause(lits);
            proof {
                assert(s.clause_seq() =~= all.take(k + 1));
            }
            k = k + 1;
        }
        proof {
            assert(all.take(k as int) =~= all);
            let cs = s.clause_seq();
            assert forall|kk: int| 0 <= kk < cs.len() implies #[trigger] clause_ok(s.assignment@, s.prop_queue@, cs[kk]) by {
                assert(cs[kk].len() > 0);
                assert(cs[kk][0].var < num_vars);
                assert(lit_val(s.assignment@, cs[kk][0]) is None);
            }
        }
        s
    }
}


/// Every assumption is true and was set before any decision.
pub open spec fn assumptions_hold(a: Seq<Option<bool>>, level: Seq<usize>, asms: Seq<Literal>) -> bool {
    forall|i: int| 0 <= i < asms.len() ==> is_true(a, #[trigger] asms[i]) && level[asms[i].var as int] == 0
}

impl Solver {
    /// The search: seeds the unit clauses, forces the assumptions, then
    /// alternates propagation with conflict analysis and backjumping, or with
    /// a decision (the chosen variable set true) when propagation is done.
    /// `true` means a model was found; it is left in the assignment. The
    /// search gives up, reporting `false`, after `u64::MAX` rounds.
    fn search(&mut self, assumptions: &[Literal]) -> (r: bool)
        requires
            old(self).inv(),
            forall|i: int| 0 <= i < assumptions@.len() ==> #[trigger] assumptions@[i].var < old(self).num_vars,
            assumptions@.len() > 0 ==> old(self).trail_lim@.len() == 0,
            old(self).trail_lim@.len() == 0 || forall|v: int| 0 <= v < old(self).num_vars ==> #[trigger] old(self).assignment@[v] is Some,
        ensures
            final(self).num_vars == old(self).num_vars,
            final(self).clause_seq().len() >= old(self).clause_seq().len(),
            final(self).clause_seq().take(old(self).clause_seq().len() as int) == old(self).clause_seq(),
            r ==> final(self).inv() && satisfies(final(self).model(), final(self).clause_seq())
                && forall|v: int| 0 <= v < final(self).num_vars ==> #[trigger] final(self).model()[v] is Some,
            r ==> forall|i: int| 0 <= i < assumptions@.len() ==> #[trigger] is_true(final(self).model(), assumptions@[i]),
    {
        let ghost cs0 = self.clause_seq();
        let ghost n = self.num_vars as int;
        // Seed the queue with the unit clauses whose literal is unassigned.
        let mut units: Vec<(Literal, usize)> = Vec::new();
        let mut ci: usize = 0;
        while ci < self.clauses.len()
            invariant
                self.inv(),
                ci <= self.clauses@.len(),
                cs0 == self.clause_seq(),
                cs0 == old(self).clause_seq(),
                n == old(self).num_vars,
                n == self.num_vars,
                self.assignment@ == old(self).assignment@,
                self.trail_lim@ == old(self).trail_lim@,
                old(self).trail_lim@.len() == 0 || forall|v: int| 0 <= v < old(self).num_vars ==> #[trigger] old(self).assignment@[v] is Some,
                forall|u: int| 0 <= u < units@.len() ==> #[trigger] units@[u].1 < self.clauses@.len()
                    && units@[u].0.var < self.num_vars && self.assignment@[units@[u].0.var as int] is None,
            decreases self.clauses@.len() - ci,
        {
            if self.clauses[ci].literals.len() == 1 {
                let l = self.clauses[ci].literals[0];
                assert(l == cs0[ci as int][0]);
                if self.lit_value(l).is_none() {
                    units.push((l, ci));
                }
            }
            ci = ci + 1;
        }
        proof {
            if self.trail_lim@.len() > 0 && units@.len() > 0 {
                assert(units@[0].1 < self.clauses@.len());
                let v = units@[0].0.var as int;
                assert(self.assignment@[v] is None);
                assert(old(self).assignment@[v] is Some);
                assert(false);
            }
        }
        let mut u: usize = 0;
        while u < units.len()
            invariant
                self.inv(),
                u <= units@.len(),
                cs0 == self.clause_seq(),
                cs0 == old(self).clause_seq(),
                n == old(self).num_vars,
                n == self.num_vars,
                self.trail_lim@.len() == old(self).trail_lim@.len(),
                self.trail_lim@.len() == 0 || units@.len() == 0,
                forall|x: int| 0 <= x < units@.len() ==> #[trigger] units@[x].1 < self.clauses@.len()
                    && units@[x].0.var < self.num_vars,
            decreases units@.len() - u,
        {
            let (l, c) = units[u];
            let ghost a0 = self.assignment@;
            let ghost q0 = self.prop_queue@;
            self.assign(l, Some(c));
            self.prop_queue.push_back(l);
            proof {
                self.lemma_after_assign_push(a0, q0, l);
            }
            u = u + 1;
        }
        // Force the assumptions before any decision.
        let mut x: usize = 0;
        while x < assumptions.len()
            invariant
                self.inv(),
                x <= assumptions@.len(),
                cs0 == self.clause_seq(),
                cs0 == old(self).clause_seq(),
                n == old(self).num_vars,
                n == self.num_vars,
                assumptions@.len() > 0 ==> self.trail_lim@.len() == 0,
                forall|i: int| 0 <= i < assumptions@.len() ==> #[trigger] assumptions@[i].var < self.num_vars,
                assumptions_hold(self.assignment@, self.level@, assumptions@.take(x as int)),
            decreases assumptions@.len() - x,
        {
            let a = assumptions[x];
            match self.lit_value(a) {
                Some(true) => {
                    assert(self.level@[a.var as int] <= self.trail_lim@.len());
                    assert(assumptions@.take(x + 1).drop_last() =~= assumptions@.take(x as int));
                },
                Some(false) => {
                    return false;
                },
                None => {
                    let ghost a0 = self.assignment@;
                    let ghost q0 = self.prop_queue@;
                    self.assign(a, None);
                    self.prop_queue.push_back(a);
                    proof {
                        self.lemma_after_assign_push(a0, q0, a);
                        let t = assumptions@.take(x + 1);
                        assert forall|i: int| 0 <= i < t.len() implies is_true(self.assignment@, #[trigger] t[i])
                            && self.level@[t[i].var as int] == 0 by {
                            if i < x {
                                assert(assumptions@.take(x as int)[i] == t[i]);
                                assert(t[i].var != a.var);
                            }
                        }
                    }
                },
            }
            x = x + 1;
        }
        proof {
            assert(assumptions@.take(x as int) =~= assumptions@);
        }
        let ghost asms = assumptions@;
        let mut fuel: u64 = u64::MAX;
        loop
            invariant
                self.inv(),
                n == self.num_vars,
                cs0 == old(self).clause_seq(),
                n == old(self).num_vars,
                self.clause_seq().len() >= cs0.len(),
                self.clause_seq().take(cs0.len() as int) == cs0,
                asms == assumptions@,
                forall|i: int| 0 <= i < asms.len() ==> #[trigger] asms[i].var < self.num_vars,
                assumptions_hold(self.assignment@, self.level@, asms),
            decreases fuel,
        {
            if fuel == 0 {
                return false;
            }
            fuel = fuel - 1;
            let ghost a_pre = self.assignment@;
            let ghost l_pre = self.level@;
            match self.propagate() {
                Some(confl) => {
                    if self.trail_lim.len() == 0 {
                        return false;
                    }
                    let ghost a1 = self.assignment@;
                    let ghost l1 = self.level@;
                    let ghost q1 = self.prop_queue@;
                    let ghost cs1 = self.clause_seq();
                    let ghost dl = self.trail_lim@.len();
                    let (learnt, bt) = match self.analyze(confl) {
                        Some(x) => x,
                        None => {
                            return false;
                        },
                    };
                    let mut i: usize = 0;
                    while i < learnt.len()
                        invariant
                            self.wf(),
                            self.num_vars as int == n,
                            self.assignment@ == a1,
                            self.level@ == l1,
                            self.prop_queue@ == q1,
                            self.clause_seq() == cs1,
                            self.trail_lim@.len() == dl,
                            self.trail_ok(),
                            forall|j: int| 0 <= j < learnt@.len() ==> #[trigger] learnt@[j].var < self.num_vars,
                        decreases learnt@.len() - i,
                    {
                        self.var_bump_activity(learnt[i].var);
                        i = i + 1;
                    }
                    let ghost p = choose|p: Literal|
                        #![trigger is_true(a1, p)]
                        p.var < n && is_true(a1, p) && l1[p.var as int] == dl && forall|k: int|
                            0 <= k < cs1.len() ==> clause_ok(a1, q1, #[trigger] cs1[k]) || contains_lit(
                                cs1[k],
                                negation(p),
                            );
                    self.cancel_until(bt);
                    proof {
                        let a2 = self.assignment@;
                        assert(a2[p.var as int] is None);
                        assert forall|k: int| 0 <= k < cs1.len() implies #[trigger] clause_ok(a2, q1, cs1[k]) by {
                            assert(forall|i: int| 0 <= i < cs1[k].len() ==> #[trigger] cs1[k][i].var < n);
                            if clause_ok(a1, q1, cs1[k]) {
                                lemma_weaker_keeps_ok(a1, a2, q1, cs1[k]);
                            } else {
                                let i = choose|i: int| 0 <= i < cs1[k].len() && cs1[k][i] == negation(p);
                                assert(lit_val(a2, cs1[k][i]) is None);
                            }
                        }
                        assert forall|k: int| 0 <= k < q1.len() && is_true(a2, #[trigger] q1[k])
                            implies self.level@[q1[k].var as int] == self.trail_lim@.len() by {
                            assert(is_true(a1, q1[k]));
                        }
                        assert forall|i: int| 0 <= i < asms.len() implies is_true(a2, #[trigger] asms[i])
                            && self.level@[asms[i].var as int] == 0 by {
                            assert(l1[asms[i].var as int] == 0);
                        }
                        assert(a2[learnt@[0].var as int] is None);
                    }
                    let asserting = learnt[0];
                    let ci = self.add_clause(learnt);
                    assert(self.clauses@.len() == self.clause_seq().len());
                    let ghost a3 = self.assignment@;
                    let ghost q3 = self.prop_queue@;
                    proof {
                        assert(self.clause_seq().take(cs0.len() as int) =~= cs0);
                        assert forall|k: int| 0 <= k < cs1.len() implies #[trigger] clause_ok(a3, q3, self.clause_seq()[k]) by {
                            assert(self.clause_seq()[k] == cs1[k]);
                        }
                    }
                    self.assign(asserting, Some(ci));
                    self.prop_queue.push_back(asserting);
                    proof {
                        let cs = self.clause_seq();
                        let a4 = self.assignment@;
                        let q4 = self.prop_queue@;
                        assert forall|k: int| 0 <= k < cs.len() implies #[trigger] clause_ok(a4, q4, cs[k]) by {
                            assert(forall|i: int| 0 <= i < cs[k].len() ==> #[trigger] cs[k][i].var < n);
                            if k < cs1.len() {
                                lemma_assign_keeps_ok(a3, q3, cs[k], asserting);
                            } else {
                                assert(cs[k][0] == asserting);
                                assert(is_true(a4, cs[k][0]));
                            }
                        }
                        assert forall|k: int| 0 <= k < q4.len() && is_true(a4, #[trigger] q4[k])
                            implies self.level@[q4[k].var as int] == self.trail_lim@.len() by {
                            if k < q3.len() && q4[k].var != asserting.var {
                                assert(is_true(a3, q3[k]));
                            }
                        }
                        assert forall|i: int| 0 <= i < asms.len() implies is_true(a4, #[trigger] asms[i])
                            && self.level@[asms[i].var as int] == 0 by {
                            assert(is_true(a3, asms[i]));
                            assert(asms[i].var != asserting.var);
                        }
                        assert(cs.take(cs0.len() as int) =~= cs0);
                    }
                },
                None => {
                    proof {
                        assert forall|i: int| 0 <= i < asms.len() implies is_true(self.assignment@, #[trigger] asms[i])
                            && self.level@[asms[i].var as int] == 0 by {
                            assert(is_true(a_pre, asms[i]));
                        }
                    }
                    if self.all_assigned() {
                        proof {
                            lemma_complete_satisfies(self.assignment@, self.prop_queue@, self.clause_seq());
                        }
                        return true;
                    }
                    self.var_decay_activity();
                    let v = match self.pick_var() {
                        Some(v) => v,
                        None => {
                            let done = self.all_assigned();
                            proof {
                                if done {
                                    lemma_complete_satisfies(self.assignment@, self.prop_queue@, self.clause_seq());
                                }
                            }
                            return done;
                        },
                    };
                    self.new_decision_level();
                    let lit = Literal::pos(v);
                    let ghost a5 = self.assignment@;
                    let ghost q5 = self.prop_queue@;
                    self.assign(lit, None);
                    self.prop_queue.push_back(lit);
                    proof {
                        self.lemma_after_assign_push(a5, q5, lit);
                        assert forall|i: int| 0 <= i < asms.len() implies is_true(self.assignment@, #[trigger] asms[i])
                            && self.level@[asms[i].var as int] == 0 by {
                            assert(is_true(a5, asms[i]));
                            assert(asms[i].var != v);
                        }
                    }
                },
            }
        }
    }

    /// After `assign(l)` and queueing `l` on a state whose propagation
    /// invariant held for assignment `a0` and queue `q0`, it still holds.
    proof fn lemma_after_assign_push(&self, a0: Seq<Option<bool>>, q0: Seq<Literal>, l: Literal)
        requires
            self.wf(),
            l.var < self.num_vars,
            self.assignment@ == a0.update(l.var as int, Some(!l.negated)),
            self.prop_queue@ == q0.push(l),
            self.level@[l.var as int] == self.trail_lim@.len(),
            a0.len() == self.num_vars,
            forall|k: int| 0 <= k < self.clause_seq().len() ==> #[trigger] clause_ok(a0, q0, self.clause_seq()[k]),
            forall|k: int| 0 <= k < q0.len() && is_true(a0, #[trigger] q0[k]) ==> (q0[k].var != l.var ==> self.level@[q0[k].var as int] == self.trail_lim@.len()),
        ensures
            self.props_ok(),
    {
        let cs = self.clause_seq();
        assert forall|k: int| 0 <= k < cs.len() implies #[trigger] clause_ok(self.assignment@, self.prop_queue@, cs[k]) by {
            assert(forall|i: int| 0 <= i < cs[k].len() ==> #[trigger] cs[k][i].var < self.num_vars);
            assert(forall|i: int| 0 <= i < q0.len() ==> #[trigger] q0[i].var < self.num_vars) by {
                assert forall|i: int| 0 <= i < q0.len() implies #[trigger] q0[i].var < self.num_vars by {
                    assert(self.prop_queue@[i] == q0[i]);
                }
            }
            lemma_assign_keeps_ok(a0, q0, cs[k], l);
        }
        assert forall|k: int| 0 <= k < self.prop_queue@.len() && is_true(self.assignment@, #[trigger] self.prop_queue@[k])
            implies self.level@[self.prop_queue@[k].var as int] == self.trail_lim@.len() by {
            if k < q0.len() && q0[k].var != l.var {
                assert(is_true(a0, q0[k]));
            }
        }
    }
}


/// A copy of `v`.
pub fn copy_clauses(v: &Vec<Clause>) -> (r: Vec<Clause>)
    ensures
        literal_seqs(r@) == literal_seqs(v@),
{
    let mut out: Vec<Clause> = Vec::new();
    let mut k: usize = 0;
    while k < v.len()
        invariant
            k <= v@.len(),
            out@.len() == k,
            literal_seqs(out@) == literal_seqs(v@).take(k as int),
        decreases v@.len() - k,
    {
        let lits = copy_vec(&v[k].literals);
        let ghost before = out@;
        out.push(Clause { literals: lits });
        proof {
            assert forall|i: int| 0 <= i < k + 1 implies #[trigger] literal_seqs(out@)[i] == literal_seqs(v@)[i] by {
                if i < k {
                    assert(out@[i] == before[i]);
                    assert(literal_seqs(before)[i] == literal_seqs(v@).take(k as int)[i]);
                }
            }
        }
        k = k + 1;
        assert(literal_seqs(out@) =~= literal_seqs(v@).take(k as int));
    }
    assert(literal_seqs(v@).take(k as int) =~= literal_seqs(v@));
    out
}

fn copy_vec<T: Copy>(v: &Vec<T>) -> (r: Vec<T>)
    ensures
        r@ == v@,
{
    let mut out: Vec<T> = Vec::new();
    let mut i: usize = 0;
    while i < v.len()
        invariant
            i <= v@.len(),
            out@ == v@.take(i as int),
        decreases v@.len() - i,
    {
        out.push(v[i]);
        i = i + 1;
        assert(out@ =~= v@.take(i as int));
    }
    assert(v@.take(i as int) =~= v@);
    out
}

impl Solver {
    /// Ready to search: the invariants hold, and either no decision was made
    /// yet or every variable is assigned (a finished search).
    /// Nothing is on the trail or queued, and every level is 0.
    pub closed spec fn untouched(&self) -> bool {
        &&& self.trail@.len() == 0
        &&& self.prop_queue@.len() == 0
        &&& forall|v: int| 0 <= v < self.num_vars ==> #[trigger] self.level@[v] == 0
    }

    /// A solver over `clauses` holding the total model `m` of them, with
    /// nothing left to decide.
    pub fn with_model(num_vars: usize, clauses: Vec<Clause>, m: Vec<Option<bool>>) -> (r: Solver)
        requires
            forall|k: int| 0 <= k < clauses@.len() ==> #[trigger] clauses@[k].literals@.len() > 0,
            forall|k: int, i: int| 0 <= k < clauses@.len() && 0 <= i < clauses@[k].literals@.len()
                ==> #[trigger] clauses@[k].literals@[i].var < num_vars,
            m@.len() == num_vars,
            forall|v: int| 0 <= v < num_vars ==> #[trigger] m@[v] is Some,
            satisfies(m@, literal_seqs(clauses@)),
        ensures
            r.ready(),
            r.vars() == num_vars,
            r.clause_seq() == literal_seqs(clauses@),
            r.model() == m@,
    {
        let mut s = Solver::new(num_vars, clauses);
        s.assignment = m;
        proof {
            let cs = s.clause_seq();
            assert forall|k: int| 0 <= k < cs.len() implies #[trigger] clause_ok(s.assignment@, s.prop_queue@, cs[k]) by {
                assert(clause_sat(s.assignment@, cs[k]));
            }
        }
        s
    }

    pub closed spec fn ready(&self) -> bool {
        &&& self.inv()
        &&& self.trail_lim@.len() == 0 || forall|v: int| 0 <= v < self.num_vars ==> #[trigger] self.assignment@[v] is Some
    }

    /// A fresh solver is ready.
    pub proof fn lemma_fresh_ready(&self)
        requires
            self.inv(),
            self.decision_level() == 0,
        ensures
            self.ready(),
    {
    }

    /// The value of variable `v`.
    pub fn value(&self, v: usize) -> (r: Option<bool>)
        requires
            self.wf(),
            v < self.vars(),
        ensures
            r == self.model()[v as int],
    {
        self.assignment[v]
    }

    /// The current assignment, by variable.
    /// The clauses: those given, then those learnt.
    pub fn clauses(&self) -> (r: &Vec<Clause>)
        ensures
            literal_seqs(r@) == self.clause_seq(),
    {
        &self.clauses
    }

    pub fn assignment(&self) -> (r: &Vec<Option<bool>>)
        ensures
            r@ == self.model(),
    {
        &self.assignment
    }

    /// A ready solver is well formed and assigns each of its variables.
    pub proof fn lemma_ready_model(&self)
        requires
            self.ready(),
        ensures
            self.wf(),
            self.model().len() == self.vars(),
    {
    }

    /// Number of variables.
    pub fn num_vars(&self) -> (r: usize)
        ensures
            r == self.vars(),
    {
        self.num_vars
    }

    /// An independent copy of this solver.
    fn duplicate(&self) -> (r: Solver)
        ensures
            r.num_vars == self.num_vars,
            r.clause_seq() == self.clause_seq(),
            r.assignment@ == self.assignment@,
            r.level@ == self.level@,
            r.trail@ == self.trail@,
            r.trail_lim@ == self.trail_lim@,
            r.prop_queue@ == self.prop_queue@,
            r.seed == self.seed,
            self.ready() ==> r.ready(),
    {
        let clauses = copy_clauses(&self.clauses);
        let mut watch: Vec<Vec<usize>> = Vec::new();
        let mut v: usize = 0;
        while v < self.watch.len()
            invariant
                v <= self.watch@.len(),
                watch@.len() == v,
                watch_views(watch@) == watch_views(self.watch@).take(v as int),
            decreases self.watch@.len() - v,
        {
            let ghost before = watch@;
            watch.push(copy_vec(&self.watch[v]));
            proof {
                assert forall|i: int| 0 <= i < v + 1 implies #[trigger] watch_views(watch@)[i] == watch_views(self.watch@)[i] by {
                    if i < v {
                        assert(watch@[i] == before[i]);
                        assert(watch_views(before)[i] == watch_views(self.watch@).take(v as int)[i]);
                    }
                }
            }
            v = v + 1;
            assert(watch_views(watch@) =~= watch_views(self.watch@).take(v as int));
        }
        assert(watch_views(self.watch@).take(v as int) =~= watch_views(self.watch@));
        let mut queue: VecDeque<Literal> = VecDeque::new();
        let mut q: usize = 0;
        while q < self.prop_queue.len()
            invariant
                q <= self.prop_queue@.len(),
                queue@ == self.prop_queue@.take(q as int),
            decreases self.prop_queue@.len() - q,
        {
            queue.push_back(self.prop_queue[q]);
            q = q + 1;
            assert(queue@ =~= self.prop_queue@.take(q as int));
        }
        assert(self.prop_queue@.take(q as int) =~= self.prop_queue@);
        let r = Solver {
            num_vars: self.num_vars,
            clauses,
            assignment: copy_vec(&self.assignment),
            reason: copy_vec(&self.reason),
            level: copy_vec(&self.level),
            trail: copy_vec(&self.trail),
            trail_lim: copy_vec(&self.trail_lim),
            watch,
            prop_queue: queue,
            activity: copy_vec(&self.activity),
            var_inc: self.var_inc,
            seed: self.seed,
        };
        r
    }

    /// Solves the clauses.
    pub fn solve(&mut self) -> (r: bool)
        requires
            old(self).ready(),
        ensures
            final(self).vars() == old(self).vars(),
            final(self).clause_seq().len() >= old(self).clause_seq().len(),
            final(self).clause_seq().take(old(self).clause_seq().len() as int) == old(self).clause_seq(),
            r ==> final(self).ready() && satisfies(final(self).model(), final(self).clause_seq()),
            !r ==> unsat(old(self).clause_seq(), old(self).vars()),
    {
        let none: Vec<Literal> = Vec::new();
        let r = self.settle(none.as_slice(), false);
        proof {
            assert(unit_clauses(none@) =~= Seq::<Seq<Literal>>::empty());
            assert(old(self).clause_seq() + unit_clauses(none@) =~= old(self).clause_seq());
        }
        r
    }

    /// Solves the clauses with the `assumptions` forced true before any
    /// decision; `false` exactly when no model makes them all true.
    pub fn solve_with_assumptions(&mut self, assumptions: &[Literal]) -> (r: bool)
        requires
            old(self).inv(),
            old(self).decision_level() == 0,
            forall|i: int| 0 <= i < assumptions@.len() ==> #[trigger] assumptions@[i].var < old(self).vars(),
        ensures
            final(self).vars() == old(self).vars(),
            final(self).clause_seq().len() >= old(self).clause_seq().len(),
            final(self).clause_seq().take(old(self).clause_seq().len() as int) == old(self).clause_seq(),
            r ==> final(self).ready() && satisfies(final(self).model(), final(self).clause_seq()),
            r ==> forall|i: int| 0 <= i < assumptions@.len() ==> #[trigger] is_true(final(self).model(), assumptions@[i]),
            !r ==> unsat(old(self).clause_seq() + unit_clauses(assumptions@), old(self).vars()),
    {
        self.settle(assumptions, true)
    }

    /// The search, then, when it fails, a check of its refutation and, when
    /// that fails too, a complete search.
    fn settle(&mut self, asms: &[Literal], with_asms: bool) -> (r: bool)
        requires
            old(self).inv(),
            with_asms ==> old(self).decision_level() == 0,
            !with_asms ==> old(self).ready() && asms@.len() == 0,
            forall|i: int| 0 <= i < asms@.len() ==> #[trigger] asms@[i].var < old(self).vars(),
        ensures
            final(self).vars() == old(self).vars(),
            final(self).clause_seq().len() >= old(self).clause_seq().len(),
            final(self).clause_seq().take(old(self).clause_seq().len() as int) == old(self).clause_seq(),
            r ==> final(self).ready() && satisfies(final(self).model(), final(self).clause_seq()),
            r ==> forall|i: int| 0 <= i < asms@.len() ==> #[trigger] is_true(final(self).model(), asms@[i]),
            !r ==> unsat(old(self).clause_seq() + unit_clauses(asms@), old(self).vars()),
    {
        let n = self.num_vars;
        let base = copy_clauses(&self.clauses);
        let k0 = self.clauses.len();
        let ghost cs0 = self.clause_seq();
        let ok = self.search(asms);
        if ok {
            return true;
        }
        if refutation_holds(&self.clauses, k0, n, asms) {
            proof {
                assert(self.clause_seq().take(k0 as int) =~= cs0);
            }
            return false;
        }
        proof {
            assert(forall|k: int, i: int| 0 <= k < cs0.len() && 0 <= i < cs0[k].len() ==> #[trigger] cs0[k][i].var < n);
        }
        match complete_search(&base, n, asms) {
            Some(m) => {
                proof {
                    assert forall|k: int| 0 <= k < base@.len() implies #[trigger] base@[k].literals@.len() > 0 by {
                        assert(literal_seqs(base@)[k] == base@[k].literals@);
                        assert(cs0[k].len() > 0);
                    }
                    assert forall|k: int, i: int| 0 <= k < base@.len() && 0 <= i < base@[k].literals@.len() implies #[trigger] base@[k].literals@[i].var
                        < n by {
                        assert(literal_seqs(base@)[k] == base@[k].literals@);
                        assert(cs0[k][i].var < n);
                    }
                }
                *self = Solver::with_model(n, base, m);
                proof {
                    assert(self.clause_seq().take(cs0.len() as int) =~= cs0);
                }
                true
            },
            None => false,
        }
    }

    /// One worker of a portfolio: a copy of this solver whose decision order
    /// is varied by `index`, run to the end.
    pub fn portfolio_worker(&self, index: u64) -> (r: (bool, Solver))
        requires
            self.ready(),
        ensures
            r.0 ==> r.1.ready() && satisfies(r.1.model(), r.1.clause_seq()),
            r.1.vars() == self.vars(),
            r.1.clause_seq().len() >= self.clause_seq().len(),
            r.1.clause_seq().take(self.clause_seq().len() as int) == self.clause_seq(),
    {
        let mut w = self.duplicate();
        w.seed = index.wrapping_mul(0x9E37_79B9_7F4A_7C15).wrapping_add(1);
        proof {
            assert(w.clause_seq() == self.clause_seq());
        }
        let sat = w.search(&[]);
        (sat, w)
    }

    /// Solves with a portfolio of `threads` workers, each with its own
    /// decision order; the first to find a model wins and its state is
    /// adopted. With at most one thread this is [`Solver::solve`].
    pub fn solve_parallel(&mut self, threads: usize) -> (r: bool)
        requires
            old(self).ready(),
        ensures
            final(self).vars() == old(self).vars(),
            final(self).clause_seq().len() >= old(self).clause_seq().len(),
            final(self).clause_seq().take(old(self).clause_seq().len() as int) == old(self).clause_seq(),
            r ==> final(self).ready() && satisfies(final(self).model(), final(self).clause_seq()),
            !r ==> unsat(old(self).clause_seq(), old(self).vars()),
    {
        if threads <= 1 {
            return self.solve();
        }
        match first_model(self, threads) {
            Some(w) => {
                *self = w;
                true
            },
            None => self.solve(),
        }
    }
}

/// Runs the portfolio workers `0..threads` of `base` in parallel.
///
/// Wraps `rayon`'s `into_par_iter` over the worker indices, `map` with
/// [`Solver::portfolio_worker`], and `find_any` on the workers that report a
/// model. Every item the map yields meets `portfolio_worker`'s contract, and
/// `find_any` hands back one of the items its predicate accepts, so a
/// returned solver holds a model. Which worker wins, when several do, depends
/// on thread timing: nothing is stated of it, nor of `None` beyond that no
/// worker that finished reported a model.
#[verifier::external_body]
fn first_model(base: &Solver, threads: usize) -> (r: Option<Solver>)
    requires
        base.ready(),
    ensures
        r matches Some(w) ==> w.ready() && satisfies(w.model(), w.clause_seq()) && w.vars() == base.vars()
            && w.clause_seq().len() >= base.clause_seq().len()
            && w.clause_seq().take(base.clause_seq().len() as int) == base.clause_seq(),
{
    (0..threads as u64)
        .into_par_iter()
        .map(|s| base.portfolio_worker(s))
        .find_any(|(sat, _)| *sat)
        .map(|(_, w)| w)
}

} // verus!
