//! dpkg triggers: packages declare interest in named triggers, other
//! packages activate them, and an interested package later processes what
//! is pending for it (its `postinst triggered` run).

pub mod status;

use vstd::prelude::*;
use crate::text::{chars_of, chars_eq, str_eq, push_str, push_char, own, string_of, sviews, views,
    words, words_exec, lines, lines_exec, trim, trim_vec, join, push_joined_strings, is_ws, trim_start, trim_end,
    strip_cr, lemma_join_unlines, lemma_lines_unlines, unlines, lemma_unlines_push, word_len};
use crate::fields::{map_get, map_set, map_remove, has_key, key_index, unique_keys, lemma_key_index,
    lemma_key_index_at, lemma_map_set, lemma_map_remove};
use crate::sources_list::{sort_strs, sort_vecs, lemma_sort_strs_elems};

verus! {

/// Errors of the trigger layer.
#[derive(Debug)]
pub enum TriggerError {
    /// A record of the trigger database could not be read.
    Malformed(String),
}

/// A trigger a package is interested in.
#[derive(Debug, Clone, PartialEq, Eq)]
pub struct Trigger {
    /// The trigger name (e.g. `man-db-rebuild`, `ldconfig`).
    pub name: String,
    /// `true` for `interest` (the activator awaits completion), `false` for
    /// `interest-noawait`.
    pub awaited: bool,
}

impl Trigger {
    /// An `interest` trigger (awaited).
    pub fn interest(name: &str) -> (r: Trigger)
        ensures
            r.name@ == name@,
            r.awaited,
    {
        Trigger { name: own(name), awaited: true }
    }

    /// An `interest-noawait` trigger.
    pub fn interest_noawait(name: &str) -> (r: Trigger)
        ensures
            r.name@ == name@,
            !r.awaited,
    {
        Trigger { name: own(name), awaited: false }
    }
}

pub type Interests = Seq<(Seq<char>, Seq<(Seq<char>, bool)>)>;

pub type Pending = Seq<(Seq<char>, Seq<Seq<char>>)>;

/// Abstract state: interests and pending triggers per package.
pub struct DbView {
    pub interests: Interests,
    pub pending: Pending,
}

pub open spec fn trig_views(v: Seq<Trigger>) -> Seq<(Seq<char>, bool)> {
    Seq::new(v.len(), |i: int| (v[i].name@, v[i].awaited))
}

pub open spec fn interest_views(v: Seq<(String, Vec<Trigger>)>) -> Interests {
    Seq::new(v.len(), |i: int| (v[i].0@, trig_views(v[i].1@)))
}

pub open spec fn pending_views(v: Seq<(String, Vec<String>)>) -> Pending {
    Seq::new(v.len(), |i: int| (v[i].0@, sviews(v[i].1@)))
}

/// The in-memory trigger database.
#[derive(Debug)]
pub struct TriggerDb {
    interests: Vec<(String, Vec<Trigger>)>,
    pending: Vec<(String, Vec<String>)>,
}

impl View for TriggerDb {
    type V = DbView;

    closed spec fn view(&self) -> DbView {
        DbView { interests: interest_views(self.interests@), pending: pending_views(self.pending@) }
    }
}

/// Whether `ts` holds a trigger named `name`.
pub open spec fn has_trigger(ts: Seq<(Seq<char>, bool)>, name: Seq<char>) -> bool {
    exists|i: int| 0 <= i < ts.len() && #[trigger] ts[i].0 == name
}

/// The triggers `pkg` is interested in.
pub open spec fn interest_list(i: Interests, pkg: Seq<char>) -> Seq<(Seq<char>, bool)> {
    match map_get(i, pkg) {
        Some(l) => l,
        None => Seq::empty(),
    }
}

/// The triggers pending for `pkg`.
pub open spec fn pend_list(p: Pending, pkg: Seq<char>) -> Seq<Seq<char>> {
    match map_get(p, pkg) {
        Some(l) => l,
        None => Seq::empty(),
    }
}

/// Registering an interest; a trigger already named is kept as it was.
pub open spec fn interest_spec(i: Interests, pkg: Seq<char>, name: Seq<char>, awaited: bool) -> Interests {
    let cur = interest_list(i, pkg);
    map_set(
        i,
        pkg,
        if has_trigger(cur, name) {
            cur
        } else {
            cur.push((name, awaited))
        },
    )
}

/// Activating `name` over the interests `i` in order: the pending state and
/// the packages that became pending.
pub open spec fn activate_fold(i: Interests, p: Pending, name: Seq<char>) -> (Pending, Seq<Seq<char>>)
    decreases i.len(),
{
    if i.len() == 0 {
        (p, Seq::empty())
    } else {
        let (p1, n1) = activate_fold(i.drop_last(), p, name);
        let pkg = i.last().0;
        if has_trigger(i.last().1, name) && !pend_list(p1, pkg).contains(name) {
            (map_set(p1, pkg, pend_list(p1, pkg).push(name)), n1.push(pkg))
        } else {
            (p1, n1)
        }
    }
}

/// `s` without elements equal to the one before them.
pub open spec fn dedup(s: Seq<Seq<char>>) -> Seq<Seq<char>>
    decreases s.len(),
{
    if s.len() <= 1 {
        s
    } else {
        let r = dedup(s.drop_last());
        if s.last() == s[s.len() - 2] {
            r
        } else {
            r.push(s.last())
        }
    }
}

/// The packages with a non-empty pending list, in order.
pub open spec fn pending_keys(p: Pending) -> Seq<Seq<char>>
    decreases p.len(),
{
    if p.len() == 0 {
        Seq::empty()
    } else {
        let r = pending_keys(p.drop_last());
        if p.last().1.len() > 0 {
            r.push(p.last().0)
        } else {
            r
        }
    }
}

// ── Laws of activation ────────────────────────────────────────────────────────

/// Activation only adds: whatever was pending stays pending.
proof fn lemma_activate_keeps(i: Interests, p: Pending, name: Seq<char>, pkg: Seq<char>, x: Seq<char>)
    requires
        pend_list(p, pkg).contains(x),
    ensures
        pend_list(activate_fold(i, p, name).0, pkg).contains(x),
    decreases i.len(),
{
    if i.len() > 0 {
        lemma_activate_keeps(i.drop_last(), p, name, pkg, x);
        let (p1, n1) = activate_fold(i.drop_last(), p, name);
        let k = i.last().0;
        let cur = pend_list(p1, k);
        lemma_map_set(p1, k, cur.push(name));
        if k == pkg {
            let j = choose|j: int| 0 <= j < cur.len() && cur[j] == x;
            assert(cur.push(name)[j] == x);
        }
    }
}

/// After activating `name`, every package interested in it has it pending.
pub proof fn lemma_activate_covers(i: Interests, p: Pending, name: Seq<char>, j: int)
    requires
        0 <= j < i.len(),
        has_trigger(i[j].1, name),
    ensures
        pend_list(activate_fold(i, p, name).0, i[j].0).contains(name),
    decreases i.len(),
{
    let (p1, n1) = activate_fold(i.drop_last(), p, name);
    let k = i.last().0;
    let cur = pend_list(p1, k);
    lemma_map_set(p1, k, cur.push(name));
    if j < i.len() - 1 {
        assert(i.drop_last()[j] == i[j]);
        lemma_activate_covers(i.drop_last(), p, name, j);
        if has_trigger(i.last().1, name) && !cur.contains(name) && k == i[j].0 {
            assert(cur.push(name)[cur.len() as int] == name);
        }
    } else {
        if !cur.contains(name) {
            assert(cur.push(name)[cur.len() as int] == name);
        }
    }
}

/// Activation with every interested package already pending changes
/// nothing.
proof fn lemma_activate_noop(i: Interests, p: Pending, name: Seq<char>)
    requires
        forall|j: int| 0 <= j < i.len() && has_trigger(#[trigger] i[j].1, name) ==> pend_list(
            p,
            i[j].0,
        ).contains(name),
    ensures
        activate_fold(i, p, name) == (p, Seq::<Seq<char>>::empty()),
    decreases i.len(),
{
    if i.len() > 0 {
        assert forall|j: int| 0 <= j < i.drop_last().len() && has_trigger(
            #[trigger] i.drop_last()[j].1,
            name,
        ) implies pend_list(p, i.drop_last()[j].0).contains(name) by {
            assert(i.drop_last()[j] == i[j]);
        }
        lemma_activate_noop(i.drop_last(), p, name);
        if has_trigger(i.last().1, name) {
            assert(pend_list(p, i[i.len() - 1].0).contains(name));
        }
    }
}

/// Activating the same trigger twice: the second time changes nothing and
/// reports no package.
pub proof fn lemma_activate_idempotent(i: Interests, p: Pending, name: Seq<char>)
    ensures
        activate_fold(i, activate_fold(i, p, name).0, name) == (
            activate_fold(i, p, name).0,
            Seq::<Seq<char>>::empty(),
        ),
{
    let q = activate_fold(i, p, name).0;
    assert forall|j: int| 0 <= j < i.len() && has_trigger(#[trigger] i[j].1, name) implies pend_list(
        q,
        i[j].0,
    ).contains(name) by {
        lemma_activate_covers(i, p, name, j);
    }
    lemma_activate_noop(i, q, name);
}

// ── The database ──────────────────────────────────────────────────────────────

fn has_trigger_x(ts: &Vec<Trigger>, name: &str) -> (r: bool)
    ensures
        r == has_trigger(trig_views(ts@), name@),
{
    let mut i: usize = 0;
    while i < ts.len()
        invariant
            i <= ts@.len(),
            forall|m: int| 0 <= m < i ==> (#[trigger] trig_views(ts@)[m]).0 != name@,
        decreases ts.len() - i,
    {
        if str_eq(ts[i].name.as_str(), name) {
            assert(trig_views(ts@)[i as int].0 == name@);
            return true;
        }
        i = i + 1;
    }
    false
}

fn contains_x(l: &Vec<String>, name: &str) -> (r: bool)
    ensures
        r == sviews(l@).contains(name@),
{
    let mut i: usize = 0;
    while i < l.len()
        invariant
            i <= l@.len(),
            forall|m: int| 0 <= m < i ==> sviews(l@)[m] != name@,
        decreases l.len() - i,
    {
        if str_eq(l[i].as_str(), name) {
            assert(sviews(l@)[i as int] == name@);
            return true;
        }
        i = i + 1;
    }
    false
}

fn copy_strings(l: &Vec<String>) -> (r: Vec<String>)
    ensures
        sviews(r@) == sviews(l@),
{
    let mut out: Vec<String> = Vec::new();
    let mut i: usize = 0;
    while i < l.len()
        invariant
            i <= l@.len(),
            sviews(out@) == sviews(l@).take(i as int),
        decreases l.len() - i,
    {
        let ghost before = sviews(out@);
        out.push(l[i].clone());
        assert(sviews(out@) =~= before.push(l@[i as int]@));
        assert(sviews(out@) =~= sviews(l@).take(i + 1));
        i = i + 1;
    }
    assert(sviews(l@).take(l@.len() as int) =~= sviews(l@));
    out
}

fn pending_index(p: &Vec<(String, Vec<String>)>, pkg: &str) -> (r: usize)
    ensures
        r == key_index(pending_views(p@), pkg@),
{
    let ghost f = pending_views(p@);
    let mut i: usize = 0;
    while i < p.len()
        invariant
            i <= p@.len(),
            f == pending_views(p@),
            forall|m: int| 0 <= m < i ==> f[m].0 != pkg@,
        decreases p.len() - i,
    {
        if str_eq(p[i].0.as_str(), pkg) {
            proof {
                lemma_key_index_at(f, pkg@, i as int);
            }
            return i;
        }
        i = i + 1;
    }
    proof {
        lemma_key_index_at(f, pkg@, i as int);
    }
    i
}

fn interest_index(v: &Vec<(String, Vec<Trigger>)>, pkg: &str) -> (r: usize)
    ensures
        r == key_index(interest_views(v@), pkg@),
{
    let ghost f = interest_views(v@);
    let mut i: usize = 0;
    while i < v.len()
        invariant
            i <= v@.len(),
            f == interest_views(v@),
            forall|m: int| 0 <= m < i ==> f[m].0 != pkg@,
        decreases v.len() - i,
    {
        if str_eq(v[i].0.as_str(), pkg) {
            proof {
                lemma_key_index_at(f, pkg@, i as int);
            }
            return i;
        }
        i = i + 1;
    }
    proof {
        lemma_key_index_at(f, pkg@, i as int);
    }
    i
}

/// Sets the pending list of `pkg` in `p`.
fn set_pending_list(p: &mut Vec<(String, Vec<String>)>, pkg: &str, list: Vec<String>)
    ensures
        pending_views(final(p)@) == map_set(pending_views(old(p)@), pkg@, sviews(list@)),
{
    let ghost f = pending_views(p@);
    let ghost lv = sviews(list@);
    let j = pending_index(p, pkg);
    proof {
        lemma_key_index(f, pkg@);
    }
    if j < p.len() {
        p.set(j, (own(pkg), list));
        assert(pending_views(p@) =~= f.update(j as int, (pkg@, lv)));
    } else {
        p.push((own(pkg), list));
        assert(pending_views(p@) =~= f.push((pkg@, lv)));
    }
}

/// Activating each name of `names` in turn: the pending state and all
/// packages that became pending, in order.
pub open spec fn activate_all_fold(i: Interests, p: Pending, names: Seq<Seq<char>>) -> (Pending, Seq<Seq<char>>)
    decreases names.len(),
{
    if names.len() == 0 {
        (p, Seq::empty())
    } else {
        let (p1, n1) = activate_all_fold(i, p, names.drop_last());
        let (p2, n2) = activate_fold(i, p1, names.last());
        (p2, n1 + n2)
    }
}

/// Activating the names `names` and then `name` at once leaves the pending
/// triggers that activating `name` after them leaves, and reports the
/// packages of both, those of `names` first.
pub proof fn lemma_activate_all_successive(i: Interests, p: Pending, names: Seq<Seq<char>>, name: Seq<char>)
    ensures
        ({
            let before = activate_all_fold(i, p, names);
            let step = activate_fold(i, before.0, name);
            activate_all_fold(i, p, names.push(name)) == (step.0, before.1 + step.1)
        }),
{
    assert(names.push(name).drop_last() =~= names);
}

/// Activating one name through `activate_all` is `activate`.
pub proof fn lemma_activate_all_single(i: Interests, p: Pending, name: Seq<char>)
    ensures
        activate_all_fold(i, p, seq![name]).0 == activate_fold(i, p, name).0,
        activate_all_fold(i, p, seq![name]).1 == activate_fold(i, p, name).1,
{
    let e = Seq::<Seq<char>>::empty();
    lemma_activate_all_successive(i, p, e, name);
    assert(e.push(name) =~= seq![name]);
    assert(Seq::<Seq<char>>::empty() + activate_fold(i, p, name).1 =~= activate_fold(i, p, name).1);
}

/// The packages that activating `names[k]` makes pending, after the names
/// before it were activated.
pub open spec fn affected_by(i: Interests, p: Pending, names: Seq<Seq<char>>, k: int) -> Seq<Seq<char>> {
    activate_fold(i, activate_all_fold(i, p, names.take(k)).0, names[k]).1
}

/// `activate_all` answers the union of the packages affected by activating
/// each of its names in turn: a package is in its answer exactly when
/// activating one of the names made it pending.
pub proof fn lemma_activate_all_union(i: Interests, p: Pending, names: Seq<Seq<char>>)
    ensures
        forall|pkg: Seq<char>|
            #[trigger] activate_all_fold(i, p, names).1.contains(pkg) <==> exists|k: int|
                0 <= k < names.len() && #[trigger] affected_by(i, p, names, k).contains(pkg),
    decreases names.len(),
{
    if names.len() > 0 {
        let init = names.drop_last();
        let last = names.len() - 1;
        lemma_activate_all_union(i, p, init);
        lemma_activate_all_successive(i, p, init, names.last());
        assert(init.push(names.last()) =~= names);
        assert(names.take(last) =~= init);
        assert forall|k: int| 0 <= k < init.len() implies affected_by(i, p, names, k) == affected_by(i, p, init, k) by {
            assert(names.take(k) =~= init.take(k));
            assert(names[k] == init[k]);
        }
        let before = activate_all_fold(i, p, init);
        let step = activate_fold(i, before.0, names.last());
        assert(affected_by(i, p, names, last) == step.1);
        assert forall|pkg: Seq<char>|
            #[trigger] activate_all_fold(i, p, names).1.contains(pkg) <==> exists|k: int|
                0 <= k < names.len() && #[trigger] affected_by(i, p, names, k).contains(pkg) by {
            let all = before.1 + step.1;
            if all.contains(pkg) {
                let t = choose|t: int| 0 <= t < all.len() && all[t] == pkg;
                if t < before.1.len() {
                    assert(before.1[t] == pkg);
                    assert(before.1.contains(pkg));
                    let k = choose|k: int| 0 <= k < init.len() && #[trigger] affected_by(i, p, init, k).contains(pkg);
                    assert(affected_by(i, p, names, k).contains(pkg));
                } else {
                    assert(step.1[t - before.1.len()] == pkg);
                    assert(affected_by(i, p, names, last).contains(pkg));
                }
            }
            if exists|k: int| 0 <= k < names.len() && #[trigger] affected_by(i, p, names, k).contains(pkg) {
                let k = choose|k: int| 0 <= k < names.len() && #[trigger] affected_by(i, p, names, k).contains(pkg);
                if k < last {
                    assert(affected_by(i, p, init, k).contains(pkg));
                    assert(before.1.contains(pkg));
                    let t = choose|t: int| 0 <= t < before.1.len() && before.1[t] == pkg;
                    assert(all[t] == pkg);
                } else {
                    let t = choose|t: int| 0 <= t < step.1.len() && step.1[t] == pkg;
                    assert(all[before.1.len() + t] == pkg);
                }
            }
        }
    }
}

pub open spec fn str_views(v: Seq<&str>) -> Seq<Seq<char>> {
    Seq::new(v.len(), |i: int| v[i]@)
}

impl TriggerDb {
    /// No package is listed twice.
    #[verifier::type_invariant]
    spec fn keys_unique(self) -> bool {
        unique_keys(interest_views(self.interests@)) && unique_keys(pending_views(self.pending@))
    }

    /// An empty database.
    pub fn new() -> (r: TriggerDb)
        ensures
            r@.interests.len() == 0,
            r@.pending.len() == 0,
    {
        TriggerDb { interests: Vec::new(), pending: Vec::new() }
    }

    /// Registers `package`'s interest in trigger `name`; an interest already
    /// registered under that name is kept.
    pub fn interest(&mut self, package: &str, name: &str, awaited: bool)
        ensures
            final(self)@.interests == interest_spec(old(self)@.interests, package@, name@, awaited),
            final(self)@.pending == old(self)@.pending,
    {
        proof {
            use_type_invariant(&*self);
        }
        let ghost f = self@.interests;
        let mut ints: Vec<(String, Vec<Trigger>)> = Vec::new();
        std::mem::swap(&mut ints, &mut self.interests);
        let i = interest_index(&ints, package);
        proof {
            lemma_key_index(f, package@);
        }
        if i < ints.len() {
            let (k, mut list) = ints.remove(i);
            let ghost lv = trig_views(list@);
            if !has_trigger_x(&list, name) {
                list.push(Trigger { name: own(name), awaited });
                assert(trig_views(list@) =~= lv.push((name@, awaited)));
            }
            let ghost nv = trig_views(list@);
            ints.insert(i, (k, list));
            proof {
                assert(interest_views(ints@) =~= f.update(i as int, (package@, nv)));
                lemma_map_set(f, package@, nv);
            }
        } else {
            let mut list: Vec<Trigger> = Vec::new();
            list.push(Trigger { name: own(name), awaited });
            let ghost nv = trig_views(list@);
            ints.push((own(package), list));
            proof {
                assert(nv =~= Seq::<(Seq<char>, bool)>::empty().push((name@, awaited)));
                assert(interest_views(ints@) =~= f.push((package@, nv)));
                lemma_map_set(f, package@, nv);
            }
        }
        self.interests = ints;
    }

    /// Registers `package`'s interest in `trigger`.
    pub fn add_trigger(&mut self, package: &str, trigger: Trigger)
        ensures
            final(self)@.interests == interest_spec(
                old(self)@.interests,
                package@,
                trigger.name@,
                trigger.awaited,
            ),
            final(self)@.pending == old(self)@.pending,
    {
        self.interest(package, trigger.name.as_str(), trigger.awaited);
    }

    /// The triggers `package` is interested in.
    pub fn interests_of(&self, package: &str) -> (r: &[Trigger])
        ensures
            trig_views(r@) == interest_list(self@.interests, package@),
    {
        let i = interest_index(&self.interests, package);
        proof {
            lemma_key_index(self@.interests, package@);
        }
        if i < self.interests.len() {
            self.interests[i].1.as_slice()
        } else {
            let r: &[Trigger] = &[];
            assert(trig_views(r@) =~= Seq::<(Seq<char>, bool)>::empty());
            r
        }
    }

    /// Activates trigger `name`: every interested package that does not have
    /// it pending yet gets it; returns those packages.
    pub fn activate(&mut self, name: &str) -> (r: Vec<String>)
        ensures
            final(self)@.interests == old(self)@.interests,
            (final(self)@.pending, sviews(r@)) == activate_fold(
                old(self)@.interests,
                old(self)@.pending,
                name@,
            ),
            forall|j: int| 0 <= j < old(self)@.interests.len() && has_trigger(
                #[trigger] old(self)@.interests[j].1,
                name@,
            ) ==> pend_list(final(self)@.pending, old(self)@.interests[j].0).contains(name@),
    {
        proof {
            use_type_invariant(&*self);
        }
        let ghost iv = self@.interests;
        let ghost p0 = self@.pending;
        let mut pend: Vec<(String, Vec<String>)> = Vec::new();
        std::mem::swap(&mut pend, &mut self.pending);
        let mut newly: Vec<String> = Vec::new();
        let mut i: usize = 0;
        proof {
            assert(iv.take(0) =~= Seq::<(Seq<char>, Seq<(Seq<char>, bool)>)>::empty());
            assert(sviews(newly@) =~= Seq::<Seq<char>>::empty());
        }
        while i < self.interests.len()
            invariant
                i <= self.interests@.len(),
                iv == interest_views(self.interests@),
                unique_keys(pending_views(pend@)),
                (pending_views(pend@), sviews(newly@)) == activate_fold(iv.take(i as int), p0, name@),
            decreases self.interests.len() - i,
        {
            proof {
                assert(iv.take(i + 1).drop_last() =~= iv.take(i as int));
                assert(iv.take(i + 1).last() == iv[i as int]);
            }
            let pkg = &self.interests[i].0;
            if has_trigger_x(&self.interests[i].1, name) {
                let ghost pv = pending_views(pend@);
                let j = pending_index(&pend, pkg.as_str());
                proof {
                    lemma_key_index(pv, pkg@);
                }
                let mut list: Vec<String> = if j < pend.len() {
                    copy_strings(&pend[j].1)
                } else {
                    Vec::new()
                };
                proof {
                    if j >= pend@.len() {
                        assert(sviews(list@) =~= Seq::<Seq<char>>::empty());
                    }
                }
                if !contains_x(&list, name) {
                    let ghost lv = sviews(list@);
                    list.push(own(name));
                    assert(sviews(list@) =~= lv.push(name@));
                    proof {
                        lemma_map_set(pv, pkg@, sviews(list@));
                    }
                    set_pending_list(&mut pend, pkg.as_str(), list);
                    let ghost nv = sviews(newly@);
                    newly.push(pkg.clone());
                    assert(sviews(newly@) =~= nv.push(pkg@));
                }
            }
            i = i + 1;
        }
        proof {
            assert(iv.take(iv.len() as int) =~= iv);
            assert forall|j: int| 0 <= j < iv.len() && has_trigger(#[trigger] iv[j].1, name@) implies pend_list(
                pending_views(pend@),
                iv[j].0,
            ).contains(name@) by {
                lemma_activate_covers(iv, p0, name@, j);
            }
        }
        self.pending = pend;
        newly
    }

    /// Activates every trigger of `names` in order and returns the affected
    /// packages, sorted and without repeats.
    pub fn activate_all(&mut self, names: &[&str]) -> (r: Vec<String>)
        ensures
            final(self)@.interests == old(self)@.interests,
            final(self)@.pending == activate_all_fold(
                old(self)@.interests,
                old(self)@.pending,
                str_views(names@),
            ).0,
            sviews(r@) == dedup(
                sort_strs(
                    activate_all_fold(old(self)@.interests, old(self)@.pending, str_views(names@)).1,
                ),
            ),
    {
        let ghost iv = self@.interests;
        let ghost p0 = self@.pending;
        let ghost nv = str_views(names@);
        let mut all: Vec<Vec<char>> = Vec::new();
        let mut i: usize = 0;
        proof {
            assert(nv.take(0) =~= Seq::<Seq<char>>::empty());
            assert(views(all@) =~= Seq::<Seq<char>>::empty());
        }
        while i < names.len()
            invariant
                i <= names@.len(),
                nv == str_views(names@),
                iv == self@.interests,
                (self@.pending, views(all@)) == activate_all_fold(iv, p0, nv.take(i as int)),
            decreases names.len() - i,
        {
            proof {
                assert(nv.take(i + 1).drop_last() =~= nv.take(i as int));
                assert(nv.take(i + 1).last() == names@[i as int]@);
            }
            let got = self.activate(names[i]);
            let mut k: usize = 0;
            let ghost a0 = views(all@);
            while k < got.len()
                invariant
                    k <= got@.len(),
                    views(all@) == a0 + sviews(got@).take(k as int),
                decreases got.len() - k,
            {
                let ghost before = views(all@);
                all.push(chars_of(got[k].as_str()));
                assert(views(all@) =~= before.push(got@[k as int]@));
                assert(views(all@) =~= a0 + sviews(got@).take(k + 1));
                k = k + 1;
            }
            assert(sviews(got@).take(got@.len() as int) =~= sviews(got@));
            i = i + 1;
        }
        proof {
            assert(nv.take(nv.len() as int) =~= nv);
        }
        let sorted = sort_vecs(&all);
        let mut out: Vec<String> = Vec::new();
        let ghost sv = views(sorted@);
        let mut m: usize = 0;
        proof {
            assert(sv.take(0) =~= Seq::<Seq<char>>::empty());
            assert(sviews(out@) =~= Seq::<Seq<char>>::empty());
        }
        while m < sorted.len()
            invariant
                m <= sorted@.len(),
                sv == views(sorted@),
                sviews(out@) == dedup(sv.take(m as int)),
            decreases sorted.len() - m,
        {
            proof {
                assert(sv.take(m + 1).drop_last() =~= sv.take(m as int));
            }
            if m == 0 || !chars_eq(&sorted[m], &sorted[m - 1]) {
                let ghost before = sviews(out@);
                out.push(string_of(&sorted[m]));
                assert(sviews(out@) =~= before.push(sv[m as int]));
            }
            m = m + 1;
        }
        proof {
            assert(sv.take(sv.len() as int) =~= sv);
        }
        out
    }

    /// Whether `package` has triggers pending.
    pub fn is_pending(&self, package: &str) -> (r: bool)
        ensures
            r == (pend_list(self@.pending, package@).len() > 0),
    {
        let j = pending_index(&self.pending, package);
        proof {
            lemma_key_index(self@.pending, package@);
        }
        j < self.pending.len() && self.pending[j].1.len() > 0
    }

    /// The triggers pending for `package`, left in place.
    pub fn pending_of(&self, package: &str) -> (r: &[String])
        ensures
            sviews(r@) == pend_list(self@.pending, package@),
    {
        let j = pending_index(&self.pending, package);
        proof {
            lemma_key_index(self@.pending, package@);
        }
        if j < self.pending.len() {
            self.pending[j].1.as_slice()
        } else {
            let r: &[String] = &[];
            assert(sviews(r@) =~= Seq::<Seq<char>>::empty());
            r
        }
    }

    /// Takes the triggers pending for `package`, which then has none.
    pub fn process(&mut self, package: &str) -> (r: Vec<String>)
        ensures
            sviews(r@) == pend_list(old(self)@.pending, package@),
            final(self)@.pending == map_remove(old(self)@.pending, package@),
            final(self)@.interests == old(self)@.interests,
            pend_list(final(self)@.pending, package@).len() == 0,
    {
        proof {
            use_type_invariant(&*self);
        }
        let ghost f = self@.pending;
        let mut pend: Vec<(String, Vec<String>)> = Vec::new();
        std::mem::swap(&mut pend, &mut self.pending);
        let j = pending_index(&pend, package);
        proof {
            lemma_key_index(f, package@);
            lemma_map_remove(f, package@);
        }
        let r = if j < pend.len() {
            let (_, l) = pend.remove(j);
            assert(pending_views(pend@) =~= f.remove(j as int));
            l
        } else {
            let l: Vec<String> = Vec::new();
            assert(sviews(l@) =~= Seq::<Seq<char>>::empty());
            l
        };
        self.pending = pend;
        r
    }

    /// The packages with triggers pending, in order.
    pub fn pending_packages(&self) -> (r: Vec<&str>)
        ensures
            str_views(r@) == pending_keys(self@.pending),
    {
        let ghost pv = self@.pending;
        let mut out: Vec<&str> = Vec::new();
        let mut i: usize = 0;
        proof {
            assert(pv.take(0) =~= Seq::<(Seq<char>, Seq<Seq<char>>)>::empty());
            assert(str_views(out@) =~= Seq::<Seq<char>>::empty());
        }
        while i < self.pending.len()
            invariant
                i <= self.pending@.len(),
                pv == self@.pending,
                str_views(out@) == pending_keys(pv.take(i as int)),
            decreases self.pending.len() - i,
        {
            proof {
                assert(pv.take(i + 1).drop_last() =~= pv.take(i as int));
                assert(pv.take(i + 1).last() == pv[i as int]);
            }
            if self.pending[i].1.len() > 0 {
                let ghost before = str_views(out@);
                out.push(self.pending[i].0.as_str());
                assert(str_views(out@) =~= before.push(pv[i as int].0));
            }
            i = i + 1;
        }
        proof {
            assert(pv.take(pv.len() as int) =~= pv);
        }
        out
    }
}

// ── The on-disk layout ────────────────────────────────────────────────────────

/// `pkg name awaited` lines for the triggers `ts` of `pkg`.
pub open spec fn trigger_lines(pkg: Seq<char>, ts: Seq<(Seq<char>, bool)>) -> Seq<char>
    decreases ts.len(),
{
    if ts.len() == 0 {
        Seq::empty()
    } else {
        trigger_lines(pkg, ts.drop_last()) + pkg + " "@ + ts.last().0 + " "@ + (if ts.last().1 {
            "true"@
        } else {
            "false"@
        }) + "\n"@
    }
}

pub open spec fn keys_of(i: Interests) -> Seq<Seq<char>> {
    Seq::new(i.len(), |k: int| i[k].0)
}

pub open spec fn interests_text_of(i: Interests, order: Seq<Seq<char>>) -> Seq<char>
    decreases order.len(),
{
    if order.len() == 0 {
        Seq::empty()
    } else {
        interests_text_of(i, order.drop_last()) + trigger_lines(order.last(), interest_list(i, order.last()))
    }
}

/// The `Interests` file: every interest as a line, packages in sorted order.
pub open spec fn interests_text(i: Interests) -> Seq<char> {
    interests_text_of(i, sort_strs(keys_of(i)))
}

/// One line of the `Interests` file read into `i`; `Err` is the bad line.
pub open spec fn load_step(i: Interests, line: Seq<char>) -> Result<Interests, Seq<char>> {
    let ws = words(line, false);
    if trim(line).len() == 0 {
        Ok(i)
    } else if ws.len() != 3 {
        Err(line)
    } else {
        Ok(interest_spec(i, ws[0], ws[1], ws[2] == "true"@))
    }
}

/// Lines read in order until a bad one: the interests read and the bad line.
pub open spec fn load_fold(i: Interests, ls: Seq<Seq<char>>) -> (Interests, Option<Seq<char>>)
    decreases ls.len(),
{
    if ls.len() == 0 {
        (i, None)
    } else {
        let (j, e) = load_fold(i, ls.drop_last());
        if e is Some {
            (j, e)
        } else {
            match load_step(j, ls.last()) {
                Ok(k) => (k, None),
                Err(l) => (j, Some(l)),
            }
        }
    }
}

/// The non-blank lines of a pending file, trimmed.
pub open spec fn pending_lines(content: Seq<char>) -> Seq<Seq<char>> {
    crate::sources_list::nonempty_trimmed(lines(content))
}

proof fn lemma_load_err(i: Interests, ls: Seq<Seq<char>>, k: int)
    requires
        0 <= k <= ls.len(),
        load_fold(i, ls.take(k)).1 is Some,
    ensures
        load_fold(i, ls.take(ls.len() as int)) == load_fold(i, ls.take(k)),
    decreases ls.len() - k,
{
    if k < ls.len() {
        assert(ls.take(k + 1).drop_last() =~= ls.take(k));
        lemma_load_err(i, ls, k + 1);
    }
}

fn push_trigger_lines(out: &mut String, pkg: &str, ts: &[Trigger])
    ensures
        final(out)@ == old(out)@ + trigger_lines(pkg@, trig_views(ts@)),
{
    let ghost start = out@;
    let ghost tv = trig_views(ts@);
    let mut i: usize = 0;
    proof {
        assert(tv.take(0) =~= Seq::<(Seq<char>, bool)>::empty());
    }
    while i < ts.len()
        invariant
            i <= ts@.len(),
            tv == trig_views(ts@),
            out@ == start + trigger_lines(pkg@, tv.take(i as int)),
        decreases ts.len() - i,
    {
        let ghost before = out@;
        push_str(out, pkg);
        push_str(out, " ");
        push_str(out, ts[i].name.as_str());
        push_str(out, " ");
        if ts[i].awaited {
            push_str(out, "true");
        } else {
            push_str(out, "false");
        }
        push_str(out, "\n");
        proof {
            assert(tv.take(i + 1).drop_last() =~= tv.take(i as int));
            assert(tv.take(i + 1).last() == tv[i as int]);
            assert(out@ =~= start + trigger_lines(pkg@, tv.take(i + 1)));
        }
        i = i + 1;
    }
    proof {
        assert(tv.take(tv.len() as int) =~= tv);
    }
}

impl TriggerDb {
    /// The `Interests` file of the saved database.
    pub fn interests_file(&self) -> (r: String)
        ensures
            r@ == interests_text(self@.interests),
    {
        let ghost iv = self@.interests;
        let mut keys: Vec<Vec<char>> = Vec::new();
        let mut i: usize = 0;
        while i < self.interests.len()
            invariant
                i <= self.interests@.len(),
                iv == self@.interests,
                views(keys@) == keys_of(iv).take(i as int),
            decreases self.interests.len() - i,
        {
            let ghost before = views(keys@);
            keys.push(chars_of(self.interests[i].0.as_str()));
            assert(views(keys@) =~= before.push(iv[i as int].0));
            assert(views(keys@) =~= keys_of(iv).take(i + 1));
            i = i + 1;
        }
        assert(keys_of(iv).take(iv.len() as int) =~= keys_of(iv));
        let order = sort_vecs(&keys);
        let ghost ov = views(order@);
        let mut out = String::new();
        let mut k: usize = 0;
        proof {
            assert(ov.take(0) =~= Seq::<Seq<char>>::empty());
        }
        while k < order.len()
            invariant
                k <= order@.len(),
                ov == views(order@),
                iv == self@.interests,
                out@ == interests_text_of(iv, ov.take(k as int)),
            decreases order.len() - k,
        {
            let name = string_of(&order[k]);
            let ts = self.interests_of(name.as_str());
            proof {
                assert(ov.take(k + 1).drop_last() =~= ov.take(k as int));
            }
            push_trigger_lines(&mut out, name.as_str(), ts);
            k = k + 1;
        }
        proof {
            assert(ov.take(ov.len() as int) =~= ov);
        }
        out
    }

    /// The pending file of `package`: its pending triggers, one per line.
    pub fn pending_file(&self, package: &str) -> (r: String)
        ensures
            r@ == join(pend_list(self@.pending, package@), "\n"@) + "\n"@,
    {
        let l = self.pending_of(package);
        let mut v: Vec<String> = Vec::new();
        let mut i: usize = 0;
        while i < l.len()
            invariant
                i <= l@.len(),
                sviews(v@) == sviews(l@).take(i as int),
            decreases l.len() - i,
        {
            let ghost before = sviews(v@);
            v.push(l[i].clone());
            assert(sviews(v@) =~= before.push(l@[i as int]@));
            assert(sviews(v@) =~= sviews(l@).take(i + 1));
            i = i + 1;
        }
        assert(sviews(l@).take(l@.len() as int) =~= sviews(l@));
        let mut out = String::new();
        push_joined_strings(&mut out, &v, "\n");
        push_str(&mut out, "\n");
        out
    }

    /// Reads the lines of an `Interests` file into this database; the first
    /// line that is neither blank nor three words stops it with `Malformed`.
    pub fn load_interests(&mut self, content: &str) -> (r: Result<(), TriggerError>)
        ensures
            final(self)@.pending == old(self)@.pending,
            final(self)@.interests == load_fold(old(self)@.interests, lines(content@)).0,
            match load_fold(old(self)@.interests, lines(content@)).1 {
                None => r is Ok,
                Some(l) => r matches Err(TriggerError::Malformed(x)) && x@ == l,
            },
    {
        let v = chars_of(content);
        let ls = lines_exec(&v, 0, v.len());
        proof {
            assert(v@.subrange(0, v@.len() as int) =~= v@);
        }
        let ghost lv = views(ls@);
        let ghost i0 = self@.interests;
        let ghost p0 = self@.pending;
        let mut k: usize = 0;
        proof {
            assert(lv.take(0) =~= Seq::<Seq<char>>::empty());
        }
        while k < ls.len()
            invariant
                k <= ls@.len(),
                lv == views(ls@),
                lv == lines(content@),
                self@.pending == p0,
                p0 == old(self)@.pending,
                i0 == old(self)@.interests,
                load_fold(i0, lv.take(k as int)) == (self@.interests, None::<Seq<char>>),
            decreases ls.len() - k,
        {
            proof {
                assert(lv.take(k + 1).drop_last() =~= lv.take(k as int));
                assert(lv.take(k + 1).last() == ls@[k as int]@);
            }
            let line = &ls[k];
            let t = trim_vec(line);
            if t.len() != 0 {
                let ws = words_exec(line, 0, line.len(), false);
                proof {
                    assert(line@.subrange(0, line@.len() as int) =~= line@);
                }
                if ws.len() != 3 {
                    proof {
                        lemma_load_err(i0, lv, k + 1);
                        assert(lv.take(lv.len() as int) =~= lv);
                    }
                    return Err(TriggerError::Malformed(string_of(line)));
                }
                let a = string_of(&ws[0]);
                let b = string_of(&ws[1]);
                let c = string_of(&ws[2]);
                let awaited = str_eq(c.as_str(), "true");
                self.interest(a.as_str(), b.as_str(), awaited);
            }
            k = k + 1;
        }
        proof {
            assert(lv.take(lv.len() as int) =~= lv);
        }
        Ok(())
    }

    /// Sets the triggers pending for `package` from the lines of its pending
    /// file (blank lines skipped); an empty file leaves the database as it
    /// was.
    pub fn load_pending(&mut self, package: &str, content: &str)
        ensures
            final(self)@.interests == old(self)@.interests,
            final(self)@.pending == if pending_lines(content@).len() > 0 {
                map_set(old(self)@.pending, package@, pending_lines(content@))
            } else {
                old(self)@.pending
            },
    {
        proof {
            use_type_invariant(&*self);
        }
        let v = chars_of(content);
        let ls = lines_exec(&v, 0, v.len());
        proof {
            assert(v@.subrange(0, v@.len() as int) =~= v@);
        }
        let ghost lv = views(ls@);
        let mut items: Vec<String> = Vec::new();
        let mut k: usize = 0;
        proof {
            assert(lv.take(0) =~= Seq::<Seq<char>>::empty());
            assert(sviews(items@) =~= Seq::<Seq<char>>::empty());
        }
        while k < ls.len()
            invariant
                k <= ls@.len(),
                lv == views(ls@),
                sviews(items@) == crate::sources_list::nonempty_trimmed(lv.take(k as int)),
            decreases ls.len() - k,
        {
            proof {
                assert(lv.take(k + 1).drop_last() =~= lv.take(k as int));
            }
            let t = trim_vec(&ls[k]);
            if t.len() > 0 {
                let ghost before = sviews(items@);
                items.push(string_of(&t));
                assert(sviews(items@) =~= before.push(t@));
            }
            k = k + 1;
        }
        proof {
            assert(lv.take(lv.len() as int) =~= lv);
        }
        if items.len() > 0 {
            let ghost f = self@.pending;
            let mut pend: Vec<(String, Vec<String>)> = Vec::new();
            std::mem::swap(&mut pend, &mut self.pending);
            proof {
                lemma_map_set(f, package@, sviews(items@));
            }
            set_pending_list(&mut pend, package, items);
            self.pending = pend;
        }
    }
}

// ── Saving and loading ────────────────────────────────────────────────────────

/// A text without surrounding whitespace ends with a character that is not
/// whitespace.
proof fn lemma_trimmed_last(x: Seq<char>)
    requires
        x.len() > 0,
        trim(x) == x,
    ensures
        !is_ws(x.last()),
{
    lemma_trim_start_len(x);
    let y = trim_start(x);
    lemma_trim_end_len(y);
    if y.len() < x.len() {
        assert(trim(x).len() < x.len());
    } else {
        assert(y == x);
    }
}

proof fn lemma_trim_start_len(s: Seq<char>)
    ensures
        trim_start(s).len() <= s.len(),
        trim_start(s).len() == s.len() ==> trim_start(s) == s,
    decreases s.len(),
{
    if s.len() > 0 && is_ws(s[0]) {
        lemma_trim_start_len(s.drop_first());
    }
}

proof fn lemma_trim_end_len(s: Seq<char>)
    ensures
        trim_end(s).len() <= s.len(),
        s.len() > 0 && is_ws(s.last()) ==> trim_end(s).len() < s.len(),
    decreases s.len(),
{
    if s.len() > 0 && is_ws(s.last()) {
        lemma_trim_end_len(s.drop_last());
    }
}

proof fn lemma_nonempty_trimmed_id(l: Seq<Seq<char>>)
    requires
        forall|i: int| 0 <= i < l.len() ==> (#[trigger] l[i]).len() > 0 && trim(l[i]) == l[i],
    ensures
        crate::sources_list::nonempty_trimmed(l) == l,
    decreases l.len(),
{
    if l.len() > 0 {
        assert forall|i: int| 0 <= i < l.drop_last().len() implies (#[trigger] l.drop_last()[i]).len() > 0 && trim(
            l.drop_last()[i],
        ) == l.drop_last()[i] by {
            assert(l.drop_last()[i] == l[i]);
        }
        lemma_nonempty_trimmed_id(l.drop_last());
        assert(l.last() == l[l.len() - 1]);
        assert(l.drop_last().push(l.last()) =~= l);
    }
}

/// Saving a package's pending triggers and loading them back into any
/// database gives the same list, when the list is not empty and each name
/// is non-empty, on one line and without surrounding whitespace.
pub proof fn lemma_pending_file_round_trip(p: Pending, q: Pending, pkg: Seq<char>)
    requires
        pend_list(p, pkg).len() > 0,
        forall|i: int|
            0 <= i < pend_list(p, pkg).len() ==> (#[trigger] pend_list(p, pkg)[i]).len() > 0 && trim(
                pend_list(p, pkg)[i],
            ) == pend_list(p, pkg)[i] && !pend_list(p, pkg)[i].contains('\n'),
    ensures
        ({
            let content = join(pend_list(p, pkg), "\n"@) + "\n"@;
            &&& pending_lines(content).len() > 0
            &&& pend_list(map_set(q, pkg, pending_lines(content)), pkg) == pend_list(p, pkg)
        }),
{
    let l = pend_list(p, pkg);
    lemma_join_unlines(l);
    assert forall|i: int| 0 <= i < l.len() implies !(#[trigger] l[i]).contains('\n') && strip_cr(l[i]) == l[i] by {
        lemma_trimmed_last(l[i]);
    }
    lemma_lines_unlines(l);
    lemma_nonempty_trimmed_id(l);
    lemma_map_set(q, pkg, l);
}

/// A non-empty name without whitespace.
pub open spec fn word_like(s: Seq<char>) -> bool {
    s.len() > 0 && forall|k: int| 0 <= k < s.len() ==> !is_ws(#[trigger] s[k])
}

/// Triggers that can be written one per line and read back: non-empty names
/// without whitespace, none named twice.
pub open spec fn savable_triggers(ts: Seq<(Seq<char>, bool)>) -> bool {
    &&& forall|a: int| 0 <= a < ts.len() ==> word_like(#[trigger] ts[a].0)
    &&& forall|a: int, b: int| 0 <= a < b < ts.len() ==> ts[a].0 != ts[b].0
}

/// Interests that the `Interests` file can hold: no package listed twice,
/// package names without whitespace, and savable triggers.
pub open spec fn savable_interests(i: Interests) -> bool {
    &&& unique_keys(i)
    &&& forall|m: int| 0 <= m < i.len() ==> word_like(#[trigger] i[m].0) && savable_triggers(i[m].1)
}

/// The line for one trigger of `pkg`, without its newline.
pub open spec fn trigger_line(pkg: Seq<char>, t: (Seq<char>, bool)) -> Seq<char> {
    pkg + " "@ + t.0 + " "@ + (if t.1 {
        "true"@
    } else {
        "false"@
    })
}

pub open spec fn trigger_line_seq(pkg: Seq<char>, ts: Seq<(Seq<char>, bool)>) -> Seq<Seq<char>> {
    Seq::new(ts.len(), |j: int| trigger_line(pkg, ts[j]))
}

/// The lines of the `Interests` file for the packages of `order`.
pub open spec fn interest_line_seq(i: Interests, order: Seq<Seq<char>>) -> Seq<Seq<char>>
    decreases order.len(),
{
    if order.len() == 0 {
        Seq::empty()
    } else {
        interest_line_seq(i, order.drop_last()) + trigger_line_seq(order.last(), interest_list(i, order.last()))
    }
}

proof fn lemma_trigger_lines_unlines(pkg: Seq<char>, ts: Seq<(Seq<char>, bool)>)
    ensures
        trigger_lines(pkg, ts) == unlines(trigger_line_seq(pkg, ts)),
    decreases ts.len(),
{
    let ls = trigger_line_seq(pkg, ts);
    if ts.len() == 0 {
        assert(ls =~= Seq::<Seq<char>>::empty());
    } else {
        lemma_trigger_lines_unlines(pkg, ts.drop_last());
        assert(trigger_line_seq(pkg, ts.drop_last()) =~= ls.drop_last());
        lemma_unlines_push(ls.drop_last(), ls.last());
        assert(ls.drop_last().push(ls.last()) =~= ls);
        assert(trigger_lines(pkg, ts) =~= unlines(ls));
    }
}

proof fn lemma_unlines_add(a: Seq<Seq<char>>, b: Seq<Seq<char>>)
    ensures
        unlines(a + b) == unlines(a) + unlines(b),
    decreases b.len(),
{
    if b.len() == 0 {
        assert(a + b =~= a);
        assert(unlines(b) == Seq::<char>::empty());
        assert(unlines(a) + unlines(b) =~= unlines(a));
    } else {
        lemma_unlines_add(a, b.drop_last());
        lemma_unlines_push(a + b.drop_last(), b.last());
        lemma_unlines_push(b.drop_last(), b.last());
        assert((a + b.drop_last()).push(b.last()) =~= a + b);
        assert(b.drop_last().push(b.last()) =~= b);
        assert(unlines(a + b) =~= unlines(a) + unlines(b));
    }
}

proof fn lemma_interests_text_unlines(i: Interests, order: Seq<Seq<char>>)
    ensures
        interests_text_of(i, order) == unlines(interest_line_seq(i, order)),
    decreases order.len(),
{
    if order.len() == 0 {
        assert(unlines(Seq::<Seq<char>>::empty()) == Seq::<char>::empty());
    } else {
        lemma_interests_text_unlines(i, order.drop_last());
        let ts = interest_list(i, order.last());
        lemma_trigger_lines_unlines(order.last(), ts);
        lemma_unlines_add(interest_line_seq(i, order.drop_last()), trigger_line_seq(order.last(), ts));
    }
}

/// A line that `lines` gives back as it is.
pub open spec fn plain_line(l: Seq<char>) -> bool {
    !l.contains('\n') && strip_cr(l) == l
}

proof fn lemma_trigger_line_plain(pkg: Seq<char>, t: (Seq<char>, bool))
    requires
        word_like(pkg),
        word_like(t.0),
    ensures
        plain_line(trigger_line(pkg, t)),
        trim(trigger_line(pkg, t)) == trigger_line(pkg, t),
{
    reveal_strlit(" ");
    reveal_strlit("true");
    reveal_strlit("false");
    let tf = if t.1 {
        "true"@
    } else {
        "false"@
    };
    let l = trigger_line(pkg, t);
    assert(l.len() == pkg.len() + t.0.len() + 2 + tf.len());
    assert forall|k: int| 0 <= k < l.len() implies l[k] != '\n' by {
        if k < pkg.len() {
            assert(l[k] == pkg[k]);
            assert(!is_ws(pkg[k]));
        } else if k == pkg.len() {
            assert(l[k] == ' ');
        } else if k < pkg.len() + 1 + t.0.len() {
            assert(l[k] == t.0[k - pkg.len() - 1]);
            assert(!is_ws(t.0[k - pkg.len() - 1]));
        } else if k == pkg.len() + 1 + t.0.len() {
            assert(l[k] == ' ');
        } else {
            assert(l[k] == tf[k - pkg.len() - 2 - t.0.len()]);
        }
    }
    assert(l.last() == 'e');
    assert(l[0] == pkg[0]);
    assert(!is_ws(l[0]));
    assert(trim_start(l) == l);
    assert(trim_end(l) == l);
}

pub proof fn lemma_word_len_prefix(w: Seq<char>, x: Seq<char>, ascii: bool)
    requires
        forall|k: int| 0 <= k < w.len() ==> !is_ws(#[trigger] w[k]),
        x.len() == 0 || x[0] == ' ',
    ensures
        word_len(w + x, ascii) == w.len(),
    decreases w.len(),
{
    if w.len() > 0 {
        let t = w.drop_first();
        assert forall|k: int| 0 <= k < t.len() implies !is_ws(#[trigger] t[k]) by {
            assert(t[k] == w[k + 1]);
        }
        lemma_word_len_prefix(t, x, ascii);
        assert((w + x)[0] == w[0]);
        assert(!is_ws(w[0]));
        assert((w + x).drop_first() =~= t + x);
    } else {
        assert(w + x =~= x);
    }
}

/// The words of a word, a space and more text: the word, then the words of
/// the rest.
pub proof fn lemma_words_cons(w: Seq<char>, rest: Seq<char>, ascii: bool)
    requires
        word_like(w),
    ensures
        words(w + " "@ + rest, ascii) == seq![w] + words(rest, ascii),
{
    reveal_strlit(" ");
    let x = " "@ + rest;
    let s = w + " "@ + rest;
    assert(s =~= w + x);
    lemma_word_len_prefix(w, x, ascii);
    assert(s[0] == w[0]);
    assert(!is_ws(w[0]));
    assert(s.take(w.len() as int) =~= w);
    assert(s.skip(w.len() as int) =~= x);
    assert(x[0] == ' ');
    assert(x.drop_first() =~= rest);
    assert(words(x, ascii) == words(rest, ascii));
    assert(words(s, ascii) == seq![s.take(w.len() as int)] + words(s.skip(w.len() as int), ascii));
}

/// The words of a single word.
pub proof fn lemma_words_single(w: Seq<char>, ascii: bool)
    requires
        word_like(w),
    ensures
        words(w, ascii) == seq![w],
{
    let e = Seq::<char>::empty();
    lemma_word_len_prefix(w, e, ascii);
    assert(w + e =~= w);
    assert(w.take(w.len() as int) =~= w);
    assert(w.skip(w.len() as int) =~= e);
    assert(words(e, ascii) =~= Seq::<Seq<char>>::empty());
}

proof fn lemma_load_step_line(j: Interests, pkg: Seq<char>, t: (Seq<char>, bool))
    requires
        word_like(pkg),
        word_like(t.0),
    ensures
        load_step(j, trigger_line(pkg, t)) == Ok::<Interests, Seq<char>>(interest_spec(j, pkg, t.0, t.1)),
{
    reveal_strlit("true");
    reveal_strlit("false");
    let tf = if t.1 {
        "true"@
    } else {
        "false"@
    };
    assert forall|k: int| 0 <= k < tf.len() implies !is_ws(#[trigger] tf[k]) by {}
    lemma_words_single(tf, false);
    lemma_words_cons(t.0, tf, false);
    assert(trigger_line(pkg, t) =~= pkg + " "@ + (t.0 + " "@ + tf));
    lemma_words_cons(pkg, t.0 + " "@ + tf, false);
    let ws = words(trigger_line(pkg, t), false);
    assert(ws =~= seq![pkg, t.0, tf]);
    lemma_trigger_line_plain(pkg, t);
    assert((ws[2] == "true"@) == t.1);
}

proof fn lemma_load_fold_add(x: Interests, a: Seq<Seq<char>>, b: Seq<Seq<char>>)
    requires
        load_fold(x, a).1 is None,
    ensures
        load_fold(x, a + b) == load_fold(load_fold(x, a).0, b),
    decreases b.len(),
{
    if b.len() == 0 {
        assert(a + b =~= a);
    } else {
        lemma_load_fold_add(x, a, b.drop_last());
        assert((a + b).drop_last() =~= a + b.drop_last());
        assert((a + b).last() == b.last());
    }
}

/// Reading the lines of one package's triggers into interests that know
/// nothing of the package gives it exactly those triggers.
proof fn lemma_load_package(y: Interests, pkg: Seq<char>, ts: Seq<(Seq<char>, bool)>)
    requires
        word_like(pkg),
        savable_triggers(ts),
        interest_list(y, pkg) == Seq::<(Seq<char>, bool)>::empty(),
    ensures
        load_fold(y, trigger_line_seq(pkg, ts)).1 is None,
        interest_list(load_fold(y, trigger_line_seq(pkg, ts)).0, pkg) == ts,
        forall|k: Seq<char>|
            k != pkg ==> #[trigger] interest_list(load_fold(y, trigger_line_seq(pkg, ts)).0, k) == interest_list(y, k),
    decreases ts.len(),
{
    let ls = trigger_line_seq(pkg, ts);
    if ts.len() == 0 {
        assert(ls =~= Seq::<Seq<char>>::empty());
        assert(ts =~= Seq::<(Seq<char>, bool)>::empty());
    } else {
        let d = ts.drop_last();
        assert forall|a: int| 0 <= a < d.len() implies word_like(#[trigger] d[a].0) by {
            assert(d[a] == ts[a]);
        }
        lemma_load_package(y, pkg, d);
        assert(trigger_line_seq(pkg, d) =~= ls.drop_last());
        let r0 = load_fold(y, ls.drop_last()).0;
        let t = ts.last();
        assert(ls.last() == trigger_line(pkg, t));
        assert(word_like(ts[ts.len() - 1].0));
        lemma_load_step_line(r0, pkg, t);
        assert(interest_list(r0, pkg) == d);
        assert(!has_trigger(d, t.0)) by {
            if has_trigger(d, t.0) {
                let k = choose|k: int| 0 <= k < d.len() && #[trigger] d[k].0 == t.0;
                assert(d[k] == ts[k]);
                assert(ts[k].0 != ts[ts.len() - 1].0);
            }
        }
        assert(d.push(t) =~= ts);
        lemma_map_set(r0, pkg, ts);
        assert forall|k: Seq<char>| k != pkg implies #[trigger] interest_list(load_fold(y, ls).0, k) == interest_list(
            y,
            k,
        ) by {
            assert(interest_list(r0, k) == interest_list(y, k));
        }
    }
}

/// Reading the lines written for the packages of `order` into empty interests.
proof fn lemma_load_packages(i: Interests, order: Seq<Seq<char>>)
    requires
        order.no_duplicates(),
        forall|m: int|
            0 <= m < order.len() ==> word_like(#[trigger] order[m]) && savable_triggers(interest_list(i, order[m])),
    ensures
        load_fold(Seq::empty(), interest_line_seq(i, order)).1 is None,
        forall|k: Seq<char>|
            #[trigger] interest_list(load_fold(Seq::empty(), interest_line_seq(i, order)).0, k) == if order.contains(k) {
                interest_list(i, k)
            } else {
                Seq::<(Seq<char>, bool)>::empty()
            },
    decreases order.len(),
{
    let e: Interests = Seq::empty();
    if order.len() == 0 {
        assert(interest_line_seq(i, order) =~= Seq::<Seq<char>>::empty());
        assert forall|k: Seq<char>| #[trigger] interest_list(load_fold(e, interest_line_seq(i, order)).0, k)
            == Seq::<(Seq<char>, bool)>::empty() by {
            assert(!has_key(e, k));
        }
    } else {
        let d = order.drop_last();
        let last = order.last();
        assert(d.no_duplicates()) by {
            assert forall|a: int, b: int| 0 <= a < d.len() && 0 <= b < d.len() && a != b implies d[a] != d[b] by {
                assert(d[a] == order[a] && d[b] == order[b]);
            }
        }
        assert forall|m: int| 0 <= m < d.len() implies word_like(#[trigger] d[m]) && savable_triggers(
            interest_list(i, d[m]),
        ) by {
            assert(d[m] == order[m]);
        }
        lemma_load_packages(i, d);
        let y = load_fold(e, interest_line_seq(i, d)).0;
        assert(!d.contains(last)) by {
            if d.contains(last) {
                let k = choose|k: int| 0 <= k < d.len() && d[k] == last;
                assert(order[k] == order[order.len() - 1]);
            }
        }
        assert(interest_list(y, last) == Seq::<(Seq<char>, bool)>::empty());
        assert(word_like(order[order.len() - 1]));
        let ts = interest_list(i, last);
        lemma_load_package(y, last, ts);
        lemma_load_fold_add(e, interest_line_seq(i, d), trigger_line_seq(last, ts));
        let r = load_fold(e, interest_line_seq(i, order)).0;
        assert forall|k: Seq<char>| #[trigger] interest_list(r, k) == if order.contains(k) {
            interest_list(i, k)
        } else {
            Seq::<(Seq<char>, bool)>::empty()
        } by {
            assert(order.contains(k) <==> (d.contains(k) || k == last)) by {
                if order.contains(k) {
                    let m = choose|m: int| 0 <= m < order.len() && order[m] == k;
                    if m < d.len() {
                        assert(d[m] == k);
                    }
                }
                if d.contains(k) {
                    let m = choose|m: int| 0 <= m < d.len() && d[m] == k;
                    assert(order[m] == k);
                }
                if k == last {
                    assert(order[order.len() - 1] == k);
                }
            }
            if k != last {
                assert(interest_list(r, k) == interest_list(y, k));
            }
        }
    }
}

/// Saving the interests and reading the saved file back into an empty
/// database gives every package the triggers it had, in the same order, when
/// no package is listed twice, package and trigger names are non-empty and
/// free of whitespace, and no package names a trigger twice.
pub proof fn lemma_interests_file_round_trip(i: Interests, pkg: Seq<char>)
    requires
        savable_interests(i),
    ensures
        load_fold(Seq::empty(), lines(interests_text(i))).1 is None,
        interest_list(load_fold(Seq::empty(), lines(interests_text(i))).0, pkg) == interest_list(i, pkg),
{
    let keys = keys_of(i);
    let order = sort_strs(keys);
    lemma_sort_strs_elems(keys);
    assert(keys.no_duplicates()) by {
        assert forall|a: int, b: int| 0 <= a < keys.len() && 0 <= b < keys.len() && a != b implies keys[a] != keys[b] by {
            if a < b {
                assert(i[a].0 != i[b].0);
            } else {
                assert(i[b].0 != i[a].0);
            }
        }
    }
    assert forall|m: int| 0 <= m < order.len() implies word_like(#[trigger] order[m]) && savable_triggers(
        interest_list(i, order[m]),
    ) by {
        assert(order.contains(order[m]));
        assert(keys.contains(order[m]));
        let idx = choose|idx: int| 0 <= idx < keys.len() && keys[idx] == order[m];
        lemma_key_index(i, order[m]);
        let ki = key_index(i, order[m]) as int;
        assert(ki <= idx);
        assert(ki == idx) by {
            if ki < idx {
                assert(i[ki].0 != i[idx].0);
            }
        }
        assert(interest_list(i, order[m]) == i[idx].1);
    }
    lemma_load_packages(i, order);
    let ls = interest_line_seq(i, order);
    lemma_interests_text_unlines(i, order);
    assert forall|j: int| 0 <= j < ls.len() implies !(#[trigger] ls[j]).contains('\n') && strip_cr(ls[j]) == ls[j] by {
        lemma_line_seq_plain(i, order, j);
    }
    lemma_lines_unlines(ls);
    assert(lines(interests_text(i)) == ls);
    let r = load_fold(Seq::empty(), ls).0;
    assert(interest_list(r, pkg) == if order.contains(pkg) {
        interest_list(i, pkg)
    } else {
        Seq::<(Seq<char>, bool)>::empty()
    });
    if !order.contains(pkg) {
        lemma_key_index(i, pkg);
        if has_key(i, pkg) {
            assert(keys[key_index(i, pkg) as int] == pkg);
            assert(keys.contains(pkg));
            assert(sort_strs(keys).contains(pkg));
        }
        assert(!has_key(i, pkg));
    }
}

proof fn lemma_line_seq_plain(i: Interests, order: Seq<Seq<char>>, j: int)
    requires
        forall|m: int|
            0 <= m < order.len() ==> word_like(#[trigger] order[m]) && savable_triggers(interest_list(i, order[m])),
        0 <= j < interest_line_seq(i, order).len(),
    ensures
        plain_line(interest_line_seq(i, order)[j]),
    decreases order.len(),
{
    let d = order.drop_last();
    let a = interest_line_seq(i, d);
    let ts = interest_list(i, order.last());
    assert(word_like(order[order.len() - 1]));
    if j < a.len() {
        assert forall|m: int| 0 <= m < d.len() implies word_like(#[trigger] d[m]) && savable_triggers(
            interest_list(i, d[m]),
        ) by {
            assert(d[m] == order[m]);
        }
        lemma_line_seq_plain(i, d, j);
    } else {
        let t = ts[j - a.len()];
        assert(word_like(t.0));
        lemma_trigger_line_plain(order.last(), t);
    }
}

} // verus!
