//! All available packages, indexed by name and by the virtual names they
//! provide.

use vstd::prelude::*;
use crate::control_file::BinaryPackage;
use crate::fields::{key_index, lemma_key_index, lemma_key_index_at, lemma_map_set, map_get, map_set};
use crate::solver::model::{binary_package_to_pkg, pkg_result, pkg_views, Package, PkgV, SolverError};
use crate::text::chars_of;
use rayon::iter::{IntoParallelRefIterator, ParallelIterator};

verus! {

/// The indices of the packages named `k`, in order.
pub open spec fn named(pkgs: Seq<PkgV>, k: Seq<char>) -> Seq<usize>
    decreases pkgs.len(),
{
    if pkgs.len() == 0 {
        Seq::empty()
    } else {
        named(pkgs.drop_last(), k) + if pkgs.last().name == k {
            seq![(pkgs.len() - 1) as usize]
        } else {
            Seq::empty()
        }
    }
}

pub proof fn lemma_named_bounds(pkgs: Seq<PkgV>, k: Seq<char>)
    ensures
        forall|i: int| 0 <= i < named(pkgs, k).len() ==> #[trigger] named(pkgs, k)[i] < pkgs.len(),
    decreases pkgs.len(),
{
    if pkgs.len() > 0 {
        lemma_named_bounds(pkgs.drop_last(), k);
        let n0 = named(pkgs.drop_last(), k);
        assert forall|i: int| 0 <= i < named(pkgs, k).len() implies #[trigger] named(pkgs, k)[i] < pkgs.len() by {
            if i < n0.len() {
                assert(named(pkgs, k)[i] == n0[i]);
            }
        }
    }
}

pub proof fn lemma_provided_bounds(pkgs: Seq<PkgV>, k: Seq<char>)
    ensures
        forall|i: int| 0 <= i < provided(pkgs, k).len() ==> #[trigger] provided(pkgs, k)[i] < pkgs.len(),
    decreases pkgs.len(),
{
    if pkgs.len() > 0 {
        lemma_provided_bounds(pkgs.drop_last(), k);
        let n0 = provided(pkgs.drop_last(), k);
        assert forall|i: int| 0 <= i < provided(pkgs, k).len() implies #[trigger] provided(pkgs, k)[i] < pkgs.len() by {
            if i < n0.len() {
                assert(provided(pkgs, k)[i] == n0[i]);
            }
        }
    }
}

/// Index `j` is among the packages named `k` exactly when the package at `j`
/// has that name.
pub proof fn lemma_named_contains(pkgs: Seq<PkgV>, k: Seq<char>, j: usize)
    requires
        pkgs.len() <= usize::MAX,
    ensures
        named(pkgs, k).contains(j) <==> (j < pkgs.len() && pkgs[j as int].name == k),
    decreases pkgs.len(),
{
    if pkgs.len() > 0 {
        let p0 = pkgs.drop_last();
        lemma_named_contains(p0, k, j);
        let n0 = named(p0, k);
        let last = (pkgs.len() - 1) as usize;
        let t = named(pkgs, k);
        if pkgs.last().name == k {
            assert(t =~= n0.push(last));
        } else {
            assert(t =~= n0);
        }
        if t.contains(j) {
            let m = choose|m: int| 0 <= m < t.len() && t[m] == j;
            if m < n0.len() {
                assert(n0[m] == j);
                assert(n0.contains(j));
            }
        }
        if j < pkgs.len() && pkgs[j as int].name == k {
            if j < pkgs.len() - 1 {
                assert(p0[j as int] == pkgs[j as int]);
                let m = choose|m: int| 0 <= m < n0.len() && n0[m] == j;
                assert(t[m] == j);
            } else {
                assert(t[t.len() - 1] == j);
            }
        }
    }
}

/// How often `k` occurs in `names`.
pub open spec fn occurrences(names: Seq<Seq<char>>, k: Seq<char>) -> nat
    decreases names.len(),
{
    if names.len() == 0 {
        0
    } else {
        occurrences(names.drop_last(), k) + if names.last() == k {
            1nat
        } else {
            0nat
        }
    }
}

/// The indices of the packages providing `k`, in order, an index once for
/// each time its package lists `k`.
pub open spec fn provided(pkgs: Seq<PkgV>, k: Seq<char>) -> Seq<usize>
    decreases pkgs.len(),
{
    if pkgs.len() == 0 {
        Seq::empty()
    } else {
        provided(pkgs.drop_last(), k) + Seq::new(
            occurrences(pkgs.last().provides, k),
            |x: int| (pkgs.len() - 1) as usize,
        )
    }
}

/// Index lists keyed by name.
pub type IndexMap = Seq<(Seq<char>, Seq<usize>)>;

pub open spec fn index_views(v: Seq<(String, Vec<usize>)>) -> IndexMap {
    Seq::new(v.len(), |i: int| (v[i].0@, v[i].1@))
}

/// The list stored under `k`, empty when there is none.
pub open spec fn list_of(f: IndexMap, k: Seq<char>) -> Seq<usize> {
    match map_get(f, k) {
        Some(l) => l,
        None => Seq::empty(),
    }
}

/// All available packages for a given architecture.
pub struct Universe {
    packages: Vec<Package>,
    /// Real name → indices into `packages`.
    by_name: Vec<(String, Vec<usize>)>,
    /// Virtual name → indices of providing packages.
    providers: Vec<(String, Vec<usize>)>,
}

impl Universe {
    #[verifier::type_invariant]
    spec fn indexed(&self) -> bool {
        let p = pkg_views(self.packages@);
        forall|k: Seq<char>|
            #![trigger list_of(index_views(self.by_name@), k)]
            #![trigger list_of(index_views(self.providers@), k)]
            list_of(index_views(self.by_name@), k) == named(p, k)
                && list_of(index_views(self.providers@), k) == provided(p, k)
    }

    /// The packages, in the order they were added.
    pub closed spec fn pkgs(&self) -> Seq<PkgV> {
        pkg_views(self.packages@)
    }

    /// An empty universe.
    pub fn new() -> (r: Universe)
        ensures
            r.pkgs().len() == 0,
    {
        let r = Universe { packages: Vec::new(), by_name: Vec::new(), providers: Vec::new() };
        assert(r.pkgs() =~= Seq::<PkgV>::empty());
        r
    }

    /// Adds a package; it gets the next index.
    pub fn add_package(&mut self, pkg: Package)
        ensures
            final(self).pkgs() == old(self).pkgs().push(pkg@),
    {
        proof {
            use_type_invariant(&*self);
        }
        let mut u = Universe::new();
        std::mem::swap(&mut u, self);
        proof {
            use_type_invariant(&u);
        }
        let ghost p0 = u.pkgs();
        let ghost b0 = index_views(u.by_name@);
        let ghost pr0 = index_views(u.providers@);
        proof {
            assert forall|k: Seq<char>| #[trigger] list_of(b0, k) == named(p0, k) by {
                assert(list_of(index_views(u.by_name@), k) == named(p0, k));
            }
            assert forall|k: Seq<char>| #[trigger] list_of(pr0, k) == provided(p0, k) by {
                assert(list_of(index_views(u.providers@), k) == provided(p0, k));
            }
        }
        let Universe { mut packages, mut by_name, mut providers } = u;
        let idx = packages.len();
        let ghost pv = pkg@;
        append_index(&mut by_name, pkg.name.as_str(), idx);
        proof {
            assert forall|k: Seq<char>| #[trigger] list_of(index_views(providers@), k) == provided(p0, k) + Seq::new(
                occurrences(pv.provides.take(0), k),
                |x: int| idx,
            ) by {
                assert(list_of(pr0, k) == provided(p0, k));
                assert(provided(p0, k) + Seq::new(occurrences(pv.provides.take(0), k), |x: int| idx) =~= provided(p0, k));
            }
        }
        let mut i: usize = 0;
        while i < pkg.provides.len()
            invariant
                i <= pkg.provides@.len(),
                idx == p0.len(),
                pv == pkg@,
                forall|k: Seq<char>| #[trigger] list_of(index_views(providers@), k) == provided(p0, k) + Seq::new(
                    occurrences(pv.provides.take(i as int), k),
                    |x: int| idx,
                ),
            decreases pkg.provides@.len() - i,
        {
            let ghost before = index_views(providers@);
            append_index(&mut providers, pkg.provides[i].as_str(), idx);
            proof {
                let t = pv.provides.take(i + 1);
                assert(t.drop_last() =~= pv.provides.take(i as int));
                assert forall|k: Seq<char>| #[trigger] list_of(index_views(providers@), k) == provided(p0, k) + Seq::new(
                    occurrences(t, k),
                    |x: int| idx,
                ) by {
                    assert(list_of(before, k) == provided(p0, k) + Seq::new(
                        occurrences(pv.provides.take(i as int), k),
                        |x: int| idx,
                    ));
                    if k == pv.provides[i as int] {
                        assert(Seq::new(occurrences(t, k), |x: int| idx) =~= Seq::new(
                            occurrences(pv.provides.take(i as int), k),
                            |x: int| idx,
                        ).push(idx));
                    } else {
                        assert(occurrences(t, k) == occurrences(pv.provides.take(i as int), k));
                    }
                }
            }
            i = i + 1;
        }
        packages.push(pkg);
        proof {
            let p1 = pkg_views(packages@);
            assert(p1 =~= p0.push(pv));
            assert(p1.drop_last() =~= p0);
            assert(pv.provides.take(i as int) =~= pv.provides);
            assert forall|k: Seq<char>| #[trigger] list_of(index_views(by_name@), k) == named(p1, k) by {
                assert(list_of(b0, k) == named(p0, k));
                if k == pv.name {
                    assert(named(p1, k) =~= named(p0, k).push(idx));
                } else {
                    assert(named(p1, k) =~= named(p0, k));
                }
            }
            assert forall|k: Seq<char>| #[trigger] list_of(index_views(providers@), k) == provided(p1, k) by {
                assert(provided(p1, k) == provided(p0, k) + Seq::new(occurrences(pv.provides, k), |x: int| idx));
            }
        }
        let r = Universe { packages, by_name, providers };
        assert(r.pkgs() == pkg_views(r.packages@));
        *self = r;
    }

    /// The indices of the packages named `name`.
    pub fn indices_named(&self, name: &str) -> (r: Vec<usize>)
        ensures
            r@ == named(self.pkgs(), name@),
    {
        proof {
            use_type_invariant(self);
        }
        lookup(&self.by_name, name)
    }

    /// The indices of the packages providing `name`.
    pub fn indices_providing(&self, name: &str) -> (r: Vec<usize>)
        ensures
            r@ == provided(self.pkgs(), name@),
    {
        proof {
            use_type_invariant(self);
        }
        lookup(&self.providers, name)
    }

    /// The package at index `i`.
    pub fn package(&self, i: usize) -> (r: &Package)
        requires
            i < self.pkgs().len(),
        ensures
            r@ == self.pkgs()[i as int],
    {
        &self.packages[i]
    }

    /// Number of packages.
    pub fn len(&self) -> (r: usize)
        ensures
            r == self.pkgs().len(),
    {
        self.packages.len()
    }

    /// The packages named `name`, in order.
    pub fn packages_named(&self, name: &str) -> (r: Vec<&Package>)
        ensures
            r@.len() == named(self.pkgs(), name@).len(),
            forall|i: int| 0 <= i < r@.len() ==> #[trigger] r@[i]@ == self.pkgs()[named(self.pkgs(), name@)[i] as int],
    {
        let idx = self.indices_named(name);
        proof {
            lemma_named_bounds(self.pkgs(), name@);
        }
        self.packages_at(idx.as_slice())
    }

    /// The packages providing `virtual_name`, in order.
    pub fn providers_of(&self, virtual_name: &str) -> (r: Vec<&Package>)
        ensures
            r@.len() == provided(self.pkgs(), virtual_name@).len(),
            forall|i: int| 0 <= i < r@.len() ==> #[trigger] r@[i]@ == self.pkgs()[provided(self.pkgs(), virtual_name@)[i] as int],
    {
        let idx = self.indices_providing(virtual_name);
        proof {
            lemma_provided_bounds(self.pkgs(), virtual_name@);
        }
        self.packages_at(idx.as_slice())
    }

    fn packages_at(&self, idx: &[usize]) -> (r: Vec<&Package>)
        requires
            forall|i: int| 0 <= i < idx@.len() ==> #[trigger] idx@[i] < self.pkgs().len(),
        ensures
            r@.len() == idx@.len(),
            forall|i: int| 0 <= i < r@.len() ==> #[trigger] r@[i]@ == self.pkgs()[idx@[i] as int],
    {
        let mut out: Vec<&Package> = Vec::new();
        let mut i: usize = 0;
        while i < idx.len()
            invariant
                i <= idx@.len(),
                out@.len() == i,
                forall|i: int| 0 <= i < idx@.len() ==> #[trigger] idx@[i] < self.pkgs().len(),
                forall|j: int| 0 <= j < i ==> #[trigger] out@[j]@ == self.pkgs()[idx@[j] as int],
            decreases idx@.len() - i,
        {
            out.push(&self.packages[idx[i]]);
            i = i + 1;
        }
        out
    }

    /// A copy of this universe.
    pub fn copy(&self) -> (r: Universe)
        ensures
            r.pkgs() == self.pkgs(),
    {
        let mut u = Universe::new();
        let mut i: usize = 0;
        while i < self.packages.len()
            invariant
                i <= self.pkgs().len(),
                u.pkgs() == self.pkgs().take(i as int),
            decreases self.pkgs().len() - i,
        {
            u.add_package(self.packages[i].copy());
            i = i + 1;
            assert(u.pkgs() =~= self.pkgs().take(i as int));
        }
        assert(self.pkgs().take(i as int) =~= self.pkgs());
        u
    }

    /// Builds a universe from binary package stanzas, in order; the first
    /// stanza that does not convert makes it fail. The stanzas are converted
    /// in parallel.
    pub fn from_binary_packages(pkgs: &[BinaryPackage]) -> (r: Result<Universe, SolverError>)
        ensures
            (forall|i: int| 0 <= i < pkgs@.len() ==> #[trigger] pkg_result(pkgs@[i]@) is Some) ==> (r matches Ok(u)
                && u.pkgs().len() == pkgs@.len() && forall|i: int| 0 <= i < pkgs@.len() ==> pkg_result(pkgs@[i]@)
                == Some(#[trigger] u.pkgs()[i])),
            !(forall|i: int| 0 <= i < pkgs@.len() ==> #[trigger] pkg_result(pkgs@[i]@) is Some) ==> r matches Err(
                SolverError::ParseError(_),
            ),
    {
        let parsed = convert_all(pkgs);
        let mut universe = Universe::new();
        let mut i: usize = 0;
        while i < parsed.len()
            invariant
                i <= parsed@.len(),
                parsed@.len() == pkgs@.len(),
                forall|j: int| 0 <= j < parsed@.len() ==> #[trigger] converted(parsed@[j], pkgs@[j]@),
                universe.pkgs().len() == i,
                forall|j: int| 0 <= j < i ==> pkg_result(pkgs@[j]@) == Some(#[trigger] universe.pkgs()[j]),
            decreases parsed@.len() - i,
        {
            assert(converted(parsed@[i as int], pkgs@[i as int]@));
            match &parsed[i] {
                Ok(p) => {
                    universe.add_package(p.copy());
                },
                Err(e) => {
                    return Err(e.copy());
                },
            }
            i = i + 1;
        }
        proof {
            assert forall|j: int| 0 <= j < pkgs@.len() implies #[trigger] pkg_result(pkgs@[j]@) is Some by {
                assert(pkg_result(pkgs@[j]@) == Some(universe.pkgs()[j]));
            }
        }
        Ok(universe)
    }
}

impl Default for Universe {
    /// An empty universe.
    fn default() -> (r: Universe)
        ensures
            r.pkgs().len() == 0,
    {
        Universe::new()
    }
}

/// `r` is what [`binary_package_to_pkg`] gives for a stanza viewed as `b`.
pub open spec fn converted(r: Result<Package, SolverError>, b: crate::control_file::BinaryView) -> bool {
    match pkg_result(b) {
        Some(p) => r matches Ok(x) && x@ == p,
        None => r matches Err(SolverError::ParseError(_)),
    }
}

/// Converts every stanza with [`binary_package_to_pkg`], in parallel.
///
/// Wraps `rayon`'s `par_iter` over the stanzas, `map` with
/// `binary_package_to_pkg` and `collect` into a `Vec`, which keeps the order
/// of the stanzas; each item is what the verified conversion gives for the
/// stanza at its position.
#[verifier::external_body]
fn convert_all(pkgs: &[BinaryPackage]) -> (r: Vec<Result<Package, SolverError>>)
    ensures
        r@.len() == pkgs@.len(),
        forall|i: int| 0 <= i < pkgs@.len() ==> #[trigger] converted(r@[i], pkgs@[i]@),
{
    pkgs.par_iter().map(binary_package_to_pkg).collect()
}

fn lookup(v: &Vec<(String, Vec<usize>)>, key: &str) -> (r: Vec<usize>)
    ensures
        r@ == list_of(index_views(v@), key@),
{
    let kc = chars_of(key);
    let i = key_pos(v, &kc);
    proof {
        lemma_key_index(index_views(v@), key@);
    }
    if i < v.len() {
        copy_usize_slice(v[i].1.as_slice())
    } else {
        Vec::new()
    }
}

fn key_pos(v: &Vec<(String, Vec<usize>)>, k: &Vec<char>) -> (r: usize)
    ensures
        r == key_index(index_views(v@), k@),
{
    let ghost f = index_views(v@);
    let mut i: usize = 0;
    while i < v.len()
        invariant
            i <= v@.len(),
            f == index_views(v@),
            forall|m: int| 0 <= m < i ==> f[m].0 != k@,
        decreases v@.len() - i,
    {
        let kc = chars_of(v[i].0.as_str());
        if crate::text::chars_eq(&kc, k) {
            proof {
                lemma_key_index_at(f, k@, i as int);
            }
            return i;
        }
        i = i + 1;
    }
    proof {
        lemma_key_index_at(f, k@, i as int);
    }
    i
}

/// Appends `idx` to the list stored under `key`.
fn append_index(v: &mut Vec<(String, Vec<usize>)>, key: &str, idx: usize)
    ensures
        forall|k: Seq<char>| #[trigger] list_of(index_views(final(v)@), k) == if k == key@ {
            list_of(index_views(old(v)@), k).push(idx)
        } else {
            list_of(index_views(old(v)@), k)
        },
{
    let ghost f = index_views(v@);
    let kc = chars_of(key);
    let i = key_pos(v, &kc);
    proof {
        lemma_key_index(f, key@);
    }
    let ghost newl = list_of(f, key@).push(idx);
    if i < v.len() {
        let mut l = copy_usize_slice(v[i].1.as_slice());
        l.push(idx);
        v.set(i, (crate::text::own(key), l));
        proof {
            assert(index_views(v@) =~= f.update(i as int, (key@, newl)));
            assert(index_views(v@) == map_set(f, key@, newl));
        }
    } else {
        let mut l: Vec<usize> = Vec::new();
        l.push(idx);
        v.push((crate::text::own(key), l));
        proof {
            assert(l@ =~= newl);
            assert(index_views(v@) =~= f.push((key@, newl)));
            assert(index_views(v@) == map_set(f, key@, newl));
        }
    }
    proof {
        lemma_map_set(f, key@, newl);
    }
}

fn copy_usize_slice(s: &[usize]) -> (r: Vec<usize>)
    ensures
        r@ == s@,
{
    let mut out: Vec<usize> = Vec::new();
    let mut i: usize = 0;
    while i < s.len()
        invariant
            i <= s@.len(),
            out@ == s@.take(i as int),
        decreases s@.len() - i,
    {
        out.push(s[i]);
        i = i + 1;
        assert(out@ =~= s@.take(i as int));
    }
    assert(s@.take(i as int) =~= s@);
    out
}

} // verus!
