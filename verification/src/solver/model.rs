//! Packages and their relations: dependency specifications (`name (op
//! version)`), OR-groups of them, and the package records the resolver
//! works on.

use vstd::prelude::*;
use crate::control_file::{BinaryPackage, BinaryView};
use crate::deb_version::{
    parse_constraint_spec, parse_version_spec, ConstraintOp, Version, VersionConstraint,
    VersionView,
};
use crate::sources_list::nonempty_trimmed;
use crate::text::{chars_of, index_of, own, slice_of, split_char, split_char_exec,
    string_of_range, strip_trailing, strip_trailing_exec, trim, trim_bounds, views};

verus! {

// ─── Errors ───────────────────────────────────────────────────────────────────

/// Errors of dependency parsing and resolution.
#[derive(Debug)]
pub enum SolverError {
    /// No selection of packages satisfies every constraint.
    NoSolution(String),
    /// A dependency field or version could not be parsed.
    ParseError(String),
    /// A requested name is neither a package nor provided by one.
    UnknownPackage(String),
}

/// The same variant with the same message.
pub open spec fn same_error(a: SolverError, b: SolverError) -> bool {
    match (a, b) {
        (SolverError::NoSolution(x), SolverError::NoSolution(y)) => x@ == y@,
        (SolverError::ParseError(x), SolverError::ParseError(y)) => x@ == y@,
        (SolverError::UnknownPackage(x), SolverError::UnknownPackage(y)) => x@ == y@,
        _ => false,
    }
}

/// The message of an error.
pub open spec fn error_text(e: SolverError) -> Seq<char> {
    match e {
        SolverError::NoSolution(m) => "no solution: "@ + m@,
        SolverError::ParseError(m) => "parse error: "@ + m@,
        SolverError::UnknownPackage(m) => "unknown package: "@ + m@,
    }
}

impl SolverError {
    /// A copy of this error.
    pub fn copy(&self) -> (r: SolverError)
        ensures
            same_error(r, *self),
    {
        match self {
            SolverError::NoSolution(m) => SolverError::NoSolution(own(m.as_str())),
            SolverError::ParseError(m) => SolverError::ParseError(own(m.as_str())),
            SolverError::UnknownPackage(m) => SolverError::UnknownPackage(own(m.as_str())),
        }
    }

    /// Human-readable description of the error.
    pub fn to_string(&self) -> (r: String)
        ensures
            r@ == error_text(*self),
    {
        let (head, m) = match self {
            SolverError::NoSolution(m) => ("no solution: ", m),
            SolverError::ParseError(m) => ("parse error: ", m),
            SolverError::UnknownPackage(m) => ("unknown package: ", m),
        };
        let mut out = own(head);
        crate::text::push_str(&mut out, m.as_str());
        out
    }
}

// ─── Dependency specifications ────────────────────────────────────────────────

/// A single dependency specification: `name [(op version)]`.
#[derive(Debug, Clone)]
pub struct DependencySpec {
    pub name: String,
    pub constraint: Option<VersionConstraint>,
}

/// Abstract value of a [`DependencySpec`].
pub struct SpecV {
    pub name: Seq<char>,
    pub constraint: Option<(ConstraintOp, VersionView)>,
}

pub open spec fn constraint_view(c: Option<VersionConstraint>) -> Option<(ConstraintOp, VersionView)> {
    match c {
        Some(c) => Some((c.op, c.version@)),
        None => None,
    }
}

impl View for DependencySpec {
    type V = SpecV;

    open spec fn view(&self) -> SpecV {
        SpecV { name: self.name@, constraint: constraint_view(self.constraint) }
    }
}

/// What `DependencySpec::parse` yields: with a `(`, the trimmed name before
/// it and the constraint inside (trailing `)` dropped); without, the name up
/// to an architecture qualifier `:`.
pub open spec fn spec_result(s: Seq<char>) -> Option<SpecV> {
    let t = trim(s);
    let p = index_of(t, '(');
    if p < t.len() {
        let rest = trim(strip_trailing(t.skip((p + 1) as int), ')'));
        match parse_constraint_spec(rest) {
            Ok(c) => Some(SpecV { name: trim(t.take(p as int)), constraint: Some(c) }),
            Err(_) => None,
        }
    } else {
        Some(SpecV { name: trim(t.take(index_of(t, ':') as int)), constraint: None })
    }
}

impl DependencySpec {
    /// Parses `"name"` or `"name (op version)"`; an architecture qualifier
    /// (`name:amd64`) is dropped.
    pub fn parse(s: &str) -> (r: Result<DependencySpec, SolverError>)
        ensures
            match spec_result(s@) {
                Some(d) => r matches Ok(x) && x@ == d,
                None => r matches Err(SolverError::ParseError(_)),
            },
    {
        let v = chars_of(s);
        let (a, b) = trim_bounds(&v, 0, v.len());
        proof {
            assert(v@.subrange(0, v@.len() as int) =~= v@);
        }
        let t = slice_of(&v, a, b);
        let p = crate::text::find_char(&t, 0, t.len(), '(');
        proof {
            assert(t@.subrange(0, t@.len() as int) =~= t@);
        }
        if p < t.len() {
            let (na, nb) = trim_bounds(&t, 0, p);
            let name = string_of_range(&t, na, nb);
            let rest0 = slice_of(&t, p + 1, t.len());
            let rest1 = strip_trailing_exec(&rest0, ')');
            let (ra, rb) = trim_bounds(&rest1, 0, rest1.len());
            let rest = string_of_range(&rest1, ra, rb);
            proof {
                assert(t@.take(p as int) =~= t@.subrange(0, p as int));
                assert(rest0@ =~= t@.skip(p + 1));
                assert(rest1@.subrange(0, rest1@.len() as int) =~= rest1@);
            }
            match VersionConstraint::parse(rest.as_str()) {
                Ok(c) => Ok(DependencySpec { name, constraint: Some(c) }),
                Err(e) => Err(SolverError::ParseError(e.to_string())),
            }
        } else {
            let q = crate::text::find_char(&t, 0, t.len(), ':');
            let (na, nb) = trim_bounds(&t, 0, q);
            proof {
                assert(t@.take(q as int) =~= t@.subrange(0, q as int));
            }
            let name = string_of_range(&t, na, nb);
            Ok(DependencySpec { name, constraint: None })
        }
    }

    /// A copy of this specification.
    pub fn copy(&self) -> (r: DependencySpec)
        ensures
            r@ == self@,
    {
        let constraint = match &self.constraint {
            Some(c) => Some(VersionConstraint { op: c.op, version: copy_version(&c.version) }),
            None => None,
        };
        DependencySpec { name: own(self.name.as_str()), constraint }
    }
}

/// A copy of a version.
pub fn copy_version(v: &Version) -> (r: Version)
    ensures
        r@ == v@,
{
    Version { epoch: v.epoch, upstream: own(v.upstream.as_str()), revision: own(v.revision.as_str()) }
}

// ─── Dependency groups ────────────────────────────────────────────────────────

/// An OR group of dependency alternatives (`a | b | c`).
#[derive(Debug, Clone)]
pub struct DependencyGroup {
    pub alternatives: Vec<DependencySpec>,
}

pub open spec fn spec_views(v: Seq<DependencySpec>) -> Seq<SpecV> {
    Seq::new(v.len(), |i: int| v[i]@)
}

impl View for DependencyGroup {
    type V = Seq<SpecV>;

    open spec fn view(&self) -> Seq<SpecV> {
        spec_views(self.alternatives@)
    }
}

pub open spec fn group_views(v: Seq<DependencyGroup>) -> Seq<Seq<SpecV>> {
    Seq::new(v.len(), |i: int| v[i]@)
}

/// Every piece parsed as a specification, or `None` when one fails.
pub open spec fn specs_result(parts: Seq<Seq<char>>) -> Option<Seq<SpecV>>
    decreases parts.len(),
{
    if parts.len() == 0 {
        Some(Seq::empty())
    } else {
        match specs_result(parts.drop_last()) {
            None => None,
            Some(prev) => match spec_result(parts.last()) {
                None => None,
                Some(d) => Some(prev.push(d)),
            },
        }
    }
}

/// Every `,`-separated group parsed as `|`-separated alternatives (empty
/// pieces skipped), or `None` when a specification fails.
pub open spec fn groups_of(parts: Seq<Seq<char>>) -> Option<Seq<Seq<SpecV>>>
    decreases parts.len(),
{
    if parts.len() == 0 {
        Some(Seq::empty())
    } else {
        match groups_of(parts.drop_last()) {
            None => None,
            Some(prev) => match specs_result(nonempty_trimmed(split_char(parts.last(), '|'))) {
                None => None,
                Some(g) => Some(prev.push(g)),
            },
        }
    }
}

/// What `DependencyGroup::parse` yields for a field value.
pub open spec fn groups_result(s: Seq<char>) -> Option<Seq<Seq<SpecV>>> {
    groups_of(nonempty_trimmed(split_char(s, ',')))
}

/// The trimmed, non-empty pieces of `v` split at `c`.
fn pieces(v: &Vec<char>, c: char) -> (r: Vec<Vec<char>>)
    ensures
        views(r@) == nonempty_trimmed(split_char(v@, c)),
{
    let parts = split_char_exec(v, 0, v.len(), c);
    proof {
        assert(v@.subrange(0, v@.len() as int) =~= v@);
    }
    let ghost pv = views(parts@);
    let mut out: Vec<Vec<char>> = Vec::new();
    let mut i: usize = 0;
    while i < parts.len()
        invariant
            i <= parts@.len(),
            pv == views(parts@),
            pv == split_char(v@, c),
            views(out@) == nonempty_trimmed(pv.take(i as int)),
        decreases parts@.len() - i,
    {
        proof {
            assert(pv.take(i + 1).drop_last() =~= pv.take(i as int));
        }
        let (a, b) = trim_bounds(&parts[i], 0, parts[i].len());
        proof {
            assert(parts@[i as int]@.subrange(0, parts@[i as int]@.len() as int) =~= parts@[i as int]@);
        }
        if a < b {
            let ghost before = views(out@);
            out.push(slice_of(&parts[i], a, b));
            assert(views(out@) =~= before.push(trim(pv[i as int])));
        }
        i = i + 1;
    }
    proof {
        assert(pv.take(i as int) =~= pv);
    }
    out
}

impl DependencyGroup {
    /// Parses a comma-separated list of dependency groups, each a
    /// `|`-separated list of alternatives, e.g.
    /// `"libc6 (>= 2.17) | libc6-amd64, libssl3"`.
    pub fn parse(s: &str) -> (r: Result<Vec<DependencyGroup>, SolverError>)
        ensures
            match groups_result(s@) {
                Some(gs) => r matches Ok(v) && group_views(v@) == gs,
                None => r matches Err(SolverError::ParseError(_)),
            },
    {
        let v = chars_of(s);
        let groups = pieces(&v, ',');
        let ghost gv = views(groups@);
        let mut out: Vec<DependencyGroup> = Vec::new();
        let mut i: usize = 0;
        while i < groups.len()
            invariant
                i <= groups@.len(),
                gv == views(groups@),
                gv == nonempty_trimmed(split_char(s@, ',')),
                v@ == s@,
                groups_of(gv.take(i as int)) == Some(group_views(out@)),
            decreases groups@.len() - i,
        {
            proof {
                assert(gv.take(i + 1).drop_last() =~= gv.take(i as int));
            }
            let alts = pieces(&groups[i], '|');
            let ghost av = views(alts@);
            let mut specs: Vec<DependencySpec> = Vec::new();
            let mut j: usize = 0;
            while j < alts.len()
                invariant
                    j <= alts@.len(),
                    av == views(alts@),
                    i < groups@.len(),
                    gv == views(groups@),
                    gv == nonempty_trimmed(split_char(s@, ',')),
                    av == nonempty_trimmed(split_char(gv[i as int], '|')),
                    specs_result(av.take(j as int)) == Some(spec_views(specs@)),
                decreases alts@.len() - j,
            {
                proof {
                    assert(av.take(j + 1).drop_last() =~= av.take(j as int));
                }
                let text = crate::text::string_of(&alts[j]);
                match DependencySpec::parse(text.as_str()) {
                    Ok(d) => {
                        let ghost before = spec_views(specs@);
                        specs.push(d);
                        assert(spec_views(specs@) =~= before.push(specs@.last()@));
                    },
                    Err(e) => {
                        proof {
                            lemma_specs_fail(av, j as int);
                            lemma_groups_fail(gv, i as int);
                        }
                        return Err(e);
                    },
                }
                j = j + 1;
            }
            proof {
                assert(av.take(j as int) =~= av);
            }
            let ghost before = group_views(out@);
            out.push(DependencyGroup { alternatives: specs });
            assert(group_views(out@) =~= before.push(spec_views(specs@)));
            i = i + 1;
        }
        proof {
            assert(gv.take(i as int) =~= gv);
        }
        Ok(out)
    }

    /// A copy of this group.
    pub fn copy(&self) -> (r: DependencyGroup)
        ensures
            r@ == self@,
    {
        let mut alternatives: Vec<DependencySpec> = Vec::new();
        let mut i: usize = 0;
        while i < self.alternatives.len()
            invariant
                i <= self.alternatives@.len(),
                spec_views(alternatives@) == self@.take(i as int),
            decreases self.alternatives@.len() - i,
        {
            let ghost before = spec_views(alternatives@);
            alternatives.push(self.alternatives[i].copy());
            assert(spec_views(alternatives@) =~= before.push(self@[i as int]));
            i = i + 1;
            assert(spec_views(alternatives@) =~= self@.take(i as int));
        }
        assert(self@.take(i as int) =~= self@);
        DependencyGroup { alternatives }
    }
}

/// Once a prefix fails, every longer prefix fails.
proof fn lemma_specs_fail(parts: Seq<Seq<char>>, j: int)
    requires
        0 <= j < parts.len(),
        specs_result(parts.take(j)) is Some,
        spec_result(parts[j]) is None,
    ensures
        specs_result(parts) is None,
    decreases parts.len() - j,
{
    assert(parts.take(j + 1).drop_last() =~= parts.take(j));
    lemma_specs_prefix_fail(parts, j + 1);
}

proof fn lemma_specs_prefix_fail(parts: Seq<Seq<char>>, k: int)
    requires
        0 <= k <= parts.len(),
        specs_result(parts.take(k)) is None,
    ensures
        specs_result(parts) is None,
    decreases parts.len() - k,
{
    if k < parts.len() {
        assert(parts.take(k + 1).drop_last() =~= parts.take(k));
        lemma_specs_prefix_fail(parts, k + 1);
    } else {
        assert(parts.take(k) =~= parts);
    }
}

proof fn lemma_groups_fail(parts: Seq<Seq<char>>, i: int)
    requires
        0 <= i < parts.len(),
        specs_result(nonempty_trimmed(split_char(parts[i], '|'))) is None,
    ensures
        groups_of(parts.take(i + 1)) is None,
        groups_of(parts) is None,
{
    assert(parts.take(i + 1).drop_last() =~= parts.take(i));
    lemma_groups_prefix_fail(parts, i + 1);
}

proof fn lemma_groups_prefix_fail(parts: Seq<Seq<char>>, k: int)
    requires
        0 <= k <= parts.len(),
        groups_of(parts.take(k)) is None,
    ensures
        groups_of(parts) is None,
    decreases parts.len() - k,
{
    if k < parts.len() {
        assert(parts.take(k + 1).drop_last() =~= parts.take(k));
        lemma_groups_prefix_fail(parts, k + 1);
    } else {
        assert(parts.take(k) =~= parts);
    }
}


// ─── Packages ─────────────────────────────────────────────────────────────────

/// A single (name, version) package with its dependency metadata.
#[derive(Debug, Clone)]
pub struct Package {
    pub name: String,
    pub version: Version,
    /// AND of these dependency groups (each group is OR of alternatives).
    pub depends: Vec<DependencyGroup>,
    /// Same semantics as `depends` but must be satisfied before unpacking.
    pub pre_depends: Vec<DependencyGroup>,
    /// Packages that conflict with this one.
    pub conflicts: Vec<DependencyGroup>,
    /// Packages that this package breaks (softer than conflicts).
    pub breaks: Vec<DependencyGroup>,
    /// Virtual package names this package provides.
    pub provides: Vec<String>,
    /// Packages recommended by this one (installed when possible).
    pub recommends: Vec<DependencyGroup>,
    /// Packages merely suggested by this one (informational only).
    pub suggests: Vec<DependencyGroup>,
}

/// Abstract value of a [`Package`].
pub struct PkgV {
    pub name: Seq<char>,
    pub version: VersionView,
    pub depends: Seq<Seq<SpecV>>,
    pub pre_depends: Seq<Seq<SpecV>>,
    pub conflicts: Seq<Seq<SpecV>>,
    pub breaks: Seq<Seq<SpecV>>,
    pub provides: Seq<Seq<char>>,
    pub recommends: Seq<Seq<SpecV>>,
    pub suggests: Seq<Seq<SpecV>>,
}

pub open spec fn string_views(v: Seq<String>) -> Seq<Seq<char>> {
    Seq::new(v.len(), |i: int| v[i]@)
}

impl View for Package {
    type V = PkgV;

    open spec fn view(&self) -> PkgV {
        PkgV {
            name: self.name@,
            version: self.version@,
            depends: group_views(self.depends@),
            pre_depends: group_views(self.pre_depends@),
            conflicts: group_views(self.conflicts@),
            breaks: group_views(self.breaks@),
            provides: string_views(self.provides@),
            recommends: group_views(self.recommends@),
            suggests: group_views(self.suggests@),
        }
    }
}

pub open spec fn pkg_views(v: Seq<Package>) -> Seq<PkgV> {
    Seq::new(v.len(), |i: int| v[i]@)
}

fn copy_groups(v: &Vec<DependencyGroup>) -> (r: Vec<DependencyGroup>)
    ensures
        group_views(r@) == group_views(v@),
{
    let mut out: Vec<DependencyGroup> = Vec::new();
    let mut i: usize = 0;
    while i < v.len()
        invariant
            i <= v@.len(),
            group_views(out@) == group_views(v@).take(i as int),
        decreases v@.len() - i,
    {
        let ghost before = group_views(out@);
        out.push(v[i].copy());
        assert(group_views(out@) =~= before.push(v@[i as int]@));
        i = i + 1;
        assert(group_views(out@) =~= group_views(v@).take(i as int));
    }
    assert(group_views(v@).take(i as int) =~= group_views(v@));
    out
}

fn copy_strings(v: &Vec<String>) -> (r: Vec<String>)
    ensures
        string_views(r@) == string_views(v@),
{
    let mut out: Vec<String> = Vec::new();
    let mut i: usize = 0;
    while i < v.len()
        invariant
            i <= v@.len(),
            string_views(out@) == string_views(v@).take(i as int),
        decreases v@.len() - i,
    {
        let ghost before = string_views(out@);
        out.push(own(v[i].as_str()));
        assert(string_views(out@) =~= before.push(v@[i as int]@));
        i = i + 1;
        assert(string_views(out@) =~= string_views(v@).take(i as int));
    }
    assert(string_views(v@).take(i as int) =~= string_views(v@));
    out
}

impl Package {
    /// A copy of this package.
    pub fn copy(&self) -> (r: Package)
        ensures
            r@ == self@,
    {
        Package {
            name: own(self.name.as_str()),
            version: copy_version(&self.version),
            depends: copy_groups(&self.depends),
            pre_depends: copy_groups(&self.pre_depends),
            conflicts: copy_groups(&self.conflicts),
            breaks: copy_groups(&self.breaks),
            provides: copy_strings(&self.provides),
            recommends: copy_groups(&self.recommends),
            suggests: copy_groups(&self.suggests),
        }
    }
}

/// The name a `Provides:` piece gives: the trimmed text before a `(`, or the
/// whole trimmed piece.
pub open spec fn provided_name(piece: Seq<char>) -> Seq<char> {
    let t = trim(piece);
    if index_of(t, '(') < t.len() {
        trim(t.take(index_of(t, '(') as int))
    } else {
        t
    }
}

/// The non-empty provided names of the pieces.
pub open spec fn provided_names(pieces: Seq<Seq<char>>) -> Seq<Seq<char>>
    decreases pieces.len(),
{
    if pieces.len() == 0 {
        Seq::empty()
    } else {
        let r = provided_names(pieces.drop_last());
        let nm = provided_name(pieces.last());
        if nm.len() > 0 {
            r.push(nm)
        } else {
            r
        }
    }
}

pub open spec fn opt_groups(o: Option<Seq<char>>) -> Option<Seq<Seq<SpecV>>> {
    match o {
        Some(raw) => groups_result(raw),
        None => Some(Seq::empty()),
    }
}

/// The package a binary stanza describes, or `None` when its version or a
/// relation field does not parse.
pub open spec fn pkg_result(b: BinaryView) -> Option<PkgV> {
    match parse_version_spec(b.version_str) {
        Err(_) => None,
        Ok(ver) => {
            if opt_groups(b.depends) is None || opt_groups(b.pre_depends) is None || opt_groups(b.conflicts) is None
                || opt_groups(b.breaks) is None || opt_groups(b.recommends) is None || opt_groups(b.suggests) is None {
                None
            } else {
                Some(PkgV {
                    name: b.name,
                    version: ver,
                    depends: opt_groups(b.depends)->0,
                    pre_depends: opt_groups(b.pre_depends)->0,
                    conflicts: opt_groups(b.conflicts)->0,
                    breaks: opt_groups(b.breaks)->0,
                    provides: match b.provides {
                        Some(raw) => provided_names(split_char(raw, ',')),
                        None => Seq::empty(),
                    },
                    recommends: opt_groups(b.recommends)->0,
                    suggests: opt_groups(b.suggests)->0,
                })
            }
        },
    }
}

fn parse_deps(s: &Option<String>) -> (r: Result<Vec<DependencyGroup>, SolverError>)
    ensures
        match opt_groups(crate::control_file::sopt(*s)) {
            Some(gs) => r matches Ok(v) && group_views(v@) == gs,
            None => r matches Err(SolverError::ParseError(_)),
        },
{
    match s {
        None => {
            let v: Vec<DependencyGroup> = Vec::new();
            assert(group_views(v@) =~= Seq::<Seq<SpecV>>::empty());
            Ok(v)
        },
        Some(raw) => DependencyGroup::parse(raw.as_str()),
    }
}

fn parse_provides(raw: &str) -> (r: Vec<String>)
    ensures
        string_views(r@) == provided_names(split_char(raw@, ',')),
{
    let v = chars_of(raw);
    let parts = split_char_exec(&v, 0, v.len(), ',');
    proof {
        assert(v@.subrange(0, v@.len() as int) =~= v@);
    }
    let ghost pv = views(parts@);
    let mut out: Vec<String> = Vec::new();
    let mut i: usize = 0;
    while i < parts.len()
        invariant
            i <= parts@.len(),
            pv == views(parts@),
            pv == split_char(raw@, ','),
            string_views(out@) == provided_names(pv.take(i as int)),
        decreases parts@.len() - i,
    {
        proof {
            assert(pv.take(i + 1).drop_last() =~= pv.take(i as int));
        }
        let (a, b) = trim_bounds(&parts[i], 0, parts[i].len());
        proof {
            assert(parts@[i as int]@.subrange(0, parts@[i as int]@.len() as int) =~= parts@[i as int]@);
        }
        let t = slice_of(&parts[i], a, b);
        let p = crate::text::find_char(&t, 0, t.len(), '(');
        proof {
            assert(t@.subrange(0, t@.len() as int) =~= t@);
        }
        let nm = if p < t.len() {
            let (na, nb) = trim_bounds(&t, 0, p);
            proof {
                assert(t@.take(p as int) =~= t@.subrange(0, p as int));
            }
            slice_of(&t, na, nb)
        } else {
            proof {
                assert(t@.subrange(0, t@.len() as int) =~= t@);
            }
            slice_of(&t, 0, t.len())
        };
        if nm.len() > 0 {
            let ghost before = string_views(out@);
            out.push(crate::text::string_of(&nm));
            assert(string_views(out@) =~= before.push(nm@));
        }
        i = i + 1;
    }
    proof {
        assert(pv.take(i as int) =~= pv);
    }
    out
}

/// Converts a binary package stanza into a resolver package.
pub fn binary_package_to_pkg(bp: &BinaryPackage) -> (r: Result<Package, SolverError>)
    ensures
        match pkg_result(bp@) {
            Some(p) => r matches Ok(x) && x@ == p,
            None => r matches Err(SolverError::ParseError(_)),
        },
{
    let version = match Version::parse(bp.version_str.as_str()) {
        Ok(v) => v,
        Err(e) => {
            let mut msg = own(bp.name.as_str());
            crate::text::push_str(&mut msg, ": ");
            let t = e.to_string();
            crate::text::push_str(&mut msg, t.as_str());
            return Err(SolverError::ParseError(msg));
        },
    };
    let depends = parse_deps(&bp.depends)?;
    let pre_depends = parse_deps(&bp.pre_depends)?;
    let conflicts = parse_deps(&bp.conflicts)?;
    let breaks = parse_deps(&bp.breaks)?;
    let provides = match &bp.provides {
        None => Vec::new(),
        Some(raw) => parse_provides(raw.as_str()),
    };
    let recs = parse_deps(&bp.recommends)?;
    let suggests = parse_deps(&bp.suggests)?;
    let r = Package {
        name: own(bp.name.as_str()),
        version,
        depends,
        pre_depends,
        conflicts,
        breaks,
        provides,
        recommends: recs,
        suggests,
    };
    proof {
        if bp.provides is None {
            assert(string_views(r.provides@) =~= Seq::<Seq<char>>::empty());
        }
    }
    Ok(r)
}

} // verus!
