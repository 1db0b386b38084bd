//! The APT command layer: searching and showing cached package indices,
//! listing the status database, the URLs and cache files of index updates,
//! and the install plan of a request. Reading and writing files, the network
//! and the command line stay with the program that drives these.

use vstd::prelude::*;
use crate::control_file::{BinaryPackage, BinaryView};
use crate::deb_version::Version;
use crate::dpkg_db::{installed_only, installed_views, InstalledPackage, PkgView, StatusDb};
use crate::order::{sorted_order, sorted_positions};
use crate::paths::{join_path, path_join};
use crate::solver::encode::req_views;
use crate::solver::model::{error_text, pkg_result, PkgV, SolverError};
use crate::solver::resolve::{entry_views, resolution, EntryV, InstallPlan, Resolver};
use crate::solver::universe::Universe;
use crate::sources_list::{EntryView, SourceEntry, SourceType, SourcesList, entry_views as source_views};
use crate::text::{
    chars_of, find_sub, find_sub_exec, lowercase, own, push_str, split_str, split_str_exec, strip_leading,
    strip_leading_exec, strip_trailing, strip_trailing_exec, string_of, sviews, to_lowercase, views,
};
use crate::transport::{gunzip, gz_decoded};

verus! {

/// Default cache directory name (created under the user's cache root).
pub const CACHE_DIR_NAME: &'static str = "tpt-apt";

// ─── Locations ────────────────────────────────────────────────────────────────

/// The cache directory under the first of `$XDG_CACHE_HOME`, `$HOME/.cache`
/// and `%LOCALAPPDATA%` that is set, else `.tpt-apt`.
pub open spec fn cache_dir_spec(xdg: Option<Seq<char>>, home: Option<Seq<char>>, local: Option<Seq<char>>) -> Seq<char> {
    match xdg {
        Some(x) => path_join(x, "tpt-apt"@),
        None => match home {
            Some(h) => path_join(path_join(h, ".cache"@), "tpt-apt"@),
            None => match local {
                Some(l) => path_join(l, "tpt-apt"@),
                None => ".tpt-apt"@,
            },
        },
    }
}

pub open spec fn str_opt(o: Option<&str>) -> Option<Seq<char>> {
    match o {
        Some(s) => Some(s@),
        None => None,
    }
}

/// The default cache directory, from the values of `XDG_CACHE_HOME`, `HOME`
/// and `LOCALAPPDATA`.
pub fn default_cache_dir(xdg: Option<&str>, home: Option<&str>, local: Option<&str>) -> (r: String)
    ensures
        r@ == cache_dir_spec(str_opt(xdg), str_opt(home), str_opt(local)),
{
    match xdg {
        Some(x) => join_path(x, CACHE_DIR_NAME),
        None => match home {
            Some(h) => {
                let c = join_path(h, ".cache");
                join_path(c.as_str(), CACHE_DIR_NAME)
            },
            None => match local {
                Some(l) => join_path(l, CACHE_DIR_NAME),
                None => own(".tpt-apt"),
            },
        },
    }
}

/// High-level APT CLI application state.
pub struct Apt {
    /// Directory holding cached `Packages` indices.
    pub cache_dir: String,
    /// Path to the dpkg status database.
    pub status_path: String,
    /// Optional path to a `sources.list` file.
    pub sources_path: Option<String>,
    /// When `true`, mutating commands only print what they would do.
    pub dry_run: bool,
    /// When `true`, long-running loops render a progress bar.
    pub progress: bool,
}

/// A search result row.
#[derive(Debug, Clone)]
pub struct SearchHit {
    pub name: String,
    pub version: String,
    pub description: String,
}

/// Abstract value of a [`SearchHit`]: name, version, description.
pub type HitV = (Seq<char>, Seq<char>, Seq<char>);

pub open spec fn hit_views(v: Seq<SearchHit>) -> Seq<HitV> {
    Seq::new(v.len(), |i: int| (v[i].name@, v[i].version@, v[i].description@))
}

pub open spec fn bin_views(v: Seq<BinaryPackage>) -> Seq<BinaryView> {
    Seq::new(v.len(), |i: int| v[i]@)
}

/// `query` occurs in `hay` (the empty query occurs everywhere).
pub open spec fn contains_text(hay: Seq<char>, query: Seq<char>) -> bool {
    query.len() == 0 || find_sub(hay, query) < hay.len()
}

/// A package matches when its lowercased name or its lowercased
/// description contains the query.
pub open spec fn search_match(p: BinaryView, q: Seq<char>) -> bool {
    contains_text(lowercase(p.name), q) || contains_text(lowercase(p.description), q)
}

/// The hits of `pkgs` for the lowercased query `q`, in index order.
pub open spec fn raw_hits(pkgs: Seq<BinaryView>, q: Seq<char>) -> Seq<HitV>
    decreases pkgs.len(),
{
    if pkgs.len() == 0 {
        Seq::empty()
    } else {
        let r = raw_hits(pkgs.drop_last(), q);
        let p = pkgs.last();
        if search_match(p, q) {
            r.push((p.name, p.version_str, p.description))
        } else {
            r
        }
    }
}

pub open spec fn hit_names(h: Seq<HitV>) -> Seq<Seq<char>> {
    Seq::new(h.len(), |i: int| h[i].0)
}

/// `h` stably sorted by name.
pub open spec fn by_name(h: Seq<HitV>) -> Seq<HitV> {
    let order = sorted_positions(hit_names(h), false);
    Seq::new(order.len(), |i: int| h[order[i] as int])
}

/// Index of the first package named `name`, or the length.
pub open spec fn first_named(pkgs: Seq<BinaryView>, name: Seq<char>) -> nat
    decreases pkgs.len(),
{
    if pkgs.len() == 0 {
        0
    } else if pkgs[0].name == name {
        0
    } else {
        1 + first_named(pkgs.drop_first(), name)
    }
}

pub open spec fn pkg_names(ps: Seq<PkgView>) -> Seq<Seq<char>> {
    Seq::new(ps.len(), |i: int| ps[i].name)
}

/// The records of the status database to list, stably sorted by name.
pub open spec fn listing(db: Seq<PkgView>, installed: bool) -> Seq<PkgView> {
    let ps = if installed {
        installed_only(db)
    } else {
        db
    };
    let order = sorted_positions(pkg_names(ps), false);
    Seq::new(order.len(), |i: int| ps[order[i] as int])
}

impl Apt {
    /// An [`Apt`] over the cache directory `cache_dir` and the system status
    /// database `/var/lib/dpkg/status`.
    pub fn new(dry_run: bool, cache_dir: String) -> (r: Apt)
        ensures
            r.cache_dir@ == cache_dir@,
            r.status_path@ == "/var/lib/dpkg/status"@,
            r.sources_path is None,
            r.dry_run == dry_run,
            r.progress,
    {
        Apt { cache_dir, status_path: own("/var/lib/dpkg/status"), sources_path: None, dry_run, progress: true }
    }

    /// Override the dpkg status database path.
    pub fn with_status(self, path: String) -> (r: Apt)
        ensures
            r.status_path@ == path@,
            r.cache_dir == self.cache_dir,
            r.sources_path == self.sources_path,
            r.dry_run == self.dry_run,
            r.progress == self.progress,
    {
        Apt { status_path: path, ..self }
    }

    /// Override the sources list path.
    pub fn with_sources(self, path: Option<String>) -> (r: Apt)
        ensures
            r.sources_path == path,
            r.cache_dir == self.cache_dir,
            r.status_path == self.status_path,
            r.dry_run == self.dry_run,
            r.progress == self.progress,
    {
        Apt { sources_path: path, ..self }
    }

    /// Override the cache directory.
    pub fn with_cache_dir(self, dir: String) -> (r: Apt)
        ensures
            r.cache_dir@ == dir@,
            r.status_path == self.status_path,
            r.sources_path == self.sources_path,
            r.dry_run == self.dry_run,
            r.progress == self.progress,
    {
        Apt { cache_dir: dir, ..self }
    }

    /// The packages of the cached `index` whose name or description contains
    /// `query`, case-insensitively, sorted by name.
    pub fn search(&self, index: &[BinaryPackage], query: &str) -> (r: Vec<SearchHit>)
        ensures
            hit_views(r@) == by_name(raw_hits(bin_views(index@), lowercase(query@))),
    {
        let q = to_lowercase(query);
        let qv = chars_of(q.as_str());
        let ghost pv = bin_views(index@);
        let mut hits: Vec<SearchHit> = Vec::new();
        let mut i: usize = 0;
        while i < index.len()
            invariant
                i <= index@.len(),
                pv == bin_views(index@),
                qv@ == lowercase(query@),
                hit_views(hits@) == raw_hits(pv.take(i as int), qv@),
            decreases index@.len() - i,
        {
            proof {
                assert(pv.take(i + 1).drop_last() =~= pv.take(i as int));
                assert(pv.take(i + 1).last() == index@[i as int]@);
            }
            let p = &index[i];
            let nv = chars_of(to_lowercase(p.name.as_str()).as_str());
            let dv = chars_of(to_lowercase(p.description.as_str()).as_str());
            let found = qv.len() == 0 || find_sub_exec(&nv, 0, nv.len(), &qv) < nv.len()
                || find_sub_exec(&dv, 0, dv.len(), &qv) < dv.len();
            proof {
                assert(nv@.subrange(0, nv@.len() as int) =~= nv@);
                assert(dv@.subrange(0, dv@.len() as int) =~= dv@);
            }
            if found {
                let ghost before = hit_views(hits@);
                let h = SearchHit {
                    name: own(p.name.as_str()),
                    version: own(p.version_str.as_str()),
                    description: own(p.description.as_str()),
                };
                hits.push(h);
                assert(hit_views(hits@) =~= before.push((p@.name, p@.version_str, p@.description)));
            }
            i = i + 1;
        }
        proof {
            assert(pv.take(i as int) =~= pv);
        }
        let ghost hv = hit_views(hits@);
        let mut names: Vec<String> = Vec::new();
        let mut k: usize = 0;
        while k < hits.len()
            invariant
                k <= hits@.len(),
                hv == hit_views(hits@),
                sviews(names@) == hit_names(hv).take(k as int),
            decreases hits@.len() - k,
        {
            let ghost before = sviews(names@);
            names.push(own(hits[k].name.as_str()));
            assert(sviews(names@) =~= before.push(hv[k as int].0));
            k = k + 1;
            assert(sviews(names@) =~= hit_names(hv).take(k as int));
        }
        assert(hit_names(hv).take(k as int) =~= hit_names(hv));
        let order = sorted_order(names.as_slice(), false);
        let mut out: Vec<SearchHit> = Vec::new();
        let mut t: usize = 0;
        while t < order.len()
            invariant
                t <= order@.len(),
                hv == hit_views(hits@),
                hits@.len() == names@.len(),
                forall|m: int| 0 <= m < order@.len() ==> #[trigger] order@[m] < names@.len(),
                hit_views(out@) == Seq::new(t as nat, |m: int| hv[order@[m] as int]),
            decreases order@.len() - t,
        {
            let h = &hits[order[t]];
            let ghost before = hit_views(out@);
            out.push(SearchHit { name: own(h.name.as_str()), version: own(h.version.as_str()), description: own(h.description.as_str()) });
            assert(hit_views(out@) =~= before.push(hv[order@[t as int] as int]));
            t = t + 1;
            assert(hit_views(out@) =~= Seq::new(t as nat, |m: int| hv[order@[m] as int]));
        }
        out
    }

    /// The first package of the cached `index` named exactly `name`.
    pub fn show<'a>(&self, index: &'a [BinaryPackage], name: &str) -> (r: Option<&'a BinaryPackage>)
        ensures
            first_named(bin_views(index@), name@) < index@.len() ==> (r matches Some(p) && p@ == index@[first_named(bin_views(index@), name@) as int]@),
            first_named(bin_views(index@), name@) >= index@.len() ==> r is None,
    {
        let ghost pv = bin_views(index@);
        let mut i: usize = 0;
        assert(pv.skip(0) =~= pv);
        while i < index.len()
            invariant
                i <= index@.len(),
                pv == bin_views(index@),
                first_named(pv, name@) == i + first_named(pv.skip(i as int), name@),
            decreases index@.len() - i,
        {
            assert(pv.skip(i as int)[0] == index@[i as int]@);
            if crate::text::str_eq(index[i].name.as_str(), name) {
                return Some(&index[i]);
            }
            assert(pv.skip(i as int).drop_first() =~= pv.skip(i + 1));
            i = i + 1;
        }
        None
    }

    /// The records of the status database `db` (only those installed, when
    /// `installed_only`), sorted by name.
    pub fn list<'a>(&self, db: &'a StatusDb, installed_only: bool) -> (r: Vec<&'a InstalledPackage>)
        ensures
            installed_views(r@) == listing(db@, installed_only),
    {
        let mut chosen: Vec<&InstalledPackage> = Vec::new();
        if installed_only {
            chosen = db.installed_packages();
        } else {
            let all = db.packages();
            let mut i: usize = 0;
            while i < all.len()
                invariant
                    i <= all@.len(),
                    installed_views(chosen@) == crate::dpkg_db::pkg_views(all@).take(i as int),
                decreases all@.len() - i,
            {
                let ghost before = installed_views(chosen@);
                chosen.push(&all[i]);
                assert(installed_views(chosen@) =~= before.push(all@[i as int]@));
                i = i + 1;
                assert(installed_views(chosen@) =~= crate::dpkg_db::pkg_views(all@).take(i as int));
            }
            assert(crate::dpkg_db::pkg_views(all@).take(i as int) =~= crate::dpkg_db::pkg_views(all@));
        }
        let ghost ps = installed_views(chosen@);
        assert(ps == (if installed_only { crate::dpkg_db::installed_only(db@) } else { db@ }));
        let mut names: Vec<String> = Vec::new();
        let mut k: usize = 0;
        while k < chosen.len()
            invariant
                k <= chosen@.len(),
                ps == installed_views(chosen@),
                sviews(names@) == pkg_names(ps).take(k as int),
            decreases chosen@.len() - k,
        {
            let ghost before = sviews(names@);
            names.push(own(chosen[k].name.as_str()));
            assert(sviews(names@) =~= before.push(ps[k as int].name));
            k = k + 1;
            assert(sviews(names@) =~= pkg_names(ps).take(k as int));
        }
        assert(pkg_names(ps).take(k as int) =~= pkg_names(ps));
        let order = sorted_order(names.as_slice(), false);
        let mut out: Vec<&InstalledPackage> = Vec::new();
        let mut t: usize = 0;
        while t < order.len()
            invariant
                t <= order@.len(),
                ps == installed_views(chosen@),
                chosen@.len() == names@.len(),
                forall|m: int| 0 <= m < order@.len() ==> #[trigger] order@[m] < names@.len(),
                installed_views(out@) == Seq::new(t as nat, |m: int| ps[order@[m] as int]),
            decreases order@.len() - t,
        {
            let ghost before = installed_views(out@);
            out.push(chosen[order[t]]);
            assert(installed_views(out@) =~= before.push(ps[order@[t as int] as int]));
            t = t + 1;
            assert(installed_views(out@) =~= Seq::new(t as nat, |m: int| ps[order@[m] as int]));
        }
        out
    }
}

// ─── Index URLs and cache files ───────────────────────────────────────────────

/// `<uri>/dists/<suite>/<component>/binary-<arch>/Packages`, trailing `/`
/// of the URI dropped.
pub open spec fn packages_url_spec(uri: Seq<char>, suite: Seq<char>, component: Seq<char>, arch: Seq<char>) -> Seq<char> {
    strip_trailing(uri, '/') + "/dists/"@ + suite + "/"@ + component + "/binary-"@ + arch + "/Packages"@
}

/// The URL of the `Packages` index of `component` for `arch`.
pub fn packages_url(entry: &SourceEntry, component: &str, arch: &str) -> (r: String)
    ensures
        r@ == packages_url_spec(entry.uri@, entry.suite@, component@, arch@),
{
    let u = chars_of(entry.uri.as_str());
    let t = strip_trailing_exec(&u, '/');
    let mut out = string_of(&t);
    push_str(&mut out, "/dists/");
    push_str(&mut out, entry.suite.as_str());
    push_str(&mut out, "/");
    push_str(&mut out, component);
    push_str(&mut out, "/binary-");
    push_str(&mut out, arch);
    push_str(&mut out, "/Packages");
    out
}

/// `s` with every `/` and `:` made `_`.
pub open spec fn underscored(s: Seq<char>) -> Seq<char> {
    Seq::new(s.len(), |i: int| if s[i] == '/' || s[i] == ':' { '_' } else { s[i] })
}

/// The host part of a URI: what follows the first `://` of the URI without
/// its trailing `/` (up to a further `://`), or the whole URI.
pub open spec fn uri_host(uri: Seq<char>) -> Seq<char> {
    let parts = split_str(strip_trailing(uri, '/'), "://"@);
    if parts.len() > 1 {
        parts[1]
    } else {
        uri
    }
}

/// `<host>_<suite>_<component>`, the host with `/` and `:` made `_`.
pub open spec fn url_slug_spec(uri: Seq<char>, suite: Seq<char>, component: Seq<char>) -> Seq<char> {
    underscored(uri_host(uri)) + "_"@ + suite + "_"@ + component
}

/// The name under which the index of `component` is cached.
pub fn url_slug(uri: &str, suite: &str, component: &str) -> (r: String)
    ensures
        r@ == url_slug_spec(uri@, suite@, component@),
{
    proof {
        reveal_strlit("://");
    }
    let v = chars_of(uri);
    let t = strip_trailing_exec(&v, '/');
    let sep = chars_of("://");
    let parts = split_str_exec(&t, 0, t.len(), &sep);
    proof {
        assert(t@.subrange(0, t@.len() as int) =~= t@);
    }
    let host: &Vec<char> = if parts.len() > 1 {
        &parts[1]
    } else {
        &v
    };
    assert(host@ == uri_host(uri@));
    let mut out = String::new();
    let mut i: usize = 0;
    while i < host.len()
        invariant
            i <= host@.len(),
            out@ == underscored(host@).take(i as int),
        decreases host@.len() - i,
    {
        let c = host[i];
        let d = if c == '/' || c == ':' {
            '_'
        } else {
            c
        };
        crate::text::push_char(&mut out, d);
        i = i + 1;
        assert(out@ =~= underscored(host@).take(i as int));
    }
    assert(underscored(host@).take(i as int) =~= underscored(host@));
    push_str(&mut out, "_");
    push_str(&mut out, suite);
    push_str(&mut out, "_");
    push_str(&mut out, component);
    out
}

/// `<uri>/<filename>`, without the URI's trailing and the file name's
/// leading `/`.
pub open spec fn download_url_spec(uri: Seq<char>, filename: Seq<char>) -> Seq<char> {
    strip_trailing(uri, '/') + "/"@ + strip_leading(filename, '/')
}

/// The download URL of a pool file.
pub fn download_url(uri: &str, filename: &str) -> (r: String)
    ensures
        r@ == download_url_spec(uri@, filename@),
{
    let u = chars_of(uri);
    let t = strip_trailing_exec(&u, '/');
    let f = chars_of(filename);
    let g = strip_leading_exec(&f, '/');
    let mut out = string_of(&t);
    push_str(&mut out, "/");
    let gs = string_of(&g);
    push_str(&mut out, gs.as_str());
    out
}

/// The index downloads of one source: for each component, the URL of its
/// `amd64` index and the cache file `<slug>.packages` under `cache`.
pub open spec fn entry_tasks(e: EntryView, comps: Seq<Seq<char>>, cache: Seq<char>) -> Seq<(Seq<char>, Seq<char>)>
    decreases comps.len(),
{
    if comps.len() == 0 {
        Seq::empty()
    } else {
        entry_tasks(e, comps.drop_last(), cache).push(
            (
                packages_url_spec(e.uri, e.suite, comps.last(), "amd64"@),
                path_join(cache, url_slug_spec(e.uri, e.suite, comps.last()) + ".packages"@),
            ),
        )
    }
}

/// The index downloads of the enabled binary sources, in order.
pub open spec fn update_tasks(es: Seq<EntryView>, cache: Seq<char>) -> Seq<(Seq<char>, Seq<char>)>
    decreases es.len(),
{
    if es.len() == 0 {
        Seq::empty()
    } else {
        let r = update_tasks(es.drop_last(), cache);
        let e = es.last();
        if e.enabled && e.source_type == SourceType::Binary {
            r + entry_tasks(e, e.components, cache)
        } else {
            r
        }
    }
}

pub open spec fn pair_views(v: Seq<(String, String)>) -> Seq<(Seq<char>, Seq<char>)> {
    Seq::new(v.len(), |i: int| (v[i].0@, v[i].1@))
}

/// The `(url, cache file)` pairs an index update fetches.
pub fn fetch_tasks(sources: &SourcesList, cache_dir: &str) -> (r: Vec<(String, String)>)
    ensures
        pair_views(r@) == update_tasks(source_views(sources.entries@), cache_dir@),
{
    let ghost es = source_views(sources.entries@);
    let mut out: Vec<(String, String)> = Vec::new();
    let mut i: usize = 0;
    while i < sources.entries.len()
        invariant
            i <= sources.entries@.len(),
            es == source_views(sources.entries@),
            pair_views(out@) == update_tasks(es.take(i as int), cache_dir@),
        decreases sources.entries@.len() - i,
    {
        let e = &sources.entries[i];
        proof {
            assert(es.take(i + 1).drop_last() =~= es.take(i as int));
            assert(es.take(i + 1).last() == e@);
        }
        if e.enabled && e.source_type == SourceType::Binary {
            let ghost base = pair_views(out@);
            let mut c: usize = 0;
            while c < e.components.len()
                invariant
                    c <= e.components@.len(),
                    pair_views(out@) == base + entry_tasks(e@, e@.components.take(c as int), cache_dir@),
                decreases e.components@.len() - c,
            {
                proof {
                    assert(e@.components.take(c + 1).drop_last() =~= e@.components.take(c as int));
                    assert(e@.components.take(c + 1).last() == e.components@[c as int]@);
                }
                let url = packages_url(e, e.components[c].as_str(), "amd64");
                let mut slug = url_slug(e.uri.as_str(), e.suite.as_str(), e.components[c].as_str());
                push_str(&mut slug, ".packages");
                let file = join_path(cache_dir, slug.as_str());
                let ghost before = pair_views(out@);
                let ghost pair = (url@, file@);
                out.push((url, file));
                assert(pair_views(out@) =~= before.push(pair));
                c = c + 1;
            }
            assert(e@.components.take(c as int) =~= e@.components);
        }
        i = i + 1;
    }
    assert(es.take(i as int) =~= es);
    out
}

/// Index of the first enabled binary source, or the length.
pub open spec fn first_binary(es: Seq<EntryView>) -> nat
    decreases es.len(),
{
    if es.len() == 0 {
        0
    } else if es[0].enabled && es[0].source_type == SourceType::Binary {
        0
    } else {
        1 + first_binary(es.drop_first())
    }
}

/// The URI of the first enabled binary source, where packages are fetched
/// from.
pub fn index_source_uri(sources: &SourcesList) -> (r: Option<String>)
    ensures
        first_binary(source_views(sources.entries@)) < sources.entries@.len() ==> (r matches Some(u) && u@
            == sources.entries@[first_binary(source_views(sources.entries@)) as int].uri@),
        first_binary(source_views(sources.entries@)) >= sources.entries@.len() ==> r is None,
{
    let ghost es = source_views(sources.entries@);
    let mut i: usize = 0;
    assert(es.skip(0) =~= es);
    while i < sources.entries.len()
        invariant
            i <= sources.entries@.len(),
            es == source_views(sources.entries@),
            first_binary(es) == i + first_binary(es.skip(i as int)),
        decreases sources.entries@.len() - i,
    {
        let e = &sources.entries[i];
        assert(es.skip(i as int)[0] == e@);
        if e.enabled && e.source_type == SourceType::Binary {
            return Some(own(e.uri.as_str()));
        }
        assert(es.skip(i as int).drop_first() =~= es.skip(i + 1));
        i = i + 1;
    }
    None
}

/// `bytes` decoded when they start like gzip and decode, else unchanged.
pub open spec fn maybe_gunzip_spec(b: Seq<u8>) -> Seq<u8> {
    if b.len() > 2 && b[0] == 0x1f && b[1] == 0x8b && gz_decoded(b) is Some {
        gz_decoded(b)->0
    } else {
        b
    }
}

/// Decompresses `bytes` if they look like gzip; otherwise returns them as-is.
pub fn maybe_gunzip(bytes: &[u8]) -> (r: Vec<u8>)
    ensures
        r@ == maybe_gunzip_spec(bytes@),
{
    if bytes.len() > 2 && bytes[0] == 0x1f && bytes[1] == 0x8b {
        match gunzip(bytes) {
            Ok(out) => return out,
            Err(_) => {},
        }
    }
    let mut v: Vec<u8> = Vec::new();
    let mut i: usize = 0;
    while i < bytes.len()
        invariant
            i <= bytes@.len(),
            v@ == bytes@.take(i as int),
        decreases bytes@.len() - i,
    {
        v.push(bytes[i]);
        i = i + 1;
        assert(v@ =~= bytes@.take(i as int));
    }
    assert(bytes@.take(i as int) =~= bytes@);
    v
}

// ─── Install plans ────────────────────────────────────────────────────────────

/// The message when no index is cached.
pub open spec fn no_index_text() -> Seq<char> {
    "no cached package indices; run `update` first (or point --config at a sources list)"@
}

/// Every stanza of `index` converts to a solver package.
pub open spec fn all_convert(index: Seq<BinaryView>) -> bool {
    forall|i: int| 0 <= i < index.len() ==> #[trigger] pkg_result(index[i]) is Some
}

/// The solver packages of `index`.
pub open spec fn universe_of(index: Seq<BinaryView>) -> Seq<PkgV> {
    Seq::new(index.len(), |i: int| pkg_result(index[i])->0)
}

/// What resolving `packages` against `index` answers: the packages to
/// install, or the message of the failure.
pub open spec fn install_result(index: Seq<BinaryView>, packages: Seq<Seq<char>>, r: Result<Vec<(String, Version)>, String>) -> bool {
    if index.len() == 0 {
        r matches Err(m) && m@ == no_index_text()
    } else if !all_convert(index) {
        r matches Err(m) && exists|e: SolverError| e is ParseError && m@ == "building solver universe: "@ + error_text(e)
    } else {
        exists|res: Result<InstallPlan, SolverError>|
            #[trigger] resolution(universe_of(index), packages, Seq::empty(), res) && match res {
                Ok(plan) => r matches Ok(l) && entry_views(l@) == entry_views(plan.install@),
                Err(e) => r matches Err(m) && m@ == "dependency resolution failed: "@ + error_text(e),
            }
    }
}

/// Resolves `packages` against the cached `index` into the packages to
/// install, in the order of the plan.
pub fn resolve_install(index: &[BinaryPackage], packages: &[String]) -> (r: Result<Vec<(String, Version)>, String>)
    ensures
        install_result(bin_views(index@), sviews(packages@), r),
{
    if index.len() == 0 {
        return Err(own("no cached package indices; run `update` first (or point --config at a sources list)"));
    }
    let universe = match Universe::from_binary_packages(index) {
        Ok(u) => u,
        Err(e) => {
            let mut m = own("building solver universe: ");
            let t = e.to_string();
            push_str(&mut m, t.as_str());
            assert(!all_convert(bin_views(index@))) by {
                if all_convert(bin_views(index@)) {
                    assert forall|i: int| 0 <= i < index@.len() implies #[trigger] pkg_result(index@[i]@) is Some by {
                        assert(bin_views(index@)[i] == index@[i]@);
                    }
                }
            }
            return Err(m);
        },
    };
    let ghost upkgs = universe.pkgs();
    proof {
        assert(all_convert(bin_views(index@))) by {
            assert forall|i: int| 0 <= i < bin_views(index@).len() implies #[trigger] pkg_result(bin_views(index@)[i]) is Some by {
                assert(bin_views(index@)[i] == index@[i]@);
                if pkg_result(index@[i]@) is None {
                    assert(!(forall|j: int| 0 <= j < index@.len() ==> #[trigger] pkg_result(index@[j]@) is Some));
                }
            }
        }
        assert(upkgs =~= universe_of(bin_views(index@))) by {
            assert forall|i: int| 0 <= i < upkgs.len() implies upkgs[i] == universe_of(bin_views(index@))[i] by {
                assert(bin_views(index@)[i] == index@[i]@);
                assert(pkg_result(index@[i]@) is Some);
            }
        }
    }
    let resolver = Resolver::new(universe);
    let mut requests: Vec<&str> = Vec::new();
    let mut i: usize = 0;
    while i < packages.len()
        invariant
            i <= packages@.len(),
            req_views(requests@) == sviews(packages@).take(i as int),
        decreases packages@.len() - i,
    {
        let ghost before = req_views(requests@);
        let q = packages[i].as_str();
        assert(q@ == sviews(packages@)[i as int]);
        requests.push(q);
        assert(req_views(requests@) =~= before.push(q@));
        i = i + 1;
        assert(req_views(requests@) =~= sviews(packages@).take(i as int));
    }
    assert(sviews(packages@).take(i as int) =~= sviews(packages@));
    let res = resolver.resolve(requests.as_slice());
    match res {
        Ok(plan) => {
            let ghost p = plan;
            let out = plan.install;
            assert(entry_views(out@) == entry_views(p.install@));
            Ok(out)
        },
        Err(e) => {
            let mut m = own("dependency resolution failed: ");
            let t = e.to_string();
            push_str(&mut m, t.as_str());
            Err(m)
        },
    }
}

// ─── Command line ─────────────────────────────────────────────────────────────

/// Shared command-line arguments.
pub struct Cli {
    /// Path to a sources list or apt config (used by `update`/`install`).
    pub config: Option<String>,
    /// Only print what would be done; do not mutate the system.
    pub dry_run: bool,
    /// Emit verbose logs.
    pub verbose: bool,
    /// Emit machine-readable JSON instead of human text.
    pub json: bool,
    pub command: Command,
}

/// Subcommands.
pub enum Command {
    /// Fetch and cache package indices from configured sources.
    Update,
    /// Resolve dependencies and install packages.
    Install { packages: Vec<String> },
    /// Search cached indices for a query string.
    Search { query: String },
    /// Show metadata for a single package.
    Show { package: String },
    /// List packages from the dpkg status database.
    List { installed: bool },
    /// Generate a shell completion script (bash, zsh, or fish).
    Completions { shell: String, output: Option<String> },
}

} // verus!
