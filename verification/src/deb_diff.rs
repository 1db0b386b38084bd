//! Structural and content diffing of two Debian `.deb` packages: control
//! fields, the file tree, and the SHA-256 of the files both hold.

use vstd::prelude::*;
use crate::control_file::copy_pairs;
use crate::deb_format::{content_views, contents_in_tar, deb_error_kind, deb_error_text, deb_result, member_decoded, DebError, DebErrorKind, DebFile};
use crate::fields::{find_key_str, lemma_key_index, map_get, str_pairs, Pairs};
use crate::order::{same_path, same_path_exec, sorted_order, sorted_positions};
use crate::pdiff::{hex_spec, sha256_hex, sha256_of};
use crate::numeric::{dec, u64_to_dec};
use crate::text::{chars_of, debug_str, own, push_debug_str, push_str, str_eq, sviews};

verus! {

/// Errors produced while diffing two `.deb` files.
#[derive(Debug)]
pub enum DebDiffError {
    /// One of the inputs could not be parsed as a `.deb`.
    Deb(DebError),
    /// A SHA-256 computation failed.
    Checksum(String),
}

impl DebDiffError {
    /// The message of the error.
    pub fn to_string(&self) -> (r: String)
        ensures
            r@ == match *self {
                DebDiffError::Deb(e) => "deb parse error: "@ + deb_error_text(e),
                DebDiffError::Checksum(m) => "checksum error: "@ + m@,
            },
    {
        match self {
            DebDiffError::Deb(e) => {
                let mut out = own("deb parse error: ");
                let t = e.to_string();
                push_str(&mut out, t.as_str());
                out
            },
            DebDiffError::Checksum(m) => {
                let mut out = own("checksum error: ");
                push_str(&mut out, m.as_str());
                out
            },
        }
    }
}

/// One control-field change between the two packages.
#[derive(Debug, Clone, PartialEq, Eq)]
pub struct MetaChange {
    /// The control field name.
    pub field: String,
    /// The value in the old package, or `None` if the field was absent.
    pub old: Option<String>,
    /// The value in the new package, or `None` if the field was removed.
    pub new: Option<String>,
}

/// A file whose content changed between the two packages.
#[derive(Debug, Clone, PartialEq, Eq)]
pub struct FileChange {
    /// Path of the file (relative to the filesystem root).
    pub path: String,
    /// SHA-256 of the old content.
    pub old_sha256: Option<String>,
    /// SHA-256 of the new content.
    pub new_sha256: Option<String>,
}

/// The complete result of diffing two `.deb` packages.
#[derive(Debug, Clone, PartialEq, Eq)]
pub struct DiffReport {
    /// Control-field changes (only fields whose value differs are listed).
    pub metadata: Vec<MetaChange>,
    /// Files present in the new package but not the old one.
    pub files_added: Vec<String>,
    /// Files present in the old package but not the new one.
    pub files_removed: Vec<String>,
    /// Files present in both packages whose content differs.
    pub files_modified: Vec<FileChange>,
}

pub open spec fn opt_view(o: Option<String>) -> Option<Seq<char>> {
    match o {
        Some(s) => Some(s@),
        None => None,
    }
}

/// Abstract value of a [`MetaChange`]: field, old value, new value.
pub type MetaV = (Seq<char>, Option<Seq<char>>, Option<Seq<char>>);

/// Abstract value of a [`FileChange`]: path, old digest, new digest.
pub type FileV = (Seq<char>, Option<Seq<char>>, Option<Seq<char>>);

pub open spec fn meta_views(v: Seq<MetaChange>) -> Seq<MetaV> {
    Seq::new(v.len(), |i: int| (v[i].field@, opt_view(v[i].old), opt_view(v[i].new)))
}

pub open spec fn file_views(v: Seq<FileChange>) -> Seq<FileV> {
    Seq::new(v.len(), |i: int| (v[i].path@, opt_view(v[i].old_sha256), opt_view(v[i].new_sha256)))
}

/// Abstract value of a [`DiffReport`].
pub struct ReportV {
    pub metadata: Seq<MetaV>,
    pub files_added: Seq<Seq<char>>,
    pub files_removed: Seq<Seq<char>>,
    pub files_modified: Seq<FileV>,
}

impl View for DiffReport {
    type V = ReportV;

    open spec fn view(&self) -> ReportV {
        ReportV {
            metadata: meta_views(self.metadata@),
            files_added: sviews(self.files_added@),
            files_removed: sviews(self.files_removed@),
            files_modified: file_views(self.files_modified@),
        }
    }
}

impl DiffReport {
    /// Returns `true` when the two packages are identical (no differences).
    pub fn is_empty(&self) -> (r: bool)
        ensures
            r == (self.metadata@.len() == 0 && self.files_added@.len() == 0 && self.files_removed@.len() == 0
                && self.files_modified@.len() == 0),
    {
        self.metadata.len() == 0 && self.files_added.len() == 0 && self.files_removed.len() == 0
            && self.files_modified.len() == 0
    }

    /// Total number of changes across all categories.
    pub fn change_count(&self) -> (r: usize)
        requires
            self.metadata@.len() + self.files_added@.len() + self.files_removed@.len() + self.files_modified@.len()
                <= usize::MAX,
        ensures
            r == self.metadata@.len() + self.files_added@.len() + self.files_removed@.len() + self.files_modified@.len(),
    {
        self.metadata.len() + self.files_added.len() + self.files_removed.len() + self.files_modified.len()
    }
}

// ─── Rendering ────────────────────────────────────────────────────────────────

/// The line of one field change: old and new values quoted, `(removed)` or
/// `(added)` for a missing side; nothing when both are missing.
pub open spec fn meta_line(m: MetaV) -> Seq<char> {
    match (m.1, m.2) {
        (Some(o), Some(n)) => "  "@ + m.0 + ": "@ + debug_str(o) + " -> "@ + debug_str(n) + "\n"@,
        (Some(o), None) => "  "@ + m.0 + ": "@ + debug_str(o) + " -> (removed)\n"@,
        (None, Some(n)) => "  "@ + m.0 + ": (added) -> "@ + debug_str(n) + "\n"@,
        (None, None) => Seq::empty(),
    }
}

pub open spec fn meta_lines(ms: Seq<MetaV>) -> Seq<char>
    decreases ms.len(),
{
    if ms.len() == 0 {
        Seq::empty()
    } else {
        meta_lines(ms.drop_last()) + meta_line(ms.last())
    }
}

/// Each path as a line after `mark`.
pub open spec fn path_lines(mark: Seq<char>, ps: Seq<Seq<char>>) -> Seq<char>
    decreases ps.len(),
{
    if ps.len() == 0 {
        Seq::empty()
    } else {
        path_lines(mark, ps.drop_last()) + "  "@ + mark + " "@ + ps.last() + "\n"@
    }
}

pub open spec fn file_paths(fs: Seq<FileV>) -> Seq<Seq<char>> {
    Seq::new(fs.len(), |i: int| fs[i].0)
}

/// A titled section of paths, empty when there are none.
pub open spec fn path_section(title: Seq<char>, mark: Seq<char>, ps: Seq<Seq<char>>) -> Seq<char> {
    if ps.len() == 0 {
        Seq::empty()
    } else {
        title + " ("@ + dec(ps.len()) + "):\n"@ + path_lines(mark, ps)
    }
}

/// The human-readable summary of a report.
pub open spec fn report_text(r: ReportV) -> Seq<char> {
    if r.metadata.len() == 0 && r.files_added.len() == 0 && r.files_removed.len() == 0 && r.files_modified.len() == 0 {
        "No differences found.\n"@
    } else {
        (if r.metadata.len() == 0 {
            Seq::empty()
        } else {
            "Metadata changes:\n"@ + meta_lines(r.metadata)
        }) + path_section("Added files"@, "+"@, r.files_added) + path_section("Removed files"@, "-"@, r.files_removed)
            + path_section("Modified files"@, "*"@, file_paths(r.files_modified))
    }
}

fn push_path_section(out: &mut String, title: &str, mark: &str, ps: &Vec<String>)
    ensures
        final(out)@ == old(out)@ + path_section(title@, mark@, sviews(ps@)),
{
    if ps.len() == 0 {
        return;
    }
    let ghost pv = sviews(ps@);
    let ghost start = out@;
    push_str(out, title);
    push_str(out, " (");
    let n = u64_to_dec(ps.len() as u64);
    push_str(out, n.as_str());
    push_str(out, "):\n");
    let ghost head = out@;
    assert(head == start + title@ + " ("@ + dec(pv.len()) + "):\n"@);
    let mut i: usize = 0;
    while i < ps.len()
        invariant
            i <= ps@.len(),
            pv == sviews(ps@),
            out@ == head + path_lines(mark@, pv.take(i as int)),
        decreases ps@.len() - i,
    {
        assert(pv.take(i + 1).drop_last() =~= pv.take(i as int));
        push_str(out, "  ");
        push_str(out, mark);
        push_str(out, " ");
        push_str(out, ps[i].as_str());
        push_str(out, "\n");
        i = i + 1;
        assert(out@ =~= head + path_lines(mark@, pv.take(i as int)));
    }
    assert(pv.take(i as int) =~= pv);
    assert(out@ =~= start + path_section(title@, mark@, pv));
}

impl DiffReport {
    /// The human-readable summary: a
    /// section per kind of change, values quoted.
    pub fn to_string(&self) -> (r: String)
        ensures
            r@ == report_text(self@),
    {
        if self.is_empty() {
            return own("No differences found.\n");
        }
        let mut out = String::new();
        if self.metadata.len() > 0 {
            push_str(&mut out, "Metadata changes:\n");
            let ghost mv = meta_views(self.metadata@);
            let ghost head = out@;
            let mut i: usize = 0;
            while i < self.metadata.len()
                invariant
                    i <= self.metadata@.len(),
                    mv == meta_views(self.metadata@),
                    out@ == head + meta_lines(mv.take(i as int)),
                decreases self.metadata@.len() - i,
            {
                assert(mv.take(i + 1).drop_last() =~= mv.take(i as int));
                let ghost before = out@;
                let m = &self.metadata[i];
                match (&m.old, &m.new) {
                    (Some(o), Some(n)) => {
                        push_str(&mut out, "  ");
                        push_str(&mut out, m.field.as_str());
                        push_str(&mut out, ": ");
                        push_debug_str(&mut out, &chars_of(o.as_str()));
                        push_str(&mut out, " -> ");
                        push_debug_str(&mut out, &chars_of(n.as_str()));
                        push_str(&mut out, "\n");
                    },
                    (Some(o), None) => {
                        push_str(&mut out, "  ");
                        push_str(&mut out, m.field.as_str());
                        push_str(&mut out, ": ");
                        push_debug_str(&mut out, &chars_of(o.as_str()));
                        push_str(&mut out, " -> (removed)\n");
                    },
                    (None, Some(n)) => {
                        push_str(&mut out, "  ");
                        push_str(&mut out, m.field.as_str());
                        push_str(&mut out, ": (added) -> ");
                        push_debug_str(&mut out, &chars_of(n.as_str()));
                        push_str(&mut out, "\n");
                    },
                    (None, None) => {},
                }
                assert(out@ =~= before + meta_line(mv[i as int]));
                i = i + 1;
                assert(out@ =~= head + meta_lines(mv.take(i as int)));
            }
            assert(mv.take(i as int) =~= mv);
        }
        push_path_section(&mut out, "Added files", "+", &self.files_added);
        push_path_section(&mut out, "Removed files", "-", &self.files_removed);
        let mut paths: Vec<String> = Vec::new();
        let mut k: usize = 0;
        while k < self.files_modified.len()
            invariant
                k <= self.files_modified@.len(),
                sviews(paths@) == file_paths(file_views(self.files_modified@)).take(k as int),
            decreases self.files_modified@.len() - k,
        {
            let ghost before = sviews(paths@);
            paths.push(own(self.files_modified[k].path.as_str()));
            assert(sviews(paths@) =~= before.push(self.files_modified@[k as int].path@));
            k = k + 1;
            assert(sviews(paths@) =~= file_paths(file_views(self.files_modified@)).take(k as int));
        }
        assert(file_paths(file_views(self.files_modified@)).take(k as int) =~= file_paths(file_views(self.files_modified@)));
        push_path_section(&mut out, "Modified files", "*", &paths);
        out
    }
}

// ─── What a diff holds ────────────────────────────────────────────────────────

/// Path to content, as a `.deb` payload holds it.
pub type Files = Seq<(Seq<char>, Seq<u8>)>;

/// The control fields and the files of a `.deb`.
pub open spec fn contents_of(d: Seq<u8>) -> Result<(Pairs, Files), DebErrorKind> {
    match deb_result(d) {
        Err(k) => Err(k),
        Ok(v) => match v.data {
            None => Err(DebErrorKind::Format("missing data.tar member"@)),
            Some(m) => match member_decoded(m.1, m.0) {
                Err(k) => Err(k),
                Ok(t) => match contents_in_tar(t, 0, Seq::empty()) {
                    Ok(c) => Ok((v.meta, c)),
                    Err(k) => Err(k),
                },
            },
        },
    }
}

/// The keys of a key/value list.
pub open spec fn keys_of<V>(f: Seq<(Seq<char>, V)>) -> Seq<Seq<char>> {
    Seq::new(f.len(), |i: int| f[i].0)
}

/// The elements of `keys` at the positions `order`.
pub open spec fn pick(keys: Seq<Seq<char>>, order: Seq<usize>) -> Seq<Seq<char>> {
    Seq::new(order.len(), |i: int| keys[order[i] as int])
}

/// `s` without the repetitions of an element right after itself.
pub open spec fn dedup_adjacent(s: Seq<Seq<char>>) -> Seq<Seq<char>>
    decreases s.len(),
{
    if s.len() == 0 {
        s
    } else {
        let r = dedup_adjacent(s.drop_last());
        if r.len() > 0 && r.last() == s.last() {
            r
        } else {
            r.push(s.last())
        }
    }
}

/// The field names of both packages in `str` order, each once.
pub open spec fn field_names(o: Pairs, n: Pairs) -> Seq<Seq<char>> {
    let keys = keys_of(o) + keys_of(n);
    dedup_adjacent(pick(keys, sorted_positions(keys, false)))
}

/// The changes of the fields `names`: those whose values differ.
pub open spec fn meta_changes(names: Seq<Seq<char>>, o: Pairs, n: Pairs) -> Seq<MetaV>
    decreases names.len(),
{
    if names.len() == 0 {
        Seq::empty()
    } else {
        let r = meta_changes(names.drop_last(), o, n);
        let k = names.last();
        if map_get(o, k) != map_get(n, k) {
            r.push((k, map_get(o, k), map_get(n, k)))
        } else {
            r
        }
    }
}

/// Index of the first entry of `f` naming the same path as `p`, or its
/// length.
pub open spec fn path_index(f: Files, p: Seq<char>) -> nat
    decreases f.len(),
{
    if f.len() == 0 {
        0
    } else if same_path(f[0].0, p) {
        0
    } else {
        1 + path_index(f.drop_first(), p)
    }
}

/// The content stored under path `p`, as `HashMap<PathBuf, _>::get` finds it.
pub open spec fn path_get(f: Files, p: Seq<char>) -> Option<Seq<u8>> {
    if path_index(f, p) < f.len() {
        Some(f[path_index(f, p) as int].1)
    } else {
        None
    }
}

/// The paths of `f` in `Path` order.
pub open spec fn sorted_paths(f: Files) -> Seq<Seq<char>> {
    pick(keys_of(f), sorted_positions(keys_of(f), true))
}

/// The paths of `ps` that `g` does not hold.
pub open spec fn paths_absent(ps: Seq<Seq<char>>, g: Files) -> Seq<Seq<char>>
    decreases ps.len(),
{
    if ps.len() == 0 {
        Seq::empty()
    } else {
        let r = paths_absent(ps.drop_last(), g);
        if path_get(g, ps.last()) is Some {
            r
        } else {
            r.push(ps.last())
        }
    }
}

/// The lowercase hexadecimal SHA-256 of `b`.
pub open spec fn digest_text(b: Seq<u8>) -> Seq<char> {
    hex_spec(sha256_of(b))
}

/// The paths of `ps` held by both `o` and `n` with contents of different
/// digests, with the digests.
pub open spec fn modified(ps: Seq<Seq<char>>, o: Files, n: Files) -> Seq<FileV>
    decreases ps.len(),
{
    if ps.len() == 0 {
        Seq::empty()
    } else {
        let r = modified(ps.drop_last(), o, n);
        let p = ps.last();
        match (path_get(o, p), path_get(n, p)) {
            (Some(x), Some(y)) => if digest_text(x) != digest_text(y) {
                r.push((p, Some(digest_text(x)), Some(digest_text(y))))
            } else {
                r
            },
            _ => r,
        }
    }
}

/// The report of the changes from the package `(om, of)` to `(nm, nf)`.
pub open spec fn report_of(om: Pairs, of: Files, nm: Pairs, nf: Files) -> ReportV {
    ReportV {
        metadata: meta_changes(field_names(om, nm), om, nm),
        files_added: paths_absent(sorted_paths(nf), of),
        files_removed: paths_absent(sorted_paths(of), nf),
        files_modified: modified(sorted_paths(of), of, nf),
    }
}

/// What diffing the `.deb` bytes `old` and `new` gives.
pub open spec fn diff_result(old: Seq<u8>, new: Seq<u8>, r: Result<DiffReport, DebDiffError>) -> bool {
    match contents_of(old) {
        Err(k) => r matches Err(DebDiffError::Deb(e)) && deb_error_kind(e) == k,
        Ok((om, of)) => match contents_of(new) {
            Err(k) => r matches Err(DebDiffError::Deb(e)) && deb_error_kind(e) == k,
            Ok((nm, nf)) => r matches Ok(rep) && rep@ == report_of(om, of, nm, nf),
        },
    }
}

// ─── Laws ─────────────────────────────────────────────────────────────────────

proof fn lemma_meta_same(names: Seq<Seq<char>>, m: Pairs)
    ensures
        meta_changes(names, m, m).len() == 0,
    decreases names.len(),
{
    if names.len() > 0 {
        lemma_meta_same(names.drop_last(), m);
    }
}

proof fn lemma_path_index(f: Files, p: Seq<char>, k: int)
    requires
        0 <= k < f.len(),
        same_path(f[k].0, p),
    ensures
        path_index(f, p) <= k,
    decreases f.len(),
{
    if k > 0 && !same_path(f[0].0, p) {
        lemma_path_index(f.drop_first(), p, k - 1);
    }
}

/// `f` has an entry keyed exactly `p`.
spec fn holds_key(f: Files, p: Seq<char>) -> bool {
    exists|k: int| 0 <= k < f.len() && #[trigger] f[k].0 == p
}

proof fn lemma_absent_own(ps: Seq<Seq<char>>, f: Files)
    requires
        forall|i: int| 0 <= i < ps.len() ==> holds_key(f, #[trigger] ps[i]),
    ensures
        paths_absent(ps, f).len() == 0,
    decreases ps.len(),
{
    if ps.len() > 0 {
        assert forall|i: int| 0 <= i < ps.drop_last().len() implies holds_key(f, #[trigger] ps.drop_last()[i]) by {
            assert(ps.drop_last()[i] == ps[i]);
        }
        lemma_absent_own(ps.drop_last(), f);
        assert(holds_key(f, ps[ps.len() - 1]));
        let k = choose|k: int| 0 <= k < f.len() && #[trigger] f[k].0 == ps[ps.len() - 1];
        lemma_path_index(f, ps.last(), k);
    }
}

proof fn lemma_modified_same(ps: Seq<Seq<char>>, f: Files)
    ensures
        modified(ps, f, f).len() == 0,
    decreases ps.len(),
{
    if ps.len() > 0 {
        lemma_modified_same(ps.drop_last(), f);
    }
}

proof fn lemma_sorted_paths_own(f: Files)
    requires
        f.len() <= usize::MAX,
    ensures
        forall|i: int| 0 <= i < sorted_paths(f).len() ==> holds_key(f, #[trigger] sorted_paths(f)[i]),
{
    let keys = keys_of(f);
    crate::order::lemma_sorted_positions_bounds(keys, true);
    assert forall|i: int| 0 <= i < sorted_paths(f).len() implies holds_key(f, #[trigger] sorted_paths(f)[i]) by {
        let k = sorted_positions(keys, true)[i] as int;
        assert(f[k].0 == sorted_paths(f)[i]);
    }
}

/// A package diffed with itself shows no change.
pub proof fn lemma_self_diff_empty(m: Pairs, f: Files)
    requires
        f.len() <= usize::MAX,
    ensures
        report_of(m, f, m, f).metadata.len() == 0,
        report_of(m, f, m, f).files_added.len() == 0,
        report_of(m, f, m, f).files_removed.len() == 0,
        report_of(m, f, m, f).files_modified.len() == 0,
{
    lemma_meta_same(field_names(m, m), m);
    lemma_sorted_paths_own(f);
    lemma_absent_own(sorted_paths(f), f);
    lemma_modified_same(sorted_paths(f), f);
}

// ─── Computing a diff ─────────────────────────────────────────────────────────

/// The control fields and files of a `.deb`.
fn read_contents(deb: &[u8]) -> (r: Result<(Vec<(String, String)>, Vec<(String, Vec<u8>)>), DebError>)
    ensures
        match contents_of(deb@) {
            Ok((m, f)) => r matches Ok(x) && str_pairs(x.0@) == m && content_views(x.1@) == f,
            Err(k) => r matches Err(e) && deb_error_kind(e) == k,
        },
{
    let parsed = DebFile::parse(deb)?;
    let files = parsed.data_contents()?;
    Ok((copy_pairs(&parsed.metadata().fields), files))
}

fn path_index_exec(f: &Vec<(String, Vec<u8>)>, p: &str) -> (r: usize)
    ensures
        r == path_index(content_views(f@), p@),
{
    let ghost fv = content_views(f@);
    let mut i: usize = 0;
    assert(fv.skip(0) =~= fv);
    while i < f.len()
        invariant
            i <= f@.len(),
            fv == content_views(f@),
            path_index(fv, p@) == i + path_index(fv.skip(i as int), p@),
        decreases f@.len() - i,
    {
        assert(fv.skip(i as int)[0] == fv[i as int]);
        if same_path_exec(f[i].0.as_str(), p) {
            return i;
        }
        assert(fv.skip(i as int).drop_first() =~= fv.skip(i + 1));
        i = i + 1;
    }
    assert(fv.skip(i as int).len() == 0);
    i
}

fn keys_exec<V>(f: &Vec<(String, V)>) -> (r: Vec<String>)
    ensures
        sviews(r@) == Seq::new(f@.len(), |i: int| f@[i].0@),
{
    let mut out: Vec<String> = Vec::new();
    let mut i: usize = 0;
    while i < f.len()
        invariant
            i <= f@.len(),
            sviews(out@) == Seq::new(i as nat, |k: int| f@[k].0@),
        decreases f@.len() - i,
    {
        let ghost before = sviews(out@);
        let k = own(f[i].0.as_str());
        assert(k@ == f@[i as int].0@);
        out.push(k);
        assert(sviews(out@) =~= before.push(f@[i as int].0@));
        i = i + 1;
        assert(sviews(out@) =~= Seq::new(i as nat, |k: int| f@[k].0@));
    }
    out
}

/// The paths of `f` in `Path` order.
fn sorted_paths_exec(f: &Vec<(String, Vec<u8>)>) -> (r: Vec<String>)
    ensures
        sviews(r@) == sorted_paths(content_views(f@)),
{
    let keys = keys_exec(f);
    let ghost kv = sviews(keys@);
    assert(kv =~= keys_of(content_views(f@)));
    let order = sorted_order(keys.as_slice(), true);
    let mut out: Vec<String> = Vec::new();
    let mut i: usize = 0;
    while i < order.len()
        invariant
            i <= order@.len(),
            kv == sviews(keys@),
            forall|k: int| 0 <= k < order@.len() ==> #[trigger] order@[k] < keys@.len(),
            sviews(out@) == pick(kv, order@.take(i as int)),
        decreases order@.len() - i,
    {
        let ghost before = sviews(out@);
        let k = own(keys[order[i]].as_str());
        assert(k@ == kv[order@[i as int] as int]);
        out.push(k);
        assert(sviews(out@) =~= before.push(kv[order@[i as int] as int]));
        i = i + 1;
        assert(sviews(out@) =~= pick(kv, order@.take(i as int)));
    }
    assert(order@.take(i as int) =~= order@);
    out
}

/// The paths of `ps` that `g` does not hold.
fn paths_absent_exec(ps: &Vec<String>, g: &Vec<(String, Vec<u8>)>) -> (r: Vec<String>)
    ensures
        sviews(r@) == paths_absent(sviews(ps@), content_views(g@)),
{
    let ghost pv = sviews(ps@);
    let ghost gv = content_views(g@);
    let mut out: Vec<String> = Vec::new();
    let mut i: usize = 0;
    while i < ps.len()
        invariant
            i <= ps@.len(),
            pv == sviews(ps@),
            gv == content_views(g@),
            sviews(out@) == paths_absent(pv.take(i as int), gv),
        decreases ps@.len() - i,
    {
        assert(pv.take(i + 1).drop_last() =~= pv.take(i as int));
        assert(pv.take(i + 1).last() == ps@[i as int]@);
        let j = path_index_exec(g, ps[i].as_str());
        if j >= g.len() {
            let ghost before = sviews(out@);
            out.push(own(ps[i].as_str()));
            assert(sviews(out@) =~= before.push(ps@[i as int]@));
        }
        i = i + 1;
    }
    assert(pv.take(i as int) =~= pv);
    out
}

/// The files of `ps` whose contents in `o` and `n` differ.
fn modified_exec(ps: &Vec<String>, o: &Vec<(String, Vec<u8>)>, n: &Vec<(String, Vec<u8>)>) -> (r: Vec<FileChange>)
    ensures
        file_views(r@) == modified(sviews(ps@), content_views(o@), content_views(n@)),
{
    let ghost pv = sviews(ps@);
    let ghost ov = content_views(o@);
    let ghost nv = content_views(n@);
    let mut out: Vec<FileChange> = Vec::new();
    let mut i: usize = 0;
    while i < ps.len()
        invariant
            i <= ps@.len(),
            pv == sviews(ps@),
            ov == content_views(o@),
            nv == content_views(n@),
            file_views(out@) == modified(pv.take(i as int), ov, nv),
        decreases ps@.len() - i,
    {
        assert(pv.take(i + 1).drop_last() =~= pv.take(i as int));
        assert(pv.take(i + 1).last() == ps@[i as int]@);
        let a = path_index_exec(o, ps[i].as_str());
        let b = path_index_exec(n, ps[i].as_str());
        if a < o.len() && b < n.len() {
            let ho = sha256_hex(o[a].1.as_slice());
            let hn = sha256_hex(n[b].1.as_slice());
            if !str_eq(ho.as_str(), hn.as_str()) {
                let ghost before = file_views(out@);
                let ghost e = (ps@[i as int]@, Some(ho@), Some(hn@));
                out.push(FileChange { path: own(ps[i].as_str()), old_sha256: Some(ho), new_sha256: Some(hn) });
                assert(file_views(out@) =~= before.push(e));
            }
        }
        i = i + 1;
    }
    assert(pv.take(i as int) =~= pv);
    out
}

/// The value of `field` in `f`, exactly as keyed.
fn field_value(f: &Vec<(String, String)>, field: &str) -> (r: Option<String>)
    ensures
        opt_view(r) == map_get(str_pairs(f@), field@),
{
    let k = crate::text::chars_of(field);
    let i = find_key_str(f, &k);
    proof {
        lemma_key_index(str_pairs(f@), field@);
    }
    if i < f.len() {
        Some(own(f[i].1.as_str()))
    } else {
        None
    }
}

fn opt_eq(a: &Option<String>, b: &Option<String>) -> (r: bool)
    ensures
        r == (opt_view(*a) == opt_view(*b)),
{
    match (a, b) {
        (Some(x), Some(y)) => str_eq(x.as_str(), y.as_str()),
        (None, None) => true,
        _ => false,
    }
}

/// The field names of both lists in `str` order, each once.
fn field_names_exec(o: &Vec<(String, String)>, n: &Vec<(String, String)>) -> (r: Vec<String>)
    ensures
        sviews(r@) == field_names(str_pairs(o@), str_pairs(n@)),
{
    let mut keys = keys_exec(o);
    let more = keys_exec(n);
    let ghost k0 = sviews(keys@);
    let mut j: usize = 0;
    while j < more.len()
        invariant
            j <= more@.len(),
            sviews(keys@) == k0 + sviews(more@).take(j as int),
        decreases more@.len() - j,
    {
        let ghost before = sviews(keys@);
        let k = own(more[j].as_str());
        assert(k@ == sviews(more@)[j as int]);
        keys.push(k);
        assert(sviews(keys@) =~= before.push(sviews(more@)[j as int]));
        j = j + 1;
        assert(sviews(keys@) =~= k0 + sviews(more@).take(j as int));
    }
    let ghost kv = sviews(keys@);
    assert(sviews(more@).take(j as int) =~= sviews(more@));
    assert(kv =~= keys_of(str_pairs(o@)) + keys_of(str_pairs(n@)));
    let order = sorted_order(keys.as_slice(), false);
    let ghost sorted = pick(kv, order@);
    let mut out: Vec<String> = Vec::new();
    let mut i: usize = 0;
    while i < order.len()
        invariant
            i <= order@.len(),
            kv == sviews(keys@),
            sorted == pick(kv, order@),
            forall|k: int| 0 <= k < order@.len() ==> #[trigger] order@[k] < keys@.len(),
            sviews(out@) == dedup_adjacent(sorted.take(i as int)),
            out@.len() > 0 ==> i > 0 && sviews(out@).last() == sorted[i - 1],
        decreases order@.len() - i,
    {
        let ghost before = sviews(out@);
        assert(sorted.take(i + 1).drop_last() =~= sorted.take(i as int));
        assert(sorted.take(i + 1).last() == keys@[order@[i as int] as int]@);
        let name = keys[order[i]].as_str();
        let dup = out.len() > 0 && str_eq(out[out.len() - 1].as_str(), name);
        if !dup {
            out.push(own(name));
            assert(sviews(out@) =~= before.push(name@));
        } else {
            assert(before.last() == out@[out@.len() - 1]@);
        }
        i = i + 1;
    }
    assert(sorted.take(i as int) =~= sorted);
    out
}

/// The changes of the fields `names` between `o` and `n`.
fn meta_changes_exec(names: &Vec<String>, o: &Vec<(String, String)>, n: &Vec<(String, String)>) -> (r: Vec<MetaChange>)
    ensures
        meta_views(r@) == meta_changes(sviews(names@), str_pairs(o@), str_pairs(n@)),
{
    let ghost nv = sviews(names@);
    let mut out: Vec<MetaChange> = Vec::new();
    let mut i: usize = 0;
    while i < names.len()
        invariant
            i <= names@.len(),
            nv == sviews(names@),
            meta_views(out@) == meta_changes(nv.take(i as int), str_pairs(o@), str_pairs(n@)),
        decreases names@.len() - i,
    {
        assert(nv.take(i + 1).drop_last() =~= nv.take(i as int));
        assert(nv.take(i + 1).last() == names@[i as int]@);
        let a = field_value(o, names[i].as_str());
        let b = field_value(n, names[i].as_str());
        if !opt_eq(&a, &b) {
            let ghost before = meta_views(out@);
            let ghost e = (names@[i as int]@, opt_view(a), opt_view(b));
            out.push(MetaChange { field: own(names[i].as_str()), old: a, new: b });
            assert(meta_views(out@) =~= before.push(e));
        }
        i = i + 1;
    }
    assert(nv.take(i as int) =~= nv);
    out
}

/// Compares two `.deb` packages.
pub struct DebDiff;

impl DebDiff {
    /// Diff two `.deb` byte blobs and return a structured [`DiffReport`]:
    /// the control fields whose values differ (by name, in `str` order), the
    /// files only the new package holds and those only the old one holds
    /// (in `Path` order), and the files both hold whose SHA-256 differs.
    /// Fails with [`DebDiffError::Deb`] if either input is not a valid `.deb`
    /// (the old one is read first).
    pub fn compare(old: &[u8], new: &[u8]) -> (r: Result<DiffReport, DebDiffError>)
        ensures
            diff_result(old@, new@, r),
    {
        let (om, of) = match read_contents(old) {
            Ok(c) => c,
            Err(e) => return Err(DebDiffError::Deb(e)),
        };
        let (nm, nf) = match read_contents(new) {
            Ok(c) => c,
            Err(e) => return Err(DebDiffError::Deb(e)),
        };
        let names = field_names_exec(&om, &nm);
        let metadata = meta_changes_exec(&names, &om, &nm);
        let new_paths = sorted_paths_exec(&nf);
        let old_paths = sorted_paths_exec(&of);
        let files_added = paths_absent_exec(&new_paths, &of);
        let files_removed = paths_absent_exec(&old_paths, &nf);
        let files_modified = modified_exec(&old_paths, &of, &nf);
        let report = DiffReport { metadata, files_added, files_removed, files_modified };
        assert(report@ == report_of(str_pairs(om@), content_views(of@), str_pairs(nm@), content_views(nf@)));
        Ok(report)
    }
}

} // verus!
