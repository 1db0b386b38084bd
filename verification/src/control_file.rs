//! Debian control files: `Packages` index stanzas, `control` files inside
//! `.deb` archives, and binary/source package metadata.

use vstd::prelude::*;
use crate::text::{chars_of, chars_eq, lines, lines_exec, lowercase, to_lowercase, ascii_lower, ascii_text,
    ascii_lower_vec, string_of, push_str, words, words_exec, strings_of, sviews, views, split_str,
    split_str_exec, trim, trim_bounds, own, index_of};
use crate::numeric::{parse_unsigned, parse_unsigned_exec};
use crate::fields::{Pairs, str_pairs, cv_pairs, to_str_pairs, map_set, map_get, has_key,
    key_index, find_key_str, fold_get, fold_index, lemma_fold_index_at, lemma_key_index, lemma_map_set};
use crate::stanza::{parse_para, parse_para_exec, stanzas, split_stanzas_exec, para_fold, ParaState,
    para_step, blank_sep};

verus! {

// ─── Errors ───────────────────────────────────────────────────────────────────

/// Errors that can occur during control file parsing.
#[derive(Debug)]
pub enum ControlError {
    /// A required field is absent.
    MissingField(String),
    /// A field value is not acceptable.
    InvalidField { field: String, reason: String },
    /// A field occurs twice in one stanza.
    DuplicateField(String),
    /// A single-stanza document holds this many stanzas.
    UnexpectedMultipleStanzas(usize),
}

// ─── Lookups ──────────────────────────────────────────────────────────────────

/// Case-insensitive lookup as `ControlParagraph::get` performs it.
pub open spec fn pget(f: Pairs, k: Seq<char>) -> Option<Seq<char>> {
    fold_get(f, k, lowercase(k), |s: Seq<char>| lowercase(s))
}

/// Case-insensitive lookup as `BorrowedParagraph::get` performs it
/// (ASCII case folding of the keys against the lowercased query).
pub open spec fn bget(f: Pairs, k: Seq<char>) -> Option<Seq<char>> {
    fold_get(f, k, ascii_lower(lowercase(k)), |s: Seq<char>| ascii_lower(s))
}

/// Every key of `f` is ASCII text.
pub open spec fn ascii_keys(f: Pairs) -> bool {
    forall|i: int| 0 <= i < f.len() ==> ascii_text(#[trigger] f[i].0)
}

/// Lookup by exact key, then by ASCII case folding of the keys against the
/// ASCII-lowercased query.
pub open spec fn aget(f: Pairs, k: Seq<char>) -> Option<Seq<char>> {
    fold_get(f, k, ascii_lower(k), |s: Seq<char>| ascii_lower(s))
}

/// Index of the first key whose lowercase form is `target`.
fn fold_lower_index(v: &Vec<(String, String)>, target: &Vec<char>) -> (r: usize)
    ensures
        r == fold_index(str_pairs(v@), target@, |s: Seq<char>| lowercase(s)),
        ascii_keys(str_pairs(v@)) ==> r == fold_index(str_pairs(v@), target@, |s: Seq<char>| ascii_lower(s)),
        r <= v@.len(),
{
    let ghost f = str_pairs(v@);
    let ghost fold = |s: Seq<char>| lowercase(s);
    let ghost afold = |s: Seq<char>| ascii_lower(s);
    let mut i: usize = 0;
    while i < v.len()
        invariant
            0 <= i <= v@.len(),
            f == str_pairs(v@),
            fold == (|s: Seq<char>| lowercase(s)),
            afold == (|s: Seq<char>| ascii_lower(s)),
            forall|m: int| 0 <= m < i ==> fold(#[trigger] f[m].0) != target@,
            ascii_keys(f) ==> forall|m: int| 0 <= m < i ==> afold(#[trigger] f[m].0) != target@,
        decreases v.len() - i,
    {
        let lk = to_lowercase(v[i].0.as_str());
        let lkc = chars_of(lk.as_str());
        proof {
            assert(f[i as int].0 == v@[i as int].0@);
            if ascii_keys(f) {
                assert(ascii_text(f[i as int].0));
            }
        }
        if chars_eq(&lkc, target) {
            proof {
                lemma_fold_index_at(f, target@, fold, i as int);
                if ascii_keys(f) {
                    lemma_fold_index_at(f, target@, afold, i as int);
                }
            }
            return i;
        }
        i = i + 1;
    }
    proof {
        lemma_fold_index_at(f, target@, fold, i as int);
        if ascii_keys(f) {
            lemma_fold_index_at(f, target@, afold, i as int);
        }
    }
    i
}

/// Index of the first key whose ASCII-lowercased form is `target`.
fn fold_ascii_index(v: &Vec<(String, String)>, target: &Vec<char>) -> (r: usize)
    ensures
        r == fold_index(str_pairs(v@), target@, |s: Seq<char>| ascii_lower(s)),
        r <= v@.len(),
{
    let ghost f = str_pairs(v@);
    let ghost fold = |s: Seq<char>| ascii_lower(s);
    let mut i: usize = 0;
    while i < v.len()
        invariant
            0 <= i <= v@.len(),
            f == str_pairs(v@),
            fold == (|s: Seq<char>| ascii_lower(s)),
            forall|m: int| 0 <= m < i ==> fold(#[trigger] f[m].0) != target@,
        decreases v.len() - i,
    {
        let kc = chars_of(v[i].0.as_str());
        let lkc = ascii_lower_vec(&kc);
        if chars_eq(&lkc, target) {
            proof {
                lemma_fold_index_at(f, target@, fold, i as int);
            }
            return i;
        }
        i = i + 1;
    }
    proof {
        lemma_fold_index_at(f, target@, fold, i as int);
    }
    i
}

/// Looks up `field` in `v`: exact key first, then by Unicode lowercase.
pub fn lookup_lower<'a>(v: &'a Vec<(String, String)>, field: &str) -> (r: Option<&'a str>)
    ensures
        match pget(str_pairs(v@), field@) {
            Some(x) => r matches Some(y) && y@ == x,
            None => r is None,
        },
        ascii_keys(str_pairs(v@)) && ascii_text(field@) ==> match aget(str_pairs(v@), field@) {
            Some(x) => r matches Some(y) && y@ == x,
            None => r is None,
        },
{
    let fc = chars_of(field);
    let i = find_key_str(v, &fc);
    proof {
        lemma_key_index(str_pairs(v@), fc@);
    }
    if i < v.len() {
        return Some(v[i].1.as_str());
    }
    let lower = to_lowercase(field);
    let lc = chars_of(lower.as_str());
    let j = fold_lower_index(v, &lc);
    if j < v.len() {
        Some(v[j].1.as_str())
    } else {
        None
    }
}

/// Looks up `field` in `v`: exact key first, then by ASCII case folding.
fn lookup_ascii<'a>(v: &'a Vec<(String, String)>, field: &str) -> (r: Option<&'a str>)
    ensures
        match bget(str_pairs(v@), field@) {
            Some(x) => r matches Some(y) && y@ == x,
            None => r is None,
        },
        ascii_text(field@) ==> match aget(str_pairs(v@), field@) {
            Some(x) => r matches Some(y) && y@ == x,
            None => r is None,
        },
{
    let fc = chars_of(field);
    let i = find_key_str(v, &fc);
    proof {
        lemma_key_index(str_pairs(v@), fc@);
    }
    if i < v.len() {
        return Some(v[i].1.as_str());
    }
    let lower = to_lowercase(field);
    let lc = chars_of(lower.as_str());
    let alc = ascii_lower_vec(&lc);
    proof {
        if ascii_text(field@) {
            assert(ascii_lower(ascii_lower(field@)) =~= ascii_lower(field@));
        }
    }
    let j = fold_ascii_index(v, &alc);
    if j < v.len() {
        Some(v[j].1.as_str())
    } else {
        None
    }
}

/// Copies a string pair list.
pub fn copy_pairs(v: &Vec<(String, String)>) -> (r: Vec<(String, String)>)
    ensures
        str_pairs(r@) == str_pairs(v@),
{
    let mut out: Vec<(String, String)> = Vec::new();
    let mut i: usize = 0;
    while i < v.len()
        invariant
            0 <= i <= v@.len(),
            str_pairs(out@) == str_pairs(v@).take(i as int),
        decreases v.len() - i,
    {
        let a = v[i].0.clone();
        let b = v[i].1.clone();
        let ghost before = str_pairs(out@);
        let ghost pair = (a@, b@);
        out.push((a, b));
        proof {
            assert(str_pairs(out@) =~= before.push(pair));
            assert(str_pairs(out@) =~= str_pairs(v@).take(i + 1));
        }
        i = i + 1;
    }
    proof {
        assert(str_pairs(v@).take(v@.len() as int) =~= str_pairs(v@));
    }
    out
}

/// Insert or replace `key` with `value` in a string pair list.
fn set_pair(v: &mut Vec<(String, String)>, key: &str, value: &str)
    ensures
        str_pairs(final(v)@) == map_set(str_pairs(old(v)@), key@, value@),
{
    let kc = chars_of(key);
    let i = find_key_str(v, &kc);
    let ghost f = str_pairs(v@);
    proof {
        lemma_key_index(f, kc@);
    }
    let k = own(key);
    let val = own(value);
    if i < v.len() {
        v.set(i, (k, val));
        proof {
            assert(str_pairs(v@) =~= f.update(i as int, (key@, value@)));
        }
    } else {
        v.push((k, val));
        proof {
            assert(str_pairs(v@) =~= f.push((key@, value@)));
        }
    }
}

// ─── ControlParagraph ─────────────────────────────────────────────────────────

/// A single stanza (paragraph) of a Debian control file.
///
/// Fields keep their insertion order and original case; lookups by
/// [`ControlParagraph::get`] are case-insensitive.
#[derive(Debug, Clone)]
pub struct ControlParagraph {
    entries: Vec<(String, String)>,
}

impl View for ControlParagraph {
    type V = Pairs;

    closed spec fn view(&self) -> Pairs {
        str_pairs(self.entries@)
    }
}

impl ControlParagraph {
    /// An empty paragraph.
    pub fn new() -> (r: Self)
        ensures
            r@ == Seq::<(Seq<char>, Seq<char>)>::empty(),
    {
        let r = ControlParagraph { entries: Vec::new() };
        proof {
            assert(r@ =~= Seq::<(Seq<char>, Seq<char>)>::empty());
        }
        r
    }

    pub fn from_pairs(v: &Vec<(Vec<char>, Vec<char>)>) -> (r: Self)
        ensures
            r@ == cv_pairs(v@),
    {
        ControlParagraph { entries: to_str_pairs(v) }
    }

    /// Insert or replace `key` (stored as-is) with `value`; a new key goes
    /// last, an existing one keeps its position.
    pub fn set(&mut self, key: &str, value: &str)
        ensures
            final(self)@ == map_set(old(self)@, key@, value@),
    {
        set_pair(&mut self.entries, key, value);
    }

    /// Look up a field by name: the exact key, or else the first key whose
    /// lowercase form equals the lowercase form of `field`.
    pub fn get(&self, field: &str) -> (r: Option<&str>)
        ensures
            match pget(self@, field@) {
                Some(x) => r matches Some(y) && y@ == x,
                None => r is None,
            },
            ascii_keys(self@) && ascii_text(field@) ==> match aget(self@, field@) {
                Some(x) => r matches Some(y) && y@ == x,
                None => r is None,
            },
    {
        lookup_lower(&self.entries, field)
    }

    /// The `(key, value)` pairs in insertion order.
    pub fn fields(&self) -> (r: Vec<(String, String)>)
        ensures
            str_pairs(r@) == self@,
    {
        copy_pairs(&self.entries)
    }

    /// Returns `true` if the paragraph contains no fields.
    pub fn is_empty(&self) -> (r: bool)
        ensures
            r == (self@.len() == 0),
    {
        self.entries.len() == 0
    }
}

// ─── Documents ────────────────────────────────────────────────────────────────

/// Non-strict parsing never reports a repeated key.
pub proof fn lemma_lenient_no_dup(ls: Seq<Seq<char>>, trim_key: bool)
    ensures
        para_fold(ls, false, trim_key).dup is None,
    decreases ls.len(),
{
    if ls.len() > 0 {
        lemma_lenient_no_dup(ls.drop_last(), trim_key);
    }
}

/// Every field line of `ls` names its key without surrounding whitespace.
pub open spec fn keys_trimmed(ls: Seq<Seq<char>>) -> bool {
    forall|i: int|
        0 <= i < ls.len() && (#[trigger] ls[i]).len() > 0 && ls[i][0] != ' ' && ls[i][0] != '\t' && index_of(
            ls[i],
            ':',
        ) < ls[i].len() ==> trim(ls[i].take(index_of(ls[i], ':') as int)) == ls[i].take(index_of(ls[i], ':') as int)
}

proof fn lemma_fold_trim_agrees(ls: Seq<Seq<char>>, strict: bool)
    requires
        keys_trimmed(ls),
    ensures
        para_fold(ls, strict, true) == para_fold(ls, strict, false),
    decreases ls.len(),
{
    if ls.len() > 0 {
        let d = ls.drop_last();
        assert forall|i: int|
            0 <= i < d.len() && (#[trigger] d[i]).len() > 0 && d[i][0] != ' ' && d[i][0] != '\t' && index_of(
                d[i],
                ':',
            ) < d[i].len() implies trim(d[i].take(index_of(d[i], ':') as int)) == d[i].take(
            index_of(d[i], ':') as int,
        ) by {
            assert(d[i] == ls[i]);
        }
        lemma_fold_trim_agrees(d, strict);
        assert(ls.last() == ls[ls.len() - 1]);
    }
}

/// The owned and the borrowed parsers agree on every stanza whose field
/// lines name their keys without surrounding whitespace (the owned parser
/// trims keys, the borrowed one keeps them as written).
pub proof fn lemma_owned_borrowed_agree(stanza: Seq<char>, strict: bool)
    requires
        keys_trimmed(lines(stanza)),
    ensures
        parse_para(stanza, strict, true) == parse_para(stanza, strict, false),
        lenient_fields(stanza, true) == lenient_fields(stanza, false),
{
    lemma_fold_trim_agrees(lines(stanza), strict);
    lemma_fold_trim_agrees(lines(stanza), false);
}

/// On a stanza whose field lines name their keys without surrounding
/// whitespace and in ASCII, the owned and the borrowed parsers give the same
/// fields, and looking up an ASCII field name in them answers the same: both
/// `get`s answer `aget` there.
pub proof fn lemma_gets_agree(stanza: Seq<char>, k: Seq<char>)
    requires
        keys_trimmed(lines(stanza)),
        ascii_keys(lenient_fields(stanza, true)),
        ascii_text(k),
    ensures
        lenient_fields(stanza, true) == lenient_fields(stanza, false),
        ascii_keys(lenient_fields(stanza, false)),
        aget(lenient_fields(stanza, true), k) == aget(lenient_fields(stanza, false), k),
{
    lemma_owned_borrowed_agree(stanza, false);
}

/// The fields of a stanza parsed leniently (the last duplicate wins).
pub open spec fn lenient_fields(stanza: Seq<char>, trim_key: bool) -> Pairs {
    para_fold(lines(stanza), false, trim_key).fields
}

/// Parses `v[lo..hi]` leniently into a paragraph.
fn lenient_paragraph(v: &Vec<char>, lo: usize, hi: usize) -> (r: ControlParagraph)
    requires
        lo <= hi <= v@.len(),
    ensures
        r@ == lenient_fields(v@.subrange(lo as int, hi as int), true),
{
    proof {
        lemma_lenient_no_dup(lines(v@.subrange(lo as int, hi as int)), true);
    }
    match parse_para_exec(v, lo, hi, false, true) {
        Ok(f) => ControlParagraph::from_pairs(&f),
        Err(_) => ControlParagraph::new(),
    }
}

/// Parses `v[lo..hi]`, rejecting repeated keys.
fn strict_paragraph(v: &Vec<char>, lo: usize, hi: usize) -> (r: Result<ControlParagraph, ControlError>)
    requires
        lo <= hi <= v@.len(),
    ensures
        match parse_para(v@.subrange(lo as int, hi as int), true, true) {
            Ok(f) => r matches Ok(p) && p@ == f,
            Err(k) => r matches Err(ControlError::DuplicateField(key)) && key@ == k,
        },
{
    match parse_para_exec(v, lo, hi, true, true) {
        Ok(f) => Ok(ControlParagraph::from_pairs(&f)),
        Err(k) => Err(ControlError::DuplicateField(string_of(&k))),
    }
}

/// Parse all stanzas of a control document. Stanzas are separated by blank
/// lines; continuation lines are folded into the previous field; a repeated
/// field keeps its first position and takes the last value.
pub fn parse_control(input: &str) -> (r: Vec<ControlParagraph>)
    ensures
        r@.len() == stanzas(input@).len(),
        forall|i: int| 0 <= i < r@.len() ==> #[trigger] r@[i]@ == lenient_fields(stanzas(input@)[i], true),
{
    let v = chars_of(input);
    let parts = split_stanzas_exec(&v);
    let ghost sv = views(parts@);
    let mut out: Vec<ControlParagraph> = Vec::new();
    let mut i: usize = 0;
    while i < parts.len()
        invariant
            0 <= i <= parts@.len(),
            sv == views(parts@),
            sv == stanzas(input@),
            out@.len() == i,
            forall|m: int| 0 <= m < i ==> #[trigger] out@[m]@ == lenient_fields(sv[m], true),
        decreases parts.len() - i,
    {
        let p = &parts[i];
        let para = lenient_paragraph(p, 0, p.len());
        proof {
            assert(p@.subrange(0, p@.len() as int) =~= p@);
        }
        out.push(para);
        i = i + 1;
    }
    out
}

/// Parse all stanzas of a control document, rejecting any stanza that
/// repeats a field name with `DuplicateField`.
pub fn parse_control_strict(input: &str) -> (r: Vec<Result<ControlParagraph, ControlError>>)
    ensures
        r@.len() == stanzas(input@).len(),
        forall|i: int| 0 <= i < r@.len() ==> match parse_para(stanzas(input@)[i], true, true) {
            Ok(f) => #[trigger] r@[i] matches Ok(p) && p@ == f,
            Err(k) => r@[i] matches Err(ControlError::DuplicateField(key)) && key@ == k,
        },
{
    let v = chars_of(input);
    let parts = split_stanzas_exec(&v);
    let ghost sv = views(parts@);
    let mut out: Vec<Result<ControlParagraph, ControlError>> = Vec::new();
    let mut i: usize = 0;
    while i < parts.len()
        invariant
            0 <= i <= parts@.len(),
            sv == views(parts@),
            sv == stanzas(input@),
            out@.len() == i,
            forall|m: int| 0 <= m < i ==> match parse_para(sv[m], true, true) {
                Ok(f) => #[trigger] out@[m] matches Ok(p) && p@ == f,
                Err(k) => out@[m] matches Err(ControlError::DuplicateField(key)) && key@ == k,
            },
        decreases parts.len() - i,
    {
        let p = &parts[i];
        let para = strict_paragraph(p, 0, p.len());
        proof {
            assert(p@.subrange(0, p@.len() as int) =~= p@);
        }
        out.push(para);
        i = i + 1;
    }
    out
}


// ─── Binary packages ──────────────────────────────────────────────────────────

/// A parsed binary package stanza from a `Packages` index or `.deb` control file.
#[derive(Debug, Clone)]
pub struct BinaryPackage {
    /// Package name (`Package:` field).
    pub name: String,
    /// Version string (`Version:` field).
    pub version_str: String,
    /// Architecture (`Architecture:` field; `all` when absent).
    pub architecture: String,
    /// Short description (first line of `Description:`).
    pub description: String,
    /// Raw `Depends:` field value.
    pub depends: Option<String>,
    /// Raw `Pre-Depends:` field value.
    pub pre_depends: Option<String>,
    /// Raw `Conflicts:` field value.
    pub conflicts: Option<String>,
    /// Raw `Breaks:` field value.
    pub breaks: Option<String>,
    /// Raw `Provides:` field value.
    pub provides: Option<String>,
    /// Raw `Recommends:` field value.
    pub recommends: Option<String>,
    /// Raw `Suggests:` field value.
    pub suggests: Option<String>,
    /// Installed size in KiB (`Installed-Size:`), when it parses as a `u64`.
    pub installed_size: Option<u64>,
    /// Download filename relative to the pool root.
    pub filename: Option<String>,
    /// SHA-256 checksum of the `.deb`.
    pub sha256: Option<String>,
    /// File size in bytes, when it parses as a `u64`.
    pub size: Option<u64>,
}

/// Abstract value of a [`BinaryPackage`].
pub struct BinaryView {
    pub name: Seq<char>,
    pub version_str: Seq<char>,
    pub architecture: Seq<char>,
    pub description: Seq<char>,
    pub depends: Option<Seq<char>>,
    pub pre_depends: Option<Seq<char>>,
    pub conflicts: Option<Seq<char>>,
    pub breaks: Option<Seq<char>>,
    pub provides: Option<Seq<char>>,
    pub recommends: Option<Seq<char>>,
    pub suggests: Option<Seq<char>>,
    pub installed_size: Option<nat>,
    pub filename: Option<Seq<char>>,
    pub sha256: Option<Seq<char>>,
    pub size: Option<nat>,
}

pub open spec fn sopt(o: Option<String>) -> Option<Seq<char>> {
    match o {
        Some(s) => Some(s@),
        None => None,
    }
}

pub open spec fn nopt(o: Option<u64>) -> Option<nat> {
    match o {
        Some(n) => Some(n as nat),
        None => None,
    }
}

impl View for BinaryPackage {
    type V = BinaryView;

    open spec fn view(&self) -> BinaryView {
        BinaryView {
            name: self.name@,
            version_str: self.version_str@,
            architecture: self.architecture@,
            description: self.description@,
            depends: sopt(self.depends),
            pre_depends: sopt(self.pre_depends),
            conflicts: sopt(self.conflicts),
            breaks: sopt(self.breaks),
            provides: sopt(self.provides),
            recommends: sopt(self.recommends),
            suggests: sopt(self.suggests),
            installed_size: nopt(self.installed_size),
            filename: sopt(self.filename),
            sha256: sopt(self.sha256),
            size: nopt(self.size),
        }
    }
}

/// The first line of `x` (empty when there is none).
pub open spec fn first_line(x: Seq<char>) -> Seq<char> {
    if lines(x).len() > 0 {
        lines(x)[0]
    } else {
        Seq::empty()
    }
}

/// A field's value parsed as `u64`, when present and valid.
pub open spec fn num_field(o: Option<Seq<char>>) -> Option<nat> {
    match o {
        Some(x) => parse_unsigned(x, 0xffff_ffff_ffff_ffff),
        None => None,
    }
}

pub open spec fn or_else(o: Option<Seq<char>>, d: Seq<char>) -> Seq<char> {
    match o {
        Some(x) => x,
        None => d,
    }
}

/// The typed package built from a paragraph, or the name of the first
/// missing required field (`Package`, then `Version`).
pub open spec fn build_binary_spec(f: Pairs) -> Result<BinaryView, Seq<char>> {
    if pget(f, "Package"@) is None {
        Err("Package"@)
    } else if pget(f, "Version"@) is None {
        Err("Version"@)
    } else {
        Ok(
            BinaryView {
                name: pget(f, "Package"@)->0,
                version_str: pget(f, "Version"@)->0,
                architecture: or_else(pget(f, "Architecture"@), "all"@),
                description: first_line(or_else(pget(f, "Description"@), Seq::empty())),
                depends: pget(f, "Depends"@),
                pre_depends: pget(f, "Pre-Depends"@),
                conflicts: pget(f, "Conflicts"@),
                breaks: pget(f, "Breaks"@),
                provides: pget(f, "Provides"@),
                recommends: pget(f, "Recommends"@),
                suggests: pget(f, "Suggests"@),
                installed_size: num_field(pget(f, "Installed-Size"@)),
                filename: pget(f, "Filename"@),
                sha256: pget(f, "SHA256"@),
                size: num_field(pget(f, "Size"@)),
            },
        )
    }
}

/// `get` as an owned string.
fn get_owned(p: &ControlParagraph, key: &str) -> (r: Option<String>)
    ensures
        sopt(r) == pget(p@, key@),
{
    match p.get(key) {
        Some(x) => Some(own(x)),
        None => None,
    }
}

/// `get` parsed as `u64`.
fn get_num(p: &ControlParagraph, key: &str) -> (r: Option<u64>)
    ensures
        nopt(r) == num_field(pget(p@, key@)),
{
    match p.get(key) {
        Some(x) => {
            let v = chars_of(x);
            let r = parse_unsigned_exec(&v, 0, v.len(), 0xffff_ffff_ffff_ffff);
            proof {
                assert(v@.subrange(0, v@.len() as int) =~= v@);
            }
            r
        },
        None => None,
    }
}

/// The first line of `s`.
pub(crate) fn first_line_of(s: &str) -> (r: String)
    ensures
        r@ == first_line(s@),
{
    let v = chars_of(s);
    let ls = lines_exec(&v, 0, v.len());
    proof {
        assert(v@.subrange(0, v@.len() as int) =~= v@);
    }
    if ls.len() > 0 {
        string_of(&ls[0])
    } else {
        String::new()
    }
}

/// Builds a typed [`BinaryPackage`] from a paragraph.
pub fn build_binary(p: &ControlParagraph) -> (r: Result<BinaryPackage, ControlError>)
    ensures
        match build_binary_spec(p@) {
            Ok(b) => r matches Ok(x) && x@ == b,
            Err(k) => r matches Err(ControlError::MissingField(x)) && x@ == k,
        },
{
    let name = match get_owned(p, "Package") {
        Some(n) => n,
        None => {
            return Err(ControlError::MissingField(own("Package")));
        },
    };
    let version_str = match get_owned(p, "Version") {
        Some(n) => n,
        None => {
            return Err(ControlError::MissingField(own("Version")));
        },
    };
    let architecture = match p.get("Architecture") {
        Some(a) => own(a),
        None => own("all"),
    };
    let description = match p.get("Description") {
        Some(d) => first_line_of(d),
        None => {
            proof {
                let e = Seq::<char>::empty();
                assert(crate::text::split_char(e, '\n') =~= seq![e]);
                assert(lines(e).len() == 0);
            }
            String::new()
        },
    };
    Ok(
        BinaryPackage {
            name,
            version_str,
            architecture,
            description,
            depends: get_owned(p, "Depends"),
            pre_depends: get_owned(p, "Pre-Depends"),
            conflicts: get_owned(p, "Conflicts"),
            breaks: get_owned(p, "Breaks"),
            provides: get_owned(p, "Provides"),
            recommends: get_owned(p, "Recommends"),
            suggests: get_owned(p, "Suggests"),
            installed_size: get_num(p, "Installed-Size"),
            filename: get_owned(p, "Filename"),
            sha256: get_owned(p, "SHA256"),
            size: get_num(p, "Size"),
        },
    )
}

/// Pieces that are not blank after trimming (kept untrimmed), in order.
pub open spec fn nonblank_pieces(parts: Seq<Seq<char>>) -> Seq<Seq<char>>
    decreases parts.len(),
{
    if parts.len() == 0 {
        Seq::empty()
    } else {
        let rest = nonblank_pieces(parts.drop_last());
        if trim(parts.last()).len() > 0 {
            rest.push(parts.last())
        } else {
            rest
        }
    }
}

pub open spec fn binary_result(s: Seq<char>) -> Result<BinaryView, Seq<char>> {
    build_binary_spec(lenient_fields(s, true))
}

/// Building a binary package from a paragraph's fields `f`: it fails,
/// naming the field, exactly when `Package` or `Version` is missing;
/// otherwise the package carries the paragraph's name and version, and each
/// of its relation fields (`Depends`, `Pre-Depends`, `Conflicts`, `Breaks`,
/// `Provides`, `Recommends`, `Suggests`) and its `Filename` and `SHA256` is
/// the paragraph's value of that field (absent when the paragraph has none);
/// the architecture is the paragraph's, `all` without one; the description
/// is the first line of the paragraph's, empty without one.
pub proof fn lemma_binary_fields(f: Pairs)
    ensures
        pget(f, "Package"@) is None ==> build_binary_spec(f) == Err::<BinaryView, Seq<char>>("Package"@),
        pget(f, "Package"@) is Some && pget(f, "Version"@) is None ==> build_binary_spec(f) == Err::<
            BinaryView,
            Seq<char>,
        >("Version"@),
        pget(f, "Package"@) matches Some(name) ==> (pget(f, "Version"@) matches Some(ver) ==> (build_binary_spec(f) matches Ok(b) && {
            &&& b.name == name
            &&& b.version_str == ver
            &&& b.depends == pget(f, "Depends"@)
            &&& b.pre_depends == pget(f, "Pre-Depends"@)
            &&& b.conflicts == pget(f, "Conflicts"@)
            &&& b.breaks == pget(f, "Breaks"@)
            &&& b.provides == pget(f, "Provides"@)
            &&& b.recommends == pget(f, "Recommends"@)
            &&& b.suggests == pget(f, "Suggests"@)
            &&& b.filename == pget(f, "Filename"@)
            &&& b.sha256 == pget(f, "SHA256"@)
            &&& (pget(f, "Architecture"@) matches Some(x) ==> b.architecture == x)
            &&& (pget(f, "Architecture"@) is None ==> b.architecture == "all"@)
            &&& (pget(f, "Description"@) matches Some(d) ==> b.description == first_line(d))
            &&& (pget(f, "Description"@) is None ==> b.description.len() == 0)
            &&& (pget(f, "Size"@) is None ==> b.size is None)
            &&& (pget(f, "Installed-Size"@) is None ==> b.installed_size is None)
        })),
{
}

/// Parsing a stanza as a binary package: with `Package` and `Version`
/// present, the package's `pre_depends` (and every other relation field) is
/// the stanza's value of that field.
pub proof fn lemma_stanza_binary_fields(s: Seq<char>)
    ensures
        ({
            let f = lenient_fields(s, true);
            pget(f, "Package"@) is Some && pget(f, "Version"@) is Some ==> (binary_result(s) matches Ok(b) && {
                &&& b.depends == pget(f, "Depends"@)
                &&& b.pre_depends == pget(f, "Pre-Depends"@)
                &&& b.conflicts == pget(f, "Conflicts"@)
                &&& b.breaks == pget(f, "Breaks"@)
                &&& b.provides == pget(f, "Provides"@)
                &&& b.recommends == pget(f, "Recommends"@)
                &&& b.suggests == pget(f, "Suggests"@)
            })
        }),
{
    lemma_binary_fields(lenient_fields(s, true));
}

pub open spec fn strict_binary_result(s: Seq<char>) -> Result<BinaryView, ControlErrorKind> {
    match parse_para(s, true, true) {
        Err(k) => Err(ControlErrorKind::Duplicate(k)),
        Ok(f) => match build_binary_spec(f) {
            Ok(b) => Ok(b),
            Err(k) => Err(ControlErrorKind::Missing(k)),
        },
    }
}

/// The shape of a control error, for contracts.
pub enum ControlErrorKind {
    Missing(Seq<char>),
    Duplicate(Seq<char>),
    Multiple(nat),
}

pub open spec fn control_error_kind(e: ControlError) -> Option<ControlErrorKind> {
    match e {
        ControlError::MissingField(k) => Some(ControlErrorKind::Missing(k@)),
        ControlError::DuplicateField(k) => Some(ControlErrorKind::Duplicate(k@)),
        ControlError::UnexpectedMultipleStanzas(n) => Some(ControlErrorKind::Multiple(n as nat)),
        ControlError::InvalidField { .. } => None,
    }
}

pub open spec fn result_matches(r: Result<BinaryPackage, ControlError>, s: Result<BinaryView, Seq<char>>) -> bool {
    match s {
        Ok(b) => r matches Ok(x) && x@ == b,
        Err(k) => r matches Err(ControlError::MissingField(x)) && x@ == k,
    }
}

pub open spec fn strict_result_matches(
    r: Result<BinaryPackage, ControlError>,
    s: Result<BinaryView, ControlErrorKind>,
) -> bool {
    match s {
        Ok(b) => r matches Ok(x) && x@ == b,
        Err(k) => r matches Err(e) && control_error_kind(e) == Some(k),
    }
}

impl BinaryPackage {
    /// Parse a single control stanza from text (leniently).
    pub fn parse_stanza(stanza: &str) -> (r: Result<Self, ControlError>)
        ensures
            result_matches(r, binary_result(stanza@)),
    {
        let v = chars_of(stanza);
        let p = lenient_paragraph(&v, 0, v.len());
        proof {
            assert(v@.subrange(0, v@.len() as int) =~= v@);
        }
        build_binary(&p)
    }

    fn parse_stanza_chars(v: &Vec<char>) -> (r: Result<Self, ControlError>)
        ensures
            result_matches(r, binary_result(v@)),
    {
        let p = lenient_paragraph(v, 0, v.len());
        proof {
            assert(v@.subrange(0, v@.len() as int) =~= v@);
        }
        build_binary(&p)
    }

    fn parse_stanza_strict_chars(v: &Vec<char>) -> (r: Result<Self, ControlError>)
        ensures
            strict_result_matches(r, strict_binary_result(v@)),
    {
        proof {
            assert(v@.subrange(0, v@.len() as int) =~= v@);
        }
        match parse_para_exec(v, 0, v.len(), true, true) {
            Ok(f) => {
                let p = ControlParagraph::from_pairs(&f);
                build_binary(&p)
            },
            Err(k) => Err(ControlError::DuplicateField(string_of(&k))),
        }
    }

    /// Parse a single control stanza, rejecting duplicate fields.
    pub fn parse_stanza_strict(stanza: &str) -> (r: Result<Self, ControlError>)
        ensures
            strict_result_matches(r, strict_binary_result(stanza@)),
    {
        let v = chars_of(stanza);
        Self::parse_stanza_strict_chars(&v)
    }

    /// Parse every stanza of a `Packages` index: the text is split at blank
    /// lines and each piece that is not blank is parsed (untrimmed).
    pub fn parse_packages_index(data: &str) -> (r: Vec<Result<Self, ControlError>>)
        ensures
            r@.len() == nonblank_pieces(split_str(data@, blank_sep())).len(),
            forall|i: int| 0 <= i < r@.len() ==> #[trigger] result_matches(
                r@[i],
                binary_result(nonblank_pieces(split_str(data@, blank_sep()))[i]),
            ),
    {
        let v = chars_of(data);
        let sep: Vec<char> = vec!['\n', '\n'];
        proof {
            assert(sep@ =~= blank_sep());
            assert(v@.subrange(0, v@.len() as int) =~= v@);
        }
        let parts = split_str_exec(&v, 0, v.len(), &sep);
        let ghost pv = views(parts@);
        let ghost target = nonblank_pieces(pv);
        let mut out: Vec<Result<Self, ControlError>> = Vec::new();
        let ghost mut taken: Seq<Seq<char>> = Seq::empty();
        let mut i: usize = 0;
        while i < parts.len()
            invariant
                0 <= i <= parts@.len(),
                pv == views(parts@),
                taken == nonblank_pieces(pv.take(i as int)),
                out@.len() == taken.len(),
                forall|m: int| 0 <= m < out@.len() ==> #[trigger] result_matches(out@[m], binary_result(taken[m])),
            decreases parts.len() - i,
        {
            let p = &parts[i];
            let (a, b) = trim_bounds(p, 0, p.len());
            proof {
                assert(p@.subrange(0, p@.len() as int) =~= p@);
                assert(pv.take(i + 1).drop_last() =~= pv.take(i as int));
                assert(pv.take(i + 1).last() == p@);
            }
            if a < b {
                let r = Self::parse_stanza_chars(p);
                out.push(r);
                proof {
                    taken = taken.push(p@);
                }
            }
            i = i + 1;
        }
        proof {
            assert(pv.take(pv.len() as int) =~= pv);
        }
        out
    }
}


/// The successfully built packages of a list of stanzas, in order.
pub open spec fn ok_binaries(st: Seq<Seq<char>>) -> Seq<BinaryView>
    decreases st.len(),
{
    if st.len() == 0 {
        Seq::empty()
    } else {
        let rest = ok_binaries(st.drop_last());
        match binary_result(st.last()) {
            Ok(b) => rest.push(b),
            Err(_) => rest,
        }
    }
}

pub open spec fn binary_views(v: Seq<BinaryPackage>) -> Seq<BinaryView> {
    Seq::new(v.len(), |i: int| v[i]@)
}

/// Lenient parse of every stanza of `v`, as packages.
fn binary_results_of(v: &Vec<char>, strict: bool) -> (r: Vec<Result<BinaryPackage, ControlError>>)
    ensures
        r@.len() == stanzas(v@).len(),
        forall|i: int| 0 <= i < r@.len() ==> if strict {
            strict_result_matches(#[trigger] r@[i], strict_binary_result(stanzas(v@)[i]))
        } else {
            result_matches(r@[i], binary_result(stanzas(v@)[i]))
        },
{
    let parts = split_stanzas_exec(v);
    let ghost sv = views(parts@);
    let mut out: Vec<Result<BinaryPackage, ControlError>> = Vec::new();
    let mut i: usize = 0;
    while i < parts.len()
        invariant
            0 <= i <= parts@.len(),
            sv == views(parts@),
            sv == stanzas(v@),
            out@.len() == i,
            forall|m: int| 0 <= m < i ==> if strict {
                strict_result_matches(#[trigger] out@[m], strict_binary_result(sv[m]))
            } else {
                result_matches(out@[m], binary_result(sv[m]))
            },
        decreases parts.len() - i,
    {
        let r = if strict {
            BinaryPackage::parse_stanza_strict_chars(&parts[i])
        } else {
            BinaryPackage::parse_stanza_chars(&parts[i])
        };
        out.push(r);
        i = i + 1;
    }
    out
}

/// The successfully built packages among the stanzas of `v`.
fn ok_binaries_of(v: &Vec<char>) -> (r: Vec<BinaryPackage>)
    ensures
        binary_views(r@) == ok_binaries(stanzas(v@)),
{
    let parts = split_stanzas_exec(v);
    let ghost sv = views(parts@);
    let mut out: Vec<BinaryPackage> = Vec::new();
    let mut i: usize = 0;
    while i < parts.len()
        invariant
            0 <= i <= parts@.len(),
            sv == views(parts@),
            sv == stanzas(v@),
            binary_views(out@) == ok_binaries(sv.take(i as int)),
        decreases parts.len() - i,
    {
        proof {
            assert(sv.take(i + 1).drop_last() =~= sv.take(i as int));
            assert(sv.take(i + 1).last() == parts@[i as int]@);
        }
        match BinaryPackage::parse_stanza_chars(&parts[i]) {
            Ok(b) => {
                let ghost before = binary_views(out@);
                let ghost bv = b@;
                out.push(b);
                proof {
                    assert(binary_views(out@) =~= before.push(bv));
                }
            },
            Err(_) => {},
        }
        i = i + 1;
    }
    proof {
        assert(sv.take(sv.len() as int) =~= sv);
    }
    out
}

/// A lazily-parsed view over a `Packages` index: blank-line separated
/// stanzas, parsed on request.
#[derive(Debug, Clone, Copy)]
pub struct PackagesIndex<'a> {
    text: &'a str,
}

impl<'a> PackagesIndex<'a> {
    /// Wrap a `Packages` index document.
    pub fn new(text: &'a str) -> (r: Self)
        ensures
            r.text() == text@,
    {
        PackagesIndex { text }
    }

    pub closed spec fn text(&self) -> Seq<char> {
        self.text@
    }

    /// Every stanza as a package or the parse error for that stanza.
    pub fn iter_results(&self) -> (r: Vec<Result<BinaryPackage, ControlError>>)
        ensures
            r@.len() == stanzas(self.text()).len(),
            forall|i: int| 0 <= i < r@.len() ==> #[trigger] result_matches(
                r@[i],
                binary_result(stanzas(self.text())[i]),
            ),
    {
        let v = chars_of(self.text);
        binary_results_of(&v, false)
    }

    /// Only the successfully parsed packages.
    pub fn iter(&self) -> (r: Vec<BinaryPackage>)
        ensures
            binary_views(r@) == ok_binaries(stanzas(self.text())),
    {
        let v = chars_of(self.text);
        ok_binaries_of(&v)
    }

    /// Every stanza as a [`BorrowedParagraph`] (duplicates tolerated).
    pub fn iter_paragraphs(&self) -> (r: Vec<BorrowedParagraph>)
        ensures
            r@.len() == stanzas(self.text()).len(),
            forall|i: int| 0 <= i < r@.len() ==> #[trigger] r@[i]@ == lenient_fields(
                stanzas(self.text())[i],
                false,
            ),
    {
        parse_control_borrowed(self.text)
    }

    /// Every stanza parsed strictly (duplicate fields rejected).
    pub fn iter_results_strict(&self) -> (r: Vec<Result<BinaryPackage, ControlError>>)
        ensures
            r@.len() == stanzas(self.text()).len(),
            forall|i: int| 0 <= i < r@.len() ==> #[trigger] strict_result_matches(
                r@[i],
                strict_binary_result(stanzas(self.text())[i]),
            ),
    {
        let v = chars_of(self.text);
        binary_results_of(&v, true)
    }

    /// Number of stanzas that parse successfully as packages.
    pub fn len(&self) -> (r: usize)
        ensures
            r == ok_binaries(stanzas(self.text())).len(),
    {
        let v = self.iter();
        v.len()
    }

    /// `true` when no stanza parses as a package.
    pub fn is_empty(&self) -> (r: bool)
        ensures
            r == (ok_binaries(stanzas(self.text())).len() == 0),
    {
        self.len() == 0
    }
}

// ─── Source packages ──────────────────────────────────────────────────────────

/// A parsed source package stanza from a `Sources` index.
#[derive(Debug, Clone)]
pub struct SourcePackage {
    /// Source package name (`Package:`, or else `Source:`).
    pub name: String,
    /// Version string (`Version:` field).
    pub version_str: String,
    /// Maintainer (`Maintainer:` field; empty when absent).
    pub maintainer: String,
    /// Architectures (`Architecture:` split at whitespace).
    pub architecture: Vec<String>,
    /// Raw `Build-Depends:` field value.
    pub build_depends: Option<String>,
    /// Raw `Build-Depends-Indep:` field value.
    pub build_depends_indep: Option<String>,
    /// `Directory:` in the pool.
    pub directory: Option<String>,
    /// `Files:` value.
    pub files: Option<String>,
}

/// Abstract value of a [`SourcePackage`].
pub struct SourceView {
    pub name: Seq<char>,
    pub version_str: Seq<char>,
    pub maintainer: Seq<char>,
    pub architecture: Seq<Seq<char>>,
    pub build_depends: Option<Seq<char>>,
    pub build_depends_indep: Option<Seq<char>>,
    pub directory: Option<Seq<char>>,
    pub files: Option<Seq<char>>,
}

impl View for SourcePackage {
    type V = SourceView;

    open spec fn view(&self) -> SourceView {
        SourceView {
            name: self.name@,
            version_str: self.version_str@,
            maintainer: self.maintainer@,
            architecture: sviews(self.architecture@),
            build_depends: sopt(self.build_depends),
            build_depends_indep: sopt(self.build_depends_indep),
            directory: sopt(self.directory),
            files: sopt(self.files),
        }
    }
}

/// The fields of the first stanza of `s` (none when it has no stanza).
pub open spec fn first_stanza_fields(s: Seq<char>) -> Pairs {
    if stanzas(s).len() > 0 {
        lenient_fields(stanzas(s)[0], true)
    } else {
        Seq::empty()
    }
}

/// The source package built from the first stanza of `s`, or the name of
/// the missing field (`Source` when neither `Package` nor `Source` is set).
pub open spec fn source_result(s: Seq<char>) -> Result<SourceView, Seq<char>> {
    let f = first_stanza_fields(s);
    if pget(f, "Package"@) is None && pget(f, "Source"@) is None {
        Err("Source"@)
    } else if pget(f, "Version"@) is None {
        Err("Version"@)
    } else {
        Ok(
            SourceView {
                name: if pget(f, "Package"@) is Some {
                    pget(f, "Package"@)->0
                } else {
                    pget(f, "Source"@)->0
                },
                version_str: pget(f, "Version"@)->0,
                maintainer: or_else(pget(f, "Maintainer"@), Seq::empty()),
                architecture: match pget(f, "Architecture"@) {
                    Some(a) => words(a, false),
                    None => Seq::empty(),
                },
                build_depends: pget(f, "Build-Depends"@),
                build_depends_indep: pget(f, "Build-Depends-Indep"@),
                directory: pget(f, "Directory"@),
                files: pget(f, "Files"@),
            },
        )
    }
}

pub open spec fn source_matches(r: Result<SourcePackage, ControlError>, s: Result<SourceView, Seq<char>>) -> bool {
    match s {
        Ok(b) => r matches Ok(x) && x@ == b,
        Err(k) => r matches Err(ControlError::MissingField(x)) && x@ == k,
    }
}

impl SourcePackage {
    /// Parse a source-package stanza (its first blank-line separated stanza).
    pub fn parse_stanza(stanza: &str) -> (r: Result<Self, ControlError>)
        ensures
            source_matches(r, source_result(stanza@)),
    {
        let v = chars_of(stanza);
        Self::parse_chars(&v)
    }

    fn parse_chars(v: &Vec<char>) -> (r: Result<Self, ControlError>)
        ensures
            source_matches(r, source_result(v@)),
    {
        let parts = split_stanzas_exec(v);
        let p = if parts.len() > 0 {
            lenient_paragraph(&parts[0], 0, parts[0].len())
        } else {
            ControlParagraph::new()
        };
        proof {
            if parts@.len() > 0 {
                assert(parts@[0]@.subrange(0, parts@[0]@.len() as int) =~= parts@[0]@);
                assert(views(parts@)[0] == parts@[0]@);
            }
        }
        let name = match get_owned(&p, "Package") {
            Some(n) => n,
            None => match get_owned(&p, "Source") {
                Some(n) => n,
                None => {
                    return Err(ControlError::MissingField(own("Source")));
                },
            },
        };
        let version_str = match get_owned(&p, "Version") {
            Some(n) => n,
            None => {
                return Err(ControlError::MissingField(own("Version")));
            },
        };
        let maintainer = match p.get("Maintainer") {
            Some(m) => own(m),
            None => String::new(),
        };
        let architecture = match p.get("Architecture") {
            Some(a) => {
                let ac = chars_of(a);
                let ws = words_exec(&ac, 0, ac.len(), false);
                proof {
                    assert(ac@.subrange(0, ac@.len() as int) =~= ac@);
                }
                strings_of(&ws)
            },
            None => {
                let r: Vec<String> = Vec::new();
                proof {
                    assert(sviews(r@) =~= Seq::<Seq<char>>::empty());
                }
                r
            },
        };
        proof {
            assert(maintainer@ == or_else(pget(p@, "Maintainer"@), Seq::empty()));
        }
        Ok(
            SourcePackage {
                name,
                version_str,
                maintainer,
                architecture,
                build_depends: get_owned(&p, "Build-Depends"),
                build_depends_indep: get_owned(&p, "Build-Depends-Indep"),
                directory: get_owned(&p, "Directory"),
                files: get_owned(&p, "Files"),
            },
        )
    }
}

pub open spec fn ok_sources(st: Seq<Seq<char>>) -> Seq<SourceView>
    decreases st.len(),
{
    if st.len() == 0 {
        Seq::empty()
    } else {
        let rest = ok_sources(st.drop_last());
        match source_result(st.last()) {
            Ok(b) => rest.push(b),
            Err(_) => rest,
        }
    }
}

pub open spec fn source_views(v: Seq<SourcePackage>) -> Seq<SourceView> {
    Seq::new(v.len(), |i: int| v[i]@)
}

/// A lazily-parsed view over a `Sources` index.
#[derive(Debug, Clone, Copy)]
pub struct SourcesIndex<'a> {
    text: &'a str,
}

impl<'a> SourcesIndex<'a> {
    /// Wrap a `Sources` index document.
    pub fn new(text: &'a str) -> (r: Self)
        ensures
            r.text() == text@,
    {
        SourcesIndex { text }
    }

    pub closed spec fn text(&self) -> Seq<char> {
        self.text@
    }

    /// Every stanza as a source package or the error for that stanza.
    pub fn iter_results(&self) -> (r: Vec<Result<SourcePackage, ControlError>>)
        ensures
            r@.len() == stanzas(self.text()).len(),
            forall|i: int| 0 <= i < r@.len() ==> #[trigger] source_matches(
                r@[i],
                source_result(stanzas(self.text())[i]),
            ),
    {
        let v = chars_of(self.text);
        let parts = split_stanzas_exec(&v);
        let ghost sv = views(parts@);
        let mut out: Vec<Result<SourcePackage, ControlError>> = Vec::new();
        let mut i: usize = 0;
        while i < parts.len()
            invariant
                0 <= i <= parts@.len(),
                sv == views(parts@),
                sv == stanzas(self.text()),
                out@.len() == i,
                forall|m: int| 0 <= m < i ==> #[trigger] source_matches(out@[m], source_result(sv[m])),
            decreases parts.len() - i,
        {
            out.push(SourcePackage::parse_chars(&parts[i]));
            i = i + 1;
        }
        out
    }

    /// Only the successfully parsed source packages.
    pub fn iter(&self) -> (r: Vec<SourcePackage>)
        ensures
            source_views(r@) == ok_sources(stanzas(self.text())),
    {
        let v = chars_of(self.text);
        let parts = split_stanzas_exec(&v);
        let ghost sv = views(parts@);
        let mut out: Vec<SourcePackage> = Vec::new();
        let mut i: usize = 0;
        while i < parts.len()
            invariant
                0 <= i <= parts@.len(),
                sv == views(parts@),
                sv == stanzas(self.text()),
                source_views(out@) == ok_sources(sv.take(i as int)),
            decreases parts.len() - i,
        {
            proof {
                assert(sv.take(i + 1).drop_last() =~= sv.take(i as int));
                assert(sv.take(i + 1).last() == parts@[i as int]@);
            }
            match SourcePackage::parse_chars(&parts[i]) {
                Ok(b) => {
                    let ghost before = source_views(out@);
                    let ghost bv = b@;
                    out.push(b);
                    proof {
                        assert(source_views(out@) =~= before.push(bv));
                    }
                },
                Err(_) => {},
            }
            i = i + 1;
        }
        proof {
            assert(sv.take(sv.len() as int) =~= sv);
        }
        out
    }

    /// Every stanza as a [`BorrowedParagraph`].
    pub fn iter_paragraphs(&self) -> (r: Vec<BorrowedParagraph>)
        ensures
            r@.len() == stanzas(self.text()).len(),
            forall|i: int| 0 <= i < r@.len() ==> #[trigger] r@[i]@ == lenient_fields(
                stanzas(self.text())[i],
                false,
            ),
    {
        parse_control_borrowed(self.text)
    }

    /// Number of stanzas that parse successfully as source packages.
    pub fn len(&self) -> (r: usize)
        ensures
            r == ok_sources(stanzas(self.text())).len(),
    {
        let v = self.iter();
        v.len()
    }

    /// `true` when no stanza parses as a source package.
    pub fn is_empty(&self) -> (r: bool)
        ensures
            r == (ok_sources(stanzas(self.text())).len() == 0),
    {
        self.len() == 0
    }
}

// ─── Single-stanza control file ───────────────────────────────────────────────

/// A single-stanza control file such as a binary package's `DEBIAN/control`.
#[derive(Debug, Clone)]
pub struct ControlFile {
    paragraph: ControlParagraph,
}

/// What `ControlFile::parse` yields: the fields of the only stanza, or the
/// error (several stanzas, a repeated field, or no stanza at all).
pub open spec fn control_file_result(s: Seq<char>) -> Result<Pairs, ControlErrorKind> {
    let st = stanzas(s);
    if st.len() > 1 {
        Err(ControlErrorKind::Multiple(st.len()))
    } else if st.len() == 0 {
        Err(ControlErrorKind::Missing("(empty document)"@))
    } else {
        match parse_para(st[0], true, true) {
            Ok(f) => Ok(f),
            Err(k) => Err(ControlErrorKind::Duplicate(k)),
        }
    }
}

impl View for ControlFile {
    type V = Pairs;

    closed spec fn view(&self) -> Pairs {
        self.paragraph@
    }
}

impl ControlFile {
    /// Parse exactly one stanza from `text`, strictly.
    pub fn parse(text: &str) -> (r: Result<Self, ControlError>)
        ensures
            match control_file_result(text@) {
                Ok(f) => r matches Ok(c) && c@ == f,
                Err(k) => r matches Err(e) && control_error_kind(e) == Some(k),
            },
    {
        let mut paras = parse_control_strict(text);
        let count = paras.len();
        if count > 1 {
            return Err(ControlError::UnexpectedMultipleStanzas(count));
        }
        if count == 0 {
            return Err(ControlError::MissingField(own("(empty document)")));
        }
        match paras.pop() {
            Some(Ok(p)) => Ok(ControlFile { paragraph: p }),
            Some(Err(e)) => Err(e),
            None => Err(ControlError::MissingField(own("(empty document)"))),
        }
    }


    /// Look up a field value by name (case-insensitive).
    pub fn field(&self, name: &str) -> (r: Option<&str>)
        ensures
            match pget(self@, name@) {
                Some(x) => r matches Some(y) && y@ == x,
                None => r is None,
            },
    {
        self.paragraph.get(name)
    }

    /// The `(key, value)` pairs in insertion order.
    pub fn fields(&self) -> (r: Vec<(String, String)>)
        ensures
            str_pairs(r@) == self@,
    {
        self.paragraph.fields()
    }

    /// The underlying paragraph.
    pub fn into_paragraph(self) -> (r: ControlParagraph)
        ensures
            r@ == self@,
    {
        self.paragraph
    }
}

// ─── Borrowing-style stanza view ──────────────────────────────────────────────

/// A stanza whose keys are kept exactly as written (not trimmed) and whose
/// lookups fold case with ASCII rules.
#[derive(Debug, Clone)]
pub struct BorrowedParagraph {
    entries: Vec<(String, String)>,
}

impl View for BorrowedParagraph {
    type V = Pairs;

    closed spec fn view(&self) -> Pairs {
        str_pairs(self.entries@)
    }
}

impl BorrowedParagraph {
    /// An empty paragraph.
    pub fn new() -> (r: Self)
        ensures
            r@ == Seq::<(Seq<char>, Seq<char>)>::empty(),
    {
        let r = BorrowedParagraph { entries: Vec::new() };
        proof {
            assert(r@ =~= Seq::<(Seq<char>, Seq<char>)>::empty());
        }
        r
    }

    fn from_pairs(v: &Vec<(Vec<char>, Vec<char>)>) -> (r: Self)
        ensures
            r@ == cv_pairs(v@),
    {
        BorrowedParagraph { entries: to_str_pairs(v) }
    }

    /// Insert or replace `key` with `value`.
    pub fn set(&mut self, key: &str, value: &str)
        ensures
            final(self)@ == map_set(old(self)@, key@, value@),
    {
        set_pair(&mut self.entries, key, value);
    }

    /// Look up a field: the exact key, or else the first key equal to the
    /// lowercased `field` ignoring ASCII case.
    pub fn get(&self, field: &str) -> (r: Option<&str>)
        ensures
            match bget(self@, field@) {
                Some(x) => r matches Some(y) && y@ == x,
                None => r is None,
            },
            ascii_text(field@) ==> match aget(self@, field@) {
                Some(x) => r matches Some(y) && y@ == x,
                None => r is None,
            },
    {
        lookup_ascii(&self.entries, field)
    }

    /// The `(key, value)` pairs in insertion order.
    pub fn fields(&self) -> (r: Vec<(String, String)>)
        ensures
            str_pairs(r@) == self@,
    {
        copy_pairs(&self.entries)
    }

    /// Returns `true` if the paragraph contains no fields.
    pub fn is_empty(&self) -> (r: bool)
        ensures
            r == (self@.len() == 0),
    {
        self.entries.len() == 0
    }
}

/// Parse a single stanza keeping keys as written; with `strict`, a repeated
/// key is a `DuplicateField` error.
pub fn parse_borrowed_paragraph(stanza: &str, strict: bool) -> (r: Result<BorrowedParagraph, ControlError>)
    ensures
        match parse_para(stanza@, strict, false) {
            Ok(f) => r matches Ok(p) && p@ == f,
            Err(k) => r matches Err(ControlError::DuplicateField(key)) && key@ == k,
        },
{
    let v = chars_of(stanza);
    proof {
        assert(v@.subrange(0, v@.len() as int) =~= v@);
    }
    match parse_para_exec(&v, 0, v.len(), strict, false) {
        Ok(f) => Ok(BorrowedParagraph::from_pairs(&f)),
        Err(k) => Err(ControlError::DuplicateField(string_of(&k))),
    }
}

/// Parse every stanza of `input` as a [`BorrowedParagraph`] (lenient).
pub fn parse_control_borrowed(input: &str) -> (r: Vec<BorrowedParagraph>)
    ensures
        r@.len() == stanzas(input@).len(),
        forall|i: int| 0 <= i < r@.len() ==> #[trigger] r@[i]@ == lenient_fields(stanzas(input@)[i], false),
{
    let v = chars_of(input);
    let parts = split_stanzas_exec(&v);
    let ghost sv = views(parts@);
    let mut out: Vec<BorrowedParagraph> = Vec::new();
    let mut i: usize = 0;
    while i < parts.len()
        invariant
            0 <= i <= parts@.len(),
            sv == views(parts@),
            sv == stanzas(input@),
            out@.len() == i,
            forall|m: int| 0 <= m < i ==> #[trigger] out@[m]@ == lenient_fields(sv[m], false),
        decreases parts.len() - i,
    {
        let p = &parts[i];
        proof {
            assert(p@.subrange(0, p@.len() as int) =~= p@);
            lemma_lenient_no_dup(lines(p@), false);
        }
        let para = match parse_para_exec(p, 0, p.len(), false, false) {
            Ok(f) => BorrowedParagraph::from_pairs(&f),
            Err(_) => BorrowedParagraph::new(),
        };
        out.push(para);
        i = i + 1;
    }
    out
}

/// Like [`parse_control_borrowed`] but rejects repeated fields per stanza.
pub fn parse_control_strict_borrowed(input: &str) -> (r: Vec<Result<BorrowedParagraph, ControlError>>)
    ensures
        r@.len() == stanzas(input@).len(),
        forall|i: int| 0 <= i < r@.len() ==> match parse_para(stanzas(input@)[i], true, false) {
            Ok(f) => #[trigger] r@[i] matches Ok(p) && p@ == f,
            Err(k) => r@[i] matches Err(ControlError::DuplicateField(key)) && key@ == k,
        },
{
    let v = chars_of(input);
    let parts = split_stanzas_exec(&v);
    let ghost sv = views(parts@);
    let mut out: Vec<Result<BorrowedParagraph, ControlError>> = Vec::new();
    let mut i: usize = 0;
    while i < parts.len()
        invariant
            0 <= i <= parts@.len(),
            sv == views(parts@),
            sv == stanzas(input@),
            out@.len() == i,
            forall|m: int| 0 <= m < i ==> match parse_para(sv[m], true, false) {
                Ok(f) => #[trigger] out@[m] matches Ok(p) && p@ == f,
                Err(k) => out@[m] matches Err(ControlError::DuplicateField(key)) && key@ == k,
            },
        decreases parts.len() - i,
    {
        let p = &parts[i];
        proof {
            assert(p@.subrange(0, p@.len() as int) =~= p@);
        }
        let para = match parse_para_exec(p, 0, p.len(), true, false) {
            Ok(f) => Ok(BorrowedParagraph::from_pairs(&f)),
            Err(k) => Err(ControlError::DuplicateField(string_of(&k))),
        };
        out.push(para);
        i = i + 1;
    }
    out
}

} // verus!
