//! `Release` / `InRelease` files: the per-file SHA-256 table, enough to find
//! a `Packages` index's hash and its `*.diff/Index`.
//!
//! The header block (up to the first blank line, which for a clearsigned
//! `InRelease` is the PGP armor) is skipped; within a `SHA256:` section each
//! `<hash> <size> <path>` line is read, and lines that do not look like one
//! (such as a trailing signature) are skipped.

use vstd::prelude::*;
use crate::text::{chars_of, chars_eq, str_eq, push_str, own, string_of, views, trim, trim_end,
    trim_vec, words, words_exec, lines, lines_exec, ascii_lower, ascii_lower_vec, ends_with,
    strip_trailing, strip_trailing_exec, index_of, find_char, slice_of};
use crate::numeric::{parse_unsigned, parse_unsigned_exec};
use crate::fields::{map_get, map_set, key_index, lemma_key_index, lemma_key_index_at};

verus! {

/// Errors of `Release` parsing.
#[derive(Debug)]
pub enum ReleaseError {
    /// A hash line could not be interpreted.
    Malformed(String),
    /// A requested file is not listed.
    FileNotFound(String),
}

/// One file of a `SHA256:` section.
#[derive(Debug, Clone, PartialEq, Eq)]
pub struct ReleaseFile {
    /// Path relative to `dists/<suite>/`.
    pub path: String,
    /// Uncompressed size in bytes.
    pub size: u64,
    /// Lowercase hex SHA-256.
    pub sha256: String,
}

pub struct FileV {
    pub path: Seq<char>,
    pub size: u64,
    pub sha256: Seq<char>,
}

impl View for ReleaseFile {
    type V = FileV;

    open spec fn view(&self) -> FileV {
        FileV { path: self.path@, size: self.size, sha256: self.sha256@ }
    }
}

pub type FileMap = Seq<(Seq<char>, FileV)>;

/// The listed files, keyed by path.
#[derive(Debug)]
pub struct ReleaseFiles {
    items: Vec<ReleaseFile>,
}

pub open spec fn file_entries(v: Seq<ReleaseFile>) -> FileMap {
    Seq::new(v.len(), |i: int| (v[i].path@, v[i]@))
}

impl View for ReleaseFiles {
    type V = FileMap;

    closed spec fn view(&self) -> FileMap {
        file_entries(self.items@)
    }
}

impl ReleaseFiles {
    fn index_of_path(&self, path: &str) -> (r: usize)
        ensures
            r == key_index(self@, path@),
    {
        let ghost f = self@;
        let mut i: usize = 0;
        while i < self.items.len()
            invariant
                i <= self.items@.len(),
                f == self@,
                forall|m: int| 0 <= m < i ==> f[m].0 != path@,
            decreases self.items.len() - i,
        {
            if str_eq(self.items[i].path.as_str(), path) {
                proof {
                    lemma_key_index_at(f, path@, i as int);
                }
                return i;
            }
            i = i + 1;
        }
        proof {
            lemma_key_index_at(f, path@, i as int);
        }
        i
    }

    /// The file listed under `path`.
    pub fn get(&self, path: &str) -> (r: Option<&ReleaseFile>)
        ensures
            match map_get(self@, path@) {
                Some(f) => r matches Some(x) && x@ == f,
                None => r is None,
            },
    {
        let i = self.index_of_path(path);
        proof {
            lemma_key_index(self@, path@);
        }
        if i < self.items.len() {
            Some(&self.items[i])
        } else {
            None
        }
    }

    /// Whether a file is listed under `path`.
    pub fn contains_key(&self, path: &str) -> (r: bool)
        ensures
            r == (map_get(self@, path@) is Some),
    {
        self.get(path).is_some()
    }

    /// Number of listed files.
    pub fn len(&self) -> (r: usize)
        ensures
            r == self@.len(),
    {
        self.items.len()
    }

    fn insert(&mut self, f: ReleaseFile)
        ensures
            final(self)@ == map_set(old(self)@, f.path@, f@),
    {
        let i = self.index_of_path(f.path.as_str());
        let ghost g = self@;
        let ghost kv = (f.path@, f@);
        proof {
            lemma_key_index(g, f.path@);
        }
        if i < self.items.len() {
            self.items.set(i, f);
            assert(self@ =~= g.update(i as int, kv));
        } else {
            self.items.push(f);
            assert(self@ =~= g.push(kv));
        }
    }
}

/// A parsed `Release` / `InRelease` document.
#[derive(Debug)]
pub struct ReleaseIndex {
    /// Files keyed by their `dists/<suite>`-relative path.
    pub files: ReleaseFiles,
}

/// Index of the first blank line, or the number of lines.
pub open spec fn first_blank(ls: Seq<Seq<char>>) -> nat
    decreases ls.len(),
{
    if ls.len() == 0 {
        0
    } else if trim(ls[0]).len() == 0 {
        0
    } else {
        1 + first_blank(ls.drop_first())
    }
}

/// The text opens with the armor line of a clearsigned message.
pub open spec fn armored(ls: Seq<Seq<char>>) -> bool {
    ls.len() > 0 && trim(ls[0]) == "-----BEGIN PGP SIGNED MESSAGE-----"@
}

/// The lines that hold the fields: for a clearsigned text, those after the
/// armor header block and the blank line ending it; for a plain `Release`
/// file, every line.
pub open spec fn body_lines(ls: Seq<Seq<char>>) -> Seq<Seq<char>> {
    let b = first_blank(ls);
    if !armored(ls) {
        ls
    } else if b < ls.len() {
        ls.skip(b as int + 1)
    } else {
        Seq::empty()
    }
}

/// Reading state: files so far, and whether the current section is
/// `SHA256:`.
pub open spec fn release_step(st: (FileMap, bool), raw: Seq<char>) -> (FileMap, bool) {
    let line = trim_end(raw);
    let ws = words(line, false);
    if trim(line).len() == 0 {
        (st.0, false)
    } else if ends_with(line, ":"@) && index_of(line, ' ') >= line.len() {
        (st.0, ascii_lower(strip_trailing(line, ':')) == "sha256"@)
    } else if !st.1 || ws.len() < 3 {
        st
    } else {
        match parse_unsigned(ws[1], 0xffff_ffff_ffff_ffff) {
            None => st,
            Some(n) => (
                map_set(st.0, ws[2], FileV { path: ws[2], size: n as u64, sha256: ascii_lower(ws[0]) }),
                true,
            ),
        }
    }
}

pub open spec fn release_fold(ls: Seq<Seq<char>>) -> (FileMap, bool)
    decreases ls.len(),
{
    if ls.len() == 0 {
        (Seq::empty(), false)
    } else {
        release_step(release_fold(ls.drop_last()), ls.last())
    }
}

/// The files listed in the `SHA256:` sections of a `Release` text.
pub open spec fn release_files(text: Seq<char>) -> FileMap {
    release_fold(body_lines(lines(text))).0
}

/// `component/binary-arch/Packages` and its diff index path.
pub open spec fn packages_key(component: Seq<char>, arch: Seq<char>) -> Seq<char> {
    component + "/binary-"@ + arch + "/Packages"@
}

pub open spec fn diff_index_key(component: Seq<char>, arch: Seq<char>) -> Seq<char> {
    component + "/binary-"@ + arch + "/Packages.diff/Index"@
}

fn release_step_exec(files: &mut ReleaseFiles, in_sha: bool, raw: &Vec<char>) -> (r: bool)
    ensures
        (final(files)@, r) == release_step((old(files)@, in_sha), raw@),
{
    proof {
        assert(raw@.subrange(0, raw@.len() as int) =~= raw@);
    }
    let e = crate::text::skip_ws_back(raw, 0, raw.len());
    let line = slice_of(raw, 0, e);
    let t = trim_vec(&line);
    if t.len() == 0 {
        return false;
    }
    let n = line.len();
    let sp = find_char(&line, 0, n, ' ');
    proof {
        assert(line@.subrange(0, n as int) =~= line@);
    }
    if n > 0 && line[n - 1] == ':' && sp >= n {
        proof {
            assert(line@.skip(n - 1) =~= ":"@) by {
                reveal_strlit(":");
            }
        }
        let head = strip_trailing_exec(&line, ':');
        let low = ascii_lower_vec(&head);
        let target = chars_of("sha256");
        return chars_eq(&low, &target);
    }
    proof {
        reveal_strlit(":");
        if ends_with(line@, ":"@) {
            assert(line@.skip(n - 1)[0] == line@[n - 1]);
        }
    }
    let ws = words_exec(&line, 0, n, false);
    if !in_sha || ws.len() < 3 {
        return in_sha;
    }
    match parse_unsigned_exec(&ws[1], 0, ws[1].len(), 0xffff_ffff_ffff_ffff) {
        None => {
            proof {
                assert(ws@[1]@.subrange(0, ws@[1]@.len() as int) =~= ws@[1]@);
            }
            in_sha
        },
        Some(size) => {
            proof {
                assert(ws@[1]@.subrange(0, ws@[1]@.len() as int) =~= ws@[1]@);
            }
            let f = ReleaseFile {
                path: string_of(&ws[2]),
                size,
                sha256: string_of(&ascii_lower_vec(&ws[0])),
            };
            files.insert(f);
            true
        },
    }
}

impl ReleaseIndex {
    /// Parses a `Release` text (or a clearsigned `InRelease`).
    pub fn parse(text: &str) -> (r: Result<ReleaseIndex, ReleaseError>)
        ensures
            r matches Ok(x) && x.files@ == release_files(text@),
    {
        let v = chars_of(text);
        let ls = lines_exec(&v, 0, v.len());
        proof {
            assert(v@.subrange(0, v@.len() as int) =~= v@);
        }
        let ghost lv = views(ls@);
        let mut b: usize = 0;
        proof {
            assert(lv.skip(0) =~= lv);
        }
        while b < ls.len() && trim_vec(&ls[b]).len() > 0
            invariant
                b <= ls@.len(),
                lv == views(ls@),
                first_blank(lv) == b + first_blank(lv.skip(b as int)),
            decreases ls.len() - b,
        {
            proof {
                assert(lv.skip(b as int)[0] == ls@[b as int]@);
                assert(lv.skip(b as int).drop_first() =~= lv.skip(b + 1));
            }
            b = b + 1;
        }
        proof {
            if b < ls@.len() {
                assert(lv.skip(b as int)[0] == ls@[b as int]@);
            } else {
                assert(lv.skip(b as int) =~= Seq::<Seq<char>>::empty());
            }
        }
        let is_armored = ls.len() > 0 && str_eq(string_of(&trim_vec(&ls[0])).as_str(),
            "-----BEGIN PGP SIGNED MESSAGE-----");
        proof {
            if ls@.len() > 0 {
                assert(lv[0] == ls@[0]@);
            }
        }
        let start = if !is_armored { 0 } else if b < ls.len() { b + 1 } else { ls.len() };
        let ghost body = body_lines(lv);
        proof {
            assert(is_armored == armored(lv));
            assert(body =~= lv.subrange(start as int, lv.len() as int));
        }
        let mut files = ReleaseFiles { items: Vec::new() };
        let mut in_sha = false;
        let mut i = start;
        proof {
            assert(files@ =~= Seq::<(Seq<char>, FileV)>::empty());
            assert(lv.subrange(start as int, start as int) =~= Seq::<Seq<char>>::empty());
        }
        while i < ls.len()
            invariant
                start <= i <= ls@.len(),
                lv == views(ls@),
                (files@, in_sha) == release_fold(lv.subrange(start as int, i as int)),
            decreases ls.len() - i,
        {
            proof {
                assert(lv.subrange(start as int, i + 1).drop_last() =~= lv.subrange(start as int, i as int));
                assert(lv.subrange(start as int, i + 1).last() == ls@[i as int]@);
            }
            in_sha = release_step_exec(&mut files, in_sha, &ls[i]);
            i = i + 1;
        }
        proof {
            assert(lv == lines(text@));
        }
        Ok(ReleaseIndex { files })
    }

    /// SHA-256 of the `Packages` index of `component`/`arch`.
    pub fn packages_sha256(&self, component: &str, arch: &str) -> (r: Option<&str>)
        ensures
            match map_get(self.files@, packages_key(component@, arch@)) {
                Some(f) => r matches Some(x) && x@ == f.sha256,
                None => r is None,
            },
    {
        let mut key = own(component);
        push_str(&mut key, "/binary-");
        push_str(&mut key, arch);
        push_str(&mut key, "/Packages");
        match self.files.get(key.as_str()) {
            Some(f) => Some(f.sha256.as_str()),
            None => None,
        }
    }

    /// Path of the `*.diff/Index` of `component`/`arch`, if listed.
    pub fn packages_diff_index_path(&self, component: &str, arch: &str) -> (r: Option<&str>)
        ensures
            match map_get(self.files@, diff_index_key(component@, arch@)) {
                Some(f) => r matches Some(x) && x@ == f.path,
                None => r is None,
            },
    {
        let mut key = own(component);
        push_str(&mut key, "/binary-");
        push_str(&mut key, arch);
        push_str(&mut key, "/Packages.diff/Index");
        match self.files.get(key.as_str()) {
            Some(f) => Some(f.path.as_str()),
            None => None,
        }
    }
}

} // verus!
