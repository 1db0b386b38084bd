//! The Debian `.deb` format: an `ar(1)` archive with three members,
//!
//! 1. `debian-binary` — the format version, `"2.0\n"`;
//! 2. `control.tar.*` — a tar holding the `control` file;
//! 3. `data.tar.*` — a tar holding the package payload.
//!
//! Members may be compressed with gzip (`.gz`), xz (`.xz`), zstd (`.zst`)
//! or not at all. The ar framing is parsed here byte by byte; decompression
//! and reading the tar archives are done by the `flate2`, `xz2`, `zstd` and
//! `tar` crates.

use vstd::prelude::*;
use vstd::utf8::{decode_utf8, valid_utf8};
use crate::control_file::{copy_pairs, lenient_fields, lookup_lower, parse_control, pget};
use crate::fields::{map_set, str_pairs, Pairs};
use crate::numeric::{parse_unsigned, parse_unsigned_exec};
use crate::paths::{file_name, file_name_of};
use crate::stanza::stanzas;
use crate::text::{chars_of, debug_str, own, push_debug_str, push_str, starts_with, strip_trailing,
    strip_trailing_exec, string_of_range, trim, trim_bounds, trim_end};
use crate::transport::{gunzip, gz_decoded, unxz, unzstd, xz_decoded, zstd_decoded};

verus! {

// ─── Errors ───────────────────────────────────────────────────────────────────

/// Errors produced while reading a `.deb`.
#[derive(Debug)]
pub enum DebError {
    /// The archive is not a well-formed `.deb`.
    InvalidFormat(String),
    /// The control file could not be parsed.
    ControlParse(String),
    /// A member uses a compression this crate does not read.
    UnsupportedCompression(String),
    /// Reading or decompressing a member failed; the message of the I/O error.
    Io(String),
}

impl DebError {
    /// Human-readable description of the error.
    pub fn to_string(&self) -> (r: String)
        ensures
            r@ == deb_error_text(*self),
    {
        let (head, m) = match self {
            DebError::InvalidFormat(m) => ("invalid .deb format: ", m),
            DebError::ControlParse(m) => ("control file parse error: ", m),
            DebError::UnsupportedCompression(m) => ("unsupported compression format: ", m),
            DebError::Io(m) => ("I/O error: ", m),
        };
        let mut out = own(head);
        push_str(&mut out, m.as_str());
        out
    }
}

/// The message of each error.
pub open spec fn deb_error_text(e: DebError) -> Seq<char> {
    match e {
        DebError::InvalidFormat(m) => "invalid .deb format: "@ + m@,
        DebError::ControlParse(m) => "control file parse error: "@ + m@,
        DebError::UnsupportedCompression(m) => "unsupported compression format: "@ + m@,
        DebError::Io(m) => "I/O error: "@ + m@,
    }
}

/// What the contracts state of an error: the format message, the
/// unsupported extension, or only that an I/O error occurred.
pub enum DebErrorKind {
    Format(Seq<char>),
    ControlParse(Seq<char>),
    Unsupported(Seq<char>),
    Io,
}

pub open spec fn deb_error_kind(e: DebError) -> DebErrorKind {
    match e {
        DebError::InvalidFormat(m) => DebErrorKind::Format(m@),
        DebError::ControlParse(m) => DebErrorKind::ControlParse(m@),
        DebError::UnsupportedCompression(m) => DebErrorKind::Unsupported(m@),
        DebError::Io(_) => DebErrorKind::Io,
    }
}

fn format_error(m: &str) -> (r: DebError)
    ensures
        deb_error_kind(r) == DebErrorKind::Format(m@),
{
    DebError::InvalidFormat(own(m))
}

// ─── DebMetadata ──────────────────────────────────────────────────────────────

/// The fields of the `control` file inside `control.tar.*`.
#[derive(Debug, Clone)]
pub struct DebMetadata {
    /// All control fields, keyed by their name as written, in file order.
    pub fields: Vec<(String, String)>,
}

impl Default for DebMetadata {
    /// No fields.
    fn default() -> (r: DebMetadata)
        ensures
            r.fields@.len() == 0,
    {
        DebMetadata { fields: Vec::new() }
    }
}

impl DebMetadata {
    /// Looks up a control field: the exact name, or else the first field
    /// whose lowercase name equals the lowercase `field`.
    pub fn get(&self, field: &str) -> (r: Option<&str>)
        ensures
            match pget(str_pairs(self.fields@), field@) {
                Some(x) => r matches Some(y) && y@ == x,
                None => r is None,
            },
    {
        lookup_lower(&self.fields, field)
    }

    /// The `Package` field.
    pub fn package_name(&self) -> (r: Option<&str>)
        ensures
            match pget(str_pairs(self.fields@), "Package"@) {
                Some(x) => r matches Some(y) && y@ == x,
                None => r is None,
            },
    {
        self.get("Package")
    }

    /// The `Version` field.
    pub fn version(&self) -> (r: Option<&str>)
        ensures
            match pget(str_pairs(self.fields@), "Version"@) {
                Some(x) => r matches Some(y) && y@ == x,
                None => r is None,
            },
    {
        self.get("Version")
    }

    /// The `Architecture` field.
    pub fn architecture(&self) -> (r: Option<&str>)
        ensures
            match pget(str_pairs(self.fields@), "Architecture"@) {
                Some(x) => r matches Some(y) && y@ == x,
                None => r is None,
            },
    {
        self.get("Architecture")
    }

    /// All `(name, value)` pairs.
    pub fn iter(&self) -> (r: &[(String, String)])
        ensures
            r@ == self.fields@,
    {
        self.fields.as_slice()
    }
}

// ─── DataEntry ────────────────────────────────────────────────────────────────

/// One entry of the `data.tar.*` payload.
#[derive(Debug, Clone)]
pub struct DataEntry {
    /// Path relative to the file system root (e.g. `usr/bin/curl`).
    pub path: String,
    /// Uncompressed size in bytes.
    pub size: u64,
    /// Unix permission bits.
    pub mode: u32,
}

pub open spec fn entry_views(v: Seq<DataEntry>) -> Seq<(Seq<char>, u64, u32)> {
    Seq::new(v.len(), |i: int| (v[i].path@, v[i].size, v[i].mode))
}

// ─── UTF-8 ────────────────────────────────────────────────────────────────────

/// The text `b` encodes, when it is valid UTF-8.
pub open spec fn utf8_of(b: Seq<u8>) -> Option<Seq<char>> {
    if valid_utf8(b) {
        Some(decode_utf8(b))
    } else {
        None
    }
}

/// Decodes UTF-8.
///
/// Wraps `std::str::from_utf8`, which accepts exactly the valid UTF-8 byte
/// sequences; the text it gives is their decoding.
#[verifier::external_body]
fn utf8_string(b: &[u8]) -> (r: Option<String>)
    ensures
        match utf8_of(b@) {
            Some(t) => r matches Some(s) && s@ == t,
            None => r is None,
        },
{
    match std::str::from_utf8(b) {
        Ok(s) => Some(s.to_string()),
        Err(_) => None,
    }
}

fn bytes_range(d: &[u8], lo: usize, hi: usize) -> (r: Vec<u8>)
    requires
        lo <= hi <= d@.len(),
    ensures
        r@ == d@.subrange(lo as int, hi as int),
{
    let mut out: Vec<u8> = Vec::new();
    let mut i = lo;
    while i < hi
        invariant
            lo <= i <= hi <= d@.len(),
            out@ == d@.subrange(lo as int, i as int),
        decreases hi - i,
    {
        out.push(d[i]);
        i = i + 1;
        assert(out@ =~= d@.subrange(lo as int, i as int));
    }
    out
}

// ─── ar archives ──────────────────────────────────────────────────────────────

/// `!<arch>\n`.
pub open spec fn ar_magic() -> Seq<u8> {
    seq![0x21u8, 0x3cu8, 0x61u8, 0x72u8, 0x63u8, 0x68u8, 0x3eu8, 0x0au8]
}

/// Opening an archive: where its first member header starts.
pub open spec fn ar_open(d: Seq<u8>) -> Result<int, DebErrorKind> {
    if d.len() < 8 {
        Err(DebErrorKind::Format("empty archive (no ar magic)"@))
    } else if d.take(8) != ar_magic() {
        Err(DebErrorKind::Format("not an ar archive"@))
    } else {
        Ok(8)
    }
}

/// An archive member as read: its name, declared size, and the body bytes
/// present (fewer than the size when the archive is cut short).
pub struct ArMember {
    pub name: Seq<char>,
    pub size: u64,
    pub body: Seq<u8>,
}

pub open spec fn min_int(a: int, b: int) -> int {
    if a <= b {
        a
    } else {
        b
    }
}

/// The member whose 60-byte header starts at `pos`, and where the next
/// header starts (after the body and the padding byte of an odd-sized body);
/// `None` when no whole header is left.
pub open spec fn ar_header(d: Seq<u8>, pos: int) -> Result<Option<(ArMember, int)>, DebErrorKind> {
    if pos + 60 > d.len() {
        Ok(None)
    } else {
        let h = d.subrange(pos, pos + 60);
        if h[58] != 0x60u8 || h[59] != 0x0au8 {
            Err(DebErrorKind::Format("bad ar header terminator"@))
        } else {
            match utf8_of(h.subrange(0, 16)) {
                None => Err(DebErrorKind::Format("non-UTF-8 ar member name"@)),
                Some(raw) => match utf8_of(h.subrange(48, 58)) {
                    None => Err(DebErrorKind::Format("non-UTF-8 ar size"@)),
                    Some(st) => match parse_unsigned(trim(st), u64::MAX as nat) {
                        None => Err(DebErrorKind::Format("invalid ar member size "@ + debug_str(trim(st)))),
                        Some(n) => {
                            let start = pos + 60;
                            Ok(Some((
                                ArMember {
                                    name: strip_trailing(trim(raw), '/'),
                                    size: n as u64,
                                    body: d.subrange(start, min_int(start + n, d.len() as int)),
                                },
                                min_int(start + n + n % 2, d.len() as int),
                            )))
                        },
                    },
                },
            }
        }
    }
}

/// A member of an ar archive.
#[derive(Debug)]
pub struct ArEntry {
    name: String,
    size: u64,
    body: Vec<u8>,
}

impl View for ArEntry {
    type V = ArMember;

    closed spec fn view(&self) -> ArMember {
        ArMember { name: self.name@, size: self.size, body: self.body@ }
    }
}

impl ArEntry {
    /// Member name (surrounding whitespace and trailing `/` stripped).
    pub fn name(&self) -> (r: &str)
        ensures
            r@ == self@.name,
    {
        self.name.as_str()
    }

    /// Declared body size in bytes.
    pub fn size(&self) -> (r: u64)
        ensures
            r == self@.size,
    {
        self.size
    }

    /// The body bytes.
    pub fn data(&self) -> (r: &[u8])
        ensures
            r@ == self@.body,
    {
        self.body.as_slice()
    }
}

/// A reader over the members of an ar archive held in memory.
pub struct ArReader<'a> {
    data: &'a [u8],
    pos: usize,
}

impl<'a> ArReader<'a> {
    #[verifier::type_invariant]
    spec fn in_bounds(&self) -> bool {
        self.pos <= self.data@.len()
    }

    /// The archive bytes.
    pub closed spec fn bytes(&self) -> Seq<u8> {
        self.data@
    }

    /// Where the next member header starts.
    pub closed spec fn position(&self) -> int {
        self.pos as int
    }

    /// Checks the ar magic and prepares to read the members of `data`.
    pub fn new(data: &'a [u8]) -> (r: Result<ArReader<'a>, DebError>)
        ensures
            match ar_open(data@) {
                Ok(p) => r matches Ok(a) && a.bytes() == data@ && a.position() == p && p
                    <= data@.len(),
                Err(k) => r matches Err(e) && deb_error_kind(e) == k,
            },
    {
        if data.len() < 8 {
            return Err(format_error("empty archive (no ar magic)"));
        }
        let m = bytes_range(data, 0, 8);
        if !(m[0] == 0x21 && m[1] == 0x3c && m[2] == 0x61 && m[3] == 0x72 && m[4] == 0x63 && m[5]
            == 0x68 && m[6] == 0x3e && m[7] == 0x0a) {
            proof {
                if data@.take(8) == ar_magic() {
                    assert(m@ == data@.take(8));
                    assert(m@[0] == ar_magic()[0]);
                }
            }
            return Err(format_error("not an ar archive"));
        }
        assert(data@.take(8) =~= ar_magic());
        Ok(ArReader { data, pos: 8 })
    }

    /// The next member, or `None` when no whole header is left.
    pub fn next_entry(&mut self) -> (r: Result<Option<ArEntry>, DebError>)
        ensures
            final(self).bytes() == old(self).bytes(),
            final(self).position() <= final(self).bytes().len(),
            old(self).position() <= old(self).bytes().len(),
            match ar_header(old(self).bytes(), old(self).position()) {
                Err(k) => r matches Err(e) && deb_error_kind(e) == k,
                Ok(None) => r matches Ok(None) && final(self).position() == old(self).position(),
                Ok(Some((m, next))) => r matches Ok(Some(e)) && e@ == m && final(self).position()
                    == next,
            },
    {
        proof {
            use_type_invariant(&*self);
        }
        let r = match read_member(self.data, self.pos) {
            Err(e) => Err(e),
            Ok(None) => Ok(None),
            Ok(Some((e, next))) => {
                self.pos = next;
                Ok(Some(e))
            },
        };
        proof {
            use_type_invariant(&*self);
        }
        r
    }
}

/// Reads the member header at `pos` (see [`ar_header`]).
fn read_member(d: &[u8], pos: usize) -> (r: Result<Option<(ArEntry, usize)>, DebError>)
    requires
        pos <= d@.len(),
    ensures
        match ar_header(d@, pos as int) {
            Err(k) => r matches Err(e) && deb_error_kind(e) == k,
            Ok(None) => r matches Ok(None),
            Ok(Some((m, next))) => r matches Ok(Some((e, n))) && e@ == m && n == next && n
                <= d@.len(),
        },
{
    let n = d.len();
    if n - pos < 60 {
        return Ok(None);
    }
    let ghost h = d@.subrange(pos as int, pos + 60);
    if d[pos + 58] != 0x60 || d[pos + 59] != 0x0a {
        return Err(format_error("bad ar header terminator"));
    }
    let name_bytes = bytes_range(d, pos, pos + 16);
    assert(name_bytes@ =~= h.subrange(0, 16));
    let raw = match utf8_string(name_bytes.as_slice()) {
        None => return Err(format_error("non-UTF-8 ar member name")),
        Some(s) => s,
    };
    let size_bytes = bytes_range(d, pos + 48, pos + 58);
    assert(size_bytes@ =~= h.subrange(48, 58));
    let st = match utf8_string(size_bytes.as_slice()) {
        None => return Err(format_error("non-UTF-8 ar size")),
        Some(s) => s,
    };
    let sv = chars_of(st.as_str());
    let (lo, hi) = trim_bounds(&sv, 0, sv.len());
    proof {
        assert(sv@.subrange(0, sv@.len() as int) =~= sv@);
    }
    let size = match parse_unsigned_exec(&sv, lo, hi, u64::MAX) {
        None => {
            let trimmed = crate::text::slice_of(&sv, lo, hi);
            let mut msg = own("invalid ar member size ");
            push_debug_str(&mut msg, &trimmed);
            return Err(DebError::InvalidFormat(msg));
        },
        Some(x) => x,
    };
    let rv = chars_of(raw.as_str());
    let (a, b) = trim_bounds(&rv, 0, rv.len());
    proof {
        assert(rv@.subrange(0, rv@.len() as int) =~= rv@);
    }
    let trimmed = crate::text::slice_of(&rv, a, b);
    let name_v = strip_trailing_exec(&trimmed, '/');
    let name = crate::text::string_of(&name_v);
    let start = pos + 60;
    let avail = n - start;
    let (end, next) = if size >= avail as u64 {
        (n, n)
    } else {
        let s = size as usize;
        let e = start + s;
        let nx = if s % 2 == 1 && e < n {
            e + 1
        } else {
            e
        };
        (e, nx)
    };
    let body = bytes_range(d, start, end);
    Ok(Some((ArEntry { name, size, body }, next)))
}

// ─── tar archives ─────────────────────────────────────────────────────────────

/// What the header of an entry gives: path, size, mode (`None` when the mode
/// field is not an octal number) and whether it is a regular file.
pub type TarHeadV = (Seq<char>, u64, Option<u32>, bool);

/// Name for the header of the `index`-th entry that `tar::Archive::entries`
/// yields for the archive bytes `tar`: `None` past the last entry,
/// `Some(None)` where reading the entry failed.
pub uninterp spec fn tar_head(tar: Seq<u8>, index: nat) -> Option<Option<TarHeadV>>;

/// Name for the body of the `index`-th entry of `tar`, read to its end
/// (`None` when that fails).
pub uninterp spec fn tar_data(tar: Seq<u8>, index: nat) -> Option<Seq<u8>>;

/// The header of a tar entry.
pub struct TarHeader {
    pub path: String,
    pub size: u64,
    pub mode: Option<u32>,
    pub regular: bool,
}

pub open spec fn head_view(h: TarHeader) -> TarHeadV {
    (h.path@, h.size, h.mode, h.regular)
}

/// The header of entry `index` of the tar archive `tar`.
///
/// Wraps `tar::Archive::entries` and `Iterator::nth`, then `Entry::path`
/// (lossily as text), `Entry::size`, `Header::mode` and
/// `EntryType::is_file`. A failed entry or path reads as `Some(None)`. Every
/// entry the iterator yields, an error included, follows at least one byte of
/// the archive it read, so an index that gives `Some` is below the length.
#[verifier::external_body]
fn tar_header_at(tar: &[u8], index: usize) -> (r: Option<Option<TarHeader>>)
    ensures
        match r {
            None => tar_head(tar@, index as nat) is None,
            Some(None) => tar_head(tar@, index as nat) == Some(Option::<TarHeadV>::None),
            Some(Some(h)) => tar_head(tar@, index as nat) == Some(Some(head_view(h))),
        },
        r is Some ==> index < tar@.len(),
{
    let mut archive = tar::Archive::new(tar);
    let mut entries = match archive.entries() {
        Ok(es) => es,
        Err(_) => return Some(None),
    };
    let e = match entries.nth(index) {
        None => return None,
        Some(Err(_)) => return Some(None),
        Some(Ok(e)) => e,
    };
    let (size, mode, regular) = (e.size(), e.header().mode().ok(), e.header().entry_type().is_file());
    match e.path() {
        Ok(p) => Some(Some(TarHeader { path: p.to_string_lossy().into_owned(), size, mode, regular })),
        Err(_) => Some(None),
    }
}

/// The body of entry `index` of the tar archive `tar`.
///
/// Wraps `tar::Archive::entries`, `Iterator::nth` and reading the entry to
/// its end; the outcome is named by `tar_data`.
#[verifier::external_body]
fn tar_body_at(tar: &[u8], index: usize) -> (r: Option<Vec<u8>>)
    ensures
        match r {
            Some(v) => tar_data(tar@, index as nat) == Some(v@),
            None => tar_data(tar@, index as nat) is None,
        },
{
    let mut archive = tar::Archive::new(tar);
    let item = match archive.entries() {
        Ok(mut es) => es.nth(index),
        Err(_) => return None,
    };
    let mut e = match item {
        Some(Ok(e)) => e,
        _ => return None,
    };
    let mut out = Vec::new();
    match std::io::Read::read_to_end(&mut e, &mut out) {
        Ok(_) => Some(out),
        Err(_) => None,
    }
}

/// The bytes of a member with extension `ext` after decompression.
pub open spec fn member_decoded(body: Seq<u8>, ext: Seq<char>) -> Result<Seq<u8>, DebErrorKind> {
    let decoded = if ext == ".gz"@ {
        gz_decoded(body)
    } else if ext == ".xz"@ {
        xz_decoded(body)
    } else if ext == ".zst"@ {
        zstd_decoded(body)
    } else {
        Some(body)
    };
    if ext != ".gz"@ && ext != ".xz"@ && ext != ".zst"@ && ext != ""@ {
        Err(DebErrorKind::Unsupported(ext))
    } else {
        match decoded {
            Some(t) => Ok(t),
            None => Err(DebErrorKind::Io),
        }
    }
}

/// Decompresses a member by its extension.
pub fn decompress_member(data: &[u8], ext: &str) -> (r: Result<Vec<u8>, DebError>)
    ensures
        match member_decoded(data@, ext@) {
            Ok(t) => r matches Ok(v) && v@ == t,
            Err(k) => r matches Err(e) && deb_error_kind(e) == k,
        },
{
    let res = if crate::text::str_eq(ext, ".gz") {
        gunzip(data)
    } else if crate::text::str_eq(ext, ".xz") {
        unxz(data)
    } else if crate::text::str_eq(ext, ".zst") {
        unzstd(data)
    } else if crate::text::str_eq(ext, "") {
        let mut out: Vec<u8> = Vec::new();
        let mut i: usize = 0;
        while i < data.len()
            invariant
                i <= data@.len(),
                out@ == data@.take(i as int),
            decreases data.len() - i,
        {
            out.push(data[i]);
            i = i + 1;
            assert(out@ =~= data@.take(i as int));
        }
        assert(data@.take(data@.len() as int) =~= data@);
        return Ok(out);
    } else {
        return Err(DebError::UnsupportedCompression(own(ext)));
    };
    match res {
        Ok(v) => Ok(v),
        Err(m) => Err(DebError::Io(m)),
    }
}

/// The `control` file's fields: the first stanza of the first entry named
/// `control` (in any directory) that holds one, scanning from entry `i`.
pub open spec fn control_in_tar(tar: Seq<u8>, i: nat) -> Result<Pairs, DebErrorKind>
    decreases tar.len() - i,
{
    if i >= tar.len() {
        Err(DebErrorKind::Format("no 'control' file in control.tar"@))
    } else {
        match tar_head(tar, i) {
            None => Err(DebErrorKind::Format("no 'control' file in control.tar"@)),
            Some(None) => Err(DebErrorKind::Io),
            Some(Some(h)) => if file_name(h.0) == Some("control"@) {
                match tar_data(tar, i) {
                    None => Err(DebErrorKind::Io),
                    Some(b) => match utf8_of(b) {
                        None => Err(DebErrorKind::Io),
                        Some(text) => if stanzas(text).len() > 0 {
                            Ok(lenient_fields(stanzas(text)[0], true))
                        } else {
                            control_in_tar(tar, i + 1)
                        },
                    },
                }
            } else {
                control_in_tar(tar, i + 1)
            },
        }
    }
}

/// The control fields of a `control.tar` member with extension `ext`.
pub open spec fn control_tar_result(body: Seq<u8>, ext: Seq<char>) -> Result<Pairs, DebErrorKind> {
    match member_decoded(body, ext) {
        Err(k) => Err(k),
        Ok(tar) => control_in_tar(tar, 0),
    }
}

fn is_control_name(p: &str) -> (r: bool)
    ensures
        r == (file_name(p@) == Some("control"@)),
{
    match file_name_of(p) {
        Some(n) => crate::text::str_eq(n.as_str(), "control"),
        None => false,
    }
}

/// Reads the control fields out of a `control.tar.*` member.
pub fn parse_control_tar(data: &[u8], ext: &str) -> (r: Result<DebMetadata, DebError>)
    ensures
        match control_tar_result(data@, ext@) {
            Ok(f) => r matches Ok(m) && str_pairs(m.fields@) == f,
            Err(k) => r matches Err(e) && deb_error_kind(e) == k,
        },
{
    let tar = decompress_member(data, ext)?;
    let ghost t = tar@;
    let mut i: usize = 0;
    loop
        invariant
            t == tar@,
            member_decoded(data@, ext@) == Ok::<Seq<u8>, DebErrorKind>(t),
            i <= t.len(),
            control_in_tar(t, 0) == control_in_tar(t, i as nat),
        decreases t.len() - i,
    {
        if i >= tar.len() {
            return Err(format_error("no 'control' file in control.tar"));
        }
        match tar_header_at(tar.as_slice(), i) {
            None => {
                return Err(format_error("no 'control' file in control.tar"));
            },
            Some(None) => {
                return Err(DebError::Io(own("reading a control.tar entry failed")));
            },
            Some(Some(h)) => {
                if is_control_name(h.path.as_str()) {
                    let body = match tar_body_at(tar.as_slice(), i) {
                        None => return Err(DebError::Io(own("reading the control file failed"))),
                        Some(b) => b,
                    };
                    let text = match utf8_string(body.as_slice()) {
                        None => return Err(DebError::Io(own("stream did not contain valid UTF-8"))),
                        Some(s) => s,
                    };
                    let paras = parse_control(text.as_str());
                    if paras.len() > 0 {
                        let fields = paras[0].fields();
                        return Ok(DebMetadata { fields });
                    }
                }
            },
        }
        i = i + 1;
    }
}

/// The entries of a data tar, from entry `i` on, after those in `acc`.
pub open spec fn entries_in_tar(tar: Seq<u8>, i: nat, acc: Seq<(Seq<char>, u64, u32)>) -> Result<
    Seq<(Seq<char>, u64, u32)>,
    DebErrorKind,
>
    decreases tar.len() - i,
{
    if i >= tar.len() {
        Ok(acc)
    } else {
        match tar_head(tar, i) {
            None => Ok(acc),
            Some(None) => Err(DebErrorKind::Io),
            Some(Some(h)) => match h.2 {
                None => Err(DebErrorKind::Io),
                Some(mode) => entries_in_tar(tar, i + 1, acc.push((h.0, h.1, mode))),
            },
        }
    }
}

/// The entries of a `data.tar` member with extension `ext`.
pub open spec fn data_entries_result(body: Seq<u8>, ext: Seq<char>) -> Result<
    Seq<(Seq<char>, u64, u32)>,
    DebErrorKind,
> {
    match member_decoded(body, ext) {
        Err(k) => Err(k),
        Ok(tar) => entries_in_tar(tar, 0, Seq::empty()),
    }
}

/// Lists the entries of a `data.tar.*` member.
pub fn parse_data_tar(data: &[u8], ext: &str) -> (r: Result<Vec<DataEntry>, DebError>)
    ensures
        match data_entries_result(data@, ext@) {
            Ok(es) => r matches Ok(v) && entry_views(v@) == es,
            Err(k) => r matches Err(e) && deb_error_kind(e) == k,
        },
{
    let tar = decompress_member(data, ext)?;
    let ghost t = tar@;
    let mut out: Vec<DataEntry> = Vec::new();
    let mut i: usize = 0;
    assert(entry_views(out@) =~= Seq::<(Seq<char>, u64, u32)>::empty());
    loop
        invariant
            t == tar@,
            member_decoded(data@, ext@) == Ok::<Seq<u8>, DebErrorKind>(t),
            i <= t.len(),
            entries_in_tar(t, 0, Seq::empty()) == entries_in_tar(t, i as nat, entry_views(out@)),
        decreases t.len() - i,
    {
        if i >= tar.len() {
            return Ok(out);
        }
        match tar_header_at(tar.as_slice(), i) {
            None => {
                return Ok(out);
            },
            Some(None) => {
                return Err(DebError::Io(own("reading a data.tar entry failed")));
            },
            Some(Some(h)) => match h.mode {
                None => {
                    return Err(DebError::Io(own("invalid mode in a data.tar entry")));
                },
                Some(mode) => {
                    let ghost before = entry_views(out@);
                    out.push(DataEntry { path: h.path, size: h.size, mode });
                    assert(entry_views(out@) =~= before.push((h.path@, h.size, mode)));
                },
            },
        }
        i = i + 1;
    }
}

/// Path to content of the regular files of a data tar, from entry `i` on,
/// set into `acc` in order (a later entry of the same path wins).
pub open spec fn contents_in_tar(tar: Seq<u8>, i: nat, acc: Seq<(Seq<char>, Seq<u8>)>) -> Result<
    Seq<(Seq<char>, Seq<u8>)>,
    DebErrorKind,
>
    decreases tar.len() - i,
{
    if i >= tar.len() {
        Ok(acc)
    } else {
        match tar_head(tar, i) {
            None => Ok(acc),
            Some(None) => Err(DebErrorKind::Io),
            Some(Some(h)) => if h.3 {
                match tar_data(tar, i) {
                    None => Err(DebErrorKind::Io),
                    Some(b) => contents_in_tar(tar, i + 1, map_set(acc, h.0, b)),
                }
            } else {
                contents_in_tar(tar, i + 1, acc)
            },
        }
    }
}

pub open spec fn content_views(v: Seq<(String, Vec<u8>)>) -> Seq<(Seq<char>, Seq<u8>)> {
    Seq::new(v.len(), |i: int| (v[i].0@, v[i].1@))
}

fn content_index(v: &Vec<(String, Vec<u8>)>, k: &Vec<char>) -> (r: usize)
    ensures
        r == crate::fields::key_index(content_views(v@), k@),
{
    let ghost f = content_views(v@);
    let mut i: usize = 0;
    while i < v.len()
        invariant
            i <= v@.len(),
            f == content_views(v@),
            forall|m: int| 0 <= m < i ==> f[m].0 != k@,
        decreases v.len() - i,
    {
        let vc = chars_of(v[i].0.as_str());
        if crate::text::chars_eq(&vc, k) {
            proof {
                crate::fields::lemma_key_index_at(f, k@, i as int);
            }
            return i;
        }
        i = i + 1;
    }
    proof {
        crate::fields::lemma_key_index_at(f, k@, i as int);
    }
    i
}

fn set_content(v: &mut Vec<(String, Vec<u8>)>, k: String, b: Vec<u8>)
    ensures
        content_views(final(v)@) == map_set(content_views(old(v)@), k@, b@),
{
    let ghost f = content_views(v@);
    let kc = chars_of(k.as_str());
    let i = content_index(v, &kc);
    proof {
        crate::fields::lemma_key_index(f, k@);
    }
    let ghost kv = (k@, b@);
    if i < v.len() {
        v.set(i, (k, b));
        assert(content_views(v@) =~= f.update(i as int, kv));
    } else {
        v.push((k, b));
        assert(content_views(v@) =~= f.push(kv));
    }
}

/// Reads the regular files of a `data.tar.*` member: each path with its
/// content, in archive order, a repeated path keeping its last content.
pub fn read_data_tar_contents(data: &[u8], ext: &str) -> (r: Result<Vec<(String, Vec<u8>)>, DebError>)
    ensures
        match member_decoded(data@, ext@) {
            Err(k) => r matches Err(e) && deb_error_kind(e) == k,
            Ok(t) => match contents_in_tar(t, 0, Seq::empty()) {
                Ok(c) => r matches Ok(v) && content_views(v@) == c,
                Err(k) => r matches Err(e) && deb_error_kind(e) == k,
            },
        },
{
    let tar = decompress_member(data, ext)?;
    let ghost t = tar@;
    let mut out: Vec<(String, Vec<u8>)> = Vec::new();
    let mut i: usize = 0;
    assert(content_views(out@) =~= Seq::<(Seq<char>, Seq<u8>)>::empty());
    loop
        invariant
            t == tar@,
            member_decoded(data@, ext@) == Ok::<Seq<u8>, DebErrorKind>(t),
            i <= t.len(),
            contents_in_tar(t, 0, Seq::empty()) == contents_in_tar(t, i as nat, content_views(out@)),
        decreases t.len() - i,
    {
        if i >= tar.len() {
            return Ok(out);
        }
        match tar_header_at(tar.as_slice(), i) {
            None => {
                return Ok(out);
            },
            Some(None) => {
                return Err(DebError::Io(own("reading a data.tar entry failed")));
            },
            Some(Some(h)) => {
                if h.regular {
                    let body = match tar_body_at(tar.as_slice(), i) {
                        None => return Err(DebError::Io(own("reading a data.tar entry failed"))),
                        Some(b) => b,
                    };
                    set_content(&mut out, h.path, body);
                }
            },
        }
        i = i + 1;
    }
}

// ─── DebFile ──────────────────────────────────────────────────────────────────

/// What reading the members so far has gathered: the control fields, and
/// the extension and bytes of the control and data members.
pub struct ScanState {
    pub meta: Option<Pairs>,
    pub control: Option<(Seq<char>, Seq<u8>)>,
    pub data: Option<(Seq<char>, Seq<u8>)>,
}

/// Taking in one member: `debian-binary` must announce format 2.0, a
/// `control.tar*` member gives the control fields, a `data.tar*` member is
/// kept; other members are ignored.
pub open spec fn member_step(st: ScanState, m: ArMember) -> Result<ScanState, DebErrorKind> {
    if m.name == "debian-binary"@ {
        let txt = trim_end(
            match utf8_of(m.body) {
                Some(t) => t,
                None => Seq::empty(),
            },
        );
        if starts_with(txt, "2.0"@) {
            Ok(st)
        } else {
            Err(DebErrorKind::Format("unsupported deb format version: "@ + debug_str(txt)))
        }
    } else if starts_with(m.name, "control.tar"@) {
        let ext = m.name.skip(11);
        match control_tar_result(m.body, ext) {
            Err(k) => Err(k),
            Ok(f) => Ok(ScanState { meta: Some(f), control: Some((ext, m.body)), data: st.data }),
        }
    } else if starts_with(m.name, "data.tar"@) {
        Ok(ScanState { meta: st.meta, control: st.control, data: Some((m.name.skip(8), m.body)) })
    } else {
        Ok(st)
    }
}

/// Every member from the header at `pos` on, taken in order.
pub open spec fn deb_scan(d: Seq<u8>, pos: int, st: ScanState) -> Result<ScanState, DebErrorKind>
    decreases d.len() - pos,
{
    if pos < 0 || pos + 60 > d.len() {
        Ok(st)
    } else {
        match ar_header(d, pos) {
            Err(k) => Err(k),
            Ok(None) => Ok(st),
            Ok(Some((m, next))) => if next <= pos {
                Ok(st)
            } else {
                match member_step(st, m) {
                    Err(k) => Err(k),
                    Ok(s2) => deb_scan(d, next, s2),
                }
            },
        }
    }
}

/// A parsed `.deb`: control fields, payload entries, and the control and
/// data members (extension and compressed bytes).
pub struct DebView {
    pub meta: Pairs,
    pub entries: Seq<(Seq<char>, u64, u32)>,
    pub control: Option<(Seq<char>, Seq<u8>)>,
    pub data: Option<(Seq<char>, Seq<u8>)>,
}

/// What parsing the bytes `d` of a `.deb` gives.
pub open spec fn deb_result(d: Seq<u8>) -> Result<DebView, DebErrorKind> {
    match ar_open(d) {
        Err(k) => Err(k),
        Ok(p) => match deb_scan(d, p, ScanState { meta: None, control: None, data: None }) {
            Err(k) => Err(k),
            Ok(st) => match st.meta {
                None => Err(DebErrorKind::Format("missing control.tar member"@)),
                Some(f) => match st.data {
                    None => Ok(DebView { meta: f, entries: Seq::empty(), control: st.control, data: None }),
                    Some(dm) => match data_entries_result(dm.1, dm.0) {
                        Err(k) => Err(k),
                        Ok(es) => Ok(DebView { meta: f, entries: es, control: st.control, data: st.data }),
                    },
                },
            },
        },
    }
}

pub open spec fn meta_view(o: Option<DebMetadata>) -> Option<Pairs> {
    match o {
        Some(m) => Some(str_pairs(m.fields@)),
        None => None,
    }
}

pub open spec fn member_view(o: Option<(String, Vec<u8>)>) -> Option<(Seq<char>, Seq<u8>)> {
    match o {
        Some(m) => Some((m.0@, m.1@)),
        None => None,
    }
}

/// A parsed `.deb`.
#[derive(Debug)]
pub struct DebFile {
    metadata: DebMetadata,
    entries: Vec<DataEntry>,
    control_member: Option<(String, Vec<u8>)>,
    data_member: Option<(String, Vec<u8>)>,
}

impl View for DebFile {
    type V = DebView;

    closed spec fn view(&self) -> DebView {
        DebView {
            meta: str_pairs(self.metadata.fields@),
            entries: entry_views(self.entries@),
            control: member_view(self.control_member),
            data: member_view(self.data_member),
        }
    }
}

fn copy_bytes(d: &[u8]) -> (r: Vec<u8>)
    ensures
        r@ == d@,
{
    let r = bytes_range(d, 0, d.len());
    assert(d@.subrange(0, d@.len() as int) =~= d@);
    r
}

/// Checks the body of `debian-binary`.
fn check_format_version(body: &[u8]) -> (r: Result<(), DebError>)
    ensures
        ({
            let txt = trim_end(
                match utf8_of(body@) {
                    Some(t) => t,
                    None => Seq::empty(),
                },
            );
            if starts_with(txt, "2.0"@) {
                r is Ok
            } else {
                r matches Err(e) && deb_error_kind(e) == DebErrorKind::Format(
                    "unsupported deb format version: "@ + debug_str(txt),
                )
            }
        }),
{
    let text = match utf8_string(body) {
        Some(t) => t,
        None => String::new(),
    };
    let v = chars_of(text.as_str());
    let e = crate::text::skip_ws_back(&v, 0, v.len());
    let t = crate::text::slice_of(&v, 0, e);
    proof {
        assert(v@.subrange(0, v@.len() as int) =~= v@);
    }
    let p = chars_of("2.0");
    if crate::text::starts_with_exec(&t, &p) {
        Ok(())
    } else {
        let mut msg = own("unsupported deb format version: ");
        push_debug_str(&mut msg, &t);
        Err(DebError::InvalidFormat(msg))
    }
}

impl DebFile {
    /// Parses a `.deb` held in memory.
    pub fn parse(data: &[u8]) -> (r: Result<DebFile, DebError>)
        ensures
            match deb_result(data@) {
                Ok(v) => r matches Ok(f) && f@ == v,
                Err(k) => r matches Err(e) && deb_error_kind(e) == k,
            },
    {
        let mut reader = ArReader::new(data)?;
        let ghost p0 = reader.position();
        let ghost init = ScanState { meta: None, control: None, data: None };
        let mut metadata: Option<DebMetadata> = None;
        let mut control_member: Option<(String, Vec<u8>)> = None;
        let mut data_member: Option<(String, Vec<u8>)> = None;
        loop
            invariant
                init == (ScanState { meta: None, control: None, data: None }),
                reader.bytes() == data@,
                reader.position() <= data@.len(),
                ar_open(data@) == Ok::<int, DebErrorKind>(p0),
                deb_scan(data@, p0, init) == deb_scan(
                    data@,
                    reader.position(),
                    ScanState {
                        meta: meta_view(metadata),
                        control: member_view(control_member),
                        data: member_view(data_member),
                    },
                ),
                metadata is Some <==> control_member is Some,
            ensures
                init == (ScanState { meta: None, control: None, data: None }),
                ar_open(data@) == Ok::<int, DebErrorKind>(p0),
                deb_scan(data@, p0, init) == Ok::<ScanState, DebErrorKind>(
                    ScanState {
                        meta: meta_view(metadata),
                        control: member_view(control_member),
                        data: member_view(data_member),
                    },
                ),
                metadata is Some <==> control_member is Some,
            decreases data@.len() - reader.position(),
        {
            let ghost pos = reader.position();
            let ghost st = ScanState {
                meta: meta_view(metadata),
                control: member_view(control_member),
                data: member_view(data_member),
            };
            let entry = match reader.next_entry() {
                Err(e) => {
                    proof {
                        assert(pos + 60 <= data@.len());
                        assert(deb_scan(data@, pos, st) == Err::<ScanState, DebErrorKind>(deb_error_kind(e)));
                    }
                    return Err(e);
                },
                Ok(None) => {
                    break;
                },
                Ok(Some(e)) => e,
            };
            let ghost next = reader.position();
            let ghost m = entry@;
            assert(pos + 60 <= data@.len());
            assert(next > pos);
            assert(deb_scan(data@, pos, st) == match member_step(st, m) {
                Err(k) => Err(k),
                Ok(s2) => deb_scan(data@, next, s2),
            });
            let name = entry.name();
            if crate::text::str_eq(name, "debian-binary") {
                match check_format_version(entry.data()) {
                    Err(e) => {
                        return Err(e);
                    },
                    Ok(()) => {},
                }
            } else if crate::text::str_starts_with(name, "control.tar") {
                let nv = chars_of(name);
                proof {
                    reveal_strlit("control.tar");
                }
                let ext = string_of_range(&nv, 11, nv.len());
                assert(ext@ =~= m.name.skip(11));
                let meta = match parse_control_tar(entry.data(), ext.as_str()) {
                    Err(e) => {
                        return Err(e);
                    },
                    Ok(x) => x,
                };
                metadata = Some(meta);
                control_member = Some((ext, copy_bytes(entry.data())));
            } else if crate::text::str_starts_with(name, "data.tar") {
                let nv = chars_of(name);
                proof {
                    reveal_strlit("data.tar");
                }
                let ext = string_of_range(&nv, 8, nv.len());
                assert(ext@ =~= m.name.skip(8));
                data_member = Some((ext, copy_bytes(entry.data())));
            }
        }
        let metadata = match metadata {
            None => return Err(format_error("missing control.tar member")),
            Some(m) => m,
        };
        let entries = match &data_member {
            Some((ext, d)) => match parse_data_tar(d.as_slice(), ext.as_str()) {
                Err(e) => {
                    return Err(e);
                },
                Ok(x) => x,
            },
            None => Vec::new(),
        };
        let r = DebFile { metadata, entries, control_member, data_member };
        proof {
            if data_member is None {
                assert(entry_views(r.entries@) =~= Seq::<(Seq<char>, u64, u32)>::empty());
            }
        }
        Ok(r)
    }

    /// The parsed control fields.
    pub fn metadata(&self) -> (r: &DebMetadata)
        ensures
            str_pairs(r.fields@) == self@.meta,
    {
        &self.metadata
    }

    /// The entries of the `data.tar.*` payload, in archive order.
    pub fn entries(&self) -> (r: &[DataEntry])
        ensures
            entry_views(r@) == self@.entries,
    {
        self.entries.as_slice()
    }

    /// The extension and (compressed) bytes of the `control.tar.*` member.
    pub fn control_member(&self) -> (r: Option<(&str, &[u8])>)
        ensures
            match self@.control {
                Some(m) => r matches Some(x) && x.0@ == m.0 && x.1@ == m.1,
                None => r is None,
            },
    {
        match &self.control_member {
            Some((e, b)) => Some((e.as_str(), b.as_slice())),
            None => None,
        }
    }

    /// The extension and (compressed) bytes of the `data.tar.*` member.
    pub fn data_member(&self) -> (r: Option<(&str, &[u8])>)
        ensures
            match self@.data {
                Some(m) => r matches Some(x) && x.0@ == m.0 && x.1@ == m.1,
                None => r is None,
            },
    {
        match &self.data_member {
            Some((e, b)) => Some((e.as_str(), b.as_slice())),
            None => None,
        }
    }

    /// The regular files of the `data.tar.*` payload with their contents
    /// (see [`read_data_tar_contents`]).
    pub fn data_contents(&self) -> (r: Result<Vec<(String, Vec<u8>)>, DebError>)
        ensures
            match self@.data {
                None => r matches Err(e) && deb_error_kind(e) == DebErrorKind::Format(
                    "missing data.tar member"@,
                ),
                Some(m) => match member_decoded(m.1, m.0) {
                    Err(k) => r matches Err(e) && deb_error_kind(e) == k,
                    Ok(t) => match contents_in_tar(t, 0, Seq::empty()) {
                        Ok(c) => r matches Ok(v) && content_views(v@) == c,
                        Err(k) => r matches Err(e) && deb_error_kind(e) == k,
                    },
                },
            },
    {
        match &self.data_member {
            Some((ext, d)) => read_data_tar_contents(d.as_slice(), ext.as_str()),
            None => Err(format_error("missing data.tar member")),
        }
    }
}

} // verus!
