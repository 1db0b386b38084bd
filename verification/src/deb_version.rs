//! Debian package versions: `[epoch:]upstream[-revision]`, their ordering,
//! and relationship constraints such as `>= 2.0`.
//!
//! Ordering: epochs compare as unsigned integers; upstream and revision
//! strings compare as alternating runs of non-digits (character by
//! character, with `~` before the end of a run, the end before letters, and
//! letters before everything else) and digits (as integers, leading zeros
//! ignored).

use std::cmp::Ordering;
use vstd::prelude::*;
use vstd::std_specs::cmp::PartialOrdSpecImpl;
use crate::text::{chars_of, find_char, is_ascii_alnum, is_digit, is_ascii_alpha, index_of,
    lemma_index_of, push_chars, push_char, string_of_range, trim, trim_bounds, trim_start,
    skip_ws_fwd, starts_with, push_str, own};
use crate::numeric::{lemma_dec, dec, parse_unsigned, parse_unsigned_exec, u64_to_dec};

verus! {

// ─── Errors ───────────────────────────────────────────────────────────────────

/// Errors returned when parsing a Debian version string.
#[derive(Debug, PartialEq, Eq, Clone)]
pub enum VersionError {
    /// The version string was empty.
    EmptyString,
    /// The epoch portion could not be parsed as a non-negative integer.
    InvalidEpoch,
    /// The version string contains a character that is not permitted.
    InvalidCharacter(char),
    /// The constraint string could not be parsed.
    InvalidConstraint(String),
}

/// The message of an error.
pub open spec fn version_error_text(e: VersionError) -> Seq<char> {
    match e {
        VersionError::EmptyString => "version string is empty"@,
        VersionError::InvalidEpoch => "invalid epoch in version string"@,
        VersionError::InvalidCharacter(c) => "invalid character '"@.push(c) + "' in version string"@,
        VersionError::InvalidConstraint(m) => "invalid version constraint: "@ + m@,
    }
}

impl VersionError {
    /// Human-readable description of the error.
    pub fn to_string(&self) -> (r: String)
        ensures
            r@ == version_error_text(*self),
    {
        match self {
            VersionError::EmptyString => own("version string is empty"),
            VersionError::InvalidEpoch => own("invalid epoch in version string"),
            VersionError::InvalidCharacter(c) => {
                let mut s = own("invalid character '");
                push_char(&mut s, *c);
                push_str(&mut s, "' in version string");
                s
            },
            VersionError::InvalidConstraint(m) => {
                let mut s = own("invalid version constraint: ");
                push_str(&mut s, m.as_str());
                s
            },
        }
    }
}

/// The shape of a version-parsing outcome, for contracts.
pub enum VersionErrorKind {
    Empty,
    Epoch,
    Char(char),
    Constraint,
}

pub open spec fn error_kind(e: VersionError) -> VersionErrorKind {
    match e {
        VersionError::EmptyString => VersionErrorKind::Empty,
        VersionError::InvalidEpoch => VersionErrorKind::Epoch,
        VersionError::InvalidCharacter(c) => VersionErrorKind::Char(c),
        VersionError::InvalidConstraint(_) => VersionErrorKind::Constraint,
    }
}

// ─── Version ──────────────────────────────────────────────────────────────────

/// A parsed Debian package version.
#[derive(Clone, Debug, Eq, PartialEq)]
pub struct Version {
    /// The epoch (0 when the text has none).
    pub epoch: u32,
    /// The upstream version string.
    pub upstream: String,
    /// The Debian revision string (empty when absent).
    pub revision: String,
}

/// Abstract value of a version: epoch, upstream and revision characters.
pub struct VersionView {
    pub epoch: nat,
    pub upstream: Seq<char>,
    pub revision: Seq<char>,
}

impl View for Version {
    type V = VersionView;

    open spec fn view(&self) -> VersionView {
        VersionView { epoch: self.epoch as nat, upstream: self.upstream@, revision: self.revision@ }
    }
}

/// Characters allowed after the epoch.
pub open spec fn valid_version_char(c: char) -> bool {
    is_ascii_alnum(c) || c == '.' || c == '+' || c == '-' || c == '~' || c == ':'
}

/// Offset of the last `c` in `s`, or `s.len()` when absent.
pub open spec fn rindex_of(s: Seq<char>, c: char) -> nat
    decreases s.len(),
{
    if s.len() == 0 {
        0
    } else if s.last() == c {
        (s.len() - 1) as nat
    } else if rindex_of(s.drop_last(), c) < s.len() - 1 {
        rindex_of(s.drop_last(), c)
    } else {
        s.len()
    }
}

/// Offset of the first character of `s` that is not allowed, or `s.len()`.
pub open spec fn first_invalid(s: Seq<char>) -> nat
    decreases s.len(),
{
    if s.len() == 0 {
        0
    } else if !valid_version_char(s[0]) {
        0
    } else {
        1 + first_invalid(s.drop_first())
    }
}

/// What `Version::parse` yields for the characters `s`.
pub open spec fn parse_version_spec(s: Seq<char>) -> Result<VersionView, VersionErrorKind> {
    if s.len() == 0 {
        Err(VersionErrorKind::Empty)
    } else {
        let c = index_of(s, ':');
        let epoch_ok = c >= s.len() || parse_unsigned(s.take(c as int), 0xffff_ffff) is Some;
        if !epoch_ok {
            Err(VersionErrorKind::Epoch)
        } else {
            let epoch: nat = if c >= s.len() {
                0
            } else {
                parse_unsigned(s.take(c as int), 0xffff_ffff)->0
            };
            let rest = if c >= s.len() {
                s
            } else {
                s.skip((c + 1) as int)
            };
            if rest.len() == 0 {
                Err(VersionErrorKind::Empty)
            } else if first_invalid(rest) < rest.len() {
                Err(VersionErrorKind::Char(rest[first_invalid(rest) as int]))
            } else {
                let d = rindex_of(rest, '-');
                if d < rest.len() {
                    Ok(
                        VersionView {
                            epoch,
                            upstream: rest.take(d as int),
                            revision: rest.skip((d + 1) as int),
                        },
                    )
                } else {
                    Ok(VersionView { epoch, upstream: rest, revision: Seq::empty() })
                }
            }
        }
    }
}

/// The display writes the epoch: it is non-zero, or a `:` after it would
/// otherwise be read as one.
pub open spec fn shows_epoch(v: VersionView) -> bool {
    v.epoch != 0 || (v.upstream + v.revision).contains(':')
}

/// The display writes the `-` before the revision: there is a revision, or
/// the upstream holds a `-` or is empty (so the `-` cannot be left out).
pub open spec fn shows_dash(v: VersionView) -> bool {
    v.revision.len() > 0 || v.upstream.contains('-') || v.upstream.len() == 0
}

/// The display form of a version: `epoch:` when it must be shown, then the
/// upstream string, then `-revision` when it must be shown.
pub open spec fn display_version(v: VersionView) -> Seq<char> {
    let e = if shows_epoch(v) {
        dec(v.epoch) + seq![':']
    } else {
        Seq::empty()
    };
    let r = if shows_dash(v) {
        seq!['-'] + v.revision
    } else {
        Seq::empty()
    };
    e + v.upstream + r
}

pub fn valid_version_char_exec(c: char) -> (r: bool)
    ensures
        r == valid_version_char(c),
{
    ('0' <= c && c <= '9') || ('a' <= c && c <= 'z') || ('A' <= c && c <= 'Z') || c == '.' || c
        == '+' || c == '-' || c == '~' || c == ':'
}

proof fn lemma_first_invalid(s: Seq<char>)
    ensures
        first_invalid(s) <= s.len(),
        first_invalid(s) < s.len() ==> !valid_version_char(s[first_invalid(s) as int]),
        forall|k: int| 0 <= k < first_invalid(s) ==> valid_version_char(s[k]),
    decreases s.len(),
{
    if s.len() > 0 && valid_version_char(s[0]) {
        lemma_first_invalid(s.drop_first());
        assert forall|k: int| 0 <= k < first_invalid(s) implies valid_version_char(s[k]) by {
            if k > 0 {
                assert(s[k] == s.drop_first()[k - 1]);
            }
        }
    }
}

proof fn lemma_rindex_of(s: Seq<char>, c: char)
    ensures
        rindex_of(s, c) <= s.len(),
        rindex_of(s, c) < s.len() ==> s[rindex_of(s, c) as int] == c,
        forall|k: int| rindex_of(s, c) < k < s.len() ==> s[k] != c,
        rindex_of(s, c) == s.len() ==> forall|k: int| 0 <= k < s.len() ==> s[k] != c,
    decreases s.len(),
{
    if s.len() > 0 {
        let t = s.drop_last();
        lemma_rindex_of(t, c);
        assert forall|k: int| 0 <= k < t.len() implies t[k] == s[k] by {}
    }
}

/// Last index `r` in `[lo, hi)` holding `c`, or `hi` when there is none.
fn rfind_char(v: &Vec<char>, lo: usize, hi: usize, c: char) -> (r: usize)
    requires
        lo <= hi <= v@.len(),
    ensures
        r == (if rindex_of(v@.subrange(lo as int, hi as int), c) < hi - lo {
            lo + rindex_of(v@.subrange(lo as int, hi as int), c)
        } else {
            hi as int
        }),
{
    let ghost s = v@.subrange(lo as int, hi as int);
    let mut j = hi;
    while j > lo
        invariant
            lo <= j <= hi <= v@.len(),
            s == v@.subrange(lo as int, hi as int),
            forall|k: int| j <= k < hi ==> v@[k] != c,
        decreases j - lo,
    {
        if v[j - 1] == c {
            proof {
                lemma_rindex_of(s, c);
                lemma_rindex_of_last(s, c, j - 1 - lo);
            }
            return j - 1;
        }
        j = j - 1;
    }
    proof {
        lemma_rindex_of(s, c);
        lemma_rindex_absent(s, c);
    }
    hi
}

proof fn lemma_rindex_of_last(s: Seq<char>, c: char, k: int)
    requires
        0 <= k < s.len(),
        s[k] == c,
        forall|m: int| k < m < s.len() ==> s[m] != c,
    ensures
        rindex_of(s, c) == k,
    decreases s.len(),
{
    if s.last() != c {
        lemma_rindex_of_last(s.drop_last(), c, k);
    }
}

proof fn lemma_rindex_absent(s: Seq<char>, c: char)
    requires
        forall|m: int| 0 <= m < s.len() ==> s[m] != c,
    ensures
        rindex_of(s, c) == s.len(),
    decreases s.len(),
{
    if s.len() > 0 {
        lemma_rindex_absent(s.drop_last(), c);
    }
}

impl Version {
    /// Parses a Debian version string.
    ///
    /// Fails with `EmptyString` for an empty string or an empty remainder
    /// after the epoch, `InvalidEpoch` when the text before the first `:` is
    /// not a `u32`, and `InvalidCharacter` for the first character after the
    /// epoch that is not alphanumeric or one of `. + - ~ :`. The revision is
    /// the text after the last `-`.
    pub fn parse(s: &str) -> (r: Result<Version, VersionError>)
        ensures
            match parse_version_spec(s@) {
                Ok(v) => r matches Ok(x) && x@ == v,
                Err(k) => r matches Err(e) && error_kind(e) == k,
            },
    {
        let v = chars_of(s);
        Self::parse_chars(&v)
    }

    #[verifier::rlimit(30)]
    fn parse_chars(v: &Vec<char>) -> (r: Result<Version, VersionError>)
        ensures
            match parse_version_spec(v@) {
                Ok(x) => r matches Ok(y) && y@ == x,
                Err(k) => r matches Err(e) && error_kind(e) == k,
            },
    {
        let n = v.len();
        if n == 0 {
            return Err(VersionError::EmptyString);
        }
        let ghost s = v@;
        let c = find_char(v, 0, n, ':');
        proof {
            assert(v@.subrange(0, n as int) =~= s);
            lemma_index_of(s, ':');
        }
        let mut epoch: u32 = 0;
        let mut start: usize = 0;
        if c < n {
            match parse_unsigned_exec(v, 0, c, 0xffff_ffff) {
                Some(e) => {
                    proof {
                        assert(v@.subrange(0, c as int) =~= s.take(c as int));
                    }
                    epoch = e as u32;
                    start = c + 1;
                },
                None => {
                    proof {
                        assert(v@.subrange(0, c as int) =~= s.take(c as int));
                    }
                    return Err(VersionError::InvalidEpoch);
                },
            }
        }
        let ghost rest = if c >= n {
            s
        } else {
            s.skip(c + 1)
        };
        proof {
            assert(v@.subrange(start as int, n as int) =~= rest);
        }
        if start >= n {
            return Err(VersionError::EmptyString);
        }
        let bad = first_invalid_exec(v, start, n);
        if bad < n {
            return Err(VersionError::InvalidCharacter(v[bad]));
        }
        let d = rfind_char(v, start, n, '-');
        if d < n {
            let upstream = string_of_range(v, start, d);
            let revision = string_of_range(v, d + 1, n);
            proof {
                lemma_rindex_of(rest, '-');
                assert(upstream@ =~= rest.take(d - start));
                assert(revision@ =~= rest.skip(d - start + 1));
            }
            Ok(Version { epoch, upstream, revision })
        } else {
            let upstream = string_of_range(v, start, n);
            let revision = String::new();
            proof {
                assert(upstream@ =~= rest);
                assert(revision@ =~= Seq::<char>::empty());
            }
            Ok(Version { epoch, upstream, revision })
        }
    }

    /// The display form.
    pub fn to_string(&self) -> (r: String)
        ensures
            r@ == display_version(self@),
    {
        let uv = chars_of(self.upstream.as_str());
        let rv = chars_of(self.revision.as_str());
        let colon = find_char(&uv, 0, uv.len(), ':') < uv.len() || find_char(&rv, 0, rv.len(), ':') < rv.len();
        let up_dash = find_char(&uv, 0, uv.len(), '-') < uv.len();
        let dash = rv.len() > 0 || up_dash || uv.len() == 0;
        proof {
            let v = self@;
            assert(uv@.subrange(0, uv@.len() as int) =~= uv@);
            assert(rv@.subrange(0, rv@.len() as int) =~= rv@);
            lemma_index_of(uv@, ':');
            lemma_index_of(rv@, ':');
            lemma_index_of(uv@, '-');
            let ur = v.upstream + v.revision;
            if colon {
                if index_of(uv@, ':') < uv@.len() {
                    assert(ur[index_of(uv@, ':') as int] == ':');
                } else {
                    assert(ur[(v.upstream.len() + index_of(rv@, ':')) as int] == ':');
                }
            } else if ur.contains(':') {
                let k = choose|k: int| 0 <= k < ur.len() && ur[k] == ':';
                if k < v.upstream.len() {
                    assert(uv@[k] == ':');
                } else {
                    assert(rv@[k - v.upstream.len()] == ':');
                }
            }
            assert(colon == ur.contains(':'));
            if index_of(uv@, '-') < uv@.len() {
                assert(v.upstream[index_of(uv@, '-') as int] == '-');
            }
            assert(up_dash == v.upstream.contains('-')) by {
                if v.upstream.contains('-') {
                    let k = choose|k: int| 0 <= k < v.upstream.len() && v.upstream[k] == '-';
                    assert(uv@[k] == '-');
                }
            }
        }
        let mut out = String::new();
        if self.epoch != 0 || colon {
            let e = u64_to_dec(self.epoch as u64);
            push_str(&mut out, e.as_str());
            push_char(&mut out, ':');
        }
        push_str(&mut out, self.upstream.as_str());
        if dash {
            push_char(&mut out, '-');
            push_str(&mut out, self.revision.as_str());
        }
        proof {
            let v = self@;
            let e = if shows_epoch(v) {
                dec(v.epoch) + seq![':']
            } else {
                Seq::empty()
            };
            let r = if shows_dash(v) {
                seq!['-'] + v.revision
            } else {
                Seq::empty()
            };
            assert(out@ =~= e + v.upstream + r);
        }
        out
    }
}

/// Offset (from `lo`) of the first disallowed character of `v[lo..hi]`.
fn first_invalid_exec(v: &Vec<char>, lo: usize, hi: usize) -> (r: usize)
    requires
        lo <= hi <= v@.len(),
    ensures
        r == lo + first_invalid(v@.subrange(lo as int, hi as int)),
        r < hi ==> r == lo + first_invalid(v@.subrange(lo as int, hi as int)) && v@[r as int]
            == v@.subrange(lo as int, hi as int)[first_invalid(v@.subrange(lo as int, hi as int)) as int],
{
    let ghost s = v@.subrange(lo as int, hi as int);
    proof {
        lemma_first_invalid(s);
    }
    let mut i = lo;
    while i < hi
        invariant
            lo <= i <= hi <= v@.len(),
            s == v@.subrange(lo as int, hi as int),
            forall|k: int| lo <= k < i ==> valid_version_char(#[trigger] v@[k]),
        decreases hi - i,
    {
        if !valid_version_char_exec(v[i]) {
            proof {
                assert forall|m: int| 0 <= m < i - lo implies valid_version_char(s[m]) by {
                    assert(s[m] == v@[lo + m]);
                }
                lemma_first_invalid_at(s, i - lo);
            }
            return i;
        }
        i = i + 1;
    }
    proof {
        assert forall|m: int| 0 <= m < s.len() implies valid_version_char(s[m]) by {
            assert(s[m] == v@[lo + m]);
        }
        lemma_first_invalid_none(s);
    }
    hi
}

proof fn lemma_first_invalid_at(s: Seq<char>, k: int)
    requires
        0 <= k < s.len(),
        !valid_version_char(s[k]),
        forall|m: int| 0 <= m < k ==> valid_version_char(s[m]),
    ensures
        first_invalid(s) == k,
    decreases s.len(),
{
    if k > 0 {
        assert forall|m: int| 0 <= m < k - 1 implies valid_version_char(s.drop_first()[m]) by {
            assert(s.drop_first()[m] == s[m + 1]);
        }
        lemma_first_invalid_at(s.drop_first(), k - 1);
    }
}

proof fn lemma_first_invalid_none(s: Seq<char>)
    requires
        forall|m: int| 0 <= m < s.len() ==> valid_version_char(s[m]),
    ensures
        first_invalid(s) == s.len(),
    decreases s.len(),
{
    if s.len() > 0 {
        assert forall|m: int| 0 <= m < s.len() - 1 implies valid_version_char(s.drop_first()[m]) by {
            assert(s.drop_first()[m] == s[m + 1]);
        }
        lemma_first_invalid_none(s.drop_first());
    }
}


// ─── Debian string comparison ─────────────────────────────────────────────────

/// Weight of a non-digit character: `~` first, then letters, then the rest.
pub open spec fn char_order(c: char) -> int {
    if c == '~' {
        -1
    } else if is_ascii_alpha(c) {
        c as int
    } else {
        1000 + c as int
    }
}

/// The current non-digit run has ended (end of text or a digit).
pub open spec fn seg_end(s: Seq<char>) -> bool {
    s.len() == 0 || is_digit(s[0])
}

/// Weight of the head of a non-digit run; the end of the run weighs 0.
pub open spec fn weight(s: Seq<char>) -> int {
    if seg_end(s) {
        0
    } else {
        char_order(s[0])
    }
}

/// Length of the leading run of digits.
pub open spec fn digit_run(s: Seq<char>) -> nat
    decreases s.len(),
{
    if s.len() > 0 && is_digit(s[0]) {
        1 + digit_run(s.drop_first())
    } else {
        0
    }
}

/// `s` without leading `'0'`s.
pub open spec fn strip_zeros(s: Seq<char>) -> Seq<char>
    decreases s.len(),
{
    if s.len() > 0 && s[0] == '0' {
        strip_zeros(s.drop_first())
    } else {
        s
    }
}

/// Lexicographic comparison (by code point) of two sequences: -1, 0 or 1.
pub open spec fn lex_order(x: Seq<char>, y: Seq<char>) -> int
    decreases x.len(),
{
    if x.len() == 0 || y.len() == 0 {
        if x.len() < y.len() {
            -1
        } else if x.len() > y.len() {
            1
        } else {
            0
        }
    } else if (x[0] as int) < (y[0] as int) {
        -1
    } else if (x[0] as int) > (y[0] as int) {
        1
    } else {
        lex_order(x.drop_first(), y.drop_first())
    }
}

/// Integer comparison of two digit strings, leading zeros ignored.
pub open spec fn num_order(x: Seq<char>, y: Seq<char>) -> int {
    let a = strip_zeros(x);
    let b = strip_zeros(y);
    if a.len() < b.len() {
        -1
    } else if a.len() > b.len() {
        1
    } else {
        lex_order(a, b)
    }
}

pub proof fn lemma_digit_run(s: Seq<char>)
    ensures
        digit_run(s) <= s.len(),
        s.len() > 0 && is_digit(s[0]) ==> digit_run(s) >= 1,
        forall|k: int| 0 <= k < digit_run(s) ==> is_digit(#[trigger] s[k]),
        digit_run(s) < s.len() ==> !is_digit(s[digit_run(s) as int]),
    decreases s.len(),
{
    if s.len() > 0 && is_digit(s[0]) {
        lemma_digit_run(s.drop_first());
        assert forall|k: int| 0 <= k < digit_run(s) implies is_digit(#[trigger] s[k]) by {
            if k > 0 {
                assert(s[k] == s.drop_first()[k - 1]);
            }
        }
    }
}

/// Characters in a non-digit part sort `~` first (before everything, even
/// the end of the part), then the end of the part, then letters by code
/// point, then every other character by code point.
pub proof fn lemma_char_order(c1: char, c2: char)
    requires
        !is_digit(c1),
        !is_digit(c2),
    ensures
        c1 == '~' && c2 != '~' ==> deb_order(seq![c1], seq![c2]) == -1,
        c1 == '~' ==> deb_order(seq![c1], Seq::<char>::empty()) == -1,
        c1 != '~' ==> deb_order(Seq::<char>::empty(), seq![c1]) == -1,
        is_ascii_alpha(c1) && is_ascii_alpha(c2) && c1 < c2 ==> deb_order(seq![c1], seq![c2]) == -1,
        is_ascii_alpha(c1) && !is_ascii_alpha(c2) && c2 != '~' ==> deb_order(seq![c1], seq![c2]) == -1,
        !is_ascii_alpha(c1) && !is_ascii_alpha(c2) && c1 != '~' && c2 != '~' && c1 < c2 ==> deb_order(
            seq![c1],
            seq![c2],
        ) == -1,
{
    let a = seq![c1];
    let b = seq![c2];
    let e = Seq::<char>::empty();
    assert(!seg_end(a) && !seg_end(b));
    assert(seg_end(e));
    assert(weight(a) == char_order(c1));
    assert(weight(b) == char_order(c2));
    assert(weight(e) == 0);
}

/// Versions compare by epoch first; with equal epochs, by upstream version;
/// with equal upstream versions too, by revision.
pub proof fn lemma_version_order_parts(x: VersionView, y: VersionView)
    ensures
        x.epoch < y.epoch ==> version_order(x, y) == -1,
        x.epoch > y.epoch ==> version_order(x, y) == 1,
        x.epoch == y.epoch && deb_order(x.upstream, y.upstream) != 0 ==> version_order(x, y) == deb_order(
            x.upstream,
            y.upstream,
        ),
        x.epoch == y.epoch && deb_order(x.upstream, y.upstream) == 0 ==> version_order(x, y) == deb_order(
            x.revision,
            y.revision,
        ),
{
}

/// The constraint operators: `>=` holds exactly when `<<` does not, `<=`
/// exactly when `>>` does not, `=` exactly when both `<=` and `>=` do, and
/// `<<` exactly when `<=` does and `=` does not; `<<` holds of versions that
/// sort before the constraint's.
pub proof fn lemma_constraint_ops(o: int)
    ensures
        op_holds(ConstraintOp::LaterOrEqual, o) == !op_holds(ConstraintOp::StrictlyEarlier, o),
        op_holds(ConstraintOp::EarlierOrEqual, o) == !op_holds(ConstraintOp::StrictlyLater, o),
        op_holds(ConstraintOp::Equal, o) == (op_holds(ConstraintOp::EarlierOrEqual, o) && op_holds(
            ConstraintOp::LaterOrEqual,
            o,
        )),
        op_holds(ConstraintOp::StrictlyEarlier, o) == (op_holds(ConstraintOp::EarlierOrEqual, o) && !op_holds(
            ConstraintOp::Equal,
            o,
        )),
        op_holds(ConstraintOp::StrictlyEarlier, -1),
        !op_holds(ConstraintOp::StrictlyEarlier, 0),
        op_holds(ConstraintOp::Equal, 0),
        op_holds(ConstraintOp::StrictlyLater, 1),
{
}

/// The value of a decimal digit.
pub open spec fn digit_value(c: char) -> nat {
    (c as int - '0' as int) as nat
}

/// Every character of `s` is a decimal digit.
pub open spec fn all_digits(s: Seq<char>) -> bool {
    forall|i: int| 0 <= i < s.len() ==> is_digit(#[trigger] s[i])
}

/// The number a string of decimal digits writes.
pub open spec fn decimal_value(s: Seq<char>) -> nat
    decreases s.len(),
{
    if s.len() == 0 {
        0
    } else {
        decimal_value(s.drop_last()) * 10 + digit_value(s.last())
    }
}

/// `10^n`.
pub open spec fn pow10(n: nat) -> nat
    decreases n,
{
    if n == 0 {
        1
    } else {
        10 * pow10((n - 1) as nat)
    }
}

proof fn lemma_pow10_pos(n: nat)
    ensures
        pow10(n) >= 1,
    decreases n,
{
    if n > 0 {
        lemma_pow10_pos((n - 1) as nat);
    }
}

/// The leading digit weighs `10^(len - 1)`.
#[verifier::spinoff_prover]
proof fn lemma_value_front(s: Seq<char>)
    requires
        all_digits(s),
        s.len() > 0,
    ensures
        decimal_value(s) == digit_value(s[0]) * pow10((s.len() - 1) as nat) + decimal_value(s.drop_first()),
    decreases s.len(),
{
    if s.len() == 1 {
        assert(s.drop_last().len() == 0);
        assert(s.drop_first().len() == 0);
        assert(s.last() == s[0]);
        assert(decimal_value(s.drop_last()) == 0);
        assert(decimal_value(s.drop_first()) == 0);
        assert(pow10(0) == 1);
        assert(decimal_value(s) == digit_value(s[0]));
    } else {
        let init = s.drop_last();
        assert(all_digits(init)) by {
            assert forall|i: int| 0 <= i < init.len() implies is_digit(#[trigger] init[i]) by {
                assert(init[i] == s[i]);
            }
        }
        lemma_value_front(init);
        assert(init[0] == s[0]);
        let d0 = digit_value(s[0]);
        let p1 = pow10((init.len() - 1) as nat);
        let x = decimal_value(init.drop_first());
        let dl = digit_value(s.last());
        assert(s.drop_first().drop_last() =~= init.drop_first());
        assert(s.drop_first().last() == s.last());
        assert(decimal_value(s.drop_first()) == x * 10 + dl);
        assert(pow10((s.len() - 1) as nat) == 10 * p1);
        assert((d0 * p1 + x) * 10 + dl == d0 * (10 * p1) + (x * 10 + dl)) by (nonlinear_arith);
        assert(decimal_value(s) == decimal_value(init) * 10 + dl);
        assert(decimal_value(init) == d0 * p1 + x);
    }
}

/// A string of `n` digits writes a number below `10^n`.
proof fn lemma_value_bound(s: Seq<char>)
    requires
        all_digits(s),
    ensures
        decimal_value(s) < pow10(s.len()),
    decreases s.len(),
{
    if s.len() > 0 {
        let init = s.drop_last();
        assert(all_digits(init)) by {
            assert forall|i: int| 0 <= i < init.len() implies is_digit(#[trigger] init[i]) by {
                assert(init[i] == s[i]);
            }
        }
        lemma_value_bound(init);
        assert(is_digit(s[s.len() - 1]));
        let v = decimal_value(init);
        let p = pow10(init.len());
        let d = digit_value(s.last());
        assert(d <= 9);
        assert(v * 10 + d < 10 * p) by (nonlinear_arith)
            requires
                v < p,
                d <= 9,
        ;
    }
}

/// Leading zeros change nothing of the number written.
proof fn lemma_strip_value(s: Seq<char>)
    requires
        all_digits(s),
    ensures
        all_digits(strip_zeros(s)),
        decimal_value(strip_zeros(s)) == decimal_value(s),
        strip_zeros(s).len() > 0 ==> strip_zeros(s)[0] != '0',
        strip_zeros(s).len() <= s.len(),
    decreases s.len(),
{
    if s.len() > 0 && s[0] == '0' {
        let t = s.drop_first();
        assert(all_digits(t)) by {
            assert forall|i: int| 0 <= i < t.len() implies is_digit(#[trigger] t[i]) by {
                assert(t[i] == s[i + 1]);
            }
        }
        lemma_strip_value(t);
        lemma_value_front(s);
        assert(digit_value(s[0]) == 0);
        let p = pow10((s.len() - 1) as nat);
        let d = digit_value(s[0]);
        assert(d * p == 0) by (nonlinear_arith)
            requires
                d == 0,
        ;
        assert(decimal_value(s) == decimal_value(t));
        assert(strip_zeros(s) == strip_zeros(t));
    }
}

/// A number written without leading zeros in `n > 0` digits is at least
/// `10^(n - 1)`.
proof fn lemma_value_lower(a: Seq<char>)
    requires
        all_digits(a),
        a.len() > 0,
        a[0] != '0',
    ensures
        decimal_value(a) >= pow10((a.len() - 1) as nat),
{
    lemma_value_front(a);
    assert(is_digit(a[0]));
    let d = digit_value(a[0]);
    let p = pow10((a.len() - 1) as nat);
    assert(d >= 1);
    assert(d * p >= p) by (nonlinear_arith)
        requires
            d >= 1,
    ;
}

/// Digit strings of one length compare by code point as their numbers do.
proof fn lemma_lex_value(a: Seq<char>, b: Seq<char>)
    requires
        all_digits(a),
        all_digits(b),
        a.len() == b.len(),
    ensures
        lex_order(a, b) == (if decimal_value(a) < decimal_value(b) {
            -1int
        } else if decimal_value(a) > decimal_value(b) {
            1int
        } else {
            0int
        }),
    decreases a.len(),
{
    if a.len() > 0 {
        let ta = a.drop_first();
        let tb = b.drop_first();
        assert(all_digits(ta)) by {
            assert forall|i: int| 0 <= i < ta.len() implies is_digit(#[trigger] ta[i]) by {
                assert(ta[i] == a[i + 1]);
            }
        }
        assert(all_digits(tb)) by {
            assert forall|i: int| 0 <= i < tb.len() implies is_digit(#[trigger] tb[i]) by {
                assert(tb[i] == b[i + 1]);
            }
        }
        lemma_value_front(a);
        lemma_value_front(b);
        lemma_value_bound(ta);
        lemma_value_bound(tb);
        assert(is_digit(a[0]) && is_digit(b[0]));
        let p = pow10((a.len() - 1) as nat);
        let da = digit_value(a[0]);
        let db = digit_value(b[0]);
        let ra = decimal_value(ta);
        let rb = decimal_value(tb);
        assert(ta.len() == a.len() - 1);
        if (a[0] as int) < (b[0] as int) {
            assert(da < db);
            assert(da * p + ra < db * p + rb) by (nonlinear_arith)
                requires
                    da < db,
                    ra < p,
            ;
        } else if (a[0] as int) > (b[0] as int) {
            assert(da > db);
            assert(da * p + ra > db * p + rb) by (nonlinear_arith)
                requires
                    da > db,
                    rb < p,
            ;
        } else {
            lemma_lex_value(ta, tb);
        }
    }
}

/// Runs of digits compare as unbounded unsigned integers, leading zeros
/// ignored: however long the runs, the comparison is that of the numbers
/// they write.
pub proof fn lemma_digit_runs_numeric(x: Seq<char>, y: Seq<char>)
    requires
        all_digits(x),
        all_digits(y),
    ensures
        num_order(x, y) == (if decimal_value(x) < decimal_value(y) {
            -1int
        } else if decimal_value(x) > decimal_value(y) {
            1int
        } else {
            0int
        }),
{
    lemma_strip_value(x);
    lemma_strip_value(y);
    let a = strip_zeros(x);
    let b = strip_zeros(y);
    lemma_value_bound(a);
    lemma_value_bound(b);
    if a.len() < b.len() {
        lemma_value_lower(b);
        if a.len() + 1 < b.len() {
            lemma_pow10_mono(a.len(), (b.len() - 1) as nat);
        }
    } else if a.len() > b.len() {
        lemma_value_lower(a);
        if b.len() + 1 < a.len() {
            lemma_pow10_mono(b.len(), (a.len() - 1) as nat);
        }
    } else {
        lemma_lex_value(a, b);
    }
}

proof fn lemma_pow10_mono(m: nat, n: nat)
    requires
        m <= n,
    ensures
        pow10(m) <= pow10(n),
    decreases n,
{
    if m < n {
        lemma_pow10_mono(m, (n - 1) as nat);
    }
}

/// Two component strings that both begin with runs of digits writing
/// different numbers compare as those numbers, however many digits the runs
/// have.
pub proof fn lemma_deb_order_digit_runs(a: Seq<char>, b: Seq<char>)
    requires
        a.len() > 0 && is_digit(a[0]),
        b.len() > 0 && is_digit(b[0]),
        decimal_value(a.take(digit_run(a) as int)) != decimal_value(b.take(digit_run(b) as int)),
    ensures
        deb_order(a, b) == (if decimal_value(a.take(digit_run(a) as int)) < decimal_value(b.take(digit_run(b) as int)) {
            -1int
        } else {
            1int
        }),
{
    lemma_digit_run(a);
    lemma_digit_run(b);
    let x = a.take(digit_run(a) as int);
    let y = b.take(digit_run(b) as int);
    assert(all_digits(x)) by {
        assert forall|i: int| 0 <= i < x.len() implies is_digit(#[trigger] x[i]) by {
            assert(x[i] == a[i]);
        }
    }
    assert(all_digits(y)) by {
        assert forall|i: int| 0 <= i < y.len() implies is_digit(#[trigger] y[i]) by {
            assert(y[i] == b[i]);
        }
    }
    lemma_digit_runs_numeric(x, y);
    assert(seg_end(a) && seg_end(b));
}

/// The Debian comparison of two version component strings: -1, 0 or 1.
pub open spec fn deb_order(a: Seq<char>, b: Seq<char>) -> int
    decreases a.len() + b.len(),
{
    if !(seg_end(a) && seg_end(b)) {
        let wa = weight(a);
        let wb = weight(b);
        if wa < wb {
            -1
        } else if wa > wb {
            1
        } else {
            deb_order(
                if seg_end(a) {
                    a
                } else {
                    a.drop_first()
                },
                if seg_end(b) {
                    b
                } else {
                    b.drop_first()
                },
            )
        }
    } else {
        proof {
            lemma_digit_run(a);
            lemma_digit_run(b);
        }
        let da = digit_run(a);
        let db = digit_run(b);
        let c = num_order(a.take(da as int), b.take(db as int));
        if c != 0 {
            c
        } else if a.len() == da && b.len() == db {
            0
        } else {
            deb_order(a.skip(da as int), b.skip(db as int))
        }
    }
}

/// Weight of a non-digit character.
fn order_of(c: char) -> (r: i32)
    ensures
        r == char_order(c),
{
    if c == '~' {
        -1
    } else if ('a' <= c && c <= 'z') || ('A' <= c && c <= 'Z') {
        c as u32 as i32
    } else {
        1000 + (c as u32 as i32)
    }
}

fn is_digit_exec(c: char) -> (r: bool)
    ensures
        r == is_digit(c),
{
    '0' <= c && c <= '9'
}

/// End of the digit run starting at `i`.
fn digit_end(v: &Vec<char>, i: usize) -> (r: usize)
    requires
        i <= v@.len(),
    ensures
        i <= r <= v@.len(),
        r - i == digit_run(v@.skip(i as int)),
{
    let mut j = i;
    while j < v.len() && is_digit_exec(v[j])
        invariant
            i <= j <= v@.len(),
            digit_run(v@.skip(i as int)) == (j - i) + digit_run(v@.skip(j as int)),
        decreases v.len() - j,
    {
        assert(v@.skip(j as int).drop_first() =~= v@.skip(j + 1));
        j = j + 1;
    }
    j
}

/// First index in `[lo, hi)` that is not `'0'`, or `hi`.
fn skip_zeros(v: &Vec<char>, lo: usize, hi: usize) -> (r: usize)
    requires
        lo <= hi <= v@.len(),
    ensures
        lo <= r <= hi,
        strip_zeros(v@.subrange(lo as int, hi as int)) == v@.subrange(r as int, hi as int),
{
    let mut i = lo;
    while i < hi && v[i] == '0'
        invariant
            lo <= i <= hi <= v@.len(),
            strip_zeros(v@.subrange(lo as int, hi as int)) == strip_zeros(
                v@.subrange(i as int, hi as int),
            ),
        decreases hi - i,
    {
        assert(v@.subrange(i as int, hi as int).drop_first() =~= v@.subrange(i + 1, hi as int));
        i = i + 1;
    }
    i
}

/// Integer comparison of the digit runs `a[ia..ja]` and `b[ib..jb]`.
fn compare_digit_runs(a: &Vec<char>, ia: usize, ja: usize, b: &Vec<char>, ib: usize, jb: usize) -> (r: i8)
    requires
        ia <= ja <= a@.len(),
        ib <= jb <= b@.len(),
    ensures
        r == num_order(a@.subrange(ia as int, ja as int), b@.subrange(ib as int, jb as int)),
{
    let za = skip_zeros(a, ia, ja);
    let zb = skip_zeros(b, ib, jb);
    let la = ja - za;
    let lb = jb - zb;
    if la < lb {
        return -1;
    }
    if la > lb {
        return 1;
    }
    let mut k: usize = 0;
    while k < la
        invariant
            la == lb,
            za + la == ja <= a@.len(),
            zb + lb == jb <= b@.len(),
            0 <= k <= la,
            num_order(a@.subrange(ia as int, ja as int), b@.subrange(ib as int, jb as int))
                == lex_order(a@.subrange(za as int, ja as int), b@.subrange(zb as int, jb as int)),
            lex_order(a@.subrange(za as int, ja as int), b@.subrange(zb as int, jb as int))
                == lex_order(a@.subrange(za + k, ja as int), b@.subrange(zb + k, jb as int)),
        decreases la - k,
    {
        let x = a[za + k];
        let y = b[zb + k];
        if x < y {
            return -1;
        }
        if x > y {
            return 1;
        }
        assert(a@.subrange(za + k, ja as int).drop_first() =~= a@.subrange(za + k + 1, ja as int));
        assert(b@.subrange(zb + k, jb as int).drop_first() =~= b@.subrange(zb + k + 1, jb as int));
        k = k + 1;
    }
    0
}

/// Debian comparison of two character vectors: -1, 0 or 1.
pub fn compare_chars(a: &Vec<char>, b: &Vec<char>) -> (r: i8)
    ensures
        r == deb_order(a@, b@),
{
    let la = a.len();
    let lb = b.len();
    let mut ia: usize = 0;
    let mut ib: usize = 0;
    proof {
        assert(a@.skip(0) =~= a@);
        assert(b@.skip(0) =~= b@);
    }
    loop
        invariant
            la == a@.len(),
            lb == b@.len(),
            ia <= la,
            ib <= lb,
            deb_order(a@, b@) == deb_order(a@.skip(ia as int), b@.skip(ib as int)),
        decreases (la - ia) + (lb - ib),
    {
        let ghost sa = a@.skip(ia as int);
        let ghost sb = b@.skip(ib as int);
        let a_end = ia >= la || is_digit_exec(a[ia]);
        let b_end = ib >= lb || is_digit_exec(b[ib]);
        if !(a_end && b_end) {
            let wa = if a_end {
                0
            } else {
                order_of(a[ia])
            };
            let wb = if b_end {
                0
            } else {
                order_of(b[ib])
            };
            if wa < wb {
                return -1;
            }
            if wa > wb {
                return 1;
            }
            if !a_end {
                assert(sa.drop_first() =~= a@.skip(ia + 1));
                ia = ia + 1;
            }
            if !b_end {
                assert(sb.drop_first() =~= b@.skip(ib + 1));
                ib = ib + 1;
            }
        } else {
            let ja = digit_end(a, ia);
            let jb = digit_end(b, ib);
            proof {
                lemma_digit_run(sa);
                lemma_digit_run(sb);
                assert(sa.take((ja - ia) as int) =~= a@.subrange(ia as int, ja as int));
                assert(sb.take((jb - ib) as int) =~= b@.subrange(ib as int, jb as int));
                assert(sa.skip((ja - ia) as int) =~= a@.skip(ja as int));
                assert(sb.skip((jb - ib) as int) =~= b@.skip(jb as int));
            }
            let c = compare_digit_runs(a, ia, ja, b, ib, jb);
            if c != 0 {
                return c;
            }
            if ja == la && jb == lb {
                return 0;
            }
            ia = ja;
            ib = jb;
        }
    }
}


// ─── Orderings ────────────────────────────────────────────────────────────────

/// The ordering denoted by a sign: negative, zero or positive.
pub open spec fn ord_of(i: int) -> Ordering {
    if i < 0 {
        Ordering::Less
    } else if i == 0 {
        Ordering::Equal
    } else {
        Ordering::Greater
    }
}

/// Debian ordering of two versions: epoch, then upstream, then revision.
pub open spec fn version_order(x: VersionView, y: VersionView) -> int {
    if x.epoch < y.epoch {
        -1
    } else if x.epoch > y.epoch {
        1
    } else if deb_order(x.upstream, y.upstream) != 0 {
        deb_order(x.upstream, y.upstream)
    } else {
        deb_order(x.revision, y.revision)
    }
}

fn ordering_from(i: i8) -> (r: Ordering)
    ensures
        i < 0 ==> r == Ordering::Less,
        i == 0 ==> r == Ordering::Equal,
        i > 0 ==> r == Ordering::Greater,
{
    if i < 0 {
        Ordering::Less
    } else if i == 0 {
        Ordering::Equal
    } else {
        Ordering::Greater
    }
}

/// Compares two Debian version component strings using the Debian algorithm.
pub fn deb_str_cmp(a: &str, b: &str) -> (r: Ordering)
    ensures
        r == ord_of(deb_order(a@, b@)),
{
    let x = chars_of(a);
    let y = chars_of(b);
    let c = compare_chars(&x, &y);
    ordering_from(c)
}

/// Debian ordering of two versions as -1, 0 or 1.
pub fn version_sign(x: &Version, y: &Version) -> (r: i8)
    ensures
        r == version_order(x@, y@),
{
    if x.epoch < y.epoch {
        return -1;
    }
    if x.epoch > y.epoch {
        return 1;
    }
    let xu = chars_of(x.upstream.as_str());
    let yu = chars_of(y.upstream.as_str());
    let u = compare_chars(&xu, &yu);
    if u != 0 {
        return u;
    }
    let xr = chars_of(x.revision.as_str());
    let yr = chars_of(y.revision.as_str());
    compare_chars(&xr, &yr)
}

impl Version {
    /// Debian ordering: epoch, then upstream, then revision.
    pub fn cmp(&self, other: &Self) -> (r: Ordering)
        ensures
            r == ord_of(version_order(self@, other@)),
    {
        let c = version_sign(self, other);
        ordering_from(c)
    }
}

impl PartialOrd for Version {
    fn partial_cmp(&self, other: &Self) -> (r: Option<Ordering>) {
        Some(self.cmp(other))
    }
}

impl PartialOrdSpecImpl for Version {
    open spec fn obeys_partial_cmp_spec() -> bool {
        true
    }

    open spec fn partial_cmp_spec(&self, other: &Self) -> Option<Ordering> {
        Some(ord_of(version_order(self@, other@)))
    }
}

// ─── Constraint operator ──────────────────────────────────────────────────────

/// Version relationship operator as used in `Depends:`, `Conflicts:`, etc.
#[derive(Debug, Clone, Copy, PartialEq, Eq)]
pub enum ConstraintOp {
    /// `<<`
    StrictlyEarlier,
    /// `<=`
    EarlierOrEqual,
    /// `=`
    Equal,
    /// `>=`
    LaterOrEqual,
    /// `>>`
    StrictlyLater,
}

/// The textual form of an operator.
pub open spec fn op_text(op: ConstraintOp) -> Seq<char> {
    match op {
        ConstraintOp::StrictlyEarlier => seq!['<', '<'],
        ConstraintOp::EarlierOrEqual => seq!['<', '='],
        ConstraintOp::Equal => seq!['='],
        ConstraintOp::LaterOrEqual => seq!['>', '='],
        ConstraintOp::StrictlyLater => seq!['>', '>'],
    }
}

/// The operator whose text is `t`, if any.
pub open spec fn op_of_text(t: Seq<char>) -> Option<ConstraintOp> {
    if t == seq!['<', '<'] {
        Some(ConstraintOp::StrictlyEarlier)
    } else if t == seq!['<', '='] {
        Some(ConstraintOp::EarlierOrEqual)
    } else if t == seq!['='] {
        Some(ConstraintOp::Equal)
    } else if t == seq!['>', '='] {
        Some(ConstraintOp::LaterOrEqual)
    } else if t == seq!['>', '>'] {
        Some(ConstraintOp::StrictlyLater)
    } else {
        None
    }
}

fn op_of_chars(t: &Vec<char>) -> (r: Option<ConstraintOp>)
    ensures
        r == op_of_text(t@),
{
    let n = t.len();
    if n == 1 && t[0] == '=' {
        assert(t@ =~= seq!['=']);
        return Some(ConstraintOp::Equal);
    }
    if n == 2 {
        let a = t[0];
        let b = t[1];
        if a == '<' && b == '<' {
            assert(t@ =~= seq!['<', '<']);
            return Some(ConstraintOp::StrictlyEarlier);
        }
        if a == '<' && b == '=' {
            assert(t@ =~= seq!['<', '=']);
            return Some(ConstraintOp::EarlierOrEqual);
        }
        if a == '>' && b == '=' {
            assert(t@ =~= seq!['>', '=']);
            return Some(ConstraintOp::LaterOrEqual);
        }
        if a == '>' && b == '>' {
            assert(t@ =~= seq!['>', '>']);
            return Some(ConstraintOp::StrictlyLater);
        }
    }
    proof {
        if n == 2 {
            assert(t@ != seq!['<', '<'] ==> t@[0] != '<' || t@[1] != '<');
            assert(seq!['<', '<'][0] == '<' && seq!['<', '<'][1] == '<');
            assert(seq!['<', '='][0] == '<' && seq!['<', '='][1] == '=');
            assert(seq!['>', '='][0] == '>' && seq!['>', '='][1] == '=');
            assert(seq!['>', '>'][0] == '>' && seq!['>', '>'][1] == '>');
        }
        if n == 1 {
            assert(seq!['='][0] == '=');
        }
    }
    None
}

impl ConstraintOp {
    /// Parses `<<`, `<=`, `=`, `>=` or `>>` (surrounding whitespace ignored).
    pub fn parse(s: &str) -> (r: Result<ConstraintOp, VersionError>)
        ensures
            match op_of_text(trim(s@)) {
                Some(op) => r == Ok::<ConstraintOp, VersionError>(op),
                None => r matches Err(VersionError::InvalidConstraint(_)),
            },
    {
        let v = chars_of(s);
        let (a, b) = trim_bounds(&v, 0, v.len());
        proof {
            assert(v@.subrange(0, v@.len() as int) =~= v@);
        }
        let t = crate::text::slice_of(&v, a, b);
        match op_of_chars(&t) {
            Some(op) => Ok(op),
            None => {
                let mut msg = "unknown operator '".to_owned();
                push_chars(&mut msg, &t);
                push_char(&mut msg, '\'');
                Err(VersionError::InvalidConstraint(msg))
            },
        }
    }

    /// The textual form.
    pub fn to_string(&self) -> (r: String)
        ensures
            r@ == op_text(*self),
    {
        let mut out = String::new();
        match self {
            ConstraintOp::StrictlyEarlier => {
                push_char(&mut out, '<');
                push_char(&mut out, '<');
            },
            ConstraintOp::EarlierOrEqual => {
                push_char(&mut out, '<');
                push_char(&mut out, '=');
            },
            ConstraintOp::Equal => {
                push_char(&mut out, '=');
            },
            ConstraintOp::LaterOrEqual => {
                push_char(&mut out, '>');
                push_char(&mut out, '=');
            },
            ConstraintOp::StrictlyLater => {
                push_char(&mut out, '>');
                push_char(&mut out, '>');
            },
        }
        proof {
            assert(out@ =~= op_text(*self));
        }
        out
    }
}

// ─── Version constraint ───────────────────────────────────────────────────────

/// A version constraint of the form `<op> <version>`, e.g. `>= 2.0`.
#[derive(Debug, Clone, PartialEq, Eq)]
pub struct VersionConstraint {
    /// The comparison operator.
    pub op: ConstraintOp,
    /// The reference version.
    pub version: Version,
}

/// Whether a version whose ordering against the reference is `o` satisfies `op`.
pub open spec fn op_holds(op: ConstraintOp, o: int) -> bool {
    match op {
        ConstraintOp::StrictlyEarlier => o < 0,
        ConstraintOp::EarlierOrEqual => o <= 0,
        ConstraintOp::Equal => o == 0,
        ConstraintOp::LaterOrEqual => o >= 0,
        ConstraintOp::StrictlyLater => o > 0,
    }
}

/// How `VersionConstraint::parse` splits trimmed text into operator text
/// and version text, if it recognises an operator prefix.
pub open spec fn split_constraint(t: Seq<char>) -> Option<(Seq<char>, Seq<char>)> {
    if t.len() >= 2 && (t.take(2) == seq!['<', '<'] || t.take(2) == seq!['<', '='] || t.take(2)
        == seq!['>', '='] || t.take(2) == seq!['>', '>']) {
        Some((t.take(2), trim_start(t.skip(2))))
    } else if t.len() >= 1 && t[0] == '=' {
        Some((seq!['='], trim_start(t.skip(1))))
    } else {
        None
    }
}

/// What `VersionConstraint::parse` yields for `s`.
pub open spec fn parse_constraint_spec(s: Seq<char>) -> Result<(ConstraintOp, VersionView), VersionErrorKind> {
    match split_constraint(trim(s)) {
        None => Err(VersionErrorKind::Constraint),
        Some((o, v)) => match parse_version_spec(v) {
            Ok(ver) => Ok((op_of_text(o)->0, ver)),
            Err(k) => Err(k),
        },
    }
}

impl VersionConstraint {
    /// Parses a constraint string such as `">= 2:1.0-1"`.
    pub fn parse(s: &str) -> (r: Result<VersionConstraint, VersionError>)
        ensures
            match parse_constraint_spec(s@) {
                Ok((op, ver)) => r matches Ok(c) && c.op == op && c.version@ == ver,
                Err(k) => r matches Err(e) && error_kind(e) == k,
            },
    {
        let v = chars_of(s);
        let (a, b) = trim_bounds(&v, 0, v.len());
        proof {
            assert(v@.subrange(0, v@.len() as int) =~= v@);
        }
        let t = crate::text::slice_of(&v, a, b);
        let n = t.len();
        let two = n >= 2 && ((t[0] == '<' && (t[1] == '<' || t[1] == '=')) || (t[0] == '>' && (t[1]
            == '=' || t[1] == '>')));
        proof {
            if n >= 2 {
                assert(t@.take(2) =~= seq![t@[0], t@[1]]);
            }
        }
        let (op_end, rest_start) = if two {
            (2usize, 2usize)
        } else if n >= 1 && t[0] == '=' {
            (1usize, 1usize)
        } else {
            let mut msg = "cannot parse constraint '".to_owned();
            push_chars(&mut msg, &t);
            push_char(&mut msg, '\'');
            return Err(VersionError::InvalidConstraint(msg));
        };
        let op_chars = crate::text::slice_of(&t, 0, op_end);
        let rs = skip_ws_fwd(&t, rest_start, n);
        let ver_chars = crate::text::slice_of(&t, rs, n);
        proof {
            assert(t@.skip(rest_start as int) =~= t@.subrange(rest_start as int, n as int));
            assert(op_chars@ =~= t@.take(op_end as int));
            if two {
                assert(op_chars@ =~= seq![t@[0], t@[1]]);
            } else {
                assert(op_chars@ =~= seq!['=']);
            }
        }
        let op = match op_of_chars(&op_chars) {
            Some(op) => op,
            None => {
                return Err(VersionError::InvalidConstraint("unknown operator".to_owned()));
            },
        };
        let version = Version::parse_chars(&ver_chars)?;
        Ok(VersionConstraint { op, version })
    }

    /// Returns `true` if the given installed version satisfies this constraint.
    pub fn satisfies(&self, installed: &Version) -> (r: bool)
        ensures
            r == op_holds(self.op, version_order(installed@, self.version@)),
    {
        let o = version_sign(installed, &self.version);
        match self.op {
            ConstraintOp::StrictlyEarlier => o < 0,
            ConstraintOp::EarlierOrEqual => o <= 0,
            ConstraintOp::Equal => o == 0,
            ConstraintOp::LaterOrEqual => o >= 0,
            ConstraintOp::StrictlyLater => o > 0,
        }
    }

    /// The textual form `"<op> <version>"`.
    pub fn to_string(&self) -> (r: String)
        ensures
            r@ == op_text(self.op) + seq![' '] + display_version(self.version@),
    {
        let mut out = self.op.to_string();
        push_char(&mut out, ' ');
        let v = self.version.to_string();
        push_str(&mut out, v.as_str());
        out
    }
}


// ─── Laws ─────────────────────────────────────────────────────────────────────

proof fn lemma_lex_refl_antisym(x: Seq<char>, y: Seq<char>)
    ensures
        lex_order(x, x) == 0,
        lex_order(x, y) == -lex_order(y, x),
    decreases x.len(),
{
    if x.len() > 0 && y.len() > 0 {
        lemma_lex_refl_antisym(x.drop_first(), y.drop_first());
    }
    if x.len() > 0 {
        lemma_lex_refl_antisym(x.drop_first(), x.drop_first());
    }
}

/// The Debian string ordering is reflexive: every string compares equal to
/// itself.
pub proof fn deb_order_reflexive(a: Seq<char>)
    ensures
        deb_order(a, a) == 0,
    decreases a.len(),
{
    lemma_digit_run(a);
    if !seg_end(a) {
        deb_order_reflexive(a.drop_first());
    } else {
        let d = digit_run(a);
        lemma_lex_refl_antisym(strip_zeros(a.take(d as int)), strip_zeros(a.take(d as int)));
        if a.len() != d {
            deb_order_reflexive(a.skip(d as int));
        }
    }
}

/// The Debian string ordering is antisymmetric: swapping the arguments
/// negates the result.
pub proof fn deb_order_antisymmetric(a: Seq<char>, b: Seq<char>)
    ensures
        deb_order(a, b) == -deb_order(b, a),
    decreases a.len() + b.len(),
{
    lemma_digit_run(a);
    lemma_digit_run(b);
    if !(seg_end(a) && seg_end(b)) {
        if weight(a) == weight(b) {
            deb_order_antisymmetric(
                if seg_end(a) {
                    a
                } else {
                    a.drop_first()
                },
                if seg_end(b) {
                    b
                } else {
                    b.drop_first()
                },
            );
        }
    } else {
        let da = digit_run(a);
        let db = digit_run(b);
        lemma_lex_refl_antisym(strip_zeros(a.take(da as int)), strip_zeros(b.take(db as int)));
        if !(a.len() == da && b.len() == db) {
            deb_order_antisymmetric(a.skip(da as int), b.skip(db as int));
        }
    }
}

/// Every version compares equal to itself.
pub proof fn version_order_reflexive(v: VersionView)
    ensures
        version_order(v, v) == 0,
{
    deb_order_reflexive(v.upstream);
    deb_order_reflexive(v.revision);
}

/// Swapping two versions negates their ordering.
pub proof fn version_order_antisymmetric(x: VersionView, y: VersionView)
    ensures
        version_order(x, y) == -version_order(y, x),
{
    deb_order_antisymmetric(x.upstream, y.upstream);
    deb_order_antisymmetric(x.revision, y.revision);
}

proof fn lemma_lex_zero(x: Seq<char>, y: Seq<char>)
    requires
        lex_order(x, y) == 0,
    ensures
        x == y,
    decreases x.len(),
{
    if x.len() > 0 && y.len() > 0 {
        lemma_lex_zero(x.drop_first(), y.drop_first());
        assert(x =~= seq![x[0]] + x.drop_first());
        assert(y =~= seq![y[0]] + y.drop_first());
    } else {
        assert(x.len() == 0 && y.len() == 0);
        assert(x =~= y);
    }
}

proof fn lemma_lex_trans(x: Seq<char>, y: Seq<char>, z: Seq<char>)
    requires
        lex_order(x, y) <= 0,
        lex_order(y, z) <= 0,
    ensures
        lex_order(x, z) <= 0,
        (lex_order(x, y) < 0 || lex_order(y, z) < 0) ==> lex_order(x, z) < 0,
    decreases x.len(),
{
    if x.len() > 0 && y.len() > 0 && z.len() > 0 {
        if (x[0] as int) == (y[0] as int) && (y[0] as int) == (z[0] as int) {
            lemma_lex_trans(x.drop_first(), y.drop_first(), z.drop_first());
        }
    }
}

proof fn lemma_strip_len(s: Seq<char>)
    ensures
        strip_zeros(s).len() <= s.len(),
    decreases s.len(),
{
    if s.len() > 0 && s[0] == '0' {
        lemma_strip_len(s.drop_first());
    }
}

proof fn lemma_num_trans(x: Seq<char>, y: Seq<char>, z: Seq<char>)
    requires
        num_order(x, y) <= 0,
        num_order(y, z) <= 0,
    ensures
        num_order(x, z) <= 0,
        (num_order(x, y) < 0 || num_order(y, z) < 0) ==> num_order(x, z) < 0,
{
    let a = strip_zeros(x);
    let b = strip_zeros(y);
    let c = strip_zeros(z);
    if a.len() == b.len() && b.len() == c.len() {
        lemma_lex_trans(a, b, c);
    }
}

/// A step over equal digit runs leaves the comparison unchanged.
proof fn lemma_digit_step(a: Seq<char>, b: Seq<char>)
    requires
        seg_end(a),
        seg_end(b),
        num_order(a.take(digit_run(a) as int), b.take(digit_run(b) as int)) == 0,
    ensures
        deb_order(a, b) == deb_order(a.skip(digit_run(a) as int), b.skip(digit_run(b) as int)),
{
    lemma_digit_run(a);
    lemma_digit_run(b);
    if a.len() == digit_run(a) && b.len() == digit_run(b) {
        let e = a.skip(digit_run(a) as int);
        assert(e.len() == 0);
        assert(b.skip(digit_run(b) as int).len() == 0);
        assert(e =~= b.skip(digit_run(b) as int));
        deb_order_reflexive(e);
    }
}

proof fn lemma_char_nonneg(c: char)
    ensures
        c as int >= 0,
{
}

proof fn lemma_weight_zero(s: Seq<char>)
    ensures
        weight(s) == 0 <==> seg_end(s),
{
    if !seg_end(s) {
        let c = s[0];
        assert(('A' as int) == 65);
        lemma_char_nonneg(c);
        if is_ascii_alpha(c) {
            assert(c as int >= 'A' as int);
        }
    }
}

/// The Debian string ordering is transitive: if `a` sorts no later than `b`
/// and `b` no later than `c`, then `a` sorts no later than `c`.
pub proof fn deb_order_transitive(a: Seq<char>, b: Seq<char>, c: Seq<char>)
    requires
        deb_order(a, b) <= 0,
        deb_order(b, c) <= 0,
    ensures
        deb_order(a, c) <= 0,
    decreases a.len() + b.len() + c.len(),
{
    lemma_weight_zero(a);
    lemma_weight_zero(b);
    lemma_weight_zero(c);
    lemma_digit_run(a);
    lemma_digit_run(b);
    lemma_digit_run(c);
    if seg_end(a) && seg_end(b) && seg_end(c) {
        let da = digit_run(a);
        let db = digit_run(b);
        let dc = digit_run(c);
        let xa = a.take(da as int);
        let xb = b.take(db as int);
        let xc = c.take(dc as int);
        lemma_num_trans(xa, xb, xc);
        if num_order(xa, xb) == 0 && num_order(xb, xc) == 0 {
            assert(num_order(xa, xc) == 0) by {
                lemma_num_antisym(xa, xc);
                lemma_num_antisym(xa, xb);
                lemma_num_antisym(xb, xc);
                lemma_num_trans(xc, xb, xa);
            }
            lemma_digit_step(a, b);
            lemma_digit_step(b, c);
            lemma_digit_step(a, c);
            if !(a.len() == da && c.len() == dc) {
                deb_order_transitive(a.skip(da as int), b.skip(db as int), c.skip(dc as int));
            }
        }
    } else if !seg_end(a) && !seg_end(b) && !seg_end(c) || (seg_end(a) as int) + (seg_end(b) as int)
        + (seg_end(c) as int) == 1 {
        if weight(a) == weight(b) && weight(b) == weight(c) {
            let na = if seg_end(a) {
                a
            } else {
                a.drop_first()
            };
            let nb = if seg_end(b) {
                b
            } else {
                b.drop_first()
            };
            let nc = if seg_end(c) {
                c
            } else {
                c.drop_first()
            };
            deb_order_transitive(na, nb, nc);
        }
    }
}

proof fn lemma_num_antisym(x: Seq<char>, y: Seq<char>)
    ensures
        num_order(x, y) == -num_order(y, x),
{
    lemma_lex_refl_antisym(strip_zeros(x), strip_zeros(y));
}

/// Two strings that compare equal to a third compare equal to each other, and
/// a strict step in a chain of steps makes the chain strict.
pub proof fn deb_order_chain(a: Seq<char>, b: Seq<char>, c: Seq<char>)
    requires
        deb_order(a, b) <= 0,
        deb_order(b, c) <= 0,
    ensures
        deb_order(a, b) == 0 && deb_order(b, c) == 0 ==> deb_order(a, c) == 0,
        deb_order(a, b) < 0 || deb_order(b, c) < 0 ==> deb_order(a, c) < 0,
{
    deb_order_transitive(a, b, c);
    deb_order_antisymmetric(a, b);
    deb_order_antisymmetric(b, c);
    deb_order_antisymmetric(a, c);
    if deb_order(a, c) == 0 {
        if deb_order(a, b) == 0 {
            deb_order_transitive(c, a, b);
        } else if deb_order(b, c) < 0 {
            deb_order_transitive(c, a, b);
        } else {
            deb_order_transitive(b, c, a);
        }
    } else if deb_order(a, b) == 0 && deb_order(b, c) == 0 {
        deb_order_transitive(c, b, a);
    }
}

/// The version ordering is transitive.
pub proof fn version_order_transitive(x: VersionView, y: VersionView, z: VersionView)
    requires
        version_order(x, y) <= 0,
        version_order(y, z) <= 0,
    ensures
        version_order(x, z) <= 0,
{
    if x.epoch == y.epoch && y.epoch == z.epoch {
        if deb_order(x.upstream, y.upstream) <= 0 && deb_order(y.upstream, z.upstream) <= 0 {
            deb_order_chain(x.upstream, y.upstream, z.upstream);
            if deb_order(x.upstream, y.upstream) == 0 && deb_order(y.upstream, z.upstream) == 0 {
                deb_order_transitive(x.revision, y.revision, z.revision);
            }
        }
    }
}

/// What a successful parse says of the parts of the version.
proof fn lemma_parsed_parts(s: Seq<char>, v: VersionView)
    requires
        parse_version_spec(s) == Ok::<VersionView, VersionErrorKind>(v),
    ensures
        v.epoch <= 0xffff_ffff,
        forall|k: int| 0 <= k < v.upstream.len() ==> valid_version_char(#[trigger] v.upstream[k]),
        forall|k: int| 0 <= k < v.revision.len() ==> valid_version_char(#[trigger] v.revision[k]) && v.revision[k] != '-',
{
    lemma_index_of(s, ':');
    let c = index_of(s, ':');
    let rest = if c >= s.len() {
        s
    } else {
        s.skip((c + 1) as int)
    };
    lemma_first_invalid(rest);
    lemma_rindex_of(rest, '-');
    let d = rindex_of(rest, '-');
    assert forall|k: int| 0 <= k < v.upstream.len() implies valid_version_char(#[trigger] v.upstream[k]) by {
        assert(v.upstream[k] == rest[k]);
    }
    assert forall|k: int| 0 <= k < v.revision.len() implies valid_version_char(#[trigger] v.revision[k])
        && v.revision[k] != '-' by {
        assert(d < rest.len());
        assert(v.revision[k] == rest[d + 1 + k]);
    }
}

/// The text after the epoch of a display: the upstream, then `-` and the
/// revision when the dash is shown.
pub open spec fn display_body(v: VersionView) -> Seq<char> {
    v.upstream + if shows_dash(v) {
        seq!['-'] + v.revision
    } else {
        Seq::<char>::empty()
    }
}

/// How the parse splits the body of a display: back into the upstream and
/// the revision.
proof fn lemma_body_parts(v: VersionView)
    requires
        forall|k: int| 0 <= k < v.upstream.len() ==> valid_version_char(#[trigger] v.upstream[k]),
        forall|k: int| 0 <= k < v.revision.len() ==> valid_version_char(#[trigger] v.revision[k]) && v.revision[k] != '-',
    ensures
        display_body(v).len() > 0,
        first_invalid(display_body(v)) == display_body(v).len(),
        shows_dash(v) ==> rindex_of(display_body(v), '-') == v.upstream.len()
            && display_body(v).take(v.upstream.len() as int) == v.upstream
            && display_body(v).skip((v.upstream.len() + 1) as int) == v.revision,
        !shows_dash(v) ==> rindex_of(display_body(v), '-') == display_body(v).len() && display_body(v) == v.upstream
            && v.revision.len() == 0,
{
    let body = display_body(v);
    assert forall|k: int| 0 <= k < body.len() implies valid_version_char(body[k]) by {
        if k < v.upstream.len() {
            assert(body[k] == v.upstream[k]);
        } else if k == v.upstream.len() {
            assert(body[k] == '-');
        } else {
            assert(body[k] == v.revision[k - v.upstream.len() - 1]);
        }
    }
    lemma_first_invalid_none(body);
    if shows_dash(v) {
        assert(body[v.upstream.len() as int] == '-');
        assert forall|m: int| v.upstream.len() < m < body.len() implies body[m] != '-' by {
            assert(body[m] == v.revision[m - v.upstream.len() - 1]);
        }
        lemma_rindex_of_last(body, '-', v.upstream.len() as int);
        assert(body.take(v.upstream.len() as int) =~= v.upstream);
        assert(body.skip((v.upstream.len() + 1) as int) =~= v.revision);
    } else {
        assert(body =~= v.upstream);
        assert forall|m: int| 0 <= m < body.len() implies body[m] != '-' by {
            if body[m] == '-' {
                assert(v.upstream.contains('-'));
            }
        }
        lemma_rindex_absent(body, '-');
    }
}

/// How the parse splits a display at its first `:`: the epoch, and the body.
proof fn lemma_epoch_parts(v: VersionView)
    requires
        v.epoch <= 0xffff_ffff,
        forall|k: int| 0 <= k < v.revision.len() ==> v.revision[k] != '-',
    ensures
        ({
            let t = display_version(v);
            let c = index_of(t, ':');
            &&& (c >= t.len() || parse_unsigned(t.take(c as int), 0xffff_ffff) is Some)
            &&& (if c >= t.len() {
                0
            } else {
                parse_unsigned(t.take(c as int), 0xffff_ffff)->0
            }) == v.epoch
            &&& (if c >= t.len() {
                t
            } else {
                t.skip((c + 1) as int)
            }) == display_body(v)
        }),
{
    let t = display_version(v);
    let body = display_body(v);
    lemma_index_of(t, ':');
    let c = index_of(t, ':');
    if shows_epoch(v) {
        lemma_dec(v.epoch);
        let ds = dec(v.epoch);
        assert(t =~= ds + seq![':'] + body);
        assert(t[ds.len() as int] == ':');
        assert forall|k: int| 0 <= k < ds.len() implies t[k] != ':' by {
            assert(t[k] == ds[k]);
            assert(is_digit(ds[k]));
        }
        assert(c == ds.len());
        assert(t.take(c as int) =~= ds);
        assert(ds[0] != '+') by {
            assert(is_digit(ds[0]));
        }
        assert(parse_unsigned(ds, 0xffff_ffff) == Some(v.epoch));
        assert(t.skip((c + 1) as int) =~= body);
    } else {
        assert(t =~= body);
        assert forall|k: int| 0 <= k < t.len() implies t[k] != ':' by {
            if t[k] == ':' {
                if k < v.upstream.len() {
                    assert((v.upstream + v.revision)[k] == ':');
                } else if k > v.upstream.len() {
                    assert((v.upstream + v.revision)[k - 1] == v.revision[k - v.upstream.len() - 1]);
                } else {
                    assert(t[k] == '-');
                }
                assert((v.upstream + v.revision).contains(':'));
            }
        }
        assert(c >= t.len());
    }
}

/// Displaying a parsed version and parsing the text again gives the same
/// version.
pub proof fn lemma_parse_display_round_trip(s: Seq<char>, v: VersionView)
    requires
        parse_version_spec(s) == Ok::<VersionView, VersionErrorKind>(v),
    ensures
        parse_version_spec(display_version(v)) == Ok::<VersionView, VersionErrorKind>(v),
{
    lemma_parsed_parts(s, v);
    lemma_body_parts(v);
    lemma_epoch_parts(v);
    let t = display_version(v);
    let body = display_body(v);
    assert(t.len() > 0) by {
        if shows_epoch(v) {
            assert(t.len() >= body.len());
        } else {
            assert(t =~= body);
        }
    }
    if !shows_dash(v) {
        assert(v.revision =~= Seq::<char>::empty());
        assert(v == VersionView { epoch: v.epoch, upstream: body, revision: Seq::empty() });
    } else {
        assert(v == VersionView {
            epoch: v.epoch,
            upstream: body.take(v.upstream.len() as int),
            revision: body.skip((v.upstream.len() + 1) as int),
        });
    }
}

} // verus!
