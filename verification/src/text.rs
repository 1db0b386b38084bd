//! Character-sequence primitives shared by every text format in the crate:
//! trimming, splitting into words, lines and fields, and conversions
//! between `&str`, `String` and `Vec<char>`.

use vstd::prelude::*;

verus! {

// ─── Character classes ────────────────────────────────────────────────────────

/// Unicode `White_Space` (what `char::is_whitespace` accepts).
pub open spec fn is_ws(c: char) -> bool {
    ||| ('\u{9}' <= c && c <= '\u{d}')
    ||| c == ' '
    ||| c == '\u{85}'
    ||| c == '\u{a0}'
    ||| c == '\u{1680}'
    ||| ('\u{2000}' <= c && c <= '\u{200a}')
    ||| c == '\u{2028}'
    ||| c == '\u{2029}'
    ||| c == '\u{202f}'
    ||| c == '\u{205f}'
    ||| c == '\u{3000}'
}

/// ASCII whitespace as `char::is_ascii_whitespace` defines it.
pub open spec fn is_ascii_ws(c: char) -> bool {
    c == ' ' || c == '\t' || c == '\n' || c == '\u{c}' || c == '\r'
}

/// The separator class used by a word split: ASCII-only or full Unicode.
pub open spec fn sep(c: char, ascii: bool) -> bool {
    if ascii {
        is_ascii_ws(c)
    } else {
        is_ws(c)
    }
}

pub open spec fn is_digit(c: char) -> bool {
    '0' <= c && c <= '9'
}

pub open spec fn is_ascii_alpha(c: char) -> bool {
    ('a' <= c && c <= 'z') || ('A' <= c && c <= 'Z')
}

pub open spec fn is_ascii_alnum(c: char) -> bool {
    is_digit(c) || is_ascii_alpha(c)
}

pub fn is_ws_exec(c: char) -> (r: bool)
    ensures
        r == is_ws(c),
{
    ('\u{9}' <= c && c <= '\u{d}') || c == ' ' || c == '\u{85}' || c == '\u{a0}' || c
        == '\u{1680}' || ('\u{2000}' <= c && c <= '\u{200a}') || c == '\u{2028}' || c
        == '\u{2029}' || c == '\u{202f}' || c == '\u{205f}' || c == '\u{3000}'
}

pub fn sep_exec(c: char, ascii: bool) -> (r: bool)
    ensures
        r == sep(c, ascii),
{
    if ascii {
        c == ' ' || c == '\t' || c == '\n' || c == '\u{c}' || c == '\r'
    } else {
        is_ws_exec(c)
    }
}

// ─── Conversions ──────────────────────────────────────────────────────────────

/// The characters of `s`, in order.
pub fn chars_of(s: &str) -> (r: Vec<char>)
    ensures
        r@ == s@,
{
    let mut out: Vec<char> = Vec::new();
    for c in it: s.chars()
        invariant
            out@ == it.seq().take(it.index() as int),
            it.seq() == s@,
    {
        out.push(c);
    }
    out
}

/// Appends one character to a `String`.
///
/// Wraps `String::push`, whose documentation states that it appends the
/// given `char` to the end of the string.
#[verifier::external_body]
pub fn push_char(s: &mut String, c: char)
    ensures
        final(s)@ == old(s)@.push(c),
{
    s.push(c);
}

/// Appends `v[lo..hi]` to `out`.
pub fn push_range(out: &mut String, v: &Vec<char>, lo: usize, hi: usize)
    requires
        lo <= hi <= v@.len(),
    ensures
        final(out)@ == old(out)@ + v@.subrange(lo as int, hi as int),
{
    let mut i = lo;
    while i < hi
        invariant
            lo <= i <= hi <= v@.len(),
            out@ == old(out)@ + v@.subrange(lo as int, i as int),
        decreases hi - i,
    {
        push_char(out, v[i]);
        i = i + 1;
        assert(out@ =~= old(out)@ + v@.subrange(lo as int, i as int));
    }
}

/// Appends all characters of `v` to `out`.
pub fn push_chars(out: &mut String, v: &Vec<char>)
    ensures
        final(out)@ == old(out)@ + v@,
{
    push_range(out, v, 0, v.len());
    assert(v@.subrange(0, v@.len() as int) =~= v@);
}

/// Appends `s` to `out`.
pub fn push_str(out: &mut String, s: &str)
    ensures
        final(out)@ == old(out)@ + s@,
{
    let v = chars_of(s);
    push_chars(out, &v);
}

/// A new `String` holding `v[lo..hi]`.
pub fn string_of_range(v: &Vec<char>, lo: usize, hi: usize) -> (r: String)
    requires
        lo <= hi <= v@.len(),
    ensures
        r@ == v@.subrange(lo as int, hi as int),
{
    let mut out = String::new();
    push_range(&mut out, v, lo, hi);
    assert(out@ =~= v@.subrange(lo as int, hi as int));
    out
}

/// A new `String` holding all of `v`.
pub fn string_of(v: &Vec<char>) -> (r: String)
    ensures
        r@ == v@,
{
    let r = string_of_range(v, 0, v.len());
    assert(v@.subrange(0, v@.len() as int) =~= v@);
    r
}

/// An owned copy of `s`.
pub fn own(s: &str) -> (r: String)
    ensures
        r@ == s@,
{
    s.to_owned()
}

/// `v[lo..hi]` as a vector of characters.
pub fn slice_of(v: &Vec<char>, lo: usize, hi: usize) -> (r: Vec<char>)
    requires
        lo <= hi <= v@.len(),
    ensures
        r@ == v@.subrange(lo as int, hi as int),
{
    let mut out: Vec<char> = Vec::new();
    let mut i = lo;
    while i < hi
        invariant
            lo <= i <= hi <= v@.len(),
            out@ == v@.subrange(lo as int, i as int),
        decreases hi - i,
    {
        out.push(v[i]);
        i = i + 1;
        assert(out@ =~= v@.subrange(lo as int, i as int));
    }
    out
}

/// Character-sequence equality.
pub fn chars_eq(a: &Vec<char>, b: &Vec<char>) -> (r: bool)
    ensures
        r == (a@ == b@),
{
    if a.len() != b.len() {
        return false;
    }
    let mut i: usize = 0;
    while i < a.len()
        invariant
            a@.len() == b@.len(),
            0 <= i <= a@.len(),
            forall|k: int| 0 <= k < i ==> a@[k] == b@[k],
        decreases a.len() - i,
    {
        if a[i] != b[i] {
            return false;
        }
        i = i + 1;
    }
    assert(a@ =~= b@);
    true
}

/// Equality of two string slices by their characters.
pub fn str_eq(a: &str, b: &str) -> (r: bool)
    ensures
        r == (a@ == b@),
{
    let x = chars_of(a);
    let y = chars_of(b);
    chars_eq(&x, &y)
}

/// Does `v[i..]` start with `p`?
pub open spec fn matches_at(s: Seq<char>, p: Seq<char>, i: int) -> bool {
    0 <= i && i + p.len() <= s.len() && s.subrange(i, i + p.len()) == p
}

pub fn matches_at_exec(v: &Vec<char>, p: &Vec<char>, i: usize) -> (r: bool)
    ensures
        r == matches_at(v@, p@, i as int),
{
    if i > v.len() || p.len() > v.len() - i {
        return false;
    }
    let mut k: usize = 0;
    while k < p.len()
        invariant
            i + p@.len() <= v@.len(),
            0 <= k <= p@.len(),
            forall|m: int| 0 <= m < k ==> v@[i + m] == p@[m],
        decreases p.len() - k,
    {
        assert(i + k < v.len());
        if v[i + k] != p[k] {
            assert(v@.subrange(i as int, i + p@.len())[k as int] != p@[k as int]);
            return false;
        }
        k = k + 1;
    }
    assert(v@.subrange(i as int, i + p@.len()) =~= p@);
    true
}

/// `s` starts with `p`.
pub open spec fn starts_with(s: Seq<char>, p: Seq<char>) -> bool {
    p.len() <= s.len() && s.take(p.len() as int) == p
}

/// `s` ends with `p`.
pub open spec fn ends_with(s: Seq<char>, p: Seq<char>) -> bool {
    p.len() <= s.len() && s.skip(s.len() - p.len()) == p
}

pub fn starts_with_exec(v: &Vec<char>, p: &Vec<char>) -> (r: bool)
    ensures
        r == starts_with(v@, p@),
{
    let r = matches_at_exec(v, p, 0);
    proof {
        if p@.len() <= v@.len() {
            assert(v@.subrange(0, p@.len() as int) =~= v@.take(p@.len() as int));
        }
    }
    r
}

pub fn str_starts_with(s: &str, p: &str) -> (r: bool)
    ensures
        r == starts_with(s@, p@),
{
    let v = chars_of(s);
    let w = chars_of(p);
    starts_with_exec(&v, &w)
}

// ─── Trimming ─────────────────────────────────────────────────────────────────

/// `s` without leading whitespace (`str::trim_start`).
pub open spec fn trim_start(s: Seq<char>) -> Seq<char>
    decreases s.len(),
{
    if s.len() > 0 && is_ws(s[0]) {
        trim_start(s.drop_first())
    } else {
        s
    }
}

/// `s` without trailing whitespace (`str::trim_end`).
pub open spec fn trim_end(s: Seq<char>) -> Seq<char>
    decreases s.len(),
{
    if s.len() > 0 && is_ws(s.last()) {
        trim_end(s.drop_last())
    } else {
        s
    }
}

/// `s` without surrounding whitespace (`str::trim`).
pub open spec fn trim(s: Seq<char>) -> Seq<char> {
    trim_end(trim_start(s))
}

/// First index at or after `lo` (and below `hi`) that is not whitespace.
pub fn skip_ws_fwd(v: &Vec<char>, lo: usize, hi: usize) -> (r: usize)
    requires
        lo <= hi <= v@.len(),
    ensures
        lo <= r <= hi,
        trim_start(v@.subrange(lo as int, hi as int)) == v@.subrange(r as int, hi as int),
        forall|k: int| lo <= k < r ==> is_ws(#[trigger] v@[k]),
        r < hi ==> !is_ws(v@[r as int]),
{
    let mut i = lo;
    while i < hi && is_ws_exec(v[i])
        invariant
            lo <= i <= hi <= v@.len(),
            trim_start(v@.subrange(lo as int, hi as int)) == trim_start(
                v@.subrange(i as int, hi as int),
            ),
            forall|k: int| lo <= k < i ==> is_ws(#[trigger] v@[k]),
        decreases hi - i,
    {
        assert(v@.subrange(i as int, hi as int).drop_first() =~= v@.subrange(i + 1, hi as int));
        i = i + 1;
    }
    i
}

/// Last boundary at or below `hi` (and above `lo`) with no whitespace just before it.
pub fn skip_ws_back(v: &Vec<char>, lo: usize, hi: usize) -> (r: usize)
    requires
        lo <= hi <= v@.len(),
    ensures
        lo <= r <= hi,
        trim_end(v@.subrange(lo as int, hi as int)) == v@.subrange(lo as int, r as int),
        forall|k: int| r <= k < hi ==> is_ws(#[trigger] v@[k]),
        r > lo ==> !is_ws(v@[r - 1]),
{
    let mut j = hi;
    while j > lo && is_ws_exec(v[j - 1])
        invariant
            lo <= j <= hi <= v@.len(),
            trim_end(v@.subrange(lo as int, hi as int)) == trim_end(
                v@.subrange(lo as int, j as int),
            ),
            forall|k: int| j <= k < hi ==> is_ws(#[trigger] v@[k]),
        decreases j - lo,
    {
        assert(v@.subrange(lo as int, j as int).drop_last() =~= v@.subrange(lo as int, j - 1));
        j = j - 1;
    }
    j
}

/// Bounds `(a, b)` such that `v[a..b]` is `trim(v[lo..hi])`.
pub fn trim_bounds(v: &Vec<char>, lo: usize, hi: usize) -> (r: (usize, usize))
    requires
        lo <= hi <= v@.len(),
    ensures
        lo <= r.0 <= r.1 <= hi,
        trim(v@.subrange(lo as int, hi as int)) == v@.subrange(r.0 as int, r.1 as int),
{
    let a = skip_ws_fwd(v, lo, hi);
    let b = skip_ws_back(v, a, hi);
    (a, b)
}

/// `trim(s)` as an owned string.
pub fn trim_str(s: &str) -> (r: String)
    ensures
        r@ == trim(s@),
{
    let v = chars_of(s);
    let (a, b) = trim_bounds(&v, 0, v.len());
    assert(v@.subrange(0, v@.len() as int) =~= v@);
    string_of_range(&v, a, b)
}

/// `trim(v)` as a vector.
pub fn trim_vec(v: &Vec<char>) -> (r: Vec<char>)
    ensures
        r@ == trim(v@),
{
    let (a, b) = trim_bounds(v, 0, v.len());
    assert(v@.subrange(0, v@.len() as int) =~= v@);
    slice_of(v, a, b)
}

// ─── Searching ────────────────────────────────────────────────────────────────

/// Offset of the first `c` in `s`, or `s.len()` when absent.
pub open spec fn index_of(s: Seq<char>, c: char) -> nat
    decreases s.len(),
{
    if s.len() == 0 {
        0
    } else if s[0] == c {
        0
    } else {
        1 + index_of(s.drop_first(), c)
    }
}

pub proof fn lemma_index_of(s: Seq<char>, c: char)
    ensures
        index_of(s, c) <= s.len(),
        index_of(s, c) < s.len() ==> s[index_of(s, c) as int] == c,
        forall|k: int| 0 <= k < index_of(s, c) ==> s[k] != c,
    decreases s.len(),
{
    if s.len() > 0 && s[0] != c {
        lemma_index_of(s.drop_first(), c);
        assert forall|k: int| 0 <= k < index_of(s, c) implies s[k] != c by {
            if k > 0 {
                assert(s[k] == s.drop_first()[k - 1]);
            }
        }
    }
}

/// First index `r >= lo` (below `hi`) holding `c`, or `hi`.
pub fn find_char(v: &Vec<char>, lo: usize, hi: usize, c: char) -> (r: usize)
    requires
        lo <= hi <= v@.len(),
    ensures
        lo <= r <= hi,
        r == lo + index_of(v@.subrange(lo as int, hi as int), c),
        r < hi ==> v@[r as int] == c,
        forall|k: int| lo <= k < r ==> v@[k] != c,
{
    let mut i = lo;
    while i < hi && v[i] != c
        invariant
            lo <= i <= hi <= v@.len(),
            lo + index_of(v@.subrange(lo as int, hi as int), c) == i + index_of(
                v@.subrange(i as int, hi as int),
                c,
            ),
            forall|k: int| lo <= k < i ==> v@[k] != c,
        decreases hi - i,
    {
        assert(v@.subrange(i as int, hi as int).drop_first() =~= v@.subrange(i + 1, hi as int));
        i = i + 1;
    }
    i
}

/// Offset of the first occurrence of `p` (non-empty) in `s`, or `s.len()`.
pub open spec fn find_sub(s: Seq<char>, p: Seq<char>) -> nat
    decreases s.len(),
{
    if s.len() < p.len() || s.len() == 0 {
        s.len()
    } else if s.take(p.len() as int) == p {
        0
    } else {
        1 + find_sub(s.drop_first(), p)
    }
}

pub proof fn lemma_find_sub(s: Seq<char>, p: Seq<char>)
    requires
        p.len() > 0,
    ensures
        find_sub(s, p) <= s.len(),
        find_sub(s, p) < s.len() ==> find_sub(s, p) + p.len() <= s.len() && s.subrange(
            find_sub(s, p) as int,
            (find_sub(s, p) + p.len()) as int,
        ) == p,
    decreases s.len(),
{
    if s.len() < p.len() || s.len() == 0 {
    } else if s.take(p.len() as int) == p {
        assert(s.subrange(0, p.len() as int) =~= s.take(p.len() as int));
    } else {
        lemma_find_sub(s.drop_first(), p);
        let j = find_sub(s.drop_first(), p);
        if j < s.len() - 1 {
            assert(s.subrange((j + 1) as int, (j + 1 + p.len()) as int) =~= s.drop_first().subrange(
                j as int,
                (j + p.len()) as int,
            ));
        }
    }
}

/// First index `r >= lo` where `p` (non-empty) occurs within `v[lo..hi]`, or `hi`.
pub fn find_sub_exec(v: &Vec<char>, lo: usize, hi: usize, p: &Vec<char>) -> (r: usize)
    requires
        lo <= hi <= v@.len(),
        p@.len() > 0,
    ensures
        lo <= r <= hi,
        r == lo + find_sub(v@.subrange(lo as int, hi as int), p@),
{
    let mut i = lo;
    while i < hi
        invariant
            lo <= i <= hi <= v@.len(),
            p@.len() > 0,
            lo + find_sub(v@.subrange(lo as int, hi as int), p@) == i + find_sub(
                v@.subrange(i as int, hi as int),
                p@,
            ),
        decreases hi - i,
    {
        let ghost s = v@.subrange(i as int, hi as int);
        if p.len() > hi - i {
            return hi;
        }
        let m = matches_at_exec(v, p, i);
        assert(s.take(p@.len() as int) =~= v@.subrange(i as int, i + p@.len()));
        if m {
            return i;
        }
        assert(s.drop_first() =~= v@.subrange(i + 1, hi as int));
        i = i + 1;
    }
    i
}

/// The character sequences held by a sequence of vectors.
pub open spec fn views(r: Seq<Vec<char>>) -> Seq<Seq<char>> {
    Seq::new(r.len(), |i: int| r[i]@)
}

/// The character sequences held by a sequence of strings.
pub open spec fn sviews(r: Seq<String>) -> Seq<Seq<char>> {
    Seq::new(r.len(), |i: int| r[i]@)
}

// ─── Splitting ────────────────────────────────────────────────────────────────

/// `str::split` on a single character.
pub open spec fn split_char(s: Seq<char>, c: char) -> Seq<Seq<char>>
    decreases s.len(),
{
    let j = index_of(s, c);
    if j >= s.len() {
        seq![s]
    } else {
        proof {
            lemma_index_of(s, c);
        }
        seq![s.take(j as int)] + split_char(s.skip((j + 1) as int), c)
    }
}

/// `str::split` on a non-empty string pattern.
pub open spec fn split_str(s: Seq<char>, p: Seq<char>) -> Seq<Seq<char>>
    decreases s.len(),
{
    if p.len() == 0 {
        seq![s]
    } else {
        let j = find_sub(s, p);
        if j >= s.len() {
            seq![s]
        } else {
            proof {
                lemma_find_sub(s, p);
            }
            seq![s.take(j as int)] + split_str(s.skip((j + p.len()) as int), p)
        }
    }
}

/// `s` without one trailing `'\r'`.
pub open spec fn strip_cr(s: Seq<char>) -> Seq<char> {
    if s.len() > 0 && s.last() == '\r' {
        s.drop_last()
    } else {
        s
    }
}

/// `str::lines`: split at `'\n'`, drop a final empty piece, and strip the
/// `'\r'` of every `"\r\n"` terminator.
pub open spec fn lines(s: Seq<char>) -> Seq<Seq<char>> {
    let parts = split_char(s, '\n');
    let kept = if parts.last().len() == 0 {
        parts.drop_last()
    } else {
        parts
    };
    Seq::new(
        kept.len(),
        |i: int|
            if i < parts.len() - 1 {
                strip_cr(kept[i])
            } else {
                kept[i]
            },
    )
}

/// Each of `ls` followed by a newline.
pub open spec fn unlines(ls: Seq<Seq<char>>) -> Seq<char>
    decreases ls.len(),
{
    if ls.len() == 0 {
        Seq::empty()
    } else {
        ls[0] + "\n"@ + unlines(ls.drop_first())
    }
}

/// Splitting at the first newline.
pub proof fn lemma_split_char_cons(x: Seq<char>, b: Seq<char>, c: char)
    requires
        !x.contains(c),
    ensures
        split_char(x + seq![c] + b, c) == seq![x] + split_char(b, c),
{
    let s = x + seq![c] + b;
    lemma_index_of(s, c);
    let j = index_of(s, c);
    assert(s[x.len() as int] == c);
    if j < x.len() {
        assert(s[j as int] == x[j as int]);
        assert(x.contains(c));
    }
    assert forall|k: int| 0 <= k < x.len() implies s[k] != c by {
        assert(s[k] == x[k]);
        if s[k] == c {
            assert(x.contains(c));
        }
    }
    assert(j == x.len());
    assert(s.take(j as int) =~= x);
    assert(s.skip((j + 1) as int) =~= b);
}

/// The lines of a text that starts with a line `x` and its newline.
pub proof fn lemma_lines_cons(x: Seq<char>, b: Seq<char>)
    requires
        !x.contains('\n'),
    ensures
        lines(x + "\n"@ + b) == seq![strip_cr(x)] + lines(b),
{
    reveal_strlit("\n");
    assert("\n"@ =~= seq!['\n']);
    lemma_split_char_cons(x, b, '\n');
    lemma_split_char_nonempty(b, '\n');
    let s = x + "\n"@ + b;
    let pb = split_char(b, '\n');
    let parts = split_char(s, '\n');
    assert(parts =~= seq![x] + pb);
    assert(parts.last() == pb.last());
    assert(lines(s) =~= seq![strip_cr(x)] + lines(b));
}

/// The lines of `unlines(ls)` are `ls`, when no line holds a newline or
/// ends with a carriage return.
pub proof fn lemma_lines_unlines(ls: Seq<Seq<char>>)
    requires
        forall|i: int| 0 <= i < ls.len() ==> !(#[trigger] ls[i]).contains('\n') && strip_cr(ls[i]) == ls[i],
    ensures
        lines(unlines(ls)) == ls,
    decreases ls.len(),
{
    if ls.len() == 0 {
        lemma_split_char_nonempty(Seq::<char>::empty(), '\n');
        assert(split_char(Seq::<char>::empty(), '\n') =~= seq![Seq::<char>::empty()]);
        assert(lines(unlines(ls)) =~= ls);
    } else {
        let rest = ls.drop_first();
        assert forall|i: int| 0 <= i < rest.len() implies !(#[trigger] rest[i]).contains('\n') && strip_cr(rest[i])
            == rest[i] by {
            assert(rest[i] == ls[i + 1]);
        }
        lemma_lines_unlines(rest);
        assert(ls[0] == ls[0]);
        lemma_lines_cons(ls[0], unlines(rest));
        assert(lines(unlines(ls)) =~= seq![ls[0]] + rest);
        assert(seq![ls[0]] + rest =~= ls);
    }
}

pub proof fn lemma_unlines_push(ls: Seq<Seq<char>>, x: Seq<char>)
    ensures
        unlines(ls.push(x)) == unlines(ls) + x + "\n"@,
    decreases ls.len(),
{
    if ls.len() == 0 {
        let e = Seq::<Seq<char>>::empty();
        assert(ls.push(x).drop_first() =~= e);
        assert(unlines(e) == Seq::<char>::empty());
        assert(unlines(ls) == Seq::<char>::empty());
        assert(ls.push(x)[0] == x);
        assert(unlines(ls.push(x)) == x + "\n"@ + unlines(e));
        assert(unlines(ls.push(x)) =~= unlines(ls) + x + "\n"@);
    } else {
        lemma_unlines_push(ls.drop_first(), x);
        assert(ls.push(x).drop_first() =~= ls.drop_first().push(x));
        assert(unlines(ls.push(x)) =~= unlines(ls) + x + "\n"@);
    }
}

/// Joining with newlines and ending with one is writing each line with its
/// newline, for at least one line.
pub proof fn lemma_join_unlines(ls: Seq<Seq<char>>)
    requires
        ls.len() > 0,
    ensures
        join(ls, "\n"@) + "\n"@ == unlines(ls),
    decreases ls.len(),
{
    if ls.len() == 1 {
        let e = Seq::<Seq<char>>::empty();
        assert(ls.drop_first() =~= e);
        assert(unlines(e) == Seq::<char>::empty());
        assert(unlines(ls) == ls[0] + "\n"@ + unlines(e));
        assert(unlines(ls) =~= ls[0] + "\n"@);
    } else {
        lemma_join_unlines(ls.drop_last());
        lemma_unlines_push(ls.drop_last(), ls.last());
        assert(ls.drop_last().push(ls.last()) =~= ls);
        assert(join(ls, "\n"@) + "\n"@ =~= unlines(ls.drop_last()) + ls.last() + "\n"@);
    }
}

pub proof fn lemma_split_char_nonempty(s: Seq<char>, c: char)
    ensures
        split_char(s, c).len() >= 1,
    decreases s.len(),
{
    lemma_index_of(s, c);
}

/// Pieces of `v[lo..hi]` split at `c`.
pub fn split_char_exec(v: &Vec<char>, lo: usize, hi: usize, c: char) -> (r: Vec<Vec<char>>)
    requires
        lo <= hi <= v@.len(),
    ensures
        views(r@) == split_char(v@.subrange(lo as int, hi as int), c),
{
    let mut out: Vec<Vec<char>> = Vec::new();
    let mut i = lo;
    loop
        invariant
            lo <= i <= hi <= v@.len(),
            split_char(v@.subrange(lo as int, hi as int), c) == views(out@) + split_char(
                v@.subrange(i as int, hi as int),
                c,
            ),
        decreases hi - i,
    {
        let ghost s = v@.subrange(i as int, hi as int);
        let j = find_char(v, i, hi, c);
        proof {
            lemma_index_of(s, c);
        }
        let piece = slice_of(v, i, j);
        if j >= hi {
            let ghost before = views(out@);
            proof {
                assert(piece@ =~= s);
                assert(before.push(piece@) =~= before + split_char(s, c));
            }
            out.push(piece);
            proof {
                assert(views(out@) =~= before.push(piece@));
            }
            return out;
        }
        proof {
            assert(piece@ =~= s.take((j - i) as int));
            assert(s.skip(j - i + 1) =~= v@.subrange(j + 1, hi as int));
            assert(split_char(s, c) == seq![piece@] + split_char(
                v@.subrange(j + 1, hi as int),
                c,
            ));
        }
        let ghost before = views(out@);
        out.push(piece);
        proof {
            assert(views(out@) =~= before.push(piece@));
            assert(before + (seq![piece@] + split_char(v@.subrange(j + 1, hi as int), c))
                =~= before.push(piece@) + split_char(v@.subrange(j + 1, hi as int), c));
        }
        i = j + 1;
    }
}


/// Pieces of `v[lo..hi]` split at every occurrence of the non-empty `p`.
pub fn split_str_exec(v: &Vec<char>, lo: usize, hi: usize, p: &Vec<char>) -> (r: Vec<Vec<char>>)
    requires
        lo <= hi <= v@.len(),
        p@.len() > 0,
    ensures
        views(r@) == split_str(v@.subrange(lo as int, hi as int), p@),
{
    let mut out: Vec<Vec<char>> = Vec::new();
    let mut i = lo;
    loop
        invariant
            lo <= i <= hi <= v@.len(),
            p@.len() > 0,
            split_str(v@.subrange(lo as int, hi as int), p@) == views(out@) + split_str(
                v@.subrange(i as int, hi as int),
                p@,
            ),
        decreases hi - i,
    {
        let ghost s = v@.subrange(i as int, hi as int);
        let j = find_sub_exec(v, i, hi, p);
        proof {
            lemma_find_sub(s, p@);
        }
        let piece = slice_of(v, i, j);
        let ghost before = views(out@);
        if j >= hi {
            proof {
                assert(piece@ =~= s);
                assert(before.push(piece@) =~= before + split_str(s, p@));
            }
            out.push(piece);
            proof {
                assert(views(out@) =~= before.push(piece@));
            }
            return out;
        }
        let nj = j + p.len();
        proof {
            assert(piece@ =~= s.take((j - i) as int));
            assert(s.skip(nj - i) =~= v@.subrange(nj as int, hi as int));
            assert(split_str(s, p@) == seq![piece@] + split_str(
                v@.subrange(nj as int, hi as int),
                p@,
            ));
        }
        out.push(piece);
        proof {
            assert(views(out@) =~= before.push(piece@));
            assert(before + (seq![piece@] + split_str(v@.subrange(nj as int, hi as int), p@))
                =~= before.push(piece@) + split_str(v@.subrange(nj as int, hi as int), p@));
        }
        i = nj;
    }
}

/// Length of the leading run of non-separator characters.
pub open spec fn word_len(s: Seq<char>, ascii: bool) -> nat
    decreases s.len(),
{
    if s.len() == 0 || sep(s[0], ascii) {
        0
    } else {
        1 + word_len(s.drop_first(), ascii)
    }
}

pub proof fn lemma_word_len(s: Seq<char>, ascii: bool)
    ensures
        word_len(s, ascii) <= s.len(),
        s.len() > 0 && !sep(s[0], ascii) ==> word_len(s, ascii) >= 1,
    decreases s.len(),
{
    if s.len() > 0 && !sep(s[0], ascii) {
        lemma_word_len(s.drop_first(), ascii);
    }
}

/// `str::split_whitespace` (`ascii == false`) or
/// `str::split_ascii_whitespace` (`ascii == true`).
pub open spec fn words(s: Seq<char>, ascii: bool) -> Seq<Seq<char>>
    decreases s.len(),
{
    if s.len() == 0 {
        seq![]
    } else if sep(s[0], ascii) {
        words(s.drop_first(), ascii)
    } else {
        let k = word_len(s, ascii);
        proof {
            lemma_word_len(s, ascii);
        }
        seq![s.take(k as int)] + words(s.skip(k as int), ascii)
    }
}

/// Words of `v[lo..hi]`.
pub fn words_exec(v: &Vec<char>, lo: usize, hi: usize, ascii: bool) -> (r: Vec<Vec<char>>)
    requires
        lo <= hi <= v@.len(),
    ensures
        views(r@) == words(v@.subrange(lo as int, hi as int), ascii),
{
    let mut out: Vec<Vec<char>> = Vec::new();
    let mut i = lo;
    while i < hi
        invariant
            lo <= i <= hi <= v@.len(),
            words(v@.subrange(lo as int, hi as int), ascii) == views(out@) + words(
                v@.subrange(i as int, hi as int),
                ascii,
            ),
        decreases hi - i,
    {
        let ghost s = v@.subrange(i as int, hi as int);
        if sep_exec(v[i], ascii) {
            assert(s.drop_first() =~= v@.subrange(i + 1, hi as int));
            i = i + 1;
        } else {
            let mut j = i;
            while j < hi && !sep_exec(v[j], ascii)
                invariant
                    i <= j <= hi <= v@.len(),
                    word_len(s, ascii) == (j - i) + word_len(v@.subrange(j as int, hi as int), ascii),
                decreases hi - j,
            {
                assert(v@.subrange(j as int, hi as int).drop_first() =~= v@.subrange(j + 1, hi as int));
                j = j + 1;
            }
            proof {
                lemma_word_len(s, ascii);
            }
            let piece = slice_of(v, i, j);
            let ghost before = views(out@);
            proof {
                assert(piece@ =~= s.take((j - i) as int));
                assert(s.skip((j - i) as int) =~= v@.subrange(j as int, hi as int));
            }
            out.push(piece);
            proof {
                assert(views(out@) =~= before.push(piece@));
                assert(before + (seq![piece@] + words(v@.subrange(j as int, hi as int), ascii))
                    =~= before.push(piece@) + words(v@.subrange(j as int, hi as int), ascii));
            }
            i = j;
        }
    }
    proof {
        assert(views(out@) + words(v@.subrange(i as int, hi as int), ascii) =~= views(out@));
    }
    out
}

/// `s` without one trailing `'\r'`, as a vector.
pub fn strip_cr_exec(v: Vec<char>) -> (r: Vec<char>)
    ensures
        r@ == strip_cr(v@),
{
    let mut v = v;
    if v.len() > 0 && v[v.len() - 1] == '\r' {
        v.pop();
    }
    v
}

/// Lines of `v[lo..hi]`.
pub fn lines_exec(v: &Vec<char>, lo: usize, hi: usize) -> (r: Vec<Vec<char>>)
    requires
        lo <= hi <= v@.len(),
    ensures
        views(r@) == lines(v@.subrange(lo as int, hi as int)),
{
    let parts = split_char_exec(v, lo, hi, '\n');
    let ghost ps = views(parts@);
    proof {
        lemma_split_char_nonempty(v@.subrange(lo as int, hi as int), '\n');
    }
    let n = parts.len();
    let keep = if parts[n - 1].len() == 0 { n - 1 } else { n };
    let mut out: Vec<Vec<char>> = Vec::new();
    let mut k: usize = 0;
    while k < keep
        invariant
            0 <= k <= keep <= n,
            n == parts@.len(),
            n >= 1,
            ps == views(parts@),
            keep == (if ps.last().len() == 0 { n - 1 } else { n as int }),
            views(out@) == lines(v@.subrange(lo as int, hi as int)).take(k as int),
            lines(v@.subrange(lo as int, hi as int)).len() == keep,
            ps == split_char(v@.subrange(lo as int, hi as int), '\n'),
        decreases keep - k,
    {
        let piece = parts[k].clone();
        let line = if k < n - 1 {
            strip_cr_exec(piece)
        } else {
            piece
        };
        let ghost before = views(out@);
        out.push(line);
        proof {
            assert(views(out@) =~= before.push(line@));
            assert(views(out@) =~= lines(v@.subrange(lo as int, hi as int)).take(k + 1));
        }
        k = k + 1;
    }
    proof {
        assert(lines(v@.subrange(lo as int, hi as int)).take(keep as int) =~= lines(v@.subrange(lo as int, hi as int)));
    }
    out
}

/// Owned strings for a list of character vectors.
pub fn strings_of(vs: &Vec<Vec<char>>) -> (r: Vec<String>)
    ensures
        sviews(r@) == views(vs@),
{
    let mut out: Vec<String> = Vec::new();
    let mut k: usize = 0;
    while k < vs.len()
        invariant
            0 <= k <= vs@.len(),
            sviews(out@) == views(vs@).take(k as int),
        decreases vs.len() - k,
    {
        let s = string_of(&vs[k]);
        let ghost before = sviews(out@);
        out.push(s);
        proof {
            assert(s@ == views(vs@)[k as int]);
            assert(sviews(out@) =~= before.push(s@));
            assert(sviews(out@) =~= views(vs@).take(k + 1));
        }
        k = k + 1;
    }
    proof {
        assert(views(vs@).take(vs@.len() as int) =~= views(vs@));
    }
    out
}


/// The vectors `vs[lo..hi]`, copied.
pub fn sub_vecs(vs: &Vec<Vec<char>>, lo: usize, hi: usize) -> (r: Vec<Vec<char>>)
    requires
        lo <= hi <= vs@.len(),
    ensures
        views(r@) == views(vs@).subrange(lo as int, hi as int),
{
    let mut out: Vec<Vec<char>> = Vec::new();
    let mut k = lo;
    while k < hi
        invariant
            lo <= k <= hi <= vs@.len(),
            views(out@) == views(vs@).subrange(lo as int, k as int),
        decreases hi - k,
    {
        let c = slice_of(&vs[k], 0, vs[k].len());
        let ghost before = views(out@);
        out.push(c);
        proof {
            assert(vs@[k as int]@.subrange(0, vs@[k as int]@.len() as int) =~= vs@[k as int]@);
            assert(views(out@) =~= before.push(c@));
            assert(views(out@) =~= views(vs@).subrange(lo as int, k + 1));
        }
        k = k + 1;
    }
    out
}

// ─── Joining, stripping and quoting ───────────────────────────────────────────

/// `parts` with `sep` between consecutive ones (`[..].join(sep)`).
pub open spec fn join(parts: Seq<Seq<char>>, sep: Seq<char>) -> Seq<char>
    decreases parts.len(),
{
    if parts.len() == 0 {
        Seq::empty()
    } else if parts.len() == 1 {
        parts[0]
    } else {
        join(parts.drop_last(), sep) + sep + parts.last()
    }
}

/// Appends `parts[..]` joined with `sep`.
pub fn push_joined(out: &mut String, parts: &Vec<Vec<char>>, sep: &str)
    ensures
        final(out)@ == old(out)@ + join(views(parts@), sep@),
{
    let ghost start = out@;
    let mut i: usize = 0;
    while i < parts.len()
        invariant
            i <= parts@.len(),
            out@ == start + join(views(parts@).take(i as int), sep@),
        decreases parts.len() - i,
    {
        let ghost before = out@;
        if i > 0 {
            push_str(out, sep);
        }
        push_chars(out, &parts[i]);
        proof {
            let t = views(parts@).take(i + 1);
            assert(t.drop_last() =~= views(parts@).take(i as int));
            if i == 0 {
                assert(views(parts@).take(0) =~= Seq::<Seq<char>>::empty());
                assert(out@ =~= start + t[0]);
            } else {
                assert(out@ =~= start + (join(t.drop_last(), sep@) + sep@ + t.last()));
            }
        }
        i = i + 1;
    }
    assert(views(parts@).take(parts@.len() as int) =~= views(parts@));
}

/// Appends the strings of `parts` joined with `sep`.
pub fn push_joined_strings(out: &mut String, parts: &Vec<String>, sep: &str)
    ensures
        final(out)@ == old(out)@ + join(sviews(parts@), sep@),
{
    let ghost start = out@;
    let mut i: usize = 0;
    while i < parts.len()
        invariant
            i <= parts@.len(),
            out@ == start + join(sviews(parts@).take(i as int), sep@),
        decreases parts.len() - i,
    {
        if i > 0 {
            push_str(out, sep);
        }
        push_str(out, parts[i].as_str());
        proof {
            let t = sviews(parts@).take(i + 1);
            assert(t.drop_last() =~= sviews(parts@).take(i as int));
            if i == 0 {
                assert(out@ =~= start + t[0]);
            } else {
                assert(out@ =~= start + (join(t.drop_last(), sep@) + sep@ + t.last()));
            }
        }
        i = i + 1;
    }
    assert(sviews(parts@).take(parts@.len() as int) =~= sviews(parts@));
}

/// `s` without its leading run of `c` (`str::trim_start_matches(c)`).
pub open spec fn strip_leading(s: Seq<char>, c: char) -> Seq<char>
    decreases s.len(),
{
    if s.len() > 0 && s[0] == c {
        strip_leading(s.drop_first(), c)
    } else {
        s
    }
}

/// `s` without its trailing run of `c` (`str::trim_end_matches(c)`).
pub open spec fn strip_trailing(s: Seq<char>, c: char) -> Seq<char>
    decreases s.len(),
{
    if s.len() > 0 && s.last() == c {
        strip_trailing(s.drop_last(), c)
    } else {
        s
    }
}

pub fn strip_leading_exec(v: &Vec<char>, c: char) -> (r: Vec<char>)
    ensures
        r@ == strip_leading(v@, c),
{
    let mut i: usize = 0;
    assert(v@.skip(0) =~= v@);
    while i < v.len() && v[i] == c
        invariant
            i <= v@.len(),
            strip_leading(v@, c) == strip_leading(v@.skip(i as int), c),
        decreases v.len() - i,
    {
        assert(v@.skip(i as int).drop_first() =~= v@.skip(i + 1));
        i = i + 1;
    }
    let r = slice_of(v, i, v.len());
    assert(r@ =~= v@.skip(i as int));
    r
}

pub fn strip_trailing_exec(v: &Vec<char>, c: char) -> (r: Vec<char>)
    ensures
        r@ == strip_trailing(v@, c),
{
    let mut j: usize = v.len();
    assert(v@.take(j as int) =~= v@);
    while j > 0 && v[j - 1] == c
        invariant
            j <= v@.len(),
            strip_trailing(v@, c) == strip_trailing(v@.take(j as int), c),
        decreases j,
    {
        assert(v@.take(j as int).drop_last() =~= v@.take(j - 1));
        j = j - 1;
    }
    let r = slice_of(v, 0, j);
    assert(r@ =~= v@.take(j as int));
    r
}

/// How `{:?}` writes one character inside a string: `"`, `\`, `\n`, `\r`,
/// `\t` and NUL escaped, anything else as itself.
pub open spec fn escape_in_str(c: char) -> Seq<char> {
    if c == '"' {
        "\\\""@
    } else if c == '\\' {
        "\\\\"@
    } else if c == '\n' {
        "\\n"@
    } else if c == '\r' {
        "\\r"@
    } else if c == '\t' {
        "\\t"@
    } else if c == '\0' {
        "\\0"@
    } else {
        seq![c]
    }
}

pub open spec fn escaped(s: Seq<char>) -> Seq<char>
    decreases s.len(),
{
    if s.len() == 0 {
        Seq::empty()
    } else {
        escaped(s.drop_last()) + escape_in_str(s.last())
    }
}

/// A string in double quotes with the escapes of [`escape_in_str`].
pub open spec fn debug_str(s: Seq<char>) -> Seq<char> {
    "\""@ + escaped(s) + "\""@
}

pub fn push_debug_str(out: &mut String, v: &Vec<char>)
    ensures
        final(out)@ == old(out)@ + debug_str(v@),
{
    let ghost start = out@;
    push_str(out, "\"");
    let ghost head = out@;
    let mut i: usize = 0;
    while i < v.len()
        invariant
            i <= v@.len(),
            out@ == head + escaped(v@.take(i as int)),
        decreases v.len() - i,
    {
        let c = v[i];
        let ghost before = out@;
        if c == '"' {
            push_str(out, "\\\"");
        } else if c == '\\' {
            push_str(out, "\\\\");
        } else if c == '\n' {
            push_str(out, "\\n");
        } else if c == '\r' {
            push_str(out, "\\r");
        } else if c == '\t' {
            push_str(out, "\\t");
        } else if c == '\0' {
            push_str(out, "\\0");
        } else {
            push_char(out, c);
        }
        proof {
            assert(v@.take(i + 1).drop_last() =~= v@.take(i as int));
            assert(out@ =~= before + escape_in_str(c));
        }
        i = i + 1;
    }
    assert(v@.take(v@.len() as int) =~= v@);
    push_str(out, "\"");
    assert(out@ =~= start + debug_str(v@));
}

// ─── Unicode classes ──────────────────────────────────────────────────────────

/// Name for what `char::is_alphanumeric` returns: the character has the
/// Unicode `Alphabetic` property or a numeric general category.
pub uninterp spec fn alphanumeric(c: char) -> bool;

/// Whether `c` is alphanumeric.
///
/// Wraps `char::is_alphanumeric`; its result is named by `alphanumeric`, a
/// function of the character alone (the Unicode tables built into std).
#[verifier::external_body]
pub fn is_alphanumeric(c: char) -> (r: bool)
    ensures
        r == alphanumeric(c),
{
    c.is_alphanumeric()
}

// ─── Case folding ─────────────────────────────────────────────────────────────

/// Name for what `str::to_lowercase` returns (full Unicode lowercase mapping).
pub uninterp spec fn lowercase(s: Seq<char>) -> Seq<char>;

/// Every character of `s` is ASCII.
pub open spec fn ascii_text(s: Seq<char>) -> bool {
    forall|i: int| 0 <= i < s.len() ==> #[trigger] s[i] <= '\u{7f}'
}

/// Lowercases `s`.
///
/// Wraps `str::to_lowercase`; its result is named by `lowercase`, a function
/// of the characters of `s` alone (the Unicode case tables built into std).
/// On ASCII text it claims what std documents of the ASCII characters: `A` to
/// `Z` become `a` to `z` (as `to_ascii_lowercase` maps them), and the other
/// ASCII characters, which have no lowercase mapping, stay as they are.
#[verifier::external_body]
pub fn to_lowercase(s: &str) -> (r: String)
    ensures
        r@ == lowercase(s@),
        ascii_text(s@) ==> r@ == ascii_lower(s@),
{
    s.to_lowercase()
}

/// ASCII lowercase of one character (`char::to_ascii_lowercase`).
pub open spec fn ascii_lower_char(c: char) -> char {
    if 'A' <= c && c <= 'Z' {
        ((c as int) + 32) as char
    } else {
        c
    }
}

/// ASCII lowercase of a sequence.
pub open spec fn ascii_lower(s: Seq<char>) -> Seq<char> {
    Seq::new(s.len(), |i: int| ascii_lower_char(s[i]))
}

pub fn ascii_lower_char_exec(c: char) -> (r: char)
    ensures
        r == ascii_lower_char(c),
{
    if 'A' <= c && c <= 'Z' {
        char_from_u32_ascii(c as u32 + 32)
    } else {
        c
    }
}

fn char_from_u32_ascii(n: u32) -> (r: char)
    requires
        'a' as u32 <= n <= 'z' as u32,
    ensures
        r as int == n as int,
{
    let mut c = 'a';
    let mut k: u32 = 'a' as u32;
    while k < n
        invariant
            'a' as u32 <= k <= n <= 'z' as u32,
            c as int == k as int,
        decreases n - k,
    {
        c = next_lower(c);
        k = k + 1;
    }
    c
}

fn next_lower(c: char) -> (r: char)
    requires
        'a' <= c < 'z',
    ensures
        r as int == c as int + 1,
{
    if c == 'a' { 'b' } else if c == 'b' { 'c' } else if c == 'c' { 'd' } else if c == 'd' { 'e' }
    else if c == 'e' { 'f' } else if c == 'f' { 'g' } else if c == 'g' { 'h' } else if c == 'h' { 'i' }
    else if c == 'i' { 'j' } else if c == 'j' { 'k' } else if c == 'k' { 'l' } else if c == 'l' { 'm' }
    else if c == 'm' { 'n' } else if c == 'n' { 'o' } else if c == 'o' { 'p' } else if c == 'p' { 'q' }
    else if c == 'q' { 'r' } else if c == 'r' { 's' } else if c == 's' { 't' } else if c == 't' { 'u' }
    else if c == 'u' { 'v' } else if c == 'v' { 'w' } else if c == 'w' { 'x' } else if c == 'x' { 'y' }
    else { 'z' }
}

/// ASCII lowercase of a vector.
pub fn ascii_lower_vec(v: &Vec<char>) -> (r: Vec<char>)
    ensures
        r@ == ascii_lower(v@),
{
    let mut out: Vec<char> = Vec::new();
    let mut i: usize = 0;
    while i < v.len()
        invariant
            0 <= i <= v@.len(),
            out@ == ascii_lower(v@).take(i as int),
        decreases v.len() - i,
    {
        out.push(ascii_lower_char_exec(v[i]));
        i = i + 1;
        assert(out@ =~= ascii_lower(v@).take(i as int));
    }
    assert(ascii_lower(v@).take(v@.len() as int) =~= ascii_lower(v@));
    out
}

} // verus!
