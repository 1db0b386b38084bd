//! The grammar of APT configuration text.
//!
//! A file is a sequence of statements, separated by ASCII whitespace,
//! `// …` line comments and `/* … */` block comments:
//!
//! - `Key "value";` sets a string value,
//! - `Key:: "value";` appends to the list at `Key`,
//! - `Key { statements };` opens a scope whose keys are prefixed by `Key::`,
//! - `#include "path";` and `#include-dir "path";` name further files,
//!   while any other `#word` starts a comment running to the end of the line.
//!
//! A key is one or more segments joined by `::`; a segment is a run of
//! alphanumeric characters, `-`, `_` and `.`. A block ends at `}` or at the
//! end of the text.

use vstd::prelude::*;
use crate::text::{is_ascii_ws, is_ascii_alpha, is_digit, alphanumeric, is_alphanumeric, ascii_lower, ascii_lower_vec,
    push_char, push_str, chars_of, chars_eq, string_of, slice_of, debug_str, push_debug_str};
use crate::numeric::{dec, u64_to_dec};
use crate::apt_config::{AptConfig, ConfigError, Entries, ValueView, push_list_spec};
use crate::fields::map_set;

verus! {

// ── Lexical level ─────────────────────────────────────────────────────────────

/// The character at `i`, or NUL past either end (as the parser peeks).
pub open spec fn char_at(s: Seq<char>, i: int) -> char {
    if 0 <= i < s.len() {
        s[i]
    } else {
        '\0'
    }
}

/// Characters that may appear in a key segment: alphanumeric characters
/// (among ASCII ones, the letters and digits), `-`, `_` and `.`.
pub open spec fn is_key_char(c: char) -> bool {
    if c <= '\u{7f}' {
        is_ascii_alpha(c) || is_digit(c) || c == '-' || c == '_' || c == '.'
    } else {
        alphanumeric(c)
    }
}

/// Whether `c` may appear in a key segment.
fn key_char(c: char) -> (r: bool)
    ensures
        r == is_key_char(c),
{
    if c <= '\u{7f}' {
        ('a' <= c && c <= 'z') || ('A' <= c && c <= 'Z') || ('0' <= c && c <= '9') || c == '-' || c == '_' || c == '.'
    } else {
        is_alphanumeric(c)
    }
}

/// Position after the run of ASCII whitespace starting at `p`.
pub open spec fn skip_ws(s: Seq<char>, p: int) -> int
    decreases s.len() - p,
{
    if 0 <= p < s.len() && is_ascii_ws(s[p]) {
        skip_ws(s, p + 1)
    } else {
        p
    }
}

/// Position of the newline ending the line that contains `p` (or the end).
pub open spec fn line_end(s: Seq<char>, p: int) -> int
    decreases s.len() - p,
{
    if 0 <= p < s.len() && s[p] != '\n' {
        line_end(s, p + 1)
    } else {
        p
    }
}

/// Position after the run of key characters starting at `p`.
pub open spec fn seg_end(s: Seq<char>, p: int) -> int
    decreases s.len() - p,
{
    if 0 <= p < s.len() && is_key_char(s[p]) {
        seg_end(s, p + 1)
    } else {
        p
    }
}

/// Position just past the first `*/` at or after `p`, if there is one.
pub open spec fn comment_end(s: Seq<char>, p: int) -> Option<int>
    decreases s.len() - p,
{
    if p < 0 || p >= s.len() {
        None
    } else if s[p] == '*' && char_at(s, p + 1) == '/' {
        Some(p + 2)
    } else {
        comment_end(s, p + 1)
    }
}

pub proof fn lemma_skip_ws(s: Seq<char>, p: int)
    ensures
        skip_ws(s, p) >= p,
        0 <= p <= s.len() ==> skip_ws(s, p) <= s.len(),
        0 <= p <= s.len() ==> forall|i: int| p <= i < skip_ws(s, p) ==> is_ascii_ws(#[trigger] s[i]),
    decreases s.len() - p,
{
    if 0 <= p < s.len() && is_ascii_ws(s[p]) {
        lemma_skip_ws(s, p + 1);
    }
}

pub proof fn lemma_line_end(s: Seq<char>, p: int)
    ensures
        line_end(s, p) >= p,
        0 <= p <= s.len() ==> line_end(s, p) <= s.len(),
    decreases s.len() - p,
{
    if 0 <= p < s.len() && s[p] != '\n' {
        lemma_line_end(s, p + 1);
    }
}

pub proof fn lemma_seg_end(s: Seq<char>, p: int)
    ensures
        seg_end(s, p) >= p,
        0 <= p <= s.len() ==> seg_end(s, p) <= s.len(),
    decreases s.len() - p,
{
    if 0 <= p < s.len() && is_key_char(s[p]) {
        lemma_seg_end(s, p + 1);
    }
}

pub proof fn lemma_comment_end(s: Seq<char>, p: int)
    ensures
        comment_end(s, p) matches Some(e) ==> p + 2 <= e <= s.len(),
    decreases s.len() - p,
{
    if 0 <= p < s.len() && !(s[p] == '*' && char_at(s, p + 1) == '/') {
        lemma_comment_end(s, p + 1);
    }
}

/// Skips whitespace and comments from `p`; `Err` carries the position (the
/// end of the text) of an unterminated block comment.
pub open spec fn skip_wsc(s: Seq<char>, p: int) -> Result<int, int>
    decreases s.len() - p,
{
    let q = skip_ws(s, p);
    if char_at(s, q) == '/' && char_at(s, q + 1) == '/' {
        proof {
            lemma_skip_ws(s, p);
            lemma_line_end(s, q + 2);
        }
        skip_wsc(s, line_end(s, q + 2))
    } else if char_at(s, q) == '/' && char_at(s, q + 1) == '*' {
        proof {
            lemma_skip_ws(s, p);
            lemma_comment_end(s, q + 2);
        }
        match comment_end(s, q + 2) {
            None => Err(s.len() as int),
            Some(e) => skip_wsc(s, e),
        }
    } else {
        Ok(q)
    }
}

pub proof fn lemma_skip_wsc(s: Seq<char>, p: int)
    requires
        0 <= p <= s.len(),
    ensures
        skip_wsc(s, p) matches Ok(q) ==> p <= q <= s.len(),
    decreases s.len() - p,
{
    let q = skip_ws(s, p);
    lemma_skip_ws(s, p);
    if char_at(s, q) == '/' && char_at(s, q + 1) == '/' {
        lemma_line_end(s, q + 2);
        lemma_skip_wsc(s, line_end(s, q + 2));
    } else if char_at(s, q) == '/' && char_at(s, q + 1) == '*' {
        lemma_comment_end(s, q + 2);
        if let Some(e) = comment_end(s, q + 2) {
            lemma_skip_wsc(s, e);
        }
    }
}

/// The body of a quoted string whose opening quote precedes `p`: a
/// backslash takes the next character literally. `Ok` gives the value and
/// the position after the closing quote; `Err` the end of the text.
pub open spec fn str_body(s: Seq<char>, p: int) -> Result<(Seq<char>, int), int>
    decreases s.len() - p,
{
    if p < 0 || p >= s.len() {
        Err(s.len() as int)
    } else if s[p] == '"' {
        Ok((Seq::empty(), p + 1))
    } else if s[p] == '\\' {
        if p + 1 >= s.len() {
            Err(s.len() as int)
        } else {
            match str_body(s, p + 2) {
                Ok((v, e)) => Ok((seq![s[p + 1]] + v, e)),
                Err(x) => Err(x),
            }
        }
    } else {
        match str_body(s, p + 1) {
            Ok((v, e)) => Ok((seq![s[p]] + v, e)),
            Err(x) => Err(x),
        }
    }
}

pub proof fn lemma_str_body(s: Seq<char>, p: int)
    requires
        0 <= p,
    ensures
        str_body(s, p) matches Ok((v, e)) ==> p < e <= s.len(),
        str_body(s, p) matches Err(x) ==> x == s.len(),
    decreases s.len() - p,
{
    if 0 <= p < s.len() && s[p] != '"' {
        if s[p] == '\\' {
            if p + 1 < s.len() {
                lemma_str_body(s, p + 2);
            }
        } else {
            lemma_str_body(s, p + 1);
        }
    }
}

// ── Faults ────────────────────────────────────────────────────────────────────

/// What stopped the parser.
pub enum Fault {
    UnterminatedComment,
    ExpectedQuote,
    UnterminatedString,
    /// The character expected and the one found (NUL at the end).
    Expected(char, char),
    UnexpectedChar(char),
    /// Neither `{` nor a string after this key.
    ExpectedValue(Seq<char>),
    /// No string after `Key::`.
    ExpectedListValue(Seq<char>),
}

/// A quoted string at `p`: its value and the position after it.
pub open spec fn string_at(s: Seq<char>, p: int) -> Result<(Seq<char>, int), (Fault, int)> {
    if char_at(s, p) != '"' {
        Err((Fault::ExpectedQuote, p))
    } else {
        match str_body(s, p + 1) {
            Ok(r) => Ok(r),
            Err(x) => Err((Fault::UnterminatedString, x)),
        }
    }
}

/// A quoted string at `p` followed by `;`: the value and the position after
/// the `;`.
pub open spec fn value_at(s: Seq<char>, p: int) -> Result<(Seq<char>, int), (Fault, int)> {
    match string_at(s, p) {
        Err(f) => Err(f),
        Ok((v, e)) => {
            let w = skip_ws(s, e);
            if char_at(s, w) != ';' {
                Err((Fault::Expected(';', char_at(s, w)), w))
            } else {
                Ok((v, w + 1))
            }
        },
    }
}

/// A `#` directive at `q`: the position after it and the include it names
/// (path, whether it names a directory); an unknown word makes the rest of
/// the line a comment.
pub open spec fn directive(s: Seq<char>, q: int) -> Result<(int, Option<(Seq<char>, bool)>), (Fault, int)> {
    let w = seg_end(s, q + 1);
    let word = ascii_lower(s.subrange(q + 1, w));
    let is_dir = word == "include-dir"@;
    if word != "include"@ && !is_dir {
        Ok((line_end(s, w), None))
    } else {
        match string_at(s, skip_ws(s, w)) {
            Err(f) => Err(f),
            Ok((path, b)) => {
                let c = skip_ws(s, b);
                Ok((if char_at(s, c) == ';' { c + 1 } else { c }, Some((path, is_dir))))
            },
        }
    }
}

/// Further `::`-separated segments after a key segment ending at `p`:
/// the position reached, the joined key, and whether the key ended in a bare
/// `::` (list append).
pub open spec fn key_chain(s: Seq<char>, p: int, key: Seq<char>) -> (int, Seq<char>, bool)
    decreases s.len() - p,
{
    let q = skip_ws(s, p);
    if char_at(s, q) == ':' && char_at(s, q + 1) == ':' {
        let r = skip_ws(s, q + 2);
        let e = seg_end(s, r);
        proof {
            lemma_skip_ws(s, p);
            lemma_skip_ws(s, q + 2);
            lemma_seg_end(s, r);
        }
        if e == r {
            (r, key, true)
        } else {
            key_chain(s, e, key + "::"@ + s.subrange(r, e))
        }
    } else {
        (q, key, false)
    }
}

pub proof fn lemma_key_chain(s: Seq<char>, p: int, key: Seq<char>)
    ensures
        p <= key_chain(s, p, key).0,
        0 <= p <= s.len() ==> key_chain(s, p, key).0 <= s.len(),
    decreases s.len() - p,
{
    let q = skip_ws(s, p);
    lemma_skip_ws(s, p);
    if char_at(s, q) == ':' && char_at(s, q + 1) == ':' {
        let r = skip_ws(s, q + 2);
        lemma_skip_ws(s, q + 2);
        lemma_seg_end(s, r);
        let e = seg_end(s, r);
        if e != r {
            lemma_key_chain(s, e, key + "::"@ + s.subrange(r, e));
        }
    }
}

/// A key inside the scope `prefix`.
pub open spec fn full_key(prefix: Seq<char>, local: Seq<char>) -> Seq<char> {
    if prefix.len() == 0 {
        local
    } else {
        prefix + "::"@ + local
    }
}

// ── Statements and blocks ─────────────────────────────────────────────────────

/// Parser state: position, entries so far, includes so far, and the fault
/// that stopped it (with its position), if any.
pub struct Parsed {
    pub pos: int,
    pub entries: Entries,
    pub includes: Seq<(Seq<char>, bool)>,
    pub fault: Option<(Fault, int)>,
}

/// The result of one statement: go on from the new state, or stop.
pub enum Step {
    Next(Parsed),
    Done(Parsed),
}

pub open spec fn at_pos(st: Parsed, p: int) -> Parsed {
    Parsed { pos: p, entries: st.entries, includes: st.includes, fault: st.fault }
}

pub open spec fn failed(st: Parsed, f: (Fault, int)) -> Parsed {
    Parsed { pos: f.1, entries: st.entries, includes: st.includes, fault: Some(f) }
}

/// The statements of a block starting at `st.pos` with keys under `prefix`,
/// up to a `}`, the end of the text, or a fault.
pub open spec fn block(s: Seq<char>, prefix: Seq<char>, st: Parsed) -> Parsed
    decreases s.len() - st.pos, 2int,
{
    if st.pos < 0 || st.pos > s.len() {
        st
    } else {
        match stmt(s, prefix, st) {
            Step::Done(r) => r,
            Step::Next(r) => if st.pos < r.pos <= s.len() {
                block(s, prefix, r)
            } else {
                r
            },
        }
    }
}

/// One statement at `st.pos` (after whitespace and comments).
pub open spec fn stmt(s: Seq<char>, prefix: Seq<char>, st: Parsed) -> Step
    decreases s.len() - st.pos, 1int,
{
    if st.pos < 0 || st.pos > s.len() {
        Step::Done(st)
    } else {
        match skip_wsc(s, st.pos) {
            Err(e) => Step::Done(failed(st, (Fault::UnterminatedComment, e))),
            Ok(q) => if q >= s.len() || s[q] == '}' {
                Step::Done(at_pos(st, q))
            } else if s[q] == '#' {
                match directive(s, q) {
                    Err(f) => Step::Done(failed(st, f)),
                    Ok((d, inc)) => Step::Next(
                        Parsed {
                            pos: d,
                            entries: st.entries,
                            includes: match inc {
                                Some(i) => st.includes.push(i),
                                None => st.includes,
                            },
                            fault: None,
                        },
                    ),
                }
            } else if seg_end(s, q) == q {
                Step::Done(failed(st, (Fault::UnexpectedChar(s[q]), q)))
            } else {
                proof {
                    lemma_skip_wsc(s, st.pos);
                }
                keyed(s, prefix, st, q)
            },
        }
    }
}

/// A statement whose key starts at `q`.
pub open spec fn keyed(s: Seq<char>, prefix: Seq<char>, st: Parsed, q: int) -> Step
    decreases s.len() - q, 0int,
{
    let e = seg_end(s, q);
    let (k, local, trailing) = key_chain(s, e, s.subrange(q, e));
    let key = full_key(prefix, local);
    let v = skip_ws(s, k);
    if trailing {
        if char_at(s, v) != '"' {
            Step::Done(failed(st, (Fault::ExpectedListValue(key), v)))
        } else {
            match value_at(s, v) {
                Err(f) => Step::Done(failed(st, f)),
                Ok((val, w)) => Step::Next(
                    Parsed {
                        pos: w,
                        entries: push_list_spec(st.entries, key, val),
                        includes: st.includes,
                        fault: None,
                    },
                ),
            }
        }
    } else if char_at(s, v) == '{' {
        proof {
            lemma_seg_end(s, q);
            lemma_key_chain(s, e, s.subrange(q, e));
            lemma_skip_ws(s, k);
        }
        let inner = block(s, key, at_pos(st, v + 1));
        if inner.fault is Some {
            Step::Done(inner)
        } else {
            match skip_wsc(s, inner.pos) {
                Err(x) => Step::Done(failed(inner, (Fault::UnterminatedComment, x))),
                Ok(r) => if char_at(s, r) != '}' {
                    Step::Done(failed(inner, (Fault::Expected('}', char_at(s, r)), r)))
                } else {
                    let t = skip_ws(s, r + 1);
                    Step::Next(at_pos(inner, if char_at(s, t) == ';' { t + 1 } else { t }))
                },
            }
        }
    } else if char_at(s, v) == '"' {
        match value_at(s, v) {
            Err(f) => Step::Done(failed(st, f)),
            Ok((val, w)) => Step::Next(
                Parsed {
                    pos: w,
                    entries: map_set(st.entries, key, ValueView::Str(val)),
                    includes: st.includes,
                    fault: None,
                },
            ),
        }
    } else {
        Step::Done(failed(st, (Fault::ExpectedValue(key), v)))
    }
}

/// The whole text `s` parsed into entries `e` with keys under `prefix`.
pub open spec fn parse_config(s: Seq<char>, prefix: Seq<char>, e: Entries) -> Parsed {
    block(s, prefix, Parsed { pos: 0, entries: e, includes: Seq::empty(), fault: None })
}

// ── Messages ──────────────────────────────────────────────────────────────────

/// Number of newlines in `s`.
pub open spec fn newlines(s: Seq<char>) -> nat
    decreases s.len(),
{
    if s.len() == 0 {
        0
    } else {
        newlines(s.drop_last()) + if s.last() == '\n' { 1nat } else { 0nat }
    }
}

/// The line (from 1) holding position `at`, capped at `u64::MAX`.
pub open spec fn line_number(s: Seq<char>, at: int) -> nat {
    let n = newlines(s.take(at)) + 1;
    if n > u64::MAX {
        u64::MAX as nat
    } else {
        n
    }
}

/// A character as `{:?}` renders the common ones: quoted, with `\n`, `\r`,
/// `\t`, NUL, backslash and the quote escaped.
pub open spec fn debug_char(c: char) -> Seq<char> {
    "'"@ + if c == '\n' {
        "\\n"@
    } else if c == '\r' {
        "\\r"@
    } else if c == '\t' {
        "\\t"@
    } else if c == '\0' {
        "\\0"@
    } else if c == '\\' {
        "\\\\"@
    } else if c == '\'' {
        "\\'"@
    } else {
        seq![c]
    } + "'"@
}

pub open spec fn fault_text(f: Fault) -> Seq<char> {
    match f {
        Fault::UnterminatedComment => "unterminated block comment"@,
        Fault::ExpectedQuote => "expected '\"'"@,
        Fault::UnterminatedString => "unterminated string"@,
        Fault::Expected(a, b) => "expected "@ + debug_char(a) + " but got "@ + debug_char(b),
        Fault::UnexpectedChar(c) => "unexpected character "@ + debug_char(c),
        Fault::ExpectedValue(k) => "expected '{' or '\"' after key "@ + debug_str(k),
        Fault::ExpectedListValue(k) => "expected '\"' after '::' for key "@ + debug_str(k),
    }
}

/// The message of a parse error: what went wrong and on which line.
pub open spec fn fault_message(s: Seq<char>, f: Fault, at: int) -> Seq<char> {
    fault_text(f) + " at line "@ + dec(line_number(s, at))
}

enum FaultX {
    UnterminatedComment,
    ExpectedQuote,
    UnterminatedString,
    Expected(char, char),
    UnexpectedChar(char),
    ExpectedValue(Vec<char>),
    ExpectedListValue(Vec<char>),
}

impl View for FaultX {
    type V = Fault;

    closed spec fn view(&self) -> Fault {
        match self {
            FaultX::UnterminatedComment => Fault::UnterminatedComment,
            FaultX::ExpectedQuote => Fault::ExpectedQuote,
            FaultX::UnterminatedString => Fault::UnterminatedString,
            FaultX::Expected(a, b) => Fault::Expected(*a, *b),
            FaultX::UnexpectedChar(c) => Fault::UnexpectedChar(*c),
            FaultX::ExpectedValue(k) => Fault::ExpectedValue(k@),
            FaultX::ExpectedListValue(k) => Fault::ExpectedListValue(k@),
        }
    }
}

fn line_of(s: &Vec<char>, at: usize) -> (r: u64)
    requires
        at <= s@.len(),
    ensures
        r == line_number(s@, at as int),
{
    let mut c: usize = 0;
    let mut i: usize = 0;
    while i < at
        invariant
            i <= at <= s@.len(),
            c <= i,
            c == newlines(s@.take(i as int)),
        decreases at - i,
    {
        assert(s@.take(i + 1).drop_last() =~= s@.take(i as int));
        if s[i] == '\n' {
            c = c + 1;
        }
        i = i + 1;
    }
    if c as u64 == u64::MAX {
        u64::MAX
    } else {
        c as u64 + 1
    }
}

fn push_debug_char(out: &mut String, c: char)
    ensures
        final(out)@ == old(out)@ + debug_char(c),
{
    let ghost start = out@;
    push_str(out, "'");
    if c == '\n' {
        push_str(out, "\\n");
    } else if c == '\r' {
        push_str(out, "\\r");
    } else if c == '\t' {
        push_str(out, "\\t");
    } else if c == '\0' {
        push_str(out, "\\0");
    } else if c == '\\' {
        push_str(out, "\\\\");
    } else if c == '\'' {
        push_str(out, "\\'");
    } else {
        push_char(out, c);
        assert(out@ =~= start + "'"@ + seq![c]);
    }
    push_str(out, "'");
    assert(out@ =~= start + debug_char(c));
}

fn fault_error(s: &Vec<char>, f: &FaultX, at: usize) -> (e: ConfigError)
    requires
        at <= s@.len(),
    ensures
        e matches ConfigError::Parse(m) && m@ == fault_message(s@, f@, at as int),
{
    let mut m = String::new();
    match f {
        FaultX::UnterminatedComment => push_str(&mut m, "unterminated block comment"),
        FaultX::ExpectedQuote => push_str(&mut m, "expected '\"'"),
        FaultX::UnterminatedString => push_str(&mut m, "unterminated string"),
        FaultX::Expected(a, b) => {
            push_str(&mut m, "expected ");
            push_debug_char(&mut m, *a);
            push_str(&mut m, " but got ");
            push_debug_char(&mut m, *b);
        },
        FaultX::UnexpectedChar(c) => {
            push_str(&mut m, "unexpected character ");
            push_debug_char(&mut m, *c);
        },
        FaultX::ExpectedValue(k) => {
            push_str(&mut m, "expected '{' or '\"' after key ");
            push_debug_str(&mut m, k);
        },
        FaultX::ExpectedListValue(k) => {
            push_str(&mut m, "expected '\"' after '::' for key ");
            push_debug_str(&mut m, k);
        },
    }
    proof {
        assert(m@ =~= fault_text(f@));
    }
    push_str(&mut m, " at line ");
    let n = u64_to_dec(line_of(s, at));
    push_str(&mut m, n.as_str());
    ConfigError::Parse(m)
}

// ── The parser ────────────────────────────────────────────────────────────────

fn ascii_ws(c: char) -> (r: bool)
    ensures
        r == is_ascii_ws(c),
{
    c == ' ' || c == '\t' || c == '\n' || c == '\u{c}' || c == '\r'
}

fn char_at_x(s: &Vec<char>, i: usize) -> (c: char)
    ensures
        c == char_at(s@, i as int),
{
    if i < s.len() {
        s[i]
    } else {
        '\0'
    }
}

fn skip_ws_x(s: &Vec<char>, p: usize) -> (r: usize)
    requires
        p <= s@.len(),
    ensures
        r == skip_ws(s@, p as int),
        p <= r <= s@.len(),
{
    let mut i = p;
    while i < s.len() && ascii_ws(s[i])
        invariant
            p <= i <= s@.len(),
            skip_ws(s@, p as int) == skip_ws(s@, i as int),
        decreases s.len() - i,
    {
        i = i + 1;
    }
    i
}

fn line_end_x(s: &Vec<char>, p: usize) -> (r: usize)
    requires
        p <= s@.len(),
    ensures
        r == line_end(s@, p as int),
        p <= r <= s@.len(),
{
    let mut i = p;
    while i < s.len() && s[i] != '\n'
        invariant
            p <= i <= s@.len(),
            line_end(s@, p as int) == line_end(s@, i as int),
        decreases s.len() - i,
    {
        i = i + 1;
    }
    i
}

fn seg_end_x(s: &Vec<char>, p: usize) -> (r: usize)
    requires
        p <= s@.len(),
    ensures
        r == seg_end(s@, p as int),
        p <= r <= s@.len(),
{
    let mut i = p;
    while i < s.len() && key_char(s[i])
        invariant
            p <= i <= s@.len(),
            seg_end(s@, p as int) == seg_end(s@, i as int),
        decreases s.len() - i,
    {
        i = i + 1;
    }
    i
}

fn comment_end_x(s: &Vec<char>, p: usize) -> (r: Option<usize>)
    requires
        p <= s@.len(),
    ensures
        match comment_end(s@, p as int) {
            None => r is None,
            Some(e) => r matches Some(x) && x == e && p + 2 <= e <= s@.len(),
        },
{
    let mut i = p;
    while i < s.len()
        invariant
            p <= i <= s@.len(),
            comment_end(s@, p as int) == comment_end(s@, i as int),
        decreases s.len() - i,
    {
        if s[i] == '*' && i + 1 < s.len() && s[i + 1] == '/' {
            return Some(i + 2);
        }
        i = i + 1;
    }
    None
}

fn skip_wsc_x(s: &Vec<char>, p: usize) -> (r: Result<usize, usize>)
    requires
        p <= s@.len(),
    ensures
        match skip_wsc(s@, p as int) {
            Ok(q) => r matches Ok(x) && x == q && p <= q <= s@.len(),
            Err(e) => r matches Err(x) && x == e && e == s@.len(),
        },
{
    let mut i = p;
    loop
        invariant
            p <= i <= s@.len(),
            skip_wsc(s@, p as int) == skip_wsc(s@, i as int),
        decreases s@.len() - i,
    {
        let q = skip_ws_x(s, i);
        if q < s.len() && q + 1 < s.len() && s[q] == '/' && s[q + 1] == '/' {
            i = line_end_x(s, q + 2);
        } else if q < s.len() && q + 1 < s.len() && s[q] == '/' && s[q + 1] == '*' {
            match comment_end_x(s, q + 2) {
                None => {
                    return Err(s.len());
                },
                Some(e) => {
                    i = e;
                },
            }
        } else {
            return Ok(q);
        }
    }
}

fn str_body_x(s: &Vec<char>, p: usize) -> (r: Result<(String, usize), usize>)
    requires
        p <= s@.len(),
    ensures
        match str_body(s@, p as int) {
            Ok((v, e)) => r matches Ok((x, e2)) && x@ == v && e2 == e,
            Err(x) => r matches Err(y) && y == x,
        },
{
    let mut out = String::new();
    let mut i = p;
    loop
        invariant
            p <= i <= s@.len(),
            str_body(s@, p as int) == match str_body(s@, i as int) {
                Ok((v, e)) => Ok((out@ + v, e)),
                Err(x) => Err(x),
            },
        decreases s@.len() - i,
    {
        if i >= s.len() {
            return Err(s.len());
        }
        let c = s[i];
        if c == '"' {
            assert(out@ + Seq::<char>::empty() =~= out@);
            return Ok((out, i + 1));
        }
        let ghost before = out@;
        if c == '\\' {
            if i + 1 >= s.len() {
                return Err(s.len());
            }
            let d = s[i + 1];
            push_char(&mut out, d);
            proof {
                if let Ok((v, e)) = str_body(s@, i + 2) {
                    assert(before + (seq![d] + v) =~= out@ + v);
                }
            }
            i = i + 2;
        } else {
            push_char(&mut out, c);
            proof {
                if let Ok((v, e)) = str_body(s@, i + 1) {
                    assert(before + (seq![c] + v) =~= out@ + v);
                }
            }
            i = i + 1;
        }
    }
}

fn string_at_x(s: &Vec<char>, p: usize) -> (r: Result<(String, usize), (FaultX, usize)>)
    requires
        p <= s@.len(),
    ensures
        match string_at(s@, p as int) {
            Ok((v, e)) => r matches Ok((x, e2)) && x@ == v && e2 == e && p < e <= s@.len(),
            Err((f, at)) => r matches Err((g, a)) && g@ == f && a == at && at <= s@.len(),
        },
{
    if p >= s.len() || s[p] != '"' {
        return Err((FaultX::ExpectedQuote, p));
    }
    proof {
        lemma_str_body(s@, p + 1);
    }
    match str_body_x(s, p + 1) {
        Ok((v, e)) => Ok((v, e)),
        Err(x) => Err((FaultX::UnterminatedString, x)),
    }
}

fn value_at_x(s: &Vec<char>, p: usize) -> (r: Result<(String, usize), (FaultX, usize)>)
    requires
        p <= s@.len(),
    ensures
        match value_at(s@, p as int) {
            Ok((v, e)) => r matches Ok((x, e2)) && x@ == v && e2 == e && p < e <= s@.len(),
            Err((f, at)) => r matches Err((g, a)) && g@ == f && a == at && at <= s@.len(),
        },
{
    match string_at_x(s, p) {
        Err(f) => Err(f),
        Ok((v, e)) => {
            let w = skip_ws_x(s, e);
            if w < s.len() && s[w] == ';' {
                Ok((v, w + 1))
            } else {
                Err((FaultX::Expected(';', char_at_x(s, w)), w))
            }
        },
    }
}

/// An `#include` or `#include-dir` directive.
pub struct IncludeDirective {
    pub path: String,
    pub is_dir: bool,
}

pub open spec fn include_views(v: Seq<IncludeDirective>) -> Seq<(Seq<char>, bool)> {
    Seq::new(v.len(), |i: int| (v[i].path@, v[i].is_dir))
}

fn directive_x(s: &Vec<char>, q: usize) -> (r: Result<(usize, Option<IncludeDirective>), (FaultX, usize)>)
    requires
        q < s@.len(),
    ensures
        match directive(s@, q as int) {
            Ok((d, inc)) => r matches Ok((d2, inc2)) && d2 == d && q < d <= s@.len() && match inc {
                None => inc2 is None,
                Some(i) => inc2 matches Some(j) && j.path@ == i.0 && j.is_dir == i.1,
            },
            Err((f, at)) => r matches Err((g, a)) && g@ == f && a == at && at <= s@.len(),
        },
{
    let n = s.len();
    let w = seg_end_x(s, q + 1);
    let mut word: Vec<char> = Vec::new();
    let mut i = q + 1;
    while i < w
        invariant
            q + 1 <= i <= w <= s@.len(),
            word@ == s@.subrange(q + 1, i as int),
        decreases w - i,
    {
        word.push(s[i]);
        i = i + 1;
        assert(word@ =~= s@.subrange(q + 1, i as int));
    }
    let lw = ascii_lower_vec(&word);
    let dir_word = chars_of("include-dir");
    let inc_word = chars_of("include");
    let is_dir = chars_eq(&lw, &dir_word);
    if !chars_eq(&lw, &inc_word) && !is_dir {
        return Ok((line_end_x(s, w), None));
    }
    let a = skip_ws_x(s, w);
    match string_at_x(s, a) {
        Err(f) => Err(f),
        Ok((path, b)) => {
            let c = skip_ws_x(s, b);
            let d = if c < s.len() && s[c] == ';' { c + 1 } else { c };
            Ok((d, Some(IncludeDirective { path, is_dir })))
        },
    }
}

fn key_chain_x(s: &Vec<char>, p: usize, key: Vec<char>) -> (r: (usize, Vec<char>, bool))
    requires
        p <= s@.len(),
    ensures
        key_chain(s@, p as int, key@) == (r.0 as int, r.1@, r.2),
        p <= r.0 <= s@.len(),
{
    let mut i = p;
    let mut k = key;
    loop
        invariant
            p <= i <= s@.len(),
            key_chain(s@, p as int, key@) == key_chain(s@, i as int, k@),
        decreases s@.len() - i,
    {
        let q = skip_ws_x(s, i);
        if q < s.len() && q + 1 < s.len() && s[q] == ':' && s[q + 1] == ':' {
            let r = skip_ws_x(s, q + 2);
            let e = seg_end_x(s, r);
            if e == r {
                return (r, k, true);
            }
            let ghost k0 = k@;
            proof {
                reveal_strlit("::");
            }
            k.push(':');
            k.push(':');
            let mut j = r;
            while j < e
                invariant
                    r <= j <= e <= s@.len(),
                    k@ == k0 + "::"@ + s@.subrange(r as int, j as int),
                decreases e - j,
            {
                k.push(s[j]);
                j = j + 1;
                assert(k@ =~= k0 + "::"@ + s@.subrange(r as int, j as int));
            }
            i = e;
        } else {
            return (q, k, false);
        }
    }
}

fn join_key(prefix: &Vec<char>, local: &Vec<char>) -> (r: Vec<char>)
    ensures
        r@ == full_key(prefix@, local@),
{
    let mut out: Vec<char> = Vec::new();
    let mut i: usize = 0;
    if prefix.len() > 0 {
        while i < prefix.len()
            invariant
                i <= prefix@.len(),
                out@ == prefix@.take(i as int),
            decreases prefix.len() - i,
        {
            out.push(prefix[i]);
            i = i + 1;
            assert(out@ =~= prefix@.take(i as int));
        }
        proof {
            reveal_strlit("::");
            assert(prefix@.take(prefix@.len() as int) =~= prefix@);
        }
        out.push(':');
        out.push(':');
    }
    let ghost head = out@;
    proof {
        reveal_strlit("::");
        if prefix@.len() == 0 {
            assert(head =~= Seq::<char>::empty());
        } else {
            assert(head =~= prefix@ + "::"@);
        }
    }
    i = 0;
    while i < local.len()
        invariant
            i <= local@.len(),
            out@ == head + local@.take(i as int),
        decreases local.len() - i,
    {
        out.push(local[i]);
        i = i + 1;
        assert(out@ =~= head + local@.take(i as int));
    }
    assert(local@.take(local@.len() as int) =~= local@);
    assert(out@ =~= full_key(prefix@, local@));
    out
}

spec fn state(p: int, e: Entries, incs: Seq<IncludeDirective>) -> Parsed {
    Parsed { pos: p, entries: e, includes: include_views(incs), fault: None }
}

spec fn step_state(t: Step) -> Parsed {
    match t {
        Step::Next(o) => o,
        Step::Done(o) => o,
    }
}

/// `r` reports the outcome of a block that ended in state `o`.
spec fn ended(o: Parsed, r: Result<usize, (FaultX, usize)>, p: int, len: int) -> bool {
    match o.fault {
        None => r matches Ok(q) && q == o.pos && p <= q <= len,
        Some((f, at)) => r matches Err((g, a)) && g@ == f && a == at && at <= len,
    }
}

/// `r` reports the outcome of a statement.
spec fn stepped(t: Step, r: Result<(usize, bool), (FaultX, usize)>, p: int, len: int) -> bool {
    match t {
        Step::Next(o) => r matches Ok((q, more)) && more && q == o.pos && p < q <= len
            && o.fault is None,
        Step::Done(o) => match o.fault {
            None => r matches Ok((q, more)) && !more && q == o.pos && p <= q <= len,
            Some((f, at)) => r matches Err((g, a)) && g@ == f && a == at && at <= len,
        },
    }
}

fn parse_block_x(
    s: &Vec<char>,
    p: usize,
    prefix: &Vec<char>,
    cfg: &mut AptConfig,
    incs: &mut Vec<IncludeDirective>,
) -> (r: Result<usize, (FaultX, usize)>)
    requires
        p <= s@.len(),
    ensures
        final(cfg)@ == block(s@, prefix@, state(p as int, old(cfg)@, old(incs)@)).entries,
        include_views(final(incs)@) == block(
            s@,
            prefix@,
            state(p as int, old(cfg)@, old(incs)@),
        ).includes,
        ended(block(s@, prefix@, state(p as int, old(cfg)@, old(incs)@)), r, p as int, s@.len() as int),
    decreases s@.len() - p, 2int,
{
    let ghost start = state(p as int, cfg@, incs@);
    let mut pos = p;
    loop
        invariant
            p <= pos <= s@.len(),
            start == state(p as int, old(cfg)@, old(incs)@),
            block(s@, prefix@, start) == block(s@, prefix@, state(pos as int, cfg@, incs@)),
        decreases s@.len() - pos,
    {
        let ghost here = state(pos as int, cfg@, incs@);
        let r = stmt_x(s, pos, prefix, cfg, incs);
        proof {
            if let Step::Done(o) = stmt(s@, prefix@, here) {
                assert(block(s@, prefix@, here) == o);
            }
        }
        match r {
            Ok((q, more)) => {
                if more {
                    pos = q;
                } else {
                    return Ok(q);
                }
            },
            Err(f) => {
                return Err(f);
            },
        }
    }
}

fn stmt_x(
    s: &Vec<char>,
    p: usize,
    prefix: &Vec<char>,
    cfg: &mut AptConfig,
    incs: &mut Vec<IncludeDirective>,
) -> (r: Result<(usize, bool), (FaultX, usize)>)
    requires
        p <= s@.len(),
    ensures
        final(cfg)@ == step_state(stmt(s@, prefix@, state(p as int, old(cfg)@, old(incs)@))).entries,
        include_views(final(incs)@) == step_state(
            stmt(s@, prefix@, state(p as int, old(cfg)@, old(incs)@)),
        ).includes,
        stepped(stmt(s@, prefix@, state(p as int, old(cfg)@, old(incs)@)), r, p as int, s@.len() as int),
    decreases s@.len() - p, 1int,
{
    match skip_wsc_x(s, p) {
        Err(e) => Err((FaultX::UnterminatedComment, e)),
        Ok(q) => {
            if q >= s.len() || s[q] == '}' {
                return Ok((q, false));
            }
            if s[q] == '#' {
                match directive_x(s, q) {
                    Err(f) => Err(f),
                    Ok((d, inc)) => {
                        let ghost before = incs@;
                        match inc {
                            Some(i) => {
                                incs.push(i);
                                proof {
                                    assert(include_views(incs@) =~= include_views(before).push(
                                        (incs@.last().path@, incs@.last().is_dir),
                                    ));
                                }
                            },
                            None => {},
                        }
                        Ok((d, true))
                    },
                }
            } else {
                let e = seg_end_x(s, q);
                if e == q {
                    return Err((FaultX::UnexpectedChar(s[q]), q));
                }
                keyed_x(s, p, prefix, cfg, incs, q)
            }
        },
    }
}

fn keyed_x(
    s: &Vec<char>,
    p: usize,
    prefix: &Vec<char>,
    cfg: &mut AptConfig,
    incs: &mut Vec<IncludeDirective>,
    q: usize,
) -> (r: Result<(usize, bool), (FaultX, usize)>)
    requires
        p <= q < s@.len(),
    ensures
        final(cfg)@ == step_state(keyed(s@, prefix@, state(p as int, old(cfg)@, old(incs)@), q as int)).entries,
        include_views(final(incs)@) == step_state(
            keyed(s@, prefix@, state(p as int, old(cfg)@, old(incs)@), q as int),
        ).includes,
        stepped(
            keyed(s@, prefix@, state(p as int, old(cfg)@, old(incs)@), q as int),
            r,
            p as int,
            s@.len() as int,
        ),
    decreases s@.len() - q, 0int,
{
    let e = seg_end_x(s, q);
    let first = slice_of(s, q, e);
    let (k, local, trailing) = key_chain_x(s, e, first);
    let key = join_key(prefix, &local);
    let v = skip_ws_x(s, k);
    if trailing {
        if v >= s.len() || s[v] != '"' {
            return Err((FaultX::ExpectedListValue(key), v));
        }
        match value_at_x(s, v) {
            Err(f) => Err(f),
            Ok((val, w)) => {
                let ks = string_of(&key);
                cfg.push_list(ks.as_str(), val.as_str());
                Ok((w, true))
            },
        }
    } else if v < s.len() && s[v] == '{' {
        match parse_block_x(s, v + 1, &key, cfg, incs) {
            Err(f) => Err(f),
            Ok(ip) => match skip_wsc_x(s, ip) {
                Err(x) => Err((FaultX::UnterminatedComment, x)),
                Ok(r) => if r < s.len() && s[r] == '}' {
                    let t = skip_ws_x(s, r + 1);
                    let end = if t < s.len() && s[t] == ';' {
                        t + 1
                    } else {
                        t
                    };
                    Ok((end, true))
                } else {
                    Err((FaultX::Expected('}', char_at_x(s, r)), r))
                },
            },
        }
    } else if v < s.len() && s[v] == '"' {
        match value_at_x(s, v) {
            Err(f) => Err(f),
            Ok((val, w)) => {
                let ks = string_of(&key);
                cfg.set(ks.as_str(), val.as_str());
                Ok((w, true))
            },
        }
    } else {
        Err((FaultX::ExpectedValue(key), v))
    }
}

/// Parses the configuration text `content` into `cfg`, with keys under
/// `prefix` (`""` for none). On an error the statements before it have been
/// applied. `#include` directives are read and skipped.
pub fn parse_into(content: &str, prefix: &str, cfg: &mut AptConfig) -> (r: Result<(), ConfigError>)
    ensures
        final(cfg)@ == parse_config(content@, prefix@, old(cfg)@).entries,
        match parse_config(content@, prefix@, old(cfg)@).fault {
            None => r is Ok,
            Some((f, at)) => r matches Err(ConfigError::Parse(m)) && m@ == fault_message(content@, f, at),
        },
{
    match parse_with_directives(content, prefix, cfg) {
        Ok(_) => Ok(()),
        Err(e) => Err(e),
    }
}

/// [`parse_into`], returning the `#include` and `#include-dir` directives met,
/// in order, for the caller to follow.
pub fn parse_with_directives(content: &str, prefix: &str, cfg: &mut AptConfig) -> (r: Result<
    Vec<IncludeDirective>,
    ConfigError,
>)
    ensures
        final(cfg)@ == parse_config(content@, prefix@, old(cfg)@).entries,
        match parse_config(content@, prefix@, old(cfg)@).fault {
            None => r matches Ok(v) && include_views(v@) == parse_config(content@, prefix@, old(cfg)@).includes,
            Some((f, at)) => r matches Err(ConfigError::Parse(m)) && m@ == fault_message(content@, f, at),
        },
{
    let s = chars_of(content);
    let pre = chars_of(prefix);
    let mut incs: Vec<IncludeDirective> = Vec::new();
    proof {
        assert(include_views(incs@) =~= Seq::<(Seq<char>, bool)>::empty());
    }
    match parse_block_x(&s, 0, &pre, cfg, &mut incs) {
        Ok(_) => Ok(incs),
        Err((f, at)) => Err(fault_error(&s, &f, at)),
    }
}


// ── Nested and flat keys ──────────────────────────────────────────────────────

/// A key segment: one or more key characters.
pub open spec fn key_segment(w: Seq<char>) -> bool {
    w.len() > 0 && forall|i: int| 0 <= i < w.len() ==> is_key_char(#[trigger] w[i])
}

/// A string value written between quotes without escapes.
pub open spec fn plain_value(v: Seq<char>) -> bool {
    forall|i: int| 0 <= i < v.len() ==> #[trigger] v[i] != '"' && v[i] != '\\'
}

proof fn lemma_seg_run(s: Seq<char>, p: int, n: int)
    requires
        0 <= p,
        0 <= n,
        p + n <= s.len(),
        forall|i: int| p <= i < p + n ==> is_key_char(#[trigger] s[i]),
        p + n == s.len() || !is_key_char(s[p + n]),
    ensures
        seg_end(s, p) == p + n,
    decreases n,
{
    if n > 0 {
        assert(is_key_char(s[p]));
        lemma_seg_run(s, p + 1, n - 1);
    }
}

proof fn lemma_str_run(s: Seq<char>, p: int, n: int)
    requires
        0 <= p,
        0 <= n,
        p + n < s.len(),
        forall|i: int| p <= i < p + n ==> #[trigger] s[i] != '"' && s[i] != '\\',
        s[p + n] == '"',
    ensures
        str_body(s, p) == Ok::<(Seq<char>, int), int>((s.subrange(p, p + n), p + n + 1)),
    decreases n,
{
    if n == 0 {
        assert(s.subrange(p, p) =~= Seq::<char>::empty());
    } else {
        assert(s[p] != '"' && s[p] != '\\');
        lemma_str_run(s, p + 1, n - 1);
        assert(seq![s[p]] + s.subrange(p + 1, p + n) =~= s.subrange(p, p + n));
    }
}

proof fn lemma_key_char_not_ws(c: char)
    requires
        is_key_char(c),
    ensures
        !is_ascii_ws(c),
        c != '/',
        c != '#',
        c != '}',
        c != '{',
        c != ':',
        c != '"',
        c != ' ',
{
}

/// `A::B { C "v"; };`
pub open spec fn nested_text(a: Seq<char>, b: Seq<char>, c: Seq<char>, v: Seq<char>) -> Seq<char> {
    a + seq![':', ':'] + b + seq![' ', '{', ' '] + c + seq![' ', '"'] + v + seq!['"', ';', ' ', '}', ';']
}

/// `A::B::C "v";`
pub open spec fn flat_text(a: Seq<char>, b: Seq<char>, c: Seq<char>, v: Seq<char>) -> Seq<char> {
    a + seq![':', ':'] + b + seq![':', ':'] + c + seq![' ', '"'] + v + seq!['"', ';']
}

/// What parsing either text gives: the one entry `A::B::C` (under `prefix`)
/// set to `v`.
pub open spec fn one_entry(prefix: Seq<char>, e: Entries, a: Seq<char>, b: Seq<char>, c: Seq<char>, v: Seq<char>, len: int) -> Parsed {
    Parsed {
        pos: len,
        entries: map_set(e, full_key(prefix, a + "::"@ + b + "::"@ + c), ValueView::Str(v)),
        includes: Seq::empty(),
        fault: None,
    }
}

#[verifier::spinoff_prover]
#[verifier::rlimit(80)]
proof fn lemma_flat_parse(prefix: Seq<char>, e: Entries, a: Seq<char>, b: Seq<char>, c: Seq<char>, v: Seq<char>)
    requires
        key_segment(a),
        key_segment(b),
        key_segment(c),
        plain_value(v),
    ensures
        parse_config(flat_text(a, b, c, v), prefix, e) == one_entry(prefix, e, a, b, c, v, flat_text(a, b, c, v).len() as int),
{
    reveal_strlit("::");
    let s = flat_text(a, b, c, v);
    let la = a.len() as int;
    let lb = b.len() as int;
    let lc = c.len() as int;
    let lv = v.len() as int;
    let p1 = la + 2 + lb;
    let p2 = p1 + 2 + lc;
    let p3 = p2 + 2 + lv;
    assert(s.len() == p3 + 2);
    assert forall|i: int| 0 <= i < la implies s[i] == a[i] by {}
    assert forall|i: int| 0 <= i < lb implies s[la + 2 + i] == b[i] by {}
    assert forall|i: int| 0 <= i < lc implies s[p1 + 2 + i] == c[i] by {}
    assert forall|i: int| 0 <= i < lv implies s[p2 + 2 + i] == v[i] by {}
    assert(s[la] == ':' && s[la + 1] == ':');
    assert(s[p1] == ':' && s[p1 + 1] == ':');
    assert(s[p2] == ' ' && s[p2 + 1] == '"');
    assert(s[p3] == '"' && s[p3 + 1] == ';');
    lemma_key_char_not_ws(a[0]);
    lemma_key_char_not_ws(b[0]);
    lemma_key_char_not_ws(c[0]);
    assert forall|i: int| 0 <= i < la implies is_key_char(#[trigger] s[i]) by {
        assert(s[i] == a[i]);
    }
    assert forall|i: int| la + 2 <= i < p1 implies is_key_char(#[trigger] s[i]) by {
        assert(s[i] == b[i - la - 2]);
    }
    assert forall|i: int| p1 + 2 <= i < p2 implies is_key_char(#[trigger] s[i]) by {
        assert(s[i] == c[i - p1 - 2]);
    }
    assert forall|i: int| p2 + 2 <= i < p3 implies #[trigger] s[i] != '"' && s[i] != '\\' by {
        assert(s[i] == v[i - p2 - 2]);
    }
    lemma_seg_run(s, 0, la);
    lemma_seg_run(s, la + 2, lb);
    lemma_seg_run(s, p1 + 2, lc);
    lemma_str_run(s, p2 + 2, lv);
    assert(s.subrange(0, la) =~= a);
    assert(s.subrange(la + 2, p1) =~= b);
    assert(s.subrange(p1 + 2, p2) =~= c);
    assert(s.subrange(p2 + 2, p3) =~= v);
    assert(skip_ws(s, 0) == 0);
    assert(skip_ws(s, la) == la);
    assert(skip_ws(s, la + 2) == la + 2);
    assert(skip_ws(s, p1) == p1);
    assert(skip_ws(s, p1 + 2) == p1 + 2);
    assert(skip_ws(s, p2 + 1) == p2 + 1);
    assert(skip_ws(s, p2) == p2 + 1);
    assert(skip_ws(s, p3 + 1) == p3 + 1);
    assert(skip_ws(s, p3 + 2) == p3 + 2);
    let k2 = a + "::"@ + b;
    let k3 = k2 + "::"@ + c;
    assert(key_chain(s, p2, k3) == (p2 + 1, k3, false));
    assert(key_chain(s, p1, k2) == key_chain(s, p2, k3));
    assert(key_chain(s, la, a) == key_chain(s, p1, k2));
    assert(value_at(s, p2 + 1) == Ok::<(Seq<char>, int), (Fault, int)>((v, p3 + 2)));
    let st0 = Parsed { pos: 0, entries: e, includes: Seq::empty(), fault: None };
    let r1 = Parsed {
        pos: p3 + 2,
        entries: map_set(e, full_key(prefix, k3), ValueView::Str(v)),
        includes: Seq::empty(),
        fault: None,
    };
    assert(skip_wsc(s, 0) == Ok::<int, int>(0));
    assert(keyed(s, prefix, st0, 0) == Step::Next(r1));
    assert(stmt(s, prefix, st0) == Step::Next(r1));
    assert(skip_wsc(s, p3 + 2) == Ok::<int, int>(p3 + 2));
    assert(stmt(s, prefix, r1) == Step::Done(at_pos(r1, p3 + 2)));
    assert(block(s, prefix, r1) == r1);
    assert(block(s, prefix, st0) == r1);
}

#[verifier::spinoff_prover]
#[verifier::rlimit(80)]
proof fn lemma_nested_layout(a: Seq<char>, b: Seq<char>, c: Seq<char>, v: Seq<char>)
    requires
        key_segment(a),
        key_segment(b),
        key_segment(c),
        plain_value(v),
    ensures
        ({
            let s = nested_text(a, b, c, v);
            let la = a.len() as int;
            let p1 = la + 2 + b.len();
            let c0 = p1 + 3;
            let p2 = c0 + c.len();
            let p3 = p2 + 2 + v.len();
            &&& s.len() == p3 + 5
            &&& s[0] == a[0] && s[c0] == c[0]
            &&& s[p1 + 1] == '{' && s[p2 + 1] == '"' && s[p3 + 1] == ';' && s[p3 + 3] == '}' && s[p3 + 4] == ';'
            &&& seg_end(s, 0) == la && seg_end(s, c0) == p2
            &&& s.subrange(c0, p2) == c
            &&& skip_ws(s, 0) == 0 && skip_ws(s, p1 + 1) == p1 + 1 && skip_ws(s, p1 + 2) == c0
            &&& skip_ws(s, p2 + 1) == p2 + 1 && skip_ws(s, p3 + 2) == p3 + 3 && skip_ws(s, p3 + 3) == p3 + 3
            &&& skip_ws(s, p3 + 4) == p3 + 4 && skip_ws(s, p3 + 5) == p3 + 5
            &&& key_chain(s, la, s.subrange(0, la)) == (p1 + 1, a + "::"@ + b, false)
            &&& key_chain(s, p2, c) == (p2 + 1, c, false)
            &&& value_at(s, p2 + 1) == Ok::<(Seq<char>, int), (Fault, int)>((v, p3 + 2))
        }),
{
    reveal_strlit("::");
    let s = nested_text(a, b, c, v);
    let la = a.len() as int;
    let lb = b.len() as int;
    let lc = c.len() as int;
    let lv = v.len() as int;
    let p1 = la + 2 + lb;
    let c0 = p1 + 3;
    let p2 = c0 + lc;
    let p3 = p2 + 2 + lv;
    assert(s.len() == p3 + 5);
    assert(s[la] == ':' && s[la + 1] == ':');
    assert(s[p1] == ' ' && s[p1 + 1] == '{' && s[p1 + 2] == ' ');
    assert(s[p2] == ' ' && s[p2 + 1] == '"');
    assert(s[p3] == '"' && s[p3 + 1] == ';' && s[p3 + 2] == ' ' && s[p3 + 3] == '}' && s[p3 + 4] == ';');
    lemma_key_char_not_ws(a[0]);
    lemma_key_char_not_ws(b[0]);
    lemma_key_char_not_ws(c[0]);
    assert forall|i: int| 0 <= i < la implies is_key_char(#[trigger] s[i]) by {
        assert(s[i] == a[i]);
    }
    assert forall|i: int| la + 2 <= i < p1 implies is_key_char(#[trigger] s[i]) by {
        assert(s[i] == b[i - la - 2]);
    }
    assert forall|i: int| c0 <= i < p2 implies is_key_char(#[trigger] s[i]) by {
        assert(s[i] == c[i - c0]);
    }
    assert forall|i: int| p2 + 2 <= i < p3 implies #[trigger] s[i] != '"' && s[i] != '\\' by {
        assert(s[i] == v[i - p2 - 2]);
    }
    assert(s[0] == a[0]);
    assert(s[la + 2] == b[0]);
    assert(s[c0] == c[0]);
    lemma_seg_run(s, 0, la);
    lemma_seg_run(s, la + 2, lb);
    lemma_seg_run(s, c0, lc);
    lemma_str_run(s, p2 + 2, lv);
    assert(s.subrange(0, la) =~= a);
    assert(s.subrange(la + 2, p1) =~= b);
    assert(s.subrange(c0, p2) =~= c);
    assert(s.subrange(p2 + 2, p3) =~= v);
    assert(skip_ws(s, la) == la);
    assert(skip_ws(s, la + 2) == la + 2);
    assert(skip_ws(s, p1 + 1) == p1 + 1);
    assert(skip_ws(s, p1) == p1 + 1);
    assert(skip_ws(s, c0) == c0);
    assert(skip_ws(s, p2 + 1) == p2 + 1);
    assert(skip_ws(s, p2) == p2 + 1);
    assert(skip_ws(s, p3 + 1) == p3 + 1);
    assert(skip_ws(s, p3 + 3) == p3 + 3);
    assert(skip_ws(s, p3 + 4) == p3 + 4);
    let k2 = a + "::"@ + b;
    assert(key_chain(s, p1, k2) == (p1 + 1, k2, false));
    assert(key_chain(s, la, a) == key_chain(s, p1, k2));
}

#[verifier::spinoff_prover]
#[verifier::rlimit(80)]
proof fn lemma_nested_parse(prefix: Seq<char>, e: Entries, a: Seq<char>, b: Seq<char>, c: Seq<char>, v: Seq<char>)
    requires
        key_segment(a),
        key_segment(b),
        key_segment(c),
        plain_value(v),
    ensures
        parse_config(nested_text(a, b, c, v), prefix, e) == one_entry(prefix, e, a, b, c, v, nested_text(a, b, c, v).len() as int),
{
    reveal_strlit("::");
    lemma_nested_layout(a, b, c, v);
    lemma_key_char_not_ws(a[0]);
    lemma_key_char_not_ws(c[0]);
    let s = nested_text(a, b, c, v);
    let la = a.len() as int;
    let p1 = la + 2 + b.len();
    let c0 = p1 + 3;
    let p2 = c0 + c.len();
    let p3 = p2 + 2 + v.len();
    let k2 = a + "::"@ + b;
    let key = full_key(prefix, k2);
    let key2 = full_key(key, c);
    assert(key2 =~= full_key(prefix, k2 + "::"@ + c));
    let st0 = Parsed { pos: 0, entries: e, includes: Seq::empty(), fault: None };
    let sa = at_pos(st0, p1 + 2);
    let r1 = Parsed {
        pos: p3 + 2,
        entries: map_set(e, key2, ValueView::Str(v)),
        includes: Seq::empty(),
        fault: None,
    };
    assert(skip_wsc(s, p1 + 2) == Ok::<int, int>(c0));
    assert(keyed(s, key, sa, c0) == Step::Next(r1));
    assert(stmt(s, key, sa) == Step::Next(r1));
    assert(skip_wsc(s, p3 + 2) == Ok::<int, int>(p3 + 3));
    let inner = at_pos(r1, p3 + 3);
    assert(stmt(s, key, r1) == Step::Done(inner));
    assert(block(s, key, r1) == inner);
    assert(block(s, key, sa) == inner);
    assert(skip_wsc(s, p3 + 3) == Ok::<int, int>(p3 + 3));
    let r2 = at_pos(inner, p3 + 5);
    assert(skip_wsc(s, 0) == Ok::<int, int>(0));
    assert(keyed(s, prefix, st0, 0) == Step::Next(r2));
    assert(stmt(s, prefix, st0) == Step::Next(r2));
    assert(skip_wsc(s, p3 + 5) == Ok::<int, int>(p3 + 5));
    assert(stmt(s, prefix, r2) == Step::Done(at_pos(r2, p3 + 5)));
    assert(block(s, prefix, r2) == r2);
    assert(block(s, prefix, st0) == r2);
}

/// A block is keyed under its header's full key: parsing `A::B { C "v"; };`
/// and parsing `A::B::C "v";` (for key segments `A`, `B`, `C` and a value
/// without quotes or backslashes) both succeed, reading the whole text, and
/// give the same entries: `A::B::C` (under the enclosing scope) set to `v`.
pub proof fn lemma_nested_is_flat(prefix: Seq<char>, e: Entries, a: Seq<char>, b: Seq<char>, c: Seq<char>, v: Seq<char>)
    requires
        key_segment(a),
        key_segment(b),
        key_segment(c),
        plain_value(v),
    ensures
        parse_config(nested_text(a, b, c, v), prefix, e).fault is None,
        parse_config(flat_text(a, b, c, v), prefix, e).fault is None,
        parse_config(nested_text(a, b, c, v), prefix, e).entries == parse_config(flat_text(a, b, c, v), prefix, e).entries,
        parse_config(flat_text(a, b, c, v), prefix, e).entries == map_set(
            e,
            full_key(prefix, a + "::"@ + b + "::"@ + c),
            ValueView::Str(v),
        ),
{
    lemma_nested_parse(prefix, e, a, b, c, v);
    lemma_flat_parse(prefix, e, a, b, c, v);
}

} // verus!
