//! Parsing of deb822 stanzas (`Key: value` lines with folded continuation
//! lines) and the splitting of a document into blank-line separated stanzas.

use vstd::prelude::*;
use crate::text::{index_of, lemma_index_of, lines, lines_exec, trim, trim_bounds, views, slice_of,
    find_char, split_str, split_str_exec, lemma_find_sub};
use crate::fields::{Pairs, map_set, has_key, cv_pairs, set_cv, find_key_cv, lemma_key_index,
    key_index};

verus! {

/// Parser state after some lines of a stanza.
pub struct ParaState {
    /// Fields collected so far.
    pub fields: Pairs,
    /// The key that continuation lines extend.
    pub cur: Option<Seq<char>>,
    /// A repeated key, when duplicates are rejected.
    pub dup: Option<Seq<char>>,
}

pub open spec fn para_init() -> ParaState {
    ParaState { fields: Seq::empty(), cur: None, dup: None }
}

/// One line of a stanza.
///
/// Empty lines are skipped; a line starting with a space or tab appends a
/// newline and the line without its first character to the current field;
/// otherwise a line with a `:` sets `key: value` (the key trimmed when
/// `trim_key`, the value always trimmed) and makes `key` current. With
/// `strict`, a key that is already present stops the parse.
pub open spec fn para_step(st: ParaState, line: Seq<char>, strict: bool, trim_key: bool) -> ParaState {
    if st.dup is Some || line.len() == 0 {
        st
    } else if line[0] == ' ' || line[0] == '\t' {
        match st.cur {
            Some(k) => if has_key(st.fields, k) {
                let i = key_index(st.fields, k) as int;
                ParaState {
                    fields: st.fields.update(i, (k, st.fields[i].1 + seq!['\n'] + line.drop_first())),
                    cur: st.cur,
                    dup: None,
                }
            } else {
                st
            },
            None => st,
        }
    } else {
        let c = index_of(line, ':');
        if c < line.len() {
            let key = if trim_key {
                trim(line.take(c as int))
            } else {
                line.take(c as int)
            };
            let value = trim(line.skip((c + 1) as int));
            if strict && has_key(st.fields, key) {
                ParaState { fields: st.fields, cur: st.cur, dup: Some(key) }
            } else {
                ParaState { fields: map_set(st.fields, key, value), cur: Some(key), dup: None }
            }
        } else {
            st
        }
    }
}

/// The state after all of `ls`.
pub open spec fn para_fold(ls: Seq<Seq<char>>, strict: bool, trim_key: bool) -> ParaState
    decreases ls.len(),
{
    if ls.len() == 0 {
        para_init()
    } else {
        para_step(para_fold(ls.drop_last(), strict, trim_key), ls.last(), strict, trim_key)
    }
}

/// A stanza's fields, or the first repeated key when `strict`.
pub open spec fn parse_para(stanza: Seq<char>, strict: bool, trim_key: bool) -> Result<Pairs, Seq<char>> {
    let st = para_fold(lines(stanza), strict, trim_key);
    match st.dup {
        Some(k) => Err(k),
        None => Ok(st.fields),
    }
}

/// The blank-line separator.
pub open spec fn blank_sep() -> Seq<char> {
    seq!['\n', '\n']
}

/// Trimmed pieces that are not empty, in order.
pub open spec fn trimmed_nonempty(parts: Seq<Seq<char>>) -> Seq<Seq<char>>
    decreases parts.len(),
{
    if parts.len() == 0 {
        Seq::empty()
    } else {
        let rest = trimmed_nonempty(parts.drop_last());
        if trim(parts.last()).len() > 0 {
            rest.push(trim(parts.last()))
        } else {
            rest
        }
    }
}

/// The stanzas of a document: split at `"\n\n"`, trimmed, empty ones dropped.
pub open spec fn stanzas(input: Seq<char>) -> Seq<Seq<char>> {
    trimmed_nonempty(split_str(input, blank_sep()))
}

pub open spec fn opt_view(o: Option<Vec<char>>) -> Option<Seq<char>> {
    match o {
        Some(v) => Some(v@),
        None => None,
    }
}

/// Copy of a character vector.
pub fn copy_chars(v: &Vec<char>) -> (r: Vec<char>)
    ensures
        r@ == v@,
{
    let r = slice_of(v, 0, v.len());
    assert(v@.subrange(0, v@.len() as int) =~= v@);
    r
}

/// One step of the stanza parser on the line `line`.
fn para_step_exec(
    fields: &mut Vec<(Vec<char>, Vec<char>)>,
    cur: &Option<Vec<char>>,
    line: &Vec<char>,
    strict: bool,
    trim_key: bool,
) -> (r: Result<Option<Vec<char>>, Vec<char>>)
    ensures
        ({
            let st = ParaState { fields: cv_pairs(old(fields)@), cur: opt_view(*cur), dup: None };
            let nx = para_step(st, line@, strict, trim_key);
            match r {
                Err(d) => nx.dup == Some(d@),
                Ok(c) => nx.dup is None && nx.fields == cv_pairs(final(fields)@) && nx.cur
                    == opt_view(c),
            }
        }),
{
    let n = line.len();
    if n == 0 {
        return Ok(copy_opt(cur));
    }
    if line[0] == ' ' || line[0] == '\t' {
        match cur {
            Some(k) => {
                let i = find_key_cv(fields, k);
                proof {
                    lemma_key_index(cv_pairs(fields@), k@);
                }
                if i < fields.len() {
                    let mut val = copy_chars(&fields[i].1);
                    val.push('\n');
                    let mut j: usize = 1;
                    let ghost base = val@;
                    proof {
                        assert(base =~= cv_pairs(fields@)[i as int].1 + seq!['\n']);
                    }
                    while j < n
                        invariant
                            1 <= j <= n == line@.len(),
                            val@ == base + line@.subrange(1, j as int),
                        decreases n - j,
                    {
                        val.push(line[j]);
                        j = j + 1;
                        assert(val@ =~= base + line@.subrange(1, j as int));
                    }
                    let kc = copy_chars(k);
                    let ghost f = cv_pairs(fields@);
                    let ghost kv = kc@;
                    let ghost vv = val@;
                    fields.set(i, (kc, val));
                    proof {
                        assert(line@.subrange(1, n as int) =~= line@.drop_first());
                        assert(vv =~= f[i as int].1 + seq!['\n'] + line@.drop_first());
                        assert(kv == k@);
                        assert(cv_pairs(fields@) =~= f.update(i as int, (kv, vv)));
                    }
                }
                return Ok(copy_opt(cur));
            },
            None => {
                return Ok(None);
            },
        }
    }
    let c = find_char(line, 0, n, ':');
    proof {
        assert(line@.subrange(0, n as int) =~= line@);
        lemma_index_of(line@, ':');
    }
    if c >= n {
        return Ok(copy_opt(cur));
    }
    let key = if trim_key {
        let (a, b) = trim_bounds(line, 0, c);
        slice_of(line, a, b)
    } else {
        slice_of(line, 0, c)
    };
    let (va, vb) = trim_bounds(line, c + 1, n);
    let value = slice_of(line, va, vb);
    proof {
        assert(line@.subrange(0, c as int) =~= line@.take(c as int));
        assert(line@.subrange(c + 1, n as int) =~= line@.skip(c + 1));
    }
    let existing = find_key_cv(fields, &key);
    if strict && existing < fields.len() {
        return Err(key);
    }
    let key2 = copy_chars(&key);
    set_cv(fields, key, value);
    Ok(Some(key2))
}

fn copy_opt(o: &Option<Vec<char>>) -> (r: Option<Vec<char>>)
    ensures
        opt_view(r) == opt_view(*o),
{
    match o {
        Some(v) => Some(copy_chars(v)),
        None => None,
    }
}

/// Parses the stanza `v[lo..hi]`.
pub fn parse_para_exec(v: &Vec<char>, lo: usize, hi: usize, strict: bool, trim_key: bool) -> (r:
    Result<Vec<(Vec<char>, Vec<char>)>, Vec<char>>)
    requires
        lo <= hi <= v@.len(),
    ensures
        match parse_para(v@.subrange(lo as int, hi as int), strict, trim_key) {
            Ok(f) => r matches Ok(x) && cv_pairs(x@) == f,
            Err(k) => r matches Err(x) && x@ == k,
        },
{
    let ls = lines_exec(v, lo, hi);
    let ghost lv = views(ls@);
    let mut fields: Vec<(Vec<char>, Vec<char>)> = Vec::new();
    let mut cur: Option<Vec<char>> = None;
    let mut i: usize = 0;
    proof {
        assert(lv.take(0) =~= Seq::<Seq<char>>::empty());
        assert(cv_pairs(fields@) =~= Seq::<(Seq<char>, Seq<char>)>::empty());
    }
    while i < ls.len()
        invariant
            0 <= i <= ls@.len(),
            lv == views(ls@),
            lv == lines(v@.subrange(lo as int, hi as int)),
            para_fold(lv.take(i as int), strict, trim_key) == (ParaState {
                fields: cv_pairs(fields@),
                cur: opt_view(cur),
                dup: None,
            }),
        decreases ls.len() - i,
    {
        let step = para_step_exec(&mut fields, &cur, &ls[i], strict, trim_key);
        proof {
            assert(lv.take(i + 1).drop_last() =~= lv.take(i as int));
            assert(lv.take(i + 1).last() == ls@[i as int]@);
        }
        match step {
            Err(k) => {
                proof {
                    lemma_dup_sticks(lv, i + 1, strict, trim_key);
                    assert(lv.take(lv.len() as int) =~= lv);
                }
                return Err(k);
            },
            Ok(c) => {
                cur = c;
            },
        }
        i = i + 1;
    }
    proof {
        assert(lv.take(lv.len() as int) =~= lv);
    }
    Ok(fields)
}

/// Once a duplicate key is recorded, later lines change nothing.
proof fn lemma_dup_sticks(ls: Seq<Seq<char>>, i: int, strict: bool, trim_key: bool)
    requires
        0 <= i <= ls.len(),
        para_fold(ls.take(i), strict, trim_key).dup is Some,
    ensures
        para_fold(ls, strict, trim_key) == para_fold(ls.take(i), strict, trim_key),
    decreases ls.len() - i,
{
    if i < ls.len() {
        assert(ls.take(i + 1).drop_last() =~= ls.take(i));
        lemma_dup_sticks(ls, i + 1, strict, trim_key);
    } else {
        assert(ls.take(i) =~= ls);
    }
}

/// The stanzas of `v` (see `stanzas`).
pub fn split_stanzas_exec(v: &Vec<char>) -> (r: Vec<Vec<char>>)
    ensures
        views(r@) == stanzas(v@),
{
    let sep: Vec<char> = vec!['\n', '\n'];
    proof {
        assert(sep@ =~= blank_sep());
        assert(v@.subrange(0, v@.len() as int) =~= v@);
    }
    let parts = split_str_exec(v, 0, v.len(), &sep);
    let ghost pv = views(parts@);
    let mut out: Vec<Vec<char>> = Vec::new();
    let mut i: usize = 0;
    while i < parts.len()
        invariant
            0 <= i <= parts@.len(),
            pv == views(parts@),
            pv == split_str(v@, blank_sep()),
            views(out@) == trimmed_nonempty(pv.take(i as int)),
        decreases parts.len() - i,
    {
        let p = &parts[i];
        let (a, b) = trim_bounds(p, 0, p.len());
        proof {
            assert(p@.subrange(0, p@.len() as int) =~= p@);
            assert(pv.take(i + 1).drop_last() =~= pv.take(i as int));
            assert(pv.take(i + 1).last() == p@);
        }
        if a < b {
            let t = slice_of(p, a, b);
            let ghost before = views(out@);
            out.push(t);
            proof {
                assert(views(out@) =~= before.push(t@));
            }
        }
        i = i + 1;
    }
    proof {
        assert(pv.take(pv.len() as int) =~= pv);
    }
    out
}

} // verus!
