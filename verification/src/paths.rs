//! Unix path arithmetic on text, as `std::path::Path` performs it:
//! joining and taking the file name.

use vstd::prelude::*;
use crate::text::{chars_of, own, push_str, split_char, split_char_exec, string_of, views};

verus! {

/// `Path::join` on Unix: an absolute `rel` replaces `base`; otherwise a
/// separator goes between them unless `base` is empty or already ends in one.
pub open spec fn path_join(base: Seq<char>, rel: Seq<char>) -> Seq<char> {
    if rel.len() > 0 && rel[0] == '/' {
        rel
    } else if base.len() == 0 || base.last() == '/' {
        base + rel
    } else {
        base + "/"@ + rel
    }
}

/// The normal components among the `/`-separated pieces: empty pieces and
/// `.` are dropped, as `Path::components` normalises them.
pub open spec fn path_parts(pieces: Seq<Seq<char>>) -> Seq<Seq<char>>
    decreases pieces.len(),
{
    if pieces.len() == 0 {
        Seq::empty()
    } else {
        let rest = path_parts(pieces.drop_last());
        let l = pieces.last();
        if l.len() == 0 || l == "."@ {
            rest
        } else {
            rest.push(l)
        }
    }
}

/// `Path::file_name`: the last component, unless there is none or it is
/// `..`.
pub open spec fn file_name(p: Seq<char>) -> Option<Seq<char>> {
    let c = path_parts(split_char(p, '/'));
    if c.len() == 0 || c.last() == ".."@ {
        None
    } else {
        Some(c.last())
    }
}

/// `base` joined with `rel`.
pub fn join_path(base: &str, rel: &str) -> (r: String)
    ensures
        r@ == path_join(base@, rel@),
{
    let b = chars_of(base);
    let q = chars_of(rel);
    if q.len() > 0 && q[0] == '/' {
        own(rel)
    } else if b.len() == 0 || b[b.len() - 1] == '/' {
        let mut out = own(base);
        push_str(&mut out, rel);
        out
    } else {
        let mut out = own(base);
        push_str(&mut out, "/");
        push_str(&mut out, rel);
        out
    }
}

fn is_dot(v: &Vec<char>) -> (r: bool)
    ensures
        r == (v@ == "."@),
{
    proof {
        reveal_strlit(".");
    }
    if v.len() == 1 && v[0] == '.' {
        assert(v@ =~= "."@);
        true
    } else {
        false
    }
}

fn is_dot_dot(v: &Vec<char>) -> (r: bool)
    ensures
        r == (v@ == ".."@),
{
    proof {
        reveal_strlit("..");
    }
    if v.len() == 2 && v[0] == '.' && v[1] == '.' {
        assert(v@ =~= ".."@);
        true
    } else {
        false
    }
}

/// The file name of `p`, as `Path::file_name` gives it.
pub fn file_name_of(p: &str) -> (r: Option<String>)
    ensures
        match file_name(p@) {
            Some(n) => r matches Some(x) && x@ == n,
            None => r is None,
        },
{
    let v = chars_of(p);
    let pieces = split_char_exec(&v, 0, v.len(), '/');
    let ghost pv = views(pieces@);
    proof {
        assert(v@.subrange(0, v@.len() as int) =~= v@);
    }
    let mut last: Option<usize> = None;
    let mut i: usize = 0;
    while i < pieces.len()
        invariant
            i <= pieces@.len(),
            pv == views(pieces@),
            match last {
                Some(j) => j < i && path_parts(pv.take(i as int)).len() > 0
                    && path_parts(pv.take(i as int)).last() == pv[j as int],
                None => path_parts(pv.take(i as int)).len() == 0,
            },
        decreases pieces.len() - i,
    {
        proof {
            assert(pv.take(i + 1).drop_last() =~= pv.take(i as int));
        }
        if pieces[i].len() > 0 && !is_dot(&pieces[i]) {
            last = Some(i);
        }
        i = i + 1;
    }
    proof {
        assert(pv.take(pv.len() as int) =~= pv);
    }
    match last {
        Some(j) => {
            if is_dot_dot(&pieces[j]) {
                None
            } else {
                Some(string_of(&pieces[j]))
            }
        },
        None => None,
    }
}

} // verus!
