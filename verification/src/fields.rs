//! Ordered key/value lists: insertion order is kept and a key occurs at most
//! once. Used for control-file stanzas and other small maps of text.

use vstd::prelude::*;
use crate::text::{chars_eq, chars_of, string_of, ascii_lower};

verus! {

/// An ordered list of `(key, value)` character sequences.
pub type Pairs = Seq<(Seq<char>, Seq<char>)>;

/// Index of the first entry whose key is `k`, or `f.len()`.
pub open spec fn key_index<V>(f: Seq<(Seq<char>, V)>, k: Seq<char>) -> nat
    decreases f.len(),
{
    if f.len() == 0 {
        0
    } else if f[0].0 == k {
        0
    } else {
        1 + key_index(f.drop_first(), k)
    }
}

pub open spec fn has_key<V>(f: Seq<(Seq<char>, V)>, k: Seq<char>) -> bool {
    key_index(f, k) < f.len()
}

/// The value stored under `k`.
pub open spec fn map_get<V>(f: Seq<(Seq<char>, V)>, k: Seq<char>) -> Option<V> {
    if has_key(f, k) {
        Some(f[key_index(f, k) as int].1)
    } else {
        None
    }
}

/// Insert or replace: an existing key keeps its position.
pub open spec fn map_set<V>(f: Seq<(Seq<char>, V)>, k: Seq<char>, v: V) -> Seq<(Seq<char>, V)> {
    if has_key(f, k) {
        f.update(key_index(f, k) as int, (k, v))
    } else {
        f.push((k, v))
    }
}

/// No key occurs twice.
pub open spec fn unique_keys<V>(f: Seq<(Seq<char>, V)>) -> bool {
    forall|i: int, j: int| 0 <= i < j < f.len() ==> f[i].0 != f[j].0
}

pub proof fn lemma_key_index<V>(f: Seq<(Seq<char>, V)>, k: Seq<char>)
    ensures
        key_index(f, k) <= f.len(),
        key_index(f, k) < f.len() ==> f[key_index(f, k) as int].0 == k,
        forall|m: int| 0 <= m < key_index(f, k) ==> f[m].0 != k,
    decreases f.len(),
{
    if f.len() > 0 && f[0].0 != k {
        lemma_key_index(f.drop_first(), k);
        assert forall|m: int| 0 <= m < key_index(f, k) implies f[m].0 != k by {
            if m > 0 {
                assert(f[m] == f.drop_first()[m - 1]);
            }
        }
    }
}

pub proof fn lemma_key_index_at<V>(f: Seq<(Seq<char>, V)>, k: Seq<char>, i: int)
    requires
        0 <= i <= f.len(),
        i < f.len() ==> f[i].0 == k,
        forall|m: int| 0 <= m < i ==> f[m].0 != k,
    ensures
        key_index(f, k) == i,
    decreases f.len(),
{
    if f.len() > 0 && i > 0 {
        assert forall|m: int| 0 <= m < i - 1 implies f.drop_first()[m].0 != k by {
            assert(f.drop_first()[m] == f[m + 1]);
        }
        lemma_key_index_at(f.drop_first(), k, i - 1);
    }
}

/// Setting a key keeps keys unique; afterwards the key maps to the value and
/// every other key keeps its value.
pub proof fn lemma_map_set<V>(f: Seq<(Seq<char>, V)>, k: Seq<char>, v: V)
    ensures
        unique_keys(f) ==> unique_keys(map_set(f, k, v)),
        map_get(map_set(f, k, v), k) == Some(v),
        forall|k2: Seq<char>| k2 != k ==> map_get(map_set(f, k, v), k2) == map_get(f, k2),
        has_key(f, k) ==> map_set(f, k, v).len() == f.len(),
        !has_key(f, k) ==> map_set(f, k, v).len() == f.len() + 1,
{
    lemma_key_index(f, k);
    let g = map_set(f, k, v);
    let i = key_index(f, k) as int;
    if has_key(f, k) {
        lemma_key_index_at(g, k, i);
        assert forall|k2: Seq<char>| k2 != k implies map_get(g, k2) == map_get(f, k2) by {
            lemma_key_index(f, k2);
            let j = key_index(f, k2) as int;
            assert forall|m: int| 0 <= m < j implies g[m].0 != k2 by {
                if m == i {
                } else {
                    assert(g[m] == f[m]);
                }
            }
            if j < f.len() {
                assert(j != i);
                assert(g[j] == f[j]);
            }
            lemma_key_index_at(g, k2, j);
        }
    } else {
        lemma_key_index_at(g, k, f.len() as int);
        assert forall|k2: Seq<char>| k2 != k implies map_get(g, k2) == map_get(f, k2) by {
            lemma_key_index(f, k2);
            let j = key_index(f, k2) as int;
            assert forall|m: int| 0 <= m < j implies g[m].0 != k2 by {
                assert(g[m] == f[m]);
            }
            if j < f.len() {
                assert(g[j] == f[j]);
                lemma_key_index_at(g, k2, j);
            } else {
                assert(g[f.len() as int].0 == k);
                lemma_key_index_at(g, k2, g.len() as int);
            }
        }
    }
}

/// `f` without the entry for `k`.
pub open spec fn map_remove<V>(f: Seq<(Seq<char>, V)>, k: Seq<char>) -> Seq<(Seq<char>, V)> {
    if has_key(f, k) {
        f.remove(key_index(f, k) as int)
    } else {
        f
    }
}

/// Removing a key: afterwards it is absent (when keys were unique), and
/// every other key keeps its value.
pub proof fn lemma_map_remove<V>(f: Seq<(Seq<char>, V)>, k: Seq<char>)
    ensures
        unique_keys(f) ==> unique_keys(map_remove(f, k)),
        unique_keys(f) ==> map_get(map_remove(f, k), k) is None,
        forall|k2: Seq<char>| k2 != k ==> map_get(map_remove(f, k), k2) == map_get(f, k2),
{
    lemma_key_index(f, k);
    let g = map_remove(f, k);
    let i = key_index(f, k) as int;
    if has_key(f, k) {
        assert forall|m: int| 0 <= m < g.len() implies #[trigger] g[m] == (if m < i { f[m] } else { f[m + 1] }) by {}
        if unique_keys(f) {
            assert forall|a: int, b: int| 0 <= a < b < g.len() implies g[a].0 != g[b].0 by {
                let fa = if a < i { a } else { a + 1 };
                let fb = if b < i { b } else { b + 1 };
                assert(g[a] == f[fa] && g[b] == f[fb]);
            }
            assert forall|m: int| 0 <= m < g.len() implies g[m].0 != k by {
                let fm = if m < i { m } else { m + 1 };
                assert(g[m] == f[fm]);
                assert(fm != i);
                if fm < i {
                } else {
                    assert(f[i].0 == k);
                }
            }
            lemma_key_index_at(g, k, g.len() as int);
        }
        assert forall|k2: Seq<char>| k2 != k implies map_get(g, k2) == map_get(f, k2) by {
            lemma_key_index(f, k2);
            let j = key_index(f, k2) as int;
            if j < i {
                assert forall|m: int| 0 <= m < j implies g[m].0 != k2 by {
                    assert(g[m] == f[m]);
                }
                assert(g[j] == f[j]);
                lemma_key_index_at(g, k2, j);
            } else {
                assert(j != i);
                assert forall|m: int| 0 <= m < j - 1 implies g[m].0 != k2 by {
                    if m < i {
                        assert(g[m] == f[m]);
                    } else {
                        assert(g[m] == f[m + 1]);
                    }
                }
                if j < f.len() {
                    assert(g[j - 1] == f[j]);
                }
                lemma_key_index_at(g, k2, j - 1);
            }
        }
    }
}

/// Character-vector pairs viewed as sequences.
pub open spec fn cv_pairs(v: Seq<(Vec<char>, Vec<char>)>) -> Pairs {
    Seq::new(v.len(), |i: int| (v[i].0@, v[i].1@))
}

/// String pairs viewed as sequences.
pub open spec fn str_pairs(v: Seq<(String, String)>) -> Pairs {
    Seq::new(v.len(), |i: int| (v[i].0@, v[i].1@))
}

/// Index of key `k` in a character-vector pair list.
pub fn find_key_cv(v: &Vec<(Vec<char>, Vec<char>)>, k: &Vec<char>) -> (r: usize)
    ensures
        r == key_index(cv_pairs(v@), k@),
{
    let ghost f = cv_pairs(v@);
    let mut i: usize = 0;
    while i < v.len()
        invariant
            0 <= i <= v@.len(),
            f == cv_pairs(v@),
            forall|m: int| 0 <= m < i ==> f[m].0 != k@,
        decreases v.len() - i,
    {
        if chars_eq(&v[i].0, k) {
            proof {
                lemma_key_index_at(f, k@, i as int);
            }
            return i;
        }
        i = i + 1;
    }
    proof {
        lemma_key_index_at(f, k@, i as int);
    }
    i
}

/// Insert or replace in a character-vector pair list.
pub fn set_cv(v: &mut Vec<(Vec<char>, Vec<char>)>, k: Vec<char>, val: Vec<char>)
    ensures
        cv_pairs(final(v)@) == map_set(cv_pairs(old(v)@), k@, val@),
{
    let i = find_key_cv(v, &k);
    let ghost f = cv_pairs(v@);
    proof {
        lemma_key_index(f, k@);
    }
    if i < v.len() {
        let ghost kk = k@;
        let ghost vv = val@;
        v.set(i, (k, val));
        proof {
            assert(cv_pairs(v@) =~= f.update(i as int, (kk, vv)));
        }
    } else {
        let ghost kk = k@;
        let ghost vv = val@;
        v.push((k, val));
        proof {
            assert(cv_pairs(v@) =~= f.push((kk, vv)));
        }
    }
}

/// Index of key `k` in a string pair list.
pub fn find_key_str(v: &Vec<(String, String)>, k: &Vec<char>) -> (r: usize)
    ensures
        r == key_index(str_pairs(v@), k@),
{
    let ghost f = str_pairs(v@);
    let mut i: usize = 0;
    while i < v.len()
        invariant
            0 <= i <= v@.len(),
            f == str_pairs(v@),
            forall|m: int| 0 <= m < i ==> f[m].0 != k@,
        decreases v.len() - i,
    {
        let key = chars_of(v[i].0.as_str());
        if chars_eq(&key, k) {
            proof {
                lemma_key_index_at(f, k@, i as int);
            }
            return i;
        }
        i = i + 1;
    }
    proof {
        lemma_key_index_at(f, k@, i as int);
    }
    i
}

/// Insert or replace in a string pair list.
pub fn set_str(v: &mut Vec<(String, String)>, k: String, val: String)
    ensures
        str_pairs(final(v)@) == map_set(str_pairs(old(v)@), k@, val@),
{
    let kc = chars_of(k.as_str());
    let i = find_key_str(v, &kc);
    let ghost f = str_pairs(v@);
    let ghost kv = (k@, val@);
    proof {
        lemma_key_index(f, k@);
    }
    if i < v.len() {
        v.set(i, (k, val));
        assert(str_pairs(v@) =~= f.update(i as int, kv));
    } else {
        v.push((k, val));
        assert(str_pairs(v@) =~= f.push(kv));
    }
}

/// Converts a character-vector pair list into a string pair list.
pub fn to_str_pairs(v: &Vec<(Vec<char>, Vec<char>)>) -> (r: Vec<(String, String)>)
    ensures
        str_pairs(r@) == cv_pairs(v@),
{
    let mut out: Vec<(String, String)> = Vec::new();
    let mut i: usize = 0;
    while i < v.len()
        invariant
            0 <= i <= v@.len(),
            str_pairs(out@) == cv_pairs(v@).take(i as int),
        decreases v.len() - i,
    {
        let a = string_of(&v[i].0);
        let b = string_of(&v[i].1);
        let ghost before = str_pairs(out@);
        let ghost pair = (a@, b@);
        out.push((a, b));
        proof {
            assert(pair == cv_pairs(v@)[i as int]);
            assert(str_pairs(out@) =~= before.push(pair));
            assert(str_pairs(out@) =~= cv_pairs(v@).take(i + 1));
        }
        i = i + 1;
    }
    proof {
        assert(cv_pairs(v@).take(v@.len() as int) =~= cv_pairs(v@));
    }
    out
}

/// Index of the first entry whose key, lowercased with `fold`, equals `target`.
pub open spec fn fold_index(f: Pairs, target: Seq<char>, fold: spec_fn(Seq<char>) -> Seq<char>) -> nat
    decreases f.len(),
{
    if f.len() == 0 {
        0
    } else if fold(f[0].0) == target {
        0
    } else {
        1 + fold_index(f.drop_first(), target, fold)
    }
}

pub proof fn lemma_fold_index_at(
    f: Pairs,
    target: Seq<char>,
    fold: spec_fn(Seq<char>) -> Seq<char>,
    i: int,
)
    requires
        0 <= i <= f.len(),
        i < f.len() ==> fold(f[i].0) == target,
        forall|m: int| 0 <= m < i ==> fold(#[trigger] f[m].0) != target,
    ensures
        fold_index(f, target, fold) == i,
    decreases f.len(),
{
    if f.len() > 0 && i > 0 {
        assert forall|m: int| 0 <= m < i - 1 implies fold(#[trigger] f.drop_first()[m].0) != target by {
            assert(f.drop_first()[m] == f[m + 1]);
        }
        lemma_fold_index_at(f.drop_first(), target, fold, i - 1);
    }
}

/// Case-insensitive lookup: the exact key first, otherwise the first key
/// (in insertion order) whose folded form equals the folded query.
pub open spec fn fold_get(
    f: Pairs,
    k: Seq<char>,
    target: Seq<char>,
    fold: spec_fn(Seq<char>) -> Seq<char>,
) -> Option<Seq<char>> {
    if has_key(f, k) {
        map_get(f, k)
    } else if fold_index(f, target, fold) < f.len() {
        Some(f[fold_index(f, target, fold) as int].1)
    } else {
        None
    }
}

} // verus!
