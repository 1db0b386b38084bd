//! APT configuration (`apt.conf`, `apt.conf.d/`): a hierarchical key/value
//! format whose nested scopes `A { B "v"; };` and flat paths `A::B "v";` are
//! equivalent. Values are stored under their full `::` path; `Key:: "v";`
//! appends to a list.

use vstd::prelude::*;
use crate::text::{ascii_lower, ascii_text, chars_of, chars_eq, is_ascii_ws, lowercase, to_lowercase, trim, trim_vec,
    string_of, own, push_str, push_char, push_chars, slice_of};
use crate::numeric::{parse_unsigned, parse_unsigned_exec};
use crate::fields::{key_index, has_key, map_get, map_set, unique_keys, lemma_key_index, lemma_key_index_at,
    lemma_map_set};

verus! {

// ── Errors and values ─────────────────────────────────────────────────────────

/// Errors produced by the APT config parser.
#[derive(Debug)]
pub enum ConfigError {
    /// A parse error was encountered.
    Parse(String),
    /// Maximum `#include` depth exceeded (cycle guard).
    IncludeDepth(String),
}

/// A configuration value — either a single string or a list of strings.
#[derive(Debug, Clone)]
pub enum ConfigValue {
    /// A single string value.
    String(String),
    /// An ordered list of string values.
    List(Vec<String>),
}

/// Abstract value of a [`ConfigValue`].
pub enum ValueView {
    Str(Seq<char>),
    List(Seq<Seq<char>>),
}

pub open spec fn list_view(v: Seq<String>) -> Seq<Seq<char>> {
    Seq::new(v.len(), |i: int| v[i]@)
}

impl View for ConfigValue {
    type V = ValueView;

    open spec fn view(&self) -> ValueView {
        match self {
            ConfigValue::String(s) => ValueView::Str(s@),
            ConfigValue::List(l) => ValueView::List(list_view(l@)),
        }
    }
}

impl ConfigValue {
    /// The string, if this is a `String` value.
    pub fn as_str(&self) -> (r: Option<&str>)
        ensures
            match self@ {
                ValueView::Str(s) => r matches Some(x) && x@ == s,
                ValueView::List(_) => r is None,
            },
    {
        match self {
            ConfigValue::String(s) => Some(s.as_str()),
            ConfigValue::List(_) => None,
        }
    }

    /// The list, if this is a `List` value.
    pub fn as_list(&self) -> (r: Option<&[String]>)
        ensures
            match self@ {
                ValueView::List(l) => r matches Some(x) && list_view(x@) == l,
                ValueView::Str(_) => r is None,
            },
    {
        match self {
            ConfigValue::List(v) => Some(v.as_slice()),
            ConfigValue::String(_) => None,
        }
    }
}

/// Entries of a configuration: `(key, value)` with each key at most once.
pub type Entries = Seq<(Seq<char>, ValueView)>;

/// Appending `v` to the list at `k`: a missing key starts an empty list, a
/// string value becomes the first element of the list.
pub open spec fn push_list_spec(e: Entries, k: Seq<char>, v: Seq<char>) -> Entries {
    match map_get(e, k) {
        None => map_set(e, k, ValueView::List(seq![v])),
        Some(ValueView::List(l)) => map_set(e, k, ValueView::List(l.push(v))),
        Some(ValueView::Str(x)) => map_set(e, k, ValueView::List(seq![x, v])),
    }
}

/// Every entry of `other` set into `e`, in order (`other` wins).
pub open spec fn merge_spec(e: Entries, other: Entries) -> Entries
    decreases other.len(),
{
    if other.len() == 0 {
        e
    } else {
        map_set(merge_spec(e, other.drop_last()), other.last().0, other.last().1)
    }
}

/// The string stored at `k`, if the value there is a string.
pub open spec fn get_str(e: Entries, k: Seq<char>) -> Option<Seq<char>> {
    match map_get(e, k) {
        Some(ValueView::Str(s)) => Some(s),
        _ => None,
    }
}

/// Parsed APT configuration.
#[derive(Debug)]
pub struct AptConfig {
    values: Vec<(String, ConfigValue)>,
}

pub open spec fn entries_view(v: Seq<(String, ConfigValue)>) -> Entries {
    Seq::new(v.len(), |i: int| (v[i].0@, v[i].1@))
}

impl View for AptConfig {
    type V = Entries;

    closed spec fn view(&self) -> Entries {
        entries_view(self.values@)
    }
}

impl Clone for AptConfig {
    fn clone(&self) -> (r: Self)
        ensures
            r@ == self@,
    {
        proof {
            use_type_invariant(self);
        }
        let mut vals: Vec<(String, ConfigValue)> = Vec::new();
        let mut i: usize = 0;
        while i < self.values.len()
            invariant
                i <= self.values@.len(),
                unique_keys(self@),
                entries_view(vals@) == self@.take(i as int),
            decreases self.values.len() - i,
        {
            let k = self.values[i].0.clone();
            let v = self.values[i].1.clone_value();
            let ghost before = vals@;
            vals.push((k, v));
            proof {
                assert(entries_view(vals@) =~= entries_view(before).push((k@, v@)));
                assert(self@[i as int] == (self.values@[i as int].0@, self.values@[i as int].1@));
            }
            i = i + 1;
            assert(entries_view(vals@) =~= self@.take(i as int));
        }
        assert(self@.take(self@.len() as int) =~= self@);
        AptConfig { values: vals }
    }
}

impl Default for AptConfig {
    fn default() -> (r: Self)
        ensures
            r@ == Seq::<(Seq<char>, ValueView)>::empty(),
    {
        AptConfig::new()
    }
}

impl AptConfig {
    /// No key is stored twice.
    #[verifier::type_invariant]
    spec fn keys_unique(self) -> bool {
        unique_keys(entries_view(self.values@))
    }
}

/// Merging: a key that `other` holds takes `other`'s value, every other key
/// keeps its value.
pub proof fn lemma_merge_get(e: Entries, other: Entries, k: Seq<char>)
    requires
        unique_keys(other),
    ensures
        map_get(merge_spec(e, other), k) == if has_key(other, k) {
            map_get(other, k)
        } else {
            map_get(e, k)
        },
    decreases other.len(),
{
    if other.len() > 0 {
        let o2 = other.drop_last();
        let last = other.last();
        assert(unique_keys(o2));
        lemma_merge_get(e, o2, k);
        lemma_map_set(merge_spec(e, o2), last.0, last.1);
        lemma_key_index(other, k);
        lemma_key_index(o2, k);
        if last.0 == k {
            assert forall|m: int| 0 <= m < other.len() - 1 implies other[m].0 != k by {}
            lemma_key_index_at(other, k, other.len() - 1);
        } else {
            let j = key_index(o2, k) as int;
            assert forall|m: int| 0 <= m < j implies other[m].0 != k by {
                assert(other[m] == o2[m]);
            }
            if j < o2.len() {
                assert(other[j] == o2[j]);
                lemma_key_index_at(other, k, j);
            } else {
                lemma_key_index_at(other, k, other.len() as int);
            }
        }
    }
}

/// Index of key `k` among the configuration entries.
fn find_entry(v: &Vec<(String, ConfigValue)>, k: &Vec<char>) -> (r: usize)
    ensures
        r == key_index(entries_view(v@), k@),
{
    let ghost f = entries_view(v@);
    let mut i: usize = 0;
    while i < v.len()
        invariant
            0 <= i <= v@.len(),
            f == entries_view(v@),
            forall|m: int| 0 <= m < i ==> f[m].0 != k@,
        decreases v.len() - i,
    {
        let kc = chars_of(v[i].0.as_str());
        if chars_eq(&kc, k) {
            proof {
                lemma_key_index_at(f, k@, i as int);
            }
            return i;
        }
        i = i + 1;
    }
    proof {
        lemma_key_index_at(f, k@, i as int);
    }
    i
}

/// `true`, `yes`, `1` and `false`, `no`, `0` as booleans.
pub open spec fn bool_of(t: Seq<char>) -> Option<bool> {
    if t == "true"@ || t == "yes"@ || t == "1"@ {
        Some(true)
    } else if t == "false"@ || t == "no"@ || t == "0"@ {
        Some(false)
    } else {
        None
    }
}

/// `str::parse::<i64>`: an optional sign followed by at least one digit,
/// within the range of `i64`.
pub open spec fn parse_i64(s: Seq<char>) -> Option<int> {
    if s.len() > 0 && s[0] == '-' {
        match parse_unsigned(s.drop_first(), 0x8000_0000_0000_0000) {
            Some(n) => if s.len() > 1 && s[1] != '+' {
                Some(-n)
            } else {
                None
            },
            None => None,
        }
    } else {
        match parse_unsigned(s, 0x7fff_ffff_ffff_ffff) {
            Some(n) => Some(n as int),
            None => None,
        }
    }
}

fn parse_i64_exec(v: &Vec<char>) -> (r: Option<i64>)
    ensures
        match parse_i64(v@) {
            Some(n) => r == Some(n as i64),
            None => r is None,
        },
{
    let n = v.len();
    proof {
        assert(v@.subrange(0, n as int) =~= v@);
    }
    if n > 0 && v[0] == '-' {
        proof {
            assert(v@.subrange(1, n as int) =~= v@.drop_first());
        }
        if n > 1 && v[1] == '+' {
            return None;
        }
        match parse_unsigned_exec(v, 1, n, 0x8000_0000_0000_0000) {
            Some(m) => {
                if m == 0x8000_0000_0000_0000 {
                    Some(-0x8000_0000_0000_0000i64)
                } else {
                    Some(-(m as i64))
                }
            },
            None => None,
        }
    } else {
        match parse_unsigned_exec(v, 0, n, 0x7fff_ffff_ffff_ffff) {
            Some(m) => Some(m as i64),
            None => None,
        }
    }
}

fn bool_of_exec(t: &Vec<char>) -> (r: Option<bool>)
    ensures
        r == bool_of(t@),
{
    let a = chars_of("true");
    let b = chars_of("yes");
    let c = chars_of("1");
    let d = chars_of("false");
    let e = chars_of("no");
    let f = chars_of("0");
    if chars_eq(t, &a) || chars_eq(t, &b) || chars_eq(t, &c) {
        Some(true)
    } else if chars_eq(t, &d) || chars_eq(t, &e) || chars_eq(t, &f) {
        Some(false)
    } else {
        None
    }
}

impl AptConfig {
    /// An empty configuration.
    pub fn new() -> (r: Self)
        ensures
            r@ == Seq::<(Seq<char>, ValueView)>::empty(),
    {
        let r = AptConfig { values: Vec::new() };
        proof {
            assert(r@ =~= Seq::<(Seq<char>, ValueView)>::empty());
        }
        r
    }

    /// The string value at `key`; `None` if absent or a list.
    pub fn get(&self, key: &str) -> (r: Option<&str>)
        ensures
            match get_str(self@, key@) {
                Some(x) => r matches Some(y) && y@ == x,
                None => r is None,
            },
    {
        let kc = chars_of(key);
        let i = find_entry(&self.values, &kc);
        proof {
            lemma_key_index(self@, key@);
        }
        if i < self.values.len() {
            self.values[i].1.as_str()
        } else {
            None
        }
    }

    /// The value at `key` as a boolean: `true`/`yes`/`1` and
    /// `false`/`no`/`0` after lowercasing and trimming; otherwise `None`.
    pub fn get_bool(&self, key: &str) -> (r: Option<bool>)
        ensures
            r == match get_str(self@, key@) {
                Some(x) => bool_of(trim(lowercase(x))),
                None => None,
            },
            get_str(self@, key@) matches Some(x) ==> (ascii_text(x) ==> r == bool_of(trim(ascii_lower(x)))),
    {
        match self.get(key) {
            Some(x) => {
                let l = to_lowercase(x);
                let lc = chars_of(l.as_str());
                let t = trim_vec(&lc);
                bool_of_exec(&t)
            },
            None => None,
        }
    }

    /// The value at `key`, or `default`.
    pub fn get_or_default<'a>(&'a self, key: &str, default: &'a str) -> (r: &'a str)
        ensures
            r@ == match get_str(self@, key@) {
                Some(x) => x,
                None => default@,
            },
    {
        match self.get(key) {
            Some(x) => x,
            None => default,
        }
    }

    /// The value at `key` parsed as a decimal `i64` (whitespace trimmed).
    pub fn get_int(&self, key: &str) -> (r: Option<i64>)
        ensures
            match get_str(self@, key@) {
                Some(x) => match parse_i64(trim(x)) {
                    Some(n) => r == Some(n as i64),
                    None => r is None,
                },
                None => r is None,
            },
    {
        match self.get(key) {
            Some(x) => {
                let xc = chars_of(x);
                let t = trim_vec(&xc);
                parse_i64_exec(&t)
            },
            None => None,
        }
    }

    /// The list at `key`; empty if absent or a string.
    pub fn get_list(&self, key: &str) -> (r: &[String])
        ensures
            list_view(r@) == match map_get(self@, key@) {
                Some(ValueView::List(l)) => l,
                _ => Seq::empty(),
            },
    {
        let kc = chars_of(key);
        let i = find_entry(&self.values, &kc);
        proof {
            lemma_key_index(self@, key@);
        }
        if i < self.values.len() {
            match &self.values[i].1 {
                ConfigValue::List(v) => {
                    return v.as_slice();
                },
                ConfigValue::String(_) => {},
            }
        }
        let r: &[String] = &[];
        proof {
            assert(list_view(r@) =~= Seq::<Seq<char>>::empty());
        }
        r
    }

    fn set_value(&mut self, key: &str, value: ConfigValue)
        ensures
            final(self)@ == map_set(old(self)@, key@, value@),
    {
        proof {
            use_type_invariant(&*self);
            lemma_map_set(self@, key@, value@);
        }
        let kc = chars_of(key);
        let i = find_entry(&self.values, &kc);
        let ghost f = self@;
        let ghost vv = value@;
        proof {
            lemma_key_index(f, key@);
        }
        let k = own(key);
        let mut vals: Vec<(String, ConfigValue)> = Vec::new();
        std::mem::swap(&mut vals, &mut self.values);
        if i < vals.len() {
            vals.set(i, (k, value));
            proof {
                assert(entries_view(vals@) =~= f.update(i as int, (key@, vv)));
            }
        } else {
            vals.push((k, value));
            proof {
                assert(entries_view(vals@) =~= f.push((key@, vv)));
            }
        }
        self.values = vals;
    }

    /// Merge `other` into this configuration; on a shared key `other` wins.
    pub fn merge(&mut self, other: AptConfig)
        ensures
            final(self)@ == merge_spec(old(self)@, other@),
            forall|k: Seq<char>| #[trigger]
                map_get(final(self)@, k) == if has_key(other@, k) {
                    map_get(other@, k)
                } else {
                    map_get(old(self)@, k)
                },
    {
        proof {
            use_type_invariant(&other);
            assert forall|k: Seq<char>| #[trigger]
                map_get(merge_spec(self@, other@), k) == if has_key(other@, k) {
                    map_get(other@, k)
                } else {
                    map_get(self@, k)
                } by {
                lemma_merge_get(self@, other@, k);
            }
        }
        let n = other.values.len();
        let mut i: usize = 0;
        let ghost start = self@;
        let ghost o = other@;
        while i < n
            invariant
                0 <= i <= n == other.values@.len(),
                o == other@,
                self@ == merge_spec(start, o.take(i as int)),
            decreases n - i,
        {
            let k = &other.values[i].0;
            let v = other.values[i].1.clone_value();
            proof {
                assert(o.take(i + 1).drop_last() =~= o.take(i as int));
            }
            self.set_value(k.as_str(), v);
            i = i + 1;
        }
        proof {
            assert(o.take(n as int) =~= o);
        }
    }

    /// The configured APT sources.list path.
    pub fn sources_list_path(&self) -> (r: &str)
        ensures
            r@ == match get_str(self@, "Dir::Etc::SourceList"@) {
                Some(x) => x,
                None => "/etc/apt/sources.list"@,
            },
    {
        self.get_or_default("Dir::Etc::SourceList", "/etc/apt/sources.list")
    }

    /// The configured dpkg status database path.
    pub fn status_db_path(&self) -> (r: &str)
        ensures
            r@ == match get_str(self@, "Dir::State::status"@) {
                Some(x) => x,
                None => "/var/lib/dpkg/status"@,
            },
    {
        self.get_or_default("Dir::State::status", "/var/lib/dpkg/status")
    }

    /// Set `key` to a string value; `get` then returns it, other keys keep
    /// their values.
    pub fn set(&mut self, key: &str, value: &str)
        ensures
            final(self)@ == map_set(old(self)@, key@, ValueView::Str(value@)),
            get_str(final(self)@, key@) == Some(value@),
            forall|k: Seq<char>| k != key@ ==> #[trigger] map_get(final(self)@, k) == map_get(old(self)@, k),
    {
        proof {
            lemma_map_set(self@, key@, ValueView::Str(value@));
        }
        self.set_value(key, ConfigValue::String(own(value)));
    }

    /// Append `value` to the list at `key` (a string value there becomes the
    /// first element of the list).
    pub fn push_list(&mut self, key: &str, value: &str)
        ensures
            final(self)@ == push_list_spec(old(self)@, key@, value@),
    {
        let kc = chars_of(key);
        let i = find_entry(&self.values, &kc);
        proof {
            lemma_key_index(self@, key@);
        }
        let mut items: Vec<String> = Vec::new();
        if i < self.values.len() {
            match &self.values[i].1 {
                ConfigValue::List(l) => {
                    items = copy_strings(l);
                },
                ConfigValue::String(s) => {
                    items.push(s.clone());
                },
            }
        }
        let ghost before = list_view(items@);
        items.push(own(value));
        proof {
            assert(list_view(items@) =~= before.push(value@));
            if i >= self.values@.len() {
                assert(before =~= Seq::<Seq<char>>::empty());
                assert(list_view(items@) =~= seq![value@]);
            } else {
                match self@[i as int].1 {
                    ValueView::Str(x) => {
                        assert(list_view(items@) =~= seq![x, value@]);
                    },
                    ValueView::List(_) => {},
                }
            }
        }
        self.set_value(key, ConfigValue::List(items));
    }
}

impl ConfigValue {
    /// A copy of this value.
    pub fn clone_value(&self) -> (r: ConfigValue)
        ensures
            r@ == self@,
    {
        match self {
            ConfigValue::String(s) => ConfigValue::String(s.clone()),
            ConfigValue::List(l) => ConfigValue::List(copy_strings(l)),
        }
    }
}

/// A copy of a list of strings.
pub fn copy_strings(l: &Vec<String>) -> (r: Vec<String>)
    ensures
        list_view(r@) == list_view(l@),
{
    let mut out: Vec<String> = Vec::new();
    let mut i: usize = 0;
    while i < l.len()
        invariant
            0 <= i <= l@.len(),
            list_view(out@) == list_view(l@).take(i as int),
        decreases l.len() - i,
    {
        let s = l[i].clone();
        let ghost before = list_view(out@);
        out.push(s);
        proof {
            assert(list_view(out@) =~= before.push(l@[i as int]@));
            assert(list_view(out@) =~= list_view(l@).take(i + 1));
        }
        i = i + 1;
    }
    proof {
        assert(list_view(l@).take(l@.len() as int) =~= list_view(l@));
    }
    out
}

} // verus!
