//! APT `sources.list` (one-line) and deb822 `.sources` files: parsing,
//! writing, and validation of repository URIs.
//!
//! ```text
//! deb [arch=amd64 signed-by=/usr/share/keyrings/ubuntu.gpg] http://archive.ubuntu.com/ubuntu focal main
//! # deb http://archive.ubuntu.com/ubuntu focal-backports main
//! ```
//!
//! ```text
//! Types: deb deb-src
//! URIs: http://archive.ubuntu.com/ubuntu
//! Suites: focal focal-updates
//! Components: main restricted
//! ```

use vstd::prelude::*;
use crate::triggers::{word_like, lemma_words_cons, lemma_words_single};
use crate::text::{chars_of, str_eq, chars_eq, push_str, push_char, push_chars, string_of, own,
    trim, trim_start, trim_vec, words, words_exec, views, sviews, strings_of, lines, lines_exec,
    split_str, split_str_exec, find_sub, find_sub_exec, lemma_find_sub, index_of, find_char,
    lemma_index_of, starts_with, lowercase, to_lowercase, join, push_joined, push_joined_strings,
    strip_leading, strip_leading_exec, strip_trailing, strip_trailing_exec, debug_str,
    push_debug_str, slice_of, is_ws, sub_vecs, trim_end, strip_cr, unlines, lemma_lines_unlines,
    lemma_unlines_push, word_len, lemma_word_len};
use crate::fields::{map_get, map_set, has_key, key_index, lemma_key_index, lemma_key_index_at,
    lemma_map_set};

verus! {

// ── Errors, types and entries ─────────────────────────────────────────────────

/// Errors produced by the sources-list parser.
#[derive(Debug)]
pub enum SourcesError {
    /// A line or stanza could not be parsed, or a URI is invalid.
    Parse(String),
}

/// Whether a repository entry provides binary or source packages.
#[derive(Debug, Clone, Copy, PartialEq, Eq, Structural)]
pub enum SourceType {
    /// `deb` — binary packages.
    Binary,
    /// `deb-src` — source packages.
    Source,
}

/// The type named by a word of a source line.
pub open spec fn type_of(w: Seq<char>) -> Option<SourceType> {
    if w == "deb"@ {
        Some(SourceType::Binary)
    } else if w == "deb-src"@ {
        Some(SourceType::Source)
    } else {
        None
    }
}

pub open spec fn type_text(t: SourceType) -> Seq<char> {
    match t {
        SourceType::Binary => "deb"@,
        SourceType::Source => "deb-src"@,
    }
}

impl SourceType {
    fn from_str(s: &str) -> (r: Option<SourceType>)
        ensures
            r == type_of(s@),
    {
        if str_eq(s, "deb") {
            Some(SourceType::Binary)
        } else if str_eq(s, "deb-src") {
            Some(SourceType::Source)
        } else {
            None
        }
    }

    fn as_str(self) -> (r: &'static str)
        ensures
            r@ == type_text(self),
    {
        match self {
            SourceType::Binary => "deb",
            SourceType::Source => "deb-src",
        }
    }
}

/// Key/value pairs as sequences of characters.
pub type Pairs = Seq<(Seq<char>, Seq<char>)>;

/// Options of an entry (`arch=amd64`, `signed-by=…`): a map from option name
/// to value, kept in insertion order.
#[derive(Debug)]
pub struct Options {
    items: Vec<(String, String)>,
}

pub open spec fn pairs_view(v: Seq<(String, String)>) -> Pairs {
    Seq::new(v.len(), |i: int| (v[i].0@, v[i].1@))
}

impl View for Options {
    type V = Pairs;

    closed spec fn view(&self) -> Pairs {
        pairs_view(self.items@)
    }
}

/// The same option names with the same values.
pub open spec fn same_options(a: Pairs, b: Pairs) -> bool {
    forall|k: Seq<char>| #[trigger] map_get(a, k) == map_get(b, k)
}

impl Options {
    /// No options.
    pub fn new() -> (r: Options)
        ensures
            r@ == Seq::<(Seq<char>, Seq<char>)>::empty(),
    {
        let r = Options { items: Vec::new() };
        assert(r@ =~= Seq::<(Seq<char>, Seq<char>)>::empty());
        r
    }

    /// Number of options.
    pub fn len(&self) -> (r: usize)
        ensures
            r == self@.len(),
    {
        self.items.len()
    }

    /// Whether there are no options.
    pub fn is_empty(&self) -> (r: bool)
        ensures
            r == (self@.len() == 0),
    {
        self.items.len() == 0
    }

    fn index_of_key(&self, key: &Vec<char>) -> (r: usize)
        ensures
            r == key_index(self@, key@),
    {
        let ghost f = self@;
        let mut i: usize = 0;
        while i < self.items.len()
            invariant
                i <= self.items@.len(),
                f == self@,
                forall|m: int| 0 <= m < i ==> f[m].0 != key@,
            decreases self.items.len() - i,
        {
            let kc = chars_of(self.items[i].0.as_str());
            if chars_eq(&kc, key) {
                proof {
                    lemma_key_index_at(f, key@, i as int);
                }
                return i;
            }
            i = i + 1;
        }
        proof {
            lemma_key_index_at(f, key@, i as int);
        }
        i
    }

    /// The value of option `key`.
    pub fn get(&self, key: &str) -> (r: Option<&String>)
        ensures
            match map_get(self@, key@) {
                Some(v) => r matches Some(x) && x@ == v,
                None => r is None,
            },
    {
        let kc = chars_of(key);
        let i = self.index_of_key(&kc);
        proof {
            lemma_key_index(self@, key@);
        }
        if i < self.items.len() {
            Some(&self.items[i].1)
        } else {
            None
        }
    }

    /// Sets option `key` to `value`, replacing an earlier value.
    pub fn insert(&mut self, key: String, value: String)
        ensures
            final(self)@ == map_set(old(self)@, key@, value@),
    {
        let kc = chars_of(key.as_str());
        let i = self.index_of_key(&kc);
        let ghost f = self@;
        let ghost kv = (key@, value@);
        proof {
            lemma_key_index(f, key@);
        }
        if i < self.items.len() {
            self.items.set(i, (key, value));
            assert(self@ =~= f.update(i as int, kv));
        } else {
            self.items.push((key, value));
            assert(self@ =~= f.push(kv));
        }
    }

    /// The `(name, value)` pairs in insertion order.
    pub fn pairs(&self) -> (r: &Vec<(String, String)>)
        ensures
            pairs_view(r@) == self@,
    {
        &self.items
    }

    /// A copy of these options.
    pub fn copy(&self) -> (r: Options)
        ensures
            r@ == self@,
    {
        let mut items: Vec<(String, String)> = Vec::new();
        let mut i: usize = 0;
        while i < self.items.len()
            invariant
                i <= self.items@.len(),
                pairs_view(items@) == self@.take(i as int),
            decreases self.items.len() - i,
        {
            let ghost before = items@;
            let k = self.items[i].0.clone();
            let v = self.items[i].1.clone();
            items.push((k, v));
            proof {
                assert(pairs_view(items@) =~= pairs_view(before).push((k@, v@)));
            }
            i = i + 1;
            assert(pairs_view(items@) =~= self@.take(i as int));
        }
        assert(self@.take(self@.len() as int) =~= self@);
        Options { items }
    }

    fn agrees_with(&self, other: &Options) -> (r: bool)
        ensures
            r == (forall|m: int| 0 <= m < self@.len() ==> map_get(self@, #[trigger] self@[m].0)
                == map_get(other@, self@[m].0)),
    {
        let mut i: usize = 0;
        while i < self.items.len()
            invariant
                i <= self.items@.len(),
                forall|m: int| 0 <= m < i ==> map_get(self@, #[trigger] self@[m].0) == map_get(
                    other@,
                    self@[m].0,
                ),
            decreases self.items.len() - i,
        {
            let k = self.items[i].0.as_str();
            let a = self.get(k);
            let b = other.get(k);
            let same = match (a, b) {
                (Some(x), Some(y)) => str_eq(x.as_str(), y.as_str()),
                (None, None) => true,
                _ => false,
            };
            if !same {
                assert(self@[i as int].0 == k@);
                assert(map_get(self@, self@[i as int].0) != map_get(other@, self@[i as int].0));
                return false;
            }
            i = i + 1;
        }
        true
    }

    /// Whether both hold the same names with the same values, in any order.
    pub fn same_as(&self, other: &Options) -> (r: bool)
        ensures
            r == same_options(self@, other@),
    {
        let r = self.agrees_with(other) && other.agrees_with(self);
        proof {
            if r {
                assert forall|k: Seq<char>| #[trigger] map_get(self@, k) == map_get(other@, k) by {
                    lemma_key_index(self@, k);
                    lemma_key_index(other@, k);
                    if has_key(self@, k) {
                        let m = key_index(self@, k) as int;
                        assert(map_get(self@, self@[m].0) == map_get(other@, self@[m].0));
                    } else if has_key(other@, k) {
                        let m = key_index(other@, k) as int;
                        assert(map_get(other@, other@[m].0) == map_get(self@, other@[m].0));
                    }
                }
            } else {
                if !self.agrees_with_spec(other) {
                    let m = choose|m: int| 0 <= m < self@.len() && map_get(self@, #[trigger] self@[m].0)
                        != map_get(other@, self@[m].0);
                    assert(map_get(self@, self@[m].0) != map_get(other@, self@[m].0));
                } else {
                    let m = choose|m: int| 0 <= m < other@.len() && map_get(other@, #[trigger] other@[m].0)
                        != map_get(self@, other@[m].0);
                    assert(map_get(other@, other@[m].0) != map_get(self@, other@[m].0));
                }
            }
        }
        r
    }

    spec fn agrees_with_spec(&self, other: &Options) -> bool {
        forall|m: int| 0 <= m < self@.len() ==> map_get(self@, #[trigger] self@[m].0) == map_get(
            other@,
            self@[m].0,
        )
    }
}

/// A single APT repository entry.
#[derive(Debug)]
pub struct SourceEntry {
    /// Whether this is a `deb` (binary) or `deb-src` (source) entry.
    pub source_type: SourceType,
    /// Repository root URI, e.g. `http://archive.ubuntu.com/ubuntu`.
    pub uri: String,
    /// Suite name, e.g. `focal` or `focal-updates`.
    pub suite: String,
    /// Repository components, e.g. `["main", "restricted"]`.
    pub components: Vec<String>,
    /// Options from the `[…]` block or the deb822 fields.
    pub options: Options,
    /// `false` for commented-out one-line entries or `Enabled: no` stanzas.
    pub enabled: bool,
}

/// Abstract value of a [`SourceEntry`].
pub struct EntryView {
    pub source_type: SourceType,
    pub uri: Seq<char>,
    pub suite: Seq<char>,
    pub components: Seq<Seq<char>>,
    pub options: Pairs,
    pub enabled: bool,
}

impl View for SourceEntry {
    type V = EntryView;

    open spec fn view(&self) -> EntryView {
        EntryView {
            source_type: self.source_type,
            uri: self.uri@,
            suite: self.suite@,
            components: sviews(self.components@),
            options: self.options@,
            enabled: self.enabled,
        }
    }
}

pub open spec fn entry_views(v: Seq<SourceEntry>) -> Seq<EntryView> {
    Seq::new(v.len(), |i: int| v[i]@)
}

/// The `InRelease` URL of a repository `uri` and `suite`.
pub open spec fn release_url_spec(uri: Seq<char>, suite: Seq<char>) -> Seq<char> {
    strip_trailing(uri, '/') + "/dists/"@ + suite + "/InRelease"@
}

/// The `Packages` index URL of a component and architecture.
pub open spec fn packages_url_spec(uri: Seq<char>, suite: Seq<char>, component: Seq<char>, arch: Seq<char>) -> Seq<char> {
    strip_trailing(uri, '/') + "/dists/"@ + suite + "/"@ + component + "/binary-"@ + arch
        + "/Packages"@
}

/// URI schemes APT accepts.
pub open spec fn known_scheme(s: Seq<char>) -> bool {
    ||| s == "http"@
    ||| s == "https"@
    ||| s == "ftp"@
    ||| s == "file"@
    ||| s == "mirror+http"@
    ||| s == "mirror+https"@
    ||| s == "cdrom"@
}

/// Why a URI is invalid, if it is: it must be `<scheme>://<rest>` after
/// trimming, one word, with a known scheme and a non-empty rest.
pub open spec fn uri_problem(raw: Seq<char>) -> Option<Seq<char>> {
    let uri = trim(raw);
    let j = find_sub(uri, "://"@);
    if uri.len() == 0 {
        Some("empty URI"@)
    } else if words(uri, false).len() != 1 {
        Some("URI contains whitespace: "@ + debug_str(uri))
    } else if j >= uri.len() {
        Some("URI missing scheme separator '://': "@ + debug_str(uri))
    } else if j == 0 {
        Some("empty URI scheme in "@ + debug_str(uri))
    } else if !known_scheme(uri.take(j as int)) {
        Some("unsupported URI scheme: "@ + debug_str(uri.take(j as int)))
    } else if j + 3 >= uri.len() {
        Some("empty URI authority in "@ + debug_str(uri))
    } else {
        None
    }
}

proof fn lemma_word_len_stops(s: Seq<char>)
    ensures
        forall|j: int| 0 <= j < word_len(s, false) ==> !is_ws(#[trigger] s[j]),
        word_len(s, false) < s.len() ==> is_ws(s[word_len(s, false) as int]),
    decreases s.len(),
{
    lemma_word_len(s, false);
    if s.len() > 0 && !is_ws(s[0]) {
        lemma_word_len_stops(s.drop_first());
        assert forall|j: int| 0 <= j < word_len(s, false) implies !is_ws(#[trigger] s[j]) by {
            if j > 0 {
                assert(s[j] == s.drop_first()[j - 1]);
            }
        }
        if word_len(s, false) < s.len() {
            assert(s[word_len(s, false) as int] == s.drop_first()[word_len(s.drop_first(), false) as int]);
        }
    }
}

proof fn lemma_words_nonempty(s: Seq<char>, i: int)
    requires
        0 <= i < s.len(),
        !is_ws(s[i]),
    ensures
        words(s, false).len() >= 1,
    decreases s.len(),
{
    if is_ws(s[0]) {
        assert(s.drop_first()[i - 1] == s[i]);
        lemma_words_nonempty(s.drop_first(), i - 1);
    }
}

proof fn lemma_trim_start_head(s: Seq<char>)
    ensures
        trim_start(s).len() > 0 ==> !is_ws(trim_start(s)[0]),
    decreases s.len(),
{
    if s.len() > 0 && is_ws(s[0]) {
        lemma_trim_start_head(s.drop_first());
    }
}

proof fn lemma_trim_end_ends(t: Seq<char>)
    ensures
        trim_end(t).len() > 0 ==> !is_ws(trim_end(t).last()) && trim_end(t)[0] == t[0],
        trim_end(t).len() <= t.len(),
    decreases t.len(),
{
    if t.len() > 0 && is_ws(t.last()) {
        lemma_trim_end_ends(t.drop_last());
        if trim_end(t).len() > 0 {
            assert(t.drop_last()[0] == t[0]);
        }
    }
}

/// A URI is valid exactly when, trimmed, it is non-empty, holds no
/// whitespace, and its first `://` splits it into a known scheme and a
/// non-empty rest.
pub proof fn lemma_uri_valid(raw: Seq<char>)
    ensures
        uri_problem(raw) is None <==> ({
            let u = trim(raw);
            let j = find_sub(u, "://"@);
            &&& u.len() > 0
            &&& forall|i: int| 0 <= i < u.len() ==> !is_ws(#[trigger] u[i])
            &&& j < u.len()
            &&& known_scheme(u.take(j as int))
            &&& j + 3 < u.len()
        }),
{
    reveal_strlit("http");
    reveal_strlit("https");
    reveal_strlit("ftp");
    reveal_strlit("file");
    reveal_strlit("mirror+http");
    reveal_strlit("mirror+https");
    reveal_strlit("cdrom");
    let u = trim(raw);
    assert("http"@.len() == 4 && "https"@.len() == 5 && "ftp"@.len() == 3 && "file"@.len() == 4);
    assert("mirror+http"@.len() == 11 && "mirror+https"@.len() == 12 && "cdrom"@.len() == 5);
    assert(!known_scheme(Seq::<char>::empty()));
    assert(u.take(0) =~= Seq::<char>::empty());
    if u.len() > 0 {
        if forall|i: int| 0 <= i < u.len() ==> !is_ws(#[trigger] u[i]) {
            lemma_words_single(u, false);
        } else {
            let i = choose|i: int| 0 <= i < u.len() && is_ws(#[trigger] u[i]);
            lemma_trim_start_head(raw);
            lemma_trim_end_ends(trim_start(raw));
            lemma_word_len(u, false);
            lemma_word_len_stops(u);
            let k = word_len(u, false);
            assert(k <= i);
            assert(words(u, false) == seq![u.take(k as int)] + words(u.skip(k as int), false));
            assert(u.skip(k as int)[u.len() - 1 - k] == u.last());
            lemma_words_nonempty(u.skip(k as int), u.len() - 1 - k);
        }
    }
}

impl SourceEntry {
    /// URL for the `InRelease` file of this suite.
    pub fn release_url(&self) -> (r: String)
        ensures
            r@ == release_url_spec(self.uri@, self.suite@),
    {
        let u = chars_of(self.uri.as_str());
        let base = strip_trailing_exec(&u, '/');
        let mut out = string_of(&base);
        push_str(&mut out, "/dists/");
        push_str(&mut out, self.suite.as_str());
        push_str(&mut out, "/InRelease");
        out
    }

    /// URL for a `Packages` index of one component and architecture.
    pub fn packages_url(&self, component: &str, arch: &str) -> (r: String)
        ensures
            r@ == packages_url_spec(self.uri@, self.suite@, component@, arch@),
    {
        let u = chars_of(self.uri.as_str());
        let base = strip_trailing_exec(&u, '/');
        let mut out = string_of(&base);
        push_str(&mut out, "/dists/");
        push_str(&mut out, self.suite.as_str());
        push_str(&mut out, "/");
        push_str(&mut out, component);
        push_str(&mut out, "/binary-");
        push_str(&mut out, arch);
        push_str(&mut out, "/Packages");
        out
    }

    /// Whether this entry's URI is valid.
    pub fn is_valid_uri(&self) -> (r: bool)
        ensures
            r == (uri_problem(self.uri@) is None),
    {
        self.validate_uri().is_ok()
    }

    /// Validates this entry's URI, describing the problem if there is one.
    pub fn validate_uri(&self) -> (r: Result<(), SourcesError>)
        ensures
            match uri_problem(self.uri@) {
                None => r is Ok,
                Some(m) => r matches Err(SourcesError::Parse(x)) && x@ == m,
            },
    {
        let raw = chars_of(self.uri.as_str());
        let uri = trim_vec(&raw);
        let n = uri.len();
        let sep = chars_of("://");
        proof {
            reveal_strlit("://");
        }
        let j = find_sub_exec(&uri, 0, n, &sep);
        proof {
            assert(uri@.subrange(0, n as int) =~= uri@);
        }
        if n == 0 {
            return Err(SourcesError::Parse(own("empty URI")));
        }
        let ws = words_exec(&uri, 0, n, false);
        if ws.len() != 1 {
            let mut m = own("URI contains whitespace: ");
            push_debug_str(&mut m, &uri);
            return Err(SourcesError::Parse(m));
        }
        if j >= n {
            let mut m = own("URI missing scheme separator '://': ");
            push_debug_str(&mut m, &uri);
            return Err(SourcesError::Parse(m));
        }
        if j == 0 {
            let mut m = own("empty URI scheme in ");
            push_debug_str(&mut m, &uri);
            return Err(SourcesError::Parse(m));
        }
        let scheme = slice_of(&uri, 0, j);
        let ss = string_of(&scheme);
        let t = ss.as_str();
        let known = str_eq(t, "http") || str_eq(t, "https") || str_eq(t, "ftp") || str_eq(t, "file")
            || str_eq(t, "mirror+http") || str_eq(t, "mirror+https") || str_eq(t, "cdrom");
        if !known {
            let mut m = own("unsupported URI scheme: ");
            push_debug_str(&mut m, &scheme);
            return Err(SourcesError::Parse(m));
        }
        if n - j <= 3 {
            let mut m = own("empty URI authority in ");
            push_debug_str(&mut m, &uri);
            return Err(SourcesError::Parse(m));
        }
        Ok(())
    }
}

// ── One-line format ───────────────────────────────────────────────────────────

/// Index of the first word containing `]`, or the number of words.
pub open spec fn first_closing(ws: Seq<Seq<char>>) -> nat
    decreases ws.len(),
{
    if ws.len() == 0 {
        0
    } else if index_of(ws[0], ']') < ws[0].len() {
        0
    } else {
        1 + first_closing(ws.drop_first())
    }
}

/// `name=value` words as options, names lowercased; later names win.
pub open spec fn option_pairs(parts: Seq<Seq<char>>) -> Pairs
    decreases parts.len(),
{
    if parts.len() == 0 {
        Seq::empty()
    } else {
        let acc = option_pairs(parts.drop_last());
        let p = parts.last();
        let eq = index_of(p, '=');
        if eq < p.len() {
            map_set(acc, lowercase(p.take(eq as int)), p.skip(eq as int + 1))
        } else {
            acc
        }
    }
}

/// The options of the `[…]` block formed by the words `ws[..=end]`: the text
/// after the opening brackets and before the first `]`.
pub open spec fn options_block(ws: Seq<Seq<char>>, end: int) -> Pairs {
    let body = strip_leading(join(ws.take(end + 1), " "@), '[');
    option_pairs(words(trim(body.take(index_of(body, ']') as int)), false))
}

pub open spec fn entry_with(
    t: SourceType,
    rest: Seq<Seq<char>>,
    ui: int,
    opts: Pairs,
    enabled: bool,
    line: Seq<char>,
) -> Result<Option<EntryView>, Seq<char>> {
    if ui + 1 >= rest.len() {
        Err("missing suite in: "@ + debug_str(line))
    } else {
        Ok(
            Some(
                EntryView {
                    source_type: t,
                    uri: rest[ui],
                    suite: rest[ui + 1],
                    components: rest.skip(ui + 2),
                    options: opts,
                    enabled,
                },
            ),
        )
    }
}

/// One source line: `type [options] uri suite components…`. A line whose
/// first word is not `deb` or `deb-src` gives no entry.
pub open spec fn parse_entry(line: Seq<char>, enabled: bool) -> Result<Option<EntryView>, Seq<char>> {
    let ws = words(line, true);
    if ws.len() == 0 {
        Ok(None)
    } else {
        match type_of(ws[0]) {
            None => Ok(None),
            Some(t) => {
                let rest = ws.drop_first();
                if rest.len() == 0 {
                    Err("missing URI in: "@ + debug_str(line))
                } else if rest[0].len() > 0 && rest[0][0] == '[' {
                    let end = first_closing(rest) as int;
                    if end >= rest.len() {
                        Err("unclosed options block '['"@)
                    } else if end + 1 >= rest.len() {
                        Err("missing URI after options in: "@ + debug_str(line))
                    } else {
                        entry_with(t, rest, end + 1, options_block(rest, end), enabled, line)
                    }
                } else {
                    entry_with(t, rest, 0, Seq::empty(), enabled, line)
                }
            },
        }
    }
}

/// What a raw line of a `sources.list` holds: nothing (blank, comment), a
/// commented-out entry (`# deb …`, disabled) or an entry without its
/// trailing ` #` comment.
pub open spec fn classify(raw: Seq<char>) -> Option<(bool, Seq<char>)> {
    let t = trim(raw);
    if t.len() == 0 {
        None
    } else if t[0] == '#' {
        let r = trim(t.drop_first());
        if starts_with(r, "deb"@) {
            Some((false, r))
        } else {
            None
        }
    } else {
        let j = find_sub(t, " #"@);
        if j < t.len() {
            Some((true, trim(t.take(j as int))))
        } else {
            Some((true, t))
        }
    }
}

/// Entries of the lines `ls`; the first bad line gives the error.
pub open spec fn one_line_entries(ls: Seq<Seq<char>>) -> Result<Seq<EntryView>, Seq<char>>
    decreases ls.len(),
{
    if ls.len() == 0 {
        Ok(Seq::empty())
    } else {
        match one_line_entries(ls.drop_last()) {
            Err(m) => Err(m),
            Ok(es) => match classify(ls.last()) {
                None => Ok(es),
                Some((enabled, l)) => match parse_entry(l, enabled) {
                    Err(m) => Err(m),
                    Ok(None) => Ok(es),
                    Ok(Some(e)) => Ok(es.push(e)),
                },
            },
        }
    }
}

/// Once a prefix of the lines is in error, so is the whole.
pub proof fn lemma_one_line_err(ls: Seq<Seq<char>>, k: int)
    requires
        0 <= k <= ls.len(),
        one_line_entries(ls.take(k)) is Err,
    ensures
        one_line_entries(ls.take(ls.len() as int)) == one_line_entries(ls.take(k)),
    decreases ls.len() - k,
{
    if k < ls.len() {
        assert(ls.take(k + 1).drop_last() =~= ls.take(k));
        lemma_one_line_err(ls, k + 1);
    }
}

fn option_block_exec(rest: &Vec<Vec<char>>, end: usize) -> (r: Options)
    requires
        end < rest@.len(),
    ensures
        r@ == options_block(views(rest@), end as int),
{
    let n = rest.len();
    let head = sub_vecs(rest, 0, end + 1);
    let mut block = String::new();
    push_joined(&mut block, &head, " ");
    proof {
        assert(views(rest@).subrange(0, end + 1) =~= views(rest@).take(end + 1));
    }
    let bc = chars_of(block.as_str());
    let body = strip_leading_exec(&bc, '[');
    let k = find_char(&body, 0, body.len(), ']');
    proof {
        assert(body@.subrange(0, body@.len() as int) =~= body@);
    }
    let upto = slice_of(&body, 0, k);
    let inner = trim_vec(&upto);
    let parts = words_exec(&inner, 0, inner.len(), false);
    proof {
        assert(inner@.subrange(0, inner@.len() as int) =~= inner@);
        assert(upto@ =~= body@.take(index_of(body@, ']') as int));
    }
    let mut opts = Options::new();
    let mut i: usize = 0;
    while i < parts.len()
        invariant
            i <= parts@.len(),
            opts@ == option_pairs(views(parts@).take(i as int)),
        decreases parts.len() - i,
    {
        let p = &parts[i];
        let eq = find_char(p, 0, p.len(), '=');
        proof {
            assert(p@.subrange(0, p@.len() as int) =~= p@);
            assert(views(parts@).take(i + 1).drop_last() =~= views(parts@).take(i as int));
            assert(views(parts@).take(i + 1).last() == p@);
        }
        if eq < p.len() {
            let name = string_of_range_v(p, 0, eq);
            let key = to_lowercase(name.as_str());
            let value = string_of_range_v(p, eq + 1, p.len());
            proof {
                assert(name@ =~= p@.take(eq as int));
                assert(value@ =~= p@.skip(eq + 1));
            }
            opts.insert(key, value);
        }
        i = i + 1;
    }
    proof {
        assert(views(parts@).take(parts@.len() as int) =~= views(parts@));
    }
    opts
}

fn string_of_range_v(v: &Vec<char>, lo: usize, hi: usize) -> (r: String)
    requires
        lo <= hi <= v@.len(),
    ensures
        r@ == v@.subrange(lo as int, hi as int),
{
    let s = slice_of(v, lo, hi);
    string_of(&s)
}

fn make_entry(
    t: SourceType,
    rest: &Vec<Vec<char>>,
    ui: usize,
    opts: Options,
    enabled: bool,
    line: &Vec<char>,
) -> (r: Result<Option<SourceEntry>, SourcesError>)
    requires
        ui < rest@.len(),
    ensures
        match entry_with(t, views(rest@), ui as int, opts@, enabled, line@) {
            Ok(Some(e)) => r matches Ok(Some(x)) && x@ == e,
            Ok(None) => r matches Ok(None),
            Err(m) => r matches Err(SourcesError::Parse(x)) && x@ == m,
        },
{
    if rest.len() - ui <= 1 {
        let mut m = own("missing suite in: ");
        push_debug_str(&mut m, line);
        return Err(SourcesError::Parse(m));
    }
    let comps = sub_vecs(rest, ui + 2, rest.len());
    let components = strings_of(&comps);
    let e = SourceEntry {
        source_type: t,
        uri: string_of(&rest[ui]),
        suite: string_of(&rest[ui + 1]),
        components,
        options: opts,
        enabled,
    };
    proof {
        assert(views(rest@).subrange(ui + 2, rest@.len() as int) =~= views(rest@).skip(ui + 2));
    }
    Ok(Some(e))
}

#[verifier::spinoff_prover]
#[verifier::rlimit(50)]
fn parse_one_line_entry(line: &Vec<char>, enabled: bool) -> (r: Result<Option<SourceEntry>, SourcesError>)
    ensures
        match parse_entry(line@, enabled) {
            Ok(Some(e)) => r matches Ok(Some(x)) && x@ == e,
            Ok(None) => r matches Ok(None),
            Err(m) => r matches Err(SourcesError::Parse(x)) && x@ == m,
        },
{
    let n = line.len();
    let ws = words_exec(line, 0, n, true);
    proof {
        assert(line@.subrange(0, n as int) =~= line@);
    }
    if ws.len() == 0 {
        return Ok(None);
    }
    let first = string_of(&ws[0]);
    let t = match SourceType::from_str(first.as_str()) {
        Some(t) => t,
        None => {
            return Ok(None);
        },
    };
    let rest = sub_vecs(&ws, 1, ws.len());
    proof {
        assert(views(ws@).subrange(1, ws@.len() as int) =~= views(ws@).drop_first());
    }
    if rest.len() == 0 {
        let mut m = own("missing URI in: ");
        push_debug_str(&mut m, line);
        return Err(SourcesError::Parse(m));
    }
    if rest[0].len() > 0 && rest[0][0] == '[' {
        let ghost vr = views(rest@);
        let mut end: usize = 0;
        assert(vr.skip(0) =~= vr);
        while end < rest.len() && find_char(&rest[end], 0, rest[end].len(), ']') >= rest[end].len()
            invariant
                end <= rest@.len(),
                vr == views(rest@),
                first_closing(vr) == end + first_closing(vr.skip(end as int)),
            decreases rest.len() - end,
        {
            proof {
                let w = rest@[end as int]@;
                assert(w.subrange(0, w.len() as int) =~= w);
                assert(vr.skip(end as int)[0] == w);
                assert(vr.skip(end as int).drop_first() =~= vr.skip(end + 1));
            }
            end = end + 1;
        }
        proof {
            if end < rest@.len() {
                let w = rest@[end as int]@;
                assert(w.subrange(0, w.len() as int) =~= w);
                assert(vr.skip(end as int)[0] == w);
            } else {
                assert(vr.skip(end as int) =~= Seq::<Seq<char>>::empty());
            }
        }
        if end >= rest.len() {
            return Err(SourcesError::Parse(own("unclosed options block '['")));
        }
        let opts = option_block_exec(&rest, end);
        if end + 1 >= rest.len() {
            let mut m = own("missing URI after options in: ");
            push_debug_str(&mut m, line);
            return Err(SourcesError::Parse(m));
        }
        make_entry(t, &rest, end + 1, opts, enabled, line)
    } else {
        make_entry(t, &rest, 0, Options::new(), enabled, line)
    }
}

fn classify_exec(raw: &Vec<char>) -> (r: Option<(bool, Vec<char>)>)
    ensures
        match classify(raw@) {
            None => r is None,
            Some((en, l)) => r matches Some((e2, l2)) && e2 == en && l2@ == l,
        },
{
    let t = trim_vec(raw);
    let n = t.len();
    if n == 0 {
        return None;
    }
    if t[0] == '#' {
        let tail = slice_of(&t, 1, n);
        let r = trim_vec(&tail);
        let deb = chars_of("deb");
        proof {
            assert(tail@ =~= t@.drop_first());
        }
        if starts_with_exec_v(&r, &deb) {
            return Some((false, r));
        }
        return None;
    }
    let pat = chars_of(" #");
    proof {
        reveal_strlit(" #");
        assert(t@.subrange(0, n as int) =~= t@);
    }
    let j = find_sub_exec(&t, 0, n, &pat);
    if j < n {
        let head = slice_of(&t, 0, j);
        proof {
            assert(head@ =~= t@.take(j as int));
        }
        Some((true, trim_vec(&head)))
    } else {
        Some((true, t))
    }
}

fn starts_with_exec_v(v: &Vec<char>, p: &Vec<char>) -> (r: bool)
    ensures
        r == starts_with(v@, p@),
{
    crate::text::starts_with_exec(v, p)
}

/// A parsed collection of APT repository entries.
#[derive(Debug)]
pub struct SourcesList {
    /// All entries in file order (enabled and disabled).
    pub entries: Vec<SourceEntry>,
}

impl SourcesList {
    /// An empty sources list.
    pub fn new() -> (r: SourcesList)
        ensures
            r.entries@.len() == 0,
    {
        SourcesList { entries: Vec::new() }
    }

    /// Parses the one-line `sources.list` format.
    ///
    /// A comment line that reads `# deb…` is parsed as a disabled entry; other
    /// comments, blank lines and lines of another type are skipped.
    pub fn parse_one_line(input: &str) -> (r: Result<SourcesList, SourcesError>)
        ensures
            match one_line_entries(lines(input@)) {
                Ok(es) => r matches Ok(l) && entry_views(l.entries@) == es,
                Err(m) => r matches Err(SourcesError::Parse(x)) && x@ == m,
            },
    {
        let v = chars_of(input);
        let ls = lines_exec(&v, 0, v.len());
        proof {
            assert(v@.subrange(0, v@.len() as int) =~= v@);
        }
        let ghost vl = views(ls@);
        let mut entries: Vec<SourceEntry> = Vec::new();
        proof {
            assert(vl.take(0) =~= Seq::<Seq<char>>::empty());
            assert(entry_views(entries@) =~= Seq::<EntryView>::empty());
        }
        let mut i: usize = 0;
        while i < ls.len()
            invariant
                i <= ls@.len(),
                vl == views(ls@),
                vl == lines(input@),
                one_line_entries(vl.take(i as int)) == Ok::<Seq<EntryView>, Seq<char>>(
                    entry_views(entries@),
                ),
            decreases ls.len() - i,
        {
            proof {
                assert(vl.take(i + 1).drop_last() =~= vl.take(i as int));
                assert(vl.take(i + 1).last() == ls@[i as int]@);
            }
            let ghost before = entry_views(entries@);
            match classify_exec(&ls[i]) {
                None => {},
                Some((enabled, l)) => {
                    match parse_one_line_entry(&l, enabled) {
                        Err(e) => {
                            proof {
                                lemma_one_line_err(vl, i + 1);
                                assert(vl.take(vl.len() as int) =~= vl);
                            }
                            return Err(e);
                        },
                        Ok(None) => {},
                        Ok(Some(e)) => {
                            entries.push(e);
                            assert(entry_views(entries@) =~= before.push(entries@.last()@));
                        },
                    }
                },
            }
            i = i + 1;
        }
        proof {
            assert(vl.take(ls@.len() as int) =~= vl);
        }
        Ok(SourcesList { entries })
    }
}

// ── deb822 format ─────────────────────────────────────────────────────────────

/// Fields read so far from a stanza, with the field being read.
pub struct D822 {
    pub fields: Pairs,
    pub key: Option<Seq<char>>,
    pub val: Seq<char>,
}

/// Fields with the pending one stored (value trimmed).
pub open spec fn d822_close(st: D822) -> Pairs {
    match st.key {
        Some(k) => map_set(st.fields, k, trim(st.val)),
        None => st.fields,
    }
}

/// One line of a stanza: a continuation (leading space or tab; a lone `.`
/// stands for an empty line), a `Name: value` field (names lowercased), a
/// blank line, or an error.
pub open spec fn d822_step(st: D822, line: Seq<char>) -> Result<D822, Seq<char>> {
    let c = index_of(line, ':') as int;
    if line.len() > 0 && (line[0] == ' ' || line[0] == '\t') {
        if st.key is Some {
            let stripped = trim_start(line);
            Ok(
                D822 {
                    fields: st.fields,
                    key: st.key,
                    val: st.val.push('\n') + if stripped == "."@ {
                        Seq::empty()
                    } else {
                        stripped
                    },
                },
            )
        } else {
            Ok(st)
        }
    } else if c < line.len() {
        Ok(
            D822 {
                fields: d822_close(st),
                key: Some(lowercase(trim(line.take(c)))),
                val: trim(line.skip(c + 1)),
            },
        )
    } else if trim(line).len() != 0 {
        Err("malformed deb822 line: "@ + debug_str(line))
    } else {
        Ok(st)
    }
}

pub open spec fn d822_fold(ls: Seq<Seq<char>>) -> Result<D822, Seq<char>>
    decreases ls.len(),
{
    if ls.len() == 0 {
        Ok(D822 { fields: Seq::empty(), key: None, val: Seq::empty() })
    } else {
        match d822_fold(ls.drop_last()) {
            Err(m) => Err(m),
            Ok(st) => d822_step(st, ls.last()),
        }
    }
}

/// The fields of one deb822 stanza.
pub open spec fn stanza_fields(stanza: Seq<char>) -> Result<Pairs, Seq<char>> {
    match d822_fold(lines(stanza)) {
        Err(m) => Err(m),
        Ok(st) => Ok(d822_close(st)),
    }
}

/// Trimmed pieces, without the empty ones.
pub open spec fn nonempty_trimmed(parts: Seq<Seq<char>>) -> Seq<Seq<char>>
    decreases parts.len(),
{
    if parts.len() == 0 {
        Seq::empty()
    } else {
        let r = nonempty_trimmed(parts.drop_last());
        let t = trim(parts.last());
        if t.len() > 0 {
            r.push(t)
        } else {
            r
        }
    }
}

/// The stanzas of a deb822 file: pieces between blank lines, trimmed.
pub open spec fn d822_stanzas(input: Seq<char>) -> Seq<Seq<char>> {
    nonempty_trimmed(split_str(input, "\n\n"@))
}

pub open spec fn field_or(f: Pairs, k: Seq<char>, d: Seq<char>) -> Seq<char> {
    match map_get(f, k) {
        Some(v) => v,
        None => d,
    }
}

/// `Enabled:` is absent or anything but `no`, `false`, `0`.
pub open spec fn stanza_enabled(f: Pairs) -> bool {
    let e = trim(lowercase(field_or(f, "enabled"@, "yes"@)));
    !(e == "no"@ || e == "false"@ || e == "0"@)
}

/// The words naming source types, others dropped.
pub open spec fn types_of(ws: Seq<Seq<char>>) -> Seq<SourceType>
    decreases ws.len(),
{
    if ws.len() == 0 {
        Seq::empty()
    } else {
        let r = types_of(ws.drop_last());
        match type_of(ws.last()) {
            Some(t) => r.push(t),
            None => r,
        }
    }
}

/// `Signed-By:` as `signed-by` and `Architectures:` as `arch`.
pub open spec fn stanza_options(f: Pairs) -> Pairs {
    let o = match map_get(f, "signed-by"@) {
        Some(v) => map_set(Seq::empty(), "signed-by"@, v),
        None => Seq::empty(),
    };
    match map_get(f, "architectures"@) {
        Some(v) => map_set(o, "arch"@, v),
        None => o,
    }
}

pub open spec fn per_suite(
    t: SourceType,
    u: Seq<char>,
    suites: Seq<Seq<char>>,
    comps: Seq<Seq<char>>,
    opts: Pairs,
    en: bool,
) -> Seq<EntryView> {
    Seq::new(
        suites.len(),
        |k: int|
            EntryView {
                source_type: t,
                uri: u,
                suite: suites[k],
                components: comps,
                options: opts,
                enabled: en,
            },
    )
}

pub open spec fn per_uri(
    t: SourceType,
    uris: Seq<Seq<char>>,
    suites: Seq<Seq<char>>,
    comps: Seq<Seq<char>>,
    opts: Pairs,
    en: bool,
) -> Seq<EntryView>
    decreases uris.len(),
{
    if uris.len() == 0 {
        Seq::empty()
    } else {
        per_uri(t, uris.drop_last(), suites, comps, opts, en) + per_suite(
            t,
            uris.last(),
            suites,
            comps,
            opts,
            en,
        )
    }
}

/// One entry per type × URI × suite, in that nesting order.
pub open spec fn expand(
    types: Seq<SourceType>,
    uris: Seq<Seq<char>>,
    suites: Seq<Seq<char>>,
    comps: Seq<Seq<char>>,
    opts: Pairs,
    en: bool,
) -> Seq<EntryView>
    decreases types.len(),
{
    if types.len() == 0 {
        Seq::empty()
    } else {
        expand(types.drop_last(), uris, suites, comps, opts, en) + per_uri(
            types.last(),
            uris,
            suites,
            comps,
            opts,
            en,
        )
    }
}

/// The entries of one stanza's fields.
pub open spec fn stanza_entries(f: Pairs) -> Seq<EntryView> {
    expand(
        types_of(words(field_or(f, "types"@, Seq::empty()), false)),
        words(field_or(f, "uris"@, Seq::empty()), false),
        words(field_or(f, "suites"@, Seq::empty()), false),
        words(field_or(f, "components"@, Seq::empty()), false),
        stanza_options(f),
        stanza_enabled(f),
    )
}

proof fn lemma_per_suite_opts(t: SourceType, u: Seq<char>, suites: Seq<Seq<char>>, comps: Seq<Seq<char>>, opts: Pairs, en: bool)
    ensures
        forall|i: int| 0 <= i < per_suite(t, u, suites, comps, opts, en).len() ==> (#[trigger] per_suite(t, u, suites, comps, opts, en)[i]).options == opts,
{
}

proof fn lemma_per_uri_opts(t: SourceType, uris: Seq<Seq<char>>, suites: Seq<Seq<char>>, comps: Seq<Seq<char>>, opts: Pairs, en: bool)
    ensures
        forall|i: int| 0 <= i < per_uri(t, uris, suites, comps, opts, en).len() ==> (#[trigger] per_uri(t, uris, suites, comps, opts, en)[i]).options == opts,
    decreases uris.len(),
{
    if uris.len() > 0 {
        lemma_per_uri_opts(t, uris.drop_last(), suites, comps, opts, en);
        lemma_per_suite_opts(t, uris.last(), suites, comps, opts, en);
        let a = per_uri(t, uris.drop_last(), suites, comps, opts, en);
        let b = per_suite(t, uris.last(), suites, comps, opts, en);
        assert forall|i: int| 0 <= i < (a + b).len() implies (#[trigger] (a + b)[i]).options == opts by {
            if i < a.len() {
                assert((a + b)[i] == a[i]);
            } else {
                assert((a + b)[i] == b[i - a.len()]);
            }
        }
    }
}

proof fn lemma_expand_opts(types: Seq<SourceType>, uris: Seq<Seq<char>>, suites: Seq<Seq<char>>, comps: Seq<Seq<char>>, opts: Pairs, en: bool)
    ensures
        forall|i: int| 0 <= i < expand(types, uris, suites, comps, opts, en).len() ==> (#[trigger] expand(types, uris, suites, comps, opts, en)[i]).options == opts,
    decreases types.len(),
{
    if types.len() > 0 {
        lemma_expand_opts(types.drop_last(), uris, suites, comps, opts, en);
        lemma_per_uri_opts(types.last(), uris, suites, comps, opts, en);
        let a = expand(types.drop_last(), uris, suites, comps, opts, en);
        let b = per_uri(types.last(), uris, suites, comps, opts, en);
        assert forall|i: int| 0 <= i < (a + b).len() implies (#[trigger] (a + b)[i]).options == opts by {
            if i < a.len() {
                assert((a + b)[i] == a[i]);
            } else {
                assert((a + b)[i] == b[i - a.len()]);
            }
        }
    }
}

/// The entry made of these fields.
pub open spec fn made_of(
    x: EntryView,
    types: Seq<SourceType>,
    uris: Seq<Seq<char>>,
    suites: Seq<Seq<char>>,
    comps: Seq<Seq<char>>,
    opts: Pairs,
    en: bool,
) -> bool {
    &&& types.contains(x.source_type)
    &&& uris.contains(x.uri)
    &&& suites.contains(x.suite)
    &&& x.components == comps
    &&& x.options == opts
    &&& x.enabled == en
}

proof fn lemma_per_uri_shape(t: SourceType, uris: Seq<Seq<char>>, suites: Seq<Seq<char>>, comps: Seq<Seq<char>>, opts: Pairs, en: bool)
    ensures
        per_uri(t, uris, suites, comps, opts, en).len() == uris.len() * suites.len(),
        forall|i: int|
            0 <= i < per_uri(t, uris, suites, comps, opts, en).len() ==> made_of(
                #[trigger] per_uri(t, uris, suites, comps, opts, en)[i],
                seq![t],
                uris,
                suites,
                comps,
                opts,
                en,
            ),
    decreases uris.len(),
{
    if uris.len() > 0 {
        let init = uris.drop_last();
        lemma_per_uri_shape(t, init, suites, comps, opts, en);
        let a = per_uri(t, init, suites, comps, opts, en);
        let b = per_suite(t, uris.last(), suites, comps, opts, en);
        let n = uris.len() as int;
        let m = suites.len() as int;
        assert((n - 1) * m + m == n * m) by (nonlinear_arith);
        assert forall|i: int| 0 <= i < (a + b).len() implies made_of(#[trigger] (a + b)[i], seq![t], uris, suites, comps, opts, en) by {
            assert(seq![t][0] == t);
            if i < a.len() {
                assert((a + b)[i] == a[i]);
                assert(made_of(a[i], seq![t], init, suites, comps, opts, en));
                let k = choose|k: int| 0 <= k < init.len() && init[k] == a[i].uri;
                assert(uris[k] == init[k]);
            } else {
                let k = i - a.len();
                assert((a + b)[i] == b[k]);
                assert(b[k].suite == suites[k]);
                assert(uris[n - 1] == uris.last());
            }
        }
    }
}

proof fn lemma_expand_shape(types: Seq<SourceType>, uris: Seq<Seq<char>>, suites: Seq<Seq<char>>, comps: Seq<Seq<char>>, opts: Pairs, en: bool)
    ensures
        expand(types, uris, suites, comps, opts, en).len() == types.len() * (uris.len() * suites.len()),
        forall|i: int|
            0 <= i < expand(types, uris, suites, comps, opts, en).len() ==> made_of(
                #[trigger] expand(types, uris, suites, comps, opts, en)[i],
                types,
                uris,
                suites,
                comps,
                opts,
                en,
            ),
    decreases types.len(),
{
    if types.len() > 0 {
        let init = types.drop_last();
        lemma_expand_shape(init, uris, suites, comps, opts, en);
        lemma_per_uri_shape(types.last(), uris, suites, comps, opts, en);
        let a = expand(init, uris, suites, comps, opts, en);
        let b = per_uri(types.last(), uris, suites, comps, opts, en);
        let n = types.len() as int;
        let m = uris.len() * suites.len();
        assert((n - 1) * m + m == n * m) by (nonlinear_arith);
        assert forall|i: int| 0 <= i < (a + b).len() implies made_of(#[trigger] (a + b)[i], types, uris, suites, comps, opts, en) by {
            if i < a.len() {
                assert((a + b)[i] == a[i]);
                assert(made_of(a[i], init, uris, suites, comps, opts, en));
                let k = choose|k: int| 0 <= k < init.len() && init[k] == a[i].source_type;
                assert(types[k] == init[k]);
            } else {
                let k = i - a.len();
                assert((a + b)[i] == b[k]);
                assert(made_of(b[k], seq![types.last()], uris, suites, comps, opts, en));
                assert(seq![types.last()].contains(b[k].source_type));
                assert(b[k].source_type == types.last());
                assert(types[n - 1] == types.last());
            }
        }
    }
}

/// A deb822 stanza yields one entry per type, URI and suite it lists: as
/// many entries as the product of their numbers, each with a listed type,
/// URI and suite, and the stanza's components, options and enabled state.
pub proof fn lemma_stanza_entries_shape(f: Pairs)
    ensures
        ({
            let types = types_of(words(field_or(f, "types"@, Seq::empty()), false));
            let uris = words(field_or(f, "uris"@, Seq::empty()), false);
            let suites = words(field_or(f, "suites"@, Seq::empty()), false);
            let comps = words(field_or(f, "components"@, Seq::empty()), false);
            &&& stanza_entries(f).len() == types.len() * (uris.len() * suites.len())
            &&& forall|i: int|
                0 <= i < stanza_entries(f).len() ==> made_of(
                    #[trigger] stanza_entries(f)[i],
                    types,
                    uris,
                    suites,
                    comps,
                    stanza_options(f),
                    stanza_enabled(f),
                )
        }),
{
    lemma_expand_shape(
        types_of(words(field_or(f, "types"@, Seq::empty()), false)),
        words(field_or(f, "uris"@, Seq::empty()), false),
        words(field_or(f, "suites"@, Seq::empty()), false),
        words(field_or(f, "components"@, Seq::empty()), false),
        stanza_options(f),
        stanza_enabled(f),
    );
}

/// A deb822 stanza restricts its entries to its architectures: when its
/// fields have `Architectures: x`, every entry it yields has the option
/// `arch` set to `x`; likewise `Signed-By: y` gives every entry the option
/// `signed-by` set to `y`.
pub proof fn lemma_stanza_entry_options(stanza: Seq<char>, f: Pairs)
    requires
        stanza_fields(stanza) == Ok::<Pairs, Seq<char>>(f),
    ensures
        map_get(f, "architectures"@) matches Some(x) ==> forall|i: int|
            0 <= i < stanza_entries(f).len() ==> map_get((#[trigger] stanza_entries(f)[i]).options, "arch"@) == Some(x),
        map_get(f, "signed-by"@) matches Some(y) ==> forall|i: int|
            0 <= i < stanza_entries(f).len() ==> map_get((#[trigger] stanza_entries(f)[i]).options, "signed-by"@)
                == Some(y),
{
    let o = stanza_options(f);
    lemma_expand_opts(
        types_of(words(field_or(f, "types"@, Seq::empty()), false)),
        words(field_or(f, "uris"@, Seq::empty()), false),
        words(field_or(f, "suites"@, Seq::empty()), false),
        words(field_or(f, "components"@, Seq::empty()), false),
        o,
        stanza_enabled(f),
    );
    reveal_strlit("arch");
    reveal_strlit("signed-by");
    assert("arch"@ != "signed-by"@) by {
        assert("arch"@.len() != "signed-by"@.len());
    }
    let o0 = match map_get(f, "signed-by"@) {
        Some(v) => map_set(Seq::<(Seq<char>, Seq<char>)>::empty(), "signed-by"@, v),
        None => Seq::<(Seq<char>, Seq<char>)>::empty(),
    };
    if let Some(v) = map_get(f, "signed-by"@) {
        lemma_map_set(Seq::<(Seq<char>, Seq<char>)>::empty(), "signed-by"@, v);
    }
    if let Some(v) = map_get(f, "architectures"@) {
        lemma_map_set(o0, "arch"@, v);
    }
}

/// The entries of the stanzas `ss`; the first bad stanza gives the error.
pub open spec fn d822_entries(ss: Seq<Seq<char>>) -> Result<Seq<EntryView>, Seq<char>>
    decreases ss.len(),
{
    if ss.len() == 0 {
        Ok(Seq::empty())
    } else {
        match d822_entries(ss.drop_last()) {
            Err(m) => Err(m),
            Ok(es) => match stanza_fields(ss.last()) {
                Err(m) => Err(m),
                Ok(f) => Ok(es + stanza_entries(f)),
            },
        }
    }
}

pub proof fn lemma_d822_fold_err(ls: Seq<Seq<char>>, k: int)
    requires
        0 <= k <= ls.len(),
        d822_fold(ls.take(k)) is Err,
    ensures
        d822_fold(ls.take(ls.len() as int)) == d822_fold(ls.take(k)),
    decreases ls.len() - k,
{
    if k < ls.len() {
        assert(ls.take(k + 1).drop_last() =~= ls.take(k));
        lemma_d822_fold_err(ls, k + 1);
    }
}

pub proof fn lemma_d822_entries_err(ss: Seq<Seq<char>>, k: int)
    requires
        0 <= k <= ss.len(),
        d822_entries(ss.take(k)) is Err,
    ensures
        d822_entries(ss.take(ss.len() as int)) == d822_entries(ss.take(k)),
    decreases ss.len() - k,
{
    if k < ss.len() {
        assert(ss.take(k + 1).drop_last() =~= ss.take(k));
        lemma_d822_entries_err(ss, k + 1);
    }
}

spec fn key_view(k: Option<String>) -> Option<Seq<char>> {
    match k {
        Some(s) => Some(s@),
        None => None,
    }
}

fn parse_deb822_stanza(stanza: &Vec<char>) -> (r: Result<Options, SourcesError>)
    ensures
        match stanza_fields(stanza@) {
            Ok(f) => r matches Ok(o) && o@ == f,
            Err(m) => r matches Err(SourcesError::Parse(x)) && x@ == m,
        },
{
    let ls = lines_exec(stanza, 0, stanza.len());
    proof {
        assert(stanza@.subrange(0, stanza@.len() as int) =~= stanza@);
    }
    let ghost vl = views(ls@);
    let mut fields = Options::new();
    let mut key: Option<String> = None;
    let mut val: Vec<char> = Vec::new();
    proof {
        assert(vl.take(0) =~= Seq::<Seq<char>>::empty());
    }
    let mut i: usize = 0;
    while i < ls.len()
        invariant
            i <= ls@.len(),
            vl == views(ls@),
            vl == lines(stanza@),
            d822_fold(vl.take(i as int)) == Ok::<D822, Seq<char>>(
                D822 { fields: fields@, key: key_view(key), val: val@ },
            ),
        decreases ls.len() - i,
    {
        proof {
            assert(vl.take(i + 1).drop_last() =~= vl.take(i as int));
            assert(vl.take(i + 1).last() == ls@[i as int]@);
        }
        let line = &ls[i];
        let n = line.len();
        let c = find_char(line, 0, n, ':');
        proof {
            assert(line@.subrange(0, n as int) =~= line@);
        }
        if n > 0 && (line[0] == ' ' || line[0] == '\t') {
            if key.is_some() {
                let stripped = crate::text::skip_ws_fwd(line, 0, n);
                let rest = slice_of(line, stripped, n);
                proof {
                    assert(rest@ == crate::text::trim_start(line@));
                }
                let ghost v0 = val@;
                val.push('\n');
                let dot = chars_of(".");
                if !chars_eq(&rest, &dot) {
                    let mut k: usize = 0;
                    while k < rest.len()
                        invariant
                            k <= rest@.len(),
                            val@ == v0.push('\n') + rest@.take(k as int),
                        decreases rest.len() - k,
                    {
                        val.push(rest[k]);
                        k = k + 1;
                        assert(val@ =~= v0.push('\n') + rest@.take(k as int));
                    }
                    assert(rest@.take(rest@.len() as int) =~= rest@);
                } else {
                    assert(val@ =~= v0.push('\n') + Seq::<char>::empty());
                }
            }
        } else if c < n {
            if let Some(k) = key {
                let t = trim_vec(&val);
                fields.insert(k, string_of(&t));
            }
            let name = slice_of(line, 0, c);
            let tn = trim_vec(&name);
            let tns = string_of(&tn);
            key = Some(to_lowercase(tns.as_str()));
            let after = slice_of(line, c + 1, n);
            val = trim_vec(&after);
            proof {
                assert(name@ =~= line@.take(c as int));
                assert(after@ =~= line@.skip(c + 1));
            }
        } else {
            let t = trim_vec(line);
            if t.len() != 0 {
                let mut m = own("malformed deb822 line: ");
                push_debug_str(&mut m, line);
                proof {
                    lemma_d822_fold_err(vl, i + 1);
                    assert(vl.take(vl.len() as int) =~= vl);
                }
                return Err(SourcesError::Parse(m));
            }
        }
        i = i + 1;
    }
    proof {
        assert(vl.take(vl.len() as int) =~= vl);
    }
    if let Some(k) = key {
        let t = trim_vec(&val);
        fields.insert(k, string_of(&t));
    }
    Ok(fields)
}
fn stanza_entries_exec(f: &Options, out: &mut Vec<SourceEntry>)
    ensures
        entry_views(final(out)@) == entry_views(old(out)@) + stanza_entries(f@),
{
    let enabled_raw = match f.get("enabled") {
        Some(v) => v.clone(),
        None => own("yes"),
    };
    let low = to_lowercase(enabled_raw.as_str());
    let lc = chars_of(low.as_str());
    let e = trim_vec(&lc);
    let es = string_of(&e);
    let enabled = !(str_eq(es.as_str(), "no") || str_eq(es.as_str(), "false") || str_eq(
        es.as_str(),
        "0",
    ));
    let tw = field_words(f, "types");
    let uris = field_words(f, "uris");
    let suites = field_words(f, "suites");
    let comps = field_words(f, "components");
    let mut types: Vec<SourceType> = Vec::new();
    let mut i: usize = 0;
    while i < tw.len()
        invariant
            i <= tw@.len(),
            types@ == types_of(views(tw@).take(i as int)),
        decreases tw.len() - i,
    {
        proof {
            assert(views(tw@).take(i + 1).drop_last() =~= views(tw@).take(i as int));
        }
        let w = string_of(&tw[i]);
        match SourceType::from_str(w.as_str()) {
            Some(t) => types.push(t),
            None => {},
        }
        i = i + 1;
    }
    proof {
        assert(views(tw@).take(tw@.len() as int) =~= views(tw@));
    }
    let mut opts = Options::new();
    match f.get("signed-by") {
        Some(v) => opts.insert(own("signed-by"), v.clone()),
        None => {},
    }
    match f.get("architectures") {
        Some(v) => opts.insert(own("arch"), v.clone()),
        None => {},
    }
    let ghost vu = views(uris@);
    let ghost vs = views(suites@);
    let ghost vc = views(comps@);
    let ghost start = entry_views(out@);
    let ghost o = opts@;
    let mut a: usize = 0;
    while a < types.len()
        invariant
            a <= types@.len(),
            vu == views(uris@),
            vs == views(suites@),
            vc == views(comps@),
            o == opts@,
            entry_views(out@) == start + expand(types@.take(a as int), vu, vs, vc, o, enabled),
        decreases types.len() - a,
    {
        let t = types[a];
        let ghost mid = entry_views(out@);
        let mut b: usize = 0;
        proof {
            assert(uris@.len() == vu.len());
            assert(vu.take(0) =~= Seq::<Seq<char>>::empty());
            assert(mid + per_uri(t, vu.take(0), vs, vc, o, enabled) =~= mid);
        }
        while b < uris.len()
            invariant
                b <= uris@.len(),
                vu == views(uris@),
                vs == views(suites@),
                vc == views(comps@),
                o == opts@,
                entry_views(out@) == mid + per_uri(t, vu.take(b as int), vs, vc, o, enabled),
            decreases uris.len() - b,
        {
            let ghost inner = entry_views(out@);
            let mut c: usize = 0;
            proof {
                assert(per_suite(t, vu[b as int], vs.take(0), vc, o, enabled) =~= Seq::<EntryView>::empty());
                assert(inner + per_suite(t, vu[b as int], vs.take(0), vc, o, enabled) =~= inner);
            }
            while c < suites.len()
                invariant
                    c <= suites@.len(),
                    b < uris@.len(),
                    vu == views(uris@),
                    vs == views(suites@),
                    vc == views(comps@),
                    o == opts@,
                    entry_views(out@) == inner + per_suite(t, vu[b as int], vs.take(c as int), vc, o, enabled),
                decreases suites.len() - c,
            {
                let ghost before = entry_views(out@);
                let components = strings_of(&comps);
                let e = SourceEntry {
                    source_type: t,
                    uri: string_of(&uris[b]),
                    suite: string_of(&suites[c]),
                    components,
                    options: opts.copy(),
                    enabled,
                };
                out.push(e);
                proof {
                    assert(entry_views(out@) =~= before.push(out@.last()@));
                    assert(per_suite(t, vu[b as int], vs.take(c + 1), vc, o, enabled) =~= per_suite(
                        t,
                        vu[b as int],
                        vs.take(c as int),
                        vc,
                        o,
                        enabled,
                    ).push(out@.last()@));
                }
                c = c + 1;
            }
            proof {
                assert(vs.take(suites@.len() as int) =~= vs);
                assert(vu.take(b + 1).drop_last() =~= vu.take(b as int));
                assert(entry_views(out@) =~= mid + per_uri(t, vu.take(b + 1), vs, vc, o, enabled));
            }
            b = b + 1;
        }
        proof {
            assert(vu.take(uris@.len() as int) =~= vu);
            assert(types@.take(a + 1).drop_last() =~= types@.take(a as int));
            assert(entry_views(out@) =~= start + expand(types@.take(a + 1), vu, vs, vc, o, enabled));
        }
        a = a + 1;
    }
    proof {
        assert(types@.take(types@.len() as int) =~= types@);
    }
}

fn field_words(f: &Options, name: &str) -> (r: Vec<Vec<char>>)
    ensures
        views(r@) == words(field_or(f@, name@, Seq::empty()), false),
{
    let v = match f.get(name) {
        Some(x) => chars_of(x.as_str()),
        None => Vec::new(),
    };
    proof {
        assert(v@.subrange(0, v@.len() as int) =~= v@);
        if map_get(f@, name@) is None {
            assert(v@ =~= Seq::<char>::empty());
        }
    }
    words_exec(&v, 0, v.len(), false)
}

impl SourcesList {
    /// Parses the deb822 `.sources` format: one entry per type × URI ×
    /// suite of each stanza, all sharing its components and options.
    pub fn parse_deb822(input: &str) -> (r: Result<SourcesList, SourcesError>)
        ensures
            match d822_entries(d822_stanzas(input@)) {
                Ok(es) => r matches Ok(l) && entry_views(l.entries@) == es,
                Err(m) => r matches Err(SourcesError::Parse(x)) && x@ == m,
            },
    {
        let v = chars_of(input);
        let sep = chars_of("\n\n");
        proof {
            reveal_strlit("\n\n");
            assert(v@.subrange(0, v@.len() as int) =~= v@);
        }
        let parts = split_str_exec(&v, 0, v.len(), &sep);
        let ghost vp = views(parts@);
        let mut stanzas: Vec<Vec<char>> = Vec::new();
        let mut i: usize = 0;
        proof {
            assert(vp.take(0) =~= Seq::<Seq<char>>::empty());
            assert(views(stanzas@) =~= Seq::<Seq<char>>::empty());
        }
        while i < parts.len()
            invariant
                i <= parts@.len(),
                vp == views(parts@),
                views(stanzas@) == nonempty_trimmed(vp.take(i as int)),
            decreases parts.len() - i,
        {
            proof {
                assert(vp.take(i + 1).drop_last() =~= vp.take(i as int));
            }
            let t = trim_vec(&parts[i]);
            if t.len() > 0 {
                let ghost before = views(stanzas@);
                stanzas.push(t);
                assert(views(stanzas@) =~= before.push(t@));
            }
            i = i + 1;
        }
        proof {
            assert(vp.take(vp.len() as int) =~= vp);
        }
        let ghost vs = views(stanzas@);
        let mut entries: Vec<SourceEntry> = Vec::new();
        let mut k: usize = 0;
        proof {
            assert(vs.take(0) =~= Seq::<Seq<char>>::empty());
            assert(entry_views(entries@) =~= Seq::<EntryView>::empty());
        }
        while k < stanzas.len()
            invariant
                k <= stanzas@.len(),
                vs == views(stanzas@),
                vs == d822_stanzas(input@),
                d822_entries(vs.take(k as int)) == Ok::<Seq<EntryView>, Seq<char>>(
                    entry_views(entries@),
                ),
            decreases stanzas.len() - k,
        {
            proof {
                assert(vs.take(k + 1).drop_last() =~= vs.take(k as int));
                assert(vs.take(k + 1).last() == stanzas@[k as int]@);
            }
            match parse_deb822_stanza(&stanzas[k]) {
                Err(e) => {
                    proof {
                        lemma_d822_entries_err(vs, k + 1);
                        assert(vs.take(vs.len() as int) =~= vs);
                    }
                    return Err(e);
                },
                Ok(f) => {
                    stanza_entries_exec(&f, &mut entries);
                },
            }
            k = k + 1;
        }
        proof {
            assert(vs.take(vs.len() as int) =~= vs);
        }
        Ok(SourcesList { entries })
    }
}

// ── Writing ───────────────────────────────────────────────────────────────────

/// `a` sorts before `b` (character by character, a prefix first), as
/// `String`'s `Ord` does.
pub open spec fn str_lt(a: Seq<char>, b: Seq<char>) -> bool
    decreases a.len(),
{
    if a.len() == 0 {
        b.len() > 0
    } else if b.len() == 0 {
        false
    } else if a[0] != b[0] {
        a[0] < b[0]
    } else {
        str_lt(a.drop_first(), b.drop_first())
    }
}

/// `x` placed before the first element of `s` it does not follow.
pub open spec fn insert_sorted(s: Seq<Seq<char>>, x: Seq<char>) -> Seq<Seq<char>>
    decreases s.len(),
{
    if s.len() == 0 {
        seq![x]
    } else if str_lt(s[0], x) {
        seq![s[0]] + insert_sorted(s.drop_first(), x)
    } else {
        seq![x] + s
    }
}

/// `s` in ascending order.
pub open spec fn sort_strs(s: Seq<Seq<char>>) -> Seq<Seq<char>>
    decreases s.len(),
{
    if s.len() == 0 {
        Seq::empty()
    } else {
        insert_sorted(sort_strs(s.drop_last()), s.last())
    }
}

/// `name=value` for each option.
pub open spec fn kv_strings(o: Pairs) -> Seq<Seq<char>> {
    Seq::new(o.len(), |i: int| o[i].0 + "="@ + o[i].1)
}

/// `" comp"` for each component.
pub open spec fn comps_text(c: Seq<Seq<char>>) -> Seq<char>
    decreases c.len(),
{
    if c.len() == 0 {
        Seq::empty()
    } else {
        comps_text(c.drop_last()) + " "@ + c.last()
    }
}

/// ` [name=value …]` with the options sorted, or nothing without options.
pub open spec fn options_text(o: Pairs) -> Seq<char> {
    if o.len() == 0 {
        Seq::empty()
    } else {
        " ["@ + join(sort_strs(kv_strings(o)), " "@) + "]"@
    }
}

/// One entry as a `sources.list` line; a disabled one is commented out.
pub open spec fn line_text(e: EntryView) -> Seq<char> {
    (if e.enabled { Seq::empty() } else { "# "@ }) + type_text(e.source_type) + options_text(e.options)
        + " "@ + e.uri + " "@ + e.suite + comps_text(e.components) + "\n"@
}

pub open spec fn one_line_text(es: Seq<EntryView>) -> Seq<char>
    decreases es.len(),
{
    if es.len() == 0 {
        Seq::empty()
    } else {
        one_line_text(es.drop_last()) + line_text(es.last())
    }
}

proof fn lemma_insert_sorted(s: Seq<Seq<char>>, x: Seq<char>, j: int)
    requires
        0 <= j <= s.len(),
        forall|m: int| 0 <= m < j ==> str_lt(#[trigger] s[m], x),
        j < s.len() ==> !str_lt(s[j], x),
    ensures
        insert_sorted(s, x) == s.take(j) + seq![x] + s.skip(j),
    decreases s.len(),
{
    if s.len() == 0 {
        assert(s.take(j) + seq![x] + s.skip(j) =~= seq![x]);
    } else if j == 0 {
        assert(s.take(j) + seq![x] + s.skip(j) =~= seq![x] + s);
    } else {
        assert(str_lt(s[0], x));
        let t = s.drop_first();
        assert forall|m: int| 0 <= m < j - 1 implies str_lt(#[trigger] t[m], x) by {
            assert(t[m] == s[m + 1]);
        }
        lemma_insert_sorted(t, x, j - 1);
        assert(seq![s[0]] + (t.take(j - 1) + seq![x] + t.skip(j - 1)) =~= s.take(j) + seq![x]
            + s.skip(j));
    }
}

proof fn lemma_head_elems(u: Seq<Seq<char>>)
    requires
        u.len() > 0,
    ensures
        forall|y: Seq<char>| #[trigger] u.contains(y) <==> (y == u[0] || u.drop_first().contains(y)),
        u.no_duplicates() <==> (!u.drop_first().contains(u[0]) && u.drop_first().no_duplicates()),
{
    let t = u.drop_first();
    assert forall|y: Seq<char>| #[trigger] u.contains(y) <==> (y == u[0] || t.contains(y)) by {
        if u.contains(y) {
            let k = choose|k: int| 0 <= k < u.len() && u[k] == y;
            if k > 0 {
                assert(t[k - 1] == y);
            }
        }
        if t.contains(y) {
            let k = choose|k: int| 0 <= k < t.len() && t[k] == y;
            assert(u[k + 1] == y);
        }
    }
    if u.no_duplicates() {
        assert forall|i: int, j: int| 0 <= i < t.len() && 0 <= j < t.len() && i != j implies t[i] != t[j] by {
            assert(u[i + 1] == t[i] && u[j + 1] == t[j]);
        }
        if t.contains(u[0]) {
            let k = choose|k: int| 0 <= k < t.len() && t[k] == u[0];
            assert(u[k + 1] == u[0]);
        }
    }
    if !t.contains(u[0]) && t.no_duplicates() {
        assert forall|i: int, j: int| 0 <= i < u.len() && 0 <= j < u.len() && i != j implies u[i] != u[j] by {
            if i == 0 && j > 0 {
                assert(u[j] == t[j - 1]);
            } else if j == 0 && i > 0 {
                assert(u[i] == t[i - 1]);
            } else if i > 0 && j > 0 {
                assert(u[i] == t[i - 1] && u[j] == t[j - 1]);
            }
        }
    }
}

/// Inserting into order adds the new element and keeps every other one.
pub proof fn lemma_insert_sorted_elems(s: Seq<Seq<char>>, x: Seq<char>)
    ensures
        forall|y: Seq<char>| #[trigger] insert_sorted(s, x).contains(y) <==> (y == x || s.contains(y)),
        s.no_duplicates() && !s.contains(x) ==> insert_sorted(s, x).no_duplicates(),
    decreases s.len(),
{
    let r = insert_sorted(s, x);
    if s.len() == 0 {
        assert(r =~= seq![x]);
        lemma_head_elems(r);
        assert(r.drop_first() =~= s);
    } else {
        let t = s.drop_first();
        lemma_head_elems(s);
        lemma_head_elems(r);
        if str_lt(s[0], x) {
            lemma_insert_sorted_elems(t, x);
            assert(r.drop_first() =~= insert_sorted(t, x));
        } else {
            assert(r.drop_first() =~= s);
        }
    }
}

/// Sorting keeps exactly the elements it was given, and no element is
/// repeated that was not repeated before.
pub proof fn lemma_sort_strs_elems(s: Seq<Seq<char>>)
    ensures
        forall|y: Seq<char>| sort_strs(s).contains(y) <==> s.contains(y),
        s.no_duplicates() ==> sort_strs(s).no_duplicates(),
    decreases s.len(),
{
    if s.len() > 0 {
        let d = s.drop_last();
        let l = s.last();
        lemma_sort_strs_elems(d);
        lemma_insert_sorted_elems(sort_strs(d), l);
        assert forall|y: Seq<char>| s.contains(y) <==> (y == l || d.contains(y)) by {
            if s.contains(y) {
                let k = choose|k: int| 0 <= k < s.len() && s[k] == y;
                if k < d.len() {
                    assert(d[k] == y);
                }
            }
            if y == l {
                assert(s[s.len() - 1] == y);
            }
            if d.contains(y) {
                let k = choose|k: int| 0 <= k < d.len() && d[k] == y;
                assert(s[k] == y);
            }
        }
        if s.no_duplicates() {
            assert forall|i: int, j: int| 0 <= i < d.len() && 0 <= j < d.len() && i != j implies d[i] != d[j] by {
                assert(s[i] == d[i] && s[j] == d[j]);
            }
            if d.contains(l) {
                let k = choose|k: int| 0 <= k < d.len() && d[k] == l;
                assert(s[k] == s[s.len() - 1]);
            }
        }
    }
}

// ── Writing and reading back ──────────────────────────────────────────────────

/// A field a line holds as one word: non-empty, without whitespace, not
/// starting with `#` (which would start a comment).
pub open spec fn line_word(w: Seq<char>) -> bool {
    word_like(w) && w[0] != '#'
}

/// An entry without options whose fields are line words and whose URI does
/// not start with `[` (which would open an options block).
pub open spec fn plain_entry(e: EntryView) -> bool {
    &&& e.options.len() == 0
    &&& line_word(e.uri)
    &&& e.uri[0] != '['
    &&& line_word(e.suite)
    &&& forall|k: int| 0 <= k < e.components.len() ==> line_word(#[trigger] e.components[k])
}

/// The line of an entry after its comment mark and before its newline.
pub open spec fn entry_core(e: EntryView) -> Seq<char> {
    type_text(e.source_type) + " "@ + e.uri + " "@ + e.suite + comps_text(e.components)
}

/// No newline, no space before a `#`, and no space at the end.
spec fn clean_text(s: Seq<char>) -> bool {
    &&& forall|j: int| 0 <= j < s.len() ==> #[trigger] s[j] != '\n'
    &&& forall|j: int| 0 <= j < s.len() - 1 && #[trigger] s[j] == ' ' ==> s[j + 1] != '#'
    &&& s.len() > 0 && !is_ws(s.last())
}

proof fn lemma_clean_join(a: Seq<char>, w: Seq<char>)
    requires
        clean_text(a),
        line_word(w),
    ensures
        clean_text(a + " "@ + w),
{
    reveal_strlit(" ");
    let s = a + " "@ + w;
    let n = a.len() as int;
    assert(s.len() == n + 1 + w.len());
    assert forall|j: int| 0 <= j < s.len() implies #[trigger] s[j] != '\n' by {
        if j < n {
            assert(s[j] == a[j]);
        } else if j > n {
            assert(s[j] == w[j - n - 1]);
            assert(!is_ws(w[j - n - 1]));
        }
    }
    assert forall|j: int| 0 <= j < s.len() - 1 && #[trigger] s[j] == ' ' implies s[j + 1] != '#' by {
        if j < n - 1 {
            assert(s[j] == a[j] && s[j + 1] == a[j + 1]);
        } else if j == n - 1 {
            assert(s[j] == a.last());
        } else if j == n {
            assert(s[j + 1] == w[0]);
        } else {
            assert(s[j] == w[j - n - 1]);
            assert(!is_ws(w[j - n - 1]));
        }
    }
    assert(s.last() == w.last());
    assert(!is_ws(w[w.len() - 1]));
}

proof fn lemma_clean_comps(base: Seq<char>, c: Seq<Seq<char>>)
    requires
        clean_text(base),
        forall|k: int| 0 <= k < c.len() ==> line_word(#[trigger] c[k]),
    ensures
        clean_text(base + comps_text(c)),
    decreases c.len(),
{
    if c.len() == 0 {
        assert(base + comps_text(c) =~= base);
    } else {
        let d = c.drop_last();
        assert forall|k: int| 0 <= k < d.len() implies line_word(#[trigger] d[k]) by {
            assert(d[k] == c[k]);
        }
        lemma_clean_comps(base, d);
        assert(line_word(c[c.len() - 1]));
        lemma_clean_join(base + comps_text(d), c.last());
        assert(base + comps_text(c) =~= base + comps_text(d) + " "@ + c.last());
    }
}

/// `comps_text` read from the front.
proof fn lemma_comps_front(c: Seq<Seq<char>>)
    requires
        c.len() > 0,
    ensures
        comps_text(c) == " "@ + c[0] + comps_text(c.drop_first()),
    decreases c.len(),
{
    if c.len() == 1 {
        assert(c.drop_last() =~= Seq::<Seq<char>>::empty());
        assert(c.drop_first() =~= Seq::<Seq<char>>::empty());
        assert(comps_text(c) =~= " "@ + c[0] + comps_text(c.drop_first()));
    } else {
        lemma_comps_front(c.drop_last());
        assert(c.drop_last().drop_first() =~= c.drop_first().drop_last());
        assert(c.drop_first().last() == c.last());
        assert(comps_text(c) =~= " "@ + c[0] + comps_text(c.drop_first()));
    }
}

/// The words of a word followed by components: the word, then the
/// components.
proof fn lemma_words_word_comps(w: Seq<char>, c: Seq<Seq<char>>)
    requires
        word_like(w),
        forall|k: int| 0 <= k < c.len() ==> line_word(#[trigger] c[k]),
    ensures
        words(w + comps_text(c), true) == seq![w] + c,
    decreases c.len(),
{
    if c.len() == 0 {
        assert(w + comps_text(c) =~= w);
        lemma_words_single(w, true);
        assert(seq![w] + c =~= seq![w]);
    } else {
        let t = c.drop_first();
        assert forall|k: int| 0 <= k < t.len() implies line_word(#[trigger] t[k]) by {
            assert(t[k] == c[k + 1]);
        }
        assert(line_word(c[0]));
        lemma_words_word_comps(c[0], t);
        lemma_comps_front(c);
        assert(w + comps_text(c) =~= w + " "@ + (c[0] + comps_text(t)));
        lemma_words_cons(w, c[0] + comps_text(t), true);
        assert(seq![w] + (seq![c[0]] + t) =~= seq![w] + c);
    }
}

/// An entry's line without its newline.
pub open spec fn entry_body(e: EntryView) -> Seq<char> {
    (if e.enabled {
        Seq::empty()
    } else {
        "# "@
    }) + entry_core(e)
}

proof fn lemma_type_word(t: SourceType)
    ensures
        word_like(type_text(t)),
        clean_text(type_text(t)),
        starts_with(type_text(t), "deb"@),
        type_of(type_text(t)) == Some(t),
{
    reveal_strlit("deb");
    reveal_strlit("deb-src");
    let w = type_text(t);
    assert forall|k: int| 0 <= k < w.len() implies !is_ws(#[trigger] w[k]) by {}
    assert forall|j: int| 0 <= j < w.len() - 1 && #[trigger] w[j] == ' ' implies w[j + 1] != '#' by {}
    assert(w.take(3) =~= "deb"@);
    if t is Source {
        assert(w.len() != "deb"@.len());
    }
}

proof fn lemma_core(e: EntryView)
    requires
        plain_entry(e),
    ensures
        words(entry_core(e), true) == seq![type_text(e.source_type), e.uri, e.suite] + e.components,
        clean_text(entry_core(e)),
        starts_with(entry_core(e), "deb"@),
        parse_entry(entry_core(e), e.enabled) == Ok::<Option<EntryView>, Seq<char>>(Some(e)),
{
    let tt = type_text(e.source_type);
    let c = e.components;
    let core = entry_core(e);
    lemma_type_word(e.source_type);
    lemma_words_word_comps(e.suite, c);
    assert(core =~= tt + " "@ + (e.uri + " "@ + (e.suite + comps_text(c))));
    lemma_words_cons(e.uri, e.suite + comps_text(c), true);
    lemma_words_cons(tt, e.uri + " "@ + (e.suite + comps_text(c)), true);
    let ws = words(core, true);
    assert(ws =~= seq![tt, e.uri, e.suite] + c);
    lemma_clean_join(tt, e.uri);
    lemma_clean_join(tt + " "@ + e.uri, e.suite);
    lemma_clean_comps(tt + " "@ + e.uri + " "@ + e.suite, c);
    reveal_strlit("deb");
    assert(tt.len() >= 3);
    assert(core.take(3) =~= tt.take(3));
    let rest = ws.drop_first();
    assert(rest[0] == e.uri);
    assert(rest.skip(2) =~= c);
    assert(e.options =~= Seq::<(Seq<char>, Seq<char>)>::empty());
}

proof fn lemma_classify_body(e: EntryView)
    requires
        plain_entry(e),
    ensures
        classify(entry_body(e)) == Some((e.enabled, entry_core(e))),
        !entry_body(e).contains('\n'),
        strip_cr(entry_body(e)) == entry_body(e),
{
    reveal_strlit("# ");
    reveal_strlit(" #");
    lemma_core(e);
    let core = entry_core(e);
    let body = entry_body(e);
    assert(core[0] == 'd') by {
        reveal_strlit("deb");
        assert(core.take(3)[0] == 'd');
    }
    assert(!is_ws(core.last()));
    assert(trim_start(core) == core);
    assert(trim_end(core) == core);
    assert(body.last() == core.last());
    assert(!body.contains('\n')) by {
        if body.contains('\n') {
            let k = choose|k: int| 0 <= k < body.len() && body[k] == '\n';
            if !e.enabled {
                assert(k >= 2);
                assert(body[k] == core[k - 2]);
            } else {
                assert(body[k] == core[k]);
            }
        }
    }
    if e.enabled {
        assert(body =~= core);
        lemma_find_sub(core, " #"@);
        let j = find_sub(core, " #"@) as int;
        if j < core.len() {
            assert(core.subrange(j as int, j + 2) == " #"@);
            assert(core[j as int] == core.subrange(j as int, j + 2)[0]);
            assert(core[j + 1] == core.subrange(j as int, j + 2)[1]);
        }
        assert(trim(body) == core);
    } else {
        assert(body[0] == '#');
        assert(trim_start(body) == body);
        assert(trim_end(body) == body);
        assert(trim(body) == body);
        let r0 = body.drop_first();
        assert(r0 =~= seq![' '] + core);
        assert(r0[0] == ' ');
        assert(r0.drop_first() =~= core);
        assert(trim_start(r0) == core);
        assert(trim(r0) == core);
    }
}

pub open spec fn entry_bodies(es: Seq<EntryView>) -> Seq<Seq<char>> {
    Seq::new(es.len(), |i: int| entry_body(es[i]))
}

proof fn lemma_text_bodies(es: Seq<EntryView>)
    requires
        forall|i: int| 0 <= i < es.len() ==> plain_entry(#[trigger] es[i]),
    ensures
        one_line_text(es) == unlines(entry_bodies(es)),
    decreases es.len(),
{
    let b = entry_bodies(es);
    if es.len() == 0 {
        assert(b =~= Seq::<Seq<char>>::empty());
        assert(unlines(b) == Seq::<char>::empty());
    } else {
        let d = es.drop_last();
        assert forall|i: int| 0 <= i < d.len() implies plain_entry(#[trigger] d[i]) by {
            assert(d[i] == es[i]);
        }
        lemma_text_bodies(d);
        assert(entry_bodies(d) =~= b.drop_last());
        lemma_unlines_push(b.drop_last(), b.last());
        assert(b.drop_last().push(b.last()) =~= b);
        let e = es.last();
        assert(plain_entry(es[es.len() - 1]));
        assert(options_text(e.options) =~= Seq::<char>::empty());
        assert(line_text(e) =~= entry_body(e) + "\n"@);
        assert(one_line_text(es) =~= unlines(b));
    }
}

proof fn lemma_bodies_entries(es: Seq<EntryView>)
    requires
        forall|i: int| 0 <= i < es.len() ==> plain_entry(#[trigger] es[i]),
    ensures
        one_line_entries(entry_bodies(es)) == Ok::<Seq<EntryView>, Seq<char>>(es),
    decreases es.len(),
{
    let b = entry_bodies(es);
    if es.len() == 0 {
        assert(b =~= Seq::<Seq<char>>::empty());
        assert(es =~= Seq::<EntryView>::empty());
    } else {
        let d = es.drop_last();
        assert forall|i: int| 0 <= i < d.len() implies plain_entry(#[trigger] d[i]) by {
            assert(d[i] == es[i]);
        }
        lemma_bodies_entries(d);
        assert(entry_bodies(d) =~= b.drop_last());
        let e = es.last();
        assert(plain_entry(es[es.len() - 1]));
        lemma_classify_body(e);
        lemma_core(e);
        assert(b.last() == entry_body(e));
        assert(one_line_entries(b.drop_last()) == Ok::<Seq<EntryView>, Seq<char>>(d));
        assert(classify(b.last()) == Some((e.enabled, entry_core(e))));
        assert(parse_entry(entry_core(e), e.enabled) == Ok::<Option<EntryView>, Seq<char>>(Some(e)));
        assert(d.push(e) =~= es);
        assert(one_line_entries(b) == Ok::<Seq<EntryView>, Seq<char>>(d.push(e)));
    }
}

/// Writing entries without options in the one-line format and parsing the
/// text back gives the same entries, in the same order, when every URI,
/// suite and component is a non-empty word without whitespace that does not
/// start with `#`, and no URI starts with `[`.
pub proof fn lemma_one_line_round_trip(es: Seq<EntryView>)
    requires
        forall|i: int| 0 <= i < es.len() ==> plain_entry(#[trigger] es[i]),
    ensures
        one_line_entries(lines(one_line_text(es))) == Ok::<Seq<EntryView>, Seq<char>>(es),
{
    lemma_text_bodies(es);
    let b = entry_bodies(es);
    assert forall|i: int| 0 <= i < b.len() implies !(#[trigger] b[i]).contains('\n') && strip_cr(b[i]) == b[i] by {
        assert(plain_entry(es[i]));
        lemma_classify_body(es[i]);
    }
    lemma_lines_unlines(b);
    lemma_bodies_entries(es);
}

fn str_lt_exec(a: &Vec<char>, b: &Vec<char>) -> (r: bool)
    ensures
        r == str_lt(a@, b@),
{
    let mut i: usize = 0;
    assert(a@.skip(0) =~= a@);
    assert(b@.skip(0) =~= b@);
    while i < a.len() && i < b.len() && a[i] == b[i]
        invariant
            i <= a@.len(),
            i <= b@.len(),
            str_lt(a@, b@) == str_lt(a@.skip(i as int), b@.skip(i as int)),
        decreases a.len() - i,
    {
        assert(a@.skip(i as int).drop_first() =~= a@.skip(i + 1));
        assert(b@.skip(i as int).drop_first() =~= b@.skip(i + 1));
        i = i + 1;
    }
    proof {
        if i < a@.len() {
            assert(a@.skip(i as int)[0] == a@[i as int]);
        }
        if i < b@.len() {
            assert(b@.skip(i as int)[0] == b@[i as int]);
        }
    }
    if i >= a.len() {
        i < b.len()
    } else if i >= b.len() {
        false
    } else {
        a[i] < b[i]
    }
}

pub fn sort_vecs(items: &Vec<Vec<char>>) -> (r: Vec<Vec<char>>)
    ensures
        views(r@) == sort_strs(views(items@)),
{
    let ghost vi = views(items@);
    let mut out: Vec<Vec<char>> = Vec::new();
    let mut i: usize = 0;
    proof {
        assert(vi.take(0) =~= Seq::<Seq<char>>::empty());
        assert(views(out@) =~= Seq::<Seq<char>>::empty());
    }
    while i < items.len()
        invariant
            i <= items@.len(),
            vi == views(items@),
            views(out@) == sort_strs(vi.take(i as int)),
        decreases items.len() - i,
    {
        let x = slice_of(&items[i], 0, items[i].len());
        proof {
            assert(x@ =~= vi[i as int]);
        }
        let mut j: usize = 0;
        while j < out.len() && str_lt_exec(&out[j], &x)
            invariant
                j <= out@.len(),
                forall|m: int| 0 <= m < j ==> str_lt(#[trigger] views(out@)[m], x@),
            decreases out.len() - j,
        {
            j = j + 1;
        }
        proof {
            lemma_insert_sorted(views(out@), x@, j as int);
            assert(vi.take(i + 1).drop_last() =~= vi.take(i as int));
        }
        let ghost before = views(out@);
        out.insert(j, x);
        proof {
            assert(views(out@) =~= before.take(j as int) + seq![x@] + before.skip(j as int));
        }
        i = i + 1;
    }
    proof {
        assert(vi.take(vi.len() as int) =~= vi);
    }
    out
}

fn push_options_text(out: &mut String, o: &Options)
    ensures
        final(out)@ == old(out)@ + options_text(o@),
{
    let ghost start = out@;
    if !o.is_empty() {
        push_str(out, " [");
        let ps = o.pairs();
        let mut kvs: Vec<Vec<char>> = Vec::new();
        let mut i: usize = 0;
        while i < ps.len()
            invariant
                i <= ps@.len(),
                pairs_view(ps@) == o@,
                views(kvs@) == kv_strings(o@).take(i as int),
            decreases ps.len() - i,
        {
            let mut kv = String::new();
            push_str(&mut kv, ps[i].0.as_str());
            push_str(&mut kv, "=");
            push_str(&mut kv, ps[i].1.as_str());
            let kc = chars_of(kv.as_str());
            let ghost before = views(kvs@);
            kvs.push(kc);
            proof {
                assert(views(kvs@) =~= before.push(kc@));
                assert(kc@ =~= kv_strings(o@)[i as int]);
                assert(views(kvs@) =~= kv_strings(o@).take(i + 1));
            }
            i = i + 1;
        }
        proof {
            assert(kv_strings(o@).take(ps@.len() as int) =~= kv_strings(o@));
        }
        let sorted = sort_vecs(&kvs);
        push_joined(out, &sorted, " ");
        push_str(out, "]");
        proof {
            assert(out@ =~= start + options_text(o@));
        }
    } else {
        assert(out@ =~= start + options_text(o@));
    }
}

fn push_entry_line(out: &mut String, e: &SourceEntry)
    ensures
        final(out)@ == old(out)@ + line_text(e@),
{
    let ghost start = out@;
    if !e.enabled {
        push_str(out, "# ");
    }
    push_str(out, e.source_type.as_str());
    let ghost after_type = out@;
    push_options_text(out, &e.options);
    let ghost after_opts = out@;
    push_str(out, " ");
    push_str(out, e.uri.as_str());
    push_str(out, " ");
    push_str(out, e.suite.as_str());
    let ghost before_comps = out@;
    let mut k: usize = 0;
    while k < e.components.len()
        invariant
            k <= e.components@.len(),
            out@ == before_comps + comps_text(sviews(e.components@).take(k as int)),
        decreases e.components.len() - k,
    {
        push_str(out, " ");
        push_str(out, e.components[k].as_str());
        proof {
            assert(sviews(e.components@).take(k + 1).drop_last() =~= sviews(e.components@).take(
                k as int,
            ));
        }
        k = k + 1;
    }
    proof {
        assert(sviews(e.components@).take(e.components@.len() as int) =~= sviews(e.components@));
    }
    push_str(out, "\n");
    proof {
        assert(out@ =~= start + line_text(e@));
    }
}

/// A group of entries written as one deb822 stanza: the shared identity and
/// the types, in order of appearance.
pub struct Group {
    pub uri: Seq<char>,
    pub suite: Seq<char>,
    pub comps: Seq<char>,
    pub options: Pairs,
    pub enabled: bool,
    pub types: Seq<SourceType>,
}

pub open spec fn in_group(g: Group, e: EntryView) -> bool {
    &&& g.uri == e.uri
    &&& g.suite == e.suite
    &&& g.comps == join(e.components, " "@)
    &&& same_options(g.options, e.options)
    &&& g.enabled == e.enabled
}

/// Index of the first group `e` belongs to, or the number of groups.
pub open spec fn group_index(gs: Seq<Group>, e: EntryView) -> nat
    decreases gs.len(),
{
    if gs.len() == 0 {
        0
    } else if in_group(gs[0], e) {
        0
    } else {
        1 + group_index(gs.drop_first(), e)
    }
}

/// Entries grouped by URI, suite, components, options and state.
pub open spec fn grouped(es: Seq<EntryView>) -> Seq<Group>
    decreases es.len(),
{
    if es.len() == 0 {
        Seq::empty()
    } else {
        let gs = grouped(es.drop_last());
        let e = es.last();
        let i = group_index(gs, e) as int;
        if i < gs.len() {
            gs.update(
                i,
                Group {
                    uri: gs[i].uri,
                    suite: gs[i].suite,
                    comps: gs[i].comps,
                    options: gs[i].options,
                    enabled: gs[i].enabled,
                    types: gs[i].types.push(e.source_type),
                },
            )
        } else {
            gs.push(
                Group {
                    uri: e.uri,
                    suite: e.suite,
                    comps: join(e.components, " "@),
                    options: e.options,
                    enabled: e.enabled,
                    types: seq![e.source_type],
                },
            )
        }
    }
}

pub open spec fn type_texts(ts: Seq<SourceType>) -> Seq<Seq<char>> {
    Seq::new(ts.len(), |i: int| type_text(ts[i]))
}

/// The lines of a group up to `Enabled:`.
pub open spec fn group_head(g: Group) -> Seq<char> {
    "Types: "@ + join(type_texts(g.types), " "@) + "\n"@ + "URIs: "@ + g.uri + "\n"@ + "Suites: "@
        + g.suite + "\n"@ + "Components: "@ + g.comps + "\n"@ + "Enabled: "@ + (if g.enabled {
        "yes"@
    } else {
        "no"@
    }) + "\n"@
}

/// The `Signed-By:` and `Architectures:` lines of a group, when it has them.
pub open spec fn group_opts(o: Pairs) -> Seq<char> {
    (match map_get(o, "signed-by"@) {
        Some(v) => "Signed-By: "@ + v + "\n"@,
        None => Seq::empty(),
    }) + (match map_get(o, "arch"@) {
        Some(v) => "Architectures: "@ + v + "\n"@,
        None => Seq::empty(),
    })
}

/// One group as a deb822 stanza, followed by a blank line.
pub open spec fn group_text(g: Group) -> Seq<char> {
    group_head(g) + group_opts(g.options) + "\n"@
}

pub open spec fn deb822_text(gs: Seq<Group>) -> Seq<char>
    decreases gs.len(),
{
    if gs.len() == 0 {
        Seq::empty()
    } else {
        deb822_text(gs.drop_last()) + group_text(gs.last())
    }
}

struct GroupX {
    uri: String,
    suite: String,
    comps: Vec<char>,
    options: Options,
    enabled: bool,
    types: Vec<SourceType>,
}

impl View for GroupX {
    type V = Group;

    closed spec fn view(&self) -> Group {
        Group {
            uri: self.uri@,
            suite: self.suite@,
            comps: self.comps@,
            options: self.options@,
            enabled: self.enabled,
            types: self.types@,
        }
    }
}

spec fn group_views(v: Seq<GroupX>) -> Seq<Group> {
    Seq::new(v.len(), |i: int| v[i]@)
}

fn joined_components(e: &SourceEntry) -> (r: Vec<char>)
    ensures
        r@ == join(e@.components, " "@),
{
    let comps = strings_to_vecs(&e.components);
    let mut s = String::new();
    push_joined(&mut s, &comps, " ");
    chars_of(s.as_str())
}

fn strings_to_vecs(v: &Vec<String>) -> (r: Vec<Vec<char>>)
    ensures
        views(r@) == sviews(v@),
{
    let mut out: Vec<Vec<char>> = Vec::new();
    let mut i: usize = 0;
    while i < v.len()
        invariant
            i <= v@.len(),
            views(out@) == sviews(v@).take(i as int),
        decreases v.len() - i,
    {
        let c = chars_of(v[i].as_str());
        let ghost before = views(out@);
        out.push(c);
        assert(views(out@) =~= before.push(c@));
        assert(views(out@) =~= sviews(v@).take(i + 1));
        i = i + 1;
    }
    assert(sviews(v@).take(v@.len() as int) =~= sviews(v@));
    out
}

fn find_group(gs: &Vec<GroupX>, e: &SourceEntry, comps: &Vec<char>) -> (r: usize)
    requires
        comps@ == join(e@.components, " "@),
    ensures
        r == group_index(group_views(gs@), e@),
{
    let ghost g = group_views(gs@);
    let mut i: usize = 0;
    proof {
        assert(g.skip(0) =~= g);
    }
    while i < gs.len()
        invariant
            i <= gs@.len(),
            g == group_views(gs@),
            comps@ == join(e@.components, " "@),
            group_index(g, e@) == i + group_index(g.skip(i as int), e@),
        decreases gs.len() - i,
    {
        let x = &gs[i];
        let hit = str_eq(x.uri.as_str(), e.uri.as_str()) && str_eq(x.suite.as_str(), e.suite.as_str())
            && chars_eq(&x.comps, comps) && x.options.same_as(&e.options) && x.enabled == e.enabled;
        proof {
            assert(g.skip(i as int)[0] == x@);
            assert(g.skip(i as int).drop_first() =~= g.skip(i + 1));
        }
        if hit {
            return i;
        }
        i = i + 1;
    }
    proof {
        assert(g.skip(i as int) =~= Seq::<Group>::empty());
    }
    i
}

fn push_group_head(out: &mut String, g: &GroupX)
    ensures
        final(out)@ == old(out)@ + group_head(g@),
{
    let ghost start = out@;
    push_str(out, "Types: ");
    let mut names: Vec<Vec<char>> = Vec::new();
    let mut i: usize = 0;
    while i < g.types.len()
        invariant
            i <= g.types@.len(),
            views(names@) == type_texts(g.types@).take(i as int),
        decreases g.types.len() - i,
    {
        let c = chars_of(g.types[i].as_str());
        let ghost before = views(names@);
        names.push(c);
        assert(views(names@) =~= before.push(c@));
        assert(views(names@) =~= type_texts(g.types@).take(i + 1));
        i = i + 1;
    }
    assert(type_texts(g.types@).take(g.types@.len() as int) =~= type_texts(g.types@));
    push_joined(out, &names, " ");
    push_str(out, "\n");
    push_str(out, "URIs: ");
    push_str(out, g.uri.as_str());
    push_str(out, "\n");
    push_str(out, "Suites: ");
    push_str(out, g.suite.as_str());
    push_str(out, "\n");
    push_str(out, "Components: ");
    push_chars(out, &g.comps);
    push_str(out, "\n");
    push_str(out, "Enabled: ");
    if g.enabled {
        push_str(out, "yes");
    } else {
        push_str(out, "no");
    }
    push_str(out, "\n");
    proof {
        assert(out@ =~= start + group_head(g@));
    }
}

fn push_group_opts(out: &mut String, o: &Options)
    ensures
        final(out)@ == old(out)@ + group_opts(o@),
{
    let ghost start = out@;
    match o.get("signed-by") {
        Some(v) => {
            push_str(out, "Signed-By: ");
            push_str(out, v.as_str());
            push_str(out, "\n");
        },
        None => {},
    }
    let ghost mid = out@;
    match o.get("arch") {
        Some(v) => {
            push_str(out, "Architectures: ");
            push_str(out, v.as_str());
            push_str(out, "\n");
        },
        None => {},
    }
    proof {
        assert(out@ =~= start + group_opts(o@));
    }
}

fn push_group(out: &mut String, g: &GroupX)
    ensures
        final(out)@ == old(out)@ + group_text(g@),
{
    let ghost start = out@;
    push_group_head(out, g);
    push_group_opts(out, &g.options);
    push_str(out, "\n");
    proof {
        assert(out@ =~= start + group_text(g@));
    }
}

/// The entries of `l` that pass `keep`.
pub open spec fn kept(es: Seq<EntryView>, binary: Option<bool>) -> Seq<EntryView>
    decreases es.len(),
{
    if es.len() == 0 {
        Seq::empty()
    } else {
        let r = kept(es.drop_last(), binary);
        let e = es.last();
        let ok = match binary {
            None => e.enabled,
            Some(b) => e.enabled && (e.source_type == SourceType::Binary) == b,
        };
        if ok {
            r.push(e)
        } else {
            r
        }
    }
}

pub open spec fn ref_views(v: Seq<&SourceEntry>) -> Seq<EntryView> {
    Seq::new(v.len(), |i: int| v[i]@)
}

impl SourcesList {
    fn filtered(&self, binary: Option<bool>) -> (r: Vec<&SourceEntry>)
        ensures
            ref_views(r@) == kept(entry_views(self.entries@), binary),
    {
        let ghost ev = entry_views(self.entries@);
        let mut out: Vec<&SourceEntry> = Vec::new();
        let mut i: usize = 0;
        proof {
            assert(ev.take(0) =~= Seq::<EntryView>::empty());
            assert(ref_views(out@) =~= Seq::<EntryView>::empty());
        }
        while i < self.entries.len()
            invariant
                i <= self.entries@.len(),
                ev == entry_views(self.entries@),
                ref_views(out@) == kept(ev.take(i as int), binary),
            decreases self.entries.len() - i,
        {
            let e = &self.entries[i];
            proof {
                assert(ev.take(i + 1).drop_last() =~= ev.take(i as int));
                assert(ev.take(i + 1).last() == e@);
            }
            let ok = match binary {
                None => e.enabled,
                Some(b) => e.enabled && (e.source_type == SourceType::Binary) == b,
            };
            if ok {
                let ghost before = ref_views(out@);
                out.push(e);
                assert(ref_views(out@) =~= before.push(e@));
            }
            i = i + 1;
        }
        proof {
            assert(ev.take(ev.len() as int) =~= ev);
        }
        out
    }

    /// All entries in file order.
    pub fn entries(&self) -> (r: Vec<&SourceEntry>)
        ensures
            ref_views(r@) == entry_views(self.entries@),
    {
        let mut out: Vec<&SourceEntry> = Vec::new();
        let mut i: usize = 0;
        while i < self.entries.len()
            invariant
                i <= self.entries@.len(),
                ref_views(out@) == entry_views(self.entries@).take(i as int),
            decreases self.entries.len() - i,
        {
            let ghost before = ref_views(out@);
            out.push(&self.entries[i]);
            assert(ref_views(out@) =~= before.push(self.entries@[i as int]@));
            assert(ref_views(out@) =~= entry_views(self.entries@).take(i + 1));
            i = i + 1;
        }
        assert(entry_views(self.entries@).take(self.entries@.len() as int) =~= entry_views(
            self.entries@,
        ));
        out
    }

    /// The enabled entries, in order.
    pub fn active_entries(&self) -> (r: Vec<&SourceEntry>)
        ensures
            ref_views(r@) == kept(entry_views(self.entries@), None),
    {
        self.filtered(None)
    }

    /// The enabled `deb` entries, in order.
    pub fn binary_entries(&self) -> (r: Vec<&SourceEntry>)
        ensures
            ref_views(r@) == kept(entry_views(self.entries@), Some(true)),
    {
        self.filtered(Some(true))
    }

    /// The enabled `deb-src` entries, in order.
    pub fn source_entries(&self) -> (r: Vec<&SourceEntry>)
        ensures
            ref_views(r@) == kept(entry_views(self.entries@), Some(false)),
    {
        self.filtered(Some(false))
    }

    /// All entries in the one-line format, disabled ones commented out with
    /// `# `; options are written sorted.
    pub fn write_one_line(&self) -> (r: String)
        ensures
            r@ == one_line_text(entry_views(self.entries@)),
    {
        let ghost ev = entry_views(self.entries@);
        let mut out = String::new();
        let mut i: usize = 0;
        proof {
            assert(ev.take(0) =~= Seq::<EntryView>::empty());
        }
        while i < self.entries.len()
            invariant
                i <= self.entries@.len(),
                ev == entry_views(self.entries@),
                out@ == one_line_text(ev.take(i as int)),
            decreases self.entries.len() - i,
        {
            push_entry_line(&mut out, &self.entries[i]);
            proof {
                assert(ev.take(i + 1).drop_last() =~= ev.take(i as int));
            }
            i = i + 1;
        }
        proof {
            assert(ev.take(ev.len() as int) =~= ev);
        }
        out
    }

    /// All entries in the deb822 format: entries sharing URI, suite,
    /// components, options and state become one stanza listing their types.
    pub fn write_deb822(&self) -> (r: String)
        ensures
            r@ == deb822_text(grouped(entry_views(self.entries@))),
    {
        let ghost ev = entry_views(self.entries@);
        let mut groups: Vec<GroupX> = Vec::new();
        let mut i: usize = 0;
        proof {
            assert(ev.take(0) =~= Seq::<EntryView>::empty());
            assert(group_views(groups@) =~= Seq::<Group>::empty());
        }
        while i < self.entries.len()
            invariant
                i <= self.entries@.len(),
                ev == entry_views(self.entries@),
                group_views(groups@) == grouped(ev.take(i as int)),
            decreases self.entries.len() - i,
        {
            let e = &self.entries[i];
            proof {
                assert(ev.take(i + 1).drop_last() =~= ev.take(i as int));
                assert(ev.take(i + 1).last() == e@);
            }
            let comps = joined_components(e);
            let j = find_group(&groups, e, &comps);
            let ghost gv = group_views(groups@);
            if j < groups.len() {
                let mut g = groups.remove(j);
                let ghost g0 = g@;
                g.types.push(e.source_type);
                groups.insert(j, g);
                proof {
                    assert(group_views(groups@) =~= gv.update(
                        j as int,
                        Group {
                            uri: g0.uri,
                            suite: g0.suite,
                            comps: g0.comps,
                            options: g0.options,
                            enabled: g0.enabled,
                            types: g0.types.push(e.source_type),
                        },
                    ));
                }
            } else {
                let mut types: Vec<SourceType> = Vec::new();
                types.push(e.source_type);
                let g = GroupX {
                    uri: e.uri.clone(),
                    suite: e.suite.clone(),
                    comps,
                    options: e.options.copy(),
                    enabled: e.enabled,
                    types,
                };
                groups.push(g);
                proof {
                    assert(types@ =~= seq![e.source_type]);
                    assert(group_views(groups@) =~= gv.push(g@));
                }
            }
            i = i + 1;
        }
        proof {
            assert(ev.take(ev.len() as int) =~= ev);
        }
        let ghost gs = group_views(groups@);
        let mut out = String::new();
        let mut k: usize = 0;
        proof {
            assert(gs.take(0) =~= Seq::<Group>::empty());
        }
        while k < groups.len()
            invariant
                k <= groups@.len(),
                gs == group_views(groups@),
                out@ == deb822_text(gs.take(k as int)),
            decreases groups.len() - k,
        {
            push_group(&mut out, &groups[k]);
            proof {
                assert(gs.take(k + 1).drop_last() =~= gs.take(k as int));
                assert(gs.take(k + 1).last() == groups@[k as int]@);
            }
            k = k + 1;
        }
        proof {
            assert(gs.take(gs.len() as int) =~= gs);
        }
        out
    }

    /// Validates every entry's URI; the first invalid one gives the error.
    pub fn validate(&self) -> (r: Result<(), SourcesError>)
        ensures
            match first_uri_problem(entry_views(self.entries@)) {
                None => r is Ok,
                Some(m) => r matches Err(SourcesError::Parse(x)) && x@ == m,
            },
    {
        let ghost ev = entry_views(self.entries@);
        let mut i: usize = 0;
        proof {
            assert(ev.take(0) =~= Seq::<EntryView>::empty());
        }
        while i < self.entries.len()
            invariant
                i <= self.entries@.len(),
                ev == entry_views(self.entries@),
                first_uri_problem(ev.take(i as int)) is None,
            decreases self.entries.len() - i,
        {
            proof {
                assert(ev.take(i + 1).drop_last() =~= ev.take(i as int));
            }
            match self.entries[i].validate_uri() {
                Ok(()) => {},
                Err(e) => {
                    proof {
                        lemma_first_problem(ev, i as int);
                    }
                    return Err(e);
                },
            }
            i = i + 1;
        }
        proof {
            assert(ev.take(ev.len() as int) =~= ev);
        }
        Ok(())
    }
}

/// The problem with the first invalid URI among `es`.
pub open spec fn first_uri_problem(es: Seq<EntryView>) -> Option<Seq<char>>
    decreases es.len(),
{
    if es.len() == 0 {
        None
    } else {
        match first_uri_problem(es.drop_last()) {
            Some(m) => Some(m),
            None => uri_problem(es.last().uri),
        }
    }
}

proof fn lemma_first_problem(es: Seq<EntryView>, i: int)
    requires
        0 <= i < es.len(),
        first_uri_problem(es.take(i)) is None,
        uri_problem(es[i].uri) is Some,
    ensures
        first_uri_problem(es) == uri_problem(es[i].uri),
    decreases es.len() - i,
{
    let mut k = i + 1;
    assert(es.take(i + 1).drop_last() =~= es.take(i));
    lemma_problem_sticks(es, i + 1);
    assert(es.take(es.len() as int) =~= es);
}

proof fn lemma_problem_sticks(es: Seq<EntryView>, k: int)
    requires
        0 <= k <= es.len(),
        first_uri_problem(es.take(k)) is Some,
    ensures
        first_uri_problem(es.take(es.len() as int)) == first_uri_problem(es.take(k)),
    decreases es.len() - k,
{
    if k < es.len() {
        assert(es.take(k + 1).drop_last() =~= es.take(k));
        lemma_problem_sticks(es, k + 1);
    }
}

} // verus!
