//! Relative paths inside marker packs.
//!
//! A relative path does not start with `/`, may be empty (the pack's root),
//! keeps `.` and `..` as they are, is lowercase, and uses `/` as separator.
//! It need not name a valid file.

use vstd::prelude::*;
use crate::category_name::{char_positions, lemma_char_positions_facts};

verus! {

/// What `str::to_lowercase` gives for a text: the Unicode lowercase mapping
/// of each character, with the final-sigma rule.
pub uninterp spec fn lowercase(s: Seq<char>) -> Seq<char>;

/// `str::to_lowercase`.
#[verifier::external_body]
fn to_lowercase(s: &str) -> (r: String)
    ensures
        r@ == lowercase(s@),
{
    s.to_lowercase()
}

/// `String::from_iter` over characters: the text of those characters.
#[verifier::external_body]
fn string_of_chars(chars: Vec<char>) -> (r: String)
    ensures
        r@ == chars@,
{
    String::from_iter(chars)
}

/// The text with each `\` turned into `/`.
pub open spec fn forward_slashes(s: Seq<char>) -> Seq<char> {
    s.map_values(|c: char| if c == '\\' { '/' } else { c })
}

/// The text without its leading `/` characters.
pub open spec fn trim_leading_slashes(s: Seq<char>) -> Seq<char>
    decreases s.len(),
{
    if s.len() > 0 && s[0] == '/' {
        trim_leading_slashes(s.drop_first())
    } else {
        s
    }
}

/// The text without its trailing `/` characters.
pub open spec fn trim_trailing_slashes(s: Seq<char>) -> Seq<char>
    decreases s.len(),
{
    if s.len() > 0 && s.last() == '/' {
        trim_trailing_slashes(s.drop_last())
    } else {
        s
    }
}

/// The relative path a text stands for: separators turned into `/`, no
/// leading `/`, lowercase.
pub open spec fn normalized_path(s: Seq<char>) -> Seq<char> {
    lowercase(trim_leading_slashes(forward_slashes(s)))
}

/// A path with a text adjoined: nothing when the text normalizes to the
/// empty path, the normalized text alone on an empty path, else after one
/// `/`.
pub open spec fn joined_path(base: Seq<char>, text: Seq<char>) -> Seq<char> {
    let n = normalized_path(text);
    if n.len() == 0 {
        base
    } else if base.len() == 0 {
        n
    } else if base.last() == '/' {
        base + n
    } else {
        base + seq!['/'] + n
    }
}

/// The directory holding a path: up to and with the last `/` once trailing
/// `/` are dropped; none for a path without one.
pub open spec fn parent_path(s: Seq<char>) -> Option<Seq<char>> {
    let t = trim_trailing_slashes(s);
    let p = char_positions(t, '/');
    if t.len() == 0 || p.len() == 0 {
        None
    } else {
        Some(t.subrange(0, p.last() + 1))
    }
}

/// Whether `s` ends with `suffix`.
pub open spec fn has_suffix(s: Seq<char>, suffix: Seq<char>) -> bool {
    &&& suffix.len() <= s.len()
    &&& s.subrange(s.len() - suffix.len(), s.len() as int) == suffix
}

proof fn lemma_trim_leading_from(s: Seq<char>, k: int)
    requires
        0 <= k <= s.len(),
        forall|j: int| 0 <= j < k ==> s[j] == '/',
        k == s.len() || s[k] != '/',
    ensures
        trim_leading_slashes(s) == s.subrange(k, s.len() as int),
    decreases k,
{
    if k == 0 {
        assert(s.subrange(0, s.len() as int) =~= s);
    } else {
        let t = s.drop_first();
        lemma_trim_leading_from(t, k - 1);
        assert(t.subrange(k - 1, t.len() as int) =~= s.subrange(k, s.len() as int));
    }
}

proof fn lemma_trim_trailing_to(s: Seq<char>, k: int)
    requires
        0 <= k <= s.len(),
        forall|j: int| k <= j < s.len() ==> s[j] == '/',
        k == 0 || s[k - 1] != '/',
    ensures
        trim_trailing_slashes(s) == s.subrange(0, k),
    decreases s.len() - k,
{
    if k == s.len() {
        assert(s.subrange(0, k) =~= s);
    } else {
        let t = s.drop_last();
        lemma_trim_trailing_to(t, k);
        assert(t.subrange(0, k) =~= s.subrange(0, k));
    }
}

/// A relative path of a marker pack.
#[derive(Clone, Debug, Hash)]
pub struct RelativePath(String);

impl View for RelativePath {
    type V = Seq<char>;

    closed spec fn view(&self) -> Seq<char> {
        self.0@
    }
}

impl PartialEq for RelativePath {
    fn eq(&self, other: &Self) -> (r: bool) {
        self.0 == other.0
    }
}

impl vstd::std_specs::cmp::PartialEqSpecImpl for RelativePath {
    open spec fn obeys_eq_spec() -> bool {
        true
    }

    open spec fn eq_spec(&self, other: &Self) -> bool {
        self@ == other@
    }
}

impl Eq for RelativePath {}

impl Default for RelativePath {
    /// The empty path: the pack's root.
    fn default() -> (r: Self)
        ensures
            r@ == Seq::<char>::empty(),
    {
        RelativePath(String::new())
    }
}

impl RelativePath {
    /// The text the path holds.
    pub closed spec fn text(self) -> String {
        self.0
    }

    /// The relative path a text stands for: `\` turned into `/`, leading
    /// `/` dropped, lowercase.
    pub fn normalize(path: &str) -> (r: String)
        ensures
            r@ == normalized_path(path@),
    {
        let n = path.unicode_len();
        let mut chars: Vec<char> = Vec::new();
        let mut i: usize = 0;
        while i < n
            invariant
                n == path@.len(),
                0 <= i <= n,
                chars@ == forward_slashes(path@).take(i as int),
            decreases n - i,
        {
            let c = path.get_char(i);
            let d = if c == '\\' { '/' } else { c };
            chars.push(d);
            proof {
                assert(chars@ =~= forward_slashes(path@).take(i + 1));
            }
            i = i + 1;
        }
        proof {
            assert(chars@ =~= forward_slashes(path@));
        }
        let mut k: usize = 0;
        while k < chars.len() && chars[k] == '/'
            invariant
                0 <= k <= chars.len(),
                forall|j: int| 0 <= j < k ==> chars@[j] == '/',
            decreases chars.len() - k,
        {
            k = k + 1;
        }
        proof {
            lemma_trim_leading_from(chars@, k as int);
        }
        let mut rest: Vec<char> = Vec::new();
        let mut j: usize = k;
        while j < chars.len()
            invariant
                k <= j <= chars.len(),
                rest@ == chars@.subrange(k as int, j as int),
            decreases chars.len() - j,
        {
            rest.push(chars[j]);
            proof {
                assert(rest@ =~= chars@.subrange(k as int, j + 1));
            }
            j = j + 1;
        }
        let trimmed = string_of_chars(rest);
        to_lowercase(trimmed.as_str())
    }

    /// The path of a text, normalized; an empty result is the root.
    pub fn parse_text(s: &str) -> (r: Self)
        ensures
            r@ == normalized_path(s@),
    {
        RelativePath(RelativePath::normalize(s))
    }

    /// This path with a text adjoined, the text normalized first.
    pub fn join_str(&self, path: &str) -> (r: Self)
        ensures
            r@ == joined_path(self@, path@),
    {
        let normalized = RelativePath::normalize(path);
        if normalized.unicode_len() == 0 {
            return RelativePath(self.0.clone());
        }
        let len = self.0.unicode_len();
        if len == 0 {
            return RelativePath(normalized);
        }
        let mut new = self.0.clone();
        if self.0.as_str().get_char(len - 1) != '/' {
            new.append("/");
            proof {
                reveal_strlit("/");
            }
        }
        new.append(normalized.as_str());
        RelativePath(new)
    }

    /// Whether the path ends with the given text.
    pub fn ends_with(&self, ext: &str) -> (r: bool)
        ensures
            r == has_suffix(self@, ext@),
    {
        let s = self.0.as_str();
        let n = s.unicode_len();
        let m = ext.unicode_len();
        if m > n {
            return false;
        }
        let off = n - m;
        let mut i: usize = 0;
        while i < m
            invariant
                n == self@.len(),
                m == ext@.len(),
                off == n - m,
                s@ == self@,
                0 <= i <= m,
                forall|j: int| 0 <= j < i ==> self@[off + j] == ext@[j],
            decreases m - i,
        {
            if s.get_char(off + i) != ext.get_char(i) {
                proof {
                    assert(self@.subrange(off as int, n as int)[i as int] != ext@[i as int]);
                }
                return false;
            }
            i = i + 1;
        }
        proof {
            assert(self@.subrange(off as int, n as int) =~= ext@);
        }
        true
    }

    /// Whether the path names a PNG image.
    pub fn is_png(&self) -> (r: bool)
        ensures
            r == has_suffix(self@, ".png"@),
    {
        self.ends_with(".png")
    }

    /// Whether the path names a trail file.
    pub fn is_tbin(&self) -> (r: bool)
        ensures
            r == has_suffix(self@, ".trl"@),
    {
        self.ends_with(".trl")
    }

    /// Whether the path names an XML file.
    pub fn is_xml(&self) -> (r: bool)
        ensures
            r == has_suffix(self@, ".xml"@),
    {
        self.ends_with(".xml")
    }

    /// Whether the path names a directory: it ends with `/`.
    pub fn is_dir(&self) -> (r: bool)
        ensures
            r == has_suffix(self@, "/"@),
    {
        self.ends_with("/")
    }

    /// The directory holding the path, with its trailing `/`.
    pub fn parent(&self) -> (r: Option<&str>)
        ensures
            r matches Some(p) ==> parent_path(self@) == Some(p@),
            r is None <==> parent_path(self@) is None,
    {
        let s = self.0.as_str();
        let n = s.unicode_len();
        let mut end: usize = n;
        while end > 0 && s.get_char(end - 1) == '/'
            invariant
                n == self@.len(),
                s@ == self@,
                0 <= end <= n,
                forall|j: int| end <= j < n ==> self@[j] == '/',
            decreases end,
        {
            end = end - 1;
        }
        proof {
            lemma_trim_trailing_to(self@, end as int);
        }
        if end == 0 {
            return None;
        }
        let ghost t = self@.subrange(0, end as int);
        let mut k: usize = end;
        while k > 0 && s.get_char(k - 1) != '/'
            invariant
                n == self@.len(),
                s@ == self@,
                0 <= k <= end <= n,
                t == self@.subrange(0, end as int),
                forall|j: int| k <= j < end ==> self@[j] != '/',
            decreases k,
        {
            k = k - 1;
        }
        proof {
            lemma_char_positions_facts(t, '/');
        }
        if k == 0 {
            proof {
                let p = char_positions(t, '/');
                if p.len() > 0 {
                    assert(t[p[0]] == '/');
                }
            }
            return None;
        }
        proof {
            let p = char_positions(t, '/');
            assert(t[k - 1] == '/');
            assert(p.contains(k - 1));
            let q = choose|q: int| 0 <= q < p.len() && p[q] == k - 1;
            if q < p.len() - 1 {
                assert(p[q] < p[p.len() - 1]);
                assert(t[p[p.len() - 1]] == '/');
            }
            assert(p.last() == k - 1);
            assert(t.subrange(0, k as int) =~= self@.subrange(0, k as int));
        }
        Some(s.substring_char(0, k))
    }

    /// The text of the path.
    pub fn as_str(&self) -> (r: &str)
        ensures
            r@ == self@,
    {
        self.0.as_str()
    }

    /// The text of the path, owned: what it displays as.
    pub fn to_string(&self) -> (r: String)
        ensures
            r@ == self@,
    {
        self.0.clone()
    }
}

impl From<RelativePath> for String {
    fn from(val: RelativePath) -> (r: String) {
        val.0
    }
}

impl vstd::std_specs::convert::FromSpecImpl<RelativePath> for String {
    open spec fn obeys_from_spec() -> bool {
        true
    }

    open spec fn from_spec(v: RelativePath) -> String {
        v.text()
    }
}

impl core::str::FromStr for RelativePath {
    type Err = &'static str;

    fn from_str(s: &str) -> (r: Result<RelativePath, &'static str>)
        ensures
            r matches Ok(p) && p@ == normalized_path(s@),
    {
        Ok(RelativePath::parse_text(s))
    }
}

/// Law: adjoining a text that normalizes to the empty path changes nothing.
pub proof fn law_join_empty_text(base: Seq<char>, text: Seq<char>)
    requires
        normalized_path(text).len() == 0,
    ensures
        joined_path(base, text) == base,
{
}

/// Law: the parent of a path with a plain name adjoined is the path, with
/// a trailing `/`.
pub proof fn law_parent_of_joined_name(base: Seq<char>, name: Seq<char>)
    requires
        base.len() > 0,
        normalized_path(name).len() > 0,
        !normalized_path(name).contains('/'),
    ensures
        parent_path(joined_path(base, name)) == Some(
            if base.last() == '/' { base } else { base + seq!['/'] },
        ),
{
    let n = normalized_path(name);
    let d = if base.last() == '/' { base } else { base + seq!['/'] };
    let j = joined_path(base, name);
    assert(j =~= d + n);
    assert(j.last() == n.last());
    assert(n.last() != '/') by {
        assert(n.contains(n[n.len() - 1]));
    }
    lemma_trim_trailing_to(j, j.len() as int);
    assert(trim_trailing_slashes(j) =~= j);
    lemma_char_positions_facts(j, '/');
    let p = char_positions(j, '/');
    let k = d.len() - 1;
    assert(d[k] == '/');
    assert(j[k] == '/');
    assert(p.contains(k));
    let q = choose|q: int| 0 <= q < p.len() && p[q] == k;
    if q < p.len() - 1 {
        let last = p[p.len() - 1];
        assert(p[q] < last);
        assert(j[last] == '/');
        assert(n[last - d.len()] == '/');
        assert(n.contains('/'));
    }
    assert(j.subrange(0, k + 1) =~= d);
}

/// Dropping trailing `/` keeps a prefix.
proof fn lemma_trim_trailing_prefix(s: Seq<char>)
    ensures
        trim_trailing_slashes(s).len() <= s.len(),
        trim_trailing_slashes(s) == s.subrange(0, trim_trailing_slashes(s).len() as int),
    decreases s.len(),
{
    if s.len() > 0 && s.last() == '/' {
        let t = s.drop_last();
        lemma_trim_trailing_prefix(t);
        assert(t.subrange(0, trim_trailing_slashes(t).len() as int)
            =~= s.subrange(0, trim_trailing_slashes(t).len() as int));
    } else {
        assert(s.subrange(0, s.len() as int) =~= s);
    }
}

/// Law: a parent names a directory: it ends with `/` and is a prefix of
/// the path.
pub proof fn law_parent_is_directory_prefix(s: Seq<char>)
    requires
        parent_path(s) is Some,
    ensures
        has_suffix(parent_path(s)->0, "/"@),
        s.subrange(0, parent_path(s)->0.len() as int) == parent_path(s)->0,
{
    reveal_strlit("/");
    let t = trim_trailing_slashes(s);
    let p = char_positions(t, '/');
    lemma_char_positions_facts(t, '/');
    lemma_trim_trailing_prefix(s);
    let r = parent_path(s)->0;
    assert(r.len() == p.last() + 1);
    assert(r[r.len() - 1] == '/');
    assert(r.subrange(r.len() - 1, r.len() as int) =~= "/"@);
    assert(s.subrange(0, r.len() as int) =~= r);
}

} // verus!
