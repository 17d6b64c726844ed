//! Dotted category names: a full name such as `tyria.lion_arch.vista` is
//! made of chunks joined by a separator, and the name of each ancestor is a
//! prefix of it.

use vstd::prelude::*;

verus! {

/// The positions at which `pat` occurs in `s`, in increasing order.
pub open spec fn char_positions(s: Seq<char>, pat: char) -> Seq<int>
    decreases s.len(),
{
    if s.len() == 0 {
        Seq::empty()
    } else {
        let p = char_positions(s.drop_last(), pat);
        if s.last() == pat {
            p.push(s.len() - 1)
        } else {
            p
        }
    }
}

/// Chunk `n` of `s` split at each `pat`: the text between occurrence `n - 1`
/// (or the start) and occurrence `n` (or the end).
pub open spec fn chunk(s: Seq<char>, pat: char, n: int) -> Seq<char> {
    let p = char_positions(s, pat);
    let start = if n == 0 { 0 } else { p[n - 1] + 1 };
    let end = if n < p.len() { p[n] } else { s.len() as int };
    s.subrange(start, end)
}

/// The text before occurrence `n` of `pat`, if `pat` occurs more than `n` times.
pub open spec fn prefix_before(s: Seq<char>, pat: char, n: int) -> Option<Seq<char>> {
    let p = char_positions(s, pat);
    if 0 <= n < p.len() {
        Some(s.subrange(0, p[n]))
    } else {
        None
    }
}

/// What the positions of a prefix are.
pub proof fn lemma_char_positions_facts(s: Seq<char>, pat: char)
    ensures
        forall|i: int| 0 <= i < char_positions(s, pat).len()
            ==> 0 <= #[trigger] char_positions(s, pat)[i] < s.len() && s[char_positions(s, pat)[i]] == pat,
        forall|i: int, j: int| 0 <= i < j < char_positions(s, pat).len()
            ==> char_positions(s, pat)[i] < char_positions(s, pat)[j],
        forall|k: int| 0 <= k < s.len() && s[k] == pat
            ==> char_positions(s, pat).contains(k),
    decreases s.len(),
{
    if s.len() > 0 {
        let t = s.drop_last();
        lemma_char_positions_facts(t, pat);
        let p = char_positions(s, pat);
        let q = char_positions(t, pat);
        assert forall|i: int| 0 <= i < p.len() implies 0 <= #[trigger] p[i] < s.len() && s[p[i]] == pat by {
            if i < q.len() {
                assert(p[i] == q[i]);
                assert(t[q[i]] == s[q[i]]);
            }
        }
        assert forall|k: int| 0 <= k < s.len() && s[k] == pat implies p.contains(k) by {
            if k < s.len() - 1 {
                assert(t[k] == s[k]);
                assert(q.contains(k));
                let i = choose|i: int| 0 <= i < q.len() && q[i] == k;
                assert(p[i] == k);
            } else {
                assert(p[p.len() - 1] == k);
            }
        }
    }
}

/// The positions at which `pat` occurs in `s`.
fn positions_of(s: &str, pat: char) -> (r: Vec<usize>)
    ensures
        r.len() == char_positions(s@, pat).len(),
        forall|i: int| 0 <= i < r.len() ==> #[trigger] r[i] as int == char_positions(s@, pat)[i],
{
    let mut r: Vec<usize> = Vec::new();
    let n = s.unicode_len();
    let mut i: usize = 0;
    while i < n
        invariant
            n == s@.len(),
            0 <= i <= n,
            r.len() == char_positions(s@.take(i as int), pat).len(),
            forall|k: int| 0 <= k < r.len() ==> #[trigger] r[k] as int == char_positions(s@.take(i as int), pat)[k],
        decreases n - i,
    {
        let ch = s.get_char(i);
        proof {
            assert(s@.take(i + 1).drop_last() =~= s@.take(i as int));
            assert(s@.take(i + 1).last() == ch);
        }
        if ch == pat {
            r.push(i);
        }
        i = i + 1;
    }
    proof {
        assert(s@.take(n as int) =~= s@);
    }
    r
}

/// Chunk `n` of `s` split at each `pat`. There must be at least `n`
/// occurrences of `pat`.
pub fn nth_chunk(s: &str, pat: char, n: usize) -> (r: String)
    requires
        n <= char_positions(s@, pat).len(),
    ensures
        r@ == chunk(s@, pat, n as int),
{
    let p = positions_of(s, pat);
    proof {
        lemma_char_positions_facts(s@, pat);
    }
    let len = s.unicode_len();
    let start: usize = if n == 0 { 0 } else { p[n - 1] + 1 };
    let end: usize = if n < p.len() { p[n] } else { len };
    proof {
        if n > 0 && n < p.len() {
            assert(p[n - 1] < p[n as int]);
        }
    }
    s.substring_char(start, end).to_owned()
}

/// The text before occurrence `n` of `pat` in `s`, or `None` when `pat`
/// occurs `n` times or fewer.
pub fn prefix_until_nth_char(s: &str, pat: char, n: usize) -> (r: Option<String>)
    ensures
        r matches Some(t) ==> prefix_before(s@, pat, n as int) == Some(t@),
        r is None <==> prefix_before(s@, pat, n as int) is None,
{
    let p = positions_of(s, pat);
    proof {
        lemma_char_positions_facts(s@, pat);
    }
    if n < p.len() {
        Some(s.substring_char(0, p[n]).to_owned())
    } else {
        None
    }
}

/// The text before the last occurrence of `pat`: the parent of a dotted
/// name. `pat` must occur in `s`.
pub fn prefix_parent(s: &str, pat: char) -> (r: Option<String>)
    requires
        char_positions(s@, pat).len() > 0,
    ensures
        r matches Some(t) && prefix_before(s@, pat, char_positions(s@, pat).len() - 1) == Some(t@),
{
    let p = positions_of(s, pat);
    proof {
        lemma_char_positions_facts(s@, pat);
    }
    let last = p.len() - 1;
    Some(s.substring_char(0, p[last]).to_owned())
}

/// How many times `pat` occurs in `s`.
pub fn count_matches(s: &str, pat: char) -> (r: usize)
    ensures
        r == char_positions(s@, pat).len(),
{
    positions_of(s, pat).len()
}

/// Law: no chunk holds the separator.
pub proof fn law_chunk_has_no_separator(s: Seq<char>, pat: char, n: int)
    requires
        0 <= n <= char_positions(s, pat).len(),
    ensures
        !chunk(s, pat, n).contains(pat),
{
    lemma_char_positions_facts(s, pat);
    let p = char_positions(s, pat);
    let c = chunk(s, pat, n);
    let start = if n == 0 { 0 } else { p[n - 1] + 1 };
    if c.contains(pat) {
        let k = choose|k: int| 0 <= k < c.len() && c[k] == pat;
        assert(s[start + k] == pat);
        assert(p.contains(start + k));
        let i = choose|i: int| 0 <= i < p.len() && p[i] == start + k;
        if n > 0 && i <= n - 1 {
            if i < n - 1 {
                assert(p[i] < p[n - 1]);
            }
        }
        if n < p.len() && i >= n {
            if i > n {
                assert(p[n] < p[i]);
            }
        }
    }
}

/// Law: the first ancestor name is the first chunk, and each later ancestor
/// name is the one before it, the separator and the next chunk.
pub proof fn law_prefix_extends(s: Seq<char>, pat: char, n: int)
    requires
        0 <= n < char_positions(s, pat).len(),
    ensures
        n == 0 ==> prefix_before(s, pat, n) == Some(chunk(s, pat, 0)),
        n > 0 ==> prefix_before(s, pat, n) == Some(
            prefix_before(s, pat, n - 1)->0 + seq![pat] + chunk(s, pat, n),
        ),
{
    lemma_char_positions_facts(s, pat);
    let p = char_positions(s, pat);
    if n > 0 {
        assert(p[n - 1] < p[n]);
        assert(s.subrange(0, p[n]) =~= s.subrange(0, p[n - 1]) + seq![pat] + s.subrange(p[n - 1] + 1, p[n]));
    } else {
        assert(s.subrange(0, p[0]) =~= chunk(s, pat, 0));
    }
}

/// Law: a name holding the separator is its parent, the separator and its
/// last chunk.
pub proof fn law_parent_and_last_chunk(s: Seq<char>, pat: char)
    requires
        char_positions(s, pat).len() > 0,
    ensures
        prefix_before(s, pat, char_positions(s, pat).len() - 1)->0 + seq![pat]
            + chunk(s, pat, char_positions(s, pat).len() as int) == s,
{
    lemma_char_positions_facts(s, pat);
    let p = char_positions(s, pat);
    let last = p[p.len() - 1];
    assert(s.subrange(0, last) + seq![pat] + s.subrange(last + 1, s.len() as int) =~= s);
}

/// The chunks of a name, from the first to the last.
pub open spec fn name_path(s: Seq<char>, pat: char) -> Seq<Seq<char>> {
    Seq::new((char_positions(s, pat).len() + 1) as nat, |n: int| chunk(s, pat, n))
}

/// The positions in a prefix of `s` are the first positions of `s`, and
/// the next position of `s`, if any, lies at or after the prefix's end.
proof fn lemma_positions_of_prefix(s: Seq<char>, pat: char, e: int)
    requires
        0 <= e <= s.len(),
    ensures
        char_positions(s.subrange(0, e), pat).len() <= char_positions(s, pat).len(),
        char_positions(s.subrange(0, e), pat) == char_positions(s, pat).take(char_positions(s.subrange(0, e), pat).len() as int),
        char_positions(s.subrange(0, e), pat).len() < char_positions(s, pat).len()
            ==> char_positions(s, pat)[char_positions(s.subrange(0, e), pat).len() as int] >= e,
    decreases s.len() - e,
{
    let p = char_positions(s, pat);
    if e == s.len() {
        assert(s.subrange(0, e) =~= s);
        assert(p.take(p.len() as int) =~= p);
    } else {
        lemma_positions_of_prefix(s, pat, e + 1);
        let t1 = s.subrange(0, e + 1);
        let t = s.subrange(0, e);
        assert(t1.drop_last() =~= t);
        assert(t1.last() == s[e]);
        let q1 = char_positions(t1, pat);
        let q = char_positions(t, pat);
        if s[e] == pat {
            assert(q1 == q.push(e));
            assert(q =~= p.take(q.len() as int));
            assert(p[q.len() as int] == q1[q.len() as int]);
        } else {
            assert(q1 == q);
            lemma_char_positions_facts(s, pat);
        }
    }
}

/// The name of an ancestor has as many separators as its place says, and
/// shares its chunks with the name.
pub proof fn lemma_prefix_chunks(s: Seq<char>, pat: char, m: int)
    requires
        0 <= m < char_positions(s, pat).len(),
    ensures
        char_positions(prefix_before(s, pat, m)->0, pat).len() == m,
        forall|n: int| 0 <= n <= m ==> #[trigger] chunk(prefix_before(s, pat, m)->0, pat, n) == chunk(s, pat, n),
        name_path(prefix_before(s, pat, m)->0, pat) == name_path(s, pat).take(m + 1),
{
    let p = char_positions(s, pat);
    lemma_char_positions_facts(s, pat);
    let e = p[m];
    let t = s.subrange(0, e);
    lemma_positions_of_prefix(s, pat, e);
    lemma_char_positions_facts(t, pat);
    let q = char_positions(t, pat);
    if q.len() > m {
        assert(q[m] == p[m]);
        assert(q[m] < t.len());
    }
    if q.len() < m {
        assert(p[q.len() as int] < p[m]);
    }
    assert(q.len() == m);
    assert forall|n: int| 0 <= n <= m implies #[trigger] chunk(t, pat, n) == chunk(s, pat, n) by {
        if n > 0 {
            assert(q[n - 1] == p[n - 1]);
        }
        if n < m {
            assert(q[n] == p[n]);
        }
        let start = if n == 0 { 0 } else { p[n - 1] + 1 };
        let end = p[n];
        if n > 0 {
            assert(p[n - 1] < p[n]) ;
        }
        assert(t.subrange(start, end) =~= s.subrange(start, end));
    }
    assert(name_path(t, pat) =~= name_path(s, pat).take(m + 1));
}

/// A name without separator is its only chunk.
pub proof fn lemma_single_chunk(s: Seq<char>, pat: char)
    requires
        char_positions(s, pat).len() == 0,
    ensures
        chunk(s, pat, 0) == s,
{
    assert(s.subrange(0, s.len() as int) =~= s);
}

} // verus!
