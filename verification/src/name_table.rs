//! A table from full category names to UUIDs, where no name occurs twice.

use vstd::prelude::*;
use crate::text::same_text;

verus! {

/// Names with their UUIDs; each name at most once.
pub struct NameTable {
    entries: Vec<(String, u128)>,
}

/// The pairs as a map, later entries over earlier ones.
pub open spec fn pairs_map(s: Seq<(String, u128)>) -> Map<Seq<char>, u128>
    decreases s.len(),
{
    if s.len() == 0 {
        Map::empty()
    } else {
        pairs_map(s.drop_last()).insert(s.last().0@, s.last().1)
    }
}

/// No name occurs twice among the pairs.
pub open spec fn distinct_names(s: Seq<(String, u128)>) -> bool {
    forall|i: int, j: int| 0 <= i < j < s.len() ==> #[trigger] s[i].0@ != #[trigger] s[j].0@
}

/// The map of distinct pairs holds each pair and nothing else, one key per
/// pair.
proof fn lemma_pairs_map(s: Seq<(String, u128)>)
    requires
        distinct_names(s),
    ensures
        forall|k: Seq<char>| #[trigger] pairs_map(s).contains_key(k) <==> exists|i: int| 0 <= i < s.len() && s[i].0@ == k,
        forall|i: int| #![trigger s[i]] 0 <= i < s.len() ==> pairs_map(s)[s[i].0@] == s[i].1,
        pairs_map(s).dom().finite(),
        pairs_map(s).dom().len() == s.len(),
    decreases s.len(),
{
    if s.len() > 0 {
        let t = s.drop_last();
        assert(distinct_names(t)) by {
            assert forall|i: int, j: int| 0 <= i < j < t.len() implies #[trigger] t[i].0@ != #[trigger] t[j].0@ by {
                assert(t[i] == s[i]);
                assert(t[j] == s[j]);
            }
        }
        lemma_pairs_map(t);
        let last = s.last();
        assert(!pairs_map(t).contains_key(last.0@)) by {
            if pairs_map(t).contains_key(last.0@) {
                let i = choose|i: int| 0 <= i < t.len() && t[i].0@ == last.0@;
                assert(s[i].0@ != s[s.len() - 1].0@);
            }
        }
        assert forall|k: Seq<char>| #[trigger] pairs_map(s).contains_key(k) <==> exists|i: int| 0 <= i < s.len() && s[i].0@ == k by {
            if pairs_map(t).contains_key(k) {
                let i = choose|i: int| 0 <= i < t.len() && t[i].0@ == k;
                assert(s[i] == t[i]);
            }
            if exists|i: int| 0 <= i < s.len() && s[i].0@ == k {
                let i = choose|i: int| 0 <= i < s.len() && s[i].0@ == k;
                if i < s.len() - 1 {
                    assert(t[i] == s[i]);
                }
            }
        }
        assert forall|i: int| #![trigger s[i]] 0 <= i < s.len() implies pairs_map(s)[s[i].0@] == s[i].1 by {
            if i < s.len() - 1 {
                assert(t[i] == s[i]);
                assert(s[i].0@ != s[s.len() - 1].0@);
            }
        }
    }
}

impl NameTable {
    /// The names with their UUIDs.
    pub closed spec fn view_map(self) -> Map<Seq<char>, u128> {
        pairs_map(self.entries@)
    }

    /// No name occurs twice.
    pub closed spec fn wf(self) -> bool {
        distinct_names(self.entries@)
    }

    /// An empty table.
    pub fn new() -> (r: Self)
        ensures
            r.wf(),
            r.view_map() == Map::<Seq<char>, u128>::empty(),
    {
        NameTable { entries: Vec::new() }
    }

    /// The position of the name among the entries.
    fn position(&self, name: &str) -> (r: Option<usize>)
        requires
            self.wf(),
        ensures
            match r {
                Some(i) => i < self.entries@.len() && self.entries@[i as int].0@ == name@,
                None => !self.view_map().contains_key(name@),
            },
    {
        proof {
            lemma_pairs_map(self.entries@);
        }
        let mut i: usize = 0;
        while i < self.entries.len()
            invariant
                0 <= i <= self.entries@.len(),
                forall|j: int| 0 <= j < i ==> self.entries@[j].0@ != name@,
            decreases self.entries@.len() - i,
        {
            if same_text(self.entries[i].0.as_str(), name) {
                return Some(i);
            }
            i = i + 1;
        }
        None
    }

    /// Whether the name is in the table.
    pub fn contains_key(&self, name: &str) -> (r: bool)
        requires
            self.wf(),
        ensures
            r == self.view_map().contains_key(name@),
    {
        proof {
            lemma_pairs_map(self.entries@);
        }
        self.position(name).is_some()
    }

    /// The UUID of the name.
    pub fn get(&self, name: &str) -> (r: Option<&u128>)
        requires
            self.wf(),
        ensures
            match r {
                Some(id) => self.view_map().contains_key(name@) && self.view_map()[name@] == *id,
                None => !self.view_map().contains_key(name@),
            },
    {
        proof {
            lemma_pairs_map(self.entries@);
        }
        match self.position(name) {
            Some(i) => Some(&self.entries[i].1),
            None => None,
        }
    }

    /// Gives the name that UUID, replacing the one it had.
    pub fn insert(&mut self, name: String, id: u128)
        requires
            old(self).wf(),
        ensures
            final(self).wf(),
            final(self).view_map() == old(self).view_map().insert(name@, id),
    {
        proof {
            lemma_pairs_map(self.entries@);
        }
        let ghost start = self.entries@;
        match self.position(name.as_str()) {
            Some(i) => {
                self.entries.set(i, (name, id));
                proof {
                    let s = self.entries@;
                    assert(distinct_names(s)) by {
                        assert forall|a: int, b: int| 0 <= a < b < s.len() implies #[trigger] s[a].0@ != #[trigger] s[b].0@ by {
                            assert(start[a].0@ != start[b].0@);
                        }
                    }
                    lemma_pairs_map(s);
                    assert forall|k: Seq<char>| #[trigger] pairs_map(s).contains_key(k) <==> pairs_map(start).insert(name@, id).contains_key(k) by {
                        if exists|j: int| 0 <= j < start.len() && start[j].0@ == k {
                            let j = choose|j: int| 0 <= j < start.len() && start[j].0@ == k;
                            assert(s[j].0@ == k);
                        }
                        if exists|j: int| 0 <= j < s.len() && s[j].0@ == k {
                            let j = choose|j: int| 0 <= j < s.len() && s[j].0@ == k;
                            if j != i {
                                assert(start[j].0@ == k);
                            }
                        }
                    }
                    assert forall|k: Seq<char>| #[trigger] pairs_map(s).contains_key(k) implies pairs_map(s)[k] == pairs_map(start).insert(name@, id)[k] by {
                        let j = choose|j: int| 0 <= j < s.len() && s[j].0@ == k;
                        assert(pairs_map(s)[s[j].0@] == s[j].1);
                        if j != i {
                            assert(start[j] == s[j]);
                            assert(pairs_map(start)[start[j].0@] == start[j].1);
                        }
                    }
                    assert(pairs_map(s) =~= pairs_map(start).insert(name@, id));
                }
            },
            None => {
                self.entries.push((name, id));
                proof {
                    let s = self.entries@;
                    assert(s.drop_last() =~= start);
                    assert(distinct_names(s)) by {
                        assert forall|a: int, b: int| 0 <= a < b < s.len() implies #[trigger] s[a].0@ != #[trigger] s[b].0@ by {
                            if b == s.len() - 1 {
                                assert(start[a] == s[a]);
                            } else {
                                assert(start[a].0@ != start[b].0@);
                            }
                        }
                    }
                }
            },
        }
    }

    /// How many names the table holds.
    pub fn len(&self) -> (r: usize)
        requires
            self.wf(),
        ensures
            r == self.view_map().dom().len(),
    {
        proof {
            lemma_pairs_map(self.entries@);
        }
        self.entries.len()
    }

    /// A table with the same names and UUIDs.
    pub fn duplicate(&self) -> (r: Self)
        requires
            self.wf(),
        ensures
            r.wf(),
            r.view_map() == self.view_map(),
    {
        let mut entries: Vec<(String, u128)> = Vec::new();
        let mut i: usize = 0;
        while i < self.entries.len()
            invariant
                0 <= i <= self.entries@.len(),
                entries@.len() == i,
                forall|j: int| #![trigger entries@[j]] 0 <= j < i ==> entries@[j].0@ == self.entries@[j].0@ && entries@[j].1 == self.entries@[j].1,
            decreases self.entries@.len() - i,
        {
            entries.push((self.entries[i].0.clone(), self.entries[i].1));
            i = i + 1;
        }
        let r = NameTable { entries };
        proof {
            lemma_same_pairs(r.entries@, self.entries@);
        }
        r
    }
}

/// Pairs that agree one by one on the names' text and the UUIDs give the
/// same map.
proof fn lemma_same_pairs(a: Seq<(String, u128)>, b: Seq<(String, u128)>)
    requires
        a.len() == b.len(),
        forall|j: int| #![trigger a[j]] 0 <= j < a.len() ==> a[j].0@ == b[j].0@ && a[j].1 == b[j].1,
    ensures
        pairs_map(a) == pairs_map(b),
        distinct_names(a) == distinct_names(b),
    decreases a.len(),
{
    if a.len() > 0 {
        lemma_same_pairs(a.drop_last(), b.drop_last());
        assert(a.last() == a[a.len() - 1]);
    }
    if distinct_names(b) {
        assert forall|i: int, j: int| 0 <= i < j < a.len() implies #[trigger] a[i].0@ != #[trigger] a[j].0@ by {
            assert(b[i].0@ != b[j].0@);
        }
    }
    if distinct_names(a) {
        assert forall|i: int, j: int| 0 <= i < j < b.len() implies #[trigger] b[i].0@ != #[trigger] b[j].0@ by {
            assert(a[i].0@ != a[j].0@);
        }
    }
}

} // verus!
