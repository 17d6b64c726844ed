//! The back end of the package manager: which element or category belongs
//! to which category, and which of them have to be loaded.
//!
//! Elements and categories are named by their UUID, held as `u128`.

use vstd::prelude::*;
use std::collections::{BTreeMap, HashMap, HashSet};

use crate::pack_paths::{
    adjoined_twice, simple_base, PackageBackSharedState, EDITABLE_PACKAGE_NAME, EXTRACT_DIRECTORY_NAME,
    PACKAGE_MANAGER_DIRECTORY_NAME,
};

verus! {

broadcast use {vstd::std_specs::hash::group_hash_axioms, vstd::std_specs::btree::group_btree_axioms};

/// `a` is met after following `n` parent links from `x`.
pub open spec fn parent_chain(parents: Map<u128, u128>, x: u128, a: u128, n: nat) -> bool
    decreases n,
{
    if n == 0 {
        a == x
    } else {
        parents.contains_key(x) && parent_chain(parents, parents[x], a, (n - 1) as nat)
    }
}

/// `a` is `x` or one of its ancestors.
pub open spec fn reaches(parents: Map<u128, u128>, x: u128, a: u128) -> bool {
    exists|n: nat| parent_chain(parents, x, a, n)
}

/// The elements and all their ancestors.
pub open spec fn lineage(parents: Map<u128, u128>, elements: Set<u128>) -> Set<u128> {
    Set::new(|a: u128| exists|x: u128| elements.contains(x) && #[trigger] reaches(parents, x, a))
}

/// A set that holds the parent of each of its members.
pub open spec fn closed_under_parent(parents: Map<u128, u128>, s: Set<u128>) -> bool {
    forall|y: u128| #[trigger] s.contains(y) && parents.contains_key(y) ==> s.contains(parents[y])
}

/// One more link at the end of a chain.
proof fn lemma_chain_extend(parents: Map<u128, u128>, x: u128, a: u128, n: nat)
    requires
        parent_chain(parents, x, a, n),
        parents.contains_key(a),
    ensures
        parent_chain(parents, x, parents[a], n + 1),
    decreases n,
{
    if n == 0 {
        assert(parent_chain(parents, parents[x], parents[a], 0));
    } else {
        lemma_chain_extend(parents, parents[x], a, (n - 1) as nat);
        assert((n - 1) as nat + 1 == n);
    }
    assert(parent_chain(parents, x, parents[a], n + 1));
}

/// Two chains, one after the other.
proof fn lemma_chain_concat(parents: Map<u128, u128>, x: u128, a: u128, b: u128, n: nat, m: nat)
    requires
        parent_chain(parents, x, a, n),
        parent_chain(parents, a, b, m),
    ensures
        parent_chain(parents, x, b, n + m),
    decreases n,
{
    if n > 0 {
        lemma_chain_concat(parents, parents[x], a, b, (n - 1) as nat, m);
        assert((n - 1) as nat + m + 1 == n + m);
    }
}

/// A set closed under parent holds every ancestor of its members.
proof fn lemma_closed_holds_chain(parents: Map<u128, u128>, s: Set<u128>, x: u128, a: u128, n: nat)
    requires
        closed_under_parent(parents, s),
        s.contains(x),
        parent_chain(parents, x, a, n),
    ensures
        s.contains(a),
    decreases n,
{
    if n > 0 {
        lemma_closed_holds_chain(parents, s, parents[x], a, (n - 1) as nat);
    }
}

/// Law: the lineage of a lineage is itself: climbing again finds nothing new.
pub proof fn law_lineage_idempotent(parents: Map<u128, u128>, elements: Set<u128>)
    ensures
        lineage(parents, lineage(parents, elements)) == lineage(parents, elements),
{
    let l = lineage(parents, elements);
    assert forall|a: u128| lineage(parents, l).contains(a) implies l.contains(a) by {
        let b = choose|b: u128| l.contains(b) && #[trigger] reaches(parents, b, a);
        let x = choose|x: u128| elements.contains(x) && #[trigger] reaches(parents, x, b);
        let n = choose|n: nat| parent_chain(parents, x, b, n);
        let m = choose|m: nat| parent_chain(parents, b, a, m);
        lemma_chain_concat(parents, x, b, a, n, m);
        assert(reaches(parents, x, a));
    }
    assert forall|a: u128| l.contains(a) implies lineage(parents, l).contains(a) by {
        assert(parent_chain(parents, a, a, 0));
        assert(reaches(parents, a, a));
    }
    assert(lineage(parents, l) =~= l);
}

/// Law: the lineage holds the elements and the parent of each of its members.
pub proof fn law_lineage_closed(parents: Map<u128, u128>, elements: Set<u128>)
    ensures
        elements.subset_of(lineage(parents, elements)),
        closed_under_parent(parents, lineage(parents, elements)),
{
    let l = lineage(parents, elements);
    assert forall|x: u128| elements.contains(x) implies l.contains(x) by {
        assert(parent_chain(parents, x, x, 0));
        assert(reaches(parents, x, x));
    }
    assert forall|y: u128| #[trigger] l.contains(y) && parents.contains_key(y) implies l.contains(parents[y]) by {
        let x = choose|x: u128| elements.contains(x) && #[trigger] reaches(parents, x, y);
        let n = choose|n: nat| parent_chain(parents, x, y, n);
        lemma_chain_extend(parents, x, y, n);
        assert(reaches(parents, x, parents[y]));
    }
}

/// The parents of several packs, later packs overriding earlier ones.
pub open spec fn merged_parents(maps: Seq<Map<u128, u128>>) -> Map<u128, u128>
    decreases maps.len(),
{
    if maps.len() == 0 {
        Map::empty()
    } else {
        merged_parents(maps.drop_last()).union_prefer_right(maps.last())
    }
}

/// Adds the pairs of `source` to `target`, replacing what `target` had for
/// the same keys.
pub(crate) fn extend_parents(target: &mut HashMap<u128, u128>, source: &HashMap<u128, u128>)
    ensures
        final(target)@ == old(target)@.union_prefer_right(source@),
{
    let ghost start = target@;
    let ghost src = source@;
    for pair in it: source.iter()
        invariant
            src == source@,
            forall|k: u128| #[trigger] target@.contains_key(k) <==> start.contains_key(k)
                || exists|i: int| 0 <= i < it.index() && *it.seq()[i].0 == k,
            forall|k: u128| #[trigger] target@.contains_key(k) ==> target@[k] == (
                if src.contains_key(k) && exists|i: int| 0 <= i < it.index() && *it.seq()[i].0 == k { src[k] } else { start[k] }),
    {
        let (k, v) = pair;
        target.insert(*k, *v);
    }
    assert(target@ =~= start.union_prefer_right(src));
}

/// The measure of the climb: members of `u` not yet found.
spec fn left_to_find(u: Set<u128>, found: Set<u128>) -> nat {
    u.difference(found).len()
}

/// When nothing is left to climb from, what was found is the lineage.
proof fn lemma_climb_done(parents: Map<u128, u128>, inputs: Set<u128>, result: Set<u128>)
    requires
        forall|y: u128| #[trigger] result.contains(y)
            ==> exists|x: u128| inputs.contains(x) && #[trigger] reaches(parents, x, y),
        forall|x: u128| #[trigger] inputs.contains(x) ==> result.contains(x),
        forall|y: u128| #[trigger] result.contains(y) && parents.contains_key(y)
            ==> result.contains(parents[y]),
    ensures
        result == lineage(parents, inputs),
{
    let l = lineage(parents, inputs);
    assert(closed_under_parent(parents, result));
    assert forall|a: u128| l.contains(a) implies result.contains(a) by {
        let x = choose|x: u128| inputs.contains(x) && #[trigger] reaches(parents, x, a);
        let n = choose|n: nat| parent_chain(parents, x, a, n);
        lemma_closed_holds_chain(parents, result, x, a, n);
    }
    assert(result =~= l);
}

/// What a generation adds is reached from the inputs.
proof fn lemma_generation_sound(
    parents: Map<u128, u128>,
    inputs: Set<u128>,
    found: Set<u128>,
    cur: Seq<u128>,
    next: Seq<u128>,
    result: Set<u128>,
)
    requires
        result == found.union(cur.to_set()),
        forall|y: u128| #[trigger] found.contains(y)
            ==> exists|x: u128| inputs.contains(x) && #[trigger] reaches(parents, x, y),
        forall|y: u128| #[trigger] cur.contains(y)
            ==> exists|x: u128| inputs.contains(x) && #[trigger] reaches(parents, x, y),
        forall|y: u128| #[trigger] next.contains(y)
            ==> exists|g: u128| cur.contains(g) && parents.contains_key(g) && parents[g] == y,
    ensures
        forall|y: u128| #[trigger] result.contains(y)
            ==> exists|x: u128| inputs.contains(x) && #[trigger] reaches(parents, x, y),
        forall|y: u128| #[trigger] next.contains(y)
            ==> exists|x: u128| inputs.contains(x) && #[trigger] reaches(parents, x, y),
{
    assert forall|y: u128| #[trigger] result.contains(y)
        implies exists|x: u128| inputs.contains(x) && #[trigger] reaches(parents, x, y) by {
        if !found.contains(y) {
            assert(cur.to_set().contains(y));
            assert(cur.contains(y));
        }
    }
    assert forall|y: u128| #[trigger] next.contains(y)
        implies exists|x: u128| inputs.contains(x) && #[trigger] reaches(parents, x, y) by {
        let g = choose|g: u128| cur.contains(g) && parents.contains_key(g) && parents[g] == y;
        let x = choose|x: u128| inputs.contains(x) && #[trigger] reaches(parents, x, g);
        let n = choose|n: nat| parent_chain(parents, x, g, n);
        lemma_chain_extend(parents, x, g, n);
        assert(reaches(parents, x, y));
    }
}

/// After a generation, what is found or still to climb from covers the
/// inputs and the parents of what is found.
proof fn lemma_generation_complete(
    parents: Map<u128, u128>,
    inputs: Set<u128>,
    found: Set<u128>,
    cur: Seq<u128>,
    next: Seq<u128>,
    result: Set<u128>,
)
    requires
        result == found.union(cur.to_set()),
        forall|x: u128| #[trigger] inputs.contains(x) ==> found.contains(x) || cur.contains(x),
        forall|y: u128| #[trigger] found.contains(y) && parents.contains_key(y)
            ==> found.contains(parents[y]) || cur.contains(parents[y]),
        forall|g: u128| #[trigger] cur.contains(g) && parents.contains_key(g)
            ==> found.contains(parents[g]) || next.contains(parents[g]),
    ensures
        forall|x: u128| #[trigger] inputs.contains(x) ==> result.contains(x) || next.contains(x),
        forall|y: u128| #[trigger] result.contains(y) && parents.contains_key(y)
            ==> result.contains(parents[y]) || next.contains(parents[y]),
{
    assert forall|x: u128| #[trigger] inputs.contains(x) implies result.contains(x) || next.contains(x) by {
        if cur.contains(x) {
            assert(cur.to_set().contains(x));
        }
    }
    assert forall|y: u128| #[trigger] result.contains(y) && parents.contains_key(y)
        implies result.contains(parents[y]) || next.contains(parents[y]) by {
        if found.contains(y) {
            if cur.contains(parents[y]) {
                assert(cur.to_set().contains(parents[y]));
            }
        } else {
            assert(cur.to_set().contains(y));
            assert(cur.contains(y));
        }
    }
}

/// A generation brings the climb closer to its end: either something new
/// is found, or nothing is and the next generation holds only new elements.
proof fn lemma_generation_progress(
    parents: Map<u128, u128>,
    inputs: Set<u128>,
    u: Set<u128>,
    found: Set<u128>,
    cur: Seq<u128>,
    next: Seq<u128>,
    result: Set<u128>,
)
    requires
        u.finite(),
        u == inputs.union(parents.values()),
        result == found.union(cur.to_set()),
        forall|y: u128| #[trigger] cur.contains(y) ==> u.contains(y),
        forall|q: int| 0 <= q < next.len() ==> !found.contains(#[trigger] next[q]),
        forall|y: u128| #[trigger] next.contains(y)
            ==> exists|g: u128| cur.contains(g) && parents.contains_key(g) && parents[g] == y,
    ensures
        forall|y: u128| #[trigger] next.contains(y) ==> u.contains(y),
        left_to_find(u, result) < left_to_find(u, found)
            || (left_to_find(u, result) == left_to_find(u, found)
                && cur.to_set().subset_of(found)
                && !(next.len() > 0 && next.to_set().subset_of(result))),
{
    assert forall|y: u128| #[trigger] next.contains(y) implies u.contains(y) by {
        let g = choose|g: u128| cur.contains(g) && parents.contains_key(g) && parents[g] == y;
        assert(parents.values().contains(y));
    }
    if cur.to_set().subset_of(found) {
        assert(result =~= found);
        if next.len() > 0 {
            assert(next.to_set().contains(next[0]));
            assert(!result.contains(next[0]));
        }
    } else {
        let g = choose|g: u128| cur.to_set().contains(g) && !found.contains(g);
        assert(cur.contains(g));
        assert(u.contains(g));
        assert(u.difference(result).subset_of(u.difference(found).remove(g)));
        vstd::set_lib::lemma_len_subset(u.difference(result), u.difference(found).remove(g));
    }
}

/// The source files in use on the map after a tick: each source file of an
/// element of the map that a pack knows, with the flag it had in use before
/// or, for a file new to the list, the flag the pack gives it (the last
/// element of that file deciding).
pub open spec fn used_after(before: Map<u128, bool>, elements: Seq<(u128, Option<bool>)>) -> Map<u128, bool>
    decreases elements.len(),
{
    if elements.len() == 0 {
        Map::empty()
    } else {
        let m = used_after(before, elements.drop_last());
        let (file, known) = elements.last();
        match known {
            Some(active) => m.insert(file, if before.contains_key(file) { before[file] } else { active }),
            None => m,
        }
    }
}

/// Law: the files in use after a tick are exactly the source files of the
/// map's elements that a pack knows. A file already in use keeps its flag;
/// a new one gets the flag a pack gives it for one of its elements.
pub proof fn law_used_after(before: Map<u128, bool>, elements: Seq<(u128, Option<bool>)>)
    ensures
        forall|f: u128| #[trigger] used_after(before, elements).contains_key(f) <==> exists|i: int|
            0 <= i < elements.len() && elements[i].0 == f && elements[i].1 is Some,
        forall|f: u128| #[trigger] used_after(before, elements).contains_key(f) && before.contains_key(f)
            ==> used_after(before, elements)[f] == before[f],
        forall|f: u128| #[trigger] used_after(before, elements).contains_key(f) && !before.contains_key(f)
            ==> exists|i: int| 0 <= i < elements.len() && elements[i].0 == f
                && elements[i].1 == Some(used_after(before, elements)[f]),
    decreases elements.len(),
{
    if elements.len() > 0 {
        let p = elements.drop_last();
        law_used_after(before, p);
        let u = used_after(before, elements);
        let w = used_after(before, p);
        let (file, known) = elements.last();
        let n = elements.len() - 1;
        assert(elements[n] == (file, known));
        assert forall|f: u128| #[trigger] u.contains_key(f) <==> exists|i: int|
            0 <= i < elements.len() && elements[i].0 == f && elements[i].1 is Some by {
            if w.contains_key(f) {
                let i = choose|i: int| 0 <= i < p.len() && p[i].0 == f && p[i].1 is Some;
                assert(elements[i] == p[i]);
            }
            if exists|i: int| 0 <= i < elements.len() && elements[i].0 == f && elements[i].1 is Some {
                let i = choose|i: int| 0 <= i < elements.len() && elements[i].0 == f && elements[i].1 is Some;
                if i < n {
                    assert(elements[i] == p[i]);
                }
            }
        }
        assert forall|f: u128| #[trigger] u.contains_key(f) && !before.contains_key(f)
            implies exists|i: int| 0 <= i < elements.len() && elements[i].0 == f && elements[i].1 == Some(u[f]) by {
            if known is Some && f == file {
                assert(elements[n].1 == Some(u[f]));
            } else {
                let i = choose|i: int| 0 <= i < p.len() && p[i].0 == f && p[i].1 == Some(w[f]);
                assert(elements[i] == p[i]);
            }
        }
    }
}

/// Whether an element of the map comes from a source file that a pack knows
/// and that was not in use before.
pub open spec fn new_file_met(before: Map<u128, bool>, elements: Seq<(u128, Option<bool>)>) -> bool {
    exists|i: int| 0 <= i < elements.len() && elements[i].1 is Some && !before.contains_key(#[trigger] elements[i].0)
}

/// The back end's index of parents and what it has to load.
pub struct PackageDataManager {
    parents: HashMap<u128, u128>,
    loaded_elements: HashSet<u128>,
    current_map_id: u32,
    currently_used_files: BTreeMap<u128, bool>,
    pub state: PackageBackSharedState,
}

impl PackageDataManager {
    /// The parent of each registered element or category.
    pub closed spec fn parents(&self) -> Map<u128, u128> {
        self.parents@
    }

    /// The paths and flags shared with the UI.
    pub closed spec fn shared(&self) -> PackageBackSharedState {
        self.state
    }

    /// The elements and categories to load.
    pub closed spec fn loaded(&self) -> Set<u128> {
        self.loaded_elements@
    }

    /// The map the game was last seen on.
    pub closed spec fn map_id(&self) -> u32 {
        self.current_map_id
    }

    /// The source files in use, with whether each is active.
    pub closed spec fn used_files(&self) -> Map<u128, bool> {
        self.currently_used_files@
    }

    /// A back end rooted at the Jokolay directory, with no parent registered
    /// and nothing to load.
    pub fn new(root_path: &str) -> (m: Self)
        ensures
            m.parents() == Map::<u128, u128>::empty(),
            m.loaded() == Set::<u128>::empty(),
            m.map_id() == 0,
            m.used_files() == Map::<u128, bool>::empty(),
            !m.shared().choice_of_category_changed,
            m.shared().root_path@ == root_path@,
            simple_base(root_path@) ==> adjoined_twice(m.shared().editable_path@, root_path@, PACKAGE_MANAGER_DIRECTORY_NAME@, EDITABLE_PACKAGE_NAME@),
            simple_base(root_path@) ==> adjoined_twice(m.shared().extract_path@, root_path@, PACKAGE_MANAGER_DIRECTORY_NAME@, EXTRACT_DIRECTORY_NAME@),
    {
        PackageDataManager {
            parents: HashMap::new(),
            loaded_elements: HashSet::new(),
            current_map_id: 0,
            currently_used_files: BTreeMap::new(),
            state: PackageBackSharedState::new(root_path),
        }
    }

    /// Records the parent of an element, replacing any earlier one.
    pub fn register(&mut self, element: u128, parent: u128)
        ensures
            final(self).parents() == old(self).parents().insert(element, parent),
            final(self).loaded() == old(self).loaded(),
            final(self).shared() == old(self).shared(),
            final(self).map_id() == old(self).map_id(),
            final(self).used_files() == old(self).used_files(),
    {
        self.parents.insert(element, parent);
    }

    /// The parent of an element, if one is registered.
    pub fn get_parent(&self, element: &u128) -> (r: Option<&u128>)
        ensures
            r matches Some(p) ==> self.parents().contains_key(*element) && self.parents()[*element] == *p,
            r is None <==> !self.parents().contains_key(*element),
    {
        self.parents.get(element)
    }

    /// The elements with all their ancestors, climbing one generation at a
    /// time and never climbing twice from the same element.
    pub fn get_parents(&self, input: &Vec<u128>) -> (r: HashSet<u128>)
        ensures
            r@ == lineage(self.parents(), input@.to_set()),
    {
        let ghost parents = self.parents@;
        let ghost inputs = input@.to_set();
        let ghost u = inputs.union(parents.values());
        proof {
            assert(parents.dom().finite());
            parents.lemma_values_len();
            assert(u.finite());
        }
        let mut result: HashSet<u128> = HashSet::new();
        let mut current_generation: Vec<u128> = Vec::new();
        let mut k: usize = 0;
        while k < input.len()
            invariant
                0 <= k <= input.len(),
                current_generation@ == input@.take(k as int),
            decreases input.len() - k,
        {
            current_generation.push(input[k]);
            proof {
                assert(current_generation@ =~= input@.take(k + 1));
            }
            k = k + 1;
        }
        proof {
            assert(current_generation@ =~= input@);
            assert forall|y: u128| #[trigger] current_generation@.contains(y) implies inputs.contains(y)
                && reaches(parents, y, y) by {
                assert(parent_chain(parents, y, y, 0));
            }
        }
        loop
            invariant
                parents == self.parents@,
                inputs == input@.to_set(),
                u == inputs.union(parents.values()),
                u.finite(),
                forall|y: u128| #[trigger] result@.contains(y)
                    ==> exists|x: u128| inputs.contains(x) && #[trigger] reaches(parents, x, y),
                forall|y: u128| #[trigger] current_generation@.contains(y)
                    ==> exists|x: u128| inputs.contains(x) && #[trigger] reaches(parents, x, y),
                forall|x: u128| #[trigger] inputs.contains(x) ==> result@.contains(x) || current_generation@.contains(x),
                forall|y: u128| #[trigger] result@.contains(y) && parents.contains_key(y)
                    ==> result@.contains(parents[y]) || current_generation@.contains(parents[y]),
                forall|y: u128| #[trigger] current_generation@.contains(y) ==> u.contains(y),
            ensures
                result@ == lineage(parents, inputs),
            decreases
                left_to_find(u, result@),
                (if current_generation.len() > 0 && current_generation@.to_set().subset_of(result@) { 1int } else { 0int }),
        {
            if current_generation.len() == 0 {
                proof {
                    lemma_climb_done(parents, inputs, result@);
                }
                return result;
            }
            let ghost found = result@;
            let ghost cur = current_generation@;
            let mut next_gen: Vec<u128> = Vec::new();
            let mut j: usize = 0;
            while j < current_generation.len()
                invariant
                    parents == self.parents@,
                    cur == current_generation@,
                    found == result@,
                    0 <= j <= current_generation.len(),
                    forall|q: int| 0 <= q < next_gen.len() ==> !found.contains(#[trigger] next_gen@[q]),
                    forall|y: u128| #[trigger] next_gen@.contains(y)
                        ==> exists|g: u128| cur.contains(g) && parents.contains_key(g) && parents[g] == y,
                    forall|q: int| 0 <= q < j && #[trigger] parents.contains_key(cur[q])
                        ==> found.contains(parents[cur[q]]) || next_gen@.contains(parents[cur[q]]),
                decreases current_generation.len() - j,
            {
                let elt = current_generation[j];
                match self.get_parent(&elt) {
                    Some(p) => {
                        if !result.contains(p) {
                            let ghost before = next_gen@;
                            next_gen.push(*p);
                            proof {
                                assert(next_gen@ == before.push(*p));
                                assert(next_gen@[before.len() as int] == *p);
                                assert forall|y: u128| #[trigger] next_gen@.contains(y)
                                    implies exists|g: u128| cur.contains(g) && parents.contains_key(g) && parents[g] == y by {
                                    if y != *p {
                                        let q = choose|q: int| 0 <= q < next_gen.len() && next_gen@[q] == y;
                                        assert(before[q] == y);
                                        assert(before.contains(y));
                                    } else {
                                        assert(cur[j as int] == elt);
                                        assert(cur.contains(elt));
                                    }
                                }
                                assert forall|q: int| 0 <= q < j + 1 && #[trigger] parents.contains_key(cur[q])
                                    implies found.contains(parents[cur[q]]) || next_gen@.contains(parents[cur[q]]) by {
                                    if q < j {
                                        if before.contains(parents[cur[q]]) {
                                            let i = choose|i: int| 0 <= i < before.len() && before[i] == parents[cur[q]];
                                            assert(next_gen@[i] == parents[cur[q]]);
                                        }
                                    }
                                }
                            }
                        }
                    },
                    None => {},
                }
                j = j + 1;
            }
            proof {
                assert forall|g: u128| #[trigger] cur.contains(g) && parents.contains_key(g)
                    implies found.contains(parents[g]) || next_gen@.contains(parents[g]) by {
                    let q = choose|q: int| 0 <= q < cur.len() && cur[q] == g;
                    assert(parents.contains_key(cur[q]));
                }
            }
            let to_insert = current_generation;
            current_generation = next_gen;
            let mut i: usize = 0;
            while i < to_insert.len()
                invariant
                    0 <= i <= to_insert.len(),
                    to_insert@ == cur,
                    result@ == found.union(cur.take(i as int).to_set()),
                decreases to_insert.len() - i,
            {
                result.insert(to_insert[i]);
                proof {
                    assert(cur.take(i + 1).to_set() =~= cur.take(i as int).to_set().insert(cur[i as int])) by {
                        assert(cur.take(i + 1) =~= cur.take(i as int).push(cur[i as int]));
                        cur.take(i as int).lemma_push_to_set_commute(cur[i as int]);
                    }
                    assert(result@ =~= found.union(cur.take(i + 1).to_set()));
                }
                i = i + 1;
            }
            proof {
                assert(cur.take(cur.len() as int) =~= cur);
                assert(result@ =~= found.union(cur.to_set()));
                lemma_generation_sound(parents, inputs, found, cur, current_generation@, result@);
                lemma_generation_complete(parents, inputs, found, cur, current_generation@, result@);
                lemma_generation_progress(parents, inputs, u, found, cur, current_generation@, result@);
            }
        }
    }
    /// Gathers the parents of all packs (later packs override earlier
    /// ones), then records as loaded the given active elements with all
    /// their ancestors.
    pub fn get_active_elements_parents(&mut self, pack_parents: &Vec<HashMap<u128, u128>>, active: &Vec<u128>)
        ensures
            final(self).parents() == merged_parents(pack_parents@.map_values(|m: HashMap<u128, u128>| m@)),
            final(self).loaded() == lineage(final(self).parents(), active@.to_set()),
            final(self).shared() == old(self).shared(),
            final(self).map_id() == old(self).map_id(),
            final(self).used_files() == old(self).used_files(),
    {
        let ghost maps = pack_parents@.map_values(|m: HashMap<u128, u128>| m@);
        let mut parents: HashMap<u128, u128> = HashMap::new();
        let mut i: usize = 0;
        while i < pack_parents.len()
            invariant
                0 <= i <= pack_parents.len(),
                maps == pack_parents@.map_values(|m: HashMap<u128, u128>| m@),
                parents@ == merged_parents(maps.take(i as int)),
            decreases pack_parents.len() - i,
        {
            extend_parents(&mut parents, &pack_parents[i]);
            proof {
                assert(maps.take(i + 1).drop_last() =~= maps.take(i as int));
                assert(maps.take(i + 1).last() == pack_parents[i as int]@);
            }
            i = i + 1;
        }
        proof {
            assert(maps.take(pack_parents.len() as int) =~= maps);
        }
        self.parents = parents;
        self.loaded_elements = self.get_parents(active);
    }

    /// One tick with the game on map `map_id` (`None` when no frame of the
    /// game could be read, and then nothing changes). `elements` lists, for
    /// each marker and trail of that map in the packs, its source file and
    /// the flag the pack gives that file, if the pack knows it.
    ///
    /// The list of files in use is rebuilt from those elements and replaces
    /// the old one when the map changed, a file new to the list was met, or
    /// the choice of categories changed; the answer says whether it was
    /// replaced, so that the elements to show are worked out again. The
    /// choice of categories then counts as seen.
    pub fn _tick(&mut self, map_id: Option<u32>, elements: &Vec<(u128, Option<bool>)>) -> (refresh: bool)
        ensures
            map_id is None ==> !refresh && *final(self) == *old(self),
            (map_id matches Some(id) ==> {
                &&& refresh == (old(self).map_id() != id || new_file_met(old(self).used_files(), elements@)
                    || old(self).shared().choice_of_category_changed)
                &&& final(self).map_id() == id
                &&& final(self).used_files() == if refresh {
                    used_after(old(self).used_files(), elements@)
                } else {
                    old(self).used_files()
                }
                &&& final(self).shared() == (PackageBackSharedState {
                    choice_of_category_changed: false,
                    ..old(self).shared()
                })
                &&& final(self).parents() == old(self).parents()
                &&& final(self).loaded() == old(self).loaded()
            }),
    {
        let id = match map_id {
            Some(id) => id,
            None => {
                return false;
            },
        };
        let map_changed = self.current_map_id != id;
        self.current_map_id = id;
        let ghost before = self.currently_used_files@;
        let mut used: BTreeMap<u128, bool> = BTreeMap::new();
        let mut files_changed = false;
        let mut i: usize = 0;
        while i < elements.len()
            invariant
                0 <= i <= elements.len(),
                before == self.currently_used_files@,
                used@ == used_after(before, elements@.take(i as int)),
                files_changed == new_file_met(before, elements@.take(i as int)),
            decreases elements.len() - i,
        {
            let (file, known) = elements[i];
            proof {
                assert(elements@.take(i + 1).drop_last() =~= elements@.take(i as int));
                assert(elements@.take(i + 1).last() == elements@[i as int]);
            }
            match known {
                Some(active) => {
                    let value = match self.currently_used_files.get(&file) {
                        Some(v) => *v,
                        None => {
                            files_changed = true;
                            active
                        },
                    };
                    used.insert(file, value);
                },
                None => {},
            }
            proof {
                let t = elements@.take(i + 1);
                if new_file_met(before, t) {
                    let q = choose|q: int| 0 <= q < t.len() && t[q].1 is Some && !before.contains_key(#[trigger] t[q].0);
                    if q < i {
                        assert(elements@.take(i as int)[q] == t[q]);
                    }
                }
                if new_file_met(before, elements@.take(i as int)) {
                    let q = choose|q: int| 0 <= q < i && elements@.take(i as int)[q].1 is Some
                        && !before.contains_key(#[trigger] elements@.take(i as int)[q].0);
                    assert(t[q] == elements@.take(i as int)[q]);
                }
                if known is Some && !before.contains_key(file) {
                    assert(t[i as int] == elements@[i as int]);
                }
            }
            i = i + 1;
        }
        proof {
            assert(elements@.take(elements.len() as int) =~= elements@);
        }
        let refresh = map_changed || files_changed || self.state.choice_of_category_changed;
        if refresh {
            self.currently_used_files = used;
        }
        self.state.choice_of_category_changed = false;
        refresh
    }

    /// The source files in use, with whether each is active.
    pub fn currently_used_files(&self) -> (r: &BTreeMap<u128, bool>)
        ensures
            r@ == self.used_files(),
    {
        &self.currently_used_files
    }

    /// Whether the element or category is to be loaded.
    pub fn is_loaded(&self, element: &u128) -> (r: bool)
        ensures
            r == self.loaded().contains(*element),
    {
        self.loaded_elements.contains(element)
    }
}

} // verus!
