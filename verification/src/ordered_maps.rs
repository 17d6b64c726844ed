//! The insertion-ordered maps of `ordered_hash_map` that the import report
//! and the category passes use, each kind with the list of its entries.
//!
//! `OrderedHashMap::insert` puts the entry last: a new key is appended, and
//! a key already present gets the new value and moves to the end.

use vstd::prelude::*;
use ordered_hash_map::OrderedHashMap;
use ordered_hash_map::ordered_map::DefaultHashBuilder;
use crate::categories::RawCategory;

verus! {

#[verifier::external_type_specification]
#[verifier::external_body]
#[verifier::reject_recursive_types(K)]
#[verifier::reject_recursive_types(V)]
#[verifier::reject_recursive_types(S)]
pub struct ExOrderedHashMap<K, V, S>(OrderedHashMap<K, V, S>);

#[verifier::external_type_specification]
#[verifier::external_body]
pub struct ExDefaultHashBuilder(DefaultHashBuilder);

/// The entries in order after inserting `(k, v)`: any entry of key `k`
/// leaves, and `(k, v)` comes last.
pub open spec fn inserted_last<K, V>(entries: Seq<(K, V)>, k: K, v: V) -> Seq<(K, V)> {
    entries.filter(|e: (K, V)| e.0 != k).push((k, v))
}

/// No key occurs twice among the entries.
pub open spec fn distinct_keys<K, V>(entries: Seq<(K, V)>) -> bool {
    forall|i: int, j: int| 0 <= i < j < entries.len() ==> entries[i].0 != entries[j].0
}

/// Whether some entry has key `k`.
pub open spec fn has_key<K, V>(entries: Seq<(K, V)>, k: K) -> bool {
    exists|i: int| 0 <= i < entries.len() && entries[i].0 == k
}

/// Categories found late, by UUID, with their full names.
pub type LateCategories = OrderedHashMap<u128, String>;

/// The entries of a map of late categories, in order.
pub uninterp spec fn late_entries(m: LateCategories) -> Seq<(u128, Seq<char>)>;

/// `OrderedHashMap::new`: no entry.
#[verifier::external_body]
pub(crate) fn late_new() -> (m: LateCategories)
    ensures
        late_entries(m) == Seq::<(u128, Seq<char>)>::empty(),
{
    OrderedHashMap::new()
}

/// `OrderedHashMap::insert`: the entry goes last, replacing any entry of
/// the same key.
#[verifier::external_body]
pub(crate) fn late_insert(m: &mut LateCategories, k: u128, v: String)
    ensures
        late_entries(*final(m)) == inserted_last(late_entries(*old(m)), k, v@),
{
    m.insert(k, v);
}

/// `OrderedHashMap::contains_key`.
#[verifier::external_body]
pub(crate) fn late_contains(m: &LateCategories, k: &u128) -> (r: bool)
    ensures
        r == has_key(late_entries(*m), *k),
{
    m.contains_key(k)
}

/// `OrderedHashMap::iter`, each entry copied out, in order.
#[verifier::external_body]
pub(crate) fn late_pairs(m: &LateCategories) -> (r: Vec<(u128, String)>)
    ensures
        r@.len() == late_entries(*m).len(),
        forall|i: int| 0 <= i < r@.len() ==> r@[i].0 == late_entries(*m)[i].0 && r@[i].1@ == late_entries(*m)[i].1,
{
    m.iter().map(|(k, v)| (*k, v.clone())).collect()
}

/// The elements that asked for a category: requester UUID to source file UUID.
pub type EntitySources = OrderedHashMap<u128, u128>;

/// The entries of a map of requesters, in order.
pub uninterp spec fn source_entries(m: EntitySources) -> Seq<(u128, u128)>;

/// `OrderedHashMap::new`: no entry.
#[verifier::external_body]
pub(crate) fn sources_new() -> (m: EntitySources)
    ensures
        source_entries(m) == Seq::<(u128, u128)>::empty(),
{
    OrderedHashMap::new()
}

/// `OrderedHashMap::iter`, each entry copied out, in order.
#[verifier::external_body]
pub(crate) fn sources_pairs(m: &EntitySources) -> (r: Vec<(u128, u128)>)
    ensures
        r@ == source_entries(*m),
{
    m.iter().map(|(k, v)| (*k, *v)).collect()
}

/// `OrderedHashMap::clone`: the same entries in the same order.
#[verifier::external_body]
pub(crate) fn sources_clone(m: &EntitySources) -> (r: EntitySources)
    ensures
        source_entries(r) == source_entries(*m),
{
    m.clone()
}

/// Raw categories of one pass, by full name.
pub type CategoryPass = OrderedHashMap<String, RawCategory>;

/// The entries of a pass, in order.
pub uninterp spec fn pass_entries(m: CategoryPass) -> Seq<(Seq<char>, RawCategory)>;

/// `OrderedHashMap::new`: no entry.
#[verifier::external_body]
pub(crate) fn pass_new() -> (m: CategoryPass)
    ensures
        pass_entries(m) == Seq::<(Seq<char>, RawCategory)>::empty(),
{
    OrderedHashMap::new()
}

/// `OrderedHashMap::insert`: the entry goes last, replacing any entry of
/// the same key.
#[verifier::external_body]
pub(crate) fn pass_insert(m: &mut CategoryPass, k: String, v: RawCategory)
    ensures
        pass_entries(*final(m)) == inserted_last(pass_entries(*old(m)), k@, v),
{
    m.insert(k, v);
}

/// `OrderedHashMap::get`: the value of the entry of that key.
#[verifier::external_body]
pub(crate) fn pass_get<'a>(m: &'a CategoryPass, k: &String) -> (r: Option<&'a RawCategory>)
    ensures
        r matches Some(v) ==> exists|i: int| 0 <= i < pass_entries(*m).len()
            && pass_entries(*m)[i].0 == k@ && pass_entries(*m)[i].1 == *v,
        r is None <==> !has_key(pass_entries(*m), k@),
{
    m.get(k)
}

/// `OrderedHashMap::keys`, each key copied out, in order.
#[verifier::external_body]
pub(crate) fn pass_keys(m: &CategoryPass) -> (r: Vec<String>)
    ensures
        r@.len() == pass_entries(*m).len(),
        forall|i: int| 0 <= i < r@.len() ==> #[trigger] r@[i]@ == pass_entries(*m)[i].0,
{
    m.keys().cloned().collect()
}

/// The value of the entry of key `k`.
pub open spec fn value_at<K, V>(entries: Seq<(K, V)>, k: K) -> V {
    entries[choose|i: int| 0 <= i < entries.len() && entries[i].0 == k].1
}

/// Inserting a key that is not there appends it.
pub proof fn lemma_insert_new_key<K, V>(entries: Seq<(K, V)>, k: K, v: V)
    requires
        !has_key(entries, k),
    ensures
        inserted_last(entries, k, v) == entries.push((k, v)),
    decreases entries.len(),
{
    let pred = |e: (K, V)| e.0 != k;
    if entries.len() == 0 {
        reveal(Seq::filter);
        assert(entries.filter(pred) =~= entries);
    } else {
        let p = entries.drop_last();
        assert(!has_key(p, k)) by {
            if has_key(p, k) {
                let i = choose|i: int| 0 <= i < p.len() && p[i].0 == k;
                assert(entries[i].0 == k);
            }
        }
        lemma_insert_new_key(p, k, v);
        assert(entries =~= p.push(entries.last()));
        p.lemma_filter_push(entries.last(), pred);
        assert(entries[entries.len() - 1].0 != k);
        assert(entries.filter(pred) =~= p.filter(pred).push(entries.last()));
        assert(p.filter(pred) =~= p) by {
            assert(inserted_last(p, k, v) == p.filter(pred).push((k, v)));
            assert(p.filter(pred).push((k, v)) =~= p.push((k, v)));
            assert(p.filter(pred) =~= p.push((k, v)).drop_last());
        }
    }
}

/// What appending an entry of a new key does to keys and values.
pub proof fn lemma_push_new_key<K, V>(entries: Seq<(K, V)>, k: K, v: V)
    requires
        distinct_keys(entries),
        !has_key(entries, k),
    ensures
        distinct_keys(entries.push((k, v))),
        forall|k2: K| has_key(entries.push((k, v)), k2) <==> has_key(entries, k2) || k2 == k,
        value_at(entries.push((k, v)), k) == v,
        forall|k2: K| has_key(entries, k2) ==> value_at(entries.push((k, v)), k2) == value_at(entries, k2),
{
    let s = entries.push((k, v));
    assert forall|i: int, j: int| 0 <= i < j < s.len() implies s[i].0 != s[j].0 by {
        if j == entries.len() {
            assert(entries[i].0 == s[i].0);
        }
    }
    assert forall|k2: K| has_key(s, k2) <==> has_key(entries, k2) || k2 == k by {
        if has_key(s, k2) && k2 != k {
            let i = choose|i: int| 0 <= i < s.len() && s[i].0 == k2;
            assert(entries[i].0 == k2);
        }
        if has_key(entries, k2) {
            let i = choose|i: int| 0 <= i < entries.len() && entries[i].0 == k2;
            assert(s[i].0 == k2);
        }
        if k2 == k {
            assert(s[entries.len() as int].0 == k2);
        }
    }
    assert(has_key(s, k)) by {
        assert(s[entries.len() as int].0 == k);
    }
    let a = choose|i: int| 0 <= i < s.len() && s[i].0 == k;
    assert(a == entries.len());
    assert forall|k2: K| has_key(entries, k2) implies value_at(s, k2) == value_at(entries, k2) by {
        let i1 = choose|i: int| 0 <= i < s.len() && s[i].0 == k2;
        let i2 = choose|i: int| 0 <= i < entries.len() && entries[i].0 == k2;
        assert(s[i2].0 == k2);
        assert(i1 == i2);
    }
}

/// Every key of `a` is a key of `b`.
pub open spec fn keys_kept<K, V>(a: Seq<(K, V)>, b: Seq<(K, V)>) -> bool {
    forall|x: K| #[trigger] has_key(a, x) ==> has_key(b, x)
}

/// Inserting an entry keeps every key and adds its own.
pub proof fn lemma_inserted_last_keeps_keys<K, V>(entries: Seq<(K, V)>, k: K, v: V)
    ensures
        keys_kept(entries, inserted_last(entries, k, v)),
        has_key(inserted_last(entries, k, v), k),
{
    let pred = |e: (K, V)| e.0 != k;
    let f = entries.filter(pred);
    let r = f.push((k, v));
    assert(r[f.len() as int].0 == k);
    assert forall|x: K| #[trigger] has_key(entries, x) implies has_key(r, x) by {
        if x != k {
            let a = choose|a: int| 0 <= a < entries.len() && entries[a].0 == x;
            entries.lemma_filter_contains(pred, a);
            let b = choose|b: int| 0 <= b < f.len() && f[b] == entries[a];
            assert(r[b] == f[b]);
        }
    }
}

} // verus!
