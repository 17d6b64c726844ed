//! The two-way index between component names and graph node indices,
//! held in a `bimap::BiHashMap`.

use vstd::prelude::*;
use bimap::BiHashMap;

verus! {

#[verifier::external_type_specification]
#[verifier::external_body]
#[verifier::reject_recursive_types(L)]
#[verifier::reject_recursive_types(R)]
#[verifier::reject_recursive_types(LS)]
#[verifier::reject_recursive_types(RS)]
pub struct ExBiHashMap<L, R, LS, RS>(BiHashMap<L, R, LS, RS>);

/// Names to node indices, both ways.
pub type NameIndex = BiHashMap<String, u16>;

/// The pairs the bimap holds, keyed by name.
pub uninterp spec fn name_index_pairs(m: NameIndex) -> Map<Seq<char>, u16>;

/// A bimap holds finitely many pairs, and no index twice.
pub open spec fn name_index_wf(m: NameIndex) -> bool {
    &&& name_index_pairs(m).dom().finite()
    &&& name_index_pairs(m).is_injective()
}

/// `BiHashMap::new`: no pair.
#[verifier::external_body]
pub(crate) fn name_index_new() -> (m: NameIndex)
    ensures
        name_index_pairs(m).is_empty(),
        name_index_wf(m),
{
    BiHashMap::new()
}

/// `BiHashMap::insert`: the pairs holding the name or the index go, then the
/// new pair is added.
#[verifier::external_body]
pub(crate) fn name_index_insert(m: &mut NameIndex, name: String, idx: u16)
    requires
        name_index_wf(*old(m)),
    ensures
        name_index_wf(*final(m)),
        name_index_pairs(*final(m)) == name_index_pairs(*old(m)).filter_keys(
            |k: Seq<char>| k != name@ && name_index_pairs(*old(m))[k] != idx,
        ).insert(name@, idx),
{
    m.insert(name, idx);
}

/// `BiHashMap::contains_left`: whether the name has a pair.
#[verifier::external_body]
pub(crate) fn name_index_contains_name(m: &NameIndex, name: &String) -> (r: bool)
    ensures
        r == name_index_pairs(*m).dom().contains(name@),
{
    m.contains_left(name)
}

/// `BiHashMap::get_by_left`: the index paired with the name.
#[verifier::external_body]
pub(crate) fn name_index_get_by_name(m: &NameIndex, name: &String) -> (r: Option<u16>)
    ensures
        r == name_index_pairs(*m).get(name@),
{
    m.get_by_left(name).copied()
}

/// `BiHashMap::get_by_right`: the name paired with the index.
#[verifier::external_body]
pub(crate) fn name_index_get_by_index(m: &NameIndex, idx: u16) -> (r: Option<String>)
    ensures
        match r {
            Some(name) => name_index_pairs(*m).dom().contains(name@) && name_index_pairs(*m)[name@] == idx,
            None => !name_index_pairs(*m).values().contains(idx),
        },
{
    m.get_by_right(&idx).cloned()
}

/// Source files by name, both ways with their UUIDs.
pub type SourceFiles = BiHashMap<String, u128>;

/// The pairs of source file name and UUID the bimap holds.
pub uninterp spec fn source_file_pairs(m: SourceFiles) -> Map<Seq<char>, u128>;

/// A bimap of source files holds finitely many pairs and no UUID twice.
pub open spec fn source_files_wf(m: SourceFiles) -> bool {
    &&& source_file_pairs(m).dom().finite()
    &&& source_file_pairs(m).is_injective()
}

/// `BiHashMap::new`: no pair.
#[verifier::external_body]
pub(crate) fn source_files_new() -> (m: SourceFiles)
    ensures
        source_file_pairs(m).is_empty(),
        source_files_wf(m),
{
    BiHashMap::new()
}

/// `BiHashMap::insert`: the pairs holding the name or the UUID go, then the
/// new pair is added.
#[verifier::external_body]
pub(crate) fn source_files_insert(m: &mut SourceFiles, name: String, id: u128)
    requires
        source_files_wf(*old(m)),
    ensures
        source_files_wf(*final(m)),
        source_file_pairs(*final(m)) == source_file_pairs(*old(m)).filter_keys(
            |k: Seq<char>| k != name@ && source_file_pairs(*old(m))[k] != id,
        ).insert(name@, id),
{
    m.insert(name, id);
}

/// `BiHashMap::get_by_left`: the UUID paired with the name.
#[verifier::external_body]
pub(crate) fn source_files_get_by_name<'a>(m: &'a SourceFiles, name: &String) -> (r: Option<&'a u128>)
    ensures
        match r {
            Some(id) => source_file_pairs(*m).dom().contains(name@) && source_file_pairs(*m)[name@] == *id,
            None => !source_file_pairs(*m).dom().contains(name@),
        },
{
    m.get_by_left(name)
}

/// `BiHashMap::get_by_right`: the name paired with the UUID.
#[verifier::external_body]
pub(crate) fn source_files_get_by_id<'a>(m: &'a SourceFiles, id: &u128) -> (r: Option<&'a String>)
    ensures
        match r {
            Some(name) => source_file_pairs(*m).dom().contains(name@) && source_file_pairs(*m)[name@] == *id,
            None => !source_file_pairs(*m).values().contains(*id),
        },
{
    m.get_by_right(id)
}

} // verus!
