//! Which source files of a pack are in use: the UI sends the files it
//! uses, by UUID; a file counts as selected when it is listed as used, or
//! when no file is listed at all.

use vstd::prelude::*;
use std::collections::BTreeMap;

verus! {

broadcast use vstd::std_specs::btree::group_btree_axioms;

/// Whether a source file counts as selected under a list of used files.
pub open spec fn file_selected(used: Map<u128, bool>, file: u128) -> bool {
    used.is_empty() || (used.contains_key(file) && used[file])
}

/// The source files in use.
pub struct SelectedFileManager {
    data: BTreeMap<u128, bool>,
}

impl SelectedFileManager {
    /// The files in use, as listed by the UI.
    pub closed spec fn used(&self) -> Map<u128, bool> {
        self.data@
    }

    /// The selection made of the files currently in use. The files the
    /// user selected and the files of the pack do not change it.
    pub fn new(
        _selected_files: &BTreeMap<u128, bool>,
        _pack_source_files: &BTreeMap<u128, bool>,
        currently_used_files: &BTreeMap<u128, bool>,
    ) -> (m: Self)
        ensures
            m.used() == currently_used_files@,
    {
        let mut list_of_enabled_files: BTreeMap<u128, bool> = BTreeMap::new();
        let ghost src = currently_used_files@;
        for pair in it: currently_used_files.iter()
            invariant
                src == currently_used_files@,
                forall|k: u128| #[trigger] list_of_enabled_files@.contains_key(k)
                    <==> exists|i: int| 0 <= i < it.index() && *it.seq()[i].0 == k,
                forall|k: u128| #[trigger] list_of_enabled_files@.contains_key(k) ==> list_of_enabled_files@[k] == src[k],
        {
            let (key, v) = pair;
            list_of_enabled_files.insert(*key, *v);
        }
        assert(list_of_enabled_files@ =~= src);
        SelectedFileManager { data: list_of_enabled_files }
    }

    /// The files in use.
    pub fn cloned_data(&self) -> (r: BTreeMap<u128, bool>)
        ensures
            r@ == self.used(),
    {
        self.data.clone()
    }

    /// Whether the source file counts as selected.
    pub fn is_selected(&self, source_file_uuid: &u128) -> (r: bool)
        ensures
            r == file_selected(self.used(), *source_file_uuid),
    {
        if self.data.is_empty() {
            return true;
        }
        match self.data.get(source_file_uuid) {
            Some(v) => *v,
            None => false,
        }
    }

    /// How many files are listed.
    pub fn len(&self) -> (r: usize)
        ensures
            r == self.used().len(),
    {
        self.data.len()
    }
}

} // verus!
