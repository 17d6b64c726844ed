//! What an import registers of a marker pack: its categories by full name,
//! the parents of its entities, its source files, and the report of what it
//! counted, found late or found missing, and how long it took.

use vstd::prelude::*;
use std::collections::{BTreeMap, HashMap};
use crate::categories::Category;
use crate::name_table::NameTable;
use crate::package_data::extend_parents;
use crate::relative_path::RelativePath;
use crate::uuids::{hyphenated_text, new_uuid, uuid_text};
use crate::category_name::{char_positions, count_matches, lemma_char_positions_facts, prefix_before, prefix_until_nth_char};
use crate::name_index::{
    source_file_pairs, source_files_get_by_id, source_files_get_by_name, source_files_insert, source_files_new, source_files_wf,
    SourceFiles,
};
use crate::ordered_maps::{
    distinct_keys, has_key, inserted_last, late_contains, late_entries, late_insert, late_new, late_pairs,
    LateCategories,
};

verus! {

broadcast use vstd::std_specs::hash::group_hash_axioms;


/// How many of each kind of element an import found.
#[derive(Default, Debug, Clone)]
pub struct PackageImportStatistics {
    /// Categories found.
    pub categories: usize,
    /// Categories used and not defined by a category node.
    pub missing_categories: usize,
    /// Textures used.
    pub textures: usize,
    /// Textures used and missing.
    pub missing_textures: usize,
    /// Tracked elements: categories, trails, markers, ...
    pub entities: usize,
    pub markers: usize,
    pub trails: usize,
    /// Routes defined; they do not count as trails even when imported as such.
    pub routes: usize,
    /// Maps covered.
    pub maps: usize,
    /// XML files read.
    pub source_files: usize,
}

/// Time spent in each step of putting the categories back together.
#[derive(Default, Debug, Clone)]
pub struct PackageImportReassembleTelemetry {
    pub total: u128,
    pub initialize: u128,
    pub missing_categories_creation: u128,
    pub parent_child_relationship: u128,
    pub tree_insertion: u128,
}

/// Time spent in each step of an import.
#[derive(Default, Debug, Clone)]
pub struct PackageImportTelemetry {
    pub total: u128,
    pub texture_loading: u128,
    pub categories_loading: u128,
    pub categories_first_pass: u128,
    pub categories_second_pass: u128,
    pub categories_registering: u128,
    pub categories_reassemble: PackageImportReassembleTelemetry,
    pub elements_registering: u128,
}

/// A category that an element asked for and that no category node defined.
pub struct PackageCategorySource {
    pub full_category_name: String,
    pub requester_uuid: u128,
    pub source_file_name: String,
}

/// What asked for a missing file: an element, or a category.
pub enum ElementReference {
    Uuid(u128),
    Category(String),
}

/// A file that something asked for and that is missing.
pub struct PackageElementSource {
    pub file_path: String,
    pub requester_reference: ElementReference,
    pub source_file_name: String,
}

/// What an import found wrong or late, what it counted, and how long it took.
pub struct PackageImportReport {
    uuid: u128,
    number_of: PackageImportStatistics,
    telemetry: PackageImportTelemetry,
    late_discovered_categories: LateCategories,
    missing_categories: Vec<PackageCategorySource>,
    missing_categories_tracker: Vec<String>,
    missing_textures_tracker: Vec<String>,
    missing_textures: Vec<PackageElementSource>,
    missing_trails: Vec<PackageElementSource>,
    source_files: SourceFiles,
}

/// The views of a list of texts.
pub open spec fn text_views(s: Seq<String>) -> Seq<Seq<char>> {
    s.map_values(|x: String| x@)
}

/// Whether the list holds the text.
pub open spec fn lists_text(s: Seq<String>, t: Seq<char>) -> bool {
    exists|i: int| 0 <= i < s.len() && s[i]@ == t
}

/// The list holds the text, or gets it at the end.
fn note_once(list: &mut Vec<String>, t: &String) -> (added: bool)
    ensures
        added == !lists_text(old(list)@, t@),
        added ==> final(list)@ == old(list)@.push(*t),
        !added ==> final(list)@ == old(list)@,
{
    let mut i: usize = 0;
    while i < list.len()
        invariant
            0 <= i <= list.len(),
            list@ == old(list)@,
            forall|j: int| 0 <= j < i ==> list@[j]@ != t@,
        decreases list.len() - i,
    {
        if list[i].eq(t) {
            return false;
        }
        i = i + 1;
    }
    list.push(t.clone());
    true
}

impl PackageImportReport {
    /// The name of the file the report is saved to.
    pub const REPORT_FILE_NAME: &'static str = "import_report.json";

    /// The UUID of the pack the report is about.
    pub closed spec fn pack(self) -> u128 {
        self.uuid
    }

    /// The counters.
    pub closed spec fn counts(self) -> PackageImportStatistics {
        self.number_of
    }

    /// The timings.
    pub closed spec fn timings(self) -> PackageImportTelemetry {
        self.telemetry
    }

    /// Categories found late, by UUID, with their full names, in order.
    pub closed spec fn late(self) -> Seq<(u128, Seq<char>)> {
        late_entries(self.late_discovered_categories)
    }

    /// Where each category found late was asked for.
    pub closed spec fn missing_category_sources(self) -> Seq<PackageCategorySource> {
        self.missing_categories@
    }

    /// The full names of the categories counted as missing.
    pub closed spec fn missing_category_names(self) -> Seq<String> {
        self.missing_categories_tracker@
    }

    /// The paths of the textures counted as missing.
    pub closed spec fn missing_texture_paths(self) -> Seq<String> {
        self.missing_textures_tracker@
    }

    /// Where each missing texture was asked for.
    pub closed spec fn missing_texture_sources(self) -> Seq<PackageElementSource> {
        self.missing_textures@
    }

    /// Where each missing trail file was asked for.
    pub closed spec fn missing_trail_sources(self) -> Seq<PackageElementSource> {
        self.missing_trails@
    }

    /// The source files, by name, with their UUIDs.
    pub closed spec fn sources(self) -> Map<Seq<char>, u128> {
        source_file_pairs(self.source_files)
    }

    /// What the report keeps true: no UUID or name twice.
    pub closed spec fn wf(self) -> bool {
        &&& distinct_keys(late_entries(self.late_discovered_categories))
        &&& source_files_wf(self.source_files)
    }

    /// An empty report for the pack of that UUID.
    pub fn new(uuid: u128) -> (r: Self)
        ensures
            r.wf(),
            r.pack() == uuid,
            r.late().len() == 0,
            r.missing_category_sources().len() == 0,
            r.missing_category_names().len() == 0,
            r.missing_texture_paths().len() == 0,
            r.sources().is_empty(),
    {
        PackageImportReport {
            uuid,
            number_of: PackageImportStatistics {
                categories: 0,
                missing_categories: 0,
                textures: 0,
                missing_textures: 0,
                entities: 0,
                markers: 0,
                trails: 0,
                routes: 0,
                maps: 0,
                source_files: 0,
            },
            telemetry: PackageImportTelemetry {
                total: 0,
                texture_loading: 0,
                categories_loading: 0,
                categories_first_pass: 0,
                categories_second_pass: 0,
                categories_registering: 0,
                categories_reassemble: PackageImportReassembleTelemetry {
                    total: 0,
                    initialize: 0,
                    missing_categories_creation: 0,
                    parent_child_relationship: 0,
                    tree_insertion: 0,
                },
                elements_registering: 0,
            },
            late_discovered_categories: late_new(),
            missing_categories: Vec::new(),
            missing_categories_tracker: Vec::new(),
            missing_textures_tracker: Vec::new(),
            missing_textures: Vec::new(),
            missing_trails: Vec::new(),
            source_files: source_files_new(),
        }
    }

    /// The UUID of the pack the report is about.
    pub fn uuid(&self) -> (r: u128)
        ensures
            r == self.pack(),
    {
        self.uuid
    }

    /// Ties the report to the pack of that UUID.
    pub fn set_uuid(&mut self, uuid: u128)
        ensures
            final(self).pack() == uuid,
            final(self).wf() == old(self).wf(),
            final(self).counts() == old(self).counts(),
            final(self).timings() == old(self).timings(),
            final(self).late() == old(self).late(),
            final(self).sources() == old(self).sources(),
            final(self).missing_category_sources() == old(self).missing_category_sources(),
            final(self).missing_category_names() == old(self).missing_category_names(),
            final(self).missing_texture_paths() == old(self).missing_texture_paths(),
            final(self).missing_texture_sources() == old(self).missing_texture_sources(),
            final(self).missing_trail_sources() == old(self).missing_trail_sources(),
    {
        self.uuid = uuid;
    }

    /// The timings.
    pub fn telemetry(&self) -> (r: &PackageImportTelemetry)
        ensures
            *r == self.timings(),
    {
        &self.telemetry
    }

    /// The counters.
    pub fn number_of(&self) -> (r: &PackageImportStatistics)
        ensures
            *r == self.counts(),
    {
        &self.number_of
    }

    /// Records how long each step of putting the categories back together
    /// took, in milliseconds.
    pub fn set_reassemble_timings(&mut self, initialize: u128, creation: u128, relationship: u128, insertion: u128)
        ensures
            final(self).timings() == (PackageImportTelemetry {
                categories_reassemble: PackageImportReassembleTelemetry {
                    initialize,
                    missing_categories_creation: creation,
                    parent_child_relationship: relationship,
                    tree_insertion: insertion,
                    ..old(self).timings().categories_reassemble
                },
                ..old(self).timings()
            }),
            final(self).wf() == old(self).wf(),
            final(self).late() == old(self).late(),
            final(self).counts() == old(self).counts(),
            final(self).sources() == old(self).sources(),
            final(self).pack() == old(self).pack(),
            final(self).missing_category_sources() == old(self).missing_category_sources(),
            final(self).missing_category_names() == old(self).missing_category_names(),
            final(self).missing_texture_paths() == old(self).missing_texture_paths(),
            final(self).missing_texture_sources() == old(self).missing_texture_sources(),
            final(self).missing_trail_sources() == old(self).missing_trail_sources(),
    {
        self.telemetry.categories_reassemble.initialize = initialize;
        self.telemetry.categories_reassemble.missing_categories_creation = creation;
        self.telemetry.categories_reassemble.parent_child_relationship = relationship;
        self.telemetry.categories_reassemble.tree_insertion = insertion;
    }

    /// Sets every counter back to zero; nothing else changes.
    pub fn reset_counters(&mut self)
        ensures
            final(self).counts().categories == 0,
            final(self).counts().missing_categories == 0,
            final(self).counts().textures == 0,
            final(self).counts().missing_textures == 0,
            final(self).counts().entities == 0,
            final(self).counts().markers == 0,
            final(self).counts().trails == 0,
            final(self).counts().routes == 0,
            final(self).counts().maps == 0,
            final(self).counts().source_files == 0,
            final(self).late() == old(self).late(),
            final(self).sources() == old(self).sources(),
            final(self).wf() == old(self).wf(),
    {
        self.number_of = PackageImportStatistics {
            categories: 0,
            missing_categories: 0,
            textures: 0,
            missing_textures: 0,
            entities: 0,
            markers: 0,
            trails: 0,
            routes: 0,
            maps: 0,
            source_files: 0,
        };
    }

    /// Whether the category was found late.
    pub fn is_category_discovered_late(&self, uuid: u128) -> (r: bool)
        ensures
            r == has_key(self.late(), uuid),
    {
        late_contains(&self.late_discovered_categories, &uuid)
    }

    /// The name of the source file of that UUID.
    pub fn source_file_uuid_to_name(&self, source_file_uuid: &u128) -> (r: Option<&String>)
        ensures
            match r {
                Some(name) => self.sources().dom().contains(name@) && self.sources()[name@] == *source_file_uuid,
                None => !self.sources().values().contains(*source_file_uuid),
            },
    {
        source_files_get_by_id(&self.source_files, source_file_uuid)
    }

    /// The UUID of the source file of that name.
    pub fn source_file_name_to_uuid(&self, source_file_name: &String) -> (r: Option<&u128>)
        ensures
            match r {
                Some(id) => self.sources().dom().contains(source_file_name@) && self.sources()[source_file_name@] == *id,
                None => !self.sources().dom().contains(source_file_name@),
            },
    {
        source_files_get_by_name(&self.source_files, source_file_name)
    }

    /// Records that the category of that UUID was found late, under that
    /// full name; a later record for the same UUID replaces it and comes last.
    pub fn found_category_late(&mut self, full_category_name: &str, category_uuid: u128)
        requires
            old(self).wf(),
        ensures
            final(self).wf(),
            final(self).late() == inserted_last(old(self).late(), category_uuid, full_category_name@),
            final(self).counts() == old(self).counts(),
            final(self).sources() == old(self).sources(),
            final(self).pack() == old(self).pack(),
            final(self).missing_category_sources() == old(self).missing_category_sources(),
            final(self).missing_category_names() == old(self).missing_category_names(),
            final(self).missing_texture_paths() == old(self).missing_texture_paths(),
    {
        let ghost before = late_entries(self.late_discovered_categories);
        late_insert(&mut self.late_discovered_categories, category_uuid, full_category_name.to_owned());
        proof {
            lemma_inserted_last_distinct(before, category_uuid, full_category_name@);
        }
    }

    /// Records that the category was found late, where it was asked for,
    /// and counts its name as missing once. The source file must be known.
    pub fn found_category_late_with_details(
        &mut self,
        full_category_name: &String,
        category_uuid: u128,
        requester_uuid: &u128,
        source_file_uuid: &u128,
    )
        requires
            old(self).wf(),
            old(self).sources().values().contains(*source_file_uuid),
            !lists_text(old(self).missing_category_names(), full_category_name@)
                ==> old(self).counts().missing_categories < usize::MAX,
        ensures
            final(self).wf(),
            final(self).late() == inserted_last(old(self).late(), category_uuid, full_category_name@),
            final(self).sources() == old(self).sources(),
            final(self).pack() == old(self).pack(),
            final(self).missing_category_sources().len() == old(self).missing_category_sources().len() + 1,
            final(self).missing_category_sources().subrange(0, old(self).missing_category_sources().len() as int)
                == old(self).missing_category_sources(),
            ({
                let s = final(self).missing_category_sources().last();
                &&& s.full_category_name@ == full_category_name@
                &&& s.requester_uuid == *requester_uuid
                &&& final(self).sources().dom().contains(s.source_file_name@)
                &&& final(self).sources()[s.source_file_name@] == *source_file_uuid
            }),
            lists_text(old(self).missing_category_names(), full_category_name@) ==> {
                &&& final(self).missing_category_names() == old(self).missing_category_names()
                &&& final(self).counts() == old(self).counts()
            },
            !lists_text(old(self).missing_category_names(), full_category_name@) ==> {
                &&& final(self).missing_category_names() == old(self).missing_category_names().push(*full_category_name)
                &&& final(self).counts() == (PackageImportStatistics {
                    missing_categories: (old(self).counts().missing_categories + 1) as usize,
                    ..old(self).counts()
                })
            },
            final(self).missing_texture_paths() == old(self).missing_texture_paths(),
    {
        self.found_category_late(full_category_name.as_str(), category_uuid);
        let source_file_name = match source_files_get_by_id(&self.source_files, source_file_uuid) {
            Some(name) => name.clone(),
            None => {
                proof {
                    assert(false);
                }
                String::new()
            },
        };
        self.missing_categories.push(PackageCategorySource {
            full_category_name: full_category_name.clone(),
            requester_uuid: *requester_uuid,
            source_file_name,
        });
        if note_once(&mut self.missing_categories_tracker, full_category_name) {
            self.number_of.missing_categories = self.number_of.missing_categories + 1;
        }
    }

    /// Counts the texture path as missing, once.
    pub fn found_missing_texture(&mut self, file_path: &String)
        requires
            old(self).counts().missing_textures < usize::MAX,
        ensures
            final(self).wf() == old(self).wf(),
            final(self).late() == old(self).late(),
            final(self).sources() == old(self).sources(),
            final(self).pack() == old(self).pack(),
            final(self).missing_texture_sources() == old(self).missing_texture_sources(),
            final(self).missing_trail_sources() == old(self).missing_trail_sources(),
            lists_text(old(self).missing_texture_paths(), file_path@) ==> {
                &&& final(self).missing_texture_paths() == old(self).missing_texture_paths()
                &&& final(self).counts() == old(self).counts()
            },
            !lists_text(old(self).missing_texture_paths(), file_path@) ==> {
                &&& final(self).missing_texture_paths() == old(self).missing_texture_paths().push(*file_path)
                &&& final(self).counts() == (PackageImportStatistics {
                    missing_textures: (old(self).counts().missing_textures + 1) as usize,
                    ..old(self).counts()
                })
            },
    {
        if note_once(&mut self.missing_textures_tracker, file_path) {
            self.number_of.missing_textures = self.number_of.missing_textures + 1;
        }
    }

    /// Takes in the categories another report found late, in its order.
    pub fn merge_partial(&mut self, partial_report: PackageImportReport)
        requires
            old(self).wf(),
        ensures
            final(self).wf(),
            final(self).late() == merged_late(old(self).late(), partial_report.late()),
            final(self).counts() == old(self).counts(),
            final(self).sources() == old(self).sources(),
    {
        let pairs = late_pairs(&partial_report.late_discovered_categories);
        let ghost added = late_entries(partial_report.late_discovered_categories);
        let ghost start = late_entries(self.late_discovered_categories);
        let mut i: usize = 0;
        while i < pairs.len()
            invariant
                0 <= i <= pairs.len(),
                pairs@.len() == added.len(),
                forall|j: int| 0 <= j < pairs@.len() ==> pairs@[j].0 == added[j].0 && pairs@[j].1@ == added[j].1,
                late_entries(self.late_discovered_categories) == merged_late(start, added.take(i as int)),
                distinct_keys(late_entries(self.late_discovered_categories)),
                self.number_of == old(self).number_of,
                self.source_files == old(self).source_files,
            decreases pairs.len() - i,
        {
            let k = pairs[i].0;
            let v = pairs[i].1.clone();
            let ghost before = late_entries(self.late_discovered_categories);
            late_insert(&mut self.late_discovered_categories, k, v);
            proof {
                lemma_inserted_last_distinct(before, added[i as int].0, added[i as int].1);
                assert(added.take(i + 1).drop_last() =~= added.take(i as int));
            }
            i = i + 1;
        }
        proof {
            assert(added.take(added.len() as int) =~= added);
        }
    }
}

/// Entries inserted one after the other, each going last.
pub open spec fn merged_late(start: Seq<(u128, Seq<char>)>, added: Seq<(u128, Seq<char>)>) -> Seq<(u128, Seq<char>)>
    decreases added.len(),
{
    if added.len() == 0 {
        start
    } else {
        inserted_last(merged_late(start, added.drop_last()), added.last().0, added.last().1)
    }
}

/// Inserting keeps the keys distinct, and the new key is there.
pub proof fn lemma_inserted_last_distinct<K, V>(entries: Seq<(K, V)>, k: K, v: V)
    requires
        distinct_keys(entries),
    ensures
        distinct_keys(inserted_last(entries, k, v)),
        has_key(inserted_last(entries, k, v), k),
{
    let f = entries.filter(|e: (K, V)| e.0 != k);
    let r = f.push((k, v));
    assert forall|i: int| 0 <= i < f.len() implies f[i].0 != k && entries.contains(f[i]) by {
        entries.lemma_filter_pred(|e: (K, V)| e.0 != k, i);
        entries.lemma_filter_contains_rev(|e: (K, V)| e.0 != k, f[i]);
        assert(f.contains(f[i]));
    }
    assert forall|i: int, j: int| 0 <= i < j < r.len() implies r[i].0 != r[j].0 by {
        if j < f.len() {
            lemma_filter_distinct_keys(entries, k, i, j);
        }
    }
    assert(r[r.len() - 1].0 == k);
}

/// Filtering keeps the keys distinct.
proof fn lemma_filter_distinct_keys<K, V>(entries: Seq<(K, V)>, k: K, i: int, j: int)
    requires
        distinct_keys(entries),
        0 <= i < j < entries.filter(|e: (K, V)| e.0 != k).len(),
    ensures
        entries.filter(|e: (K, V)| e.0 != k)[i].0 != entries.filter(|e: (K, V)| e.0 != k)[j].0,
    decreases entries.len(),
{
    let f = entries.filter(|e: (K, V)| e.0 != k);
    entries.lemma_filter_len(|e: (K, V)| e.0 != k);
    if entries.len() > 0 {
        let p = entries.drop_last();
        let pf = p.filter(|e: (K, V)| e.0 != k);
        assert(entries =~= p.push(entries.last()));
        p.lemma_filter_push(entries.last(), |e: (K, V)| e.0 != k);
        assert(distinct_keys(p));
        if entries.last().0 != k {
            assert(f =~= pf.push(entries.last()));
            if j < pf.len() {
                lemma_filter_distinct_keys(p, k, i, j);
            } else {
                assert(f[j] == entries.last());
                p.lemma_filter_contains_rev(|e: (K, V)| e.0 != k, pf[i]);
                assert(pf.contains(pf[i]));
                let q = choose|q: int| 0 <= q < p.len() && p[q] == pf[i];
                assert(entries[q] == p[q]);
            }
        } else {
            assert(f =~= pf);
            lemma_filter_distinct_keys(p, k, i, j);
        }
    }
}

/// What an import has registered of a pack so far: its categories, the
/// names and parents of its entities, its source files and its report.
pub struct PackCore {
    pub uuid: u128,
    pub categories: Vec<(u128, Category)>,
    pub all_categories: NameTable,
    pub entities_parents: HashMap<u128, u128>,
    pub active_source_files: BTreeMap<u128, bool>,
    pub report: PackageImportReport,
}

/// What registering the source file `name` does, giving `r`: a name
/// already known gives its UUID and changes nothing; a new name gets a
/// random version 4 UUID, which takes the place of any pair that already
/// had it (the other names keep theirs), is marked active, and is counted.
pub open spec fn source_registered(old: PackCore, new: PackCore, name: Seq<char>, r: u128) -> bool {
    &&& old.report.sources().contains_key(name) ==> {
        &&& r == old.report.sources()[name]
        &&& new == old
    }
    &&& !old.report.sources().contains_key(name) ==> {
        &&& r & 0xF000C000000000000000u128 == 0x40008000000000000000u128
        &&& new.report.sources().contains_key(name)
        &&& new.report.sources()[name] == r
        &&& forall|k: Seq<char>| k != name ==> (#[trigger] new.report.sources().contains_key(k)
            <==> old.report.sources().contains_key(k) && old.report.sources()[k] != r)
        &&& forall|k: Seq<char>| k != name && #[trigger] new.report.sources().contains_key(k)
            ==> new.report.sources()[k] == old.report.sources()[k]
        &&& new.report.counts() == (PackageImportStatistics {
            source_files: (old.report.counts().source_files + 1) as usize,
            ..old.report.counts()
        })
        &&& new.active_source_files@ == old.active_source_files@.insert(r, true)
        &&& new.report.late() == old.report.late()
        &&& new.report.pack() == old.report.pack()
        &&& new.uuid == old.uuid
        &&& new.categories == old.categories
        &&& new.all_categories == old.all_categories
        &&& new.entities_parents == old.entities_parents
    }
}

/// Law: registering the same source file twice gives the same UUID the
/// second time and changes nothing more; after the first time the name is
/// known by that UUID, which is active.
pub proof fn law_register_source_file_twice(a: PackCore, b: PackCore, c: PackCore, name: Seq<char>, r1: u128, r2: u128)
    requires
        source_registered(a, b, name, r1),
        source_registered(b, c, name, r2),
    ensures
        r2 == r1,
        c == b,
        b.report.sources().contains_key(name),
        b.report.sources()[name] == r1,
        !a.report.sources().contains_key(name) ==> b.active_source_files@.contains_key(r1) && b.active_source_files@[r1],
{
}

impl PackCore {
    /// The table of full category names and the report keep their
    /// invariants.
    pub open spec fn wf(self) -> bool {
        &&& self.all_categories.wf()
        &&& self.report.wf()
    }

    /// An empty pack under a fresh random UUID, which its report carries too.
    pub fn new() -> (r: Self)
        ensures
            r.wf(),
            r.report.pack() == r.uuid,
            r.uuid & 0xF000C000000000000000u128 == 0x40008000000000000000u128,
            r.categories@.len() == 0,
            r.all_categories.view_map().is_empty(),
            r.entities_parents@.is_empty(),
            r.active_source_files@.is_empty(),
            r.report.late().len() == 0,
            r.report.sources().is_empty(),
    {
        let uuid = new_uuid();
        PackCore {
            uuid,
            categories: Vec::new(),
            all_categories: NameTable::new(),
            entities_parents: HashMap::new(),
            active_source_files: BTreeMap::new(),
            report: PackageImportReport::new(uuid),
        }
    }

    /// An empty pack that already knows the full category names of another
    /// load, to take in more data for it.
    pub fn partial(all_categories: &NameTable) -> (r: Self)
        requires
            all_categories.wf(),
        ensures
            r.wf(),
            r.report.pack() == r.uuid,
            r.categories@.len() == 0,
            r.all_categories.view_map() == all_categories.view_map(),
            r.entities_parents@.is_empty(),
            r.active_source_files@.is_empty(),
            r.report.late().len() == 0,
            r.report.sources().is_empty(),
    {
        let mut res = PackCore::new();
        res.all_categories = all_categories.duplicate();
        res
    }

    /// Whether a category of that full name is known.
    pub fn category_exists(&self, full_category_name: &String) -> (r: bool)
        requires
            self.wf(),
        ensures
            r == self.all_categories.view_map().contains_key(full_category_name@),
    {
        self.all_categories.contains_key(full_category_name.as_str())
    }

    /// The UUID of the category of that full name.
    pub fn get_category_uuid(&self, full_category_name: &String) -> (r: Option<&u128>)
        requires
            self.wf(),
        ensures
            match r {
                Some(id) => self.all_categories.view_map().contains_key(full_category_name@)
                    && self.all_categories.view_map()[full_category_name@] == *id,
                None => !self.all_categories.view_map().contains_key(full_category_name@),
            },
    {
        self.all_categories.get(full_category_name.as_str())
    }

    /// The UUID of a source file registered before.
    pub fn get_source_file_uuid(&mut self, source_file_name: &String) -> (r: u128)
        requires
            old(self).report.sources().contains_key(source_file_name@),
        ensures
            r == old(self).report.sources()[source_file_name@],
            *final(self) == *old(self),
    {
        match source_files_get_by_name(&self.report.source_files, source_file_name) {
            Some(id) => *id,
            None => {
                proof {
                    assert(false);
                }
                0
            },
        }
    }

    /// The UUID of the source file, registered under a fresh random UUID,
    /// active and counted, when it is new. A fresh UUID takes the place of
    /// any pair that already had it, as the bimap does.
    pub fn register_source_file(&mut self, source_file_name: &String) -> (r: u128)
        requires
            old(self).wf(),
            old(self).report.counts().source_files < usize::MAX,
        ensures
            final(self).wf(),
            source_registered(*old(self), *final(self), source_file_name@, r),
    {
        match source_files_get_by_name(&self.report.source_files, source_file_name) {
            Some(id) => *id,
            None => {
                let uuid_to_insert = new_uuid();
                source_files_insert(&mut self.report.source_files, source_file_name.clone(), uuid_to_insert);
                self.report.number_of.source_files = self.report.number_of.source_files + 1;
                self.active_source_files.insert(uuid_to_insert, true);
                uuid_to_insert
            },
        }
    }

    /// Registers an entity of the category of that full name under its
    /// UUID, or, when an entity has it already, under fresh random ones drawn
    /// until one is free; the entity's parent is the category. After
    /// `u64::MAX` draws in a row that all collide it gives up.
    pub fn register_uuid(&mut self, full_category_name: &String, uuid: &u128) -> (r: Result<u128, String>)
        requires
            old(self).wf(),
            old(self).report.counts().entities < usize::MAX,
        ensures
            final(self).wf(),
            !old(self).all_categories.view_map().contains_key(full_category_name@) ==> (r matches Err(e)
                && e@ == unknown_category_text(full_category_name@, *uuid)),
            old(self).all_categories.view_map().contains_key(full_category_name@)
                && !old(self).entities_parents@.contains_key(*uuid) ==> r == Ok::<u128, String>(*uuid),
            r is Err ==> *final(self) == *old(self),
            r matches Ok(id) ==> {
                &&& old(self).all_categories.view_map().contains_key(full_category_name@)
                &&& !old(self).entities_parents@.contains_key(id)
                &&& final(self).entities_parents@ == old(self).entities_parents@.insert(
                    id, old(self).all_categories.view_map()[full_category_name@])
                &&& final(self).report.counts() == (PackageImportStatistics {
                    entities: (old(self).report.counts().entities + 1) as usize,
                    ..old(self).report.counts()
                })
                &&& final(self).report.late() == old(self).report.late()
                &&& final(self).report.sources() == old(self).report.sources()
                &&& final(self).report.pack() == old(self).report.pack()
                &&& final(self).uuid == old(self).uuid
                &&& final(self).categories == old(self).categories
                &&& final(self).all_categories == old(self).all_categories
                &&& final(self).active_source_files == old(self).active_source_files
            },
    {
        let parent_uuid = match self.all_categories.get(full_category_name.as_str()) {
            Some(p) => *p,
            None => {
                let mut message = String::from_str("Can't register world entity ");
                message.append(full_category_name.as_str());
                message.append(" ");
                message.append(uuid_text(*uuid).as_str());
                message.append(", no associated category found.");
                return Err(message);
            },
        };
        let mut uuid_to_insert = *uuid;
        let mut attempts: u64 = 0;
        let mut taken = self.entities_parents.contains_key(&uuid_to_insert);
        while taken
            invariant
                taken == self.entities_parents@.contains_key(uuid_to_insert),
                *self == *old(self),
                old(self).wf(),
                old(self).all_categories.view_map().contains_key(full_category_name@),
                attempts == 0 ==> uuid_to_insert == *uuid,
                attempts > 0 ==> old(self).entities_parents@.contains_key(*uuid),
            decreases u64::MAX - attempts,
        {
            if attempts == u64::MAX {
                let mut message = String::from_str("Can't register world entity ");
                message.append(full_category_name.as_str());
                message.append(", every UUID drawn was taken.");
                return Err(message);
            }
            uuid_to_insert = new_uuid();
            attempts = attempts + 1;
            taken = self.entities_parents.contains_key(&uuid_to_insert);
        }
        self.entities_parents.insert(uuid_to_insert, parent_uuid);
        self.report.number_of.entities = self.report.number_of.entities + 1;
        Ok(uuid_to_insert)
    }

    /// The UUID of the category of that full name. An unknown category is
    /// created: each name before one of its dots, from the shortest, and
    /// then the full name itself, is looked up, and given a fresh random
    /// UUID and recorded as missing, where the element asking for it was
    /// found, when unknown; either way the full name is recorded as found
    /// late under that name's UUID. The UUID of the full name comes back.
    pub fn get_or_create_category_uuid(
        &mut self,
        full_category_name: &String,
        requester_uuid: u128,
        source_file_uuid: &u128,
    ) -> (r: u128)
        requires
            old(self).wf(),
            !old(self).all_categories.view_map().contains_key(full_category_name@)
                ==> old(self).report.sources().values().contains(*source_file_uuid),
            old(self).report.counts().missing_categories < usize::MAX,
        ensures
            final(self).wf(),
            old(self).all_categories.view_map().contains_key(full_category_name@) ==> {
                &&& r == old(self).all_categories.view_map()[full_category_name@]
                &&& *final(self) == *old(self)
            },
            !old(self).all_categories.view_map().contains_key(full_category_name@) ==> created_prefixes(
                *old(self), *final(self), full_category_name@, requester_uuid, *source_file_uuid,
                char_positions(full_category_name@, '.').len() + 1int,
            ),
            final(self).all_categories.view_map().contains_key(full_category_name@),
            r == final(self).all_categories.view_map()[full_category_name@],
    {
        if let Some(category_uuid) = self.all_categories.get(full_category_name.as_str()) {
            return *category_uuid;
        }
        let ghost name = full_category_name@;
        let ghost k = char_positions(name, '.').len() as int;
        let count = count_matches(full_category_name.as_str(), '.');
        proof {
            lemma_char_positions_facts(name, '.');
            lemma_char_positions_len(name, '.');
        }
        let mut n: usize = 0;
        let mut last_uuid: u128 = 0;
        proof {
            assert(Seq::new(0, |j: int| self.all_categories.view_map()[prefix_text(name, j)]) =~= Seq::<u128>::empty());
            assert(self.report.missing_category_sources().subrange(0, self.report.missing_category_sources().len() as int)
                =~= self.report.missing_category_sources());
        }
        loop
            invariant_except_break
                0 <= n <= k,
                count == k,
                old(self).wf(),
                !old(self).all_categories.view_map().contains_key(name),
                old(self).report.sources().values().contains(*source_file_uuid),
                old(self).report.counts().missing_categories < usize::MAX,
                name == full_category_name@,
                k == char_positions(name, '.').len(),
                self.wf(),
                created_prefixes(*old(self), *self, name, requester_uuid, *source_file_uuid, n as int),
            ensures
                self.wf(),
                created_prefixes(*old(self), *self, name, requester_uuid, *source_file_uuid, k + 1),
                last_uuid == self.all_categories.view_map()[prefix_text(name, k)],
                self.all_categories.view_map().contains_key(prefix_text(name, k)),
            decreases k - n,
        {
            let parent_full_category_name = if n < count {
                match prefix_until_nth_char(full_category_name.as_str(), '.', n) {
                    Some(p) => p,
                    None => {
                        proof {
                            assert(false);
                        }
                        String::new()
                    },
                }
            } else {
                full_category_name.clone()
            };
            let ghost before = *self;
            proof {
                assert(parent_full_category_name@ == prefix_text(name, n as int));
            }
            match self.all_categories.get(parent_full_category_name.as_str()) {
                Some(parent_uuid) => {
                    let parent_uuid = *parent_uuid;
                    self.report.found_category_late(full_category_name.as_str(), parent_uuid);
                    last_uuid = parent_uuid;
                    proof {
                        lemma_step_known(*old(self), before, *self, name, requester_uuid, *source_file_uuid, n as int, parent_uuid);
                    }
                },
                None => {
                    let new_uuid = new_uuid();
                    proof {
                        lemma_prefix_missing(*old(self), before, name, requester_uuid, *source_file_uuid, n as int);
                    }
                    self.all_categories.insert(parent_full_category_name, new_uuid);
                    self.report.found_category_late_with_details(
                        full_category_name,
                        new_uuid,
                        &requester_uuid,
                        source_file_uuid,
                    );
                    last_uuid = new_uuid;
                    proof {
                        lemma_step_created(*old(self), before, *self, name, requester_uuid, *source_file_uuid, n as int, new_uuid);
                    }
                },
            }
            if n == count {
                break;
            }
            n = n + 1;
        }
        proof {
            assert(prefix_text(name, k) == name);
        }
        last_uuid
    }

    /// Takes in what a partial load found: its full category names replace
    /// these, its late categories go into the report, its active source files
    /// and entity parents are added over these.
    pub fn merge_partial(&mut self, partial_pack: PackCore)
        requires
            old(self).wf(),
            partial_pack.wf(),
        ensures
            final(self).wf(),
            final(self).all_categories.view_map() == partial_pack.all_categories.view_map(),
            final(self).report.late() == merged_late(old(self).report.late(), partial_pack.report.late()),
            final(self).report.counts() == old(self).report.counts(),
            final(self).report.sources() == old(self).report.sources(),
            final(self).active_source_files@ == old(self).active_source_files@.union_prefer_right(
                partial_pack.active_source_files@),
            final(self).entities_parents@ == old(self).entities_parents@.union_prefer_right(
                partial_pack.entities_parents@),
            final(self).uuid == old(self).uuid,
            final(self).categories == old(self).categories,
    {
        let PackCore { all_categories, entities_parents, active_source_files, report, .. } = partial_pack;
        self.all_categories = all_categories;
        self.report.merge_partial(report);
        extend_active(&mut self.active_source_files, &active_source_files);
        extend_parents(&mut self.entities_parents, &entities_parents);
    }

    /// Rebuilds the table of full category names from the category tree,
    /// in order and depth first, adds each category's parent to the
    /// entities' parents, and counts the names.
    pub fn register_categories(&mut self)
        requires
            old(self).wf(),
        ensures
            final(self).wf(),
            final(self).all_categories.view_map() == register_level(
                Map::empty(), Map::empty(), old(self).categories@).0,
            final(self).entities_parents@ == old(self).entities_parents@.union_prefer_right(
                register_level(Map::empty(), Map::empty(), old(self).categories@).1),
            final(self).report.counts() == (PackageImportStatistics {
                categories: final(self).all_categories.view_map().dom().len() as usize,
                ..old(self).report.counts()
            }),
            final(self).report.late() == old(self).report.late(),
            final(self).report.sources() == old(self).report.sources(),
            final(self).report.pack() == old(self).report.pack(),
            final(self).uuid == old(self).uuid,
            final(self).categories == old(self).categories,
            final(self).active_source_files == old(self).active_source_files,
    {
        let mut entities_parents: HashMap<u128, u128> = HashMap::new();
        let mut all_categories = NameTable::new();
        PackCore::recursive_register_categories(&mut entities_parents, &self.categories, &mut all_categories);
        extend_parents(&mut self.entities_parents, &entities_parents);
        self.report.number_of.categories = all_categories.len();
        self.all_categories = all_categories;
    }

    /// Records a missing texture asked for by an element of the source file,
    /// and counts its path as missing once. The source file must be known.
    pub fn found_missing_element_texture(&mut self, file_path: String, requester_uuid: u128, source_file_uuid: &u128)
        requires
            old(self).wf(),
            old(self).report.sources().values().contains(*source_file_uuid),
            old(self).report.counts().missing_textures < usize::MAX,
        ensures
            final(self).wf(),
            missing_file_recorded(old(self).report.missing_texture_sources(), final(self).report.missing_texture_sources(),
                file_path@, ElementReference::Uuid(requester_uuid), final(self).report.sources(), *source_file_uuid),
            texture_counted(old(self).report, final(self).report, file_path@),
            final(self).report.missing_trail_sources() == old(self).report.missing_trail_sources(),
            final(self).report.late() == old(self).report.late(),
            final(self).report.sources() == old(self).report.sources(),
            final(self).report.pack() == old(self).report.pack(),
            final(self).uuid == old(self).uuid,
            final(self).categories == old(self).categories,
            final(self).all_categories == old(self).all_categories,
            final(self).entities_parents == old(self).entities_parents,
            final(self).active_source_files == old(self).active_source_files,
    {
        let ghost r0 = self.report;
        self.report.found_missing_texture(&file_path);
        proof {
            if !lists_text(r0.missing_texture_paths(), file_path@) {
                assert(self.report.missing_texture_paths().subrange(0, r0.missing_texture_paths().len() as int)
                    =~= r0.missing_texture_paths());
            }
        }
        let source_file_name = self.known_source_file_name(source_file_uuid);
        let ghost before = self.report.missing_textures@;
        self.report.missing_textures.push(PackageElementSource {
            file_path,
            requester_reference: ElementReference::Uuid(requester_uuid),
            source_file_name,
        });
        proof {
            assert(self.report.missing_textures@.subrange(0, before.len() as int) =~= before);
        }
    }

    /// Records a missing texture a category of the source file passes down,
    /// and counts its path as missing once. The source file must be known.
    pub fn found_missing_inherited_texture(&mut self, file_path: String, full_category_name: String, source_file_uuid: &u128)
        requires
            old(self).wf(),
            old(self).report.sources().values().contains(*source_file_uuid),
            old(self).report.counts().missing_textures < usize::MAX,
        ensures
            final(self).wf(),
            missing_file_recorded(old(self).report.missing_texture_sources(), final(self).report.missing_texture_sources(),
                file_path@, ElementReference::Category(full_category_name), final(self).report.sources(), *source_file_uuid),
            texture_counted(old(self).report, final(self).report, file_path@),
            final(self).report.missing_trail_sources() == old(self).report.missing_trail_sources(),
            final(self).report.late() == old(self).report.late(),
            final(self).report.sources() == old(self).report.sources(),
            final(self).report.pack() == old(self).report.pack(),
            final(self).uuid == old(self).uuid,
            final(self).categories == old(self).categories,
            final(self).all_categories == old(self).all_categories,
            final(self).entities_parents == old(self).entities_parents,
            final(self).active_source_files == old(self).active_source_files,
    {
        let ghost r0 = self.report;
        self.report.found_missing_texture(&file_path);
        proof {
            if !lists_text(r0.missing_texture_paths(), file_path@) {
                assert(self.report.missing_texture_paths().subrange(0, r0.missing_texture_paths().len() as int)
                    =~= r0.missing_texture_paths());
            }
        }
        let source_file_name = self.known_source_file_name(source_file_uuid);
        let ghost before = self.report.missing_textures@;
        self.report.missing_textures.push(PackageElementSource {
            file_path,
            requester_reference: ElementReference::Category(full_category_name),
            source_file_name,
        });
        proof {
            assert(self.report.missing_textures@.subrange(0, before.len() as int) =~= before);
        }
    }

    /// Records a missing trail file asked for by an element of the source
    /// file. The source file must be known.
    pub fn found_missing_trail(&mut self, file_path: &RelativePath, requester_uuid: u128, source_file_uuid: &u128)
        requires
            old(self).wf(),
            old(self).report.sources().values().contains(*source_file_uuid),
        ensures
            final(self).wf(),
            missing_file_recorded(old(self).report.missing_trail_sources(), final(self).report.missing_trail_sources(),
                file_path@, ElementReference::Uuid(requester_uuid), final(self).report.sources(), *source_file_uuid),
            final(self).report.missing_texture_sources() == old(self).report.missing_texture_sources(),
            final(self).report.counts() == old(self).report.counts(),
            final(self).report.missing_texture_paths() == old(self).report.missing_texture_paths(),
            final(self).report.late() == old(self).report.late(),
            final(self).report.sources() == old(self).report.sources(),
            final(self).report.pack() == old(self).report.pack(),
            final(self).uuid == old(self).uuid,
            final(self).categories == old(self).categories,
            final(self).all_categories == old(self).all_categories,
            final(self).entities_parents == old(self).entities_parents,
            final(self).active_source_files == old(self).active_source_files,
    {
        let source_file_name = self.known_source_file_name(source_file_uuid);
        let ghost before = self.report.missing_trails@;
        self.report.missing_trails.push(PackageElementSource {
            file_path: file_path.as_str().to_owned(),
            requester_reference: ElementReference::Uuid(requester_uuid),
            source_file_name,
        });
        proof {
            assert(self.report.missing_trails@.subrange(0, before.len() as int) =~= before);
        }
    }

    /// The name of a source file known by its UUID.
    fn known_source_file_name(&self, source_file_uuid: &u128) -> (r: String)
        requires
            self.report.sources().values().contains(*source_file_uuid),
        ensures
            self.report.sources().contains_key(r@),
            self.report.sources()[r@] == *source_file_uuid,
    {
        match self.report.source_file_uuid_to_name(source_file_uuid) {
            Some(name) => name.clone(),
            None => {
                proof {
                    assert(false);
                }
                String::new()
            },
        }
    }

    /// Registers the categories of the level, each before those under it.
    fn recursive_register_categories(
        entities_parents: &mut HashMap<u128, u128>,
        categories: &Vec<(u128, Category)>,
        all_categories: &mut NameTable,
    )
        requires
            old(all_categories).wf(),
        ensures
            final(all_categories).wf(),
            (final(all_categories).view_map(), final(entities_parents)@) == register_level(
                old(all_categories).view_map(), old(entities_parents)@, categories@),
        decreases categories@,
    {
        let n = categories.len();
        let mut i: usize = 0;
        proof {
            assert(categories@.subrange(0, n as int) =~= categories@);
        }
        while i < n
            invariant
                n == categories.len(),
                0 <= i <= n,
                all_categories.wf(),
                register_level(all_categories.view_map(), entities_parents@, categories@.subrange(i as int, n as int))
                    == register_level(old(all_categories).view_map(), old(entities_parents)@, categories@),
            decreases n - i,
        {
            let cat = &categories[i].1;
            proof {
                assert(categories@.subrange(i as int, n as int).drop_first() =~= categories@.subrange(i + 1, n as int));
                assert(categories@.subrange(i as int, n as int)[0] == categories@[i as int]);
                assert(decreases_to!(categories@ => categories@[i as int]));
                assert(decreases_to!(categories@[i as int] => categories@[i as int].1));
                assert(decreases_to!(categories@[i as int].1 => categories@[i as int].1.children));
                assert(decreases_to!(categories@[i as int].1.children => categories@[i as int].1.children@));
                reveal_with_fuel(register_level, 2);
                reveal_with_fuel(register_node, 2);
            }
            all_categories.insert(cat.full_category_name.clone(), cat.guid);
            match cat.parent {
                Some(parent) => {
                    entities_parents.insert(cat.guid, parent);
                },
                None => {},
            }
            PackCore::recursive_register_categories(entities_parents, &cat.children, all_categories);
            i = i + 1;
        }
        proof {
            assert(categories@.subrange(n as int, n as int) =~= Seq::<(u128, Category)>::empty());
        }
    }
}

/// The error text for an entity of a full category name that no category
/// has.
pub open spec fn unknown_category_text(full_category_name: Seq<char>, uuid: u128) -> Seq<char> {
    "Can't register world entity "@ + full_category_name + " "@ + hyphenated_text(uuid)
        + ", no associated category found."@
}

/// The full name before its dot `n`, or, past its last dot, the full name
/// itself.
pub open spec fn prefix_text(name: Seq<char>, n: int) -> Seq<char> {
    if n < char_positions(name, '.').len() {
        name.subrange(0, char_positions(name, '.')[n])
    } else {
        name
    }
}

/// The late records of the full name under each of the UUIDs, in order.
pub open spec fn late_fold(late: Seq<(u128, Seq<char>)>, name: Seq<char>, ids: Seq<u128>) -> Seq<(u128, Seq<char>)>
    decreases ids.len(),
{
    if ids.len() == 0 {
        late
    } else {
        inserted_last(late_fold(late, name, ids.drop_last()), ids.last(), name)
    }
}

/// How many of the first `n` prefixes of the full name the table lacks.
pub open spec fn missing_count(table: Map<Seq<char>, u128>, name: Seq<char>, n: int) -> nat
    decreases n,
{
    if n <= 0 {
        0
    } else {
        missing_count(table, name, n - 1) + if table.contains_key(prefix_text(name, n - 1)) { 0nat } else { 1nat }
    }
}

/// `new` is `old` after the first `n` prefixes of the full name were
/// handled: each is in the table, with the UUID it had or a fresh one; the
/// name was recorded late under each prefix's UUID in turn; each missing
/// prefix added a record of where it was asked for, and the name is counted
/// as missing once when a prefix was missing.
pub open spec fn created_prefixes(old: PackCore, new: PackCore, name: Seq<char>, requester_uuid: u128, source_file_uuid: u128, n: int) -> bool {
    let t0 = old.all_categories.view_map();
    let t1 = new.all_categories.view_map();
    let any_missing = exists|j: int| 0 <= j < n && !t0.contains_key(#[trigger] prefix_text(name, j));
    let counted = any_missing && !lists_text(old.report.missing_category_names(), name);
    let m0 = old.report.missing_category_sources();
    let m1 = new.report.missing_category_sources();
    &&& forall|key: Seq<char>| #[trigger] t1.contains_key(key)
        <==> t0.contains_key(key) || exists|j: int| 0 <= j < n && key == #[trigger] prefix_text(name, j)
    &&& forall|key: Seq<char>| #[trigger] t0.contains_key(key) ==> t1[key] == t0[key]
    &&& new.report.late() == late_fold(old.report.late(), name, Seq::new(n as nat, |j: int| t1[prefix_text(name, j)]))
    &&& m1.len() == m0.len() + missing_count(t0, name, n)
    &&& m1.subrange(0, m0.len() as int) == m0
    &&& forall|j: int| #![trigger m1[j]] m0.len() <= j < m1.len() ==> {
        &&& m1[j].full_category_name@ == name
        &&& m1[j].requester_uuid == requester_uuid
        &&& new.report.sources().contains_key(m1[j].source_file_name@)
        &&& new.report.sources()[m1[j].source_file_name@] == source_file_uuid
    }
    &&& if counted {
        &&& new.report.missing_category_names().len() == old.report.missing_category_names().len() + 1
        &&& new.report.missing_category_names().subrange(0, old.report.missing_category_names().len() as int)
            == old.report.missing_category_names()
        &&& new.report.missing_category_names().last()@ == name
    } else {
        new.report.missing_category_names() == old.report.missing_category_names()
    }
    &&& new.report.counts() == if counted {
        PackageImportStatistics {
            missing_categories: (old.report.counts().missing_categories + 1) as usize,
            ..old.report.counts()
        }
    } else {
        old.report.counts()
    }
    &&& new.report.sources() == old.report.sources()
    &&& new.report.pack() == old.report.pack()
    &&& new.report.missing_texture_paths() == old.report.missing_texture_paths()
    &&& new.uuid == old.uuid
    &&& new.categories == old.categories
    &&& new.entities_parents == old.entities_parents
    &&& new.active_source_files == old.active_source_files
}

/// The names before two different dots, or before a dot and the full name,
/// differ: the earlier one is shorter.
proof fn lemma_prefixes_distinct(name: Seq<char>, j: int, n: int)
    requires
        0 <= j < n <= char_positions(name, '.').len(),
    ensures
        prefix_text(name, j) != prefix_text(name, n),
{
    lemma_char_positions_facts(name, '.');
    let p = char_positions(name, '.');
    assert(prefix_text(name, j).len() == p[j]);
    if n < p.len() {
        assert(p[j] < p[n]);
        assert(prefix_text(name, n).len() == p[n]);
    } else {
        assert(prefix_text(name, n).len() == name.len());
    }
}

/// When prefix `n` is missing, the source file is known and the count of
/// missing names can grow.
proof fn lemma_prefix_missing(old: PackCore, before: PackCore, name: Seq<char>, requester_uuid: u128, source_file_uuid: u128, n: int)
    requires
        0 <= n <= char_positions(name, '.').len(),
        created_prefixes(old, before, name, requester_uuid, source_file_uuid, n),
        !before.all_categories.view_map().contains_key(prefix_text(name, n)),
        old.report.sources().values().contains(source_file_uuid),
        old.report.counts().missing_categories < usize::MAX,
    ensures
        before.report.sources().values().contains(source_file_uuid),
        !lists_text(before.report.missing_category_names(), name) ==> before.report.counts().missing_categories < usize::MAX,
{
    let t0 = old.all_categories.view_map();
    let any_missing = exists|j: int| 0 <= j < n && !t0.contains_key(#[trigger] prefix_text(name, j));
    if any_missing && !lists_text(old.report.missing_category_names(), name) {
        let names = before.report.missing_category_names();
        assert(names[names.len() - 1]@ == name);
        assert(lists_text(names, name));
    }
}

/// Handling a prefix the table has keeps `created_prefixes` one step on.
proof fn lemma_step_known(old: PackCore, before: PackCore, after: PackCore, name: Seq<char>, requester_uuid: u128, source_file_uuid: u128, n: int, id: u128)
    requires
        0 <= n <= char_positions(name, '.').len(),
        created_prefixes(old, before, name, requester_uuid, source_file_uuid, n),
        before.all_categories.view_map().contains_key(prefix_text(name, n)),
        id == before.all_categories.view_map()[prefix_text(name, n)],
        after.all_categories == before.all_categories,
        after.report.late() == inserted_last(before.report.late(), id, name),
        after.report.counts() == before.report.counts(),
        after.report.sources() == before.report.sources(),
        after.report.pack() == before.report.pack(),
        after.report.missing_category_sources() == before.report.missing_category_sources(),
        after.report.missing_category_names() == before.report.missing_category_names(),
        after.report.missing_texture_paths() == before.report.missing_texture_paths(),
        after.uuid == before.uuid,
        after.categories == before.categories,
        after.entities_parents == before.entities_parents,
        after.active_source_files == before.active_source_files,
    ensures
        created_prefixes(old, after, name, requester_uuid, source_file_uuid, n + 1),
{
    let t0 = old.all_categories.view_map();
    let t1 = after.all_categories.view_map();
    let p = prefix_text(name, n);
    assert(t0.contains_key(p)) by {
        if !t0.contains_key(p) {
            let j = choose|j: int| 0 <= j < n && p == #[trigger] prefix_text(name, j);
            lemma_prefixes_distinct(name, j, n);
        }
    }
    let f = |j: int| t1[prefix_text(name, j)];
    assert(Seq::new((n + 1) as nat, f).drop_last() =~= Seq::new(n as nat, f));
    assert(missing_count(t0, name, n + 1) == missing_count(t0, name, n));
    assert forall|key: Seq<char>| #[trigger] t1.contains_key(key)
        <==> t0.contains_key(key) || exists|j: int| 0 <= j < n + 1 && key == #[trigger] prefix_text(name, j) by {
        if exists|j: int| 0 <= j < n + 1 && key == #[trigger] prefix_text(name, j) {
            let j = choose|j: int| 0 <= j < n + 1 && key == #[trigger] prefix_text(name, j);
            if j < n {
                assert(exists|i: int| 0 <= i < n && key == #[trigger] prefix_text(name, i));
            }
        }
    }
    let any_before = exists|j: int| 0 <= j < n && !t0.contains_key(#[trigger] prefix_text(name, j));
    let any_after = exists|j: int| 0 <= j < n + 1 && !t0.contains_key(#[trigger] prefix_text(name, j));
    assert(any_before == any_after) by {
        if any_after {
            let j = choose|j: int| 0 <= j < n + 1 && !t0.contains_key(#[trigger] prefix_text(name, j));
            assert(j != n);
        }
    }
}

/// Handling a prefix the table lacks keeps `created_prefixes` one step on.
proof fn lemma_step_created(old: PackCore, before: PackCore, after: PackCore, name: Seq<char>, requester_uuid: u128, source_file_uuid: u128, n: int, id: u128)
    requires
        0 <= n <= char_positions(name, '.').len(),
        created_prefixes(old, before, name, requester_uuid, source_file_uuid, n),
        !before.all_categories.view_map().contains_key(prefix_text(name, n)),
        after.all_categories.view_map() == before.all_categories.view_map().insert(prefix_text(name, n), id),
        after.report.late() == inserted_last(before.report.late(), id, name),
        after.report.sources() == before.report.sources(),
        after.report.pack() == before.report.pack(),
        after.report.missing_category_sources().len() == before.report.missing_category_sources().len() + 1,
        after.report.missing_category_sources().subrange(0, before.report.missing_category_sources().len() as int)
            == before.report.missing_category_sources(),
        ({
            let s = after.report.missing_category_sources().last();
            &&& s.full_category_name@ == name
            &&& s.requester_uuid == requester_uuid
            &&& after.report.sources().contains_key(s.source_file_name@)
            &&& after.report.sources()[s.source_file_name@] == source_file_uuid
        }),
        lists_text(before.report.missing_category_names(), name) ==> {
            &&& after.report.missing_category_names() == before.report.missing_category_names()
            &&& after.report.counts() == before.report.counts()
        },
        !lists_text(before.report.missing_category_names(), name) ==> {
            &&& after.report.missing_category_names() == before.report.missing_category_names().push(
                after.report.missing_category_names().last())
            &&& after.report.missing_category_names().last()@ == name
            &&& after.report.counts() == (PackageImportStatistics {
                missing_categories: (before.report.counts().missing_categories + 1) as usize,
                ..before.report.counts()
            })
        },
        after.report.missing_texture_paths() == before.report.missing_texture_paths(),
        after.uuid == before.uuid,
        after.categories == before.categories,
        after.entities_parents == before.entities_parents,
        after.active_source_files == before.active_source_files,
    ensures
        created_prefixes(old, after, name, requester_uuid, source_file_uuid, n + 1),
{
    let t0 = old.all_categories.view_map();
    let tb = before.all_categories.view_map();
    let t1 = after.all_categories.view_map();
    let p = prefix_text(name, n);
    assert(!t0.contains_key(p));
    let fb = |j: int| tb[prefix_text(name, j)];
    let f1 = |j: int| t1[prefix_text(name, j)];
    assert(Seq::new((n + 1) as nat, f1).drop_last() =~= Seq::new(n as nat, fb)) by {
        assert forall|j: int| 0 <= j < n implies t1[#[trigger] prefix_text(name, j)] == tb[prefix_text(name, j)] by {
            lemma_prefixes_distinct(name, j, n);
        }
    }
    assert(Seq::new((n + 1) as nat, f1).last() == id);
    assert forall|key: Seq<char>| #[trigger] t1.contains_key(key)
        <==> t0.contains_key(key) || exists|j: int| 0 <= j < n + 1 && key == #[trigger] prefix_text(name, j) by {
        if exists|j: int| 0 <= j < n + 1 && key == #[trigger] prefix_text(name, j) {
            let j = choose|j: int| 0 <= j < n + 1 && key == #[trigger] prefix_text(name, j);
            if j < n {
                assert(exists|i: int| 0 <= i < n && key == #[trigger] prefix_text(name, i));
            }
        }
    }
    let m0 = old.report.missing_category_sources();
    let mb = before.report.missing_category_sources();
    let m1 = after.report.missing_category_sources();
    assert(m1.subrange(0, m0.len() as int) =~= m0) by {
        assert forall|j: int| 0 <= j < m0.len() implies m1[j] == m0[j] by {
            assert(m1.subrange(0, mb.len() as int)[j] == mb[j]);
            assert(mb.subrange(0, m0.len() as int)[j] == m0[j]);
        }
    }
    assert forall|j: int| #![trigger m1[j]] m0.len() <= j < m1.len() implies {
        &&& m1[j].full_category_name@ == name
        &&& m1[j].requester_uuid == requester_uuid
        &&& after.report.sources().contains_key(m1[j].source_file_name@)
        &&& after.report.sources()[m1[j].source_file_name@] == source_file_uuid
    } by {
        if j < mb.len() {
            assert(m1.subrange(0, mb.len() as int)[j] == mb[j]);
            assert(mb[j] == m1[j]);
        }
    }
    let any_before = exists|j: int| 0 <= j < n && !t0.contains_key(#[trigger] prefix_text(name, j));
    let any_after = exists|j: int| 0 <= j < n + 1 && !t0.contains_key(#[trigger] prefix_text(name, j));
    assert(any_after);
    let n0 = old.report.missing_category_names();
    let nb = before.report.missing_category_names();
    let n1 = after.report.missing_category_names();
    if any_before && !lists_text(n0, name) {
        assert(nb[nb.len() - 1]@ == name);
        assert(lists_text(nb, name));
    }
    if !lists_text(n0, name) && !any_before {
        assert(n1.subrange(0, n0.len() as int) =~= n0);
    }
}

/// A text holds its separator at most once per character.
proof fn lemma_char_positions_len(s: Seq<char>, pat: char)
    ensures
        char_positions(s, pat).len() <= s.len(),
    decreases s.len(),
{
    if s.len() > 0 {
        lemma_char_positions_len(s.drop_last(), pat);
    }
}

/// The table of full names and the entities' parents after registering
/// the category and then those under it.
pub open spec fn register_node(t: Map<Seq<char>, u128>, m: Map<u128, u128>, c: Category) -> (Map<Seq<char>, u128>, Map<u128, u128>)
    decreases c,
{
    let t1 = t.insert(c.full_category_name@, c.guid);
    let m1 = match c.parent {
        Some(p) => m.insert(c.guid, p),
        None => m,
    };
    register_level(t1, m1, c.children@)
}

/// The table of full names and the entities' parents after registering the
/// categories of the level in order, each before those under it.
pub open spec fn register_level(t: Map<Seq<char>, u128>, m: Map<u128, u128>, s: Seq<(u128, Category)>) -> (Map<Seq<char>, u128>, Map<u128, u128>)
    decreases s,
{
    if s.len() == 0 {
        (t, m)
    } else {
        let r = register_node(t, m, s[0].1);
        register_level(r.0, r.1, s.drop_first())
    }
}

/// Adds the pairs of `source` to `target`, replacing what `target` had for
/// the same keys.
fn extend_active(target: &mut BTreeMap<u128, bool>, source: &BTreeMap<u128, bool>)
    ensures
        final(target)@ == old(target)@.union_prefer_right(source@),
{
    let ghost start = target@;
    let ghost src = source@;
    for pair in it: source.iter()
        invariant
            src == source@,
            forall|k: u128| #[trigger] target@.contains_key(k) <==> start.contains_key(k)
                || exists|i: int| 0 <= i < it.index() && *it.seq()[i].0 == k,
            forall|k: u128| #[trigger] target@.contains_key(k) ==> target@[k] == (
                if src.contains_key(k) && exists|i: int| 0 <= i < it.index() && *it.seq()[i].0 == k { src[k] } else { start[k] }),
    {
        let (k, v) = pair;
        target.insert(*k, *v);
    }
    assert(target@ =~= start.union_prefer_right(src));
}

/// `new` is `old` with one more record last: the file path, what asked
/// for it, and the name of its source file, which has that UUID.
pub open spec fn missing_file_recorded(
    old: Seq<PackageElementSource>,
    new: Seq<PackageElementSource>,
    file_path: Seq<char>,
    requester: ElementReference,
    sources: Map<Seq<char>, u128>,
    source_file_uuid: u128,
) -> bool {
    &&& new.len() == old.len() + 1
    &&& new.subrange(0, old.len() as int) == old
    &&& new.last().file_path@ == file_path
    &&& new.last().requester_reference == requester
    &&& sources.contains_key(new.last().source_file_name@)
    &&& sources[new.last().source_file_name@] == source_file_uuid
}

/// The texture path is counted as missing once: listed and counted unless
/// it was listed already.
pub open spec fn texture_counted(old: PackageImportReport, new: PackageImportReport, file_path: Seq<char>) -> bool {
    if lists_text(old.missing_texture_paths(), file_path) {
        &&& new.missing_texture_paths() == old.missing_texture_paths()
        &&& new.counts() == old.counts()
    } else {
        &&& new.missing_texture_paths().len() == old.missing_texture_paths().len() + 1
        &&& new.missing_texture_paths().subrange(0, old.missing_texture_paths().len() as int) == old.missing_texture_paths()
        &&& new.missing_texture_paths().last()@ == file_path
        &&& new.counts() == (PackageImportStatistics {
            missing_textures: (old.counts().missing_textures + 1) as usize,
            ..old.counts()
        })
    }
}

/// The full names of the categories of a level and of all those under
/// them.
pub open spec fn level_full_names(s: Seq<(u128, Category)>) -> Set<Seq<char>>
    decreases s,
{
    if s.len() == 0 {
        Set::empty()
    } else {
        node_full_names(s[0].1).union(level_full_names(s.drop_first()))
    }
}

/// The full names of the category and of all those under it.
pub open spec fn node_full_names(c: Category) -> Set<Seq<char>>
    decreases c,
{
    set![c.full_category_name@].union(level_full_names(c.children@))
}

/// Registering a level adds exactly the full names found in it.
proof fn lemma_register_level_names(t: Map<Seq<char>, u128>, m: Map<u128, u128>, s: Seq<(u128, Category)>)
    ensures
        register_level(t, m, s).0.dom() == t.dom().union(level_full_names(s)),
    decreases s,
{
    if s.len() > 0 {
        assert(decreases_to!(s => s[0]));
        assert(decreases_to!(s[0] => s[0].1));
        lemma_register_node_names(t, m, s[0].1);
        let r = register_node(t, m, s[0].1);
        lemma_register_level_names(r.0, r.1, s.drop_first());
        assert(register_level(t, m, s).0.dom() =~= t.dom().union(level_full_names(s)));
    } else {
        assert(register_level(t, m, s).0.dom() =~= t.dom().union(level_full_names(s)));
    }
}

/// Registering a category adds exactly its full name and those under it.
proof fn lemma_register_node_names(t: Map<Seq<char>, u128>, m: Map<u128, u128>, c: Category)
    ensures
        register_node(t, m, c).0.dom() == t.dom().union(node_full_names(c)),
    decreases c,
{
    let t1 = t.insert(c.full_category_name@, c.guid);
    let m1 = match c.parent {
        Some(p) => m.insert(c.guid, p),
        None => m,
    };
    assert(decreases_to!(c => c.children));
    assert(decreases_to!(c.children => c.children@));
    lemma_register_level_names(t1, m1, c.children@);
    assert(register_node(t, m, c).0.dom() =~= t.dom().union(node_full_names(c)));
}

/// Law: every category of the tree, at any depth, is known by its full name once
/// the categories are registered, and no other name is.
pub proof fn law_every_category_is_registered(categories: Seq<(u128, Category)>)
    ensures
        register_level(Map::empty(), Map::empty(), categories).0.dom() == level_full_names(categories),
{
    lemma_register_level_names(Map::empty(), Map::empty(), categories);
    assert(Map::<Seq<char>, u128>::empty().dom().union(level_full_names(categories)) =~= level_full_names(categories));
}

/// The categories of a level and of all those under them that have a
/// parent, with that parent: pairs (UUID, parent UUID).
pub open spec fn level_parent_links(s: Seq<(u128, Category)>) -> Set<(u128, u128)>
    decreases s,
{
    if s.len() == 0 {
        Set::empty()
    } else {
        node_parent_links(s[0].1).union(level_parent_links(s.drop_first()))
    }
}

/// The category's own link to its parent, if any, and those under it.
pub open spec fn node_parent_links(c: Category) -> Set<(u128, u128)>
    decreases c,
{
    let own = match c.parent {
        Some(p) => set![(c.guid, p)],
        None => Set::empty(),
    };
    own.union(level_parent_links(c.children@))
}

/// The UUIDs of the categories of a level, at any depth, that have a
/// parent.
pub open spec fn level_parented(s: Seq<(u128, Category)>) -> Set<u128>
    decreases s,
{
    if s.len() == 0 {
        Set::empty()
    } else {
        node_parented(s[0].1).union(level_parented(s.drop_first()))
    }
}

/// The category's UUID if it has a parent, and those under it that do.
pub open spec fn node_parented(c: Category) -> Set<u128>
    decreases c,
{
    let own = match c.parent {
        Some(_) => set![c.guid],
        None => Set::empty(),
    };
    own.union(level_parented(c.children@))
}

/// Registering a level records a parent for exactly the categories that
/// have one, at any depth, each with one of its parents; other entries
/// are kept.
proof fn lemma_register_level_parents(t: Map<Seq<char>, u128>, m: Map<u128, u128>, s: Seq<(u128, Category)>)
    ensures
        register_level(t, m, s).1.dom() == m.dom().union(level_parented(s)),
        forall|g: u128| #[trigger] register_level(t, m, s).1.contains_key(g) ==> if level_parented(s).contains(g) {
            level_parent_links(s).contains((g, register_level(t, m, s).1[g]))
        } else {
            register_level(t, m, s).1[g] == m[g]
        },
    decreases s,
{
    if s.len() > 0 {
        assert(decreases_to!(s => s[0]));
        assert(decreases_to!(s[0] => s[0].1));
        lemma_register_node_parents(t, m, s[0].1);
        let r = register_node(t, m, s[0].1);
        lemma_register_level_parents(r.0, r.1, s.drop_first());
        assert(register_level(t, m, s).1.dom() =~= m.dom().union(level_parented(s)));
    } else {
        assert(register_level(t, m, s).1.dom() =~= m.dom().union(level_parented(s)));
    }
}

/// Registering a category records its parent, if any, and those under it.
proof fn lemma_register_node_parents(t: Map<Seq<char>, u128>, m: Map<u128, u128>, c: Category)
    ensures
        register_node(t, m, c).1.dom() == m.dom().union(node_parented(c)),
        forall|g: u128| #[trigger] register_node(t, m, c).1.contains_key(g) ==> if node_parented(c).contains(g) {
            node_parent_links(c).contains((g, register_node(t, m, c).1[g]))
        } else {
            register_node(t, m, c).1[g] == m[g]
        },
    decreases c,
{
    let t1 = t.insert(c.full_category_name@, c.guid);
    let m1 = match c.parent {
        Some(p) => m.insert(c.guid, p),
        None => m,
    };
    assert(decreases_to!(c => c.children));
    assert(decreases_to!(c.children => c.children@));
    lemma_register_level_parents(t1, m1, c.children@);
    assert(register_node(t, m, c).1.dom() =~= m.dom().union(node_parented(c)));
}

/// Law: once the categories are registered, every category at any depth
/// that has a parent is recorded with it, and nothing else is recorded,
/// when no UUID is given two different parents in the tree.
pub proof fn law_every_parent_is_registered(categories: Seq<(u128, Category)>)
    requires
        forall|g: u128, p: u128, q: u128| level_parent_links(categories).contains((g, p))
            && level_parent_links(categories).contains((g, q)) ==> p == q,
    ensures
        forall|g: u128, p: u128| #[trigger] level_parent_links(categories).contains((g, p)) ==>
            register_level(Map::empty(), Map::empty(), categories).1.contains_key(g)
            && register_level(Map::empty(), Map::empty(), categories).1[g] == p,
        forall|g: u128| #[trigger] register_level(Map::empty(), Map::empty(), categories).1.contains_key(g)
            ==> level_parent_links(categories).contains((g, register_level(Map::empty(), Map::empty(), categories).1[g])),
{
    lemma_register_level_parents(Map::empty(), Map::empty(), categories);
    lemma_links_parented(categories);
    let r = register_level(Map::empty(), Map::empty(), categories).1;
    assert forall|g: u128, p: u128| #[trigger] level_parent_links(categories).contains((g, p)) implies
        r.contains_key(g) && r[g] == p by {
        assert(level_parented(categories).contains(g));
        assert(r.dom().contains(g));
        assert(level_parent_links(categories).contains((g, r[g])));
    }
}

/// A category linked to a parent is one that has a parent.
proof fn lemma_links_parented(s: Seq<(u128, Category)>)
    ensures
        forall|g: u128, p: u128| #[trigger] level_parent_links(s).contains((g, p)) ==> level_parented(s).contains(g),
    decreases s,
{
    if s.len() > 0 {
        assert(decreases_to!(s => s[0]));
        assert(decreases_to!(s[0] => s[0].1));
        lemma_node_links_parented(s[0].1);
        lemma_links_parented(s.drop_first());
        assert forall|g: u128, p: u128| #[trigger] level_parent_links(s).contains((g, p)) implies level_parented(s).contains(g) by {
            if node_parent_links(s[0].1).contains((g, p)) {
                assert(node_parented(s[0].1).contains(g));
            } else {
                assert(level_parent_links(s.drop_first()).contains((g, p)));
                assert(level_parented(s.drop_first()).contains(g));
            }
        }
    }
}

proof fn lemma_node_links_parented(c: Category)
    ensures
        forall|g: u128, p: u128| #[trigger] node_parent_links(c).contains((g, p)) ==> node_parented(c).contains(g),
    decreases c,
{
    assert(decreases_to!(c => c.children));
    assert(decreases_to!(c.children => c.children@));
    lemma_links_parented(c.children@);
    assert forall|g: u128, p: u128| #[trigger] node_parent_links(c).contains((g, p)) implies node_parented(c).contains(g) by {
        if level_parent_links(c.children@).contains((g, p)) {
            assert(level_parented(c.children@).contains(g));
        } else {
            assert(c.parent is Some);
            assert(g == c.guid);
        }
    }
}

/// The full names of the categories of a level and of all those under
/// them, each with the UUID of a category of that name: pairs (full name,
/// UUID).
pub open spec fn level_name_links(s: Seq<(u128, Category)>) -> Set<(Seq<char>, u128)>
    decreases s,
{
    if s.len() == 0 {
        Set::empty()
    } else {
        node_name_links(s[0].1).union(level_name_links(s.drop_first()))
    }
}

/// The category's own (full name, UUID) pair and those under it.
pub open spec fn node_name_links(c: Category) -> Set<(Seq<char>, u128)>
    decreases c,
{
    set![(c.full_category_name@, c.guid)].union(level_name_links(c.children@))
}

/// Registering a level gives each name found in it the UUID of one of its
/// categories of that name, and keeps the other entries.
proof fn lemma_register_level_uuids(t: Map<Seq<char>, u128>, m: Map<u128, u128>, s: Seq<(u128, Category)>)
    ensures
        forall|k: Seq<char>| #[trigger] register_level(t, m, s).0.contains_key(k) ==> if level_full_names(s).contains(k) {
            level_name_links(s).contains((k, register_level(t, m, s).0[k]))
        } else {
            register_level(t, m, s).0[k] == t[k]
        },
    decreases s,
{
    if s.len() > 0 {
        assert(decreases_to!(s => s[0]));
        assert(decreases_to!(s[0] => s[0].1));
        lemma_register_node_uuids(t, m, s[0].1);
        let r = register_node(t, m, s[0].1);
        lemma_register_level_uuids(r.0, r.1, s.drop_first());
        lemma_register_level_names(r.0, r.1, s.drop_first());
        let res = register_level(t, m, s).0;
        assert(res == register_level(r.0, r.1, s.drop_first()).0);
        assert forall|k: Seq<char>| #[trigger] res.contains_key(k) implies if level_full_names(s).contains(k) {
            level_name_links(s).contains((k, res[k]))
        } else {
            res[k] == t[k]
        } by {
            if level_full_names(s.drop_first()).contains(k) {
                assert(level_name_links(s.drop_first()).contains((k, res[k])));
            } else {
                assert(r.0.contains_key(k));
                assert(res[k] == r.0[k]);
                if node_full_names(s[0].1).contains(k) {
                    assert(node_name_links(s[0].1).contains((k, r.0[k])));
                }
            }
        }
    }
}

/// Registering a category gives its name and those under it the UUID of a
/// category of that name.
proof fn lemma_register_node_uuids(t: Map<Seq<char>, u128>, m: Map<u128, u128>, c: Category)
    ensures
        forall|k: Seq<char>| #[trigger] register_node(t, m, c).0.contains_key(k) ==> if node_full_names(c).contains(k) {
            node_name_links(c).contains((k, register_node(t, m, c).0[k]))
        } else {
            register_node(t, m, c).0[k] == t[k]
        },
    decreases c,
{
    let t1 = t.insert(c.full_category_name@, c.guid);
    let parents1 = match c.parent {
        Some(p) => m.insert(c.guid, p),
        None => m,
    };
    assert(decreases_to!(c => c.children));
    assert(decreases_to!(c.children => c.children@));
    lemma_register_level_uuids(t1, parents1, c.children@);
    lemma_register_level_names(t1, parents1, c.children@);
}

/// Law: once the categories are registered, each known full name maps to
/// the UUID of a category of that name in the tree, at any depth.
pub proof fn law_registered_names_map_to_their_categories(categories: Seq<(u128, Category)>)
    ensures
        forall|k: Seq<char>| #[trigger] register_level(Map::empty(), Map::empty(), categories).0.contains_key(k)
            ==> level_name_links(categories).contains((k, register_level(Map::empty(), Map::empty(), categories).0[k])),
{
    lemma_register_level_uuids(Map::empty(), Map::empty(), categories);
    lemma_register_level_names(Map::empty(), Map::empty(), categories);
}

} // verus!
