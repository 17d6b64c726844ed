//! Marker categories as a pack defines them, and how the flat list read
//! from the XML files is put back together: a category whose name is dotted
//! (`a.b.c`) without its parents being defined gets them made up, then
//! every category is placed under its parent.

use vstd::prelude::*;
use vstd::multiset::Multiset;
use crate::category_name::{
    chunk, char_positions, count_matches, law_chunk_has_no_separator, law_parent_and_last_chunk,
    law_prefix_extends, lemma_char_positions_facts, lemma_prefix_chunks, lemma_single_chunk, name_path, nth_chunk,
    prefix_before, prefix_until_nth_char,
};
use crate::package::{text_views, PackageImportReport};
use crate::ordered_maps::{
    distinct_keys, has_key, inserted_last, keys_kept, lemma_inserted_last_keeps_keys, lemma_insert_new_key, lemma_push_new_key, pass_entries, value_at, pass_get, pass_insert, pass_keys, pass_new,
    source_entries, sources_clone, sources_new, sources_pairs, CategoryPass, EntitySources,
};
use crate::uuids::new_uuid;
use crate::clock::{millis_since, now};

verus! {

broadcast use vstd::multiset::group_multiset_axioms;

/// A category as read from a pack's files, before it is placed in the tree.
#[derive(Debug)]
pub struct RawCategory {
    pub guid: u128,
    pub parent_name: Option<String>,
    pub display_name: String,
    pub relative_category_name: String,
    pub full_category_name: String,
    pub separator: bool,
    pub default_enabled: bool,
    /// The elements that asked for this category, with their source files.
    pub sources: EntitySources,
}

/// The text of an optional name.
pub open spec fn opt_text(o: Option<String>) -> Option<Seq<char>> {
    match o {
        Some(s) => Some(s@),
        None => None,
    }
}

/// Two raw categories with the same content.
pub open spec fn raw_same(a: RawCategory, b: RawCategory) -> bool {
    &&& a.guid == b.guid
    &&& opt_text(a.parent_name) == opt_text(b.parent_name)
    &&& a.display_name@ == b.display_name@
    &&& a.relative_category_name@ == b.relative_category_name@
    &&& a.full_category_name@ == b.full_category_name@
    &&& a.separator == b.separator
    &&& a.default_enabled == b.default_enabled
    &&& source_entries(a.sources) == source_entries(b.sources)
}

impl Clone for RawCategory {
    fn clone(&self) -> (r: Self)
        ensures
            raw_same(r, *self),
    {
        RawCategory {
            guid: self.guid,
            parent_name: match &self.parent_name {
                Some(p) => Some(p.clone()),
                None => None,
            },
            display_name: self.display_name.clone(),
            relative_category_name: self.relative_category_name.clone(),
            full_category_name: self.full_category_name.clone(),
            separator: self.separator,
            default_enabled: self.default_enabled,
            sources: sources_clone(&self.sources),
        }
    }
}

/// The number of dots in the relative name.
pub open spec fn dots(r: RawCategory) -> int {
    char_positions(r.relative_category_name@, '.').len() as int
}

/// A category defined only by its dotted full name: its relative name is
/// its full name and holds a dot. Its parents may be missing.
pub open spec fn needs_split(r: RawCategory) -> bool {
    &&& dots(r) > 0
    &&& r.relative_category_name@ == r.full_category_name@
}

/// `new` is `old` named by its last chunk, under its longest proper prefix.
pub open spec fn split_from(new: RawCategory, old: RawCategory) -> bool {
    let rel = old.relative_category_name@;
    let c = dots(old);
    &&& new.guid == old.guid
    &&& new.full_category_name@ == old.full_category_name@
    &&& new.separator == old.separator
    &&& new.default_enabled == old.default_enabled
    &&& source_entries(new.sources) == source_entries(old.sources)
    &&& new.relative_category_name@ == chunk(rel, '.', c)
    &&& new.display_name@ == chunk(rel, '.', c)
    &&& opt_text(new.parent_name) == prefix_before(rel, '.', c - 1)
}

/// `new` is `old` with its parent name turned into the full name of the
/// parent entry of `first`, or none when `first` has no such entry.
pub open spec fn resolved_from(new: RawCategory, old: RawCategory, first: Seq<(Seq<char>, RawCategory)>) -> bool {
    &&& new.guid == old.guid
    &&& new.display_name@ == old.display_name@
    &&& new.relative_category_name@ == old.relative_category_name@
    &&& new.full_category_name@ == old.full_category_name@
    &&& new.separator == old.separator
    &&& new.default_enabled == old.default_enabled
    &&& source_entries(new.sources) == source_entries(old.sources)
    &&& opt_text(new.parent_name) == match old.parent_name {
        Some(p) => if has_key(first, p@) {
            Some(value_at(first, p@).full_category_name@)
        } else {
            None
        },
        None => None,
    }
}

/// `v` is the parent category made up, as ancestor `n` of `e`, for the
/// prefix of `e`'s name before its dot `n`.
pub open spec fn made_up_from(v: RawCategory, e: RawCategory, n: int) -> bool {
    let rel = e.relative_category_name@;
    let key = prefix_before(rel, '.', n)->0;
    &&& 0 <= n < dots(e)
    &&& v.full_category_name@ == key
    &&& v.relative_category_name@ == chunk(rel, '.', n)
    &&& v.display_name@ == chunk(rel, '.', n)
    &&& opt_text(v.parent_name) == (if n == 0 { None } else { prefix_before(key, '.', n - 1) })
    &&& !v.separator
    &&& v.default_enabled == e.default_enabled
    &&& source_entries(v.sources).len() == 0
}

/// Every proper prefix of the dotted name of `e` is a key of one of the
/// two passes.
pub open spec fn ancestors_present(
    first: Seq<(Seq<char>, RawCategory)>,
    second: Seq<(Seq<char>, RawCategory)>,
    e: RawCategory,
) -> bool {
    forall|n: int| 0 <= n < dots(e) ==>
        has_key(first, #[trigger] prefix_before(e.relative_category_name@, '.', n)->0)
        || has_key(second, prefix_before(e.relative_category_name@, '.', n)->0)
}

/// What one pass makes of the categories of `first`, in `second`.
pub open spec fn pass_result(first: Seq<(Seq<char>, RawCategory)>, second: Seq<(Seq<char>, RawCategory)>) -> bool {
    &&& distinct_keys(second)
    &&& forall|i: int| 0 <= i < first.len() ==> has_key(second, #[trigger] first[i].0)
    &&& forall|i: int| #![trigger first[i]] 0 <= i < first.len() && needs_split(first[i].1) ==> {
        &&& split_from(value_at(second, first[i].0), first[i].1)
        &&& ancestors_present(first, second, first[i].1)
    }
    &&& forall|i: int| #![trigger first[i]] 0 <= i < first.len() && !needs_split(first[i].1)
        ==> resolved_from(value_at(second, first[i].0), first[i].1, first)
    &&& forall|j: int| #![trigger second[j]] 0 <= j < second.len() && !has_key(first, second[j].0)
        ==> exists|i: int, n: int| 0 <= i < first.len() && needs_split(first[i].1)
            && made_up_from(second[j].1, first[i].1, n)
}

/// How many source entries the categories that need splitting hold, among
/// the first `i` entries.
pub open spec fn split_sources(first: Seq<(Seq<char>, RawCategory)>, i: int) -> int
    decreases i,
{
    if i <= 0 {
        0
    } else {
        split_sources(first, i - 1) + if needs_split(first[i - 1].1) {
            source_entries(first[i - 1].1.sources).len() as int
        } else {
            0
        }
    }
}

proof fn lemma_split_sources_monotonic(first: Seq<(Seq<char>, RawCategory)>, a: int, b: int)
    requires
        a <= b,
    ensures
        split_sources(first, a) <= split_sources(first, b),
    decreases b - a,
{
    if a < b {
        lemma_split_sources_monotonic(first, a, b - 1);
    }
}

/// The source files that the categories needing a split were asked from
/// are known to the report.
pub open spec fn split_sources_known(first: Seq<(Seq<char>, RawCategory)>, known: Map<Seq<char>, u128>) -> bool {
    forall|i: int, j: int| #![trigger first[i], source_entries(first[i].1.sources)[j]]
        0 <= i < first.len() && needs_split(first[i].1) && 0 <= j < source_entries(first[i].1.sources).len()
        ==> known.values().contains(source_entries(first[i].1.sources)[j].1)
}

/// The state of a pass after the first `i` entries of `first`, apart from
/// the made-up parents.
pub open spec fn pass_progress(first: Seq<(Seq<char>, RawCategory)>, second: Seq<(Seq<char>, RawCategory)>, i: int) -> bool {
    &&& distinct_keys(second)
    &&& forall|q: int| 0 <= q < i ==> has_key(second, #[trigger] first[q].0)
    &&& forall|q: int| #![trigger first[q]] 0 <= q < i && needs_split(first[q].1) ==> {
        &&& split_from(value_at(second, first[q].0), first[q].1)
        &&& ancestors_present(first, second, first[q].1)
    }
    &&& forall|q: int| #![trigger first[q]] 0 <= q < i && !needs_split(first[q].1)
        ==> resolved_from(value_at(second, first[q].0), first[q].1, first)
    &&& forall|j: int| #![trigger second[j]] 0 <= j < second.len() && has_key(first, second[j].0)
        ==> exists|q: int| 0 <= q < i && second[j].0 == first[q].0
}

/// Each entry of `second` that is not in `first` was made up for one of
/// the first `i` entries of `first`.
pub open spec fn made_up_by(first: Seq<(Seq<char>, RawCategory)>, second: Seq<(Seq<char>, RawCategory)>, i: int) -> bool {
    forall|j: int| #![trigger second[j]] 0 <= j < second.len() && !has_key(first, second[j].0)
        ==> exists|q: int, n: int| 0 <= q < i && needs_split(first[q].1)
            && made_up_from(second[j].1, first[q].1, n)
}

/// Appending a made-up parent keeps the progress of a pass.
proof fn lemma_progress_made_up(
    first: Seq<(Seq<char>, RawCategory)>,
    second: Seq<(Seq<char>, RawCategory)>,
    i: int,
    k: Seq<char>,
    v: RawCategory,
    n: int,
)
    requires
        pass_progress(first, second, i),
        made_up_by(first, second, i + 1),
        0 <= i < first.len(),
        needs_split(first[i].1),
        !has_key(first, k),
        !has_key(second, k),
        made_up_from(v, first[i].1, n),
    ensures
        pass_progress(first, second.push((k, v)), i),
        made_up_by(first, second.push((k, v)), i + 1),
{
    let s = second.push((k, v));
    lemma_push_new_key(second, k, v);
    assert forall|q: int| #![trigger first[q]] 0 <= q < i && needs_split(first[q].1) implies
        ancestors_present(first, s, first[q].1) by {
        assert forall|m: int| 0 <= m < dots(first[q].1) implies
            has_key(first, #[trigger] prefix_before(first[q].1.relative_category_name@, '.', m)->0)
            || has_key(s, prefix_before(first[q].1.relative_category_name@, '.', m)->0) by {
        }
    }
    assert forall|j: int| #![trigger s[j]] 0 <= j < s.len() && !has_key(first, s[j].0)
        implies exists|q: int, m: int| 0 <= q < i + 1 && needs_split(first[q].1)
            && made_up_from(s[j].1, first[q].1, m) by {
        if j == second.len() {
            assert(made_up_from(s[j].1, first[i].1, n));
        } else {
            assert(s[j] == second[j]);
        }
    }
    assert forall|j: int| #![trigger s[j]] 0 <= j < s.len() && has_key(first, s[j].0)
        implies exists|q: int| 0 <= q < i && s[j].0 == first[q].0 by {
        assert(j < second.len());
        assert(s[j] == second[j]);
    }
}

/// One pass over the raw categories, in order. A category whose relative
/// name is its dotted full name gets each missing ancestor made up with a
/// fresh UUID, then is renamed after its last chunk under its parent; every
/// other category gets its parent name turned into the full name of its
/// parent. Also tells whether a category was made up. Categories found late
/// are recorded in the report.
#[verifier::rlimit(100)]
#[verifier::spinoff_prover]
fn category_pass(first: &CategoryPass, report: &mut PackageImportReport) -> (res: (CategoryPass, bool))
    requires
        old(report).wf(),
        distinct_keys(pass_entries(*first)),
        split_sources_known(pass_entries(*first), old(report).sources()),
        old(report).counts().missing_categories + split_sources(pass_entries(*first), pass_entries(*first).len() as int)
            < usize::MAX,
    ensures
        pass_result(pass_entries(*first), pass_entries(res.0)),
        res.1 <==> exists|j: int| 0 <= j < pass_entries(res.0).len()
            && !has_key(pass_entries(*first), #[trigger] pass_entries(res.0)[j].0),
        !res.1 ==> entry_keys(pass_entries(res.0)) == entry_keys(pass_entries(*first)),
        res.1 ==> exists|q: int, n: int| 0 <= q < pass_entries(*first).len() && needs_split(pass_entries(*first)[q].1)
            && 0 <= n < dots(pass_entries(*first)[q].1) && !has_key(pass_entries(*first),
                #[trigger] prefix_before(pass_entries(*first)[q].1.relative_category_name@, '.', n)->0),
        final(report).wf(),
        final(report).sources() == old(report).sources(),
        final(report).counts().missing_categories <= old(report).counts().missing_categories
            + split_sources(pass_entries(*first), pass_entries(*first).len() as int),
        keys_kept(old(report).late(), final(report).late()),
        forall|q: int| #![trigger pass_entries(*first)[q]] 0 <= q < pass_entries(*first).len()
            && needs_split(pass_entries(*first)[q].1) ==> has_key(final(report).late(), pass_entries(*first)[q].1.guid),
        forall|j: int| #![trigger pass_entries(res.0)[j]] 0 <= j < pass_entries(res.0).len()
            && !has_key(pass_entries(*first), pass_entries(res.0)[j].0)
            ==> has_key(final(report).late(), pass_entries(res.0)[j].1.guid),
{
    let ghost f = pass_entries(*first);
    let ghost start = report.counts().missing_categories;
    let keys = pass_keys(first);
    let mut second = pass_new();
    let mut need_a_pass = false;
    let mut i: usize = 0;
    while i < keys.len()
        invariant
            f == pass_entries(*first),
            distinct_keys(f),
            keys@.len() == f.len(),
            forall|q: int| 0 <= q < keys@.len() ==> #[trigger] keys@[q]@ == f[q].0,
            0 <= i <= keys.len(),
            pass_progress(f, pass_entries(second), i as int),
            made_up_by(f, pass_entries(second), i as int),
            need_a_pass <==> exists|j: int| 0 <= j < pass_entries(second).len()
                && !has_key(f, #[trigger] pass_entries(second)[j].0),
            !need_a_pass ==> entry_keys(pass_entries(second)) == entry_keys(f.take(i as int)),
            need_a_pass ==> exists|q: int, n: int| 0 <= q < f.len() && needs_split(f[q].1) && 0 <= n < dots(f[q].1)
                && !has_key(f, #[trigger] prefix_before(f[q].1.relative_category_name@, '.', n)->0),
            report.wf(),
            report.sources() == old(report).sources(),
            split_sources_known(f, report.sources()),
            start == old(report).counts().missing_categories,
            start + split_sources(f, f.len() as int) < usize::MAX,
            report.counts().missing_categories <= start + split_sources(f, i as int),
            keys_kept(old(report).late(), report.late()),
            forall|q: int| #![trigger f[q]] 0 <= q < i && needs_split(f[q].1) ==> has_key(report.late(), f[q].1.guid),
            forall|j: int| #![trigger pass_entries(second)[j]] 0 <= j < pass_entries(second).len()
                && !has_key(f, pass_entries(second)[j].0) ==> has_key(report.late(), pass_entries(second)[j].1.guid),
        decreases keys.len() - i,
    {
        let key = &keys[i];
        let value = match pass_get(first, key) {
            Some(v) => v,
            None => {
                proof {
                    assert(f[i as int].0 == key@);
                }
                return (second, need_a_pass);
            },
        };
        proof {
            let a = choose|a: int| 0 <= a < f.len() && f[a].0 == key@ && f[a].1 == *value;
            assert(f[i as int].0 == key@);
            assert(a == i);
            assert(!has_key(pass_entries(second), key@)) by {
                if has_key(pass_entries(second), key@) {
                    let j = choose|j: int| 0 <= j < pass_entries(second).len() && pass_entries(second)[j].0 == key@;
                    assert(has_key(f, pass_entries(second)[j].0));
                    let q = choose|q: int| 0 <= q < i && pass_entries(second)[j].0 == f[q].0;
                }
            }
            lemma_split_sources_monotonic(f, i + 1, f.len() as int);
        }
        let mut to_insert = value.clone();
        let count = count_matches(value.relative_category_name.as_str(), '.');
        let rel_is_full = value.relative_category_name.eq(&value.full_category_name);
        if count > 0 && rel_is_full {
            let mut n: usize = 0;
            let mut last_name: Option<String> = None;
            while n < count
                invariant
                    f == pass_entries(*first),
                    distinct_keys(f),
                    0 <= i < f.len(),
                    f[i as int].1 == *value,
                    f[i as int].0 == key@,
                    needs_split(*value),
                    count == dots(*value),
                    0 <= n <= count,
                    pass_progress(f, pass_entries(second), i as int),
                    !has_key(pass_entries(second), key@),
                    forall|m: int| 0 <= m < n ==>
                        has_key(f, #[trigger] prefix_before(value.relative_category_name@, '.', m)->0)
                        || has_key(pass_entries(second), prefix_before(value.relative_category_name@, '.', m)->0),
                    made_up_by(f, pass_entries(second), i + 1),
                    n > 0 ==> opt_text(last_name) == prefix_before(value.relative_category_name@, '.', n - 1),
                    need_a_pass <==> exists|j: int| 0 <= j < pass_entries(second).len()
                        && !has_key(f, #[trigger] pass_entries(second)[j].0),
                    !need_a_pass ==> entry_keys(pass_entries(second)) == entry_keys(f.take(i as int)),
                    need_a_pass ==> exists|q: int, n: int| 0 <= q < f.len() && needs_split(f[q].1) && 0 <= n < dots(f[q].1)
                        && !has_key(f, #[trigger] prefix_before(f[q].1.relative_category_name@, '.', n)->0),
                    report.wf(),
                    report.sources() == old(report).sources(),
                    report.counts().missing_categories <= start + split_sources(f, i as int),
                    keys_kept(old(report).late(), report.late()),
                    forall|q: int| #![trigger f[q]] 0 <= q < i && needs_split(f[q].1) ==> has_key(report.late(), f[q].1.guid),
                    forall|j: int| #![trigger pass_entries(second)[j]] 0 <= j < pass_entries(second).len()
                        && !has_key(f, pass_entries(second)[j].0) ==> has_key(report.late(), pass_entries(second)[j].1.guid),
                decreases count - n,
            {
                let parent_name = match prefix_until_nth_char(value.relative_category_name.as_str(), '.', n) {
                    Some(p) => p,
                    None => {
                        proof {
                            assert(false);
                        }
                        String::new()
                    },
                };
                let ghost pkey = prefix_before(value.relative_category_name@, '.', n as int)->0;
                assert(parent_name@ == pkey);
                match pass_get(first, &parent_name) {
                    Some(parent_category) => {
                        let ghost l0 = report.late();
                        report.found_category_late(parent_name.as_str(), parent_category.guid);
                        proof {
                            lemma_inserted_last_keeps_keys(l0, parent_category.guid, parent_name@);
                        }
                        last_name = Some(parent_name);
                    },
                    None => {
                        proof {
                            assert(!has_key(f, pkey));
                            assert(f[i as int].1 == *value);
                            assert(prefix_before(f[i as int].1.relative_category_name@, '.', n as int)->0 == pkey);
                        }
                        match pass_get(&second, &parent_name) {
                            Some(parent_category) => {
                                let g = parent_category.guid;
                                let ghost l0 = report.late();
                                report.found_category_late(parent_name.as_str(), g);
                                proof {
                                    lemma_inserted_last_keeps_keys(l0, g, parent_name@);
                                }
                                last_name = Some(parent_name);
                            },
                            None => {
                                let uuid = new_uuid();
                                let relative_category_name = nth_chunk(value.relative_category_name.as_str(), '.', n);
                                let grand_parent = if n == 0 {
                                    None
                                } else {
                                    prefix_until_nth_char(parent_name.as_str(), '.', n - 1)
                                };
                                let made = RawCategory {
                                    default_enabled: value.default_enabled,
                                    guid: uuid,
                                    relative_category_name: relative_category_name.clone(),
                                    display_name: relative_category_name,
                                    parent_name: grand_parent,
                                    separator: false,
                                    full_category_name: parent_name.clone(),
                                    sources: sources_new(),
                                };
                                assert(made_up_from(made, *value, n as int));
                                last_name = Some(made.full_category_name.clone());
                                let ghost l0 = report.late();
                                report.found_category_late(made.full_category_name.as_str(), uuid);
                                proof {
                                    lemma_inserted_last_keeps_keys(l0, uuid, made.full_category_name@);
                                }
                                let ghost before = pass_entries(second);
                                proof {
                                    lemma_insert_new_key(before, pkey, made);
                                    lemma_progress_made_up(f, before, i as int, pkey, made, n as int);
                                    lemma_push_new_key(before, pkey, made);
                                }
                                pass_insert(&mut second, parent_name, made);
                                need_a_pass = true;
                                proof {
                                    let s = pass_entries(second);
                                    assert(s[before.len() as int].0 == pkey);
                                    assert forall|m: int| 0 <= m < n + 1 implies
                                        has_key(f, #[trigger] prefix_before(value.relative_category_name@, '.', m)->0)
                                        || has_key(s, prefix_before(value.relative_category_name@, '.', m)->0) by {
                                    }
                                }
                            },
                        }
                    },
                }
                n = n + 1;
            }
            let pairs = sources_pairs(&value.sources);
            let mut j: usize = 0;
            while j < pairs.len()
                invariant
                    0 <= j <= pairs.len(),
                    f == pass_entries(*first),
                    0 <= i < f.len(),
                    f[i as int].1 == *value,
                    needs_split(*value),
                    pairs@ == source_entries(value.sources),
                    split_sources_known(f, report.sources()),
                    report.wf(),
                    report.sources() == old(report).sources(),
                    start + split_sources(f, f.len() as int) < usize::MAX,
                    split_sources(f, i + 1) == split_sources(f, i as int) + pairs.len(),
                    split_sources(f, i + 1) <= split_sources(f, f.len() as int),
                    report.counts().missing_categories <= start + split_sources(f, i as int) + j,
                    keys_kept(old(report).late(), report.late()),
                    forall|q: int| #![trigger f[q]] 0 <= q < i && needs_split(f[q].1) ==> has_key(report.late(), f[q].1.guid),
                    forall|j2: int| #![trigger pass_entries(second)[j2]] 0 <= j2 < pass_entries(second).len()
                        && !has_key(f, pass_entries(second)[j2].0) ==> has_key(report.late(), pass_entries(second)[j2].1.guid),
                decreases pairs.len() - j,
            {
                let (requester, source_file) = pairs[j];
                proof {
                    assert(report.sources().values().contains(source_entries(f[i as int].1.sources)[j as int].1));
                }
                let ghost l0 = report.late();
                report.found_category_late_with_details(&value.full_category_name, value.guid, &requester, &source_file);
                proof {
                    lemma_inserted_last_keeps_keys(l0, value.guid, value.full_category_name@);
                }
                j = j + 1;
            }
            let ghost l0 = report.late();
            report.found_category_late(value.full_category_name.as_str(), value.guid);
            proof {
                lemma_inserted_last_keeps_keys(l0, value.guid, value.full_category_name@);
            }
            let last_chunk = nth_chunk(value.relative_category_name.as_str(), '.', n);
            to_insert.relative_category_name = last_chunk.clone();
            to_insert.display_name = last_chunk;
            to_insert.parent_name = last_name;
            proof {
                assert(split_from(to_insert, *value));
            }
        } else {
            to_insert.parent_name = match &value.parent_name {
                Some(p) => match pass_get(first, p) {
                    Some(parent_category) => Some(parent_category.full_category_name.clone()),
                    None => None,
                },
                None => None,
            };
            proof {
                assert(!needs_split(*value));
                assert(resolved_from(to_insert, *value, f));
                lemma_split_sources_monotonic(f, i as int, i + 1);
            }
        }
        let ghost before = pass_entries(second);
        proof {
            lemma_insert_new_key(before, key@, to_insert);
            lemma_push_new_key(before, key@, to_insert);
        }
        pass_insert(&mut second, key.clone(), to_insert);
        proof {
            let s = pass_entries(second);
            assert(s == before.push((key@, to_insert)));
            if !need_a_pass {
                assert(f.take(i + 1) =~= f.take(i as int).push(f[i as int]));
                assert(entry_keys(s) =~= entry_keys(before).push(key@));
                assert(entry_keys(f.take(i + 1)) =~= entry_keys(f.take(i as int)).push(f[i as int].0));
            }
            assert forall|q: int| 0 <= q < i + 1 implies has_key(s, #[trigger] f[q].0) by {}
            assert forall|q: int| #![trigger f[q]] 0 <= q < i + 1 && needs_split(f[q].1) implies {
                &&& split_from(value_at(s, f[q].0), f[q].1)
                &&& ancestors_present(f, s, f[q].1)
            } by {
                if q < i {
                    assert(f[q].0 != key@);
                }
                assert forall|m: int| 0 <= m < dots(f[q].1) implies
                    has_key(f, #[trigger] prefix_before(f[q].1.relative_category_name@, '.', m)->0)
                    || has_key(s, prefix_before(f[q].1.relative_category_name@, '.', m)->0) by {
                }
            }
            assert forall|q: int| #![trigger f[q]] 0 <= q < i + 1 && !needs_split(f[q].1)
                implies resolved_from(value_at(s, f[q].0), f[q].1, f) by {
                if q < i {
                    assert(f[q].0 != key@);
                }
            }
            assert forall|j: int| #![trigger s[j]] 0 <= j < s.len() && !has_key(f, s[j].0)
                implies exists|q: int, m: int| 0 <= q < i + 1 && needs_split(f[q].1)
                    && made_up_from(s[j].1, f[q].1, m) by {
                assert(j < before.len());
                assert(s[j] == before[j]);
            }
            assert(made_up_by(f, s, i + 1));
            assert forall|j: int| #![trigger s[j]] 0 <= j < s.len() && has_key(f, s[j].0)
                implies exists|q: int| 0 <= q < i + 1 && s[j].0 == f[q].0 by {
                if j < before.len() {
                    assert(s[j] == before[j]);
                }
            }
            assert(need_a_pass <==> exists|j: int| 0 <= j < s.len() && !has_key(f, #[trigger] s[j].0)) by {
                if exists|j: int| 0 <= j < s.len() && !has_key(f, #[trigger] s[j].0) {
                    let j = choose|j: int| 0 <= j < s.len() && !has_key(f, #[trigger] s[j].0);
                    assert(j < before.len());
                    assert(s[j] == before[j]);
                }
                if exists|j: int| 0 <= j < before.len() && !has_key(f, #[trigger] before[j].0) {
                    let j = choose|j: int| 0 <= j < before.len() && !has_key(f, #[trigger] before[j].0);
                    assert(s[j] == before[j]);
                }
            }
        }
        i = i + 1;
    }
    proof {
        let s = pass_entries(second);
        assert forall|q: int| 0 <= q < f.len() implies has_key(s, #[trigger] f[q].0) by {}
        assert(f.take(f.len() as int) =~= f);
    }
    (second, need_a_pass)
}

/// A category in the tree of a pack.
#[derive(Debug)]
pub struct Category {
    pub guid: u128,
    pub parent: Option<u128>,
    pub display_name: String,
    pub relative_category_name: String,
    pub full_category_name: String,
    pub separator: bool,
    pub default_enabled: bool,
    /// The sub-categories, by UUID, in order.
    pub children: Vec<(u128, Category)>,
}

/// `c` is the category made of the raw category `r` under `parent`, with
/// no sub-category yet.
pub open spec fn category_of(c: Category, r: RawCategory, parent: Option<u128>) -> bool {
    &&& c.guid == r.guid
    &&& c.parent == parent
    &&& c.display_name@ == r.display_name@
    &&& c.relative_category_name@ == r.relative_category_name@
    &&& c.full_category_name@ == r.full_category_name@
    &&& c.separator == r.separator
    &&& c.default_enabled == r.default_enabled
    &&& c.children@.len() == 0
}

impl Category {
    /// The category of a raw category, under the given parent, with no
    /// sub-category.
    pub fn from(value: &RawCategory, parent: Option<u128>) -> (c: Self)
        ensures
            category_of(c, *value, parent),
            c.display_name@ == value.display_name@,
            c.separator == value.separator,
            c.default_enabled == value.default_enabled,
            c.guid == value.guid,
            c.parent == parent,
            c.children@.len() == 0,
    {
        Category {
            guid: value.guid,
            parent,
            display_name: value.display_name.clone(),
            relative_category_name: value.relative_category_name.clone(),
            full_category_name: value.full_category_name.clone(),
            separator: value.separator,
            default_enabled: value.default_enabled,
            children: Vec::new(),
        }
    }
}

/// Law: a category made of a raw category keeps what the pack gave it: its
/// UUID, its display name (not its relative name), its separator and
/// default-enabled flags, and both names; it sits under the given parent
/// with nothing under it yet.
pub proof fn law_category_keeps_pack_fields(c: Category, r: RawCategory, parent: Option<u128>)
    requires
        category_of(c, r, parent),
    ensures
        c.display_name@ == r.display_name@,
        c.separator == r.separator,
        c.default_enabled == r.default_enabled,
        c.guid == r.guid,
        c.parent == parent,
        c.relative_category_name@ == r.relative_category_name@,
        c.full_category_name@ == r.full_category_name@,
        c.children@.len() == 0,
{
}

/// The UUIDs of a category and of all the categories under it.
pub open spec fn node_guids(c: Category) -> Multiset<u128>
    decreases c,
{
    Multiset::singleton(c.guid).add(forest_guids(c.children@))
}

/// The UUIDs of all the categories of a forest.
pub open spec fn forest_guids(f: Seq<(u128, Category)>) -> Multiset<u128>
    decreases f,
{
    if f.len() == 0 {
        Multiset::empty()
    } else {
        forest_guids(f.drop_last()).add(node_guids(f.last().1))
    }
}

/// The keys of a list of entries.
pub open spec fn entry_keys<K, V>(entries: Seq<(K, V)>) -> Seq<K> {
    entries.map_values(|e: (K, V)| e.0)
}

/// The parent UUID of a raw category: the UUID of the entry of `first`
/// named by its parent name.
pub open spec fn parent_guid(r: RawCategory, first: Seq<(Seq<char>, RawCategory)>) -> Option<u128> {
    match r.parent_name {
        Some(p) => if has_key(first, p@) {
            Some(value_at(first, p@).guid)
        } else {
            None
        },
        None => None,
    }
}

/// Puts the category last under its UUID, replacing any category of the
/// same UUID. Tells whether the UUID was new.
fn insert_category(v: &mut Vec<(u128, Category)>, c: Category) -> (was_new: bool)
    requires
        distinct_keys(old(v)@),
    ensures
        distinct_keys(final(v)@),
        was_new == !has_key(old(v)@, c.guid),
        final(v)@.len() == (if was_new { old(v)@.len() + 1 } else { old(v)@.len() + 0 }),
        final(v)@.last() == (c.guid, c),
        was_new ==> final(v)@ == old(v)@.push((c.guid, c)),
        forall|k: u128| has_key(final(v)@, k) <==> has_key(old(v)@, k) || k == c.guid,
        forall|k: u128| k != c.guid && has_key(old(v)@, k) ==> value_at(final(v)@, k) == value_at(old(v)@, k),
{
    let g = c.guid;
    let mut i: usize = 0;
    while i < v.len()
        invariant
            0 <= i <= v.len(),
            v@ == old(v)@,
            g == c.guid,
            distinct_keys(old(v)@),
            forall|j: int| 0 <= j < i ==> v@[j].0 != g,
        decreases v.len() - i,
    {
        if v[i].0 == g {
            let ghost before = v@;
            v.remove(i);
            let ghost mid = v@;
            proof {
                assert(mid =~= before.remove(i as int));
                assert forall|a: int, b: int| 0 <= a < b < mid.len() implies mid[a].0 != mid[b].0 by {
                    let aa = if a < i { a } else { a + 1 };
                    let bb = if b < i { b } else { b + 1 };
                    assert(mid[a] == before[aa]);
                    assert(mid[b] == before[bb]);
                }
                assert(!has_key(mid, g)) by {
                    if has_key(mid, g) {
                        let a = choose|a: int| 0 <= a < mid.len() && mid[a].0 == g;
                        let aa = if a < i { a } else { a + 1 };
                        assert(mid[a] == before[aa]);
                    }
                }
                lemma_push_new_key(mid, g, c);
                assert forall|k: u128| has_key(before, k) && k != g implies has_key(mid, k)
                    && value_at(mid, k) == value_at(before, k) by {
                    let a = choose|a: int| 0 <= a < before.len() && before[a].0 == k;
                    assert(a != i);
                    let aa = if a < i { a } else { a - 1 };
                    assert(mid[aa] == before[a]);
                    let x = choose|x: int| 0 <= x < mid.len() && mid[x].0 == k;
                    let xx = if x < i { x } else { x + 1 };
                    assert(mid[x] == before[xx]);
                }
                assert forall|k: u128| has_key(mid, k) implies has_key(before, k) by {
                    let a = choose|a: int| 0 <= a < mid.len() && mid[a].0 == k;
                    let aa = if a < i { a } else { a + 1 };
                    assert(mid[a] == before[aa]);
                }
                assert(has_key(before, g)) by {
                    assert(before[i as int].0 == g);
                }
            }
            v.push((g, c));
            proof {
                assert(before == old(v)@);
                assert(has_key(old(v)@, g));
                assert(v@ == mid.push((g, c)));
            }
            return false;
        }
        i = i + 1;
    }
    proof {
        assert(!has_key(old(v)@, g)) by {
            if has_key(old(v)@, g) {
                let a = choose|a: int| 0 <= a < old(v)@.len() && old(v)@[a].0 == g;
            }
        }
        lemma_push_new_key(old(v)@, g, c);
    }
    v.push((g, c));
    true
}

/// What linking the parents gives: every raw category of `second` as a
/// category under the UUID of its parent in `first`, keyed by its UUID;
/// `order` lists each UUID once, in the order it first came.
pub open spec fn linked(
    first: Seq<(Seq<char>, RawCategory)>,
    second: Seq<(Seq<char>, RawCategory)>,
    cats: Seq<(u128, Category)>,
    order: Seq<u128>,
) -> bool {
    &&& distinct_keys(cats)
    &&& order.no_duplicates()
    &&& order.len() == cats.len()
    &&& forall|k: u128| has_key(cats, k) <==> order.contains(k)
    &&& forall|j: int| 0 <= j < second.len() ==> has_key(cats, #[trigger] second[j].1.guid)
    &&& forall|k: u128| #[trigger] has_key(cats, k) ==> exists|j: int| 0 <= j < second.len()
        && second[j].1.guid == k && category_of(value_at(cats, k), second[j].1, parent_guid(second[j].1, first))
    &&& forall|i: int| 0 <= i < cats.len() ==> (#[trigger] cats[i]).1.guid == cats[i].0
}

/// No two entries share a UUID.
pub open spec fn distinct_guids(s: Seq<(Seq<char>, RawCategory)>) -> bool {
    forall|a: int, b: int| 0 <= a < b < s.len() ==> s[a].1.guid != s[b].1.guid
}

/// Each category is made of the entry at its place, under the UUID of its
/// parent in `first`, and the order lists their UUIDs in turn.
pub open spec fn linked_in_place(
    first: Seq<(Seq<char>, RawCategory)>,
    second: Seq<(Seq<char>, RawCategory)>,
    cats: Seq<(u128, Category)>,
    order: Seq<u128>,
) -> bool {
    &&& cats.len() == second.len()
    &&& order == entry_keys(cats)
    &&& forall|q: int| #![trigger cats[q]] 0 <= q < cats.len() ==> cats[q].0 == second[q].1.guid
        && category_of(cats[q].1, second[q].1, parent_guid(second[q].1, first))
}

/// Makes a category of each raw category of `second`, under the UUID of
/// its parent in `first`; a later category of the same UUID replaces an
/// earlier one.
fn link_parents(first: &CategoryPass, second: &CategoryPass) -> (res: (Vec<(u128, Category)>, Vec<u128>))
    requires
        distinct_keys(pass_entries(*first)),
        distinct_keys(pass_entries(*second)),
    ensures
        linked(pass_entries(*first), pass_entries(*second), res.0@, res.1@),
        distinct_guids(pass_entries(*second)) ==> linked_in_place(pass_entries(*first), pass_entries(*second), res.0@, res.1@),
{
    let ghost f = pass_entries(*first);
    let ghost sc = pass_entries(*second);
    let keys = pass_keys(second);
    let mut cats: Vec<(u128, Category)> = Vec::new();
    let mut order: Vec<u128> = Vec::new();
    proof {
        assert(entry_keys(cats@) =~= order@);
    }
    let mut i: usize = 0;
    while i < keys.len()
        invariant
            f == pass_entries(*first),
            sc == pass_entries(*second),
            distinct_keys(f),
            distinct_keys(sc),
            keys@.len() == sc.len(),
            forall|q: int| 0 <= q < keys@.len() ==> #[trigger] keys@[q]@ == sc[q].0,
            0 <= i <= keys.len(),
            distinct_keys(cats@),
            order@.no_duplicates(),
            order@.len() == cats@.len(),
            forall|k: u128| has_key(cats@, k) <==> order@.contains(k),
            forall|j: int| 0 <= j < i ==> has_key(cats@, #[trigger] sc[j].1.guid),
            forall|k: u128| #[trigger] has_key(cats@, k) ==> exists|j: int| 0 <= j < i
                && sc[j].1.guid == k && category_of(value_at(cats@, k), sc[j].1, parent_guid(sc[j].1, f)),
            forall|q: int| 0 <= q < cats@.len() ==> (#[trigger] cats@[q]).1.guid == cats@[q].0,
            distinct_guids(sc) ==> linked_in_place(f, sc.take(i as int), cats@, order@),
        decreases keys.len() - i,
    {
        let value = match pass_get(second, &keys[i]) {
            Some(v) => v,
            None => {
                proof {
                    assert(sc[i as int].0 == keys@[i as int]@);
                }
                return (cats, order);
            },
        };
        proof {
            let a = choose|a: int| 0 <= a < sc.len() && sc[a].0 == keys@[i as int]@ && sc[a].1 == *value;
            assert(sc[i as int].0 == keys@[i as int]@);
            assert(a == i);
        }
        let parent = match &value.parent_name {
            Some(parent_name) => match pass_get(first, parent_name) {
                Some(parent_category) => {
                    proof {
                        let a = choose|a: int| 0 <= a < f.len() && f[a].0 == parent_name@ && f[a].1 == *parent_category;
                        let b = choose|b: int| 0 <= b < f.len() && f[b].0 == parent_name@;
                        assert(has_key(f, parent_name@));
                        assert(a == b);
                        assert(parent_guid(*value, f) == Some(parent_category.guid));
                    }
                    Some(parent_category.guid)
                },
                None => None,
            },
            None => None,
        };
        assert(parent == parent_guid(*value, f));
        let cat = Category::from(value, parent);
        let cat_ref = cat.guid;
        let ghost before = cats@;
        let ghost before_order = order@;
        let ghost c = cat;
        proof {
            if distinct_guids(sc) && has_key(before, c.guid) {
                let x = choose|x: int| 0 <= x < before.len() && before[x].0 == c.guid;
                assert(before[x].0 == sc[x].1.guid);
            }
        }
        if insert_category(&mut cats, cat) {
            order.push(cat_ref);
            proof {
                assert forall|a: int, b: int| 0 <= a < b < order@.len() implies order@[a] != order@[b] by {
                    if b == before_order.len() {
                        assert(before_order.contains(order@[a]));
                        assert(has_key(before, order@[a]));
                    }
                }
                assert forall|k: u128| has_key(cats@, k) <==> order@.contains(k) by {
                    if order@.contains(k) && k != cat_ref {
                        let a = choose|a: int| 0 <= a < order@.len() && order@[a] == k;
                        assert(before_order[a] == k);
                        assert(before_order.contains(k));
                    }
                    if has_key(before, k) {
                        assert(before_order.contains(k));
                        let a = choose|a: int| 0 <= a < before_order.len() && before_order[a] == k;
                        assert(order@[a] == k);
                    }
                    if k == cat_ref {
                        assert(order@[before_order.len() as int] == k);
                    }
                }
            }
        } else {
            proof {
                assert forall|k: u128| has_key(cats@, k) <==> order@.contains(k) by {
                    if k == cat_ref {
                        assert(has_key(before, k));
                    }
                }
            }
        }
        proof {
            assert(value_at(cats@, cat_ref) == c) by {
                let x = choose|x: int| 0 <= x < cats@.len() && cats@[x].0 == cat_ref;
                assert(cats@[cats@.len() - 1].0 == cat_ref);
                assert(x == cats@.len() - 1);
            }
            if distinct_guids(sc) {
                assert(cats@ == before.push((c.guid, c)));
                assert(entry_keys(cats@) =~= entry_keys(before).push(c.guid));
                assert forall|q: int| #![trigger cats@[q]] 0 <= q < cats@.len() implies cats@[q].0 == sc.take(i + 1)[q].1.guid
                    && category_of(cats@[q].1, sc.take(i + 1)[q].1, parent_guid(sc.take(i + 1)[q].1, f)) by {
                    if q < before.len() {
                        assert(cats@[q] == before[q]);
                        assert(sc.take(i + 1)[q] == sc.take(i as int)[q]);
                    }
                }
            }
            assert forall|j: int| 0 <= j < i + 1 implies has_key(cats@, #[trigger] sc[j].1.guid) by {}
            assert forall|k: u128| #[trigger] has_key(cats@, k) implies exists|j: int| 0 <= j < i + 1
                && sc[j].1.guid == k && category_of(value_at(cats@, k), sc[j].1, parent_guid(sc[j].1, f)) by {
                if k == cat_ref {
                    assert(sc[i as int].1.guid == k);
                    assert(category_of(value_at(cats@, k), sc[i as int].1, parent_guid(sc[i as int].1, f)));
                } else {
                    assert(has_key(before, k));
                }
            }
            assert forall|q: int| 0 <= q < cats@.len() implies (#[trigger] cats@[q]).1.guid == cats@[q].0 by {
                if q == cats@.len() - 1 {
                } else {
                    let k = cats@[q].0;
                    assert(has_key(cats@, k));
                    if k != cat_ref {
                        assert(has_key(before, k));
                        let x = choose|x: int| 0 <= x < before.len() && before[x].0 == k;
                        assert(value_at(cats@, k) == value_at(before, k));
                        let y = choose|y: int| 0 <= y < cats@.len() && cats@[y].0 == k;
                        assert(y == q);
                    } else {
                        assert(cats@[cats@.len() - 1].0 == k);
                    }
                }
            }
        }
        i = i + 1;
    }
    proof {
        assert(sc.take(keys.len() as int) =~= sc);
    }
    (cats, order)
}

/// Keys are the UUIDs of their categories and occur once, at every level.
pub open spec fn forest_wf(f: Seq<(u128, Category)>) -> bool
    decreases f,
{
    &&& distinct_keys(f)
    &&& forall|i: int| 0 <= i < f.len() ==> (#[trigger] f[i]).1.guid == f[i].0
    &&& forall|i: int| 0 <= i < f.len() ==> forest_wf(#[trigger] f[i].1.children@)
}

/// The index of the first category of the level named `seg`, if any.
pub open spec fn first_named(f: Seq<(u128, Category)>, seg: Seq<char>) -> Option<int> {
    if exists|i: int| 0 <= i < f.len() && f[i].1.relative_category_name@ == seg {
        Some(choose|i: int| 0 <= i < f.len() && f[i].1.relative_category_name@ == seg
            && forall|j: int| 0 <= j < i ==> f[j].1.relative_category_name@ != seg)
    } else {
        None
    }
}

/// Whether `route` leads somewhere in the forest: at each level, the first
/// category named by the next part, down to the last part.
pub open spec fn route_leads(f: Seq<(u128, Category)>, route: Seq<Seq<char>>) -> bool
    decreases route.len(),
{
    if route.len() == 0 {
        false
    } else {
        match first_named(f, route[0]) {
            Some(i) => if route.len() == 1 {
                true
            } else {
                route_leads(f[i].1.children@, route.drop_first())
            },
            None => false,
        }
    }
}

/// Replacing one category of a forest changes its UUIDs by the difference.
proof fn lemma_forest_guids_update(f: Seq<(u128, Category)>, i: int, x: (u128, Category))
    requires
        0 <= i < f.len(),
    ensures
        forest_guids(f.update(i, x)).add(node_guids(f[i].1)) == forest_guids(f).add(node_guids(x.1)),
    decreases f.len(),
{
    let g = f.update(i, x);
    if i == f.len() - 1 {
        assert(g.drop_last() =~= f.drop_last());
        assert(g.last() == x);
        assert(forest_guids(g).add(node_guids(f[i].1)) =~= forest_guids(f).add(node_guids(x.1)));
    } else {
        lemma_forest_guids_update(f.drop_last(), i, x);
        assert(f.drop_last()[i] == f[i]);
        assert(g.drop_last() =~= f.drop_last().update(i, x));
        assert(g.last() == f.last());
        assert(forest_guids(g) == forest_guids(g.drop_last()).add(node_guids(g.last().1)));
        assert(forest_guids(f) == forest_guids(f.drop_last()).add(node_guids(f.last().1)));
        let p = f.drop_last();
        let pu = p.update(i, x);
        assert(forest_guids(pu).add(node_guids(p[i].1)) == forest_guids(p).add(node_guids(x.1)));
        assert forall|k: u128| #[trigger] forest_guids(g).add(node_guids(f[i].1)).count(k)
            == forest_guids(f).add(node_guids(x.1)).count(k) by {
            assert(forest_guids(pu).add(node_guids(p[i].1)).count(k) == forest_guids(p).add(node_guids(x.1)).count(k));
        }
        assert(forest_guids(g).add(node_guids(f[i].1)) =~= forest_guids(f).add(node_guids(x.1)));
    }
}

/// A key of a well-formed forest is the UUID of one of its categories.
proof fn lemma_key_counted(f: Seq<(u128, Category)>, k: u128)
    requires
        forest_wf(f),
        has_key(f, k),
    ensures
        forest_guids(f).count(k) > 0,
    decreases f.len(),
{
    let i = choose|i: int| 0 <= i < f.len() && f[i].0 == k;
    if i == f.len() - 1 {
        assert(f[i].1.guid == k);
        assert(node_guids(f[i].1).count(k) > 0);
    } else {
        let p = f.drop_last();
        assert(p[i] == f[i]);
        assert(forest_wf(p)) by {
            assert forall|a: int| 0 <= a < p.len() implies forest_wf(#[trigger] p[a].1.children@) by {
                assert(p[a] == f[a]);
            }
            assert forall|a: int, b: int| 0 <= a < b < p.len() implies p[a].0 != p[b].0 by {
                assert(p[a] == f[a] && p[b] == f[b]);
            }
            assert forall|a: int| 0 <= a < p.len() implies (#[trigger] p[a]).1.guid == p[a].0 by {
                assert(p[a] == f[a]);
            }
        }
        lemma_key_counted(p, k);
    }
}

/// What a well-formed forest and one of its categories share.
proof fn lemma_node_in_forest(f: Seq<(u128, Category)>, i: int)
    requires
        forest_wf(f),
        0 <= i < f.len(),
    ensures
        forest_wf(f[i].1.children@),
        f[i].1.guid == f[i].0,
        forall|k: u128| forest_guids(f).count(k) >= node_guids(f[i].1).count(k),
    decreases f.len(),
{
    if i < f.len() - 1 {
        let p = f.drop_last();
        assert(forest_wf(p)) by {
            assert forall|a: int| 0 <= a < p.len() implies forest_wf(#[trigger] p[a].1.children@) by {
                assert(p[a] == f[a]);
            }
            assert forall|a: int, b: int| 0 <= a < b < p.len() implies p[a].0 != p[b].0 by {
                assert(p[a] == f[a] && p[b] == f[b]);
            }
            assert forall|a: int| 0 <= a < p.len() implies (#[trigger] p[a]).1.guid == p[a].0 by {
                assert(p[a] == f[a]);
            }
        }
        lemma_node_in_forest(p, i);
        assert(p[i] == f[i]);
        assert(forest_guids(f) == forest_guids(p).add(node_guids(f.last().1)));
    } else {
        assert(forest_guids(f) == forest_guids(f.drop_last()).add(node_guids(f[i].1)));
    }
}

/// Replacing a category of a well-formed forest by one with the same key
/// and parent keeps the forest well formed and changes its UUIDs as the
/// category's changed.
proof fn lemma_replace_node(f0: Seq<(u128, Category)>, i: int, node: Category, delta: Multiset<u128>)
    requires
        forest_wf(f0),
        0 <= i < f0.len(),
        node.guid == f0[i].0,
        node.parent == f0[i].1.parent,
        forest_wf(node.children@),
        node_guids(node) == node_guids(f0[i].1).add(delta),
    ensures
        forest_wf(f0.update(i, (f0[i].0, node))),
        forest_guids(f0.update(i, (f0[i].0, node))) == forest_guids(f0).add(delta),
        entry_keys(f0.update(i, (f0[i].0, node))) == entry_keys(f0),
        forall|a: int| 0 <= a < f0.len() ==> (#[trigger] f0.update(i, (f0[i].0, node))[a]).1.parent == f0[a].1.parent,
{
    let x = (f0[i].0, node);
    let f = f0.update(i, x);
    lemma_forest_guids_update(f0, i, x);
    assert forall|k: u128| #[trigger] forest_guids(f).count(k) == forest_guids(f0).add(delta).count(k) by {
        assert(forest_guids(f).add(node_guids(f0[i].1)).count(k) == forest_guids(f0).add(node_guids(node)).count(k));
    }
    assert(forest_guids(f) =~= forest_guids(f0).add(delta));
    assert forall|a: int| 0 <= a < f.len() implies forest_wf(#[trigger] f[a].1.children@) by {
        if a != i {
            assert(f[a] == f0[a]);
        }
    }
    assert forall|a: int| 0 <= a < f.len() implies (#[trigger] f[a]).1.guid == f[a].0 by {
        if a != i {
            assert(f[a] == f0[a]);
        }
    }
    assert forall|a: int, b: int| 0 <= a < b < f.len() implies f[a].0 != f[b].0 by {
        assert(f[a].0 == f0[a].0 && f[b].0 == f0[b].0);
    }
    assert(entry_keys(f) =~= entry_keys(f0));
}

/// The sub-category `c` is named as its place under `p` says: the chunk
/// before the last one of its full name is `p`'s relative name. It has a
/// parent.
pub open spec fn child_named(c: Category, p: Category) -> bool {
    &&& p.relative_category_name@ == chunk(c.full_category_name@, '.', char_positions(c.full_category_name@, '.').len() - 1)
    &&& c.parent is Some
}

/// Every sub-category, at any depth, has a parent and sits under a category
/// named as its full name says.
pub open spec fn node_named(n: Category) -> bool
    decreases n,
{
    &&& forall|a: int| #![trigger n.children@[a]] 0 <= a < n.children@.len() ==> child_named(n.children@[a].1, n)
    &&& forest_named(n.children@)
}

/// Every category of the forest is `node_named`.
pub open spec fn forest_named(f: Seq<(u128, Category)>) -> bool
    decreases f,
{
    forall|i: int| #![trigger f[i]] 0 <= i < f.len() ==> node_named(f[i].1)
}

/// Taking a category out of a named forest leaves it named, and the
/// category too.
proof fn lemma_named_remove(f: Seq<(u128, Category)>, i: int)
    requires
        forest_named(f),
        0 <= i < f.len(),
    ensures
        forest_named(f.remove(i)),
        node_named(f[i].1),
{
    let g = f.remove(i);
    assert forall|a: int| #![trigger g[a]] 0 <= a < g.len() implies node_named(g[a].1) by {
        let aa = if a < i { a } else { a + 1 };
        assert(g[a] == f[aa]);
    }
}

/// Replacing a category of a named forest by a named one keeps it named.
proof fn lemma_named_update(f: Seq<(u128, Category)>, i: int, x: (u128, Category))
    requires
        forest_named(f),
        0 <= i < f.len(),
        node_named(x.1),
    ensures
        forest_named(f.update(i, x)),
{
    let g = f.update(i, x);
    assert forall|a: int| #![trigger g[a]] 0 <= a < g.len() implies node_named(g[a].1) by {
        if a != i {
            assert(g[a] == f[a]);
        }
    }
}

/// Adding a named category to a named forest keeps it named.
proof fn lemma_named_push(f: Seq<(u128, Category)>, x: (u128, Category))
    requires
        forest_named(f),
        node_named(x.1),
    ensures
        forest_named(f.push(x)),
{
    let g = f.push(x);
    assert forall|a: int| #![trigger g[a]] 0 <= a < g.len() implies node_named(g[a].1) by {
        if a < f.len() {
            assert(g[a] == f[a]);
        }
    }
}

/// A category without sub-categories is named.
proof fn lemma_leaf_named(c: Category)
    requires
        c.children@.len() == 0,
    ensures
        node_named(c),
{
    assert(forest_named(c.children@));
}

/// Puts `cat` last among the sub-categories of `node`.
fn add_child(node: &mut Category, cat: Category)
    requires
        forest_wf(old(node).children@),
        forest_wf(cat.children@),
        node_guids(*old(node)).count(cat.guid) == 0,
        node_named(*old(node)),
        node_named(cat),
        child_named(cat, *old(node)),
    ensures
        final(node).guid == old(node).guid,
        final(node).parent == old(node).parent,
        final(node).relative_category_name@ == old(node).relative_category_name@,
        final(node).full_category_name@ == old(node).full_category_name@,
        final(node).display_name@ == old(node).display_name@,
        final(node).separator == old(node).separator,
        final(node).default_enabled == old(node).default_enabled,
        forest_wf(final(node).children@),
        node_guids(*final(node)) == node_guids(*old(node)).add(node_guids(cat)),
        node_named(*final(node)),
        final(node).children@ == old(node).children@.push((cat.guid, cat)),
{
    proof {
        if has_key(node.children@, cat.guid) {
            lemma_key_counted(node.children@, cat.guid);
        }
    }
    let ghost c0 = cat;
    let ghost before = node.children@;
    let ghost n0 = *node;
    insert_category(&mut node.children, cat);
    proof {
        assert(node.children@ == before.push((c0.guid, c0)));
        assert(node.children@.drop_last() =~= before);
        assert(forest_guids(node.children@) == forest_guids(before).add(node_guids(c0)));
        assert(node_guids(*node) =~= node_guids(n0).add(node_guids(c0)));
        assert forall|a: int| 0 <= a < node.children@.len() implies forest_wf(#[trigger] node.children@[a].1.children@) by {
            if a < before.len() {
                assert(node.children@[a] == before[a]);
            }
        }
        assert forall|a: int| 0 <= a < node.children@.len() implies (#[trigger] node.children@[a]).1.guid == node.children@[a].0 by {
            if a < before.len() {
                assert(node.children@[a] == before[a]);
            }
        }
        lemma_named_push(before, (c0.guid, c0));
        assert forall|a: int| #![trigger node.children@[a]] 0 <= a < node.children@.len()
            implies child_named(node.children@[a].1, *node) by {
            if a < before.len() {
                assert(node.children@[a] == before[a]);
                assert(child_named(n0.children@[a].1, n0));
            }
        }
    }
}

/// The category sits where its parent says: its parent field is the
/// parent's UUID (none at the top), its full name is the parent's full
/// name, a dot and its relative name (its relative name alone at the top),
/// its relative name holds no dot, and so on below it.
pub open spec fn shaped_node(n: Category, par: Option<(u128, Seq<char>)>) -> bool
    decreases n,
{
    &&& n.parent == (match par {
        Some(x) => Some(x.0),
        None => None,
    })
    &&& n.full_category_name@ == (match par {
        Some(x) => x.1 + seq!['.'] + n.relative_category_name@,
        None => n.relative_category_name@,
    })
    &&& !n.relative_category_name@.contains('.')
    &&& shaped_forest(n.children@, Some((n.guid, n.full_category_name@)))
}

/// Every category of the level is shaped under `par`, and no two share a
/// relative name.
pub open spec fn shaped_forest(f: Seq<(u128, Category)>, par: Option<(u128, Seq<char>)>) -> bool
    decreases f,
{
    &&& forall|a: int| #![trigger f[a]] 0 <= a < f.len() ==> shaped_node(f[a].1, par)
    &&& forall|a: int, b: int| 0 <= a < b < f.len() ==> f[a].1.relative_category_name@ != f[b].1.relative_category_name@
}

/// The category of UUID `g` sits at the end of the path of relative names.
pub open spec fn at_path(f: Seq<(u128, Category)>, p: Seq<Seq<char>>, g: u128) -> bool
    decreases p.len(),
{
    &&& p.len() > 0
    &&& exists|a: int| 0 <= a < f.len() && (#[trigger] f[a]).1.relative_category_name@ == p[0] && if p.len() == 1 {
        f[a].1.guid == g
    } else {
        at_path(f[a].1.children@, p.drop_first(), g)
    }
}

/// The category the path leads to, taking at each level the first category
/// of the next name.
pub open spec fn node_at(f: Seq<(u128, Category)>, p: Seq<Seq<char>>) -> Option<Category>
    decreases p.len(),
{
    if p.len() == 0 {
        None
    } else {
        match first_named(f, p[0]) {
            Some(i) => if p.len() == 1 {
                Some(f[i].1)
            } else {
                node_at(f[i].1.children@, p.drop_first())
            },
            None => None,
        }
    }
}

/// `new` is `old` with `c` put last under the category that the path leads
/// to, the categories along the path otherwise unchanged.
pub open spec fn inserted_at(old: Seq<(u128, Category)>, new: Seq<(u128, Category)>, p: Seq<Seq<char>>, c: Category) -> bool
    decreases p.len(),
{
    &&& p.len() > 0
    &&& first_named(old, p[0]) is Some
    &&& {
        let i = first_named(old, p[0])->0;
        &&& new.len() == old.len()
        &&& forall|b: int| 0 <= b < old.len() && b != i ==> new[b] == old[b]
        &&& new[i].0 == old[i].0
        &&& new[i].1.guid == old[i].1.guid
        &&& new[i].1.parent == old[i].1.parent
        &&& new[i].1.full_category_name@ == old[i].1.full_category_name@
        &&& new[i].1.relative_category_name@ == old[i].1.relative_category_name@
        &&& new[i].1.display_name@ == old[i].1.display_name@
        &&& new[i].1.separator == old[i].1.separator
        &&& new[i].1.default_enabled == old[i].1.default_enabled
        &&& if p.len() == 1 {
            new[i].1.children@ == old[i].1.children@.push((c.guid, c))
        } else {
            inserted_at(old[i].1.children@, new[i].1.children@, p.drop_first(), c)
        }
    }
}

/// Below a category of a name lies a first one of that name.
proof fn lemma_least_named(f: Seq<(u128, Category)>, seg: Seq<char>, w: int)
    requires
        0 <= w < f.len(),
        f[w].1.relative_category_name@ == seg,
    ensures
        exists|i: int| 0 <= i < f.len() && f[i].1.relative_category_name@ == seg
            && forall|j: int| 0 <= j < i ==> f[j].1.relative_category_name@ != seg,
    decreases w,
{
    if exists|j: int| 0 <= j < w && f[j].1.relative_category_name@ == seg {
        let j = choose|j: int| 0 <= j < w && f[j].1.relative_category_name@ == seg;
        lemma_least_named(f, seg, j);
    }
}

/// The first category of a name is one of the level, of that name, with
/// none of that name before it.
proof fn lemma_first_named(f: Seq<(u128, Category)>, seg: Seq<char>)
    ensures
        first_named(f, seg) is Some ==> {
            &&& 0 <= first_named(f, seg)->0 < f.len()
            &&& f[first_named(f, seg)->0].1.relative_category_name@ == seg
            &&& forall|j: int| 0 <= j < first_named(f, seg)->0 ==> f[j].1.relative_category_name@ != seg
        },
        (exists|i: int| 0 <= i < f.len() && f[i].1.relative_category_name@ == seg) ==> first_named(f, seg) is Some,
{
    if exists|i: int| 0 <= i < f.len() && f[i].1.relative_category_name@ == seg {
        let w = choose|i: int| 0 <= i < f.len() && f[i].1.relative_category_name@ == seg;
        lemma_least_named(f, seg, w);
    }
}

/// A category found along a path stays there when one more is pushed.
proof fn lemma_at_path_push(f: Seq<(u128, Category)>, p: Seq<Seq<char>>, g: u128, e: (u128, Category))
    requires
        at_path(f, p, g),
    ensures
        at_path(f.push(e), p, g),
{
    let a = choose|a: int| 0 <= a < f.len() && (#[trigger] f[a]).1.relative_category_name@ == p[0] && if p.len() == 1 {
        f[a].1.guid == g
    } else {
        at_path(f[a].1.children@, p.drop_first(), g)
    };
    assert(f.push(e)[a] == f[a]);
}

/// Inserting a category keeps the others where they were.
proof fn lemma_inserted_keeps(old: Seq<(u128, Category)>, new: Seq<(u128, Category)>, rt: Seq<Seq<char>>, c: Category, p: Seq<Seq<char>>, g: u128)
    requires
        inserted_at(old, new, rt, c),
        at_path(old, p, g),
    ensures
        at_path(new, p, g),
    decreases p.len(),
{
    lemma_first_named(old, rt[0]);
    let i = first_named(old, rt[0])->0;
    let a = choose|a: int| 0 <= a < old.len() && (#[trigger] old[a]).1.relative_category_name@ == p[0] && if p.len() == 1 {
        old[a].1.guid == g
    } else {
        at_path(old[a].1.children@, p.drop_first(), g)
    };
    if a != i {
        assert(new[a] == old[a]);
    } else if p.len() > 1 {
        if rt.len() == 1 {
            lemma_at_path_push(old[i].1.children@, p.drop_first(), g, (c.guid, c));
        } else {
            lemma_inserted_keeps(old[i].1.children@, new[i].1.children@, rt.drop_first(), c, p.drop_first(), g);
        }
        assert(new[a].1.relative_category_name@ == p[0]);
    } else {
        assert(new[a].1.relative_category_name@ == p[0]);
    }
}

/// The inserted category sits at the end of the path and its own name.
proof fn lemma_inserted_found(old: Seq<(u128, Category)>, new: Seq<(u128, Category)>, rt: Seq<Seq<char>>, c: Category)
    requires
        inserted_at(old, new, rt, c),
    ensures
        at_path(new, rt.push(c.relative_category_name@), c.guid),
    decreases rt.len(),
{
    lemma_first_named(old, rt[0]);
    let i = first_named(old, rt[0])->0;
    let q = rt.push(c.relative_category_name@);
    assert(q[0] == rt[0]);
    assert(new[i].1.relative_category_name@ == q[0]);
    if rt.len() == 1 {
        let ch = new[i].1.children@;
        let last = ch.len() - 1;
        assert(ch[last] == (c.guid, c));
        assert(q.drop_first() =~= seq![c.relative_category_name@]);
        assert(at_path(ch, q.drop_first(), c.guid));
    } else {
        lemma_inserted_found(old[i].1.children@, new[i].1.children@, rt.drop_first(), c);
        assert(q.drop_first() =~= rt.drop_first().push(c.relative_category_name@));
    }
}

/// In a shaped level, the first category of a name is the only one.
proof fn lemma_first_named_unique(f: Seq<(u128, Category)>, par: Option<(u128, Seq<char>)>, a: int)
    requires
        shaped_forest(f, par),
        0 <= a < f.len(),
    ensures
        first_named(f, f[a].1.relative_category_name@) == Some(a),
{
    let seg = f[a].1.relative_category_name@;
    lemma_first_named(f, seg);
    let i = first_named(f, seg)->0;
    assert(f[a].1.relative_category_name@ == seg);
    if i < a {
        assert(f[i].1.relative_category_name@ != f[a].1.relative_category_name@);
    } else if a < i {
        assert(f[a].1.relative_category_name@ != f[i].1.relative_category_name@);
    }
}

/// In a shaped forest, a path that holds a category leads to it.
proof fn lemma_path_leads(f: Seq<(u128, Category)>, par: Option<(u128, Seq<char>)>, p: Seq<Seq<char>>, g: u128)
    requires
        shaped_forest(f, par),
        at_path(f, p, g),
    ensures
        route_leads(f, p),
        node_at(f, p) is Some,
        node_at(f, p)->0.guid == g,
    decreases p.len(),
{
    let a = choose|a: int| 0 <= a < f.len() && (#[trigger] f[a]).1.relative_category_name@ == p[0] && if p.len() == 1 {
        f[a].1.guid == g
    } else {
        at_path(f[a].1.children@, p.drop_first(), g)
    };
    lemma_first_named_unique(f, par, a);
    if p.len() > 1 {
        assert(shaped_node(f[a].1, par));
        lemma_path_leads(f[a].1.children@, Some((f[a].1.guid, f[a].1.full_category_name@)), p.drop_first(), g);
    }
}

/// Inserting, under the category the path leads to, a category without
/// sub-categories that sits rightly under it and shares no name with its
/// sub-categories keeps the forest shaped.
proof fn lemma_inserted_shaped(
    old: Seq<(u128, Category)>,
    new: Seq<(u128, Category)>,
    rt: Seq<Seq<char>>,
    c: Category,
    par: Option<(u128, Seq<char>)>,
)
    requires
        inserted_at(old, new, rt, c),
        shaped_forest(old, par),
        node_at(old, rt) is Some,
        c.parent == Some(node_at(old, rt)->0.guid),
        c.full_category_name@ == node_at(old, rt)->0.full_category_name@ + seq!['.'] + c.relative_category_name@,
        !c.relative_category_name@.contains('.'),
        c.children@.len() == 0,
        forall|b: int| 0 <= b < node_at(old, rt)->0.children@.len()
            ==> (#[trigger] node_at(old, rt)->0.children@[b]).1.relative_category_name@ != c.relative_category_name@,
    ensures
        shaped_forest(new, par),
    decreases rt.len(),
{
    lemma_first_named(old, rt[0]);
    let i = first_named(old, rt[0])->0;
    let o = old[i].1;
    let n = new[i].1;
    let cp = Some((o.guid, o.full_category_name@));
    assert(shaped_node(o, par));
    if rt.len() == 1 {
        let och = o.children@;
        let nch = n.children@;
        assert(shaped_forest(och, cp));
        assert(shaped_forest(Seq::<(u128, Category)>::empty(), Some((c.guid, c.full_category_name@))));
        assert(c.children@ =~= Seq::<(u128, Category)>::empty());
        assert(shaped_node(c, cp));
        assert forall|a: int| #![trigger nch[a]] 0 <= a < nch.len() implies shaped_node(nch[a].1, cp) by {
            if a < och.len() {
                assert(nch[a] == och[a]);
            }
        }
        assert forall|a: int, b: int| 0 <= a < b < nch.len() implies nch[a].1.relative_category_name@ != nch[b].1.relative_category_name@ by {
            assert(nch[a] == och[a]);
            if b < och.len() {
                assert(nch[b] == och[b]);
            } else {
                assert(nch[b] == (c.guid, c));
            }
        }
        assert(shaped_forest(nch, cp));
    } else {
        assert(shaped_forest(o.children@, cp));
        lemma_inserted_shaped(o.children@, n.children@, rt.drop_first(), c, cp);
    }
    assert(shaped_node(n, par));
    assert forall|a: int| #![trigger new[a]] 0 <= a < new.len() implies shaped_node(new[a].1, par) by {
        if a != i {
            assert(new[a] == old[a]);
        }
    }
    assert forall|a: int, b: int| 0 <= a < b < new.len() implies new[a].1.relative_category_name@ != new[b].1.relative_category_name@ by {
        if a != i {
            assert(new[a] == old[a]);
        }
        if b != i {
            assert(new[b] == old[b]);
        }
    }
}

/// Every category of the tree is one of `cats`, by UUID and full name.
pub open spec fn member_node(n: Category, cats: Seq<(u128, Category)>) -> bool
    decreases n,
{
    &&& exists|q: int| 0 <= q < cats.len() && (#[trigger] cats[q]).0 == n.guid
        && cats[q].1.full_category_name@ == n.full_category_name@
        && cats[q].1.display_name@ == n.display_name@
        && cats[q].1.separator == n.separator
        && cats[q].1.default_enabled == n.default_enabled
    &&& member_forest(n.children@, cats)
}

/// Every category of the forest, at any depth, is one of `cats`.
pub open spec fn member_forest(f: Seq<(u128, Category)>, cats: Seq<(u128, Category)>) -> bool
    decreases f,
{
    forall|a: int| #![trigger f[a]] 0 <= a < f.len() ==> member_node(f[a].1, cats)
}

/// Inserting one of `cats` keeps every category one of them.
proof fn lemma_inserted_members(
    old: Seq<(u128, Category)>,
    new: Seq<(u128, Category)>,
    rt: Seq<Seq<char>>,
    c: Category,
    cats: Seq<(u128, Category)>,
)
    requires
        inserted_at(old, new, rt, c),
        member_forest(old, cats),
        member_node(c, cats),
    ensures
        member_forest(new, cats),
    decreases rt.len(),
{
    lemma_first_named(old, rt[0]);
    let i = first_named(old, rt[0])->0;
    let o = old[i].1;
    let n = new[i].1;
    assert(member_node(o, cats));
    if rt.len() == 1 {
        assert forall|a: int| #![trigger n.children@[a]] 0 <= a < n.children@.len() implies member_node(n.children@[a].1, cats) by {
            if a < o.children@.len() {
                assert(n.children@[a] == o.children@[a]);
            }
        }
        assert(member_forest(n.children@, cats));
    } else {
        lemma_inserted_members(o.children@, n.children@, rt.drop_first(), c, cats);
    }
    let q = choose|q: int| 0 <= q < cats.len() && (#[trigger] cats[q]).0 == o.guid
        && cats[q].1.full_category_name@ == o.full_category_name@
        && cats[q].1.display_name@ == o.display_name@
        && cats[q].1.separator == o.separator
        && cats[q].1.default_enabled == o.default_enabled;
    assert(member_node(n, cats));
    assert forall|a: int| #![trigger new[a]] 0 <= a < new.len() implies member_node(new[a].1, cats) by {
        if a != i {
            assert(new[a] == old[a]);
        }
    }
}

/// The category a path leads to, with all below it, is counted in the
/// forest.
proof fn lemma_node_at_counted(f: Seq<(u128, Category)>, p: Seq<Seq<char>>)
    requires
        forest_wf(f),
        node_at(f, p) is Some,
    ensures
        forall|k: u128| forest_guids(f).count(k) >= node_guids(node_at(f, p)->0).count(k),
    decreases p.len(),
{
    lemma_first_named(f, p[0]);
    let i = first_named(f, p[0])->0;
    lemma_node_in_forest(f, i);
    if p.len() > 1 {
        lemma_node_at_counted(f[i].1.children@, p.drop_first());
        let n = node_at(f, p)->0;
        assert forall|k: u128| forest_guids(f).count(k) >= node_guids(n).count(k) by {
            assert(node_guids(f[i].1) == Multiset::singleton(f[i].1.guid).add(forest_guids(f[i].1.children@)));
        }
    }
}

/// The members of a shaped forest found along a path: the category there
/// is a member, and so are those under it.
proof fn lemma_node_at_member(f: Seq<(u128, Category)>, p: Seq<Seq<char>>, cats: Seq<(u128, Category)>)
    requires
        member_forest(f, cats),
        node_at(f, p) is Some,
    ensures
        member_node(node_at(f, p)->0, cats),
    decreases p.len(),
{
    lemma_first_named(f, p[0]);
    let i = first_named(f, p[0])->0;
    assert(member_node(f[i].1, cats));
    if p.len() > 1 {
        lemma_node_at_member(f[i].1.children@, p.drop_first(), cats);
    }
}

/// Puts `cat` among the sub-categories of the category that the parts of
/// `route` from `from` on lead to: at each level the first category named
/// by the next part. Gives `cat` back when the route leads nowhere.
#[verifier::rlimit(40)]
fn insert_at_route(forest: &mut Vec<(u128, Category)>, route: &Vec<String>, from: usize, cat: Category) -> (r: Option<Category>)
    requires
        forest_wf(old(forest)@),
        forest_wf(cat.children@),
        forest_guids(old(forest)@).count(cat.guid) == 0,
        from <= route.len(),
        forest_named(old(forest)@),
        node_named(cat),
        route@.len() == char_positions(cat.full_category_name@, '.').len(),
        forall|n: int| 0 <= n < route@.len() ==> #[trigger] route@[n]@ == chunk(cat.full_category_name@, '.', n),
        cat.parent is Some,
    ensures
        r is None <==> route_leads(old(forest)@, text_views(route@).skip(from as int)),
        r matches Some(c) ==> c == cat,
        forest_wf(final(forest)@),
        forest_named(final(forest)@),
        r is None ==> forest_guids(final(forest)@) == forest_guids(old(forest)@).add(node_guids(cat)),
        r is Some ==> forest_guids(final(forest)@) == forest_guids(old(forest)@),
        entry_keys(final(forest)@) == entry_keys(old(forest)@),
        forall|a: int| 0 <= a < final(forest)@.len() ==> (#[trigger] final(forest)@[a]).1.parent == old(forest)@[a].1.parent,
        forall|a: int| 0 <= a < final(forest)@.len() ==> (#[trigger] final(forest)@[a]).1.full_category_name@
            == old(forest)@[a].1.full_category_name@,
        forall|a: int| 0 <= a < final(forest)@.len() ==> (#[trigger] final(forest)@[a]).1.relative_category_name@
            == old(forest)@[a].1.relative_category_name@,
        first_named(old(forest)@, text_views(route@).skip(from as int)[0]) is None ==> r is Some && final(forest)@ == old(forest)@,
        from + 1 == route.len() && first_named(old(forest)@, text_views(route@).skip(from as int)[0]) is Some ==> {
            let i = first_named(old(forest)@, text_views(route@).skip(from as int)[0])->0;
            &&& r is None
            &&& final(forest)@ == old(forest)@.update(i, (old(forest)@[i].0, final(forest)@[i].1))
            &&& final(forest)@[i].1.children@ == old(forest)@[i].1.children@.push((cat.guid, cat))
            &&& final(forest)@[i].1.parent == old(forest)@[i].1.parent
            &&& final(forest)@[i].1.full_category_name@ == old(forest)@[i].1.full_category_name@
        },
        r is None ==> inserted_at(old(forest)@, final(forest)@, text_views(route@).skip(from as int), cat),
    decreases route.len() - from,
{
    let ghost rt = text_views(route@).skip(from as int);
    if from >= route.len() {
        return Some(cat);
    }
    assert(rt[0] == route@[from as int]@);
    let seg = &route[from];
    let mut i: usize = 0;
    while i < forest.len()
        invariant
            0 <= i <= forest.len(),
            forest@ == old(forest)@,
            forest_wf(old(forest)@),
            forest_wf(cat.children@),
            forest_guids(old(forest)@).count(cat.guid) == 0,
            forest_named(old(forest)@),
            node_named(cat),
            route@.len() == char_positions(cat.full_category_name@, '.').len(),
            forall|n: int| 0 <= n < route@.len() ==> #[trigger] route@[n]@ == chunk(cat.full_category_name@, '.', n),
            from < route.len(),
            *seg == route@[from as int],
            rt == text_views(route@).skip(from as int),
            cat.parent is Some,
            rt[0] == seg@,
            forall|j: int| 0 <= j < i ==> forest@[j].1.relative_category_name@ != seg@,
        decreases forest.len() - i,
    {
        if forest[i].1.relative_category_name.eq(seg) {
            let ghost f0 = forest@;
            proof {
                let c = first_named(f0, seg@);
                assert(exists|a: int| 0 <= a < f0.len() && f0[a].1.relative_category_name@ == seg@) by {
                    assert(f0[i as int].1.relative_category_name@ == seg@);
                }
                let a = c->0;
                assert(a == i) by {
                    if a > i {
                        assert(f0[i as int].1.relative_category_name@ == seg@);
                    }
                }
                lemma_node_in_forest(f0, i as int);
                lemma_named_remove(f0, i as int);
            }
            let (k, mut node) = forest.remove(i);
            let ghost old_node = node;
            let ghost c0 = cat;
            let r = if from + 1 == route.len() {
                proof {
                    assert(route@[from as int]@ == chunk(cat.full_category_name@, '.', from as int));
                }
                add_child(&mut node, cat);
                proof {
                    assert(rt.len() == 1);
                }
                None
            } else {
                proof {
                    assert(forest_guids(node.children@).count(c0.guid) == 0) by {
                        assert(node_guids(old_node).count(c0.guid) == 0);
                    }
                }
                let r = insert_at_route(&mut node.children, route, from + 1, cat);
                proof {
                    assert(node.children@.len() == entry_keys(node.children@).len());
                    assert(old_node.children@.len() == entry_keys(old_node.children@).len());
                    assert forall|a: int| #![trigger node.children@[a]] 0 <= a < node.children@.len()
                        implies child_named(node.children@[a].1, node) by {
                        assert(old_node.children@[a] == old_node.children@[a]);
                        assert(child_named(old_node.children@[a].1, old_node));
                        assert(node.children@[a].1.full_category_name@ == old_node.children@[a].1.full_category_name@);
                    }
                    assert(node_named(node));
                    assert(text_views(route@).skip(from + 1) =~= rt.drop_first());
                    if r is None {
                        assert(node_guids(node) =~= node_guids(old_node).add(node_guids(c0)));
                    } else {
                        assert(node_guids(node) =~= node_guids(old_node).add(Multiset::empty()));
                    }
                }
                r
            };
            proof {
                assert(forest@ =~= f0.remove(i as int));
                if r is None {
                    lemma_replace_node(f0, i as int, node, node_guids(c0));
                } else {
                    lemma_replace_node(f0, i as int, node, Multiset::empty());
                    assert(forest_guids(f0).add(Multiset::empty()) =~= forest_guids(f0));
                }
            }
            forest.insert(i, (k, node));
            proof {
                assert(forest@ =~= f0.update(i as int, (f0[i as int].0, node)));
                lemma_named_update(f0, i as int, (f0[i as int].0, node));
                assert forall|a: int| 0 <= a < forest@.len() implies (#[trigger] forest@[a]).1.full_category_name@
                    == f0[a].1.full_category_name@ && forest@[a].1.relative_category_name@
                    == f0[a].1.relative_category_name@ by {
                    if a != i {
                        assert(forest@[a] == f0[a]);
                    }
                }
                if r is None {
                    assert(first_named(f0, rt[0]) == Some(i as int));
                    assert forall|b: int| 0 <= b < f0.len() && b != i implies forest@[b] == f0[b] by {}
                    if rt.len() > 1 {
                        assert(text_views(route@).skip(from + 1) =~= rt.drop_first());
                    }
                    assert(inserted_at(f0, forest@, rt, c0));
                }
            }
            return r;
        }
        i = i + 1;
    }
    proof {
        assert(first_named(old(forest)@, seg@) is None);
    }
    Some(cat)
}

/// Removing a category of a forest takes its UUIDs out.
proof fn lemma_forest_guids_remove(f: Seq<(u128, Category)>, i: int)
    requires
        0 <= i < f.len(),
    ensures
        forest_guids(f.remove(i)).add(node_guids(f[i].1)) == forest_guids(f),
    decreases f.len(),
{
    let g = f.remove(i);
    if i == f.len() - 1 {
        assert(g =~= f.drop_last());
        assert(forest_guids(f) == forest_guids(f.drop_last()).add(node_guids(f.last().1)));
    } else {
        let p = f.drop_last();
        lemma_forest_guids_remove(p, i);
        assert(p[i] == f[i]);
        assert(g.drop_last() =~= p.remove(i));
        assert(g.last() == f.last());
        assert(forest_guids(g) == forest_guids(g.drop_last()).add(node_guids(g.last().1)));
        assert(forest_guids(f) == forest_guids(p).add(node_guids(f.last().1)));
        assert forall|k: u128| #[trigger] forest_guids(g).add(node_guids(f[i].1)).count(k) == forest_guids(f).count(k) by {
            assert(forest_guids(p.remove(i)).add(node_guids(p[i].1)).count(k) == forest_guids(p).count(k));
        }
        assert(forest_guids(g).add(node_guids(f[i].1)) =~= forest_guids(f));
    }
}

/// Removing a category keeps a forest well formed.
proof fn lemma_remove_keeps_wf(f: Seq<(u128, Category)>, i: int)
    requires
        forest_wf(f),
        0 <= i < f.len(),
    ensures
        forest_wf(f.remove(i)),
        forest_wf(f[i].1.children@),
        f[i].1.guid == f[i].0,
{
    let g = f.remove(i);
    assert forall|a: int| 0 <= a < g.len() implies forest_wf(#[trigger] g[a].1.children@) by {
        let aa = if a < i { a } else { a + 1 };
        assert(g[a] == f[aa]);
    }
    assert forall|a: int| 0 <= a < g.len() implies (#[trigger] g[a]).1.guid == g[a].0 by {
        let aa = if a < i { a } else { a + 1 };
        assert(g[a] == f[aa]);
    }
    assert forall|a: int, b: int| 0 <= a < b < g.len() implies g[a].0 != g[b].0 by {
        let aa = if a < i { a } else { a + 1 };
        let bb = if b < i { b } else { b + 1 };
        assert(g[a] == f[aa] && g[b] == f[bb]);
    }
}

/// The route to the parent of a category: the chunks of its full name but
/// the last.
fn parent_route(full: &String) -> (route: Vec<String>)
    ensures
        route@.len() == char_positions(full@, '.').len(),
        forall|n: int| 0 <= n < route@.len() ==> #[trigger] route@[n]@ == chunk(full@, '.', n),
{
    let count = count_matches(full.as_str(), '.');
    let mut route: Vec<String> = Vec::new();
    let mut n: usize = 0;
    while n < count
        invariant
            count == char_positions(full@, '.').len(),
            0 <= n <= count,
            route@.len() == n,
            forall|q: int| 0 <= q < n ==> #[trigger] route@[q]@ == chunk(full@, '.', q),
        decreases count - n,
    {
        route.push(nth_chunk(full.as_str(), '.', n));
        n = n + 1;
    }
    route
}

/// Whether no category at the top of the forest has a parent.
pub open spec fn all_parentless(f: Seq<(u128, Category)>) -> bool {
    forall|a: int| #![trigger f[a]] 0 <= a < f.len() ==> f[a].1.parent is None
}

/// The two forests have, place by place, the same categories at the top,
/// up to their sub-categories.
pub open spec fn same_tops(a: Seq<(u128, Category)>, b: Seq<(u128, Category)>) -> bool {
    &&& a.len() == b.len()
    &&& forall|i: int| #![trigger a[i]] 0 <= i < a.len() ==> {
        &&& a[i].0 == b[i].0
        &&& a[i].1.parent == b[i].1.parent
        &&& a[i].1.full_category_name@ == b[i].1.full_category_name@
        &&& a[i].1.relative_category_name@ == b[i].1.relative_category_name@
    }
}

/// A category at the top of the forest has that relative name.
pub open spec fn top_named(f: Seq<(u128, Category)>, name: Seq<char>) -> bool {
    exists|a: int| 0 <= a < f.len() && (#[trigger] f[a]).1.relative_category_name@ == name
}

/// The category of UUID `k` is at the top of the forest, with that
/// relative name.
pub open spec fn top_at(f: Seq<(u128, Category)>, k: u128, name: Seq<char>) -> bool {
    exists|a: int| 0 <= a < f.len() && (#[trigger] f[a]).0 == k && f[a].1.relative_category_name@ == name
}

/// Every category with a parent is one level deep: its full name has one
/// dot, and the chunk before it is the relative name of a category without
/// parent.
pub open spec fn one_level(f: Seq<(u128, Category)>) -> bool {
    forall|a: int| #![trigger f[a]] 0 <= a < f.len() && f[a].1.parent is Some ==> {
        &&& char_positions(f[a].1.full_category_name@, '.').len() == 1
        &&& exists|b: int| 0 <= b < f.len() && (#[trigger] f[b]).1.parent is None
            && f[b].1.relative_category_name@ == chunk(f[a].1.full_category_name@, '.', 0)
    }
}

/// A forest changed by `insert_at_route` keeps its categories at the top.
proof fn lemma_same_tops(a: Seq<(u128, Category)>, b: Seq<(u128, Category)>)
    requires
        entry_keys(a) == entry_keys(b),
        forall|i: int| 0 <= i < a.len() ==> (#[trigger] a[i]).1.parent == b[i].1.parent,
        forall|i: int| 0 <= i < a.len() ==> (#[trigger] a[i]).1.full_category_name@ == b[i].1.full_category_name@,
        forall|i: int| 0 <= i < a.len() ==> (#[trigger] a[i]).1.relative_category_name@ == b[i].1.relative_category_name@,
    ensures
        same_tops(a, b),
{
    assert(a.len() == entry_keys(a).len());
    assert(b.len() == entry_keys(b).len());
    assert forall|i: int| 0 <= i < a.len() implies #[trigger] a[i].0 == b[i].0 by {
        assert(entry_keys(a)[i] == a[i].0);
        assert(entry_keys(b)[i] == b[i].0);
    }
}

/// The category `e` sits rightly under `x`: `x` is its parent, its full
/// name is `x`'s, a dot and its relative name, and it has no
/// sub-category.
pub open spec fn child_ok(x: (u128, Category), e: (u128, Category)) -> bool {
    &&& e.1.parent == Some(x.0)
    &&& e.1.full_category_name@ == x.1.full_category_name@ + seq!['.'] + e.1.relative_category_name@
    &&& e.1.children@.len() == 0
}

/// A forest two levels deep: the categories at the top with a parent have
/// no sub-category, and every sub-category sits rightly under its
/// category.
pub open spec fn two_level_tops(f: Seq<(u128, Category)>) -> bool {
    forall|a: int| #![trigger f[a]] 0 <= a < f.len() ==> {
        &&& (f[a].1.parent is Some ==> f[a].1.children@.len() == 0)
        &&& forall|c: int| 0 <= c < f[a].1.children@.len() ==> child_ok(f[a], #[trigger] f[a].1.children@[c])
    }
}

/// The category fits a forest two levels deep: without parent, its
/// sub-categories sit rightly under it; with one, it has no sub-category,
/// one dot in its full name, and every category at the top of `t` or `r`
/// named by the chunk before that dot is its parent, without parent
/// itself, with the full name its own extends.
pub open spec fn fits(cat: Category, t: Seq<(u128, Category)>, r: Seq<(u128, Category)>) -> bool {
    let p = chunk(cat.full_category_name@, '.', 0);
    &&& (cat.parent is None ==> forall|c: int| 0 <= c < cat.children@.len()
        ==> child_ok((cat.guid, cat), #[trigger] cat.children@[c]))
    &&& (cat.parent is Some ==> {
        &&& cat.children@.len() == 0
        &&& char_positions(cat.full_category_name@, '.').len() == 1
        &&& forall|a: int| #![trigger t[a]] 0 <= a < t.len() && t[a].1.relative_category_name@ == p
            ==> t[a].0 == cat.parent->0 && t[a].1.parent is None
                && cat.full_category_name@ == t[a].1.full_category_name@ + seq!['.'] + cat.relative_category_name@
        &&& forall|a: int| #![trigger r[a]] 0 <= a < r.len() && r[a].1.relative_category_name@ == p
            ==> r[a].0 == cat.parent->0 && r[a].1.parent is None
                && cat.full_category_name@ == r[a].1.full_category_name@ + seq!['.'] + cat.relative_category_name@
    })
}

/// Adding a sub-category that sits rightly under a category without parent
/// keeps a forest two levels deep.
proof fn lemma_two_level_add(f: Seq<(u128, Category)>, g: Seq<(u128, Category)>, i: int, e: (u128, Category))
    requires
        two_level_tops(f),
        0 <= i < f.len(),
        f[i].1.parent is None,
        g == f.update(i, (f[i].0, g[i].1)),
        g[i].1.children@ == f[i].1.children@.push(e),
        g[i].1.parent == f[i].1.parent,
        g[i].1.full_category_name@ == f[i].1.full_category_name@,
        child_ok(f[i], e),
    ensures
        two_level_tops(g),
{
    assert forall|a: int| #![trigger g[a]] 0 <= a < g.len() implies {
        &&& (g[a].1.parent is Some ==> g[a].1.children@.len() == 0)
        &&& forall|c: int| 0 <= c < g[a].1.children@.len() ==> child_ok(g[a], #[trigger] g[a].1.children@[c])
    } by {
        if a != i {
            assert(g[a] == f[a]);
        } else {
            assert forall|c: int| 0 <= c < g[a].1.children@.len() implies child_ok(g[a], #[trigger] g[a].1.children@[c]) by {
                if c < f[i].1.children@.len() {
                    assert(g[a].1.children@[c] == f[i].1.children@[c]);
                    assert(child_ok(f[i], f[i].1.children@[c]));
                }
            }
        }
    }
}

/// Takes the category of UUID `g` out of the top of the forest.
fn take_category(third: &mut Vec<(u128, Category)>, g: u128) -> (cat: Category)
    requires
        forest_wf(old(third)@),
        has_key(old(third)@, g),
        forest_named(old(third)@),
    ensures
        forest_wf(final(third)@),
        forest_wf(cat.children@),
        forest_named(final(third)@),
        node_named(cat),
        cat.guid == g,
        forest_guids(final(third)@).add(node_guids(cat)) == forest_guids(old(third)@),
        forall|k: u128| has_key(final(third)@, k) <==> has_key(old(third)@, k) && k != g,
        all_parentless(old(third)@) ==> all_parentless(final(third)@) && cat.parent is None,
        exists|i: int| 0 <= i < old(third)@.len() && old(third)@[i].0 == g && final(third)@ == old(third)@.remove(i)
            && cat == old(third)@[i].1,
{
    let mut idx: usize = 0;
    while idx < third.len() && third[idx].0 != g
        invariant
            0 <= idx <= third.len(),
            third@ == old(third)@,
            forall|j: int| 0 <= j < idx ==> third@[j].0 != g,
        decreases third.len() - idx,
    {
        idx = idx + 1;
    }
    if idx >= third.len() {
        proof {
            let j = choose|j: int| 0 <= j < third@.len() && third@[j].0 == g;
        }
    }
    let ghost t0 = third@;
    proof {
        lemma_remove_keeps_wf(t0, idx as int);
        lemma_forest_guids_remove(t0, idx as int);
        lemma_named_remove(t0, idx as int);
    }
    let (_, cat) = third.remove(idx);
    proof {
        assert(third@ == t0.remove(idx as int));
        if all_parentless(t0) {
            assert(cat == t0[idx as int].1);
            assert forall|a: int| #![trigger third@[a]] 0 <= a < third@.len() implies third@[a].1.parent is None by {
                let aa = if a < idx { a } else { a + 1 };
                assert(third@[a] == t0[aa]);
            }
        }
        assert forall|k: u128| has_key(third@, k) <==> has_key(t0, k) && k != g by {
            if has_key(third@, k) {
                let a = choose|a: int| 0 <= a < third@.len() && third@[a].0 == k;
                let aa = if a < idx { a } else { a + 1 };
                assert(t0[aa].0 == k);
                assert(aa != idx);
            }
            if has_key(t0, k) && k != g {
                let a = choose|a: int| 0 <= a < t0.len() && t0[a].0 == k;
                assert(a != idx);
                let aa = if a < idx { a } else { a - 1 };
                assert(third@[aa].0 == k);
            }
        }
    }
    cat
}

/// Two lists with the same keys have the same keys.
proof fn lemma_same_keys(a: Seq<(u128, Category)>, b: Seq<(u128, Category)>)
    requires
        entry_keys(a) == entry_keys(b),
    ensures
        forall|k: u128| has_key(a, k) <==> has_key(b, k),
{
    assert(a.len() == entry_keys(a).len());
    assert(b.len() == entry_keys(b).len());
    assert forall|k: u128| has_key(a, k) <==> has_key(b, k) by {
        if has_key(a, k) {
            let i = choose|i: int| 0 <= i < a.len() && a[i].0 == k;
            assert(entry_keys(a)[i] == k);
            assert(b[i].0 == entry_keys(b)[i]);
        }
        if has_key(b, k) {
            let i = choose|i: int| 0 <= i < b.len() && b[i].0 == k;
            assert(entry_keys(b)[i] == k);
            assert(a[i].0 == entry_keys(a)[i]);
        }
    }
}

/// The names of the ancestors of a category, from the top: the chunks of
/// its full name but the last.
pub open spec fn route_of(full: Seq<char>) -> Seq<Seq<char>> {
    name_path(full, '.').take(char_positions(full, '.').len() as int)
}

/// Places one category: under the category its route leads to among those
/// not placed yet, else among those placed; without parent, at the top.
/// Gives the category back when it has a parent and its route leads nowhere.
#[verifier::rlimit(100)]
#[verifier::spinoff_prover]
fn place_one(third: &mut Vec<(u128, Category)>, root: &mut Vec<(u128, Category)>, cat: Category) -> (r: Option<Category>)
    requires
        forest_wf(old(third)@),
        forest_wf(old(root)@),
        forest_wf(cat.children@),
        forest_guids(old(third)@).count(cat.guid) == 0,
        forest_guids(old(root)@).count(cat.guid) == 0,
        forall|a: int| 0 <= a < old(root)@.len() ==> (#[trigger] old(root)@[a]).1.parent is None,
        forest_named(old(third)@),
        forest_named(old(root)@),
        node_named(cat),
    ensures
        forest_wf(final(third)@),
        forest_wf(final(root)@),
        forest_named(final(third)@),
        forest_named(final(root)@),
        r is None ==> forest_guids(final(third)@).add(forest_guids(final(root)@))
            == forest_guids(old(third)@).add(forest_guids(old(root)@)).add(node_guids(cat)),
        r matches Some(c) ==> c.parent is Some && c == cat,
        forall|k: u128| has_key(final(third)@, k) <==> has_key(old(third)@, k),
        forall|a: int| 0 <= a < final(root)@.len() ==> (#[trigger] final(root)@[a]).1.parent is None,
        cat.parent is None ==> r is None && final(third)@ == old(third)@,
        cat.parent is None ==> final(root)@ == old(root)@.push((cat.guid, cat)),
        same_tops(final(third)@, old(third)@),
        cat.parent is Some ==> same_tops(final(root)@, old(root)@),
        cat.parent is Some && char_positions(cat.full_category_name@, '.').len() == 1
            && (top_named(old(third)@, chunk(cat.full_category_name@, '.', 0))
                || top_named(old(root)@, chunk(cat.full_category_name@, '.', 0))) ==> r is None,
        two_level_tops(old(third)@) && two_level_tops(old(root)@) && fits(cat, old(third)@, old(root)@)
            ==> two_level_tops(final(third)@) && two_level_tops(final(root)@),
        cat.parent is Some && first_named(old(third)@, route_of(cat.full_category_name@)[0]) is None ==> {
            &&& final(third)@ == old(third)@
            &&& (r is None <==> route_leads(old(root)@, route_of(cat.full_category_name@)))
            &&& (r is None ==> inserted_at(old(root)@, final(root)@, route_of(cat.full_category_name@), cat))
        },
{
    let ghost c0 = cat;
    let ghost t0 = third@;
    let ghost r0 = root@;
    let route = parent_route(&cat.full_category_name);
    proof {
        assert(text_views(route@).skip(0) =~= route_of(c0.full_category_name@));
        if route@.len() == 1 {
            let rt = text_views(route@).skip(0);
            assert(rt.len() == 1);
            assert(rt[0] == chunk(c0.full_category_name@, '.', 0));
            if top_named(t0, rt[0]) {
                assert(first_named(t0, rt[0]) is Some);
                assert(route_leads(t0, rt));
            }
            if top_named(r0, rt[0]) {
                assert(first_named(r0, rt[0]) is Some);
                assert(route_leads(r0, rt));
            }
        }
    }
    if cat.parent.is_some() {
        match insert_at_route(third, &route, 0, cat) {
            None => {
                proof {
                    if two_level_tops(t0) && two_level_tops(r0) && fits(c0, t0, r0) {
                        let rt = text_views(route@).skip(0);
                        assert(rt[0] == chunk(c0.full_category_name@, '.', 0));
                        let i = first_named(t0, rt[0])->0;
                        assert(t0[i].1.relative_category_name@ == rt[0]);
                        lemma_two_level_add(t0, third@, i, (c0.guid, c0));
                    }
                    lemma_same_tops(third@, t0);
                    assert(forest_guids(third@).add(forest_guids(root@)) =~= forest_guids(t0).add(forest_guids(r0)).add(node_guids(c0)));
                    lemma_same_keys(third@, t0);
                }
                None
            },
            Some(back) => {
                proof {
                    lemma_same_keys(third@, t0);
                    lemma_same_tops(third@, t0);
                }
                let r = insert_at_route(root, &route, 0, back);
                proof {
                    if two_level_tops(t0) && two_level_tops(r0) && fits(c0, t0, r0) {
                        let rt = text_views(route@).skip(0);
                        assert(rt[0] == chunk(c0.full_category_name@, '.', 0));
                        assert(third@ == t0);
                        if first_named(r0, rt[0]) is Some {
                            let i = first_named(r0, rt[0])->0;
                            assert(r0[i].1.relative_category_name@ == rt[0]);
                            lemma_two_level_add(r0, root@, i, (c0.guid, c0));
                        } else {
                            assert(root@ == r0);
                        }
                    }
                    lemma_same_tops(root@, r0);
                    if r is None {
                        assert(forest_guids(third@).add(forest_guids(root@)) =~= forest_guids(t0).add(forest_guids(r0)).add(node_guids(c0)));
                    }
                    assert(root@.len() == entry_keys(root@).len());
                    assert(r0.len() == entry_keys(r0).len());
                    assert forall|a: int| 0 <= a < root@.len() implies (#[trigger] root@[a]).1.parent is None by {
                        assert(root@[a].1.parent == r0[a].1.parent);
                    }
                }
                r
            },
        }
    } else {
        proof {
            if has_key(root@, c0.guid) {
                lemma_key_counted(root@, c0.guid);
            }
        }
        insert_category(root, cat);
        proof {
            assert(root@ == r0.push((c0.guid, c0)));
            lemma_named_push(r0, (c0.guid, c0));
            assert(root@.drop_last() =~= r0);
            assert(forest_guids(root@) == forest_guids(r0).add(node_guids(c0)));
            assert(forest_guids(third@).add(forest_guids(root@)) =~= forest_guids(t0).add(forest_guids(r0)).add(node_guids(c0)));
            assert forall|a: int| 0 <= a < root@.len() implies forest_wf(#[trigger] root@[a].1.children@) by {
                if a < r0.len() {
                    assert(root@[a] == r0[a]);
                }
            }
            assert forall|a: int| 0 <= a < root@.len() implies (#[trigger] root@[a]).1.guid == root@[a].0 by {
                if a < r0.len() {
                    assert(root@[a] == r0[a]);
                }
            }
            assert forall|a: int| 0 <= a < root@.len() implies (#[trigger] root@[a]).1.parent is None by {
                if a < r0.len() {
                    assert(root@[a] == r0[a]);
                }
            }
        }
        None
    }
}

/// The two entries hold the same category at the top, up to its
/// sub-categories.
pub open spec fn same_top_entry(x: (u128, Category), y: (u128, Category)) -> bool {
    &&& x.0 == y.0
    &&& x.1.parent == y.1.parent
    &&& x.1.full_category_name@ == y.1.full_category_name@
    &&& x.1.relative_category_name@ == y.1.relative_category_name@
}

/// Each category at the top of `t` is one of `f0`'s, up to its
/// sub-categories.
pub open spec fn tops_from(t: Seq<(u128, Category)>, f0: Seq<(u128, Category)>) -> bool {
    forall|a: int| #![trigger t[a]] 0 <= a < t.len() ==> top_of(t[a], f0)
}

/// The entry holds one of `f0`'s categories, up to its sub-categories.
pub open spec fn top_of(x: (u128, Category), f0: Seq<(u128, Category)>) -> bool {
    exists|b: int| 0 <= b < f0.len() && same_top_entry(x, #[trigger] f0[b])
}

/// Each category of `f0` without parent is at the top of `t` or of `r`.
pub open spec fn parentless_at_top(f0: Seq<(u128, Category)>, t: Seq<(u128, Category)>, r: Seq<(u128, Category)>) -> bool {
    forall|b: int| #![trigger f0[b]] 0 <= b < f0.len() && f0[b].1.parent is None
        ==> top_at(t, f0[b].0, f0[b].1.relative_category_name@) || top_at(r, f0[b].0, f0[b].1.relative_category_name@)
}

/// Taking one category out of the top keeps the others there.
proof fn lemma_tops_remove(t: Seq<(u128, Category)>, f0: Seq<(u128, Category)>, i: int)
    requires
        0 <= i < t.len(),
        tops_from(t, f0),
    ensures
        tops_from(t.remove(i), f0),
        forall|k: u128, n: Seq<char>| top_at(t, k, n) && k != t[i].0 ==> #[trigger] top_at(t.remove(i), k, n),
        top_of(t[i], f0),
{
    let u = t.remove(i);
    assert forall|a: int| #![trigger u[a]] 0 <= a < u.len() implies top_of(u[a], f0) by {
        let aa = if a < i { a } else { a + 1 };
        assert(u[a] == t[aa]);
    }
    assert forall|k: u128, n: Seq<char>| top_at(t, k, n) && k != t[i].0 implies #[trigger] top_at(u, k, n) by {
        let a = choose|a: int| 0 <= a < t.len() && (#[trigger] t[a]).0 == k && t[a].1.relative_category_name@ == n;
        assert(a != i);
        let aa = if a < i { a } else { a - 1 };
        assert(u[aa] == t[a]);
    }
    assert(t[i] == t[i]);
}

/// Forests with the same categories at the top agree on what is there.
proof fn lemma_tops_same(x: Seq<(u128, Category)>, y: Seq<(u128, Category)>, f0: Seq<(u128, Category)>)
    requires
        same_tops(x, y),
    ensures
        tops_from(y, f0) ==> tops_from(x, f0),
        forall|k: u128, n: Seq<char>| top_at(y, k, n) ==> #[trigger] top_at(x, k, n),
        forall|n: Seq<char>| top_named(y, n) ==> #[trigger] top_named(x, n),
{
    if tops_from(y, f0) {
        assert forall|a: int| #![trigger x[a]] 0 <= a < x.len() implies top_of(x[a], f0) by {
            assert(x[a].0 == y[a].0);
            assert(top_of(y[a], f0));
            let b = choose|b: int| 0 <= b < f0.len() && same_top_entry(y[a], #[trigger] f0[b]);
            assert(same_top_entry(x[a], f0[b]));
        }
    }
    assert forall|k: u128, n: Seq<char>| top_at(y, k, n) implies #[trigger] top_at(x, k, n) by {
        let a = choose|a: int| 0 <= a < y.len() && (#[trigger] y[a]).0 == k && y[a].1.relative_category_name@ == n;
        assert(x[a].0 == y[a].0);
    }
    assert forall|n: Seq<char>| top_named(y, n) implies #[trigger] top_named(x, n) by {
        let a = choose|a: int| 0 <= a < y.len() && (#[trigger] y[a]).1.relative_category_name@ == n;
        assert(x[a].0 == y[a].0);
    }
}

/// Pushing a category keeps the others at the top and puts it there.
proof fn lemma_tops_push(r: Seq<(u128, Category)>, e: (u128, Category))
    ensures
        forall|k: u128, n: Seq<char>| top_at(r, k, n) ==> #[trigger] top_at(r.push(e), k, n),
        top_at(r.push(e), e.0, e.1.relative_category_name@),
{
    let q = r.push(e);
    assert forall|k: u128, n: Seq<char>| top_at(r, k, n) implies #[trigger] top_at(q, k, n) by {
        let a = choose|a: int| 0 <= a < r.len() && (#[trigger] r[a]).0 == k && r[a].1.relative_category_name@ == n;
        assert(q[a] == r[a]);
    }
    assert(q[r.len() as int] == e);
}

/// A category at the top under a UUID makes its name found at the top.
proof fn lemma_top_at_named(f: Seq<(u128, Category)>, k: u128, n: Seq<char>)
    requires
        top_at(f, k, n),
    ensures
        top_named(f, n),
{
    let a = choose|a: int| 0 <= a < f.len() && (#[trigger] f[a]).0 == k && f[a].1.relative_category_name@ == n;
    assert(f[a].1.relative_category_name@ == n);
}

/// Two categories of a forest with distinct keys and the same key are one.
proof fn lemma_same_key_same_place(f: Seq<(u128, Category)>, a: int, b: int)
    requires
        distinct_keys(f),
        0 <= a < f.len(),
        0 <= b < f.len(),
        f[a].0 == f[b].0,
    ensures
        a == b,
{
    if a < b {
        assert(f[a].0 != f[b].0);
    } else if b < a {
        assert(f[b].0 != f[a].0);
    }
}

/// Placing the category taken from the top keeps every category without
/// parent at the top of one forest or the other.
proof fn lemma_parentless_step(
    third0: Seq<(u128, Category)>,
    t0: Seq<(u128, Category)>,
    r1: Seq<(u128, Category)>,
    third: Seq<(u128, Category)>,
    root: Seq<(u128, Category)>,
    i0: int,
)
    requires
        distinct_keys(third0),
        tops_from(t0, third0),
        parentless_at_top(third0, t0, r1),
        0 <= i0 < t0.len(),
        same_tops(third, t0.remove(i0)),
        t0[i0].1.parent is None ==> root == r1.push(t0[i0]),
        t0[i0].1.parent is Some ==> same_tops(root, r1),
    ensures
        parentless_at_top(third0, third, root),
{
    let t1 = t0.remove(i0);
    lemma_tops_remove(t0, third0, i0);
    lemma_tops_same(third, t1, third0);
    lemma_tops_push(r1, t0[i0]);
    if t0[i0].1.parent is Some {
        lemma_tops_same(root, r1, third0);
    }
    assert forall|b: int| #![trigger third0[b]] 0 <= b < third0.len() && third0[b].1.parent is None
        implies top_at(third, third0[b].0, third0[b].1.relative_category_name@)
            || top_at(root, third0[b].0, third0[b].1.relative_category_name@) by {
        let k = third0[b].0;
        let n = third0[b].1.relative_category_name@;
        if k == t0[i0].0 {
            let bc = choose|bc: int| 0 <= bc < third0.len() && same_top_entry(t0[i0], #[trigger] third0[bc]);
            lemma_same_key_same_place(third0, b, bc);
            assert(top_at(root, t0[i0].0, t0[i0].1.relative_category_name@));
        } else {
            if top_at(t0, k, n) {
                assert(top_at(t1, k, n));
            }
        }
    }
}

/// Categories to place two levels deep: none has a sub-category yet; each
/// with a parent has one dot in its full name and extends the full name of
/// its parent, a category without parent named by the chunk before that
/// dot; no category with a parent is named like one without, and no two
/// without parent share a name.
pub open spec fn two_level(f: Seq<(u128, Category)>) -> bool {
    &&& forall|a: int| #![trigger f[a]] 0 <= a < f.len() ==> f[a].1.children@.len() == 0
    &&& forall|a: int| #![trigger f[a]] 0 <= a < f.len() && f[a].1.parent is Some ==> {
        &&& char_positions(f[a].1.full_category_name@, '.').len() == 1
        &&& exists|b: int| 0 <= b < f.len() && (#[trigger] f[b]).0 == f[a].1.parent->0 && f[b].1.parent is None
            && f[b].1.relative_category_name@ == chunk(f[a].1.full_category_name@, '.', 0)
            && f[a].1.full_category_name@ == f[b].1.full_category_name@ + seq!['.'] + f[a].1.relative_category_name@
    }
    &&& forall|a: int, b: int| 0 <= a < f.len() && 0 <= b < f.len() && f[a].1.parent is Some && f[b].1.parent is None
        ==> f[a].1.relative_category_name@ != f[b].1.relative_category_name@
    &&& forall|a: int, b: int| 0 <= a < f.len() && 0 <= b < f.len() && a != b && f[a].1.parent is None && f[b].1.parent is None
        ==> f[a].1.relative_category_name@ != f[b].1.relative_category_name@
}

/// A category taken from the top of forests built from categories two
/// levels deep fits them.
proof fn lemma_fits(third0: Seq<(u128, Category)>, t: Seq<(u128, Category)>, r: Seq<(u128, Category)>, cat: Category)
    requires
        two_level(third0),
        tops_from(t, third0),
        tops_from(r, third0),
        top_of((cat.guid, cat), third0),
        cat.parent is Some ==> cat.children@.len() == 0,
        forall|c: int| 0 <= c < cat.children@.len() ==> child_ok((cat.guid, cat), #[trigger] cat.children@[c]),
    ensures
        fits(cat, t, r),
{
    let p = chunk(cat.full_category_name@, '.', 0);
    if cat.parent is Some {
        let bc = choose|bc: int| 0 <= bc < third0.len() && same_top_entry((cat.guid, cat), #[trigger] third0[bc]);
        assert(third0[bc].1.parent is Some);
        let b = choose|b: int| 0 <= b < third0.len() && (#[trigger] third0[b]).0 == third0[bc].1.parent->0
            && third0[b].1.parent is None
            && third0[b].1.relative_category_name@ == chunk(third0[bc].1.full_category_name@, '.', 0)
            && third0[bc].1.full_category_name@ == third0[b].1.full_category_name@ + seq!['.'] + third0[bc].1.relative_category_name@;
        assert forall|a: int| #![trigger t[a]] 0 <= a < t.len() && t[a].1.relative_category_name@ == p
            implies t[a].0 == cat.parent->0 && t[a].1.parent is None
                && cat.full_category_name@ == t[a].1.full_category_name@ + seq!['.'] + cat.relative_category_name@ by {
            assert(top_of(t[a], third0));
            let b2 = choose|b2: int| 0 <= b2 < third0.len() && same_top_entry(t[a], #[trigger] third0[b2]);
            if third0[b2].1.parent is Some {
                assert(third0[b2].1.relative_category_name@ != third0[b].1.relative_category_name@);
            }
            if b2 != b {
                assert(third0[b2].1.relative_category_name@ != third0[b].1.relative_category_name@);
            }
        }
        assert forall|a: int| #![trigger r[a]] 0 <= a < r.len() && r[a].1.relative_category_name@ == p
            implies r[a].0 == cat.parent->0 && r[a].1.parent is None
                && cat.full_category_name@ == r[a].1.full_category_name@ + seq!['.'] + cat.relative_category_name@ by {
            assert(top_of(r[a], third0));
            let b2 = choose|b2: int| 0 <= b2 < third0.len() && same_top_entry(r[a], #[trigger] third0[b2]);
            if third0[b2].1.parent is Some {
                assert(third0[b2].1.relative_category_name@ != third0[b].1.relative_category_name@);
            }
            if b2 != b {
                assert(third0[b2].1.relative_category_name@ != third0[b].1.relative_category_name@);
            }
        }
    }
}

/// How many dots a name holds.
pub open spec fn dots_of(s: Seq<char>) -> int {
    char_positions(s, '.').len() as int
}

/// Categories ready to be placed as a tree, in their order: none has a
/// sub-category yet, no two share a full name, each is named by the last
/// chunk of its full name and has a parent exactly when that name has a
/// dot; every ancestor name of a category is the full name of an earlier
/// one, the longest being its parent; and no chunk after the first of a
/// name is the first chunk of a name.
#[verifier::opaque]
pub open spec fn ready_to_place(c: Seq<(u128, Category)>) -> bool {
    &&& forall|q: int| #![trigger c[q]] 0 <= q < c.len() ==> {
        &&& c[q].1.children@.len() == 0
        &&& c[q].1.relative_category_name@ == chunk(c[q].1.full_category_name@, '.', dots_of(c[q].1.full_category_name@))
        &&& (c[q].1.parent is None) == (dots_of(c[q].1.full_category_name@) == 0)
        &&& forall|n: int| #![trigger prefix_before(c[q].1.full_category_name@, '.', n)]
            0 <= n < dots_of(c[q].1.full_category_name@) ==> exists|q2: int| 0 <= q2 < q
            && (#[trigger] c[q2]).1.full_category_name@ == prefix_before(c[q].1.full_category_name@, '.', n)->0
        &&& dots_of(c[q].1.full_category_name@) > 0 ==> exists|q2: int| 0 <= q2 < q
            && (#[trigger] c[q2]).1.full_category_name@
                == prefix_before(c[q].1.full_category_name@, '.', dots_of(c[q].1.full_category_name@) - 1)->0
            && c[q].1.parent == Some(c[q2].0)
    }
    &&& forall|a: int, b: int| 0 <= a < c.len() && 0 <= b < c.len() && a != b
        ==> c[a].1.full_category_name@ != c[b].1.full_category_name@
    &&& forall|a: int, b: int, n: int| #![trigger chunk(c[a].1.full_category_name@, '.', n), c[b]]
        0 <= a < c.len() && 0 <= b < c.len() && 1 <= n <= dots_of(c[a].1.full_category_name@)
        ==> chunk(c[a].1.full_category_name@, '.', n) != chunk(c[b].1.full_category_name@, '.', 0)
}

/// When categories ready to be placed are placed in order, none of those
/// still to place is named by the first chunk of the next one with a
/// parent.
proof fn lemma_rest_misses(c: Seq<(u128, Category)>, i: int)
    requires
        ready_to_place(c),
        0 <= i < c.len(),
        c[i].1.parent is Some,
    ensures
        first_named(c.subrange(i + 1, c.len() as int), route_of(c[i].1.full_category_name@)[0]) is None,
{
    reveal(ready_to_place);
    let f = c[i].1.full_category_name@;
    let t = c.subrange(i + 1, c.len() as int);
    let r0 = chunk(f, '.', 0);
    assert(dots_of(f) > 0);
    assert(route_of(f)[0] == r0);
    law_prefix_extends(f, '.', 0);
    let q2 = choose|q2: int| 0 <= q2 < i && (#[trigger] c[q2]).1.full_category_name@ == prefix_before(f, '.', 0)->0;
    assert(c[q2].1.full_category_name@ == r0);
    assert forall|b: int| 0 <= b < t.len() implies t[b].1.relative_category_name@ != r0 by {
        let j = i + 1 + b;
        assert(t[b] == c[j]);
        let e = c[j].1.full_category_name@;
        if dots_of(e) >= 1 {
            assert(chunk(e, '.', dots_of(e)) != chunk(f, '.', 0));
        } else {
            lemma_single_chunk(e, '.');
            if e == r0 {
                assert(c[q2].1.full_category_name@ == c[j].1.full_category_name@);
            }
        }
    }
    lemma_first_named(t, r0);
}

/// What the category a path leads to shares with the forest: it is well
/// formed below, shaped under itself, and one of the members.
proof fn lemma_node_at_facts(f: Seq<(u128, Category)>, p: Seq<Seq<char>>, par: Option<(u128, Seq<char>)>, cats: Seq<(u128, Category)>)
    requires
        forest_wf(f),
        shaped_forest(f, par),
        member_forest(f, cats),
        node_at(f, p) is Some,
    ensures
        forest_wf(node_at(f, p)->0.children@),
        shaped_forest(node_at(f, p)->0.children@, Some((node_at(f, p)->0.guid, node_at(f, p)->0.full_category_name@))),
        member_node(node_at(f, p)->0, cats),
    decreases p.len(),
{
    lemma_first_named(f, p[0]);
    let i = first_named(f, p[0])->0;
    assert(member_node(f[i].1, cats));
    assert(shaped_node(f[i].1, par));
    if p.len() > 1 {
        lemma_node_at_facts(f[i].1.children@, p.drop_first(), Some((f[i].1.guid, f[i].1.full_category_name@)), cats);
    }
}

/// The first `i` categories are placed: the rest are still to place, in
/// order, and the placed ones form a shaped tree of members, each at the
/// path of its full name.
#[verifier::opaque]
pub open spec fn placed_so_far(c: Seq<(u128, Category)>, i: int, t: Seq<(u128, Category)>, r: Seq<(u128, Category)>) -> bool {
    &&& t == c.subrange(i, c.len() as int)
    &&& shaped_forest(r, None)
    &&& member_forest(r, c)
    &&& forall|q: int| 0 <= q < i ==> at_path(r, name_path(#[trigger] c[q].1.full_category_name@, '.'), c[q].0)
}

/// The category found at the path of a name has that UUID, display name and
/// flags.
pub open spec fn found_with(f: Seq<(u128, Category)>, name: Seq<char>, guid: u128, display: Seq<char>, separator: bool, enabled: bool) -> bool {
    &&& node_at(f, name_path(name, '.')) is Some
    &&& node_at(f, name_path(name, '.'))->0.guid == guid
    &&& node_at(f, name_path(name, '.'))->0.display_name@ == display
    &&& node_at(f, name_path(name, '.'))->0.separator == separator
    &&& node_at(f, name_path(name, '.'))->0.default_enabled == enabled
}

/// The category found at the path of a name: one of the forest of that
/// UUID, display name and flags.
pub open spec fn found_as(f: Seq<(u128, Category)>, name: Seq<char>, c: (u128, Category)) -> bool {
    &&& node_at(f, name_path(name, '.')) is Some
    &&& node_at(f, name_path(name, '.'))->0.guid == c.0
    &&& node_at(f, name_path(name, '.'))->0.display_name@ == c.1.display_name@
    &&& node_at(f, name_path(name, '.'))->0.separator == c.1.separator
    &&& node_at(f, name_path(name, '.'))->0.default_enabled == c.1.default_enabled
}

/// When every category is placed, each is found at the path of its full
/// name, with its display name and flags.
proof fn lemma_placed_nodes(c: Seq<(u128, Category)>, t: Seq<(u128, Category)>, r: Seq<(u128, Category)>)
    requires
        forest_wf(c),
        forest_wf(r),
        placed_so_far(c, c.len() as int, t, r),
    ensures
        forall|q: int| 0 <= q < c.len() ==> found_as(r, #[trigger] c[q].1.full_category_name@, c[q]),
{
    reveal(placed_so_far);
    assert forall|q: int| 0 <= q < c.len() implies found_as(r, #[trigger] c[q].1.full_category_name@, c[q]) by {
        let path = name_path(c[q].1.full_category_name@, '.');
        assert(at_path(r, path, c[q].0));
        lemma_path_leads(r, None, path, c[q].0);
        lemma_node_at_facts(r, path, None, c);
        let n = node_at(r, path)->0;
        let q2 = choose|q2: int| 0 <= q2 < c.len() && (#[trigger] c[q2]).0 == n.guid
            && c[q2].1.full_category_name@ == n.full_category_name@
            && c[q2].1.display_name@ == n.display_name@
            && c[q2].1.separator == n.separator
            && c[q2].1.default_enabled == n.default_enabled;
        if q2 < q {
            assert(c[q2].0 != c[q].0);
        } else if q < q2 {
            assert(c[q].0 != c[q2].0);
        }
    }
}

/// Taking the next category to place: it is the one at `i`, and the rest
/// follow; with a parent, none of the rest is named by its first chunk.
proof fn lemma_take_step(
    c: Seq<(u128, Category)>,
    i: int,
    t0: Seq<(u128, Category)>,
    r1: Seq<(u128, Category)>,
    t1: Seq<(u128, Category)>,
    i0: int,
    cat: Category,
)
    requires
        ready_to_place(c),
        forest_wf(c),
        forest_wf(t0),
        placed_so_far(c, i, t0, r1),
        0 <= i < c.len(),
        0 <= i0 < t0.len(),
        t0[i0].0 == c[i].0,
        t1 == t0.remove(i0),
        cat == t0[i0].1,
    ensures
        t1 == c.subrange(i + 1, c.len() as int),
        cat == c[i].1,
        cat.parent is Some ==> first_named(t1, route_of(cat.full_category_name@)[0]) is None,
{
    reveal(placed_so_far);
    assert(t0[0] == c[i]);
    if i0 != 0 {
        assert(t0[0].0 != t0[i0].0);
    }
    assert(t1 =~= c.subrange(i + 1, c.len() as int));
    if cat.parent is Some {
        lemma_rest_misses(c, i);
    }
}

/// One step of placing, bundled.
proof fn lemma_placed_step(
    c: Seq<(u128, Category)>,
    i: int,
    t0: Seq<(u128, Category)>,
    r1: Seq<(u128, Category)>,
    t2: Seq<(u128, Category)>,
    r2: Seq<(u128, Category)>,
    placed: bool,
)
    requires
        ready_to_place(c),
        forest_wf(c),
        0 <= i < c.len(),
        forest_wf(r1),
        placed_so_far(c, i, t0, r1),
        t2 == c.subrange(i + 1, c.len() as int),
        forest_guids(r1).count(c[i].0) == 0,
        c[i].1.parent is None ==> placed && r2 == r1.push((c[i].1.guid, c[i].1)),
        c[i].1.parent is Some ==> (placed <==> route_leads(r1, route_of(c[i].1.full_category_name@))),
        c[i].1.parent is Some && placed ==> inserted_at(r1, r2, route_of(c[i].1.full_category_name@), c[i].1),
    ensures
        placed,
        placed_so_far(c, i + 1, t2, r2),
{
    reveal(placed_so_far);
    lemma_place_step(c, i, r1, r2, placed);
}

/// One step of placing categories ready to be placed: the next one goes to
/// the top, or right under its parent, and the tree stays shaped.
proof fn lemma_place_step(
    c: Seq<(u128, Category)>,
    i: int,
    r1: Seq<(u128, Category)>,
    r2: Seq<(u128, Category)>,
    placed: bool,
)
    requires
        ready_to_place(c),
        forest_wf(c),
        0 <= i < c.len(),
        forest_wf(r1),
        shaped_forest(r1, None),
        member_forest(r1, c),
        forall|q: int| 0 <= q < i ==> at_path(r1, name_path(#[trigger] c[q].1.full_category_name@, '.'), c[q].0),
        forest_guids(r1).count(c[i].0) == 0,
        c[i].1.parent is None ==> placed && r2 == r1.push((c[i].1.guid, c[i].1)),
        c[i].1.parent is Some ==> (placed <==> route_leads(r1, route_of(c[i].1.full_category_name@))),
        c[i].1.parent is Some && placed ==> inserted_at(r1, r2, route_of(c[i].1.full_category_name@), c[i].1),
    ensures
        placed,
        shaped_forest(r2, None),
        member_forest(r2, c),
        forall|q: int| 0 <= q < i + 1 ==> at_path(r2, name_path(#[trigger] c[q].1.full_category_name@, '.'), c[q].0),
{
    reveal(ready_to_place);
    let cat = c[i].1;
    let f = cat.full_category_name@;
    let k = dots_of(f);
    assert(cat.guid == c[i].0);
    assert(c[i].1.children@ =~= Seq::<(u128, Category)>::empty());
    assert(member_forest(cat.children@, c));
    assert(member_node(cat, c));
    if cat.parent is None {
        assert(k == 0);
        lemma_single_chunk(f, '.');
        lemma_char_positions_facts(f, '.');
        assert(!cat.relative_category_name@.contains('.'));
        assert(shaped_forest(cat.children@, Some((cat.guid, f))));
        assert(shaped_node(cat, None));
        assert forall|a: int| #![trigger r2[a]] 0 <= a < r2.len() implies shaped_node(r2[a].1, None) by {
            if a < r1.len() {
                assert(r2[a] == r1[a]);
            }
        }
        assert forall|a: int, b: int| 0 <= a < b < r2.len() implies r2[a].1.relative_category_name@ != r2[b].1.relative_category_name@ by {
            assert(r2[a] == r1[a]);
            if b < r1.len() {
                assert(r2[b] == r1[b]);
            } else if r1[a].1.relative_category_name@ == f {
                assert(shaped_node(r1[a].1, None));
                assert(member_node(r1[a].1, c));
                let q3 = choose|q3: int| 0 <= q3 < c.len() && (#[trigger] c[q3]).0 == r1[a].1.guid
                    && c[q3].1.full_category_name@ == r1[a].1.full_category_name@;
                assert(q3 == i);
                lemma_key_counted(r1, r1[a].0);
            }
        }
        assert(shaped_forest(r2, None));
        assert forall|a: int| #![trigger r2[a]] 0 <= a < r2.len() implies member_node(r2[a].1, c) by {
            if a < r1.len() {
                assert(r2[a] == r1[a]);
            }
        }
        assert(member_forest(r2, c));
        assert forall|q: int| 0 <= q < i + 1 implies at_path(r2, name_path(#[trigger] c[q].1.full_category_name@, '.'), c[q].0) by {
            if q < i {
                lemma_at_path_push(r1, name_path(c[q].1.full_category_name@, '.'), c[q].0, (cat.guid, cat));
            } else {
                let p = name_path(f, '.');
                assert(p.len() == 1);
                assert(p[0] == f);
                assert(r2[r1.len() as int] == (cat.guid, cat));
            }
        }
    } else {
        assert(k > 0);
        let q2 = choose|q2: int| 0 <= q2 < i && (#[trigger] c[q2]).1.full_category_name@
            == prefix_before(f, '.', k - 1)->0 && cat.parent == Some(c[q2].0);
        let route = route_of(f);
        lemma_prefix_chunks(f, '.', k - 1);
        assert(name_path(c[q2].1.full_category_name@, '.') =~= route);
        assert(at_path(r1, route, c[q2].0));
        lemma_path_leads(r1, None, route, c[q2].0);
        assert(placed);
        let n = node_at(r1, route)->0;
        lemma_node_at_facts(r1, route, None, c);
        let q3 = choose|q3: int| 0 <= q3 < c.len() && (#[trigger] c[q3]).0 == n.guid
            && c[q3].1.full_category_name@ == n.full_category_name@;
        assert(q3 == q2) by {
            if q3 != q2 {
                assert(c[q3].0 != c[q2].0) by {
                    if q3 < q2 {
                        assert(c[q3].0 != c[q2].0);
                    } else {
                        assert(c[q2].0 != c[q3].0);
                    }
                }
            }
        }
        law_parent_and_last_chunk(f, '.');
        law_chunk_has_no_separator(f, '.', k);
        assert forall|b: int| 0 <= b < n.children@.len()
            implies (#[trigger] n.children@[b]).1.relative_category_name@ != cat.relative_category_name@ by {
            let ch = n.children@[b].1;
            if ch.relative_category_name@ == cat.relative_category_name@ {
                assert(shaped_node(ch, Some((n.guid, n.full_category_name@))));
                assert(member_node(ch, c));
                let q4 = choose|q4: int| 0 <= q4 < c.len() && (#[trigger] c[q4]).0 == ch.guid
                    && c[q4].1.full_category_name@ == ch.full_category_name@;
                assert(q4 == i);
                lemma_node_at_counted(r1, route);
                lemma_node_in_forest(n.children@, b);
                assert(node_guids(ch).count(ch.guid) > 0);
                assert(node_guids(n) == Multiset::singleton(n.guid).add(forest_guids(n.children@)));
            }
        }
        lemma_inserted_shaped(r1, r2, route, cat, None);
        lemma_inserted_members(r1, r2, route, cat, c);
        lemma_inserted_found(r1, r2, route, cat);
        assert(route.push(cat.relative_category_name@) =~= name_path(f, '.'));
        assert forall|q: int| 0 <= q < i + 1 implies at_path(r2, name_path(#[trigger] c[q].1.full_category_name@, '.'), c[q].0) by {
            if q < i {
                lemma_inserted_keeps(r1, r2, route, cat, name_path(c[q].1.full_category_name@, '.'), c[q].0);
            }
        }
    }
}

/// Places each category, in the order given, under the category its route
/// leads to among those not placed yet, else among those placed; a
/// category without parent goes to the top. Gives back the first category
/// with a parent whose route leads nowhere.
#[verifier::rlimit(80)]
#[verifier::spinoff_prover]
fn place_categories(forest: Vec<(u128, Category)>, order: &Vec<u128>) -> (r: Result<Vec<(u128, Category)>, Category>)
    requires
        forest_wf(forest@),
        order@.no_duplicates(),
        forall|k: u128| has_key(forest@, k) <==> order@.contains(k),
        forall|k: u128| forest_guids(forest@).count(k) <= 1,
        forest_named(forest@),
    ensures
        all_parentless(forest@) ==> r is Ok,
        one_level(forest@) ==> r is Ok,
        two_level(forest@) ==> (r matches Ok(root) && two_level_tops(root@)),
        ready_to_place(forest@) && order@ == entry_keys(forest@) ==> (r matches Ok(root) && shaped_forest(root@, None)
            && forall|q: int| 0 <= q < forest@.len()
                ==> at_path(root@, name_path(#[trigger] forest@[q].1.full_category_name@, '.'), forest@[q].0)
            && forall|q: int| 0 <= q < forest@.len() ==> found_as(root@, #[trigger] forest@[q].1.full_category_name@, forest@[q])),
        r matches Ok(root) ==> {
            &&& forest_wf(root@)
            &&& forest_named(root@)
            &&& forest_guids(root@) == forest_guids(forest@)
            &&& forall|a: int| 0 <= a < root@.len() ==> (#[trigger] root@[a]).1.parent is None
        },
        r matches Err(c) ==> c.parent is Some && has_key(forest@, c.guid),
{
    let ghost m = forest_guids(forest@);
    let ghost third0 = forest@;
    let mut third = forest;
    let mut root: Vec<(u128, Category)> = Vec::new();
    let ghost h = ready_to_place(third0) && order@ == entry_keys(third0);
    proof {
        assert(third0.subrange(0, third0.len() as int) =~= third0);
        assert(shaped_forest(root@, None));
        assert(member_forest(root@, third0));
        reveal(placed_so_far);
        assert(placed_so_far(third0, 0, third@, root@));
        assert forall|a: int| #![trigger third0[a]] 0 <= a < third0.len() implies top_of(third0[a], third0) by {
            assert(same_top_entry(third0[a], third0[a]));
        }
        assert forall|b: int| #![trigger third0[b]] 0 <= b < third0.len() && third0[b].1.parent is None
            implies top_at(third0, third0[b].0, third0[b].1.relative_category_name@)
                || top_at(root@, third0[b].0, third0[b].1.relative_category_name@) by {
            assert(third0[b] == third0[b]);
        }
        if two_level(third0) {
            assert forall|a: int| #![trigger third0[a]] 0 <= a < third0.len() implies {
                &&& (third0[a].1.parent is Some ==> third0[a].1.children@.len() == 0)
                &&& forall|c: int| 0 <= c < third0[a].1.children@.len() ==> child_ok(third0[a], #[trigger] third0[a].1.children@[c])
            } by {
                assert(third0[a].1.children@.len() == 0);
            }
        }
    }
    let mut i: usize = 0;
    while i < order.len()
        invariant
            0 <= i <= order.len(),
            order@.no_duplicates(),
            distinct_keys(third0),
            tops_from(third@, third0),
            tops_from(root@, third0),
            two_level(third0) ==> two_level_tops(third@) && two_level_tops(root@),
            parentless_at_top(third0, third@, root@),
            forest_wf(third@),
            forest_wf(root@),
            forest_named(third@),
            forest_named(root@),
            all_parentless(third0) ==> all_parentless(third@),
            third0 == forest@,
            forall|k: u128| has_key(third@, k) <==> exists|q: int| i <= q < order@.len() && order@[q] == k,
            forest_guids(third@).add(forest_guids(root@)) == m,
            forall|k: u128| m.count(k) <= 1,
            forall|a: int| 0 <= a < root@.len() ==> (#[trigger] root@[a]).1.parent is None,
            h == (ready_to_place(third0) && order@ == entry_keys(third0)),
            h ==> placed_so_far(third0, i as int, third@, root@),
            forest_wf(third0),
        decreases order.len() - i,
    {
        let g = order[i];
        proof {
            assert(has_key(third@, g));
        }
        let ghost t0 = third@;
        let cat = take_category(&mut third, g);
        proof {
            assert(node_guids(cat).count(cat.guid) >= 1);
            assert(forest_guids(third@).add(forest_guids(root@)).add(node_guids(cat)).count(cat.guid) == m.count(cat.guid));
            assert forall|k: u128| has_key(third@, k) <==> exists|q: int| i + 1 <= q < order@.len() && order@[q] == k by {
                if has_key(third@, k) {
                    let q = choose|q: int| i <= q < order@.len() && order@[q] == k;
                }
                if exists|q: int| i + 1 <= q < order@.len() && order@[q] == k {
                    let q = choose|q: int| i + 1 <= q < order@.len() && order@[q] == k;
                    assert(order@[q] != order@[i as int]);
                }
            }
        }
        let ghost c0 = cat;
        let ghost t1 = third@;
        let ghost r1 = root@;
        let ghost i0 = choose|i0: int| 0 <= i0 < t0.len() && t0[i0].0 == g && t1 == t0.remove(i0) && c0 == t0[i0].1;
        proof {
            lemma_tops_remove(t0, third0, i0);
            assert(t0[i0] == (c0.guid, c0));
            if two_level(third0) {
                assert(two_level_tops(t0));
                assert forall|a: int| #![trigger t1[a]] 0 <= a < t1.len() implies {
                    &&& (t1[a].1.parent is Some ==> t1[a].1.children@.len() == 0)
                    &&& forall|c: int| 0 <= c < t1[a].1.children@.len() ==> child_ok(t1[a], #[trigger] t1[a].1.children@[c])
                } by {
                    let aa = if a < i0 { a } else { a + 1 };
                    assert(t1[a] == t0[aa]);
                }
                assert(two_level_tops(t1));
                lemma_fits(third0, t1, r1, c0);
            }
            if h {
                assert(order@.len() == third0.len()) by {
                    assert(entry_keys(third0).len() == third0.len());
                }
                assert(g == third0[i as int].0) by {
                    assert(entry_keys(third0)[i as int] == third0[i as int].0);
                }
                lemma_take_step(third0, i as int, t0, r1, t1, i0, c0);
                assert(forest_guids(r1).count(c0.guid) == 0);
            }
        }
        match place_one(&mut third, &mut root, cat) {
            None => {
                proof {
                    lemma_parentless_step(third0, t0, r1, third@, root@, i0);
                    lemma_tops_same(third@, t1, third0);
                    if c0.parent is Some {
                        lemma_tops_same(root@, r1, third0);
                    } else {
                        assert forall|a: int| #![trigger root@[a]] 0 <= a < root@.len() implies top_of(root@[a], third0) by {
                            if a < r1.len() {
                                assert(root@[a] == r1[a]);
                            } else {
                                assert(root@[a] == t0[i0]);
                            }
                        }
                    }
                    assert(forest_guids(third@).add(forest_guids(root@)) =~= m);
                    if h {
                        lemma_placed_step(third0, i as int, t0, r1, third@, root@, true);
                    }
                    if all_parentless(third0) {
                        assert(all_parentless(t0));
                        assert(c0.parent is None);
                        assert(third@ == t1);
                    }
                }
            },
            Some(lost) => {
                proof {
                    if all_parentless(third0) {
                        assert(all_parentless(t0));
                        assert(c0.parent is None);
                    }
                    if h {
                        lemma_placed_step(third0, i as int, t0, r1, t1, root@, false);
                    }
                    if one_level(third0) {
                        let bc = choose|bc: int| 0 <= bc < third0.len() && same_top_entry(t0[i0], #[trigger] third0[bc]);
                        assert(third0[bc].1.parent is Some);
                        let b2 = choose|b2: int| 0 <= b2 < third0.len() && (#[trigger] third0[b2]).1.parent is None
                            && third0[b2].1.relative_category_name@ == chunk(third0[bc].1.full_category_name@, '.', 0);
                        let k2 = third0[b2].0;
                        let n2 = third0[b2].1.relative_category_name@;
                        if k2 == g {
                            lemma_same_key_same_place(third0, b2, bc);
                        }
                        if top_at(t0, k2, n2) {
                            assert(top_at(t1, k2, n2));
                            lemma_top_at_named(t1, k2, n2);
                        } else {
                            assert(top_at(r1, k2, n2));
                            lemma_top_at_named(r1, k2, n2);
                        }
                        assert(false);
                    }
                }
                proof {
                    assert(order@.contains(g));
                }
                return Err(lost);
            },
        }
        i = i + 1;
    }
    proof {
        if third@.len() > 0 {
            assert(has_key(third@, third@[0].0));
        }
        assert(forest_guids(third@) =~= Multiset::empty());
        assert(forest_guids(root@) =~= m);
        if h {
            assert(entry_keys(third0).len() == third0.len());
            lemma_placed_nodes(third0, third@, root@);
            reveal(placed_so_far);
        }
    }
    Ok(root)
}

/// In a forest of categories without sub-categories, each UUID counts once
/// at most.
proof fn lemma_leaves_counted(f: Seq<(u128, Category)>)
    requires
        distinct_keys(f),
        forall|i: int| 0 <= i < f.len() ==> (#[trigger] f[i]).1.guid == f[i].0,
        forall|i: int| 0 <= i < f.len() ==> (#[trigger] f[i]).1.children@.len() == 0,
    ensures
        forall|k: u128| #[trigger] forest_guids(f).count(k) == (if has_key(f, k) { 1int } else { 0int }),
        forest_wf(f),
    decreases f.len(),
{
    if f.len() > 0 {
        let p = f.drop_last();
        assert forall|i: int, j: int| 0 <= i < j < p.len() implies p[i].0 != p[j].0 by {
            assert(p[i] == f[i] && p[j] == f[j]);
        }
        assert forall|i: int| 0 <= i < p.len() implies (#[trigger] p[i]).1.guid == p[i].0 by {
            assert(p[i] == f[i]);
        }
        assert forall|i: int| 0 <= i < p.len() implies (#[trigger] p[i]).1.children@.len() == 0 by {
            assert(p[i] == f[i]);
        }
        lemma_leaves_counted(p);
        let last = f.last().1;
        assert(last.children@ =~= Seq::<(u128, Category)>::empty());
        assert(forest_guids(last.children@) =~= Multiset::empty());
        assert forall|k: u128| #[trigger] forest_guids(f).count(k) == (if has_key(f, k) { 1int } else { 0int }) by {
            assert(forest_guids(f) == forest_guids(p).add(node_guids(last)));
            if has_key(f, k) && k != f.last().0 {
                let i = choose|i: int| 0 <= i < f.len() && f[i].0 == k;
                assert(p[i] == f[i]);
            }
            if has_key(p, k) {
                let i = choose|i: int| 0 <= i < p.len() && p[i].0 == k;
                assert(f[i] == p[i]);
                assert(f[f.len() - 1].0 != k);
            }
        }
        assert forall|i: int| 0 <= i < f.len() implies forest_wf(#[trigger] f[i].1.children@) by {
            assert(f[i].1.children@ =~= Seq::<(u128, Category)>::empty());
        }
    } else {
        assert forall|k: u128| #[trigger] forest_guids(f).count(k) == (if has_key(f, k) { 1int } else { 0int }) by {}
    }
}

/// A pass result has no category left to split.
proof fn lemma_nothing_left_to_split(first: Seq<(Seq<char>, RawCategory)>, second: Seq<(Seq<char>, RawCategory)>)
    requires
        pass_result(first, second),
    ensures
        forall|j: int| 0 <= j < second.len() ==> !needs_split(#[trigger] second[j].1),
        split_sources(second, second.len() as int) == 0,
{
    assert forall|j: int| 0 <= j < second.len() implies !needs_split(#[trigger] second[j].1) by {
        let v = second[j].1;
        let k = second[j].0;
        if has_key(first, k) {
            let i = choose|i: int| 0 <= i < first.len() && first[i].0 == k;
            assert(value_at(second, k) == v) by {
                let x = choose|x: int| 0 <= x < second.len() && second[x].0 == k;
                assert(x == j);
            }
            if needs_split(first[i].1) {
                let rel = first[i].1.relative_category_name@;
                lemma_chunk_without_dot(rel, dots(first[i].1));
            }
        } else {
            let (i, n) = choose|i: int, n: int| 0 <= i < first.len() && needs_split(first[i].1)
                && made_up_from(v, first[i].1, n);
            lemma_chunk_without_dot(first[i].1.relative_category_name@, n);
        }
    }
    lemma_no_split_sources(second, second.len() as int);
}

/// A chunk of a dotted name has no dot, so no position of a dot.
proof fn lemma_chunk_without_dot(s: Seq<char>, n: int)
    requires
        0 <= n <= char_positions(s, '.').len(),
    ensures
        char_positions(chunk(s, '.', n), '.').len() == 0,
{
    law_chunk_has_no_separator(s, '.', n);
    let c = chunk(s, '.', n);
    lemma_char_positions_facts(c, '.');
    if char_positions(c, '.').len() > 0 {
        let p = char_positions(c, '.')[0];
        assert(c[p] == '.');
        assert(c.contains('.'));
    }
}

proof fn lemma_no_split_sources(second: Seq<(Seq<char>, RawCategory)>, i: int)
    requires
        i <= second.len(),
        forall|j: int| 0 <= j < second.len() ==> !needs_split(#[trigger] second[j].1),
    ensures
        split_sources(second, i) == 0,
    decreases i,
{
    if i > 0 {
        lemma_no_split_sources(second, i - 1);
        assert(!needs_split(second[i - 1].1));
    }
}

/// The categories of a pass, linked to their parents in `first`, are one
/// level deep: no two share a UUID, and each with a parent has one dot in
/// its full name, whose first chunk is the relative name of one without
/// parent.
pub open spec fn linked_one_level(first: Seq<(Seq<char>, RawCategory)>, second: Seq<(Seq<char>, RawCategory)>) -> bool {
    &&& forall|i: int, j: int| 0 <= i < j < second.len() ==> second[i].1.guid != second[j].1.guid
    &&& forall|j: int| #![trigger second[j]] 0 <= j < second.len() && parent_guid(second[j].1, first) is Some ==> {
        &&& char_positions(second[j].1.full_category_name@, '.').len() == 1
        &&& exists|j2: int| 0 <= j2 < second.len() && parent_guid((#[trigger] second[j2]).1, first) is None
            && second[j2].1.relative_category_name@ == chunk(second[j].1.full_category_name@, '.', 0)
    }
}

/// The categories of a pass, linked to their parents in `first`, are two
/// levels deep: one level deep, each with a parent extends the full name of
/// that parent, which is without parent itself; no category with a parent
/// is named like one without, and no two without parent share a name.
pub open spec fn linked_two_level(first: Seq<(Seq<char>, RawCategory)>, second: Seq<(Seq<char>, RawCategory)>) -> bool {
    &&& linked_one_level(first, second)
    &&& forall|j: int| #![trigger second[j]] 0 <= j < second.len() && parent_guid(second[j].1, first) is Some ==>
        exists|j2: int| 0 <= j2 < second.len() && parent_guid((#[trigger] second[j2]).1, first) is None
            && second[j2].1.guid == parent_guid(second[j].1, first)->0
            && second[j2].1.relative_category_name@ == chunk(second[j].1.full_category_name@, '.', 0)
            && second[j].1.full_category_name@ == second[j2].1.full_category_name@ + seq!['.'] + second[j].1.relative_category_name@
    &&& forall|a: int, b: int| 0 <= a < second.len() && 0 <= b < second.len() && parent_guid(second[a].1, first) is Some
        && parent_guid(second[b].1, first) is None
        ==> second[a].1.relative_category_name@ != second[b].1.relative_category_name@
    &&& forall|a: int, b: int| 0 <= a < second.len() && 0 <= b < second.len() && a != b
        && parent_guid(second[a].1, first) is None && parent_guid(second[b].1, first) is None
        ==> second[a].1.relative_category_name@ != second[b].1.relative_category_name@
}

/// Under distinct UUIDs, the category made of an entry of the pass is the
/// one stored under its UUID.
proof fn lemma_linked_entry(
    first: Seq<(Seq<char>, RawCategory)>,
    second: Seq<(Seq<char>, RawCategory)>,
    cats: Seq<(u128, Category)>,
    order: Seq<u128>,
    j: int,
) -> (a: int)
    requires
        linked(first, second, cats, order),
        forall|x: int, y: int| 0 <= x < y < second.len() ==> second[x].1.guid != second[y].1.guid,
        0 <= j < second.len(),
    ensures
        0 <= a < cats.len(),
        cats[a].0 == second[j].1.guid,
        category_of(cats[a].1, second[j].1, parent_guid(second[j].1, first)),
{
    let k = second[j].1.guid;
    assert(has_key(cats, k));
    let j3 = choose|j3: int| 0 <= j3 < second.len() && second[j3].1.guid == k
        && category_of(value_at(cats, k), second[j3].1, parent_guid(second[j3].1, first));
    if j3 < j {
        assert(second[j3].1.guid != second[j].1.guid);
    } else if j < j3 {
        assert(second[j].1.guid != second[j3].1.guid);
    }
    let a = choose|a: int| 0 <= a < cats.len() && cats[a].0 == k;
    let x = choose|x: int| 0 <= x < cats.len() && cats[x].0 == k;
    if x < a {
        assert(cats[x].0 != cats[a].0);
    } else if a < x {
        assert(cats[a].0 != cats[x].0);
    }
    a
}

/// Under distinct UUIDs, each category stored comes from the entry of the
/// pass with its UUID.
proof fn lemma_linked_source(
    first: Seq<(Seq<char>, RawCategory)>,
    second: Seq<(Seq<char>, RawCategory)>,
    cats: Seq<(u128, Category)>,
    order: Seq<u128>,
    a: int,
) -> (j: int)
    requires
        linked(first, second, cats, order),
        0 <= a < cats.len(),
    ensures
        0 <= j < second.len(),
        cats[a].0 == second[j].1.guid,
        category_of(cats[a].1, second[j].1, parent_guid(second[j].1, first)),
{
    let k = cats[a].0;
    assert(has_key(cats, k));
    let j = choose|j: int| 0 <= j < second.len() && second[j].1.guid == k
        && category_of(value_at(cats, k), second[j].1, parent_guid(second[j].1, first));
    let x = choose|x: int| 0 <= x < cats.len() && cats[x].0 == k;
    if x < a {
        assert(cats[x].0 != cats[a].0);
    } else if a < x {
        assert(cats[a].0 != cats[x].0);
    }
    j
}

/// The entries of a pass, linked to their parents in `first`, are ready to
/// be placed as a tree in their order (see `ready_to_place`).
#[verifier::opaque]
pub open spec fn ready_linked(first: Seq<(Seq<char>, RawCategory)>, s: Seq<(Seq<char>, RawCategory)>) -> bool {
    &&& forall|q: int| #![trigger s[q]] 0 <= q < s.len() ==> {
        &&& s[q].1.relative_category_name@ == chunk(s[q].1.full_category_name@, '.', dots_of(s[q].1.full_category_name@))
        &&& (parent_guid(s[q].1, first) is None) == (dots_of(s[q].1.full_category_name@) == 0)
        &&& forall|n: int| #![trigger prefix_before(s[q].1.full_category_name@, '.', n)]
            0 <= n < dots_of(s[q].1.full_category_name@) ==> exists|q2: int| 0 <= q2 < q
            && (#[trigger] s[q2]).1.full_category_name@ == prefix_before(s[q].1.full_category_name@, '.', n)->0
        &&& dots_of(s[q].1.full_category_name@) > 0 ==> exists|q2: int| 0 <= q2 < q
            && (#[trigger] s[q2]).1.full_category_name@
                == prefix_before(s[q].1.full_category_name@, '.', dots_of(s[q].1.full_category_name@) - 1)->0
            && parent_guid(s[q].1, first) == Some(s[q2].1.guid)
    }
    &&& forall|a: int, b: int| 0 <= a < s.len() && 0 <= b < s.len() && a != b
        ==> s[a].1.full_category_name@ != s[b].1.full_category_name@
    &&& forall|a: int, b: int, n: int| #![trigger chunk(s[a].1.full_category_name@, '.', n), s[b]]
        0 <= a < s.len() && 0 <= b < s.len() && 1 <= n <= dots_of(s[a].1.full_category_name@)
        ==> chunk(s[a].1.full_category_name@, '.', n) != chunk(s[b].1.full_category_name@, '.', 0)
}

/// Categories linked in place from entries ready to be placed are ready to
/// be placed.
proof fn lemma_ready_cats(
    first: Seq<(Seq<char>, RawCategory)>,
    s: Seq<(Seq<char>, RawCategory)>,
    cats: Seq<(u128, Category)>,
    order: Seq<u128>,
)
    requires
        linked_in_place(first, s, cats, order),
        ready_linked(first, s),
    ensures
        ready_to_place(cats),
{
    reveal(ready_linked);
    reveal(ready_to_place);
    assert forall|q: int| #![trigger cats[q]] 0 <= q < cats.len() implies {
        &&& cats[q].1.children@.len() == 0
        &&& cats[q].1.relative_category_name@ == chunk(cats[q].1.full_category_name@, '.', dots_of(cats[q].1.full_category_name@))
        &&& (cats[q].1.parent is None) == (dots_of(cats[q].1.full_category_name@) == 0)
        &&& forall|n: int| #![trigger prefix_before(cats[q].1.full_category_name@, '.', n)]
            0 <= n < dots_of(cats[q].1.full_category_name@) ==> exists|q2: int| 0 <= q2 < q
            && (#[trigger] cats[q2]).1.full_category_name@ == prefix_before(cats[q].1.full_category_name@, '.', n)->0
        &&& dots_of(cats[q].1.full_category_name@) > 0 ==> exists|q2: int| 0 <= q2 < q
            && (#[trigger] cats[q2]).1.full_category_name@
                == prefix_before(cats[q].1.full_category_name@, '.', dots_of(cats[q].1.full_category_name@) - 1)->0
            && cats[q].1.parent == Some(cats[q2].0)
    } by {
        assert(s[q] == s[q]);
        let full = cats[q].1.full_category_name@;
        assert forall|n: int| #![trigger prefix_before(full, '.', n)] 0 <= n < dots_of(full)
            implies exists|q2: int| 0 <= q2 < q && (#[trigger] cats[q2]).1.full_category_name@ == prefix_before(full, '.', n)->0 by {
            assert(prefix_before(s[q].1.full_category_name@, '.', n) == prefix_before(full, '.', n));
            let q2 = choose|q2: int| 0 <= q2 < q
                && (#[trigger] s[q2]).1.full_category_name@ == prefix_before(s[q].1.full_category_name@, '.', n)->0;
            assert(cats[q2].1.full_category_name@ == s[q2].1.full_category_name@);
        }
        if dots_of(full) > 0 {
            let q2 = choose|q2: int| 0 <= q2 < q
                && (#[trigger] s[q2]).1.full_category_name@
                    == prefix_before(s[q].1.full_category_name@, '.', dots_of(s[q].1.full_category_name@) - 1)->0
                && parent_guid(s[q].1, first) == Some(s[q2].1.guid);
            assert(cats[q2].1.full_category_name@ == s[q2].1.full_category_name@);
        }
    }
    assert forall|a: int, b: int| 0 <= a < cats.len() && 0 <= b < cats.len() && a != b
        implies cats[a].1.full_category_name@ != cats[b].1.full_category_name@ by {
        assert(cats[a].1.full_category_name@ == s[a].1.full_category_name@);
        assert(cats[b].1.full_category_name@ == s[b].1.full_category_name@);
    }
    assert forall|a: int, b: int, n: int| #![trigger chunk(cats[a].1.full_category_name@, '.', n), cats[b]]
        0 <= a < cats.len() && 0 <= b < cats.len() && 1 <= n <= dots_of(cats[a].1.full_category_name@)
        implies chunk(cats[a].1.full_category_name@, '.', n) != chunk(cats[b].1.full_category_name@, '.', 0) by {
        assert(cats[a].1.full_category_name@ == s[a].1.full_category_name@);
        assert(cats[b].1.full_category_name@ == s[b].1.full_category_name@);
        assert(chunk(s[a].1.full_category_name@, '.', n) != chunk(s[b].1.full_category_name@, '.', 0));
    }
}

/// Links the parents of the categories of the last pass and places them in
/// the tree, recording the time each step took.
#[verifier::rlimit(40)]
fn link_and_place(
    first: &CategoryPass,
    second: &CategoryPass,
    report: &mut PackageImportReport,
    initialize: u128,
    creation: u128,
) -> (r: Result<Vec<(u128, Category)>, Category>)
    requires
        distinct_keys(pass_entries(*first)),
        distinct_keys(pass_entries(*second)),
    ensures
        r matches Ok(root) ==> {
            &&& forest_wf(root@)
            &&& forest_named(root@)
            &&& forall|k: u128| #[trigger] forest_guids(root@).count(k) <= 1
            &&& forall|j: int| 0 <= j < pass_entries(*second).len()
                ==> forest_guids(root@).count(#[trigger] pass_entries(*second)[j].1.guid) == 1
            &&& forall|k: u128| #[trigger] forest_guids(root@).count(k) > 0
                ==> exists|j: int| 0 <= j < pass_entries(*second).len() && pass_entries(*second)[j].1.guid == k
            &&& forall|a: int| 0 <= a < root@.len() ==> (#[trigger] root@[a]).1.parent is None
        },
        (forall|j: int| 0 <= j < pass_entries(*second).len()
            ==> (#[trigger] pass_entries(*second)[j]).1.parent_name is None) ==> r is Ok,
        linked_one_level(pass_entries(*first), pass_entries(*second)) ==> r is Ok,
        linked_two_level(pass_entries(*first), pass_entries(*second)) ==> (r matches Ok(root) && two_level_tops(root@)),
        distinct_guids(pass_entries(*second)) && ready_linked(pass_entries(*first), pass_entries(*second))
            ==> (r matches Ok(root) && shaped_forest(root@, None)
                && (forall|j: int| 0 <= j < pass_entries(*second).len() ==> at_path(root@,
                    name_path(#[trigger] pass_entries(*second)[j].1.full_category_name@, '.'), pass_entries(*second)[j].1.guid))
                && forall|j: int| 0 <= j < pass_entries(*second).len() ==> found_with(root@,
                    #[trigger] pass_entries(*second)[j].1.full_category_name@, pass_entries(*second)[j].1.guid,
                    pass_entries(*second)[j].1.display_name@, pass_entries(*second)[j].1.separator,
                    pass_entries(*second)[j].1.default_enabled)),
        r matches Err(c) ==> c.parent is Some && exists|j: int| 0 <= j < pass_entries(*second).len()
            && pass_entries(*second)[j].1.guid == c.guid,
        final(report).wf() == old(report).wf(),
        final(report).late() == old(report).late(),
        final(report).counts() == old(report).counts(),
        final(report).sources() == old(report).sources(),
{
    let start_link = now();
    let (cats, order) = link_parents(first, second);
    let relationship = millis_since(&start_link);
    let ghost sc = pass_entries(*second);
    proof {
        assert forall|i: int| 0 <= i < cats@.len() implies (#[trigger] cats@[i]).1.children@.len() == 0 by {
            let k = cats@[i].0;
            assert(has_key(cats@, k));
            let j = choose|j: int| 0 <= j < sc.len() && sc[j].1.guid == k
                && category_of(value_at(cats@, k), sc[j].1, parent_guid(sc[j].1, pass_entries(*first)));
            let x = choose|x: int| 0 <= x < cats@.len() && cats@[x].0 == k;
            assert(x == i);
        }
        lemma_leaves_counted(cats@);
        assert forall|i: int| #![trigger cats@[i]] 0 <= i < cats@.len() implies node_named(cats@[i].1) by {
            lemma_leaf_named(cats@[i].1);
        }
        if forall|j: int| 0 <= j < sc.len() ==> (#[trigger] sc[j]).1.parent_name is None {
            assert forall|i: int| #![trigger cats@[i]] 0 <= i < cats@.len() implies cats@[i].1.parent is None by {
                let k = cats@[i].0;
                assert(has_key(cats@, k));
                let j = choose|j: int| 0 <= j < sc.len() && sc[j].1.guid == k
                    && category_of(value_at(cats@, k), sc[j].1, parent_guid(sc[j].1, pass_entries(*first)));
                let x = choose|x: int| 0 <= x < cats@.len() && cats@[x].0 == k;
                assert(x == i);
                assert(sc[j].1.parent_name is None);
            }
            assert(all_parentless(cats@));
        }
        if linked_one_level(pass_entries(*first), sc) {
            let fe = pass_entries(*first);
            assert forall|a: int| #![trigger cats@[a]] 0 <= a < cats@.len() && cats@[a].1.parent is Some implies {
                &&& char_positions(cats@[a].1.full_category_name@, '.').len() == 1
                &&& exists|b: int| 0 <= b < cats@.len() && (#[trigger] cats@[b]).1.parent is None
                    && cats@[b].1.relative_category_name@ == chunk(cats@[a].1.full_category_name@, '.', 0)
            } by {
                let k = cats@[a].0;
                assert(has_key(cats@, k));
                let j = choose|j: int| 0 <= j < sc.len() && sc[j].1.guid == k
                    && category_of(value_at(cats@, k), sc[j].1, parent_guid(sc[j].1, fe));
                let x = choose|x: int| 0 <= x < cats@.len() && cats@[x].0 == k;
                assert(x == a);
                assert(parent_guid(sc[j].1, fe) is Some);
                let j2 = choose|j2: int| 0 <= j2 < sc.len() && parent_guid((#[trigger] sc[j2]).1, fe) is None
                    && sc[j2].1.relative_category_name@ == chunk(sc[j].1.full_category_name@, '.', 0);
                let k2 = sc[j2].1.guid;
                assert(has_key(cats@, k2));
                let j3 = choose|j3: int| 0 <= j3 < sc.len() && sc[j3].1.guid == k2
                    && category_of(value_at(cats@, k2), sc[j3].1, parent_guid(sc[j3].1, fe));
                if j3 != j2 {
                    if j3 < j2 {
                        assert(sc[j3].1.guid != sc[j2].1.guid);
                    } else {
                        assert(sc[j2].1.guid != sc[j3].1.guid);
                    }
                }
                let b = choose|b: int| 0 <= b < cats@.len() && cats@[b].0 == k2;
                assert(cats@[b].1 == value_at(cats@, k2));
            }
            assert(one_level(cats@));
        }
        if linked_two_level(pass_entries(*first), sc) {
            let fe = pass_entries(*first);
            let ord = order@;
            assert forall|a: int| #![trigger cats@[a]] 0 <= a < cats@.len() && cats@[a].1.parent is Some implies {
                &&& char_positions(cats@[a].1.full_category_name@, '.').len() == 1
                &&& exists|b: int| 0 <= b < cats@.len() && (#[trigger] cats@[b]).0 == cats@[a].1.parent->0
                    && cats@[b].1.parent is None
                    && cats@[b].1.relative_category_name@ == chunk(cats@[a].1.full_category_name@, '.', 0)
                    && cats@[a].1.full_category_name@ == cats@[b].1.full_category_name@ + seq!['.'] + cats@[a].1.relative_category_name@
            } by {
                let j = lemma_linked_source(fe, sc, cats@, ord, a);
                assert(parent_guid(sc[j].1, fe) is Some);
                let j2 = choose|j2: int| 0 <= j2 < sc.len() && parent_guid((#[trigger] sc[j2]).1, fe) is None
                    && sc[j2].1.guid == parent_guid(sc[j].1, fe)->0
                    && sc[j2].1.relative_category_name@ == chunk(sc[j].1.full_category_name@, '.', 0)
                    && sc[j].1.full_category_name@ == sc[j2].1.full_category_name@ + seq!['.'] + sc[j].1.relative_category_name@;
                let b = lemma_linked_entry(fe, sc, cats@, ord, j2);
            }
            assert forall|a: int, b: int| 0 <= a < cats@.len() && 0 <= b < cats@.len() && cats@[a].1.parent is Some
                && cats@[b].1.parent is None
                implies cats@[a].1.relative_category_name@ != cats@[b].1.relative_category_name@ by {
                let ja = lemma_linked_source(fe, sc, cats@, ord, a);
                let jb = lemma_linked_source(fe, sc, cats@, ord, b);
            }
            assert forall|a: int, b: int| 0 <= a < cats@.len() && 0 <= b < cats@.len() && a != b
                && cats@[a].1.parent is None && cats@[b].1.parent is None
                implies cats@[a].1.relative_category_name@ != cats@[b].1.relative_category_name@ by {
                let ja = lemma_linked_source(fe, sc, cats@, ord, a);
                let jb = lemma_linked_source(fe, sc, cats@, ord, b);
                assert(cats@[a].0 != cats@[b].0);
            }
            assert(two_level(cats@));
        }
    }
    proof {
        if distinct_guids(sc) && ready_linked(pass_entries(*first), sc) {
            lemma_ready_cats(pass_entries(*first), sc, cats@, order@);
        }
    }
    let ghost m = forest_guids(cats@);
    let start_insert = now();
    let ghost cv = cats@;
    let r = place_categories(cats, &order);
    let insertion = millis_since(&start_insert);
    report.set_reassemble_timings(initialize, creation, relationship, insertion);
    proof {
        if r is Ok {
            assert forall|j: int| 0 <= j < sc.len() implies m.count(#[trigger] sc[j].1.guid) == 1 by {
                assert(has_key(cats@, sc[j].1.guid));
            }
            assert forall|k: u128| #[trigger] m.count(k) > 0
                implies exists|j: int| 0 <= j < sc.len() && sc[j].1.guid == k by {
                assert(has_key(cats@, k));
            }
        }
        if r is Err {
            assert(has_key(cats@, r->Err_0.guid));
        }
        if distinct_guids(sc) && ready_linked(pass_entries(*first), sc) {
            assert forall|j: int| 0 <= j < sc.len() implies at_path(r->Ok_0@,
                name_path(#[trigger] sc[j].1.full_category_name@, '.'), sc[j].1.guid) by {
                assert(cv[j].0 == sc[j].1.guid);
                assert(cv[j].1.full_category_name@ == sc[j].1.full_category_name@);
            }
            assert forall|j: int| 0 <= j < sc.len() implies found_with(r->Ok_0@,
                #[trigger] sc[j].1.full_category_name@, sc[j].1.guid, sc[j].1.display_name@, sc[j].1.separator,
                sc[j].1.default_enabled) by {
                assert(cv[j].0 == sc[j].1.guid);
                assert(cv[j].1.full_category_name@ == sc[j].1.full_category_name@);
                assert(found_as(r->Ok_0@, cv[j].1.full_category_name@, cv[j]));
            }
        }
    }
    r
}

/// No category names a parent, by its parent name or by a dotted relative
/// name.
pub open spec fn without_parents(f: Seq<(Seq<char>, RawCategory)>) -> bool {
    forall|i: int| #![trigger f[i]] 0 <= i < f.len() ==> f[i].1.parent_name is None && !needs_split(f[i].1)
}

/// A pass over categories without parents makes nothing up and leaves every
/// parent name empty.
proof fn lemma_pass_without_parents(first: Seq<(Seq<char>, RawCategory)>, second: Seq<(Seq<char>, RawCategory)>)
    requires
        pass_result(first, second),
        without_parents(first),
    ensures
        forall|j: int| 0 <= j < second.len() ==> has_key(first, (#[trigger] second[j]).0),
        forall|j: int| 0 <= j < second.len() ==> (#[trigger] second[j]).1.parent_name is None,
{
    assert forall|j: int| 0 <= j < second.len() implies has_key(first, (#[trigger] second[j]).0)
        && second[j].1.parent_name is None by {
        if !has_key(first, second[j].0) {
            let (i, n) = choose|i: int, n: int| 0 <= i < first.len() && needs_split(first[i].1)
                && made_up_from(second[j].1, first[i].1, n);
            assert(!needs_split(first[i].1));
        }
        let i = choose|i: int| 0 <= i < first.len() && first[i].0 == second[j].0;
        assert(!needs_split(first[i].1));
        assert(resolved_from(value_at(second, first[i].0), first[i].1, first));
        let x = choose|x: int| 0 <= x < second.len() && second[x].0 == first[i].0;
        assert(x == j);
    }
}

/// A pack two levels deep: no two categories share a UUID, each is keyed by
/// its full name and none is defined only by a dotted name; one with a
/// parent name has one dot in its full name, and its parent is a category
/// of the pack without parent, named by the chunk before that dot.
pub open spec fn one_level_pack(f: Seq<(Seq<char>, RawCategory)>) -> bool {
    &&& forall|i: int, j: int| 0 <= i < j < f.len() ==> f[i].1.guid != f[j].1.guid
    &&& forall|i: int| #![trigger f[i]] 0 <= i < f.len() ==> {
        &&& f[i].0 == f[i].1.full_category_name@
        &&& !needs_split(f[i].1)
        &&& (f[i].1.parent_name matches Some(p) ==> {
            &&& has_key(f, p@)
            &&& value_at(f, p@).parent_name is None
            &&& char_positions(f[i].1.full_category_name@, '.').len() == 1
            &&& value_at(f, p@).relative_category_name@ == chunk(f[i].1.full_category_name@, '.', 0)
        })
    }
}

/// The entry of a key, in entries with distinct keys, is the one at its
/// place.
proof fn lemma_value_at_place(f: Seq<(Seq<char>, RawCategory)>, i: int)
    requires
        distinct_keys(f),
        0 <= i < f.len(),
    ensures
        value_at(f, f[i].0) == f[i].1,
{
    assert(has_key(f, f[i].0));
    let x = choose|x: int| 0 <= x < f.len() && f[x].0 == f[i].0;
    if x < i {
        assert(f[x].0 != f[i].0);
    } else if i < x {
        assert(f[i].0 != f[x].0);
    }
}

/// A pass over a pack two levels deep makes nothing up and links it one
/// level deep.
proof fn lemma_pass_one_level(first: Seq<(Seq<char>, RawCategory)>, second: Seq<(Seq<char>, RawCategory)>)
    requires
        distinct_keys(first),
        pass_result(first, second),
        one_level_pack(first),
    ensures
        forall|j: int| 0 <= j < second.len() ==> has_key(first, (#[trigger] second[j]).0),
        linked_one_level(first, second),
{
    // Each entry of the pass comes from the entry of the same key.
    assert forall|j: int| 0 <= j < second.len() implies has_key(first, (#[trigger] second[j]).0) by {
        if !has_key(first, second[j].0) {
            let (i, n) = choose|i: int, n: int| 0 <= i < first.len() && needs_split(first[i].1)
                && made_up_from(second[j].1, first[i].1, n);
            assert(!needs_split(first[i].1));
        }
    }
    assert forall|j: int| 0 <= j < second.len() implies exists|i: int| 0 <= i < first.len() && first[i].0 == (#[trigger] second[j]).0
        && resolved_from(second[j].1, first[i].1, first) by {
        let i = choose|i: int| 0 <= i < first.len() && first[i].0 == second[j].0;
        assert(!needs_split(first[i].1));
        lemma_value_at_place(second, j);
    }
    assert forall|a: int, b: int| 0 <= a < b < second.len() implies second[a].1.guid != second[b].1.guid by {
        let ia = choose|i: int| 0 <= i < first.len() && first[i].0 == second[a].0 && resolved_from(second[a].1, first[i].1, first);
        let ib = choose|i: int| 0 <= i < first.len() && first[i].0 == second[b].0 && resolved_from(second[b].1, first[i].1, first);
        assert(second[a].0 != second[b].0);
        if ia < ib {
            assert(first[ia].1.guid != first[ib].1.guid);
        } else {
            assert(first[ib].1.guid != first[ia].1.guid);
        }
    }
    assert forall|j: int| #![trigger second[j]] 0 <= j < second.len() && parent_guid(second[j].1, first) is Some implies {
        &&& char_positions(second[j].1.full_category_name@, '.').len() == 1
        &&& exists|j2: int| 0 <= j2 < second.len() && parent_guid((#[trigger] second[j2]).1, first) is None
            && second[j2].1.relative_category_name@ == chunk(second[j].1.full_category_name@, '.', 0)
    } by {
        let i = choose|i: int| 0 <= i < first.len() && first[i].0 == second[j].0 && resolved_from(second[j].1, first[i].1, first);
        let p = first[i].1.parent_name->0;
        assert(first[i].1.parent_name is Some);
        assert(has_key(first, p@));
        let ip = choose|x: int| 0 <= x < first.len() && first[x].0 == p@;
        lemma_value_at_place(first, ip);
        assert(first[ip].1.full_category_name@ == p@);
        assert(has_key(second, first[ip].0));
        let j2 = choose|x: int| 0 <= x < second.len() && second[x].0 == first[ip].0;
        let i2 = choose|x: int| 0 <= x < first.len() && first[x].0 == second[j2].0 && resolved_from(second[j2].1, first[x].1, first);
        lemma_value_at_place(first, i2);
        assert(i2 == ip) by {
            if i2 < ip {
                assert(first[i2].0 != first[ip].0);
            } else if ip < i2 {
                assert(first[ip].0 != first[i2].0);
            }
        }
        assert(parent_guid(second[j2].1, first) is None);
    }
}

/// A pack two levels deep whose names tell the levels apart: one level
/// deep, each category with a parent name has the full name of that parent,
/// a dot and its relative name; no category with a parent name is named
/// like one without, and no two without share a name.
pub open spec fn two_level_pack(f: Seq<(Seq<char>, RawCategory)>) -> bool {
    &&& one_level_pack(f)
    &&& forall|i: int| #![trigger f[i]] 0 <= i < f.len() && f[i].1.parent_name is Some ==>
        f[i].1.full_category_name@ == value_at(f, f[i].1.parent_name->0@).full_category_name@ + seq!['.']
            + f[i].1.relative_category_name@
    &&& forall|i: int, k: int| 0 <= i < f.len() && 0 <= k < f.len() && f[i].1.parent_name is Some
        && f[k].1.parent_name is None ==> f[i].1.relative_category_name@ != f[k].1.relative_category_name@
    &&& forall|i: int, k: int| 0 <= i < f.len() && 0 <= k < f.len() && i != k && f[i].1.parent_name is None
        && f[k].1.parent_name is None ==> f[i].1.relative_category_name@ != f[k].1.relative_category_name@
}

/// In a pass over a pack one level deep, an entry comes from the entry of
/// the same key, and has a parent exactly when that one has a parent name.
proof fn lemma_pass_source(first: Seq<(Seq<char>, RawCategory)>, second: Seq<(Seq<char>, RawCategory)>, j: int) -> (i: int)
    requires
        distinct_keys(first),
        pass_result(first, second),
        one_level_pack(first),
        0 <= j < second.len(),
    ensures
        0 <= i < first.len(),
        first[i].0 == second[j].0,
        resolved_from(second[j].1, first[i].1, first),
        (parent_guid(second[j].1, first) is Some) == (first[i].1.parent_name is Some),
        first[i].1.parent_name is Some ==> parent_guid(second[j].1, first)->0
            == value_at(first, first[i].1.parent_name->0@).guid,
{
    lemma_pass_one_level(first, second);
    let i = choose|i: int| 0 <= i < first.len() && first[i].0 == (#[trigger] second[j]).0
        && resolved_from(second[j].1, first[i].1, first);
    if first[i].1.parent_name is Some {
        let p = first[i].1.parent_name->0;
        let ip = choose|x: int| 0 <= x < first.len() && first[x].0 == p@;
        lemma_value_at_place(first, ip);
    }
    i
}

/// A pass over a pack two levels deep links it two levels deep.
proof fn lemma_pass_two_level(first: Seq<(Seq<char>, RawCategory)>, second: Seq<(Seq<char>, RawCategory)>)
    requires
        distinct_keys(first),
        pass_result(first, second),
        two_level_pack(first),
    ensures
        linked_two_level(first, second),
{
    lemma_pass_one_level(first, second);
    assert forall|j: int| #![trigger second[j]] 0 <= j < second.len() && parent_guid(second[j].1, first) is Some implies
        exists|j2: int| 0 <= j2 < second.len() && parent_guid((#[trigger] second[j2]).1, first) is None
            && second[j2].1.guid == parent_guid(second[j].1, first)->0
            && second[j2].1.relative_category_name@ == chunk(second[j].1.full_category_name@, '.', 0)
            && second[j].1.full_category_name@ == second[j2].1.full_category_name@ + seq!['.'] + second[j].1.relative_category_name@ by {
        let i = lemma_pass_source(first, second, j);
        let p = first[i].1.parent_name->0;
        let ip = choose|x: int| 0 <= x < first.len() && first[x].0 == p@;
        lemma_value_at_place(first, ip);
        assert(has_key(second, first[ip].0));
        let j2 = choose|x: int| 0 <= x < second.len() && second[x].0 == first[ip].0;
        let i2 = lemma_pass_source(first, second, j2);
        assert(i2 == ip) by {
            if i2 < ip {
                assert(first[i2].0 != first[ip].0);
            } else if ip < i2 {
                assert(first[ip].0 != first[i2].0);
            }
        }
    }
    assert forall|a: int, b: int| 0 <= a < second.len() && 0 <= b < second.len() && parent_guid(second[a].1, first) is Some
        && parent_guid(second[b].1, first) is None
        implies second[a].1.relative_category_name@ != second[b].1.relative_category_name@ by {
        let ia = lemma_pass_source(first, second, a);
        let ib = lemma_pass_source(first, second, b);
    }
    assert forall|a: int, b: int| 0 <= a < second.len() && 0 <= b < second.len() && a != b
        && parent_guid(second[a].1, first) is None && parent_guid(second[b].1, first) is None
        implies second[a].1.relative_category_name@ != second[b].1.relative_category_name@ by {
        let ia = lemma_pass_source(first, second, a);
        let ib = lemma_pass_source(first, second, b);
        assert(second[a].0 != second[b].0);
    }
}

/// A pack whose every ancestor is listed: no two categories share a UUID;
/// each is keyed by its full name; one without parent name has its full
/// name as relative name (a dotted one is split), one with a parent name is
/// named by the last chunk of its full name, under the name before its
/// last dot; every ancestor name of a category is the key of an earlier
/// one; and no chunk after the first of a name is the first chunk of a
/// name.
#[verifier::opaque]
pub open spec fn closed_pack(f: Seq<(Seq<char>, RawCategory)>) -> bool {
    &&& distinct_guids(f)
    &&& forall|i: int| #![trigger f[i]] 0 <= i < f.len() ==> {
        &&& f[i].0 == f[i].1.full_category_name@
        &&& (f[i].1.parent_name is None ==> f[i].1.relative_category_name@ == f[i].1.full_category_name@)
        &&& (f[i].1.parent_name matches Some(p) ==> {
            &&& dots_of(f[i].1.full_category_name@) > 0
            &&& p@ == prefix_before(f[i].1.full_category_name@, '.', dots_of(f[i].1.full_category_name@) - 1)->0
            &&& f[i].1.relative_category_name@
                == chunk(f[i].1.full_category_name@, '.', dots_of(f[i].1.full_category_name@))
        })
        &&& forall|n: int| #![trigger prefix_before(f[i].1.full_category_name@, '.', n)]
            0 <= n < dots_of(f[i].1.full_category_name@) ==> exists|q: int| 0 <= q < i
            && (#[trigger] f[q]).0 == prefix_before(f[i].1.full_category_name@, '.', n)->0
    }
    &&& forall|a: int, b: int, n: int| #![trigger chunk(f[a].1.full_category_name@, '.', n), f[b]]
        0 <= a < f.len() && 0 <= b < f.len() && 1 <= n <= dots_of(f[a].1.full_category_name@)
        ==> chunk(f[a].1.full_category_name@, '.', n) != chunk(f[b].1.full_category_name@, '.', 0)
}

/// A pass that keeps the order keeps each entry's place: split or resolved
/// from the entry at the same place.
proof fn lemma_pass_in_place(f: Seq<(Seq<char>, RawCategory)>, s: Seq<(Seq<char>, RawCategory)>)
    requires
        distinct_keys(f),
        pass_result(f, s),
        entry_keys(s) == entry_keys(f),
    ensures
        s.len() == f.len(),
        forall|q: int| 0 <= q < s.len() ==> (#[trigger] s[q]).0 == f[q].0
            && (needs_split(f[q].1) ==> split_from(s[q].1, f[q].1))
            && (!needs_split(f[q].1) ==> resolved_from(s[q].1, f[q].1, f)),
{
    assert(s.len() == entry_keys(s).len());
    assert(f.len() == entry_keys(f).len());
    assert forall|q: int| 0 <= q < s.len() implies (#[trigger] s[q]).0 == f[q].0
        && (needs_split(f[q].1) ==> split_from(s[q].1, f[q].1))
        && (!needs_split(f[q].1) ==> resolved_from(s[q].1, f[q].1, f)) by {
        assert(entry_keys(s)[q] == entry_keys(f)[q]);
        lemma_value_at_place(s, q);
    }
}

/// The entry at `q` of an in-place pass over a pack whose every ancestor
/// is listed is ready to be placed.
#[verifier::rlimit(40)]
proof fn lemma_closed_entry(f: Seq<(Seq<char>, RawCategory)>, s: Seq<(Seq<char>, RawCategory)>, q: int)
    requires
        distinct_keys(f),
        closed_pack(f),
        s.len() == f.len(),
        forall|q: int| 0 <= q < s.len() ==> (#[trigger] s[q]).0 == f[q].0
            && (needs_split(f[q].1) ==> split_from(s[q].1, f[q].1))
            && (!needs_split(f[q].1) ==> resolved_from(s[q].1, f[q].1, f)),
        0 <= q < s.len(),
    ensures
        s[q].1.guid == f[q].1.guid,
        s[q].1.full_category_name@ == f[q].1.full_category_name@,
        s[q].1.relative_category_name@ == chunk(s[q].1.full_category_name@, '.', dots_of(s[q].1.full_category_name@)),
        (parent_guid(s[q].1, f) is None) == (dots_of(s[q].1.full_category_name@) == 0),
        forall|n: int| #![trigger prefix_before(s[q].1.full_category_name@, '.', n)]
            0 <= n < dots_of(s[q].1.full_category_name@) ==> exists|q2: int| 0 <= q2 < q
            && (#[trigger] s[q2]).1.full_category_name@ == prefix_before(s[q].1.full_category_name@, '.', n)->0,
        dots_of(s[q].1.full_category_name@) > 0 ==> exists|q2: int| 0 <= q2 < q
            && (#[trigger] s[q2]).1.full_category_name@
                == prefix_before(s[q].1.full_category_name@, '.', dots_of(s[q].1.full_category_name@) - 1)->0
            && parent_guid(s[q].1, f) == Some(s[q2].1.guid),
{
    reveal(closed_pack);
    assert(s[q].0 == f[q].0);
    assert(f[q] == f[q]);
    let full = f[q].1.full_category_name@;
    let k = dots_of(full);
    assert(s[q].1.full_category_name@ == full);
    assert forall|n: int| #![trigger prefix_before(full, '.', n)] 0 <= n < k
        implies exists|q2: int| 0 <= q2 < q && (#[trigger] s[q2]).1.full_category_name@ == prefix_before(full, '.', n)->0 by {
        let q2 = choose|q2: int| 0 <= q2 < q && (#[trigger] f[q2]).0 == prefix_before(full, '.', n)->0;
        assert(s[q2].0 == f[q2].0);
        assert(f[q2] == f[q2]);
    }
    if needs_split(f[q].1) {
        assert(k > 0);
        let q2 = choose|q2: int| 0 <= q2 < q && (#[trigger] f[q2]).0 == prefix_before(full, '.', k - 1)->0;
        assert(s[q2].0 == f[q2].0);
        assert(f[q2] == f[q2]);
        lemma_value_at_place(f, q2);
        assert(s[q].1.parent_name is Some);
        let pn = s[q].1.parent_name->0;
        assert(has_key(f, pn@));
    } else {
        match f[q].1.parent_name {
            None => {
                lemma_single_chunk(full, '.');
            },
            Some(p) => {
                let q2 = choose|q2: int| 0 <= q2 < q && (#[trigger] f[q2]).0 == prefix_before(full, '.', k - 1)->0;
                assert(s[q2].0 == f[q2].0);
                assert(f[q2] == f[q2]);
                lemma_value_at_place(f, q2);
                assert(has_key(f, p@));
                assert(s[q].1.parent_name is Some);
            },
        }
    }
}

/// In a pack whose every ancestor is listed, every ancestor name of a
/// category defined only by its dotted name is a key.
proof fn lemma_closed_ancestors_listed(f: Seq<(Seq<char>, RawCategory)>)
    requires
        closed_pack(f),
    ensures
        forall|q: int, n: int| 0 <= q < f.len() && needs_split(f[q].1) && 0 <= n < dots(f[q].1)
            ==> has_key(f, #[trigger] prefix_before(f[q].1.relative_category_name@, '.', n)->0),
{
    reveal(closed_pack);
    assert forall|q: int, n: int| 0 <= q < f.len() && needs_split(f[q].1) && 0 <= n < dots(f[q].1)
        implies has_key(f, #[trigger] prefix_before(f[q].1.relative_category_name@, '.', n)->0) by {
        assert(f[q] == f[q]);
        let full = f[q].1.full_category_name@;
        assert(prefix_before(full, '.', n) == prefix_before(f[q].1.relative_category_name@, '.', n));
        let q2 = choose|q2: int| 0 <= q2 < q && (#[trigger] f[q2]).0 == prefix_before(full, '.', n)->0;
        assert(has_key(f, f[q2].0));
    }
}

/// Names and UUIDs of an in-place pass over a pack whose every ancestor is
/// listed keep the pack's properties.
proof fn lemma_closed_names(f: Seq<(Seq<char>, RawCategory)>, s: Seq<(Seq<char>, RawCategory)>)
    requires
        closed_pack(f),
        distinct_keys(f),
        s.len() == f.len(),
        forall|q: int| 0 <= q < s.len() ==> (#[trigger] s[q]).0 == f[q].0 && s[q].1.guid == f[q].1.guid
            && s[q].1.full_category_name@ == f[q].1.full_category_name@,
    ensures
        distinct_guids(s),
        forall|a: int, b: int| 0 <= a < s.len() && 0 <= b < s.len() && a != b
            ==> s[a].1.full_category_name@ != s[b].1.full_category_name@,
        forall|a: int, b: int, n: int| #![trigger chunk(s[a].1.full_category_name@, '.', n), s[b]]
            0 <= a < s.len() && 0 <= b < s.len() && 1 <= n <= dots_of(s[a].1.full_category_name@)
            ==> chunk(s[a].1.full_category_name@, '.', n) != chunk(s[b].1.full_category_name@, '.', 0),
{
    reveal(closed_pack);
    assert forall|a: int, b: int| 0 <= a < b < s.len() implies s[a].1.guid != s[b].1.guid by {
        assert(s[a].1.guid == f[a].1.guid);
        assert(s[b].1.guid == f[b].1.guid);
    }
    assert forall|a: int, b: int| 0 <= a < s.len() && 0 <= b < s.len() && a != b
        implies s[a].1.full_category_name@ != s[b].1.full_category_name@ by {
        assert(s[a].0 == f[a].0);
        assert(s[b].0 == f[b].0);
        assert(f[a] == f[a]);
        assert(f[b] == f[b]);
        if a < b {
            assert(f[a].0 != f[b].0);
        } else {
            assert(f[b].0 != f[a].0);
        }
    }
    assert forall|a: int, b: int, n: int| #![trigger chunk(s[a].1.full_category_name@, '.', n), s[b]]
        0 <= a < s.len() && 0 <= b < s.len() && 1 <= n <= dots_of(s[a].1.full_category_name@)
        implies chunk(s[a].1.full_category_name@, '.', n) != chunk(s[b].1.full_category_name@, '.', 0) by {
        assert(s[a].1.full_category_name@ == f[a].1.full_category_name@);
        assert(s[b].1.full_category_name@ == f[b].1.full_category_name@);
        assert(chunk(f[a].1.full_category_name@, '.', n) != chunk(f[b].1.full_category_name@, '.', 0));
    }
}

/// A pass over a pack whose every ancestor is listed makes nothing up, and
/// when it keeps the order, its entries are ready to be placed.
proof fn lemma_closed_pass(f: Seq<(Seq<char>, RawCategory)>, s: Seq<(Seq<char>, RawCategory)>)
    requires
        distinct_keys(f),
        pass_result(f, s),
        closed_pack(f),
    ensures
        entry_keys(s) == entry_keys(f) ==> distinct_guids(s) && ready_linked(f, s),
        entry_keys(s) == entry_keys(f) ==> s.len() == f.len() && forall|q: int| 0 <= q < s.len()
            ==> (#[trigger] s[q]).1.guid == f[q].1.guid && s[q].1.full_category_name@ == f[q].1.full_category_name@,
{
    if entry_keys(s) == entry_keys(f) {
        lemma_pass_in_place(f, s);
        assert forall|q: int| 0 <= q < s.len() implies (#[trigger] s[q]).0 == f[q].0 && s[q].1.guid == f[q].1.guid
            && s[q].1.full_category_name@ == f[q].1.full_category_name@ by {
            lemma_closed_entry(f, s, q);
        }
        lemma_closed_names(f, s);
        assert(ready_linked(f, s)) by {
            reveal(ready_linked);
            assert forall|q: int| #![trigger s[q]] 0 <= q < s.len() implies {
                &&& s[q].1.relative_category_name@ == chunk(s[q].1.full_category_name@, '.', dots_of(s[q].1.full_category_name@))
                &&& (parent_guid(s[q].1, f) is None) == (dots_of(s[q].1.full_category_name@) == 0)
                &&& forall|n: int| #![trigger prefix_before(s[q].1.full_category_name@, '.', n)]
                    0 <= n < dots_of(s[q].1.full_category_name@) ==> exists|q2: int| 0 <= q2 < q
                    && (#[trigger] s[q2]).1.full_category_name@ == prefix_before(s[q].1.full_category_name@, '.', n)->0
                &&& dots_of(s[q].1.full_category_name@) > 0 ==> exists|q2: int| 0 <= q2 < q
                    && (#[trigger] s[q2]).1.full_category_name@
                        == prefix_before(s[q].1.full_category_name@, '.', dots_of(s[q].1.full_category_name@) - 1)->0
                    && parent_guid(s[q].1, f) == Some(s[q2].1.guid)
            } by {
                lemma_closed_entry(f, s, q);
            }
        }
    }
}

/// Whether one of the entries is a category of that UUID.
pub open spec fn input_guid(f: Seq<(Seq<char>, RawCategory)>, k: u128) -> bool {
    exists|i: int| 0 <= i < f.len() && f[i].1.guid == k
}

/// An entry of a pass result keeps the UUID of the entry of the same name
/// before the pass, when there is one.
proof fn lemma_guid_traced(first: Seq<(Seq<char>, RawCategory)>, second: Seq<(Seq<char>, RawCategory)>, j: int)
    requires
        pass_result(first, second),
        0 <= j < second.len(),
    ensures
        has_key(first, second[j].0) ==> exists|b: int| 0 <= b < first.len() && first[b].0 == second[j].0
            && first[b].1.guid == second[j].1.guid,
{
    if has_key(first, second[j].0) {
        let b = choose|b: int| 0 <= b < first.len() && first[b].0 == second[j].0;
        assert(has_key(second, first[b].0));
        let x = choose|x: int| 0 <= x < second.len() && second[x].0 == first[b].0;
        assert(x == j);
        if needs_split(first[b].1) {
            assert(split_from(value_at(second, first[b].0), first[b].1));
        } else {
            assert(resolved_from(value_at(second, first[b].0), first[b].1, first));
        }
    }
}

impl Category {
    /// Puts the categories read from a pack back together as a tree, where
    /// each category sits under one named by the chunk of its full name
    /// before its own.
    ///
    /// A category whose relative name is its dotted full name gets every
    /// missing ancestor made up (with a fresh UUID), and is renamed after
    /// its last chunk under its longest proper prefix; the other categories
    /// get their parent name resolved. A second pass runs when ancestors
    /// were made up. Each category is then placed under the category its
    /// route leads to; those without parent are at the top. The categories
    /// found late are recorded in the report, with the time each step took.
    ///
    /// Gives back the first category that has a parent and whose route leads
    /// nowhere. A pack where no category names a parent, and a pack two
    /// levels deep whose parents all exist, always come back as a tree; when
    /// the names of such a pack tell its two levels apart, each category
    /// with a parent comes back right under it. A pack of any depth whose
    /// every ancestor is listed before its descendants (`closed_pack`)
    /// comes back as a shaped tree: each category has its parent's UUID as
    /// parent and its parent's full name, a dot and its relative name as
    /// full name, and each category of the pack sits at the path of the
    /// chunks of its full name. In any tree given back, the categories at
    /// the top are those without parent, and every other one has a parent
    /// and sits under a category named by the chunk of its full name before
    /// its own.
    #[verifier::rlimit(30)]
    pub fn reassemble(
        input_first_pass_categories: &CategoryPass,
        report: &mut PackageImportReport,
    ) -> (r: Result<Vec<(u128, Category)>, Category>)
        requires
            old(report).wf(),
            distinct_keys(pass_entries(*input_first_pass_categories)),
            split_sources_known(pass_entries(*input_first_pass_categories), old(report).sources()),
            old(report).counts().missing_categories + split_sources(
                pass_entries(*input_first_pass_categories),
                pass_entries(*input_first_pass_categories).len() as int,
            ) < usize::MAX,
        ensures
            final(report).wf(),
            final(report).sources() == old(report).sources(),
            forall|i: int| #![trigger pass_entries(*input_first_pass_categories)[i]]
                0 <= i < pass_entries(*input_first_pass_categories).len()
                && needs_split(pass_entries(*input_first_pass_categories)[i].1)
                ==> has_key(final(report).late(), pass_entries(*input_first_pass_categories)[i].1.guid),
            r matches Ok(root) ==> forall|k: u128| #[trigger] forest_guids(root@).count(k) > 0
                ==> input_guid(pass_entries(*input_first_pass_categories), k) || has_key(final(report).late(), k),
            r matches Ok(root) ==> {
                &&& forest_wf(root@)
                &&& forest_named(root@)
                &&& forall|k: u128| #[trigger] forest_guids(root@).count(k) <= 1
                &&& forall|i: int| 0 <= i < pass_entries(*input_first_pass_categories).len()
                    ==> forest_guids(root@).count(#[trigger] pass_entries(*input_first_pass_categories)[i].1.guid) == 1
                &&& forall|a: int| 0 <= a < root@.len() ==> (#[trigger] root@[a]).1.parent is None
            },
            without_parents(pass_entries(*input_first_pass_categories)) ==> r is Ok,
            one_level_pack(pass_entries(*input_first_pass_categories)) ==> r is Ok,
            two_level_pack(pass_entries(*input_first_pass_categories)) ==> (r matches Ok(root) && two_level_tops(root@)),
            closed_pack(pass_entries(*input_first_pass_categories)) ==> (r matches Ok(root) && shaped_forest(root@, None)
                && forall|i: int| 0 <= i < pass_entries(*input_first_pass_categories).len() ==> at_path(root@,
                    name_path(#[trigger] pass_entries(*input_first_pass_categories)[i].1.full_category_name@, '.'),
                    pass_entries(*input_first_pass_categories)[i].1.guid)),
            closed_pack(pass_entries(*input_first_pass_categories)) ==> (r matches Ok(root)
                && forall|i: int| #![trigger pass_entries(*input_first_pass_categories)[i]]
                    0 <= i < pass_entries(*input_first_pass_categories).len() ==> {
                    let e = pass_entries(*input_first_pass_categories)[i].1;
                    found_with(root@, e.full_category_name@, e.guid,
                        if needs_split(e) { chunk(e.relative_category_name@, '.', dots(e)) } else { e.display_name@ },
                        e.separator, e.default_enabled)
                }),
            r matches Err(c) ==> c.parent is Some
                && (input_guid(pass_entries(*input_first_pass_categories), c.guid) || has_key(final(report).late(), c.guid)),
    {
        let ghost f = pass_entries(*input_first_pass_categories);
        let start_initialize = now();
        let initialize = millis_since(&start_initialize);
        let start_creation = now();
        let (second, need_a_pass) = category_pass(input_first_pass_categories, report);
        proof {
            lemma_nothing_left_to_split(f, pass_entries(second));
        }
        if need_a_pass {
            let ghost s1 = pass_entries(second);
            proof {
                if without_parents(f) {
                    lemma_pass_without_parents(f, s1);
                }
                if one_level_pack(f) {
                    lemma_pass_one_level(f, s1);
                }
                if closed_pack(f) {
                    lemma_closed_ancestors_listed(f);
                    let (q, n) = choose|q: int, n: int| 0 <= q < f.len() && needs_split(f[q].1) && 0 <= n < dots(f[q].1)
                        && !has_key(f, #[trigger] prefix_before(f[q].1.relative_category_name@, '.', n)->0);
                    assert(false);
                }
            }
            let (third, again) = category_pass(&second, report);
            proof {
                let s2 = pass_entries(third);
                if again {
                    let j = choose|j: int| 0 <= j < s2.len() && !has_key(s1, #[trigger] s2[j].0);
                    let (i, n) = choose|i: int, n: int| 0 <= i < s1.len() && needs_split(s1[i].1)
                        && made_up_from(s2[j].1, s1[i].1, n);
                }
            }
            let creation = millis_since(&start_creation);
            let r = link_and_place(&second, &third, report, initialize, creation);
            proof {
                let s2 = pass_entries(third);
                if r is Err {
                    let k = r->Err_0.guid;
                    let j = choose|j: int| 0 <= j < s2.len() && s2[j].1.guid == k;
                    lemma_guid_traced(s1, s2, j);
                    if has_key(s1, s2[j].0) {
                        let b = choose|b: int| 0 <= b < s1.len() && s1[b].0 == s2[j].0 && s1[b].1.guid == k;
                        lemma_guid_traced(f, s1, b);
                    }
                }
                if r is Ok {
                    assert forall|k: u128| #[trigger] forest_guids(r->Ok_0@).count(k) > 0
                        implies input_guid(f, k) || has_key(report.late(), k) by {
                        let j = choose|j: int| 0 <= j < s2.len() && s2[j].1.guid == k;
                        lemma_guid_traced(s1, s2, j);
                        if has_key(s1, s2[j].0) {
                            let b = choose|b: int| 0 <= b < s1.len() && s1[b].0 == s2[j].0 && s1[b].1.guid == k;
                            lemma_guid_traced(f, s1, b);
                        }
                    }
                    assert forall|i: int| 0 <= i < f.len() implies
                        forest_guids(r->Ok_0@).count(#[trigger] f[i].1.guid) == 1 by {
                        assert(has_key(s1, f[i].0));
                        let a = choose|a: int| 0 <= a < s1.len() && s1[a].0 == f[i].0;
                        assert(has_key(s2, s1[a].0));
                        let b = choose|b: int| 0 <= b < s2.len() && s2[b].0 == s1[a].0;
                        assert(value_at(s1, f[i].0).guid == f[i].1.guid);
                        assert(value_at(s2, s1[a].0).guid == s1[a].1.guid) by {
                            assert(!needs_split(s1[a].1));
                        }
                        let x = choose|x: int| 0 <= x < s1.len() && s1[x].0 == f[i].0;
                        assert(x == a);
                        let y = choose|y: int| 0 <= y < s2.len() && s2[y].0 == s1[a].0;
                        assert(y == b);
                    }
                }
            }
            r
        } else {
            let creation = millis_since(&start_creation);
            proof {
                if without_parents(f) {
                    lemma_pass_without_parents(f, pass_entries(second));
                }
                if one_level_pack(f) {
                    lemma_pass_one_level(f, pass_entries(second));
                }
                if two_level_pack(f) {
                    lemma_pass_two_level(f, pass_entries(second));
                }
                if closed_pack(f) {
                    lemma_closed_pass(f, pass_entries(second));
                }
            }
            let r = link_and_place(input_first_pass_categories, &second, report, initialize, creation);
            proof {
                let s1 = pass_entries(second);
                if r is Err {
                    let k = r->Err_0.guid;
                    let j = choose|j: int| 0 <= j < s1.len() && s1[j].1.guid == k;
                    lemma_guid_traced(f, s1, j);
                }
                if r is Ok {
                    assert forall|k: u128| #[trigger] forest_guids(r->Ok_0@).count(k) > 0
                        implies input_guid(f, k) || has_key(report.late(), k) by {
                        let j = choose|j: int| 0 <= j < s1.len() && s1[j].1.guid == k;
                        lemma_guid_traced(f, s1, j);
                    }
                    assert forall|i: int| 0 <= i < f.len() implies
                        forest_guids(r->Ok_0@).count(#[trigger] f[i].1.guid) == 1 by {
                        assert(has_key(s1, f[i].0));
                        let a = choose|a: int| 0 <= a < s1.len() && s1[a].0 == f[i].0;
                        assert(value_at(s1, f[i].0).guid == f[i].1.guid);
                    }
                    if closed_pack(f) {
                        assert forall|i: int| 0 <= i < f.len() implies at_path(r->Ok_0@,
                            name_path(#[trigger] f[i].1.full_category_name@, '.'), f[i].1.guid) by {
                            assert(s1[i].1.guid == f[i].1.guid);
                        }
                        lemma_pass_in_place(f, s1);
                        assert forall|i: int| #![trigger f[i]] 0 <= i < f.len() implies found_with(r->Ok_0@,
                            f[i].1.full_category_name@, f[i].1.guid,
                            if needs_split(f[i].1) { chunk(f[i].1.relative_category_name@, '.', dots(f[i].1)) } else { f[i].1.display_name@ },
                            f[i].1.separator, f[i].1.default_enabled) by {
                            assert(s1[i].0 == f[i].0);
                            assert(found_with(r->Ok_0@, s1[i].1.full_category_name@, s1[i].1.guid, s1[i].1.display_name@,
                                s1[i].1.separator, s1[i].1.default_enabled));
                        }
                    }
                }
            }
            r
        }
    }
}

/// Law: a category renamed after its last chunk still rejoins its full
/// name: its parent name, a dot, then its relative name.
pub proof fn law_split_name_rejoins(new: RawCategory, old: RawCategory)
    requires
        needs_split(old),
        split_from(new, old),
    ensures
        new.parent_name is Some,
        new.parent_name->0@ + seq!['.'] + new.relative_category_name@ == new.full_category_name@,
{
    crate::category_name::law_parent_and_last_chunk(old.relative_category_name@, '.');
}

} // verus!
