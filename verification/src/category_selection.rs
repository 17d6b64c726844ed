//! Which categories of a pack the user selected, as a tree keyed by the
//! categories' relative names, and which of them are active on the current
//! map.

use vstd::prelude::*;
use std::collections::{HashMap, HashSet};
use crate::categories::Category;
use crate::package::PackCore;
use crate::uuids::new_uuid;
use crate::text::same_text;

verus! {

broadcast use vstd::std_specs::hash::group_hash_axioms;

/// A category as the user sees it in the selection menu.
#[derive(Debug)]
pub struct CategorySelection {
    pub uuid: u128,
    pub parent: Option<u128>,
    /// Selected in the configuration, to be displayed.
    pub is_selected: bool,
    /// Displayed now.
    pub is_active: bool,
    pub separator: bool,
    pub display_name: String,
    /// The sub-categories, by relative name, in order.
    pub children: Vec<(String, CategorySelection)>,
}

/// `new` is `old` with another selection flag and other sub-categories.
pub open spec fn same_but_selection(old: CategorySelection, new: CategorySelection) -> bool {
    &&& new.uuid == old.uuid
    &&& new.parent == old.parent
    &&& new.is_active == old.is_active
    &&& new.separator == old.separator
    &&& new.display_name@ == old.display_name@
}

/// `new` is `old` with every category that is not a separator, and not
/// under one, selected as `status`.
pub open spec fn all_set(old: Seq<(String, CategorySelection)>, new: Seq<(String, CategorySelection)>, status: bool) -> bool
    decreases old,
{
    &&& new.len() == old.len()
    &&& forall|i: int| #![trigger old[i]] 0 <= i < old.len() ==> new[i].0@ == old[i].0@ && node_all_set(old[i].1, new[i].1, status)
}

/// `new` is the category `old` with itself and its sub-categories selected
/// as `status`, unless it is a separator, which stays as it is.
pub open spec fn node_all_set(old: CategorySelection, new: CategorySelection, status: bool) -> bool
    decreases old,
{
    if old.separator {
        new == old
    } else {
        &&& same_but_selection(old, new)
        &&& new.is_selected == status
        &&& all_set(old.children@, new.children@, status)
    }
}

impl CategorySelection {
    /// Selects as `status` every category of the level that is not a
    /// separator, and everything under it; separators and what is under
    /// them stay as they are.
    pub fn recursive_set_all(selection: &mut Vec<(String, CategorySelection)>, status: bool)
        ensures
            all_set(old(selection)@, final(selection)@, status),
        decreases old(selection)@,
    {
        let n = selection.len();
        let mut i: usize = 0;
        while i < n
            invariant
                n == selection.len(),
                n == old(selection)@.len(),
                0 <= i <= n,
                forall|j: int| 0 <= j < i ==> selection@[j].0@ == old(selection)@[j].0@
                    && node_all_set(old(selection)@[j].1, selection@[j].1, status),
                forall|j: int| i <= j < n ==> selection@[j] == old(selection)@[j],
            decreases n - i,
        {
            if !selection[i].1.separator {
                let ghost before = selection@;
                let (key, mut cat) = selection.remove(i);
                let ghost old_cat = cat;
                proof {
                    assert(old_cat == old(selection)@[i as int].1);
                    assert(decreases_to!(old(selection)@ => old(selection)@[i as int]));
                    assert(decreases_to!(old(selection)@[i as int] => old(selection)@[i as int].1));
                    assert(decreases_to!(old_cat => old_cat.children));
                    assert(decreases_to!(old_cat.children => old_cat.children@));
                }
                cat.is_selected = status;
                CategorySelection::recursive_set_all(&mut cat.children, status);
                selection.insert(i, (key, cat));
                proof {
                    assert(selection@ =~= before.update(i as int, (key, cat)));
                    assert(node_all_set(old_cat, cat, status));
                    assert forall|j: int| 0 <= j < i + 1 implies selection@[j].0@ == old(selection)@[j].0@
                        && #[trigger] node_all_set(old(selection)@[j].1, selection@[j].1, status) by {
                        if j < i {
                            assert(selection@[j] == before[j]);
                        }
                    }
                }
            } else {
                proof {
                    assert(selection@[i as int] == old(selection)@[i as int]);
                    assert(old(selection)@[i as int].1.separator);
                    assert(selection@[i as int].1 == old(selection)@[i as int].1);
                    assert(node_all_set(old(selection)@[i as int].1, selection@[i as int].1, status));
                }
            }
            i = i + 1;
        }
        proof {
            assert(selection@.len() == old(selection)@.len());
            assert forall|j: int| 0 <= j < old(selection)@.len() implies selection@[j].0@ == old(selection)@[j].0@
                && #[trigger] node_all_set(old(selection)@[j].1, selection@[j].1, status) by {}
            assert(all_set(old(selection)@, selection@, status));
        }
    }
}

/// The two levels hold the same names and the same categories, down to the
/// leaves.
pub open spec fn same_level(a: Seq<(String, CategorySelection)>, b: Seq<(String, CategorySelection)>) -> bool
    decreases a,
{
    &&& a.len() == b.len()
    &&& forall|i: int| #![trigger a[i]] 0 <= i < a.len() ==> a[i].0@ == b[i].0@ && same_node(a[i].1, b[i].1)
}

/// The two categories hold the same values, down to the leaves.
pub open spec fn same_node(a: CategorySelection, b: CategorySelection) -> bool
    decreases a,
{
    &&& same_but_selection(a, b)
    &&& a.is_selected == b.is_selected
    &&& same_level(a.children@, b.children@)
}

/// A level is the same as itself.
pub proof fn lemma_same_level_refl(a: Seq<(String, CategorySelection)>)
    ensures
        same_level(a, a),
    decreases a,
{
    assert forall|i: int| 0 <= i < a.len() implies a[i].0@ == a[i].0@ && same_node(#[trigger] a[i].1, a[i].1) by {
        assert(decreases_to!(a => a[i]));
        assert(decreases_to!(a[i] => a[i].1));
        assert(decreases_to!(a[i].1 => a[i].1.children));
        assert(decreases_to!(a[i].1.children => a[i].1.children@));
        lemma_same_level_refl(a[i].1.children@);
    }
}

/// Whether the category, or one under it not behind a separator, has that
/// UUID.
pub open spec fn node_holds(c: CategorySelection, uuid: u128) -> bool
    decreases c,
{
    c.uuid == uuid || level_holds(c.children@, uuid)
}

/// Whether a category of the level that is not a separator has that UUID,
/// itself or under it.
pub open spec fn level_holds(s: Seq<(String, CategorySelection)>, uuid: u128) -> bool
    decreases s,
{
    exists|i: int| #![trigger s[i]] 0 <= i < s.len() && !s[i].1.separator && node_holds(s[i].1, uuid)
}

/// Whether entry `i` of the level is a non-separator holding that UUID.
pub open spec fn holder(s: Seq<(String, CategorySelection)>, i: int, uuid: u128) -> bool {
    0 <= i < s.len() && !s[i].1.separator && node_holds(s[i].1, uuid)
}

/// `new` is the level `old` where the first category holding `uuid`, in
/// order and depth first, has its selection set to `status`.
pub open spec fn first_set(old: Seq<(String, CategorySelection)>, new: Seq<(String, CategorySelection)>, uuid: u128, status: bool) -> bool
    decreases old,
{
    exists|i0: int| #![trigger holder(old, i0, uuid)] {
        &&& holder(old, i0, uuid)
        &&& forall|j: int| 0 <= j < i0 ==> !holder(old, j, uuid)
        &&& new.len() == old.len()
        &&& new[i0].0@ == old[i0].0@
        &&& node_first_set(old[i0].1, new[i0].1, uuid, status)
        &&& forall|j: int| #![trigger old[j]] 0 <= j < old.len() && j != i0 ==> new[j].0@ == old[j].0@ && same_node(old[j].1, new[j].1)
    }
}

/// `new` is `old` with its selection set to `status` if it has that UUID,
/// else with the first category under it holding the UUID set.
pub open spec fn node_first_set(old: CategorySelection, new: CategorySelection, uuid: u128, status: bool) -> bool
    decreases old,
{
    &&& same_but_selection(old, new)
    &&& if old.uuid == uuid {
        &&& new.is_selected == status
        &&& same_level(old.children@, new.children@)
    } else {
        &&& new.is_selected == old.is_selected
        &&& first_set(old.children@, new.children@, uuid, status)
    }
}

/// `first_set` holds where the first holder of the UUID is entry `i0`, set,
/// and every other entry is unchanged.
proof fn lemma_first_set_at(old: Seq<(String, CategorySelection)>, new: Seq<(String, CategorySelection)>, i0: int, uuid: u128, status: bool)
    requires
        holder(old, i0, uuid),
        forall|j: int| 0 <= j < i0 ==> !holder(old, j, uuid),
        new.len() == old.len(),
        new[i0].0@ == old[i0].0@,
        node_first_set(old[i0].1, new[i0].1, uuid, status),
        forall|j: int| #![trigger old[j]] 0 <= j < old.len() && j != i0 ==> new[j].0@ == old[j].0@ && same_node(old[j].1, new[j].1),
    ensures
        first_set(old, new, uuid, status),
{
}

impl CategorySelection {
    /// Sets the selection of the first category of that UUID, in order and
    /// depth first, skipping separators and what is under them. Tells
    /// whether one was found.
    pub fn recursive_set(selection: &mut Vec<(String, CategorySelection)>, uuid: u128, status: bool) -> (r: bool)
        ensures
            r == level_holds(old(selection)@, uuid),
            r ==> first_set(old(selection)@, final(selection)@, uuid, status),
            !r ==> same_level(old(selection)@, final(selection)@),
        decreases old(selection)@,
    {
        let n = selection.len();
        let mut i: usize = 0;
        while i < n
            invariant
                n == selection.len(),
                n == old(selection)@.len(),
                0 <= i <= n,
                forall|j: int| 0 <= j < i ==> !holder(old(selection)@, j, uuid),
                forall|j: int| #![trigger old(selection)@[j]] 0 <= j < i ==> selection@[j].0@ == old(selection)@[j].0@
                    && same_node(old(selection)@[j].1, selection@[j].1),
                forall|j: int| i <= j < n ==> selection@[j] == old(selection)@[j],
            decreases n - i,
        {
            if !selection[i].1.separator {
                let ghost before = selection@;
                let ghost o = old(selection)@;
                let (key, mut cat) = selection.remove(i);
                let ghost old_cat = cat;
                proof {
                    assert(old_cat == o[i as int].1);
                    assert(decreases_to!(o => o[i as int]));
                    assert(decreases_to!(o[i as int] => o[i as int].1));
                    assert(decreases_to!(old_cat => old_cat.children));
                    assert(decreases_to!(old_cat.children => old_cat.children@));
                }
                if cat.uuid == uuid {
                    cat.is_selected = status;
                    selection.insert(i, (key, cat));
                    proof {
                        lemma_same_level_refl(old_cat.children@);
                        assert(node_holds(old_cat, uuid));
                        assert(holder(o, i as int, uuid));
                        assert(node_first_set(old_cat, cat, uuid, status));
                        assert(selection@ =~= before.update(i as int, (key, cat)));
                        assert forall|j: int| #![trigger o[j]] 0 <= j < o.len() && j != i implies selection@[j].0@ == o[j].0@
                            && same_node(o[j].1, selection@[j].1) by {
                            if j > i {
                                lemma_same_level_refl(o[j].1.children@);
                            }
                        }
                        lemma_first_set_at(o, selection@, i as int, uuid, status);
                    }
                    return true;
                }
                let found = CategorySelection::recursive_set(&mut cat.children, uuid, status);
                selection.insert(i, (key, cat));
                proof {
                    assert(selection@ =~= before.update(i as int, (key, cat)));
                }
                if found {
                    proof {
                        assert(node_first_set(old_cat, cat, uuid, status));
                        assert(holder(o, i as int, uuid));
                        assert forall|j: int| #![trigger o[j]] 0 <= j < o.len() && j != i implies selection@[j].0@ == o[j].0@
                            && same_node(o[j].1, selection@[j].1) by {
                            if j > i {
                                lemma_same_level_refl(o[j].1.children@);
                            }
                        }
                        lemma_first_set_at(o, selection@, i as int, uuid, status);
                    }
                    return true;
                }
                proof {
                    assert(!holder(o, i as int, uuid));
                    assert(same_node(old_cat, cat));
                    assert forall|j: int| #![trigger o[j]] 0 <= j < i + 1 implies selection@[j].0@ == o[j].0@
                        && same_node(o[j].1, selection@[j].1) by {
                        if j < i {
                            assert(selection@[j] == before[j]);
                        }
                    }
                }
            } else {
                proof {
                    lemma_same_level_refl(old(selection)@[i as int].1.children@);
                }
            }
            i = i + 1;
        }
        proof {
            let o = old(selection)@;
            assert forall|j: int| #![trigger o[j]] 0 <= j < o.len() && !o[j].1.separator implies !node_holds(o[j].1, uuid) by {
                assert(!holder(o, j, uuid));
            }
            assert(!level_holds(o, uuid));
            assert(same_level(o, selection@));
        }
        false
    }
}

/// Whether the category, or one anywhere under it, separators included, is
/// on the set of active elements.
pub open spec fn subtree_active(c: CategorySelection, active: Set<u128>) -> bool
    decreases c,
{
    active.contains(c.uuid) || level_active(c.children@, active)
}

/// Whether a category of the level is active, itself or under it.
pub open spec fn level_active(s: Seq<(String, CategorySelection)>, active: Set<u128>) -> bool
    decreases s,
{
    exists|i: int| #![trigger s[i]] 0 <= i < s.len() && subtree_active(s[i].1, active)
}

/// `new` is `old` with another activity flag and other sub-categories.
pub open spec fn same_but_activity(old: CategorySelection, new: CategorySelection) -> bool {
    &&& new.uuid == old.uuid
    &&& new.parent == old.parent
    &&& new.is_selected == old.is_selected
    &&& new.separator == old.separator
    &&& new.display_name@ == old.display_name@
}

/// `new` is the level `old` with the activity of each category brought up to
/// date.
pub open spec fn active_updated(old: Seq<(String, CategorySelection)>, new: Seq<(String, CategorySelection)>, active: Set<u128>) -> bool
    decreases old,
{
    &&& new.len() == old.len()
    &&& forall|i: int| #![trigger old[i]] 0 <= i < old.len() ==> new[i].0@ == old[i].0@ && node_active_updated(old[i].1, new[i].1, active)
}

/// `new` is `old` marked active exactly when it or one under it is on the
/// set. A category that is itself on the set keeps its sub-categories as they
/// were; the others have theirs brought up to date.
pub open spec fn node_active_updated(old: CategorySelection, new: CategorySelection, active: Set<u128>) -> bool
    decreases old,
{
    &&& same_but_activity(old, new)
    &&& new.is_active == subtree_active(old, active)
    &&& if active.contains(old.uuid) {
        same_level(old.children@, new.children@)
    } else {
        active_updated(old.children@, new.children@, active)
    }
}

impl CategorySelection {
    /// Marks each category of the level active when it, or one under it, is
    /// among the active elements; tells whether one of the level is active.
    pub fn recursive_update_active_categories(selection: &mut Vec<(String, CategorySelection)>, active_elements: &HashSet<u128>) -> (r: bool)
        ensures
            r == level_active(old(selection)@, active_elements@),
            active_updated(old(selection)@, final(selection)@, active_elements@),
        decreases old(selection)@,
    {
        let n = selection.len();
        let mut i: usize = 0;
        let mut is_active = false;
        while i < n
            invariant
                n == selection.len(),
                n == old(selection)@.len(),
                0 <= i <= n,
                is_active == exists|j: int| #![trigger old(selection)@[j]] 0 <= j < i && subtree_active(old(selection)@[j].1, active_elements@),
                forall|j: int| #![trigger old(selection)@[j]] 0 <= j < i ==> selection@[j].0@ == old(selection)@[j].0@
                    && node_active_updated(old(selection)@[j].1, selection@[j].1, active_elements@),
                forall|j: int| i <= j < n ==> selection@[j] == old(selection)@[j],
            decreases n - i,
        {
            let ghost before = selection@;
            let ghost o = old(selection)@;
            let (key, mut cat) = selection.remove(i);
            let ghost old_cat = cat;
            proof {
                assert(old_cat == o[i as int].1);
                assert(decreases_to!(o => o[i as int]));
                assert(decreases_to!(o[i as int] => o[i as int].1));
                assert(decreases_to!(old_cat => old_cat.children));
                assert(decreases_to!(old_cat.children => old_cat.children@));
            }
            if active_elements.contains(&cat.uuid) {
                cat.is_active = true;
                proof {
                    lemma_same_level_refl(old_cat.children@);
                }
            } else {
                let below = CategorySelection::recursive_update_active_categories(&mut cat.children, active_elements);
                cat.is_active = below;
            }
            if cat.is_active {
                is_active = true;
            }
            selection.insert(i, (key, cat));
            proof {
                assert(selection@ =~= before.update(i as int, (key, cat)));
                assert(node_active_updated(old_cat, cat, active_elements@));
                assert forall|j: int| #![trigger o[j]] 0 <= j < i + 1 implies selection@[j].0@ == o[j].0@
                    && node_active_updated(o[j].1, selection@[j].1, active_elements@) by {
                    if j < i {
                        assert(selection@[j] == before[j]);
                    }
                }
            }
            i = i + 1;
        }
        is_active
    }

    /// The first category of that UUID, in order and depth first, separators
    /// included.
    pub fn get(selection: &Vec<(String, CategorySelection)>, uuid: u128) -> (r: Option<&CategorySelection>)
        ensures
            (match r {
                Some(c) => found_in_level(selection@, uuid) == Some(*c),
                None => found_in_level(selection@, uuid) is None,
            }),
        decreases selection@,
    {
        let n = selection.len();
        let mut i: usize = 0;
        while i < n
            invariant
                n == selection.len(),
                0 <= i <= n,
                found_in_level(selection@, uuid) == found_from(selection@, i as int, uuid),
            decreases n - i,
        {
            let cat = &selection[i].1;
            proof {
                reveal_with_fuel(found_from, 2);
                reveal_with_fuel(found_in_node, 2);
            }
            if cat.uuid == uuid {
                return Some(cat);
            }
            proof {
                assert(decreases_to!(selection@ => selection@[i as int]));
                assert(decreases_to!(selection@[i as int] => selection@[i as int].1));
                assert(decreases_to!(selection@[i as int].1 => selection@[i as int].1.children));
                assert(decreases_to!(selection@[i as int].1.children => selection@[i as int].1.children@));
            }
            let below = CategorySelection::get(&cat.children, uuid);
            if below.is_some() {
                return below;
            }
            i = i + 1;
        }
        None
    }
}

/// The first category of that UUID in the category, itself first, then
/// depth first under it.
pub open spec fn found_in_node(c: CategorySelection, uuid: u128) -> Option<CategorySelection>
    decreases c, 0int,
{
    if c.uuid == uuid {
        Some(c)
    } else {
        found_from(c.children@, 0, uuid)
    }
}

/// The first category of that UUID among entries `i` onward of the level.
pub open spec fn found_from(s: Seq<(String, CategorySelection)>, i: int, uuid: u128) -> Option<CategorySelection>
    decreases s, s.len() - i,
{
    if i < 0 || i >= s.len() {
        None
    } else {
        match found_in_node(s[i].1, uuid) {
            Some(c) => Some(c),
            None => found_from(s, i + 1, uuid),
        }
    }
}

/// The first category of that UUID in the level, in order and depth first.
pub open spec fn found_in_level(s: Seq<(String, CategorySelection)>, uuid: u128) -> Option<CategorySelection> {
    found_from(s, 0, uuid)
}

/// What a category of the selection menu holds, as plain values.
pub struct SelectionView {
    pub uuid: u128,
    pub parent: Option<u128>,
    pub is_selected: bool,
    pub is_active: bool,
    pub separator: bool,
    pub display_name: Seq<char>,
    pub children: Seq<(Seq<char>, SelectionView)>,
}

/// The category as plain values, down to the leaves.
pub open spec fn node_view(c: CategorySelection) -> SelectionView
    decreases c,
{
    SelectionView {
        uuid: c.uuid,
        parent: c.parent,
        is_selected: c.is_selected,
        is_active: c.is_active,
        separator: c.separator,
        display_name: c.display_name@,
        children: level_view(c.children@),
    }
}

/// The level as plain values: each name with its category.
pub open spec fn level_view(s: Seq<(String, CategorySelection)>) -> Seq<(Seq<char>, SelectionView)>
    decreases s,
{
    if s.len() == 0 {
        Seq::empty()
    } else {
        level_view(s.drop_last()).push((s.last().0@, node_view(s.last().1)))
    }
}

/// The view of a level holds the view of each of its entries, in order.
pub proof fn lemma_level_view(s: Seq<(String, CategorySelection)>)
    ensures
        level_view(s).len() == s.len(),
        forall|k: int| #![trigger s[k]] 0 <= k < s.len() ==> level_view(s)[k] == (s[k].0@, node_view(s[k].1)),
    decreases s.len(),
{
    reveal_with_fuel(level_view, 2);
    if s.len() > 0 {
        lemma_level_view(s.drop_last());
        assert forall|k: int| #![trigger s[k]] 0 <= k < s.len() implies level_view(s)[k] == (s[k].0@, node_view(s[k].1)) by {
            if k < s.len() - 1 {
                assert(s.drop_last()[k] == s[k]);
            }
        }
    }
}

/// Replacing an entry of a level replaces its view.
pub proof fn lemma_level_view_update(s: Seq<(String, CategorySelection)>, k: int, x: (String, CategorySelection))
    requires
        0 <= k < s.len(),
    ensures
        level_view(s.update(k, x)) == level_view(s).update(k, (x.0@, node_view(x.1))),
{
    lemma_level_view(s);
    lemma_level_view(s.update(k, x));
    let a = level_view(s.update(k, x));
    let b = level_view(s).update(k, (x.0@, node_view(x.1)));
    assert forall|j: int| 0 <= j < a.len() implies a[j] == b[j] by {
        assert(s.update(k, x)[j] == (if j == k { x } else { s[j] }));
    }
    assert(a =~= b);
}

/// The index of the first entry of the level from `i` on named `name`, or -1.
pub open spec fn first_named(s: Seq<(Seq<char>, SelectionView)>, name: Seq<char>, i: int) -> int
    decreases s.len() - i,
{
    if i < 0 || i >= s.len() {
        -1
    } else if s[i].0 == name {
        i
    } else {
        first_named(s, name, i + 1)
    }
}

/// The level `sel` with the category `cat` merged in: a new entry at the end
/// when no entry has its relative name, made from the category and the
/// merge of its sub-categories; else the first such entry, with the
/// category's sub-categories merged into its own.
pub open spec fn merge_one(sel: Seq<(Seq<char>, SelectionView)>, cat: Category) -> Seq<(Seq<char>, SelectionView)>
    decreases cat,
{
    let k = first_named(sel, cat.relative_category_name@, 0);
    if k < 0 {
        sel.push((cat.relative_category_name@, SelectionView {
            uuid: cat.guid,
            parent: cat.parent,
            is_selected: cat.default_enabled,
            is_active: !cat.separator,
            separator: cat.separator,
            display_name: cat.display_name@,
            children: merge_level(Seq::empty(), cat.children@),
        }))
    } else {
        let e = sel[k].1;
        sel.update(k, (sel[k].0, SelectionView {
            uuid: e.uuid,
            parent: e.parent,
            is_selected: e.is_selected,
            is_active: e.is_active,
            separator: e.separator,
            display_name: e.display_name,
            children: merge_level(e.children, cat.children@),
        }))
    }
}

/// The level `sel` with the categories merged in one after the other.
pub open spec fn merge_level(sel: Seq<(Seq<char>, SelectionView)>, cats: Seq<(u128, Category)>) -> Seq<(Seq<char>, SelectionView)>
    decreases cats,
{
    if cats.len() == 0 {
        sel
    } else {
        merge_level(merge_one(sel, cats[0].1), cats.drop_first())
    }
}

impl CategorySelection {
    /// The index of the first entry of the level with that name.
    fn find_named(selection: &Vec<(String, CategorySelection)>, name: &String) -> (r: Option<usize>)
        ensures
            (match r {
                Some(k) => first_named(level_view(selection@), name@, 0) == k && k < selection@.len(),
                None => first_named(level_view(selection@), name@, 0) == -1,
            }),
    {
        proof {
            lemma_level_view(selection@);
        }
        let n = selection.len();
        let mut i: usize = 0;
        while i < n
            invariant
                n == selection.len(),
                0 <= i <= n,
                level_view(selection@).len() == n,
                forall|k: int| #![trigger selection@[k]] 0 <= k < n ==> level_view(selection@)[k] == (selection@[k].0@, node_view(selection@[k].1)),
                first_named(level_view(selection@), name@, 0) == first_named(level_view(selection@), name@, i as int),
            decreases n - i,
        {
            proof {
                assert(level_view(selection@)[i as int] == (selection@[i as int].0@, node_view(selection@[i as int].1)));
            }
            if same_text(selection[i].0.as_str(), name.as_str()) {
                return Some(i);
            }
            i = i + 1;
        }
        None
    }

    /// Merges the categories into the level, entry by relative name, down to
    /// the leaves.
    fn recursive_create_selectable_categories(selectable_categories: &mut Vec<(String, CategorySelection)>, cats: &Vec<(u128, Category)>)
        ensures
            level_view(final(selectable_categories)@) == merge_level(level_view(old(selectable_categories)@), cats@),
        decreases cats@,
    {
        let n = cats.len();
        let mut i: usize = 0;
        proof {
            assert(cats@.subrange(0, n as int) =~= cats@);
        }
        while i < n
            invariant
                n == cats.len(),
                0 <= i <= n,
                merge_level(level_view(selectable_categories@), cats@.subrange(i as int, n as int))
                    == merge_level(level_view(old(selectable_categories)@), cats@),
            decreases n - i,
        {
            let cat = &cats[i].1;
            let ghost before = level_view(selectable_categories@);
            proof {
                assert(cats@.subrange(i as int, n as int).drop_first() =~= cats@.subrange(i + 1, n as int));
                assert(cats@.subrange(i as int, n as int)[0] == cats@[i as int]);
                assert(decreases_to!(cats@ => cats@[i as int]));
                assert(decreases_to!(cats@[i as int] => cats@[i as int].1));
                assert(decreases_to!(cats@[i as int].1 => cats@[i as int].1.children));
                assert(decreases_to!(cats@[i as int].1.children => cats@[i as int].1.children@));
                lemma_level_view(selectable_categories@);
            }
            let k = match CategorySelection::find_named(selectable_categories, &cat.relative_category_name) {
                Some(k) => k,
                None => {
                    let entry = CategorySelection {
                        uuid: cat.guid,
                        parent: cat.parent,
                        is_selected: cat.default_enabled,
                        is_active: !cat.separator,
                        separator: cat.separator,
                        display_name: cat.display_name.clone(),
                        children: Vec::new(),
                    };
                    let ghost s0 = selectable_categories@;
                    selectable_categories.push((cat.relative_category_name.clone(), entry));
                    proof {
                        assert(selectable_categories@.drop_last() =~= s0);
                        assert(level_view(Seq::<(String, CategorySelection)>::empty()) =~= Seq::<(Seq<char>, SelectionView)>::empty());
                    }
                    selectable_categories.len() - 1
                },
            };
            let ghost mid = selectable_categories@;
            let (key, mut entry) = selectable_categories.remove(k);
            CategorySelection::recursive_create_selectable_categories(&mut entry.children, &cat.children);
            selectable_categories.insert(k, (key, entry));
            proof {
                assert(selectable_categories@ =~= mid.update(k as int, (key, entry)));
                lemma_level_view_update(mid, k as int, (key, entry));
                assert(level_view(selectable_categories@) =~= merge_one(before, *cat));
            }
            i = i + 1;
        }
        proof {
            assert(cats@.subrange(n as int, n as int) =~= Seq::<(u128, Category)>::empty());
        }
    }

    /// The selection menu of a pack's categories, each entry as its
    /// category sets it: selected when enabled by default, active unless a
    /// separator.
    pub fn default_from_pack_core(pack: &PackCore) -> (r: Vec<(String, CategorySelection)>)
        ensures
            level_view(r@) == merge_level(Seq::empty(), pack.categories@),
    {
        let mut selectable_categories: Vec<(String, CategorySelection)> = Vec::new();
        proof {
            assert(level_view(selectable_categories@) =~= Seq::<(Seq<char>, SelectionView)>::empty());
        }
        CategorySelection::recursive_create_selectable_categories(&mut selectable_categories, &pack.categories);
        selectable_categories
    }
}

/// Whether an entry of the level has that name.
pub open spec fn has_name(s: Seq<(Seq<char>, SelectionView)>, name: Seq<char>) -> bool {
    exists|j: int| #![trigger s[j]] 0 <= j < s.len() && s[j].0 == name
}

/// `first_named` finds an entry exactly when one from `i` on has the name,
/// and then one of that name.
proof fn lemma_first_named(s: Seq<(Seq<char>, SelectionView)>, name: Seq<char>, i: int)
    requires
        0 <= i,
    ensures
        (first_named(s, name, i) >= 0) == (exists|j: int| #![trigger s[j]] i <= j < s.len() && s[j].0 == name),
        first_named(s, name, i) >= 0 ==> first_named(s, name, i) < s.len() && s[first_named(s, name, i)].0 == name,
    decreases s.len() - i,
{
    if i < s.len() {
        lemma_first_named(s, name, i + 1);
        if s[i].0 != name {
            assert forall|j: int| #![trigger s[j]] i <= j < s.len() && s[j].0 == name implies i + 1 <= j by {}
        }
    }
}

/// Merging one category keeps the entries of the level where they were,
/// under their names, and leaves an entry of the category's name.
proof fn lemma_merge_one_names(sel: Seq<(Seq<char>, SelectionView)>, cat: Category)
    ensures
        merge_one(sel, cat).len() >= sel.len(),
        forall|j: int| #![trigger sel[j]] 0 <= j < sel.len() ==> merge_one(sel, cat)[j].0 == sel[j].0,
        has_name(merge_one(sel, cat), cat.relative_category_name@),
{
    let name = cat.relative_category_name@;
    lemma_first_named(sel, name, 0);
    let k = first_named(sel, name, 0);
    let r = merge_one(sel, cat);
    if k < 0 {
        assert(r[sel.len() as int].0 == name);
    } else {
        assert(r[k].0 == name);
    }
}

/// Merging categories keeps the entries of the level where they were, under
/// their names, and leaves an entry of each category's name.
proof fn lemma_merge_level_names(sel: Seq<(Seq<char>, SelectionView)>, cats: Seq<(u128, Category)>)
    ensures
        merge_level(sel, cats).len() >= sel.len(),
        forall|j: int| #![trigger sel[j]] 0 <= j < sel.len() ==> merge_level(sel, cats)[j].0 == sel[j].0,
        forall|i: int| #![trigger cats[i]] 0 <= i < cats.len() ==> has_name(merge_level(sel, cats), cats[i].1.relative_category_name@),
    decreases cats.len(),
{
    if cats.len() > 0 {
        let m = merge_one(sel, cats[0].1);
        let rest = cats.drop_first();
        lemma_merge_one_names(sel, cats[0].1);
        lemma_merge_level_names(m, rest);
        let r = merge_level(sel, cats);
        assert(r == merge_level(m, rest));
        assert forall|j: int| #![trigger sel[j]] 0 <= j < sel.len() implies r[j].0 == sel[j].0 by {
            assert(m[j].0 == sel[j].0);
        }
        assert forall|i: int| #![trigger cats[i]] 0 <= i < cats.len() implies has_name(r, cats[i].1.relative_category_name@) by {
            if i == 0 {
                let name = cats[0].1.relative_category_name@;
                let j = choose|j: int| #![trigger m[j]] 0 <= j < m.len() && m[j].0 == name;
                assert(r[j].0 == m[j].0);
            } else {
                assert(rest[i - 1] == cats[i]);
            }
        }
    }
}

/// Law: every category of the pack has an entry of its relative name at the top
/// of its default selection menu.
pub proof fn law_every_category_has_an_entry(categories: Seq<(u128, Category)>)
    ensures
        forall|i: int| #![trigger categories[i]] 0 <= i < categories.len()
            ==> has_name(merge_level(Seq::empty(), categories), categories[i].1.relative_category_name@),
{
    lemma_merge_level_names(Seq::empty(), categories);
}

/// `new` is `old` where the first category of that UUID, depth first and
/// separators included, has its selection set to `status`, and its own
/// sub-categories the first of that UUID set too; nothing changes when no
/// category has the UUID.
pub open spec fn branch_set_level(old: Seq<(String, CategorySelection)>, new: Seq<(String, CategorySelection)>, uuid: u128, status: bool) -> bool
    decreases old,
{
    if found_in_level(old, uuid) is None {
        same_level(old, new)
    } else {
        exists|i0: int| #![trigger old[i0]] {
            &&& 0 <= i0 < old.len()
            &&& found_in_node(old[i0].1, uuid) is Some
            &&& forall|j: int| 0 <= j < i0 ==> #[trigger] found_in_node(old[j].1, uuid) is None
            &&& new.len() == old.len()
            &&& new[i0].0@ == old[i0].0@
            &&& node_branch_set(old[i0].1, new[i0].1, uuid, status)
            &&& forall|j: int| #![trigger old[j]] 0 <= j < old.len() && j != i0 ==> new[j].0@ == old[j].0@ && same_node(old[j].1, new[j].1)
        }
    }
}

/// `new` is `old` with the branch set, the category holding the UUID being
/// `old` itself or one under it.
pub open spec fn node_branch_set(old: CategorySelection, new: CategorySelection, uuid: u128, status: bool) -> bool
    decreases old,
{
    &&& same_but_selection(old, new)
    &&& if old.uuid == uuid {
        &&& new.is_selected == status
        &&& if level_holds(old.children@, uuid) {
            first_set(old.children@, new.children@, uuid, status)
        } else {
            same_level(old.children@, new.children@)
        }
    } else {
        &&& new.is_selected == old.is_selected
        &&& branch_set_level(old.children@, new.children@, uuid, status)
    }
}

/// What setting a branch answers: whether the first category of that UUID
/// holds, under it, a category of the same UUID that could be set.
pub open spec fn branch_answer(old: Seq<(String, CategorySelection)>, uuid: u128) -> bool {
    match found_in_level(old, uuid) {
        Some(c) => level_holds(c.children@, uuid),
        None => false,
    }
}

/// `branch_set_level` holds where entry `i0` is the first to hold the UUID,
/// its branch is set and every other entry is unchanged.
proof fn lemma_branch_set_at(old: Seq<(String, CategorySelection)>, new: Seq<(String, CategorySelection)>, i0: int, uuid: u128, status: bool)
    requires
        0 <= i0 < old.len(),
        found_in_level(old, uuid) is Some,
        found_in_node(old[i0].1, uuid) is Some,
        forall|j: int| 0 <= j < i0 ==> #[trigger] found_in_node(old[j].1, uuid) is None,
        new.len() == old.len(),
        new[i0].0@ == old[i0].0@,
        node_branch_set(old[i0].1, new[i0].1, uuid, status),
        forall|j: int| #![trigger old[j]] 0 <= j < old.len() && j != i0 ==> new[j].0@ == old[j].0@ && same_node(old[j].1, new[j].1),
    ensures
        branch_set_level(old, new, uuid, status),
{
}

impl CategorySelection {
    /// Sets the branch of the first category of that UUID: its selection,
    /// then the first category of the same UUID under it. Tells whether
    /// such a category under it was set.
    pub fn branch_set(selection: &mut Vec<(String, CategorySelection)>, uuid: u128, status: bool) -> (r: bool)
        ensures
            r == branch_answer(old(selection)@, uuid),
            branch_set_level(old(selection)@, final(selection)@, uuid, status),
    {
        match CategorySelection::branch_set_found(selection, uuid, status) {
            Some(b) => b,
            None => false,
        }
    }

    /// Sets the branch of the first category of that UUID; `None` when no
    /// category has it, else whether one under it was set.
    fn branch_set_found(selection: &mut Vec<(String, CategorySelection)>, uuid: u128, status: bool) -> (r: Option<bool>)
        ensures
            r is None <==> found_in_level(old(selection)@, uuid) is None,
            r matches Some(b) ==> b == branch_answer(old(selection)@, uuid),
            branch_set_level(old(selection)@, final(selection)@, uuid, status),
        decreases old(selection)@,
    {
        let n = selection.len();
        let mut i: usize = 0;
        while i < n
            invariant
                n == selection.len(),
                n == old(selection)@.len(),
                0 <= i <= n,
                found_in_level(old(selection)@, uuid) == found_from(old(selection)@, i as int, uuid),
                forall|j: int| 0 <= j < i ==> #[trigger] found_in_node(old(selection)@[j].1, uuid) is None,
                forall|j: int| #![trigger old(selection)@[j]] 0 <= j < i ==> selection@[j].0@ == old(selection)@[j].0@
                    && same_node(old(selection)@[j].1, selection@[j].1),
                forall|j: int| i <= j < n ==> selection@[j] == old(selection)@[j],
            decreases n - i,
        {
            let ghost before = selection@;
            let ghost o = old(selection)@;
            let (key, mut cat) = selection.remove(i);
            let ghost old_cat = cat;
            proof {
                assert(old_cat == o[i as int].1);
                assert(decreases_to!(o => o[i as int]));
                assert(decreases_to!(o[i as int] => o[i as int].1));
                assert(decreases_to!(old_cat => old_cat.children));
                assert(decreases_to!(old_cat.children => old_cat.children@));
                reveal_with_fuel(found_from, 2);
                reveal_with_fuel(found_in_node, 2);
            }
            if cat.uuid == uuid {
                cat.is_selected = status;
                let b = CategorySelection::recursive_set(&mut cat.children, uuid, status);
                selection.insert(i, (key, cat));
                proof {
                    assert(selection@ =~= before.update(i as int, (key, cat)));
                    assert(found_in_node(old_cat, uuid) == Some(old_cat));
                    assert(node_branch_set(old_cat, cat, uuid, status));
                    assert forall|j: int| #![trigger o[j]] 0 <= j < o.len() && j != i implies selection@[j].0@ == o[j].0@
                        && same_node(o[j].1, selection@[j].1) by {
                        if j > i {
                            lemma_same_level_refl(o[j].1.children@);
                        }
                    }
                    lemma_branch_set_at(o, selection@, i as int, uuid, status);
                }
                return Some(b);
            }
            let below = CategorySelection::branch_set_found(&mut cat.children, uuid, status);
            selection.insert(i, (key, cat));
            proof {
                assert(selection@ =~= before.update(i as int, (key, cat)));
                assert(found_in_node(old_cat, uuid) == found_from(old_cat.children@, 0, uuid));
            }
            if below.is_some() {
                proof {
                    assert(node_branch_set(old_cat, cat, uuid, status));
                    assert forall|j: int| #![trigger o[j]] 0 <= j < o.len() && j != i implies selection@[j].0@ == o[j].0@
                        && same_node(o[j].1, selection@[j].1) by {
                        if j > i {
                            lemma_same_level_refl(o[j].1.children@);
                        }
                    }
                    lemma_branch_set_at(o, selection@, i as int, uuid, status);
                }
                return below;
            }
            proof {
                assert(same_node(old_cat, cat));
                assert forall|j: int| #![trigger o[j]] 0 <= j < i + 1 implies selection@[j].0@ == o[j].0@
                    && same_node(o[j].1, selection@[j].1) by {
                    if j < i {
                        assert(selection@[j] == before[j]);
                    }
                }
            }
            i = i + 1;
        }
        proof {
            lemma_same_level_refl(old(selection)@);
            assert(same_level(old(selection)@, selection@));
        }
        None
    }
}

/// `new` is the level `old` with each category given a UUID and its parent.
pub open spec fn populated_level(old: Seq<(String, CategorySelection)>, new: Seq<(String, CategorySelection)>, parent: Option<u128>) -> bool
    decreases old,
{
    &&& new.len() == old.len()
    &&& forall|i: int| #![trigger old[i]] 0 <= i < old.len() ==> new[i].0@ == old[i].0@ && node_populated(old[i].1, new[i].1, parent)
}

/// `new` is `old` under that parent: it keeps its UUID, or gets a fresh
/// random one when it had none (zero), and so do the categories under it.
pub open spec fn node_populated(old: CategorySelection, new: CategorySelection, parent: Option<u128>) -> bool
    decreases old,
{
    &&& old.uuid != 0 ==> new.uuid == old.uuid
    &&& old.uuid == 0 ==> new.uuid & 0xF000C000000000000000u128 == 0x40008000000000000000u128
    &&& new.parent == parent
    &&& new.is_selected == old.is_selected
    &&& new.is_active == old.is_active
    &&& new.separator == old.separator
    &&& new.display_name@ == old.display_name@
    &&& populated_level(old.children@, new.children@, Some(new.uuid))
}

/// The parents of entities after each category of the level, in order, has
/// had those under it registered and then itself under `parent`, if any.
pub open spec fn parents_registered(m: Map<u128, u128>, s: Seq<(String, CategorySelection)>, parent: Option<u128>) -> Map<u128, u128>
    decreases s,
{
    if s.len() == 0 {
        m
    } else {
        let c = s.last().1;
        let below = parents_registered(parents_registered(m, s.drop_last(), parent), c.children@, Some(c.uuid));
        match parent {
            Some(p) => below.insert(c.uuid, p),
            None => below,
        }
    }
}

impl CategorySelection {
    /// Gives each category of the level without a UUID (zero) a fresh random
    /// one, sets its parent, does the same under it, and records it under
    /// its parent among the entities' parents.
    pub fn recursive_populate_guids(
        selection: &mut Vec<(String, CategorySelection)>,
        entities_parents: &mut HashMap<u128, u128>,
        parent_uuid: Option<u128>,
    )
        ensures
            populated_level(old(selection)@, final(selection)@, parent_uuid),
            final(entities_parents)@ == parents_registered(old(entities_parents)@, final(selection)@, parent_uuid),
        decreases old(selection)@,
    {
        let n = selection.len();
        let mut i: usize = 0;
        proof {
            assert(selection@.take(0) =~= Seq::<(String, CategorySelection)>::empty());
        }
        while i < n
            invariant
                n == selection.len(),
                n == old(selection)@.len(),
                0 <= i <= n,
                forall|j: int| #![trigger old(selection)@[j]] 0 <= j < i ==> selection@[j].0@ == old(selection)@[j].0@
                    && node_populated(old(selection)@[j].1, selection@[j].1, parent_uuid),
                forall|j: int| i <= j < n ==> selection@[j] == old(selection)@[j],
                entities_parents@ == parents_registered(old(entities_parents)@, selection@.take(i as int), parent_uuid),
            decreases n - i,
        {
            let ghost before = selection@;
            let ghost o = old(selection)@;
            let (key, mut cat) = selection.remove(i);
            let ghost old_cat = cat;
            proof {
                assert(old_cat == o[i as int].1);
                assert(decreases_to!(o => o[i as int]));
                assert(decreases_to!(o[i as int] => o[i as int].1));
                assert(decreases_to!(old_cat => old_cat.children));
                assert(decreases_to!(old_cat.children => old_cat.children@));
            }
            if cat.uuid == 0 {
                cat.uuid = new_uuid();
            }
            cat.parent = parent_uuid;
            let ghost map_before = entities_parents@;
            CategorySelection::recursive_populate_guids(&mut cat.children, entities_parents, Some(cat.uuid));
            match parent_uuid {
                Some(p) => {
                    entities_parents.insert(cat.uuid, p);
                },
                None => {},
            }
            selection.insert(i, (key, cat));
            proof {
                assert(selection@ =~= before.update(i as int, (key, cat)));
                assert(node_populated(old_cat, cat, parent_uuid));
                assert forall|j: int| #![trigger o[j]] 0 <= j < i + 1 implies selection@[j].0@ == o[j].0@
                    && node_populated(o[j].1, selection@[j].1, parent_uuid) by {
                    if j < i {
                        assert(selection@[j] == before[j]);
                    }
                }
                assert(selection@.take(i + 1).drop_last() =~= before.take(i as int));
                assert(selection@.take(i + 1).last() == (key, cat));
            }
            i = i + 1;
        }
        proof {
            assert(selection@.take(n as int) =~= selection@);
        }
    }
}

} // verus!
