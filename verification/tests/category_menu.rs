use jokolay::categories::Category;
use jokolay::category_selection::CategorySelection;
use jokolay::package::PackCore;
use std::collections::HashSet;

fn cat(guid: u128, name: &str, separator: bool, enabled: bool, children: Vec<(u128, Category)>) -> (u128, Category) {
    (
        guid,
        Category {
            guid,
            parent: None,
            display_name: name.to_uppercase(),
            relative_category_name: name.to_string(),
            full_category_name: name.to_string(),
            separator,
            default_enabled: enabled,
            children,
        },
    )
}

fn menu_of(forest: Vec<(u128, Category)>) -> Vec<(String, CategorySelection)> {
    let mut pack = PackCore::new();
    pack.categories = forest;
    CategorySelection::default_from_pack_core(&pack)
}

fn entry<'a>(level: &'a [(String, CategorySelection)], name: &str) -> &'a CategorySelection {
    &level.iter().find(|(n, _)| n == name).unwrap().1
}

/// a { b, sep { c } }, d
fn menu() -> Vec<(String, CategorySelection)> {
    let forest = vec![
        cat(
            1,
            "a",
            false,
            true,
            vec![cat(2, "b", false, false, vec![]), cat(3, "sep", true, false, vec![cat(4, "c", false, true, vec![])])],
        ),
        cat(5, "d", false, false, vec![]),
    ];
    menu_of(forest)
}

#[test]
fn default_menu_follows_the_categories() {
    let m = menu();
    assert_eq!(m.len(), 2);
    assert_eq!(m[0].0, "a");
    assert_eq!(m[1].0, "d");
    let a = entry(&m, "a");
    assert_eq!(a.uuid, 1);
    assert!(a.is_selected);
    assert!(a.is_active);
    assert_eq!(a.display_name, "A");
    let sep = entry(&a.children, "sep");
    assert!(sep.separator);
    assert!(!sep.is_active);
    assert_eq!(entry(&sep.children, "c").uuid, 4);
    assert!(!entry(&m, "d").is_selected);
}

#[test]
fn categories_of_the_same_name_share_an_entry() {
    let forest = vec![
        cat(1, "a", false, true, vec![cat(2, "x", false, true, vec![])]),
        cat(7, "a", false, false, vec![cat(8, "y", false, true, vec![]), cat(9, "x", false, false, vec![])]),
    ];
    let m = menu_of(forest);
    assert_eq!(m.len(), 1);
    let a = entry(&m, "a");
    assert_eq!(a.uuid, 1);
    assert!(a.is_selected);
    let names: Vec<&str> = a.children.iter().map(|(n, _)| n.as_str()).collect();
    assert_eq!(names, vec!["x", "y"]);
    assert_eq!(entry(&a.children, "x").uuid, 2);
}

#[test]
fn setting_one_category_stops_at_the_first() {
    let mut m = menu();
    assert!(CategorySelection::recursive_set(&mut m, 2, true));
    assert!(entry(&entry(&m, "a").children, "b").is_selected);
    assert!(CategorySelection::recursive_set(&mut m, 1, false));
    assert!(!entry(&m, "a").is_selected);
    assert!(entry(&entry(&m, "a").children, "b").is_selected);
}

#[test]
fn setting_skips_what_is_under_a_separator() {
    let mut m = menu();
    assert!(!CategorySelection::recursive_set(&mut m, 4, false));
    let a = entry(&m, "a");
    assert!(entry(&entry(&a.children, "sep").children, "c").is_selected);
    assert!(!CategorySelection::recursive_set(&mut m, 42, true));
}

#[test]
fn setting_all_leaves_separators_alone() {
    let mut m = menu();
    CategorySelection::recursive_set_all(&mut m, true);
    let a = entry(&m, "a");
    assert!(a.is_selected);
    assert!(entry(&a.children, "b").is_selected);
    assert!(entry(&m, "d").is_selected);
    CategorySelection::recursive_set_all(&mut m, false);
    let a = entry(&m, "a");
    assert!(!a.is_selected);
    assert!(!entry(&a.children, "b").is_selected);
    let sep = entry(&a.children, "sep");
    assert!(!sep.is_selected);
    assert!(entry(&sep.children, "c").is_selected);
}

#[test]
fn a_category_is_active_when_something_under_it_is() {
    let mut m = menu();
    let active: HashSet<u128> = [4u128].into_iter().collect();
    assert!(CategorySelection::recursive_update_active_categories(&mut m, &active));
    let a = entry(&m, "a");
    assert!(a.is_active);
    assert!(!entry(&a.children, "b").is_active);
    let sep = entry(&a.children, "sep");
    assert!(sep.is_active);
    assert!(entry(&sep.children, "c").is_active);
    assert!(!entry(&m, "d").is_active);
    let none: HashSet<u128> = HashSet::new();
    assert!(!CategorySelection::recursive_update_active_categories(&mut m, &none));
    assert!(!entry(&m, "a").is_active);
}

#[test]
fn get_finds_the_first_category_depth_first() {
    let m = menu();
    assert_eq!(CategorySelection::get(&m, 4).unwrap().display_name, "C");
    assert_eq!(CategorySelection::get(&m, 5).unwrap().display_name, "D");
    assert!(CategorySelection::get(&m, 6).is_none());
}

#[test]
fn setting_a_branch_selects_the_first_category_of_the_uuid() {
    let mut m = menu();
    assert!(!CategorySelection::branch_set(&mut m, 3, true));
    let a = entry(&m, "a");
    assert!(entry(&a.children, "sep").is_selected);
    assert!(!CategorySelection::branch_set(&mut m, 99, true));
    assert!(!CategorySelection::branch_set(&mut m, 1, false));
    assert!(!entry(&m, "a").is_selected);
}

#[test]
fn a_branch_answers_whether_the_uuid_occurs_again_under_it() {
    let forest = vec![cat(1, "a", false, false, vec![cat(1, "again", false, false, vec![])])];
    let mut m = menu_of(forest);
    assert!(CategorySelection::branch_set(&mut m, 1, true));
    let a = entry(&m, "a");
    assert!(a.is_selected);
    assert!(entry(&a.children, "again").is_selected);
}

#[test]
fn populating_gives_missing_uuids_and_parents() {
    let forest = vec![cat(1, "a", false, true, vec![cat(0, "b", false, true, vec![])])];
    let mut m = menu_of(forest);
    let mut parents = std::collections::HashMap::new();
    CategorySelection::recursive_populate_guids(&mut m, &mut parents, None);
    let a = entry(&m, "a");
    assert_eq!(a.uuid, 1);
    assert_eq!(a.parent, None);
    let b = entry(&a.children, "b");
    assert_ne!(b.uuid, 0);
    assert_eq!(b.uuid >> 76 & 0xF, 4);
    assert_eq!(b.parent, Some(1));
    assert_eq!(parents.get(&b.uuid), Some(&1));
    assert_eq!(parents.len(), 1);
}
