use jokolay::categories::{Category, RawCategory};
use jokolay::package::PackageImportReport;
use ordered_hash_map::OrderedHashMap;

fn raw(guid: u128, full: &str, relative: &str, parent: Option<&str>) -> RawCategory {
    RawCategory {
        guid,
        parent_name: parent.map(|p| p.to_string()),
        display_name: relative.to_string(),
        relative_category_name: relative.to_string(),
        full_category_name: full.to_string(),
        separator: false,
        default_enabled: true,
        sources: OrderedHashMap::new(),
    }
}

fn find<'a>(forest: &'a [(u128, Category)], name: &str) -> Option<&'a Category> {
    forest.iter().map(|(_, c)| c).find(|c| c.relative_category_name == name)
}

#[test]
fn nested_categories_are_placed_under_their_parents() {
    let mut pass = OrderedHashMap::new();
    pass.insert("a".to_string(), raw(1, "a", "a", None));
    pass.insert("a.b".to_string(), raw(2, "a.b", "b", Some("a")));
    pass.insert("a.b.c".to_string(), raw(3, "a.b.c", "c", Some("a.b")));
    let mut report = PackageImportReport::new(9);
    let root = Category::reassemble(&pass, &mut report).unwrap();
    assert_eq!(root.len(), 1);
    let a = find(&root, "a").unwrap();
    assert_eq!(a.guid, 1);
    assert_eq!(a.parent, None);
    let b = find(&a.children, "b").unwrap();
    assert_eq!(b.parent, Some(1));
    let c = find(&b.children, "c").unwrap();
    assert_eq!(c.guid, 3);
    assert_eq!(c.parent, Some(2));
    assert!(!report.is_category_discovered_late(3));
}

#[test]
fn missing_ancestors_are_made_up() {
    let mut pass = OrderedHashMap::new();
    pass.insert("x.y.z".to_string(), raw(7, "x.y.z", "x.y.z", None));
    let mut report = PackageImportReport::new(9);
    let root = Category::reassemble(&pass, &mut report).unwrap();
    assert_eq!(root.len(), 1);
    let x = find(&root, "x").unwrap();
    assert_eq!(x.full_category_name, "x");
    assert_eq!(x.display_name, "x");
    let y = find(&x.children, "y").unwrap();
    assert_eq!(y.full_category_name, "x.y");
    assert_eq!(y.parent, Some(x.guid));
    let z = find(&y.children, "z").unwrap();
    assert_eq!(z.guid, 7);
    assert_eq!(z.full_category_name, "x.y.z");
    assert_eq!(z.parent, Some(y.guid));
    assert!(report.is_category_discovered_late(7));
    assert!(report.is_category_discovered_late(x.guid));
    assert!(report.is_category_discovered_late(y.guid));
}

#[test]
fn existing_ancestors_are_reused() {
    let mut pass = OrderedHashMap::new();
    pass.insert("x".to_string(), raw(1, "x", "x", None));
    pass.insert("x.y".to_string(), raw(2, "x.y", "x.y", None));
    let mut report = PackageImportReport::new(9);
    let root = Category::reassemble(&pass, &mut report).unwrap();
    assert_eq!(root.len(), 1);
    let x = find(&root, "x").unwrap();
    assert_eq!(x.guid, 1);
    let y = find(&x.children, "y").unwrap();
    assert_eq!(y.guid, 2);
    assert_eq!(y.parent, Some(1));
}

#[test]
fn unreachable_parent_is_given_back() {
    let mut pass = OrderedHashMap::new();
    pass.insert("p".to_string(), raw(1, "p", "p", None));
    pass.insert("q.c".to_string(), raw(2, "q.c", "c", Some("p")));
    let mut report = PackageImportReport::new(9);
    let lost = Category::reassemble(&pass, &mut report).unwrap_err();
    assert_eq!(lost.guid, 2);
    assert_eq!(lost.parent, Some(1));
}

#[test]
fn late_categories_are_recorded_once_in_order() {
    let mut report = PackageImportReport::new(1);
    report.found_category_late("a", 10);
    report.found_category_late("b", 11);
    report.found_category_late("a2", 10);
    assert!(report.is_category_discovered_late(10));
    assert!(report.is_category_discovered_late(11));
    assert!(!report.is_category_discovered_late(12));
    report.reset_counters();
    assert_eq!(report.number_of().missing_categories, 0);
}

#[test]
fn a_dotted_name_is_renamed_under_its_existing_parent() {
    let mut pass = OrderedHashMap::new();
    pass.insert("a".to_string(), raw(1, "a", "a", None));
    pass.insert("a.b".to_string(), raw(2, "a.b", "a.b", None));
    let mut report = PackageImportReport::new(9);
    let root = Category::reassemble(&pass, &mut report).unwrap();
    let keys: Vec<u128> = root.iter().map(|(k, _)| *k).collect();
    assert_eq!(keys, vec![1]);
    let a = &root[0].1;
    assert_eq!(a.parent, None);
    assert_eq!(a.relative_category_name, "a");
    let child_keys: Vec<u128> = a.children.iter().map(|(k, _)| *k).collect();
    assert_eq!(child_keys, vec![2]);
    let b = &a.children[0].1;
    assert_eq!(b.relative_category_name, "b");
    assert_eq!(b.display_name, "b");
    assert_eq!(b.full_category_name, "a.b");
    assert_eq!(b.parent, Some(1));
    assert!(b.children.is_empty());
}

#[test]
fn categories_without_parents_all_stay_at_the_top() {
    let mut pass = OrderedHashMap::new();
    pass.insert("p".to_string(), raw(1, "p", "p", None));
    pass.insert("q".to_string(), raw(2, "q", "q", None));
    pass.insert("r".to_string(), raw(3, "r", "r", None));
    let mut report = PackageImportReport::new(9);
    let root = Category::reassemble(&pass, &mut report).unwrap();
    let keys: Vec<u128> = root.iter().map(|(k, _)| *k).collect();
    assert_eq!(keys, vec![1, 2, 3]);
    assert!(root.iter().all(|(_, c)| c.parent.is_none() && c.children.is_empty()));
    assert_eq!(report.number_of().missing_categories, 0);
}

#[test]
fn an_unplaced_category_of_the_same_relative_name_is_searched_first() {
    let mut pass = OrderedHashMap::new();
    pass.insert("a".to_string(), raw(1, "a", "a", None));
    pass.insert("x".to_string(), raw(2, "x", "x", None));
    pass.insert("a.b".to_string(), raw(3, "a.b", "b", Some("a")));
    pass.insert("x.a".to_string(), raw(4, "x.a", "a", Some("x")));
    let mut report = PackageImportReport::new(9);
    let root = Category::reassemble(&pass, &mut report).unwrap();
    let x = find(&root, "x").unwrap();
    let xa = find(&x.children, "a").unwrap();
    let b = find(&xa.children, "b").unwrap();
    assert_eq!(b.guid, 3);
    assert_eq!(b.parent, Some(1));
    assert!(find(&root, "a").unwrap().children.is_empty());
}

#[test]
fn a_category_listed_between_its_ancestors_is_given_back() {
    let mut pass = OrderedHashMap::new();
    pass.insert("a".to_string(), raw(1, "a", "a", None));
    pass.insert("a.b.c".to_string(), raw(3, "a.b.c", "c", Some("a.b")));
    pass.insert("a.b".to_string(), raw(2, "a.b", "b", Some("a")));
    let mut report = PackageImportReport::new(9);
    let lost = Category::reassemble(&pass, &mut report).unwrap_err();
    assert_eq!(lost.guid, 3);
    assert_eq!(lost.parent, Some(2));
}

#[test]
fn a_pack_two_levels_deep_comes_back_whole() {
    let mut pass = OrderedHashMap::new();
    pass.insert("a.x".to_string(), raw(3, "a.x", "x", Some("a")));
    pass.insert("a".to_string(), raw(1, "a", "a", None));
    pass.insert("b".to_string(), raw(2, "b", "b", None));
    pass.insert("b.y".to_string(), raw(4, "b.y", "y", Some("b")));
    let mut report = PackageImportReport::new(9);
    let root = Category::reassemble(&pass, &mut report).unwrap();
    let keys: Vec<u128> = root.iter().map(|(k, _)| *k).collect();
    assert_eq!(keys, vec![1, 2]);
    let a = find(&root, "a").unwrap();
    let x = find(&a.children, "x").unwrap();
    assert_eq!(x.guid, 3);
    assert_eq!(x.parent, Some(1));
    let b = find(&root, "b").unwrap();
    let y = find(&b.children, "y").unwrap();
    assert_eq!(y.guid, 4);
    assert_eq!(y.parent, Some(2));
}

#[test]
fn a_deep_pack_with_a_dotted_name_in_the_middle_comes_back_shaped() {
    let mut pass = OrderedHashMap::new();
    pass.insert("a".to_string(), raw(1, "a", "a", None));
    pass.insert("a.b".to_string(), raw(2, "a.b", "a.b", None));
    pass.insert("a.b.c".to_string(), raw(3, "a.b.c", "c", Some("a.b")));
    pass.insert("d".to_string(), raw(4, "d", "d", None));
    let mut report = PackageImportReport::new(9);
    let root = Category::reassemble(&pass, &mut report).unwrap();
    let keys: Vec<u128> = root.iter().map(|(k, _)| *k).collect();
    assert_eq!(keys, vec![1, 4]);
    let a = &root[0].1;
    let b = &a.children[0].1;
    assert_eq!(a.children.len(), 1);
    assert_eq!(b.guid, 2);
    assert_eq!(b.parent, Some(1));
    assert_eq!(b.relative_category_name, "b");
    assert_eq!(b.display_name, "b");
    assert_eq!(b.full_category_name, "a.b");
    let c = &b.children[0].1;
    assert_eq!(b.children.len(), 1);
    assert_eq!(c.guid, 3);
    assert_eq!(c.parent, Some(2));
    assert_eq!(c.full_category_name, format!("{}.{}", b.full_category_name, c.relative_category_name));
    assert!(report.is_category_discovered_late(2));
    assert!(!report.is_category_discovered_late(3));
}
