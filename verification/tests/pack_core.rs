use jokolay::categories::Category;
use jokolay::name_table::NameTable;
use jokolay::package::PackCore;
use jokolay::relative_path::RelativePath;

fn category(guid: u128, full: &str, relative: &str, parent: Option<u128>, children: Vec<(u128, Category)>) -> (u128, Category) {
    (
        guid,
        Category {
            guid,
            parent,
            display_name: relative.to_string(),
            relative_category_name: relative.to_string(),
            full_category_name: full.to_string(),
            separator: false,
            default_enabled: true,
            children,
        },
    )
}

#[test]
fn a_new_pack_has_a_random_version_four_uuid() {
    let pack = PackCore::new();
    assert_eq!(pack.uuid >> 76 & 0xF, 4);
    assert_eq!(pack.uuid >> 62 & 0x3, 2);
    assert_eq!(pack.report.uuid(), pack.uuid);
    assert!(pack.categories.is_empty());
    assert_eq!(pack.all_categories.len(), 0);
}

#[test]
fn name_table_replaces_the_uuid_of_a_name() {
    let mut t = NameTable::new();
    t.insert("a".to_string(), 1);
    t.insert("b".to_string(), 2);
    t.insert("a".to_string(), 3);
    assert_eq!(t.len(), 2);
    assert_eq!(t.get("a"), Some(&3));
    assert_eq!(t.get("b"), Some(&2));
    assert!(!t.contains_key("c"));
    let d = t.duplicate();
    assert_eq!(d.get("a"), Some(&3));
}

#[test]
fn a_source_file_is_registered_once() {
    let mut pack = PackCore::new();
    let name = "data/markers.xml".to_string();
    let first = pack.register_source_file(&name);
    let second = pack.register_source_file(&name);
    assert_eq!(first, second);
    assert_eq!(pack.report.number_of().source_files, 1);
    assert_eq!(pack.active_source_files.get(&first), Some(&true));
    assert_eq!(pack.get_source_file_uuid(&name), first);
    assert_eq!(pack.report.source_file_uuid_to_name(&first), Some(&name));
}

#[test]
fn unknown_categories_are_created_with_their_parents() {
    let mut pack = PackCore::new();
    let file = pack.register_source_file(&"a.xml".to_string());
    let mut known = NameTable::new();
    known.insert("tyria".to_string(), 10);
    pack.all_categories = known;
    let full = "tyria.lion.vista".to_string();
    let id = pack.get_or_create_category_uuid(&full, 77, &file);
    assert!(pack.category_exists(&"tyria".to_string()));
    assert!(pack.category_exists(&"tyria.lion".to_string()));
    assert!(pack.category_exists(&full));
    assert_eq!(pack.get_category_uuid(&"tyria".to_string()), Some(&10));
    assert_eq!(pack.get_category_uuid(&full), Some(&id));
    let lion = *pack.get_category_uuid(&"tyria.lion".to_string()).unwrap();
    assert_ne!(lion, id);
    assert_ne!(id, 10);
    assert!(pack.report.is_category_discovered_late(id));
    assert!(pack.report.is_category_discovered_late(lion));
    assert!(pack.report.is_category_discovered_late(10));
    assert_eq!(pack.report.number_of().missing_categories, 1);
    assert_eq!(pack.get_or_create_category_uuid(&full, 77, &file), id);
    let single = pack.get_or_create_category_uuid(&"lonely".to_string(), 77, &file);
    assert_eq!(pack.get_category_uuid(&"lonely".to_string()), Some(&single));
}

#[test]
fn entities_need_a_known_category() {
    let mut pack = PackCore::new();
    let err = pack.register_uuid(&"nowhere".to_string(), &1).unwrap_err();
    assert_eq!(
        err,
        "Can't register world entity nowhere 00000000-0000-0000-0000-000000000001, no associated category found."
    );
    let mut known = NameTable::new();
    known.insert("a".to_string(), 5);
    pack.all_categories = known;
    assert_eq!(pack.register_uuid(&"a".to_string(), &42), Ok(42));
    assert_eq!(pack.entities_parents.get(&42), Some(&5));
    let other = pack.register_uuid(&"a".to_string(), &42).unwrap();
    assert_ne!(other, 42);
    assert_eq!(pack.entities_parents.get(&other), Some(&5));
    assert_eq!(pack.report.number_of().entities, 2);
}

#[test]
fn registering_categories_lists_every_full_name() {
    let mut pack = PackCore::new();
    pack.categories = vec![
        category(1, "a", "a", None, vec![category(2, "a.b", "b", Some(1), vec![])]),
        category(3, "c", "c", None, vec![]),
    ];
    pack.register_categories();
    assert_eq!(pack.all_categories.len(), 3);
    assert_eq!(pack.get_category_uuid(&"a.b".to_string()), Some(&2));
    assert_eq!(pack.entities_parents.get(&2), Some(&1));
    assert_eq!(pack.entities_parents.get(&1), None);
    assert_eq!(pack.report.number_of().categories, 3);
}

#[test]
fn missing_textures_are_counted_once() {
    let mut pack = PackCore::new();
    let file = pack.register_source_file(&"a.xml".to_string());
    pack.found_missing_element_texture("t.png".to_string(), 1, &file);
    pack.found_missing_inherited_texture("t.png".to_string(), "a".to_string(), &file);
    assert_eq!(pack.report.number_of().missing_textures, 1);
    let path: RelativePath = "data/x.trl".parse().unwrap();
    pack.found_missing_trail(&path, 2, &file);
    assert_eq!(pack.report.number_of().missing_textures, 1);
}

#[test]
fn merging_a_partial_load_takes_its_names() {
    let mut pack = PackCore::new();
    let mut names = NameTable::new();
    names.insert("x".to_string(), 9);
    let mut partial = PackCore::partial(&names);
    partial.entities_parents.insert(4, 9);
    partial.active_source_files.insert(8, false);
    pack.merge_partial(partial);
    assert_eq!(pack.get_category_uuid(&"x".to_string()), Some(&9));
    assert_eq!(pack.entities_parents.get(&4), Some(&9));
    assert_eq!(pack.active_source_files.get(&8), Some(&false));
}

#[test]
fn source_files_are_found_both_ways() {
    let mut pack = PackCore::new();
    let name = "b.xml".to_string();
    let id = pack.register_source_file(&name);
    assert_eq!(pack.report.source_file_name_to_uuid(&name), Some(&id));
    assert_eq!(pack.report.source_file_name_to_uuid(&"c.xml".to_string()), None);
    pack.report.set_uuid(12);
    assert_eq!(pack.report.uuid(), 12);
}

#[test]
fn reassembly_timings_are_recorded() {
    let mut pack = PackCore::new();
    pack.report.set_reassemble_timings(1, 2, 3, 4);
    let t = pack.report.telemetry();
    assert_eq!(t.categories_reassemble.initialize, 1);
    assert_eq!(t.categories_reassemble.missing_categories_creation, 2);
    assert_eq!(t.categories_reassemble.parent_child_relationship, 3);
    assert_eq!(t.categories_reassemble.tree_insertion, 4);
    assert_eq!(t.total, 0);
}
