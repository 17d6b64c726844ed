use jokolay::file_selection::SelectedFileManager;
use jokolay::package_data::PackageDataManager;
use jokolay::tbin::{parse_tbin_layout, tbin_bytes};
use std::collections::{BTreeMap, HashMap};

#[test]
fn parents_climb_to_the_roots() {
    let mut m = PackageDataManager::new("/j");
    m.register(3, 2);
    m.register(2, 1);
    m.register(10, 11);
    assert_eq!(m.get_parent(&3), Some(&2));
    assert_eq!(m.get_parent(&1), None);
    let found = m.get_parents(&vec![3]);
    let mut v: Vec<u128> = found.into_iter().collect();
    v.sort();
    assert_eq!(v, vec![1, 2, 3]);
    assert!(m.get_parents(&vec![]).is_empty());
}

#[test]
fn parents_stop_on_cycles() {
    let mut m = PackageDataManager::new("/j");
    m.register(1, 2);
    m.register(2, 1);
    m.register(5, 5);
    let mut v: Vec<u128> = m.get_parents(&vec![1, 5]).into_iter().collect();
    v.sort();
    assert_eq!(v, vec![1, 2, 5]);
}

#[test]
fn lineage_is_idempotent_on_an_example() {
    let mut m = PackageDataManager::new("/j");
    m.register(4, 3);
    m.register(3, 2);
    let first: Vec<u128> = m.get_parents(&vec![4]).into_iter().collect();
    let mut again: Vec<u128> = m.get_parents(&first).into_iter().collect();
    let mut once = first.clone();
    once.sort();
    again.sort();
    assert_eq!(once, again);
}

#[test]
fn active_elements_pull_their_ancestors() {
    let mut m = PackageDataManager::new("/j");
    let mut pack_a = HashMap::new();
    pack_a.insert(7u128, 6u128);
    let mut pack_b = HashMap::new();
    pack_b.insert(6u128, 5u128);
    pack_b.insert(7u128, 8u128);
    m.get_active_elements_parents(&vec![pack_a, pack_b], &vec![7]);
    assert!(m.is_loaded(&7));
    assert!(m.is_loaded(&8));
    assert!(!m.is_loaded(&6));
    assert_eq!(m.get_parent(&6), Some(&5));
}

#[test]
fn file_selection_follows_used_files() {
    let empty: BTreeMap<u128, bool> = BTreeMap::new();
    let none = SelectedFileManager::new(&empty, &empty, &empty);
    assert!(none.is_selected(&42));
    assert_eq!(none.len(), 0);
    let mut used = BTreeMap::new();
    used.insert(1u128, true);
    used.insert(2u128, false);
    let some = SelectedFileManager::new(&empty, &empty, &used);
    assert!(some.is_selected(&1));
    assert!(!some.is_selected(&2));
    assert!(!some.is_selected(&3));
    assert_eq!(some.cloned_data(), used);
}

#[test]
fn tbin_layout_is_read() {
    assert!(parse_tbin_layout(&[0u8; 7]).is_none());
    let mut bytes = vec![0u8, 0, 0, 0];
    bytes.extend_from_slice(&15u32.to_ne_bytes());
    bytes.extend_from_slice(&1.0f32.to_le_bytes());
    bytes.extend_from_slice(&2.0f32.to_le_bytes());
    bytes.extend_from_slice(&3.0f32.to_le_bytes());
    bytes.extend_from_slice(&[1, 2, 3]);
    let t = parse_tbin_layout(&bytes).unwrap();
    assert_eq!(t.map_id, 15);
    assert_eq!(t.version, 0);
    assert_eq!(t.nodes.len(), 1);
    assert_eq!(f32::from_bits(t.nodes[0][0]), 1.0);
    assert_eq!(f32::from_bits(t.nodes[0][2]), 3.0);
}

#[test]
fn tbin_bytes_round_trip_on_this_machine() {
    let nodes = vec![[1.5f32.to_bits(), 2.5f32.to_bits(), (-1.0f32).to_bits()]];
    let bytes = tbin_bytes(2, 38, &nodes);
    assert_eq!(bytes.len(), 20);
    let t = parse_tbin_layout(&bytes).unwrap();
    assert_eq!(t.map_id, 38);
    assert_eq!(t.version, 2);
    if u32::from_ne_bytes([1, 0, 0, 0]) == 1 {
        assert_eq!(t.nodes, nodes);
    }
}

#[test]
fn a_tick_rebuilds_the_used_files_when_the_map_changes() {
    let mut m = PackageDataManager::new("/j");
    let elements: Vec<(u128, Option<bool>)> = vec![(1, Some(true)), (2, None), (3, Some(false)), (1, Some(false))];
    assert!(m._tick(Some(5), &elements));
    let used: Vec<(u128, bool)> = m.currently_used_files().iter().map(|(k, v)| (*k, *v)).collect();
    assert_eq!(used, vec![(1, false), (3, false)]);
    // Same map, no new file, no new choice: nothing to redo.
    assert!(!m._tick(Some(5), &elements));
    // No frame of the game: nothing changes.
    assert!(!m._tick(None, &elements));
    assert_eq!(m.currently_used_files().len(), 2);
}

#[test]
fn a_tick_keeps_the_flags_of_files_already_in_use() {
    let mut m = PackageDataManager::new("/j");
    assert!(m._tick(Some(7), &vec![(1, Some(true))]));
    // A new file on the same map asks for a refresh; file 1 keeps its flag.
    assert!(m._tick(Some(7), &vec![(1, Some(false)), (4, Some(false))]));
    let used: Vec<(u128, bool)> = m.currently_used_files().iter().map(|(k, v)| (*k, *v)).collect();
    assert_eq!(used, vec![(1, true), (4, false)]);
    // A changed choice of categories asks for a refresh once.
    m.state.choice_of_category_changed = true;
    assert!(m._tick(Some(7), &vec![(1, Some(false))]));
    assert!(!m.state.choice_of_category_changed);
    let used: Vec<(u128, bool)> = m.currently_used_files().iter().map(|(k, v)| (*k, *v)).collect();
    assert_eq!(used, vec![(1, true)]);
    assert!(!m._tick(Some(7), &vec![(1, Some(false))]));
}
