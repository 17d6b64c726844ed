use jokolay::file_selection::SelectedFileManager;
use jokolay::map_elements::{is_hidden_by_activation, on_map_changed, ActivationType, Behavior, MarkerOnMap, TrailOnMap};
use std::collections::{BTreeMap, HashSet};

fn marker(guid: u128, parent: u128, file: u128, behavior: Option<Behavior>) -> MarkerOnMap {
    MarkerOnMap {
        guid,
        parent,
        source_file_uuid: file,
        behavior,
        has_icon: true,
        global_activation: None,
        character_activation: None,
    }
}

fn files(used: &[(u128, bool)]) -> SelectedFileManager {
    let used: BTreeMap<u128, bool> = used.iter().cloned().collect();
    SelectedFileManager::new(&BTreeMap::new(), &BTreeMap::new(), &used)
}

#[test]
fn nothing_comes_into_play_on_map_zero() {
    let mut active: HashSet<u128> = HashSet::new();
    let shown = on_map_changed(
        0,
        &vec![marker(1, 10, 100, None)],
        &vec![],
        &files(&[]),
        &[10].into_iter().collect(),
        &vec![1, 2, 3, 4],
        &mut active,
    );
    assert!(active.is_empty());
    assert!(shown.markers.is_empty() && shown.trails.is_empty());
}

#[test]
fn selected_files_make_elements_active_and_selected_categories_show_them() {
    let mut active: HashSet<u128> = HashSet::new();
    let mut no_icon = marker(3, 30, 100, None);
    no_icon.has_icon = false;
    let markers = vec![
        marker(1, 10, 100, None),
        marker(2, 20, 100, None),
        no_icon,
        marker(4, 10, 200, None),
    ];
    let trails = vec![
        TrailOnMap { guid: 5, parent: 10, source_file_uuid: 100, has_texture: true },
        TrailOnMap { guid: 6, parent: 10, source_file_uuid: 100, has_texture: false },
    ];
    let categories: HashSet<u128> = [10, 30].into_iter().collect();
    let shown = on_map_changed(15, &markers, &trails, &files(&[(100, true), (200, false)]), &categories, &vec![], &mut active);
    let mut a: Vec<u128> = active.into_iter().collect();
    a.sort();
    assert_eq!(a, vec![1, 2, 3, 5, 6, 10, 20, 30]);
    assert_eq!(shown.markers, vec![1]);
    assert_eq!(shown.trails, vec![5]);
}

#[test]
fn activations_hide_markers_by_behavior() {
    let server = vec![10, 0, 0, 1];
    let mut m = marker(1, 10, 100, Some(Behavior::ReappearOnDailyReset));
    assert!(!is_hidden_by_activation(&m, &server));
    m.global_activation = Some(ActivationType::TimeStamp(5));
    assert!(is_hidden_by_activation(&m, &server));
    m.behavior = Some(Behavior::AlwaysVisible);
    assert!(!is_hidden_by_activation(&m, &server));
    m.behavior = Some(Behavior::OncePerInstance);
    assert!(!is_hidden_by_activation(&m, &server));
    m.global_activation = Some(ActivationType::Instance(vec![10, 0, 0, 1]));
    assert!(is_hidden_by_activation(&m, &server));
    m.global_activation = Some(ActivationType::Instance(vec![10, 0, 0, 2]));
    assert!(!is_hidden_by_activation(&m, &server));
    m.behavior = Some(Behavior::DailyPerChar);
    m.character_activation = Some(None);
    assert!(!is_hidden_by_activation(&m, &server));
    m.character_activation = Some(Some(ActivationType::ReappearOnMapChange));
    assert!(is_hidden_by_activation(&m, &server));
    m.behavior = Some(Behavior::OncePerInstancePerChar);
    assert!(!is_hidden_by_activation(&m, &server));
    m.character_activation = Some(Some(ActivationType::Instance(server.clone())));
    assert!(is_hidden_by_activation(&m, &server));
    m.behavior = Some(Behavior::WvWObjective);
    assert!(!is_hidden_by_activation(&m, &server));
}

#[test]
fn hidden_markers_stay_active_but_are_not_shown() {
    let mut active: HashSet<u128> = HashSet::new();
    let mut m = marker(1, 10, 100, Some(Behavior::OnlyVisibleBeforeActivation));
    m.global_activation = Some(ActivationType::ReappearOnMapChange);
    let categories: HashSet<u128> = [10].into_iter().collect();
    let shown = on_map_changed(3, &vec![m, marker(2, 10, 100, None)], &vec![], &files(&[]), &categories, &vec![], &mut active);
    assert!(active.contains(&1) && active.contains(&10));
    assert_eq!(shown.markers, vec![2]);
}
