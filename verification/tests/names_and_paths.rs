use jokolay::category_name::{nth_chunk, prefix_parent, prefix_until_nth_char};
use jokolay::pack_paths::{
    jokolay_to_editable_path, jokolay_to_extract_path, jokolay_to_marker_path, PackageBackSharedState,
};
use jokolay::profession::Profession;
use jokolay::race::Race;
use std::str::FromStr;

#[test]
fn chunks_of_a_dotted_name() {
    assert_eq!(nth_chunk("tyria.lion_arch.vista", '.', 0), "tyria");
    assert_eq!(nth_chunk("tyria.lion_arch.vista", '.', 1), "lion_arch");
    assert_eq!(nth_chunk("tyria.lion_arch.vista", '.', 2), "vista");
    assert_eq!(nth_chunk("single", '.', 0), "single");
    assert_eq!(nth_chunk("a..b", '.', 1), "");
}

#[test]
fn prefixes_of_a_dotted_name() {
    assert_eq!(prefix_until_nth_char("tyria.lion_arch.vista", '.', 0), Some("tyria".to_string()));
    assert_eq!(prefix_until_nth_char("tyria.lion_arch.vista", '.', 1), Some("tyria.lion_arch".to_string()));
    assert_eq!(prefix_until_nth_char("tyria.lion_arch.vista", '.', 2), None);
    assert_eq!(prefix_until_nth_char("single", '.', 0), None);
}

#[test]
fn parent_of_a_dotted_name() {
    assert_eq!(prefix_parent("tyria.lion_arch.vista", '.'), Some("tyria.lion_arch".to_string()));
    assert_eq!(prefix_parent("a.b", '.'), Some("a".to_string()));
    assert_eq!(prefix_parent(".b", '.'), Some("".to_string()));
}

#[test]
fn names_with_wide_characters() {
    assert_eq!(nth_chunk("é.ü.ñ", '.', 1), "ü");
    assert_eq!(prefix_parent("é.ü.ñ", '.'), Some("é.ü".to_string()));
}

#[test]
fn races_from_names_and_ids() {
    assert!(matches!(Race::from_name("Charr"), Race::Charr));
    assert!(matches!(Race::from_name("charr"), Race::Unknown));
    assert!(matches!(Race::from_str("Norn"), Ok(Race::Norn)));
    assert!(matches!(Race::from_link_id(0), Race::Asura));
    assert!(matches!(Race::from_link_id(4), Race::Sylvari));
    assert!(matches!(Race::from_link_id(5), Race::Unknown));
    assert_eq!(Race::Human.as_ref(), "Human");
    assert_eq!(Race::Unknown.to_string(), "Unknown");
    assert_eq!(Race::Asura.bits(), 4);
    for race in [Race::Unknown, Race::Asura, Race::Charr, Race::Human, Race::Norn, Race::Sylvari] {
        assert_eq!(Race::from_name(race.as_ref()), race);
    }
}

#[test]
fn professions_from_names() {
    assert!(matches!(Profession::from_str("thief"), Ok(Profession::Thief)));
    assert_eq!(Profession::from_str("Thief"), Err("invalid profession"));
    assert_eq!(Profession::Revenant.to_string(), "revenant");
    assert_eq!(Profession::Warrior.bits(), 256);
    for p in [
        Profession::Elementalist,
        Profession::Engineer,
        Profession::Guardian,
        Profession::Mesmer,
        Profession::Necromancer,
        Profession::Ranger,
        Profession::Revenant,
        Profession::Thief,
        Profession::Warrior,
    ] {
        assert_eq!(Profession::from_name(p.as_ref()), Ok(p));
    }
}

#[test]
fn package_manager_paths() {
    let sep = std::path::MAIN_SEPARATOR;
    assert_eq!(jokolay_to_editable_path("/home/j"), format!("/home/j{sep}marker_manager{sep}editable"));
    assert_eq!(jokolay_to_extract_path("/home/j"), format!("/home/j{sep}marker_manager{sep}_work"));
    assert_eq!(jokolay_to_marker_path("/home/j/"), format!("/home/j/marker_manager{sep}packs"));
    let state = PackageBackSharedState::new("/home/j");
    assert!(!state.choice_of_category_changed);
    assert_eq!(state.root_path, "/home/j");
    assert_eq!(state.editable_path, jokolay_to_editable_path("/home/j"));
    assert_eq!(state.extract_path, jokolay_to_extract_path("/home/j"));
}
