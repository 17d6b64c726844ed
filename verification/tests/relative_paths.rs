use jokolay::relative_path::RelativePath;
use std::str::FromStr;

#[test]
fn normalize_turns_separators_and_case() {
    assert_eq!(RelativePath::normalize("\\Data\\Icons\\A.PNG"), "data/icons/a.png");
    assert_eq!(RelativePath::normalize("///x/Y"), "x/y");
    assert_eq!(RelativePath::normalize(""), "");
    assert_eq!(RelativePath::normalize("/"), "");
}

#[test]
fn join_adds_one_separator() {
    let base = RelativePath::from_str("Data").unwrap();
    assert_eq!(base.join_str("Icons/A.png").as_str(), "data/icons/a.png");
    let dir = RelativePath::from_str("data/").unwrap();
    assert_eq!(dir.join_str("b").as_str(), "data/b");
    let root = RelativePath::default();
    assert_eq!(root.join_str("/X").as_str(), "x");
    assert_eq!(base.join_str("").as_str(), "data");
    assert_eq!(base.join_str("//").as_str(), "data");
}

#[test]
fn kinds_of_paths() {
    let png = RelativePath::parse_text("a/b.PNG");
    assert!(png.is_png());
    assert!(!png.is_xml());
    assert!(RelativePath::parse_text("t.trl").is_tbin());
    assert!(RelativePath::parse_text("m.xml").is_xml());
    assert!(RelativePath::parse_text("dir/").is_dir());
    assert!(!RelativePath::parse_text("dir").is_dir());
    assert!(png.ends_with("b.png"));
    assert!(!png.ends_with("xb.png"));
}

#[test]
fn parents_of_paths() {
    assert_eq!(RelativePath::parse_text("a/b/c.png").parent(), Some("a/b/"));
    assert_eq!(RelativePath::parse_text("a/b/").parent(), Some("a/"));
    assert_eq!(RelativePath::parse_text("a").parent(), None);
    assert_eq!(RelativePath::parse_text("").parent(), None);
    assert_eq!(RelativePath::parse_text("a//").parent(), None);
}

#[test]
fn parent_of_joined_name_is_the_directory() {
    let base = RelativePath::parse_text("data/icons");
    let joined = base.join_str("Marker.png");
    assert_eq!(joined.parent(), Some("data/icons/"));
}

#[test]
fn paths_compare_and_convert() {
    let a = RelativePath::parse_text("A/B");
    let b = RelativePath::parse_text("a\\b");
    assert!(a == b);
    assert_eq!(a.to_string(), "a/b");
    let s: String = a.into();
    assert_eq!(s, "a/b");
}
