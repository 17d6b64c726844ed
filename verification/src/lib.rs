//! Verified core of the Jokolay overlay: component routing, marker category
//! naming, relative paths and the other data rules of marker packs.

pub mod dep_graph;
pub mod name_index;
pub mod components;
pub mod category_name;
pub mod text;
pub mod race;
pub mod profession;
pub mod pack_paths;
pub mod component_models;
pub mod link_models;
pub mod package;
pub mod relative_path;
pub mod package_data;
pub mod file_selection;
pub mod tbin;
pub mod ordered_maps;
pub mod uuids;
pub mod guid;
pub mod clock;
pub mod name_table;
pub mod categories;
pub mod category_selection;
pub mod map_elements;
