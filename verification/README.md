# jokolay

The verified core of Jokolay, a marker overlay for Guild Wars 2. The
executable functions under `src/` carry contracts that Verus proves, apart
from small trusted wrappers (marked `#[verifier::external_body]`) around
calls into std, petgraph, bimap, ordered_hash_map, uuid and base64, whose
contracts are taken from those crates' sources and documentation.

- `components`, `dep_graph`, `name_index`: the component manager. Components
  declare peers, requirements and notified components; `build_routes` checks
  that peers are mutual, that every related name is registered and that
  requirements form no cycle, then gives the order in which components run
  and the channels each one is bound to.
- `categories`, `category_name`, `ordered_maps`: putting the categories of a
  marker pack back together as a tree, making up the ancestors that only
  exist as dotted names.
- `category_selection`: the selection menu of a pack's categories: setting a
  category, a branch or all of them, and marking the active ones.
- `package`, `name_table`, `package_data`, `file_selection`, `guid`: what an
  import registers of a pack, its report, the parents of its entities, and
  which source files are in use on the current map at each tick.
- `map_elements`: which markers and trails of a map are active and shown,
  from the selected files and categories and the activation records.
- `link_models`: how the Mumble Link back end follows the frames the game
  writes, and what changed from one frame to the next.
- `relative_path`, `pack_paths`, `tbin`, `race`, `profession`: file names
  inside packs, the trail file layout, and the names of races and
  professions.

Trees of categories and selection menus are held as vectors of pairs, in
order, rather than in ordered hash maps: a category holds its own
sub-categories, the declaration of the outside map type rejects recursive
types in its parameters, and a map hidden in an opaque holder would hide
the nesting that the specifications of the tree recurse over. Category names map to UUIDs through `NameTable`, a
vector without repeated names, because Verus proves nothing of hash maps
keyed by strings.

`app/` holds what stays outside the proofs: bincode messages, UUID values,
trail geometry in floats, the channels of the components, saved forms with
serde, and the texts of errors. Reading taco packs from directories and zip
archives, and parsing their XML, is not here: the XML crate (`xot`), `zip`,
the marker attributes and the Mumble Link structures are not part of this
project's sources, and markers and trails are made of floats. The user
interface, the renderer and the Mumble Link reader are left out for the same
reasons. Of the back end's message handling, the library holds the
decisions (category choices, the files in use, the elements of a map);
deleting, saving and importing packs on disk stays with the caller. `tests/` runs the library.
