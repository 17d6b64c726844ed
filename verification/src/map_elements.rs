//! Which markers and trails of a pack come into play when the game enters a
//! map: an element counts as active when its source file is selected, and
//! is shown when its category is selected too, its activation does not hide
//! it, and it has an image to draw.

use vstd::prelude::*;
use std::collections::HashSet;

use crate::file_selection::{file_selected, SelectedFileManager};

verus! {

broadcast use vstd::std_specs::hash::group_hash_axioms;

/// When a marker hides again once it was activated.
#[derive(Clone, Copy, Debug, PartialEq, Eq)]
pub enum Behavior {
    AlwaysVisible,
    ReappearOnMapChange,
    ReappearOnDailyReset,
    OnlyVisibleBeforeActivation,
    ReappearAfterTimer,
    ReappearOnMapReset,
    OncePerInstance,
    DailyPerChar,
    OncePerInstancePerChar,
    WvWObjective,
    WeeklyReset,
}

/// How a marker was activated.
#[derive(Clone, Debug)]
pub enum ActivationType {
    /// Cleared when the map changes.
    ReappearOnMapChange,
    /// Cleared once this instant (Unix time, in nanoseconds) is reached.
    TimeStamp(i128),
    /// Activated on the server of this address (its octets).
    Instance(Vec<u8>),
}

/// What the choice of a marker reads: its UUID, its category, its source
/// file, its behaviour and image as they stand once the category's
/// attributes are inherited, and its activation records under its UUID,
/// account-wide and for the current character (`None` when the character
/// has no record at all).
pub struct MarkerOnMap {
    pub guid: u128,
    pub parent: u128,
    pub source_file_uuid: u128,
    pub behavior: Option<Behavior>,
    pub has_icon: bool,
    pub global_activation: Option<ActivationType>,
    pub character_activation: Option<Option<ActivationType>>,
}

/// What the choice of a trail reads: its UUID, its category, its source
/// file, and whether it has a texture once the category's attributes are
/// inherited.
pub struct TrailOnMap {
    pub guid: u128,
    pub parent: u128,
    pub source_file_uuid: u128,
    pub has_texture: bool,
}

/// The markers and trails to show, by UUID, in the order of the map.
pub struct ShownElements {
    pub markers: Vec<u128>,
    pub trails: Vec<u128>,
}

/// An activation made on the server of this address.
pub open spec fn on_server(a: Option<ActivationType>, server: Seq<u8>) -> bool {
    match a {
        Some(ActivationType::Instance(address)) => address@ == server,
        _ => false,
    }
}

/// Whether the marker's activation keeps it hidden: markers that reappear
/// on some event stay hidden while an account-wide record exists; those
/// shown once per instance, while the account-wide record is of this
/// server; those of each character, while the character has a record (of
/// this server, for once per instance per character).
pub open spec fn hidden_by_activation(m: MarkerOnMap, server: Seq<u8>) -> bool {
    match m.behavior {
        None => false,
        Some(b) => match b {
            Behavior::AlwaysVisible => false,
            Behavior::WvWObjective => false,
            Behavior::OncePerInstance => on_server(m.global_activation, server),
            Behavior::DailyPerChar => m.character_activation matches Some(Some(_)),
            Behavior::OncePerInstancePerChar => match m.character_activation {
                Some(a) => on_server(a, server),
                None => false,
            },
            _ => m.global_activation is Some,
        },
    }
}

/// Whether the marker is drawn.
pub open spec fn marker_shown(m: MarkerOnMap, files: Map<u128, bool>, categories: Set<u128>, server: Seq<u8>) -> bool {
    &&& file_selected(files, m.source_file_uuid)
    &&& categories.contains(m.parent)
    &&& !hidden_by_activation(m, server)
    &&& m.has_icon
}

/// Whether the trail is drawn.
pub open spec fn trail_shown(t: TrailOnMap, files: Map<u128, bool>, categories: Set<u128>) -> bool {
    &&& file_selected(files, t.source_file_uuid)
    &&& categories.contains(t.parent)
    &&& t.has_texture
}

/// The UUIDs of the markers drawn, in order.
pub open spec fn shown_markers(
    markers: Seq<MarkerOnMap>,
    files: Map<u128, bool>,
    categories: Set<u128>,
    server: Seq<u8>,
) -> Seq<u128>
    decreases markers.len(),
{
    if markers.len() == 0 {
        Seq::empty()
    } else {
        let rest = shown_markers(markers.drop_last(), files, categories, server);
        if marker_shown(markers.last(), files, categories, server) {
            rest.push(markers.last().guid)
        } else {
            rest
        }
    }
}

/// The UUIDs of the trails drawn, in order.
pub open spec fn shown_trails(trails: Seq<TrailOnMap>, files: Map<u128, bool>, categories: Set<u128>) -> Seq<u128>
    decreases trails.len(),
{
    if trails.len() == 0 {
        Seq::empty()
    } else {
        let rest = shown_trails(trails.drop_last(), files, categories);
        if trail_shown(trails.last(), files, categories) {
            rest.push(trails.last().guid)
        } else {
            rest
        }
    }
}

/// Whether `k` is an element of the map whose file is selected, or the
/// category of one.
pub open spec fn made_active(markers: Seq<MarkerOnMap>, trails: Seq<TrailOnMap>, files: Map<u128, bool>, k: u128) -> bool {
    ||| exists|i: int| 0 <= i < markers.len() && file_selected(files, (#[trigger] markers[i]).source_file_uuid)
        && (markers[i].guid == k || markers[i].parent == k)
    ||| exists|i: int| 0 <= i < trails.len() && file_selected(files, (#[trigger] trails[i]).source_file_uuid)
        && (trails[i].guid == k || trails[i].parent == k)
}

/// Whether the activation was made on the server of this address.
fn is_on_server(a: &Option<ActivationType>, server: &Vec<u8>) -> (r: bool)
    ensures
        r == on_server(*a, server@),
{
    match a {
        Some(ActivationType::Instance(address)) => {
            if address.len() != server.len() {
                return false;
            }
            let mut i: usize = 0;
            while i < address.len()
                invariant
                    on_server(*a, server@) == (address@ == server@),
                    address.len() == server.len(),
                    0 <= i <= address.len(),
                    forall|j: int| 0 <= j < i ==> address@[j] == server@[j],
                decreases address.len() - i,
            {
                if address[i] != server[i] {
                    proof {
                        assert(address@[i as int] != server@[i as int]);
                    }
                    return false;
                }
                i = i + 1;
            }
            proof {
                assert(address@ =~= server@);
            }
            true
        },
        _ => false,
    }
}

/// Whether the marker's activation keeps it hidden.
pub fn is_hidden_by_activation(m: &MarkerOnMap, server: &Vec<u8>) -> (r: bool)
    ensures
        r == hidden_by_activation(*m, server@),
{
    match m.behavior {
        None => false,
        Some(b) => match b {
            Behavior::AlwaysVisible => false,
            Behavior::WvWObjective => false,
            Behavior::OncePerInstance => is_on_server(&m.global_activation, server),
            Behavior::DailyPerChar => match &m.character_activation {
                Some(Some(_)) => true,
                _ => false,
            },
            Behavior::OncePerInstancePerChar => match &m.character_activation {
                Some(a) => is_on_server(a, server),
                None => false,
            },
            _ => m.global_activation.is_some(),
        },
    }
}

/// The elements of a pack to bring into play when the game enters map
/// `map_id`: nothing on map 0. Otherwise each marker and trail whose
/// source file is selected joins `active_elements`, with its category; of
/// those, the ones whose category is selected, that their activation does
/// not hide (markers) and that have an image are the ones to show.
pub fn on_map_changed(
    map_id: u32,
    markers: &Vec<MarkerOnMap>,
    trails: &Vec<TrailOnMap>,
    files: &SelectedFileManager,
    selected_categories: &HashSet<u128>,
    server_address: &Vec<u8>,
    active_elements: &mut HashSet<u128>,
) -> (shown: ShownElements)
    ensures
        map_id == 0 ==> final(active_elements)@ == old(active_elements)@ && shown.markers@.len() == 0
            && shown.trails@.len() == 0,
        map_id != 0 ==> forall|k: u128| #[trigger] final(active_elements)@.contains(k)
            <==> old(active_elements)@.contains(k) || made_active(markers@, trails@, files.used(), k),
        map_id != 0 ==> shown.markers@ == shown_markers(markers@, files.used(), selected_categories@, server_address@),
        map_id != 0 ==> shown.trails@ == shown_trails(trails@, files.used(), selected_categories@),
{
    let mut shown = ShownElements { markers: Vec::new(), trails: Vec::new() };
    if map_id == 0 {
        return shown;
    }
    let ghost before = active_elements@;
    let ghost used = files.used();
    let ghost cats = selected_categories@;
    let ghost server = server_address@;
    let mut i: usize = 0;
    while i < markers.len()
        invariant
            0 <= i <= markers.len(),
            used == files.used(),
            cats == selected_categories@,
            server == server_address@,
            shown.markers@ == shown_markers(markers@.take(i as int), used, cats, server),
            shown.trails@.len() == 0,
            forall|k: u128| #[trigger] active_elements@.contains(k)
                <==> before.contains(k) || made_active(markers@.take(i as int), Seq::<TrailOnMap>::empty(), used, k),
        decreases markers.len() - i,
    {
        let m = &markers[i];
        let ghost t = markers@.take(i + 1);
        proof {
            assert(t.drop_last() =~= markers@.take(i as int));
            assert(t.last() == *m);
        }
        if files.is_selected(&m.source_file_uuid) {
            active_elements.insert(m.guid);
            active_elements.insert(m.parent);
            if selected_categories.contains(&m.parent) && !is_hidden_by_activation(m, server_address) && m.has_icon {
                shown.markers.push(m.guid);
            }
        }
        proof {
            assert forall|k: u128| #[trigger] active_elements@.contains(k)
                <==> before.contains(k) || made_active(t, Seq::<TrailOnMap>::empty(), used, k) by {
                let p = markers@.take(i as int);
                if made_active(p, Seq::<TrailOnMap>::empty(), used, k) {
                    let q = choose|q: int| 0 <= q < p.len() && file_selected(used, (#[trigger] p[q]).source_file_uuid)
                        && (p[q].guid == k || p[q].parent == k);
                    assert(t[q] == p[q]);
                }
                if made_active(t, Seq::<TrailOnMap>::empty(), used, k) {
                    let q = choose|q: int| 0 <= q < t.len() && file_selected(used, (#[trigger] t[q]).source_file_uuid)
                        && (t[q].guid == k || t[q].parent == k);
                    if q < i {
                        assert(p[q] == t[q]);
                    }
                }
            }
        }
        i = i + 1;
    }
    proof {
        assert(markers@.take(markers.len() as int) =~= markers@);
        assert(trails@.take(0) =~= Seq::<TrailOnMap>::empty());
    }
    let mut j: usize = 0;
    while j < trails.len()
        invariant
            0 <= j <= trails.len(),
            used == files.used(),
            cats == selected_categories@,
            shown.markers@ == shown_markers(markers@, used, cats, server),
            shown.trails@ == shown_trails(trails@.take(j as int), used, cats),
            forall|k: u128| #[trigger] active_elements@.contains(k)
                <==> before.contains(k) || made_active(markers@, trails@.take(j as int), used, k),
        decreases trails.len() - j,
    {
        let tr = &trails[j];
        let ghost t = trails@.take(j + 1);
        proof {
            assert(t.drop_last() =~= trails@.take(j as int));
            assert(t.last() == *tr);
        }
        if files.is_selected(&tr.source_file_uuid) {
            active_elements.insert(tr.guid);
            active_elements.insert(tr.parent);
            if selected_categories.contains(&tr.parent) && tr.has_texture {
                shown.trails.push(tr.guid);
            }
        }
        proof {
            assert forall|k: u128| #[trigger] active_elements@.contains(k)
                <==> before.contains(k) || made_active(markers@, t, used, k) by {
                let p = trails@.take(j as int);
                if made_active(markers@, p, used, k) {
                    if exists|q: int| 0 <= q < p.len() && file_selected(used, (#[trigger] p[q]).source_file_uuid)
                        && (p[q].guid == k || p[q].parent == k) {
                        let q = choose|q: int| 0 <= q < p.len() && file_selected(used, (#[trigger] p[q]).source_file_uuid)
                            && (p[q].guid == k || p[q].parent == k);
                        assert(t[q] == p[q]);
                    }
                }
                if made_active(markers@, t, used, k) {
                    if exists|q: int| 0 <= q < t.len() && file_selected(used, (#[trigger] t[q]).source_file_uuid)
                        && (t[q].guid == k || t[q].parent == k) {
                        let q = choose|q: int| 0 <= q < t.len() && file_selected(used, (#[trigger] t[q]).source_file_uuid)
                            && (t[q].guid == k || t[q].parent == k);
                        if q < j {
                            assert(p[q] == t[q]);
                        }
                    }
                }
            }
        }
        j = j + 1;
    }
    proof {
        assert(trails@.take(trails.len() as int) =~= trails@);
    }
    shown
}

/// Law: how an activation hides a marker. A marker without behaviour, one
/// always visible and a World-vs-World objective are never hidden. A marker
/// of any behaviour that reappears on some event or timer (map change, daily
/// reset, timer, map reset, weekly reset) or that shows only before its
/// activation is hidden exactly when an account-wide record exists. One
/// shown once per instance is hidden exactly when the account-wide record
/// is an activation on this server; one of each character, when the
/// character has a record; one once per instance per character, when the
/// character's record is an activation on this server.
pub proof fn law_activation_hides(m: MarkerOnMap, server: Seq<u8>)
    ensures
        m.behavior is None ==> !hidden_by_activation(m, server),
        m.behavior == Some(Behavior::AlwaysVisible) ==> !hidden_by_activation(m, server),
        m.behavior == Some(Behavior::WvWObjective) ==> !hidden_by_activation(m, server),
        (m.behavior == Some(Behavior::ReappearOnMapChange) || m.behavior == Some(Behavior::ReappearOnDailyReset)
            || m.behavior == Some(Behavior::OnlyVisibleBeforeActivation) || m.behavior == Some(Behavior::ReappearAfterTimer)
            || m.behavior == Some(Behavior::ReappearOnMapReset) || m.behavior == Some(Behavior::WeeklyReset))
            ==> (hidden_by_activation(m, server) <==> m.global_activation is Some),
        m.behavior == Some(Behavior::OncePerInstance) ==> (hidden_by_activation(m, server) <==> exists|a: Vec<u8>|
            m.global_activation == Some(ActivationType::Instance(a)) && a@ == server),
        m.behavior == Some(Behavior::DailyPerChar) ==> (hidden_by_activation(m, server) <==> exists|a: ActivationType|
            m.character_activation == Some(Some(a))),
        m.behavior == Some(Behavior::OncePerInstancePerChar) ==> (hidden_by_activation(m, server) <==> exists|a: Vec<u8>|
            m.character_activation == Some(Some(ActivationType::Instance(a))) && a@ == server),
{
    if m.behavior == Some(Behavior::DailyPerChar) && hidden_by_activation(m, server) {
        let a = m.character_activation->0->0;
        assert(m.character_activation == Some(Some(a)));
    }
    if m.behavior == Some(Behavior::OncePerInstance) && hidden_by_activation(m, server) {
        if let Some(ActivationType::Instance(a)) = m.global_activation {
            assert(m.global_activation == Some(ActivationType::Instance(a)));
        }
    }
    if m.behavior == Some(Behavior::OncePerInstancePerChar) && hidden_by_activation(m, server) {
        if let Some(Some(ActivationType::Instance(a))) = m.character_activation {
            assert(m.character_activation == Some(Some(ActivationType::Instance(a))));
        }
    }
}

/// Law: the markers shown are exactly those, in the map's order, whose
/// source file is selected, whose category is selected, that their
/// activation does not hide and that have an icon; each shown marker is
/// among the elements made active.
pub proof fn law_shown_markers(markers: Seq<MarkerOnMap>, files: Map<u128, bool>, categories: Set<u128>, server: Seq<u8>)
    ensures
        forall|g: u128| #[trigger] shown_markers(markers, files, categories, server).contains(g) <==> exists|i: int|
            0 <= i < markers.len() && markers[i].guid == g && file_selected(files, markers[i].source_file_uuid)
            && categories.contains(markers[i].parent) && !hidden_by_activation(markers[i], server) && markers[i].has_icon,
        forall|g: u128| #[trigger] shown_markers(markers, files, categories, server).contains(g)
            ==> made_active(markers, Seq::<TrailOnMap>::empty(), files, g),
        shown_markers(markers, files, categories, server).len() <= markers.len(),
    decreases markers.len(),
{
    if markers.len() > 0 {
        let p = markers.drop_last();
        law_shown_markers(p, files, categories, server);
        let rest = shown_markers(p, files, categories, server);
        let last = markers.last();
        let sh = shown_markers(markers, files, categories, server);
        assert forall|g: u128| #[trigger] sh.contains(g) <==> (rest.contains(g)
            || (marker_shown(last, files, categories, server) && g == last.guid)) by {
            if marker_shown(last, files, categories, server) {
                assert(sh == rest.push(last.guid));
                if sh.contains(g) {
                    let k = choose|k: int| 0 <= k < sh.len() && sh[k] == g;
                    if k < rest.len() {
                        assert(rest[k] == g);
                    }
                }
                if rest.contains(g) {
                    let k = choose|k: int| 0 <= k < rest.len() && rest[k] == g;
                    assert(sh[k] == g);
                }
                if g == last.guid {
                    assert(sh[rest.len() as int] == g);
                }
            } else {
                assert(sh == rest);
            }
        }
        assert forall|g: u128| #[trigger] sh.contains(g) <==> exists|i: int|
            0 <= i < markers.len() && markers[i].guid == g && file_selected(files, markers[i].source_file_uuid)
            && categories.contains(markers[i].parent) && !hidden_by_activation(markers[i], server) && markers[i].has_icon by {
            if rest.contains(g) {
                let i = choose|i: int| 0 <= i < p.len() && p[i].guid == g && file_selected(files, p[i].source_file_uuid)
                    && categories.contains(p[i].parent) && !hidden_by_activation(p[i], server) && p[i].has_icon;
                assert(markers[i] == p[i]);
            }
            if marker_shown(last, files, categories, server) && g == last.guid {
                assert(markers[markers.len() - 1] == last);
            }
            if exists|i: int| 0 <= i < markers.len() && markers[i].guid == g && file_selected(files, markers[i].source_file_uuid)
                && categories.contains(markers[i].parent) && !hidden_by_activation(markers[i], server) && markers[i].has_icon {
                let i = choose|i: int| 0 <= i < markers.len() && markers[i].guid == g && file_selected(files, markers[i].source_file_uuid)
                    && categories.contains(markers[i].parent) && !hidden_by_activation(markers[i], server) && markers[i].has_icon;
                if i < p.len() {
                    assert(markers[i] == p[i]);
                    assert(rest.contains(g));
                } else {
                    assert(marker_shown(last, files, categories, server));
                }
            }
        }
        assert forall|g: u128| #[trigger] shown_markers(markers, files, categories, server).contains(g)
            implies made_active(markers, Seq::<TrailOnMap>::empty(), files, g) by {
            let i = choose|i: int| 0 <= i < markers.len() && markers[i].guid == g && file_selected(files, markers[i].source_file_uuid)
                && categories.contains(markers[i].parent) && !hidden_by_activation(markers[i], server) && markers[i].has_icon;
            assert(file_selected(files, markers[i].source_file_uuid) && markers[i].guid == g);
        }
    }
}

/// Law: the trails shown are exactly those whose source file is selected,
/// whose category is selected and that have a texture; each shown trail is
/// among the elements made active.
pub proof fn law_shown_trails(markers: Seq<TrailOnMap>, files: Map<u128, bool>, categories: Set<u128>)
    ensures
        forall|g: u128| #[trigger] shown_trails(markers, files, categories).contains(g) <==> exists|i: int|
            0 <= i < markers.len() && markers[i].guid == g && file_selected(files, markers[i].source_file_uuid)
            && categories.contains(markers[i].parent) && markers[i].has_texture,
        forall|g: u128| #[trigger] shown_trails(markers, files, categories).contains(g)
            ==> made_active(Seq::<MarkerOnMap>::empty(), markers, files, g),
        shown_trails(markers, files, categories).len() <= markers.len(),
    decreases markers.len(),
{
    if markers.len() > 0 {
        let p = markers.drop_last();
        law_shown_trails(p, files, categories);
        let rest = shown_trails(p, files, categories);
        let last = markers.last();
        let sh = shown_trails(markers, files, categories);
        assert forall|g: u128| #[trigger] sh.contains(g) <==> (rest.contains(g)
            || (trail_shown(last, files, categories) && g == last.guid)) by {
            if trail_shown(last, files, categories) {
                assert(sh == rest.push(last.guid));
                if sh.contains(g) {
                    let k = choose|k: int| 0 <= k < sh.len() && sh[k] == g;
                    if k < rest.len() {
                        assert(rest[k] == g);
                    }
                }
                if rest.contains(g) {
                    let k = choose|k: int| 0 <= k < rest.len() && rest[k] == g;
                    assert(sh[k] == g);
                }
                if g == last.guid {
                    assert(sh[rest.len() as int] == g);
                }
            } else {
                assert(sh == rest);
            }
        }
        assert forall|g: u128| #[trigger] sh.contains(g) <==> exists|i: int|
            0 <= i < markers.len() && markers[i].guid == g && file_selected(files, markers[i].source_file_uuid)
            && categories.contains(markers[i].parent) && markers[i].has_texture by {
            if rest.contains(g) {
                let i = choose|i: int| 0 <= i < p.len() && p[i].guid == g && file_selected(files, p[i].source_file_uuid)
                    && categories.contains(p[i].parent) && p[i].has_texture;
                assert(markers[i] == p[i]);
            }
            if trail_shown(last, files, categories) && g == last.guid {
                assert(markers[markers.len() - 1] == last);
            }
            if exists|i: int| 0 <= i < markers.len() && markers[i].guid == g && file_selected(files, markers[i].source_file_uuid)
                && categories.contains(markers[i].parent) && markers[i].has_texture {
                let i = choose|i: int| 0 <= i < markers.len() && markers[i].guid == g && file_selected(files, markers[i].source_file_uuid)
                    && categories.contains(markers[i].parent) && markers[i].has_texture;
                if i < p.len() {
                    assert(markers[i] == p[i]);
                    assert(rest.contains(g));
                } else {
                    assert(trail_shown(last, files, categories));
                }
            }
        }
        assert forall|g: u128| #[trigger] shown_trails(markers, files, categories).contains(g)
            implies made_active(Seq::<MarkerOnMap>::empty(), markers, files, g) by {
            let i = choose|i: int| 0 <= i < markers.len() && markers[i].guid == g && file_selected(files, markers[i].source_file_uuid)
                && categories.contains(markers[i].parent) && markers[i].has_texture;
            assert(file_selected(files, markers[i].source_file_uuid) && markers[i].guid == g);
        }
    }
}

} // verus!
