//! Messages and shared state of the Mumble Link components, over the link
//! data `L` that the game exposes, and how the back end follows the frames
//! the game writes: what changed from one frame to the next.

use vstd::prelude::*;
use crate::text::same_text;

verus! {

/// What the UI tells the Mumble Link back end.
pub enum MessageToMumbleLink<L> {
    /// Follow the link data the UI edits.
    BindedOnUI,
    /// Follow the game.
    Autonomous,
    /// Use this link data, set by the UI.
    Value(L),
}

/// What the Mumble Link back end is told.
pub enum MessageToMumbleLinkBack<L> {
    BindedOnUI,
    Autonomous,
    /// A value imposed by the UI, or none.
    Value(Option<L>),
}

/// The Mumble Link state the back end shares: whether it reads the link
/// data of the UI, and its copy of that data.
#[derive(Clone)]
pub struct MumbleLinkSharedState<L> {
    pub read_ui_link: bool,
    pub copy_of_ui_link: Option<L>,
}

/// An area of the UI that a menu entry opens.
pub struct UIArea {
    pub is_open: bool,
    pub name: String,
    /// If empty, no menu entry is shown for the area.
    pub id: String,
}

/// The parts of a Mumble Link frame whose changes are tracked as plain
/// values: the UI tick, the character's name, the map, and the game
/// window's client position and size.
pub struct LinkFrame {
    pub ui_tick: u32,
    pub name: String,
    pub map_id: u32,
    pub client_pos: (i32, i32),
    pub client_size: (u32, u32),
}

/// Which tracked parts changed since the previous frame.
pub struct LinkChanges {
    pub ui_tick: bool,
    pub character: bool,
    pub map: bool,
    pub window_position: bool,
    pub window_size: bool,
}

/// The link the back end keeps: the last frame and what it changed.
pub struct LinkState {
    pub frame: LinkFrame,
    pub changes: LinkChanges,
}

/// What reading the link gave at one tick.
pub enum LinkRead {
    /// The back end's tick failed, or the frame could not be decoded.
    Unreadable,
    /// The game no longer writes the link.
    NotAlive,
    /// A frame the game wrote.
    Frame(LinkFrame),
}

/// A frame as plain values.
pub open spec fn frame_view(f: LinkFrame) -> (u32, Seq<char>, u32, (i32, i32), (u32, u32)) {
    (f.ui_tick, f.name@, f.map_id, f.client_pos, f.client_size)
}

/// A kept link as plain values.
pub open spec fn state_view(s: LinkState) -> ((u32, Seq<char>, u32, (i32, i32), (u32, u32)), LinkChanges) {
    (frame_view(s.frame), s.changes)
}

/// The changes from the frame `prev` to the frame `next`.
pub open spec fn changes_between(prev: (u32, Seq<char>, u32, (i32, i32), (u32, u32)), next: (u32, Seq<char>, u32, (i32, i32), (u32, u32))) -> LinkChanges {
    LinkChanges {
        ui_tick: prev.0 != next.0,
        character: prev.1 != next.1,
        map: prev.2 != next.2,
        window_position: prev.3 != next.3,
        window_size: prev.4 != next.4,
    }
}

/// The frame compared with when there is no previous one: all zero, no
/// name.
pub open spec fn empty_frame_view() -> (u32, Seq<char>, u32, (i32, i32), (u32, u32)) {
    (0, Seq::empty(), 0, (0, 0), (0, 0))
}

/// Every change flag set.
pub open spec fn all_changes() -> LinkChanges {
    LinkChanges { ui_tick: true, character: true, map: true, window_position: true, window_size: true }
}

/// Which tracked parts of the link differ between two frames.
pub fn frame_changes(prev: &LinkFrame, next: &LinkFrame) -> (c: LinkChanges)
    ensures
        c.ui_tick == (prev.ui_tick != next.ui_tick),
        c.character == (prev.name@ != next.name@),
        c.map == (prev.map_id != next.map_id),
        c.window_position == (prev.client_pos != next.client_pos),
        c.window_size == (prev.client_size != next.client_size),
{
    LinkChanges {
        ui_tick: prev.ui_tick != next.ui_tick,
        character: !same_text(prev.name.as_str(), next.name.as_str()),
        map: prev.map_id != next.map_id,
        window_position: prev.client_pos.0 != next.client_pos.0 || prev.client_pos.1 != next.client_pos.1,
        window_size: prev.client_size.0 != next.client_size.0 || prev.client_size.1 != next.client_size.1,
    }
}

/// A copy of a frame.
fn copy_frame(f: &LinkFrame) -> (r: LinkFrame)
    ensures
        frame_view(r) == frame_view(*f),
{
    LinkFrame {
        ui_tick: f.ui_tick,
        name: f.name.clone(),
        map_id: f.map_id,
        client_pos: f.client_pos,
        client_size: f.client_size,
    }
}

/// A copy of a kept link.
fn copy_state(s: &LinkState) -> (r: LinkState)
    ensures
        state_view(r) == state_view(*s),
{
    LinkState {
        frame: copy_frame(&s.frame),
        changes: LinkChanges {
            ui_tick: s.changes.ui_tick,
            character: s.changes.character,
            map: s.changes.map,
            window_position: s.changes.window_position,
            window_size: s.changes.window_size,
        },
    }
}

/// One tick of the Mumble Link back end: updates the kept link from what
/// was read and gives the link to broadcast.
///
/// Nothing read gives nothing and keeps the link. When the game no longer
/// writes the link, the kept link, if any, gets a zero client size and every
/// change flag, and is given. A frame with a zero UI tick or a window at
/// (0, 0) gives nothing and keeps the link. Any other frame becomes the kept
/// link, with the changes from the previous frame (or from an empty one),
/// and is given.
pub fn link_step(link: &mut Option<LinkState>, read: LinkRead) -> (out: Option<LinkState>)
    ensures
        read is Unreadable ==> out is None && *final(link) == *old(link),
        read is NotAlive ==> (match *old(link) {
            None => out is None && *final(link) is None,
            Some(s) => {
                &&& *final(link) matches Some(t) && {
                    &&& t.frame.ui_tick == s.frame.ui_tick
                    &&& t.frame.name@ == s.frame.name@
                    &&& t.frame.map_id == s.frame.map_id
                    &&& t.frame.client_pos == s.frame.client_pos
                    &&& t.frame.client_size == (0u32, 0u32)
                    &&& t.changes == all_changes()
                }
                &&& out matches Some(o) && *final(link) matches Some(t) && state_view(o) == state_view(t)
            },
        }),
        read matches LinkRead::Frame(f) ==> ({
            if f.ui_tick == 0 || f.client_pos == (0i32, 0i32) {
                out is None && *final(link) == *old(link)
            } else {
                let base = match *old(link) {
                    Some(s) => frame_view(s.frame),
                    None => empty_frame_view(),
                };
                &&& *final(link) matches Some(t) && frame_view(t.frame) == frame_view(f)
                    && t.changes == changes_between(base, frame_view(f))
                &&& out matches Some(o) && *final(link) matches Some(t) && state_view(o) == state_view(t)
            }
        }),
        read matches LinkRead::Frame(f) ==> (f.ui_tick != 0 && f.client_pos != (0i32, 0i32) ==> {
            let (tick, name, map, pos, size) = match *old(link) {
                Some(s) => (s.frame.ui_tick, s.frame.name@, s.frame.map_id, s.frame.client_pos, s.frame.client_size),
                None => (0u32, Seq::<char>::empty(), 0u32, (0i32, 0i32), (0u32, 0u32)),
            };
            out matches Some(o) && {
                &&& o.changes.ui_tick == (tick != f.ui_tick)
                &&& o.changes.character == (name != f.name@)
                &&& o.changes.map == (map != f.map_id)
                &&& o.changes.window_position == (pos != f.client_pos)
                &&& o.changes.window_size == (size != f.client_size)
            }
        }),
{
    match read {
        LinkRead::Unreadable => None,
        LinkRead::NotAlive => {
            match link {
                None => None,
                Some(s) => {
                    s.frame.client_size = (0, 0);
                    s.changes = LinkChanges { ui_tick: true, character: true, map: true, window_position: true, window_size: true };
                    Some(copy_state(s))
                },
            }
        },
        LinkRead::Frame(f) => {
            if f.ui_tick == 0 || (f.client_pos.0 == 0 && f.client_pos.1 == 0) {
                return None;
            }
            let changes = match link {
                Some(s) => frame_changes(&s.frame, &f),
                None => {
                    let empty = LinkFrame { ui_tick: 0, name: String::new(), map_id: 0, client_pos: (0, 0), client_size: (0, 0) };
                    frame_changes(&empty, &f)
                },
            };
            let state = LinkState { frame: f, changes };
            let out = copy_state(&state);
            *link = Some(state);
            Some(out)
        },
    }
}

/// Law: two frames show no change exactly when they agree on every tracked
/// part; and a frame differing from another in one part only shows that
/// change alone.
pub proof fn law_no_change_iff_same_frame(
    a: (u32, Seq<char>, u32, (i32, i32), (u32, u32)),
    b: (u32, Seq<char>, u32, (i32, i32), (u32, u32)),
)
    ensures
        ({
            let c = changes_between(a, b);
            !c.ui_tick && !c.character && !c.map && !c.window_position && !c.window_size
        }) <==> a == b,
        (a.0, a.1, a.2, a.3) == (b.0, b.1, b.2, b.3) ==> changes_between(a, b) == (LinkChanges {
            ui_tick: false,
            character: false,
            map: false,
            window_position: false,
            window_size: a.4 != b.4,
        }),
{
}

} // verus!
