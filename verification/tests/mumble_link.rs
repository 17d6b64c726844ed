use jokolay::link_models::{frame_changes, link_step, LinkFrame, LinkRead, LinkState};

fn frame(tick: u32, name: &str, map: u32, pos: (i32, i32), size: (u32, u32)) -> LinkFrame {
    LinkFrame { ui_tick: tick, name: name.to_string(), map_id: map, client_pos: pos, client_size: size }
}

#[test]
fn changes_compare_each_tracked_part() {
    let a = frame(1, "Ael", 15, (10, 20), (800, 600));
    let b = frame(2, "Ael", 18, (10, 20), (1024, 768));
    let c = frame_changes(&a, &b);
    assert!(c.ui_tick);
    assert!(!c.character);
    assert!(c.map);
    assert!(!c.window_position);
    assert!(c.window_size);
}

#[test]
fn the_first_frame_changes_everything_set() {
    let mut link: Option<LinkState> = None;
    let out = link_step(&mut link, LinkRead::Frame(frame(5, "Ael", 15, (3, 4), (800, 600)))).unwrap();
    assert!(out.changes.ui_tick && out.changes.character && out.changes.map);
    assert!(out.changes.window_position && out.changes.window_size);
    let next = link_step(&mut link, LinkRead::Frame(frame(6, "Ael", 15, (3, 4), (800, 600)))).unwrap();
    assert!(next.changes.ui_tick);
    assert!(!next.changes.character && !next.changes.map && !next.changes.window_position && !next.changes.window_size);
}

#[test]
fn frames_without_a_tick_or_a_window_give_nothing() {
    let mut link: Option<LinkState> = None;
    assert!(link_step(&mut link, LinkRead::Frame(frame(0, "Ael", 15, (3, 4), (8, 6)))).is_none());
    assert!(link_step(&mut link, LinkRead::Frame(frame(3, "Ael", 15, (0, 0), (8, 6)))).is_none());
    assert!(link.is_none());
    assert!(link_step(&mut link, LinkRead::Unreadable).is_none());
    assert!(link_step(&mut link, LinkRead::NotAlive).is_none());
}

#[test]
fn a_lost_game_zeroes_the_window_and_flags_everything() {
    let mut link: Option<LinkState> = None;
    link_step(&mut link, LinkRead::Frame(frame(5, "Ael", 15, (3, 4), (800, 600))));
    link_step(&mut link, LinkRead::Frame(frame(6, "Ael", 15, (3, 4), (800, 600))));
    let out = link_step(&mut link, LinkRead::NotAlive).unwrap();
    assert_eq!(out.frame.client_size, (0, 0));
    assert_eq!(out.frame.ui_tick, 6);
    assert!(out.changes.ui_tick && out.changes.character && out.changes.map);
    assert!(out.changes.window_position && out.changes.window_size);
}
