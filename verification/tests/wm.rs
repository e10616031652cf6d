use emakiwm::displays::{enumerate_monitors, measure_display, Display, Primary};
use emakiwm::events::WmEvent;
use emakiwm::filter::{Decision, WindowInfo};
use emakiwm::geometry::{intersects, Edges, Margin};
use emakiwm::layout::{FocusDir, Rect, WindowId};
use emakiwm::monitors::{monitor_index_of, targets_all, virtual_bounds, windows_of};
use emakiwm::scan::ScanEntry;
use emakiwm::transition::Hide;
use emakiwm::wm::{can_adopt, Action, Wm};
use emakiwm::wm_events::{arriving, leaving};

const GAP: i32 = 8;

fn edges(left: i32, top: i32, right: i32, bottom: i32) -> Edges {
    Edges { left, top, right, bottom }
}

fn display(hmonitor: i64, x: i32, w: i32, h: i32) -> Display {
    let none = Margin { top: 0, right: 0, bottom: 0, left: 0 };
    let all = edges(x, 0, x + w, h);
    let work = edges(x, 0, x + w, h - 40);
    let mut d = measure_display(hmonitor, work, all, none, GAP).unwrap();
    d.default_width = (d.viewport_w - GAP) / 2;
    d
}

fn primary() -> Primary {
    let r = Rect { x: 0, y: 0, w: 1920, h: 1080 };
    Primary { work: r, monitor: r, default_width: 948 }
}

fn two_monitors() -> Wm {
    let displays = vec![display(22, 1920, 1280, 1024), display(11, 0, 1920, 1080)];
    Wm::new(enumerate_monitors(&displays, primary(), GAP))
}

fn one_monitor() -> Wm {
    Wm::new(enumerate_monitors(&vec![display(11, 0, 1920, 1080)], primary(), GAP))
}

fn found(h: isize, left: i32) -> ScanEntry {
    ScanEntry {
        hwnd: h,
        info: WindowInfo::default(),
        decision: Decision::Manage,
        elevated: Some(false),
        rect: edges(left - 7, 100, left + 607, 507),
        frame: Some(edges(left, 100, left + 600, 500)),
    }
}

fn appear(wm: &mut Wm, h: u64) -> Vec<Action> {
    let e = found(h as isize, 100);
    assert!(wm.can_appear(&e, h, false, GAP));
    wm.on_appeared(&e, h, false, None, GAP)
}

fn command(wm: &mut Wm, ev: WmEvent) -> Vec<Action> {
    assert!(wm.can_command(&ev, GAP));
    wm.on_command(&ev, GAP).unwrap()
}

fn columns(wm: &Wm, mi: usize, ws: usize) -> Vec<Vec<u64>> {
    wm.monitors[mi].stack.strips[ws]
        .columns
        .iter()
        .map(|c| c.tiles.iter().map(|t| t.0).collect())
        .collect()
}

fn focused(wm: &Wm) -> Option<u64> {
    wm.focused.map(|f| f.0)
}

fn focuses(acts: &[Action]) -> Vec<u64> {
    acts.iter()
        .filter_map(|a| match a {
            Action::Focus(h) => Some(*h),
            _ => None,
        })
        .collect()
}

#[test]
fn monitors_stand_from_left_to_right() {
    let wm = two_monitors();
    let handles: Vec<i64> = wm.monitors.iter().map(|m| m.hmonitor).collect();
    assert_eq!(handles, vec![11, 22]);
    assert_eq!(wm.monitors[0].viewport_w, 1904);
    assert_eq!(wm.monitors[0].work.h, 1040);
    assert_eq!(
        virtual_bounds(&wm.monitors),
        Rect { x: 0, y: 0, w: 3200, h: 1080 }
    );
}

#[test]
fn without_displays_the_primary_monitor_is_assumed() {
    let ms = enumerate_monitors(&vec![], primary(), GAP);
    assert_eq!(ms.len(), 1);
    assert_eq!((ms[0].hmonitor, ms[0].viewport_w, ms[0].default_width), (0, 1904, 948));
}

#[test]
fn measured_displays_leave_the_margin_free() {
    let m = Margin { top: 40, right: 0, bottom: 0, left: 0 };
    let d = measure_display(5, edges(0, 0, 1920, 1040), edges(0, 0, 1920, 1080), m, GAP).unwrap();
    assert_eq!(d.work, Rect { x: 0, y: 40, w: 1920, h: 1000 });
    assert_eq!(d.monitor, Rect { x: 0, y: 0, w: 1920, h: 1080 });
    assert!(measure_display(
        5,
        edges(i32::MIN, 0, i32::MAX, 10),
        edges(0, 0, 1, 1),
        m,
        GAP
    )
    .is_none());
}

#[test]
fn new_windows_open_right_of_the_focus() {
    let mut wm = one_monitor();
    let acts = appear(&mut wm, 1);
    assert!(matches!(acts[0], Action::Remember(1, e) if e == edges(93, 100, 707, 507)));
    assert!(matches!(acts[1], Action::Heal(1)));
    assert!(matches!(acts[2], Action::Focus(1)));
    assert!(matches!(acts[3], Action::Persist));
    appear(&mut wm, 2);
    command(&mut wm, WmEvent::Focus(FocusDir::Left));
    appear(&mut wm, 3);
    assert_eq!(columns(&wm, 0, 0), vec![vec![1], vec![3], vec![2]]);
    assert_eq!(focused(&wm), Some(3));
    assert_eq!(wm.monitors[0].stack.strips.len(), 2);
}

#[test]
fn known_or_floating_windows_are_not_taken_in() {
    let mut wm = one_monitor();
    appear(&mut wm, 1);
    assert!(appear(&mut wm, 1).is_empty());
    let mut e = found(2, 100);
    e.decision = Decision::Float("owned window (dialog)");
    assert!(wm.on_appeared(&e, 2, false, None, GAP).is_empty());
    assert!(wm.on_appeared(&found(2, 100), 2, true, None, GAP).is_empty());
    assert_eq!(columns(&wm, 0, 0), vec![vec![1]]);
}

#[test]
fn new_windows_are_coloured() {
    let mut wm = one_monitor();
    let acts = wm.on_appeared(&found(1, 100), 1, false, Some((5, 6)), GAP);
    assert!(matches!(acts.last(), Some(Action::Color(1, 6))));
}

#[test]
fn windows_open_at_the_start_are_tiled() {
    let mut wm = two_monitors();
    for (mi, h) in [(0usize, 1u64), (0, 2), (1, 3)] {
        let e = found(h as isize, 100 + 1920 * mi as i32);
        let acts = wm.adopt_initial(mi, &e, h, None, GAP);
        assert_eq!(acts.len(), 2);
    }
    assert_eq!(columns(&wm, 0, 0), vec![vec![1], vec![2]]);
    assert_eq!(columns(&wm, 1, 0), vec![vec![3]]);
    assert_eq!(focused(&wm), None);
    wm.start_focus(WindowId(3));
    assert_eq!((focused(&wm), wm.active_monitor), (Some(3), 1));
    wm.start_focus(WindowId(99));
    assert_eq!(focused(&wm), Some(3));
}

#[test]
fn focus_moves_and_stops_at_the_ends() {
    let mut wm = one_monitor();
    for h in 1..=3 {
        appear(&mut wm, h);
    }
    assert_eq!(focuses(&command(&mut wm, WmEvent::Focus(FocusDir::Left))), vec![2]);
    command(&mut wm, WmEvent::Focus(FocusDir::Left));
    assert_eq!(focused(&wm), Some(1));
    assert!(command(&mut wm, WmEvent::Focus(FocusDir::Left)).is_empty());
    assert_eq!(focused(&wm), Some(1));
}

#[test]
fn columns_are_reworked_by_commands() {
    let mut wm = one_monitor();
    for h in 1..=3 {
        appear(&mut wm, h);
    }
    command(&mut wm, WmEvent::MoveColumn(FocusDir::Left));
    assert_eq!(columns(&wm, 0, 0), vec![vec![1], vec![3], vec![2]]);
    command(&mut wm, WmEvent::Consume);
    assert_eq!(columns(&wm, 0, 0), vec![vec![1], vec![3, 2]]);
    command(&mut wm, WmEvent::Expel);
    assert_eq!(columns(&wm, 0, 0), vec![vec![1], vec![2], vec![3]]);
    let c = &wm.monitors[0].stack.strips[0].columns[2];
    assert_eq!(c.width, 948);
    command(&mut wm, WmEvent::MaximizeColumn);
    assert_eq!(wm.monitors[0].stack.strips[0].columns[2].width, 1904);
    command(&mut wm, WmEvent::MaximizeColumn);
    assert_eq!(wm.monitors[0].stack.strips[0].columns[2].width, 948);
    command(&mut wm, WmEvent::CycleWidth);
    assert_eq!(wm.monitors[0].stack.strips[0].columns[2].width, 1904 * 2 / 3);
}

#[test]
fn windows_move_between_workspaces() {
    let mut wm = one_monitor();
    appear(&mut wm, 1);
    appear(&mut wm, 2);
    command(&mut wm, WmEvent::MoveToWorkspace(true));
    assert_eq!(wm.monitors[0].stack.active, 1);
    assert_eq!(columns(&wm, 0, 0), vec![vec![1]]);
    assert_eq!(columns(&wm, 0, 1), vec![vec![2]]);
    let acts = command(&mut wm, WmEvent::SwitchWorkspace(false));
    assert_eq!(focuses(&acts), vec![1]);
    assert_eq!((focused(&wm), wm.monitors[0].stack.active), (Some(1), 0));
    command(&mut wm, WmEvent::SwitchWorkspace(true));
    assert_eq!(focused(&wm), Some(2));
    command(&mut wm, WmEvent::SwitchWorkspace(true));
    assert_eq!((focused(&wm), wm.monitors[0].stack.active), (None, 2));
}

#[test]
fn closed_windows_hand_the_focus_on() {
    let mut wm = one_monitor();
    for h in 1..=3 {
        appear(&mut wm, h);
    }
    command(&mut wm, WmEvent::Focus(FocusDir::Left));
    let acts = wm.on_gone(2, 1000, false, GAP);
    assert_eq!(focuses(&acts), vec![3]);
    assert!(acts.iter().any(|a| matches!(a, Action::Forget(2))));
    assert!(acts.iter().any(|a| matches!(a, Action::Show(2))));
    assert_eq!(focused(&wm), Some(3));
    assert_eq!(columns(&wm, 0, 0), vec![vec![1], vec![3]]);
    let acts = wm.on_gone(3, 1000, true, GAP);
    assert_eq!(focused(&wm), Some(1));
    assert!(!acts.iter().any(|a| matches!(a, Action::Forget(_))));
    wm.on_gone(1, 1000, false, GAP);
    assert_eq!(focused(&wm), None);
    assert!(wm.on_gone(1, 1000, false, GAP).is_empty());
}

#[test]
fn focus_follows_the_foreground() {
    let mut wm = two_monitors();
    appear(&mut wm, 1);
    wm.active_monitor = 1;
    appear(&mut wm, 2);
    assert_eq!(wm.active_monitor, 1);
    assert!(wm.can_follow(1, 100, false));
    assert!(wm.on_foreground(1, 100, false).is_empty());
    assert_eq!((focused(&wm), wm.active_monitor), (Some(1), 0));
    assert!(wm.on_foreground(99, 100, false).is_empty());
    assert_eq!(focused(&wm), Some(1));
}

#[test]
fn fallback_of_the_system_is_not_followed() {
    let mut wm = two_monitors();
    appear(&mut wm, 1);
    wm.active_monitor = 1;
    appear(&mut wm, 2);
    appear(&mut wm, 3);
    wm.on_foreground(1, 100, true);
    assert_eq!((focused(&wm), wm.active_monitor), (Some(3), 1));
    assert!(wm.can_go(3, 1000, GAP));
    wm.on_gone(3, 1000, false, GAP);
    assert_eq!(focused(&wm), Some(2));
    assert_eq!(focuses(&wm.on_foreground(1, 1400, false)), vec![2]);
    assert_eq!((focused(&wm), wm.active_monitor), (Some(2), 1));
    wm.on_foreground(1, 1500, false);
    assert_eq!((focused(&wm), wm.active_monitor), (Some(1), 0));
}

#[test]
fn late_closing_takes_the_focus_back() {
    let mut wm = two_monitors();
    appear(&mut wm, 1);
    wm.active_monitor = 1;
    appear(&mut wm, 2);
    appear(&mut wm, 3);
    wm.on_foreground(1, 1000, false);
    assert_eq!(wm.active_monitor, 0);
    let acts = wm.on_gone(3, 1799, false, GAP);
    assert_eq!(focuses(&acts), vec![2]);
    assert_eq!((focused(&wm), wm.active_monitor), (Some(2), 1));

    let mut wm = two_monitors();
    appear(&mut wm, 1);
    wm.active_monitor = 1;
    appear(&mut wm, 2);
    appear(&mut wm, 3);
    wm.on_foreground(1, 1000, false);
    assert!(focuses(&wm.on_gone(3, 1800, false, GAP)).is_empty());
    assert_eq!((focused(&wm), wm.active_monitor), (Some(1), 0));
}

#[test]
fn windows_move_between_monitors() {
    let mut wm = two_monitors();
    appear(&mut wm, 1);
    appear(&mut wm, 2);
    command(&mut wm, WmEvent::MoveToMonitor(true));
    assert_eq!(columns(&wm, 0, 0), vec![vec![1]]);
    assert_eq!(columns(&wm, 1, 0), vec![vec![2]]);
    assert_eq!((focused(&wm), wm.active_monitor), (Some(2), 1));
    command(&mut wm, WmEvent::FocusMonitor(false));
    assert_eq!((focused(&wm), wm.active_monitor), (Some(1), 0));
}

#[test]
fn full_screen_and_pins_are_toggled() {
    let mut wm = one_monitor();
    appear(&mut wm, 1);
    command(&mut wm, WmEvent::Fullscreen);
    assert_eq!(wm.fullscreen, Some(1));
    let to = targets_all(&wm.monitors, wm.fullscreen, GAP);
    assert_eq!(to, vec![(1, Rect { x: 0, y: 0, w: 1920, h: 1080 })]);
    command(&mut wm, WmEvent::Fullscreen);
    assert_eq!(wm.fullscreen, None);
    assert!(command(&mut wm, WmEvent::ToggleOpacity).is_empty());
    assert_eq!(wm.pinned, vec![1]);
    let acts = command(&mut wm, WmEvent::ToggleOpacity);
    assert!(wm.pinned.is_empty());
    assert_eq!(acts.len(), 1);
    assert!(matches!(acts[0], Action::Undim(1)));
    let acts = command(&mut wm, WmEvent::CloseFocused);
    assert!(matches!(acts[0], Action::Close(1)));
    let acts = command(&mut wm, WmEvent::Spawn("wt".to_string()));
    assert!(matches!(&acts[0], Action::Spawn(c) if c == "wt"));
    assert!(wm.on_command(&WmEvent::Shutdown, GAP).is_none());
}

#[test]
fn every_window_has_one_target() {
    let mut wm = two_monitors();
    for h in 1..=4 {
        appear(&mut wm, h);
    }
    command(&mut wm, WmEvent::MoveToWorkspace(true));
    command(&mut wm, WmEvent::SwitchWorkspace(false));
    let to = targets_all(&wm.monitors, None, GAP);
    let mut handles: Vec<u64> = to.iter().map(|t| t.0).collect();
    handles.sort();
    assert_eq!(handles, vec![1, 2, 3, 4]);
    let at = |h: u64| to.iter().find(|t| t.0 == h).unwrap().1;
    assert_eq!((at(1).y, at(1).w, at(1).h), (8, 948, 1024));
    assert!(at(4).y >= 1080);
    assert_eq!(windows_of(&wm.monitors[0].stack).len(), 4);
    assert_eq!(monitor_index_of(WindowId(4), &wm.monitors), Some(0));
    assert_eq!(monitor_index_of(WindowId(9), &wm.monitors), None);
}

#[test]
fn hidden_windows_stand_off_every_monitor() {
    let none = Margin { top: 0, right: 0, bottom: 0, left: 0 };
    let mut above = measure_display(
        7,
        edges(200, -1024, 1480, 0),
        edges(200, -1024, 1480, 0),
        none,
        GAP,
    )
    .unwrap();
    above.default_width = 600;
    let displays = vec![above, display(11, 0, 1920, 1080), display(22, 1920, 1280, 1024)];
    let mut wm = Wm::new(enumerate_monitors(&displays, primary(), GAP));
    for h in 1..=6 {
        appear(&mut wm, h);
    }
    command(&mut wm, WmEvent::MoveToWorkspace(true));
    command(&mut wm, WmEvent::SwitchWorkspace(false));
    let to = targets_all(&wm.monitors, None, GAP);
    let on_a_monitor = |r: Rect| wm.monitors.iter().any(|m| intersects(r, m.monitor));
    let shown: Vec<u64> = to.iter().filter(|t| on_a_monitor(t.1)).map(|t| t.0).collect();
    let own = wm.monitors[wm.active_monitor].monitor;
    for (h, r) in &to {
        assert_eq!(shown.contains(h), intersects(*r, own));
    }
    assert!(!shown.contains(&6));
    assert!(shown.len() < 5);
    assert!(shown.len() > 1);
}

#[test]
fn slides_end_where_windows_belong() {
    let mut wm = one_monitor();
    appear(&mut wm, 1);
    assert!(wm.can_refresh(GAP));
    let t = wm.refresh(false, GAP).unwrap();
    assert!(t.snaps.is_empty());
    assert_eq!(t.entries.len(), 1);
    assert_eq!(t.entries[0].from, Rect { x: 100, y: 100, w: 600, h: 400 });
    assert_eq!(t.entries[0].to, Rect { x: 8, y: 8, w: 948, h: 1024 });
    assert!(wm.refresh(false, GAP).is_none());
    let frame = vec![(1u64, Rect { x: 50, y: 50, w: 700, h: 700 })];
    assert!(wm.on_frame(&frame, false).is_empty());
    assert_eq!(wm.visual[&1], frame[0].1);
    let rest = wm.on_slide_end();
    assert_eq!(rest, vec![(1, Rect { x: 8, y: 8, w: 948, h: 1024 })]);
    assert_eq!(wm.visual[&1], rest[0].1);
    assert!(wm.on_slide_end().is_empty());
}

#[test]
fn hidden_windows_have_their_level() {
    let mut wm = one_monitor();
    appear(&mut wm, 1);
    appear(&mut wm, 2);
    command(&mut wm, WmEvent::MoveToWorkspace(true));
    wm.refresh(true, GAP);
    let rest = wm.last_targets.clone();
    wm.on_frame(&rest, true);
    let mut levels = wm.rest_levels();
    levels.sort_by_key(|l| l.0);
    assert_eq!(levels, vec![(1, Hide::Full), (2, Hide::Show)]);
    let mut midway = wm.on_frame(&rest, true);
    midway.sort_by_key(|l| l.0);
    assert_eq!(midway, vec![(1, Hide::Render), (2, Hide::Show)]);
}

#[test]
fn windows_without_the_focus_are_dimmed() {
    let mut wm = one_monitor();
    appear(&mut wm, 1);
    appear(&mut wm, 2);
    appear(&mut wm, 3);
    wm.refresh(false, GAP);
    wm.pinned.push(1);
    let mut alphas = wm.window_opacities(240, Some(200));
    alphas.sort();
    assert_eq!(alphas, vec![(1, 240), (2, 200), (3, 255)]);
    wm.pinned.clear();
    assert!(wm.window_opacities(240, None).is_empty());
}

#[test]
fn frames_are_drawn_round_visible_windows() {
    let mut wm = one_monitor();
    appear(&mut wm, 1);
    appear(&mut wm, 2);
    wm.refresh(false, GAP);
    let rest = wm.last_targets.clone();
    wm.on_frame(&rest, false);
    let items = wm.window_frames(4, Some((0x11, 0x22)));
    let mut colors: Vec<(u64, u32)> = items.iter().map(|i| (i.owner, i.color)).collect();
    colors.sort();
    assert_eq!(colors, vec![(1, 0x22), (2, 0x11)]);
    assert!(wm.window_frames(0, Some((0x11, 0x22))).is_empty());
    assert!(wm.window_frames(4, None).is_empty());
    let focused_only = wm.window_frames(4, Some((0x11, 0xFFFF_FFFE)));
    assert_eq!(focused_only.len(), 1);
}

#[test]
fn frame_colours_follow_the_focus() {
    let mut wm = one_monitor();
    appear(&mut wm, 1);
    let acts = wm.recolor(Some((5, 6)));
    assert!(matches!(acts[..], [Action::Color(1, 5)]));
    assert!(wm.recolor(Some((5, 6))).is_empty());
    appear(&mut wm, 2);
    let acts = wm.recolor(Some((5, 6)));
    assert!(matches!(acts[..], [Action::Color(1, 6), Action::Color(2, 5)]));
    assert!(wm.recolor(None).is_empty());
}

#[test]
fn windows_reach_past_their_frames() {
    let mut wm = one_monitor();
    appear(&mut wm, 1);
    let frame = Rect { x: 8, y: 8, w: 948, h: 1024 };
    assert_eq!(
        wm.window_rect(1, frame),
        Some(Rect { x: 1, y: 8, w: 962, h: 1031 })
    );
    assert_eq!(wm.window_rect(9, frame), Some(frame));
    assert_eq!(wm.window_rect(1, Rect { w: i32::MAX, ..frame }), None);
}

#[test]
fn unplugged_monitors_give_their_windows_away() {
    let mut wm = two_monitors();
    appear(&mut wm, 1);
    wm.active_monitor = 1;
    appear(&mut wm, 2);
    let left = vec![display(11, 0, 1920, 1080)];
    assert!(wm.can_replug(&left, GAP));
    wm.work_area_changed(&left, GAP);
    assert_eq!(wm.monitors.len(), 1);
    assert_eq!(windows_of(&wm.monitors[0].stack).len(), 2);
    assert_eq!(wm.active_monitor, 0);
    let both = vec![display(11, 0, 1920, 1080), display(33, -1280, 1280, 1024)];
    assert!(wm.can_replug(&both, GAP));
    wm.work_area_changed(&both, GAP);
    let handles: Vec<i64> = wm.monitors.iter().map(|m| m.hmonitor).collect();
    assert_eq!(handles, vec![33, 11]);
    assert_eq!(wm.active_monitor, 0);
}

#[test]
fn pins_hold_until_toggled_off() {
    let mut wm = one_monitor();
    appear(&mut wm, 1);
    wm.refresh(false, GAP);
    command(&mut wm, WmEvent::ToggleOpacity);
    assert_eq!(wm.window_opacities(127, None), vec![(1, 127)]);
    let acts = command(&mut wm, WmEvent::ToggleOpacity);
    assert!(matches!(acts[..], [Action::Undim(1)]));
    assert!(wm.window_opacities(127, None).is_empty());
}

#[test]
fn unplugged_monitors_keep_their_columns_together() {
    let mut wm = two_monitors();
    appear(&mut wm, 1);
    wm.active_monitor = 1;
    appear(&mut wm, 2);
    appear(&mut wm, 3);
    command(&mut wm, WmEvent::Focus(FocusDir::Left));
    command(&mut wm, WmEvent::Consume);
    command(&mut wm, WmEvent::CycleWidth);
    command(&mut wm, WmEvent::MaximizeColumn);
    appear(&mut wm, 4);
    appear(&mut wm, 5);
    command(&mut wm, WmEvent::MoveToWorkspace(true));
    let old = wm.monitors[1].stack.strips[0].columns.clone();
    assert_eq!((old[0].width, old[0].saved_width), (1264, Some(842)));
    let left = vec![display(11, 0, 1920, 1080)];
    assert!(wm.can_replug(&left, GAP));
    wm.work_area_changed(&left, GAP);
    assert_eq!(columns(&wm, 0, 0), vec![vec![1], vec![2, 3], vec![4], vec![5]]);
    let now = &wm.monitors[0].stack.strips[0].columns;
    assert_eq!(now[0].width, 948);
    assert_eq!((now[1].x, now[1].width, now[1].saved_width), (956, 1264, Some(842)));
    assert_eq!(now[1].active_tile, old[0].active_tile);
    assert_eq!((now[2].x, now[2].width), (956 + 1264 + GAP, old[1].width));
    assert_eq!(wm.monitors[0].stack.strips.len(), 2);
}

#[test]
fn reload_packs_columns_anew() {
    let mut wm = one_monitor();
    appear(&mut wm, 1);
    appear(&mut wm, 2);
    let none = Margin { top: 40, right: 0, bottom: 0, left: 0 };
    let mut d = measure_display(
        11,
        edges(0, 0, 1920, 1040),
        edges(0, 0, 1920, 1080),
        none,
        20,
    )
    .unwrap();
    d.default_width = 500;
    let displays = vec![d];
    assert!(wm.can_reload(&displays, 20));
    let acts = wm.reload(&displays, false, Some((5, 6)), 20);
    assert!(acts.iter().any(|a| matches!(a, Action::ShowAll)));
    assert!(acts.iter().any(|a| matches!(a, Action::UndimAll)));
    assert!(acts.iter().any(|a| matches!(a, Action::Color(1, 6))));
    assert_eq!(wm.monitors[0].work.y, 40);
    assert_eq!(wm.monitors[0].stack.strips[0].columns[1].x, 948 + 20);
    assert_eq!(wm.monitors[0].default_width, 500);
    assert!(!wm
        .reload(&displays, true, None, 20)
        .iter()
        .any(|a| matches!(a, Action::ShowAll)));
}

#[test]
fn events_of_windows_are_told_apart() {
    assert_eq!(arriving(&WmEvent::Appeared(7)), Some(7));
    assert_eq!(arriving(&WmEvent::MinimizeEnd(7)), Some(7));
    assert_eq!(arriving(&WmEvent::Gone(7)), None);
    assert_eq!(leaving(&WmEvent::Gone(7), false, false), Some(7));
    assert_eq!(leaving(&WmEvent::MinimizeStart(7), true, false), Some(7));
    assert_eq!(leaving(&WmEvent::Cloaked(7), false, true), Some(7));
    assert_eq!(leaving(&WmEvent::Cloaked(7), true, true), None);
    assert_eq!(leaving(&WmEvent::Cloaked(7), false, false), None);
    assert_eq!(leaving(&WmEvent::Appeared(7), false, true), None);
}

#[test]
fn state_is_told_as_it_is() {
    let mut wm = two_monitors();
    appear(&mut wm, 1);
    appear(&mut wm, 2);
    command(&mut wm, WmEvent::MoveToWorkspace(true));
    let r = wm.report();
    assert_eq!((r.active_monitor, r.active_workspace), (0, 1));
    assert_eq!((r.focused, r.fullscreen), (Some(2), None));
    assert_eq!(r.monitors.len(), 2);
    assert_eq!(r.workspaces.len(), 3);
    assert_eq!(r.workspaces[1].columns[0].tiles, vec![2]);
    assert_eq!(r.monitors[0].workspaces[0].columns[0].tiles, vec![1]);
    assert_eq!(r.monitors[0].workspaces[0].columns[0].width, 948);
    assert_eq!(r.monitors[1].active_workspace, 0);
    assert_eq!(r.monitors[1].work.x, 1920);
}

#[test]
fn opening_and_closing_resizes_no_other() {
    let mut wm = one_monitor();
    appear(&mut wm, 1);
    command(&mut wm, WmEvent::CycleWidth);
    appear(&mut wm, 2);
    command(&mut wm, WmEvent::MaximizeColumn);
    let width = |wm: &Wm, h: u64| {
        let s = &wm.monitors[0].stack.strips[0];
        s.columns[s.column_index_of(WindowId(h)).unwrap()].width
    };
    let (one, two) = (width(&wm, 1), width(&wm, 2));
    assert_eq!((one, two), (1269, 1904));
    for h in 3..=7 {
        appear(&mut wm, h);
        assert_eq!((width(&wm, 1), width(&wm, 2)), (one, two));
    }
    for h in 3..=7 {
        assert!(wm.can_go(h, 0, GAP));
        wm.on_gone(h, 0, false, GAP);
        assert_eq!((width(&wm, 1), width(&wm, 2)), (one, two));
    }
}

#[test]
fn strips_reach_as_far_as_coordinates() {
    let mut wm = one_monitor();
    wm.monitors[0].default_width = 100_000_000;
    for h in 1..=21 {
        appear(&mut wm, h);
        assert!(wm.can_refresh(GAP));
        wm.refresh(false, GAP);
    }
    assert_eq!(wm.monitors[0].stack.strips[0].columns[20].x, 20 * 100_000_008);
    let e = found(22, 100);
    assert!(!wm.can_appear(&e, 22, false, GAP));
    assert!(wm.can_go(21, 0, GAP));
    for _ in 0..21 {
        command(&mut wm, WmEvent::Focus(FocusDir::Left));
    }
    assert_eq!(focused(&wm), Some(1));
    command(&mut wm, WmEvent::MaximizeColumn);
    assert_eq!(wm.monitors[0].stack.strips[0].columns[1].x, 1904 + GAP);
    assert!(wm.can_command(&WmEvent::MaximizeColumn, GAP));
}

#[test]
fn steps_that_compute_nothing_need_no_room() {
    let mut wm = one_monitor();
    wm.monitors[0].work.w = i32::MAX;
    wm.monitors[0].viewport_w = i32::MAX;
    for dir in [FocusDir::Left, FocusDir::Right, FocusDir::Up, FocusDir::Down] {
        assert!(wm.can_command(&WmEvent::Focus(dir), GAP));
        assert!(wm.can_command(&WmEvent::MoveColumn(dir), GAP));
    }
    assert!(wm.can_command(&WmEvent::Fullscreen, GAP));
    assert!(wm.can_command(&WmEvent::MoveToMonitor(true), GAP));
    assert!(wm.can_command(&WmEvent::FocusMonitor(true), GAP));
    assert!(wm.can_follow(5, 0, false));
    assert!(wm.can_go(5, 0, GAP));
    assert!(wm.can_refresh(GAP));
}

#[test]
fn steps_out_of_coordinates_are_told() {
    let mut wm = two_monitors();
    appear(&mut wm, 1);
    appear(&mut wm, 2);
    assert!(wm.can_command(&WmEvent::CycleWidth, GAP));
    wm.monitors[0].viewport_w = i32::MAX;
    assert!(!wm.can_command(&WmEvent::CycleWidth, GAP));
    assert!(!wm.can_command(&WmEvent::MaximizeColumn, GAP));
    assert!(wm.can_command(&WmEvent::Scroll(true), GAP));
    wm.monitors[0].viewport_w = i32::MIN;
    assert!(!wm.can_command(&WmEvent::Scroll(true), GAP));
    wm.monitors[0].viewport_w = 1904;
    assert!(!wm.can_command(&WmEvent::MoveColumn(FocusDir::Left), i32::MAX));
    wm.monitors[1].monitor.x = i32::MAX - 10;
    wm.monitors[0].monitor.x = i32::MIN;
    assert!(!wm.can_refresh(GAP));
    let mut wide = display(11, 0, 1920, 1080);
    wide.viewport_w = i32::MIN;
    assert!(!wm.can_reload(&vec![wide], GAP));
    assert!(!wm.can_replug(&vec![wide], GAP));
}

#[test]
fn odd_frames_are_told() {
    let wm = one_monitor();
    let work = Rect { x: 0, y: 0, w: 1920, h: 1080 };
    let far = found(1, i32::MAX - 700);
    assert!(can_adopt(&far, work));
    assert!(wm.can_adopt_initial(0, &far, GAP));
    let mut odd = found(1, 0);
    odd.frame = Some(edges(i32::MIN, 0, i32::MAX, 10));
    assert!(!can_adopt(&odd, work));
    assert!(!wm.can_adopt_initial(0, &odd, GAP));
    assert!(!wm.can_appear(&odd, 1, false, GAP));
    assert!(wm.can_appear(&odd, 1, true, GAP));
}
