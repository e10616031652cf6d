use emakiwm::layout::{Column, FocusDir, Placement, Rect, Stack, Strip, WindowId};

const GAP: i32 = 8;
const WORK: Rect = Rect {
    x: 0,
    y: 0,
    w: 1920,
    h: 1080,
};

fn id(n: u64) -> WindowId {
    WindowId(n)
}

fn strip_with(widths: &[i32]) -> Strip {
    let mut s = Strip::default();
    for (i, &w) in widths.iter().enumerate() {
        s.insert_column_after(None, id(i as u64), w, GAP);
    }
    s
}

fn parts(c: &Column) -> (i32, i32, Vec<u64>, usize, Option<i32>) {
    let tiles = c.tiles.iter().map(|t| t.0).collect();
    (c.x, c.width, tiles, c.active_tile, c.saved_width)
}

fn whole(s: &Strip) -> (Vec<(i32, i32, Vec<u64>, usize, Option<i32>)>, i32, Option<u64>) {
    (
        s.columns.iter().map(parts).collect(),
        s.offset_x,
        s.last_focused.map(|f| f.0),
    )
}

#[test]
fn inserting_and_removing_gives_the_strip_back() {
    let mut s = strip_with(&[600, 400, 500]);
    let before = whole(&s);
    s.insert_column_after(Some(id(0)), id(9), 300, GAP);
    assert_eq!(s.columns.len(), 4);
    assert!(s.remove_window(id(9), GAP));
    assert_eq!(whole(&s), before);
}

#[test]
fn columns_move_there_and_back() {
    let mut s = strip_with(&[600, 400, 500]);
    let before = whole(&s);
    assert!(s.move_column(id(1), FocusDir::Right, GAP));
    assert_eq!(s.columns[2].tiles, vec![id(1)]);
    assert_eq!(s.columns[2].x, 600 + GAP + 500 + GAP);
    assert!(s.move_column(id(1), FocusDir::Left, GAP));
    assert_eq!(whole(&s), before);
}

#[test]
fn columns_stay_packed() {
    let mut s = strip_with(&[600, 400, 500]);
    s.columns[1].tiles.push(id(7));
    assert!(s.expel(id(7), GAP));
    assert!(s.cycle_width(id(0), 1904, GAP));
    assert!(s.toggle_maximize(id(2), 1904, GAP));
    let mut x = 0;
    for c in &s.columns {
        assert_eq!(c.x, x);
        x += c.width + GAP;
    }
    assert_eq!(s.columns.len(), 4);
}

#[test]
fn three_widths_go_round() {
    let mut s = strip_with(&[600, 400]);
    assert!(s.cycle_width(id(0), 1904, GAP));
    let first = s.columns[0].width;
    let mut widths = vec![first];
    for _ in 0..3 {
        assert!(s.cycle_width(id(0), 1904, GAP));
        widths.push(s.columns[0].width);
    }
    assert_eq!(widths[3], first);
    assert_ne!(widths[1], first);
    assert_ne!(widths[2], first);
    assert_eq!(s.columns[1].width, 400);
}

#[test]
fn scrolling_stays_on_the_content() {
    let mut s = strip_with(&[1000, 1000, 1000]);
    let last = s.content_width() - 1904;
    for _ in 0..5 {
        s.scroll_columnwise(true, 1904);
        assert!(s.offset_x <= last);
    }
    assert_eq!(s.offset_x, last);
    for _ in 0..5 {
        s.scroll_columnwise(false, 1904);
    }
    assert_eq!(s.offset_x, 0);
}

#[test]
fn tiles_reach_from_top_to_bottom() {
    let mut s = strip_with(&[600]);
    for n in 10..17 {
        s.columns[0].tiles.push(id(n));
    }
    let rects: Vec<Rect> = s
        .project(WORK, GAP)
        .into_iter()
        .map(|(_, p)| match p {
            Placement::Visible(r) => r,
            Placement::Offscreen(r) => r,
        })
        .collect();
    assert_eq!(rects.len(), 8);
    assert_eq!(rects[0].y, GAP);
    for pair in rects.windows(2) {
        assert_eq!(pair[1].y, pair[0].y + pair[0].h + GAP);
    }
    assert_eq!(rects[7].y + rects[7].h, 1080 - GAP);
}

#[test]
fn followed_columns_show() {
    let mut s = strip_with(&[1000, 1000, 1000, 1000]);
    for n in [3u64, 0, 2, 1] {
        s.ensure_visible(id(n), 1904);
        let placed = s.project(WORK, GAP);
        assert!(matches!(placed[n as usize].1, Placement::Visible(_)));
    }
}

#[test]
fn normalizing_again_changes_nothing() {
    let mut s = Stack::default();
    s.active_mut().insert_column_after(None, id(1), 600, GAP);
    s.normalize();
    assert!(s.move_window(id(1), true, 600, 1904, GAP));
    s.normalize();
    let before: Vec<_> = s.strips.iter().map(whole).collect();
    let active = s.active;
    s.normalize();
    assert_eq!(s.strips.iter().map(whole).collect::<Vec<_>>(), before);
    assert_eq!(s.active, active);
    assert!(s.contains(id(1)));
}

#[test]
fn workspaces_are_switched_there_and_back() {
    let mut s = Stack::default();
    s.active_mut().insert_column_after(None, id(1), 600, GAP);
    s.normalize();
    assert!(s.switch(true));
    assert_eq!(s.active, 1);
    assert!(s.switch(false));
    assert_eq!(s.active, 0);
    assert!(!s.switch(false));
}

#[test]
fn removing_a_tile_keeps_the_active_one() {
    let mut s = strip_with(&[600]);
    s.columns[0].tiles.push(id(9));
    s.columns[0].tiles.push(id(10));
    s.set_active(id(9));
    assert!(s.remove_window(id(0), GAP));
    assert_eq!(s.columns[0].tiles, vec![id(9), id(10)]);
    assert_eq!(s.columns[0].active(), Some(id(9)));
    s.set_active(id(10));
    assert!(s.remove_window(id(10), GAP));
    assert_eq!(s.columns[0].active(), Some(id(9)));
}

#[test]
fn expelling_a_tile_keeps_the_active_one() {
    let mut s = strip_with(&[600]);
    s.columns[0].tiles.push(id(9));
    s.columns[0].tiles.push(id(10));
    s.set_active(id(10));
    assert!(s.expel(id(0), GAP));
    assert_eq!(s.columns[0].tiles, vec![id(9), id(10)]);
    assert_eq!(s.columns[0].active(), Some(id(10)));
    assert_eq!(s.columns[1].tiles, vec![id(0)]);
}

#[test]
fn consuming_takes_the_active_tile() {
    let mut s = strip_with(&[600, 400]);
    s.columns[1].tiles.push(id(9));
    s.columns[1].tiles.push(id(10));
    s.set_active(id(9));
    assert!(s.consume_right(id(0), GAP));
    assert_eq!(s.columns[0].tiles, vec![id(0), id(9)]);
    assert_eq!(s.columns[0].active(), Some(id(0)));
    assert_eq!(s.columns[1].tiles, vec![id(1), id(10)]);
}
