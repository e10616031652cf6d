use emakiwm::layout::{FocusDir, Placement, Rect, Stack, Strip, WindowId};

const GAP: i32 = 8;
const WORK: Rect = Rect {
    x: 0,
    y: 0,
    w: 1920,
    h: 1080,
};

fn id(n: u64) -> WindowId {
    WindowId(n)
}

fn strip_with(widths: &[i32]) -> Strip {
    let mut s = Strip::default();
    for (i, &w) in widths.iter().enumerate() {
        s.insert_column_after(None, id(i as u64), w, GAP);
    }
    s
}

#[test]
fn insert_into_empty_starts_at_origin() {
    let s = strip_with(&[600]);
    assert_eq!(s.columns[0].x, 0);
}

#[test]
fn sequential_inserts_are_gapped() {
    let s = strip_with(&[600, 400]);
    assert_eq!(s.columns[1].x, 600 + GAP);
    assert_eq!(s.content_width(), 600 + GAP + 400);
}

#[test]
fn insert_after_anchor_shifts_right_columns_without_resizing() {
    let mut s = strip_with(&[600, 400, 500]);
    let before: Vec<i32> = s.columns.iter().map(|c| c.width).collect();

    s.insert_column_after(Some(id(0)), id(9), 300, GAP);

    assert_eq!(s.columns[1].tiles, vec![id(9)]);
    assert_eq!(s.columns[1].x, 600 + GAP);

    assert_eq!(s.columns[2].x, 600 + GAP + 300 + GAP);

    let after: Vec<i32> = s
        .columns
        .iter()
        .filter(|c| c.tiles != vec![id(9)])
        .map(|c| c.width)
        .collect();
    assert_eq!(before, after);
}

#[test]
fn insert_with_unknown_anchor_appends() {
    let mut s = strip_with(&[600]);
    s.insert_column_after(Some(id(42)), id(9), 300, GAP);
    assert_eq!(s.columns.len(), 2);
    assert_eq!(s.columns[1].tiles, vec![id(9)]);
}

#[test]
fn remove_middle_column_shifts_left() {
    let mut s = strip_with(&[600, 400, 500]);
    assert!(s.remove_window(id(1), GAP));
    assert_eq!(s.columns.len(), 2);
    assert_eq!(s.columns[1].x, 600 + GAP);
    assert_eq!(s.columns[1].width, 500);
}

#[test]
fn remove_tile_from_stacked_column_keeps_column() {
    let mut s = strip_with(&[600]);
    s.columns[0].tiles.push(id(9));
    assert!(s.remove_window(id(9), GAP));
    assert_eq!(s.columns.len(), 1);
    assert_eq!(s.columns[0].tiles, vec![id(0)]);
}

#[test]
fn remove_unknown_window_is_noop() {
    let mut s = strip_with(&[600]);
    assert!(!s.remove_window(id(42), GAP));
    assert_eq!(s.columns.len(), 1);
}

#[test]
fn project_places_visible_column_with_gaps() {
    let s = strip_with(&[600]);
    let placements = s.project(WORK, GAP);
    assert_eq!(
        placements,
        vec![(
            id(0),
            Placement::Visible(Rect {
                x: GAP,
                y: GAP,
                w: 600,
                h: 1080 - 2 * GAP,
            })
        )]
    );
}

#[test]
fn project_marks_out_of_viewport_columns_offscreen() {

    let s = strip_with(&[1000, 800, 600]);
    let placements = s.project(WORK, GAP);
    assert!(matches!(placements[0].1, Placement::Visible(_)));

    assert!(matches!(placements[1].1, Placement::Visible(_)));

    assert!(matches!(placements[2].1, Placement::Visible(_)));

    let mut s = s;
    s.insert_column_after(None, id(9), 600, GAP);
    let placements = s.project(WORK, GAP);
    assert!(matches!(placements[3], (w, Placement::Offscreen(r)) if w == id(9) && r.w == 600));
}

#[test]
fn project_splits_stacked_tiles_evenly() {
    let mut s = strip_with(&[600]);
    s.columns[0].tiles.push(id(9));
    s.columns[0].tiles.push(id(10));
    let placements = s.project(WORK, GAP);
    let rects: Vec<Rect> = placements
        .iter()
        .map(|(_, p)| match p {
            Placement::Visible(r) => *r,
            Placement::Offscreen(_) => panic!("expected visible"),
        })
        .collect();

    let total: i32 = rects.iter().map(|r| r.h).sum();
    assert_eq!(total + 2 * GAP, 1080 - 2 * GAP);

    assert_eq!(rects[1].y, rects[0].y + rects[0].h + GAP);
    assert_eq!(rects[2].y, rects[1].y + rects[1].h + GAP);

    assert_eq!(rects[2].y + rects[2].h, 1080 - GAP);
}

#[test]
fn project_respects_offset_x() {
    let mut s = strip_with(&[600, 600]);
    s.offset_x = 608;
    let placements = s.project(WORK, GAP);

    assert!(matches!(placements[0].1, Placement::Offscreen(r) if r.w == 600));

    assert_eq!(
        placements[1].1,
        Placement::Visible(Rect {
            x: GAP,
            y: GAP,
            w: 600,
            h: 1080 - 2 * GAP,
        })
    );
}

#[test]
fn clamp_offset_bounds() {
    let mut s = strip_with(&[600, 600]);
    s.offset_x = 99999;
    s.clamp_offset(1904);
    assert_eq!(s.offset_x, 0);
    s.offset_x = -5;
    s.clamp_offset(1904);
    assert_eq!(s.offset_x, 0);

    let mut s = strip_with(&[1000, 1000, 1000]);
    s.offset_x = 99999;
    s.clamp_offset(1904);
    assert_eq!(s.offset_x, 3 * 1000 + 2 * GAP - 1904);
}

#[test]
fn neighbor_left_right_stops_at_edges() {
    let s = strip_with(&[600, 600, 600]);
    assert_eq!(s.neighbor(id(0), FocusDir::Left), None);
    assert_eq!(s.neighbor(id(0), FocusDir::Right), Some(id(1)));
    assert_eq!(s.neighbor(id(2), FocusDir::Right), None);
    assert_eq!(s.neighbor(id(2), FocusDir::Left), Some(id(1)));
}

#[test]
fn neighbor_up_down_within_column() {
    let mut s = strip_with(&[600]);
    s.columns[0].tiles.push(id(9));
    assert_eq!(s.neighbor(id(0), FocusDir::Down), Some(id(9)));
    assert_eq!(s.neighbor(id(9), FocusDir::Up), Some(id(0)));
    assert_eq!(s.neighbor(id(0), FocusDir::Up), None);
    assert_eq!(s.neighbor(id(9), FocusDir::Down), None);
}

#[test]
fn lateral_move_lands_on_active_tile() {
    let mut s = strip_with(&[600, 600]);
    s.columns[1].tiles.push(id(9));

    s.set_active(id(9));
    assert_eq!(s.neighbor(id(0), FocusDir::Right), Some(id(9)));
}

#[test]
fn neighbor_of_unknown_window_is_none() {
    let s = strip_with(&[600]);
    assert_eq!(s.neighbor(id(42), FocusDir::Left), None);
}

#[test]
fn ensure_visible_scrolls_right_minimally() {

    let mut s = strip_with(&[1000, 1000, 1000]);
    let changed = s.ensure_visible(id(2), 1904);
    assert!(changed);

    assert_eq!(s.offset_x, 1112);

    let placements = s.project(WORK, GAP);
    assert!(matches!(placements[2].1, Placement::Visible(_)));
}

#[test]
fn ensure_visible_scrolls_left_to_column_start() {
    let mut s = strip_with(&[1000, 1000]);
    s.offset_x = 800;
    assert!(s.ensure_visible(id(0), 1904));
    assert_eq!(s.offset_x, 0);
}

#[test]
fn ensure_visible_noop_when_fully_visible() {
    let mut s = strip_with(&[600, 600]);
    assert!(!s.ensure_visible(id(1), 1904));
    assert_eq!(s.offset_x, 0);
}

#[test]
fn ensure_visible_prefers_left_edge_for_oversized_column() {
    let mut s = strip_with(&[1000, 3000]);
    assert!(s.ensure_visible(id(1), 1904));

    assert_eq!(s.offset_x, 1008);
}

#[test]
fn move_column_swaps_and_relayouts() {
    let mut s = strip_with(&[600, 400, 500]);
    assert!(s.move_column(id(0), FocusDir::Right, GAP));
    let order: Vec<_> = s.columns.iter().map(|c| c.tiles[0]).collect();
    assert_eq!(order, vec![id(1), id(0), id(2)]);

    assert_eq!(s.columns[0].x, 0);
    assert_eq!(s.columns[1].x, 400 + GAP);
    assert_eq!(s.columns[2].x, 400 + GAP + 600 + GAP);

    assert!(!s.move_column(id(2), FocusDir::Right, GAP));
    assert!(!s.move_column(id(1), FocusDir::Left, GAP));
}

#[test]
fn expel_splits_stacked_tile_to_right_column() {
    let mut s = strip_with(&[600, 500]);
    s.columns[0].tiles.push(id(9));
    assert!(s.expel(id(9), GAP));
    assert_eq!(s.columns.len(), 3);
    assert_eq!(s.columns[1].tiles, vec![id(9)]);
    assert_eq!(s.columns[1].width, 600);
    assert_eq!(s.columns[2].x, 600 + GAP + 600 + GAP);

    assert!(!s.expel(id(1), GAP));
}

#[test]
fn consume_right_stacks_and_removes_empty_column() {
    let mut s = strip_with(&[600, 500, 400]);
    assert!(s.consume_right(id(0), GAP));
    assert_eq!(s.columns.len(), 2);
    assert_eq!(s.columns[0].tiles, vec![id(0), id(1)]);

    assert_eq!(s.columns[1].x, 600 + GAP);

    assert!(!s.consume_right(id(2), GAP));
}

#[test]
fn expel_then_consume_roundtrips() {
    let mut s = strip_with(&[600]);
    s.columns[0].tiles.push(id(9));
    assert!(s.expel(id(9), GAP));
    assert!(s.consume_right(id(0), GAP));
    assert_eq!(s.columns.len(), 1);
    assert_eq!(s.columns[0].tiles, vec![id(0), id(9)]);
}

#[test]
fn cycle_width_walks_presets() {
    let vw = 1904;
    let mut s = strip_with(&[vw / 2]);
    assert!(s.cycle_width(id(0), vw, GAP));
    assert_eq!(s.columns[0].width, vw * 2 / 3);
    assert!(s.cycle_width(id(0), vw, GAP));
    assert_eq!(s.columns[0].width, vw / 3);
    assert!(s.cycle_width(id(0), vw, GAP));
    assert_eq!(s.columns[0].width, vw / 2);
}

#[test]
fn cycle_width_relayouts_following_columns() {
    let vw = 1904;
    let mut s = strip_with(&[vw / 2, 500]);
    s.cycle_width(id(0), vw, GAP);
    assert_eq!(s.columns[1].x, vw * 2 / 3 + GAP);
    assert_eq!(s.columns[1].width, 500);
}

#[test]
fn toggle_maximize_roundtrips() {
    let vw = 1904;
    let mut s = strip_with(&[600, 500]);
    assert!(s.toggle_maximize(id(0), vw, GAP));
    assert_eq!(s.columns[0].width, vw);
    assert_eq!(s.columns[1].x, vw + GAP);
    assert!(s.toggle_maximize(id(0), vw, GAP));
    assert_eq!(s.columns[0].width, 600);
    assert_eq!(s.columns[1].x, 600 + GAP);
}

fn stack_with(ids: &[u64]) -> Stack {
    let mut st = Stack::default();
    for &i in ids {
        st.strips[0].insert_column_after(None, id(i), 600, GAP);
    }
    st.normalize();
    st
}

#[test]
fn stack_starts_with_single_empty_strip() {
    let st = Stack::default();
    assert_eq!(st.strips.len(), 1);
    assert_eq!(st.active, 0);
}

#[test]
fn move_window_down_creates_workspace_dynamically() {
    let mut st = stack_with(&[0, 1]);
    assert_eq!(st.strips.len(), 2);

    assert!(st.move_window(id(1), true, 600, 1904, GAP));

    assert_eq!(st.strips.len(), 3);
    assert_eq!(st.strips[0].columns.len(), 1);
    assert_eq!(st.strips[1].columns[0].tiles, vec![id(1)]);
    assert!(st.strips[2].columns.is_empty());
    assert_eq!(st.active, 1);
}

#[test]
fn move_window_up_from_top_is_noop() {
    let mut st = stack_with(&[0]);
    assert!(!st.move_window(id(0), false, 600, 1904, GAP));
    assert_eq!(st.active, 0);
}

#[test]
fn emptied_middle_workspace_collapses() {
    let mut st = stack_with(&[0, 1]);
    st.move_window(id(1), true, 600, 1904, GAP);
    st.move_window(id(1), true, 600, 1904, GAP);
    assert_eq!(st.strips.len(), 3);
    assert_eq!(st.strips[1].columns[0].tiles, vec![id(1)]);
    assert_eq!(st.active, 1);
}

#[test]
fn move_window_up_returns_to_previous_workspace() {
    let mut st = stack_with(&[0, 1]);
    st.move_window(id(1), true, 600, 1904, GAP);
    assert!(st.move_window(id(1), false, 600, 1904, GAP));
    assert_eq!(st.strips.len(), 2);
    assert_eq!(st.strips[0].columns.len(), 2);
    assert_eq!(st.active, 0);
}

#[test]
fn switch_clamps_at_both_ends() {
    let mut st = stack_with(&[0]);
    assert!(!st.switch(false));
    assert!(st.switch(true));
    assert_eq!(st.active, 1);
    assert!(!st.switch(true));
    assert!(st.switch(false));
    assert_eq!(st.active, 0);
}

#[test]
fn normalize_after_removal_collapses_and_tracks_active() {
    let mut st = stack_with(&[0, 1]);
    st.move_window(id(1), true, 600, 1904, GAP);
    st.strips[1].remove_window(id(1), GAP);
    st.normalize();
    assert_eq!(st.strips.len(), 2);
    assert_eq!(st.active, 1);
}

#[test]
fn scroll_columnwise_moves_by_column_boundary() {
    let mut s = strip_with(&[1000, 1000, 1000]);
    let vw = 1904;
    s.scroll_columnwise(true, vw);
    assert_eq!(s.offset_x, 1008);
    s.scroll_columnwise(true, vw);

    assert_eq!(s.offset_x, 1112);
    s.scroll_columnwise(false, vw);
    assert_eq!(s.offset_x, 1008);
    s.scroll_columnwise(false, vw);
    assert_eq!(s.offset_x, 0);
    s.scroll_columnwise(false, vw);
    assert_eq!(s.offset_x, 0);
}
