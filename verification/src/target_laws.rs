//! Every managed window is sent somewhere, to one place only: to its place on the
//! strip where it is to be seen, and off every monitor where it is not.

use vstd::prelude::*;

use crate::layout::{PlacementView, RectView, StackView, StripView, WindowId};
use crate::layout_laws::{lemma_placed_upto, tiles_before};
use crate::monitors::{
    desktop, law_desktop_covers, law_offscreen_off_desktop, law_other_workspace_off_desktop,
    law_tiles_inside_work, lemma_join_contains, lemma_stack_windows, lemma_stack_windows_upto,
    lemma_strip_windows_upto, managed, monitors_sound, stack_targets, stack_targets_upto,
    stack_windows, stack_windows_upto, strip_targets, strip_windows, strip_windows_upto, target_of,
    targets, targets_upto, MonitorView,
};

verus! {

/// The windows of a list of targets.
pub open spec fn target_windows(s: Seq<(u64, RectView)>) -> Seq<WindowId> {
    s.map_values(|p: (u64, RectView)| WindowId(p.0))
}

/// The windows of the first `k` monitors.
pub open spec fn windows_upto(ms: Seq<MonitorView>, k: int) -> Seq<WindowId>
    decreases k,
{
    if k <= 0 {
        Seq::empty()
    } else {
        windows_upto(ms, k - 1) + stack_windows(ms[k - 1].stack)
    }
}

proof fn lemma_join(a: Seq<WindowId>, b: Seq<WindowId>)
    requires
        a.no_duplicates(),
        b.no_duplicates(),
        forall|id: WindowId| !(#[trigger] a.contains(id) && b.contains(id)),
    ensures
        (a + b).no_duplicates(),
{
    let j = a + b;
    assert forall|x: int, y: int| 0 <= x < j.len() && 0 <= y < j.len() && x != y implies j[x]
        != j[y] by {
        if x < a.len() && y >= a.len() {
            assert(a.contains(a[x]));
            assert(b[y - a.len()] == j[y]);
        }
        if y < a.len() && x >= a.len() {
            assert(a.contains(a[y]));
            assert(b[x - a.len()] == j[x]);
        }
    }
}

proof fn lemma_strip_windows_once(s: StripView, c: int)
    requires
        s.once(),
        0 <= c <= s.columns.len(),
    ensures
        strip_windows_upto(s, c).no_duplicates(),
    decreases c,
{
    if c > 0 {
        lemma_strip_windows_once(s, c - 1);
        let a = strip_windows_upto(s, c - 1);
        let b = s.columns[c - 1].tiles;
        assert forall|id: WindowId| !(#[trigger] a.contains(id) && b.contains(id)) by {
            lemma_strip_windows_upto(s, c - 1, id);
            if a.contains(id) && b.contains(id) {
                let k = choose|k: int|
                    0 <= k < c - 1 && (#[trigger] s.columns[k]).tiles.contains(id);
                assert(s.columns[k].tiles.contains(id));
                assert(s.columns[c - 1].tiles.contains(id));
            }
        }
        lemma_join(a, b);
    }
}

proof fn lemma_stack_windows_once(s: StackView, k: int)
    requires
        s.strips_sound(),
        s.apart(),
        0 <= k <= s.strips.len(),
    ensures
        stack_windows_upto(s, k).no_duplicates(),
    decreases k,
{
    if k > 0 {
        lemma_stack_windows_once(s, k - 1);
        let t = s.strips[k - 1];
        let a = stack_windows_upto(s, k - 1);
        let b = strip_windows(t);
        lemma_strip_windows_once(t, t.columns.len() as int);
        assert forall|id: WindowId| !(#[trigger] a.contains(id) && b.contains(id)) by {
            lemma_stack_windows_upto(s, k - 1, id);
            lemma_strip_windows_upto(t, t.columns.len() as int, id);
            if a.contains(id) && b.contains(id) {
                let j = choose|j: int| 0 <= j < k - 1 && (#[trigger] s.strips[j]).contains(id);
                assert(s.strips[j].contains(id));
                assert(s.strips[k - 1].contains(id));
            }
        }
        lemma_join(a, b);
    }
}

proof fn lemma_windows_upto(ms: Seq<MonitorView>, k: int, id: WindowId)
    requires
        0 <= k <= ms.len(),
    ensures
        windows_upto(ms, k).contains(id) <==> exists|i: int|
            0 <= i < k && (#[trigger] ms[i]).stack.contains(id),
    decreases k,
{
    if k > 0 {
        lemma_windows_upto(ms, k - 1, id);
        lemma_stack_windows(ms[k - 1].stack, id);
        lemma_join_contains(windows_upto(ms, k - 1), stack_windows(ms[k - 1].stack), id);
        if ms[k - 1].stack.contains(id) {
            assert(exists|i: int| 0 <= i < k && (#[trigger] ms[i]).stack.contains(id));
        }
        if exists|i: int| 0 <= i < k - 1 && (#[trigger] ms[i]).stack.contains(id) {
            let i = choose|i: int| 0 <= i < k - 1 && (#[trigger] ms[i]).stack.contains(id);
            assert(ms[i].stack.contains(id));
        }
        if exists|i: int| 0 <= i < k && (#[trigger] ms[i]).stack.contains(id) {
            let i = choose|i: int| 0 <= i < k && (#[trigger] ms[i]).stack.contains(id);
            if i < k - 1 {
                assert(ms[i].stack.contains(id));
            }
        }
    }
}

proof fn lemma_windows_once(ms: Seq<MonitorView>, k: int)
    requires
        monitors_sound(ms),
        0 <= k <= ms.len(),
    ensures
        windows_upto(ms, k).no_duplicates(),
    decreases k,
{
    if k > 0 {
        lemma_windows_once(ms, k - 1);
        let st = ms[k - 1].stack;
        let a = windows_upto(ms, k - 1);
        let b = stack_windows(st);
        assert(ms[k - 1].stack.sound());
        lemma_stack_windows_once(st, st.strips.len() as int);
        assert forall|id: WindowId| !(#[trigger] a.contains(id) && b.contains(id)) by {
            lemma_windows_upto(ms, k - 1, id);
            lemma_stack_windows(st, id);
            if a.contains(id) && b.contains(id) {
                let i = choose|i: int| 0 <= i < k - 1 && (#[trigger] ms[i]).stack.contains(id);
                assert(ms[i].stack.contains(id));
                assert(ms[k - 1].stack.contains(id));
            }
        }
        lemma_join(a, b);
    }
}

proof fn lemma_placed_windows(s: StripView, work: RectView, gap: int, c: int)
    requires
        0 <= c <= s.columns.len(),
    ensures
        s.placed_upto(work, gap, c).map_values(|p: (WindowId, PlacementView)| p.0)
            == strip_windows_upto(s, c),
    decreases c,
{
    let ids = s.placed_upto(work, gap, c).map_values(|p: (WindowId, PlacementView)| p.0);
    if c > 0 {
        lemma_placed_windows(s, work, gap, c - 1);
        let before = s.placed_upto(work, gap, c - 1);
        let last = s.placed_column(work, gap, c - 1);
        assert(ids =~= before.map_values(|p: (WindowId, PlacementView)| p.0) + last.map_values(
            |p: (WindowId, PlacementView)| p.0,
        ));
        assert(last.map_values(|p: (WindowId, PlacementView)| p.0) =~= s.columns[c - 1].tiles);
    } else {
        assert(ids =~= Seq::empty());
    }
}

proof fn lemma_stack_target_windows(
    st: StackView,
    work: RectView,
    monitor: RectView,
    bounds: RectView,
    fullscreen: Option<u64>,
    gap: int,
    k: int,
)
    requires
        0 <= k <= st.strips.len(),
    ensures
        target_windows(stack_targets_upto(st, work, monitor, bounds, fullscreen, gap, k))
            == stack_windows_upto(st, k),
    decreases k,
{
    let all = stack_targets_upto(st, work, monitor, bounds, fullscreen, gap, k);
    if k > 0 {
        lemma_stack_target_windows(st, work, monitor, bounds, fullscreen, gap, k - 1);
        let before = stack_targets_upto(st, work, monitor, bounds, fullscreen, gap, k - 1);
        let strip = st.strips[k - 1];
        let last = strip_targets(strip, work, monitor, bounds, fullscreen, k - 1 - st.active, gap);
        assert(target_windows(all) =~= target_windows(before) + target_windows(last));
        lemma_placed_windows(strip, work, gap, strip.columns.len() as int);
        let ids = strip.project(work, gap).map_values(|p: (WindowId, PlacementView)| p.0);
        assert forall|i: int| 0 <= i < last.len() implies target_windows(last)[i] == ids[i] by {
            assert(last[i].0 == strip.project(work, gap)[i].0.0);
        }
        assert(target_windows(last) =~= ids);
    } else {
        assert(target_windows(all) =~= Seq::empty());
    }
}

proof fn lemma_target_windows(
    ms: Seq<MonitorView>,
    bounds: RectView,
    fullscreen: Option<u64>,
    gap: int,
    k: int,
)
    requires
        0 <= k <= ms.len(),
    ensures
        target_windows(targets_upto(ms, bounds, fullscreen, gap, k)) == windows_upto(ms, k),
    decreases k,
{
    let all = targets_upto(ms, bounds, fullscreen, gap, k);
    if k > 0 {
        lemma_target_windows(ms, bounds, fullscreen, gap, k - 1);
        let m = ms[k - 1];
        let before = targets_upto(ms, bounds, fullscreen, gap, k - 1);
        let last = stack_targets(m.stack, m.work, m.monitor, bounds, fullscreen, gap);
        assert(target_windows(all) =~= target_windows(before) + target_windows(last));
        lemma_stack_target_windows(
            m.stack,
            m.work,
            m.monitor,
            bounds,
            fullscreen,
            gap,
            m.stack.strips.len() as int,
        );
    } else {
        assert(target_windows(all) =~= Seq::empty());
    }
}

/// Every managed window is sent to exactly one place, whatever workspace it is
/// on, and no other window is sent anywhere.
pub proof fn law_each_window_has_one_target(
    ms: Seq<MonitorView>,
    fullscreen: Option<u64>,
    gap: int,
    id: WindowId,
)
    requires
        monitors_sound(ms),
    ensures
        target_windows(targets(ms, fullscreen, gap)).no_duplicates(),
        target_windows(targets(ms, fullscreen, gap)).contains(id) <==> managed(ms, id),
{
    lemma_target_windows(ms, desktop(ms), fullscreen, gap, ms.len() as int);
    lemma_windows_once(ms, ms.len() as int);
    lemma_windows_upto(ms, ms.len() as int, id);
}

proof fn lemma_stack_targets_contain(
    st: StackView,
    work: RectView,
    monitor: RectView,
    bounds: RectView,
    fullscreen: Option<u64>,
    gap: int,
    upto: int,
    k: int,
    p: int,
)
    requires
        0 <= k < upto <= st.strips.len(),
        0 <= p < st.strips[k].project(work, gap).len(),
    ensures
        stack_targets_upto(st, work, monitor, bounds, fullscreen, gap, upto).contains(
            target_of(
                st.strips[k].project(work, gap)[p],
                work,
                monitor,
                bounds,
                fullscreen,
                k - st.active,
            ),
        ),
    decreases upto,
{
    let before = stack_targets_upto(st, work, monitor, bounds, fullscreen, gap, upto - 1);
    let last = strip_targets(
        st.strips[upto - 1],
        work,
        monitor,
        bounds,
        fullscreen,
        upto - 1 - st.active,
        gap,
    );
    let all = before + last;
    if k < upto - 1 {
        lemma_stack_targets_contain(st, work, monitor, bounds, fullscreen, gap, upto - 1, k, p);
        let t = target_of(
            st.strips[k].project(work, gap)[p],
            work,
            monitor,
            bounds,
            fullscreen,
            k - st.active,
        );
        assert(all[before.index_of(t)] == t);
    } else {
        assert(all[before.len() + p] == last[p]);
    }
}

proof fn lemma_targets_contain(
    ms: Seq<MonitorView>,
    bounds: RectView,
    fullscreen: Option<u64>,
    gap: int,
    upto: int,
    mi: int,
    t: (u64, RectView),
)
    requires
        0 <= mi < upto <= ms.len(),
        stack_targets(
            ms[mi].stack,
            ms[mi].work,
            ms[mi].monitor,
            bounds,
            fullscreen,
            gap,
        ).contains(t),
    ensures
        targets_upto(ms, bounds, fullscreen, gap, upto).contains(t),
    decreases upto,
{
    let before = targets_upto(ms, bounds, fullscreen, gap, upto - 1);
    let m = ms[upto - 1];
    let last = stack_targets(m.stack, m.work, m.monitor, bounds, fullscreen, gap);
    let all = before + last;
    if mi < upto - 1 {
        lemma_targets_contain(ms, bounds, fullscreen, gap, upto - 1, mi, t);
        assert(all[before.index_of(t)] == t);
    } else {
        assert(all[before.len() + last.index_of(t)] == t);
    }
}

/// The target of a tile's window is where its workspace puts the tile.
proof fn lemma_target_at(
    ms: Seq<MonitorView>,
    fullscreen: Option<u64>,
    gap: int,
    mi: int,
    k: int,
    c: int,
    i: int,
    at: int,
)
    requires
        monitors_sound(ms),
        0 <= mi < ms.len(),
        0 <= k < ms[mi].stack.strips.len(),
        0 <= c < ms[mi].stack.strips[k].columns.len(),
        0 <= i < ms[mi].stack.strips[k].columns[c].tiles.len(),
        0 <= at < targets(ms, fullscreen, gap).len(),
        targets(ms, fullscreen, gap)[at].0 == ms[mi].stack.strips[k].columns[c].tiles[i].0,
    ensures
        targets(ms, fullscreen, gap)[at] == target_of(
            ms[mi].stack.strips[k].placed_tile(ms[mi].work, gap, c, i),
            ms[mi].work,
            ms[mi].monitor,
            desktop(ms),
            fullscreen,
            k - ms[mi].stack.active,
        ),
{
    let m = ms[mi];
    let s = m.stack.strips[k];
    let id = s.columns[c].tiles[i];
    let bounds = desktop(ms);
    let p = tiles_before(s, c) + i;
    let all = targets(ms, fullscreen, gap);
    lemma_placed_upto(s, m.work, gap, s.columns.len() as int, c, i);
    let placed = s.project(m.work, gap)[p];
    let t = target_of(placed, m.work, m.monitor, bounds, fullscreen, k - m.stack.active);
    lemma_stack_targets_contain(
        m.stack,
        m.work,
        m.monitor,
        bounds,
        fullscreen,
        gap,
        m.stack.strips.len() as int,
        k,
        p,
    );
    lemma_targets_contain(ms, bounds, fullscreen, gap, ms.len() as int, mi, t);
    law_each_window_has_one_target(ms, fullscreen, gap, id);
    let ids = target_windows(all);
    let n = all.index_of(t);
    assert(ids[n] == id);
    assert(ids[at] == id);
    assert(at == n);
}

/// A tile of column `c` that stands at `r` stands at the column's place on the
/// strip as seen through the viewport, and has the column's width.
pub open spec fn stands_across(
    s: StripView,
    work: RectView,
    gap: int,
    c: int,
    r: RectView,
) -> bool {
    &&& r.x == work.x + gap + s.columns[c].x - s.offset_x
    &&& r.w == s.columns[c].width
}

/// Tile `i` of column `c` that stands at `r`, moved down by `below`, has its share
/// of the height: the tiles of a column share what is inside the gaps, a gap
/// apart, and the last one has what is left.
pub open spec fn stands_along(
    s: StripView,
    work: RectView,
    gap: int,
    c: int,
    i: int,
    below: int,
    r: RectView,
) -> bool {
    let n = s.columns[c].tiles.len() as int;
    let room = work.h - 2 * gap - (n - 1) * gap;
    room >= 0 ==> {
        let share = room / n;
        &&& r.y == work.y + gap + i * (share + gap) + below
        &&& if i < n - 1 {
            r.h == share
        } else {
            r.y + r.h == work.y + work.h - gap + below
        }
    }
}

/// A window of a column that shows, on the workspace on show, is sent to its
/// place on the strip: it has its column's width, also where it then reaches
/// past the edge of the screen, and its share of the height.
pub proof fn law_visible_windows_stand_in_place(
    ms: Seq<MonitorView>,
    fullscreen: Option<u64>,
    gap: int,
    mi: int,
    c: int,
    i: int,
    at: int,
)
    requires
        monitors_sound(ms),
        0 <= mi < ms.len(),
        ({
            let m = ms[mi];
            let s = m.stack.strips[m.stack.active];
            &&& 0 <= c < s.columns.len()
            &&& 0 <= i < s.columns[c].tiles.len()
            &&& s.columns[c].x < s.offset_x + (m.work.w - 2 * gap)
            &&& s.columns[c].x + s.columns[c].width > s.offset_x
            &&& fullscreen != Some(s.columns[c].tiles[i].0)
            &&& 0 <= at < targets(ms, fullscreen, gap).len()
            &&& targets(ms, fullscreen, gap)[at].0 == s.columns[c].tiles[i].0
        }),
    ensures
        ({
            let m = ms[mi];
            let s = m.stack.strips[m.stack.active];
            let r = targets(ms, fullscreen, gap)[at].1;
            &&& stands_across(s, m.work, gap, c, r)
            &&& stands_along(s, m.work, gap, c, i, 0, r)
            &&& r == s.tile_rect(m.work, gap, c, i)
        }),
{
    assert(ms[mi].stack.sound());
    lemma_target_at(ms, fullscreen, gap, mi, ms[mi].stack.active, c, i, at);
}

/// The fullscreen window of a workspace on show is sent to the whole of its
/// monitor, wherever its column is.
pub proof fn law_fullscreen_window_covers_monitor(
    ms: Seq<MonitorView>,
    gap: int,
    mi: int,
    c: int,
    i: int,
    h: u64,
    at: int,
)
    requires
        monitors_sound(ms),
        0 <= mi < ms.len(),
        ({
            let s = ms[mi].stack.strips[ms[mi].stack.active];
            &&& 0 <= c < s.columns.len()
            &&& 0 <= i < s.columns[c].tiles.len()
            &&& s.columns[c].tiles[i].0 == h
        }),
        0 <= at < targets(ms, Some(h), gap).len(),
        targets(ms, Some(h), gap)[at].0 == h,
    ensures
        targets(ms, Some(h), gap)[at].1 == ms[mi].monitor,
{
    assert(ms[mi].stack.sound());
    lemma_target_at(ms, Some(h), gap, mi, ms[mi].stack.active, c, i, at);
}

/// A window of a column outside the viewport, on the workspace on show, keeps
/// its size and its height on screen, and stands just past the desktop on the
/// side its column left by.
pub proof fn law_parked_windows_stand_beside(
    ms: Seq<MonitorView>,
    fullscreen: Option<u64>,
    gap: int,
    mi: int,
    c: int,
    i: int,
    at: int,
)
    requires
        monitors_sound(ms),
        0 <= mi < ms.len(),
        ({
            let m = ms[mi];
            let s = m.stack.strips[m.stack.active];
            &&& 0 <= c < s.columns.len()
            &&& 0 <= i < s.columns[c].tiles.len()
            &&& s.columns[c].x >= s.offset_x + (m.work.w - 2 * gap) || s.columns[c].x
                + s.columns[c].width <= s.offset_x
            &&& fullscreen != Some(s.columns[c].tiles[i].0)
            &&& 0 <= at < targets(ms, fullscreen, gap).len()
            &&& targets(ms, fullscreen, gap)[at].0 == s.columns[c].tiles[i].0
        }),
    ensures
        ({
            let m = ms[mi];
            let s = m.stack.strips[m.stack.active];
            let r = targets(ms, fullscreen, gap)[at].1;
            let all = desktop(ms);
            &&& r.w == s.columns[c].width
            &&& stands_along(s, m.work, gap, c, i, 0, r)
            &&& s.columns[c].x + s.columns[c].width <= s.offset_x && gap < s.columns[c].width
                ==> r.x + r.w == all.x - 100
            &&& s.columns[c].x >= s.offset_x + (m.work.w - 2 * gap) && gap <= m.work.w ==> r.x
                == all.x + all.w + 100
        }),
{
    assert(ms[mi].stack.sound());
    lemma_target_at(ms, fullscreen, gap, mi, ms[mi].stack.active, c, i, at);
}

/// A window of another workspace than the one on show keeps its size. Its
/// workspace stands as a whole above or below the desktop: above where it is one
/// of those above the one on show, else below, each as far from the next.
pub proof fn law_workspaces_stand_above_and_below(
    ms: Seq<MonitorView>,
    fullscreen: Option<u64>,
    gap: int,
    mi: int,
    k: int,
    c: int,
    i: int,
    at: int,
)
    requires
        monitors_sound(ms),
        0 <= mi < ms.len(),
        0 <= k < ms[mi].stack.strips.len(),
        k != ms[mi].stack.active,
        0 <= c < ms[mi].stack.strips[k].columns.len(),
        0 <= i < ms[mi].stack.strips[k].columns[c].tiles.len(),
        0 <= at < targets(ms, fullscreen, gap).len(),
        targets(ms, fullscreen, gap)[at].0 == ms[mi].stack.strips[k].columns[c].tiles[i].0,
    ensures
        ({
            let m = ms[mi];
            let s = m.stack.strips[k];
            let r = targets(ms, fullscreen, gap)[at].1;
            let all = desktop(ms);
            let below = (k - m.stack.active) * (all.h + m.work.h + 200);
            &&& r.w == s.columns[c].width
            &&& stands_along(s, m.work, gap, c, i, below, r)
            &&& s.columns[c].x < s.offset_x + (m.work.w - 2 * gap) && s.columns[c].x
                + s.columns[c].width > s.offset_x ==> stands_across(s, m.work, gap, c, r)
            &&& m.monitor.covers(m.work) && 0 <= gap && (s.columns[c].tiles.len() + 1) * gap
                <= m.work.h ==> if k < m.stack.active {
                r.y + r.h <= all.y
            } else {
                r.y >= all.y + all.h
            }
        }),
{
    let m = ms[mi];
    let s = m.stack.strips[k];
    let all = desktop(ms);
    let away = k - m.stack.active;
    let step = all.h + m.work.h + 200;
    lemma_target_at(ms, fullscreen, gap, mi, k, c, i, at);
    if m.monitor.covers(m.work) && 0 <= gap && (s.columns[c].tiles.len() + 1) * gap <= m.work.h {
        law_tiles_inside_work(s, m.work, gap, c, i);
        law_desktop_covers(ms, mi);
        assert((s.columns[c].tiles.len() + 1) * gap >= 0) by (nonlinear_arith)
            requires
                0 <= gap,
        ;
        if away > 0 {
            assert(away * step >= step) by (nonlinear_arith)
                requires
                    away >= 1,
                    step >= 0,
            ;
        } else {
            assert(away * step <= -step) by (nonlinear_arith)
                requires
                    away <= -1,
                    step >= 0,
            ;
        }
    }
}

/// A window that is not to be seen is sent off every monitor, however they stand
/// side by side or above each other: one outside the viewport, and one on
/// another workspace than the one on show. The latter is stated where the work
/// area lies on its monitor and has room for the gaps of the window's column.
pub proof fn law_hidden_windows_off_monitors(
    ms: Seq<MonitorView>,
    fullscreen: Option<u64>,
    gap: int,
    mi: int,
    k: int,
    c: int,
    i: int,
    at: int,
    j: int,
)
    requires
        monitors_sound(ms),
        0 <= mi < ms.len(),
        0 <= k < ms[mi].stack.strips.len(),
        0 <= c < ms[mi].stack.strips[k].columns.len(),
        0 <= i < ms[mi].stack.strips[k].columns[c].tiles.len(),
        ({
            let m = ms[mi];
            let s = m.stack.strips[k];
            let id = s.columns[c].tiles[i];
            if k == m.stack.active {
                !s.column_visible(m.work, gap, c) && fullscreen != Some(id.0)
            } else {
                &&& m.monitor.covers(m.work)
                &&& 0 <= gap
                &&& (s.columns[c].tiles.len() + 1) * gap <= m.work.h
            }
        }),
        0 <= at < targets(ms, fullscreen, gap).len(),
        targets(ms, fullscreen, gap)[at].0 == ms[mi].stack.strips[k].columns[c].tiles[i].0,
        0 <= j < ms.len(),
    ensures
        !targets(ms, fullscreen, gap)[at].1.meets(ms[j].monitor),
{
    let m = ms[mi];
    let s = m.stack.strips[k];
    let id = s.columns[c].tiles[i];
    let bounds = desktop(ms);
    let away = k - m.stack.active;
    let placed = s.placed_tile(m.work, gap, c, i);
    lemma_target_at(ms, fullscreen, gap, mi, k, c, i, at);
    law_desktop_covers(ms, j);
    law_desktop_covers(ms, mi);
    let r = s.tile_rect(m.work, gap, c, i);
    if away == 0 {
        law_offscreen_off_desktop(
            id,
            r,
            m.work,
            m.monitor,
            bounds,
            ms[j].monitor,
            fullscreen,
            away,
        );
    } else {
        law_tiles_inside_work(s, m.work, gap, c, i);
        assert((s.columns[c].tiles.len() + 1) * gap >= 0) by (nonlinear_arith)
            requires
                0 <= gap,
        ;
        law_other_workspace_off_desktop(
            placed,
            m.work,
            m.monitor,
            bounds,
            ms[j].monitor,
            fullscreen,
            away,
        );
    }
}

} // verus!
