//! The monitors, the windows on them and where those stand on the desktop.

use std::collections::HashMap;
use vstd::prelude::*;

use crate::arith::in_i32;
use crate::geometry::{
    assumed_desktop, assumed_view, can_join, can_park, join_rects, law_join_covers, park, parked,
    row_of,
};
use crate::layout::{
    PlacementView, Rect, RectView, Stack, StackView, Strip, StripView, WindowId, placement_views,
    tile_height,
};
use crate::restore::fits_i32;

verus! {

/// One physical monitor and its workspaces.
#[derive(Debug, Clone)]
pub struct MonitorState {
    /// The system's handle of the monitor.
    pub hmonitor: i64,
    /// The work area inside the margin.
    pub work: Rect,
    /// The whole monitor.
    pub monitor: Rect,
    /// The work area's width inside the gaps.
    pub viewport_w: i32,
    /// The width of a new column.
    pub default_width: i32,
    /// The workspaces.
    pub stack: Stack,
}

// ---------------------------------------------------------------------------
// Model
// ---------------------------------------------------------------------------

/// A monitor as mathematical values.
#[verifier::ext_equal]
pub struct MonitorView {
    pub hmonitor: int,
    pub work: RectView,
    pub monitor: RectView,
    pub viewport_w: int,
    pub default_width: int,
    pub stack: StackView,
}

impl View for MonitorState {
    type V = MonitorView;

    open spec fn view(&self) -> MonitorView {
        MonitorView {
            hmonitor: self.hmonitor as int,
            work: self.work@,
            monitor: self.monitor@,
            viewport_w: self.viewport_w as int,
            default_width: self.default_width as int,
            stack: self.stack@,
        }
    }
}

/// The models of a list of monitors.
pub open spec fn monitor_views(ms: Seq<MonitorState>) -> Seq<MonitorView> {
    ms.map_values(|m: MonitorState| m@)
}

/// `i` is the first monitor that holds `id`.
pub open spec fn is_monitor_of(ms: Seq<MonitorView>, id: WindowId, i: int) -> bool {
    &&& 0 <= i < ms.len()
    &&& ms[i].stack.contains(id)
    &&& forall|j: int| 0 <= j < i ==> !(#[trigger] ms[j]).stack.contains(id)
}

/// Some monitor holds `id`.
pub open spec fn managed(ms: Seq<MonitorView>, id: WindowId) -> bool {
    exists|i: int| 0 <= i < ms.len() && (#[trigger] ms[i]).stack.contains(id)
}

/// The first monitor that holds `id`.
pub open spec fn monitor_of(ms: Seq<MonitorView>, id: WindowId) -> Option<int> {
    if managed(ms, id) {
        Some(choose|i: int| is_monitor_of(ms, id, i))
    } else {
        None
    }
}

/// Every stack is sound and no window stands on two monitors.
pub open spec fn monitors_sound(ms: Seq<MonitorView>) -> bool {
    &&& forall|i: int| 0 <= i < ms.len() ==> (#[trigger] ms[i]).stack.sound()
    &&& forall|i: int, j: int, id: WindowId|
        0 <= i < ms.len() && 0 <= j < ms.len() && #[trigger] ms[i].stack.contains(id)
            && #[trigger] ms[j].stack.contains(id) ==> i == j
}

/// The least rectangle around the first `k` monitors.
pub open spec fn bounds_upto(ms: Seq<MonitorView>, k: int) -> RectView
    decreases k,
{
    if k <= 1 {
        ms[0].monitor
    } else {
        bounds_upto(ms, k - 1).join(ms[k - 1].monitor)
    }
}

/// The least rectangle around all monitors; hidden windows stand outside it.
pub open spec fn desktop(ms: Seq<MonitorView>) -> RectView {
    if ms.len() == 0 {
        assumed_view()
    } else {
        bounds_upto(ms, ms.len() as int)
    }
}

/// How far apart the workspaces of a monitor stand vertically.
pub open spec fn workspace_step(work: RectView, bounds: RectView) -> int {
    bounds.h + work.h + 200
}

/// Where a placed tile of a workspace `away` workspaces from the one on show
/// stands.
pub open spec fn target_of(
    p: (WindowId, PlacementView),
    work: RectView,
    monitor: RectView,
    bounds: RectView,
    fullscreen: Option<u64>,
    away: int,
) -> (u64, RectView) {
    (
        p.0.0,
        if fullscreen == Some(p.0.0) && away == 0 {
            monitor
        } else {
            let base = parked(p.1, work, bounds);
            RectView { y: base.y + away * workspace_step(work, bounds), ..base }
        },
    )
}

/// Where the tiles of one workspace stand.
pub open spec fn strip_targets(
    strip: StripView,
    work: RectView,
    monitor: RectView,
    bounds: RectView,
    fullscreen: Option<u64>,
    away: int,
    gap: int,
) -> Seq<(u64, RectView)> {
    strip.project(work, gap).map_values(
        |p: (WindowId, PlacementView)| target_of(p, work, monitor, bounds, fullscreen, away),
    )
}

/// Where the tiles of the first `k` workspaces stand.
pub open spec fn stack_targets_upto(
    stack: StackView,
    work: RectView,
    monitor: RectView,
    bounds: RectView,
    fullscreen: Option<u64>,
    gap: int,
    k: int,
) -> Seq<(u64, RectView)>
    decreases k,
{
    if k <= 0 {
        Seq::empty()
    } else {
        stack_targets_upto(stack, work, monitor, bounds, fullscreen, gap, k - 1) + strip_targets(
            stack.strips[k - 1],
            work,
            monitor,
            bounds,
            fullscreen,
            k - 1 - stack.active,
            gap,
        )
    }
}

/// Where the tiles of a monitor stand: the workspace on show in place, those
/// above and below out of the desktop's height.
pub open spec fn stack_targets(
    stack: StackView,
    work: RectView,
    monitor: RectView,
    bounds: RectView,
    fullscreen: Option<u64>,
    gap: int,
) -> Seq<(u64, RectView)> {
    stack_targets_upto(
        stack,
        work,
        monitor,
        bounds,
        fullscreen,
        gap,
        stack.strips.len() as int,
    )
}

/// Where the tiles of the first `k` monitors stand.
pub open spec fn targets_upto(
    ms: Seq<MonitorView>,
    bounds: RectView,
    fullscreen: Option<u64>,
    gap: int,
    k: int,
) -> Seq<(u64, RectView)>
    decreases k,
{
    if k <= 0 {
        Seq::empty()
    } else {
        targets_upto(ms, bounds, fullscreen, gap, k - 1) + stack_targets(
            ms[k - 1].stack,
            ms[k - 1].work,
            ms[k - 1].monitor,
            bounds,
            fullscreen,
            gap,
        )
    }
}

/// Where every managed window is to stand.
pub open spec fn targets(ms: Seq<MonitorView>, fullscreen: Option<u64>, gap: int) -> Seq<
    (u64, RectView),
> {
    targets_upto(ms, desktop(ms), fullscreen, gap, ms.len() as int)
}

/// The models of a list of window rectangles.
pub open spec fn rect_views(s: Seq<(u64, Rect)>) -> Seq<(u64, RectView)> {
    s.map_values(|p: (u64, Rect)| (p.0, p.1@))
}

/// The targets of one workspace fit coordinates.
pub open spec fn strip_targets_fit(
    strip: StripView,
    work: RectView,
    monitor: RectView,
    bounds: RectView,
    fullscreen: Option<u64>,
    away: int,
    gap: int,
) -> bool {
    let to = strip_targets(strip, work, monitor, bounds, fullscreen, away, gap);
    &&& strip.project_fits(work, gap)
    &&& in_i32(away * workspace_step(work, bounds))
    &&& forall|j: int| 0 <= j < to.len() ==> (#[trigger] to[j]).1.fits()
}

/// The targets of one monitor fit coordinates.
pub open spec fn stack_targets_fit(
    stack: StackView,
    work: RectView,
    monitor: RectView,
    bounds: RectView,
    fullscreen: Option<u64>,
    gap: int,
) -> bool {
    &&& in_i32(workspace_step(work, bounds))
    &&& forall|k: int|
        0 <= k < stack.strips.len() ==> strip_targets_fit(
            #[trigger] stack.strips[k],
            work,
            monitor,
            bounds,
            fullscreen,
            k - stack.active,
            gap,
        )
}

/// The joined rectangles fit coordinates.
pub open spec fn desktop_fits(ms: Seq<MonitorView>) -> bool {
    forall|k: int| 1 <= k <= ms.len() ==> (#[trigger] bounds_upto(ms, k)).fits()
}

/// The workspaces of every monitor can be counted in coordinates.
pub open spec fn counts_fit(ms: Seq<MonitorView>) -> bool {
    forall|i: int|
        0 <= i < ms.len() ==> (#[trigger] ms[i]).stack.strips.len() <= i32::MAX
            && ms[i].stack.active <= i32::MAX
}

/// The targets of all monitors fit coordinates.
pub open spec fn targets_fit(ms: Seq<MonitorView>, fullscreen: Option<u64>, gap: int) -> bool {
    &&& counts_fit(ms)
    &&& desktop_fits(ms)
    &&& forall|i: int|
        0 <= i < ms.len() ==> stack_targets_fit(
            (#[trigger] ms[i]).stack,
            ms[i].work,
            ms[i].monitor,
            desktop(ms),
            fullscreen,
            gap,
        )
}

// ---------------------------------------------------------------------------
// Lemmas
// ---------------------------------------------------------------------------

/// The monitor index, where there is one, is the first monitor holding the id.
pub proof fn lemma_monitor_of(ms: Seq<MonitorView>, id: WindowId)
    ensures
        monitor_of(ms, id) matches Some(i) ==> is_monitor_of(ms, id, i),
        monitor_of(ms, id) is Some <==> managed(ms, id),
{
    if managed(ms, id) {
        let w = choose|i: int| 0 <= i < ms.len() && (#[trigger] ms[i]).stack.contains(id);
        lemma_first_monitor(ms, id, w);
    }
}

proof fn lemma_first_monitor(ms: Seq<MonitorView>, id: WindowId, w: int)
    requires
        0 <= w < ms.len(),
        ms[w].stack.contains(id),
    ensures
        exists|i: int| is_monitor_of(ms, id, i),
    decreases w,
{
    if exists|j: int| 0 <= j < w && (#[trigger] ms[j]).stack.contains(id) {
        let j = choose|j: int| 0 <= j < w && (#[trigger] ms[j]).stack.contains(id);
        lemma_first_monitor(ms, id, j);
    } else {
        assert(is_monitor_of(ms, id, w));
    }
}

/// A first monitor is the monitor index.
pub proof fn lemma_monitor_of_is(ms: Seq<MonitorView>, id: WindowId, i: int)
    requires
        is_monitor_of(ms, id, i),
    ensures
        monitor_of(ms, id) == Some(i),
{
    assert(ms[i].stack.contains(id));
    assert(managed(ms, id));
    let c = choose|k: int| is_monitor_of(ms, id, k);
    assert(is_monitor_of(ms, id, c));
    if c < i {
        assert(!ms[c].stack.contains(id));
    }
    if i < c {
        assert(!ms[i].stack.contains(id));
    }
}

// ---------------------------------------------------------------------------
// Operations
// ---------------------------------------------------------------------------

/// The first monitor that holds `id`.
pub fn monitor_index_of(id: WindowId, monitors: &Vec<MonitorState>) -> (r: Option<usize>)
    ensures
        match r {
            Some(i) => i < monitors.len() && monitor_of(monitor_views(monitors@), id) == Some(
                i as int,
            ),
            None => monitor_of(monitor_views(monitors@), id) is None,
        },
{
    let ghost ms = monitor_views(monitors@);
    let mut i: usize = 0;
    while i < monitors.len()
        invariant
            i <= monitors.len(),
            ms == monitor_views(monitors@),
            forall|j: int| 0 <= j < i ==> !(#[trigger] ms[j]).stack.contains(id),
        decreases monitors.len() - i,
    {
        assert(ms[i as int] == monitors@[i as int]@);
        if monitors[i].stack.contains(id) {
            proof {
                lemma_monitor_of_is(ms, id, i as int);
            }
            return Some(i);
        }
        i += 1;
    }
    proof {
        lemma_monitor_of(ms, id);
    }
    None
}

/// The least rectangle around all monitors.
pub fn virtual_bounds(monitors: &Vec<MonitorState>) -> (r: Rect)
    requires
        desktop_fits(monitor_views(monitors@)),
    ensures
        r@ == desktop(monitor_views(monitors@)),
{
    let ghost ms = monitor_views(monitors@);
    if monitors.len() == 0 {
        return assumed_desktop();
    }
    assert(ms[0] == monitors@[0]@);
    let mut acc = monitors[0].monitor;
    let mut i: usize = 1;
    while i < monitors.len()
        invariant
            1 <= i <= monitors.len(),
            ms == monitor_views(monitors@),
            desktop_fits(ms),
            acc@ == bounds_upto(ms, i as int),
        decreases monitors.len() - i,
    {
        assert(ms[i as int] == monitors@[i as int]@);
        assert(bounds_upto(ms, i + 1).fits());
        acc = join_rects(acc, monitors[i].monitor);
        i += 1;
    }
    acc
}

/// Where the tiles of one monitor stand: the workspace on show in place, those
/// above and below out of the desktop's height.
pub fn targets_for_monitor(
    stack: &Stack,
    work: Rect,
    monitor: Rect,
    bounds: Rect,
    fullscreen: Option<u64>,
    gap: i32,
) -> (r: Vec<(u64, Rect)>)
    requires
        stack_targets_fit(stack@, work@, monitor@, bounds@, fullscreen, gap as int),
        stack.strips.len() <= i32::MAX,
        stack.active <= i32::MAX,
    ensures
        rect_views(r@) == stack_targets(stack@, work@, monitor@, bounds@, fullscreen, gap as int),
{
    let span: i64 = bounds.h as i64 + work.h as i64 + 200;
    let step: i32 = span as i32;
    let mut out: Vec<(u64, Rect)> = Vec::new();
    let mut i: usize = 0;
    assert(rect_views(out@) =~= Seq::empty());
    while i < stack.strips.len()
        invariant
            i <= stack.strips.len(),
            stack.strips.len() <= i32::MAX,
            stack.active <= i32::MAX,
            stack_targets_fit(stack@, work@, monitor@, bounds@, fullscreen, gap as int),
            step == workspace_step(work@, bounds@),
            rect_views(out@) == stack_targets_upto(
                stack@,
                work@,
                monitor@,
                bounds@,
                fullscreen,
                gap as int,
                i as int,
            ),
        decreases stack.strips.len() - i,
    {
        let ghost strip = stack@.strips[i as int];
        assert(strip == stack.strips@[i as int]@);
        let ghost away = i - stack.active;
        let ghost done = stack_targets_upto(
            stack@,
            work@,
            monitor@,
            bounds@,
            fullscreen,
            gap as int,
            i as int,
        );
        let ghost these = strip_targets(
            strip,
            work@,
            monitor@,
            bounds@,
            fullscreen,
            away,
            gap as int,
        );
        assert(strip_targets_fit(
            strip,
            work@,
            monitor@,
            bounds@,
            fullscreen,
            away,
            gap as int,
        ));
        let lag: i32 = i as i32 - stack.active as i32;
        let dy: i32 = lag * step;
        let placed = stack.strips[i].project(work, gap);
        let ghost views = strip.project(work@, gap as int);
        let mut j: usize = 0;
        while j < placed.len()
            invariant
                j <= placed.len(),
                i < stack.strips.len(),
                lag == i - stack.active,
                away == lag,
                dy == lag * step,
                step == workspace_step(work@, bounds@),
                placement_views(placed@) == views,
                views == strip.project(work@, gap as int),
                forall|k: int| 0 <= k < these.len() ==> (#[trigger] these[k]).1.fits(),
                these == strip_targets(
                    strip,
                    work@,
                    monitor@,
                    bounds@,
                    fullscreen,
                    away,
                    gap as int,
                ),
                rect_views(out@) == done + these.take(j as int),
            decreases placed.len() - j,
        {
            let (id, p) = placed[j];
            assert(views[j as int] == (id, p@));
            assert(these[j as int].1.fits());
            let shown_full: bool = match fullscreen {
                Some(f) => f == id.0 && i == stack.active,
                None => false,
            };
            let r = if shown_full {
                monitor
            } else {
                let base = park(p, work, bounds);
                Rect { x: base.x, y: base.y + dy, w: base.w, h: base.h }
            };
            let ghost before = out@;
            out.push((id.0, r));
            proof {
                assert(these[j as int] == (id.0, r@));
                assert(rect_views(out@) =~= rect_views(before).push((id.0, r@)));
                assert(these.take(j + 1) =~= these.take(j as int).push(these[j as int]));
                assert(done + these.take(j + 1) =~= (done + these.take(j as int)).push(
                    these[j as int],
                ));
            }
            j += 1;
        }
        proof {
            assert(these.len() == views.len());
            assert(these.take(j as int) =~= these);
        }
        i += 1;
    }
    out
}

/// Where every managed window is to stand.
pub fn targets_all(monitors: &Vec<MonitorState>, fullscreen: Option<u64>, gap: i32) -> (r: Vec<
    (u64, Rect),
>)
    requires
        targets_fit(monitor_views(monitors@), fullscreen, gap as int),
    ensures
        rect_views(r@) == targets(monitor_views(monitors@), fullscreen, gap as int),
{
    let ghost ms = monitor_views(monitors@);
    let bounds = virtual_bounds(monitors);
    let mut out: Vec<(u64, Rect)> = Vec::new();
    let mut i: usize = 0;
    assert(rect_views(out@) =~= Seq::empty());
    while i < monitors.len()
        invariant
            i <= monitors.len(),
            ms == monitor_views(monitors@),
            bounds@ == desktop(ms),
            targets_fit(ms, fullscreen, gap as int),
            rect_views(out@) == targets_upto(ms, bounds@, fullscreen, gap as int, i as int),
        decreases monitors.len() - i,
    {
        let m = &monitors[i];
        assert(ms[i as int] == m@);
        let mut these = targets_for_monitor(&m.stack, m.work, m.monitor, bounds, fullscreen, gap);
        let ghost before = out@;
        let ghost add = these@;
        out.append(&mut these);
        proof {
            assert(rect_views(out@) =~= rect_views(before) + rect_views(add));
        }
        i += 1;
    }
    out
}

/// Tests whether the joined rectangles fit coordinates.
fn can_bound(monitors: &Vec<MonitorState>) -> (r: bool)
    ensures
        r == desktop_fits(monitor_views(monitors@)),
{
    let ghost ms = monitor_views(monitors@);
    if monitors.len() == 0 {
        return true;
    }
    assert(ms[0] == monitors@[0]@);
    let mut acc = monitors[0].monitor;
    let mut i: usize = 1;
    while i < monitors.len()
        invariant
            1 <= i <= monitors.len(),
            ms == monitor_views(monitors@),
            acc@ == bounds_upto(ms, i as int),
            forall|k: int| 1 <= k <= i ==> (#[trigger] bounds_upto(ms, k)).fits(),
        decreases monitors.len() - i,
    {
        assert(ms[i as int] == monitors@[i as int]@);
        assert(bounds_upto(ms, i + 1) == acc@.join(monitors@[i as int].monitor@));
        if !can_join(acc, monitors[i].monitor) {
            return false;
        }
        acc = join_rects(acc, monitors[i].monitor);
        i += 1;
    }
    true
}

/// Tests whether the targets of a workspace `away` workspaces from the one on
/// show fit coordinates.
fn can_target_strip(
    strip: &Strip,
    work: Rect,
    monitor: Rect,
    bounds: Rect,
    fullscreen: Option<u64>,
    away: i32,
    gap: i32,
) -> (r: bool)
    requires
        in_i32(workspace_step(work@, bounds@)),
    ensures
        r == strip_targets_fit(
            strip@,
            work@,
            monitor@,
            bounds@,
            fullscreen,
            away as int,
            gap as int,
        ),
{
    let ghost to = strip_targets(
        strip@,
        work@,
        monitor@,
        bounds@,
        fullscreen,
        away as int,
        gap as int,
    );
    if !strip.can_project(work, gap) {
        return false;
    }
    let step: i64 = bounds.h as i64 + work.h as i64 + 200;
    proof {
        assert(-0x4000_0000_0000_0000 <= away * step <= 0x4000_0000_0000_0000) by (nonlinear_arith)
            requires
                -0x8000_0000 <= away <= 0x7FFF_FFFF,
                -0x8000_0000 <= step <= 0x7FFF_FFFF,
        ;
    }
    let dy: i64 = away as i64 * step;
    if !fits_i32(dy) {
        return false;
    }
    let placed = strip.project(work, gap);
    let ghost views = strip@.project(work@, gap as int);
    let mut j: usize = 0;
    while j < placed.len()
        invariant
            j <= placed.len(),
            in_i32(dy as int),
            dy == away * workspace_step(work@, bounds@),
            placement_views(placed@) == views,
            views == strip@.project(work@, gap as int),
            to == strip_targets(
                strip@,
                work@,
                monitor@,
                bounds@,
                fullscreen,
                away as int,
                gap as int,
            ),
            forall|k: int| 0 <= k < j ==> (#[trigger] to[k]).1.fits(),
        decreases placed.len() - j,
    {
        let (id, p) = placed[j];
        assert(views[j as int] == (id, p@));
        assert(to[j as int] == target_of(
            views[j as int],
            work@,
            monitor@,
            bounds@,
            fullscreen,
            away as int,
        ));
        let shown_full: bool = match fullscreen {
            Some(f) => f == id.0 && away == 0,
            None => false,
        };
        if !shown_full && !(can_park(p, work, bounds) && fits_i32(row_of(p) as i64 + dy)) {
            assert(!to[j as int].1.fits());
            return false;
        }
        j += 1;
    }
    true
}

/// Tests whether the targets of all monitors fit coordinates.
pub fn can_target(monitors: &Vec<MonitorState>, fullscreen: Option<u64>, gap: i32) -> (r: bool)
    ensures
        r == targets_fit(monitor_views(monitors@), fullscreen, gap as int),
{
    let ghost ms = monitor_views(monitors@);
    let mut i: usize = 0;
    while i < monitors.len()
        invariant
            i <= monitors.len(),
            ms == monitor_views(monitors@),
            forall|k: int|
                0 <= k < i ==> (#[trigger] ms[k]).stack.strips.len() <= i32::MAX
                    && ms[k].stack.active <= i32::MAX,
        decreases monitors.len() - i,
    {
        assert(ms[i as int] == monitors@[i as int]@);
        if monitors[i].stack.strips.len() > 0x7FFF_FFFF || monitors[i].stack.active > 0x7FFF_FFFF {
            return false;
        }
        i += 1;
    }
    if !can_bound(monitors) {
        return false;
    }
    let bounds = virtual_bounds(monitors);
    i = 0;
    while i < monitors.len()
        invariant
            i <= monitors.len(),
            ms == monitor_views(monitors@),
            bounds@ == desktop(ms),
            counts_fit(ms),
            forall|k: int|
                0 <= k < i ==> stack_targets_fit(
                    (#[trigger] ms[k]).stack,
                    ms[k].work,
                    ms[k].monitor,
                    bounds@,
                    fullscreen,
                    gap as int,
                ),
        decreases monitors.len() - i,
    {
        let m = &monitors[i];
        assert(ms[i as int] == m@);
        if !fits_i32(bounds.h as i64 + m.work.h as i64 + 200) {
            return false;
        }
        let mut k: usize = 0;
        while k < m.stack.strips.len()
            invariant
                k <= m.stack.strips.len(),
                i < monitors.len(),
                m == monitors@[i as int],
                ms == monitor_views(monitors@),
                ms[i as int] == m@,
                bounds@ == desktop(ms),
                m.stack.strips.len() <= i32::MAX,
                m.stack.active <= i32::MAX,
                in_i32(workspace_step(m.work@, bounds@)),
                forall|c: int|
                    0 <= c < k ==> strip_targets_fit(
                        #[trigger] m@.stack.strips[c],
                        m.work@,
                        m.monitor@,
                        bounds@,
                        fullscreen,
                        c - m.stack.active,
                        gap as int,
                    ),
            decreases m.stack.strips.len() - k,
        {
            assert(m@.stack.strips[k as int] == m.stack.strips@[k as int]@);
            let away: i32 = k as i32 - m.stack.active as i32;
            if !can_target_strip(
                &m.stack.strips[k],
                m.work,
                m.monitor,
                bounds,
                fullscreen,
                away,
                gap,
            ) {
                assert(!stack_targets_fit(
                    ms[i as int].stack,
                    ms[i as int].work,
                    ms[i as int].monitor,
                    desktop(ms),
                    fullscreen,
                    gap as int,
                ));
                return false;
            }
            k += 1;
        }
        i += 1;
    }
    true
}

// ---------------------------------------------------------------------------
// Windows of a monitor
// ---------------------------------------------------------------------------

/// The windows of the first `c` columns, left to right and top to bottom.
pub open spec fn strip_windows_upto(s: StripView, c: int) -> Seq<WindowId>
    decreases c,
{
    if c <= 0 {
        Seq::empty()
    } else {
        strip_windows_upto(s, c - 1) + s.columns[c - 1].tiles
    }
}

/// The windows of a workspace.
pub open spec fn strip_windows(s: StripView) -> Seq<WindowId> {
    strip_windows_upto(s, s.columns.len() as int)
}

/// The windows of the first `k` workspaces, top to bottom.
pub open spec fn stack_windows_upto(s: StackView, k: int) -> Seq<WindowId>
    decreases k,
{
    if k <= 0 {
        Seq::empty()
    } else {
        stack_windows_upto(s, k - 1) + strip_windows(s.strips[k - 1])
    }
}

/// The windows of a monitor.
pub open spec fn stack_windows(s: StackView) -> Seq<WindowId> {
    stack_windows_upto(s, s.strips.len() as int)
}

/// A joined list holds what either part holds.
pub proof fn lemma_join_contains(a: Seq<WindowId>, b: Seq<WindowId>, id: WindowId)
    ensures
        (a + b).contains(id) <==> a.contains(id) || b.contains(id),
{
    let j = a + b;
    if a.contains(id) {
        let k = a.index_of(id);
        assert(j[k] == id);
    }
    if b.contains(id) {
        let k = b.index_of(id);
        assert(j[a.len() + k] == id);
    }
    if j.contains(id) {
        let k = j.index_of(id);
        if k < a.len() {
            assert(a[k] == id);
        } else {
            assert(b[k - a.len()] == id);
        }
    }
}

/// The window list of columns holds just their tiles.
pub proof fn lemma_strip_windows_upto(s: StripView, c: int, id: WindowId)
    requires
        c <= s.columns.len(),
    ensures
        strip_windows_upto(s, c).contains(id) <==> exists|k: int|
            0 <= k < c && (#[trigger] s.columns[k]).tiles.contains(id),
    decreases c,
{
    if c > 0 {
        lemma_strip_windows_upto(s, c - 1, id);
        lemma_join_contains(strip_windows_upto(s, c - 1), s.columns[c - 1].tiles, id);
        if s.columns[c - 1].tiles.contains(id) {
            assert(exists|k: int| 0 <= k < c && (#[trigger] s.columns[k]).tiles.contains(id));
        }
        if exists|k: int| 0 <= k < c - 1 && (#[trigger] s.columns[k]).tiles.contains(id) {
            let k = choose|k: int| 0 <= k < c - 1 && (#[trigger] s.columns[k]).tiles.contains(id);
            assert(s.columns[k].tiles.contains(id));
        }
        if exists|k: int| 0 <= k < c && (#[trigger] s.columns[k]).tiles.contains(id) {
            let k = choose|k: int| 0 <= k < c && (#[trigger] s.columns[k]).tiles.contains(id);
            if k < c - 1 {
                assert(s.columns[k].tiles.contains(id));
            }
        }
    }
}

/// The window list of workspaces holds just their windows.
pub proof fn lemma_stack_windows_upto(s: StackView, c: int, id: WindowId)
    requires
        c <= s.strips.len(),
    ensures
        stack_windows_upto(s, c).contains(id) <==> exists|k: int|
            0 <= k < c && (#[trigger] s.strips[k]).contains(id),
    decreases c,
{
    if c > 0 {
        let t = s.strips[c - 1];
        lemma_stack_windows_upto(s, c - 1, id);
        lemma_strip_windows_upto(t, t.columns.len() as int, id);
        assert(strip_windows(t).contains(id) <==> t.contains(id));
        lemma_join_contains(stack_windows_upto(s, c - 1), strip_windows(t), id);
        if exists|k: int| 0 <= k < c - 1 && (#[trigger] s.strips[k]).contains(id) {
            let k = choose|k: int| 0 <= k < c - 1 && (#[trigger] s.strips[k]).contains(id);
            assert(s.strips[k].contains(id));
        }
        if exists|k: int| 0 <= k < c && (#[trigger] s.strips[k]).contains(id) {
            let k = choose|k: int| 0 <= k < c && (#[trigger] s.strips[k]).contains(id);
            if k < c - 1 {
                assert(s.strips[k].contains(id));
            }
        }
        if t.contains(id) {
            assert(s.strips[c - 1].contains(id));
        }
    }
}

/// The window list of a monitor holds just the windows of its stack.
pub proof fn lemma_stack_windows(s: StackView, id: WindowId)
    ensures
        stack_windows(s).contains(id) <==> s.contains(id),
{
    lemma_stack_windows_upto(s, s.strips.len() as int, id);
}

/// The windows of a monitor.
pub fn windows_of(stack: &Stack) -> (r: Vec<WindowId>)
    ensures
        r@ == stack_windows(stack@),
{
    let mut out: Vec<WindowId> = Vec::new();
    let mut k: usize = 0;
    while k < stack.strips.len()
        invariant
            k <= stack.strips.len(),
            out@ == stack_windows_upto(stack@, k as int),
        decreases stack.strips.len() - k,
    {
        let strip = &stack.strips[k];
        let ghost done = out@;
        assert(stack@.strips[k as int] == strip@);
        let mut c: usize = 0;
        assert(done + strip_windows_upto(strip@, 0) =~= done);
        while c < strip.columns.len()
            invariant
                k < stack.strips.len(),
                c <= strip.columns.len(),
                out@ == done + strip_windows_upto(strip@, c as int),
            decreases strip.columns.len() - c,
        {
            let tiles = &strip.columns[c].tiles;
            assert(strip@.columns[c as int].tiles == tiles@);
            let ghost part = out@;
            let mut t: usize = 0;
            assert(part + tiles@.take(0) =~= part);
            while t < tiles.len()
                invariant
                    t <= tiles.len(),
                    out@ == part + tiles@.take(t as int),
                decreases tiles.len() - t,
            {
                out.push(tiles[t]);
                proof {
                    assert(part + tiles@.take(t + 1) =~= (part + tiles@.take(t as int)).push(
                        tiles@[t as int],
                    ));
                }
                t += 1;
            }
            proof {
                assert(tiles@.take(t as int) =~= tiles@);
                assert(done + strip_windows_upto(strip@, c + 1) =~= part + tiles@);
            }
            c += 1;
        }
        k += 1;
    }
    out
}

/// `i` is the last monitor that holds `id`.
pub open spec fn is_owner(ms: Seq<MonitorView>, id: WindowId, i: int) -> bool {
    &&& 0 <= i < ms.len()
    &&& ms[i].stack.contains(id)
    &&& forall|j: int| i < j < ms.len() ==> !(#[trigger] ms[j]).stack.contains(id)
}

/// The map says of each managed window which monitor holds it.
pub open spec fn owns(map: Map<u64, usize>, ms: Seq<MonitorView>) -> bool {
    &&& forall|id: WindowId| map.contains_key(#[trigger] id.0) <==> managed(ms, id)
    &&& forall|id: WindowId|
        map.contains_key(#[trigger] id.0) ==> is_owner(ms, id, map[id.0] as int)
}

/// Which monitor holds each managed window.
pub fn own_monitor_map(monitors: &Vec<MonitorState>) -> (map: HashMap<u64, usize>)
    ensures
        owns(map@, monitor_views(monitors@)),
{
    broadcast use vstd::std_specs::hash::group_hash_axioms;

    let ghost ms = monitor_views(monitors@);
    let mut map: HashMap<u64, usize> = HashMap::new();
    let mut i: usize = 0;
    assert(ms.take(0) =~= Seq::empty());
    while i < monitors.len()
        invariant
            i <= monitors.len(),
            ms == monitor_views(monitors@),
            owns(map@, ms.take(i as int)),
        decreases monitors.len() - i,
    {
        let ghost part = ms.take(i as int);
        let ghost next = ms.take(i + 1);
        let ghost before = map@;
        assert(ms[i as int] == monitors@[i as int]@);
        let windows = windows_of(&monitors[i].stack);
        let ghost stack = ms[i as int].stack;
        let mut w: usize = 0;
        while w < windows.len()
            invariant
                w <= windows.len(),
                windows@ == stack_windows(stack),
                forall|h: u64| #[trigger]
                    map@.contains_key(h) <==> before.contains_key(h) || windows@.take(
                        w as int,
                    ).contains(WindowId(h)),
                forall|h: u64| #[trigger]
                    map@.contains_key(h) ==> map@[h] == if windows@.take(w as int).contains(
                        WindowId(h),
                    ) {
                        i
                    } else {
                        before[h]
                    },
            decreases windows.len() - w,
        {
            let id = windows[w];
            map.insert(id.0, i);
            proof {
                assert(windows@.take(w + 1) =~= windows@.take(w as int).push(id));
                assert forall|h: u64| #[trigger] windows@.take(w + 1).contains(WindowId(h))
                    <==> windows@.take(w as int).contains(WindowId(h)) || h == id.0 by {
                    crate::layout_laws::lemma_push_contains(
                        windows@.take(w as int),
                        id,
                        WindowId(h),
                    );
                }
            }
            w += 1;
        }
        proof {
            assert(windows@.take(w as int) =~= windows@);
            assert forall|id: WindowId| map@.contains_key(#[trigger] id.0) <==> managed(next, id) by {
                lemma_stack_windows(stack, id);
                assert(WindowId(id.0) == id);
                assert(before.contains_key(id.0) <==> managed(part, id));
                if managed(part, id) {
                    let k = choose|k: int|
                        0 <= k < part.len() && (#[trigger] part[k]).stack.contains(id);
                    assert(next[k].stack.contains(id));
                }
                if managed(next, id) {
                    let k = choose|k: int|
                        0 <= k < next.len() && (#[trigger] next[k]).stack.contains(id);
                    if k < i {
                        assert(part[k].stack.contains(id));
                    }
                }
                if stack.contains(id) {
                    assert(next[i as int].stack.contains(id));
                }
            }
            assert forall|id: WindowId| map@.contains_key(#[trigger] id.0) implies is_owner(
                next,
                id,
                map@[id.0] as int,
            ) by {
                lemma_stack_windows(stack, id);
                assert(WindowId(id.0) == id);
                if !stack.contains(id) {
                    assert(before.contains_key(id.0));
                    assert(is_owner(part, id, before[id.0] as int));
                    assert(next[before[id.0] as int] == part[before[id.0] as int]);
                    assert forall|j: int|
                        map@[id.0] < j < next.len() implies !(#[trigger] next[j]).stack.contains(
                        id,
                    ) by {
                        if j < i {
                            assert(!part[j].stack.contains(id));
                        }
                    }
                }
            }
        }
        i += 1;
    }
    proof {
        assert(ms.take(i as int) =~= ms);
    }
    map
}

/// Where no window stands on two monitors, the map gives the monitor index.
pub proof fn law_owner_is_monitor(map: Map<u64, usize>, ms: Seq<MonitorView>, id: WindowId)
    requires
        owns(map, ms),
        monitors_sound(ms),
    ensures
        map.contains_key(id.0) <==> monitor_of(ms, id) is Some,
        map.contains_key(id.0) ==> monitor_of(ms, id) == Some(map[id.0] as int),
{
    lemma_monitor_of(ms, id);
    if map.contains_key(id.0) {
        let i = map[id.0] as int;
        assert(is_owner(ms, id, i));
        assert forall|j: int| 0 <= j < i implies !(#[trigger] ms[j]).stack.contains(id) by {
            if ms[j].stack.contains(id) {
                assert(ms[i].stack.contains(id));
            }
        }
        lemma_monitor_of_is(ms, id, i);
    }
}

// ---------------------------------------------------------------------------
// Laws
// ---------------------------------------------------------------------------

/// The desktop covers every monitor.
pub proof fn law_desktop_covers(ms: Seq<MonitorView>, i: int)
    requires
        0 <= i < ms.len(),
    ensures
        desktop(ms).covers(ms[i].monitor),
{
    lemma_bounds_cover(ms, ms.len() as int, i);
}

/// Every rectangle that covers all monitors covers the desktop: it is the least.
pub proof fn law_desktop_least(ms: Seq<MonitorView>, around: RectView)
    requires
        ms.len() > 0,
        forall|i: int| 0 <= i < ms.len() ==> around.covers((#[trigger] ms[i]).monitor),
    ensures
        around.covers(desktop(ms)),
{
    lemma_bounds_least(ms, around, ms.len() as int);
}

proof fn lemma_bounds_least(ms: Seq<MonitorView>, around: RectView, k: int)
    requires
        1 <= k <= ms.len(),
        forall|i: int| 0 <= i < ms.len() ==> around.covers((#[trigger] ms[i]).monitor),
    ensures
        around.covers(bounds_upto(ms, k)),
    decreases k,
{
    if k > 1 {
        lemma_bounds_least(ms, around, k - 1);
        assert(around.covers(ms[k - 1].monitor));
    } else {
        assert(around.covers(ms[0].monitor));
    }
}

proof fn lemma_bounds_cover(ms: Seq<MonitorView>, k: int, i: int)
    requires
        0 <= i < k <= ms.len(),
    ensures
        bounds_upto(ms, k).covers(ms[i].monitor),
    decreases k,
{
    if k > 1 {
        let front = bounds_upto(ms, k - 1);
        law_join_covers(front, ms[k - 1].monitor);
        if i < k - 1 {
            lemma_bounds_cover(ms, k - 1, i);
        }
    }
}

/// Where the tiles of a column leave room for the gaps between them, each lies
/// between the top and the bottom of the work area.
pub proof fn law_tiles_inside_work(s: StripView, work: RectView, gap: int, c: int, i: int)
    requires
        0 <= c < s.columns.len(),
        0 <= i < s.columns[c].tiles.len(),
        0 <= gap,
        (s.columns[c].tiles.len() + 1) * gap <= work.h,
    ensures
        ({
            let r = s.tile_rect(work, gap, c, i);
            &&& work.y + gap <= r.y
            &&& r.h >= 0
            &&& r.bottom() <= work.bottom() - gap
        }),
{
    let n = s.columns[c].tiles.len() as int;
    let inner_h = work.h - 2 * gap;
    let a = inner_h - (n - 1) * gap;
    let t = tile_height(inner_h, n, gap);
    let pitch = t + gap;
    assert((n + 1) * gap == (n - 1) * gap + 2 * gap) by (nonlinear_arith);
    assert(a >= 0);
    assert(t >= 0 && n * t <= a) by (nonlinear_arith)
        requires
            a >= 0,
            n >= 1,
            t == a / n,
    ;
    assert(n * t == (n - 1) * t + t) by (nonlinear_arith);
    assert((n - 1) * pitch == (n - 1) * t + (n - 1) * gap) by (nonlinear_arith)
        requires
            pitch == t + gap,
    ;
    assert(0 <= i * pitch) by (nonlinear_arith)
        requires
            0 <= i,
            0 <= pitch,
    ;
    if i < n - 1 {
        assert((i + 1) * pitch <= (n - 1) * pitch && (i + 1) * pitch == i * pitch + pitch)
            by (nonlinear_arith)
            requires
                i + 1 <= n - 1,
                0 <= pitch,
        ;
    }
}

/// A window that lies between the top and bottom of its work area, moved to
/// stand with another workspace, touches nothing of the desktop.
pub proof fn law_other_workspace_off_desktop(
    p: (WindowId, PlacementView),
    work: RectView,
    monitor: RectView,
    bounds: RectView,
    screen: RectView,
    fullscreen: Option<u64>,
    away: int,
)
    requires
        away != 0,
        bounds.covers(work),
        bounds.covers(screen),
        work.h >= 0,
        bounds.h >= 0,
        ({
            let base = parked(p.1, work, bounds);
            work.y <= base.y && base.bottom() <= work.bottom()
        }),
    ensures
        !target_of(p, work, monitor, bounds, fullscreen, away).1.meets(screen),
{
    let step = workspace_step(work, bounds);
    if away > 0 {
        assert(away * step >= step) by (nonlinear_arith)
            requires
                away >= 1,
                step >= 0,
        ;
    } else {
        assert(away * step <= -step) by (nonlinear_arith)
            requires
                away <= -1,
                step >= 0,
        ;
    }
}

/// A tile outside the viewport touches nothing of the desktop, whatever its
/// workspace, unless it is fullscreen on the workspace on show.
pub proof fn law_offscreen_off_desktop(
    id: WindowId,
    r: RectView,
    work: RectView,
    monitor: RectView,
    bounds: RectView,
    screen: RectView,
    fullscreen: Option<u64>,
    away: int,
)
    requires
        bounds.covers(screen),
        fullscreen != Some(id.0) || away != 0,
    ensures
        !target_of(
            (id, PlacementView::Offscreen(r)),
            work,
            monitor,
            bounds,
            fullscreen,
            away,
        ).1.meets(screen),
{
}

} // verus!
