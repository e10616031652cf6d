//! Following the monitors that are plugged in.

use vstd::prelude::*;

use crate::arith::{in_i32, lesser};
use crate::geometry::{Edges, Margin, effective_work, inside_margin, to_rect};
use crate::layout::{
    Column, ColumnView, Rect, Stack, StackView, StripView, WindowId, column_views, empty_strip,
    packing_fits, strip_views,
};
use crate::layout_laws::{
    held, law_normalize, law_tiles_stay, lemma_same_tiles, lemma_update_apart, same_tiles,
    strips_apart,
};
use crate::monitors::{MonitorState, MonitorView, managed, monitor_views, monitors_sound};

verus! {

/// A plugged-in monitor, measured for tiling.
#[derive(Debug, Clone, Copy, PartialEq, Eq, Structural)]
pub struct Display {
    pub hmonitor: i64,
    pub work: Rect,
    pub monitor: Rect,
    pub viewport_w: i32,
    pub default_width: i32,
}

/// The primary monitor, used where none is reported.
#[derive(Debug, Clone, Copy, PartialEq, Eq, Structural)]
pub struct Primary {
    pub work: Rect,
    pub monitor: Rect,
    pub default_width: i32,
}

// ---------------------------------------------------------------------------
// Model
// ---------------------------------------------------------------------------

/// A stack of one empty workspace.
pub open spec fn fresh_stack() -> StackView {
    StackView { strips: seq![empty_strip()], active: 0 }
}

impl Display {
    /// The monitor with these measures and these workspaces.
    pub open spec fn with_stack(self, stack: StackView) -> MonitorView {
        MonitorView {
            hmonitor: self.hmonitor as int,
            work: self.work@,
            monitor: self.monitor@,
            viewport_w: self.viewport_w as int,
            default_width: self.default_width as int,
            stack,
        }
    }
}

/// `a` stands left of `b`, or above it at the same left edge, or at the same
/// place.
pub open spec fn placed_before(a: MonitorView, b: MonitorView) -> bool {
    a.work.x < b.work.x || (a.work.x == b.work.x && a.work.y <= b.work.y)
}

/// Where `m` goes among monitors ordered by place: behind those that stand
/// before it or at its place.
pub open spec fn place_index(ms: Seq<MonitorView>, m: MonitorView) -> int
    decreases ms.len(),
{
    if ms.len() == 0 {
        0
    } else if placed_before(ms.last(), m) {
        ms.len() as int
    } else {
        place_index(ms.drop_last(), m)
    }
}

/// The monitors ordered left to right, then top to bottom, those at one place
/// in the order they came.
pub open spec fn by_place(ms: Seq<MonitorView>) -> Seq<MonitorView>
    decreases ms.len(),
{
    if ms.len() == 0 {
        Seq::empty()
    } else {
        let front = by_place(ms.drop_last());
        front.insert(place_index(front, ms.last()), ms.last())
    }
}

/// The monitors at the start: those reported, ordered, or else the primary one.
pub open spec fn enumerated(displays: Seq<Display>, primary: Primary, gap: int) -> Seq<MonitorView> {
    if displays.len() == 0 {
        seq![
            MonitorView {
                hmonitor: 0,
                work: primary.work@,
                monitor: primary.monitor@,
                viewport_w: primary.work.w - 2 * gap,
                default_width: primary.default_width as int,
                stack: fresh_stack(),
            },
        ]
    } else {
        by_place(displays.map_values(|d: Display| d.with_stack(fresh_stack())))
    }
}

/// The first display from `k` on with the handle.
pub open spec fn display_from(displays: Seq<Display>, h: int, k: int) -> Option<int>
    decreases displays.len() - k,
{
    if k >= displays.len() {
        None
    } else if displays[k].hmonitor == h {
        Some(k)
    } else {
        display_from(displays, h, k + 1)
    }
}

/// The first display with the handle.
pub open spec fn display_of(displays: Seq<Display>, h: int) -> Option<int> {
    display_from(displays, h, 0)
}

/// The first monitor from `k` on with the handle.
pub open spec fn handle_from(ms: Seq<MonitorView>, h: int, k: int) -> Option<int>
    decreases ms.len() - k,
{
    if k >= ms.len() {
        None
    } else if ms[k].hmonitor == h {
        Some(k)
    } else {
        handle_from(ms, h, k + 1)
    }
}

/// The workspaces laid out anew and scrolled back onto their content.
pub open spec fn relaid(s: StackView, gap: int, viewport_w: int) -> StackView {
    StackView {
        strips: s.strips.map_values(|t: StripView| t.relayout(gap).clamp_offset(viewport_w)),
        ..s
    }
}

/// The monitor measured anew, where it is among the displays, and laid out
/// anew.
pub open spec fn refitted(m: MonitorView, displays: Seq<Display>, gap: int) -> MonitorView {
    let now = match display_of(displays, m.hmonitor) {
        Some(k) => displays[k].with_stack(m.stack),
        None => m,
    };
    MonitorView { stack: relaid(now.stack, gap, now.viewport_w), ..now }
}

/// The first `k` monitors that are still plugged in.
pub open spec fn kept_upto(ms: Seq<MonitorView>, displays: Seq<Display>, k: int) -> Seq<MonitorView>
    decreases k,
{
    if k <= 0 {
        Seq::empty()
    } else if display_of(displays, ms[k - 1].hmonitor) is Some {
        kept_upto(ms, displays, k - 1).push(ms[k - 1])
    } else {
        kept_upto(ms, displays, k - 1)
    }
}

/// The columns of the first `k` workspaces, top to bottom and left to right.
pub open spec fn stack_columns_upto(s: StackView, k: int) -> Seq<ColumnView>
    decreases k,
{
    if k <= 0 {
        Seq::empty()
    } else {
        stack_columns_upto(s, k - 1) + s.strips[k - 1].columns
    }
}

/// The columns of all workspaces.
pub open spec fn stack_columns(s: StackView) -> Seq<ColumnView> {
    stack_columns_upto(s, s.strips.len() as int)
}

/// The columns of those among the first `k` monitors that are gone.
pub open spec fn orphans_upto(ms: Seq<MonitorView>, displays: Seq<Display>, k: int) -> Seq<
    ColumnView,
>
    decreases k,
{
    if k <= 0 {
        Seq::empty()
    } else if display_of(displays, ms[k - 1].hmonitor) is Some {
        orphans_upto(ms, displays, k - 1)
    } else {
        orphans_upto(ms, displays, k - 1) + stack_columns(ms[k - 1].stack)
    }
}

/// The monitor measured anew, if its areas changed.
pub open spec fn remeasured(m: MonitorView, d: Display) -> MonitorView {
    if d.work@ != m.work || d.monitor@ != m.monitor {
        MonitorView {
            work: d.work@,
            monitor: d.monitor@,
            viewport_w: d.viewport_w as int,
            default_width: d.default_width as int,
            ..m
        }
    } else {
        m
    }
}

/// The monitors after the first `k` displays were taken in: a known one is
/// measured anew, a new one is added.
pub open spec fn joined_upto(
    kept: Seq<MonitorView>,
    displays: Seq<Display>,
    k: int,
) -> Seq<MonitorView>
    decreases k,
{
    if k <= 0 {
        kept
    } else {
        let prev = joined_upto(kept, displays, k - 1);
        let d = displays[k - 1];
        match handle_from(kept, d.hmonitor as int, 0) {
            Some(_) => match handle_from(prev, d.hmonitor as int, 0) {
                Some(i) => prev.update(i, remeasured(prev[i], d)),
                None => prev,
            },
            None => prev.push(d.with_stack(fresh_stack())),
        }
    }
}

/// The monitors now plugged in, ordered, before windows move.
pub open spec fn plugged(ms: Seq<MonitorView>, displays: Seq<Display>) -> Seq<MonitorView> {
    by_place(
        joined_upto(
            kept_upto(ms, displays, ms.len() as int),
            displays,
            displays.len() as int,
        ),
    )
}

/// The strip with more columns at its end.
pub open spec fn extended(s: StripView, more: Seq<ColumnView>) -> StripView {
    StripView { columns: s.columns + more, ..s }
}

/// The monitor with orphaned columns at the end of the workspace on show.
pub open spec fn fostering(m: MonitorView, orphans: Seq<ColumnView>) -> MonitorView {
    m.with_shown(extended(m.shown(), orphans))
}

/// The monitors now plugged in, with the columns of those that are gone on the
/// active one.
pub open spec fn hosting(ms: Seq<MonitorView>, active: int, displays: Seq<Display>) -> Seq<
    MonitorView,
> {
    let now = plugged(ms, displays);
    let at = lesser(active, now.len() - 1);
    now.update(at, fostering(now[at], orphans_upto(ms, displays, ms.len() as int)).in_shape())
}

/// The monitors after a change of what is plugged in: the columns of a monitor
/// that is gone move to the active one, and everything is laid out anew.
pub open spec fn rearranged(
    ms: Seq<MonitorView>,
    active: int,
    displays: Seq<Display>,
    gap: int,
) -> Seq<MonitorView> {
    hosting(ms, active, displays).map_values(
        |m: MonitorView| MonitorView { stack: relaid(m.stack, gap, m.viewport_w), ..m },
    )
}

/// Laying out anew and scrolling back fit coordinates for every workspace.
pub open spec fn relay_fits(s: StackView, gap: int, viewport_w: int) -> bool {
    forall|k: int|
        0 <= k < s.strips.len() ==> packing_fits((#[trigger] s.strips[k]).columns, gap)
            && s.strips[k].relayout(gap).clamp_fits(viewport_w)
}

/// The viewport of the monitor, measured anew where it is among the displays.
pub open spec fn viewport_under(m: MonitorView, displays: Seq<Display>) -> int {
    match display_of(displays, m.hmonitor) {
        Some(k) => displays[k].viewport_w as int,
        None => m.viewport_w,
    }
}

/// Laying out anew under the displays stays within coordinates.
pub open spec fn refit_fits(ms: Seq<MonitorView>, displays: Seq<Display>, gap: int) -> bool {
    forall|i: int|
        0 <= i < ms.len() ==> relay_fits(
            (#[trigger] ms[i]).stack,
            gap,
            viewport_under(ms[i], displays),
        )
}

/// Following a change of what is plugged in stays within coordinates.
pub open spec fn rearrange_fits(
    ms: Seq<MonitorView>,
    active: int,
    displays: Seq<Display>,
    gap: int,
) -> bool {
    let now = plugged(ms, displays);
    let after = hosting(ms, active, displays);
    &&& now[lesser(active, now.len() - 1)].has_room()
    &&& forall|i: int|
        0 <= i < after.len() ==> relay_fits((#[trigger] after[i]).stack, gap, after[i].viewport_w)
}

// ---------------------------------------------------------------------------
// Measuring
// ---------------------------------------------------------------------------

/// The measures of a monitor fit coordinates.
pub open spec fn measures_fit(work: Edges, monitor: Edges, margin: Margin, gap: int) -> bool {
    &&& work.rect().fits()
    &&& monitor.rect().fits()
    &&& inside_margin(work.rect(), margin).fits()
    &&& in_i32(2 * gap)
    &&& in_i32(inside_margin(work.rect(), margin).w - 2 * gap)
}

/// The value as a coordinate, where it is one.
fn coordinate(v: i64) -> (r: Option<i32>)
    ensures
        match r {
            Some(c) => c == v,
            None => !in_i32(v as int),
        },
{
    if v >= i32::MIN as i64 && v <= i32::MAX as i64 {
        Some(v as i32)
    } else {
        None
    }
}

/// The extent of a rectangle between edges is a coordinate.
fn edges_fit(e: Edges) -> (r: bool)
    ensures
        r == e.rect().fits(),
{
    let w: i64 = e.right as i64 - e.left as i64;
    let h: i64 = e.bottom as i64 - e.top as i64;
    coordinate(w).is_some() && coordinate(h).is_some()
}

/// The work area inside the margin is in coordinates.
fn margin_fits(work: Rect, margin: Margin) -> (r: bool)
    ensures
        r == inside_margin(work@, margin).fits(),
{
    let x: i64 = work.x as i64 + margin.left as i64;
    let y: i64 = work.y as i64 + margin.top as i64;
    let w: i64 = work.w as i64 - margin.left as i64 - margin.right as i64;
    let h: i64 = work.h as i64 - margin.top as i64 - margin.bottom as i64;
    let w_ok: bool = w <= i32::MAX as i64;
    let h_ok: bool = h <= i32::MAX as i64;
    coordinate(x).is_some() && coordinate(y).is_some() && w_ok && h_ok
}

/// Measures a reported monitor: its work area inside the margin and the
/// viewport inside the gaps. The width of new columns is left at zero. Nothing
/// where the measures leave the coordinates.
pub fn measure_display(
    hmonitor: i64,
    work: Edges,
    monitor: Edges,
    margin: Margin,
    gap: i32,
) -> (r: Option<Display>)
    ensures
        match r {
            Some(d) => {
                &&& measures_fit(work, monitor, margin, gap as int)
                &&& d.hmonitor == hmonitor
                &&& d.work@ == inside_margin(work.rect(), margin)
                &&& d.monitor@ == monitor.rect()
                &&& d.viewport_w == d.work.w - 2 * gap
                &&& d.default_width == 0
            },
            None => !measures_fit(work, monitor, margin, gap as int),
        },
{
    if !edges_fit(work) || !edges_fit(monitor) {
        return None;
    }
    let whole = to_rect(monitor);
    let reported = to_rect(work);
    if !margin_fits(reported, margin) {
        return None;
    }
    let inner = effective_work(reported, margin);
    let gaps: i64 = 2 * gap as i64;
    if coordinate(gaps).is_none() {
        return None;
    }
    match coordinate(inner.w as i64 - gaps) {
        Some(viewport_w) => Some(
            Display { hmonitor, work: inner, monitor: whole, viewport_w, default_width: 0 },
        ),
        None => None,
    }
}

// ---------------------------------------------------------------------------
// Ordering
// ---------------------------------------------------------------------------

/// A place index is a place among the monitors there are.
pub proof fn lemma_place_index(ms: Seq<MonitorView>, m: MonitorView)
    ensures
        0 <= place_index(ms, m) <= ms.len(),
    decreases ms.len(),
{
    if ms.len() > 0 && !placed_before(ms.last(), m) {
        lemma_place_index(ms.drop_last(), m);
    }
}

/// The order by place keeps all monitors.
pub proof fn lemma_by_place_len(ms: Seq<MonitorView>)
    ensures
        by_place(ms).len() == ms.len(),
    decreases ms.len(),
{
    if ms.len() > 0 {
        lemma_by_place_len(ms.drop_last());
        lemma_place_index(by_place(ms.drop_last()), ms.last());
    }
}

/// Orders the monitors left to right, then top to bottom.
fn sort_by_place(monitors: &mut Vec<MonitorState>)
    ensures
        monitor_views(final(monitors)@) == by_place(monitor_views(old(monitors)@)),
{
    let ghost all = monitor_views(monitors@);
    let total: usize = monitors.len();
    let mut out: Vec<MonitorState> = Vec::new();
    let mut done: usize = 0;
    proof {
        assert(all.take(0) =~= Seq::empty());
        assert(monitor_views(out@) =~= Seq::empty());
        assert(all.skip(0) =~= all);
    }
    while done < total
        invariant
            done <= total,
            total == all.len(),
            all == monitor_views(old(monitors)@),
            monitors.len() == total - done,
            monitor_views(monitors@) == all.skip(done as int),
            out.len() == done,
            monitor_views(out@) == by_place(all.take(done as int)),
        decreases total - done,
    {
        let ghost rest = monitor_views(monitors@);
        assert(rest[0] == monitors@[0]@);
        let m = monitors.remove(0);
        assert(m@ == all[done as int]);
        let ghost front = monitor_views(out@);
        let mut k: usize = out.len();
        proof {
            assert(front.take(k as int) =~= front);
        }
        while k > 0
            invariant_except_break
                k <= out.len(),
                front == monitor_views(out@),
                place_index(front, m@) == place_index(front.take(k as int), m@),
            ensures
                k <= out.len(),
                k == place_index(front, m@),
            decreases k,
        {
            let prev = &out[k - 1];
            assert(front[k - 1] == prev@);
            assert(front.take(k as int).last() == prev@);
            assert(front.take(k as int).drop_last() =~= front.take(k - 1));
            if prev.work.x < m.work.x || (prev.work.x == m.work.x && prev.work.y <= m.work.y) {
                break;
            }
            k -= 1;
        }
        let ghost held = m@;
        out.insert(k, m);
        proof {
            assert(all.take(done + 1).drop_last() =~= all.take(done as int));
            assert(all.take(done + 1).last() == held);
            assert(monitor_views(out@) =~= front.insert(k as int, held));
            assert(monitor_views(monitors@) =~= rest.remove(0));
            assert(rest.remove(0) =~= all.skip(done + 1));
        }
        done += 1;
    }
    proof {
        assert(all.take(total as int) =~= all);
    }
    std::mem::swap(monitors, &mut out);
}

/// A monitor with the display's measures and one empty workspace.
fn fresh_monitor(d: Display) -> (m: MonitorState)
    ensures
        m@ == d.with_stack(fresh_stack()),
{
    MonitorState {
        hmonitor: d.hmonitor,
        work: d.work,
        monitor: d.monitor,
        viewport_w: d.viewport_w,
        default_width: d.default_width,
        stack: Stack::default(),
    }
}

/// The monitors at the start, left to right; the primary one where none is
/// reported.
pub fn enumerate_monitors(displays: &Vec<Display>, primary: Primary, gap: i32) -> (r: Vec<
    MonitorState,
>)
    requires
        displays.len() == 0 ==> in_i32(2 * gap) && in_i32(primary.work.w - 2 * gap),
    ensures
        monitor_views(r@) == enumerated(displays@, primary, gap as int),
{
    let mut out: Vec<MonitorState> = Vec::new();
    if displays.len() == 0 {
        out.push(
            MonitorState {
                hmonitor: 0,
                work: primary.work,
                monitor: primary.monitor,
                viewport_w: primary.work.w - 2 * gap,
                default_width: primary.default_width,
                stack: Stack::default(),
            },
        );
        assert(monitor_views(out@) =~= enumerated(displays@, primary, gap as int));
        return out;
    }
    let ghost all = displays@.map_values(|d: Display| d.with_stack(fresh_stack()));
    let mut k: usize = 0;
    while k < displays.len()
        invariant
            k <= displays.len(),
            out.len() == k,
            all == displays@.map_values(|d: Display| d.with_stack(fresh_stack())),
            forall|j: int| 0 <= j < k ==> #[trigger] out@[j]@ == all[j],
        decreases displays.len() - k,
    {
        out.push(fresh_monitor(displays[k]));
        k += 1;
    }
    proof {
        assert(monitor_views(out@) =~= all);
    }
    sort_by_place(&mut out);
    out
}

// ---------------------------------------------------------------------------
// Refitting
// ---------------------------------------------------------------------------

/// Lays out every workspace anew and scrolls it back onto its content.
fn relay_stack(stack: &mut Stack, gap: i32, viewport_w: i32)
    requires
        relay_fits(old(stack)@, gap as int, viewport_w as int),
    ensures
        final(stack)@ == relaid(old(stack)@, gap as int, viewport_w as int),
{
    let ghost before = stack@;
    let ghost want = relaid(before, gap as int, viewport_w as int);
    let mut k: usize = 0;
    while k < stack.strips.len()
        invariant
            k <= stack.strips.len(),
            stack.strips.len() == before.strips.len(),
            stack.active == before.active,
            before == old(stack)@,
            want == relaid(before, gap as int, viewport_w as int),
            relay_fits(before, gap as int, viewport_w as int),
            forall|j: int| 0 <= j < k ==> #[trigger] stack.strips@[j]@ == want.strips[j],
            forall|j: int|
                k <= j < stack.strips.len() ==> #[trigger] stack.strips@[j]@ == before.strips[j],
        decreases stack.strips.len() - k,
    {
        assert(stack.strips@[k as int]@ == before.strips[k as int]);
        stack.strips[k].relayout(gap);
        stack.strips[k].clamp_offset(viewport_w);
        k += 1;
    }
    proof {
        assert(stack@.strips =~= want.strips);
    }
}

/// Every workspace can be laid out anew and scrolled back onto its content.
fn can_relay(stack: &Stack, gap: i32, viewport_w: i32) -> (r: bool)
    ensures
        r == relay_fits(stack@, gap as int, viewport_w as int),
{
    let ghost s = stack@;
    let mut k: usize = 0;
    while k < stack.strips.len()
        invariant
            k <= stack.strips.len(),
            s == stack@,
            forall|j: int|
                0 <= j < k ==> packing_fits((#[trigger] s.strips[j]).columns, gap as int)
                    && s.strips[j].relayout(gap as int).clamp_fits(viewport_w as int),
        decreases stack.strips.len() - k,
    {
        assert(s.strips[k as int] == stack.strips@[k as int]@);
        if !stack.strips[k].can_pack(gap) {
            return false;
        }
        let mut strip = stack.strips[k].copied();
        strip.relayout(gap);
        if !strip.can_clamp(viewport_w) {
            return false;
        }
        k += 1;
    }
    true
}

/// The first display with the handle.
fn find_display(displays: &Vec<Display>, h: i64) -> (r: Option<usize>)
    ensures
        match r {
            Some(k) => k < displays.len() && display_of(displays@, h as int) == Some(k as int),
            None => display_of(displays@, h as int) is None,
        },
{
    let mut k: usize = 0;
    while k < displays.len()
        invariant
            k <= displays.len(),
            display_of(displays@, h as int) == display_from(displays@, h as int, k as int),
        decreases displays.len() - k,
    {
        if displays[k].hmonitor == h {
            return Some(k);
        }
        k += 1;
    }
    None
}

proof fn lemma_display_from(displays: Seq<Display>, h: int, k: int)
    requires
        0 <= k,
    ensures
        display_from(displays, h, k) matches Some(j) ==> k <= j < displays.len()
            && displays[j].hmonitor == h,
    decreases displays.len() - k,
{
    if k < displays.len() && displays[k].hmonitor != h {
        lemma_display_from(displays, h, k + 1);
    }
}

/// Tests whether laying out anew under the displays stays within coordinates.
pub fn can_refit(monitors: &Vec<MonitorState>, displays: &Vec<Display>, gap: i32) -> (r: bool)
    ensures
        r == refit_fits(monitor_views(monitors@), displays@, gap as int),
{
    let ghost ms = monitor_views(monitors@);
    let mut i: usize = 0;
    while i < monitors.len()
        invariant
            i <= monitors.len(),
            ms == monitor_views(monitors@),
            forall|j: int|
                0 <= j < i ==> relay_fits(
                    (#[trigger] ms[j]).stack,
                    gap as int,
                    viewport_under(ms[j], displays@),
                ),
        decreases monitors.len() - i,
    {
        assert(ms[i as int] == monitors@[i as int]@);
        let viewport_w: i32 = match find_display(displays, monitors[i].hmonitor) {
            Some(k) => displays[k].viewport_w,
            None => monitors[i].viewport_w,
        };
        if !can_relay(&monitors[i].stack, gap, viewport_w) {
            return false;
        }
        i += 1;
    }
    true
}

/// Measures the monitors anew that are among the displays, and lays out every
/// workspace anew: what a changed configuration asks for.
pub fn refit_monitors(monitors: &mut Vec<MonitorState>, displays: &Vec<Display>, gap: i32)
    requires
        refit_fits(monitor_views(old(monitors)@), displays@, gap as int),
    ensures
        monitor_views(final(monitors)@) == monitor_views(old(monitors)@).map_values(
            |m: MonitorView| refitted(m, displays@, gap as int),
        ),
{
    let ghost before = monitor_views(monitors@);
    let mut i: usize = 0;
    while i < monitors.len()
        invariant
            i <= monitors.len(),
            monitors.len() == before.len(),
            before == monitor_views(old(monitors)@),
            refit_fits(before, displays@, gap as int),
            forall|j: int|
                0 <= j < i ==> #[trigger] monitors@[j]@ == refitted(
                    before[j],
                    displays@,
                    gap as int,
                ),
            forall|j: int| i <= j < monitors.len() ==> #[trigger] monitors@[j]@ == before[j],
        decreases monitors.len() - i,
    {
        assert(monitors@[i as int]@ == before[i as int]);
        assert(relay_fits(
            before[i as int].stack,
            gap as int,
            viewport_under(before[i as int], displays@),
        ));
        let h: i64 = monitors[i].hmonitor;
        if let Some(k) = find_display(displays, h) {
            let d = displays[k];
            proof {
                lemma_display_from(displays@, h as int, 0);
            }
            monitors[i].work = d.work;
            monitors[i].monitor = d.monitor;
            monitors[i].viewport_w = d.viewport_w;
            monitors[i].default_width = d.default_width;
        }
        let viewport_w: i32 = monitors[i].viewport_w;
        relay_stack(&mut monitors[i].stack, gap, viewport_w);
        i += 1;
    }
    proof {
        assert(monitor_views(monitors@) =~= before.map_values(
            |m: MonitorView| refitted(m, displays@, gap as int),
        ));
    }
}

// ---------------------------------------------------------------------------
// Windows across monitors
// ---------------------------------------------------------------------------

/// No window stands on two monitors.
pub open spec fn monitors_apart(ms: Seq<MonitorView>) -> bool {
    forall|i: int, j: int, id: WindowId|
        0 <= i < ms.len() && 0 <= j < ms.len() && #[trigger] ms[i].stack.contains(id)
            && #[trigger] ms[j].stack.contains(id) ==> i == j
}

/// Every stack is sound.
pub open spec fn stacks_sound(ms: Seq<MonitorView>) -> bool {
    forall|i: int| 0 <= i < ms.len() ==> (#[trigger] ms[i]).stack.sound()
}

/// A monitor put among others with none of their windows adds just its own.
pub proof fn lemma_insert_monitor(ms: Seq<MonitorView>, k: int, m: MonitorView)
    requires
        0 <= k <= ms.len(),
        forall|id: WindowId| #[trigger] m.stack.contains(id) ==> !managed(ms, id),
    ensures
        monitors_apart(ms) ==> monitors_apart(ms.insert(k, m)),
        forall|id: WindowId| #[trigger]
            managed(ms.insert(k, m), id) <==> managed(ms, id) || m.stack.contains(id),
{
    let next = ms.insert(k, m);
    let back = |i: int|
        if i < k {
            i
        } else {
            i - 1
        };
    assert forall|i: int| 0 <= i < next.len() && i != k implies #[trigger] next[i] == ms[back(i)]
        && 0 <= back(i) < ms.len() by {}
    if monitors_apart(ms) {
        assert forall|i: int, j: int, id: WindowId|
            0 <= i < next.len() && 0 <= j < next.len() && #[trigger] next[i].stack.contains(id)
                && #[trigger] next[j].stack.contains(id) implies i == j by {
            if i != k && j != k {
                assert(ms[back(i)].stack.contains(id) && ms[back(j)].stack.contains(id));
            } else if i != k {
                assert(ms[back(i)].stack.contains(id));
                assert(managed(ms, id));
            } else if j != k {
                assert(ms[back(j)].stack.contains(id));
                assert(managed(ms, id));
            }
        }
    }
    assert forall|id: WindowId| #[trigger] managed(next, id) <==> managed(ms, id)
        || m.stack.contains(id) by {
        if managed(next, id) {
            let i = choose|i: int| 0 <= i < next.len() && (#[trigger] next[i]).stack.contains(id);
            if i != k {
                assert(ms[back(i)].stack.contains(id));
            }
        }
        if managed(ms, id) {
            let i = choose|i: int| 0 <= i < ms.len() && (#[trigger] ms[i]).stack.contains(id);
            if i < k {
                assert(next[i].stack.contains(id));
            } else {
                assert(next[i + 1].stack.contains(id));
            }
        }
        if m.stack.contains(id) {
            assert(next[k].stack.contains(id));
        }
    }
}

/// Ordering by place keeps every monitor, and with them the windows.
pub proof fn lemma_by_place(ms: Seq<MonitorView>)
    ensures
        by_place(ms).len() == ms.len(),
        by_place(ms).to_multiset() == ms.to_multiset(),
        forall|i: int| 0 <= i < ms.len() ==> ms.contains(#[trigger] by_place(ms)[i]),
        monitors_apart(ms) ==> monitors_apart(by_place(ms)),
        monitors_apart(ms) ==> (forall|id: WindowId| #[trigger]
            managed(by_place(ms), id) == managed(ms, id)),
    decreases ms.len(),
{
    if ms.len() == 0 {
        assert(by_place(ms) =~= ms);
    } else {
        let rest = ms.drop_last();
        let last = ms.last();
        lemma_by_place(rest);
        let front = by_place(rest);
        let k = place_index(front, last);
        lemma_place_index(front, last);
        let out = by_place(ms);
        assert(out == front.insert(k, last));
        assert(ms =~= rest.push(last));
        broadcast use vstd::seq_lib::group_to_multiset_ensures;

        assert(out.to_multiset() =~= front.to_multiset().insert(last));
        assert(rest.push(last).to_multiset() =~= rest.to_multiset().insert(last));
        assert forall|i: int| 0 <= i < ms.len() implies ms.contains(#[trigger] out[i]) by {
            if i == k {
                assert(ms[ms.len() - 1] == last);
            } else {
                let j = if i < k {
                    i
                } else {
                    i - 1
                };
                assert(out[i] == front[j]);
                let p = rest.index_of(front[j]);
                assert(ms[p] == front[j]);
            }
        }
        if monitors_apart(ms) {
            assert forall|i: int, j: int, id: WindowId|
                0 <= i < rest.len() && 0 <= j < rest.len() && #[trigger] rest[i].stack.contains(id)
                    && #[trigger] rest[j].stack.contains(id) implies i == j by {
                assert(ms[i].stack.contains(id) && ms[j].stack.contains(id));
            }
            assert forall|id: WindowId| #[trigger] last.stack.contains(id) implies !managed(
                rest,
                id,
            ) by {
                if managed(rest, id) {
                    let i = choose|i: int|
                        0 <= i < rest.len() && (#[trigger] rest[i]).stack.contains(id);
                    assert(ms[i].stack.contains(id));
                    assert(ms[ms.len() - 1].stack.contains(id));
                }
            }
            assert forall|id: WindowId| #[trigger] last.stack.contains(id) implies !managed(
                front,
                id,
            ) by {
                assert(managed(front, id) == managed(rest, id));
            }
            lemma_insert_monitor(front, k, last);
            lemma_insert_monitor(rest, rest.len() as int, last);
            assert(rest.insert(rest.len() as int, last) =~= ms);
            assert forall|id: WindowId| #[trigger] managed(out, id) == managed(ms, id) by {
                assert(managed(front, id) == managed(rest, id));
            }
        }
    }
}

/// The monitors stand in order.
pub open spec fn in_place_order(ms: Seq<MonitorView>) -> bool {
    forall|i: int, j: int|
        0 <= i < j < ms.len() ==> placed_before(#[trigger] ms[i], #[trigger] ms[j])
}

/// Ordering by place puts monitors left to right, then top to bottom, and does
/// nothing to monitors that stand so.
pub proof fn law_by_place_orders(ms: Seq<MonitorView>)
    ensures
        in_place_order(by_place(ms)),
        by_place(ms).to_multiset() == ms.to_multiset(),
        in_place_order(ms) ==> by_place(ms) == ms,
    decreases ms.len(),
{
    lemma_by_place(ms);
    if ms.len() > 0 {
        let rest = ms.drop_last();
        let last = ms.last();
        law_by_place_orders(rest);
        let front = by_place(rest);
        lemma_place_splits(front, last);
        let k = place_index(front, last);
        let out = by_place(ms);
        assert forall|i: int, j: int| 0 <= i < j < out.len() implies placed_before(
            #[trigger] out[i],
            #[trigger] out[j],
        ) by {
            let i0 = if i < k {
                i
            } else {
                i - 1
            };
            let j0 = if j < k {
                j
            } else {
                j - 1
            };
            if i != k && j != k {
                assert(placed_before(front[i0], front[j0]));
            } else if j == k {
                assert(placed_before(front[i0], last));
            } else {
                assert(!placed_before(front[j0], last));
            }
        }
        if in_place_order(ms) {
            assert forall|i: int, j: int| 0 <= i < j < rest.len() implies placed_before(
                #[trigger] rest[i],
                #[trigger] rest[j],
            ) by {
                assert(placed_before(ms[i], ms[j]));
            }
            if rest.len() > 0 {
                assert(placed_before(ms[ms.len() - 2], ms[ms.len() - 1]));
                assert(front.last() == ms[ms.len() - 2]);
            }
            assert(out =~= ms);
        }
    } else {
        assert(by_place(ms) =~= ms);
    }
}

/// In ordered monitors the place index parts those before from those behind.
proof fn lemma_place_splits(ms: Seq<MonitorView>, m: MonitorView)
    requires
        in_place_order(ms),
    ensures
        0 <= place_index(ms, m) <= ms.len(),
        forall|i: int| 0 <= i < place_index(ms, m) ==> placed_before(#[trigger] ms[i], m),
        forall|i: int| place_index(ms, m) <= i < ms.len() ==> !placed_before(#[trigger] ms[i], m),
    decreases ms.len(),
{
    if ms.len() > 0 {
        if placed_before(ms.last(), m) {
            assert forall|i: int| 0 <= i < ms.len() implies placed_before(#[trigger] ms[i], m) by {
                if i < ms.len() - 1 {
                    assert(placed_before(ms[i], ms[ms.len() - 1]));
                }
            }
        } else {
            let rest = ms.drop_last();
            assert forall|i: int, j: int| 0 <= i < j < rest.len() implies placed_before(
                #[trigger] rest[i],
                #[trigger] rest[j],
            ) by {
                assert(placed_before(ms[i], ms[j]));
            }
            lemma_place_splits(rest, m);
            assert forall|i: int| 0 <= i < place_index(ms, m) implies placed_before(
                #[trigger] ms[i],
                m,
            ) by {
                assert(placed_before(rest[i], m));
            }
            assert forall|i: int| place_index(ms, m) <= i < ms.len() implies !placed_before(
                #[trigger] ms[i],
                m,
            ) by {
                if i < rest.len() {
                    assert(!placed_before(rest[i], m));
                }
            }
        }
    }
}

// ---------------------------------------------------------------------------
// Columns of a list
// ---------------------------------------------------------------------------

/// A strip of just these columns.
pub open spec fn loose(columns: Seq<ColumnView>) -> StripView {
    StripView { columns, ..empty_strip() }
}

/// Columns joined that have no window in common hold each window once.
proof fn lemma_extended(s: StripView, more: Seq<ColumnView>)
    ensures
        forall|id: WindowId| #[trigger]
            extended(s, more).contains(id) <==> s.contains(id) || loose(more).contains(id),
        s.sound() && loose(more).sound() && (forall|id: WindowId| #[trigger]
            loose(more).contains(id) ==> !s.contains(id)) ==> extended(s, more).sound(),
{
    let t = extended(s, more);
    let n = s.columns.len() as int;
    assert forall|id: WindowId| #[trigger] t.contains(id) <==> s.contains(id) || loose(
        more,
    ).contains(id) by {
        if t.contains(id) {
            let c = choose|c: int|
                0 <= c < t.columns.len() && (#[trigger] t.columns[c]).tiles.contains(id);
            if c < n {
                assert(s.columns[c].tiles.contains(id));
            } else {
                assert(loose(more).columns[c - n].tiles.contains(id));
            }
        }
        if s.contains(id) {
            let c = choose|c: int|
                0 <= c < s.columns.len() && (#[trigger] s.columns[c]).tiles.contains(id);
            assert(t.columns[c].tiles.contains(id));
        }
        if loose(more).contains(id) {
            let c = choose|c: int|
                0 <= c < more.len() && (#[trigger] loose(more).columns[c]).tiles.contains(id);
            assert(t.columns[n + c].tiles.contains(id));
        }
    }
    if s.sound() && loose(more).sound() && (forall|id: WindowId| #[trigger]
        loose(more).contains(id) ==> !s.contains(id)) {
        assert forall|c: int| 0 <= c < t.columns.len() implies (#[trigger] t.columns[c]).tiles.len()
            > 0 && t.columns[c].tiles.no_duplicates() by {
            if c < n {
                assert(s.columns[c].tiles.len() > 0);
            } else {
                assert(loose(more).columns[c - n].tiles.len() > 0);
            }
        }
        assert forall|c: int, d: int, id: WindowId|
            0 <= c < t.columns.len() && 0 <= d < t.columns.len()
                && #[trigger] t.columns[c].tiles.contains(id)
                && #[trigger] t.columns[d].tiles.contains(id) implies c == d by {
            if c < n {
                assert(s.columns[c].tiles.contains(id));
                assert(s.contains(id));
            } else {
                assert(loose(more).columns[c - n].tiles.contains(id));
                assert(loose(more).contains(id));
            }
            if d < n {
                assert(s.columns[d].tiles.contains(id));
            } else {
                assert(loose(more).columns[d - n].tiles.contains(id));
                assert(loose(more).contains(id));
            }
        }
    }
}

/// The columns of workspaces hold their windows, each once.
proof fn lemma_stack_columns(s: StackView, k: int)
    requires
        s.strips_sound(),
        s.apart(),
        0 <= k <= s.strips.len(),
    ensures
        loose(stack_columns_upto(s, k)).sound(),
        forall|id: WindowId| #[trigger]
            loose(stack_columns_upto(s, k)).contains(id) <==> exists|j: int|
                0 <= j < k && (#[trigger] s.strips[j]).contains(id),
    decreases k,
{
    let all = loose(stack_columns_upto(s, k));
    if k > 0 {
        let front = loose(stack_columns_upto(s, k - 1));
        let t = s.strips[k - 1];
        let more = loose(t.columns);
        assert(t.sound());
        lemma_stack_columns(s, k - 1);
        lemma_same_tiles(more, t);
        lemma_extended(front, t.columns);
        assert(all == extended(front, t.columns));
        assert forall|id: WindowId| #[trigger] more.contains(id) implies !front.contains(id) by {
            assert(t.contains(id));
            if front.contains(id) {
                let j = choose|j: int| 0 <= j < k - 1 && (#[trigger] s.strips[j]).contains(id);
                assert(s.strips[j].contains(id) && s.strips[k - 1].contains(id));
            }
        }
        assert forall|id: WindowId| #[trigger] all.contains(id) <==> exists|j: int|
            0 <= j < k && (#[trigger] s.strips[j]).contains(id) by {
            assert(more.contains(id) == t.contains(id));
            if front.contains(id) {
                let j = choose|j: int| 0 <= j < k - 1 && (#[trigger] s.strips[j]).contains(id);
                assert(s.strips[j].contains(id));
            }
            if t.contains(id) {
                assert(s.strips[k - 1].contains(id));
            }
            if exists|j: int| 0 <= j < k && (#[trigger] s.strips[j]).contains(id) {
                let j = choose|j: int| 0 <= j < k && (#[trigger] s.strips[j]).contains(id);
                if j < k - 1 {
                    assert(front.contains(id));
                }
            }
        }
    }
}

/// Orphans are the columns of monitors that are gone: they hold the windows of
/// those, each once.
proof fn lemma_orphans(ms: Seq<MonitorView>, displays: Seq<Display>, k: int)
    requires
        monitors_sound(ms),
        0 <= k <= ms.len(),
    ensures
        loose(orphans_upto(ms, displays, k)).sound(),
        forall|id: WindowId| #[trigger]
            loose(orphans_upto(ms, displays, k)).contains(id) <==> exists|i: int|
                0 <= i < k && display_of(displays, (#[trigger] ms[i]).hmonitor) is None
                    && ms[i].stack.contains(id),
    decreases k,
{
    if k > 0 {
        lemma_orphans(ms, displays, k - 1);
        let front = loose(orphans_upto(ms, displays, k - 1));
        let all = loose(orphans_upto(ms, displays, k));
        let s = ms[k - 1].stack;
        let cols = stack_columns(s);
        assert(s.sound());
        lemma_stack_columns(s, s.strips.len() as int);
        assert forall|id: WindowId| #[trigger] loose(cols).contains(id) == s.contains(id) by {
            if s.contains(id) {
                let j = choose|j: int|
                    0 <= j < s.strips.len() && (#[trigger] s.strips[j]).contains(id);
                assert(s.strips[j].contains(id));
            }
        }
        let gone = display_of(displays, ms[k - 1].hmonitor) is None;
        assert forall|id: WindowId| #[trigger] loose(cols).contains(id) implies !front.contains(
            id,
        ) by {
            if front.contains(id) {
                let i = choose|i: int|
                    0 <= i < k - 1 && display_of(displays, (#[trigger] ms[i]).hmonitor) is None
                        && ms[i].stack.contains(id);
                assert(ms[i].stack.contains(id) && ms[k - 1].stack.contains(id));
            }
        }
        lemma_extended(front, cols);
        if gone {
            assert(all == extended(front, cols));
        }
        assert forall|id: WindowId| #[trigger] all.contains(id) <==> exists|i: int|
            0 <= i < k && display_of(displays, (#[trigger] ms[i]).hmonitor) is None
                && ms[i].stack.contains(id) by {
            assert(loose(cols).contains(id) == s.contains(id));
            if front.contains(id) {
                let i = choose|i: int|
                    0 <= i < k - 1 && display_of(displays, (#[trigger] ms[i]).hmonitor) is None
                        && ms[i].stack.contains(id);
                assert(ms[i].stack.contains(id));
            }
            if gone && s.contains(id) {
                assert(display_of(displays, ms[k - 1].hmonitor) is None);
            }
            if exists|i: int|
                0 <= i < k && display_of(displays, (#[trigger] ms[i]).hmonitor) is None
                    && ms[i].stack.contains(id) {
                let i = choose|i: int|
                    0 <= i < k && display_of(displays, (#[trigger] ms[i]).hmonitor) is None
                        && ms[i].stack.contains(id);
                if i < k - 1 {
                    assert(ms[i].stack.contains(id));
                    assert(front.contains(id));
                }
            }
        }
    }
}

/// Kept monitors hold the windows of those still plugged in.
proof fn lemma_kept(ms: Seq<MonitorView>, displays: Seq<Display>, k: int)
    requires
        monitors_sound(ms),
        0 <= k <= ms.len(),
    ensures
        kept_upto(ms, displays, k).len() <= k,
        monitors_apart(kept_upto(ms, displays, k)),
        forall|i: int|
            0 <= i < kept_upto(ms, displays, k).len() ==> ms.contains(
                #[trigger] kept_upto(ms, displays, k)[i],
            ),
        forall|id: WindowId| #[trigger]
            managed(kept_upto(ms, displays, k), id) <==> exists|i: int|
                0 <= i < k && display_of(displays, (#[trigger] ms[i]).hmonitor) is Some
                    && ms[i].stack.contains(id),
    decreases k,
{
    if k > 0 {
        lemma_kept(ms, displays, k - 1);
        let front = kept_upto(ms, displays, k - 1);
        let all = kept_upto(ms, displays, k);
        let m = ms[k - 1];
        let stays = display_of(displays, m.hmonitor) is Some;
        assert forall|id: WindowId| #[trigger] m.stack.contains(id) implies !managed(front, id) by {
            if managed(front, id) {
                let i = choose|i: int|
                    0 <= i < k - 1 && display_of(displays, (#[trigger] ms[i]).hmonitor) is Some
                        && ms[i].stack.contains(id);
                assert(ms[i].stack.contains(id) && ms[k - 1].stack.contains(id));
            }
        }
        lemma_insert_monitor(front, front.len() as int, m);
        assert(front.insert(front.len() as int, m) =~= front.push(m));
        assert forall|i: int| 0 <= i < all.len() implies ms.contains(#[trigger] all[i]) by {
            if i < front.len() {
                assert(all[i] == front[i]);
            } else {
                assert(ms[k - 1] == all[i]);
            }
        }
        assert forall|id: WindowId| #[trigger] managed(all, id) <==> exists|i: int|
            0 <= i < k && display_of(displays, (#[trigger] ms[i]).hmonitor) is Some
                && ms[i].stack.contains(id) by {
            if managed(front, id) {
                let i = choose|i: int|
                    0 <= i < k - 1 && display_of(displays, (#[trigger] ms[i]).hmonitor) is Some
                        && ms[i].stack.contains(id);
                assert(ms[i].stack.contains(id));
            }
            if stays && m.stack.contains(id) {
                assert(display_of(displays, ms[k - 1].hmonitor) is Some);
            }
            if exists|i: int|
                0 <= i < k && display_of(displays, (#[trigger] ms[i]).hmonitor) is Some
                    && ms[i].stack.contains(id) {
                let i = choose|i: int|
                    0 <= i < k && display_of(displays, (#[trigger] ms[i]).hmonitor) is Some
                        && ms[i].stack.contains(id);
                if i < k - 1 {
                    assert(ms[i].stack.contains(id));
                    assert(managed(front, id));
                }
            }
        }
    }
}

/// Monitors with the same stacks hold the same windows.
pub proof fn lemma_same_stacks(a: Seq<MonitorView>, b: Seq<MonitorView>)
    requires
        a.len() == b.len(),
        forall|i: int| 0 <= i < a.len() ==> (#[trigger] a[i]).stack == b[i].stack,
    ensures
        monitors_apart(a) ==> monitors_apart(b),
        forall|id: WindowId| #[trigger] managed(b, id) == managed(a, id),
{
    if monitors_apart(a) {
        assert forall|i: int, j: int, id: WindowId|
            0 <= i < b.len() && 0 <= j < b.len() && #[trigger] b[i].stack.contains(id)
                && #[trigger] b[j].stack.contains(id) implies i == j by {
            assert(a[i].stack.contains(id) && a[j].stack.contains(id));
        }
    }
    assert forall|id: WindowId| #[trigger] managed(b, id) == managed(a, id) by {
        if managed(a, id) {
            let i = choose|i: int| 0 <= i < a.len() && (#[trigger] a[i]).stack.contains(id);
            assert(b[i].stack.contains(id));
        }
        if managed(b, id) {
            let i = choose|i: int| 0 <= i < b.len() && (#[trigger] b[i]).stack.contains(id);
            assert(a[i].stack.contains(id));
        }
    }
}

pub proof fn lemma_handle_from(ms: Seq<MonitorView>, h: int, k: int)
    requires
        0 <= k,
    ensures
        handle_from(ms, h, k) matches Some(j) ==> k <= j < ms.len() && ms[j].hmonitor == h,
    decreases ms.len() - k,
{
    if k < ms.len() && ms[k].hmonitor != h {
        lemma_handle_from(ms, h, k + 1);
    }
}

/// A stack of one empty workspace holds nothing and is sound.
pub proof fn lemma_fresh_stack()
    ensures
        fresh_stack().sound(),
        forall|id: WindowId| !#[trigger] fresh_stack().contains(id),
{
    let s = fresh_stack();
    assert(s.strips[0] == empty_strip());
    assert forall|id: WindowId| !#[trigger] s.contains(id) by {
        if s.contains(id) {
            let k = choose|k: int| 0 <= k < s.strips.len() && (#[trigger] s.strips[k]).contains(id);
        }
    }
    assert(s.strips.last() == s.strips[0]);
}

/// Taking displays in keeps the windows and adds monitors without any.
proof fn lemma_joined_windows(kept: Seq<MonitorView>, displays: Seq<Display>, k: int)
    requires
        monitors_apart(kept),
        stacks_sound(kept),
        0 <= k <= displays.len(),
    ensures
        ({
            let now = joined_upto(kept, displays, k);
            &&& monitors_apart(now)
            &&& stacks_sound(now)
            &&& forall|id: WindowId| #[trigger] managed(now, id) == managed(kept, id)
            &&& kept.len() <= now.len()
            &&& k > 0 ==> now.len() > 0
        }),
    decreases k,
{
    if k > 0 {
        lemma_joined_windows(kept, displays, k - 1);
        let prev = joined_upto(kept, displays, k - 1);
        let now = joined_upto(kept, displays, k);
        let d = displays[k - 1];
        lemma_handle_from(kept, d.hmonitor as int, 0);
        lemma_handle_from(prev, d.hmonitor as int, 0);
        if handle_from(kept, d.hmonitor as int, 0) is Some {
            if let Some(i) = handle_from(prev, d.hmonitor as int, 0) {
                assert(prev[i].stack.sound());
                lemma_same_stacks(prev, now);
                assert forall|j: int| 0 <= j < now.len() implies (#[trigger] now[j]).stack.sound() by {
                    assert(prev[j].stack.sound());
                }
                assert forall|id: WindowId| #[trigger] managed(now, id) == managed(kept, id) by {
                    assert(managed(prev, id) == managed(kept, id));
                }
            }
        } else {
            lemma_fresh_stack();
            let m = d.with_stack(fresh_stack());
            assert forall|id: WindowId| #[trigger] m.stack.contains(id) implies !managed(
                prev,
                id,
            ) by {
                assert(!fresh_stack().contains(id));
            }
            lemma_insert_monitor(prev, prev.len() as int, m);
            assert(prev.insert(prev.len() as int, m) =~= now);
            assert forall|j: int| 0 <= j < now.len() implies (#[trigger] now[j]).stack.sound() by {
                if j < prev.len() {
                    assert(prev[j].stack.sound());
                }
            }
            assert forall|id: WindowId| #[trigger] managed(now, id) == managed(kept, id) by {
                assert(managed(prev, id) == managed(kept, id));
                assert(!fresh_stack().contains(id));
            }
        }
    }
}

/// The monitors now plugged in hold the windows of those that stayed.
pub proof fn lemma_plugged_windows(ms: Seq<MonitorView>, displays: Seq<Display>)
    requires
        monitors_sound(ms),
        displays.len() > 0,
    ensures
        ({
            let now = plugged(ms, displays);
            let orphans = loose(orphans_upto(ms, displays, ms.len() as int));
            &&& now.len() > 0
            &&& monitors_apart(now)
            &&& stacks_sound(now)
            &&& orphans.sound()
            &&& forall|id: WindowId| #[trigger]
                managed(ms, id) <==> managed(now, id) || orphans.contains(id)
            &&& forall|id: WindowId| #[trigger] orphans.contains(id) ==> !managed(now, id)
        }),
{
    let n = ms.len() as int;
    let kept = kept_upto(ms, displays, n);
    let joined = joined_upto(kept, displays, displays.len() as int);
    let now = plugged(ms, displays);
    let orphans = loose(orphans_upto(ms, displays, n));
    lemma_kept(ms, displays, n);
    lemma_orphans(ms, displays, n);
    assert forall|i: int| 0 <= i < kept.len() implies (#[trigger] kept[i]).stack.sound() by {
        let j = ms.index_of(kept[i]);
        assert(ms[j].stack.sound());
    }
    lemma_joined_windows(kept, displays, displays.len() as int);
    lemma_by_place(joined);
    assert forall|i: int| 0 <= i < now.len() implies (#[trigger] now[i]).stack.sound() by {
        let j = joined.index_of(now[i]);
        assert(joined[j].stack.sound());
    }
    assert forall|id: WindowId| #[trigger] managed(ms, id) <==> managed(now, id)
        || orphans.contains(id) by {
        assert(managed(now, id) == managed(joined, id));
        assert(managed(joined, id) == managed(kept, id));
        if managed(ms, id) {
            let i = choose|i: int| 0 <= i < ms.len() && (#[trigger] ms[i]).stack.contains(id);
            assert(ms[i].stack.contains(id));
            if display_of(displays, ms[i].hmonitor) is Some {
                assert(managed(kept, id));
            } else {
                assert(orphans.contains(id));
            }
        }
        if managed(kept, id) {
            let i = choose|i: int|
                0 <= i < n && display_of(displays, (#[trigger] ms[i]).hmonitor) is Some
                    && ms[i].stack.contains(id);
            assert(ms[i].stack.contains(id));
        }
        if orphans.contains(id) {
            let i = choose|i: int|
                0 <= i < n && display_of(displays, (#[trigger] ms[i]).hmonitor) is None
                    && ms[i].stack.contains(id);
            assert(ms[i].stack.contains(id));
        }
    }
    assert forall|id: WindowId| #[trigger] orphans.contains(id) implies !managed(now, id) by {
        assert(managed(now, id) == managed(joined, id));
        assert(managed(joined, id) == managed(kept, id));
        if managed(kept, id) {
            let i = choose|i: int|
                0 <= i < n && display_of(displays, (#[trigger] ms[i]).hmonitor) is None
                    && ms[i].stack.contains(id);
            let j = choose|j: int|
                0 <= j < n && display_of(displays, (#[trigger] ms[j]).hmonitor) is Some
                    && ms[j].stack.contains(id);
            assert(ms[i].stack.contains(id) && ms[j].stack.contains(id));
        }
    }
}

/// Fostering adds just the windows of the orphaned columns.
proof fn lemma_fostering_windows(m: MonitorView, orphans: Seq<ColumnView>)
    requires
        m.stack.sound(),
        loose(orphans).sound(),
        forall|id: WindowId| #[trigger] loose(orphans).contains(id) ==> !m.stack.contains(id),
    ensures
        ({
            let h = fostering(m, orphans);
            &&& h.stack.strips_sound()
            &&& h.stack.apart()
            &&& forall|id: WindowId| #[trigger]
                h.stack.contains(id) <==> m.stack.contains(id) || loose(orphans).contains(id)
        }),
{
    let h = fostering(m, orphans);
    let a = m.stack.active;
    let shown = m.shown();
    let grown = extended(shown, orphans);
    lemma_extended(shown, orphans);
    assert(m.stack.strips[a].sound());
    assert forall|id: WindowId| #[trigger] loose(orphans).contains(id) implies !shown.contains(
        id,
    ) by {
        if shown.contains(id) {
            assert(m.stack.strips[a].contains(id));
        }
    }
    assert(strips_apart(m.stack.strips));
    assert forall|x: WindowId| #[trigger] grown.contains(x) implies m.stack.strips[a].contains(x)
        || !held(m.stack.strips, x) by {
        assert(m.stack.contains(x) == held(m.stack.strips, x));
    }
    lemma_update_apart(m.stack.strips, a, grown);
    assert forall|x: WindowId| #[trigger] h.stack.contains(x) <==> m.stack.contains(x) || loose(
        orphans,
    ).contains(x) by {
        assert(h.stack.contains(x) == held(h.stack.strips, x));
        assert(m.stack.contains(x) == held(m.stack.strips, x));
        if shown.contains(x) {
            assert(m.stack.strips[a].contains(x));
        }
    }
    assert forall|j: int| 0 <= j < h.stack.strips.len() implies (
    #[trigger] h.stack.strips[j]).sound() by {
        assert(m.stack.strips[j].sound());
    }
    assert(h.stack.apart());
}

/// Laying workspaces out anew moves no tile.
pub proof fn lemma_relaid(s: StackView, gap: int, viewport_w: int)
    ensures
        s.wf() ==> relaid(s, gap, viewport_w).wf(),
        s.strips_sound() ==> relaid(s, gap, viewport_w).strips_sound(),
        s.apart() ==> relaid(s, gap, viewport_w).apart(),
        forall|id: WindowId| #[trigger]
            relaid(s, gap, viewport_w).contains(id) == s.contains(id),
{
    let r = relaid(s, gap, viewport_w);
    assert forall|k: int| 0 <= k < s.strips.len() implies same_tiles(
        #[trigger] r.strips[k],
        s.strips[k],
    ) && (s.strips[k].sound() == r.strips[k].sound()) by {
        let t = s.strips[k];
        law_tiles_stay(t, WindowId(0), viewport_w, gap, true);
        law_tiles_stay(t.relayout(gap), WindowId(0), viewport_w, gap, true);
        lemma_same_tiles(t.relayout(gap), t);
        lemma_same_tiles(t.relayout(gap).clamp_offset(viewport_w), t.relayout(gap));
    }
    assert forall|k: int, id: WindowId| 0 <= k < s.strips.len() implies #[trigger] r.strips[k].contains(
        id,
    ) == s.strips[k].contains(id) by {
        assert(same_tiles(r.strips[k], s.strips[k]));
        lemma_same_tiles(r.strips[k], s.strips[k]);
    }
    if s.wf() {
        assert(r.strips.last() == r.strips[r.strips.len() - 1]);
        assert(s.strips.last() == s.strips[s.strips.len() - 1]);
        assert(same_tiles(r.strips[r.strips.len() - 1], s.strips[s.strips.len() - 1]));
        assert forall|k: int| 0 <= k < r.strips.len() - 1 implies (
        #[trigger] r.strips[k]).columns.len() > 0 by {
            assert(same_tiles(r.strips[k], s.strips[k]));
            assert(s.strips[k].columns.len() > 0);
        }
    }
    if s.strips_sound() {
        assert forall|k: int| 0 <= k < r.strips.len() implies (#[trigger] r.strips[k]).sound() by {
            assert(s.strips[k].sound());
            assert(same_tiles(r.strips[k], s.strips[k]));
        }
    }
    if s.apart() {
        assert forall|a: int, b: int, id: WindowId|
            0 <= a < r.strips.len() && 0 <= b < r.strips.len() && #[trigger] r.strips[a].contains(
                id,
            ) && #[trigger] r.strips[b].contains(id) implies a == b by {
            assert(s.strips[a].contains(id) && s.strips[b].contains(id));
        }
    }
    assert forall|id: WindowId| #[trigger] r.contains(id) == s.contains(id) by {
        if r.contains(id) {
            let k = choose|k: int| 0 <= k < r.strips.len() && (#[trigger] r.strips[k]).contains(id);
            assert(s.strips[k].contains(id));
        }
        if s.contains(id) {
            let k = choose|k: int| 0 <= k < s.strips.len() && (#[trigger] s.strips[k]).contains(id);
            assert(r.strips[k].contains(id));
        }
    }
}

/// Replacing a monitor by one with no window of another keeps them apart.
pub proof fn lemma_update_monitor(ms: Seq<MonitorView>, i: int, m: MonitorView)
    requires
        0 <= i < ms.len(),
        monitors_apart(ms),
        forall|x: WindowId| #[trigger]
            m.stack.contains(x) ==> ms[i].stack.contains(x) || !managed(ms, x),
    ensures
        monitors_apart(ms.update(i, m)),
        forall|x: WindowId| #[trigger]
            managed(ms.update(i, m), x) <==> m.stack.contains(x) || (managed(ms, x)
                && !ms[i].stack.contains(x)),
{
    let next = ms.update(i, m);
    assert forall|a: int, b: int, id: WindowId|
        0 <= a < next.len() && 0 <= b < next.len() && #[trigger] next[a].stack.contains(id)
            && #[trigger] next[b].stack.contains(id) implies a == b by {
        if a != i {
            assert(ms[a].stack.contains(id));
        }
        if b != i {
            assert(ms[b].stack.contains(id));
        }
        if a == i && b != i {
            assert(m.stack.contains(id));
            assert(managed(ms, id));
        }
        if b == i && a != i {
            assert(m.stack.contains(id));
            assert(managed(ms, id));
        }
    }
    assert forall|x: WindowId| #[trigger] managed(next, x) <==> m.stack.contains(x) || (managed(
        ms,
        x,
    ) && !ms[i].stack.contains(x)) by {
        if managed(next, x) {
            let j = choose|j: int| 0 <= j < next.len() && (#[trigger] next[j]).stack.contains(x);
            if j != i {
                assert(ms[j].stack.contains(x));
                if ms[i].stack.contains(x) {
                    assert(j == i);
                }
            }
        }
        if m.stack.contains(x) {
            assert(next[i].stack.contains(x));
        }
        if managed(ms, x) && !ms[i].stack.contains(x) {
            let j = choose|j: int| 0 <= j < ms.len() && (#[trigger] ms[j]).stack.contains(x);
            assert(next[j].stack.contains(x));
        }
    }
}

/// When monitors come and go, every window stays managed, on one monitor only.
pub proof fn law_rearranged_keeps_windows(
    ms: Seq<MonitorView>,
    active: int,
    displays: Seq<Display>,
    gap: int,
)
    requires
        monitors_sound(ms),
        displays.len() > 0,
        0 <= active,
    ensures
        ({
            let after = rearranged(ms, active, displays, gap);
            &&& after.len() > 0
            &&& monitors_sound(after)
            &&& forall|id: WindowId| #[trigger] managed(after, id) == managed(ms, id)
        }),
{
    let now = plugged(ms, displays);
    let orphans = orphans_upto(ms, displays, ms.len() as int);
    lemma_plugged_windows(ms, displays);
    let at = lesser(active, now.len() - 1);
    assert(now[at].stack.sound());
    assert forall|id: WindowId| #[trigger] loose(orphans).contains(
        id,
    ) implies !now[at].stack.contains(id) by {
        assert(!managed(now, id));
    }
    lemma_fostering_windows(now[at], orphans);
    let host = fostering(now[at], orphans);
    law_normalize(host.stack);
    let full = host.in_shape();
    assert(full.stack.sound());
    assert forall|x: WindowId| #[trigger] full.stack.contains(x) implies now[at].stack.contains(x)
        || !managed(now, x) by {
        assert(full.stack.contains(x) == host.stack.contains(x));
    }
    let mid = now.update(at, full);
    lemma_update_monitor(now, at, full);
    assert(stacks_sound(mid)) by {
        assert forall|i: int| 0 <= i < mid.len() implies (#[trigger] mid[i]).stack.sound() by {
            if i != at {
                assert(now[i].stack.sound());
            }
        }
    }
    let after = rearranged(ms, active, displays, gap);
    lemma_relaid_all(mid, gap);
    assert forall|id: WindowId| #[trigger] managed(after, id) == managed(ms, id) by {
        assert(managed(after, id) == managed(mid, id));
        assert(full.stack.contains(id) == host.stack.contains(id));
        assert(managed(ms, id) <==> managed(now, id) || loose(orphans).contains(
            id,
        ));
        if now[at].stack.contains(id) {
            assert(managed(now, id));
        }
    }
}

/// The columns of monitors that are gone stand at the end of the workspace shown
/// on the active monitor, behind those that were there, all in their order and
/// each with its tiles, its width and the width it had before it was maximized.
pub proof fn law_rearranged_keeps_columns(
    ms: Seq<MonitorView>,
    active: int,
    displays: Seq<Display>,
    gap: int,
)
    requires
        monitors_sound(ms),
        displays.len() > 0,
        0 <= active,
    ensures
        ({
            let now = plugged(ms, displays);
            let at = lesser(active, now.len() - 1);
            let orphans = orphans_upto(ms, displays, ms.len() as int);
            let columns = now[at].shown().columns + orphans;
            let after = rearranged(ms, active, displays, gap)[at].shown().columns;
            orphans.len() > 0 ==> {
                &&& after.len() == columns.len()
                &&& forall|c: int|
                    0 <= c < columns.len() ==> #[trigger] after[c] == (ColumnView {
                        x: after[c].x,
                        ..columns[c]
                    })
            }
        }),
{
    let now = plugged(ms, displays);
    let at = lesser(active, now.len() - 1);
    let orphans = orphans_upto(ms, displays, ms.len() as int);
    lemma_plugged_windows(ms, displays);
    assert(now[at].stack.sound());
    let host = fostering(now[at], orphans);
    let grown = extended(now[at].shown(), orphans);
    law_normalize(host.stack);
    if orphans.len() > 0 {
        assert(host.stack.shown() == grown);
        let full = host.in_shape();
        assert(full.shown() == grown);
        let after = rearranged(ms, active, displays, gap)[at].shown();
        assert(after == grown.relayout(gap).clamp_offset(full.viewport_w));
        assert forall|c: int| 0 <= c < grown.columns.len() implies #[trigger] after.columns[c] == (
        ColumnView { x: after.columns[c].x, ..grown.columns[c] }) by {}
    }
}

/// Laying every workspace of every monitor out anew moves no window.
pub proof fn lemma_relaid_all(ms: Seq<MonitorView>, gap: int)
    requires
        stacks_sound(ms),
        monitors_apart(ms),
    ensures
        ({
            let after = ms.map_values(
                |m: MonitorView| MonitorView { stack: relaid(m.stack, gap, m.viewport_w), ..m },
            );
            &&& monitors_sound(after)
            &&& forall|id: WindowId| #[trigger] managed(after, id) == managed(ms, id)
        }),
{
    let after = ms.map_values(
        |m: MonitorView| MonitorView { stack: relaid(m.stack, gap, m.viewport_w), ..m },
    );
    assert forall|i: int, id: WindowId| 0 <= i < ms.len() implies #[trigger] after[i].stack.contains(
        id,
    ) == ms[i].stack.contains(id) by {
        lemma_relaid(ms[i].stack, gap, ms[i].viewport_w);
    }
    assert forall|i: int| 0 <= i < after.len() implies (#[trigger] after[i]).stack.sound() by {
        assert(ms[i].stack.sound());
        lemma_relaid(ms[i].stack, gap, ms[i].viewport_w);
    }
    assert forall|i: int, j: int, id: WindowId|
        0 <= i < after.len() && 0 <= j < after.len() && #[trigger] after[i].stack.contains(id)
            && #[trigger] after[j].stack.contains(id) implies i == j by {
        assert(ms[i].stack.contains(id) && ms[j].stack.contains(id));
    }
    assert forall|id: WindowId| #[trigger] managed(after, id) == managed(ms, id) by {
        if managed(after, id) {
            let i = choose|i: int| 0 <= i < after.len() && (#[trigger] after[i]).stack.contains(id);
            assert(ms[i].stack.contains(id));
        }
        if managed(ms, id) {
            let i = choose|i: int| 0 <= i < ms.len() && (#[trigger] ms[i]).stack.contains(id);
            assert(after[i].stack.contains(id));
        }
    }
}

/// Measuring and laying out anew keeps every window where it is managed.
pub proof fn law_refit_keeps_windows(ms: Seq<MonitorView>, displays: Seq<Display>, gap: int)
    requires
        monitors_sound(ms),
    ensures
        ({
            let after = ms.map_values(|m: MonitorView| refitted(m, displays, gap));
            &&& monitors_sound(after)
            &&& after.len() == ms.len()
            &&& forall|id: WindowId| #[trigger] managed(after, id) == managed(ms, id)
        }),
{
    let now = ms.map_values(
        |m: MonitorView|
            match display_of(displays, m.hmonitor) {
                Some(k) => displays[k].with_stack(m.stack),
                None => m,
            },
    );
    assert forall|i: int| 0 <= i < ms.len() implies (#[trigger] ms[i]).stack == now[i].stack by {}
    lemma_same_stacks(ms, now);
    assert(stacks_sound(now)) by {
        assert forall|i: int| 0 <= i < now.len() implies (#[trigger] now[i]).stack.sound() by {
            assert(ms[i].stack.sound());
        }
    }
    lemma_relaid_all(now, gap);
    let after = ms.map_values(|m: MonitorView| refitted(m, displays, gap));
    assert(after =~= now.map_values(
        |m: MonitorView| MonitorView { stack: relaid(m.stack, gap, m.viewport_w), ..m },
    ));
    assert forall|id: WindowId| #[trigger] managed(after, id) == managed(ms, id) by {
        assert(managed(now, id) == managed(ms, id));
    }
}

// ---------------------------------------------------------------------------
// Rearranging
// ---------------------------------------------------------------------------

/// The columns of all workspaces.
fn columns_of(stack: Stack) -> (r: Vec<Column>)
    ensures
        column_views(r@) == stack_columns(stack@),
{
    let ghost s = stack@;
    let mut strips = stack.strips;
    let ghost given = strips@;
    let mut out: Vec<Column> = Vec::new();
    let mut k: usize = 0;
    assert(column_views(out@) =~= Seq::empty());
    while k < strips.len()
        invariant
            k <= strips.len(),
            strips.len() == given.len(),
            s.strips == strip_views(given),
            forall|j: int| k <= j < strips.len() ==> #[trigger] strips@[j] == given[j],
            column_views(out@) == stack_columns_upto(s, k as int),
        decreases strips.len() - k,
    {
        let ghost before = out@;
        assert(strips@[k as int] == given[k as int]);
        assert(s.strips[k as int] == given[k as int]@);
        out.append(&mut strips[k].columns);
        proof {
            assert(column_views(out@) =~= column_views(before) + column_views(
                given[k as int].columns@,
            ));
        }
        k += 1;
    }
    out
}

/// Drops the monitors that are gone and hands out their columns.
fn drop_unplugged(monitors: &mut Vec<MonitorState>, displays: &Vec<Display>) -> (orphans: Vec<
    Column,
>)
    ensures
        monitor_views(final(monitors)@) == kept_upto(
            monitor_views(old(monitors)@),
            displays@,
            old(monitors).len() as int,
        ),
        column_views(orphans@) == orphans_upto(
            monitor_views(old(monitors)@),
            displays@,
            old(monitors).len() as int,
        ),
{
    let ghost all = monitor_views(monitors@);
    let total: usize = monitors.len();
    let mut orphans: Vec<Column> = Vec::new();
    let mut seen: usize = 0;
    let mut i: usize = 0;
    proof {
        assert(column_views(orphans@) =~= Seq::empty());
        assert(all.skip(0) =~= all);
        assert(kept_upto(all, displays@, 0) + all.skip(0) =~= all);
    }
    while seen < total
        invariant
            seen <= total,
            total == all.len(),
            all == monitor_views(old(monitors)@),
            i == kept_upto(all, displays@, seen as int).len(),
            monitors.len() == i + (total - seen),
            monitor_views(monitors@) == kept_upto(all, displays@, seen as int) + all.skip(
                seen as int,
            ),
            column_views(orphans@) == orphans_upto(all, displays@, seen as int),
        decreases total - seen,
    {
        let ghost views = monitor_views(monitors@);
        proof {
            assert(views[i as int] == all.skip(seen as int)[0]);
            assert(monitors@[i as int]@ == all[seen as int]);
        }
        if find_display(displays, monitors[i].hmonitor).is_some() {
            proof {
                assert(views =~= kept_upto(all, displays@, seen + 1) + all.skip(seen + 1));
            }
            i += 1;
        } else {
            let gone = monitors.remove(i);
            let ghost before = orphans@;
            let mut columns = columns_of(gone.stack);
            let ghost more = columns@;
            orphans.append(&mut columns);
            proof {
                assert(column_views(orphans@) =~= column_views(before) + column_views(more));
                assert(monitor_views(monitors@) =~= views.remove(i as int));
                assert(views.remove(i as int) =~= kept_upto(all, displays@, seen + 1) + all.skip(
                    seen + 1,
                ));
            }
        }
        seen += 1;
    }
    proof {
        assert(all.skip(total as int) =~= Seq::empty());
        assert(monitor_views(monitors@) =~= kept_upto(all, displays@, total as int));
    }
    orphans
}

/// The first monitor with the handle.
fn find_handle(monitors: &Vec<MonitorState>, h: i64) -> (r: Option<usize>)
    ensures
        match r {
            Some(k) => k < monitors.len() && handle_from(
                monitor_views(monitors@),
                h as int,
                0,
            ) == Some(k as int),
            None => handle_from(monitor_views(monitors@), h as int, 0) is None,
        },
{
    let ghost ms = monitor_views(monitors@);
    let mut k: usize = 0;
    while k < monitors.len()
        invariant
            k <= monitors.len(),
            ms == monitor_views(monitors@),
            handle_from(ms, h as int, 0) == handle_from(ms, h as int, k as int),
        decreases monitors.len() - k,
    {
        assert(ms[k as int] == monitors@[k as int]@);
        if monitors[k].hmonitor == h {
            return Some(k);
        }
        k += 1;
    }
    None
}

/// The handles of the monitors.
fn handles(monitors: &Vec<MonitorState>) -> (r: Vec<i64>)
    ensures
        r.len() == monitors.len(),
        forall|k: int|
            0 <= k < r.len() ==> #[trigger] r@[k] == monitor_views(monitors@)[k].hmonitor,
{
    let mut out: Vec<i64> = Vec::new();
    let mut k: usize = 0;
    while k < monitors.len()
        invariant
            k <= monitors.len(),
            out.len() == k,
            forall|j: int|
                0 <= j < k ==> #[trigger] out@[j] == monitor_views(monitors@)[j].hmonitor,
        decreases monitors.len() - k,
    {
        assert(monitor_views(monitors@)[k as int] == monitors@[k as int]@);
        out.push(monitors[k].hmonitor);
        k += 1;
    }
    out
}

/// The handle is among those of the monitors.
fn is_known(known: &Vec<i64>, h: i64, Ghost(ms): Ghost<Seq<MonitorView>>) -> (r: bool)
    requires
        known.len() == ms.len(),
        forall|k: int| 0 <= k < known.len() ==> #[trigger] known@[k] == ms[k].hmonitor,
    ensures
        r == (handle_from(ms, h as int, 0) is Some),
{
    let mut k: usize = 0;
    while k < known.len()
        invariant
            k <= known.len(),
            known.len() == ms.len(),
            forall|k: int| 0 <= k < known.len() ==> #[trigger] known@[k] == ms[k].hmonitor,
            handle_from(ms, h as int, 0) == handle_from(ms, h as int, k as int),
        decreases known.len() - k,
    {
        assert(known@[k as int] == ms[k as int].hmonitor);
        if known[k] == h {
            return true;
        }
        k += 1;
    }
    false
}

/// Takes the displays in: measures known monitors anew and adds new ones.
fn join_displays(monitors: &mut Vec<MonitorState>, displays: &Vec<Display>)
    ensures
        monitor_views(final(monitors)@) == joined_upto(
            monitor_views(old(monitors)@),
            displays@,
            displays.len() as int,
        ),
{
    let ghost kept = monitor_views(monitors@);
    let known = handles(monitors);
    let mut k: usize = 0;
    while k < displays.len()
        invariant
            k <= displays.len(),
            kept == monitor_views(old(monitors)@),
            known.len() == kept.len(),
            forall|j: int| 0 <= j < known.len() ==> #[trigger] known@[j] == kept[j].hmonitor,
            monitor_views(monitors@) == joined_upto(kept, displays@, k as int),
        decreases displays.len() - k,
    {
        let d = displays[k];
        let ghost prev = monitor_views(monitors@);
        if is_known(&known, d.hmonitor, Ghost(kept)) {
            if let Some(i) = find_handle(monitors, d.hmonitor) {
                assert(prev[i as int] == monitors@[i as int]@);
                if d.work != monitors[i].work || d.monitor != monitors[i].monitor {
                    monitors[i].work = d.work;
                    monitors[i].monitor = d.monitor;
                    monitors[i].viewport_w = d.viewport_w;
                    monitors[i].default_width = d.default_width;
                }
                proof {
                    assert(monitor_views(monitors@) =~= prev.update(
                        i as int,
                        remeasured(prev[i as int], d),
                    ));
                }
            }
        } else {
            monitors.push(fresh_monitor(d));
            proof {
                assert(monitor_views(monitors@) =~= prev.push(d.with_stack(fresh_stack())));
            }
        }
        k += 1;
    }
}

/// Puts orphaned columns at the end of the workspace on show.
fn foster(m: &mut MonitorState, orphans: Vec<Column>)
    requires
        old(m).stack.active < old(m).stack.strips.len(),
    ensures
        final(m)@ == fostering(old(m)@, column_views(orphans@)),
        final(m).stack.strips.len() == old(m).stack.strips.len(),
{
    let ghost before = m@;
    let ghost strips = m.stack.strips@;
    let ghost more = orphans@;
    let at: usize = m.stack.active;
    let mut columns = orphans;
    assert(before.stack.strips[at as int] == strips[at as int]@);
    m.stack.strips[at].columns.append(&mut columns);
    proof {
        let next = fostering(before, column_views(more));
        assert(m.stack.strips@[at as int]@.columns =~= strips[at as int]@.columns + column_views(
            more,
        ));
        assert forall|j: int| 0 <= j < strips.len() implies #[trigger] m@.stack.strips[j]
            == next.stack.strips[j] by {
            if j != at {
                assert(m.stack.strips@[j] == strips[j]);
            }
        }
        assert(m@.stack.strips =~= next.stack.strips);
    }
}

/// Lays out every workspace of every monitor anew.
fn relay_all(monitors: &mut Vec<MonitorState>, gap: i32)
    requires
        forall|i: int|
            0 <= i < old(monitors).len() ==> relay_fits(
                (#[trigger] monitor_views(old(monitors)@)[i]).stack,
                gap as int,
                monitor_views(old(monitors)@)[i].viewport_w,
            ),
    ensures
        monitor_views(final(monitors)@) == monitor_views(old(monitors)@).map_values(
            |m: MonitorView|
                MonitorView { stack: relaid(m.stack, gap as int, m.viewport_w), ..m },
        ),
{
    let ghost before = monitor_views(monitors@);
    let ghost want = before.map_values(
        |m: MonitorView| MonitorView { stack: relaid(m.stack, gap as int, m.viewport_w), ..m },
    );
    let mut i: usize = 0;
    while i < monitors.len()
        invariant
            i <= monitors.len(),
            monitors.len() == before.len(),
            before == monitor_views(old(monitors)@),
            want == before.map_values(
                |m: MonitorView|
                    MonitorView { stack: relaid(m.stack, gap as int, m.viewport_w), ..m },
            ),
            forall|i: int|
                0 <= i < before.len() ==> relay_fits(
                    (#[trigger] before[i]).stack,
                    gap as int,
                    before[i].viewport_w,
                ),
            forall|j: int| 0 <= j < i ==> #[trigger] monitors@[j]@ == want[j],
            forall|j: int| i <= j < monitors.len() ==> #[trigger] monitors@[j]@ == before[j],
        decreases monitors.len() - i,
    {
        assert(monitors@[i as int]@ == before[i as int]);
        let viewport_w: i32 = monitors[i].viewport_w;
        relay_stack(&mut monitors[i].stack, gap, viewport_w);
        i += 1;
    }
    proof {
        assert(monitor_views(monitors@) =~= want);
    }
}

/// A copy of the monitors, to try a step on.
fn copy_monitors(monitors: &Vec<MonitorState>) -> (r: Vec<MonitorState>)
    ensures
        monitor_views(r@) == monitor_views(monitors@),
{
    let mut out: Vec<MonitorState> = Vec::new();
    let mut i: usize = 0;
    while i < monitors.len()
        invariant
            i <= monitors.len(),
            out.len() == i,
            forall|k: int| 0 <= k < i ==> #[trigger] out@[k]@ == monitors@[k]@,
        decreases monitors.len() - i,
    {
        out.push(monitors[i].copied());
        i += 1;
    }
    assert(monitor_views(out@) =~= monitor_views(monitors@));
    out
}

/// Tests whether following a change of what is plugged in stays within
/// coordinates.
pub fn can_rearrange(
    monitors: &Vec<MonitorState>,
    active: usize,
    displays: &Vec<Display>,
    gap: i32,
) -> (r: bool)
    requires
        displays.len() > 0,
        monitors_sound(monitor_views(monitors@)),
    ensures
        r == rearrange_fits(monitor_views(monitors@), active as int, displays@, gap as int),
{
    let ghost ms = monitor_views(monitors@);
    let ghost after = hosting(ms, active as int, displays@);
    proof {
        lemma_plugged_windows(ms, displays@);
    }
    let mut trial = copy_monitors(monitors);
    let orphans = drop_unplugged(&mut trial, displays);
    join_displays(&mut trial, displays);
    sort_by_place(&mut trial);
    let ghost now = monitor_views(trial@);
    assert(now == plugged(ms, displays@));
    let last: usize = trial.len() - 1;
    let at: usize = if active <= last {
        active
    } else {
        last
    };
    proof {
        assert(now[at as int] == trial@[at as int]@);
        assert(now[at as int].stack.sound());
    }
    if trial[at].stack.strips.len() == usize::MAX {
        return false;
    }
    let ghost held_monitors = trial@;
    foster(&mut trial[at], orphans);
    trial[at].stack.normalize();
    proof {
        assert forall|i: int| 0 <= i < after.len() implies #[trigger] monitor_views(trial@)[i]
            == after[i] by {
            if i != at {
                assert(trial@[i] == held_monitors[i]);
            }
        }
        assert(monitor_views(trial@) =~= after);
    }
    let mut i: usize = 0;
    while i < trial.len()
        invariant
            i <= trial.len(),
            ms == monitor_views(monitors@),
            after == monitor_views(trial@),
            after == hosting(ms, active as int, displays@),
            forall|j: int|
                0 <= j < i ==> relay_fits(
                    (#[trigger] after[j]).stack,
                    gap as int,
                    after[j].viewport_w,
                ),
        decreases trial.len() - i,
    {
        assert(after[i as int] == trial@[i as int]@);
        if !can_relay(&trial[i].stack, gap, trial[i].viewport_w) {
            return false;
        }
        i += 1;
    }
    true
}

/// Follows a change of what is plugged in: drops monitors that are gone, adds
/// new ones, measures the others anew, moves orphaned columns to the active
/// monitor and lays everything out anew. Says which monitor is active now.
pub fn rearrange_monitors(
    monitors: &mut Vec<MonitorState>,
    active: usize,
    displays: &Vec<Display>,
    gap: i32,
) -> (at: usize)
    requires
        displays.len() > 0,
        monitors_sound(monitor_views(old(monitors)@)),
        rearrange_fits(monitor_views(old(monitors)@), active as int, displays@, gap as int),
    ensures
        monitor_views(final(monitors)@) == rearranged(
            monitor_views(old(monitors)@),
            active as int,
            displays@,
            gap as int,
        ),
        at == lesser(active as int, final(monitors).len() - 1),
        at < final(monitors).len(),
{
    let ghost ms = monitor_views(monitors@);
    let ghost after = hosting(ms, active as int, displays@);
    proof {
        lemma_plugged_windows(ms, displays@);
    }
    let orphans = drop_unplugged(monitors, displays);
    join_displays(monitors, displays);
    sort_by_place(monitors);
    let ghost now = monitor_views(monitors@);
    assert(now == plugged(ms, displays@));
    let last: usize = monitors.len() - 1;
    let at: usize = if active <= last {
        active
    } else {
        last
    };
    proof {
        assert(now[at as int] == monitors@[at as int]@);
        assert(now[at as int].stack.sound());
    }
    let ghost held_monitors = monitors@;
    foster(&mut monitors[at], orphans);
    monitors[at].stack.normalize();
    proof {
        assert forall|i: int| 0 <= i < after.len() implies #[trigger] monitor_views(monitors@)[i]
            == after[i] by {
            if i != at {
                assert(monitors@[i] == held_monitors[i]);
            }
        }
        assert(monitor_views(monitors@) =~= after);
    }
    relay_all(monitors, gap);
    assert(monitor_views(monitors@).len() == after.len());
    at
}

} // verus!
