//! Which monitors there are after displays came or went, how they are measured,
//! and that their workspaces are laid out anew.

use vstd::prelude::*;

use crate::command_laws::{law_packed_columns_stand_side_by_side, same_column, side_by_side};
use crate::displays::{
    Display, Primary, display_from, display_of, enumerated, fresh_stack, handle_from, hosting,
    joined_upto, kept_upto, law_by_place_orders, lemma_by_place, lemma_by_place_len, plugged,
    relaid,
};
use crate::layout::{StackView, StripView, WindowId};
use crate::monitors::{MonitorView, lemma_stack_windows, managed, stack_windows};
use crate::window_laws::viewport_back_on;
use crate::wm::{Action, WmView};
use crate::wm_monitors::recolored_upto;

verus! {

// ---------------------------------------------------------------------------
// Laid out anew
// ---------------------------------------------------------------------------

/// The strip has the same columns, side by side, and its viewport lies on them:
/// where it lay, or as far that way as they reach.
pub open spec fn strip_laid_out(after: StripView, s: StripView, gap: int, viewport_w: int) -> bool {
    &&& after.columns.len() == s.columns.len()
    &&& forall|c: int|
        0 <= c < s.columns.len() ==> same_column(#[trigger] after.columns[c], s.columns[c])
    &&& side_by_side(after.columns, gap)
    &&& after.last_focused == s.last_focused
    &&& viewport_back_on(after, s.offset_x, viewport_w)
}

/// Every workspace is laid out anew, in its place, with the same one on show.
pub open spec fn stack_laid_out(
    after: StackView,
    st: StackView,
    gap: int,
    viewport_w: int,
) -> bool {
    &&& after.active == st.active
    &&& after.strips.len() == st.strips.len()
    &&& forall|k: int|
        0 <= k < st.strips.len() ==> strip_laid_out(
            #[trigger] after.strips[k],
            st.strips[k],
            gap,
            viewport_w,
        )
}

/// Laying out anew puts the columns of every workspace side by side and the
/// viewport onto them.
pub proof fn law_workspaces_are_laid_out(st: StackView, gap: int, viewport_w: int)
    ensures
        stack_laid_out(relaid(st, gap, viewport_w), st, gap, viewport_w),
{
    let after = relaid(st, gap, viewport_w);
    assert forall|k: int| 0 <= k < st.strips.len() implies strip_laid_out(
        #[trigger] after.strips[k],
        st.strips[k],
        gap,
        viewport_w,
    ) by {
        let s = st.strips[k];
        law_packed_columns_stand_side_by_side(s.columns, gap);
        let t = s.relayout(gap);
        assert(after.strips[k] == t.clamp_offset(viewport_w));
        if t.columns.len() > 0 {
            assert(t.columns.last() == t.columns[t.columns.len() - 1]);
        }
    }
}

// ---------------------------------------------------------------------------
// A configuration read anew
// ---------------------------------------------------------------------------

/// The monitor has the measures of the display.
pub open spec fn measured_as(m: MonitorView, d: Display) -> bool {
    &&& m.hmonitor == d.hmonitor
    &&& m.work == d.work@
    &&& m.monitor == d.monitor@
    &&& m.viewport_w == d.viewport_w
    &&& m.default_width == d.default_width
}

/// Display `k` is the first with the handle.
pub open spec fn is_display_of(displays: Seq<Display>, h: int, k: int) -> bool {
    &&& 0 <= k < displays.len()
    &&& displays[k].hmonitor == h
    &&& forall|j: int| 0 <= j < k ==> (#[trigger] displays[j]).hmonitor != h
}

proof fn lemma_display_is(displays: Seq<Display>, h: int, k: int, from: int)
    requires
        is_display_of(displays, h, k),
        0 <= from <= k,
    ensures
        display_from(displays, h, from) == Some(k),
    decreases k - from,
{
    if from < k {
        assert(displays[from].hmonitor != h);
        lemma_display_is(displays, h, k, from + 1);
    }
}

proof fn lemma_display_found(displays: Seq<Display>, h: int, from: int)
    requires
        0 <= from,
    ensures
        match display_from(displays, h, from) {
            Some(k) => from <= k < displays.len() && displays[k].hmonitor == h,
            None => forall|j: int|
                from <= j < displays.len() ==> (#[trigger] displays[j]).hmonitor != h,
        },
    decreases displays.len() - from,
{
    if from < displays.len() && displays[from].hmonitor != h {
        lemma_display_found(displays, h, from + 1);
    }
}

/// Under a configuration read anew a monitor has the measures of its display,
/// where it is among them, and else those it had, and is laid out anew. The focus
/// and all that is known of windows stay; all frames are to be coloured anew.
pub proof fn law_reloading_measures_anew(w: WmView, displays: Seq<Display>, gap: int, i: int)
    requires
        0 <= i < w.monitors.len(),
    ensures
        ({
            let m = w.monitors[i];
            let after = w.reloaded(displays, gap);
            let n = after.monitors[i];
            &&& after.monitors.len() == w.monitors.len()
            &&& forall|k: int| #[trigger]
                is_display_of(displays, m.hmonitor, k) ==> measured_as(n, displays[k])
            &&& (forall|k: int|
                0 <= k < displays.len() ==> (#[trigger] displays[k]).hmonitor != m.hmonitor) ==> n
                == (MonitorView { stack: n.stack, ..m })
            &&& stack_laid_out(n.stack, m.stack, gap, n.viewport_w)
            &&& after == (WmView { monitors: after.monitors, bordered: None, ..w })
        }),
{
    let m = w.monitors[i];
    lemma_display_found(displays, m.hmonitor, 0);
    assert forall|k: int| #[trigger] is_display_of(displays, m.hmonitor, k) implies measured_as(
        w.reloaded(displays, gap).monitors[i],
        displays[k],
    ) by {
        lemma_display_is(displays, m.hmonitor, k, 0);
    }
    law_workspaces_are_laid_out(m.stack, gap, w.reloaded(displays, gap).monitors[i].viewport_w);
}

proof fn lemma_recolored_has(ms: Seq<MonitorView>, color: u32, k: int, a: Action)
    requires
        0 <= k <= ms.len(),
    ensures
        recolored_upto(ms, color, k).contains(a) <==> exists|i: int, id: WindowId|
            0 <= i < k && #[trigger] ms[i].stack.contains(id) && a == Action::Color(id.0, color),
    decreases k,
{
    let all = recolored_upto(ms, color, k);
    if k > 0 {
        lemma_recolored_has(ms, color, k - 1, a);
        let before = recolored_upto(ms, color, k - 1);
        let ids = stack_windows(ms[k - 1].stack);
        let last = ids.map_values(|id: WindowId| Action::Color(id.0, color));
        assert(all == before + last);
        if all.contains(a) {
            let n = all.index_of(a);
            if n < before.len() {
                assert(before[n] == a);
                assert(before.contains(a));
                let (i, id) = choose|i: int, id: WindowId|
                    0 <= i < k - 1 && #[trigger] ms[i].stack.contains(id) && a == Action::Color(
                        id.0,
                        color,
                    );
                assert(ms[i].stack.contains(id));
            } else {
                let id = ids[n - before.len()];
                assert(last[n - before.len()] == a);
                assert(ids.contains(id));
                lemma_stack_windows(ms[k - 1].stack, id);
                assert(ms[k - 1].stack.contains(id));
            }
        }
        if exists|i: int, id: WindowId|
            0 <= i < k && #[trigger] ms[i].stack.contains(id) && a == Action::Color(id.0, color) {
            let (i, id) = choose|i: int, id: WindowId|
                0 <= i < k && #[trigger] ms[i].stack.contains(id) && a == Action::Color(
                    id.0,
                    color,
                );
            if i < k - 1 {
                assert(ms[i].stack.contains(id));
                assert(before.contains(a));
                assert(all[before.index_of(a)] == a);
            } else {
                lemma_stack_windows(ms[k - 1].stack, id);
                let n = ids.index_of(id);
                assert(last[n] == a);
                assert(all[before.len() + n] == a);
            }
        }
    }
}

/// A configuration read anew asks for every dimming to end, for every hiding to
/// end where windows are no longer hidden by cloaking, and for the colour of
/// windows without the focus on every tiled window: the configured one, or the
/// system's own.
pub proof fn law_reloading_asks(
    w: WmView,
    displays: Seq<Display>,
    cloak: bool,
    colors: Option<(u32, u32)>,
    gap: int,
    h: u64,
    color: u32,
)
    requires
        w.wf(),
    ensures
        ({
            let acts = w.reloaded_actions(displays, cloak, colors, gap);
            &&& acts.contains(Action::UndimAll)
            &&& acts.contains(Action::ShowAll) <==> !cloak
            &&& acts.contains(Action::Color(h, color)) <==> managed(w.monitors, WindowId(h))
                && color == match colors {
                Some(c) => c.1,
                None => 0xFFFF_FFFFu32,
            }
        }),
{
    let acts = w.reloaded_actions(displays, cloak, colors, gap);
    let after = w.reloaded(displays, gap).monitors;
    let n = w.monitors.len() as int;
    let c = match colors {
        Some(c) => c.1,
        None => 0xFFFF_FFFFu32,
    };
    let rest = recolored_upto(after, c, n);
    let head = if cloak {
        seq![Action::UndimAll]
    } else {
        seq![Action::ShowAll, Action::UndimAll]
    };
    assert(acts =~= head + rest);
    assert(head.contains(Action::UndimAll)) by {
        assert(head[head.len() - 1] == Action::UndimAll);
    }
    assert(head.contains(Action::ShowAll) == !cloak) by {
        if !cloak {
            assert(head[0] == Action::ShowAll);
        }
    }
    assert(!head.contains(Action::Color(h, color)));
    assert forall|a: Action| #[trigger] acts.contains(a) <==> head.contains(a) || rest.contains(
        a,
    ) by {
        if acts.contains(a) {
            let k = acts.index_of(a);
            if k < head.len() {
                assert(head[k] == a);
            } else {
                assert(rest[k - head.len()] == a);
            }
        }
        if head.contains(a) {
            assert(acts[head.index_of(a)] == a);
        }
        if rest.contains(a) {
            assert(acts[head.len() + rest.index_of(a)] == a);
        }
    }
    lemma_recolored_has(after, c, n, Action::ShowAll);
    lemma_recolored_has(after, c, n, Action::Color(h, color));
    crate::wm_monitors::law_reloaded_keeps(w, displays, gap);
    let id = WindowId(h);
    if managed(w.monitors, id) {
        assert(managed(after, id));
        let i = choose|i: int| 0 <= i < after.len() && (#[trigger] after[i]).stack.contains(id);
        assert(after[i].stack.contains(id));
    }
    if rest.contains(Action::Color(h, color)) {
        let (i, x) = choose|i: int, x: WindowId|
            0 <= i < n && #[trigger] after[i].stack.contains(x) && Action::Color(h, color)
                == Action::Color(x.0, c);
        assert(x == id);
        assert(after[i].stack.contains(id));
        assert(managed(after, id));
    }
}

// ---------------------------------------------------------------------------
// Monitors that come and go
// ---------------------------------------------------------------------------

/// No two monitors have the same handle.
pub open spec fn own_handles(ms: Seq<MonitorView>) -> bool {
    forall|i: int, j: int|
        0 <= i < ms.len() && 0 <= j < ms.len() && (#[trigger] ms[i]).hmonitor == (
        #[trigger] ms[j]).hmonitor ==> i == j
}

/// No two displays have the same handle.
pub open spec fn own_display_handles(displays: Seq<Display>) -> bool {
    forall|i: int, j: int|
        0 <= i < displays.len() && 0 <= j < displays.len() && (#[trigger] displays[i]).hmonitor == (
        #[trigger] displays[j]).hmonitor ==> i == j
}

proof fn lemma_kept_from(ms: Seq<MonitorView>, displays: Seq<Display>, k: int)
    requires
        own_handles(ms),
        0 <= k <= ms.len(),
    ensures
        ({
            let kept = kept_upto(ms, displays, k);
            &&& own_handles(kept)
            &&& forall|n: int|
                0 <= n < kept.len() ==> (exists|i: int|
                    0 <= i < k && #[trigger] ms[i] == kept[n]) && display_of(
                    displays,
                    (#[trigger] kept[n]).hmonitor,
                ) is Some
            &&& forall|i: int|
                0 <= i < k && display_of(displays, (#[trigger] ms[i]).hmonitor) is Some
                    ==> kept.contains(ms[i])
        }),
    decreases k,
{
    if k > 0 {
        lemma_kept_from(ms, displays, k - 1);
        let before = kept_upto(ms, displays, k - 1);
        let kept = kept_upto(ms, displays, k);
        let m = ms[k - 1];
        if display_of(displays, m.hmonitor) is Some {
            assert forall|n: int| 0 <= n < kept.len() implies (exists|i: int|
                0 <= i < k && #[trigger] ms[i] == kept[n]) && display_of(
                displays,
                (#[trigger] kept[n]).hmonitor,
            ) is Some by {
                if n < before.len() {
                    let i = choose|i: int| 0 <= i < k - 1 && #[trigger] ms[i] == before[n];
                    assert(ms[i] == kept[n]);
                } else {
                    assert(ms[k - 1] == kept[n]);
                }
            }
            assert forall|a: int, b: int|
                0 <= a < kept.len() && 0 <= b < kept.len() && (#[trigger] kept[a]).hmonitor == (
                #[trigger] kept[b]).hmonitor implies a == b by {
                if a < before.len() && b < before.len() {
                    assert(before[a].hmonitor == before[b].hmonitor);
                } else if a != b {
                    let low = if a < b {
                        a
                    } else {
                        b
                    };
                    let i = choose|i: int| 0 <= i < k - 1 && #[trigger] ms[i] == before[low];
                    assert(ms[i].hmonitor == ms[k - 1].hmonitor);
                }
            }
            assert forall|i: int|
                0 <= i < k && display_of(
                    displays,
                    (#[trigger] ms[i]).hmonitor,
                ) is Some implies kept.contains(ms[i]) by {
                if i < k - 1 {
                    assert(kept[before.index_of(ms[i])] == ms[i]);
                } else {
                    assert(kept[before.len() as int] == ms[i]);
                }
            }
        } else {
            assert forall|n: int| 0 <= n < kept.len() implies (exists|i: int|
                0 <= i < k && #[trigger] ms[i] == kept[n]) && display_of(
                displays,
                (#[trigger] kept[n]).hmonitor,
            ) is Some by {
                let i = choose|i: int| 0 <= i < k - 1 && #[trigger] ms[i] == before[n];
                assert(ms[i] == kept[n]);
            }
        }
    }
}

/// The handle is one of the monitors'.
pub open spec fn has_handle(ms: Seq<MonitorView>, h: int) -> bool {
    exists|i: int| 0 <= i < ms.len() && (#[trigger] ms[i]).hmonitor == h
}

/// Monitor `n` holds the workspaces the monitor with its handle held, or one
/// empty workspace where there was none.
pub open spec fn holds_own_workspaces(n: MonitorView, before: Seq<MonitorView>) -> bool {
    &&& forall|i: int|
        0 <= i < before.len() && (#[trigger] before[i]).hmonitor == n.hmonitor ==> n.stack
            == before[i].stack
    &&& !has_handle(before, n.hmonitor) ==> n.stack == fresh_stack()
}

proof fn lemma_found_handle(ms: Seq<MonitorView>, h: int, k: int)
    requires
        0 <= k,
    ensures
        handle_from(ms, h, k) is None ==> forall|j: int|
            k <= j < ms.len() ==> (#[trigger] ms[j]).hmonitor != h,
        handle_from(ms, h, k) matches Some(j) ==> k <= j < ms.len() && ms[j].hmonitor == h,
    decreases ms.len() - k,
{
    if k < ms.len() && ms[k].hmonitor != h {
        lemma_found_handle(ms, h, k + 1);
    }
}

/// The monitor has the handle and areas of the display, and its widths where it is
/// new or its areas changed; else it has the widths it had.
pub open spec fn follows_display(n: MonitorView, d: Display, before: Seq<MonitorView>) -> bool {
    &&& n.hmonitor == d.hmonitor
    &&& n.work == d.work@
    &&& n.monitor == d.monitor@
    &&& !has_handle(before, n.hmonitor) ==> measured_as(n, d)
    &&& forall|i: int|
        0 <= i < before.len() && (#[trigger] before[i]).hmonitor == n.hmonitor ==> if before[i].work
            != d.work@ || before[i].monitor != d.monitor@ {
            measured_as(n, d)
        } else {
            n.viewport_w == before[i].viewport_w && n.default_width == before[i].default_width
        }
}

/// Display `j` is the one that the monitor follows.
pub open spec fn is_area_of(
    displays: Seq<Display>,
    j: int,
    n: MonitorView,
    before: Seq<MonitorView>,
) -> bool {
    follows_display(n, displays[j], before)
}

/// The monitor follows one of the first `k` displays.
pub open spec fn has_display(
    displays: Seq<Display>,
    k: int,
    n: MonitorView,
    before: Seq<MonitorView>,
) -> bool {
    exists|j: int| 0 <= j < k && #[trigger] is_area_of(displays, j, n, before)
}

proof fn lemma_joined_from(kept: Seq<MonitorView>, displays: Seq<Display>, k: int)
    requires
        own_handles(kept),
        own_display_handles(displays),
        0 <= k <= displays.len(),
    ensures
        ({
            let now = joined_upto(kept, displays, k);
            &&& own_handles(now)
            &&& now.len() >= kept.len()
            &&& forall|n: int| 0 <= n < kept.len() ==> (#[trigger] now[n]).hmonitor
                == kept[n].hmonitor
            &&& forall|n: int|
                0 <= n < now.len() ==> holds_own_workspaces(#[trigger] now[n], kept)
            &&& forall|n: int|
                #![trigger now[n]]
                0 <= n < now.len() ==> has_display(displays, k, now[n], kept) || (n < kept.len()
                    && now[n] == kept[n] && forall|j: int|
                    0 <= j < k ==> (#[trigger] displays[j]).hmonitor != now[n].hmonitor)
            &&& forall|j: int|
                0 <= j < k ==> has_handle(now, (#[trigger] displays[j]).hmonitor as int)
        }),
    decreases k,
{
    let now = joined_upto(kept, displays, k);
    if k > 0 {
        lemma_joined_from(kept, displays, k - 1);
        let prev = joined_upto(kept, displays, k - 1);
        let d = displays[k - 1];
        let h = d.hmonitor as int;
        lemma_found_handle(kept, h, 0);
        lemma_found_handle(prev, h, 0);
        if let Some(q) = handle_from(kept, h, 0) {
            assert(prev[q].hmonitor == kept[q].hmonitor);
            let i = handle_from(prev, h, 0).unwrap();
            assert(prev[q].hmonitor == prev[i].hmonitor);
            assert(i == q);
            assert(now.len() == prev.len());
            assert(is_area_of(displays, k - 1, now[i], kept));
            assert(now[i].hmonitor == h);
        } else {
            assert(now == prev.push(d.with_stack(fresh_stack())));
            assert(is_area_of(displays, k - 1, now[prev.len() as int], kept));
            assert(!has_handle(prev, h)) by {
                if has_handle(prev, h) {
                    let n = choose|n: int| 0 <= n < prev.len() && (#[trigger] prev[n]).hmonitor
                        == h;
                    if n < kept.len() {
                        assert(kept[n].hmonitor == h);
                    }
                    let j = choose|j: int|
                        0 <= j < k - 1 && #[trigger] is_area_of(displays, j, prev[n], kept);
                    assert(displays[j].hmonitor == displays[k - 1].hmonitor);
                }
            }
            assert(!has_handle(kept, h)) by {
                if has_handle(kept, h) {
                    let n = choose|n: int| 0 <= n < kept.len() && (#[trigger] kept[n]).hmonitor
                        == h;
                    assert(prev[n].hmonitor == h);
                }
            }
        }
        assert forall|n: int| 0 <= n < prev.len() implies (#[trigger] now[n]).hmonitor
            == prev[n].hmonitor && now[n].stack == prev[n].stack by {}
        assert forall|a: int, b: int|
            0 <= a < now.len() && 0 <= b < now.len() && (#[trigger] now[a]).hmonitor == (
            #[trigger] now[b]).hmonitor implies a == b by {
            if a < prev.len() && b < prev.len() {
                assert(prev[a].hmonitor == prev[b].hmonitor);
            } else if a < prev.len() {
                assert(prev[a].hmonitor == h);
            } else if b < prev.len() {
                assert(prev[b].hmonitor == h);
            }
        }
        assert forall|n: int| 0 <= n < now.len() implies holds_own_workspaces(
            #[trigger] now[n],
            kept,
        ) by {
            if n < prev.len() {
                assert(holds_own_workspaces(prev[n], kept));
            }
        }
        assert forall|n: int|
            #![trigger now[n]]
            0 <= n < now.len() implies has_display(displays, k, now[n], kept) || (n < kept.len()
            && now[n] == kept[n] && forall|j: int|
            0 <= j < k ==> (#[trigger] displays[j]).hmonitor != now[n].hmonitor) by {
            if n < prev.len() && now[n].hmonitor != h {
                assert(now[n] == prev[n]);
                if has_display(displays, k - 1, prev[n], kept) {
                    let j = choose|j: int|
                        0 <= j < k - 1 && #[trigger] is_area_of(displays, j, prev[n], kept);
                    assert(is_area_of(displays, j, now[n], kept));
                }
            } else if n < prev.len() {
                assert(prev[n].hmonitor == h);
                let i = handle_from(prev, h, 0).unwrap();
                assert(prev[i].hmonitor == prev[n].hmonitor);
            }
        }
        assert forall|j: int| 0 <= j < k implies has_handle(
            now,
            (#[trigger] displays[j]).hmonitor as int,
        ) by {
            if j < k - 1 {
                let n = choose|n: int| 0 <= n < prev.len() && (#[trigger] prev[n]).hmonitor
                    == displays[j].hmonitor;
                assert(now[n].hmonitor == displays[j].hmonitor);
            } else if handle_from(kept, h, 0) is Some {
                let i = handle_from(prev, h, 0).unwrap();
                assert(now[i].hmonitor == h);
            } else {
                assert(now[prev.len() as int].hmonitor == h);
            }
        }
    } else {
        assert forall|n: int| 0 <= n < now.len() implies holds_own_workspaces(
            #[trigger] now[n],
            kept,
        ) by {
            assert forall|i: int|
                0 <= i < kept.len() && (#[trigger] kept[i]).hmonitor
                    == now[n].hmonitor implies now[n].stack == kept[i].stack by {
                assert(kept[i].hmonitor == kept[n].hmonitor);
            }
            assert(kept[n].hmonitor == now[n].hmonitor);
        }
    }
}

/// What the monitors are once displays came or went, before windows move.
proof fn lemma_plugged_from(ms: Seq<MonitorView>, displays: Seq<Display>)
    requires
        own_handles(ms),
        own_display_handles(displays),
    ensures
        ({
            let now = plugged(ms, displays);
            let n = displays.len() as int;
            &&& forall|p: int|
                0 <= p < now.len() ==> holds_own_workspaces(#[trigger] now[p], ms)
                    && has_display(displays, n, now[p], ms)
            &&& forall|j: int|
                0 <= j < n ==> has_handle(now, (#[trigger] displays[j]).hmonitor as int)
        }),
{
    let kept = kept_upto(ms, displays, ms.len() as int);
    let n = displays.len() as int;
    let joined = joined_upto(kept, displays, n);
    let now = plugged(ms, displays);
    lemma_kept_from(ms, displays, ms.len() as int);
    lemma_joined_from(kept, displays, n);
    lemma_by_place(joined);
    law_by_place_orders(joined);
    assert forall|p: int| 0 <= p < now.len() implies holds_own_workspaces(#[trigger] now[p], ms)
        && has_display(displays, n, now[p], ms) by {
        assert(joined.contains(now[p]));
        let q = joined.index_of(now[p]);
        let m = joined[q];
        assert(holds_own_workspaces(m, kept));
        if !has_display(displays, n, m, kept) {
            assert(m.hmonitor == kept[q].hmonitor);
            assert(display_of(displays, kept[q].hmonitor) is Some);
            lemma_display_found(displays, kept[q].hmonitor, 0);
            let j = display_of(displays, kept[q].hmonitor).unwrap();
            assert(displays[j].hmonitor != m.hmonitor);
        }
        let j = choose|j: int| 0 <= j < n && #[trigger] is_area_of(displays, j, m, kept);
        lemma_display_found(displays, m.hmonitor, 0);
        assert(display_of(displays, m.hmonitor) is Some) by {
            assert(displays[j].hmonitor == m.hmonitor);
        }
        assert forall|i: int|
            0 <= i < ms.len() && (#[trigger] ms[i]).hmonitor == m.hmonitor implies m.stack
            == ms[i].stack by {
            assert(kept.contains(ms[i]));
            let r = kept.index_of(ms[i]);
            assert(kept[r].hmonitor == m.hmonitor);
        }
        if !has_handle(ms, m.hmonitor) {
            assert(!has_handle(kept, m.hmonitor)) by {
                if has_handle(kept, m.hmonitor) {
                    let r = choose|r: int| 0 <= r < kept.len() && (#[trigger] kept[r]).hmonitor
                        == m.hmonitor;
                    let i = choose|i: int| 0 <= i < ms.len() && #[trigger] ms[i] == kept[r];
                    assert(ms[i].hmonitor == m.hmonitor);
                }
            }
        }
        let d = displays[j];
        assert forall|i: int|
            0 <= i < ms.len() && (#[trigger] ms[i]).hmonitor == m.hmonitor implies if ms[i].work
            != d.work@ || ms[i].monitor != d.monitor@ {
            measured_as(m, d)
        } else {
            m.viewport_w == ms[i].viewport_w && m.default_width == ms[i].default_width
        } by {
            assert(kept.contains(ms[i]));
            let r = kept.index_of(ms[i]);
            assert(kept[r].hmonitor == m.hmonitor);
        }
        assert(is_area_of(displays, j, now[p], ms));
    }
    assert forall|j: int| 0 <= j < n implies has_handle(
        now,
        (#[trigger] displays[j]).hmonitor as int,
    ) by {
        let q = choose|q: int| 0 <= q < joined.len() && (#[trigger] joined[q]).hmonitor
            == displays[j].hmonitor;
        let m = joined[q];
        assert(joined.contains(m));
        assert(joined.to_multiset().count(m) > 0) by {
            broadcast use vstd::seq_lib::group_to_multiset_ensures;

        }
        assert(now.contains(m)) by {
            broadcast use vstd::seq_lib::group_to_multiset_ensures;

        }
        assert(now[now.index_of(m)].hmonitor == displays[j].hmonitor);
    }
}

/// After displays came or went, the monitors are those of the displays, from left
/// to right and from top to bottom, each with the areas of its display. One that
/// stayed has its workspaces, laid out anew, and a new one is empty; only the
/// active one may hold more. The active monitor stays at its place in the order,
/// or becomes the last one, and nothing else changes.
pub proof fn law_monitors_follow_displays(w: WmView, displays: Seq<Display>, gap: int, j: int)
    requires
        w.wf(),
        displays.len() > 0,
        own_handles(w.monitors),
        own_display_handles(displays),
        0 <= j < w.replugged(displays, gap).monitors.len(),
    ensures
        ({
            let after = w.replugged(displays, gap);
            let n = after.monitors[j];
            let last = after.monitors.len() - 1;
            &&& has_display(displays, displays.len() as int, n, w.monitors)
            &&& forall|k: int|
                0 <= k < displays.len() ==> has_handle(
                    after.monitors,
                    (#[trigger] displays[k]).hmonitor as int,
                )
            &&& forall|i: int|
                0 <= i < j ==> (#[trigger] after.monitors[i]).work.x < n.work.x || (
                after.monitors[i].work.x == n.work.x && after.monitors[i].work.y <= n.work.y)
            &&& after.active_monitor == if w.active_monitor <= last {
                w.active_monitor
            } else {
                last
            }
            &&& j != after.active_monitor ==> {
                &&& forall|i: int|
                    0 <= i < w.monitors.len() && (#[trigger] w.monitors[i]).hmonitor == n.hmonitor
                        ==> stack_laid_out(n.stack, w.monitors[i].stack, gap, n.viewport_w)
                &&& !has_handle(w.monitors, n.hmonitor) ==> n.stack.strips.len() == 1
                    && n.stack.strips[0].columns.len() == 0
            }
            &&& after == (WmView {
                monitors: after.monitors,
                active_monitor: after.active_monitor,
                ..w
            })
        }),
{
    let after = w.replugged(displays, gap);
    let now = plugged(w.monitors, displays);
    let host = hosting(w.monitors, w.active_monitor, displays);
    let n = after.monitors[j];
    lemma_plugged_from(w.monitors, displays);
    crate::displays::lemma_plugged_windows(w.monitors, displays);
    law_by_place_orders(
        joined_upto(
            kept_upto(w.monitors, displays, w.monitors.len() as int),
            displays,
            displays.len() as int,
        ),
    );
    assert(host.len() == now.len());
    assert(after.monitors.len() == now.len());
    assert forall|i: int| 0 <= i < now.len() implies (#[trigger] after.monitors[i]).hmonitor
        == now[i].hmonitor && after.monitors[i].work == now[i].work && after.monitors[i].monitor
        == now[i].monitor by {}
    let k = choose|k: int| 0 <= k < displays.len() && #[trigger] is_area_of(
        displays,
        k,
        now[j],
        w.monitors,
    );
    assert(is_area_of(displays, k, n, w.monitors));
    assert forall|k: int| 0 <= k < displays.len() implies has_handle(
        after.monitors,
        (#[trigger] displays[k]).hmonitor as int,
    ) by {
        let q = choose|q: int| 0 <= q < now.len() && (#[trigger] now[q]).hmonitor
            == displays[k].hmonitor;
        assert(after.monitors[q].hmonitor == displays[k].hmonitor);
    }
    assert forall|i: int| 0 <= i < j implies (#[trigger] after.monitors[i]).work.x < n.work.x || (
    after.monitors[i].work.x == n.work.x && after.monitors[i].work.y <= n.work.y) by {
        assert(crate::displays::placed_before(now[i], now[j]));
    }
    if j != after.active_monitor {
        assert(host[j] == now[j]);
        law_workspaces_are_laid_out(now[j].stack, gap, now[j].viewport_w);
    }
}

/// At the start there is a monitor for each display, with its measures and one
/// empty workspace, from left to right and from top to bottom.
pub proof fn law_start_monitors(
    displays: Seq<Display>,
    primary: Primary,
    gap: int,
    j: int,
)
    requires
        displays.len() > 0,
        0 <= j < displays.len(),
    ensures
        ({
            let ms = enumerated(displays, primary, gap);
            &&& ms.len() == displays.len()
            &&& exists|k: int| 0 <= k < displays.len() && measured_as(ms[j], #[trigger] displays[k])
            &&& exists|i: int| 0 <= i < ms.len() && measured_as(#[trigger] ms[i], displays[j])
            &&& ms[j].stack.strips.len() == 1
            &&& ms[j].stack.strips[0].columns.len() == 0
            &&& ms[j].stack.active == 0
            &&& forall|i: int|
                0 <= i < j ==> (#[trigger] ms[i]).work.x < ms[j].work.x || (ms[i].work.x
                    == ms[j].work.x && ms[i].work.y <= ms[j].work.y)
        }),
{
    let all = displays.map_values(|d: Display| d.with_stack(fresh_stack()));
    let ms = enumerated(displays, primary, gap);
    lemma_by_place_len(all);
    lemma_by_place(all);
    law_by_place_orders(all);
    assert(all.contains(ms[j]));
    let k = all.index_of(ms[j]);
    assert(measured_as(ms[j], displays[k]));
    let m = all[j];
    assert(all.contains(m));
    assert(ms.contains(m)) by {
        broadcast use vstd::seq_lib::group_to_multiset_ensures;

        assert(all.to_multiset().count(m) > 0);
    }
    assert(measured_as(ms[ms.index_of(m)], displays[j]));
    assert forall|i: int| 0 <= i < j implies (#[trigger] ms[i]).work.x < ms[j].work.x || (
    ms[i].work.x == ms[j].work.x && ms[i].work.y <= ms[j].work.y) by {
        assert(crate::displays::placed_before(ms[i], ms[j]));
    }
}

/// Where no display is reported there is one monitor, the primary one.
pub proof fn law_start_without_displays(primary: Primary, gap: int)
    ensures
        ({
            let ms = enumerated(Seq::empty(), primary, gap);
            &&& ms.len() == 1
            &&& ms[0].work == primary.work@
            &&& ms[0].monitor == primary.monitor@
            &&& ms[0].viewport_w == primary.work.w - 2 * gap
            &&& ms[0].default_width == primary.default_width
            &&& ms[0].stack.strips.len() == 1
            &&& ms[0].stack.strips[0].columns.len() == 0
        }),
{
}

} // verus!
