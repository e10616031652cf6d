//! Windows and monitors that come and go resize no window.

use vstd::prelude::*;

use crate::arith::lesser;
use crate::displays::{
    Display, by_place, display_of, extended, fostering, hosting, joined_upto, kept_upto,
    lemma_handle_from, lemma_place_index, lemma_plugged_windows, orphans_upto, place_index,
    plugged, relaid, stack_columns_upto,
};
use crate::layout::{
    StackView, StripView, WindowId, lemma_column_index, lemma_strip_index, occupied, without,
};
use crate::layout_laws::{law_insert_keeps_columns, law_normalize, lemma_without};
use crate::monitors::{MonitorView, lemma_monitor_of, managed, monitor_of};
use crate::scan::ScanEntry;
use crate::wm::WmView;

verus! {

/// Column `c` of the strip has these tiles and this width.
pub open spec fn is_column(s: StripView, c: int, tiles: Seq<WindowId>, width: int) -> bool {
    &&& 0 <= c < s.columns.len()
    &&& s.columns[c].tiles == tiles
    &&& s.columns[c].width == width
}

/// A column of the strip has these tiles and this width.
pub open spec fn has_column(s: StripView, tiles: Seq<WindowId>, width: int) -> bool {
    exists|c: int| #[trigger] is_column(s, c, tiles, width)
}

/// A column on the monitor has these tiles and this width.
pub open spec fn holds_column(m: MonitorView, tiles: Seq<WindowId>, width: int) -> bool {
    exists|k: int|
        0 <= k < m.stack.strips.len() && has_column(#[trigger] m.stack.strips[k], tiles, width)
}

/// The window stands on the monitor in a column of this width.
pub open spec fn stands_wide(m: MonitorView, id: WindowId, width: int) -> bool {
    exists|tiles: Seq<WindowId>| #[trigger] holds_column(m, tiles, width) && tiles.contains(id)
}

proof fn lemma_settle_keeps_column(
    s: StripView,
    id: WindowId,
    viewport_w: int,
    tiles: Seq<WindowId>,
    width: int,
)
    requires
        has_column(s, tiles, width),
    ensures
        has_column(s.settle(id, viewport_w), tiles, width),
{
    let c = choose|c: int| #[trigger] is_column(s, c, tiles, width);
    lemma_column_index(s, id);
    assert(is_column(s.set_active(id), c, tiles, width));
    assert(is_column(s.settle(id, viewport_w), c, tiles, width));
}

proof fn lemma_occupied_has(strips: Seq<StripView>, k: int)
    requires
        0 <= k < strips.len(),
        strips[k].columns.len() > 0,
    ensures
        occupied(strips).contains(strips[k]),
    decreases strips.len(),
{
    reveal(Seq::filter);
    let front = strips.drop_last();
    let head = occupied(front);
    if k < strips.len() - 1 {
        lemma_occupied_has(front, k);
        assert(front[k] == strips[k]);
        let j = head.index_of(strips[k]);
        assert(occupied(strips)[j] == strips[k]);
    } else {
        assert(occupied(strips)[head.len() as int] == strips[k]);
    }
}

proof fn lemma_shape_keeps_column(m: MonitorView, tiles: Seq<WindowId>, width: int)
    requires
        holds_column(m, tiles, width),
    ensures
        holds_column(m.in_shape(), tiles, width),
{
    let k = choose|k: int|
        0 <= k < m.stack.strips.len() && has_column(#[trigger] m.stack.strips[k], tiles, width);
    let c = choose|c: int| #[trigger] is_column(m.stack.strips[k], c, tiles, width);
    lemma_occupied_has(m.stack.strips, k);
    let occ = occupied(m.stack.strips);
    let j = occ.index_of(m.stack.strips[k]);
    assert(m.in_shape().stack.strips[j] == m.stack.strips[k]);
}

proof fn lemma_settled_keeps_column(m: MonitorView, id: WindowId, tiles: Seq<WindowId>, width: int)
    requires
        holds_column(m, tiles, width),
        0 <= m.stack.active < m.stack.strips.len(),
    ensures
        holds_column(m.settled_on(id), tiles, width),
{
    let k = choose|k: int|
        0 <= k < m.stack.strips.len() && has_column(#[trigger] m.stack.strips[k], tiles, width);
    let n = m.settled_on(id);
    if k == m.stack.active {
        lemma_settle_keeps_column(m.shown(), id, m.viewport_w, tiles, width);
        assert(n.stack.strips[k] == m.shown().settle(id, m.viewport_w));
    } else {
        assert(n.stack.strips[k] == m.stack.strips[k]);
    }
}

/// A window that appears resizes no other: every column is still on its monitor,
/// with its width and its tiles.
pub proof fn law_appeared_resizes_none(
    w: WmView,
    e: ScanEntry,
    h: u64,
    iconic: bool,
    gap: int,
    i: int,
    tiles: Seq<WindowId>,
    width: int,
)
    requires
        w.wf(),
        0 <= i < w.monitors.len(),
        holds_column(w.monitors[i], tiles, width),
    ensures
        holds_column(w.appeared(e, h, iconic, gap).monitors[i], tiles, width),
{
    let id = WindowId(h);
    if !managed(w.monitors, id) && e.is_adoptable(iconic) && i == w.active_monitor {
        let m = w.here();
        assert(m.stack.sound());
        let anchor = w.focused_here();
        let a = m.stack.active;
        let grown = m.shown().insert_column_after(anchor, id, m.default_width, gap);
        let mid = m.with_shown(grown);
        let k = choose|k: int|
            0 <= k < m.stack.strips.len() && has_column(#[trigger] m.stack.strips[k], tiles, width);
        if k == a {
            let c = choose|c: int| #[trigger] is_column(m.stack.strips[k], c, tiles, width);
            law_insert_keeps_columns(m.shown(), anchor, id, m.default_width, gap, c);
            let at = if c < m.shown().insert_index(anchor) {
                c
            } else {
                c + 1
            };
            assert(is_column(grown, at, tiles, width));
            assert(mid.stack.strips[k] == grown);
        } else {
            assert(mid.stack.strips[k] == m.stack.strips[k]);
        }
        assert(holds_column(mid, tiles, width));
        lemma_shape_keeps_column(mid, tiles, width);
        let taken = m.taken_in(anchor, id, gap);
        assert(taken == mid.in_shape());
        law_normalize(mid.stack);
        lemma_settled_keeps_column(taken, id, tiles, width);
    }
}

proof fn lemma_cleared_keeps_width(
    s: StripView,
    id: WindowId,
    viewport_w: int,
    gap: int,
    x: WindowId,
    tiles: Seq<WindowId>,
    width: int,
) -> (left: Seq<WindowId>)
    requires
        has_column(s, tiles, width),
        tiles.contains(x),
        x != id,
    ensures
        has_column(s.cleared(id, viewport_w, gap), left, width),
        left.contains(x),
{
    let c = choose|c: int| #[trigger] is_column(s, c, tiles, width);
    let cut = s.remove_window(id, gap);
    let t = s.cleared(id, viewport_w, gap);
    lemma_column_index(s, id);
    lemma_without(tiles, id);
    assert(t.columns == cut.columns);
    match s.column_index_of(id) {
        None => {
            assert(is_column(t, c, tiles, width));
            tiles
        },
        Some(p) => {
            let rest = without(s.columns[p].tiles, id);
            if rest.len() > 0 {
                if c == p {
                    assert(is_column(t, c, rest, width));
                    rest
                } else {
                    assert(is_column(t, c, tiles, width));
                    tiles
                }
            } else {
                assert(c != p) by {
                    if c == p {
                        assert(rest.contains(x));
                    }
                }
                let at = if c < p {
                    c
                } else {
                    c - 1
                };
                assert(is_column(t, at, tiles, width));
                tiles
            }
        },
    }
}

/// A window that goes resizes no column of the others: each other window is
/// still on its monitor, in a column of the width it had.
pub proof fn law_gone_resizes_none(
    w: WmView,
    h: u64,
    now: u64,
    gap: int,
    i: int,
    x: WindowId,
    width: int,
)
    requires
        w.wf(),
        0 <= i < w.monitors.len(),
        x != WindowId(h),
        stands_wide(w.monitors[i], x, width),
    ensures
        stands_wide(w.gone(h, now, gap).monitors[i], x, width),
{
    let id = WindowId(h);
    let after = w.gone(h, now, gap);
    lemma_monitor_of(w.monitors, id);
    if monitor_of(w.monitors, id) == Some(i) {
        let m = w.monitors[i];
        assert(m.stack.sound());
        lemma_strip_index(m.stack, id);
        let p = m.stack.strip_index_of(id).unwrap();
        let tiles = choose|tiles: Seq<WindowId>| #[trigger]
            holds_column(m, tiles, width) && tiles.contains(x);
        let k = choose|k: int|
            0 <= k < m.stack.strips.len() && has_column(#[trigger] m.stack.strips[k], tiles, width);
        let t = m.stack.strips[p].cleared(id, m.viewport_w, gap);
        let mid = m.with_strip(p, t);
        let left = if k == p {
            let left = lemma_cleared_keeps_width(
                m.stack.strips[p],
                id,
                m.viewport_w,
                gap,
                x,
                tiles,
                width,
            );
            assert(has_column(mid.stack.strips[k], left, width));
            left
        } else {
            assert(mid.stack.strips[k] == m.stack.strips[k]);
            tiles
        };
        assert(holds_column(mid, left, width));
        lemma_shape_keeps_column(mid, left, width);
        law_normalize(mid.stack);
        let out = m.taken_out(id, gap);
        assert(out == mid.in_shape());
        if let Some(f) = w.heir(id, gap) {
            lemma_settled_keeps_column(out, f, left, width);
        }
        assert(holds_column(after.monitors[i], left, width));
    } else {
        assert(after.monitors[i] == w.monitors[i]);
    }
}

proof fn lemma_stack_columns_has(s: StackView, n: int, k: int, c: int) -> (at: int)
    requires
        0 <= k < n <= s.strips.len(),
        0 <= c < s.strips[k].columns.len(),
    ensures
        0 <= at < stack_columns_upto(s, n).len(),
        stack_columns_upto(s, n)[at] == s.strips[k].columns[c],
    decreases n,
{
    if k < n - 1 {
        lemma_stack_columns_has(s, n - 1, k, c)
    } else {
        stack_columns_upto(s, n - 1).len() + c
    }
}

proof fn lemma_orphans_has(
    ms: Seq<MonitorView>,
    displays: Seq<Display>,
    n: int,
    i: int,
    k: int,
    c: int,
) -> (at: int)
    requires
        0 <= i < n <= ms.len(),
        display_of(displays, ms[i].hmonitor) is None,
        0 <= k < ms[i].stack.strips.len(),
        0 <= c < ms[i].stack.strips[k].columns.len(),
    ensures
        0 <= at < orphans_upto(ms, displays, n).len(),
        orphans_upto(ms, displays, n)[at] == ms[i].stack.strips[k].columns[c],
    decreases n,
{
    if i < n - 1 {
        lemma_orphans_has(ms, displays, n - 1, i, k, c)
    } else {
        let s = ms[i].stack;
        orphans_upto(ms, displays, n - 1).len() + lemma_stack_columns_has(
            s,
            s.strips.len() as int,
            k,
            c,
        )
    }
}

proof fn lemma_kept_has(ms: Seq<MonitorView>, displays: Seq<Display>, n: int, i: int) -> (at: int)
    requires
        0 <= i < n <= ms.len(),
        display_of(displays, ms[i].hmonitor) is Some,
    ensures
        0 <= at < kept_upto(ms, displays, n).len(),
        kept_upto(ms, displays, n)[at] == ms[i],
    decreases n,
{
    if i < n - 1 {
        lemma_kept_has(ms, displays, n - 1, i)
    } else {
        kept_upto(ms, displays, n - 1).len() as int
    }
}

proof fn lemma_joined_has(kept: Seq<MonitorView>, displays: Seq<Display>, n: int, i: int)
    requires
        0 <= i < kept.len(),
        0 <= n <= displays.len(),
    ensures
        kept.len() <= joined_upto(kept, displays, n).len(),
        joined_upto(kept, displays, n)[i].stack == kept[i].stack,
    decreases n,
{
    if n > 0 {
        lemma_joined_has(kept, displays, n - 1, i);
        lemma_handle_from(
            joined_upto(kept, displays, n - 1),
            displays[n - 1].hmonitor as int,
            0,
        );
    }
}

proof fn lemma_relaid_keeps_column(m: MonitorView, gap: int, tiles: Seq<WindowId>, width: int)
    requires
        holds_column(m, tiles, width),
    ensures
        holds_column(
            MonitorView { stack: relaid(m.stack, gap, m.viewport_w), ..m },
            tiles,
            width,
        ),
{
    let k = choose|k: int|
        0 <= k < m.stack.strips.len() && has_column(#[trigger] m.stack.strips[k], tiles, width);
    let c = choose|c: int| #[trigger] is_column(m.stack.strips[k], c, tiles, width);
    let n = MonitorView { stack: relaid(m.stack, gap, m.viewport_w), ..m };
    assert(is_column(n.stack.strips[k], c, tiles, width));
}

/// When monitors come or go no column is taken apart or resized: each is on a
/// monitor there is now, with its width and its tiles.
pub proof fn law_replugged_resizes_none(
    w: WmView,
    displays: Seq<Display>,
    gap: int,
    i: int,
    tiles: Seq<WindowId>,
    width: int,
)
    requires
        w.wf(),
        displays.len() > 0,
        0 <= i < w.monitors.len(),
        holds_column(w.monitors[i], tiles, width),
    ensures
        ({
            let after = w.replugged(displays, gap).monitors;
            exists|j: int| 0 <= j < after.len() && holds_column(#[trigger] after[j], tiles, width)
        }),
{
    let ms = w.monitors;
    let m = ms[i];
    let n = ms.len() as int;
    let now = plugged(ms, displays);
    let at = lesser(w.active_monitor, now.len() - 1);
    let orphans = orphans_upto(ms, displays, n);
    lemma_plugged_windows(ms, displays);
    assert(now[at].stack.sound());
    let host = fostering(now[at], orphans);
    let mid = hosting(ms, w.active_monitor, displays);
    let after = w.replugged(displays, gap).monitors;
    let k = choose|k: int|
        0 <= k < m.stack.strips.len() && has_column(#[trigger] m.stack.strips[k], tiles, width);
    let c = choose|c: int| #[trigger] is_column(m.stack.strips[k], c, tiles, width);
    let j = if display_of(displays, m.hmonitor) is None {
        let o = lemma_orphans_has(ms, displays, n, i, k, c);
        let shown = now[at].shown();
        assert(is_column(extended(shown, orphans), shown.columns.len() + o, tiles, width));
        assert(host.stack.strips[now[at].stack.active] == extended(shown, orphans));
        assert(holds_column(host, tiles, width));
        lemma_shape_keeps_column(host, tiles, width);
        at
    } else {
        let kept = kept_upto(ms, displays, n);
        let p = lemma_kept_has(ms, displays, n, i);
        let joined = joined_upto(kept, displays, displays.len() as int);
        lemma_joined_has(kept, displays, displays.len() as int, p);
        let j = lemma_by_place_has(joined, p);
        assert(now[j].stack == m.stack);
        assert(has_column(now[j].stack.strips[k], tiles, width));
        assert(holds_column(now[j], tiles, width));
        if j == at {
            let shown = now[at].shown();
            if k == now[at].stack.active {
                assert(is_column(extended(shown, orphans), c, tiles, width));
                assert(host.stack.strips[k] == extended(shown, orphans));
            } else {
                assert(host.stack.strips[k] == now[at].stack.strips[k]);
            }
            assert(holds_column(host, tiles, width));
            lemma_shape_keeps_column(host, tiles, width);
        }
        j
    };
    assert(holds_column(mid[j], tiles, width));
    lemma_relaid_keeps_column(mid[j], gap, tiles, width);
    assert(holds_column(after[j], tiles, width));
}

proof fn lemma_by_place_has(ms: Seq<MonitorView>, i: int) -> (j: int)
    requires
        0 <= i < ms.len(),
    ensures
        0 <= j < by_place(ms).len(),
        by_place(ms)[j] == ms[i],
    decreases ms.len(),
{
    let front = by_place(ms.drop_last());
    let p = place_index(front, ms.last());
    lemma_place_index(front, ms.last());
    if i < ms.len() - 1 {
        let j = lemma_by_place_has(ms.drop_last(), i);
        if j < p {
            j
        } else {
            j + 1
        }
    } else {
        p
    }
}

} // verus!
