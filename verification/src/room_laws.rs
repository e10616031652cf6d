//! Steps at sizes that monitors have are never refused for want of coordinates.

use vstd::prelude::*;

use crate::layout::{FocusDir, StripView, WindowId, lemma_column_index, lemma_strip_index};
use crate::layout_laws::{law_normalize, lemma_insert_index, lemma_occupied};
use crate::monitors::{MonitorView, lemma_monitor_of, managed, monitor_of};
use crate::scan::ScanEntry;
use crate::tiling::{lemma_showing, lemma_taken_in};
use crate::wm::{WmView, entry_fits};

verus! {

/// A length or place within a quarter of the coordinates' range.
pub open spec fn modest(v: int) -> bool {
    -0x2000_0000 <= v <= 0x2000_0000
}

/// A length no longer than the widest desktop.
pub open spec fn short(v: int) -> bool {
    0 <= v <= 0x0100_0000
}

/// The columns and the viewport stand at modest places, the columns being short.
pub open spec fn is_modest_strip(s: StripView) -> bool {
    &&& modest(s.offset_x)
    &&& s.columns.len() < usize::MAX
    &&& forall|c: int|
        0 <= c < s.columns.len() ==> modest((#[trigger] s.columns[c]).x) && short(
            s.columns[c].width,
        )
}

/// Every workspace of the monitor is modest, and so are its measures.
pub open spec fn is_modest(m: MonitorView) -> bool {
    &&& short(m.viewport_w)
    &&& short(m.default_width)
    &&& m.stack.strips.len() < usize::MAX
    &&& forall|k: int|
        0 <= k < m.stack.strips.len() ==> is_modest_strip(#[trigger] m.stack.strips[k])
}

/// On a modest monitor the viewport can follow any window, and scroll.
pub proof fn law_viewport_has_room(m: MonitorView, id: WindowId)
    requires
        is_modest(m),
        0 <= m.stack.active < m.stack.strips.len(),
    ensures
        m.settle_fits(id),
        m.shown().clamp_fits(m.viewport_w),
{
    let s = m.shown();
    assert(is_modest_strip(m.stack.strips[m.stack.active]));
    lemma_column_index(s, id);
    if s.columns.len() > 0 {
        assert(s.columns.last() == s.columns[s.columns.len() - 1]);
    }
}

/// On a modest monitor any focus move, any scroll and any window that comes to the
/// foreground there is followed.
pub proof fn law_focus_has_room(
    w: WmView,
    dir: FocusDir,
    id: WindowId,
    now: u64,
    orphaned: bool,
)
    requires
        w.wf(),
        forall|i: int| 0 <= i < w.monitors.len() ==> is_modest(#[trigger] w.monitors[i]),
    ensures
        w.refocus_fits(dir),
        w.scroll_fits(),
        w.focus_monitor_fits(true),
        w.focus_monitor_fits(false),
        w.foreground_fits(id, now, orphaned),
{
    let m = w.here();
    assert(is_modest(w.monitors[w.active_monitor]));
    assert(m.stack.sound());
    if let Some(t) = w.focus_target(dir) {
        law_viewport_has_room(m, t);
    }
    law_viewport_has_room(m, id);
    let n = w.monitors.len() as int;
    if n > 1 {
        assert forall|forward: bool| #[trigger] w.focus_monitor_fits(forward) by {
            let to = crate::wm_monitors::beside(w.active_monitor, n, forward);
            assert(0 <= to < n);
            assert(is_modest(w.monitors[to]));
            assert(w.monitors[to].stack.sound());
            if let Some(f) = w.monitors[to].shown().return_to() {
                law_viewport_has_room(w.monitors[to], f);
            }
        }
    }
    lemma_monitor_of(w.monitors, id);
    if let Some(mi) = monitor_of(w.monitors, id) {
        assert(is_modest(w.monitors[mi]));
        assert(w.monitors[mi].stack.sound());
        lemma_showing(w.monitors[mi], id);
        law_viewport_has_room(w.monitors[mi].showing(id), id);
    }
}

/// On a modest monitor a window that appears is taken in, where its own
/// rectangles fit coordinates.
pub proof fn law_new_window_has_room(w: WmView, e: ScanEntry, h: u64, iconic: bool, gap: int)
    requires
        w.wf(),
        is_modest(w.here()),
        short(gap),
        entry_fits(e, w.here().work),
    ensures
        w.appear_fits(e, h, iconic, gap),
{
    let id = WindowId(h);
    if !managed(w.monitors, id) {
        let m = w.here();
        let anchor = w.focused_here();
        let s = m.shown();
        assert(m.stack.sound());
        assert(is_modest_strip(m.stack.strips[m.stack.active]));
        lemma_insert_index(s, anchor);
        assert(!m.stack.contains(id));
        lemma_taken_in(m, anchor, id, gap);
        let t = m.taken_in(anchor, id, gap);
        let grown = t.shown();
        lemma_column_index(grown, id);
        let idx = s.insert_index(anchor);
        assert forall|c: int| 0 <= c < grown.columns.len() implies -0x2000_0000 <= (
        #[trigger] grown.columns[c]).x <= 0x2400_0000 && short(grown.columns[c].width) by {
            if c < idx {
                assert(modest(s.columns[c].x));
            } else if c == idx {
                if idx > 0 {
                    assert(modest(s.columns[idx - 1].x));
                }
            } else {
                assert(modest(s.columns[c - 1].x));
            }
        }
        let d = grown.column_index_of(id).unwrap();
        assert(short(grown.columns[d].width));
    }
}

/// On a modest monitor a window that goes is let go.
pub proof fn law_gone_window_has_room(w: WmView, h: u64, now: u64, gap: int)
    requires
        w.wf(),
        forall|i: int| 0 <= i < w.monitors.len() ==> is_modest(#[trigger] w.monitors[i]),
        short(gap),
    ensures
        w.go_fits(h, now, gap),
{
    let id = WindowId(h);
    lemma_monitor_of(w.monitors, id);
    if let Some(mi) = monitor_of(w.monitors, id) {
        let m = w.monitors[mi];
        let st = m.stack;
        assert(is_modest(m));
        assert(st.sound());
        lemma_strip_index(st, id);
        let k = st.strip_index_of(id).unwrap();
        let s = st.strips[k];
        assert(is_modest_strip(s));
        lemma_column_index(s, id);
        let cut = s.remove_window(id, gap);
        let p = s.column_index_of(id).unwrap();
        assert(short(s.columns[p].width));
        assert forall|c: int| 0 <= c < cut.columns.len() implies -0x2400_0000 <= (
        #[trigger] cut.columns[c]).x <= 0x2000_0000 && short(cut.columns[c].width) by {
            assert(modest(s.columns[c].x) && short(s.columns[c].width));
            if c + 1 < s.columns.len() {
                assert(modest(s.columns[c + 1].x) && short(s.columns[c + 1].width));
            }
        }
        if cut.columns.len() > 0 {
            assert(cut.columns.last() == cut.columns[cut.columns.len() - 1]);
        }
        let t = s.cleared(id, m.viewport_w, gap);
        assert(t.columns == cut.columns);
        assert(-0x2400_0000 <= t.offset_x <= 0x2400_0000);
        let out = m.taken_out(id, gap);
        let mid = m.with_strip(k, t).stack;
        law_normalize(mid);
        lemma_occupied(mid.strips);
        let shown = out.shown();
        assert(shown == crate::layout::empty_strip() || mid.strips.contains(shown)) by {
            let a = out.stack.active;
            let occ = crate::layout::occupied(mid.strips);
            if a < occ.len() {
                assert(out.stack.strips[a] == occ[a]);
            }
        }
        if mid.strips.contains(shown) {
            let j = mid.strips.index_of(shown);
            if j != k {
                assert(is_modest_strip(st.strips[j]));
            }
        }
        if let Some(f) = w.heir(id, gap) {
            lemma_column_index(shown, f);
            if let Some(d) = shown.column_index_of(f) {
                assert(shown.columns[d].tiles.contains(f));
                assert(-0x2400_0000 <= shown.columns[d].x <= 0x2000_0000 && short(
                    shown.columns[d].width,
                ));
            }
        }
    }
}

} // verus!
