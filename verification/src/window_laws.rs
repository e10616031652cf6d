//! Where a window goes that appears, who has the focus when one goes, and when
//! the focus follows one to the foreground.

use vstd::prelude::*;

use crate::filter::Decision;
use crate::focus_laws::{
    brought_forward, focus_followed, focus_in_view, front, in_view, is_resumed, is_tile,
    last_tile, law_brought_forward, law_settling, lemma_followed, lemma_last_tile,
    lemma_monitor_at, lemma_return_resumes, lemma_settled_shows, lemma_some_tile, lemma_strip_at,
    lemma_tile_at,
};
use crate::geometry::{Border, Edges, law_onto_reaches_work, onto};
use crate::layout::{
    ColumnView, Rect, RectView, StackView, StripView, WindowId, empty_strip, lemma_column_index,
    occupied, occurrences, without,
};
use crate::layout_laws::{
    lemma_insert_index, lemma_occupied_whole, lemma_without, lemma_without_is_remove, strips_apart,
};
use crate::monitors::{MonitorView, lemma_monitor_of, managed, monitor_of};
use crate::scan::ScanEntry;
use crate::tiling::{lemma_showing, lemma_taken_in, lemma_taken_out};
use crate::wm::{
    Action, WmView, adopt_actions, entry_color, entry_fits, lemma_adopted, rect_edges,
};
use crate::wm_windows::{lemma_heir, without_handle};

verus! {

// ---------------------------------------------------------------------------
// New columns
// ---------------------------------------------------------------------------

/// A new column goes to position `p`: right of the anchor's, or to the end where
/// the anchor is not on the strip.
pub open spec fn goes_to(s: StripView, anchor: Option<WindowId>, p: int) -> bool {
    match anchor {
        Some(a) => if exists|c: int|
            0 <= c < s.columns.len() && (#[trigger] s.columns[c]).tiles.contains(a) {
            1 <= p <= s.columns.len() && s.columns[p - 1].tiles.contains(a)
        } else {
            p == s.columns.len()
        },
        None => p == s.columns.len(),
    }
}

/// The strip has one more column, at `p`: `id` alone, of this width, a gap right
/// of the column before. Those before it are as they were, those behind it moved
/// right by its width and the gap.
pub open spec fn has_new_column(
    after: StripView,
    s: StripView,
    p: int,
    id: WindowId,
    width: int,
    gap: int,
) -> bool {
    &&& 0 <= p <= s.columns.len()
    &&& after.columns.len() == s.columns.len() + 1
    &&& after.columns[p].tiles == seq![id]
    &&& after.columns[p].width == width
    &&& after.columns[p].saved_width is None
    &&& after.columns[p].x == if p == 0 {
        0
    } else {
        s.columns[p - 1].x + s.columns[p - 1].width + gap
    }
    &&& forall|j: int| 0 <= j < p ==> #[trigger] after.columns[j] == s.columns[j]
    &&& forall|j: int|
        p < j < after.columns.len() ==> #[trigger] after.columns[j] == (ColumnView {
            x: s.columns[j - 1].x + width + gap,
            ..s.columns[j - 1]
        })
}

/// An insertion puts a new column right of the anchor's.
pub proof fn law_insertion(
    s: StripView,
    anchor: Option<WindowId>,
    id: WindowId,
    width: int,
    gap: int,
)
    ensures
        ({
            let p = s.insert_index(anchor);
            let after = s.insert_column_after(anchor, id, width, gap);
            &&& goes_to(s, anchor, p)
            &&& has_new_column(after, s, p, id, width, gap)
            &&& after.offset_x == s.offset_x
            &&& after.last_focused == s.last_focused
        }),
{
    lemma_insert_index(s, anchor);
    if let Some(a) = anchor {
        lemma_column_index(s, a);
        assert(s.contains(a) == exists|c: int|
            0 <= c < s.columns.len() && (#[trigger] s.columns[c]).tiles.contains(a));
    }
}

/// Putting the focus on the window of a new column leaves it one.
pub proof fn lemma_new_column_settled(
    s: StripView,
    after: StripView,
    p: int,
    id: WindowId,
    width: int,
    gap: int,
    viewport_w: int,
)
    requires
        after.once(),
        has_new_column(after, s, p, id, width, gap),
    ensures
        has_new_column(after.settle(id, viewport_w), s, p, id, width, gap),
        has_new_column(after.mark(id, viewport_w), s, p, id, width, gap),
        in_view(after.settle(id, viewport_w), p, id, viewport_w),
        in_view(after.mark(id, viewport_w), p, id, viewport_w),
{
    assert(is_tile(after, p, 0, id));
    law_settling(after, p, 0, id, viewport_w);
    crate::focus_laws::law_marking(after, p, 0, id, viewport_w);
    let t = after.settle(id, viewport_w);
    assert forall|j: int| p < j < t.columns.len() implies #[trigger] t.columns[j] == (ColumnView {
        x: s.columns[j - 1].x + width + gap,
        ..s.columns[j - 1]
    }) by {
        assert(t.columns[j] == after.columns[j]);
    }
    assert forall|j: int| 0 <= j < p implies #[trigger] t.columns[j] == s.columns[j] by {
        assert(t.columns[j] == after.columns[j]);
    }
}

/// Bringing a stack into shape whose strips, but for the bottom one, all have
/// columns only touches the bottom one, or adds one below it.
pub proof fn lemma_shape_kept(st: StackView)
    requires
        0 <= st.active < st.strips.len(),
        forall|j: int|
            0 <= j < st.strips.len() - 1 ==> (#[trigger] st.strips[j]).columns.len() > 0,
    ensures
        st.normalize().active == st.active,
        forall|j: int|
            0 <= j < st.strips.len() - 1 ==> #[trigger] st.normalize().strips[j] == st.strips[j],
        st.strips[st.strips.len() - 1].columns.len() > 0 ==> {
            &&& st.normalize().strips.len() == st.strips.len() + 1
            &&& st.normalize().strips[st.strips.len() - 1] == st.strips[st.strips.len() - 1]
        },
        st.strips[st.strips.len() - 1].columns.len() == 0 ==> {
            &&& st.normalize().strips.len() == st.strips.len()
            &&& st.normalize().strips[st.strips.len() - 1] == empty_strip()
        },
{
    reveal(Seq::filter);
    let n = st.strips.len() as int;
    let head = st.strips.drop_last();
    assert forall|j: int| 0 <= j < head.len() implies (#[trigger] head[j]).columns.len() > 0 by {
        assert(st.strips[j].columns.len() > 0);
    }
    lemma_occupied_whole(head);
    assert(occupied(st.strips) == if st.strips[n - 1].columns.len() > 0 {
        head.push(st.strips[n - 1])
    } else {
        head
    });
    let t = st.strips.take(st.active);
    assert forall|j: int| 0 <= j < t.len() implies (#[trigger] t[j]).columns.len() > 0 by {
        assert(st.strips[j].columns.len() > 0);
    }
    lemma_occupied_whole(t);
}

/// What is known of a window's frame: where it stands, and how far the window
/// reaches past it.
pub open spec fn frame_known(w: WmView, h: u64, window: Edges, frame: Edges) -> bool {
    &&& w.visual.contains_key(h)
    &&& w.visual[h] == (Rect {
        x: frame.left,
        y: frame.top,
        w: (frame.right - frame.left) as i32,
        h: (frame.bottom - frame.top) as i32,
    })
    &&& w.borders.contains_key(h)
    &&& w.borders[h] == (Border {
        left: (frame.left - window.left) as i32,
        top: (frame.top - window.top) as i32,
        right: (window.right - frame.right) as i32,
        bottom: (window.bottom - frame.bottom) as i32,
    })
}

/// A window that appears and is to be tiled, and is not yet, gets a column of
/// its own of the default width on the strip on show, right of the focused
/// window's, or at the end where that is not on the strip. It has the focus and
/// is in view. Every other strip and monitor is as before.
pub proof fn law_new_window_opens_right_of_focus(
    w: WmView,
    e: ScanEntry,
    h: u64,
    iconic: bool,
    gap: int,
)
    requires
        w.wf(),
        forall|i: int| 0 <= i < w.monitors.len() ==> !(#[trigger] w.monitors[i]).stack.contains(
            WindowId(h),
        ),
        e.decision == Decision::Manage,
        e.elevated != Some(true),
        !iconic,
    ensures
        ({
            let id = WindowId(h);
            let a = w.active_monitor;
            let m = w.monitors[a];
            let after = w.appeared(e, h, iconic, gap);
            let now = after.monitors[a];
            let frame = match e.frame {
                Some(f) => f,
                None => e.rect,
            };
            &&& after.focused == Some(id)
            &&& after.active_monitor == a
            &&& focus_followed(after, front(w).offset_x)
            &&& exists|p: int| #[trigger]
                goes_to(front(w), w.focused, p) && has_new_column(
                    front(after),
                    front(w),
                    p,
                    id,
                    m.default_width,
                    gap,
                )
            &&& front(after).last_focused == Some(id)
            &&& now == (MonitorView { stack: now.stack, ..m })
            &&& now.stack.active == m.stack.active
            &&& forall|j: int|
                0 <= j < m.stack.strips.len() - 1 && j != m.stack.active
                    ==> #[trigger] now.stack.strips[j] == m.stack.strips[j]
            &&& after.monitors.len() == w.monitors.len()
            &&& forall|j: int|
                0 <= j < w.monitors.len() && j != a ==> #[trigger] after.monitors[j]
                    == w.monitors[j]
            &&& frame_known(after, h, e.rect, frame)
            &&& forall|x: u64|
                x != h ==> after.visual.contains_key(x) == #[trigger] w.visual.contains_key(x) && (
                w.visual.contains_key(x) ==> after.visual[x] == w.visual[x])
            &&& after.fullscreen == w.fullscreen
            &&& after.pinned == w.pinned
            &&& after.cross_follow == w.cross_follow
            &&& after.focus_guard == w.focus_guard
        }),
{
    let id = WindowId(h);
    let a = w.active_monitor;
    let m = w.monitors[a];
    let st = m.stack;
    let s = front(w);
    assert(st.sound());
    assert(!st.contains(id));
    assert(!managed(w.monitors, id));
    let anchor = w.focused_here();
    let t = w.adopted(a, e, h, anchor, gap);
    lemma_adopted(w, a, e, h, anchor, gap);
    lemma_taken_in(m, anchor, id, gap);
    let grown = s.insert_column_after(anchor, id, m.default_width, gap);
    law_insertion(s, anchor, id, m.default_width, gap);
    let p = s.insert_index(anchor);
    if let Some(f) = w.focused {
        if s.contains(f) {
            assert(st.strips[st.active].contains(f));
            assert(st.contains(f));
        }
        assert(s.contains(f) == exists|c: int|
            0 <= c < s.columns.len() && (#[trigger] s.columns[c]).tiles.contains(f));
    }
    assert(goes_to(s, w.focused, p));
    let mid = m.with_shown(grown).stack;
    assert forall|j: int| 0 <= j < mid.strips.len() - 1 implies (
    #[trigger] mid.strips[j]).columns.len() > 0 by {
        assert(st.strips[j].columns.len() > 0);
    }
    lemma_shape_kept(mid);
    let taken = m.taken_in(anchor, id, gap);
    assert(taken.stack.sound());
    assert(taken.stack.strips[taken.stack.active].sound());
    lemma_new_column_settled(s, taken.shown(), p, id, m.default_width, gap, m.viewport_w);
    lemma_settled_shows(taken, id);
    let after = w.appeared(e, h, iconic, gap);
    assert(after.monitors[a] == taken.settled_on(id));
    assert(front(after) == taken.shown().settle(id, m.viewport_w));
    assert(taken.shown().contains(id));
    let (c, i) = lemma_some_tile(taken.shown(), id);
    law_settling(taken.shown(), c, i, id, m.viewport_w);
    lemma_followed(after, taken.shown(), id);
}

/// A window that is tiled already, that is not to be tiled, that is of an
/// elevated program or that is minimized changes nothing by appearing.
pub proof fn law_other_windows_are_left_alone(
    w: WmView,
    e: ScanEntry,
    h: u64,
    iconic: bool,
    colors: Option<(u32, u32)>,
    gap: int,
    i: int,
)
    requires
        (0 <= i < w.monitors.len() && w.monitors[i].stack.contains(WindowId(h))) || e.decision
            != Decision::Manage || e.elevated == Some(true) || iconic,
    ensures
        w.appeared(e, h, iconic, gap) == w,
        w.appeared_actions(e, h, iconic, colors) == Seq::<Action>::empty(),
{
}

/// A window taken in asks for its place to be remembered, for its opacity, for
/// the focus, for the places to be written out, and for its frame's colour where
/// frames are coloured. The place remembered is where it stood, if any of it was
/// on the work area, and else one on the work area, of the same size.
pub proof fn law_new_window_asks(
    w: WmView,
    e: ScanEntry,
    h: u64,
    iconic: bool,
    colors: Option<(u32, u32)>,
)
    requires
        !managed(w.monitors, WindowId(h)),
        e.decision == Decision::Manage,
        e.elevated != Some(true),
        !iconic,
    ensures
        ({
            let acts = w.appeared_actions(e, h, iconic, colors);
            let work = w.monitors[w.active_monitor].work;
            &&& acts.len() == if colors is Some {
                5nat
            } else {
                4nat
            }
            &&& acts[0] matches Action::Remember(x, place) && x == h && is_place_of(
                place,
                e,
                work,
            )
            &&& acts[1] == Action::Heal(h)
            &&& acts[2] == Action::Focus(h)
            &&& acts[3] == Action::Persist
            &&& colors matches Some(c) ==> acts[4] == Action::Color(h, c.1)
        }),
{
    lemma_place_remembered(e, w.monitors[w.active_monitor].work);
}

/// The window is put back to where it stood, if any of it was on the work area,
/// and else to a place on the work area, of the same size.
pub open spec fn is_place_of(place: Edges, e: ScanEntry, work: RectView) -> bool {
    let r = e.rect.rect();
    &&& r.meets(work) ==> place == e.rect
    &&& entry_fits(e, work) && r.w > 0 && r.h > 0 && work.w > 0 && work.h > 0 ==> {
        &&& place.rect().meets(work)
        &&& place.rect().w == r.w
        &&& place.rect().h == r.h
    }
}

proof fn lemma_place_remembered(e: ScanEntry, work: RectView)
    ensures
        is_place_of(rect_edges(onto(e.rect.rect(), work)), e, work),
{
    let r = e.rect.rect();
    if r.w > 0 && r.h > 0 && work.w > 0 && work.h > 0 {
        law_onto_reaches_work(r, work);
    }
}

/// A window open at the start asks for its place to be remembered and for its
/// opacity, and for its frame's colour where frames are coloured.
pub proof fn law_initial_window_asks(
    e: ScanEntry,
    h: u64,
    work: RectView,
    colors: Option<(u32, u32)>,
)
    ensures
        ({
            let acts = adopt_actions(e, h, work) + entry_color(h, colors);
            &&& acts.len() == if colors is Some {
                3nat
            } else {
                2nat
            }
            &&& acts[0] matches Action::Remember(x, place) && x == h && is_place_of(
                place,
                e,
                work,
            )
            &&& acts[1] == Action::Heal(h)
            &&& colors matches Some(c) ==> acts[2] == Action::Color(h, c.1)
        }),
{
    lemma_place_remembered(e, work);
}

// ---------------------------------------------------------------------------
// Windows that go
// ---------------------------------------------------------------------------

proof fn lemma_occurs_once(tiles: Seq<WindowId>, id: WindowId, i: int, n: int)
    requires
        tiles.no_duplicates(),
        0 <= i < tiles.len(),
        tiles[i] == id,
        0 <= n,
    ensures
        occurrences(tiles, id, n) == if i < n {
            1int
        } else {
            0
        },
    decreases n,
{
    if n > 0 {
        lemma_occurs_once(tiles, id, i, n - 1);
        if n <= tiles.len() && n - 1 != i {
            assert(tiles[n - 1] != tiles[i]);
        }
    }
}

/// Who has the focus when tile `i` of column `c` goes with it. In its column the
/// tile focused last, or where that is the one that goes, the one below it, or
/// above it at the bottom. Where the column goes too, the tile focused last in
/// the column that takes its place, or in the one left of it at the end.
pub open spec fn follower(s: StripView, c: int, i: int) -> Option<WindowId> {
    let tiles = s.columns[c].tiles;
    if tiles.len() > 1 {
        if last_tile(s.columns[c]) != tiles[i] {
            Some(last_tile(s.columns[c]))
        } else if i + 1 < tiles.len() {
            Some(tiles[i + 1])
        } else {
            Some(tiles[i - 1])
        }
    } else if c + 1 < s.columns.len() {
        Some(last_tile(s.columns[c + 1]))
    } else if c >= 1 {
        Some(last_tile(s.columns[c - 1]))
    } else {
        None
    }
}

/// The strip hands the focus on to the follower, which is still on it.
pub proof fn law_successor_is_next(
    s: StripView,
    c: int,
    i: int,
    id: WindowId,
    viewport_w: int,
    gap: int,
)
    requires
        s.sound(),
        is_tile(s, c, i, id),
    ensures
        s.successor(id, viewport_w, gap) == follower(s, c, i),
        follower(s, c, i) matches Some(f) ==> f != id && s.cleared(
            id,
            viewport_w,
            gap,
        ).contains(f),
        follower(s, c, i) is None <==> s.cleared(id, viewport_w, gap).columns.len() == 0,
{
    lemma_tile_at(s, c, i, id);
    let col = s.columns[c];
    let tiles = col.tiles;
    let n = tiles.len() as int;
    let rest = without(tiles, id);
    let t = s.cleared(id, viewport_w, gap);
    assert(tiles.no_duplicates());
    lemma_without_is_remove(tiles, id, i);
    lemma_occurs_once(tiles, id, i, col.active_tile as int);
    if n > 1 {
        let now = t.columns[c];
        assert(now.tiles == tiles.remove(i));
        lemma_last_tile(now);
        assert(now.active() == follower(s, c, i));
        let f = follower(s, c, i).unwrap();
        assert(t.columns[c].tiles.contains(f));
        lemma_without(tiles, id);
    } else {
        assert(rest.len() == 0);
        assert(t.columns.len() == s.columns.len() - 1);
        if s.columns.len() > 1 {
            let d = if c + 1 < s.columns.len() {
                c + 1
            } else {
                c - 1
            };
            let at = if c + 1 < s.columns.len() {
                c
            } else {
                c - 1
            };
            assert(s.columns[d].tiles.len() > 0);
            lemma_last_tile(s.columns[d]);
            assert(t.columns[at].tiles == s.columns[d].tiles);
            assert(t.columns[at].active_tile == s.columns[d].active_tile);
            let f = last_tile(s.columns[d]);
            assert(t.columns[at].tiles.contains(f));
            if f == id {
                assert(s.columns[d].tiles.contains(id) && s.columns[c].tiles.contains(id));
            }
        }
    }
}

/// The window had the focus, or lost it less than 800 milliseconds ago when the
/// focus followed a window to another monitor.
pub open spec fn has_or_just_lost_focus(w: WmView, id: WindowId, now: u64) -> bool {
    ||| w.focused == Some(id)
    ||| w.cross_follow matches Some((p, t)) && p == id && (now < t || now - t < 800)
}

/// What a window that goes asks for, after what hands the focus on: it is no
/// longer hidden or dimmed, its place is forgotten where it no longer exists,
/// and the places are written out.
pub open spec fn farewell(h: u64, alive: bool) -> Seq<Action> {
    if alive {
        seq![Action::Show(h), Action::Undim(h), Action::Persist]
    } else {
        seq![Action::Show(h), Action::Undim(h), Action::Forget(h), Action::Persist]
    }
}

/// Of strips that all have columns but for the bottom one, all but that are kept.
proof fn lemma_occupied_head(strips: Seq<StripView>)
    requires
        strips.len() > 0,
        strips.last().columns.len() == 0,
        forall|j: int| 0 <= j < strips.len() - 1 ==> (#[trigger] strips[j]).columns.len() > 0,
    ensures
        occupied(strips) == strips.drop_last(),
{
    reveal(Seq::filter);
    let head = strips.drop_last();
    assert forall|j: int| 0 <= j < head.len() implies (#[trigger] head[j]).columns.len() > 0 by {
        assert(strips[j].columns.len() > 0);
    }
    lemma_occupied_whole(head);
}

/// Taking a strip out of strips with columns leaves strips with columns.
proof fn lemma_filled_remove(strips: Seq<StripView>, k: int, n: int)
    requires
        0 <= k < n <= strips.len(),
        forall|j: int| 0 <= j < n ==> (#[trigger] strips[j]).columns.len() > 0,
    ensures
        forall|j: int| 0 <= j < n - 1 ==> (#[trigger] strips.remove(k)[j]).columns.len() > 0,
{
    assert forall|j: int| 0 <= j < n - 1 implies (#[trigger] strips.remove(k)[j]).columns.len()
        > 0 by {
        if j < k {
            assert(strips.remove(k)[j] == strips[j]);
        } else {
            assert(strips.remove(k)[j] == strips[j + 1]);
        }
    }
}

/// A workspace that lost its last column goes. Those below it move up by one and
/// the one on show stays on show; where that is the one that went, the next one
/// below takes its place.
pub proof fn law_emptied_workspace_goes(st: StackView, k: int, t: StripView)
    requires
        st.wf(),
        0 <= k < st.strips.len() - 1,
        t.columns.len() == 0,
    ensures
        ({
            let now = (StackView { strips: st.strips.update(k, t), ..st }).normalize();
            &&& now.strips.len() == st.strips.len() - 1
            &&& now.active == if k < st.active {
                st.active - 1
            } else {
                st.active
            }
            &&& forall|j: int|
                0 <= j < now.strips.len() - 1 ==> #[trigger] now.strips[j] == st.strips[if j < k {
                    j
                } else {
                    j + 1
                }]
            &&& now.strips[now.strips.len() - 1] == empty_strip()
        }),
{
    let n = st.strips.len() as int;
    let left = st.strips.remove(k);
    lemma_occupied_without(st.strips, k, t);
    assert(st.strips.last() == st.strips[n - 1]);
    lemma_filled_remove(st.strips, k, n - 1);
    assert(left.last() == st.strips.last());
    lemma_occupied_head(left);
    lemma_occupied_before(st, k, t);
}

/// How many workspaces above the one on show still hold a window.
proof fn lemma_occupied_before(st: StackView, k: int, t: StripView)
    requires
        st.wf(),
        0 <= k < st.strips.len() - 1,
        t.columns.len() == 0,
    ensures
        occupied(st.strips.update(k, t).take(st.active)).len() == if k < st.active {
            st.active - 1
        } else {
            st.active
        },
{
    let b = st.strips.take(st.active);
    assert forall|j: int| 0 <= j < b.len() implies (#[trigger] b[j]).columns.len() > 0 by {
        assert(st.strips[j].columns.len() > 0);
    }
    if k < st.active {
        assert(st.strips.update(k, t).take(st.active) =~= b.update(k, t));
        lemma_occupied_without(b, k, t);
        lemma_filled_remove(b, k, b.len() as int);
        lemma_occupied_whole(b.remove(k));
    } else {
        assert(st.strips.update(k, t).take(st.active) =~= b);
        lemma_occupied_whole(b);
    }
}

/// What is on show once a window was taken out of workspace `k`.
proof fn lemma_shown_after(m: MonitorView, k: int, id: WindowId, gap: int)
    requires
        m.stack.sound(),
        0 <= k < m.stack.strips.len(),
        m.stack.strips[k].contains(id),
    ensures
        ({
            let st = m.stack;
            let t = st.strips[k].cleared(id, m.viewport_w, gap);
            let shown = m.taken_out(id, gap).shown();
            &&& st.strip_index_of(id) == Some(k)
            &&& k + 1 < st.strips.len()
            &&& k == st.active && t.columns.len() > 0 ==> shown == t
            &&& k == st.active && t.columns.len() == 0 ==> shown == if k + 2 < st.strips.len() {
                st.strips[k + 1]
            } else {
                empty_strip()
            }
            &&& k != st.active && st.active < st.strips.len() - 1 ==> shown
                == st.strips[st.active]
            &&& k != st.active && st.active == st.strips.len() - 1 ==> shown == empty_strip()
        }),
{
    let st = m.stack;
    let n = st.strips.len() as int;
    lemma_strip_at(st, k, id);
    let t = st.strips[k].cleared(id, m.viewport_w, gap);
    let mid = m.with_strip(k, t).stack;
    assert(st.strips.last() == st.strips[n - 1]);
    let c = choose|c: int|
        0 <= c < st.strips[k].columns.len() && (#[trigger] st.strips[k].columns[c]).tiles.contains(
            id,
        );
    assert(k + 1 < n);
    if t.columns.len() > 0 {
        assert forall|j: int| 0 <= j < n - 1 implies (#[trigger] mid.strips[j]).columns.len()
            > 0 by {
            assert(st.strips[j].columns.len() > 0);
        }
        lemma_shape_kept(mid);
    } else {
        law_emptied_workspace_goes(st, k, t);
    }
}

proof fn lemma_occupied_without(strips: Seq<StripView>, k: int, t: StripView)
    requires
        0 <= k < strips.len(),
        t.columns.len() == 0,
    ensures
        occupied(strips.update(k, t)) == occupied(strips.remove(k)),
    decreases strips.len(),
{
    reveal(Seq::filter);
    let front = strips.drop_last();
    let up = strips.update(k, t);
    if k == strips.len() - 1 {
        assert(up.drop_last() =~= front);
        assert(strips.remove(k) =~= front);
    } else {
        lemma_occupied_without(front, k, t);
        assert(up.drop_last() =~= front.update(k, t));
        assert(strips.remove(k).drop_last() =~= front.remove(k));
        assert(strips.remove(k).last() == strips.last());
    }
}

/// Who has the focus when a window goes with it, that is tile `i` of column `c`
/// of workspace `k` of its monitor: on the workspace on show its follower there,
/// and where it was the last there, whoever had the focus last on the workspace
/// below, which is then shown. A window of another workspace leaves the one on
/// show as it is.
pub open spec fn inherits(m: MonitorView, k: int, c: int, i: int, f: Option<WindowId>) -> bool {
    let st = m.stack;
    if k != st.active {
        is_resumed(st.strips[st.active], f)
    } else {
        match follower(st.strips[k], c, i) {
            Some(g) => f == Some(g),
            None => is_resumed(st.strips[k + 1], f),
        }
    }
}

proof fn lemma_heir_inherits(w: WmView, mi: int, k: int, c: int, i: int, id: WindowId, gap: int)
    requires
        w.wf(),
        0 <= mi < w.monitors.len(),
        0 <= k < w.monitors[mi].stack.strips.len(),
        is_tile(w.monitors[mi].stack.strips[k], c, i, id),
    ensures
        monitor_of(w.monitors, id) == Some(mi),
        inherits(w.monitors[mi], k, c, i, w.heir(id, gap)),
{
    let m = w.monitors[mi];
    let st = m.stack;
    let s = st.strips[k];
    assert(st.sound());
    assert(s.sound());
    lemma_tile_at(s, c, i, id);
    lemma_strip_at(st, k, id);
    lemma_monitor_at(w.monitors, mi, id);
    law_successor_is_next(s, c, i, id, m.viewport_w, gap);
    lemma_shown_after(m, k, id, gap);
    let shown = m.taken_out(id, gap).shown();
    lemma_taken_out(m, id, gap);
    assert(m.taken_out(id, gap).stack.strips[m.taken_out(id, gap).stack.active].sound());
    lemma_return_resumes(shown);
    assert(st.strips[st.active].sound());
    assert(st.strips[k + 1].sound());
    assert(st.strips.last() == st.strips[st.strips.len() - 1]);
    let succ = s.successor(id, m.viewport_w, gap);
    if k != st.active {
        if let Some(f) = succ {
            let t = s.cleared(id, m.viewport_w, gap);
            assert(s.contains(f)) by {
                lemma_cleared_from(s, id, m.viewport_w, gap, f);
            }
            assert(!shown.contains(f)) by {
                if shown.contains(f) {
                    assert(strips_apart(st.strips));
                    assert(st.strips[st.active].contains(f) && st.strips[k].contains(f));
                }
            }
        }
    }
}

proof fn lemma_cleared_from(s: StripView, id: WindowId, viewport_w: int, gap: int, f: WindowId)
    requires
        s.once(),
        s.cleared(id, viewport_w, gap).contains(f),
    ensures
        s.contains(f),
{
    crate::layout_laws::law_remove_takes(s, id, gap);
    let cut = s.remove_window(id, gap);
    let t = s.cleared(id, viewport_w, gap);
    let c = choose|c: int| 0 <= c < t.columns.len() && (#[trigger] t.columns[c]).tiles.contains(f);
    assert(cut.columns[c].tiles.contains(f));
    assert(cut.contains(f));
}

/// A window that goes with the focus hands it on within its monitor, which is
/// then the active one: the window that has it is in view, is asked for, and is
/// defended from then on. Where its workspace and the one below are empty, the
/// focus is on no window.
pub proof fn law_focus_stays_on_monitor(
    w: WmView,
    mi: int,
    k: int,
    c: int,
    i: int,
    h: u64,
    now: u64,
    alive: bool,
    gap: int,
)
    requires
        w.wf(),
        0 <= mi < w.monitors.len(),
        0 <= k < w.monitors[mi].stack.strips.len(),
        is_tile(w.monitors[mi].stack.strips[k], c, i, WindowId(h)),
        has_or_just_lost_focus(w, WindowId(h), now),
    ensures
        ({
            let id = WindowId(h);
            let after = w.gone(h, now, gap);
            let acts = w.gone_actions(h, now, alive, gap);
            exists|f: Option<WindowId>| #[trigger]
                inherits(w.monitors[mi], k, c, i, f) && match f {
                    Some(g) => {
                        &&& after.focused == Some(g)
                        &&& after.active_monitor == mi
                        &&& focus_in_view(after)
                        &&& front(after).last_focused == Some(g)
                        &&& after.focus_guard == Some((g, now))
                        &&& acts == seq![Action::Focus(g.0)] + farewell(h, alive)
                    },
                    None => {
                        &&& after.focused == if w.focused == Some(id) {
                            None
                        } else {
                            w.focused
                        }
                        &&& after.active_monitor == w.active_monitor
                        &&& after.focus_guard == w.focus_guard
                        &&& acts == farewell(h, alive)
                    },
                }
        }),
{
    let id = WindowId(h);
    let after = w.gone(h, now, gap);
    let acts = w.gone_actions(h, now, alive, gap);
    lemma_heir_inherits(w, mi, k, c, i, id, gap);
    lemma_monitor_of(w.monitors, id);
    lemma_heir(w, id, gap);
    let f = w.heir(id, gap);
    assert(w.loses_focus(id, now));
    let m = w.monitors[mi];
    assert(m.stack.sound());
    lemma_taken_out(m, id, gap);
    if let Some(g) = f {
        let out = m.taken_out(id, gap);
        lemma_settled_shows(out, g);
        let (d, j) = lemma_some_tile(out.shown(), g);
        assert(out.stack.strips[out.stack.active].sound());
        law_settling(out.shown(), d, j, g, m.viewport_w);
        assert(after.monitors[mi] == out.settled_on(g));
        assert(acts =~= seq![Action::Focus(g.0)] + farewell(h, alive));
    } else {
        assert(acts =~= farewell(h, alive));
    }
    assert(inherits(w.monitors[mi], k, c, i, f));
}

/// Going with the focus or without it leaves the same windows in the same places:
/// with it, the window that has it then is brought forward on its strip.
pub proof fn law_focus_is_all_that_differs(
    w: WmView,
    mi: int,
    k: int,
    c: int,
    i: int,
    h: u64,
    now: u64,
    gap: int,
)
    requires
        w.wf(),
        0 <= mi < w.monitors.len(),
        0 <= k < w.monitors[mi].stack.strips.len(),
        is_tile(w.monitors[mi].stack.strips[k], c, i, WindowId(h)),
        has_or_just_lost_focus(w, WindowId(h), now),
    ensures
        ({
            let after = w.gone(h, now, gap);
            let plain = (WmView { focused: None, cross_follow: None, ..w }).gone(h, now, gap);
            let m = plain.monitors[mi];
            let s = m.stack.strips[m.stack.active];
            &&& after.monitors.len() == plain.monitors.len()
            &&& forall|j: int|
                0 <= j < plain.monitors.len() && j != mi ==> #[trigger] after.monitors[j]
                    == plain.monitors[j]
            &&& exists|f: Option<WindowId>| #[trigger]
                inherits(w.monitors[mi], k, c, i, f) && match f {
                    Some(g) => {
                        &&& after.monitors[mi] == m.with_shown(front(after))
                        &&& brought_forward(front(after), s, g, m.viewport_w)
                    },
                    None => after.monitors[mi] == m,
                }
        }),
{
    let id = WindowId(h);
    let bare = WmView { focused: None, cross_follow: None, ..w };
    lemma_heir_inherits(w, mi, k, c, i, id, gap);
    lemma_monitor_of(w.monitors, id);
    assert(w.loses_focus(id, now));
    lemma_heir(w, id, gap);
    let m = w.monitors[mi];
    assert(m.stack.sound());
    lemma_taken_out(m, id, gap);
    let out = m.taken_out(id, gap);
    assert(bare.gone(h, now, gap).monitors[mi] == out);
    if let Some(g) = w.heir(id, gap) {
        assert(out.stack.strips[out.stack.active].sound());
        law_brought_forward(out.shown(), g, m.viewport_w);
        let after = w.gone(h, now, gap);
        assert(after.monitors[mi] == out.settled_on(g));
        assert(front(after) == out.shown().settle(g, m.viewport_w));
    }
    assert(inherits(w.monitors[mi], k, c, i, w.heir(id, gap)));
}

/// A window that goes without the focus leaves it where it is.
pub proof fn law_others_go_without_focus(
    w: WmView,
    h: u64,
    now: u64,
    alive: bool,
    gap: int,
)
    requires
        w.wf(),
        managed(w.monitors, WindowId(h)),
        !has_or_just_lost_focus(w, WindowId(h), now),
    ensures
        ({
            let after = w.gone(h, now, gap);
            &&& after.focused == w.focused
            &&& after.active_monitor == w.active_monitor
            &&& after.focus_guard == w.focus_guard
            &&& w.gone_actions(h, now, alive, gap) == farewell(h, alive)
        }),
{
    lemma_monitor_of(w.monitors, WindowId(h));
    assert(!w.loses_focus(WindowId(h), now));
    assert(w.gone_actions(h, now, alive, gap) =~= farewell(h, alive));
}

proof fn lemma_without_handle(s: Seq<u64>, h: u64)
    ensures
        forall|x: u64| #[trigger] without_handle(s, h).contains(x) <==> s.contains(x) && x != h,
    decreases s.len(),
{
    reveal(Seq::filter);
    if s.len() > 0 {
        let front = s.drop_last();
        lemma_without_handle(front, h);
        let head = without_handle(front, h);
        let all = without_handle(s, h);
        assert forall|x: u64| #[trigger] all.contains(x) <==> s.contains(x) && x != h by {
            if s.contains(x) {
                let k = s.index_of(x);
                if k < front.len() {
                    assert(front[k] == x);
                }
            }
            if front.contains(x) {
                assert(s[front.index_of(x)] == x);
            }
            assert(s[s.len() - 1] == s.last());
            if all.contains(x) {
                let k = all.index_of(x);
                if k < head.len() {
                    assert(head[k] == x);
                    assert(head.contains(x));
                }
            }
            if s.contains(x) && x != h {
                if front.contains(x) {
                    assert(head.contains(x));
                    assert(all[head.index_of(x)] == x);
                } else {
                    assert(all[head.len() as int] == x);
                }
            }
        }
    }
}

/// Of a window that went nothing is kept: not where it stands, not its border,
/// pin or fullscreen, nor that the focus left it. What is kept of the others
/// stays, and so do the other monitors.
pub proof fn law_gone_windows_are_forgotten(w: WmView, h: u64, now: u64, gap: int)
    requires
        w.wf(),
        managed(w.monitors, WindowId(h)),
    ensures
        ({
            let after = w.gone(h, now, gap);
            &&& !after.visual.contains_key(h)
            &&& !after.borders.contains_key(h)
            &&& forall|x: u64|
                x != h ==> after.visual.contains_key(x) == #[trigger] w.visual.contains_key(x) && (
                w.visual.contains_key(x) ==> after.visual[x] == w.visual[x])
            &&& forall|x: u64|
                x != h ==> after.borders.contains_key(x) == #[trigger] w.borders.contains_key(x)
                    && (w.borders.contains_key(x) ==> after.borders[x] == w.borders[x])
            &&& forall|x: u64| #[trigger]
                after.pinned.contains(x) <==> w.pinned.contains(x) && x != h
            &&& after.fullscreen == if w.fullscreen == Some(h) {
                None
            } else {
                w.fullscreen
            }
            &&& after.cross_follow == match w.cross_follow {
                Some((p, t)) => if p == WindowId(h) {
                    None
                } else {
                    Some((p, t))
                },
                None => None,
            }
            &&& after.monitors.len() == w.monitors.len()
            &&& forall|j: int|
                0 <= j < w.monitors.len() && !(#[trigger] w.monitors[j]).stack.contains(WindowId(h))
                    ==> after.monitors[j] == w.monitors[j]
        }),
{
    lemma_without_handle(w.pinned, h);
    lemma_monitor_of(w.monitors, WindowId(h));
}

/// A window that is not managed goes without a trace.
pub proof fn law_unknown_windows_go_unnoticed(w: WmView, h: u64, now: u64, alive: bool, gap: int)
    requires
        !managed(w.monitors, WindowId(h)),
    ensures
        w.gone(h, now, gap) == w,
        w.gone_actions(h, now, alive, gap) == Seq::<Action>::empty(),
{
}

/// The viewport lies on the columns: where it lay before, or as far that way as
/// they reach.
pub open spec fn viewport_back_on(after: StripView, offset: int, viewport_w: int) -> bool {
    let n = after.columns.len();
    let end = if n == 0 {
        0
    } else {
        after.columns[n - 1].x + after.columns[n - 1].width
    };
    let most = if end > viewport_w {
        end - viewport_w
    } else {
        0
    };
    &&& offset < 0 ==> after.offset_x == 0
    &&& 0 <= offset <= most ==> after.offset_x == offset
    &&& offset > most ==> after.offset_x == most
}

/// Tile `i` of column `c` is gone. A column it shared has the other tiles, in
/// their order, and all else as it was; the tile focused last there is still it,
/// unless it went. A column it had alone is gone, and those behind it moved left
/// by its width and the gap.
pub open spec fn closed_up(after: StripView, s: StripView, c: int, i: int, gap: int) -> bool {
    let col = s.columns[c];
    if col.tiles.len() > 1 {
        let now = after.columns[c];
        &&& after.columns.len() == s.columns.len()
        &&& now.tiles == col.tiles.remove(i)
        &&& now == (ColumnView { tiles: now.tiles, active_tile: now.active_tile, ..col })
        &&& last_tile(col) != col.tiles[i] ==> last_tile(now) == last_tile(col)
        &&& forall|j: int|
            0 <= j < s.columns.len() && j != c ==> #[trigger] after.columns[j] == s.columns[j]
    } else {
        &&& after.columns.len() == s.columns.len() - 1
        &&& forall|j: int| 0 <= j < c ==> #[trigger] after.columns[j] == s.columns[j]
        &&& forall|j: int|
            c <= j < after.columns.len() ==> #[trigger] after.columns[j] == (ColumnView {
                x: s.columns[j + 1].x - (col.width + gap),
                ..s.columns[j + 1]
            })
    }
}

/// Taking a window out closes its column up, and nothing else changes.
pub proof fn law_removal_closes_up(s: StripView, c: int, i: int, id: WindowId, gap: int)
    requires
        s.once(),
        is_tile(s, c, i, id),
    ensures
        closed_up(s.remove_window(id, gap), s, c, i, gap),
        s.remove_window(id, gap).offset_x == s.offset_x,
        s.remove_window(id, gap).last_focused == s.last_focused,
{
    lemma_tile_at(s, c, i, id);
    let col = s.columns[c];
    assert(col.tiles.no_duplicates());
    lemma_without_is_remove(col.tiles, id, i);
    lemma_occurs_once(col.tiles, id, i, col.active_tile as int);
    if col.tiles.len() > 1 {
        let now = s.remove_window(id, gap).columns[c];
        assert(now.tiles == col.tiles.remove(i));
        assert(last_tile(col) != id ==> last_tile(now) == last_tile(col));
    }
}

/// A strip that lost a window closes up, has its viewport on its columns, and no
/// longer remembers the window.
pub proof fn law_cleared_strip(
    s: StripView,
    c: int,
    i: int,
    id: WindowId,
    viewport_w: int,
    gap: int,
)
    requires
        s.once(),
        is_tile(s, c, i, id),
    ensures
        ({
            let after = s.cleared(id, viewport_w, gap);
            &&& closed_up(after, s, c, i, gap)
            &&& viewport_back_on(after, s.offset_x, viewport_w)
            &&& after.last_focused == if s.last_focused == Some(id) {
                None
            } else {
                s.last_focused
            }
        }),
{
    law_removal_closes_up(s, c, i, id, gap);
    let cut = s.remove_window(id, gap);
    if cut.columns.len() > 0 {
        assert(cut.columns.last() == cut.columns[cut.columns.len() - 1]);
    }
}

/// The workspace of a window that goes, where other windows are left on it,
/// closes up in its place, and the others stay as they are. Where the window had
/// the focus and the workspace is on show, the focus is put there afterwards.
pub proof fn law_gone_window_leaves_no_gap(
    w: WmView,
    mi: int,
    k: int,
    c: int,
    i: int,
    h: u64,
    now: u64,
    gap: int,
)
    requires
        w.wf(),
        0 <= mi < w.monitors.len(),
        0 <= k < w.monitors[mi].stack.strips.len(),
        is_tile(w.monitors[mi].stack.strips[k], c, i, WindowId(h)),
        w.monitors[mi].stack.strips[k].columns.len() > 1
            || w.monitors[mi].stack.strips[k].columns[0].tiles.len() > 1,
    ensures
        ({
            let id = WindowId(h);
            let m = w.monitors[mi];
            let st = m.stack;
            let n = w.gone(h, now, gap).monitors[mi];
            let s = n.stack.strips[k];
            &&& n == (MonitorView { stack: n.stack, ..m })
            &&& n.stack.active == st.active
            &&& n.stack.strips.len() == st.strips.len()
            &&& exists|t: StripView|
                {
                    &&& #[trigger] closed_up(t, st.strips[k], c, i, gap)
                    &&& viewport_back_on(t, st.strips[k].offset_x, m.viewport_w)
                    &&& if k == st.active && has_or_just_lost_focus(w, id, now) {
                        s == t.settle(follower(st.strips[k], c, i).unwrap(), m.viewport_w)
                    } else {
                        s == t
                    }
                }
            &&& forall|j: int|
                0 <= j < st.strips.len() - 1 && j != k && j != st.active
                    ==> #[trigger] n.stack.strips[j] == st.strips[j]
        }),
{
    let id = WindowId(h);
    let m = w.monitors[mi];
    let st = m.stack;
    let s = st.strips[k];
    assert(st.sound());
    assert(s.sound());
    lemma_tile_at(s, c, i, id);
    lemma_strip_at(st, k, id);
    lemma_monitor_at(w.monitors, mi, id);
    law_cleared_strip(s, c, i, id, m.viewport_w, gap);
    law_successor_is_next(s, c, i, id, m.viewport_w, gap);
    lemma_heir_inherits(w, mi, k, c, i, id, gap);
    let t = s.cleared(id, m.viewport_w, gap);
    assert(t.columns.len() > 0);
    let mid = m.with_strip(k, t).stack;
    let last = st.strips.len() - 1;
    assert(st.strips.last() == st.strips[last]);
    assert(k < last);
    assert forall|j: int| 0 <= j < mid.strips.len() - 1 implies (
    #[trigger] mid.strips[j]).columns.len() > 0 by {
        assert(st.strips[j].columns.len() > 0);
    }
    lemma_shape_kept(mid);
    let out = m.taken_out(id, gap);
    assert(out.stack == mid.normalize());
    assert(out.stack.strips[k] == t);
    assert(w.loses_focus(id, now) == has_or_just_lost_focus(w, id, now));
    let n = w.gone(h, now, gap).monitors[mi];
    match w.heir(id, gap) {
        Some(f) => {
            if w.loses_focus(id, now) {
                assert(n == out.settled_on(f));
            } else {
                assert(n == out);
            }
        },
        None => {
            assert(n == out);
        },
    }
    assert(closed_up(t, s, c, i, gap));
}

/// A window open at the start gets a column of the default width at the end of
/// its monitor's strip on show; the focus, the viewport and all else stay.
pub proof fn law_initial_window_goes_to_the_end(
    w: WmView,
    mi: int,
    e: ScanEntry,
    h: u64,
    gap: int,
)
    requires
        w.wf(),
        0 <= mi < w.monitors.len(),
        !managed(w.monitors, WindowId(h)),
    ensures
        ({
            let m = w.monitors[mi];
            let s = m.stack.strips[m.stack.active];
            let after = w.adopted(mi, e, h, None, gap);
            let n = after.monitors[mi];
            let t = n.stack.strips[n.stack.active];
            let frame = match e.frame {
                Some(f) => f,
                None => e.rect,
            };
            &&& has_new_column(
                t,
                s,
                s.columns.len() as int,
                WindowId(h),
                m.default_width,
                gap,
            )
            &&& t.offset_x == s.offset_x
            &&& t.last_focused == s.last_focused
            &&& n == (MonitorView { stack: n.stack, ..m })
            &&& n.stack.active == m.stack.active
            &&& frame_known(after, h, e.rect, frame)
            &&& forall|j: int|
                0 <= j < w.monitors.len() && j != mi ==> #[trigger] after.monitors[j]
                    == w.monitors[j]
            &&& after == (WmView {
                monitors: after.monitors,
                visual: after.visual,
                borders: after.borders,
                ..w
            })
        }),
{
    let id = WindowId(h);
    let m = w.monitors[mi];
    let st = m.stack;
    assert(st.sound());
    assert(!st.contains(id));
    lemma_taken_in(m, None, id, gap);
    law_insertion(m.shown(), None, id, m.default_width, gap);
    let grown = m.shown().insert_column_after(None, id, m.default_width, gap);
    let mid = m.with_shown(grown).stack;
    assert forall|j: int| 0 <= j < mid.strips.len() - 1 implies (
    #[trigger] mid.strips[j]).columns.len() > 0 by {
        assert(st.strips[j].columns.len() > 0);
    }
    lemma_shape_kept(mid);
}

// ---------------------------------------------------------------------------
// Windows that come to the foreground
// ---------------------------------------------------------------------------

/// The focus was handed on to another window than `id` less than 500
/// milliseconds ago.
pub open spec fn is_defended(w: WmView, id: WindowId, now: u64) -> bool {
    w.focus_guard matches Some((g, t)) && g != id && (now < t || now - t < 500)
}

/// The focus follows a tiled window to the foreground, to its monitor and
/// workspace, and brings it into view. It does not follow one on another monitor
/// while the focus handed on is defended, which is then asked for again, nor one
/// that comes up there because the focused window is gone or minimized.
pub proof fn law_focus_follows_foreground(
    w: WmView,
    mi: int,
    k: int,
    c: int,
    i: int,
    id: WindowId,
    now: u64,
    orphaned: bool,
)
    requires
        w.wf(),
        0 <= mi < w.monitors.len(),
        0 <= k < w.monitors[mi].stack.strips.len(),
        is_tile(w.monitors[mi].stack.strips[k], c, i, id),
    ensures
        ({
            let after = w.foreground(id, now, orphaned);
            let acts = w.foreground_actions(id, now);
            let elsewhere = mi != w.active_monitor;
            let defended = is_defended(w, id, now);
            let m = w.monitors[mi];
            let held = after.monitors[mi];
            &&& after.focus_guard == if defended {
                w.focus_guard
            } else {
                None
            }
            &&& acts == if elsewhere && defended {
                seq![Action::Focus(w.focus_guard.unwrap().0.0)]
            } else {
                Seq::empty()
            }
            &&& if elsewhere && (defended || (w.focused is Some && orphaned)) {
                after == (WmView { focus_guard: after.focus_guard, ..w })
            } else {
                &&& after.focused == Some(id)
                &&& after.active_monitor == mi
                &&& focus_in_view(after)
                &&& held.stack.active == k
                &&& held == (MonitorView { stack: held.stack, ..m })
                &&& held.stack.strips.len() == m.stack.strips.len()
                &&& held.stack.strips[k].last_focused == Some(id)
                &&& brought_forward(
                    held.stack.strips[k],
                    m.stack.strips[k],
                    id,
                    m.viewport_w,
                )
                &&& forall|j: int|
                    0 <= j < m.stack.strips.len() && j != k ==> #[trigger] held.stack.strips[j]
                        == m.stack.strips[j]
                &&& after.monitors.len() == w.monitors.len()
                &&& forall|j: int|
                    0 <= j < w.monitors.len() && j != mi ==> #[trigger] after.monitors[j]
                        == w.monitors[j]
                &&& after.cross_follow == if elsewhere {
                    match w.focused {
                        Some(f) => Some((f, now)),
                        None => None,
                    }
                } else {
                    w.cross_follow
                }
                &&& after == (WmView {
                    monitors: after.monitors,
                    active_monitor: mi,
                    focused: Some(id),
                    cross_follow: after.cross_follow,
                    focus_guard: after.focus_guard,
                    ..w
                })
            }
        }),
{
    let m = w.monitors[mi];
    let s = m.stack.strips[k];
    assert(m.stack.sound());
    assert(s.sound());
    lemma_tile_at(s, c, i, id);
    lemma_strip_at(m.stack, k, id);
    lemma_monitor_at(w.monitors, mi, id);
    lemma_showing(m, id);
    lemma_settled_shows(m.showing(id), id);
    law_settling(s, c, i, id, m.viewport_w);
    law_brought_forward(s, id, m.viewport_w);
}

/// A window that is not tiled changes no focus by coming to the foreground.
pub proof fn law_untiled_foreground_keeps_focus(
    w: WmView,
    id: WindowId,
    now: u64,
    orphaned: bool,
)
    requires
        !managed(w.monitors, id),
    ensures
        ({
            let after = w.foreground(id, now, orphaned);
            &&& after == (WmView { focus_guard: after.focus_guard, ..w })
            &&& w.foreground_actions(id, now) == Seq::<Action>::empty()
        }),
{
}

/// At the start the focus is on the foreground window where that is tiled on the
/// workspace on show of its monitor, which is then the active one; nothing is
/// moved.
pub proof fn law_start_focus(w: WmView, mi: int, c: int, i: int, id: WindowId)
    requires
        w.wf(),
        0 <= mi < w.monitors.len(),
        is_tile(w.monitors[mi].stack.strips[w.monitors[mi].stack.active], c, i, id),
    ensures
        ({
            let after = w.started(id);
            let s = w.monitors[mi].stack.strips[w.monitors[mi].stack.active];
            &&& after.focused == Some(id)
            &&& after.active_monitor == mi
            &&& front(after).last_focused == Some(id)
            &&& front(after).offset_x == s.offset_x
            &&& front(after).columns.len() == s.columns.len()
            &&& last_tile(front(after).columns[c]) == id
            &&& forall|j: int|
                0 <= j < s.columns.len() && j != c ==> #[trigger] front(after).columns[j]
                    == s.columns[j]
        }),
{
    let m = w.monitors[mi];
    let s = m.stack.strips[m.stack.active];
    assert(m.stack.sound());
    assert(s.sound());
    lemma_tile_at(s, c, i, id);
    lemma_strip_at(m.stack, m.stack.active, id);
    lemma_monitor_at(w.monitors, mi, id);
}

/// A foreground window that is not tiled leaves the state at the start as it is.
pub proof fn law_start_without_focus(w: WmView, id: WindowId)
    requires
        !managed(w.monitors, id),
    ensures
        w.started(id) == w,
{
}

} // verus!
