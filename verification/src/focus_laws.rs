//! Where the focus goes, and that what has it is in view.

use vstd::prelude::*;

use crate::events::WmEvent;
use crate::layout::{
    ColumnView, FocusDir, StackView, StripView, WindowId, lemma_column_index,
    lemma_column_index_is, lemma_strip_index_is,
};
use crate::layout_laws::{
    law_tiles_stay, lemma_same_tiles, strips_apart,
};
use crate::monitors::{MonitorView, lemma_monitor_of_is, monitor_of, monitors_sound};
use crate::tiling::lemma_settle_tiles;
use crate::wm::{Action, WmView};

verus! {

// ---------------------------------------------------------------------------
// Places
// ---------------------------------------------------------------------------

/// The strip on show on the active monitor.
pub open spec fn front(w: WmView) -> StripView {
    let m = w.monitors[w.active_monitor];
    m.stack.strips[m.stack.active]
}

/// Tile `i` of column `c` is `id`.
pub open spec fn is_tile(s: StripView, c: int, i: int, id: WindowId) -> bool {
    &&& 0 <= c < s.columns.len()
    &&& 0 <= i < s.columns[c].tiles.len()
    &&& s.columns[c].tiles[i] == id
}

/// Which tile of a column was focused last, or its last one where that is no
/// longer there.
pub open spec fn last_index(c: ColumnView) -> int {
    if c.active_tile < c.tiles.len() {
        c.active_tile as int
    } else {
        c.tiles.len() - 1
    }
}

/// The tile of a column that was focused last.
pub open spec fn last_tile(c: ColumnView) -> WindowId {
    c.tiles[last_index(c)]
}

/// Column `c` holds `id` and lies in the viewport, or starts at its left edge
/// where it is wider.
pub open spec fn in_view(s: StripView, c: int, id: WindowId, viewport_w: int) -> bool {
    &&& 0 <= c < s.columns.len()
    &&& s.columns[c].tiles.contains(id)
    &&& if s.columns[c].width <= viewport_w {
        &&& s.offset_x <= s.columns[c].x
        &&& s.columns[c].x + s.columns[c].width <= s.offset_x + viewport_w
    } else {
        s.offset_x == s.columns[c].x
    }
}

/// The column of `id` is in view.
pub open spec fn shows_column_of(s: StripView, id: WindowId, viewport_w: int) -> bool {
    exists|c: int| #[trigger] in_view(s, c, id, viewport_w)
}

/// The focus is on a window of the strip on show on the active monitor, and its
/// column is in view.
pub open spec fn focus_in_view(w: WmView) -> bool {
    w.focused matches Some(f) && shows_column_of(
        front(w),
        f,
        w.monitors[w.active_monitor].viewport_w,
    )
}

/// The columns are the same, but that of `id` remembers it as focused last.
pub open spec fn remembers(now: StripView, s: StripView, id: WindowId) -> bool {
    &&& now.columns.len() == s.columns.len()
    &&& forall|j: int|
        0 <= j < s.columns.len() ==> {
            &&& (#[trigger] now.columns[j]) == (ColumnView {
                active_tile: now.columns[j].active_tile,
                ..s.columns[j]
            })
            &&& if s.columns[j].tiles.contains(id) {
                last_tile(now.columns[j]) == id
            } else {
                now.columns[j] == s.columns[j]
            }
        }
}

/// The viewport moved from `from` just as far as a column asks for: not at all
/// where it was in view, else to the column's left edge or until its right edge
/// shows.
pub open spec fn moved_least(to: int, from: int, col: ColumnView, viewport_w: int) -> bool {
    let left = col.x;
    let right = col.x + col.width;
    if from <= left && right <= from + viewport_w {
        to == from
    } else if left < from {
        to == left
    } else if col.width <= viewport_w {
        to + viewport_w == right
    } else {
        to == left
    }
}

/// Column `c` holds `id` and is in view, the viewport having moved from `from` just
/// as far as that asks for.
pub open spec fn follows_to(s: StripView, c: int, id: WindowId, from: int, viewport_w: int) -> bool {
    &&& in_view(s, c, id, viewport_w)
    &&& moved_least(s.offset_x, from, s.columns[c], viewport_w)
}

/// The column of `id` is in view, the viewport having moved from `from` just as far
/// as that asks for.
pub open spec fn follows_column_of(s: StripView, id: WindowId, from: int, viewport_w: int) -> bool {
    exists|c: int| #[trigger] follows_to(s, c, id, from, viewport_w)
}

/// The focus is in view, and the viewport moved from `from` just as far as that
/// asks for.
pub open spec fn focus_followed(w: WmView, from: int) -> bool {
    w.focused matches Some(f) && follows_column_of(
        front(w),
        f,
        from,
        w.monitors[w.active_monitor].viewport_w,
    )
}

/// The strip is as it was, but that the column of `id` was brought into view and
/// remembers it.
pub open spec fn brought_forward(now: StripView, s: StripView, id: WindowId, viewport_w: int) -> bool {
    &&& remembers(now, s, id)
    &&& forall|j: int|
        0 <= j < s.columns.len() && (#[trigger] s.columns[j]).tiles.contains(id) ==> moved_least(
            now.offset_x,
            s.offset_x,
            s.columns[j],
            viewport_w,
        )
}

/// A tile's column is the one its window is found in, its place there the first.
pub proof fn lemma_tile_at(s: StripView, c: int, i: int, id: WindowId)
    requires
        s.once(),
        is_tile(s, c, i, id),
    ensures
        s.contains(id),
        s.column_index_of(id) == Some(c),
        s.columns[c].tiles.index_of_first(id) == Some(i),
        s.columns[c].tiles.contains(id),
{
    let tiles = s.columns[c].tiles;
    assert(tiles.contains(id));
    assert forall|j: int| 0 <= j < c implies !(#[trigger] s.columns[j]).tiles.contains(id) by {
        if s.columns[j].tiles.contains(id) {
            assert(s.columns[c].tiles.contains(id));
        }
    }
    assert(s.is_column_of(id, c));
    lemma_column_index_is(s, id, c);
    tiles.index_of_first_ensures(id);
    assert(tiles.no_duplicates());
}

/// The strip a window is found on.
pub proof fn lemma_strip_at(st: StackView, k: int, id: WindowId)
    requires
        st.apart(),
        0 <= k < st.strips.len(),
        st.strips[k].contains(id),
    ensures
        st.contains(id),
        st.strip_index_of(id) == Some(k),
{
    assert(strips_apart(st.strips));
    assert forall|j: int| 0 <= j < k implies !(#[trigger] st.strips[j]).contains(id) by {
        if st.strips[j].contains(id) {
            assert(st.strips[k].contains(id));
        }
    }
    assert(st.is_strip_of(id, k));
    lemma_strip_index_is(st, id, k);
}

/// The monitor a window is found on.
pub proof fn lemma_monitor_at(ms: Seq<MonitorView>, mi: int, id: WindowId)
    requires
        monitors_sound(ms),
        0 <= mi < ms.len(),
        ms[mi].stack.contains(id),
    ensures
        monitor_of(ms, id) == Some(mi),
{
    assert forall|j: int| 0 <= j < mi implies !(#[trigger] ms[j]).stack.contains(id) by {
        if ms[j].stack.contains(id) {
            assert(ms[mi].stack.contains(id));
        }
    }
    lemma_monitor_of_is(ms, id, mi);
}

/// The remembered tile of a column with tiles.
pub proof fn lemma_last_tile(c: ColumnView)
    requires
        c.tiles.len() > 0,
    ensures
        c.active() == Some(last_tile(c)),
        c.tiles.contains(last_tile(c)),
{
}

// ---------------------------------------------------------------------------
// In view
// ---------------------------------------------------------------------------

/// Following a window's column brings it into view, moves no column, and does
/// nothing where it is in view.
pub proof fn law_following_brings_into_view(s: StripView, id: WindowId, viewport_w: int)
    requires
        s.once(),
        s.contains(id),
    ensures
        ({
            let after = s.ensure_visible(id, viewport_w);
            &&& shows_column_of(after, id, viewport_w)
            &&& shows_column_of(s, id, viewport_w) ==> after == s
            &&& after.columns == s.columns
            &&& after.last_focused == s.last_focused
        }),
{
    lemma_column_index(s, id);
    let c = s.column_index_of(id).unwrap();
    assert(in_view(s.ensure_visible(id, viewport_w), c, id, viewport_w));
    if shows_column_of(s, id, viewport_w) {
        let d = choose|d: int| #[trigger] in_view(s, d, id, viewport_w);
        assert(s.columns[c].tiles.contains(id) && s.columns[d].tiles.contains(id));
    }
}

/// Putting the focus on a tile of a strip brings its column into view, with the
/// least move of the viewport; the column and the strip remember the tile, and
/// nothing else changes.
pub proof fn law_settling(s: StripView, c: int, i: int, id: WindowId, viewport_w: int)
    requires
        s.once(),
        is_tile(s, c, i, id),
    ensures
        ({
            let after = s.settle(id, viewport_w);
            let col = s.columns[c];
            &&& in_view(after, c, id, viewport_w)
            &&& in_view(s, c, id, viewport_w) ==> after.offset_x == s.offset_x
            &&& !in_view(s, c, id, viewport_w) ==> after.offset_x == col.x || after.offset_x
                + viewport_w == col.x + col.width
            &&& col.x < s.offset_x ==> after.offset_x == col.x
            &&& col.x > s.offset_x ==> after.offset_x >= s.offset_x
            &&& after.last_focused == Some(id)
            &&& after.columns.len() == s.columns.len()
            &&& last_tile(after.columns[c]) == id
            &&& after.columns[c] == (ColumnView {
                active_tile: after.columns[c].active_tile,
                ..col
            })
            &&& forall|j: int|
                0 <= j < s.columns.len() && j != c ==> #[trigger] after.columns[j] == s.columns[j]
        }),
{
    lemma_tile_at(s, c, i, id);
    lemma_settle_tiles(s, id, viewport_w);
    lemma_same_tiles(s.settle(id, viewport_w), s);
    let mid = StripView { last_focused: Some(id), ..s.set_active(id) };
    law_tiles_stay(s, id, viewport_w, 0, true);
    lemma_same_tiles(mid, s);
    assert(mid.column_index_of(id) == Some(c));
}

/// Both putting the focus on a window and remembering it bring it forward on its
/// strip, and change nothing else there but the strip's own memory.
pub proof fn law_brought_forward(s: StripView, id: WindowId, viewport_w: int)
    requires
        s.once(),
        s.contains(id),
    ensures
        ({
            let settled = s.settle(id, viewport_w);
            let marked = s.mark(id, viewport_w);
            &&& brought_forward(settled, s, id, viewport_w)
            &&& brought_forward(marked, s, id, viewport_w)
            &&& settled.last_focused == Some(id)
            &&& marked.last_focused == s.last_focused
        }),
{
    let (c, i) = lemma_some_tile(s, id);
    law_settling(s, c, i, id, viewport_w);
    law_marking(s, c, i, id, viewport_w);
    let now = s.settle(id, viewport_w);
    lemma_tile_at(s, c, i, id);
    assert forall|j: int| 0 <= j < s.columns.len() && s.columns[j].tiles.contains(id) implies j
        == c by {
        assert(s.columns[c].tiles.contains(id));
    }
    let mid = StripView { last_focused: Some(id), ..s.set_active(id) };
    lemma_same_tiles(mid, s);
    assert(mid.column_index_of(id) == Some(c));
    assert(now.offset_x == s.offset_showing(c, viewport_w));
    assert(remembers(now, s, id));
    assert(remembers(s.mark(id, viewport_w), s, id));
}

/// Following a window's column moves the viewport just as far as that asks for.
pub proof fn lemma_moves_least(s: StripView, c: int, id: WindowId, viewport_w: int)
    requires
        0 <= c < s.columns.len(),
        s.columns[c].tiles.contains(id),
        s.column_index_of(id) == Some(c),
    ensures
        ({
            let after = s.ensure_visible(id, viewport_w);
            &&& after == (StripView { offset_x: after.offset_x, ..s })
            &&& in_view(after, c, id, viewport_w)
            &&& moved_least(after.offset_x, s.offset_x, after.columns[c], viewport_w)
        }),
{
}

/// A strip with a window brought forward has it in view.
pub proof fn lemma_followed(w: WmView, s: StripView, f: WindowId)
    requires
        w.focused == Some(f),
        s.once(),
        s.contains(f),
        front(w) == s.settle(f, w.monitors[w.active_monitor].viewport_w) || front(w) == s.mark(
            f,
            w.monitors[w.active_monitor].viewport_w,
        ),
    ensures
        focus_followed(w, s.offset_x),
{
    let v = w.monitors[w.active_monitor].viewport_w;
    let (c, i) = lemma_some_tile(s, f);
    law_settling(s, c, i, f, v);
    law_marking(s, c, i, f, v);
    law_brought_forward(s, f, v);
    assert(s.columns[c].tiles.contains(f));
    assert(remembers(front(w), s, f));
    let col = front(w).columns[c];
    assert(col == ColumnView { active_tile: col.active_tile, ..s.columns[c] });
    assert(moved_least(front(w).offset_x, s.offset_x, s.columns[c], v));
    assert(follows_to(front(w), c, f, s.offset_x, v));
}

/// A column remembers a tile where its strip was told to.
proof fn lemma_remembers(s: StripView, id: WindowId)
    requires
        s.once(),
        s.contains(id),
    ensures
        remembers(s.set_active(id), s, id),
        s.set_active(id).offset_x == s.offset_x,
        s.set_active(id).last_focused == s.last_focused,
{
    let (c, i) = lemma_some_tile(s, id);
    lemma_tile_at(s, c, i, id);
    assert forall|j: int| 0 <= j < s.columns.len() && s.columns[j].tiles.contains(id) implies j
        == c by {
        assert(s.columns[c].tiles.contains(id));
    }
}

/// Remembering a tile brings its column into view as putting the focus on it
/// does, and leaves the strip's own memory alone.
pub proof fn law_marking(s: StripView, c: int, i: int, id: WindowId, viewport_w: int)
    requires
        s.once(),
        is_tile(s, c, i, id),
    ensures
        ({
            let after = s.mark(id, viewport_w);
            &&& in_view(after, c, id, viewport_w)
            &&& after.last_focused == s.last_focused
            &&& after.offset_x == s.settle(id, viewport_w).offset_x
            &&& after.columns == s.settle(id, viewport_w).columns
        }),
{
    law_settling(s, c, i, id, viewport_w);
    let a = s.set_active(id);
    let b = StripView { last_focused: Some(id), ..a };
    law_tiles_stay(s, id, viewport_w, 0, true);
    lemma_same_tiles(a, s);
    lemma_same_tiles(b, s);
    assert(a.column_index_of(id) == s.column_index_of(id));
    assert(b.column_index_of(id) == s.column_index_of(id));
}

/// A window on a strip is one of its tiles.
pub proof fn lemma_some_tile(s: StripView, id: WindowId) -> (r: (int, int))
    requires
        s.contains(id),
    ensures
        is_tile(s, r.0, r.1, id),
{
    let c = choose|c: int| 0 <= c < s.columns.len() && (#[trigger] s.columns[c]).tiles.contains(id);
    let i = s.columns[c].tiles.index_of(id);
    (c, i)
}

/// A strip settled on one of its windows shows it.
pub proof fn lemma_settled_shows(m: MonitorView, id: WindowId)
    requires
        m.stack.sound(),
        m.shown().contains(id),
    ensures
        shows_column_of(m.settled_on(id).shown(), id, m.viewport_w),
        shows_column_of(m.marked_on(id).shown(), id, m.viewport_w),
{
    let s = m.shown();
    assert(m.stack.strips[m.stack.active].sound());
    let (c, i) = lemma_some_tile(s, id);
    law_settling(s, c, i, id, m.viewport_w);
    law_marking(s, c, i, id, m.viewport_w);
    assert(in_view(m.settled_on(id).shown(), c, id, m.viewport_w));
    assert(in_view(m.marked_on(id).shown(), c, id, m.viewport_w));
}

// ---------------------------------------------------------------------------
// Focus moves
// ---------------------------------------------------------------------------

/// Nothing but the strips of the active monitor, what is on show there, and the
/// focus differs.
pub open spec fn differs_here_only(after: WmView, w: WmView) -> bool {
    let a = w.active_monitor;
    let m = w.monitors[a];
    &&& after == (WmView { monitors: after.monitors, focused: after.focused, ..w })
    &&& after.monitors.len() == w.monitors.len()
    &&& forall|j: int|
        0 <= j < w.monitors.len() && j != a ==> #[trigger] after.monitors[j] == w.monitors[j]
    &&& after.monitors[a] == (MonitorView { stack: after.monitors[a].stack, ..m })
}

/// Where the focus lies on a workspace that comes on show: the window focused
/// there last, if it is still there, else the first column's.
pub open spec fn is_resumed(s: StripView, f: Option<WindowId>) -> bool {
    if s.columns.len() == 0 {
        f is None
    } else {
        match s.last_focused {
            Some(l) => if exists|c: int|
                0 <= c < s.columns.len() && (#[trigger] s.columns[c]).tiles.contains(l) {
                f == Some(l)
            } else {
                f == Some(last_tile(s.columns[0]))
            },
            None => f == Some(last_tile(s.columns[0])),
        }
    }
}

/// The window the focus returns to is the one it lies on when the strip comes on
/// show.
pub proof fn lemma_return_resumes(s: StripView)
    requires
        s.columns_filled(),
    ensures
        is_resumed(s, s.return_to()),
{
    if s.columns.len() > 0 {
        assert(s.columns[0].tiles.len() > 0);
        lemma_last_tile(s.columns[0]);
    }
    if let Some(l) = s.last_focused {
        assert(s.contains(l) == exists|c: int|
            0 <= c < s.columns.len() && (#[trigger] s.columns[c]).tiles.contains(l));
    }
}

/// The workspace right below or above workspace `k`.
pub open spec fn next_workspace(k: int, down: bool) -> int {
    if down {
        k + 1
    } else {
        k - 1
    }
}

/// What asks for the focus.
pub open spec fn focus_request(f: Option<WindowId>) -> Seq<Action> {
    match f {
        Some(f) => seq![Action::Focus(f.0)],
        None => Seq::empty(),
    }
}

/// Switching shows the workspace right below or above the one on show, with the
/// focus where it was there last; at the ends nothing happens. No strip but the
/// one then shown changes, and that one at most in which tile a column
/// remembers.
pub proof fn law_switching(w: WmView, down: bool, gap: int)
    requires
        w.wf(),
    ensures
        ({
            let m = w.monitors[w.active_monitor];
            let to = next_workspace(m.stack.active, down);
            let after = w.switched(down);
            let acts = w.switched_actions(down);
            let stack = after.monitors[w.active_monitor].stack;
            &&& w.commanded(WmEvent::SwitchWorkspace(down), gap) == Some((after, acts))
            &&& if 0 <= to < m.stack.strips.len() {
                &&& differs_here_only(after, w)
                &&& stack.active == to
                &&& stack.strips.len() == m.stack.strips.len()
                &&& forall|j: int|
                    0 <= j < m.stack.strips.len() && j != to ==> #[trigger] stack.strips[j]
                        == m.stack.strips[j]
                &&& stack.strips[to].offset_x == m.stack.strips[to].offset_x
                &&& stack.strips[to].last_focused == m.stack.strips[to].last_focused
                &&& is_resumed(m.stack.strips[to], after.focused)
                &&& match after.focused {
                    Some(f) => remembers(stack.strips[to], m.stack.strips[to], f),
                    None => stack.strips[to] == m.stack.strips[to],
                }
                &&& acts == focus_request(after.focused)
            } else {
                after == w && acts == Seq::<Action>::empty()
            }
        }),
{
    let m = w.monitors[w.active_monitor];
    assert(m.stack.sound());
    let to = next_workspace(m.stack.active, down);
    if 0 <= to < m.stack.strips.len() {
        assert(m.stack.strips[to].sound());
        lemma_return_resumes(m.stack.strips[to]);
        if let Some(f) = m.stack.strips[to].return_to() {
            assert(m.stack.strips[to].contains(f)) by {
                lemma_resumed_there(m.stack.strips[to], f);
            }
            lemma_remembers(m.stack.strips[to], f);
        }
    }
}

proof fn lemma_resumed_there(s: StripView, f: WindowId)
    requires
        s.columns_filled(),
        is_resumed(s, Some(f)),
    ensures
        s.contains(f),
{
    assert(s.columns[0].tiles.len() > 0);
    lemma_last_tile(s.columns[0]);
    assert(s.columns[0].tiles.contains(last_tile(s.columns[0])));
}

/// The tile a focus move from tile `i` of column `c` reaches within the strip:
/// sideways the tile focused last in the next column, else the next tile of the
/// column.
pub open spec fn reached(s: StripView, c: int, i: int, dir: FocusDir) -> Option<WindowId> {
    match dir {
        FocusDir::Left => if c >= 1 {
            Some(last_tile(s.columns[c - 1]))
        } else {
            None
        },
        FocusDir::Right => if c <= s.columns.len() - 2 {
            Some(last_tile(s.columns[c + 1]))
        } else {
            None
        },
        FocusDir::Up => if i >= 1 {
            Some(s.columns[c].tiles[i - 1])
        } else {
            None
        },
        FocusDir::Down => if i <= s.columns[c].tiles.len() - 2 {
            Some(s.columns[c].tiles[i + 1])
        } else {
            None
        },
    }
}

/// The focus was put on `t` of the strip on show.
pub open spec fn focus_put_on(after: WmView, w: WmView, t: WindowId) -> bool {
    let a = w.active_monitor;
    let st = w.monitors[a].stack;
    let now = after.monitors[a].stack;
    &&& differs_here_only(after, w)
    &&& after.focused == Some(t)
    &&& focus_in_view(after)
    &&& now.active == st.active
    &&& now.strips.len() == st.strips.len()
    &&& now.strips[now.active].last_focused == Some(t)
    &&& brought_forward(
        now.strips[st.active],
        st.strips[st.active],
        t,
        w.monitors[a].viewport_w,
    )
    &&& forall|j: int|
        0 <= j < st.strips.len() && j != st.active ==> #[trigger] now.strips[j] == st.strips[j]
}

proof fn lemma_put_on(w: WmView, t: WindowId)
    requires
        w.wf(),
        front(w).contains(t),
    ensures
        focus_put_on(
            WmView { focused: Some(t), ..w.with_here(w.here().settled_on(t)) },
            w,
            t,
        ),
{
    let m = w.here();
    assert(m.stack.sound());
    assert(m.stack.strips[m.stack.active].sound());
    lemma_settled_shows(m, t);
    law_brought_forward(m.shown(), t, m.viewport_w);
}

/// A focus move goes to the tile next to the focused one that way, which is then
/// in view. Where there is none below or above, the workspace below or above is
/// shown; at the left and right end, and past the last workspace, nothing
/// happens.
pub proof fn law_focus_moves(w: WmView, dir: FocusDir, c: int, i: int, gap: int)
    requires
        w.wf(),
        w.focused matches Some(f) && is_tile(front(w), c, i, f),
    ensures
        ({
            let s = front(w);
            let st = w.monitors[w.active_monitor].stack;
            let after = w.refocused(dir);
            let now = after.monitors[w.active_monitor].stack;
            let acts = w.refocused_actions(dir);
            &&& w.commanded(WmEvent::Focus(dir), gap) == Some((after, acts))
            &&& match reached(s, c, i, dir) {
                Some(t) => focus_put_on(after, w, t) && acts == seq![Action::Focus(t.0)],
                None => {
                    let to = match dir {
                        FocusDir::Down => st.active + 1,
                        FocusDir::Up => st.active - 1,
                        _ => -1,
                    };
                    if 0 <= to < st.strips.len() {
                        &&& differs_here_only(after, w)
                        &&& now.active == to
                        &&& is_resumed(st.strips[to], after.focused)
                        &&& acts == focus_request(after.focused)
                        &&& w.commanded(WmEvent::SwitchWorkspace(dir is Down), gap) == Some(
                            (after, acts),
                        )
                    } else {
                        after == w && acts == Seq::<Action>::empty()
                    }
                },
            }
        }),
{
    let m = w.here();
    let s = front(w);
    let f = w.focused.unwrap();
    assert(m.stack.sound());
    assert(m.stack.strips[m.stack.active].sound());
    lemma_tile_at(s, c, i, f);
    if c >= 1 {
        assert(s.columns[c - 1].tiles.len() > 0);
        lemma_last_tile(s.columns[c - 1]);
    }
    if c <= s.columns.len() - 2 {
        assert(s.columns[c + 1].tiles.len() > 0);
        lemma_last_tile(s.columns[c + 1]);
    }
    assert(w.focus_target(dir) == reached(s, c, i, dir));
    match reached(s, c, i, dir) {
        Some(t) => {
            let d = match dir {
                FocusDir::Left => c - 1,
                FocusDir::Right => c + 1,
                _ => c,
            };
            assert(s.columns[d].tiles.contains(t)) by {
                match dir {
                    FocusDir::Up => {
                        assert(s.columns[c].tiles[i - 1] == t);
                    },
                    FocusDir::Down => {
                        assert(s.columns[c].tiles[i + 1] == t);
                    },
                    _ => {},
                }
            }
            assert(s.contains(t));
            lemma_put_on(w, t);
        },
        None => {
            law_switching(w, true, gap);
            law_switching(w, false, gap);
        },
    }
}

/// A focus move from off the strip on show goes to its first column. On an empty
/// one, up and down go on to the next workspace, and sideways nothing happens.
pub proof fn law_focus_enters(w: WmView, dir: FocusDir, gap: int)
    requires
        w.wf(),
        w.focused matches Some(f) ==> forall|c: int|
            0 <= c < front(w).columns.len() ==> !(#[trigger] front(w).columns[c]).tiles.contains(
                f,
            ),
    ensures
        ({
            let s = front(w);
            let after = w.refocused(dir);
            let acts = w.refocused_actions(dir);
            &&& w.commanded(WmEvent::Focus(dir), gap) == Some((after, acts))
            &&& if s.columns.len() > 0 {
                let t = last_tile(s.columns[0]);
                focus_put_on(after, w, t) && acts == seq![Action::Focus(t.0)]
            } else {
                match dir {
                    FocusDir::Down => after == w.switched(true) && acts == w.switched_actions(
                        true,
                    ),
                    FocusDir::Up => after == w.switched(false) && acts == w.switched_actions(
                        false,
                    ),
                    _ => after == w && acts == Seq::<Action>::empty(),
                }
            }
        }),
{
    let m = w.here();
    let s = front(w);
    assert(m.stack.sound());
    assert(m.stack.strips[m.stack.active].sound());
    if let Some(f) = w.focused {
        assert(!s.contains(f));
    }
    if s.columns.len() > 0 {
        assert(s.columns[0].tiles.len() > 0);
        lemma_last_tile(s.columns[0]);
        assert(s.columns[0].tiles.contains(last_tile(s.columns[0])));
        assert(s.contains(last_tile(s.columns[0])));
        lemma_put_on(w, last_tile(s.columns[0]));
    }
}

} // verus!
