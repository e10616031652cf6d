//! What each command does to the strip on show, the focus and the monitors.

use vstd::prelude::*;

use crate::events::WmEvent;
use crate::focus_laws::{
    brought_forward, differs_here_only, focus_followed, focus_in_view, focus_request, follows_to,
    front, is_resumed, is_tile, last_index, last_tile, law_brought_forward, law_marking,
    lemma_followed, lemma_monitor_at, lemma_moves_least, lemma_return_resumes, lemma_strip_at,
    lemma_tile_at, next_workspace,
};
use crate::layout::{
    ColumnView, FocusDir, StackView, StripView, WindowId, lemma_column_index_is, packed, packed_x,
};
use crate::layout_laws::lemma_without_is_remove;
use crate::monitors::MonitorView;
use crate::tiling::{lemma_return_to, lemma_taken_out};
use crate::window_laws::{
    closed_up, goes_to, has_new_column, law_cleared_strip, law_insertion, law_removal_closes_up,
    lemma_new_column_settled, lemma_shape_kept, viewport_back_on,
};
use crate::wm::{Action, WmView};
use crate::wm_commands::Rework;
use crate::wm_monitors::beside;

verus! {

// ---------------------------------------------------------------------------
// The strip on show
// ---------------------------------------------------------------------------

/// The columns stand side by side from 0 on, a gap apart.
pub open spec fn side_by_side(cols: Seq<ColumnView>, gap: int) -> bool {
    &&& cols.len() > 0 ==> cols[0].x == 0
    &&& forall|j: int|
        #![trigger cols[j]]
        0 < j < cols.len() ==> cols[j].x == cols[j - 1].x + cols[j - 1].width + gap
}

/// The two columns differ at most in where they stand.
pub open spec fn same_column(a: ColumnView, b: ColumnView) -> bool {
    a == ColumnView { x: a.x, ..b }
}

/// The strip on show has these columns, side by side, and nothing else changed
/// but its viewport.
pub open spec fn has_columns(after: WmView, w: WmView, cols: Seq<ColumnView>, gap: int) -> bool {
    let a = w.active_monitor;
    let st = w.monitors[a].stack;
    let now = after.monitors[a].stack;
    &&& differs_here_only(after, w)
    &&& after.focused == w.focused
    &&& now.active == st.active
    &&& now.strips.len() == st.strips.len()
    &&& forall|j: int|
        0 <= j < st.strips.len() && j != st.active ==> #[trigger] now.strips[j] == st.strips[j]
    &&& front(after).last_focused == front(w).last_focused
    &&& front(after).columns.len() == cols.len()
    &&& forall|j: int|
        0 <= j < cols.len() ==> same_column(#[trigger] front(after).columns[j], cols[j])
    &&& side_by_side(front(after).columns, gap)
}

/// Columns with every place assigned anew stand side by side.
pub proof fn law_packed_columns_stand_side_by_side(cols: Seq<ColumnView>, gap: int)
    ensures
        side_by_side(packed(cols, gap), gap),
        packed(cols, gap).len() == cols.len(),
        forall|j: int|
            0 <= j < cols.len() ==> same_column(#[trigger] packed(cols, gap)[j], cols[j]),
{
    let p = packed(cols, gap);
    assert forall|j: int|
        #![trigger p[j]]
        0 < j < p.len() implies p[j].x == p[j - 1].x + p[j - 1].width + gap by {
        assert(packed_x(cols, gap, j) == packed_x(cols, gap, j - 1) + cols[j - 1].width + gap);
    }
}

/// The strip on show after a command that lays out its columns anew.
proof fn lemma_reworked_front(
    w: WmView,
    what: Rework,
    gap: int,
    f: WindowId,
    cols: Seq<ColumnView>,
    c: int,
)
    requires
        w.wf(),
        w.focused == Some(f),
        what.columns(front(w), f, w.here().viewport_w) == Some(cols),
        0 <= c < cols.len(),
        cols[c].tiles.contains(f),
        forall|j: int| 0 <= j < c ==> !(#[trigger] cols[j]).tiles.contains(f),
    ensures
        ({
            let m = w.here();
            let t = StripView { columns: packed(cols, gap), ..front(w) };
            let after = w.reworked(what, gap);
            &&& t.column_index_of(f) == Some(c)
            &&& t.columns[c].tiles.contains(f)
            &&& after == w.with_here(m.with_shown(front(after)))
            &&& front(after) == if what.follows() {
                t.ensure_visible(f, m.viewport_w)
            } else {
                t
            }
        }),
{
    let m = w.here();
    assert(m.stack.sound());
    law_packed_columns_stand_side_by_side(cols, gap);
    let t = StripView { columns: packed(cols, gap), ..front(w) };
    assert(what.step(front(w), f, m.viewport_w, gap) == Some(t));
    assert(same_column(t.columns[c], cols[c]));
    assert forall|j: int| 0 <= j < c implies !(#[trigger] t.columns[j]).tiles.contains(f) by {
        assert(same_column(packed(cols, gap)[j], cols[j]));
        assert(!cols[j].tiles.contains(f));
    }
    assert(t.is_column_of(f, c));
    lemma_column_index_is(t, f, c);
}

/// What the columns of a command make of the strip on show.
proof fn lemma_reworked(
    w: WmView,
    what: Rework,
    gap: int,
    f: WindowId,
    cols: Seq<ColumnView>,
    c: int,
)
    requires
        w.wf(),
        w.focused == Some(f),
        what.columns(front(w), f, w.here().viewport_w) == Some(cols),
        0 <= c < cols.len(),
        cols[c].tiles.contains(f),
        forall|j: int| 0 <= j < c ==> !(#[trigger] cols[j]).tiles.contains(f),
    ensures
        has_columns(w.reworked(what, gap), w, cols, gap),
        what.follows() ==> focus_followed(w.reworked(what, gap), front(w).offset_x),
        !what.follows() ==> front(w.reworked(what, gap)).offset_x == front(w).offset_x,
{
    let t = StripView { columns: packed(cols, gap), ..front(w) };
    lemma_reworked_front(w, what, gap, f, cols, c);
    lemma_moves_least(t, c, f, w.here().viewport_w);
    if what.follows() {
        assert(follows_to(
            front(w.reworked(what, gap)),
            c,
            f,
            front(w).offset_x,
            w.here().viewport_w,
        ));
    }
    lemma_front_replaced(w.reworked(what, gap), w, f, cols, gap, c);
}

/// A state that differs from another in the strip on show.
proof fn lemma_front_replaced(
    after: WmView,
    w: WmView,
    f: WindowId,
    cols: Seq<ColumnView>,
    gap: int,
    c: int,
)
    requires
        w.wf(),
        w.focused == Some(f),
        after == w.with_here(w.here().with_shown(front(after))),
        front(after).columns == packed(cols, gap),
        front(after).last_focused == front(w).last_focused,
    ensures
        has_columns(after, w, cols, gap),
        follows_to(front(after), c, f, front(w).offset_x, w.here().viewport_w)
            ==> focus_followed(after, front(w).offset_x),
{
    assert(w.here().stack.sound());
    law_packed_columns_stand_side_by_side(cols, gap);
}

/// The columns before a window's own do not hold it.
proof fn lemma_not_before(s: StripView, c: int, i: int, id: WindowId)
    requires
        s.once(),
        is_tile(s, c, i, id),
    ensures
        forall|j: int|
            0 <= j < s.columns.len() && j != c ==> !(#[trigger] s.columns[j]).tiles.contains(id),
        s.columns[c].tiles.contains(id),
{
    assert(s.columns[c].tiles.contains(id));
    assert forall|j: int| 0 <= j < s.columns.len() && j != c implies !(
    #[trigger] s.columns[j]).tiles.contains(id) by {
        if s.columns[j].tiles.contains(id) {
            assert(s.columns[c].tiles.contains(id));
        }
    }
}

/// Moving the focused column left or right trades it with its neighbour that
/// way, with everything in it, and keeps it in view. At the end, and up and
/// down, nothing happens.
pub proof fn law_columns_trade_places(w: WmView, dir: FocusDir, gap: int, c: int, i: int)
    requires
        w.wf(),
        w.focused matches Some(f) && is_tile(front(w), c, i, f),
    ensures
        ({
            let s = front(w);
            let to = match dir {
                FocusDir::Left => c - 1,
                FocusDir::Right => c + 1,
                _ => -1,
            };
            w.commanded(WmEvent::MoveColumn(dir), gap) matches Some((after, acts)) && {
                &&& acts == Seq::<Action>::empty()
                &&& if 0 <= to < s.columns.len() {
                    &&& has_columns(
                        after,
                        w,
                        Seq::new(
                            s.columns.len(),
                            |j: int|
                                if j == to {
                                    s.columns[c]
                                } else if j == c {
                                    s.columns[to]
                                } else {
                                    s.columns[j]
                                },
                        ),
                        gap,
                    )
                    &&& focus_followed(after, front(w).offset_x)
                } else {
                    after == w
                }
            }
        }),
{
    let s = front(w);
    let f = w.focused.unwrap();
    assert(w.here().stack.sound());
    assert(w.here().stack.strips[w.here().stack.active].sound());
    lemma_tile_at(s, c, i, f);
    lemma_not_before(s, c, i, f);
    let to = match dir {
        FocusDir::Left => c - 1,
        FocusDir::Right => c + 1,
        _ => -1,
    };
    if 0 <= to < s.columns.len() {
        let cols = s.columns.update(c, s.columns[to]).update(to, s.columns[c]);
        assert(cols =~= Seq::new(
            s.columns.len(),
            |j: int|
                if j == to {
                    s.columns[c]
                } else if j == c {
                    s.columns[to]
                } else {
                    s.columns[j]
                },
        ));
        lemma_reworked(w, Rework::Move(dir), gap, f, cols, to);
    }
}

/// Pushing the focused tile out of a column it shares puts it in a column of its
/// own right of it, of the same width; the others stay where they were, and the
/// tile is in view. A tile that is alone stays.
pub proof fn law_tile_is_pushed_out(w: WmView, gap: int, c: int, i: int)
    requires
        w.wf(),
        w.focused matches Some(f) && is_tile(front(w), c, i, f),
    ensures
        ({
            let s = front(w);
            let col = s.columns[c];
            let f = w.focused.unwrap();
            w.commanded(WmEvent::Expel, gap) matches Some((after, acts)) && {
                &&& acts == Seq::<Action>::empty()
                &&& if col.tiles.len() > 1 {
                    let left = front(after).columns[c];
                    &&& left.tiles == col.tiles.remove(i)
                    &&& left.width == col.width
                    &&& left.saved_width == col.saved_width
                    &&& last_tile(col) != f ==> last_tile(left) == last_tile(col)
                    &&& has_columns(
                        after,
                        w,
                        s.columns.take(c) + seq![
                            left,
                            ColumnView {
                                x: 0,
                                width: col.width,
                                tiles: seq![f],
                                active_tile: 0,
                                saved_width: None,
                            },
                        ] + s.columns.skip(c + 1),
                        gap,
                    )
                    &&& focus_followed(after, front(w).offset_x)
                } else {
                    after == w
                }
            }
        }),
{
    let s = front(w);
    let f = w.focused.unwrap();
    let col = s.columns[c];
    assert(w.here().stack.sound());
    assert(w.here().stack.strips[w.here().stack.active].sound());
    lemma_tile_at(s, c, i, f);
    lemma_not_before(s, c, i, f);
    if col.tiles.len() > 1 {
        let cols = s.split(f).unwrap();
        let left = cols[c];
        let own = ColumnView {
            x: 0,
            width: col.width,
            tiles: seq![f],
            active_tile: 0,
            saved_width: None,
        };
        assert(cols =~= s.columns.take(c) + seq![left, own] + s.columns.skip(c + 1));
        assert(cols[c + 1] == own);
        assert(own.tiles[0] == f);
        assert(col.tiles.no_duplicates());
        lemma_without_is_remove(col.tiles, f, i);
        crate::layout_laws::lemma_without(col.tiles, f);
        assert forall|j: int| 0 <= j < c + 1 implies !(#[trigger] cols[j]).tiles.contains(f) by {
            if j < c {
                assert(cols[j] == s.columns[j]);
            }
        }
        assert(last_tile(col) != f ==> last_tile(left) == last_tile(col));
        lemma_reworked(w, Rework::Expel, gap, f, cols, c + 1);
        let after = w.reworked(Rework::Expel, gap);
        assert(same_column(front(after).columns[c], cols[c]));
        let now = s.columns.take(c) + seq![front(after).columns[c], own] + s.columns.skip(c + 1);
        assert forall|j: int| 0 <= j < now.len() implies same_column(
            #[trigger] front(after).columns[j],
            now[j],
        ) by {
            assert(same_column(front(after).columns[j], cols[j]));
        }
    }
}

/// Taking a tile in puts the one focused last in the next column at the bottom
/// of the focused column; a column left empty goes. The viewport stays. At the
/// right end nothing happens.
pub proof fn law_next_tile_is_taken_in(w: WmView, gap: int, c: int, i: int)
    requires
        w.wf(),
        w.focused matches Some(f) && is_tile(front(w), c, i, f),
    ensures
        ({
            let s = front(w);
            w.commanded(WmEvent::Consume, gap) matches Some((after, acts)) && {
                &&& acts == Seq::<Action>::empty()
                &&& if c + 1 < s.columns.len() {
                    let right = s.columns[c + 1];
                    let taken = last_tile(right);
                    let grown = ColumnView {
                        tiles: s.columns[c].tiles.push(taken),
                        ..s.columns[c]
                    };
                    &&& front(after).offset_x == s.offset_x
                    &&& if right.tiles.len() == 1 {
                        has_columns(
                            after,
                            w,
                            s.columns.take(c) + seq![grown] + s.columns.skip(c + 2),
                            gap,
                        )
                    } else {
                        let rest = front(after).columns[c + 1];
                        &&& rest.tiles == right.tiles.remove(last_index(right))
                        &&& rest.width == right.width
                        &&& rest.saved_width == right.saved_width
                        &&& has_columns(
                            after,
                            w,
                            s.columns.take(c) + seq![grown, rest] + s.columns.skip(c + 2),
                            gap,
                        )
                    }
                } else {
                    after == w
                }
            }
        }),
{
    let s = front(w);
    let f = w.focused.unwrap();
    assert(w.here().stack.sound());
    assert(w.here().stack.strips[w.here().stack.active].sound());
    lemma_tile_at(s, c, i, f);
    lemma_not_before(s, c, i, f);
    if c + 1 < s.columns.len() {
        let right = s.columns[c + 1];
        let taken = last_tile(right);
        let grown = ColumnView { tiles: s.columns[c].tiles.push(taken), ..s.columns[c] };
        let cols = lemma_merged(s, c, i, f);
        lemma_reworked(w, Rework::Consume, gap, f, cols, c);
        if right.tiles.len() > 1 {
            let after = w.reworked(Rework::Consume, gap);
            let rest = front(after).columns[c + 1];
            assert(same_column(rest, cols[c + 1]));
            let now = s.columns.take(c) + seq![grown, rest] + s.columns.skip(c + 2);
            assert forall|j: int| 0 <= j < now.len() implies same_column(
                #[trigger] front(after).columns[j],
                now[j],
            ) by {
                assert(same_column(front(after).columns[j], cols[j]));
            }
        }
    }
}

/// The columns when the focused one took a tile of the next in.
proof fn lemma_merged(s: StripView, c: int, i: int, f: WindowId) -> (cols: Seq<ColumnView>)
    requires
        s.sound(),
        is_tile(s, c, i, f),
        c + 1 < s.columns.len(),
    ensures
        s.merged(f) == Some(cols),
        cols.len() > c,
        cols[c].tiles.contains(f),
        forall|j: int| 0 <= j < c ==> !(#[trigger] cols[j]).tiles.contains(f),
        ({
            let right = s.columns[c + 1];
            let taken = last_tile(right);
            let grown = ColumnView { tiles: s.columns[c].tiles.push(taken), ..s.columns[c] };
            if right.tiles.len() == 1 {
                cols == s.columns.take(c) + seq![grown] + s.columns.skip(c + 2)
            } else {
                &&& cols == s.columns.take(c) + seq![grown, cols[c + 1]] + s.columns.skip(c + 2)
                &&& cols[c + 1].tiles == right.tiles.remove(last_index(right))
                &&& cols[c + 1].width == right.width
                &&& cols[c + 1].saved_width == right.saved_width
                &&& right.tiles.len() > 1
            }
        }),
{
    lemma_tile_at(s, c, i, f);
    lemma_not_before(s, c, i, f);
    let right = s.columns[c + 1];
    assert(right.tiles.len() > 0);
    assert(right.tiles.no_duplicates());
    let taken = last_tile(right);
    let take = s.taken_tile(c + 1);
    assert(right.tiles[take] == taken);
    let grown = ColumnView { tiles: s.columns[c].tiles.push(taken), ..s.columns[c] };
    let cols = s.merged(f).unwrap();
    assert(grown.tiles[i] == f);
    assert forall|j: int| 0 <= j < c implies !(#[trigger] cols[j]).tiles.contains(f) by {
        assert(cols[j] == s.columns[j]);
    }
    if right.tiles.len() == 1 {
        assert(right.tiles.remove(take).len() == 0);
        assert(cols =~= s.columns.take(c) + seq![grown] + s.columns.skip(c + 2));
    } else {
        assert(cols =~= s.columns.take(c) + seq![grown, cols[c + 1]] + s.columns.skip(c + 2));
    }
    cols
}

/// The width is one of three presets, a third, a half and two thirds of the
/// viewport, namely the one after that nearest to `before`: of equally near ones
/// the first, and after the last the first again.
pub open spec fn is_next_width(viewport_w: int, before: int, after: int) -> bool {
    let third = viewport_w / 3;
    let half = viewport_w / 2;
    let most = viewport_w * 2 / 3;
    let far = |p: int| if p >= before {
        p - before
    } else {
        before - p
    };
    if far(third) <= far(half) && far(third) <= far(most) {
        after == half
    } else if far(half) <= far(most) {
        after == most
    } else {
        after == third
    }
}

/// Cycling gives the focused column the next preset width and ends its being
/// maximized; no other column changes its width, and the focused one is in view.
pub proof fn law_width_goes_round(w: WmView, gap: int, c: int, i: int)
    requires
        w.wf(),
        w.focused matches Some(f) && is_tile(front(w), c, i, f),
        0 <= w.monitors[w.active_monitor].viewport_w,
    ensures
        ({
            let s = front(w);
            let viewport_w = w.monitors[w.active_monitor].viewport_w;
            w.commanded(WmEvent::CycleWidth, gap) matches Some((after, acts)) && {
                &&& acts == Seq::<Action>::empty()
                &&& is_next_width(
                    viewport_w,
                    s.columns[c].width,
                    front(after).columns[c].width,
                )
                &&& has_columns(
                    after,
                    w,
                    s.columns.update(
                        c,
                        ColumnView {
                            width: front(after).columns[c].width,
                            saved_width: None,
                            ..s.columns[c]
                        },
                    ),
                    gap,
                )
                &&& focus_followed(after, front(w).offset_x)
            }
        }),
{
    let s = front(w);
    let f = w.focused.unwrap();
    assert(w.here().stack.sound());
    assert(w.here().stack.strips[w.here().stack.active].sound());
    lemma_tile_at(s, c, i, f);
    lemma_not_before(s, c, i, f);
    let cols = s.cycled(f, w.here().viewport_w).unwrap();
    assert forall|j: int| 0 <= j < c implies !(#[trigger] cols[j]).tiles.contains(f) by {
        assert(cols[j] == s.columns[j]);
    }
    lemma_reworked(w, Rework::CycleWidth, gap, f, cols, c);
    let after = w.reworked(Rework::CycleWidth, gap);
    assert(same_column(front(after).columns[c], cols[c]));
    assert(cols =~= s.columns.update(
        c,
        ColumnView {
            width: front(after).columns[c].width,
            saved_width: None,
            ..s.columns[c]
        },
    ));
}

/// Maximizing gives the focused column the viewport's width and keeps the one it
/// had; once more, it has that one again. No other column changes its width, and
/// the focused one is in view.
pub proof fn law_column_is_maximized(w: WmView, gap: int, c: int, i: int)
    requires
        w.wf(),
        w.focused matches Some(f) && is_tile(front(w), c, i, f),
    ensures
        ({
            let s = front(w);
            let col = s.columns[c];
            let viewport_w = w.monitors[w.active_monitor].viewport_w;
            w.commanded(WmEvent::MaximizeColumn, gap) matches Some((after, acts)) && {
                &&& acts == Seq::<Action>::empty()
                &&& has_columns(
                    after,
                    w,
                    s.columns.update(
                        c,
                        match col.saved_width {
                            None => ColumnView {
                                width: viewport_w,
                                saved_width: Some(col.width),
                                ..col
                            },
                            Some(before) => ColumnView {
                                width: before,
                                saved_width: None,
                                ..col
                            },
                        },
                    ),
                    gap,
                )
                &&& focus_followed(after, front(w).offset_x)
            }
        }),
{
    let s = front(w);
    let f = w.focused.unwrap();
    assert(w.here().stack.sound());
    assert(w.here().stack.strips[w.here().stack.active].sound());
    lemma_tile_at(s, c, i, f);
    lemma_not_before(s, c, i, f);
    let cols = s.maximized(f, w.here().viewport_w).unwrap();
    assert forall|j: int| 0 <= j < c implies !(#[trigger] cols[j]).tiles.contains(f) by {
        assert(cols[j] == s.columns[j]);
    }
    lemma_reworked(w, Rework::Maximize, gap, f, cols, c);
}

/// Where the focus is not on the strip on show, commands on its column do
/// nothing.
pub proof fn law_columns_without_focus_stay(w: WmView, dir: FocusDir, gap: int)
    requires
        w.focused matches Some(f) ==> forall|c: int|
            0 <= c < front(w).columns.len() ==> !(#[trigger] front(w).columns[c]).tiles.contains(
                f,
            ),
    ensures
        w.commanded(WmEvent::MoveColumn(dir), gap) == Some((w, Seq::<Action>::empty())),
        w.commanded(WmEvent::Expel, gap) == Some((w, Seq::<Action>::empty())),
        w.commanded(WmEvent::Consume, gap) == Some((w, Seq::<Action>::empty())),
        w.commanded(WmEvent::CycleWidth, gap) == Some((w, Seq::<Action>::empty())),
        w.commanded(WmEvent::MaximizeColumn, gap) == Some((w, Seq::<Action>::empty())),
{
    if let Some(f) = w.focused {
        assert(!front(w).contains(f));
        assert(front(w).column_index_of(f) is None);
    }
}

/// Scrolling moves the viewport to the next column start that way, as far as the
/// content reaches, and nothing else. Where no column starts further that way it
/// stays.
pub proof fn law_viewport_scrolls_by_columns(w: WmView, forward: bool, gap: int)
    requires
        w.wf(),
        front(w).columns.len() > 0,
        ({
            let s = front(w);
            let end = s.columns[s.columns.len() - 1].x + s.columns[s.columns.len() - 1].width
                - w.monitors[w.active_monitor].viewport_w;
            0 <= s.offset_x && (s.offset_x == 0 || s.offset_x <= end)
        }),
    ensures
        ({
            let s = front(w);
            let end = s.columns[s.columns.len() - 1].x + s.columns[s.columns.len() - 1].width
                - w.monitors[w.active_monitor].viewport_w;
            w.commanded(WmEvent::Scroll(forward), gap) matches Some((after, acts)) && {
                let to = front(after).offset_x;
                &&& acts == Seq::<Action>::empty()
                &&& differs_here_only(after, w)
                &&& after.focused == w.focused
                &&& front(after).columns == s.columns
                &&& front(after).last_focused == s.last_focused
                &&& if forward {
                    &&& to >= s.offset_x
                    &&& forall|j: int|
                        0 <= j < s.columns.len() && (#[trigger] s.columns[j]).x > s.offset_x ==> to
                            <= s.columns[j].x
                    &&& (forall|j: int|
                        0 <= j < s.columns.len() ==> (#[trigger] s.columns[j]).x <= s.offset_x)
                        ==> to == s.offset_x
                    &&& to == s.offset_x || to == end || exists|j: int|
                        0 <= j < s.columns.len() && (#[trigger] s.columns[j]).x == to
                    &&& (exists|j: int|
                        0 <= j < s.columns.len() && (#[trigger] s.columns[j]).x > s.offset_x)
                        && end > s.offset_x ==> to > s.offset_x
                } else {
                    &&& to <= s.offset_x
                    &&& forall|j: int|
                        0 <= j < s.columns.len() && 0 <= (#[trigger] s.columns[j]).x < s.offset_x
                            ==> to >= s.columns[j].x && to < s.offset_x
                    &&& to == s.offset_x || to == 0 || exists|j: int|
                        0 <= j < s.columns.len() && (#[trigger] s.columns[j]).x == to
                    &&& (forall|j: int|
                        0 <= j < s.columns.len() ==> (#[trigger] s.columns[j]).x >= s.offset_x)
                        ==> to == s.offset_x
                }
            }
        }),
{
    let m = w.here();
    let s = front(w);
    assert(m.stack.sound());
    assert(s.columns.last() == s.columns[s.columns.len() - 1]);
    if exists|j: int| #[trigger] starts_beyond(s, forward, j) {
        lemma_stop_exists(s, forward);
    } else {
        assert forall|j: int| 0 <= j < s.columns.len() implies if forward {
            (#[trigger] s.columns[j]).x <= s.offset_x
        } else {
            s.columns[j].x >= s.offset_x
        } by {
            assert(!starts_beyond(s, forward, j));
        }
    }
    if exists|t: int| s.is_scroll_stop(forward, t) {
        let t = choose|t: int| s.is_scroll_stop(forward, t);
        let k = choose|k: int| 0 <= k < s.columns.len() && (#[trigger] s.columns[k]).x == t;
        assert(s.columns[k].x == t);
    }
}

/// Column `j` starts beyond the viewport's left edge, that way.
pub open spec fn starts_beyond(s: StripView, forward: bool, j: int) -> bool {
    0 <= j < s.columns.len() && if forward {
        s.columns[j].x > s.offset_x
    } else {
        s.columns[j].x < s.offset_x
    }
}

/// Where a column starts beyond the viewport's left edge, one is the nearest.
proof fn lemma_stop_exists(s: StripView, forward: bool)
    requires
        exists|j: int| #[trigger] starts_beyond(s, forward, j),
    ensures
        exists|t: int| s.is_scroll_stop(forward, t),
        forall|j: int| #[trigger]
            starts_beyond(s, forward, j) ==> if forward {
                s.columns[j].x > s.offset_x
            } else {
                s.columns[j].x < s.offset_x
            },
{
    let j = choose|j: int| #[trigger] starts_beyond(s, forward, j);
    let b = lemma_nearest(s, forward, j, s.columns.len() as int);
}

/// The nearest start beyond the edge among the first `n` columns and column `j`.
proof fn lemma_nearest(s: StripView, forward: bool, j: int, n: int) -> (b: int)
    requires
        0 <= j < s.columns.len(),
        0 <= n <= s.columns.len(),
        if forward {
            s.columns[j].x > s.offset_x
        } else {
            s.columns[j].x < s.offset_x
        },
    ensures
        0 <= b < s.columns.len(),
        if forward {
            &&& s.columns[b].x > s.offset_x
            &&& forall|k: int|
                0 <= k < n && (#[trigger] s.columns[k]).x > s.offset_x ==> s.columns[b].x
                    <= s.columns[k].x
        } else {
            &&& s.columns[b].x < s.offset_x
            &&& forall|k: int|
                0 <= k < n && (#[trigger] s.columns[k]).x < s.offset_x ==> s.columns[b].x
                    >= s.columns[k].x
        },
        n == s.columns.len() ==> s.is_scroll_stop(forward, s.columns[b].x),
    decreases n,
{
    if n == 0 {
        j
    } else {
        let b = lemma_nearest(s, forward, j, n - 1);
        let x = s.columns[n - 1].x;
        if forward && s.offset_x < x < s.columns[b].x {
            n - 1
        } else if !forward && s.columns[b].x < x < s.offset_x {
            n - 1
        } else {
            b
        }
    }
}

// ---------------------------------------------------------------------------
// One window
// ---------------------------------------------------------------------------

/// Fullscreen is switched on for the focused window, or off where it was; it
/// ends for any other. Closing and starting a program change nothing here and
/// ask for just that.
pub proof fn law_commands_on_one_window(w: WmView, cmd: String, gap: int)
    ensures
        w.commanded(WmEvent::Fullscreen, gap) matches Some((after, acts)) && {
            &&& acts == Seq::<Action>::empty()
            &&& after == (WmView { fullscreen: after.fullscreen, ..w })
            &&& match w.focused {
                Some(f) => after.fullscreen == if w.fullscreen == Some(f.0) {
                    None
                } else {
                    Some(f.0)
                },
                None => after.fullscreen == w.fullscreen,
            }
        },
        w.commanded(WmEvent::CloseFocused, gap) == Some(
            (
                w,
                match w.focused {
                    Some(f) => seq![Action::Close(f.0)],
                    None => Seq::empty(),
                },
            ),
        ),
        w.commanded(WmEvent::Spawn(cmd), gap) == Some((w, seq![Action::Spawn(cmd)])),
{
}

/// Toggling the opacity pins the focused window, or ends its pin and its
/// dimming, and changes nothing else.
pub proof fn law_opacity_is_toggled(w: WmView, f: WindowId, gap: int)
    requires
        w.focused == Some(f),
        w.pinned.no_duplicates(),
    ensures
        w.commanded(WmEvent::ToggleOpacity, gap) matches Some((after, acts)) && {
            &&& after == (WmView { pinned: after.pinned, ..w })
            &&& after.pinned.contains(f.0) == !w.pinned.contains(f.0)
            &&& forall|x: u64|
                x != f.0 ==> after.pinned.contains(x) == #[trigger] w.pinned.contains(x)
            &&& acts == if w.pinned.contains(f.0) {
                seq![Action::Undim(f.0)]
            } else {
                Seq::empty()
            }
        },
{
    crate::wm_commands::law_pin_toggles(w.pinned, f.0);
    let after = w.opacity_toggled();
    assert forall|x: u64|
        x != f.0 implies after.pinned.contains(x) == #[trigger] w.pinned.contains(x) by {
        assert(crate::wm_commands::pin_toggled(w.pinned, f.0).contains(x) == after.pinned.contains(
            x,
        ));
    }
}

// ---------------------------------------------------------------------------
// Workspaces
// ---------------------------------------------------------------------------

/// The focused window moves to the workspace right below or above, which is then
/// shown: into a column of its own, of the default width, right of the window
/// focused there last. It keeps the focus and is in view. The workspace it left
/// closes up, or goes where it was the last there. At the ends nothing happens.
pub proof fn law_window_moves_to_workspace(w: WmView, down: bool, gap: int, k: int, c: int, i: int)
    requires
        w.wf(),
        0 <= k < w.monitors[w.active_monitor].stack.strips.len(),
        w.focused matches Some(f) && is_tile(
            w.monitors[w.active_monitor].stack.strips[k],
            c,
            i,
            f,
        ),
    ensures
        ({
            let m = w.monitors[w.active_monitor];
            let st = m.stack;
            let f = w.focused.unwrap();
            let to = next_workspace(k, down);
            w.commanded(WmEvent::MoveToWorkspace(down), gap) matches Some((after, acts)) && {
                &&& acts == Seq::<Action>::empty()
                &&& if 0 <= to < st.strips.len() {
                    let now = after.monitors[w.active_monitor].stack;
                    let emptied = st.strips[k].columns.len() == 1
                        && st.strips[k].columns[0].tiles.len() == 1;
                    &&& differs_here_only(after, w)
                    &&& after.focused == w.focused
                    &&& focus_followed(after, st.strips[to].offset_x)
                    &&& front(after).last_focused == Some(f)
                    &&& exists|p: int| #[trigger]
                        goes_to(st.strips[to], st.strips[to].last_focused, p) && has_new_column(
                            front(after),
                            st.strips[to],
                            p,
                            f,
                            m.default_width,
                            gap,
                        )
                    &&& now.active == if emptied && down {
                        to - 1
                    } else {
                        to
                    }
                    &&& !emptied ==> {
                        &&& closed_up(now.strips[k], st.strips[k], c, i, gap)
                        &&& viewport_back_on(now.strips[k], st.strips[k].offset_x, m.viewport_w)
                        &&& now.strips[k].last_focused == st.strips[k].last_focused
                        &&& forall|j: int|
                            0 <= j < st.strips.len() - 1 && j != k && j != to
                                ==> #[trigger] now.strips[j] == st.strips[j]
                    }
                } else {
                    after == w
                }
            }
        }),
{
    let m = w.here();
    let st = m.stack;
    let s = st.strips[k];
    let f = w.focused.unwrap();
    assert(st.sound());
    assert(s.sound());
    lemma_tile_at(s, c, i, f);
    lemma_strip_at(st, k, f);
    let to = next_workspace(k, down);
    if 0 <= to < st.strips.len() {
        let from = st.moved_from(f, m.viewport_w, gap);
        let into = st.moved_into(to, f, m.default_width, gap);
        let anchor = st.strips[to].last_focused;
        law_insertion(st.strips[to], anchor, f, m.default_width, gap);
        let p = st.strips[to].insert_index(anchor);
        assert(has_new_column(into, st.strips[to], p, f, m.default_width, gap));
        let mid = StackView { strips: st.strips.update(k, from).update(to, into), active: to };
        crate::layout_laws::law_move_window_keeps(
            st,
            f,
            down,
            m.default_width,
            m.viewport_w,
            gap,
        );
        let moved = st.move_window(f, down, m.default_width, m.viewport_w, gap).unwrap();
        assert(moved == mid.normalize());
        lemma_moved_shape(st, k, to, from, into);
        crate::layout_laws::law_normalize(mid);
        assert(mid.shown() == into);
        assert(moved.shown() == into);
        assert(moved.strips[moved.active].sound());
        lemma_new_column_settled(
            st.strips[to],
            into,
            p,
            f,
            m.default_width,
            gap,
            m.viewport_w,
        );
        law_marking(into, p, 0, f, m.viewport_w);
        let after = w.sent_to_workspace(down, gap);
        assert(front(after) == into.mark(f, m.viewport_w));
        lemma_emptied_when(s, c, i, f, gap);
        assert(into.contains(f)) by {
            assert(into.columns[p].tiles.contains(f));
        }
        lemma_followed(after, into, f);
        assert(goes_to(st.strips[to], anchor, p));
        law_removal_closes_up(s, c, i, f, gap);
        let cut = s.remove_window(f, gap);
        if cut.columns.len() > 0 {
            assert(cut.columns.last() == cut.columns[cut.columns.len() - 1]);
            assert(st.strips.last() == st.strips[st.strips.len() - 1]);
            assert forall|j: int| 0 <= j < mid.strips.len() - 1 implies (
            #[trigger] mid.strips[j]).columns.len() > 0 by {
                assert(st.strips[j].columns.len() > 0);
            }
            lemma_shape_kept(mid);
            assert(moved.strips[k] == from);
        }
    }
}

/// A window that is not on the active monitor is not moved to another workspace,
/// and without a focus no window is moved at all.
pub proof fn law_absent_window_stays(w: WmView, down: bool, forward: bool, gap: int)
    ensures
        w.focused matches Some(f) ==> !w.monitors[w.active_monitor].stack.contains(f)
            ==> w.commanded(WmEvent::MoveToWorkspace(down), gap) == Some(
            (w, Seq::<Action>::empty()),
        ),
        w.focused is None ==> w.commanded(WmEvent::MoveToWorkspace(down), gap) == Some(
            (w, Seq::<Action>::empty()),
        ) && w.commanded(WmEvent::MoveToMonitor(forward), gap) == Some(
            (w, Seq::<Action>::empty()),
        ),
{
}

/// A strip has no column left exactly where it had one, of one tile.
proof fn lemma_emptied_when(s: StripView, c: int, i: int, id: WindowId, gap: int)
    requires
        s.sound(),
        is_tile(s, c, i, id),
    ensures
        s.remove_window(id, gap).columns.len() == 0 <==> s.columns.len() == 1
            && s.columns[0].tiles.len() == 1,
{
    lemma_tile_at(s, c, i, id);
    lemma_without_is_remove(s.columns[c].tiles, id, i);
}

/// The workspace shown after a window moved from `k` to `to`.
proof fn lemma_moved_shape(st: StackView, k: int, to: int, from: StripView, into: StripView)
    requires
        st.wf(),
        0 <= k < st.strips.len(),
        st.strips[k].columns.len() > 0,
        0 <= to < st.strips.len(),
        to == k + 1 || to == k - 1,
        into.columns.len() > 0,
    ensures
        ({
            let mid = StackView { strips: st.strips.update(k, from).update(to, into), active: to };
            mid.normalize().active == if from.columns.len() == 0 && k < to {
                to - 1
            } else {
                to
            }
        }),
{
    let n = st.strips.len() as int;
    let strips = st.strips.update(k, from).update(to, into);
    let mid = StackView { strips, active: to };
    assert(st.strips.last() == st.strips[n - 1]);
    if from.columns.len() > 0 {
        assert forall|j: int| 0 <= j < n - 1 implies (#[trigger] strips[j]).columns.len() > 0 by {
            assert(st.strips[j].columns.len() > 0);
        }
        lemma_shape_kept(mid);
    } else {
        let t = strips.take(to);
        if k < to {
            let b = t.drop_last();
            assert forall|j: int| 0 <= j < b.len() implies (#[trigger] b[j]).columns.len() > 0 by {
                assert(st.strips[j].columns.len() > 0);
            }
            crate::layout_laws::lemma_occupied_whole(b);
            reveal(Seq::filter);
            assert(t.last() == from);
        } else {
            assert forall|j: int| 0 <= j < t.len() implies (#[trigger] t[j]).columns.len() > 0 by {
                assert(st.strips[j].columns.len() > 0);
            }
            crate::layout_laws::lemma_occupied_whole(t);
        }
    }
}

// ---------------------------------------------------------------------------
// Monitors
// ---------------------------------------------------------------------------

/// The monitor after or before the active one, going round.
pub open spec fn next_monitor(i: int, n: int, forward: bool) -> int {
    if forward {
        (i + 1) % n
    } else {
        (i + n - 1) % n
    }
}

proof fn lemma_next_monitor(i: int, n: int, forward: bool)
    requires
        0 <= i < n,
    ensures
        beside(i, n, forward) == next_monitor(i, n, forward),
        0 <= beside(i, n, forward) < n,
        n > 1 ==> beside(i, n, forward) != i,
{
    if forward {
        if i + 1 == n {
            assert(n % n == 0) by (nonlinear_arith)
                requires
                    n > 0,
            ;
        } else {
            vstd::arithmetic::div_mod::lemma_small_mod((i + 1) as nat, n as nat);
        }
    } else {
        if i == 0 {
            vstd::arithmetic::div_mod::lemma_small_mod((n - 1) as nat, n as nat);
        } else {
            vstd::arithmetic::div_mod::lemma_mod_add_multiples_vanish(i - 1, n);
            vstd::arithmetic::div_mod::lemma_small_mod((i - 1) as nat, n as nat);
        }
    }
}

/// Focusing another monitor makes the next or previous one active, going round,
/// with the focus where it was there last and in view. With one monitor nothing
/// happens.
pub proof fn law_next_monitor_is_focused(w: WmView, forward: bool, gap: int)
    requires
        w.wf(),
    ensures
        ({
            let n = w.monitors.len() as int;
            let to = next_monitor(w.active_monitor, n, forward);
            w.commanded(WmEvent::FocusMonitor(forward), gap) matches Some((after, acts)) && if n
                > 1 {
                let s = w.monitors[to].stack.strips[w.monitors[to].stack.active];
                &&& 0 <= to < n
                &&& to != w.active_monitor
                &&& after.active_monitor == to
                &&& is_resumed(s, after.focused)
                &&& after.focused is Some ==> focus_in_view(after)
                &&& match after.focused {
                    Some(f) => brought_forward(front(after), s, f, w.monitors[to].viewport_w),
                    None => front(after) == s,
                }
                &&& front(after).last_focused == s.last_focused
                &&& after.monitors[to] == w.monitors[to].with_shown(front(after))
                &&& acts == focus_request(after.focused)
                &&& after.monitors.len() == n
                &&& forall|j: int|
                    0 <= j < n && j != to ==> #[trigger] after.monitors[j] == w.monitors[j]
                &&& after == (WmView {
                    monitors: after.monitors,
                    active_monitor: to,
                    focused: after.focused,
                    ..w
                })
            } else {
                after == w && acts == Seq::<Action>::empty()
            }
        }),
{
    let n = w.monitors.len() as int;
    lemma_next_monitor(w.active_monitor, n, forward);
    let to = beside(w.active_monitor, n, forward);
    if n > 1 {
        let m = w.monitors[to];
        assert(m.stack.sound());
        assert(m.stack.strips[m.stack.active].sound());
        lemma_return_resumes(m.shown());
        lemma_return_to(m.shown());
        if let Some(f) = m.shown().return_to() {
            crate::focus_laws::lemma_settled_shows(m, f);
            law_brought_forward(m.shown(), f, m.viewport_w);
        } else {
            assert(m.stack.strips =~= m.stack.strips.update(m.stack.active, m.shown()));
        }
    }
}

/// The workspace of a window taken out, where others are left on it, closes up in
/// its place.
proof fn lemma_source_closes_up(m: MonitorView, k: int, c: int, i: int, f: WindowId, gap: int)
    requires
        m.stack.sound(),
        0 <= k < m.stack.strips.len(),
        is_tile(m.stack.strips[k], c, i, f),
    ensures
        ({
            let s = m.stack.strips[k];
            let now = m.taken_out(f, gap).stack;
            s.columns.len() > 1 || s.columns[0].tiles.len() > 1 ==> {
                &&& closed_up(now.strips[k], s, c, i, gap)
                &&& viewport_back_on(now.strips[k], s.offset_x, m.viewport_w)
                &&& now.active == m.stack.active
            }
        }),
{
    let st = m.stack;
    let s = st.strips[k];
    assert(s.sound());
    lemma_tile_at(s, c, i, f);
    lemma_strip_at(st, k, f);
    law_cleared_strip(s, c, i, f, m.viewport_w, gap);
    let t = s.cleared(f, m.viewport_w, gap);
    if s.columns.len() > 1 || s.columns[0].tiles.len() > 1 {
        assert(t.columns.len() > 0);
        let mid = m.with_strip(k, t).stack;
        assert(st.strips.last() == st.strips[st.strips.len() - 1]);
        assert forall|j: int| 0 <= j < mid.strips.len() - 1 implies (
        #[trigger] mid.strips[j]).columns.len() > 0 by {
            assert(st.strips[j].columns.len() > 0);
        }
        lemma_shape_kept(mid);
    }
}

/// Sending the focused window to another monitor moves it to the next or
/// previous one from its own, going round, into a column of its own of the
/// default width right of the window focused there last. It keeps the focus, is
/// in view there and is asked for. Its old monitor no longer holds it, and the
/// workspace it left closes up. With one monitor nothing happens.
pub proof fn law_window_moves_to_monitor(
    w: WmView,
    forward: bool,
    gap: int,
    mi: int,
    k: int,
    c: int,
    i: int,
    f: WindowId,
)
    requires
        w.wf(),
        w.focused == Some(f),
        0 <= mi < w.monitors.len(),
        0 <= k < w.monitors[mi].stack.strips.len(),
        is_tile(w.monitors[mi].stack.strips[k], c, i, f),
    ensures
        ({
            let n = w.monitors.len() as int;
            let to = next_monitor(mi, n, forward);
            w.commanded(WmEvent::MoveToMonitor(forward), gap) matches Some((after, acts)) && if n
                > 1 {
                let m = w.monitors[to];
                let s = m.stack.strips[m.stack.active];
                let left = w.monitors[mi].stack.strips[k];
                &&& 0 <= to < n
                &&& to != mi
                &&& after.active_monitor == to
                &&& after.focused == Some(f)
                &&& focus_followed(after, s.offset_x)
                &&& front(after).last_focused == Some(f)
                &&& exists|p: int| #[trigger]
                    goes_to(s, s.last_focused, p) && has_new_column(
                        front(after),
                        s,
                        p,
                        f,
                        m.default_width,
                        gap,
                    )
                &&& after.monitors[to].stack.active == m.stack.active
                &&& !after.monitors[mi].stack.contains(f)
                &&& left.columns.len() > 1 || left.columns[0].tiles.len() > 1 ==> {
                    let now = after.monitors[mi].stack.strips[k];
                    &&& closed_up(now, left, c, i, gap)
                    &&& viewport_back_on(now, left.offset_x, w.monitors[mi].viewport_w)
                    &&& after.monitors[mi].stack.active == w.monitors[mi].stack.active
                }
                &&& acts == seq![Action::Focus(f.0)]
                &&& after.monitors.len() == n
                &&& forall|j: int|
                    0 <= j < n && j != to && j != mi ==> #[trigger] after.monitors[j]
                        == w.monitors[j]
                &&& after == (WmView {
                    monitors: after.monitors,
                    active_monitor: to,
                    ..w
                })
            } else {
                after == w && acts == Seq::<Action>::empty()
            }
        }),
{
    let n = w.monitors.len() as int;
    let own = w.monitors[mi];
    let left = own.stack.strips[k];
    assert(own.stack.sound());
    assert(left.sound());
    lemma_tile_at(left, c, i, f);
    lemma_strip_at(own.stack, k, f);
    lemma_monitor_at(w.monitors, mi, f);
    lemma_next_monitor(mi, n, forward);
    let to = beside(mi, n, forward);
    if n > 1 {
        lemma_source_closes_up(own, k, c, i, f, gap);
        let m = w.monitors[to];
        let st = m.stack;
        let s = m.shown();
        assert(st.sound());
        assert(s.sound());
        assert(w.monitors[mi].stack.sound());
        assert(!st.contains(f)) by {
            if st.contains(f) {
                assert(w.monitors[to].stack.contains(f) && w.monitors[mi].stack.contains(f));
            }
        }
        assert(!s.contains(f)) by {
            if s.contains(f) {
                assert(st.strips[st.active].contains(f));
            }
        }
        lemma_taken_out(w.monitors[mi], f, gap);
        law_insertion(s, s.last_focused, f, m.default_width, gap);
        crate::layout_laws::law_insert_adds(s, s.last_focused, f, m.default_width, gap);
        let p = s.insert_index(s.last_focused);
        let grown = m.receiving(f, gap);
        let raw = s.insert_column_after(s.last_focused, f, m.default_width, gap);
        assert(raw.once());
        assert(grown.columns == raw.columns);
        assert(grown.once());
        assert(has_new_column(grown, s, p, f, m.default_width, gap));
        let mid = m.with_shown(grown).stack;
        assert forall|j: int| 0 <= j < mid.strips.len() - 1 implies (
        #[trigger] mid.strips[j]).columns.len() > 0 by {
            assert(st.strips[j].columns.len() > 0);
        }
        lemma_shape_kept(mid);
        let got = m.received(f, gap);
        assert(got.shown() == grown);
        lemma_new_column_settled(s, grown, p, f, m.default_width, gap, m.viewport_w);
        law_marking(grown, p, 0, f, m.viewport_w);
        let after = w.sent_to_monitor(forward, gap);
        assert(after.monitors[to] == got.marked_on(f));
        assert(front(after) == grown.mark(f, m.viewport_w));
        assert(grown.contains(f)) by {
            assert(grown.columns[p].tiles.contains(f));
        }
        lemma_followed(after, grown, f);
        assert(crate::monitors::managed(w.monitors, f));
    }
}

} // verus!
