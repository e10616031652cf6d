//! What every layout operation keeps.
//!
//! Inserting and removing never resize a column that stays, columns stand side
//! by side a gap apart, and no window is tiled twice or lost.

use vstd::prelude::*;

use crate::arith::{lesser, magnitude};
use crate::layout::{
    ColumnView, FocusDir, PlacementView, RectView, StackView, StripView, WindowId, active_without,
    empty_strip, is_packed, lemma_column_index, lemma_column_index_is, lemma_packed_x_widths,
    lemma_strip_index, lemma_strip_index_is, occupied, occurrences, packed, packed_x, preset,
    shifted, single_column, tile_height, without,
};

verus! {

// ---------------------------------------------------------------------------
// Sequences of windows
// ---------------------------------------------------------------------------

/// Taking one id out of a list leaves exactly the others.
pub proof fn lemma_without(tiles: Seq<WindowId>, id: WindowId)
    ensures
        forall|x: WindowId| #[trigger]
            without(tiles, id).contains(x) <==> tiles.contains(x) && x != id,
        tiles.no_duplicates() ==> without(tiles, id).no_duplicates(),
        !tiles.contains(id) ==> without(tiles, id) == tiles,
    decreases tiles.len(),
{
    reveal(Seq::filter);
    let out = without(tiles, id);
    if tiles.len() > 0 {
        let front = tiles.drop_last();
        lemma_without(front, id);
        let head = without(front, id);
        let last = tiles.last();
        assert(out == if last != id {
            head.push(last)
        } else {
            head
        });
        assert forall|x: WindowId| #[trigger] out.contains(x) <==> tiles.contains(x) && x != id by {
            assert(tiles.contains(x) <==> front.contains(x) || x == last) by {
                if tiles.contains(x) {
                    let k = tiles.index_of(x);
                    if k < front.len() {
                        assert(front[k] == x);
                    }
                }
                if front.contains(x) {
                    let k = front.index_of(x);
                    assert(tiles[k] == x);
                }
                if x == last {
                    assert(tiles[tiles.len() - 1] == x);
                }
            }
            if last != id {
                lemma_push_contains(head, last, x);
            }
            assert(head.contains(x) <==> front.contains(x) && x != id);
        }
        if tiles.no_duplicates() {
            assert(front.no_duplicates());
            if last != id {
                assert(!front.contains(last)) by {
                    if front.contains(last) {
                        let k = front.index_of(last);
                        assert(tiles[k] == tiles[tiles.len() - 1]);
                    }
                }
                assert(!head.contains(last));
                assert forall|i: int, j: int|
                    0 <= i < out.len() && 0 <= j < out.len() && i != j implies out[i] != out[j] by {
                    if i == head.len() {
                        assert(head.contains(head[j]));
                    } else if j == head.len() {
                        assert(head.contains(head[i]));
                    }
                }
            }
        }
        if !tiles.contains(id) {
            assert(!front.contains(id)) by {
                if front.contains(id) {
                    let k = front.index_of(id);
                    assert(tiles[k] == id);
                }
            }
            assert(tiles[tiles.len() - 1] == last);
            assert(out =~= tiles);
        }
    } else {
        assert(out =~= tiles);
    }
}

/// A pushed list holds the pushed id and what it held.
pub proof fn lemma_push_contains(s: Seq<WindowId>, a: WindowId, x: WindowId)
    ensures
        s.push(a).contains(x) <==> s.contains(x) || x == a,
{
    if s.contains(x) {
        let k = s.index_of(x);
        assert(s.push(a)[k] == x);
    }
    if x == a {
        assert(s.push(a)[s.len() as int] == x);
    }
    if s.push(a).contains(x) {
        let k = s.push(a).index_of(x);
        if k < s.len() {
            assert(s[k] == x);
        }
    }
}

/// Removing a position from a list without repeats removes just that id.
pub proof fn lemma_remove_contains(s: Seq<WindowId>, k: int)
    requires
        0 <= k < s.len(),
        s.no_duplicates(),
    ensures
        s.remove(k).no_duplicates(),
        forall|x: WindowId| #[trigger] s.remove(k).contains(x) <==> s.contains(x) && x != s[k],
{
    let r = s.remove(k);
    assert forall|x: WindowId| #[trigger] r.contains(x) <==> s.contains(x) && x != s[k] by {
        if r.contains(x) {
            let j = r.index_of(x);
            if j < k {
                assert(s[j] == x);
            } else {
                assert(s[j + 1] == x);
            }
        }
        if s.contains(x) && x != s[k] {
            let j = s.index_of(x);
            if j < k {
                assert(r[j] == x);
            } else {
                assert(r[j - 1] == x);
            }
        }
    }
}

// ---------------------------------------------------------------------------
// Packing
// ---------------------------------------------------------------------------

/// Assigning every `x` anew puts every column where it belongs, and changes
/// nothing where they stand there already.
pub proof fn law_relayout_packs(cols: Seq<ColumnView>, gap: int)
    ensures
        is_packed(packed(cols, gap), gap),
        is_packed(cols, gap) ==> packed(cols, gap) == cols,
{
    let p = packed(cols, gap);
    assert forall|k: int| 0 <= k < p.len() implies (#[trigger] p[k]).x == packed_x(p, gap, k) by {
        lemma_packed_x_widths(cols, p, gap, k);
    }
    if is_packed(cols, gap) {
        assert(p =~= cols);
    }
}

/// With one column more at `idx`, the positions behind it move by its width and
/// the gap.
proof fn lemma_packed_x_inserted(
    cols: Seq<ColumnView>,
    more: Seq<ColumnView>,
    idx: int,
    gap: int,
    k: int,
)
    requires
        more.len() == cols.len() + 1,
        0 <= idx <= cols.len(),
        idx < k <= more.len(),
        forall|j: int| 0 <= j < idx ==> (#[trigger] more[j]).width == cols[j].width,
        forall|j: int| idx < j < more.len() ==> (#[trigger] more[j]).width == cols[j - 1].width,
    ensures
        packed_x(more, gap, k) == packed_x(cols, gap, k - 1) + more[idx].width + gap,
    decreases k,
{
    if k == idx + 1 {
        lemma_packed_x_widths(more, cols, gap, idx);
        assert(packed_x(more, gap, idx + 1) == packed_x(more, gap, idx) + more[idx].width + gap);
    } else {
        lemma_packed_x_inserted(cols, more, idx, gap, k - 1);
        assert(more[k - 1].width == cols[k - 2].width);
    }
}

/// Inserting never resizes or reorders a column that was there, and moves only
/// those behind it.
pub proof fn law_insert_keeps_columns(
    s: StripView,
    anchor: Option<WindowId>,
    id: WindowId,
    width: int,
    gap: int,
    k: int,
)
    requires
        0 <= k < s.columns.len(),
    ensures
        ({
            let idx = s.insert_index(anchor);
            let after = s.insert_column_after(anchor, id, width, gap);
            let now = after.columns[if k < idx {
                k
            } else {
                k + 1
            }];
            &&& 0 <= idx <= s.columns.len()
            &&& after.columns[idx] == single_column(s.insert_x(idx, gap), width, id)
            &&& now == (if k < idx {
                s.columns[k]
            } else {
                shifted(s.columns[k], width + gap)
            })
            &&& now.width == s.columns[k].width
            &&& now.tiles == s.columns[k].tiles
        }),
{
    lemma_insert_index(s, anchor);
}

/// An insertion goes between the columns there are.
pub proof fn lemma_insert_index(s: StripView, anchor: Option<WindowId>)
    ensures
        0 <= s.insert_index(anchor) <= s.columns.len(),
{
    if let Some(a) = anchor {
        lemma_column_index(s, a);
    }
}

/// Columns that stand side by side still do after an insertion.
pub proof fn law_insert_keeps_packing(
    s: StripView,
    anchor: Option<WindowId>,
    id: WindowId,
    width: int,
    gap: int,
)
    requires
        is_packed(s.columns, gap),
    ensures
        is_packed(s.insert_column_after(anchor, id, width, gap).columns, gap),
{
    lemma_insert_index(s, anchor);
    let idx = s.insert_index(anchor);
    let more = s.insert_column_after(anchor, id, width, gap).columns;
    assert forall|k: int| 0 <= k < more.len() implies (#[trigger] more[k]).x == packed_x(
        more,
        gap,
        k,
    ) by {
        if k <= idx {
            lemma_packed_x_widths(more, s.columns, gap, k);
            if k < idx {
                assert(s.columns[k].x == packed_x(s.columns, gap, k));
            } else if idx > 0 {
                assert(s.columns[idx - 1].x == packed_x(s.columns, gap, idx - 1));
            }
        } else {
            lemma_packed_x_inserted(s.columns, more, idx, gap, k);
            assert(s.columns[k - 1].x == packed_x(s.columns, gap, k - 1));
        }
    }
}

/// Removing never resizes a column that stays.
pub proof fn law_remove_keeps_columns(s: StripView, id: WindowId, gap: int, k: int)
    requires
        0 <= k < s.columns.len(),
    ensures
        ({
            let after = s.remove_window(id, gap);
            let n = s.columns.len();
            ||| after.columns.len() == n && after.columns[k].width == s.columns[k].width
                && after.columns[k].x == s.columns[k].x
            ||| after.columns.len() == n - 1 && s.column_index_of(id) == Some(k)
            ||| after.columns.len() == n - 1 && (s.column_index_of(id) matches Some(i) && {
                let now = after.columns[if k < i {
                    k
                } else {
                    k - 1
                }];
                now == (if k < i {
                    s.columns[k]
                } else {
                    shifted(s.columns[k], -(s.columns[i].width + gap))
                })
            })
        }),
{
    lemma_column_index(s, id);
}

/// Columns that stand side by side still do after a removal.
pub proof fn law_remove_keeps_packing(s: StripView, id: WindowId, gap: int)
    requires
        is_packed(s.columns, gap),
    ensures
        is_packed(s.remove_window(id, gap).columns, gap),
{
    lemma_column_index(s, id);
    let less = s.remove_window(id, gap).columns;
    if let Some(i) = s.column_index_of(id) {
        if less.len() == s.columns.len() {
            assert forall|k: int| 0 <= k < less.len() implies (#[trigger] less[k]).x == packed_x(
                less,
                gap,
                k,
            ) by {
                lemma_packed_x_widths(less, s.columns, gap, k);
                assert(s.columns[k].x == packed_x(s.columns, gap, k));
            }
        } else {
            assert forall|k: int| 0 <= k < less.len() implies (#[trigger] less[k]).x == packed_x(
                less,
                gap,
                k,
            ) by {
                if k < i {
                    lemma_packed_x_widths(less, s.columns, gap, k);
                    assert(s.columns[k].x == packed_x(s.columns, gap, k));
                } else {
                    lemma_packed_x_inserted(less, s.columns, i, gap, k + 1);
                    assert(s.columns[k + 1].x == packed_x(s.columns, gap, k + 1));
                }
            }
        }
    }
}

/// Moving, expelling, consuming and resizing leave the columns side by side.
pub proof fn law_steps_pack(s: StripView, id: WindowId, dir: FocusDir, viewport_w: int, gap: int)
    ensures
        s.move_column(id, dir, gap) matches Some(v) ==> is_packed(v.columns, gap),
        s.expel(id, gap) matches Some(v) ==> is_packed(v.columns, gap),
        s.consume_right(id, gap) matches Some(v) ==> is_packed(v.columns, gap),
        s.cycle_width(id, viewport_w, gap) matches Some(v) ==> is_packed(v.columns, gap),
        s.toggle_maximize(id, viewport_w, gap) matches Some(v) ==> is_packed(v.columns, gap),
{
    assert forall|cols: Seq<ColumnView>| is_packed(#[trigger] packed(cols, gap), gap) by {
        law_relayout_packs(cols, gap);
    }
}

/// Taking out a window that was just put in gives the strip back.
pub proof fn law_insert_then_remove(
    s: StripView,
    anchor: Option<WindowId>,
    id: WindowId,
    width: int,
    gap: int,
)
    requires
        !s.contains(id),
    ensures
        s.insert_column_after(anchor, id, width, gap).remove_window(id, gap) == s,
{
    lemma_insert_index(s, anchor);
    let idx = s.insert_index(anchor);
    let with = s.insert_column_after(anchor, id, width, gap);
    assert(with.columns[idx].tiles[0] == id);
    assert forall|j: int| 0 <= j < idx implies !(#[trigger] with.columns[j]).tiles.contains(id) by {
        assert(with.columns[j] == s.columns[j]);
    }
    assert(with.is_column_of(id, idx));
    lemma_column_index_is(with, id, idx);
    lemma_without(with.columns[idx].tiles, id);
    let rest = without(with.columns[idx].tiles, id);
    if rest.len() > 0 {
        assert(rest.contains(rest[0]));
        assert(with.columns[idx].tiles.contains(rest[0]));
    }
    let back = with.remove_window(id, gap);
    assert(back.columns =~= s.columns);
}

// ---------------------------------------------------------------------------
// Windows kept, none twice
// ---------------------------------------------------------------------------

/// The two strips hold the same tiles in the same columns.
pub open spec fn same_tiles(a: StripView, b: StripView) -> bool {
    &&& a.columns.len() == b.columns.len()
    &&& forall|k: int|
        0 <= k < a.columns.len() ==> (#[trigger] a.columns[k]).tiles == b.columns[k].tiles
}

/// Strips with the same tiles hold the same windows in the same way.
pub proof fn lemma_same_tiles(a: StripView, b: StripView)
    requires
        same_tiles(a, b),
    ensures
        same_tiles(b, a),
        a.columns_filled() == b.columns_filled(),
        a.once() == b.once(),
        a.sound() == b.sound(),
        forall|id: WindowId| a.contains(id) == #[trigger] b.contains(id),
        forall|id: WindowId| a.column_index_of(id) == #[trigger] b.column_index_of(id),
{
    assert forall|k: int| 0 <= k < b.columns.len() implies (#[trigger] b.columns[k]).tiles
        == a.columns[k].tiles by {
        assert(a.columns[k].tiles == b.columns[k].tiles);
    }
    lemma_same_tiles_once(a, b);
    lemma_same_tiles_once(b, a);
    assert forall|id: WindowId| a.contains(id) == #[trigger] b.contains(id) by {
        if a.contains(id) {
            let i = choose|i: int|
                0 <= i < a.columns.len() && (#[trigger] a.columns[i]).tiles.contains(id);
            assert(b.columns[i].tiles.contains(id));
        }
        if b.contains(id) {
            let i = choose|i: int|
                0 <= i < b.columns.len() && (#[trigger] b.columns[i]).tiles.contains(id);
            assert(a.columns[i].tiles.contains(id));
        }
    }
    assert forall|id: WindowId| a.column_index_of(id) == #[trigger] b.column_index_of(id) by {
        lemma_column_index(a, id);
        assert(a.contains(id) == b.contains(id));
        if let Some(i) = a.column_index_of(id) {
            assert(b.columns[i].tiles.contains(id));
            assert forall|j: int| 0 <= j < i implies !(#[trigger] b.columns[j]).tiles.contains(
                id,
            ) by {
                assert(!a.columns[j].tiles.contains(id));
            }
            assert(b.is_column_of(id, i));
            lemma_column_index_is(b, id, i);
        }
    }
}

proof fn lemma_same_tiles_once(a: StripView, b: StripView)
    requires
        same_tiles(a, b),
    ensures
        a.columns_filled() ==> b.columns_filled(),
        a.once() ==> b.once(),
{
    if a.columns_filled() {
        assert forall|c: int| 0 <= c < b.columns.len() implies (#[trigger] b.columns[c]).tiles.len()
            > 0 by {
            assert(a.columns[c].tiles.len() > 0);
        }
    }
    if a.once() {
        assert forall|c: int|
            0 <= c < b.columns.len() implies (#[trigger] b.columns[c]).tiles.no_duplicates() by {
            assert(a.columns[c].tiles.no_duplicates());
        }
        assert forall|c: int, d: int, id: WindowId|
            0 <= c < b.columns.len() && 0 <= d < b.columns.len()
                && #[trigger] b.columns[c].tiles.contains(id)
                && #[trigger] b.columns[d].tiles.contains(id) implies c == d by {
            assert(a.columns[c].tiles.contains(id) && a.columns[d].tiles.contains(id));
        }
    }
}

/// Moving the viewport, remembering a tile or a focus, and assigning positions
/// and widths anew all leave every tile in its column.
pub proof fn law_tiles_stay(s: StripView, id: WindowId, viewport_w: int, gap: int, forward: bool)
    ensures
        same_tiles(s.set_active(id), s),
        same_tiles(s.ensure_visible(id, viewport_w), s),
        same_tiles(s.clamp_offset(viewport_w), s),
        same_tiles(s.scroll_columnwise(forward, viewport_w), s),
        same_tiles(s.relayout(gap), s),
        s.cycle_width(id, viewport_w, gap) matches Some(v) ==> same_tiles(v, s),
        s.toggle_maximize(id, viewport_w, gap) matches Some(v) ==> same_tiles(v, s),
{
    lemma_column_index(s, id);
}

/// An insertion adds just the new window, in a column of its own.
pub proof fn law_insert_adds(
    s: StripView,
    anchor: Option<WindowId>,
    id: WindowId,
    width: int,
    gap: int,
)
    ensures
        ({
            let after = s.insert_column_after(anchor, id, width, gap);
            &&& after.columns.len() == s.columns.len() + 1
            &&& forall|x: WindowId| #[trigger]
                after.contains(x) <==> s.contains(x) || x == id
            &&& s.columns_filled() ==> after.columns_filled()
            &&& s.once() && !s.contains(id) ==> after.once()
        }),
{
    lemma_insert_index(s, anchor);
    let idx = s.insert_index(anchor);
    let after = s.insert_column_after(anchor, id, width, gap);
    assert(after.columns[idx].tiles[0] == id);
    assert forall|x: WindowId| #[trigger] after.contains(x) <==> s.contains(x) || x == id by {
        if s.contains(x) {
            let k = choose|k: int|
                0 <= k < s.columns.len() && (#[trigger] s.columns[k]).tiles.contains(x);
            if k < idx {
                assert(after.columns[k].tiles.contains(x));
            } else {
                assert(after.columns[k + 1].tiles.contains(x));
            }
        }
        if x == id {
            assert(after.columns[idx].tiles.contains(x));
        }
        if after.contains(x) {
            let k = choose|k: int|
                0 <= k < after.columns.len() && (#[trigger] after.columns[k]).tiles.contains(x);
            if k < idx {
                assert(s.columns[k].tiles.contains(x));
            } else if k > idx {
                assert(s.columns[k - 1].tiles.contains(x));
            }
        }
    }
    if s.columns_filled() {
        assert forall|c: int| 0 <= c < after.columns.len() implies (#[trigger] after.columns[c]).tiles.len()
            > 0 by {
            if c < idx {
                assert(s.columns[c].tiles.len() > 0);
            } else if c > idx {
                assert(s.columns[c - 1].tiles.len() > 0);
            }
        }
    }
    if s.once() && !s.contains(id) {
        assert forall|c: int| 0 <= c < after.columns.len() implies (
        #[trigger] after.columns[c]).tiles.no_duplicates() by {
            if c < idx {
                assert(s.columns[c].tiles.no_duplicates());
            } else if c > idx {
                assert(s.columns[c - 1].tiles.no_duplicates());
            }
        }
        assert forall|c: int, d: int, x: WindowId|
            0 <= c < after.columns.len() && 0 <= d < after.columns.len()
                && #[trigger] after.columns[c].tiles.contains(x)
                && #[trigger] after.columns[d].tiles.contains(x) implies c == d by {
            let c0 = if c < idx {
                c
            } else {
                c - 1
            };
            let d0 = if d < idx {
                d
            } else {
                d - 1
            };
            if c != idx {
                assert(s.columns[c0].tiles.contains(x));
                assert(x != id);
            }
            if d != idx {
                assert(s.columns[d0].tiles.contains(x));
                assert(x != id);
            }
        }
    }
}

/// A removal takes out just that window.
pub proof fn law_remove_takes(s: StripView, id: WindowId, gap: int)
    ensures
        ({
            let after = s.remove_window(id, gap);
            &&& s.columns_filled() ==> after.columns_filled()
            &&& s.once() ==> after.once()
            &&& s.once() ==> (forall|x: WindowId| #[trigger]
                after.contains(x) <==> s.contains(x) && x != id)
            &&& !s.contains(id) ==> after == s
        }),
{
    lemma_column_index(s, id);
    let after = s.remove_window(id, gap);
    if let Some(i) = s.column_index_of(id) {
        let col = s.columns[i];
        let rest = without(col.tiles, id);
        lemma_without(col.tiles, id);
        let kept = rest.len() > 0;
        assert(after.columns.len() == if kept {
            s.columns.len()
        } else {
            (s.columns.len() - 1) as nat
        });
        assert forall|k: int| 0 <= k < after.columns.len() implies (#[trigger] after.columns[k]).tiles
            == if kept {
            if k == i {
                rest
            } else {
                s.columns[k].tiles
            }
        } else if k < i {
            s.columns[k].tiles
        } else {
            s.columns[k + 1].tiles
        } by {}
        if s.columns_filled() {
            assert forall|c: int| 0 <= c < after.columns.len() implies (
            #[trigger] after.columns[c]).tiles.len() > 0 by {
                if kept || c < i {
                    assert(s.columns[c].tiles.len() > 0);
                } else {
                    assert(s.columns[c + 1].tiles.len() > 0);
                }
            }
        }
        if s.once() {
            assert(col.tiles.no_duplicates());
            assert forall|c: int| 0 <= c < after.columns.len() implies (
            #[trigger] after.columns[c]).tiles.no_duplicates() by {
                if kept || c < i {
                    assert(s.columns[c].tiles.no_duplicates());
                } else {
                    assert(s.columns[c + 1].tiles.no_duplicates());
                }
            }
            assert forall|c: int, d: int, x: WindowId|
                0 <= c < after.columns.len() && 0 <= d < after.columns.len()
                    && #[trigger] after.columns[c].tiles.contains(x)
                    && #[trigger] after.columns[d].tiles.contains(x) implies c == d by {
                let c0 = if kept || c < i {
                    c
                } else {
                    c + 1
                };
                let d0 = if kept || d < i {
                    d
                } else {
                    d + 1
                };
                assert(s.columns[c0].tiles.contains(x));
                assert(s.columns[d0].tiles.contains(x));
            }
            assert forall|x: WindowId| #[trigger] after.contains(x) <==> s.contains(x) && x != id by {
                if after.contains(x) {
                    let k = choose|k: int|
                        0 <= k < after.columns.len() && (#[trigger] after.columns[k]).tiles.contains(
                            x,
                        );
                    let k0 = if kept || k < i {
                        k
                    } else {
                        k + 1
                    };
                    assert(s.columns[k0].tiles.contains(x));
                    if x == id {
                        assert(s.columns[i].tiles.contains(x));
                        assert(k0 == i);
                        assert(rest.contains(x));
                    }
                }
                if s.contains(x) && x != id {
                    let k = choose|k: int|
                        0 <= k < s.columns.len() && (#[trigger] s.columns[k]).tiles.contains(x);
                    if k == i {
                        assert(rest.contains(x));
                        assert(rest.len() > 0);
                        assert(after.columns[i].tiles == rest);
                    } else if kept || k < i {
                        assert(after.columns[k].tiles.contains(x));
                    } else {
                        assert(after.columns[k - 1].tiles.contains(x));
                    }
                }
            }
        }
    } else {
        if s.once() {
            assert forall|x: WindowId| #[trigger] after.contains(x) <==> s.contains(x) && x != id by {}
        }
    }
}

/// Trading two columns moves no tile out of its column.
pub proof fn law_move_column_keeps(s: StripView, id: WindowId, dir: FocusDir, gap: int)
    ensures
        s.move_column(id, dir, gap) matches Some(v) ==> {
            &&& v.columns.len() == s.columns.len()
            &&& s.columns_filled() ==> v.columns_filled()
            &&& s.once() ==> v.once()
            &&& forall|x: WindowId| #[trigger] v.contains(x) == s.contains(x)
        },
{
    lemma_column_index(s, id);
    if let Some(v) = s.move_column(id, dir, gap) {
        let i = s.column_index_of(id).unwrap();
        let j = s.side_of(i, dir).unwrap();
        let back = |k: int|
            if k == i {
                j
            } else if k == j {
                i
            } else {
                k
            };
        assert forall|k: int| 0 <= k < v.columns.len() implies (#[trigger] v.columns[k]).tiles
            == s.columns[back(k)].tiles && 0 <= back(k) < s.columns.len() by {}
        if s.columns_filled() {
            assert forall|c: int| 0 <= c < v.columns.len() implies (
            #[trigger] v.columns[c]).tiles.len() > 0 by {
                assert(s.columns[back(c)].tiles.len() > 0);
            }
        }
        if s.once() {
            assert forall|c: int| 0 <= c < v.columns.len() implies (
            #[trigger] v.columns[c]).tiles.no_duplicates() by {
                assert(s.columns[back(c)].tiles.no_duplicates());
            }
            assert forall|c: int, d: int, x: WindowId|
                0 <= c < v.columns.len() && 0 <= d < v.columns.len()
                    && #[trigger] v.columns[c].tiles.contains(x)
                    && #[trigger] v.columns[d].tiles.contains(x) implies c == d by {
                assert(s.columns[back(c)].tiles.contains(x) && s.columns[back(d)].tiles.contains(x));
            }
        }
        assert forall|x: WindowId| #[trigger] v.contains(x) == s.contains(x) by {
            if v.contains(x) {
                let k = choose|k: int|
                    0 <= k < v.columns.len() && (#[trigger] v.columns[k]).tiles.contains(x);
                assert(s.columns[back(k)].tiles.contains(x));
            }
            if s.contains(x) {
                let k = choose|k: int|
                    0 <= k < s.columns.len() && (#[trigger] s.columns[k]).tiles.contains(x);
                assert(v.columns[back(k)].tiles.contains(x));
            }
        }
    }
}

/// Expelling a tile loses no window and gives it a column of its own.
pub proof fn law_expel_keeps(s: StripView, id: WindowId, gap: int)
    requires
        s.once(),
    ensures
        s.expel(id, gap) matches Some(v) ==> {
            &&& v.columns.len() == s.columns.len() + 1
            &&& s.columns_filled() ==> v.columns_filled()
            &&& v.once()
            &&& forall|x: WindowId| #[trigger] v.contains(x) == s.contains(x)
        },
{
    lemma_column_index(s, id);
    if let Some(v) = s.expel(id, gap) {
        let i = s.column_index_of(id).unwrap();
        let tiles = s.columns[i].tiles;
        tiles.index_of_first_ensures(id);
        let p = tiles.index_of_first(id).unwrap();
        let rest = tiles.remove(p);
        assert(tiles.no_duplicates());
        lemma_remove_contains(tiles, p);
        let from = |k: int|
            if k <= i {
                k
            } else {
                k - 1
            };
        assert forall|k: int| 0 <= k < v.columns.len() implies (#[trigger] v.columns[k]).tiles
            == if k == i {
            rest
        } else if k == i + 1 {
            seq![id]
        } else {
            s.columns[from(k)].tiles
        } by {}
        assert(v.columns[i + 1].tiles[0] == id);
        if s.columns_filled() {
            assert forall|c: int| 0 <= c < v.columns.len() implies (
            #[trigger] v.columns[c]).tiles.len() > 0 by {
                assert(s.columns[from(c)].tiles.len() > 0);
            }
        }
        assert forall|c: int| 0 <= c < v.columns.len() implies (
        #[trigger] v.columns[c]).tiles.no_duplicates() by {
            assert(s.columns[from(c)].tiles.no_duplicates());
        }
        assert forall|c: int, d: int, x: WindowId|
            0 <= c < v.columns.len() && 0 <= d < v.columns.len()
                && #[trigger] v.columns[c].tiles.contains(x)
                && #[trigger] v.columns[d].tiles.contains(x) implies c == d by {
            assert(s.columns[from(c)].tiles.contains(x)) by {
                if c == i {
                    assert(rest.contains(x));
                }
            }
            assert(s.columns[from(d)].tiles.contains(x)) by {
                if d == i {
                    assert(rest.contains(x));
                }
            }
            assert(from(c) == from(d));
            if c != d {
                assert(rest.contains(x));
                assert(seq![id].contains(x));
                assert(x == id);
            }
        }
        assert forall|x: WindowId| #[trigger] v.contains(x) == s.contains(x) by {
            if v.contains(x) {
                let k = choose|k: int|
                    0 <= k < v.columns.len() && (#[trigger] v.columns[k]).tiles.contains(x);
                if k == i {
                    assert(rest.contains(x));
                }
                assert(s.columns[from(k)].tiles.contains(x));
            }
            if s.contains(x) {
                let k = choose|k: int|
                    0 <= k < s.columns.len() && (#[trigger] s.columns[k]).tiles.contains(x);
                if k == i {
                    if x == id {
                        assert(v.columns[i + 1].tiles.contains(x));
                    } else {
                        assert(rest.contains(x));
                        assert(v.columns[i].tiles.contains(x));
                    }
                } else if k < i {
                    assert(v.columns[k].tiles.contains(x));
                } else {
                    assert(v.columns[k + 1].tiles.contains(x));
                }
            }
        }
    }
}

/// Consuming a tile loses no window.
pub proof fn law_consume_keeps(s: StripView, id: WindowId, gap: int)
    requires
        s.sound(),
    ensures
        s.consume_right(id, gap) matches Some(v) ==> {
            &&& 0 < v.columns.len() <= s.columns.len()
            &&& v.sound()
            &&& forall|x: WindowId| #[trigger] v.contains(x) == s.contains(x)
        },
{
    lemma_column_index(s, id);
    if let Some(v) = s.consume_right(id, gap) {
        let i = s.column_index_of(id).unwrap();
        let tiles = s.columns[i + 1].tiles;
        assert(tiles.len() > 0);
        let take = s.taken_tile(i + 1);
        let taken = tiles[take];
        let rest = tiles.remove(take);
        let kept = rest.len() > 0;
        let grown = s.columns[i].tiles.push(taken);
        assert(tiles.no_duplicates() && s.columns[i].tiles.no_duplicates());
        lemma_remove_contains(tiles, take);
        assert(tiles.contains(taken));
        assert(!s.columns[i].tiles.contains(taken));
        assert forall|x: WindowId| #[trigger] grown.contains(x) <==> s.columns[i].tiles.contains(x)
            || x == taken by {
            lemma_push_contains(s.columns[i].tiles, taken, x);
        }
        let from = |k: int|
            if kept || k <= i {
                k
            } else {
                k + 1
            };
        assert forall|k: int| 0 <= k < v.columns.len() implies 0 <= from(k) < s.columns.len() && (
        #[trigger] v.columns[k]).tiles == if k == i {
            grown
        } else if kept && k == i + 1 {
            rest
        } else {
            s.columns[from(k)].tiles
        } by {}
        assert forall|c: int| 0 <= c < v.columns.len() implies (#[trigger] v.columns[c]).tiles.len()
            > 0 by {
            assert(s.columns[from(c)].tiles.len() > 0);
        }
        assert forall|c: int| 0 <= c < v.columns.len() implies (
        #[trigger] v.columns[c]).tiles.no_duplicates() by {
            assert(s.columns[from(c)].tiles.no_duplicates());
            if c == i {
                let g = grown;
                assert forall|a: int, b: int|
                    0 <= a < g.len() && 0 <= b < g.len() && a != b implies g[a] != g[b] by {
                    if a == g.len() - 1 {
                        assert(s.columns[i].tiles.contains(s.columns[i].tiles[b]));
                    } else if b == g.len() - 1 {
                        assert(s.columns[i].tiles.contains(s.columns[i].tiles[a]));
                    }
                }
            }
        }
        assert forall|c: int, d: int, x: WindowId|
            0 <= c < v.columns.len() && 0 <= d < v.columns.len()
                && #[trigger] v.columns[c].tiles.contains(x)
                && #[trigger] v.columns[d].tiles.contains(x) implies c == d by {
            let home = |k: int|
                if k == i && x == taken {
                    i + 1
                } else {
                    from(k)
                };
            assert(s.columns[home(c)].tiles.contains(x)) by {
                if c == i {
                    assert(grown.contains(x));
                } else if kept && c == i + 1 {
                    assert(rest.contains(x));
                }
            }
            assert(s.columns[home(d)].tiles.contains(x)) by {
                if d == i {
                    assert(grown.contains(x));
                } else if kept && d == i + 1 {
                    assert(rest.contains(x));
                }
            }
            assert(home(c) == home(d));
            if c == i && x == taken && d != i {
                assert(d == i + 1 && kept);
                assert(rest.contains(x));
            }
            if d == i && x == taken && c != i {
                assert(c == i + 1 && kept);
                assert(rest.contains(x));
            }
        }
        assert forall|x: WindowId| #[trigger] v.contains(x) == s.contains(x) by {
            if v.contains(x) {
                let k = choose|k: int|
                    0 <= k < v.columns.len() && (#[trigger] v.columns[k]).tiles.contains(x);
                if k == i {
                    assert(grown.contains(x));
                    assert(s.columns[if x == taken {
                        i + 1
                    } else {
                        i
                    }].tiles.contains(x));
                } else {
                    if kept && k == i + 1 {
                        assert(rest.contains(x));
                    }
                    assert(s.columns[from(k)].tiles.contains(x));
                }
            }
            if s.contains(x) {
                let k = choose|k: int|
                    0 <= k < s.columns.len() && (#[trigger] s.columns[k]).tiles.contains(x);
                if k == i || x == taken {
                    assert(grown.contains(x));
                    assert(v.columns[i].tiles.contains(x));
                } else if k == i + 1 {
                    assert(rest.contains(x));
                    assert(kept);
                    assert(v.columns[i + 1].tiles.contains(x));
                } else if kept || k < i {
                    assert(v.columns[k].tiles.contains(x));
                } else {
                    assert(v.columns[k - 1].tiles.contains(x));
                }
            }
        }
    }
}

// ---------------------------------------------------------------------------
// Round trips
// ---------------------------------------------------------------------------

/// How many of the first tiles are an id depends on these alone.
proof fn lemma_occurrences_front(a: Seq<WindowId>, b: Seq<WindowId>, id: WindowId, n: int)
    requires
        0 <= n <= a.len(),
        n <= b.len(),
        forall|k: int| 0 <= k < n ==> #[trigger] a[k] == b[k],
    ensures
        occurrences(a, id, n) == occurrences(b, id, n),
        0 <= occurrences(a, id, n) <= n,
    decreases n,
{
    if n > 0 {
        lemma_occurrences_front(a, b, id, n - 1);
    }
}

/// Past the last tile the number of an id no longer grows.
proof fn lemma_occurrences_end(tiles: Seq<WindowId>, id: WindowId, n: int)
    requires
        tiles.len() <= n,
    ensures
        occurrences(tiles, id, n) == occurrences(tiles, id, tiles.len() as int),
    decreases n,
{
    if n > tiles.len() {
        lemma_occurrences_end(tiles, id, n - 1);
    }
}

/// Where the other tiles stand once an id is left out.
proof fn lemma_without_index(tiles: Seq<WindowId>, id: WindowId, i: int)
    requires
        0 <= i <= tiles.len(),
    ensures
        without(tiles, id).len() == tiles.len() - occurrences(tiles, id, tiles.len() as int),
        0 <= occurrences(tiles, id, i) <= i,
        i < tiles.len() && tiles[i] != id ==> {
            &&& i - occurrences(tiles, id, i) < without(tiles, id).len()
            &&& without(tiles, id)[i - occurrences(tiles, id, i)] == tiles[i]
        },
    decreases tiles.len(),
{
    reveal(Seq::filter);
    lemma_occurrences_front(tiles, tiles, id, i);
    if tiles.len() > 0 {
        let front = tiles.drop_last();
        let n = tiles.len() - 1;
        lemma_occurrences_front(tiles, front, id, n);
        lemma_without_index(front, id, if i <= n {
            i
        } else {
            n
        });
        if i <= n {
            lemma_occurrences_front(tiles, front, id, i);
        }
        assert(without(tiles, id) == if tiles.last() != id {
            without(front, id).push(tiles.last())
        } else {
            without(front, id)
        });
    }
}

/// Taking a window out leaves every column with the tile focused last in it,
/// unless that is the window itself.
pub proof fn law_remove_keeps_active(s: StripView, id: WindowId, gap: int, k: int)
    requires
        0 <= k < s.columns.len(),
        s.columns[k].active() matches Some(f) && f != id,
    ensures
        ({
            let after = s.remove_window(id, gap);
            exists|j: int|
                0 <= j < after.columns.len() && #[trigger] after.columns[j].active()
                    == s.columns[k].active() && j <= k <= j + 1
        }),
{
    let after = s.remove_window(id, gap);
    lemma_column_index(s, id);
    if let Some(i) = s.column_index_of(id) {
        let col = s.columns[i];
        let rest = without(col.tiles, id);
        if k == i {
            let n = col.tiles.len() as int;
            let a = lesser(col.active_tile as int, n - 1);
            lemma_without_index(col.tiles, id, a);
            lemma_without_index(col.tiles, id, n);
            assert(rest.len() > 0);
            if col.active_tile >= n {
                lemma_occurrences_end(col.tiles, id, col.active_tile as int);
                assert(occurrences(col.tiles, id, n) == occurrences(col.tiles, id, n - 1));
            }
            assert(after.columns[i].active() == col.active());
        } else if rest.len() > 0 || k < i {
            assert(after.columns[k].active() == s.columns[k].active());
        } else {
            assert(after.columns[k - 1].active() == s.columns[k].active());
        }
    } else {
        assert(after.columns[k].active() == s.columns[k].active());
    }
}

/// Pushing a tile out leaves every column with the tile focused last in it,
/// unless that is the tile itself.
pub proof fn law_expel_keeps_active(s: StripView, id: WindowId, gap: int, k: int)
    requires
        0 <= k < s.columns.len(),
        s.columns[k].active() matches Some(f) && f != id,
    ensures
        s.expel(id, gap) matches Some(v) ==> exists|j: int|
            0 <= j < v.columns.len() && #[trigger] v.columns[j].active()
                == s.columns[k].active() && k <= j <= k + 1,
{
    lemma_column_index(s, id);
    if let Some(v) = s.expel(id, gap) {
        let i = s.column_index_of(id).unwrap();
        let col = s.columns[i];
        col.tiles.index_of_first_ensures(id);
        if k <= i {
            assert(v.columns[k].active() == s.columns[k].active());
        } else {
            assert(v.columns[k + 1].active() == s.columns[k].active());
        }
    }
}

/// Consuming a tile just expelled puts it at the bottom of its old column and
/// gives back everything else.
pub proof fn law_expel_then_consume(s: StripView, id: WindowId, mate: WindowId, gap: int)
    requires
        s.once(),
        is_packed(s.columns, gap),
        s.expel(id, gap) is Some,
        mate != id,
        s.columns[s.column_index_of(id).unwrap()].tiles.contains(mate),
    ensures
        ({
            let i = s.column_index_of(id).unwrap();
            let col = s.columns[i];
            let rest = without(col.tiles, id);
            let back = ColumnView {
                tiles: rest.push(id),
                active_tile: active_without(
                    col.active_tile,
                    col.tiles.index_of_first(id).unwrap(),
                    rest.len() as int,
                ),
                ..col
            };
            s.expel(id, gap).unwrap().consume_right(mate, gap) == Some(
                StripView { columns: s.columns.update(i, back), ..s },
            )
        }),
{
    lemma_column_index(s, id);
    let i = s.column_index_of(id).unwrap();
    let col = s.columns[i];
    col.tiles.index_of_first_ensures(id);
    let p = col.tiles.index_of_first(id).unwrap();
    let cut = col.tiles.remove(p);
    let rest = without(col.tiles, id);
    assert(col.tiles.no_duplicates());
    lemma_without_is_remove(col.tiles, id, p);
    let v = s.expel(id, gap).unwrap();
    lemma_remove_contains(col.tiles, p);
    assert(cut.contains(mate));
    assert(v.columns[i].tiles.contains(mate));
    assert forall|j: int| 0 <= j < i implies !(#[trigger] v.columns[j]).tiles.contains(mate) by {
        if s.columns[j].tiles.contains(mate) {
            assert(s.columns[i].tiles.contains(mate));
        }
    }
    assert(v.is_column_of(mate, i));
    lemma_column_index_is(v, mate, i);
    assert(v.columns[i + 1].tiles == seq![id]);
    let w = v.consume_right(mate, gap).unwrap();
    assert(v.columns[i + 1].tiles.remove(0).len() == 0);
    let back = ColumnView {
        tiles: rest.push(id),
        active_tile: active_without(col.active_tile, p, rest.len() as int),
        ..col
    };
    let goal = s.columns.update(i, back);
    let raw = v.columns.update(
        i,
        ColumnView { tiles: v.columns[i].tiles.push(id), ..v.columns[i] },
    ).remove(i + 1);
    assert(w.columns == packed(raw, gap));
    assert forall|k: int| 0 <= k < goal.len() implies #[trigger] w.columns[k] == goal[k] by {
        assert forall|j: int| 0 <= j < k implies (#[trigger] raw[j]).width == s.columns[j].width by {}
        lemma_packed_x_widths(raw, s.columns, gap, k);
        assert(s.columns[k].x == packed_x(s.columns, gap, k));
    }
    assert(w.columns =~= goal);
}

/// Where an id stands once, leaving it out is removing its position.
pub proof fn lemma_without_is_remove(tiles: Seq<WindowId>, id: WindowId, p: int)
    requires
        tiles.no_duplicates(),
        0 <= p < tiles.len(),
        tiles[p] == id,
    ensures
        without(tiles, id) == tiles.remove(p),
    decreases tiles.len(),
{
    reveal(Seq::filter);
    let front = tiles.drop_last();
    if p == tiles.len() - 1 {
        assert(!front.contains(id)) by {
            if front.contains(id) {
                let k = front.index_of(id);
                assert(tiles[k] == tiles[p]);
            }
        }
        lemma_without(front, id);
        assert(tiles.remove(p) =~= front);
    } else {
        assert(front[p] == id);
        assert(front.no_duplicates());
        lemma_without_is_remove(front, id, p);
        assert(tiles.last() != id) by {
            assert(tiles[tiles.len() - 1] != tiles[p]);
        }
        assert(tiles.remove(p) =~= front.remove(p).push(tiles.last()));
    }
}

/// Maximizing twice gives the strip back.
pub proof fn law_maximize_twice(s: StripView, id: WindowId, viewport_w: int, gap: int)
    requires
        is_packed(s.columns, gap),
        s.column_index_of(id) matches Some(i) && s.columns[i].saved_width is None,
    ensures
        ({
            let once = s.toggle_maximize(id, viewport_w, gap).unwrap();
            &&& s.toggle_maximize(id, viewport_w, gap) is Some
            &&& once.columns[s.column_index_of(id).unwrap()].width == viewport_w
            &&& once.toggle_maximize(id, viewport_w, gap) == Some(s)
        }),
{
    let i = s.column_index_of(id).unwrap();
    lemma_column_index(s, id);
    let wide = s.toggle_maximize(id, viewport_w, gap).unwrap();
    law_tiles_stay(s, id, viewport_w, gap, true);
    lemma_same_tiles(wide, s);
    assert(wide.column_index_of(id) == Some(i));
    let back = wide.toggle_maximize(id, viewport_w, gap).unwrap();
    let raw = wide.columns.update(
        i,
        ColumnView { width: s.columns[i].width, saved_width: None, ..wide.columns[i] },
    );
    assert(back.columns == packed(raw, gap));
    assert forall|k: int| 0 <= k < s.columns.len() implies #[trigger] back.columns[k]
        == s.columns[k] by {
        assert forall|j: int| 0 <= j < k implies (#[trigger] raw[j]).width == s.columns[j].width by {}
        lemma_packed_x_widths(raw, s.columns, gap, k);
        assert(s.columns[k].x == packed_x(s.columns, gap, k));
    }
    assert(back.columns =~= s.columns);
}

/// The other way.
pub open spec fn opposite(dir: FocusDir) -> FocusDir {
    match dir {
        FocusDir::Left => FocusDir::Right,
        FocusDir::Right => FocusDir::Left,
        FocusDir::Up => FocusDir::Down,
        FocusDir::Down => FocusDir::Up,
    }
}

/// Moving a column one way and back gives the strip back.
pub proof fn law_move_column_back(s: StripView, id: WindowId, dir: FocusDir, gap: int)
    requires
        s.once(),
        is_packed(s.columns, gap),
        s.move_column(id, dir, gap) is Some,
    ensures
        s.move_column(id, dir, gap).unwrap().move_column(id, opposite(dir), gap) == Some(s),
{
    lemma_column_index(s, id);
    let i = s.column_index_of(id).unwrap();
    let n = s.side_of(i, dir).unwrap();
    let v = s.move_column(id, dir, gap).unwrap();
    assert(v.columns[n].tiles == s.columns[i].tiles);
    assert forall|j: int| 0 <= j < n implies !(#[trigger] v.columns[j]).tiles.contains(id) by {
        let j0 = if j == i {
            n
        } else {
            j
        };
        assert(v.columns[j].tiles == s.columns[j0].tiles);
        if s.columns[j0].tiles.contains(id) {
            assert(s.columns[i].tiles.contains(id));
        }
    }
    assert(v.is_column_of(id, n));
    lemma_column_index_is(v, id, n);
    let w = v.move_column(id, opposite(dir), gap).unwrap();
    let raw = v.columns.update(n, v.columns[i]).update(i, v.columns[n]);
    assert(w.columns == packed(raw, gap));
    assert forall|k: int| 0 <= k < s.columns.len() implies #[trigger] w.columns[k]
        == s.columns[k] by {
        assert forall|j: int| 0 <= j < k implies (#[trigger] raw[j]).width == s.columns[j].width by {}
        lemma_packed_x_widths(raw, s.columns, gap, k);
        assert(s.columns[k].x == packed_x(s.columns, gap, k));
    }
    assert(w.columns =~= s.columns);
}

// ---------------------------------------------------------------------------
// Viewport
// ---------------------------------------------------------------------------

/// With the viewport at `offset` the whole of column `c` shows.
pub open spec fn shows(s: StripView, c: int, offset: int, viewport_w: int) -> bool {
    &&& offset <= s.columns[c].x
    &&& s.columns[c].right() <= offset + viewport_w
}

/// Following a column shows all of it where it fits the viewport, its left edge
/// where it does not; moves the viewport no further than needed; and does
/// nothing when done again or when the column shows already.
pub proof fn law_ensure_visible(s: StripView, id: WindowId, viewport_w: int)
    requires
        s.column_index_of(id) is Some,
    ensures
        ({
            let c = s.column_index_of(id).unwrap();
            let after = s.ensure_visible(id, viewport_w);
            &&& after.columns == s.columns
            &&& s.columns[c].width <= viewport_w ==> shows(s, c, after.offset_x, viewport_w)
            &&& s.columns[c].width > viewport_w ==> after.offset_x == s.columns[c].x
            &&& forall|o: int| #[trigger]
                shows(s, c, o, viewport_w) ==> magnitude(after.offset_x - s.offset_x) <= magnitude(
                    o - s.offset_x,
                )
            &&& shows(s, c, s.offset_x, viewport_w) ==> after == s
            &&& after.ensure_visible(id, viewport_w) == after
        }),
{
    let after = s.ensure_visible(id, viewport_w);
    lemma_same_tiles(after, s);
    assert(after.column_index_of(id) == s.column_index_of(id));
}

/// Clamping puts the viewport on the content, and leaves one that is there.
pub proof fn law_clamp_offset(s: StripView, viewport_w: int)
    ensures
        ({
            let after = s.clamp_offset(viewport_w);
            &&& 0 <= after.offset_x <= s.max_offset(viewport_w)
            &&& after.columns == s.columns
            &&& 0 <= s.offset_x <= s.max_offset(viewport_w) ==> after == s
            &&& after.clamp_offset(viewport_w) == after
            &&& s.content_width() <= viewport_w ==> after.offset_x == 0
        }),
{
}

/// Scrolling stays on the content, goes the asked way, and stops at the ends.
pub proof fn law_scroll(s: StripView, forward: bool, viewport_w: int)
    requires
        0 <= s.offset_x <= s.max_offset(viewport_w),
    ensures
        ({
            let after = s.scroll_columnwise(forward, viewport_w);
            &&& after.columns == s.columns
            &&& 0 <= after.offset_x <= s.max_offset(viewport_w)
            &&& if forward {
                after.offset_x >= s.offset_x
            } else {
                after.offset_x <= s.offset_x
            }
            &&& forward && s.offset_x == s.max_offset(viewport_w) ==> after == s
            &&& !forward && s.offset_x == 0 ==> after == s
        }),
{
}

/// From a preset width the cycle goes to the next preset, from the last one to
/// the first, and resizes no other column.
pub proof fn law_cycle_walks_presets(
    s: StripView,
    id: WindowId,
    viewport_w: int,
    gap: int,
    n: int,
)
    requires
        s.column_index_of(id) is Some,
        0 <= n < 3,
        preset(viewport_w, 0) < preset(viewport_w, 1) < preset(viewport_w, 2),
        s.columns[s.column_index_of(id).unwrap()].width == preset(viewport_w, n),
    ensures
        ({
            let c = s.column_index_of(id).unwrap();
            let v = s.cycle_width(id, viewport_w, gap).unwrap();
            &&& s.cycle_width(id, viewport_w, gap) is Some
            &&& v.columns[c].width == preset(viewport_w, (n + 1) % 3)
            &&& v.columns[c].saved_width is None
            &&& forall|k: int|
                0 <= k < s.columns.len() && k != c ==> (#[trigger] v.columns[k]).width
                    == s.columns[k].width
        }),
{
    lemma_column_index(s, id);
}

// ---------------------------------------------------------------------------
// Focus
// ---------------------------------------------------------------------------

/// A sideways move onto a column lands on the tile focused there last.
pub proof fn law_lateral_move_lands(s: StripView, from: WindowId, to: WindowId)
    requires
        s.once(),
        s.column_index_of(from) is Some,
        s.column_index_of(to) is Some,
    ensures
        ({
            let i = s.column_index_of(from).unwrap();
            let j = s.column_index_of(to).unwrap();
            let after = s.set_active(to);
            &&& j == i + 1 ==> after.neighbor(from, FocusDir::Right) == Some(to)
            &&& j == i - 1 ==> after.neighbor(from, FocusDir::Left) == Some(to)
        }),
{
    lemma_column_index(s, from);
    lemma_column_index(s, to);
    let j = s.column_index_of(to).unwrap();
    let after = s.set_active(to);
    law_tiles_stay(s, to, 0, 0, true);
    lemma_same_tiles(after, s);
    assert(after.column_index_of(from) == s.column_index_of(from));
    s.columns[j].tiles.index_of_first_ensures(to);
}

/// Sideways the focus stops at the ends, within a column at the top and bottom.
pub proof fn law_neighbor_stops(s: StripView, from: WindowId)
    requires
        s.sound(),
        s.column_index_of(from) is Some,
    ensures
        ({
            let i = s.column_index_of(from).unwrap();
            let tiles = s.columns[i].tiles;
            let t = tiles.index_of_first(from).unwrap();
            &&& s.neighbor(from, FocusDir::Left) is None <==> i == 0
            &&& s.neighbor(from, FocusDir::Right) is None <==> i == s.columns.len() - 1
            &&& s.neighbor(from, FocusDir::Up) is None <==> t == 0
            &&& s.neighbor(from, FocusDir::Down) is None <==> t == tiles.len() - 1
            &&& s.neighbor(from, FocusDir::Down) matches Some(d) ==> s.neighbor(d, FocusDir::Up)
                == Some(from)
            &&& forall|dir: FocusDir| #[trigger]
                s.neighbor(from, dir) matches Some(n) ==> s.contains(n)
        }),
{
    lemma_column_index(s, from);
    let i = s.column_index_of(from).unwrap();
    let tiles = s.columns[i].tiles;
    tiles.index_of_first_ensures(from);
    let t = tiles.index_of_first(from).unwrap();
    if i > 0 {
        assert(s.columns[i - 1].tiles.len() > 0);
    }
    if i + 1 < s.columns.len() {
        assert(s.columns[i + 1].tiles.len() > 0);
    }
    if let Some(d) = s.neighbor(from, FocusDir::Down) {
        assert(tiles[t + 1] == d);
        assert(tiles.contains(d));
        assert forall|j: int| 0 <= j < i implies !(#[trigger] s.columns[j]).tiles.contains(d) by {
            if s.columns[j].tiles.contains(d) {
                assert(s.columns[i].tiles.contains(d));
            }
        }
        assert(s.is_column_of(d, i));
        lemma_column_index_is(s, d, i);
        tiles.index_of_first_ensures(d);
        assert(tiles.no_duplicates());
        assert(tiles.index_of_first(d) == Some(t + 1));
    }
    assert forall|dir: FocusDir|
        (#[trigger] s.neighbor(from, dir) matches Some(n) ==> s.contains(n)) by {
        lemma_neighbor_contained(s, from, dir);
    }
}

/// A focus move lands on a window of the strip.
pub proof fn lemma_neighbor_contained(s: StripView, from: WindowId, dir: FocusDir)
    ensures
        s.neighbor(from, dir) matches Some(n) ==> s.contains(n),
{
    lemma_column_index(s, from);
    if let Some(n) = s.neighbor(from, dir) {
        let i = s.column_index_of(from).unwrap();
        let tiles = s.columns[i].tiles;
        tiles.index_of_first_ensures(from);
        let t = tiles.index_of_first(from).unwrap();
        match dir {
            FocusDir::Left => {
                lemma_active_contained(s, i - 1);
            },
            FocusDir::Right => {
                lemma_active_contained(s, i + 1);
            },
            FocusDir::Up => {
                assert(tiles[t - 1] == n);
                assert(s.columns[i].tiles.contains(n));
            },
            FocusDir::Down => {
                assert(tiles[t + 1] == n);
                assert(s.columns[i].tiles.contains(n));
            },
        }
    }
}

/// The active tile of a column is a window of the strip.
pub proof fn lemma_active_contained(s: StripView, c: int)
    requires
        0 <= c < s.columns.len(),
    ensures
        s.columns[c].active() matches Some(a) ==> s.contains(a),
        s.columns[c].tiles.len() > 0 ==> s.columns[c].active() is Some,
{
    let col = s.columns[c];
    if col.tiles.len() > 0 {
        let t = lesser(col.active_tile as int, col.tiles.len() - 1);
        assert(col.tiles.contains(col.tiles[t]));
        assert(s.columns[c].tiles.contains(col.tiles[t]));
    }
}

// ---------------------------------------------------------------------------
// Projection
// ---------------------------------------------------------------------------

/// How many tiles the first `c` columns hold.
pub open spec fn tiles_before(s: StripView, c: int) -> int
    decreases c,
{
    if c <= 0 {
        0
    } else {
        tiles_before(s, c - 1) + s.columns[c - 1].tiles.len()
    }
}

pub proof fn lemma_placed_upto(s: StripView, work: RectView, gap: int, upto: int, c: int, i: int)
    requires
        0 <= c < upto <= s.columns.len(),
        0 <= i < s.columns[c].tiles.len(),
    ensures
        s.placed_upto(work, gap, upto).len() == tiles_before(s, upto),
        0 <= tiles_before(s, c) + i < tiles_before(s, upto),
        s.placed_upto(work, gap, upto)[tiles_before(s, c) + i] == s.placed_tile(work, gap, c, i),
    decreases upto,
{
    lemma_placed_len(s, work, gap, upto - 1);
    if c < upto - 1 {
        lemma_placed_upto(s, work, gap, upto - 1, c, i);
    }
}

/// As many placements as tiles.
pub proof fn lemma_placed_len(s: StripView, work: RectView, gap: int, upto: int)
    ensures
        s.placed_upto(work, gap, upto).len() == tiles_before(s, upto),
    decreases upto,
{
    if upto > 0 {
        lemma_placed_len(s, work, gap, upto - 1);
    }
}

/// Every tile is placed exactly once, columns left to right and tiles top to
/// bottom, and its place has the column's width whether it shows or not.
pub proof fn law_project_places_each(s: StripView, work: RectView, gap: int, c: int, i: int)
    requires
        0 <= c < s.columns.len(),
        0 <= i < s.columns[c].tiles.len(),
    ensures
        ({
            let placed = s.project(work, gap);
            let (id, place) = placed[tiles_before(s, c) + i];
            &&& placed.len() == tiles_before(s, s.columns.len() as int)
            &&& 0 <= tiles_before(s, c) + i < placed.len()
            &&& id == s.columns[c].tiles[i]
            &&& match place {
                PlacementView::Visible(r) => s.column_visible(work, gap, c) && r.w
                    == s.columns[c].width,
                PlacementView::Offscreen(r) => !s.column_visible(work, gap, c) && r.w
                    == s.columns[c].width,
            }
        }),
{
    lemma_placed_upto(s, work, gap, s.columns.len() as int, c, i);
}

/// The tiles of a column start a gap below the top of the work area, follow
/// each other a gap apart, and end a gap above its bottom.
pub proof fn law_project_fills_height(s: StripView, work: RectView, gap: int, c: int, i: int)
    requires
        0 <= c < s.columns.len(),
        0 <= i < s.columns[c].tiles.len(),
    ensures
        ({
            let n = s.columns[c].tiles.len();
            let r = s.tile_rect(work, gap, c, i);
            &&& i == 0 ==> r.y == work.y + gap
            &&& i < n - 1 ==> s.tile_rect(work, gap, c, i + 1).y == r.y + r.h + gap
            &&& i < n - 1 ==> r.h == tile_height(work.h - 2 * gap, n as int, gap)
            &&& i == n - 1 ==> r.y + r.h == work.y + work.h - gap
        }),
{
    let n = s.columns[c].tiles.len() as int;
    let pitch = tile_height(work.h - 2 * gap, n, gap) + gap;
    assert((i + 1) * pitch == i * pitch + pitch) by (nonlinear_arith);
}

/// A column shows exactly where its rectangle on screen meets the work area
/// inside the gaps.
pub proof fn law_project_visible_on_screen(s: StripView, work: RectView, gap: int, c: int, i: int)
    requires
        0 <= c < s.columns.len(),
        0 <= i < s.columns[c].tiles.len(),
    ensures
        ({
            let r = s.tile_rect(work, gap, c, i);
            s.column_visible(work, gap, c) <==> r.x < work.x + work.w - gap && r.x + r.w > work.x
                + gap
        }),
{
}

/// A column shows after the viewport followed it.
pub proof fn law_followed_column_shows(s: StripView, id: WindowId, work: RectView, gap: int)
    requires
        s.column_index_of(id) matches Some(c) && 0 < s.columns[c].width,
        0 < work.w - 2 * gap,
    ensures
        s.ensure_visible(id, work.w - 2 * gap).column_visible(
            work,
            gap,
            s.column_index_of(id).unwrap(),
        ),
{
}

// ---------------------------------------------------------------------------
// Workspaces
// ---------------------------------------------------------------------------

/// Dropping the empty strips keeps the others as they are, in their order.
pub proof fn lemma_occupied(strips: Seq<StripView>)
    ensures
        ({
            let occ = occupied(strips);
            &&& occ.len() <= strips.len()
            &&& forall|k: int|
                0 <= k < occ.len() ==> (#[trigger] occ[k]).columns.len() > 0 && strips.contains(
                    occ[k],
                )
            &&& forall|id: WindowId| #[trigger]
                held(occ, id) == held(strips, id)
            &&& strips_apart(strips) ==> strips_apart(occ)
        }),
    decreases strips.len(),
{
    reveal(Seq::filter);
    let occ = occupied(strips);
    if strips.len() > 0 {
        let front = strips.drop_last();
        let last = strips.last();
        lemma_occupied(front);
        let head = occupied(front);
        let keeps = last.columns.len() > 0;
        assert(occ == if keeps {
            head.push(last)
        } else {
            head
        });
        assert(strips[strips.len() - 1] == last);
        assert forall|k: int| 0 <= k < occ.len() implies (#[trigger] occ[k]).columns.len() > 0
            && strips.contains(occ[k]) by {
            if k < head.len() {
                assert(occ[k] == head[k]);
                let j = front.index_of(head[k]);
                assert(strips[j] == head[k]);
            }
        }
        assert forall|id: WindowId| #[trigger] held(occ, id) == held(strips, id) by {
            assert(held(head, id) == held(front, id));
            if held(occ, id) {
                let k = choose|k: int| 0 <= k < occ.len() && (#[trigger] occ[k]).contains(id);
                if k < head.len() {
                    assert(head[k].contains(id));
                    let j = choose|j: int| 0 <= j < front.len() && (#[trigger] front[j]).contains(id);
                    assert(strips[j].contains(id));
                } else {
                    assert(strips[strips.len() - 1].contains(id));
                }
            }
            if held(strips, id) {
                let j = choose|j: int| 0 <= j < strips.len() && (#[trigger] strips[j]).contains(id);
                if j < front.len() {
                    assert(front[j].contains(id));
                    let k = choose|k: int| 0 <= k < head.len() && (#[trigger] head[k]).contains(id);
                    assert(occ[k].contains(id));
                } else {
                    assert(keeps);
                    assert(occ[head.len() as int].contains(id));
                }
            }
        }
        if strips_apart(strips) {
            assert forall|a: int, b: int, id: WindowId|
                0 <= a < front.len() && 0 <= b < front.len() && #[trigger] front[a].contains(id)
                    && #[trigger] front[b].contains(id) implies a == b by {
                assert(strips[a].contains(id) && strips[b].contains(id));
            }
            assert forall|a: int, b: int, id: WindowId|
                0 <= a < occ.len() && 0 <= b < occ.len() && #[trigger] occ[a].contains(id)
                    && #[trigger] occ[b].contains(id) implies a == b by {
                if a < head.len() && b < head.len() {
                    assert(head[a].contains(id) && head[b].contains(id));
                } else if a != b {
                    let low = if a < b {
                        a
                    } else {
                        b
                    };
                    assert(head[low].contains(id));
                    assert(held(head, id));
                    assert(held(front, id));
                    let j = choose|j: int| 0 <= j < front.len() && (#[trigger] front[j]).contains(id);
                    assert(strips[j].contains(id));
                    assert(strips[strips.len() - 1].contains(id));
                }
            }
        }
    }
}

/// Some strip of the list holds `id`.
pub open spec fn held(strips: Seq<StripView>, id: WindowId) -> bool {
    exists|k: int| 0 <= k < strips.len() && (#[trigger] strips[k]).contains(id)
}

/// No window stands on two strips of the list.
pub open spec fn strips_apart(strips: Seq<StripView>) -> bool {
    forall|a: int, b: int, id: WindowId|
        0 <= a < strips.len() && 0 <= b < strips.len() && #[trigger] strips[a].contains(id)
            && #[trigger] strips[b].contains(id) ==> a == b
}

/// A list in which no strip is empty is kept whole.
pub proof fn lemma_occupied_whole(strips: Seq<StripView>)
    requires
        forall|k: int| 0 <= k < strips.len() ==> (#[trigger] strips[k]).columns.len() > 0,
    ensures
        occupied(strips) == strips,
    decreases strips.len(),
{
    reveal(Seq::filter);
    if strips.len() > 0 {
        let front = strips.drop_last();
        assert forall|k: int| 0 <= k < front.len() implies (#[trigger] front[k]).columns.len()
            > 0 by {
            assert(strips[k].columns.len() > 0);
        }
        lemma_occupied_whole(front);
        assert(strips[strips.len() - 1].columns.len() > 0);
        assert(occupied(strips) =~= strips);
    } else {
        assert(occupied(strips) =~= strips);
    }
}

/// A kept strip is found where the kept ones before it end.
pub proof fn lemma_occupied_at(strips: Seq<StripView>, k: int)
    requires
        0 <= k < strips.len(),
    ensures
        occupied(strips.take(k)).len() <= occupied(strips).len(),
        strips[k].columns.len() > 0 ==> {
            &&& occupied(strips.take(k)).len() < occupied(strips).len()
            &&& occupied(strips)[occupied(strips.take(k)).len() as int] == strips[k]
        },
    decreases strips.len(),
{
    reveal(Seq::filter);
    let front = strips.drop_last();
    if k == strips.len() - 1 {
        assert(strips.take(k) =~= front);
    } else {
        lemma_occupied_at(front, k);
        assert(front.take(k) =~= strips.take(k));
    }
}

/// Normalizing leaves the strips with columns as they are, in their order, with
/// one empty strip behind them. That gives any stack its shape, once is enough,
/// and it keeps every window and the strip on show.
pub proof fn law_normalize(s: StackView)
    ensures
        ({
            let n = s.normalize();
            &&& n.strips == s.strips.filter(|t: StripView| t.columns.len() > 0).push(empty_strip())
            &&& 0 <= n.active < n.strips.len()
            &&& n.wf()
            &&& n.normalize() == n
            &&& forall|id: WindowId| #[trigger] n.contains(id) == s.contains(id)
            &&& s.strips_sound() ==> n.strips_sound()
            &&& s.apart() ==> n.apart()
            &&& 0 <= s.active < s.strips.len() && s.shown().columns.len() > 0 ==> n.shown()
                == s.shown()
        }),
{
    let n = s.normalize();
    let occ = occupied(s.strips);
    lemma_occupied(s.strips);
    if 0 <= s.active < s.strips.len() {
        lemma_occupied_at(s.strips, s.active);
    }
    assert forall|k: int| 0 <= k < n.strips.len() - 1 implies (
    #[trigger] n.strips[k]).columns.len() > 0 by {
        assert(n.strips[k] == occ[k]);
    }
    assert forall|id: WindowId| #[trigger] n.contains(id) == s.contains(id) by {
        assert(held(occ, id) == held(s.strips, id));
        if n.contains(id) {
            let k = choose|k: int| 0 <= k < n.strips.len() && (#[trigger] n.strips[k]).contains(id);
            assert(occ[k].contains(id));
        }
        if s.contains(id) {
            assert(held(s.strips, id));
            let k = choose|k: int| 0 <= k < occ.len() && (#[trigger] occ[k]).contains(id);
            assert(n.strips[k].contains(id));
        }
    }
    if s.strips_sound() {
        assert forall|k: int| 0 <= k < n.strips.len() implies (#[trigger] n.strips[k]).sound() by {
            if k < occ.len() {
                let j = s.strips.index_of(occ[k]);
                assert(s.strips[j].sound());
            }
        }
    }
    if s.apart() {
        assert(strips_apart(s.strips));
        assert forall|a: int, b: int, id: WindowId|
            0 <= a < n.strips.len() && 0 <= b < n.strips.len() && #[trigger] n.strips[a].contains(
                id,
            ) && #[trigger] n.strips[b].contains(id) implies a == b by {
            assert(occ[a].contains(id) && occ[b].contains(id));
        }
    }
    lemma_occupied_whole(occ);
    lemma_occupied_step_push(occ);
    assert(n.normalize().strips =~= n.strips);
    assert(n.strips.take(n.active) =~= occ.take(n.active));
    assert forall|k: int| 0 <= k < n.active implies (
    #[trigger] occ.take(n.active)[k]).columns.len() > 0 by {
        assert(occ[k].columns.len() > 0);
    }
    lemma_occupied_whole(occ.take(n.active));
}

proof fn lemma_occupied_step_push(strips: Seq<StripView>)
    ensures
        occupied(strips.push(empty_strip())) == occupied(strips),
{
    reveal(Seq::filter);
    assert(strips.push(empty_strip()).drop_last() =~= strips);
}

/// A stack in shape whose bottom strip is fresh stays as it is.
pub proof fn law_normalize_idle(s: StackView)
    requires
        s.wf(),
        s.strips.last() == empty_strip(),
    ensures
        s.normalize() == s,
{
    let front = s.strips.drop_last();
    assert forall|k: int| 0 <= k < front.len() implies (#[trigger] front[k]).columns.len() > 0 by {
        assert(s.strips[k].columns.len() > 0);
    }
    lemma_occupied_whole(front);
    assert(s.strips =~= front.push(empty_strip()));
    lemma_occupied_step_push(front);
    assert(s.strips.take(s.active) =~= front.take(s.active));
    assert forall|k: int| 0 <= k < s.active implies (
    #[trigger] front.take(s.active)[k]).columns.len() > 0 by {
        assert(front[k].columns.len() > 0);
    }
    lemma_occupied_whole(front.take(s.active));
    assert(s.normalize().strips =~= s.strips);
}

/// Switching stays among the workspaces and changes nothing else; one step down
/// and up again comes back.
pub proof fn law_switch(s: StackView, down: bool)
    requires
        s.wf(),
    ensures
        s.switch(down).wf(),
        s.switch(down).strips == s.strips,
        s.switch(down).active != s.active ==> s.switch(down).switch(!down) == s,
        s.active == s.strips.len() - 1 ==> s.switch(true) == s,
        s.active == 0 ==> s.switch(false) == s,
{
}

/// Replacing a strip by one with no window of another strip keeps the strips
/// apart.
pub proof fn lemma_update_apart(strips: Seq<StripView>, k: int, t: StripView)
    requires
        0 <= k < strips.len(),
        strips_apart(strips),
        forall|x: WindowId| #[trigger]
            t.contains(x) ==> strips[k].contains(x) || !held(strips, x),
    ensures
        strips_apart(strips.update(k, t)),
        forall|x: WindowId| #[trigger]
            held(strips.update(k, t), x) <==> t.contains(x) || (held(strips, x)
                && !strips[k].contains(x)),
{
    let next = strips.update(k, t);
    assert forall|a: int, b: int, id: WindowId|
        0 <= a < next.len() && 0 <= b < next.len() && #[trigger] next[a].contains(id)
            && #[trigger] next[b].contains(id) implies a == b by {
        if a != k {
            assert(strips[a].contains(id));
        }
        if b != k {
            assert(strips[b].contains(id));
        }
        if a == k && b != k {
            assert(t.contains(id));
            assert(held(strips, id));
        }
        if b == k && a != k {
            assert(t.contains(id));
            assert(held(strips, id));
        }
    }
    assert forall|x: WindowId| #[trigger] held(next, x) <==> t.contains(x) || (held(strips, x)
        && !strips[k].contains(x)) by {
        if held(next, x) {
            let j = choose|j: int| 0 <= j < next.len() && (#[trigger] next[j]).contains(x);
            if j != k {
                assert(strips[j].contains(x));
                if strips[k].contains(x) {
                    assert(j == k);
                }
            }
        }
        if t.contains(x) {
            assert(next[k].contains(x));
        }
        if held(strips, x) && !strips[k].contains(x) {
            let j = choose|j: int| 0 <= j < strips.len() && (#[trigger] strips[j]).contains(x);
            assert(next[j].contains(x));
        }
    }
}

/// A window moved to another workspace is on the one shown and nowhere else, no
/// other window is lost, and the stack keeps its shape.
pub proof fn law_move_window_keeps(
    s: StackView,
    id: WindowId,
    down: bool,
    width: int,
    viewport_w: int,
    gap: int,
)
    requires
        s.sound(),
    ensures
        s.move_window(id, down, width, viewport_w, gap) matches Some(v) ==> {
            &&& v.sound()
            &&& v.shown().contains(id)
            &&& v.shown().last_focused == Some(id)
            &&& forall|x: WindowId| #[trigger] v.contains(x) == s.contains(x)
        },
{
    lemma_strip_index(s, id);
    if s.move_target(id, down) is Some {
        let src = s.strip_index_of(id).unwrap();
        let dst = s.move_target(id, down).unwrap();
        let from = s.moved_from(id, viewport_w, gap);
        let into = s.moved_into(dst, id, width, gap);
        let cut = s.strips[src].remove_window(id, gap);
        law_remove_takes(s.strips[src], id, gap);
        law_tiles_stay(cut, id, viewport_w, gap, true);
        lemma_same_tiles(from, cut);
        assert(s.strips[src].sound() && s.strips[dst].sound());
        assert(cut.sound());
        assert(from.sound());
        let grown = s.strips[dst].insert_column_after(s.strips[dst].last_focused, id, width, gap);
        law_insert_adds(s.strips[dst], s.strips[dst].last_focused, id, width, gap);
        assert(!s.strips[dst].contains(id)) by {
            if s.strips[dst].contains(id) {
                assert(s.strips[src].contains(id));
            }
        }
        lemma_same_tiles(into, grown);
        assert(into.sound());
        let one = s.strips.update(src, from);
        assert forall|x: WindowId| #[trigger] from.contains(x) implies s.strips[src].contains(x)
            || !held(s.strips, x) by {
            assert(cut.contains(x) == from.contains(x));
        }
        assert(strips_apart(s.strips));
        lemma_update_apart(s.strips, src, from);
        assert(!held(one, id)) by {
            assert(s.strips[src].contains(id));
            assert(cut.contains(id) == from.contains(id));
        }
        assert(one[dst] == s.strips[dst]);
        let two = one.update(dst, into);
        assert forall|x: WindowId| #[trigger] into.contains(x) implies one[dst].contains(x)
            || !held(one, x) by {
            assert(grown.contains(x) == into.contains(x));
        }
        lemma_update_apart(one, dst, into);
        let mid = StackView { strips: two, active: dst };
        assert(mid.apart());
        assert forall|k: int| 0 <= k < mid.strips.len() implies (#[trigger] mid.strips[k]).sound() by {
            if k != src && k != dst {
                assert(s.strips[k].sound());
            }
        }
        law_normalize(mid);
        assert(mid.shown() == into);
        assert(into.contains(id)) by {
            assert(grown.contains(id));
            assert(grown.contains(id) == into.contains(id));
        }
        let v = mid.normalize();
        assert forall|x: WindowId| #[trigger] v.contains(x) == s.contains(x) by {
            assert(v.contains(x) == mid.contains(x));
            assert(mid.contains(x) == held(two, x));
            assert(s.contains(x) == held(s.strips, x));
            assert(held(two, x) <==> into.contains(x) || (held(one, x) && !one[dst].contains(x)));
            assert(held(one, x) <==> from.contains(x) || (held(s.strips, x)
                && !s.strips[src].contains(x)));
            assert(into.contains(x) == grown.contains(x));
            assert(grown.contains(x) <==> s.strips[dst].contains(x) || x == id);
            assert(from.contains(x) == cut.contains(x));
            assert(cut.contains(x) <==> s.strips[src].contains(x) && x != id);
            if s.strips[dst].contains(x) {
                assert(held(s.strips, x));
            }
            if s.strips[src].contains(x) {
                assert(held(s.strips, x));
            }
        }
    }
}

/// A window moved down from a workspace it shares and up again is back on that
/// workspace, which is shown again.
pub proof fn law_move_window_back(
    s: StackView,
    id: WindowId,
    width: int,
    viewport_w: int,
    gap: int,
)
    requires
        s.sound(),
        s.strip_index_of(id) matches Some(src) && s.strips[src].remove_window(id, gap).columns.len()
            > 0,
    ensures
        ({
            let src = s.strip_index_of(id).unwrap();
            let down = s.move_window(id, true, width, viewport_w, gap).unwrap();
            let up = down.move_window(id, false, width, viewport_w, gap).unwrap();
            &&& s.move_window(id, true, width, viewport_w, gap) is Some
            &&& down.move_window(id, false, width, viewport_w, gap) is Some
            &&& up.active == src
            &&& up.strips[src].contains(id)
            &&& forall|x: WindowId| #[trigger]
                up.strips[src].contains(x) == s.strips[src].contains(x)
        }),
{
    lemma_strip_index(s, id);
    let src = s.strip_index_of(id).unwrap();
    assert(s.strips[src].contains(id));
    assert(src + 1 < s.strips.len()) by {
        if src == s.strips.len() - 1 {
            assert(s.strips.last() == s.strips[src]);
            assert(s.strips[src].columns.len() == 0);
        }
    }
    let dst = src + 1;
    let from = s.moved_from(id, viewport_w, gap);
    let into = s.moved_into(dst, id, width, gap);
    let cut = s.strips[src].remove_window(id, gap);
    law_tiles_stay(cut, id, viewport_w, gap, true);
    lemma_same_tiles(from, cut);
    law_remove_takes(s.strips[src], id, gap);
    assert(s.strips[src].sound());
    let mid = StackView { strips: s.strips.update(src, from).update(dst, into), active: dst };
    let down = s.move_window(id, true, width, viewport_w, gap).unwrap();
    assert(down == mid.normalize());
    law_move_window_keeps(s, id, true, width, viewport_w, gap);
    // The strips before the target all hold columns, so none of them goes.
    assert forall|k: int| 0 <= k <= dst implies (#[trigger] mid.strips[k]).columns.len() > 0 by {
        if k < src {
            assert(s.strips[k].columns.len() > 0);
        }
    }
    lemma_occupied_prefix(mid.strips, src);
    lemma_occupied_prefix(mid.strips, dst);
    assert(down.active == dst);
    assert(down.strips[src] == from);
    assert(down.shown().contains(id));
    assert(!down.strips[src].contains(id));
    assert(down.is_strip_of(id, dst)) by {
        assert forall|j: int| 0 <= j < dst implies !(#[trigger] down.strips[j]).contains(id) by {
            if down.strips[j].contains(id) {
                assert(down.strips[dst].contains(id));
            }
        }
    }
    lemma_strip_index_is(down, id, dst);
    let up = down.move_window(id, false, width, viewport_w, gap).unwrap();
    let from2 = down.moved_from(id, viewport_w, gap);
    let into2 = down.moved_into(src, id, width, gap);
    let grown2 = down.strips[src].insert_column_after(down.strips[src].last_focused, id, width, gap);
    law_insert_adds(down.strips[src], down.strips[src].last_focused, id, width, gap);
    lemma_same_tiles(into2, grown2);
    let mid2 = StackView { strips: down.strips.update(dst, from2).update(src, into2), active: src };
    assert(up == mid2.normalize());
    assert forall|k: int| 0 <= k <= src implies (#[trigger] mid2.strips[k]).columns.len() > 0 by {
        if k < src {
            assert(down.strips[k].columns.len() > 0);
        }
    }
    lemma_occupied_prefix(mid2.strips, src);
    assert(up.strips[src] == into2);
    assert forall|x: WindowId| #[trigger] up.strips[src].contains(x) == s.strips[src].contains(x) by {
        assert(into2.contains(x) == grown2.contains(x));
        assert(grown2.contains(x) <==> down.strips[src].contains(x) || x == id);
        assert(from.contains(x) == cut.contains(x));
        assert(cut.contains(x) <==> s.strips[src].contains(x) && x != id);
    }
}

/// Strips up to `k` that all hold columns keep their places.
proof fn lemma_occupied_prefix(strips: Seq<StripView>, k: int)
    requires
        0 <= k < strips.len(),
        forall|j: int| 0 <= j <= k ==> (#[trigger] strips[j]).columns.len() > 0,
    ensures
        occupied(strips.take(k)).len() == k,
        k < occupied(strips).len(),
        occupied(strips)[k] == strips[k],
{
    assert forall|j: int| 0 <= j < k implies (#[trigger] strips.take(k)[j]).columns.len() > 0 by {
        assert(strips[j].columns.len() > 0);
    }
    lemma_occupied_whole(strips.take(k));
    lemma_occupied_at(strips, k);
}

} // verus!
