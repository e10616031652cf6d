//! Tests whether a step stays within pixel coordinates.

use vstd::prelude::*;

use crate::arith::{in_i32, trunc_div};
use crate::layout::{
    Column, Rect, Stack, Strip, WindowId, column_views, packed_x, packing_fits, preset, presets_fit,
    strip_views, tile_height, without,
};
use crate::restore::fits_i32;

verus! {

// ---------------------------------------------------------------------------
// Copies
// ---------------------------------------------------------------------------

/// A copy of a list of windows.
fn copy_tiles(tiles: &Vec<WindowId>) -> (r: Vec<WindowId>)
    ensures
        r@ == tiles@,
{
    let mut out: Vec<WindowId> = Vec::new();
    let mut i: usize = 0;
    while i < tiles.len()
        invariant
            i <= tiles.len(),
            out@ == tiles@.take(i as int),
        decreases tiles.len() - i,
    {
        out.push(tiles[i]);
        i += 1;
        assert(tiles@.take(i as int) =~= tiles@.take(i - 1).push(tiles@[i - 1]));
    }
    assert(tiles@.take(i as int) =~= tiles@);
    out
}

impl Strip {
    /// A copy of the strip, to try a step on.
    pub fn copied(&self) -> (r: Strip)
        ensures
            r@ == self@,
    {
        let mut columns: Vec<Column> = Vec::new();
        let mut i: usize = 0;
        while i < self.columns.len()
            invariant
                i <= self.columns.len(),
                columns.len() == i,
                forall|k: int| 0 <= k < i ==> #[trigger] columns@[k]@ == self.columns@[k]@,
            decreases self.columns.len() - i,
        {
            let c = &self.columns[i];
            columns.push(
                Column {
                    x: c.x,
                    width: c.width,
                    tiles: copy_tiles(&c.tiles),
                    active_tile: c.active_tile,
                    saved_width: c.saved_width,
                },
            );
            i += 1;
        }
        assert(column_views(columns@) =~= column_views(self.columns@));
        Strip { columns, offset_x: self.offset_x, last_focused: self.last_focused }
    }
}

impl Stack {
    /// A copy of the stack, to try a step on.
    pub fn copied(&self) -> (r: Stack)
        ensures
            r@ == self@,
    {
        let mut strips: Vec<Strip> = Vec::new();
        let mut i: usize = 0;
        while i < self.strips.len()
            invariant
                i <= self.strips.len(),
                strips.len() == i,
                forall|k: int| 0 <= k < i ==> #[trigger] strips@[k]@ == self.strips@[k]@,
            decreases self.strips.len() - i,
        {
            strips.push(self.strips[i].copied());
            i += 1;
        }
        assert(strip_views(strips@) =~= strip_views(self.strips@));
        Stack { strips, active: self.active }
    }
}

// ---------------------------------------------------------------------------
// Strips
// ---------------------------------------------------------------------------

/// The width can be measured against the presets.
fn can_measure(viewport_w: i32, width: i32) -> (r: bool)
    ensures
        r == presets_fit(viewport_w as int, width as int),
{
    let v: i64 = viewport_w as i64;
    let w: i64 = width as i64;
    let d0: i64 = v / 3 - w;
    let d1: i64 = v / 2 - w;
    let d2: i64 = v * 2 / 3 - w;
    proof {
        let vi = viewport_w as int;
        assert(d0 == preset(vi, 0) - width);
        assert(d1 == preset(vi, 1) - width);
        assert(d2 == preset(vi, 2) - width);
    }
    fits_i32(v * 2) && fits_i32(d0) && d0 > -0x8000_0000 && fits_i32(d1) && d1 > -0x8000_0000
        && fits_i32(d2) && d2 > -0x8000_0000
}

impl Strip {
    /// The columns can be put side by side.
    pub fn can_pack(&self, gap: i32) -> (r: bool)
        ensures
            r == packing_fits(self@.columns, gap as int),
    {
        let ghost cols = self@.columns;
        let mut x: i64 = 0;
        let mut i: usize = 0;
        while i < self.columns.len()
            invariant
                i <= self.columns.len(),
                cols == self@.columns,
                x == packed_x(cols, gap as int, i as int),
                in_i32(x as int),
                forall|k: int|
                    0 <= k < i ==> in_i32((#[trigger] cols[k]).width + gap) && in_i32(
                        packed_x(cols, gap as int, k + 1),
                    ),
            decreases self.columns.len() - i,
        {
            assert(cols[i as int] == self.columns@[i as int]@);
            let step: i64 = self.columns[i].width as i64 + gap as i64;
            x = x + step;
            assert(x == packed_x(cols, gap as int, i + 1));
            if !fits_i32(step) || !fits_i32(x) {
                return false;
            }
            i += 1;
        }
        true
    }

    /// The viewport can be moved back onto the content.
    pub fn can_clamp(&self, viewport_w: i32) -> (r: bool)
        ensures
            r == self@.clamp_fits(viewport_w as int),
    {
        let width: i64 = if self.columns.len() == 0 {
            0
        } else {
            let last: usize = self.columns.len() - 1;
            assert(self@.columns.last() == self.columns@[last as int]@);
            self.columns[last].x as i64 + self.columns[last].width as i64
        };
        fits_i32(width) && fits_i32(width - viewport_w as i64)
    }

    /// The viewport can follow the column of `id`.
    pub fn can_follow(&self, id: WindowId, viewport_w: i32) -> (r: bool)
        ensures
            r == self@.ensure_visible_fits(id, viewport_w as int),
    {
        match self.column_index_of(id) {
            None => true,
            Some(i) => {
                assert(self@.columns[i as int] == self.columns@[i as int]@);
                let x: i64 = self.columns[i].x as i64;
                let right: i64 = x + self.columns[i].width as i64;
                let edge: i64 = self.offset_x as i64 + viewport_w as i64;
                x < self.offset_x as i64 || (fits_i32(right) && fits_i32(edge) && (right <= edge
                    || fits_i32(right - viewport_w as i64)))
            },
        }
    }

    /// A column of this width can be inserted right of the anchor.
    pub fn can_insert(&self, anchor: Option<WindowId>, width: i32, gap: i32) -> (r: bool)
        ensures
            r == self@.insert_fits(anchor, width as int, gap as int),
    {
        let ghost s = self@;
        let n: usize = self.columns.len();
        let idx: usize = match anchor {
            Some(a) => match self.column_index_of(a) {
                Some(i) => i + 1,
                None => n,
            },
            None => n,
        };
        assert(idx == s.insert_index(anchor));
        if n == usize::MAX {
            return false;
        }
        if idx > 0 {
            assert(s.columns[idx - 1] == self.columns@[idx - 1]@);
            let right: i64 = self.columns[idx - 1].x as i64 + self.columns[idx - 1].width as i64;
            if !fits_i32(right) || !fits_i32(right + gap as i64) {
                return false;
            }
        }
        let by: i64 = width as i64 + gap as i64;
        if idx < n && !fits_i32(by) {
            return false;
        }
        let mut k: usize = idx;
        while k < n
            invariant
                idx <= k <= n,
                n == self.columns.len(),
                s == self@,
                idx == s.insert_index(anchor),
                by == width + gap,
                -0x1_0000_0000 <= by <= 0x1_0000_0000,
                forall|j: int|
                    idx <= j < k ==> in_i32((#[trigger] s.columns[j]).x + width + gap),
            decreases n - k,
        {
            assert(s.columns[k as int] == self.columns@[k as int]@);
            if !fits_i32(self.columns[k].x as i64 + by) {
                return false;
            }
            k += 1;
        }
        true
    }

    /// `id` can be taken out.
    pub fn can_remove(&self, id: WindowId, gap: i32) -> (r: bool)
        ensures
            r == self@.remove_fits(id, gap as int),
    {
        let ghost s = self@;
        let i: usize = match self.column_index_of(id) {
            Some(i) => i,
            None => {
                return true;
            },
        };
        let n: usize = self.columns.len();
        assert(s.columns[i as int] == self.columns@[i as int]@);
        let rest = crate::layout::tiles_without(&self.columns[i].tiles, id);
        if rest.len() > 0 || i + 1 >= n {
            return true;
        }
        let by: i64 = self.columns[i].width as i64 + gap as i64;
        if !fits_i32(by) {
            return false;
        }
        let mut k: usize = i + 1;
        while k < n
            invariant
                i < k <= n,
                n == self.columns.len(),
                s == self@,
                by == s.columns[i as int].width + gap,
                in_i32(by as int),
                forall|j: int| i < j < k ==> in_i32((#[trigger] s.columns[j]).x - by),
                s.column_index_of(id) == Some(i as int),
                without(s.columns[i as int].tiles, id).len() == 0,
            decreases n - k,
        {
            assert(s.columns[k as int] == self.columns@[k as int]@);
            if !fits_i32(self.columns[k].x as i64 - by) {
                return false;
            }
            k += 1;
        }
        true
    }

    /// The column of `id` can be measured against the presets.
    pub fn can_cycle(&self, id: WindowId, viewport_w: i32) -> (r: bool)
        ensures
            r == self@.cycle_fits(id, viewport_w as int),
    {
        match self.column_index_of(id) {
            None => true,
            Some(i) => {
                assert(self@.columns[i as int] == self.columns@[i as int]@);
                can_measure(viewport_w, self.columns[i].width)
            },
        }
    }

    /// The column right of that of `id` has a tile to take, and there is room
    /// for it.
    pub fn has_room_to_merge(&self, id: WindowId) -> (r: bool)
        ensures
            r == self@.can_merge(id),
    {
        match self.column_index_of(id) {
            None => true,
            Some(i) => if i + 1 < self.columns.len() {
                assert(self@.columns[i as int] == self.columns@[i as int]@);
                assert(self@.columns[i + 1] == self.columns@[i + 1]@);
                self.columns[i + 1].tiles.len() > 0 && self.columns[i].tiles.len() < usize::MAX
            } else {
                true
            },
        }
    }

    /// Column `c` can be placed on the work area.
    fn can_place(&self, work: Rect, gap: i32, c: usize) -> (r: bool)
        requires
            c < self.columns.len(),
            in_i32(2 * gap),
            in_i32(work.w - 2 * gap),
            in_i32(work.h - 2 * gap),
        ensures
            r == self@.placing_fits(work@, gap as int, c as int),
    {
        let col = &self.columns[c];
        assert(self@.columns[c as int] == col@);
        if col.tiles.len() == 0 || col.tiles.len() > 0x7FFF_FFFF {
            return false;
        }
        let n: i64 = col.tiles.len() as i64;
        let g: i64 = gap as i64;
        let inner_h: i64 = work.h as i64 - 2 * g;
        let off: i64 = col.x as i64 - self.offset_x as i64;
        let left: i64 = work.x as i64 + g;
        let top: i64 = work.y as i64 + g;
        if !fits_i32(self.offset_x as i64 + (work.w as i64 - 2 * g)) || !fits_i32(
            col.x as i64 + col.width as i64,
        ) || !fits_i32(left) || !fits_i32(off) || !fits_i32(left + off) || !fits_i32(top) {
            return false;
        }
        proof {
            lemma_product_bound(n - 1, g as int);
        }
        let gaps: i64 = (n - 1) * g;
        if !fits_i32(gaps) || !fits_i32(inner_h - gaps) {
            return false;
        }
        let tile_h: i64 = (inner_h - gaps) / n;
        proof {
            assert(tile_h == tile_height(inner_h as int, n as int, g as int));
            lemma_quotient_bound(inner_h - gaps, n as int);
        }
        let pitch: i64 = tile_h + g;
        if !fits_i32(pitch) {
            return false;
        }
        proof {
            lemma_product_bound(n - 1, pitch as int);
        }
        let span: i64 = (n - 1) * pitch;
        fits_i32(span) && fits_i32(inner_h - span) && fits_i32(top + span)
    }

    /// The strip can be projected onto the work area.
    pub fn can_project(&self, work: Rect, gap: i32) -> (r: bool)
        ensures
            r == self@.project_fits(work@, gap as int),
    {
        let g: i64 = gap as i64;
        if !fits_i32(2 * g) || !fits_i32(work.w as i64 - 2 * g) || !fits_i32(
            work.h as i64 - 2 * g,
        ) {
            return false;
        }
        let mut c: usize = 0;
        while c < self.columns.len()
            invariant
                c <= self.columns.len(),
                in_i32(2 * gap),
                in_i32(work.w - 2 * gap),
                in_i32(work.h - 2 * gap),
                forall|k: int|
                    0 <= k < c ==> #[trigger] self@.placing_fits(work@, gap as int, k),
            decreases self.columns.len() - c,
        {
            if !self.can_place(work, gap, c) {
                assert(!self@.placing_fits(work@, gap as int, c as int));
                return false;
            }
            c += 1;
        }
        true
    }
}

impl Stack {
    /// `id` can move to the workspace below or above.
    pub fn can_move(&self, id: WindowId, down: bool, width: i32, viewport_w: i32, gap: i32) -> (r:
        bool)
        ensures
            r == self@.move_fits(id, down, width as int, viewport_w as int, gap as int),
    {
        let src: usize = match self.strip_index_of(id) {
            Some(i) => i,
            None => {
                return true;
            },
        };
        let dst: usize = if down {
            src + 1
        } else if src > 0 {
            src - 1
        } else {
            return true;
        };
        if dst >= self.strips.len() {
            return true;
        }
        proof {
            assert(self@.strips[src as int] == self.strips@[src as int]@);
            assert(self@.strips[dst as int] == self.strips@[dst as int]@);
        }
        if !self.strips[src].can_remove(id, gap) {
            return false;
        }
        let mut cut = self.strips[src].copied();
        let _ = cut.remove_window(id, gap);
        cut.can_clamp(viewport_w) && self.strips[dst].can_insert(
            self.strips[dst].last_focused,
            width,
            gap,
        )
    }
}

proof fn lemma_product_bound(a: int, b: int)
    requires
        0 <= a <= 0x7FFF_FFFF,
        in_i32(b),
    ensures
        -0x4000_0000_0000_0000 <= a * b <= 0x4000_0000_0000_0000,
{
    assert(-0x4000_0000_0000_0000 <= a * b <= 0x4000_0000_0000_0000) by (nonlinear_arith)
        requires
            0 <= a <= 0x7FFF_FFFF,
            -0x8000_0000 <= b <= 0x7FFF_FFFF,
    ;
}

proof fn lemma_quotient_bound(a: int, n: int)
    requires
        in_i32(a),
        0 < n,
    ensures
        in_i32(trunc_div(a, n)),
{
    if a >= 0 {
        assert(0 <= a / n <= a) by (nonlinear_arith)
            requires
                0 <= a,
                0 < n,
        ;
    } else {
        assert(0 <= (-a) / n <= -a) by (nonlinear_arith)
            requires
                a < 0,
                0 < n,
        ;
    }
}

} // verus!
