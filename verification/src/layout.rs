//! Strip and column layout.
//!
//! A [`Strip`] is an endless horizontal band of [`Column`]s seen through a
//! viewport; a [`Stack`] is the vertical list of strips (workspaces) of one
//! monitor. Windows are known only by their [`WindowId`]; coordinates are
//! physical pixels. Inserting or removing a window never changes the width of
//! the columns that stay.

use vstd::prelude::*;

use crate::arith::{clamp_i32, clamped, greater, in_i32, lesser, magnitude, max_i32, min_i32, trunc_div};

verus! {

/// Opaque handle of a real window.
#[derive(Debug, Clone, Copy, PartialEq, Eq, Hash, Structural)]
pub struct WindowId(pub u64);

/// A rectangle by its top left corner and its size.
#[derive(Debug, Clone, Copy, Default, PartialEq, Eq, Structural)]
pub struct Rect {
    pub x: i32,
    pub y: i32,
    pub w: i32,
    pub h: i32,
}

/// A vertical section of a strip. `x` is the strip coordinate of its left edge.
#[derive(Debug, Clone)]
pub struct Column {
    pub x: i32,
    pub width: i32,
    pub tiles: Vec<WindowId>,
    /// The tile that was focused last: where a sideways move lands.
    pub active_tile: usize,
    /// The width to go back to while the column is maximized.
    pub saved_width: Option<i32>,
}

/// Direction of a focus move.
#[derive(Debug, Clone, Copy, PartialEq, Eq, Structural)]
pub enum FocusDir {
    Left,
    Right,
    Up,
    Down,
}

/// The endless strip of one workspace and the viewport on it.
#[derive(Debug, Clone)]
pub struct Strip {
    pub columns: Vec<Column>,
    /// Strip coordinate shown at the left edge of the viewport.
    pub offset_x: i32,
    /// The tile that was focused last on this workspace.
    pub last_focused: Option<WindowId>,
}

/// The workspaces of one monitor, top to bottom.
#[derive(Debug, Clone)]
pub struct Stack {
    pub strips: Vec<Strip>,
    pub active: usize,
}

/// Where a tile lands on screen. A tile outside the viewport keeps its
/// projected rectangle, so parking it never resizes the window.
#[derive(Debug, Clone, Copy, PartialEq, Eq, Structural)]
pub enum Placement {
    Visible(Rect),
    Offscreen(Rect),
}

// ---------------------------------------------------------------------------
// Model
// ---------------------------------------------------------------------------

/// A column as mathematical values.
#[verifier::ext_equal]
pub struct ColumnView {
    pub x: int,
    pub width: int,
    pub tiles: Seq<WindowId>,
    pub active_tile: nat,
    pub saved_width: Option<int>,
}

/// A strip as mathematical values.
#[verifier::ext_equal]
pub struct StripView {
    pub columns: Seq<ColumnView>,
    pub offset_x: int,
    pub last_focused: Option<WindowId>,
}

/// A stack as mathematical values.
#[verifier::ext_equal]
pub struct StackView {
    pub strips: Seq<StripView>,
    pub active: int,
}

/// An optional coordinate as an optional integer.
pub open spec fn opt_int(o: Option<i32>) -> Option<int> {
    match o {
        Some(v) => Some(v as int),
        None => None,
    }
}

impl View for Column {
    type V = ColumnView;

    open spec fn view(&self) -> ColumnView {
        ColumnView {
            x: self.x as int,
            width: self.width as int,
            tiles: self.tiles@,
            active_tile: self.active_tile as nat,
            saved_width: opt_int(self.saved_width),
        }
    }
}

/// The models of a sequence of columns.
pub open spec fn column_views(cols: Seq<Column>) -> Seq<ColumnView> {
    cols.map_values(|c: Column| c@)
}

impl View for Strip {
    type V = StripView;

    open spec fn view(&self) -> StripView {
        StripView {
            columns: column_views(self.columns@),
            offset_x: self.offset_x as int,
            last_focused: self.last_focused,
        }
    }
}

/// The models of a sequence of strips.
pub open spec fn strip_views(strips: Seq<Strip>) -> Seq<StripView> {
    strips.map_values(|s: Strip| s@)
}

impl View for Stack {
    type V = StackView;

    open spec fn view(&self) -> StackView {
        StackView { strips: strip_views(self.strips@), active: self.active as int }
    }
}

impl ColumnView {
    /// The tile a sideways focus move lands on: the remembered one, clamped to
    /// the tiles there are.
    pub open spec fn active(self) -> Option<WindowId> {
        if self.tiles.len() == 0 {
            None
        } else {
            Some(self.tiles[lesser(self.active_tile as int, self.tiles.len() - 1)])
        }
    }

    /// The strip coordinate just past the column.
    pub open spec fn right(self) -> int {
        self.x + self.width
    }
}

/// A column of one tile.
pub open spec fn single_column(x: int, width: int, id: WindowId) -> ColumnView {
    ColumnView { x, width, tiles: seq![id], active_tile: 0, saved_width: None }
}

/// The tiles other than `id`, in their order.
pub open spec fn without(tiles: Seq<WindowId>, id: WindowId) -> Seq<WindowId> {
    tiles.filter(|t: WindowId| t != id)
}

/// How many of the first `n` tiles are `id`.
pub open spec fn occurrences(tiles: Seq<WindowId>, id: WindowId, n: int) -> int
    decreases n,
{
    if n <= 0 {
        0
    } else {
        occurrences(tiles, id, n - 1) + if n <= tiles.len() && tiles[n - 1] == id {
            1int
        } else {
            0
        }
    }
}

/// The index of the tile focused last, the tile at `pos` being taken out and
/// `rest` tiles left.
pub open spec fn active_without(active: nat, pos: int, rest: int) -> nat {
    lesser(
        if pos < active {
            active - 1
        } else {
            active as int
        },
        rest - 1,
    ) as nat
}

/// The column moved by `by` along the strip.
pub open spec fn shifted(c: ColumnView, by: int) -> ColumnView {
    ColumnView { x: c.x + by, ..c }
}

/// Where column `k` starts when the columns stand side by side from 0 on,
/// `gap` apart.
pub open spec fn packed_x(cols: Seq<ColumnView>, gap: int, k: int) -> int
    decreases k,
{
    if k <= 0 {
        0
    } else {
        packed_x(cols, gap, k - 1) + cols[k - 1].width + gap
    }
}

/// The columns with every `x` assigned anew from 0 on.
pub open spec fn packed(cols: Seq<ColumnView>, gap: int) -> Seq<ColumnView> {
    Seq::new(cols.len(), |k: int| ColumnView { x: packed_x(cols, gap, k), ..cols[k] })
}

/// Every column stands where [`packed`] would put it.
pub open spec fn is_packed(cols: Seq<ColumnView>, gap: int) -> bool {
    forall|k: int| 0 <= k < cols.len() ==> (#[trigger] cols[k]).x == packed_x(cols, gap, k)
}

/// Assigning every `x` anew stays within coordinates.
pub open spec fn packing_fits(cols: Seq<ColumnView>, gap: int) -> bool {
    forall|k: int|
        0 <= k < cols.len() ==> in_i32((#[trigger] cols[k]).width + gap) && in_i32(
            packed_x(cols, gap, k + 1),
        )
}


impl StripView {
    /// `i` is the first column that holds `id`.
    pub open spec fn is_column_of(self, id: WindowId, i: int) -> bool {
        &&& 0 <= i < self.columns.len()
        &&& self.columns[i].tiles.contains(id)
        &&& forall|j: int| 0 <= j < i ==> !(#[trigger] self.columns[j]).tiles.contains(id)
    }

    /// Some column holds `id`.
    pub open spec fn contains(self, id: WindowId) -> bool {
        exists|i: int|
            0 <= i < self.columns.len() && (#[trigger] self.columns[i]).tiles.contains(id)
    }

    /// The first column that holds `id`.
    pub open spec fn column_index_of(self, id: WindowId) -> Option<int> {
        if self.contains(id) {
            Some(choose|i: int| self.is_column_of(id, i))
        } else {
            None
        }
    }

    /// Where a new column goes: right of the anchor's column, else at the end.
    pub open spec fn insert_index(self, anchor: Option<WindowId>) -> int {
        match anchor {
            Some(a) => match self.column_index_of(a) {
                Some(i) => i + 1,
                None => self.columns.len() as int,
            },
            None => self.columns.len() as int,
        }
    }

    /// The `x` of a column inserted at `idx`.
    pub open spec fn insert_x(self, idx: int, gap: int) -> int {
        if idx == 0 {
            0
        } else {
            self.columns[idx - 1].right() + gap
        }
    }

    /// A new column for `id` right of the anchor; the columns behind it move
    /// right by its width and the gap, and no column changes its width.
    pub open spec fn insert_column_after(
        self,
        anchor: Option<WindowId>,
        id: WindowId,
        width: int,
        gap: int,
    ) -> StripView {
        let idx = self.insert_index(anchor);
        StripView {
            columns: Seq::new(
                self.columns.len() + 1,
                |k: int|
                    if k < idx {
                        self.columns[k]
                    } else if k == idx {
                        single_column(self.insert_x(idx, gap), width, id)
                    } else {
                        shifted(self.columns[k - 1], width + gap)
                    },
            ),
            ..self
        }
    }

    /// The insertion stays within coordinates.
    pub open spec fn insert_fits(self, anchor: Option<WindowId>, width: int, gap: int) -> bool {
        let idx = self.insert_index(anchor);
        &&& self.columns.len() < usize::MAX
        &&& idx > 0 ==> in_i32(self.columns[idx - 1].right()) && in_i32(self.insert_x(idx, gap))
        &&& idx < self.columns.len() ==> in_i32(width + gap)
        &&& forall|k: int|
            idx <= k < self.columns.len() ==> in_i32((#[trigger] self.columns[k]).x + width + gap)
    }

    /// Every `x` assigned anew from 0 on.
    pub open spec fn relayout(self, gap: int) -> StripView {
        StripView { columns: packed(self.columns, gap), ..self }
    }

    /// The column next to column `i`, sideways only.
    pub open spec fn side_of(self, i: int, dir: FocusDir) -> Option<int> {
        match dir {
            FocusDir::Left => if i > 0 {
                Some(i - 1)
            } else {
                None
            },
            FocusDir::Right => if i + 1 < self.columns.len() {
                Some(i + 1)
            } else {
                None
            },
            _ => None,
        }
    }

    /// The strip with other columns, side by side from 0 on.
    pub open spec fn repacked(self, cols: Option<Seq<ColumnView>>, gap: int) -> Option<StripView> {
        match cols {
            Some(c) => Some(StripView { columns: packed(c, gap), ..self }),
            None => None,
        }
    }

    /// The columns with that of `id` and its neighbour in each other's place;
    /// nothing where there is none.
    pub open spec fn swapped(self, id: WindowId, dir: FocusDir) -> Option<Seq<ColumnView>> {
        match self.column_index_of(id) {
            None => None,
            Some(i) => match self.side_of(i, dir) {
                None => None,
                Some(j) => Some(
                    self.columns.update(i, self.columns[j]).update(j, self.columns[i]),
                ),
            },
        }
    }

    /// The column of `id` trades places with its neighbour; nothing where
    /// there is none.
    pub open spec fn move_column(self, id: WindowId, dir: FocusDir, gap: int) -> Option<StripView> {
        self.repacked(self.swapped(id, dir), gap)
    }

    /// The columns with `id` in one of its own right of the one it leaves, of
    /// the same width; nothing where it is alone already.
    pub open spec fn split(self, id: WindowId) -> Option<Seq<ColumnView>> {
        match self.column_index_of(id) {
            None => None,
            Some(i) => {
                let col = self.columns[i];
                if col.tiles.len() < 2 {
                    None
                } else {
                    let pos = col.tiles.index_of_first(id).unwrap();
                    let rest = col.tiles.remove(pos);
                    let left = ColumnView {
                        tiles: rest,
                        active_tile: active_without(col.active_tile, pos, rest.len() as int),
                        ..col
                    };
                    Some(
                        self.columns.update(i, left).insert(
                            i + 1,
                            single_column(0, col.width, id),
                        ),
                    )
                }
            },
        }
    }

    /// `id` leaves its column for one of its own to the right, of the same
    /// width; nothing where it is alone already.
    pub open spec fn expel(self, id: WindowId, gap: int) -> Option<StripView> {
        self.repacked(self.split(id), gap)
    }

    /// Which tile of column `j` a consuming neighbour takes.
    pub open spec fn taken_tile(self, j: int) -> int {
        lesser(self.columns[j].active_tile as int, self.columns[j].tiles.len() - 1)
    }

    /// The columns with the active tile of the one right of `id` at the bottom
    /// of that of `id`, without a column left empty. Nothing at the right end.
    pub open spec fn merged(self, id: WindowId) -> Option<Seq<ColumnView>> {
        match self.column_index_of(id) {
            None => None,
            Some(i) => if i + 1 >= self.columns.len() {
                None
            } else {
                let right = self.columns[i + 1];
                let take = self.taken_tile(i + 1);
                let rest = right.tiles.remove(take);
                let grown = self.columns.update(
                    i,
                    ColumnView {
                        tiles: self.columns[i].tiles.push(right.tiles[take]),
                        ..self.columns[i]
                    },
                );
                Some(
                    if rest.len() == 0 {
                        grown.remove(i + 1)
                    } else {
                        grown.update(
                            i + 1,
                            ColumnView {
                                tiles: rest,
                                active_tile: active_without(take as nat, take, rest.len() as int),
                                ..right
                            },
                        )
                    },
                )
            },
        }
    }

    /// The active tile of the column to the right joins the column of `id` at
    /// the bottom; a column left empty goes. Nothing at the right end.
    pub open spec fn consume_right(self, id: WindowId, gap: int) -> Option<StripView> {
        self.repacked(self.merged(id), gap)
    }

    /// The column right of that of `id` has a tile to take, and there is room
    /// for it.
    pub open spec fn can_merge(self, id: WindowId) -> bool {
        self.column_index_of(id) matches Some(i) ==> i + 1 < self.columns.len() ==> {
            &&& self.columns[i + 1].tiles.len() > 0
            &&& self.columns[i].tiles.len() < usize::MAX
        }
    }

    /// Measuring the width of the column of `id` against the presets stays
    /// within coordinates.
    pub open spec fn cycle_fits(self, id: WindowId, viewport_w: int) -> bool {
        self.column_index_of(id) matches Some(i) ==> presets_fit(viewport_w, self.columns[i].width)
    }

    /// The columns with another width and saved width for column `i`.
    pub open spec fn with_width(self, i: int, width: int, saved_width: Option<int>) -> Seq<
        ColumnView,
    > {
        self.columns.update(i, ColumnView { width, saved_width, ..self.columns[i] })
    }

    /// The columns with the next preset width for that of `id`, no longer
    /// maximized.
    pub open spec fn cycled(self, id: WindowId, viewport_w: int) -> Option<Seq<ColumnView>> {
        match self.column_index_of(id) {
            None => None,
            Some(i) => Some(
                self.with_width(
                    i,
                    preset(viewport_w, next_preset(viewport_w, self.columns[i].width)),
                    None,
                ),
            ),
        }
    }

    /// The next preset width for the column of `id`; leaves the maximized state.
    pub open spec fn cycle_width(self, id: WindowId, viewport_w: int, gap: int) -> Option<StripView> {
        self.repacked(self.cycled(id, viewport_w), gap)
    }

    /// The columns with that of `id` at full viewport width, or back at the
    /// width before.
    pub open spec fn maximized(self, id: WindowId, viewport_w: int) -> Option<Seq<ColumnView>> {
        match self.column_index_of(id) {
            None => None,
            Some(i) => Some(
                match self.columns[i].saved_width {
                    Some(w) => self.with_width(i, w, None),
                    None => self.with_width(i, viewport_w, Some(self.columns[i].width)),
                },
            ),
        }
    }

    /// Full viewport width, or back to the width before.
    pub open spec fn toggle_maximize(
        self,
        id: WindowId,
        viewport_w: int,
        gap: int,
    ) -> Option<StripView> {
        self.repacked(self.maximized(id, viewport_w), gap)
    }

    /// The strip coordinate just past the last column.
    pub open spec fn content_width(self) -> int {
        if self.columns.len() == 0 {
            0
        } else {
            self.columns.last().right()
        }
    }

    /// The furthest the viewport may scroll.
    pub open spec fn max_offset(self, viewport_w: int) -> int {
        greater(self.content_width() - viewport_w, 0)
    }

    /// The viewport moved back onto the content.
    pub open spec fn clamp_offset(self, viewport_w: int) -> StripView {
        StripView { offset_x: clamped(self.offset_x, 0, self.max_offset(viewport_w)), ..self }
    }

    /// Clamping the offset stays within coordinates.
    pub open spec fn clamp_fits(self, viewport_w: int) -> bool {
        &&& in_i32(self.content_width())
        &&& in_i32(self.content_width() - viewport_w)
    }

    /// `t` is the nearest column start beyond the viewport's left edge.
    pub open spec fn is_scroll_stop(self, forward: bool, t: int) -> bool {
        &&& exists|k: int| 0 <= k < self.columns.len() && (#[trigger] self.columns[k]).x == t
        &&& if forward {
            &&& t > self.offset_x
            &&& forall|k: int|
                0 <= k < self.columns.len() && (#[trigger] self.columns[k]).x > self.offset_x ==> t
                    <= self.columns[k].x
        } else {
            &&& t < self.offset_x
            &&& forall|k: int|
                0 <= k < self.columns.len() && (#[trigger] self.columns[k]).x < self.offset_x ==> t
                    >= self.columns[k].x
        }
    }

    /// The viewport moved by one column start, then back onto the content.
    pub open spec fn scroll_columnwise(self, forward: bool, viewport_w: int) -> StripView {
        let moved = if exists|t: int| self.is_scroll_stop(forward, t) {
            StripView { offset_x: choose|t: int| self.is_scroll_stop(forward, t), ..self }
        } else {
            self
        };
        moved.clamp_offset(viewport_w)
    }

    /// The tile a focus move from `from` reaches; none at the edges.
    pub open spec fn neighbor(self, from: WindowId, dir: FocusDir) -> Option<WindowId> {
        match self.column_index_of(from) {
            None => None,
            Some(i) => {
                let tiles = self.columns[i].tiles;
                let t = tiles.index_of_first(from).unwrap();
                match dir {
                    FocusDir::Left => if i > 0 {
                        self.columns[i - 1].active()
                    } else {
                        None
                    },
                    FocusDir::Right => if i + 1 < self.columns.len() {
                        self.columns[i + 1].active()
                    } else {
                        None
                    },
                    FocusDir::Up => if t > 0 {
                        Some(tiles[t - 1])
                    } else {
                        None
                    },
                    FocusDir::Down => if t + 1 < tiles.len() {
                        Some(tiles[t + 1])
                    } else {
                        None
                    },
                }
            },
        }
    }

    /// The column of `id` remembers `id` as its active tile.
    pub open spec fn set_active(self, id: WindowId) -> StripView {
        match self.column_index_of(id) {
            None => self,
            Some(i) => StripView {
                columns: self.columns.update(
                    i,
                    ColumnView {
                        active_tile: self.columns[i].tiles.index_of_first(id).unwrap() as nat,
                        ..self.columns[i]
                    },
                ),
                ..self
            },
        }
    }

    /// The offset from which column `i` shows, the left edge first, moved no
    /// further than needed.
    pub open spec fn offset_showing(self, i: int, viewport_w: int) -> int {
        let col = self.columns[i];
        if col.x < self.offset_x {
            col.x
        } else if col.right() > self.offset_x + viewport_w {
            lesser(col.right() - viewport_w, col.x)
        } else {
            self.offset_x
        }
    }

    /// The viewport moved just far enough to show the column of `id`.
    pub open spec fn ensure_visible(self, id: WindowId, viewport_w: int) -> StripView {
        match self.column_index_of(id) {
            None => self,
            Some(i) => StripView { offset_x: self.offset_showing(i, viewport_w), ..self },
        }
    }

    /// Following the column of `id` stays within coordinates.
    pub open spec fn ensure_visible_fits(self, id: WindowId, viewport_w: int) -> bool {
        match self.column_index_of(id) {
            None => true,
            Some(i) => {
                let col = self.columns[i];
                col.x >= self.offset_x ==> {
                    &&& in_i32(col.right())
                    &&& in_i32(self.offset_x + viewport_w)
                    &&& col.right() > self.offset_x + viewport_w ==> in_i32(
                        col.right() - viewport_w,
                    )
                }
            },
        }
    }

    /// `id` leaves its column, whose tile focused last stays remembered; a
    /// column left empty goes and the columns behind it move left by its width
    /// and the gap.
    pub open spec fn remove_window(self, id: WindowId, gap: int) -> StripView {
        match self.column_index_of(id) {
            None => self,
            Some(i) => {
                let col = self.columns[i];
                let rest = without(col.tiles, id);
                if rest.len() > 0 {
                    StripView {
                        columns: self.columns.update(
                            i,
                            ColumnView {
                                tiles: rest,
                                active_tile: (col.active_tile - occurrences(
                                    col.tiles,
                                    id,
                                    col.active_tile as int,
                                )) as nat,
                                ..col
                            },
                        ),
                        ..self
                    }
                } else {
                    StripView {
                        columns: Seq::new(
                            (self.columns.len() - 1) as nat,
                            |k: int|
                                if k < i {
                                    self.columns[k]
                                } else {
                                    shifted(self.columns[k + 1], -(col.width + gap))
                                },
                        ),
                        ..self
                    }
                }
            },
        }
    }

    /// The removal stays within coordinates.
    pub open spec fn remove_fits(self, id: WindowId, gap: int) -> bool {
        match self.column_index_of(id) {
            None => true,
            Some(i) => {
                let col = self.columns[i];
                without(col.tiles, id).len() == 0 && i + 1 < self.columns.len()
                    ==> {
                    &&& in_i32(col.width + gap)
                    &&& forall|k: int|
                        i < k < self.columns.len() ==> in_i32(
                            (#[trigger] self.columns[k]).x - (col.width + gap),
                        )
                }
            },
        }
    }
}

/// The preset widths: a third, a half and two thirds of the viewport.
pub open spec fn preset(viewport_w: int, n: int) -> int {
    if n == 0 {
        trunc_div(viewport_w, 3)
    } else if n == 1 {
        trunc_div(viewport_w, 2)
    } else {
        trunc_div(viewport_w * 2, 3)
    }
}

/// How far a width is from preset `n`.
pub open spec fn preset_distance(viewport_w: int, width: int, n: int) -> int {
    magnitude(preset(viewport_w, n) - width)
}

/// The preset nearest to a width, the first of equally near ones.
pub open spec fn nearest_preset(viewport_w: int, width: int) -> int {
    let d0 = preset_distance(viewport_w, width, 0);
    let d1 = preset_distance(viewport_w, width, 1);
    let d2 = preset_distance(viewport_w, width, 2);
    if d0 <= d1 && d0 <= d2 {
        0
    } else if d1 <= d2 {
        1
    } else {
        2
    }
}

/// The preset after the nearest one.
pub open spec fn next_preset(viewport_w: int, width: int) -> int {
    (nearest_preset(viewport_w, width) + 1) % 3
}

/// Measuring a width against the presets stays within coordinates.
pub open spec fn presets_fit(viewport_w: int, width: int) -> bool {
    &&& in_i32(viewport_w * 2)
    &&& forall|n: int|
        0 <= n < 3 ==> i32::MIN < #[trigger] preset(viewport_w, n) - width <= i32::MAX
}

/// A rectangle as mathematical values.
pub struct RectView {
    pub x: int,
    pub y: int,
    pub w: int,
    pub h: int,
}

impl View for Rect {
    type V = RectView;

    open spec fn view(&self) -> RectView {
        RectView { x: self.x as int, y: self.y as int, w: self.w as int, h: self.h as int }
    }
}

/// A placement as mathematical values.
pub enum PlacementView {
    Visible(RectView),
    Offscreen(RectView),
}

impl View for Placement {
    type V = PlacementView;

    open spec fn view(&self) -> PlacementView {
        match *self {
            Placement::Visible(r) => PlacementView::Visible(r@),
            Placement::Offscreen(r) => PlacementView::Offscreen(r@),
        }
    }
}

/// The models of a list of placed windows.
pub open spec fn placement_views(s: Seq<(WindowId, Placement)>) -> Seq<(WindowId, PlacementView)> {
    s.map_values(|p: (WindowId, Placement)| (p.0, p.1@))
}

/// The height of each tile but the last when `n` tiles share `inner_h` pixels
/// with `gap` between them.
pub open spec fn tile_height(inner_h: int, n: int, gap: int) -> int {
    trunc_div(inner_h - (n - 1) * gap, n)
}

impl StripView {
    /// Column `c` meets the viewport of the work area.
    pub open spec fn column_visible(self, work: RectView, gap: int, c: int) -> bool {
        &&& self.columns[c].x < self.offset_x + (work.w - 2 * gap)
        &&& self.columns[c].right() > self.offset_x
    }

    /// The screen rectangle of tile `i` of column `c`: the column's width, an
    /// equal share of the height, and what rounding leaves for the last tile.
    pub open spec fn tile_rect(self, work: RectView, gap: int, c: int, i: int) -> RectView {
        let inner_h = work.h - 2 * gap;
        let n = self.columns[c].tiles.len() as int;
        let pitch = tile_height(inner_h, n, gap) + gap;
        RectView {
            x: work.x + gap + (self.columns[c].x - self.offset_x),
            y: work.y + gap + i * pitch,
            w: self.columns[c].width,
            h: if i == n - 1 {
                inner_h - i * pitch
            } else {
                tile_height(inner_h, n, gap)
            },
        }
    }

    /// Tile `i` of column `c` with its place on screen.
    pub open spec fn placed_tile(self, work: RectView, gap: int, c: int, i: int) -> (
        WindowId,
        PlacementView,
    ) {
        let r = self.tile_rect(work, gap, c, i);
        (
            self.columns[c].tiles[i],
            if self.column_visible(work, gap, c) {
                PlacementView::Visible(r)
            } else {
                PlacementView::Offscreen(r)
            },
        )
    }

    /// The tiles of column `c` placed, top to bottom.
    pub open spec fn placed_column(self, work: RectView, gap: int, c: int) -> Seq<
        (WindowId, PlacementView),
    > {
        Seq::new(self.columns[c].tiles.len(), |i: int| self.placed_tile(work, gap, c, i))
    }

    /// The tiles of the first `c` columns placed, left to right.
    pub open spec fn placed_upto(self, work: RectView, gap: int, c: int) -> Seq<
        (WindowId, PlacementView),
    >
        decreases c,
    {
        if c <= 0 {
            Seq::empty()
        } else {
            self.placed_upto(work, gap, c - 1) + self.placed_column(work, gap, c - 1)
        }
    }

    /// Every tile of the strip with its place on screen.
    pub open spec fn project(self, work: RectView, gap: int) -> Seq<(WindowId, PlacementView)> {
        self.placed_upto(work, gap, self.columns.len() as int)
    }

    /// No column is empty.
    pub open spec fn columns_filled(self) -> bool {
        forall|c: int| 0 <= c < self.columns.len() ==> (#[trigger] self.columns[c]).tiles.len() > 0
    }

    /// No window stands in two places.
    pub open spec fn once(self) -> bool {
        &&& forall|c: int|
            0 <= c < self.columns.len() ==> (#[trigger] self.columns[c]).tiles.no_duplicates()
        &&& forall|c: int, d: int, id: WindowId|
            0 <= c < self.columns.len() && 0 <= d < self.columns.len()
                && #[trigger] self.columns[c].tiles.contains(id)
                && #[trigger] self.columns[d].tiles.contains(id) ==> c == d
    }

    /// No column is empty and no window stands in two places.
    pub open spec fn sound(self) -> bool {
        self.columns_filled() && self.once()
    }

    /// Placing column `c` stays within coordinates.
    pub open spec fn placing_fits(self, work: RectView, gap: int, c: int) -> bool {
        let col = self.columns[c];
        let n = col.tiles.len() as int;
        let inner_h = work.h - 2 * gap;
        let t = tile_height(inner_h, n, gap);
        &&& 0 < n <= i32::MAX
        &&& in_i32(self.offset_x + (work.w - 2 * gap))
        &&& in_i32(col.right())
        &&& in_i32(work.x + gap)
        &&& in_i32(col.x - self.offset_x)
        &&& in_i32(work.x + gap + (col.x - self.offset_x))
        &&& in_i32((n - 1) * gap)
        &&& in_i32(inner_h - (n - 1) * gap)
        &&& in_i32(t + gap)
        &&& in_i32(work.y + gap)
        &&& in_i32((n - 1) * (t + gap))
        &&& in_i32(inner_h - (n - 1) * (t + gap))
        &&& in_i32(work.y + gap + (n - 1) * (t + gap))
    }

    /// Projecting the strip stays within coordinates.
    pub open spec fn project_fits(self, work: RectView, gap: int) -> bool {
        &&& in_i32(2 * gap)
        &&& in_i32(work.w - 2 * gap)
        &&& in_i32(work.h - 2 * gap)
        &&& forall|c: int|
            0 <= c < self.columns.len() ==> #[trigger] self.placing_fits(work, gap, c)
    }
}

/// What a step that may decline did: `cols` are the columns it would give.
pub open spec fn rearranged(
    before: StripView,
    cols: Option<Seq<ColumnView>>,
    after: StripView,
    done: bool,
) -> bool {
    match cols {
        Some(c) => done && after == StripView { columns: c, ..before },
        None => !done && after == before,
    }
}

/// The columns of a step that may decline can be put side by side.
pub open spec fn repacking_fits(cols: Option<Seq<ColumnView>>, gap: int) -> bool {
    cols matches Some(c) ==> packing_fits(c, gap)
}

/// What a step that may decline did: `step` is what it would give.
pub open spec fn stepped(before: StripView, step: Option<StripView>, after: StripView, done: bool) -> bool {
    match step {
        Some(v) => done && after == v,
        None => !done && after == before,
    }
}

// ---------------------------------------------------------------------------
// Lemmas
// ---------------------------------------------------------------------------

/// No tile stands past the last.
proof fn lemma_occurrences_past(tiles: Seq<WindowId>, id: WindowId, k: int, n: int)
    requires
        0 <= k <= n,
        k == n || k == tiles.len(),
    ensures
        occurrences(tiles, id, n) == occurrences(tiles, id, k),
    decreases n - k,
{
    if k < n {
        lemma_occurrences_past(tiles, id, k, n - 1);
    }
}

/// The column index, where there is one, is the first column holding the id.
pub proof fn lemma_column_index(s: StripView, id: WindowId)
    ensures
        s.column_index_of(id) matches Some(i) ==> s.is_column_of(id, i),
        s.column_index_of(id) is Some <==> s.contains(id),
{
    if s.contains(id) {
        let w = choose|i: int| 0 <= i < s.columns.len() && (#[trigger] s.columns[i]).tiles.contains(id);
        lemma_first_column(s, id, w);
    }
}

proof fn lemma_first_column(s: StripView, id: WindowId, w: int)
    requires
        0 <= w < s.columns.len(),
        s.columns[w].tiles.contains(id),
    ensures
        exists|i: int| s.is_column_of(id, i),
    decreases w,
{
    if exists|j: int| 0 <= j < w && (#[trigger] s.columns[j]).tiles.contains(id) {
        let j = choose|j: int| 0 <= j < w && (#[trigger] s.columns[j]).tiles.contains(id);
        lemma_first_column(s, id, j);
    } else {
        assert(s.is_column_of(id, w));
    }
}

/// A first column is the column index.
pub proof fn lemma_column_index_is(s: StripView, id: WindowId, i: int)
    requires
        s.is_column_of(id, i),
    ensures
        s.column_index_of(id) == Some(i),
{
    assert(s.columns[i].tiles.contains(id));
    assert(s.contains(id));
    let c = choose|k: int| s.is_column_of(id, k);
    assert(s.is_column_of(id, c));
    if c < i {
        assert(!s.columns[c].tiles.contains(id));
    }
    if i < c {
        assert(!s.columns[i].tiles.contains(id));
    }
}

/// Column positions depend on the widths alone.
pub proof fn lemma_packed_x_widths(a: Seq<ColumnView>, b: Seq<ColumnView>, gap: int, k: int)
    requires
        k <= a.len(),
        k <= b.len(),
        forall|j: int| 0 <= j < k ==> (#[trigger] a[j]).width == b[j].width,
    ensures
        packed_x(a, gap, k) == packed_x(b, gap, k),
    decreases k,
{
    if k > 0 {
        lemma_packed_x_widths(a, b, gap, k - 1);
        assert(a[k - 1].width == b[k - 1].width);
    }
}

/// A multiple of the pitch that is no further than the last one fits.
proof fn lemma_step_fits(k: int, n: int, pitch: int, base: int)
    requires
        0 <= k <= n - 1,
        in_i32(base),
        in_i32((n - 1) * pitch),
        in_i32(base + (n - 1) * pitch),
    ensures
        in_i32(k * pitch),
        in_i32(base + k * pitch),
{
    if pitch >= 0 {
        assert(0 <= k * pitch <= (n - 1) * pitch) by (nonlinear_arith)
            requires
                0 <= k <= n - 1,
                pitch >= 0,
        ;
    } else {
        assert((n - 1) * pitch <= k * pitch <= 0) by (nonlinear_arith)
            requires
                0 <= k <= n - 1,
                pitch < 0,
        ;
    }
}

// ---------------------------------------------------------------------------
// Operations
// ---------------------------------------------------------------------------

impl Column {
    /// The tile a sideways focus move lands on.
    pub fn active(&self) -> (r: Option<WindowId>)
        ensures
            r == self@.active(),
    {
        if self.tiles.len() == 0 {
            return None;
        }
        let last: usize = self.tiles.len() - 1;
        let t: usize = if self.active_tile <= last {
            self.active_tile
        } else {
            last
        };
        Some(self.tiles[t])
    }
}

/// The first position of `id` among the tiles.
fn tile_position(tiles: &Vec<WindowId>, id: WindowId) -> (r: Option<usize>)
    ensures
        match r {
            Some(i) => i < tiles.len() && tiles@.index_of_first(id) == Some(i as int)
                && tiles@.contains(id),
            None => !tiles@.contains(id),
        },
{
    proof {
        tiles@.index_of_first_ensures(id);
    }
    let mut i: usize = 0;
    while i < tiles.len()
        invariant
            i <= tiles.len(),
            forall|j: int| 0 <= j < i ==> tiles@[j] != id,
            match tiles@.index_of_first(id) {
                Some(k) => tiles@.contains(id) && 0 <= k < tiles@.len() && tiles@[k] == id
                    && forall|j: int| 0 <= j < k ==> tiles@[j] != id,
                None => !tiles@.contains(id),
            },
        decreases tiles.len() - i,
    {
        if tiles[i] == id {
            return Some(i);
        }
        i += 1;
    }
    None
}

/// The tiles other than `id`.
pub(crate) fn tiles_without(tiles: &Vec<WindowId>, id: WindowId) -> (r: Vec<WindowId>)
    ensures
        r@ == without(tiles@, id),
{
    let mut out: Vec<WindowId> = Vec::new();
    let mut i: usize = 0;
    proof {
        assert(tiles@.take(0) =~= Seq::empty());
        reveal(Seq::filter);
    }
    while i < tiles.len()
        invariant
            i <= tiles.len(),
            out@ == without(tiles@.take(i as int), id),
        decreases tiles.len() - i,
    {
        proof {
            assert(tiles@.take(i + 1).drop_last() =~= tiles@.take(i as int));
            reveal(Seq::filter);
        }
        if tiles[i] != id {
            out.push(tiles[i]);
        }
        i += 1;
    }
    proof {
        assert(tiles@.take(i as int) =~= tiles@);
    }
    out
}

/// How many of the first `n` tiles are `id`.
fn count_tiles(tiles: &Vec<WindowId>, id: WindowId, n: usize) -> (r: usize)
    ensures
        r == occurrences(tiles@, id, n as int),
        r <= n,
{
    let mut count: usize = 0;
    let mut i: usize = 0;
    while i < n && i < tiles.len()
        invariant
            i <= n,
            i <= tiles.len(),
            count == occurrences(tiles@, id, i as int),
            count <= i,
        decreases n - i,
    {
        if tiles[i] == id {
            count += 1;
        }
        i += 1;
    }
    proof {
        lemma_occurrences_past(tiles@, id, i as int, n as int);
    }
    count
}

/// The index of the tile focused last, the tile at `pos` being taken out and
/// `rest` tiles left.
fn follow_active(active: usize, pos: usize, rest: usize) -> (r: usize)
    requires
        rest > 0,
    ensures
        r == active_without(active as nat, pos as int, rest as int),
{
    let at: usize = if pos < active {
        active - 1
    } else {
        active
    };
    if at <= rest - 1 {
        at
    } else {
        rest - 1
    }
}

/// The columns from `from` on move by `by`.
fn shift_columns(cols: &mut Vec<Column>, from: usize, by: i32)
    requires
        from <= old(cols).len(),
        forall|k: int| from <= k < old(cols).len() ==> in_i32((#[trigger] old(cols)@[k]).x + by),
    ensures
        final(cols)@.len() == old(cols)@.len(),
        forall|k: int|
            0 <= k < from ==> #[trigger] column_views(final(cols)@)[k] == column_views(old(cols)@)[k],
        forall|k: int|
            from <= k < old(cols).len() ==> #[trigger] column_views(final(cols)@)[k] == shifted(
                column_views(old(cols)@)[k],
                by as int,
            ),
{
    let mut i: usize = from;
    while i < cols.len()
        invariant
            from <= i <= cols.len(),
            cols@.len() == old(cols)@.len(),
            forall|k: int| from <= k < old(cols).len() ==> in_i32((#[trigger] old(cols)@[k]).x + by),
            forall|k: int| 0 <= k < from ==> #[trigger] cols@[k]@ == old(cols)@[k]@,
            forall|k: int| from <= k < i ==> #[trigger] cols@[k]@ == shifted(old(cols)@[k]@, by as int),
            forall|k: int| i <= k < cols.len() ==> #[trigger] cols@[k] == old(cols)@[k],
        decreases cols.len() - i,
    {
        assert(cols@[i as int] == old(cols)@[i as int]);
        cols[i].x += by;
        i += 1;
    }
}

/// The columns from `from` on move back by `by`.
fn retreat_columns(cols: &mut Vec<Column>, from: usize, by: i32)
    requires
        from <= old(cols).len(),
        forall|k: int| from <= k < old(cols).len() ==> in_i32((#[trigger] old(cols)@[k]).x - by),
    ensures
        final(cols)@.len() == old(cols)@.len(),
        forall|k: int|
            0 <= k < from ==> #[trigger] column_views(final(cols)@)[k] == column_views(old(cols)@)[k],
        forall|k: int|
            from <= k < old(cols).len() ==> #[trigger] column_views(final(cols)@)[k] == shifted(
                column_views(old(cols)@)[k],
                -by,
            ),
{
    let mut i: usize = from;
    while i < cols.len()
        invariant
            from <= i <= cols.len(),
            cols@.len() == old(cols)@.len(),
            forall|k: int| from <= k < old(cols).len() ==> in_i32((#[trigger] old(cols)@[k]).x - by),
            forall|k: int| 0 <= k < from ==> #[trigger] cols@[k]@ == old(cols)@[k]@,
            forall|k: int| from <= k < i ==> #[trigger] cols@[k]@ == shifted(old(cols)@[k]@, -by),
            forall|k: int| i <= k < cols.len() ==> #[trigger] cols@[k] == old(cols)@[k],
        decreases cols.len() - i,
    {
        assert(cols@[i as int] == old(cols)@[i as int]);
        cols[i].x -= by;
        i += 1;
    }
}

/// How far two widths are apart.
fn distance(a: i32, b: i32) -> (r: i32)
    requires
        i32::MIN < a - b <= i32::MAX,
    ensures
        r == magnitude(a - b),
{
    let d: i32 = a - b;
    if d < 0 {
        -d
    } else {
        d
    }
}

impl Default for Strip {
    fn default() -> (r: Strip)
        ensures
            r@ == empty_strip(),
    {
        let s = Strip { columns: Vec::new(), offset_x: 0, last_focused: None };
        assert(s@.columns =~= Seq::empty());
        s
    }
}

/// A workspace without windows.
pub open spec fn empty_strip() -> StripView {
    StripView { columns: Seq::empty(), offset_x: 0, last_focused: None }
}

impl Strip {
    /// The first column that holds `id`.
    pub fn column_index_of(&self, id: WindowId) -> (r: Option<usize>)
        ensures
            match r {
                Some(i) => i < self.columns.len() && self@.column_index_of(id) == Some(i as int)
                    && self@.is_column_of(id, i as int),
                None => self@.column_index_of(id) is None && !self@.contains(id),
            },
    {
        let mut i: usize = 0;
        while i < self.columns.len()
            invariant
                i <= self.columns.len(),
                forall|j: int| 0 <= j < i ==> !(#[trigger] self@.columns[j]).tiles.contains(id),
            decreases self.columns.len() - i,
        {
            if tile_position(&self.columns[i].tiles, id).is_some() {
                proof {
                    assert(self@.columns[i as int].tiles.contains(id));
                    lemma_column_index_is(self@, id, i as int);
                }
                return Some(i);
            }
            assert(!self@.columns[i as int].tiles.contains(id));
            i += 1;
        }
        None
    }

    /// Some column holds `id`.
    pub fn contains(&self, id: WindowId) -> (r: bool)
        ensures
            r == self@.contains(id),
    {
        proof {
            lemma_column_index(self@, id);
        }
        self.column_index_of(id).is_some()
    }

    /// Inserts a column for a new window right of the anchor's column, or at
    /// the end where the anchor is unknown.
    pub fn insert_column_after(&mut self, anchor: Option<WindowId>, id: WindowId, width: i32, gap: i32)
        requires
            old(self)@.insert_fits(anchor, width as int, gap as int),
        ensures
            final(self)@ == old(self)@.insert_column_after(anchor, id, width as int, gap as int),
    {
        let idx: usize = match anchor {
            Some(a) => match self.column_index_of(a) {
                Some(i) => i + 1,
                None => self.columns.len(),
            },
            None => self.columns.len(),
        };
        let ghost before = self@;
        let ghost old_cols = self.columns@;
        assert(forall|k: int| 0 <= k < old_cols.len() ==> before.columns[k] == #[trigger] old_cols[k]@);
        assert(idx == before.insert_index(anchor));
        let x: i32 = if idx == 0 {
            0
        } else {
            assert(before.columns[idx - 1] == old_cols[idx - 1]@);
            let prev = &self.columns[idx - 1];
            prev.x + prev.width + gap
        };
        if idx < self.columns.len() {
            assert forall|k: int| idx <= k < old_cols.len() implies in_i32(
                (#[trigger] old_cols[k]).x + (width + gap),
            ) by {
                assert(before.columns[k] == old_cols[k]@);
            }
            shift_columns(&mut self.columns, idx, width + gap);
        }
        let mut tiles: Vec<WindowId> = Vec::new();
        tiles.push(id);
        let ghost mid = self.columns@;
        assert(forall|k: int| 0 <= k < mid.len() ==> column_views(mid)[k] == #[trigger] mid[k]@);
        self.columns.insert(idx, Column { x, width, tiles, active_tile: 0, saved_width: None });
        proof {
            let after = before.insert_column_after(anchor, id, width as int, gap as int);
            assert(tiles@ =~= seq![id]);
            assert forall|k: int| 0 <= k < after.columns.len() implies #[trigger] self@.columns[k]
                == after.columns[k] by {
                if k < idx {
                    assert(self.columns@[k] == mid[k]);
                    assert(column_views(mid)[k] == before.columns[k]);
                } else if k > idx {
                    assert(self.columns@[k] == mid[k - 1]);
                    assert(column_views(mid)[k - 1] == shifted(before.columns[k - 1], width + gap));
                }
            }
            assert(self@.columns =~= after.columns);
        }
    }

    /// Assigns every `x` anew from 0 on.
    pub fn relayout(&mut self, gap: i32)
        requires
            packing_fits(old(self)@.columns, gap as int),
        ensures
            final(self)@ == old(self)@.relayout(gap as int),
    {
        let ghost before = self@;
        let mut x: i32 = 0;
        let mut i: usize = 0;
        while i < self.columns.len()
            invariant
                i <= self.columns.len(),
                self.columns.len() == before.columns.len(),
                before == old(self)@,
                packing_fits(before.columns, gap as int),
                self.offset_x == before.offset_x,
                self.last_focused == before.last_focused,
                x == packed_x(before.columns, gap as int, i as int),
                forall|k: int|
                    0 <= k < i ==> #[trigger] self.columns@[k]@ == packed(before.columns, gap as int)[k],
                forall|k: int|
                    i <= k < self.columns.len() ==> #[trigger] self.columns@[k]@ == before.columns[k],
            decreases self.columns.len() - i,
        {
            assert(self.columns@[i as int]@ == before.columns[i as int]);
            assert(packed_x(before.columns, gap as int, i + 1) == x + before.columns[i as int].width + gap);
            self.columns[i].x = x;
            x = x + (self.columns[i].width + gap);
            i += 1;
        }
        proof {
            assert(self@.columns =~= before.relayout(gap as int).columns);
        }
    }

    /// Puts the column of `id` and its neighbour in each other's place.
    pub(crate) fn swap_column(&mut self, id: WindowId, dir: FocusDir) -> (r: bool)
        ensures
            rearranged(old(self)@, old(self)@.swapped(id, dir), final(self)@, r),
    {
        let i: usize = match self.column_index_of(id) {
            Some(i) => i,
            None => {
                return false;
            },
        };
        let j: usize = match dir {
            FocusDir::Left => {
                if i == 0 {
                    return false;
                }
                i - 1
            },
            FocusDir::Right => {
                if i + 1 >= self.columns.len() {
                    return false;
                }
                i + 1
            },
            _ => {
                return false;
            },
        };
        let ghost before = self@;
        let ghost old_cols = self.columns@;
        let lo: usize = if i < j {
            i
        } else {
            j
        };
        let upper = self.columns.remove(lo + 1);
        self.columns.insert(lo, upper);
        proof {
            let swapped = before.columns.update(i as int, before.columns[j as int]).update(
                j as int,
                before.columns[i as int],
            );
            assert(self.columns@ =~= old_cols.update(lo as int, old_cols[lo + 1]).update(
                lo + 1,
                old_cols[lo as int],
            ));
            assert(self@.columns =~= swapped);
        }
        true
    }

    /// Trades the column of `id` with its neighbour.
    pub fn move_column(&mut self, id: WindowId, dir: FocusDir, gap: i32) -> (r: bool)
        requires
            repacking_fits(old(self)@.swapped(id, dir), gap as int),
        ensures
            stepped(old(self)@, old(self)@.move_column(id, dir, gap as int), final(self)@, r),
    {
        let done: bool = self.swap_column(id, dir);
        if done {
            self.relayout(gap);
        }
        done
    }

    /// Puts `id` into a column of its own right of the one it leaves.
    pub(crate) fn split_column(&mut self, id: WindowId) -> (r: bool)
        requires
            old(self)@.columns.len() < usize::MAX,
        ensures
            rearranged(old(self)@, old(self)@.split(id), final(self)@, r),
    {
        let i: usize = match self.column_index_of(id) {
            Some(i) => i,
            None => {
                return false;
            },
        };
        if self.columns[i].tiles.len() < 2 {
            return false;
        }
        let ghost before = self@;
        let ghost old_cols = self.columns@;
        let ghost before_col = before.columns[i as int];
        assert(before_col == old_cols[i as int]@);
        let pos: usize = match tile_position(&self.columns[i].tiles, id) {
            Some(p) => p,
            None => {
                assert(false);
                return false;
            },
        };
        let _ = self.columns[i].tiles.remove(pos);
        let rest_len: usize = self.columns[i].tiles.len();
        self.columns[i].active_tile = follow_active(self.columns[i].active_tile, pos, rest_len);
        let width: i32 = self.columns[i].width;
        let ghost mid = self.columns@;
        let mut tiles: Vec<WindowId> = Vec::new();
        tiles.push(id);
        self.columns.insert(i + 1, Column { x: 0, width, tiles, active_tile: 0, saved_width: None });
        proof {
            let rest = before_col.tiles.remove(pos as int);
            let left = ColumnView {
                tiles: rest,
                active_tile: active_without(before_col.active_tile, pos as int, rest.len() as int),
                ..before_col
            };
            let cols = before.columns.update(i as int, left).insert(
                i + 1,
                single_column(0, before_col.width, id),
            );
            assert(tiles@ =~= seq![id]);
            assert(mid[i as int]@ =~= left);
            assert forall|k: int| 0 <= k < cols.len() implies #[trigger] self@.columns[k]
                == cols[k] by {
                if k <= i {
                    assert(self.columns@[k] == mid[k]);
                    if k < i {
                        assert(mid[k] == old_cols[k]);
                    }
                } else if k > i + 1 {
                    assert(self.columns@[k] == mid[k - 1]);
                    assert(mid[k - 1] == old_cols[k - 1]);
                }
            }
            assert(self@.columns =~= cols);
        }
        true
    }

    /// Pushes `id` out of its column into one of its own to the right.
    pub fn expel(&mut self, id: WindowId, gap: i32) -> (r: bool)
        requires
            old(self)@.columns.len() < usize::MAX,
            repacking_fits(old(self)@.split(id), gap as int),
        ensures
            stepped(old(self)@, old(self)@.expel(id, gap as int), final(self)@, r),
    {
        let done: bool = self.split_column(id);
        if done {
            self.relayout(gap);
        }
        done
    }

    /// Puts the active tile of the column to the right at the bottom of the
    /// column of `id`.
    pub(crate) fn merge_column(&mut self, id: WindowId) -> (r: bool)
        requires
            old(self)@.can_merge(id),
        ensures
            rearranged(old(self)@, old(self)@.merged(id), final(self)@, r),
    {
        let i: usize = match self.column_index_of(id) {
            Some(i) => i,
            None => {
                return false;
            },
        };
        if i + 1 >= self.columns.len() {
            return false;
        }
        let ghost before = self@;
        let ghost old_cols = self.columns@;
        let ghost right_col = before.columns[i + 1];
        assert(right_col == old_cols[i + 1]@);
        assert(before.columns[i as int] == old_cols[i as int]@);
        let last: usize = self.columns[i + 1].tiles.len() - 1;
        let take: usize = if self.columns[i + 1].active_tile <= last {
            self.columns[i + 1].active_tile
        } else {
            last
        };
        let taken = self.columns[i + 1].tiles.remove(take);
        let emptied: bool = self.columns[i + 1].tiles.len() == 0;
        if emptied {
            let _ = self.columns.remove(i + 1);
        } else {
            let rest_len: usize = self.columns[i + 1].tiles.len();
            self.columns[i + 1].active_tile = follow_active(take, take, rest_len);
        }
        self.columns[i].tiles.push(taken);
        proof {
            let rest = right_col.tiles.remove(take as int);
            let grown_col = ColumnView {
                tiles: before.columns[i as int].tiles.push(right_col.tiles[take as int]),
                ..before.columns[i as int]
            };
            let grown = before.columns.update(i as int, grown_col);
            let cols = if rest.len() == 0 {
                grown.remove(i + 1)
            } else {
                grown.update(
                    i + 1,
                    ColumnView {
                        tiles: rest,
                        active_tile: active_without(take as nat, take as int, rest.len() as int),
                        ..right_col
                    },
                )
            };
            assert(self.columns@[i as int]@ =~= grown_col);
            assert(self@.columns.len() == cols.len());
            assert forall|k: int| 0 <= k < cols.len() implies #[trigger] self@.columns[k]
                == cols[k] by {
                if k < i {
                    assert(self.columns@[k] == old_cols[k]);
                } else if k > i {
                    if emptied {
                        assert(self.columns@[k] == old_cols[k + 1]);
                    } else if k > i + 1 {
                        assert(self.columns@[k] == old_cols[k]);
                    }
                }
            }
            assert(self@.columns =~= cols);
        }
        true
    }

    /// Takes the active tile of the column to the right into the column of `id`.
    pub fn consume_right(&mut self, id: WindowId, gap: i32) -> (r: bool)
        requires
            old(self)@.can_merge(id),
            repacking_fits(old(self)@.merged(id), gap as int),
        ensures
            stepped(old(self)@, old(self)@.consume_right(id, gap as int), final(self)@, r),
    {
        let done: bool = self.merge_column(id);
        if done {
            self.relayout(gap);
        }
        done
    }

    /// Gives column `i` another width and saved width.
    fn set_width(&mut self, i: usize, width: i32, saved_width: Option<i32>)
        requires
            i < old(self).columns.len(),
        ensures
            final(self)@ == (StripView {
                columns: old(self)@.with_width(i as int, width as int, opt_int(saved_width)),
                ..old(self)@
            }),
    {
        let ghost before = self@;
        let ghost old_cols = self.columns@;
        self.columns[i].width = width;
        self.columns[i].saved_width = saved_width;
        proof {
            let cols = before.with_width(i as int, width as int, opt_int(saved_width));
            assert forall|k: int| 0 <= k < cols.len() implies #[trigger] self@.columns[k]
                == cols[k] by {
                if k != i {
                    assert(self.columns@[k] == old_cols[k]);
                }
            }
            assert(self@.columns =~= cols);
        }
    }

    /// Gives the column of `id` the next preset width: a third, a half, two
    /// thirds of the viewport.
    pub(crate) fn cycle_column(&mut self, id: WindowId, viewport_w: i32) -> (r: bool)
        requires
            old(self)@.cycle_fits(id, viewport_w as int),
        ensures
            rearranged(old(self)@, old(self)@.cycled(id, viewport_w as int), final(self)@, r),
    {
        let i: usize = match self.column_index_of(id) {
            Some(i) => i,
            None => {
                return false;
            },
        };
        let width: i32 = self.columns[i].width;
        proof {
            assert(self@.columns[i as int].width == width);
            let v = viewport_w as int;
            assert(i32::MIN < preset(v, 0) - width <= i32::MAX);
            assert(i32::MIN < preset(v, 1) - width <= i32::MAX);
            assert(i32::MIN < preset(v, 2) - width <= i32::MAX);
        }
        let third: i32 = viewport_w / 3;
        let half: i32 = viewport_w / 2;
        let two_thirds: i32 = viewport_w * 2 / 3;
        let d0: i32 = distance(third, width);
        let d1: i32 = distance(half, width);
        let d2: i32 = distance(two_thirds, width);
        let next: i32 = if d0 <= d1 && d0 <= d2 {
            half
        } else if d1 <= d2 {
            two_thirds
        } else {
            third
        };
        self.set_width(i, next, None);
        true
    }

    /// The next preset width (a third, a half, two thirds of the viewport) for
    /// the column of `id`; leaves the maximized state.
    pub fn cycle_width(&mut self, id: WindowId, viewport_w: i32, gap: i32) -> (r: bool)
        requires
            old(self)@.cycle_fits(id, viewport_w as int),
            repacking_fits(old(self)@.cycled(id, viewport_w as int), gap as int),
        ensures
            stepped(
                old(self)@,
                old(self)@.cycle_width(id, viewport_w as int, gap as int),
                final(self)@,
                r,
            ),
    {
        let done: bool = self.cycle_column(id, viewport_w);
        if done {
            self.relayout(gap);
        }
        done
    }

    /// Gives the column of `id` full viewport width, or its width before.
    pub(crate) fn maximize_column(&mut self, id: WindowId, viewport_w: i32) -> (r: bool)
        ensures
            rearranged(old(self)@, old(self)@.maximized(id, viewport_w as int), final(self)@, r),
    {
        let i: usize = match self.column_index_of(id) {
            Some(i) => i,
            None => {
                return false;
            },
        };
        assert(self@.columns[i as int] == self.columns@[i as int]@);
        match self.columns[i].saved_width {
            Some(w) => {
                self.set_width(i, w, None);
            },
            None => {
                let width: i32 = self.columns[i].width;
                self.set_width(i, viewport_w, Some(width));
            },
        }
        true
    }

    /// Full viewport width, or back to the width before.
    pub fn toggle_maximize(&mut self, id: WindowId, viewport_w: i32, gap: i32) -> (r: bool)
        requires
            repacking_fits(old(self)@.maximized(id, viewport_w as int), gap as int),
        ensures
            stepped(
                old(self)@,
                old(self)@.toggle_maximize(id, viewport_w as int, gap as int),
                final(self)@,
                r,
            ),
    {
        let done: bool = self.maximize_column(id, viewport_w);
        if done {
            self.relayout(gap);
        }
        done
    }

    /// The strip coordinate just past the last column.
    pub fn content_width(&self) -> (r: i32)
        requires
            in_i32(self@.content_width()),
        ensures
            r == self@.content_width(),
    {
        if self.columns.len() == 0 {
            return 0;
        }
        let last: usize = self.columns.len() - 1;
        assert(self@.columns.last() == self.columns@[last as int]@);
        self.columns[last].x + self.columns[last].width
    }

    /// Moves the viewport back onto the content.
    pub fn clamp_offset(&mut self, viewport_w: i32)
        requires
            old(self)@.clamp_fits(viewport_w as int),
        ensures
            final(self)@ == old(self)@.clamp_offset(viewport_w as int),
    {
        let width: i32 = self.content_width();
        let max: i32 = max_i32(width - viewport_w, 0);
        self.offset_x = clamp_i32(self.offset_x, 0, max);
    }

    /// The nearest column start beyond the viewport's left edge.
    fn scroll_stop(&self, forward: bool) -> (r: Option<i32>)
        ensures
            match r {
                Some(t) => self@.is_scroll_stop(forward, t as int),
                None => forall|t: int| !self@.is_scroll_stop(forward, t),
            },
    {
        let mut best: Option<i32> = None;
        let mut i: usize = 0;
        let cur: i32 = self.offset_x;
        while i < self.columns.len()
            invariant
                i <= self.columns.len(),
                cur == self.offset_x,
                match best {
                    Some(t) => {
                        &&& if forward {
                            t > cur
                        } else {
                            t < cur
                        }
                        &&& exists|k: int|
                            0 <= k < i && (#[trigger] self@.columns[k]).x == t
                        &&& forall|k: int|
                            0 <= k < i ==> if forward {
                                (#[trigger] self@.columns[k]).x > cur ==> t <= self@.columns[k].x
                            } else {
                                self@.columns[k].x < cur ==> t >= self@.columns[k].x
                            }
                    },
                    None => forall|k: int|
                        0 <= k < i ==> if forward {
                            (#[trigger] self@.columns[k]).x <= cur
                        } else {
                            self@.columns[k].x >= cur
                        },
                },
            decreases self.columns.len() - i,
        {
            let x: i32 = self.columns[i].x;
            assert(self@.columns[i as int].x == x);
            let ahead: bool = if forward {
                x > cur
            } else {
                x < cur
            };
            if ahead {
                let nearer: bool = match best {
                    Some(t) => if forward {
                        x < t
                    } else {
                        x > t
                    },
                    None => true,
                };
                if nearer {
                    best = Some(x);
                }
            }
            i += 1;
        }
        best
    }

    /// Scrolls the viewport to the next column start without moving the focus.
    pub fn scroll_columnwise(&mut self, forward: bool, viewport_w: i32)
        requires
            old(self)@.clamp_fits(viewport_w as int),
        ensures
            final(self)@ == old(self)@.scroll_columnwise(forward, viewport_w as int),
    {
        let ghost before = self@;
        if let Some(t) = self.scroll_stop(forward) {
            proof {
                let c = choose|u: int| before.is_scroll_stop(forward, u);
                assert(before.is_scroll_stop(forward, c));
                let kc = choose|k: int|
                    0 <= k < before.columns.len() && (#[trigger] before.columns[k]).x == c;
                let kt = choose|k: int|
                    0 <= k < before.columns.len() && (#[trigger] before.columns[k]).x == t;
                assert(before.columns[kc].x == c && before.columns[kt].x == t);
                assert(c == t);
            }
            self.offset_x = t;
        }
        self.clamp_offset(viewport_w);
    }

    /// The tile a focus move from `from` reaches; none at the edges.
    pub fn neighbor(&self, from: WindowId, dir: FocusDir) -> (r: Option<WindowId>)
        ensures
            r == self@.neighbor(from, dir),
    {
        let i: usize = match self.column_index_of(from) {
            Some(i) => i,
            None => {
                return None;
            },
        };
        assert(self@.columns[i as int] == self.columns@[i as int]@);
        match dir {
            FocusDir::Left => {
                if i == 0 {
                    None
                } else {
                    assert(self@.columns[i - 1] == self.columns@[i - 1]@);
                    self.columns[i - 1].active()
                }
            },
            FocusDir::Right => {
                if i + 1 < self.columns.len() {
                    assert(self@.columns[i + 1] == self.columns@[i + 1]@);
                    self.columns[i + 1].active()
                } else {
                    None
                }
            },
            FocusDir::Up => match tile_position(&self.columns[i].tiles, from) {
                Some(t) => if t > 0 {
                    Some(self.columns[i].tiles[t - 1])
                } else {
                    None
                },
                None => None,
            },
            FocusDir::Down => match tile_position(&self.columns[i].tiles, from) {
                Some(t) => if t + 1 < self.columns[i].tiles.len() {
                    Some(self.columns[i].tiles[t + 1])
                } else {
                    None
                },
                None => None,
            },
        }
    }

    /// Records that the focus has moved to `id`.
    pub fn set_active(&mut self, id: WindowId)
        ensures
            final(self)@ == old(self)@.set_active(id),
    {
        let ghost before = self@;
        let ghost old_cols = self.columns@;
        if let Some(i) = self.column_index_of(id) {
            assert(self@.columns[i as int] == self.columns@[i as int]@);
            if let Some(t) = tile_position(&self.columns[i].tiles, id) {
                self.columns[i].active_tile = t;
                proof {
                    let cols = before.set_active(id).columns;
                    assert forall|k: int| 0 <= k < cols.len() implies #[trigger] self@.columns[k]
                        == cols[k] by {
                        if k != i {
                            assert(self.columns@[k] == old_cols[k]);
                        }
                    }
                    assert(self@.columns =~= cols);
                }
            }
        }
    }

    /// Moves the viewport just far enough to show the column of `id`, its left
    /// edge first. Says whether the viewport moved.
    pub fn ensure_visible(&mut self, id: WindowId, viewport_w: i32) -> (r: bool)
        requires
            old(self)@.ensure_visible_fits(id, viewport_w as int),
        ensures
            final(self)@ == old(self)@.ensure_visible(id, viewport_w as int),
            r == (final(self)@.offset_x != old(self)@.offset_x),
    {
        let i: usize = match self.column_index_of(id) {
            Some(i) => i,
            None => {
                return false;
            },
        };
        assert(self@.columns[i as int] == self.columns@[i as int]@);
        let before: i32 = self.offset_x;
        let x: i32 = self.columns[i].x;
        let width: i32 = self.columns[i].width;
        if x < self.offset_x {
            self.offset_x = x;
        } else if x + width > self.offset_x + viewport_w {
            self.offset_x = min_i32(x + width - viewport_w, x);
        }
        self.offset_x != before
    }

    /// Takes `id` out; a column left empty goes and the columns behind it close
    /// up. Says whether `id` was there.
    pub fn remove_window(&mut self, id: WindowId, gap: i32) -> (r: bool)
        requires
            old(self)@.remove_fits(id, gap as int),
        ensures
            final(self)@ == old(self)@.remove_window(id, gap as int),
            r == old(self)@.contains(id),
    {
        let ghost before = self@;
        let ghost old_cols = self.columns@;
        proof {
            lemma_column_index(before, id);
        }
        let i: usize = match self.column_index_of(id) {
            Some(i) => i,
            None => {
                return false;
            },
        };
        assert(self@.columns[i as int] == self.columns@[i as int]@);
        let rest = tiles_without(&self.columns[i].tiles, id);
        let emptied: bool = rest.len() == 0;
        let active: usize = self.columns[i].active_tile;
        let above: usize = count_tiles(&self.columns[i].tiles, id, active);
        self.columns[i].tiles = rest;
        self.columns[i].active_tile = active - above;
        if emptied {
            let width: i32 = self.columns[i].width;
            let ghost mid = self.columns@;
            let _ = self.columns.remove(i);
            if i < self.columns.len() {
                let ghost cut = self.columns@;
                proof {
                    assert(before.columns[i as int].width == width);
                    assert forall|k: int| i <= k < cut.len() implies in_i32(
                        (#[trigger] cut[k]).x - (width + gap),
                    ) by {
                        assert(cut[k] == mid[k + 1]);
                        assert(mid[k + 1] == old_cols[k + 1]);
                        assert(before.columns[k + 1].x == old_cols[k + 1].x);
                    }
                }
                retreat_columns(&mut self.columns, i, width + gap);
                proof {
                    let after = before.remove_window(id, gap as int).columns;
                    assert forall|k: int| 0 <= k < after.len() implies #[trigger] self@.columns[k]
                        == after[k] by {
                        assert(column_views(self.columns@)[k] == self@.columns[k]);
                        if k < i {
                            assert(cut[k] == old_cols[k]);
                        } else {
                            assert(cut[k] == mid[k + 1]);
                            assert(mid[k + 1] == old_cols[k + 1]);
                        }
                    }
                    assert(self@.columns =~= after);
                }
            } else {
                proof {
                    let after = before.remove_window(id, gap as int).columns;
                    assert forall|k: int| 0 <= k < after.len() implies #[trigger] self@.columns[k]
                        == after[k] by {
                        assert(self.columns@[k] == old_cols[k]);
                    }
                    assert(self@.columns =~= after);
                }
            }
        } else {
            proof {
                let after = before.remove_window(id, gap as int).columns;
                assert forall|k: int| 0 <= k < after.len() implies #[trigger] self@.columns[k]
                    == after[k] by {
                    if k != i {
                        assert(self.columns@[k] == old_cols[k]);
                    }
                }
                assert(self@.columns =~= after);
            }
        }
        true
    }

    /// Places every tile on the work area: the columns that meet the viewport
    /// are visible, the tiles of a column share its height, and `gap` separates
    /// columns, tiles and the edges.
    pub fn project(&self, work: Rect, gap: i32) -> (r: Vec<(WindowId, Placement)>)
        requires
            self@.project_fits(work@, gap as int),
        ensures
            placement_views(r@) == self@.project(work@, gap as int),
    {
        let viewport_w: i32 = work.w - 2 * gap;
        let inner_h: i32 = work.h - 2 * gap;
        let mut out: Vec<(WindowId, Placement)> = Vec::new();
        let mut c: usize = 0;
        assert(placement_views(out@) =~= Seq::empty());
        while c < self.columns.len()
            invariant
                c <= self.columns.len(),
                self@.project_fits(work@, gap as int),
                viewport_w == work.w - 2 * gap,
                inner_h == work.h - 2 * gap,
                placement_views(out@) == self@.placed_upto(work@, gap as int, c as int),
            decreases self.columns.len() - c,
        {
            let col = &self.columns[c];
            assert(self@.columns[c as int] == col@);
            assert(self@.placing_fits(work@, gap as int, c as int));
            let ghost placed = self@.placed_upto(work@, gap as int, c as int);
            let ghost this = self@.placed_column(work@, gap as int, c as int);
            let meets: bool = col.x < self.offset_x + viewport_w && col.x + col.width
                > self.offset_x;
            let screen_x: i32 = work.x + gap + (col.x - self.offset_x);
            let n: i32 = col.tiles.len() as i32;
            let tile_h: i32 = (inner_h - (n - 1) * gap) / n;
            let pitch: i32 = tile_h + gap;
            let mut i: usize = 0;
            while i < col.tiles.len()
                invariant
                    c < self.columns.len(),
                    col == &self.columns@[c as int],
                    self@.columns[c as int] == col@,
                    i <= col.tiles.len(),
                    n == col.tiles.len(),
                    self@.placing_fits(work@, gap as int, c as int),
                    viewport_w == work.w - 2 * gap,
                    inner_h == work.h - 2 * gap,
                    meets == self@.column_visible(work@, gap as int, c as int),
                    screen_x == work.x + gap + (col.x - self.offset_x),
                    tile_h == tile_height(inner_h as int, n as int, gap as int),
                    pitch == tile_h + gap,
                    placement_views(out@) == placed + this.take(i as int),
                    this == self@.placed_column(work@, gap as int, c as int),
                decreases col.tiles.len() - i,
            {
                let k: i32 = i as i32;
                proof {
                    lemma_step_fits(k as int, n as int, pitch as int, work.y + gap);
                }
                let y: i32 = work.y + gap + k * pitch;
                let h: i32 = if k == n - 1 {
                    inner_h - k * pitch
                } else {
                    tile_h
                };
                let rect = Rect { x: screen_x, y, w: col.width, h };
                let id = col.tiles[i];
                let place = if meets {
                    Placement::Visible(rect)
                } else {
                    Placement::Offscreen(rect)
                };
                let ghost before = out@;
                out.push((id, place));
                proof {
                    assert((id, place@) == self@.placed_tile(work@, gap as int, c as int, i as int));
                    assert(placement_views(out@) =~= placement_views(before).push((id, place@)));
                    assert(this.take(i + 1) =~= this.take(i as int).push(this[i as int]));
                    assert(placed + this.take(i + 1) =~= (placed + this.take(i as int)).push(
                        this[i as int],
                    ));
                }
                i += 1;
            }
            proof {
                assert(this.take(i as int) =~= this);
            }
            c += 1;
        }
        out
    }
}

// ---------------------------------------------------------------------------
// Workspaces
// ---------------------------------------------------------------------------

/// The strips that hold a column, in their order.
pub open spec fn occupied(strips: Seq<StripView>) -> Seq<StripView> {
    strips.filter(|s: StripView| s.columns.len() > 0)
}

impl StackView {
    /// The stack's shape: at the bottom one workspace without columns, above it
    /// none, and the shown one among them.
    pub open spec fn wf(self) -> bool {
        &&& 0 <= self.active < self.strips.len()
        &&& self.strips.last().columns.len() == 0
        &&& forall|k: int|
            0 <= k < self.strips.len() - 1 ==> (#[trigger] self.strips[k]).columns.len() > 0
    }

    /// No window stands on two strips.
    pub open spec fn apart(self) -> bool {
        forall|a: int, b: int, id: WindowId|
            0 <= a < self.strips.len() && 0 <= b < self.strips.len()
                && #[trigger] self.strips[a].contains(id) && #[trigger] self.strips[b].contains(id)
                ==> a == b
    }

    /// Every strip is sound.
    pub open spec fn strips_sound(self) -> bool {
        forall|k: int| 0 <= k < self.strips.len() ==> (#[trigger] self.strips[k]).sound()
    }

    /// The stack's shape, with no column empty and no window in two places.
    pub open spec fn sound(self) -> bool {
        self.wf() && self.strips_sound() && self.apart()
    }

    /// `i` is the first strip that holds `id`.
    pub open spec fn is_strip_of(self, id: WindowId, i: int) -> bool {
        &&& 0 <= i < self.strips.len()
        &&& self.strips[i].contains(id)
        &&& forall|j: int| 0 <= j < i ==> !(#[trigger] self.strips[j]).contains(id)
    }

    /// Some strip holds `id`.
    pub open spec fn contains(self, id: WindowId) -> bool {
        exists|i: int| 0 <= i < self.strips.len() && (#[trigger] self.strips[i]).contains(id)
    }

    /// The first strip that holds `id`.
    pub open spec fn strip_index_of(self, id: WindowId) -> Option<int> {
        if self.contains(id) {
            Some(choose|i: int| self.is_strip_of(id, i))
        } else {
            None
        }
    }

    /// The strip on show.
    pub open spec fn shown(self) -> StripView {
        self.strips[self.active]
    }

    /// Empty strips go, one is added at the bottom, and the strip on show stays
    /// on show; where that one went, the next below takes its place.
    pub open spec fn normalize(self) -> StackView {
        StackView {
            strips: occupied(self.strips).push(empty_strip()),
            active: if 0 <= self.active < self.strips.len() {
                occupied(self.strips.take(self.active)).len() as int
            } else {
                0
            },
        }
    }

    /// The workspace a step down or up shows, stopping at the ends.
    pub open spec fn switched(self, down: bool) -> int {
        if down {
            lesser(self.active + 1, self.strips.len() - 1)
        } else {
            greater(self.active - 1, 0)
        }
    }

    /// The stack one workspace further down or up.
    pub open spec fn switch(self, down: bool) -> StackView {
        StackView { active: self.switched(down), ..self }
    }

    /// Where a window goes that moves down or up; nowhere past the ends.
    pub open spec fn move_target(self, id: WindowId, down: bool) -> Option<int> {
        match self.strip_index_of(id) {
            None => None,
            Some(src) => {
                let dst = if down {
                    src + 1
                } else {
                    src - 1
                };
                if 0 <= dst < self.strips.len() {
                    Some(dst)
                } else {
                    None
                }
            },
        }
    }

    /// The strip `id` moves out of, afterwards.
    pub open spec fn moved_from(self, id: WindowId, viewport_w: int, gap: int) -> StripView {
        self.strips[self.strip_index_of(id).unwrap()].remove_window(id, gap).clamp_offset(viewport_w)
    }

    /// Strip `dst` with `id` moved in right of its last focused window.
    pub open spec fn moved_into(self, dst: int, id: WindowId, width: int, gap: int) -> StripView {
        StripView {
            last_focused: Some(id),
            ..self.strips[dst].insert_column_after(self.strips[dst].last_focused, id, width, gap)
        }
    }

    /// `id` moves to the workspace below or above, which is then shown; nothing
    /// at the ends.
    pub open spec fn move_window(
        self,
        id: WindowId,
        down: bool,
        width: int,
        viewport_w: int,
        gap: int,
    ) -> Option<StackView> {
        match self.move_target(id, down) {
            None => None,
            Some(dst) => Some(
                StackView {
                    strips: self.strips.update(
                        self.strip_index_of(id).unwrap(),
                        self.moved_from(id, viewport_w, gap),
                    ).update(dst, self.moved_into(dst, id, width, gap)),
                    active: dst,
                }.normalize(),
            ),
        }
    }

    /// Moving `id` stays within coordinates.
    pub open spec fn move_fits(
        self,
        id: WindowId,
        down: bool,
        width: int,
        viewport_w: int,
        gap: int,
    ) -> bool {
        match self.move_target(id, down) {
            None => true,
            Some(dst) => {
                let src = self.strip_index_of(id).unwrap();
                &&& self.strips[src].remove_fits(id, gap)
                &&& self.strips[src].remove_window(id, gap).clamp_fits(viewport_w)
                &&& self.strips[dst].insert_fits(self.strips[dst].last_focused, width, gap)
            },
        }
    }
}

/// The strip index, where there is one, is the first strip holding the id.
pub proof fn lemma_strip_index(s: StackView, id: WindowId)
    ensures
        s.strip_index_of(id) matches Some(i) ==> s.is_strip_of(id, i),
        s.strip_index_of(id) is Some <==> s.contains(id),
{
    if s.contains(id) {
        let w = choose|i: int| 0 <= i < s.strips.len() && (#[trigger] s.strips[i]).contains(id);
        lemma_first_strip(s, id, w);
    }
}

proof fn lemma_first_strip(s: StackView, id: WindowId, w: int)
    requires
        0 <= w < s.strips.len(),
        s.strips[w].contains(id),
    ensures
        exists|i: int| s.is_strip_of(id, i),
    decreases w,
{
    if exists|j: int| 0 <= j < w && (#[trigger] s.strips[j]).contains(id) {
        let j = choose|j: int| 0 <= j < w && (#[trigger] s.strips[j]).contains(id);
        lemma_first_strip(s, id, j);
    } else {
        assert(s.is_strip_of(id, w));
    }
}

/// A first strip is the strip index.
pub proof fn lemma_strip_index_is(s: StackView, id: WindowId, i: int)
    requires
        s.is_strip_of(id, i),
    ensures
        s.strip_index_of(id) == Some(i),
{
    assert(s.strips[i].contains(id));
    assert(s.contains(id));
    let c = choose|k: int| s.is_strip_of(id, k);
    assert(s.is_strip_of(id, c));
    if c < i {
        assert(!s.strips[c].contains(id));
    }
    if i < c {
        assert(!s.strips[i].contains(id));
    }
}

/// One more strip is kept exactly where it holds a column.
pub proof fn lemma_occupied_step(strips: Seq<StripView>, k: int)
    requires
        0 <= k < strips.len(),
    ensures
        occupied(strips.take(k + 1)) == if strips[k].columns.len() > 0 {
            occupied(strips.take(k)).push(strips[k])
        } else {
            occupied(strips.take(k))
        },
{
    reveal(Seq::filter);
    assert(strips.take(k + 1).drop_last() =~= strips.take(k));
}

impl Default for Stack {
    /// One empty workspace.
    fn default() -> (r: Stack)
        ensures
            r@ == (StackView { strips: seq![empty_strip()], active: 0 }),
    {
        let mut strips: Vec<Strip> = Vec::new();
        strips.push(Strip::default());
        let r = Stack { strips, active: 0 };
        assert(r@.strips =~= seq![empty_strip()]);
        r
    }
}

impl Stack {
    /// The strip on show, for changing.
    pub fn active_mut(&mut self) -> (r: &mut Strip)
        requires
            old(self).active < old(self).strips.len(),
        ensures
            *r == old(self).strips@[old(self).active as int],
            final(self).strips@ == old(self).strips@.update(old(self).active as int, *final(r)),
            final(self).active == old(self).active,
    {
        &mut self.strips[self.active]
    }

    /// The first strip that holds `id`.
    pub fn strip_index_of(&self, id: WindowId) -> (r: Option<usize>)
        ensures
            match r {
                Some(i) => i < self.strips.len() && self@.strip_index_of(id) == Some(i as int),
                None => self@.strip_index_of(id) is None,
            },
    {
        let mut i: usize = 0;
        while i < self.strips.len()
            invariant
                i <= self.strips.len(),
                forall|j: int| 0 <= j < i ==> !(#[trigger] self@.strips[j]).contains(id),
            decreases self.strips.len() - i,
        {
            assert(self@.strips[i as int] == self.strips@[i as int]@);
            if self.strips[i].contains(id) {
                proof {
                    lemma_strip_index_is(self@, id, i as int);
                }
                return Some(i);
            }
            i += 1;
        }
        proof {
            lemma_strip_index(self@, id);
        }
        None
    }

    /// Some strip holds `id`.
    pub fn contains(&self, id: WindowId) -> (r: bool)
        ensures
            r == self@.contains(id),
    {
        proof {
            lemma_strip_index(self@, id);
        }
        self.strip_index_of(id).is_some()
    }

    /// Drops the empty strips, adds one at the bottom and keeps showing what was
    /// shown.
    pub fn normalize(&mut self)
        requires
            old(self).strips.len() < usize::MAX,
        ensures
            final(self)@ == old(self)@.normalize(),
    {
        let ghost before = self@;
        let ghost old_strips = self.strips@;
        let mut new_active: usize = 0;
        let mut i: usize = 0;
        let mut seen: usize = 0;
        let total: usize = self.strips.len();
        proof {
            reveal(Seq::filter);
            assert(before.strips.take(0) =~= Seq::empty());
            assert(old_strips.skip(0) =~= old_strips);
            assert(strip_views(self.strips@) =~= occupied(before.strips.take(0))
                + before.strips.skip(0));
        }
        while seen < total
            invariant
                before == old(self)@,
                self.active == old(self).active,
                total == before.strips.len(),
                seen <= total,
                i == occupied(before.strips.take(seen as int)).len(),
                i <= seen,
                self.strips@.len() == i + (total - seen),
                strip_views(self.strips@) == occupied(before.strips.take(seen as int))
                    + before.strips.skip(seen as int),
                new_active == if (self.active as int) < seen {
                    occupied(before.strips.take(self.active as int)).len() as int
                } else {
                    0int
                },
            decreases total - seen,
        {
            let ghost views = strip_views(self.strips@);
            proof {
                lemma_occupied_step(before.strips, seen as int);
                assert(views[i as int] == before.strips.skip(seen as int)[0]);
                assert(self.strips@[i as int]@ == before.strips[seen as int]);
            }
            if seen == self.active {
                new_active = i;
            }
            if self.strips[i].columns.len() > 0 {
                proof {
                    assert(views =~= occupied(before.strips.take(seen + 1)) + before.strips.skip(
                        seen + 1,
                    ));
                }
                i += 1;
            } else {
                let _ = self.strips.remove(i);
                proof {
                    assert(strip_views(self.strips@) =~= views.remove(i as int));
                    assert(views.remove(i as int) =~= occupied(before.strips.take(seen as int))
                        + before.strips.skip(seen + 1));
                    assert(strip_views(self.strips@) =~= occupied(before.strips.take(seen + 1))
                        + before.strips.skip(seen + 1));
                }
            }
            seen += 1;
        }
        self.strips.push(Strip::default());
        self.active = new_active;
        proof {
            assert(before.strips.take(total as int) =~= before.strips);
            assert(self@.strips =~= before.normalize().strips);
        }
    }

    /// Shows the workspace below or above, stopping at the ends. Says whether
    /// that is another one.
    pub fn switch(&mut self, down: bool) -> (r: bool)
        requires
            old(self).strips.len() > 0,
            down ==> old(self).active < usize::MAX,
        ensures
            final(self)@ == old(self)@.switch(down),
            r == (final(self)@.active != old(self)@.active),
    {
        let last: usize = self.strips.len() - 1;
        let next: usize = if down {
            if self.active + 1 <= last {
                self.active + 1
            } else {
                last
            }
        } else if self.active > 0 {
            self.active - 1
        } else {
            0
        };
        let changed: bool = next != self.active;
        self.active = next;
        changed
    }

    /// Moves `id` to the workspace below or above and shows it there. Moving
    /// below the last one makes a new one. Says whether it moved.
    pub fn move_window(
        &mut self,
        id: WindowId,
        down: bool,
        width: i32,
        viewport_w: i32,
        gap: i32,
    ) -> (r: bool)
        requires
            old(self).strips.len() < usize::MAX,
            old(self)@.move_fits(id, down, width as int, viewport_w as int, gap as int),
        ensures
            match old(self)@.move_window(id, down, width as int, viewport_w as int, gap as int) {
                Some(v) => r && final(self)@ == v,
                None => !r && final(self)@ == old(self)@,
            },
    {
        let ghost before = self@;
        let ghost old_strips = self.strips@;
        let src: usize = match self.strip_index_of(id) {
            Some(i) => i,
            None => {
                return false;
            },
        };
        let dst: usize = if down {
            src + 1
        } else if src > 0 {
            src - 1
        } else {
            return false;
        };
        if dst >= self.strips.len() {
            return false;
        }
        proof {
            assert(before.strips[src as int] == old_strips[src as int]@);
            assert(before.strips[dst as int] == old_strips[dst as int]@);
        }
        let _ = self.strips[src].remove_window(id, gap);
        self.strips[src].clamp_offset(viewport_w);
        let anchor = self.strips[dst].last_focused;
        self.strips[dst].insert_column_after(anchor, id, width, gap);
        self.strips[dst].last_focused = Some(id);
        self.active = dst;
        proof {
            let strips = before.strips.update(
                src as int,
                before.moved_from(id, viewport_w as int, gap as int),
            ).update(dst as int, before.moved_into(dst as int, id, width as int, gap as int));
            assert forall|k: int| 0 <= k < strips.len() implies #[trigger] self@.strips[k]
                == strips[k] by {
                if k != src && k != dst {
                    assert(self.strips@[k] == old_strips[k]);
                }
            }
            assert(self@.strips =~= strips);
        }
        self.normalize();
        true
    }
}

} // verus!
