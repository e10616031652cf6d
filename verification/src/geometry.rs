//! Rectangles on the virtual desktop.

use vstd::prelude::*;

use crate::arith::{clamped, greater, in_i32, lesser};
use crate::layout::{Placement, PlacementView, Rect, RectView};
use crate::restore::fits_i32;

verus! {

/// A rectangle by its edges.
#[derive(Debug, Clone, Copy, PartialEq, Eq, Structural)]
pub struct Edges {
    pub left: i32,
    pub top: i32,
    pub right: i32,
    pub bottom: i32,
}

/// How far a window reaches past its visible frame on each side.
#[derive(Debug, Clone, Copy, PartialEq, Eq, Structural)]
pub struct Border {
    pub left: i32,
    pub top: i32,
    pub right: i32,
    pub bottom: i32,
}

/// Space kept free at the edges of a work area.
#[derive(Debug, Clone, Copy, PartialEq, Eq, Structural)]
pub struct Margin {
    pub top: i32,
    pub right: i32,
    pub bottom: i32,
    pub left: i32,
}

/// How far outside an edge a hidden window stands.
pub const CLEARANCE: i32 = 100;

/// The least width and height of a work area.
pub const LEAST_EXTENT: i32 = 200;

// ---------------------------------------------------------------------------
// Model
// ---------------------------------------------------------------------------

impl RectView {
    /// Every part fits a coordinate.
    pub open spec fn fits(self) -> bool {
        in_i32(self.x) && in_i32(self.y) && in_i32(self.w) && in_i32(self.h)
    }

    /// The coordinate just past the right edge.
    pub open spec fn right(self) -> int {
        self.x + self.w
    }

    /// The coordinate just past the bottom edge.
    pub open spec fn bottom(self) -> int {
        self.y + self.h
    }

    /// The two rectangles share a point of their insides.
    pub open spec fn meets(self, other: RectView) -> bool {
        &&& self.x < other.right()
        &&& self.right() > other.x
        &&& self.y < other.bottom()
        &&& self.bottom() > other.y
    }

    /// The pixel lies in the rectangle.
    pub open spec fn has_pixel(self, x: int, y: int) -> bool {
        self.x <= x < self.right() && self.y <= y < self.bottom()
    }

    /// The least rectangle around both.
    pub open spec fn join(self, other: RectView) -> RectView {
        let x = lesser(self.x, other.x);
        let y = lesser(self.y, other.y);
        RectView {
            x,
            y,
            w: greater(self.right(), other.right()) - x,
            h: greater(self.bottom(), other.bottom()) - y,
        }
    }

    /// `other` lies within this rectangle.
    pub open spec fn covers(self, other: RectView) -> bool {
        &&& self.x <= other.x
        &&& self.y <= other.y
        &&& other.right() <= self.right()
        &&& other.bottom() <= self.bottom()
    }
}

/// The desktop assumed where there is no monitor.
pub open spec fn assumed_view() -> RectView {
    RectView { x: 0, y: 0, w: 1920, h: 1080 }
}

impl Edges {
    /// The rectangle between the edges.
    pub open spec fn rect(self) -> RectView {
        RectView {
            x: self.left as int,
            y: self.top as int,
            w: self.right - self.left,
            h: self.bottom - self.top,
        }
    }
}

/// A frame rectangle grown to the window rectangle.
pub open spec fn expanded(r: RectView, b: Border) -> RectView {
    RectView {
        x: r.x - b.left,
        y: r.y - b.top,
        w: r.w + b.left + b.right,
        h: r.h + b.top + b.bottom,
    }
}

/// What a window reaches past its frame on each side.
pub open spec fn border_between(window: Edges, frame: Edges) -> (int, int, int, int) {
    (
        frame.left - window.left,
        frame.top - window.top,
        window.right - frame.right,
        window.bottom - frame.bottom,
    )
}

/// A position along one axis moved next to the span it lies outside of.
pub open spec fn near_span(pos: int, len: int, start: int, extent: int) -> int {
    if pos >= start + extent {
        start + extent + CLEARANCE
    } else if pos + len <= start {
        start - len - CLEARANCE
    } else {
        pos
    }
}

/// A rectangle off `own` moved just outside its edges.
pub open spec fn near(r: RectView, own: RectView) -> RectView {
    RectView {
        x: near_span(r.x, r.w, own.x, own.w),
        y: near_span(r.y, r.h, own.y, own.h),
        ..r
    }
}

/// The rectangle, moved onto the work area where no part of it lies there.
pub open spec fn onto(r: RectView, work: RectView) -> RectView {
    if r.meets(work) {
        r
    } else {
        RectView {
            x: clamped(r.x, work.x, greater(work.right() - r.w, work.x)),
            y: clamped(r.y, work.y, greater(work.bottom() - r.h, work.y)),
            ..r
        }
    }
}

/// The work area inside the margin.
pub open spec fn inside_margin(work: RectView, m: Margin) -> RectView {
    RectView {
        x: work.x + m.left,
        y: work.y + m.top,
        w: greater(work.w - m.left - m.right, LEAST_EXTENT as int),
        h: greater(work.h - m.top - m.bottom, LEAST_EXTENT as int),
    }
}

/// Where a placed tile stands: a hidden one beyond the whole desktop, on the
/// side it left the work area by.
pub open spec fn parked(p: PlacementView, work: RectView, bounds: RectView) -> RectView {
    match p {
        PlacementView::Visible(r) => r,
        PlacementView::Offscreen(r) => RectView {
            x: if r.x < work.x {
                bounds.x - r.w - CLEARANCE
            } else {
                bounds.right() + CLEARANCE
            },
            ..r
        },
    }
}

// ---------------------------------------------------------------------------
// Operations
// ---------------------------------------------------------------------------

/// The desktop assumed where there is no monitor.
pub fn assumed_desktop() -> (r: Rect)
    ensures
        r@ == assumed_view(),
{
    Rect { x: 0, y: 0, w: 1920, h: 1080 }
}

/// The rectangle between the edges.
pub fn to_rect(e: Edges) -> (r: Rect)
    requires
        e.rect().fits(),
    ensures
        r@ == e.rect(),
{
    Rect { x: e.left, y: e.top, w: e.right - e.left, h: e.bottom - e.top }
}

/// Grows a frame rectangle to the window rectangle.
pub fn expand(r: Rect, b: Border) -> (out: Rect)
    requires
        expanded(r@, b).fits(),
    ensures
        out@ == expanded(r@, b),
{
    let w: i64 = r.w as i64 + b.left as i64 + b.right as i64;
    let h: i64 = r.h as i64 + b.top as i64 + b.bottom as i64;
    Rect { x: r.x - b.left, y: r.y - b.top, w: w as i32, h: h as i32 }
}

/// What a window reaches past its frame on each side.
pub fn frame_border(window: Edges, frame: Edges) -> (b: Border)
    requires
        ({
            let d = border_between(window, frame);
            in_i32(d.0) && in_i32(d.1) && in_i32(d.2) && in_i32(d.3)
        }),
    ensures
        (b.left as int, b.top as int, b.right as int, b.bottom as int) == border_between(
            window,
            frame,
        ),
{
    Border {
        left: frame.left - window.left,
        top: frame.top - window.top,
        right: window.right - frame.right,
        bottom: window.bottom - frame.bottom,
    }
}

/// The two rectangles share a point of their insides.
pub fn intersects(r: Rect, work: Rect) -> (b: bool)
    ensures
        b == r@.meets(work@),
{
    let left: i64 = r.x as i64;
    let top: i64 = r.y as i64;
    let work_left: i64 = work.x as i64;
    let work_top: i64 = work.y as i64;
    left < work_left + work.w as i64 && left + r.w as i64 > work_left && top < work_top
        + work.h as i64 && top + r.h as i64 > work_top
}

/// A position along one axis moved next to the span it lies outside of.
fn step_near(pos: i32, len: i32, start: i32, extent: i32) -> (r: i32)
    requires
        in_i32(near_span(pos as int, len as int, start as int, extent as int)),
    ensures
        r == near_span(pos as int, len as int, start as int, extent as int),
{
    let p: i64 = pos as i64;
    let s: i64 = start as i64;
    if p >= s + extent as i64 {
        (s + extent as i64 + CLEARANCE as i64) as i32
    } else if p + len as i64 <= s {
        (s - len as i64 - CLEARANCE as i64) as i32
    } else {
        pos
    }
}

/// Moves a rectangle off `own` just outside its edges, so that an animation
/// from or to it covers no more than one monitor.
pub fn clamp_near(r: Rect, own: Rect) -> (out: Rect)
    requires
        near(r@, own@).fits(),
    ensures
        out@ == near(r@, own@),
{
    Rect {
        x: step_near(r.x, r.w, own.x, own.w),
        y: step_near(r.y, r.h, own.y, own.h),
        w: r.w,
        h: r.h,
    }
}

/// A start moved so that the span lies in the work span, or at its start where
/// it is longer.
fn step_onto(pos: i32, len: i32, start: i32, extent: i32) -> (r: i32)
    requires
        in_i32(clamped(pos as int, start as int, greater(start + extent - len, start as int))),
    ensures
        r == clamped(pos as int, start as int, greater(start + extent - len, start as int)),
{
    let last: i64 = start as i64 + extent as i64 - len as i64;
    let hi: i64 = if last >= start as i64 {
        last
    } else {
        start as i64
    };
    if pos < start {
        start
    } else if pos as i64 > hi {
        hi as i32
    } else {
        pos
    }
}

/// Moves a window rectangle of which no part lies on the work area onto it.
pub fn clamp_into_work(r: Edges, work: Rect) -> (out: Edges)
    requires
        r.rect().fits(),
        onto(r.rect(), work@).fits(),
        in_i32(onto(r.rect(), work@).right()),
        in_i32(onto(r.rect(), work@).bottom()),
    ensures
        out.rect() == onto(r.rect(), work@),
{
    let as_rect = to_rect(r);
    if intersects(as_rect, work) {
        return r;
    }
    let x: i32 = step_onto(r.left, as_rect.w, work.x, work.w);
    let y: i32 = step_onto(r.top, as_rect.h, work.y, work.h);
    Edges { left: x, top: y, right: x + as_rect.w, bottom: y + as_rect.h }
}

/// The work area inside the margin, never smaller than the least extent.
pub fn effective_work(work: Rect, m: Margin) -> (r: Rect)
    requires
        inside_margin(work@, m).fits(),
    ensures
        r@ == inside_margin(work@, m),
{
    let w: i64 = work.w as i64 - m.left as i64 - m.right as i64;
    let h: i64 = work.h as i64 - m.top as i64 - m.bottom as i64;
    Rect {
        x: work.x + m.left,
        y: work.y + m.top,
        w: if w >= LEAST_EXTENT as i64 {
            w as i32
        } else {
            LEAST_EXTENT
        },
        h: if h >= LEAST_EXTENT as i64 {
            h as i32
        } else {
            LEAST_EXTENT
        },
    }
}

/// The least rectangle around both.
pub fn join_rects(a: Rect, b: Rect) -> (r: Rect)
    requires
        a@.join(b@).fits(),
    ensures
        r@ == a@.join(b@),
{
    let x: i32 = if a.x <= b.x {
        a.x
    } else {
        b.x
    };
    let y: i32 = if a.y <= b.y {
        a.y
    } else {
        b.y
    };
    let ar: i64 = a.x as i64 + a.w as i64;
    let br: i64 = b.x as i64 + b.w as i64;
    let ab: i64 = a.y as i64 + a.h as i64;
    let bb: i64 = b.y as i64 + b.h as i64;
    let right: i64 = if ar >= br {
        ar
    } else {
        br
    };
    let bottom: i64 = if ab >= bb {
        ab
    } else {
        bb
    };
    Rect { x, y, w: (right - x as i64) as i32, h: (bottom - y as i64) as i32 }
}

/// Where a placed tile stands: a hidden one beyond the whole desktop.
pub fn park(p: Placement, work: Rect, bounds: Rect) -> (r: Rect)
    requires
        parked(p@, work@, bounds@).fits(),
    ensures
        r@ == parked(p@, work@, bounds@),
{
    match p {
        Placement::Visible(r) => r,
        Placement::Offscreen(r) => {
            let x: i64 = if r.x < work.x {
                bounds.x as i64 - r.w as i64 - CLEARANCE as i64
            } else {
                bounds.x as i64 + bounds.w as i64 + CLEARANCE as i64
            };
            Rect { x: x as i32, y: r.y, w: r.w, h: r.h }
        },
    }
}

/// Tests whether the least rectangle around the two fits coordinates.
pub fn can_join(a: Rect, b: Rect) -> (r: bool)
    ensures
        r == a@.join(b@).fits(),
{
    let x: i32 = if a.x <= b.x {
        a.x
    } else {
        b.x
    };
    let y: i32 = if a.y <= b.y {
        a.y
    } else {
        b.y
    };
    let ar: i64 = a.x as i64 + a.w as i64;
    let br: i64 = b.x as i64 + b.w as i64;
    let ab: i64 = a.y as i64 + a.h as i64;
    let bb: i64 = b.y as i64 + b.h as i64;
    let right: i64 = if ar >= br {
        ar
    } else {
        br
    };
    let bottom: i64 = if ab >= bb {
        ab
    } else {
        bb
    };
    fits_i32(right - x as i64) && fits_i32(bottom - y as i64)
}

/// Tests whether the parked rectangle fits coordinates.
pub fn can_park(p: Placement, work: Rect, bounds: Rect) -> (r: bool)
    ensures
        r == parked(p@, work@, bounds@).fits(),
{
    match p {
        Placement::Visible(_) => true,
        Placement::Offscreen(r) => {
            let x: i64 = if r.x < work.x {
                bounds.x as i64 - r.w as i64 - CLEARANCE as i64
            } else {
                bounds.x as i64 + bounds.w as i64 + CLEARANCE as i64
            };
            fits_i32(x)
        },
    }
}

/// The top of a placed tile, which parking keeps.
pub(crate) fn row_of(p: Placement) -> (y: i32)
    ensures
        forall|work: RectView, bounds: RectView| #[trigger] parked(p@, work, bounds).y == y,
{
    match p {
        Placement::Visible(r) => r.y,
        Placement::Offscreen(r) => r.y,
    }
}

/// Tests whether a rectangle moved just outside another fits coordinates.
pub fn can_near(r: Rect, own: Rect) -> (b: bool)
    ensures
        b == near(r@, own@).fits(),
{
    can_step_near(r.x, r.w, own.x, own.w) && can_step_near(r.y, r.h, own.y, own.h)
}

fn can_step_near(pos: i32, len: i32, start: i32, extent: i32) -> (b: bool)
    ensures
        b == in_i32(near_span(pos as int, len as int, start as int, extent as int)),
{
    let end: i64 = start as i64 + extent as i64;
    if pos as i64 >= end {
        fits_i32(end + CLEARANCE as i64)
    } else if pos as i64 + len as i64 <= start as i64 {
        fits_i32(start as i64 - len as i64 - CLEARANCE as i64)
    } else {
        true
    }
}

// ---------------------------------------------------------------------------
// Laws
// ---------------------------------------------------------------------------

/// Growing a frame by its window's border gives the window back.
pub proof fn law_expand_restores_window(window: Edges, frame: Edges, b: Border)
    requires
        (b.left as int, b.top as int, b.right as int, b.bottom as int) == border_between(
            window,
            frame,
        ),
    ensures
        expanded(frame.rect(), b) == window.rect(),
{
}

/// A window put back keeps its size and is on the work area; one that was there
/// stays where it was.
pub proof fn law_onto_reaches_work(r: RectView, work: RectView)
    requires
        r.w > 0,
        r.h > 0,
        work.w > 0,
        work.h > 0,
    ensures
        onto(r, work).meets(work),
        onto(r, work).w == r.w,
        onto(r, work).h == r.h,
        r.meets(work) ==> onto(r, work) == r,
        !r.meets(work) && r.w <= work.w && r.h <= work.h ==> work.covers(onto(r, work)),
{
}

/// A window moved onto the work area is moved along each axis only as far as it
/// takes to lie in it there, or to start where it starts if it is longer.
pub proof fn law_onto_moves_no_further(r: RectView, work: RectView)
    requires
        !r.meets(work),
        work.w > 0,
        work.h > 0,
    ensures
        r.w > work.w ==> onto(r, work).x == work.x,
        work.x <= r.x && r.x + r.w <= work.x + work.w ==> onto(r, work).x == r.x,
        r.x < work.x ==> onto(r, work).x == work.x,
        r.w <= work.w && r.x + r.w > work.x + work.w ==> onto(r, work).x + r.w == work.x + work.w,
        r.h > work.h ==> onto(r, work).y == work.y,
        work.y <= r.y && r.y + r.h <= work.y + work.h ==> onto(r, work).y == r.y,
        r.y < work.y ==> onto(r, work).y == work.y,
        r.h <= work.h && r.y + r.h > work.y + work.h ==> onto(r, work).y + r.h == work.y + work.h,
{
}

/// A hidden tile keeps its size and touches no part of the desktop.
pub proof fn law_parked_off_desktop(
    r: RectView,
    work: RectView,
    bounds: RectView,
    screen: RectView,
)
    requires
        bounds.covers(screen),
    ensures
        ({
            let p = parked(PlacementView::Offscreen(r), work, bounds);
            p.w == r.w && p.h == r.h && p.y == r.y && !p.meets(screen)
        }),
{
}

/// A rectangle moved next to a monitor it did not touch keeps its size, still
/// does not touch it, and is no further than the clearance from its edges.
pub proof fn law_near_stays_outside(r: RectView, own: RectView)
    requires
        !r.meets(own),
    ensures
        !near(r, own).meets(own),
        near(r, own).w == r.w,
        near(r, own).h == r.h,
        0 <= r.w && 0 <= own.w ==> {
            &&& own.x - CLEARANCE <= near(r, own).right()
            &&& near(r, own).x <= own.right() + CLEARANCE
        },
        0 <= r.h && 0 <= own.h ==> {
            &&& own.y - CLEARANCE <= near(r, own).bottom()
            &&& near(r, own).y <= own.bottom() + CLEARANCE
        },
{
}

/// Along an axis on which a rectangle lies outside a monitor it is moved to just
/// past the same edge; along one on which the two overlap it stays.
pub proof fn law_near_keeps_side(r: RectView, own: RectView)
    ensures
        r.x >= own.x + own.w ==> near(r, own).x == own.x + own.w + 100,
        r.x < own.x + own.w && r.x + r.w <= own.x ==> near(r, own).x + r.w == own.x - 100,
        r.x < own.x + own.w && own.x < r.x + r.w ==> near(r, own).x == r.x,
        r.y >= own.y + own.h ==> near(r, own).y == own.y + own.h + 100,
        r.y < own.y + own.h && r.y + r.h <= own.y ==> near(r, own).y + r.h == own.y - 100,
        r.y < own.y + own.h && own.y < r.y + r.h ==> near(r, own).y == r.y,
        near(r, own).w == r.w,
        near(r, own).h == r.h,
{
}

/// Two rectangles meet exactly where some pixel lies in both.
pub proof fn law_meeting_rectangles_share_a_pixel(r: RectView, other: RectView)
    ensures
        0 < r.w && 0 < r.h && 0 < other.w && 0 < other.h ==> (r.meets(other)
            <==> exists|x: int, y: int|
            #[trigger] r.has_pixel(x, y) && other.has_pixel(x, y)),
        r.meets(other) == other.meets(r),
{
    if 0 < r.w && 0 < r.h && 0 < other.w && 0 < other.h && r.meets(other) {
        let x = greater(r.x, other.x);
        let y = greater(r.y, other.y);
        assert(r.has_pixel(x, y) && other.has_pixel(x, y));
    }
}

/// A tile that shows stands at its own rectangle.
pub proof fn law_visible_tiles_are_not_moved(r: RectView, work: RectView, bounds: RectView)
    ensures
        parked(PlacementView::Visible(r), work, bounds) == r,
{
}

/// A margin is left free on each side; what it leaves is 200 pixels wide and high
/// at least.
pub proof fn law_margin_is_left_free(work: RectView, m: Margin)
    ensures
        ({
            let r = inside_margin(work, m);
            &&& r.x == work.x + m.left
            &&& r.y == work.y + m.top
            &&& r.w >= 200 && r.h >= 200
            &&& work.w - m.left - m.right >= 200 ==> r.x + r.w == work.x + work.w - m.right
            &&& work.h - m.top - m.bottom >= 200 ==> r.y + r.h == work.y + work.h - m.bottom
            &&& work.w - m.left - m.right < 200 ==> r.w == 200
            &&& work.h - m.top - m.bottom < 200 ==> r.h == 200
        }),
{
}

/// A window grown by its border reaches past its frame by the border on each
/// side.
pub proof fn law_expand_reaches_past_frame(r: RectView, b: Border)
    ensures
        ({
            let e = expanded(r, b);
            &&& e.x == r.x - b.left
            &&& e.y == r.y - b.top
            &&& e.x + e.w == r.x + r.w + b.right
            &&& e.y + e.h == r.y + r.h + b.bottom
        }),
{
}

/// The joined rectangle covers both.
pub proof fn law_join_covers(a: RectView, b: RectView)
    ensures
        a.join(b).covers(a),
        a.join(b).covers(b),
{
}

} // verus!
