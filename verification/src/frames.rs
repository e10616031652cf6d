//! The windows that draw thick frames.

use vstd::prelude::*;

use crate::layout::RectView;
use crate::transition::Item;

verus! {

/// What a frame window shows: its width and height, how thick the frame is, and
/// its colour.
#[derive(Debug, Clone, Copy, PartialEq, Eq, Structural)]
pub struct Shape {
    pub w: i32,
    pub h: i32,
    pub thickness: i32,
    pub color: u32,
}

/// A frame window put round a window.
#[derive(Debug, Clone, Copy, PartialEq, Eq, Structural)]
pub struct FramePlace {
    /// The window that the frame stands right below.
    pub owner: u64,
    pub x: i32,
    pub y: i32,
    pub shape: Shape,
    /// It has to be drawn anew.
    pub redraw: bool,
}

/// The frame windows there are, and what each shows.
#[derive(Debug)]
pub struct FramePool {
    shapes: Vec<Shape>,
}

// ---------------------------------------------------------------------------
// Model
// ---------------------------------------------------------------------------

/// How thick frames are drawn: a pixel at least.
pub open spec fn drawn_thickness(thickness: i32) -> int {
    if thickness < 1 {
        1
    } else {
        thickness as int
    }
}

/// The rectangle of the frame round a window.
pub open spec fn around(r: RectView, t: int) -> RectView {
    RectView { x: r.x - t, y: r.y - t, w: r.w + 2 * t, h: r.h + 2 * t }
}

/// The frames fit coordinates.
pub open spec fn frames_fit(items: Seq<Item>, thickness: i32) -> bool {
    forall|i: int|
        0 <= i < items.len() ==> around(
            (#[trigger] items[i]).rect@,
            drawn_thickness(thickness),
        ).fits()
}

/// What a frame round a window shows.
pub open spec fn shape_of(item: Item, thickness: i32) -> Shape {
    let r = around(item.rect@, drawn_thickness(thickness));
    Shape {
        w: r.w as i32,
        h: r.h as i32,
        thickness: drawn_thickness(thickness) as i32,
        color: item.color,
    }
}

/// The frame of an item, drawn anew where the window showed another shape.
pub open spec fn place_of(item: Item, thickness: i32, shown: Shape) -> FramePlace {
    let r = around(item.rect@, drawn_thickness(thickness));
    FramePlace {
        owner: item.owner,
        x: r.x as i32,
        y: r.y as i32,
        shape: shape_of(item, thickness),
        redraw: shown != shape_of(item, thickness),
    }
}

/// A colour as the drawing library has it: opaque, red before green before blue.
pub open spec fn opaque_color(color: u32) -> int {
    0xFF00_0000 + (color % 256) * 65536 + (color / 256 % 256) * 256 + color / 65536 % 256
}

impl View for FramePool {
    type V = Seq<Shape>;

    closed spec fn view(&self) -> Seq<Shape> {
        self.shapes@
    }
}

// ---------------------------------------------------------------------------
// Operations
// ---------------------------------------------------------------------------

/// Tests whether the frames fit coordinates.
pub fn can_frame(items: &Vec<Item>, thickness: i32) -> (r: bool)
    ensures
        r == frames_fit(items@, thickness),
{
    let t: i64 = if thickness < 1 {
        1
    } else {
        thickness as i64
    };
    let mut i: usize = 0;
    while i < items.len()
        invariant
            i <= items.len(),
            t == drawn_thickness(thickness),
            1 <= t <= i32::MAX,
            forall|k: int|
                0 <= k < i ==> around(
                    (#[trigger] items@[k]).rect@,
                    drawn_thickness(thickness),
                ).fits(),
        decreases items.len() - i,
    {
        let r = items[i].rect;
        let x: i64 = r.x as i64 - t;
        let y: i64 = r.y as i64 - t;
        let w: i64 = r.w as i64 + 2 * t;
        let h: i64 = r.h as i64 + 2 * t;
        assert(items@[i as int].rect@ == r@);
        if x < -0x8000_0000 || y < -0x8000_0000 || w > 0x7FFF_FFFF || h > 0x7FFF_FFFF {
            assert(!around(items@[i as int].rect@, drawn_thickness(thickness)).fits());
            return false;
        }
        i += 1;
    }
    true
}

impl FramePool {
    /// No frame windows.
    pub fn new() -> (r: FramePool)
        ensures
            r@ == Seq::<Shape>::empty(),
    {
        FramePool { shapes: Vec::new() }
    }

    /// How many frame windows there are.
    pub fn len(&self) -> (r: usize)
        ensures
            r == self@.len(),
    {
        self.shapes.len()
    }

    /// Takes note of a new frame window, which shows nothing yet.
    pub fn grow(&mut self)
        ensures
            final(self)@ == old(self)@.push(Shape { w: 0, h: 0, thickness: 0, color: 0 }),
    {
        self.shapes.push(Shape { w: 0, h: 0, thickness: 0, color: 0 });
    }

    /// Puts frames round windows: frame window `i` goes round item `i`. The frame
    /// windows left over are hidden.
    pub fn place(&mut self, items: &Vec<Item>, thickness: i32) -> (r: Vec<FramePlace>)
        requires
            items.len() <= old(self)@.len(),
            frames_fit(items@, thickness),
        ensures
            r.len() == items.len(),
            forall|i: int|
                0 <= i < items.len() ==> #[trigger] r@[i] == place_of(
                    items@[i],
                    thickness,
                    old(self)@[i],
                ),
            final(self)@.len() == old(self)@.len(),
            forall|i: int|
                0 <= i < old(self)@.len() ==> #[trigger] final(self)@[i] == if i < items.len() {
                    shape_of(items@[i], thickness)
                } else {
                    old(self)@[i]
                },
    {
        let t: i32 = if thickness < 1 {
            1
        } else {
            thickness
        };
        let mut out: Vec<FramePlace> = Vec::new();
        let mut i: usize = 0;
        while i < items.len()
            invariant
                i <= items.len() <= self.shapes.len(),
                self@ == self.shapes@,
                self@.len() == old(self)@.len(),
                t == drawn_thickness(thickness),
                frames_fit(items@, thickness),
                out.len() == i,
                forall|k: int|
                    0 <= k < i ==> #[trigger] out@[k] == place_of(
                        items@[k],
                        thickness,
                        old(self)@[k],
                    ),
                forall|k: int|
                    0 <= k < self@.len() ==> #[trigger] self@[k] == if k < i {
                        shape_of(items@[k], thickness)
                    } else {
                        old(self)@[k]
                    },
            decreases items.len() - i,
        {
            let r = items[i].rect;
            assert(around(items@[i as int].rect@, t as int).fits());
            let w: i64 = r.w as i64 + 2 * (t as i64);
            let h: i64 = r.h as i64 + 2 * (t as i64);
            let shape = Shape { w: w as i32, h: h as i32, thickness: t, color: items[i].color };
            assert(shape == shape_of(items@[i as int], thickness));
            assert(self@[i as int] == old(self)@[i as int]);
            let redraw: bool = self.shapes[i] != shape;
            out.push(
                FramePlace { owner: items[i].owner, x: r.x - t, y: r.y - t, shape, redraw },
            );
            self.shapes[i] = shape;
            i += 1;
        }
        out
    }
}

/// A colour as the drawing library has it.
pub fn argb(color: u32) -> (r: u32)
    ensures
        r == opaque_color(color),
{
    assert((0xFF00_0000u32 | ((color & 0xFF) << 16) | (((color >> 8) & 0xFF) << 8) | ((color >> 16)
        & 0xFF)) == 0xFF00_0000 + (color % 256) * 65536 + (color / 256 % 256) * 256 + color / 65536
        % 256) by (bit_vector);
    0xFF00_0000 | ((color & 0xFF) << 16) | (((color >> 8) & 0xFF) << 8) | ((color >> 16) & 0xFF)
}

// ---------------------------------------------------------------------------
// Laws
// ---------------------------------------------------------------------------

/// A frame lies round its window: the window is inside, and the frame reaches as
/// far past it on each side as it is thick.
pub proof fn law_frame_lies_around(r: RectView, t: int)
    requires
        t >= 0,
    ensures
        around(r, t).covers(r),
        around(r, t).right() == r.right() + t,
        around(r, t).bottom() == r.bottom() + t,
{
}

/// A frame that stands still is not drawn again: shown the same items once more,
/// no frame window is drawn anew.
pub proof fn law_still_frame_is_kept(item: Item, thickness: i32)
    ensures
        !place_of(item, thickness, shape_of(item, thickness)).redraw,
{
}

/// A frame stands right below its own window, as far left of it and above it as it
/// is thick, a pixel at least, and is drawn anew exactly where its width, height,
/// thickness or colour is another than the frame window shows.
pub proof fn law_frame_of_item(item: Item, thickness: i32, shown: Shape)
    requires
        around(item.rect@, drawn_thickness(thickness)).fits(),
    ensures
        ({
            let p = place_of(item, thickness, shown);
            let t = if thickness >= 1 {
                thickness as int
            } else {
                1
            };
            &&& p.owner == item.owner
            &&& p.x == item.rect.x - t
            &&& p.y == item.rect.y - t
            &&& p.shape.w == item.rect.w + 2 * t
            &&& p.shape.h == item.rect.h + 2 * t
            &&& p.shape.thickness == t
            &&& p.shape.color == item.color
            &&& p.redraw <==> shown.w != p.shape.w || shown.h != p.shape.h || shown.thickness
                != p.shape.thickness || shown.color != p.shape.color
        }),
{
}

} // verus!
