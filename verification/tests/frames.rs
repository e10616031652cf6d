use emakiwm::frames::{argb, can_frame, FramePool, Shape};
use emakiwm::layout::Rect;
use emakiwm::transition::Item;

fn item(owner: u64, x: i32, w: i32) -> Item {
    Item {
        owner,
        rect: Rect { x, y: 10, w, h: 200 },
        color: 0x00FF_8000,
    }
}

#[test]
fn frames_lie_round_their_windows() {
    let mut pool = FramePool::new();
    pool.grow();
    pool.grow();
    assert_eq!(pool.len(), 2);
    let places = pool.place(&vec![item(7, 100, 300)], 4);
    assert_eq!(places.len(), 1);
    let p = places[0];
    assert_eq!((p.owner, p.x, p.y), (7, 96, 6));
    assert_eq!(
        p.shape,
        Shape { w: 308, h: 208, thickness: 4, color: 0x00FF_8000 }
    );
    assert!(p.redraw);
}

#[test]
fn unchanged_frames_are_not_drawn_again() {
    let mut pool = FramePool::new();
    pool.grow();
    pool.place(&vec![item(7, 100, 300)], 4);
    let moved = pool.place(&vec![item(7, 500, 300)], 4);
    assert!(!moved[0].redraw);
    assert!(pool.place(&vec![item(7, 500, 301)], 4)[0].redraw);
    assert!(pool.place(&vec![item(7, 500, 301)], 5)[0].redraw);
    assert!(!pool.place(&vec![item(9, 500, 301)], 5)[0].redraw);
}

#[test]
fn frames_are_a_pixel_thick_at_least() {
    let mut pool = FramePool::new();
    pool.grow();
    let places = pool.place(&vec![item(7, 100, 300)], 0);
    assert_eq!((places[0].x, places[0].shape.w), (99, 302));
}

#[test]
fn frames_past_the_coordinates_are_refused() {
    assert!(can_frame(&vec![item(7, 100, 300)], 50));
    assert!(!can_frame(&vec![item(7, i32::MIN + 3, 300)], 4));
    assert!(!can_frame(&vec![item(7, 0, i32::MAX)], 1));
    assert!(can_frame(&vec![], 4));
}

#[test]
fn colors_are_opaque_and_turned_round() {
    assert_eq!(argb(0x0033_2211), 0xFF11_2233);
    assert_eq!(argb(0xAB00_0000), 0xFF00_0000);
}
