use emakiwm::geometry::{
    assumed_desktop, clamp_into_work, clamp_near, effective_work, expand, frame_border, intersects,
    join_rects, park, to_rect, Border, Edges, Margin,
};
use emakiwm::layout::{Placement, Rect};

fn rect(x: i32, y: i32, w: i32, h: i32) -> Rect {
    Rect { x, y, w, h }
}

fn edges(left: i32, top: i32, right: i32, bottom: i32) -> Edges {
    Edges { left, top, right, bottom }
}

#[test]
fn frames_grow_to_windows() {
    let window = edges(93, 100, 507, 407);
    let frame = edges(100, 100, 500, 400);
    let b = frame_border(window, frame);
    assert_eq!(b, Border { left: 7, top: 0, right: 7, bottom: 7 });
    assert_eq!(expand(to_rect(frame), b), to_rect(window));
}

#[test]
fn touching_rectangles_do_not_meet() {
    let work = rect(0, 0, 100, 100);
    assert!(intersects(rect(99, 99, 5, 5), work));
    assert!(!intersects(rect(100, 0, 5, 5), work));
    assert!(!intersects(rect(-5, 0, 5, 5), work));
    assert!(intersects(rect(-5, -5, 200, 200), work));
    assert!(!intersects(rect(i32::MAX, 0, i32::MAX, 5), work));
}

#[test]
fn far_rectangles_are_brought_near() {
    let own = rect(0, 0, 1000, 800);
    assert_eq!(clamp_near(rect(9000, 10, 50, 50), own), rect(1100, 10, 50, 50));
    assert_eq!(clamp_near(rect(-9000, 10, 50, 50), own), rect(-150, 10, 50, 50));
    assert_eq!(clamp_near(rect(10, 9000, 50, 50), own), rect(10, 900, 50, 50));
    assert_eq!(clamp_near(rect(10, -9000, 50, 50), own), rect(10, -150, 50, 50));
    assert_eq!(clamp_near(rect(10, 10, 50, 50), own), rect(10, 10, 50, 50));
}

#[test]
fn windows_are_moved_onto_the_work_area() {
    let work = rect(100, 100, 1000, 800);
    assert_eq!(
        clamp_into_work(edges(150, 150, 250, 250), work),
        edges(150, 150, 250, 250)
    );
    assert_eq!(
        clamp_into_work(edges(0, 0, 50, 50), work),
        edges(100, 100, 150, 150)
    );
    assert_eq!(
        clamp_into_work(edges(5000, 5000, 5100, 5050), work),
        edges(1000, 850, 1100, 900)
    );
}

#[test]
fn margins_leave_a_least_extent() {
    let m = Margin { top: 40, right: 10, bottom: 20, left: 30 };
    assert_eq!(
        effective_work(rect(0, 0, 1920, 1080), m),
        rect(30, 40, 1880, 1020)
    );
    assert_eq!(effective_work(rect(5, 5, 210, 210), m), rect(35, 45, 200, 200));
}

#[test]
fn joined_rectangles_cover_both() {
    assert_eq!(
        join_rects(rect(0, 0, 1920, 1080), rect(1920, -200, 1280, 1024)),
        rect(0, -200, 3200, 1280)
    );
    assert_eq!(assumed_desktop(), rect(0, 0, 1920, 1080));
}

#[test]
fn hidden_columns_are_parked_off_the_desktop() {
    let work = rect(0, 0, 1920, 1080);
    let bounds = rect(-1280, 0, 3200, 1080);
    let r = rect(-900, 8, 600, 1064);
    assert_eq!(park(Placement::Visible(r), work, bounds), r);
    assert_eq!(
        park(Placement::Offscreen(r), work, bounds),
        rect(-1980, 8, 600, 1064)
    );
    assert_eq!(
        park(Placement::Offscreen(rect(2000, 8, 600, 1064)), work, bounds),
        rect(2020, 8, 600, 1064)
    );
}
