use emakiwm::geometry::Edges;
use emakiwm::layout::Rect;
use emakiwm::restore::{
    can_place, entries_of_text, place_back, rows_of_columns, rows_of_text, RestoreBook, Stored,
};

fn edges(left: i32, top: i32, right: i32, bottom: i32) -> Edges {
    Edges { left, top, right, bottom }
}

const WORK: Rect = Rect { x: 0, y: 0, w: 1920, h: 1040 };

#[test]
fn first_rectangle_is_kept() {
    let mut book = RestoreBook::new();
    book.remember(7, edges(1, 2, 3, 4));
    book.remember(8, edges(5, 6, 7, 8));
    book.remember(7, edges(9, 9, 9, 9));
    assert_eq!(
        book.rows(),
        &vec![(7, edges(1, 2, 3, 4)), (8, edges(5, 6, 7, 8))]
    );
    book.forget(7);
    book.forget(99);
    assert_eq!(book.rows(), &vec![(8, edges(5, 6, 7, 8))]);
    book.remember(7, edges(9, 9, 9, 9));
    assert_eq!(book.rows().len(), 2);
}

#[test]
fn rows_are_stored_as_objects() {
    let mut book = RestoreBook::new();
    assert_eq!(book.to_text(), "[]");
    book.remember(7, edges(-1, 2, 300, 400));
    assert_eq!(
        book.to_text(),
        "[{\"bottom\":400,\"hwnd\":7,\"left\":-1,\"right\":300,\"top\":2}]"
    );
}

#[test]
fn stored_rows_are_read_back() {
    let mut book = RestoreBook::new();
    book.remember(7, edges(-1, 2, 300, 400));
    book.remember(u64::MAX, edges(i32::MIN, i32::MAX, 0, 5));
    assert_eq!(
        rows_of_text(&book.to_text()),
        Some(vec![
            Stored { hwnd: 7, rect: edges(-1, 2, 300, 400) },
            Stored { hwnd: -1, rect: edges(i32::MIN, i32::MAX, 0, 5) },
        ])
    );
}

#[test]
fn rows_that_lack_a_number_are_left_out() {
    let text = "[{\"hwnd\":1,\"left\":1,\"top\":2,\"right\":3,\"bottom\":4},\
        {\"hwnd\":2,\"left\":1,\"top\":2,\"right\":3},\
        {\"hwnd\":\"3\",\"left\":1,\"top\":2,\"right\":3,\"bottom\":4},\
        {\"hwnd\":4,\"left\":1.5,\"top\":2,\"right\":3,\"bottom\":4},\
        5, null, [1],\
        {\"hwnd\":6,\"left\":4294967297,\"top\":2,\"right\":3,\"bottom\":4,\"more\":0}]";
    assert_eq!(
        rows_of_text(text),
        Some(vec![
            Stored { hwnd: 1, rect: edges(1, 2, 3, 4) },
            Stored { hwnd: 6, rect: edges(1, 2, 3, 4) },
        ])
    );
}

#[test]
fn other_texts_hold_no_rows() {
    assert_eq!(entries_of_text("[{\"hwnd\":1},7,{\"left\":2}]"), Some(3));
    assert_eq!(entries_of_text("[]"), Some(0));
    assert_eq!(entries_of_text("{}"), None);
    assert_eq!(rows_of_text("[]"), Some(vec![]));
    assert_eq!(rows_of_text(""), None);
    assert_eq!(rows_of_text("{}"), None);
    assert_eq!(rows_of_text("[1"), None);
}

#[test]
fn columns_make_rows() {
    let col = |v: &[Option<i64>]| v.to_vec();
    assert_eq!(
        rows_of_columns(
            &col(&[Some(1), Some(2), Some(3)]),
            &col(&[Some(1), None, Some(1)]),
            &col(&[Some(2), Some(2), Some(2)]),
            &col(&[Some(3), Some(3), Some(3)]),
            &col(&[Some(4), Some(4)]),
        ),
        vec![Stored { hwnd: 1, rect: edges(1, 2, 3, 4) }]
    );
}

#[test]
fn windows_on_screen_go_back_exactly() {
    assert_eq!(
        place_back(edges(100, 100, 500, 400), WORK),
        Some(edges(100, 100, 500, 400))
    );
    assert_eq!(
        place_back(edges(-300, -20, 100, 400), WORK),
        Some(edges(-300, -20, 100, 400))
    );
}

#[test]
fn windows_off_screen_are_moved_onto_it() {
    assert_eq!(
        place_back(edges(5000, 100, 5400, 400), WORK),
        Some(edges(1520, 100, 1920, 400))
    );
    assert_eq!(
        place_back(edges(-5000, 5000, -4600, 5300), WORK),
        Some(edges(0, 740, 400, 1040))
    );
    assert_eq!(
        place_back(edges(5000, 0, 9000, 100), WORK),
        Some(edges(0, 0, 4000, 100))
    );
}

#[test]
fn places_past_the_coordinates_are_refused() {
    assert_eq!(place_back(edges(i32::MIN, 0, i32::MAX, 10), WORK), None);
    assert!(!can_place(edges(i32::MIN, 0, i32::MAX, 10), WORK));
    assert!(can_place(edges(0, 0, i32::MAX, 10), WORK));
}
