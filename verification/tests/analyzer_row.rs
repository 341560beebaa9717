use quintet::analyzer::row::{row_eyes, row_eyes_on, rows, rows_on};
use quintet::analyzer::row2::RowKind;
use quintet::board::board::Board;
use quintet::board::point::{Point, Points};

fn crossing_fours() -> Board {
    let blacks = Points(vec![
        Point(3, 7), Point(4, 7), Point(5, 7), Point(6, 7),
        Point(7, 3), Point(7, 4), Point(7, 5), Point(7, 6),
    ]);
    Board::from_stones(&blacks, &Points(vec![]))
}

#[test]
fn test_row_eyes_each_once() {
    let board = crossing_fours();
    assert_eq!(rows(&board, true, RowKind::Four).len(), 4);
    let eyes = row_eyes(&board, true, RowKind::Four);
    // (7, 7) completes both fours but is listed once.
    assert_eq!(eyes.len(), 3);
    for p in [Point(7, 7), Point(7, 2), Point(2, 7)] {
        assert!(eyes.contains(&p));
    }
    assert!(row_eyes(&board, false, RowKind::Four).is_empty());
}

#[test]
fn test_row_eyes_on_a_point() {
    let board = crossing_fours();
    assert_eq!(rows_on(&board, true, RowKind::Four, &Point(7, 7)).len(), 2);
    assert_eq!(row_eyes_on(&board, true, RowKind::Four, &Point(7, 7)), vec![Point(7, 7)]);
    let eyes = row_eyes_on(&board, true, RowKind::Four, &Point(5, 7));
    assert_eq!(eyes.len(), 2);
    assert!(eyes.contains(&Point(7, 7)) && eyes.contains(&Point(2, 7)));
    assert!(row_eyes_on(&board, true, RowKind::Four, &Point(0, 0)).is_empty());
}
