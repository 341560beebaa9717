use quintet::analyzer::analyzer::Analyzer;
use quintet::analyzer::row2::RowKind;
use quintet::board::board::Board;
use quintet::board::forbidden::ForbiddenKind;
use quintet::board::point::{Point, Points};

#[test]
fn test_analyzer_rows_and_eyes() {
    let mut analyzer = Analyzer::new();
    let blacks = Points(vec![Point(7, 7), Point(8, 7), Point(9, 7), Point(10, 7)]);
    let board = Board::from_stones(&blacks, &Points(vec![]));
    let rows = analyzer.rows(&board, true, RowKind::Four);
    assert_eq!(rows.len(), 2);
    assert_eq!(analyzer.row_eyes(&board, true, RowKind::Four), vec![Point(11, 7), Point(6, 7)]);
    assert!(analyzer.row_eyes(&board, false, RowKind::Four).is_empty());
}

#[test]
fn test_analyzer_forbidden_overline() {
    let mut analyzer = Analyzer::new();
    let blacks = Points(vec![Point(2, 7), Point(3, 7), Point(4, 7), Point(6, 7), Point(7, 7)]);
    let board = Board::from_stones(&blacks, &Points(vec![]));
    assert_eq!(analyzer.forbidden(&board, Point(5, 7)), Some(ForbiddenKind::Overline));
    assert_eq!(analyzer.forbidden(&board, Point(10, 10)), None);
    let all = analyzer.forbiddens(&board);
    assert!(all.contains(&(ForbiddenKind::Overline, Point(5, 7))));
    assert_eq!(all, board.forbiddens());
}
