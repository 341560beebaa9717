use quintet::analyzer::pattern2::Pattern;
use quintet::analyzer::pattern2::{black_fours, white_fours};
use quintet::analyzer::row2::{LineRow, Row, RowKind, RowSearcher};
use quintet::board::board::Board;
use quintet::board::line::Line;
use quintet::board::point::{Ascending, Descending, Direction, Horizontal, Point, Points, Vertical};

fn five() -> Pattern {
    // Five stones with no own stone on either side.
    Pattern { filter: 0b1111111, stones: 0b0111110, blanks: 0, eyes__: 0 }
}

fn four() -> Pattern {
    // Four stones and the empty cell after them, its eye.
    Pattern { filter: 0b11111, stones: 0b01111, blanks: 0b10000, eyes__: 0b10000 }
}

fn parts(rows: &[LineRow]) -> Vec<(u8, u8, Vec<u8>)> {
    rows.iter().map(|r| (r.start, r.end, r.eyes.clone())).collect()
}

#[test]
fn test_scan_pattern_five() {
    let searcher = RowSearcher::new();
    let line = Line::parse("-ooooo---------").unwrap();
    assert_eq!(parts(&searcher.scan_pattern(&line, &five(), true)), vec![(1, 5, vec![])]);
    // White has nothing there.
    assert!(searcher.scan_pattern(&line, &five(), false).is_empty());
    // Six in a row is no five for this pattern.
    let six = Line::parse("oooooo---------").unwrap();
    assert!(searcher.scan_pattern(&six, &five(), true).is_empty());
}

#[test]
fn test_scan_pattern_four_at_the_edge() {
    let searcher = RowSearcher::new();
    let line = Line::parse("xxxx-----------").unwrap();
    assert_eq!(parts(&searcher.scan_pattern(&line, &four(), false)), vec![(0, 4, vec![4])]);
    // A blocked eye is no match.
    let blocked = Line::parse("xxxxo----------").unwrap();
    assert!(searcher.scan_pattern(&blocked, &four(), false).is_empty());
}

#[test]
fn test_scan_patterns_in_order() {
    let searcher = RowSearcher::new();
    let line = Line::parse("oooo----ooooo--").unwrap();
    let rows = searcher.scan_patterns(&line, true, &vec![five(), four()]);
    // The four pattern does not look before its stones: the last four of
    // the five match it too.
    assert_eq!(parts(&rows), vec![(8, 12, vec![]), (0, 4, vec![4]), (9, 13, vec![13])]);
    // A line shorter than the pattern's window gives nothing.
    let short = Line::parse("ooo").unwrap();
    assert!(searcher.scan_pattern(&short, &Pattern { filter: 0b11111111, stones: 0b1110, blanks: 0, eyes__: 0 }, true).is_empty());
}

#[test]
fn test_row_overlap() {
    let vertical = Row { direction: Vertical, start: Point(3, 4), end: Point(3, 8), eyes: vec![] };
    assert!(vertical.overlap(&Point(3, 6)));
    assert!(vertical.overlap(&Point(3, 4)));
    assert!(!vertical.overlap(&Point(3, 9)));
    assert!(!vertical.overlap(&Point(4, 6)));
    let horizontal = Row { direction: Horizontal, start: Point(1, 2), end: Point(5, 2), eyes: vec![] };
    assert!(horizontal.overlap(&Point(5, 2)));
    assert!(!horizontal.overlap(&Point(0, 2)));
    let ascending = Row { direction: Ascending, start: Point(2, 2), end: Point(6, 6), eyes: vec![] };
    assert!(ascending.overlap(&Point(4, 4)));
    assert!(!ascending.overlap(&Point(4, 5)));
    let descending = Row { direction: Descending, start: Point(2, 6), end: Point(6, 2), eyes: vec![] };
    assert!(descending.overlap(&Point(4, 4)));
    assert!(descending.overlap(&Point(3, 5)));
    assert!(!descending.overlap(&Point(5, 5)));
    assert_eq!(RowKind::Four, RowKind::Four);
}

fn board_parts(rows: &[Row]) -> Vec<(Direction, Point, Point, Vec<Point>)> {
    rows.iter().map(|r| (r.direction, r.start, r.end, r.eyes.clone())).collect()
}

fn four_in_a_row() -> Board {
    let blacks = Points(vec![Point(7, 7), Point(8, 7), Point(9, 7), Point(10, 7)]);
    let whites = Points(vec![Point(0, 0)]);
    Board::from_stones(&blacks, &whites)
}

#[test]
fn test_search_fours_pattern_by_pattern() {
    let mut searcher = RowSearcher::new();
    let board = four_in_a_row();
    let rows = searcher.search(&board, true, RowKind::Four);
    assert_eq!(
        board_parts(&rows),
        vec![
            (Horizontal, Point(7, 7), Point(11, 7), vec![Point(11, 7)]),
            (Horizontal, Point(6, 7), Point(10, 7), vec![Point(6, 7)]),
        ]
    );
    // No five yet, and nothing for White.
    assert!(searcher.search(&board, true, RowKind::Five).is_empty());
    assert!(searcher.search(&board, false, RowKind::Four).is_empty());
    // Kinds without patterns give nothing.
    assert!(searcher.search(&board, true, RowKind::Three).is_empty());
}

#[test]
fn test_search_fives_and_overlines() {
    let mut searcher = RowSearcher::new();
    let five = Points(vec![Point(3, 2), Point(3, 3), Point(3, 4), Point(3, 5), Point(3, 6)]);
    let board = Board::from_stones(&Points(vec![]), &five);
    let rows = searcher.search(&board, false, RowKind::Five);
    assert_eq!(board_parts(&rows), vec![(Vertical, Point(3, 2), Point(3, 6), vec![])]);
    let six = Points(vec![Point(2, 2), Point(3, 3), Point(4, 4), Point(5, 5), Point(6, 6), Point(7, 7)]);
    let board = Board::from_stones(&six, &Points(vec![]));
    let rows = searcher.search(&board, true, RowKind::Overline);
    assert_eq!(
        board_parts(&rows),
        vec![(Ascending, Point(2, 2), Point(7, 7), vec![])]
    );
    // Black's five pattern wants no own stone on either side.
    assert!(searcher.search(&board, true, RowKind::Five).is_empty());
}

#[test]
fn test_search_containing_keeps_rows_through_the_point() {
    let mut searcher = RowSearcher::new();
    let board = four_in_a_row();
    let rows = searcher.search_containing(&board, true, RowKind::Four, &Point(11, 7));
    assert_eq!(
        board_parts(&rows),
        vec![(Horizontal, Point(7, 7), Point(11, 7), vec![Point(11, 7)])]
    );
    let rows = searcher.search_containing(&board, true, RowKind::Four, &Point(8, 7));
    assert_eq!(rows.len(), 2);
    assert!(searcher.search_containing(&board, true, RowKind::Four, &Point(8, 8)).is_empty());
}

#[test]
fn test_pattern_tables() {
    assert_eq!(black_fours().len(), 5);
    assert_eq!(white_fours().len(), 5);
    let line = Line::parse("-oooo-o--------").unwrap();
    let searcher = RowSearcher::new();
    // The gap at cell 5 would make six with the stone at 6: Black has only
    // the four that opens to the left.
    assert_eq!(parts(&searcher.scan(&line, true, RowKind::Four)), vec![(0, 4, vec![0])]);
}

#[test]
fn test_search_kept_rows_match_a_fresh_scan() {
    let mut searcher = RowSearcher::new();
    let board = four_in_a_row();
    let first = board_parts(&searcher.search(&board, true, RowKind::Four));
    // The second search reads the rows kept from the first.
    let second = board_parts(&searcher.search(&board, true, RowKind::Four));
    assert_eq!(first, second);
    let line = Line::parse("-oooo-o--------").unwrap();
    let fresh = parts(&searcher.scan(&line, true, RowKind::Four));
    assert_eq!(parts(&searcher.search_line(&line, true, RowKind::Four)), fresh);
    assert_eq!(parts(&searcher.search_line(&line, true, RowKind::Four)), fresh);
    // Another player or kind on the same line is kept apart.
    assert!(searcher.search_line(&line, false, RowKind::Four).is_empty());
    assert!(searcher.search_line(&line, true, RowKind::Five).is_empty());
}
