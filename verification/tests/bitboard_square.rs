use quintet::bitboard::fundamentals::Player::{Black, White};
use quintet::bitboard::fundamentals::RowKind::{Sword, Two};
use quintet::bitboard::line::Line;
use quintet::bitboard::point::Direction::{Ascending, Descending, Horizontal, Vertical};
use quintet::bitboard::point::Point;
use quintet::bitboard::square::{Row, Square};

fn lines_to_string(lines: &Vec<Line>) -> String {
    lines.iter().map(|l| l.to_string()).collect::<Vec<_>>().join("\n")
}

fn trim_lines_string(s: &str) -> String {
    s.trim().split("\n").map(|ls| ls.trim()).collect::<Vec<_>>().join("\n")
}

#[test]
fn square_test_put() {
    let mut square = Square::new();
    square.put(Black, Point(7, 7));
    square.put(White, Point(8, 8));
    square.put(Black, Point(9, 8));
    square.put(Black, Point(1, 1));
    square.put(White, Point(1, 13));
    square.put(Black, Point(13, 1));
    square.put(White, Point(13, 13));

    let result = lines_to_string(square.lines_of(Horizontal));
    let expected = trim_lines_string(
        "
        ---------------
        -o-----------o-
        ---------------
        ---------------
        ---------------
        ---------------
        ---------------
        -------o-------
        --------xo-----
        ---------------
        ---------------
        ---------------
        ---------------
        -x-----------x-
        ---------------
        ",
    );
    assert_eq!(result, expected);

    let result = lines_to_string(square.lines_of(Vertical));
    let expected = trim_lines_string(
        "
        ---------------
        -o-----------x-
        ---------------
        ---------------
        ---------------
        ---------------
        ---------------
        -------o-------
        --------x------
        --------o------
        ---------------
        ---------------
        ---------------
        -o-----------x-
        ---------------
        ",
    );
    assert_eq!(result, expected);

    let result = lines_to_string(square.lines_of(Ascending));
    let expected = trim_lines_string(
        "
        -----
        ------
        -------
        --------
        ---------
        ----------
        -----------
        ------------
        -------------
        --------------
        -o-----ox----x-
        --------o-----
        -------------
        ------------
        -----------
        ----------
        ---------
        --------
        -------
        ------
        -----
        ",
    );
    assert_eq!(result, expected);

    let result = lines_to_string(square.lines_of(Descending));
    let expected = trim_lines_string(
        "
        -----
        ------
        -------
        --------
        ---------
        ----------
        -----------
        ------------
        -------------
        --------------
        -x-----o-----o-
        --------------
        ------x------
        ------o-----
        -----------
        ----------
        ---------
        --------
        -------
        ------
        -----
        ",
    );
    assert_eq!(result, expected);
}

#[test]
fn test_rows_and_so_on() -> Result<(), String> {
    let square = Square::parse("
        ---------------
        ---------------
        ---------------
        ---------------
        ---------------
        ---------------
        -------xxxo----
        -------o-------
        ---------------
        -------o-------
        ---------------
        ---------------
        ---------------
        ---------------
        ---------------
    ")?;
    let black_twos = [Row::new(
        Ascending,
        Point(6, 4),
        Point(11, 9),
        Some(Point(8, 6)),
        Some(Point(9, 7)),
    )];
    let white_swords = [Row::new(
        Horizontal,
        Point(5, 8),
        Point(9, 8),
        Some(Point(5, 8)),
        Some(Point(6, 8)),
    )];

    assert_eq!(square.rows(Black, Two), black_twos);
    assert_eq!(square.rows(White, Sword), white_swords);

    assert_eq!(square.rows_on(Black, Two, Point(10, 8)), black_twos);
    assert_eq!(square.rows_on(Black, Two, Point(7, 7)), []);

    assert_eq!(square.row_eyes(Black, Two), [Point(8, 6), Point(9, 7)]);
    assert_eq!(square.row_eyes(White, Sword), [Point(5, 8), Point(6, 8)]);

    assert_eq!(
        square.row_eyes_along(White, Sword, Point(0, 8)),
        [Point(5, 8), Point(6, 8)]
    );
    assert_eq!(square.row_eyes_along(White, Sword, Point(0, 7)), []);
    Ok(())
}

#[test]
fn square_test_to_string() {
    let mut square = Square::new();
    square.put(Black, Point(7, 7));
    square.put(White, Point(8, 8));
    square.put(Black, Point(9, 8));
    square.put(Black, Point(0, 0));
    square.put(White, Point(0, 14));
    square.put(Black, Point(14, 0));
    square.put(White, Point(14, 14));
    let expected = trim_lines_string(
        "
        x-------------x
        ---------------
        ---------------
        ---------------
        ---------------
        ---------------
        --------xo-----
        -------o-------
        ---------------
        ---------------
        ---------------
        ---------------
        ---------------
        ---------------
        o-------------o
    ",
    );
    assert_eq!(square.to_string(), expected);
}

#[test]
fn test_adjacent() {
    let a = Row::new(Vertical, Point(3, 3), Point(3, 9), None, None);
    let b = Row::new(Horizontal, Point(3, 3), Point(9, 3), None, None);
    assert!(!a.adjacent(&b));

    let a = Row::new(Vertical, Point(3, 3), Point(3, 9), None, None);
    let b = Row::new(Vertical, Point(3, 4), Point(3, 10), None, None);
    assert!(a.adjacent(&b));

    let a = Row::new(Vertical, Point(3, 3), Point(3, 9), None, None);
    let b = Row::new(Vertical, Point(3, 5), Point(3, 11), None, None);
    assert!(!a.adjacent(&b));

    let a = Row::new(Descending, Point(3, 9), Point(9, 3), None, None);
    let b = Row::new(Descending, Point(4, 8), Point(10, 2), None, None);
    assert!(a.adjacent(&b));
}

/// The rows through a point are the board's rows that pass through it, in
/// the same order.
#[test]
fn test_rows_on_are_rows_through() -> Result<(), String> {
    let square = Square::parse("H8,I8,J8,H9,G10/K8,H10")?;
    for kind in [Two, Sword] {
        for p in [Point(7, 7), Point(8, 7), Point(6, 9), Point(0, 0)] {
            let all: Vec<Row> = square.rows(Black, kind).into_iter().filter(|r| r.overlap(p)).collect();
            assert_eq!(square.rows_on(Black, kind, p), all);
        }
    }
    Ok(())
}

/// Stones put in either order make the same board.
#[test]
fn test_puts_commute() {
    let mut a = Square::new();
    a.put(Black, Point(7, 7));
    a.put(White, Point(8, 7));
    let mut b = Square::new();
    b.put(White, Point(8, 7));
    b.put(Black, Point(7, 7));
    assert_eq!(a, b);
}

#[test]
fn test_adjacent_reads_coordinates_as_i8() {
    // Starts are compared as `i8`: 255 reads as -1, one step from 0.
    let a = Row::new(Horizontal, Point(255, 3), Point(255, 3), None, None);
    let b = Row::new(Horizontal, Point(0, 3), Point(4, 3), None, None);
    assert!(a.adjacent(&b));
    let c = Row::new(Descending, Point(4, 8), Point(8, 4), None, None);
    let d = Row::new(Descending, Point(5, 7), Point(9, 3), None, None);
    assert!(c.adjacent(&d));
    assert!(d.adjacent(&c));
    let e = Row::new(Ascending, Point(4, 4), Point(8, 8), None, None);
    let f = Row::new(Ascending, Point(5, 6), Point(9, 10), None, None);
    assert!(!e.adjacent(&f));
}

#[test]
fn test_to_string_parse_roundtrip() {
    let mut square = Square::new();
    square.put(Black, Point(7, 7));
    square.put(White, Point(8, 8));
    square.put(Black, Point(0, 14));
    square.put(White, Point(14, 0));
    let text = square.to_string();
    let read = Square::parse(&text).unwrap();
    assert!(read == square);
    assert_eq!(read.to_string(), text);
}
