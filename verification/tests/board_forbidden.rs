use quintet::board::forbidden::{forbidden, forbidden_strict, forbiddens, DoubleFour, DoubleThree, Overline};
use quintet::board::player::Black;
use quintet::board::point::Point;
use quintet::board::square::Square;
use quintet::bitboard::forbidden::{forbidden as bit_forbidden, forbiddens as bit_forbiddens, ForbiddenKind as BitKind};
use quintet::bitboard::point::Point as BitPoint;
use quintet::bitboard::square::Square as BitSquare;

/// A board written as rows of ` o`, ` x` and ` .`, the top row first.
fn parse_grid(s: &str) -> Result<Square, String> {
    Square::parse(s).map_err(|e| e.to_string())
}
#[test]
fn forbidden_test_forbiddens() -> Result<(), String> {
    let grid = parse_grid("
     . . . . . . . . . . . . . . o
     . . o . . . . . . . . x o o .
     . o . o . . . . . . . o . o .
     . . o . . . . . . . . o o x .
     . . . . . . . . . . o . . . .
     . . . . . . . . . . . . . . .
     . . . . . . . . . . . . . . .
     . o . . . . . . . . . . . . .
     . . o . . . . . . . . . . . .
     . . . o . . . . . . . . . . .
     . o o o . . . . . . . . . . .
     . . . . . . . . . . . . . . .
     . . . . . . . . . . . . . . .
     . . . . . . . . . . . . . . .
     . o o . o o o . . . o o o o .
    ")?;
    // M13 would be a double-three, but it also completes the five
    // K11-O15, which wins, so it is not reported.
    let result = forbiddens(&grid);
    let expected = [
        (DoubleThree, Point(2, 12)), // C13
        (Overline, Point(3, 0)),     // D1
        (DoubleFour, Point(4, 4)),   // E5
    ];
    assert_eq!(result, expected);

    // The same on the bit board.
    {
        let square = BitSquare::parse("
            ---------------
            --o------------
            -o-o-----------
            --o------------
            ---------------
            ---------------
            -----------o---
            ----------o----
            ---------o-----
            ----ooo--------
            ---------------
            ---------------
            ---------------
            ---------------
            --------oo-ooo-
        ")?;
        let result = bit_forbiddens(&square);
        let expected = [
            (BitKind::DoubleThree, BitPoint(2, 12)),
            (BitKind::DoubleFour, BitPoint(8, 5)),
            (BitKind::Overline, BitPoint(10, 0)),
        ];
        assert_eq!(result, expected);
    }
    Ok(())
}

#[test]
fn test_double_three_eye_makes_five() -> Result<(), String> {
    // H8 makes two threes. The eye of the horizontal one (G8) is a
    // double-four, but it also completes a five (G4-G8), so it is a legal
    // move and the three counts as a real one (rule 9.2 / 9.3).
    let grid = parse_grid("
     . . . . . . . . . . . . . . .
     . . . . . . . . . . . . . . .
     . . . . . . . . . . . . . . .
     . . . . . . . . . . . . . . .
     . . . . . . . . . . . . . . .
     . . . . o . . . . . . . . . .
     . . . . . o . o . . . . . . .
     . . . . . o . . o . . . . . .
     . . . . . . o o . . . . . . .
     . . . . . . o . . . . . . . .
     . . . . . . o . . . . . . . .
     . . . . . . o . . . . . . . .
     . . . . . . . . . . . . . . .
     . . . . . . . . . . . . . . .
     . . . . . . . . . . . . . . .
    ")?;
    let mut next = grid.duplicate();
    next.put_mut(Black, Point(7, 7));
    assert_eq!(forbidden(&next, Point(6, 7)), Some(DoubleFour));
    assert_eq!(forbidden_strict(&next, Point(6, 7)), None);

    assert_eq!(forbidden(&grid, Point(7, 7)), Some(DoubleThree));

    Ok(())
}

#[test]
fn test_double_three_nested_eye_makes_five() -> Result<(), String> {
    // H8 makes a four (E8-H8, eye I8) and two threes (H6-H9 via H7,
    // F6-I9 via I9). Whether H8 is a double-three depends on the nested
    // check: H7 would make two threes (H7-K10 via I8, G8-J5 via I6), and
    // I8 is a double-four but also completes the five E8-I8, so I8 is a
    // legal move, H7 is a real double-three (forbidden), the vertical
    // three through H8 is fake, and H8 is a legal four-three.
    // Checking I8 with `forbidden` instead of `forbidden_strict` flips
    // every step and wrongly reports H8 as a double-three.
    let grid = parse_grid("
     . . . . . . . . . . . . . . .
     . . . . . . . . . . . . . . .
     . . . . . . . . . . . . . . .
     . . . . x . . . . . . . . . .
     . . . . . o . x . . . . . . .
     . . . . . . o . . . o . . . .
     . . . . x . x o . o . . . . .
     . . . x o o o . . . . . . . .
     . . . . . x o . . . . . . . .
     . . . . x o . o . . . . . . .
     . . . . . . . . x o . . . . .
     . . . . . . . . . . . . . . .
     . . . . . . . . . . . . . . .
     . . . . . . . . . . . . . . .
     . . . . . . . . . . . . . . .
    ")?;
    let h8 = Point(7, 7);
    let h7 = Point(7, 6);
    let i8 = Point(8, 7);

    let mut after_h8 = grid.duplicate();
    after_h8.put_mut(Black, h8);
    let mut after_h7 = after_h8.duplicate();
    after_h7.put_mut(Black, h7);
    assert_eq!(forbidden(&after_h7, i8), Some(DoubleFour));
    assert_eq!(forbidden_strict(&after_h7, i8), None);
    assert_eq!(forbidden(&after_h8, h7), Some(DoubleThree));

    assert_eq!(forbidden(&grid, h8), None);

    Ok(())
}

#[test]
fn forbidden_test_double_three() -> Result<(), String> {
    // H8 makes two open threes, H7-H9 and G8-I8.
    let grid = parse_grid("
     . . . . . . . . . . . . . . .
     . . . . . . . . . . . . . . .
     . . . . . . . . . . . . . . .
     . . . . . . . . . . . . . . .
     . . . . . . . . . . . . . . .
     . . . . . . . . . . . . . . .
     . . . . . . . o . . . . . . .
     . . . . . . o . o . . . . . .
     . . . . . . . o . . . . . . .
     . . . . . . . . . . . . . . .
     . . . . . . . . . . . . . . .
     . . . . . . . . . . . . . . .
     . . . . . . . . . . . . . . .
     . . . . . . . . . . . . . . .
     . . . . . . . . . . . . . . .
    ")?;
    let result = forbidden(&grid, Point(7, 7));
    assert_eq!(result, Some(DoubleThree));

    // Split threes count too: H5-H6-_-H8 and E5-F6-_-H8.
    let grid = parse_grid("
    . . . . . . . . . . . . . . .
    . . . . . . . . . . . . . . .
    . . . . . . . . . . . . . . .
    . . . . . . . . . . . . . . .
    . . . . . . . . . . . . . . .
    . . . . . . . . . . . . . . .
    . . . . . . . . . . . . . . .
    . . . . . . . . . . . . . . .
    . . . . . . . . . . . . . . .
    . . . . . o . o . . . . . . .
    . . . . o . . o . . . . . . .
    . . . . . . . . . . . . . . .
    . . . . . . . . . . . . . . .
    . . . . . . . . . . . . . . .
    . . . . . . . . . . . . . . .
    ")?;
    let result = forbidden(&grid, Point(7, 7));
    assert_eq!(result, Some(DoubleThree));

    // White's E8 and K8 leave G8-I8 no way to an open four, so H8 only
    // makes one three.
    let grid = parse_grid("
     . . . . . . . . . . . . . . .
     . . . . . . . . . . . . . . .
     . . . . . . . . . . . . . . .
     . . . . . . . . . . . . . . .
     . . . . . . . . . . . . . . .
     . . . . . . . . . . . . . . .
     . . . . . . . o . . . . . . .
     . . . . x . o . o . x . . . .
     . . . . . . . o . . . . . . .
     . . . . . . . . . . . . . . .
     . . . . . . . . . . . . . . .
     . . . . . . . . . . . . . . .
     . . . . . . . . . . . . . . .
     . . . . . . . . . . . . . . .
     . . . . . . . . . . . . . . .
    ")?;
    let result = forbidden(&grid, Point(7, 7));
    assert_eq!(result, None);

    // H8 completes the five F8-J8: nothing else is looked at.
    let grid = parse_grid("
     . . . . . . . . . . . . . . .
     . . . . . . . . . . . . . . .
     . . . . . . . . . . . . . . .
     . . . . . . . . . . . . . . .
     . . . . . . . . . . . . . . .
     . . . . . . . . . . . . . . .
     . . . . . . . . . . . . . . .
     . . . . . o o . o o . . . . .
     . . . . . . . . . . . . . . .
     . . . . . . . . . . . . . . .
     . . . . . . . . . . . . . . .
     . . . . . . . . . . . . . . .
     . . . . . . . . . . . . . . .
     . . . . . . . . . . . . . . .
     . . . . . . . . . . . . . . .
    ")?;
    let result = forbidden(&grid, Point(7, 7));
    assert_eq!(result, None);

    // E8-F8-_-H8-_-J8-K8: every four H8 could lead to is an overline, so
    // there is no three.
    let grid = parse_grid("
     . . . . . . . . . . . . . . .
     . . . . . . . . . . . . . . .
     . . . . . . . . . . . . . . .
     . . . . . . . . . . . . . . .
     . . . . . . . . . . . . . . .
     . . . . . . . . . . . . . . .
     . . . . . . . . . . . . . . .
     . . . . o o . . . o o . . . .
     . . . . . . . . . . . . . . .
     . . . . . . . . . . . . . . .
     . . . . . . . . . . . . . . .
     . . . . . . . . . . . . . . .
     . . . . . . . . . . . . . . .
     . . . . . . . . . . . . . . .
     . . . . . . . . . . . . . . .
    ")?;
    let result = forbidden(&grid, Point(7, 7));
    assert_eq!(result, None);

    // A three only counts if its open-four point is legal. H8 and I7 each
    // make two threes, but one of them (H7-H10, I6-I10) can only be
    // completed at a double-four (H6, I8), so both moves are legal. J7
    // makes two real threes.
    let grid = parse_grid("
     . . . . . . . . . . . . . . .
     . . . . . . . . . . . . . . .
     . . . . . . . . . . . . . . .
     . . . . . . . . . . . . . . .
     . . . . . . . x . . . . . . .
     . . . . . . . . . . . . . . .
     . . . . . . . o o o x . . . .
     . . . . . . x . . . . . . . .
     . . . . . . o o . . . . . . .
     . . . . . . o . o o x . . . .
     . . . . . . . . . . . . . . .
     . . . . . . . . . . . . . . .
     . . . . . . . . . . . . . . .
     . . . . . . . . . . . . . . .
     . . . . . . . . . . . . . . .
    ")?;
    let result = forbidden(&grid, Point(7, 7));
    assert_eq!(result, None);
    let result = forbidden(&grid, Point(8, 6));
    assert_eq!(result, None);
    let result = forbidden(&grid, Point(9, 6));
    assert_eq!(result, Some(DoubleThree));

    // following examples are from https://twitter.com/tanaseY/status/944521796585373696
    //
    // The two positions differ only in White's O6, which decides three
    // levels down whether G8 is a double-three. With O6, K6 only makes
    // one real three (K6-N6 needs J6, a double-four), so K6 is legal, I8
    // is a double-three, and G8's horizontal three (via I8) is fake.
    let grid = parse_grid("
     . . . . . . . . . . . . . . .
     . . . . . . . . . . . . . . .
     . . . . . . . . . . . . . . .
     . . . . . . . . . . . . . . .
     . . . . . . . . . . . . . . .
     . . . . . . . . . . . . . . .
     . . . . . . x . . . . . . . .
     . . o . . o . o . . . . . . .
     . . . . . o . . o o . . . . .
     . . . . o . . . . . . o o . x
     . . . . . . . . o x o o . . .
     . . . . . . . . . . o . . . .
     . . . . . . . . . . . . . . .
     . . . . . . . . . . . . . . .
     . . . . . . . . . . . . . . .
    ")?;
    let result = forbidden(&grid, Point(6, 7));
    assert_eq!(result, None);

    // Without O6, K6-O6 is a second real three: K6 is a double-three, so
    // I8 is legal and G8 makes two real threes.
    let grid = parse_grid("
     . . . . . . . . . . . . . . .
     . . . . . . . . . . . . . . .
     . . . . . . . . . . . . . . .
     . . . . . . . . . . . . . . .
     . . . . . . . . . . . . . . .
     . . . . . . . . . . . . . . .
     . . . . . . x . . . . . . . .
     . . o . . o . o . . . . . . .
     . . . . . o . . o o . . . . .
     . . . . o . . . . . . o o . .
     . . . . . . . . o x o o . . .
     . . . . . . . . . . o . . . .
     . . . . . . . . . . . . . . .
     . . . . . . . . . . . . . . .
     . . . . . . . . . . . . . . .
    ")?;
    let result = forbidden(&grid, Point(6, 7));
    assert_eq!(result, Some(DoubleThree));

    // The same on the bit board.
    {
        let square = BitSquare::parse("
            ---------------
            ---------------
            ---------------
            ---------------
            ---------------
            ---------------
            -------o-------
            ------o-o------
            -------o-------
            ---------------
            ---------------
            ---------------
            ---------------
            ---------------
            ---------------
        ")?;
        let result = bit_forbidden(&square, BitPoint(7, 7));
        assert_eq!(result, Some(BitKind::DoubleThree));

        let square = BitSquare::parse("
            ---------------
            ---------------
            ---------------
            ---------------
            ---------------
            ---------------
            ---------------
            ---------------
            ---------------
            -----o-o-------
            ----o--o-------
            ---------------
            ---------------
            ---------------
            ---------------
        ")?;
        let result = bit_forbidden(&square, BitPoint(7, 7));
        assert_eq!(result, Some(BitKind::DoubleThree));

        let square = BitSquare::parse("
            ---------------
            ---------------
            ---------------
            ---------------
            ---------------
            ---------------
            -------o-------
            ----x-o-o-x----
            -------o-------
            ---------------
            ---------------
            ---------------
            ---------------
            ---------------
            ---------------
        ")?;
        let result = bit_forbidden(&square, BitPoint(7, 7));
        assert_eq!(result, None);

        let square = BitSquare::parse("
            ---------------
            ---------------
            ---------------
            ---------------
            -------x-------
            ---------------
            -------ooox----
            ------x--------
            ------oo-------
            ------o-oox----
            ---------------
            ---------------
            ---------------
            ---------------
            ---------------
        ")?;
        let result = bit_forbidden(&square, BitPoint(7, 7));
        assert_eq!(result, None);
        let result = bit_forbidden(&square, BitPoint(8, 6));
        assert_eq!(result, None);
        let result = bit_forbidden(&square, BitPoint(9, 6));
        assert_eq!(result, Some(BitKind::DoubleThree));

        // following examples are from https://twitter.com/tanaseY/status/944521796585373696
        let square = BitSquare::parse("
            ---------------
            ---------------
            ---------------
            ---------------
            ---------------
            ---------------
            ------x--------
            --o--o-o-------
            -----o--oo-----
            ----o------oo-x
            --------oxoo---
            ----------o----
            ---------------
            ---------------
            ---------------
        ")?;
        let result = bit_forbidden(&square, BitPoint(6, 7));
        assert_eq!(result, None);

        let square = BitSquare::parse("
            ---------------
            ---------------
            ---------------
            ---------------
            ---------------
            ---------------
            ------x--------
            --o--o-o-------
            -----o--oo-----
            ----o------oo--
            --------oxoo---
            ----------o----
            ---------------
            ---------------
            ---------------
        ")?;
        let result = bit_forbidden(&square, BitPoint(6, 7));
        assert_eq!(result, Some(BitKind::DoubleThree));
    }
    Ok(())
}

#[test]
fn forbidden_test_double_four() -> Result<(), String> {
    // H8 makes fours in two directions, F8-I8 and F10-I7.
    let grid = parse_grid("
     . . . . . . . . . . . . . . .
     . . . . . . . . . . . . . . .
     . . . . . . . . . . . . . . .
     . . . . . . . . . . . . . . .
     . . . . . . . . . . . . . . .
     . . . . . o . . . . . . . . .
     . . . . . . o . . . . . . . .
     . . . . . o o . o . . . . . .
     . . . . . . . . o . . . . . .
     . . . . . . . . . . . . . . .
     . . . . . . . . . . . . . . .
     . . . . . . . . . . . . . . .
     . . . . . . . . . . . . . . .
     . . . . . . . . . . . . . . .
     . . . . . . . . . . . . . . .
    ")?;
    let result = forbidden(&grid, Point(7, 7));
    assert_eq!(result, Some(DoubleFour));

    // Two fours on one line: E8-_-G8-H8-I8-_-K8.
    let grid = parse_grid("
     . . . . . . . . . . . . . . .
     . . . . . . . . . . . . . . .
     . . . . . . . . . . . . . . .
     . . . . . . . . . . . . . . .
     . . . . . . . . . . . . . . .
     . . . . . . . . . . . . . . .
     . . . . . . . . . . . . . . .
     . . . . o . o . o . o . . . .
     . . . . . . . . . . . . . . .
     . . . . . . . . . . . . . . .
     . . . . . . . . . . . . . . .
     . . . . . . . . . . . . . . .
     . . . . . . . . . . . . . . .
     . . . . . . . . . . . . . . .
     . . . . . . . . . . . . . . .
    ")?;
    let result = forbidden(&grid, Point(7, 7));
    assert_eq!(result, Some(DoubleFour));

    // Two fours on one line: E8-F8-_-H8-I8-_-K8-L8.
    let grid = parse_grid("
     . . . . . . . . . . . . . . .
     . . . . . . . . . . . . . . .
     . . . . . . . . . . . . . . .
     . . . . . . . . . . . . . . .
     . . . . . . . . . . . . . . .
     . . . . . . . . . . . . . . .
     . . . . . . . . . . . . . . .
     . . . . o o . . o . o o . . .
     . . . . . . . . . . . . . . .
     . . . . . . . . . . . . . . .
     . . . . . . . . . . . . . . .
     . . . . . . . . . . . . . . .
     . . . . . . . . . . . . . . .
     . . . . . . . . . . . . . . .
     . . . . . . . . . . . . . . .
    ")?;
    let result = forbidden(&grid, Point(7, 7));
    assert_eq!(result, Some(DoubleFour));

    // Two fours on one line: D8-F8 and J8-L8, eyes G8 and I8.
    let grid = parse_grid("
     . . . . . . . . . . . . . . .
     . . . . . . . . . . . . . . .
     . . . . . . . . . . . . . . .
     . . . . . . . . . . . . . . .
     . . . . . . . . . . . . . . .
     . . . . . . . . . . . . . . .
     . . . . . . . . . . . . . . .
     . . . o o o . . . o o o . . .
     . . . . . . . . . . . . . . .
     . . . . . . . . . . . . . . .
     . . . . . . . . . . . . . . .
     . . . . . . . . . . . . . . .
     . . . . . . . . . . . . . . .
     . . . . . . . . . . . . . . .
     . . . . . . . . . . . . . . .
    ")?;
    let result = forbidden(&grid, Point(7, 7));
    assert_eq!(result, Some(DoubleFour));

    // G8 or I8 would each make six, so H8 makes no four at all.
    let grid = parse_grid("
     . . . . . . . . . . . . . . .
     . . . . . . . . . . . . . . .
     . . . . . . . . . . . . . . .
     . . . . . . . . . . . . . . .
     . . . . . . . . . . . . . . .
     . . . . . . . . . . . . . . .
     . . . . . . . . . . . . . . .
     . . o o o o . . . o o o o . .
     . . . . . . . . . . . . . . .
     . . . . . . . . . . . . . . .
     . . . . . . . . . . . . . . .
     . . . . . . . . . . . . . . .
     . . . . . . . . . . . . . . .
     . . . . . . . . . . . . . . .
     . . . . . . . . . . . . . . .
    ")?;
    let result = forbidden(&grid, Point(7, 7));
    assert_eq!(result, None);

    // The same in two directions: both fours would complete as overlines.
    let grid = parse_grid("
     . . . . . . . . . . . . . . .
     . . . . . . . . . . . . . . .
     . . . . . . . o . . . . . . .
     . . . . . . . o . . . . . . .
     . . . . . . . o . . . . . . .
     . . . . . . . o . . . . . . .
     . . . . . . . . . . . . . . .
     . . o o o o . . . . . . . . .
     . . . . . . . . . . . . . . .
     . . . . . . . . . . . . . . .
     . . . . . . . . . . . . . . .
     . . . . . . . . . . . . . . .
     . . . . . . . . . . . . . . .
     . . . . . . . . . . . . . . .
     . . . . . . . . . . . . . . .
    ")?;
    let result = forbidden(&grid, Point(7, 7));
    assert_eq!(result, None);

    // H8 is too far from either three to make a four.
    let grid = parse_grid("
     . . . . . . . . . . . . . . .
     . . . . . . . . . . . . . . .
     . . . . . . . . . . . . . . .
     . . . . . . . . . . . . . . .
     . . . . . . . . . . . . . . .
     . . . . . . . . . . . . . . .
     . . . . . . . . . . . . . . .
     . . o o o . . . . . o o o . .
     . . . . . . . . . . . . . . .
     . . . . . . . . . . . . . . .
     . . . . . . . . . . . . . . .
     . . . . . . . . . . . . . . .
     . . . . . . . . . . . . . . .
     . . . . . . . . . . . . . . .
     . . . . . . . . . . . . . . .
    ")?;
    let result = forbidden(&grid, Point(7, 7));
    assert_eq!(result, None);

    // H8 is next to neither four.
    let grid = parse_grid("
     . . . . . . . . . . . . . . .
     . . . . . . . . . . . . . . .
     . . . . . . . . . . . . . . .
     . . . . . . . . . . . . . . .
     . . . . . . . . . . . . . . .
     . . . . . . . . . . . . . . .
     . . . . . . . . . . . . . . .
     . o o o o . . . . . o o o o .
     . . . . . . . . . . . . . . .
     . . . . . . . . . . . . . . .
     . . . . . . . . . . . . . . .
     . . . . . . . . . . . . . . .
     . . . . . . . . . . . . . . .
     . . . . . . . . . . . . . . .
     . . . . . . . . . . . . . . .
    ")?;
    let result = forbidden(&grid, Point(7, 7));
    assert_eq!(result, None);

    // A single four is fine.
    let grid = parse_grid("
     . . . . . . . . . . . . . . .
     . . . . . . . . . . . . . . .
     . . . . . . . . . . . . . . .
     . . . . . . . . . . . . . . .
     . . . . . . . . . . . . . . .
     . . . . . . . . . . . . . . .
     . . . . . . . . . . . . . . .
     . . . . . o o . o . . . . . .
     . . . . . . . . . . . . . . .
     . . . . . . . . . . . . . . .
     . . . . . . . . . . . . . . .
     . . . . . . . . . . . . . . .
     . . . . . . . . . . . . . . .
     . . . . . . . . . . . . . . .
     . . . . . . . . . . . . . . .
    ")?;
    let result = forbidden(&grid, Point(7, 7));
    assert_eq!(result, None);

    // The first position with D12 and White's J6: the diagonal four could
    // only be completed as an overline (D12-I7), leaving one four.
    let grid = parse_grid("
     . . . . . . . . . . . . . . .
     . . . . . . . . . . . . . . .
     . . . . . . . . . . . . . . .
     . . . o . . . . . . . . . . .
     . . . . . . . . . . . . . . .
     . . . . . o . . . . . . . . .
     . . . . . . o . . . . . . . .
     . . . . . o o . o . . . . . .
     . . . . . . . . o . . . . . .
     . . . . . . . . . x . . . . .
     . . . . . . . . . . . . . . .
     . . . . . . . . . . . . . . .
     . . . . . . . . . . . . . . .
     . . . . . . . . . . . . . . .
     . . . . . . . . . . . . . . .
    ")?;
    let result = forbidden(&grid, Point(7, 7));
    assert_eq!(result, None);

    // The same on the bit board.
    {
        let square = BitSquare::parse("
            ---------------
            ---------------
            ---------------
            ---------------
            ---------------
            -----o---------
            ------o--------
            -----oo-o------
            --------o------
            ---------------
            ---------------
            ---------------
            ---------------
            ---------------
            ---------------
        ")?;
        let result = bit_forbidden(&square, BitPoint(7, 7));
        assert_eq!(result, Some(BitKind::DoubleFour));

        let square = BitSquare::parse("
            ---------------
            ---------------
            ---------------
            ---------------
            ---------------
            ---------------
            ---------------
            ----o-o-o-o----
            ---------------
            ---------------
            ---------------
            ---------------
            ---------------
            ---------------
            ---------------
        ")?;
        let result = bit_forbidden(&square, BitPoint(7, 7));
        assert_eq!(result, Some(BitKind::DoubleFour));

        let square = BitSquare::parse("
            ---------------
            ---------------
            ---------------
            ---------------
            ---------------
            ---------------
            ---------------
            ----oo--o-oo---
            ---------------
            ---------------
            ---------------
            ---------------
            ---------------
            ---------------
            ---------------
        ")?;
        let result = bit_forbidden(&square, BitPoint(7, 7));
        assert_eq!(result, Some(BitKind::DoubleFour));

        let square = BitSquare::parse("
            ---------------
            ---------------
            ---------------
            ---------------
            ---------------
            ---------------
            ---------------
            ---ooo---ooo---
            ---------------
            ---------------
            ---------------
            ---------------
            ---------------
            ---------------
            ---------------
        ")?;
        let result = bit_forbidden(&square, BitPoint(7, 7));
        assert_eq!(result, Some(BitKind::DoubleFour));

        let square = BitSquare::parse("
            ---------------
            ---------------
            ---------------
            ---------------
            ---------------
            ---------------
            ---------------
            -----oo-o------
            ---------------
            ---------------
            ---------------
            ---------------
            ---------------
            ---------------
            ---------------
        ")?;
        let result = bit_forbidden(&square, BitPoint(7, 7));
        assert_eq!(result, None);

        let square = BitSquare::parse("
            ---------------
            ---------------
            ---------------
            ---o-----------
            ---------------
            -----o---------
            ------o--------
            -----oo-o------
            --------o------
            ---------x-----
            ---------------
            ---------------
            ---------------
            ---------------
            ---------------
        ")?;
        let result = bit_forbidden(&square, BitPoint(7, 7));
        assert_eq!(result, None);
    }
    Ok(())
}

#[test]
fn forbidden_test_overline() -> Result<(), String> {
    // H8 fills E8-J8, six in a row.
    let grid = parse_grid("
     . . . . . . . . . . . . . . .
     . . . . . . . . . . . . . . .
     . . . . . . . . . . . . . . .
     . . . . . . . . . . . . . . .
     . . . . . . . . . . . . . . .
     . . . . . . . . . . . . . . .
     . . . . . . . . . . . . . . .
     . . . . o o o . o o . . . . .
     . . . . . . . . . . . . . . .
     . . . . . . . . . . . . . . .
     . . . . . . . . . . . . . . .
     . . . . . . . . . . . . . . .
     . . . . . . . . . . . . . . .
     . . . . . . . . . . . . . . .
     . . . . . . . . . . . . . . .
    ")?;
    let result = forbidden(&grid, Point(7, 7));
    assert_eq!(result, Some(Overline));

    // Only E8-H8 would be connected: no six.
    let grid = parse_grid("
     . . . . . . . . . . . . . . .
     . . . . . . . . . . . . . . .
     . . . . . . . . . . . . . . .
     . . . . . . . . . . . . . . .
     . . . . . . . . . . . . . . .
     . . . . . . . . . . . . . . .
     . . . . . . . . . . . . . . .
     . . . . o o o . . o o . . . .
     . . . . . . . . . . . . . . .
     . . . . . . . . . . . . . . .
     . . . . . . . . . . . . . . .
     . . . . . . . . . . . . . . .
     . . . . . . . . . . . . . . .
     . . . . . . . . . . . . . . .
     . . . . . . . . . . . . . . .
    ")?;
    let result = forbidden(&grid, Point(7, 7));
    assert_eq!(result, None);

    // The same on the bit board.
    {
        let square = BitSquare::parse("
            ---------------
            ---------------
            ---------------
            ---------------
            ---------------
            ---------------
            ---------------
            ----ooo-oo-----
            ---------------
            ---------------
            ---------------
            ---------------
            ---------------
            ---------------
            ---------------
        ")?;
        let result = bit_forbidden(&square, BitPoint(7, 7));
        assert_eq!(result, Some(BitKind::Overline));

        let square = BitSquare::parse("
            ---------------
            ---------------
            ---------------
            ---------------
            ---------------
            ---------------
            ---------------
            ----ooo--oo----
            ---------------
            ---------------
            ---------------
            ---------------
            ---------------
            ---------------
            ---------------
        ")?;
        let result = bit_forbidden(&square, BitPoint(7, 7));
        assert_eq!(result, None);
    }
    Ok(())
}
