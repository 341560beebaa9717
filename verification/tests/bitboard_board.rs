use quintet::bitboard::board::Board;
use quintet::bitboard::forbidden::ForbiddenKind::DoubleThree;
use quintet::bitboard::fundamentals::Player::{Black, White};
use quintet::bitboard::fundamentals::RowKind::{Three, Two};
use quintet::bitboard::point::Direction::{Ascending, Horizontal, Vertical};
use quintet::bitboard::point::Point;
use quintet::bitboard::square::Row as RowSegment;

fn trim_lines_string(s: &str) -> String {
    s.trim().split("\n").map(|ls| ls.trim()).collect::<Vec<_>>().join("\n")
}

#[test]
fn test() -> Result<(), String> {
    let mut board = Board::new();
    board.put(Black, Point(7, 7));
    board.put(White, Point(7, 8));
    board.put(Black, Point(9, 9));
    board.put(White, Point(8, 8));
    board.put(Black, Point(6, 8));
    board.put(White, Point(8, 6));
    board.put(Black, Point(6, 9));
    board.put(White, Point(8, 9));
    board.put(Black, Point(8, 7));
    board.put(White, Point(5, 6));

    let expected = trim_lines_string(
        "
        ---------------
        ---------------
        ---------------
        ---------------
        ---------------
        ------o-xo-----
        ------oxx------
        -------oo------
        -----x--x------
        ---------------
        ---------------
        ---------------
        ---------------
        ---------------
        ---------------
    ",
    );
    assert_eq!(board.to_string(), expected);

    let black_twos = [
        RowSegment::new(
            Vertical,
            Point(6, 5),
            Point(6, 10),
            Some(Point(6, 6)),
            Some(Point(6, 7)),
        ),
        RowSegment::new(
            Vertical,
            Point(6, 6),
            Point(6, 11),
            Some(Point(6, 7)),
            Some(Point(6, 10)),
        ),
        RowSegment::new(
            Vertical,
            Point(6, 7),
            Point(6, 12),
            Some(Point(6, 10)),
            Some(Point(6, 11)),
        ),
        RowSegment::new(
            Horizontal,
            Point(4, 7),
            Point(9, 7),
            Some(Point(5, 7)),
            Some(Point(6, 7)),
        ),
        RowSegment::new(
            Horizontal,
            Point(5, 7),
            Point(10, 7),
            Some(Point(6, 7)),
            Some(Point(9, 7)),
        ),
        RowSegment::new(
            Horizontal,
            Point(6, 7),
            Point(11, 7),
            Some(Point(9, 7)),
            Some(Point(10, 7)),
        ),
    ];
    let white_twos = [
        RowSegment::new(
            Horizontal,
            Point(4, 6),
            Point(9, 6),
            Some(Point(6, 6)),
            Some(Point(7, 6)),
        ),
        RowSegment::new(
            Ascending,
            Point(6, 7),
            Point(11, 12),
            Some(Point(9, 10)),
            Some(Point(10, 11)),
        ),
    ];
    let white_threes = [RowSegment::new(
        Ascending,
        Point(4, 5),
        Point(9, 10),
        Some(Point(6, 7)),
        None,
    )];

    assert_eq!(board.rows(Black, Two), black_twos);
    assert_eq!(board.rows(White, Two), white_twos);
    assert_eq!(board.rows(White, Three), white_threes);
    assert_eq!(
        board.rows_on(Black, Two, Point(7, 7)),
        [
            black_twos[3].clone(),
            black_twos[4].clone(),
            black_twos[5].clone()
        ]
    );
    assert_eq!(
        board.row_eyes(Black, Two),
        [
            Point(5, 7),
            Point(6, 6),
            Point(6, 7),
            Point(6, 10),
            Point(6, 11),
            Point(9, 7),
            Point(10, 7)
        ]
    );
    assert_eq!(
        board.row_eyes_along(Black, Two, Point(6, 6)),
        [Point(6, 6), Point(6, 7), Point(6, 10), Point(6, 11)]
    );

    assert_eq!(board.forbiddens(), [(DoubleThree, Point(6, 7))]);
    assert_eq!(board.forbidden(Point(6, 7)), Some(DoubleThree));
    Ok(())
}

/// A board read back from its own text holds the same stones.
#[test]
fn test_board_text_round_trip() -> Result<(), String> {
    let mut board = Board::new();
    board.put(Black, Point(7, 7));
    board.put(White, Point(8, 8));
    board.put(Black, Point(0, 14));
    let again = Board::parse(&board.to_string())?;
    assert_eq!(again.to_string(), board.to_string());
    assert!(Board::parse("H8/I9/J9").is_err());
    assert!(Board::parse("---\n---").is_err());
    Ok(())
}
