use quintet::bitboard::fundamentals::Player as BitPlayer;
use quintet::bitboard::point::Point as BitPoint;
use quintet::bitboard::square::Square as BitSquare;
use quintet::board::player::{Black, Player, White};
use quintet::board::point::{Ascending, Descending, Direction, Horizontal, Point, Points, Vertical, RANGE};
use quintet::board::square::{Square, D_LINE_NUM, D_LINE_OMIT};
use quintet::board::structure::StructureKind;
const ALL_DIRECTIONS: [Direction; 4] = [Vertical, Horizontal, Ascending, Descending];

fn points(ps: Vec<Point>) -> String {
    Points(ps).to_string()
}

/// Every point is stored once per direction; all four copies must agree
/// with `expected` after any sequence of puts and removes.
fn assert_lines_agree(square: &Square, expected: &[(Point, Player)]) {
    for x in 0..RANGE {
        for y in 0..RANGE {
            let p = Point(x, y);
            let want = expected.iter().find(|(q, _)| *q == p).map(|&(_, r)| r);
            for d in ALL_DIRECTIONS {
                if let Some(line) = square.line_on(p, d) {
                    assert_eq!(line.stone(p.to_index(d).j), want, "{} {d:?}", p.to_string());
                }
            }
        }
    }
}

#[test]
fn square_test_put_and_remove() {
    let mut square = Square::new();
    // The centre, and a stone near each corner, where the diagonals are
    // short or not stored at all.
    let stones = [
        (Point(7, 7), Black),
        (Point(8, 8), White),
        (Point(9, 8), Black),
        (Point(1, 1), Black),
        (Point(1, 13), White),
        (Point(13, 1), Black),
        (Point(13, 13), White),
        (Point(0, 0), White),
    ];
    for (p, r) in stones {
        square.put_mut(r, p);
    }
    assert_lines_agree(&square, &stones);

    // Replacing a stone, removing two, and removing from an empty point.
    square.put_mut(Black, Point(1, 13));
    square.remove_mut(Point(7, 7));
    square.remove_mut(Point(8, 8));
    square.remove_mut(Point(9, 9));
    let stones = [
        (Point(9, 8), Black),
        (Point(1, 1), Black),
        (Point(1, 13), Black),
        (Point(13, 1), Black),
        (Point(13, 13), White),
        (Point(0, 0), White),
    ];
    assert_lines_agree(&square, &stones);
    assert_eq!(points(square.stones(Black)), "B2,B14,J9,N2");
    assert_eq!(points(square.stones(White)), "A1,N14");
    assert_eq!(square.empties().len(), 225 - 6);
}

#[test]
fn test_lines() -> Result<(), String> {
    let square = Square::parse("H8,I9,J9")?;

    // The diagonals shorter than a five are not stored.
    assert!(square.line(Ascending, D_LINE_OMIT).is_some());
    assert!(square.line(Ascending, D_LINE_OMIT - 1).is_none());
    assert!(square.line(Descending, D_LINE_OMIT - 1).is_none());
    assert!(square.line_on(Point(0, 0), Descending).is_none());

    // `lines` and `lines_on` agree with `line`.
    assert_eq!(
        square.lines().len(),
        (RANGE as usize + D_LINE_NUM as usize) * 2
    );
    for (d, i, line) in square.lines() {
        assert_eq!(square.line(d, i), Some(&line));
    }
    assert_eq!(square.lines_on(Point(7, 7)).len(), 4);
    assert_eq!(square.lines_on(Point(0, 0)).len(), 3);
    for (d, i, line) in square.lines_on(Point(7, 7)) {
        let index = Point(7, 7).to_index(d);
        assert_eq!(i, index.i);
        assert_eq!(line.stone(index.j), Some(Black));
    }

    Ok(())
}

#[test]
fn test_structures() -> Result<(), String> {
    let square = Square::parse("
     . . . . . . . . . . . . . . .
     . . . . . . . . . . . . . . .
     . . . . . . . . . . . . . . .
     . . . . . . . . . . . . . . .
     . . . . . . . . . . . . . . .
     . . . . . . . . . . . . . . .
     . . . . . . . x x x o . . . .
     . . . . . . . o . . . . . . .
     . . . . . . . . . . . . . . .
     . . . . . . . o . . . . . . .
     . . . . . . . . . . . . . . .
     . . . . . . . . . . . . . . .
     . . . . . . . . . . . . . . .
     . . . . . . . . . . . . . . .
     . . . . . . . . . . . . . . .
    ")?;

    // Black's only open two is H6-K9 on the diagonal: H6-H8 is closed
    // by White's H9.
    let twos: Vec<_> = square.structures(Black, StructureKind::Two);
    assert_eq!(twos.len(), 1);
    assert_eq!(points(twos[0].eyes()), "I7,J8");

    // White's H9-J9 is closed by K9, so it is a sword (three stones that
    // can only become a closed four), not a three.
    assert_eq!(square.structures(White, StructureKind::Three).len(), 0);
    let swords: Vec<_> = square.structures(White, StructureKind::Sword);
    assert_eq!(swords.len(), 1);
    assert_eq!(points(swords[0].stones()), "H9,I9,J9");
    assert_eq!(points(swords[0].eyes()), "F9,G9");

    // `structures_on` is the same search, limited to one point's lines.
    let on_h9: Vec<_> = square.structures_on(Point(7, 8), White, StructureKind::Sword);
    assert_eq!(on_h9, swords);
    assert_eq!(square.structures_on(Point(7, 8), Black, StructureKind::Two).len(), 0);

    Ok(())
}

#[test]
fn square_test_potentials() -> Result<(), String> {
    let square = Square::parse("
     . . . . . . . . . . . . . . .
     . . . . . . . . . . . . . . .
     . . . . . . . . . . . . . . .
     . . . . . . . . . . . . . . .
     . . . . . . . . . . . . . . .
     . . . . . . . . . . . . . . .
     . . . . . . . x x x o . . . .
     . . . . . . . o . . . . . . .
     . . . . . . . . . . . . . . .
     . . . . . . . o . . . . . . .
     . . . . . . . . . . . . . . .
     . . . . . . . . . . . . . . .
     . . . . . . . . . . . . . . .
     . . . . . . . . . . . . . . .
     . . . . . . . . . . . . . . .
    ")?;
    let potentials = |r, min, exact| -> Vec<(Direction, String, u8)> {
        square
            .potentials(r, min, exact)
            .into_iter()
            .map(|(i, o)| (i.d, i.to_point().to_string(), o))
            .collect()
    };

    // Line by line, the empty points and what `Line::potentials` gives
    // them: see `potential.rs`.
    let expected = [
        (Vertical, "H4".to_string(), 3),
        (Vertical, "H5".to_string(), 3),
        (Vertical, "H7".to_string(), 3),
        (Ascending, "G5".to_string(), 3),
        (Ascending, "I7".to_string(), 6),
        (Ascending, "J8".to_string(), 6),
        (Ascending, "L10".to_string(), 3),
    ];
    assert_eq!(potentials(Black, 3, true), expected);

    let expected = [
        (Horizontal, "E9".to_string(), 3),
        (Horizontal, "F9".to_string(), 4),
        (Horizontal, "G9".to_string(), 4),
    ];
    assert_eq!(potentials(White, 3, false), expected);

    // `potentials_along` is the same, limited to one point's lines.
    let along: Vec<_> = square
        .potentials_along(Point(7, 8), White, 3, false);
    let all: Vec<_> = square.potentials(White, 3, false);
    assert_eq!(along, all);

    Ok(())
}

#[test]
fn square_test_parse() -> Result<(), String> {
    let mut expected = Square::new();
    expected.put_mut(Black, Point(7, 7));
    expected.put_mut(White, Point(8, 8));
    expected.put_mut(Black, Point(9, 8));

    // Moves, alternating from Black.
    assert_eq!(Square::parse("H8,I9,J9")?, expected);
    // Black stones / White stones.
    assert_eq!(Square::parse("H8,J9/I9")?, expected);
    // The board as `Display` writes it, row 15 first.
    let s = "
     . . . . . . . . . . . . . . .
     . . . . . . . . . . . . . . .
     . . . . . . . . . . . . . . .
     . . . . . . . . . . . . . . .
     . . . . . . . . . . . . . . .
     . . . . . . . . . . . . . . .
     . . . . . . . . x o . . . . .
     . . . . . . . o . . . . . . .
     . . . . . . . . . . . . . . .
     . . . . . . . . . . . . . . .
     . . . . . . . . . . . . . . .
     . . . . . . . . . . . . . . .
     . . . . . . . . . . . . . . .
     . . . . . . . . . . . . . . .
     . . . . . . . . . . . . . . .
    ";
    assert_eq!(Square::parse(s)?, expected);
    assert_eq!(Square::parse(&expected.to_string())?, expected);

    assert!(Square::parse(". . .\n. . .").is_err());
    // The same on the bit board.
    {
        let result = BitSquare::parse("H8,J9/I9")?;
        let mut expected = BitSquare::new();
        expected.put(BitPlayer::Black, BitPoint(7, 7));
        expected.put(BitPlayer::White, BitPoint(8, 8));
        expected.put(BitPlayer::Black, BitPoint(9, 8));
        assert_eq!(result, expected);

        let result = BitSquare::parse("
            x-------------x
            ---------------
            ---------------
            ---------------
            ---------------
            ---------------
            --------xo-----
            -------o-------
            ---------------
            ---------------
            ---------------
            ---------------
            ---------------
            ---------------
            o-------------o
        ")?;
        let mut expected = BitSquare::new();
        expected.put(BitPlayer::Black, BitPoint(7, 7));
        expected.put(BitPlayer::White, BitPoint(8, 8));
        expected.put(BitPlayer::Black, BitPoint(9, 8));
        expected.put(BitPlayer::Black, BitPoint(0, 0));
        expected.put(BitPlayer::White, BitPoint(0, 14));
        expected.put(BitPlayer::Black, BitPoint(14, 0));
        expected.put(BitPlayer::White, BitPoint(14, 14));
        assert_eq!(result, expected);
    }
    Ok(())
}

#[test]
fn test_to_pretty_string() {
    let mut square = Square::new();
    square.put_mut(Black, Point(7, 7));
    square.put_mut(White, Point(8, 8));
    square.put_mut(Black, Point(0, 0));
    square.put_mut(White, Point(14, 14));
    let expected = "
15 . . . . . . . . . . . . . . x
14 . . . . . . . . . . . . . . .
13 . . . . . . . . . . . . . . .
12 . . . . . . . . . . . . . . .
11 . . . . . . . . . . . . . . .
10 . . . . . . . . . . . . . . .
 9 . . . . . . . . x . . . . . .
 8 . . . . . . . o . . . . . . .
 7 . . . . . . . . . . . . . . .
 6 . . . . . . . . . . . . . . .
 5 . . . . . . . . . . . . . . .
 4 . . . . . . . . . . . . . . .
 3 . . . . . . . . . . . . . . .
 2 . . . . . . . . . . . . . . .
 1 o . . . . . . . . . . . . . .
   A B C D E F G H I J K L M N O
    "
    .trim();
    assert_eq!(square.to_pretty_string(), expected);
}

#[test]
fn test_square_parse_errors() {
    assert!(matches!(Square::parse(". . .\n. . ."), Err("Wrong num of lines")));
    let long = vec![". ".repeat(16); 15].join("\n");
    assert!(matches!(Square::parse(&long), Err("Wrong length.")));
    let mut rows = vec![". ".repeat(15); 15];
    rows[3] = ". ".repeat(14);
    assert!(matches!(Square::parse(&rows.join("\n")), Err("Wrong line size")));
    assert!(matches!(Square::parse("H8,Z9"), Err("Failed to parse x part.")));
    assert!(matches!(Square::parse("H8/I0"), Err("Failed to parse y part.")));
    assert!(matches!(BitSquare::parse("H8/I9/J9"), Err("Unknown format.")));
    assert!(matches!(BitSquare::parse("---\n---"), Err("Wrong num of lines")));
    let mut bit_rows = vec!["-".repeat(15); 15];
    bit_rows[0] = "-".repeat(16);
    assert!(matches!(BitSquare::parse(&bit_rows.join("\n")), Err("Wrong length.")));
    bit_rows[0] = "-".repeat(10);
    assert!(matches!(BitSquare::parse(&bit_rows.join("\n")), Err("Wrong line size")));
}

#[test]
fn test_neighbors_distances() {
    let mut square = Square::new();
    square.put_mut(Black, Point(7, 8));
    let near = square.neighbors(Point(7, 7), 1, false);
    assert_eq!(
        near,
        vec![
            Point(7, 6), Point(7, 7), Point(7, 8),
            Point(6, 7), Point(7, 7), Point(8, 7),
            Point(6, 6), Point(7, 7), Point(8, 8),
            Point(6, 8), Point(7, 7), Point(8, 6),
        ]
    );
    let empty = square.neighbors(Point(7, 7), 1, true);
    assert_eq!(empty.len(), 11);
    assert!(!empty.contains(&Point(7, 8)));
    // A walk past the board's edge gives nothing more.
    assert_eq!(square.neighbors(Point(0, 0), 127, false), square.neighbors(Point(0, 0), 20, false));
    // A distance over 128 reads as negative: nothing.
    assert!(square.neighbors(Point(7, 7), 200, false).is_empty());
}
