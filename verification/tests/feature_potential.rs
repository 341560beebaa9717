use quintet::board::board::Board;
use quintet::board::player::{Black, White};
use quintet::board::point::{Point, Points};
use quintet::feature::potential::PotentialField;
fn board() -> Board {
    Board::parse("
     . . . . . . . . . . . . . . .
     . . . . . . . . . . . . . . .
     . . . . . . . . . . . . . . .
     . . . . . . . . . . . . . . .
     . . . . . . . . . . . . . . .
     . . . . . . o . . o . . . . .
     . . . . . . o x x . . . . . .
     . . . . . . . o . . . . . . .
     . . . . . . . . x . . . . . .
     . . . . . . . . . . . . . . .
     . . . . . . . . . . . . . . .
     . . . . . . . . . . . . . . .
     . . . . . . . . . . . . . . .
     . . . . . . . . . . . . . . .
     . . . . . . . . . . . . . . .
    ").unwrap()
}

/// A point's value is the sum of its potentials along the four lines
/// through it (see `potential.rs`).
#[test]
fn test_init() {
    let board = board();
    let field = PotentialField::init(Black, 3, &board);
    // G8: three vertical windows hold both G9 and G10 (3 each), and no
    // other line through G8 reaches `min`: 9.
    let expected = trim_lines_string(
        "
         . . . . . . . . . . . . . . .
         . . . . . . . . . . . . . . .
         . . . . . . 3 . . . . . . . .
         . . . 3 . . 6 . . . . . . . .
         . . . . 3 . 9 . . . . . . . .
         . . . . . 6 o 6 6 o 3 . . . .
         . . . . . . o x x . . . . . .
         . . . . . . 9 o . . . . . . .
         . . . . . . 6 . x . . . . . .
         . . . . . . 3 . . . . . . . .
         . . . . . . . . . . . . . . .
         . . . . . . . . . . . . . . .
         . . . . . . . . . . . . . . .
         . . . . . . . . . . . . . . .
         . . . . . . . . . . . . . . .
    ",
    );
    assert_eq!(field.overlay(&board), expected);

    // `collect` lists the same values, point by point.
    let collected = field.collect(6);
    assert_eq!(
        collected,
        [
            (Point(5, 9), 6),
            (Point(6, 6), 6),
            (Point(6, 7), 9),
            (Point(6, 10), 9),
            (Point(6, 11), 6),
            (Point(7, 9), 6),
            (Point(8, 9), 6),
        ]
    );
    assert!(collected.iter().all(|&(p, o)| field.get(p) == o));
}

/// `update_along` only recomputes the lines through the move. That has
/// to leave the field exactly as a fresh `init` would.
#[test]
fn test_update_along_matches_init() -> Result<(), String> {
    let moves = Points::parse("F8,F7,J9,H10,G11,J7")?.into_vec();
    for (player, min) in [(Black, 2), (Black, 3), (White, 2), (White, 3)] {
        let mut board = board();
        let mut field = PotentialField::init(player, min, &board);
        let mut turn = Black;
        for &p in &moves {
            board.put_mut(turn, p);
            field.update_along(p, &board);
            let fresh = PotentialField::init(player, min, &board);
            assert_eq!(
                field.collect(0),
                fresh.collect(0),
                "{player:?} {min} put {}", p.to_string()
            );
            turn = turn.opponent();
        }
        // Taking the moves back, as a search does on the way up.
        for &p in moves.iter().rev() {
            board.remove_mut(p);
            field.update_along(p, &board);
            let fresh = PotentialField::init(player, min, &board);
            assert_eq!(
                field.collect(0),
                fresh.collect(0),
                "{player:?} {min} remove {}", p.to_string()
            );
        }
    }
    Ok(())
}

fn trim_lines_string(s: &str) -> String {
    s.trim()
        .split("\n")
        .map(|ls| " ".to_string() + ls.trim())
        .collect::<Vec<_>>()
        .join("\n")
}
