use quintet::board::board::Board;
use quintet::board::player::Player::{self, Black, White};
use quintet::board::point::{Ascending, Descending, Horizontal, Point, Points, Vertical};
use quintet::feature::shape::Shape::{Five, Four, Nothing, Sword, Three, Two};
use quintet::feature::shape::{Shape, ShapeMap, Shapes};

fn shapes(map: &ShapeMap, p: &str, r: Player) -> [Shape; 4] {
    map.get(Point::parse(p).unwrap(), r).0
}

fn same_shapes(a: &ShapeMap, b: &ShapeMap) -> bool {
    (0..15u8).all(|x| {
        (0..15u8).all(|y| {
            let p = Point(x, y);
            a.get(p, Black) == b.get(p, Black) && a.get(p, White) == b.get(p, White)
        })
    })
}

#[test]
fn test_shapes() -> Result<(), String> {
    let board = Board::parse(
        "
         . . . . . . . . . . . . . . .
         . . . . . . . . . . . . . . .
         . . . . . . . . . . . . . . .
         . . . . . . . . . . . . . . .
         . . . . . . . . . . . . . . .
         . . . . . . . . . . . . . . .
         . . . . . . . . . . . . . . .
         . . . . . o o . o . . . . . .
         . . . . . . . . . . . . . . .
         . . . . . . . . . . . . . . .
         . . . . . . . . . . . . . . .
         . . . . . . . . . . . . . . .
         . . . . . x x x . . . . . . .
         . . . . . . . . . . . . . . .
         . . . . . . . . . . . . . . .
        ",
    )?;
    let map = ShapeMap::init(&board);
    // [Vertical, Horizontal, Ascending, Descending]
    assert_eq!(shapes(&map, "H8", Black), [Nothing, Four, Nothing, Nothing]);
    assert_eq!(shapes(&map, "E8", Black), [Nothing, Four, Nothing, Nothing]);
    assert_eq!(shapes(&map, "H9", Black), [Nothing, Nothing, Two, Two]);
    assert_eq!(shapes(&map, "G9", Black), [Two, Nothing, Two, Nothing]);
    // D8-H8 and H8-L8 are dead for Black, next to I8 and G8: filling
    // them would make an overline. C8-G8 holds two, but alone.
    assert_eq!(shapes(&map, "D8", Black), [Nothing, Sword, Nothing, Nothing]);
    assert_eq!(shapes(&map, "K8", Black), [Nothing; 4]);
    // White's three, both ends open.
    assert_eq!(shapes(&map, "E3", White), [Nothing, Four, Nothing, Nothing]);
    assert_eq!(shapes(&map, "J3", White), [Nothing, Four, Nothing, Nothing]);
    assert_eq!(shapes(&map, "C3", White), [Nothing, Sword, Nothing, Nothing]);
    assert_eq!(shapes(&map, "G4", White), [Two, Nothing, Two, Two]);
    // Occupied points make nothing.
    assert_eq!(shapes(&map, "F8", Black), [Nothing; 4]);
    Ok(())
}

#[test]
fn test_looks_forbidden() -> Result<(), String> {
    // H8 is a double-three for Black, and one of White's four eyes.
    let board = Board::parse(
        "
         . . . . . . . . . . . . . . .
         . . . . . . . . . . . . . . .
         . . . . . . . . . . . . . . .
         . . . . . . . x . . . . . . .
         . . . . . . . x . . . . . . .
         . . . . . . . x . o . . . . .
         . . . . . . . . o . . . . . .
         . . . . . o o . . . . . . . .
         . . . . . . . . . . . . . . .
         . . . . . . . . . . . . . . .
         . . . . . . . . . . . . . . .
         . . . . . . . . . . . . . . .
         . . . . . . . . . . . . . . .
         . . . . . . . . . . . . . . .
         . . . . . . . . . . . . . . .
        ",
    )?;
    let map = ShapeMap::init(&board);
    let h8 = Point::parse("H8")?;
    assert!(board.forbidden(h8).is_some());
    assert!(map.get(h8, Black).looks_forbidden());
    assert!(!map.get(Point::parse("E8")?, Black).looks_forbidden());
    // White's H9 makes two fours, H8-H12 and H9-H13: Black cannot
    // block the first at H8.
    let h9 = Point::parse("H9")?;
    assert_eq!(map.forbidden_eyes(&board, h9, White), (1, 0));
    assert_eq!(map.forbidden_eyes(&board, h9, Black), (0, 0));
    // White's H9 is on no other line through H8 than the vertical one,
    // so Black's two threes stay.
    assert!(map.get(h8, Black).except(Vertical).looks_forbidden());
    Ok(())
}

/// The map has to say what a fresh one says after any run of moves.
#[test]
fn test_lazy_matches_a_fresh_one() -> Result<(), String> {
    let mut board = Board::parse("H8,I9,J9,H7")?;
    let mut map = ShapeMap::init(&board);
    let moves = Points::parse("G7,K9,H9,F6,G8,I7")?.into_vec();
    let mut turn = Black;
    for (n, &p) in moves.iter().enumerate() {
        board.put_mut(turn, p);
        map.mark_stale(p);
        if n % 2 == 1 {
            map.sync(&board);
            assert!(same_shapes(&map, &ShapeMap::init(&board)));
        }
        turn = turn.opponent();
    }
    for &p in moves.iter().rev() {
        board.remove_mut(p);
        map.mark_stale(p);
    }
    map.sync(&board);
    assert!(same_shapes(&map, &ShapeMap::init(&board)));
    Ok(())
}

#[test]
fn test_new_map_is_stale() {
    let map = ShapeMap::new();
    assert!(!map.is_synced());
    let board = Board::new();
    let fresh = ShapeMap::init(&board);
    assert!(fresh.is_synced());
    // Nothing is made on an empty board, and nothing on a short diagonal.
    assert_eq!(shapes(&fresh, "H8", Black), [Nothing; 4]);
    assert_eq!(shapes(&fresh, "A15", White), [Nothing; 4]);
}

#[test]
fn test_black_three_with_a_forbidden_eye() -> Result<(), String> {
    // Black's H8 makes the three F8-H8 twice: as E8-H8, whose other eye E8
    // is quiet, and as F8-I8, whose other eye I8 already makes a four
    // along the I column. That one three counts.
    let board = Board::parse(
        "
         . . . . . . . . . . . . . . .
         . . . . . . . . . . . . . . .
         . . . . . . . . . . . . . . .
         . . . . . . . . . . . . . . .
         . . . . . . . . o . . . . . .
         . . . . . . . . o . . . . . .
         . . . . . . . . o . . . . . .
         . . . . . o o . . . . . . . .
         . . . . . . . . . . . . . . .
         . . . . . . . . . . . . . . .
         . . . . . . . . . . . . . . .
         . . . . . . . . . . . . . . .
         . . . . . . . . . . . . . . .
         . . . . . . . . . . . . . . .
         . . . . . . . . . . . . . . .
        ",
    )?;
    let map = ShapeMap::init(&board);
    assert_eq!(shapes(&map, "H8", Black), [Nothing, Three, Two, Nothing]);
    assert_eq!(shapes(&map, "I8", Black), [Four, Three, Nothing, Nothing]);
    assert_eq!(shapes(&map, "E8", Black), [Nothing, Three, Nothing, Nothing]);
    let h8 = Point::parse("H8")?;
    assert_eq!(map.forbidden_eyes(&board, h8, Black), (0, 1));
    assert_eq!(map.forbidden_eyes(&board, h8, White), (0, 0));
    Ok(())
}

#[test]
fn test_default_map_is_new() {
    let map = ShapeMap::default();
    assert!(!map.is_synced());
}
