use quintet::board::board::Board;
use quintet::board::player::{Black, White};
use quintet::board::point::{Point, Points};
/// The hash is kept up to date move by move; it has to stay the hash
/// of the stones on the board, however they got there.
fn assert_hash_is_of_the_stones(board: &Board) {
    let blacks = Points(board.stones(Black));
    let whites = Points(board.stones(White));
    let from_scratch = Board::from_stones(&blacks, &whites);
    assert_eq!(board.zobrist_hash(), from_scratch.zobrist_hash());
}

#[test]
fn test_zobrist_hash() {
    let mut board = Board::new();
    let empty = board.zobrist_hash();

    board.put_mut(Black, Point(7, 7));
    board.put_mut(White, Point(8, 8));
    board.put_mut(Black, Point(9, 8));
    assert_hash_is_of_the_stones(&board);
    let three_stones = board.zobrist_hash();
    assert_ne!(three_stones, empty);

    // Taking a stone off and putting it back restores the hash.
    board.remove_mut(Point(8, 8));
    assert_hash_is_of_the_stones(&board);
    assert_ne!(board.zobrist_hash(), three_stones);
    board.put_mut(White, Point(8, 8));
    assert_eq!(board.zobrist_hash(), three_stones);

    // Putting over a stone replaces it, in the hash too.
    board.put_mut(White, Point(7, 7));
    assert_eq!(board.stone(Point(7, 7)), Some(White));
    assert_hash_is_of_the_stones(&board);

    // Removing from an empty point changes nothing.
    let before = board.zobrist_hash();
    board.remove_mut(Point(0, 0));
    assert_eq!(board.zobrist_hash(), before);

    // The copying versions leave the original alone.
    let next = board.put(Black, Point(0, 0));
    assert_eq!(board.zobrist_hash(), before);
    assert_eq!(next.remove(Point(0, 0)).zobrist_hash(), before);
}

#[test]
fn board_test_parse() -> Result<(), String> {
    let result = Board::parse("H8,J9/I9")?;
    let mut expected = Board::new();
    expected.put_mut(Black, Point(7, 7));
    expected.put_mut(White, Point(8, 8));
    expected.put_mut(Black, Point(9, 8));
    assert_eq!(result.to_string(), expected.to_string());
    assert_eq!(result.zobrist_hash(), expected.zobrist_hash());

    Ok(())
}
