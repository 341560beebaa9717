use quintet::board::player::{Black, White};
use quintet::board::point::Point;
use quintet::encoding::{decode, decode_board, decode_one, encode, encode_one};

#[test]
fn test_encode_one() {
    assert_eq!(encode_one(&Point(7, 7)), Ok("H8".to_string()));
    assert_eq!(encode_one(&Point(0, 14)), Ok("A15".to_string()));
    assert!(encode_one(&Point(15, 0)).is_err());
    assert!(encode_one(&Point(0, 15)).is_err());
}

#[test]
fn test_encode() {
    assert_eq!(encode(&[Point(7, 7), Point(8, 8), Point(9, 10)]), Ok("H8,I9,J11".to_string()));
    assert_eq!(encode(&[]), Ok("".to_string()));
    assert!(encode(&[Point(7, 7), Point(20, 0)]).is_err());
}

#[test]
fn test_decode_one() {
    assert_eq!(decode_one("H8"), Ok(Point(7, 7)));
    assert_eq!(decode_one("o15"), Ok(Point(14, 14)));
    // An unknown column letter reads as column A.
    assert_eq!(decode_one("Z3"), Ok(Point(0, 2)));
    assert!(decode_one("A16").is_err());
}

#[test]
fn test_decode() {
    assert_eq!(decode("H8,i9,J11"), Ok(vec![Point(7, 7), Point(8, 8), Point(9, 10)]));
    assert!(decode("H8,A16").is_err());
}

#[test]
fn test_decode_board() {
    let board = decode_board(" H8,J9/I9 ").unwrap();
    assert_eq!(board.stone(Point(7, 7)), Some(Black));
    assert_eq!(board.stone(Point(9, 8)), Some(Black));
    assert_eq!(board.stone(Point(8, 8)), Some(White));
    assert_eq!(board.stone(Point(0, 0)), None);
    assert!(decode_board("H8,J9").is_err());
    assert!(decode_board("H8/I9/J9").is_err());
    // A round trip through the text.
    let blacks = encode(&[Point(7, 7), Point(9, 8)]).unwrap();
    let whites = encode(&[Point(8, 8)]).unwrap();
    let again = decode_board(&format!("{}/{}", blacks, whites)).unwrap();
    assert_eq!(again.stone(Point(8, 8)), Some(White));
    assert_eq!(again.zobrist_hash(), board.zobrist_hash());
}

/// What `encode` writes, `decode` reads back.
#[test]
fn test_decode_encode() {
    let ps = vec![Point(0, 0), Point(7, 7), Point(14, 9), Point(3, 14)];
    let text = encode(&ps).unwrap();
    assert_eq!(text, "A1,H8,O10,D15");
    assert_eq!(decode(&text), Ok(ps));
}
