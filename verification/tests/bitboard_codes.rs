use quintet::bitboard::point::{Point, Points};
use quintet::board::player::Player;

#[test]
fn test_points_codes_round_trip() {
    let ps = Points::from_codes(&[0, 72, 112, 224]).unwrap();
    assert_eq!(ps.0, vec![Point(0, 0), Point(4, 12), Point(7, 7), Point(14, 14)]);
    assert_eq!(ps.into_codes(), vec![0, 72, 112, 224]);
    assert!(Points::from_codes(&[0, 225]).is_err());
}

#[test]
fn test_points_parse_each_part() {
    let ps = Points::parse(" H8, i9 ,J10").unwrap();
    assert_eq!(ps.0, vec![Point(7, 7), Point(8, 8), Point(9, 9)]);
    assert!(Points::parse("H8,,I9").is_err());
    assert!(Points::parse("H16").is_err());
    // The row is read as a whole number: leading zeros and a plus sign.
    assert_eq!(Point::parse("H008").unwrap(), Point(7, 7));
    assert_eq!(Point::parse("h+8").unwrap(), Point(7, 7));
}

#[test]
fn test_player_parse() {
    assert_eq!(Player::parse(" o"), Ok(Player::Black));
    assert_eq!(Player::parse("x "), Ok(Player::White));
    assert!(Player::parse("  ").is_err());
    assert!(Player::parse("b").is_err());
}
