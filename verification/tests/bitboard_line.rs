use quintet::bitboard::bits::Row;
use quintet::bitboard::fundamentals::{Player, RowKind, BOARD_SIZE};
use quintet::bitboard::line::Line;

#[test]
fn line_test_new() {
    let result = Line::new(10);
    assert_eq!(result.size, 10);
    assert_eq!(result.blacks, 0b000000000000000);
    assert_eq!(result.whites, 0b000000000000000);

    let result = Line::new(16);
    assert_eq!(result.size, BOARD_SIZE);
    assert_eq!(result.blacks, 0b000000000000000);
    assert_eq!(result.whites, 0b000000000000000);
}

#[test]
fn line_test_put() {
    let mut line = Line::new(BOARD_SIZE);
    line.put(Player::Black, 0);
    line.put(Player::White, 2);
    assert_eq!(line.blacks, 0b000000000000001);
    assert_eq!(line.whites, 0b000000000000100);
    // overwrite
    line.put(Player::Black, 5);
    line.put(Player::White, 5);
    assert_eq!(line.blacks, 0b000000000000001);
    assert_eq!(line.whites, 0b000000000100100);
}

#[test]
fn test_rows() {
    let mut line = Line::new(BOARD_SIZE);
    line.put(Player::Black, 1);
    line.put(Player::Black, 2);
    line.put(Player::Black, 3);
    line.put(Player::Black, 4);
    line.put(Player::White, 8);
    line.put(Player::White, 11);

    let result = line.rows(Player::Black, RowKind::Four);
    let expected = vec![
        Row {
            start: 0,
            end: 4,
            eye1: Some(0),
            eye2: None,
        },
        Row {
            start: 1,
            end: 5,
            eye1: Some(5),
            eye2: None,
        },
    ];
    assert_eq!(result, expected);

    let result = line.rows(Player::White, RowKind::Two);
    let expected = vec![Row {
        start: 7,
        end: 12,
        eye1: Some(9),
        eye2: Some(10),
    }];
    assert_eq!(result, expected);
}

#[test]
fn line_test_parse() -> Result<(), String> {
    let result = Line::parse("-o---x----")?;
    let mut expected = Line::new(10);
    expected.put(Player::Black, 1);
    expected.put(Player::White, 5);
    assert_eq!(result, expected);
    Ok(())
}

/// The memo of absent rows never changes what is found: a line asked
/// twice, or after a move that removes and makes rows, answers as a fresh
/// scan does.
#[test]
fn test_rows_memo_is_transparent() -> Result<(), String> {
    let mut line = Line::parse("-ooo-----x-----")?;
    assert_eq!(line.rows(Player::Black, RowKind::Four), vec![]);
    assert_eq!(line.rows(Player::Black, RowKind::Four), vec![]);
    assert_eq!(line.find_rows(Player::Black, RowKind::Four), vec![]);
    line.put(Player::Black, 4);
    let fresh = Line::parse("-oooo----x-----")?;
    assert_eq!(line, fresh);
    assert_eq!(line.rows(Player::Black, RowKind::Four), fresh.find_rows(Player::Black, RowKind::Four));
    assert_eq!(line.rows(Player::Black, RowKind::Four).len(), 2);
    Ok(())
}

#[test]
fn test_line_to_string() -> Result<(), String> {
    let line = Line::parse("-o---x----")?;
    assert_eq!(line.to_string(), "-o---x----");
    assert!(Line::parse("----------------").is_err());
    Ok(())
}

#[test]
fn test_put_past_the_size() {
    let mut line = Line::new(10);
    line.put(Player::Black, 12);
    assert_eq!(line.blacks, 1 << 12);
    line.put(Player::White, 12);
    assert_eq!((line.blacks, line.whites), (0, 1 << 12));
}
