use vstd::prelude::*;

verus! {

/// The width and height of the board.
pub const BOARD_SIZE: u8 = 15;

/// The two players, Black moving first.
#[derive(Debug, PartialEq, Eq, Clone, Copy, Structural)]
pub enum Player {
    Black,
    White,
}

/// The shapes a row can have, from two stones to six in a row.
#[derive(Debug, PartialEq, Eq, Clone, Copy, Structural)]
pub enum RowKind {
    Two,
    Sword,
    Three,
    Four,
    Five,
    Overline,
}

impl Player {
    /// The other player.
    pub fn opponent(&self) -> (res: Player)
        ensures
            res != *self,
    {
        match self {
            Player::Black => Player::White,
            Player::White => Player::Black,
        }
    }

    pub fn is_black(self) -> (res: bool)
        ensures
            res == (self == Player::Black),
    {
        self == Player::Black
    }

    pub fn is_white(self) -> (res: bool)
        ensures
            res == (self == Player::White),
    {
        self == Player::White
    }

    /// Black for `true`, White for `false`.
    pub fn from_bool(value: bool) -> (res: Player)
        ensures
            res == (if value { Player::Black } else { Player::White }),
    {
        if value {
            Player::Black
        } else {
            Player::White
        }
    }
}

} // verus!
