use vstd::prelude::*;
use super::notation::{chars_of, trim, trimmed};

verus! {

/// One of the two sides. Black moves first and is bound by the forbidden
/// moves of the rules.
#[derive(Debug, PartialEq, Eq, Clone, Copy, Structural)]
pub enum Player {
    Black,
    White,
}

pub use Player::{Black, White};

impl Player {
    /// The other side, as a spec function.
    pub open spec fn other(self) -> Player {
        match self {
            Black => White,
            White => Black,
        }
    }

    /// The other side.
    pub fn opponent(&self) -> (res: Self)
        ensures
            res == self.other(),
    {
        if self.is_black() {
            White
        } else {
            Black
        }
    }

    pub fn is_black(&self) -> (res: bool)
        ensures
            res == (*self == Black),
    {
        *self == Black
    }

    pub fn is_white(&self) -> (res: bool)
        ensures
            res == (*self == White),
    {
        *self == White
    }

    /// `true` for Black, `false` for White.
    pub fn from_bool(value: bool) -> (res: Self)
        ensures
            res == (if value { Black } else { White }),
    {
        if value {
            Black
        } else {
            White
        }
    }

    /// The character a board is written with: `o` for Black, `x` for White.
    pub fn to_char(&self) -> (c: char)
        ensures
            c == (if *self == Black { 'o' } else { 'x' }),
    {
        match self {
            Black => 'o',
            White => 'x',
        }
    }

    /// The player written `c` (`o` or `x`), or an error for any other
    /// character.
    pub fn from_char(c: char) -> (res: Result<Self, &'static str>)
        ensures
            c == 'o' ==> res == Ok::<Player, &'static str>(Black),
            c == 'x' ==> res == Ok::<Player, &'static str>(White),
            c != 'o' && c != 'x' ==> res.is_err(),
            res matches Err(e) ==> e@ == "Invalid player"@,
    {
        if c == 'o' {
            Ok(Black)
        } else if c == 'x' {
            Ok(White)
        } else {
            Err("Invalid player")
        }
    }

    /// The player written first in `s`, after any whitespace: `o` or `x`.
    pub fn parse(s: &str) -> (res: Result<Self, &'static str>)
        ensures
            res is Ok <==> trimmed(s@).len() > 0 && (trimmed(s@)[0] == 'o' || trimmed(s@)[0] == 'x'),
            res matches Ok(r) ==> r == (if trimmed(s@)[0] == 'o' { Black } else { White }),
            res matches Err(e) ==> e@ == (if trimmed(s@).len() == 0 { "empty"@ } else { "Invalid player"@ }),
    {
        let t = trim(&chars_of(s));
        if t.len() == 0 {
            return Err("empty");
        }
        Self::from_char(t[0])
    }
}

/// Taking the opponent twice gives the player back, and never gives the
/// player itself.
pub proof fn lemma_opponent_involutive(r: Player)
    ensures
        r.other().other() == r,
        r.other() != r,
{
}

} // verus!
