use vstd::prelude::*;
use super::player::{Black, Player, White};
use super::util::{count_ones, eyes, ones5, positions};

verus! {

/// The cells a slot is read from: the five, and one on each side.
pub const WINDOW_SIZE: u8 = 7;

pub const BLACK_FLAG: u8 = 0b01000000;
pub const WHITE_FLAG: u8 = 0b10000000;
pub const OVERLINE_FLAG: u8 = 0b00100000;
pub const EMPTY_SIGNATURE: u8 = 0b00000000;

/// Five cells of a line packed in a byte: whether Black has a stone in
/// them, whether White has, whether a black stone sits just outside them,
/// and the stones of the one player who has some (bits 0-4), none if both
/// or neither have.
#[derive(Debug, PartialEq, Eq, Clone, Copy, Structural)]
pub struct Slot(pub u8);

impl Slot {
    /// [`Self::new`] as a spec function.
    pub open spec fn of(blacks_: u8, whites_: u8) -> Slot {
        let blacks = (blacks_ & 0b0111110) >> 1;
        let whites = (whites_ & 0b0111110) >> 1;
        let margin = blacks_ & 0b1000001;
        let black_flag: u8 = if blacks != 0 { BLACK_FLAG } else { 0 };
        let white_flag: u8 = if whites != 0 { WHITE_FLAG } else { 0 };
        let overline_flag: u8 = if margin != 0 { OVERLINE_FLAG } else { 0 };
        let stones: u8 = if blacks != 0 && whites != 0 {
            0
        } else if blacks != 0 {
            blacks
        } else if whites != 0 {
            whites
        } else {
            0
        };
        Slot(black_flag | white_flag | overline_flag | stones)
    }

    /// The slot of a 7-cell window: bit 0 the cell before, bits 1-5 the five
    /// cells, bit 6 the cell after.
    pub fn new(blacks_: u8, whites_: u8) -> (res: Self)
        ensures
            res == Slot::of(blacks_, whites_),
    {
        let blacks = (blacks_ & 0b0111110) >> 1;
        let whites = (whites_ & 0b0111110) >> 1;
        let margin = blacks_ & 0b1000001;
        let black_flag = if blacks != 0b0 {
            BLACK_FLAG
        } else {
            0b0
        };
        let white_flag = if whites != 0b0 {
            WHITE_FLAG
        } else {
            0b0
        };
        let overline_flag = if margin != 0b0 {
            OVERLINE_FLAG
        } else {
            0b0
        };
        let stones = if blacks != 0b0 && whites != 0b0 {
            0b0
        } else if blacks != 0b0 {
            blacks
        } else if whites != 0b0 {
            whites
        } else {
            0b0
        };
        Self(black_flag | white_flag | overline_flag | stones)
    }

    /// [`Self::contains`] as a spec function.
    pub open spec fn has(self, player: Player) -> bool {
        if player == Black { self.0 & BLACK_FLAG != 0 } else { self.0 & WHITE_FLAG != 0 }
    }

    /// [`Self::potential`] as a spec function.
    pub open spec fn potential_of(self, player: Player) -> int {
        if self.0 == EMPTY_SIGNATURE {
            1
        } else if self.has(player.other()) {
            0
        } else if player == Black && self.0 & OVERLINE_FLAG != 0 {
            0
        } else {
            ones5(self.0 & 0b00011111) + 1
        }
    }

    /// What the slot is worth to `player`: 1 if empty, 0 if the opponent
    /// is in it or (for Black) it would make an overline, else its stones
    /// + 1.
    pub fn potential(&self, player: Player) -> (res: u8)
        ensures
            res == self.potential_of(player),
    {
        if self.is_free() {
            return 1;
        }
        if self.contains(player.opponent()) {
            return 0;
        }
        if player.is_black() && self.will_overline() {
            return 0;
        }
        self.nstones() + 1
    }

    /// Whether only `player` has stones in the five cells.
    pub fn occupied_by(&self, player: Player) -> (res: bool)
        ensures
            res == (self.has(player) && !self.has(player.other())),
    {
        if player.is_black() {
            self.contains(Black) && !self.contains(White)
        } else {
            self.contains(White) && !self.contains(Black)
        }
    }

    /// Whether `player` has a stone in the five cells.
    pub fn contains(&self, player: Player) -> (res: bool)
        ensures
            res == self.has(player),
    {
        if player.is_black() {
            self.0 & BLACK_FLAG != 0b0
        } else {
            self.0 & WHITE_FLAG != 0b0
        }
    }

    /// The stones of the one player who has some.
    pub fn nstones(&self) -> (res: u8)
        ensures
            res == ones5(self.0 & 0b00011111),
            res <= 5,
    {
        count_ones(self.0 & 0b00011111)
    }

    /// [`Self::nstones`] in the first four cells.
    pub fn nstones_head(&self) -> (res: u8)
        ensures
            res == ones5(self.0 & 0b00001111),
    {
        count_ones(self.0 & 0b00001111)
    }

    /// The empty cells (0-4) of the one player who has stones.
    pub fn eyes(&self) -> (res: Vec<u8>)
        ensures
            res@ == positions((!(self.0 & 0b00011111) & 0b11111) as u16, 5),
    {
        eyes(self.0 & 0b00011111)
    }

    /// [`Self::eyes`] in the first four cells, the fifth counted as taken.
    pub fn eyes_head(&self) -> (res: Vec<u8>)
        ensures
            res@ == positions((!(self.0 & 0b00001111) & 0b11111) as u16, 5),
    {
        eyes(self.0 & 0b00001111)
    }

    /// Whether a black stone sits just outside the five cells.
    pub fn will_overline(&self) -> (res: bool)
        ensures
            res == (self.0 & OVERLINE_FLAG != 0),
    {
        self.0 & OVERLINE_FLAG != 0b0
    }

    /// Whether the five cells are empty and nothing sits outside them.
    pub fn is_free(&self) -> (res: bool)
        ensures
            res == (self.0 == EMPTY_SIGNATURE),
    {
        self.0 == EMPTY_SIGNATURE
    }
}

/// The slots of a stretch of a line, as `(i, slot)`, `i` being where the
/// 7-cell window starts.
pub struct Slots {
    pub blacks: u16,
    pub whites: u16,
    pub limit: u8,
    pub i: u8,
}

impl Slots {
    /// The slots whose windows start from `start` and end by `end`.
    pub fn new(blacks: u16, whites: u16, start: u8, end: u8) -> (res: Self)
        requires
            WINDOW_SIZE - 1 <= end,
        ensures
            res == (Slots { blacks, whites, limit: (end - (WINDOW_SIZE - 1)) as u8, i: start }),
    {
        Self { blacks, whites, limit: end - (WINDOW_SIZE - 1), i: start }
    }

    /// The next slot, if the window still ends in the stretch.
    pub fn next(&mut self) -> (res: Option<(u8, Slot)>)
        requires
            old(self).limit < 16,
        ensures
            old(self).i > old(self).limit ==> res is None && *final(self) == *old(self),
            old(self).i <= old(self).limit ==> res == Some(
                (
                    old(self).i,
                    Slot::of(
                        ((old(self).blacks >> old(self).i) & 0x7f) as u8,
                        ((old(self).whites >> old(self).i) & 0x7f) as u8,
                    ),
                ),
            ) && *final(self) == (Slots { i: (old(self).i + 1) as u8, ..*old(self) }),
    {
        let i = self.i;
        if i > self.limit {
            return None;
        }
        self.i += 1;
        let blacks_ = (self.blacks >> i & 0x7f) as u8;
        let whites_ = (self.whites >> i & 0x7f) as u8;
        Some((i, Slot::new(blacks_, whites_)))
    }
}

} // verus!
