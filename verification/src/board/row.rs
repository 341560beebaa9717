use vstd::prelude::*;
use super::player::{Black, Player, White};
use super::point::{Index, Point};
use super::segment::Segment;
use super::structure::{points_along, points_from, window_on_board};
use super::util::{positions, positions_of};

verus! {

/// The rows of the rules, each told by the scores of one or two
/// neighbouring [`Segment`]s.
#[derive(Debug, PartialEq, Eq, Clone, Copy, Structural)]
pub enum RowKind {
    /// Two stones that can become a three: see [`Self::Three`].
    Two,
    /// Three stones that can become a straight four: two neighbouring
    /// segments that both score 3, with the stones all in the four cells
    /// they share. The six cells they span have both ends empty.
    Three,
    /// An open four: as [`Self::Three`], with four stones.
    Straight,
    /// Three stones that can become a four: a segment scoring 3.
    Sword,
    /// A segment scoring 4, one stone short of a five.
    Four,
    /// A segment scoring 5.
    Five,
    /// Five stones in six cells, the empty one making six or more in a row:
    /// two neighbouring segments, both free of the opponent, each with four
    /// stones.
    Overlining,
    /// Six or more stones in a row: two neighbouring segments full of them.
    Overlined,
}

pub use RowKind::{Five, Four, Overlined, Overlining, Straight, Sword, Three, Two};

/// A segment free of `r`'s opponent holding `n` of `r`'s stones.
pub open spec fn full(s: Segment, r: Player, n: int) -> bool {
    s.is_free(r) && s.stone_count(r) == n
}

impl RowKind {
    /// [`Self::stones`] as a spec function.
    pub open spec fn stone_num(self) -> int {
        match self {
            Two => 2,
            Three | Sword => 3,
            Straight | Four | Overlining => 4,
            Five | Overlined => 5,
        }
    }

    /// Whether the row is one segment scoring its number of stones.
    pub open spec fn single(self) -> bool {
        self == Sword || self == Four || self == Five
    }

    /// Whether the row is an open row: two segments, both ends empty.
    pub open spec fn open(self) -> bool {
        self == Two || self == Three || self == Straight
    }

    /// [`Self::matches`] as a spec function.
    pub open spec fn matches_spec(self, r: Player, prev: Option<Segment>, cur: Segment) -> bool {
        let n = self.stone_num();
        if self.single() {
            cur.score_of(r) == n
        } else if self.open() {
            &&& cur.score_of(r) == n
            &&& cur.stone_mask(r) & 0b10000 == 0
            &&& prev matches Some(p) && p.score_of(r) == n
        } else {
            &&& full(cur, r, n)
            &&& prev matches Some(p) && full(p, r, n)
        }
    }

    /// [`Self::eye_cells`] as a spec function.
    pub open spec fn eye_mask(self) -> u8 {
        if self.open() { 0b01111 } else { 0b11111 }
    }

    /// How many own stones each segment of the row has.
    pub fn stones(&self) -> (res: u8)
        ensures
            res == self.stone_num(),
    {
        match self {
            Two => 2,
            Three | Sword => 3,
            Straight | Four | Overlining => 4,
            Five | Overlined => 5,
        }
    }

    /// Whether the row needs the segment before `cur` as well, the
    /// `prev` of [`Self::matches`].
    pub fn spans_two(&self) -> (res: bool)
        ensures
            res == !self.single(),
    {
        !matches!(self, Sword | Four | Five)
    }

    /// Whether `r` has this row at segment `cur`; `prev` is the segment
    /// starting one cell before it on the same line, if it is looked at.
    pub fn matches(&self, r: Player, prev: Option<Segment>, cur: Segment) -> (res: bool)
        ensures
            res == self.matches_spec(r, prev, cur),
    {
        let n = self.stones();
        match self {
            Sword | Four | Five => cur.score(r) == n as i8,
            Two | Three | Straight => {
                cur.score(r) == n as i8 && cur.stone_bits(r) & 0b10000 == 0 && match prev {
                    Some(p) => p.score(r) == n as i8,
                    None => false,
                }
            },
            Overlining | Overlined => {
                cur.free(r) && cur.count(r) == n && match prev {
                    Some(p) => p.free(r) && p.count(r) == n,
                    None => false,
                }
            },
        }
    }

    /// The cells of the (later) segment that can be the row's eyes, as
    /// a bitmask: all five, but only the four shared ones for the open
    /// rows, whose fifth cell is an open end.
    pub fn eye_cells(&self) -> (res: u8)
        ensures
            res == self.eye_mask(),
    {
        match self {
            Two | Three | Straight => 0b01111,
            _ => 0b11111,
        }
    }
}

/// A row of one player's stones found on the board: where its segment
/// starts, which of the segment's cells hold the player's stones and which
/// are its eyes, the cells to play to take it a step further.
#[derive(Debug, PartialEq, Eq, Clone, Copy, Structural)]
pub struct Row {
    pub start: Index,
    pub stones: u8,
    pub eyes: u8,
}

impl Row {
    /// `r`'s row of kind `k` at `segment`, whose cells start at `start`.
    pub fn new(start: Index, r: Player, k: RowKind, segment: Segment) -> (res: Self)
        ensures
            res == (Row {
                start,
                stones: segment.stone_mask(r),
                eyes: !segment.stone_mask(r) & k.eye_mask(),
            }),
            res.stones < 32,
            res.eyes < 32,
    {
        let stones = segment.stone_bits(r);
        let eyes = !stones & k.eye_cells();
        assert(eyes < 32) by (bit_vector)
            requires
                eyes == !stones & 0b11111u8 || eyes == !stones & 0b01111u8,
        ;
        Self { start, stones, eyes }
    }

    pub fn start_index(&self) -> (res: Index)
        ensures
            res == self.start,
    {
        self.start
    }

    /// The first point of the row's segment.
    pub fn start(&self) -> (res: Point)
        requires
            self.start.valid(),
        ensures
            res == self.start.point_of(),
    {
        self.start.to_point()
    }

    /// The points holding the row's stones.
    pub fn stones(&self) -> (res: Vec<Point>)
        requires
            window_on_board(self.start),
        ensures
            res@ == points_along(self.start, positions(self.stones as u16, 5)),
    {
        let offsets = positions_of(self.stones as u16, 5);
        proof {
            super::util::lemma_positions(self.stones as u16, 5);
        }
        points_from(self.start, &offsets)
    }

    /// The row's eyes: the points to play to take it a step further.
    pub fn eyes(&self) -> (res: Vec<Point>)
        requires
            window_on_board(self.start),
        ensures
            res@ == points_along(self.start, positions(self.eyes as u16, 5)),
    {
        let offsets = positions_of(self.eyes as u16, 5);
        proof {
            super::util::lemma_positions(self.eyes as u16, 5);
        }
        points_from(self.start, &offsets)
    }
}

} // verus!
