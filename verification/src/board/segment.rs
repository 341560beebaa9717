use vstd::prelude::*;
use super::player::{Black, Player, White};
use super::util::{bit_of, count_ones, ones5, positions, positions_of};
use super::notation::push_char;

verus! {

/// The number of stones in a row that wins.
pub const VICTORY: u8 = 5;

/// The five cells of a segment, bits 1-5.
pub const CELLS: u8 = 0b0111110;

/// The cells just before and just after the five, bits 0 and 6.
pub const MARGINS: u8 = 0b1000001;

/// Five consecutive cells of a line: one place where a five can be made.
///
/// Along with the five cells it holds the cell just before them and the one
/// just after, since whether Black may fill the five in depends on them: a
/// black stone next to the five would make it an overline. The stones are
/// two bitmasks, bit 0 for the cell before, bits 1-5 for cells 0-4 of the
/// segment and bit 6 for the cell after. A cell off the edge of the line is
/// empty.
#[derive(Debug, PartialEq, Eq, Clone, Copy, Structural)]
pub struct Segment {
    pub blacks: u8,
    pub whites: u8,
}

impl Segment {
    /// `r`'s stones and the opponent's, in that order.
    pub open spec fn mine(self, r: Player) -> u8 {
        if r == Black { self.blacks } else { self.whites }
    }

    pub open spec fn theirs(self, r: Player) -> u8 {
        if r == Black { self.whites } else { self.blacks }
    }

    /// [`Self::free`] as a spec function.
    pub open spec fn is_free(self, r: Player) -> bool {
        self.theirs(r) & CELLS == 0
    }

    /// [`Self::alive`] as a spec function.
    pub open spec fn is_alive(self, r: Player) -> bool {
        self.is_free(r) && (r == White || self.mine(r) & MARGINS == 0)
    }

    /// [`Self::stone_bits`] as a spec function.
    pub open spec fn stone_mask(self, r: Player) -> u8 {
        (self.mine(r) & CELLS) >> 1
    }

    /// [`Self::count`] as a spec function.
    pub open spec fn stone_count(self, r: Player) -> int {
        ones5(self.stone_mask(r))
    }

    /// [`Self::score`] as a spec function.
    pub open spec fn score_of(self, r: Player) -> int {
        if self.is_alive(r) { self.stone_count(r) } else { -1 }
    }

    /// [`Self::eye_bits`] as a spec function.
    pub open spec fn eye_mask(self, r: Player) -> u8 {
        if self.is_alive(r) { !self.stone_mask(r) & 0b11111 } else { 0 }
    }

    /// A segment from its stones, laid out as described on [`Segment`].
    pub fn new(blacks: u8, whites: u8) -> (res: Self)
        ensures
            res == (Segment { blacks, whites }),
    {
        Self { blacks, whites }
    }

    fn my_op(&self, r: Player) -> (res: (u8, u8))
        ensures
            res == (self.mine(r), self.theirs(r)),
    {
        match r {
            Black => (self.blacks, self.whites),
            White => (self.whites, self.blacks),
        }
    }

    /// Whether `r` can still make a five on the five cells: none of them
    /// holds an opponent stone, and, for Black, filling them in would not
    /// make an overline.
    pub fn alive(&self, r: Player) -> (res: bool)
        ensures
            res == self.is_alive(r),
    {
        let (my, op) = self.my_op(r);
        op & CELLS == 0 && (r.is_white() || my & MARGINS == 0)
    }

    /// How many of the five cells `r` already has (0 to 5), or `-1` if the
    /// segment is not [`Self::alive`] for `r`.
    pub fn score(&self, r: Player) -> (res: i8)
        ensures
            res == self.score_of(r),
            -1 <= res <= 5,
    {
        if self.alive(r) {
            self.count(r) as i8
        } else {
            -1
        }
    }

    /// How many of the five cells hold `r`'s stones, whether or not the
    /// segment is alive.
    pub fn count(&self, r: Player) -> (res: u8)
        ensures
            res == self.stone_count(r),
            res <= 5,
    {
        count_ones(self.stone_bits(r))
    }

    /// Whether none of the five cells holds a stone of `r`'s opponent:
    /// [`Self::alive`] without the overline condition.
    pub fn free(&self, r: Player) -> (res: bool)
        ensures
            res == self.is_free(r),
    {
        let (_, op) = self.my_op(r);
        op & CELLS == 0
    }

    /// The cells (0-4) of the five holding `r`'s stones, lowest first.
    pub fn stones(&self, r: Player) -> (res: Vec<u8>)
        ensures
            res@ == positions(self.stone_mask(r) as u16, 5),
    {
        positions_of(self.stone_bits(r) as u16, 5)
    }

    /// The cells (0-4) where `r` still has to play to make a five here, or
    /// none if the segment is not [`Self::alive`] for `r`.
    pub fn eyes(&self, r: Player) -> (res: Vec<u8>)
        ensures
            res@ == positions(self.eye_mask(r) as u16, 5),
    {
        positions_of(self.eye_bits(r) as u16, 5)
    }

    /// [`Self::stones`] as a bitmask, bit `k` for cell `k`.
    pub fn stone_bits(&self, r: Player) -> (res: u8)
        ensures
            res == self.stone_mask(r),
            res < 32,
    {
        let (my, _) = self.my_op(r);
        let res = (my & CELLS) >> 1;
        proof {
            lemma_cell_bits(my);
        }
        res
    }

    /// [`Self::eyes`] as a bitmask, bit `k` for cell `k`.
    pub fn eye_bits(&self, r: Player) -> (res: u8)
        ensures
            res == self.eye_mask(r),
    {
        if self.alive(r) {
            !self.stone_bits(r) & 0b11111
        } else {
            0
        }
    }

    /// The character cell `k` is written with: `o`, `x` or `-`.
    pub open spec fn cell_char(self, k: u8) -> char {
        if (self.blacks >> k) & 1 != 0 {
            'o'
        } else if (self.whites >> k) & 1 != 0 {
            'x'
        } else {
            '-'
        }
    }

    /// The first `n` cells written out, a bar before cells 1 and 6.
    pub open spec fn text_upto(self, n: nat) -> Seq<char>
        decreases n,
    {
        if n == 0 {
            Seq::empty()
        } else {
            let k = (n - 1) as u8;
            self.text_upto((n - 1) as nat) + (if k == 1 || k == 6 { seq!['|'] } else { Seq::empty() }) + seq![
                self.cell_char(k),
            ]
        }
    }

    /// The seven cells as `o`, `x` and `-`, the margins set apart:
    /// `-|oo-o-|x`.
    pub fn to_string(&self) -> (res: String)
        ensures
            res@ == self.text_upto(7),
            res@.len() == 9,
    {
        let mut res = String::new();
        let mut k: u8 = 0;
        while k < 7
            invariant
                k <= 7,
                res@ == self.text_upto(k as nat),
                res@.len() == k + (if k > 1 { 1int } else { 0 }) + (if k > 6 { 1int } else { 0 }),
            decreases 7 - k,
        {
            let ghost before = res@;
            if k == 1 || k == 6 {
                push_char(&mut res, '|');
            }
            let c = if (self.blacks >> k) & 1 != 0 {
                'o'
            } else if (self.whites >> k) & 1 != 0 {
                'x'
            } else {
                '-'
            };
            push_char(&mut res, c);
            assert(res@ =~= self.text_upto((k + 1) as nat));
            k += 1;
        }
        res
    }
}

/// The eyes of a live segment are exactly its five cells without a stone,
/// so that the stones and the eyes make up all five.
pub proof fn lemma_eyes_complement_stones(s: Segment, r: Player)
    requires
        s.is_alive(r),
    ensures
        s.eye_mask(r) & s.stone_mask(r) == 0,
        s.eye_mask(r) | s.stone_mask(r) == 0b11111,
        ones5(s.eye_mask(r)) + s.stone_count(r) == 5,
{
    lemma_cell_bits(s.mine(r));
}

/// A live segment is free, and a dead one has no eyes.
pub proof fn lemma_alive_is_free(s: Segment, r: Player)
    ensures
        s.is_alive(r) ==> s.is_free(r),
        !s.is_alive(r) ==> s.eye_mask(r) == 0 && s.score_of(r) == -1,
        s.is_alive(r) ==> 0 <= s.score_of(r) <= 5,
{
    lemma_cell_bits(s.mine(r));
}

/// The five cells of a segment read off a mask `m`, and their complement
/// among the five.
proof fn lemma_cell_bits(m: u8)
    by (bit_vector)
    ensures
        ((m & CELLS) >> 1) < 32,
        ((!((m & CELLS) >> 1) & 0b11111u8) & ((m & CELLS) >> 1)) == 0,
        ((!((m & CELLS) >> 1) & 0b11111u8) | ((m & CELLS) >> 1)) == 0b11111,
        ones5(!((m & CELLS) >> 1) & 0b11111u8) + ones5((m & CELLS) >> 1) == 5,
        ones5((m & CELLS) >> 1) <= 5,
{
}

} // verus!
