use vstd::prelude::*;
use super::notation::push_char;
use super::player::{Black, Player, White};
use super::row::{
    full, Five, Four, Overlined, Overlining, RowKind, Straight, Sword, Three, Two,
};
use super::segment::{lemma_alive_is_free, Segment, CELLS, MARGINS, VICTORY};
use super::util::{bit_of, lemma_positions_select, lemma_u16_bits, ones5, positions, positions_of, select};

verus! {

/// The longest line: a side of the board.
pub const MAX_SIZE: u8 = 15;

/// The stones of one line of the board, one bit per cell for each player.
#[derive(Debug, PartialEq, Eq, Clone, Copy, Structural)]
pub struct Line {
    pub blacks: u16,
    pub whites: u16,
    pub size: u8,
}

/// The five low bits of `x >> j` added up: how many of cells `j` to
/// `j + 4` are set.
pub open spec fn window_count(x: u16, j: u16) -> int {
    (((x >> j) & 1) + ((x >> j >> 1) & 1) + ((x >> j >> 2) & 1) + ((x >> j >> 3) & 1) + ((
    x >> j >> 4) & 1)) as int
}

/// [`Line::counting`] as a spec function, the bit-sliced adder written out.
pub open spec fn counting_bits(my: u16, op: u16, n: u8, size: u16) -> u16 {
    let segments = ((1u16 << ((size + 1 - 5) as u16)) - 1) as u16;
    let blocked = op | op >> 1 | op >> 2 | op >> 3 | op >> 4;
    let a = my;
    let b = my >> 1;
    let c = my >> 2;
    let d = my >> 3;
    let e = my >> 4;
    let s1 = a ^ b ^ c;
    let c1 = a & b | c & (a ^ b);
    let s2 = d ^ e;
    let c2 = d & e;
    let ones = s1 ^ s2;
    let c3 = s1 & s2;
    let twos = c1 ^ c2 ^ c3;
    let fours = c1 & c2 | c3 & (c1 ^ c2);
    let d1 = if n & 1 != 0 { ones } else { !ones };
    let d2 = if n & 2 != 0 { twos } else { !twos };
    let d4 = if n & 4 != 0 { fours } else { !fours };
    d1 & d2 & d4 & !blocked & segments
}

/// Bit `j` of the adder is set exactly when segment `j` exists, is free of
/// `op` and has `n` (taken mod 8) of `my`'s stones.
proof fn lemma_counting_bits(my: u16, op: u16, n: u8, size: u16, j: u16)
    by (bit_vector)
    requires
        my < 0x8000,
        op < 0x8000,
        5 <= size <= 15,
        j < 16,
    ensures
        ((counting_bits(my, op, n, size) >> j) & 1 == 1) == (j + 5 <= size && ((op >> j) & 0x1f)
            == 0 && window_count(my, j) == (n & 7)),
{
}

/// The segment starting at cell `j`, read off the raw bits.
proof fn lemma_segment_bits(my: u16, op: u16, j: u16)
    by (bit_vector)
    requires
        my < 0x8000,
        op < 0x8000,
        j <= 10,
    ensures
        (((((op << 1u16) >> j) as u8) & 0x7f) & 0b0111110 == 0) == ((op >> j) & 0x1f == 0),
        ones5((((((my << 1u16) >> j) as u8) & 0x7f) & 0b0111110) >> 1) == window_count(my, j),
        (((((my << 1u16) >> j) as u8) & 0x7f) & 0b1000001 == 0) == (((my << 1u16 | my >> 5u16)
            >> j) & 1 == 0),
        ((((((my << 1u16) >> j) as u8) & 0x7f) & 0b0111110) >> 1) & 0b10000 == 0 <==> ((my >> 4u16)
            >> j) & 1 == 0,
{
}

/// Bit `j` of `s << 1` is bit `j - 1` of `s`, and bit 0 is clear.
proof fn lemma_shl_bit(s: u16, j: u16)
    by (bit_vector)
    requires
        1 <= j < 16,
    ensures
        ((s << 1u16) >> j) & 1 == (s >> ((j - 1) as u16)) & 1,
        ((s << 1u16) >> 0u16) & 1 == 0,
{
}

/// Bit `j` of a conjunction of masks.
proof fn lemma_and_bit(a: u16, b: u16, c: u16, j: u16)
    by (bit_vector)
    requires
        j < 16,
    ensures
        (((a & b) >> j) & 1 == 1) == (((a >> j) & 1 == 1) && ((b >> j) & 1 == 1)),
        (((a & b & c) >> j) & 1 == 1) == (((a >> j) & 1 == 1) && ((b >> j) & 1 == 1) && ((c >> j)
            & 1 == 1)),
        (((a & !b) >> j) & 1 == 1) == (((a >> j) & 1 == 1) && ((b >> j) & 1 == 0)),
{
}

impl Line {
    /// A line as the board keeps it: at most [`MAX_SIZE`] cells, no stone
    /// beyond the last cell of the board, and no cell holding two stones.
    pub open spec fn wf(self) -> bool {
        &&& self.size <= MAX_SIZE
        &&& self.blacks < 0x8000
        &&& self.whites < 0x8000
        &&& self.blacks & self.whites == 0
    }

    /// The stone on cell `i`, as [`Self::stone`] reads it.
    pub open spec fn cell(self, i: int) -> Option<Player> {
        if bit_of(self.blacks, i as u16) {
            Some(Black)
        } else if bit_of(self.whites, i as u16) {
            Some(White)
        } else {
            None
        }
    }

    /// `r`'s stones and the opponent's, in that order.
    pub open spec fn mine(self, r: Player) -> u16 {
        if r == Black { self.blacks } else { self.whites }
    }

    pub open spec fn theirs(self, r: Player) -> u16 {
        if r == Black { self.whites } else { self.blacks }
    }

    /// [`Self::segment`] as a spec function.
    pub open spec fn segment_at(self, j: int) -> Segment {
        Segment {
            blacks: ((((self.blacks << 1u16) >> (j as u16)) as u8) & 0b1111111u8) as u8,
            whites: ((((self.whites << 1u16) >> (j as u16)) as u8) & 0b1111111u8) as u8,
        }
    }

    /// The line with cell `i` set to `c`, as [`Self::put_mut`] and
    /// [`Self::remove_mut`] leave it.
    pub open spec fn with_cell(self, i: int, c: Option<Player>) -> Line {
        let stones = (1u16 << (i as u16)) as u16;
        match c {
            Some(Black) => Line { blacks: self.blacks | stones, whites: self.whites & !stones, ..self },
            Some(White) => Line { blacks: self.blacks & !stones, whites: self.whites | stones, ..self },
            None => Line { blacks: self.blacks & !stones, whites: self.whites & !stones, ..self },
        }
    }

    /// The segment starting one cell before segment `j`, if there is one.
    pub open spec fn prev_at(self, j: int) -> Option<Segment> {
        if j == 0 { None } else { Some(self.segment_at(j - 1)) }
    }

    /// Whether a segment starts at cell `j`: its five cells are on the line.
    pub open spec fn has_segment(self, j: int) -> bool {
        0 <= j && j + VICTORY <= self.size
    }

    pub fn new(size: u8) -> (res: Self)
        ensures
            res == (Line { blacks: 0, whites: 0, size }),
            size <= MAX_SIZE ==> res.wf(),
    {
        proof {
            lemma_u16_bits(0, 0, 0, 0, 0);
        }
        Self { blacks: 0b0, whites: 0b0, size }
    }

    /// Puts `r`'s stone on cell `i`, replacing whatever was there.
    pub fn put_mut(&mut self, r: Player, i: u8)
        requires
            old(self).wf(),
            i < 16,
        ensures
            *final(self) == old(self).with_cell(i as int, Some(r)),
            i < MAX_SIZE ==> final(self).wf(),
            final(self).size == old(self).size,
            final(self).cell(i as int) == Some(r),
            forall|k: int| 0 <= k < 16 && k != i ==> #[trigger] final(self).cell(k) == old(self).cell(k),
    {
        let stones: u16 = 1u16 << (i as u16);
        let b = self.blacks;
        let w = self.whites;
        let (blacks, whites) = match r {
            Black => (b | stones, w & !stones),
            White => (b & !stones, w | stones),
        };
        proof {
            lemma_put_bits(b, w, i as u16, 0);
            assert forall|k: int| 0 <= k < 16 && k != i implies #[trigger] (Line {
                blacks,
                whites,
                size: self.size,
            }).cell(k) == self.cell(k) by {
                lemma_put_bits(b, w, i as u16, k as u16);
            }
        }
        self.blacks = blacks;
        self.whites = whites;
    }

    /// Takes the stone off cell `i`, if there is one.
    pub fn remove_mut(&mut self, i: u8)
        requires
            old(self).wf(),
            i < 16,
        ensures
            *final(self) == old(self).with_cell(i as int, None),
            final(self).wf(),
            final(self).size == old(self).size,
            final(self).cell(i as int) == None::<Player>,
            forall|k: int| 0 <= k < 16 && k != i ==> #[trigger] final(self).cell(k) == old(self).cell(k),
    {
        let stones: u16 = 1u16 << (i as u16);
        let b = self.blacks;
        let w = self.whites;
        let blacks = b & !stones;
        let whites = w & !stones;
        proof {
            lemma_remove_bits(b, w, i as u16, 0);
            assert forall|k: int| 0 <= k < 16 && k != i implies #[trigger] (Line {
                blacks,
                whites,
                size: self.size,
            }).cell(k) == self.cell(k) by {
                lemma_remove_bits(b, w, i as u16, k as u16);
            }
        }
        self.blacks = blacks;
        self.whites = whites;
    }

    /// The stone on cell `i`.
    pub fn stone(&self, i: u8) -> (res: Option<Player>)
        requires
            i < 16,
        ensures
            res == self.cell(i as int),
    {
        if (self.blacks >> i) & 1 == 1 {
            Some(Black)
        } else if (self.whites >> i) & 1 == 1 {
            Some(White)
        } else {
            None
        }
    }

    /// The cells holding `r`'s stones, lowest first.
    pub fn stones(&self, r: Player) -> (res: Vec<u8>)
        requires
            self.size <= 16,
        ensures
            res@ == positions(self.mine(r), self.size as nat),
    {
        let target = match r {
            Black => self.blacks,
            White => self.whites,
        };
        positions_of(target, self.size)
    }

    /// The empty cells, lowest first.
    pub fn empties(&self) -> (res: Vec<u8>)
        requires
            self.size <= 16,
        ensures
            res@ == positions(!(self.blacks | self.whites), self.size as nat),
    {
        positions_of(!(self.blacks | self.whites), self.size)
    }

    /// The segment whose five cells start at cell `j`.
    pub fn segment(&self, j: u8) -> (res: Segment)
        requires
            j < 16,
        ensures
            res == self.segment_at(j as int),
    {
        // Shifted up one so that bit 0 is the cell before, cell -1 at `j = 0`.
        let b = (((self.blacks << 1u16) >> j) as u8) & 0b1111111u8;
        let w = (((self.whites << 1u16) >> j) as u8) & 0b1111111u8;
        Segment::new(b, w)
    }

    /// Every segment of the line, as `(j, segment)`, `j` being where its
    /// five cells start.
    pub fn segments(&self) -> (res: Vec<(u8, Segment)>)
        requires
            VICTORY <= self.size <= 16,
        ensures
            res@.len() == self.size - VICTORY + 1,
            forall|j: int|
                0 <= j < res@.len() ==> #[trigger] res@[j] == (j as u8, self.segment_at(j)),
    {
        let mut res: Vec<(u8, Segment)> = Vec::new();
        let mut j: u8 = 0;
        while j <= self.size - VICTORY
            invariant
                VICTORY <= self.size <= 16,
                j <= self.size - VICTORY + 1,
                res@.len() == j,
                forall|m: int| 0 <= m < j ==> #[trigger] res@[m] == (m as u8, self.segment_at(m)),
            decreases self.size - VICTORY + 1 - j,
        {
            res.push((j, self.segment(j)));
            j += 1;
        }
        res
    }

    /// `r`'s stones and the opponent's, in that order.
    fn my_op(&self, r: Player) -> (res: (u16, u16))
        ensures
            res == (self.mine(r), self.theirs(r)),
    {
        match r {
            Black => (self.blacks, self.whites),
            White => (self.whites, self.blacks),
        }
    }

    /// Bit `j` is set if the segment starting at cell `j` is free for `r`
    /// and has `n` of its stones ([`Segment::free`], [`Segment::count`]).
    ///
    /// Bit `j` of `x >> k` is cell `j + k`, so each condition is checked
    /// for every segment in parallel: no opponent stone in the five cells,
    /// and the five added up bit-sliced, a full adder on the first three,
    /// a half adder on the last two, then the carries.
    pub fn counting(&self, r: Player, n: u8) -> (res: u16)
        requires
            self.wf(),
            VICTORY <= self.size,
        ensures
            res == counting_bits(self.mine(r), self.theirs(r), n, self.size as u16),
            forall|j: u16|
                j < 16 ==> (#[trigger] bit_of(res, j) == (self.has_segment(j as int) && self.segment_at(
                    j as int,
                ).is_free(r) && self.segment_at(j as int).stone_count(r) == (n & 7))),
    {
        let (my, op) = self.my_op(r);
        let size = self.size as u16;
        assert(1u16 << ((size + 1 - 5u16) as u16) >= 1) by (bit_vector)
            requires
                5 <= size <= 15,
        ;
        let segments: u16 = (1u16 << (size + 1 - VICTORY as u16)) - 1;
        let blocked = op | op >> 1 | op >> 2 | op >> 3 | op >> 4;
        let (a, b, c, d, e) = (my, my >> 1, my >> 2, my >> 3, my >> 4);
        let (s1, c1) = (a ^ b ^ c, a & b | c & (a ^ b));
        let (s2, c2) = (d ^ e, d & e);
        let (ones, c3) = (s1 ^ s2, s1 & s2);
        let twos = c1 ^ c2 ^ c3;
        let fours = c1 & c2 | c3 & (c1 ^ c2);
        let d1 = if n & 1 != 0 {
            ones
        } else {
            !ones
        };
        let d2 = if n & 2 != 0 {
            twos
        } else {
            !twos
        };
        let d4 = if n & 4 != 0 {
            fours
        } else {
            !fours
        };
        let res = d1 & d2 & d4 & !blocked & segments;
        proof {
            assert forall|j: u16|
                j < 16 implies #[trigger] bit_of(res, j) == (self.has_segment(j as int)
                && self.segment_at(j as int).is_free(r) && self.segment_at(j as int).stone_count(r)
                == (n & 7)) by {
                lemma_counting_bits(my, op, n, size, j);
                if j <= 10 {
                    lemma_segment_bits(my, op, j);
                }
            }
        }
        res
    }

    /// Bit `j` is set if the segment starting at cell `j` scores `n` for
    /// `r` ([`Segment::score`]), for all the segments at once.
    pub fn scoring(&self, r: Player, n: u8) -> (res: u16)
        requires
            self.wf(),
            VICTORY <= self.size,
            n <= 5,
        ensures
            forall|j: u16|
                j < 16 ==> (#[trigger] bit_of(res, j) == (self.has_segment(j as int) && self.segment_at(
                    j as int,
                ).score_of(r) == n)),
    {
        let (my, _) = self.my_op(r);
        // A black stone just before or just after the five.
        let overline: u16 = if r.is_black() {
            my << 1u16 | my >> 5u16
        } else {
            0
        };
        let c = self.counting(r, n);
        let res = c & !overline;
        proof {
            assert forall|j: u16|
                j < 16 implies #[trigger] bit_of(res, j) == (self.has_segment(j as int)
                && self.segment_at(j as int).score_of(r) == n) by {
                lemma_and_bit(c, overline, 0, j);
                assert(bit_of(c, j) == (self.has_segment(j as int) && self.segment_at(
                    j as int,
                ).is_free(r) && self.segment_at(j as int).stone_count(r) == (n & 7)));
                lemma_u16_bits(0, 0, j, 0, n);
                if j <= 10 {
                    lemma_segment_bits(my, self.theirs(r), j);
                }
                if !self.has_segment(j as int) {
                    assert(!bit_of(c, j));
                }
            }
        }
        res
    }

    /// Bit `j` is set if `r` has a row of kind `k` at the segment starting
    /// at cell `j`: the starts [`Self::sequences`] gives.
    pub fn sequence_starts(&self, r: Player, k: RowKind) -> (res: u16)
        requires
            self.wf(),
            VICTORY <= self.size,
        ensures
            forall|j: u16|
                j < 16 ==> (#[trigger] bit_of(res, j) == (self.has_segment(j as int) && k.matches_spec(
                    r,
                    self.prev_at(j as int),
                    self.segment_at(j as int),
                ))),
    {
        let n = k.stones();
        match k {
            Sword | Four | Five => self.scoring(r, n),
            Two | Three | Straight => self.open_starts(r, n),
            Overlining | Overlined => {
                let s = self.counting(r, n);
                let res = s & s << 1u16;
                proof {
                    lemma_u16_bits(0, 0, 0, 0, n);
                    assert forall|j: u16|
                        j < 16 implies #[trigger] bit_of(res, j) == (self.has_segment(j as int)
                        && k.matches_spec(r, self.prev_at(j as int), self.segment_at(j as int))) by {
                        lemma_and_bit(s, s << 1u16, 0, j);
                        assert(bit_of(s, j) == (self.has_segment(j as int) && self.segment_at(
                            j as int,
                        ).is_free(r) && self.segment_at(j as int).stone_count(r) == (n & 7)));
                        if j >= 1 {
                            lemma_shl_bit(s, j);
                            assert(bit_of(s, (j - 1) as u16) == (self.has_segment(j - 1)
                                && self.segment_at(j - 1).is_free(r) && self.segment_at(
                                j - 1,
                            ).stone_count(r) == (n & 7)));
                        } else {
                            lemma_shl_bit(s, 1);
                        }
                    }
                }
                res
            },
        }
    }
}

impl Line {
    /// Whether `r` has an open row of `n` stones at the segment starting at
    /// cell `j`: it and the segment before it both score `n`, and its last
    /// cell is not `r`'s, so the six cells have both ends empty.
    pub open spec fn open_at(self, r: Player, n: int, j: int) -> bool {
        &&& self.has_segment(j)
        &&& j >= 1
        &&& self.segment_at(j).score_of(r) == n
        &&& self.segment_at(j).stone_mask(r) & 0b10000 == 0
        &&& self.segment_at(j - 1).score_of(r) == n
    }

    /// Whether `r` has a row of kind `k` at the segment starting at cell
    /// `j`, as [`Self::sequence_starts`] marks them.
    pub open spec fn row_at(self, r: Player, k: RowKind, j: int) -> bool {
        self.has_segment(j) && k.matches_spec(r, self.prev_at(j), self.segment_at(j))
    }

    /// [`Self::row_at`] as a predicate on the start cell.
    pub open spec fn rows_at(self, r: Player, k: RowKind) -> spec_fn(int) -> bool {
        |j: int| self.row_at(r, k, j)
    }

    /// Whether cell `c` is empty and lies `t` cells or fewer past a start
    /// (a cell `s` with `start(s)`) with bit `c - s` of `cells` set, for a
    /// `t` below `n`.
    pub open spec fn eye_upto(self, start: spec_fn(int) -> bool, cells: u8, c: int, n: int) -> bool
        decreases n,
    {
        if n <= 0 {
            false
        } else {
            self.eye_upto(start, cells, c, n - 1) || (n - 1 <= c && bit_of(cells as u16, (n - 1) as u16)
                && start(c - (n - 1)))
        }
    }

    /// Whether cell `c` is an eye of one of the five-cell segments starting
    /// where `start` holds: an empty cell of it whose offset is set in
    /// `cells`.
    pub open spec fn eye_at(self, start: spec_fn(int) -> bool, cells: u8, c: int) -> bool {
        self.cell(c) is None && self.eye_upto(start, cells, c, 5)
    }

    /// Bit `j` is set if `r` has an open row of `n` stones at the segment
    /// starting at cell `j` ([`Self::open_at`]).
    pub fn open_starts(&self, r: Player, n: u8) -> (res: u16)
        requires
            self.wf(),
            VICTORY <= self.size,
            n <= 5,
        ensures
            forall|j: u16| j < 16 ==> (#[trigger] bit_of(res, j) == self.open_at(r, n as int, j as int)),
    {
        let (my, _) = self.my_op(r);
        let s = self.scoring(r, n);
        let res = s & s << 1u16 & !(my >> 4u16);
        proof {
            assert forall|j: u16| j < 16 implies #[trigger] bit_of(res, j) == self.open_at(r, n as int, j as int) by {
                lemma_and_bit(s & (s << 1u16), my >> 4u16, 0, j);
                lemma_and_bit(s, s << 1u16, 0, j);
                if j >= 1 {
                    lemma_shl_bit(s, j);
                    assert(bit_of(s, (j - 1) as u16) == (self.has_segment(j - 1) && self.segment_at(j - 1).score_of(r) == n));
                } else {
                    lemma_shl_bit(s, 1);
                }
                if j <= 10 {
                    lemma_segment_bits(my, self.theirs(r), j);
                }
                assert(bit_of(s, j) == (self.has_segment(j as int) && self.segment_at(j as int).score_of(r) == n));
            }
        }
        res
    }

    /// Bit `c` is set if cell `c` is an eye of a segment starting at one of
    /// the bits of `starts`: empty, and `t` cells past the start for a bit
    /// `t` of `cells`.
    pub fn eyes_of(&self, starts: u16, cells: u8) -> (res: u16)
        requires
            self.wf(),
        ensures
            forall|c: u16|
                c < 16 ==> (#[trigger] bit_of(res, c) == self.eye_at(starts_in(starts), cells, c as int)),
    {
        let ghost start = starts_in(starts);
        let blanks = !(self.blacks | self.whites);
        let mut res: u16 = 0;
        let mut t: u16 = 0;
        proof {
            assert forall|c: u16| c < 16 implies !#[trigger] bit_of(res, c) by {
                lemma_u16_bits(0, 0, 0, c, 0);
            }
        }
        while t < 5
            invariant
                t <= 5,
                start == starts_in(starts),
                blanks == !(self.blacks | self.whites),
                forall|c: u16|
                    c < 16 ==> (#[trigger] bit_of(res, c) == (self.cell(c as int) is None && self.eye_upto(start, cells, c as int, t as int))),
            decreases 5 - t,
        {
            let ghost before = res;
            if ((cells as u16) >> t) & 1 == 1 {
                res = res | ((starts & (blanks >> t)) << t);
            }
            proof {
                assert forall|c: u16| c < 16 implies (#[trigger] bit_of(res, c) == (self.cell(c as int) is None && self.eye_upto(start, cells, c as int, t + 1))) by {
                    lemma_eye_bits(before, starts, self.blacks, self.whites, t, c);
                    if t <= c {
                        assert(start(c - t) == bit_of(starts, (c - t) as u16));
                    }
                    assert(self.eye_upto(start, cells, c as int, t + 1) == (self.eye_upto(start, cells, c as int, t as int) || (t <= c && bit_of(cells as u16, t) && start(c - t))));
                    if t <= c {
                        assert(((c - t) as u16) as int == c - t);
                    }
                }
            }
            t += 1;
        }
        res
    }

    /// Bit `c` is set if cell `c` is an eye of a row of kind `k` of `r`:
    /// [`Self::eyes_of`] the starts of [`Self::sequence_starts`], over the
    /// cells [`RowKind::eye_cells`] lets be eyes.
    pub fn row_eyes(&self, r: Player, k: RowKind) -> (res: u16)
        requires
            self.wf(),
            VICTORY <= self.size,
        ensures
            forall|c: u16| c < 16 ==> (#[trigger] bit_of(res, c) == self.eye_at(self.rows_at(r, k), k.eye_mask(), c as int)),
    {
        let starts = self.sequence_starts(r, k);
        let res = self.eyes_of(starts, k.eye_cells());
        proof {
            assert forall|c: u16| c < 16 implies (#[trigger] bit_of(res, c) == self.eye_at(self.rows_at(r, k), k.eye_mask(), c as int)) by {
                self.lemma_eye_upto_same(starts_in(starts), self.rows_at(r, k), k.eye_mask(), c as int, 5);
                assert forall|s: int| 0 <= s < 16 implies (starts_in(starts)(s) == #[trigger] self.rows_at(r, k)(s)) by {
                    assert(bit_of(starts, s as u16) == self.row_at(r, k, (s as u16) as int));
                }
            }
        }
        res
    }

    /// Two start predicates that agree on the cells of the line give the
    /// same eyes.
    pub proof fn lemma_eye_upto_same(self, a: spec_fn(int) -> bool, b: spec_fn(int) -> bool, cells: u8, c: int, n: int)
        requires
            0 <= c < 16,
            forall|s: int| 0 <= s < 16 ==> a(s) == #[trigger] b(s),
        ensures
            self.eye_upto(a, cells, c, n) == self.eye_upto(b, cells, c, n),
        decreases n,
    {
        if n > 0 {
            self.lemma_eye_upto_same(a, b, cells, c, n - 1);
            if n - 1 <= c {
                assert(a(c - (n - 1)) == b(c - (n - 1)));
            }
        }
    }
}

/// The cells whose bits are set in `starts`, as a predicate.
pub open spec fn starts_in(starts: u16) -> spec_fn(int) -> bool {
    |s: int| 0 <= s < 16 && bit_of(starts, s as u16)
}

/// One step of [`Line::eyes_of`]: bit `c` after adding the starts shifted
/// by `t`, kept where the cell is empty.
proof fn lemma_eye_bits(res: u16, starts: u16, b: u16, w: u16, t: u16, c: u16)
    by (bit_vector)
    requires
        t < 5,
        c < 16,
    ensures
        bit_of(res | ((starts & (!(b | w) >> t)) << t), c) == (bit_of(res, c) || (t <= c && bit_of(
            starts,
            (c - t) as u16,
        ) && !bit_of(b, c) && !bit_of(w, c))),
{
}

/// A line set at one cell stays as the board keeps lines, holds `c` there
/// and nothing else changes.
pub proof fn lemma_with_cell(l: Line, j: int, c: Option<Player>)
    requires
        l.wf(),
        0 <= j < MAX_SIZE,
    ensures
        l.with_cell(j, c).wf(),
        l.with_cell(j, c).size == l.size,
        l.with_cell(j, c).cell(j) == c,
        forall|m: int| 0 <= m < 16 && m != j ==> #[trigger] l.with_cell(j, c).cell(m) == l.cell(m),
{
    let jj = j as u16;
    lemma_put_bits(l.blacks, l.whites, jj, 0);
    lemma_remove_bits(l.blacks, l.whites, jj, 0);
    assert forall|m: int| 0 <= m < 16 && m != j implies #[trigger] l.with_cell(j, c).cell(m) == l.cell(m) by {
        lemma_put_bits(l.blacks, l.whites, jj, m as u16);
        lemma_remove_bits(l.blacks, l.whites, jj, m as u16);
    }
}

proof fn lemma_put_bits(b: u16, w: u16, i: u16, k: u16)
    by (bit_vector)
    requires
        b < 0x8000,
        w < 0x8000,
        b & w == 0,
        i < 16,
    ensures
        i < 15 ==> (b | (1u16 << i)) < 0x8000,
        i < 15 ==> (w | (1u16 << i)) < 0x8000,
        (b & !(1u16 << i)) < 0x8000,
        (w & !(1u16 << i)) < 0x8000,
        (b | (1u16 << i)) & (w & !(1u16 << i)) == 0,
        (b & !(1u16 << i)) & (w | (1u16 << i)) == 0,
        ((b | (1u16 << i)) >> i) & 1 == 1,
        ((w | (1u16 << i)) >> i) & 1 == 1,
        ((b & !(1u16 << i)) >> i) & 1 == 0,
        ((w & !(1u16 << i)) >> i) & 1 == 0,
        k < 16 && k != i ==> (((b | (1u16 << i)) >> k) & 1 == (b >> k) & 1) && (((w | (1u16 << i))
            >> k) & 1 == (w >> k) & 1) && (((b & !(1u16 << i)) >> k) & 1 == (b >> k) & 1) && (((w
            & !(1u16 << i)) >> k) & 1 == (w >> k) & 1),
{
}

proof fn lemma_remove_bits(b: u16, w: u16, i: u16, k: u16)
    by (bit_vector)
    requires
        b < 0x8000,
        w < 0x8000,
        b & w == 0,
        i < 16,
    ensures
        (b & !(1u16 << i)) < 0x8000,
        (w & !(1u16 << i)) < 0x8000,
        (b & !(1u16 << i)) & (w & !(1u16 << i)) == 0,
        ((b & !(1u16 << i)) >> i) & 1 == 0,
        ((w & !(1u16 << i)) >> i) & 1 == 0,
        k < 16 && k != i ==> (((b & !(1u16 << i)) >> k) & 1 == (b >> k) & 1) && (((w & !(1u16
            << i)) >> k) & 1 == (w >> k) & 1),
{
}

/// How many of the 16 bits of `x` are set.
pub open spec fn ones16(x: u16) -> int
    decreases 16nat,
{
    ones_below(x, 16)
}

/// How many of the `n` low bits of `x` are set.
pub open spec fn ones_below(x: u16, n: nat) -> int
    decreases n,
{
    if n == 0 {
        0
    } else {
        ones_below(x, (n - 1) as nat) + (if bit_of(x, (n - 1) as u16) { 1int } else { 0int })
    }
}

/// How many of the 16 bits of `x` are set.
pub fn count_ones16(x: u16) -> (res: u8)
    ensures
        res == ones16(x),
        res <= 16,
{
    let mut res: u8 = 0;
    let mut k: u16 = 0;
    while k < 16
        invariant
            k <= 16,
            res == ones_below(x, k as nat),
            res <= k,
        decreases 16 - k,
    {
        if (x >> k) & 1 == 1 {
            res += 1;
        }
        k += 1;
    }
    res
}

/// The value of segment `j` for `r` in [`Line::potentials`]: its score + 1,
/// or 0 below `min`.
pub open spec fn segment_value(line: Line, r: Player, min: u8, j: int) -> int {
    let v = line.segment_at(j).score_of(r) + 1;
    if v >= min { v } else { 0 }
}

/// The best value among segments `a` to `b`.
pub open spec fn best_value(line: Line, r: Player, min: u8, a: int, b: int) -> int
    decreases b + 1 - a,
{
    if b < a {
        0
    } else {
        let rest = best_value(line, r, min, a, b - 1);
        let v = segment_value(line, r, min, b);
        if v > rest { v } else { rest }
    }
}

/// How many of segments `a` to `b` are worth `m`.
pub open spec fn count_value(line: Line, r: Player, min: u8, a: int, b: int, m: int) -> int
    decreases b + 1 - a,
{
    if b < a {
        0
    } else {
        count_value(line, r, min, a, b - 1, m) + (if segment_value(line, r, min, b) == m {
            1int
        } else {
            0int
        })
    }
}

/// The potential of cell `i`: the best segment through it, times how many
/// segments through it are that good.
pub open spec fn potential_at(line: Line, r: Player, min: u8, i: int) -> int {
    let first = if i >= 4 { i - 4 } else { 0 };
    let last = if i <= line.size - 5 { i } else { line.size - 5 };
    let m = best_value(line, r, min, first, last);
    m * count_value(line, r, min, first, last, m)
}

/// [`Line::potentials`] over the first `n` cells.
pub open spec fn potentials_below(line: Line, r: Player, min: u8, n: nat) -> Seq<(u8, u8)>
    decreases n,
{
    if n == 0 {
        Seq::empty()
    } else {
        let rest = potentials_below(line, r, min, (n - 1) as nat);
        let i = n - 1;
        if line.cell(i) is None && potential_at(line, r, min, i) >= min {
            rest.push((i as u8, potential_at(line, r, min, i) as u8))
        } else {
            rest
        }
    }
}

/// The segments of a line where one player has a row of one kind:
/// [`Line::sequences`].
pub struct Sequences {
    pub line: Line,
    /// Where the segments not given yet start, bit `j` for cell `j`.
    pub starts: u16,
}

impl Sequences {
    /// The next segment, the one starting lowest, taken off the starts.
    pub fn next(&mut self) -> (res: Option<(u8, Segment)>)
        ensures
            final(self).line == old(self).line,
            old(self).starts == 0 ==> res is None && final(self).starts == 0,
            old(self).starts != 0 ==> exists|j: u16|
                #![trigger bit_of(old(self).starts, j)]
                j < 16 && bit_of(old(self).starts, j) && (forall|k: u16|
                    k < j ==> !#[trigger] bit_of(old(self).starts, k)) && res == Some(
                    (j as u8, old(self).line.segment_at(j as int)),
                ) && final(self).starts == old(self).starts & !(1u16 << j),
    {
        if self.starts == 0 {
            return None;
        }
        let j = self.starts.trailing_zeros() as u16;
        proof {
            vstd::std_specs::bits::axiom_u16_trailing_zeros(self.starts);
            assert forall|k: u16| k < j implies !#[trigger] bit_of(self.starts, k) by {
                assert((self.starts >> k) & 1u16 == 0u16);
            }
        }
        let old_starts = self.starts;
        self.starts = self.starts & !(1u16 << j);
        let res = Some((j as u8, self.line.segment(j as u8)));
        assert(bit_of(old_starts, j));
        res
    }

    /// The segments not given yet, lowest first.
    pub fn to_vec(&self) -> (res: Vec<(u8, Segment)>)
        ensures
            res@.len() == positions(self.starts, 16).len(),
            forall|k: int|
                0 <= k < res@.len() ==> #[trigger] res@[k] == (
                    positions(self.starts, 16)[k],
                    self.line.segment_at(positions(self.starts, 16)[k] as int),
                ),
    {
        let js = positions_of(self.starts, 16);
        proof {
            super::util::lemma_positions(self.starts, 16);
        }
        let mut res: Vec<(u8, Segment)> = Vec::new();
        let mut k: usize = 0;
        while k < js.len()
            invariant
                js@ == positions(self.starts, 16),
                k <= js@.len(),
                res@.len() == k,
                forall|m: int| 0 <= m < js@.len() ==> #[trigger] js@[m] < 16,
                forall|m: int|
                    0 <= m < k ==> #[trigger] res@[m] == (js@[m], self.line.segment_at(
                        js@[m] as int,
                    )),
            decreases js@.len() - k,
        {
            let j = js[k];
            res.push((j, self.line.segment(j)));
            k += 1;
        }
        res
    }
}

impl Line {
    /// `r`'s rows of kind `k` in the line, as `(j, segment)`, `j` being
    /// where the segment starts: the segments where [`RowKind::matches`]
    /// holds, the one before each as its `prev`.
    pub fn sequences(&self, r: Player, k: RowKind) -> (res: Sequences)
        requires
            self.wf(),
            VICTORY <= self.size,
        ensures
            res.line == *self,
            forall|j: u16|
                j < 16 ==> (#[trigger] bit_of(res.starts, j) == (self.has_segment(j as int)
                    && k.matches_spec(r, self.prev_at(j as int), self.segment_at(j as int)))),
    {
        Sequences { line: *self, starts: self.sequence_starts(r, k) }
    }

    /// [`Self::sequences`], only those through cell `i`. For a row of two
    /// segments, both have to be through it.
    pub fn sequences_on(&self, i: u8, r: Player, k: RowKind) -> (res: Sequences)
        requires
            self.wf(),
            VICTORY <= self.size,
            i < MAX_SIZE,
        ensures
            res.line == *self,
            forall|j: u16|
                j < 16 ==> (#[trigger] bit_of(res.starts, j) == (self.has_segment(j as int)
                    && k.matches_spec(r, self.prev_at(j as int), self.segment_at(j as int))
                    && j <= i && i <= j + (if k.single() { 4int } else { 3int }))),
    {
        let back: u8 = if k.spans_two() {
            3
        } else {
            4
        };
        let first = if i >= back {
            i - back
        } else {
            0
        };
        let ii = i as u32;
        let ff = first as u32;
        proof {
            super::map::lemma_mask_bits(ff, ii, 0);
        }
        let through = ((1u32 << (ii + 1)) - (1u32 << ff)) as u16;
        let s = self.sequence_starts(r, k);
        let starts = s & through;
        proof {
            assert forall|j: u16|
                j < 16 implies #[trigger] bit_of(starts, j) == (self.has_segment(j as int)
                && k.matches_spec(r, self.prev_at(j as int), self.segment_at(j as int)) && j <= i
                && i <= j + (if k.single() { 4int } else { 3int })) by {
                lemma_and_bit(s, through, 0, j);
                super::map::lemma_mask_bits(ff, ii, j);
                assert(bit_of(s, j) == (self.has_segment(j as int) && k.matches_spec(
                    r,
                    self.prev_at(j as int),
                    self.segment_at(j as int),
                )));
            }
        }
        Sequences { line: *self, starts }
    }

    /// The potential of each empty cell for `r`, as `(i, potential)`, the
    /// cells below `min` left out.
    ///
    /// A segment is worth its [`Segment::score`] + 1, so 0 if it is dead,
    /// and nothing below `min`. A cell is worth the best segment through
    /// it, times how many segments through it are that good.
    pub fn potentials(&self, r: Player, min: u8) -> (res: Vec<(u8, u8)>)
        requires
            self.wf(),
            VICTORY <= self.size,
        ensures
            res@ == potentials_below(*self, r, min, self.size as nat),
    {
        let nseg = self.size - VICTORY + 1;
        let mut values: Vec<u8> = Vec::new();
        let mut j: u8 = 0;
        while j < nseg
            invariant
                self.wf(),
                VICTORY <= self.size,
                nseg == self.size - VICTORY + 1,
                j <= nseg,
                values@.len() == j,
                forall|m: int| 0 <= m < j ==> #[trigger] values@[m] == segment_value(*self, r, min, m),
            decreases nseg - j,
        {
            let v = (self.segment(j).score(r) + 1) as u8;
            values.push(
                if v >= min {
                    v
                } else {
                    0
                },
            );
            j += 1;
        }
        let mut res: Vec<(u8, u8)> = Vec::new();
        let mut i: u8 = 0;
        while i < self.size
            invariant
                self.wf(),
                VICTORY <= self.size,
                nseg == self.size - VICTORY + 1,
                values@.len() == nseg,
                forall|m: int| 0 <= m < nseg ==> #[trigger] values@[m] == segment_value(*self, r, min, m),
                i <= self.size,
                res@ == potentials_below(*self, r, min, i as nat),
            decreases self.size - i,
        {
            if self.stone(i).is_none() {
                let first = if i >= VICTORY - 1 {
                    i - (VICTORY - 1)
                } else {
                    0
                };
                let last = if i <= self.size - VICTORY {
                    i
                } else {
                    self.size - VICTORY
                };
                let mut max: u8 = 0;
                let mut count: u8 = 0;
                let mut m = first;
                while m <= last
                    invariant
                        first <= m <= last + 1,
                        last < nseg,
                        values@.len() == nseg,
                        forall|q: int| 0 <= q < nseg ==> #[trigger] values@[q] == segment_value(*self, r, min, q),
                        max == best_value(*self, r, min, first as int, m - 1),
                        count == count_value(*self, r, min, first as int, m - 1, max as int),
                        count <= m - first,
                        last <= first + 4,
                        max <= 6,
                    decreases last + 1 - m,
                {
                    let v = values[m as usize];
                    proof {
                        lemma_count_value_bounded(*self, r, min, first as int, m - 1, v as int, max as int);
                        lemma_alive_is_free(self.segment_at(m as int), r);
                        if v > max {
                            lemma_count_zero(*self, r, min, first as int, m - 1, v as int);
                        }
                    }
                    if v > max {
                        max = v;
                        count = 1;
                    } else if v == max {
                        count += 1;
                    }
                    m += 1;
                }
                assert(max * count <= 30) by (nonlinear_arith)
                    requires
                        max <= 6,
                        count <= 5,
                ;
                let potential = max * count;
                if potential >= min {
                    res.push((i, potential));
                }
            }
            i += 1;
        }
        res
    }

    /// [`Self::potential_cap`] as a spec function.
    pub open spec fn cap_of(self, r: Player) -> int {
        if self.size < ones16(self.theirs(r)) + 5 { 0 } else { ones16(self.mine(r)) + 1 }
    }

    /// The cells where `r`'s rows of kind `k` start, lowest first.
    pub open spec fn row_js(self, r: Player, k: RowKind) -> Seq<u8> {
        select(
            |j: int| self.has_segment(j) && k.matches_spec(r, self.prev_at(j), self.segment_at(j)),
            16,
        )
    }

    /// The cells where `r`'s rows of kind `k` through cell `i` start,
    /// lowest first.
    pub open spec fn row_js_on(self, i: int, r: Player, k: RowKind) -> Seq<u8> {
        select(
            |j: int|
                self.has_segment(j) && k.matches_spec(r, self.prev_at(j), self.segment_at(j)) && j
                    <= i && i <= j + (if k.single() { 4int } else { 3int }),
            16,
        )
    }

    /// An upper bound for every segment's potential (own stones + 1): 0 if
    /// the opponent's stones leave no room for a five.
    pub fn potential_cap(&self, r: Player) -> (res: u8)
        ensures
            res == self.cap_of(r),
    {
        let (my, op) = self.my_op(r);
        if (self.size as u16) < count_ones16(op) as u16 + 5 {
            return 0;
        }
        count_ones16(my) + 1
    }
}

/// A segment's value is at most 6, and when a better one comes the count of
/// the old best does not matter.
proof fn lemma_count_value_bounded(line: Line, r: Player, min: u8, a: int, b: int, v: int, m: int)
    requires
        m == best_value(line, r, min, a, b),
    ensures
        count_value(line, r, min, a, b, m) <= b - a + 1 || b < a,
        b < a ==> m == 0 && count_value(line, r, min, a, b, m) == 0,
        forall|q: int| a <= q <= b ==> segment_value(line, r, min, q) <= m,
        count_value(line, r, min, a, b, m) >= 0,
    decreases b + 1 - a,
{
    if b >= a {
        lemma_count_value_bounded(line, r, min, a, b - 1, v, best_value(line, r, min, a, b - 1));
        lemma_count_value_le(line, r, min, a, b - 1, m);
    }
}

/// The best value among segments is between 0 and 6.
proof fn lemma_best_value_bound(line: Line, r: Player, min: u8, a: int, b: int)
    ensures
        0 <= best_value(line, r, min, a, b) <= 6,
    decreases b + 1 - a,
{
    if b >= a {
        lemma_best_value_bound(line, r, min, a, b - 1);
        super::segment::lemma_alive_is_free(line.segment_at(b), r);
    }
}

/// The potential of a cell is between 0 and 30: at most six for the best
/// segment, times at most five segments through the cell.
pub proof fn lemma_potential_at_bound(line: Line, r: Player, min: u8, i: int)
    requires
        line.size <= 15,
    ensures
        0 <= potential_at(line, r, min, i) <= 30,
{
    let first = if i >= 4 { i - 4 } else { 0 };
    let last = if i <= line.size - 5 { i } else { line.size - 5 };
    let m = best_value(line, r, min, first, last);
    lemma_best_value_bound(line, r, min, first, last);
    lemma_count_value_le(line, r, min, first, last, m);
    let c = count_value(line, r, min, first, last, m);
    assert(c <= 5);
    assert(m * c <= 30 && m * c >= 0) by (nonlinear_arith)
        requires
            0 <= m <= 6,
            0 <= c <= 5,
    ;
}

/// Every potential [`Line::potentials`] lists is at most 30, at a cell of
/// the line.
pub proof fn lemma_potentials_below_bound(line: Line, r: Player, min: u8, n: nat)
    requires
        line.size <= 15,
        n <= 16,
    ensures
        forall|m: int|
            0 <= m < potentials_below(line, r, min, n).len() ==> #[trigger] potentials_below(line, r, min, n)[m].1 <= 30
                && potentials_below(line, r, min, n)[m].0 < n,
    decreases n,
{
    if n > 0 {
        lemma_potentials_below_bound(line, r, min, (n - 1) as nat);
        lemma_potential_at_bound(line, r, min, n - 1);
        let rest = potentials_below(line, r, min, (n - 1) as nat);
        assert forall|m: int| 0 <= m < potentials_below(line, r, min, n).len() implies #[trigger] potentials_below(
            line,
            r,
            min,
            n,
        )[m].1 <= 30 && potentials_below(line, r, min, n)[m].0 < n by {
            if m < rest.len() {
                assert(potentials_below(line, r, min, n)[m] == rest[m]);
            }
        }
    }
}

/// What [`Line::potentials`] lists: each empty cell below `n` whose
/// potential reaches `min`, once, in increasing order, with its potential.
pub proof fn lemma_potentials_below(line: Line, r: Player, min: u8, n: nat)
    requires
        line.size <= 15,
        n <= 16,
    ensures
        forall|m: int|
            0 <= m < potentials_below(line, r, min, n).len() ==> {
                let e = #[trigger] potentials_below(line, r, min, n)[m];
                &&& e.0 < n
                &&& line.cell(e.0 as int) is None
                &&& potential_at(line, r, min, e.0 as int) >= min
                &&& e.1 == potential_at(line, r, min, e.0 as int)
                &&& e.1 <= 30
            },
        forall|a: int, b: int|
            0 <= a < b < potentials_below(line, r, min, n).len() ==> #[trigger] potentials_below(line, r, min, n)[a].0
                < #[trigger] potentials_below(line, r, min, n)[b].0,
        forall|i: int|
            0 <= i < n && line.cell(i) is None && potential_at(line, r, min, i) >= min ==> exists|m: int|
                0 <= m < potentials_below(line, r, min, n).len() && #[trigger] potentials_below(line, r, min, n)[m].0
                    == i,
    decreases n,
{
    if n > 0 {
        lemma_potentials_below(line, r, min, (n - 1) as nat);
        lemma_potential_at_bound(line, r, min, n - 1);
        let rest = potentials_below(line, r, min, (n - 1) as nat);
        let all = potentials_below(line, r, min, n);
        assert forall|m: int| 0 <= m < all.len() implies {
            let e = #[trigger] all[m];
            &&& e.0 < n
            &&& line.cell(e.0 as int) is None
            &&& potential_at(line, r, min, e.0 as int) >= min
            &&& e.1 == potential_at(line, r, min, e.0 as int)
            &&& e.1 <= 30
        } by {
            if m < rest.len() {
                assert(all[m] == rest[m]);
            }
        }
        assert forall|a: int, b: int| 0 <= a < b < all.len() implies #[trigger] all[a].0 < #[trigger] all[b].0 by {
            assert(all[a] == rest[a]);
            if b < rest.len() {
                assert(all[b] == rest[b]);
            }
        }
        assert forall|i: int| 0 <= i < n && line.cell(i) is None && potential_at(line, r, min, i) >= min implies exists|m: int|
            0 <= m < all.len() && #[trigger] all[m].0 == i by {
            if i < n - 1 {
                let m = choose|m: int| 0 <= m < rest.len() && #[trigger] rest[m].0 == i;
                assert(all[m] == rest[m]);
            } else {
                assert(all[rest.len() as int].0 == i);
            }
        }
    }
}

proof fn lemma_count_zero(line: Line, r: Player, min: u8, a: int, b: int, m: int)
    requires
        forall|q: int| a <= q <= b ==> segment_value(line, r, min, q) < m,
    ensures
        count_value(line, r, min, a, b, m) == 0,
    decreases b + 1 - a,
{
    if b >= a {
        lemma_count_zero(line, r, min, a, b - 1, m);
    }
}

proof fn lemma_count_value_le(line: Line, r: Player, min: u8, a: int, b: int, m: int)
    ensures
        0 <= count_value(line, r, min, a, b, m) <= (if b < a { 0 } else { b - a + 1 }),
    decreases b + 1 - a,
{
    if b >= a {
        lemma_count_value_le(line, r, min, a, b - 1, m);
    }
}

/// The five bits of a window, one by one.
proof fn lemma_window_bits(x: u16, j: u16)
    by (bit_vector)
    requires
        j <= 10,
    ensures
        ((x >> j) & 1) == (if bit_of(x, j) { 1u16 } else { 0u16 }),
        ((x >> j >> 1) & 1) == (if bit_of(x, (j + 1) as u16) { 1u16 } else { 0u16 }),
        ((x >> j >> 2) & 1) == (if bit_of(x, (j + 2) as u16) { 1u16 } else { 0u16 }),
        ((x >> j >> 3) & 1) == (if bit_of(x, (j + 3) as u16) { 1u16 } else { 0u16 }),
        ((x >> j >> 4) & 1) == (if bit_of(x, (j + 4) as u16) { 1u16 } else { 0u16 }),
        (x >> j) & 0x1f == 0 ==> !bit_of(x, j) && !bit_of(x, (j + 1) as u16) && !bit_of(x, (j + 2) as u16)
            && !bit_of(x, (j + 3) as u16) && !bit_of(x, (j + 4) as u16),
{
}

/// The set bits among `m` to `n - 1` are at least none and at most all.
proof fn lemma_ones_between(x: u16, m: nat, n: nat)
    requires
        m <= n,
    ensures
        0 <= ones_below(x, n) - ones_below(x, m) <= n - m,
        ones_below(x, m) >= 0,
    decreases n,
{
    lemma_ones_below_bounds(x, m);
    if n > m {
        lemma_ones_between(x, m, (n - 1) as nat);
    }
}

/// At most `n` of the `n` low bits are set.
proof fn lemma_ones_below_bounds(x: u16, n: nat)
    ensures
        0 <= ones_below(x, n) <= n,
    decreases n,
{
    if n > 0 {
        lemma_ones_below_bounds(x, (n - 1) as nat);
    }
}

/// With no bit set from `n` on, the low `n` bits hold them all.
proof fn lemma_ones_beyond(x: u16, n: nat, t: nat)
    requires
        n <= t <= 16,
        forall|k: u16| n <= k < t ==> !bit_of(x, k),
    ensures
        ones_below(x, t) == ones_below(x, n),
    decreases t,
{
    if t > n {
        lemma_ones_beyond(x, n, (t - 1) as nat);
        let k = (t - 1) as u16;
        assert(n <= k < t);
        assert(!bit_of(x, k));
    }
}

/// [`Line::potential_cap`] bounds every segment: a segment's score plus one
/// is at most the cap, when no stone lies past the line's last cell.
pub proof fn lemma_cap_bounds_scores(line: Line, r: Player, j: int)
    requires
        line.wf(),
        forall|k: int| line.size <= k < 16 ==> #[trigger] line.cell(k) is None,
        line.has_segment(j),
    ensures
        line.segment_at(j).score_of(r) + 1 <= line.cap_of(r),
{
    let (my, op) = (line.mine(r), line.theirs(r));
    let jj = j as u16;
    let seg = line.segment_at(j);
    lemma_segment_bits(my, op, jj);
    lemma_window_bits(my, jj);
    lemma_window_bits(op, jj);
    assert(seg.mine(r) == ((((my << 1u16) >> jj) as u8) & 0x7f));
    assert(seg.theirs(r) == ((((op << 1u16) >> jj) as u8) & 0x7f));
    assert(ones_below(my, (j + 5) as nat) - ones_below(my, j as nat) == window_count(my, jj)) by {
        assert(ones_below(my, (j + 5) as nat) == ones_below(my, (j + 4) as nat) + (if bit_of(my, (j + 4) as u16) { 1int } else { 0int }));
        assert(ones_below(my, (j + 4) as nat) == ones_below(my, (j + 3) as nat) + (if bit_of(my, (j + 3) as u16) { 1int } else { 0int }));
        assert(ones_below(my, (j + 3) as nat) == ones_below(my, (j + 2) as nat) + (if bit_of(my, (j + 2) as u16) { 1int } else { 0int }));
        assert(ones_below(my, (j + 2) as nat) == ones_below(my, (j + 1) as nat) + (if bit_of(my, (j + 1) as u16) { 1int } else { 0int }));
        assert(ones_below(my, (j + 1) as nat) == ones_below(my, j as nat) + (if bit_of(my, j as u16) { 1int } else { 0int }));
    }
    lemma_ones_between(my, j as nat, (j + 5) as nat);
    lemma_ones_between(my, (j + 5) as nat, 16);
    lemma_ones_between(my, 0, j as nat);
    if seg.is_alive(r) {
        assert(seg.stone_count(r) == window_count(my, jj));
        assert(seg.stone_count(r) <= ones16(my));
        if (line.size as int) < ones16(op) + 5 {
            assert(seg.is_free(r));
            assert(seg.theirs(r) & CELLS == 0);
            assert((op >> jj) & 0x1f == 0);
            assert(ones_below(op, (j + 5) as nat) == ones_below(op, j as nat)) by {
                assert(ones_below(op, (j + 5) as nat) == ones_below(op, (j + 4) as nat));
                assert(ones_below(op, (j + 4) as nat) == ones_below(op, (j + 3) as nat));
                assert(ones_below(op, (j + 3) as nat) == ones_below(op, (j + 2) as nat));
                assert(ones_below(op, (j + 2) as nat) == ones_below(op, (j + 1) as nat));
                assert(ones_below(op, (j + 1) as nat) == ones_below(op, j as nat));
            }
            assert forall|k: u16| line.size <= k < 16 implies !bit_of(op, k) by {
                assert(line.cell(k as int) is None);
            }
            lemma_ones_beyond(op, line.size as nat, 16);
            lemma_ones_between(op, 0, j as nat);
            lemma_ones_between(op, (j + 5) as nat, line.size as nat);
            assert(false);
        }
    }
}

} // verus!
