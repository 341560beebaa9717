use vstd::prelude::*;
use super::sequence::{ones8, MARGIN_MASK, TARGET_MASK};
use super::segment::VICTORY;

verus! {

/// The first cell of a window, in the shifted stones.
pub const FIRST_MASK: u8 = 0b00000010;

/// The potential of each empty cell of a line for one player, as
/// `(i, potential)`, the cells below `min` left out.
///
/// A window free of opponent stones (and, if `exact`, with no own stone
/// just outside it) is worth its own stones + 1, or nothing below `min`.
/// An empty cell is worth the best window through it, times how many
/// windows through it are that good.
pub struct Potentials {
    pub my: u16,
    pub op: u16,
    pub min: u8,
    pub exact: bool,
    pub limit: u8,
    pub i: u8,
    /// The values of the five windows ending at the last cell looked at,
    /// oldest first.
    pub acc: (u8, u8, u8, u8, u8),
}

/// The best of five values and how many are that good, taken in order
/// from a best of 0 and a count of 0.
pub open spec fn best_of(a: (u8, u8, u8, u8, u8)) -> (int, int) {
    let step = |mc: (int, int), p: u8|
        if p > mc.0 { (p as int, 1int) } else if p == mc.0 { (mc.0, mc.1 + 1) } else { mc };
    step(step(step(step(step((0, 0), a.0), a.1), a.2), a.3), a.4)
}

/// The value of the window starting at cell `i`, and the five last values
/// after it.
pub open spec fn potential_step(s: Potentials, i: u8, acc: (u8, u8, u8, u8, u8)) -> (
    (u8, u8, u8, u8, u8),
    Option<(u8, u8)>,
) {
    let my_ = (s.my >> i) as u8;
    let op_ = (s.op >> i) as u8;
    let is_fullsize = i + VICTORY <= s.limit;
    let is_valid = op_ & TARGET_MASK == 0 && (!s.exact || my_ & MARGIN_MASK == 0);
    let blank = my_ & FIRST_MASK == 0 && op_ & FIRST_MASK == 0;
    let v: u8 = if is_fullsize && is_valid {
        let p = ones8(my_ & TARGET_MASK) + 1;
        if p >= s.min { p as u8 } else { 0 }
    } else {
        0
    };
    let next = (acc.1, acc.2, acc.3, acc.4, v);
    let (max, count) = best_of(next);
    let ret = max * count;
    (next, if blank && ret >= s.min { Some((i, ret as u8)) } else { None })
}

/// Everything cells `i` to the end give, in order.
pub open spec fn potential_emits(s: Potentials, i: int, acc: (u8, u8, u8, u8, u8)) -> Seq<(u8, u8)>
    decreases s.limit - i,
{
    if i >= s.limit || i < 0 {
        Seq::empty()
    } else {
        let (next, out) = potential_step(s, i as u8, acc);
        let rest = potential_emits(s, i + 1, next);
        match out {
            Some(x) => seq![x] + rest,
            None => rest,
        }
    }
}

/// The greatest of five values.
pub open spec fn max5(a: (u8, u8, u8, u8, u8)) -> int {
    let m01 = if a.0 >= a.1 { a.0 } else { a.1 };
    let m012 = if m01 >= a.2 { m01 } else { a.2 };
    let m0123 = if m012 >= a.3 { m012 } else { a.3 };
    if m0123 >= a.4 { m0123 as int } else { a.4 as int }
}

/// How many of five values equal `m`.
pub open spec fn count_eq(a: (u8, u8, u8, u8, u8), m: int) -> int {
    (if a.0 == m { 1int } else { 0int }) + (if a.1 == m { 1int } else { 0int }) + (if a.2 == m {
        1int
    } else {
        0int
    }) + (if a.3 == m { 1int } else { 0int }) + (if a.4 == m { 1int } else { 0int })
}

/// [`best_of`] is the greatest value and how many values are that great.
pub proof fn lemma_best_of(a: (u8, u8, u8, u8, u8))
    ensures
        best_of(a) == (max5(a), count_eq(a, max5(a))),
{
}

/// The value of the window of five cells from cell `j` of the line: its
/// own stones + 1 where it fits on the line, holds no opponent stone (and,
/// if `exact`, has no own stone just outside it) and is worth at least
/// `min`; else, and before the line, 0.
pub open spec fn window_value(s: Potentials, j: int) -> u8 {
    if j < 0 || j > u8::MAX {
        0
    } else {
        let i = j as u8;
        let my_ = (s.my >> i) as u8;
        let op_ = (s.op >> i) as u8;
        if i + VICTORY <= s.limit && op_ & TARGET_MASK == 0 && (!s.exact || my_ & MARGIN_MASK == 0) {
            let p = ones8(my_ & TARGET_MASK) + 1;
            if p >= s.min { p as u8 } else { 0 }
        } else {
            0
        }
    }
}

/// The values of the five windows through cell `c`, those starting at
/// `c - 4` to `c`.
pub open spec fn windows_through(s: Potentials, c: int) -> (u8, u8, u8, u8, u8) {
    (window_value(s, c - 4), window_value(s, c - 3), window_value(s, c - 2), window_value(s, c - 1), window_value(s, c))
}

/// The potential of cell `c`: the best value of a window through it,
/// times how many windows through it are that good.
pub open spec fn cell_potential(s: Potentials, c: int) -> int {
    let a = windows_through(s, c);
    max5(a) * count_eq(a, max5(a))
}

/// Whether cell `c` holds no stone.
pub open spec fn cell_empty(s: Potentials, c: int) -> bool {
    ((s.my >> (c as u8)) as u8) & FIRST_MASK == 0 && ((s.op >> (c as u8)) as u8) & FIRST_MASK == 0
}

/// The empty cells from `i` on whose potential reaches `min`, each with
/// its potential, in order.
pub open spec fn potential_cells(s: Potentials, i: int) -> Seq<(u8, u8)>
    decreases s.limit - i,
{
    if i >= s.limit || i < 0 {
        Seq::empty()
    } else {
        let rest = potential_cells(s, i + 1);
        if cell_empty(s, i) && cell_potential(s, i) >= s.min {
            seq![(i as u8, cell_potential(s, i) as u8)] + rest
        } else {
            rest
        }
    }
}

/// From cell `i` on, with the values of the five windows before it in
/// hand, the walk gives [`potential_cells`].
proof fn lemma_emits_cells(s: Potentials, i: int)
    requires
        0 <= i,
        s.limit <= 16,
    ensures
        potential_emits(s, i, windows_through(s, i - 1)) == potential_cells(s, i),
    decreases s.limit - i,
{
    if i < s.limit {
        let acc = windows_through(s, i - 1);
        let (next, out) = potential_step(s, i as u8, acc);
        assert(next == windows_through(s, i));
        lemma_best_of(next);
        assert(max5(next) <= 6 && count_eq(next, max5(next)) <= 5) by {
            lemma_window_small(s, i - 4);
            lemma_window_small(s, i - 3);
            lemma_window_small(s, i - 2);
            lemma_window_small(s, i - 1);
            lemma_window_small(s, i);
        }
        assert(max5(next) * count_eq(next, max5(next)) <= 30) by (nonlinear_arith)
            requires
                0 <= max5(next) <= 6,
                0 <= count_eq(next, max5(next)) <= 5,
        ;
        lemma_emits_cells(s, i + 1);
    }
}

/// A window holds at most five stones.
proof fn lemma_target_ones(my_: u8)
    by (bit_vector)
    ensures
        ones8(my_ & 0b00111110u8) <= 5,
{
}

/// A window is worth at most 6.
proof fn lemma_window_small(s: Potentials, j: int)
    ensures
        window_value(s, j) <= 6,
{
    if 0 <= j <= u8::MAX {
        lemma_target_ones((s.my >> (j as u8)) as u8);
    }
}

/// What a line's potentials are, cell by cell: each empty cell whose
/// potential reaches `min`, in order, where a cell's potential is the best
/// value of the five windows through it times how many of them are that
/// good, and a window is worth its own stones + 1 when it can still make
/// five.
pub proof fn lemma_potentials_by_cell(size: u8, my: u16, op: u16, min: u8, exact: bool)
    requires
        VICTORY <= size <= 16,
    ensures
        potentials_spec(size, my, op, min, exact).remaining() == potential_cells(
            potentials_spec(size, my, op, min, exact),
            0,
        ),
{
    let s = potentials_spec(size, my, op, min, exact);
    assert(s.frame() == s);
    assert(windows_through(s, -1) == (0u8, 0u8, 0u8, 0u8, 0u8));
    lemma_emits_cells(s, 0);
}

/// Each window value is at most 6.
pub open spec fn small(acc: (u8, u8, u8, u8, u8)) -> bool {
    acc.0 <= 6 && acc.1 <= 6 && acc.2 <= 6 && acc.3 <= 6 && acc.4 <= 6
}

/// [`Potentials::new`] as a spec function.
pub open spec fn potentials_spec(size: u8, my: u16, op: u16, min: u8, exact: bool) -> Potentials {
    Potentials {
        my: (my << 1u16) as u16,
        op: (op << 1u16) as u16,
        min,
        exact,
        limit: size,
        i: 0,
        acc: (0, 0, 0, 0, 0),
    }
}

impl Potentials {
    /// The fields that stay as they are while the cells are walked.
    pub open spec fn frame(self) -> Potentials {
        Potentials { i: 0, acc: (0, 0, 0, 0, 0), ..self }
    }

    /// What is still to come.
    pub open spec fn remaining(self) -> Seq<(u8, u8)> {
        potential_emits(self.frame(), self.i as int, self.acc)
    }

    /// The potentials of a line of `size` cells, `my` and `op` being the
    /// player's stones and the opponent's.
    pub fn new(size: u8, my: u16, op: u16, min: u8, exact: bool) -> (res: Self)
        requires
            VICTORY <= size <= 16,
        ensures
            res == potentials_spec(size, my, op, min, exact),
    {
        Self { my: my << 1u16, op: op << 1u16, min, exact, limit: size, i: 0, acc: (0, 0, 0, 0, 0) }
    }

    /// The next cell's potential, if there is one still to come.
    pub fn next(&mut self) -> (res: Option<(u8, u8)>)
        requires
            VICTORY <= old(self).limit <= 16,
            small(old(self).acc),
        ensures
            final(self).limit == old(self).limit,
            small(final(self).acc),
            old(self).remaining().len() == 0 ==> res is None && final(self).remaining().len() == 0,
            old(self).remaining().len() > 0 ==> res == Some(old(self).remaining()[0])
                && final(self).remaining() == old(self).remaining().drop_first(),
    {
        while self.i < self.limit
            invariant
                VICTORY <= self.limit <= 16,
                self.frame() == old(self).frame(),
                self.remaining() == old(self).remaining(),
                small(self.acc),
            decreases self.limit - self.i,
        {
            let i = self.i;
            self.i += 1;
            let my_ = (self.my >> i) as u8;
            let op_ = (self.op >> i) as u8;
            let is_fullsize = i <= self.limit - VICTORY;
            let is_valid = op_ & TARGET_MASK == 0 && (!self.exact || my_ & MARGIN_MASK == 0);
            let blank = my_ & FIRST_MASK == 0 && op_ & FIRST_MASK == 0;
            let (a0, a1, a2, a3, a4) = self.acc;
            let v: u8 = if is_fullsize && is_valid {
                let t = my_ & TARGET_MASK;
                proof {
                    lemma_target_ones(my_);
                }
                let p = count8(t) + 1;
                if p >= self.min {
                    p
                } else {
                    0
                }
            } else {
                0
            };
            self.acc = (a1, a2, a3, a4, v);
            let mut max: u8 = 0;
            let mut count: u8 = 0;
            let (b0, b1, b2, b3, b4) = self.acc;
            if b0 > max { max = b0; count = 1; } else if b0 == max { count += 1; }
            if b1 > max { max = b1; count = 1; } else if b1 == max { count += 1; }
            if b2 > max { max = b2; count = 1; } else if b2 == max { count += 1; }
            if b3 > max { max = b3; count = 1; } else if b3 == max { count += 1; }
            if b4 > max { max = b4; count = 1; } else if b4 == max { count += 1; }
            assert(max * count <= 30) by (nonlinear_arith)
                requires
                    max <= 6,
                    count <= 5,
            ;
            let ret = max * count;
            if blank && ret >= self.min {
                return Some((i, ret));
            }
        }
        None
    }

    /// Everything still to come, in order.
    pub fn to_vec(&mut self) -> (res: Vec<(u8, u8)>)
        requires
            VICTORY <= old(self).limit <= 16,
            small(old(self).acc),
        ensures
            res@ == old(self).remaining(),
    {
        let mut res: Vec<(u8, u8)> = Vec::new();
        loop
            invariant
                VICTORY <= self.limit <= 16,
                small(self.acc),
                res@ + self.remaining() == old(self).remaining(),
            decreases self.remaining().len(),
        {
            match self.next() {
                Some(x) => {
                    res.push(x);
                },
                None => {
                    assert(res@ =~= old(self).remaining());
                    return res;
                },
            }
        }
    }
}

/// How many of the eight bits of `b` are set.
fn count8(b: u8) -> (res: u8)
    ensures
        res == ones8(b),
        res <= 8,
{
    assert((b & 1) <= 1 && ((b >> 1) & 1) <= 1 && ((b >> 2) & 1) <= 1 && ((b >> 3) & 1) <= 1 && ((b
        >> 4) & 1) <= 1 && ((b >> 5) & 1) <= 1 && ((b >> 6) & 1) <= 1 && ((b >> 7) & 1) <= 1)
        by (bit_vector);
    (b & 1) + ((b >> 1) & 1) + ((b >> 2) & 1) + ((b >> 3) & 1) + ((b >> 4) & 1) + ((b >> 5) & 1) + ((b
        >> 6) & 1) + ((b >> 7) & 1)
}

} // verus!
