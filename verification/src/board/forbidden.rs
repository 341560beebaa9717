use vstd::prelude::*;
use super::player::{Black, Player, White};
use super::point::{Index, Point};
use super::row::{Four, Overlining, Row, RowKind, Sword, Three, Two};
use super::square::{lemma_empty_count, lemma_rows_on, lemma_set_spec, Square, SquareModel};
use super::util::lemma_positions_nonempty;
use super::util::positions;

verus! {

/// The moves Black may not play: two threes, two fours, or six or more in
/// a row.
#[derive(Debug, PartialEq, Eq, Clone, Copy, Structural)]
pub enum ForbiddenKind {
    DoubleThree,
    DoubleFour,
    Overline,
}

pub use ForbiddenKind::{DoubleFour, DoubleThree, Overline};

/// Where the rows start.
pub open spec fn starts(rows: Seq<Row>) -> Seq<Index> {
    rows.map_values(|row: Row| row.start)
}

/// The cell just after `idx` on its line.
pub open spec fn next_to(idx: Index) -> Index {
    Index { d: idx.d, i: idx.i, j: (idx.j + 1) as u8 }
}

/// Whether the rows starting at `idxs` are at least two different rows:
/// some row does not start at the first one's start or just after it (the
/// two segments of one shape always do).
pub open spec fn distinctive(idxs: Seq<Index>) -> bool {
    idxs.len() > 0 && exists|k: int| 1 <= k < idxs.len() && #[trigger] idxs[k] != next_to(idxs[0])
}

/// The first eye of `row`.
pub open spec fn first_eye(row: Row) -> Point {
    let s = row.start;
    Index { d: s.d, i: s.i, j: (s.j + positions(row.eyes as u16, 5)[0]) as u8 }.point_of()
}

/// Whether the board and the point are ones the rules talk about.
pub open spec fn judged(g: SquareModel, p: Point) -> bool {
    g.wf() && p.valid()
}

/// Black's rows of kind `k` through `p`.
pub open spec fn black_rows_on(g: SquareModel, p: Point, k: RowKind) -> Seq<Row> {
    g.rows_on_upto(p, Black, k, 4)
}

/// Whether a black stone on `p` makes six or more in a row.
pub open spec fn overline_spec(g: SquareModel, p: Point) -> bool {
    black_rows_on(g, p, Overlining).len() > 0
}

/// Whether a black stone on `p` makes two fours.
pub open spec fn double_four_spec(g: SquareModel, p: Point) -> bool {
    distinctive(starts(black_rows_on(g, p, Sword)))
}

/// [`forbidden_strict`] as a spec function: `p` is empty, a black stone
/// there makes no five, and it is [`forbidden`].
pub open spec fn forbidden_strict_spec(g: SquareModel, p: Point) -> Option<ForbiddenKind>
    decreases g.empty_count(), 2nat, 0nat,
{
    if !judged(g, p) {
        None
    } else if g.stone_at(p) is Some {
        None
    } else if black_rows_on(g, p, Four).len() > 0 {
        None
    } else {
        forbidden_spec(g, p)
    }
}

/// [`forbidden`] as a spec function.
pub open spec fn forbidden_spec(g: SquareModel, p: Point) -> Option<ForbiddenKind>
    decreases g.empty_count(), (if g.stone_at(p) is None { 1nat } else { 6nat }), 0nat,
{
    if !judged(g, p) {
        None
    } else if overline_spec(g, p) {
        Some(Overline)
    } else if double_four_spec(g, p) {
        Some(DoubleFour)
    } else if double_three_spec(g, p) {
        Some(DoubleThree)
    } else {
        None
    }
}

/// Whether a black stone on `p` makes two threes that are real: each
/// can still become a straight four at a point Black may play.
pub open spec fn double_three_spec(g: SquareModel, p: Point) -> bool
    decreases g.empty_count(), (if g.stone_at(p) is None { 0nat } else { 5nat }), 0nat,
{
    if !judged(g, p) {
        false
    } else if !distinctive(starts(black_rows_on(g, p, Two))) {
        false
    } else {
        let next = g.set_spec(p, Some(Black));
        proof {
            lemma_set_spec(g, p, Some(Black));
            lemma_empty_count(g, next, p, 225);
        }
        truthy_double_three_spec(next, p)
    }
}

/// Whether, with Black on `p`, the threes through `p` whose eye Black may
/// play are at least two different rows.
pub open spec fn truthy_double_three_spec(next: SquareModel, p: Point) -> bool
    decreases next.empty_count(), 4nat, 0nat,
{
    let threes = black_rows_on(next, p, Three);
    distinctive(real_threes(next, threes, threes.len()))
}

/// Where the first `n` of `rows` start, those whose first eye Black may
/// play.
pub open spec fn real_threes(next: SquareModel, rows: Seq<Row>, n: nat) -> Seq<Index>
    decreases next.empty_count(), 3nat, n,
{
    if n == 0 {
        Seq::empty()
    } else {
        let rest = real_threes(next, rows, (n - 1) as nat);
        let row = rows[n - 1];
        if forbidden_strict_spec(next, first_eye(row)) is None {
            rest.push(row.start)
        } else {
            rest
        }
    }
}

/// Every point of the board where Black's move is forbidden, by column
/// then by row: [`forbidden_strict`] of each empty point.
pub open spec fn forbiddens_spec(g: SquareModel, ps: Seq<Point>) -> Seq<(ForbiddenKind, Point)>
    decreases ps.len(),
{
    if ps.len() == 0 {
        Seq::empty()
    } else {
        let rest = forbiddens_spec(g, ps.drop_last());
        match forbidden_strict_spec(g, ps.last()) {
            Some(k) => rest.push((k, ps.last())),
            None => rest,
        }
    }
}

fn distinctive_exec(indices: &Vec<Index>) -> (res: bool)
    ensures
        res == distinctive(indices@),
{
    if indices.len() == 0 {
        return false;
    }
    let first = indices[0];
    let next_to_first = Index::new(first.d, first.i, (first.j as u16 + 1) as u8);
    let mut k: usize = 1;
    while k < indices.len()
        invariant
            1 <= k <= indices@.len(),
            first == indices@[0],
            next_to_first == next_to(first),
            forall|m: int| 1 <= m < k ==> #[trigger] indices@[m] == next_to(indices@[0]),
        decreases indices@.len() - k,
    {
        if indices[k] != next_to_first {
            return true;
        }
        k += 1;
    }
    false
}

fn starts_of(rows: &Vec<Row>) -> (res: Vec<Index>)
    ensures
        res@ == starts(rows@),
{
    let mut res: Vec<Index> = Vec::new();
    let mut k: usize = 0;
    while k < rows.len()
        invariant
            k <= rows@.len(),
            res@ == starts(rows@.take(k as int)),
        decreases rows@.len() - k,
    {
        res.push(rows[k].start);
        assert(starts(rows@.take(k + 1)) =~= starts(rows@.take(k as int)).push(rows@[k as int].start));
        k += 1;
    }
    assert(rows@.take(k as int) =~= rows@);
    res
}

/// Black's forbidden moves: every empty point where
/// [`forbidden_strict`] finds one, by column then by row.
pub fn forbiddens(g: &Square) -> (res: Vec<(ForbiddenKind, Point)>)
    requires
        g@.wf(),
    ensures
        res@ == forbiddens_spec(g@, g@.points_with(None, 225)),
{
    let empties = g.empties();
    proof {
        g@.lemma_points_valid(None, 225);
    }
    let mut res: Vec<(ForbiddenKind, Point)> = Vec::new();
    let mut k: usize = 0;
    while k < empties.len()
        invariant
            g@.wf(),
            empties@ == g@.points_with(None, 225),
            forall|m: int| 0 <= m < empties@.len() ==> (#[trigger] empties@[m]).valid(),
            k <= empties@.len(),
            res@ == forbiddens_spec(g@, empties@.take(k as int)),
        decreases empties@.len() - k,
    {
        let p = empties[k];
        assert(empties@.take(k + 1).drop_last() =~= empties@.take(k as int));
        if let Some(kind) = forbidden_strict(g, p) {
            res.push((kind, p));
        }
        k += 1;
    }
    assert(empties@.take(k as int) =~= empties@);
    res
}

/// Whether Black's move at `p` is forbidden, as the rules judge a move:
/// only on an empty point, and never when it makes a five.
pub fn forbidden_strict(g: &Square, p: Point) -> (res: Option<ForbiddenKind>)
    requires
        g@.wf(),
        p.valid(),
    ensures
        res == forbidden_strict_spec(g@, p),
    decreases g@.empty_count(), 2nat, 0nat,
{
    if g.stone(p).is_some() {
        return None;
    }
    let fours = g.rows_on(p, Black, Four);
    if fours.len() > 0 {
        return None;
    }
    forbidden(g, p)
}

/// What a black stone on `p` would make that the rules forbid, looked at
/// in this order: an overline, a double-four, a double-three.
pub fn forbidden(g: &Square, p: Point) -> (res: Option<ForbiddenKind>)
    requires
        g@.wf(),
        p.valid(),
    ensures
        res == forbidden_spec(g@, p),
    decreases g@.empty_count(), (if g@.stone_at(p) is None { 1nat } else { 6nat }), 0nat,
{
    if overline(g, p) {
        Some(Overline)
    } else if double_four(g, p) {
        Some(DoubleFour)
    } else if double_three(g, p) {
        Some(DoubleThree)
    } else {
        None
    }
}

fn overline(g: &Square, p: Point) -> (res: bool)
    requires
        g@.wf(),
        p.valid(),
    ensures
        res == overline_spec(g@, p),
{
    g.rows_on(p, Black, Overlining).len() > 0
}

fn double_four(g: &Square, p: Point) -> (res: bool)
    requires
        g@.wf(),
        p.valid(),
    ensures
        res == double_four_spec(g@, p),
{
    let swords = g.rows_on(p, Black, Sword);
    distinctive_exec(&starts_of(&swords))
}

fn double_three(g: &Square, p: Point) -> (res: bool)
    requires
        g@.wf(),
        p.valid(),
    ensures
        res == double_three_spec(g@, p),
    decreases g@.empty_count(), (if g@.stone_at(p) is None { 0nat } else { 5nat }), 0nat,
{
    let twos = g.rows_on(p, Black, Two);
    if !distinctive_exec(&starts_of(&twos)) {
        return false;
    }
    let mut next = g.duplicate();
    next.put_mut(Black, p);
    proof {
        lemma_set_spec(g@, p, Some(Black));
        lemma_empty_count(g@, next@, p, 225);
    }
    truthy_double_three(&next, p)
}

fn truthy_double_three(next: &Square, p: Point) -> (res: bool)
    requires
        next@.wf(),
        p.valid(),
    ensures
        res == truthy_double_three_spec(next@, p),
    decreases next@.empty_count(), 4nat, 0nat,
{
    let threes = next.rows_on(p, Black, Three);
    proof {
        lemma_rows_on(next@, p, Black, Three, 4);
    }
    let mut genuine: Vec<Index> = Vec::new();
    let mut k: usize = 0;
    while k < threes.len()
        invariant
            next@.wf(),
            threes@ == black_rows_on(next@, p, Three),
            k <= threes@.len(),
            genuine@ == real_threes(next@, threes@, k as nat),
            forall|m: int|
                0 <= m < threes@.len() ==> super::structure::window_on_board(
                    (#[trigger] threes@[m]).start,
                ) && threes@[m].eyes != 0 && threes@[m].eyes < 32,
        decreases threes@.len() - k,
    {
        let row = threes[k];
        proof {
            lemma_positions_nonempty(row.eyes as u16);
        }
        let eyes = row.eyes();
        let eye = eyes[0];
        proof {
            super::util::lemma_positions(row.eyes as u16, 5);
            let idx = Index { d: row.start.d, i: row.start.i, j: (row.start.j + positions(row.eyes as u16, 5)[0]) as u8 };
            super::point::lemma_index_point_roundtrip(idx);
            assert(eye == first_eye(row));
        }
        if forbidden_strict(next, eye).is_none() {
            genuine.push(row.start);
        }
        k += 1;
    }
    distinctive_exec(&genuine)
}

} // verus!
