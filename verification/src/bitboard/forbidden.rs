//! The moves Black may not play on the bit board.
use vstd::prelude::*;
use super::fundamentals::{Player, RowKind, BOARD_SIZE};
use super::point::{lemma_index_roundtrip, Index, Point};
use super::square::{
    directions, lemma_empty_count, lemma_put_spec, point_of_code, row_valid, rows_in, rows_over, stored, Row,
    Square, SquareModel,
};

verus! {

/// The moves Black may not play: two threes, two fours, or six or more in
/// a row.
#[derive(Debug, PartialEq, Eq, Clone, Copy, Structural)]
pub enum ForbiddenKind {
    DoubleThree,
    DoubleFour,
    Overline,
}

/// Whether the board and the point are ones the rules talk about.
pub open spec fn judged(g: SquareModel, p: Point) -> bool {
    g.wf() && p.valid()
}

/// Whether the rows are at least two different shapes: some row is not
/// the first one moved by one cell along its line.
pub open spec fn distinctive_spec(rows: Seq<Row>) -> bool {
    rows.len() > 0 && exists|k: int| 1 <= k < rows.len() && !rows[0].adjacent_spec(#[trigger] rows[k])
}

/// Whether the black stone just put on `p` makes six or more in a row.
pub open spec fn overline_spec(next: SquareModel, p: Point) -> bool {
    next.rows_on_spec(Player::Black, RowKind::Overline, p).len() >= 1
}

/// Whether the black stone just put on `p` makes two fours.
pub open spec fn double_four_spec(next: SquareModel, p: Point) -> bool {
    let fours = next.rows_on_spec(Player::Black, RowKind::Four, p);
    fours.len() >= 2 && distinctive_spec(fours)
}

/// [`forbidden`] as a spec function.
pub open spec fn forbidden_spec(g: SquareModel, p: Point) -> Option<ForbiddenKind>
    decreases g.empty_count(), (if g.stone_at(p) is None { 1nat } else { 3nat }), 0nat,
{
    if !judged(g, p) {
        None
    } else {
        let next = g.put_spec(Player::Black, p);
        proof {
            lemma_put_spec(g, Player::Black, p);
            lemma_empty_count(g, next, p, 225);
        }
        if overline_spec(next, p) {
            Some(ForbiddenKind::Overline)
        } else if double_four_spec(next, p) {
            Some(ForbiddenKind::DoubleFour)
        } else if double_three_spec(next, p) {
            Some(ForbiddenKind::DoubleThree)
        } else {
            None
        }
    }
}

/// Whether the black stone just put on `p` makes two threes that are
/// real: each can become a straight four at its first eye, where Black's
/// move is not forbidden.
pub open spec fn double_three_spec(next: SquareModel, p: Point) -> bool
    decreases next.empty_count(), 2nat, 0nat,
{
    let threes = next.rows_on_spec(Player::Black, RowKind::Three, p);
    if threes.len() < 2 || !distinctive_spec(threes) {
        false
    } else {
        let truthy = truthy_threes(next, threes, threes.len());
        truthy.len() >= 2 && distinctive_spec(truthy)
    }
}

/// The first `n` of `rows` whose first eye is empty and a move there is
/// not forbidden.
pub open spec fn truthy_threes(next: SquareModel, rows: Seq<Row>, n: nat) -> Seq<Row>
    decreases next.empty_count(), 1nat, n,
{
    if n == 0 {
        Seq::empty()
    } else {
        let rest = truthy_threes(next, rows, (n - 1) as nat);
        let r = rows[n - 1];
        match r.eye1 {
            Some(e) => if next.stone_at(e) is None && forbidden_spec(next, e) is None {
                rest.push(r)
            } else {
                rest
            },
            None => rest,
        }
    }
}

/// The forbidden points among the first `n` codes, in code order.
pub open spec fn forbiddens_spec(g: SquareModel, n: nat) -> Seq<(ForbiddenKind, Point)>
    decreases n,
{
    if n == 0 {
        Seq::empty()
    } else {
        let rest = forbiddens_spec(g, (n - 1) as nat);
        let p = point_of_code(n - 1);
        match forbidden_spec(g, p) {
            Some(k) => rest.push((k, p)),
            None => rest,
        }
    }
}

/// A row through a point on a well-formed board has all its points on the
/// board and its eyes empty, and a three has an eye.
pub open spec fn row_sound(g: SquareModel, r: Row, kind: RowKind) -> bool {
    &&& row_valid(r)
    &&& r.eye1 matches Some(e) ==> g.stone_at(e) is None
    &&& r.eye2 matches Some(e) ==> g.stone_at(e) is None
    &&& kind == RowKind::Three ==> r.eye1 is Some
}

/// Every row found on the lines through `p` is sound.
proof fn lemma_rows_sound(g: SquareModel, player: Player, kind: RowKind, p: Point, on: bool, n: int)
    requires
        g.wf(),
        p.valid(),
        0 <= n <= 4,
    ensures
        forall|m: int|
            0 <= m < g.rows_through_upto(player, kind, p, on, n).len() ==> row_sound(
                g,
                #[trigger] g.rows_through_upto(player, kind, p, on, n)[m],
                kind,
            ),
    decreases n,
{
    if n > 0 {
        lemma_rows_sound(g, player, kind, p, on, n - 1);
        let rest = g.rows_through_upto(player, kind, p, on, n - 1);
        let all = g.rows_through_upto(player, kind, p, on, n);
        let d = directions()[n - 1];
        let idx = p.index_spec(d);
        if stored(d, idx.0 as int) {
            let i = idx.0 as int;
            let line = g.line_spec(d, i);
            let rows = rows_in(d, i, line, player, kind);
            line.lemma_rows_on_line(player, kind);
            assert forall|m: int| 0 <= m < rows.len() implies row_sound(g, #[trigger] rows[m], kind) by {
                let seg = line.rows_of(player, kind)[m];
                assert(super::line::row_on_line(seg, line));
                lemma_index_roundtrip(Index(i as u8, seg.start), d);
                lemma_index_roundtrip(Index(i as u8, seg.end), d);
                match seg.eye1 {
                    Some(e) => {
                        lemma_index_roundtrip(Index(i as u8, e), d);
                        assert(line.cell(e as int) == g.stone_at(Index(i as u8, e).point_spec(d)));
                    },
                    None => {},
                }
                match seg.eye2 {
                    Some(e) => {
                        lemma_index_roundtrip(Index(i as u8, e), d);
                        assert(line.cell(e as int) == g.stone_at(Index(i as u8, e).point_spec(d)));
                    },
                    None => {},
                }
            }
            let more = if on { rows_over(rows, p) } else { rows };
            if on {
                lemma_rows_over_sound(g, rows, p, kind);
            }
            assert forall|m: int| 0 <= m < all.len() implies row_sound(g, #[trigger] all[m], kind) by {
                if m < rest.len() {
                    assert(all[m] == rest[m]);
                } else {
                    assert(all[m] == more[m - rest.len()]);
                }
            }
        }
    }
}

/// Keeping the rows through a point keeps them sound.
proof fn lemma_rows_over_sound(g: SquareModel, rows: Seq<Row>, p: Point, kind: RowKind)
    requires
        forall|m: int| 0 <= m < rows.len() ==> row_sound(g, #[trigger] rows[m], kind),
    ensures
        forall|m: int| 0 <= m < rows_over(rows, p).len() ==> row_sound(g, #[trigger] rows_over(rows, p)[m], kind),
    decreases rows.len(),
{
    if rows.len() > 0 {
        let init = rows.drop_last();
        assert forall|m: int| 0 <= m < init.len() implies row_sound(g, #[trigger] init[m], kind) by {
            assert(init[m] == rows[m]);
        }
        lemma_rows_over_sound(g, init, p, kind);
        let rest = rows_over(init, p);
        let all = rows_over(rows, p);
        assert forall|m: int| 0 <= m < all.len() implies row_sound(g, #[trigger] all[m], kind) by {
            if m < rest.len() {
                assert(all[m] == rest[m]);
            } else {
                assert(all[m] == rows.last());
            }
        }
    }
}

/// Two rows of the board keep [`Row::adjacent`]'s arithmetic in range.
proof fn lemma_points_fit(a: Row, b: Row)
    requires
        row_valid(a),
        row_valid(b),
    ensures
        a.adjacent_fits(b),
{
    super::square::lemma_small_i8(a.start.0);
    super::square::lemma_small_i8(a.start.1);
    super::square::lemma_small_i8(b.start.0);
    super::square::lemma_small_i8(b.start.1);
}

/// Whether the rows are at least two different shapes.
fn distinctive(rows: &Vec<Row>) -> (res: bool)
    requires
        rows@.len() > 0,
        forall|m: int| 0 <= m < rows@.len() ==> row_valid(#[trigger] rows@[m]),
    ensures
        res == distinctive_spec(rows@),
{
    let first = &rows[0];
    let mut k: usize = 1;
    while k < rows.len()
        invariant
            1 <= k <= rows@.len(),
            *first == rows@[0],
            forall|m: int| 0 <= m < rows@.len() ==> row_valid(#[trigger] rows@[m]),
            forall|m: int| 1 <= m < k ==> rows@[0].adjacent_spec(#[trigger] rows@[m]),
        decreases rows@.len() - k,
    {
        assert(row_valid(rows@[k as int]));
        proof {
            lemma_points_fit(rows@[0], rows@[k as int]);
        }
        if !first.adjacent(&rows[k]) {
            return true;
        }
        k += 1;
    }
    false
}

/// Black's forbidden moves, by column then by row.
pub fn forbiddens(square: &Square) -> (res: Vec<(ForbiddenKind, Point)>)
    requires
        square.wf(),
    ensures
        res@ == forbiddens_spec(square@, 225),
{
    let mut res: Vec<(ForbiddenKind, Point)> = Vec::new();
    let mut x: u8 = 0;
    while x < BOARD_SIZE
        invariant
            square.wf(),
            x <= BOARD_SIZE,
            res@ == forbiddens_spec(square@, (x * 15) as nat),
        decreases BOARD_SIZE - x,
    {
        let mut y: u8 = 0;
        while y < BOARD_SIZE
            invariant
                square.wf(),
                x < BOARD_SIZE,
                y <= BOARD_SIZE,
                res@ == forbiddens_spec(square@, (x * 15 + y) as nat),
            decreases BOARD_SIZE - y,
        {
            let p = Point(x, y);
            assert((x * 15 + y) / 15 == x && (x * 15 + y) % 15 == y) by (nonlinear_arith)
                requires
                    x < 15,
                    y < 15,
            ;
            assert(point_of_code(x * 15 + y) == p);
            if let Some(k) = forbidden(square, p) {
                res.push((k, p));
            }
            y += 1;
        }
        x += 1;
    }
    res
}

/// What Black's stone on `p` would make that the rules forbid, looked at
/// in this order: an overline, a double-four, a double-three.
pub fn forbidden(square: &Square, p: Point) -> (res: Option<ForbiddenKind>)
    requires
        square.wf(),
        p.valid(),
    ensures
        res == forbidden_spec(square@, p),
    decreases square@.empty_count(), (if square@.stone_at(p) is None { 1nat } else { 3nat }), 0nat,
{
    proof {
        square.lemma_wf();
    }
    let mut next = square.duplicate();
    next.put(Player::Black, p);
    proof {
        lemma_put_spec(square@, Player::Black, p);
        lemma_empty_count(square@, next@, p, 225);
    }
    if overline(&next, p) {
        Some(ForbiddenKind::Overline)
    } else if double_four(&next, p) {
        Some(ForbiddenKind::DoubleFour)
    } else if double_three(&next, p) {
        Some(ForbiddenKind::DoubleThree)
    } else {
        None
    }
}

fn overline(next: &Square, p: Point) -> (res: bool)
    requires
        next.wf(),
        p.valid(),
    ensures
        res == overline_spec(next@, p),
{
    let new_overlines = next.rows_on(Player::Black, RowKind::Overline, p);
    new_overlines.len() >= 1
}

fn double_four(next: &Square, p: Point) -> (res: bool)
    requires
        next.wf(),
        p.valid(),
    ensures
        res == double_four_spec(next@, p),
{
    let new_fours = next.rows_on(Player::Black, RowKind::Four, p);
    if new_fours.len() < 2 {
        return false;
    }
    distinctive(&new_fours)
}

fn double_three(next: &Square, p: Point) -> (res: bool)
    requires
        next.wf(),
        p.valid(),
    ensures
        res == double_three_spec(next@, p),
    decreases next@.empty_count(), 2nat, 0nat,
{
    let new_threes = next.rows_on(Player::Black, RowKind::Three, p);
    if new_threes.len() < 2 || !distinctive(&new_threes) {
        return false;
    }
    proof {
        next.lemma_wf();
        lemma_rows_sound(next@, Player::Black, RowKind::Three, p, true, 4);
    }
    let mut truthy: Vec<Row> = Vec::new();
    let mut k: usize = 0;
    while k < new_threes.len()
        invariant
            next.wf(),
            new_threes@ == next@.rows_on_spec(Player::Black, RowKind::Three, p),
            forall|m: int| 0 <= m < new_threes@.len() ==> row_sound(next@, #[trigger] new_threes@[m], RowKind::Three),
            k <= new_threes@.len(),
            truthy@ == truthy_threes(next@, new_threes@, k as nat),
            forall|m: int| 0 <= m < truthy@.len() ==> row_valid(#[trigger] truthy@[m]),
        decreases new_threes@.len() - k,
    {
        let r = new_threes[k];
        assert(row_sound(next@, new_threes@[k as int], RowKind::Three));
        let eye = r.eye1.unwrap();
        if forbidden(next, eye).is_none() {
            truthy.push(r);
        }
        k += 1;
    }
    if truthy.len() < 2 {
        return false;
    }
    distinctive(&truthy)
}

} // verus!
