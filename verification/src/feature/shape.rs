//! What a stone at an empty point would make on each line through it.
use vstd::prelude::*;
use crate::board::board::Board;
use crate::board::line::Line;
use crate::board::map::{
    bit128, key_of, lemma_all_lines, lemma_bit128_set, lemma_key_line, lemma_key_of, lemma_or_below,
    player_slot,
};
use crate::board::player::{Black, Player, White};
use crate::board::point::{
    lemma_index_point_roundtrip, lemma_point_index_roundtrip, Ascending, Descending, Direction,
    Horizontal, Index, Point, Vertical,
};
use crate::board::row::{Four, Row, Sword, Two};
use crate::board::square::{directions, key_line, lemma_rows_on, line_size, stored, Square, SquareModel, LINE_NUM};
use crate::board::structure::points_along;
use crate::board::util::{bit_of, positions};

verus! {

/// What a stone of one player at an empty point would make on one line
/// through it, from nothing to a five.
#[derive(Debug, PartialEq, Eq, PartialOrd, Ord, Clone, Copy, Structural)]
pub enum Shape {
    Nothing,
    /// Two stones that can become a three.
    Two,
    /// Three stones that can become a four.
    Sword,
    /// A three.
    Three,
    /// A four.
    Four,
    /// A five.
    Five,
}

impl Default for Shape {
    fn default() -> (res: Shape)
        ensures
            res == Shape::Nothing,
    {
        Shape::Nothing
    }
}

/// Where a shape stands among the shapes, from nothing up.
pub open spec fn rank(s: Shape) -> int {
    match s {
        Shape::Nothing => 0,
        Shape::Two => 1,
        Shape::Sword => 2,
        Shape::Three => 3,
        Shape::Four => 4,
        Shape::Five => 5,
    }
}

fn rank_of(s: Shape) -> (res: u8)
    ensures
        res == rank(s),
{
    match s {
        Shape::Nothing => 0,
        Shape::Two => 1,
        Shape::Sword => 2,
        Shape::Three => 3,
        Shape::Four => 4,
        Shape::Five => 5,
    }
}

/// Where direction `d` sits among a point's four shapes.
pub open spec fn direction_index(d: Direction) -> int {
    match d {
        Vertical => 0,
        Horizontal => 1,
        Ascending => 2,
        Descending => 3,
    }
}

fn index_of(d: Direction) -> (res: usize)
    ensures
        res == direction_index(d),
{
    match d {
        Vertical => 0,
        Horizontal => 1,
        Ascending => 2,
        Descending => 3,
    }
}

/// How many of the four shapes are exactly `s`.
pub open spec fn count_spec(a: Seq<Shape>, s: Shape) -> int {
    (if a[0] == s { 1int } else { 0 }) + (if a[1] == s { 1int } else { 0 }) + (if a[2] == s { 1int } else { 0 })
        + (if a[3] == s { 1int } else { 0 })
}

/// How many of the four shapes are `s` or bigger.
pub open spec fn count_from_spec(a: Seq<Shape>, s: Shape) -> int {
    (if rank(a[0]) >= rank(s) { 1int } else { 0 }) + (if rank(a[1]) >= rank(s) { 1int } else { 0 }) + (if rank(
        a[2],
    ) >= rank(s) { 1int } else { 0 }) + (if rank(a[3]) >= rank(s) { 1int } else { 0 })
}

/// A point's shapes for one player, one per direction: vertical,
/// horizontal, ascending, descending.
#[derive(Debug, PartialEq, Eq, Clone, Copy)]
pub struct Shapes(pub [Shape; 4]);

impl Default for Shapes {
    fn default() -> (res: Shapes)
        ensures
            res.0@ == seq![Shape::Nothing, Shape::Nothing, Shape::Nothing, Shape::Nothing],
    {
        let res = Shapes([Shape::Nothing, Shape::Nothing, Shape::Nothing, Shape::Nothing]);
        assert(res.0@ =~= seq![Shape::Nothing, Shape::Nothing, Shape::Nothing, Shape::Nothing]);
        res
    }
}

impl Shapes {
    /// The shape made along `d`.
    pub fn along(&self, d: Direction) -> (res: Shape)
        ensures
            res == self.0@[direction_index(d)],
    {
        self.0[index_of(d)]
    }

    /// How many directions make exactly `s`.
    pub fn count(&self, s: Shape) -> (res: u8)
        ensures
            res == count_spec(self.0@, s),
    {
        let mut n: u8 = 0;
        let mut k: usize = 0;
        while k < 4
            invariant
                k <= 4,
                n == (if k > 0 && self.0@[0] == s { 1int } else { 0 }) + (if k > 1 && self.0@[1] == s {
                    1int
                } else {
                    0
                }) + (if k > 2 && self.0@[2] == s { 1int } else { 0 }) + (if k > 3 && self.0@[3] == s {
                    1int
                } else {
                    0
                }),
            decreases 4 - k,
        {
            if self.0[k] == s {
                n += 1;
            }
            k += 1;
        }
        n
    }

    /// How many directions make `s` or a bigger shape.
    pub fn count_from(&self, s: Shape) -> (res: u8)
        ensures
            res == count_from_spec(self.0@, s),
    {
        let least = rank_of(s);
        let mut n: u8 = 0;
        let mut k: usize = 0;
        while k < 4
            invariant
                k <= 4,
                least == rank(s),
                n == (if k > 0 && rank(self.0@[0]) >= rank(s) { 1int } else { 0 }) + (if k > 1 && rank(
                    self.0@[1],
                ) >= rank(s) { 1int } else { 0 }) + (if k > 2 && rank(self.0@[2]) >= rank(s) {
                    1int
                } else {
                    0
                }) + (if k > 3 && rank(self.0@[3]) >= rank(s) { 1int } else { 0 }),
            decreases 4 - k,
        {
            if rank_of(self.0[k]) >= least {
                n += 1;
            }
            k += 1;
        }
        n
    }

    /// The shapes with direction `d` left out.
    pub fn except(&self, d: Direction) -> (res: Shapes)
        ensures
            res.0@ == self.0@.update(direction_index(d), Shape::Nothing),
    {
        self.with(d, Shape::Nothing)
    }

    /// The shapes with the one along `d` replaced by `s`.
    fn with(&self, d: Direction, s: Shape) -> (res: Shapes)
        ensures
            res.0@ == self.0@.update(direction_index(d), s),
    {
        let i = index_of(d);
        let a = self.0;
        let pick = |k: usize| -> (r: Shape)
            requires
                k < 4,
            ensures
                r == (if k == i { s } else { a@[k as int] }),
        {
            if k == i {
                s
            } else {
                a[k]
            }
        };
        let res = Shapes([pick(0), pick(1), pick(2), pick(3)]);
        assert(res.0@ =~= self.0@.update(direction_index(d), s));
        res
    }

    /// For Black, whether the point looks forbidden: two fours or two
    /// threes and no five. It does not see a double-four on one line nor
    /// an overline, and a three here may be no real three.
    pub fn looks_forbidden(&self) -> (res: bool)
        ensures
            res == (count_spec(self.0@, Shape::Five) == 0 && (count_spec(self.0@, Shape::Four) >= 2
                || count_spec(self.0@, Shape::Three) >= 2)),
    {
        self.count(Shape::Five) == 0 && (self.count(Shape::Four) >= 2 || self.count(Shape::Three) >= 2)
    }
}


/// The cells where `r` has a segment scoring `n`, as a predicate on the
/// segment's first cell.
pub open spec fn scores_at(line: Line, r: Player, n: int) -> spec_fn(int) -> bool {
    |j: int| line.has_segment(j) && line.segment_at(j).score_of(r) == n
}

/// The cells where `r` has an open row of `n` stones ([`Line::open_at`]).
pub open spec fn opens_at(line: Line, r: Player, n: int) -> spec_fn(int) -> bool {
    |j: int| line.open_at(r, n, j)
}

/// What a stone of `r` on cell `c` of `line` would make along it, the
/// biggest that holds: a five on an eye of a four, a four on an eye of a
/// sword, a three on an eye of a two, a sword on an empty cell of a segment
/// scoring two, a two on one of the four cells shared by two neighbouring
/// segments scoring one with both ends open; else nothing.
pub open spec fn line_shape(line: Line, r: Player, c: int) -> Shape {
    if line.eye_at(line.rows_at(r, Four), 0b11111, c) {
        Shape::Five
    } else if line.eye_at(line.rows_at(r, Sword), 0b11111, c) {
        Shape::Four
    } else if line.eye_at(line.rows_at(r, Two), 0b01111, c) {
        Shape::Three
    } else if line.eye_at(scores_at(line, r, 2), 0b11111, c) {
        Shape::Sword
    } else if line.eye_at(opens_at(line, r, 1), 0b01111, c) {
        Shape::Two
    } else {
        Shape::Nothing
    }
}

/// What a stone of `r` on `p` would make along `d` on the square `g`:
/// nothing on the short diagonals, where no five fits.
pub open spec fn shape_spec(g: SquareModel, p: Point, r: Player, d: Direction) -> Shape {
    let idx = p.index_of(d);
    if stored(d, idx.i as int) {
        line_shape(g.line_spec(d, idx.i as int), r, idx.j as int)
    } else {
        Shape::Nothing
    }
}

/// Where `r`'s shapes at `p` are kept: Black's points first, then
/// White's, each by `x * 15 + y`.
pub open spec fn point_slot(r: Player, p: Point) -> int {
    player_slot(r) * 225 + p.0 * 15 + p.1
}

/// Different players or points have different slots, all below 450.
proof fn lemma_point_slot(r1: Player, p1: Point, r2: Player, p2: Point)
    requires
        p1.valid(),
        p2.valid(),
    ensures
        0 <= point_slot(r1, p1) < 450,
        (point_slot(r1, p1) == point_slot(r2, p2)) == (r1 == r2 && p1 == p2),
{
    if point_slot(r1, p1) == point_slot(r2, p2) {
        assert(player_slot(r1) == player_slot(r2));
        assert(p1.0 == p2.0);
        assert(p1 == p2);
    }
}

/// A mask whose bits are the eyes of the segments starting at the bits of
/// `starts` marks the eyes of the segments starting where `start` holds,
/// when the two agree on the line.
proof fn lemma_mask_eyes(line: Line, starts: u16, start: spec_fn(int) -> bool, cells: u8, m: u16)
    requires
        forall|s: int| 0 <= s < 16 ==> bit_of(starts, s as u16) == #[trigger] start(s),
        forall|c: u16| c < 16 ==> (#[trigger] bit_of(m, c) == line.eye_at(crate::board::line::starts_in(starts), cells, c as int)),
    ensures
        forall|c: u16| c < 16 ==> (#[trigger] bit_of(m, c) == line.eye_at(start, cells, c as int)),
{
    assert forall|c: u16| c < 16 implies (#[trigger] bit_of(m, c) == line.eye_at(start, cells, c as int)) by {
        assert forall|s: int| 0 <= s < 16 implies crate::board::line::starts_in(starts)(s) == #[trigger] start(s) by {
            assert(bit_of(starts, s as u16) == start(s));
        }
        line.lemma_eye_upto_same(crate::board::line::starts_in(starts), start, cells, c as int, 5);
    }
}

/// Per player and per empty point, what a stone there would make on each
/// of the four lines through it ([`Shapes`]), kept alongside a [`Board`]
/// for move ordering.
///
/// Updates are lazy, as for [`SwordMap`](crate::board::map::SwordMap):
/// [`Self::mark_stale`] notes the lines through a move, and [`Self::sync`]
/// recomputes them before the next read.
pub struct ShapeMap {
    /// Black's and White's, in that order, by point `x * 15 + y`.
    shapes: Vec<Shapes>,
    /// Lines changed since the last [`Self::sync`], one bit per line.
    stale: u128,
}

/// What a [`ShapeMap`] holds.
pub struct ShapeMapModel {
    pub shapes: Seq<Shapes>,
    pub stale: u128,
}

impl View for ShapeMap {
    type V = ShapeMapModel;

    closed spec fn view(&self) -> ShapeMapModel {
        ShapeMapModel { shapes: self.shapes@, stale: self.stale }
    }
}

impl ShapeMapModel {
    /// `r`'s four shapes at `p`.
    pub open spec fn shapes_at(self, r: Player, p: Point) -> Seq<Shape> {
        self.shapes[point_slot(r, p)].0@
    }

    /// Both players' points are there, no bit past the stored lines is
    /// stale, and nothing is made along the short diagonals.
    pub open spec fn wf(self) -> bool {
        &&& self.shapes.len() == 450
        &&& self.stale >> 72u128 == 0
        &&& forall|r: Player, p: Point, d: Direction|
            p.valid() && !stored(d, p.index_of(d).i as int) ==> #[trigger] self.shapes_at(r, p)[direction_index(d)]
                == Shape::Nothing
    }

    /// What the map holds along stored line `k` is what the square `g`
    /// makes there.
    pub open spec fn line_ok(self, g: SquareModel, k: int) -> bool {
        let (d, i) = key_line(k);
        forall|r: Player, p: Point|
            p.valid() && p.index_of(d).i == i ==> #[trigger] self.shapes_at(r, p)[direction_index(d)]
                == shape_spec(g, p, r, d)
    }

    /// Every line that is not stale is as the square `g` makes it.
    pub open spec fn agrees(self, g: SquareModel) -> bool {
        forall|k: int| 0 <= k < LINE_NUM && !bit128(self.stale, k) ==> #[trigger] self.line_ok(g, k)
    }

    /// Every line below `k`, and every line `o` does not mark, is as the
    /// square `g` makes it.
    pub open spec fn lines_ok_except(self, g: SquareModel, o: u128, k: int) -> bool {
        forall|q: int| 0 <= q < LINE_NUM && (q < k || !bit128(o, q)) ==> #[trigger] self.line_ok(g, q)
    }

    /// No line is stale.
    pub open spec fn synced(self) -> bool {
        self.stale == 0
    }
}

/// In sync with a square, the map holds at every point what a stone there
/// would make along each line ([`shape_spec`]).
pub proof fn lemma_synced_shapes(m: ShapeMapModel, g: SquareModel, r: Player, p: Point, d: Direction)
    requires
        m.wf(),
        m.synced(),
        m.agrees(g),
        p.valid(),
    ensures
        m.shapes_at(r, p)[direction_index(d)] == shape_spec(g, p, r, d),
{
    let idx = p.index_of(d);
    if stored(d, idx.i as int) {
        let k = key_of(d, idx.i as int);
        lemma_key_of(d, idx.i as int);
        crate::board::map::lemma_bit128_zero(k as u128);
        assert(!bit128(m.stale, k));
        assert(m.line_ok(g, k));
    }
}

/// In sync with a square, an occupied point makes nothing along any line.
pub proof fn lemma_occupied_makes_nothing(m: ShapeMapModel, g: SquareModel, r: Player, p: Point, d: Direction)
    requires
        g.wf(),
        m.wf(),
        m.synced(),
        m.agrees(g),
        p.valid(),
        g.stone_at(p) is Some,
    ensures
        m.shapes_at(r, p)[direction_index(d)] == Shape::Nothing,
{
    lemma_synced_shapes(m, g, r, p, d);
    let idx = p.index_of(d);
    lemma_point_index_roundtrip(p, d);
    if stored(d, idx.i as int) {
        assert(g.line_spec(idx.d, idx.i as int).cell(idx.j as int) == g.stone_at(idx.point_of()));
    }
}

/// Two maps in sync with the same square hold the same shapes: however
/// the moves and the syncs came, a lazy map says what a fresh one says.
pub proof fn lemma_synced_maps_agree(m1: ShapeMapModel, m2: ShapeMapModel, g: SquareModel, r: Player, p: Point)
    requires
        m1.wf(),
        m2.wf(),
        m1.synced(),
        m2.synced(),
        m1.agrees(g),
        m2.agrees(g),
        p.valid(),
    ensures
        m1.shapes_at(r, p) == m2.shapes_at(r, p),
{
    let dirs = directions();
    assert forall|q: int| 0 <= q < 4 implies m1.shapes_at(r, p)[q] == m2.shapes_at(r, p)[q] by {
        let d = dirs[q];
        assert(direction_index(d) == q);
        lemma_synced_shapes(m1, g, r, p, d);
        lemma_synced_shapes(m2, g, r, p, d);
    }
    assert(m1.shapes_at(r, p) =~= m2.shapes_at(r, p));
}

/// After a stone is put on or taken off `p`, a map that notes the lines
/// through `p` as stale still agrees with the square.
pub proof fn lemma_move_keeps_agreement(m: ShapeMapModel, m2: ShapeMapModel, g: SquareModel, p: Point, c: Option<Player>)
    requires
        g.wf(),
        p.valid(),
        m.agrees(g),
        m2.shapes == m.shapes,
        forall|k: int|
            0 <= k < LINE_NUM ==> (#[trigger] bit128(m2.stale, k) <==> bit128(m.stale, k) || key_line(k).1
                == p.index_of(key_line(k).0).i),
    ensures
        m2.agrees(g.set_spec(p, c)),
{
    let g2 = g.set_spec(p, c);
    assert forall|k: int| 0 <= k < LINE_NUM && !bit128(m2.stale, k) implies #[trigger] m2.line_ok(g2, k) by {
        lemma_key_line(k);
        let (d, i) = key_line(k);
        assert(g2.line_spec(d, i) == g.line_spec(d, i));
        assert(m.line_ok(g, k));
        assert forall|r: Player, q: Point| q.valid() && q.index_of(d).i == i implies #[trigger] m2.shapes_at(r, q)[direction_index(d)]
            == shape_spec(g2, q, r, d) by {
            assert(m.shapes_at(r, q)[direction_index(d)] == shape_spec(g, q, r, d));
        }
    }
}

/// Whether Black's stone at eye `e` of a row of `r` along `d` looks
/// forbidden with `e`'s shape along `d` left out: for White, two fours or
/// two threes and no five; for Black, a four or two threes and no five
/// besides the straight four along `d`.
pub open spec fn eye_blocks(m: ShapeMapModel, e: Point, d: Direction, r: Player) -> bool {
    let others = m.shapes_at(Black, e).update(direction_index(d), Shape::Nothing);
    &&& count_spec(others, Shape::Five) == 0
    &&& if r == White {
        count_spec(others, Shape::Four) >= 2 || count_spec(others, Shape::Three) >= 2
    } else {
        count_spec(others, Shape::Four) >= 1 || count_spec(others, Shape::Three) >= 2
    }
}

/// The eyes of `row`, as [`Row::eyes`] lists them.
pub open spec fn row_eye_points(row: Row) -> Seq<Point> {
    points_along(row.start, positions(row.eyes as u16, 5))
}

/// Whether `row`, a row of `r` through `p`, is along a line where `p`
/// makes `made`, and has an eye other than `p` where Black's stone looks
/// forbidden.
pub open spec fn row_counted(m: ShapeMapModel, row: Row, p: Point, r: Player, made: Shape) -> bool {
    &&& m.shapes_at(r, p)[direction_index(row.start.d)] == made
    &&& exists|x: int|
        0 <= x < row_eye_points(row).len() && row_eye_points(row)[x] != p && eye_blocks(
            m,
            #[trigger] row_eye_points(row)[x],
            row.start.d,
            r,
        )
}

/// How many of `rows` are counted ([`row_counted`]).
pub open spec fn counted(m: ShapeMapModel, rows: Seq<Row>, p: Point, r: Player, made: Shape) -> nat
    decreases rows.len(),
{
    if rows.len() == 0 {
        0
    } else {
        counted(m, rows.drop_last(), p, r, made) + (if row_counted(m, rows.last(), p, r, made) {
            1nat
        } else {
            0nat
        })
    }
}

/// [`ShapeMap::forbidden_eyes`] as a spec function: for White the fours
/// and threes, for Black the threes, that `r`'s stone on `p` would make
/// and that have an eye where Black's stone looks forbidden.
pub open spec fn forbidden_eyes_spec(m: ShapeMapModel, g: SquareModel, p: Point, r: Player) -> (u8, u8) {
    let threes = counted(m, g.rows_on_upto(p, r, Two, 4), p, r, Shape::Three) as u8;
    if r == White {
        (counted(m, g.rows_on_upto(p, r, Sword, 4), p, r, Shape::Four) as u8, threes)
    } else {
        (0, threes)
    }
}

/// No row counts where no direction makes `made`.
proof fn lemma_none_counted(m: ShapeMapModel, rows: Seq<Row>, p: Point, r: Player, made: Shape)
    requires
        m.shapes_at(r, p).len() == 4,
        count_spec(m.shapes_at(r, p), made) == 0,
    ensures
        counted(m, rows, p, r, made) == 0,
    decreases rows.len(),
{
    if rows.len() > 0 {
        lemma_none_counted(m, rows.drop_last(), p, r, made);
        let q = direction_index(rows.last().start.d);
        assert(0 <= q < 4);
    }
}

/// Black's place before White's.
fn slot_of_player(r: Player) -> (res: usize)
    ensures
        res == player_slot(r),
{
    match r {
        Black => 0,
        White => 1,
    }
}

impl ShapeMap {
    /// A map that knows nothing yet: every line is stale.
    pub fn new() -> (res: Self)
        ensures
            res@.wf(),
            forall|k: int| 0 <= k < LINE_NUM ==> #[trigger] bit128(res@.stale, k),
            !res@.synced(),
    {
        let mut shapes: Vec<Shapes> = Vec::new();
        let mut n: usize = 0;
        while n < 450
            invariant
                n <= 450,
                shapes@.len() == n,
                forall|m: int| 0 <= m < n ==> (#[trigger] shapes@[m]).0@ == seq![Shape::Nothing, Shape::Nothing, Shape::Nothing, Shape::Nothing],
            decreases 450 - n,
        {
            shapes.push(Shapes::default());
            n += 1;
        }
        proof {
            lemma_all_lines(0);
        }
        let stale: u128 = (1u128 << 72u128) - 1;
        let res = ShapeMap { shapes, stale };
        proof {
            assert forall|k: int| 0 <= k < LINE_NUM implies #[trigger] bit128(res@.stale, k) by {
                lemma_all_lines(k as u128);
            }
            assert forall|r: Player, p: Point, d: Direction|
                p.valid() && !stored(d, p.index_of(d).i as int) implies #[trigger] res@.shapes_at(r, p)[direction_index(d)]
                    == Shape::Nothing by {
                lemma_point_slot(r, p, r, p);
            }
        }
        res
    }

    /// A map in sync with `board`.
    pub fn init(board: &Board) -> (res: Self)
        requires
            board@.wf(),
        ensures
            res@.wf(),
            res@.synced(),
            res@.agrees(board@.square),
    {
        let mut res = Self::new();
        res.sync(board);
        res
    }

    /// Notes that a stone was put on or taken off `p`: the lines through
    /// it are stale.
    pub fn mark_stale(&mut self, p: Point)
        requires
            old(self)@.wf(),
            p.valid(),
        ensures
            final(self)@.wf(),
            final(self)@.shapes == old(self)@.shapes,
            forall|k: int|
                0 <= k < LINE_NUM ==> (#[trigger] bit128(final(self)@.stale, k) <==> bit128(old(self)@.stale, k)
                    || key_line(k).1 == p.index_of(key_line(k).0).i),
    {
        let dirs = [Direction::Vertical, Direction::Horizontal, Direction::Ascending, Direction::Descending];
        let mut n: usize = 0;
        while n < 4
            invariant
                self@.wf(),
                p.valid(),
                n <= 4,
                dirs@ == directions(),
                self@.shapes == old(self)@.shapes,
                forall|k: int|
                    0 <= k < LINE_NUM ==> (#[trigger] bit128(self@.stale, k) <==> bit128(old(self)@.stale, k)
                        || exists|q: int| 0 <= q < n && key_line(k).0 == directions()[q] && key_line(k).1
                        == p.index_of(key_line(k).0).i),
            decreases 4 - n,
        {
            let d = dirs[n];
            let idx = p.to_index(d);
            if let Some(k) = Square::line_key(d, idx.i) {
                let ghost before = self.stale;
                let ghost bm = self@;
                self.stale = self.stale | (1u128 << k as u128);
                proof {
                    lemma_bit128_set(before, k as u128);
                    lemma_key_of(d, idx.i as int);
                    lemma_or_below(before, k as u128);
                    lemma_same_shapes(bm, self@);
                    assert forall|q: int| 0 <= q < LINE_NUM implies (#[trigger] bit128(self@.stale, q) <==> bit128(old(self)@.stale, q)
                        || exists|m: int| 0 <= m < n + 1 && key_line(q).0 == directions()[m] && key_line(q).1
                        == p.index_of(key_line(q).0).i) by {
                        assert(bit128(self.stale, (q as u128) as int) == bit128(self.stale, q));
                        if key_line(q).0 == directions()[n as int] && key_line(q).1 == p.index_of(key_line(q).0).i {
                            assert(key_line(q) == (d, idx.i as int));
                        }
                    }
                }
            } else {
                proof {
                    assert forall|q: int| 0 <= q < LINE_NUM implies (#[trigger] bit128(self@.stale, q) <==> bit128(old(self)@.stale, q)
                        || exists|m: int| 0 <= m < n + 1 && key_line(q).0 == directions()[m] && key_line(q).1
                        == p.index_of(key_line(q).0).i) by {
                        lemma_key_line(q);
                    }
                }
            }
            n += 1;
        }
        proof {
            assert forall|k: int| 0 <= k < LINE_NUM implies (#[trigger] bit128(self@.stale, k) <==> bit128(old(self)@.stale, k)
                || key_line(k).1 == p.index_of(key_line(k).0).i) by {
                if key_line(k).1 == p.index_of(key_line(k).0).i {
                    let d = key_line(k).0;
                    let q = match d {
                        Direction::Vertical => 0int,
                        Direction::Horizontal => 1,
                        Direction::Ascending => 2,
                        Direction::Descending => 3,
                    };
                    assert(directions()[q] == d);
                }
            }
        }
    }

    /// Whether no line is stale.
    pub fn is_synced(&self) -> (res: bool)
        ensures
            res == self@.synced(),
    {
        self.stale == 0
    }

    /// Recomputes the stale lines from `board`; a map that agreed with the
    /// board on the lines that were not stale then agrees with it
    /// everywhere.
    pub fn sync(&mut self, board: &Board)
        requires
            old(self)@.wf(),
            board@.wf(),
        ensures
            final(self)@.wf(),
            final(self)@.synced(),
            old(self)@.agrees(board@.square) ==> final(self)@.agrees(board@.square),
            forall|k: int| 0 <= k < LINE_NUM && #[trigger] bit128(old(self)@.stale, k) ==> final(self)@.line_ok(board@.square, k),
            forall|r: Player, p: Point, d: Direction|
                p.valid() && !(stored(d, p.index_of(d).i as int) && bit128(old(self)@.stale, key_of(d, p.index_of(d).i as int)))
                    ==> #[trigger] final(self)@.shapes_at(r, p)[direction_index(d)] == old(self)@.shapes_at(r, p)[direction_index(d)],
    {
        let o = self.stale;
        let ghost g = board@.square;
        let ghost agreed = old(self)@.agrees(g);
        let mut k: usize = 0;
        while k < LINE_NUM
            invariant
                self@.wf(),
                board@.wf(),
                g == board@.square,
                k <= LINE_NUM,
                o == old(self)@.stale,
                self@.stale == o,
                agreed == old(self)@.agrees(g),
                agreed ==> self@.lines_ok_except(g, o, k as int),
                forall|q: int| 0 <= q < k && #[trigger] bit128(o, q) ==> self@.line_ok(g, q),
                forall|r: Player, p: Point, d: Direction|
                    p.valid() && !(stored(d, p.index_of(d).i as int) && bit128(o, key_of(d, p.index_of(d).i as int))
                        && key_of(d, p.index_of(d).i as int) < k)
                        ==> #[trigger] self@.shapes_at(r, p)[direction_index(d)] == old(self)@.shapes_at(r, p)[direction_index(d)],
            decreases LINE_NUM - k,
        {
            if (o >> k as u128) & 1 == 1 {
                let ghost before = self@;
                self.update(k, board);
                proof {
                    lemma_key_line(k as int);
                    if agreed {
                        assert forall|q: int| 0 <= q < LINE_NUM && (q < k + 1 || !bit128(o, q)) implies #[trigger] self@.line_ok(g, q) by {
                            if q != k {
                                assert(before.line_ok(g, q));
                                lemma_line_ok_kept(before, self@, g, k as int, q);
                            }
                        }
                    }
                    assert forall|q: int| 0 <= q < k + 1 && #[trigger] bit128(o, q) implies self@.line_ok(g, q) by {
                        if q != k {
                            assert(before.line_ok(g, q));
                            lemma_line_ok_kept(before, self@, g, k as int, q);
                        }
                    }
                    assert forall|r: Player, p: Point, d: Direction|
                        p.valid() && !(stored(d, p.index_of(d).i as int) && bit128(o, key_of(d, p.index_of(d).i as int))
                            && key_of(d, p.index_of(d).i as int) < k + 1)
                            implies #[trigger] self@.shapes_at(r, p)[direction_index(d)] == old(self)@.shapes_at(r, p)[direction_index(d)] by {
                        assert(before.shapes_at(r, p)[direction_index(d)] == old(self)@.shapes_at(r, p)[direction_index(d)]);
                        if d == key_line(k as int).0 && p.index_of(d).i == key_line(k as int).1 {
                            assert(key_of(d, p.index_of(d).i as int) == k);
                        }
                    }
                }
            } else {
                proof {
                    assert(!bit128(o, k as int));
                    if agreed {
                        assert forall|q: int| 0 <= q < LINE_NUM && (q < k + 1 || !bit128(o, q)) implies #[trigger] self@.line_ok(g, q) by {
                            assert(self@.lines_ok_except(g, o, k as int));
                        }
                    }
                }
            }
            k += 1;
        }
        let ghost done = self@;
        self.stale = 0;
        proof {
            lemma_all_lines(0);
            lemma_same_shapes(done, self@);
            assert forall|q: int| 0 <= q < LINE_NUM && (!bit128(self@.stale, q) || bit128(o, q)) && done.line_ok(g, q) implies #[trigger] self@.line_ok(g, q) by {
                let (d, i) = key_line(q);
                assert forall|r: Player, p: Point| p.valid() && p.index_of(d).i == i implies #[trigger] self@.shapes_at(r, p)[direction_index(d)]
                    == shape_spec(g, p, r, d) by {
                    assert(done.shapes_at(r, p) == self@.shapes_at(r, p));
                }
            }
            if agreed {
                assert forall|q: int| 0 <= q < LINE_NUM && !bit128(self@.stale, q) implies #[trigger] self@.line_ok(g, q) by {
                    assert(done.lines_ok_except(g, o, k as int));
                    assert(done.line_ok(g, q));
                }
            }
            assert forall|q: int| 0 <= q < LINE_NUM && #[trigger] bit128(o, q) implies self@.line_ok(g, q) by {
                assert(done.line_ok(g, q));
            }
            assert forall|r: Player, p: Point, d: Direction|
                p.valid() && !(stored(d, p.index_of(d).i as int) && bit128(o, key_of(d, p.index_of(d).i as int)))
                    implies #[trigger] self@.shapes_at(r, p)[direction_index(d)] == old(self)@.shapes_at(r, p)[direction_index(d)] by {
                assert(done.shapes_at(r, p) == self@.shapes_at(r, p));
                if stored(d, p.index_of(d).i as int) {
                    lemma_key_of(d, p.index_of(d).i as int);
                }
            }
        }
    }

    /// `r`'s four shapes at `p`: in sync with a board, what a stone there
    /// would make along each line (see [`lemma_synced_shapes`]).
    pub fn get(&self, p: Point, r: Player) -> (res: Shapes)
        requires
            self@.wf(),
            p.valid(),
        ensures
            res.0@ == self@.shapes_at(r, p),
    {
        proof {
            lemma_point_slot(r, p, r, p);
        }
        self.shapes[slot_of_player(r) * 225 + (p.0 as usize) * 15 + p.1 as usize]
    }

    /// Of the fours and threes `r` would make at `p`, how many leave an
    /// eye where Black's stone looks forbidden, as `(fours, threes)`.
    ///
    /// For White that is good: Black cannot block such a four, and has
    /// fewer ways to stop such a three. For Black it is bad: the three
    /// cannot become a straight four there, which also means it may be no
    /// real three. (Black's four is never counted: its eye makes a five.)
    pub fn forbidden_eyes(&self, board: &Board, p: Point, r: Player) -> (res: (u8, u8))
        requires
            self@.wf(),
            board@.wf(),
            p.valid(),
        ensures
            res == forbidden_eyes_spec(self@, board@.square, p, r),
    {
        let shapes = self.get(p, r);
        match r {
            White => (
                self.count_blocked(board, p, r, &shapes, Shape::Four, Sword),
                self.count_blocked(board, p, r, &shapes, Shape::Three, Two),
            ),
            Black => (0, self.count_blocked(board, p, r, &shapes, Shape::Three, Two)),
        }
    }

    /// How many of `r`'s rows of kind `k` through `p` are counted for
    /// [`Self::forbidden_eyes`] ([`row_counted`]), as a byte.
    fn count_blocked(&self, board: &Board, p: Point, r: Player, shapes: &Shapes, made: Shape, k: crate::board::row::RowKind) -> (res: u8)
        requires
            self@.wf(),
            board@.wf(),
            p.valid(),
            shapes.0@ == self@.shapes_at(r, p),
        ensures
            res == counted(self@, board@.square.rows_on_upto(p, r, k, 4), p, r, made) as u8,
    {
        if shapes.count(made) == 0 {
            proof {
                lemma_none_counted(self@, board@.square.rows_on_upto(p, r, k, 4), p, r, made);
            }
            return 0;
        }
        let rows = board.rows_on(p, r, k);
        proof {
            lemma_rows_on(board@.square, p, r, k, 4);
        }
        let mut n: usize = 0;
        let mut x: usize = 0;
        while x < rows.len()
            invariant
                self@.wf(),
                p.valid(),
                shapes.0@ == self@.shapes_at(r, p),
                x <= rows@.len(),
                n <= x,
                n == counted(self@, rows@.take(x as int), p, r, made),
                forall|m: int| 0 <= m < rows@.len() ==> crate::board::structure::window_on_board((#[trigger] rows@[m]).start),
            decreases rows@.len() - x,
        {
            let row = rows[x];
            let d = row.start_index().d;
            if shapes.along(d) == made && self.eye_blocked(&row, p, r, d) {
                n += 1;
            }
            proof {
                assert(rows@.take(x + 1).drop_last() =~= rows@.take(x as int));
            }
            x += 1;
        }
        proof {
            assert(rows@.take(x as int) =~= rows@);
        }
        n as u8
    }

    /// Whether `row` has an eye other than `p` where Black's stone looks
    /// forbidden with its shape along `d` left out ([`eye_blocks`]).
    fn eye_blocked(&self, row: &Row, p: Point, r: Player, d: Direction) -> (res: bool)
        requires
            self@.wf(),
            crate::board::structure::window_on_board(row.start),
        ensures
            res == exists|x: int|
                0 <= x < row_eye_points(*row).len() && row_eye_points(*row)[x] != p && eye_blocks(
                    self@,
                    #[trigger] row_eye_points(*row)[x],
                    d,
                    r,
                ),
    {
        let eyes = row.eyes();
        proof {
            crate::board::util::lemma_positions(row.eyes as u16, 5);
        }
        let mut x: usize = 0;
        while x < eyes.len()
            invariant
                self@.wf(),
                crate::board::structure::window_on_board(row.start),
                eyes@ == row_eye_points(*row),
                x <= eyes@.len(),
                forall|y: int| 0 <= y < positions(row.eyes as u16, 5).len() ==> #[trigger] positions(row.eyes as u16, 5)[y] < 5,
                forall|y: int|
                    0 <= y < x ==> !(eyes@[y] != p && eye_blocks(self@, #[trigger] eyes@[y], d, r)),
            decreases eyes@.len() - x,
        {
            let e = eyes[x];
            proof {
                let off = positions(row.eyes as u16, 5)[x as int];
                let idx = Index { d: row.start.d, i: row.start.i, j: (row.start.j + off) as u8 };
                assert(idx.valid());
                lemma_index_point_roundtrip(idx);
            }
            let others = self.get(e, Black).except(d);
            let hit = match r {
                White => others.looks_forbidden(),
                Black => others.count(Shape::Five) == 0 && (others.count(Shape::Four) >= 1 || others.count(Shape::Three) >= 2),
            };
            if e != p && hit {
                return true;
            }
            x += 1;
        }
        false
    }

    /// Recomputes stored line `k` from `board`, for both players.
    fn update(&mut self, k: usize, board: &Board)
        requires
            old(self)@.wf(),
            board@.wf(),
            k < LINE_NUM,
        ensures
            final(self)@.wf(),
            final(self)@.stale == old(self)@.stale,
            final(self)@.line_ok(board@.square, k as int),
            forall|r: Player, p: Point, d2: Direction|
                p.valid() && !(d2 == key_line(k as int).0 && p.index_of(d2).i == key_line(k as int).1)
                    ==> #[trigger] final(self)@.shapes_at(r, p)[direction_index(d2)] == old(self)@.shapes_at(r, p)[direction_index(d2)],
    {
        let (d, i) = Square::line_of_key(k);
        let line = board.line(d, i).unwrap();
        proof {
            lemma_key_line(k as int);
        }
        self.update_player(d, i, line, Black);
        self.update_player(d, i, line, White);
        proof {
            let g = board@.square;
            assert forall|r: Player, p: Point| p.valid() && p.index_of(d).i == i implies #[trigger] self@.shapes_at(r, p)[direction_index(d)]
                == shape_spec(g, p, r, d) by {
            }
        }
    }

    /// Recomputes `r`'s shapes along line `i` in direction `d`, which is
    /// `line`.
    fn update_player(&mut self, d: Direction, i: u8, line: &Line, r: Player)
        requires
            old(self)@.wf(),
            stored(d, i as int),
            line.wf(),
            line.size == line_size(d, i as int),
            5 <= line.size,
        ensures
            final(self)@.wf(),
            final(self)@.stale == old(self)@.stale,
            forall|p: Point|
                p.valid() && p.index_of(d).i == i ==> #[trigger] final(self)@.shapes_at(r, p)[direction_index(d)]
                    == line_shape(*line, r, p.index_of(d).j as int),
            forall|r2: Player, p: Point, d2: Direction|
                p.valid() && !(r2 == r && d2 == d && p.index_of(d).i == i)
                    ==> #[trigger] final(self)@.shapes_at(r2, p)[direction_index(d2)] == old(self)@.shapes_at(r2, p)[direction_index(d2)],
    {
        let opens = line.open_starts(r, 1);
        let two = line.eyes_of(opens, Two.eye_cells());
        let scores = line.scoring(r, 2);
        let sword = line.eyes_of(scores, Sword.eye_cells());
        let three = line.row_eyes(r, Two);
        let four = line.row_eyes(r, Sword);
        let five = line.row_eyes(r, Four);
        proof {
            assert forall|s: int| 0 <= s < 16 implies bit_of(opens, s as u16) == #[trigger] opens_at(*line, r, 1)(s) by {
                assert(bit_of(opens, s as u16) == line.open_at(r, 1, (s as u16) as int));
            }
            lemma_mask_eyes(*line, opens, opens_at(*line, r, 1), 0b01111, two);
            assert forall|s: int| 0 <= s < 16 implies bit_of(scores, s as u16) == #[trigger] scores_at(*line, r, 2)(s) by {
                assert(bit_of(scores, s as u16) == (line.has_segment((s as u16) as int) && line.segment_at((s as u16) as int).score_of(r) == 2));
            }
            lemma_mask_eyes(*line, scores, scores_at(*line, r, 2), 0b11111, sword);
        }
        let pi = slot_of_player(r);
        let mut j: u8 = 0;
        while j < line.size
            invariant
                self@.wf(),
                self@.stale == old(self)@.stale,
                stored(d, i as int),
                line.size == line_size(d, i as int),
                j <= line.size,
                pi == player_slot(r),
                forall|c: u16| c < 16 ==> (#[trigger] bit_of(five, c) == line.eye_at(line.rows_at(r, Four), 0b11111, c as int)),
                forall|c: u16| c < 16 ==> (#[trigger] bit_of(four, c) == line.eye_at(line.rows_at(r, Sword), 0b11111, c as int)),
                forall|c: u16| c < 16 ==> (#[trigger] bit_of(three, c) == line.eye_at(line.rows_at(r, Two), 0b01111, c as int)),
                forall|c: u16| c < 16 ==> (#[trigger] bit_of(sword, c) == line.eye_at(scores_at(*line, r, 2), 0b11111, c as int)),
                forall|c: u16| c < 16 ==> (#[trigger] bit_of(two, c) == line.eye_at(opens_at(*line, r, 1), 0b01111, c as int)),
                forall|p: Point|
                    p.valid() && p.index_of(d).i == i && p.index_of(d).j < j ==> #[trigger] self@.shapes_at(r, p)[direction_index(d)]
                        == line_shape(*line, r, p.index_of(d).j as int),
                forall|r2: Player, p: Point, d2: Direction|
                    p.valid() && !(r2 == r && d2 == d && p.index_of(d).i == i && p.index_of(d).j < j)
                        ==> #[trigger] self@.shapes_at(r2, p)[direction_index(d2)] == old(self)@.shapes_at(r2, p)[direction_index(d2)],
            decreases line.size - j,
        {
            let s = if (five >> j as u16) & 1 == 1 {
                Shape::Five
            } else if (four >> j as u16) & 1 == 1 {
                Shape::Four
            } else if (three >> j as u16) & 1 == 1 {
                Shape::Three
            } else if (sword >> j as u16) & 1 == 1 {
                Shape::Sword
            } else if (two >> j as u16) & 1 == 1 {
                Shape::Two
            } else {
                Shape::Nothing
            };
            assert(bit_of(five, j as u16) == line.eye_at(line.rows_at(r, Four), 0b11111, j as int));
            assert(bit_of(four, j as u16) == line.eye_at(line.rows_at(r, Sword), 0b11111, j as int));
            assert(bit_of(three, j as u16) == line.eye_at(line.rows_at(r, Two), 0b01111, j as int));
            assert(bit_of(sword, j as u16) == line.eye_at(scores_at(*line, r, 2), 0b11111, j as int));
            assert(bit_of(two, j as u16) == line.eye_at(opens_at(*line, r, 1), 0b01111, j as int));
            assert(s == line_shape(*line, r, j as int));
            let idx = Index::new(d, i, j);
            let q = idx.to_point();
            proof {
                lemma_index_point_roundtrip(idx);
                lemma_point_slot(r, q, r, q);
            }
            let slot = pi * 225 + (q.0 as usize) * 15 + q.1 as usize;
            let cur = self.shapes[slot];
            let ghost before = self@;
            self.shapes.set(slot, cur.with(d, s));
            proof {
                assert forall|r2: Player, p: Point, d2: Direction| p.valid() implies #[trigger] self@.shapes_at(r2, p)[direction_index(d2)]
                    == (if r2 == r && p == q && d2 == d { s } else { before.shapes_at(r2, p)[direction_index(d2)] }) by {
                    lemma_point_slot(r2, p, r, q);
                }
                assert forall|p: Point| p.valid() implies (p == q) == (p.index_of(d).i == i && p.index_of(d).j == j) by {
                    lemma_point_index_roundtrip(p, d);
                }
            }
            j += 1;
        }
        proof {
            assert forall|p: Point| p.valid() && p.index_of(d).i == i implies p.index_of(d).j < j by {
                lemma_point_index_roundtrip(p, d);
            }
        }
    }
}

/// Only the shapes matter to the lines: a map with the same shapes and a
/// stale mask clear past the stored lines is as good.
proof fn lemma_same_shapes(m1: ShapeMapModel, m2: ShapeMapModel)
    requires
        m1.wf(),
        m2.shapes == m1.shapes,
        m2.stale >> 72u128 == 0,
    ensures
        m2.wf(),
        forall|r: Player, p: Point| #[trigger] m2.shapes_at(r, p) == m1.shapes_at(r, p),
{
    assert forall|r: Player, p: Point| #[trigger] m2.shapes_at(r, p) == m1.shapes_at(r, p) by {
    }
}

impl Default for ShapeMap {
    /// A map that knows nothing yet, as [`ShapeMap::new`].
    fn default() -> (res: Self)
        ensures
            res@.wf(),
            forall|k: int| 0 <= k < LINE_NUM ==> #[trigger] bit128(res@.stale, k),
    {
        Self::new()
    }
}

/// Updating line `k` keeps any other line `q` as it was.
proof fn lemma_line_ok_kept(before: ShapeMapModel, after: ShapeMapModel, g: SquareModel, k: int, q: int)
    requires
        0 <= k < LINE_NUM,
        0 <= q < LINE_NUM,
        q != k,
        before.line_ok(g, q),
        forall|r: Player, p: Point, d2: Direction|
            p.valid() && !(d2 == key_line(k).0 && p.index_of(d2).i == key_line(k).1)
                ==> #[trigger] after.shapes_at(r, p)[direction_index(d2)] == before.shapes_at(r, p)[direction_index(d2)],
    ensures
        after.line_ok(g, q),
{
    lemma_key_line(k);
    lemma_key_line(q);
    let (d, i) = key_line(q);
    assert forall|r: Player, p: Point| p.valid() && p.index_of(d).i == i implies #[trigger] after.shapes_at(r, p)[direction_index(d)]
        == shape_spec(g, p, r, d) by {
        assert(before.shapes_at(r, p)[direction_index(d)] == shape_spec(g, p, r, d));
        if d == key_line(k).0 && p.index_of(d).i == key_line(k).1 {
            assert(key_line(q) == key_line(k));
        }
    }
}

} // verus!
