//! The bit board as its lines: every point is kept on each of the lines
//! through it that are long enough to hold a five.
use vstd::prelude::*;
use super::bits::Row as Segment;
use super::fundamentals::{Player, RowKind, BOARD_SIZE};
use super::line::{line_text, row_on_line, stone_of_char, Line, LineBits};
use super::point::{
    last_cell, lemma_index_roundtrip, lemma_point_roundtrip, points_of_text, points_text_error, Direction, Index,
    Point, Points,
};
use crate::board::notation::{
    chars_of, lemma_same_bits, lemma_split_sep, push_char, split_at, split_chars, trim, trimmed, whitespace,
};
use crate::board::point::{Ascending, Descending, Horizontal, Vertical};

verus! {

/// How many diagonals in each direction can hold a five.
pub const D_LINE_NUM: u8 = 21;

/// The diagonals numbered below this are too short to hold a five.
pub const D_LINE_OMIT: u8 = 4;

/// Whether line `i` in direction `d` is kept: every orthogonal line, and
/// the diagonals that can hold a five.
pub open spec fn stored(d: Direction, i: int) -> bool {
    match d {
        Vertical | Horizontal => 0 <= i < BOARD_SIZE,
        _ => D_LINE_OMIT <= i < D_LINE_OMIT + D_LINE_NUM,
    }
}

/// Where line `i` in direction `d` sits in its vector.
pub open spec fn slot_of(d: Direction, i: int) -> int {
    match d {
        Vertical | Horizontal => i,
        _ => i - D_LINE_OMIT,
    }
}

/// How many cells line `i` in direction `d` has.
pub open spec fn line_size(d: Direction, i: int) -> int {
    last_cell(d, i) + 1
}

/// The point with code `c`: `x` is `c / 15`, `y` is `c % 15`.
pub open spec fn point_of_code(c: int) -> Point {
    Point((c / BOARD_SIZE as int) as u8, (c % BOARD_SIZE as int) as u8)
}

/// What a [`Square`] holds: its lines, direction by direction.
pub struct SquareModel {
    pub v: Seq<LineBits>,
    pub h: Seq<LineBits>,
    pub a: Seq<LineBits>,
    pub d: Seq<LineBits>,
}

impl SquareModel {
    /// The kept lines in direction `d`.
    pub open spec fn lines_of(self, d: Direction) -> Seq<LineBits> {
        match d {
            Vertical => self.v,
            Horizontal => self.h,
            Ascending => self.a,
            Descending => self.d,
        }
    }

    /// Line `i` in direction `d`.
    pub open spec fn line_spec(self, d: Direction, i: int) -> LineBits {
        self.lines_of(d)[slot_of(d, i)]
    }

    /// The stone on `p`, as the vertical line through it has it.
    pub open spec fn stone_at(self, p: Point) -> Option<Player> {
        self.v[p.0 as int].cell(p.1 as int)
    }

    /// The lines are all there, each as long as the board has it, and all
    /// copies of a point agree.
    pub open spec fn wf(self) -> bool {
        &&& self.v.len() == BOARD_SIZE
        &&& self.h.len() == BOARD_SIZE
        &&& self.a.len() == D_LINE_NUM
        &&& self.d.len() == D_LINE_NUM
        &&& forall|d: Direction, i: int|
            stored(d, i) ==> (#[trigger] self.line_spec(d, i)).mask_ok() && self.line_spec(d, i).size
                == line_size(d, i)
        &&& forall|d: Direction, idx: Index|
            idx.valid_for(d) && stored(d, idx.0 as int) ==> #[trigger] self.line_spec(d, idx.0 as int).cell(
                idx.1 as int,
            ) == self.stone_at(idx.point_spec(d))
    }

    /// The board after `player`'s stone is put on `p`, on every kept line
    /// through it.
    pub open spec fn put_spec(self, player: Player, p: Point) -> SquareModel {
        let v = p.index_spec(Vertical);
        let h = p.index_spec(Horizontal);
        let a = p.index_spec(Ascending);
        let d = p.index_spec(Descending);
        SquareModel {
            v: self.v.update(v.0 as int, self.v[v.0 as int].put_spec(player, v.1)),
            h: self.h.update(h.0 as int, self.h[h.0 as int].put_spec(player, h.1)),
            a: if stored(Ascending, a.0 as int) {
                let k = slot_of(Ascending, a.0 as int);
                self.a.update(k, self.a[k].put_spec(player, a.1))
            } else {
                self.a
            },
            d: if stored(Descending, d.0 as int) {
                let k = slot_of(Descending, d.0 as int);
                self.d.update(k, self.d[k].put_spec(player, d.1))
            } else {
                self.d
            },
        }
    }

    /// The points with code below `n` holding `s`, in code order.
    pub open spec fn points_with(self, s: Option<Player>, n: nat) -> Seq<Point>
        decreases n,
    {
        if n == 0 {
            Seq::empty()
        } else {
            let rest = self.points_with(s, (n - 1) as nat);
            let p = point_of_code(n - 1);
            if self.stone_at(p) == s {
                rest.push(p)
            } else {
                rest
            }
        }
    }

    /// How many points are empty.
    pub open spec fn empty_count(self) -> nat {
        self.points_with(None, 225).len()
    }
}

/// An index names `p` exactly when it is `p`'s index along its direction.
proof fn lemma_index_names(idx: Index, d: Direction, p: Point)
    requires
        idx.valid_for(d),
        p.valid(),
    ensures
        (idx.point_spec(d) == p) == (idx == p.index_spec(d)),
{
    lemma_index_roundtrip(idx, d);
    lemma_point_roundtrip(p, d);
}

/// Putting a stone keeps the copies of every point in agreement, and
/// changes the stone on that point alone.
pub proof fn lemma_put_spec(s: SquareModel, player: Player, p: Point)
    requires
        s.wf(),
        p.valid(),
    ensures
        s.put_spec(player, p).wf(),
        s.put_spec(player, p).stone_at(p) == Some(player),
        forall|q: Point| q.valid() && q != p ==> #[trigger] s.put_spec(player, p).stone_at(q) == s.stone_at(q),
{
    let t = s.put_spec(player, p);
    assert forall|d: Direction, i: int| stored(d, i) implies {
        &&& (#[trigger] t.line_spec(d, i)).mask_ok()
        &&& t.line_spec(d, i).size == line_size(d, i)
        &&& forall|k: int|
            0 <= k < 16 ==> #[trigger] t.line_spec(d, i).cell(k) == (if i == p.index_spec(d).0 && k
                == p.index_spec(d).1 {
                Some(player)
            } else {
                s.line_spec(d, i).cell(k)
            })
    } by {
        lemma_point_roundtrip(p, d);
        let idx = p.index_spec(d);
        assert(s.line_spec(d, i).mask_ok());
        if i == idx.0 {
            assert(stored(d, idx.0 as int));
            s.line_spec(d, i).lemma_put_spec(player, idx.1);
        }
    }
    assert forall|q: Point| q.valid() implies #[trigger] t.stone_at(q) == (if q == p {
        Some(player)
    } else {
        s.stone_at(q)
    }) by {
        assert(stored(Vertical, q.0 as int));
        lemma_point_roundtrip(q, Vertical);
        assert(t.line_spec(Vertical, q.0 as int).cell(q.1 as int) == t.stone_at(q));
        lemma_point_roundtrip(p, Vertical);
    }
    assert forall|d: Direction, idx: Index| idx.valid_for(d) && stored(d, idx.0 as int) implies #[trigger] t.line_spec(
        d,
        idx.0 as int,
    ).cell(idx.1 as int) == t.stone_at(idx.point_spec(d)) by {
        lemma_index_names(idx, d, p);
        lemma_index_roundtrip(idx, d);
        assert(s.line_spec(d, idx.0 as int).cell(idx.1 as int) == s.stone_at(idx.point_spec(d)));
    }
}

/// Stones put on two different points, in either order, give the same
/// board, line for line.
#[verifier::spinoff_prover]
#[verifier::rlimit(30)]
pub proof fn lemma_put_commutes(s: SquareModel, r1: Player, p1: Point, r2: Player, p2: Point)
    requires
        s.wf(),
        p1.valid(),
        p2.valid(),
        p1 != p2,
    ensures
        s.put_spec(r1, p1).put_spec(r2, p2) == s.put_spec(r2, p2).put_spec(r1, p1),
{
    let t1 = s.put_spec(r1, p1).put_spec(r2, p2);
    let t2 = s.put_spec(r2, p2).put_spec(r1, p1);
    lemma_point_roundtrip(p1, Vertical);
    lemma_point_roundtrip(p2, Vertical);
    lemma_point_roundtrip(p1, Horizontal);
    lemma_point_roundtrip(p2, Horizontal);
    lemma_point_roundtrip(p1, Ascending);
    lemma_point_roundtrip(p2, Ascending);
    lemma_point_roundtrip(p1, Descending);
    lemma_point_roundtrip(p2, Descending);
    let (v1, v2) = (p1.index_spec(Vertical), p2.index_spec(Vertical));
    let (h1, h2) = (p1.index_spec(Horizontal), p2.index_spec(Horizontal));
    let (a1, a2) = (p1.index_spec(Ascending), p2.index_spec(Ascending));
    let (d1, d2) = (p1.index_spec(Descending), p2.index_spec(Descending));
    if v1.0 == v2.0 {
        s.v[v1.0 as int].lemma_put_commutes(r1, v1.1, r2, v2.1);
    }
    if h1.0 == h2.0 {
        s.h[h1.0 as int].lemma_put_commutes(r1, h1.1, r2, h2.1);
    }
    if a1.0 == a2.0 && stored(Ascending, a1.0 as int) {
        s.a[slot_of(Ascending, a1.0 as int)].lemma_put_commutes(r1, a1.1, r2, a2.1);
    }
    if d1.0 == d2.0 && stored(Descending, d1.0 as int) {
        s.d[slot_of(Descending, d1.0 as int)].lemma_put_commutes(r1, d1.1, r2, d2.1);
    }
    assert(t1.v =~= t2.v);
    assert(t1.h =~= t2.h);
    assert(t1.a =~= t2.a);
    assert(t1.d =~= t2.d);
}

/// The number of empty points among the first `n` codes goes down by one
/// when an empty point is filled, and stays when a stone is replaced.
pub proof fn lemma_empty_count(s: SquareModel, t: SquareModel, p: Point, n: nat)
    requires
        p.valid(),
        n <= 225,
        forall|q: Point| q.valid() && q != p ==> #[trigger] t.stone_at(q) == s.stone_at(q),
        t.stone_at(p) is Some,
    ensures
        t.points_with(None, n).len() + (if s.stone_at(p) is None && p.0 * 15 + p.1 < n { 1int } else { 0 })
            == s.points_with(None, n).len(),
    decreases n,
{
    if n > 0 {
        lemma_empty_count(s, t, p, (n - 1) as nat);
        let q = point_of_code(n - 1);
        assert(q.valid());
        if q == p {
            assert(p.0 * 15 + p.1 == n - 1);
        } else {
            assert(p.0 * 15 + p.1 != n - 1) by (nonlinear_arith)
                requires
                    q == point_of_code(n - 1),
                    q != p,
                    p.valid(),
                    1 <= n <= 225,
            ;
        }
    }
}

/// The board as its lines: 15 vertical, 15 horizontal, and the 21
/// ascending and 21 descending diagonals long enough to hold a five.
#[derive(Debug)]
pub struct Square {
    vlines: Vec<Line>,
    hlines: Vec<Line>,
    alines: Vec<Line>,
    dlines: Vec<Line>,
}

/// The lines' contents.
pub open spec fn bits_of(lines: Seq<Line>) -> Seq<LineBits> {
    lines.map_values(|l: Line| l@)
}

/// Every line is well formed, memo included.
pub open spec fn lines_wf(lines: Seq<Line>) -> bool {
    forall|k: int| 0 <= k < lines.len() ==> (#[trigger] lines[k]).wf()
}

impl View for Square {
    type V = SquareModel;

    closed spec fn view(&self) -> SquareModel {
        SquareModel {
            v: bits_of(self.vlines@),
            h: bits_of(self.hlines@),
            a: bits_of(self.alines@),
            d: bits_of(self.dlines@),
        }
    }
}

impl Square {
    /// The board's lines agree, and each line's memo is sound.
    pub closed spec fn wf(self) -> bool {
        &&& self@.wf()
        &&& lines_wf(self.vlines@)
        &&& lines_wf(self.hlines@)
        &&& lines_wf(self.alines@)
        &&& lines_wf(self.dlines@)
    }

    /// A well-formed board's lines agree.
    pub proof fn lemma_wf(&self)
        ensures
            self.wf() ==> self@.wf(),
    {
    }

    /// An empty board.
    pub fn new() -> (res: Square)
        ensures
            res.wf(),
            forall|p: Point| p.valid() ==> #[trigger] res@.stone_at(p) is None,
    {
        let res = Square {
            vlines: orthogonal_lines(),
            hlines: orthogonal_lines(),
            alines: diagonal_lines(),
            dlines: diagonal_lines(),
        };
        proof {
            assert forall|d: Direction, i: int| stored(d, i) implies (#[trigger] res@.line_spec(d, i)).mask_ok()
                && res@.line_spec(d, i).size == line_size(d, i) by {}
            assert forall|p: Point| p.valid() implies #[trigger] res@.stone_at(p) is None by {
                LineBits::lemma_empty(res@.v[p.0 as int], p.1 as int);
            }
            assert forall|d: Direction, idx: Index| idx.valid_for(d) && stored(d, idx.0 as int) implies #[trigger] res@.line_spec(
                d,
                idx.0 as int,
            ).cell(idx.1 as int) == res@.stone_at(idx.point_spec(d)) by {
                lemma_index_roundtrip(idx, d);
                let q = idx.point_spec(d);
                LineBits::lemma_empty(res@.line_spec(d, idx.0 as int), idx.1 as int);
                LineBits::lemma_empty(res@.v[q.0 as int], q.1 as int);
            }
        }
        res
    }
}

/// Fifteen empty lines of fifteen cells.
fn orthogonal_lines() -> (res: Vec<Line>)
    ensures
        res@.len() == BOARD_SIZE,
        lines_wf(res@),
        forall|k: int| 0 <= k < BOARD_SIZE ==> (#[trigger] res@[k])@ == (LineBits { size: BOARD_SIZE, blacks: 0, whites: 0 }),
{
    let mut res: Vec<Line> = Vec::new();
    let mut k: u8 = 0;
    while k < BOARD_SIZE
        invariant
            k <= BOARD_SIZE,
            res@.len() == k,
            lines_wf(res@),
            forall|m: int| 0 <= m < k ==> (#[trigger] res@[m])@ == (LineBits { size: BOARD_SIZE, blacks: 0, whites: 0 }),
        decreases BOARD_SIZE - k,
    {
        res.push(Line::new(BOARD_SIZE));
        k += 1;
    }
    res
}

/// The empty diagonals that can hold a five, from the one of five cells up
/// to the longest and down again.
fn diagonal_lines() -> (res: Vec<Line>)
    ensures
        res@.len() == D_LINE_NUM,
        lines_wf(res@),
        forall|k: int|
            0 <= k < D_LINE_NUM ==> (#[trigger] res@[k])@ == (LineBits {
                size: line_size(Ascending, k + D_LINE_OMIT) as u8,
                blacks: 0,
                whites: 0,
            }),
{
    let mut res: Vec<Line> = Vec::new();
    let mut k: u8 = 0;
    while k < D_LINE_NUM
        invariant
            k <= D_LINE_NUM,
            res@.len() == k,
            lines_wf(res@),
            forall|m: int|
                0 <= m < k ==> (#[trigger] res@[m])@ == (LineBits {
                    size: line_size(Ascending, m + D_LINE_OMIT) as u8,
                    blacks: 0,
                    whites: 0,
                }),
        decreases D_LINE_NUM - k,
    {
        let i = k + D_LINE_OMIT;
        let size = if i < BOARD_SIZE - 1 {
            i + 1
        } else {
            2 * (BOARD_SIZE - 1) - i + 1
        };
        res.push(Line::new(size));
        k += 1;
    }
    res
}


/// Sets cell `j` of line `k` of `lines` to `player`'s stone.
fn put_on(lines: &mut Vec<Line>, k: usize, player: Player, j: u8)
    requires
        k < old(lines)@.len(),
        lines_wf(old(lines)@),
        j < old(lines)@[k as int].size,
    ensures
        lines_wf(final(lines)@),
        bits_of(final(lines)@) == bits_of(old(lines)@).update(k as int, old(lines)@[k as int]@.put_spec(player, j)),
{
    let mut l = lines[k];
    l.put(player, j);
    lines.set(k, l);
    proof {
        assert(bits_of(final(lines)@) =~= bits_of(old(lines)@).update(k as int, old(lines)@[k as int]@.put_spec(player, j)));
    }
}

/// Whether `a <= x <= b`.
fn bw(a: u8, x: u8, b: u8) -> (res: bool)
    ensures
        res == (a <= x && x <= b),
{
    a <= x && x <= b
}

impl Square {
    /// Puts `player`'s stone on `p`, replacing whatever was there.
    pub fn put(&mut self, player: Player, p: Point)
        requires
            old(self).wf(),
            p.valid(),
        ensures
            final(self).wf(),
            final(self)@ == old(self)@.put_spec(player, p),
            final(self)@.stone_at(p) == Some(player),
            forall|q: Point| q.valid() && q != p ==> #[trigger] final(self)@.stone_at(q) == old(self)@.stone_at(q),
    {
        let ghost s0 = self@;
        proof {
            lemma_put_spec(s0, player, p);
            lemma_point_roundtrip(p, Vertical);
            lemma_point_roundtrip(p, Horizontal);
            lemma_point_roundtrip(p, Ascending);
            lemma_point_roundtrip(p, Descending);
        }
        let vidx = p.to_index(Vertical);
        assert(s0.line_spec(Vertical, vidx.0 as int).size == line_size(Vertical, vidx.0 as int));
        put_on(&mut self.vlines, vidx.0 as usize, player, vidx.1);
        let hidx = p.to_index(Horizontal);
        assert(s0.line_spec(Horizontal, hidx.0 as int).size == line_size(Horizontal, hidx.0 as int));
        put_on(&mut self.hlines, hidx.0 as usize, player, hidx.1);
        let aidx = p.to_index(Ascending);
        if bw(D_LINE_OMIT, aidx.0, D_LINE_NUM + D_LINE_OMIT - 1) {
            assert(s0.line_spec(Ascending, aidx.0 as int).size == line_size(Ascending, aidx.0 as int));
            put_on(&mut self.alines, (aidx.0 - D_LINE_OMIT) as usize, player, aidx.1);
        }
        let didx = p.to_index(Descending);
        if bw(D_LINE_OMIT, didx.0, D_LINE_NUM + D_LINE_OMIT - 1) {
            assert(s0.line_spec(Descending, didx.0 as int).size == line_size(Descending, didx.0 as int));
            put_on(&mut self.dlines, (didx.0 - D_LINE_OMIT) as usize, player, didx.1);
        }
        proof {
            assert(self@.v =~= s0.put_spec(player, p).v);
            assert(self@.h =~= s0.put_spec(player, p).h);
            assert(self@.a =~= s0.put_spec(player, p).a);
            assert(self@.d =~= s0.put_spec(player, p).d);
        }
    }
}


/// A row on the board: the direction of its line, where it starts and
/// ends, and its eyes.
#[derive(Debug, Eq, PartialEq, Clone, Copy, Structural)]
pub struct Row {
    pub direction: Direction,
    pub start: Point,
    pub end: Point,
    pub eye1: Option<Point>,
    pub eye2: Option<Point>,
}

/// The segment `r` of line `i` in direction `d`, placed on the board.
pub open spec fn from_row_spec(r: Segment, d: Direction, i: u8) -> Row {
    Row {
        direction: d,
        start: Index(i, r.start).point_spec(d),
        end: Index(i, r.end).point_spec(d),
        eye1: match r.eye1 {
            Some(e) => Some(Index(i, e).point_spec(d)),
            None => None,
        },
        eye2: match r.eye2 {
            Some(e) => Some(Index(i, e).point_spec(d)),
            None => None,
        },
    }
}

/// Whether every cell of the segment `r` is on line `i` in direction `d`.
pub open spec fn placeable(r: Segment, d: Direction, i: u8) -> bool {
    &&& Index(i, r.start).valid_for(d)
    &&& Index(i, r.end).valid_for(d)
    &&& r.eye1 matches Some(e) ==> Index(i, e).valid_for(d)
    &&& r.eye2 matches Some(e) ==> Index(i, e).valid_for(d)
}

/// The eyes of a row, first then second.
pub open spec fn eyes_spec(r: Row) -> Seq<Point> {
    (match r.eye1 {
        Some(e) => seq![e],
        None => Seq::empty(),
    }) + (match r.eye2 {
        Some(e) => seq![e],
        None => Seq::empty(),
    })
}

/// Whether every point of a row is on the board.
pub open spec fn row_valid(r: Row) -> bool {
    &&& r.start.valid()
    &&& r.end.valid()
    &&& r.eye1 matches Some(e) ==> e.valid()
    &&& r.eye2 matches Some(e) ==> e.valid()
}

/// The difference of two coordinates read as `i8`, as [`Row::adjacent`]
/// takes it.
pub open spec fn i8_diff(a: u8, b: u8) -> int {
    (a as i8) - (b as i8)
}

/// A coordinate below 128 reads as itself as an `i8`.
pub proof fn lemma_small_i8(a: u8)
    by (bit_vector)
    ensures
        a < 128 ==> (a as i8) as int == a as int,
{
}

impl Row {
    pub fn new(direction: Direction, start: Point, end: Point, eye1: Option<Point>, eye2: Option<Point>) -> (res: Row)
        ensures
            res == (Row { direction, start, end, eye1, eye2 }),
    {
        Row { direction: direction, start: start, end: end, eye1: eye1, eye2: eye2 }
    }

    /// The segment `r` of line `i` in direction `d`, placed on the board.
    pub fn from_row(r: &Segment, d: Direction, i: u8) -> (res: Row)
        requires
            placeable(*r, d, i),
        ensures
            res == from_row_spec(*r, d, i),
            row_valid(res),
    {
        let eye1 = match r.eye1 {
            Some(e) => Some(Index(i, e).to_point(d)),
            None => None,
        };
        let eye2 = match r.eye2 {
            Some(e) => Some(Index(i, e).to_point(d)),
            None => None,
        };
        Row {
            direction: d,
            start: Index(i, r.start).to_point(d),
            end: Index(i, r.end).to_point(d),
            eye1: eye1,
            eye2: eye2,
        }
    }

    /// [`Self::overlap`] as a spec function.
    pub open spec fn overlap_spec(self, p: Point) -> bool {
        let (px, py) = (p.0 as int, p.1 as int);
        let (sx, sy) = (self.start.0 as int, self.start.1 as int);
        let (ex, ey) = (self.end.0 as int, self.end.1 as int);
        match self.direction {
            Vertical => px == sx && sy <= py <= ey,
            Horizontal => py == sy && sx <= px <= ex,
            Ascending => sx <= px <= ex && sy <= py <= ey && px - sx == py - sy,
            Descending => sx <= px <= ex && ey <= py <= sy && px - sx == sy - py,
        }
    }

    /// Whether `p` is one of the row's cells.
    pub fn overlap(&self, p: Point) -> (res: bool)
        ensures
            res == self.overlap_spec(p),
    {
        let (px, py) = (p.0, p.1);
        let (sx, sy) = (self.start.0, self.start.1);
        let (ex, ey) = (self.end.0, self.end.1);
        match self.direction {
            Vertical => px == sx && bw(sy, py, ey),
            Horizontal => py == sy && bw(sx, px, ex),
            Ascending => bw(sx, px, ex) && bw(sy, py, ey) && px - sx == py - sy,
            Descending => bw(sx, px, ex) && bw(ey, py, sy) && px - sx == sy - py,
        }
    }

    /// Whether `other` is the same shape on the same line, one cell over,
    /// the starts' coordinates differing by `xd` and `yd`.
    pub open spec fn adjacent_by(self, other: Row, xd: int, yd: int) -> bool {
        &&& self.direction == other.direction
        &&& match self.direction {
            Vertical => xd == 0 && (yd == 1 || yd == -1),
            Horizontal => (xd == 1 || xd == -1) && yd == 0,
            Ascending => (xd == 1 || xd == -1) && xd == yd,
            Descending => (xd == 1 || xd == -1) && xd == -yd,
        }
    }

    /// Whether `other` is the same shape on the same line, one cell over:
    /// the two starts are next to each other along the line.
    pub open spec fn adjacent_spec(self, other: Row) -> bool {
        self.adjacent_by(other, self.start.0 - other.start.0, self.start.1 - other.start.1)
    }

    /// Whether the `i8` arithmetic of [`Self::adjacent`] stays in range:
    /// the coordinates read as `i8` give differences that fit one, with
    /// no absolute value or negation of `-128` where one is taken.
    pub open spec fn adjacent_fits(self, other: Row) -> bool {
        let xd = i8_diff(self.start.0, other.start.0);
        let yd = i8_diff(self.start.1, other.start.1);
        self.direction == other.direction ==> {
            &&& -128 <= xd <= 127
            &&& -128 <= yd <= 127
            &&& match self.direction {
                Vertical => xd == 0 ==> yd != -128,
                Horizontal | Ascending => xd != -128,
                Descending => xd != -128 && ((xd == 1 || xd == -1) ==> yd != -128),
            }
        }
    }

    /// Whether `other` is the same shape on the same line, one cell over,
    /// the starts' coordinates compared as `i8`: for the points of the
    /// board, [`Self::adjacent_spec`].
    pub fn adjacent(&self, other: &Row) -> (res: bool)
        requires
            self.adjacent_fits(*other),
        ensures
            res == self.adjacent_by(
                *other,
                i8_diff(self.start.0, other.start.0),
                i8_diff(self.start.1, other.start.1),
            ),
            self.start.0 < 128 && self.start.1 < 128 && other.start.0 < 128 && other.start.1 < 128 ==> res
                == self.adjacent_spec(*other),
    {
        proof {
            lemma_small_i8(self.start.0);
            lemma_small_i8(self.start.1);
            lemma_small_i8(other.start.0);
            lemma_small_i8(other.start.1);
        }
        if self.direction != other.direction {
            return false;
        }
        let (sx, sy) = (self.start.0, self.start.1);
        let (ox, oy) = (other.start.0, other.start.1);
        let (xd, yd) = (sx as i8 - ox as i8, sy as i8 - oy as i8);
        let x_one = xd == 1 || xd == -1;
        let y_one = yd == 1 || yd == -1;
        match self.direction {
            Vertical => xd == 0 && y_one,
            Horizontal => x_one && yd == 0,
            Ascending => x_one && xd == yd,
            Descending => x_one && xd == -yd,
        }
    }

    /// The row's eyes, first then second.
    pub fn into_iter_eyes(&self) -> (res: Vec<Point>)
        ensures
            res@ == eyes_spec(*self),
    {
        let mut res: Vec<Point> = Vec::new();
        if let Some(e) = self.eye1 {
            res.push(e);
        }
        if let Some(e) = self.eye2 {
            res.push(e);
        }
        proof {
            assert(res@ =~= eyes_spec(*self));
        }
        res
    }
}


/// Kept line `k` in the order [`Square::rows`] reads them: the vertical
/// ones, the horizontal ones, then the ascending and descending
/// diagonals.
pub open spec fn key_line(k: int) -> (Direction, int) {
    if k < 15 {
        (Vertical, k)
    } else if k < 30 {
        (Horizontal, k - 15)
    } else if k < 51 {
        (Ascending, k - 30 + D_LINE_OMIT)
    } else {
        (Descending, k - 51 + D_LINE_OMIT)
    }
}

/// The four directions, in the order the lines through a point are read.
pub open spec fn directions() -> Seq<Direction> {
    seq![Vertical, Horizontal, Ascending, Descending]
}

/// `player`'s rows of kind `kind` on line `i` in direction `d`, placed on
/// the board.
pub open spec fn rows_in(d: Direction, i: int, line: LineBits, player: Player, kind: RowKind) -> Seq<Row> {
    line.rows_of(player, kind).map_values(|r: Segment| from_row_spec(r, d, i as u8))
}

/// The rows of `rows` through `p`, in order.
pub open spec fn rows_over(rows: Seq<Row>, p: Point) -> Seq<Row>
    decreases rows.len(),
{
    if rows.len() == 0 {
        Seq::empty()
    } else {
        let rest = rows_over(rows.drop_last(), p);
        if rows.last().overlap_spec(p) {
            rest.push(rows.last())
        } else {
            rest
        }
    }
}

/// `rows`, or those of them through `p`.
pub open spec fn only_through(rows: Seq<Row>, on: Option<Point>) -> Seq<Row> {
    match on {
        Some(p) => rows_over(rows, p),
        None => rows,
    }
}

/// The eyes of `rows`, row by row.
pub open spec fn eyes_of_rows(rows: Seq<Row>) -> Seq<Point>
    decreases rows.len(),
{
    if rows.len() == 0 {
        Seq::empty()
    } else {
        eyes_of_rows(rows.drop_last()) + eyes_spec(rows.last())
    }
}

/// A point's one-byte code, by which points are ordered.
pub open spec fn point_code(p: Point) -> int {
    p.0 * 15 + p.1
}

/// Points in increasing order, each once.
pub open spec fn sorted_points(s: Seq<Point>) -> bool {
    forall|i: int, j: int| 0 <= i < j < s.len() ==> point_code(#[trigger] s[i]) < point_code(#[trigger] s[j])
}

/// Every point of the list is on the board.
pub open spec fn all_valid(s: Seq<Point>) -> bool {
    forall|k: int| 0 <= k < s.len() ==> (#[trigger] s[k]).valid()
}

impl SquareModel {
    /// `player`'s rows of kind `kind` on the first `n` kept lines.
    pub open spec fn rows_upto(self, player: Player, kind: RowKind, n: int) -> Seq<Row>
        decreases n,
    {
        if n <= 0 {
            Seq::empty()
        } else {
            let (d, i) = key_line(n - 1);
            self.rows_upto(player, kind, n - 1) + rows_in(d, i, self.line_spec(d, i), player, kind)
        }
    }

    /// `player`'s rows of kind `kind` on every kept line.
    pub open spec fn rows_spec(self, player: Player, kind: RowKind) -> Seq<Row> {
        self.rows_upto(player, kind, 72)
    }

    /// `player`'s rows of kind `kind` on the kept lines through `p` among
    /// the first `n` directions, only those through `p` itself if `on`.
    pub open spec fn rows_through_upto(self, player: Player, kind: RowKind, p: Point, on: bool, n: int) -> Seq<Row>
        decreases n,
    {
        if n <= 0 {
            Seq::empty()
        } else {
            let rest = self.rows_through_upto(player, kind, p, on, n - 1);
            let d = directions()[n - 1];
            let idx = p.index_spec(d);
            if stored(d, idx.0 as int) {
                let rows = rows_in(d, idx.0 as int, self.line_spec(d, idx.0 as int), player, kind);
                rest + (if on { rows_over(rows, p) } else { rows })
            } else {
                rest
            }
        }
    }

    /// `player`'s rows of kind `kind` through `p`.
    pub open spec fn rows_on_spec(self, player: Player, kind: RowKind, p: Point) -> Seq<Row> {
        self.rows_through_upto(player, kind, p, true, 4)
    }

    /// `player`'s rows of kind `kind` on the kept lines through `p`.
    pub open spec fn rows_along_spec(self, player: Player, kind: RowKind, p: Point) -> Seq<Row> {
        self.rows_through_upto(player, kind, p, false, 4)
    }
}

/// Two points of the board with the same code are the same point.
proof fn lemma_code_names(p: Point, q: Point)
    requires
        p.valid(),
        q.valid(),
    ensures
        (point_code(p) == point_code(q)) == (p == q),
{
    if point_code(p) == point_code(q) {
        assert(p.0 == q.0 && p.1 == q.1) by (nonlinear_arith)
            requires
                p.0 * 15 + p.1 == q.0 * 15 + q.1,
                p.1 < 15,
                q.1 < 15,
        ;
    }
}

fn code_of(p: Point) -> (res: u16)
    requires
        p.valid(),
    ensures
        res == point_code(p),
{
    p.0 as u16 * 15 + p.1 as u16
}

/// Adds `p` to a sorted list of points, keeping it sorted and each point
/// once.
fn insert_point(v: &mut Vec<Point>, p: Point)
    requires
        sorted_points(old(v)@),
        all_valid(old(v)@),
        p.valid(),
    ensures
        sorted_points(final(v)@),
        all_valid(final(v)@),
        forall|q: Point| final(v)@.contains(q) <==> old(v)@.contains(q) || q == p,
{
    let c = code_of(p);
    let mut k: usize = 0;
    while k < v.len() && code_of(v[k]) < c
        invariant
            k <= v@.len(),
            all_valid(v@),
            c == point_code(p),
            forall|m: int| 0 <= m < k ==> point_code(#[trigger] v@[m]) < c,
        decreases v@.len() - k,
    {
        k += 1;
    }
    if k < v.len() && v[k] == p {
        return;
    }
    let ghost old_v = v@;
    proof {
        if k < old_v.len() {
            lemma_code_names(old_v[k as int], p);
        }
    }
    v.insert(k, p);
    proof {
        old_v.insert_ensures(k as int, p);
        let w = v@;
        assert forall|i: int, j: int| 0 <= i < j < w.len() implies point_code(#[trigger] w[i]) < point_code(
            #[trigger] w[j],
        ) by {
            if j < k {
            } else if j == k {
            } else if i < k {
                assert(w[j] == old_v[j - 1]);
                if j - 1 > k {
                    assert(point_code(old_v[k as int]) < point_code(old_v[j - 1]));
                }
            } else if i == k {
                assert(w[j] == old_v[j - 1]);
                if j - 1 > k {
                    assert(point_code(old_v[k as int]) < point_code(old_v[j - 1]));
                }
            } else {
                assert(w[i] == old_v[i - 1] && w[j] == old_v[j - 1]);
            }
        }
        assert forall|q: Point| w.contains(q) <==> old_v.contains(q) || q == p by {
            if w.contains(q) {
                let m = choose|m: int| 0 <= m < w.len() && w[m] == q;
                if m < k {
                    assert(old_v[m] == q);
                } else if m > k {
                    assert(old_v[m - 1] == q);
                }
            }
            if old_v.contains(q) {
                let m = choose|m: int| 0 <= m < old_v.len() && old_v[m] == q;
                if m < k {
                    assert(w[m] == q);
                } else {
                    assert(w[m + 1] == q);
                }
            }
            if q == p {
                assert(w[k as int] == q);
            }
        }
    }
}

/// The points of `v`, sorted, each once.
fn sort_dedup(v: &Vec<Point>) -> (res: Vec<Point>)
    requires
        all_valid(v@),
    ensures
        sorted_points(res@),
        all_valid(res@),
        forall|q: Point| res@.contains(q) <==> v@.contains(q),
{
    let mut res: Vec<Point> = Vec::new();
    let mut k: usize = 0;
    while k < v.len()
        invariant
            k <= v@.len(),
            all_valid(v@),
            sorted_points(res@),
            all_valid(res@),
            forall|q: Point| res@.contains(q) <==> v@.take(k as int).contains(q),
        decreases v@.len() - k,
    {
        insert_point(&mut res, v[k]);
        let ghost cur = res@;
        proof {
            assert forall|q: Point| v@.take(k + 1).contains(q) <==> v@.take(k as int).contains(q) || q == v@[k as int] by {
                if v@.take(k + 1).contains(q) {
                    let m = choose|m: int| 0 <= m < k + 1 && #[trigger] v@.take(k + 1)[m] == q;
                    if m < k {
                        assert(v@.take(k as int)[m] == q);
                    }
                }
                if v@.take(k as int).contains(q) {
                    let m = choose|m: int| 0 <= m < k && #[trigger] v@.take(k as int)[m] == q;
                    assert(v@.take(k + 1)[m] == q);
                }
                if q == v@[k as int] {
                    assert(v@.take(k + 1)[k as int] == q);
                }
            }
            assert forall|q: Point| cur.contains(q) <==> v@.take(k + 1).contains(q) by {
                assert(v@.take(k + 1).contains(q) <==> v@.take(k as int).contains(q) || q == v@[k as int]);
            }
        }
        k += 1;
    }
    assert(v@.take(k as int) =~= v@);
    res
}

/// Appends the segments `segs` of line `i` in direction `d` as rows of
/// the board, only those through `on` if it is given.
fn push_segments(out: &mut Vec<Row>, segs: &Vec<Segment>, d: Direction, i: u8, on: Option<Point>)
    requires
        forall|m: int| 0 <= m < segs@.len() ==> placeable(#[trigger] segs@[m], d, i),
        forall|m: int| 0 <= m < old(out)@.len() ==> row_valid(#[trigger] old(out)@[m]),
    ensures
        final(out)@ == old(out)@ + only_through(segs@.map_values(|r: Segment| from_row_spec(r, d, i)), on),
        forall|m: int| 0 <= m < final(out)@.len() ==> row_valid(#[trigger] final(out)@[m]),
{
    let ghost rows = segs@.map_values(|r: Segment| from_row_spec(r, d, i));
    let ghost start = out@;
    let mut k: usize = 0;
    while k < segs.len()
        invariant
            k <= segs@.len(),
            rows == segs@.map_values(|r: Segment| from_row_spec(r, d, i)),
            forall|m: int| 0 <= m < segs@.len() ==> placeable(#[trigger] segs@[m], d, i),
            out@ == start + only_through(rows.take(k as int), on),
            forall|m: int| 0 <= m < out@.len() ==> row_valid(#[trigger] out@[m]),
        decreases segs@.len() - k,
    {
        let r = Row::from_row(&segs[k], d, i);
        let ghost before = out@;
        proof {
            assert(rows.take(k + 1).drop_last() =~= rows.take(k as int));
            assert(rows.take(k + 1).last() == rows[k as int]);
            assert(rows[k as int] == r);
        }
        match on {
            Some(p) => {
                if r.overlap(p) {
                    out.push(r);
                }
                assert(only_through(rows.take(k + 1), on) == (if r.overlap_spec(p) {
                    only_through(rows.take(k as int), on).push(r)
                } else {
                    only_through(rows.take(k as int), on)
                }));
            },
            None => {
                out.push(r);
                assert(only_through(rows.take(k + 1), on) =~= only_through(rows.take(k as int), on).push(r));
            },
        }
        assert(out@ =~= start + only_through(rows.take(k + 1), on));
        k += 1;
    }
    assert(rows.take(k as int) =~= rows);
}

impl Square {
    /// Kept line `k` in reading order, with its direction and number.
    fn line_of_key(&self, k: usize) -> (res: (Direction, u8, &Line))
        requires
            self.wf(),
            k < 72,
        ensures
            key_line(k as int) == (res.0, res.1 as int),
            stored(res.0, res.1 as int),
            res.2.wf(),
            res.2@ == self@.line_spec(res.0, res.1 as int),
    {
        if k < 15 {
            (Vertical, k as u8, &self.vlines[k])
        } else if k < 30 {
            (Horizontal, (k - 15) as u8, &self.hlines[k - 15])
        } else if k < 51 {
            (Ascending, (k - 30) as u8 + D_LINE_OMIT, &self.alines[k - 30])
        } else {
            (Descending, (k - 51) as u8 + D_LINE_OMIT, &self.dlines[k - 51])
        }
    }

    /// The kept line through `p` in direction `d`, with its number.
    fn line_through(&self, p: Point, d: Direction) -> (res: Option<(u8, &Line)>)
        requires
            self.wf(),
            p.valid(),
        ensures
            res matches Some((i, line)) ==> {
                &&& i == p.index_spec(d).0
                &&& stored(d, i as int)
                &&& line.wf()
                &&& line@ == self@.line_spec(d, i as int)
            },
            res is None <==> !stored(d, p.index_spec(d).0 as int),
    {
        let idx = p.to_index(d);
        match d {
            Vertical => Some((idx.0, &self.vlines[idx.0 as usize])),
            Horizontal => Some((idx.0, &self.hlines[idx.0 as usize])),
            Ascending => {
                if bw(D_LINE_OMIT, idx.0, D_LINE_NUM + D_LINE_OMIT - 1) {
                    Some((idx.0, &self.alines[(idx.0 - D_LINE_OMIT) as usize]))
                } else {
                    None
                }
            },
            Descending => {
                if bw(D_LINE_OMIT, idx.0, D_LINE_NUM + D_LINE_OMIT - 1) {
                    Some((idx.0, &self.dlines[(idx.0 - D_LINE_OMIT) as usize]))
                } else {
                    None
                }
            },
        }
    }

    /// The rows a kept line finds can be placed on the board.
    proof fn lemma_placeable(self, d: Direction, i: u8, line: Line, player: Player, kind: RowKind)
        requires
            self.wf(),
            stored(d, i as int),
            line.wf(),
            line@ == self@.line_spec(d, i as int),
        ensures
            forall|m: int| 0 <= m < line@.rows_of(player, kind).len() ==> placeable(
                #[trigger] line@.rows_of(player, kind)[m],
                d,
                i,
            ),
    {
        line@.lemma_rows_on_line(player, kind);
        assert(line@.size == line_size(d, i as int));
    }

    /// `player`'s rows of kind `kind` on every kept line: the vertical
    /// lines from the left, the horizontal ones from the bottom, then the
    /// ascending and the descending diagonals.
    pub fn rows(&self, player: Player, kind: RowKind) -> (res: Vec<Row>)
        requires
            self.wf(),
        ensures
            res@ == self@.rows_spec(player, kind),
            forall|m: int| 0 <= m < res@.len() ==> row_valid(#[trigger] res@[m]),
    {
        let mut res: Vec<Row> = Vec::new();
        let mut k: usize = 0;
        while k < 72
            invariant
                self.wf(),
                k <= 72,
                res@ == self@.rows_upto(player, kind, k as int),
                forall|m: int| 0 <= m < res@.len() ==> row_valid(#[trigger] res@[m]),
            decreases 72 - k,
        {
            let (d, i, line) = self.line_of_key(k);
            let segs = line.find_rows(player, kind);
            proof {
                self.lemma_placeable(d, i, *line, player, kind);
            }
            push_segments(&mut res, &segs, d, i, None);
            k += 1;
        }
        res
    }

    /// `player`'s rows of kind `kind` on the kept lines through `p`, only
    /// those through `p` itself if `on`.
    fn rows_through(&self, player: Player, kind: RowKind, p: Point, on: bool) -> (res: Vec<Row>)
        requires
            self.wf(),
            p.valid(),
        ensures
            res@ == self@.rows_through_upto(player, kind, p, on, 4),
            forall|m: int| 0 <= m < res@.len() ==> row_valid(#[trigger] res@[m]),
    {
        let mut res: Vec<Row> = Vec::new();
        let dirs = [Vertical, Horizontal, Ascending, Descending];
        assert(dirs@ == directions());
        let mut n: usize = 0;
        while n < 4
            invariant
                self.wf(),
                p.valid(),
                dirs@ == directions(),
                n <= 4,
                res@ == self@.rows_through_upto(player, kind, p, on, n as int),
                forall|m: int| 0 <= m < res@.len() ==> row_valid(#[trigger] res@[m]),
            decreases 4 - n,
        {
            let d = dirs[n];
            if let Some((i, line)) = self.line_through(p, d) {
                let segs = line.find_rows(player, kind);
                proof {
                    self.lemma_placeable(d, i, *line, player, kind);
                }
                let filter = if on {
                    Some(p)
                } else {
                    None
                };
                push_segments(&mut res, &segs, d, i, filter);
            }
            n += 1;
        }
        res
    }

    /// `player`'s rows of kind `kind` through `p`.
    pub fn rows_on(&self, player: Player, kind: RowKind, p: Point) -> (res: Vec<Row>)
        requires
            self.wf(),
            p.valid(),
        ensures
            res@ == self@.rows_on_spec(player, kind, p),
            forall|m: int| 0 <= m < res@.len() ==> row_valid(#[trigger] res@[m]),
    {
        self.rows_through(player, kind, p, true)
    }

    /// The eyes of `rows`, row by row.
    fn eyes_in(rows: &Vec<Row>) -> (res: Vec<Point>)
        requires
            forall|m: int| 0 <= m < rows@.len() ==> row_valid(#[trigger] rows@[m]),
        ensures
            res@ == eyes_of_rows(rows@),
            all_valid(res@),
    {
        let mut res: Vec<Point> = Vec::new();
        let mut k: usize = 0;
        while k < rows.len()
            invariant
                k <= rows@.len(),
                forall|m: int| 0 <= m < rows@.len() ==> row_valid(#[trigger] rows@[m]),
                res@ == eyes_of_rows(rows@.take(k as int)),
                all_valid(res@),
            decreases rows@.len() - k,
        {
            let eyes = rows[k].into_iter_eyes();
            let mut m: usize = 0;
            let ghost before = res@;
            assert(row_valid(rows@[k as int]));
            while m < eyes.len()
                invariant
                    m <= eyes@.len(),
                    eyes@ == eyes_spec(rows@[k as int]),
                    row_valid(rows@[k as int]),
                    res@ == before + eyes@.take(m as int),
                    all_valid(before),
                    all_valid(res@),
                decreases eyes@.len() - m,
            {
                res.push(eyes[m]);
                assert(eyes@.take(m + 1) =~= eyes@.take(m as int).push(eyes@[m as int]));
                m += 1;
            }
            assert(rows@.take(k + 1).drop_last() =~= rows@.take(k as int));
            assert(eyes@.take(m as int) =~= eyes@);
            k += 1;
        }
        assert(rows@.take(k as int) =~= rows@);
        res
    }

    /// The eyes of `player`'s rows of kind `kind`, sorted, each once.
    pub fn row_eyes(&self, player: Player, kind: RowKind) -> (res: Vec<Point>)
        requires
            self.wf(),
        ensures
            sorted_points(res@),
            all_valid(res@),
            forall|q: Point| res@.contains(q) <==> eyes_of_rows(self@.rows_spec(player, kind)).contains(q),
    {
        let rows = self.rows(player, kind);
        let eyes = Self::eyes_in(&rows);
        sort_dedup(&eyes)
    }

    /// The eyes of `player`'s rows of kind `kind` on the kept lines through
    /// `p`, sorted, each once.
    pub fn row_eyes_along(&self, player: Player, kind: RowKind, p: Point) -> (res: Vec<Point>)
        requires
            self.wf(),
            p.valid(),
        ensures
            sorted_points(res@),
            all_valid(res@),
            forall|q: Point| res@.contains(q) <==> eyes_of_rows(self@.rows_along_spec(player, kind, p)).contains(q),
    {
        let rows = self.rows_through(player, kind, p, false);
        let eyes = Self::eyes_in(&rows);
        sort_dedup(&eyes)
    }
}


/// The stone on `p` after `blacks`, then `whites`, are put on an empty
/// board: the last put wins.
pub open spec fn stone_of_lists(blacks: Seq<Point>, whites: Seq<Point>, p: Point) -> Option<Player> {
    if whites.contains(p) {
        Some(Player::White)
    } else if blacks.contains(p) {
        Some(Player::Black)
    } else {
        None
    }
}

/// Lines written one under another.
pub open spec fn lines_text(ls: Seq<LineBits>) -> Seq<char>
    decreases ls.len(),
{
    if ls.len() == 0 {
        Seq::empty()
    } else if ls.len() == 1 {
        line_text(ls[0])
    } else {
        lines_text(ls.drop_last()) + seq!['\n'] + line_text(ls.last())
    }
}

/// The board written row by row, the top row first.
pub open spec fn square_text(m: SquareModel) -> Seq<char> {
    lines_text(Seq::new(15, |k: int| m.h[14 - k]))
}

/// The rows of a board written out, top row first, each trimmed.
pub open spec fn display_rows(cs: Seq<char>) -> Seq<Seq<char>> {
    split_at(trimmed(cs), '\n').map_values(|l: Seq<char>| trimmed(l))
}

/// Whether `cs` writes a board row by row: fifteen rows of fifteen cells.
pub open spec fn display_ok(cs: Seq<char>) -> bool {
    let rows = display_rows(cs);
    rows.len() == 15 && forall|k: int| 0 <= k < 15 ==> (#[trigger] rows[k]).len() == 15
}

/// The stone the board written `cs` row by row has on `p`.
pub open spec fn display_stone(cs: Seq<char>, p: Point) -> Option<Player> {
    stone_of_char(display_rows(cs)[14 - p.1][p.0 as int])
}

/// Whether a row of the board written `cs` row by row has more than
/// fifteen cells.
pub open spec fn display_too_long(cs: Seq<char>) -> bool {
    exists|j: int| 0 <= j < display_rows(cs).len() && (#[trigger] display_rows(cs)[j]).len() > BOARD_SIZE
}

/// What reading `cs` row by row fails with: a row too long, else the wrong
/// number of rows, else a row too short.
pub open spec fn display_error(cs: Seq<char>) -> Seq<char> {
    if display_too_long(cs) {
        "Wrong length."@
    } else if display_rows(cs).len() != 15 {
        "Wrong num of lines"@
    } else {
        "Wrong line size"@
    }
}

/// What reading `cs` as `blacks/whites` fails with: not two parts, else
/// the error of the black points, else that of the white ones.
pub open spec fn format_error(cs: Seq<char>) -> Seq<char> {
    let parts = split_at(trimmed(cs), '/');
    if parts.len() != 2 {
        "Unknown format."@
    } else if points_of_text(parts[0]) is None {
        points_text_error(parts[0])
    } else {
        points_text_error(parts[1])
    }
}

/// The black and the white stones of a board written like `H8,J9/I9`.
pub open spec fn points_format(cs: Seq<char>) -> Option<(Seq<Point>, Seq<Point>)> {
    let parts = split_at(trimmed(cs), '/');
    if parts.len() != 2 {
        None
    } else {
        match (points_of_text(parts[0]), points_of_text(parts[1])) {
            (Some(b), Some(w)) => Some((b, w)),
            _ => None,
        }
    }
}

/// The black (or, if not `black`, the white) stones of a board written
/// like `H8,J9/I9`.
pub open spec fn format_stones(cs: Seq<char>, black: bool) -> Seq<Point> {
    match points_format(cs) {
        Some((b, w)) => if black { b } else { w },
        None => Seq::empty(),
    }
}

/// A copy of the lines.
fn copy_lines(v: &Vec<Line>) -> (res: Vec<Line>)
    ensures
        res@ == v@,
{
    let mut res: Vec<Line> = Vec::new();
    let mut k: usize = 0;
    while k < v.len()
        invariant
            k <= v@.len(),
            res@ == v@.take(k as int),
        decreases v@.len() - k,
    {
        res.push(v[k]);
        assert(v@.take(k + 1) =~= v@.take(k as int).push(v@[k as int]));
        k += 1;
    }
    assert(v@.take(k as int) =~= v@);
    res
}

/// Whether the lines hold the same stones.
fn lines_eq(a: &Vec<Line>, b: &Vec<Line>) -> (res: bool)
    ensures
        res == (bits_of(a@) == bits_of(b@)),
{
    if a.len() != b.len() {
        assert(bits_of(a@).len() != bits_of(b@).len());
        return false;
    }
    let mut k: usize = 0;
    while k < a.len()
        invariant
            a@.len() == b@.len(),
            k <= a@.len(),
            forall|m: int| 0 <= m < k ==> (#[trigger] a@[m])@ == b@[m]@,
        decreases a@.len() - k,
    {
        if a[k] != b[k] {
            assert(bits_of(a@)[k as int] != bits_of(b@)[k as int]);
            return false;
        }
        k += 1;
    }
    assert(bits_of(a@) =~= bits_of(b@));
    true
}

/// Whether `cs` holds `c`.
fn has_char(cs: &Vec<char>, c: char) -> (res: bool)
    ensures
        res == cs@.contains(c),
{
    let mut k: usize = 0;
    while k < cs.len()
        invariant
            k <= cs@.len(),
            forall|m: int| 0 <= m < k ==> cs@[m] != c,
        decreases cs@.len() - k,
    {
        if cs[k] == c {
            return true;
        }
        k += 1;
    }
    false
}

impl Square {
    /// A copy of the board.
    pub fn duplicate(&self) -> (res: Square)
        requires
            self.wf(),
        ensures
            res.wf(),
            res@ == self@,
    {
        Square {
            vlines: copy_lines(&self.vlines),
            hlines: copy_lines(&self.hlines),
            alines: copy_lines(&self.alines),
            dlines: copy_lines(&self.dlines),
        }
    }

    /// The kept lines in direction `d`.
    pub fn lines_of(&self, d: Direction) -> (res: &Vec<Line>)
        requires
            self.wf(),
        ensures
            bits_of(res@) == self@.lines_of(d),
            lines_wf(res@),
    {
        match d {
            Vertical => &self.vlines,
            Horizontal => &self.hlines,
            Ascending => &self.alines,
            Descending => &self.dlines,
        }
    }

    /// The board with `blacks`' stones, then `whites`' stones, put on it.
    pub fn from_points(blacks: Points, whites: Points) -> (res: Square)
        requires
            all_valid(blacks.0@),
            all_valid(whites.0@),
        ensures
            res.wf(),
            forall|p: Point| p.valid() ==> #[trigger] res@.stone_at(p) == stone_of_lists(blacks.0@, whites.0@, p),
    {
        let mut square = Square::new();
        let bs = blacks.0;
        let ws = whites.0;
        let mut k: usize = 0;
        assert(bs@.take(0) =~= Seq::<Point>::empty());
        while k < bs.len()
            invariant
                square.wf(),
                all_valid(bs@),
                k <= bs@.len(),
                forall|q: Point| q.valid() ==> #[trigger] square@.stone_at(q) == (if bs@.take(k as int).contains(q) {
                    Some(Player::Black)
                } else {
                    None
                }),
            decreases bs@.len() - k,
        {
            let p = bs[k];
            square.put(Player::Black, p);
            proof {
                assert forall|q: Point| bs@.take(k + 1).contains(q) <==> bs@.take(k as int).contains(q) || q == p by {
                    if bs@.take(k + 1).contains(q) {
                        let m = choose|m: int| 0 <= m < k + 1 && #[trigger] bs@.take(k + 1)[m] == q;
                        if m < k {
                            assert(bs@.take(k as int)[m] == q);
                        }
                    }
                    if bs@.take(k as int).contains(q) {
                        let m = choose|m: int| 0 <= m < k && #[trigger] bs@.take(k as int)[m] == q;
                        assert(bs@.take(k + 1)[m] == q);
                    }
                    if q == p {
                        assert(bs@.take(k + 1)[k as int] == q);
                    }
                }
            }
            k += 1;
        }
        assert(bs@.take(k as int) =~= bs@);
        let mut k: usize = 0;
        assert(ws@.take(0) =~= Seq::<Point>::empty());
        while k < ws.len()
            invariant
                square.wf(),
                all_valid(ws@),
                k <= ws@.len(),
                forall|q: Point| q.valid() ==> #[trigger] square@.stone_at(q) == stone_of_lists(bs@, ws@.take(k as int), q),
            decreases ws@.len() - k,
        {
            let p = ws[k];
            square.put(Player::White, p);
            proof {
                assert forall|q: Point| ws@.take(k + 1).contains(q) <==> ws@.take(k as int).contains(q) || q == p by {
                    if ws@.take(k + 1).contains(q) {
                        let m = choose|m: int| 0 <= m < k + 1 && #[trigger] ws@.take(k + 1)[m] == q;
                        if m < k {
                            assert(ws@.take(k as int)[m] == q);
                        }
                    }
                    if ws@.take(k as int).contains(q) {
                        let m = choose|m: int| 0 <= m < k && #[trigger] ws@.take(k as int)[m] == q;
                        assert(ws@.take(k + 1)[m] == q);
                    }
                    if q == p {
                        assert(ws@.take(k + 1)[k as int] == q);
                    }
                }
            }
            k += 1;
        }
        assert(ws@.take(k as int) =~= ws@);
        square
    }

    /// The board written row by row, the top row first: `o` for black,
    /// `x` for white, `-` for an empty point.
    pub fn to_string(&self) -> (res: String)
        requires
            self.wf(),
        ensures
            res@ == square_text(self@),
    {
        let ghost rows = Seq::new(15, |k: int| self@.h[14 - k]);
        let mut res = String::new();
        let mut k: usize = 0;
        while k < 15
            invariant
                self.wf(),
                rows == Seq::new(15, |k: int| self@.h[14 - k]),
                k <= 15,
                res@ == lines_text(rows.take(k as int)),
            decreases 15 - k,
        {
            if k > 0 {
                push_char(&mut res, '\n');
            }
            let line = &self.hlines[14 - k];
            assert(line@ == rows[k as int]);
            assert(line.wf()) by {
                assert(lines_wf(self.hlines@));
            }
            let text = line.to_string();
            let ghost before = res@;
            let cs = chars_of(text.as_str());
            let mut m: usize = 0;
            while m < cs.len()
                invariant
                    res@ == before + cs@.take(m as int),
                    m <= cs@.len(),
                decreases cs@.len() - m,
            {
                push_char(&mut res, cs[m]);
                assert(cs@.take(m + 1) =~= cs@.take(m as int).push(cs@[m as int]));
                m += 1;
            }
            assert(cs@.take(m as int) =~= cs@);
            assert(rows.take(k + 1).drop_last() =~= rows.take(k as int));
            k += 1;
        }
        assert(rows.take(15) =~= rows);
        res
    }

    /// Reads a board written like `H8,J9/I9` (the black stones, a slash,
    /// the white stones) when the text has a slash, or else row by row
    /// as [`Self::to_string`] writes it.
    pub fn parse(s: &str) -> (res: Result<Square, &'static str>)
        ensures
            s@.contains('/') ==> (res is Ok <==> points_format(s@) is Some),
            s@.contains('/') ==> (res matches Ok(sq) ==> sq.wf() && forall|p: Point|
                p.valid() ==> #[trigger] sq@.stone_at(p) == stone_of_lists(
                    format_stones(s@, true),
                    format_stones(s@, false),
                    p,
                )),
            !s@.contains('/') ==> (res is Ok <==> display_ok(s@)),
            !s@.contains('/') ==> (res matches Ok(sq) ==> sq.wf() && forall|p: Point|
                p.valid() ==> #[trigger] sq@.stone_at(p) == display_stone(s@, p)),
            res matches Err(e) ==> e@ == (if s@.contains('/') { format_error(s@) } else { display_error(s@) }),
    {
        let cs = chars_of(s);
        if has_char(&cs, '/') {
            from_chars_points(&cs)
        } else {
            from_chars_display(&cs)
        }
    }
}

/// Reads a board written like `H8,J9/I9`.
fn from_chars_points(cs: &Vec<char>) -> (res: Result<Square, &'static str>)
    ensures
        res is Ok <==> points_format(cs@) is Some,
        res matches Err(e) ==> e@ == format_error(cs@),
        res matches Ok(sq) ==> sq.wf() && forall|p: Point|
            p.valid() ==> #[trigger] sq@.stone_at(p) == stone_of_lists(
                format_stones(cs@, true),
                format_stones(cs@, false),
                p,
            ),
{
    let t = trim(cs);
    let codes = split_chars(&t, '/');
    if codes.len() != 2 {
        return Err("Unknown format.");
    }
    let blacks = match Points::parse_chars(&codes[0]) {
        Ok(ps) => ps,
        Err(e) => {
            return Err(e);
        },
    };
    let whites = match Points::parse_chars(&codes[1]) {
        Ok(ps) => ps,
        Err(e) => {
            return Err(e);
        },
    };
    Ok(Square::from_points(blacks, whites))
}

/// Reads a board written row by row, the top row first.
fn from_chars_display(cs: &Vec<char>) -> (res: Result<Square, &'static str>)
    ensures
        res is Ok <==> display_ok(cs@),
        res matches Err(e) ==> e@ == display_error(cs@),
        res matches Ok(sq) ==> sq.wf() && forall|p: Point| p.valid() ==> #[trigger] sq@.stone_at(p) == display_stone(cs@, p),
{
    let t = trim(cs);
    let parts = split_chars(&t, '\n');
    let ghost rows = display_rows(cs@);
    let mut hlines_rev: Vec<Line> = Vec::new();
    let mut k: usize = 0;
    while k < parts.len()
        invariant
            t@ == trimmed(cs@),
            rows == display_rows(cs@),
            parts@.len() == rows.len(),
            forall|j: int| 0 <= j < parts@.len() ==> trimmed((#[trigger] parts@[j])@) == rows[j],
            k <= parts@.len(),
            hlines_rev@.len() == k,
            forall|j: int| 0 <= j < k ==> rows[j].len() <= BOARD_SIZE,
            forall|j: int|
                0 <= j < k ==> {
                    &&& (#[trigger] hlines_rev@[j]).wf()
                    &&& hlines_rev@[j].size == rows[j].len()
                    &&& forall|x: int| 0 <= x < rows[j].len() ==> #[trigger] hlines_rev@[j]@.cell(x) == stone_of_char(rows[j][x])
                },
        decreases parts@.len() - k,
    {
        let part = trim(&parts[k]);
        match Line::parse_chars(&part) {
            Ok(line) => {
                hlines_rev.push(line);
            },
            Err(e) => {
                assert(rows[k as int].len() > BOARD_SIZE);
                return Err(e);
            },
        }
        k += 1;
    }
    assert(!display_too_long(cs@));
    if hlines_rev.len() != 15 {
        return Err("Wrong num of lines");
    }
    let mut square = Square::new();
    let mut y: usize = 0;
    while y < 15
        invariant
            hlines_rev@.len() == 15,
            rows == display_rows(cs@),
            rows.len() == 15,
            !display_too_long(cs@),
            forall|j: int|
                0 <= j < 15 ==> {
                    &&& (#[trigger] hlines_rev@[j]).wf()
                    &&& hlines_rev@[j].size == rows[j].len()
                    &&& forall|x: int| 0 <= x < rows[j].len() ==> #[trigger] hlines_rev@[j]@.cell(x) == stone_of_char(rows[j][x])
                },
            forall|j: int| 14 - y < j < 15 ==> (#[trigger] rows[j]).len() == 15,
            y <= 15,
            square.wf(),
            forall|q: Point| q.valid() ==> #[trigger] square@.stone_at(q) == (if q.1 < y {
                display_stone(cs@, q)
            } else {
                None
            }),
        decreases 15 - y,
    {
        let hline = &hlines_rev[14 - y];
        if hline.size != BOARD_SIZE {
            assert(!display_ok(cs@)) by {
                assert(rows[14 - y as int].len() != 15);
            }
            return Err("Wrong line size");
        }
        let stones = hline.stones();
        let mut x: usize = 0;
        while x < 15
            invariant
                hline.wf(),
                hline.size == 15,
                stones@.len() == 15,
                forall|m: int| 0 <= m < 15 ==> #[trigger] stones@[m] == hline@.cell(m),
                rows.len() == 15,
                rows[14 - y as int].len() == 15,
                forall|m: int| 0 <= m < 15 ==> #[trigger] hline@.cell(m) == stone_of_char(rows[14 - y as int][m]),
                rows == display_rows(cs@),
                y < 15,
                x <= 15,
                square.wf(),
                forall|q: Point| q.valid() ==> #[trigger] square@.stone_at(q) == (if q.1 < y || (q.1 == y && q.0 < x) {
                    display_stone(cs@, q)
                } else {
                    None
                }),
            decreases 15 - x,
        {
            let point = Point(x as u8, y as u8);
            match stones[x] {
                Some(player) => square.put(player, point),
                None => (),
            }
            x += 1;
        }
        y += 1;
    }
    Ok(square)
}

impl PartialEq for Square {
    fn eq(&self, other: &Self) -> (res: bool) {
        lines_eq(&self.vlines, &other.vlines) && lines_eq(&self.hlines, &other.hlines) && lines_eq(
            &self.alines,
            &other.alines,
        ) && lines_eq(&self.dlines, &other.dlines)
    }
}

impl vstd::std_specs::cmp::PartialEqSpecImpl for Square {
    open spec fn obeys_eq_spec() -> bool {
        true
    }

    open spec fn eq_spec(&self, other: &Self) -> bool {
        self@.v == other@.v && self@.h == other@.h && self@.a == other@.a && self@.d == other@.d
    }
}

impl Eq for Square {
}


/// The first reading-order key of the lines in direction `d`.
pub open spec fn block_start(d: Direction) -> int {
    match d {
        Vertical => 0,
        Horizontal => 15,
        Ascending => 30,
        Descending => 51,
    }
}

/// The number of the first kept line in direction `d`.
pub open spec fn first_line(d: Direction) -> int {
    match d {
        Vertical | Horizontal => 0,
        _ => D_LINE_OMIT as int,
    }
}

/// How many lines are kept in direction `d`.
pub open spec fn block_len(d: Direction) -> int {
    match d {
        Vertical | Horizontal => 15,
        _ => D_LINE_NUM as int,
    }
}

/// Keeping the rows through `p` of two lists of rows, one after the other.
proof fn lemma_rows_over_add(x: Seq<Row>, y: Seq<Row>, p: Point)
    ensures
        rows_over(x + y, p) == rows_over(x, p) + rows_over(y, p),
    decreases y.len(),
{
    if y.len() == 0 {
        assert(x + y =~= x);
        assert(rows_over(x, p) + rows_over(y, p) =~= rows_over(x, p));
    } else {
        lemma_rows_over_add(x, y.drop_last(), p);
        assert((x + y).drop_last() =~= x + y.drop_last());
        assert((x + y).last() == y.last());
        assert(rows_over(x, p) + rows_over(y, p) =~= if y.last().overlap_spec(p) {
            (rows_over(x, p) + rows_over(y.drop_last(), p)).push(y.last())
        } else {
            rows_over(x, p) + rows_over(y.drop_last(), p)
        });
    }
}

/// None of the rows is through `p`.
proof fn lemma_rows_over_none(rows: Seq<Row>, p: Point)
    requires
        forall|m: int| 0 <= m < rows.len() ==> !(#[trigger] rows[m]).overlap_spec(p),
    ensures
        rows_over(rows, p) == Seq::<Row>::empty(),
    decreases rows.len(),
{
    if rows.len() > 0 {
        let init = rows.drop_last();
        assert forall|m: int| 0 <= m < init.len() implies !(#[trigger] init[m]).overlap_spec(p) by {
            assert(init[m] == rows[m]);
        }
        lemma_rows_over_none(init, p);
        assert(!rows[rows.len() - 1].overlap_spec(p));
    }
}

/// A row of line `i` in direction `d` through `p` puts `p` on that line.
proof fn lemma_overlap_line(seg: Segment, d: Direction, i: u8, p: Point)
    requires
        placeable(seg, d, i),
        p.valid(),
        from_row_spec(seg, d, i).overlap_spec(p),
    ensures
        p.index_spec(d).0 == i,
{
}

/// No row of a kept line other than `p`'s own in direction `d` is through
/// `p`.
proof fn lemma_line_off_point(g: SquareModel, d: Direction, i: int, player: Player, kind: RowKind, p: Point)
    requires
        g.wf(),
        stored(d, i),
        p.valid(),
        i != p.index_spec(d).0,
    ensures
        rows_over(rows_in(d, i, g.line_spec(d, i), player, kind), p) == Seq::<Row>::empty(),
{
    let line = g.line_spec(d, i);
    let rows = rows_in(d, i, line, player, kind);
    line.lemma_rows_on_line(player, kind);
    assert forall|m: int| 0 <= m < rows.len() implies !(#[trigger] rows[m]).overlap_spec(p) by {
        let seg = line.rows_of(player, kind)[m];
        assert(row_on_line(seg, line));
        assert(placeable(seg, d, i as u8));
        if rows[m].overlap_spec(p) {
            lemma_overlap_line(seg, d, i as u8, p);
        }
    }
    lemma_rows_over_none(rows, p);
}

/// The rows through `p` among those of the lines read up to key `n`, for
/// `n` within the lines of direction `d`: those read before the block,
/// then, once its key is passed, those of `p`'s own line in direction
/// `d`.
proof fn lemma_block(g: SquareModel, player: Player, kind: RowKind, p: Point, d: Direction, n: int)
    requires
        g.wf(),
        p.valid(),
        block_start(d) <= n <= block_start(d) + block_len(d),
    ensures
        rows_over(g.rows_upto(player, kind, n), p) == rows_over(g.rows_upto(player, kind, block_start(d)), p) + ({
            let ip = p.index_spec(d).0 as int;
            if stored(d, ip) && ip - first_line(d) + block_start(d) < n {
                rows_over(rows_in(d, ip, g.line_spec(d, ip), player, kind), p)
            } else {
                Seq::<Row>::empty()
            }
        }),
    decreases n - block_start(d),
{
    let ip = p.index_spec(d).0 as int;
    lemma_point_roundtrip(p, d);
    if n == block_start(d) {
        assert(rows_over(g.rows_upto(player, kind, n), p) + Seq::<Row>::empty() =~= rows_over(
            g.rows_upto(player, kind, n),
            p,
        ));
    } else {
        lemma_block(g, player, kind, p, d, n - 1);
        let (dd, i) = key_line(n - 1);
        assert(dd == d && i == n - 1 - block_start(d) + first_line(d));
        assert(stored(d, i));
        let more = rows_in(d, i, g.line_spec(d, i), player, kind);
        lemma_rows_over_add(g.rows_upto(player, kind, n - 1), more, p);
        let before = rows_over(g.rows_upto(player, kind, block_start(d)), p);
        if i == ip {
            assert(before + Seq::<Row>::empty() + rows_over(more, p) =~= before + rows_over(more, p));
        } else {
            lemma_line_off_point(g, d, i, player, kind, p);
            let prev = if stored(d, ip) && ip - first_line(d) + block_start(d) < n - 1 {
                rows_over(rows_in(d, ip, g.line_spec(d, ip), player, kind), p)
            } else {
                Seq::<Row>::empty()
            };
            assert(before + prev + Seq::<Row>::empty() =~= before + prev);
        }
    }
}

/// The rows through `p` are the rows of the whole board that are through
/// `p`, in the same order: [`Square::rows_on`] is [`Square::rows`] kept to
/// the rows through the point.
pub proof fn lemma_rows_on_are_rows_through(g: SquareModel, player: Player, kind: RowKind, p: Point)
    requires
        g.wf(),
        p.valid(),
    ensures
        g.rows_on_spec(player, kind, p) == rows_over(g.rows_spec(player, kind), p),
{
    lemma_block(g, player, kind, p, Vertical, 15);
    lemma_block(g, player, kind, p, Horizontal, 30);
    lemma_block(g, player, kind, p, Ascending, 51);
    lemma_block(g, player, kind, p, Descending, 72);
    assert(g.rows_upto(player, kind, 0) =~= Seq::<Row>::empty());
    assert(rows_over(Seq::<Row>::empty(), p) =~= Seq::<Row>::empty());
    let r0 = g.rows_through_upto(player, kind, p, true, 0);
    let r1 = g.rows_through_upto(player, kind, p, true, 1);
    let r2 = g.rows_through_upto(player, kind, p, true, 2);
    let r3 = g.rows_through_upto(player, kind, p, true, 3);
    let r4 = g.rows_through_upto(player, kind, p, true, 4);
    assert(r0 =~= Seq::<Row>::empty());
    assert(r1 =~= rows_over(g.rows_upto(player, kind, 15), p));
    assert(r2 =~= rows_over(g.rows_upto(player, kind, 30), p));
    assert(r3 =~= rows_over(g.rows_upto(player, kind, 51), p));
    assert(r4 =~= rows_over(g.rows_upto(player, kind, 72), p));
}

/// No bit at or past `s` is set in a mask that is clear from `s` on.
proof fn lemma_bits_beyond(b: u16, s: u16, k: u16)
    by (bit_vector)
    requires
        b >> s == 0,
        s <= k < 16,
    ensures
        (b >> k) & 1 != 1,
{
}

/// Two lines whose masks fit them, with the same size and the same stone
/// on every cell, are the same line.
proof fn lemma_same_line(a: LineBits, b: LineBits)
    requires
        a.mask_ok(),
        b.mask_ok(),
        a.size == b.size,
        forall|k: int| 0 <= k < a.size ==> #[trigger] a.cell(k) == b.cell(k),
    ensures
        a == b,
{
    assert forall|k: u16| k < 16 implies crate::board::util::bit_of(a.blacks, k) == crate::board::util::bit_of(b.blacks, k)
        && crate::board::util::bit_of(a.whites, k) == crate::board::util::bit_of(b.whites, k) by {
        if k < a.size {
            crate::board::util::lemma_u16_bits(a.blacks, a.whites, 0, k, 0);
            crate::board::util::lemma_u16_bits(b.blacks, b.whites, 0, k, 0);
            assert(a.cell(k as int) == b.cell(k as int));
        } else {
            lemma_bits_beyond(a.blacks, a.size as u16, k);
            lemma_bits_beyond(b.blacks, b.size as u16, k);
            lemma_bits_beyond(a.whites, a.size as u16, k);
            lemma_bits_beyond(b.whites, b.size as u16, k);
        }
    }
    lemma_same_bits(a.blacks, b.blacks);
    lemma_same_bits(a.whites, b.whites);
}

/// Two boards whose lines agree, with the same stone on every point, are
/// the same board.
pub proof fn lemma_same_stones(a: SquareModel, b: SquareModel)
    requires
        a.wf(),
        b.wf(),
        forall|p: Point| p.valid() ==> #[trigger] a.stone_at(p) == b.stone_at(p),
    ensures
        a == b,
{
    assert forall|d: Direction, i: int| stored(d, i) implies #[trigger] a.line_spec(d, i) == b.line_spec(d, i) by {
        assert forall|k: int| 0 <= k < a.line_spec(d, i).size implies #[trigger] a.line_spec(d, i).cell(k) == b.line_spec(d, i).cell(k) by {
            let idx = Index(i as u8, k as u8);
            assert(idx.valid_for(d));
            lemma_index_roundtrip(idx, d);
            assert(a.line_spec(d, idx.0 as int).cell(idx.1 as int) == a.stone_at(idx.point_spec(d)));
            assert(b.line_spec(d, idx.0 as int).cell(idx.1 as int) == b.stone_at(idx.point_spec(d)));
        }
        lemma_same_line(a.line_spec(d, i), b.line_spec(d, i));
    }
    assert forall|k: int| 0 <= k < 15 implies a.v[k] == b.v[k] && a.h[k] == b.h[k] by {
        assert(a.line_spec(Vertical, k) == b.line_spec(Vertical, k));
        assert(a.line_spec(Horizontal, k) == b.line_spec(Horizontal, k));
    }
    assert forall|k: int| 0 <= k < 21 implies a.a[k] == b.a[k] && a.d[k] == b.d[k] by {
        assert(a.line_spec(Ascending, k + 4) == b.line_spec(Ascending, k + 4));
        assert(a.line_spec(Descending, k + 4) == b.line_spec(Descending, k + 4));
    }
    assert(a.v =~= b.v);
    assert(a.h =~= b.h);
    assert(a.a =~= b.a);
    assert(a.d =~= b.d);
}

/// Lines written out one a row, cut at the line breaks, are the lines
/// written one by one; the text starts and ends with a cell character and
/// has no slash.
proof fn lemma_lines_text_parts(ls: Seq<LineBits>)
    requires
        ls.len() > 0,
        forall|k: int| 0 <= k < ls.len() ==> (#[trigger] ls[k]).size >= 1,
    ensures
        split_at(lines_text(ls), '\n') == ls.map_values(|l: LineBits| line_text(l)),
        lines_text(ls).len() > 0,
        !whitespace(lines_text(ls)[0]),
        !whitespace(lines_text(ls).last()),
        forall|k: int| 0 <= k < lines_text(ls).len() ==> #[trigger] lines_text(ls)[k] != '/',
    decreases ls.len(),
{
    let last = ls.last();
    assert(ls[ls.len() - 1] == last);
    let lt = line_text(last);
    assert(forall|k: int| 0 <= k < lt.len() ==> #[trigger] lt[k] != '\n' && lt[k] != '/' && !whitespace(lt[k]));
    if ls.len() == 1 {
        lemma_split_sep(Seq::empty(), lt, '\n');
        assert(ls.map_values(|l: LineBits| line_text(l)) =~= seq![lt]);
    } else {
        let init = ls.drop_last();
        assert forall|k: int| 0 <= k < init.len() implies (#[trigger] init[k]).size >= 1 by {
            assert(init[k] == ls[k]);
        }
        lemma_lines_text_parts(init);
        lemma_split_sep(lines_text(init), lt, '\n');
        assert(ls.map_values(|l: LineBits| line_text(l)) =~= init.map_values(|l: LineBits| line_text(l)).push(lt));
        let t = lines_text(ls);
        assert(t == lines_text(init) + seq!['\n'] + lt);
        assert(t[0] == lines_text(init)[0]);
        assert forall|k: int| 0 <= k < t.len() implies #[trigger] t[k] != '/' by {
            if k < lines_text(init).len() {
                assert(t[k] == lines_text(init)[k]);
            } else if k > lines_text(init).len() {
                assert(t[k] == lt[k - lines_text(init).len() - 1]);
            }
        }
    }
}

/// A board written out by [`Square::to_string`] reads back by
/// [`Square::parse`] as the same board: the text is read row by row, and
/// whatever board the reading gives (`read`) is this one.
pub proof fn lemma_square_text_roundtrip(m: SquareModel, read: SquareModel)
    requires
        m.wf(),
        read.wf(),
        forall|p: Point| p.valid() ==> #[trigger] read.stone_at(p) == display_stone(square_text(m), p),
    ensures
        !square_text(m).contains('/'),
        display_ok(square_text(m)),
        read == m,
{
    let ls = Seq::new(15, |k: int| m.h[14 - k]);
    assert forall|k: int| 0 <= k < 15 implies (#[trigger] ls[k]).size == 15 by {
        assert(m.line_spec(Horizontal, 14 - k).size == line_size(Horizontal, 14 - k));
    }
    lemma_lines_text_parts(ls);
    let t = square_text(m);
    assert(t == lines_text(ls));
    assert(trimmed(t) == t);
    let parts = split_at(t, '\n');
    assert forall|k: int| 0 <= k < 15 implies #[trigger] display_rows(t)[k] == line_text(m.h[14 - k]) by {
        let l = line_text(m.h[14 - k]);
        assert(parts[k] == l);
        assert(ls[k] == m.h[14 - k]);
        assert(l.len() == 15);
        assert(!whitespace(l[0]) && !whitespace(l.last()));
        assert(trimmed(l) == l);
    }
    assert forall|p: Point| p.valid() implies #[trigger] display_stone(t, p) == m.stone_at(p) by {
        let k = 14 - p.1;
        assert(display_rows(t)[k] == line_text(m.h[14 - k]));
        let idx = Index(p.1, p.0);
        assert(idx.valid_for(Horizontal));
        assert(idx.point_spec(Horizontal) == p);
        assert(m.line_spec(Horizontal, p.1 as int).cell(p.0 as int) == m.stone_at(p));
    }
    assert forall|p: Point| p.valid() implies #[trigger] read.stone_at(p) == m.stone_at(p) by {
        assert(display_stone(t, p) == m.stone_at(p));
    }
    lemma_same_stones(read, m);
}

} // verus!
