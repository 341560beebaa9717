use vstd::prelude::*;
use super::line::{lemma_with_cell, Line, MAX_SIZE};
use super::player::{Black, Player, White};
use super::point::{
    lemma_index_point_roundtrip, lemma_point_index_roundtrip, max_j, Ascending, Descending,
    Direction, Horizontal, Index, Point, Points, Vertical, RANGE,
};
use super::notation::{
    cell_char, cell_text, chars_of, lemma_line_text_chars, lemma_same_cells, lemma_split_sep, lemma_trimmed_text, line_text,
    player_of_char, points_text_error, points_written, push_char, split_at, split_chars, trim, trimmed, whitespace, without_whitespace,
};
use super::potential::{potentials_spec, small, Potentials};
use super::row::{Row, RowKind};
use super::segment::{Segment, VICTORY};
use super::sequence::{sequences_on_spec, sequences_spec, Sequence, Sequences};
use super::structure::{Structure, StructureKind};
use super::util::{lemma_positions_select, lemma_select, lemma_u16_bits, ones5, positions, select};
use super::structure::window_on_board;

verus! {

/// The diagonals shorter than a five, at each end, which are not stored.
pub const D_LINE_OMIT: u8 = 4;

/// The diagonals in each direction long enough to hold a five.
pub const D_LINE_NUM: u8 = 21;

/// Stored lines: 15 vertical, 15 horizontal, then the 21 ascending and 21
/// descending diagonals long enough to hold a five.
pub const LINE_NUM: usize = 72;

/// The board as its lines: every point is kept once on each of the (at
/// most four) stored lines through it.
#[derive(Debug, PartialEq, Eq, Clone)]
pub struct Square {
    pub vlines: Vec<Line>,
    pub hlines: Vec<Line>,
    pub alines: Vec<Line>,
    pub dlines: Vec<Line>,
}

/// What a [`Square`] holds: its lines, direction by direction.
pub struct SquareModel {
    pub v: Seq<Line>,
    pub h: Seq<Line>,
    pub a: Seq<Line>,
    pub d: Seq<Line>,
}

impl View for Square {
    type V = SquareModel;

    open spec fn view(&self) -> SquareModel {
        SquareModel { v: self.vlines@, h: self.hlines@, a: self.alines@, d: self.dlines@ }
    }
}

impl SquareModel {
    /// The board with `p` set to `c` on every stored line through it, as
    /// [`Square::put_mut`] and [`Square::remove_mut`] leave it.
    pub open spec fn set_spec(self, p: Point, c: Option<Player>) -> SquareModel {
        let v = p.index_of(Vertical);
        let h = p.index_of(Horizontal);
        let a = p.index_of(Ascending);
        let d = p.index_of(Descending);
        SquareModel {
            v: self.v.update(v.i as int, self.v[v.i as int].with_cell(v.j as int, c)),
            h: self.h.update(h.i as int, self.h[h.i as int].with_cell(h.j as int, c)),
            a: if stored(Ascending, a.i as int) {
                let k = slot_of(Ascending, a.i as int);
                self.a.update(k, self.a[k].with_cell(a.j as int, c))
            } else {
                self.a
            },
            d: if stored(Descending, d.i as int) {
                let k = slot_of(Descending, d.i as int);
                self.d.update(k, self.d[k].with_cell(d.j as int, c))
            } else {
                self.d
            },
        }
    }

    /// Every point listed is on the board.
    pub proof fn lemma_points_valid(self, s: Option<Player>, n: nat)
        requires
            n <= 225,
        ensures
            forall|m: int| 0 <= m < self.points_with(s, n).len() ==> (#[trigger] self.points_with(s, n)[m]).valid(),
        decreases n,
    {
        if n > 0 {
            self.lemma_points_valid(s, (n - 1) as nat);
            let rest = self.points_with(s, (n - 1) as nat);
            let c = n - 1;
            assert(c / 15 < 15 && c % 15 < 15);
            assert forall|m: int| 0 <= m < self.points_with(s, n).len() implies (#[trigger] self.points_with(s, n)[m]).valid() by {
                if m < rest.len() {
                    assert(self.points_with(s, n)[m] == rest[m]);
                }
            }
        }
    }

    /// The points listed hold `s`, come in increasing code order below
    /// `n`, and every point below `n` that holds `s` is listed.
    pub proof fn lemma_points_with(self, s: Option<Player>, n: nat)
        requires
            n <= 225,
        ensures
            forall|m: int|
                0 <= m < self.points_with(s, n).len() ==> {
                    &&& (#[trigger] self.points_with(s, n)[m]).valid()
                    &&& self.stone_at(self.points_with(s, n)[m]) == s
                    &&& self.points_with(s, n)[m].0 * 15 + self.points_with(s, n)[m].1 < n
                },
            forall|m1: int, m2: int|
                0 <= m1 < m2 < self.points_with(s, n).len() ==> #[trigger] self.points_with(s, n)[m1].0 * 15
                    + self.points_with(s, n)[m1].1 < #[trigger] self.points_with(s, n)[m2].0 * 15
                    + self.points_with(s, n)[m2].1,
            forall|p: Point|
                p.valid() && p.0 * 15 + p.1 < n && self.stone_at(p) == s ==> #[trigger] self.points_with(
                    s,
                    n,
                ).contains(p),
        decreases n,
    {
        if n > 0 {
            self.lemma_points_with(s, (n - 1) as nat);
            let rest = self.points_with(s, (n - 1) as nat);
            let all = self.points_with(s, n);
            let c = n - 1;
            let q = point_of_code(c);
            assert(c == (c / 15) * 15 + c % 15 && 0 <= c / 15 < 15) by (nonlinear_arith)
                requires
                    0 <= c < 225,
            ;
            assert(q.0 * 15 + q.1 == c);
            assert forall|m: int| 0 <= m < all.len() implies {
                &&& (#[trigger] all[m]).valid()
                &&& self.stone_at(all[m]) == s
                &&& all[m].0 * 15 + all[m].1 < n
            } by {
                if m < rest.len() {
                    assert(all[m] == rest[m]);
                }
            }
            assert forall|m1: int, m2: int| 0 <= m1 < m2 < all.len() implies #[trigger] all[m1].0 * 15
                + all[m1].1 < #[trigger] all[m2].0 * 15 + all[m2].1 by {
                assert(all[m1] == rest[m1]);
                if m2 < rest.len() {
                    assert(all[m2] == rest[m2]);
                }
            }
            assert forall|p: Point| p.valid() && p.0 * 15 + p.1 < n && self.stone_at(p) == s implies #[trigger] all.contains(p) by {
                if p.0 * 15 + p.1 < c {
                    assert(rest.contains(p));
                    let m = choose|m: int| 0 <= m < rest.len() && rest[m] == p;
                    assert(all[m] == p);
                } else {
                    assert(p.0 * 15 + p.1 == c);
                    assert(p == q) by (nonlinear_arith)
                        requires
                            p.0 * 15 + p.1 == c,
                            q.0 * 15 + q.1 == c,
                            0 <= p.1 < 15,
                            0 <= q.1 < 15,
                    ;
                    assert(all[all.len() - 1] == p);
                }
            }
        }
    }

    /// How many points are empty.
    pub open spec fn empty_count(self) -> nat {
        self.points_with(None, 225).len()
    }

    pub open spec fn lines_of(self, d: Direction) -> Seq<Line> {
        match d {
            Vertical => self.v,
            Horizontal => self.h,
            Ascending => self.a,
            Descending => self.d,
        }
    }

    /// Stored line `i` in direction `d`.
    pub open spec fn line_spec(self, d: Direction, i: int) -> Line {
        self.lines_of(d)[slot_of(d, i)]
    }

    /// Whether the two hold the same lines.
    pub open spec fn same(self, other: SquareModel) -> bool {
        &&& self.v == other.v
        &&& self.h == other.h
        &&& self.a == other.a
        &&& self.d == other.d
    }

    /// The stone on `p`, as the vertical line through it has it.
    pub open spec fn stone_at(self, p: Point) -> Option<Player> {
        self.v[p.0 as int].cell(p.1 as int)
    }

    /// The lines are all there, each as long as the board has it, and all
    /// copies of a point agree.
    pub open spec fn wf(self) -> bool {
        &&& self.v.len() == RANGE
        &&& self.h.len() == RANGE
        &&& self.a.len() == D_LINE_NUM
        &&& self.d.len() == D_LINE_NUM
        &&& forall|d: Direction, i: int|
            stored(d, i) ==> {
                &&& (#[trigger] self.line_spec(d, i)).wf()
                &&& self.line_spec(d, i).size == line_size(d, i)
                &&& forall|k: int|
                    line_size(d, i) <= k < 16 ==> #[trigger] self.line_spec(d, i).cell(k) is None
            }
        &&& forall|idx: Index|
            idx.valid() && stored(idx.d, idx.i as int) ==> #[trigger] self.line_spec(
                idx.d,
                idx.i as int,
            ).cell(idx.j as int) == self.stone_at(idx.point_of())
    }

    /// The points with code below `n` holding `s`, in code order.
    pub open spec fn points_with(self, s: Option<Player>, n: nat) -> Seq<Point>
        decreases n,
    {
        if n == 0 {
            Seq::empty()
        } else {
            let rest = self.points_with(s, (n - 1) as nat);
            let p = point_of_code(n - 1);
            if self.stone_at(p) == s {
                rest.push(p)
            } else {
                rest
            }
        }
    }

    /// The stored lines through `p` among the first `n` directions.
    pub open spec fn lines_on_upto(self, p: Point, n: int) -> Seq<(Direction, u8, Line)>
        decreases n,
    {
        if n <= 0 {
            Seq::empty()
        } else {
            let rest = self.lines_on_upto(p, n - 1);
            let d = seq![Vertical, Horizontal, Ascending, Descending][n - 1];
            let i = p.index_of(d).i;
            if stored(d, i as int) {
                rest.push((d, i, self.line_spec(d, i as int)))
            } else {
                rest
            }
        }
    }

    /// The stored lines through `p`.
    pub open spec fn lines_on_spec(self, p: Point) -> Seq<(Direction, u8, Line)> {
        self.lines_on_upto(p, 4)
    }

    /// `r`'s rows of kind `k` on the first `n` stored lines.
    pub open spec fn rows_upto(self, r: Player, k: RowKind, n: int) -> Seq<Row>
        decreases n,
    {
        if n <= 0 {
            Seq::empty()
        } else {
            let (d, i) = key_line(n - 1);
            self.rows_upto(r, k, n - 1) + rows_in(d, i, self.line_spec(d, i), r, k)
        }
    }

    /// `r`'s rows of kind `k` on the lines through `p`, among the first `n`
    /// directions.
    pub open spec fn rows_on_upto(self, p: Point, r: Player, k: RowKind, n: int) -> Seq<Row>
        decreases n,
    {
        if n <= 0 {
            Seq::empty()
        } else {
            let rest = self.rows_on_upto(p, r, k, n - 1);
            let d = seq![Vertical, Horizontal, Ascending, Descending][n - 1];
            let idx = p.index_of(d);
            if stored(d, idx.i as int) {
                rest + rows_in_on(d, idx.i as int, self.line_spec(d, idx.i as int), idx.j as int, r, k)
            } else {
                rest
            }
        }
    }

    /// The points `lo` to `lo + n - 1` cells from `idx` along its line that
    /// are on it, and empty if `only_empty`.
    pub open spec fn steps(self, idx: Index, lo: int, n: nat, only_empty: bool) -> Seq<Point>
        decreases n,
    {
        if n == 0 {
            Seq::empty()
        } else {
            let rest = self.steps(idx, lo, (n - 1) as nat, only_empty);
            match step_point(idx, lo + n - 1) {
                Some(q) => if !only_empty || self.stone_at(q) is None {
                    rest.push(q)
                } else {
                    rest
                },
                None => rest,
            }
        }
    }

    /// What [`Square::neighbors`] gives: nothing for a distance over 128.
    pub open spec fn neighbors_spec(self, p: Point, distance: int, only_empty: bool) -> Seq<Point> {
        if distance > 128 {
            Seq::empty()
        } else {
            self.neighbors_upto(p, distance, only_empty, 4)
        }
    }

    /// [`Self::neighbors`] over the first `n` directions.
    pub open spec fn neighbors_upto(self, p: Point, distance: int, only_empty: bool, n: int) -> Seq<
        Point,
    >
        decreases n,
    {
        if n <= 0 {
            Seq::empty()
        } else {
            self.neighbors_upto(p, distance, only_empty, n - 1) + self.steps(
                p.index_of(directions()[n - 1]),
                -distance,
                (2 * distance + 1) as nat,
                only_empty,
            )
        }
    }

    /// [`Self::structures`] over the first `n` stored lines.
    pub open spec fn structures_upto(self, r: Player, k: StructureKind, n: int) -> Seq<Structure>
        decreases n,
    {
        if n <= 0 {
            Seq::empty()
        } else {
            let (d, i) = key_line(n - 1);
            self.structures_upto(r, k, n - 1) + structures_in(d, i, self.line_spec(d, i), r, k)
        }
    }

    /// [`Self::structures_on`] over the first `n` directions.
    pub open spec fn structures_on_upto(self, p: Point, r: Player, k: StructureKind, n: int) -> Seq<
        Structure,
    >
        decreases n,
    {
        if n <= 0 {
            Seq::empty()
        } else {
            let rest = self.structures_on_upto(p, r, k, n - 1);
            let idx = p.index_of(directions()[n - 1]);
            if stored(idx.d, idx.i as int) {
                rest + structures_in_on(idx.d, idx.i as int, self.line_spec(idx.d, idx.i as int), idx.j, r, k)
            } else {
                rest
            }
        }
    }

    /// [`Self::potentials`] over the first `n` stored lines.
    pub open spec fn potentials_upto(self, r: Player, min: u8, exact: bool, n: int) -> Seq<(Index, u8)>
        decreases n,
    {
        if n <= 0 {
            Seq::empty()
        } else {
            let (d, i) = key_line(n - 1);
            self.potentials_upto(r, min, exact, n - 1) + potentials_in(d, i, self.line_spec(d, i), r, min, exact)
        }
    }

    /// [`Self::potentials_along`] over the first `n` directions.
    pub open spec fn potentials_along_upto(self, p: Point, r: Player, min: u8, exact: bool, n: int) -> Seq<
        (Index, u8),
    >
        decreases n,
    {
        if n <= 0 {
            Seq::empty()
        } else {
            let rest = self.potentials_along_upto(p, r, min, exact, n - 1);
            let idx = p.index_of(directions()[n - 1]);
            if stored(idx.d, idx.i as int) {
                rest + potentials_in(idx.d, idx.i as int, self.line_spec(idx.d, idx.i as int), r, min, exact)
            } else {
                rest
            }
        }
    }
}

/// Whether line `i` in direction `d` is stored: every orthogonal line, and
/// the diagonals that can hold a five.
pub open spec fn stored(d: Direction, i: int) -> bool {
    match d {
        Vertical | Horizontal => 0 <= i < RANGE,
        _ => D_LINE_OMIT <= i < D_LINE_OMIT + D_LINE_NUM,
    }
}

/// Whether a walk of `distance` cells each way from `p` stays within a
/// signed byte on every line through it: a distance of 128 reads as
/// -128, whose negation does not fit.
pub open spec fn neighbors_fit(p: Point, distance: int) -> bool {
    distance > 128 || (distance < 128 && forall|n: int|
        0 <= n < 4 ==> #[trigger] p.index_of(directions()[n]).j + distance <= 127)
}

/// Where line `i` in direction `d` sits in its vector.
pub open spec fn slot_of(d: Direction, i: int) -> int {
    match d {
        Vertical | Horizontal => i,
        _ => i - D_LINE_OMIT,
    }
}

/// How many cells line `i` in direction `d` has.
pub open spec fn line_size(d: Direction, i: int) -> int {
    max_j(d, i) + 1
}

/// The point with code `c`: `x` is `c / 15`, `y` is `c % 15`.
pub open spec fn point_of_code(c: int) -> Point {
    Point((c / RANGE as int) as u8, (c % RANGE as int) as u8)
}

impl Square {
    /// An empty board.
    pub fn new() -> (res: Self)
        ensures
            res@.wf(),
            forall|p: Point| p.valid() ==> #[trigger] res@.stone_at(p) is None,
    {
        let mut vlines: Vec<Line> = Vec::new();
        let mut hlines: Vec<Line> = Vec::new();
        let mut k: u8 = 0;
        while k < RANGE
            invariant
                k <= RANGE,
                vlines@.len() == k,
                hlines@.len() == k,
                forall|m: int| 0 <= m < k ==> #[trigger] vlines@[m] == Line::new_spec(RANGE),
                forall|m: int| 0 <= m < k ==> #[trigger] hlines@[m] == Line::new_spec(RANGE),
            decreases RANGE - k,
        {
            vlines.push(Line::new(RANGE));
            hlines.push(Line::new(RANGE));
            k += 1;
        }
        let mut alines: Vec<Line> = Vec::new();
        let mut dlines: Vec<Line> = Vec::new();
        let mut k: u8 = 0;
        while k < D_LINE_NUM
            invariant
                k <= D_LINE_NUM,
                alines@.len() == k,
                dlines@.len() == k,
                forall|m: int|
                    0 <= m < k ==> #[trigger] alines@[m] == Line::new_spec(
                        line_size(Ascending, m + D_LINE_OMIT) as u8,
                    ),
                forall|m: int|
                    0 <= m < k ==> #[trigger] dlines@[m] == Line::new_spec(
                        line_size(Descending, m + D_LINE_OMIT) as u8,
                    ),
            decreases D_LINE_NUM - k,
        {
            let i = k + D_LINE_OMIT;
            let size = if i < RANGE - 1 {
                i + 1
            } else {
                2 * (RANGE - 1) - i + 1
            };
            alines.push(Line::new(size));
            dlines.push(Line::new(size));
            k += 1;
        }
        let res = Square { vlines, hlines, alines, dlines };
        proof {
            lemma_u16_bits(0, 0, 0, 0, 0);
            assert forall|p: Point| p.valid() implies #[trigger] res@.stone_at(p) is None by {
                Line::lemma_empty_cell(p.1 as int);
            }
            assert forall|d: Direction, i: int| stored(d, i) implies {
                &&& (#[trigger] res@.line_spec(d, i)).wf()
                &&& res@.line_spec(d, i).size == line_size(d, i)
                &&& forall|k: int|
                    line_size(d, i) <= k < 16 ==> #[trigger] res@.line_spec(d, i).cell(k) is None
            } by {
                assert(line_size(d, i) <= 15);
                assert forall|k: int| line_size(d, i) <= k < 16 implies #[trigger] res@.line_spec(d, i).cell(k) is None by {
                    Line::lemma_empty_cell(k);
                }
            }
            assert forall|idx: Index|
                idx.valid() && stored(idx.d, idx.i as int) implies #[trigger] res@.line_spec(
                idx.d,
                idx.i as int,
            ).cell(idx.j as int) == res@.stone_at(idx.point_of()) by {
                Line::lemma_empty_cell(idx.j as int);
                let q = idx.point_of();
                Line::lemma_empty_cell(q.1 as int);
            }
        }
        res
    }
}

/// `t` is `s` with the point `p` set to `c` on every stored line through it.
pub open spec fn updated(s: SquareModel, t: SquareModel, p: Point, c: Option<Player>) -> bool {
    &&& t.v.len() == s.v.len()
    &&& t.h.len() == s.h.len()
    &&& t.a.len() == s.a.len()
    &&& t.d.len() == s.d.len()
    &&& forall|d: Direction, i: int|
        stored(d, i) ==> {
            &&& (#[trigger] t.line_spec(d, i)).wf()
            &&& t.line_spec(d, i).size == s.line_spec(d, i).size
            &&& forall|k: int|
                0 <= k < 16 ==> #[trigger] t.line_spec(d, i).cell(k) == (if i == p.index_of(d).i
                    && k == p.index_of(d).j {
                    c
                } else {
                    s.line_spec(d, i).cell(k)
                })
        }
}

/// An index names `p` exactly when it is `p`'s index along its direction.
pub proof fn lemma_index_names(idx: Index, p: Point)
    requires
        idx.valid(),
        p.valid(),
    ensures
        (idx.point_of() == p) == (idx == p.index_of(idx.d)),
{
    lemma_index_point_roundtrip(idx);
    lemma_point_index_roundtrip(p, idx.d);
}

/// Setting a point on every line through it keeps the copies in agreement,
/// and changes the stone on that point alone.
pub proof fn lemma_updated(s: SquareModel, t: SquareModel, p: Point, c: Option<Player>)
    requires
        s.wf(),
        p.valid(),
        updated(s, t, p, c),
    ensures
        t.wf(),
        t.stone_at(p) == c,
        forall|q: Point| q.valid() && q != p ==> #[trigger] t.stone_at(q) == s.stone_at(q),
{
    assert forall|q: Point| q.valid() implies #[trigger] t.stone_at(q) == (if q == p {
        c
    } else {
        s.stone_at(q)
    }) by {
        assert(stored(Vertical, q.0 as int));
        assert(t.line_spec(Vertical, q.0 as int).cell(q.1 as int) == t.stone_at(q));
        lemma_point_index_roundtrip(p, Vertical);
    }
    assert forall|d: Direction, i: int| stored(d, i) implies {
        &&& (#[trigger] t.line_spec(d, i)).wf()
        &&& t.line_spec(d, i).size == line_size(d, i)
        &&& forall|k: int|
            line_size(d, i) <= k < 16 ==> #[trigger] t.line_spec(d, i).cell(k) is None
    } by {
        lemma_point_index_roundtrip(p, d);
        assert forall|k: int| line_size(d, i) <= k < 16 implies #[trigger] t.line_spec(d, i).cell(k)
            is None by {
            assert(s.line_spec(d, i).cell(k) is None);
        }
    }
    assert forall|idx: Index| idx.valid() && stored(idx.d, idx.i as int) implies #[trigger] t.line_spec(
        idx.d,
        idx.i as int,
    ).cell(idx.j as int) == t.stone_at(idx.point_of()) by {
        lemma_index_names(idx, p);
        lemma_index_point_roundtrip(idx);
        assert(s.line_spec(idx.d, idx.i as int).cell(idx.j as int) == s.stone_at(idx.point_of()));
    }
    assert(t.stone_at(p) == c);
}

/// Setting a point on the board's lines keeps them as the board keeps
/// them, and changes only that point.
pub proof fn lemma_set_spec(s: SquareModel, p: Point, c: Option<Player>)
    requires
        s.wf(),
        p.valid(),
    ensures
        updated(s, s.set_spec(p, c), p, c),
        s.set_spec(p, c).wf(),
        s.set_spec(p, c).stone_at(p) == c,
        forall|q: Point| q.valid() && q != p ==> #[trigger] s.set_spec(p, c).stone_at(q) == s.stone_at(q),
{
    let t = s.set_spec(p, c);
    assert forall|dd: Direction, i: int| stored(dd, i) implies {
        &&& (#[trigger] t.line_spec(dd, i)).wf()
        &&& t.line_spec(dd, i).size == s.line_spec(dd, i).size
        &&& forall|k: int|
            0 <= k < 16 ==> #[trigger] t.line_spec(dd, i).cell(k) == (if i == p.index_of(dd).i && k
                == p.index_of(dd).j {
                c
            } else {
                s.line_spec(dd, i).cell(k)
            })
    } by {
        lemma_point_index_roundtrip(p, dd);
        assert(s.line_spec(dd, i).wf());
        lemma_with_cell(s.line_spec(dd, i), p.index_of(dd).j as int, c);
    }
    lemma_updated(s, t, p, c);
}

/// The number of empty points among the first `n` codes goes down by one
/// when an empty point is filled, and stays when a stone is replaced.
pub proof fn lemma_empty_count(s: SquareModel, t: SquareModel, p: Point, n: nat)
    requires
        p.valid(),
        n <= 225,
        forall|q: Point| q.valid() && q != p ==> #[trigger] t.stone_at(q) == s.stone_at(q),
        t.stone_at(p) is Some,
    ensures
        t.points_with(None, n).len() + (if s.stone_at(p) is None && p.0 * 15 + p.1 < n { 1int } else { 0 })
            == s.points_with(None, n).len(),
    decreases n,
{
    if n > 0 {
        lemma_empty_count(s, t, p, (n - 1) as nat);
        let q = point_of_code(n - 1);
        assert(q.valid());
        if q == p {
            assert(p.0 * 15 + p.1 == n - 1);
        } else {
            assert(p.0 * 15 + p.1 != n - 1);
        }
    }
}

/// A row found on a stored line of the board has its segment on the board,
/// and a three has an eye.
pub proof fn lemma_row_in_on(g: SquareModel, d: Direction, i: int, c: int, r: Player, k: RowKind, m: int)
    requires
        g.wf(),
        stored(d, i),
        0 <= m < rows_in_on(d, i, g.line_spec(d, i), c, r, k).len(),
    ensures
        window_on_board(rows_in_on(d, i, g.line_spec(d, i), c, r, k)[m].start),
        rows_in_on(d, i, g.line_spec(d, i), c, r, k)[m].eyes < 32,
        k == RowKind::Three ==> rows_in_on(d, i, g.line_spec(d, i), c, r, k)[m].eyes != 0,
{
    let line = g.line_spec(d, i);
    let pred = |j: int|
        line.has_segment(j) && k.matches_spec(r, line.prev_at(j), line.segment_at(j)) && j <= c && c
            <= j + (if k.single() { 4int } else { 3int });
    lemma_select(pred, 16);
    let j = line.row_js_on(c, r, k)[m];
    assert(pred(j as int));
    assert(line.size == line_size(d, i));
    let sm0 = line.segment_at(j as int).stone_mask(r);
    assert((!sm0 & 0b01111u8) < 32 && (!sm0 & 0b11111u8) < 32) by (bit_vector);
    if k == RowKind::Three {
        let sm = line.segment_at(j as int).stone_mask(r);
        let mm = line.segment_at(j as int).mine(r);
        assert(sm == (mm & 0b0111110u8) >> 1);
        assert((!sm & 0b01111u8) != 0) by (bit_vector)
            requires
                sm == (mm & 0b0111110u8) >> 1,
                ones5(sm) == 3,
                sm & 0b10000u8 == 0,
        ;
    }
}

/// [`lemma_row_in_on`] for every row through `p`.
pub proof fn lemma_rows_on(g: SquareModel, p: Point, r: Player, k: RowKind, n: int)
    requires
        g.wf(),
        p.valid(),
        0 <= n <= 4,
    ensures
        forall|m: int|
            0 <= m < g.rows_on_upto(p, r, k, n).len() ==> window_on_board(
                (#[trigger] g.rows_on_upto(p, r, k, n)[m]).start,
            ) && g.rows_on_upto(p, r, k, n)[m].eyes < 32 && (k == RowKind::Three
                ==> g.rows_on_upto(p, r, k, n)[m].eyes != 0),
    decreases n,
{
    if n > 0 {
        lemma_rows_on(g, p, r, k, n - 1);
        let dd = seq![Vertical, Horizontal, Ascending, Descending][n - 1];
        let idx = p.index_of(dd);
        if stored(dd, idx.i as int) {
            let rest = g.rows_on_upto(p, r, k, n - 1);
            let more = rows_in_on(dd, idx.i as int, g.line_spec(dd, idx.i as int), idx.j as int, r, k);
            assert forall|m: int| 0 <= m < g.rows_on_upto(p, r, k, n).len() implies window_on_board(
                (#[trigger] g.rows_on_upto(p, r, k, n)[m]).start,
            ) && g.rows_on_upto(p, r, k, n)[m].eyes < 32 && (k == RowKind::Three
                ==> g.rows_on_upto(p, r, k, n)[m].eyes != 0) by {
                if m >= rest.len() {
                    lemma_row_in_on(g, dd, idx.i as int, idx.j as int, r, k, m - rest.len());
                }
            }
        }
    }
}

/// Sets cell `j` of line `k` to `c`.
fn set_on(lines: &mut Vec<Line>, k: usize, j: u8, c: Option<Player>)
    requires
        k < old(lines)@.len(),
        old(lines)@[k as int].wf(),
        j < MAX_SIZE,
    ensures
        final(lines)@.len() == old(lines)@.len(),
        forall|m: int| 0 <= m < old(lines)@.len() && m != k ==> #[trigger] final(lines)@[m] == old(lines)@[m],
        final(lines)@ == old(lines)@.update(k as int, old(lines)@[k as int].with_cell(j as int, c)),
        final(lines)@[k as int].wf(),
        final(lines)@[k as int].size == old(lines)@[k as int].size,
        final(lines)@[k as int].cell(j as int) == c,
        forall|m: int| 0 <= m < 16 && m != j ==> #[trigger] final(lines)@[k as int].cell(m) == old(lines)@[k as int].cell(m),
{
    let mut l = lines[k];
    match c {
        Some(r) => l.put_mut(r, j),
        None => l.remove_mut(j),
    }
    lines.set(k, l);
}

impl Square {
    /// Where stored line `index.i` in direction `index.d` sits in its
    /// vector, or `None` for the diagonals shorter than five.
    pub fn line_idx(index: Index) -> (res: Option<usize>)
        ensures
            res == (if stored(index.d, index.i as int) {
                Some(slot_of(index.d, index.i as int) as usize)
            } else {
                None::<usize>
            }),
    {
        let i = index.i;
        match index.d {
            Vertical | Horizontal => {
                if i < RANGE {
                    Some(i as usize)
                } else {
                    None
                }
            },
            _ => {
                if D_LINE_OMIT <= i && i < D_LINE_OMIT + D_LINE_NUM {
                    Some((i - D_LINE_OMIT) as usize)
                } else {
                    None
                }
            },
        }
    }

    /// Sets `p` to `c` on every stored line through it.
    fn set_mut(&mut self, p: Point, c: Option<Player>)
        requires
            old(self)@.wf(),
            p.valid(),
        ensures
            updated(old(self)@, final(self)@, p, c),
            final(self)@ == old(self)@.set_spec(p, c),
    {
        let ghost s0 = *self;
        let v = p.to_index(Vertical);
        assert(s0@.line_spec(Vertical, v.i as int).wf());
        set_on(&mut self.vlines, v.i as usize, v.j, c);
        let h = p.to_index(Horizontal);
        assert(s0@.line_spec(Horizontal, h.i as int).wf());
        set_on(&mut self.hlines, h.i as usize, h.j, c);
        let a = p.to_index(Ascending);
        if let Some(k) = Self::line_idx(a) {
            assert(s0@.line_spec(Ascending, a.i as int).wf());
            set_on(&mut self.alines, k, a.j, c);
        }
        let d = p.to_index(Descending);
        if let Some(k) = Self::line_idx(d) {
            assert(s0@.line_spec(Descending, d.i as int).wf());
            set_on(&mut self.dlines, k, d.j, c);
        }
        proof {
            let s = old(self)@;
            let t = self@;
            assert forall|dd: Direction, i: int| stored(dd, i) implies {
                &&& (#[trigger] t.line_spec(dd, i)).wf()
                &&& t.line_spec(dd, i).size == s.line_spec(dd, i).size
                &&& forall|k: int|
                    0 <= k < 16 ==> #[trigger] t.line_spec(dd, i).cell(k) == (if i == p.index_of(dd).i
                        && k == p.index_of(dd).j {
                        c
                    } else {
                        s.line_spec(dd, i).cell(k)
                    })
            } by {
                assert(s.line_spec(dd, i).wf());
            }
        }
    }

    /// Puts `player`'s stone on `p`, replacing whatever was there.
    pub fn put_mut(&mut self, player: Player, p: Point)
        requires
            old(self)@.wf(),
            p.valid(),
        ensures
            final(self)@ == old(self)@.set_spec(p, Some(player)),
            final(self)@.wf(),
            final(self)@.stone_at(p) == Some(player),
            forall|q: Point| q.valid() && q != p ==> #[trigger] final(self)@.stone_at(q) == old(self)@.stone_at(q),
    {
        self.set_mut(p, Some(player));
        proof {
            lemma_updated(old(self)@, self@, p, Some(player));
        }
    }

    /// Takes the stone off `p`, if there is one.
    pub fn remove_mut(&mut self, p: Point)
        requires
            old(self)@.wf(),
            p.valid(),
        ensures
            final(self)@ == old(self)@.set_spec(p, None),
            final(self)@.wf(),
            final(self)@.stone_at(p) is None,
            forall|q: Point| q.valid() && q != p ==> #[trigger] final(self)@.stone_at(q) == old(self)@.stone_at(q),
    {
        self.set_mut(p, None);
        proof {
            lemma_updated(old(self)@, self@, p, None);
        }
    }

    /// The stone on `p`.
    pub fn stone(&self, p: Point) -> (res: Option<Player>)
        requires
            self@.wf(),
            p.valid(),
        ensures
            res == self@.stone_at(p),
    {
        self.vlines[p.0 as usize].stone(p.1)
    }
}

/// Stored line `k` in the order [`Square::lines`] gives them: the
/// vertical ones, the horizontal ones, then the ascending and descending
/// diagonals.
pub open spec fn key_line(k: int) -> (Direction, int) {
    if k < 15 {
        (Vertical, k)
    } else if k < 30 {
        (Horizontal, k - 15)
    } else if k < 51 {
        (Ascending, k - 30 + D_LINE_OMIT)
    } else {
        (Descending, k - 51 + D_LINE_OMIT)
    }
}

/// `r`'s rows of kind `k` on line `i` in direction `d`.
pub open spec fn rows_in(d: Direction, i: int, line: Line, r: Player, k: RowKind) -> Seq<Row> {
    line.row_js(r, k).map_values(
        |j: u8|
            Row {
                start: Index { d, i: i as u8, j },
                stones: line.segment_at(j as int).stone_mask(r),
                eyes: !line.segment_at(j as int).stone_mask(r) & k.eye_mask(),
            },
    )
}

/// `r`'s rows of kind `k` on line `i` in direction `d` through cell `c`.
pub open spec fn rows_in_on(d: Direction, i: int, line: Line, c: int, r: Player, k: RowKind) -> Seq<
    Row,
> {
    line.row_js_on(c, r, k).map_values(
        |j: u8|
            Row {
                start: Index { d, i: i as u8, j },
                stones: line.segment_at(j as int).stone_mask(r),
                eyes: !line.segment_at(j as int).stone_mask(r) & k.eye_mask(),
            },
    )
}

/// `r`'s structures of kind `k` on line `i` in direction `d`.
pub open spec fn structures_in(d: Direction, i: int, line: Line, r: Player, k: StructureKind) -> Seq<
    Structure,
> {
    let (sk, n, exact) = k.sequence_of(r);
    if line.cap_of(r) > n {
        sequences_spec(line.size, line.mine(r), line.theirs(r), sk, n, exact).remaining().map_values(
            |x: (u8, Sequence)| Structure { start: Index { d, i: i as u8, j: x.0 }, sequence: x.1 },
        )
    } else {
        Seq::empty()
    }
}

/// The potentials of line `i` in direction `d` for `r`.
pub open spec fn potentials_in(d: Direction, i: int, line: Line, r: Player, min: u8, exact: bool) -> Seq<
    (Index, u8),
> {
    if line.cap_of(r) >= min {
        potentials_spec(line.size, line.mine(r), line.theirs(r), min, exact).remaining().map_values(
            |x: (u8, u8)| (Index { d, i: i as u8, j: x.0 }, x.1),
        )
    } else {
        Seq::empty()
    }
}

/// `r`'s rows of kind `k` on the line at `index`, as `(i, row)` pieces.
fn line_rows(index: Index, line: &Line, r: Player, k: RowKind, on: Option<u8>) -> (res: Vec<Row>)
    requires
        line.wf(),
        VICTORY <= line.size,
        on matches Some(c) ==> c < MAX_SIZE,
    ensures
        on is None ==> res@ == rows_in(index.d, index.i as int, *line, r, k),
        on matches Some(c) ==> res@ == rows_in_on(index.d, index.i as int, *line, c as int, r, k),
{
    let seqs = match on {
        None => line.sequences(r, k),
        Some(c) => line.sequences_on(c, r, k),
    };
    let found = seqs.to_vec();
    let ghost js = positions(seqs.starts, 16);
    proof {
        match on {
            None => lemma_positions_select(
                seqs.starts,
                |j: int| line.has_segment(j) && k.matches_spec(r, line.prev_at(j), line.segment_at(j)),
                16,
            ),
            Some(c) => lemma_positions_select(
                seqs.starts,
                |j: int|
                    line.has_segment(j) && k.matches_spec(r, line.prev_at(j), line.segment_at(j))
                        && j <= c && c <= j + (if k.single() { 4int } else { 3int }),
                16,
            ),
        }
    }
    let mut res: Vec<Row> = Vec::new();
    let mut m: usize = 0;
    while m < found.len()
        invariant
            found@.len() == js.len(),
            forall|q: int| 0 <= q < found@.len() ==> #[trigger] found@[q] == (js[q], line.segment_at(js[q] as int)),
            m <= found@.len(),
            res@.len() == m,
            forall|q: int|
                0 <= q < m ==> #[trigger] res@[q] == (Row {
                    start: Index { d: index.d, i: index.i, j: js[q] },
                    stones: line.segment_at(js[q] as int).stone_mask(r),
                    eyes: !line.segment_at(js[q] as int).stone_mask(r) & k.eye_mask(),
                }),
        decreases found@.len() - m,
    {
        let (j, seg) = found[m];
        res.push(Row::new(Index::new(index.d, index.i, j), r, k, seg));
        m += 1;
    }
    proof {
        match on {
            None => assert(res@ =~= rows_in(index.d, index.i as int, *line, r, k)),
            Some(c) => assert(res@ =~= rows_in_on(index.d, index.i as int, *line, c as int, r, k)),
        }
    }
    res
}

impl Square {
    /// Line `k` of [`Self::lines`] as `(direction, i)`, the inverse of
    /// [`Self::line_key`].
    pub fn line_of_key(k: usize) -> (res: (Direction, u8))
        requires
            k < LINE_NUM,
        ensures
            res.0 == key_line(k as int).0,
            res.1 == key_line(k as int).1,
            stored(res.0, res.1 as int),
    {
        let r = RANGE as usize;
        let n = D_LINE_NUM as usize;
        if k < r {
            (Vertical, k as u8)
        } else if k < 2 * r {
            (Horizontal, (k - r) as u8)
        } else if k < 2 * r + n {
            (Ascending, (k - 2 * r) as u8 + D_LINE_OMIT)
        } else {
            (Descending, (k - 2 * r - n) as u8 + D_LINE_OMIT)
        }
    }

    /// Where line `i` in direction `d` comes in [`Self::lines`], or `None`
    /// for the diagonals that are not stored.
    pub fn line_key(d: Direction, i: u8) -> (res: Option<usize>)
        ensures
            res is Some <==> stored(d, i as int),
            res matches Some(k) ==> k < LINE_NUM && key_line(k as int) == (d, i as int),
    {
        let r = RANGE as usize;
        let n = D_LINE_NUM as usize;
        match Self::line_idx(Index::new(d, i, 0)) {
            None => None,
            Some(s) => Some(
                match d {
                    Vertical => s,
                    Horizontal => r + s,
                    Ascending => 2 * r + s,
                    Descending => 2 * r + n + s,
                },
            ),
        }
    }

    /// The `i`-th line in direction `d`, or `None` for the diagonals
    /// shorter than five, which are not stored.
    pub fn line(&self, d: Direction, i: u8) -> (res: Option<&Line>)
        requires
            self@.wf(),
        ensures
            res is Some <==> stored(d, i as int),
            res matches Some(l) ==> *l == self@.line_spec(d, i as int),
    {
        match Self::line_idx(Index::new(d, i, 0)) {
            None => None,
            Some(k) => Some(
                match d {
                    Vertical => &self.vlines[k],
                    Horizontal => &self.hlines[k],
                    Ascending => &self.alines[k],
                    Descending => &self.dlines[k],
                },
            ),
        }
    }

    /// The line through `p` in direction `d`. `p` itself is at cell
    /// `p.to_index(d).j` of it.
    pub fn line_on(&self, p: Point, d: Direction) -> (res: Option<&Line>)
        requires
            self@.wf(),
            p.valid(),
        ensures
            res is Some <==> stored(d, p.index_of(d).i as int),
            res matches Some(l) ==> *l == self@.line_spec(d, p.index_of(d).i as int),
    {
        self.line(d, p.to_index(d).i)
    }

    /// Every stored line, as `(direction, i, line)`.
    pub fn lines(&self) -> (res: Vec<(Direction, u8, Line)>)
        requires
            self@.wf(),
        ensures
            res@.len() == LINE_NUM,
            forall|k: int|
                0 <= k < LINE_NUM ==> #[trigger] res@[k] == (
                    key_line(k).0,
                    key_line(k).1 as u8,
                    self@.line_spec(key_line(k).0, key_line(k).1),
                ),
    {
        let mut res: Vec<(Direction, u8, Line)> = Vec::new();
        let mut k: usize = 0;
        while k < LINE_NUM
            invariant
                self@.wf(),
                k <= LINE_NUM,
                res@.len() == k,
                forall|m: int|
                    0 <= m < k ==> #[trigger] res@[m] == (
                        key_line(m).0,
                        key_line(m).1 as u8,
                        self@.line_spec(key_line(m).0, key_line(m).1),
                    ),
            decreases LINE_NUM - k,
        {
            let (d, i) = Self::line_of_key(k);
            let l = self.line(d, i).unwrap();
            res.push((d, i, *l));
            k += 1;
        }
        res
    }

    /// The stored lines through `p`, in the order vertical, horizontal,
    /// ascending, descending.
    pub fn lines_on(&self, p: Point) -> (res: Vec<(Direction, u8, Line)>)
        requires
            self@.wf(),
            p.valid(),
        ensures
            res@ == self@.lines_on_spec(p),
    {
        let mut res: Vec<(Direction, u8, Line)> = Vec::new();
        let dirs = [Vertical, Horizontal, Ascending, Descending];
        let mut n: usize = 0;
        while n < 4
            invariant
                self@.wf(),
                p.valid(),
                n <= 4,
                dirs@ == seq![Vertical, Horizontal, Ascending, Descending],
                res@ == self@.lines_on_upto(p, n as int),
            decreases 4 - n,
        {
            let d = dirs[n];
            let i = p.to_index(d).i;
            if let Some(l) = self.line(d, i) {
                res.push((d, i, *l));
            }
            n += 1;
        }
        res
    }

    /// Every row of kind `k` that `r` has, line by line in the order of
    /// [`Self::lines`].
    pub fn rows(&self, r: Player, k: RowKind) -> (res: Vec<Row>)
        requires
            self@.wf(),
        ensures
            res@ == self@.rows_upto(r, k, LINE_NUM as int),
    {
        let mut res: Vec<Row> = Vec::new();
        let mut n: usize = 0;
        while n < LINE_NUM
            invariant
                self@.wf(),
                n <= LINE_NUM,
                res@ == self@.rows_upto(r, k, n as int),
            decreases LINE_NUM - n,
        {
            let (d, i) = Self::line_of_key(n);
            let l = self.line(d, i).unwrap();
            assert(l.wf() && l.size == line_size(d, i as int));
            let mut found = line_rows(Index::new(d, i, 0), l, r, k, None);
            res.append(&mut found);
            n += 1;
        }
        res
    }

    /// [`Self::rows`], only those with `p` among their cells: for a row of
    /// two segments, `p` has to be in both.
    pub fn rows_on(&self, p: Point, r: Player, k: RowKind) -> (res: Vec<Row>)
        requires
            self@.wf(),
            p.valid(),
        ensures
            res@ == self@.rows_on_upto(p, r, k, 4),
    {
        let mut res: Vec<Row> = Vec::new();
        let dirs = [Vertical, Horizontal, Ascending, Descending];
        let mut n: usize = 0;
        while n < 4
            invariant
                self@.wf(),
                p.valid(),
                n <= 4,
                dirs@ == seq![Vertical, Horizontal, Ascending, Descending],
                res@ == self@.rows_on_upto(p, r, k, n as int),
            decreases 4 - n,
        {
            let d = dirs[n];
            let idx = p.to_index(d);
            if let Some(l) = self.line(d, idx.i) {
                assert(l.wf() && l.size == line_size(d, idx.i as int));
                let mut found = line_rows(Index::new(d, idx.i, 0), l, r, k, Some(idx.j));
                res.append(&mut found);
            }
            n += 1;
        }
        res
    }
}

/// `r`'s structures of kind `k` on line `i` in direction `d` through cell
/// `c`.
pub open spec fn structures_in_on(
    d: Direction,
    i: int,
    line: Line,
    c: u8,
    r: Player,
    k: StructureKind,
) -> Seq<Structure> {
    let (sk, n, exact) = k.sequence_of(r);
    if line.cap_of(r) > n {
        sequences_on_spec(c, line.size, line.mine(r), line.theirs(r), sk, n, exact).remaining().map_values(
            |x: (u8, Sequence)| Structure { start: Index { d, i: i as u8, j: x.0 }, sequence: x.1 },
        )
    } else {
        Seq::empty()
    }
}

/// `r`'s structures of kind `k` on the line at `index` (through cell `on`,
/// if given).
fn line_structures(index: Index, line: &Line, r: Player, k: StructureKind, on: Option<u8>) -> (res: Vec<
    Structure,
>)
    requires
        line.wf(),
        VICTORY <= line.size,
    ensures
        on is None ==> res@ == structures_in(index.d, index.i as int, *line, r, k),
        on matches Some(c) ==> res@ == structures_in_on(index.d, index.i as int, *line, c, r, k),
{
    let (sk, n, exact) = k.to_sequence(r);
    if line.potential_cap(r) <= n {
        return Vec::new();
    }
    let (my, op) = match r {
        Black => (line.blacks, line.whites),
        White => (line.whites, line.blacks),
    };
    let mut seqs = match on {
        None => Sequences::new(line.size, my, op, sk, n, exact),
        Some(c) => Sequences::new_on(c, line.size, my, op, sk, n, exact),
    };
    let found = seqs.to_vec();
    let mut res: Vec<Structure> = Vec::new();
    let mut m: usize = 0;
    while m < found.len()
        invariant
            m <= found@.len(),
            res@.len() == m,
            forall|q: int|
                0 <= q < m ==> #[trigger] res@[q] == (Structure {
                    start: Index { d: index.d, i: index.i, j: found@[q].0 },
                    sequence: found@[q].1,
                }),
        decreases found@.len() - m,
    {
        let (j, sq) = found[m];
        res.push(Structure::new(Index::new(index.d, index.i, j), sq));
        m += 1;
    }
    proof {
        match on {
            None => assert(res@ =~= structures_in(index.d, index.i as int, *line, r, k)),
            Some(c) => assert(res@ =~= structures_in_on(index.d, index.i as int, *line, c, r, k)),
        }
    }
    res
}

/// The potentials of the line at `index` for `r`.
fn line_potentials(index: Index, line: &Line, r: Player, min: u8, exact: bool) -> (res: Vec<(Index, u8)>)
    requires
        line.wf(),
        VICTORY <= line.size,
    ensures
        res@ == potentials_in(index.d, index.i as int, *line, r, min, exact),
{
    if line.potential_cap(r) < min {
        return Vec::new();
    }
    let (my, op) = match r {
        Black => (line.blacks, line.whites),
        White => (line.whites, line.blacks),
    };
    let mut ps = Potentials::new(line.size, my, op, min, exact);
    let found = ps.to_vec();
    let mut res: Vec<(Index, u8)> = Vec::new();
    let mut m: usize = 0;
    while m < found.len()
        invariant
            m <= found@.len(),
            res@.len() == m,
            forall|q: int|
                0 <= q < m ==> #[trigger] res@[q] == (
                    Index { d: index.d, i: index.i, j: found@[q].0 },
                    found@[q].1,
                ),
        decreases found@.len() - m,
    {
        let (j, o) = found[m];
        res.push((Index::new(index.d, index.i, j), o));
        m += 1;
    }
    assert(res@ =~= potentials_in(index.d, index.i as int, *line, r, min, exact));
    res
}

/// The point `s` cells along the line from `idx`, if it is on the line.
pub open spec fn step_point(idx: Index, s: int) -> Option<Point> {
    let j = idx.j + s;
    if 0 <= j <= max_j(idx.d, idx.i as int) {
        Some(Index { d: idx.d, i: idx.i, j: j as u8 }.point_of())
    } else {
        None
    }
}

/// The directions in the order the board goes through them.
pub open spec fn directions() -> Seq<Direction> {
    seq![Vertical, Horizontal, Ascending, Descending]
}

impl Square {
    /// The points within `distance` of `p` along each of the four lines
    /// through it, `p` itself once per line; only the empty ones if
    /// `only_empty`. A distance over 128 reads as a negative one, and
    /// gives nothing.
    pub fn neighbors(&self, p: Point, distance: u8, only_empty: bool) -> (res: Vec<Point>)
        requires
            self@.wf(),
            p.valid(),
            neighbors_fit(p, distance as int),
        ensures
            res@ == self@.neighbors_spec(p, distance as int, only_empty),
    {
        if distance > 128 {
            return Vec::new();
        }
        let dist = distance as i16;
        let dirs = [Vertical, Horizontal, Ascending, Descending];
        let mut res: Vec<Point> = Vec::new();
        let mut n: usize = 0;
        while n < 4
            invariant
                self@.wf(),
                p.valid(),
                dist == distance,
                distance < 128,
                neighbors_fit(p, distance as int),
                n <= 4,
                dirs@ == directions(),
                res@ == self@.neighbors_upto(p, distance as int, only_empty, n as int),
            decreases 4 - n,
        {
            let idx = p.to_index(dirs[n]);
            assert(idx.j + distance <= 127);
            let ghost before = res@;
            let mut t: i16 = 0;
            while t <= 2 * dist
                invariant
                    self@.wf(),
                    idx.valid(),
                    idx.j + distance <= 127,
                    dist == distance,
                    distance < 128,
                    0 <= t <= 2 * dist + 1,
                    res@ == before + self@.steps(idx, -(distance as int), t as nat, only_empty),
                decreases 2 * dist + 1 - t,
            {
                let s: i8 = (t - dist) as i8;
                if let Some(w) = idx.walk_checked(s) {
                    let q = w.to_point();
                    if !only_empty || self.stone(q).is_none() {
                        res.push(q);
                    }
                }
                proof {
                    assert(before + self@.steps(idx, -(distance as int), (t + 1) as nat, only_empty)
                        =~= res@);
                }
                t += 1;
            }
            n += 1;
        }
        res
    }

    /// The points holding `s`, in code order: by column, then by row.
    fn points_holding(&self, s: Option<Player>) -> (res: Vec<Point>)
        requires
            self@.wf(),
        ensures
            res@ == self@.points_with(s, 225),
    {
        let mut res: Vec<Point> = Vec::new();
        let mut c: u8 = 0;
        while c < 225
            invariant
                self@.wf(),
                c <= 225,
                res@ == self@.points_with(s, c as nat),
            decreases 225 - c,
        {
            let p = Point(c / RANGE, c % RANGE);
            if self.stone(p) == s {
                res.push(p);
            }
            c += 1;
        }
        res
    }

    /// `player`'s stones, by column, then by row.
    pub fn stones(&self, player: Player) -> (res: Vec<Point>)
        requires
            self@.wf(),
        ensures
            res@ == self@.points_with(Some(player), 225),
    {
        self.points_holding(Some(player))
    }

    /// The empty points, by column, then by row.
    pub fn empties(&self) -> (res: Vec<Point>)
        requires
            self@.wf(),
        ensures
            res@ == self@.points_with(None, 225),
    {
        self.points_holding(None)
    }

    /// `r`'s structures of kind `k`, line by line in the order of
    /// [`Self::lines`].
    pub fn structures(&self, r: Player, k: StructureKind) -> (res: Vec<Structure>)
        requires
            self@.wf(),
        ensures
            res@ == self@.structures_upto(r, k, LINE_NUM as int),
    {
        let mut res: Vec<Structure> = Vec::new();
        let mut n: usize = 0;
        while n < LINE_NUM
            invariant
                self@.wf(),
                n <= LINE_NUM,
                res@ == self@.structures_upto(r, k, n as int),
            decreases LINE_NUM - n,
        {
            let (d, i) = Self::line_of_key(n);
            let l = self.line(d, i).unwrap();
            assert(l.wf() && l.size == line_size(d, i as int));
            let mut found = line_structures(Index::new(d, i, 0), l, r, k, None);
            res.append(&mut found);
            n += 1;
        }
        res
    }

    /// [`Self::structures`], only those whose window holds `p`.
    pub fn structures_on(&self, p: Point, r: Player, k: StructureKind) -> (res: Vec<Structure>)
        requires
            self@.wf(),
            p.valid(),
        ensures
            res@ == self@.structures_on_upto(p, r, k, 4),
    {
        let mut res: Vec<Structure> = Vec::new();
        let dirs = [Vertical, Horizontal, Ascending, Descending];
        let mut n: usize = 0;
        while n < 4
            invariant
                self@.wf(),
                p.valid(),
                n <= 4,
                dirs@ == directions(),
                res@ == self@.structures_on_upto(p, r, k, n as int),
            decreases 4 - n,
        {
            let idx = p.to_index(dirs[n]);
            if let Some(l) = self.line(idx.d, idx.i) {
                assert(l.wf() && l.size == line_size(idx.d, idx.i as int));
                let mut found = line_structures(Index::new(idx.d, idx.i, 0), l, r, k, Some(idx.j));
                res.append(&mut found);
            }
            n += 1;
        }
        res
    }

    /// The potential of each empty point along each stored line, as
    /// `(index, potential)`, line by line; lines whose cap is below `min`
    /// are skipped.
    pub fn potentials(&self, r: Player, min: u8, exact: bool) -> (res: Vec<(Index, u8)>)
        requires
            self@.wf(),
        ensures
            res@ == self@.potentials_upto(r, min, exact, LINE_NUM as int),
    {
        let mut res: Vec<(Index, u8)> = Vec::new();
        let mut n: usize = 0;
        while n < LINE_NUM
            invariant
                self@.wf(),
                n <= LINE_NUM,
                res@ == self@.potentials_upto(r, min, exact, n as int),
            decreases LINE_NUM - n,
        {
            let (d, i) = Self::line_of_key(n);
            let l = self.line(d, i).unwrap();
            assert(l.wf() && l.size == line_size(d, i as int));
            let mut found = line_potentials(Index::new(d, i, 0), l, r, min, exact);
            res.append(&mut found);
            n += 1;
        }
        res
    }

    /// [`Self::potentials`] on the lines through `p`.
    pub fn potentials_along(&self, p: Point, r: Player, min: u8, exact: bool) -> (res: Vec<(Index, u8)>)
        requires
            self@.wf(),
            p.valid(),
        ensures
            res@ == self@.potentials_along_upto(p, r, min, exact, 4),
    {
        let mut res: Vec<(Index, u8)> = Vec::new();
        let dirs = [Vertical, Horizontal, Ascending, Descending];
        let mut n: usize = 0;
        while n < 4
            invariant
                self@.wf(),
                p.valid(),
                n <= 4,
                dirs@ == directions(),
                res@ == self@.potentials_along_upto(p, r, min, exact, n as int),
            decreases 4 - n,
        {
            let idx = p.to_index(dirs[n]);
            if let Some(l) = self.line(idx.d, idx.i) {
                assert(l.wf() && l.size == line_size(idx.d, idx.i as int));
                let mut found = line_potentials(Index::new(idx.d, idx.i, 0), l, r, min, exact);
                res.append(&mut found);
            }
            n += 1;
        }
        res
    }
}

/// Whether player `k` moves `k`-th in a game started by Black.
pub open spec fn mover(k: int) -> Player {
    if k % 2 == 0 { Black } else { White }
}

/// The stone on `p` after the moves `ms`, Black first and alternating,
/// each replacing whatever was there.
pub open spec fn stone_after_moves(ms: Seq<Point>, p: Point) -> Option<Player>
    decreases ms.len(),
{
    if ms.len() == 0 {
        None
    } else if ms.last() == p {
        Some(mover(ms.len() - 1))
    } else {
        stone_after_moves(ms.drop_last(), p)
    }
}

/// The stone on `p` when `blacks` are put on, then `whites`.
pub open spec fn stone_of_lists(blacks: Seq<Point>, whites: Seq<Point>, p: Point) -> Option<Player> {
    if whites.contains(p) {
        Some(White)
    } else if blacks.contains(p) {
        Some(Black)
    } else {
        None
    }
}

/// A row number as `{: >2}` writes it, for 1 to 15.
pub open spec fn row_number_text(k: int) -> Seq<char> {
    if k < 10 {
        seq![' ', ('0' as u8 + k as u8) as char]
    } else {
        seq!['1', ('0' as u8 + (k - 10) as u8) as char]
    }
}

/// The top `n` rows drawn with their numbers, each on a line of its own.
pub open spec fn pretty_rows(sq: SquareModel, n: nat) -> Seq<char>
    decreases n,
{
    if n == 0 {
        Seq::empty()
    } else {
        pretty_rows(sq, (n - 1) as nat) + row_number_text(16 - n) + line_text(sq.h[15 - n], 15) + seq!['\n']
    }
}

/// The first `n` column letters, each after a space.
pub open spec fn column_letters(n: nat) -> Seq<char>
    decreases n,
{
    if n == 0 {
        Seq::empty()
    } else {
        column_letters((n - 1) as nat) + seq![' ', ('A' as u8 + (n - 1) as u8) as char]
    }
}

/// The board drawn with coordinates: the rows from the top, each after
/// its number, then the column letters.
pub open spec fn pretty_text(sq: SquareModel) -> Seq<char> {
    pretty_rows(sq, 15) + seq![' ', ' '] + column_letters(15)
}

/// The horizontal lines from the top one down to line `15 - n`, written
/// out and each followed by a line break but the last.
pub open spec fn rows_text(sq: SquareModel, n: nat) -> Seq<char>
    decreases n,
{
    if n == 0 {
        Seq::empty()
    } else if n == 1 {
        line_text(sq.h[14], 15)
    } else {
        rows_text(sq, (n - 1) as nat) + seq!['\n'] + line_text(sq.h[15 - n], 15)
    }
}

impl Square {
    /// A copy of the board.
    pub fn duplicate(&self) -> (res: Self)
        ensures
            res@ == self@,
    {
        let res = Square {
            vlines: self.vlines.clone(),
            hlines: self.hlines.clone(),
            alines: self.alines.clone(),
            dlines: self.dlines.clone(),
        };
        assert(res.vlines@ =~= self.vlines@);
        assert(res.hlines@ =~= self.hlines@);
        assert(res.alines@ =~= self.alines@);
        assert(res.dlines@ =~= self.dlines@);
        res
    }

    /// The board after `moves`, Black first and alternating.
    pub fn from_moves(moves: &Points) -> (res: Self)
        requires
            forall|k: int| 0 <= k < moves.0@.len() ==> (#[trigger] moves.0@[k]).valid(),
        ensures
            res@.wf(),
            forall|p: Point| p.valid() ==> #[trigger] res@.stone_at(p) == stone_after_moves(moves.0@, p),
    {
        let mut square = Self::new();
        let mut player = Black;
        let mut k: usize = 0;
        while k < moves.0.len()
            invariant
                square@.wf(),
                k <= moves.0@.len(),
                forall|m: int| 0 <= m < moves.0@.len() ==> (#[trigger] moves.0@[m]).valid(),
                player == mover(k as int),
                forall|p: Point| p.valid() ==> #[trigger] square@.stone_at(p) == stone_after_moves(moves.0@.take(k as int), p),
            decreases moves.0@.len() - k,
        {
            let m = moves.0[k];
            square.put_mut(player, m);
            player = player.opponent();
            proof {
                assert(moves.0@.take(k + 1).drop_last() =~= moves.0@.take(k as int));
                assert forall|p: Point| p.valid() implies #[trigger] square@.stone_at(p) == stone_after_moves(moves.0@.take(k + 1), p) by {
                    assert(moves.0@.take(k + 1).last() == m);
                }
            }
            k += 1;
        }
        assert(moves.0@.take(k as int) =~= moves.0@);
        square
    }

    /// The board with `blacks` put on, then `whites`.
    pub fn from_stones(blacks: &Points, whites: &Points) -> (res: Self)
        requires
            forall|k: int| 0 <= k < blacks.0@.len() ==> (#[trigger] blacks.0@[k]).valid(),
            forall|k: int| 0 <= k < whites.0@.len() ==> (#[trigger] whites.0@[k]).valid(),
        ensures
            res@.wf(),
            forall|p: Point| p.valid() ==> #[trigger] res@.stone_at(p) == stone_of_lists(blacks.0@, whites.0@, p),
    {
        let mut square = Self::new();
        let mut k: usize = 0;
        while k < blacks.0.len()
            invariant
                square@.wf(),
                k <= blacks.0@.len(),
                forall|m: int| 0 <= m < blacks.0@.len() ==> (#[trigger] blacks.0@[m]).valid(),
                forall|p: Point| p.valid() ==> #[trigger] square@.stone_at(p) == stone_of_lists(blacks.0@.take(k as int), Seq::empty(), p),
            decreases blacks.0@.len() - k,
        {
            let p0 = blacks.0[k];
            square.put_mut(Black, p0);
            proof {
                assert forall|p: Point| p.valid() implies #[trigger] square@.stone_at(p) == stone_of_lists(blacks.0@.take(k + 1), Seq::empty(), p) by {
                    if p == p0 {
                        assert(blacks.0@.take(k + 1)[k as int] == p);
                    } else {
                        if blacks.0@.take(k + 1).contains(p) {
                            let m = choose|m: int| #![trigger blacks.0@.take(k + 1)[m]] 0 <= m < k + 1 && blacks.0@.take(k + 1)[m] == p;
                            assert(blacks.0@.take(k as int)[m] == p);
                        }
                        if blacks.0@.take(k as int).contains(p) {
                            let m = choose|m: int| #![trigger blacks.0@.take(k as int)[m]] 0 <= m < k && blacks.0@.take(k as int)[m] == p;
                            assert(blacks.0@.take(k + 1)[m] == p);
                        }
                    }
                }
            }
            k += 1;
        }
        assert(blacks.0@.take(k as int) =~= blacks.0@);
        let mut k: usize = 0;
        while k < whites.0.len()
            invariant
                square@.wf(),
                k <= whites.0@.len(),
                forall|m: int| 0 <= m < whites.0@.len() ==> (#[trigger] whites.0@[m]).valid(),
                forall|p: Point| p.valid() ==> #[trigger] square@.stone_at(p) == stone_of_lists(blacks.0@, whites.0@.take(k as int), p),
            decreases whites.0@.len() - k,
        {
            let p0 = whites.0[k];
            square.put_mut(White, p0);
            proof {
                assert forall|p: Point| p.valid() implies #[trigger] square@.stone_at(p) == stone_of_lists(blacks.0@, whites.0@.take(k + 1), p) by {
                    if p == p0 {
                        assert(whites.0@.take(k + 1)[k as int] == p);
                    } else {
                        if whites.0@.take(k + 1).contains(p) {
                            let m = choose|m: int| #![trigger whites.0@.take(k + 1)[m]] 0 <= m < k + 1 && whites.0@.take(k + 1)[m] == p;
                            assert(whites.0@.take(k as int)[m] == p);
                        }
                        if whites.0@.take(k as int).contains(p) {
                            let m = choose|m: int| #![trigger whites.0@.take(k as int)[m]] 0 <= m < k && whites.0@.take(k as int)[m] == p;
                            assert(whites.0@.take(k + 1)[m] == p);
                        }
                    }
                }
            }
            k += 1;
        }
        assert(whites.0@.take(k as int) =~= whites.0@);
        square
    }

    /// The board as rows of ` o`, ` x` and ` .`, the top row first.
    pub fn to_string(&self) -> (res: String)
        requires
            self@.wf(),
        ensures
            res@ == rows_text(self@, 15),
    {
        let mut res = String::new();
        let mut n: usize = 0;
        while n < 15
            invariant
                self@.wf(),
                n <= 15,
                res@ == rows_text(self@, n as nat),
            decreases 15 - n,
        {
            if n > 0 {
                push_char(&mut res, '\n');
            }
            let l = self.hlines[14 - n];
            assert(l == self@.line_spec(Horizontal, 14 - n));
            let t = l.to_string();
            let mut m: usize = 0;
            let ghost before = res@;
            let tc = chars_of(t.as_str());
            while m < tc.len()
                invariant
                    m <= tc@.len(),
                    res@ == before + tc@.take(m as int),
                decreases tc@.len() - m,
            {
                push_char(&mut res, tc[m]);
                assert(tc@.take(m + 1) =~= tc@.take(m as int).push(tc@[m as int]));
                m += 1;
            }
            assert(tc@.take(m as int) =~= tc@);
            assert(res@ =~= rows_text(self@, (n + 1) as nat));
            n += 1;
        }
        res
    }

    /// The board with the row numbers on the left and the column letters
    /// below: each row as `{: >2}` of its number, then its cells.
    pub fn to_pretty_string(&self) -> (res: String)
        requires
            self@.wf(),
        ensures
            res@ == pretty_text(self@),
    {
        let mut res = String::new();
        let mut n: usize = 0;
        while n < 15
            invariant
                self@.wf(),
                n <= 15,
                res@ == pretty_rows(self@, n as nat),
            decreases 15 - n,
        {
            let ghost before = res@;
            let number = 15 - n;
            if number < 10 {
                push_char(&mut res, ' ');
                push_char(&mut res, ('0' as u8 + number as u8) as char);
            } else {
                push_char(&mut res, '1');
                push_char(&mut res, ('0' as u8 + (number - 10) as u8) as char);
            }
            assert(res@ =~= before + row_number_text(number as int));
            assert(self@.line_spec(Horizontal, 14 - n).wf());
            let t = self.hlines[14 - n].to_string();
            let tc = chars_of(t.as_str());
            let ghost mid = res@;
            let mut m: usize = 0;
            while m < tc.len()
                invariant
                    m <= tc@.len(),
                    res@ == mid + tc@.take(m as int),
                decreases tc@.len() - m,
            {
                push_char(&mut res, tc[m]);
                assert(tc@.take(m + 1) =~= tc@.take(m as int).push(tc@[m as int]));
                m += 1;
            }
            assert(tc@.take(m as int) =~= tc@);
            push_char(&mut res, '\n');
            assert(res@ =~= pretty_rows(self@, (n + 1) as nat));
            n += 1;
        }
        let ghost rows = res@;
        push_char(&mut res, ' ');
        push_char(&mut res, ' ');
        let mut x: u8 = 0;
        while x < RANGE
            invariant
                x <= RANGE,
                res@ == rows + seq![' ', ' '] + column_letters(x as nat),
            decreases RANGE - x,
        {
            push_char(&mut res, ' ');
            push_char(&mut res, ('A' as u8 + x) as char);
            assert(res@ =~= rows + seq![' ', ' '] + column_letters((x + 1) as nat));
            x += 1;
        }
        res
    }

    /// Reads a board written one of three ways: the stones as
    /// `blacks/whites` (`H8,J9/I9`) when the text has a slash, the moves
    /// alternating from Black (`H8,I9,J9`) when it has a comma, or else the
    /// rows as [`Self::to_string`] writes them.
    pub fn parse(s: &str) -> (res: Result<Square, &'static str>)
        ensures
            res is Ok <==> parse_ok(s@),
            res matches Ok(sq) ==> sq@.wf() && forall|p: Point|
                p.valid() ==> #[trigger] sq@.stone_at(p) == parsed_stone(s@, p),
            res matches Err(e) ==> e@ == parse_error(s@),
    {
        let cs = chars_of(s);
        let mut has_slash = false;
        let mut has_comma = false;
        let mut k: usize = 0;
        while k < cs.len()
            invariant
                k <= cs@.len(),
                cs@ == s@,
                has_slash == cs@.take(k as int).contains('/'),
                has_comma == cs@.take(k as int).contains(','),
            decreases cs@.len() - k,
        {
            proof {
                assert forall|c: char| cs@.take(k + 1).contains(c) <==> cs@.take(k as int).contains(c) || cs@[k as int] == c by {
                    if cs@.take(k + 1).contains(c) {
                        let m = choose|m: int| 0 <= m < k + 1 && #[trigger] cs@.take(k + 1)[m] == c;
                        if m < k {
                            assert(cs@.take(k as int)[m] == c);
                        }
                    }
                    if cs@.take(k as int).contains(c) {
                        let m = choose|m: int| 0 <= m < k && #[trigger] cs@.take(k as int)[m] == c;
                        assert(cs@.take(k + 1)[m] == c);
                    }
                    if cs@[k as int] == c {
                        assert(cs@.take(k + 1)[k as int] == c);
                    }
                }
            }
            if cs[k] == '/' {
                has_slash = true;
            }
            if cs[k] == ',' {
                has_comma = true;
            }
            k += 1;
        }
        assert(cs@.take(k as int) =~= cs@);
        if has_slash {
            let t = trim(&cs);
            let parts = split_chars(&t, '/');
            if parts.len() < 2 {
                return Err("Wrong format.");
            }
            let blacks = match Points::parse_chars(&parts[0]) {
                Ok(ps) => ps,
                Err(e) => {
                    return Err(e);
                },
            };
            let whites = match Points::parse_chars(&parts[1]) {
                Ok(ps) => ps,
                Err(e) => {
                    return Err(e);
                },
            };
            Ok(Square::from_stones(&blacks, &whites))
        } else if has_comma {
            let tc = trim(&cs);
            let moves = match Points::parse_chars(&tc) {
                Ok(ps) => ps,
                Err(e) => {
                    return Err(e);
                },
            };
            Ok(Square::from_moves(&moves))
        } else {
            Self::parse_rows(&cs)
        }
    }

    /// Reads the rows of a board, the top one first.
    fn parse_rows(cs: &Vec<char>) -> (res: Result<Square, &'static str>)
        ensures
            res is Ok <==> rows_ok(cs@),
            res matches Err(e) ==> e@ == rows_error(cs@),
            res matches Ok(sq) ==> sq@.wf() && forall|p: Point| p.valid() ==> #[trigger] sq@.stone_at(p) == row_stone(cs@, p),
    {
        let t = trim(cs);
        let rows = split_chars(&t, '\n');
        let ghost written = rows_written(cs@);
        let mut lines: Vec<Line> = Vec::new();
        let mut k: usize = 0;
        while k < rows.len()
            invariant
                t@ == trimmed(cs@),
                written == rows_written(cs@),
                rows@.len() == written.len(),
                forall|j: int| 0 <= j < rows@.len() ==> without_whitespace(trimmed((#[trigger] rows@[j])@)) == written[j],
                k <= rows@.len(),
                lines@.len() == k,
                forall|j: int| 0 <= j < k ==> written[j].len() <= MAX_SIZE,
                forall|j: int|
                    0 <= j < k ==> {
                        &&& (#[trigger] lines@[j]).wf()
                        &&& lines@[j].size == written[j].len()
                        &&& forall|x: int| 0 <= x < written[j].len() ==> #[trigger] lines@[j].cell(x) == player_of_char(written[j][x])
                    },
            decreases rows@.len() - k,
        {
            let l = match Line::parse_chars(&trim(&rows[k])) {
                Ok(l) => l,
                Err(e) => {
                    assert(written[k as int].len() > MAX_SIZE);
                    return Err(e);
                },
            };
            lines.push(l);
            k += 1;
        }
        assert(!rows_too_long(cs@));
        if lines.len() != RANGE as usize {
            return Err("Wrong num of lines");
        }
        let mut square = Square::new();
        let mut n: usize = 0;
        while n < 15
            invariant
                square@.wf(),
                lines@.len() == 15,
                written == rows_written(cs@),
                written.len() == 15,
                !rows_too_long(cs@),
                forall|j: int|
                    0 <= j < 15 ==> {
                        &&& (#[trigger] lines@[j]).wf()
                        &&& lines@[j].size == written[j].len()
                        &&& forall|x: int| 0 <= x < written[j].len() ==> #[trigger] lines@[j].cell(x) == player_of_char(written[j][x])
                    },
                forall|j: int| 14 - n < j < 15 ==> (#[trigger] written[j]).len() == 15,
                n <= 15,
                forall|q: Point| q.valid() ==> #[trigger] square@.stone_at(q) == (if q.1 < n {
                    row_stone(cs@, q)
                } else {
                    None
                }),
            decreases 15 - n,
        {
            let hline = lines[14 - n];
            if hline.size != RANGE {
                assert(!rows_ok(cs@)) by {
                    assert(written[14 - n as int].len() != 15);
                }
                return Err("Wrong line size");
            }
            let mut j: u8 = 0;
            while j < RANGE
                invariant
                    square@.wf(),
                    hline.wf(),
                    hline.size == 15,
                    written == rows_written(cs@),
                    written.len() == 15,
                    written[14 - n as int].len() == 15,
                    forall|x: int| 0 <= x < 15 ==> #[trigger] hline.cell(x) == player_of_char(written[14 - n as int][x]),
                    j <= RANGE,
                    n < 15,
                    forall|q: Point| q.valid() ==> #[trigger] square@.stone_at(q) == (if q.1 < n || (q.1 == n && q.0 < j) {
                        row_stone(cs@, q)
                    } else {
                        None
                    }),
                decreases RANGE - j,
            {
                let point = Index::new(Horizontal, n as u8, j).to_point();
                assert(point == Point(j, n as u8));
                if let Some(player) = hline.stone(j) {
                    square.put_mut(player, point);
                }
                j += 1;
            }
            n += 1;
        }
        Ok(square)
    }
}

/// Whether [`Square::parse`] reads a board from `cs`: as stones when it
/// has a slash, as moves when it has a comma, or else as rows.
pub open spec fn parse_ok(cs: Seq<char>) -> bool {
    if cs.contains('/') {
        stones_written(cs) is Some
    } else if cs.contains(',') {
        points_written(trimmed(cs)) is Some
    } else {
        rows_ok(cs)
    }
}

/// The stone the board [`Square::parse`] reads from `cs` has on `p`.
pub open spec fn parsed_stone(cs: Seq<char>, p: Point) -> Option<Player> {
    if cs.contains('/') {
        stone_of_lists(written_stones(cs, true), written_stones(cs, false), p)
    } else if cs.contains(',') {
        stone_after_moves(written_moves(cs), p)
    } else {
        row_stone(cs, p)
    }
}

/// The black and white stones of a board written like `H8,J9/I9`: the
/// first two parts of the trimmed text cut at slashes.
pub open spec fn stones_written(cs: Seq<char>) -> Option<(Seq<Point>, Seq<Point>)> {
    let parts = split_at(trimmed(cs), '/');
    if parts.len() < 2 {
        None
    } else {
        match (points_written(parts[0]), points_written(parts[1])) {
            (Some(b), Some(w)) => Some((b, w)),
            _ => None,
        }
    }
}

/// The black (or, if not `black`, the white) stones of a board written
/// like `H8,J9/I9`.
pub open spec fn written_stones(cs: Seq<char>, black: bool) -> Seq<Point> {
    match stones_written(cs) {
        Some((b, w)) => if black { b } else { w },
        None => Seq::empty(),
    }
}

/// The moves of a board written like `H8,I9,J9`.
pub open spec fn written_moves(cs: Seq<char>) -> Seq<Point> {
    match points_written(trimmed(cs)) {
        Some(ps) => ps,
        None => Seq::empty(),
    }
}

/// The rows of a board written row by row, the top one first, each
/// without whitespace.
pub open spec fn rows_written(cs: Seq<char>) -> Seq<Seq<char>> {
    split_at(trimmed(cs), '\n').map_values(|r: Seq<char>| without_whitespace(trimmed(r)))
}

/// Whether `cs` writes a board row by row: fifteen rows of fifteen cells.
pub open spec fn rows_ok(cs: Seq<char>) -> bool {
    let rows = rows_written(cs);
    rows.len() == 15 && forall|k: int| 0 <= k < 15 ==> (#[trigger] rows[k]).len() == 15
}

/// Whether a row of the board written `cs` row by row has more than
/// fifteen cells.
pub open spec fn rows_too_long(cs: Seq<char>) -> bool {
    exists|j: int| 0 <= j < rows_written(cs).len() && (#[trigger] rows_written(cs)[j]).len() > MAX_SIZE
}

/// What reading `cs` row by row fails with: a row too long, else the wrong
/// number of rows, else a row too short.
pub open spec fn rows_error(cs: Seq<char>) -> Seq<char> {
    if rows_too_long(cs) {
        "Wrong length."@
    } else if rows_written(cs).len() != 15 {
        "Wrong num of lines"@
    } else {
        "Wrong line size"@
    }
}

/// What [`Square::parse`] fails with, by the way `cs` is written.
pub open spec fn parse_error(cs: Seq<char>) -> Seq<char> {
    if cs.contains('/') {
        let parts = split_at(trimmed(cs), '/');
        if parts.len() < 2 {
            "Wrong format."@
        } else if points_written(parts[0]) is None {
            points_text_error(parts[0])
        } else {
            points_text_error(parts[1])
        }
    } else if cs.contains(',') {
        points_text_error(trimmed(cs))
    } else {
        rows_error(cs)
    }
}

/// The stone the board written `cs` row by row has on `p`.
pub open spec fn row_stone(cs: Seq<char>, p: Point) -> Option<Player> {
    player_of_char(rows_written(cs)[14 - p.1][p.0 as int])
}

impl Line {
    /// [`Line::new`] as a spec function.
    pub open spec fn new_spec(size: u8) -> Line {
        Line { blacks: 0, whites: 0, size }
    }

    /// Every cell of an empty line is empty.
    pub proof fn lemma_empty_cell(k: int)
        requires
            0 <= k < 16,
        ensures
            forall|size: u8| #[trigger] Line::new_spec(size).cell(k) is None,
    {
        let kk = k as u16;
        assert((0u16 >> kk) & 1 == 0) by (bit_vector);
    }
}

/// A line written out is a space and a cell character for each cell.
proof fn lemma_line_text_form(line: Line, n: nat)
    ensures
        line_text(line, n).len() == 2 * n,
        forall|k: int|
            0 <= k < 2 * n ==> #[trigger] line_text(line, n)[k] == ' ' || line_text(line, n)[k] == 'o'
                || line_text(line, n)[k] == 'x' || line_text(line, n)[k] == '.',
        n > 0 ==> line_text(line, n)[0] == ' ',
        n > 0 ==> line_text(line, n)[1] == cell_char(line.cell(0)),
        n > 0 ==> line_text(line, n).last() == cell_char(line.cell(n - 1)),
    decreases n,
{
    if n > 0 {
        lemma_line_text_form(line, (n - 1) as nat);
        let c = line.cell(n - 1);
        assert(cell_text(c) =~= seq![' ', cell_char(c)]);
        let t = line_text(line, n);
        assert(t == line_text(line, (n - 1) as nat) + cell_text(c));
        if n == 1 {
            assert(line_text(line, 0) =~= Seq::<char>::empty());
        }
    }
}

/// Cut at line breaks, the first `n` rows of a board written out, without
/// the space they start with, are those rows one a part, the top one first.
proof fn lemma_rows_text_split(g: SquareModel, n: nat)
    requires
        g.h.len() == 15,
        1 <= n <= 15,
    ensures
        rows_text(g, n).len() >= 2,
        rows_text(g, n)[0] == ' ',
        rows_text(g, n)[1] == cell_char(g.h[14].cell(0)),
        rows_text(g, n).last() == cell_char(g.h[15 - n].cell(14)),
        forall|k: int| 0 <= k < rows_text(g, n).len() ==> #[trigger] rows_text(g, n)[k] != '/' && rows_text(g, n)[k] != ',',
        split_at(rows_text(g, n).drop_first(), '\n') == Seq::new(
            n,
            |k: int| if k == 0 { line_text(g.h[14], 15).drop_first() } else { line_text(g.h[14 - k], 15) },
        ),
    decreases n,
{
    let f = |k: int| if k == 0 { line_text(g.h[14], 15).drop_first() } else { line_text(g.h[14 - k], 15) };
    let t = rows_text(g, n);
    lemma_line_text_form(g.h[14], 15);
    if n == 1 {
        let l = line_text(g.h[14], 15);
        assert(forall|k: int| 0 <= k < l.drop_first().len() ==> l.drop_first()[k] == l[k + 1]);
        lemma_split_sep(Seq::empty(), l.drop_first(), '\n');
        assert(Seq::new(1, f) =~= seq![l.drop_first()]);
    } else {
        lemma_rows_text_split(g, (n - 1) as nat);
        let prev = rows_text(g, (n - 1) as nat);
        let l = line_text(g.h[15 - n], 15);
        lemma_line_text_form(g.h[15 - n], 15);
        assert(t == prev + seq!['\n'] + l);
        assert(t.drop_first() =~= prev.drop_first() + seq!['\n'] + l);
        lemma_split_sep(prev.drop_first(), l, '\n');
        assert(Seq::new((n - 1) as nat, f).push(l) =~= Seq::new(n, f));
        assert forall|k: int| 0 <= k < t.len() implies #[trigger] t[k] != '/' && t[k] != ',' by {
            if k < prev.len() {
                assert(t[k] == prev[k]);
            } else if k > prev.len() {
                assert(t[k] == l[k - prev.len() - 1]);
            }
        }
    }
}

/// Two boards, each with its lines as the board keeps them, with the same
/// stone on every point, are the same board.
pub proof fn lemma_same_stones(a: SquareModel, b: SquareModel)
    requires
        a.wf(),
        b.wf(),
        forall|p: Point| p.valid() ==> #[trigger] a.stone_at(p) == b.stone_at(p),
    ensures
        a == b,
{
    assert forall|d: Direction, i: int| stored(d, i) implies #[trigger] a.line_spec(d, i) == b.line_spec(d, i) by {
        assert forall|k: int| 0 <= k < 16 implies #[trigger] a.line_spec(d, i).cell(k) == b.line_spec(d, i).cell(k) by {
            if k < line_size(d, i) {
                let idx = Index { d, i: i as u8, j: k as u8 };
                assert(idx.valid());
                lemma_index_point_roundtrip(idx);
                assert(a.line_spec(idx.d, idx.i as int).cell(idx.j as int) == a.stone_at(idx.point_of()));
                assert(b.line_spec(idx.d, idx.i as int).cell(idx.j as int) == b.stone_at(idx.point_of()));
            }
        }
        lemma_same_cells(a.line_spec(d, i), b.line_spec(d, i));
    }
    assert forall|k: int| 0 <= k < 15 implies a.v[k] == b.v[k] && a.h[k] == b.h[k] by {
        assert(a.line_spec(Vertical, k) == b.line_spec(Vertical, k));
        assert(a.line_spec(Horizontal, k) == b.line_spec(Horizontal, k));
    }
    assert forall|k: int| 0 <= k < 21 implies a.a[k] == b.a[k] && a.d[k] == b.d[k] by {
        assert(a.line_spec(Ascending, k + 4) == b.line_spec(Ascending, k + 4));
        assert(a.line_spec(Descending, k + 4) == b.line_spec(Descending, k + 4));
    }
    assert(a.v =~= b.v);
    assert(a.h =~= b.h);
    assert(a.a =~= b.a);
    assert(a.d =~= b.d);
}

/// A board written out by [`Square::to_string`] reads back by
/// [`Square::parse`] as the same board: the text is read row by row, and
/// whatever board the reading gives (`read`) is this one.
pub proof fn lemma_square_text_roundtrip(g: SquareModel, read: SquareModel)
    requires
        g.wf(),
        read.wf(),
        forall|p: Point| p.valid() ==> #[trigger] read.stone_at(p) == parsed_stone(rows_text(g, 15), p),
    ensures
        parse_ok(rows_text(g, 15)),
        read == g,
{
    let t = rows_text(g, 15);
    lemma_rows_text_split(g, 15);
    assert(!t.contains('/'));
    assert(!t.contains(','));
    let t1 = t.drop_first();
    assert(trimmed(t) == trimmed(t1));
    assert(t1[0] == t[1]);
    assert(trimmed(t1) == t1);
    let parts = split_at(t1, '\n');
    assert forall|k: int| 0 <= k < 15 implies #[trigger] rows_written(t)[k] == Seq::new(
        15,
        |i: int| cell_char(g.h[14 - k].cell(i)),
    ) by {
        let l = line_text(g.h[14 - k], 15);
        lemma_line_text_form(g.h[14 - k], 15);
        lemma_line_text_chars(g.h[14 - k], 15);
        lemma_trimmed_text(parts[k]);
        if k == 0 {
            assert(trimmed(l) == trimmed(l.drop_first()));
            lemma_trimmed_text(l);
            lemma_trimmed_text(l.drop_first());
        }
    }
    assert forall|p: Point| p.valid() implies #[trigger] parsed_stone(t, p) == g.stone_at(p) by {
        let k = 14 - p.1;
        assert(rows_written(t)[k] == Seq::new(15, |i: int| cell_char(g.h[14 - k].cell(i))));
        let idx = Index { d: Horizontal, i: p.1, j: p.0 };
        assert(idx.valid());
        assert(idx.point_of() == p);
        assert(g.line_spec(Horizontal, p.1 as int).cell(p.0 as int) == g.stone_at(p));
    }
    assert forall|p: Point| p.valid() implies #[trigger] read.stone_at(p) == g.stone_at(p) by {
        assert(parsed_stone(t, p) == g.stone_at(p));
    }
    lemma_same_stones(read, g);
}

} // verus!
