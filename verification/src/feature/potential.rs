use vstd::prelude::*;
use crate::board::board::{line_potentials, Board, BoardModel};
use crate::board::line::{lemma_potentials_below, potential_at, potentials_below, Line};
use crate::board::map::{key_of, lemma_key_line, lemma_key_of};
use crate::board::notation::push_char;
use crate::board::player::{Black, Player, White};
use crate::board::point::{
    lemma_index_point_roundtrip, lemma_point_index_roundtrip, max_j, Ascending, Descending, Direction,
    Horizontal, Index, Point, Vertical, RANGE,
};
use crate::board::square::{directions, key_line, line_size, stored, SquareModel, LINE_NUM};
use crate::board::zobrist::{lemma_point_at, lemma_point_at_valid, point_at};

verus! {

/// Where direction `d` comes among a point's four values.
pub open spec fn dir_slot(d: Direction) -> int {
    match d {
        Vertical => 0,
        Horizontal => 1,
        Ascending => 2,
        Descending => 3,
    }
}

/// The point's code, `x * 15 + y`.
pub open spec fn code_of_point(p: Point) -> int {
    p.0 * 15 + p.1
}

/// The potential the board `g` gives `q` along `d` for `r`: what
/// [`Line::potentials`] lists for its cell on the stored line through it,
/// or 0.
pub open spec fn target(g: SquareModel, r: Player, min: u8, q: Point, d: Direction) -> int {
    let idx = q.index_of(d);
    if stored(d, idx.i as int) {
        let line = g.line_spec(d, idx.i as int);
        if line.cap_of(r) >= min && line.cell(idx.j as int) is None && potential_at(line, r, min, idx.j as int)
            >= min {
            potential_at(line, r, min, idx.j as int)
        } else {
            0
        }
    } else {
        0
    }
}

/// The value the last entry for `idx` gives, or 0 if there is none.
pub open spec fn entry_for(l: Seq<(Index, u8)>, idx: Index) -> int
    decreases l.len(),
{
    if l.len() == 0 {
        0
    } else if l.last().0 == idx {
        l.last().1 as int
    } else {
        entry_for(l.drop_last(), idx)
    }
}

/// Whether some entry is for `idx`.
pub open spec fn has_entry(l: Seq<(Index, u8)>, idx: Index) -> bool {
    exists|m: int| 0 <= m < l.len() && #[trigger] l[m].0 == idx
}

/// An entry list's last entry for `idx` wins, whatever came before.
proof fn lemma_entry_for_add(a: Seq<(Index, u8)>, b: Seq<(Index, u8)>, idx: Index)
    ensures
        entry_for(a + b, idx) == if has_entry(b, idx) {
            entry_for(b, idx)
        } else {
            entry_for(a, idx)
        },
    decreases b.len(),
{
    if b.len() == 0 {
        assert(a + b =~= a);
    } else {
        assert((a + b).drop_last() =~= a + b.drop_last());
        assert((a + b).last() == b.last());
        lemma_entry_for_add(a, b.drop_last(), idx);
        if b.last().0 != idx {
            if has_entry(b, idx) {
                let m = choose|m: int| 0 <= m < b.len() && #[trigger] b[m].0 == idx;
                assert(b.drop_last()[m].0 == idx);
            }
            if has_entry(b.drop_last(), idx) {
                let m = choose|m: int| 0 <= m < b.drop_last().len() && #[trigger] b.drop_last()[m].0 == idx;
                assert(b[m].0 == idx);
            }
        } else {
            assert(b[b.len() - 1].0 == idx);
        }
    }
}

/// The one entry for `idx` is what [`entry_for`] gives.
proof fn lemma_entry_for_unique(l: Seq<(Index, u8)>, idx: Index, m: int)
    requires
        0 <= m < l.len(),
        l[m].0 == idx,
        forall|q: int| 0 <= q < l.len() && q != m ==> #[trigger] l[q].0 != idx,
    ensures
        entry_for(l, idx) == l[m].1,
    decreases l.len(),
{
    if m < l.len() - 1 {
        assert(l.last().0 != idx);
        assert forall|q: int| 0 <= q < l.drop_last().len() && q != m implies #[trigger] l.drop_last()[q].0 != idx by {
            assert(l.drop_last()[q] == l[q]);
        }
        lemma_entry_for_unique(l.drop_last(), idx, m);
    }
}

/// With no entry for `idx`, [`entry_for`] gives 0.
proof fn lemma_entry_for_none(l: Seq<(Index, u8)>, idx: Index)
    requires
        !has_entry(l, idx),
    ensures
        entry_for(l, idx) == 0,
    decreases l.len(),
{
    if l.len() > 0 {
        assert(l.last().0 != idx) by {
            if l.last().0 == idx {
                assert(l[l.len() - 1].0 == idx);
            }
        }
        assert(!has_entry(l.drop_last(), idx)) by {
            if has_entry(l.drop_last(), idx) {
                let m = choose|m: int| 0 <= m < l.drop_last().len() && #[trigger] l.drop_last()[m].0 == idx;
                assert(l[m].0 == idx);
            }
        }
        lemma_entry_for_none(l.drop_last(), idx);
    }
}

/// The entries [`line_potentials`] lists for line `i` in direction `d`:
/// one for each of its empty cells whose potential reaches `min`, worth
/// that potential, as long as the line's cap reaches `min`.
proof fn lemma_line_entries(d: Direction, i: int, line: Line, r: Player, min: u8, idx: Index)
    requires
        line.wf(),
        0 <= i <= 28,
        stored(d, i),
        line.size == line_size(d, i),
    ensures
        has_entry(line_potentials(d, i, line, r, min), idx) <==> (idx.d == d && idx.i == i && idx.j < line.size
            && line.cap_of(r) >= min && line.cell(idx.j as int) is None && potential_at(line, r, min, idx.j as int)
            >= min),
        entry_for(line_potentials(d, i, line, r, min), idx) == if has_entry(line_potentials(d, i, line, r, min), idx) {
            potential_at(line, r, min, idx.j as int)
        } else {
            0
        },
        forall|m: int|
            0 <= m < line_potentials(d, i, line, r, min).len() ==> (#[trigger] line_potentials(d, i, line, r, min)[m]).1 <= 30
                && line_potentials(d, i, line, r, min)[m].0.d == d && line_potentials(d, i, line, r, min)[m].0.i == i
                && line_potentials(d, i, line, r, min)[m].0.valid(),
{
    let lp = line_potentials(d, i, line, r, min);
    if line.cap_of(r) >= min {
        let pb = potentials_below(line, r, min, line.size as nat);
        lemma_potentials_below(line, r, min, line.size as nat);
        assert(lp.len() == pb.len());
        assert forall|m: int| 0 <= m < lp.len() implies (#[trigger] lp[m]).1 <= 30 && lp[m].0.d == d && lp[m].0.i == i
            && lp[m].0.valid() by {
            assert(lp[m] == (Index { d, i: i as u8, j: pb[m].0 }, pb[m].1));
        }
        if has_entry(lp, idx) {
            let m = choose|m: int| 0 <= m < lp.len() && #[trigger] lp[m].0 == idx;
            assert(lp[m] == (Index { d, i: i as u8, j: pb[m].0 }, pb[m].1));
            assert forall|q: int| 0 <= q < lp.len() && q != m implies #[trigger] lp[q].0 != idx by {
                assert(lp[q] == (Index { d, i: i as u8, j: pb[q].0 }, pb[q].1));
                if q < m {
                    assert(pb[q].0 < pb[m].0);
                } else {
                    assert(pb[m].0 < pb[q].0);
                }
            }
            lemma_entry_for_unique(lp, idx, m);
        } else {
            if idx.d == d && idx.i == i && idx.j < line.size && line.cell(idx.j as int) is None && potential_at(
                line,
                r,
                min,
                idx.j as int,
            ) >= min {
                let m = choose|m: int| 0 <= m < pb.len() && #[trigger] pb[m].0 == idx.j as int;
                assert(lp[m] == (Index { d, i: i as u8, j: pb[m].0 }, pb[m].1));
                assert(lp[m].0 == idx);
            }
            lemma_entry_for_none(lp, idx);
        }
    } else {
        assert(lp =~= Seq::<(Index, u8)>::empty());
        lemma_entry_for_none(lp, idx);
    }
}

/// What the board's potentials over the first `n` stored lines give the
/// cell `idx`: its potential if its line comes among them.
proof fn lemma_upto_entries(g: BoardModel, r: Player, min: u8, n: int, idx: Index)
    requires
        g.wf(),
        idx.valid(),
        0 <= n <= LINE_NUM,
    ensures
        entry_for(g.potentials_upto(r, min, n), idx) == if stored(idx.d, idx.i as int) && key_of(idx.d, idx.i as int) < n {
            target(g.square, r, min, idx.point_of(), idx.d)
        } else {
            0
        },
        forall|m: int|
            0 <= m < g.potentials_upto(r, min, n).len() ==> (#[trigger] g.potentials_upto(r, min, n)[m]).1 <= 30
                && g.potentials_upto(r, min, n)[m].0.valid(),
    decreases n,
{
    lemma_index_point_roundtrip(idx);
    if n > 0 {
        lemma_upto_entries(g, r, min, n - 1, idx);
        let (d, i) = key_line(n - 1);
        lemma_key_line(n - 1);
        let line = g.square.line_spec(d, i);
        assert(line.wf() && line.size == line_size(d, i));
        lemma_line_entries(d, i, line, r, min, idx);
        lemma_entry_for_add(g.potentials_upto(r, min, n - 1), line_potentials(d, i, line, r, min), idx);
        if stored(idx.d, idx.i as int) {
            lemma_key_of(idx.d, idx.i as int);
        }
        let a = g.potentials_upto(r, min, n - 1);
        let b = line_potentials(d, i, line, r, min);
        assert forall|m: int| 0 <= m < (a + b).len() implies (#[trigger] (a + b)[m]).1 <= 30 && (a + b)[m].0.valid() by {
            if m >= a.len() {
                assert((a + b)[m] == b[m - a.len()]);
            }
        }
    } else {
        lemma_entry_for_none(g.potentials_upto(r, min, n), idx);
    }
}

/// What the board's potentials along the first `n` directions through
/// `p` give the cell `idx`: its potential if its line is among them.
proof fn lemma_along_entries(g: BoardModel, p: Point, r: Player, min: u8, n: int, idx: Index)
    requires
        g.wf(),
        p.valid(),
        idx.valid(),
        0 <= n <= 4,
    ensures
        entry_for(g.potentials_along_upto(p, r, min, n), idx) == if dir_slot(idx.d) < n && idx.i == p.index_of(idx.d).i {
            target(g.square, r, min, idx.point_of(), idx.d)
        } else {
            0
        },
        forall|m: int|
            0 <= m < g.potentials_along_upto(p, r, min, n).len() ==> (#[trigger] g.potentials_along_upto(p, r, min, n)[m]).1 <= 30
                && g.potentials_along_upto(p, r, min, n)[m].0.i == p.index_of(g.potentials_along_upto(p, r, min, n)[m].0.d).i
                && g.potentials_along_upto(p, r, min, n)[m].0.valid(),
    decreases n,
{
    lemma_index_point_roundtrip(idx);
    if n > 0 {
        lemma_along_entries(g, p, r, min, n - 1, idx);
        let d = directions()[n - 1];
        let pi = p.index_of(d);
        lemma_point_index_roundtrip(p, d);
        let a = g.potentials_along_upto(p, r, min, n - 1);
        if stored(pi.d, pi.i as int) {
            let line = g.square.line_spec(pi.d, pi.i as int);
            assert(line.wf() && line.size == line_size(pi.d, pi.i as int));
            lemma_line_entries(pi.d, pi.i as int, line, r, min, idx);
            let b = line_potentials(pi.d, pi.i as int, line, r, min);
            lemma_entry_for_add(a, b, idx);
            assert forall|m: int| 0 <= m < (a + b).len() implies (#[trigger] (a + b)[m]).1 <= 30 && (a + b)[m].0.i
                == p.index_of((a + b)[m].0.d).i && (a + b)[m].0.valid() by {
                if m >= a.len() {
                    assert((a + b)[m] == b[m - a.len()]);
                }
            }
        }
    } else {
        lemma_entry_for_none(g.potentials_along_upto(p, r, min, n), idx);
    }
}

/// How useful a stone at each point would be to one player, for move
/// ordering.
///
/// Updates can be eager ([`Self::update_along`]) or lazy:
/// [`Self::mark_stale`] only notes the point, and [`Self::sync`] recomputes
/// the lines through every point noted since. Read the field
/// ([`Self::get`], [`Self::collect`]) when it is in sync with the board.
pub struct PotentialField {
    /// Per point (by code) and per direction, in the order of
    /// [`directions`], the potential along that line.
    potentials: Vec<u8>,
    player: Player,
    min: u8,
    /// Points played or taken back since the last [`Self::sync`], one bit
    /// per point code.
    stale: Vec<u64>,
}

/// What a [`PotentialField`] holds.
pub struct PotentialFieldModel {
    pub potentials: Seq<u8>,
    pub player: Player,
    pub min: u8,
    pub stale: Seq<u64>,
}

impl View for PotentialField {
    type V = PotentialFieldModel;

    closed spec fn view(&self) -> PotentialFieldModel {
        PotentialFieldModel {
            potentials: self.potentials@,
            player: self.player,
            min: self.min,
            stale: self.stale@,
        }
    }
}

impl PotentialFieldModel {
    /// The potential held for `q` along `d`.
    pub open spec fn value(self, q: Point, d: Direction) -> u8 {
        self.potentials[code_of_point(q) * 4 + dir_slot(d)]
    }

    /// The potential held for `q`, all four lines together.
    pub open spec fn sum(self, q: Point) -> int {
        self.value(q, Vertical) + self.value(q, Horizontal) + self.value(q, Ascending) + self.value(q, Descending)
    }

    /// Whether a move on `s` was noted since the last sync.
    pub open spec fn is_stale(self, s: Point) -> bool {
        let c = code_of_point(s);
        (self.stale[c / 64] >> ((c % 64) as u64)) & 1u64 == 1u64
    }

    /// The values are all there, none above 30, and the stale bits too.
    pub open spec fn wf(self) -> bool {
        &&& self.potentials.len() == 900
        &&& self.stale.len() == 4
        &&& forall|k: int| 0 <= k < 900 ==> #[trigger] self.potentials[k] <= 30
    }

    /// No point is stale.
    pub open spec fn synced(self) -> bool {
        forall|w: int| 0 <= w < 4 ==> #[trigger] self.stale[w] == 0
    }

    /// No stale point lies on line `i` in direction `d`.
    pub open spec fn clean(self, d: Direction, i: int) -> bool {
        forall|s: Point| s.valid() && #[trigger] self.is_stale(s) ==> s.index_of(d).i != i
    }

    /// Along every line with no stale point on it, the values are what the
    /// board `g` gives.
    pub open spec fn agrees(self, g: SquareModel) -> bool {
        forall|q: Point, d: Direction|
            q.valid() && self.clean(d, q.index_of(d).i as int) ==> #[trigger] self.value(q, d) == target(
                g,
                self.player,
                self.min,
                q,
                d,
            )
    }

    /// Along every line with no point of code `c` or above that `o` marks,
    /// the values are what the board `g` gives.
    pub open spec fn exact_beyond(self, g: SquareModel, o: PotentialFieldModel, c: int) -> bool {
        forall|q: Point, d: Direction|
            q.valid() && (forall|s: Point|
                s.valid() && #[trigger] o.is_stale(s) && code_of_point(s) >= c ==> s.index_of(d).i != q.index_of(
                    d,
                ).i) ==> #[trigger] self.value(q, d) == target(g, self.player, self.min, q, d)
    }

    /// Whether a point of code below `c` that this field marks stale lies
    /// on the line through `q` in direction `d`.
    pub open spec fn touched(self, c: int, q: Point, d: Direction) -> bool {
        exists|s: Point| s.valid() && #[trigger] self.is_stale(s) && code_of_point(s) < c && s.index_of(d).i == q.index_of(d).i
    }

    /// [`PotentialField::collect`] over the points of code below `n`.
    pub open spec fn collect_upto(self, min: u8, n: int) -> Seq<(Point, u8)>
        decreases n,
    {
        if n <= 0 {
            Seq::empty()
        } else {
            let rest = self.collect_upto(min, n - 1);
            let p = point_at(n - 1);
            if self.sum(p) >= min {
                rest.push((p, self.sum(p) as u8))
            } else {
                rest
            }
        }
    }
}

/// The digit `n` as a character.
pub open spec fn digit_char(n: int) -> char {
    (48 + n) as char
}

/// A number written right-aligned in two places, or in three when it
/// needs them.
pub open spec fn number_text(n: int) -> Seq<char> {
    if n < 10 {
        seq![' ', digit_char(n)]
    } else if n < 100 {
        seq![digit_char(n / 10), digit_char(n % 10)]
    } else {
        seq![digit_char(n / 100), digit_char((n / 10) % 10), digit_char(n % 10)]
    }
}

impl PotentialFieldModel {
    /// A point of the overlay: the stone on it, or its value, or `.` for
    /// nothing.
    pub open spec fn cell_text(self, g: SquareModel, p: Point) -> Seq<char> {
        match g.stone_at(p) {
            Some(Player::Black) => seq![' ', 'o'],
            Some(Player::White) => seq![' ', 'x'],
            None => if self.sum(p) == 0 {
                seq![' ', '.']
            } else {
                number_text(self.sum(p))
            },
        }
    }

    /// The first `n` points of row `y` of the overlay.
    pub open spec fn row_text(self, g: SquareModel, y: int, n: int) -> Seq<char>
        decreases n,
    {
        if n <= 0 {
            Seq::empty()
        } else {
            self.row_text(g, y, n - 1) + self.cell_text(g, Point((n - 1) as u8, y as u8))
        }
    }

    /// The rows of the overlay from the top one down to row `15 - n`,
    /// separated by line breaks.
    pub open spec fn overlay_text(self, g: SquareModel, n: int) -> Seq<char>
        decreases n,
    {
        if n <= 0 {
            Seq::empty()
        } else if n == 1 {
            self.row_text(g, 14, 15)
        } else {
            self.overlay_text(g, n - 1) + seq!['\n'] + self.row_text(g, 15 - n, 15)
        }
    }
}

/// After a move on `p`, recomputing the lines through `p` leaves the field
/// as a fresh one of the new board.
pub proof fn lemma_update_matches_init(
    f: PotentialFieldModel,
    f2: PotentialFieldModel,
    g: SquareModel,
    p: Point,
    c: Option<Player>,
)
    requires
        g.wf(),
        f.wf(),
        f.synced(),
        f.agrees(g),
        p.valid(),
        f2.player == f.player,
        f2.min == f.min,
        forall|q: Point, d: Direction|
            q.valid() ==> #[trigger] f2.value(q, d) == if q.index_of(d).i == p.index_of(d).i {
                target(g.set_spec(p, c), f.player, f.min, q, d)
            } else {
                f.value(q, d) as int
            },
    ensures
        forall|q: Point, d: Direction|
            q.valid() ==> #[trigger] f2.value(q, d) == target(g.set_spec(p, c), f.player, f.min, q, d),
{
    let g2 = g.set_spec(p, c);
    assert forall|q: Point, d: Direction| q.valid() implies #[trigger] f2.value(q, d) == target(g2, f.player, f.min, q, d) by {
        if q.index_of(d).i != p.index_of(d).i {
            lemma_synced_clean(f, d, q.index_of(d).i as int);
            assert(f.value(q, d) == target(g, f.player, f.min, q, d));
            let i = q.index_of(d).i as int;
            if stored(d, i) {
                assert(g2.line_spec(d, i) == g.line_spec(d, i));
            }
        }
    }
}

/// Setting bit `k` of a word, seen at bit `b`.
proof fn lemma_bit64_at(x: u64, k: u64, b: u64)
    by (bit_vector)
    requires
        k < 64,
        b < 64,
    ensures
        ((x | (1u64 << k)) >> b) & 1u64 == 1u64 <==> (x >> b) & 1u64 == 1u64 || b == k,
        (0u64 >> b) & 1u64 != 1u64,
{
}

/// A field with nothing stale agrees with a board wherever its values are
/// the board's.
proof fn lemma_synced_clean(f: PotentialFieldModel, d: Direction, i: int)
    requires
        f.wf(),
        f.synced(),
    ensures
        f.clean(d, i),
{
    assert forall|s: Point| s.valid() && #[trigger] f.is_stale(s) implies s.index_of(d).i != i by {
        let c = code_of_point(s);
        assert(0 <= c < 225);
        assert(f.stale[c / 64] == 0);
        lemma_bit64_at(0, 0, (c % 64) as u64);
    }
}

/// In sync with a board, a point's value is the sum of what the four
/// lines through it give.
pub proof fn lemma_sum_matches_board(f: PotentialFieldModel, g: SquareModel, p: Point)
    requires
        f.wf(),
        f.synced(),
        f.agrees(g),
        p.valid(),
    ensures
        f.sum(p) == target(g, f.player, f.min, p, Vertical) + target(g, f.player, f.min, p, Horizontal) + target(
            g,
            f.player,
            f.min,
            p,
            Ascending,
        ) + target(g, f.player, f.min, p, Descending),
{
    lemma_synced_clean(f, Vertical, p.index_of(Vertical).i as int);
    lemma_synced_clean(f, Horizontal, p.index_of(Horizontal).i as int);
    lemma_synced_clean(f, Ascending, p.index_of(Ascending).i as int);
    lemma_synced_clean(f, Descending, p.index_of(Descending).i as int);
    assert(f.value(p, Vertical) == target(g, f.player, f.min, p, Vertical));
    assert(f.value(p, Horizontal) == target(g, f.player, f.min, p, Horizontal));
    assert(f.value(p, Ascending) == target(g, f.player, f.min, p, Ascending));
    assert(f.value(p, Descending) == target(g, f.player, f.min, p, Descending));
}

/// After a move on `p`, a field that notes `p` as stale still agrees with
/// the board.
pub proof fn lemma_move_keeps_agreement(
    f: PotentialFieldModel,
    f2: PotentialFieldModel,
    g: SquareModel,
    p: Point,
    c: Option<Player>,
)
    requires
        g.wf(),
        p.valid(),
        f.agrees(g),
        f2.potentials == f.potentials,
        f2.player == f.player,
        f2.min == f.min,
        forall|s: Point| s.valid() ==> (#[trigger] f2.is_stale(s) <==> f.is_stale(s) || s == p),
    ensures
        f2.agrees(g.set_spec(p, c)),
{
    let g2 = g.set_spec(p, c);
    assert forall|q: Point, d: Direction|
        q.valid() && f2.clean(d, q.index_of(d).i as int) implies #[trigger] f2.value(q, d) == target(
        g2,
        f2.player,
        f2.min,
        q,
        d,
    ) by {
        assert(f2.is_stale(p));
        assert(p.index_of(d).i != q.index_of(d).i);
        assert(f.clean(d, q.index_of(d).i as int)) by {
            assert forall|s: Point| s.valid() && #[trigger] f.is_stale(s) implies s.index_of(d).i != q.index_of(d).i by {
                assert(f2.is_stale(s));
            }
        }
        assert(f.value(q, d) == target(g, f.player, f.min, q, d));
        let i = q.index_of(d).i as int;
        if stored(d, i) {
            assert(g2.line_spec(d, i) == g.line_spec(d, i));
        }
    }
}

/// The code of a point on the board, as an index.
fn point_code(p: Point) -> (res: usize)
    requires
        p.valid(),
    ensures
        res == code_of_point(p),
        res < 225,
{
    p.0 as usize * 15 + p.1 as usize
}

/// Where direction `d` comes among a point's four values.
fn direction_slot(d: Direction) -> (res: usize)
    ensures
        res == dir_slot(d),
{
    match d {
        Direction::Vertical => 0,
        Direction::Horizontal => 1,
        Direction::Ascending => 2,
        Direction::Descending => 3,
    }
}

impl PotentialField {
    /// A field of zeros, in sync with nothing played yet.
    pub fn new(player: Player, min: u8) -> (res: Self)
        ensures
            res@.wf(),
            res@.synced(),
            res@.player == player,
            res@.min == min,
            forall|k: int| 0 <= k < 900 ==> #[trigger] res@.potentials[k] == 0,
    {
        let mut potentials: Vec<u8> = Vec::new();
        let mut k: usize = 0;
        while k < 900
            invariant
                k <= 900,
                potentials@.len() == k,
                forall|m: int| 0 <= m < k ==> #[trigger] potentials@[m] == 0,
            decreases 900 - k,
        {
            potentials.push(0);
            k += 1;
        }
        let mut stale: Vec<u64> = Vec::new();
        stale.push(0);
        stale.push(0);
        stale.push(0);
        stale.push(0);
        PotentialField { potentials, player, min, stale }
    }

    /// The field of `board`: every point's potentials along the four lines
    /// through it.
    pub fn init(player: Player, min: u8, board: &Board) -> (res: Self)
        requires
            board@.wf(),
        ensures
            res@.wf(),
            res@.synced(),
            res@.player == player,
            res@.min == min,
            res@.agrees(board@.square),
    {
        let mut result = Self::new(player, min);
        let os = board.potentials(player, min);
        let ghost g = board@;
        proof {
            lemma_upto_entries(g, player, min, LINE_NUM as int, Index { d: Direction::Vertical, i: 0, j: 0 });
        }
        let mut m: usize = 0;
        while m < os.len()
            invariant
                result@.wf(),
                result@.synced(),
                result@.player == player,
                result@.min == min,
                os@ == g.potentials_upto(player, min, LINE_NUM as int),
                g.wf(),
                forall|q: int| 0 <= q < os@.len() ==> (#[trigger] os@[q]).1 <= 30 && os@[q].0.valid(),
                m <= os@.len(),
                forall|q: Point, d: Direction|
                    q.valid() ==> #[trigger] result@.value(q, d) == entry_for(os@.take(m as int), q.index_of(d)),
            decreases os@.len() - m,
        {
            let (idx, o) = os[m];
            assert(os@[m as int].0.valid() && os@[m as int].1 <= 30);
            result.set(idx, o);
            proof {
                assert forall|q: Point, d: Direction|
                    q.valid() implies #[trigger] result@.value(q, d) == entry_for(os@.take(m + 1), q.index_of(d)) by {
                    assert(os@.take(m + 1).drop_last() =~= os@.take(m as int));
                    assert(os@.take(m + 1).last() == (idx, o));
                    lemma_point_index_roundtrip(q, d);
                    lemma_index_point_roundtrip(idx);
                }
            }
            m += 1;
        }
        proof {
            assert(os@.take(m as int) =~= os@);
            assert forall|q: Point, d: Direction|
                q.valid() && result@.clean(d, q.index_of(d).i as int) implies #[trigger] result@.value(q, d) == target(
                g.square,
                player,
                min,
                q,
                d,
            ) by {
                lemma_point_index_roundtrip(q, d);
                let idx = q.index_of(d);
                lemma_upto_entries(g, player, min, LINE_NUM as int, idx);
                if stored(idx.d, idx.i as int) {
                    lemma_key_of(idx.d, idx.i as int);
                }
            }
        }
        result
    }

    /// Recomputes the lines through `p` from `board`.
    pub fn update_along(&mut self, p: Point, board: &Board)
        requires
            old(self)@.wf(),
            board@.wf(),
            p.valid(),
        ensures
            final(self)@.wf(),
            final(self)@.player == old(self)@.player,
            final(self)@.min == old(self)@.min,
            final(self)@.stale == old(self)@.stale,
            forall|q: Point, d: Direction|
                q.valid() ==> #[trigger] final(self)@.value(q, d) == if q.index_of(d).i == p.index_of(d).i {
                    target(board@.square, old(self)@.player, old(self)@.min, q, d)
                } else {
                    old(self)@.value(q, d) as int
                },
    {
        self.reset_along(p);
        let os = board.potentials_along(p, self.player, self.min);
        let ghost g = board@;
        let ghost mid = self@;
        proof {
            assert forall|q: int| 0 <= q < os@.len() implies (#[trigger] os@[q]).1 <= 30 && os@[q].0.i == p.index_of(os@[q].0.d).i
                && os@[q].0.valid() by {
                lemma_along_entries(g, p, self.player, self.min, 4, Index { d: Direction::Vertical, i: 0, j: 0 });
            }
        }
        let mut m: usize = 0;
        while m < os.len()
            invariant
                self@.wf(),
                self@.player == old(self)@.player,
                self@.min == old(self)@.min,
                self@.stale == old(self)@.stale,
                p.valid(),
                g.wf(),
                os@ == g.potentials_along_upto(p, self@.player, self@.min, 4),
                forall|q: int| 0 <= q < os@.len() ==> (#[trigger] os@[q]).1 <= 30 && os@[q].0.i == p.index_of(os@[q].0.d).i
                    && os@[q].0.valid(),
                m <= os@.len(),
                forall|q: Point, d: Direction|
                    q.valid() ==> #[trigger] self@.value(q, d) == if q.index_of(d).i == p.index_of(d).i {
                        entry_for(os@.take(m as int), q.index_of(d))
                    } else {
                        old(self)@.value(q, d) as int
                    },
            decreases os@.len() - m,
        {
            let (idx, o) = os[m];
            assert(os@[m as int].0.valid() && os@[m as int].1 <= 30);
            let ghost before = self@;
            self.set(idx, o);
            proof {
                assert forall|q: Point, d: Direction| q.valid() implies #[trigger] self@.value(q, d) == if q.index_of(d).i
                    == p.index_of(d).i {
                    entry_for(os@.take(m + 1), q.index_of(d))
                } else {
                    old(self)@.value(q, d) as int
                } by {
                    assert(os@.take(m + 1).drop_last() =~= os@.take(m as int));
                    assert(os@.take(m + 1).last() == (idx, o));
                    assert(before.value(q, d) == if q.index_of(d).i == p.index_of(d).i {
                        entry_for(os@.take(m as int), q.index_of(d))
                    } else {
                        old(self)@.value(q, d) as int
                    });
                }
            }
            m += 1;
        }
        proof {
            assert(os@.take(m as int) =~= os@);
            assert forall|q: Point, d: Direction| q.valid() implies #[trigger] self@.value(q, d) == if q.index_of(d).i
                == p.index_of(d).i {
                target(g.square, old(self)@.player, old(self)@.min, q, d)
            } else {
                old(self)@.value(q, d) as int
            } by {
                lemma_point_index_roundtrip(q, d);
                let idx = q.index_of(d);
                lemma_along_entries(g, p, old(self)@.player, old(self)@.min, 4, idx);
            }
        }
    }

    /// Notes that a stone was put on or taken off `p`.
    pub fn mark_stale(&mut self, p: Point)
        requires
            old(self)@.wf(),
            p.valid(),
        ensures
            final(self)@.wf(),
            final(self)@.potentials == old(self)@.potentials,
            final(self)@.player == old(self)@.player,
            final(self)@.min == old(self)@.min,
            forall|s: Point| s.valid() ==> (#[trigger] final(self)@.is_stale(s) <==> old(self)@.is_stale(s) || s == p),
    {
        let i = point_code(p);
        let w = self.stale[i / 64] | (1u64 << (i % 64) as u64);
        self.stale.set(i / 64, w);
        proof {
            assert forall|s: Point| s.valid() implies (#[trigger] self@.is_stale(s) <==> old(self)@.is_stale(s) || s == p) by {
                let c = code_of_point(s);
                if c / 64 == i / 64 {
                    lemma_bit64_at(old(self)@.stale[c / 64], (i % 64) as u64, (c % 64) as u64);
                    if c % 64 == i % 64 {
                        assert(c == i);
                    }
                }
            }
        }
    }

    /// Whether no point is stale.
    pub fn is_synced(&self) -> (res: bool)
        requires
            self@.wf(),
        ensures
            res == self@.synced(),
    {
        self.stale[0] == 0 && self.stale[1] == 0 && self.stale[2] == 0 && self.stale[3] == 0
    }

    /// Recomputes the lines through every stale point from `board`; a
    /// field that agreed with the board along the other lines then agrees
    /// with it everywhere.
    pub fn sync(&mut self, board: &Board)
        requires
            old(self)@.wf(),
            board@.wf(),
        ensures
            final(self)@.wf(),
            final(self)@.synced(),
            final(self)@.player == old(self)@.player,
            final(self)@.min == old(self)@.min,
            old(self)@.agrees(board@.square) ==> final(self)@.agrees(board@.square),
            forall|q: Point, d: Direction|
                q.valid() && !old(self)@.clean(d, q.index_of(d).i as int) ==> #[trigger] final(self)@.value(q, d) == target(
                    board@.square,
                    old(self)@.player,
                    old(self)@.min,
                    q,
                    d,
                ),
            forall|q: Point, d: Direction|
                q.valid() && old(self)@.clean(d, q.index_of(d).i as int) ==> #[trigger] final(self)@.value(q, d) == old(self)@.value(q, d),
    {
        let ghost o = self@;
        let ghost g = board@.square;
        proof {
            if o.agrees(g) {
                assert forall|q: Point, d: Direction|
                    q.valid() && (forall|s: Point|
                        s.valid() && #[trigger] o.is_stale(s) && code_of_point(s) >= 0 ==> s.index_of(d).i
                            != q.index_of(d).i) implies #[trigger] self@.value(q, d) == target(g, self@.player, self@.min, q, d) by {
                    assert(o.clean(d, q.index_of(d).i as int));
                }
            }
        }
        let mut c: usize = 0;
        while c < 225
            invariant
                self@.wf(),
                board@.wf(),
                g == board@.square,
                c <= 225,
                self@.stale == o.stale,
                self@.player == o.player,
                self@.min == o.min,
                o.wf(),
                o.agrees(g) ==> self@.exact_beyond(g, o, c as int),
                forall|q: Point, d: Direction|
                    q.valid() && o.touched(c as int, q, d) ==> #[trigger] self@.value(q, d) == target(g, o.player, o.min, q, d),
                forall|q: Point, d: Direction|
                    q.valid() && !o.touched(c as int, q, d) ==> #[trigger] self@.value(q, d) == o.value(q, d),
            decreases 225 - c,
        {
            let ghost before = self@;
            let s = Point((c / 15) as u8, (c % 15) as u8);
            proof {
                lemma_point_at_valid(c as int);
                assert(s == point_at(c as int));
            }
            if (self.stale[c / 64] >> (c % 64) as u64) & 1 == 1 {
                assert(o.is_stale(s));
                self.update_along(s, board);
                proof {
                    assert forall|q: Point, d: Direction| q.valid() implies (#[trigger] o.touched(c + 1, q, d) == (o.touched(
                        c as int,
                        q,
                        d,
                    ) || q.index_of(d).i == s.index_of(d).i)) by {
                        lemma_touched_step(o, c as int, q, d, s);
                    }
                    assert forall|q: Point, d: Direction| q.valid() && o.touched(c + 1, q, d) implies #[trigger] self@.value(q, d)
                        == target(g, o.player, o.min, q, d) by {
                        assert(o.touched(c + 1, q, d));
                        if q.index_of(d).i != s.index_of(d).i {
                            assert(before.value(q, d) == target(g, o.player, o.min, q, d));
                        }
                    }
                    assert forall|q: Point, d: Direction| q.valid() && !o.touched(c + 1, q, d) implies #[trigger] self@.value(q, d)
                        == o.value(q, d) by {
                        assert(!o.touched(c + 1, q, d));
                        assert(before.value(q, d) == o.value(q, d));
                    }
                    if o.agrees(g) {
                        assert forall|q: Point, d: Direction|
                            q.valid() && (forall|t: Point|
                                t.valid() && #[trigger] o.is_stale(t) && code_of_point(t) >= c + 1 ==> t.index_of(d).i
                                    != q.index_of(d).i) implies #[trigger] self@.value(q, d) == target(
                            g,
                            self@.player,
                            self@.min,
                            q,
                            d,
                        ) by {
                            if q.index_of(d).i != s.index_of(d).i {
                                assert forall|t: Point|
                                    t.valid() && #[trigger] o.is_stale(t) && code_of_point(t) >= c implies t.index_of(d).i
                                    != q.index_of(d).i by {
                                    if code_of_point(t) == c {
                                        lemma_point_at(t);
                                    }
                                }
                                assert(before.exact_beyond(g, o, c as int));
                            }
                        }
                    }
                }
            } else {
                proof {
                    assert(!o.is_stale(s));
                    assert forall|q: Point, d: Direction| q.valid() implies (#[trigger] o.touched(c + 1, q, d) == o.touched(
                        c as int,
                        q,
                        d,
                    )) by {
                        lemma_touched_step(o, c as int, q, d, s);
                    }
                    assert forall|q: Point, d: Direction| q.valid() && o.touched(c + 1, q, d) implies #[trigger] self@.value(q, d)
                        == target(g, o.player, o.min, q, d) by {
                        assert(o.touched(c as int, q, d));
                    }
                    assert forall|q: Point, d: Direction| q.valid() && !o.touched(c + 1, q, d) implies #[trigger] self@.value(q, d)
                        == o.value(q, d) by {
                        assert(!o.touched(c as int, q, d));
                    }
                    if o.agrees(g) {
                        assert forall|q: Point, d: Direction|
                            q.valid() && (forall|t: Point|
                                t.valid() && #[trigger] o.is_stale(t) && code_of_point(t) >= c + 1 ==> t.index_of(d).i
                                    != q.index_of(d).i) implies #[trigger] self@.value(q, d) == target(
                            g,
                            self@.player,
                            self@.min,
                            q,
                            d,
                        ) by {
                            assert forall|t: Point|
                                t.valid() && #[trigger] o.is_stale(t) && code_of_point(t) >= c implies t.index_of(d).i
                                != q.index_of(d).i by {
                                if code_of_point(t) == c {
                                    lemma_point_at(t);
                                    assert(t == s);
                                }
                            }
                            assert(before.exact_beyond(g, o, c as int));
                        }
                    }
                }
            }
            c += 1;
        }
        let ghost done = self@;
        self.stale.set(0, 0);
        self.stale.set(1, 0);
        self.stale.set(2, 0);
        self.stale.set(3, 0);
        proof {
            assert forall|w: int| 0 <= w < 4 implies #[trigger] self@.stale[w] == 0 by {}
            if o.agrees(g) {
                assert forall|q: Point, d: Direction|
                    q.valid() && self@.clean(d, q.index_of(d).i as int) implies #[trigger] self@.value(q, d) == target(
                    g,
                    self@.player,
                    self@.min,
                    q,
                    d,
                ) by {
                    assert(done.exact_beyond(g, o, 225));
                    assert forall|t: Point|
                        t.valid() && #[trigger] o.is_stale(t) && code_of_point(t) >= 225 implies t.index_of(d).i
                        != q.index_of(d).i by {}
                    assert(done.value(q, d) == self@.value(q, d));
                }
            }
            assert forall|q: Point, d: Direction| q.valid() implies #[trigger] o.touched(225, q, d) == !o.clean(
                d,
                q.index_of(d).i as int,
            ) by {
                if !o.clean(d, q.index_of(d).i as int) {
                    let t = choose|t: Point| t.valid() && #[trigger] o.is_stale(t) && t.index_of(d).i == q.index_of(d).i as int;
                    assert(code_of_point(t) < 225);
                }
            }
            assert forall|q: Point, d: Direction| q.valid() && !o.clean(d, q.index_of(d).i as int) implies #[trigger] self@.value(q, d)
                == target(g, o.player, o.min, q, d) by {
                assert(o.touched(225, q, d));
                assert(done.value(q, d) == self@.value(q, d));
            }
            assert forall|q: Point, d: Direction| q.valid() && o.clean(d, q.index_of(d).i as int) implies #[trigger] self@.value(q, d)
                == o.value(q, d) by {
                assert(!o.touched(225, q, d));
                assert(done.value(q, d) == self@.value(q, d));
            }
        }
    }

    /// The value of `p`: its potentials along the four lines together.
    pub fn get(&self, p: Point) -> (res: u8)
        requires
            self@.wf(),
            p.valid(),
        ensures
            res == self@.sum(p),
    {
        self.sum(p)
    }

    /// Every point, `x` first, with its value, if that reaches `min`.
    pub fn collect(&self, min: u8) -> (res: Vec<(Point, u8)>)
        requires
            self@.wf(),
        ensures
            res@ == self@.collect_upto(min, 225),
    {
        let mut res: Vec<(Point, u8)> = Vec::new();
        let mut x: u8 = 0;
        while x < RANGE
            invariant
                self@.wf(),
                x <= RANGE,
                res@ == self@.collect_upto(min, x * 15),
            decreases RANGE - x,
        {
            let mut y: u8 = 0;
            while y < RANGE
                invariant
                    self@.wf(),
                    x < RANGE,
                    y <= RANGE,
                    res@ == self@.collect_upto(min, x * 15 + y),
                decreases RANGE - y,
            {
                let p = Point(x, y);
                proof {
                    lemma_point_at(p);
                }
                let o = self.sum(p);
                if o >= min {
                    res.push((p, o));
                }
                y += 1;
            }
            x += 1;
        }
        res
    }

    /// Empties the lines through `p`.
    fn reset_along(&mut self, p: Point)
        requires
            old(self)@.wf(),
            p.valid(),
        ensures
            final(self)@.wf(),
            final(self)@.player == old(self)@.player,
            final(self)@.min == old(self)@.min,
            final(self)@.stale == old(self)@.stale,
            forall|q: Point, d: Direction|
                q.valid() ==> #[trigger] final(self)@.value(q, d) == if q.index_of(d).i == p.index_of(d).i {
                    0
                } else {
                    old(self)@.value(q, d)
                },
    {
        let indices = [
            p.to_index(Direction::Vertical),
            p.to_index(Direction::Horizontal),
            p.to_index(Direction::Ascending),
            p.to_index(Direction::Descending),
        ];
        let mut n: usize = 0;
        while n < 4
            invariant
                self@.wf(),
                self@.player == old(self)@.player,
                self@.min == old(self)@.min,
                self@.stale == old(self)@.stale,
                p.valid(),
                n <= 4,
                forall|m: int| 0 <= m < 4 ==> #[trigger] indices@[m] == p.index_of(directions()[m]),
                forall|q: Point, d: Direction|
                    q.valid() ==> #[trigger] self@.value(q, d) == if dir_slot(d) < n && q.index_of(d).i == p.index_of(d).i {
                        0
                    } else {
                        old(self)@.value(q, d)
                    },
            decreases 4 - n,
        {
            let idx = indices[n];
            assert(idx == p.index_of(directions()[n as int]));
            proof {
                lemma_point_index_roundtrip(p, idx.d);
            }
            let mut j: u8 = 0;
            while j < RANGE
                invariant
                    self@.wf(),
                    self@.player == old(self)@.player,
                    self@.min == old(self)@.min,
                    self@.stale == old(self)@.stale,
                    p.valid(),
                    n < 4,
                    j <= RANGE,
                    idx == p.index_of(directions()[n as int]),
                    idx.valid(),
                    dir_slot(idx.d) == n,
                    forall|q: Point, d: Direction|
                        q.valid() ==> #[trigger] self@.value(q, d) == if (dir_slot(d) < n && q.index_of(d).i == p.index_of(d).i)
                            || (d == idx.d && q.index_of(d).i == idx.i && q.index_of(d).j < j) {
                            0
                        } else {
                            old(self)@.value(q, d)
                        },
                decreases RANGE - j,
            {
                if j <= idx.maxj() {
                    let ghost before = self@;
                    self.set(Index::new(idx.d, idx.i, j), 0);
                    proof {
                        assert forall|q: Point, d: Direction| q.valid() implies #[trigger] self@.value(q, d) == if (dir_slot(d)
                            < n && q.index_of(d).i == p.index_of(d).i) || (d == idx.d && q.index_of(d).i == idx.i
                            && q.index_of(d).j < j + 1) {
                            0
                        } else {
                            old(self)@.value(q, d)
                        } by {
                            assert(before.value(q, d) == if (dir_slot(d) < n && q.index_of(d).i == p.index_of(d).i) || (d
                                == idx.d && q.index_of(d).i == idx.i && q.index_of(d).j < j) {
                                0
                            } else {
                                old(self)@.value(q, d)
                            });
                            lemma_point_index_roundtrip(q, d);
                        }
                    }
                } else {
                    proof {
                        assert forall|q: Point, d: Direction| q.valid() implies #[trigger] self@.value(q, d) == if (dir_slot(d)
                            < n && q.index_of(d).i == p.index_of(d).i) || (d == idx.d && q.index_of(d).i == idx.i
                            && q.index_of(d).j < j + 1) {
                            0
                        } else {
                            old(self)@.value(q, d)
                        } by {
                            lemma_point_index_roundtrip(q, d);
                        }
                    }
                }
                j += 1;
            }
            proof {
                assert forall|q: Point, d: Direction| q.valid() implies #[trigger] self@.value(q, d) == if dir_slot(d) < n
                    + 1 && q.index_of(d).i == p.index_of(d).i {
                    0
                } else {
                    old(self)@.value(q, d)
                } by {
                    lemma_point_index_roundtrip(q, d);
                }
            }
            n += 1;
        }
    }

    /// The value of `p`, all four lines together.
    fn sum(&self, p: Point) -> (res: u8)
        requires
            self@.wf(),
            p.valid(),
        ensures
            res == self@.sum(p),
    {
        let k = point_code(p) * 4;
        self.potentials[k] + self.potentials[k + 1] + self.potentials[k + 2] + self.potentials[k + 3]
    }

    /// Sets the potential of the cell `i` along its line.
    fn set(&mut self, i: Index, o: u8)
        requires
            old(self)@.wf(),
            i.valid(),
            o <= 30,
        ensures
            final(self)@.wf(),
            final(self)@.player == old(self)@.player,
            final(self)@.min == old(self)@.min,
            final(self)@.stale == old(self)@.stale,
            forall|q: Point, d: Direction|
                q.valid() ==> #[trigger] final(self)@.value(q, d) == if q.index_of(d) == i {
                    o
                } else {
                    old(self)@.value(q, d)
                },
    {
        let p = i.to_point();
        let k = point_code(p) * 4 + direction_slot(i.d);
        self.potentials.set(k, o);
        proof {
            lemma_index_point_roundtrip(i);
            assert forall|q: Point, d: Direction| q.valid() implies #[trigger] self@.value(q, d) == if q.index_of(d) == i {
                o
            } else {
                old(self)@.value(q, d)
            } by {
                lemma_point_index_roundtrip(q, d);
                if code_of_point(q) * 4 + dir_slot(d) == k {
                    assert(code_of_point(q) == code_of_point(p) && dir_slot(d) == dir_slot(i.d));
                    assert(q == p);
                    assert(d == i.d);
                }
                if q.index_of(d) == i {
                    assert(q == i.point_of());
                }
            }
        }
    }

    /// The board with each empty point's value, row 15 first: ` o` and
    /// ` x` for the stones, ` .` for nothing.
    pub fn overlay(&self, board: &Board) -> (res: String)
        requires
            self@.wf(),
            board@.wf(),
        ensures
            res@ == self@.overlay_text(board@.square, 15),
    {
        let mut res = String::new();
        let mut n: u8 = 0;
        while n < RANGE
            invariant
                self@.wf(),
                board@.wf(),
                n <= RANGE,
                res@ == self@.overlay_text(board@.square, n as int),
            decreases RANGE - n,
        {
            if n > 0 {
                push_char(&mut res, '\n');
            }
            let y = RANGE - 1 - n;
            let ghost start = res@;
            let mut x: u8 = 0;
            while x < RANGE
                invariant
                    self@.wf(),
                    board@.wf(),
                    x <= RANGE,
                    y < RANGE,
                    res@ == start + self@.row_text(board@.square, y as int, x as int),
                decreases RANGE - x,
            {
                let p = Point(x, y);
                let ghost before = res@;
                match board.stone(p) {
                    Some(Player::Black) => {
                        push_char(&mut res, ' ');
                        push_char(&mut res, 'o');
                    },
                    Some(Player::White) => {
                        push_char(&mut res, ' ');
                        push_char(&mut res, 'x');
                    },
                    None => {
                        let po = self.sum(p);
                        if po == 0 {
                            push_char(&mut res, ' ');
                            push_char(&mut res, '.');
                        } else {
                            push_number(&mut res, po);
                        }
                    },
                }
                assert(res@ =~= before + self@.cell_text(board@.square, p));
                assert(res@ =~= start + self@.row_text(board@.square, y as int, x + 1));
                x += 1;
            }
            n += 1;
        }
        res
    }
}

/// Appends `n` right-aligned in two places, or in three when it needs
/// them.
fn push_number(s: &mut String, n: u8)
    ensures
        final(s)@ == old(s)@ + number_text(n as int),
{
    if n < 10 {
        push_char(s, ' ');
        push_char(s, (48u8 + n) as char);
    } else if n < 100 {
        push_char(s, (48u8 + n / 10) as char);
        push_char(s, (48u8 + n % 10) as char);
    } else {
        push_char(s, (48u8 + n / 100) as char);
        push_char(s, (48u8 + (n / 10) % 10) as char);
        push_char(s, (48u8 + n % 10) as char);
    }
    assert(s@ =~= old(s)@ + number_text(n as int));
}

/// One point more: the lines touched below `c + 1` are those touched below
/// `c` and, if the point of code `c` is stale, the lines through it.
proof fn lemma_touched_step(o: PotentialFieldModel, c: int, q: Point, d: Direction, s: Point)
    requires
        0 <= c < 225,
        s == point_at(c),
    ensures
        o.touched(c + 1, q, d) == (o.touched(c, q, d) || (o.is_stale(s) && q.index_of(d).i == s.index_of(d).i)),
{
    lemma_point_at_valid(c);
    if o.touched(c + 1, q, d) {
        let t = choose|t: Point|
            t.valid() && #[trigger] o.is_stale(t) && code_of_point(t) < c + 1 && t.index_of(d).i == q.index_of(d).i;
        if code_of_point(t) == c {
            lemma_point_at(t);
            assert(t == s);
        }
    }
    if o.is_stale(s) && q.index_of(d).i == s.index_of(d).i {
        assert(code_of_point(s) == c);
        assert(s.valid() && o.is_stale(s) && code_of_point(s) < c + 1 && s.index_of(d).i == q.index_of(d).i);
    }
    if o.touched(c, q, d) {
        let t = choose|t: Point|
            t.valid() && #[trigger] o.is_stale(t) && code_of_point(t) < c && t.index_of(d).i == q.index_of(d).i;
        assert(t.valid() && o.is_stale(t) && code_of_point(t) < c + 1 && t.index_of(d).i == q.index_of(d).i);
    }
}

} // verus!
