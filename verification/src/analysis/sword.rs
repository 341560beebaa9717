use vstd::prelude::*;
use crate::board::board::Board;
use crate::board::map::{
    bit128, first_window, key_of, lemma_bit128_set, lemma_bit_set, lemma_bit_zero, lemma_key_line,
    lemma_key_of, lemma_swords_from, lemma_swords_from_on, starts_ok, sword_walk, swords_from,
    through_mask,
};
use crate::board::player::{Black, Player, White};
use crate::board::point::{max_j, Direction, Index, Point};
use crate::board::sequence::{lemma_emits_single, ones8, single_hit, window_bits, Sequence, Sequences};
use crate::board::square::{directions, key_line, line_size, stored, SquareModel, D_LINE_OMIT, LINE_NUM};
use crate::board::structure::{points_along, Structure, StructureKind};
use crate::board::util::{bit_of, eyes, lemma_positions, lemma_two_eyes, ones5, positions};

verus! {

/// Five-cell windows in a full-length line.
pub const WINDOWS: usize = 11;

/// The pairs a sword gives: its two eyes, both ways round, as
/// `(four-making move, the block it leaves)`.
pub open spec fn sword_pairs(s: Structure) -> Seq<(Point, Point)> {
    let e = points_along(s.start, positions((!s.sequence.0 & 0b11111u8) as u16, 5));
    seq![(e[0], e[1]), (e[1], e[0])]
}

/// The pairs of each sword in turn.
pub open spec fn scan_pairs(ss: Seq<Structure>) -> Seq<(Point, Point)>
    decreases ss.len(),
{
    if ss.len() == 0 {
        Seq::empty()
    } else {
        scan_pairs(ss.drop_last()) + sword_pairs(ss.last())
    }
}

/// The pairs of two lists of swords one after the other.
pub proof fn lemma_scan_pairs_add(a: Seq<Structure>, b: Seq<Structure>)
    ensures
        scan_pairs(a + b) == scan_pairs(a) + scan_pairs(b),
    decreases b.len(),
{
    if b.len() == 0 {
        assert(a + b =~= a);
        assert(scan_pairs(a) + scan_pairs(b) =~= scan_pairs(a));
    } else {
        assert((a + b).drop_last() =~= a + b.drop_last());
        assert((a + b).last() == b.last());
        lemma_scan_pairs_add(a, b.drop_last());
        assert(scan_pairs(a + b) =~= scan_pairs(a) + scan_pairs(b));
    }
}

/// The bits of a window read from cells 1-5 of the shifted stones.
proof fn lemma_window_shape(wm: u16, jj: u8, w: u8)
    by (bit_vector)
    requires
        w == (wm >> jj) as u8 & 0b00111110u8,
    ensures
        w & 1 == 0,
        (w >> 6) & 1 == 0,
        (w >> 7) & 1 == 0,
        (w >> 1) < 32,
        ((w >> 1) >> 1) & 1 == (w >> 2) & 1,
        ((w >> 1) >> 2) & 1 == (w >> 3) & 1,
        ((w >> 1) >> 3) & 1 == (w >> 4) & 1,
        ((w >> 1) >> 4) & 1 == (w >> 5) & 1,
{
}

/// A window read from cells 1-5 holds as many stones once shifted down.
proof fn lemma_ones_shift(wm: u16, jj: u8)
    ensures
        ones8((wm >> jj) as u8 & 0b00111110u8) == ones5(((wm >> jj) as u8 & 0b00111110u8) >> 1),
        ((wm >> jj) as u8 & 0b00111110u8) >> 1 < 32,
{
    lemma_window_shape(wm, jj, (wm >> jj) as u8 & 0b00111110u8);
}

/// Where one player's swords are, kept up to date move by move.
///
/// A sword is three own stones in a five-cell window with no opponent
/// stone (for Black, also no own stone just outside it), so it has two
/// empty eyes: playing one makes a four and leaves the other as the only
/// block. This keeps the swords per line, so that a move only costs the
/// (at most four) lines through it.
///
/// Updates are lazy: [`Self::mark_stale`] only notes which lines a move
/// touched, and [`Self::sync`] recomputes those lines from the board. In
/// sync with the board, the pairs ([`Self::move_pairs`],
/// [`Self::move_pairs_on`]) come out in the order [`Board::structures`] /
/// [`Board::structures_on`] list the swords.
pub struct SwordField {
    player: Player,
    /// Lines holding at least one sword, one bit per line.
    occupied: u128,
    /// Per line, bit `j` is set if a sword's window starts at cell `j`.
    starts: Vec<u16>,
    /// Per line and window start, the sword's stones, line after line:
    /// bit `k` for cell `j + k`. Only meaningful where `starts` has the
    /// bit.
    patterns: Vec<u8>,
    /// Lines that moves have touched since the last [`Self::sync`].
    stale: u128,
}

/// What a [`SwordField`] holds.
pub struct SwordFieldModel {
    pub player: Player,
    pub occupied: u128,
    pub starts: Seq<u16>,
    pub patterns: Seq<u8>,
    pub stale: u128,
}

impl View for SwordField {
    type V = SwordFieldModel;

    closed spec fn view(&self) -> SwordFieldModel {
        SwordFieldModel {
            player: self.player,
            occupied: self.occupied,
            starts: self.starts@,
            patterns: self.patterns@,
            stale: self.stale,
        }
    }
}

impl SwordFieldModel {
    /// The stones of the sword whose window starts at cell `j` of line `k`.
    pub open spec fn pattern(self, k: int, j: int) -> u8 {
        self.patterns[k * WINDOWS + j]
    }

    /// A window marked on line `k` from cell `j` lies on the board and
    /// holds three stones.
    pub open spec fn pattern_ok(self, k: int, j: int) -> bool {
        &&& j < WINDOWS
        &&& j + 4 <= max_j(key_line(k).0, key_line(k).1)
        &&& self.pattern(k, j) < 32
        &&& ones5(self.pattern(k, j)) == 3
    }

    /// The lines and patterns are all there, no bit past the stored lines
    /// is stale, and every marked window is a sword's.
    pub open spec fn wf(self) -> bool {
        &&& self.starts.len() == LINE_NUM
        &&& self.patterns.len() == LINE_NUM * WINDOWS
        &&& self.stale >> 72u128 == 0
        &&& forall|k: int, b: u16|
            0 <= k < LINE_NUM && b < 16 && #[trigger] bit_of(self.starts[k], b) ==> self.pattern_ok(k, b as int)
    }

    /// What the field holds of line `k` is what the square `g` has there.
    pub open spec fn line_ok(self, g: SquareModel, k: int) -> bool {
        let (d, i) = key_line(k);
        let line = g.line_spec(d, i);
        &&& starts_ok(line, self.player, self.starts[k])
        &&& forall|b: u16|
            b < 16 && #[trigger] bit_of(self.starts[k], b) ==> self.pattern(k, b as int) == window_bits(
                sword_walk(line, self.player),
                b as int,
            ) >> 1
        &&& (bit128(self.occupied, k) <==> self.starts[k] != 0)
    }

    /// Every line that is not stale is as the square `g` has it.
    pub open spec fn agrees(self, g: SquareModel) -> bool {
        forall|k: int| 0 <= k < 72 && !bit128(self.stale, k) ==> #[trigger] self.line_ok(g, k)
    }

    /// Every line below `k`, and every line `o` does not mark, is as the
    /// square `g` has it.
    pub open spec fn lines_ok_except(self, g: SquareModel, o: u128, k: int) -> bool {
        forall|q: int| 0 <= q < 72 && (q < k || !bit128(o, q)) ==> #[trigger] self.line_ok(g, q)
    }

    /// No line is stale.
    pub open spec fn synced(self) -> bool {
        self.stale == 0
    }

    /// The swords the field holds on line `k` at the starts `mask`.
    pub open spec fn swords_at(self, k: int, mask: u16) -> Seq<Structure> {
        let (d, i) = key_line(k);
        swords_from(d, i, mask, |j: u8| self.pattern(k, j as int))
    }

    /// [`SwordField::move_pairs`] over the first `n` lines.
    pub open spec fn pairs_upto(self, n: int) -> Seq<(Point, Point)>
        decreases n,
    {
        if n <= 0 {
            Seq::empty()
        } else if bit128(self.occupied, n - 1) {
            self.pairs_upto(n - 1) + scan_pairs(self.swords_at(n - 1, self.starts[n - 1]))
        } else {
            self.pairs_upto(n - 1)
        }
    }

    /// [`SwordField::move_pairs_on`] over the first `n` directions.
    pub open spec fn pairs_on_upto(self, p: Point, n: int) -> Seq<(Point, Point)>
        decreases n,
    {
        if n <= 0 {
            Seq::empty()
        } else {
            let rest = self.pairs_on_upto(p, n - 1);
            let idx = p.index_of(directions()[n - 1]);
            if stored(idx.d, idx.i as int) {
                let k = key_of(idx.d, idx.i as int);
                rest + scan_pairs(self.swords_at(k, self.starts[k] & through_mask(idx.j)))
            } else {
                rest
            }
        }
    }
}

/// The sword the field holds on line `k` with its window at cell `j`.
pub open spec fn field_sword(f: SwordFieldModel, k: int, j: u8) -> Structure {
    let (d, i) = key_line(k);
    Structure { start: Index { d, i: i as u8, j }, sequence: Sequence(f.pattern(k, j as int)) }
}

/// The swords the field holds on line `k` at the starts `mask` below `n`.
pub open spec fn field_swords(f: SwordFieldModel, k: int, mask: u16, n: nat) -> Seq<Structure> {
    positions(mask, n).map_values(|j: u8| field_sword(f, k, j))
}

/// The stored line through `p` in the `n`-th direction, if it is stored.
pub open spec fn line_through(p: Point, n: int) -> Option<usize> {
    let d = directions()[n];
    let i = p.index_of(d).i as int;
    if stored(d, i) {
        Some(key_of(d, i) as usize)
    } else {
        None
    }
}

/// A line held as the square has it gives the swords a scan finds.
proof fn lemma_line_swords(f: SwordFieldModel, g: SquareModel, k: int)
    requires
        g.wf(),
        0 <= k < 72,
        f.line_ok(g, k),
    ensures
        f.swords_at(k, f.starts[k]) == crate::board::square::structures_in(
            key_line(k).0,
            key_line(k).1,
            g.line_spec(key_line(k).0, key_line(k).1),
            f.player,
            StructureKind::Sword,
        ),
        forall|c: u8| c < line_size(key_line(k).0, key_line(k).1) ==> #[trigger] f.swords_at(k, f.starts[k] & through_mask(c)) == crate::board::square::structures_in_on(
            key_line(k).0,
            key_line(k).1,
            g.line_spec(key_line(k).0, key_line(k).1),
            c,
            f.player,
            StructureKind::Sword,
        ),
{
    let (d, i) = key_line(k);
    let line = g.line_spec(d, i);
    lemma_key_line(k);
    assert(line.wf() && line.size == line_size(d, i));
    let pat = |j: u8| f.pattern(k, j as int);
    assert forall|b: u16| b < 16 && #[trigger] bit_of(f.starts[k], b) implies pat(b as u8) == window_bits(sword_walk(line, f.player), b as int) >> 1 by {}
    lemma_swords_from(d, i, line, f.player, f.starts[k], pat);
    assert forall|c: u8| c < line_size(d, i) implies #[trigger] f.swords_at(k, f.starts[k] & through_mask(c)) == crate::board::square::structures_in_on(
        d,
        i,
        line,
        c,
        f.player,
        StructureKind::Sword,
    ) by {
        lemma_swords_from_on(d, i, line, f.player, f.starts[k], pat, c);
    }
}

/// In sync with a board, the field gives the pairs of the swords a scan of
/// the board finds, line by line.
pub proof fn lemma_pairs_match_scan(f: SwordFieldModel, g: SquareModel, n: int)
    requires
        g.wf(),
        f.wf(),
        f.synced(),
        f.agrees(g),
        0 <= n <= 72,
    ensures
        f.pairs_upto(n) == scan_pairs(g.structures_upto(f.player, StructureKind::Sword, n)),
    decreases n,
{
    if n > 0 {
        lemma_pairs_match_scan(f, g, n - 1);
        let k = n - 1;
        crate::board::map::lemma_bit128_zero(k as u128);
        assert(f.agrees(g));
        assert(f.line_ok(g, k));
        lemma_line_swords(f, g, k);
        let (d, i) = key_line(k);
        let here = crate::board::square::structures_in(d, i, g.line_spec(d, i), f.player, StructureKind::Sword);
        lemma_scan_pairs_add(g.structures_upto(f.player, StructureKind::Sword, n - 1), here);
        if !bit128(f.occupied, k) {
            lemma_bit_zero();
            crate::board::util::lemma_positions_eq(0u16, 16, Seq::empty());
            assert(here =~= Seq::empty());
            assert(scan_pairs(here) =~= Seq::empty());
        }
    }
}

/// In sync with a board, the field gives the pairs of the swords through
/// `p` a scan of the board finds, direction by direction.
pub proof fn lemma_pairs_on_match_scan(f: SwordFieldModel, g: SquareModel, p: Point, n: int)
    requires
        g.wf(),
        f.wf(),
        f.synced(),
        f.agrees(g),
        p.valid(),
        0 <= n <= 4,
    ensures
        f.pairs_on_upto(p, n) == scan_pairs(g.structures_on_upto(p, f.player, StructureKind::Sword, n)),
    decreases n,
{
    if n > 0 {
        lemma_pairs_on_match_scan(f, g, p, n - 1);
        let idx = p.index_of(directions()[n - 1]);
        if stored(idx.d, idx.i as int) {
            let k = key_of(idx.d, idx.i as int);
            lemma_key_of(idx.d, idx.i as int);
            crate::board::map::lemma_bit128_zero(k as u128);
            assert(f.agrees(g));
            assert(f.line_ok(g, k));
            lemma_line_swords(f, g, k);
            crate::board::point::lemma_point_index_roundtrip(p, idx.d);
            assert(idx.j < line_size(idx.d, idx.i as int));
            lemma_scan_pairs_add(
                g.structures_on_upto(p, f.player, StructureKind::Sword, n - 1),
                crate::board::square::structures_in_on(
                    idx.d,
                    idx.i as int,
                    g.line_spec(idx.d, idx.i as int),
                    idx.j,
                    f.player,
                    StructureKind::Sword,
                ),
            );
        }
    }
}

/// After a move on `p`, a field that notes the lines through `p` as
/// stale still agrees with the board.
pub proof fn lemma_move_keeps_agreement(
    f: SwordFieldModel,
    f2: SwordFieldModel,
    g: SquareModel,
    p: Point,
    c: Option<Player>,
)
    requires
        g.wf(),
        p.valid(),
        f.agrees(g),
        f2.player == f.player,
        f2.occupied == f.occupied,
        f2.starts == f.starts,
        f2.patterns == f.patterns,
        forall|k: int|
            0 <= k < 72 ==> (#[trigger] bit128(f2.stale, k) <==> bit128(f.stale, k) || key_line(k).1
                == p.index_of(key_line(k).0).i),
    ensures
        f2.agrees(g.set_spec(p, c)),
{
    let g2 = g.set_spec(p, c);
    assert forall|k: int| 0 <= k < 72 && !bit128(f2.stale, k) implies #[trigger] f2.line_ok(g2, k) by {
        lemma_key_line(k);
        let (d, i) = key_line(k);
        assert(g2.line_spec(d, i) == g.line_spec(d, i));
        assert(!bit128(f.stale, k));
        assert(f.agrees(g));
        assert(f.line_ok(g, k));
    }
}

/// The stored lines through `p`, in the order of [`directions`].
fn lines_through(p: Point) -> (res: [Option<usize>; 4])
    requires
        p.valid(),
    ensures
        forall|n: int| 0 <= n < 4 ==> #[trigger] res@[n] == line_through(p, n),
{
    let r: usize = 15;
    let d_num: usize = 21;
    let v = p.to_index(Direction::Vertical).i as usize;
    let h = r + p.to_index(Direction::Horizontal).i as usize;
    let ai = p.to_index(Direction::Ascending).i;
    let a = if D_LINE_OMIT <= ai && ai < D_LINE_OMIT + d_num as u8 {
        Some(2 * r + (ai - D_LINE_OMIT) as usize)
    } else {
        None
    };
    let di = p.to_index(Direction::Descending).i;
    let d = if D_LINE_OMIT <= di && di < D_LINE_OMIT + d_num as u8 {
        Some(2 * r + d_num + (di - D_LINE_OMIT) as usize)
    } else {
        None
    };
    let res = [Some(v), Some(h), a, d];
    assert forall|n: int| 0 <= n < 4 implies #[trigger] res@[n] == line_through(p, n) by {}
    res
}

/// The direction and index of stored line `k`.
fn line_of(k: usize) -> (res: (Direction, u8))
    requires
        k < LINE_NUM,
    ensures
        res.0 == key_line(k as int).0,
        res.1 == key_line(k as int).1,
{
    let r: usize = 15;
    let d_num: usize = 21;
    if k < r {
        (Direction::Vertical, k as u8)
    } else if k < 2 * r {
        (Direction::Horizontal, (k - r) as u8)
    } else if k < 2 * r + d_num {
        (Direction::Ascending, (k - 2 * r) as u8 + D_LINE_OMIT)
    } else {
        (Direction::Descending, (k - 2 * r - d_num) as u8 + D_LINE_OMIT)
    }
}

impl SwordField {
    /// A field that knows nothing yet: every line is stale.
    pub fn new(player: Player) -> (res: Self)
        ensures
            res@.wf(),
            res@.player == player,
            forall|k: int| 0 <= k < LINE_NUM ==> #[trigger] bit128(res@.stale, k),
            !res@.synced(),
    {
        let mut starts: Vec<u16> = Vec::new();
        let mut n: usize = 0;
        while n < LINE_NUM
            invariant
                n <= LINE_NUM,
                starts@.len() == n,
                forall|m: int| 0 <= m < n ==> #[trigger] starts@[m] == 0,
            decreases LINE_NUM - n,
        {
            starts.push(0);
            n += 1;
        }
        let mut patterns: Vec<u8> = Vec::new();
        let mut n: usize = 0;
        while n < LINE_NUM * WINDOWS
            invariant
                n <= LINE_NUM * WINDOWS,
                patterns@.len() == n,
            decreases LINE_NUM * WINDOWS - n,
        {
            patterns.push(0);
            n += 1;
        }
        proof {
            crate::board::map::lemma_all_lines(0);
        }
        let stale: u128 = (1u128 << 72u128) - 1;
        let res = SwordField { player, occupied: 0, starts, patterns, stale };
        proof {
            lemma_bit_zero();
            assert forall|k: int| 0 <= k < LINE_NUM implies #[trigger] bit128(res@.stale, k) by {
                crate::board::map::lemma_all_lines(k as u128);
            }
        }
        res
    }

    /// A field in sync with `board`.
    pub fn init(player: Player, board: &Board) -> (res: Self)
        requires
            board@.wf(),
        ensures
            res@.wf(),
            res@.player == player,
            res@.synced(),
            res@.agrees(board@.square),
    {
        let mut result = Self::new(player);
        result.sync(board);
        result
    }

    /// The player whose swords these are.
    pub fn player(&self) -> (res: Player)
        ensures
            res == self@.player,
    {
        self.player
    }

    /// Notes that a stone was put on or taken off `p`: the lines through
    /// it are stale.
    pub fn mark_stale(&mut self, p: Point)
        requires
            old(self)@.wf(),
            p.valid(),
        ensures
            final(self)@.wf(),
            final(self)@.player == old(self)@.player,
            final(self)@.occupied == old(self)@.occupied,
            final(self)@.starts == old(self)@.starts,
            final(self)@.patterns == old(self)@.patterns,
            forall|k: int|
                0 <= k < LINE_NUM ==> (#[trigger] bit128(final(self)@.stale, k) <==> bit128(old(self)@.stale, k)
                    || key_line(k).1 == p.index_of(key_line(k).0).i),
    {
        let keys = lines_through(p);
        let mut n: usize = 0;
        while n < 4
            invariant
                self@.wf(),
                p.valid(),
                n <= 4,
                forall|m: int| 0 <= m < 4 ==> #[trigger] keys@[m] == line_through(p, m),
                self@.player == old(self)@.player,
                self@.occupied == old(self)@.occupied,
                self@.starts == old(self)@.starts,
                self@.patterns == old(self)@.patterns,
                forall|k: int|
                    0 <= k < LINE_NUM ==> (#[trigger] bit128(self@.stale, k) <==> bit128(old(self)@.stale, k)
                        || exists|q: int| 0 <= q < n && key_line(k).0 == directions()[q] && key_line(k).1
                        == p.index_of(key_line(k).0).i),
            decreases 4 - n,
        {
            let ghost d = directions()[n as int];
            let ghost i = p.index_of(d).i as int;
            assert(keys@[n as int] == line_through(p, n as int));
            if let Some(k) = keys[n] {
                let ghost before = self.stale;
                proof {
                    lemma_key_of(d, i);
                }
                self.stale = self.stale | (1u128 << k as u128);
                proof {
                    lemma_bit128_set(before, k as u128);
                    crate::board::map::lemma_or_below(before, k as u128);
                    assert forall|q: int| 0 <= q < LINE_NUM implies (#[trigger] bit128(self@.stale, q) <==> bit128(old(self)@.stale, q)
                        || exists|m: int| 0 <= m < n + 1 && key_line(q).0 == directions()[m] && key_line(q).1
                        == p.index_of(key_line(q).0).i) by {
                        assert(bit128(self.stale, (q as u128) as int) == bit128(self.stale, q));
                        if key_line(q).0 == directions()[n as int] && key_line(q).1 == p.index_of(key_line(q).0).i {
                            assert(key_line(q) == (d, i));
                        }
                    }
                }
            } else {
                proof {
                    assert forall|q: int| 0 <= q < LINE_NUM implies (#[trigger] bit128(self@.stale, q) <==> bit128(old(self)@.stale, q)
                        || exists|m: int| 0 <= m < n + 1 && key_line(q).0 == directions()[m] && key_line(q).1
                        == p.index_of(key_line(q).0).i) by {
                        lemma_key_line(q);
                    }
                }
            }
            n += 1;
        }
        proof {
            assert forall|k: int| 0 <= k < LINE_NUM implies (#[trigger] bit128(self@.stale, k) <==> bit128(old(self)@.stale, k)
                || key_line(k).1 == p.index_of(key_line(k).0).i) by {
                if key_line(k).1 == p.index_of(key_line(k).0).i {
                    let d = key_line(k).0;
                    let q = match d {
                        Direction::Vertical => 0int,
                        Direction::Horizontal => 1,
                        Direction::Ascending => 2,
                        Direction::Descending => 3,
                    };
                    assert(directions()[q] == d);
                }
            }
        }
    }

    /// Whether no line is stale.
    pub fn is_synced(&self) -> (res: bool)
        ensures
            res == self@.synced(),
    {
        self.stale == 0
    }

    /// Recomputes the stale lines from `board`; a field that agreed with
    /// the board on the lines that were not stale then agrees with it
    /// everywhere.
    pub fn sync(&mut self, board: &Board)
        requires
            old(self)@.wf(),
            board@.wf(),
        ensures
            final(self)@.wf(),
            final(self)@.player == old(self)@.player,
            final(self)@.synced(),
            old(self)@.agrees(board@.square) ==> final(self)@.agrees(board@.square),
            forall|k: int| 0 <= k < LINE_NUM && #[trigger] bit128(old(self)@.stale, k) ==> final(self)@.line_ok(board@.square, k),
            forall|q: int| 0 <= q < LINE_NUM && !bit128(old(self)@.stale, q) ==> #[trigger] final(self)@.starts[q] == old(self)@.starts[q],
            forall|q: int| 0 <= q < 128 && !bit128(old(self)@.stale, q) ==> #[trigger] bit128(final(self)@.occupied, q) == bit128(old(self)@.occupied, q),
            forall|q: int, b: int|
                0 <= q < LINE_NUM && !bit128(old(self)@.stale, q) && 0 <= b < WINDOWS ==> #[trigger] final(self)@.pattern(q, b) == old(self)@.pattern(q, b),
    {
        let o = self.stale;
        let ghost g = board@.square;
        let ghost agreed = old(self)@.agrees(g);
        proof {
            if agreed {
                assert forall|q: int| 0 <= q < 72 && (q < 0 || !bit128(o, q)) implies #[trigger] self@.line_ok(g, q) by {
                    assert(old(self)@.agrees(g));
                }
            }
        }
        let mut k: usize = 0;
        while k < LINE_NUM
            invariant
                self@.wf(),
                board@.wf(),
                g == board@.square,
                k <= LINE_NUM,
                o == old(self)@.stale,
                self@.stale == o,
                self@.player == old(self)@.player,
                agreed == old(self)@.agrees(g),
                agreed ==> self@.lines_ok_except(g, o, k as int),
                forall|q: int| 0 <= q < k && #[trigger] bit128(o, q) ==> self@.line_ok(g, q),
                forall|q: int| 0 <= q < LINE_NUM && !(bit128(o, q) && q < k) ==> #[trigger] self@.starts[q] == old(self)@.starts[q],
                forall|q: int| 0 <= q < 128 && !(bit128(o, q) && q < k) ==> #[trigger] bit128(self@.occupied, q) == bit128(old(self)@.occupied, q),
                forall|q: int, b: int|
                    0 <= q < LINE_NUM && !(bit128(o, q) && q < k) && 0 <= b < WINDOWS ==> #[trigger] self@.pattern(q, b) == old(self)@.pattern(q, b),
            decreases LINE_NUM - k,
        {
            let ghost before = self@;
            if (o >> k as u128) & 1 == 1 {
                self.update_line(k, board);
            } else {
                assert(!bit128(o, k as int));
            }
            proof {
                assert forall|q: int| 0 <= q < 72 && q != k && before.line_ok(g, q) implies #[trigger] self@.line_ok(g, q) by {
                    assert(self@.starts[q] == before.starts[q]);
                    assert(bit128(self@.occupied, q) == bit128(before.occupied, q));
                    assert forall|b: u16| b < 16 && #[trigger] bit_of(self@.starts[q], b) implies self@.pattern(q, b as int)
                        == before.pattern(q, b as int) by {
                        assert(before.pattern_ok(q, b as int));
                    }
                }
                if agreed {
                    assert forall|q: int| 0 <= q < 72 && (q < k + 1 || !bit128(o, q)) implies #[trigger] self@.line_ok(g, q) by {
                        assert(before.lines_ok_except(g, o, k as int));
                        if q != k {
                            assert(before.line_ok(g, q));
                        }
                    }
                    assert(self@.lines_ok_except(g, o, k + 1));
                }
                assert forall|q: int| 0 <= q < k + 1 && #[trigger] bit128(o, q) implies self@.line_ok(g, q) by {
                    if q != k {
                        assert(before.line_ok(g, q));
                    }
                }
                assert forall|q: int| 0 <= q < LINE_NUM && !(bit128(o, q) && q < k + 1) implies #[trigger] self@.starts[q] == old(self)@.starts[q] by {
                    assert(before.starts[q] == old(self)@.starts[q]);
                }
                assert forall|q: int| 0 <= q < 128 && !(bit128(o, q) && q < k + 1) implies #[trigger] bit128(self@.occupied, q) == bit128(old(self)@.occupied, q) by {
                    assert(bit128(before.occupied, q) == bit128(old(self)@.occupied, q));
                }
                assert forall|q: int, b: int|
                    0 <= q < LINE_NUM && !(bit128(o, q) && q < k + 1) && 0 <= b < WINDOWS implies #[trigger] self@.pattern(q, b) == old(self)@.pattern(q, b) by {
                    assert(before.pattern(q, b) == old(self)@.pattern(q, b));
                }
            }
            k += 1;
        }
        let ghost done = self@;
        self.stale = 0;
        proof {
            crate::board::map::lemma_all_lines(0);
            assert forall|q: int| 0 <= q < 72 && #[trigger] done.line_ok(g, q) implies self@.line_ok(g, q) by {}
            if agreed {
                assert forall|q: int| 0 <= q < 72 && !bit128(self@.stale, q) implies #[trigger] self@.line_ok(g, q) by {
                    assert(done.lines_ok_except(g, o, k as int));
                    assert(done.line_ok(g, q));
                }
            }
            assert forall|q: int| 0 <= q < LINE_NUM && #[trigger] bit128(o, q) implies self@.line_ok(g, q) by {
                assert(done.line_ok(g, q));
            }
            assert forall|q: int| 0 <= q < LINE_NUM && !bit128(o, q) implies #[trigger] self@.starts[q] == old(self)@.starts[q] by {
                assert(done.starts[q] == old(self)@.starts[q]);
            }
            assert forall|q: int| 0 <= q < 128 && !bit128(o, q) implies #[trigger] bit128(self@.occupied, q) == bit128(old(self)@.occupied, q) by {
                assert(bit128(done.occupied, q) == bit128(old(self)@.occupied, q));
            }
            assert forall|q: int, b: int|
                0 <= q < LINE_NUM && !bit128(o, q) && 0 <= b < WINDOWS implies #[trigger] self@.pattern(q, b) == old(self)@.pattern(q, b) by {
                assert(done.pattern(q, b) == old(self)@.pattern(q, b));
            }
        }
    }

    /// Every sword's eyes, both ways round: `(four-making move, the block
    /// it leaves)`. In sync with a board, these are the eyes of the swords
    /// [`Board::structures`] lists, in its order.
    pub fn move_pairs(&self) -> (res: Vec<(Point, Point)>)
        requires
            self@.wf(),
        ensures
            res@ == self@.pairs_upto(72),
            forall|g: SquareModel|
                g.wf() && self@.synced() && #[trigger] self@.agrees(g) ==> res@ == scan_pairs(
                    g.structures_upto(self@.player, StructureKind::Sword, 72),
                ),
    {
        let mut result: Vec<(Point, Point)> = Vec::new();
        let mut k: usize = 0;
        while k < LINE_NUM
            invariant
                self@.wf(),
                k <= LINE_NUM,
                result@ == self@.pairs_upto(k as int),
            decreases LINE_NUM - k,
        {
            if (self.occupied >> k as u128) & 1 == 1 {
                self.push_pairs(k, self.starts[k], &mut result);
            }
            k += 1;
        }
        proof {
            assert forall|g: SquareModel|
                g.wf() && self@.synced() && #[trigger] self@.agrees(g) implies result@ == scan_pairs(
                g.structures_upto(self@.player, StructureKind::Sword, 72),
            ) by {
                lemma_pairs_match_scan(self@, g, 72);
            }
        }
        result
    }

    /// Like [`Self::move_pairs`], for the swords with `p` in their window.
    pub fn move_pairs_on(&self, p: Point) -> (res: Vec<(Point, Point)>)
        requires
            self@.wf(),
            p.valid(),
        ensures
            res@ == self@.pairs_on_upto(p, 4),
            forall|g: SquareModel|
                g.wf() && self@.synced() && #[trigger] self@.agrees(g) ==> res@ == scan_pairs(
                    g.structures_on_upto(p, self@.player, StructureKind::Sword, 4),
                ),
    {
        let mut result: Vec<(Point, Point)> = Vec::new();
        let keys = lines_through(p);
        let dirs = [Direction::Vertical, Direction::Horizontal, Direction::Ascending, Direction::Descending];
        let mut n: usize = 0;
        while n < 4
            invariant
                self@.wf(),
                p.valid(),
                n <= 4,
                dirs@ == directions(),
                forall|m: int| 0 <= m < 4 ==> #[trigger] keys@[m] == line_through(p, m),
                result@ == self@.pairs_on_upto(p, n as int),
            decreases 4 - n,
        {
            let d = dirs[n];
            assert(keys@[n as int] == line_through(p, n as int));
            if let Some(k) = keys[n] {
                proof {
                    lemma_key_of(d, p.index_of(d).i as int);
                }
                let j = p.to_index(d).j;
                let lo: u8 = if j > 4 {
                    j - 4
                } else {
                    0
                };
                proof {
                    crate::board::map::lemma_through_mask(j);
                }
                let mask = ((1u32 << (j as u32 + 1)) - (1u32 << (lo as u32))) as u16;
                assert(mask == through_mask(j));
                let starts = self.starts[k] & mask;
                proof {
                    crate::board::map::lemma_bit_and(self.starts[k as int], mask);
                }
                if starts != 0 {
                    self.push_pairs(k, starts, &mut result);
                } else {
                    proof {
                        lemma_bit_zero();
                        crate::board::util::lemma_positions_eq(0u16, 16, Seq::empty());
                        assert(self@.swords_at(k as int, starts) =~= Seq::empty());
                        assert(scan_pairs(self@.swords_at(k as int, starts)) =~= Seq::empty());
                        assert(result@ + scan_pairs(self@.swords_at(k as int, starts)) =~= result@);
                    }
                }
            }
            n += 1;
        }
        proof {
            assert forall|g: SquareModel|
                g.wf() && self@.synced() && #[trigger] self@.agrees(g) implies result@ == scan_pairs(
                g.structures_on_upto(p, self@.player, StructureKind::Sword, 4),
            ) by {
                lemma_pairs_on_match_scan(self@, g, p, 4);
            }
        }
        result
    }

    /// Appends the pairs of the swords of line `k` whose windows start at
    /// the bits of `starts`.
    fn push_pairs(&self, k: usize, starts: u16, out: &mut Vec<(Point, Point)>)
        requires
            self@.wf(),
            k < LINE_NUM,
            forall|b: u16| b < 16 && #[trigger] bit_of(starts, b) ==> bit_of(self@.starts[k as int], b),
        ensures
            final(out)@ == old(out)@ + scan_pairs(self@.swords_at(k as int, starts)),
    {
        let (d, i) = line_of(k);
        let ghost pat = |jj: u8| self@.pattern(k as int, jj as int);
        proof {
            lemma_key_line(k as int);
        }
        let mut j: u8 = 0;
        while j < 16
            invariant
                self@.wf(),
                k < LINE_NUM,
                j <= 16,
                d == key_line(k as int).0,
                i == key_line(k as int).1,
                stored(d, i as int),
                forall|b: u16| b < 16 && #[trigger] bit_of(starts, b) ==> bit_of(self@.starts[k as int], b),
                out@ == old(out)@ + scan_pairs(field_swords(self@, k as int, starts, j as nat)),
            decreases 16 - j,
        {
            if (starts >> j as u16) & 1 == 1 {
                assert(bit_of(starts, j as u16));
                assert(bit_of(self@.starts[k as int], j as u16));
                assert(self@.pattern_ok(k as int, j as int));
                let pattern = self.patterns[k * WINDOWS + j as usize];
                let es = eyes(pattern);
                proof {
                    lemma_two_eyes(pattern);
                    lemma_positions((!pattern & 0b11111) as u16, 5);
                }
                let e1 = es[0];
                let e2 = es[1];
                let p1 = Index::new(d, i, j + e1).to_point();
                let p2 = Index::new(d, i, j + e2).to_point();
                let ghost before = out@;
                out.push((p1, p2));
                out.push((p2, p1));
                proof {
                    let s = field_sword(self@, k as int, j);
                    assert(s.sequence.0 == pattern);
                    assert(s.start == Index { d, i, j });
                    let offs = positions((!s.sequence.0 & 0b11111u8) as u16, 5);
                    assert(offs == es@);
                    let e = points_along(s.start, offs);
                    assert(e.len() == 2);
                    assert(e[0] == Index { d, i, j: (j + e1) as u8 }.point_of());
                    assert(e[1] == Index { d, i, j: (j + e2) as u8 }.point_of());
                    assert(sword_pairs(s) =~= seq![(p1, p2), (p2, p1)]);
                    assert(positions(starts, (j + 1) as nat) == positions(starts, j as nat).push(j));
                    let ss = field_swords(self@, k as int, starts, j as nat);
                    assert(field_swords(self@, k as int, starts, (j + 1) as nat) =~= ss.push(s));
                    assert(ss.push(s).drop_last() =~= ss);
                    assert(out@ =~= old(out)@ + scan_pairs(ss.push(s)));
                }
            } else {
                assert(!bit_of(starts, j as u16));
                assert(positions(starts, (j + 1) as nat) == positions(starts, j as nat));
            }
            j += 1;
        }
        assert(field_swords(self@, k as int, starts, 16) =~= self@.swords_at(k as int, starts));
    }

    /// Recomputes line `k` from `board`.
    fn update_line(&mut self, k: usize, board: &Board)
        requires
            old(self)@.wf(),
            board@.wf(),
            k < LINE_NUM,
        ensures
            final(self)@.wf(),
            final(self)@.player == old(self)@.player,
            final(self)@.stale == old(self)@.stale,
            final(self)@.line_ok(board@.square, k as int),
            forall|q: int| 0 <= q < LINE_NUM && q != k ==> #[trigger] final(self)@.starts[q] == old(self)@.starts[q],
            forall|q: int| 0 <= q < 128 && q != k ==> #[trigger] bit128(final(self)@.occupied, q) == bit128(old(self)@.occupied, q),
            forall|q: int, b: int|
                0 <= q < LINE_NUM && q != k && 0 <= b < WINDOWS ==> #[trigger] final(self)@.pattern(q, b) == old(self)@.pattern(q, b),
    {
        let (d, i) = line_of(k);
        proof {
            lemma_key_line(k as int);
        }
        let line = board.line(d, i).unwrap();
        let ghost w = sword_walk(*line, self.player);
        let mut starts: u16 = 0;
        proof {
            lemma_bit_zero();
        }
        let (sk, n, exact) = StructureKind::Sword.to_sequence(self.player);
        if line.potential_cap(self.player) > n {
            let (my, op) = match self.player {
                Player::Black => (line.blacks, line.whites),
                Player::White => (line.whites, line.blacks),
            };
            let mut seqs = Sequences::new(line.size, my, op, sk, n, exact);
            assert(seqs == w);
            assert(w.frame() == w);
            let found = seqs.to_vec();
            proof {
                lemma_emits_single(w, 0, false);
            }
            let mut m: usize = 0;
            while m < found.len()
                invariant
                    self@.wf(),
                    k < LINE_NUM,
                    self@.player == old(self)@.player,
                    self@.stale == old(self)@.stale,
                    self@.starts == old(self)@.starts,
                    self@.occupied == old(self)@.occupied,
                    line.wf(),
                    *line == board@.square.line_spec(d, i as int),
                    line.size == line_size(d, i as int),
                    d == key_line(k as int).0,
                    i == key_line(k as int).1,
                    w == sword_walk(*line, self@.player),
                    found@ == w.remaining(),
                    w.limit < 16,
                    w.limit + 5 == line.size,
                    forall|q: int|
                        0 <= q < found@.len() ==> {
                            let e = #[trigger] found@[q];
                            &&& e.0 <= w.limit
                            &&& e.1 == Sequence(window_bits(w, e.0 as int) >> 1)
                            &&& ones8(window_bits(w, e.0 as int)) == 3
                            &&& single_hit(w, e.0 as int)
                        },
                    forall|a: int, b: int| 0 <= a < b < found@.len() ==> #[trigger] found@[a].0 < #[trigger] found@[b].0,
                    m <= found@.len(),
                    forall|b: u16| b < 16 ==> (#[trigger] bit_of(starts, b) <==> exists|q: int| 0 <= q < m && found@[q].0 == b),
                    forall|b: u16|
                        b < 16 && #[trigger] bit_of(starts, b) ==> self@.pattern(k as int, b as int) == window_bits(w, b as int) >> 1,
                    forall|q: int, b: int|
                        0 <= q < LINE_NUM && q != k && 0 <= b < WINDOWS ==> #[trigger] self@.pattern(q, b) == old(self)@.pattern(q, b),
                decreases found@.len() - m,
            {
                let (j, s) = found[m];
                let ghost before = self@;
                proof {
                    let wb = window_bits(w, j as int);
                    lemma_ones_shift(w.my, j as u8);
                    assert(s.0 == wb >> 1);
                }
                self.patterns.set(k * WINDOWS + j as usize, s.0);
                proof {
                    lemma_bit_set(starts, j as u16);
                }
                let ghost old_starts = starts;
                starts = starts | (1u16 << j as u16);
                proof {
                    assert forall|b: u16| b < 16 implies (#[trigger] bit_of(starts, b) <==> exists|q: int|
                        0 <= q < m + 1 && found@[q].0 == b) by {
                        if b == j as u16 {
                            assert(found@[m as int].0 == b);
                        }
                    }
                    assert forall|b: u16| b < 16 && #[trigger] bit_of(starts, b) implies self@.pattern(k as int, b as int)
                        == window_bits(w, b as int) >> 1 by {
                        if b != j as u16 {
                            assert(bit_of(old_starts, b));
                            assert(self@.pattern(k as int, b as int) == before.pattern(k as int, b as int));
                        }
                    }
                    assert forall|q: int, b: int|
                        0 <= q < LINE_NUM && q != k && 0 <= b < WINDOWS implies #[trigger] self@.pattern(q, b) == old(self)@.pattern(q, b) by {
                        assert(q * WINDOWS + b != k * WINDOWS + j) by (nonlinear_arith)
                            requires
                                q != k,
                                0 <= b < 11,
                                0 <= j < 11,
                        ;
                        assert(self@.pattern(q, b) == before.pattern(q, b));
                    }
                    assert forall|q: int, b: u16|
                        0 <= q < LINE_NUM && b < 16 && #[trigger] bit_of(self@.starts[q], b) implies self@.pattern_ok(q, b as int) by {
                        assert(before.pattern_ok(q, b as int));
                        if q == k {
                            assert(q * WINDOWS + b != k * WINDOWS + j || b == j);
                        } else {
                            assert(q * WINDOWS + b != k * WINDOWS + j) by (nonlinear_arith)
                                requires
                                    q != k,
                                    0 <= b < 11,
                                    0 <= j < 11,
                            ;
                        }
                    }
                }
                m += 1;
            }
            proof {
                assert forall|b: u16| b < 16 implies (#[trigger] bit_of(starts, b) <==> (b <= w.limit && single_hit(w, b as int))) by {
                    if b <= w.limit && single_hit(w, b as int) {
                        let q = choose|q: int| 0 <= q < found@.len() && #[trigger] found@[q].0 == b as int;
                        assert(found@[q].0 == b);
                    }
                }
            }
        }
        assert(forall|q: int, b: int|
            0 <= q < LINE_NUM && q != k && 0 <= b < WINDOWS ==> #[trigger] self@.pattern(q, b) == old(self)@.pattern(q, b));
        let ghost mid = self@;
        self.starts.set(k, starts);
        let before = self.occupied;
        if starts != 0 {
            self.occupied = self.occupied | (1u128 << k as u128);
        } else {
            self.occupied = self.occupied & !(1u128 << k as u128);
        }
        proof {
            lemma_bit128_set(before, k as u128);
            assert(bit128(self.occupied, ((k as u128) as int)) <==> starts != 0);
            assert forall|q: int| 0 <= q < 128 && q != k implies #[trigger] bit128(self@.occupied, q) == bit128(old(self)@.occupied, q) by {
                assert(bit128(self.occupied, (q as u128) as int) == bit128(self.occupied, q));
                assert(bit128(before, (q as u128) as int) == bit128(before, q));
            }
            assert forall|q: int, b: int|
                0 <= q < LINE_NUM && q != k && 0 <= b < WINDOWS implies #[trigger] self@.pattern(q, b) == old(self)@.pattern(q, b) by {
                assert(self@.patterns == mid.patterns);
                assert(mid.pattern(q, b) == old(self)@.pattern(q, b));
            }
            assert forall|q: int, b: u16|
                0 <= q < LINE_NUM && b < 16 && #[trigger] bit_of(self@.starts[q], b) implies self@.pattern_ok(q, b as int) by {
                if q == k {
                    assert(bit_of(starts, b));
                    assert(b <= w.limit);
                    assert(single_hit(w, b as int));
                    lemma_ones_shift(w.my, b as u8);
                } else {
                    assert(mid.pattern_ok(q, b as int));
                }
            }
        }
    }
}

} // verus!
