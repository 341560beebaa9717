use vstd::prelude::*;
use super::line::Line;
use super::player::{Black, Player, White};
use super::point::{Ascending, Descending, Direction, Horizontal, Index, Point, Vertical};
use super::sequence::{
    lemma_emits_single, sequences_on_spec, sequences_spec, single_hit, window_bits, Sequence,
    Sequences, Single, TARGET_MASK,
};
use super::square::{
    directions, key_line, line_size, stored, structures_in, structures_in_on, Square, SquareModel,
    LINE_NUM,
};
use super::structure::{Structure, StructureKind};
use super::util::{bit_of, lemma_positions_eq, lemma_u16_bits, positions};

verus! {

/// Whether bit `k` of `x` is set.
pub open spec fn bit128(x: u128, k: int) -> bool {
    (x >> (k as u128)) & 1u128 == 1u128
}

/// The walk over `line` that finds `r`'s swords: windows holding three of
/// `r`'s stones and none of the opponent's (for Black, none of his own
/// just outside either).
pub open spec fn sword_walk(line: Line, r: Player) -> Sequences {
    sequences_spec(line.size, line.mine(r), line.theirs(r), Single, 3, r == Black)
}

/// `st` holds, bit by bit, where `r`'s swords on `line` start: none where
/// the line cannot make a five for `r`.
pub open spec fn starts_ok(line: Line, r: Player, st: u16) -> bool {
    let w = sword_walk(line, r);
    &&& line.cap_of(r) > 3 ==> forall|b: u16|
        b < 16 ==> (#[trigger] bit_of(st, b) <==> (b <= w.limit && single_hit(w, b as int)))
    &&& line.cap_of(r) <= 3 ==> st == 0
}

/// The swords whose windows start at the bits of `mask` on line `i` in
/// direction `d`, the stones of the window at `j` being `pat(j)`.
pub open spec fn swords_from(d: Direction, i: int, mask: u16, pat: spec_fn(u8) -> u8) -> Seq<Structure> {
    positions(mask, 16).map_values(
        |j: u8| Structure { start: Index { d, i: i as u8, j }, sequence: Sequence(pat(j)) },
    )
}

/// The first window that can hold cell `c`: `c - 4`, or 0.
pub open spec fn first_window(c: u8) -> u8 {
    if c > 4 { (c - 4) as u8 } else { 0 }
}

/// The windows that hold cell `c`, those starting from `c - 4` to `c`,
/// as bits.
pub open spec fn through_mask(c: u8) -> u16 {
    ((1u32 << ((c + 1) as u32)) - (1u32 << (first_window(c) as u32))) as u16
}

/// The mask of the bits from `lo` to `hi`, seen at bit `b`.
pub proof fn lemma_mask_bits(lo: u32, hi: u32, b: u16)
    by (bit_vector)
    requires
        lo <= hi < 15,
        b < 16,
    ensures
        (1u32 << lo) <= (1u32 << (hi + 1)),
        (1u32 << (hi + 1)) - (1u32 << lo) < 0x10000,
        ((((1u32 << (hi + 1)) - (1u32 << lo)) as u16 >> b) & 1u16 == 1u16) <==> lo <= b <= hi,
{
}

/// The bits of [`through_mask`] are the windows through `c`, and the
/// mask is computed without going below zero.
pub proof fn lemma_through_mask(c: u8)
    requires
        c < 15,
    ensures
        (1u32 << (first_window(c) as u32)) <= (1u32 << ((c + 1) as u32)),
        forall|b: u16| b < 16 ==> (#[trigger] bit_of(through_mask(c), b) <==> first_window(c) <= b <= c),
{
    let lo = first_window(c);
    lemma_mask_bits(lo as u32, c as u32, 0);
    assert forall|b: u16| b < 16 implies (#[trigger] bit_of(through_mask(c), b) <==> lo <= b <= c) by {
        lemma_mask_bits(lo as u32, c as u32, b);
    }
}

/// The bits of `x & y` are those set in both.
pub proof fn lemma_bit_and(x: u16, y: u16)
    ensures
        forall|b: u16| b < 16 ==> (#[trigger] bit_of(x & y, b) <==> bit_of(x, b) && bit_of(y, b)),
{
    assert forall|b: u16| b < 16 implies (#[trigger] bit_of(x & y, b) <==> bit_of(x, b) && bit_of(y, b)) by {
        lemma_u16_bits(x, y, 0, b, 0);
    }
}

/// No bit of 0 is set.
pub proof fn lemma_bit_zero()
    ensures
        forall|b: u16| b < 16 ==> !#[trigger] bit_of(0u16, b),
{
    assert forall|b: u16| b < 16 implies !#[trigger] bit_of(0u16, b) by {
        lemma_u16_bits(0, 0, 0, b, 0);
    }
}

/// Setting bit `j` of `x`.
pub proof fn lemma_bit_set(x: u16, j: u16)
    requires
        j < 16,
    ensures
        forall|b: u16| b < 16 ==> (#[trigger] bit_of(x | (1u16 << j), b) <==> bit_of(x, b) || b == j),
{
    assert forall|b: u16| b < 16 implies (#[trigger] bit_of(x | (1u16 << j), b) <==> bit_of(x, b) || b == j) by {
        lemma_u16_bits(x, 0, j, b, 0);
    }
}

/// Setting and clearing bit `k` of a 128-bit mask, seen at bit `b`.
proof fn lemma_bit128_at(x: u128, k: u128, b: u128)
    by (bit_vector)
    requires
        k < 128,
        b < 128,
    ensures
        ((x | (1u128 << k)) >> b) & 1u128 == 1u128 <==> (x >> b) & 1u128 == 1u128 || b == k,
        ((x & !(1u128 << k)) >> b) & 1u128 == 1u128 <==> (x >> b) & 1u128 == 1u128 && b != k,
{
}

/// Setting and clearing bit `k` of a 128-bit mask.
pub proof fn lemma_bit128_set(x: u128, k: u128)
    requires
        k < 128,
    ensures
        forall|b: u128| b < 128 ==> (#[trigger] bit128(x | (1u128 << k), b as int) <==> bit128(x, b as int) || b == k),
        forall|b: u128| b < 128 ==> (#[trigger] bit128(x & !(1u128 << k), b as int) <==> bit128(x, b as int) && b != k),
{
    assert forall|b: u128| b < 128 implies (#[trigger] bit128(x | (1u128 << k), b as int) <==> bit128(x, b as int) || b == k) by {
        lemma_bit128_at(x, k, b);
    }
    assert forall|b: u128| b < 128 implies (#[trigger] bit128(x & !(1u128 << k), b as int) <==> bit128(x, b as int) && b != k) by {
        lemma_bit128_at(x, k, b);
    }
}

/// No bit of the empty mask is set.
pub proof fn lemma_bit128_zero(k: u128)
    by (bit_vector)
    ensures
        (0u128 >> k) & 1u128 != 1u128,
{
}

/// The mask with a bit for every stored line, and a mask with none past
/// them.
pub proof fn lemma_all_lines(k: u128)
    by (bit_vector)
    ensures
        (1u128 << 72u128) >= 1,
        (((1u128 << 72u128) - 1) as u128) >> 72u128 == 0,
        (((1u128 << 72u128) - 1) as u128) != 0,
        k < 72 ==> (((((1u128 << 72u128) - 1) as u128) >> k) & 1u128 == 1u128),
        0u128 >> 72u128 == 0,
{
}

/// Setting the bit of a stored line keeps a mask clear past the stored
/// lines.
pub proof fn lemma_or_below(x: u128, k: u128)
    by (bit_vector)
    requires
        x >> 72u128 == 0,
        k < 72,
    ensures
        (x | (1u128 << k)) >> 72u128 == 0,
{
}

/// The windows that the walk over `line` finds are those whose bits `st`
/// holds, lowest first; `pat` giving each window's stones, the swords read
/// back from `st` are those a scan of the line finds.
pub proof fn lemma_swords_from(d: Direction, i: int, line: Line, r: Player, st: u16, pat: spec_fn(u8) -> u8)
    requires
        line.wf(),
        5 <= line.size,
        starts_ok(line, r, st),
        forall|b: u16| b < 16 && #[trigger] bit_of(st, b) ==> pat(b as u8) == window_bits(sword_walk(line, r), b as int) >> 1,
    ensures
        swords_from(d, i, st, pat) == structures_in(d, i, line, r, StructureKind::Sword),
{
    let w = sword_walk(line, r);
    if line.cap_of(r) > 3 {
        let e = w.remaining();
        assert(w.frame() == w);
        lemma_emits_single(w, 0, false);
        let js = e.map_values(|x: (u8, Sequence)| x.0);
        assert forall|b: u8| b < 16 implies (bit_of(st, b as u16) <==> #[trigger] js.contains(b)) by {
            if bit_of(st, b as u16) {
                let m = choose|m: int| 0 <= m < e.len() && #[trigger] e[m].0 == b as int;
                assert(js[m] == b);
            }
            if js.contains(b) {
                let m = choose|m: int| 0 <= m < js.len() && js[m] == b;
                assert(e[m].0 == b);
            }
        }
        lemma_positions_eq(st, 16, js);
        assert(swords_from(d, i, st, pat) =~= structures_in(d, i, line, r, StructureKind::Sword)) by {
            assert forall|m: int| 0 <= m < e.len() implies #[trigger] swords_from(d, i, st, pat)[m] == structures_in(
                d,
                i,
                line,
                r,
                StructureKind::Sword,
            )[m] by {
                assert(js[m] == e[m].0);
                assert(bit_of(st, e[m].0 as u16));
            }
        }
    } else {
        lemma_bit_zero();
        lemma_positions_eq(st, 16, Seq::empty());
        assert(swords_from(d, i, st, pat) =~= structures_in(d, i, line, r, StructureKind::Sword));
    }
}

/// Read back through a [`through_mask`], the swords are those a scan of
/// the line finds through cell `c`.
pub proof fn lemma_swords_from_on(d: Direction, i: int, line: Line, r: Player, st: u16, pat: spec_fn(u8) -> u8, c: u8)
    requires
        line.wf(),
        5 <= line.size,
        c < line.size,
        starts_ok(line, r, st),
        forall|b: u16| b < 16 && #[trigger] bit_of(st, b) ==> pat(b as u8) == window_bits(sword_walk(line, r), b as int) >> 1,
    ensures
        swords_from(d, i, st & through_mask(c), pat) == structures_in_on(d, i, line, c, r, StructureKind::Sword),
{
    let w = sword_walk(line, r);
    let masked = st & through_mask(c);
    lemma_through_mask(c);
    lemma_bit_and(st, through_mask(c));
    if line.cap_of(r) > 3 {
        let won = sequences_on_spec(c, line.size, line.mine(r), line.theirs(r), Single, 3, r == Black);
        let f = won.frame();
        let e = won.remaining();
        lemma_emits_single(f, won.i as int, false);
        let js = e.map_values(|x: (u8, Sequence)| x.0);
        assert forall|b: int| 0 <= b < 16 implies single_hit(f, b) == single_hit(w, b) && window_bits(f, b) == window_bits(w, b) by {}
        assert forall|b: u8| b < 16 implies (bit_of(masked, b as u16) <==> #[trigger] js.contains(b)) by {
            if bit_of(masked, b as u16) {
                assert(single_hit(f, b as int));
                let m = choose|m: int| 0 <= m < e.len() && #[trigger] e[m].0 == b as int;
                assert(js[m] == b);
            }
            if js.contains(b) {
                let m = choose|m: int| 0 <= m < js.len() && js[m] == b;
                assert(e[m].0 == b);
            }
        }
        lemma_positions_eq(masked, 16, js);
        assert(swords_from(d, i, masked, pat) =~= structures_in_on(d, i, line, c, r, StructureKind::Sword)) by {
            assert forall|m: int| 0 <= m < e.len() implies #[trigger] swords_from(d, i, masked, pat)[m] == structures_in_on(
                d,
                i,
                line,
                c,
                r,
                StructureKind::Sword,
            )[m] by {
                assert(js[m] == e[m].0);
                assert(bit_of(masked, e[m].0 as u16));
            }
        }
    } else {
        lemma_bit_zero();
        assert forall|b: u16| b < 16 implies !#[trigger] bit_of(masked, b) by {}
        lemma_positions_eq(masked, 16, Seq::empty());
        assert(swords_from(d, i, masked, pat) =~= structures_in_on(d, i, line, c, r, StructureKind::Sword));
    }
}

/// Where stored line `i` in direction `d` comes among the stored lines.
pub open spec fn key_of(d: Direction, i: int) -> int {
    match d {
        Vertical => i,
        Horizontal => 15 + i,
        Ascending => 26 + i,
        Descending => 47 + i,
    }
}

/// [`key_of`] and [`key_line`] undo each other on the stored lines.
pub proof fn lemma_key_of(d: Direction, i: int)
    requires
        stored(d, i),
    ensures
        0 <= key_of(d, i) < LINE_NUM,
        key_line(key_of(d, i)) == (d, i),
        forall|k: int| 0 <= k < LINE_NUM && #[trigger] key_line(k) == (d, i) ==> k == key_of(d, i),
{
}

/// The stored lines are those [`key_line`] names.
pub proof fn lemma_key_line(k: int)
    requires
        0 <= k < LINE_NUM,
    ensures
        stored(key_line(k).0, key_line(k).1),
        key_of(key_line(k).0, key_line(k).1) == k,
        line_size(key_line(k).0, key_line(k).1) >= 5,
{
}

/// The stones of the five cells of `line` from cell `j`, for `r`.
pub open spec fn window_of(line: Line, r: Player, j: u8) -> u8 {
    ((line.mine(r) >> (j as u16)) & 0b11111u16) as u8
}

/// The window's stones as the sword walk reads them.
pub proof fn lemma_window_of(line: Line, r: Player)
    requires
        line.wf(),
    ensures
        forall|j: u8| j < 16 ==> #[trigger] window_of(line, r, j) == window_bits(sword_walk(line, r), j as int) >> 1,
{
    let m = line.mine(r);
    assert forall|j: u8| j < 16 implies #[trigger] window_of(line, r, j) == window_bits(sword_walk(line, r), j as int) >> 1 by {
        assert((((m >> (j as u16)) & 0b11111u16) as u8) == (((((m << 1u16) as u16) >> j) as u8) & TARGET_MASK) >> 1) by (bit_vector)
            requires
                m < 0x8000,
                j < 16,
        ;
    }
}

/// Where `r`'s swords on `line` start, bit by bit.
fn sword_starts(line: &Line, r: Player) -> (res: u16)
    requires
        line.wf(),
        5 <= line.size,
    ensures
        starts_ok(*line, r, res),
{
    let (sk, n, exact) = StructureKind::Sword.to_sequence(r);
    if line.potential_cap(r) <= n {
        return 0;
    }
    let (my, op) = match r {
        Black => (line.blacks, line.whites),
        White => (line.whites, line.blacks),
    };
    let mut seqs = Sequences::new(line.size, my, op, sk, n, exact);
    let ghost w = sword_walk(*line, r);
    assert(seqs == w);
    assert(w.frame() == w);
    let found = seqs.to_vec();
    proof {
        lemma_emits_single(w, 0, false);
    }
    let mut st: u16 = 0;
    proof {
        lemma_bit_zero();
    }
    let mut m: usize = 0;
    while m < found.len()
        invariant
            found@ == w.remaining(),
            w.limit < 16,
            forall|q: int| 0 <= q < found@.len() ==> #[trigger] found@[q].0 <= w.limit,
            m <= found@.len(),
            forall|b: u16| b < 16 ==> (#[trigger] bit_of(st, b) <==> exists|q: int| 0 <= q < m && found@[q].0 == b),
        decreases found@.len() - m,
    {
        let (j, _) = found[m];
        assert(found@[m as int].0 <= w.limit);
        proof {
            lemma_bit_set(st, j as u16);
            assert forall|b: u16| b < 16 implies (#[trigger] bit_of(st | (1u16 << j as u16), b) <==> exists|q: int|
                0 <= q < m + 1 && found@[q].0 == b) by {
                if b == j as u16 {
                    assert(found@[m as int].0 == b);
                }
            }
        }
        st = st | (1u16 << j as u16);
        m += 1;
    }
    proof {
        assert forall|b: u16| b < 16 implies (#[trigger] bit_of(st, b) <==> (b <= w.limit && single_hit(w, b as int))) by {
            if b <= w.limit && single_hit(w, b as int) {
                let q = choose|q: int| 0 <= q < found@.len() && #[trigger] found@[q].0 == b as int;
                assert(found@[q].0 == b);
            }
        }
    }
    st
}

/// Where each player's swords are, kept alongside a [`Square`].
///
/// A sword is three own stones in a five-cell window with no opponent
/// stone (see [`StructureKind::Sword`]); its two empty eyes are what a VCF
/// search plays. This keeps, per player and per stored line, the cells
/// where a sword's window starts.
///
/// Updates are lazy: a move only changes the (at most four) lines through
/// it, so [`Self::mark_stale`] just notes those, and [`Self::sync`]
/// recomputes them before the next read.
///
/// [`Self::swords`] / [`Self::swords_on`] return what
/// [`Square::structures`] / [`Square::structures_on`] would for swords, in
/// the same order, when the map is in sync with the square.
pub struct SwordMap {
    /// Black's starts line by line, then White's: bit `j` is set if a
    /// sword's window starts at cell `j`.
    starts: Vec<u16>,
    /// Black's and White's lines with at least one sword, one bit per line.
    lines: Vec<u128>,
    /// Lines changed since the last [`Self::sync`], one bit per line.
    stale: u128,
}

/// What a [`SwordMap`] holds.
pub struct SwordMapModel {
    pub starts: Seq<u16>,
    pub lines: Seq<u128>,
    pub stale: u128,
}

impl View for SwordMap {
    type V = SwordMapModel;

    closed spec fn view(&self) -> SwordMapModel {
        SwordMapModel { starts: self.starts@, lines: self.lines@, stale: self.stale }
    }
}

/// Black's place before White's.
pub open spec fn player_slot(r: Player) -> int {
    if r == Black { 0 } else { 1 }
}

impl SwordMapModel {
    /// Both players' starts and lines are there, and no bit past the
    /// stored lines is stale.
    pub open spec fn wf(self) -> bool {
        &&& self.starts.len() == 2 * LINE_NUM
        &&& self.lines.len() == 2
        &&& self.stale >> 72u128 == 0
    }

    /// `r`'s starts on line `k`.
    pub open spec fn starts_of(self, r: Player, k: int) -> u16 {
        self.starts[player_slot(r) * 72 + k]
    }

    /// What the map holds of `r` on line `k` is what the square `g` has
    /// there.
    pub open spec fn line_ok(self, g: SquareModel, r: Player, k: int) -> bool {
        let (d, i) = key_line(k);
        &&& starts_ok(g.line_spec(d, i), r, self.starts_of(r, k))
        &&& (bit128(self.lines[player_slot(r)], k) <==> self.starts_of(r, k) != 0)
    }

    /// Every line that is not stale is as the square `g` has it.
    pub open spec fn agrees(self, g: SquareModel) -> bool {
        forall|k: int| 0 <= k < 72 && !bit128(self.stale, k) ==> #[trigger] self.line_ok(g, Black, k) && self.line_ok(g, White, k)
    }

    /// Every line below `k`, and every line `o` does not mark, is as the
    /// square `g` has it.
    pub open spec fn lines_ok_except(self, g: SquareModel, o: u128, k: int) -> bool {
        forall|q: int|
            0 <= q < 72 && (q < k || !bit128(o, q)) ==> #[trigger] self.line_ok(g, Black, q) && self.line_ok(g, White, q)
    }

    /// No line is stale.
    pub open spec fn synced(self) -> bool {
        self.stale == 0
    }

    /// The swords the map lists for `r` on line `k` of `g`, from the
    /// starts `mask`.
    pub open spec fn swords_at(self, g: SquareModel, r: Player, k: int, mask: u16) -> Seq<Structure> {
        let (d, i) = key_line(k);
        swords_from(d, i, mask, |j: u8| window_of(g.line_spec(d, i), r, j))
    }

    /// [`SwordMap::swords`] over the first `n` lines.
    pub open spec fn swords_upto(self, g: SquareModel, r: Player, n: int) -> Seq<Structure>
        decreases n,
    {
        if n <= 0 {
            Seq::empty()
        } else if bit128(self.lines[player_slot(r)], n - 1) {
            self.swords_upto(g, r, n - 1) + self.swords_at(g, r, n - 1, self.starts_of(r, n - 1))
        } else {
            self.swords_upto(g, r, n - 1)
        }
    }

    /// [`SwordMap::swords_on`] over the first `n` directions.
    pub open spec fn swords_on_upto(self, g: SquareModel, p: Point, r: Player, n: int) -> Seq<Structure>
        decreases n,
    {
        if n <= 0 {
            Seq::empty()
        } else {
            let rest = self.swords_on_upto(g, p, r, n - 1);
            let idx = p.index_of(directions()[n - 1]);
            if stored(idx.d, idx.i as int) {
                let k = key_of(idx.d, idx.i as int);
                rest + self.swords_at(g, r, k, self.starts_of(r, k) & through_mask(idx.j))
            } else {
                rest
            }
        }
    }
}

/// A line held as the square has it gives the swords a scan finds.
proof fn lemma_line_swords(m: SwordMapModel, g: SquareModel, r: Player, k: int)
    requires
        g.wf(),
        0 <= k < 72,
        m.line_ok(g, r, k),
    ensures
        m.swords_at(g, r, k, m.starts_of(r, k)) == structures_in(
            key_line(k).0,
            key_line(k).1,
            g.line_spec(key_line(k).0, key_line(k).1),
            r,
            StructureKind::Sword,
        ),
        forall|c: u8| c < line_size(key_line(k).0, key_line(k).1) ==> #[trigger] m.swords_at(g, r, k, m.starts_of(r, k) & through_mask(c)) == structures_in_on(
            key_line(k).0,
            key_line(k).1,
            g.line_spec(key_line(k).0, key_line(k).1),
            c,
            r,
            StructureKind::Sword,
        ),
{
    let (d, i) = key_line(k);
    let line = g.line_spec(d, i);
    lemma_key_line(k);
    assert(line.wf() && line.size == line_size(d, i));
    lemma_window_of(line, r);
    let pat = |j: u8| window_of(line, r, j);
    lemma_swords_from(d, i, line, r, m.starts_of(r, k), pat);
    assert forall|c: u8| c < line_size(d, i) implies #[trigger] m.swords_at(g, r, k, m.starts_of(r, k) & through_mask(c)) == structures_in_on(
        d,
        i,
        line,
        c,
        r,
        StructureKind::Sword,
    ) by {
        lemma_swords_from_on(d, i, line, r, m.starts_of(r, k), pat, c);
    }
}

/// In sync with a square, the map lists the swords a scan of the square
/// finds, line by line.
pub proof fn lemma_swords_match_scan(m: SwordMapModel, g: SquareModel, r: Player, n: int)
    requires
        g.wf(),
        m.wf(),
        m.synced(),
        m.agrees(g),
        0 <= n <= 72,
    ensures
        m.swords_upto(g, r, n) == g.structures_upto(r, StructureKind::Sword, n),
    decreases n,
{
    if n > 0 {
        lemma_swords_match_scan(m, g, r, n - 1);
        let k = n - 1;
        lemma_bit128_zero(k as u128);
        assert(m.agrees(g));
        assert(m.line_ok(g, Black, k));
        assert(m.line_ok(g, White, k));
        lemma_line_swords(m, g, r, k);
        if !bit128(m.lines[player_slot(r)], k) {
            lemma_bit_zero();
            lemma_positions_eq(0u16, 16, Seq::empty());
            assert(structures_in(key_line(k).0, key_line(k).1, g.line_spec(key_line(k).0, key_line(k).1), r, StructureKind::Sword) =~= Seq::empty());
        }
    }
}

/// In sync with a square, the map lists the swords through `p` a scan of
/// the square finds, direction by direction.
pub proof fn lemma_swords_on_match_scan(m: SwordMapModel, g: SquareModel, p: Point, r: Player, n: int)
    requires
        g.wf(),
        m.wf(),
        m.synced(),
        m.agrees(g),
        p.valid(),
        0 <= n <= 4,
    ensures
        m.swords_on_upto(g, p, r, n) == g.structures_on_upto(p, r, StructureKind::Sword, n),
    decreases n,
{
    if n > 0 {
        lemma_swords_on_match_scan(m, g, p, r, n - 1);
        let idx = p.index_of(directions()[n - 1]);
        if stored(idx.d, idx.i as int) {
            let k = key_of(idx.d, idx.i as int);
            lemma_key_of(idx.d, idx.i as int);
            lemma_bit128_zero(k as u128);
            assert(m.agrees(g));
            assert(m.line_ok(g, Black, k));
            assert(m.line_ok(g, White, k));
            lemma_line_swords(m, g, r, k);
            super::point::lemma_point_index_roundtrip(p, idx.d);
            assert(idx.j < line_size(idx.d, idx.i as int));
        }
    }
}

/// After a move on `p`, a map that notes the lines through `p` as stale
/// still agrees with the square.
pub proof fn lemma_move_keeps_agreement(m: SwordMapModel, m2: SwordMapModel, g: SquareModel, p: Point, c: Option<Player>)
    requires
        g.wf(),
        p.valid(),
        m.agrees(g),
        m2.starts == m.starts,
        m2.lines == m.lines,
        forall|k: int|
            0 <= k < 72 ==> (#[trigger] bit128(m2.stale, k) <==> bit128(m.stale, k) || key_line(k).1
                == p.index_of(key_line(k).0).i),
    ensures
        m2.agrees(g.set_spec(p, c)),
{
    let g2 = g.set_spec(p, c);
    assert forall|k: int| 0 <= k < 72 && !bit128(m2.stale, k) implies #[trigger] m2.line_ok(g2, Black, k) && m2.line_ok(g2, White, k) by {
        lemma_key_line(k);
        let (d, i) = key_line(k);
        assert(g2.line_spec(d, i) == g.line_spec(d, i));
        assert(!bit128(m.stale, k));
        assert(m.agrees(g));
        assert(m.line_ok(g, Black, k));
        assert(m.line_ok(g, White, k));
    }
}

/// The stones of the window of `line` from cell `j`, for `r`.
fn window(line: &Line, r: Player, j: u8) -> (res: Sequence)
    requires
        j < 16,
    ensures
        res == Sequence(window_of(*line, r, j)),
{
    let my = match r {
        Black => line.blacks,
        White => line.whites,
    };
    Sequence(((my >> j as u16) & 0b11111u16) as u8)
}

/// The swords on stored line `k` of `square` whose windows start at the
/// bits of `starts`.
fn swords_in(square: &Square, r: Player, k: usize, starts: u16) -> (res: Vec<Structure>)
    requires
        square@.wf(),
        k < LINE_NUM,
    ensures
        res@ == swords_from(
            key_line(k as int).0,
            key_line(k as int).1,
            starts,
            |j: u8| window_of(square@.line_spec(key_line(k as int).0, key_line(k as int).1), r, j),
        ),
{
    let (d, i) = Square::line_of_key(k);
    let line = square.line(d, i).unwrap();
    let ghost pat = |jj: u8| window_of(square@.line_spec(d, i as int), r, jj);
    let mut res: Vec<Structure> = Vec::new();
    let mut j: u8 = 0;
    while j < 16
        invariant
            j <= 16,
            *line == square@.line_spec(d, i as int),
            res@.len() == positions(starts, j as nat).len(),
            forall|m: int|
                0 <= m < res@.len() ==> #[trigger] res@[m] == (Structure {
                    start: Index { d, i, j: positions(starts, j as nat)[m] },
                    sequence: Sequence(window_of(*line, r, positions(starts, j as nat)[m])),
                }),
        decreases 16 - j,
    {
        let ghost before = res@;
        if (starts >> j as u16) & 1 == 1 {
            assert(bit_of(starts, j as u16));
            assert(positions(starts, (j + 1) as nat) == positions(starts, j as nat).push(j));
            res.push(Structure::new(Index::new(d, i, j), window(line, r, j)));
            assert forall|m: int| 0 <= m < res@.len() implies #[trigger] res@[m] == (Structure {
                start: Index { d, i, j: positions(starts, (j + 1) as nat)[m] },
                sequence: Sequence(window_of(*line, r, positions(starts, (j + 1) as nat)[m])),
            }) by {
                if m < before.len() {
                    assert(res@[m] == before[m]);
                }
            }
        } else {
            assert(!bit_of(starts, j as u16));
            assert(positions(starts, (j + 1) as nat) == positions(starts, j as nat));
        }
        j += 1;
    }
    assert(res@ =~= swords_from(d, i as int, starts, pat));
    res
}

/// Black's place before White's.
fn player_index(r: Player) -> (res: usize)
    ensures
        res == player_slot(r),
{
    if r.is_black() {
        0
    } else {
        1
    }
}

impl SwordMap {
    /// A map that knows nothing yet: every line is stale.
    pub fn new() -> (res: Self)
        ensures
            res@.wf(),
            forall|k: int| 0 <= k < LINE_NUM ==> #[trigger] bit128(res@.stale, k),
            !res@.synced(),
    {
        let mut starts: Vec<u16> = Vec::new();
        let mut n: usize = 0;
        while n < 2 * LINE_NUM
            invariant
                n <= 2 * LINE_NUM,
                starts@.len() == n,
            decreases 2 * LINE_NUM - n,
        {
            starts.push(0);
            n += 1;
        }
        let mut lines: Vec<u128> = Vec::new();
        lines.push(0);
        lines.push(0);
        proof {
            lemma_all_lines(0);
        }
        let stale: u128 = (1u128 << 72u128) - 1;
        let res = SwordMap { starts, lines, stale };
        proof {
            assert forall|k: int| 0 <= k < LINE_NUM implies #[trigger] bit128(res@.stale, k) by {
                lemma_all_lines(k as u128);
            }
        }
        res
    }

    /// Notes that a stone was put on or taken off `p`: the lines through
    /// it are stale.
    pub fn mark_stale(&mut self, p: Point)
        requires
            old(self)@.wf(),
            p.valid(),
        ensures
            final(self)@.wf(),
            final(self)@.starts == old(self)@.starts,
            final(self)@.lines == old(self)@.lines,
            forall|k: int|
                0 <= k < LINE_NUM ==> (#[trigger] bit128(final(self)@.stale, k) <==> bit128(old(self)@.stale, k)
                    || key_line(k).1 == p.index_of(key_line(k).0).i),
    {
        let dirs = [Direction::Vertical, Direction::Horizontal, Direction::Ascending, Direction::Descending];
        let mut n: usize = 0;
        while n < 4
            invariant
                self@.wf(),
                p.valid(),
                n <= 4,
                dirs@ == directions(),
                self@.starts == old(self)@.starts,
                self@.lines == old(self)@.lines,
                forall|k: int|
                    0 <= k < LINE_NUM ==> (#[trigger] bit128(self@.stale, k) <==> bit128(old(self)@.stale, k)
                        || exists|q: int| 0 <= q < n && key_line(k).0 == directions()[q] && key_line(k).1
                        == p.index_of(key_line(k).0).i),
            decreases 4 - n,
        {
            let d = dirs[n];
            let idx = p.to_index(d);
            if let Some(k) = Square::line_key(d, idx.i) {
                let ghost before = self.stale;
                self.stale = self.stale | (1u128 << k as u128);
                proof {
                    lemma_bit128_set(before, k as u128);
                    lemma_key_of(d, idx.i as int);
                    lemma_or_below(before, k as u128);
                    assert forall|q: int| 0 <= q < LINE_NUM implies (#[trigger] bit128(self@.stale, q) <==> bit128(old(self)@.stale, q)
                        || exists|m: int| 0 <= m < n + 1 && key_line(q).0 == directions()[m] && key_line(q).1
                        == p.index_of(key_line(q).0).i) by {
                        assert(bit128(self.stale, (q as u128) as int) == bit128(self.stale, q));
                        if key_line(q).0 == directions()[n as int] && key_line(q).1 == p.index_of(key_line(q).0).i {
                            assert(key_line(q) == (d, idx.i as int));
                        }
                    }
                }
            } else {
                proof {
                    assert forall|q: int| 0 <= q < LINE_NUM implies (#[trigger] bit128(self@.stale, q) <==> bit128(old(self)@.stale, q)
                        || exists|m: int| 0 <= m < n + 1 && key_line(q).0 == directions()[m] && key_line(q).1
                        == p.index_of(key_line(q).0).i) by {
                        lemma_key_line(q);
                    }
                }
            }
            n += 1;
        }
        proof {
            assert forall|k: int| 0 <= k < LINE_NUM implies (#[trigger] bit128(self@.stale, k) <==> bit128(old(self)@.stale, k)
                || key_line(k).1 == p.index_of(key_line(k).0).i) by {
                if key_line(k).1 == p.index_of(key_line(k).0).i {
                    let d = key_line(k).0;
                    let q = match d {
                        Direction::Vertical => 0int,
                        Direction::Horizontal => 1,
                        Direction::Ascending => 2,
                        Direction::Descending => 3,
                    };
                    assert(directions()[q] == d);
                }
            }
        }
    }

    /// Whether no line is stale.
    pub fn is_synced(&self) -> (res: bool)
        ensures
            res == self@.synced(),
    {
        self.stale == 0
    }

    /// Recomputes the stale lines from `square`; a map that agreed with the
    /// square on the lines that were not stale then agrees with it
    /// everywhere.
    #[verifier::spinoff_prover]
    pub fn sync(&mut self, square: &Square)
        requires
            old(self)@.wf(),
            square@.wf(),
        ensures
            final(self)@.wf(),
            final(self)@.synced(),
            old(self)@.agrees(square@) ==> final(self)@.agrees(square@),
            forall|k: int|
                0 <= k < LINE_NUM && #[trigger] bit128(old(self)@.stale, k) ==> final(self)@.line_ok(square@, Black, k)
                    && final(self)@.line_ok(square@, White, k),
            forall|r: Player, k: int|
                0 <= k < LINE_NUM && !bit128(old(self)@.stale, k) ==> #[trigger] final(self)@.starts_of(r, k) == old(self)@.starts_of(r, k),
            forall|q: int|
                0 <= q < 128 && !bit128(old(self)@.stale, q) ==> #[trigger] bit128(final(self)@.lines[0], q) == bit128(old(self)@.lines[0], q),
            forall|q: int|
                0 <= q < 128 && !bit128(old(self)@.stale, q) ==> #[trigger] bit128(final(self)@.lines[1], q) == bit128(old(self)@.lines[1], q),
    {
        let o = self.stale;
        let ghost agreed = old(self)@.agrees(square@);
        proof {
            if agreed {
                assert forall|q: int| 0 <= q < 72 && (q < 0 || !bit128(o, q)) implies #[trigger] self@.line_ok(square@, Black, q)
                    && self@.line_ok(square@, White, q) by {
                    assert(old(self)@.agrees(square@));
                }
            }
        }
        let mut k: usize = 0;
        while k < LINE_NUM
            invariant
                self@.wf(),
                square@.wf(),
                k <= LINE_NUM,
                o == old(self)@.stale,
                self@.stale == o,
                agreed == old(self)@.agrees(square@),
                agreed ==> self@.lines_ok_except(square@, o, k as int),
                forall|q: int|
                    0 <= q < k && #[trigger] bit128(o, q) ==> self@.line_ok(square@, Black, q) && self@.line_ok(square@, White, q),
                forall|r: Player, q: int|
                    0 <= q < LINE_NUM && !(bit128(o, q) && q < k) ==> #[trigger] self@.starts_of(r, q) == old(self)@.starts_of(r, q),
                forall|q: int|
                    0 <= q < 128 && !(bit128(o, q) && q < k) ==> (#[trigger] bit128(self@.lines[0], q) == bit128(old(self)@.lines[0], q)
                        && bit128(self@.lines[1], q) == bit128(old(self)@.lines[1], q)),
            decreases LINE_NUM - k,
        {
            if (o >> k as u128) & 1 == 1 {
                let ghost before = self@;
                self.update(k, square);
                proof {
                    if old(self)@.agrees(square@) {
                        assert forall|q: int| 0 <= q < 72 && (q < k + 1 || !bit128(o, q)) implies #[trigger] self@.line_ok(square@, Black, q)
                            && self@.line_ok(square@, White, q) by {
                            if q != k {
                                assert(before.lines_ok_except(square@, o, k as int));
                                assert(before.line_ok(square@, Black, q));
                                assert(before.line_ok(square@, White, q));
                                assert(self@.starts_of(Black, q) == before.starts_of(Black, q));
                                assert(self@.starts_of(White, q) == before.starts_of(White, q));
                                assert(bit128(self@.lines[0], q) == bit128(before.lines[0], q));
                                assert(bit128(self@.lines[1], q) == bit128(before.lines[1], q));
                            }
                        }
                        assert(self@.lines_ok_except(square@, o, k + 1));
                    }
                    assert forall|q: int| 0 <= q < k + 1 && #[trigger] bit128(o, q) implies self@.line_ok(square@, Black, q)
                        && self@.line_ok(square@, White, q) by {
                        if q != k {
                            assert(before.line_ok(square@, Black, q));
                            assert(before.line_ok(square@, White, q));
                            assert(self@.starts_of(Black, q) == before.starts_of(Black, q));
                            assert(self@.starts_of(White, q) == before.starts_of(White, q));
                            assert(bit128(self@.lines[0], q) == bit128(before.lines[0], q));
                            assert(bit128(self@.lines[1], q) == bit128(before.lines[1], q));
                        }
                    }
                    assert forall|r: Player, q: int| 0 <= q < LINE_NUM && !(bit128(o, q) && q < k + 1) implies #[trigger] self@.starts_of(r, q)
                        == old(self)@.starts_of(r, q) by {
                        assert(before.starts_of(r, q) == old(self)@.starts_of(r, q));
                    }
                    assert forall|q: int| 0 <= q < 128 && !(bit128(o, q) && q < k + 1) implies (#[trigger] bit128(self@.lines[0], q)
                        == bit128(old(self)@.lines[0], q) && bit128(self@.lines[1], q) == bit128(old(self)@.lines[1], q)) by {
                        assert(bit128(before.lines[0], q) == bit128(old(self)@.lines[0], q));
                        assert(bit128(before.lines[1], q) == bit128(old(self)@.lines[1], q));
                    }
                }
            } else {
                proof {
                    assert(!bit128(o, k as int));
                    if agreed {
                        assert forall|q: int| 0 <= q < 72 && (q < k + 1 || !bit128(o, q)) implies #[trigger] self@.line_ok(square@, Black, q)
                            && self@.line_ok(square@, White, q) by {
                            assert(self@.lines_ok_except(square@, o, k as int));
                            if q == k {
                                assert(!bit128(o, q));
                            }
                        }
                        assert(self@.lines_ok_except(square@, o, k + 1));
                    }
                }
            }
            k += 1;
        }
        let ghost done = self@;
        self.stale = 0;
        proof {
            lemma_all_lines(0);
            if old(self)@.agrees(square@) {
                assert forall|q: int| 0 <= q < 72 && !bit128(self@.stale, q) implies #[trigger] self@.line_ok(square@, Black, q)
                    && self@.line_ok(square@, White, q) by {
                    assert(q < k);
                    assert(done.lines_ok_except(square@, o, k as int));
                    assert(done.line_ok(square@, Black, q));
                    assert(done.line_ok(square@, White, q));
                    assert(done.starts == self@.starts && done.lines == self@.lines);
                }
            }
            assert forall|q: int| 0 <= q < LINE_NUM && #[trigger] bit128(o, q) implies self@.line_ok(square@, Black, q)
                && self@.line_ok(square@, White, q) by {
                assert(done.line_ok(square@, Black, q));
                assert(done.line_ok(square@, White, q));
                assert(done.starts == self@.starts && done.lines == self@.lines);
            }
            assert forall|r: Player, q: int| 0 <= q < LINE_NUM && !bit128(o, q) implies #[trigger] self@.starts_of(r, q)
                == old(self)@.starts_of(r, q) by {
                assert(done.starts_of(r, q) == old(self)@.starts_of(r, q));
            }
            assert forall|q: int| 0 <= q < 128 && !bit128(o, q) implies (#[trigger] bit128(self@.lines[0], q)
                == bit128(old(self)@.lines[0], q) && bit128(self@.lines[1], q) == bit128(old(self)@.lines[1], q)) by {
                assert(done.lines == self@.lines);
                assert(bit128(done.lines[0], q) == bit128(old(self)@.lines[0], q));
            }
            assert forall|q: int| 0 <= q < 128 && !bit128(o, q) implies #[trigger] bit128(self@.lines[1], q)
                == bit128(old(self)@.lines[1], q) by {
                assert(done.lines == self@.lines);
                assert(bit128(done.lines[0], q) == bit128(old(self)@.lines[0], q));
                assert(bit128(done.lines[1], q) == bit128(old(self)@.lines[1], q));
            }
        }
    }

    /// Recomputes line `k` from `square`, for both players.
    fn update(&mut self, k: usize, square: &Square)
        requires
            old(self)@.wf(),
            square@.wf(),
            k < LINE_NUM,
        ensures
            final(self)@.wf(),
            final(self)@.stale == old(self)@.stale,
            final(self)@.line_ok(square@, Black, k as int),
            final(self)@.line_ok(square@, White, k as int),
            forall|r: Player, q: int|
                0 <= q < LINE_NUM && q != k ==> #[trigger] final(self)@.starts_of(r, q) == old(self)@.starts_of(r, q),
            forall|q: int| 0 <= q < 128 && q != k ==> #[trigger] bit128(final(self)@.lines[0], q) == bit128(old(self)@.lines[0], q),
            forall|q: int| 0 <= q < 128 && q != k ==> #[trigger] bit128(final(self)@.lines[1], q) == bit128(old(self)@.lines[1], q),
    {
        let (d, i) = Square::line_of_key(k);
        let line = square.line(d, i).unwrap();
        proof {
            lemma_key_line(k as int);
        }
        self.update_player(k, line, Black);
        self.update_player(k, line, White);
    }

    /// Recomputes `r`'s starts on line `k`, which is `line`.
    fn update_player(&mut self, k: usize, line: &Line, r: Player)
        requires
            old(self)@.wf(),
            k < LINE_NUM,
            line.wf(),
            5 <= line.size,
        ensures
            final(self)@.wf(),
            final(self)@.stale == old(self)@.stale,
            starts_ok(*line, r, final(self)@.starts_of(r, k as int)),
            bit128(final(self)@.lines[player_slot(r)], k as int) <==> final(self)@.starts_of(r, k as int) != 0,
            forall|r2: Player, q: int|
                0 <= q < LINE_NUM && (q != k || r2 != r) ==> #[trigger] final(self)@.starts_of(r2, q) == old(self)@.starts_of(r2, q),
            forall|q: int| 0 <= q < 128 && q != k ==> #[trigger] bit128(final(self)@.lines[0], q) == bit128(old(self)@.lines[0], q),
            forall|q: int| 0 <= q < 128 && q != k ==> #[trigger] bit128(final(self)@.lines[1], q) == bit128(old(self)@.lines[1], q),
            final(self)@.lines[1 - player_slot(r)] == old(self)@.lines[1 - player_slot(r)],
    {
        let pi = player_index(r);
        let st = sword_starts(line, r);
        self.starts.set(pi * LINE_NUM + k, st);
        let before = self.lines[pi];
        let after = if st != 0 {
            before | (1u128 << k as u128)
        } else {
            before & !(1u128 << k as u128)
        };
        self.lines.set(pi, after);
        proof {
            lemma_bit128_set(before, k as u128);
            assert(bit128(after, ((k as u128) as int)) <==> st != 0);
            assert forall|q: int| 0 <= q < 128 && q != k implies #[trigger] bit128(self@.lines[pi as int], q) == bit128(old(self)@.lines[pi as int], q) by {
                assert(bit128(after, (q as u128) as int) == bit128(after, q));
                assert(bit128(before, (q as u128) as int) == bit128(before, q));
            }
        }
    }

    /// `r`'s swords, as [`Square::structures`] lists them when the map is
    /// in sync with `square`.
    pub fn swords(&self, square: &Square, r: Player) -> (res: Vec<Structure>)
        requires
            self@.wf(),
            square@.wf(),
        ensures
            res@ == self@.swords_upto(square@, r, 72),
            self@.synced() && self@.agrees(square@) ==> res@ == square@.structures_upto(r, StructureKind::Sword, 72),
    {
        let pi = player_index(r);
        let lines = self.lines[pi];
        let mut res: Vec<Structure> = Vec::new();
        let mut k: usize = 0;
        while k < LINE_NUM
            invariant
                self@.wf(),
                square@.wf(),
                k <= LINE_NUM,
                pi == player_slot(r),
                lines == self@.lines[pi as int],
                res@ == self@.swords_upto(square@, r, k as int),
            decreases LINE_NUM - k,
        {
            if (lines >> k as u128) & 1 == 1 {
                let mut found = swords_in(square, r, k, self.starts[pi * LINE_NUM + k]);
                res.append(&mut found);
            }
            k += 1;
        }
        proof {
            if self@.synced() && self@.agrees(square@) {
                lemma_swords_match_scan(self@, square@, r, 72);
            }
        }
        res
    }

    /// `r`'s swords with `p` in their window, as [`Square::structures_on`]
    /// lists them when the map is in sync with `square`.
    pub fn swords_on(&self, square: &Square, p: Point, r: Player) -> (res: Vec<Structure>)
        requires
            self@.wf(),
            square@.wf(),
            p.valid(),
        ensures
            res@ == self@.swords_on_upto(square@, p, r, 4),
            self@.synced() && self@.agrees(square@) ==> res@ == square@.structures_on_upto(p, r, StructureKind::Sword, 4),
    {
        let pi = player_index(r);
        let dirs = [Direction::Vertical, Direction::Horizontal, Direction::Ascending, Direction::Descending];
        let mut res: Vec<Structure> = Vec::new();
        let mut n: usize = 0;
        while n < 4
            invariant
                self@.wf(),
                square@.wf(),
                p.valid(),
                n <= 4,
                pi == player_slot(r),
                dirs@ == directions(),
                res@ == self@.swords_on_upto(square@, p, r, n as int),
            decreases 4 - n,
        {
            let index = p.to_index(dirs[n]);
            if let Some(k) = Square::line_key(index.d, index.i) {
                proof {
                    lemma_key_of(index.d, index.i as int);
                }
                let j = index.j;
                let lo: u8 = if j > 4 {
                    j - 4
                } else {
                    0
                };
                proof {
                    lemma_through_mask(j);
                }
                let mask = ((1u32 << (j as u32 + 1)) - (1u32 << (lo as u32))) as u16;
                assert(mask == through_mask(j));
                let mut found = swords_in(square, r, k, self.starts[pi * LINE_NUM + k] & mask);
                res.append(&mut found);
            }
            n += 1;
        }
        proof {
            if self@.synced() && self@.agrees(square@) {
                lemma_swords_on_match_scan(self@, square@, p, r, 4);
            }
        }
        res
    }
}

} // verus!
