//! Rows found by sliding [`Pattern`]s over a line.
use vstd::prelude::*;
use std::collections::HashMap;
use super::pattern2::{
    black_fives, black_fives_spec, black_fours, black_fours_spec, black_overlines,
    black_overlines_spec, white_fives, white_fives_spec, white_fours, white_fours_spec, Pattern,
};
use crate::bitboard::bits::lemma_match_bits;
use crate::board::board::Board;
use crate::board::line::Line;
use crate::board::player::{Black, Player, White};
use crate::board::map::{lemma_key_line, lemma_key_of};
use crate::board::point::{Ascending, Descending, Direction, Horizontal, Index, Point, Vertical};
use crate::board::square::{key_line, line_size, stored, SquareModel, LINE_NUM};
use crate::board::util::{bit_of, lemma_u16_bits};

verus! {

/// The rows a search looks for.
#[derive(Debug, PartialEq, Eq, Hash, Clone, Copy, Structural)]
pub enum RowKind {
    Two,
    Sword,
    Three,
    Four,
    Five,
    Overline,
}

/// A row found on one line: its first and last cells and its eyes.
#[derive(Debug)]
pub struct LineRow {
    pub start: u8,
    pub end: u8,
    pub eyes: Vec<u8>,
}

/// A row of the board: its direction, first and last points, and eyes.
#[derive(Debug)]
pub struct Row {
    pub direction: Direction,
    pub start: Point,
    pub end: Point,
    pub eyes: Vec<Point>,
}

/// What a [`LineRow`] holds, as plain values.
pub open spec fn line_row_view(r: LineRow) -> (u8, u8, Seq<u8>) {
    (r.start, r.end, r.eyes@)
}

/// The row `pattern` gives where its window starts one cell before cell
/// `i` of the line: its cells moved by `i - 1`.
pub open spec fn row_at_shift(pattern: Pattern, i: int) -> (u8, u8, Seq<u8>) {
    (
        (pattern.start_cell() + i - 1) as u8,
        (pattern.end_cell() + i - 1) as u8,
        pattern.eye_cells().map_values(|e: int| (e + i - 1) as u8),
    )
}

/// The rows `pattern` gives over the first `n` window positions of the
/// line whose stones and empty cells, with one empty margin cell put in
/// front, are `stones` and `blanks`: those where it matches, in order.
pub open spec fn scanned(pattern: Pattern, stones: u16, blanks: u16, n: int) -> Seq<(u8, u8, Seq<u8>)>
    decreases n,
{
    if n <= 0 {
        Seq::empty()
    } else {
        let rest = scanned(pattern, stones, blanks, n - 1);
        let i = n - 1;
        if pattern.matches_spec(stones >> (i as u16), blanks >> (i as u16)) {
            rest.push(row_at_shift(pattern, i))
        } else {
            rest
        }
    }
}

/// `r`'s stones on `line`, one cell to the left for the margin.
pub open spec fn margin_stones(line: Line, black: bool) -> u16 {
    ((if black { line.blacks } else { line.whites }) << 1u16) as u16
}

/// The empty cells of `line`, one cell to the left for the margin.
pub open spec fn margin_blanks(line: Line) -> u16 {
    ((!(line.blacks | line.whites) & (((1u16 << line.size) - 1) as u16)) << 1u16) as u16
}

/// How many window positions a pattern of `size` cells has over `line`
/// with a margin cell at each end.
pub open spec fn positions_over(line: Line, size: u8) -> int {
    if line.size + 2 < size { 0 } else { line.size + 2 - size + 1 }
}

/// Whether a match at the first window position, which covers the margin
/// in front of the line, gives no cell before the line: a row's end or
/// eye there would be cell -1, which a byte cannot hold.
pub open spec fn first_match_fits(pattern: Pattern, line: Line, black: bool) -> bool {
    pattern.matches_spec(margin_stones(line, black), margin_blanks(line)) ==> (pattern.end_cell() >= 1
        && forall|k: int| 0 <= k < pattern.eye_cells().len() ==> #[trigger] pattern.eye_cells()[k] >= 1)
}

/// [`scanned`] for each of `patterns` in turn, one after the other.
pub open spec fn scanned_all(patterns: Seq<Pattern>, line: Line, black: bool) -> Seq<(u8, u8, Seq<u8>)>
    decreases patterns.len(),
{
    if patterns.len() == 0 {
        Seq::empty()
    } else {
        let p = patterns.last();
        scanned_all(patterns.drop_last(), line, black) + scanned(
            p,
            margin_stones(line, black),
            margin_blanks(line),
            positions_over(line, p.size_spec()),
        )
    }
}

/// The patterns a search for `kind` on `black`'s stones (Black if true)
/// slides over each line: none for a kind without patterns.
pub open spec fn kind_patterns(black: bool, kind: RowKind) -> Seq<Pattern> {
    match (black, kind) {
        (true, RowKind::Four) => black_fours_spec(),
        (true, RowKind::Five) => black_fives_spec(),
        (true, RowKind::Overline) => black_overlines_spec(),
        (false, RowKind::Four) => white_fours_spec(),
        (false, RowKind::Five) => white_fives_spec(),
        _ => Seq::empty(),
    }
}

/// A pattern whose row starts and ends on cells it looks at, and whose
/// eyes are cells it wants empty.
pub open spec fn pattern_fits(p: Pattern) -> bool {
    &&& bit_of(p.stones | p.blanks, p.start_cell() as u16)
    &&& bit_of(p.stones | p.blanks, p.end_cell() as u16)
    &&& 0 <= p.start_cell() < 16
    &&& 0 <= p.end_cell() < 16
    &&& p.size_spec() >= 5
    &&& forall|k: int|
        0 <= k < p.eye_cells().len() ==> 0 <= #[trigger] p.eye_cells()[k] < 16 && bit_of(
            p.blanks,
            p.eye_cells()[k] as u16,
        )
}

/// No stone lies past the line's last cell.
pub open spec fn ends_clear(line: Line) -> bool {
    forall|k: int| line.size <= k < 16 ==> #[trigger] line.cell(k) is None
}

/// A row's first and last cells and its eyes all lie on a line of `size`
/// cells.
pub open spec fn cells_within(r: (u8, u8, Seq<u8>), size: u8) -> bool {
    &&& r.0 < size
    &&& r.1 < size
    &&& forall|k: int| 0 <= k < r.2.len() ==> #[trigger] r.2[k] < size
}

/// The masks of the patterns, and the cells of a line's mask.
proof fn lemma_pattern_masks(z: u16, s: u8, k: u16, x: u16, f: u16, ps: u16, c: u16, i: u16, b: u16, w: u16, y: u16)
    by (bit_vector)
    ensures
        (c < 16 && i < 16 && (c + i == 0 || c + i >= 16)) ==> !bit_of((x << 1u16) >> i, c),
        (s <= 15 && k < 16) ==> (bit_of(!(b | w) & (((1u16 << s) - 1) as u16), k) <==> (k < s && !bit_of(b, k)
            && !bit_of(w, k))),
        (!bit_of(x, 0) && bit_of(x, 1) && bit_of(x, 2) && bit_of(x, 3) && bit_of(x, 4) && !bit_of(x, 5) && !bit_of(x, 6)) ==> x & 0b1111111u16 == 0b11110u16,
        bit_of(y, 5) ==> y & 0b1111111u16 & 0b100000u16 == 0b100000u16,
        (!bit_of(x, 0) && bit_of(x, 1) && bit_of(x, 2) && bit_of(x, 3) && !bit_of(x, 4) && bit_of(x, 5) && !bit_of(x, 6)) ==> x & 0b1111111u16 == 0b101110u16,
        bit_of(y, 4) ==> y & 0b1111111u16 & 0b10000u16 == 0b10000u16,
        (!bit_of(x, 0) && bit_of(x, 1) && bit_of(x, 2) && !bit_of(x, 3) && bit_of(x, 4) && bit_of(x, 5) && !bit_of(x, 6)) ==> x & 0b1111111u16 == 0b110110u16,
        bit_of(y, 3) ==> y & 0b1111111u16 & 0b1000u16 == 0b1000u16,
        (!bit_of(x, 0) && bit_of(x, 1) && !bit_of(x, 2) && bit_of(x, 3) && bit_of(x, 4) && bit_of(x, 5) && !bit_of(x, 6)) ==> x & 0b1111111u16 == 0b111010u16,
        bit_of(y, 2) ==> y & 0b1111111u16 & 0b100u16 == 0b100u16,
        (!bit_of(x, 0) && !bit_of(x, 1) && bit_of(x, 2) && bit_of(x, 3) && bit_of(x, 4) && bit_of(x, 5) && !bit_of(x, 6)) ==> x & 0b1111111u16 == 0b111100u16,
        bit_of(y, 1) ==> y & 0b1111111u16 & 0b10u16 == 0b10u16,
        (!bit_of(x, 0) && bit_of(x, 1) && bit_of(x, 2) && bit_of(x, 3) && bit_of(x, 4) && bit_of(x, 5) && !bit_of(x, 6)) ==> x & 0b1111111u16 == 0b111110u16,
        (bit_of(x, 0) && bit_of(x, 1) && bit_of(x, 2) && bit_of(x, 3) && bit_of(x, 4) && bit_of(x, 5)) ==> x & 0b111111u16 == 0b111111u16,
        (bit_of(x, 0) && bit_of(x, 1) && bit_of(x, 2) && bit_of(x, 3) && !bit_of(x, 4)) ==> x & 0b11111u16 == 0b1111u16,
        bit_of(y, 4) ==> y & 0b11111u16 & 0b10000u16 == 0b10000u16,
        (bit_of(x, 0) && bit_of(x, 1) && bit_of(x, 2) && !bit_of(x, 3) && bit_of(x, 4)) ==> x & 0b11111u16 == 0b10111u16,
        bit_of(y, 3) ==> y & 0b11111u16 & 0b1000u16 == 0b1000u16,
        (bit_of(x, 0) && bit_of(x, 1) && !bit_of(x, 2) && bit_of(x, 3) && bit_of(x, 4)) ==> x & 0b11111u16 == 0b11011u16,
        bit_of(y, 2) ==> y & 0b11111u16 & 0b100u16 == 0b100u16,
        (bit_of(x, 0) && !bit_of(x, 1) && bit_of(x, 2) && bit_of(x, 3) && bit_of(x, 4)) ==> x & 0b11111u16 == 0b11101u16,
        bit_of(y, 1) ==> y & 0b11111u16 & 0b10u16 == 0b10u16,
        (!bit_of(x, 0) && bit_of(x, 1) && bit_of(x, 2) && bit_of(x, 3) && bit_of(x, 4)) ==> x & 0b11111u16 == 0b11110u16,
        bit_of(y, 0) ==> y & 0b11111u16 & 0b1u16 == 0b1u16,
        (bit_of(x, 0) && bit_of(x, 1) && bit_of(x, 2) && bit_of(x, 3) && bit_of(x, 4)) ==> x & 0b11111u16 == 0b11111u16,
        y & 0b1111111u16 & 0u16 == 0u16,
        y & 0b111111u16 & 0u16 == 0u16,
        y & 0b11111u16 & 0u16 == 0u16,
        (x & f == ps && bit_of(f, c) && !bit_of(ps, c)) ==> !bit_of(x, c),
        (c < 16 && i < 16 && c + i >= 1 && c + i <= 15) ==> (bit_of((x << 1u16) >> i, c) <==> bit_of(
            x,
            (c + i - 1) as u16,
        )),
        bit_of(!(b | w), k) ==> !bit_of(b, k) && !bit_of(w, k),
        (b & w == 0 && bit_of(w, k)) ==> !bit_of(b, k),
        !bit_of(0b0u16, 0),
        !bit_of(0b0u16, 1),
        !bit_of(0b0u16, 2),
        !bit_of(0b0u16, 3),
        !bit_of(0b0u16, 4),
        !bit_of(0b0u16, 5),
        !bit_of(0b0u16, 6),
        !bit_of(0b0u16, 7),
        bit_of(0b1u16, 0),
        !bit_of(0b1u16, 1),
        !bit_of(0b1u16, 2),
        !bit_of(0b1u16, 3),
        !bit_of(0b1u16, 4),
        !bit_of(0b1u16, 5),
        !bit_of(0b1u16, 6),
        !bit_of(0b1u16, 7),
        !bit_of(0b10u16, 0),
        bit_of(0b10u16, 1),
        !bit_of(0b10u16, 2),
        !bit_of(0b10u16, 3),
        !bit_of(0b10u16, 4),
        !bit_of(0b10u16, 5),
        !bit_of(0b10u16, 6),
        !bit_of(0b10u16, 7),
        !bit_of(0b100u16, 0),
        !bit_of(0b100u16, 1),
        bit_of(0b100u16, 2),
        !bit_of(0b100u16, 3),
        !bit_of(0b100u16, 4),
        !bit_of(0b100u16, 5),
        !bit_of(0b100u16, 6),
        !bit_of(0b100u16, 7),
        !bit_of(0b1000u16, 0),
        !bit_of(0b1000u16, 1),
        !bit_of(0b1000u16, 2),
        bit_of(0b1000u16, 3),
        !bit_of(0b1000u16, 4),
        !bit_of(0b1000u16, 5),
        !bit_of(0b1000u16, 6),
        !bit_of(0b1000u16, 7),
        bit_of(0b1111u16, 0),
        bit_of(0b1111u16, 1),
        bit_of(0b1111u16, 2),
        bit_of(0b1111u16, 3),
        !bit_of(0b1111u16, 4),
        !bit_of(0b1111u16, 5),
        !bit_of(0b1111u16, 6),
        !bit_of(0b1111u16, 7),
        !bit_of(0b10000u16, 0),
        !bit_of(0b10000u16, 1),
        !bit_of(0b10000u16, 2),
        !bit_of(0b10000u16, 3),
        bit_of(0b10000u16, 4),
        !bit_of(0b10000u16, 5),
        !bit_of(0b10000u16, 6),
        !bit_of(0b10000u16, 7),
        bit_of(0b10111u16, 0),
        bit_of(0b10111u16, 1),
        bit_of(0b10111u16, 2),
        !bit_of(0b10111u16, 3),
        bit_of(0b10111u16, 4),
        !bit_of(0b10111u16, 5),
        !bit_of(0b10111u16, 6),
        !bit_of(0b10111u16, 7),
        bit_of(0b11011u16, 0),
        bit_of(0b11011u16, 1),
        !bit_of(0b11011u16, 2),
        bit_of(0b11011u16, 3),
        bit_of(0b11011u16, 4),
        !bit_of(0b11011u16, 5),
        !bit_of(0b11011u16, 6),
        !bit_of(0b11011u16, 7),
        bit_of(0b11101u16, 0),
        !bit_of(0b11101u16, 1),
        bit_of(0b11101u16, 2),
        bit_of(0b11101u16, 3),
        bit_of(0b11101u16, 4),
        !bit_of(0b11101u16, 5),
        !bit_of(0b11101u16, 6),
        !bit_of(0b11101u16, 7),
        !bit_of(0b11110u16, 0),
        bit_of(0b11110u16, 1),
        bit_of(0b11110u16, 2),
        bit_of(0b11110u16, 3),
        bit_of(0b11110u16, 4),
        !bit_of(0b11110u16, 5),
        !bit_of(0b11110u16, 6),
        !bit_of(0b11110u16, 7),
        bit_of(0b11111u16, 0),
        bit_of(0b11111u16, 1),
        bit_of(0b11111u16, 2),
        bit_of(0b11111u16, 3),
        bit_of(0b11111u16, 4),
        !bit_of(0b11111u16, 5),
        !bit_of(0b11111u16, 6),
        !bit_of(0b11111u16, 7),
        !bit_of(0b100000u16, 0),
        !bit_of(0b100000u16, 1),
        !bit_of(0b100000u16, 2),
        !bit_of(0b100000u16, 3),
        !bit_of(0b100000u16, 4),
        bit_of(0b100000u16, 5),
        !bit_of(0b100000u16, 6),
        !bit_of(0b100000u16, 7),
        !bit_of(0b101110u16, 0),
        bit_of(0b101110u16, 1),
        bit_of(0b101110u16, 2),
        bit_of(0b101110u16, 3),
        !bit_of(0b101110u16, 4),
        bit_of(0b101110u16, 5),
        !bit_of(0b101110u16, 6),
        !bit_of(0b101110u16, 7),
        !bit_of(0b110110u16, 0),
        bit_of(0b110110u16, 1),
        bit_of(0b110110u16, 2),
        !bit_of(0b110110u16, 3),
        bit_of(0b110110u16, 4),
        bit_of(0b110110u16, 5),
        !bit_of(0b110110u16, 6),
        !bit_of(0b110110u16, 7),
        !bit_of(0b111010u16, 0),
        bit_of(0b111010u16, 1),
        !bit_of(0b111010u16, 2),
        bit_of(0b111010u16, 3),
        bit_of(0b111010u16, 4),
        bit_of(0b111010u16, 5),
        !bit_of(0b111010u16, 6),
        !bit_of(0b111010u16, 7),
        !bit_of(0b111100u16, 0),
        !bit_of(0b111100u16, 1),
        bit_of(0b111100u16, 2),
        bit_of(0b111100u16, 3),
        bit_of(0b111100u16, 4),
        bit_of(0b111100u16, 5),
        !bit_of(0b111100u16, 6),
        !bit_of(0b111100u16, 7),
        !bit_of(0b111110u16, 0),
        bit_of(0b111110u16, 1),
        bit_of(0b111110u16, 2),
        bit_of(0b111110u16, 3),
        bit_of(0b111110u16, 4),
        bit_of(0b111110u16, 5),
        !bit_of(0b111110u16, 6),
        !bit_of(0b111110u16, 7),
        bit_of(0b111111u16, 0),
        bit_of(0b111111u16, 1),
        bit_of(0b111111u16, 2),
        bit_of(0b111111u16, 3),
        bit_of(0b111111u16, 4),
        bit_of(0b111111u16, 5),
        !bit_of(0b111111u16, 6),
        !bit_of(0b111111u16, 7),
        bit_of(0b1111111u16, 0),
        bit_of(0b1111111u16, 1),
        bit_of(0b1111111u16, 2),
        bit_of(0b1111111u16, 3),
        bit_of(0b1111111u16, 4),
        bit_of(0b1111111u16, 5),
        bit_of(0b1111111u16, 6),
        !bit_of(0b1111111u16, 7),
        s <= 15 && k < 16 && bit_of(z & (((1u16 << s) - 1) as u16), k) ==> k < s,
        0b0011110u16 | 0b0100000u16 == 0b111110u16,
        0b0101110u16 | 0b0010000u16 == 0b111110u16,
        0b0110110u16 | 0b0001000u16 == 0b111110u16,
        0b0111010u16 | 0b0000100u16 == 0b111110u16,
        0b0111100u16 | 0b0000010u16 == 0b111110u16,
        0b0111110u16 | 0b0000000u16 == 0b111110u16,
        0b111111u16 | 0b000000u16 == 0b111111u16,
        0b01111u16 | 0b10000u16 == 0b11111u16,
        0b10111u16 | 0b01000u16 == 0b11111u16,
        0b11011u16 | 0b00100u16 == 0b11111u16,
        0b11101u16 | 0b00010u16 == 0b11111u16,
        0b11110u16 | 0b00001u16 == 0b11111u16,
        0b11111u16 | 0b00000u16 == 0b11111u16,
        0b111110u16 & 0b11u16 == 0b10u16,
        0b111111u16 & 0b11u16 == 0b11u16,
        0b11111u16 & 0b11u16 == 0b11u16,
        bit_of(0b111110u16, 1),
        bit_of(0b111110u16, 5),
        bit_of(0b111111u16, 0),
        bit_of(0b111111u16, 5),
        bit_of(0b11111u16, 0),
        bit_of(0b11111u16, 4),
        bit_of(0b1u16, 0),
        bit_of(0b10u16, 1),
        bit_of(0b100u16, 2),
        bit_of(0b1000u16, 3),
        bit_of(0b10000u16, 4),
        bit_of(0b100000u16, 5),
{
}

/// Every pattern of every search fits.
proof fn lemma_kind_patterns_fit(black: bool, kind: RowKind)
    ensures
        forall|k: int| 0 <= k < kind_patterns(black, kind).len() ==> pattern_fits(#[trigger] kind_patterns(black, kind)[k]),
{
    lemma_pattern_masks(0, 0, 0, 0, 0, 0, 0, 0, 0, 0, 0);
    let t = kind_patterns(black, kind);
    assert forall|k: int| 0 <= k < t.len() implies pattern_fits(#[trigger] t[k]) by {
        let p = t[k];
        assert(p.eye_cells().len() <= 1);
        if p.eye_cells().len() == 1 {
            assert(0 <= p.eye_cells()[0] < 16 && bit_of(p.blanks, p.eye_cells()[0] as u16));
        }
    }
}

/// Where a pattern matches at shift `i`, a cell `c` of it that holds a
/// stone or wants an empty cell lies on the line, at `c + i - 1`.
proof fn lemma_cell_on_line(p: Pattern, line: Line, black: bool, i: int, c: int)
    requires
        line.wf(),
        ends_clear(line),
        0 <= i < 16,
        0 <= c < 16,
        p.matches_spec(margin_stones(line, black) >> (i as u16), margin_blanks(line) >> (i as u16)),
        bit_of(p.stones | p.blanks, c as u16),
    ensures
        0 <= c + i - 1 < line.size,
{
    let st = margin_stones(line, black) >> (i as u16);
    let bl = margin_blanks(line) >> (i as u16);
    let own = if black { line.blacks } else { line.whites };
    let mask = (((1u16 << line.size) - 1) as u16);
    let z = !(line.blacks | line.whites) & mask;
    lemma_match_bits(st, bl, p.filter, p.stones, p.blanks, p.eyes__, i as u16, c as u16);
    lemma_match_bits(own, 0, 0, 0, 0, 0, i as u16, c as u16);
    lemma_match_bits(z, 0, 0, 0, 0, 0, i as u16, c as u16);
    let k = (c + i - 1) as u16;
    lemma_pattern_masks(!(line.blacks | line.whites), line.size, k, 0, 0, 0, 0, 0, 0, 0, 0);
    lemma_u16_bits(!(line.blacks | line.whites), mask, 0, k, 0);
    if bit_of(p.stones, c as u16) {
        assert(bit_of(own, k));
        if c + i - 1 >= line.size {
            assert(line.cell(c + i - 1) is None);
        }
    } else {
        assert(bit_of(z, k));
    }
}

/// Every row `pattern` gives over the first `n` positions lies on the line.
proof fn lemma_scanned_within(p: Pattern, line: Line, black: bool, n: int)
    requires
        line.wf(),
        ends_clear(line),
        pattern_fits(p),
        n <= 16,
    ensures
        forall|m: int|
            0 <= m < scanned(p, margin_stones(line, black), margin_blanks(line), n).len() ==> cells_within(
                #[trigger] scanned(p, margin_stones(line, black), margin_blanks(line), n)[m],
                line.size,
            ),
    decreases n,
{
    if n > 0 {
        lemma_scanned_within(p, line, black, n - 1);
        let i = n - 1;
        if p.matches_spec(margin_stones(line, black) >> (i as u16), margin_blanks(line) >> (i as u16)) {
            lemma_cell_on_line(p, line, black, i, p.start_cell());
            lemma_cell_on_line(p, line, black, i, p.end_cell());
            let r = row_at_shift(p, i);
            assert forall|k: int| 0 <= k < r.2.len() implies #[trigger] r.2[k] < line.size by {
                let e = p.eye_cells()[k];
                assert(0 <= e < 16 && bit_of(p.blanks, e as u16));
                lemma_match_bits(0, 0, 0, p.stones, p.blanks, 0, 0, e as u16);
                lemma_cell_on_line(p, line, black, i, e);
            }
            assert(cells_within(r, line.size));
        }
        let rest = scanned(p, margin_stones(line, black), margin_blanks(line), n - 1);
        let all = scanned(p, margin_stones(line, black), margin_blanks(line), n);
        assert forall|m: int| 0 <= m < all.len() implies cells_within(#[trigger] all[m], line.size) by {
            if m < rest.len() {
                assert(all[m] == rest[m]);
            }
        }
    }
}

/// Every row the patterns give lies on the line.
proof fn lemma_scanned_all_within(patterns: Seq<Pattern>, line: Line, black: bool)
    requires
        line.wf(),
        ends_clear(line),
        forall|k: int| 0 <= k < patterns.len() ==> pattern_fits(#[trigger] patterns[k]),
    ensures
        forall|m: int|
            0 <= m < scanned_all(patterns, line, black).len() ==> cells_within(
                #[trigger] scanned_all(patterns, line, black)[m],
                line.size,
            ),
    decreases patterns.len(),
{
    if patterns.len() > 0 {
        let init = patterns.drop_last();
        assert forall|k: int| 0 <= k < init.len() implies pattern_fits(#[trigger] init[k]) by {
            assert(init[k] == patterns[k]);
        }
        lemma_scanned_all_within(init, line, black);
        let p = patterns.last();
        assert(pattern_fits(patterns[patterns.len() - 1]));
        lemma_scanned_within(p, line, black, positions_over(line, p.size_spec()));
        let a = scanned_all(init, line, black);
        let b = scanned(p, margin_stones(line, black), margin_blanks(line), positions_over(line, p.size_spec()));
        assert forall|m: int| 0 <= m < (a + b).len() implies cells_within(#[trigger] (a + b)[m], line.size) by {
            if m < a.len() {
                assert((a + b)[m] == a[m]);
            } else {
                assert((a + b)[m] == b[m - a.len()]);
            }
        }
    }
}

/// A pattern that fits meets [`first_match_fits`] on a line with no stone
/// past its end.
proof fn lemma_fits_first(p: Pattern, line: Line, black: bool)
    requires
        line.wf(),
        ends_clear(line),
        pattern_fits(p),
    ensures
        first_match_fits(p, line, black),
{
    lemma_shift_step(margin_stones(line, black), 0);
    lemma_shift_step(margin_blanks(line), 0);
    if p.matches_spec(margin_stones(line, black), margin_blanks(line)) {
        lemma_cell_on_line(p, line, black, 0, p.end_cell());
        assert forall|k: int| 0 <= k < p.eye_cells().len() implies #[trigger] p.eye_cells()[k] >= 1 by {
            let e = p.eye_cells()[k];
            lemma_match_bits(0, 0, 0, p.stones, p.blanks, 0, 0, e as u16);
            lemma_cell_on_line(p, line, black, 0, e);
        }
    }
}

/// What a [`Row`] holds, as plain values.
pub open spec fn row_view(r: Row) -> (Direction, Point, Point, Seq<Point>) {
    (r.direction, r.start, r.end, r.eyes@)
}

/// The point of cell `j` of line `i` in direction `d`.
pub open spec fn cell_point(d: Direction, i: u8, j: u8) -> Point {
    Index { d, i, j }.point_of()
}

/// Whether cell `j` of line `i` in direction `d` is a point of the board.
pub open spec fn cell_valid(d: Direction, i: u8, j: u8) -> bool {
    Index { d, i, j }.valid()
}

/// The row of the board that a row found on line `i` in direction `d` is.
pub open spec fn row_of(r: (u8, u8, Seq<u8>), d: Direction, i: u8) -> (Direction, Point, Point, Seq<Point>) {
    (d, cell_point(d, i, r.0), cell_point(d, i, r.1), r.2.map_values(|j: u8| cell_point(d, i, j)))
}

/// The rows of `kind` for `black` on one line, as rows of the board.
pub open spec fn line_rows(entry: (Direction, u8, Line), black: bool, kind: RowKind) -> Seq<
    (Direction, Point, Point, Seq<Point>),
> {
    scanned_all(kind_patterns(black, kind), entry.2, black).map_values(
        |r: (u8, u8, Seq<u8>)| row_of(r, entry.0, entry.1),
    )
}

/// The rows of `kind` for `black` on each of `lines` in turn.
pub open spec fn rows_over(lines: Seq<(Direction, u8, Line)>, black: bool, kind: RowKind) -> Seq<
    (Direction, Point, Point, Seq<Point>),
>
    decreases lines.len(),
{
    if lines.len() == 0 {
        Seq::empty()
    } else {
        rows_over(lines.drop_last(), black, kind) + line_rows(lines.last(), black, kind)
    }
}

/// Whether `p` lies on the row, from its start to its end along its
/// direction: what [`Row::overlap`] tells.
pub open spec fn overlaps(r: (Direction, Point, Point, Seq<Point>), p: Point) -> bool {
    let (s, e) = (r.1, r.2);
    match r.0 {
        Vertical => p.0 == s.0 && s.1 <= p.1 <= e.1,
        Horizontal => p.1 == s.1 && s.0 <= p.0 <= e.0,
        Ascending => s.0 <= p.0 <= e.0 && s.1 <= p.1 <= e.1 && p.0 - s.0 == p.1 - s.1,
        Descending => s.0 <= p.0 <= e.0 && e.1 <= p.1 <= s.1 && p.0 - s.0 == s.1 - p.1,
    }
}

/// The rows among `rows` that `p` lies on, in order.
pub open spec fn overlapping(rows: Seq<(Direction, Point, Point, Seq<Point>)>, p: Point) -> Seq<
    (Direction, Point, Point, Seq<Point>),
>
    decreases rows.len(),
{
    if rows.len() == 0 {
        Seq::empty()
    } else {
        let rest = overlapping(rows.drop_last(), p);
        if overlaps(rows.last(), p) {
            rest.push(rows.last())
        } else {
            rest
        }
    }
}

/// The rows of `kind` for `black` through `p` on each of `lines` in turn.
pub open spec fn rows_over_on(lines: Seq<(Direction, u8, Line)>, black: bool, kind: RowKind, p: Point) -> Seq<
    (Direction, Point, Point, Seq<Point>),
>
    decreases lines.len(),
{
    if lines.len() == 0 {
        Seq::empty()
    } else {
        rows_over_on(lines.drop_last(), black, kind, p) + overlapping(line_rows(lines.last(), black, kind), p)
    }
}

/// Every stored line of the board, in the order [`Board::lines`] gives.
pub open spec fn all_lines(g: SquareModel) -> Seq<(Direction, u8, Line)> {
    Seq::new(LINE_NUM as nat, |k: int| (key_line(k).0, key_line(k).1 as u8, g.line_spec(key_line(k).0, key_line(k).1)))
}

/// A stored line of a well-formed board is well formed, has its size, and
/// holds no stone past its end.
proof fn lemma_stored_line(g: SquareModel, d: Direction, i: int)
    requires
        g.wf(),
        stored(d, i),
    ensures
        g.line_spec(d, i).wf(),
        g.line_spec(d, i).size == line_size(d, i),
        ends_clear(g.line_spec(d, i)),
        forall|j: u8| j < line_size(d, i) ==> #[trigger] cell_valid(d, i as u8, j),
{
    let l = g.line_spec(d, i);
    assert(l.wf());
    assert forall|k: int| l.size <= k < 16 implies #[trigger] l.cell(k) is None by {
        assert(line_size(d, i) <= k < 16);
    }
}

/// The lines through `p` are stored lines of the board.
proof fn lemma_lines_on_stored(g: SquareModel, p: Point, n: int)
    ensures
        forall|m: int|
            0 <= m < g.lines_on_upto(p, n).len() ==> {
                let e = #[trigger] g.lines_on_upto(p, n)[m];
                stored(e.0, e.1 as int) && e.2 == g.line_spec(e.0, e.1 as int)
            },
    decreases n,
{
    if n > 0 {
        lemma_lines_on_stored(g, p, n - 1);
        let rest = g.lines_on_upto(p, n - 1);
        let all = g.lines_on_upto(p, n);
        assert forall|m: int| 0 <= m < all.len() implies {
            let e = #[trigger] all[m];
            stored(e.0, e.1 as int) && e.2 == g.line_spec(e.0, e.1 as int)
        } by {
            if m < rest.len() {
                assert(all[m] == rest[m]);
            }
        }
    }
}

/// The eyes of `rows`, row by row, each row's in its own order.
pub open spec fn eyes_of(rows: Seq<(Direction, Point, Point, Seq<Point>)>) -> Seq<Point>
    decreases rows.len(),
{
    if rows.len() == 0 {
        Seq::empty()
    } else {
        eyes_of(rows.drop_last()) + rows.last().3
    }
}

/// The eyes of `rows`, row by row.
pub fn flat_eyes(rows: &Vec<Row>) -> (res: Vec<Point>)
    ensures
        res@ == eyes_of(rows@.map_values(|r: Row| row_view(r))),
{
    let ghost views = rows@.map_values(|r: Row| row_view(r));
    let mut res: Vec<Point> = Vec::new();
    let mut k: usize = 0;
    while k < rows.len()
        invariant
            k <= rows@.len(),
            views == rows@.map_values(|r: Row| row_view(r)),
            res@ == eyes_of(views.take(k as int)),
        decreases rows@.len() - k,
    {
        let ghost before = res@;
        let mut m: usize = 0;
        while m < rows[k].eyes.len()
            invariant
                k < rows@.len(),
                m <= rows@[k as int].eyes@.len(),
                res@ == before + rows@[k as int].eyes@.take(m as int),
            decreases rows@[k as int].eyes@.len() - m,
        {
            res.push(rows[k].eyes[m]);
            proof {
                assert(rows@[k as int].eyes@.take(m + 1) =~= rows@[k as int].eyes@.take(m as int).push(
                    rows@[k as int].eyes@[m as int],
                ));
                assert(res@ =~= before + rows@[k as int].eyes@.take(m + 1));
            }
            m += 1;
        }
        proof {
            assert(rows@[k as int].eyes@.take(m as int) =~= rows@[k as int].eyes@);
            assert(views.take(k + 1).drop_last() =~= views.take(k as int));
            assert(views.take(k + 1).last() == views[k as int]);
        }
        k += 1;
    }
    proof {
        assert(views.take(k as int) =~= views);
    }
    res
}

/// What a sequence holds after a push.
proof fn lemma_push_contains(s: Seq<Point>, a: Point, x: Point)
    ensures
        s.push(a).contains(x) <==> s.contains(x) || x == a,
{
    let t = s.push(a);
    if s.contains(x) {
        let w = choose|w: int| 0 <= w < s.len() && s[w] == x;
        assert(t[w] == x);
    }
    if x == a {
        assert(t[s.len() as int] == x);
    }
    if t.contains(x) {
        let w = choose|w: int| 0 <= w < t.len() && t[w] == x;
        if w < s.len() {
            assert(s[w] == x);
        }
    }
}

/// `points` with each point kept once, where it first comes.
pub fn unique_points(points: &Vec<Point>) -> (res: Vec<Point>)
    ensures
        res@.no_duplicates(),
        forall|q: Point| res@.contains(q) <==> points@.contains(q),
{
    let mut res: Vec<Point> = Vec::new();
    let mut k: usize = 0;
    while k < points.len()
        invariant
            k <= points@.len(),
            res@.no_duplicates(),
            forall|q: Point| res@.contains(q) <==> points@.take(k as int).contains(q),
        decreases points@.len() - k,
    {
        let q = points[k];
        let mut seen = false;
        let mut m: usize = 0;
        while m < res.len()
            invariant
                m <= res@.len(),
                seen <==> res@.take(m as int).contains(q),
            decreases res@.len() - m,
        {
            proof {
                assert(res@.take(m + 1) =~= res@.take(m as int).push(res@[m as int]));
                lemma_push_contains(res@.take(m as int), res@[m as int], q);
            }
            if res[m] == q {
                seen = true;
            }
            m += 1;
        }
        proof {
            assert(res@.take(m as int) =~= res@);
            assert(points@.take(k + 1) =~= points@.take(k as int).push(q));
        }
        let ghost before = res@;
        if !seen {
            res.push(q);
            proof {
                assert forall|a: int, b: int| 0 <= a < b < res@.len() implies res@[a] != res@[b] by {
                    if b == before.len() {
                        assert(before.contains(before[a]));
                    }
                }
            }
        }
        proof {
            assert forall|x: Point| res@.contains(x) <==> points@.take(k + 1).contains(x) by {
                lemma_push_contains(points@.take(k as int), q, x);
                lemma_push_contains(before, q, x);
            }
        }
        k += 1;
    }
    proof {
        assert(points@.take(k as int) =~= points@);
    }
    res
}

/// The stone of the player searched for: Black if `black`.
pub open spec fn own_stone(black: bool) -> Option<Player> {
    if black { Some(Black) } else { Some(White) }
}

/// What a cell `c` of a pattern matched at shift `i` says of cell
/// `c + i - 1` of the line: a stone of the pattern is the player's stone,
/// an empty cell of it is empty, and a cell it looks at without a stone
/// there holds no stone of the player.
proof fn lemma_cell_at(p: Pattern, line: Line, black: bool, i: int, c: int)
    requires
        line.wf(),
        ends_clear(line),
        0 <= i < 16,
        0 <= c < 16,
        p.matches_spec(margin_stones(line, black) >> (i as u16), margin_blanks(line) >> (i as u16)),
    ensures
        bit_of(p.stones, c as u16) ==> 0 <= c + i - 1 < line.size && line.cell(c + i - 1) == own_stone(black),
        bit_of(p.blanks, c as u16) ==> 0 <= c + i - 1 < line.size && line.cell(c + i - 1) is None,
        (bit_of(p.filter, c as u16) && !bit_of(p.stones, c as u16) && 1 <= c + i <= 16) ==> line.cell(c + i - 1)
            != own_stone(black),
{
    let st = margin_stones(line, black) >> (i as u16);
    let bl = margin_blanks(line) >> (i as u16);
    let (b, w) = (line.blacks, line.whites);
    let own = if black { b } else { w };
    let mask = (((1u16 << line.size) - 1) as u16);
    let z = !(b | w) & mask;
    let k = (c + i - 1) as u16;
    lemma_match_bits(st, bl, p.filter, p.stones, p.blanks, p.eyes__, i as u16, c as u16);
    lemma_match_bits(z, 0, 0, 0, 0, 0, i as u16, c as u16);
    lemma_pattern_masks(!(b | w), line.size, k, st, p.filter, p.stones, c as u16, i as u16, b, w, 0);
    lemma_pattern_masks(!(b | w), line.size, k, own, 0, 0, c as u16, i as u16, b, w, 0);
    lemma_u16_bits(!(b | w), mask, 0, k, 0);
    if bit_of(p.stones, c as u16) {
        lemma_cell_on_line(p, line, black, i, c);
        lemma_match_bits(own, 0, 0, 0, 0, 0, i as u16, c as u16);
        assert(bit_of(own, k));
    }
    if bit_of(p.blanks, c as u16) {
        lemma_cell_on_line(p, line, black, i, c);
        assert(bit_of(z, k));
    }
    if bit_of(p.filter, c as u16) && !bit_of(p.stones, c as u16) && 1 <= c + i <= 16 {
        if c + i == 16 {
            assert(line.cell(15) is None);
        } else {
            assert(!bit_of(st, c as u16));
            assert(!bit_of(own, k));
        }
    }
}

/// A pattern whose row spans `len` cells from its first to its last, with
/// `eyes` eyes (none or one), each an empty cell within the span, and a
/// stone on every other cell of the span; if `exact`, it also looks at the
/// cell on each side of the span and wants no stone of the player there.
pub open spec fn solid_pattern(p: Pattern, len: int, eyes: int, exact: bool) -> bool {
    let (s, e) = (p.start_cell(), p.end_cell());
    &&& e == s + len - 1
    &&& e + 1 < 16
    &&& p.eye_cells().len() == eyes
    &&& eyes <= 1
    &&& forall|k: int|
        0 <= k < p.eye_cells().len() ==> s <= #[trigger] p.eye_cells()[k] <= e && bit_of(p.blanks, p.eye_cells()[k] as u16)
    &&& forall|c: int| s <= c <= e && !p.eye_cells().contains(c) ==> #[trigger] bit_of(p.stones, c as u16)
    &&& exact ==> s >= 1 && bit_of(p.filter, (s - 1) as u16) && !bit_of(p.stones, (s - 1) as u16) && bit_of(
        p.filter,
        (e + 1) as u16,
    ) && !bit_of(p.stones, (e + 1) as u16)
}

/// A row found on `line` for `black` that spans `len` cells, with `eyes`
/// eyes, each an empty cell within the span, and the player's stone on
/// every other cell of the span; if `exact`, neither cell beside the span
/// holds the player's stone.
pub open spec fn solid_row(line: Line, black: bool, r: (u8, u8, Seq<u8>), len: int, eyes: int, exact: bool) -> bool {
    &&& r.1 == r.0 + len - 1
    &&& r.1 < line.size
    &&& r.2.len() == eyes
    &&& forall|k: int| 0 <= k < r.2.len() ==> r.0 <= #[trigger] r.2[k] <= r.1 && line.cell(r.2[k] as int) is None
    &&& forall|j: int| r.0 <= j <= r.1 && !r.2.contains(j as u8) ==> #[trigger] line.cell(j) == own_stone(black)
    &&& exact ==> (r.0 >= 1 ==> line.cell(r.0 - 1) != own_stone(black)) && line.cell(r.1 + 1) != own_stone(black)
}

/// The row a solid pattern gives where it matches is solid.
proof fn lemma_solid_row(p: Pattern, line: Line, black: bool, i: int, len: int, eyes: int, exact: bool)
    requires
        line.wf(),
        ends_clear(line),
        pattern_fits(p),
        solid_pattern(p, len, eyes, exact),
        0 <= i < 16,
        p.matches_spec(margin_stones(line, black) >> (i as u16), margin_blanks(line) >> (i as u16)),
    ensures
        solid_row(line, black, row_at_shift(p, i), len, eyes, exact),
{
    let (s, e) = (p.start_cell(), p.end_cell());
    let r = row_at_shift(p, i);
    lemma_cell_on_line(p, line, black, i, s);
    lemma_cell_on_line(p, line, black, i, e);
    assert(r.0 == s + i - 1 && r.1 == e + i - 1);
    assert forall|k: int| 0 <= k < r.2.len() implies r.0 <= #[trigger] r.2[k] <= r.1 && line.cell(r.2[k] as int) is None by {
        let c = p.eye_cells()[k];
        lemma_cell_at(p, line, black, i, c);
    }
    assert forall|j: int| r.0 <= j <= r.1 && !r.2.contains(j as u8) implies #[trigger] line.cell(j) == own_stone(black) by {
        let c = j - i + 1;
        if p.eye_cells().contains(c) {
            let k = choose|k: int| 0 <= k < p.eye_cells().len() && p.eye_cells()[k] == c;
            assert(r.2[k] == (c + i - 1) as u8);
            assert(r.2[k] == j as u8);
        }
        assert(bit_of(p.stones, c as u16));
        lemma_cell_at(p, line, black, i, c);
    }
    if exact {
        lemma_cell_at(p, line, black, i, s - 1);
        lemma_cell_at(p, line, black, i, e + 1);
    }
}

/// Every row a solid pattern gives over the first `n` positions is solid.
proof fn lemma_scanned_solid(p: Pattern, line: Line, black: bool, n: int, len: int, eyes: int, exact: bool)
    requires
        line.wf(),
        ends_clear(line),
        pattern_fits(p),
        solid_pattern(p, len, eyes, exact),
        n <= 16,
    ensures
        forall|m: int|
            0 <= m < scanned(p, margin_stones(line, black), margin_blanks(line), n).len() ==> solid_row(
                line,
                black,
                #[trigger] scanned(p, margin_stones(line, black), margin_blanks(line), n)[m],
                len,
                eyes,
                exact,
            ),
    decreases n,
{
    if n > 0 {
        lemma_scanned_solid(p, line, black, n - 1, len, eyes, exact);
        let i = n - 1;
        if p.matches_spec(margin_stones(line, black) >> (i as u16), margin_blanks(line) >> (i as u16)) {
            lemma_solid_row(p, line, black, i, len, eyes, exact);
        }
        let rest = scanned(p, margin_stones(line, black), margin_blanks(line), n - 1);
        let all = scanned(p, margin_stones(line, black), margin_blanks(line), n);
        assert forall|m: int| 0 <= m < all.len() implies solid_row(line, black, #[trigger] all[m], len, eyes, exact) by {
            if m < rest.len() {
                assert(all[m] == rest[m]);
            }
        }
    }
}

/// Every row solid patterns give is solid.
proof fn lemma_scanned_all_solid(patterns: Seq<Pattern>, line: Line, black: bool, len: int, eyes: int, exact: bool)
    requires
        line.wf(),
        ends_clear(line),
        forall|k: int|
            0 <= k < patterns.len() ==> pattern_fits(#[trigger] patterns[k]) && solid_pattern(patterns[k], len, eyes, exact),
    ensures
        forall|m: int|
            0 <= m < scanned_all(patterns, line, black).len() ==> solid_row(
                line,
                black,
                #[trigger] scanned_all(patterns, line, black)[m],
                len,
                eyes,
                exact,
            ),
    decreases patterns.len(),
{
    if patterns.len() > 0 {
        let init = patterns.drop_last();
        assert forall|k: int| 0 <= k < init.len() implies pattern_fits(#[trigger] init[k]) && solid_pattern(
            init[k],
            len,
            eyes,
            exact,
        ) by {
            assert(init[k] == patterns[k]);
        }
        lemma_scanned_all_solid(init, line, black, len, eyes, exact);
        let p = patterns.last();
        assert(pattern_fits(patterns[patterns.len() - 1]));
        lemma_scanned_solid(p, line, black, positions_over(line, p.size_spec()), len, eyes, exact);
        let a = scanned_all(init, line, black);
        let b = scanned(p, margin_stones(line, black), margin_blanks(line), positions_over(line, p.size_spec()));
        assert forall|m: int| 0 <= m < (a + b).len() implies solid_row(line, black, #[trigger] (a + b)[m], len, eyes, exact) by {
            if m < a.len() {
                assert((a + b)[m] == a[m]);
            } else {
                assert((a + b)[m] == b[m - a.len()]);
            }
        }
    }
}

/// The fours, fives and overlines of the tables are solid patterns: a four
/// spans five cells with one eye, a five five cells and an overline six,
/// with no eye; Black's fours and fives also want no black stone beside
/// them.
proof fn lemma_tables_solid()
    ensures
        forall|k: int| 0 <= k < black_fours_spec().len() ==> solid_pattern(#[trigger] black_fours_spec()[k], 5, 1, true),
        forall|k: int| 0 <= k < black_fives_spec().len() ==> solid_pattern(#[trigger] black_fives_spec()[k], 5, 0, true),
        forall|k: int| 0 <= k < black_overlines_spec().len() ==> solid_pattern(#[trigger] black_overlines_spec()[k], 6, 0, false),
        forall|k: int| 0 <= k < white_fours_spec().len() ==> solid_pattern(#[trigger] white_fours_spec()[k], 5, 1, false),
        forall|k: int| 0 <= k < white_fives_spec().len() ==> solid_pattern(#[trigger] white_fives_spec()[k], 5, 0, false),
{
    lemma_pattern_masks(0, 0, 0, 0, 0, 0, 0, 0, 0, 0, 0);
    {
        let p = black_fours_spec()[0];
        assert forall|c: int| 1 <= c <= 5 && !p.eye_cells().contains(c) implies #[trigger] bit_of(p.stones, c as u16) by {
            if c == 1 {
                assert(bit_of(0b11110u16, 1u16));
            }
            if c == 2 {
                assert(bit_of(0b11110u16, 2u16));
            }
            if c == 3 {
                assert(bit_of(0b11110u16, 3u16));
            }
            if c == 4 {
                assert(bit_of(0b11110u16, 4u16));
            }
            if c == 5 {
                assert(p.eye_cells()[0] == c);
            }
        }
        assert(p.eye_cells()[0] == 5 && bit_of(p.blanks, 5u16));
        assert(solid_pattern(p, 5, 1, true));
    }
    {
        let p = black_fours_spec()[1];
        assert forall|c: int| 1 <= c <= 5 && !p.eye_cells().contains(c) implies #[trigger] bit_of(p.stones, c as u16) by {
            if c == 1 {
                assert(bit_of(0b101110u16, 1u16));
            }
            if c == 2 {
                assert(bit_of(0b101110u16, 2u16));
            }
            if c == 3 {
                assert(bit_of(0b101110u16, 3u16));
            }
            if c == 4 {
                assert(p.eye_cells()[0] == c);
            }
            if c == 5 {
                assert(bit_of(0b101110u16, 5u16));
            }
        }
        assert(p.eye_cells()[0] == 4 && bit_of(p.blanks, 4u16));
        assert(solid_pattern(p, 5, 1, true));
    }
    {
        let p = black_fours_spec()[2];
        assert forall|c: int| 1 <= c <= 5 && !p.eye_cells().contains(c) implies #[trigger] bit_of(p.stones, c as u16) by {
            if c == 1 {
                assert(bit_of(0b110110u16, 1u16));
            }
            if c == 2 {
                assert(bit_of(0b110110u16, 2u16));
            }
            if c == 3 {
                assert(p.eye_cells()[0] == c);
            }
            if c == 4 {
                assert(bit_of(0b110110u16, 4u16));
            }
            if c == 5 {
                assert(bit_of(0b110110u16, 5u16));
            }
        }
        assert(p.eye_cells()[0] == 3 && bit_of(p.blanks, 3u16));
        assert(solid_pattern(p, 5, 1, true));
    }
    {
        let p = black_fours_spec()[3];
        assert forall|c: int| 1 <= c <= 5 && !p.eye_cells().contains(c) implies #[trigger] bit_of(p.stones, c as u16) by {
            if c == 1 {
                assert(bit_of(0b111010u16, 1u16));
            }
            if c == 2 {
                assert(p.eye_cells()[0] == c);
            }
            if c == 3 {
                assert(bit_of(0b111010u16, 3u16));
            }
            if c == 4 {
                assert(bit_of(0b111010u16, 4u16));
            }
            if c == 5 {
                assert(bit_of(0b111010u16, 5u16));
            }
        }
        assert(p.eye_cells()[0] == 2 && bit_of(p.blanks, 2u16));
        assert(solid_pattern(p, 5, 1, true));
    }
    {
        let p = black_fours_spec()[4];
        assert forall|c: int| 1 <= c <= 5 && !p.eye_cells().contains(c) implies #[trigger] bit_of(p.stones, c as u16) by {
            if c == 1 {
                assert(p.eye_cells()[0] == c);
            }
            if c == 2 {
                assert(bit_of(0b111100u16, 2u16));
            }
            if c == 3 {
                assert(bit_of(0b111100u16, 3u16));
            }
            if c == 4 {
                assert(bit_of(0b111100u16, 4u16));
            }
            if c == 5 {
                assert(bit_of(0b111100u16, 5u16));
            }
        }
        assert(p.eye_cells()[0] == 1 && bit_of(p.blanks, 1u16));
        assert(solid_pattern(p, 5, 1, true));
    }
    {
        let p = black_fives_spec()[0];
        assert forall|c: int| 1 <= c <= 5 && !p.eye_cells().contains(c) implies #[trigger] bit_of(p.stones, c as u16) by {
            if c == 1 {
                assert(bit_of(0b111110u16, 1u16));
            }
            if c == 2 {
                assert(bit_of(0b111110u16, 2u16));
            }
            if c == 3 {
                assert(bit_of(0b111110u16, 3u16));
            }
            if c == 4 {
                assert(bit_of(0b111110u16, 4u16));
            }
            if c == 5 {
                assert(bit_of(0b111110u16, 5u16));
            }
        }
        assert(solid_pattern(p, 5, 0, true));
    }
    {
        let p = black_overlines_spec()[0];
        assert forall|c: int| 0 <= c <= 5 && !p.eye_cells().contains(c) implies #[trigger] bit_of(p.stones, c as u16) by {
            if c == 0 {
                assert(bit_of(0b111111u16, 0u16));
            }
            if c == 1 {
                assert(bit_of(0b111111u16, 1u16));
            }
            if c == 2 {
                assert(bit_of(0b111111u16, 2u16));
            }
            if c == 3 {
                assert(bit_of(0b111111u16, 3u16));
            }
            if c == 4 {
                assert(bit_of(0b111111u16, 4u16));
            }
            if c == 5 {
                assert(bit_of(0b111111u16, 5u16));
            }
        }
        assert(solid_pattern(p, 6, 0, false));
    }
    {
        let p = white_fours_spec()[0];
        assert forall|c: int| 0 <= c <= 4 && !p.eye_cells().contains(c) implies #[trigger] bit_of(p.stones, c as u16) by {
            if c == 0 {
                assert(bit_of(0b1111u16, 0u16));
            }
            if c == 1 {
                assert(bit_of(0b1111u16, 1u16));
            }
            if c == 2 {
                assert(bit_of(0b1111u16, 2u16));
            }
            if c == 3 {
                assert(bit_of(0b1111u16, 3u16));
            }
            if c == 4 {
                assert(p.eye_cells()[0] == c);
            }
        }
        assert(p.eye_cells()[0] == 4 && bit_of(p.blanks, 4u16));
        assert(solid_pattern(p, 5, 1, false));
    }
    {
        let p = white_fours_spec()[1];
        assert forall|c: int| 0 <= c <= 4 && !p.eye_cells().contains(c) implies #[trigger] bit_of(p.stones, c as u16) by {
            if c == 0 {
                assert(bit_of(0b10111u16, 0u16));
            }
            if c == 1 {
                assert(bit_of(0b10111u16, 1u16));
            }
            if c == 2 {
                assert(bit_of(0b10111u16, 2u16));
            }
            if c == 3 {
                assert(p.eye_cells()[0] == c);
            }
            if c == 4 {
                assert(bit_of(0b10111u16, 4u16));
            }
        }
        assert(p.eye_cells()[0] == 3 && bit_of(p.blanks, 3u16));
        assert(solid_pattern(p, 5, 1, false));
    }
    {
        let p = white_fours_spec()[2];
        assert forall|c: int| 0 <= c <= 4 && !p.eye_cells().contains(c) implies #[trigger] bit_of(p.stones, c as u16) by {
            if c == 0 {
                assert(bit_of(0b11011u16, 0u16));
            }
            if c == 1 {
                assert(bit_of(0b11011u16, 1u16));
            }
            if c == 2 {
                assert(p.eye_cells()[0] == c);
            }
            if c == 3 {
                assert(bit_of(0b11011u16, 3u16));
            }
            if c == 4 {
                assert(bit_of(0b11011u16, 4u16));
            }
        }
        assert(p.eye_cells()[0] == 2 && bit_of(p.blanks, 2u16));
        assert(solid_pattern(p, 5, 1, false));
    }
    {
        let p = white_fours_spec()[3];
        assert forall|c: int| 0 <= c <= 4 && !p.eye_cells().contains(c) implies #[trigger] bit_of(p.stones, c as u16) by {
            if c == 0 {
                assert(bit_of(0b11101u16, 0u16));
            }
            if c == 1 {
                assert(p.eye_cells()[0] == c);
            }
            if c == 2 {
                assert(bit_of(0b11101u16, 2u16));
            }
            if c == 3 {
                assert(bit_of(0b11101u16, 3u16));
            }
            if c == 4 {
                assert(bit_of(0b11101u16, 4u16));
            }
        }
        assert(p.eye_cells()[0] == 1 && bit_of(p.blanks, 1u16));
        assert(solid_pattern(p, 5, 1, false));
    }
    {
        let p = white_fours_spec()[4];
        assert forall|c: int| 0 <= c <= 4 && !p.eye_cells().contains(c) implies #[trigger] bit_of(p.stones, c as u16) by {
            if c == 0 {
                assert(p.eye_cells()[0] == c);
            }
            if c == 1 {
                assert(bit_of(0b11110u16, 1u16));
            }
            if c == 2 {
                assert(bit_of(0b11110u16, 2u16));
            }
            if c == 3 {
                assert(bit_of(0b11110u16, 3u16));
            }
            if c == 4 {
                assert(bit_of(0b11110u16, 4u16));
            }
        }
        assert(p.eye_cells()[0] == 0 && bit_of(p.blanks, 0u16));
        assert(solid_pattern(p, 5, 1, false));
    }
    {
        let p = white_fives_spec()[0];
        assert forall|c: int| 0 <= c <= 4 && !p.eye_cells().contains(c) implies #[trigger] bit_of(p.stones, c as u16) by {
            if c == 0 {
                assert(bit_of(0b11111u16, 0u16));
            }
            if c == 1 {
                assert(bit_of(0b11111u16, 1u16));
            }
            if c == 2 {
                assert(bit_of(0b11111u16, 2u16));
            }
            if c == 3 {
                assert(bit_of(0b11111u16, 3u16));
            }
            if c == 4 {
                assert(bit_of(0b11111u16, 4u16));
            }
        }
        assert(solid_pattern(p, 5, 0, false));
    }
    assert forall|k: int| 0 <= k < black_fours_spec().len() implies solid_pattern(#[trigger] black_fours_spec()[k], 5, 1, true) by {
        if k == 0 { assert(black_fours_spec()[0] == black_fours_spec()[k]); } if k == 1 { assert(black_fours_spec()[1] == black_fours_spec()[k]); } if k == 2 { assert(black_fours_spec()[2] == black_fours_spec()[k]); } if k == 3 { assert(black_fours_spec()[3] == black_fours_spec()[k]); } if k == 4 { assert(black_fours_spec()[4] == black_fours_spec()[k]); }
    }
    assert forall|k: int| 0 <= k < black_fives_spec().len() implies solid_pattern(#[trigger] black_fives_spec()[k], 5, 0, true) by {
        if k == 0 { assert(black_fives_spec()[0] == black_fives_spec()[k]); }
    }
    assert forall|k: int| 0 <= k < black_overlines_spec().len() implies solid_pattern(#[trigger] black_overlines_spec()[k], 6, 0, false) by {
        if k == 0 { assert(black_overlines_spec()[0] == black_overlines_spec()[k]); }
    }
    assert forall|k: int| 0 <= k < white_fours_spec().len() implies solid_pattern(#[trigger] white_fours_spec()[k], 5, 1, false) by {
        if k == 0 { assert(white_fours_spec()[0] == white_fours_spec()[k]); } if k == 1 { assert(white_fours_spec()[1] == white_fours_spec()[k]); } if k == 2 { assert(white_fours_spec()[2] == white_fours_spec()[k]); } if k == 3 { assert(white_fours_spec()[3] == white_fours_spec()[k]); } if k == 4 { assert(white_fours_spec()[4] == white_fours_spec()[k]); }
    }
    assert forall|k: int| 0 <= k < white_fives_spec().len() implies solid_pattern(#[trigger] white_fives_spec()[k], 5, 0, false) by {
        if k == 0 { assert(white_fives_spec()[0] == white_fives_spec()[k]); }
    }
}

/// Each four the search finds on a line spans five cells: the player's
/// stones on four of them and, on the fifth, its one eye, an empty cell, so
/// a stone there makes five; for Black no black stone stands beside the
/// span either, so the five would not be an overline.
pub proof fn lemma_four_rows(line: Line, black: bool)
    requires
        line.wf(),
        ends_clear(line),
    ensures
        forall|m: int|
            0 <= m < line_scan(line, black, RowKind::Four).len() ==> solid_row(
                line,
                black,
                #[trigger] line_scan(line, black, RowKind::Four)[m],
                5,
                1,
                black,
            ),
{
    lemma_tables_solid();
    lemma_kind_patterns_fit(black, RowKind::Four);
    lemma_scanned_all_solid(kind_patterns(black, RowKind::Four), line, black, 5, 1, black);
}

/// Each five the search finds on a line is five of the player's stones in
/// a row, with no eye; for Black with no black stone beside them.
pub proof fn lemma_five_rows(line: Line, black: bool)
    requires
        line.wf(),
        ends_clear(line),
    ensures
        forall|m: int|
            0 <= m < line_scan(line, black, RowKind::Five).len() ==> solid_row(
                line,
                black,
                #[trigger] line_scan(line, black, RowKind::Five)[m],
                5,
                0,
                black,
            ),
{
    lemma_tables_solid();
    lemma_kind_patterns_fit(black, RowKind::Five);
    lemma_scanned_all_solid(kind_patterns(black, RowKind::Five), line, black, 5, 0, black);
}

/// Each overline the search finds on a line is six black stones in a row,
/// with no eye.
pub proof fn lemma_overline_rows(line: Line)
    requires
        line.wf(),
        ends_clear(line),
    ensures
        forall|m: int|
            0 <= m < line_scan(line, true, RowKind::Overline).len() ==> solid_row(
                line,
                true,
                #[trigger] line_scan(line, true, RowKind::Overline)[m],
                6,
                0,
                false,
            ),
{
    lemma_tables_solid();
    lemma_kind_patterns_fit(true, RowKind::Overline);
    lemma_scanned_all_solid(kind_patterns(true, RowKind::Overline), line, true, 6, 0, false);
}

/// Whether `r` is a row that one of `lines` gave.
pub open spec fn given_by(lines: Seq<(Direction, u8, Line)>, black: bool, kind: RowKind, r: (Direction, Point, Point, Seq<Point>)) -> bool {
    exists|k: int, q: int|
        0 <= k < lines.len() && 0 <= q < line_scan(lines[k].2, black, kind).len() && r == row_of(
            line_scan(lines[k].2, black, kind)[q],
            lines[k].0,
            lines[k].1,
        )
}

/// Each row of a search over `lines` is the row one of them gave.
proof fn lemma_rows_over_from(lines: Seq<(Direction, u8, Line)>, black: bool, kind: RowKind)
    ensures
        forall|m: int|
            0 <= m < rows_over(lines, black, kind).len() ==> given_by(
                lines,
                black,
                kind,
                #[trigger] rows_over(lines, black, kind)[m],
            ),
    decreases lines.len(),
{
    if lines.len() > 0 {
        let init = lines.drop_last();
        lemma_rows_over_from(init, black, kind);
        let a = rows_over(init, black, kind);
        let last = lines.last();
        let b = line_rows(last, black, kind);
        assert(rows_over(lines, black, kind) == a + b);
        assert forall|m: int| 0 <= m < (a + b).len() implies given_by(lines, black, kind, #[trigger] (a + b)[m]) by {
            if m < a.len() {
                assert((a + b)[m] == a[m]);
                assert(given_by(init, black, kind, a[m]));
                let (k, q) = choose|k: int, q: int|
                    0 <= k < init.len() && 0 <= q < line_scan(init[k].2, black, kind).len() && a[m] == row_of(
                        line_scan(init[k].2, black, kind)[q],
                        init[k].0,
                        init[k].1,
                    );
                assert(init[k] == lines[k]);
            } else {
                let q = m - a.len();
                let k = lines.len() - 1;
                assert((a + b)[m] == b[q]);
                assert(lines[k] == last);
                assert(b[q] == row_of(line_scan(last.2, black, kind)[q], last.0, last.1));
            }
        }
    }
}

/// Each four the search finds on a board lies on a stored line, where it
/// is a four as [`lemma_four_rows`] says; its one eye is an empty point of
/// the board.
pub proof fn lemma_board_fours(g: SquareModel, black: bool)
    requires
        g.wf(),
    ensures
        forall|m: int|
            0 <= m < rows_over(all_lines(g), black, RowKind::Four).len() ==> {
                let r = #[trigger] rows_over(all_lines(g), black, RowKind::Four)[m];
                &&& r.3.len() == 1
                &&& g.stone_at(r.3[0]) is None
                &&& exists|d: Direction, i: u8, lr: (u8, u8, Seq<u8>)|
                    stored(d, i as int) && solid_row(g.line_spec(d, i as int), black, lr, 5, 1, black) && r
                        == row_of(lr, d, i)
            },
{
    let lines = all_lines(g);
    lemma_rows_over_from(lines, black, RowKind::Four);
    let rows = rows_over(lines, black, RowKind::Four);
    assert forall|m: int| 0 <= m < rows.len() implies {
        let r = #[trigger] rows[m];
        &&& r.3.len() == 1
        &&& g.stone_at(r.3[0]) is None
        &&& exists|d: Direction, i: u8, lr: (u8, u8, Seq<u8>)|
            stored(d, i as int) && solid_row(g.line_spec(d, i as int), black, lr, 5, 1, black) && r == row_of(
                lr,
                d,
                i,
            )
    } by {
        assert(given_by(lines, black, RowKind::Four, rows[m]));
        let (k, q) = choose|k: int, q: int|
            0 <= k < lines.len() && 0 <= q < line_scan(lines[k].2, black, RowKind::Four).len() && rows[m] == row_of(
                line_scan(lines[k].2, black, RowKind::Four)[q],
                lines[k].0,
                lines[k].1,
            );
        lemma_key_line(k);
        let (d, ii) = key_line(k);
        let i = ii as u8;
        assert(lines[k] == (d, i, g.line_spec(d, ii)));
        assert(i as int == ii);
        let line = g.line_spec(d, ii);
        lemma_stored_line(g, d, ii);
        lemma_four_rows(line, black);
        let lr = line_scan(line, black, RowKind::Four)[q];
        assert(solid_row(line, black, lr, 5, 1, black));
        let e = lr.2[0];
        assert(cell_valid(d, i, e));
        let idx = Index { d, i, j: e };
        assert(line.cell(e as int) == g.stone_at(idx.point_of()));
        assert(rows[m].3[0] == cell_point(d, i, e));
    }
}

/// What the shifted masks a pattern is matched against say, cell by cell:
/// bit `c` at shift `i` stands for cell `c + i - 1` of the line, and
/// there is nothing at the margins.
proof fn lemma_margin_bits(line: Line, black: bool, i: int, c: int)
    requires
        line.wf(),
        ends_clear(line),
        0 <= i < 16,
        0 <= c < 16,
    ensures
        bit_of(margin_stones(line, black) >> (i as u16), c as u16) <==> (1 <= c + i <= 15 && line.cell(c + i - 1)
            == own_stone(black)),
        bit_of(margin_blanks(line) >> (i as u16), c as u16) <==> (1 <= c + i <= 15 && c + i - 1 < line.size
            && line.cell(c + i - 1) is None),
{
    let (b, w) = (line.blacks, line.whites);
    let own = if black { b } else { w };
    let mask = (((1u16 << line.size) - 1) as u16);
    let z = !(b | w) & mask;
    let k = (c + i - 1) as u16;
    lemma_pattern_masks(!(b | w), line.size, k, own, 0, 0, c as u16, i as u16, b, w, 0);
    lemma_pattern_masks(!(b | w), line.size, k, z, 0, 0, c as u16, i as u16, b, w, 0);
    if 1 <= c + i <= 15 {
        assert(k as int == c + i - 1);
    }
}

/// A four for `black` on `line` from cell `j`: the player's stones on four
/// of the five cells `j` to `j + 4`, the fifth, `e`, empty; for Black no
/// black stone beside the five cells.
pub open spec fn four_at(line: Line, black: bool, j: int, e: int) -> bool {
    &&& 0 <= j && j + 4 < line.size
    &&& j <= e <= j + 4
    &&& line.cell(e) is None
    &&& forall|c: int| j <= c <= j + 4 && c != e ==> #[trigger] line.cell(c) == own_stone(black)
    &&& black ==> (j >= 1 ==> line.cell(j - 1) != own_stone(black)) && line.cell(j + 5) != own_stone(black)
}

/// `len` of the player's stones in a row on `line` from cell `j`; if
/// `exact`, with no stone of the player beside them.
pub open spec fn run_at(line: Line, black: bool, j: int, len: int, exact: bool) -> bool {
    &&& 0 <= j && j + len - 1 < line.size
    &&& forall|c: int| j <= c <= j + len - 1 ==> #[trigger] line.cell(c) == own_stone(black)
    &&& exact ==> (j >= 1 ==> line.cell(j - 1) != own_stone(black)) && line.cell(j + len) != own_stone(black)
}

/// Where a pattern matches at shift `i`, its row is among the first `n`
/// positions' rows.
proof fn lemma_scanned_has(p: Pattern, st: u16, bl: u16, n: int, i: int)
    requires
        0 <= i < n,
        p.matches_spec(st >> (i as u16), bl >> (i as u16)),
    ensures
        scanned(p, st, bl, n).contains(row_at_shift(p, i)),
    decreases n,
{
    let all = scanned(p, st, bl, n);
    if i == n - 1 {
        assert(all[all.len() - 1] == row_at_shift(p, i));
    } else {
        lemma_scanned_has(p, st, bl, n - 1, i);
        let rest = scanned(p, st, bl, n - 1);
        let m = choose|m: int| 0 <= m < rest.len() && rest[m] == row_at_shift(p, i);
        assert(all[m] == rest[m]);
    }
}

/// Where pattern `k` of `patterns` matches at shift `i`, its row is among
/// those all of them give.
proof fn lemma_scanned_all_has(patterns: Seq<Pattern>, line: Line, black: bool, k: int, i: int)
    requires
        0 <= k < patterns.len(),
        0 <= i < positions_over(line, patterns[k].size_spec()),
        patterns[k].matches_spec(margin_stones(line, black) >> (i as u16), margin_blanks(line) >> (i as u16)),
    ensures
        scanned_all(patterns, line, black).contains(row_at_shift(patterns[k], i)),
    decreases patterns.len(),
{
    let init = patterns.drop_last();
    let p = patterns.last();
    let a = scanned_all(init, line, black);
    let b = scanned(p, margin_stones(line, black), margin_blanks(line), positions_over(line, p.size_spec()));
    assert(scanned_all(patterns, line, black) == a + b);
    if k == patterns.len() - 1 {
        lemma_scanned_has(p, margin_stones(line, black), margin_blanks(line), positions_over(line, p.size_spec()), i);
        let m = choose|m: int| 0 <= m < b.len() && b[m] == row_at_shift(p, i);
        assert((a + b)[a.len() + m] == b[m]);
    } else {
        assert(init[k] == patterns[k]);
        lemma_scanned_all_has(init, line, black, k, i);
        let m = choose|m: int| 0 <= m < a.len() && a[m] == row_at_shift(patterns[k], i);
        assert((a + b)[m] == a[m]);
    }
}

proof fn lemma_four_black_found(line: Line, j: int, e: int)
    requires
        line.wf(),
        ends_clear(line),
        four_at(line, true, j, e),
    ensures
        line_scan(line, true, RowKind::Four).contains((j as u8, (j + 4) as u8, seq![e as u8])),
{
    let i = j;
    let st = margin_stones(line, true) >> (i as u16);
    let bl = margin_blanks(line) >> (i as u16);
    lemma_margin_bits(line, true, i, 0);
    lemma_margin_bits(line, true, i, 1);
    lemma_margin_bits(line, true, i, 2);
    lemma_margin_bits(line, true, i, 3);
    lemma_margin_bits(line, true, i, 4);
    lemma_margin_bits(line, true, i, 5);
    lemma_margin_bits(line, true, i, 6);
    lemma_pattern_masks(0, 0, 0, st, 0, 0, 0, 0, 0, 0, bl);
    let t = 4 - (e - j);
    let p = black_fours_spec()[t];
    assert forall|c: int| j <= c <= j + 4 && c != e implies #[trigger] line.cell(c) == own_stone(true) by {}
    assert(line.cell(e) != own_stone(true));
    assert(p.matches_spec(st, bl)) by {
        if e == j {
            assert(line.cell(j + 1) == own_stone(true));
            assert(line.cell(j + 2) == own_stone(true));
            assert(line.cell(j + 3) == own_stone(true));
            assert(line.cell(j + 4) == own_stone(true));
        } else if e == j + 1 {
            assert(line.cell(j) == own_stone(true));
            assert(line.cell(j + 2) == own_stone(true));
            assert(line.cell(j + 3) == own_stone(true));
            assert(line.cell(j + 4) == own_stone(true));
        } else if e == j + 2 {
            assert(line.cell(j) == own_stone(true));
            assert(line.cell(j + 1) == own_stone(true));
            assert(line.cell(j + 3) == own_stone(true));
            assert(line.cell(j + 4) == own_stone(true));
        } else if e == j + 3 {
            assert(line.cell(j) == own_stone(true));
            assert(line.cell(j + 1) == own_stone(true));
            assert(line.cell(j + 2) == own_stone(true));
            assert(line.cell(j + 4) == own_stone(true));
        } else {
            assert(line.cell(j) == own_stone(true));
            assert(line.cell(j + 1) == own_stone(true));
            assert(line.cell(j + 2) == own_stone(true));
            assert(line.cell(j + 3) == own_stone(true));
        }
    }
    lemma_scanned_all_has(black_fours_spec(), line, true, t, i);
    assert(p.eye_cells().map_values(|c: int| (c + i - 1) as u8) =~= seq![e as u8]);
    assert(row_at_shift(p, i) == (j as u8, (j + 4) as u8, seq![e as u8]));
}

proof fn lemma_four_white_found(line: Line, j: int, e: int)
    requires
        line.wf(),
        ends_clear(line),
        four_at(line, false, j, e),
    ensures
        line_scan(line, false, RowKind::Four).contains((j as u8, (j + 4) as u8, seq![e as u8])),
{
    let i = j + 1;
    let st = margin_stones(line, false) >> (i as u16);
    let bl = margin_blanks(line) >> (i as u16);
    lemma_margin_bits(line, false, i, 0);
    lemma_margin_bits(line, false, i, 1);
    lemma_margin_bits(line, false, i, 2);
    lemma_margin_bits(line, false, i, 3);
    lemma_margin_bits(line, false, i, 4);
    lemma_pattern_masks(0, 0, 0, st, 0, 0, 0, 0, 0, 0, bl);
    let t = 4 - (e - j);
    let p = white_fours_spec()[t];
    assert forall|c: int| j <= c <= j + 4 && c != e implies #[trigger] line.cell(c) == own_stone(false) by {}
    assert(line.cell(e) != own_stone(false));
    assert(p.matches_spec(st, bl)) by {
        if e == j {
            assert(line.cell(j + 1) == own_stone(false));
            assert(line.cell(j + 2) == own_stone(false));
            assert(line.cell(j + 3) == own_stone(false));
            assert(line.cell(j + 4) == own_stone(false));
        } else if e == j + 1 {
            assert(line.cell(j) == own_stone(false));
            assert(line.cell(j + 2) == own_stone(false));
            assert(line.cell(j + 3) == own_stone(false));
            assert(line.cell(j + 4) == own_stone(false));
        } else if e == j + 2 {
            assert(line.cell(j) == own_stone(false));
            assert(line.cell(j + 1) == own_stone(false));
            assert(line.cell(j + 3) == own_stone(false));
            assert(line.cell(j + 4) == own_stone(false));
        } else if e == j + 3 {
            assert(line.cell(j) == own_stone(false));
            assert(line.cell(j + 1) == own_stone(false));
            assert(line.cell(j + 2) == own_stone(false));
            assert(line.cell(j + 4) == own_stone(false));
        } else {
            assert(line.cell(j) == own_stone(false));
            assert(line.cell(j + 1) == own_stone(false));
            assert(line.cell(j + 2) == own_stone(false));
            assert(line.cell(j + 3) == own_stone(false));
        }
    }
    lemma_scanned_all_has(white_fours_spec(), line, false, t, i);
    assert(p.eye_cells().map_values(|c: int| (c + i - 1) as u8) =~= seq![e as u8]);
    assert(row_at_shift(p, i) == (j as u8, (j + 4) as u8, seq![e as u8]));
}

proof fn lemma_five_black_found(line: Line, j: int)
    requires
        line.wf(),
        ends_clear(line),
        run_at(line, true, j, 5, true),
    ensures
        line_scan(line, true, RowKind::Five).contains((j as u8, (j + 4) as u8, Seq::<u8>::empty())),
{
    let i = j;
    let st = margin_stones(line, true) >> (i as u16);
    let bl = margin_blanks(line) >> (i as u16);
    lemma_margin_bits(line, true, i, 0);
    lemma_margin_bits(line, true, i, 1);
    lemma_margin_bits(line, true, i, 2);
    lemma_margin_bits(line, true, i, 3);
    lemma_margin_bits(line, true, i, 4);
    lemma_margin_bits(line, true, i, 5);
    lemma_margin_bits(line, true, i, 6);
    lemma_pattern_masks(0, 0, 0, st, 0, 0, 0, 0, 0, 0, bl);
    let p = black_fives_spec()[0];
    assert(p.matches_spec(st, bl)) by {
        assert(line.cell(j + 0) == own_stone(true));
        assert(line.cell(j + 1) == own_stone(true));
        assert(line.cell(j + 2) == own_stone(true));
        assert(line.cell(j + 3) == own_stone(true));
        assert(line.cell(j + 4) == own_stone(true));
    }
    lemma_scanned_all_has(black_fives_spec(), line, true, 0, i);
    assert(p.eye_cells().map_values(|c: int| (c + i - 1) as u8) =~= Seq::<u8>::empty());
    assert(row_at_shift(p, i) == (j as u8, (j + 4) as u8, Seq::<u8>::empty()));
}

proof fn lemma_five_white_found(line: Line, j: int)
    requires
        line.wf(),
        ends_clear(line),
        run_at(line, false, j, 5, false),
    ensures
        line_scan(line, false, RowKind::Five).contains((j as u8, (j + 4) as u8, Seq::<u8>::empty())),
{
    let i = j + 1;
    let st = margin_stones(line, false) >> (i as u16);
    let bl = margin_blanks(line) >> (i as u16);
    lemma_margin_bits(line, false, i, 0);
    lemma_margin_bits(line, false, i, 1);
    lemma_margin_bits(line, false, i, 2);
    lemma_margin_bits(line, false, i, 3);
    lemma_margin_bits(line, false, i, 4);
    lemma_pattern_masks(0, 0, 0, st, 0, 0, 0, 0, 0, 0, bl);
    let p = white_fives_spec()[0];
    assert(p.matches_spec(st, bl)) by {
        assert(line.cell(j + 0) == own_stone(false));
        assert(line.cell(j + 1) == own_stone(false));
        assert(line.cell(j + 2) == own_stone(false));
        assert(line.cell(j + 3) == own_stone(false));
        assert(line.cell(j + 4) == own_stone(false));
    }
    lemma_scanned_all_has(white_fives_spec(), line, false, 0, i);
    assert(p.eye_cells().map_values(|c: int| (c + i - 1) as u8) =~= Seq::<u8>::empty());
    assert(row_at_shift(p, i) == (j as u8, (j + 4) as u8, Seq::<u8>::empty()));
}

proof fn lemma_overline_found(line: Line, j: int)
    requires
        line.wf(),
        ends_clear(line),
        run_at(line, true, j, 6, false),
    ensures
        line_scan(line, true, RowKind::Overline).contains((j as u8, (j + 5) as u8, Seq::<u8>::empty())),
{
    let i = j + 1;
    let st = margin_stones(line, true) >> (i as u16);
    let bl = margin_blanks(line) >> (i as u16);
    lemma_margin_bits(line, true, i, 0);
    lemma_margin_bits(line, true, i, 1);
    lemma_margin_bits(line, true, i, 2);
    lemma_margin_bits(line, true, i, 3);
    lemma_margin_bits(line, true, i, 4);
    lemma_margin_bits(line, true, i, 5);
    lemma_pattern_masks(0, 0, 0, st, 0, 0, 0, 0, 0, 0, bl);
    let p = black_overlines_spec()[0];
    assert(p.matches_spec(st, bl)) by {
        assert(line.cell(j + 0) == own_stone(true));
        assert(line.cell(j + 1) == own_stone(true));
        assert(line.cell(j + 2) == own_stone(true));
        assert(line.cell(j + 3) == own_stone(true));
        assert(line.cell(j + 4) == own_stone(true));
        assert(line.cell(j + 5) == own_stone(true));
    }
    lemma_scanned_all_has(black_overlines_spec(), line, true, 0, i);
    assert(p.eye_cells().map_values(|c: int| (c + i - 1) as u8) =~= Seq::<u8>::empty());
    assert(row_at_shift(p, i) == (j as u8, (j + 5) as u8, Seq::<u8>::empty()));
}

/// Every four on a line is found: where the player has stones on four of
/// five cells in a row and the fifth is empty (for Black with no black
/// stone beside them), the search gives that row with the empty cell as
/// its eye.
pub proof fn lemma_four_rows_complete(line: Line, black: bool, j: int, e: int)
    requires
        line.wf(),
        ends_clear(line),
        four_at(line, black, j, e),
    ensures
        line_scan(line, black, RowKind::Four).contains((j as u8, (j + 4) as u8, seq![e as u8])),
{
    if black {
        lemma_four_black_found(line, j, e);
    } else {
        lemma_four_white_found(line, j, e);
    }
}

/// Every five on a line is found: five of the player's stones in a row
/// (for Black with no black stone beside them) give that row, with no eye.
pub proof fn lemma_five_rows_complete(line: Line, black: bool, j: int)
    requires
        line.wf(),
        ends_clear(line),
        run_at(line, black, j, 5, black),
    ensures
        line_scan(line, black, RowKind::Five).contains((j as u8, (j + 4) as u8, Seq::<u8>::empty())),
{
    if black {
        lemma_five_black_found(line, j);
    } else {
        lemma_five_white_found(line, j);
    }
}

/// Every six black stones in a row are found as an overline.
pub proof fn lemma_overline_rows_complete(line: Line, j: int)
    requires
        line.wf(),
        ends_clear(line),
        run_at(line, true, j, 6, false),
    ensures
        line_scan(line, true, RowKind::Overline).contains((j as u8, (j + 5) as u8, Seq::<u8>::empty())),
{
    lemma_overline_found(line, j);
}

/// The rows line `k` of `lines` gives are among those of a search over
/// all of them.
proof fn lemma_rows_over_has(lines: Seq<(Direction, u8, Line)>, black: bool, kind: RowKind, k: int, r: (u8, u8, Seq<u8>))
    requires
        0 <= k < lines.len(),
        line_scan(lines[k].2, black, kind).contains(r),
    ensures
        rows_over(lines, black, kind).contains(row_of(r, lines[k].0, lines[k].1)),
    decreases lines.len(),
{
    let init = lines.drop_last();
    let a = rows_over(init, black, kind);
    let b = line_rows(lines.last(), black, kind);
    assert(rows_over(lines, black, kind) == a + b);
    let x = row_of(r, lines[k].0, lines[k].1);
    if k == lines.len() - 1 {
        let q = choose|q: int| 0 <= q < line_scan(lines[k].2, black, kind).len() && line_scan(lines[k].2, black, kind)[q] == r;
        assert(b[q] == x);
        assert((a + b)[a.len() + q] == x);
    } else {
        assert(init[k] == lines[k]);
        lemma_rows_over_has(init, black, kind, k, r);
        let m = choose|m: int| 0 <= m < a.len() && a[m] == x;
        assert((a + b)[m] == x);
    }
}

/// The eyes of a row among `rows` are among the eyes of them all.
proof fn lemma_eyes_of_has(rows: Seq<(Direction, Point, Point, Seq<Point>)>, m: int, t: int)
    requires
        0 <= m < rows.len(),
        0 <= t < rows[m].3.len(),
    ensures
        eyes_of(rows).contains(rows[m].3[t]),
    decreases rows.len(),
{
    let init = rows.drop_last();
    let last = rows.last();
    if m == rows.len() - 1 {
        let a = eyes_of(init);
        assert((a + last.3)[a.len() + t] == last.3[t]);
    } else {
        assert(init[m] == rows[m]);
        lemma_eyes_of_has(init, m, t);
        let a = eyes_of(init);
        let q = choose|q: int| 0 <= q < a.len() && a[q] == rows[m].3[t];
        assert((a + last.3)[q] == a[q]);
    }
}

/// No winning point of a four is missed: where a stored line of the board
/// has a four with empty cell `e`, the search over the board reports that
/// four, and the point of `e` is among the eyes of the fours it finds.
pub proof fn lemma_board_four_eyes_complete(g: SquareModel, black: bool, d: Direction, i: u8, j: int, e: int)
    requires
        g.wf(),
        stored(d, i as int),
        four_at(g.line_spec(d, i as int), black, j, e),
    ensures
        rows_over(all_lines(g), black, RowKind::Four).contains(
            row_of((j as u8, (j + 4) as u8, seq![e as u8]), d, i),
        ),
        eyes_of(rows_over(all_lines(g), black, RowKind::Four)).contains(cell_point(d, i, e as u8)),
{
    let lines = all_lines(g);
    lemma_key_of(d, i as int);
    let k = crate::board::map::key_of(d, i as int);
    assert(lines[k] == (d, i, g.line_spec(d, i as int)));
    let line = g.line_spec(d, i as int);
    lemma_stored_line(g, d, i as int);
    let r = (j as u8, (j + 4) as u8, seq![e as u8]);
    lemma_four_rows_complete(line, black, j, e);
    lemma_rows_over_has(lines, black, RowKind::Four, k, r);
    let rows = rows_over(lines, black, RowKind::Four);
    let x = row_of(r, d, i);
    let m = choose|m: int| 0 <= m < rows.len() && rows[m] == x;
    assert(x.3[0] == cell_point(d, i, e as u8));
    lemma_eyes_of_has(rows, m, 0);
}

/// Finds rows on lines by patterns.
///
/// It keeps the rows each line gave, by [`row_key`], and hands them out
/// again for the same line, player and kind.
pub struct RowSearcher {
    cache: HashMap<u64, Vec<LineRow>>,
}

/// A number for each kind of row.
pub open spec fn kind_code(kind: RowKind) -> int {
    match kind {
        RowKind::Two => 0,
        RowKind::Sword => 1,
        RowKind::Three => 2,
        RowKind::Four => 3,
        RowKind::Five => 4,
        RowKind::Overline => 5,
    }
}

/// The key under which the rows of `kind` for `black` on `line` are kept:
/// the line's masks, its size, the player and the kind, each in a field of
/// its own.
pub open spec fn row_key(line: Line, black: bool, kind: RowKind) -> int {
    line.blacks + 65536 * (line.whites + 65536 * (line.size + 256 * ((if black { 1int } else { 0int })
        + 2 * kind_code(kind))))
}

/// A number in two fields tells both fields.
proof fn lemma_fields(a: int, b: int, c: int, d: int, m: int)
    requires
        0 <= a < m,
        0 <= c < m,
        a + m * b == c + m * d,
    ensures
        a == c,
        b == d,
{
    if b > d {
        assert(m * b >= m * (d + 1)) by (nonlinear_arith)
            requires
                b >= d + 1,
                m > 0,
        ;
        assert(m * (d + 1) == m * d + m) by (nonlinear_arith);
    } else if b < d {
        assert(m * d >= m * (b + 1)) by (nonlinear_arith)
            requires
                d >= b + 1,
                m > 0,
        ;
        assert(m * (b + 1) == m * b + m) by (nonlinear_arith);
    }
}

/// Different lines, players or kinds have different keys.
pub proof fn lemma_row_key_unique(l1: Line, b1: bool, k1: RowKind, l2: Line, b2: bool, k2: RowKind)
    requires
        row_key(l1, b1, k1) == row_key(l2, b2, k2),
    ensures
        l1 == l2,
        b1 == b2,
        k1 == k2,
{
    let (x1, x2) = (if b1 { 1int } else { 0int }, if b2 { 1int } else { 0int });
    let r1 = l1.size + 256 * (x1 + 2 * kind_code(k1));
    let r2 = l2.size + 256 * (x2 + 2 * kind_code(k2));
    let w1 = l1.whites + 65536 * r1;
    let w2 = l2.whites + 65536 * r2;
    lemma_fields(l1.blacks as int, w1, l2.blacks as int, w2, 65536);
    lemma_fields(l1.whites as int, r1, l2.whites as int, r2, 65536);
    lemma_fields(l1.size as int, x1 + 2 * kind_code(k1), l2.size as int, x2 + 2 * kind_code(k2), 256);
    lemma_fields(x1, kind_code(k1), x2, kind_code(k2), 2);
}

/// A key fits in 64 bits.
proof fn lemma_row_key_range(l: Line, b: bool, k: RowKind)
    ensures
        0 <= row_key(l, b, k) < 0x10000000000000000,
{
    let x = if b { 1int } else { 0int };
    let r = l.size + 256 * (x + 2 * kind_code(k));
    assert(0 <= r < 256 * 12);
    let w = l.whites + 65536 * r;
    assert(0 <= w < 65536 * 256 * 12) by (nonlinear_arith)
        requires
            w == l.whites + 65536 * r,
            0 <= l.whites < 65536,
            0 <= r < 256 * 12,
    ;
    assert(0 <= l.blacks + 65536 * w < 65536 * 65536 * 256 * 12) by (nonlinear_arith)
        requires
            0 <= l.blacks < 65536,
            0 <= w < 65536 * 256 * 12,
    ;
}

/// The rows of `kind` for `black` on `line` as [`RowSearcher::scan`]
/// finds them, as plain values.
pub open spec fn line_scan(line: Line, black: bool, kind: RowKind) -> Seq<(u8, u8, Seq<u8>)> {
    scanned_all(kind_patterns(black, kind), line, black)
}

/// The rows of `rows`, as plain values.
pub open spec fn line_rows_view(rows: Vec<LineRow>) -> Seq<(u8, u8, Seq<u8>)> {
    rows@.map_values(|r: LineRow| line_row_view(r))
}

/// A copy of `rows`.
fn copy_rows(rows: &Vec<LineRow>) -> (res: Vec<LineRow>)
    ensures
        line_rows_view(res) == line_rows_view(*rows),
{
    let mut res: Vec<LineRow> = Vec::new();
    let mut k: usize = 0;
    while k < rows.len()
        invariant
            k <= rows@.len(),
            res@.map_values(|r: LineRow| line_row_view(r)) == rows@.take(k as int).map_values(
                |r: LineRow| line_row_view(r),
            ),
        decreases rows@.len() - k,
    {
        let r = &rows[k];
        let mut eyes: Vec<u8> = Vec::new();
        let mut m: usize = 0;
        while m < r.eyes.len()
            invariant
                m <= r.eyes@.len(),
                eyes@ == r.eyes@.take(m as int),
            decreases r.eyes@.len() - m,
        {
            eyes.push(r.eyes[m]);
            proof {
                assert(r.eyes@.take(m + 1) =~= r.eyes@.take(m as int).push(r.eyes@[m as int]));
            }
            m += 1;
        }
        proof {
            assert(r.eyes@.take(m as int) =~= r.eyes@);
        }
        let ghost prev = res@;
        res.push(LineRow { start: r.start, end: r.end, eyes });
        proof {
            assert(rows@.take(k + 1) =~= rows@.take(k as int).push(rows@[k as int]));
            assert(res@.map_values(|r: LineRow| line_row_view(r)) =~= prev.map_values(|r: LineRow| line_row_view(r)).push(
                line_row_view(rows@[k as int]),
            ));
            assert(rows@.take(k + 1).map_values(|r: LineRow| line_row_view(r)) =~= rows@.take(k as int).map_values(
                |r: LineRow| line_row_view(r),
            ).push(line_row_view(rows@[k as int])));
        }
        k += 1;
    }
    proof {
        assert(rows@.take(k as int) =~= rows@);
    }
    res
}

/// The key of the rows of `kind` for `black` on `line`, as a number.
fn key_of(line: &Line, black: bool, kind: RowKind) -> (res: u64)
    ensures
        res == row_key(*line, black, kind),
{
    let k: u64 = match kind {
        RowKind::Two => 0,
        RowKind::Sword => 1,
        RowKind::Three => 2,
        RowKind::Four => 3,
        RowKind::Five => 4,
        RowKind::Overline => 5,
    };
    let b: u64 = if black { 1 } else { 0 };
    let r: u64 = line.size as u64 + 256 * (b + 2 * k);
    let w: u64 = line.whites as u64 + 65536 * r;
    line.blacks as u64 + 65536 * w
}

impl RowSearcher {
    /// Every kept entry holds what a fresh scan of its line gives.
    pub closed spec fn wf(&self) -> bool {
        forall|l: Line, b: bool, k: RowKind|
            l.wf() && ends_clear(l) && #[trigger] self.cache@.contains_key(row_key(l, b, k) as u64) ==> line_rows_view(
                self.cache@[row_key(l, b, k) as u64],
            ) == line_scan(l, b, k)
    }

    /// A searcher that keeps nothing yet.
    pub fn new() -> (res: RowSearcher)
        ensures
            res.wf(),
    {
        let res = RowSearcher { cache: HashMap::new() };
        res
    }

    /// The rows of `kind` for `black` on `line`: those kept for it, or a
    /// fresh scan, which is then kept.
    pub fn search_line(&mut self, line: &Line, black: bool, kind: RowKind) -> (res: Vec<LineRow>)
        requires
            old(self).wf(),
            line.wf(),
            ends_clear(*line),
        ensures
            final(self).wf(),
            line_rows_view(res) == line_scan(*line, black, kind),
    {
        broadcast use vstd::std_specs::hash::group_hash_axioms;
        let key = key_of(line, black, kind);
        match self.cache.get(&key) {
            Some(rows) => {
                proof {
                    assert(self.cache@.contains_key(row_key(*line, black, kind) as u64));
                }
                copy_rows(rows)
            },
            None => {
                let rows = self.scan(line, black, kind);
                let kept = copy_rows(&rows);
                let ghost before = self.cache@;
                self.cache.insert(key, kept);
                proof {
                    assert forall|l: Line, b: bool, k: RowKind|
                        l.wf() && ends_clear(l) && #[trigger] self.cache@.contains_key(row_key(l, b, k) as u64)
                        implies line_rows_view(self.cache@[row_key(l, b, k) as u64]) == line_scan(l, b, k) by {
                        if row_key(l, b, k) as u64 == key {
                            assert(0 <= row_key(l, b, k) < 0x10000000000000000) by {
                                lemma_row_key_range(l, b, k);
                            }
                            lemma_row_key_unique(l, b, k, *line, black, kind);
                        } else {
                            assert(before.contains_key(row_key(l, b, k) as u64));
                        }
                    }
                }
                rows
            },
        }
    }

    /// Every row of `kind` for `black`'s stones (Black if true) on the
    /// board, line by line in the order of [`Board::lines`].
    pub fn search(&mut self, board: &Board, black: bool, kind: RowKind) -> (res: Vec<Row>)
        requires
            old(self).wf(),
            board.wf(),
        ensures
            res@.map_values(|r: Row| row_view(r)) == rows_over(all_lines(board@.square), black, kind),
            final(self).wf(),
    {
        let lines = board.lines();
        proof {
            assert(lines@ =~= all_lines(board@.square));
        }
        let mut res: Vec<Row> = Vec::new();
        let mut k: usize = 0;
        while k < lines.len()
            invariant
                self.wf(),
                board.wf(),
                lines@ == all_lines(board@.square),
                k <= lines@.len(),
                res@.map_values(|r: Row| row_view(r)) == rows_over(lines@.take(k as int), black, kind),
            decreases lines@.len() - k,
        {
            let d = lines[k].0;
            let i = lines[k].1;
            let line = &lines[k].2;
            proof {
                lemma_key_line(k as int);
                lemma_stored_line(board@.square, d, i as int);
            }
            let found = self.search_line(line, black, kind);
            proof {
                lemma_kind_patterns_fit(black, kind);
                lemma_scanned_all_within(kind_patterns(black, kind), *line, black);
                assert(lines@.take(k + 1).drop_last() =~= lines@.take(k as int));
            }
            let ghost before = res@.map_values(|r: Row| row_view(r));
            let ghost rows = scanned_all(kind_patterns(black, kind), *line, black);
            let mut m: usize = 0;
            while m < found.len()
                invariant
                    m <= found@.len(),
                    found@.map_values(|r: LineRow| line_row_view(r)) == rows,
                    forall|q: int| 0 <= q < rows.len() ==> cells_within(#[trigger] rows[q], line.size),
                    forall|j: u8| j < line.size ==> #[trigger] cell_valid(d, i, j),
                    res@.map_values(|r: Row| row_view(r)) == before + rows.take(m as int).map_values(
                        |r: (u8, u8, Seq<u8>)| row_of(r, d, i),
                    ),
                decreases found@.len() - m,
            {
                proof {
                    assert(line_row_view(found@[m as int]) == rows[m as int]);
                    assert(cells_within(rows[m as int], line.size));
                    let eyes = found@[m as int].eyes@;
                    assert forall|q: int| 0 <= q < eyes.len() implies #[trigger] cell_valid(d, i, eyes[q]) by {
                        assert(rows[m as int].2[q] < line.size);
                    }
                }
                let row = Row::from(&found[m], d, i);
                let ghost prev = res@;
                res.push(row);
                proof {
                    assert(res@.map_values(|r: Row| row_view(r)) =~= prev.map_values(|r: Row| row_view(r)).push(
                        row_view(row),
                    ));
                    assert(rows.take(m + 1) =~= rows.take(m as int).push(rows[m as int]));
                    assert(rows.take(m + 1).map_values(|r: (u8, u8, Seq<u8>)| row_of(r, d, i)) =~= rows.take(
                        m as int,
                    ).map_values(|r: (u8, u8, Seq<u8>)| row_of(r, d, i)).push(row_of(rows[m as int], d, i)));
                }
                m += 1;
            }
            proof {
                assert(rows.take(m as int) =~= rows);
                assert(lines@.take(k + 1).last() == lines@[k as int]);
            }
            k += 1;
        }
        proof {
            assert(lines@.take(k as int) =~= lines@);
        }
        res
    }

    /// The rows of `kind` for `black`'s stones through `p`: those on the
    /// lines through `p` that `p` lies on.
    pub fn search_containing(&mut self, board: &Board, black: bool, kind: RowKind, p: &Point) -> (res: Vec<Row>)
        requires
            old(self).wf(),
            board.wf(),
            p.valid(),
        ensures
            res@.map_values(|r: Row| row_view(r)) == rows_over_on(board@.square.lines_on_spec(*p), black, kind, *p),
            final(self).wf(),
    {
        let lines = board.lines_on(*p);
        proof {
            lemma_lines_on_stored(board@.square, *p, 4);
        }
        let mut res: Vec<Row> = Vec::new();
        let mut k: usize = 0;
        while k < lines.len()
            invariant
                self.wf(),
                board.wf(),
                lines@ == board@.square.lines_on_spec(*p),
                forall|q: int|
                    0 <= q < lines@.len() ==> {
                        let e = #[trigger] lines@[q];
                        stored(e.0, e.1 as int) && e.2 == board@.square.line_spec(e.0, e.1 as int)
                    },
                k <= lines@.len(),
                res@.map_values(|r: Row| row_view(r)) == rows_over_on(lines@.take(k as int), black, kind, *p),
            decreases lines@.len() - k,
        {
            let d = lines[k].0;
            let i = lines[k].1;
            let line = &lines[k].2;
            proof {
                let e = lines@[k as int];
                assert(stored(e.0, e.1 as int));
                lemma_stored_line(board@.square, d, i as int);
            }
            let found = self.search_line(line, black, kind);
            proof {
                lemma_kind_patterns_fit(black, kind);
                lemma_scanned_all_within(kind_patterns(black, kind), *line, black);
                assert(lines@.take(k + 1).drop_last() =~= lines@.take(k as int));
            }
            let ghost before = res@.map_values(|r: Row| row_view(r));
            let ghost rows = line_rows(lines@[k as int], black, kind);
            let mut m: usize = 0;
            while m < found.len()
                invariant
                    m <= found@.len(),
                    found@.map_values(|r: LineRow| line_row_view(r)) == scanned_all(kind_patterns(black, kind), *line, black),
                    rows == line_rows((d, i, *line), black, kind),
                    forall|q: int|
                        0 <= q < scanned_all(kind_patterns(black, kind), *line, black).len() ==> cells_within(
                            #[trigger] scanned_all(kind_patterns(black, kind), *line, black)[q],
                            line.size,
                        ),
                    forall|j: u8| j < line.size ==> #[trigger] cell_valid(d, i, j),
                    res@.map_values(|r: Row| row_view(r)) == before + overlapping(rows.take(m as int), *p),
                decreases found@.len() - m,
            {
                proof {
                    let all = scanned_all(kind_patterns(black, kind), *line, black);
                    assert(line_row_view(found@[m as int]) == all[m as int]);
                    assert(cells_within(all[m as int], line.size));
                    let eyes = found@[m as int].eyes@;
                    assert forall|q: int| 0 <= q < eyes.len() implies #[trigger] cell_valid(d, i, eyes[q]) by {
                        assert(all[m as int].2[q] < line.size);
                    }
                }
                let row = Row::from(&found[m], d, i);
                proof {
                    assert(rows.take(m + 1).drop_last() =~= rows.take(m as int));
                    assert(rows.take(m + 1).last() == rows[m as int]);
                }
                if row.overlap(p) {
                    let ghost prev = res@;
                    res.push(row);
                    proof {
                        assert(res@.map_values(|r: Row| row_view(r)) =~= prev.map_values(|r: Row| row_view(r)).push(
                            row_view(row),
                        ));
                    }
                }
                m += 1;
            }
            proof {
                assert(rows.take(m as int) =~= rows);
                assert(lines@.take(k + 1).last() == lines@[k as int]);
            }
            k += 1;
        }
        proof {
            assert(lines@.take(k as int) =~= lines@);
        }
        res
    }

    /// The rows of `kind` for `black`'s stones on `line`: those the kind's
    /// patterns give, pattern by pattern; none for a kind without patterns.
    pub fn scan(&self, line: &Line, black: bool, kind: RowKind) -> (res: Vec<LineRow>)
        requires
            line.wf(),
            ends_clear(*line),
        ensures
            res@.map_values(|r: LineRow| line_row_view(r)) == scanned_all(kind_patterns(black, kind), *line, black),
    {
        proof {
            lemma_kind_patterns_fit(black, kind);
            let t = kind_patterns(black, kind);
            assert forall|k: int| 0 <= k < t.len() implies first_match_fits(#[trigger] t[k], *line, black) by {
                lemma_fits_first(t[k], *line, black);
            }
        }
        let patterns: Vec<Pattern> = match (black, kind) {
            (true, RowKind::Four) => black_fours(),
            (true, RowKind::Five) => black_fives(),
            (true, RowKind::Overline) => black_overlines(),
            (false, RowKind::Four) => white_fours(),
            (false, RowKind::Five) => white_fives(),
            _ => {
                let res: Vec<LineRow> = Vec::new();
                assert(res@.map_values(|r: LineRow| line_row_view(r)) =~= Seq::empty());
                return res;
            },
        };
        self.scan_patterns(line, black, &patterns)
    }

    /// Every match of any of `patterns` on `line` for the stones of
    /// `black` (Black if true), pattern by pattern.
    pub fn scan_patterns(&self, line: &Line, black: bool, patterns: &Vec<Pattern>) -> (res: Vec<LineRow>)
        requires
            line.wf(),
            forall|k: int| 0 <= k < patterns@.len() ==> first_match_fits(#[trigger] patterns@[k], *line, black),
        ensures
            res@.map_values(|r: LineRow| line_row_view(r)) == scanned_all(patterns@, *line, black),
    {
        let mut res: Vec<LineRow> = Vec::new();
        let mut k: usize = 0;
        while k < patterns.len()
            invariant
                line.wf(),
                k <= patterns@.len(),
                forall|m: int| 0 <= m < patterns@.len() ==> first_match_fits(#[trigger] patterns@[m], *line, black),
                res@.map_values(|r: LineRow| line_row_view(r)) == scanned_all(patterns@.take(k as int), *line, black),
            decreases patterns@.len() - k,
        {
            let ghost before = res@;
            let mut found = self.scan_pattern(line, &patterns[k], black);
            let ghost got = found@;
            res.append(&mut found);
            proof {
                assert(patterns@.take(k + 1).drop_last() =~= patterns@.take(k as int));
                assert(res@.map_values(|r: LineRow| line_row_view(r)) =~= before.map_values(|r: LineRow| line_row_view(r))
                    + got.map_values(|r: LineRow| line_row_view(r)));
            }
            k += 1;
        }
        proof {
            assert(patterns@.take(k as int) =~= patterns@);
        }
        res
    }

    /// Every match of `pattern` on `line` for the stones of `black`, its
    /// window slid one cell at a time from one cell before the line to one
    /// cell after it, each as the row it gives in the line's cells.
    pub fn scan_pattern(&self, line: &Line, pattern: &Pattern, black: bool) -> (res: Vec<LineRow>)
        requires
            line.wf(),
            first_match_fits(*pattern, *line, black),
        ensures
            res@.map_values(|r: LineRow| line_row_view(r)) == scanned(
                *pattern,
                margin_stones(*line, black),
                margin_blanks(*line),
                positions_over(*line, pattern.size_spec()),
            ),
    {
        let pattern_size = pattern.size();
        let scanned_size = line.size + 2;
        if scanned_size < pattern_size {
            let res: Vec<LineRow> = Vec::new();
            assert(res@.map_values(|r: LineRow| line_row_view(r)) =~= Seq::empty());
            return res;
        }
        let mine = if black {
            line.blacks
        } else {
            line.whites
        };
        let size = line.size;
        assert((1u16 << size) >= 1) by (bit_vector)
            requires
                size <= 15,
        ;
        let stones: u16 = mine << 1u16;
        let blanks: u16 = (!(line.blacks | line.whites) & ((1u16 << size) - 1)) << 1u16;
        let n = scanned_size - pattern_size + 1;
        let mut res: Vec<LineRow> = Vec::new();
        let mut cur_stones = stones;
        let mut cur_blanks = blanks;
        proof {
            lemma_shift_step(stones, 0);
            lemma_shift_step(blanks, 0);
        }
        let mut i: u8 = 0;
        while i < n
            invariant
                i <= n,
                cur_stones == stones >> (i as u16),
                cur_blanks == blanks >> (i as u16),
                n == positions_over(*line, pattern.size_spec()),
                n <= 18,
                stones == margin_stones(*line, black),
                blanks == margin_blanks(*line),
                first_match_fits(*pattern, *line, black),
                res@.map_values(|r: LineRow| line_row_view(r)) == scanned(*pattern, stones, blanks, i as int),
            decreases n - i,
        {
            let ghost before = res@;
            let offset: i8 = (i as i8) - 1;
            match pattern.matches(cur_stones, cur_blanks, offset) {
                Some(seg) => {
                    res.push(LineRow { start: seg.start, end: seg.end, eyes: seg.eyes });
                    proof {
                        assert(seg.eyes@ =~= pattern.eye_cells().map_values(|e: int| (e + i - 1) as u8));
                        assert(res@.map_values(|r: LineRow| line_row_view(r)) =~= before.map_values(
                            |r: LineRow| line_row_view(r),
                        ).push(row_at_shift(*pattern, i as int)));
                    }
                },
                None => {},
            }
            proof {
                lemma_shift_step(stones, i as u16);
                lemma_shift_step(blanks, i as u16);
            }
            cur_stones = cur_stones >> 1u16;
            cur_blanks = cur_blanks >> 1u16;
            i += 1;
        }
        res
    }
}

/// Shifting one more cell at a time is shifting by the count.
proof fn lemma_shift_step(x: u16, i: u16)
    by (bit_vector)
    requires
        i < 18,
    ensures
        (x >> i) >> 1u16 == x >> ((i + 1) as u16),
        x >> 0u16 == x,
{
}

/// Whether `x` is between `a` and `b`, both included.
fn between(a: u8, x: u8, b: u8) -> (res: bool)
    ensures
        res == (a <= x && x <= b),
{
    a <= x && x <= b
}

impl Row {
    /// The row of the board that `lr`, found on line `i` in direction
    /// `direction`, is.
    pub fn from(lr: &LineRow, direction: Direction, i: u8) -> (res: Row)
        requires
            cell_valid(direction, i, lr.start),
            cell_valid(direction, i, lr.end),
            forall|k: int| 0 <= k < lr.eyes@.len() ==> #[trigger] cell_valid(direction, i, lr.eyes@[k]),
        ensures
            row_view(res) == row_of(line_row_view(*lr), direction, i),
    {
        let mut eyes: Vec<Point> = Vec::new();
        let mut k: usize = 0;
        while k < lr.eyes.len()
            invariant
                k <= lr.eyes@.len(),
                forall|q: int| 0 <= q < lr.eyes@.len() ==> #[trigger] cell_valid(direction, i, lr.eyes@[q]),
                eyes@ == lr.eyes@.take(k as int).map_values(|j: u8| cell_point(direction, i, j)),
            decreases lr.eyes@.len() - k,
        {
            assert(cell_valid(direction, i, lr.eyes@[k as int]));
            let q = Index::new(direction, i, lr.eyes[k]).to_point();
            eyes.push(q);
            proof {
                assert(lr.eyes@.take(k + 1) =~= lr.eyes@.take(k as int).push(lr.eyes@[k as int]));
                assert(eyes@ =~= lr.eyes@.take(k + 1).map_values(|j: u8| cell_point(direction, i, j)));
            }
            k += 1;
        }
        proof {
            assert(lr.eyes@.take(k as int) =~= lr.eyes@);
        }
        Row {
            direction,
            start: Index::new(direction, i, lr.start).to_point(),
            end: Index::new(direction, i, lr.end).to_point(),
            eyes,
        }
    }

    /// Whether `p` is one of the row's points, from its start to its end
    /// along its direction.
    pub fn overlap(&self, p: &Point) -> (res: bool)
        ensures
            res == overlaps(row_view(*self), *p),
    {
        let (s, e) = (self.start, self.end);
        match self.direction {
            Direction::Vertical => p.0 == s.0 && between(s.1, p.1, e.1),
            Direction::Horizontal => p.1 == s.1 && between(s.0, p.0, e.0),
            Direction::Ascending => {
                between(s.0, p.0, e.0) && between(s.1, p.1, e.1) && p.0 - s.0 == p.1 - s.1
            },
            Direction::Descending => {
                between(s.0, p.0, e.0) && between(e.1, p.1, s.1) && p.0 - s.0 == s.1 - p.1
            },
        }
    }
}

} // verus!
