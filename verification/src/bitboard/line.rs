//! A line of the bit board: its stones as two bit masks, and a memo of
//! the kinds of rows it cannot hold.
use vstd::prelude::*;
use super::bits::{
    lemma_pop, lemma_rows_fit, lemma_rows_need, lemma_threes_have_eyes, min_blanks, min_stones, pop, row_fits,
    rows_spec, scan_rows, Row,
};
use super::fundamentals::{Player, RowKind, BOARD_SIZE};
use crate::board::notation::{chars_of, push_char};
use crate::board::util::{bit_of, lemma_u16_bits};

verus! {

/// The bit that marks rows of kind `kind` as known to be absent.
pub open spec fn free_mask(kind: RowKind) -> u8 {
    match kind {
        RowKind::Two => 0b000010,
        RowKind::Sword => 0b000001,
        RowKind::Three => 0b000100,
        RowKind::Four => 0b001000,
        RowKind::Five => 0b010000,
        RowKind::Overline => 0b100000,
    }
}

/// Whether `flags` marks rows of kind `kind` as absent.
pub open spec fn has_flag(flags: u8, kind: RowKind) -> bool {
    flags & free_mask(kind) != 0
}

/// The six marks are distinct bits.
proof fn lemma_flag_bits(f: u8)
    by (bit_vector)
    ensures
        (f | 0b000010u8) & 0b000010u8 != 0,
        ((f | 0b000010u8) & 0b000001u8 != 0) == (f & 0b000001u8 != 0),
        ((f | 0b000010u8) & 0b000100u8 != 0) == (f & 0b000100u8 != 0),
        ((f | 0b000010u8) & 0b001000u8 != 0) == (f & 0b001000u8 != 0),
        ((f | 0b000010u8) & 0b010000u8 != 0) == (f & 0b010000u8 != 0),
        ((f | 0b000010u8) & 0b100000u8 != 0) == (f & 0b100000u8 != 0),
        ((f | 0b000001u8) & 0b000010u8 != 0) == (f & 0b000010u8 != 0),
        (f | 0b000001u8) & 0b000001u8 != 0,
        ((f | 0b000001u8) & 0b000100u8 != 0) == (f & 0b000100u8 != 0),
        ((f | 0b000001u8) & 0b001000u8 != 0) == (f & 0b001000u8 != 0),
        ((f | 0b000001u8) & 0b010000u8 != 0) == (f & 0b010000u8 != 0),
        ((f | 0b000001u8) & 0b100000u8 != 0) == (f & 0b100000u8 != 0),
        ((f | 0b000100u8) & 0b000010u8 != 0) == (f & 0b000010u8 != 0),
        ((f | 0b000100u8) & 0b000001u8 != 0) == (f & 0b000001u8 != 0),
        (f | 0b000100u8) & 0b000100u8 != 0,
        ((f | 0b000100u8) & 0b001000u8 != 0) == (f & 0b001000u8 != 0),
        ((f | 0b000100u8) & 0b010000u8 != 0) == (f & 0b010000u8 != 0),
        ((f | 0b000100u8) & 0b100000u8 != 0) == (f & 0b100000u8 != 0),
        ((f | 0b001000u8) & 0b000010u8 != 0) == (f & 0b000010u8 != 0),
        ((f | 0b001000u8) & 0b000001u8 != 0) == (f & 0b000001u8 != 0),
        ((f | 0b001000u8) & 0b000100u8 != 0) == (f & 0b000100u8 != 0),
        (f | 0b001000u8) & 0b001000u8 != 0,
        ((f | 0b001000u8) & 0b010000u8 != 0) == (f & 0b010000u8 != 0),
        ((f | 0b001000u8) & 0b100000u8 != 0) == (f & 0b100000u8 != 0),
        ((f | 0b010000u8) & 0b000010u8 != 0) == (f & 0b000010u8 != 0),
        ((f | 0b010000u8) & 0b000001u8 != 0) == (f & 0b000001u8 != 0),
        ((f | 0b010000u8) & 0b000100u8 != 0) == (f & 0b000100u8 != 0),
        ((f | 0b010000u8) & 0b001000u8 != 0) == (f & 0b001000u8 != 0),
        (f | 0b010000u8) & 0b010000u8 != 0,
        ((f | 0b010000u8) & 0b100000u8 != 0) == (f & 0b100000u8 != 0),
        ((f | 0b100000u8) & 0b000010u8 != 0) == (f & 0b000010u8 != 0),
        ((f | 0b100000u8) & 0b000001u8 != 0) == (f & 0b000001u8 != 0),
        ((f | 0b100000u8) & 0b000100u8 != 0) == (f & 0b000100u8 != 0),
        ((f | 0b100000u8) & 0b001000u8 != 0) == (f & 0b001000u8 != 0),
        ((f | 0b100000u8) & 0b010000u8 != 0) == (f & 0b010000u8 != 0),
        (f | 0b100000u8) & 0b100000u8 != 0,
        0b111111u8 & 0b000010u8 != 0,
        0u8 & 0b000010u8 == 0,
        0b111111u8 & 0b000001u8 != 0,
        0u8 & 0b000001u8 == 0,
        0b111111u8 & 0b000100u8 != 0,
        0u8 & 0b000100u8 == 0,
        0b111111u8 & 0b001000u8 != 0,
        0u8 & 0b001000u8 == 0,
        0b111111u8 & 0b010000u8 != 0,
        0u8 & 0b010000u8 == 0,
        0b111111u8 & 0b100000u8 != 0,
        0u8 & 0b100000u8 == 0,
{
}

/// Marking one kind of row leaves the marks of the others as they were.
proof fn lemma_flags(f: u8, k1: RowKind, k2: RowKind)
    ensures
        has_flag(f | free_mask(k1), k2) <==> has_flag(f, k2) || k1 == k2,
        has_flag(0b111111u8, k2),
        !has_flag(0u8, k2),
{
    lemma_flag_bits(f);
}

/// A memo of what a line cannot hold: the kinds of rows each player was
/// found not to have since the last stone was put, and how many stones
/// each player has.
#[derive(Clone, Copy, Debug)]
pub struct RowChecker {
    pub bfree: u8,
    pub wfree: u8,
    pub bcount: u8,
    pub wcount: u8,
}

impl RowChecker {
    /// Whether the memo marks `player`'s rows of kind `kind` as absent.
    pub open spec fn known_free(self, player: Player, kind: RowKind) -> bool {
        match player {
            Player::Black => has_flag(self.bfree, kind),
            Player::White => has_flag(self.wfree, kind),
        }
    }

    /// How many stones the memo counts for `player`.
    pub open spec fn count(self, player: Player) -> u8 {
        match player {
            Player::Black => self.bcount,
            Player::White => self.wcount,
        }
    }

    /// A memo for an empty line, on which there is no row of any kind.
    pub fn new() -> (res: RowChecker)
        ensures
            res == (RowChecker { bfree: 0b111111, wfree: 0b111111, bcount: 0, wcount: 0 }),
    {
        RowChecker { bfree: 0b111111, wfree: 0b111111, bcount: 0, wcount: 0 }
    }

    /// Marks `player`'s rows of kind `kind` as absent.
    pub fn memoize_free(&mut self, player: Player, kind: RowKind)
        ensures
            final(self).bfree == (if player == Player::Black { old(self).bfree | free_mask(kind) } else { old(self).bfree }),
            final(self).wfree == (if player == Player::White { old(self).wfree | free_mask(kind) } else { old(self).wfree }),
            final(self).bcount == old(self).bcount,
            final(self).wcount == old(self).wcount,
    {
        let mask = free_mask_of(kind);
        match player {
            Player::Black => {
                self.bfree = self.bfree | mask;
            },
            Player::White => {
                self.wfree = self.wfree | mask;
            },
        }
    }

    /// Forgets every row marked absent.
    pub fn reset_free(&mut self)
        ensures
            *final(self) == (RowChecker { bfree: 0, wfree: 0, ..*old(self) }),
    {
        self.bfree = 0b0;
        self.wfree = 0b0;
    }

    /// Counts a stone in or out for each player whose mask grew or shrank.
    pub fn memoize_count(&mut self, blacks: u16, whites: u16, prev_blacks: u16, prev_whites: u16)
        requires
            blacks > prev_blacks ==> old(self).bcount < 255,
            blacks < prev_blacks ==> old(self).bcount > 0,
            whites > prev_whites ==> old(self).wcount < 255,
            whites < prev_whites ==> old(self).wcount > 0,
        ensures
            final(self).bfree == old(self).bfree,
            final(self).wfree == old(self).wfree,
            final(self).bcount == (if blacks > prev_blacks {
                old(self).bcount + 1
            } else if blacks < prev_blacks {
                old(self).bcount - 1
            } else {
                old(self).bcount as int
            }),
            final(self).wcount == (if whites > prev_whites {
                old(self).wcount + 1
            } else if whites < prev_whites {
                old(self).wcount - 1
            } else {
                old(self).wcount as int
            }),
    {
        if blacks > prev_blacks {
            self.bcount += 1;
        } else if blacks < prev_blacks {
            self.bcount -= 1;
        }
        if whites > prev_whites {
            self.wcount += 1;
        } else if whites < prev_whites {
            self.wcount -= 1;
        }
    }

    /// [`Self::may_contain`] as a spec function.
    pub open spec fn may_contain_spec(self, size: u8, player: Player, kind: RowKind) -> bool {
        !self.known_free(player, kind) && size - (self.bcount + self.wcount) >= min_blanks(kind)
            && self.count(player) >= min_stones(kind)
    }

    /// Whether a line of `size` cells with this memo may hold a row of
    /// kind `kind` for `player`: the kind is not marked absent, the player
    /// has enough stones for it, and enough cells are empty.
    pub fn may_contain(&self, size: u8, player: Player, kind: RowKind) -> (res: bool)
        requires
            self.bcount + self.wcount <= size,
        ensures
            res == self.may_contain_spec(size, player, kind),
    {
        let mask = free_mask_of(kind);
        if (player.is_black() && (self.bfree & mask != 0b0)) || (player.is_white() && (self.wfree
            & mask != 0b0)) {
            return false;
        }
        let min_stone_count: u8 = match kind {
            RowKind::Two => 2,
            RowKind::Sword => 3,
            RowKind::Three => 3,
            RowKind::Four => 4,
            RowKind::Five => 5,
            RowKind::Overline => 6,
        };
        let min_blank_count: u8 = match kind {
            RowKind::Two => 4,
            RowKind::Sword => 2,
            RowKind::Three => 3,
            RowKind::Four => 1,
            RowKind::Five => 0,
            RowKind::Overline => 0,
        };
        let blank_count = size - (self.bcount + self.wcount);
        blank_count >= min_blank_count && match player {
            Player::Black => self.bcount >= min_stone_count,
            Player::White => self.wcount >= min_stone_count,
        }
    }
}

fn free_mask_of(kind: RowKind) -> (res: u8)
    ensures
        res == free_mask(kind),
{
    match kind {
        RowKind::Two => 0b000010,
        RowKind::Sword => 0b000001,
        RowKind::Three => 0b000100,
        RowKind::Four => 0b001000,
        RowKind::Five => 0b010000,
        RowKind::Overline => 0b100000,
    }
}

/// What the masks of a well-formed line of `s` cells say.
proof fn lemma_line_masks(b: u16, w: u16, s: u16, k: u16)
    by (bit_vector)
    requires
        s <= 15,
        b & w == 0,
        b >> s == 0,
        w >> s == 0,
    ensures
        pop(!(b | w) & (((1u16 << s) - 1) as u16)) == s - pop(b) - pop(w),
        b >> 15u16 == 0,
        w >> 15u16 == 0,
        (!(b | w) & (((1u16 << s) - 1) as u16)) >> 15u16 == 0,
        (b << 1u16) & 1 == 0,
        (w << 1u16) & 1 == 0,
        ((!(b | w) & (((1u16 << s) - 1) as u16)) << 1u16) & 1 == 0,
        (1u16 << s) >= 1,
        k >= s ==> !bit_of(b, k) && !bit_of(w, k),
        bit_of(!(b | w) & (((1u16 << s) - 1) as u16), k) ==> k < s && !bit_of(b, k) && !bit_of(w, k),
        !(bit_of(b, k) && bit_of(w, k)),
        k < 16 ==> ((b & (1u16 << k) != 0) <==> bit_of(b, k)),
        k < 16 ==> ((w & (1u16 << k) != 0) <==> bit_of(w, k)),
{
}

/// What putting a stone on cell `i` of a line of `s` cells does to the
/// masks: the mask it is added to gains bit `i`, the other loses it.
proof fn lemma_put_masks(b: u16, w: u16, i: u16, s: u16, k: u16)
    by (bit_vector)
    requires
        i < 16,
        s <= 15,
    ensures
        (b | (1u16 << i)) >= b,
        (b | (1u16 << i)) > b <==> !bit_of(b, i),
        (w & !(1u16 << i)) <= w,
        (w & !(1u16 << i)) < w <==> bit_of(w, i),
        pop(b | (1u16 << i)) == pop(b) + (if bit_of(b, i) { 0int } else { 1int }),
        pop(w & !(1u16 << i)) == pop(w) - (if bit_of(w, i) { 1int } else { 0int }),
        b & w == 0 <==> w & b == 0,
        b & w == 0 ==> (b | (1u16 << i)) & (w & !(1u16 << i)) == 0 && (w & !(1u16 << i)) & (b | (1u16
            << i)) == 0,
        i < s && b >> s == 0 ==> (b | (1u16 << i)) >> s == 0,
        w >> s == 0 ==> (w & !(1u16 << i)) >> s == 0,
        bit_of(b | (1u16 << i), k) <==> bit_of(b, k) || k == i,
        bit_of(w & !(1u16 << i), k) <==> bit_of(w, k) && k != i,
{
}

/// A row found on `line` lies on it, and its eyes are empty cells.
pub open spec fn row_on_line(r: Row, line: LineBits) -> bool {
    &&& r.start <= r.end < line.size
    &&& r.eye1 matches Some(e) ==> e < line.size && line.cell(e as int) is None
    &&& r.eye2 matches Some(e) ==> e < line.size && line.cell(e as int) is None
}

/// Setting or clearing two different bits, in either order.
proof fn lemma_put_swap(x: u16, i: u16, j: u16)
    by (bit_vector)
    requires
        i != j,
        i < 16,
        j < 16,
    ensures
        ((x | (1u16 << i)) | (1u16 << j)) == ((x | (1u16 << j)) | (1u16 << i)),
        ((x & !(1u16 << i)) & !(1u16 << j)) == ((x & !(1u16 << j)) & !(1u16 << i)),
        ((x | (1u16 << i)) & !(1u16 << j)) == ((x & !(1u16 << j)) | (1u16 << i)),
        ((x & !(1u16 << i)) | (1u16 << j)) == ((x | (1u16 << j)) & !(1u16 << i)),
{
}

/// A line of up to fifteen cells: bit `k` of `blacks` (or `whites`) is
/// set when cell `k` holds a black (or white) stone.
#[derive(Clone, Copy, Debug)]
pub struct Line {
    pub size: u8,
    pub blacks: u16,
    pub whites: u16,
    pub checker: RowChecker,
}

/// What a line holds: its size, and its black and white stones as masks.
pub struct LineBits {
    pub size: u8,
    pub blacks: u16,
    pub whites: u16,
}

impl LineBits {
    /// The masks fit the line and never both hold a cell.
    pub open spec fn mask_ok(self) -> bool {
        &&& self.size <= BOARD_SIZE
        &&& self.blacks & self.whites == 0
        &&& self.blacks >> (self.size as u16) == 0
        &&& self.whites >> (self.size as u16) == 0
    }

    /// The empty cells of the line, as a mask.
    pub open spec fn blanks_spec(self) -> u16 {
        !(self.blacks | self.whites) & (((1u16 << (self.size as u16)) - 1) as u16)
    }

    /// `player`'s stones, as a mask.
    pub open spec fn mine(self, player: Player) -> u16 {
        match player {
            Player::Black => self.blacks,
            Player::White => self.whites,
        }
    }

    /// What cell `k` holds.
    pub open spec fn cell(self, k: int) -> Option<Player> {
        if bit_of(self.blacks, k as u16) {
            Some(Player::Black)
        } else if bit_of(self.whites, k as u16) {
            Some(Player::White)
        } else {
            None
        }
    }

    /// `player`'s rows of kind `kind` on the line: those the pattern
    /// tables find over the line with one cell of margin on each side.
    pub open spec fn rows_of(self, player: Player, kind: RowKind) -> Seq<Row> {
        rows_spec(player, kind, self.mine(player) << 1u16, self.blanks_spec() << 1u16, (self.size + 2) as u8, 1)
    }

    /// Every row found on the line lies on it, its eyes are empty cells,
    /// and every three has an eye.
    pub proof fn lemma_rows_on_line(self, player: Player, kind: RowKind)
        requires
            self.mask_ok(),
        ensures
            forall|m: int| 0 <= m < self.rows_of(player, kind).len() ==> row_on_line(
                #[trigger] self.rows_of(player, kind)[m],
                self,
            ),
            kind == RowKind::Three ==> forall|m: int|
                0 <= m < self.rows_of(player, kind).len() ==> (#[trigger] self.rows_of(player, kind)[m]).eye1 is Some,
    {
        let (x, y) = (self.mine(player), self.blanks_spec());
        lemma_rows_fit(player, kind, x, y, self.size);
        lemma_threes_have_eyes(player, x << 1u16, y << 1u16, (self.size + 2) as u8, 1);
        assert forall|m: int| 0 <= m < self.rows_of(player, kind).len() implies row_on_line(
            #[trigger] self.rows_of(player, kind)[m],
            self,
        ) by {
            let r = self.rows_of(player, kind)[m];
            assert(row_fits(r, x, y));
            lemma_line_masks(self.blacks, self.whites, self.size as u16, r.end as u16);
            match r.eye1 {
                Some(e) => lemma_line_masks(self.blacks, self.whites, self.size as u16, e as u16),
                None => {},
            }
            match r.eye2 {
                Some(e) => lemma_line_masks(self.blacks, self.whites, self.size as u16, e as u16),
                None => {},
            }
        }
    }

    /// An empty line fits its masks and holds nothing.
    pub proof fn lemma_empty(self, k: int)
        requires
            self.blacks == 0,
            self.whites == 0,
            self.size <= BOARD_SIZE,
        ensures
            self.mask_ok(),
            self.cell(k) is None,
    {
        lemma_pop(0, self.size as u16, 0, 0);
        lemma_u16_bits(0, 0, 0, k as u16, 0);
    }

    /// Putting a stone keeps the masks fitting the line, and changes cell
    /// `i` alone.
    pub proof fn lemma_put_spec(self, player: Player, i: u8)
        requires
            self.mask_ok(),
            i < self.size,
        ensures
            self.put_spec(player, i).mask_ok(),
            self.put_spec(player, i).size == self.size,
            forall|k: int| 0 <= k < 16 ==> #[trigger] self.put_spec(player, i).cell(k) == (if k == i {
                Some(player)
            } else {
                self.cell(k)
            }),
    {
        let size = self.size as u16;
        lemma_line_masks(self.blacks, self.whites, size, i as u16);
        match player {
            Player::Black => lemma_put_masks(self.blacks, self.whites, i as u16, size, 0),
            Player::White => lemma_put_masks(self.whites, self.blacks, i as u16, size, 0),
        }
        assert forall|k: int| 0 <= k < 16 implies #[trigger] self.put_spec(player, i).cell(k) == (if k == i {
            Some(player)
        } else {
            self.cell(k)
        }) by {
            lemma_line_masks(self.blacks, self.whites, size, k as u16);
            match player {
                Player::Black => lemma_put_masks(self.blacks, self.whites, i as u16, size, k as u16),
                Player::White => lemma_put_masks(self.whites, self.blacks, i as u16, size, k as u16),
            }
        }
    }

    /// Stones put on two different cells, in either order, give the same
    /// line.
    pub proof fn lemma_put_commutes(self, p1: Player, i: u8, p2: Player, j: u8)
        requires
            i != j,
            i < 16,
            j < 16,
        ensures
            self.put_spec(p1, i).put_spec(p2, j) == self.put_spec(p2, j).put_spec(p1, i),
    {
        lemma_put_swap(self.blacks, i as u16, j as u16);
        lemma_put_swap(self.whites, i as u16, j as u16);
    }

    /// The line after [`Line::put`] puts `player`'s stone on cell `i`.
    pub open spec fn put_spec(self, player: Player, i: u8) -> LineBits {
        let bit = 1u16 << (i as u16);
        match player {
            Player::Black => LineBits { size: self.size, blacks: self.blacks | bit, whites: self.whites & !bit },
            Player::White => LineBits { size: self.size, blacks: self.blacks & !bit, whites: self.whites | bit },
        }
    }
}

impl View for Line {
    type V = LineBits;

    open spec fn view(&self) -> LineBits {
        LineBits { size: self.size, blacks: self.blacks, whites: self.whites }
    }
}

impl Line {
    /// The masks fit the line, the memo counts each player's stones, and
    /// every kind of row it marks absent is absent.
    pub open spec fn wf(self) -> bool {
        &&& self@.mask_ok()
        &&& self.checker.bcount == pop(self.blacks)
        &&& self.checker.wcount == pop(self.whites)
        &&& forall|player: Player, kind: RowKind|
            #[trigger] self.checker.known_free(player, kind) ==> self@.rows_of(player, kind).len() == 0
    }

    /// A well-formed line has masks that fit it.
    pub proof fn lemma_wf(self)
        ensures
            self.wf() ==> self@.mask_ok(),
    {
    }

    /// An empty line of `size` cells (at most fifteen).
    pub fn new(size: u8) -> (res: Line)
        ensures
            res.size == (if size < BOARD_SIZE { size } else { BOARD_SIZE }),
            res.blacks == 0,
            res.whites == 0,
            res.wf(),
    {
        let size = if size < BOARD_SIZE {
            size
        } else {
            BOARD_SIZE
        };
        let res = Line { size: size, blacks: 0b0, whites: 0b0, checker: RowChecker::new() };
        proof {
            lemma_pop(0, size as u16, 0, 0);
            lemma_line_masks(0, 0, size as u16, 0);
            assert forall|player: Player, kind: RowKind| #[trigger] res.checker.known_free(player, kind)
                implies res@.rows_of(player, kind).len() == 0 by {
                lemma_rows_need(player, kind, res@.mine(player) << 1u16, res@.blanks_spec() << 1u16, (size + 2) as u8, 1);
                lemma_pop(0, 0, 0, 0);
            }
        }
        res
    }

    /// Puts `player`'s stone on cell `i`, replacing whatever was there.
    pub fn put(&mut self, player: Player, i: u8)
        requires
            old(self).wf(),
            i < 16,
        ensures
            i < old(self).size ==> final(self).wf(),
            final(self).size == old(self).size,
            final(self)@ == old(self)@.put_spec(player, i),
            final(self).blacks == (if player == Player::Black {
                old(self).blacks | (1u16 << (i as u16))
            } else {
                old(self).blacks & !(1u16 << (i as u16))
            }),
            final(self).whites == (if player == Player::White {
                old(self).whites | (1u16 << (i as u16))
            } else {
                old(self).whites & !(1u16 << (i as u16))
            }),
            forall|k: int| 0 <= k < 16 ==> #[trigger] final(self)@.cell(k) == (if k == i {
                Some(player)
            } else {
                old(self)@.cell(k)
            }),
    {
        let stones: u16 = 1u16 << (i as u16);
        let blacks: u16;
        let whites: u16;
        match player {
            Player::Black => {
                blacks = self.blacks | stones;
                whites = self.whites & !stones;
            },
            Player::White => {
                blacks = self.blacks & !stones;
                whites = self.whites | stones;
            },
        }
        let ghost size = self.size as u16;
        proof {
            lemma_line_masks(self.blacks, self.whites, size, i as u16);
            match player {
                Player::Black => lemma_put_masks(self.blacks, self.whites, i as u16, size, 0),
                Player::White => lemma_put_masks(self.whites, self.blacks, i as u16, size, 0),
            }
        }
        self.checker.reset_free();
        self.checker.memoize_count(blacks, whites, self.blacks, self.whites);
        self.blacks = blacks;
        self.whites = whites;
        proof {
            assert forall|k: int| 0 <= k < 16 implies #[trigger] self@.cell(k) == (if k == i {
                Some(player)
            } else {
                old(self)@.cell(k)
            }) by {
                lemma_line_masks(old(self).blacks, old(self).whites, size, k as u16);
                match player {
                    Player::Black => lemma_put_masks(old(self).blacks, old(self).whites, i as u16, size, k as u16),
                    Player::White => lemma_put_masks(old(self).whites, old(self).blacks, i as u16, size, k as u16),
                }
            }
            assert forall|player: Player, kind: RowKind| #[trigger] self.checker.known_free(player, kind)
                implies self@.rows_of(player, kind).len() == 0 by {
                lemma_flags(0, kind, kind);
            }
        }
    }

    /// What each cell holds, in order.
    pub fn stones(&self) -> (res: Vec<Option<Player>>)
        requires
            self.wf(),
        ensures
            res@.len() == self.size,
            forall|k: int| 0 <= k < self.size ==> #[trigger] res@[k] == self@.cell(k),
    {
        let mut res: Vec<Option<Player>> = Vec::new();
        let mut i: u8 = 0;
        while i < self.size
            invariant
                self.wf(),
                i <= self.size,
                res@.len() == i,
                forall|k: int| 0 <= k < i ==> #[trigger] res@[k] == self@.cell(k),
            decreases self.size - i,
        {
            let pat: u16 = 1u16 << (i as u16);
            proof {
                lemma_line_masks(self.blacks, self.whites, self.size as u16, i as u16);
            }
            let s = if self.blacks & pat != 0b0 {
                Some(Player::Black)
            } else if self.whites & pat != 0b0 {
                Some(Player::White)
            } else {
                None
            };
            res.push(s);
            i += 1;
        }
        res
    }

    /// The empty cells, as a mask.
    fn blanks(&self) -> (res: u16)
        requires
            self@.mask_ok(),
        ensures
            res == self@.blanks_spec(),
    {
        proof {
            lemma_line_masks(self.blacks, self.whites, self.size as u16, 0);
        }
        !(self.blacks | self.whites) & ((1u16 << (self.size as u16)) - 1)
    }

    /// `player`'s rows of kind `kind`, skipping the scan when the memo
    /// shows there can be none.
    pub fn find_rows(&self, player: Player, kind: RowKind) -> (res: Vec<Row>)
        requires
            self.wf(),
        ensures
            res@ == self@.rows_of(player, kind),
    {
        let ghost s = self.size as u16;
        proof {
            lemma_line_masks(self.blacks, self.whites, s, 0);
        }
        if !self.checker.may_contain(self.size, player, kind) {
            proof {
                let (st, bl) = (self@.mine(player), self@.blanks_spec());
                lemma_rows_need(player, kind, st << 1u16, bl << 1u16, (self.size + 2) as u8, 1);
                lemma_pop(st, 0, 0, 0);
                lemma_pop(bl, 0, 0, 0);
            }
            return Vec::new();
        }
        let blacks_ = self.blacks << 1u16;
        let whites_ = self.whites << 1u16;
        let blanks_ = self.blanks() << 1u16;
        let limit = self.size + 2;
        match player {
            Player::Black => scan_rows(Player::Black, kind, blacks_, blanks_, limit, 1),
            Player::White => scan_rows(Player::White, kind, whites_, blanks_, limit, 1),
        }
    }

    /// `player`'s rows of kind `kind`, marking the kind absent when there
    /// are none.
    pub fn rows(&mut self, player: Player, kind: RowKind) -> (res: Vec<Row>)
        requires
            old(self).wf(),
        ensures
            res@ == old(self)@.rows_of(player, kind),
            final(self).wf(),
            final(self).size == old(self).size,
            final(self).blacks == old(self).blacks,
            final(self).whites == old(self).whites,
    {
        let result = self.find_rows(player, kind);
        if result.len() == 0 {
            self.checker.memoize_free(player, kind);
            proof {
                assert forall|p: Player, k: RowKind| #[trigger] self.checker.known_free(p, k)
                    implies self@.rows_of(p, k).len() == 0 by {
                    lemma_flags(old(self).checker.bfree, kind, k);
                    lemma_flags(old(self).checker.wfree, kind, k);
                    assert(old(self).checker.known_free(p, k) ==> old(self)@.rows_of(p, k).len() == 0);
                }
            }
        }
        result
    }
}

/// The character a cell is written with: `o`, `x` or `-`.
pub open spec fn cell_char(cell: Option<Player>) -> char {
    match cell {
        Some(Player::Black) => 'o',
        Some(Player::White) => 'x',
        None => '-',
    }
}

/// The stone a character stands for: `o` black, `x` white, anything else
/// none.
pub open spec fn stone_of_char(c: char) -> Option<Player> {
    if c == 'o' {
        Some(Player::Black)
    } else if c == 'x' {
        Some(Player::White)
    } else {
        None
    }
}

/// A line written out, cell by cell.
pub open spec fn line_text(line: LineBits) -> Seq<char> {
    Seq::new(line.size as nat, |k: int| cell_char(line.cell(k)))
}

/// What [`Line::to_string`] writes, [`Line::parse`] reads back: the text
/// has one character per cell, and each stands for what its cell holds.
pub proof fn lemma_text_roundtrip(line: LineBits)
    ensures
        line_text(line).len() == line.size,
        forall|k: int| 0 <= k < line.size ==> #[trigger] stone_of_char(line_text(line)[k]) == line.cell(k),
{
}

impl Line {
    /// The line written cell by cell: `o` for black, `x` for white, `-`
    /// for an empty cell.
    pub fn to_string(&self) -> (res: String)
        requires
            self.wf(),
        ensures
            res@ == line_text(self@),
    {
        let stones = self.stones();
        let mut res = String::new();
        let mut k: usize = 0;
        while k < stones.len()
            invariant
                k <= stones@.len() == self.size,
                forall|m: int| 0 <= m < self.size ==> #[trigger] stones@[m] == self@.cell(m),
                res@ == line_text(self@).take(k as int),
            decreases stones@.len() - k,
        {
            let c = match stones[k] {
                Some(Player::Black) => 'o',
                Some(Player::White) => 'x',
                None => '-',
            };
            push_char(&mut res, c);
            assert(line_text(self@).take(k + 1) =~= line_text(self@).take(k as int).push(c));
            k += 1;
        }
        assert(line_text(self@).take(k as int) =~= line_text(self@));
        res
    }

    /// Reads a line written cell by cell, `o` for black and `x` for white;
    /// it may have at most fifteen cells.
    pub fn parse(s: &str) -> (res: Result<Line, &'static str>)
        ensures
            res is Ok <==> s@.len() <= BOARD_SIZE,
            res matches Err(e) ==> e@ == "Wrong length."@,
            res matches Ok(line) ==> {
                &&& line.wf()
                &&& line.size == s@.len()
                &&& forall|k: int| 0 <= k < line.size ==> #[trigger] line@.cell(k) == stone_of_char(s@[k])
            },
    {
        Self::parse_chars(&chars_of(s))
    }

    /// [`Self::parse`], from the characters.
    pub fn parse_chars(chars: &Vec<char>) -> (res: Result<Line, &'static str>)
        ensures
            res is Ok <==> chars@.len() <= BOARD_SIZE,
            res matches Err(e) ==> e@ == "Wrong length."@,
            res matches Ok(line) ==> {
                &&& line.wf()
                &&& line.size == chars@.len()
                &&& forall|k: int| 0 <= k < line.size ==> #[trigger] line@.cell(k) == stone_of_char(chars@[k])
            },
    {
        let ghost s = chars@;
        let size = chars.len();
        if size > BOARD_SIZE as usize {
            return Err("Wrong length.");
        }
        let mut line = Line::new(size as u8);
        let mut i: usize = 0;
        proof {
            lemma_pop(0, size as u16, 0, 0);
            lemma_line_masks(0, 0, size as u16, 0);
            assert forall|k: int| 0 <= k < 16 implies #[trigger] line@.cell(k) is None by {
                lemma_line_masks(0, 0, size as u16, k as u16);
            }
        }
        while i < size
            invariant
                size == chars@.len() == s.len() <= BOARD_SIZE,
                chars@ == s,
                i <= size,
                line.wf(),
                line.size == size,
                forall|k: int| 0 <= k < i ==> #[trigger] line@.cell(k) == stone_of_char(s[k]),
                forall|k: int| i <= k < 16 ==> #[trigger] line@.cell(k) is None,
            decreases size - i,
        {
            let c = chars[i];
            if c == 'o' {
                line.put(Player::Black, i as u8);
            } else if c == 'x' {
                line.put(Player::White, i as u8);
            }
            i += 1;
        }
        Ok(line)
    }
}

impl PartialEq for Line {
    fn eq(&self, other: &Self) -> (res: bool) {
        self.size == other.size && self.blacks == other.blacks && self.whites == other.whites
    }
}

impl vstd::std_specs::cmp::PartialEqSpecImpl for Line {
    open spec fn obeys_eq_spec() -> bool {
        true
    }

    open spec fn eq_spec(&self, other: &Self) -> bool {
        self.size == other.size && self.blacks == other.blacks && self.whites == other.whites
    }
}

impl Eq for Line {
}

/// The memo of a line as the line keeps it says "no such row" only where
/// there is none: when [`RowChecker::may_contain`] is false for the line's
/// size, `player` and `kind`, the line has no row of that kind for that
/// player.
pub proof fn lemma_may_contain_sound(line: Line, player: Player, kind: RowKind)
    requires
        line.wf(),
    ensures
        !line.checker.may_contain_spec(line.size, player, kind) ==> line@.rows_of(player, kind).len() == 0,
{
    let l = line@;
    let (b, w, size) = (l.blacks, l.whites, l.size as u16);
    lemma_line_masks(b, w, size, 0);
    lemma_pop(b, 0, 0, 0);
    lemma_pop(w, 0, 0, 0);
    lemma_pop(l.blanks_spec(), 0, 0, 0);
    lemma_rows_need(player, kind, l.mine(player) << 1u16, l.blanks_spec() << 1u16, (line.size + 2) as u8, 1);
}

} // verus!
