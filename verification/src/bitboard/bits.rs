use vstd::prelude::*;
use super::fundamentals::{Player, RowKind};
use crate::board::util::bit_of;

verus! {

/// A row found on a line: the cells it spans, and the cells where the
/// player still has to play, if any.
#[derive(Debug, Eq, PartialEq, Structural)]
pub struct Row {
    pub start: u8,
    pub end: u8,
    pub eye1: Option<u8>,
    pub eye2: Option<u8>,
}

impl Row {
    pub fn new(start: u8, end: u8, eye1: Option<u8>, eye2: Option<u8>) -> (res: Row)
        ensures
            res == (Row { start, end, eye1, eye2 }),
    {
        Row { start: start, end: end, eye1: eye1, eye2: eye2 }
    }
}

/// The cells a kind of row needs free of the opponent: `size` cells, of
/// which `target` must hold own stones or be empty.
pub struct Window {
    pub size: u8,
    pub target: u16,
}

/// One way a row of some kind can look, over a window: the cells looked
/// at (`filter`), which of them hold own stones, which must be empty, and
/// which of the empty ones are the eyes.
pub struct Pattern {
    pub filter: u16,
    pub stones: u16,
    pub blanks: u16,
    pub eyes__: u16,
}

impl Window {
    /// [`Self::satisfies`] as a spec function.
    pub open spec fn satisfies_spec(self, stones: u16, blanks: u16) -> bool {
        self.target & (stones | blanks) == self.target
    }

    /// Whether every cell of the target holds an own stone or is empty.
    pub fn satisfies(&self, stones: u16, blanks: u16) -> (res: bool)
        ensures
            res == self.satisfies_spec(stones, blanks),
    {
        self.target & (stones | blanks) == self.target
    }
}

impl Pattern {
    /// [`Self::matches`] as a spec function.
    pub open spec fn matches_spec(self, stones: u16, blanks: u16) -> bool {
        (stones & self.filter == self.stones) && (blanks & self.filter & self.blanks == self.blanks)
    }

    /// [`Self::start`] as a spec function.
    pub open spec fn start_of(self) -> u8 {
        let low = (self.stones | self.blanks) & 0b11;
        if low == 0b11 {
            0
        } else if low == 0b10 {
            1
        } else if low == 0b00 {
            2
        } else {
            0
        }
    }

    /// [`Self::end`] as a spec function.
    pub open spec fn end_of(self) -> u8 {
        let all = self.stones | self.blanks;
        if all == 0b1111 {
            3
        } else if all == 0b11110 {
            4
        } else if all == 0b111100 {
            5
        } else if all == 0b11111 {
            4
        } else if all == 0b111110 {
            5
        } else if all == 0b1111100 {
            6
        } else if all == 0b111111 {
            5
        } else if all == 0b1111110 {
            6
        } else if all == 0b11111100 {
            7
        } else {
            0
        }
    }

    /// [`Self::eye1`] as a spec function.
    pub open spec fn eye1_of(self) -> Option<u8> {
        let e = self.eyes__;
        if e == 0b1 {
            Some(0)
        } else if e == 0b10 {
            Some(1)
        } else if e == 0b100 {
            Some(2)
        } else if e == 0b1000 {
            Some(3)
        } else if e == 0b10000 {
            Some(4)
        } else if e == 0b100000 {
            Some(5)
        } else if e == 0b1000000 {
            Some(6)
        } else if e == 0b11 {
            Some(0)
        } else if e == 0b101 {
            Some(0)
        } else if e == 0b110 {
            Some(1)
        } else if e == 0b1001 {
            Some(0)
        } else if e == 0b1010 {
            Some(1)
        } else if e == 0b1100 {
            Some(2)
        } else if e == 0b10001 {
            Some(0)
        } else if e == 0b10010 {
            Some(1)
        } else if e == 0b10100 {
            Some(2)
        } else if e == 0b11000 {
            Some(3)
        } else if e == 0b100010 {
            Some(1)
        } else if e == 0b100100 {
            Some(2)
        } else if e == 0b101000 {
            Some(3)
        } else if e == 0b110000 {
            Some(4)
        } else {
            None
        }
    }

    /// [`Self::eye2`] as a spec function.
    pub open spec fn eye2_of(self) -> Option<u8> {
        let e = self.eyes__;
        if e == 0b11 {
            Some(1)
        } else if e == 0b101 {
            Some(2)
        } else if e == 0b110 {
            Some(2)
        } else if e == 0b1001 {
            Some(3)
        } else if e == 0b1010 {
            Some(3)
        } else if e == 0b1100 {
            Some(3)
        } else if e == 0b10001 {
            Some(4)
        } else if e == 0b10010 {
            Some(4)
        } else if e == 0b10100 {
            Some(4)
        } else if e == 0b11000 {
            Some(4)
        } else if e == 0b100010 {
            Some(5)
        } else if e == 0b100100 {
            Some(5)
        } else if e == 0b101000 {
            Some(5)
        } else if e == 0b110000 {
            Some(5)
        } else {
            None
        }
    }

    /// Whether the stones and empty cells given, from the window's first
    /// cell on, are those of the pattern.
    pub fn matches(&self, stones: u16, blanks: u16) -> (res: bool)
        ensures
            res == self.matches_spec(stones, blanks),
    {
        (stones & self.filter == self.stones) && (blanks & self.filter & self.blanks == self.blanks)
    }

    /// The first cell of the row within the window.
    pub fn start(&self) -> (res: u8)
        ensures
            res == self.start_of(),
    {
        match (self.stones | self.blanks) & 0b11 {
            0b11 => 0,
            0b10 => 1,
            0b00 => 2,
            _ => 0,
        }
    }

    /// The last cell of the row within the window.
    pub fn end(&self) -> (res: u8)
        ensures
            res == self.end_of(),
    {
        match self.stones | self.blanks {
            0b1111 => 3,
            0b11110 => 4,
            0b111100 => 5,
            0b11111 => 4,
            0b111110 => 5,
            0b1111100 => 6,
            0b111111 => 5,
            0b1111110 => 6,
            0b11111100 => 7,
            _ => 0,
        }
    }

    /// The first eye within the window, if there is one.
    pub fn eye1(&self) -> (res: Option<u8>)
        ensures
            res == self.eye1_of(),
    {
        match self.eyes__ {
            0b1 => Some(0),
            0b10 => Some(1),
            0b100 => Some(2),
            0b1000 => Some(3),
            0b10000 => Some(4),
            0b100000 => Some(5),
            0b1000000 => Some(6),
            0b11 => Some(0),
            0b101 => Some(0),
            0b110 => Some(1),
            0b1001 => Some(0),
            0b1010 => Some(1),
            0b1100 => Some(2),
            0b10001 => Some(0),
            0b10010 => Some(1),
            0b10100 => Some(2),
            0b11000 => Some(3),
            0b100010 => Some(1),
            0b100100 => Some(2),
            0b101000 => Some(3),
            0b110000 => Some(4),
            _ => None,
        }
    }

    /// The second eye within the window, if there is one.
    pub fn eye2(&self) -> (res: Option<u8>)
        ensures
            res == self.eye2_of(),
    {
        match self.eyes__ {
            0b11 => Some(1),
            0b101 => Some(2),
            0b110 => Some(2),
            0b1001 => Some(3),
            0b1010 => Some(3),
            0b1100 => Some(3),
            0b10001 => Some(4),
            0b10010 => Some(4),
            0b10100 => Some(4),
            0b11000 => Some(4),
            0b100010 => Some(5),
            0b100100 => Some(5),
            0b101000 => Some(5),
            0b110000 => Some(5),
            _ => None,
        }
    }
}

/// Black's twos, as `filter, stones, blanks, eyes` for each pattern.
pub const B_TWOS: [u16; 24] = [
    0b11111111, 0b00001100, 0b01110010, 0b00110000,
    0b11111111, 0b00010100, 0b01101010, 0b00101000,
    0b11111111, 0b00011000, 0b01100110, 0b00100100,
    0b11111111, 0b00100100, 0b01011010, 0b00011000,
    0b11111111, 0b00101000, 0b01010110, 0b00010100,
    0b11111111, 0b00110000, 0b01001110, 0b00001100,
];

/// Black's threes, as `filter, stones, blanks, eyes` for each pattern.
pub const B_THREES: [u16; 16] = [
    0b11111111, 0b00011100, 0b01100010, 0b00100000,
    0b11111111, 0b00101100, 0b01010010, 0b00010000,
    0b11111111, 0b00110100, 0b01001010, 0b00001000,
    0b11111111, 0b00111000, 0b01000110, 0b00000100,
];

/// Black's swords, as `filter, stones, blanks, eyes` for each pattern.
pub const B_SWORDS: [u16; 40] = [
    0b1111111, 0b0001110, 0b0110000, 0b0110000,
    0b1111111, 0b0010110, 0b0101000, 0b0101000,
    0b1111111, 0b0011010, 0b0100100, 0b0100100,
    0b1111111, 0b0011100, 0b0100010, 0b0100010,
    0b1111111, 0b0100110, 0b0011000, 0b0011000,
    0b1111111, 0b0101010, 0b0010100, 0b0010100,
    0b1111111, 0b0101100, 0b0010010, 0b0010010,
    0b1111111, 0b0110010, 0b0001100, 0b0001100,
    0b1111111, 0b0110100, 0b0001010, 0b0001010,
    0b1111111, 0b0111000, 0b0000110, 0b0000110,
];

/// Black's fours, as `filter, stones, blanks, eyes` for each pattern.
pub const B_FOURS: [u16; 20] = [
    0b1111111, 0b0011110, 0b0100000, 0b0100000,
    0b1111111, 0b0101110, 0b0010000, 0b0010000,
    0b1111111, 0b0110110, 0b0001000, 0b0001000,
    0b1111111, 0b0111010, 0b0000100, 0b0000100,
    0b1111111, 0b0111100, 0b0000010, 0b0000010,
];

/// Black's five, as `filter, stones, blanks, eyes` for each pattern.
pub const B_FIVES: [u16; 4] = [
    0b1111111, 0b0111110, 0b0000000, 0b0000000,
];

/// Black's overline, as `filter, stones, blanks, eyes` for each pattern.
pub const B_OVERLINES: [u16; 4] = [
    0b111111, 0b111111, 0b000000, 0b000000,
];

/// White's twos, as `filter, stones, blanks, eyes` for each pattern.
pub const W_TWOS: [u16; 24] = [
    0b111111, 0b000110, 0b111001, 0b011000,
    0b111111, 0b001010, 0b110101, 0b010100,
    0b111111, 0b001100, 0b110011, 0b010010,
    0b111111, 0b010010, 0b101101, 0b001100,
    0b111111, 0b010100, 0b101011, 0b001010,
    0b111111, 0b011000, 0b100111, 0b000110,
];

/// White's threes, as `filter, stones, blanks, eyes` for each pattern.
pub const W_THREES: [u16; 16] = [
    0b111111, 0b001110, 0b110001, 0b010000,
    0b111111, 0b010110, 0b101001, 0b001000,
    0b111111, 0b011010, 0b100101, 0b000100,
    0b111111, 0b011100, 0b100011, 0b000010,
];

/// White's swords, as `filter, stones, blanks, eyes` for each pattern.
pub const W_SWORDS: [u16; 40] = [
    0b11111, 0b00111, 0b11000, 0b11000,
    0b11111, 0b01011, 0b10100, 0b10100,
    0b11111, 0b01101, 0b10010, 0b10010,
    0b11111, 0b01110, 0b10001, 0b10001,
    0b11111, 0b10011, 0b01100, 0b01100,
    0b11111, 0b10101, 0b01010, 0b01010,
    0b11111, 0b10110, 0b01001, 0b01001,
    0b11111, 0b11001, 0b00110, 0b00110,
    0b11111, 0b11010, 0b00101, 0b00101,
    0b11111, 0b11100, 0b00011, 0b00011,
];

/// White's fours, as `filter, stones, blanks, eyes` for each pattern.
pub const W_FOURS: [u16; 20] = [
    0b11111, 0b01111, 0b10000, 0b10000,
    0b11111, 0b10111, 0b01000, 0b01000,
    0b11111, 0b11011, 0b00100, 0b00100,
    0b11111, 0b11101, 0b00010, 0b00010,
    0b11111, 0b11110, 0b00001, 0b00001,
];

/// White's five, as `filter, stones, blanks, eyes` for each pattern.
pub const W_FIVES: [u16; 4] = [
    0b11111, 0b11111, 0b00000, 0b00000,
];

/// Pattern `k` of a table.
pub open spec fn pattern_at(t: Seq<u16>, k: int) -> Pattern {
    Pattern { filter: t[4 * k], stones: t[4 * k + 1], blanks: t[4 * k + 2], eyes__: t[4 * k + 3] }
}

/// The eyes of a pattern are among its empty cells, and its cells make a
/// row whose end is known.
pub open spec fn pattern_ok(p: Pattern) -> bool {
    &&& p.eyes__ & !p.blanks == 0
    &&& p.end_of() >= 3
}

/// Every pattern of a table is well formed.
pub open spec fn table_ok(t: Seq<u16>) -> bool {
    &&& t.len() % 4 == 0
    &&& t.len() < 1000
    &&& forall|k: int| 0 <= k < t.len() / 4 ==> #[trigger] pattern_ok(pattern_at(t, k))
}

/// The window and the patterns `player`'s rows of kind `kind` are found
/// with, if there are any.
pub open spec fn table_of(player: Player, kind: RowKind) -> Option<(Window, Seq<u16>)> {
    match player {
        Player::Black => match kind {
            RowKind::Two => Some((Window { size: 8, target: 0b01111110 }, B_TWOS@)),
            RowKind::Sword => Some((Window { size: 7, target: 0b0111110 }, B_SWORDS@)),
            RowKind::Three => Some((Window { size: 8, target: 0b01111110 }, B_THREES@)),
            RowKind::Four => Some((Window { size: 7, target: 0b0111110 }, B_FOURS@)),
            RowKind::Five => Some((Window { size: 7, target: 0b0111110 }, B_FIVES@)),
            RowKind::Overline => Some((Window { size: 6, target: 0b111111 }, B_OVERLINES@)),
        },
        Player::White => match kind {
            RowKind::Two => Some((Window { size: 6, target: 0b111111 }, W_TWOS@)),
            RowKind::Sword => Some((Window { size: 5, target: 0b11111 }, W_SWORDS@)),
            RowKind::Three => Some((Window { size: 6, target: 0b111111 }, W_THREES@)),
            RowKind::Four => Some((Window { size: 5, target: 0b11111 }, W_FOURS@)),
            RowKind::Five => Some((Window { size: 5, target: 0b11111 }, W_FIVES@)),
            RowKind::Overline => None,
        },
    }
}

/// The bit facts the pattern tables rest on.
proof fn lemma_table_literals()
    by (bit_vector)
    ensures
        0b0000000u16 & !0b0000000u16 == 0,
        0b000000u16 & !0b000000u16 == 0,
        0b00000100u16 & !0b01000110u16 == 0,
        0b0000010u16 & !0b0000010u16 == 0,
        0b00000u16 & !0b00000u16 == 0,
        0b00001000u16 & !0b01001010u16 == 0,
        0b0000100u16 & !0b0000100u16 == 0,
        0b000010u16 & !0b100011u16 == 0,
        0b00001100u16 & !0b01001110u16 == 0,
        0b00001100u16 | 0b01110010u16 == 0b1111110u16,
        0b0000110u16 & !0b0000110u16 == 0,
        0b00001u16 & !0b00001u16 == 0,
        0b00010000u16 & !0b01010010u16 == 0,
        0b0001000u16 & !0b0001000u16 == 0,
        0b000100u16 & !0b100101u16 == 0,
        0b00010100u16 & !0b01010110u16 == 0,
        0b00010100u16 | 0b01101010u16 == 0b1111110u16,
        0b0001010u16 & !0b0001010u16 == 0,
        0b00010u16 & !0b00010u16 == 0,
        0b00011000u16 & !0b01011010u16 == 0,
        0b00011000u16 | 0b01100110u16 == 0b1111110u16,
        0b0001100u16 & !0b0001100u16 == 0,
        0b000110u16 & !0b100111u16 == 0,
        0b000110u16 | 0b111001u16 == 0b111111u16,
        0b00011100u16 | 0b01100010u16 == 0b1111110u16,
        0b0001110u16 | 0b0110000u16 == 0b111110u16,
        0b00011u16 & !0b00011u16 == 0,
        0b00100000u16 & !0b01100010u16 == 0,
        0b0010000u16 & !0b0010000u16 == 0,
        0b001000u16 & !0b101001u16 == 0,
        0b00100100u16 & !0b01100110u16 == 0,
        0b00100100u16 | 0b01011010u16 == 0b1111110u16,
        0b0010010u16 & !0b0010010u16 == 0,
        0b00100u16 & !0b00100u16 == 0,
        0b00101000u16 & !0b01101010u16 == 0,
        0b00101000u16 | 0b01010110u16 == 0b1111110u16,
        0b0010100u16 & !0b0010100u16 == 0,
        0b001010u16 & !0b101011u16 == 0,
        0b001010u16 | 0b110101u16 == 0b111111u16,
        0b00101100u16 | 0b01010010u16 == 0b1111110u16,
        0b0010110u16 | 0b0101000u16 == 0b111110u16,
        0b00101u16 & !0b00101u16 == 0,
        0b00110000u16 & !0b01110010u16 == 0,
        0b00110000u16 | 0b01001110u16 == 0b1111110u16,
        0b0011000u16 & !0b0011000u16 == 0,
        0b001100u16 & !0b101101u16 == 0,
        0b001100u16 | 0b110011u16 == 0b111111u16,
        0b00110100u16 | 0b01001010u16 == 0b1111110u16,
        0b0011010u16 | 0b0100100u16 == 0b111110u16,
        0b00110u16 & !0b00110u16 == 0,
        0b00111000u16 | 0b01000110u16 == 0b1111110u16,
        0b0011100u16 | 0b0100010u16 == 0b111110u16,
        0b001110u16 | 0b110001u16 == 0b111111u16,
        0b0011110u16 | 0b0100000u16 == 0b111110u16,
        0b00111u16 | 0b11000u16 == 0b11111u16,
        0b0100000u16 & !0b0100000u16 == 0,
        0b010000u16 & !0b110001u16 == 0,
        0b0100010u16 & !0b0100010u16 == 0,
        0b01000u16 & !0b01000u16 == 0,
        0b0100100u16 & !0b0100100u16 == 0,
        0b010010u16 & !0b110011u16 == 0,
        0b010010u16 | 0b101101u16 == 0b111111u16,
        0b0100110u16 | 0b0011000u16 == 0b111110u16,
        0b01001u16 & !0b01001u16 == 0,
        0b0101000u16 & !0b0101000u16 == 0,
        0b010100u16 & !0b110101u16 == 0,
        0b010100u16 | 0b101011u16 == 0b111111u16,
        0b0101010u16 | 0b0010100u16 == 0b111110u16,
        0b01010u16 & !0b01010u16 == 0,
        0b0101100u16 | 0b0010010u16 == 0b111110u16,
        0b010110u16 | 0b101001u16 == 0b111111u16,
        0b0101110u16 | 0b0010000u16 == 0b111110u16,
        0b01011u16 | 0b10100u16 == 0b11111u16,
        0b0110000u16 & !0b0110000u16 == 0,
        0b011000u16 & !0b111001u16 == 0,
        0b011000u16 | 0b100111u16 == 0b111111u16,
        0b0110010u16 | 0b0001100u16 == 0b111110u16,
        0b01100u16 & !0b01100u16 == 0,
        0b0110100u16 | 0b0001010u16 == 0b111110u16,
        0b011010u16 | 0b100101u16 == 0b111111u16,
        0b0110110u16 | 0b0001000u16 == 0b111110u16,
        0b01101u16 | 0b10010u16 == 0b11111u16,
        0b0111000u16 | 0b0000110u16 == 0b111110u16,
        0b011100u16 | 0b100011u16 == 0b111111u16,
        0b0111010u16 | 0b0000100u16 == 0b111110u16,
        0b01110u16 | 0b10001u16 == 0b11111u16,
        0b0111100u16 | 0b0000010u16 == 0b111110u16,
        0b0111110u16 | 0b0000000u16 == 0b111110u16,
        0b01111u16 | 0b10000u16 == 0b11111u16,
        0b10000u16 & !0b10000u16 == 0,
        0b10001u16 & !0b10001u16 == 0,
        0b10010u16 & !0b10010u16 == 0,
        0b10011u16 | 0b01100u16 == 0b11111u16,
        0b10100u16 & !0b10100u16 == 0,
        0b10101u16 | 0b01010u16 == 0b11111u16,
        0b10110u16 | 0b01001u16 == 0b11111u16,
        0b10111u16 | 0b01000u16 == 0b11111u16,
        0b11000u16 & !0b11000u16 == 0,
        0b11001u16 | 0b00110u16 == 0b11111u16,
        0b11010u16 | 0b00101u16 == 0b11111u16,
        0b11011u16 | 0b00100u16 == 0b11111u16,
        0b11100u16 | 0b00011u16 == 0b11111u16,
        0b11101u16 | 0b00010u16 == 0b11111u16,
        0b11110u16 | 0b00001u16 == 0b11111u16,
        0b111111u16 | 0b000000u16 == 0b111111u16,
        0b11111u16 | 0b00000u16 == 0b11111u16,
{
}

/// Every pattern table is well formed.
proof fn lemma_tables_ok(player: Player, kind: RowKind)
    ensures
        table_of(player, kind) matches Some((w, t)) ==> table_ok(t) && 5 <= w.size <= 8,
{
    lemma_table_literals();
    match table_of(player, kind) {
        Some((w, t)) => {
            assert forall|k: int| 0 <= k < t.len() / 4 implies #[trigger] pattern_ok(pattern_at(t, k)) by {}
        },
        None => {},
    }
}

/// What a pattern matched against a window whose first cell holds
/// nothing knows of its own first cell.
proof fn lemma_low_bit(x: u16, bl: u16, f: u16, ps: u16, pb: u16, pe: u16)
    by (bit_vector)
    requires
        x & 1 == 0,
        bl & 1 == 0,
        x & f == ps,
        bl & f & pb == pb,
        pe & !pb == 0,
    ensures
        (ps | pb) & 0b11 == 0b10 || (ps | pb) & 0b11 == 0,
        pe != 1 && pe != 3 && pe != 5 && pe != 9 && pe != 17,
{
}

/// Shifting by nothing.
proof fn lemma_shift_zero(x: u16, y: u16, a: u16, b: u16)
    by (bit_vector)
    ensures
        x >> 0u16 == x,
        y >> 0u16 == y,
        (a << 1u16) & 1 == 0,
        (b << 1u16) & 1 == 0,
{
}

/// How many bits of `x` are set.
pub open spec fn pop(x: u16) -> int {
    ((x >> 0u16) & 1) + ((x >> 1u16) & 1) + ((x >> 2u16) & 1) + ((x >> 3u16) & 1) + ((x >> 4u16) & 1) + ((x
        >> 5u16) & 1) + ((x >> 6u16) & 1) + ((x >> 7u16) & 1) + ((x >> 8u16) & 1) + ((x >> 9u16) & 1) + ((x
        >> 10u16) & 1) + ((x >> 11u16) & 1) + ((x >> 12u16) & 1) + ((x >> 13u16) & 1) + ((x >> 14u16) & 1)
        + ((x >> 15u16) & 1)
}

/// The two-eye masks, bit by bit.
proof fn lemma_eye_pairs()
    by (bit_vector)
    ensures
        (1u16 << 0u16) | (1u16 << 1u16) == 0b11u16,
        pop(0b11u16) == 2,
        (1u16 << 0u16) | (1u16 << 2u16) == 0b101u16,
        pop(0b101u16) == 2,
        (1u16 << 1u16) | (1u16 << 2u16) == 0b110u16,
        pop(0b110u16) == 2,
        (1u16 << 0u16) | (1u16 << 3u16) == 0b1001u16,
        pop(0b1001u16) == 2,
        (1u16 << 1u16) | (1u16 << 3u16) == 0b1010u16,
        pop(0b1010u16) == 2,
        (1u16 << 2u16) | (1u16 << 3u16) == 0b1100u16,
        pop(0b1100u16) == 2,
        (1u16 << 0u16) | (1u16 << 4u16) == 0b10001u16,
        pop(0b10001u16) == 2,
        (1u16 << 1u16) | (1u16 << 4u16) == 0b10010u16,
        pop(0b10010u16) == 2,
        (1u16 << 2u16) | (1u16 << 4u16) == 0b10100u16,
        pop(0b10100u16) == 2,
        (1u16 << 3u16) | (1u16 << 4u16) == 0b11000u16,
        pop(0b11000u16) == 2,
        (1u16 << 1u16) | (1u16 << 5u16) == 0b100010u16,
        pop(0b100010u16) == 2,
        (1u16 << 2u16) | (1u16 << 5u16) == 0b100100u16,
        pop(0b100100u16) == 2,
        (1u16 << 3u16) | (1u16 << 5u16) == 0b101000u16,
        pop(0b101000u16) == 2,
        (1u16 << 4u16) | (1u16 << 5u16) == 0b110000u16,
        pop(0b110000u16) == 2,
{
}

/// A pattern with a second eye has a first one before it, and its eye
/// mask is exactly those two cells; a mask without exactly two cells set
/// gives no second eye.
pub proof fn lemma_eye2_has_eye1(p: Pattern)
    ensures
        p.eye2_of() matches Some(e2) ==> p.eye1_of() matches Some(e1) && e1 < e2 && p.eyes__ == ((1u16
            << (e1 as u16)) | (1u16 << (e2 as u16))),
        pop(p.eyes__) != 2 ==> p.eye2_of() is None,
{
    lemma_eye_pairs();
}

/// The fewest own stones a row of kind `kind` has.
pub open spec fn min_stones(kind: RowKind) -> int {
    match kind {
        RowKind::Two => 2,
        RowKind::Sword => 3,
        RowKind::Three => 3,
        RowKind::Four => 4,
        RowKind::Five => 5,
        RowKind::Overline => 6,
    }
}

/// The fewest empty cells a row of kind `kind` needs.
pub open spec fn min_blanks(kind: RowKind) -> int {
    match kind {
        RowKind::Two => 4,
        RowKind::Sword => 2,
        RowKind::Three => 3,
        RowKind::Four => 1,
        RowKind::Five => 0,
        RowKind::Overline => 0,
    }
}

/// The number of set bits of the masks in the pattern tables.
proof fn lemma_pattern_pops()
    by (bit_vector)
    ensures
        pop(0b0u16) == 0,
        pop(0b1u16) == 1,
        pop(0b10u16) == 1,
        pop(0b11u16) == 2,
        pop(0b100u16) == 1,
        pop(0b101u16) == 2,
        pop(0b110u16) == 2,
        pop(0b111u16) == 3,
        pop(0b1000u16) == 1,
        pop(0b1001u16) == 2,
        pop(0b1010u16) == 2,
        pop(0b1011u16) == 3,
        pop(0b1100u16) == 2,
        pop(0b1101u16) == 3,
        pop(0b1110u16) == 3,
        pop(0b1111u16) == 4,
        pop(0b10000u16) == 1,
        pop(0b10001u16) == 2,
        pop(0b10010u16) == 2,
        pop(0b10011u16) == 3,
        pop(0b10100u16) == 2,
        pop(0b10101u16) == 3,
        pop(0b10110u16) == 3,
        pop(0b10111u16) == 4,
        pop(0b11000u16) == 2,
        pop(0b11001u16) == 3,
        pop(0b11010u16) == 3,
        pop(0b11011u16) == 4,
        pop(0b11100u16) == 3,
        pop(0b11101u16) == 4,
        pop(0b11110u16) == 4,
        pop(0b11111u16) == 5,
        pop(0b100000u16) == 1,
        pop(0b100010u16) == 2,
        pop(0b100011u16) == 3,
        pop(0b100100u16) == 2,
        pop(0b100101u16) == 3,
        pop(0b100110u16) == 3,
        pop(0b100111u16) == 4,
        pop(0b101000u16) == 2,
        pop(0b101001u16) == 3,
        pop(0b101010u16) == 3,
        pop(0b101011u16) == 4,
        pop(0b101100u16) == 3,
        pop(0b101101u16) == 4,
        pop(0b101110u16) == 4,
        pop(0b110000u16) == 2,
        pop(0b110001u16) == 3,
        pop(0b110010u16) == 3,
        pop(0b110011u16) == 4,
        pop(0b110100u16) == 3,
        pop(0b110101u16) == 4,
        pop(0b110110u16) == 4,
        pop(0b111000u16) == 3,
        pop(0b111001u16) == 4,
        pop(0b111010u16) == 4,
        pop(0b111100u16) == 4,
        pop(0b111110u16) == 5,
        pop(0b111111u16) == 6,
        pop(0b1000110u16) == 3,
        pop(0b1001010u16) == 3,
        pop(0b1001110u16) == 4,
        pop(0b1010010u16) == 3,
        pop(0b1010110u16) == 4,
        pop(0b1011010u16) == 4,
        pop(0b1100010u16) == 3,
        pop(0b1100110u16) == 4,
        pop(0b1101010u16) == 4,
        pop(0b1110010u16) == 4,
{
}

/// Counting set bits: a part of a mask, or a mask shifted, has no more
/// than the mask, and a shift left by one keeps them all when the top bit
/// is clear.
pub proof fn lemma_pop(x: u16, i: u16, f: u16, g: u16)
    by (bit_vector)
    ensures
        pop(x & f) <= pop(x),
        x & f & g == g ==> pop(g) <= pop(x),
        pop(x >> i) <= pop(x),
        x >> 15u16 == 0 ==> pop(x << 1u16) == pop(x),
        pop(0u16) == 0,
        0u16 & 0u16 == 0,
        0u16 >> i == 0,
{
}

/// Every pattern of `player`'s rows of kind `kind` has at least
/// [`min_stones`] stones and [`min_blanks`] empty cells.
proof fn lemma_table_counts(player: Player, kind: RowKind)
    ensures
        table_of(player, kind) matches Some((w, t)) ==> forall|k: int|
            0 <= k < t.len() / 4 ==> pop(#[trigger] pattern_at(t, k).stones) >= min_stones(kind) && pop(
                pattern_at(t, k).blanks,
            ) >= min_blanks(kind),
{
    lemma_pattern_pops();
    match table_of(player, kind) {
        Some((w, t)) => {
            assert forall|k: int| 0 <= k < t.len() / 4 implies pop(#[trigger] pattern_at(t, k).stones)
                >= min_stones(kind) && pop(pattern_at(t, k).blanks) >= min_blanks(kind) by {}
        },
        None => {},
    }
}

/// A pattern found at shift `i` has its stones among `stones` and its
/// empty cells among `blanks`, so the rows of the first `k` patterns need
/// as many of each.
proof fn lemma_rows_at_need(t: Seq<u16>, stones: u16, blanks: u16, i: int, offset: int, k: int, ms: int, mb: int)
    requires
        forall|j: int| 0 <= j < k ==> pop(#[trigger] pattern_at(t, j).stones) >= ms && pop(pattern_at(t, j).blanks) >= mb,
    ensures
        rows_at(t, stones, blanks, i, offset, k).len() > 0 ==> pop(stones) >= ms && pop(blanks) >= mb,
    decreases k,
{
    if k > 0 {
        lemma_rows_at_need(t, stones, blanks, i, offset, k - 1, ms, mb);
        let p = pattern_at(t, k - 1);
        let (st, bl) = (stones >> (i as u16), blanks >> (i as u16));
        if p.matches_spec(st, bl) {
            lemma_pop(st, 0, p.filter, 0);
            lemma_pop(stones, i as u16, 0, 0);
            lemma_pop(bl, 0, p.filter, p.blanks);
            lemma_pop(blanks, i as u16, 0, 0);
        }
    }
}

/// The rows found at the shifts below `n` need as many stones and empty
/// cells as their patterns have.
proof fn lemma_scan_need(w: Window, t: Seq<u16>, stones: u16, blanks: u16, offset: int, n: int, ms: int, mb: int)
    requires
        forall|j: int| 0 <= j < t.len() / 4 ==> pop(#[trigger] pattern_at(t, j).stones) >= ms && pop(pattern_at(t, j).blanks) >= mb,
    ensures
        scan_upto(w, t, stones, blanks, offset, n).len() > 0 ==> pop(stones) >= ms && pop(blanks) >= mb,
    decreases n,
{
    if n > 0 {
        lemma_scan_need(w, t, stones, blanks, offset, n - 1, ms, mb);
        lemma_rows_at_need(t, stones, blanks, n - 1, offset, (t.len() / 4) as int, ms, mb);
    }
}

/// A line holds a row of some kind only with at least [`min_stones`] own
/// stones and [`min_blanks`] empty cells.
pub proof fn lemma_rows_need(player: Player, kind: RowKind, stones: u16, blanks: u16, limit: u8, offset: u8)
    ensures
        rows_spec(player, kind, stones, blanks, limit, offset).len() > 0 ==> pop(stones) >= min_stones(kind)
            && pop(blanks) >= min_blanks(kind),
{
    lemma_table_counts(player, kind);
    match table_of(player, kind) {
        Some((w, t)) => {
            if limit >= w.size {
                lemma_scan_need(w, t, stones, blanks, offset as int, limit - w.size + 1, min_stones(kind), min_blanks(kind));
            }
        },
        None => {},
    }
}

/// The cells of the runs a pattern can span, and the eyes a pattern can
/// mark.
proof fn lemma_run_bits()
    by (bit_vector)
    ensures
        0b1111u16 & 0b11 == 0b11, bit_of(0b1111u16, 0), bit_of(0b1111u16, 3),
        0b11110u16 & 0b11 == 0b10, bit_of(0b11110u16, 1), bit_of(0b11110u16, 4),
        0b111100u16 & 0b11 == 0b0, bit_of(0b111100u16, 2), bit_of(0b111100u16, 5),
        0b11111u16 & 0b11 == 0b11, bit_of(0b11111u16, 0), bit_of(0b11111u16, 4),
        0b111110u16 & 0b11 == 0b10, bit_of(0b111110u16, 1), bit_of(0b111110u16, 5),
        0b1111100u16 & 0b11 == 0b0, bit_of(0b1111100u16, 2), bit_of(0b1111100u16, 6),
        0b111111u16 & 0b11 == 0b11, bit_of(0b111111u16, 0), bit_of(0b111111u16, 5),
        0b1111110u16 & 0b11 == 0b10, bit_of(0b1111110u16, 1), bit_of(0b1111110u16, 6),
        0b11111100u16 & 0b11 == 0b0, bit_of(0b11111100u16, 2), bit_of(0b11111100u16, 7),
        bit_of(0b1u16, 0),
        bit_of(0b10u16, 1),
        bit_of(0b100u16, 2),
        bit_of(0b1000u16, 3),
        bit_of(0b10000u16, 4),
        bit_of(0b100000u16, 5),
        bit_of(0b1000000u16, 6),
        bit_of(0b11u16, 0),
        bit_of(0b101u16, 0),
        bit_of(0b110u16, 1),
        bit_of(0b1001u16, 0),
        bit_of(0b1010u16, 1),
        bit_of(0b1100u16, 2),
        bit_of(0b10001u16, 0),
        bit_of(0b10010u16, 1),
        bit_of(0b10100u16, 2),
        bit_of(0b11000u16, 3),
        bit_of(0b100010u16, 1),
        bit_of(0b100100u16, 2),
        bit_of(0b101000u16, 3),
        bit_of(0b110000u16, 4),
        bit_of(0b11u16, 1),
        bit_of(0b101u16, 2),
        bit_of(0b110u16, 2),
        bit_of(0b1001u16, 3),
        bit_of(0b1010u16, 3),
        bit_of(0b1100u16, 3),
        bit_of(0b10001u16, 4),
        bit_of(0b10010u16, 4),
        bit_of(0b10100u16, 4),
        bit_of(0b11000u16, 4),
        bit_of(0b100010u16, 5),
        bit_of(0b100100u16, 5),
        bit_of(0b101000u16, 5),
        bit_of(0b110000u16, 5),
{
}

/// Reading single cells of masks matched against a pattern.
pub(crate) proof fn lemma_match_bits(x: u16, y: u16, f: u16, ps: u16, pb: u16, pe: u16, i: u16, c: u16)
    by (bit_vector)
    ensures
        (x & f == ps && bit_of(ps, c)) ==> bit_of(x, c),
        (y & f & pb == pb && bit_of(pb, c)) ==> bit_of(y, c),
        bit_of(ps | pb, c) <==> bit_of(ps, c) || bit_of(pb, c),
        (pe & !pb == 0 && bit_of(pe, c)) ==> bit_of(pb, c),
        (c < 16 && i < 16 && bit_of((x << 1u16) >> i, c)) ==> c + i >= 1 && c + i - 1 < 16 && bit_of(
            x,
            (c + i - 1) as u16,
        ),
{
}

/// A row found on a line whose own stones are `x` and empty cells `y`:
/// it ends on a stone or an empty cell, starts no later, and its eyes are
/// empty cells.
pub open spec fn row_fits(r: Row, x: u16, y: u16) -> bool {
    &&& r.start <= r.end
    &&& bit_of(x, r.end as u16) || bit_of(y, r.end as u16)
    &&& r.eye1 matches Some(e) ==> bit_of(y, e as u16)
    &&& r.eye2 matches Some(e) ==> bit_of(y, e as u16)
}

/// The row of a pattern matched at shift `i` of a line with one cell of
/// margin fits the line.
proof fn lemma_row_at_fits(p: Pattern, x: u16, y: u16, i: int)
    requires
        pattern_ok(p),
        0 <= i < 16,
        p.matches_spec((x << 1u16) >> (i as u16), (y << 1u16) >> (i as u16)),
    ensures
        row_fits(row_at(p, i, 1), x, y),
{
    let (st, bl) = ((x << 1u16) >> (i as u16), (y << 1u16) >> (i as u16));
    lemma_run_bits();
    let all = p.stones | p.blanks;
    let e = p.end_of();
    lemma_match_bits(st, bl, p.filter, p.stones, p.blanks, p.eyes__, i as u16, e as u16);
    lemma_match_bits(x, y, 0, 0, 0, 0, i as u16, e as u16);
    lemma_match_bits(y, x, 0, 0, 0, 0, i as u16, e as u16);
    if i == 0 {
        lemma_shift_zero(x << 1u16, y << 1u16, x, y);
        lemma_low_bit(st, bl, p.filter, p.stones, p.blanks, p.eyes__);
    }
    match p.eye1_of() {
        Some(c) => {
            lemma_match_bits(st, bl, p.filter, p.stones, p.blanks, p.eyes__, i as u16, c as u16);
            lemma_match_bits(y, x, 0, 0, 0, 0, i as u16, c as u16);
        },
        None => {},
    }
    match p.eye2_of() {
        Some(c) => {
            lemma_match_bits(st, bl, p.filter, p.stones, p.blanks, p.eyes__, i as u16, c as u16);
            lemma_match_bits(y, x, 0, 0, 0, 0, i as u16, c as u16);
        },
        None => {},
    }
}

/// Every row the first `k` patterns give at shift `i` fits the line.
proof fn lemma_rows_at_fit(t: Seq<u16>, x: u16, y: u16, i: int, k: int)
    requires
        forall|j: int| 0 <= j < k ==> #[trigger] pattern_ok(pattern_at(t, j)),
        0 <= i < 16,
    ensures
        forall|m: int|
            0 <= m < rows_at(t, x << 1u16, y << 1u16, i, 1, k).len() ==> row_fits(
                #[trigger] rows_at(t, x << 1u16, y << 1u16, i, 1, k)[m],
                x,
                y,
            ),
    decreases k,
{
    if k > 0 {
        lemma_rows_at_fit(t, x, y, i, k - 1);
        let p = pattern_at(t, k - 1);
        assert(pattern_ok(p));
        if p.matches_spec((x << 1u16) >> (i as u16), (y << 1u16) >> (i as u16)) {
            lemma_row_at_fits(p, x, y, i);
        }
        let rest = rows_at(t, x << 1u16, y << 1u16, i, 1, k - 1);
        let all = rows_at(t, x << 1u16, y << 1u16, i, 1, k);
        assert forall|m: int| 0 <= m < all.len() implies row_fits(#[trigger] all[m], x, y) by {
            if m < rest.len() {
                assert(all[m] == rest[m]);
            }
        }
    }
}

/// Every row found at the shifts below `n` fits the line.
proof fn lemma_scan_fit(w: Window, t: Seq<u16>, x: u16, y: u16, n: int)
    requires
        table_ok(t),
        n <= 16,
    ensures
        forall|m: int|
            0 <= m < scan_upto(w, t, x << 1u16, y << 1u16, 1, n).len() ==> row_fits(
                #[trigger] scan_upto(w, t, x << 1u16, y << 1u16, 1, n)[m],
                x,
                y,
            ),
    decreases n,
{
    if n > 0 {
        lemma_scan_fit(w, t, x, y, n - 1);
        lemma_rows_at_fit(t, x, y, n - 1, (t.len() / 4) as int);
        let rest = scan_upto(w, t, x << 1u16, y << 1u16, 1, n - 1);
        let more = rows_at(t, x << 1u16, y << 1u16, n - 1, 1, (t.len() / 4) as int);
        let all = scan_upto(w, t, x << 1u16, y << 1u16, 1, n);
        assert forall|m: int| 0 <= m < all.len() implies row_fits(#[trigger] all[m], x, y) by {
            if m < rest.len() {
                assert(all[m] == rest[m]);
            } else {
                assert(all[m] == more[m - rest.len()]);
            }
        }
    }
}

/// Every row found on a line with one cell of margin on each side fits
/// the line.
pub proof fn lemma_rows_fit(player: Player, kind: RowKind, x: u16, y: u16, size: u8)
    requires
        size <= 15,
    ensures
        forall|m: int|
            0 <= m < rows_spec(player, kind, x << 1u16, y << 1u16, (size + 2) as u8, 1).len() ==> row_fits(
                #[trigger] rows_spec(player, kind, x << 1u16, y << 1u16, (size + 2) as u8, 1)[m],
                x,
                y,
            ),
{
    lemma_tables_ok(player, kind);
    match table_of(player, kind) {
        Some((w, t)) => {
            if size + 2 >= w.size {
                lemma_scan_fit(w, t, x, y, size + 2 - w.size + 1);
            }
        },
        None => {},
    }
}

/// The rows of the first `k` patterns at shift `i` have a first eye when
/// the patterns do.
proof fn lemma_rows_at_eyes(t: Seq<u16>, stones: u16, blanks: u16, i: int, offset: int, k: int)
    requires
        forall|j: int| 0 <= j < k ==> (#[trigger] pattern_at(t, j)).eye1_of() is Some,
    ensures
        forall|m: int|
            0 <= m < rows_at(t, stones, blanks, i, offset, k).len() ==> (#[trigger] rows_at(
                t,
                stones,
                blanks,
                i,
                offset,
                k,
            )[m]).eye1 is Some,
    decreases k,
{
    if k > 0 {
        lemma_rows_at_eyes(t, stones, blanks, i, offset, k - 1);
        assert(pattern_at(t, k - 1).eye1_of() is Some);
    }
}

/// The rows found at the shifts below `n` have a first eye when the
/// patterns do.
proof fn lemma_scan_eyes(w: Window, t: Seq<u16>, stones: u16, blanks: u16, offset: int, n: int)
    requires
        forall|j: int| 0 <= j < t.len() / 4 ==> (#[trigger] pattern_at(t, j)).eye1_of() is Some,
    ensures
        forall|m: int|
            0 <= m < scan_upto(w, t, stones, blanks, offset, n).len() ==> (#[trigger] scan_upto(
                w,
                t,
                stones,
                blanks,
                offset,
                n,
            )[m]).eye1 is Some,
    decreases n,
{
    if n > 0 {
        lemma_scan_eyes(w, t, stones, blanks, offset, n - 1);
        lemma_rows_at_eyes(t, stones, blanks, n - 1, offset, (t.len() / 4) as int);
    }
}

/// Every three has an eye.
pub proof fn lemma_threes_have_eyes(player: Player, stones: u16, blanks: u16, limit: u8, offset: u8)
    ensures
        forall|m: int|
            0 <= m < rows_spec(player, RowKind::Three, stones, blanks, limit, offset).len()
                ==> (#[trigger] rows_spec(player, RowKind::Three, stones, blanks, limit, offset)[m]).eye1 is Some,
{
    match table_of(player, RowKind::Three) {
        Some((w, t)) => {
            assert forall|j: int| 0 <= j < t.len() / 4 implies (#[trigger] pattern_at(t, j)).eye1_of() is Some by {}
            if limit >= w.size {
                lemma_scan_eyes(w, t, stones, blanks, offset as int, limit - w.size + 1);
            }
        },
        None => {},
    }
}

/// The row pattern `p` gives at shift `i`, less `offset`.
pub open spec fn row_at(p: Pattern, i: int, offset: int) -> Row {
    Row {
        start: (p.start_of() + i - offset) as u8,
        end: (p.end_of() + i - offset) as u8,
        eye1: match p.eye1_of() {
            Some(e) => Some((e + i - offset) as u8),
            None => None,
        },
        eye2: match p.eye2_of() {
            Some(e) => Some((e + i - offset) as u8),
            None => None,
        },
    }
}

/// The rows the first `k` patterns of `t` give at shift `i`.
pub open spec fn rows_at(t: Seq<u16>, stones: u16, blanks: u16, i: int, offset: int, k: int) -> Seq<Row>
    decreases k,
{
    if k <= 0 {
        Seq::empty()
    } else {
        let rest = rows_at(t, stones, blanks, i, offset, k - 1);
        let p = pattern_at(t, k - 1);
        if p.matches_spec(stones >> (i as u16), blanks >> (i as u16)) {
            rest.push(row_at(p, i, offset))
        } else {
            rest
        }
    }
}

/// The rows found at the shifts below `n`.
pub open spec fn scan_upto(w: Window, t: Seq<u16>, stones: u16, blanks: u16, offset: int, n: int) -> Seq<Row>
    decreases n,
{
    if n <= 0 {
        Seq::empty()
    } else {
        let rest = scan_upto(w, t, stones, blanks, offset, n - 1);
        let i = n - 1;
        if w.satisfies_spec(stones >> (i as u16), blanks >> (i as u16)) {
            rest + rows_at(t, stones, blanks, i, offset, (t.len() / 4) as int)
        } else {
            rest
        }
    }
}

/// The rows of the patterns `t` over the windows of a line of `limit`
/// cells, shift by shift and pattern by pattern, moved back by `offset`.
pub open spec fn scan_spec(w: Window, t: Seq<u16>, stones: u16, blanks: u16, limit: u8, offset: u8) -> Seq<Row> {
    if limit < w.size {
        Seq::empty()
    } else {
        scan_upto(w, t, stones, blanks, offset as int, limit - w.size + 1)
    }
}

/// [`scan_rows`] as a spec function.
pub open spec fn rows_spec(player: Player, kind: RowKind, stones: u16, blanks: u16, limit: u8, offset: u8) -> Seq<Row> {
    match table_of(player, kind) {
        Some((w, t)) => scan_spec(w, t, stones, blanks, limit, offset),
        None => Seq::empty(),
    }
}

/// The rows of kind `kind` for `player` in a line whose own stones are
/// `stones` and empty cells `blanks`, over its first `limit` cells, their
/// positions moved back by `offset`.
pub fn scan_rows(player: Player, kind: RowKind, stones: u16, blanks: u16, limit: u8, offset: u8) -> (res: Vec<Row>)
    requires
        offset <= 1,
        offset == 1 ==> stones & 1 == 0 && blanks & 1 == 0,
        table_of(player, kind) matches Some((w, t)) ==> limit < w.size + 16,
    ensures
        res@ == rows_spec(player, kind, stones, blanks, limit, offset),
{
    proof {
        lemma_tables_ok(player, kind);
    }
    match player {
        Player::Black => match kind {
            RowKind::Two => scan(&Window { size: 8, target: 0b01111110 }, &B_TWOS, stones, blanks, limit, offset),
            RowKind::Sword => scan(&Window { size: 7, target: 0b0111110 }, &B_SWORDS, stones, blanks, limit, offset),
            RowKind::Three => scan(&Window { size: 8, target: 0b01111110 }, &B_THREES, stones, blanks, limit, offset),
            RowKind::Four => scan(&Window { size: 7, target: 0b0111110 }, &B_FOURS, stones, blanks, limit, offset),
            RowKind::Five => scan(&Window { size: 7, target: 0b0111110 }, &B_FIVES, stones, blanks, limit, offset),
            RowKind::Overline => scan(&Window { size: 6, target: 0b111111 }, &B_OVERLINES, stones, blanks, limit, offset),
        },
        Player::White => match kind {
            RowKind::Two => scan(&Window { size: 6, target: 0b111111 }, &W_TWOS, stones, blanks, limit, offset),
            RowKind::Sword => scan(&Window { size: 5, target: 0b11111 }, &W_SWORDS, stones, blanks, limit, offset),
            RowKind::Three => scan(&Window { size: 6, target: 0b111111 }, &W_THREES, stones, blanks, limit, offset),
            RowKind::Four => scan(&Window { size: 5, target: 0b11111 }, &W_FOURS, stones, blanks, limit, offset),
            RowKind::Five => scan(&Window { size: 5, target: 0b11111 }, &W_FIVES, stones, blanks, limit, offset),
            _ => Vec::new(),
        },
    }
}

/// Pattern `k` of a table.
fn pattern_of(t: &[u16], k: usize) -> (res: Pattern)
    requires
        4 * k + 3 < t@.len(),
        t@.len() < 1000,
    ensures
        res == pattern_at(t@, k as int),
{
    Pattern { filter: t[4 * k], stones: t[4 * k + 1], blanks: t[4 * k + 2], eyes__: t[4 * k + 3] }
}

/// The rows of the patterns `patterns` found through the windows of a
/// line of `limit` cells.
fn scan(window: &Window, patterns: &[u16], stones: u16, blanks: u16, limit: u8, offset: u8) -> (res: Vec<Row>)
    requires
        table_ok(patterns@),
        5 <= window.size <= 8,
        offset <= 1,
        offset == 1 ==> stones & 1 == 0 && blanks & 1 == 0,
        limit < window.size + 16,
    ensures
        res@ == scan_spec(*window, patterns@, stones, blanks, limit, offset),
{
    let mut result: Vec<Row> = Vec::new();
    let size = window.size;
    if limit < size {
        return result;
    }
    let n = patterns.len() / 4;
    let mut i: u8 = 0;
    while i <= limit - size
        invariant
            table_ok(patterns@),
            5 <= size <= 8,
            size == window.size,
            size <= limit < size + 16,
            offset <= 1,
            offset == 1 ==> stones & 1 == 0 && blanks & 1 == 0,
            n == patterns@.len() / 4,
            i <= limit - size + 1,
            result@ == scan_upto(*window, patterns@, stones, blanks, offset as int, i as int),
        decreases limit - size + 1 - i,
    {
        let st = stones >> i as u16;
        let bl = blanks >> i as u16;
        if window.satisfies(st, bl) {
            let ghost before = result@;
            let mut k: usize = 0;
            while k < n
                invariant
                    table_ok(patterns@),
                    n == patterns@.len() / 4,
                    i < 16,
                    offset <= 1,
                    offset == 1 ==> stones & 1 == 0 && blanks & 1 == 0,
                    st == stones >> (i as u16),
                    bl == blanks >> (i as u16),
                    k <= n,
                    result@ == before + rows_at(patterns@, stones, blanks, i as int, offset as int, k as int),
                decreases n - k,
            {
                assert(4 * k + 3 < patterns@.len());
                let p = pattern_of(patterns, k);
                if p.matches(st, bl) {
                    assert(pattern_ok(pattern_at(patterns@, k as int)));
                    proof {
                        if i == 0 && offset == 1 {
                            lemma_shift_zero(stones, blanks, stones, blanks);
                            lemma_low_bit(st, bl, p.filter, p.stones, p.blanks, p.eyes__);
                        }
                    }
                    let e1 = match p.eye1() {
                        Some(e) => Some(e + i - offset),
                        None => None,
                    };
                    let e2 = match p.eye2() {
                        Some(e) => Some(e + i - offset),
                        None => None,
                    };
                    result.push(Row { start: p.start() + i - offset, end: p.end() + i - offset, eye1: e1, eye2: e2 });
                    assert(result@ =~= before + rows_at(patterns@, stones, blanks, i as int, offset as int, k + 1));
                }
                k += 1;
            }
        }
        i += 1;
    }
    result
}

} // verus!
