//! Patterns that, where they match a window of a line, give the segment of
//! a row: where it starts and ends, and its eyes.
use vstd::prelude::*;

verus! {

/// One way a row can look over a window of cells: the cells looked at
/// (`filter`), which of them hold own stones, which must be empty, and
/// which of the empty ones are the eyes.
pub struct Pattern {
    pub filter: u16,
    pub stones: u16,
    pub blanks: u16,
    pub eyes__: u16,
}

/// A row found on a line: the cells it spans and its eyes.
#[derive(Debug)]
pub struct Segment {
    pub start: u8,
    pub end: u8,
    pub eyes: Vec<u8>,
}

impl Pattern {
    /// Whether the stones and empty cells given, from the window's first
    /// cell on, are those of the pattern.
    pub open spec fn matches_spec(self, stones: u16, blanks: u16) -> bool {
        (stones & self.filter == self.stones) && (blanks & self.filter & self.blanks == self.blanks)
    }

    /// The row's first cell within the window.
    pub open spec fn start_cell(self) -> int {
        let low = (self.stones | self.blanks) & 0b11;
        if low == 0b11 {
            0
        } else if low == 0b10 {
            1
        } else if low == 0b00 {
            2
        } else {
            0
        }
    }

    /// The row's last cell within the window.
    pub open spec fn end_cell(self) -> int {
        let all = self.stones | self.blanks;
        if all == 0b1111 {
            3
        } else if all == 0b11110 {
            4
        } else if all == 0b111100 {
            5
        } else if all == 0b11111 {
            4
        } else if all == 0b111110 {
            5
        } else if all == 0b1111100 {
            6
        } else if all == 0b111111 {
            5
        } else if all == 0b1111110 {
            6
        } else if all == 0b11111100 {
            7
        } else {
            0
        }
    }

    /// The row's eyes within the window: the one eye marked, if exactly
    /// one cell is.
    pub open spec fn eye_cells(self) -> Seq<int> {
        let e = self.eyes__;
        if e == 0b1 {
            seq![0]
        } else if e == 0b10 {
            seq![1]
        } else if e == 0b100 {
            seq![2]
        } else if e == 0b1000 {
            seq![3]
        } else if e == 0b10000 {
            seq![4]
        } else if e == 0b100000 {
            seq![5]
        } else if e == 0b1000000 {
            seq![6]
        } else {
            Seq::empty()
        }
    }

    /// [`Self::size`] as a spec function.
    pub open spec fn size_spec(self) -> u8 {
        if self.filter == 0b11111 {
            5
        } else if self.filter == 0b111111 {
            6
        } else if self.filter == 0b1111111 {
            7
        } else if self.filter == 0b11111111 {
            8
        } else {
            0
        }
    }

    /// Where the pattern matches the stones and empty cells given, the
    /// segment of its row, with every cell moved by `segment_offset`.
    pub fn matches(&self, stones: u16, blanks: u16, segment_offset: i8) -> (res: Option<Segment>)
        requires
            segment_offset <= 120,
        ensures
            res is Some <==> self.matches_spec(stones, blanks),
            res matches Some(s) ==> {
                &&& s.start == (self.start_cell() + segment_offset) as u8
                &&& s.end == (self.end_cell() + segment_offset) as u8
                &&& s.eyes@ == self.eye_cells().map_values(|e: int| (e + segment_offset) as u8)
            },
    {
        if (stones & self.filter == self.stones) && (blanks & self.filter & self.blanks == self.blanks) {
            Some(Segment {
                start: self.start(segment_offset),
                end: self.end(segment_offset),
                eyes: self.eyes(segment_offset),
            })
        } else {
            None
        }
    }

    /// How many cells the pattern's window has, from its filter: 5 to 8,
    /// or 0 for a filter that is no window.
    pub fn size(&self) -> (res: u8)
        ensures
            res == self.size_spec(),
    {
        match self.filter {
            0b11111 => 5,
            0b111111 => 6,
            0b1111111 => 7,
            0b11111111 => 8,
            _ => 0,
        }
    }

    fn start(&self, offset: i8) -> (res: u8)
        requires
            offset <= 120,
        ensures
            res == (self.start_cell() + offset) as u8,
    {
        let result: i8 = match (self.stones | self.blanks) & 0b11 {
            0b11 => 0,
            0b10 => 1,
            0b00 => 2,
            _ => 0,
        };
        (result + offset) as u8
    }

    fn end(&self, offset: i8) -> (res: u8)
        requires
            offset <= 120,
        ensures
            res == (self.end_cell() + offset) as u8,
    {
        let result: i8 = match self.stones | self.blanks {
            0b1111 => 3,
            0b11110 => 4,
            0b111100 => 5,
            0b11111 => 4,
            0b111110 => 5,
            0b1111100 => 6,
            0b111111 => 5,
            0b1111110 => 6,
            0b11111100 => 7,
            _ => 0,
        };
        (result + offset) as u8
    }

    fn eyes(&self, offset: i8) -> (res: Vec<u8>)
        requires
            offset <= 120,
        ensures
            res@ == self.eye_cells().map_values(|e: int| (e + offset) as u8),
    {
        let cell: i8 = match self.eyes__ {
            0b1 => 0,
            0b10 => 1,
            0b100 => 2,
            0b1000 => 3,
            0b10000 => 4,
            0b100000 => 5,
            0b1000000 => 6,
            _ => -1,
        };
        let res = if cell < 0 {
            Vec::new()
        } else {
            vec![(cell + offset) as u8]
        };
        assert(res@ =~= self.eye_cells().map_values(|e: int| (e + offset) as u8));
        res
    }
}

/// The pattern with the given masks.
pub open spec fn pattern_of(filter: u16, stones: u16, blanks: u16, eyes: u16) -> Pattern {
    Pattern { filter, stones, blanks, eyes__: eyes }
}

/// Black's fours: four stones and the empty cell that makes them five, with no own stone on either side.
pub open spec fn black_fours_spec() -> Seq<Pattern> {
    seq![
        pattern_of(0b1111111, 0b0011110, 0b0100000, 0b0100000),
        pattern_of(0b1111111, 0b0101110, 0b0010000, 0b0010000),
        pattern_of(0b1111111, 0b0110110, 0b0001000, 0b0001000),
        pattern_of(0b1111111, 0b0111010, 0b0000100, 0b0000100),
        pattern_of(0b1111111, 0b0111100, 0b0000010, 0b0000010),
    ]
}

/// Black's fours: four stones and the empty cell that makes them five, with no own stone on either side.
pub fn black_fours() -> (res: Vec<Pattern>)
    ensures
        res@ == black_fours_spec(),
{
    let mut res: Vec<Pattern> = Vec::new();
    res.push(Pattern { filter: 0b1111111, stones: 0b0011110, blanks: 0b0100000, eyes__: 0b0100000 });
    res.push(Pattern { filter: 0b1111111, stones: 0b0101110, blanks: 0b0010000, eyes__: 0b0010000 });
    res.push(Pattern { filter: 0b1111111, stones: 0b0110110, blanks: 0b0001000, eyes__: 0b0001000 });
    res.push(Pattern { filter: 0b1111111, stones: 0b0111010, blanks: 0b0000100, eyes__: 0b0000100 });
    res.push(Pattern { filter: 0b1111111, stones: 0b0111100, blanks: 0b0000010, eyes__: 0b0000010 });
    assert(res@ =~= black_fours_spec());
    res
}

/// Black's five: five stones in a row, with no own stone on either side.
pub open spec fn black_fives_spec() -> Seq<Pattern> {
    seq![
        pattern_of(0b1111111, 0b0111110, 0b0000000, 0b0000000),
    ]
}

/// Black's five: five stones in a row, with no own stone on either side.
pub fn black_fives() -> (res: Vec<Pattern>)
    ensures
        res@ == black_fives_spec(),
{
    let mut res: Vec<Pattern> = Vec::new();
    res.push(Pattern { filter: 0b1111111, stones: 0b0111110, blanks: 0b0000000, eyes__: 0b0000000 });
    assert(res@ =~= black_fives_spec());
    res
}

/// Black's overline: six stones in a row.
pub open spec fn black_overlines_spec() -> Seq<Pattern> {
    seq![
        pattern_of(0b111111, 0b111111, 0b000000, 0b000000),
    ]
}

/// Black's overline: six stones in a row.
pub fn black_overlines() -> (res: Vec<Pattern>)
    ensures
        res@ == black_overlines_spec(),
{
    let mut res: Vec<Pattern> = Vec::new();
    res.push(Pattern { filter: 0b111111, stones: 0b111111, blanks: 0b000000, eyes__: 0b000000 });
    assert(res@ =~= black_overlines_spec());
    res
}

/// White's fours: four stones and the empty cell that makes them five.
pub open spec fn white_fours_spec() -> Seq<Pattern> {
    seq![
        pattern_of(0b11111, 0b01111, 0b10000, 0b10000),
        pattern_of(0b11111, 0b10111, 0b01000, 0b01000),
        pattern_of(0b11111, 0b11011, 0b00100, 0b00100),
        pattern_of(0b11111, 0b11101, 0b00010, 0b00010),
        pattern_of(0b11111, 0b11110, 0b00001, 0b00001),
    ]
}

/// White's fours: four stones and the empty cell that makes them five.
pub fn white_fours() -> (res: Vec<Pattern>)
    ensures
        res@ == white_fours_spec(),
{
    let mut res: Vec<Pattern> = Vec::new();
    res.push(Pattern { filter: 0b11111, stones: 0b01111, blanks: 0b10000, eyes__: 0b10000 });
    res.push(Pattern { filter: 0b11111, stones: 0b10111, blanks: 0b01000, eyes__: 0b01000 });
    res.push(Pattern { filter: 0b11111, stones: 0b11011, blanks: 0b00100, eyes__: 0b00100 });
    res.push(Pattern { filter: 0b11111, stones: 0b11101, blanks: 0b00010, eyes__: 0b00010 });
    res.push(Pattern { filter: 0b11111, stones: 0b11110, blanks: 0b00001, eyes__: 0b00001 });
    assert(res@ =~= white_fours_spec());
    res
}

/// White's five: five stones in a row.
pub open spec fn white_fives_spec() -> Seq<Pattern> {
    seq![
        pattern_of(0b11111, 0b11111, 0b00000, 0b00000),
    ]
}

/// White's five: five stones in a row.
pub fn white_fives() -> (res: Vec<Pattern>)
    ensures
        res@ == white_fives_spec(),
{
    let mut res: Vec<Pattern> = Vec::new();
    res.push(Pattern { filter: 0b11111, stones: 0b11111, blanks: 0b00000, eyes__: 0b00000 });
    assert(res@ =~= white_fives_spec());
    res
}

} // verus!
