//! Patterns of stones and empty cells, and the eyes they mark on a line.
use vstd::prelude::*;

verus! {

/// One way a shape can look over a window of cells: the cells looked at
/// (`filter`), which of them hold own stones, which must be empty, and
/// which of the empty ones are the eyes.
pub struct Pattern {
    pub filter: u16,
    pub stones: u16,
    pub blanks: u16,
    pub eyes__: u16,
}

impl Pattern {
    /// [`Self::matches`] as a spec function.
    pub open spec fn matches_spec(self, stones: u16, blanks: u16) -> bool {
        (stones & self.filter == self.stones) && (blanks & self.filter & self.blanks == self.blanks)
    }

    /// Whether the stones and empty cells given, from the window's first
    /// cell on, are those of the pattern.
    pub fn matches(&self, stones: u16, blanks: u16) -> (res: bool)
        ensures
            res == self.matches_spec(stones, blanks),
    {
        (stones & self.filter == self.stones) && (blanks & self.filter & self.blanks == self.blanks)
    }

    /// [`Self::size`] as a spec function.
    pub open spec fn size_spec(self) -> u8 {
        if self.filter == 0b11111 {
            5
        } else if self.filter == 0b111111 {
            6
        } else if self.filter == 0b1111111 {
            7
        } else if self.filter == 0b11111111 {
            8
        } else {
            0
        }
    }

    /// How many cells the pattern's window has, from its filter: 5 to 8,
    /// or 0 for a filter that is no window.
    pub fn size(&self) -> (res: u8)
        ensures
            res == self.size_spec(),
    {
        match self.filter {
            0b11111 => 5,
            0b111111 => 6,
            0b1111111 => 7,
            0b11111111 => 8,
            _ => 0,
        }
    }
}

/// `acc` with the eyes of `p` added at each of the first `n` shifts where
/// it matches.
pub open spec fn eyes_acc(acc: u16, p: Pattern, stones: u16, blanks: u16, n: int) -> u16
    decreases n,
{
    if n <= 0 {
        acc
    } else {
        let a = eyes_acc(acc, p, stones, blanks, n - 1);
        let i = (n - 1) as u16;
        if p.matches_spec(stones >> i, blanks >> i) {
            a | (p.eyes__ << i)
        } else {
            a
        }
    }
}

/// The eyes the first `k` patterns of `ps` mark over a line of `limit`
/// cells, pattern by pattern and shift by shift.
pub open spec fn scan_eyes_upto(ps: Seq<Pattern>, stones: u16, blanks: u16, limit: u8, k: int) -> u16
    decreases k,
{
    if k <= 0 {
        0
    } else {
        let r = scan_eyes_upto(ps, stones, blanks, limit, k - 1);
        let p = ps[k - 1];
        if limit < p.size_spec() {
            r
        } else {
            eyes_acc(r, p, stones, blanks, limit - p.size_spec() + 1)
        }
    }
}

/// The eyes, as a mask, that the patterns `ps` mark where they match a
/// line whose own stones are `stones` and empty cells `blanks`, over its
/// first `limit` cells.
pub fn scan_eyes(ps: &[Pattern], stones: u16, blanks: u16, limit: u8) -> (res: u16)
    requires
        forall|k: int| 0 <= k < ps@.len() ==> limit < (#[trigger] ps@[k]).size_spec() + 16,
    ensures
        res == scan_eyes_upto(ps@, stones, blanks, limit, ps@.len() as int),
{
    let mut result: u16 = 0b0;
    let mut k: usize = 0;
    while k < ps.len()
        invariant
            k <= ps@.len(),
            forall|m: int| 0 <= m < ps@.len() ==> limit < (#[trigger] ps@[m]).size_spec() + 16,
            result == scan_eyes_upto(ps@, stones, blanks, limit, k as int),
        decreases ps@.len() - k,
    {
        let p = &ps[k];
        assert(limit < p.size_spec() + 16);
        let psize = p.size();
        if limit >= psize {
            let ghost before = result;
            let mut i: u8 = 0;
            while i <= limit - psize
                invariant
                    psize == p.size_spec(),
                    psize <= limit < psize + 16,
                    i <= limit - psize + 1,
                    result == eyes_acc(before, *p, stones, blanks, i as int),
                decreases limit - psize + 1 - i,
            {
                if p.matches(stones >> i, blanks >> i) {
                    result = result | (p.eyes__ << i);
                }
                i += 1;
            }
        }
        k += 1;
    }
    result
}

} // verus!
