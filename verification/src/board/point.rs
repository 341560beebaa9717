use vstd::prelude::*;

verus! {

/// The number of points along each side of the board.
pub const RANGE: u8 = 15;

/// One of the four directions of a line on the board.
#[derive(Debug, PartialEq, Eq, Clone, Copy, Structural)]
pub enum Direction {
    Vertical,
    Horizontal,
    Ascending,
    Descending,
}

pub use Direction::{Ascending, Descending, Horizontal, Vertical};

/// A point of the board: column `0`, row `1`, both from 0 (`A1` is
/// `Point(0, 0)`).
#[derive(Debug, PartialEq, Eq, Clone, Copy, Hash, Structural)]
pub struct Point(pub u8, pub u8);

/// A point seen along direction `d`: cell `j` of the `i`-th line in that
/// direction.
///
/// Vertical line `i` is column `i`, counted from the bottom; horizontal line
/// `i` is row `i`, counted from the left. Ascending line `i` holds the
/// points with `x - y == i - 14`, descending line `i` those with
/// `x + y == i`, each counted from its left end.
#[derive(Debug, PartialEq, Eq, Clone, Copy, Structural)]
pub struct Index {
    pub d: Direction,
    pub i: u8,
    pub j: u8,
}

impl Point {
    /// Whether the point is on the board.
    pub open spec fn valid(self) -> bool {
        self.0 < RANGE && self.1 < RANGE
    }

    /// [`Self::to_index`] as a spec function.
    pub open spec fn index_of(self, d: Direction) -> Index {
        let (x, y) = (self.0 as int, self.1 as int);
        let n = RANGE - 1;
        match d {
            Vertical => Index { d: Vertical, i: x as u8, j: y as u8 },
            Horizontal => Index { d: Horizontal, i: y as u8, j: x as u8 },
            Ascending => {
                let i = x + n - y;
                Index { d: Ascending, i: i as u8, j: (if i < n { x } else { y }) as u8 }
            },
            Descending => {
                let i = x + y;
                Index { d: Descending, i: i as u8, j: (if i < n { x } else { n - y }) as u8 }
            },
        }
    }

    /// Where the point is along direction `d`.
    pub fn to_index(&self, d: Direction) -> (res: Index)
        requires
            self.valid(),
        ensures
            res == self.index_of(d),
            res.valid(),
    {
        let (x, y) = (self.0, self.1);
        let n = RANGE - 1;
        match d {
            Vertical => Index::new(Vertical, x, y),
            Horizontal => Index::new(Horizontal, y, x),
            Ascending => {
                let i = x + n - y;
                let j = if i < n {
                    x
                } else {
                    y
                };
                Index::new(Ascending, i, j)
            },
            Descending => {
                let i = x + y;
                let j = if i < n {
                    x
                } else {
                    n - y
                };
                Index::new(Descending, i, j)
            },
        }
    }
}

/// The last cell of line `i` in direction `d`, as a spec function.
pub open spec fn max_j(d: Direction, i: int) -> int {
    let n = RANGE - 1;
    match d {
        Vertical | Horizontal => n as int,
        _ => if i < n { i } else { 2 * n - i },
    }
}

impl Index {
    /// Whether the index names a point of the board.
    pub open spec fn valid(self) -> bool {
        let n = RANGE - 1;
        &&& match self.d {
            Vertical | Horizontal => self.i <= n,
            _ => self.i <= 2 * n,
        }
        &&& self.j <= max_j(self.d, self.i as int)
    }

    /// [`Self::to_point`] as a spec function.
    pub open spec fn point_of(self) -> Point {
        let n = RANGE - 1;
        let (i, j) = (self.i as int, self.j as int);
        match self.d {
            Vertical => Point(i as u8, j as u8),
            Horizontal => Point(j as u8, i as u8),
            Ascending => Point(
                (if i < n { j } else { i + j - n }) as u8,
                (if i < n { n - i + j } else { j }) as u8,
            ),
            Descending => Point(
                (if i < n { j } else { i + j - n }) as u8,
                (if i < n { i - j } else { n - j }) as u8,
            ),
        }
    }

    pub fn new(d: Direction, i: u8, j: u8) -> (res: Self)
        ensures
            res == (Index { d, i, j }),
    {
        Self { d, i, j }
    }

    /// The point this index names.
    pub fn to_point(&self) -> (res: Point)
        requires
            self.valid(),
        ensures
            res == self.point_of(),
            res.valid(),
    {
        let n = RANGE - 1;
        let (i, j) = (self.i, self.j);
        match self.d {
            Vertical => Point(i, j),
            Horizontal => Point(j, i),
            Ascending => {
                let x = if i < n {
                    j
                } else {
                    i + j - n
                };
                let y = if i < n {
                    n - i + j
                } else {
                    j
                };
                Point(x, y)
            },
            Descending => {
                let x = if i < n {
                    j
                } else {
                    i + j - n
                };
                let y = if i < n {
                    i - j
                } else {
                    n - j
                };
                Point(x, y)
            },
        }
    }

    /// The cell `step` cells further along the same line.
    pub fn walk(&self, step: u8) -> (res: Self)
        requires
            self.j + step <= u8::MAX,
        ensures
            res == (Index { d: self.d, i: self.i, j: (self.j + step) as u8 }),
    {
        Self::new(self.d, self.i, self.j + step)
    }

    /// The cell `step` cells along the same line, either way, if it is on
    /// the line.
    pub fn walk_checked(&self, step: i8) -> (res: Option<Self>)
        requires
            self.i <= 2 * (RANGE - 1),
            self.j <= i8::MAX,
            i8::MIN <= self.j + step <= i8::MAX,
        ensures
            res == (if 0 <= self.j + step <= max_j(self.d, self.i as int) {
                Some(Index { d: self.d, i: self.i, j: (self.j + step) as u8 })
            } else {
                None
            }),
    {
        let j = self.j as i8 + step;
        if 0 <= j && j <= self.maxj() as i8 {
            Some(Self::new(self.d, self.i, j as u8))
        } else {
            None
        }
    }

    /// The cells `steps[k]` cells further along the line, in order.
    pub fn mapped(&self, steps: &[u8]) -> (res: Vec<Self>)
        requires
            forall|k: int| 0 <= k < steps@.len() ==> self.j + #[trigger] steps@[k] <= u8::MAX,
        ensures
            res@.len() == steps@.len(),
            forall|k: int|
                0 <= k < steps@.len() ==> #[trigger] res@[k] == (Index {
                    d: self.d,
                    i: self.i,
                    j: (self.j + steps@[k]) as u8,
                }),
    {
        let mut res: Vec<Self> = Vec::new();
        let mut k: usize = 0;
        while k < steps.len()
            invariant
                k <= steps@.len(),
                res@.len() == k,
                forall|m: int| 0 <= m < steps@.len() ==> self.j + #[trigger] steps@[m] <= u8::MAX,
                forall|m: int|
                    0 <= m < k ==> #[trigger] res@[m] == (Index {
                        d: self.d,
                        i: self.i,
                        j: (self.j + steps@[m]) as u8,
                    }),
            decreases steps@.len() - k,
        {
            res.push(self.walk(steps[k]));
            k += 1;
        }
        res
    }

    /// The last cell of the line.
    pub fn maxj(&self) -> (res: u8)
        requires
            self.i <= 2 * (RANGE - 1),
        ensures
            res == max_j(self.d, self.i as int),
    {
        let n = RANGE - 1;
        let i = self.i;
        match self.d {
            Vertical | Horizontal => n,
            _ => {
                if i < n {
                    i
                } else {
                    2 * n - i
                }
            },
        }
    }
}

/// A point's index along any direction names the point again.
pub proof fn lemma_point_index_roundtrip(p: Point, d: Direction)
    requires
        p.valid(),
    ensures
        p.index_of(d).valid(),
        p.index_of(d).point_of() == p,
{
}

/// An index of the board names a point whose index along the same
/// direction is the index again.
pub proof fn lemma_index_point_roundtrip(idx: Index)
    requires
        idx.valid(),
    ensures
        idx.point_of().valid(),
        idx.point_of().index_of(idx.d) == idx,
{
}

/// A list of points, as moves or as one player's stones.
#[derive(Debug)]
pub struct Points(pub Vec<Point>);

impl Points {
    pub fn into_vec(self) -> (res: Vec<Point>)
        ensures
            res@ == self.0@,
    {
        self.0
    }
}

} // verus!
