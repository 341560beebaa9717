use vstd::prelude::*;
use super::player::Player;
use super::point::{max_j, Index, Point};
use super::sequence::{Double, Open, Sequence, SequenceKind, Single};
use super::util::positions;

verus! {

/// The shapes a search looks for, each found as one kind of
/// [`Sequence`]: see [`StructureKind::to_sequence`].
#[derive(Debug, PartialEq, Eq, Clone, Copy, Structural)]
pub enum StructureKind {
    Two,
    Three,
    Straight,
    Sword,
    Four,
    Five,
    Overlining,
    Overlined,
}

impl StructureKind {
    /// [`Self::to_sequence`] as a spec function.
    pub open spec fn sequence_of(self, r: Player) -> (SequenceKind, u8, bool) {
        let exact = r == super::player::Black;
        match self {
            StructureKind::Two => (Open, 2, exact),
            StructureKind::Three => (Open, 3, exact),
            StructureKind::Straight => (Open, 4, exact),
            StructureKind::Sword => (Single, 3, exact),
            StructureKind::Four => (Single, 4, exact),
            StructureKind::Five => (Single, 5, exact),
            StructureKind::Overlining => (Double, 4, false),
            StructureKind::Overlined => (Double, 5, false),
        }
    }

    /// How `r`'s structures of this kind are found: the kind of sequence,
    /// the stones in each window, and whether a window next to an own
    /// stone is left out.
    ///
    /// Black's five must be exactly five, so a window next to an own stone
    /// is excluded (`exact`). Overline kinds look for precisely such
    /// windows, so they are never exact.
    pub fn to_sequence(&self, r: Player) -> (res: (SequenceKind, u8, bool))
        ensures
            res == self.sequence_of(r),
    {
        let exact = r.is_black();
        match self {
            StructureKind::Two => (Open, 2, exact),
            StructureKind::Three => (Open, 3, exact),
            StructureKind::Straight => (Open, 4, exact),
            StructureKind::Sword => (Single, 3, exact),
            StructureKind::Four => (Single, 4, exact),
            StructureKind::Five => (Single, 5, exact),
            StructureKind::Overlining => (Double, 4, false),
            StructureKind::Overlined => (Double, 5, false),
        }
    }
}

/// A sequence found on the board: where its window starts, and the
/// window's stones.
#[derive(Debug, PartialEq, Eq, Clone, Copy, Structural)]
pub struct Structure {
    pub start: Index,
    pub sequence: Sequence,
}

/// The points `offsets` cells along the line from `start`.
pub open spec fn points_along(start: Index, offsets: Seq<u8>) -> Seq<Point> {
    offsets.map_values(|k: u8| Index { d: start.d, i: start.i, j: (start.j + k) as u8 }.point_of())
}

/// Whether the five cells from `start` are all on the board.
pub open spec fn window_on_board(start: Index) -> bool {
    start.valid() && start.j + 4 <= max_j(start.d, start.i as int)
}

/// The points `offsets` (all below 5) cells along the line from `start`.
pub(crate) fn points_from(start: Index, offsets: &Vec<u8>) -> (res: Vec<Point>)
    requires
        window_on_board(start),
        forall|k: int| 0 <= k < offsets@.len() ==> #[trigger] offsets@[k] < 5,
    ensures
        res@ == points_along(start, offsets@),
{
    let idx = start.mapped(offsets.as_slice());
    let mut res: Vec<Point> = Vec::new();
    let mut k: usize = 0;
    while k < idx.len()
        invariant
            window_on_board(start),
            idx@.len() == offsets@.len(),
            forall|m: int| 0 <= m < offsets@.len() ==> #[trigger] offsets@[m] < 5,
            forall|m: int|
                0 <= m < offsets@.len() ==> #[trigger] idx@[m] == (Index {
                    d: start.d,
                    i: start.i,
                    j: (start.j + offsets@[m]) as u8,
                }),
            k <= idx@.len(),
            res@ == points_along(start, offsets@).take(k as int),
        decreases idx@.len() - k,
    {
        assert(idx@[k as int].valid()) by {
            assert(offsets@[k as int] < 5);
        }
        res.push(idx[k].to_point());
        assert(points_along(start, offsets@).take(k + 1) =~= points_along(start, offsets@).take(
            k as int,
        ).push(idx@[k as int].point_of()));
        k += 1;
    }
    assert(points_along(start, offsets@).take(k as int) =~= points_along(start, offsets@));
    res
}

impl Structure {
    pub fn new(start: Index, sequence: Sequence) -> (res: Self)
        ensures
            res == (Structure { start, sequence }),
    {
        Self { start, sequence }
    }

    pub fn start_index(&self) -> (res: Index)
        ensures
            res == self.start,
    {
        self.start
    }

    /// The first point of the window.
    pub fn start(&self) -> (res: Point)
        requires
            self.start.valid(),
        ensures
            res == self.start.point_of(),
    {
        self.start.to_point()
    }

    /// The points of the window holding a stone.
    pub fn stones(&self) -> (res: Vec<Point>)
        requires
            window_on_board(self.start),
            self.sequence.0 < 32,
        ensures
            res@ == points_along(self.start, positions(self.sequence.0 as u16, 5)),
    {
        let offsets = self.sequence.stones();
        proof {
            super::util::lemma_positions(self.sequence.0 as u16, 5);
        }
        points_from(self.start, &offsets)
    }

    /// The empty points of the window, where the player still has to play.
    pub fn eyes(&self) -> (res: Vec<Point>)
        requires
            window_on_board(self.start),
            self.sequence.0 < 32,
        ensures
            res@ == points_along(self.start, positions((!self.sequence.0 & 0b11111) as u16, 5)),
    {
        let offsets = self.sequence.eyes();
        proof {
            super::util::lemma_positions((!self.sequence.0 & 0b11111) as u16, 5);
        }
        points_from(self.start, &offsets)
    }
}

} // verus!
