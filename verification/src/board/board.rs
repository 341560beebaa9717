use vstd::prelude::*;
use super::forbidden::{forbidden_spec, forbidden_strict_spec, forbiddens_spec, ForbiddenKind};
use super::line::{potentials_below, Line};
use super::player::{Black, Player, White};
use super::point::{Direction, Index, Point, Points};
use super::row::{Row, RowKind};
use super::segment::VICTORY;
use super::square::{
    directions, key_line, line_size, neighbors_fit, rows_text, stone_of_lists, stored, Square, SquareModel,
    LINE_NUM,
};
use super::structure::{Structure, StructureKind};
use super::zobrist::{
    apply, code_of, lemma_xor, lemma_hash_agree, lemma_hash_change, lemma_hash_empty, lemma_point_at,
    lemma_toggled_xor, position_hash, stone_code, toggled, EMPTY_CODE,
};

verus! {

/// A position: the stones, and the hash of the position kept up to date
/// move by move.
pub struct Board {
    square: Square,
    z_hash: u64,
}

/// What a [`Board`] holds: its lines and its hash.
pub struct BoardModel {
    pub square: SquareModel,
    pub hash: u64,
}

/// The hash a board keeps is the one [`Board::from_stones`] gives for its
/// stones listed in code order, Black's then White's: a board reached by
/// any puts and removes hashes as one built from its stones afresh.
pub proof fn lemma_hash_from_own_stones(b: BoardModel)
    requires
        b.wf(),
        b.hashed(),
    ensures
        b.hash == toggled(
            toggled(EMPTY_CODE, Black, b.square.points_with(Some(Black), 225)),
            White,
            b.square.points_with(Some(White), 225),
        ),
{
    let g = b.square;
    let bs = g.points_with(Some(Black), 225);
    let ws = g.points_with(Some(White), 225);
    g.lemma_points_with(Some(Black), 225);
    g.lemma_points_with(Some(White), 225);
    assert(bs.no_duplicates()) by {
        assert forall|i: int, j: int| 0 <= i < j < bs.len() implies bs[i] != bs[j] by {
            assert(bs[i].0 * 15 + bs[i].1 < bs[j].0 * 15 + bs[j].1);
        }
    }
    assert(ws.no_duplicates()) by {
        assert forall|i: int, j: int| 0 <= i < j < ws.len() implies ws[i] != ws[j] by {
            assert(ws[i].0 * 15 + ws[i].1 < ws[j].0 * 15 + ws[j].1);
        }
    }
    assert forall|k: int| 0 <= k < bs.len() implies !ws.contains(#[trigger] bs[k]) by {
        if ws.contains(bs[k]) {
            let m = choose|m: int| 0 <= m < ws.len() && ws[m] == bs[k];
            assert(g.stone_at(ws[m]) == Some(White));
        }
    }
    assert forall|k: int| 0 <= k < bs.len() implies (#[trigger] bs[k]).valid() by {}
    assert forall|k: int| 0 <= k < ws.len() implies (#[trigger] ws[k]).valid() by {}
    lemma_lists_hash(bs, ws);
    let f = |p: Point| stone_of_lists(bs, ws, p);
    assert forall|p: Point| p.valid() implies #[trigger] f(p) == b.stones_fn()(p) by {
        if ws.contains(p) {
            let m = choose|m: int| 0 <= m < ws.len() && ws[m] == p;
            assert(g.stone_at(ws[m]) == Some(White));
        } else if bs.contains(p) {
            let m = choose|m: int| 0 <= m < bs.len() && bs[m] == p;
            assert(g.stone_at(bs[m]) == Some(Black));
        } else {
            assert(p.0 * 15 + p.1 < 225);
            if g.stone_at(p) == Some(White) {
                assert(ws.contains(p));
            }
            if g.stone_at(p) == Some(Black) {
                assert(bs.contains(p));
            }
        }
    }
    lemma_hash_agree(f, b.stones_fn(), 225);
}

/// Two hashed boards with the same stones have the same hash: taking a
/// stone off and putting it back gives the hash back, whatever came
/// between.
pub proof fn lemma_same_stones_same_hash(a: BoardModel, b: BoardModel)
    requires
        a.hashed(),
        b.hashed(),
        forall|p: Point| p.valid() ==> #[trigger] a.stone_at(p) == b.stone_at(p),
    ensures
        a.hash == b.hash,
{
    assert forall|p: Point| p.valid() implies #[trigger] a.stones_fn()(p) == b.stones_fn()(p) by {
        assert(a.stone_at(p) == b.stone_at(p));
    }
    lemma_hash_agree(a.stones_fn(), b.stones_fn(), 225);
}

impl View for Board {
    type V = BoardModel;

    closed spec fn view(&self) -> BoardModel {
        BoardModel { square: self.square@, hash: self.z_hash }
    }
}

/// The potentials of line `i` in direction `d` for `r`, as
/// [`Line::potentials`] gives them, each cell named by its index; nothing
/// where the line's cap is below `min`.
pub open spec fn line_potentials(d: Direction, i: int, line: Line, r: Player, min: u8) -> Seq<
    (Index, u8),
> {
    if line.cap_of(r) >= min {
        potentials_below(line, r, min, line.size as nat).map_values(
            |x: (u8, u8)| (Index { d, i: i as u8, j: x.0 }, x.1),
        )
    } else {
        Seq::empty()
    }
}

impl BoardModel {
    /// The lines are well formed.
    pub open spec fn wf(self) -> bool {
        self.square.wf()
    }

    /// The stone on `p`.
    pub open spec fn stone_at(self, p: Point) -> Option<Player> {
        self.square.stone_at(p)
    }

    /// The stone on each point.
    pub open spec fn stones_fn(self) -> spec_fn(Point) -> Option<Player> {
        |p: Point| self.square.stone_at(p)
    }

    /// The board after `r`'s stone is put on `p`: the lines have it, and
    /// the hash has lost the stone that was there and gained the new one.
    pub open spec fn put_spec(self, r: Player, p: Point) -> BoardModel {
        BoardModel {
            square: self.square.set_spec(p, Some(r)),
            hash: (self.hash ^ stone_code(self.stone_at(p), p)) ^ code_of(r, p),
        }
    }

    /// The board after `p` is emptied: the hash has lost the stone that
    /// was there.
    pub open spec fn remove_spec(self, p: Point) -> BoardModel {
        BoardModel {
            square: self.square.set_spec(p, None),
            hash: self.hash ^ stone_code(self.stone_at(p), p),
        }
    }

    /// The kept hash is the hash of the stones on the board.
    pub open spec fn hashed(self) -> bool {
        self.hash == position_hash(self.stones_fn())
    }

    /// [`Board::potentials`] over the first `n` stored lines.
    pub open spec fn potentials_upto(self, r: Player, min: u8, n: int) -> Seq<(Index, u8)>
        decreases n,
    {
        if n <= 0 {
            Seq::empty()
        } else {
            let (d, i) = key_line(n - 1);
            self.potentials_upto(r, min, n - 1) + line_potentials(
                d,
                i,
                self.square.line_spec(d, i),
                r,
                min,
            )
        }
    }

    /// [`Board::potentials_along`] over the first `n` directions.
    pub open spec fn potentials_along_upto(self, p: Point, r: Player, min: u8, n: int) -> Seq<
        (Index, u8),
    >
        decreases n,
    {
        if n <= 0 {
            Seq::empty()
        } else {
            let rest = self.potentials_along_upto(p, r, min, n - 1);
            let idx = p.index_of(directions()[n - 1]);
            if stored(idx.d, idx.i as int) {
                rest + line_potentials(
                    idx.d,
                    idx.i as int,
                    self.square.line_spec(idx.d, idx.i as int),
                    r,
                    min,
                )
            } else {
                rest
            }
        }
    }
}

/// The hash of the stones listed is the hash of the position they make,
/// when no list repeats a point and no point is in both.
pub proof fn lemma_lists_hash(blacks: Seq<Point>, whites: Seq<Point>)
    requires
        forall|k: int| 0 <= k < blacks.len() ==> (#[trigger] blacks[k]).valid(),
        forall|k: int| 0 <= k < whites.len() ==> (#[trigger] whites[k]).valid(),
        blacks.no_duplicates(),
        whites.no_duplicates(),
        forall|k: int| 0 <= k < blacks.len() ==> !whites.contains(#[trigger] blacks[k]),
    ensures
        toggled(toggled(EMPTY_CODE, Black, blacks), White, whites) == position_hash(
            |p: Point| stone_of_lists(blacks, whites, p),
        ),
    decreases blacks.len() + whites.len(),
{
    let f = |p: Point| stone_of_lists(blacks, whites, p);
    if whites.len() > 0 {
        let q = whites.last();
        let ws = whites.drop_last();
        assert forall|k: int| 0 <= k < blacks.len() implies !ws.contains(#[trigger] blacks[k]) by {
            if ws.contains(blacks[k]) {
                let m = choose|m: int| 0 <= m < ws.len() && ws[m] == blacks[k];
                assert(whites[m] == blacks[k]);
            }
        }
        assert(ws.no_duplicates()) by {
            assert forall|i: int, j: int| 0 <= i < ws.len() && 0 <= j < ws.len() && i != j implies ws[i] != ws[j] by {
                assert(whites[i] == ws[i] && whites[j] == ws[j]);
            }
        }
        lemma_lists_hash(blacks, ws);
        let g = |p: Point| stone_of_lists(blacks, ws, p);
        assert(!ws.contains(q)) by {
            if ws.contains(q) {
                let m = choose|m: int| 0 <= m < ws.len() && ws[m] == q;
                assert(whites[m] == whites[whites.len() - 1]);
            }
        }
        assert(!blacks.contains(q)) by {
            if blacks.contains(q) {
                let m = choose|m: int| 0 <= m < blacks.len() && blacks[m] == q;
                assert(whites.contains(blacks[m]));
            }
        }
        assert(whites.contains(q)) by {
            assert(whites[whites.len() - 1] == q);
        }
        assert forall|p: Point| p.valid() && p != q implies #[trigger] g(p) == f(p) by {
            if whites.contains(p) {
                let m = choose|m: int| 0 <= m < whites.len() && whites[m] == p;
                assert(ws[m] == p);
            }
            if ws.contains(p) {
                let m = choose|m: int| 0 <= m < ws.len() && ws[m] == p;
                assert(whites[m] == p);
            }
        }
        lemma_point_at(q);
        lemma_hash_change(g, f, q, 225);
        let b = toggled(EMPTY_CODE, Black, blacks);
        let a = toggled(b, White, ws);
        lemma_xor(a, code_of(White, q), 0);
    } else if blacks.len() > 0 {
        let q = blacks.last();
        let bs = blacks.drop_last();
        assert(bs.no_duplicates()) by {
            assert forall|i: int, j: int| 0 <= i < bs.len() && 0 <= j < bs.len() && i != j implies bs[i] != bs[j] by {
                assert(blacks[i] == bs[i] && blacks[j] == bs[j]);
            }
        }
        lemma_lists_hash(bs, whites);
        let g = |p: Point| stone_of_lists(bs, whites, p);
        assert(!bs.contains(q)) by {
            if bs.contains(q) {
                let m = choose|m: int| 0 <= m < bs.len() && bs[m] == q;
                assert(blacks[m] == blacks[blacks.len() - 1]);
            }
        }
        assert(blacks.contains(q)) by {
            assert(blacks[blacks.len() - 1] == q);
        }
        assert forall|p: Point| p.valid() && p != q implies #[trigger] g(p) == f(p) by {
            if blacks.contains(p) {
                let m = choose|m: int| 0 <= m < blacks.len() && blacks[m] == p;
                assert(bs[m] == p);
            }
            if bs.contains(p) {
                let m = choose|m: int| 0 <= m < bs.len() && bs[m] == p;
                assert(blacks[m] == p);
            }
        }
        lemma_point_at(q);
        lemma_hash_change(g, f, q, 225);
        let a = toggled(EMPTY_CODE, Black, bs);
        lemma_xor(a, code_of(Black, q), 0);
    } else {
        lemma_hash_empty(f, 225);
    }
}

/// The potentials of `line`, line `i` in direction `d`, as
/// [`line_potentials`] lists them.
fn indexed_potentials(d: Direction, i: u8, line: &Line, r: Player, min: u8) -> (res: Vec<(Index, u8)>)
    requires
        line.wf(),
        VICTORY <= line.size,
    ensures
        res@ == line_potentials(d, i as int, *line, r, min),
{
    let mut res: Vec<(Index, u8)> = Vec::new();
    if line.potential_cap(r) < min {
        return res;
    }
    let found = line.potentials(r, min);
    let ghost target = found@.map_values(|x: (u8, u8)| (Index { d, i, j: x.0 }, x.1));
    let mut k: usize = 0;
    while k < found.len()
        invariant
            k <= found@.len(),
            target == found@.map_values(|x: (u8, u8)| (Index { d, i, j: x.0 }, x.1)),
            res@ == target.take(k as int),
        decreases found@.len() - k,
    {
        let (j, v) = found[k];
        res.push((Index { d, i, j }, v));
        assert(res@ == target.take(k + 1));
        k += 1;
    }
    assert(target.take(k as int) == target);
    res
}

impl Board {
    /// The well-formedness of the lines.
    pub open spec fn wf(&self) -> bool {
        self@.wf()
    }

    /// An empty board.
    pub fn new() -> (res: Self)
        ensures
            res@.wf(),
            forall|p: Point| p.valid() ==> #[trigger] res@.stone_at(p) is None,
            res@.hash == EMPTY_CODE,
            res@.hashed(),
    {
        let res = Board { square: Square::new(), z_hash: super::zobrist::new() };
        proof {
            lemma_hash_empty(res@.stones_fn(), 225);
        }
        res
    }

    /// The board with `blacks` and `whites` on it; a point in both lists
    /// holds a white stone. The hash toggles each stone listed in turn, so
    /// it is the hash of the position when no point is listed twice.
    pub fn from_stones(blacks: &Points, whites: &Points) -> (res: Self)
        requires
            forall|k: int| 0 <= k < blacks.0@.len() ==> (#[trigger] blacks.0@[k]).valid(),
            forall|k: int| 0 <= k < whites.0@.len() ==> (#[trigger] whites.0@[k]).valid(),
        ensures
            res@.wf(),
            forall|p: Point| p.valid() ==> #[trigger] res@.stone_at(p) == stone_of_lists(blacks.0@, whites.0@, p),
            res@.hash == toggled(toggled(EMPTY_CODE, Black, blacks.0@), White, whites.0@),
            blacks.0@.no_duplicates() && whites.0@.no_duplicates() && (forall|k: int|
                0 <= k < blacks.0@.len() ==> !whites.0@.contains(#[trigger] blacks.0@[k])) ==> res@.hashed(),
    {
        let square = Square::from_stones(blacks, whites);
        let z_hash = super::zobrist::from_points(blacks, whites);
        let res = Board { square, z_hash };
        proof {
            if blacks.0@.no_duplicates() && whites.0@.no_duplicates() && (forall|k: int|
                0 <= k < blacks.0@.len() ==> !whites.0@.contains(#[trigger] blacks.0@[k])) {
                lemma_lists_hash(blacks.0@, whites.0@);
                lemma_hash_agree(|p: Point| stone_of_lists(blacks.0@, whites.0@, p), res@.stones_fn(), 225);
            }
        }
        res
    }

    /// Puts `r`'s stone on `p`, replacing whatever was there; the hash
    /// loses the stone that was there and gains the new one.
    pub fn put_mut(&mut self, r: Player, p: Point)
        requires
            old(self)@.wf(),
            p.valid(),
        ensures
            final(self)@ == old(self)@.put_spec(r, p),
            final(self)@.wf(),
            final(self)@.stone_at(p) == Some(r),
            forall|q: Point| q.valid() && q != p ==> #[trigger] final(self)@.stone_at(q) == old(self)@.stone_at(q),
            old(self)@.hashed() ==> final(self)@.hashed(),
    {
        let ghost before = self@;
        if let Some(previous) = self.stone(p) {
            self.update_z_hash(previous, p);
        } else {
            proof {
                lemma_xor(self.z_hash, 0, 0);
            }
        }
        self.square.put_mut(r, p);
        self.update_z_hash(r, p);
        proof {
            lemma_point_at(p);
            lemma_hash_change(before.stones_fn(), self@.stones_fn(), p, 225);
            let a = before.hash;
            let x = stone_code(before.stone_at(p), p);
            lemma_xor(a, x, code_of(r, p));
        }
    }

    /// Takes the stone off `p`, if there is one; the hash loses it.
    pub fn remove_mut(&mut self, p: Point)
        requires
            old(self)@.wf(),
            p.valid(),
        ensures
            final(self)@ == old(self)@.remove_spec(p),
            final(self)@.wf(),
            final(self)@.stone_at(p) is None,
            forall|q: Point| q.valid() && q != p ==> #[trigger] final(self)@.stone_at(q) == old(self)@.stone_at(q),
            old(self)@.hashed() ==> final(self)@.hashed(),
    {
        let ghost before = self@;
        if let Some(r) = self.stone(p) {
            self.update_z_hash(r, p);
        } else {
            proof {
                lemma_xor(self.z_hash, 0, 0);
            }
        }
        self.square.remove_mut(p);
        proof {
            lemma_point_at(p);
            lemma_hash_change(before.stones_fn(), self@.stones_fn(), p, 225);
            let a = before.hash;
            let x = stone_code(before.stone_at(p), p);
            lemma_xor(a, x, 0);
        }
    }

    /// A copy of the board.
    pub fn duplicate(&self) -> (res: Self)
        ensures
            res@ == self@,
    {
        Board { square: self.square.duplicate(), z_hash: self.z_hash }
    }

    /// A copy of the board with `r`'s stone on `p`.
    pub fn put(&self, r: Player, p: Point) -> (res: Self)
        requires
            self@.wf(),
            p.valid(),
        ensures
            res@ == self@.put_spec(r, p),
            res@.wf(),
            res@.stone_at(p) == Some(r),
            forall|q: Point| q.valid() && q != p ==> #[trigger] res@.stone_at(q) == self@.stone_at(q),
            self@.hashed() ==> res@.hashed(),
    {
        let mut result = self.duplicate();
        result.put_mut(r, p);
        result
    }

    /// A copy of the board with `p` emptied.
    pub fn remove(&self, p: Point) -> (res: Self)
        requires
            self@.wf(),
            p.valid(),
        ensures
            res@ == self@.remove_spec(p),
            res@.wf(),
            res@.stone_at(p) is None,
            forall|q: Point| q.valid() && q != p ==> #[trigger] res@.stone_at(q) == self@.stone_at(q),
            self@.hashed() ==> res@.hashed(),
    {
        let mut result = self.duplicate();
        result.remove_mut(p);
        result
    }

    /// The stone on `p`.
    pub fn stone(&self, p: Point) -> (res: Option<Player>)
        requires
            self@.wf(),
            p.valid(),
        ensures
            res == self@.stone_at(p),
    {
        self.square.stone(p)
    }

    /// `r`'s stones, in code order.
    pub fn stones(&self, r: Player) -> (res: Vec<Point>)
        requires
            self@.wf(),
        ensures
            res@ == self@.square.points_with(Some(r), 225),
    {
        self.square.stones(r)
    }

    /// The empty points, in code order.
    pub fn empties(&self) -> (res: Vec<Point>)
        requires
            self@.wf(),
        ensures
            res@ == self@.square.points_with(None, 225),
    {
        self.square.empties()
    }

    /// The points within `distance` of `p` along the four directions, as
    /// [`Square::neighbors`] lists them.
    pub fn neighbors(&self, p: Point, distance: u8, only_empty: bool) -> (res: Vec<Point>)
        requires
            self@.wf(),
            p.valid(),
            neighbors_fit(p, distance as int),
        ensures
            res@ == self@.square.neighbors_spec(p, distance as int, only_empty),
    {
        self.square.neighbors(p, distance, only_empty)
    }

    /// Stored line `i` in direction `d`.
    pub fn line(&self, d: Direction, i: u8) -> (res: Option<&Line>)
        requires
            self@.wf(),
        ensures
            res is Some <==> stored(d, i as int),
            res matches Some(l) ==> *l == self@.square.line_spec(d, i as int),
    {
        self.square.line(d, i)
    }

    /// The stored line through `p` in direction `d`.
    pub fn line_on(&self, p: Point, d: Direction) -> (res: Option<&Line>)
        requires
            self@.wf(),
            p.valid(),
        ensures
            res is Some <==> stored(d, p.index_of(d).i as int),
            res matches Some(l) ==> *l == self@.square.line_spec(d, p.index_of(d).i as int),
    {
        self.square.line_on(p, d)
    }

    /// Every stored line, as `(direction, i, line)`.
    pub fn lines(&self) -> (res: Vec<(Direction, u8, Line)>)
        requires
            self@.wf(),
        ensures
            res@.len() == LINE_NUM,
            forall|k: int|
                0 <= k < LINE_NUM ==> #[trigger] res@[k] == (
                    key_line(k).0,
                    key_line(k).1 as u8,
                    self@.square.line_spec(key_line(k).0, key_line(k).1),
                ),
    {
        self.square.lines()
    }

    /// The stored lines through `p`.
    pub fn lines_on(&self, p: Point) -> (res: Vec<(Direction, u8, Line)>)
        requires
            self@.wf(),
            p.valid(),
        ensures
            res@ == self@.square.lines_on_spec(p),
    {
        self.square.lines_on(p)
    }

    /// `r`'s rows of kind `k` with `p` among their cells, as
    /// [`Square::rows_on`] lists them.
    pub fn rows_on(&self, p: Point, r: Player, k: RowKind) -> (res: Vec<Row>)
        requires
            self@.wf(),
            p.valid(),
        ensures
            res@ == self@.square.rows_on_upto(p, r, k, 4),
    {
        self.square.rows_on(p, r, k)
    }

    /// `r`'s structures of kind `k`.
    pub fn structures(&self, r: Player, k: StructureKind) -> (res: Vec<Structure>)
        requires
            self@.wf(),
        ensures
            res@ == self@.square.structures_upto(r, k, LINE_NUM as int),
    {
        self.square.structures(r, k)
    }

    /// `r`'s structures of kind `k` through `p`.
    pub fn structures_on(&self, p: Point, r: Player, k: StructureKind) -> (res: Vec<Structure>)
        requires
            self@.wf(),
            p.valid(),
        ensures
            res@ == self@.square.structures_on_upto(p, r, k, 4),
    {
        self.square.structures_on(p, r, k)
    }

    /// The potential of each empty point along each stored line for `r`,
    /// as [`Line::potentials`] gives it, line by line; lines whose cap is
    /// below `min` are skipped.
    pub fn potentials(&self, r: Player, min: u8) -> (res: Vec<(Index, u8)>)
        requires
            self@.wf(),
        ensures
            res@ == self@.potentials_upto(r, min, LINE_NUM as int),
    {
        let mut res: Vec<(Index, u8)> = Vec::new();
        let mut n: usize = 0;
        while n < LINE_NUM
            invariant
                self@.wf(),
                n <= LINE_NUM,
                res@ == self@.potentials_upto(r, min, n as int),
            decreases LINE_NUM - n,
        {
            let (d, i) = Square::line_of_key(n);
            let l = self.square.line(d, i).unwrap();
            assert(l.wf() && l.size == line_size(d, i as int));
            let mut found = indexed_potentials(d, i, l, r, min);
            res.append(&mut found);
            n += 1;
        }
        res
    }

    /// [`Self::potentials`] on the stored lines through `p`.
    pub fn potentials_along(&self, p: Point, r: Player, min: u8) -> (res: Vec<(Index, u8)>)
        requires
            self@.wf(),
            p.valid(),
        ensures
            res@ == self@.potentials_along_upto(p, r, min, 4),
    {
        let mut res: Vec<(Index, u8)> = Vec::new();
        let dirs = [Direction::Vertical, Direction::Horizontal, Direction::Ascending, Direction::Descending];
        let mut n: usize = 0;
        while n < 4
            invariant
                self@.wf(),
                p.valid(),
                n <= 4,
                dirs@ == directions(),
                res@ == self@.potentials_along_upto(p, r, min, n as int),
            decreases 4 - n,
        {
            let idx = p.to_index(dirs[n]);
            if let Some(l) = self.square.line(idx.d, idx.i) {
                assert(l.wf() && l.size == line_size(idx.d, idx.i as int));
                let mut found = indexed_potentials(idx.d, idx.i, l, r, min);
                res.append(&mut found);
            }
            n += 1;
        }
        res
    }

    /// The board drawn with coordinates, as [`Square::to_pretty_string`]
    /// draws it.
    pub fn to_pretty_string(&self) -> (res: String)
        requires
            self@.wf(),
        ensures
            res@ == super::square::pretty_text(self@.square),
    {
        self.square.to_pretty_string()
    }

    /// Black's forbidden points, with why each is forbidden.
    pub fn forbiddens(&self) -> (res: Vec<(ForbiddenKind, Point)>)
        requires
            self@.wf(),
        ensures
            res@ == forbiddens_spec(self@.square, self@.square.points_with(None, 225)),
    {
        super::forbidden::forbiddens(&self.square)
    }

    /// Why `p` is forbidden to Black, if it is, judging three threes
    /// strictly.
    pub fn forbidden_strict(&self, p: Point) -> (res: Option<ForbiddenKind>)
        requires
            self@.wf(),
            p.valid(),
        ensures
            res == forbidden_strict_spec(self@.square, p),
    {
        super::forbidden::forbidden_strict(&self.square, p)
    }

    /// Why `p` is forbidden to Black, if it is.
    pub fn forbidden(&self, p: Point) -> (res: Option<ForbiddenKind>)
        requires
            self@.wf(),
            p.valid(),
        ensures
            res == forbidden_spec(self@.square, p),
    {
        super::forbidden::forbidden(&self.square, p)
    }

    /// The kept hash of the position.
    pub fn zobrist_hash(&self) -> (res: u64)
        ensures
            res == self@.hash,
    {
        self.z_hash
    }

    fn update_z_hash(&mut self, r: Player, p: Point)
        requires
            p.valid(),
        ensures
            final(self)@.square == old(self)@.square,
            final(self)@.hash == old(self)@.hash ^ code_of(r, p),
    {
        self.z_hash = apply(self.z_hash, r, p);
    }

    /// The board as rows of ` o`, ` x` and ` .`, the top row first.
    pub fn to_string(&self) -> (res: String)
        requires
            self@.wf(),
        ensures
            res@ == rows_text(self@.square, 15),
    {
        self.square.to_string()
    }

    /// Reads a board as [`Square::parse`] does; the hash is that of the
    /// stones read.
    pub fn parse(s: &str) -> (res: Result<Board, &'static str>)
        ensures
            res is Ok <==> super::square::parse_ok(s@),
            res matches Ok(b) ==> b@.wf() && b@.hashed(),
            res matches Ok(b) ==> forall|p: Point|
                p.valid() ==> #[trigger] b@.stone_at(p) == super::square::parsed_stone(s@, p),
            res matches Err(e) ==> e@ == super::square::parse_error(s@),
    {
        let square = match Square::parse(s) {
            Ok(sq) => sq,
            Err(e) => {
                return Err(e);
            },
        };
        let blacks = Points(square.stones(Black));
        let whites = Points(square.stones(White));
        proof {
            let g = square@;
            g.lemma_points_with(Some(Black), 225);
            g.lemma_points_with(Some(White), 225);
            let bs = blacks.0@;
            let ws = whites.0@;
            assert(bs.no_duplicates()) by {
                assert forall|i: int, j: int| 0 <= i < bs.len() && 0 <= j < bs.len() && i != j implies bs[i] != bs[j] by {
                    if i < j {
                        assert(bs[i].0 * 15 + bs[i].1 < bs[j].0 * 15 + bs[j].1);
                    } else {
                        assert(bs[j].0 * 15 + bs[j].1 < bs[i].0 * 15 + bs[i].1);
                    }
                }
            }
            assert(ws.no_duplicates()) by {
                assert forall|i: int, j: int| 0 <= i < ws.len() && 0 <= j < ws.len() && i != j implies ws[i] != ws[j] by {
                    if i < j {
                        assert(ws[i].0 * 15 + ws[i].1 < ws[j].0 * 15 + ws[j].1);
                    } else {
                        assert(ws[j].0 * 15 + ws[j].1 < ws[i].0 * 15 + ws[i].1);
                    }
                }
            }
            assert forall|k: int| 0 <= k < bs.len() implies !ws.contains(#[trigger] bs[k]) by {
                if ws.contains(bs[k]) {
                    let m = choose|m: int| 0 <= m < ws.len() && ws[m] == bs[k];
                    assert(g.stone_at(ws[m]) == Some(White));
                }
            }
            assert forall|p: Point| p.valid() implies #[trigger] stone_of_lists(bs, ws, p) == g.stone_at(p) by {
                assert(p.0 * 15 + p.1 < 225) by (nonlinear_arith)
                    requires
                        0 <= p.0 < 15,
                        0 <= p.1 < 15,
                ;
                if ws.contains(p) {
                    let m = choose|m: int| 0 <= m < ws.len() && ws[m] == p;
                    assert(g.stone_at(ws[m]) == Some(White));
                } else if bs.contains(p) {
                    let m = choose|m: int| 0 <= m < bs.len() && bs[m] == p;
                    assert(g.stone_at(bs[m]) == Some(Black));
                } else {
                    match g.stone_at(p) {
                        Some(Black) => {
                            assert(bs.contains(p));
                        },
                        Some(White) => {
                            assert(ws.contains(p));
                        },
                        None => {},
                    }
                }
            }
            g.lemma_points_valid(Some(Black), 225);
            g.lemma_points_valid(Some(White), 225);
        }
        let z_hash = super::zobrist::from_points(&blacks, &whites);
        let res = Board { square, z_hash };
        proof {
            lemma_lists_hash(blacks.0@, whites.0@);
            lemma_hash_agree(|p: Point| stone_of_lists(blacks.0@, whites.0@, p), res@.stones_fn(), 225);
        }
        Ok(res)
    }
}

/// Putting a stone on an empty point and taking it off again gives back
/// the stones and the hash.
pub proof fn lemma_put_then_remove(b: BoardModel, r: Player, p: Point)
    requires
        b.wf(),
        p.valid(),
        b.stone_at(p) is None,
    ensures
        b.put_spec(r, p).remove_spec(p).hash == b.hash,
        forall|q: Point| q.valid() ==> #[trigger] b.put_spec(r, p).remove_spec(p).stone_at(q) == b.stone_at(q),
{
    super::square::lemma_set_spec(b.square, p, Some(r));
    super::square::lemma_set_spec(b.put_spec(r, p).square, p, None);
    let h = b.hash;
    lemma_xor(h, 0, 0);
    lemma_xor(h, code_of(r, p), 0);
}

/// Two stones put on two different points in either order give the same
/// stones and the same hash.
pub proof fn lemma_put_commutes(b: BoardModel, r1: Player, p1: Point, r2: Player, p2: Point)
    requires
        b.wf(),
        p1.valid(),
        p2.valid(),
        p1 != p2,
    ensures
        b.put_spec(r1, p1).put_spec(r2, p2).hash == b.put_spec(r2, p2).put_spec(r1, p1).hash,
        forall|q: Point|
            q.valid() ==> #[trigger] b.put_spec(r1, p1).put_spec(r2, p2).stone_at(q) == b.put_spec(
                r2,
                p2,
            ).put_spec(r1, p1).stone_at(q),
{
    super::square::lemma_set_spec(b.square, p1, Some(r1));
    super::square::lemma_set_spec(b.put_spec(r1, p1).square, p2, Some(r2));
    super::square::lemma_set_spec(b.square, p2, Some(r2));
    super::square::lemma_set_spec(b.put_spec(r2, p2).square, p1, Some(r1));
    let h = b.hash;
    let x1 = stone_code(b.stone_at(p1), p1);
    let x2 = stone_code(b.stone_at(p2), p2);
    let c1 = code_of(r1, p1);
    let c2 = code_of(r2, p2);
    assert((((h ^ x1) ^ c1) ^ x2) ^ c2 == (((h ^ x2) ^ c2) ^ x1) ^ c1) by (bit_vector);
}

} // verus!
