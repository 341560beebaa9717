//! The bit board as players see it: stones put one by one, the rows they
//! make, and the moves Black may not play.
use vstd::prelude::*;
use super::forbidden::{forbidden, forbidden_spec, forbiddens, forbiddens_spec, ForbiddenKind};
use super::fundamentals::{Player, RowKind};
use super::point::{Point, Points};
use super::square::{
    all_valid, display_ok, display_stone, eyes_of_rows, format_stones, points_format, row_valid, sorted_points,
    square_text, stone_of_lists, Row as RowSegment, Square, SquareModel,
};

verus! {

/// A board of fifteen by fifteen points.
pub struct Board {
    square: Square,
}

impl View for Board {
    type V = SquareModel;

    closed spec fn view(&self) -> SquareModel {
        self.square@
    }
}

impl Board {
    /// The board's lines agree.
    pub closed spec fn wf(self) -> bool {
        self.square.wf()
    }

    /// A well-formed board's lines agree.
    pub proof fn lemma_wf(&self)
        ensures
            self.wf() ==> self@.wf(),
    {
        self.square.lemma_wf();
    }

    /// An empty board.
    pub fn new() -> (res: Board)
        ensures
            res.wf(),
            forall|p: Point| p.valid() ==> #[trigger] res@.stone_at(p) is None,
    {
        Board { square: Square::new() }
    }

    /// The board with `blacks`' stones, then `whites`' stones, put on it.
    pub fn from_points(blacks: Points, whites: Points) -> (res: Board)
        requires
            all_valid(blacks.0@),
            all_valid(whites.0@),
        ensures
            res.wf(),
            forall|p: Point| p.valid() ==> #[trigger] res@.stone_at(p) == stone_of_lists(blacks.0@, whites.0@, p),
    {
        let square = Square::from_points(blacks, whites);
        Board { square: square }
    }

    /// Puts `player`'s stone on `p`, replacing whatever was there.
    pub fn put(&mut self, player: Player, p: Point)
        requires
            old(self).wf(),
            p.valid(),
        ensures
            final(self).wf(),
            final(self)@ == old(self)@.put_spec(player, p),
            final(self)@.stone_at(p) == Some(player),
            forall|q: Point| q.valid() && q != p ==> #[trigger] final(self)@.stone_at(q) == old(self)@.stone_at(q),
    {
        self.square.put(player, p);
    }

    /// `player`'s rows of kind `kind`, line by line.
    pub fn rows(&self, player: Player, kind: RowKind) -> (res: Vec<RowSegment>)
        requires
            self.wf(),
        ensures
            res@ == self@.rows_spec(player, kind),
            forall|m: int| 0 <= m < res@.len() ==> row_valid(#[trigger] res@[m]),
    {
        self.square.rows(player, kind)
    }

    /// `player`'s rows of kind `kind` through `p`.
    pub fn rows_on(&self, player: Player, kind: RowKind, p: Point) -> (res: Vec<RowSegment>)
        requires
            self.wf(),
            p.valid(),
        ensures
            res@ == self@.rows_on_spec(player, kind, p),
            forall|m: int| 0 <= m < res@.len() ==> row_valid(#[trigger] res@[m]),
    {
        self.square.rows_on(player, kind, p)
    }

    /// The eyes of `player`'s rows of kind `kind`, sorted, each once.
    pub fn row_eyes(&self, player: Player, kind: RowKind) -> (res: Vec<Point>)
        requires
            self.wf(),
        ensures
            sorted_points(res@),
            all_valid(res@),
            forall|q: Point| res@.contains(q) <==> eyes_of_rows(self@.rows_spec(player, kind)).contains(q),
    {
        self.square.row_eyes(player, kind)
    }

    /// The eyes of `player`'s rows of kind `kind` on the lines through `p`,
    /// sorted, each once.
    pub fn row_eyes_along(&self, player: Player, kind: RowKind, p: Point) -> (res: Vec<Point>)
        requires
            self.wf(),
            p.valid(),
        ensures
            sorted_points(res@),
            all_valid(res@),
            forall|q: Point| res@.contains(q) <==> eyes_of_rows(self@.rows_along_spec(player, kind, p)).contains(q),
    {
        self.square.row_eyes_along(player, kind, p)
    }

    /// Black's forbidden moves, by column then by row.
    pub fn forbiddens(&self) -> (res: Vec<(ForbiddenKind, Point)>)
        requires
            self.wf(),
        ensures
            res@ == forbiddens_spec(self@, 225),
    {
        forbiddens(&self.square)
    }

    /// What Black's stone on `p` would make that the rules forbid.
    pub fn forbidden(&self, p: Point) -> (res: Option<ForbiddenKind>)
        requires
            self.wf(),
            p.valid(),
        ensures
            res == forbidden_spec(self@, p),
    {
        forbidden(&self.square, p)
    }

    /// The board written row by row, the top row first.
    pub fn to_string(&self) -> (res: String)
        requires
            self.wf(),
        ensures
            res@ == square_text(self@),
    {
        self.square.to_string()
    }

    /// Reads a board written like `H8,J9/I9`, or row by row.
    pub fn parse(s: &str) -> (res: Result<Board, &'static str>)
        ensures
            s@.contains('/') ==> (res is Ok <==> points_format(s@) is Some),
            s@.contains('/') ==> (res matches Ok(b) ==> b.wf() && forall|p: Point|
                p.valid() ==> #[trigger] b@.stone_at(p) == stone_of_lists(
                    format_stones(s@, true),
                    format_stones(s@, false),
                    p,
                )),
            !s@.contains('/') ==> (res is Ok <==> display_ok(s@)),
            !s@.contains('/') ==> (res matches Ok(b) ==> b.wf() && forall|p: Point|
                p.valid() ==> #[trigger] b@.stone_at(p) == display_stone(s@, p)),
            res matches Err(e) ==> e@ == (if s@.contains('/') {
                super::square::format_error(s@)
            } else {
                super::square::display_error(s@)
            }),
    {
        let square = match Square::parse(s) {
            Ok(sq) => sq,
            Err(e) => {
                return Err(e);
            },
        };
        Ok(Board { square: square })
    }
}

} // verus!
