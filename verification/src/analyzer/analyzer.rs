//! One entry point for the row and forbidden-move searches of a board.
use vstd::prelude::*;
use super::row2::{all_lines, eyes_of, flat_eyes, row_view, rows_over, Row, RowKind, RowSearcher};
use crate::board::board::Board;
use crate::board::forbidden::{forbidden_spec, forbiddens_spec, ForbiddenKind};
use crate::board::point::Point;

verus! {

/// Answers questions about boards: their rows, the eyes of those rows,
/// and the moves Black may not make.
pub struct Analyzer {
    row_searcher: RowSearcher,
}

impl Analyzer {
    /// The rows it keeps are those a fresh scan gives.
    pub closed spec fn wf(&self) -> bool {
        self.row_searcher.wf()
    }

    /// An analyzer that keeps no rows yet.
    pub fn new() -> (res: Analyzer)
        ensures
            res.wf(),
    {
        Analyzer { row_searcher: RowSearcher::new() }
    }

    /// Every row of `kind` for `black`'s stones (Black if true), as
    /// [`RowSearcher::search`] finds them.
    pub fn rows(&mut self, board: &Board, black: bool, kind: RowKind) -> (res: Vec<Row>)
        requires
            old(self).wf(),
            board.wf(),
        ensures
            res@.map_values(|r: Row| row_view(r)) == rows_over(all_lines(board@.square), black, kind),
            final(self).wf(),
    {
        self.row_searcher.search(board, black, kind)
    }

    /// The eyes of every row of `kind` for `black`'s stones, row by row.
    pub fn row_eyes(&mut self, board: &Board, black: bool, kind: RowKind) -> (res: Vec<Point>)
        requires
            old(self).wf(),
            board.wf(),
        ensures
            res@ == eyes_of(rows_over(all_lines(board@.square), black, kind)),
            final(self).wf(),
    {
        let rows = self.row_searcher.search(board, black, kind);
        flat_eyes(&rows)
    }

    /// Every point where Black may not move, with the reason, in point
    /// order, as [`Board::forbiddens`] gives them.
    pub fn forbiddens(&mut self, board: &Board) -> (res: Vec<(ForbiddenKind, Point)>)
        requires
            board.wf(),
        ensures
            res@ == forbiddens_spec(board@.square, board@.square.points_with(None, 225)),
            *final(self) == *old(self),
    {
        board.forbiddens()
    }

    /// Why Black may not move on `p`, if Black may not.
    pub fn forbidden(&mut self, board: &Board, p: Point) -> (res: Option<ForbiddenKind>)
        requires
            board.wf(),
            p.valid(),
        ensures
            res == forbidden_spec(board@.square, p),
            *final(self) == *old(self),
    {
        board.forbidden(p)
    }
}

} // verus!
