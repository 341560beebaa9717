//! Rows of a whole board, and their eyes, without keeping a searcher.
use vstd::prelude::*;
use super::row2::{
    all_lines, eyes_of, flat_eyes, row_view, rows_over, rows_over_on, unique_points, Row, RowKind,
    RowSearcher,
};
use crate::board::board::Board;
use crate::board::point::Point;

verus! {

/// Every row of `kind` for `black`'s stones (Black if true), line by line.
pub fn rows(board: &Board, black: bool, kind: RowKind) -> (res: Vec<Row>)
    requires
        board.wf(),
    ensures
        res@.map_values(|r: Row| row_view(r)) == rows_over(all_lines(board@.square), black, kind),
{
    let mut searcher = RowSearcher::new();
    searcher.search(board, black, kind)
}

/// The rows of `kind` for `black`'s stones that `p` lies on.
pub fn rows_on(board: &Board, black: bool, kind: RowKind, p: &Point) -> (res: Vec<Row>)
    requires
        board.wf(),
        p.valid(),
    ensures
        res@.map_values(|r: Row| row_view(r)) == rows_over_on(board@.square.lines_on_spec(*p), black, kind, *p),
{
    let mut searcher = RowSearcher::new();
    searcher.search_containing(board, black, kind, p)
}

/// The eyes of every row of `kind` for `black`'s stones, each once.
pub fn row_eyes(board: &Board, black: bool, kind: RowKind) -> (res: Vec<Point>)
    requires
        board.wf(),
    ensures
        res@.no_duplicates(),
        forall|q: Point| res@.contains(q) <==> eyes_of(rows_over(all_lines(board@.square), black, kind)).contains(q),
{
    let found = rows(board, black, kind);
    let eyes = flat_eyes(&found);
    unique_points(&eyes)
}

/// The eyes of the rows of `kind` for `black`'s stones that `p` lies on,
/// each once.
pub fn row_eyes_on(board: &Board, black: bool, kind: RowKind, p: &Point) -> (res: Vec<Point>)
    requires
        board.wf(),
        p.valid(),
    ensures
        res@.no_duplicates(),
        forall|q: Point|
            res@.contains(q) <==> eyes_of(rows_over_on(board@.square.lines_on_spec(*p), black, kind, *p)).contains(q),
{
    let found = rows_on(board, black, kind, p);
    let eyes = flat_eyes(&found);
    unique_points(&eyes)
}

} // verus!
