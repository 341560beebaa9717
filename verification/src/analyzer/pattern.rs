//! Row patterns described by both players' stones: the shape of the row
//! they give, and where in their window that row lies.
use vstd::prelude::*;

verus! {

/// The shape of a row: how many cells it spans, and which of them are its
/// eyes.
pub struct RowShape<'a> {
    pub size: u8,
    pub eyes: &'a [u8],
}

/// A pattern over a window of `size` cells: its black and white stones
/// with a mask for each (`blmask`, `whmask`), and the row it gives,
/// `offset` cells into the window.
pub struct RowPattern<'a> {
    pub row: &'a RowShape<'a>,
    pub size: u8,
    pub offset: u8,
    pub blacks: u16,
    pub blmask: u16,
    pub whites: u16,
    pub whmask: u16,
}

} // verus!
