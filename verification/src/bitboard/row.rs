//! The rows of a line, found through the pattern tables of
//! [`super::bits`], and the players they belong to.
pub use super::bits::{scan_rows, Row};
pub use super::fundamentals::{Player, RowKind};
