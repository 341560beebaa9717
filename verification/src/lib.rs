pub mod analysis;
pub mod analyzer;
pub mod bitboard;
pub mod board;
pub mod encoding;
pub mod feature;
