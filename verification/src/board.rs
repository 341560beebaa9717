pub mod bits;
pub mod board;
pub mod forbidden;
pub mod line;
pub mod map;
pub mod notation;
pub mod pattern;
pub mod player;
pub mod point;
pub mod potential;
pub mod row;
pub mod segment;
pub mod slot;
pub mod square;
pub mod sequence;
pub mod structure;
pub mod util;
pub mod zobrist;
