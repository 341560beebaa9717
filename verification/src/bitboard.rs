pub mod bits;
pub mod board;
pub mod forbidden;
pub mod fundamentals;
pub mod line;
pub mod point;
pub mod row;
pub mod square;
