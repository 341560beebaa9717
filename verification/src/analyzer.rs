pub mod pattern2;
pub mod row2;
pub mod analyzer;
pub mod pattern;
pub mod row;
