pub mod potential;
pub mod shape;
