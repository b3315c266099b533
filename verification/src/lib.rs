//! The rules of a 2048 sliding-tile game on a square board of `u32` cells,
//! with machine-checked contracts.

pub mod board;
pub mod line;
pub mod moves;
pub mod rules;
pub mod spawn;
