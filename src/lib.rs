//! The engine of the sliding-tile merging puzzle: the grid, the move and
//! merge rules, win and loss detection, and the bookkeeping of tiles that are
//! still being animated between two inputs.
pub mod tile;
pub mod grid;
pub mod game;
pub mod animation;
pub mod laws;
