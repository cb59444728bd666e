//! Labeled structured grids over a square domain.
//!
//! Given a grid size `N` and one of seven planar regions, the engine fills an
//! `N x N` array of unsigned 32-bit integers: cells inside the region receive
//! the consecutive labels `1, 2, 3, ...` in a fixed scan order, every other
//! cell receives zero. The cell at `(row, column)` is stored at index
//! `row + column * N`.

pub mod cardioid;
pub mod coords;
pub mod generator;
pub mod labeler;
pub mod laws;
pub mod region;
pub mod rose;
pub mod shape;
pub mod wide;
