//! Packs a rectangular grid with squares of descending sizes, each class of
//! sizes visiting the grid's cells in a shuffled order.
pub mod grid;
pub mod packer;
pub mod shuffle;
pub mod laws;
