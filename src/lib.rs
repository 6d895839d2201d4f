// A grid geocode: the square grid of cells over a fixed rectangle, the
// ten-symbol code of each cell, and decoding a code back to its cell, with
// the cell's center and extent in exact half-cell units.

pub mod cell;
pub mod decode;
pub mod encode;
pub mod error;
pub mod geometry;
pub mod grid;
pub mod laws;
