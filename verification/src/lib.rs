//! A dense two-dimensional field of cells, double buffered, with the
//! integer side of a light-propagation rule: addressing, traversal,
//! neighbourhoods, target candidates and forcing.

pub mod coord;
pub mod cursor;
pub mod double_buffer;
pub mod field;
pub mod generation;
pub mod grid;
pub mod sampler;

pub use coord::Coord;
pub use cursor::{CellIndices, Cells, EnumerateCells};
pub use double_buffer::DoubleBuffer;
pub use field::{Beam, Cell, Reach};
pub use grid::Grid;
