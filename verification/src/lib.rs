//! Randomized depth-first maze carving on a square pixel grid, single-step
//! player movement over the carved grid, and text rendering of it.

pub mod carve;
pub mod coverage;
pub mod grid;
pub mod laws;
pub mod maze;
pub mod path;
pub mod random;
pub mod render;
pub mod structure;
pub mod tally;
pub mod trail;
pub mod upkeep;
pub mod walks;

pub use carve::{Carver, Opening, MAX_SIZE};
pub use grid::{Direction, MazePixel};
pub use maze::Maze;
pub use render::Charset;
