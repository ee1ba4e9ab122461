//! Extraction and measurement of a single closed pipe loop drawn on a
//! rectangular grid of directional connectors.
//!
//! The text of a grid is parsed into a [`Grid`], the loop through the start
//! cell is walked, and two numbers are derived from it: the distance to the
//! point of the loop farthest from the start, and the number of grid cells
//! that the loop encloses.

pub mod area;
pub mod canvas;
pub mod cycle;
pub mod error;
pub mod fill;
pub mod grid;
pub mod mirror;
pub mod pipe;
pub mod pos;
pub mod reflect;
pub mod region;
pub mod walk;

pub use area::{part1, part2, solve_enclosed_area, solve_loop_length};
pub use canvas::FilledGrid;
pub use error::LoopError;
pub use grid::{parse, Grid};
pub use pipe::Pipe;
pub use pos::Pos;
pub use walk::Walker;
