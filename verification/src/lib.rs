pub mod cli;
pub mod game;
mod grid_count;
pub mod maze;
mod random;
pub mod text;
pub mod topology;

pub use maze::{FromTopologyError, Maze, Path, Size};
pub use topology::Location;
