//! Rules engine of a sliding-tile merge puzzle on a square grid.
//!
//! A [`Board`] holds the grid and the largest tile ever placed on it. A move
//! collapses every row or column towards one edge, merging equal neighbours;
//! a spawn puts a new tile on a random empty cell.

pub mod board;
pub mod cells;
pub mod dir;
pub mod display;
pub mod grid;
pub mod grid_facts;
pub mod laws;
pub mod line;
pub mod line_facts;
pub mod moves;
pub mod spawn;
pub mod status;

pub use board::Board;
pub use grid::BoardView;
pub use dir::Dir;
