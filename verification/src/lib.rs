//! Perfect mazes on a rectangular grid: a wall model whose passages are always
//! recorded on both sides, two carving algorithms driven by an explicit random
//! source, and a fixed-width text rendering. Every function carries a contract
//! over the mathematical grid, and the generators are proved to carve spanning
//! trees.

pub mod binary_tree;
pub mod generate;
pub mod grid;
pub mod mazeui;
pub mod options;
pub mod passages;
pub mod random;
pub mod render;
pub mod sidewinder;

pub use grid::{Algorithm, Cell, Grid, Maze};
pub use mazeui::MazeView;
pub use random::RandomSource;
