//! Game-state engine of a terminal minesweeper: the grid of cells, the
//! player operations on it, win/loss detection, the mapping from terminal
//! coordinates to cells, and the visual themes that decorate the output.

pub mod board;
pub mod flood;
pub mod grid;
pub mod layout;
pub mod render;
pub mod theme;
