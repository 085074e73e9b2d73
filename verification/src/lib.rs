//! Logical core of a hexagonal-grid minesweeper.
//!
//! The crate maintains the board (cells, mines, adjacency numbers) and the
//! per-game state (covered and flagged cells), and implements the two player
//! actions: revealing a cell (with flood-fill expansion over blank regions)
//! and toggling a flag.  Rendering and input plumbing live outside the crate.

pub mod board;
pub mod controller;
pub mod coord;
pub mod coord_map;
pub mod coord_set;
pub mod flood;
pub mod state;
