//! Conway's Game of Life on an unbounded integer grid, kept as a sparse set
//! of live cells.

pub mod cell_system;
pub mod generation;
pub mod gui;
pub mod live_set;
pub mod neighbours;
pub mod rules;
