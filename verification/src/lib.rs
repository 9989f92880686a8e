//! A verified Minesweeper game engine.
//!
//! The engine owns a rectangular grid of cells, some of which hold mines.
//! Callers drive it one command at a time (`Open`, `Flag`, or nothing);
//! the engine reveals cells (flood-filling zero-adjacency regions),
//! toggles flags, and decides win and loss.

pub mod grid;
pub mod laws;
pub mod model;
pub mod rng;
