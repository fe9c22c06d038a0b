//! A solver for the tile-shifting puzzle: a grid of non-negative tiles where a
//! move slides a tile by its own value onto another tile and merges the two
//! (sum or absolute difference). The goal is to clear the whole grid.
pub mod action;
pub mod board;
pub mod enums;
pub mod grid;
pub mod laws;
mod random;
pub mod solution;
pub mod solver;
