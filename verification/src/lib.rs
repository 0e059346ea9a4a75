//! A verified generator of fully solved letter grids: rectangular and
//! hexagonal word boards whose rows, columns, and anti-diagonals all read
//! as dictionary words, filled by randomized backtracking search, plus the
//! flat record form of a solved board and the tile-swap game state built
//! on one.

pub mod beehive;
pub mod beehive_serde;
pub mod beehive_swap;
pub mod dictionary;
pub mod grid;
pub mod grid_beehive;
pub mod lines;
pub mod matrix;
pub mod pattern;
pub mod rng;
pub mod text;
pub mod waffle;
