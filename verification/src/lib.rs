//! Sliding-tile puzzles: board states, the Manhattan-distance heuristic and an
//! A* solver, with every function verified against a mathematical model of the
//! board.

pub mod closed_set;
pub mod error;
pub mod frontier;
pub mod grid;
pub mod heuristics;
pub mod node;
pub mod npuzzle;
pub mod parity;
pub mod parse;
pub mod reach;
pub mod render;
pub mod search;
pub mod solver;
