//! Propagation engine for grid logic puzzles: a symmetric tri-state relation
//! grid over labels, the clue constraints and puzzle-independent inference
//! rules that fill it, and a fixed-point solver with contradiction detection.

mod clue;
mod constraint;
mod grid;
mod names;
mod puzzle;
mod rule;
mod solver;

pub use constraint::{Constraint, ConstraintKind};
pub use grid::{Cell, Grid, Step};
pub use puzzle::{Category, Error, Label, Puzzle, PuzzleError};
pub use rule::{ElimOthers, NoByProxy, OnlyEmpty, Transitivity};
pub use solver::{run_pass, solve, Solution, Solver};
