//! A verified cryptarithm solver.
//!
//! Given three terms written with letters (such as `SEND + MORE = MONEY`),
//! the library searches for an assignment of distinct decimal digits to the
//! letters under which the addition holds, with no term starting in digit 0.

pub mod assignment;
pub mod laws;
pub mod puzzle;
pub mod solver;

pub use assignment::Assignment;
pub use puzzle::MalformedPuzzle;
pub use puzzle::Puzzle;
