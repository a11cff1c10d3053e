//! Verified solvers for a set of small line-oriented text puzzles.
//!
//! Each solver module parses lines of text and computes a single integer
//! result; the shared plumbing (which half of a puzzle to solve, the common
//! parser interface, the error type) lives in [`util`].

pub mod day1;
pub mod day2;
pub mod day3;
pub mod util;
