//! Solutions to two years of daily programming puzzles, built on a small
//! grid abstraction and a handful of search routines.
//!
//! Every solution is a function from the puzzle text to its answer. The text
//! is read as bytes: contracts speak of `input.spec_bytes()`.

pub mod arith;
pub mod arrays;
pub mod iters;
pub mod text;
pub mod y2022;
pub mod y2023;
