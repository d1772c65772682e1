//! Solutions to a set of independent puzzle exercises, verified with Verus.
//!
//! The centrepiece is the subarray square counter: given a sequence of signed
//! integers, count the contiguous subarrays whose sum is a perfect square.
//! It is built from a square table generator, an integer square root oracle,
//! and an offset-indexed frequency table of partial sums. The remaining
//! modules are unrelated utilities sharing only the whitespace token scanner.

pub mod buildings;
pub mod countdown;
pub mod isqrt;
pub mod longest_run;
pub mod partial_sums;
pub mod scanner;
pub mod squares;
pub mod subarray;
pub mod wall;
