//! A solver for N×N Sudoku boards, N a perfect square, that combines
//! constraint propagation with a backtracking search.
//!
//! `rules` states the puzzle over a flat row-major grid: legality, consistency,
//! solutions, and the order in which the backtracking search meets them.
//! `board` holds the `Board` type, its candidate table, the three propagation
//! rules, the fixpoint loop and the backtracking search.
use vstd::prelude::*;

pub mod rules;
pub mod board;

verus! {

} // verus!
