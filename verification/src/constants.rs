//! Fixed parameters of the state domain and of the evaluation trees.

use vstd::prelude::*;

verus! {

/// Number of coordinates of a state.
pub const STATE_SIZE: usize = 5;

/// Smallest value a state coordinate may hold.
pub const STATE_VALUE_MIN: i32 = -50000;

/// Largest value a state coordinate may hold.
pub const STATE_VALUE_MAX: i32 = 50000;

/// Lower bound of the weights and thresholds of an evaluation tree.
pub const NODE_VALUE_MIN: i32 = -50;

/// Upper bound of the weights and thresholds of an evaluation tree.
pub const NODE_VALUE_MAX: i32 = 50;

/// Depth of the heuristic lookahead.
pub const HEURISTIC_SEARCH_DEPTH: usize = 0;

/// Number of iterations between two progress signals.
pub const LOOP_PRINT_INTERVAL: u32 = 1000;

} // verus!
