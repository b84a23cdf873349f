//! A best-first Monte Carlo tree search engine with verified bookkeeping.
//!
//! The engine grows a tree of states from a start state. Every iteration
//! descends by selection to a node without children, expands it, estimates
//! the value of what it found and counts that value at every node on the way
//! back. States, their mutations, the evaluator, the simulation policy and
//! the exploration term of the selection score are supplied by the caller
//! through the traits of [`types`].
//!
//! All statistics are exact: a node keeps the number of its visits and the
//! sum of the values counted at it, so that its average is a rational
//! number, and scores are compared by cross-multiplication. Constants that
//! are fractions are given as a [`scoring::Ratio`].

pub mod constants;
pub mod evaluations_tree;
pub mod laws;
pub mod random;
pub mod scoring;
pub mod state_array;
pub mod tree_search;
pub mod types;
pub mod visited;
