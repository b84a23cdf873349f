//! The capabilities the search engine asks of its collaborators.

use crate::visited::VisitedStates;
use vstd::prelude::*;

verus! {

/// A point of the search space together with its fixed set of mutations.
///
/// Mutations are pure: `mutated` names the successor that mutation `index`
/// produces, and `mutate` computes it.
pub trait State: Sized + Copy {
    /// Number of mutations of the state space.
    spec fn mutation_count() -> nat;

    /// The state that mutation `index` produces from `self`.
    spec fn mutated(self, index: int) -> Self;

    fn get_mutation_count() -> (count: usize)
        ensures
            count == Self::mutation_count(),
    ;

    fn mutate(self, index: usize) -> (next: Self)
        requires
            index < Self::mutation_count(),
        ensures
            next == self.mutated(index as int),
    ;

    fn same_state(&self, other: &Self) -> (same: bool)
        ensures
            same == (*self == *other),
    ;
}

/// A pure, total scoring of states.
pub trait Evaluator<T> {
    /// The score of `state`.
    spec fn score(&self, state: T) -> int;

    fn evaluate(&self, state: T) -> (value: i32)
        ensures
            value == self.score(state),
    ;
}

/// A simulation policy: estimates the value of a state without registering
/// anything as visited.
///
/// A policy may be randomized, so its estimates are described by a relation:
/// `estimates` tells which values the policy may give for which arguments.
/// A policy that says nothing of its estimates keeps the default, which
/// admits every value.
pub trait RollOut<T, E> {
    /// `value` is an estimate that the policy may give for `state`.
    open spec fn estimates(
        &self,
        state: T,
        evaluator: &E,
        rollout_depth: usize,
        previous_states: &VisitedStates<T>,
        value: i32,
    ) -> bool {
        true
    }

    fn rollout(
        &self,
        state: T,
        evaluator: &E,
        rollout_depth: usize,
        previous_states: &VisitedStates<T>,
    ) -> (value: i32)
        ensures
            self.estimates(state, evaluator, rollout_depth, previous_states, value),
    ;
}

/// The exploration term of the selection score of a child visited
/// `times_visited > 0` times under a parent visited `total_times_visited`
/// times, in units of `1 / SCORE_SCALE`; for UCB1 with the constant `c` it
/// is `c * sqrt(ln(total_times_visited) / times_visited)`.
///
/// The term is a function of the two counts: `term` names it, and `bonus`
/// computes it.
pub trait Exploration {
    /// The exploration term for the two counts.
    spec fn term(&self, total_times_visited: u32, times_visited: u32) -> i32;

    fn bonus(&self, total_times_visited: u32, times_visited: u32) -> (bonus: i32)
        ensures
            bonus == self.term(total_times_visited, times_visited),
    ;
}

/// No exploration at all: the selection goes by the averages alone, as
/// UCB1 does with the constant zero.
pub struct NoExploration;

impl Exploration for NoExploration {
    open spec fn term(&self, total_times_visited: u32, times_visited: u32) -> i32 {
        0
    }

    fn bonus(&self, total_times_visited: u32, times_visited: u32) -> (bonus: i32) {
        0
    }
}

} // verus!
