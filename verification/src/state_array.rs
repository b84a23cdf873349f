//! States that are arrays of bounded integers, with unit steps as mutations.

use crate::constants::{STATE_SIZE, STATE_VALUE_MAX, STATE_VALUE_MIN};
use crate::evaluations_tree::random_array;
use crate::types::State;
use vstd::array::spec_array_update;
use vstd::prelude::*;

verus! {

/// A state: a fixed number of integer coordinates.
#[derive(Clone, Copy, Debug, PartialEq, Eq, Hash)]
pub struct StateArray(pub [i32; STATE_SIZE]);

/// `value` moved one step up or down, unless it stands at or beyond the
/// bound of the state domain on that side.
pub open spec fn stepped(value: i32, up: bool) -> i32 {
    if up {
        if value < STATE_VALUE_MAX {
            (value + 1) as i32
        } else {
            value
        }
    } else {
        if value > STATE_VALUE_MIN {
            (value - 1) as i32
        } else {
            value
        }
    }
}

impl StateArray {
    /// Every coordinate lies in the state domain.
    pub open spec fn in_domain(self) -> bool {
        forall|i: int| 0 <= i < STATE_SIZE ==> STATE_VALUE_MIN <= #[trigger] self.0@[i] <= STATE_VALUE_MAX
    }

    /// A state whose coordinates are drawn from the state domain.
    pub fn random_state() -> (state: StateArray)
        ensures
            state.in_domain(),
    {
        StateArray(random_array(STATE_VALUE_MIN, STATE_VALUE_MAX))
    }
}

/// There are two mutations for every coordinate: the even one steps it up,
/// the odd one steps it down.
impl State for StateArray {
    open spec fn mutation_count() -> nat {
        2 * STATE_SIZE as nat
    }

    open spec fn mutated(self, index: int) -> Self {
        StateArray(spec_array_update(self.0, index / 2, stepped(self.0@[index / 2], index % 2 == 0)))
    }

    fn get_mutation_count() -> (count: usize) {
        2 * STATE_SIZE
    }

    fn mutate(self, index: usize) -> (next: Self) {
        let at = index / 2;
        let mut coordinates = self.0;
        let value = coordinates[at];
        let moved = if index % 2 == 0 {
            if value < STATE_VALUE_MAX {
                value + 1
            } else {
                value
            }
        } else {
            if value > STATE_VALUE_MIN {
                value - 1
            } else {
                value
            }
        };
        coordinates[at] = moved;
        let next = StateArray(coordinates);
        assert(next.0 =~= self.mutated(index as int).0);
        next
    }

    fn same_state(&self, other: &Self) -> (same: bool) {
        let mut i: usize = 0;
        while i < STATE_SIZE
            invariant
                i <= STATE_SIZE,
                forall|k: int| 0 <= k < i ==> self.0@[k] == other.0@[k],
            decreases STATE_SIZE - i,
        {
            if self.0[i] != other.0[i] {
                return false;
            }
            i += 1;
        }
        assert(self.0 =~= other.0);
        true
    }
}

/// A mutation never leaves the state domain.
pub proof fn lemma_mutation_stays_in_domain(state: StateArray, index: int)
    requires
        state.in_domain(),
        0 <= index < StateArray::mutation_count(),
    ensures
        state.mutated(index).in_domain(),
{
    let next = state.mutated(index);
    assert forall|i: int| 0 <= i < STATE_SIZE implies STATE_VALUE_MIN <= #[trigger] next.0@[i] <= STATE_VALUE_MAX by {
        assert(STATE_VALUE_MIN <= state.0@[i] <= STATE_VALUE_MAX);
    }
}

} // verus!
