//! The set of states that already own a node of the search tree.

use crate::types::State;
use vstd::prelude::*;

verus! {

/// A set of states, kept in order of insertion.
pub struct VisitedStates<T> {
    pub states: Vec<T>,
}

impl<T: State> VisitedStates<T> {
    /// The states of the set.
    pub open spec fn view(&self) -> Set<T> {
        Set::new(|state: T| self.states@.contains(state))
    }

    /// No state is stored twice.
    pub open spec fn wf(&self) -> bool {
        self.states@.no_duplicates()
    }

    pub fn new() -> (visited: Self)
        ensures
            visited.wf(),
            visited@ == Set::<T>::empty(),
            visited.states@.len() == 0,
    {
        let visited = VisitedStates { states: Vec::new() };
        assert(visited@ =~= Set::<T>::empty());
        visited
    }

    pub fn contains(&self, state: &T) -> (found: bool)
        ensures
            found == self@.contains(*state),
    {
        let mut i: usize = 0;
        while i < self.states.len()
            invariant
                i <= self.states.len(),
                forall|k: int| 0 <= k < i ==> self.states@[k] != *state,
            decreases self.states.len() - i,
        {
            if self.states[i].same_state(state) {
                return true;
            }
            i += 1;
        }
        false
    }

    /// Adds `state` unless it is present; tells whether it was added.
    pub fn insert(&mut self, state: T) -> (added: bool)
        requires
            old(self).wf(),
        ensures
            final(self).wf(),
            final(self)@ == old(self)@.insert(state),
            added == !old(self)@.contains(state),
            added ==> final(self).states@ == old(self).states@.push(state),
            !added ==> final(self).states@ == old(self).states@,
    {
        if self.contains(&state) {
            assert(self@ =~= self@.insert(state));
            false
        } else {
            let ghost before = self.states@;
            self.states.push(state);
            assert forall|s: T| self.states@.contains(s) <==> (before.contains(s) || s == state) by {
                if before.contains(s) {
                    let k = choose|k: int| 0 <= k < before.len() && before[k] == s;
                    assert(self.states@[k] == s);
                }
                if s == state {
                    assert(self.states@[before.len() as int] == s);
                }
            }
            assert(self@ =~= old(self)@.insert(state));
            true
        }
    }
}

} // verus!
