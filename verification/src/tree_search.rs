//! The search tree: selection, expansion, simulation and backpropagation.

use crate::laws::{lemma_held_states_reachable, reachable};
use crate::random::random_index;
use crate::scoring::{
    best_after, best_score_index, lemma_first_unvisited, lemma_unvisited_first, penalized, penalized_value, ucb, ucb_score,
    Ratio, UcbScore,
};
use crate::types::{Evaluator, Exploration, RollOut, State};
use crate::visited::VisitedStates;
use vstd::prelude::*;

verus! {

/// One explored state with its statistics and the subtrees of its successors.
///
/// The average evaluation of the node is the exact rational
/// `total_evaluation / times_visited`.
pub struct TreeSearchNode<T> {
    pub times_visited: u32,
    pub total_evaluation: i64,
    pub state: T,
    pub children: Vec<TreeSearchNode<T>>,
}

/// What an expansion attempt found to simulate.
#[derive(Clone, Copy, Debug, PartialEq, Eq)]
pub enum Expansion {
    /// The node was never visited: it is simulated itself.
    Itself,
    /// Every successor is already visited: nothing is left to simulate.
    Exhausted,
    /// Children were created: the first of them is simulated.
    FirstChild,
}

/// The successors of `state` under the first `count` mutations that are
/// neither in `visited` nor produced by an earlier mutation, in order.
pub open spec fn fresh_successors<T: State>(state: T, visited: Set<T>, count: nat) -> Seq<T>
    decreases count,
{
    if count == 0 {
        Seq::empty()
    } else {
        let earlier = fresh_successors(state, visited, (count - 1) as nat);
        let candidate = state.mutated(count - 1);
        if visited.contains(candidate) || earlier.contains(candidate) {
            earlier
        } else {
            earlier.push(candidate)
        }
    }
}

/// `child` is what one of the mutations produces from `parent`.
pub open spec fn is_successor<T: State>(parent: T, child: T) -> bool {
    exists|index: int| 0 <= index < T::mutation_count() && child == #[trigger] parent.mutated(index)
}

/// Every fresh successor is a successor.
pub proof fn lemma_fresh_successors_are_successors<T: State>(state: T, visited: Set<T>, count: nat)
    requires
        count <= T::mutation_count(),
    ensures
        forall|i: int|
            0 <= i < fresh_successors(state, visited, count).len() ==> is_successor(
                state,
                #[trigger] fresh_successors(state, visited, count)[i],
            ),
    decreases count,
{
    if count > 0 {
        lemma_fresh_successors_are_successors(state, visited, (count - 1) as nat);
        let earlier = fresh_successors(state, visited, (count - 1) as nat);
        let candidate = state.mutated(count - 1);
        assert(is_successor(state, candidate));
    }
}

/// The states of a sequence of nodes.
pub open spec fn states_of<T: State>(nodes: Seq<TreeSearchNode<T>>) -> Seq<T> {
    Seq::new(nodes.len(), |i: int| nodes[i].state)
}

impl<T: State> TreeSearchNode<T> {
    /// Some node of the tree holds `state`.
    pub open spec fn holds(self, state: T) -> bool
        decreases self,
    {
        self.state == state || exists|i: int|
            0 <= i < self.children@.len() && (#[trigger] self.children[i]).holds(state)
    }

    /// Every state of the tree is in `visited`.
    pub open spec fn within(self, visited: Set<T>) -> bool {
        forall|state: T| #[trigger] self.holds(state) ==> visited.contains(state)
    }

    /// The number of nodes of the tree.
    pub open spec fn size(self) -> nat
        decreases self, 1nat, 0nat,
    {
        1 + self.size_of_children(self.children@.len())
    }

    /// The number of nodes of the subtrees of the first `count` children.
    pub open spec fn size_of_children(self, count: nat) -> nat
        decreases self, 0nat, count,
    {
        if count == 0 || count > self.children@.len() {
            0
        } else {
            self.size_of_children((count - 1) as nat) + self.children[count - 1].size()
        }
    }

    /// The selection scores of the children under the given exploration.
    pub open spec fn child_scores<X: Exploration>(self, exploration: &X) -> Seq<UcbScore> {
        Seq::new(
            self.children@.len(),
            |i: int|
                ucb_score(
                    self.children[i].total_evaluation as int,
                    self.children[i].times_visited as int,
                    exploration.term(self.times_visited, self.children[i].times_visited) as int,
                ),
        )
    }

    /// The index of the child that the selection by scores descends into.
    pub open spec fn selected<X: Exploration>(self, exploration: &X) -> int {
        best_after(self.child_scores(exploration), self.children@.len()).0
    }

    /// The child at index `at` is the first that was never visited.
    pub open spec fn first_unvisited_child(self, at: int) -> bool {
        &&& 0 <= at < self.children@.len()
        &&& self.children[at].times_visited == 0
        &&& forall|i: int| 0 <= i < at ==> (#[trigger] self.children[i]).times_visited != 0
    }

    /// `after` is `self` after one iteration that brought back `value` and
    /// turned the visited states `visited_before` into `visited_after`.
    ///
    /// The node counts one more visit and the value. Without children and
    /// never visited, it stays without children and the value is an estimate
    /// for its own state. Without children and visited, it gets one fresh
    /// child for every successor that was not visited; the value is an
    /// estimate for the state of the first child, or the penalized average
    /// if there is none. With children, the selected child made the
    /// iteration and the others are the same.
    pub open spec fn iterated<E: Evaluator<T>, R: RollOut<T, E>, X: Exploration>(
        self,
        after: Self,
        value: i32,
        visited_before: VisitedStates<T>,
        visited_after: VisitedStates<T>,
        exploration: &X,
        rollout: &R,
        evaluator: &E,
        rollout_depth: usize,
        move_away: Ratio,
        random_search: bool,
    ) -> bool
        decreases self,
    {
        &&& after.state == self.state
        &&& after.times_visited == self.times_visited + 1
        &&& after.total_evaluation == self.total_evaluation + value
        &&& if self.children@.len() == 0 {
            if self.times_visited == 0 {
                &&& after.children@.len() == 0
                &&& visited_after.states@ == visited_before.states@
                &&& rollout.estimates(self.state, evaluator, rollout_depth, &visited_after, value)
            } else {
                &&& states_of(after.children@) == fresh_successors(
                    self.state,
                    visited_before@,
                    T::mutation_count(),
                )
                &&& new_children(after.children@, visited_before@, visited_after@)
                &&& if after.children@.len() == 0 {
                    value == penalized(self.total_evaluation as int, self.times_visited as int, move_away)
                } else {
                    rollout.estimates(after.children[0].state, evaluator, rollout_depth, &visited_after, value)
                }
            }
        } else {
            exists|at: int|
                {
                    &&& 0 <= at < self.children@.len()
                    &&& after.children@.len() == self.children@.len()
                    &&& forall|i: int|
                        0 <= i < self.children@.len() && i != at ==> after.children[i] == self.children[i]
                    &&& !random_search ==> at == self.selected(exploration)
                    &&& (#[trigger] self.children[at]).iterated(
                        after.children[at],
                        value,
                        visited_before,
                        visited_after,
                        exploration,
                        rollout,
                        evaluator,
                        rollout_depth,
                        move_away,
                        random_search,
                    )
                }
        }
    }

    /// A node without visits, evaluations and children.
    pub open spec fn is_fresh(self) -> bool {
        self.times_visited == 0 && self.total_evaluation == 0 && self.children@.len() == 0
    }

    /// The sum of the evaluations is bounded by the number of visits.
    pub open spec fn total_bounded(self) -> bool {
        -(self.times_visited as int) * 0x8000_0000 <= self.total_evaluation <= (
        self.times_visited as int) * 0x8000_0000
    }

    /// The tree holds no state twice, only visited nodes have children, the
    /// state of every child is a successor of its parent's, no child was
    /// visited more often than its parent, and every sum of evaluations is
    /// bounded by its visits.
    pub open spec fn wf(self) -> bool
        decreases self,
    {
        &&& self.total_bounded()
        &&& self.times_visited == 0 ==> self.children@.len() == 0
        &&& forall|i: int|
            0 <= i < self.children@.len() ==> {
                &&& (#[trigger] self.children[i]).wf()
                &&& self.children[i].times_visited <= self.times_visited
                &&& !self.children[i].holds(self.state)
                &&& is_successor(self.state, self.children[i].state)
            }
        &&& forall|i: int, j: int, state: T|
            0 <= i < j < self.children@.len() && #[trigger] self.children[i].holds(state)
                ==> !#[trigger] self.children[j].holds(state)
    }

    /// The best state among the node's own and those of the first `count`
    /// subtrees: a later state replaces an earlier one only with a strictly
    /// greater score.
    pub open spec fn max_state_of<E: Evaluator<T>>(self, evaluator: &E, count: nat) -> T
        decreases self, 0nat, count,
    {
        if count == 0 || count > self.children@.len() {
            self.state
        } else {
            let best = self.max_state_of(evaluator, (count - 1) as nat);
            let candidate = self.children[count - 1].max_state(evaluator);
            if evaluator.score(candidate) > evaluator.score(best) {
                candidate
            } else {
                best
            }
        }
    }

    /// The best state of the tree.
    pub open spec fn max_state<E: Evaluator<T>>(self, evaluator: &E) -> T
        decreases self, 1nat, 0nat,
    {
        self.max_state_of(evaluator, self.children@.len())
    }

    /// A state of a subtree is a state of the tree.
    pub proof fn lemma_child_holds(self, i: int, state: T)
        requires
            0 <= i < self.children@.len(),
            self.children[i].holds(state),
        ensures
            self.holds(state),
    {
    }

    /// The sizes of the first children never exceed the size of all of them.
    pub proof fn lemma_size_of_children_grows(self, low: nat, high: nat)
        requires
            low <= high <= self.children@.len(),
        ensures
            self.size_of_children(low) <= self.size_of_children(high),
        decreases high,
    {
        if low < high {
            self.lemma_size_of_children_grows(low, (high - 1) as nat);
        }
    }

    /// A new node for `state`, which thereby counts as visited.
    pub fn new(state: T, previous_states: &mut VisitedStates<T>) -> (node: Self)
        requires
            old(previous_states).wf(),
        ensures
            node.state == state,
            node.is_fresh(),
            final(previous_states).wf(),
            final(previous_states)@ == old(previous_states)@.insert(state),
            final(previous_states).states@ == if old(previous_states)@.contains(state) {
                old(previous_states).states@
            } else {
                old(previous_states).states@.push(state)
            },
    {
        let new_node = TreeSearchNode { times_visited: 0, total_evaluation: 0, state, children: Vec::new() };
        previous_states.insert(state);
        new_node
    }

    /// Counts one more visit and adds `value` to the evaluations.
    pub fn update_average(&mut self, value: i32)
        requires
            old(self).times_visited < u32::MAX,
            old(self).total_bounded(),
        ensures
            final(self).times_visited == old(self).times_visited + 1,
            final(self).total_evaluation == old(self).total_evaluation + value,
            final(self).state == old(self).state,
            final(self).children == old(self).children,
            final(self).total_bounded(),
    {
        self.times_visited += 1;
        self.total_evaluation = self.total_evaluation + value as i64;
    }

    /// The number of nodes of the tree.
    pub fn get_tree_size(&self) -> (size: u32)
        requires
            self.size() <= u32::MAX,
        ensures
            size == self.size(),
        decreases self,
    {
        let mut size: u32 = 1;
        let mut index: usize = 0;
        while index < self.children.len()
            invariant
                index <= self.children@.len(),
                self.size() <= u32::MAX,
                size == 1 + self.size_of_children(index as nat),
            decreases self.children@.len() - index,
        {
            proof {
                self.lemma_size_of_children_grows((index + 1) as nat, self.children@.len());
            }
            size += self.children[index].get_tree_size();
            index += 1;
        }
        size
    }

    /// The state of the tree with the highest score; of several, the one
    /// found first.
    pub fn get_max_state<E: Evaluator<T>>(&self, evaluator: &E) -> (best_state: T)
        ensures
            best_state == self.max_state(evaluator),
            self.holds(best_state),
            forall|state: T| #[trigger] self.holds(state) ==> evaluator.score(state) <= evaluator.score(best_state),
        decreases self,
    {
        let mut best_state = self.state;
        let mut index: usize = 0;
        while index < self.children.len()
            invariant
                index <= self.children@.len(),
                best_state == self.max_state_of(evaluator, index as nat),
                self.holds(best_state),
                evaluator.score(self.state) <= evaluator.score(best_state),
                forall|i: int, state: T|
                    0 <= i < index && #[trigger] self.children[i].holds(state) ==> evaluator.score(state)
                        <= evaluator.score(best_state),
            decreases self.children@.len() - index,
        {
            let child_max_state = self.children[index].get_max_state(evaluator);
            if evaluator.evaluate(child_max_state) > evaluator.evaluate(best_state) {
                best_state = child_max_state;
                assert(self.children[index as int].holds(best_state));
            }
            index += 1;
        }
        assert forall|state: T| #[trigger] self.holds(state) implies evaluator.score(state)
            <= evaluator.score(best_state) by {
            if state != self.state {
                let i = choose|i: int| 0 <= i < self.children@.len() && (#[trigger] self.children[i]).holds(state);
                assert(self.children[i].holds(state));
            }
        }
        best_state
    }

    /// Turns a childless, already visited node into the parent of one fresh
    /// child for every successor state that was not visited before; a node
    /// that was never visited is left as it is.
    pub fn expand(&mut self, previous_states: &mut VisitedStates<T>) -> (expansion: Expansion)
        requires
            old(self).children@.len() == 0,
            old(previous_states).wf(),
        ensures
            final(previous_states).wf(),
            final(self).state == old(self).state,
            final(self).times_visited == old(self).times_visited,
            final(self).total_evaluation == old(self).total_evaluation,
            old(self).times_visited == 0 ==> {
                &&& expansion == Expansion::Itself
                &&& final(self).children@.len() == 0
                &&& final(previous_states).states@ == old(previous_states).states@
            },
            old(self).times_visited != 0 ==> {
                &&& states_of(final(self).children@) == fresh_successors(
                    old(self).state,
                    old(previous_states)@,
                    T::mutation_count(),
                )
                &&& new_children(final(self).children@, old(previous_states)@, final(previous_states)@)
                &&& final(self).children@.len() <= T::mutation_count()
                &&& expansion == if final(self).children@.len() == 0 {
                    Expansion::Exhausted
                } else {
                    Expansion::FirstChild
                }
            },
    {
        if self.times_visited == 0 {
            return Expansion::Itself;
        }
        self.children = get_children_from_mutations(self.state, previous_states);
        if self.children.is_empty() {
            return Expansion::Exhausted;
        }
        Expansion::FirstChild
    }

    /// The estimate of the simulation policy for the node's state, with the
    /// given evaluator, depth and visited states.
    pub fn simulate<E: Evaluator<T>, R: RollOut<T, E>>(
        &self,
        rollout: &R,
        evaluator: &E,
        rollout_depth: usize,
        previous_states: &VisitedStates<T>,
    ) -> (value: i32)
        ensures
            rollout.estimates(self.state, evaluator, rollout_depth, previous_states, value),
    {
        rollout.rollout(self.state, evaluator, rollout_depth, previous_states)
    }

    /// The child to descend into: a random one in random mode; else the
    /// first never-visited child if there is one, else the child with the
    /// strictly greatest score.
    pub fn best_ucb_score_index<X: Exploration>(&self, exploration: &X, random_search: bool) -> (best_index: usize)
        requires
            self.children@.len() > 0,
        ensures
            best_index < self.children@.len(),
            !random_search ==> best_index == self.selected(exploration),
            !random_search && (exists|j: int| 0 <= j < self.children@.len() && (#[trigger] self.children[j]).times_visited == 0)
                ==> self.first_unvisited_child(best_index as int),
    {
        if random_search {
            return random_index(self.children.len());
        }
        let mut scores: Vec<UcbScore> = Vec::new();
        let mut index: usize = 0;
        while index < self.children.len()
            invariant
                index <= self.children@.len(),
                scores@.len() == index,
                forall|i: int| 0 <= i < index ==> (#[trigger] scores@[i]).wf(),
                forall|i: int|
                    0 <= i < index ==> ((#[trigger] scores@[i]) == UcbScore::Unvisited) == (
                    self.children[i].times_visited == 0),
                forall|i: int|
                    0 <= i < index ==> (#[trigger] scores@[i]) == ucb_score(
                        self.children[i].total_evaluation as int,
                        self.children[i].times_visited as int,
                        exploration.term(self.times_visited, self.children[i].times_visited) as int,
                    ),
            decreases self.children@.len() - index,
        {
            let child = &self.children[index];
            let bonus: i32 = if child.times_visited == 0 {
                0
            } else {
                exploration.bonus(self.times_visited, child.times_visited)
            };
            scores.push(ucb(child.total_evaluation, child.times_visited, bonus));
            index += 1;
        }
        let best_index = best_score_index(&scores);
        proof {
            assert(scores@ =~= self.child_scores(exploration));
            if exists|j: int| 0 <= j < self.children@.len() && (#[trigger] self.children[j]).times_visited == 0 {
                let j = choose|j: int| 0 <= j < self.children@.len() && (#[trigger] self.children[j]).times_visited == 0;
                assert(scores@[j] == UcbScore::Unvisited);
                let first = lemma_first_unvisited(scores@, j);
                lemma_unvisited_first(scores@, scores@.len(), first);
                assert(scores@[first] == UcbScore::Unvisited);
                assert forall|i: int| 0 <= i < best_index implies (#[trigger] self.children[i]).times_visited != 0 by {
                    assert(scores@[i] != UcbScore::Unvisited);
                }
            }
        }
        best_index
    }

    /// One iteration from this node down: descends by selection to a node
    /// without children, expands it, simulates or applies the penalty of an
    /// exhausted node, and counts the resulting value at every node on the
    /// way back. A node without children that was never visited is simulated
    /// itself; one that was, and that got children, has its first child
    /// simulated.
    pub fn run<E: Evaluator<T>, R: RollOut<T, E>, X: Exploration>(
        &mut self,
        exploration: &X,
        rollout: &R,
        evaluator: &E,
        rollout_depth: usize,
        previous_states: &mut VisitedStates<T>,
        move_away: Ratio,
        random_search: bool,
    ) -> (value: i32)
        requires
            old(self).wf(),
            old(self).within(old(previous_states)@),
            old(previous_states).wf(),
            old(self).times_visited < u32::MAX,
            move_away.wf(),
        ensures
            final(self).wf(),
            final(previous_states).wf(),
            final(self).within(final(previous_states)@),
            final(self).state == old(self).state,
            final(self).times_visited == old(self).times_visited + 1,
            final(self).total_evaluation == old(self).total_evaluation + value,
            final(self).children@.len() >= old(self).children@.len(),
            old(self).children@.len() > 0 ==> states_of(final(self).children@) == states_of(old(self).children@),
            old(self).iterated(
                *final(self),
                value,
                *old(previous_states),
                *final(previous_states),
                exploration,
                rollout,
                evaluator,
                rollout_depth,
                move_away,
                random_search,
            ),
            forall|state: T| old(previous_states)@.contains(state) ==> final(previous_states)@.contains(state),
            forall|state: T| #[trigger] old(self).holds(state) ==> final(self).holds(state),
            forall|state: T| #[trigger]
                final(self).holds(state) ==> old(self).holds(state) || !old(previous_states)@.contains(state),
            final(self).size() <= old(self).size() + T::mutation_count(),
        decreases *old(self),
    {
        let ghost before = *self;
        let ghost visited_before = previous_states@;
        let ghost states_before = *previous_states;
        if self.children.is_empty() {
            let expansion = self.expand(previous_states);
            let value = match expansion {
                Expansion::Exhausted => penalized_value(self.total_evaluation, self.times_visited, move_away),
                Expansion::Itself => self.simulate(rollout, evaluator, rollout_depth, &*previous_states),
                Expansion::FirstChild => self.children[0].simulate(
                    rollout,
                    evaluator,
                    rollout_depth,
                    &*previous_states,
                ),
            };
            self.update_average(value);
            proof {
                lemma_expanded(before, *self, visited_before, previous_states@);
            }
            return value;
        }
        let best_index = self.best_ucb_score_index(exploration, random_search);
        proof {
            assert(self.children[best_index as int].wf());
            assert forall|state: T| #[trigger] self.children[best_index as int].holds(state) implies visited_before.contains(
                state,
            ) by {
                self.lemma_child_holds(best_index as int, state);
            }
        }
        let value = self.children[best_index].run(
            exploration,
            rollout,
            evaluator,
            rollout_depth,
            previous_states,
            move_away,
            random_search,
        );
        self.update_average(value);
        proof {
            lemma_replaced_child(before, *self, best_index as int, visited_before, previous_states@);
            assert(states_of(self.children@) =~= states_of(before.children@));
            assert(before.children[best_index as int].iterated(
                self.children[best_index as int],
                value,
                states_before,
                *previous_states,
                exploration,
                rollout,
                evaluator,
                rollout_depth,
                move_away,
                random_search,
            ));
        }
        value
    }
}

/// The nodes are fresh, their states are pairwise different and were not in
/// `before`, and `after` is `before` together with their states.
pub open spec fn new_children<T: State>(nodes: Seq<TreeSearchNode<T>>, before: Set<T>, after: Set<T>) -> bool {
    &&& forall|i: int| 0 <= i < nodes.len() ==> (#[trigger] nodes[i]).is_fresh() && !before.contains(nodes[i].state)
    &&& forall|i: int, j: int| 0 <= i < j < nodes.len() ==> (#[trigger] nodes[i]).state != (#[trigger] nodes[j]).state
    &&& forall|state: T|
        after.contains(state) <==> before.contains(state) || exists|i: int|
            0 <= i < nodes.len() && (#[trigger] nodes[i]).state == state
}

/// One fresh node for every successor of `state` that was not visited
/// before, in the order of the mutations; the successors become visited.
pub fn get_children_from_mutations<T: State>(state: T, previous_states: &mut VisitedStates<T>) -> (children: Vec<
    TreeSearchNode<T>,
>)
    requires
        old(previous_states).wf(),
    ensures
        final(previous_states).wf(),
        states_of(children@) == fresh_successors(state, old(previous_states)@, T::mutation_count()),
        new_children(children@, old(previous_states)@, final(previous_states)@),
        children@.len() <= T::mutation_count(),
{
    let ghost before = previous_states@;
    let count = T::get_mutation_count();
    let mut children: Vec<TreeSearchNode<T>> = Vec::new();
    let mut index: usize = 0;
    proof {
        assert(states_of(children@) =~= fresh_successors(state, before, 0));
    }
    while index < count
        invariant
            index <= count == T::mutation_count(),
            previous_states.wf(),
            children@.len() <= index,
            states_of(children@) == fresh_successors(state, before, index as nat),
            new_children(children@, before, previous_states@),
        decreases count - index,
    {
        let child_state = state.mutate(index);
        let ghost earlier = children@;
        let ghost visited = previous_states@;
        proof {
            assert(states_of(earlier).contains(child_state) <==> exists|i: int|
                0 <= i < earlier.len() && (#[trigger] earlier[i]).state == child_state) by {
                if states_of(earlier).contains(child_state) {
                    let i = choose|i: int| 0 <= i < states_of(earlier).len() && states_of(earlier)[i] == child_state;
                    assert(earlier[i].state == child_state);
                }
                if exists|i: int| 0 <= i < earlier.len() && (#[trigger] earlier[i]).state == child_state {
                    let i = choose|i: int| 0 <= i < earlier.len() && (#[trigger] earlier[i]).state == child_state;
                    assert(states_of(earlier)[i] == child_state);
                }
            }
        }
        if !previous_states.contains(&child_state) {
            let child = TreeSearchNode::new(child_state, previous_states);
            children.push(child);
            proof {
                assert(states_of(children@) =~= states_of(earlier).push(child_state));
                assert forall|s: T| previous_states@.contains(s) <==> before.contains(s) || exists|i: int|
                    0 <= i < children@.len() && (#[trigger] children@[i]).state == s by {
                    if previous_states@.contains(s) && !before.contains(s) {
                        if s == child_state {
                            assert(children@[earlier.len() as int].state == s);
                        } else {
                            assert(visited.contains(s));
                            let i = choose|i: int| 0 <= i < earlier.len() && (#[trigger] earlier[i]).state == s;
                            assert(children@[i].state == s);
                        }
                    }
                    if exists|i: int| 0 <= i < children@.len() && (#[trigger] children@[i]).state == s {
                        let i = choose|i: int| 0 <= i < children@.len() && (#[trigger] children@[i]).state == s;
                        if i < earlier.len() {
                            assert(earlier[i].state == s);
                            assert(visited.contains(s));
                        }
                    }
                }
                assert forall|i: int, j: int| 0 <= i < j < children@.len() implies (#[trigger] children@[i]).state != (
                #[trigger] children@[j]).state by {
                    if j == earlier.len() {
                        assert(earlier[i].state != child_state);
                    } else {
                        assert(earlier[i].state != earlier[j].state);
                    }
                }
            }
        }
        index += 1;
    }
    children
}

/// The subtrees of fresh children have one node each.
pub proof fn lemma_size_of_fresh_children<T: State>(node: TreeSearchNode<T>, count: nat)
    requires
        count <= node.children@.len(),
        forall|i: int| 0 <= i < node.children@.len() ==> (#[trigger] node.children[i]).is_fresh(),
    ensures
        node.size_of_children(count) == count,
    decreases count,
{
    if count > 0 {
        lemma_size_of_fresh_children(node, (count - 1) as nat);
        let child = node.children[count - 1];
        assert(child.is_fresh());
        assert(child.size_of_children(0) == 0);
        assert(child.size() == 1);
    }
}

/// A childless node that received fresh children for states that were not
/// visited before is a well-formed tree again, of at most as many more nodes
/// as it has children.
pub proof fn lemma_expanded<T: State>(
    before: TreeSearchNode<T>,
    after: TreeSearchNode<T>,
    visited_before: Set<T>,
    visited_after: Set<T>,
)
    requires
        before.wf(),
        before.within(visited_before),
        before.children@.len() == 0,
        after.state == before.state,
        after.total_bounded(),
        after.times_visited > 0,
        new_children(after.children@, visited_before, visited_after),
        after.children@.len() > 0 ==> states_of(after.children@) == fresh_successors(
            before.state,
            visited_before,
            T::mutation_count(),
        ),
    ensures
        after.wf(),
        after.within(visited_after),
        forall|state: T| #[trigger] before.holds(state) ==> after.holds(state),
        forall|state: T| #[trigger] after.holds(state) ==> before.holds(state) || !visited_before.contains(state),
        after.size() == before.size() + after.children@.len(),
{
    assert(before.holds(before.state));
    assert(visited_before.contains(after.state));
    assert forall|i: int| 0 <= i < after.children@.len() implies {
        &&& (#[trigger] after.children[i]).wf()
        &&& after.children[i].times_visited <= after.times_visited
        &&& !after.children[i].holds(after.state)
        &&& is_successor(after.state, after.children[i].state)
    } by {
        assert(after.children@[i].is_fresh());
        lemma_fresh_successors_are_successors(before.state, visited_before, T::mutation_count());
        assert(states_of(after.children@)[i] == after.children[i].state);
    }
    assert forall|i: int, j: int, state: T|
        0 <= i < j < after.children@.len() && #[trigger] after.children[i].holds(state) implies !#[trigger] after.children[j].holds(
        state,
    ) by {
        assert(after.children@[i].is_fresh());
        assert(after.children@[j].is_fresh());
        assert(after.children@[i].state != after.children@[j].state);
    }
    assert forall|state: T| #[trigger] after.holds(state) implies (before.holds(state) || !visited_before.contains(
        state,
    )) && visited_after.contains(state) by {
        if state != after.state {
            let i = choose|i: int| 0 <= i < after.children@.len() && (#[trigger] after.children[i]).holds(state);
            assert(after.children@[i].is_fresh());
            assert(after.children@[i].state == state);
        }
    }
    lemma_size_of_fresh_children(after, after.children@.len());
    assert(before.size_of_children(0) == 0);
}

/// Two nodes whose children differ at index `at` only differ in the size
/// of their children by the sizes of those two.
pub proof fn lemma_size_replaced<T: State>(
    before: TreeSearchNode<T>,
    after: TreeSearchNode<T>,
    at: int,
    count: nat,
)
    requires
        0 <= at < before.children@.len(),
        after.children@.len() == before.children@.len(),
        forall|i: int| 0 <= i < before.children@.len() && i != at ==> after.children[i] == before.children[i],
        count <= before.children@.len(),
    ensures
        after.size_of_children(count) + (if count > at {
            before.children[at].size()
        } else {
            0
        }) == before.size_of_children(count) + (if count > at {
            after.children[at].size()
        } else {
            0
        }),
    decreases count,
{
    if count > 0 {
        lemma_size_replaced(before, after, at, (count - 1) as nat);
    }
}

/// A well-formed tree in which one subtree made an iteration of its own is
/// well formed again.
pub proof fn lemma_replaced_child<T: State>(
    before: TreeSearchNode<T>,
    after: TreeSearchNode<T>,
    at: int,
    visited_before: Set<T>,
    visited_after: Set<T>,
)
    requires
        before.wf(),
        before.within(visited_before),
        0 <= at < before.children@.len(),
        after.state == before.state,
        after.total_bounded(),
        after.times_visited == before.times_visited + 1,
        after.children@.len() == before.children@.len(),
        forall|i: int| 0 <= i < before.children@.len() && i != at ==> after.children[i] == before.children[i],
        after.children[at].wf(),
        after.children[at].state == before.children[at].state,
        after.children[at].within(visited_after),
        after.children[at].times_visited == before.children[at].times_visited + 1,
        forall|state: T| visited_before.contains(state) ==> visited_after.contains(state),
        forall|state: T| #[trigger] before.children[at].holds(state) ==> after.children[at].holds(state),
        forall|state: T| #[trigger]
            after.children[at].holds(state) ==> before.children[at].holds(state) || !visited_before.contains(state),
    ensures
        after.wf(),
        after.within(visited_after),
        forall|state: T| #[trigger] before.holds(state) ==> after.holds(state),
        forall|state: T| #[trigger] after.holds(state) ==> before.holds(state) || !visited_before.contains(state),
        after.size() + before.children[at].size() == before.size() + after.children[at].size(),
{
    assert(before.holds(before.state));
    assert forall|i: int, state: T| 0 <= i < before.children@.len() && #[trigger] before.children[i].holds(state) implies visited_before.contains(
        state,
    ) by {
        before.lemma_child_holds(i, state);
    }
    assert forall|i: int| 0 <= i < after.children@.len() implies {
        &&& (#[trigger] after.children[i]).wf()
        &&& after.children[i].times_visited <= after.times_visited
        &&& !after.children[i].holds(after.state)
    } by {
        assert(before.children[i].wf());
        if i == at {
            if after.children[at].holds(after.state) {
                assert(before.children[at].holds(before.state) || !visited_before.contains(before.state));
            }
        }
    }
    assert forall|i: int, j: int, state: T|
        0 <= i < j < after.children@.len() && #[trigger] after.children[i].holds(state) implies !#[trigger] after.children[j].holds(
        state,
    ) by {
        if after.children[j].holds(state) {
            if i == at {
                assert(before.children[j].holds(state));
                assert(visited_before.contains(state));
                assert(before.children[at].holds(state));
            } else if j == at {
                assert(before.children[i].holds(state));
                assert(visited_before.contains(state));
                assert(before.children[at].holds(state));
            } else {
                assert(before.children[i].holds(state));
                assert(before.children[j].holds(state));
            }
        }
    }
    assert forall|state: T| #[trigger] before.holds(state) implies after.holds(state) by {
        if state != before.state {
            let i = choose|i: int| 0 <= i < before.children@.len() && (#[trigger] before.children[i]).holds(state);
            if i == at {
                assert(after.children[at].holds(state));
            } else {
                assert(after.children[i].holds(state));
            }
            after.lemma_child_holds(i, state);
        }
    }
    assert forall|state: T| #[trigger] after.holds(state) implies (before.holds(state) || !visited_before.contains(
        state,
    )) && visited_after.contains(state) by {
        if state != after.state {
            let i = choose|i: int| 0 <= i < after.children@.len() && (#[trigger] after.children[i]).holds(state);
            if i == at {
                if before.children[at].holds(state) {
                    before.lemma_child_holds(at, state);
                }
            } else {
                assert(before.children[i].holds(state));
                before.lemma_child_holds(i, state);
            }
        }
    }
    lemma_size_replaced(before, after, at, before.children@.len());
}

/// `trees` are the trees of a search from `start_state`, one after every
/// iteration: the first is a fresh root and the only visited state is its
/// own, and each next one is made from the one before by one iteration that
/// brought back the value of the same index.
pub open spec fn iterations<T: State, E: Evaluator<T>, R: RollOut<T, E>, X: Exploration>(
    trees: Seq<TreeSearchNode<T>>,
    visited: Seq<VisitedStates<T>>,
    values: Seq<i32>,
    start_state: T,
    exploration: &X,
    rollout: &R,
    evaluator: &E,
    rollout_depth: usize,
    move_away: Ratio,
    random_search: bool,
) -> bool {
    &&& trees.len() == values.len() + 1
    &&& visited.len() == values.len() + 1
    &&& trees[0].state == start_state
    &&& trees[0].is_fresh()
    &&& visited[0].states@ == seq![start_state]
    &&& forall|i: int|
        0 <= i < values.len() ==> (#[trigger] trees[i]).iterated(
            trees[i + 1],
            values[i],
            visited[i],
            visited[i + 1],
            exploration,
            rollout,
            evaluator,
            rollout_depth,
            move_away,
            random_search,
        )
}

/// `tree` is the tree of a search of `loops` iterations from `start_state`:
/// the last of the trees of such a search. It is well formed, its root was
/// visited once per iteration, and from the second iteration on the root's
/// children are the successors of the start state other than itself.
pub open spec fn searched<T: State, E: Evaluator<T>, R: RollOut<T, E>, X: Exploration>(
    tree: TreeSearchNode<T>,
    start_state: T,
    loops: u32,
    exploration: &X,
    rollout: &R,
    evaluator: &E,
    rollout_depth: usize,
    move_away: Ratio,
    random_search: bool,
) -> bool {
    &&& tree.wf()
    &&& tree.state == start_state
    &&& tree.times_visited == loops
    &&& 1 <= tree.size() <= 1 + loops * T::mutation_count()
    &&& loops <= 1 ==> tree.children@.len() == 0 && tree.size() == 1
    &&& loops >= 2 ==> states_of(tree.children@) == fresh_successors(
        start_state,
        Set::<T>::empty().insert(start_state),
        T::mutation_count(),
    )
    &&& exists|trees: Seq<TreeSearchNode<T>>, visited: Seq<VisitedStates<T>>, values: Seq<i32>|
        {
            &&& values.len() == loops
            &&& #[trigger] iterations(
                trees,
                visited,
                values,
                start_state,
                exploration,
                rollout,
                evaluator,
                rollout_depth,
                move_away,
                random_search,
            )
            &&& trees[loops as int] == tree
        }
}

/// Builds the search tree: a root for `start_state` and `loops` iterations
/// from it.
pub fn search_tree<T: State, E: Evaluator<T>, R: RollOut<T, E>, X: Exploration>(
    start_state: T,
    rollout: &R,
    evaluator: &E,
    loops: u32,
    rollout_depth: usize,
    exploration: &X,
    move_away: Ratio,
    random_search: bool,
) -> (tree: TreeSearchNode<T>)
    requires
        move_away.wf(),
    ensures
        searched(
            tree,
            start_state,
            loops,
            exploration,
            rollout,
            evaluator,
            rollout_depth,
            move_away,
            random_search,
        ),
{
    let mut previous_states: VisitedStates<T> = VisitedStates::new();
    let mut base_node = TreeSearchNode::new(start_state, &mut previous_states);
    let ghost root_set = Set::<T>::empty().insert(start_state);
    let ghost mut trees: Seq<TreeSearchNode<T>> = seq![base_node];
    let ghost mut visited: Seq<VisitedStates<T>> = seq![previous_states];
    let ghost mut values: Seq<i32> = Seq::empty();
    proof {
        assert(base_node.size_of_children(0) == 0);
        assert forall|state: T| #[trigger] base_node.holds(state) implies previous_states@.contains(state) by {}
        assert(previous_states.states@ =~= seq![start_state]);
        assert(previous_states@ =~= root_set);
    }
    let mut loop_number: u32 = 0;
    while loop_number < loops
        invariant
            loop_number <= loops,
            move_away.wf(),
            base_node.wf(),
            base_node.within(previous_states@),
            previous_states.wf(),
            base_node.state == start_state,
            base_node.times_visited == loop_number,
            1 <= base_node.size() <= 1 + loop_number * T::mutation_count(),
            loop_number <= 1 ==> base_node.children@.len() == 0 && base_node.size() == 1,
            root_set == Set::<T>::empty().insert(start_state),
            base_node.children@.len() == 0 ==> previous_states@ == root_set,
            loop_number >= 2 ==> states_of(base_node.children@) == fresh_successors(
                start_state,
                root_set,
                T::mutation_count(),
            ),
            values.len() == loop_number,
            iterations(
                trees,
                visited,
                values,
                start_state,
                exploration,
                rollout,
                evaluator,
                rollout_depth,
                move_away,
                random_search,
            ),
            trees[loop_number as int] == base_node,
            visited[loop_number as int] == previous_states,
        decreases loops - loop_number,
    {
        let ghost tree_before = base_node;
        let ghost visited_before = previous_states;
        let ghost trees_before = trees;
        let ghost all_visited_before = visited;
        let ghost values_before = values;
        let value = base_node.run(
            exploration,
            rollout,
            evaluator,
            rollout_depth,
            &mut previous_states,
            move_away,
            random_search,
        );
        proof {
            let n = loop_number as int;
            let m = T::mutation_count() as int;
            assert(1 + n * m + m == 1 + (n + 1) * m) by (nonlinear_arith);
            if loop_number == 0 {
                assert(base_node.size_of_children(0) == 0);
            }
            if tree_before.children@.len() == 0 {
                if base_node.children@.len() == 0 {
                    assert(previous_states@ =~= visited_before@);
                    assert(states_of(base_node.children@) =~= Seq::<T>::empty());
                }
            }
            trees = trees.push(base_node);
            visited = visited.push(previous_states);
            values = values.push(value);
            assert forall|i: int| 0 <= i < values.len() implies (#[trigger] trees[i]).iterated(
                trees[i + 1],
                values[i],
                visited[i],
                visited[i + 1],
                exploration,
                rollout,
                evaluator,
                rollout_depth,
                move_away,
                random_search,
            ) by {
                if i < n {
                    assert(trees[i] == trees_before[i]);
                    assert(trees[i + 1] == trees_before[i + 1]);
                    assert(visited[i] == all_visited_before[i]);
                    assert(visited[i + 1] == all_visited_before[i + 1]);
                    assert(values[i] == values_before[i]);
                } else {
                    assert(trees[i] == tree_before);
                    assert(visited[i] == visited_before);
                }
            }
        }
        loop_number += 1;
    }
    base_node
}

/// Searches from `start_state` for `loops` iterations and returns the best
/// state of the resulting tree together with the number of its nodes.
pub fn search<T: State, E: Evaluator<T>, R: RollOut<T, E>, X: Exploration>(
    start_state: T,
    rollout: &R,
    evaluator: &E,
    loops: u32,
    rollout_depth: usize,
    exploration: &X,
    move_away: Ratio,
    random_search: bool,
) -> (result: (T, u32))
    requires
        move_away.wf(),
        1 + loops * T::mutation_count() <= u32::MAX,
    ensures
        exists|tree: TreeSearchNode<T>|
            {
                &&& #[trigger] searched(
                    tree,
                    start_state,
                    loops,
                    exploration,
                    rollout,
                    evaluator,
                    rollout_depth,
                    move_away,
                    random_search,
                )
                &&& result.0 == tree.max_state(evaluator)
                &&& result.1 == tree.size()
                &&& tree.holds(result.0)
                &&& forall|state: T| #[trigger] tree.holds(state) ==> evaluator.score(state) <= evaluator.score(result.0)
            },
        loops <= 1 ==> result == (start_state, 1u32),
        reachable(start_state, result.0),
        evaluator.score(result.0) >= evaluator.score(start_state),
        1 <= result.1 <= 1 + loops * T::mutation_count(),
{
    let base_node = search_tree(
        start_state,
        rollout,
        evaluator,
        loops,
        rollout_depth,
        exploration,
        move_away,
        random_search,
    );
    let best_state = base_node.get_max_state(evaluator);
    let tree_size = base_node.get_tree_size();
    proof {
        assert(base_node.holds(start_state));
        lemma_held_states_reachable(base_node, best_state);
        if loops <= 1 {
            assert(base_node.max_state_of(evaluator, 0) == start_state);
        }
    }
    (best_state, tree_size)
}

} // verus!
