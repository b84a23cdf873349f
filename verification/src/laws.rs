//! What holds of every search tree and of every sequence of backpropagated
//! values.

use crate::scoring::{
    lemma_first_unvisited, lemma_unvisited_first, penalized, penalized_numerator, truncated_quotient, Ratio, UcbScore,
};
use crate::tree_search::{fresh_successors, is_successor, searched, states_of, TreeSearchNode};
use crate::types::{Evaluator, Exploration, RollOut, State};
use vstd::prelude::*;

verus! {

/// `path` leads from `node` down to one of the nodes of its tree: each
/// entry is the index of the child to descend into.
pub open spec fn has_path<T: State>(node: TreeSearchNode<T>, path: Seq<int>) -> bool
    decreases path.len(),
{
    path.len() == 0 || (0 <= path[0] < node.children@.len() && has_path(node.children[path[0]], path.skip(1)))
}

/// The state of the node that `path` leads to.
pub open spec fn state_at<T: State>(node: TreeSearchNode<T>, path: Seq<int>) -> T
    decreases path.len(),
{
    if path.len() == 0 || !(0 <= path[0] < node.children@.len()) {
        node.state
    } else {
        state_at(node.children[path[0]], path.skip(1))
    }
}

/// The state of every node of a tree is one that the tree holds.
pub proof fn lemma_path_state_held<T: State>(node: TreeSearchNode<T>, path: Seq<int>)
    requires
        has_path(node, path),
    ensures
        node.holds(state_at(node, path)),
    decreases path.len(),
{
    if path.len() > 0 {
        lemma_path_state_held(node.children[path[0]], path.skip(1));
        node.lemma_child_holds(path[0], state_at(node, path));
    }
}

/// No two distinct nodes of a well-formed tree hold equal states.
pub proof fn lemma_states_distinct<T: State>(node: TreeSearchNode<T>, first: Seq<int>, second: Seq<int>)
    requires
        node.wf(),
        has_path(node, first),
        has_path(node, second),
        first != second,
    ensures
        state_at(node, first) != state_at(node, second),
    decreases first.len(),
{
    if first.len() == 0 {
        assert(second.len() > 0) by {
            if second.len() == 0 {
                assert(first =~= second);
            }
        }
        lemma_path_state_held(node.children[second[0]], second.skip(1));
    } else if second.len() == 0 {
        lemma_path_state_held(node.children[first[0]], first.skip(1));
    } else if first[0] == second[0] {
        assert(first.skip(1) != second.skip(1)) by {
            if first.skip(1) == second.skip(1) {
                assert(first =~= seq![first[0]] + first.skip(1));
                assert(second =~= seq![second[0]] + second.skip(1));
            }
        }
        lemma_states_distinct(node.children[first[0]], first.skip(1), second.skip(1));
    } else {
        lemma_path_state_held(node.children[first[0]], first.skip(1));
        lemma_path_state_held(node.children[second[0]], second.skip(1));
        let state = state_at(node, first);
        if first[0] < second[0] {
            assert(node.children[first[0]].holds(state));
        } else {
            assert(node.children[second[0]].holds(state_at(node, second)));
        }
    }
}

/// The sum of the first `count` of the given sizes.
pub open spec fn sum_of_sizes(sizes: Seq<nat>, count: nat) -> nat
    decreases count,
{
    if count == 0 {
        0
    } else {
        sum_of_sizes(sizes, (count - 1) as nat) + sizes[count - 1]
    }
}

/// The sizes of the subtrees of a node's children.
pub open spec fn child_sizes<T: State>(node: TreeSearchNode<T>) -> Seq<nat> {
    Seq::new(node.children@.len(), |i: int| node.children[i].size())
}

/// The subtrees of the first `count` children have as many nodes as their
/// sizes add up to.
pub proof fn lemma_size_of_children_is_sum<T: State>(node: TreeSearchNode<T>, count: nat)
    requires
        count <= node.children@.len(),
    ensures
        node.size_of_children(count) == sum_of_sizes(child_sizes(node), count),
    decreases count,
{
    if count > 0 {
        lemma_size_of_children_is_sum(node, (count - 1) as nat);
    }
}

/// A tree has one node more than the trees of its children together.
pub proof fn lemma_tree_size_accounting<T: State>(node: TreeSearchNode<T>)
    ensures
        node.size() == 1 + sum_of_sizes(child_sizes(node), node.children@.len()),
{
    lemma_size_of_children_is_sum(node, node.children@.len());
}

/// The sum of the given values.
pub open spec fn sum_of_values(values: Seq<i32>) -> int
    decreases values.len(),
{
    if values.len() == 0 {
        0
    } else {
        sum_of_values(values.drop_last()) + values.last()
    }
}

/// The visits and the total evaluation of a node after the given values
/// were backpropagated through it one after the other.
pub open spec fn backpropagated(times_visited: int, total_evaluation: int, values: Seq<i32>) -> (int, int)
    decreases values.len(),
{
    if values.len() == 0 {
        (times_visited, total_evaluation)
    } else {
        let earlier = backpropagated(times_visited, total_evaluation, values.drop_last());
        (earlier.0 + 1, earlier.1 + values.last())
    }
}

/// A fresh node through which values were backpropagated was visited once
/// for each of them, and its total evaluation is their sum: its average is
/// their arithmetic mean.
pub proof fn lemma_mean_of_backpropagated(values: Seq<i32>)
    ensures
        backpropagated(0, 0, values) == (values.len() as int, sum_of_values(values)),
    decreases values.len(),
{
    if values.len() > 0 {
        lemma_mean_of_backpropagated(values.drop_last());
    }
}

/// For a nonzero average and a positive constant the exact penalized value
/// lies strictly below the average.
pub proof fn lemma_penalty_below_average(total_evaluation: int, times_visited: int, move_away: Ratio)
    requires
        times_visited > 0,
        move_away.wf(),
        move_away.numerator > 0,
        total_evaluation != 0,
    ensures
        penalized_numerator(total_evaluation, move_away) < total_evaluation * move_away.denominator,
{
    let d = move_away.denominator as int;
    let n = move_away.numerator as int;
    if total_evaluation > 0 {
        assert(total_evaluation * (d - n) < total_evaluation * d) by (nonlinear_arith)
            requires
                total_evaluation > 0,
                n > 0,
        ;
    } else {
        assert(total_evaluation * (d + n) < total_evaluation * d) by (nonlinear_arith)
            requires
                total_evaluation < 0,
                n > 0,
        ;
    }
}

/// An exhausted node with a positive average backpropagates a value
/// strictly below that average, so that its average strictly decreases.
pub proof fn lemma_penalty_lowers_positive_average(total_evaluation: int, times_visited: int, move_away: Ratio)
    requires
        times_visited > 0,
        move_away.wf(),
        move_away.numerator > 0,
        total_evaluation > 0,
    ensures
        penalized(total_evaluation, times_visited, move_away) * times_visited < total_evaluation,
        (total_evaluation + penalized(total_evaluation, times_visited, move_away)) * times_visited < total_evaluation
            * (times_visited + 1),
{
    let d = move_away.denominator as int;
    let n = move_away.numerator as int;
    let a = penalized_numerator(total_evaluation, move_away);
    let b = times_visited * d;
    let q = truncated_quotient(a, b);
    let p = penalized(total_evaluation, times_visited, move_away);
    assert(b > 0) by (nonlinear_arith)
        requires
            b == times_visited * d,
            times_visited > 0,
            d > 0,
    ;
    lemma_penalty_below_average(total_evaluation, times_visited, move_away);
    if a >= 0 {
        assert(q * times_visited < total_evaluation && q >= 0) by (nonlinear_arith)
            requires
                q == a / b,
                b == times_visited * d,
                a >= 0,
                a < total_evaluation * d,
                times_visited > 0,
                d > 0,
        ;
        assert(p <= q);
        assert(p * times_visited <= q * times_visited) by (nonlinear_arith)
            requires
                p <= q,
                times_visited > 0,
        ;
    } else {
        assert(q <= 0) by (nonlinear_arith)
            requires
                q == -((-a) / b),
                a < 0,
                b > 0,
        ;
        assert(p <= 0);
        assert(p * times_visited <= 0) by (nonlinear_arith)
            requires
                p <= 0,
                times_visited > 0,
        ;
    }
    assert((total_evaluation + p) * times_visited < total_evaluation * (times_visited + 1)) by (nonlinear_arith)
        requires
            p * times_visited < total_evaluation,
    ;
}

/// The state that the mutations of the indices in `path`, applied one
/// after the other, produce from `from`.
pub open spec fn follows<T: State>(from: T, path: Seq<int>) -> T
    decreases path.len(),
{
    if path.len() == 0 {
        from
    } else {
        follows(from, path.drop_last()).mutated(path.last())
    }
}

/// Every entry of `path` is the index of a mutation.
pub open spec fn valid_path<T: State>(path: Seq<int>) -> bool {
    forall|i: int| 0 <= i < path.len() ==> 0 <= #[trigger] path[i] < T::mutation_count()
}

/// `to` is reached from `from` by zero or more mutations.
pub open spec fn reachable<T: State>(from: T, to: T) -> bool {
    exists|path: Seq<int>| valid_path::<T>(path) && #[trigger] follows(from, path) == to
}

/// A path after a first step leads where the path leads from the state
/// after that step.
pub proof fn lemma_follows_after_first_step<T: State>(from: T, first: int, path: Seq<int>)
    ensures
        follows(from, seq![first] + path) == follows(from.mutated(first), path),
    decreases path.len(),
{
    let whole = seq![first] + path;
    if path.len() == 0 {
        assert(whole.drop_last() =~= Seq::<int>::empty());
        assert(follows(from, whole.drop_last()) == from);
        assert(whole.last() == first);
    } else {
        lemma_follows_after_first_step(from, first, path.drop_last());
        assert(whole.drop_last() =~= seq![first] + path.drop_last());
        assert(whole.last() == path.last());
    }
}

/// Every state of a well-formed tree is reached from the state of its root
/// by mutations.
pub proof fn lemma_held_states_reachable<T: State>(node: TreeSearchNode<T>, state: T)
    requires
        node.wf(),
        node.holds(state),
    ensures
        reachable(node.state, state),
    decreases node,
{
    if node.state == state {
        let path = Seq::<int>::empty();
        assert(follows(node.state, path) == state);
        assert(valid_path::<T>(path));
    } else {
        let i = choose|i: int| 0 <= i < node.children@.len() && (#[trigger] node.children[i]).holds(state);
        let child = node.children[i];
        assert(child.wf());
        lemma_held_states_reachable(child, state);
        assert(is_successor(node.state, child.state));
        let first = choose|index: int|
            0 <= index < T::mutation_count() && child.state == #[trigger] node.state.mutated(index);
        let rest = choose|path: Seq<int>| valid_path::<T>(path) && #[trigger] follows(child.state, path) == state;
        let path = seq![first] + rest;
        lemma_follows_after_first_step(node.state, first, rest);
        assert(valid_path::<T>(path)) by {
            assert forall|k: int| 0 <= k < path.len() implies 0 <= #[trigger] path[k] < T::mutation_count() by {
                if k > 0 {
                    assert(path[k] == rest[k - 1]);
                }
            }
        }
        assert(follows(node.state, path) == state);
    }
}

/// The selection by scores descends into the first child that was never
/// visited, if there is one, whatever the scores of the others are.
pub proof fn lemma_selected_unvisited_first<T: State, X: Exploration>(node: TreeSearchNode<T>, exploration: &X, unvisited: int)
    requires
        0 <= unvisited < node.children@.len(),
        node.children[unvisited].times_visited == 0,
    ensures
        node.first_unvisited_child(node.selected(exploration)),
{
    let scores = node.child_scores(exploration);
    assert(scores[unvisited] == UcbScore::Unvisited);
    let first = lemma_first_unvisited(scores, unvisited);
    lemma_unvisited_first(scores, scores.len(), first);
    assert(scores[first] == UcbScore::Unvisited);
    assert forall|i: int| 0 <= i < first implies (#[trigger] node.children[i]).times_visited != 0 by {
        assert(scores[i] != UcbScore::Unvisited);
    }
}

/// A state whose successors are all visited has no fresh successor.
pub proof fn lemma_no_fresh_successors<T: State>(state: T, visited: Set<T>, count: nat)
    requires
        forall|index: int| 0 <= index < count ==> visited.contains(#[trigger] state.mutated(index)),
    ensures
        fresh_successors(state, visited, count) == Seq::<T>::empty(),
    decreases count,
{
    if count > 0 {
        lemma_no_fresh_successors(state, visited, (count - 1) as nat);
    }
}

/// A search from a state that every mutation maps to itself keeps a single
/// node, and its best state is the start state.
pub proof fn lemma_search_without_successors<T: State, E: Evaluator<T>, R: RollOut<T, E>, X: Exploration>(
    tree: TreeSearchNode<T>,
    start_state: T,
    loops: u32,
    exploration: &X,
    rollout: &R,
    evaluator: &E,
    rollout_depth: usize,
    move_away: Ratio,
    random_search: bool,
)
    requires
        searched(tree, start_state, loops, exploration, rollout, evaluator, rollout_depth, move_away, random_search),
        forall|index: int| 0 <= index < T::mutation_count() ==> #[trigger] start_state.mutated(index) == start_state,
    ensures
        tree.children@.len() == 0,
        tree.size() == 1,
        tree.max_state(evaluator) == start_state,
{
    if loops >= 2 {
        let root_set = Set::<T>::empty().insert(start_state);
        lemma_no_fresh_successors(start_state, root_set, T::mutation_count());
        assert(tree.children@.len() == states_of(tree.children@).len());
    }
    assert(tree.size_of_children(0) == 0);
    assert(tree.max_state_of(evaluator, 0) == start_state);
}

} // verus!
