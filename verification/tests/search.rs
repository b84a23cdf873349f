use tree_search::evaluations_tree::{EvaluationLeaf, EvaluationTree};
use tree_search::scoring::Ratio;
use tree_search::state_array::StateArray;
use tree_search::tree_search::{get_children_from_mutations, search, search_tree, Expansion, TreeSearchNode};
use tree_search::types::{Evaluator, Exploration, NoExploration, RollOut, State};
use tree_search::visited::VisitedStates;

fn at(first: i32) -> StateArray {
    StateArray([first, 0, 0, 0, 0])
}

/// Scores a state by its first coordinate.
fn first_coordinate() -> EvaluationTree {
    EvaluationTree::Leaf(EvaluationLeaf([1, 0, 0, 0, 0]))
}

/// Estimates a state by its own score.
struct Direct;

impl<T: Copy, E: Evaluator<T>> RollOut<T, E> for Direct {
    fn rollout(&self, state: T, evaluator: &E, _rollout_depth: usize, _previous_states: &VisitedStates<T>) -> i32 {
        evaluator.evaluate(state)
    }
}

/// The exploration term `c * sqrt(ln(N) / n)` in thousandths.
struct Ucb1(f64);

impl Exploration for Ucb1 {
    fn term(&self, total_times_visited: u32, times_visited: u32) -> i32 {
        let term = self.0 * ((total_times_visited as f64).ln() / times_visited as f64).sqrt();
        (term * 1000.0) as i32
    }

    fn bonus(&self, total_times_visited: u32, times_visited: u32) -> i32 {
        self.term(total_times_visited, times_visited)
    }
}

fn tenth() -> Ratio {
    Ratio { numerator: 1, denominator: 10 }
}

fn count_nodes<T>(node: &TreeSearchNode<T>) -> u32 {
    1 + node.children.iter().map(count_nodes).sum::<u32>()
}

fn collect_states<T: Copy>(node: &TreeSearchNode<T>, into: &mut Vec<T>) {
    into.push(node.state);
    for child in &node.children {
        collect_states(child, into);
    }
}

fn check_counts<T>(node: &TreeSearchNode<T>) {
    let through_children: u32 = node.children.iter().map(|child| child.times_visited).sum();
    assert!(through_children <= node.times_visited);
    for child in &node.children {
        check_counts(child);
    }
}

#[test]
fn no_iteration_gives_the_start_state_and_one_node() {
    let (best, size) = search(at(7), &Direct, &first_coordinate(), 0, 3, &NoExploration, tenth(), false);
    assert_eq!(best, at(7));
    assert_eq!(size, 1);
}

#[test]
fn first_iteration_simulates_the_root_without_expanding() {
    let tree = search_tree(at(5), &Direct, &first_coordinate(), 1, 3, &NoExploration, tenth(), false);
    assert_eq!(tree.times_visited, 1);
    assert_eq!(tree.total_evaluation, 5);
    assert!(tree.children.is_empty());
    assert_eq!(tree.get_tree_size(), 1);
    let (best, size) = search(at(5), &Direct, &first_coordinate(), 1, 3, &NoExploration, tenth(), false);
    assert_eq!((best, size), (at(5), 1));
}

#[test]
fn second_iteration_creates_one_child_per_new_successor() {
    let tree = search_tree(at(0), &Direct, &first_coordinate(), 2, 3, &NoExploration, tenth(), false);
    assert_eq!(tree.times_visited, 2);
    assert_eq!(tree.get_tree_size(), 11);
    let states: Vec<StateArray> = tree.children.iter().map(|child| child.state).collect();
    assert_eq!(states.len(), 10);
    assert_eq!(states[0], at(1));
    assert_eq!(states[1], at(-1));
    assert_eq!(states[2], StateArray([0, 1, 0, 0, 0]));
    assert_eq!(states[9], StateArray([0, 0, 0, 0, -1]));
    assert!(tree.children.iter().all(|child| child.times_visited == 0 && child.children.is_empty()));
    // the first child was simulated: its score is the value that came back
    assert_eq!(tree.total_evaluation, 1);
}

#[test]
fn later_iterations_descend_into_the_first_unvisited_child() {
    let tree = search_tree(at(0), &Direct, &first_coordinate(), 3, 3, &Ucb1(2.0), tenth(), false);
    assert_eq!(tree.times_visited, 3);
    assert_eq!(tree.children[0].times_visited, 1);
    assert_eq!(tree.children[0].total_evaluation, 1);
    assert!(tree.children[1..].iter().all(|child| child.times_visited == 0));
    assert_eq!(tree.total_evaluation, 2);
    let tree = search_tree(at(0), &Direct, &first_coordinate(), 4, 3, &Ucb1(2.0), tenth(), false);
    assert_eq!(tree.children[0].times_visited, 1);
    assert_eq!(tree.children[1].times_visited, 1);
    assert_eq!(tree.children[1].total_evaluation, -1);
    assert!(tree.children[2..].iter().all(|child| child.times_visited == 0));
    assert_eq!(tree.total_evaluation, 1);
}

#[test]
fn search_visits_the_root_once_per_iteration() {
    for loops in [0u32, 1, 2, 5, 17, 40, 150] {
        let tree = search_tree(at(0), &Direct, &first_coordinate(), loops, 3, &Ucb1(2.0), tenth(), false);
        assert_eq!(tree.times_visited, loops);
        check_counts(&tree);
        assert_eq!(tree.get_tree_size(), count_nodes(&tree));
        assert!(tree.get_tree_size() as u64 <= 1 + loops as u64 * 10);
    }
}

#[test]
fn no_state_occurs_twice_in_a_tree() {
    for random_search in [false, true] {
        let tree = search_tree(at(0), &Direct, &first_coordinate(), 120, 3, &Ucb1(2.0), tenth(), random_search);
        let mut states = Vec::new();
        collect_states(&tree, &mut states);
        assert!(states.len() > 11);
        let distinct: std::collections::HashSet<StateArray> = states.iter().copied().collect();
        assert_eq!(distinct.len(), states.len());
    }
}

#[test]
fn search_returns_the_best_state_of_the_tree() {
    let evaluator = first_coordinate();
    let (best, size) = search(at(0), &Direct, &evaluator, 60, 3, &Ucb1(2.0), tenth(), false);
    let tree = search_tree(at(0), &Direct, &evaluator, 60, 3, &Ucb1(2.0), tenth(), false);
    let mut states = Vec::new();
    collect_states(&tree, &mut states);
    assert_eq!(size as usize, states.len());
    let highest = states.iter().map(|state| evaluator.evaluate(*state)).max().unwrap();
    assert_eq!(evaluator.evaluate(best), highest);
    assert!(highest >= 1);
    assert_eq!(tree.get_max_state(&evaluator), best);
}

fn exhausted_root(start: StateArray) -> (TreeSearchNode<StateArray>, VisitedStates<StateArray>) {
    let mut visited = VisitedStates::new();
    let root = TreeSearchNode::new(start, &mut visited);
    for index in 0..StateArray::get_mutation_count() {
        visited.insert(start.mutate(index));
    }
    (root, visited)
}

#[test]
fn exhausted_root_backpropagates_the_penalized_average() {
    let evaluator = first_coordinate();
    let (mut root, mut visited) = exhausted_root(at(100));
    let known = visited.states.clone();
    let first = root.run(&NoExploration, &Direct, &evaluator, 3, &mut visited, tenth(), false);
    assert_eq!(first, 100);
    assert_eq!((root.times_visited, root.total_evaluation), (1, 100));
    let second = root.run(&NoExploration, &Direct, &evaluator, 3, &mut visited, tenth(), false);
    assert_eq!(second, 90);
    assert_eq!((root.times_visited, root.total_evaluation), (2, 190));
    let third = root.run(&NoExploration, &Direct, &evaluator, 3, &mut visited, tenth(), false);
    assert_eq!(third, 85);
    assert_eq!((root.times_visited, root.total_evaluation), (3, 275));
    assert!(root.children.is_empty());
    assert_eq!(visited.states, known);
    // the average went down with every exhausted visit: 100 > 95 > 275/3
    assert!(190 * 1 < 100 * 2);
    assert!(275 * 2 < 190 * 3);
}

#[test]
fn exhausted_root_with_a_negative_average() {
    let evaluator = first_coordinate();
    let (mut root, mut visited) = exhausted_root(at(-100));
    assert_eq!(root.run(&NoExploration, &Direct, &evaluator, 3, &mut visited, tenth(), false), -100);
    assert_eq!(root.run(&NoExploration, &Direct, &evaluator, 3, &mut visited, tenth(), false), -110);
    assert_eq!(root.run(&NoExploration, &Direct, &evaluator, 3, &mut visited, tenth(), false), -115);
    assert_eq!((root.times_visited, root.total_evaluation), (3, -325));
}

#[test]
fn expansion_skips_visited_successors() {
    let mut visited = VisitedStates::new();
    let root = TreeSearchNode::new(at(0), &mut visited);
    visited.insert(at(-1));
    visited.insert(StateArray([0, 0, 0, 1, 0]));
    let children = get_children_from_mutations(root.state, &mut visited);
    let states: Vec<StateArray> = children.iter().map(|child| child.state).collect();
    assert_eq!(states.len(), 8);
    assert_eq!(states[0], at(1));
    assert_eq!(states[1], StateArray([0, 1, 0, 0, 0]));
    assert!(!states.contains(&at(-1)));
    assert!(!states.contains(&StateArray([0, 0, 0, 1, 0])));
    assert_eq!(visited.states.len(), 11);
    assert_eq!(visited.states[3..], states[..]);
}

#[test]
fn expansion_skips_successors_equal_to_the_state() {
    let corner = StateArray([50000; 5]);
    let mut visited = VisitedStates::new();
    let root = TreeSearchNode::new(corner, &mut visited);
    let children = get_children_from_mutations(root.state, &mut visited);
    let states: Vec<StateArray> = children.iter().map(|child| child.state).collect();
    assert_eq!(states.len(), 5);
    assert_eq!(states[0], StateArray([49999, 50000, 50000, 50000, 50000]));
    assert_eq!(states[4], StateArray([50000, 50000, 50000, 50000, 49999]));
}

#[test]
fn expand_defers_until_the_node_was_visited() {
    let mut visited = VisitedStates::new();
    let mut node = TreeSearchNode::new(at(0), &mut visited);
    assert_eq!(node.expand(&mut visited), Expansion::Itself);
    assert!(node.children.is_empty());
    assert_eq!(visited.states, vec![at(0)]);
    node.update_average(4);
    assert_eq!(node.expand(&mut visited), Expansion::FirstChild);
    assert_eq!(node.children.len(), 10);

    let (mut stuck, mut visited) = exhausted_root(at(0));
    stuck.update_average(4);
    assert_eq!(stuck.expand(&mut visited), Expansion::Exhausted);
    assert!(stuck.children.is_empty());
}

#[test]
fn update_average_keeps_count_and_sum() {
    let mut visited = VisitedStates::new();
    let mut node = TreeSearchNode::new(at(0), &mut visited);
    let values = [5, -7, 12, 0, i32::MAX, i32::MIN];
    let mut sum: i64 = 0;
    for (done, value) in values.iter().enumerate() {
        node.update_average(*value);
        sum += *value as i64;
        assert_eq!(node.times_visited as usize, done + 1);
        assert_eq!(node.total_evaluation, sum);
    }
}

#[test]
fn simulate_hands_the_state_to_the_rollout() {
    let mut visited = VisitedStates::new();
    let node = TreeSearchNode::new(at(42), &mut visited);
    assert_eq!(node.simulate(&Direct, &first_coordinate(), 3, &visited), 42);
}

fn parent_with(stats: &[(u32, i64)]) -> TreeSearchNode<StateArray> {
    let children = stats
        .iter()
        .enumerate()
        .map(|(i, (times_visited, total_evaluation))| TreeSearchNode {
            times_visited: *times_visited,
            total_evaluation: *total_evaluation,
            state: StateArray([i as i32 + 1, i as i32 % 2, 0, 0, 0]),
            children: Vec::new(),
        })
        .collect();
    TreeSearchNode { times_visited: 50, total_evaluation: 0, state: at(0), children }
}

#[test]
fn selection_prefers_the_first_unvisited_child() {
    let parent = parent_with(&[(3, 3000), (0, 0), (5, 50000), (0, 0)]);
    assert_eq!(parent.best_ucb_score_index(&Ucb1(2.0), false), 1);
    assert_eq!(parent.best_ucb_score_index(&NoExploration, false), 1);
}

#[test]
fn selection_takes_the_greatest_score_and_the_earliest_on_a_tie() {
    let parent = parent_with(&[(2, 20), (4, 80), (1, 20), (3, 30)]);
    assert_eq!(parent.best_ucb_score_index(&NoExploration, false), 1);
    let parent = parent_with(&[(2, 40), (4, 80), (1, 20)]);
    assert_eq!(parent.best_ucb_score_index(&NoExploration, false), 0);
}

#[test]
fn selection_stays_at_the_first_child_when_no_score_is_positive() {
    let parent = parent_with(&[(2, -40), (4, -8), (1, 0)]);
    assert_eq!(parent.best_ucb_score_index(&NoExploration, false), 0);
}

#[test]
fn selection_counts_the_exploration_term() {
    // averages 10 and 9; the second child was visited less often
    let parent = parent_with(&[(40, 400), (2, 18)]);
    assert_eq!(parent.best_ucb_score_index(&NoExploration, false), 0);
    assert_eq!(parent.best_ucb_score_index(&Ucb1(2.0), false), 1);
}

#[test]
fn random_selection_reaches_every_child() {
    let parent = parent_with(&[(1, 1000), (1, -1000), (1, 0)]);
    let mut seen = [0u32; 3];
    for _ in 0..3000 {
        let index = parent.best_ucb_score_index(&NoExploration, true);
        assert!(index < 3);
        seen[index] += 1;
    }
    assert!(seen.iter().all(|count| *count > 700));
}

#[test]
fn max_state_keeps_the_earlier_of_equal_scores() {
    let parity = EvaluationTree::Leaf(EvaluationLeaf([0, 1, 0, 0, 0]));
    let tree = parent_with(&[(0, 0), (0, 0), (0, 0), (0, 0)]);
    assert_eq!(tree.get_max_state(&parity), StateArray([2, 1, 0, 0, 0]));
    assert_eq!(tree.get_max_state(&first_coordinate()), StateArray([4, 1, 0, 0, 0]));
    let none = EvaluationTree::Leaf(EvaluationLeaf([0; 5]));
    assert_eq!(tree.get_max_state(&none), at(0));
    assert_eq!(tree.get_tree_size(), 5);
}

#[test]
fn visited_states_hold_each_state_once() {
    let mut visited = VisitedStates::new();
    assert!(!visited.contains(&at(1)));
    assert!(visited.insert(at(1)));
    assert!(!visited.insert(at(1)));
    assert!(visited.insert(at(2)));
    assert!(visited.contains(&at(1)));
    assert!(visited.contains(&at(2)));
    assert!(!visited.contains(&at(3)));
    assert_eq!(visited.states, vec![at(1), at(2)]);
}

#[test]
fn mutations_step_one_coordinate() {
    let state = StateArray([3, -50000, 50000, 0, 7]);
    assert_eq!(StateArray::get_mutation_count(), 10);
    assert_eq!(state.mutate(0), StateArray([4, -50000, 50000, 0, 7]));
    assert_eq!(state.mutate(1), StateArray([2, -50000, 50000, 0, 7]));
    assert_eq!(state.mutate(2), StateArray([3, -49999, 50000, 0, 7]));
    assert_eq!(state.mutate(3), state);
    assert_eq!(state.mutate(4), state);
    assert_eq!(state.mutate(5), StateArray([3, -50000, 49999, 0, 7]));
    assert_eq!(state.mutate(9), StateArray([3, -50000, 50000, 0, 6]));
    assert!(state.same_state(&StateArray([3, -50000, 50000, 0, 7])));
    assert!(!state.same_state(&StateArray([3, -50000, 50000, 0, 8])));
}

/// Encodes everything it is handed in its estimate.
struct Echo;

impl RollOut<StateArray, EvaluationTree> for Echo {
    fn rollout(
        &self,
        state: StateArray,
        evaluator: &EvaluationTree,
        rollout_depth: usize,
        previous_states: &VisitedStates<StateArray>,
    ) -> i32 {
        evaluator.evaluate(state) + 1000 * rollout_depth as i32 + 100_000 * previous_states.states.len() as i32
    }
}

#[test]
fn simulate_hands_evaluator_depth_and_visited_states_to_the_rollout() {
    let mut visited = VisitedStates::new();
    let node = TreeSearchNode::new(at(42), &mut visited);
    visited.insert(at(1));
    visited.insert(at(2));
    assert_eq!(node.simulate(&Echo, &first_coordinate(), 7, &visited), 42 + 7000 + 300_000);
    let second = EvaluationTree::Leaf(EvaluationLeaf([2, 0, 0, 0, 0]));
    assert_eq!(node.simulate(&Echo, &second, 0, &visited), 84 + 300_000);
}

#[test]
fn run_simulates_the_node_first_and_its_first_child_after_expansion() {
    let mut visited = VisitedStates::new();
    let mut root = TreeSearchNode::new(at(5), &mut visited);
    let evaluator = first_coordinate();
    // first visit: the root itself, one visited state
    assert_eq!(root.run(&NoExploration, &Echo, &evaluator, 2, &mut visited, tenth(), false), 5 + 2000 + 100_000);
    // second visit: the first child, after all ten successors became visited
    assert_eq!(root.run(&NoExploration, &Echo, &evaluator, 2, &mut visited, tenth(), false), 6 + 2000 + 1_100_000);
    assert_eq!(root.children.len(), 10);
}

#[test]
fn no_exploration_has_the_term_zero() {
    assert_eq!(NoExploration.bonus(0, 1), 0);
    assert_eq!(NoExploration.bonus(50, 3), 0);
    assert_eq!(NoExploration.bonus(u32::MAX, u32::MAX), 0);
}

#[test]
fn search_from_a_state_without_new_successors_keeps_one_node() {
    // at the upper corner of the domain five mutations change nothing
    let corner = StateArray([50000; 5]);
    let (best, size) = search(corner, &Direct, &first_coordinate(), 2, 3, &NoExploration, tenth(), false);
    assert_eq!(size, 6);
    assert_eq!(best, corner);
}
