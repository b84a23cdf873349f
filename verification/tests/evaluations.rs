use tree_search::constants::{NODE_VALUE_MAX, NODE_VALUE_MIN, STATE_SIZE, STATE_VALUE_MAX, STATE_VALUE_MIN};
use tree_search::evaluations_tree::{
    build_evaluations_tree, dot_product, new_random_leaf, new_random_node, random_array, EvaluationLeaf,
    EvaluationNode, EvaluationTree,
};
use tree_search::state_array::StateArray;
use tree_search::types::Evaluator;

fn check_tree(tree: &EvaluationTree, depth: usize) {
    match tree {
        EvaluationTree::Leaf(leaf) => {
            assert_eq!(depth, 0);
            assert!(leaf.0.iter().all(|weight| NODE_VALUE_MIN <= *weight && *weight < NODE_VALUE_MAX));
        }
        EvaluationTree::Node(node) => {
            assert!(depth > 0);
            assert!(node.index < STATE_SIZE);
            assert!(NODE_VALUE_MIN <= node.value && node.value < NODE_VALUE_MAX - 1);
            check_tree(&node.left, depth - 1);
            check_tree(&node.right, depth - 1);
        }
    }
}

fn leaf(weights: [i32; STATE_SIZE]) -> Box<EvaluationTree> {
    Box::new(EvaluationTree::Leaf(EvaluationLeaf(weights)))
}

#[test]
fn built_trees_are_complete_and_in_range() {
    for depth in 0..6 {
        let tree = build_evaluations_tree(depth);
        check_tree(&tree, depth);
    }
}

#[test]
fn random_leaves_and_nodes_are_in_range() {
    for _ in 0..200 {
        let leaf = new_random_leaf();
        assert!(leaf.0.iter().all(|weight| NODE_VALUE_MIN <= *weight && *weight < NODE_VALUE_MAX));
        let node = new_random_node(Box::new(EvaluationTree::Leaf(leaf)), Box::new(EvaluationTree::Leaf(new_random_leaf())));
        assert!(node.index < STATE_SIZE);
        assert!(NODE_VALUE_MIN <= node.value && node.value < NODE_VALUE_MAX - 1);
    }
}

#[test]
fn random_arrays_and_states_are_in_range() {
    let mut distinct = std::collections::HashSet::new();
    for _ in 0..200 {
        let values = random_array(-3, 4);
        assert!(values.iter().all(|value| -3 <= *value && *value < 4));
        distinct.extend(values);
        let state = StateArray::random_state();
        assert!(state.0.iter().all(|value| STATE_VALUE_MIN <= *value && *value < STATE_VALUE_MAX));
    }
    assert_eq!(distinct.len(), 7);
    assert_eq!(random_array(9, 10), [9; STATE_SIZE]);
}

#[test]
fn dot_product_of_arrays() {
    assert_eq!(dot_product([1, 2, 3, 4, 5], [10, 20, 30, 40, 50]), 550);
    assert_eq!(dot_product([1, -2, 3, -4, 5], [1, 1, 1, 1, 1]), 3);
    assert_eq!(dot_product([0; 5], [i32::MAX; 5]), 0);
    assert_eq!(dot_product([50; 5], [50000; 5]), 12_500_000);
    assert_eq!(dot_product([-50; 5], [50000; 5]), -12_500_000);
}

#[test]
fn dot_product_saturates() {
    assert_eq!(dot_product([i32::MAX; 5], [i32::MAX; 5]), i32::MAX);
    assert_eq!(dot_product([i32::MIN; 5], [i32::MAX; 5]), i32::MIN);
    assert_eq!(dot_product([i32::MIN; 5], [i32::MIN; 5]), i32::MAX);
    assert_eq!(dot_product([i32::MAX, 1, 0, 0, 0], [1, 1, 0, 0, 0]), i32::MAX);
}

#[test]
fn tree_scores_by_the_leaf_the_comparisons_lead_to() {
    let inner = EvaluationNode { left: leaf([0, 1, 0, 0, 0]), right: leaf([0, 0, 1, 0, 0]), value: 5, index: 0 };
    let tree = EvaluationTree::Node(EvaluationNode {
        left: Box::new(EvaluationTree::Node(inner)),
        right: leaf([2, 0, 0, 0, 3]),
        value: -1,
        index: 4,
    });
    // coordinate 4 is not above -1: left; coordinate 0 is not above 5: left
    assert_eq!(tree.evaluate(StateArray([5, 11, 22, 0, -1])), 11);
    // coordinate 0 is above 5: right
    assert_eq!(tree.evaluate(StateArray([6, 11, 22, 0, -2])), 22);
    // coordinate 4 is above -1: right
    assert_eq!(tree.evaluate(StateArray([6, 11, 22, 0, 0])), 12);
    assert_eq!(Evaluator::evaluate(&tree, StateArray([6, 11, 22, 0, 7])), 33);
}

#[test]
fn built_tree_evaluates_the_same_state_to_the_same_score() {
    let tree = build_evaluations_tree(4);
    let state = StateArray::random_state();
    let score = tree.evaluate(state);
    assert_eq!(tree.evaluate(state), score);
    assert!(score.abs() <= 12_500_000);
}
