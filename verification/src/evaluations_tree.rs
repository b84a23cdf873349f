//! Randomly generated decision trees that score array states.

use crate::constants::{NODE_VALUE_MAX, NODE_VALUE_MIN, STATE_SIZE};
use crate::state_array::StateArray;
use crate::random::{random_index, random_value};
use crate::scoring::saturated;
use crate::types::Evaluator;
use vstd::prelude::*;

verus! {

/// Every entry of `values` lies in `low..high`.
pub open spec fn all_within(values: Seq<i32>, low: int, high: int) -> bool {
    forall|i: int| 0 <= i < values.len() ==> low <= #[trigger] values[i] < high
}

/// An array whose entries are each drawn from `low..high`.
pub fn random_array(low: i32, high: i32) -> (values: [i32; STATE_SIZE])
    requires
        low < high,
    ensures
        all_within(values@, low as int, high as int),
{
    let mut values: [i32; STATE_SIZE] = [low; STATE_SIZE];
    let mut i: usize = 0;
    while i < STATE_SIZE
        invariant
            low < high,
            i <= STATE_SIZE,
            forall|k: int| 0 <= k < i ==> low <= #[trigger] values@[k] < high,
        decreases STATE_SIZE - i,
    {
        let drawn = random_value(low, high);
        values[i] = drawn;
        i += 1;
    }
    values
}

/// The sum of the products of the first `count` entries of `a` and `b`.
pub open spec fn dot(a: Seq<i32>, b: Seq<i32>, count: nat) -> int
    decreases count,
{
    if count == 0 {
        0
    } else {
        dot(a, b, (count - 1) as nat) + a[count - 1] * b[count - 1]
    }
}

/// A partial dot product is bounded by the number of its terms.
pub proof fn lemma_dot_bound(a: Seq<i32>, b: Seq<i32>, count: nat)
    requires
        count <= a.len(),
        count <= b.len(),
    ensures
        -count * 0x4000_0000_0000_0000 <= dot(a, b, count) <= count * 0x4000_0000_0000_0000,
    decreases count,
{
    if count > 0 {
        lemma_dot_bound(a, b, (count - 1) as nat);
        let x = a[count - 1] as int;
        let y = b[count - 1] as int;
        assert(-0x4000_0000_0000_0000 <= x * y <= 0x4000_0000_0000_0000) by (nonlinear_arith)
            requires
                -0x8000_0000 <= x <= 0x8000_0000,
                -0x8000_0000 <= y <= 0x8000_0000,
        ;
    }
}

/// The dot product of two arrays, saturated to the range of `i32`.
pub fn dot_product(a: [i32; STATE_SIZE], b: [i32; STATE_SIZE]) -> (product: i32)
    ensures
        product == saturated(dot(a@, b@, STATE_SIZE as nat)),
{
    let mut sum: i128 = 0;
    let mut i: usize = 0;
    while i < STATE_SIZE
        invariant
            i <= STATE_SIZE,
            sum == dot(a@, b@, i as nat),
        decreases STATE_SIZE - i,
    {
        proof {
            lemma_dot_bound(a@, b@, i as nat);
            lemma_dot_bound(a@, b@, (i + 1) as nat);
        }
        let x: i128 = a[i] as i128;
        let y: i128 = b[i] as i128;
        assert(-0x4000_0000_0000_0000 <= x * y <= 0x4000_0000_0000_0000) by (nonlinear_arith)
            requires
                -0x8000_0000 <= x <= 0x8000_0000,
                -0x8000_0000 <= y <= 0x8000_0000,
        ;
        sum = sum + x * y;
        i += 1;
    }
    if sum < i32::MIN as i128 {
        i32::MIN
    } else if sum > i32::MAX as i128 {
        i32::MAX
    } else {
        sum as i32
    }
}

/// A leaf of an evaluation tree: the weights of a linear score.
pub struct EvaluationLeaf(pub [i32; STATE_SIZE]);

/// An inner node of an evaluation tree: compares one coordinate with a
/// threshold and hands the state to one of its two subtrees.
pub struct EvaluationNode {
    pub left: Box<EvaluationTree>,
    pub right: Box<EvaluationTree>,
    pub value: i32,
    pub index: usize,
}

/// A decision tree over array states.
pub enum EvaluationTree {
    Leaf(EvaluationLeaf),
    Node(EvaluationNode),
}

impl EvaluationLeaf {
    /// The weights lie in the range that generated leaves draw from.
    pub open spec fn wf(self) -> bool {
        all_within(self.0@, NODE_VALUE_MIN as int, NODE_VALUE_MAX as int)
    }

    pub open spec fn score(self, state: StateArray) -> int {
        saturated(dot(self.0@, state.0@, STATE_SIZE as nat))
    }

    pub fn evaluate(&self, state: StateArray) -> (value: i32)
        ensures
            value == self.score(state),
    {
        dot_product(self.0, state.0)
    }
}

impl EvaluationNode {
    /// The score of the left subtree if the tested coordinate is at most the
    /// threshold, else that of the right subtree. A node that tests a
    /// coordinate outside the state scores by its right subtree.
    pub open spec fn score(self, state: StateArray) -> int
        decreases self,
    {
        if self.index < STATE_SIZE && state.0@[self.index as int] <= self.value {
            self.left.score(state)
        } else {
            self.right.score(state)
        }
    }

    pub fn evaluate(&self, state: StateArray) -> (value: i32)
        ensures
            value == self.score(state),
        decreases self,
    {
        if self.index < STATE_SIZE && state.0[self.index] <= self.value {
            self.left.evaluate(state)
        } else {
            self.right.evaluate(state)
        }
    }
}

impl EvaluationTree {
    /// The number of inner nodes on every path from the root to a leaf is `depth`.
    pub open spec fn has_depth(self, depth: nat) -> bool
        decreases self,
    {
        match self {
            EvaluationTree::Leaf(_) => depth == 0,
            EvaluationTree::Node(node) => depth > 0 && node.left.has_depth((depth - 1) as nat)
                && node.right.has_depth((depth - 1) as nat),
        }
    }

    /// Every threshold, tested coordinate and weight lies in the range that
    /// generated trees draw from.
    pub open spec fn wf(self) -> bool
        decreases self,
    {
        match self {
            EvaluationTree::Leaf(leaf) => leaf.wf(),
            EvaluationTree::Node(node) => node.index < STATE_SIZE && NODE_VALUE_MIN <= node.value
                < NODE_VALUE_MAX - 1 && node.left.wf() && node.right.wf(),
        }
    }

    /// The score of `state`: the linear score of the leaf that the
    /// comparisons lead to.
    pub open spec fn score(self, state: StateArray) -> int
        decreases self,
    {
        match self {
            EvaluationTree::Leaf(leaf) => leaf.score(state),
            EvaluationTree::Node(node) => node.score(state),
        }
    }

    pub fn evaluate(&self, state: StateArray) -> (value: i32)
        ensures
            value == self.score(state),
        decreases self,
    {
        match self {
            EvaluationTree::Leaf(leaf) => leaf.evaluate(state),
            EvaluationTree::Node(node) => node.evaluate(state),
        }
    }
}

impl Evaluator<StateArray> for EvaluationLeaf {
    open spec fn score(&self, state: StateArray) -> int {
        EvaluationLeaf::score(*self, state)
    }

    fn evaluate(&self, state: StateArray) -> (value: i32) {
        EvaluationLeaf::evaluate(self, state)
    }
}

impl Evaluator<StateArray> for EvaluationNode {
    open spec fn score(&self, state: StateArray) -> int {
        EvaluationNode::score(*self, state)
    }

    fn evaluate(&self, state: StateArray) -> (value: i32) {
        EvaluationNode::evaluate(self, state)
    }
}

impl Evaluator<StateArray> for EvaluationTree {
    open spec fn score(&self, state: StateArray) -> int {
        EvaluationTree::score(*self, state)
    }

    fn evaluate(&self, state: StateArray) -> (value: i32) {
        EvaluationTree::evaluate(self, state)
    }
}

/// An inner node over the two given subtrees with a random tested coordinate
/// and a random threshold.
pub fn new_random_node(left: Box<EvaluationTree>, right: Box<EvaluationTree>) -> (node: EvaluationNode)
    ensures
        node.left == left,
        node.right == right,
        node.index < STATE_SIZE,
        NODE_VALUE_MIN <= node.value < NODE_VALUE_MAX - 1,
{
    let index = random_index(STATE_SIZE);
    let value = random_value(NODE_VALUE_MIN, NODE_VALUE_MAX - 1);
    EvaluationNode { left, right, value, index }
}

/// A leaf with random weights.
pub fn new_random_leaf() -> (leaf: EvaluationLeaf)
    ensures
        leaf.wf(),
{
    EvaluationLeaf(random_array(NODE_VALUE_MIN, NODE_VALUE_MAX))
}

/// A random complete evaluation tree with `depth` levels of inner nodes.
pub fn build_evaluations_tree(depth: usize) -> (tree: Box<EvaluationTree>)
    ensures
        tree.has_depth(depth as nat),
        tree.wf(),
    decreases depth,
{
    if depth == 0 {
        Box::new(EvaluationTree::Leaf(new_random_leaf()))
    } else {
        let left = build_evaluations_tree(depth - 1);
        let right = build_evaluations_tree(depth - 1);
        Box::new(EvaluationTree::Node(new_random_node(left, right)))
    }
}

/// On states of the domain a generated leaf's linear score does not saturate.
pub proof fn lemma_leaf_score_exact(leaf: EvaluationLeaf, state: StateArray)
    requires
        leaf.wf(),
        state.in_domain(),
    ensures
        leaf.score(state) == dot(leaf.0@, state.0@, STATE_SIZE as nat),
{
    lemma_dot_small(leaf.0@, state.0@, STATE_SIZE as nat);
}

proof fn lemma_dot_small(a: Seq<i32>, b: Seq<i32>, count: nat)
    requires
        count <= a.len(),
        count <= b.len(),
        forall|i: int| 0 <= i < count ==> -50 <= #[trigger] a[i] <= 50,
        forall|i: int| 0 <= i < count ==> -50000 <= #[trigger] b[i] <= 50000,
    ensures
        -count * 2500000 <= dot(a, b, count) <= count * 2500000,
    decreases count,
{
    if count > 0 {
        lemma_dot_small(a, b, (count - 1) as nat);
        let x = a[count - 1] as int;
        let y = b[count - 1] as int;
        assert(-2500000 <= x * y <= 2500000) by (nonlinear_arith)
            requires
                -50 <= x <= 50,
                -50000 <= y <= 50000,
        ;
    }
}

} // verus!
