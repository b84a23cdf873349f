//! Exact arithmetic on node statistics: the selection score and the value
//! backpropagated from an exhausted node.

use vstd::prelude::*;

verus! {

/// Denominator of the unit in which exploration terms are measured.
pub const SCORE_SCALE: i128 = 1000;

/// A non-negative rational constant `numerator / denominator`.
#[derive(Clone, Copy, Debug)]
pub struct Ratio {
    pub numerator: u32,
    pub denominator: u32,
}

impl Ratio {
    pub open spec fn wf(self) -> bool {
        self.denominator > 0
    }
}

/// The quotient of `a` by a positive `b`, rounded toward zero.
pub open spec fn truncated_quotient(a: int, b: int) -> int {
    if a >= 0 {
        a / b
    } else {
        -((-a) / b)
    }
}

/// The nearest value of `i32` to `x`.
pub open spec fn saturated(x: int) -> int {
    if x < i32::MIN {
        i32::MIN as int
    } else if x > i32::MAX {
        i32::MAX as int
    } else {
        x
    }
}

/// The numerator of `average - |average| * move_away` over the denominator
/// `times_visited * move_away.denominator`, where `average` is
/// `total_evaluation / times_visited`.
pub open spec fn penalized_numerator(total_evaluation: int, move_away: Ratio) -> int {
    if total_evaluation >= 0 {
        total_evaluation * (move_away.denominator - move_away.numerator)
    } else {
        total_evaluation * (move_away.denominator + move_away.numerator)
    }
}

/// The value that an exhausted node backpropagates: its average moved down by
/// the fraction `move_away` of its magnitude, rounded toward zero and
/// saturated to `i32`.
pub open spec fn penalized(total_evaluation: int, times_visited: int, move_away: Ratio) -> int {
    saturated(
        truncated_quotient(
            penalized_numerator(total_evaluation, move_away),
            times_visited * move_away.denominator,
        ),
    )
}

/// Computes the value that an exhausted node backpropagates.
pub fn penalized_value(total_evaluation: i64, times_visited: u32, move_away: Ratio) -> (value: i32)
    requires
        times_visited > 0,
        move_away.wf(),
    ensures
        value == penalized(total_evaluation as int, times_visited as int, move_away),
{
    let factor: i128 = if total_evaluation >= 0 {
        move_away.denominator as i128 - move_away.numerator as i128
    } else {
        move_away.denominator as i128 + move_away.numerator as i128
    };
    let total: i128 = total_evaluation as i128;
    assert(-0x1_0000_0000_0000_0000_0000_0000 <= total * factor <= 0x1_0000_0000_0000_0000_0000_0000)
        by (nonlinear_arith)
        requires
            -0x8000_0000_0000_0000 <= total <= 0x8000_0000_0000_0000,
            -0x2_0000_0000 <= factor <= 0x2_0000_0000,
    ;
    let numerator: i128 = total * factor;
    let visits: u128 = times_visited as u128;
    let unit: u128 = move_away.denominator as u128;
    assert(0 < visits * unit <= 0x1_0000_0000_0000_0000) by (nonlinear_arith)
        requires
            0 < visits <= 0x1_0000_0000,
            0 < unit <= 0x1_0000_0000,
    ;
    let denominator: u128 = visits * unit;
    if numerator >= 0 {
        let quotient: u128 = (numerator as u128) / denominator;
        assert(quotient <= numerator) by (nonlinear_arith)
            requires
                quotient == (numerator as int) / (denominator as int),
                numerator >= 0,
                denominator > 0,
        ;
        if quotient > 0x7fff_ffff {
            i32::MAX
        } else {
            quotient as i32
        }
    } else {
        let quotient: u128 = ((-numerator) as u128) / denominator;
        assert(quotient <= -numerator) by (nonlinear_arith)
            requires
                quotient == (-(numerator as int)) / (denominator as int),
                numerator < 0,
                denominator > 0,
        ;
        if quotient > 0x8000_0000 {
            i32::MIN
        } else {
            (-(quotient as i64)) as i32
        }
    }
}

/// The selection score of a child.
#[derive(Clone, Copy, Debug)]
pub enum UcbScore {
    /// The child was never visited: larger than every other score.
    Unvisited,
    /// The rational `numerator / denominator`.
    Visited { numerator: i128, denominator: i128 },
}

impl UcbScore {
    /// The parts of a rational score are small enough to be multiplied.
    pub open spec fn wf(self) -> bool {
        match self {
            UcbScore::Unvisited => true,
            UcbScore::Visited { numerator, denominator } => {
                &&& 0 < denominator <= 0x400_0000_0000
                &&& -0x400_0000_0000_0000_0000 <= numerator <= 0x400_0000_0000_0000_0000
            },
        }
    }

    /// The score zero, with which every selection starts.
    pub open spec fn zero() -> UcbScore {
        UcbScore::Visited { numerator: 0, denominator: 1 }
    }

    /// `self` is strictly greater than `other`.
    pub open spec fn exceeds(self, other: UcbScore) -> bool {
        match (self, other) {
            (UcbScore::Unvisited, UcbScore::Unvisited) => false,
            (UcbScore::Unvisited, UcbScore::Visited { .. }) => true,
            (UcbScore::Visited { .. }, UcbScore::Unvisited) => false,
            (
                UcbScore::Visited { numerator: a, denominator: b },
                UcbScore::Visited { numerator: c, denominator: d },
            ) => a * d > c * b,
        }
    }

    /// Compares two scores exactly.
    pub fn is_greater(&self, other: &UcbScore) -> (greater: bool)
        requires
            self.wf(),
            other.wf(),
        ensures
            greater == self.exceeds(*other),
    {
        match (self, other) {
            (UcbScore::Unvisited, UcbScore::Unvisited) => false,
            (UcbScore::Unvisited, UcbScore::Visited { .. }) => true,
            (UcbScore::Visited { .. }, UcbScore::Unvisited) => false,
            (
                UcbScore::Visited { numerator: a, denominator: b },
                UcbScore::Visited { numerator: c, denominator: d },
            ) => {
                assert(-0x10_0000_0000_0000_0000_0000_0000_0000 <= *a * *d
                    <= 0x10_0000_0000_0000_0000_0000_0000_0000) by (nonlinear_arith)
                    requires
                        0 < *d <= 0x400_0000_0000,
                        -0x400_0000_0000_0000_0000 <= *a <= 0x400_0000_0000_0000_0000,
                ;
                assert(-0x10_0000_0000_0000_0000_0000_0000_0000 <= *c * *b
                    <= 0x10_0000_0000_0000_0000_0000_0000_0000) by (nonlinear_arith)
                    requires
                        0 < *b <= 0x400_0000_0000,
                        -0x400_0000_0000_0000_0000 <= *c <= 0x400_0000_0000_0000_0000,
                ;
                *a * *d > *c * *b
            },
        }
    }
}

/// The selection score of a child with the given statistics: unbounded if
/// it was never visited, else its average evaluation plus the exploration
/// term `bonus / SCORE_SCALE`.
pub open spec fn ucb_score(total_evaluation: int, times_visited: int, bonus: int) -> UcbScore {
    if times_visited == 0 {
        UcbScore::Unvisited
    } else {
        UcbScore::Visited {
            numerator: (total_evaluation * SCORE_SCALE + bonus * times_visited) as i128,
            denominator: (times_visited * SCORE_SCALE) as i128,
        }
    }
}

/// Computes the selection score of a child from its statistics and its
/// exploration term.
pub fn ucb(total_evaluation: i64, times_visited: u32, bonus: i32) -> (score: UcbScore)
    ensures
        score == ucb_score(total_evaluation as int, times_visited as int, bonus as int),
        score.wf(),
        (times_visited == 0) == (score == UcbScore::Unvisited),
{
    if times_visited == 0 {
        return UcbScore::Unvisited;
    }
    let total: i128 = total_evaluation as i128;
    let visits: i128 = times_visited as i128;
    let term: i128 = bonus as i128;
    assert(-0x8000_0000_0000_0000 <= term * visits <= 0x8000_0000_0000_0000) by (nonlinear_arith)
        requires
            0 < visits <= 0x1_0000_0000,
            -0x8000_0000 <= term <= 0x8000_0000,
    ;
    UcbScore::Visited { numerator: total * SCORE_SCALE + term * visits, denominator: visits * SCORE_SCALE }
}

/// The index and score that a selection holds after looking at the first
/// `count` scores: it starts at index 0 with the score zero and moves on
/// only to a strictly greater score.
pub open spec fn best_after(scores: Seq<UcbScore>, count: nat) -> (int, UcbScore)
    decreases count,
{
    if count == 0 {
        (0int, UcbScore::zero())
    } else {
        let earlier = best_after(scores, (count - 1) as nat);
        if scores[count - 1].exceeds(earlier.1) {
            (count - 1, scores[count - 1])
        } else {
            earlier
        }
    }
}

/// The least index of an unvisited score, given one at `upto`.
pub proof fn lemma_first_unvisited(scores: Seq<UcbScore>, upto: int) -> (first: int)
    requires
        0 <= upto < scores.len(),
        scores[upto] == UcbScore::Unvisited,
    ensures
        0 <= first <= upto,
        scores[first] == UcbScore::Unvisited,
        forall|i: int| 0 <= i < first ==> scores[i] != UcbScore::Unvisited,
    decreases upto,
{
    if exists|i: int| 0 <= i < upto && scores[i] == UcbScore::Unvisited {
        let i = choose|i: int| 0 <= i < upto && scores[i] == UcbScore::Unvisited;
        lemma_first_unvisited(scores, i)
    } else {
        upto
    }
}

/// A selection that has seen a never-visited child holds the first of
/// them, whatever the scores of the visited ones are.
pub proof fn lemma_unvisited_first(scores: Seq<UcbScore>, count: nat, first: int)
    requires
        count <= scores.len(),
        0 <= first < count,
        scores[first] == UcbScore::Unvisited,
        forall|i: int| 0 <= i < first ==> scores[i] != UcbScore::Unvisited,
    ensures
        best_after(scores, count) == (first, UcbScore::Unvisited),
    decreases count,
{
    if count - 1 > first {
        lemma_unvisited_first(scores, (count - 1) as nat, first);
    } else {
        lemma_visited_prefix(scores, first as nat);
    }
}

/// A selection that has seen visited children only holds a rational score.
pub proof fn lemma_visited_prefix(scores: Seq<UcbScore>, count: nat)
    requires
        count <= scores.len(),
        forall|i: int| 0 <= i < count ==> scores[i] != UcbScore::Unvisited,
    ensures
        best_after(scores, count).1 != UcbScore::Unvisited,
    decreases count,
{
    if count > 0 {
        lemma_visited_prefix(scores, (count - 1) as nat);
    }
}

/// The index of the strictly greatest score, the earliest on a tie; index 0
/// if no score is greater than zero.
pub fn best_score_index(scores: &Vec<UcbScore>) -> (index: usize)
    requires
        forall|i: int| 0 <= i < scores@.len() ==> (#[trigger] scores@[i]).wf(),
    ensures
        index == best_after(scores@, scores@.len()).0,
        scores@.len() > 0 ==> index < scores@.len(),
{
    let mut best_score = UcbScore::Visited { numerator: 0, denominator: 1 };
    let mut best_index: usize = 0;
    let mut index: usize = 0;
    while index < scores.len()
        invariant
            index <= scores@.len(),
            forall|i: int| 0 <= i < scores@.len() ==> (#[trigger] scores@[i]).wf(),
            best_score.wf(),
            (best_index as int, best_score) == best_after(scores@, index as nat),
            index > 0 ==> best_index < index,
            index == 0 ==> best_index == 0,
        decreases scores@.len() - index,
    {
        if scores[index].is_greater(&best_score) {
            best_score = scores[index];
            best_index = index;
        }
        index += 1;
    }
    best_index
}

} // verus!
