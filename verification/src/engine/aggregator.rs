//! Aggregation functions over 64-bit integers.

use vstd::prelude::*;

verus! {

/// An associative and commutative way to fold two aggregate states into one.
#[derive(Debug, Clone, Copy, PartialEq, Eq, Structural)]
pub enum Aggregator {
    Sum,
    Count,
    Max,
    Min,
}

/// The sum of `a` and `b` in two's complement: reduced into the range of `i64`.
pub open spec fn wrapping_sum(a: i64, b: i64) -> i64 {
    if a + b > i64::MAX {
        (a + b - 0x1_0000_0000_0000_0000) as i64
    } else if a + b < i64::MIN {
        (a + b + 0x1_0000_0000_0000_0000) as i64
    } else {
        (a + b) as i64
    }
}

impl Aggregator {
    /// The state that stands for everything that `accumulator` and `elem`
    /// stand for. Sums and counts are added, in two's complement.
    pub open spec fn combined(self, accumulator: i64, elem: i64) -> i64 {
        match self {
            Aggregator::Sum => wrapping_sum(accumulator, elem),
            Aggregator::Count => wrapping_sum(accumulator, elem),
            Aggregator::Max => if accumulator >= elem {
                accumulator
            } else {
                elem
            },
            Aggregator::Min => if accumulator <= elem {
                accumulator
            } else {
                elem
            },
        }
    }

    /// Folds `elem` into `accumulator`.
    pub fn combine_i64(self, accumulator: i64, elem: i64) -> (state: i64)
        ensures
            state == self.combined(accumulator, elem),
    {
        match self {
            Aggregator::Sum => accumulator.wrapping_add(elem),
            Aggregator::Count => accumulator.wrapping_add(elem),
            Aggregator::Max => if accumulator >= elem {
                accumulator
            } else {
                elem
            },
            Aggregator::Min => if accumulator <= elem {
                accumulator
            } else {
                elem
            },
        }
    }

    /// Folding is commutative.
    pub proof fn lemma_commutative(self, a: i64, b: i64)
        ensures
            self.combined(a, b) == self.combined(b, a),
    {
    }

    /// Folding is associative.
    pub proof fn lemma_associative(self, a: i64, b: i64, c: i64)
        ensures
            self.combined(self.combined(a, b), c) == self.combined(a, self.combined(b, c)),
    {
    }
}

} // verus!
