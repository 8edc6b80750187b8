//! Transition matrices.

use vstd::prelude::*;

use crate::double::Double;

verus! {

/// The greatest number of states of a chain.
pub const MAX_STATES: usize = 64;

/// A row-stochastic transition matrix.
///
/// Row by row: `data[i][j]` is the probability of moving from state `i` to
/// state `j`, for `i` and `j` below `n`.
#[derive(Debug)]
pub struct TransitionMatrix {
    pub n: usize,
    pub data: [[Double; MAX_STATES]; MAX_STATES],
}

impl Clone for TransitionMatrix {
    fn clone(&self) -> (r: TransitionMatrix)
        ensures
            r == *self,
    {
        TransitionMatrix { n: self.n, data: self.data }
    }
}

impl TransitionMatrix {
    /// The number of states is within the limit.
    pub open spec fn wf(self) -> bool {
        self.n <= MAX_STATES
    }

    /// The probability of moving from state `i` to state `j`.
    pub open spec fn at(self, i: int, j: int) -> Double {
        self.data@[i]@[j]
    }

    /// A matrix of zeros.
    pub fn zeros(n: usize) -> (r: TransitionMatrix)
        ensures
            r.n == n,
            forall|i: int, j: int|
                0 <= i < MAX_STATES && 0 <= j < MAX_STATES ==> r.at(i, j) == Double::zero(),
    {
        let row: [Double; MAX_STATES] = [Double::from_bits(0); MAX_STATES];
        let data: [[Double; MAX_STATES]; MAX_STATES] = [row; MAX_STATES];
        proof {
            assert forall|i: int, j: int|
                0 <= i < MAX_STATES && 0 <= j < MAX_STATES implies #[trigger] data@[i]@[j]
                == Double::zero() by {
                assert(data@[i] == row);
                assert(row@[j] == Double::zero());
            }
        }
        TransitionMatrix { n, data }
    }

    /// Writes one entry.
    pub fn set(&mut self, i: usize, j: usize, p: Double)
        requires
            i < MAX_STATES,
            j < MAX_STATES,
        ensures
            final(self).n == old(self).n,
            forall|a: int, b: int|
                0 <= a < MAX_STATES && 0 <= b < MAX_STATES ==> final(self).at(a, b) == if a == i
                    && b == j {
                    p
                } else {
                    old(self).at(a, b)
                },
    {
        self.data[i][j] = p;
    }
}

} // verus!
