//! How distributions over the states move under a chain.

use vstd::prelude::*;

use crate::double::{Double, HALF_BITS, ONE_BITS};
use crate::matrix::{TransitionMatrix, MAX_STATES};
use crate::vector;

verus! {

/// The most steps of the power iteration.
pub const MAX_ITERATIONS: u32 = 100_000;

/// The encoding of the tolerance of the power iteration, ten to the power -12.
pub const TOLERANCE_BITS: u64 = 0x3D71_9799_812D_EA11;

/// What the states hand on to state `j`.
pub open spec fn flow(tm: TransitionMatrix, v: Seq<Double>, j: int) -> Seq<Double> {
    Seq::new(tm.n as nat, |i: int| v[i].times(tm.at(i, j)))
}

/// The distribution `v` after one move: the row vector times the matrix.
pub open spec fn advanced(tm: TransitionMatrix, v: Seq<Double>) -> Seq<Double> {
    Seq::new(tm.n as nat, |j: int| vector::sum_from(Double::zero(), flow(tm, v, j)))
}

/// The vector, divided by its sum.
pub open spec fn normalized(v: Seq<Double>) -> Seq<Double> {
    Seq::new(v.len(), |i: int| v[i].over(vector::total(v)))
}

/// The power iteration after `k` steps: it starts from equal shares, and each
/// step is a move followed by normalization.
pub open spec fn iterate(tm: TransitionMatrix, k: nat) -> Seq<Double>
    decreases k,
{
    if k == 0 {
        Seq::new(tm.n as nat, |i: int| Double::one().over(Double::natural(tm.n as nat)))
    } else {
        normalized(advanced(tm, iterate(tm, (k - 1) as nat)))
    }
}

/// Whether nothing is left to normalize in step `k`.
pub open spec fn vanishes(tm: TransitionMatrix, k: nat) -> bool {
    vector::total(advanced(tm, iterate(tm, (k - 1) as nat))).equals(Double::zero())
}

/// Whether step `k` moves the distribution by less than the tolerance.
pub open spec fn is_close(tm: TransitionMatrix, k: nat) -> bool {
    vector::l1_distance(iterate(tm, k), iterate(tm, (k - 1) as nat)).less(
        Double { bits: TOLERANCE_BITS },
    )
}

/// Whether the power iteration converges in step `k` and no earlier.
pub open spec fn converges_at(tm: TransitionMatrix, k: nat) -> bool {
    &&& 1 <= k <= MAX_ITERATIONS
    &&& is_close(tm, k)
    &&& forall|j: nat| 1 <= j < k ==> !#[trigger] is_close(tm, j)
    &&& forall|j: nat| 1 <= j <= k ==> !#[trigger] vanishes(tm, j)
}

/// The stationary distribution, if the power iteration finds one.
pub open spec fn stationary(tm: TransitionMatrix) -> Option<Seq<Double>> {
    if tm.n > 0 && exists|k: nat| converges_at(tm, k) {
        Some(iterate(tm, choose|k: nat| converges_at(tm, k)))
    } else {
        None
    }
}

/// The distribution of the chain after `k` moves from state 0.
pub open spec fn distribution_after(tm: TransitionMatrix, k: nat) -> Seq<Double>
    decreases k,
{
    if k == 0 {
        Seq::new(
            tm.n as nat,
            |i: int|
                if i == 0 {
                    Double::one()
                } else {
                    Double::zero()
                },
        )
    } else {
        advanced(tm, distribution_after(tm, (k - 1) as nat))
    }
}

/// The total variation distance: half of the sum of the distances.
pub open spec fn total_variation(a: Seq<Double>, b: Seq<Double>) -> Double {
    vector::l1_distance(a, b).times(Double::half())
}

/// Whether the chain is within `epsilon` of `pi` after `k` moves from state 0.
pub open spec fn is_mixed(tm: TransitionMatrix, pi: Seq<Double>, epsilon: Double, k: nat) -> bool {
    total_variation(distribution_after(tm, k), pi).less(epsilon)
}

/// Whether the chain is within `epsilon` of `pi` after `k` moves and not after
/// fewer.
pub open spec fn mixes_at(tm: TransitionMatrix, pi: Seq<Double>, epsilon: Double, k: nat) -> bool {
    &&& is_mixed(tm, pi, epsilon, k)
    &&& forall|j: nat| j < k ==> !#[trigger] is_mixed(tm, pi, epsilon, j)
}

/// The power iteration converges once.
pub proof fn lemma_converges_once(tm: TransitionMatrix, a: nat, b: nat)
    requires
        converges_at(tm, a),
        converges_at(tm, b),
    ensures
        a == b,
{
}

/// The iterates have one entry for each state.
pub proof fn lemma_iterate_len(tm: TransitionMatrix, k: nat)
    ensures
        iterate(tm, k).len() == tm.n,
{
    if k > 0 {
        assert(advanced(tm, iterate(tm, (k - 1) as nat)).len() == tm.n);
    }
}

/// The distribution `v` after one move.
pub fn advance(tm: &TransitionMatrix, v: &[Double]) -> (r: Vec<Double>)
    requires
        tm.wf(),
        v@.len() == tm.n,
    ensures
        r@ == advanced(*tm, v@),
{
    let n: usize = tm.n;
    let mut r: Vec<Double> = Vec::new();
    for j in 0..n
        invariant
            n == tm.n,
            n <= MAX_STATES,
            v@.len() == n,
            r@ == advanced(*tm, v@).take(j as int),
    {
        let mut acc: Double = Double::from_bits(0);
        let ghost terms = flow(*tm, v@, j as int);
        for i in 0..n
            invariant
                n == tm.n,
                n <= MAX_STATES,
                v@.len() == n,
                j < n,
                terms == flow(*tm, v@, j as int),
                acc == vector::sum_from(Double::zero(), terms.take(i as int)),
        {
            proof {
                vector::lemma_sum_take(Double::zero(), terms, i as int);
            }
            acc = acc.plus(v[i].times(tm.data[i][j]));
        }
        r.push(acc);
        proof {
            assert(terms.take(n as int) == terms);
            assert(r@ =~= advanced(*tm, v@).take(j + 1));
        }
    }
    proof {
        assert(advanced(*tm, v@).take(n as int) == advanced(*tm, v@));
    }
    r
}

/// Finds the stationary distribution by power iteration.
///
/// There is none for a chain without states, nor where the iteration loses all
/// mass, nor where it does not converge within [`MAX_ITERATIONS`] steps.
pub fn power_iteration(tm: &TransitionMatrix) -> (r: Option<Vec<Double>>)
    requires
        tm.wf(),
    ensures
        match r {
            Some(pi) => stationary(*tm) == Some(pi@),
            None => stationary(*tm) is None,
        },
{
    let n: usize = tm.n;
    if n == 0 {
        return None;
    }
    let share: Double = Double::from_bits(ONE_BITS).over(Double::from_natural(n as u64));
    let mut pi: Vec<Double> = vec![share; n];
    proof {
        assert(pi@ =~= iterate(*tm, 0));
    }
    for k in 0..MAX_ITERATIONS
        invariant
            n == tm.n,
            0 < n <= MAX_STATES,
            pi@ == iterate(*tm, k as nat),
            forall|j: nat| 1 <= j <= k ==> !#[trigger] is_close(*tm, j),
            forall|j: nat| 1 <= j <= k ==> !#[trigger] vanishes(*tm, j),
    {
        proof {
            lemma_iterate_len(*tm, k as nat);
        }
        let mut new_pi: Vec<Double> = advance(tm, pi.as_slice());
        let ghost moved = new_pi@;
        let sum: Double = vector::sum(new_pi.as_slice());
        if sum.equals(Double::from_bits(0)) {
            proof {
                assert(vanishes(*tm, (k + 1) as nat));
                assert forall|m: nat| !converges_at(*tm, m) by {
                    if converges_at(*tm, m) {
                        if m <= k {
                            assert(!is_close(*tm, m));
                        }
                    }
                }
            }
            return None;
        }
        for i in 0..n
            invariant
                n == tm.n,
                moved.len() == n,
                sum == vector::total(moved),
                new_pi@ =~= normalized(moved).take(i as int) + moved.skip(i as int),
        {
            let x: Double = new_pi[i];
            new_pi.set(i, x.over(sum));
        }
        proof {
            assert(new_pi@ =~= normalized(moved));
            assert(new_pi@ == iterate(*tm, (k + 1) as nat));
        }
        let diff: Double = vector::distance(new_pi.as_slice(), pi.as_slice());
        pi = new_pi;
        if diff.less(Double::from_bits(TOLERANCE_BITS)) {
            proof {
                let m = (k + 1) as nat;
                assert(is_close(*tm, m));
                assert(converges_at(*tm, m));
                lemma_converges_once(*tm, m, choose|k: nat| converges_at(*tm, k));
            }
            return Some(pi);
        }
    }
    None
}

/// The least number of moves, at most `max_iter`, that brings the chain from state
/// 0 to within `epsilon` of `pi`.
pub fn first_mixed(tm: &TransitionMatrix, pi: &[Double], epsilon: Double, max_iter: usize) -> (r:
    Option<usize>)
    requires
        tm.wf(),
        tm.n > 0,
    ensures
        match r {
            Some(k) => k <= max_iter && mixes_at(*tm, pi@, epsilon, k as nat),
            None => forall|k: nat|
                k <= max_iter ==> !#[trigger] mixes_at(*tm, pi@, epsilon, k),
        },
{
    let n: usize = tm.n;
    let half: Double = Double::from_bits(HALF_BITS);
    let mut dist: Vec<Double> = vec![Double::from_bits(0); n];
    dist.set(0, Double::from_bits(ONE_BITS));
    proof {
        assert(dist@ =~= distribution_after(*tm, 0));
    }
    if vector::distance(dist.as_slice(), pi).times(half).less(epsilon) {
        proof {
            assert(is_mixed(*tm, pi@, epsilon, 0));
        }
        return Some(0);
    }
    for k in 0..max_iter
        invariant
            n == tm.n,
            0 < n <= MAX_STATES,
            half == Double::half(),
            dist@ == distribution_after(*tm, k as nat),
            dist@.len() == n,
            forall|j: nat| j <= k ==> !#[trigger] is_mixed(*tm, pi@, epsilon, j),
    {
        dist = advance(tm, dist.as_slice());
        proof {
            assert(dist@ == distribution_after(*tm, (k + 1) as nat));
        }
        let tv: Double = vector::distance(dist.as_slice(), pi).times(half);
        if tv.less(epsilon) {
            proof {
                assert(is_mixed(*tm, pi@, epsilon, (k + 1) as nat));
            }
            return Some(k + 1);
        }
    }
    None
}

} // verus!
