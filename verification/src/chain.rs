//! Markov chains.

use rand::rngs::SmallRng;
use vstd::prelude::*;

use crate::double::Double;
use crate::evolution;
use crate::graph;
use crate::matrix::{TransitionMatrix, MAX_STATES};
use crate::measures;
use crate::random;
use crate::text;
use crate::vector;

verus! {

/// The encoding of two to the power -53.
pub const GRAIN_BITS: u64 = 0x3CA0_0000_0000_0000;

/// The most moves that the budget safety margin allows for mixing.
pub const MARGIN_ITERATIONS: usize = 10_000;

/// A Markov chain with its own random numbers.
///
/// Simulations draw from one generator and do not set it back, so that repeated
/// simulations differ; `seed` makes them repeatable.
#[derive(Debug)]
pub struct MarkovChain {
    pub tm: TransitionMatrix,
    rng: SmallRng,
}

/// The number in `[0, 1)` that a drawn 64-bit number stands for: its upper 53
/// bits, as a multiple of two to the power -53.
pub open spec fn unit_number(draw: u64) -> Double {
    (Double { bits: GRAIN_BITS }).times(Double::natural(draw as nat / 2048))
}

/// The probability of moving from `state` to a state below `m`.
pub open spec fn cumulative(tm: TransitionMatrix, state: int, m: int) -> Double {
    vector::sum_from(Double::zero(), tm.data@[state]@.take(m))
}

/// Whether the number `r` lets the chain move from `state` to `j`: the move is
/// possible, and the cumulative probability is not below `r`.
pub open spec fn admits(tm: TransitionMatrix, state: int, r: Double, j: int) -> bool {
    &&& Double::zero().less(tm.at(state, j))
    &&& r.at_most(cumulative(tm, state, j + 1))
}

/// Whether the number `r` falls to state `j`, the first that it admits.
pub open spec fn falls_to(tm: TransitionMatrix, state: int, r: Double, j: int) -> bool {
    &&& 0 <= j < tm.n
    &&& admits(tm, state, r, j)
    &&& forall|i: int| 0 <= i < j ==> !#[trigger] admits(tm, state, r, i)
}

/// The state after `state`, by the number `r`: the chain stays where `r` falls
/// to none.
pub open spec fn next_state(tm: TransitionMatrix, state: int, r: Double) -> int {
    if exists|j: int| falls_to(tm, state, r, j) {
        choose|j: int| falls_to(tm, state, r, j)
    } else {
        state
    }
}

/// The state after `t` moves from `s0`, by the drawn numbers.
pub open spec fn state_after(
    tm: TransitionMatrix,
    draws: Map<nat, u64>,
    s0: int,
    t: nat,
) -> int
    decreases t,
{
    if t == 0 {
        s0
    } else {
        next_state(
            tm,
            state_after(tm, draws, s0, (t - 1) as nat),
            unit_number(draws[(t - 1) as nat]),
        )
    }
}

/// Whether a trajectory is the one from `s0` by the drawn numbers.
pub open spec fn follows(
    tm: TransitionMatrix,
    draws: Map<nat, u64>,
    s0: int,
    trajectory: Seq<usize>,
) -> bool {
    forall|t: int|
        0 <= t < trajectory.len() ==> #[trigger] trajectory[t] == state_after(
            tm,
            draws,
            s0,
            t as nat,
        )
}

/// Whether `i` is the first state that state 0 does not reach.
pub open spec fn first_unreached(tm: TransitionMatrix, i: int) -> bool {
    &&& 0 <= i < tm.n
    &&& !tm.reaches(0, i)
    &&& forall|j: int| 0 <= j < i ==> #[trigger] tm.reaches(0, j)
}

/// Whether every state is reached from state 0.
pub open spec fn all_reached(tm: TransitionMatrix) -> bool {
    forall|j: int| 0 <= j < tm.n ==> #[trigger] tm.reaches(0, j)
}

/// Whether `i` is the first state that does not reach state 0.
pub open spec fn first_stranded(tm: TransitionMatrix, i: int) -> bool {
    &&& 0 <= i < tm.n
    &&& !tm.reaches(i, 0)
    &&& forall|j: int| 0 <= j < i ==> #[trigger] tm.reaches(j, 0)
}

/// The budget safety margin for a mixing time of `k` moves: that many times the
/// standard deviation of the state index under `pi`.
pub open spec fn safety_margin(tm: TransitionMatrix, pi: Seq<Double>, k: nat) -> Double {
    Double::natural(k).times(vector::variance(pi, vector::indices(tm.n as nat)).sqrt())
}

/// The number in `[0, 1)` that a drawn 64-bit number stands for.
pub fn unit_draw(draw: u64) -> (r: Double)
    ensures
        r == unit_number(draw),
{
    Double::from_bits(GRAIN_BITS).times(Double::from_natural(draw / 2048))
}

impl View for MarkovChain {
    type V = TransitionMatrix;

    /// A chain is seen as its transition matrix.
    closed spec fn view(&self) -> TransitionMatrix {
        self.tm
    }
}

impl Default for MarkovChain {
    fn default() -> (r: MarkovChain)
        ensures
            r@.n == 0,
            r@.wf(),
            forall|i: int, j: int|
                0 <= i < MAX_STATES && 0 <= j < MAX_STATES ==> r@.at(i, j) == Double::zero(),
    {
        MarkovChain::new()
    }
}

impl Clone for MarkovChain {
    fn clone(&self) -> (r: MarkovChain)
        ensures
            r@ == self@,
            r.upcoming() == self.upcoming(),
    {
        MarkovChain { tm: self.tm.clone(), rng: random::copy(&self.rng) }
    }
}

impl MarkovChain {
    /// The random numbers that the chain has yet to draw.
    pub closed spec fn upcoming(self) -> Map<nat, u64> {
        random::draws(self.rng)
    }

    /// A chain from the entries of its matrix, row by row.
    pub fn from_flat(n: usize, flat: &[Double]) -> (r: MarkovChain)
        requires
            n <= MAX_STATES,
            flat@.len() >= n * n,
        ensures
            r@.n == n,
            r@.wf(),
            forall|i: int, j: int|
                0 <= i < n && 0 <= j < n ==> #[trigger] r@.at(i, j) == flat@[i * n + j],
            forall|i: int, j: int|
                0 <= i < MAX_STATES && 0 <= j < MAX_STATES && !(i < n && j < n)
                    ==> #[trigger] r@.at(i, j) == Double::zero(),
    {
        let mut tm: TransitionMatrix = TransitionMatrix::zeros(n);
        for i in 0..n
            invariant
                n <= MAX_STATES,
                flat@.len() >= n * n,
                tm.n == n,
                forall|a: int, b: int|
                    0 <= a < MAX_STATES && 0 <= b < MAX_STATES ==> #[trigger] tm.at(a, b) == if a
                        < i && b < n {
                        flat@[a * n + b]
                    } else {
                        Double::zero()
                    },
        {
            for j in 0..n
                invariant
                    n <= MAX_STATES,
                    flat@.len() >= n * n,
                    i < n,
                    tm.n == n,
                    forall|a: int, b: int|
                        0 <= a < MAX_STATES && 0 <= b < MAX_STATES ==> #[trigger] tm.at(a, b)
                            == if (a < i && b < n) || (a == i && b < j) {
                            flat@[a * n + b]
                        } else {
                            Double::zero()
                        },
            {
                proof {
                    assert(i * n + j < n * n) by (nonlinear_arith)
                        requires
                            i < n,
                            j < n,
                    ;
                    assert(i * n <= n * n <= 4096) by (nonlinear_arith)
                        requires
                            i < n,
                            n <= 64,
                    ;
                }
                tm.set(i, j, flat[i * n + j]);
            }
        }
        MarkovChain { tm, rng: random::from_entropy() }
    }

    /// A chain without states.
    pub fn new() -> (r: MarkovChain)
        ensures
            r@.n == 0,
            r@.wf(),
            forall|i: int, j: int|
                0 <= i < MAX_STATES && 0 <= j < MAX_STATES ==> r@.at(i, j) == Double::zero(),
    {
        MarkovChain { tm: TransitionMatrix::zeros(0), rng: random::from_entropy() }
    }

    /// Seeds the random numbers of the chain.
    pub fn seed(&mut self, seed: u64)
        ensures
            final(self)@ == old(self)@,
            final(self).upcoming() == random::seeded_draws(seed, usize::BITS as nat),
    {
        self.rng = random::from_seed(seed);
    }

    /// The transition matrix.
    pub fn matrix(&self) -> (r: &TransitionMatrix)
        ensures
            *r == self@,
    {
        &self.tm
    }

    /// The transition matrix, to change it.
    pub fn matrix_mut(&mut self) -> (r: &mut TransitionMatrix)
        ensures
            *r == old(self)@,
            final(self)@ == *final(r),
            final(self).upcoming() == old(self).upcoming(),
    {
        &mut self.tm
    }

    /// The stationary distribution, by power iteration.
    ///
    /// `None` if the iteration does not converge within 100 000 steps.
    pub fn stationary_distribution(&self) -> (r: Option<Vec<Double>>)
        requires
            self@.wf(),
        ensures
            match r {
                Some(pi) => evolution::stationary(self@) == Some(pi@),
                None => evolution::stationary(self@) is None,
            },
    {
        evolution::power_iteration(&self.tm)
    }

    /// Whether the chain is ergodic, that is irreducible and aperiodic, and why.
    pub fn is_ergodic(&self) -> (r: (bool, String))
        requires
            self@.wf(),
        ensures
            r.0 <==> self@.n > 0 && self@.irreducible() && self@.aperiodic(),
            r.0 ==> r.1@ == "chain is ergodic (irreducible + aperiodic)"@,
            self@.n == 0 ==> r.1@ == "chain has no states"@,
            forall|i: int| #[trigger]
                first_unreached(self@, i) ==> r.1@ == "not irreducible: state "@ + text::decimal(
                    i as nat,
                ) + " not reachable from state 0"@,
            forall|i: int|
                all_reached(self@) && #[trigger] first_stranded(self@, i) ==> r.1@
                    == "not irreducible: state 0 not reachable from state "@ + text::decimal(
                    i as nat,
                ),
            forall|p: nat|
                self@.n > 0 && self@.irreducible() && #[trigger] self@.is_period(0, p) && p
                    != 1 ==> r.1@ == "chain has period "@ + text::decimal(p)
                    + " (not aperiodic)"@,
    {
        let n: usize = self.tm.n;
        let tm: &TransitionMatrix = &self.tm;
        if n == 0 {
            return (false, String::from_str("chain has no states"));
        }
        let reached: [bool; MAX_STATES] = graph::bfs_reachable(tm, 0);
        for i in 0..n
            invariant
                n == tm.n,
                0 < n <= MAX_STATES,
                *tm == self.tm,
                forall|j: int|
                    0 <= j < MAX_STATES ==> (#[trigger] reached@[j] <==> tm.reaches(0, j)),
                forall|j: int| 0 <= j < i ==> #[trigger] tm.reaches(0, j),
        {
            if !reached[i] {
                proof {
                    assert(!tm.reaches(0, i as int));
                    assert forall|j: int| #[trigger] first_unreached(*tm, j) implies j == i by {}
                }
                return (
                    false,
                    text::message("not irreducible: state ", i, " not reachable from state 0"),
                );
            }
            proof {
                assert(tm.reaches(0, i as int));
            }
        }
        let reaching: [bool; MAX_STATES] = graph::reaching(tm, 0);
        for i in 0..n
            invariant
                n == tm.n,
                0 < n <= MAX_STATES,
                *tm == self.tm,
                all_reached(*tm),
                forall|j: int|
                    0 <= j < MAX_STATES ==> (#[trigger] reaching@[j] <==> tm.reaches(j, 0)),
                forall|j: int| 0 <= j < i ==> #[trigger] tm.reaches(j, 0),
        {
            if !reaching[i] {
                proof {
                    assert(!tm.reaches(i as int, 0));
                    assert forall|j: int| #[trigger] first_stranded(*tm, j) implies j == i by {}
                    reveal_strlit("");
                    let start = "not irreducible: state 0 not reachable from state "@
                        + text::decimal(i as nat);
                    assert(start + ""@ =~= start);
                }
                return (
                    false,
                    text::message("not irreducible: state 0 not reachable from state ", i, ""),
                );
            }
            proof {
                assert(tm.reaches(i as int, 0));
            }
        }
        let period: usize = graph::state_period(tm, 0);
        proof {
            graph::lemma_irreducible(*tm);
            graph::lemma_common_period(*tm, 0, period as nat);
            assert forall|p: nat| #[trigger] tm.is_period(0, p) implies p == period by {
                graph::lemma_period_unique(*tm, 0, p, period as nat);
            }
        }
        if period != 1 {
            proof {
                if tm.aperiodic() {
                    assert(tm.is_period(0, 1));
                }
            }
            return (false, text::message("chain has period ", period, " (not aperiodic)"));
        }
        (true, String::from_str("chain is ergodic (irreducible + aperiodic)"))
    }

    /// The mixing time: the least number of moves after which the distribution from
    /// state 0 is within `epsilon` of the stationary one, in total variation
    /// distance. It is zero where the chain starts that near.
    ///
    /// `None` if there is no stationary distribution, or if more than `max_iter`
    /// moves are needed.
    pub fn mixing_time(&self, epsilon: Double, max_iter: usize) -> (r: Option<usize>)
        requires
            self@.wf(),
        ensures
            match (evolution::stationary(self@), r) {
                (Some(pi), Some(k)) => k <= max_iter && evolution::mixes_at(
                    self@,
                    pi,
                    epsilon,
                    k as nat,
                ),
                (Some(pi), None) => forall|k: nat|
                    k <= max_iter ==> !#[trigger] evolution::mixes_at(self@, pi, epsilon, k),
                (None, _) => r is None,
            },
    {
        match self.stationary_distribution() {
            Some(pi) => evolution::first_mixed(&self.tm, pi.as_slice(), epsilon, max_iter),
            None => None,
        }
    }

    /// How many samples of the state index guarantee that its average is off by
    /// `epsilon` with probability at most `delta`.
    pub fn birkhoff_bound(&self, epsilon: Double, delta: Double) -> (r: Option<Double>)
        requires
            self@.wf(),
        ensures
            r == match evolution::stationary(self@) {
                Some(pi) => measures::sample_bound(
                    pi,
                    vector::indices(self@.n as nat),
                    epsilon,
                    delta,
                ),
                None => None,
            },
    {
        let zero: Double = Double::from_bits(0);
        if epsilon.at_most(zero) || delta.at_most(zero) {
            return None;
        }
        match self.stationary_distribution() {
            Some(pi) => {
                let f: Vec<Double> = vector::index_values(self.tm.n);
                measures::birkhoff_bound(pi.as_slice(), f.as_slice(), epsilon, delta)
            },
            None => None,
        }
    }

    /// The budget that mixing needs beyond the stationary prediction: the mixing
    /// time, times the standard deviation of the state index.
    pub fn budget_safety_margin(&self, epsilon: Double) -> (r: Option<Double>)
        requires
            self@.wf(),
        ensures
            match (evolution::stationary(self@), r) {
                (Some(pi), Some(margin)) => exists|k: nat|
                    k <= MARGIN_ITERATIONS && #[trigger] evolution::mixes_at(
                        self@,
                        pi,
                        epsilon,
                        k,
                    ) && margin == safety_margin(self@, pi, k),
                (Some(pi), None) => forall|k: nat|
                    k <= MARGIN_ITERATIONS ==> !#[trigger] evolution::mixes_at(
                        self@,
                        pi,
                        epsilon,
                        k,
                    ),
                (None, _) => r is None,
            },
    {
        match self.mixing_time(epsilon, MARGIN_ITERATIONS) {
            Some(mixing) => {
                match self.stationary_distribution() {
                    Some(pi) => {
                        let f: Vec<Double> = vector::index_values(self.tm.n);
                        let spread: Double = vector::weighted_variance(
                            pi.as_slice(),
                            f.as_slice(),
                        ).sqrt();
                        Some(Double::from_natural(mixing as u64).times(spread))
                    },
                    None => None,
                }
            },
            None => None,
        }
    }

    /// Simulates `n_steps` moves from state `s0`: the states before each move.
    ///
    /// The random numbers go on where the last simulation stopped.
    pub fn simulate(&mut self, s0: usize, n_steps: usize) -> (traj: Vec<usize>)
        requires
            old(self)@.wf(),
            n_steps > 0 && old(self)@.n > 0 ==> s0 < MAX_STATES,
        ensures
            final(self)@ == old(self)@,
            forall|i: nat| #[trigger]
                final(self).upcoming()[i] == old(self).upcoming()[i + n_steps as nat],
            traj@.len() == n_steps,
            n_steps > 0 ==> traj@[0] == s0,
            follows(old(self)@, old(self).upcoming(), s0 as int, traj@),
            s0 < old(self)@.n ==> measures::stays_below(traj@, old(self)@.n as nat),
    {
        let mut state: usize = s0;
        let mut traj: Vec<usize> = Vec::new();
        let ghost (tm, draws) = (self.tm, self.upcoming());
        for step in 0..n_steps
            invariant
                self.tm == tm,
                tm.wf(),
                n_steps > 0 && tm.n > 0 ==> state < MAX_STATES,
                state == state_after(tm, draws, s0 as int, step as nat),
                forall|i: nat| #[trigger] self.upcoming()[i] == draws[i + step as nat],
                traj@.len() == step,
                follows(tm, draws, s0 as int, traj@),
                s0 < tm.n ==> state < tm.n && measures::stays_below(traj@, tm.n as nat),
        {
            traj.push(state);
            let ghost before = self.upcoming();
            let draw: u64 = random::next_u64(&mut self.rng);
            proof {
                assert(before[0] == draws[0 + step as nat]);
                assert forall|i: nat| #[trigger] self.upcoming()[i] == draws[i + (step
                    + 1) as nat] by {
                    assert(self.upcoming()[i] == before[i + 1]);
                    assert(before[i + 1] == draws[i + 1 + step as nat]);
                }
            }
            state = self.tm.next(state, unit_draw(draw));
        }
        traj
    }
}

impl TransitionMatrix {
    /// The state after `state`, by the number `r`.
    pub fn next(&self, state: usize, r: Double) -> (next: usize)
        requires
            self.wf(),
            self.n > 0 ==> state < MAX_STATES,
        ensures
            next == next_state(*self, state as int, r),
            next == state || next < self.n,
    {
        let n: usize = self.n;
        let zero: Double = Double::from_bits(0);
        let mut cum: Double = zero;
        let ghost row = self.data@[state as int]@;
        for j in 0..n
            invariant
                n == self.n,
                n <= MAX_STATES,
                n > 0 ==> state < MAX_STATES,
                row == self.data@[state as int]@,
                zero == Double::zero(),
                cum == cumulative(*self, state as int, j as int),
                forall|i: int| 0 <= i < j ==> !#[trigger] admits(*self, state as int, r, i),
        {
            proof {
                vector::lemma_sum_take(Double::zero(), row, j as int);
            }
            let p: Double = self.data[state][j];
            cum = cum.plus(p);
            if zero.less(p) && r.at_most(cum) {
                proof {
                    assert(admits(*self, state as int, r, j as int));
                    assert(falls_to(*self, state as int, r, j as int));
                    let c = choose|c: int| falls_to(*self, state as int, r, c);
                    if c < j {
                        assert(!admits(*self, state as int, r, c));
                    }
                }
                return j;
            }
        }
        proof {
            assert forall|c: int| !falls_to(*self, state as int, r, c) by {
                if 0 <= c < n {
                    assert(!admits(*self, state as int, r, c));
                }
            }
        }
        state
    }
}

} // verus!
