//! Averages, measures and controls.

use vstd::prelude::*;

use crate::binary64;
use crate::double;
use crate::double::{Double, ONE_BITS};
use crate::vector;

verus! {

/// The sample bound: the variance over `eps * eps * delta`, rounded up. There is
/// none unless both parameters are above zero or not numbers.
pub open spec fn sample_bound(pi: Seq<Double>, f: Seq<Double>, eps: Double, delta: Double) -> Option<
    Double,
> {
    if eps.at_most(Double::zero()) || delta.at_most(Double::zero()) {
        None
    } else {
        Some(vector::variance(pi, f).over(eps.times(eps).times(delta)).ceil())
    }
}

/// The values of `f` along a trajectory.
pub open spec fn observed(trajectory: Seq<usize>, f: Seq<Double>) -> Seq<Double> {
    Seq::new(trajectory.len(), |t: int| f[trajectory[t] as int])
}

/// The time average of `f` along a trajectory.
pub open spec fn time_average(trajectory: Seq<usize>, f: Seq<Double>) -> Double {
    vector::total(observed(trajectory, f)).over(Double::natural(trajectory.len()))
}

/// Whether a trajectory stays below `n`.
pub open spec fn stays_below(trajectory: Seq<usize>, n: nat) -> bool {
    forall|t: int| 0 <= t < trajectory.len() ==> #[trigger] trajectory[t] < n
}

/// Whether the time average and the ensemble average of `f` differ by less than
/// the tolerance.
pub open spec fn averages_agree(
    trajectory: Seq<usize>,
    f: Seq<Double>,
    pi: Seq<Double>,
    tolerance: Double,
) -> bool {
    time_average(trajectory, f).minus(vector::dot(pi, f)).abs().less(tolerance)
}

/// The total allocated, less the predicted consumption.
pub open spec fn adequacy(
    allocation: Seq<Double>,
    pi: Seq<Double>,
    resources: Seq<Double>,
) -> Double {
    vector::total(allocation).minus(vector::dot(pi, resources))
}

/// How often a trajectory visits state `i`.
pub open spec fn visits(trajectory: Seq<usize>, i: int) -> nat
    decreases trajectory.len(),
{
    if trajectory.len() == 0 {
        0
    } else {
        visits(trajectory.drop_last(), i) + if trajectory.last() == i {
            1nat
        } else {
            0
        }
    }
}

/// The most that counting in steps of one gets to, two to the power 53: from
/// there on, adding one rounds back.
pub const COUNT_LIMIT: u64 = 0x20_0000_0000_0000;

/// The count `c`, as far as counting in steps of one gets.
pub open spec fn counted(c: nat) -> Double {
    Double::natural(
        if c <= COUNT_LIMIT {
            c
        } else {
            COUNT_LIMIT as nat
        },
    )
}

/// The fraction of its time that a trajectory spends in each state.
pub open spec fn occupation(trajectory: Seq<usize>, n_states: nat) -> Seq<Double> {
    Seq::new(
        n_states,
        |i: int| counted(visits(trajectory, i)).over(Double::natural(trajectory.len())),
    )
}

/// The distribution function of `mu` up to and with state `i`.
pub open spec fn cdf(mu: Seq<Double>, i: int) -> Double {
    vector::sum_from(Double::zero(), mu.take(i + 1))
}

/// The distances of the two distribution functions, state by state.
pub open spec fn cdf_distances(mu: Seq<Double>, nu: Seq<Double>) -> Seq<Double> {
    Seq::new(
        vector::shorter(mu.len(), nu.len()),
        |i: int| cdf(mu, i).minus(cdf(nu, i)).abs(),
    )
}

/// The Wasserstein distance on the ordered states: the sum of the distances of
/// the distribution functions.
pub open spec fn wasserstein(mu: Seq<Double>, nu: Seq<Double>) -> Double {
    vector::sum_from(Double::zero(), cdf_distances(mu, nu))
}

/// The length of the shortest of three vectors.
pub open spec fn shortest(a: nat, b: nat, c: nat) -> nat {
    vector::shorter(vector::shorter(a, b), c)
}

/// The correction of each entry: minus the deviation from the target, times the
/// cost.
pub open spec fn corrections(
    current_mu: Seq<Double>,
    target_pi: Seq<Double>,
    cost: Seq<Double>,
) -> Seq<Double> {
    Seq::new(
        shortest(current_mu.len(), target_pi.len(), cost.len()),
        |i: int| current_mu[i].minus(target_pi[i]).negated().times(cost[i]),
    )
}

/// What an allocation moves to, before it is kept from going below zero.
pub open spec fn controlled(allocation: Double, target: Double, cost: Double, gain: Double) -> Double {
    allocation.minus(gain.times(allocation.minus(target.times(cost))))
}

/// The number, or zero if it is less.
pub open spec fn clamped(v: Double) -> Double {
    if v.less(Double::zero()) {
        Double::zero()
    } else {
        v
    }
}

/// The allocation after one step of control.
pub open spec fn reallocation(
    allocation: Seq<Double>,
    target: Seq<Double>,
    cost: Seq<Double>,
    gain: Double,
) -> Seq<Double> {
    Seq::new(
        shortest(allocation.len(), target.len(), cost.len()),
        |i: int| clamped(controlled(allocation[i], target[i], cost[i], gain)),
    )
}

/// The time average `(1/N) sum of f(trajectory[t])`.
pub fn ergodic_time_average(trajectory: &[usize], f: &[Double]) -> (r: Double)
    requires
        stays_below(trajectory@, f@.len()),
    ensures
        r == time_average(trajectory@, f@),
{
    let n: usize = trajectory.len();
    let mut acc: Double = Double::from_bits(crate::binary64::SIGN);
    let ghost terms = observed(trajectory@, f@);
    for t in 0..n
        invariant
            n == trajectory@.len(),
            stays_below(trajectory@, f@.len()),
            terms == observed(trajectory@, f@),
            acc == vector::total(terms.take(t as int)),
    {
        proof {
            vector::lemma_sum_take(vector::nothing(), terms, t as int);
        }
        acc = acc.plus(f[trajectory[t]]);
    }
    proof {
        assert(terms.take(n as int) == terms);
    }
    acc.over(Double::from_natural(n as u64))
}

/// The ensemble average `sum of pi[i] * f[i]`.
pub fn ergodic_ensemble_average(pi: &[Double], f: &[Double]) -> (r: Double)
    ensures
        r == vector::dot(pi@, f@),
{
    vector::dot_product(pi, f)
}

/// Whether the time average and the ensemble average differ by less than the
/// tolerance.
pub fn ergodic_check(
    trajectory: &[usize],
    f: &[Double],
    pi: &[Double],
    tolerance: Double,
) -> (r: bool)
    requires
        stays_below(trajectory@, f@.len()),
    ensures
        r == averages_agree(trajectory@, f@, pi@, tolerance),
{
    let ta: Double = ergodic_time_average(trajectory, f);
    let ea: Double = ergodic_ensemble_average(pi, f);
    ta.minus(ea).abs().less(tolerance)
}

/// How many samples guarantee that the average of `f` is off by `eps` with
/// probability at most `delta`, by Chebyshev's inequality.
pub fn birkhoff_bound(pi: &[Double], f: &[Double], eps: Double, delta: Double) -> (r: Option<
    Double,
>)
    ensures
        r == sample_bound(pi@, f@, eps, delta),
{
    let zero: Double = Double::from_bits(0);
    if eps.at_most(zero) || delta.at_most(zero) {
        return None;
    }
    let var: Double = vector::weighted_variance(pi, f);
    Some(var.over(eps.times(eps).times(delta)).ceil())
}

/// The fraction of its time that a trajectory spends in each state.
pub fn occupation_measure(trajectory: &[usize], n_states: usize) -> (r: Vec<Double>)
    requires
        stays_below(trajectory@, n_states as nat),
    ensures
        r@ == occupation(trajectory@, n_states as nat),
{
    let n: usize = trajectory.len();
    let one: Double = Double::from_bits(ONE_BITS);
    let mut counts: Vec<Double> = vec![Double::from_bits(0); n_states];
    proof {
        lemma_counted_zero();
    }
    for t in 0..n
        invariant
            n == trajectory@.len(),
            one == Double::one(),
            stays_below(trajectory@, n_states as nat),
            counts@.len() == n_states,
            forall|i: int|
                0 <= i < n_states ==> #[trigger] counts@[i] == counted(
                    visits(trajectory@.take(t as int), i),
                ),
    {
        let s: usize = trajectory[t];
        let c: Double = counts[s];
        counts.set(s, c.plus(one));
        proof {
            let (now, next) = (trajectory@.take(t as int), trajectory@.take(t + 1));
            assert(next.drop_last() == now);
            assert(next.last() == s);
            lemma_counted_next(visits(now, s as int));
        }
    }
    proof {
        assert(trajectory@.take(n as int) == trajectory@);
    }
    let total: Double = Double::from_natural(n as u64);
    let ghost full = counts@;
    for i in 0..n_states
        invariant
            full.len() == n_states,
            counts@.len() == n_states,
            total == Double::natural(trajectory@.len()),
            forall|j: int|
                0 <= j < n_states ==> #[trigger] full[j] == counted(visits(trajectory@, j)),
            forall|j: int|
                0 <= j < n_states ==> #[trigger] counts@[j] == if j < i {
                    full[j].over(total)
                } else {
                    full[j]
                },
    {
        let c: Double = counts[i];
        counts.set(i, c.over(total));
    }
    proof {
        assert(counts@ =~= occupation(trajectory@, n_states as nat));
    }
    counts
}

/// The Wasserstein distance of two distributions on the ordered states.
pub fn wasserstein_distance(mu: &[Double], nu: &[Double]) -> (r: Double)
    ensures
        r == wasserstein(mu@, nu@),
{
    let zero: Double = Double::from_bits(0);
    let mut dist: Double = zero;
    let mut cdf_mu: Double = zero;
    let mut cdf_nu: Double = zero;
    let n: usize = vector::shorter_length(mu.len(), nu.len());
    let ghost terms = cdf_distances(mu@, nu@);
    for i in 0..n
        invariant
            n == vector::shorter(mu@.len(), nu@.len()),
            terms == cdf_distances(mu@, nu@),
            cdf_mu == vector::sum_from(Double::zero(), mu@.take(i as int)),
            cdf_nu == vector::sum_from(Double::zero(), nu@.take(i as int)),
            dist == vector::sum_from(Double::zero(), terms.take(i as int)),
    {
        proof {
            vector::lemma_sum_take(Double::zero(), mu@, i as int);
            vector::lemma_sum_take(Double::zero(), nu@, i as int);
            vector::lemma_sum_take(Double::zero(), terms, i as int);
        }
        cdf_mu = cdf_mu.plus(mu[i]);
        cdf_nu = cdf_nu.plus(nu[i]);
        dist = dist.plus(cdf_mu.minus(cdf_nu).abs());
    }
    proof {
        assert(terms.take(n as int) == terms);
    }
    dist
}

/// The drift: the Wasserstein distance of the occupation measure from `pi`.
pub fn consumption_drift(trajectory: &[usize], pi: &[Double]) -> (r: Double)
    requires
        stays_below(trajectory@, pi@.len()),
    ensures
        r == wasserstein(occupation(trajectory@, pi@.len()), pi@),
{
    let mu: Vec<Double> = occupation_measure(trajectory, pi.len());
    wasserstein_distance(mu.as_slice(), pi)
}

/// The correction `-(current_mu[i] - target_pi[i]) * cost[i]` of each entry.
pub fn control_correction(
    current_mu: &[Double],
    target_pi: &[Double],
    cost: &[Double],
) -> (r: Vec<Double>)
    ensures
        r@ == corrections(current_mu@, target_pi@, cost@),
{
    let n: usize = vector::shorter_length(
        vector::shorter_length(current_mu.len(), target_pi.len()),
        cost.len(),
    );
    let mut corr: Vec<Double> = Vec::new();
    for i in 0..n
        invariant
            n == shortest(current_mu@.len(), target_pi@.len(), cost@.len()),
            corr@ == corrections(current_mu@, target_pi@, cost@).take(i as int),
    {
        let deviation: Double = current_mu[i].minus(target_pi[i]);
        corr.push(deviation.negated().times(cost[i]));
        proof {
            assert(corr@ =~= corrections(current_mu@, target_pi@, cost@).take(i + 1));
        }
    }
    proof {
        let all = corrections(current_mu@, target_pi@, cost@);
        assert(all.take(n as int) == all);
    }
    corr
}

/// One step of proportional control:
/// `max(0, allocation[i] - gain * (allocation[i] - target[i] * cost[i]))`.
pub fn lqr_step(allocation: &[Double], target: &[Double], cost: &[Double], gain: Double) -> (r: Vec<
    Double,
>)
    ensures
        r@ == reallocation(allocation@, target@, cost@, gain),
{
    let zero: Double = Double::from_bits(0);
    let n: usize = vector::shorter_length(
        vector::shorter_length(allocation.len(), target.len()),
        cost.len(),
    );
    let mut result: Vec<Double> = Vec::new();
    for i in 0..n
        invariant
            zero == Double::zero(),
            n == shortest(allocation@.len(), target@.len(), cost@.len()),
            result@ == reallocation(allocation@, target@, cost@, gain).take(i as int),
    {
        let error: Double = allocation[i].minus(target[i].times(cost[i]));
        let v: Double = allocation[i].minus(gain.times(error));
        result.push(
            if v.less(zero) {
                zero
            } else {
                v
            },
        );
        proof {
            assert(result@ =~= reallocation(allocation@, target@, cost@, gain).take(i + 1));
        }
    }
    proof {
        let all = reallocation(allocation@, target@, cost@, gain);
        assert(all.take(n as int) == all);
    }
    result
}

/// The long-run consumption `sum of pi[i] * resources[i]`.
pub fn predict_consumption(pi: &[Double], resources: &[Double]) -> (r: Double)
    ensures
        r == vector::dot(pi@, resources@),
{
    vector::dot_product(pi, resources)
}

/// The total allocated, less the predicted consumption.
pub fn budget_adequacy(allocation: &[Double], pi: &[Double], resources: &[Double]) -> (r: Double)
    ensures
        r == adequacy(allocation@, pi@, resources@),
{
    let total_alloc: Double = vector::sum(allocation);
    let predicted: Double = predict_consumption(pi, resources);
    total_alloc.minus(predicted)
}

/// Counting starts at zero.
proof fn lemma_counted_zero()
    ensures
        counted(0) == Double::zero(),
{
    double::lemma_natural_exact(0);
    binary64::lemma_scaled_order(counted(0).magnitude(), 0);
}

/// Adding one counts on.
pub proof fn lemma_counted_next(c: nat)
    ensures
        counted(c).plus(Double::one()) == counted(c + 1),
{
    if c < COUNT_LIMIT {
        double::lemma_natural_next(c);
    } else {
        double::lemma_natural_stuck();
    }
}

} // verus!
