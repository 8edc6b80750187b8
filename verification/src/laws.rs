//! What holds of the library as a whole.

use vstd::arithmetic::power2::*;
use vstd::prelude::*;

use crate::binary64;
use crate::chain;
use crate::divisor;
use crate::double;
use crate::double::Double;
use crate::evolution;
use crate::graph;
use crate::matrix::{TransitionMatrix, MAX_STATES};
use crate::measures;
use crate::order;
use crate::precision;
use crate::random;
use crate::vector;

verus! {

/// The Wasserstein distance is symmetric.
pub proof fn law_wasserstein_symmetric(mu: Seq<Double>, nu: Seq<Double>)
    ensures
        measures::wasserstein(mu, nu) == measures::wasserstein(nu, mu),
{
    let (a, b) = (measures::cdf_distances(mu, nu), measures::cdf_distances(nu, mu));
    assert forall|i: int| 0 <= i < a.len() implies a[i] == b[i] by {
        order::lemma_distance_symmetric(measures::cdf(mu, i), measures::cdf(nu, i));
    }
    assert(a =~= b);
}

/// A distribution has the Wasserstein distance zero from itself, as long as its
/// distribution function is finite.
pub proof fn law_wasserstein_identical(mu: Seq<Double>)
    requires
        forall|i: int| 0 <= i < mu.len() ==> (#[trigger] measures::cdf(mu, i)).is_finite(),
    ensures
        measures::wasserstein(mu, mu) == Double::zero(),
{
    let terms = measures::cdf_distances(mu, mu);
    assert forall|i: int| 0 <= i < terms.len() implies terms[i] == Double::zero() by {
        order::lemma_minus_self(measures::cdf(mu, i));
    }
    lemma_zeros(terms);
}

/// Zeros add up to zero.
proof fn lemma_zeros(terms: Seq<Double>)
    requires
        forall|i: int| 0 <= i < terms.len() ==> #[trigger] terms[i] == Double::zero(),
    ensures
        vector::sum_from(Double::zero(), terms) == Double::zero(),
    decreases terms.len(),
{
    if terms.len() > 0 {
        lemma_zeros(terms.drop_last());
        order::lemma_zero_plus_zero();
    }
}

/// Numbers not below zero do not add up to one below zero.
pub(crate) proof fn lemma_sum_sign(start: Double, terms: Seq<Double>)
    requires
        order::not_below_zero(start),
        forall|i: int| 0 <= i < terms.len() ==> order::not_below_zero(#[trigger] terms[i]),
    ensures
        order::not_below_zero(vector::sum_from(start, terms)),
    decreases terms.len(),
{
    if terms.len() > 0 {
        lemma_sum_sign(start, terms.drop_last());
        order::lemma_plus_sign(vector::sum_from(start, terms.drop_last()), terms.last());
    }
}

/// The Wasserstein distance is never below zero.
pub proof fn law_wasserstein_nonnegative(mu: Seq<Double>, nu: Seq<Double>)
    ensures
        order::not_below_zero(measures::wasserstein(mu, nu)),
{
    let terms = measures::cdf_distances(mu, nu);
    order::lemma_sign(Double::zero());
    assert forall|i: int| 0 <= i < terms.len() implies order::not_below_zero(
        #[trigger] terms[i],
    ) by {
        order::lemma_abs_sign(measures::cdf(mu, i).minus(measures::cdf(nu, i)));
    }
    lemma_sum_sign(Double::zero(), terms);
}

/// The visits to all states are as many as the trajectory is long.
pub proof fn law_visits_add_up(trajectory: Seq<usize>, n_states: nat)
    requires
        measures::stays_below(trajectory, n_states),
    ensures
        visits_below(trajectory, n_states) == trajectory.len(),
    decreases trajectory.len(),
{
    if trajectory.len() == 0 {
        lemma_no_visits(trajectory, n_states);
    } else {
        let shorter = trajectory.drop_last();
        assert forall|t: int| 0 <= t < shorter.len() implies #[trigger] shorter[t]
            < n_states by {
            assert(trajectory[t] < n_states);
        }
        law_visits_add_up(shorter, n_states);
        assert(trajectory[trajectory.len() - 1] < n_states);
        lemma_one_more_visit(trajectory, n_states);
    }
}

/// How often a trajectory visits the states below `n`.
pub open spec fn visits_below(trajectory: Seq<usize>, n: nat) -> nat
    decreases n,
{
    if n == 0 {
        0
    } else {
        visits_below(trajectory, (n - 1) as nat) + measures::visits(trajectory, n - 1)
    }
}

proof fn lemma_no_visits(trajectory: Seq<usize>, n: nat)
    requires
        trajectory.len() == 0,
    ensures
        visits_below(trajectory, n) == 0,
    decreases n,
{
    if n > 0 {
        lemma_no_visits(trajectory, (n - 1) as nat);
    }
}

proof fn lemma_one_more_visit(trajectory: Seq<usize>, n: nat)
    requires
        trajectory.len() > 0,
    ensures
        visits_below(trajectory, n) == visits_below(trajectory.drop_last(), n)
            + if trajectory.last() < n {
            1nat
        } else {
            0
        },
    decreases n,
{
    if n > 0 {
        lemma_one_more_visit(trajectory, (n - 1) as nat);
    }
}

/// A state is not visited more often than the trajectory is long.
pub(crate) proof fn lemma_visits_bound(trajectory: Seq<usize>, i: int)
    ensures
        measures::visits(trajectory, i) <= trajectory.len(),
    decreases trajectory.len(),
{
    if trajectory.len() > 0 {
        lemma_visits_bound(trajectory.drop_last(), i);
    }
}

/// The occupation measure of a trajectory that is not empty lies between zero and
/// one.
pub proof fn law_occupation_is_a_fraction(trajectory: Seq<usize>, n_states: nat, i: int)
    requires
        trajectory.len() > 0,
        0 <= i < n_states,
    ensures
        Double::zero().at_most(measures::occupation(trajectory, n_states)[i]),
        measures::occupation(trajectory, n_states)[i].at_most(Double::one()),
{
    let c = measures::visits(trajectory, i);
    let limit = if c <= measures::COUNT_LIMIT {
        c
    } else {
        measures::COUNT_LIMIT as nat
    };
    let len = trajectory.len();
    lemma_visits_bound(trajectory, i);
    lemma_fraction(limit, len);
}

/// A part of a whole is at most one.
proof fn lemma_fraction(part: nat, whole: nat)
    requires
        part <= whole,
        whole > 0,
        part <= measures::COUNT_LIMIT,
    ensures
        Double::zero().at_most(Double::natural(part).over(Double::natural(whole))),
        Double::natural(part).over(Double::natural(whole)).at_most(Double::one()),
        Double::natural(part).over(Double::natural(whole)).is_finite(),
{
    let (a, b) = (Double::natural(part), Double::natural(whole));
    let one = binary64::one();
    order::lemma_natural_sign(part);
    order::lemma_natural_sign(whole);
    double::lemma_natural_exact(part);
    double::lemma_natural_exact(1);
    double::lemma_one();
    order::lemma_natural_order(part, whole);
    order::lemma_natural_order(1, whole);
    lemma_pow2_pos(1074);
    order::lemma_sign(a);
    order::lemma_sign(b);
    order::lemma_sign(Double::zero());
    let (x, y) = (binary64::scaled(a.magnitude()), binary64::scaled(b.magnitude()));
    assert(1 * one == one) by (nonlinear_arith);
    assert(y > 0);
    if b.is_finite() {
        order::lemma_ratio(a, b);
    } else {
        reveal(Double::over_spec);
        order::lemma_signed(false, 0);
        order::lemma_sign(Double::signed(false, 0));
    }
}

/// Numbers between zero and one add up to a finite number.
proof fn lemma_fractions_sum(terms: Seq<Double>)
    requires
        forall|i: int|
            0 <= i < terms.len() ==> Double::zero().at_most(#[trigger] terms[i])
                && terms[i].at_most(Double::one()),
    ensures
        vector::sum_from(Double::zero(), terms).is_finite(),
        0 <= vector::sum_from(Double::zero(), terms).value() <= measures::counted(
            terms.len(),
        ).value(),
    decreases terms.len(),
{
    order::lemma_sign(Double::zero());
    lemma_counted_finite(terms.len());
    if terms.len() == 0 {
        order::lemma_natural_sign(0);
        order::lemma_sign(Double::natural(0));
    } else {
        let (first, x) = (terms.drop_last(), terms.last());
        assert forall|i: int| 0 <= i < first.len() implies Double::zero().at_most(
            #[trigger] first[i],
        ) && first[i].at_most(Double::one()) by {
            assert(first[i] == terms[i]);
        }
        lemma_fractions_sum(first);
        lemma_counted_finite(first.len());
        assert(terms[terms.len() - 1] == x);
        double::lemma_one();
        binary64::lemma_scaled_order(x.magnitude(), Double::one().magnitude());
        let (s, c) = (
            vector::sum_from(Double::zero(), first),
            measures::counted(first.len()),
        );
        order::lemma_sign(x);
        order::lemma_plus_order(s, x, c, Double::one());
        measures::lemma_counted_next(first.len());
        let r = s.plus(x);
        order::lemma_sign(r);
        let bound = measures::counted(terms.len());
        order::lemma_sign(bound);
        binary64::lemma_scaled_order(r.magnitude(), bound.magnitude());
    }
}

/// Counts are finite.
proof fn lemma_counted_finite(c: nat)
    ensures
        measures::counted(c).is_finite(),
        !measures::counted(c).is_negative(),
        measures::counted(c).value() >= 0,
{
    let k = if c <= measures::COUNT_LIMIT {
        c
    } else {
        measures::COUNT_LIMIT as nat
    };
    double::lemma_natural_exact(k);
    order::lemma_sign(measures::counted(c));
}

/// A trajectory that is not empty has no drift from a distribution whose entries
/// equal the fractions of its time.
pub proof fn law_no_drift_from_own_occupation(trajectory: Seq<usize>, pi: Seq<Double>)
    requires
        trajectory.len() > 0,
        forall|i: int|
            0 <= i < pi.len() ==> measures::occupation(trajectory, pi.len())[i].equals(
                #[trigger] pi[i],
            ),
    ensures
        measures::wasserstein(measures::occupation(trajectory, pi.len()), pi) == Double::zero(),
{
    let n = pi.len();
    let mu = measures::occupation(trajectory, n);
    let terms = measures::cdf_distances(mu, pi);
    assert forall|i: int| 0 <= i < n implies #[trigger] terms[i] == Double::zero() by {
        let (first, second) = (mu.take(i + 1), pi.take(i + 1));
        assert forall|j: int| 0 <= j < first.len() implies Double::zero().at_most(
            #[trigger] first[j],
        ) && first[j].at_most(Double::one()) by {
            law_occupation_is_a_fraction(trajectory, n, j);
        }
        lemma_fractions_sum(first);
        assert forall|j: int| 0 <= j < first.len() implies first[j].equals(
            #[trigger] second[j],
        ) by {
            assert(mu[j].equals(pi[j]));
        }
        lemma_equal_sums(first, second);
        let (a, b) = (measures::cdf(mu, i), measures::cdf(pi, i));
        reveal(Double::plus_spec);
        order::lemma_signed(!b.is_negative(), b.magnitude());
        order::lemma_signed(true, 0);
    }
    lemma_zeros(terms);
}

/// Terms with the same values add up to the same value.
proof fn lemma_equal_sums(a: Seq<Double>, b: Seq<Double>)
    requires
        a.len() == b.len(),
        forall|i: int| 0 <= i < b.len() ==> a[i].equals(#[trigger] b[i]),
        vector::sum_from(Double::zero(), a).is_finite(),
    ensures
        vector::sum_from(Double::zero(), a).equals(vector::sum_from(Double::zero(), b)),
        vector::sum_from(Double::zero(), b).is_finite(),
    decreases a.len(),
{
    if a.len() > 0 {
        let (first, second) = (a.drop_last(), b.drop_last());
        assert forall|i: int| 0 <= i < second.len() implies first[i].equals(
            #[trigger] second[i],
        ) by {
            assert(a[i].equals(b[i]));
        }
        precision::lemma_plus_finite_terms(
            vector::sum_from(Double::zero(), first),
            a.last(),
        );
        lemma_equal_sums(first, second);
        assert(a[a.len() - 1].equals(b[b.len() - 1]));
        order::lemma_plus_values(
            vector::sum_from(Double::zero(), first),
            a.last(),
            vector::sum_from(Double::zero(), second),
            b.last(),
        );
    }
}

/// On target, no entry is corrected.
pub proof fn law_no_correction_on_target(mu: Seq<Double>, cost: Seq<Double>, i: int)
    requires
        0 <= i < measures::corrections(mu, mu, cost).len(),
        mu[i].is_finite(),
        cost[i].is_finite(),
    ensures
        measures::corrections(mu, mu, cost)[i].is_zero(),
{
    order::lemma_minus_self(mu[i]);
    order::lemma_signed(true, 0);
    order::lemma_times_sign(Double::zero().negated(), cost[i]);
}

/// Control never allocates less than nothing.
pub proof fn law_allocation_nonnegative(
    allocation: Seq<Double>,
    target: Seq<Double>,
    cost: Seq<Double>,
    gain: Double,
    i: int,
)
    requires
        0 <= i < measures::reallocation(allocation, target, cost, gain).len(),
    ensures
        order::not_below_zero(measures::reallocation(allocation, target, cost, gain)[i]),
{
    order::lemma_sign(Double::zero());
}

/// Averages that agree agree within every greater tolerance.
pub proof fn law_agreement_tolerance(
    trajectory: Seq<usize>,
    f: Seq<Double>,
    pi: Seq<Double>,
    small: Double,
    great: Double,
)
    requires
        small.at_most(great),
        measures::averages_agree(trajectory, f, pi, small),
    ensures
        measures::averages_agree(trajectory, f, pi, great),
{
}

/// A variance under weights not below zero is not below zero.
pub proof fn law_variance_nonnegative(p: Seq<Double>, f: Seq<Double>)
    requires
        forall|i: int| 0 <= i < p.len() ==> order::not_below_zero(#[trigger] p[i]),
    ensures
        order::not_below_zero(vector::variance(p, f)),
{
    let mean = vector::dot(p, f);
    let terms = vector::deviations(p, f, mean);
    order::lemma_sign(vector::nothing());
    assert forall|i: int| 0 <= i < terms.len() implies order::not_below_zero(
        #[trigger] terms[i],
    ) by {
        order::lemma_weighted_square(p[i], f[i].minus(mean));
    }
    lemma_sum_sign(vector::nothing(), terms);
}

/// A stricter precision does not need fewer samples, where the variance is not
/// below zero and both bounds are numbers.
pub proof fn law_stricter_precision_needs_more(
    pi: Seq<Double>,
    f: Seq<Double>,
    eps: Double,
    stricter: Double,
    delta: Double,
)
    requires
        Double::zero().less(stricter),
        stricter.at_most(eps),
        Double::zero().less(delta),
        Double::zero().at_most(vector::variance(pi, f)),
        !measures::sample_bound(pi, f, eps, delta).unwrap().is_nan(),
        !measures::sample_bound(pi, f, stricter, delta).unwrap().is_nan(),
    ensures
        measures::sample_bound(pi, f, eps, delta).unwrap().at_most(
            measures::sample_bound(pi, f, stricter, delta).unwrap(),
        ),
{
    let v = vector::variance(pi, f);
    lemma_bound_order(v, eps, delta, stricter, delta);
}

/// A stricter confidence does not need fewer samples, where the variance is not
/// below zero and both bounds are numbers.
pub proof fn law_stricter_confidence_needs_more(
    pi: Seq<Double>,
    f: Seq<Double>,
    eps: Double,
    delta: Double,
    stricter: Double,
)
    requires
        Double::zero().less(eps),
        Double::zero().less(stricter),
        stricter.at_most(delta),
        Double::zero().at_most(vector::variance(pi, f)),
        !measures::sample_bound(pi, f, eps, delta).unwrap().is_nan(),
        !measures::sample_bound(pi, f, eps, stricter).unwrap().is_nan(),
    ensures
        measures::sample_bound(pi, f, eps, delta).unwrap().at_most(
            measures::sample_bound(pi, f, eps, stricter).unwrap(),
        ),
{
    let v = vector::variance(pi, f);
    lemma_bound_order(v, eps, delta, eps, stricter);
}

/// The bound grows as the parameters shrink.
pub(crate) proof fn lemma_bound_order(v: Double, e1: Double, d1: Double, e2: Double, d2: Double)
    requires
        Double::zero().less(e2),
        Double::zero().less(d2),
        e2.at_most(e1),
        d2.at_most(d1),
        Double::zero().at_most(v),
        !v.over(e1.times(e1).times(d1)).ceil().is_nan(),
        !v.over(e2.times(e2).times(d2)).ceil().is_nan(),
    ensures
        v.over(e1.times(e1).times(d1)).ceil().at_most(v.over(e2.times(e2).times(d2)).ceil()),
{
    order::lemma_sign(Double::zero());
    let (s1, s2) = (e1.times(e1), e2.times(e2));
    let (x1, x2) = (s1.times(d1), s2.times(d2));
    let (q1, q2) = (v.over(x1), v.over(x2));
    assert(!q1.is_nan() && !q2.is_nan()) by {
        reveal(Double::ceil_spec);
    }
    assert(!x1.is_nan() && !x2.is_nan()) by {
        reveal(Double::over_spec);
    }
    assert(!s1.is_nan() && !s2.is_nan()) by {
        reveal(Double::times_spec);
    }
    order::lemma_sign(e1);
    order::lemma_sign(e2);
    order::lemma_sign(d1);
    order::lemma_sign(d2);
    order::lemma_times_order(e2, e2, e1, e1);
    order::lemma_times_order(s2, d2, s1, d1);
    order::lemma_times_sign(e1, e1);
    order::lemma_times_sign(e2, e2);
    order::lemma_times_sign(s1, d1);
    order::lemma_times_sign(s2, d2);
    order::lemma_over_order(v, x1, v, x2);
    order::lemma_ceil_order(q1, q2);
}

/// The stationary distribution has one entry for each state; it is a distribution
/// after one move and normalization, and that step moved it by less than the
/// tolerance.
pub proof fn law_stationary_nearly_fixed(tm: TransitionMatrix)
    requires
        evolution::stationary(tm) is Some,
    ensures
        evolution::stationary(tm).unwrap().len() == tm.n,
        exists|before: Seq<Double>|
            evolution::stationary(tm).unwrap() == evolution::normalized(
                #[trigger] evolution::advanced(tm, before),
            ) && vector::l1_distance(evolution::stationary(tm).unwrap(), before).less(
                Double { bits: evolution::TOLERANCE_BITS },
            ),
{
    let k = choose|k: nat| evolution::converges_at(tm, k);
    let before = evolution::iterate(tm, (k - 1) as nat);
    evolution::lemma_iterate_len(tm, k);
    assert(evolution::is_close(tm, k));
    assert(evolution::stationary(tm).unwrap() == evolution::normalized(
        evolution::advanced(tm, before),
    ));
}

/// Whether no entry of the matrix is below zero.
pub open spec fn entries_nonnegative(tm: TransitionMatrix) -> bool {
    forall|i: int, j: int|
        0 <= i < tm.n && 0 <= j < tm.n ==> order::not_below_zero(#[trigger] tm.at(i, j))
}

/// Moves under a matrix without entries below zero keep a distribution from going
/// below zero.
pub(crate) proof fn lemma_advanced_sign(tm: TransitionMatrix, v: Seq<Double>)
    requires
        entries_nonnegative(tm),
        v.len() == tm.n,
        forall|i: int| 0 <= i < v.len() ==> order::not_below_zero(#[trigger] v[i]),
    ensures
        forall|i: int|
            0 <= i < tm.n ==> order::not_below_zero(#[trigger] evolution::advanced(tm, v)[i]),
{
    order::lemma_sign(Double::zero());
    assert forall|j: int| 0 <= j < tm.n implies order::not_below_zero(
        #[trigger] evolution::advanced(tm, v)[j],
    ) by {
        let terms = evolution::flow(tm, v, j);
        assert forall|i: int| 0 <= i < terms.len() implies order::not_below_zero(
            #[trigger] terms[i],
        ) by {
            assert(order::not_below_zero(tm.at(i, j)));
            order::lemma_times_nonnegative(v[i], tm.at(i, j));
        }
        lemma_sum_sign(Double::zero(), terms);
    }
}

/// The iterates of a matrix without entries below zero have none below zero.
pub(crate) proof fn lemma_iterate_sign(tm: TransitionMatrix, k: nat)
    requires
        entries_nonnegative(tm),
        tm.n > 0,
        forall|j: nat| 1 <= j <= k ==> !#[trigger] evolution::vanishes(tm, j),
    ensures
        forall|i: int|
            0 <= i < tm.n ==> order::not_below_zero(#[trigger] evolution::iterate(tm, k)[i]),
    decreases k,
{
    evolution::lemma_iterate_len(tm, k);
    order::lemma_sign(Double::zero());
    if k == 0 {
        double::lemma_one();
        double::lemma_natural_exact(1);
        order::lemma_sign(Double::one());
        order::lemma_natural_sign(tm.n as nat);
        order::lemma_natural_order(1, tm.n as nat);
        lemma_pow2_pos(1074);
        assert(1 * binary64::one() == binary64::one()) by (nonlinear_arith);
        order::lemma_sign(Double::natural(tm.n as nat));
        order::lemma_over_sign(Double::one(), Double::natural(tm.n as nat));
    } else {
        let before = evolution::iterate(tm, (k - 1) as nat);
        evolution::lemma_iterate_len(tm, (k - 1) as nat);
        lemma_iterate_sign(tm, (k - 1) as nat);
        lemma_advanced_sign(tm, before);
        let moved = evolution::advanced(tm, before);
        let sum = vector::total(moved);
        order::lemma_sign(vector::nothing());
        lemma_sum_sign(vector::nothing(), moved);
        assert(!evolution::vanishes(tm, k));
        order::lemma_sign(sum);
        assert forall|i: int| 0 <= i < tm.n implies order::not_below_zero(
            #[trigger] evolution::iterate(tm, k)[i],
        ) by {
            order::lemma_over_sign(moved[i], sum);
        }
    }
}

/// A chain without states has no stationary distribution.
pub proof fn law_no_states_no_stationary(tm: TransitionMatrix)
    requires
        tm.n == 0,
    ensures
        evolution::stationary(tm) is None,
{
}

/// A chain has one mixing time.
pub proof fn law_mixing_time_unique(
    tm: TransitionMatrix,
    pi: Seq<Double>,
    epsilon: Double,
    a: nat,
    b: nat,
)
    requires
        evolution::mixes_at(tm, pi, epsilon, a),
        evolution::mixes_at(tm, pi, epsilon, b),
    ensures
        a == b,
{
}

/// A greater distance is reached no later.
pub proof fn law_mixing_time_order(
    tm: TransitionMatrix,
    pi: Seq<Double>,
    small: Double,
    great: Double,
    k: nat,
    l: nat,
)
    requires
        small.at_most(great),
        evolution::mixes_at(tm, pi, small, k),
        evolution::mixes_at(tm, pi, great, l),
    ensures
        l <= k,
{
    if k < l {
        assert(evolution::is_mixed(tm, pi, great, k));
    }
}

/// The budget safety margin is never below zero.
pub proof fn law_margin_nonnegative(tm: TransitionMatrix, pi: Seq<Double>, k: nat)
    ensures
        order::not_below_zero(chain::safety_margin(tm, pi, k)),
{
    let spread = vector::variance(pi, vector::indices(tm.n as nat)).sqrt();
    order::lemma_natural_sign(k);
    order::lemma_sqrt_sign(vector::variance(pi, vector::indices(tm.n as nat)));
    order::lemma_times_nonnegative(Double::natural(k), spread);
}

/// A budget that is exactly what is predicted leaves nothing.
pub proof fn law_exact_budget(allocation: Seq<Double>, pi: Seq<Double>, resources: Seq<Double>)
    requires
        vector::total(allocation) == vector::dot(pi, resources),
        vector::total(allocation).is_finite(),
    ensures
        measures::adequacy(allocation, pi, resources) == Double::zero(),
{
    order::lemma_minus_self(vector::total(allocation));
}

/// The tolerance of the power iteration is the number nearest to ten to the power
/// -12, and one half is half of one.
pub proof fn law_constants()
    ensures
        binary64::nearest(binary64::one(), 1_000_000_000_000) == evolution::TOLERANCE_BITS,
        2 * Double::half().value() == binary64::one(),
        Double::one().value() == binary64::one(),
{
    let b = binary64::BINADE as nat;
    let m = evolution::TOLERANCE_BITS as nat;
    let t = (b + 0x1_9799_812D_EA11) as nat;
    let den = 1_000_000_000_000nat;
    let p = pow2(982);
    lemma_pow2_pos(982);
    double::lemma_one();
    lemma2_to64();
    lemma2_to64_rest();
    lemma_pow2_adds(52, 1021);
    lemma_pow2_unfold(1074);
    binary64::lemma_scaled_parts(1021, b);
    lemma_pow2_adds(982, 92);
    lemma_pow2_adds(46, 46);
    binary64::lemma_scaled_parts(982, t);
    binary64::lemma_scaled_parts(982, t + 1);
    binary64::lemma_scaled_parts(982, (t - 1) as nat);
    assert(m == 982 * b + t);
    let one = binary64::one();
    let (low, high) = (binary64::mid((m - 1) as nat), binary64::mid(m));
    assert(low * den < 2 * one) by (nonlinear_arith)
        requires
            low == (t - 1) * p + t * p,
            one == p * 0x1000_0000_0000_0000_0000_0000,
            t == 0x11_9799_812D_EA11,
            den == 1_000_000_000_000,
            p > 0,
    ;
    assert(2 * one < high * den) by (nonlinear_arith)
        requires
            high == t * p + (t + 1) * p,
            one == p * 0x1000_0000_0000_0000_0000_0000,
            t == 0x11_9799_812D_EA11,
            den == 1_000_000_000_000,
            p > 0,
    ;
    assert(binary64::rounds_to(one, den, m));
    binary64::lemma_nearest_is(one, den, m);
}

/// The random numbers of simulations lie in `[0, 1)`; each is a multiple of two
/// to the power -53.
pub proof fn law_unit_number(draw: u64)
    ensures
        chain::unit_number(draw).value() == (draw as nat / 2048) * pow2(1021),
        Double::zero().at_most(chain::unit_number(draw)),
        chain::unit_number(draw).less(Double::one()),
{
    let c = draw as nat / 2048;
    let grain = Double { bits: chain::GRAIN_BITS };
    let one = binary64::one();
    let b = binary64::BINADE as nat;
    binary64::lemma_scaled_parts(969, b);
    lemma2_to64();
    lemma2_to64_rest();
    lemma_pow2_adds(52, 969);
    lemma_pow2_adds(53, 1021);
    lemma_pow2_pos(1021);
    lemma_pow2_pos(1074);
    double::lemma_natural_exact(c);
    double::lemma_one();
    order::lemma_sign(Double::zero());
    assert(binary64::scaled(grain.magnitude()) == pow2(1021));
    let x = Double::natural(c);
    let num = binary64::scaled(grain.magnitude()) * binary64::scaled(x.magnitude());
    assert(num == (c * pow2(1021)) * one) by (nonlinear_arith)
        requires
            num == pow2(1021) * (c * one),
    ;
    assert(c * pow2(1021) < one) by (nonlinear_arith)
        requires
            one == 0x20_0000_0000_0000 * pow2(1021),
            c < 0x20_0000_0000_0000,
            pow2(1021) > 0,
    ;
    reveal(Double::times_spec);
    lemma_grains(c);
    let m = choose|m: nat| m < binary64::INFINITE && binary64::scaled(m) == c * pow2(1021);
    binary64::lemma_nearest_exact(m, one);
    order::lemma_signed(false, m);
}

/// A number of grains below two to the power 53 is kept exactly.
proof fn lemma_grains(c: nat)
    requires
        c < 2 * binary64::BINADE,
    ensures
        exists|m: nat| m < binary64::INFINITE && #[trigger] binary64::scaled(m) == c * pow2(1021),
{
    let b = binary64::BINADE as nat;
    lemma2_to64();
    lemma2_to64_rest();
    if c == 0 {
        assert(binary64::scaled(0) == 0 * pow2(1021)) by (nonlinear_arith)
            requires
                binary64::scaled(0) == 0,
        ;
    } else {
        let l = double::lemma_bits(c);
        if l > 53 {
            if l > 54 {
                lemma_pow2_strictly_increases(53, (l - 1) as nat);
            }
        }
        let s = (53 - l) as nat;
        let u = (1021 - s) as nat;
        let t = c * pow2(s);
        lemma_pow2_adds(s, u);
        lemma_pow2_adds(l, s);
        lemma_pow2_adds((l - 1) as nat, s);
        lemma_pow2_pos(s);
        assert(t < pow2(l) * pow2(s)) by (nonlinear_arith)
            requires
                t == c * pow2(s),
                c < pow2(l),
                pow2(s) > 0,
        ;
        assert(t >= pow2((l - 1) as nat) * pow2(s)) by (nonlinear_arith)
            requires
                t == c * pow2(s),
                c >= pow2((l - 1) as nat),
        ;
        binary64::lemma_scaled_parts(u, t);
        assert(t * pow2(u) == c * pow2(1021)) by (nonlinear_arith)
            requires
                t == c * pow2(s),
                pow2(1021) == pow2(s) * pow2(u),
        ;
        let m = u * b + t;
        assert(binary64::scaled(m) == c * pow2(1021));
    }
}

/// A simulation that starts among the states stays among them.
pub proof fn law_simulation_stays(
    tm: TransitionMatrix,
    draws: Map<nat, u64>,
    s0: int,
    t: nat,
)
    requires
        0 <= s0 < tm.n,
    ensures
        0 <= chain::state_after(tm, draws, s0, t) < tm.n,
    decreases t,
{
    if t > 0 {
        law_simulation_stays(tm, draws, s0, (t - 1) as nat);
    }
}

/// Where the probability to be below `m` is not zero, a number up to it is
/// admitted by some state below `m`.
proof fn lemma_some_admits(tm: TransitionMatrix, s: int, r: Double, m: nat)
    requires
        m <= MAX_STATES,
        0 <= s < MAX_STATES,
        forall|j: int| 0 <= j < m ==> order::not_below_zero(#[trigger] tm.at(s, j)),
        r.at_most(chain::cumulative(tm, s, m as int)),
        Double::zero().less(chain::cumulative(tm, s, m as int)),
    ensures
        exists|j: int| 0 <= j < m && #[trigger] chain::admits(tm, s, r, j),
    decreases m,
{
    let row = tm.data@[s]@;
    order::lemma_sign(Double::zero());
    if m == 0 {
        assert(row.take(0).len() == 0);
    } else {
        let j = m - 1;
        let x = tm.at(s, j);
        if Double::zero().less(x) {
            assert(chain::admits(tm, s, r, j));
        } else {
            let before = chain::cumulative(tm, s, j);
            vector::lemma_sum_take(Double::zero(), row, j);
            assert(order::not_below_zero(x));
            assert(!x.is_nan()) by {
                reveal(Double::plus_spec);
            }
            order::lemma_sign(x);
            order::lemma_plus_zero(before, x);
            lemma_some_admits(tm, s, r, j as nat);
        }
    }
}

/// A number that some state admits falls to the first such state.
pub(crate) proof fn lemma_falls_somewhere(tm: TransitionMatrix, s: int, r: Double, j: nat)
    requires
        j < tm.n,
        chain::admits(tm, s, r, j as int),
    ensures
        exists|i: int| chain::falls_to(tm, s, r, i),
    decreases j,
{
    if exists|i: int| 0 <= i < j && #[trigger] chain::admits(tm, s, r, i) {
        let i = choose|i: int| 0 <= i < j && #[trigger] chain::admits(tm, s, r, i);
        lemma_falls_somewhere(tm, s, r, i as nat);
    } else {
        assert(chain::falls_to(tm, s, r, j as int));
    }
}

/// Whether the entries of row `s` are not below zero and add up to one.
pub open spec fn row_adds_up(tm: TransitionMatrix, s: int) -> bool {
    &&& forall|j: int| 0 <= j < tm.n ==> order::not_below_zero(#[trigger] tm.at(s, j))
    &&& chain::cumulative(tm, s, tm.n as int) == Double::one()
}

/// From a state whose row adds up to one, no drawn number leads to a move of
/// probability zero.
pub proof fn law_moves_are_possible(tm: TransitionMatrix, s: int, draw: u64)
    requires
        tm.wf(),
        0 <= s < tm.n,
        row_adds_up(tm, s),
    ensures
        Double::zero().less(tm.at(s, chain::next_state(tm, s, chain::unit_number(draw)))),
{
    let r = chain::unit_number(draw);
    law_unit_number(draw);
    double::lemma_one();
    lemma_pow2_pos(1074);
    order::lemma_sign(Double::zero());
    lemma_some_admits(tm, s, r, tm.n as nat);
    let j = choose|j: int| 0 <= j < tm.n && #[trigger] chain::admits(tm, s, r, j);
    lemma_falls_somewhere(tm, s, r, j as nat);
    let to = chain::next_state(tm, s, r);
    assert(chain::falls_to(tm, s, r, to));
}

/// Where all rows add up to one, a simulation makes only moves of a probability
/// above zero.
pub proof fn law_simulation_moves_are_possible(
    tm: TransitionMatrix,
    draws: Map<nat, u64>,
    s0: int,
    t: nat,
)
    requires
        tm.wf(),
        0 <= s0 < tm.n,
        forall|s: int| 0 <= s < tm.n ==> #[trigger] row_adds_up(tm, s),
    ensures
        Double::zero().less(
            tm.at(
                chain::state_after(tm, draws, s0, t),
                chain::state_after(tm, draws, s0, t + 1),
            ),
        ),
{
    let s = chain::state_after(tm, draws, s0, t);
    law_simulation_stays(tm, draws, s0, t);
    assert(row_adds_up(tm, s));
    assert((t + 1 - 1) as nat == t);
    law_moves_are_possible(tm, s, draws[t]);
}

/// Two simulations from the same seed are the same.
pub proof fn law_seed_determinism(
    tm: TransitionMatrix,
    seed: u64,
    s0: int,
    a: Seq<usize>,
    b: Seq<usize>,
)
    requires
        a.len() == b.len(),
        chain::follows(tm, random::seeded_draws(seed, usize::BITS as nat), s0, a),
        chain::follows(tm, random::seeded_draws(seed, usize::BITS as nat), s0, b),
    ensures
        a == b,
{
    assert(a =~= b);
}

/// A simulation goes on where the last one stopped: the state after `a + b` moves
/// is the state after `b` more moves from the state after `a`, by the numbers
/// that are left.
pub proof fn law_simulation_continues(
    tm: TransitionMatrix,
    draws: Map<nat, u64>,
    left: Map<nat, u64>,
    s0: int,
    a: nat,
    b: nat,
)
    requires
        forall|i: nat| #[trigger] left[i] == draws[i + a],
    ensures
        chain::state_after(tm, draws, s0, a + b) == chain::state_after(
            tm,
            left,
            chain::state_after(tm, draws, s0, a),
            b,
        ),
    decreases b,
{
    if b > 0 {
        law_simulation_continues(tm, draws, left, s0, a, (b - 1) as nat);
        assert((a + b - 1) as nat == a + (b - 1) as nat);
        assert(left[(b - 1) as nat] == draws[(b - 1) as nat + a]);
    }
}

/// In an irreducible chain, all states have the same period.
pub proof fn law_common_period(tm: TransitionMatrix, i: int, j: int, p: nat, q: nat)
    requires
        tm.irreducible(),
        0 <= i < tm.n,
        0 <= j < tm.n,
        tm.is_period(i, p),
        tm.is_period(j, q),
    ensures
        p == q,
{
    graph::lemma_common_period(tm, i, p);
    graph::lemma_period_unique(tm, j, p, q);
}

/// An irreducible chain in which some state can stay is aperiodic.
pub proof fn law_lazy_chain_aperiodic(tm: TransitionMatrix, i: int)
    requires
        tm.irreducible(),
        tm.edge(i, i),
    ensures
        tm.aperiodic(),
{
    graph::lemma_edge_steps(tm, i, i);
    assert(tm.returns_after(i, 1));
    divisor::lemma_one_divides();
    assert(tm.is_period(i, 1)) by {
        assert forall|d: nat| #[trigger] tm.divides_returns(i, d) implies divisor::divides(
            d,
            1,
        ) by {
            assert(tm.returns_after(i, 1));
        }
    }
    graph::lemma_common_period(tm, i, 1);
}

/// The greatest common divisor is unique, and the order of the numbers does not
/// matter.
pub proof fn law_gcd_symmetric(g: nat, h: nat, a: int, b: int)
    requires
        divisor::is_gcd(g, a, b),
        divisor::is_gcd(h, b, a),
    ensures
        g == h,
{
    assert(divisor::divides(g, b) && divisor::divides(g, a));
    divisor::lemma_mutual(g, h);
}

} // verus!
