//! What holds of distances and averages up to rounding.

use vstd::prelude::*;

use crate::accuracy;
use crate::binary64;
use crate::double::Double;
use crate::evolution;
use crate::laws;
use crate::measures;
use crate::order;
use crate::precision;
use crate::vector;

verus! {

/// The exact sum of the distances of the computed distribution functions.
pub open spec fn exact_distance(mu: Seq<Double>, nu: Seq<Double>, n: nat) -> real {
    precision::sum_of(
        |i: int|
            precision::size(
                precision::number(measures::cdf(mu, i)) - precision::number(measures::cdf(nu, i)),
            ),
        n,
    )
}

/// The error of a finite Wasserstein distance, against the exact sum of the
/// distances of the distribution functions.
pub(crate) proof fn lemma_distance_error(mu: Seq<Double>, nu: Seq<Double>)
    requires
        mu.len() == nu.len(),
        mu.len() <= precision::LENGTH_LIMIT,
        measures::wasserstein(mu, nu).is_finite(),
    ensures
        exact_distance(mu, nu, mu.len()) >= 0 as real,
        precision::size(
            precision::number(measures::wasserstein(mu, nu)) - exact_distance(mu, nu, mu.len()),
        ) <= precision::growth(mu.len() + 2) * exact_distance(mu, nu, mu.len()),
{
    let n = mu.len();
    let d = measures::cdf_distances(mu, nu);
    let e = precision::eps();
    precision::lemma_eps();
    order::lemma_sign(Double::zero());
    precision::lemma_nonzero(d);
    precision::lemma_sum_error(Double::zero(), d);
    let gaps = |i: int|
        precision::size(
            precision::number(measures::cdf(mu, i)) - precision::number(measures::cdf(nu, i)),
        );
    let errors = |i: int| e * gaps(i);
    let f = precision::numbers(d);
    assert forall|i: int| 0 <= i < n implies precision::size(#[trigger] f(i) - gaps(i)) <= errors(
        i,
    ) && f(i) >= 0 as real by {
        let (a, b) = (measures::cdf(mu, i), measures::cdf(nu, i));
        assert(d[i].is_finite());
        order::lemma_abs_sign(a.minus(b));
        precision::lemma_plus_finite_terms(a, b.negated());
        order::lemma_signed(!b.is_negative(), b.magnitude());
        precision::lemma_minus_error(a, b);
        precision::lemma_number_abs(a.minus(b));
    }
    precision::lemma_sum_difference(f, gaps, errors, n);
    precision::lemma_sum_scale(gaps, e, errors, n);
    precision::lemma_sum_bounds(gaps, n, 0);
    assert forall|i: int| 0 <= i < n implies #[trigger] precision::sizes(d)(i) == f(i) by {
        assert(f(i) >= 0 as real);
    }
    precision::lemma_sum_same(precision::sizes(d), f, n);
    let (g, t) = (precision::sum_of(gaps, n), precision::sum_of(f, n));
    let c = precision::growth(precision::nonzero(d));
    let l = precision::growth(n);
    precision::lemma_growth_order(precision::nonzero(d), n);
    precision::lemma_growth(precision::nonzero(d));
    precision::lemma_growth(n);
    precision::lemma_growth(n + 1);
    assert(c * t + e * g <= (l + e + e) * g) by (nonlinear_arith)
        requires
            0 as real <= c,
            c <= l,
            l * 4 as real <= 1 as real,
            0 as real <= t,
            t <= g + e * g,
            0 as real <= g,
            e > 0 as real,
    {
        let u = e * g;
        assert(u >= 0 as real);
        assert(c * t <= l * t);
        assert(l * t <= l * (g + u));
        assert(l * u <= u);
    }
}

/// The triangle inequality of the Wasserstein distance: the way from `a` to `c` is
/// not longer than the way over `b`, up to three times the relative error of the
/// sums. For up to a million states, that is less than a part in ten to the power
/// 9.
pub proof fn law_wasserstein_triangle(a: Seq<Double>, b: Seq<Double>, c: Seq<Double>)
    requires
        a.len() == b.len(),
        b.len() == c.len(),
        a.len() <= precision::LENGTH_LIMIT,
        measures::wasserstein(a, b).is_finite(),
        measures::wasserstein(b, c).is_finite(),
        measures::wasserstein(a, c).is_finite(),
    ensures
        precision::number(measures::wasserstein(a, c)) <= (precision::number(
            measures::wasserstein(a, b),
        ) + precision::number(measures::wasserstein(b, c))) * (1 as real + 3 as real
            * precision::growth(a.len() + 2)),
        a.len() <= 1_000_000 ==> precision::growth(a.len() + 2) * 3_000_000_000 as real
            <= 1 as real,
{
    let n = a.len();
    lemma_distance_error(a, b);
    lemma_distance_error(b, c);
    lemma_distance_error(a, c);
    lemma_exact_triangle(a, b, c, n);
    let (x, y, z) = (exact_distance(a, b, n), exact_distance(b, c, n), exact_distance(a, c, n));
    let (p, q, r) = (
        precision::number(measures::wasserstein(a, b)),
        precision::number(measures::wasserstein(b, c)),
        precision::number(measures::wasserstein(a, c)),
    );
    precision::lemma_growth(n + 2);
    let k = precision::growth(n + 2);
    assert(r <= (p + q) * (1 as real + 3 as real * k)) by (nonlinear_arith)
        requires
            0 as real <= k,
            k * 3 as real <= 1 as real,
            r <= z + k * z,
            z <= x + y,
            p >= x - k * x,
            q >= y - k * y,
            0 as real <= x,
            0 as real <= y,
    {
        let s = x + y;
        assert(k * z <= k * s);
        assert(p + q >= s - k * s);
        assert((p + q) * (1 as real + 3 as real * k) >= (s - k * s) * (1 as real + 3 as real * k));
        assert((s - k * s) * (1 as real + 3 as real * k) == s + 2 as real * (k * s) - 3 as real
            * (k * (k * s)));
        assert(0 as real <= k * s);
        assert(3 as real * (k * (k * s)) <= k * s);
    }
}

/// The exact sums satisfy the triangle inequality.
proof fn lemma_exact_triangle(a: Seq<Double>, b: Seq<Double>, c: Seq<Double>, n: nat)
    ensures
        exact_distance(a, c, n) <= exact_distance(a, b, n) + exact_distance(b, c, n),
{
    let f = |i: int|
        precision::size(
            precision::number(measures::cdf(a, i)) - precision::number(measures::cdf(b, i)),
        );
    let g = |i: int|
        precision::size(
            precision::number(measures::cdf(b, i)) - precision::number(measures::cdf(c, i)),
        );
    let h = |i: int|
        precision::size(
            precision::number(measures::cdf(a, i)) - precision::number(measures::cdf(c, i)),
        );
    let both = |i: int| f(i) + g(i);
    precision::lemma_sum_plus(f, g, both, n);
    precision::lemma_sum_order(h, both, n);
}

/// The distribution function of a probability vector.
pub(crate) proof fn lemma_cdf(mu: Seq<Double>, i: int)
    requires
        accuracy::is_probability_vector(mu),
        mu.len() <= precision::LENGTH_LIMIT,
        0 <= i < mu.len(),
    ensures
        measures::cdf(mu, i).is_finite(),
        precision::number(measures::cdf(mu, i)) >= 0 as real,
        precision::size(
            precision::number(measures::cdf(mu, i)) - precision::sum_of(
                precision::numbers(mu),
                (i + 1) as nat,
            ),
        ) <= precision::growth(mu.len()) * accuracy::mass(mu),
        0 as real <= precision::sum_of(precision::numbers(mu), (i + 1) as nat),
        precision::sum_of(precision::numbers(mu), (i + 1) as nat) <= accuracy::mass(mu),
{
    let n = mu.len();
    let k = (i + 1) as nat;
    let terms = mu.take(i + 1);
    let f = precision::numbers(mu);
    assert forall|j: int| 0 <= j < n implies #[trigger] f(j) >= 0 as real && mu[j].is_finite()
        && order::not_below_zero(mu[j]) by {
        accuracy::lemma_fractional(mu[j]);
        order::lemma_sign(mu[j]);
    }
    lemma_prefix(f, k, n);
    assert forall|j: int| 0 <= j < k implies (#[trigger] terms[j]).is_finite()
        && order::not_below_zero(terms[j]) by {
        assert(f(j) >= 0 as real);
    }
    assert forall|j: int| 0 <= j < k implies #[trigger] precision::sizes(terms)(j) == f(j) by {
        assert(f(j) >= 0 as real);
    }
    precision::lemma_sum_same(precision::sizes(terms), f, k);
    precision::lemma_sum_same(precision::numbers(terms), f, k);
    precision::lemma_nonzero(terms);
    order::lemma_sign(Double::zero());
    precision::lemma_sum_finite(Double::zero(), terms);
    precision::lemma_sum_error(Double::zero(), terms);
    accuracy::lemma_sum_covers(Double::zero(), terms, 0);
    accuracy::lemma_number_sign(measures::cdf(mu, i));
    let (m, x) = (accuracy::mass(mu), precision::sum_of(f, k));
    let (c, l) = (precision::growth(precision::nonzero(terms)), precision::growth(n));
    precision::lemma_growth_order(precision::nonzero(terms), n);
    precision::lemma_growth(precision::nonzero(terms));
    assert(c * x <= l * m) by (nonlinear_arith)
        requires
            0 as real <= c,
            c <= l,
            0 as real <= x,
            x <= m,
    {
        assert(c * x <= c * m);
    }
}

/// A part of a sum of terms not below zero is not greater than the sum.
pub(crate) proof fn lemma_prefix(f: spec_fn(int) -> real, k: nat, n: nat)
    requires
        k <= n,
        forall|i: int| 0 <= i < n ==> #[trigger] f(i) >= 0 as real,
    ensures
        0 as real <= precision::sum_of(f, k),
        precision::sum_of(f, k) <= precision::sum_of(f, n),
    decreases n,
{
    if k < n {
        lemma_prefix(f, k, (n - 1) as nat);
        assert(f(n - 1) >= 0 as real);
    } else {
        precision::lemma_sum_bounds(f, k, 0);
    }
}

/// What the distribution function of a probability vector is at most, and what it
/// ends near.
pub(crate) proof fn lemma_cdf_bound(mu: Seq<Double>, i: int)
    requires
        accuracy::is_probability_vector(mu),
        mu.len() <= precision::LENGTH_LIMIT,
        0 <= i < mu.len(),
    ensures
        measures::cdf(mu, i).is_finite(),
        0 as real <= precision::number(measures::cdf(mu, i)),
        precision::number(measures::cdf(mu, i)) <= accuracy::mass(mu) + error_of(mu),
        i == mu.len() - 1 ==> precision::size(
            precision::number(measures::cdf(mu, i)) - accuracy::mass(mu),
        ) <= error_of(mu),
        0 as real <= error_of(mu),
        error_of(mu) * 1_000_000_000_000 as real <= precision::growth(mu.len())
            * 1_000_000_000_001 as real,
        error_of(mu) * 3 as real <= 1 as real,
{
    lemma_cdf(mu, i);
    precision::lemma_growth(mu.len());
    let (m, g) = (accuracy::mass(mu), precision::growth(mu.len()));
    assert(0 as real <= g * m && (g * m) * 1_000_000_000_000 as real <= g
        * 1_000_000_000_001 as real) by (nonlinear_arith)
        requires
            0 as real <= g,
            0 as real <= m,
            m * 1_000_000_000_000 as real <= 1_000_000_000_001 as real,
    ;
}

/// The bound for the error of the distribution function.
pub(crate) open spec fn error_of(mu: Seq<Double>) -> real {
    precision::growth(mu.len()) * accuracy::mass(mu)
}

/// The Wasserstein distance of two probability vectors is finite.
pub(crate) proof fn lemma_distance_finite(mu: Seq<Double>, nu: Seq<Double>)
    requires
        accuracy::is_probability_vector(mu),
        accuracy::is_probability_vector(nu),
        mu.len() == nu.len(),
        mu.len() <= precision::LENGTH_LIMIT,
    ensures
        measures::wasserstein(mu, nu).is_finite(),
        exact_distance(mu, nu, mu.len()) * 3 as real <= mu.len() as real * 4 as real,
{
    let n = mu.len();
    let d = measures::cdf_distances(mu, nu);
    let gaps = |i: int|
        precision::size(
            precision::number(measures::cdf(mu, i)) - precision::number(measures::cdf(nu, i)),
        );
    let c = 4 as real / 3 as real;
    assert(c * 3 as real == 4 as real) by (nonlinear_arith)
        requires
            c == 4 as real / 3 as real,
    ;
    let bounds = |i: int| c;
    precision::lemma_growth(n);
    assert forall|i: int| 0 <= i < n implies {
        &&& (#[trigger] d[i]).is_finite()
        &&& precision::size(precision::number(d[i])) <= 8 as real
        &&& gaps(i) <= bounds(i)
    } by {
        let (a, b) = (measures::cdf(mu, i), measures::cdf(nu, i));
        lemma_cdf_bound(mu, i);
        lemma_cdf_bound(nu, i);
        precision::lemma_minus_bound(a, b, 2 as real, 2 as real);
        precision::lemma_number_abs(a.minus(b));
    }
    assert forall|i: int| 0 <= i < n implies #[trigger] gaps(i) <= bounds(i) by {
        assert(d[i].is_finite());
    }
    precision::lemma_sum_order(gaps, bounds, n);
    precision::lemma_sum_equal(bounds, c, n);
    let l = n as real;
    assert((l * c) * 3 as real == l * 4 as real) by (nonlinear_arith)
        requires
            c * 3 as real == 4 as real,
    ;
    order::lemma_sign(Double::zero());
    precision::lemma_sum_bound(Double::zero(), d, 8 as real);
}

/// The Wasserstein distance of two probability vectors is a finite number not below
/// zero, does not depend on their order, and is zero from a vector to itself.
pub proof fn law_wasserstein_of_distributions(a: Seq<Double>, b: Seq<Double>)
    requires
        accuracy::is_probability_vector(a),
        accuracy::is_probability_vector(b),
        a.len() == b.len(),
        a.len() <= precision::LENGTH_LIMIT,
    ensures
        measures::wasserstein(a, b).is_finite(),
        Double::zero().at_most(measures::wasserstein(a, b)),
        measures::wasserstein(a, b) == measures::wasserstein(b, a),
        measures::wasserstein(a, a) == Double::zero(),
{
    lemma_distance_finite(a, b);
    laws::law_wasserstein_nonnegative(a, b);
    laws::law_wasserstein_symmetric(a, b);
    order::lemma_sign(measures::wasserstein(a, b));
    assert forall|i: int| 0 <= i < a.len() implies (#[trigger] measures::cdf(a, i)).is_finite() by {
        lemma_cdf(a, i);
    }
    laws::law_wasserstein_identical(a);
}

/// The triangle inequality for probability vectors over `n` states, up to `4 * n`
/// times the relative error of the sums. For up to a thousand states, that is at
/// most ten to the power -9.
pub proof fn law_wasserstein_triangle_of_distributions(
    a: Seq<Double>,
    b: Seq<Double>,
    c: Seq<Double>,
)
    requires
        accuracy::is_probability_vector(a),
        accuracy::is_probability_vector(b),
        accuracy::is_probability_vector(c),
        a.len() == b.len(),
        b.len() == c.len(),
        a.len() <= precision::LENGTH_LIMIT,
    ensures
        measures::wasserstein(a, b).is_finite(),
        measures::wasserstein(b, c).is_finite(),
        measures::wasserstein(a, c).is_finite(),
        precision::number(measures::wasserstein(a, c)) - precision::number(
            measures::wasserstein(a, b),
        ) - precision::number(measures::wasserstein(b, c)) <= 4 as real * (a.len() as real
            * precision::growth(a.len() + 2)),
        a.len() <= 1_000 ==> (precision::number(measures::wasserstein(a, c)) - precision::number(
            measures::wasserstein(a, b),
        ) - precision::number(measures::wasserstein(b, c))) * 1_000_000_000 as real <= 1 as real,
{
    let n = a.len();
    lemma_distance_finite(a, b);
    lemma_distance_finite(b, c);
    lemma_distance_finite(a, c);
    lemma_distance_error(a, b);
    lemma_distance_error(b, c);
    lemma_distance_error(a, c);
    lemma_exact_triangle(a, b, c, n);
    lemma_distance_share(n, exact_distance(a, b, n));
    lemma_distance_share(n, exact_distance(b, c, n));
    lemma_distance_share(n, exact_distance(a, c, n));
    lemma_thousand(n);
}

/// The error of a distance that is not much greater than the number of states.
pub(crate) proof fn lemma_distance_share(n: nat, x: real)
    requires
        0 as real <= x,
        x * 3 as real <= n as real * 4 as real,
    ensures
        (precision::growth(n + 2) * x) * 3 as real <= 4 as real * (n as real * precision::growth(
            n + 2,
        )),
{
    precision::lemma_growth(n + 2);
    let (g, l) = (precision::growth(n + 2), n as real);
    assert((g * x) * 3 as real <= 4 as real * (l * g)) by (nonlinear_arith)
        requires
            0 as real <= g,
            x * 3 as real <= l * 4 as real,
    ;
}

/// Up to a thousand states, the errors are small.
pub(crate) proof fn lemma_thousand(n: nat)
    ensures
        n <= 1_000 ==> (n as real * precision::growth(n + 2)) * 4_000_000_000 as real <= 1 as real,
        n <= 500 ==> (n as real * precision::growth(n + 2)) * 16_000_000_000 as real <= 1 as real,
        n as real * precision::growth(n + 2) >= 0 as real,
{
    precision::lemma_growth(n + 2);
    let (g, l) = (precision::growth(n + 2), n as real);
    assert(0 as real <= l * g) by (nonlinear_arith)
        requires
            0 as real <= l,
            0 as real <= g,
    ;
    if n <= 1_000 {
        assert(l * g <= 1_000 as real * g) by (nonlinear_arith)
            requires
                l <= 1_000 as real,
                0 as real <= g,
        ;
    }
    if n <= 500 {
        assert(l * g <= 500 as real * g) by (nonlinear_arith)
            requires
                l <= 500 as real,
                0 as real <= g,
        ;
    }
}

/// The visits, summed as reals.
proof fn lemma_visits_sum(trajectory: Seq<usize>, n: nat)
    ensures
        precision::sum_of(|i: int| measures::visits(trajectory, i) as real, n)
            == laws::visits_below(trajectory, n) as real,
    decreases n,
{
    if n > 0 {
        lemma_visits_sum(trajectory, (n - 1) as nat);
    }
}

/// An entry of an occupation measure, against the exact fraction.
pub(crate) proof fn lemma_occupation_error(trajectory: Seq<usize>, n: nat, i: int)
    requires
        0 < trajectory.len() <= measures::COUNT_LIMIT,
        0 <= i < n,
    ensures
        precision::size(
            precision::number(measures::occupation(trajectory, n)[i]) - measures::visits(
                trajectory,
                i,
            ) as real / trajectory.len() as real,
        ) <= precision::eps() * (measures::visits(trajectory, i) as real
            / trajectory.len() as real) + measures::visits(trajectory, i) as real
            * precision::tiny(),
        0 as real <= measures::visits(trajectory, i) as real / trajectory.len() as real,
        measures::occupation(trajectory, n)[i].is_finite(),
        measures::visits(trajectory, i) == 0 ==> measures::occupation(trajectory, n)[i].is_zero(),
{
    let (c, len) = (measures::visits(trajectory, i), trajectory.len());
    let (part, whole) = (Double::natural(c), Double::natural(len));
    let t = precision::tiny();
    laws::lemma_visits_bound(trajectory, i);
    laws::law_occupation_is_a_fraction(trajectory, n, i);
    accuracy::lemma_fractional(measures::occupation(trajectory, n)[i]);
    precision::lemma_number_natural(c);
    precision::lemma_number_natural(len);
    precision::lemma_tiny();
    accuracy::lemma_number_sign(part);
    accuracy::lemma_number_sign(whole);
    precision::lemma_over_error(part, whole);
    let (x, y) = (c as real, len as real);
    assert(0 as real <= x / y) by (nonlinear_arith)
        requires
            0 as real <= x,
            1 as real <= y,
    ;
    if c == 0 {
        assert(x / y == 0 as real) by (nonlinear_arith)
            requires
                x == 0 as real,
                1 as real <= y,
        ;
        assert(0 as real * t == 0 as real && precision::eps() * 0 as real == 0 as real)
            by (nonlinear_arith);
        lemma_zero_over(part, whole);
    } else {
        assert(t <= x * t) by (nonlinear_arith)
            requires
                1 as real <= x,
                t > 0 as real,
        ;
    }
}

/// Zero over a number above zero is zero.
proof fn lemma_zero_over(a: Double, b: Double)
    requires
        a.is_finite(),
        a.value() == 0,
        b.is_finite(),
        b.value() > 0,
    ensures
        a.over(b).is_zero(),
        precision::number(a.over(b)) == 0 as real,
{
    order::lemma_sign(a);
    order::lemma_sign(b);
    reveal(Double::over_spec);
    let y = binary64::scaled(b.magnitude());
    binary64::lemma_nearest_exact(0, y);
    assert(binary64::scaled(0) * y == 0) by (nonlinear_arith)
        requires
            binary64::scaled(0) == 0,
    ;
    assert(0 * binary64::one() == 0) by (nonlinear_arith);
    order::lemma_signed(a.is_negative() != b.is_negative(), 0);
    order::lemma_sign(a.over(b));
    accuracy::lemma_number_sign(a.over(b));
}

/// The occupation measure of a trajectory is a probability vector, for
/// trajectories that are not too long to be counted.
pub proof fn law_occupation_is_a_distribution(trajectory: Seq<usize>, n: nat)
    requires
        0 < trajectory.len() <= measures::COUNT_LIMIT,
        measures::stays_below(trajectory, n),
    ensures
        accuracy::is_probability_vector(measures::occupation(trajectory, n)),
{
    let mu = measures::occupation(trajectory, n);
    let (e, t) = (precision::eps(), precision::tiny());
    precision::lemma_eps();
    precision::lemma_tiny();
    let l = trajectory.len() as real;
    assert forall|i: int| 0 <= i < n implies Double::zero().at_most(#[trigger] mu[i])
        && mu[i].at_most(Double::one()) by {
        laws::law_occupation_is_a_fraction(trajectory, n, i);
    }
    let f = precision::numbers(mu);
    let counts = |i: int| measures::visits(trajectory, i) as real;
    let w = 1 as real / l;
    assert(w > 0 as real && w * l == 1 as real) by (nonlinear_arith)
        requires
            w == 1 as real / l,
            l >= 1 as real,
    ;
    let shares = |i: int| w * counts(i);
    let z = e * w + t;
    let errors = |i: int| z * counts(i);
    assert forall|i: int| 0 <= i < n implies precision::size(#[trigger] f(i) - shares(i))
        <= errors(i) by {
        lemma_occupation_error(trajectory, n, i);
        let c = counts(i);
        assert(c / l == w * c && e * (c / l) + c * t == z * c) by (nonlinear_arith)
            requires
                w == 1 as real / l,
                l >= 1 as real,
                z == e * w + t,
        ;
    }
    precision::lemma_sum_difference(f, shares, errors, n);
    precision::lemma_sum_scale(counts, w, shares, n);
    precision::lemma_sum_scale(counts, z, errors, n);
    lemma_visits_sum(trajectory, n);
    laws::law_visits_add_up(trajectory, n);
    assert(precision::sum_of(counts, n) == l);
    assert(z * l == e + t * l) by (nonlinear_arith)
        requires
            z == e * w + t,
            w * l == 1 as real,
    ;
    assert(t * l <= t * 9_007_199_254_740_992 as real) by (nonlinear_arith)
        requires
            l <= 9_007_199_254_740_992 as real,
            t > 0 as real,
    ;
}

/// The consumption drift of a trajectory over `n` states is a number not below zero
/// and at most `n - 1`, up to `n + 1` times what the mass of the probability vector
/// may be off by and three times the relative error of the sums. For up to 500
/// states, that is at most ten to the power -9.
pub proof fn law_drift_bound(trajectory: Seq<usize>, pi: Seq<Double>)
    requires
        0 < trajectory.len() <= measures::COUNT_LIMIT,
        pi.len() <= precision::LENGTH_LIMIT,
        measures::stays_below(trajectory, pi.len()),
        accuracy::is_probability_vector(pi),
    ensures
        measures::wasserstein(measures::occupation(trajectory, pi.len()), pi).is_finite(),
        Double::zero().at_most(
            measures::wasserstein(measures::occupation(trajectory, pi.len()), pi),
        ),
        (precision::number(
            measures::wasserstein(measures::occupation(trajectory, pi.len()), pi),
        ) - (pi.len() - 1) as real - 3 as real * ((pi.len() + 1) as real * precision::growth(
            pi.len() + 2,
        ))) * 1_000_000_000_000 as real <= (pi.len() + 1) as real,
        pi.len() <= 500 ==> (precision::number(
            measures::wasserstein(measures::occupation(trajectory, pi.len()), pi),
        ) - (pi.len() - 1) as real) * 1_000_000_000 as real <= 1 as real,
{
    let n = pi.len();
    let mu = measures::occupation(trajectory, n);
    assert(trajectory[0] < n);
    law_occupation_is_a_distribution(trajectory, n);
    lemma_distance_finite(mu, pi);
    law_wasserstein_of_distributions(mu, pi);
    lemma_distance_error(mu, pi);
    let l = n as real;
    let k = (n - 1) as nat;
    lemma_cdf_bound(mu, k as int);
    lemma_cdf_bound(pi, k as int);
    // What a distribution function is off by, at most.
    let g = precision::growth(n);
    precision::lemma_growth(n);
    precision::lemma_growth(n + 1);
    let t12 = 1 as real / 1_000_000_000_000 as real;
    assert(t12 * 1_000_000_000_000 as real == 1 as real) by (nonlinear_arith)
        requires
            t12 == 1 as real / 1_000_000_000_000 as real,
    ;
    let h = g + g * t12;
    assert((g * t12) * 1_000_000_000_000 as real == g) by (nonlinear_arith)
        requires
            t12 * 1_000_000_000_000 as real == 1 as real,
    ;
    let d = t12 + h;
    let gaps = |i: int|
        precision::size(
            precision::number(measures::cdf(mu, i)) - precision::number(measures::cdf(pi, i)),
        );
    let c = 1 as real + d;
    let bounds = |i: int| c;
    assert forall|i: int| 0 <= i < k implies #[trigger] gaps(i) <= bounds(i) by {
        lemma_cdf_bound(mu, i);
        lemma_cdf_bound(pi, i);
    }
    precision::lemma_sum_order(gaps, bounds, k);
    precision::lemma_sum_equal(bounds, c, k);
    assert(gaps(n - 1) <= 2 as real * d);
    let x = exact_distance(mu, pi, n);
    assert(x == precision::sum_of(gaps, k) + gaps(n - 1));
    let kr = k as real;
    assert(kr * c == kr + kr * d && kr * d + 2 as real * d == (l + 1 as real) * d)
        by (nonlinear_arith)
        requires
            c == 1 as real + d,
            kr == l - 1 as real,
    ;
    lemma_distance_share(n, x);
    let g2 = precision::growth(n + 2);
    let lg = (l + 1 as real) * g2;
    assert((l + 1 as real) * d == (l + 1 as real) * t12 + (l + 1 as real) * h) by (nonlinear_arith)
        requires
            d == t12 + h,
    ;
    assert(((l + 1 as real) * h) * 1_000 as real <= lg * 1_001 as real) by (nonlinear_arith)
        requires
            lg == (l + 1 as real) * g2,
            0 as real <= l,
            h * 1_000 as real <= g2 * 1_001 as real,
    ;
    assert(((l + 1 as real) * t12) * 1_000_000_000_000 as real == l + 1 as real)
        by (nonlinear_arith)
        requires
            t12 * 1_000_000_000_000 as real == 1 as real,
    ;
    assert(l * g2 + g2 == lg) by (nonlinear_arith)
        requires
            lg == (l + 1 as real) * g2,
    ;
    lemma_thousand(n);
}

/// The predicted consumption lies between the least and the greatest resource, for
/// a probability vector. With the farthest of them from zero as the scale, rounding
/// adds at most twice the relative error of the sum of the scale, and two units of
/// the format for each state; the mass of the vector may add a part in ten to the
/// power 12. For up to a million states, that is less than a part in ten to the
/// power 9 of the scale, and the units. The sum does not overflow as long as the
/// scale is at most ten to the power 28.
pub proof fn law_consumption_in_range(
    pi: Seq<Double>,
    resources: Seq<Double>,
    least: Double,
    greatest: Double,
    scale: real,
)
    requires
        accuracy::is_probability_vector(pi),
        pi.len() == resources.len(),
        pi.len() <= precision::LENGTH_LIMIT,
        least.is_finite(),
        greatest.is_finite(),
        forall|i: int|
            0 <= i < resources.len() ==> least.at_most(#[trigger] resources[i])
                && resources[i].at_most(greatest),
        precision::size(precision::number(least)) <= scale,
        precision::size(precision::number(greatest)) <= scale,
        vector::dot(pi, resources).is_finite() || scale
            <= 10_000_000_000_000_000_000_000_000_000 as real,
    ensures
        vector::dot(pi, resources).is_finite(),
        precision::number(least) - range_slack(pi.len(), scale) <= precision::number(
            vector::dot(pi, resources),
        ),
        precision::number(vector::dot(pi, resources)) <= precision::number(greatest)
            + range_slack(pi.len(), scale),
        pi.len() <= 1_000_000 ==> (range_slack(pi.len(), scale) - 2 as real * (pi.len() as real
            * precision::tiny())) * 1_000_000_000 as real <= scale,
{
    let n = pi.len();
    let f = precision::numbers(pi);
    let (lo, hi) = (precision::number(least), precision::number(greatest));
    let exact = |i: int| f(i) * precision::number(resources[i]);
    let lows = |i: int| lo * f(i);
    let highs = |i: int| hi * f(i);
    let weights = |i: int| f(i);
    assert forall|i: int| 0 <= i < n implies {
        &&& 0 as real <= #[trigger] weights(i)
        &&& lows(i) <= exact(i)
        &&& exact(i) <= highs(i)
        &&& precision::size(precision::number(resources[i])) <= scale
        &&& resources[i].is_finite()
        &&& pi[i].is_finite()
    } by {
        accuracy::lemma_fractional(pi[i]);
        let r = resources[i];
        assert(least.at_most(r));
        lemma_between(least, r, greatest);
        let (a, x) = (f(i), precision::number(r));
        assert(lo * a <= a * x && a * x <= hi * a) by (nonlinear_arith)
            requires
                0 as real <= a,
                lo <= x,
                x <= hi,
        ;
    }
    assert forall|i: int| 0 <= i < n implies #[trigger] lows(i) <= exact(i) by {
        assert(0 as real <= weights(i));
    }
    assert forall|i: int| 0 <= i < n implies #[trigger] exact(i) <= highs(i) by {
        assert(0 as real <= weights(i));
    }
    precision::lemma_sum_order(lows, exact, n);
    precision::lemma_sum_order(exact, highs, n);
    precision::lemma_sum_scale(f, lo, lows, n);
    precision::lemma_sum_scale(f, hi, highs, n);
    let counts = |i: int| 1 as real;
    precision::lemma_sum_equal(counts, 1 as real, n);
    assert(n as real * 1 as real == n as real) by (nonlinear_arith);
    assert forall|i: int| 0 <= i < n implies {
        &&& 0 as real <= #[trigger] f(i)
        &&& 0 as real <= counts(i)
        &&& counts(i) == 0 as real ==> pi[i].is_zero()
        &&& pi[i].is_finite()
        &&& resources[i].is_finite()
        &&& precision::size(precision::number(resources[i])) <= scale
        &&& pi[i].is_zero() || counts(i) >= 1 as real
    } by {
        assert(0 as real <= weights(i));
    }
    precision::lemma_nonzero(vector::products(pi, resources));
    if n > 0 {
        assert(0 as real <= weights(0));
    }
    if !vector::dot(pi, resources).is_finite() {
        lemma_dot_finite(pi, resources, scale, counts, n as real);
    }
    lemma_dot_error(pi, resources, scale, counts, n as real, n);
    let m = accuracy::mass(pi);
    lemma_mass_factor(lo, m, scale);
    lemma_mass_factor(hi, m, scale);
    precision::lemma_growth(n + 2);
    let (g, part) = (precision::growth(n + 2), scale / 1_000_000_000_000 as real);
    assert(part * 1_000_000_000_000 as real == scale) by (nonlinear_arith)
        requires
            part == scale / 1_000_000_000_000 as real,
    ;
    assert(g * (scale * m) <= 2 as real * (g * scale)) by (nonlinear_arith)
        requires
            0 as real <= g,
            0 as real <= scale,
            m <= 2 as real,
    {
        assert(scale * m <= 2 as real * scale);
    }
    if n <= 1_000_000 {
        assert((g * scale) * 4_000_000_000 as real <= scale) by (nonlinear_arith)
            requires
                g * 4_000_000_000 as real <= 1 as real,
                0 as real <= scale,
        ;
    }
}

/// What rounding and the mass of a probability vector over `n` states may add to a
/// mean of values up to `scale`.
pub open spec fn range_slack(n: nat, scale: real) -> real {
    scale / 1_000_000_000_000 as real + 2 as real * (precision::growth(n + 2) * scale) + 2 as real
        * (n as real * precision::tiny())
}

/// A number between two finite numbers.
proof fn lemma_between(least: Double, x: Double, greatest: Double)
    requires
        least.is_finite(),
        greatest.is_finite(),
        least.at_most(x),
        x.at_most(greatest),
    ensures
        x.is_finite(),
        precision::number(least) <= precision::number(x),
        precision::number(x) <= precision::number(greatest),
{
    precision::lemma_number_order(least, x);
    precision::lemma_number_order(x, greatest);
    order::lemma_sign(x);
    order::lemma_sign(least);
    order::lemma_sign(greatest);
    if x.is_negative() {
        binary64::lemma_scaled_order(x.magnitude(), least.magnitude());
    } else {
        binary64::lemma_scaled_order(x.magnitude(), greatest.magnitude());
    }
}

/// A number times a mass near one is near the number.
proof fn lemma_mass_factor(x: real, m: real, scale: real)
    requires
        precision::size(m - 1 as real) * 1_000_000_000_000 as real <= 1 as real,
        precision::size(x) <= scale,
    ensures
        precision::size(x * m - x) * 1_000_000_000_000 as real <= scale,
{
    let d = m - 1 as real;
    assert(x * m - x == x * d) by (nonlinear_arith)
        requires
            d == m - 1 as real,
    ;
    precision::lemma_product_size(x, d);
    let (a, b) = (precision::size(x), precision::size(d));
    assert((a * b) * 1_000_000_000_000 as real <= a) by (nonlinear_arith)
        requires
            0 as real <= a,
            b * 1_000_000_000_000 as real <= 1 as real,
    ;
}

/// The error of a weighted sum. Each weight that is not zero counts for one or
/// more.
proof fn lemma_dot_error(
    p: Seq<Double>,
    f: Seq<Double>,
    scale: real,
    counts: spec_fn(int) -> real,
    all: real,
    n_terms: nat,
)
    requires
        p.len() == f.len(),
        vector::dot(p, f).is_finite(),
        precision::nonzero(vector::products(p, f)) <= n_terms,
        n_terms <= precision::LENGTH_LIMIT,
        0 as real <= scale,
        forall|i: int|
            0 <= i < p.len() ==> {
                &&& 0 as real <= #[trigger] precision::numbers(p)(i)
                &&& 0 as real <= counts(i)
                &&& p[i].is_zero() || counts(i) >= 1 as real
                &&& p[i].is_finite()
                &&& f[i].is_finite()
                &&& precision::size(precision::number(f[i])) <= scale
            },
        precision::sum_of(counts, p.len()) == all,
    ensures
        precision::size(
            precision::number(vector::dot(p, f)) - precision::sum_of(
                |i: int| precision::numbers(p)(i) * precision::number(f[i]),
                p.len(),
            ),
        ) <= precision::growth(n_terms + 2) * (scale * accuracy::mass(p)) + 2 as real * (all
            * precision::tiny()),
{
    let n = p.len();
    let terms = vector::products(p, f);
    let w = precision::numbers(p);
    let (e, t) = (precision::eps(), precision::tiny());
    precision::lemma_eps();
    precision::lemma_tiny();
    order::lemma_sign(vector::nothing());
    precision::lemma_sum_error(vector::nothing(), terms);
    let exact = |i: int| w(i) * precision::number(f[i]);
    let heights = |i: int| scale * w(i);
    let parts = |i: int| e * heights(i);
    let units = |i: int| t * counts(i);
    let errors = |i: int| parts(i) + units(i);
    let g = precision::numbers(terms);
    let tops = |i: int| heights(i) + errors(i);
    assert forall|i: int| 0 <= i < n implies {
        &&& precision::size(#[trigger] g(i) - exact(i)) <= errors(i)
        &&& precision::size(g(i)) <= tops(i)
    } by {
        assert(0 as real <= w(i));
        assert(terms[i].is_finite());
        let (a, b, c) = (w(i), precision::number(f[i]), counts(i));
        precision::lemma_product_size(a, b);
        let z = precision::size(b);
        assert(a * z <= scale * a && 0 as real <= a * z) by (nonlinear_arith)
            requires
                0 as real <= a,
                0 as real <= z,
                z <= scale,
        ;
        assert(e * (a * z) <= e * (scale * a)) by (nonlinear_arith)
            requires
                a * z <= scale * a,
                e > 0 as real,
        ;
        assert(0 as real <= t * c) by (nonlinear_arith)
            requires
                0 as real <= c,
                t > 0 as real,
        ;
        if p[i].is_zero() {
            order::lemma_times_sign(p[i], f[i]);
            order::lemma_sign(p[i]);
            order::lemma_sign(terms[i]);
            accuracy::lemma_number_sign(p[i]);
            accuracy::lemma_number_sign(terms[i]);
            assert(a * b == 0 as real) by (nonlinear_arith)
                requires
                    a == 0 as real,
            ;
            assert(0 as real <= e * (scale * a)) by (nonlinear_arith)
                requires
                    0 as real <= a * z,
                    a * z <= scale * a,
                    e > 0 as real,
            ;
        } else {
            precision::lemma_times_error(p[i], f[i]);
            assert(t <= t * c) by (nonlinear_arith)
                requires
                    1 as real <= c,
                    t > 0 as real,
            ;
        }
    }
    assert forall|i: int| 0 <= i < n implies #[trigger] precision::sizes(terms)(i) <= tops(i) by {
        assert(precision::size(g(i) - exact(i)) <= errors(i));
    }
    precision::lemma_sum_difference(g, exact, errors, n);
    precision::lemma_sum_order(precision::sizes(terms), tops, n);
    precision::lemma_sum_scale(w, scale, heights, n);
    precision::lemma_sum_scale(heights, e, parts, n);
    precision::lemma_sum_scale(counts, t, units, n);
    precision::lemma_sum_plus(parts, units, errors, n);
    precision::lemma_sum_plus(heights, errors, tops, n);
    let m = accuracy::mass(p);
    assert(forall|i: int| 0 <= i < n ==> #[trigger] w(i) >= 0 as real);
    precision::lemma_sum_bounds(w, n, 0);
    assert forall|i: int| 0 <= i < n implies #[trigger] counts(i) >= 0 as real by {
        assert(0 as real <= w(i));
    }
    precision::lemma_sum_bounds(counts, n, 0);
    let x = scale * m;
    assert(0 as real <= x) by (nonlinear_arith)
        requires
            x == scale * m,
            0 as real <= scale,
            0 as real <= m,
    ;
    let a = precision::sum_of(precision::sizes(terms), n);
    precision::lemma_growth(n_terms);
    precision::lemma_growth(n_terms + 1);
    precision::lemma_growth(precision::nonzero(terms));
    precision::lemma_growth_order(precision::nonzero(terms), n_terms);
    lemma_dot_total(
        x,
        all,
        precision::growth(precision::nonzero(terms)),
        precision::growth(n_terms),
        a,
    );
}

/// A weighted sum of values that are not great is finite.
proof fn lemma_dot_finite(
    p: Seq<Double>,
    f: Seq<Double>,
    scale: real,
    counts: spec_fn(int) -> real,
    all: real,
)
    requires
        p.len() == f.len(),
        precision::nonzero(vector::products(p, f)) <= precision::LENGTH_LIMIT,
        0 as real <= scale,
        scale <= 10_000_000_000_000_000_000_000_000_000 as real,
        forall|i: int|
            0 <= i < p.len() ==> {
                &&& 0 as real <= #[trigger] precision::numbers(p)(i)
                &&& 0 as real <= counts(i)
                &&& p[i].is_zero() || counts(i) >= 1 as real
                &&& p[i].is_finite()
                &&& f[i].is_finite()
                &&& precision::size(precision::number(f[i])) <= scale
            },
        precision::sum_of(counts, p.len()) == all,
        all <= precision::LENGTH_LIMIT as real,
        accuracy::mass(p) <= 2 as real,
    ensures
        vector::dot(p, f).is_finite(),
{
    let n = p.len();
    let terms = vector::products(p, f);
    let w = precision::numbers(p);
    let (e, t) = (precision::eps(), precision::tiny());
    let twice = 2 as real * scale;
    let heights = |i: int| twice * w(i);
    let units = |i: int| t * counts(i);
    let tops = |i: int| heights(i) + units(i);
    precision::lemma_eps();
    precision::lemma_tiny();
    assert(forall|i: int| 0 <= i < n ==> #[trigger] w(i) >= 0 as real);
    assert forall|i: int| 0 <= i < n implies (#[trigger] terms[i]).is_finite() && precision::size(
        precision::number(terms[i]),
    ) <= tops(i) by {
        assert(0 as real <= w(i));
        precision::lemma_sum_bounds(w, n, i);
        let (a, b, c) = (w(i), precision::number(f[i]), counts(i));
        precision::lemma_product_size(a, b);
        let z = precision::size(b);
        assert(a * z <= scale * a && 0 as real <= a * z && scale * a <= twice && twice * a
            == 2 as real * (scale * a)) by (nonlinear_arith)
            requires
                0 as real <= a,
                a <= 2 as real,
                0 as real <= z,
                z <= scale,
                twice == 2 as real * scale,
        ;
        assert(0 as real <= t * c) by (nonlinear_arith)
            requires
                0 as real <= c,
                t > 0 as real,
        ;
        precision::lemma_times_finite(p[i], f[i]);
        if p[i].is_zero() {
            order::lemma_times_sign(p[i], f[i]);
            order::lemma_sign(terms[i]);
            accuracy::lemma_number_sign(terms[i]);
        } else {
            precision::lemma_times_error(p[i], f[i]);
            let x = a * z;
            assert(e * x <= x) by (nonlinear_arith)
                requires
                    0 as real <= x,
                    e > 0 as real,
                    e * 4_503_599_627_370_496 as real == 1 as real,
            ;
            assert(t <= t * c) by (nonlinear_arith)
                requires
                    1 as real <= c,
                    t > 0 as real,
            ;
        }
    }
    assert forall|i: int| 0 <= i < n implies #[trigger] precision::sizes(terms)(i) <= tops(i) by {
        assert(terms[i].is_finite());
    }
    precision::lemma_sum_order(precision::sizes(terms), tops, n);
    precision::lemma_sum_scale(w, twice, heights, n);
    precision::lemma_sum_scale(counts, t, units, n);
    precision::lemma_sum_plus(heights, units, tops, n);
    let m = accuracy::mass(p);
    assert(twice * m <= 2 as real * twice) by (nonlinear_arith)
        requires
            m <= 2 as real,
            0 as real <= twice,
    ;
    assert(t * all <= 1_125_899_906_842_624 as real * t) by (nonlinear_arith)
        requires
            all <= 1_125_899_906_842_624 as real,
            t > 0 as real,
    ;
    order::lemma_sign(vector::nothing());
    precision::lemma_sum_finite(vector::nothing(), terms);
}

/// What the errors of a weighted sum come to.
pub(crate) proof fn lemma_dot_total(x: real, all: real, c: real, g: real, a: real)
    requires
        0 as real <= x,
        0 as real <= all,
        0 as real <= c,
        c <= g,
        g * 4 as real <= 1 as real,
        0 as real <= a,
        a <= x + precision::eps() * x + precision::tiny() * all,
    ensures
        precision::eps() * x + precision::tiny() * all + c * a <= (g + precision::eps()
            + precision::eps()) * x + 2 as real * (all * precision::tiny()),
{
    let (e, t) = (precision::eps(), precision::tiny());
    precision::lemma_eps();
    precision::lemma_tiny();
    let (ex, ta, gx) = (e * x, t * all, g * x);
    assert(0 as real <= ex && 0 as real <= ta && all * t == ta) by (nonlinear_arith)
        requires
            ex == e * x,
            ta == t * all,
            0 as real <= x,
            0 as real <= all,
            e > 0 as real,
            t > 0 as real,
    ;
    assert(c * a <= gx + ex + ta) by (nonlinear_arith)
        requires
            c <= g,
            g * 4 as real <= 1 as real,
            0 as real <= c,
            0 as real <= a,
            a <= x + ex + ta,
            gx == g * x,
            0 as real <= ex,
            0 as real <= ta,
    {
        assert(c * a <= g * a);
        assert(g * a <= g * (x + ex + ta));
        assert(g * (ex + ta) <= ex + ta);
    }
    assert((g + e + e) * x == gx + ex + ex) by (nonlinear_arith)
        requires
            gx == g * x,
            ex == e * x,
    ;
}

/// Only one term of the sum is picked.
proof fn lemma_pick(g: spec_fn(int) -> real, s: int, n: nat)
    requires
        0 <= s,
    ensures
        precision::sum_of(
            |i: int|
                if i == s {
                    g(i)
                } else {
                    0 as real
                },
            n,
        ) == if s < n {
            g(s)
        } else {
            0 as real
        },
    decreases n,
{
    if n > 0 {
        lemma_pick(g, s, (n - 1) as nat);
    }
}

/// What is observed along a trajectory adds up to the visits times the values.
proof fn lemma_observed_sum(trajectory: Seq<usize>, g: spec_fn(int) -> real, n: nat)
    requires
        measures::stays_below(trajectory, n),
    ensures
        precision::sum_of(|t: int| g(trajectory[t] as int), trajectory.len()) == precision::sum_of(
            |i: int| measures::visits(trajectory, i) as real * g(i),
            n,
        ),
    decreases trajectory.len(),
{
    let along = |t: int| g(trajectory[t] as int);
    let weighted = |i: int| measures::visits(trajectory, i) as real * g(i);
    if trajectory.len() == 0 {
        assert forall|i: int| 0 <= i < n implies #[trigger] weighted(i) == 0 as real by {
            assert(0 as real * g(i) == 0 as real) by (nonlinear_arith);
        }
        precision::lemma_sum_equal(weighted, 0 as real, n);
        assert(n as real * 0 as real == 0 as real) by (nonlinear_arith);
    } else {
        let k = (trajectory.len() - 1) as nat;
        let shorter = trajectory.drop_last();
        assert forall|t: int| 0 <= t < k implies #[trigger] shorter[t] < n by {
            assert(trajectory[t] < n);
        }
        lemma_observed_sum(shorter, g, n);
        let before = |t: int| g(shorter[t] as int);
        precision::lemma_sum_same(along, before, k);
        let s = trajectory.last() as int;
        assert(trajectory[k as int] < n);
        let fewer = |i: int| measures::visits(shorter, i) as real * g(i);
        let picked = |i: int|
            if i == s {
                g(i)
            } else {
                0 as real
            };
        assert forall|i: int| 0 <= i < n implies #[trigger] weighted(i) == fewer(i) + picked(
            i,
        ) by {
            let (c, x) = (measures::visits(shorter, i) as real, g(i));
            assert((c + 1 as real) * x == c * x + x) by (nonlinear_arith);
        }
        precision::lemma_sum_plus(fewer, picked, weighted, n);
        lemma_pick(g, s, n);
    }
}

/// A weight that is not zero belongs to a state that was visited.
proof fn lemma_visited(trajectory: Seq<usize>, f: Seq<Double>, k: nat)
    requires
        0 < trajectory.len() <= measures::COUNT_LIMIT,
        k <= f.len(),
        forall|i: int| 0 <= i < f.len() ==> (#[trigger] f[i]).is_finite(),
    ensures
        precision::nonzero(
            vector::products(measures::occupation(trajectory, f.len()), f).take(k as int),
        ) <= laws::visits_below(trajectory, k),
    decreases k,
{
    let n = f.len();
    let mu = measures::occupation(trajectory, n);
    let terms = vector::products(mu, f);
    if k > 0 {
        let j = k - 1;
        lemma_visited(trajectory, f, j as nat);
        assert(terms.take(k as int).drop_last() == terms.take(j));
        assert(terms.take(k as int).last() == terms[j]);
        if measures::visits(trajectory, j) == 0 {
            lemma_occupation_error(trajectory, n, j);
            assert(f[j].is_finite());
            order::lemma_times_sign(mu[j], f[j]);
        }
    }
}

/// A time average of values that are not great together is finite.
proof fn lemma_time_average_finite(trajectory: Seq<usize>, f: Seq<Double>, scale: real)
    requires
        0 < trajectory.len() <= precision::LENGTH_LIMIT,
        measures::stays_below(trajectory, f.len()),
        forall|i: int|
            0 <= i < f.len() ==> (#[trigger] f[i]).is_finite() && precision::size(
                precision::number(f[i]),
            ) <= scale,
        trajectory.len() as real * scale <= 10_000_000_000_000_000_000_000_000_000 as real,
    ensures
        measures::time_average(trajectory, f).is_finite(),
{
    let n = trajectory.len();
    let terms = measures::observed(trajectory, f);
    let bounds = |i: int| scale;
    assert forall|i: int| 0 <= i < n implies (#[trigger] terms[i]).is_finite() && precision::size(
        precision::number(terms[i]),
    ) <= scale by {
        assert(trajectory[i] < f.len());
        assert(f[trajectory[i] as int].is_finite());
    }
    assert forall|i: int| 0 <= i < n implies #[trigger] precision::sizes(terms)(i) <= bounds(
        i,
    ) by {
        assert(terms[i].is_finite());
    }
    precision::lemma_sum_order(precision::sizes(terms), bounds, n);
    precision::lemma_sum_equal(bounds, scale, n);
    precision::lemma_nonzero(terms);
    order::lemma_sign(vector::nothing());
    precision::lemma_sum_finite(vector::nothing(), terms);
    precision::lemma_number_natural(n);
    precision::lemma_over_finite(vector::total(terms), Double::natural(n));
}

/// The computed time average, against the exact one.
proof fn lemma_time_average_error(trajectory: Seq<usize>, f: Seq<Double>, scale: real)
    requires
        0 < trajectory.len() <= precision::LENGTH_LIMIT,
        measures::stays_below(trajectory, f.len()),
        forall|i: int|
            0 <= i < f.len() ==> (#[trigger] f[i]).is_finite() && precision::size(
                precision::number(f[i]),
            ) <= scale,
        measures::time_average(trajectory, f).is_finite(),
    ensures
        precision::size(
            precision::number(measures::time_average(trajectory, f)) - precision::sum_of(
                |t: int| precision::number(f[trajectory[t] as int]),
                trajectory.len(),
            ) / trajectory.len() as real,
        ) <= precision::growth(trajectory.len() + 2) * scale + precision::tiny(),
        0 as real <= scale,
{
    let n = trajectory.len();
    let terms = measures::observed(trajectory, f);
    let along = |t: int| precision::number(f[trajectory[t] as int]);
    let (sum, whole) = (vector::total(terms), Double::natural(n));
    let (e, t) = (precision::eps(), precision::tiny());
    precision::lemma_eps();
    precision::lemma_tiny();
    precision::lemma_number_natural(n);
    accuracy::lemma_number_sign(whole);
    order::lemma_sign(whole);
    order::lemma_sign(vector::nothing());
    assert(sum.is_finite()) by {
        reveal(Double::over_spec);
        order::lemma_signed(sum.is_negative() != whole.is_negative(), binary64::INFINITE as nat);
    }
    precision::lemma_nonzero(terms);
    precision::lemma_sum_error(vector::nothing(), terms);
    precision::lemma_sum_same(precision::numbers(terms), along, n);
    let bounds = |i: int| scale;
    assert forall|i: int| 0 <= i < n implies #[trigger] precision::sizes(terms)(i) <= bounds(
        i,
    ) by {
        assert(trajectory[i] < f.len());
        assert(f[trajectory[i] as int].is_finite());
    }
    precision::lemma_sum_order(precision::sizes(terms), bounds, n);
    precision::lemma_sum_equal(bounds, scale, n);
    assert(trajectory[0] < f.len());
    assert(f[trajectory[0] as int].is_finite());
    precision::lemma_sum_size(precision::numbers(terms), precision::sizes(terms), n);
    precision::lemma_over_error(sum, whole);
    let (l, a) = (n as real, precision::sum_of(precision::sizes(terms), n));
    precision::lemma_growth(n);
    precision::lemma_growth(n + 1);
    precision::lemma_growth(precision::nonzero(terms));
    precision::lemma_growth_order(precision::nonzero(terms), n);
    let (x, y) = (precision::number(sum), precision::sum_of(along, n));
    lemma_average_total(
        x,
        y,
        a,
        precision::growth(precision::nonzero(terms)),
        precision::growth(n),
        l,
        scale,
    );
    let (p, q) = (x / l, y / l);
    assert(precision::size(precision::number(measures::time_average(trajectory, f)) - p) <= e
        * precision::size(p) + t);
}

/// What the errors of an average come to.
pub(crate) proof fn lemma_average_total(x: real, y: real, a: real, c: real, g: real, l: real, scale: real)
    requires
        1 as real <= l,
        0 as real <= c,
        c <= g,
        g * 4 as real <= 1 as real,
        0 as real <= scale,
        0 as real <= a,
        a <= l * scale,
        precision::size(y) <= a,
        precision::size(x - y) <= c * a,
    ensures
        precision::size(x / l - y / l) + precision::eps() * precision::size(x / l) <= (g
            + precision::eps() + precision::eps()) * scale,
{
    let e = precision::eps();
    precision::lemma_eps();
    let w = 1 as real / l;
    assert(w > 0 as real && w * l == 1 as real) by (nonlinear_arith)
        requires
            w == 1 as real / l,
            l >= 1 as real,
    ;
    assert(x / l == x * w && y / l == y * w && x / l - y / l == (x - y) * w) by (nonlinear_arith)
        requires
            w == 1 as real / l,
            l >= 1 as real,
    ;
    precision::lemma_product_size(x - y, w);
    precision::lemma_product_size(y, w);
    let (sy, sd) = (precision::size(y), precision::size(x - y));
    let gs = g * scale;
    assert(a * w <= scale && 0 as real <= a * w) by (nonlinear_arith)
        requires
            0 as real <= a,
            a <= l * scale,
            w * l == 1 as real,
            w > 0 as real,
    ;
    assert(sy * w <= a * w) by (nonlinear_arith)
        requires
            sy <= a,
            w > 0 as real,
    ;
    let aw = a * w;
    assert(sd * w <= gs) by (nonlinear_arith)
        requires
            sd <= c * a,
            aw == a * w,
            gs == g * scale,
            0 as real <= c,
            c <= g,
            0 as real <= aw,
            aw <= scale,
            w > 0 as real,
    {
        assert(sd * w <= c * aw);
        assert(c * aw <= g * aw);
        assert(g * aw <= g * scale);
    }
    assert(gs <= scale) by (nonlinear_arith)
        requires
            gs == g * scale,
            g * 4 as real <= 1 as real,
            0 as real <= scale,
    ;
    let sp = precision::size(x * w);
    assert(sp <= 2 as real * scale);
    assert(e * sp <= 2 as real * (e * scale)) by (nonlinear_arith)
        requires
            sp <= 2 as real * scale,
            e > 0 as real,
    ;
    assert((g + e + e) * scale == gs + 2 as real * (e * scale)) by (nonlinear_arith)
        requires
            gs == g * scale,
    ;
}

/// The time average of `f` along a trajectory is the mean of `f` under the
/// occupation measure. With the value that is farthest from zero as the scale,
/// rounding adds at most four times the relative error of the sum of the scale, and
/// two units of the format for each step and one more. Along up to a million states,
/// that is at most a part in ten to the power 9 of the scale, and the units. No sum
/// overflows as long as all steps together are worth at most ten to the power 28.
pub proof fn law_time_average_is_the_mean(trajectory: Seq<usize>, f: Seq<Double>, scale: real)
    requires
        0 < trajectory.len() <= precision::LENGTH_LIMIT,
        measures::stays_below(trajectory, f.len()),
        forall|i: int|
            0 <= i < f.len() ==> (#[trigger] f[i]).is_finite() && precision::size(
                precision::number(f[i]),
            ) <= scale,
        measures::time_average(trajectory, f).is_finite() && vector::dot(
            measures::occupation(trajectory, f.len()),
            f,
        ).is_finite() || trajectory.len() as real * scale
            <= 10_000_000_000_000_000_000_000_000_000 as real,
    ensures
        measures::time_average(trajectory, f).is_finite(),
        vector::dot(measures::occupation(trajectory, f.len()), f).is_finite(),
        precision::size(
            precision::number(measures::time_average(trajectory, f)) - precision::number(
                vector::dot(measures::occupation(trajectory, f.len()), f),
            ),
        ) <= 4 as real * (precision::growth(trajectory.len() + 2) * scale) + (2 * trajectory.len()
            + 1) as real * precision::tiny(),
        trajectory.len() <= 1_000_000 ==> (4 as real * (precision::growth(trajectory.len() + 2)
            * scale)) * 1_000_000_000 as real <= scale,
{
    let n = f.len();
    let mu = measures::occupation(trajectory, n);
    let l = trajectory.len() as real;
    let (e, t) = (precision::eps(), precision::tiny());
    precision::lemma_eps();
    precision::lemma_tiny();
    assert(trajectory[0] < f.len());
    assert(f[trajectory[0] as int].is_finite());
    if !measures::time_average(trajectory, f).is_finite() {
        lemma_time_average_finite(trajectory, f, scale);
    }
    lemma_time_average_error(trajectory, f, scale);
    law_occupation_is_a_distribution(trajectory, n);
    let g = precision::numbers(f);
    let along = |t: int| precision::number(f[trajectory[t] as int]);
    lemma_observed_sum(trajectory, g, n);
    precision::lemma_sum_same(along, |t: int| g(trajectory[t] as int), trajectory.len());
    // The computed mean.
    let counts = |i: int| measures::visits(trajectory, i) as real;
    lemma_visits_sum(trajectory, n);
    laws::law_visits_add_up(trajectory, n);
    lemma_visited(trajectory, f, n);
    assert(vector::products(mu, f).take(n as int) == vector::products(mu, f));
    assert forall|i: int| 0 <= i < n implies {
        &&& 0 as real <= #[trigger] precision::numbers(mu)(i)
        &&& 0 as real <= counts(i)
        &&& mu[i].is_zero() || counts(i) >= 1 as real
        &&& mu[i].is_finite()
        &&& f[i].is_finite()
        &&& precision::size(precision::number(f[i])) <= scale
    } by {
        accuracy::lemma_fractional(mu[i]);
        lemma_occupation_error(trajectory, n, i);
        assert(f[i].is_finite());
    }
    if !vector::dot(mu, f).is_finite() {
        assert(scale <= l * scale) by (nonlinear_arith)
            requires
                1 as real <= l,
                0 as real <= scale,
        ;
        lemma_dot_finite(mu, f, scale, counts, l);
    }
    lemma_dot_error(mu, f, scale, counts, l, trajectory.len());
    // The exact means.
    let w = 1 as real / l;
    assert(w > 0 as real && w * l == 1 as real) by (nonlinear_arith)
        requires
            w == 1 as real / l,
            l >= 1 as real,
    ;
    let weighted = |i: int| counts(i) * g(i);
    let shares = |i: int| w * weighted(i);
    let exact = |i: int| precision::numbers(mu)(i) * precision::number(f[i]);
    let z = scale * (e * w + t);
    let errors = |i: int| z * counts(i);
    assert forall|i: int| 0 <= i < n implies precision::size(#[trigger] exact(i) - shares(i))
        <= errors(i) by {
        lemma_occupation_error(trajectory, n, i);
        assert(f[i].is_finite());
        let (c, x, m) = (counts(i), g(i), precision::numbers(mu)(i));
        let d = m - c / l;
        assert(c / l == w * c && m * x - w * (c * x) == d * x && e * (c / l) + c * t == (e * w + t)
            * c) by (nonlinear_arith)
            requires
                w == 1 as real / l,
                l >= 1 as real,
                d == m - c / l,
        ;
        precision::lemma_product_size(d, x);
        let (a, b, h) = (precision::size(d), precision::size(x), (e * w + t) * c);
        assert(a * b <= scale * h) by (nonlinear_arith)
            requires
                0 as real <= a,
                a <= h,
                0 as real <= b,
                b <= scale,
        ;
        assert(scale * h == z * c) by (nonlinear_arith)
            requires
                h == (e * w + t) * c,
                z == scale * (e * w + t),
        ;
    }
    precision::lemma_sum_difference(exact, shares, errors, n);
    precision::lemma_sum_scale(weighted, w, shares, n);
    precision::lemma_sum_scale(counts, z, errors, n);
    precision::lemma_sum_same(weighted, |i: int| measures::visits(trajectory, i) as real * g(i), n);
    let y = precision::sum_of(along, trajectory.len());
    assert(y / l == w * y) by (nonlinear_arith)
        requires
            w == 1 as real / l,
            l >= 1 as real,
    ;
    let es = e * scale;
    assert(z * l <= 2 as real * es) by (nonlinear_arith)
        requires
            z == scale * (e * w + t),
            w * l == 1 as real,
            es == e * scale,
            0 as real <= scale,
            0 as real <= l,
            l <= 1_125_899_906_842_624 as real,
            t > 0 as real,
            t * 100_000_000_000_000_000_000_000_000_000_000_000_000 as real <= 1 as real,
            e * 4_503_599_627_370_496 as real == 1 as real,
    {
        assert(z * l == scale * (e + t * l));
        assert(t * l <= 1_125_899_906_842_624 as real * t);
        assert(t * l <= e);
        assert(scale * (e + t * l) <= scale * (2 as real * e));
    }
    precision::lemma_growth(trajectory.len());
    precision::lemma_growth(trajectory.len() + 1);
    let (k, m) = (precision::growth(trajectory.len() + 2), accuracy::mass(mu));
    let ks = k * scale;
    assert(k * (scale * m) * 1_000 as real <= ks * 1_001 as real && 2 as real * es <= ks * 2 as real
        / 3 as real) by (nonlinear_arith)
        requires
            ks == k * scale,
            es == e * scale,
            k >= 3 as real * e,
            e > 0 as real,
            0 as real <= scale,
            m * 1_000 as real <= 1_001 as real,
    {
        assert((scale * m) * 1_000 as real <= scale * 1_001 as real);
        assert(k * ((scale * m) * 1_000 as real) <= k * (scale * 1_001 as real));
        assert(3 as real * es <= ks);
    }
    assert((2 * trajectory.len() + 1) as real * t == 2 as real * (l * t) + t) by (nonlinear_arith)
        requires
            l == trajectory.len() as real,
    ;
    if trajectory.len() <= 1_000_000 {
        assert(ks * 4_000_000_000 as real <= scale) by (nonlinear_arith)
            requires
                ks == k * scale,
                k * 4_000_000_000 as real <= 1 as real,
                0 as real <= scale,
        ;
    }
}

/// The time average of `f` lies between the least and the greatest value of `f`.
/// With the farthest of them from zero as the scale, rounding adds at most the
/// relative error of the sum of the scale, and a unit of the format. Along up to a
/// million states, that is at most a part in ten to the power 9 of the scale, and
/// the unit. The sum does not overflow as long as all steps together are worth at
/// most ten to the power 28.
pub proof fn law_time_average_in_range(
    trajectory: Seq<usize>,
    f: Seq<Double>,
    least: Double,
    greatest: Double,
    scale: real,
)
    requires
        0 < trajectory.len() <= precision::LENGTH_LIMIT,
        measures::stays_below(trajectory, f.len()),
        least.is_finite(),
        greatest.is_finite(),
        forall|i: int|
            0 <= i < f.len() ==> least.at_most(#[trigger] f[i]) && f[i].at_most(greatest),
        precision::size(precision::number(least)) <= scale,
        precision::size(precision::number(greatest)) <= scale,
        measures::time_average(trajectory, f).is_finite() || trajectory.len() as real * scale
            <= 10_000_000_000_000_000_000_000_000_000 as real,
    ensures
        measures::time_average(trajectory, f).is_finite(),
        precision::number(least) - precision::growth(trajectory.len() + 2) * scale
            - precision::tiny() <= precision::number(measures::time_average(trajectory, f)),
        precision::number(measures::time_average(trajectory, f)) <= precision::number(greatest)
            + precision::growth(trajectory.len() + 2) * scale + precision::tiny(),
        trajectory.len() <= 1_000_000 ==> (precision::growth(trajectory.len() + 2) * scale)
            * 1_000_000_000 as real <= scale,
{
    let n = trajectory.len();
    let (lo, hi) = (precision::number(least), precision::number(greatest));
    assert forall|i: int| 0 <= i < f.len() implies {
        &&& (#[trigger] f[i]).is_finite()
        &&& precision::size(precision::number(f[i])) <= scale
        &&& lo <= precision::number(f[i])
        &&& precision::number(f[i]) <= hi
    } by {
        lemma_between(least, f[i], greatest);
    }
    if !measures::time_average(trajectory, f).is_finite() {
        lemma_time_average_finite(trajectory, f, scale);
    }
    lemma_time_average_error(trajectory, f, scale);
    let along = |t: int| precision::number(f[trajectory[t] as int]);
    let (lows, highs) = (|t: int| lo, |t: int| hi);
    assert forall|t: int| 0 <= t < n implies #[trigger] along(t) >= lo && along(t) <= hi by {
        assert(trajectory[t] < f.len());
        assert(f[trajectory[t] as int].is_finite());
    }
    assert forall|t: int| 0 <= t < n implies #[trigger] lows(t) <= along(t) by {
        assert(along(t) >= lo);
    }
    precision::lemma_sum_order(lows, along, n);
    precision::lemma_sum_order(along, highs, n);
    precision::lemma_sum_equal(lows, lo, n);
    precision::lemma_sum_equal(highs, hi, n);
    let (y, l) = (precision::sum_of(along, n), n as real);
    assert(lo <= y / l && y / l <= hi) by (nonlinear_arith)
        requires
            l * lo <= y,
            y <= l * hi,
            l >= 1 as real,
    ;
    precision::lemma_growth(n + 2);
    let k = precision::growth(n + 2);
    if n <= 1_000_000 {
        assert((k * scale) * 1_000_000_000 as real <= scale) by (nonlinear_arith)
            requires
                k * 1_000_000_000 as real <= 1 as real,
                0 as real <= scale,
        ;
    }
}

/// The total variation distance of two probability vectors lies between zero and
/// one, up to two parts in ten to the power 12 and the relative error of the sums.
/// For up to a million states, that is at most ten to the power -9.
pub proof fn law_total_variation_bound(a: Seq<Double>, b: Seq<Double>)
    requires
        accuracy::is_probability_vector(a),
        accuracy::is_probability_vector(b),
        a.len() == b.len(),
        a.len() <= precision::LENGTH_LIMIT,
    ensures
        Double::zero().at_most(evolution::total_variation(a, b)),
        evolution::total_variation(a, b).is_finite(),
        (precision::number(evolution::total_variation(a, b)) - 1 as real - precision::growth(
            a.len() + 4,
        )) * 1_000_000_000_000 as real <= 2 as real,
        a.len() <= 1_000_000 ==> (precision::number(evolution::total_variation(a, b)) - 1 as real)
            * 1_000_000_000 as real <= 1 as real,
{
    let n = a.len();
    let d = vector::distances(a, b);
    let e = precision::eps();
    precision::lemma_eps();
    precision::lemma_tiny();
    order::lemma_sign(vector::nothing());
    let (f, g) = (precision::numbers(a), precision::numbers(b));
    let both = |i: int| f(i) + g(i);
    let parts = |i: int| e * both(i);
    let tops = |i: int| both(i) + parts(i);
    assert forall|i: int| 0 <= i < n implies {
        &&& (#[trigger] d[i]).is_finite()
        &&& precision::number(d[i]) >= 0 as real
        &&& precision::number(d[i]) <= tops(i)
        &&& order::not_below_zero(d[i])
    } by {
        accuracy::lemma_fractional(a[i]);
        accuracy::lemma_fractional(b[i]);
        precision::lemma_minus_bound(a[i], b[i], 1 as real, 1 as real);
        precision::lemma_minus_error(a[i], b[i]);
        precision::lemma_number_abs(a[i].minus(b[i]));
        order::lemma_abs_sign(a[i].minus(b[i]));
        let (z, s) = (precision::size(f(i) - g(i)), both(i));
        assert(e * z <= e * s) by (nonlinear_arith)
            requires
                z <= s,
                e > 0 as real,
        ;
    }
    let h = precision::sizes(d);
    assert forall|i: int| 0 <= i < n implies #[trigger] h(i) <= tops(i) by {
        assert(d[i].is_finite());
    }
    precision::lemma_sum_order(h, tops, n);
    precision::lemma_sum_plus(f, g, both, n);
    precision::lemma_sum_scale(both, e, parts, n);
    precision::lemma_sum_plus(both, parts, tops, n);
    let (s, x) = (precision::sum_of(both, n), precision::sum_of(h, n));
    assert(e * s <= 3 as real * e) by (nonlinear_arith)
        requires
            s <= 3 as real,
            e > 0 as real,
    ;
    precision::lemma_nonzero(d);
    precision::lemma_sum_finite(vector::nothing(), d);
    precision::lemma_sum_error(vector::nothing(), d);
    precision::lemma_sum_size(precision::numbers(d), h, n);
    precision::lemma_growth(n);
    precision::lemma_growth(n + 1);
    precision::lemma_growth(n + 2);
    precision::lemma_growth(n + 3);
    precision::lemma_growth(precision::nonzero(d));
    precision::lemma_growth_order(precision::nonzero(d), n);
    let (c, l) = (precision::growth(precision::nonzero(d)), precision::growth(n));
    assert(c * x <= 2 as real * l + l * (x - 2 as real)) by (nonlinear_arith)
        requires
            c <= l,
            0 as real <= x,
    ;
    assert((l * (x - 2 as real)) * 1_960_000_000_000 as real <= 1 as real) by (nonlinear_arith)
        requires
            0 as real <= l,
            l * 4 as real <= 1 as real,
            (x - 2 as real) * 490_000_000_000 as real <= 1 as real,
    ;
    // Half of the sum.
    let (sum, half) = (vector::total(d), Double::half());
    laws::law_constants();
    precision::lemma_number(half);
    precision::lemma_tiny();
    let (o, v) = (binary64::one() as real, half.value() as real);
    let t = precision::tiny();
    assert((v * t) * 2 as real == 1 as real) by (nonlinear_arith)
        requires
            2 as real * v == o,
            t * o == 1 as real,
    ;
    let (p, q) = (precision::number(sum), precision::number(half));
    assert(q * 2 as real == 1 as real);
    precision::lemma_product_size(p, q);
    assert(p * q * 2 as real == p) by (nonlinear_arith)
        requires
            q * 2 as real == 1 as real,
    ;
    precision::lemma_times_finite(sum, half);
    precision::lemma_times_error(sum, half);
    laws::lemma_sum_sign(vector::nothing(), d);
    order::lemma_sign(half);
    order::lemma_times_nonnegative(sum, half);
    order::lemma_sign(evolution::total_variation(a, b));
    let (z, ez) = (precision::size(p * q), e * precision::size(p * q));
    assert(ez <= 2 as real * e) by (nonlinear_arith)
        requires
            ez == e * z,
            z <= 2 as real,
            e > 0 as real,
    ;
}

} // verus!
