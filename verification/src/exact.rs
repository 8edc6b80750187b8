//! What the results are in exact numbers, up to rounding.
//!
//! Here sums, averages, variances, corrections and budgets are held against the
//! formulas over the reals that they stand for.

use vstd::arithmetic::power2::*;
use vstd::prelude::*;

use crate::accuracy;
use crate::averages;
use crate::binary64;
use crate::chain;
use crate::double;
use crate::double::Double;
use crate::laws;
use crate::matrix::TransitionMatrix;
use crate::measures;
use crate::order;
use crate::precision;
use crate::transport;
use crate::vector;

verus! {

/// The lesser of two lengths.
pub open spec fn least(a: nat, b: nat) -> nat {
    if a < b {
        a
    } else {
        b
    }
}

/// The exact sum of the products of the entries, as far as both vectors go.
pub open spec fn product_sum(p: Seq<Double>, f: Seq<Double>) -> real {
    precision::sum_of(
        |i: int| precision::number(p[i]) * precision::number(f[i]),
        least(p.len(), f.len()),
    )
}

/// The exact sum of the absolute values of the products.
pub open spec fn product_size(p: Seq<Double>, f: Seq<Double>) -> real {
    precision::sum_of(
        |i: int| precision::size(precision::number(p[i]) * precision::number(f[i])),
        least(p.len(), f.len()),
    )
}

/// The exact sum of the absolute values of the entries.
pub open spec fn total_size(v: Seq<Double>) -> real {
    precision::sum_of(precision::sizes(v), v.len())
}

/// Whether a number is finite and at most a million from zero.
pub open spec fn is_moderate(x: Double) -> bool {
    x.is_finite() && precision::size(precision::number(x)) <= 1_000_000 as real
}

/// Whether all entries are finite and at most a million from zero.
pub open spec fn are_moderate(v: Seq<Double>) -> bool {
    forall|i: int| 0 <= i < v.len() ==> is_moderate(#[trigger] v[i])
}

/// A sum is the exact sum of its terms, up to the relative error of a sum of so many
/// terms. It is a finite number only if all terms are.
pub proof fn law_sum_is_exact(terms: Seq<Double>)
    requires
        vector::total(terms).is_finite(),
    ensures
        forall|i: int| 0 <= i < terms.len() ==> (#[trigger] terms[i]).is_finite(),
        precision::size(precision::number(vector::total(terms)) - accuracy::mass(terms))
            <= precision::growth(terms.len()) * total_size(terms),
{
    order::lemma_sign(vector::nothing());
    precision::lemma_sum_error(vector::nothing(), terms);
    precision::lemma_nonzero(terms);
    precision::lemma_growth_order(precision::nonzero(terms), terms.len());
    let (c, g, a) = (
        precision::growth(precision::nonzero(terms)),
        precision::growth(terms.len()),
        total_size(terms),
    );
    assert(c * a <= g * a) by (nonlinear_arith)
        requires
            c <= g,
            0 as real <= a,
    ;
}

/// A sum of finite terms that are not great together is finite.
pub proof fn law_sum_is_finite(terms: Seq<Double>)
    requires
        terms.len() <= precision::LENGTH_LIMIT,
        forall|i: int| 0 <= i < terms.len() ==> (#[trigger] terms[i]).is_finite(),
        total_size(terms) <= 100_000_000_000_000_000_000_000_000_000 as real,
    ensures
        vector::total(terms).is_finite(),
{
    order::lemma_sign(vector::nothing());
    precision::lemma_nonzero(terms);
    precision::lemma_sum_finite(vector::nothing(), terms);
}

/// A sum of moderate terms is finite.
proof fn lemma_moderate_sum(terms: Seq<Double>)
    requires
        terms.len() <= precision::LENGTH_LIMIT,
        are_moderate(terms),
    ensures
        vector::total(terms).is_finite(),
        precision::size(precision::number(vector::total(terms)))
            <= 10_000_000_000_000_000_000_000 as real,
{
    order::lemma_sign(vector::nothing());
    assert forall|i: int| 0 <= i < terms.len() implies (#[trigger] terms[i]).is_finite()
        && precision::size(precision::number(terms[i])) <= 1_000_000 as real by {
        assert(is_moderate(terms[i]));
    }
    precision::lemma_sum_bound(vector::nothing(), terms, 1_000_000 as real);
}

/// A sum of products of moderate factors is finite.
pub(crate) proof fn lemma_moderate_products(start: Double, p: Seq<Double>, f: Seq<Double>)
    requires
        start.is_zero(),
        least(p.len(), f.len()) <= precision::LENGTH_LIMIT,
        are_moderate(p),
        are_moderate(f),
    ensures
        vector::sum_from(start, vector::products(p, f)).is_finite(),
        precision::size(precision::number(vector::sum_from(start, vector::products(p, f))))
            <= 10_000_000_000_000_000_000_000_000_000 as real,
{
    let terms = vector::products(p, f);
    assert forall|i: int| 0 <= i < terms.len() implies (#[trigger] terms[i]).is_finite()
        && precision::size(precision::number(terms[i])) <= 2_000_000_000_001 as real by {
        assert(is_moderate(p[i]) && is_moderate(f[i]));
        assert(1_000_000 as real * 1_000_000 as real == 1_000_000_000_000 as real)
            by (nonlinear_arith);
        precision::lemma_times_bound(p[i], f[i], 1_000_000 as real, 1_000_000 as real);
    }
    precision::lemma_sum_bound(start, terms, 2_000_000_000_001 as real);
}

/// A product is finite only if its factors are.
proof fn lemma_times_finite_factors(a: Double, b: Double)
    requires
        a.times(b).is_finite(),
    ensures
        a.is_finite(),
        b.is_finite(),
{
    reveal(Double::times_spec);
    order::lemma_signed(a.is_negative() != b.is_negative(), binary64::INFINITE as nat);
}

/// A difference is finite only if its terms are.
pub(crate) proof fn lemma_minus_finite_terms(a: Double, b: Double)
    requires
        a.minus(b).is_finite(),
    ensures
        a.is_finite(),
        b.is_finite(),
{
    precision::lemma_plus_finite_terms(a, b.negated());
    order::lemma_signed(!b.is_negative(), b.magnitude());
}

/// The error of a sum of products, from any start that is zero.
pub(crate) proof fn lemma_products(start: Double, p: Seq<Double>, f: Seq<Double>)
    requires
        start.is_zero(),
        least(p.len(), f.len()) <= precision::LENGTH_LIMIT,
        vector::sum_from(start, vector::products(p, f)).is_finite(),
    ensures
        forall|i: int|
            0 <= i < least(p.len(), f.len()) ==> (#[trigger] p[i]).is_finite() && f[i].is_finite(),
        product_size(p, f) >= 0 as real,
        precision::size(
            precision::number(vector::sum_from(start, vector::products(p, f))) - product_sum(p, f),
        ) <= precision::growth(least(p.len(), f.len()) + 2) * product_size(p, f) + 2 as real * (
        least(p.len(), f.len()) as real * precision::tiny()),
{
    let terms = vector::products(p, f);
    let n = terms.len();
    let (e, t) = (precision::eps(), precision::tiny());
    precision::lemma_eps();
    precision::lemma_tiny();
    precision::lemma_sum_error(start, terms);
    let exact = |i: int| precision::number(p[i]) * precision::number(f[i]);
    let heights = |i: int| precision::size(precision::number(p[i]) * precision::number(f[i]));
    let parts = |i: int| e * heights(i);
    let units = |i: int| t;
    let errors = |i: int| parts(i) + units(i);
    let tops = |i: int| heights(i) + errors(i);
    let g = precision::numbers(terms);
    assert forall|i: int| 0 <= i < n implies {
        &&& precision::size(#[trigger] g(i) - exact(i)) <= errors(i)
        &&& p[i].is_finite()
        &&& f[i].is_finite()
    } by {
        assert(terms[i].is_finite());
        lemma_times_finite_factors(p[i], f[i]);
        precision::lemma_times_error(p[i], f[i]);
    }
    assert forall|i: int| 0 <= i < n implies (#[trigger] p[i]).is_finite() && f[i].is_finite() by {
        assert(precision::size(g(i) - exact(i)) <= errors(i));
    }
    assert forall|i: int| 0 <= i < n implies #[trigger] precision::sizes(terms)(i) <= tops(i) by {
        assert(precision::size(g(i) - exact(i)) <= errors(i));
    }
    precision::lemma_sum_difference(g, exact, errors, n);
    precision::lemma_sum_order(precision::sizes(terms), tops, n);
    precision::lemma_sum_scale(heights, e, parts, n);
    precision::lemma_sum_equal(units, t, n);
    precision::lemma_sum_plus(parts, units, errors, n);
    precision::lemma_sum_plus(heights, errors, tops, n);
    precision::lemma_sum_bounds(heights, n, 0);
    precision::lemma_nonzero(terms);
    precision::lemma_growth(n);
    precision::lemma_growth(n + 1);
    precision::lemma_growth(precision::nonzero(terms));
    precision::lemma_growth_order(precision::nonzero(terms), n);
    let all = n as real;
    assert(t * all == all * t) by (nonlinear_arith);
    averages::lemma_dot_total(
        precision::sum_of(heights, n),
        all,
        precision::growth(precision::nonzero(terms)),
        precision::growth(n),
        precision::sum_of(precision::sizes(terms), n),
    );
}

/// The ensemble average, the predicted consumption and every other sum of products
/// is the exact sum of the products, up to the relative error of the sum and two
/// units of the format for each product. It is a finite number only if all entries
/// that it counts are, and always if they are moderate.
pub proof fn law_products_are_exact(p: Seq<Double>, f: Seq<Double>)
    requires
        least(p.len(), f.len()) <= precision::LENGTH_LIMIT,
        vector::dot(p, f).is_finite() || are_moderate(p) && are_moderate(f),
    ensures
        vector::dot(p, f).is_finite(),
        forall|i: int|
            0 <= i < least(p.len(), f.len()) ==> (#[trigger] p[i]).is_finite() && f[i].is_finite(),
        precision::size(precision::number(vector::dot(p, f)) - product_sum(p, f))
            <= precision::growth(least(p.len(), f.len()) + 2) * product_size(p, f) + 2 as real * (
        least(p.len(), f.len()) as real * precision::tiny()),
{
    order::lemma_sign(vector::nothing());
    if !vector::dot(p, f).is_finite() {
        lemma_moderate_products(vector::nothing(), p, f);
    }
    lemma_products(vector::nothing(), p, f);
}

/// The error of a difference of two finite numbers, as a relation of the computed
/// and the exact distance.
pub(crate) proof fn lemma_distance(a: Double, b: Double)
    requires
        a.minus(b).is_finite(),
    ensures
        a.is_finite(),
        b.is_finite(),
        a.minus(b).abs().is_finite(),
        precision::size(
            precision::number(a.minus(b).abs()) - precision::size(
                precision::number(a) - precision::number(b),
            ),
        ) <= precision::eps() * precision::size(precision::number(a) - precision::number(b)),
        precision::number(a.minus(b).abs()) >= 0 as real,
{
    lemma_minus_finite_terms(a, b);
    precision::lemma_minus_error(a, b);
    precision::lemma_number_abs(a.minus(b));
}

/// The averages agree within a tolerance exactly where both are finite numbers and
/// their distance is below the tolerance, up to the rounding of one subtraction:
/// where they agree, the distance is not farther above the tolerance than that, and
/// where it is farther below, they agree. No average that is infinite or not a
/// number agrees with any other.
pub proof fn law_agreement_is_by_distance(
    trajectory: Seq<usize>,
    f: Seq<Double>,
    pi: Seq<Double>,
    tolerance: Double,
)
    requires
        tolerance.is_finite(),
    ensures
        measures::averages_agree(trajectory, f, pi, tolerance) ==> {
            let (a, b) = (measures::time_average(trajectory, f), vector::dot(pi, f));
            &&& a.is_finite()
            &&& b.is_finite()
            &&& precision::size(precision::number(a) - precision::number(b)) * (1 as real
                - precision::eps()) < precision::number(tolerance)
        },
        ({
            let (a, b) = (measures::time_average(trajectory, f), vector::dot(pi, f));
            &&& a.is_finite()
            &&& b.is_finite()
            &&& precision::size(precision::number(a) - precision::number(b)) * (1 as real
                + precision::eps()) < precision::number(tolerance)
        }) ==> measures::averages_agree(trajectory, f, pi, tolerance),
{
    let (a, b) = (measures::time_average(trajectory, f), vector::dot(pi, f));
    let d = a.minus(b).abs();
    let (e, x) = (precision::eps(), precision::size(precision::number(a) - precision::number(b)));
    precision::lemma_eps();
    assert(x * (1 as real - e) == x - e * x && x * (1 as real + e) == x + e * x && 0 as real <= e
        * x) by (nonlinear_arith)
        requires
            0 as real <= x,
            e > 0 as real,
    ;
    order::lemma_sign(d);
    order::lemma_abs_sign(a.minus(b));
    if measures::averages_agree(trajectory, f, pi, tolerance) {
        order::lemma_sign(tolerance);
        binary64::lemma_scaled_order(d.magnitude(), tolerance.magnitude());
        lemma_distance(a, b);
        precision::lemma_number_order(tolerance, d);
    }
    if a.is_finite() && b.is_finite() && x * (1 as real + e) < precision::number(tolerance) {
        lemma_difference_finite(a, b, tolerance);
        lemma_distance(a, b);
        precision::lemma_number_order(tolerance, d);
    }
}

/// Within no tolerance do averages agree that are not both finite, nor any averages
/// within a tolerance that is not a number or not above zero. Within an infinite
/// tolerance all finite averages agree whose distance does not overflow.
pub proof fn law_agreement_at_the_extremes(
    trajectory: Seq<usize>,
    f: Seq<Double>,
    pi: Seq<Double>,
    tolerance: Double,
)
    ensures
        measures::averages_agree(trajectory, f, pi, tolerance) ==> {
            &&& measures::time_average(trajectory, f).is_finite()
            &&& vector::dot(pi, f).is_finite()
            &&& !tolerance.is_nan()
            &&& precision::number(tolerance) > 0 as real
        },
        tolerance.is_infinite() && !tolerance.is_negative() && measures::time_average(
            trajectory,
            f,
        ).is_finite() && vector::dot(pi, f).is_finite() && precision::size(
            precision::number(measures::time_average(trajectory, f)) - precision::number(
                vector::dot(pi, f),
            ),
        ) <= 1_000_000_000_000_000_000_000_000_000_000 as real ==> measures::averages_agree(
            trajectory,
            f,
            pi,
            tolerance,
        ),
{
    let (a, b) = (measures::time_average(trajectory, f), vector::dot(pi, f));
    let d = a.minus(b).abs();
    order::lemma_sign(d);
    order::lemma_sign(tolerance);
    order::lemma_abs_sign(a.minus(b));
    if measures::averages_agree(trajectory, f, pi, tolerance) {
        binary64::lemma_scaled_order(d.magnitude(), tolerance.magnitude());
        lemma_minus_finite_terms(a, b);
        accuracy::lemma_number_sign(tolerance);
        accuracy::lemma_number_sign(d);
    }
    if tolerance.is_infinite() && !tolerance.is_negative() && a.is_finite() && b.is_finite()
        && precision::size(precision::number(a) - precision::number(b))
        <= 1_000_000_000_000_000_000_000_000_000_000 as real {
        precision::lemma_number_negated(b);
        precision::lemma_plus_finite(a, b.negated());
        binary64::lemma_scaled_order(d.magnitude(), tolerance.magnitude());
    }
}

/// A difference that is below a finite number does not overflow.
proof fn lemma_difference_finite(a: Double, b: Double, c: Double)
    requires
        a.is_finite(),
        b.is_finite(),
        c.is_finite(),
        precision::size(precision::number(a) - precision::number(b)) <= precision::number(c),
    ensures
        a.minus(b).is_finite(),
{
    reveal(Double::plus_spec);
    order::lemma_signed(!b.is_negative(), b.magnitude());
    precision::lemma_number(a);
    precision::lemma_number(b);
    precision::lemma_number(c);
    order::lemma_sign(c);
    let diff = a.value() - b.value();
    let x = if diff < 0 {
        (-diff) as nat
    } else {
        diff as nat
    };
    let o = binary64::one() as real;
    lemma_pow2_pos(1074);
    let (p, q, r) = (precision::number(a), precision::number(b), precision::number(c));
    assert((p - q) * o == p * o - q * o) by (nonlinear_arith);
    let y = precision::size(p - q);
    assert(y * o <= r * o && 0 as real <= y * o) by (nonlinear_arith)
        requires
            0 as real <= y,
            y <= r,
            o > 0 as real,
    ;
    assert((-(p - q)) * o == -((p - q) * o)) by (nonlinear_arith);
    assert(x as real == y * o);
    let m = c.magnitude();
    binary64::lemma_nearest_exact(m, 1);
    assert(binary64::scaled(m) * 1 == binary64::scaled(m)) by (nonlinear_arith);
    assert(x * 1 <= binary64::scaled(m) * 1) by (nonlinear_arith)
        requires
            x <= binary64::scaled(m),
    ;
    binary64::lemma_nearest_monotone(x, 1, binary64::scaled(m), 1);
    let k = binary64::nearest(x, 1);
    order::lemma_signed(false, k);
    order::lemma_signed(true, k);
    order::lemma_signed(false, 0);
    order::lemma_signed(true, 0);
}

/// The budget adequacy is the exact total of the allocation, less the exact sum of
/// the products, whichever of the two is greater, up to the relative errors of the
/// sums, of the difference, and two units of the format for each product. In
/// particular it is above zero where the allocation exceeds the prediction by more
/// than that, and below zero where it falls short by more.
pub proof fn law_adequacy_is_the_difference(
    allocation: Seq<Double>,
    pi: Seq<Double>,
    resources: Seq<Double>,
)
    requires
        allocation.len() <= precision::LENGTH_LIMIT,
        least(pi.len(), resources.len()) <= precision::LENGTH_LIMIT,
        measures::adequacy(allocation, pi, resources).is_finite() || are_moderate(allocation)
            && are_moderate(pi) && are_moderate(resources),
    ensures
        measures::adequacy(allocation, pi, resources).is_finite(),
        forall|i: int| 0 <= i < allocation.len() ==> (#[trigger] allocation[i]).is_finite(),
        forall|i: int|
            0 <= i < least(pi.len(), resources.len()) ==> (#[trigger] pi[i]).is_finite()
                && resources[i].is_finite(),
        precision::size(
            precision::number(measures::adequacy(allocation, pi, resources)) - (accuracy::mass(
                allocation,
            ) - product_sum(pi, resources)),
        ) <= precision::growth(allocation.len() + 2) * total_size(allocation) + precision::growth(
            least(pi.len(), resources.len()) + 4,
        ) * product_size(pi, resources) + 3 as real * (least(pi.len(), resources.len()) as real
            * precision::tiny()),
{
    let (a, b) = (vector::total(allocation), vector::dot(pi, resources));
    let (m, n) = (allocation.len(), least(pi.len(), resources.len()));
    if !measures::adequacy(allocation, pi, resources).is_finite() {
        lemma_moderate_sum(allocation);
        order::lemma_sign(vector::nothing());
        lemma_moderate_products(vector::nothing(), pi, resources);
        precision::lemma_number_negated(b);
        precision::lemma_plus_finite(a, b.negated());
    }
    lemma_minus_finite_terms(a, b);
    law_sum_is_exact(allocation);
    law_products_are_exact(pi, resources);
    lemma_products_size(pi, resources);
    precision::lemma_minus_error(a, b);
    precision::lemma_eps();
    precision::lemma_tiny();
    let (e, t) = (precision::eps(), precision::tiny());
    let (x, y) = (accuracy::mass(allocation), product_sum(pi, resources));
    let (sx, sy) = (total_size(allocation), product_size(pi, resources));
    let (na, nb) = (precision::number(a), precision::number(b));
    precision::lemma_sum_bounds(precision::sizes(allocation), m, 0);
    precision::lemma_sum_size(precision::numbers(allocation), precision::sizes(allocation), m);
    precision::lemma_growth(m);
    precision::lemma_growth(m + 1);
    precision::lemma_growth(n);
    precision::lemma_growth(n + 1);
    precision::lemma_growth(n + 2);
    precision::lemma_growth(n + 3);
    let (g, h) = (precision::growth(m), precision::growth(n + 2));
    let nt = n as real * t;
    assert(0 as real <= nt) by (nonlinear_arith)
        requires
            nt == n as real * t,
            t > 0 as real,
    ;
    let (gx, hy) = (g * sx, h * sy);
    assert((g + e + e) * sx == gx + 2 as real * (e * sx) && (h + e + e) * sy == hy + 2 as real * (e
        * sy)) by (nonlinear_arith)
        requires
            gx == g * sx,
            hy == h * sy,
    ;
    assert(gx <= sx && hy <= sy && 0 as real <= gx && 0 as real <= hy) by (nonlinear_arith)
        requires
            gx == g * sx,
            hy == h * sy,
            0 as real <= g,
            0 as real <= h,
            g <= 1 as real,
            h <= 1 as real,
            0 as real <= sx,
            0 as real <= sy,
    ;
    let d = precision::size(na - nb);
    assert(d <= 2 as real * sx + 2 as real * sy + 2 as real * nt);
    assert(e * d <= 2 as real * (e * sx) + 2 as real * (e * sy) + nt) by (nonlinear_arith)
        requires
            d <= 2 as real * sx + 2 as real * sy + 2 as real * nt,
            e > 0 as real,
            0 as real <= nt,
            e * 4_503_599_627_370_496 as real == 1 as real,
    {
        assert(e * d <= e * (2 as real * sx + 2 as real * sy + 2 as real * nt));
        assert(e * (2 as real * nt) <= nt);
    }
}

/// The sum of the products is not farther from zero than the products together.
proof fn lemma_products_size(p: Seq<Double>, f: Seq<Double>)
    ensures
        precision::size(product_sum(p, f)) <= product_size(p, f),
{
    let n = least(p.len(), f.len());
    precision::lemma_sum_size(
        |i: int| precision::number(p[i]) * precision::number(f[i]),
        |i: int| precision::size(precision::number(p[i]) * precision::number(f[i])),
        n,
    );
}

/// The exact sum of what `f` is along the trajectory.
pub open spec fn observed_sum(trajectory: Seq<usize>, f: Seq<Double>) -> real {
    precision::sum_of(
        |t: int| precision::number(f[trajectory[t] as int]),
        trajectory.len(),
    )
}

/// The exact sum of how far `f` is from zero along the trajectory.
pub open spec fn observed_size(trajectory: Seq<usize>, f: Seq<Double>) -> real {
    precision::sum_of(
        |t: int| precision::size(precision::number(f[trajectory[t] as int])),
        trajectory.len(),
    )
}

/// The time average is the exact sum of what `f` is along the trajectory, over its
/// length, up to the relative error of the sum and one unit of the format. It is a
/// finite number only if all values on the way are.
pub proof fn law_time_average_is_exact(trajectory: Seq<usize>, f: Seq<Double>)
    requires
        0 < trajectory.len() <= precision::LENGTH_LIMIT,
        measures::stays_below(trajectory, f.len()),
        measures::time_average(trajectory, f).is_finite() || are_moderate(f),
    ensures
        measures::time_average(trajectory, f).is_finite(),
        forall|t: int|
            0 <= t < trajectory.len() ==> f[#[trigger] trajectory[t] as int].is_finite(),
        precision::size(
            precision::number(measures::time_average(trajectory, f)) - observed_sum(trajectory, f)
                / trajectory.len() as real,
        ) <= precision::growth(trajectory.len() + 2) * (observed_size(trajectory, f)
            / trajectory.len() as real) + precision::tiny(),
{
    let n = trajectory.len();
    let terms = measures::observed(trajectory, f);
    let (sum, whole) = (vector::total(terms), Double::natural(n));
    let (e, t) = (precision::eps(), precision::tiny());
    precision::lemma_eps();
    precision::lemma_tiny();
    precision::lemma_number_natural(n);
    accuracy::lemma_number_sign(whole);
    order::lemma_sign(whole);
    order::lemma_sign(vector::nothing());
    if !measures::time_average(trajectory, f).is_finite() {
        assert forall|t: int| 0 <= t < n implies is_moderate(#[trigger] terms[t]) by {
            assert(trajectory[t] < f.len());
            assert(is_moderate(f[trajectory[t] as int]));
        }
        lemma_moderate_sum(terms);
        precision::lemma_over_finite(sum, whole);
    }
    assert(sum.is_finite()) by {
        reveal(Double::over_spec);
        order::lemma_signed(sum.is_negative() != whole.is_negative(), binary64::INFINITE as nat);
    }
    precision::lemma_nonzero(terms);
    precision::lemma_sum_error(vector::nothing(), terms);
    assert forall|t: int| 0 <= t < n implies f[#[trigger] trajectory[t] as int].is_finite() by {
        assert(terms[t].is_finite());
    }
    let along = |t: int| precision::number(f[trajectory[t] as int]);
    let heights = |t: int| precision::size(precision::number(f[trajectory[t] as int]));
    precision::lemma_sum_same(precision::numbers(terms), along, n);
    precision::lemma_sum_same(precision::sizes(terms), heights, n);
    precision::lemma_sum_size(precision::numbers(terms), precision::sizes(terms), n);
    precision::lemma_over_error(sum, whole);
    let (l, a) = (n as real, precision::sum_of(precision::sizes(terms), n));
    precision::lemma_growth(n);
    precision::lemma_growth(n + 1);
    precision::lemma_growth(precision::nonzero(terms));
    precision::lemma_growth_order(precision::nonzero(terms), n);
    let scale = a / l;
    assert(0 as real <= scale && a <= l * scale) by (nonlinear_arith)
        requires
            scale == a / l,
            0 as real <= a,
            1 as real <= l,
    ;
    averages::lemma_average_total(
        precision::number(sum),
        precision::sum_of(along, n),
        a,
        precision::growth(precision::nonzero(terms)),
        precision::growth(n),
        l,
        scale,
    );
}

/// One if the condition holds, else zero.
pub open spec fn one_if(condition: bool) -> real {
    if condition {
        1 as real
    } else {
        0 as real
    }
}

/// One at each step of the trajectory that is spent in state `i`.
pub open spec fn marks(trajectory: Seq<usize>, i: int) -> spec_fn(int) -> real {
    |t: int| one_if(trajectory[t] as int == i)
}

/// How many steps of the trajectory are spent in state `i`.
pub open spec fn steps_in(trajectory: Seq<usize>, i: int) -> real {
    precision::sum_of(marks(trajectory, i), trajectory.len())
}

/// The visits are the steps spent in the state.
proof fn lemma_visits_are_steps(trajectory: Seq<usize>, i: int)
    ensures
        measures::visits(trajectory, i) as real == steps_in(trajectory, i),
    decreases trajectory.len(),
{
    if trajectory.len() > 0 {
        let shorter = trajectory.drop_last();
        lemma_visits_are_steps(shorter, i);
        precision::lemma_sum_same(marks(shorter, i), marks(trajectory, i), shorter.len());
    }
}

/// The occupation measure has an entry for each state: the number of steps spent in
/// it, over the length of the trajectory, up to one rounding.
pub proof fn law_occupation_is_exact(trajectory: Seq<usize>, n: nat, i: int)
    requires
        0 < trajectory.len() <= measures::COUNT_LIMIT,
        0 <= i < n,
    ensures
        measures::occupation(trajectory, n).len() == n,
        measures::occupation(trajectory, n)[i].is_finite(),
        precision::size(
            precision::number(measures::occupation(trajectory, n)[i]) - steps_in(trajectory, i)
                / trajectory.len() as real,
        ) <= precision::eps() * (steps_in(trajectory, i) / trajectory.len() as real) + steps_in(
            trajectory,
            i,
        ) * precision::tiny(),
{
    lemma_visits_are_steps(trajectory, i);
    averages::lemma_occupation_error(trajectory, n, i);
}

/// The computed distribution function of any vector, against the exact one.
proof fn lemma_cdf_exact(mu: Seq<Double>, i: int)
    requires
        0 <= i < mu.len(),
        measures::cdf(mu, i).is_finite(),
    ensures
        forall|j: int| 0 <= j <= i ==> (#[trigger] mu[j]).is_finite(),
        precision::size(
            precision::number(measures::cdf(mu, i)) - precision::sum_of(
                precision::numbers(mu),
                (i + 1) as nat,
            ),
        ) <= precision::growth((i + 1) as nat) * precision::sum_of(
            precision::sizes(mu),
            (i + 1) as nat,
        ),
        precision::sum_of(precision::sizes(mu), (i + 1) as nat) >= 0 as real,
{
    let k = (i + 1) as nat;
    let terms = mu.take(i + 1);
    order::lemma_sign(Double::zero());
    precision::lemma_sum_error(Double::zero(), terms);
    precision::lemma_nonzero(terms);
    precision::lemma_growth_order(precision::nonzero(terms), k);
    precision::lemma_sum_same(precision::numbers(terms), precision::numbers(mu), k);
    precision::lemma_sum_same(precision::sizes(terms), precision::sizes(mu), k);
    assert forall|j: int| 0 <= j <= i implies (#[trigger] mu[j]).is_finite() by {
        assert(terms[j].is_finite());
    }
    let (c, g, a) = (
        precision::growth(precision::nonzero(terms)),
        precision::growth(k),
        precision::sum_of(precision::sizes(mu), k),
    );
    assert(c * a <= g * a) by (nonlinear_arith)
        requires
            c <= g,
            0 as real <= a,
    ;
}

/// The Wasserstein distance of any two vectors is the sum of the distances of their
/// exact distribution functions, as far as both vectors go, up to the relative
/// errors of the sums. It is a finite number only if all entries that it counts are.
pub proof fn law_wasserstein_is_exact(mu: Seq<Double>, nu: Seq<Double>, n: nat)
    requires
        n == least(mu.len(), nu.len()),
        n <= precision::LENGTH_LIMIT,
        measures::wasserstein(mu, nu).is_finite(),
    ensures
        forall|i: int| 0 <= i < n ==> (#[trigger] mu[i]).is_finite() && nu[i].is_finite(),
        precision::size(
            precision::number(measures::wasserstein(mu, nu)) - transport::gap_sum(
                precision::numbers(mu),
                precision::numbers(nu),
                n,
            ),
        ) <= precision::growth(n + 2) * transport::gap_sum(
            precision::numbers(mu),
            precision::numbers(nu),
            n,
        ) + 2 as real * (n as real * (precision::growth(n) * (precision::sum_of(
            precision::sizes(mu),
            n,
        ) + precision::sum_of(precision::sizes(nu), n)))),
{
    let d = measures::cdf_distances(mu, nu);
    let e = precision::eps();
    let (f, g) = (precision::numbers(mu), precision::numbers(nu));
    precision::lemma_eps();
    order::lemma_sign(Double::zero());
    precision::lemma_nonzero(d);
    precision::lemma_sum_error(Double::zero(), d);
    precision::lemma_growth(n);
    precision::lemma_growth(n + 1);
    precision::lemma_growth(precision::nonzero(d));
    precision::lemma_growth_order(precision::nonzero(d), n);
    let k = precision::growth(n);
    let a = precision::sum_of(precision::sizes(mu), n) + precision::sum_of(
        precision::sizes(nu),
        n,
    );
    let c = k * a;
    let gaps = |i: int|
        precision::size(
            precision::sum_of(f, (i + 1) as nat) - precision::sum_of(g, (i + 1) as nat),
        );
    let lifted = |i: int| gaps(i) + c;
    let parts = |i: int| e * lifted(i);
    let units = |i: int| c;
    let errors = |i: int| parts(i) + units(i);
    let h = precision::numbers(d);
    assert forall|i: int| 0 <= i < n implies {
        &&& precision::size(#[trigger] h(i) - gaps(i)) <= errors(i)
        &&& h(i) >= 0 as real
        &&& mu[i].is_finite()
        &&& nu[i].is_finite()
    } by {
        let (p, q) = (measures::cdf(mu, i), measures::cdf(nu, i));
        assert(d[i].is_finite());
        order::lemma_abs_sign(p.minus(q));
        lemma_distance(p, q);
        lemma_cdf_exact(mu, i);
        lemma_cdf_exact(nu, i);
        let j = (i + 1) as nat;
        precision::lemma_growth_order(j, n);
        precision::lemma_growth(j);
        averages::lemma_prefix(precision::sizes(mu), j, n);
        averages::lemma_prefix(precision::sizes(nu), j, n);
        let (u, v) = (
            precision::sum_of(precision::sizes(mu), j),
            precision::sum_of(precision::sizes(nu), j),
        );
        let l = precision::growth(j);
        assert(l * u + l * v <= c) by (nonlinear_arith)
            requires
                0 as real <= l,
                l <= k,
                0 as real <= u,
                0 as real <= v,
                u + v <= a,
                c == k * a,
        {
            assert(l * (u + v) <= k * (u + v));
            assert(k * (u + v) <= k * a);
        }
        let (x, y) = (precision::size(precision::number(p) - precision::number(q)), lifted(i));
        assert(x <= y);
        assert(e * x <= e * y) by (nonlinear_arith)
            requires
                x <= y,
                e > 0 as real,
        ;
    }
    assert forall|i: int| 0 <= i < n implies (#[trigger] mu[i]).is_finite()
        && nu[i].is_finite() by {
        assert(h(i) >= 0 as real);
    }
    assert forall|i: int| 0 <= i < n implies #[trigger] precision::sizes(d)(i) == h(i) by {
        assert(h(i) >= 0 as real);
    }
    precision::lemma_sum_same(precision::sizes(d), h, n);
    precision::lemma_sum_difference(h, gaps, errors, n);
    precision::lemma_sum_equal(units, c, n);
    precision::lemma_sum_plus(gaps, units, lifted, n);
    precision::lemma_sum_scale(lifted, e, parts, n);
    precision::lemma_sum_plus(parts, units, errors, n);
    precision::lemma_sum_bounds(gaps, n, 0);
    precision::lemma_sum_bounds(precision::sizes(mu), n, 0);
    precision::lemma_sum_bounds(precision::sizes(nu), n, 0);
    let (x, t) = (precision::sum_of(gaps, n), precision::sum_of(h, n));
    let z = n as real * c;
    let w = precision::growth(precision::nonzero(d));
    assert(0 as real <= z) by (nonlinear_arith)
        requires
            z == n as real * c,
            c == k * a,
            0 as real <= k,
            0 as real <= a,
    ;
    assert(w * t + e * (x + z) + z <= (k + e + e) * x + 2 as real * z) by (nonlinear_arith)
        requires
            0 as real <= w,
            w <= k,
            k * 4 as real <= 1 as real,
            0 as real <= t,
            t <= x + e * (x + z) + z,
            0 as real <= x,
            0 as real <= z,
            e > 0 as real,
            e * 4_503_599_627_370_496 as real == 1 as real,
    {
        let (ex, ez) = (e * x, e * z);
        assert(e * (x + z) == ex + ez);
        assert(0 as real <= ex && 0 as real <= ez);
        assert(ez * 4 as real <= z);
        assert(w * t <= k * t);
        assert(k * t <= k * (x + ex + ez + z));
        assert(k * ex <= ex);
        assert(k * (ez + z) * 4 as real <= ez + z);
    }
}

/// The least of three lengths.
pub open spec fn least_of_three(a: nat, b: nat, c: nat) -> nat {
    least(a, least(b, c))
}

/// The Wasserstein distance of moderate vectors is finite.
pub proof fn law_wasserstein_is_finite(mu: Seq<Double>, nu: Seq<Double>)
    requires
        least(mu.len(), nu.len()) <= 1_000_000,
        are_moderate(mu),
        are_moderate(nu),
    ensures
        measures::wasserstein(mu, nu).is_finite(),
{
    let n = least(mu.len(), nu.len());
    let d = measures::cdf_distances(mu, nu);
    order::lemma_sign(Double::zero());
    assert forall|i: int| 0 <= i < n implies (#[trigger] d[i]).is_finite() && precision::size(
        precision::number(d[i]),
    ) <= 10_000_000_000_000 as real by {
        let (a, b) = (mu.take(i + 1), nu.take(i + 1));
        assert forall|j: int| 0 <= j < a.len() implies (#[trigger] a[j]).is_finite()
            && precision::size(precision::number(a[j])) <= 1_000_000 as real by {
            assert(is_moderate(mu[j]));
        }
        assert forall|j: int| 0 <= j < b.len() implies (#[trigger] b[j]).is_finite()
            && precision::size(precision::number(b[j])) <= 1_000_000 as real by {
            assert(is_moderate(nu[j]));
        }
        precision::lemma_sum_bound(Double::zero(), a, 1_000_000 as real);
        precision::lemma_sum_bound(Double::zero(), b, 1_000_000 as real);
        let m = (i + 1) as real;
        assert(m * 1_000_000 as real <= 1_000_000_000_000 as real) by (nonlinear_arith)
            requires
                m <= 1_000_000 as real,
        ;
        let (x, y) = (measures::cdf(mu, i), measures::cdf(nu, i));
        precision::lemma_minus_bound(x, y, 2_000_000_000_000 as real, 2_000_000_000_000 as real);
        order::lemma_abs_sign(x.minus(y));
        precision::lemma_number_abs(x.minus(y));
    }
    precision::lemma_sum_bound(Double::zero(), d, 10_000_000_000_000 as real);
}

/// The corrections go as far as all three vectors. Each is what the target is above
/// the current entry, times the cost, up to three relative errors and one unit of
/// the format: it pushes up where the target is above, and down where it is below.
pub proof fn law_correction_is_exact(
    current: Seq<Double>,
    target: Seq<Double>,
    cost: Seq<Double>,
    i: int,
)
    requires
        0 <= i < least_of_three(current.len(), target.len(), cost.len()),
        measures::corrections(current, target, cost)[i].is_finite() || is_moderate(current[i])
            && is_moderate(target[i]) && is_moderate(cost[i]),
    ensures
        measures::corrections(current, target, cost)[i].is_finite(),
        measures::corrections(current, target, cost).len() == least_of_three(
            current.len(),
            target.len(),
            cost.len(),
        ),
        current[i].is_finite(),
        target[i].is_finite(),
        cost[i].is_finite(),
        precision::size(
            precision::number(measures::corrections(current, target, cost)[i]) - (
            precision::number(target[i]) - precision::number(current[i])) * precision::number(
                cost[i],
            ),
        ) <= 3 as real * (precision::eps() * precision::size(
            (precision::number(target[i]) - precision::number(current[i])) * precision::number(
                cost[i],
            ),
        )) + precision::tiny(),
{
    let (a, b, c) = (current[i], target[i], cost[i]);
    let d = a.minus(b);
    if is_moderate(a) && is_moderate(b) && is_moderate(c) {
        precision::lemma_minus_bound(a, b, 1_000_000 as real, 1_000_000 as real);
        precision::lemma_number_negated(d);
        assert(4_000_000 as real * 1_000_000 as real == 4_000_000_000_000 as real)
            by (nonlinear_arith);
        precision::lemma_times_bound(d.negated(), c, 4_000_000 as real, 1_000_000 as real);
    }
    lemma_times_finite_factors(d.negated(), c);
    order::lemma_signed(!d.is_negative(), d.magnitude());
    lemma_minus_finite_terms(a, b);
    precision::lemma_minus_error(a, b);
    precision::lemma_number_negated(d);
    precision::lemma_times_error(d.negated(), c);
    precision::lemma_eps();
    let e = precision::eps();
    let (x, y, z) = (
        precision::number(b) - precision::number(a),
        precision::number(d.negated()),
        precision::number(c),
    );
    lemma_product_error(x, y, z);
}

/// The error of a product with one rounded factor.
proof fn lemma_product_error(x: real, y: real, z: real)
    requires
        precision::size(y - x) <= precision::eps() * precision::size(x),
    ensures
        precision::size(y * z - x * z) + precision::eps() * precision::size(y * z) <= 3 as real * (
        precision::eps() * precision::size(x * z)),
{
    let e = precision::eps();
    precision::lemma_eps();
    precision::lemma_product_size(x, z);
    precision::lemma_product_size(y, z);
    precision::lemma_product_size(y - x, z);
    assert(y * z - x * z == (y - x) * z) by (nonlinear_arith);
    let (sx, sz, sd, sy) = (
        precision::size(x),
        precision::size(z),
        precision::size(y - x),
        precision::size(y),
    );
    let p = sx * sz;
    let q = e * p;
    assert(e * sx <= sx) by (nonlinear_arith)
        requires
            0 as real <= sx,
            e > 0 as real,
            e * 4_503_599_627_370_496 as real == 1 as real,
    ;
    assert(0 as real <= q && sd * sz <= q && e * (sy * sz) <= 2 as real * q) by (nonlinear_arith)
        requires
            p == sx * sz,
            q == e * p,
            sd <= e * sx,
            sy <= 2 as real * sx,
            0 as real <= sx,
            0 as real <= sz,
            e > 0 as real,
    {
        assert(0 as real <= p);
        assert(sd * sz <= (e * sx) * sz);
        assert((e * sx) * sz == e * (sx * sz));
        assert(sy * sz <= (2 as real * sx) * sz);
        assert(e * (sy * sz) <= e * (2 as real * p));
    }
}

/// One step of control goes as far as all three vectors. Each entry moves from the
/// allocation towards target times cost by the gain, but not below zero: the result
/// is the exact one up to eight relative errors of all that enters, and units of the
/// format.
pub proof fn law_control_step_is_exact(
    allocation: Seq<Double>,
    target: Seq<Double>,
    cost: Seq<Double>,
    gain: Double,
    i: int,
)
    requires
        0 <= i < least_of_three(allocation.len(), target.len(), cost.len()),
        is_moderate(allocation[i]),
        is_moderate(target[i]),
        is_moderate(cost[i]),
        is_moderate(gain),
    ensures
        measures::reallocation(allocation, target, cost, gain).len() == least_of_three(
            allocation.len(),
            target.len(),
            cost.len(),
        ),
        measures::reallocation(allocation, target, cost, gain)[i].is_finite(),
        ({
            let (a, g) = (precision::number(allocation[i]), precision::number(gain));
            let goal = precision::number(target[i]) * precision::number(cost[i]);
            let exact = a - g * (a - goal);
            precision::size(
                precision::number(measures::reallocation(allocation, target, cost, gain)[i]) - if exact
                    < 0 as real {
                    0 as real
                } else {
                    exact
                },
            ) <= 8 as real * (precision::eps() * (precision::size(a) + precision::size(g) * (
            precision::size(a) + precision::size(goal)))) + 4 as real * ((1 as real
                + precision::size(g)) * precision::tiny())
        }),
{
    let (x, t, c) = (allocation[i], target[i], cost[i]);
    let goal = t.times(c);
    let error = x.minus(goal);
    let step = gain.times(error);
    let v = x.minus(step);
    let (e, u) = (precision::eps(), precision::tiny());
    precision::lemma_eps();
    precision::lemma_tiny();
    assert(1_000_000 as real * 1_000_000 as real == 1_000_000_000_000 as real)
        by (nonlinear_arith);
    precision::lemma_times_bound(t, c, 1_000_000 as real, 1_000_000 as real);
    precision::lemma_minus_bound(x, goal, 1_000_000 as real, 2_000_000_000_001 as real);
    assert(1_000_000 as real * 4_000_002_000_002 as real == 4_000_002_000_002_000_000 as real)
        by (nonlinear_arith);
    precision::lemma_times_bound(gain, error, 1_000_000 as real, 4_000_002_000_002 as real);
    precision::lemma_minus_bound(
        x,
        step,
        1_000_000 as real,
        8_000_004_000_004_000_001 as real,
    );
    precision::lemma_times_error(t, c);
    precision::lemma_minus_error(x, goal);
    precision::lemma_times_error(gain, error);
    precision::lemma_minus_error(x, step);
    order::lemma_sign(Double::zero());
    precision::lemma_number_constants();
    accuracy::lemma_number_sign(v);
    lemma_control_total(
        precision::number(x),
        precision::number(t) * precision::number(c),
        precision::number(gain),
        precision::number(goal),
        precision::number(error),
        precision::number(step),
        precision::number(v),
    );
}

/// What the errors of one step of control come to.
proof fn lemma_control_total(
    a: real,
    p: real,
    g: real,
    goal: real,
    error: real,
    step: real,
    v: real,
)
    requires
        precision::size(goal - p) <= precision::eps() * precision::size(p) + precision::tiny(),
        precision::size(error - (a - goal)) <= precision::eps() * precision::size(a - goal),
        precision::size(step - g * error) <= precision::eps() * precision::size(g * error)
            + precision::tiny(),
        precision::size(v - (a - step)) <= precision::eps() * precision::size(a - step),
    ensures
        precision::size(v - (a - g * (a - p))) <= 8 as real * (precision::eps() * (precision::size(
            a,
        ) + precision::size(g) * (precision::size(a) + precision::size(p)))) + 4 as real * ((
        1 as real + precision::size(g)) * precision::tiny()),
{
    let (e, u) = (precision::eps(), precision::tiny());
    precision::lemma_eps();
    precision::lemma_tiny();
    let (sa, sp, sg) = (precision::size(a), precision::size(p), precision::size(g));
    // The deviation from the goal.
    let w = sa + sp;
    let ew = e * w;
    assert(0 as real <= ew && ew * 1_000 as real <= w) by (nonlinear_arith)
        requires
            ew == e * w,
            0 as real <= w,
            e > 0 as real,
            e * 4_503_599_627_370_496 as real == 1 as real,
    ;
    assert(e * sp <= ew) by (nonlinear_arith)
        requires
            ew == e * w,
            sp <= w,
            e > 0 as real,
    ;
    let d = precision::size(a - goal);
    assert(d <= w + ew + u);
    assert(e * d <= ew + ew + u) by (nonlinear_arith)
        requires
            d <= w + ew + u,
            ew == e * w,
            0 as real <= ew,
            u > 0 as real,
            e > 0 as real,
            e * 4_503_599_627_370_496 as real == 1 as real,
    {
        assert(e * d <= e * (w + ew + u));
        assert(e * ew <= ew);
        assert(e * u <= u);
    }
    let f = precision::size(error - (a - p));
    assert(f <= 3 as real * ew + 2 as real * u);
    // Times the gain.
    precision::lemma_product_size(g, error - (a - p));
    assert(g * error - g * (a - p) == g * (error - (a - p))) by (nonlinear_arith);
    precision::lemma_product_size(g, error);
    let se = precision::size(error);
    assert(se <= 2 as real * w + 2 as real * u);
    let (gw, gu) = (sg * ew, sg * u);
    assert(sg * f <= 3 as real * gw + 2 as real * gu && 0 as real <= gw && 0 as real <= gu)
        by (nonlinear_arith)
        requires
            f <= 3 as real * ew + 2 as real * u,
            gw == sg * ew,
            gu == sg * u,
            0 as real <= sg,
            0 as real <= ew,
            u > 0 as real,
    ;
    assert(e * (sg * se) <= 2 as real * gw + gu && sg * se * 1 as real <= 2 as real * (sg * w)
        + 2 as real * gu) by (nonlinear_arith)
        requires
            se <= 2 as real * w + 2 as real * u,
            gw == sg * ew,
            ew == e * w,
            gu == sg * u,
            0 as real <= sg,
            0 as real <= gu,
            e > 0 as real,
            e * 4_503_599_627_370_496 as real == 1 as real,
    {
        assert(sg * se <= sg * (2 as real * w + 2 as real * u));
        assert(e * (sg * se) <= e * (2 as real * (sg * w) + 2 as real * gu));
        assert(e * (sg * w) == gw);
        assert(e * (2 as real * gu) <= gu);
    }
    let h = precision::size(step - g * (a - p));
    assert(h <= 5 as real * gw + 3 as real * gu + u);
    // Taken from the allocation.
    precision::lemma_product_size(g, a - p);
    let r = precision::size(a - p);
    assert(sg * r <= sg * w) by (nonlinear_arith)
        requires
            r <= w,
            0 as real <= sg,
    ;
    let q = precision::size(a - step);
    assert(q <= sa + sg * w + 5 as real * gw + 3 as real * gu + u);
    let ea = e * sa;
    assert(e * q <= ea + gw + gw + gu + u) by (nonlinear_arith)
        requires
            q <= sa + sg * w + 5 as real * gw + 3 as real * gu + u,
            ea == e * sa,
            gw == sg * ew,
            ew == e * w,
            0 as real <= gw,
            0 as real <= gu,
            u > 0 as real,
            e > 0 as real,
            e * 4_503_599_627_370_496 as real == 1 as real,
    {
        assert(e * q <= e * (sa + sg * w + 5 as real * gw + 3 as real * gu + u));
        assert(e * (sg * w) == gw);
        assert(e * (5 as real * gw) <= gw);
        assert(e * (3 as real * gu) <= gu);
        assert(e * u <= u);
    }
    assert(e * (sa + sg * w) == ea + gw && (1 as real + sg) * u == u + gu) by (nonlinear_arith)
        requires
            ea == e * sa,
            gw == sg * ew,
            ew == e * w,
            gu == sg * u,
    ;
    assert(0 as real <= ea) by (nonlinear_arith)
        requires
            ea == e * sa,
            0 as real <= sa,
            e > 0 as real,
    ;
}

/// The exact variance of `f` under the weights `p`: the weighted squares of the
/// deviations from the weighted mean.
pub open spec fn exact_variance(p: Seq<Double>, f: Seq<Double>) -> real {
    precision::sum_of(
        |i: int|
            precision::number(p[i]) * ((precision::number(f[i]) - product_sum(p, f)) * (
            precision::number(f[i]) - product_sum(p, f))),
        p.len(),
    )
}

/// A relative error that is not too great, against the scale.
proof fn lemma_scale_facts(n: nat, scale: real)
    requires
        1 <= n <= 1_000_000,
        1 as real <= scale * 1_000_000 as real,
        scale <= 100_000 as real,
    ensures
        ({
            let (k, e, t) = (precision::growth(n + 2), precision::eps(), precision::tiny());
            &&& 3 as real * e <= k
            &&& e > 0 as real
            &&& t > 0 as real
            &&& k * 4_000_000_000 as real <= 1 as real
            &&& 0 as real <= k * scale
            &&& (k * scale) * 4_000_000_000 as real <= scale
            &&& 3 as real * (e * scale) <= k * scale
            &&& (n as real * t) * 1_000_000 as real <= k * scale
            &&& (5 as real * scale + 1 as real) * t * 1_000 as real <= e * (scale * scale)
            &&& n as real * (e * (scale * scale)) <= k * scale * scale
            &&& 0 as real <= k * scale * scale
            &&& 3 as real * (e * (scale * scale)) <= k * scale * scale
        }),
{
    precision::lemma_growth(n + 2);
    precision::lemma_eps();
    precision::lemma_tiny();
    let (k, e, t, l) = (
        precision::growth(n + 2),
        precision::eps(),
        precision::tiny(),
        n as real,
    );
    let (ks, es) = (k * scale, e * scale);
    let ss = scale * scale;
    assert(0 as real <= ks && ks * 4_000_000_000 as real <= scale && 3 as real * es <= ks
        && 0 as real <= es) by (nonlinear_arith)
        requires
            ks == k * scale,
            es == e * scale,
            3 as real * e <= k,
            e > 0 as real,
            k * 4_000_000_000 as real <= 1 as real,
            0 as real <= scale,
    ;
    assert(l * t <= 1_000_000 as real * t) by (nonlinear_arith)
        requires
            l <= 1_000_000 as real,
            t > 0 as real,
    ;
    assert(es * 1_000_000 as real >= e) by (nonlinear_arith)
        requires
            es == e * scale,
            1 as real <= scale * 1_000_000 as real,
            e > 0 as real,
    ;
    assert(ss * 1_000_000_000_000 as real >= 1 as real) by (nonlinear_arith)
        requires
            ss == scale * scale,
            1 as real <= scale * 1_000_000 as real,
    ;
    assert((e * ss) * 1_000_000_000_000 as real >= e && 0 as real <= e * ss) by (nonlinear_arith)
        requires
            ss * 1_000_000_000_000 as real >= 1 as real,
            e > 0 as real,
    ;
    assert((5 as real * scale + 1 as real) * t <= 500_001 as real * t) by (nonlinear_arith)
        requires
            scale <= 100_000 as real,
            t > 0 as real,
    ;
    assert(l * e <= k) by (nonlinear_arith)
        requires
            k == (l + 2 as real) * e,
            e > 0 as real,
    ;
    assert(ks * scale == k * ss && l * (e * ss) == (l * e) * ss && 3 as real * (e * ss)
        == (3 as real * e) * ss) by (nonlinear_arith)
        requires
            ks == k * scale,
            ss == scale * scale,
    ;
    assert((l * e) * ss <= k * ss && (3 as real * e) * ss <= k * ss && 0 as real <= k * ss)
        by (nonlinear_arith)
        requires
            l * e <= k,
            3 as real * e <= k,
            e > 0 as real,
            0 as real <= ss,
    ;
}

/// The error of one weighted square.
proof fn lemma_square_error(
    p: real,
    x: real,
    d: real,
    q: real,
    r: real,
    scale: real,
    k: real,
    e: real,
    t: real,
)
    requires
        0 as real <= p,
        p <= 1 as real,
        precision::size(x) * 100 as real <= 202 as real * scale,
        precision::size(d - x) <= 2 as real * (k * scale),
        precision::size(q - p * d) <= e * precision::size(p * d) + t,
        precision::size(r - q * d) <= e * precision::size(q * d) + t,
        scale > 0 as real,
        e > 0 as real,
        e * 4_503_599_627_370_496 as real == 1 as real,
        t > 0 as real,
        0 as real <= k * scale,
        (k * scale) * 4_000_000_000 as real <= scale,
        (5 as real * scale + 1 as real) * t * 1_000 as real <= e * (scale * scale),
        3 as real * (e * (scale * scale)) <= k * scale * scale,
    ensures
        precision::size(r - p * (x * x)) <= 13 as real * (p * (k * scale * scale)) + e * (scale
            * scale),
        0 as real <= p * (x * x),
        p * (x * x) <= 5 as real * (p * (scale * scale)),
{
    let (sx, sd, ss) = (precision::size(x), precision::size(d), scale * scale);
    let kss = k * scale * scale;
    // The squares.
    let z = d - x;
    let sz = precision::size(z);
    assert(d * d - x * x == z * (d + x)) by (nonlinear_arith)
        requires
            z == d - x,
    ;
    precision::lemma_product_size(z, d + x);
    let sum = precision::size(d + x);
    assert(sz * sum * 10 as real <= 84 as real * kss) by (nonlinear_arith)
        requires
            0 as real <= sz,
            sz <= 2 as real * (k * scale),
            0 as real <= sum,
            sum * 10 as real <= 42 as real * scale,
            kss == k * scale * scale,
            0 as real <= k * scale,
            scale > 0 as real,
    {
        assert(sz * sum <= (2 as real * (k * scale)) * sum);
        assert((k * scale) * (sum * 10 as real) <= (k * scale) * (42 as real * scale));
        assert(0 as real <= kss);
    }
    let w = d * d - x * x;
    precision::lemma_product_size(p, w);
    assert(p * (d * d) - p * (x * x) == p * w) by (nonlinear_arith)
        requires
            w == d * d - x * x,
    ;
    let sw = precision::size(w);
    assert(p * sw * 10 as real <= 84 as real * (p * kss)) by (nonlinear_arith)
        requires
            sw * 10 as real <= 84 as real * kss,
            0 as real <= p,
    ;
    // The two products.
    precision::lemma_product_size(p, d);
    precision::lemma_product_size(q, d);
    precision::lemma_product_size(q - p * d, d);
    assert(q * d - p * (d * d) == (q - p * d) * d) by (nonlinear_arith);
    let sq = precision::size(q);
    let sy = precision::size(q - p * d);
    let pd = p * sd;
    assert(0 as real <= pd && pd <= sd) by (nonlinear_arith)
        requires
            pd == p * sd,
            0 as real <= p,
            p <= 1 as real,
            0 as real <= sd,
    ;
    let pdd = pd * sd;
    let (epdd, td) = (e * pdd, t * sd);
    assert(0 as real <= pdd && 0 as real <= epdd && 0 as real <= td) by (nonlinear_arith)
        requires
            pdd == pd * sd,
            epdd == e * pdd,
            td == t * sd,
            0 as real <= pd,
            0 as real <= sd,
            e > 0 as real,
            t > 0 as real,
    ;
    assert(sy * sd <= epdd + td) by (nonlinear_arith)
        requires
            sy <= e * pd + t,
            pdd == pd * sd,
            epdd == e * pdd,
            td == t * sd,
            0 as real <= sd,
    {
        assert(sy * sd <= (e * pd + t) * sd);
        assert((e * pd + t) * sd == e * (pd * sd) + t * sd);
    }
    assert(sq <= pd + e * pd + t);
    assert(e * (sq * sd) <= 2 as real * epdd + td) by (nonlinear_arith)
        requires
            sq <= pd + e * pd + t,
            pdd == pd * sd,
            epdd == e * pdd,
            td == t * sd,
            0 as real <= sd,
            0 as real <= epdd,
            0 as real <= td,
            e > 0 as real,
            e * 4_503_599_627_370_496 as real == 1 as real,
    {
        assert(sq * sd <= (pd + e * pd + t) * sd);
        assert((pd + e * pd + t) * sd == pdd + epdd + td);
        assert(e * (sq * sd) <= e * (pdd + epdd + td));
        assert(e * epdd <= epdd);
        assert(e * td <= td);
    }
    // In terms of the scale.
    assert(pdd * 10 as real <= 45 as real * (p * ss)) by (nonlinear_arith)
        requires
            pdd == pd * sd,
            pd == p * sd,
            sd * 10 as real <= 21 as real * scale,
            0 as real <= sd,
            0 as real <= p,
            ss == scale * scale,
            scale > 0 as real,
    {
        assert((sd * 10 as real) * (sd * 10 as real) <= (21 as real * scale) * (21 as real * scale));
        assert((sd * sd) * 100 as real <= 441 as real * ss);
        assert(p * ((sd * sd) * 100 as real) <= p * (441 as real * ss));
        assert(pdd == p * (sd * sd));
    }
    assert((-x) * (-x) == x * x) by (nonlinear_arith);
    let pss = p * ss;
    assert(3 as real * epdd * 10 as real <= 45 as real * (p * kss)) by (nonlinear_arith)
        requires
            epdd == e * pdd,
            pdd * 10 as real <= 45 as real * pss,
            pss == p * ss,
            3 as real * (e * ss) <= kss,
            0 as real <= p,
            e > 0 as real,
    {
        assert(e * (pdd * 10 as real) <= e * (45 as real * pss));
        assert(3 as real * (e * pss) == p * (3 as real * (e * ss)));
        assert(p * (3 as real * (e * ss)) <= p * kss);
    }
    assert(2 as real * td + t <= (5 as real * scale + 1 as real) * t) by (nonlinear_arith)
        requires
            td == t * sd,
            sd * 10 as real <= 21 as real * scale,
            t > 0 as real,
            scale > 0 as real,
    ;
    assert(0 as real <= p * (x * x) && p * (x * x) <= 5 as real * pss) by (nonlinear_arith)
        requires
            pss == p * ss,
            ss == scale * scale,
            0 as real <= p,
            0 as real <= sx,
            sx * 100 as real <= 202 as real * scale,
            x * x == sx * sx,
            scale > 0 as real,
    {
        assert((sx * 100 as real) * (sx * 100 as real) <= (202 as real * scale) * (202 as real
            * scale));
        assert(sx * sx <= 5 as real * ss);
        assert(p * (sx * sx) <= p * (5 as real * ss));
    }
}

/// The variance of `f` under a probability vector is the exact weighted sum of the
/// squared deviations from the exact mean, up to twenty relative errors of the sum on
/// the scale of the greatest square.
pub proof fn law_variance_is_exact(p: Seq<Double>, f: Seq<Double>, scale: real)
    requires
        accuracy::is_probability_vector(p),
        p.len() == f.len(),
        p.len() <= 1_000_000,
        1 as real <= scale * 1_000_000 as real,
        scale <= 100_000 as real,
        forall|i: int|
            0 <= i < f.len() ==> (#[trigger] f[i]).is_finite() && precision::size(
                precision::number(f[i]),
            ) <= scale,
    ensures
        vector::variance(p, f).is_finite(),
        precision::size(precision::number(vector::variance(p, f)) - exact_variance(p, f))
            <= 20 as real * (precision::growth(p.len() + 2) * scale * scale),
{
    let n = p.len();
    if n == 0 {
        assert(accuracy::mass(p) == 0 as real);
    }
    let (k, e, t) = (precision::growth(n + 2), precision::eps(), precision::tiny());
    lemma_scale_facts(n, scale);
    precision::lemma_eps();
    let (ks, kss, ss) = (k * scale, k * scale * scale, scale * scale);
    let w = precision::numbers(p);
    let m = accuracy::mass(p);
    assert forall|i: int| 0 <= i < n implies #[trigger] w(i) >= 0 as real && w(i) <= 1 as real
        && p[i].is_finite() && is_moderate(p[i]) && is_moderate(f[i]) by {
        accuracy::lemma_fractional(p[i]);
        assert(f[i].is_finite());
    }
    assert forall|i: int| 0 <= i < n implies is_moderate(#[trigger] p[i]) by {
        assert(w(i) >= 0 as real);
    }
    assert forall|i: int| 0 <= i < n implies is_moderate(#[trigger] f[i]) by {
        assert(w(i) >= 0 as real);
    }
    // The mean.
    law_products_are_exact(p, f);
    lemma_products_size(p, f);
    let mean = vector::dot(p, f);
    let mu = product_sum(p, f);
    let heights = |i: int| precision::size(precision::number(p[i]) * precision::number(f[i]));
    let tops = |i: int| scale * w(i);
    assert forall|i: int| 0 <= i < n implies #[trigger] heights(i) <= tops(i) by {
        assert(w(i) >= 0 as real);
        assert(f[i].is_finite());
        let (a, b) = (w(i), precision::size(precision::number(f[i])));
        precision::lemma_product_size(a, precision::number(f[i]));
        assert(a * b <= scale * a) by (nonlinear_arith)
            requires
                0 as real <= a,
                b <= scale,
        ;
    }
    precision::lemma_sum_order(heights, tops, n);
    precision::lemma_sum_scale(w, scale, tops, n);
    let h = product_size(p, f);
    assert(h * 1_000 as real <= 1_001 as real * scale) by (nonlinear_arith)
        requires
            h <= scale * m,
            m * 1_000 as real <= 1_001 as real,
            0 as real <= scale,
    ;
    assert((k * h) * 1_000 as real <= 1_001 as real * ks) by (nonlinear_arith)
        requires
            h * 1_000 as real <= 1_001 as real * scale,
            ks == k * scale,
            0 as real <= k,
    ;
    // The squares.
    let terms = vector::deviations(p, f, mean);
    let exact = |i: int|
        precision::number(p[i]) * ((precision::number(f[i]) - product_sum(p, f)) * (
        precision::number(f[i]) - product_sum(p, f)));
    let c = 13 as real * kss;
    let u = e * ss;
    let parts = |i: int| c * w(i);
    let units = |i: int| u;
    let errors = |i: int| parts(i) + units(i);
    let squares = |i: int| 5 as real * ss * w(i);
    assert forall|i: int| 0 <= i < n implies {
        &&& (#[trigger] terms[i]).is_finite()
        &&& precision::size(precision::number(terms[i])) <= 1_000_000_000_000 as real
        &&& precision::size(precision::number(terms[i]) - exact(i)) <= errors(i)
        &&& 0 as real <= exact(i)
        &&& exact(i) <= squares(i)
    } by {
        assert(w(i) >= 0 as real);
        assert(f[i].is_finite());
        let (a, x) = (p[i], f[i]);
        let d = x.minus(mean);
        let q = a.times(d);
        precision::lemma_minus_bound(x, mean, 100_000 as real, 110_000 as real);
        assert(1 as real * 420_000 as real == 420_000 as real) by (nonlinear_arith);
        precision::lemma_times_bound(a, d, 1 as real, 420_000 as real);
        assert(840_001 as real * 420_000 as real == 352_800_420_000 as real) by (nonlinear_arith);
        precision::lemma_times_bound(q, d, 840_001 as real, 420_000 as real);
        precision::lemma_minus_error(x, mean);
        precision::lemma_times_error(a, d);
        precision::lemma_times_error(q, d);
        let y = precision::number(x) - mu;
        let z = precision::size(precision::number(x) - precision::number(mean));
        assert(e * z <= 3 as real * (e * scale)) by (nonlinear_arith)
            requires
                z <= 3 as real * scale,
                e > 0 as real,
        ;
        assert(precision::size(precision::number(d) - y) <= 2 as real * ks) by {
            assert(e * z * 10 as real <= 7 as real * ks) by (nonlinear_arith)
                requires
                    z * 10 as real <= 21 as real * scale,
                    3 as real * (e * scale) <= ks,
                    e > 0 as real,
            ;
        }
        lemma_square_error(
            w(i),
            y,
            precision::number(d),
            precision::number(q),
            precision::number(terms[i]),
            scale,
            k,
            e,
            t,
        );
        let b = w(i);
        assert(13 as real * (b * kss) == c * b && 5 as real * (b * ss) == 5 as real * ss * b)
            by (nonlinear_arith)
            requires
                c == 13 as real * kss,
        ;
    }
    let g = precision::numbers(terms);
    let all = |i: int| squares(i) + errors(i);
    assert forall|i: int| 0 <= i < n implies precision::size(#[trigger] g(i) - exact(i))
        <= errors(i) by {
        assert(terms[i].is_finite());
    }
    assert forall|i: int| 0 <= i < n implies #[trigger] precision::sizes(terms)(i) <= all(i) by {
        assert(terms[i].is_finite());
    }
    order::lemma_sign(vector::nothing());
    precision::lemma_sum_bound(vector::nothing(), terms, 1_000_000_000_000 as real);
    law_sum_is_exact(terms);
    precision::lemma_sum_difference(g, exact, errors, n);
    precision::lemma_sum_order(precision::sizes(terms), all, n);
    precision::lemma_sum_scale(w, c, parts, n);
    precision::lemma_sum_equal(units, u, n);
    precision::lemma_sum_plus(parts, units, errors, n);
    precision::lemma_sum_scale(w, 5 as real * ss, squares, n);
    precision::lemma_sum_plus(squares, errors, all, n);
    let total = total_size(terms);
    assert((c * m) * 1_000 as real <= 13_013 as real * kss) by (nonlinear_arith)
        requires
            c == 13 as real * kss,
            m * 1_000 as real <= 1_001 as real,
            0 as real <= kss,
    ;
    let s5 = 5 as real * ss;
    assert((s5 * m) * 1_000 as real <= 5_005 as real * ss && 0 as real <= ss) by (nonlinear_arith)
        requires
            s5 == 5 as real * ss,
            ss == scale * scale,
            m * 1_000 as real <= 1_001 as real,
    ;
    assert(kss * 4_000_000_000 as real <= ss && kss == k * ss) by (nonlinear_arith)
        requires
            kss == k * scale * scale,
            ss == scale * scale,
            k * 4_000_000_000 as real <= 1 as real,
    ;
    precision::lemma_growth(n);
    precision::lemma_growth(n + 1);
    let g0 = precision::growth(n);
    precision::lemma_sum_bounds(precision::sizes(terms), n, 0);
    assert(g0 * total * 10 as real <= 51 as real * kss) by (nonlinear_arith)
        requires
            0 as real <= g0,
            g0 <= k,
            0 as real <= total,
            total * 10 as real <= 51 as real * ss,
            kss == k * ss,
    {
        assert(g0 * total <= k * total);
        assert(k * (total * 10 as real) <= k * (51 as real * ss));
    }
}

/// The exact mean of the state index.
pub open spec fn index_mean(pi: Seq<Double>) -> real {
    precision::sum_of(|i: int| precision::number(pi[i]) * i as real, pi.len())
}

/// The exact variance of the state index.
pub open spec fn index_variance(pi: Seq<Double>) -> real {
    precision::sum_of(
        |i: int|
            precision::number(pi[i]) * ((i as real - index_mean(pi)) * (i as real - index_mean(
                pi,
            ))),
        pi.len(),
    )
}

/// The numbers of the states, as far as they go.
proof fn lemma_indices(pi: Seq<Double>)
    requires
        pi.len() <= 64,
    ensures
        vector::indices(pi.len()).len() == pi.len(),
        forall|i: int|
            0 <= i < pi.len() ==> (#[trigger] vector::indices(pi.len())[i]).is_finite()
                && precision::number(vector::indices(pi.len())[i]) == i as real,
        exact_variance(pi, vector::indices(pi.len())) == index_variance(pi),
{
    let n = pi.len();
    let f = vector::indices(n);
    assert forall|i: int| 0 <= i < n implies (#[trigger] f[i]).is_finite() && precision::number(
        f[i],
    ) == i as real by {
        precision::lemma_number_natural(i as nat);
    }
    let a = |i: int| precision::number(pi[i]) * precision::number(f[i]);
    let b = |i: int| precision::number(pi[i]) * i as real;
    assert forall|i: int| 0 <= i < n implies #[trigger] a(i) == b(i) by {
        assert(f[i].is_finite());
    }
    precision::lemma_sum_same(a, b, n);
    let (x, y) = (product_sum(pi, f), index_mean(pi));
    assert(x == y);
    let c = |i: int|
        precision::number(pi[i]) * ((precision::number(f[i]) - product_sum(pi, f)) * (
        precision::number(f[i]) - product_sum(pi, f)));
    let d = |i: int|
        precision::number(pi[i]) * ((i as real - index_mean(pi)) * (i as real - index_mean(pi)));
    assert forall|i: int| 0 <= i < n implies #[trigger] c(i) == d(i) by {
        assert(f[i].is_finite());
    }
    precision::lemma_sum_same(c, d, n);
}

/// The budget safety margin is the number of moves times the standard deviation of
/// the state index: its square is the square of the number of moves times the exact
/// variance, up to ten to the power -8 for each square move.
pub proof fn law_margin_is_exact(tm: TransitionMatrix, pi: Seq<Double>, k: nat)
    requires
        tm.wf(),
        pi.len() == tm.n,
        accuracy::is_probability_vector(pi),
        k <= 1_000_000,
    ensures
        chain::safety_margin(tm, pi, k).is_finite(),
        precision::number(chain::safety_margin(tm, pi, k)) >= 0 as real,
        ({
            let m = precision::number(chain::safety_margin(tm, pi, k));
            precision::size(m * m - (k * k) as real * index_variance(pi)) * 100_000_000 as real
                <= (k * k) as real
        }),
{
    let n = pi.len();
    let f = vector::indices(n);
    let v = vector::variance(pi, f);
    lemma_indices(pi);
    assert forall|i: int| 0 <= i < n implies (#[trigger] f[i]).is_finite() && precision::size(
        precision::number(f[i]),
    ) <= 64 as real by {}
    law_variance_is_exact(pi, f, 64 as real);
    precision::lemma_growth(n + 2);
    let g = precision::growth(n + 2);
    assert(g * 64 as real * 64 as real == g * 4_096 as real) by (nonlinear_arith);
    accuracy::lemma_index_variance(pi);
    order::lemma_sign(Double::zero());
    accuracy::lemma_number_sign(v);
    precision::lemma_sqrt_finite(v);
    precision::lemma_sqrt_error(v);
    precision::lemma_number_natural(k);
    precision::lemma_eps();
    precision::lemma_tiny();
    let (e, t) = (precision::eps(), precision::tiny());
    let s = precision::number(v.sqrt());
    let x = precision::number(v);
    lemma_index_variance_bound(pi);
    assert(s * s <= 2 as real * x + 1 as real) by {
        let ss = s * s;
        assert((e * ss) * 4_503_599_627_370_496 as real == ss) by (nonlinear_arith)
            requires
                e * 4_503_599_627_370_496 as real == 1 as real,
        ;
        assert((s + 1 as real) * t * 1_000 as real <= 1 as real) by (nonlinear_arith)
            requires
                s <= 18_446_744_073_709_551_616 as real,
                t > 0 as real,
                t * 100_000_000_000_000_000_000_000_000_000_000_000_000 as real <= 1 as real,
        ;
    }
    assert(s <= 100 as real) by (nonlinear_arith)
        requires
            s * s <= 9_000 as real,
            s >= 0 as real,
    ;
    let c = k as real;
    assert(0 as real <= c * s && c * s <= 100_000_000 as real) by (nonlinear_arith)
        requires
            0 as real <= c,
            c <= 1_000_000 as real,
            0 as real <= s,
            s <= 100 as real,
    ;
    let spread = v.sqrt();
    precision::lemma_times_finite(Double::natural(k), spread);
    precision::lemma_times_error(Double::natural(k), spread);
    let margin = chain::safety_margin(tm, pi, k);
    laws::law_margin_nonnegative(tm, pi, k);
    order::lemma_sign(margin);
    accuracy::lemma_number_sign(margin);
    let m = precision::number(margin);
    assert((k * k) as real == c * c) by (nonlinear_arith)
        requires
            c == k as real,
    ;
    if k == 0 {
        assert(c * s == 0 as real && c * c == 0 as real) by (nonlinear_arith)
            requires
                c == 0 as real,
        ;
        order::lemma_natural_sign(0);
        accuracy::lemma_number_sign(Double::natural(0));
        order::lemma_sign(Double::natural(0));
        order::lemma_times_sign(Double::natural(0), spread);
        assert(m == 0 as real);
        assert(0 as real * 0 as real == 0 as real && 0 as real * index_variance(pi) == 0 as real)
            by (nonlinear_arith);
    } else {
        lemma_margin_total(m, c, s, x, index_variance(pi));
    }
}

/// What the errors of a safety margin come to.
proof fn lemma_margin_total(m: real, c: real, s: real, x: real, v: real)
    requires
        0 as real <= m,
        1 as real <= c,
        c <= 1_000_000 as real,
        0 as real <= s,
        s <= 100 as real,
        precision::size(m - c * s) <= precision::eps() * (c * s) + precision::tiny(),
        precision::size(s * s - x) <= 2 as real * (precision::eps() * (s * s)) + (s + 1 as real)
            * precision::tiny(),
        precision::size(x - v) * 500_000_000 as real <= 1 as real,
    ensures
        precision::size(m * m - (c * c) * v) * 100_000_000 as real <= c * c,
{
    let (e, t) = (precision::eps(), precision::tiny());
    precision::lemma_eps();
    precision::lemma_tiny();
    let y = c * s;
    assert(0 as real <= y && y <= 100 as real * c) by (nonlinear_arith)
        requires
            y == c * s,
            0 as real <= s,
            s <= 100 as real,
            1 as real <= c,
    ;
    let d = m - y;
    assert(m * m - y * y == d * (m + y)) by (nonlinear_arith)
        requires
            d == m - y,
    ;
    precision::lemma_product_size(d, m + y);
    let sd = precision::size(d);
    assert(e * y <= 100 as real * (e * c)) by (nonlinear_arith)
        requires
            y <= 100 as real * c,
            e > 0 as real,
    ;
    assert(e * c * 1_000_000_000 as real <= c) by (nonlinear_arith)
        requires
            1 as real <= c,
            e > 0 as real,
            e * 4_503_599_627_370_496 as real == 1 as real,
    ;
    let ec = e * c;
    assert(ec * 4_503_599_627_370_496 as real == c) by (nonlinear_arith)
        requires
            ec == e * c,
            e * 4_503_599_627_370_496 as real == 1 as real,
    ;
    assert(sd * 10_000_000_000_000 as real <= c);
    let sum = m + y;
    assert(sd * sum * 40_000_000_000 as real <= c * c) by (nonlinear_arith)
        requires
            0 as real <= sd,
            sd * 10_000_000_000_000 as real <= c,
            0 as real <= sum,
            sum <= 201 as real * c,
            1 as real <= c,
    {
        assert((sd * 10_000_000_000_000 as real) * sum <= c * sum);
        assert(c * sum <= c * (201 as real * c));
    }
    // The square of the root.
    let z = s * s - v;
    let ss = s * s;
    assert(0 as real <= ss && ss <= 10_000 as real) by (nonlinear_arith)
        requires
            ss == s * s,
            0 as real <= s,
            s <= 100 as real,
    ;
    assert(e * ss * 400_000_000_000 as real <= 1 as real) by (nonlinear_arith)
        requires
            ss <= 10_000 as real,
            e > 0 as real,
            e * 4_503_599_627_370_496 as real == 1 as real,
    ;
    assert((s + 1 as real) * t * 1_000_000_000_000 as real <= 1 as real) by (nonlinear_arith)
        requires
            s <= 100 as real,
            t > 0 as real,
            t * 100_000_000_000_000_000_000_000_000_000_000_000_000 as real <= 1 as real,
    ;
    let sz = precision::size(z);
    assert(sz * 300_000_000 as real <= 1 as real);
    assert(y * y - (c * c) * v == (c * c) * z) by (nonlinear_arith)
        requires
            y == c * s,
            z == s * s - v,
    ;
    let cc = c * c;
    assert(cc >= 0 as real) by (nonlinear_arith)
        requires
            cc == c * c,
    ;
    precision::lemma_product_size(cc, z);
    assert((cc * sz) * 300_000_000 as real <= cc) by (nonlinear_arith)
        requires
            sz * 300_000_000 as real <= 1 as real,
            cc >= 0 as real,
    ;
}

/// The variance of the state index is not great.
proof fn lemma_index_variance_bound(pi: Seq<Double>)
    requires
        accuracy::is_probability_vector(pi),
        pi.len() <= 64,
    ensures
        0 as real <= index_variance(pi),
        index_variance(pi) <= 4_200 as real,
{
    let n = pi.len();
    let w = precision::numbers(pi);
    let mu = index_mean(pi);
    let parts = |i: int| precision::number(pi[i]) * i as real;
    let tops = |i: int| 63 as real * w(i);
    let none = |i: int| 0 as real;
    assert forall|i: int| 0 <= i < n implies #[trigger] parts(i) >= 0 as real && parts(i) <= tops(
        i,
    ) && w(i) >= 0 as real by {
        accuracy::lemma_fractional(pi[i]);
        let (a, b) = (w(i), i as real);
        assert(0 as real <= a * b && a * b <= 63 as real * a) by (nonlinear_arith)
            requires
                0 as real <= a,
                0 as real <= b,
                b <= 63 as real,
        ;
    }
    precision::lemma_sum_bounds(parts, n, 0);
    precision::lemma_sum_order(parts, tops, n);
    precision::lemma_sum_scale(w, 63 as real, tops, n);
    let squares = |i: int|
        precision::number(pi[i]) * ((i as real - index_mean(pi)) * (i as real - index_mean(pi)));
    let highs = |i: int| 4_100 as real * w(i);
    assert forall|i: int| 0 <= i < n implies #[trigger] squares(i) >= 0 as real && squares(i)
        <= highs(i) by {
        assert(parts(i) >= 0 as real);
        let (a, d) = (w(i), i as real - mu);
        assert(0 as real <= a * (d * d) && a * (d * d) <= 4_100 as real * a) by (nonlinear_arith)
            requires
                0 as real <= a,
                d <= 64 as real,
                d >= -(64 as real),
        {
            assert(d * d <= 4_096 as real);
            assert(0 as real <= d * d);
        }
    }
    precision::lemma_sum_bounds(squares, n, 0);
    precision::lemma_sum_order(squares, highs, n);
    precision::lemma_sum_scale(w, 4_100 as real, highs, n);
}

/// The exact weighted squares of the deviations from `mean`.
pub open spec fn weighted_squares(p: Seq<Double>, f: Seq<Double>, mean: real) -> spec_fn(int) -> real {
    |i: int|
        precision::number(p[i]) * ((precision::number(f[i]) - mean) * (precision::number(f[i])
            - mean))
}

/// The sum of the absolute values of the first terms.
pub open spec fn absolute_sum(x: spec_fn(int) -> real, n: nat) -> real {
    precision::sum_of(|i: int| precision::size(x(i)), n)
}

/// The sum of the distances of the entries from `mean`, each enlarged by one.
pub open spec fn spread(f: Seq<Double>, mean: real, n: nat) -> real {
    precision::sum_of(
        |i: int| precision::size(precision::number(f[i]) - mean) + 1 as real,
        n,
    )
}

/// Under any weights, the variance of `f` is the exact sum of the weighted squares of
/// the deviations from the computed mean, up to the relative error of the sum and a few
/// units of the format.
pub proof fn law_variance_under_any_weights(p: Seq<Double>, f: Seq<Double>, n: nat, mean: real)
    requires
        n == least(p.len(), f.len()),
        0 < n <= 1_000_000_000,
        vector::variance(p, f).is_finite(),
        mean == precision::number(vector::dot(p, f)),
    ensures
        vector::dot(p, f).is_finite(),
        forall|i: int| 0 <= i < n ==> (#[trigger] p[i]).is_finite() && f[i].is_finite(),
        precision::size(
            precision::number(vector::variance(p, f)) - precision::sum_of(
                weighted_squares(p, f, mean),
                n,
            ),
        ) <= precision::growth(n + 6) * absolute_sum(weighted_squares(p, f, mean), n) + 6 as real
            * (precision::tiny() * spread(f, mean, n)),
{
    let (e, t) = (precision::eps(), precision::tiny());
    precision::lemma_eps();
    precision::lemma_tiny();
    let m = vector::dot(p, f);
    let terms = vector::deviations(p, f, m);
    order::lemma_sign(vector::nothing());
    precision::lemma_nonzero(terms);
    precision::lemma_sum_error(vector::nothing(), terms);
    let x = weighted_squares(p, f, mean);
    let sizes = |i: int| precision::size(x(i));
    let spreads = |i: int| precision::size(precision::number(f[i]) - mean) + 1 as real;
    let (parts, units) = (|i: int| 5 as real * e * sizes(i), |i: int| 2 as real * t * spreads(i));
    let errors = |i: int| parts(i) + units(i);
    let g = precision::numbers(terms);
    assert forall|i: int| 0 <= i < n implies {
        &&& precision::size(#[trigger] g(i) - x(i)) <= errors(i)
        &&& p[i].is_finite()
        &&& f[i].is_finite()
        &&& m.is_finite()
    } by {
        assert(terms[i].is_finite());
        let d = f[i].minus(m);
        let q = p[i].times(d);
        lemma_times_finite_factors(q, d);
        lemma_times_finite_factors(p[i], d);
        lemma_minus_finite_terms(f[i], m);
        precision::lemma_minus_error(f[i], m);
        precision::lemma_times_error(p[i], d);
        precision::lemma_times_error(q, d);
        lemma_weighted_square(
            precision::number(p[i]),
            precision::number(f[i]) - mean,
            precision::number(d),
            precision::number(q),
            precision::number(terms[i]),
            e,
            t,
        );
    }
    assert forall|i: int| 0 <= i < n implies (#[trigger] p[i]).is_finite() && f[i].is_finite() by {
        assert(precision::size(g(i) - x(i)) <= errors(i));
    }
    assert(precision::size(g(0) - x(0)) <= errors(0));
    precision::lemma_sum_difference(g, x, errors, n);
    precision::lemma_sum_plus(parts, units, errors, n);
    precision::lemma_sum_scale(sizes, 5 as real * e, parts, n);
    precision::lemma_sum_scale(spreads, 2 as real * t, units, n);
    let all = |i: int| sizes(i) + errors(i);
    assert forall|i: int| 0 <= i < n implies #[trigger] precision::sizes(terms)(i) <= all(i) by {
        assert(precision::size(g(i) - x(i)) <= errors(i));
    }
    precision::lemma_sum_order(precision::sizes(terms), all, n);
    precision::lemma_sum_plus(sizes, errors, all, n);
    precision::lemma_sum_bounds(sizes, n, 0);
    precision::lemma_sum_bounds(spreads, n, 0);
    let (a, b) = (precision::sum_of(sizes, n), precision::sum_of(spreads, n));
    let c = precision::growth(precision::nonzero(terms));
    let k = precision::growth(n);
    precision::lemma_growth_order(precision::nonzero(terms), n);
    precision::lemma_growth(precision::nonzero(terms));
    precision::lemma_growth(n);
    precision::lemma_growth(n + 1);
    precision::lemma_growth(n + 2);
    precision::lemma_growth(n + 3);
    precision::lemma_growth(n + 4);
    precision::lemma_growth(n + 5);
    let z = precision::sum_of(precision::sizes(terms), n);
    let (ea, tb) = (e * a, t * b);
    assert(5 as real * e * a == 5 as real * ea && 2 as real * t * b == 2 as real * tb && ea
        >= 0 as real && tb >= 0 as real) by (nonlinear_arith)
        requires
            ea == e * a,
            tb == t * b,
            a >= 0 as real,
            b >= 0 as real,
            e > 0 as real,
            t > 0 as real,
    ;
    assert(c * z <= k * a + 5 as real * (k * ea) + 2 as real * (k * tb)) by (nonlinear_arith)
        requires
            0 as real <= c,
            c <= k,
            0 as real <= z,
            z <= a + 5 as real * ea + 2 as real * tb,
    {
        assert(c * z <= k * z);
        assert(k * z <= k * (a + 5 as real * ea + 2 as real * tb));
    }
    assert(k * ea * 1_000 as real <= ea && k * tb <= tb) by (nonlinear_arith)
        requires
            k * 1_000 as real <= 1 as real,
            0 as real <= k,
            ea >= 0 as real,
            tb >= 0 as real,
    ;
    assert((k + 6 as real * e) * a == k * a + 6 as real * ea) by (nonlinear_arith)
        requires
            ea == e * a,
    ;
}

/// A weighted square, computed with four roundings.
proof fn lemma_weighted_square(p: real, x: real, d: real, q: real, r: real, e: real, t: real)
    requires
        e > 0 as real,
        e * 4_503_599_627_370_496 as real == 1 as real,
        t > 0 as real,
        precision::size(d - x) <= e * precision::size(x),
        precision::size(q - p * d) <= e * precision::size(p * d) + t,
        precision::size(r - q * d) <= e * precision::size(q * d) + t,
    ensures
        precision::size(r - p * (x * x)) <= 5 as real * e * precision::size(p * (x * x)) + 2 as real
            * t * (precision::size(x) + 1 as real),
{
    let (sp, sx, sd, sq) = (
        precision::size(p),
        precision::size(x),
        precision::size(d),
        precision::size(q),
    );
    precision::lemma_product_size(p, d);
    precision::lemma_product_size(q, d);
    precision::lemma_product_size(p, x * x);
    precision::lemma_product_size(x, x);
    let s = sp * (sx * sx);
    let es = e * s;
    let tx = t * sx;
    assert(s >= 0 as real && es >= 0 as real && tx >= 0 as real) by (nonlinear_arith)
        requires
            s == sp * (sx * sx),
            es == e * s,
            tx == t * sx,
            sp >= 0 as real,
            sx >= 0 as real,
            e > 0 as real,
            t > 0 as real,
    {
        assert(sx * sx >= 0 as real);
    }
    let ex = e * sx;
    assert(ex * 4_503_599_627_370_496 as real == sx) by (nonlinear_arith)
        requires
            ex == e * sx,
            e * 4_503_599_627_370_496 as real == 1 as real,
    ;
    // The deviation.
    let u = precision::size(d - x);
    let v = precision::size(d + x);
    precision::lemma_product_size(d - x, d + x);
    assert((d - x) * (d + x) == d * d - x * x) by (nonlinear_arith);
    precision::lemma_product_size(p, d * d - x * x);
    assert(p * (d * d - x * x) == p * (d * d) - p * (x * x)) by (nonlinear_arith);
    let uv = u * v;
    assert(uv * 1_000 as real <= 2_001 as real * (ex * sx)) by (nonlinear_arith)
        requires
            uv == u * v,
            0 as real <= u,
            u <= ex,
            0 as real <= v,
            v * 1_000 as real <= 2_001 as real * sx,
    {
        assert(u * v <= ex * v);
        assert(ex * (v * 1_000 as real) <= ex * (2_001 as real * sx));
    }
    assert(sp * uv * 1_000 as real <= 2_001 as real * es) by (nonlinear_arith)
        requires
            uv * 1_000 as real <= 2_001 as real * (ex * sx),
            ex == e * sx,
            es == e * s,
            s == sp * (sx * sx),
            sp >= 0 as real,
    {
        assert(sp * (uv * 1_000 as real) <= sp * (2_001 as real * (ex * sx)));
        assert(sp * (ex * sx) == e * (sp * (sx * sx)));
    }
    // The first product.
    let y = precision::size(q - p * d);
    precision::lemma_product_size(q - p * d, d);
    assert((q - p * d) * d == q * d - p * (d * d)) by (nonlinear_arith);
    let pdd = (sp * sd) * sd;
    assert(pdd * 1_000 as real <= 1_001 as real * s) by (nonlinear_arith)
        requires
            pdd == (sp * sd) * sd,
            s == sp * (sx * sx),
            sp >= 0 as real,
            0 as real <= sd,
            sd * 10_000 as real <= 10_001 as real * sx,
    {
        assert((sd * 10_000 as real) * (sd * 10_000 as real) <= (10_001 as real * sx) * (
        10_001 as real * sx));
        assert((sd * sd) * 100_000_000 as real <= 100_020_001 as real * (sx * sx));
        assert(sp * ((sd * sd) * 100_000_000 as real) <= sp * (100_020_001 as real * (sx * sx)));
        assert(pdd == sp * (sd * sd));
    }
    let epdd = e * pdd;
    assert(epdd * 1_000 as real <= 1_001 as real * es && epdd >= 0 as real) by (nonlinear_arith)
        requires
            epdd == e * pdd,
            es == e * s,
            pdd * 1_000 as real <= 1_001 as real * s,
            pdd == (sp * sd) * sd,
            sp >= 0 as real,
            sd >= 0 as real,
            e > 0 as real,
    {
        assert((sp * sd) * sd >= 0 as real);
        assert(e * (pdd * 1_000 as real) <= e * (1_001 as real * s));
    }
    let td = t * sd;
    assert(td * 1_000 as real <= 1_001 as real * tx && td >= 0 as real) by (nonlinear_arith)
        requires
            td == t * sd,
            tx == t * sx,
            0 as real <= sd,
            sd * 1_000 as real <= 1_001 as real * sx,
            t > 0 as real,
    ;
    assert(y * sd <= epdd + td) by (nonlinear_arith)
        requires
            y <= e * (sp * sd) + t,
            epdd == e * pdd,
            pdd == (sp * sd) * sd,
            td == t * sd,
            sd >= 0 as real,
    {
        assert(y * sd <= (e * (sp * sd) + t) * sd);
        assert((e * (sp * sd) + t) * sd == e * ((sp * sd) * sd) + t * sd);
    }
    // The second product.
    assert(sq * sd <= pdd + epdd + td) by (nonlinear_arith)
        requires
            sq <= sp * sd + e * (sp * sd) + t,
            epdd == e * pdd,
            pdd == (sp * sd) * sd,
            td == t * sd,
            sd >= 0 as real,
    {
        assert(sq * sd <= (sp * sd + e * (sp * sd) + t) * sd);
        assert((sp * sd + e * (sp * sd) + t) * sd == pdd + epdd + td);
    }
    let w = sq * sd;
    assert(e * w <= epdd + e * (epdd + td)) by (nonlinear_arith)
        requires
            w <= pdd + epdd + td,
            epdd == e * pdd,
            e > 0 as real,
    ;
    let rest = epdd + td;
    assert(e * rest * 1_000_000 as real <= rest) by (nonlinear_arith)
        requires
            rest >= 0 as real,
            e > 0 as real,
            e * 1_000_000 as real <= 1 as real,
    ;
    assert(5 as real * e * s == 5 as real * es && 2 as real * t * (sx + 1 as real) == 2 as real * tx
        + 2 as real * t) by (nonlinear_arith)
        requires
            es == e * s,
            tx == t * sx,
    ;
}

/// A trajectory without steps has no time average, and spends no defined fraction of
/// its time anywhere.
pub proof fn law_empty_trajectory(f: Seq<Double>, n: nat, i: int)
    requires
        0 <= i < n,
    ensures
        measures::time_average(Seq::empty(), f).is_nan(),
        measures::occupation(Seq::empty(), n)[i].is_nan(),
{
    reveal(Double::over_spec);
    double::lemma_natural_exact(0);
    order::lemma_sign(vector::nothing());
    order::lemma_sign(Double::natural(0));
    assert(0 * binary64::one() == 0) by (nonlinear_arith);
    assert(measures::observed(Seq::empty(), f) =~= Seq::empty());
}

} // verus!
