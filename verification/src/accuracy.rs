//! What holds of the library up to rounding.

use vstd::arithmetic::power2::*;
use vstd::prelude::*;

use crate::binary64;
use crate::chain;
use crate::double;
use crate::double::Double;
use crate::evolution;
use crate::laws;
use crate::matrix::{TransitionMatrix, MAX_STATES};
use crate::measures;
use crate::order;
use crate::precision;
use crate::vector;

verus! {

/// Whether all entries lie between zero and one.
pub open spec fn is_fractional(v: Seq<Double>) -> bool {
    forall|i: int|
        0 <= i < v.len() ==> Double::zero().at_most(#[trigger] v[i]) && v[i].at_most(Double::one())
}

/// The exact sum of the entries.
pub open spec fn mass(v: Seq<Double>) -> real {
    precision::sum_of(precision::numbers(v), v.len())
}

/// Whether the vector is a probability vector: its entries lie between zero and
/// one, and their sum differs from one by ten to the power -12 at most.
pub open spec fn is_probability_vector(v: Seq<Double>) -> bool {
    &&& is_fractional(v)
    &&& precision::size(mass(v) - 1 as real) * 1_000_000_000_000 as real <= 1 as real
}

/// Whether the vector is a probability vector up to ten to the power -13.
pub(crate) open spec fn is_normal(v: Seq<Double>) -> bool {
    &&& is_fractional(v)
    &&& precision::size(mass(v) - 1 as real) * 10_000_000_000_000 as real <= 1 as real
}

/// An entry between zero and one, as a real.
pub(crate) proof fn lemma_fractional(x: Double)
    requires
        Double::zero().at_most(x),
        x.at_most(Double::one()),
    ensures
        x.is_finite(),
        x.value() >= 0,
        precision::number(x) >= 0 as real,
        precision::number(x) <= 1 as real,
{
    order::lemma_sign(x);
    double::lemma_one();
    precision::lemma_number_constants();
    precision::lemma_number_order(Double::zero(), x);
    precision::lemma_number_order(x, Double::one());
    binary64::lemma_scaled_order(x.magnitude(), Double::one().magnitude());
}

/// The sign of a finite number, as a real.
pub(crate) proof fn lemma_number_sign(x: Double)
    ensures
        x.value() >= 0 <==> precision::number(x) >= 0 as real,
        x.value() == 0 <==> precision::number(x) == 0 as real,
{
    order::lemma_sign(Double::zero());
    precision::lemma_number_constants();
    precision::lemma_number_order(Double::zero(), x);
}

/// A finite sum of numbers not below zero is not below any of them.
pub(crate) proof fn lemma_sum_covers(start: Double, terms: Seq<Double>, j: int)
    requires
        start.is_zero(),
        forall|i: int| 0 <= i < terms.len() ==> order::not_below_zero(#[trigger] terms[i]),
        vector::sum_from(start, terms).is_finite(),
    ensures
        vector::sum_from(start, terms).value() >= 0,
        0 <= j < terms.len() ==> terms[j].is_finite() && 0 <= terms[j].value()
            <= vector::sum_from(start, terms).value(),
    decreases terms.len(),
{
    order::lemma_sign(start);
    order::lemma_sign(Double::zero());
    if terms.len() > 0 {
        let (first, x) = (terms.drop_last(), terms.last());
        let s = vector::sum_from(start, first);
        let r = s.plus(x);
        precision::lemma_plus_finite_terms(s, x);
        assert forall|i: int| 0 <= i < first.len() implies order::not_below_zero(
            #[trigger] first[i],
        ) by {
            assert(first[i] == terms[i]);
        }
        lemma_sum_covers(start, first, j);
        assert(order::not_below_zero(terms[terms.len() - 1]));
        order::lemma_sign(x);
        order::lemma_plus_order(s, Double::zero(), s, x);
        order::lemma_plus_zero(s, Double::zero());
        order::lemma_plus_order(Double::zero(), x, s, x);
        order::lemma_plus_commutes(Double::zero(), x);
        order::lemma_plus_zero(x, Double::zero());
        if 0 <= j < first.len() {
            assert(first[j] == terms[j]);
        }
    }
}

/// The error of a sum of few numbers not below zero.
pub(crate) proof fn lemma_few_error(start: Double, terms: Seq<Double>)
    requires
        start.is_zero(),
        terms.len() <= MAX_STATES,
        forall|i: int| 0 <= i < terms.len() ==> order::not_below_zero(#[trigger] terms[i]),
        vector::sum_from(start, terms).is_finite(),
    ensures
        forall|i: int|
            0 <= i < terms.len() ==> (#[trigger] terms[i]).is_finite() && precision::number(
                terms[i],
            ) >= 0 as real,
        mass(terms) >= 0 as real,
        precision::size(precision::number(vector::sum_from(start, terms)) - mass(terms))
            <= 64 as real * (precision::eps() * mass(terms)),
{
    let n = terms.len();
    precision::lemma_nonzero(terms);
    precision::lemma_sum_error(start, terms);
    precision::lemma_eps();
    assert forall|i: int| 0 <= i < n implies (#[trigger] terms[i]).is_finite()
        && precision::number(terms[i]) >= 0 as real by {
        order::lemma_sign(terms[i]);
        lemma_number_sign(terms[i]);
    }
    let (f, g) = (precision::numbers(terms), precision::sizes(terms));
    assert forall|i: int| 0 <= i < n implies #[trigger] g(i) == f(i) by {
        assert(precision::number(terms[i]) >= 0 as real);
    }
    precision::lemma_sum_same(g, f, n);
    precision::lemma_growth(precision::nonzero(terms));
    let (c, a) = (precision::nonzero(terms) as real, mass(terms));
    let (e, g) = (precision::eps(), precision::growth(precision::nonzero(terms)));
    assert(g * a <= 64 as real * (e * a)) by (nonlinear_arith)
        requires
            g == c * e,
            c <= 64 as real,
            a >= 0 as real,
            e > 0 as real,
    {
        assert(c * (e * a) <= 64 as real * (e * a));
    }
}

/// A vector without entries below zero, divided by its sum, is a distribution.
pub(crate) proof fn lemma_normalized(v: Seq<Double>)
    requires
        0 < v.len() <= MAX_STATES,
        forall|i: int| 0 <= i < v.len() ==> order::not_below_zero(#[trigger] v[i]),
        vector::total(v).is_finite(),
        !vector::total(v).is_zero(),
    ensures
        is_normal(evolution::normalized(v)),
        precision::number(vector::total(v)) > 0 as real,
        forall|i: int|
            0 <= i < v.len() ==> precision::number(#[trigger] v[i]) <= precision::number(
                vector::total(v),
            ),
        forall|i: int|
            0 <= i < v.len() ==> precision::size(
                precision::number(#[trigger] evolution::normalized(v)[i]) - precision::number(v[i])
                    / precision::number(vector::total(v)),
            ) <= precision::eps() + precision::tiny(),
{
    let n = v.len();
    let q = evolution::normalized(v);
    let sum = vector::total(v);
    let s = precision::number(sum);
    let (e, t) = (precision::eps(), precision::tiny());
    order::lemma_sign(vector::nothing());
    lemma_few_error(vector::nothing(), v);
    lemma_sum_covers(vector::nothing(), v, 0);
    order::lemma_sign(sum);
    lemma_number_sign(sum);
    precision::lemma_eps();
    precision::lemma_tiny();
    let f = precision::numbers(v);
    let w = 1 as real / s;
    assert(w > 0 as real && w * s == 1 as real) by (nonlinear_arith)
        requires
            w == 1 as real / s,
            s > 0 as real,
    ;
    let shares = |i: int| w * f(i);
    let errors = |i: int| e * shares(i) + t;
    assert forall|i: int| 0 <= i < n implies {
        &&& Double::zero().at_most(#[trigger] q[i])
        &&& q[i].at_most(Double::one())
        &&& precision::size(precision::number(q[i]) - shares(i)) <= errors(i)
        &&& precision::number(v[i]) <= s
        &&& shares(i) == precision::number(v[i]) / s
        &&& shares(i) <= 1 as real
    } by {
        lemma_sum_covers(vector::nothing(), v, i);
        order::lemma_ratio(v[i], sum);
        precision::lemma_over_error(v[i], sum);
        precision::lemma_number_order(v[i], sum);
        let x = precision::number(v[i]);
        assert(x / s == w * x && w * x <= 1 as real) by (nonlinear_arith)
            requires
                w == 1 as real / s,
                w > 0 as real,
                w * s == 1 as real,
                s > 0 as real,
                x <= s,
        ;
    }
    assert forall|i: int| 0 <= i < n implies precision::size(
        precision::number(#[trigger] q[i]) - precision::number(v[i]) / s,
    ) <= e + t by {
        let x = shares(i);
        assert(q[i].at_most(Double::one()));
        assert(e * x <= e) by (nonlinear_arith)
            requires
                x <= 1 as real,
                e > 0 as real,
        ;
    }
    assert forall|i: int| 0 <= i < n implies precision::number(#[trigger] v[i]) <= s by {
        assert(q[i].at_most(Double::one()));
    }
    // The exact sums.
    let m = mass(v);
    let share = precision::sum_of(shares, n);
    precision::lemma_sum_scale(f, w, shares, n);
    let g = precision::numbers(q);
    assert forall|i: int| 0 <= i < n implies precision::size(#[trigger] g(i) - shares(i))
        <= errors(i) by {
        assert(q[i].at_most(Double::one()));
    }
    precision::lemma_sum_difference(g, shares, errors, n);
    let (parts, units) = (|i: int| e * shares(i), |i: int| t);
    precision::lemma_sum_scale(shares, e, parts, n);
    precision::lemma_sum_equal(units, t, n);
    precision::lemma_sum_plus(parts, units, errors, n);
    assert(n as real * t <= 64 as real * t) by (nonlinear_arith)
        requires
            n as real <= 64 as real,
            t > 0 as real,
    ;
    // The sum of the exact shares is near one.
    let d = s - m;
    assert(share == w * m);
    assert(1 as real - share == w * d) by (nonlinear_arith)
        requires
            share == w * m,
            w * s == 1 as real,
            d == s - m,
    ;
    let bound = 64 as real * (e * m);
    assert(precision::size(w * d) <= w * bound) by {
        precision::lemma_product_size(w, d);
        let z = precision::size(d);
        assert(w * z <= w * bound) by (nonlinear_arith)
            requires
                z <= bound,
                w > 0 as real,
        ;
    }
    assert(w * bound == 64 as real * (e * share)) by (nonlinear_arith)
        requires
            share == w * m,
            bound == 64 as real * (e * m),
    ;
    let es = e * share;
    assert(share == 4_503_599_627_370_496 as real * es) by (nonlinear_arith)
        requires
            es == e * share,
            e * 4_503_599_627_370_496 as real == 1 as real,
    ;
    assert(precision::size(mass(q) - share) <= es + 64 as real * t);
    assert(precision::size(1 as real - share) <= 64 as real * es);
}

/// The tolerance of the power iteration, as a real.
proof fn lemma_tolerance()
    ensures
        precision::number(Double { bits: evolution::TOLERANCE_BITS }) * 999_000_000_000 as real
            <= 1 as real,
        (Double { bits: evolution::TOLERANCE_BITS }).is_finite(),
        !(Double { bits: evolution::TOLERANCE_BITS }).is_negative(),
{
    let tol = Double { bits: evolution::TOLERANCE_BITS };
    laws::law_constants();
    precision::lemma_number(tol);
    precision::lemma_tiny();
    precision::lemma_eps();
    lemma_pow2_pos(1074);
    let (o, t) = (binary64::one() as real, precision::tiny());
    let den = 1_000_000_000_000 as real;
    let x = o / den;
    assert(x * den == o) by (nonlinear_arith)
        requires
            x == o / den,
            den == 1_000_000_000_000 as real,
    ;
    precision::lemma_fraction_error(binary64::one(), 1_000_000_000_000, x);
    let y = tol.value() as real;
    let e = precision::eps();
    assert(y <= x + e * x + 1 as real);
    assert(y * t <= (x + e * x + 1 as real) * t) by (nonlinear_arith)
        requires
            y <= x + e * x + 1 as real,
            t > 0 as real,
    ;
    assert((x + e * x + 1 as real) * t == x * t + e * (x * t) + t) by (nonlinear_arith);
    let z = x * t;
    assert(z * den == 1 as real) by (nonlinear_arith)
        requires
            z == x * t,
            x * den == o,
            t * o == 1 as real,
    ;
    assert(e * z * 1_000_000_000_000 as real * 4_503_599_627_370_496 as real == 1 as real)
        by (nonlinear_arith)
        requires
            e * 4_503_599_627_370_496 as real == 1 as real,
            z * 1_000_000_000_000 as real == 1 as real,
    ;
}

/// Two distributions that are close by their computed distance are close.
proof fn lemma_close(a: Seq<Double>, b: Seq<Double>)
    requires
        a.len() == b.len(),
        a.len() <= MAX_STATES,
        vector::l1_distance(a, b).less(Double { bits: evolution::TOLERANCE_BITS }),
    ensures
        forall|i: int| 0 <= i < a.len() ==> (#[trigger] a[i]).is_finite(),
        forall|i: int| 0 <= i < b.len() ==> (#[trigger] b[i]).is_finite(),
        precision::sum_of(
            |i: int| precision::size(precision::number(a[i]) - precision::number(b[i])),
            a.len(),
        ) * 990_000_000_000 as real <= 1 as real,
{
    let n = a.len();
    let d = vector::distances(a, b);
    let sum = vector::total(d);
    let tol = Double { bits: evolution::TOLERANCE_BITS };
    order::lemma_sign(vector::nothing());
    assert forall|i: int| 0 <= i < n implies order::not_below_zero(#[trigger] d[i]) by {
        order::lemma_abs_sign(a[i].minus(b[i]));
    }
    laws::lemma_sum_sign(vector::nothing(), d);
    lemma_tolerance();
    order::lemma_sign(sum);
    binary64::lemma_scaled_order(sum.magnitude(), tol.magnitude());
    assert(sum.is_finite());
    precision::lemma_number_order(sum, tol);
    lemma_few_error(vector::nothing(), d);
    assert forall|i: int| 0 <= i < n implies (#[trigger] a[i]).is_finite() && b[i].is_finite() by {
        assert(d[i].is_finite());
        order::lemma_abs_sign(a[i].minus(b[i]));
        precision::lemma_plus_finite_terms(a[i], b[i].negated());
        order::lemma_signed(!b[i].is_negative(), b[i].magnitude());
    }
    assert forall|i: int| 0 <= i < n implies (#[trigger] b[i]).is_finite() by {
        assert(a[i].is_finite());
    }
    // Each distance is computed with a small relative error.
    let e = precision::eps();
    precision::lemma_eps();
    let gaps = |i: int| precision::size(precision::number(a[i]) - precision::number(b[i]));
    let f = precision::numbers(d);
    let errors = |i: int| e * gaps(i);
    assert forall|i: int| 0 <= i < n implies precision::size(#[trigger] f(i) - gaps(i))
        <= errors(i) by {
        assert(d[i].is_finite() && a[i].is_finite());
        order::lemma_abs_sign(a[i].minus(b[i]));
        precision::lemma_minus_error(a[i], b[i]);
        precision::lemma_number_abs(a[i].minus(b[i]));
    }
    precision::lemma_sum_difference(f, gaps, errors, n);
    precision::lemma_sum_scale(gaps, e, errors, n);
    precision::lemma_sum_bounds(gaps, n, 0);
    let (g, m) = (precision::sum_of(gaps, n), mass(d));
    let (eg, em) = (e * g, e * m);
    assert(g == 4_503_599_627_370_496 as real * eg) by (nonlinear_arith)
        requires
            eg == e * g,
            e * 4_503_599_627_370_496 as real == 1 as real,
    ;
    assert(m == 4_503_599_627_370_496 as real * em) by (nonlinear_arith)
        requires
            em == e * m,
            e * 4_503_599_627_370_496 as real == 1 as real,
    ;
}

/// Zeros and numbers that are none add up to zero or to none.
proof fn lemma_nothing_adds_up(start: Double, terms: Seq<Double>)
    requires
        start.is_zero(),
        forall|i: int| 0 <= i < terms.len() ==> (#[trigger] terms[i]).is_zero() || terms[i].is_nan(),
    ensures
        vector::sum_from(start, terms).is_zero() || vector::sum_from(start, terms).is_nan(),
    decreases terms.len(),
{
    if terms.len() > 0 {
        let (first, x) = (terms.drop_last(), terms.last());
        assert forall|i: int| 0 <= i < first.len() implies (#[trigger] first[i]).is_zero()
            || first[i].is_nan() by {
            assert(first[i] == terms[i]);
        }
        lemma_nothing_adds_up(start, first);
        let s = vector::sum_from(start, first);
        assert(terms[terms.len() - 1].is_zero() || x.is_nan());
        if x.is_zero() {
            order::lemma_plus_zero(s, x);
            order::lemma_sign(s);
            order::lemma_sign(s.plus(x));
        } else {
            reveal(Double::plus_spec);
        }
    }
}

/// What the sum of a vector was, where the vector divided by it is finite and the
/// sum is not zero.
proof fn lemma_divided(v: Seq<Double>)
    requires
        0 < v.len() <= MAX_STATES,
        forall|i: int| 0 <= i < v.len() ==> order::not_below_zero(#[trigger] v[i]),
        forall|i: int|
            0 <= i < v.len() ==> (#[trigger] evolution::normalized(v)[i]).is_finite(),
        !vector::total(v).equals(Double::zero()),
    ensures
        vector::total(v).is_finite() || forall|i: int|
            0 <= i < v.len() ==> (#[trigger] evolution::normalized(v)[i]).is_zero(),
        !vector::total(v).is_zero(),
{
    let sum = vector::total(v);
    let q = evolution::normalized(v);
    reveal(Double::over_spec);
    order::lemma_sign(sum);
    assert(q[0].is_finite());
    if !sum.is_finite() {
        assert forall|i: int| 0 <= i < v.len() implies (#[trigger] q[i]).is_zero() by {
            order::lemma_signed(v[i].is_negative() != sum.is_negative(), 0);
            order::lemma_signed(v[i].is_negative() != sum.is_negative(), binary64::INFINITE as nat);
        }
    }
}

/// Equal shares are a distribution.
pub(crate) proof fn lemma_equal_shares(tm: TransitionMatrix)
    requires
        tm.wf(),
        tm.n > 0,
    ensures
        is_normal(evolution::iterate(tm, 0)),
{
    let n = tm.n as nat;
    let v = evolution::iterate(tm, 0);
    let whole = Double::natural(n);
    let share = Double::one().over(whole);
    precision::lemma_number_natural(n);
    precision::lemma_number_constants();
    precision::lemma_number_order(Double::one(), whole);
    double::lemma_one();
    order::lemma_sign(Double::one());
    lemma_pow2_pos(1074);
    order::lemma_ratio(Double::one(), whole);
    precision::lemma_over_error(Double::one(), whole);
    precision::lemma_sum_equal(precision::numbers(v), precision::number(share), n);
    precision::lemma_eps();
    precision::lemma_tiny();
    let (c, x, q) = (n as real, 1 as real / n as real, precision::number(share));
    let (e, t) = (precision::eps(), precision::tiny());
    assert(x * c == 1 as real) by (nonlinear_arith)
        requires
            x == 1 as real / c,
            c >= 1 as real,
    ;
    let d = q - x;
    assert(c * q - 1 as real == c * d) by (nonlinear_arith)
        requires
            d == q - x,
            x * c == 1 as real,
    ;
    precision::lemma_product_size(c, d);
    let z = precision::size(d);
    assert(c * z <= e + 64 as real * t) by (nonlinear_arith)
        requires
            z <= e * x + t,
            x * c == 1 as real,
            1 as real <= c,
            c <= 64 as real,
            t > 0 as real,
    ;
}

/// Before and after the step in which the power iteration converges there is a
/// distribution, and the sum that the step divides by is a number above zero.
proof fn lemma_converged(tm: TransitionMatrix, k: nat)
    requires
        tm.wf(),
        tm.n > 0,
        laws::entries_nonnegative(tm),
        evolution::converges_at(tm, k),
    ensures
        is_normal(evolution::iterate(tm, (k - 1) as nat)),
        is_normal(evolution::iterate(tm, k)),
        vector::total(evolution::advanced(tm, evolution::iterate(tm, (k - 1) as nat))).is_finite(),
        !vector::total(evolution::advanced(tm, evolution::iterate(tm, (k - 1) as nat))).is_zero(),
        forall|i: int|
            0 <= i < tm.n ==> order::not_below_zero(
                #[trigger] evolution::advanced(tm, evolution::iterate(tm, (k - 1) as nat))[i],
            ),
{
    let n = tm.n as nat;
    let l = (k - 1) as nat;
    let (before, after) = (evolution::iterate(tm, l), evolution::iterate(tm, k));
    evolution::lemma_iterate_len(tm, l);
    evolution::lemma_iterate_len(tm, k);
    assert(evolution::is_close(tm, k));
    lemma_close(after, before);
    let moved = evolution::advanced(tm, before);
    laws::lemma_iterate_sign(tm, l);
    laws::lemma_advanced_sign(tm, before);
    assert(!evolution::vanishes(tm, k));
    assert(after == evolution::normalized(moved));
    lemma_divided(moved);
    if l == 0 {
        lemma_equal_shares(tm);
    } else {
        let earlier = evolution::iterate(tm, (l - 1) as nat);
        evolution::lemma_iterate_len(tm, (l - 1) as nat);
        let x = evolution::advanced(tm, earlier);
        laws::lemma_iterate_sign(tm, (l - 1) as nat);
        laws::lemma_advanced_sign(tm, earlier);
        assert(!evolution::vanishes(tm, l));
        assert(before == evolution::normalized(x));
        lemma_divided(x);
        if vector::total(x).is_finite() {
            lemma_normalized(x);
        } else {
            lemma_zeros_vanish(tm, before);
            assert(after[0].is_finite());
            reveal(Double::over_spec);
        }
    }
    if !vector::total(moved).is_finite() {
        // All mass would have been lost in one step.
        let gaps = |i: int|
            precision::size(precision::number(after[i]) - precision::number(before[i]));
        let f = precision::numbers(before);
        assert forall|i: int| 0 <= i < n implies #[trigger] f(i) <= gaps(i) by {
            assert(after[i].is_zero());
            order::lemma_sign(after[i]);
            lemma_number_sign(after[i]);
        }
        precision::lemma_sum_order(f, gaps, n);
    } else {
        lemma_normalized(moved);
    }
}

/// Where there is no mass, a move brings none.
proof fn lemma_zeros_vanish(tm: TransitionMatrix, v: Seq<Double>)
    requires
        v.len() == tm.n,
        forall|i: int| 0 <= i < v.len() ==> (#[trigger] v[i]).is_zero(),
    ensures
        vector::total(evolution::advanced(tm, v)).is_zero() || vector::total(
            evolution::advanced(tm, v),
        ).is_nan(),
{
    let moved = evolution::advanced(tm, v);
    assert forall|j: int| 0 <= j < moved.len() implies (#[trigger] moved[j]).is_zero()
        || moved[j].is_nan() by {
        let terms = evolution::flow(tm, v, j);
        assert forall|i: int| 0 <= i < terms.len() implies (#[trigger] terms[i]).is_zero()
            || terms[i].is_nan() by {
            order::lemma_times_sign(v[i], tm.at(i, j));
        }
        lemma_nothing_adds_up(Double::zero(), terms);
    }
    lemma_nothing_adds_up(vector::nothing(), moved);
}

/// The computed sum of a distribution is near one.
proof fn lemma_total_near_one(v: Seq<Double>)
    requires
        v.len() <= MAX_STATES,
        is_normal(v),
    ensures
        vector::total(v).is_finite(),
        precision::size(precision::number(vector::total(v)) - 1 as real) * 1_000_000_000_000 as real
            <= 1 as real,
{
    let n = v.len();
    order::lemma_sign(vector::nothing());
    assert forall|i: int| 0 <= i < n implies (#[trigger] v[i]).is_finite() && order::not_below_zero(
        v[i],
    ) && precision::number(v[i]) >= 0 as real by {
        lemma_fractional(v[i]);
        order::lemma_sign(v[i]);
    }
    precision::lemma_sum_same(precision::sizes(v), precision::numbers(v), n);
    precision::lemma_nonzero(v);
    precision::lemma_sum_finite(vector::nothing(), v);
    lemma_few_error(vector::nothing(), v);
    precision::lemma_eps();
    let (e, m) = (precision::eps(), mass(v));
    let em = e * m;
    assert(m == 4_503_599_627_370_496 as real * em) by (nonlinear_arith)
        requires
            em == e * m,
            e * 4_503_599_627_370_496 as real == 1 as real,
    ;
}

/// The stationary distribution of a chain without entries below zero is a
/// probability vector: its entries are numbers from zero to one, and their sum,
/// exact or computed, differs from one by ten to the power -12 at most.
pub proof fn law_stationary_is_a_distribution(tm: TransitionMatrix)
    requires
        tm.wf(),
        laws::entries_nonnegative(tm),
        evolution::stationary(tm) is Some,
    ensures
        is_probability_vector(evolution::stationary(tm).unwrap()),
        vector::total(evolution::stationary(tm).unwrap()).is_finite(),
        precision::size(
            precision::number(vector::total(evolution::stationary(tm).unwrap())) - 1 as real,
        ) * 1_000_000_000_000 as real <= 1 as real,
{
    let k = choose|k: nat| evolution::converges_at(tm, k);
    lemma_converged(tm, k);
    evolution::lemma_iterate_len(tm, k);
    lemma_total_near_one(evolution::iterate(tm, k));
}

/// Whether the computed sums of all rows differ from one by ten to the power -12
/// at most.
pub open spec fn rows_near_one(tm: TransitionMatrix) -> bool {
    forall|i: int|
        0 <= i < tm.n ==> {
            &&& (#[trigger] chain::cumulative(tm, i, tm.n as int)).is_finite()
            &&& precision::size(
                precision::number(chain::cumulative(tm, i, tm.n as int)) - 1 as real,
            ) * 1_000_000_000_000 as real <= 1 as real
        }
}

/// The entry of the matrix, as a real.
pub(crate) open spec fn entry(tm: TransitionMatrix, i: int, j: int) -> real {
    precision::number(tm.at(i, j))
}

/// The exact sum of row `i`.
pub(crate) open spec fn row_mass(tm: TransitionMatrix, i: int) -> real {
    precision::sum_of(|j: int| entry(tm, i, j), tm.n as nat)
}

/// The exact flow to state `j`.
spec fn exact_flow(tm: TransitionMatrix, v: Seq<Double>, j: int) -> real {
    precision::sum_of(|i: int| precision::number(v[i]) * entry(tm, i, j), tm.n as nat)
}

/// A row whose computed sum is near one has an exact sum near one.
pub(crate) proof fn lemma_row(tm: TransitionMatrix, i: int)
    requires
        tm.wf(),
        0 <= i < tm.n,
        laws::entries_nonnegative(tm),
        rows_near_one(tm),
    ensures
        forall|j: int|
            0 <= j < tm.n ==> (#[trigger] tm.at(i, j)).is_finite() && 0 as real <= entry(tm, i, j)
                && entry(tm, i, j) <= 2 as real,
        precision::size(row_mass(tm, i) - 1 as real) * 900_000_000_000 as real <= 1 as real,
{
    let n = tm.n as nat;
    let row = tm.data@[i]@.take(n as int);
    order::lemma_sign(Double::zero());
    assert forall|j: int| 0 <= j < n implies order::not_below_zero(#[trigger] row[j]) by {
        assert(row[j] == tm.at(i, j));
    }
    assert(chain::cumulative(tm, i, n as int).is_finite());
    lemma_few_error(Double::zero(), row);
    let entries = |j: int| entry(tm, i, j);
    assert forall|j: int| 0 <= j < n implies #[trigger] precision::numbers(row)(j) == entries(
        j,
    ) by {
        assert(row[j] == tm.at(i, j));
    }
    precision::lemma_sum_same(precision::numbers(row), entries, n);
    precision::lemma_eps();
    let (e, m) = (precision::eps(), mass(row));
    let em = e * m;
    assert(m == 4_503_599_627_370_496 as real * em) by (nonlinear_arith)
        requires
            em == e * m,
            e * 4_503_599_627_370_496 as real == 1 as real,
    ;
    assert forall|j: int| 0 <= j < n implies #[trigger] entries(j) >= 0 as real by {
        assert(row[j] == tm.at(i, j));
        assert(row[j].is_finite());
    }
    assert forall|j: int| 0 <= j < n implies (#[trigger] tm.at(i, j)).is_finite() && 0 as real
        <= entry(tm, i, j) && entry(tm, i, j) <= 2 as real by {
        assert(row[j] == tm.at(i, j));
        assert(row[j].is_finite());
        precision::lemma_sum_bounds(entries, n, j);
        assert(entries(j) == entry(tm, i, j));
    }
}

/// The error of one move of a distribution.
proof fn lemma_advanced_error(tm: TransitionMatrix, v: Seq<Double>, j: int)
    requires
        tm.wf(),
        0 <= j < tm.n,
        v.len() == tm.n,
        laws::entries_nonnegative(tm),
        rows_near_one(tm),
        is_normal(v),
    ensures
        evolution::advanced(tm, v)[j].is_finite(),
        precision::size(
            precision::number(evolution::advanced(tm, v)[j]) - exact_flow(tm, v, j),
        ) * 5_000_000_000_000 as real <= 1 as real,
{
    let n = tm.n as nat;
    let terms = evolution::flow(tm, v, j);
    let (e, t) = (precision::eps(), precision::tiny());
    precision::lemma_eps();
    precision::lemma_tiny();
    let exact = |i: int| precision::number(v[i]) * entry(tm, i, j);
    let errors = |i: int| e * exact(i) + t;
    let twice = |i: int| 2 as real * precision::numbers(v)(i);
    assert forall|i: int| 0 <= i < n implies {
        &&& (#[trigger] terms[i]).is_finite()
        &&& order::not_below_zero(terms[i])
        &&& precision::number(terms[i]) >= 0 as real
        &&& precision::size(precision::number(terms[i]) - exact(i)) <= errors(i)
        &&& 0 as real <= exact(i)
        &&& exact(i) <= twice(i)
    } by {
        lemma_row(tm, i);
        lemma_fractional(v[i]);
        let x = tm.at(i, j);
        let (a, b) = (precision::number(v[i]), precision::number(x));
        assert(0 as real <= a * b && a * b <= 2 as real * a) by (nonlinear_arith)
            requires
                0 as real <= a,
                a <= 1 as real,
                0 as real <= b,
                b <= 2 as real,
        ;
        precision::lemma_times_finite(v[i], x);
        precision::lemma_times_error(v[i], x);
        order::lemma_sign(v[i]);
        assert(order::not_below_zero(x));
        order::lemma_times_nonnegative(v[i], x);
        order::lemma_sign(terms[i]);
        lemma_number_sign(terms[i]);
    }
    let f = precision::numbers(terms);
    let x = precision::sum_of(exact, n);
    assert forall|i: int| 0 <= i < n implies precision::size(#[trigger] f(i) - exact(i))
        <= errors(i) by {
        assert(terms[i].is_finite());
    }
    assert forall|i: int| 0 <= i < n implies #[trigger] exact(i) >= 0 as real && exact(i)
        <= twice(i) by {
        assert(terms[i].is_finite());
    }
    precision::lemma_sum_difference(f, exact, errors, n);
    precision::lemma_sum_order(exact, twice, n);
    precision::lemma_sum_scale(precision::numbers(v), 2 as real, twice, n);
    precision::lemma_sum_bounds(exact, n, 0);
    let (parts, units) = (|i: int| e * exact(i), |i: int| t);
    precision::lemma_sum_scale(exact, e, parts, n);
    precision::lemma_sum_equal(units, t, n);
    precision::lemma_sum_plus(parts, units, errors, n);
    assert(n as real * t <= 64 as real * t) by (nonlinear_arith)
        requires
            n as real <= 64 as real,
            t > 0 as real,
    ;
    assert(e * x <= 3 as real * e) by (nonlinear_arith)
        requires
            x <= 3 as real,
            e > 0 as real,
    ;
    let m = mass(terms);
    assert(m <= 4 as real);
    assert forall|i: int| 0 <= i < n implies #[trigger] precision::sizes(terms)(i) == f(i) by {
        assert(terms[i].is_finite());
    }
    precision::lemma_sum_same(precision::sizes(terms), f, n);
    precision::lemma_nonzero(terms);
    precision::lemma_sum_finite(Double::zero(), terms);
    order::lemma_sign(Double::zero());
    lemma_few_error(Double::zero(), terms);
    assert(e * m <= 4 as real * e) by (nonlinear_arith)
        requires
            m <= 4 as real,
            e > 0 as real,
    ;
}

/// The sum that a step divides by is near one.
proof fn lemma_step_sum(tm: TransitionMatrix, v: Seq<Double>)
    requires
        tm.wf(),
        v.len() == tm.n,
        laws::entries_nonnegative(tm),
        rows_near_one(tm),
        is_normal(v),
        forall|i: int|
            0 <= i < tm.n ==> order::not_below_zero(#[trigger] evolution::advanced(tm, v)[i]),
        vector::total(evolution::advanced(tm, v)).is_finite(),
    ensures
        precision::size(
            precision::number(vector::total(evolution::advanced(tm, v))) - 1 as real,
        ) * 50_000_000_000 as real <= 1 as real,
{
    let n = tm.n as nat;
    let moved = evolution::advanced(tm, v);
    let g = |i: int, j: int| precision::number(v[i]) * entry(tm, i, j);
    let f = precision::numbers(moved);
    let columns = |j: int| precision::sum_of(|i: int| g(i, j), n);
    let rows = |i: int| precision::sum_of(|j: int| g(i, j), n);
    let small = 1 as real / 5_000_000_000_000 as real;
    assert(small * 5_000_000_000_000 as real == 1 as real) by (nonlinear_arith)
        requires
            small == 1 as real / 5_000_000_000_000 as real,
    ;
    let errors = |j: int| small;
    assert forall|j: int| 0 <= j < n implies precision::size(#[trigger] f(j) - columns(j))
        <= errors(j) by {
        lemma_advanced_error(tm, v, j);
        let exact = |i: int| precision::number(v[i]) * entry(tm, i, j);
        precision::lemma_sum_same(exact, |i: int| g(i, j), n);
    }
    precision::lemma_sum_difference(f, columns, errors, n);
    precision::lemma_sum_equal(errors, small, n);
    assert(n as real * small <= 64 as real * small) by (nonlinear_arith)
        requires
            n as real <= 64 as real,
            small * 5_000_000_000_000 as real == 1 as real,
    ;
    precision::lemma_sum_swap(g, n, n);
    // Each row hands on nearly what it has.
    let h = precision::numbers(v);
    let tenth = 1 as real / 900_000_000_000 as real;
    assert(tenth * 900_000_000_000 as real == 1 as real) by (nonlinear_arith)
        requires
            tenth == 1 as real / 900_000_000_000 as real,
    ;
    let losses = |i: int| tenth * h(i);
    assert forall|i: int| 0 <= i < n implies precision::size(#[trigger] rows(i) - h(i))
        <= losses(i) by {
        lemma_row(tm, i);
        lemma_fractional(v[i]);
        let (a, r) = (h(i), row_mass(tm, i));
        let entries = |j: int| entry(tm, i, j);
        precision::lemma_sum_scale(entries, a, |j: int| g(i, j), n);
        let d = r - 1 as real;
        assert(a * r - a == a * d) by (nonlinear_arith)
            requires
                d == r - 1 as real,
        ;
        precision::lemma_product_size(a, d);
        let z = precision::size(d);
        assert(a * z <= tenth * a) by (nonlinear_arith)
            requires
                z <= tenth,
                a >= 0 as real,
        ;
    }
    precision::lemma_sum_difference(rows, h, losses, n);
    precision::lemma_sum_scale(h, tenth, losses, n);
    let m = mass(v);
    assert(tenth * m <= 2 as real * tenth) by (nonlinear_arith)
        requires
            m <= 2 as real,
            tenth * 900_000_000_000 as real == 1 as real,
    ;
    order::lemma_sign(vector::nothing());
    lemma_few_error(vector::nothing(), moved);
    precision::lemma_eps();
    let e = precision::eps();
    let x = mass(moved);
    assert(e * x <= 2 as real * e) by (nonlinear_arith)
        requires
            x <= 2 as real,
            e > 0 as real,
    ;
}

/// One more move changes no entry of the stationary distribution by ten to the
/// power -10, where no entry of the matrix is below zero and the rows add up to
/// one.
pub proof fn law_stationary_is_stationary(tm: TransitionMatrix, j: int)
    requires
        tm.wf(),
        laws::entries_nonnegative(tm),
        rows_near_one(tm),
        evolution::stationary(tm) is Some,
        0 <= j < tm.n,
    ensures
        evolution::advanced(tm, evolution::stationary(tm).unwrap())[j].is_finite(),
        precision::size(
            precision::number(evolution::advanced(tm, evolution::stationary(tm).unwrap())[j])
                - precision::number(evolution::stationary(tm).unwrap()[j]),
        ) * 10_000_000_000 as real <= 1 as real,
{
    let n = tm.n as nat;
    let k = choose|k: nat| evolution::converges_at(tm, k);
    let before = evolution::iterate(tm, (k - 1) as nat);
    let pi = evolution::iterate(tm, k);
    evolution::lemma_iterate_len(tm, (k - 1) as nat);
    evolution::lemma_iterate_len(tm, k);
    lemma_converged(tm, k);
    let moved = evolution::advanced(tm, before);
    assert(pi == evolution::normalized(moved));
    assert(evolution::is_close(tm, k));
    lemma_close(pi, before);
    lemma_normalized(moved);
    lemma_step_sum(tm, before);
    lemma_advanced_error(tm, before, j);
    lemma_advanced_error(tm, pi, j);
    // The two moves start from nearly the same place.
    let f = |i: int| precision::number(pi[i]) * entry(tm, i, j);
    let g = |i: int| precision::number(before[i]) * entry(tm, i, j);
    let gaps = |i: int| precision::size(precision::number(pi[i]) - precision::number(before[i]));
    let bounds = |i: int| 2 as real * gaps(i);
    assert forall|i: int| 0 <= i < n implies precision::size(#[trigger] f(i) - g(i)) <= bounds(
        i,
    ) by {
        lemma_row(tm, i);
        assert(tm.at(i, j).is_finite());
        let (a, b, p) = (precision::number(pi[i]), precision::number(before[i]), entry(tm, i, j));
        let d = a - b;
        assert(a * p - b * p == d * p) by (nonlinear_arith)
            requires
                d == a - b,
        ;
        precision::lemma_product_size(d, p);
        let z = precision::size(d);
        assert(z * p <= 2 as real * z) by (nonlinear_arith)
            requires
                z >= 0 as real,
                p <= 2 as real,
        ;
    }
    precision::lemma_sum_difference(f, g, bounds, n);
    precision::lemma_sum_scale(gaps, 2 as real, bounds, n);
    // Dividing by a sum near one changes little.
    let (x, s) = (precision::number(moved[j]), precision::number(vector::total(moved)));
    lemma_sum_covers_entry(moved, j);
    let q = x / s;
    let d = 1 as real - s;
    assert(q - x == q * d && 0 as real <= q && q <= 1 as real) by (nonlinear_arith)
        requires
            q == x / s,
            d == 1 as real - s,
            s > 0 as real,
            0 as real <= x,
            x <= s,
    ;
    precision::lemma_product_size(q, d);
    let z = precision::size(d);
    assert(q * z <= z) by (nonlinear_arith)
        requires
            q <= 1 as real,
            z >= 0 as real,
    ;
    precision::lemma_eps();
    precision::lemma_tiny();
    assert(pi[j] == evolution::normalized(moved)[j]);
}

/// An entry of a vector without entries below zero, against the sum.
proof fn lemma_sum_covers_entry(v: Seq<Double>, j: int)
    requires
        0 <= j < v.len(),
        forall|i: int| 0 <= i < v.len() ==> order::not_below_zero(#[trigger] v[i]),
        vector::total(v).is_finite(),
    ensures
        0 as real <= precision::number(v[j]),
        precision::number(v[j]) <= precision::number(vector::total(v)),
{
    order::lemma_sign(vector::nothing());
    lemma_sum_covers(vector::nothing(), v, j);
    lemma_number_sign(v[j]);
    precision::lemma_number_order(v[j], vector::total(v));
}

/// The variance of the state index under weights between zero and one.
pub(crate) proof fn lemma_index_variance(p: Seq<Double>)
    requires
        is_fractional(p),
        p.len() <= MAX_STATES,
    ensures
        Double::zero().at_most(vector::variance(p, vector::indices(p.len()))),
        vector::variance(p, vector::indices(p.len())).is_finite(),
        precision::number(vector::variance(p, vector::indices(p.len())))
            <= 1_000_000_000_000 as real,
{
    let n = p.len();
    let f = vector::indices(n);
    order::lemma_sign(vector::nothing());
    order::lemma_sign(Double::zero());
    assert forall|i: int| 0 <= i < n implies {
        &&& (#[trigger] p[i]).is_finite()
        &&& precision::size(precision::number(p[i])) <= 1 as real
        &&& f[i].is_finite()
        &&& precision::size(precision::number(f[i])) <= 64 as real
        &&& order::not_below_zero(p[i])
    } by {
        lemma_fractional(p[i]);
        order::lemma_sign(p[i]);
        precision::lemma_number_natural(i as nat);
    }
    let weighted = vector::products(p, f);
    assert forall|i: int| 0 <= i < n implies (#[trigger] weighted[i]).is_finite()
        && precision::size(precision::number(weighted[i])) <= 129 as real by {
        assert(p[i].is_finite());
        assert(1 as real * 64 as real == 64 as real) by (nonlinear_arith);
        precision::lemma_times_bound(p[i], f[i], 1 as real, 64 as real);
    }
    precision::lemma_sum_bound(vector::nothing(), weighted, 129 as real);
    assert(n as real * 129 as real <= 64 as real * 129 as real) by (nonlinear_arith)
        requires
            n as real <= 64 as real,
    ;
    let mean = vector::dot(p, f);
    let terms = vector::deviations(p, f, mean);
    assert forall|i: int| 0 <= i < n implies (#[trigger] terms[i]).is_finite()
        && precision::size(precision::number(terms[i])) <= 5_000_000_000 as real by {
        assert(p[i].is_finite());
        let d = f[i].minus(mean);
        precision::lemma_minus_bound(f[i], mean, 64 as real, 16_512 as real);
        assert(1 as real * 33_152 as real == 33_152 as real) by (nonlinear_arith);
        precision::lemma_times_bound(p[i], d, 1 as real, 33_152 as real);
        assert(66_305 as real * 33_152 as real == 2_198_143_360 as real) by (nonlinear_arith);
        precision::lemma_times_bound(p[i].times(d), d, 66_305 as real, 33_152 as real);
    }
    precision::lemma_sum_bound(vector::nothing(), terms, 5_000_000_000 as real);
    assert(n as real * 5_000_000_000 as real <= 64 as real * 5_000_000_000 as real)
        by (nonlinear_arith)
        requires
            n as real <= 64 as real,
    ;
    laws::law_variance_nonnegative(p, f);
    order::lemma_sign(vector::variance(p, f));
}

/// The budget safety margin of a chain without entries below zero is a number,
/// and it is not below zero.
pub proof fn law_margin_is_a_number(tm: TransitionMatrix, k: nat)
    requires
        tm.wf(),
        laws::entries_nonnegative(tm),
        evolution::stationary(tm) is Some,
        k <= chain::MARGIN_ITERATIONS,
    ensures
        Double::zero().at_most(
            chain::safety_margin(tm, evolution::stationary(tm).unwrap(), k),
        ),
        chain::safety_margin(tm, evolution::stationary(tm).unwrap(), k).is_finite(),
{
    let pi = evolution::stationary(tm).unwrap();
    laws::law_stationary_nearly_fixed(tm);
    law_stationary_is_a_distribution(tm);
    lemma_index_variance(pi);
    let v = vector::variance(pi, vector::indices(tm.n as nat));
    lemma_number_sign(v);
    order::lemma_sign(Double::zero());
    precision::lemma_sqrt_finite(v);
    precision::lemma_number_natural(k);
    let spread = v.sqrt();
    order::lemma_sqrt_sign(v);
    order::lemma_sign(spread);
    lemma_number_sign(spread);
    let (x, y) = (k as real, precision::number(spread));
    assert(0 as real <= x * y && x * y <= 1_000_000_000_000_000_000_000_000_000_000 as real)
        by (nonlinear_arith)
        requires
            0 as real <= x,
            x <= 1_000_000_000 as real,
            0 as real <= y,
            y <= 18_446_744_073_709_551_616 as real,
    ;
    precision::lemma_times_finite(Double::natural(k), spread);
    laws::law_margin_nonnegative(tm, pi, k);
    order::lemma_sign(chain::safety_margin(tm, pi, k));
}

/// A chain that starts mixed needs no safety margin.
pub proof fn law_no_margin_without_moves(tm: TransitionMatrix)
    requires
        tm.wf(),
        laws::entries_nonnegative(tm),
        evolution::stationary(tm) is Some,
    ensures
        chain::safety_margin(tm, evolution::stationary(tm).unwrap(), 0).is_zero(),
{
    let pi = evolution::stationary(tm).unwrap();
    laws::law_stationary_nearly_fixed(tm);
    law_stationary_is_a_distribution(tm);
    lemma_index_variance(pi);
    let v = vector::variance(pi, vector::indices(tm.n as nat));
    lemma_number_sign(v);
    order::lemma_sign(Double::zero());
    precision::lemma_sqrt_finite(v);
    precision::lemma_number_natural(0);
    lemma_number_sign(Double::natural(0));
    order::lemma_natural_sign(0);
    order::lemma_sign(Double::natural(0));
    order::lemma_times_sign(Double::natural(0), v.sqrt());
}

/// A stricter precision or a stricter confidence never needs fewer samples of a
/// chain without entries below zero, unless the product of the stricter parameters
/// vanishes and the variance is zero or the looser confidence infinite.
pub proof fn law_stricter_needs_more(
    tm: TransitionMatrix,
    eps: Double,
    delta: Double,
    stricter_eps: Double,
    stricter_delta: Double,
)
    requires
        tm.wf(),
        laws::entries_nonnegative(tm),
        evolution::stationary(tm) is Some,
        Double::zero().less(stricter_eps),
        stricter_eps.at_most(eps),
        Double::zero().less(stricter_delta),
        stricter_delta.at_most(delta),
        Double::zero().less(stricter_eps.times(stricter_eps).times(stricter_delta))
            || delta.is_finite() && Double::zero().less(
            vector::variance(evolution::stationary(tm).unwrap(), vector::indices(tm.n as nat)),
        ),
    ensures
        measures::sample_bound(
            evolution::stationary(tm).unwrap(),
            vector::indices(tm.n as nat),
            eps,
            delta,
        ).unwrap().at_most(
            measures::sample_bound(
                evolution::stationary(tm).unwrap(),
                vector::indices(tm.n as nat),
                stricter_eps,
                stricter_delta,
            ).unwrap(),
        ),
{
    let pi = evolution::stationary(tm).unwrap();
    laws::law_stationary_nearly_fixed(tm);
    law_stationary_is_a_distribution(tm);
    lemma_index_variance(pi);
    let v = vector::variance(pi, vector::indices(tm.n as nat));
    order::lemma_sign(Double::zero());
    order::lemma_sign(eps);
    order::lemma_sign(stricter_eps);
    lemma_product_is_a_number(stricter_eps, stricter_eps);
    lemma_product_is_a_number(eps, eps);
    let (s1, s2) = (eps.times(eps), stricter_eps.times(stricter_eps));
    let (x1, x2) = (s1.times(delta), s2.times(stricter_delta));
    order::lemma_times_order(stricter_eps, stricter_eps, eps, eps);
    order::lemma_sign(s2);
    order::lemma_times_sign(s2, stricter_delta);
    order::lemma_sign(x2);
    binary64::lemma_scaled_order(stricter_delta.magnitude(), delta.magnitude());
    order::lemma_sign(delta);
    order::lemma_sign(stricter_delta);
    lemma_product_is_a_number(s1, delta);
    lemma_product_is_a_number(s2, stricter_delta);
    order::lemma_times_order(s2, stricter_delta, s1, delta);
    lemma_quotient_is_a_number(v, x1);
    lemma_quotient_is_a_number(v, x2);
    laws::lemma_bound_order(v, eps, delta, stricter_eps, stricter_delta);
}

/// A product of numbers not below zero is a number, unless it is zero times
/// infinity.
proof fn lemma_product_is_a_number(a: Double, b: Double)
    requires
        Double::zero().at_most(a),
        !a.is_negative(),
        Double::zero().less(b),
        Double::zero().less(a) || b.is_finite(),
    ensures
        Double::zero().at_most(a.times(b)),
        !a.times(b).is_negative(),
{
    reveal(Double::times_spec);
    order::lemma_sign(a);
    order::lemma_sign(b);
    order::lemma_sign(Double::zero());
    order::lemma_times_sign(a, b);
    order::lemma_signed(false, binary64::INFINITE as nat);
    let num = binary64::scaled(a.magnitude()) * binary64::scaled(b.magnitude());
    binary64::lemma_nearest_bound(num, binary64::one());
    order::lemma_signed(false, binary64::nearest(num, binary64::one()));
    order::lemma_sign(a.times(b));
}

/// A finite number not below zero over another is a number, rounded up or not,
/// unless both are zero.
proof fn lemma_quotient_is_a_number(a: Double, b: Double)
    requires
        a.is_finite(),
        Double::zero().at_most(a),
        Double::zero().at_most(b),
        Double::zero().less(a) || Double::zero().less(b),
    ensures
        !a.over(b).is_nan(),
        !a.over(b).ceil().is_nan(),
{
    reveal(Double::over_spec);
    order::lemma_sign(a);
    order::lemma_sign(b);
    order::lemma_sign(Double::zero());
    let negative = a.is_negative() != b.is_negative();
    order::lemma_signed(negative, binary64::INFINITE as nat);
    order::lemma_signed(negative, 0);
    if a.is_finite() && b.is_finite() && !b.is_zero() {
        let (x, y) = (binary64::scaled(a.magnitude()), binary64::scaled(b.magnitude()));
        binary64::lemma_nearest_bound(x * binary64::one(), y);
        order::lemma_signed(negative, binary64::nearest(x * binary64::one(), y));
    }
    let q = a.over(b);
    reveal(Double::ceil_spec);
    let whole = binary64::scaled(q.magnitude()) / binary64::one();
    order::lemma_natural_sign(whole);
    order::lemma_natural_sign(whole + 1);
    order::lemma_signed(true, Double::natural(whole).magnitude());
}

/// Mixing that takes longer needs no smaller safety margin.
pub proof fn law_margin_grows(tm: TransitionMatrix, k: nat, l: nat)
    requires
        tm.wf(),
        laws::entries_nonnegative(tm),
        evolution::stationary(tm) is Some,
        k <= l <= chain::MARGIN_ITERATIONS,
    ensures
        chain::safety_margin(tm, evolution::stationary(tm).unwrap(), k).at_most(
            chain::safety_margin(tm, evolution::stationary(tm).unwrap(), l),
        ),
{
    let pi = evolution::stationary(tm).unwrap();
    law_margin_is_a_number(tm, k);
    law_margin_is_a_number(tm, l);
    let spread = vector::variance(pi, vector::indices(tm.n as nat)).sqrt();
    laws::law_stationary_nearly_fixed(tm);
    law_stationary_is_a_distribution(tm);
    lemma_index_variance(pi);
    let v = vector::variance(pi, vector::indices(tm.n as nat));
    lemma_number_sign(v);
    order::lemma_sign(Double::zero());
    precision::lemma_sqrt_finite(v);
    order::lemma_sqrt_sign(v);
    order::lemma_sign(spread);
    order::lemma_natural_sign(k);
    order::lemma_natural_sign(l);
    order::lemma_sign(Double::natural(k));
    order::lemma_natural_order(k, l);
    order::lemma_times_order(Double::natural(k), spread, Double::natural(l), spread);
}

/// A smaller distance from the stationary distribution needs no smaller safety
/// margin.
pub proof fn law_stricter_mixing_needs_more(
    tm: TransitionMatrix,
    small: Double,
    great: Double,
    k: nat,
    l: nat,
)
    requires
        tm.wf(),
        laws::entries_nonnegative(tm),
        evolution::stationary(tm) is Some,
        small.at_most(great),
        k <= chain::MARGIN_ITERATIONS,
        evolution::mixes_at(tm, evolution::stationary(tm).unwrap(), small, k),
        evolution::mixes_at(tm, evolution::stationary(tm).unwrap(), great, l),
    ensures
        chain::safety_margin(tm, evolution::stationary(tm).unwrap(), l).at_most(
            chain::safety_margin(tm, evolution::stationary(tm).unwrap(), k),
        ),
{
    laws::law_mixing_time_order(tm, evolution::stationary(tm).unwrap(), small, great, k, l);
    law_margin_grows(tm, l, k);
}

/// The sample bound `n` is enough: `n * eps * eps * delta` is not below the
/// variance, up to a relative error of two parts in ten to the power 15, unless a
/// product or the quotient is too small for the format.
pub proof fn law_samples_suffice(pi: Seq<Double>, f: Seq<Double>, eps: Double, delta: Double)
    requires
        Double::zero().less(eps),
        Double::zero().less(delta),
        eps.is_finite(),
        delta.is_finite(),
        Double::zero().at_most(vector::variance(pi, f)),
        measures::sample_bound(pi, f, eps, delta).unwrap().is_finite(),
        precision::is_normal_product(eps, eps),
        precision::is_normal_product(eps.times(eps), delta),
        vector::variance(pi, f).is_zero() || !vector::variance(pi, f).over(
            eps.times(eps).times(delta),
        ).is_zero(),
    ensures
        precision::number(vector::variance(pi, f)) * 1_000_000_000_000_000 as real
            <= precision::number(measures::sample_bound(pi, f, eps, delta).unwrap()) * (
        precision::number(eps) * precision::number(eps) * precision::number(delta))
            * 1_000_000_000_000_002 as real,
{
    let v = vector::variance(pi, f);
    let s = eps.times(eps);
    let x = s.times(delta);
    let q = v.over(x);
    let n = q.ceil();
    order::lemma_sign(Double::zero());
    order::lemma_sign(v);
    order::lemma_sign(eps);
    order::lemma_sign(delta);
    lemma_number_sign(v);
    lemma_number_sign(eps);
    lemma_number_sign(delta);
    let (e, d) = (precision::number(eps), precision::number(delta));
    assert(e * e > 0 as real && e * e * d > 0 as real) by (nonlinear_arith)
        requires
            e > 0 as real,
            d > 0 as real,
    ;
    assert(q.is_finite()) by {
        reveal(Double::ceil_spec);
    }
    lemma_product_is_a_number(eps, eps);
    lemma_product_is_a_number(s, delta);
    order::lemma_sign(s);
    order::lemma_sign(x);
    if v.is_zero() {
        lemma_bound_not_below_zero(q, v, x);
        let (c, y) = (precision::number(n), e * e * d);
        assert(0 as real <= c * y) by (nonlinear_arith)
            requires
                0 as real <= c,
                0 as real <= y,
        ;
    } else {
        lemma_finite_quotient(v, s, delta);
        precision::lemma_normal_product_error(eps, eps);
        precision::lemma_normal_product_error(s, delta);
        lemma_number_sign(s);
        lemma_number_sign(x);
        order::lemma_sign(q);
        lemma_bound_not_below_zero(q, v, x);
        precision::lemma_over_error(v, x);
        order::lemma_ceil_at_least(q);
        precision::lemma_number_order(q, n);
        precision::lemma_number_order(Double::one(), n);
        precision::lemma_number_constants();
        precision::lemma_tiny();
        lemma_sample_total(
            precision::number(n),
            precision::number(q),
            precision::number(v),
            precision::number(x),
            precision::number(s),
            e,
            d,
        );
    }
}

/// A quotient of numbers not below zero, rounded up, is not below zero.
proof fn lemma_bound_not_below_zero(q: Double, a: Double, b: Double)
    requires
        q == a.over(b),
        q.is_finite(),
        Double::zero().at_most(a),
        Double::zero().at_most(b),
        !b.is_negative(),
    ensures
        precision::number(q.ceil()) >= 0 as real,
        q.value() >= 0,
{
    order::lemma_sign(a);
    order::lemma_sign(b);
    order::lemma_sign(q);
    reveal(Double::over_spec);
    if !b.is_zero() {
        order::lemma_over_sign(a, b);
    }
    order::lemma_ceil_at_least(q);
    lemma_number_sign(q.ceil());
}

/// What is behind a finite quotient other than zero.
proof fn lemma_finite_quotient(v: Double, s: Double, d: Double)
    requires
        Double::zero().less(v),
        Double::zero().at_most(s),
        !s.is_negative(),
        Double::zero().less(d),
        Double::zero().at_most(s.times(d)),
        v.over(s.times(d)).is_finite(),
        !v.over(s.times(d)).is_zero(),
    ensures
        v.is_finite(),
        s.is_finite(),
        s.times(d).is_finite(),
        s.times(d).value() > 0,
{
    order::lemma_sign(Double::zero());
    order::lemma_sign(v);
    order::lemma_sign(s);
    order::lemma_sign(d);
    let x = s.times(d);
    order::lemma_sign(x);
    let negative = v.is_negative() != x.is_negative();
    order::lemma_signed(negative, binary64::INFINITE as nat);
    order::lemma_signed(negative, 0);
    assert(v.is_finite() && x.is_finite() && !x.is_zero()) by {
        reveal(Double::over_spec);
    }
    order::lemma_signed(s.is_negative() != d.is_negative(), binary64::INFINITE as nat);
    assert(s.is_finite()) by {
        reveal(Double::times_spec);
    }
}

/// What the errors of a sample bound come to.
proof fn lemma_sample_total(n: real, q: real, v: real, x: real, s: real, e: real, d: real)
    requires
        n >= q,
        n >= 1 as real,
        v >= 0 as real,
        x > 0 as real,
        e > 0 as real,
        d > 0 as real,
        precision::size(q - v / x) <= precision::eps() * precision::size(v / x)
            + precision::tiny(),
        precision::size(s - e * e) <= 2 as real * (precision::eps() * precision::size(e * e)),
        precision::size(x - s * d) <= 2 as real * (precision::eps() * precision::size(s * d)),
        s >= 0 as real,
    ensures
        v * 1_000_000_000_000_000 as real <= n * (e * e * d) * 1_000_000_000_000_002 as real,
{
    let u = precision::eps();
    let t = precision::tiny();
    precision::lemma_eps();
    precision::lemma_tiny();
    let r = v / x;
    assert(r >= 0 as real && r * x == v) by (nonlinear_arith)
        requires
            r == v / x,
            v >= 0 as real,
            x > 0 as real,
    ;
    let ur = u * r;
    assert(0 as real <= ur && r == 4_503_599_627_370_496 as real * ur) by (nonlinear_arith)
        requires
            ur == u * r,
            0 as real <= r,
            u > 0 as real,
            u * 4_503_599_627_370_496 as real == 1 as real,
    ;
    assert(r - 2 as real * ur <= n);
    // The products are hardly greater than the exact ones.
    let (a, b) = (e * e, s * d);
    assert(a > 0 as real && b >= 0 as real) by (nonlinear_arith)
        requires
            a == e * e,
            b == s * d,
            e > 0 as real,
            s >= 0 as real,
            d > 0 as real,
    ;
    let (ua, ub) = (u * a, u * b);
    let y = a * d;
    let uy = u * y;
    assert(y > 0 as real && uy > 0 as real && y == 4_503_599_627_370_496 as real * uy)
        by (nonlinear_arith)
        requires
            y == a * d,
            uy == u * y,
            a > 0 as real,
            d > 0 as real,
            u > 0 as real,
            u * 4_503_599_627_370_496 as real == 1 as real,
    ;
    assert(b <= y + 2 as real * uy) by (nonlinear_arith)
        requires
            b == s * d,
            s <= a + 2 as real * ua,
            ua == u * a,
            y == a * d,
            uy == u * y,
            d > 0 as real,
    {
        assert(s * d <= (a + 2 as real * ua) * d);
        assert((a + 2 as real * ua) * d == a * d + 2 as real * (u * (a * d)));
    }
    assert(ub <= 2 as real * uy) by (nonlinear_arith)
        requires
            ub == u * b,
            b <= y + 2 as real * uy,
            uy == u * y,
            y == 4_503_599_627_370_496 as real * uy,
            uy > 0 as real,
            u > 0 as real,
    {
        assert(b <= 2 as real * y);
        assert(u * b <= u * (2 as real * y));
    }
    assert(ub <= uy + uy * u * 2 as real) by (nonlinear_arith)
        requires
            ub == u * b,
            b <= y + 2 as real * uy,
            uy == u * y,
            u > 0 as real,
    ;
    let w = y + 5 as real * uy;
    assert(uy * u * 2 as real * 1_000_000 as real <= uy) by (nonlinear_arith)
        requires
            uy > 0 as real,
            u > 0 as real,
            u * 4_503_599_627_370_496 as real == 1 as real,
    ;
    assert(x <= w);
    // So n times the exact product is at least nearly v.
    let c = r - 2 as real * ur;
    assert(0 as real <= c);
    assert(c * x <= n * w) by (nonlinear_arith)
        requires
            0 as real <= c,
            c <= n,
            0 as real <= x,
            x <= w,
    ;
    let uv = u * v;
    assert(c * x == v - 2 as real * uv) by (nonlinear_arith)
        requires
            c == r - 2 as real * ur,
            ur == u * r,
            r * x == v,
            uv == u * v,
    ;
    assert(v == 4_503_599_627_370_496 as real * uv) by (nonlinear_arith)
        requires
            uv == u * v,
            u * 4_503_599_627_370_496 as real == 1 as real,
    ;
    let p = n * y;
    assert(n * w * 4_503_599_627_370_496 as real == p * 4_503_599_627_370_501 as real)
        by (nonlinear_arith)
        requires
            w == y + 5 as real * uy,
            y == 4_503_599_627_370_496 as real * uy,
            p == n * y,
    ;
    assert(p >= 0 as real) by (nonlinear_arith)
        requires
            p == n * y,
            n >= 1 as real,
            y > 0 as real,
    ;
}

/// A whole number as a real.
pub open spec fn whole(c: nat) -> real {
    c as real
}

/// The sample bound `n` is a whole number, and no more than is needed: with one
/// sample less, `(n - 1) * eps * eps * delta` is not above the variance, up to a
/// relative error of two parts in ten to the power 15.
pub proof fn law_samples_are_no_more_than_needed(
    pi: Seq<Double>,
    f: Seq<Double>,
    eps: Double,
    delta: Double,
)
    requires
        Double::zero().less(eps),
        Double::zero().less(delta),
        eps.is_finite(),
        delta.is_finite(),
        Double::zero().at_most(vector::variance(pi, f)),
        measures::sample_bound(pi, f, eps, delta).unwrap().is_finite(),
        precision::is_normal_product(eps, eps),
        precision::is_normal_product(eps.times(eps), delta),
    ensures
        exists|c: nat|
            precision::number(measures::sample_bound(pi, f, eps, delta).unwrap())
                == #[trigger] whole(c),
        (precision::number(measures::sample_bound(pi, f, eps, delta).unwrap()) - 1 as real) * (
        precision::number(eps) * precision::number(eps) * precision::number(delta))
            * 1_000_000_000_000_000 as real <= precision::number(vector::variance(pi, f))
            * 1_000_000_000_000_002 as real,
{
    let v = vector::variance(pi, f);
    let s = eps.times(eps);
    let x = s.times(delta);
    let q = v.over(x);
    let n = q.ceil();
    order::lemma_sign(Double::zero());
    order::lemma_sign(v);
    order::lemma_sign(eps);
    order::lemma_sign(delta);
    lemma_number_sign(v);
    lemma_number_sign(eps);
    lemma_number_sign(delta);
    let (e, d) = (precision::number(eps), precision::number(delta));
    assert(e * e > 0 as real && e * e * d > 0 as real) by (nonlinear_arith)
        requires
            e > 0 as real,
            d > 0 as real,
    ;
    assert(q.is_finite()) by {
        reveal(Double::ceil_spec);
    }
    lemma_product_is_a_number(eps, eps);
    lemma_product_is_a_number(s, delta);
    order::lemma_sign(s);
    order::lemma_sign(x);
    lemma_bound_not_below_zero(q, v, x);
    order::lemma_ceil_whole(q);
    precision::lemma_number(n);
    precision::lemma_number(q);
    precision::lemma_tiny();
    lemma_pow2_pos(1074);
    let o = binary64::one() as real;
    let c = order::whole_above(binary64::scaled(q.magnitude()));
    let (nn, nq, t) = (precision::number(n), precision::number(q), precision::tiny());
    assert((c * binary64::one()) as real == c as real * o) by (nonlinear_arith)
        requires
            o == binary64::one() as real,
    ;
    assert(nn == whole(c)) by (nonlinear_arith)
        requires
            nn * o == c as real * o,
            o > 0 as real,
    ;
    assert(nn <= nq + 1 as real) by (nonlinear_arith)
        requires
            nn * o <= nq * o + o,
            o > 0 as real,
    ;
    let y = e * e * d;
    if c <= 1 {
        assert((nn - 1 as real) * y <= 0 as real) by (nonlinear_arith)
            requires
                nn <= 1 as real,
                y > 0 as real,
        ;
    } else {
        assert(!q.is_zero()) by {
            order::lemma_sign(q);
            lemma_number_sign(q);
        }
        if v.is_zero() {
            lemma_quotient_of_zero(v, x);
        }
        lemma_finite_quotient(v, s, delta);
        precision::lemma_normal_product_error(eps, eps);
        precision::lemma_normal_product_error(s, delta);
        lemma_number_sign(s);
        lemma_number_sign(x);
        precision::lemma_over_error(v, x);
        lemma_sample_excess(
            nn,
            nq,
            precision::number(v),
            precision::number(x),
            precision::number(s),
            e,
            d,
        );
    }
}

/// Zero over another number is zero or none.
proof fn lemma_quotient_of_zero(a: Double, b: Double)
    requires
        a.is_zero(),
    ensures
        a.over(b).is_zero() || a.over(b).is_nan(),
{
    reveal(Double::over_spec);
    order::lemma_sign(a);
    let negative = a.is_negative() != b.is_negative();
    order::lemma_signed(negative, 0);
    if b.is_finite() && !b.is_zero() {
        order::lemma_sign(b);
        let y = binary64::scaled(b.magnitude());
        binary64::lemma_nearest_exact(0, y);
        assert(binary64::scaled(0) * y == 0) by (nonlinear_arith)
            requires
                binary64::scaled(0) == 0,
        ;
        assert(0 * binary64::one() == 0) by (nonlinear_arith);
    }
}

/// What the errors of a sample bound come to, from above.
proof fn lemma_sample_excess(n: real, q: real, v: real, x: real, s: real, e: real, d: real)
    requires
        n <= q + 1 as real,
        n >= 2 as real,
        v >= 0 as real,
        x > 0 as real,
        e > 0 as real,
        d > 0 as real,
        precision::size(q - v / x) <= precision::eps() * precision::size(v / x)
            + precision::tiny(),
        precision::size(s - e * e) <= 2 as real * (precision::eps() * precision::size(e * e)),
        precision::size(x - s * d) <= 2 as real * (precision::eps() * precision::size(s * d)),
        s >= 0 as real,
    ensures
        (n - 1 as real) * (e * e * d) * 1_000_000_000_000_000 as real <= v
            * 1_000_000_000_000_002 as real,
{
    let u = precision::eps();
    let t = precision::tiny();
    precision::lemma_eps();
    precision::lemma_tiny();
    let r = v / x;
    assert(r >= 0 as real && r * x == v) by (nonlinear_arith)
        requires
            r == v / x,
            v >= 0 as real,
            x > 0 as real,
    ;
    let ur = u * r;
    assert(0 as real <= ur && r == 4_503_599_627_370_496 as real * ur) by (nonlinear_arith)
        requires
            ur == u * r,
            0 as real <= r,
            u > 0 as real,
            u * 4_503_599_627_370_496 as real == 1 as real,
    ;
    let m = n - 1 as real;
    assert(m <= r + 2 as real * ur);
    let (a, b) = (e * e, s * d);
    assert(a > 0 as real && b >= 0 as real) by (nonlinear_arith)
        requires
            a == e * e,
            b == s * d,
            e > 0 as real,
            s >= 0 as real,
            d > 0 as real,
    ;
    let (ua, ub) = (u * a, u * b);
    let y = a * d;
    let uy = u * y;
    assert(y > 0 as real && uy > 0 as real && y == 4_503_599_627_370_496 as real * uy)
        by (nonlinear_arith)
        requires
            y == a * d,
            uy == u * y,
            a > 0 as real,
            d > 0 as real,
            u > 0 as real,
            u * 4_503_599_627_370_496 as real == 1 as real,
    ;
    assert(b >= y - 2 as real * uy && b <= y + 2 as real * uy) by (nonlinear_arith)
        requires
            b == s * d,
            s >= a - 2 as real * ua,
            s <= a + 2 as real * ua,
            ua == u * a,
            y == a * d,
            uy == u * y,
            d > 0 as real,
    {
        assert(s * d >= (a - 2 as real * ua) * d);
        assert((a - 2 as real * ua) * d == a * d - 2 as real * (u * (a * d)));
        assert(s * d <= (a + 2 as real * ua) * d);
        assert((a + 2 as real * ua) * d == a * d + 2 as real * (u * (a * d)));
    }
    assert(ub <= uy + uy * u * 2 as real) by (nonlinear_arith)
        requires
            ub == u * b,
            b <= y + 2 as real * uy,
            uy == u * y,
            u > 0 as real,
    ;
    assert(uy * u * 2 as real * 1_000_000 as real <= uy) by (nonlinear_arith)
        requires
            uy > 0 as real,
            u > 0 as real,
            u * 4_503_599_627_370_496 as real == 1 as real,
    ;
    let w = y - 5 as real * uy;
    assert(w <= x);
    assert(w > 0 as real);
    let uv = u * v;
    assert((r + 2 as real * ur) * x == v + 2 as real * uv) by (nonlinear_arith)
        requires
            ur == u * r,
            r * x == v,
            uv == u * v,
    ;
    assert(m * w <= (r + 2 as real * ur) * x) by (nonlinear_arith)
        requires
            m <= r + 2 as real * ur,
            w <= x,
            m >= 0 as real,
            x > 0 as real,
    {
        assert(m * w <= m * x);
        assert(m * x <= (r + 2 as real * ur) * x);
    }
    assert(v == 4_503_599_627_370_496 as real * uv && uv >= 0 as real) by (nonlinear_arith)
        requires
            uv == u * v,
            v >= 0 as real,
            u > 0 as real,
            u * 4_503_599_627_370_496 as real == 1 as real,
    ;
    let p = m * y;
    assert(m * w * 4_503_599_627_370_496 as real == p * 4_503_599_627_370_491 as real)
        by (nonlinear_arith)
        requires
            w == y - 5 as real * uy,
            y == 4_503_599_627_370_496 as real * uy,
            p == m * y,
    ;
}

/// There is a sample bound exactly where both parameters are above zero or no
/// numbers, and it is no number where one of them is none.
pub proof fn law_sample_bound_exists(
    pi: Seq<Double>,
    f: Seq<Double>,
    eps: Double,
    delta: Double,
)
    ensures
        measures::sample_bound(pi, f, eps, delta) is Some <==> (eps.is_nan() || precision::number(
            eps,
        ) > 0 as real) && (delta.is_nan() || precision::number(delta) > 0 as real),
        (eps.is_nan() || delta.is_nan()) && measures::sample_bound(pi, f, eps, delta) is Some
            ==> measures::sample_bound(pi, f, eps, delta).unwrap().is_nan(),
{
    lemma_number_sign(eps);
    lemma_number_sign(delta);
    order::lemma_sign(eps);
    order::lemma_sign(delta);
    order::lemma_sign(Double::zero());
    reveal(Double::times_spec);
    reveal(Double::over_spec);
    reveal(Double::ceil_spec);
}

} // verus!
