//! When the power iteration converges, and to what, in exact numbers.

use vstd::prelude::*;

use crate::accuracy;
use crate::binary64;
use crate::chain;
use crate::correct;
use crate::double;
use crate::double::Double;
use crate::evolution;
use crate::exact;
use crate::laws;
use crate::matrix::{TransitionMatrix, MAX_STATES};
use crate::mixing;
use crate::order;
use crate::precision;
use crate::vector;

verus! {

/// The bounds that the library goes by: at most 64 states, 100 000 steps of the power
/// iteration, and 10 000 moves for the safety margin.
pub proof fn law_bounds()
    ensures
        MAX_STATES == 64,
        evolution::MAX_ITERATIONS == 100_000,
        chain::MARGIN_ITERATIONS == 10_000,
{
}

/// The exact sum of the distances between the iterates before and after step `k`.
pub open spec fn change(tm: TransitionMatrix, k: nat) -> real {
    mixing::exact_l1(evolution::iterate(tm, k), evolution::iterate(tm, (k - 1) as nat))
}

/// Whether the iterates before and after step `k` hold finite numbers.
pub open spec fn step_is_finite(tm: TransitionMatrix, k: nat) -> bool {
    mixing::are_finite(evolution::iterate(tm, k), evolution::iterate(tm, (k - 1) as nat))
}

/// Whether step `k` clearly changes less than ten to the power -12.
pub open spec fn settles(tm: TransitionMatrix, k: nat) -> bool {
    step_is_finite(tm, k) && change(tm, k) * 1_000_000_000_001 as real <= 1 as real
}

/// Whether step `k` changes less than ten to the power -12, or hardly more.
pub open spec fn nearly_settles(tm: TransitionMatrix, k: nat) -> bool {
    step_is_finite(tm, k) && change(tm, k) * 999_999_999_999 as real <= 1 as real
}

/// Whether nothing is left after the move of step `k`.
pub open spec fn loses_all(tm: TransitionMatrix, k: nat) -> bool {
    vector::total(
        evolution::advanced(tm, evolution::iterate(tm, (k - 1) as nat)),
    ).is_zero()
}

/// The tolerance of the power iteration is ten to the power -12, up to one rounding.
pub proof fn law_tolerance()
    ensures
        (Double { bits: evolution::TOLERANCE_BITS }).is_finite(),
        precision::size(
            precision::number(Double { bits: evolution::TOLERANCE_BITS })
                * 1_000_000_000_000 as real - 1 as real,
        ) <= 2 as real * precision::eps(),
{
    let tol = Double { bits: evolution::TOLERANCE_BITS };
    laws::law_constants();
    precision::lemma_number(tol);
    precision::lemma_tiny();
    precision::lemma_eps();
    vstd::arithmetic::power2::lemma_pow2_pos(1074);
    let (o, t) = (binary64::one() as real, precision::tiny());
    let den = 1_000_000_000_000 as real;
    let x = o / den;
    assert(x * den == o) by (nonlinear_arith)
        requires
            x == o / den,
            den == 1_000_000_000_000 as real,
    ;
    precision::lemma_fraction_error(binary64::one(), 1_000_000_000_000, x);
    let y = tol.value() as real;
    let e = precision::eps();
    assert(precision::size(y - x) <= e * x + 1 as real);
    let z = x * t;
    assert(z * den == 1 as real) by (nonlinear_arith)
        requires
            z == x * t,
            x * den == o,
            t * o == 1 as real,
    ;
    assert((y - x) * t == y * t - z && (x - y) * t == z - y * t) by (nonlinear_arith)
        requires
            z == x * t,
    ;
    assert((e * x + 1 as real) * t == e * z + t) by (nonlinear_arith)
        requires
            z == x * t,
    ;
    assert((y - x) * t <= (e * x + 1 as real) * t && (x - y) * t <= (e * x + 1 as real) * t)
        by (nonlinear_arith)
        requires
            y - x <= e * x + 1 as real,
            x - y <= e * x + 1 as real,
            t > 0 as real,
    ;
    assert((e * z) * den == e) by (nonlinear_arith)
        requires
            z * den == 1 as real,
    ;
}

/// A step is close exactly where the exact sum of the distances that it makes is below
/// ten to the power -12, up to rounding.
pub proof fn law_close_is_by_distance(tm: TransitionMatrix, k: nat)
    requires
        tm.wf(),
        k >= 1,
    ensures
        settles(tm, k) ==> evolution::is_close(tm, k),
        evolution::is_close(tm, k) ==> nearly_settles(tm, k),
{
    let (a, b) = (evolution::iterate(tm, k), evolution::iterate(tm, (k - 1) as nat));
    evolution::lemma_iterate_len(tm, k);
    evolution::lemma_iterate_len(tm, (k - 1) as nat);
    let n = tm.n as nat;
    let tol = Double { bits: evolution::TOLERANCE_BITS };
    let l1 = vector::l1_distance(a, b);
    law_tolerance();
    precision::lemma_eps();
    precision::lemma_growth(n + 2);
    let (g, x) = (precision::growth(n + 2), change(tm, k));
    if settles(tm, k) {
        mixing::lemma_l1_finite(a, b);
        mixing::lemma_l1(a, b);
        precision::lemma_number_order(tol, l1);
        assert(g * x * 60_000_000_000_000 as real <= x) by (nonlinear_arith)
            requires
                g * 60_000_000_000_000 as real <= 1 as real,
                x >= 0 as real,
        ;
    }
    if evolution::is_close(tm, k) {
        lemma_below_is_finite(a, b, tol);
        mixing::lemma_l1(a, b);
        precision::lemma_number_order(tol, l1);
        assert(g * x * 60_000_000_000_000 as real <= x) by (nonlinear_arith)
            requires
                g * 60_000_000_000_000 as real <= 1 as real,
                x >= 0 as real,
        ;
    }
}

/// A sum of distances below a finite number is finite.
proof fn lemma_below_is_finite(a: Seq<Double>, b: Seq<Double>, bound: Double)
    requires
        bound.is_finite(),
        vector::l1_distance(a, b).less(bound),
    ensures
        vector::l1_distance(a, b).is_finite(),
{
    let d = vector::distances(a, b);
    let sum = vector::l1_distance(a, b);
    order::lemma_sign(vector::nothing());
    assert forall|i: int| 0 <= i < d.len() implies order::not_below_zero(#[trigger] d[i]) by {
        order::lemma_abs_sign(a[i].minus(b[i]));
    }
    laws::lemma_sum_sign(vector::nothing(), d);
    order::lemma_sign(sum);
    order::lemma_sign(bound);
    if !sum.is_finite() {
        binary64::lemma_scaled_order(sum.magnitude(), bound.magnitude());
        binary64::lemma_scaled_order(bound.magnitude(), sum.magnitude());
    }
}

/// The stationary distribution is found: where step `k`, of the first 100 000, is the
/// first that clearly changes less than ten to the power -12, and none before it comes
/// near that, and no step up to it loses everything, the result is the iterate after
/// step `k`.
pub proof fn law_stationary_is_found(tm: TransitionMatrix, k: nat)
    requires
        tm.wf(),
        tm.n > 0,
        1 <= k <= 100_000,
        settles(tm, k),
        forall|j: nat| 1 <= j < k ==> !#[trigger] nearly_settles(tm, j),
        forall|j: nat| 1 <= j <= k ==> !#[trigger] loses_all(tm, j),
    ensures
        evolution::stationary(tm) == Some(evolution::iterate(tm, k)),
{
    law_close_is_by_distance(tm, k);
    assert forall|j: nat| 1 <= j < k implies !#[trigger] evolution::is_close(tm, j) by {
        law_close_is_by_distance(tm, j);
        assert(!nearly_settles(tm, j));
    }
    assert forall|j: nat| 1 <= j <= k implies !#[trigger] evolution::vanishes(tm, j) by {
        assert(!loses_all(tm, j));
        lemma_vanishes(tm, j);
    }
    assert(evolution::converges_at(tm, k));
    evolution::lemma_converges_once(tm, k, choose|k: nat| evolution::converges_at(tm, k));
}

/// A stationary distribution is the iterate after one of the first 100 000 steps that
/// changes less than ten to the power -12, up to rounding; no step before it clearly
/// does, and no step up to it loses everything.
pub proof fn law_stationary_settles(tm: TransitionMatrix) -> (k: nat)
    requires
        tm.wf(),
        evolution::stationary(tm) is Some,
    ensures
        tm.n > 0,
        1 <= k <= 100_000,
        evolution::stationary(tm) == Some(evolution::iterate(tm, k)),
        nearly_settles(tm, k),
        forall|j: nat| 1 <= j < k ==> !#[trigger] settles(tm, j),
        forall|j: nat| 1 <= j <= k ==> !#[trigger] loses_all(tm, j),
{
    let k = choose|k: nat| evolution::converges_at(tm, k);
    law_close_is_by_distance(tm, k);
    assert forall|j: nat| 1 <= j < k implies !#[trigger] settles(tm, j) by {
        law_close_is_by_distance(tm, j);
        assert(!evolution::is_close(tm, j));
    }
    assert forall|j: nat| 1 <= j <= k implies !#[trigger] loses_all(tm, j) by {
        assert(!evolution::vanishes(tm, j));
        lemma_vanishes(tm, j);
    }
    k
}

/// A step vanishes where nothing is left.
proof fn lemma_vanishes(tm: TransitionMatrix, k: nat)
    ensures
        evolution::vanishes(tm, k) <==> loses_all(tm, k),
{
    let sum = vector::total(evolution::advanced(tm, evolution::iterate(tm, (k - 1) as nat)));
    order::lemma_sign(sum);
    order::lemma_sign(Double::zero());
}

/// Whether the entries of the matrix lie between zero and one million.
pub open spec fn entries_are_moderate(tm: TransitionMatrix) -> bool {
    forall|i: int, j: int|
        0 <= i < tm.n && 0 <= j < tm.n ==> (#[trigger] tm.at(i, j)).is_finite()
            && precision::number(tm.at(i, j)) >= 0 as real && precision::number(tm.at(i, j))
            <= 1_000_000 as real
}

/// What exactly flows to the states from the distribution `v`.
pub open spec fn inflows(tm: TransitionMatrix, v: Seq<Double>) -> spec_fn(int) -> real {
    |j: int| mixing::inflow(tm, v, j)
}

/// What exactly flows to all states from the distribution `v`.
pub open spec fn total_inflow(tm: TransitionMatrix, v: Seq<Double>) -> real {
    precision::sum_of(inflows(tm, v), tm.n as nat)
}

/// How far the entries of `w` are from the shares of the states in what exactly flows
/// from `v`, together.
pub open spec fn distance_from_shares(
    tm: TransitionMatrix,
    v: Seq<Double>,
    w: Seq<Double>,
) -> real {
    precision::sum_of(share_gaps(tm, v, w), tm.n as nat)
}

/// How far each entry of `w` is from the share of its state in what exactly flows from
/// `v`.
pub open spec fn share_gaps(tm: TransitionMatrix, v: Seq<Double>, w: Seq<Double>) -> spec_fn(
    int,
) -> real {
    |j: int|
        precision::size(
            precision::number(w[j]) - mixing::inflow(tm, v, j) / total_inflow(tm, v),
        )
}

/// The power iteration starts from equal shares.
pub proof fn law_iteration_starts_with_equal_shares(tm: TransitionMatrix, i: int)
    requires
        tm.wf(),
        0 <= i < tm.n,
    ensures
        evolution::iterate(tm, 0).len() == tm.n,
        evolution::iterate(tm, 0)[i].is_finite(),
        precision::size(
            precision::number(evolution::iterate(tm, 0)[i]) - 1 as real / tm.n as real,
        ) <= precision::eps() * (1 as real / tm.n as real) + precision::tiny(),
{
    let n = tm.n as nat;
    accuracy::lemma_equal_shares(tm);
    let share = evolution::iterate(tm, 0)[i];
    accuracy::lemma_fractional(share);
    precision::lemma_number_natural(n);
    precision::lemma_number_constants();
    double::lemma_one();
    order::lemma_sign(Double::one());
    vstd::arithmetic::power2::lemma_pow2_pos(1074);
    accuracy::lemma_number_sign(Double::natural(n));
    precision::lemma_over_error(Double::one(), Double::natural(n));
}

/// The moves of a distribution are finite, not below zero, and exact up to rounding.
proof fn lemma_move(tm: TransitionMatrix, v: Seq<Double>, j: int)
    requires
        tm.wf(),
        entries_are_moderate(tm),
        v.len() == tm.n,
        accuracy::is_fractional(v),
        0 <= j < tm.n,
    ensures
        evolution::advanced(tm, v)[j].is_finite(),
        order::not_below_zero(evolution::advanced(tm, v)[j]),
        precision::number(evolution::advanced(tm, v)[j]) >= 0 as real,
        mixing::inflow(tm, v, j) >= 0 as real,
        precision::size(
            precision::number(evolution::advanced(tm, v)[j]) - mixing::inflow(tm, v, j),
        ) <= precision::growth(tm.n as nat + 2) * mixing::inflow(tm, v, j) + 128 as real
            * precision::tiny(),
{
    let n = tm.n as nat;
    let c = mixing::column(tm, j);
    order::lemma_sign(Double::zero());
    assert forall|i: int| 0 <= i < v.len() implies exact::is_moderate(#[trigger] v[i])
        && order::not_below_zero(v[i]) by {
        accuracy::lemma_fractional(v[i]);
        order::lemma_sign(v[i]);
    }
    assert forall|i: int| 0 <= i < c.len() implies exact::is_moderate(#[trigger] c[i]) by {
        assert(tm.at(i, j).is_finite());
    }
    mixing::law_move_is_exact(tm, v, j);
    assert forall|a: int, b: int| 0 <= a < tm.n && 0 <= b < tm.n implies order::not_below_zero(
        #[trigger] tm.at(a, b),
    ) by {
        assert(tm.at(a, b).is_finite());
        accuracy::lemma_number_sign(tm.at(a, b));
        order::lemma_sign(tm.at(a, b));
    }
    laws::lemma_advanced_sign(tm, v);
    let r = evolution::advanced(tm, v)[j];
    order::lemma_sign(r);
    accuracy::lemma_number_sign(r);
    let f = |i: int| precision::number(v[i]) * precision::number(tm.at(i, j));
    let g = |i: int| precision::size(precision::number(v[i]) * precision::number(tm.at(i, j)));
    assert forall|i: int| 0 <= i < n implies #[trigger] f(i) == g(i) && f(i) >= 0 as real by {
        accuracy::lemma_fractional(v[i]);
        assert(tm.at(i, j).is_finite());
        let (a, b) = (precision::number(v[i]), precision::number(tm.at(i, j)));
        assert(a * b >= 0 as real) by (nonlinear_arith)
            requires
                a >= 0 as real,
                b >= 0 as real,
        ;
    }
    precision::lemma_sum_same(f, g, n);
    precision::lemma_sum_bounds(f, n, 0);
    precision::lemma_tiny();
    let t = precision::tiny();
    assert(2 as real * (n as real * t) <= 128 as real * t) by (nonlinear_arith)
        requires
            n as real <= 64 as real,
            t > 0 as real,
    ;
}

/// The arithmetic of a step: `y` flows exactly, `m` is computed, their sum is computed
/// as `s`, the quotients are off by `z` for the move and by `w` for the division.
proof fn lemma_step_arithmetic(n: nat, y: real, m: real, s: real, z: real, w: real, u: real)
    requires
        1 <= n <= 64,
        y * 10_000_000_000 as real >= 1 as real,
        m >= 0 as real,
        precision::size(m - y) <= precision::growth(n + 2) * y + 8192 as real * precision::tiny(),
        precision::size(s - m) <= precision::growth(n) * m,
        s * z <= precision::growth(n + 2) * y + 8192 as real * precision::tiny() + precision::size(
            y - s,
        ),
        s * w <= precision::eps() * m + 64 as real * (precision::tiny() * s),
        s * u <= s * w + precision::size(m - s),
        z >= 0 as real,
        w >= 0 as real,
        u >= 0 as real,
    ensures
        s > 0 as real,
        z + w <= precision::growth(3 * n + 6),
        u <= precision::growth(n + 2),
{
    let (e, t) = (precision::eps(), precision::tiny());
    precision::lemma_eps();
    precision::lemma_tiny();
    precision::lemma_growth(n);
    precision::lemma_growth(n + 1);
    precision::lemma_growth(n + 2);
    precision::lemma_growth(3 * n + 6);
    let (g, h) = (precision::growth(n), precision::growth(n + 2));
    let ey = e * y;
    assert(y == 4_503_599_627_370_496 as real * ey) by (nonlinear_arith)
        requires
            ey == e * y,
            e * 4_503_599_627_370_496 as real == 1 as real,
    ;
    let c = n as real;
    assert(h * y == c * ey + 2 as real * ey) by (nonlinear_arith)
        requires
            h == (c + 2 as real) * e,
            ey == e * y,
    ;
    assert(c * ey <= 64 as real * ey) by (nonlinear_arith)
        requires
            c <= 64 as real,
            ey >= 0 as real,
    ;
    let em = e * m;
    assert(m == 4_503_599_627_370_496 as real * em) by (nonlinear_arith)
        requires
            em == e * m,
            e * 4_503_599_627_370_496 as real == 1 as real,
    ;
    assert(g * m == c * em) by (nonlinear_arith)
        requires
            g == c * e,
            em == e * m,
    ;
    assert(0 as real <= c * em && c * em <= 64 as real * em) by (nonlinear_arith)
        requires
            0 as real <= c,
            c <= 64 as real,
            em >= 0 as real,
    ;
    // All sums are nearly the same.
    assert(8192 as real * t * 1_000_000 as real <= ey);
    assert(precision::size(m - y) <= 67 as real * ey);
    assert(precision::size(em - ey) * 1_000_000 as real <= ey);
    assert(c * em <= c * ey + c * precision::size(em - ey)) by (nonlinear_arith)
        requires
            em <= ey + precision::size(em - ey),
            c >= 0 as real,
    ;
    assert(c * precision::size(em - ey) <= 64 as real * precision::size(em - ey))
        by (nonlinear_arith)
        requires
            c <= 64 as real,
            precision::size(em - ey) >= 0 as real,
    ;
    assert(c * em * 10_000 as real <= c * ey * 10_000 as real + ey);
    assert(precision::size(y - s) <= 132 as real * ey);
    assert(s > 0 as real);
    assert(precision::size(s - y) * 1_000_000_000_000 as real <= y);
    let ts = t * s;
    assert(ts <= 2 as real * (t * y)) by (nonlinear_arith)
        requires
            ts == t * s,
            s <= 2 as real * y,
            t > 0 as real,
    ;
    assert(t * y * 1_000_000_000_000_000_000_000 as real <= ey) by (nonlinear_arith)
        requires
            ey == e * y,
            y >= 0 as real,
            t * 1_000_000_000_000_000_000_000 as real <= e,
    ;
    // The quotients.
    let v = z + w;
    assert(s * v == s * z + s * w) by (nonlinear_arith)
        requires
            v == z + w,
    ;
    assert(s * v <= 3 as real * (c * ey) + 5 as real * ey + ey / 100 as real);
    assert((3 as real * c + 5 as real) * ey == 3 as real * (c * ey) + 5 as real * ey && (c
        + 1 as real) * ey == c * ey + ey) by (nonlinear_arith);
    lemma_quotient_bound(s, y, v, 3 as real * c + 5 as real, e, ey);
    assert(s * u <= c * ey + ey + ey / 100 as real);
    lemma_quotient_bound(s, y, u, c + 1 as real, e, ey);
    assert((3 as real * c + 5 as real + 1 as real) * e == (3 as real * c + 6 as real) * e)
        by (nonlinear_arith);
    assert((3 * n + 6) as real == 3 as real * c + 6 as real);
}

/// A quotient by nearly `y` of nearly `c` times `ey`.
proof fn lemma_quotient_bound(s: real, y: real, v: real, c: real, e: real, ey: real)
    requires
        ey == e * y,
        e > 0 as real,
        y > 0 as real,
        v >= 0 as real,
        0 as real <= c,
        c <= 200 as real,
        s * 1_000_000_000_000 as real >= 999_999_999_999 as real * y,
        s * v <= c * ey + ey / 100 as real,
    ensures
        v <= (c + 1 as real) * e,
{
    let k = 999_999_999_999 as real / 1_000_000_000_000 as real;
    assert(k * 1_000_000_000_000 as real == 999_999_999_999 as real) by (nonlinear_arith)
        requires
            k == 999_999_999_999 as real / 1_000_000_000_000 as real,
    ;
    assert((k * y) * v <= s * v) by (nonlinear_arith)
        requires
            k * y <= s,
            v >= 0 as real,
    ;
    let b = (c + 1 as real / 100 as real) * e;
    assert(b * y == c * ey + ey / 100 as real) by (nonlinear_arith)
        requires
            b == (c + 1 as real / 100 as real) * e,
            ey == e * y,
    ;
    assert(k * v <= b) by (nonlinear_arith)
        requires
            (k * y) * v <= b * y,
            y > 0 as real,
    ;
    assert(v * 999_999_999_999 as real <= b * 1_000_000_000_000 as real) by (nonlinear_arith)
        requires
            k * v <= b,
            k * 1_000_000_000_000 as real == 999_999_999_999 as real,
    ;
    assert(b == c * e + e / 100 as real && (c + 1 as real) * e == c * e + e) by (nonlinear_arith)
        requires
            b == (c + 1 as real / 100 as real) * e,
    ;
    assert(c * e <= 200 as real * e) by (nonlinear_arith)
        requires
            c <= 200 as real,
            e > 0 as real,
    ;
}

/// One step of the power iteration, against what exactly flows.
proof fn lemma_step(tm: TransitionMatrix, v: Seq<Double>)
    requires
        tm.wf(),
        tm.n > 0,
        entries_are_moderate(tm),
        v.len() == tm.n,
        accuracy::is_fractional(v),
        total_inflow(tm, v) * 10_000_000_000 as real >= 1 as real,
    ensures
        !vector::total(evolution::advanced(tm, v)).is_zero(),
        accuracy::is_normal(evolution::normalized(evolution::advanced(tm, v))),
        distance_from_shares(tm, v, evolution::normalized(evolution::advanced(tm, v)))
            <= precision::growth(3 * tm.n as nat + 6),
        precision::size(
            accuracy::mass(evolution::normalized(evolution::advanced(tm, v))) - 1 as real,
        ) <= precision::growth(tm.n as nat + 2),
{
    let n = tm.n as nat;
    let moved = evolution::advanced(tm, v);
    let w = evolution::normalized(moved);
    let (e, t) = (precision::eps(), precision::tiny());
    precision::lemma_eps();
    precision::lemma_tiny();
    // The move.
    let x = inflows(tm, v);
    let y = total_inflow(tm, v);
    let f = precision::numbers(moved);
    let g2 = precision::growth(n + 2);
    let (parts, units) = (|j: int| g2 * x(j), |j: int| 128 as real * t);
    let errors = |j: int| parts(j) + units(j);
    assert forall|j: int| 0 <= j < n implies {
        &&& (#[trigger] moved[j]).is_finite()
        &&& order::not_below_zero(moved[j])
        &&& f(j) >= 0 as real
        &&& x(j) >= 0 as real
        &&& precision::size(f(j) - x(j)) <= errors(j)
    } by {
        lemma_move(tm, v, j);
    }
    assert forall|j: int| 0 <= j < n implies precision::size(#[trigger] f(j) - x(j)) <= errors(
        j,
    ) && f(j) >= 0 as real && precision::sizes(moved)(j) == f(j) by {
        assert(moved[j].is_finite());
    }
    assert forall|j: int| 0 <= j < n implies #[trigger] x(j) >= 0 as real by {
        assert(moved[j].is_finite());
    }
    assert forall|j: int| 0 <= j < n implies #[trigger] precision::sizes(moved)(j) == f(j) by {
        assert(f(j) >= 0 as real);
    }
    precision::lemma_sum_difference(f, x, errors, n);
    precision::lemma_sum_plus(parts, units, errors, n);
    precision::lemma_sum_scale(x, g2, parts, n);
    precision::lemma_sum_equal(units, 128 as real * t, n);
    assert(n as real * (128 as real * t) <= 8192 as real * t) by (nonlinear_arith)
        requires
            n as real <= 64 as real,
            t > 0 as real,
    ;
    let m = precision::sum_of(f, n);
    precision::lemma_sum_bounds(f, n, 0);
    // The sum.
    lemma_moderate(tm, v);
    let sum = vector::total(moved);
    let s = precision::number(sum);
    order::lemma_sign(vector::nothing());
    precision::lemma_sum_error(vector::nothing(), moved);
    precision::lemma_sum_same(precision::sizes(moved), f, n);
    precision::lemma_nonzero(moved);
    precision::lemma_growth_order(precision::nonzero(moved), n);
    let (g, g0) = (precision::growth(n), precision::growth(precision::nonzero(moved)));
    assert(g0 * m <= g * m) by (nonlinear_arith)
        requires
            g0 <= g,
            m >= 0 as real,
    ;
    lemma_step_sum_is_positive(n, y, m, s);
    accuracy::lemma_number_sign(sum);
    order::lemma_sign(sum);
    accuracy::lemma_normalized(moved);
    // The quotients.
    let q = |j: int| f(j) / s;
    let u = |j: int| x(j) / y;
    let z = |j: int| precision::size(q(j) - u(j));
    let d = |j: int| precision::size(precision::number(w[j]) - q(j));
    let (zs, ds) = (precision::sum_of(z, n), precision::sum_of(d, n));
    let sz = |j: int| s * z(j);
    let moves = |j: int| errors(j) + precision::size(y - s) * u(j);
    let weights = |j: int| precision::size(y - s) * u(j);
    assert forall|j: int| 0 <= j < n implies #[trigger] sz(j) <= moves(j) by {
        assert(moved[j].is_finite());
        lemma_quotient_gap(f(j), x(j), s, y, errors(j));
    }
    assert forall|j: int| 0 <= j < n implies #[trigger] u(j) == (1 as real / y) * x(j) by {
        let (a, b) = (x(j), y);
        assert(a / b == (1 as real / b) * a) by (nonlinear_arith)
            requires
                b > 0 as real,
        ;
    }
    precision::lemma_sum_scale(x, 1 as real / y, u, n);
    assert((1 as real / y) * y == 1 as real) by (nonlinear_arith)
        requires
            y > 0 as real,
    ;
    precision::lemma_sum_scale(u, precision::size(y - s), weights, n);
    let us = precision::sum_of(u, n);
    assert(precision::size(y - s) * us == precision::size(y - s)) by (nonlinear_arith)
        requires
            us == 1 as real,
    ;
    precision::lemma_sum_plus(errors, weights, moves, n);
    precision::lemma_sum_scale(z, s, sz, n);
    precision::lemma_sum_order(sz, moves, n);
    precision::lemma_sum_bounds(z, n, 0);
    precision::lemma_sum_bounds(d, n, 0);
    // The divisions.
    let sd = |j: int| s * d(j);
    let (rounds, ones) = (|j: int| e * f(j), |j: int| t * s);
    let divisions = |j: int| rounds(j) + ones(j);
    assert forall|j: int| 0 <= j < n implies #[trigger] sd(j) <= divisions(j) by {
        assert(moved[j].is_finite());
        accuracy::lemma_fractional(w[j]);
        accuracy::lemma_number_sign(moved[j]);
        precision::lemma_over_error(moved[j], sum);
        let (a, c) = (f(j), d(j));
        let r = a / s;
        assert(r >= 0 as real && r * s == a) by (nonlinear_arith)
            requires
                r == a / s,
                s > 0 as real,
                a >= 0 as real,
        ;
        assert(s * c <= e * a + t * s) by (nonlinear_arith)
            requires
                c <= e * r + t,
                r * s == a,
                s > 0 as real,
        {
            assert(s * c <= s * (e * r + t));
            assert(s * (e * r + t) == e * (r * s) + t * s);
        }
    }
    precision::lemma_sum_scale(d, s, sd, n);
    precision::lemma_sum_order(sd, divisions, n);
    precision::lemma_sum_plus(rounds, ones, divisions, n);
    precision::lemma_sum_scale(f, e, rounds, n);
    precision::lemma_sum_equal(ones, t * s, n);
    let ts = t * s;
    assert(n as real * ts <= 64 as real * ts) by (nonlinear_arith)
        requires
            n as real <= 64 as real,
            ts == t * s,
            t > 0 as real,
            s > 0 as real,
    ;
    // The sum of the result.
    let wn = precision::numbers(w);
    let off = precision::size(precision::sum_of(wn, n) - 1 as real);
    precision::lemma_sum_difference(wn, q, d, n);
    assert forall|j: int| 0 <= j < n implies #[trigger] q(j) == (1 as real / s) * f(j) by {
        let (a, b) = (f(j), s);
        assert(a / b == (1 as real / b) * a) by (nonlinear_arith)
            requires
                b > 0 as real,
        ;
    }
    precision::lemma_sum_scale(f, 1 as real / s, q, n);
    let qs = precision::sum_of(q, n);
    assert(qs * s == m) by (nonlinear_arith)
        requires
            qs == (1 as real / s) * m,
            s > 0 as real,
    ;
    let ws = precision::sum_of(wn, n);
    assert(s * off <= s * ds + precision::size(m - s)) by {
        assert(s * (ws - 1 as real) == s * (ws - qs) + (m - s) && s * (1 as real - ws) == s * (qs
            - ws) - (m - s)) by (nonlinear_arith)
            requires
                qs * s == m,
        ;
        assert(s * (ws - qs) <= s * ds && s * (qs - ws) <= s * ds) by (nonlinear_arith)
            requires
                ws - qs <= ds,
                qs - ws <= ds,
                s > 0 as real,
        ;
    }
    lemma_step_arithmetic(n, y, m, s, zs, ds, off);
    // Together.
    let both = |j: int| z(j) + d(j);
    let h = share_gaps(tm, v, w);
    assert forall|j: int| 0 <= j < n implies #[trigger] h(j) <= both(j) by {
        assert(x(j) / y == u(j));
    }
    precision::lemma_sum_order(h, both, n);
    precision::lemma_sum_plus(z, d, both, n);
}

/// How far a quotient is from another, times what it divides by.
proof fn lemma_quotient_gap(f: real, x: real, s: real, y: real, error: real)
    requires
        s > 0 as real,
        y > 0 as real,
        x >= 0 as real,
        precision::size(f - x) <= error,
    ensures
        s * precision::size(f / s - x / y) <= error + precision::size(y - s) * (x / y),
{
    let (q, u) = (f / s, x / y);
    assert(q * s == f && u * y == x && u >= 0 as real) by (nonlinear_arith)
        requires
            q == f / s,
            u == x / y,
            s > 0 as real,
            y > 0 as real,
            x >= 0 as real,
    ;
    let c = precision::size(y - s);
    assert(s * (q - u) == (f - x) + (y - s) * u && s * (u - q) == (x - f) + (s - y) * u)
        by (nonlinear_arith)
        requires
            q * s == f,
            u * y == x,
    ;
    assert((y - s) * u <= c * u && (s - y) * u <= c * u) by (nonlinear_arith)
        requires
            y - s <= c,
            s - y <= c,
            u >= 0 as real,
    ;
}

/// The computed sum of what nearly flows is above zero.
proof fn lemma_step_sum_is_positive(n: nat, y: real, m: real, s: real)
    requires
        1 <= n <= 64,
        y * 10_000_000_000 as real >= 1 as real,
        m >= 0 as real,
        precision::size(m - y) <= precision::growth(n + 2) * y + 8192 as real * precision::tiny(),
        precision::size(s - m) <= precision::growth(n) * m,
    ensures
        s > 0 as real,
{
    precision::lemma_tiny();
    precision::lemma_growth(n);
    precision::lemma_growth(n + 2);
    let (g, h) = (precision::growth(n), precision::growth(n + 2));
    assert(h * y * 4 as real <= y && g * m * 4 as real <= m) by (nonlinear_arith)
        requires
            h * 4 as real <= 1 as real,
            g * 4 as real <= 1 as real,
            y >= 0 as real,
            m >= 0 as real,
    ;
}

/// Whether a number is finite and at most two hundred million.
spec fn is_small(x: Double) -> bool {
    x.is_finite() && precision::size(precision::number(x)) <= 200_000_000 as real
}

/// Moderate entries are not below zero, and do not make a move overflow.
proof fn lemma_moderate(tm: TransitionMatrix, v: Seq<Double>)
    requires
        tm.wf(),
        entries_are_moderate(tm),
        v.len() == tm.n,
        accuracy::is_fractional(v),
    ensures
        laws::entries_nonnegative(tm),
        vector::total(evolution::advanced(tm, v)).is_finite(),
{
    let n = tm.n as nat;
    let moved = evolution::advanced(tm, v);
    assert forall|i: int, j: int| 0 <= i < tm.n && 0 <= j < tm.n implies order::not_below_zero(
        #[trigger] tm.at(i, j),
    ) by {
        assert(tm.at(i, j).is_finite());
        accuracy::lemma_number_sign(tm.at(i, j));
        order::lemma_sign(tm.at(i, j));
    }
    let million = |j: int| 1_000_000 as real;
    precision::lemma_sum_equal(million, 1_000_000 as real, n);
    assert(n as real * 1_000_000 as real <= 64_000_000 as real) by (nonlinear_arith)
        requires
            n as real <= 64 as real,
    ;
    precision::lemma_tiny();
    precision::lemma_growth(n + 2);
    assert forall|j: int| 0 <= j < n implies is_small(#[trigger] moved[j]) by {
        lemma_move(tm, v, j);
        let f = |i: int| precision::number(v[i]) * precision::number(tm.at(i, j));
        assert forall|i: int| 0 <= i < n implies #[trigger] f(i) <= million(i) by {
            accuracy::lemma_fractional(v[i]);
            assert(tm.at(i, j).is_finite());
            let (a, b) = (precision::number(v[i]), precision::number(tm.at(i, j)));
            assert(a * b <= 1_000_000 as real) by (nonlinear_arith)
                requires
                    0 as real <= a,
                    a <= 1 as real,
                    0 as real <= b,
                    b <= 1_000_000 as real,
            ;
        }
        precision::lemma_sum_order(f, million, n);
        let (x, g) = (mixing::inflow(tm, v, j), precision::growth(n + 2));
        assert(x <= 64_000_000 as real);
        assert(g * x <= x) by (nonlinear_arith)
            requires
                g <= 1 as real,
                x >= 0 as real,
        ;
    }
    let tops = |j: int| 200_000_000 as real;
    assert forall|j: int| 0 <= j < n implies (#[trigger] moved[j]).is_finite() by {
        assert(is_small(moved[j]));
    }
    assert forall|j: int| 0 <= j < n implies #[trigger] precision::sizes(moved)(j) <= tops(j) by {
        assert(is_small(moved[j]));
    }
    precision::lemma_sum_order(precision::sizes(moved), tops, n);
    precision::lemma_sum_equal(tops, 200_000_000 as real, n);
    assert(n as real * 200_000_000 as real <= 12_800_000_000 as real) by (nonlinear_arith)
        requires
            n as real <= 64 as real,
    ;
    order::lemma_sign(vector::nothing());
    precision::lemma_nonzero(moved);
    precision::lemma_sum_finite(vector::nothing(), moved);
}

/// The iterates are distributions, up to the first step that loses everything.
proof fn lemma_iterate_is_normal(tm: TransitionMatrix, k: nat)
    requires
        tm.wf(),
        tm.n > 0,
        entries_are_moderate(tm),
        forall|j: nat| 1 <= j <= k ==> !#[trigger] loses_all(tm, j),
    ensures
        evolution::iterate(tm, k).len() == tm.n,
        accuracy::is_normal(evolution::iterate(tm, k)),
    decreases k,
{
    evolution::lemma_iterate_len(tm, k);
    if k == 0 {
        accuracy::lemma_equal_shares(tm);
    } else {
        let l = (k - 1) as nat;
        let v = evolution::iterate(tm, l);
        lemma_iterate_is_normal(tm, l);
        lemma_moderate(tm, v);
        assert forall|i: int| 0 <= i < v.len() implies order::not_below_zero(#[trigger] v[i]) by {
            accuracy::lemma_fractional(v[i]);
            order::lemma_sign(v[i]);
        }
        laws::lemma_advanced_sign(tm, v);
        assert(!loses_all(tm, k));
        accuracy::lemma_normalized(evolution::advanced(tm, v));
    }
}

/// Each step of the power iteration gives each state its share in what exactly flows
/// from the distribution before, up to rounding, as long as what flows is not nearly
/// nothing. So a common factor of all entries of the matrix makes no difference.
pub proof fn law_iteration_steps_to_the_shares(tm: TransitionMatrix, k: nat)
    requires
        tm.wf(),
        tm.n > 0,
        entries_are_moderate(tm),
        forall|j: nat| 1 <= j <= k ==> !#[trigger] loses_all(tm, j),
        total_inflow(tm, evolution::iterate(tm, k)) * 10_000_000_000 as real >= 1 as real,
    ensures
        !loses_all(tm, k + 1),
        evolution::iterate(tm, k + 1).len() == tm.n,
        accuracy::is_probability_vector(evolution::iterate(tm, k + 1)),
        distance_from_shares(tm, evolution::iterate(tm, k), evolution::iterate(tm, k + 1))
            <= precision::growth(3 * tm.n as nat + 6),
{
    lemma_iterate_is_normal(tm, k);
    lemma_step(tm, evolution::iterate(tm, k));
    assert((k + 1 - 1) as nat == k);
    evolution::lemma_iterate_len(tm, k + 1);
}

/// Whatever the matrix holds, each step of the power iteration divides what the move
/// brings to each state by the sum of it, and no number is nearer to the quotient than
/// the result.
pub proof fn law_iteration_divides_by_the_sum(tm: TransitionMatrix, k: nat, j: int, c: Double)
    requires
        0 <= j < tm.n,
        c.is_finite(),
        evolution::advanced(tm, evolution::iterate(tm, k))[j].is_finite(),
        vector::total(evolution::advanced(tm, evolution::iterate(tm, k))).is_finite(),
        !loses_all(tm, k + 1),
        evolution::iterate(tm, k + 1)[j].is_finite(),
    ensures
        ({
            let moved = evolution::advanced(tm, evolution::iterate(tm, k));
            let (x, sum) = (precision::number(moved[j]), precision::number(vector::total(moved)));
            precision::size(precision::number(evolution::iterate(tm, k + 1)[j]) * sum - x)
                <= precision::size(precision::number(c) * sum - x)
        }),
{
    assert((k + 1 - 1) as nat == k);
    let moved = evolution::advanced(tm, evolution::iterate(tm, k));
    correct::law_quotient_is_the_nearest(moved[j], vector::total(moved), c);
}

/// What exactly flows to state `j` from the real vector `x`.
pub open spec fn carried(tm: TransitionMatrix, x: spec_fn(int) -> real, j: int) -> real {
    precision::sum_of(|i: int| x(i) * precision::number(tm.at(i, j)), tm.n as nat)
}

/// The absolute values of the entries.
pub open spec fn size_of(x: spec_fn(int) -> real) -> spec_fn(int) -> real {
    |i: int| precision::size(x(i))
}

/// Whether every state is left for each state `j` with at least the probability
/// `floor(j)`.
pub open spec fn spreads(tm: TransitionMatrix, floor: spec_fn(int) -> real) -> bool {
    &&& forall|j: int| 0 <= j < tm.n ==> #[trigger] floor(j) >= 0 as real
    &&& forall|i: int, j: int|
        0 <= i < tm.n && 0 <= j < tm.n ==> precision::number(#[trigger] tm.at(i, j)) >= floor(j)
}

/// The sum of the real entries of row `i` is at most `top`.
spec fn rows_up_to(tm: TransitionMatrix, top: real) -> bool {
    forall|i: int| 0 <= i < tm.n ==> #[trigger] accuracy::row_mass(tm, i) <= top
}

/// A move brings vectors together: what it makes of a vector is not larger than the
/// vector less the common part of all rows, and the common part of what the entries
/// add up to.
proof fn lemma_contracts(
    tm: TransitionMatrix,
    x: spec_fn(int) -> real,
    floor: spec_fn(int) -> real,
    top: real,
)
    requires
        spreads(tm, floor),
        rows_up_to(tm, top),
    ensures
        precision::sum_of(|j: int| precision::size(carried(tm, x, j)), tm.n as nat) <= (top
            - precision::sum_of(floor, tm.n as nat)) * precision::sum_of(size_of(x), tm.n as nat)
            + precision::sum_of(floor, tm.n as nat) * precision::size(
            precision::sum_of(x, tm.n as nat),
        ),
{
    let n = tm.n as nat;
    let total = precision::sum_of(x, n);
    let c = precision::size(total);
    let delta = precision::sum_of(floor, n);
    let g = |i: int, j: int|
        precision::size(x(i)) * (precision::number(tm.at(i, j)) - floor(j));
    let rests = |j: int| precision::sum_of(|i: int| g(i, j), n);
    let rows = |i: int| precision::sum_of(|j: int| g(i, j), n);
    let commons = |j: int| c * floor(j);
    let bounds = |j: int| commons(j) + rests(j);
    let results = |j: int| precision::size(carried(tm, x, j));
    assert forall|j: int| 0 <= j < n implies #[trigger] results(j) <= bounds(j) by {
        let whole = |i: int| x(i) * precision::number(tm.at(i, j));
        let common = |i: int| floor(j) * x(i);
        let rest = |i: int| g(i, j);
        assert(floor(j) >= 0 as real);
        assert forall|i: int| 0 <= i < n implies precision::size(#[trigger] whole(i) - common(i))
            <= rest(i) by {
            let (a, p, q) = (x(i), precision::number(tm.at(i, j)), floor(j));
            assert(p >= q);
            precision::lemma_product_size(a, p - q);
            assert(a * p - q * a == a * (p - q)) by (nonlinear_arith);
        }
        precision::lemma_sum_difference(whole, common, rest, n);
        precision::lemma_sum_scale(x, floor(j), common, n);
        precision::lemma_product_size(floor(j), total);
        let q = floor(j);
        assert(q * c == c * q) by (nonlinear_arith);
        assert(carried(tm, x, j) == precision::sum_of(whole, n));
    }
    precision::lemma_sum_order(results, bounds, n);
    precision::lemma_sum_plus(commons, rests, bounds, n);
    precision::lemma_sum_scale(floor, c, commons, n);
    precision::lemma_sum_swap(g, n, n);
    let parts = |i: int| (top - delta) * size_of(x)(i);
    assert forall|i: int| 0 <= i < n implies #[trigger] rows(i) <= parts(i) by {
        let entries = |j: int| accuracy::entry(tm, i, j);
        let lower = |j: int| -1 as real * floor(j);
        let above = |j: int| entries(j) + lower(j);
        let row = |j: int| g(i, j);
        precision::lemma_sum_scale(floor, -1 as real, lower, n);
        precision::lemma_sum_plus(entries, lower, above, n);
        let a = precision::size(x(i));
        assert forall|j: int| 0 <= j < n implies #[trigger] row(j) == a * above(j) by {}
        precision::lemma_sum_scale(above, a, row, n);
        let r = precision::sum_of(above, n);
        assert(accuracy::row_mass(tm, i) <= top);
        assert(a * r <= (top - delta) * a) by (nonlinear_arith)
            requires
                r <= top - delta,
                a >= 0 as real,
        ;
    }
    precision::lemma_sum_order(rows, parts, n);
    precision::lemma_sum_scale(size_of(x), top - delta, parts, n);
    assert(c * delta == delta * c) by (nonlinear_arith);
}

/// Whether the matrix is that of a chain: no entry is below zero, and the rows add up
/// to one up to ten to the power -12.
pub open spec fn is_stochastic(tm: TransitionMatrix) -> bool {
    &&& tm.wf()
    &&& tm.n > 0
    &&& laws::entries_nonnegative(tm)
    &&& accuracy::rows_near_one(tm)
}

/// The entries and rows of a chain.
proof fn lemma_stochastic(tm: TransitionMatrix)
    requires
        is_stochastic(tm),
    ensures
        entries_are_moderate(tm),
        forall|i: int|
            0 <= i < tm.n ==> precision::size(
                #[trigger] accuracy::row_mass(tm, i) - 1 as real,
            ) * 900_000_000_000 as real <= 1 as real,
{
    assert forall|i: int, j: int| 0 <= i < tm.n && 0 <= j < tm.n implies (#[trigger] tm.at(
        i,
        j,
    )).is_finite() && precision::number(tm.at(i, j)) >= 0 as real && precision::number(tm.at(i, j))
        <= 1_000_000 as real by {
        accuracy::lemma_row(tm, i);
        assert(tm.at(i, j).is_finite());
        assert(accuracy::entry(tm, i, j) >= 0 as real);
    }
    assert forall|i: int| 0 <= i < tm.n implies precision::size(
        #[trigger] accuracy::row_mass(tm, i) - 1 as real,
    ) * 900_000_000_000 as real <= 1 as real by {
        accuracy::lemma_row(tm, i);
    }
}

/// A move of a chain keeps what the entries add up to, nearly.
proof fn lemma_carried_total(tm: TransitionMatrix, x: spec_fn(int) -> real)
    requires
        is_stochastic(tm),
    ensures
        precision::size(
            precision::sum_of(|j: int| carried(tm, x, j), tm.n as nat) - precision::sum_of(
                x,
                tm.n as nat,
            ),
        ) * 900_000_000_000 as real <= precision::sum_of(size_of(x), tm.n as nat),
{
    let n = tm.n as nat;
    lemma_stochastic(tm);
    let g = |i: int, j: int| x(i) * precision::number(tm.at(i, j));
    let rows = |i: int| precision::sum_of(|j: int| g(i, j), n);
    let columns = |j: int| precision::sum_of(|i: int| g(i, j), n);
    precision::lemma_sum_swap(g, n, n);
    let results = |j: int| carried(tm, x, j);
    assert forall|j: int| 0 <= j < n implies #[trigger] results(j) == columns(j) by {
        let column = |i: int| g(i, j);
        let terms = |i: int| x(i) * precision::number(tm.at(i, j));
        precision::lemma_sum_same(column, terms, n);
    }
    precision::lemma_sum_same(results, columns, n);
    let rho = 1 as real / 900_000_000_000 as real;
    assert(rho * 900_000_000_000 as real == 1 as real) by (nonlinear_arith)
        requires
            rho == 1 as real / 900_000_000_000 as real,
    ;
    let losses = |i: int| rho * size_of(x)(i);
    assert forall|i: int| 0 <= i < n implies precision::size(#[trigger] rows(i) - x(i)) <= losses(
        i,
    ) by {
        let (a, r) = (x(i), accuracy::row_mass(tm, i));
        let entries = |j: int| accuracy::entry(tm, i, j);
        let row = |j: int| g(i, j);
        precision::lemma_sum_scale(entries, a, row, n);
        let d = r - 1 as real;
        assert(a * r - a == a * d) by (nonlinear_arith)
            requires
                d == r - 1 as real,
        ;
        precision::lemma_product_size(a, d);
        let (y, z) = (precision::size(a), precision::size(d));
        assert(y * z <= rho * y) by (nonlinear_arith)
            requires
                z <= rho,
                y >= 0 as real,
        ;
    }
    precision::lemma_sum_difference(rows, x, losses, n);
    precision::lemma_sum_scale(size_of(x), rho, losses, n);
}

/// What flows from a distribution adds up to nearly one.
proof fn lemma_total_inflow(tm: TransitionMatrix, v: Seq<Double>)
    requires
        is_stochastic(tm),
        v.len() == tm.n,
        accuracy::is_normal(v),
    ensures
        precision::size(total_inflow(tm, v) - 1 as real) * 500_000_000_000 as real <= 1 as real,
{
    let n = tm.n as nat;
    let x = precision::numbers(v);
    lemma_carried_total(tm, x);
    let results = |j: int| carried(tm, x, j);
    assert forall|j: int| 0 <= j < n implies #[trigger] results(j) == inflows(tm, v)(j) by {
        precision::lemma_sum_same(
            |i: int| x(i) * precision::number(tm.at(i, j)),
            |i: int| precision::number(v[i]) * precision::number(tm.at(i, j)),
            n,
        );
    }
    precision::lemma_sum_same(results, inflows(tm, v), n);
    assert forall|i: int| 0 <= i < n implies #[trigger] size_of(x)(i) == x(i) by {
        accuracy::lemma_fractional(v[i]);
    }
    precision::lemma_sum_same(size_of(x), x, n);
}

/// The power iteration of a chain loses nothing, and its iterates are distributions.
pub proof fn law_iterates_of_a_chain(tm: TransitionMatrix, k: nat)
    requires
        is_stochastic(tm),
    ensures
        evolution::iterate(tm, k).len() == tm.n,
        accuracy::is_probability_vector(evolution::iterate(tm, k)),
        !loses_all(tm, k + 1),
        distance_from_shares(tm, evolution::iterate(tm, k), evolution::iterate(tm, k + 1))
            <= precision::growth(3 * tm.n as nat + 6),
{
    lemma_chain_iterate(tm, k);
    lemma_total_inflow(tm, evolution::iterate(tm, k));
    lemma_stochastic(tm);
    lemma_step(tm, evolution::iterate(tm, k));
    assert((k + 1 - 1) as nat == k);
}

/// The iterates of a chain are distributions.
proof fn lemma_chain_iterate(tm: TransitionMatrix, k: nat)
    requires
        is_stochastic(tm),
    ensures
        evolution::iterate(tm, k).len() == tm.n,
        accuracy::is_normal(evolution::iterate(tm, k)),
        precision::size(accuracy::mass(evolution::iterate(tm, k)) - 1 as real)
            <= precision::growth(tm.n as nat + 2),
        k > 0 ==> !loses_all(tm, k),
    decreases k,
{
    let n = tm.n as nat;
    evolution::lemma_iterate_len(tm, k);
    if k == 0 {
        accuracy::lemma_equal_shares(tm);
        let v = evolution::iterate(tm, 0);
        let x = precision::numbers(v);
        law_iteration_starts_with_equal_shares(tm, 0);
        let q = x(0);
        precision::lemma_sum_equal(x, q, n);
        precision::lemma_eps();
        precision::lemma_tiny();
        precision::lemma_growth(n);
        precision::lemma_growth(n + 1);
        let (e, t) = (precision::eps(), precision::tiny());
        let (c, r) = (n as real, 1 as real / n as real);
        assert(c * r == 1 as real) by (nonlinear_arith)
            requires
                r == 1 as real / c,
                c >= 1 as real,
        ;
        assert(c * q - 1 as real <= e + 64 as real * t && 1 as real - c * q <= e + 64 as real * t)
            by (nonlinear_arith)
            requires
                q - r <= e * r + t,
                r - q <= e * r + t,
                c * r == 1 as real,
                1 as real <= c,
                c <= 64 as real,
                t > 0 as real,
        {
            assert(c * (q - r) <= c * (e * r + t));
            assert(c * (r - q) <= c * (e * r + t));
            assert(c * (e * r + t) == e * (c * r) + c * t);
            assert(c * t <= 64 as real * t);
        }
    } else {
        let l = (k - 1) as nat;
        lemma_chain_iterate(tm, l);
        lemma_total_inflow(tm, evolution::iterate(tm, l));
        lemma_stochastic(tm);
        lemma_step(tm, evolution::iterate(tm, l));
    }
}

/// What all states have in common: a part of this size of each row is the same.
pub open spec fn common_part(tm: TransitionMatrix, floor: spec_fn(int) -> real) -> real {
    precision::sum_of(floor, tm.n as nat)
}

/// The common part is not below zero, and hardly above one.
proof fn lemma_common_part(tm: TransitionMatrix, floor: spec_fn(int) -> real)
    requires
        is_stochastic(tm),
        spreads(tm, floor),
    ensures
        common_part(tm, floor) >= 0 as real,
        (common_part(tm, floor) - 1 as real) * 900_000_000_000 as real <= 1 as real,
{
    lemma_stochastic(tm);
    let n = tm.n as nat;
    precision::lemma_sum_bounds(floor, n, 0);
    let entries = |j: int| accuracy::entry(tm, 0, j);
    assert forall|j: int| 0 <= j < n implies #[trigger] floor(j) <= entries(j) by {
        assert(tm.at(0, j).is_finite());
    }
    precision::lemma_sum_order(floor, entries, n);
    assert(precision::size(accuracy::row_mass(tm, 0) - 1 as real) * 900_000_000_000 as real
        <= 1 as real);
}

/// The difference of two vectors.
spec fn difference(a: Seq<Double>, b: Seq<Double>) -> spec_fn(int) -> real {
    |i: int| precision::number(a[i]) - precision::number(b[i])
}

/// A step brings two distributions together, up to rounding.
proof fn lemma_shares_come_together(
    tm: TransitionMatrix,
    a: Seq<Double>,
    b: Seq<Double>,
    floor: spec_fn(int) -> real,
    c: real,
) -> (z: real)
    requires
        is_stochastic(tm),
        spreads(tm, floor),
        a.len() == tm.n,
        b.len() == tm.n,
        accuracy::is_normal(a),
        accuracy::is_normal(b),
        precision::size(precision::sum_of(difference(a, b), tm.n as nat)) <= c,
    ensures
        z == precision::sum_of(
            |j: int|
                precision::size(
                    mixing::inflow(tm, a, j) / total_inflow(tm, a) - mixing::inflow(tm, b, j)
                        / total_inflow(tm, b),
                ),
            tm.n as nat,
        ),
        z * 1_000_000_000 as real <= (1_000_000_001 as real - 1_000_000_000 as real * common_part(
            tm,
            floor,
        )) * mixing::exact_l1(a, b) + 2_000_000_001 as real * c,
{
    let n = tm.n as nat;
    let x = difference(a, b);
    let d = precision::sum_of(size_of(x), n);
    let delta = common_part(tm, floor);
    assert(d == mixing::exact_l1(a, b)) by {
        precision::lemma_sum_same(size_of(x), mixing::gaps(a, b), n);
    }
    precision::lemma_sum_bounds(size_of(x), n, 0);
    lemma_stochastic(tm);
    lemma_common_part(tm, floor);
    lemma_total_inflow(tm, a);
    lemma_total_inflow(tm, b);
    let (y, y2) = (total_inflow(tm, a), total_inflow(tm, b));
    let rho = 1 as real / 900_000_000_000 as real;
    assert(rho * 900_000_000_000 as real == 1 as real) by (nonlinear_arith)
        requires
            rho == 1 as real / 900_000_000_000 as real,
    ;
    let top = 1 as real + rho;
    lemma_rows_up_to(tm, rho);
    lemma_contracts(tm, x, floor, top);
    lemma_carried_total(tm, x);
    let (fa, fb) = (inflows(tm, a), inflows(tm, b));
    let moved = |j: int| carried(tm, x, j);
    let minus = |j: int| -1 as real * fb(j);
    assert forall|j: int| 0 <= j < n implies #[trigger] moved(j) == fa(j) + minus(j) by {
        let ta = |i: int| precision::number(a[i]) * precision::number(tm.at(i, j));
        let tb = |i: int| precision::number(b[i]) * precision::number(tm.at(i, j));
        let neg = |i: int| -1 as real * tb(i);
        let tx = |i: int| x(i) * precision::number(tm.at(i, j));
        assert forall|i: int| 0 <= i < n implies #[trigger] tx(i) == ta(i) + neg(i) by {
            let (p, q, r) = (
                precision::number(a[i]),
                precision::number(b[i]),
                precision::number(tm.at(i, j)),
            );
            assert((p - q) * r == p * r - q * r) by (nonlinear_arith);
        }
        precision::lemma_sum_plus(ta, neg, tx, n);
        precision::lemma_sum_scale(tb, -1 as real, neg, n);
    }
    precision::lemma_sum_plus(fa, minus, moved, n);
    precision::lemma_sum_scale(fb, -1 as real, minus, n);
    let w = precision::size(y2 - y);
    // The shares.
    let z = |j: int| precision::size(fa(j) / y - fb(j) / y2);
    let yz = |j: int| y * z(j);
    let sizes = |j: int| precision::size(carried(tm, x, j));
    let u = |j: int| fb(j) / y2;
    let weights = |j: int| w * u(j);
    let bounds = |j: int| sizes(j) + weights(j);
    assert forall|j: int| 0 <= j < n implies #[trigger] yz(j) <= bounds(j) by {
        assert(moved(j) == fa(j) + minus(j));
        lemma_move(tm, b, j);
        lemma_quotient_gap(fa(j), fb(j), y, y2, sizes(j));
    }
    assert forall|j: int| 0 <= j < n implies #[trigger] u(j) == (1 as real / y2) * fb(j) by {
        let (p, q) = (fb(j), y2);
        assert(p / q == (1 as real / q) * p) by (nonlinear_arith)
            requires
                q > 0 as real,
        ;
    }
    precision::lemma_sum_scale(fb, 1 as real / y2, u, n);
    assert((1 as real / y2) * y2 == 1 as real) by (nonlinear_arith)
        requires
            y2 > 0 as real,
    ;
    precision::lemma_sum_scale(u, w, weights, n);
    let us = precision::sum_of(u, n);
    assert(w * us == w) by (nonlinear_arith)
        requires
            us == 1 as real,
    ;
    precision::lemma_sum_plus(sizes, weights, bounds, n);
    precision::lemma_sum_order(yz, bounds, n);
    precision::lemma_sum_scale(z, y, yz, n);
    precision::lemma_sum_bounds(z, n, 0);
    let zs = precision::sum_of(z, n);
    lemma_together_arithmetic(y, zs, d, delta, rho, precision::size(precision::sum_of(x, n)), w);
    let lines = |j: int|
        precision::size(
            mixing::inflow(tm, a, j) / total_inflow(tm, a) - mixing::inflow(tm, b, j)
                / total_inflow(tm, b),
        );
    precision::lemma_sum_same(z, lines, n);
    zs
}

/// The arithmetic of coming together.
proof fn lemma_together_arithmetic(
    y: real,
    z: real,
    d: real,
    delta: real,
    rho: real,
    c: real,
    w: real,
)
    requires
        precision::size(y - 1 as real) * 500_000_000_000 as real <= 1 as real,
        z >= 0 as real,
        d >= 0 as real,
        c >= 0 as real,
        delta >= 0 as real,
        rho * 900_000_000_000 as real == 1 as real,
        delta <= 1 as real + rho,
        w * 900_000_000_000 as real <= c * 900_000_000_000 as real + d,
        y * z <= (1 as real + rho - delta) * d + delta * c + w,
    ensures
        z * 1_000_000_000 as real <= (1_000_000_001 as real - 1_000_000_000 as real * delta) * d
            + 2_000_000_001 as real * c,
{
    let dd = delta * d;
    assert((1 as real + rho - delta) * d == d + rho * d - dd) by (nonlinear_arith)
        requires
            dd == delta * d,
    ;
    assert((1_000_000_001 as real - 1_000_000_000 as real * delta) * d == 1_000_000_001 as real * d
        - 1_000_000_000 as real * dd) by (nonlinear_arith)
        requires
            dd == delta * d,
    ;
    assert(rho * d * 900_000_000_000 as real == d) by (nonlinear_arith)
        requires
            rho * 900_000_000_000 as real == 1 as real,
    ;
    assert(0 as real <= dd && dd <= d + rho * d) by (nonlinear_arith)
        requires
            dd == delta * d,
            delta >= 0 as real,
            delta <= 1 as real + rho,
            d >= 0 as real,
    ;
    assert(delta * c <= c + rho * c) by (nonlinear_arith)
        requires
            delta <= 1 as real + rho,
            c >= 0 as real,
    ;
    assert(rho * c * 900_000_000_000 as real == c) by (nonlinear_arith)
        requires
            rho * 900_000_000_000 as real == 1 as real,
    ;
    let k = 1 as real - y;
    let yz = y * z;
    assert(z == yz + k * z) by (nonlinear_arith)
        requires
            yz == y * z,
            k == 1 as real - y,
    ;
    assert(k * z * 500_000_000_000 as real <= z) by (nonlinear_arith)
        requires
            k * 500_000_000_000 as real <= 1 as real,
            z >= 0 as real,
    ;
}

/// The steps of a chain get smaller by the common part of its rows, up to rounding.
pub proof fn law_changes_shrink(tm: TransitionMatrix, floor: spec_fn(int) -> real, k: nat)
    requires
        is_stochastic(tm),
        spreads(tm, floor),
        k >= 1,
    ensures
        change(tm, k + 1) <= (1 as real - common_part(tm, floor) + 1 as real
            / 1_000_000_000 as real) * change(tm, k) + precision::growth(10 * tm.n as nat + 21),
{
    let n = tm.n as nat;
    let l = (k - 1) as nat;
    let (a, b, w) = (
        evolution::iterate(tm, k),
        evolution::iterate(tm, l),
        evolution::iterate(tm, k + 1),
    );
    lemma_chain_iterate(tm, k);
    lemma_chain_iterate(tm, l);
    lemma_chain_iterate(tm, k + 1);
    law_iterates_of_a_chain(tm, k);
    law_iterates_of_a_chain(tm, l);
    assert(l + 1 == k);
    let x = difference(a, b);
    let (na, nb) = (precision::numbers(a), precision::numbers(b));
    let neg = |i: int| -1 as real * nb(i);
    precision::lemma_sum_scale(nb, -1 as real, neg, n);
    precision::lemma_sum_plus(na, neg, x, n);
    let c = 2 as real * precision::growth(n + 2);
    assert(precision::sum_of(neg, n) == -precision::sum_of(nb, n));
    assert(precision::sum_of(x, n) == accuracy::mass(a) - accuracy::mass(b));
    let z = lemma_shares_come_together(tm, a, b, floor, c);
    let lines = |j: int|
        precision::size(
            mixing::inflow(tm, a, j) / total_inflow(tm, a) - mixing::inflow(tm, b, j)
                / total_inflow(tm, b),
        );
    let (ga, gb) = (share_gaps(tm, a, w), share_gaps(tm, b, a));
    let some = |j: int| ga(j) + lines(j);
    let all = |j: int| some(j) + gb(j);
    let gaps = mixing::gaps(w, a);
    assert forall|j: int| 0 <= j < n implies #[trigger] gaps(j) <= all(j) by {}
    precision::lemma_sum_order(gaps, all, n);
    precision::lemma_sum_plus(ga, lines, some, n);
    precision::lemma_sum_plus(some, gb, all, n);
    assert(mixing::exact_l1(w, a) == change(tm, k + 1));
    assert(mixing::exact_l1(a, b) == change(tm, k));
    // The errors.
    let e = precision::eps();
    precision::lemma_eps();
    precision::lemma_growth(n + 2);
    precision::lemma_growth(3 * n + 6);
    precision::lemma_growth(10 * n + 21);
    let m = n as real;
    assert((n + 2) as real == m + 2 as real && (3 * n + 6) as real == 3 as real * m + 6 as real
        && (10 * n + 21) as real == 10 as real * m + 21 as real);
    let me = m * e;
    assert((m + 2 as real) * e == me + 2 as real * e && (3 as real * m + 6 as real) * e
        == 3 as real * me + 6 as real * e && (10 as real * m + 21 as real) * e == 10 as real * me
        + 21 as real * e) by (nonlinear_arith)
        requires
            me == m * e,
    ;
    assert(me <= 64 as real * e) by (nonlinear_arith)
        requires
            me == m * e,
            m <= 64 as real,
            e > 0 as real,
    ;
    let (delta, d) = (common_part(tm, floor), change(tm, k));
    let small = 1 as real / 1_000_000_000 as real;
    assert(small * 1_000_000_000 as real == 1 as real) by (nonlinear_arith)
        requires
            small == 1 as real / 1_000_000_000 as real,
    ;
    assert((1_000_000_001 as real - 1_000_000_000 as real * delta) * d == 1_000_000_000 as real * ((
    1 as real - delta + small) * d)) by (nonlinear_arith)
        requires
            small * 1_000_000_000 as real == 1 as real,
    ;
}

/// How far the change in step `k` is above a limit.
spec fn excess(tm: TransitionMatrix, limit: real, k: nat) -> real {
    if change(tm, k) > limit {
        change(tm, k) - limit
    } else {
        0 as real
    }
}

/// The excess shrinks with the number of steps.
proof fn lemma_excess(
    tm: TransitionMatrix,
    floor: spec_fn(int) -> real,
    limit: real,
    rate: real,
    k: nat,
    m: nat,
)
    requires
        is_stochastic(tm),
        spreads(tm, floor),
        k >= 1,
        rate == common_part(tm, floor) - 1 as real / 1_000_000_000 as real,
        rate > 0 as real,
        limit * rate == precision::growth(10 * tm.n as nat + 21),
    ensures
        excess(tm, limit, k + m) >= 0 as real,
        excess(tm, limit, k + m) * (1 as real + m as real * rate) <= excess(tm, limit, k),
    decreases m,
{
    if m == 0 {
        let x = excess(tm, limit, k);
        assert(x * (1 as real + 0 as real * rate) == x) by (nonlinear_arith);
        assert(k + 0 == k);
    } else {
        let l = (m - 1) as nat;
        lemma_excess(tm, floor, limit, rate, k, l);
        law_changes_shrink(tm, floor, k + l);
        lemma_common_part(tm, floor);
        assert(k + l + 1 == k + m);
        let (x, y) = (excess(tm, limit, k + l), excess(tm, limit, k + m));
        let (a, b) = (change(tm, k + l), change(tm, k + m));
        let small = 1 as real / 1_000_000_000 as real;
        assert(small * 1_000_000_000 as real == 1 as real) by (nonlinear_arith)
            requires
                small == 1 as real / 1_000_000_000 as real,
        ;
        assert(1 as real - rate == 1 as real - common_part(tm, floor) + small);
        assert((1 as real - rate) * a - limit + limit * rate == (1 as real - rate) * (a - limit))
            by (nonlinear_arith);
        assert((1 as real - rate) * (a - limit) <= (1 as real - rate) * x) by (nonlinear_arith)
            requires
                a - limit <= x,
                1 as real - rate >= 0 as real,
        ;
        assert((1 as real - rate) * x >= 0 as real) by (nonlinear_arith)
            requires
                x >= 0 as real,
                1 as real - rate >= 0 as real,
        ;
        assert(y <= (1 as real - rate) * x);
        let c = l as real;
        assert(m as real == c + 1 as real);
        assert(y * (1 as real + (c + 1 as real) * rate) <= x * (1 as real + c * rate))
            by (nonlinear_arith)
            requires
                y <= (1 as real - rate) * x,
                x >= 0 as real,
                rate > 0 as real,
                c >= 0 as real,
        {
            let f = 1 as real + (c + 1 as real) * rate;
            assert(f >= 0 as real);
            assert(y * f <= ((1 as real - rate) * x) * f);
            assert((1 as real - rate) * f == 1 as real + c * rate - (c + 1 as real) * (rate * rate));
            assert((c + 1 as real) * (rate * rate) >= 0 as real);
            assert(((1 as real - rate) * x) * f == x * ((1 as real - rate) * f));
            assert(x * ((1 as real - rate) * f) <= x * (1 as real + c * rate));
        }
    }
}

/// Many steps leave a hundredth of the excess.
proof fn lemma_hundredth(
    tm: TransitionMatrix,
    floor: spec_fn(int) -> real,
    limit: real,
    rate: real,
    k: nat,
)
    requires
        is_stochastic(tm),
        spreads(tm, floor),
        k >= 1,
        rate == common_part(tm, floor) - 1 as real / 1_000_000_000 as real,
        rate * 14_000 as real >= 100 as real,
        limit * rate == precision::growth(10 * tm.n as nat + 21),
    ensures
        excess(tm, limit, k + 14_000) >= 0 as real,
        excess(tm, limit, k + 14_000) * 100 as real <= excess(tm, limit, k),
{
    lemma_excess(tm, floor, limit, rate, k, 14_000);
    let x = excess(tm, limit, k + 14_000);
    let f = 1 as real + 14_000 as real * rate;
    assert(x * 100 as real <= x * f) by (nonlinear_arith)
        requires
            x >= 0 as real,
            100 as real <= f,
    ;
}

/// A chain whose rows have enough in common settles within 100 000 steps.
proof fn lemma_settles_in_time(tm: TransitionMatrix, floor: spec_fn(int) -> real)
    requires
        is_stochastic(tm),
        spreads(tm, floor),
        common_part(tm, floor) * 4_000 as real >= 10 as real * tm.n as real + 22 as real,
    ensures
        settles(tm, 98_001),
{
    let n = tm.n as nat;
    let small = 1 as real / 1_000_000_000 as real;
    assert(small * 1_000_000_000 as real == 1 as real) by (nonlinear_arith)
        requires
            small == 1 as real / 1_000_000_000 as real,
    ;
    let rate = common_part(tm, floor) - small;
    let noise = precision::growth(10 * n + 21);
    let limit = noise / rate;
    precision::lemma_growth(10 * n + 21);
    precision::lemma_eps();
    let e = precision::eps();
    assert((10 * n + 21) as real == 10 as real * n as real + 21 as real);
    assert(limit * rate == noise) by (nonlinear_arith)
        requires
            limit == noise / rate,
            rate > 0 as real,
    ;
    let c = (10 * n + 21) as real;
    assert(limit <= 4_000 as real * e) by (nonlinear_arith)
        requires
            limit * rate == c * e,
            c <= 4_000 as real * rate,
            rate > 0 as real,
            e > 0 as real,
    {
        assert(c * e <= (4_000 as real * rate) * e);
        assert(limit * rate <= (4_000 as real * e) * rate);
    }
    lemma_chain_iterate(tm, 0);
    lemma_chain_iterate(tm, 1);
    lemma_change_is_small(tm, 1);
    assert(limit >= 0 as real) by (nonlinear_arith)
        requires
            limit * rate == noise,
            noise >= 0 as real,
            rate > 0 as real,
    ;
    lemma_hundredth(tm, floor, limit, rate, 1);
    lemma_hundredth(tm, floor, limit, rate, 14_001);
    lemma_hundredth(tm, floor, limit, rate, 28_001);
    lemma_hundredth(tm, floor, limit, rate, 42_001);
    lemma_hundredth(tm, floor, limit, rate, 56_001);
    lemma_hundredth(tm, floor, limit, rate, 70_001);
    lemma_hundredth(tm, floor, limit, rate, 84_001);
    lemma_change_is_small(tm, 98_001);
}

/// The iterates of a chain are finite and not far apart.
proof fn lemma_change_is_small(tm: TransitionMatrix, k: nat)
    requires
        is_stochastic(tm),
        k >= 1,
    ensures
        step_is_finite(tm, k),
        change(tm, k) <= 3 as real,
{
    let n = tm.n as nat;
    let (a, b) = (evolution::iterate(tm, k), evolution::iterate(tm, (k - 1) as nat));
    lemma_chain_iterate(tm, k);
    lemma_chain_iterate(tm, (k - 1) as nat);
    let both = |i: int| precision::numbers(a)(i) + precision::numbers(b)(i);
    let gaps = mixing::gaps(a, b);
    assert forall|i: int| 0 <= i < n implies (#[trigger] a[i]).is_finite() && b[i].is_finite()
        && gaps(i) <= both(i) by {
        accuracy::lemma_fractional(a[i]);
        accuracy::lemma_fractional(b[i]);
    }
    assert forall|i: int| 0 <= i < n implies #[trigger] gaps(i) <= both(i) by {
        assert(a[i].is_finite());
    }
    precision::lemma_sum_order(gaps, both, n);
    precision::lemma_sum_plus(precision::numbers(a), precision::numbers(b), both, n);
}

/// Some step is the first that is close, if one is.
proof fn lemma_first_close(tm: TransitionMatrix, k: nat) -> (first: nat)
    requires
        k >= 1,
        evolution::is_close(tm, k),
    ensures
        1 <= first <= k,
        evolution::is_close(tm, first),
        forall|j: nat| 1 <= j < first ==> !#[trigger] evolution::is_close(tm, j),
    decreases k,
{
    if exists|j: nat| 1 <= j < k && #[trigger] evolution::is_close(tm, j) {
        let j = choose|j: nat| 1 <= j < k && #[trigger] evolution::is_close(tm, j);
        lemma_first_close(tm, j)
    } else {
        k
    }
}

/// Where the rows of a chain have enough in common, the stationary distribution is
/// found.
pub proof fn law_stationary_exists(tm: TransitionMatrix, floor: spec_fn(int) -> real)
    requires
        is_stochastic(tm),
        spreads(tm, floor),
        common_part(tm, floor) * 4_000 as real >= 10 as real * tm.n as real + 22 as real,
    ensures
        evolution::stationary(tm) is Some,
{
    lemma_settles_in_time(tm, floor);
    law_close_is_by_distance(tm, 98_001);
    let k = lemma_first_close(tm, 98_001);
    assert forall|j: nat| 1 <= j <= k implies !#[trigger] evolution::vanishes(tm, j) by {
        lemma_chain_iterate(tm, j);
        lemma_vanishes(tm, j);
    }
    assert(evolution::converges_at(tm, k));
}

/// The difference of two real vectors.
pub open spec fn apart(p: spec_fn(int) -> real, q: spec_fn(int) -> real) -> spec_fn(int) -> real {
    |i: int| p(i) - q(i)
}

/// What a move changes in a real vector.
pub open spec fn moved_off(tm: TransitionMatrix, p: spec_fn(int) -> real) -> spec_fn(int) -> real {
    |j: int| carried(tm, p, j) - p(j)
}

/// The sum of the absolute values of the first entries.
pub open spec fn extent(x: spec_fn(int) -> real, n: nat) -> real {
    precision::sum_of(size_of(x), n)
}

/// What a difference is carried to.
proof fn lemma_carried_apart(
    tm: TransitionMatrix,
    p: spec_fn(int) -> real,
    q: spec_fn(int) -> real,
    j: int,
)
    ensures
        carried(tm, apart(p, q), j) == carried(tm, p, j) - carried(tm, q, j),
{
    let n = tm.n as nat;
    let x = apart(p, q);
    let tp = |i: int| p(i) * precision::number(tm.at(i, j));
    let tq = |i: int| q(i) * precision::number(tm.at(i, j));
    let neg = |i: int| -1 as real * tq(i);
    let tx = |i: int| x(i) * precision::number(tm.at(i, j));
    assert forall|i: int| 0 <= i < n implies #[trigger] tx(i) == tp(i) + neg(i) by {
        let (a, b, r) = (p(i), q(i), precision::number(tm.at(i, j)));
        assert((a - b) * r == a * r - b * r) by (nonlinear_arith);
    }
    precision::lemma_sum_plus(tp, neg, tx, n);
    precision::lemma_sum_scale(tq, -1 as real, neg, n);
}

/// The sum of a difference.
proof fn lemma_sum_apart(p: spec_fn(int) -> real, q: spec_fn(int) -> real, n: nat)
    ensures
        precision::sum_of(apart(p, q), n) == precision::sum_of(p, n) - precision::sum_of(q, n),
    decreases n,
{
    if n > 0 {
        lemma_sum_apart(p, q, (n - 1) as nat);
    }
}

/// A move changes a stationary distribution of a chain by less than ten to the power
/// -11 in all.
pub proof fn law_stationary_hardly_moves(tm: TransitionMatrix)
    requires
        is_stochastic(tm),
        evolution::stationary(tm) is Some,
    ensures
        extent(
            moved_off(tm, precision::numbers(evolution::stationary(tm).unwrap())),
            tm.n as nat,
        ) * 1_000_000_000_000 as real <= 4 as real,
{
    let n = tm.n as nat;
    let k = law_stationary_settles(tm);
    let l = (k - 1) as nat;
    let (w, v) = (evolution::iterate(tm, k), evolution::iterate(tm, l));
    lemma_chain_iterate(tm, k);
    lemma_chain_iterate(tm, l);
    law_iterates_of_a_chain(tm, l);
    lemma_total_inflow(tm, v);
    lemma_stochastic(tm);
    let y = total_inflow(tm, v);
    let (p, q) = (precision::numbers(w), precision::numbers(v));
    let x = apart(q, p);
    let zero = |j: int| 0 as real;
    precision::lemma_sum_equal(zero, 0 as real, n);
    assert(n as real * 0 as real == 0 as real) by (nonlinear_arith);
    let rho = 1 as real / 900_000_000_000 as real;
    assert(rho * 900_000_000_000 as real == 1 as real) by (nonlinear_arith)
        requires
            rho == 1 as real / 900_000_000_000 as real,
    ;
    let top = 1 as real + rho;
    lemma_rows_up_to(tm, rho);
    assert(spreads(tm, zero)) by {
        assert forall|i: int, j: int| 0 <= i < tm.n && 0 <= j < tm.n implies precision::number(
            #[trigger] tm.at(i, j),
        ) >= zero(j) by {
            assert(tm.at(i, j).is_finite());
        }
    }
    lemma_contracts(tm, x, zero, top);
    precision::lemma_sum_same(size_of(x), mixing::gaps(w, v), n);
    let d = change(tm, k);
    let c = precision::size(precision::sum_of(x, n));
    assert((top - 0 as real) * d + 0 as real * c == d + rho * d) by (nonlinear_arith)
        requires
            top == 1 as real + rho,
    ;
    assert(rho * d * 900_000_000_000 as real == d) by (nonlinear_arith)
        requires
            rho * 900_000_000_000 as real == 1 as real,
    ;
    let near = share_gaps(tm, v, w);
    let f = inflows(tm, v);
    let u = |j: int| f(j) / y;
    let r = precision::size(1 as real - y);
    let scaled = |j: int| r * u(j);
    let carry = |j: int| precision::size(carried(tm, x, j));
    let some = |j: int| near(j) + scaled(j);
    let all = |j: int| some(j) + carry(j);
    let off = size_of(moved_off(tm, p));
    assert forall|j: int| 0 <= j < n implies #[trigger] off(j) <= all(j) by {
        lemma_carried_apart(tm, q, p, j);
        lemma_move(tm, v, j);
        precision::lemma_sum_same(
            |i: int| q(i) * precision::number(tm.at(i, j)),
            |i: int| precision::number(v[i]) * precision::number(tm.at(i, j)),
            n,
        );
        assert(carried(tm, q, j) == f(j));
        let (a, b) = (f(j), u(j));
        assert(b * y == a && b >= 0 as real) by (nonlinear_arith)
            requires
                b == a / y,
                y > 0 as real,
                a >= 0 as real,
        ;
        assert(b - a <= r * b && a - b <= r * b) by (nonlinear_arith)
            requires
                b * y == a,
                b >= 0 as real,
                1 as real - y <= r,
                y - 1 as real <= r,
        ;
    }
    precision::lemma_sum_order(off, all, n);
    precision::lemma_sum_plus(near, scaled, some, n);
    precision::lemma_sum_plus(some, carry, all, n);
    assert forall|j: int| 0 <= j < n implies #[trigger] u(j) == (1 as real / y) * f(j) by {
        let a = f(j);
        assert(a / y == (1 as real / y) * a) by (nonlinear_arith)
            requires
                y > 0 as real,
        ;
    }
    precision::lemma_sum_scale(f, 1 as real / y, u, n);
    assert((1 as real / y) * y == 1 as real) by (nonlinear_arith)
        requires
            y > 0 as real,
    ;
    precision::lemma_sum_scale(u, r, scaled, n);
    let us = precision::sum_of(u, n);
    assert(r * us == r) by (nonlinear_arith)
        requires
            us == 1 as real,
    ;
    precision::lemma_growth(3 * n + 6);
}

/// The rows of a chain are hardly above one.
proof fn lemma_rows_up_to(tm: TransitionMatrix, rho: real)
    requires
        is_stochastic(tm),
        rho * 900_000_000_000 as real == 1 as real,
    ensures
        rows_up_to(tm, 1 as real + rho),
{
    lemma_stochastic(tm);
    assert forall|i: int| 0 <= i < tm.n implies #[trigger] accuracy::row_mass(tm, i) <= 1 as real
        + rho by {
        assert(precision::size(accuracy::row_mass(tm, i) - 1 as real) * 900_000_000_000 as real
            <= 1 as real);
    }
}

/// The stationary distribution is near every real vector that a move leaves nearly
/// unchanged and that adds up to nearly one: the sum of the distances, times the common
/// part of the rows, is at most ten to the power -11 and three times what the real
/// vector is off.
pub proof fn law_stationary_is_near_the_exact_one(
    tm: TransitionMatrix,
    floor: spec_fn(int) -> real,
    s: spec_fn(int) -> real,
    r: real,
)
    requires
        is_stochastic(tm),
        spreads(tm, floor),
        evolution::stationary(tm) is Some,
        precision::size(precision::sum_of(s, tm.n as nat) - 1 as real) <= r,
        extent(moved_off(tm, s), tm.n as nat) <= r,
    ensures
        (common_part(tm, floor) - 1 as real / 100_000_000_000 as real) * extent(
            apart(precision::numbers(evolution::stationary(tm).unwrap()), s),
            tm.n as nat,
        ) <= 1 as real / 100_000_000_000 as real + 3 as real * r,
{
    let n = tm.n as nat;
    let k = law_stationary_settles(tm);
    let w = evolution::iterate(tm, k);
    lemma_chain_iterate(tm, k);
    law_stationary_hardly_moves(tm);
    let p = precision::numbers(w);
    let x = apart(p, s);
    let delta = common_part(tm, floor);
    let rho = 1 as real / 900_000_000_000 as real;
    assert(rho * 900_000_000_000 as real == 1 as real) by (nonlinear_arith)
        requires
            rho == 1 as real / 900_000_000_000 as real,
    ;
    let top = 1 as real + rho;
    lemma_rows_up_to(tm, rho);
    lemma_contracts(tm, x, floor, top);
    lemma_common_part(tm, floor);
    lemma_sum_apart(p, s, n);
    let (a, b) = (size_of(moved_off(tm, p)), size_of(moved_off(tm, s)));
    let carry = |j: int| precision::size(carried(tm, x, j));
    let some = |j: int| a(j) + b(j);
    let all = |j: int| some(j) + carry(j);
    let sizes = size_of(x);
    assert forall|j: int| 0 <= j < n implies #[trigger] sizes(j) <= all(j) by {
        lemma_carried_apart(tm, p, s, j);
    }
    precision::lemma_sum_order(sizes, all, n);
    precision::lemma_sum_plus(a, b, some, n);
    precision::lemma_sum_plus(some, carry, all, n);
    precision::lemma_sum_bounds(sizes, n, 0);
    let e = precision::sum_of(sizes, n);
    let c = precision::size(precision::sum_of(x, n));
    let small = 1 as real / 100_000_000_000 as real;
    assert(small * 100_000_000_000 as real == 1 as real) by (nonlinear_arith)
        requires
            small == 1 as real / 100_000_000_000 as real,
    ;
    let de = delta * e;
    assert((top - delta) * e == e + rho * e - de && (delta - small) * e == de - small * e)
        by (nonlinear_arith)
        requires
            top == 1 as real + rho,
            de == delta * e,
    ;
    assert(rho * e <= small * e) by (nonlinear_arith)
        requires
            rho <= small,
            e >= 0 as real,
    ;
    assert(delta * c <= c + small * c) by (nonlinear_arith)
        requires
            delta <= 1 as real + small,
            c >= 0 as real,
    ;
    assert(small * c <= c) by (nonlinear_arith)
        requires
            small <= 1 as real,
            c >= 0 as real,
    ;
    assert(precision::sum_of(x, n) == accuracy::mass(w) - precision::sum_of(s, n));
    assert(c <= r + precision::size(accuracy::mass(w) - 1 as real));
}

/// The lesser of the two entries of each column of a matrix of two states.
spec fn column_floor(tm: TransitionMatrix) -> spec_fn(int) -> real {
    |j: int|
        if precision::number(tm.at(0, j)) <= precision::number(tm.at(1, j)) {
            precision::number(tm.at(0, j))
        } else {
            precision::number(tm.at(1, j))
        }
}

/// A chain of two states that is left for state 1 with the probability `a` and for
/// state 0 with the probability `b` has a stationary distribution, which gives `b / (a
/// + b)` to state 0 and `a / (a + b)` to state 1, up to ten to the power -9, unless
/// `a + b` is near zero or near two.
pub proof fn law_two_states(tm: TransitionMatrix, a: real, b: real)
    requires
        is_stochastic(tm),
        tm.n == 2,
        a == precision::number(tm.at(0, 1)),
        b == precision::number(tm.at(1, 0)),
        a + b >= 1 as real / 50 as real,
        a + b <= 2 as real - 1 as real / 50 as real,
    ensures
        evolution::stationary(tm) is Some,
        precision::size(
            precision::number(evolution::stationary(tm).unwrap()[0]) - b / (a + b),
        ) * 1_000_000_000 as real <= 1 as real,
        precision::size(
            precision::number(evolution::stationary(tm).unwrap()[1]) - a / (a + b),
        ) * 1_000_000_000 as real <= 1 as real,
{
    reveal_with_fuel(precision::sum_of, 3);
    lemma_stochastic(tm);
    let floor = column_floor(tm);
    let (p, q) = (precision::number(tm.at(0, 0)), precision::number(tm.at(1, 1)));
    assert(tm.at(0, 0).is_finite() && tm.at(0, 1).is_finite() && tm.at(1, 0).is_finite() && tm.at(
        1,
        1,
    ).is_finite());
    assert(accuracy::row_mass(tm, 0) == p + a) by {
        let f = |j: int| accuracy::entry(tm, 0, j);
        assert(precision::sum_of(f, 2) == f(0) + f(1));
    }
    assert(accuracy::row_mass(tm, 1) == b + q) by {
        let f = |j: int| accuracy::entry(tm, 1, j);
        assert(precision::sum_of(f, 2) == f(0) + f(1));
    }
    assert(spreads(tm, floor)) by {
        assert forall|i: int, j: int| 0 <= i < tm.n && 0 <= j < tm.n implies precision::number(
            #[trigger] tm.at(i, j),
        ) >= floor(j) by {
            assert(i == 0 || i == 1);
        }
        assert forall|j: int| 0 <= j < tm.n implies #[trigger] floor(j) >= 0 as real by {
            assert(tm.at(0, j).is_finite() && tm.at(1, j).is_finite());
        }
    }
    let delta = common_part(tm, floor);
    assert(delta == floor(0) + floor(1));
    assert(delta * 51 as real >= 1 as real);
    law_stationary_exists(tm, floor);
    // The exact stationary distribution.
    let c = a + b;
    let (s0, s1) = (b / c, a / c);
    assert(s0 + s1 == 1 as real && s0 * a == s1 * b && s0 >= 0 as real && s1 >= 0 as real)
        by (nonlinear_arith)
        requires
            s0 == b / c,
            s1 == a / c,
            c == a + b,
            c > 0 as real,
            a >= 0 as real,
            b >= 0 as real,
    {
        assert(s0 * c == b && s1 * c == a);
        assert((s0 + s1) * c == c);
        assert((s0 * a) * c == a * b && (s1 * b) * c == a * b);
    }
    let s = |i: int|
        if i == 0 {
            s0
        } else {
            s1
        };
    assert(precision::sum_of(s, 2) == s(0) + s(1));
    let r = 2 as real / 900_000_000_000 as real;
    assert(r * 900_000_000_000 as real == 2 as real) by (nonlinear_arith)
        requires
            r == 2 as real / 900_000_000_000 as real,
    ;
    let (t0, t1) = (p + a - 1 as real, b + q - 1 as real);
    assert(carried(tm, s, 0) == s0 * p + s1 * b) by {
        let f = |i: int| s(i) * precision::number(tm.at(i, 0));
        assert(precision::sum_of(f, 2) == f(0) + f(1));
    }
    assert(carried(tm, s, 1) == s0 * a + s1 * q) by {
        let f = |i: int| s(i) * precision::number(tm.at(i, 1));
        assert(precision::sum_of(f, 2) == f(0) + f(1));
    }
    assert(s0 * p + s1 * b - s0 == s0 * t0 && s0 * a + s1 * q - s1 == s1 * t1) by (nonlinear_arith)
        requires
            t0 == p + a - 1 as real,
            t1 == b + q - 1 as real,
            s0 * a == s1 * b,
    ;
    precision::lemma_product_size(s0, t0);
    precision::lemma_product_size(s1, t1);
    let (z0, z1) = (precision::size(t0), precision::size(t1));
    assert(s0 * z0 <= z0 && s1 * z1 <= z1) by (nonlinear_arith)
        requires
            z0 >= 0 as real,
            z1 >= 0 as real,
            s0 <= 1 as real,
            s1 <= 1 as real,
    ;
    let off = size_of(moved_off(tm, s));
    assert(precision::sum_of(off, 2) == off(0) + off(1));
    law_stationary_is_near_the_exact_one(tm, floor, s, r);
    let pi = evolution::stationary(tm).unwrap();
    let x = size_of(apart(precision::numbers(pi), s));
    let e = precision::sum_of(x, 2);
    assert(e == x(0) + x(1));
    let small = 1 as real / 100_000_000_000 as real;
    assert(small * 100_000_000_000 as real == 1 as real) by (nonlinear_arith)
        requires
            small == 1 as real / 100_000_000_000 as real,
    ;
    assert((delta - small) * e * 52 as real >= e) by (nonlinear_arith)
        requires
            (delta - small) * 52 as real >= 1 as real,
            e >= 0 as real,
    ;
}

} // verus!
