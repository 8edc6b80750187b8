//! A common factor of two in a matrix, and what it leaves unchanged.

use vstd::arithmetic::power2::*;
use vstd::prelude::*;

use crate::accuracy;
use crate::binary64;
use crate::binary64::{BINADE, INFINITE};
use crate::double;
use crate::double::Double;
use crate::evolution;
use crate::laws;
use crate::matrix::TransitionMatrix;
use crate::order;
use crate::precision;
use crate::vector;

verus! {

/// Whether the second number is twice the first.
pub open spec fn is_twice(x: Double, y: Double) -> bool {
    &&& x.is_finite()
    &&& y.is_finite()
    &&& x.is_negative() == y.is_negative()
    &&& y.value() == 2 * x.value()
}

/// Whether the entries of the second matrix are twice those of the first.
pub open spec fn is_twice_the_matrix(a: TransitionMatrix, b: TransitionMatrix) -> bool {
    &&& a.n == b.n
    &&& forall|i: int, j: int|
        0 <= i < a.n && 0 <= j < a.n ==> is_twice(#[trigger] a.at(i, j), b.at(i, j))
}

/// Whether the power iteration gets to `k` steps and then makes one more.
pub open spec fn runs(tm: TransitionMatrix, k: nat) -> bool {
    &&& k < evolution::MAX_ITERATIONS
    &&& forall|j: nat| 1 <= j <= k ==> !#[trigger] evolution::is_close(tm, j)
    &&& forall|j: nat| 1 <= j <= k ==> !#[trigger] evolution::vanishes(tm, j)
}

/// Whether no product of the power iteration loses precision for being small.
pub open spec fn stays_normal(tm: TransitionMatrix) -> bool {
    forall|k: nat, i: int, j: int|
        runs(tm, k) && 0 <= i < tm.n && 0 <= j < tm.n ==> precision::is_normal_product(
            #[trigger] evolution::iterate(tm, k)[i],
            #[trigger] tm.at(i, j),
        )
}

/// Whether the power iteration of the first matrix would not overflow with a move
/// under the second one.
pub open spec fn stays_finite(a: TransitionMatrix, b: TransitionMatrix) -> bool {
    forall|k: nat| #[trigger]
        runs(a, k) ==> vector::total(
            evolution::advanced(b, evolution::iterate(a, k)),
        ).is_finite()
}

/// Twice a magnitude of full precision is one binade further.
proof fn lemma_binade(m: nat)
    requires
        m >= BINADE,
    ensures
        binary64::scaled(m + BINADE as nat) == 2 * binary64::scaled(m),
{
    binary64::lemma_parts(m);
    let b = BINADE as nat;
    let (t, u) = (binary64::significand(m), binary64::exponent(m));
    binary64::lemma_scaled_parts(u + 1, t);
    assert((u + 1) * b + t == m + b) by (nonlinear_arith)
        requires
            m == u * b + t,
    ;
    lemma_pow2_unfold(u + 1);
    let (p, q) = (pow2(u), pow2(u + 1));
    assert(t * q == 2 * (t * p)) by (nonlinear_arith)
        requires
            q == 2 * p,
    ;
}

/// Small whole numbers of units are their own magnitude.
proof fn lemma_small(m: nat)
    requires
        m <= 2 * BINADE,
    ensures
        binary64::scaled(m) == m,
        binary64::nearest(m, 1) == m,
{
    lemma2_to64();
    binary64::lemma_scaled_parts(0, m);
    assert(0 * (BINADE as nat) + m == m) by (nonlinear_arith);
    assert(m * pow2(0) == m) by (nonlinear_arith)
        requires
            pow2(0) == 1,
    ;
    binary64::lemma_nearest_exact(m, 1);
    assert(m * 1 == m) by (nonlinear_arith);
}

/// Twice a number of full precision rounds to twice what the number rounds to,
/// unless it overflows.
proof fn lemma_nearest_twice(num: nat, den: nat)
    requires
        den > 0,
        BINADE * den <= num,
        binary64::nearest(2 * num, den) < INFINITE,
    ensures
        binary64::nearest(2 * num, den) == binary64::nearest(num, den) + BINADE,
        binary64::scaled(binary64::nearest(2 * num, den)) == 2 * binary64::scaled(
            binary64::nearest(num, den),
        ),
{
    let b = BINADE as nat;
    let m = binary64::nearest(num, den);
    binary64::lemma_nearest(num, den);
    lemma_small(b);
    binary64::lemma_nearest_monotone(b, 1, num, den);
    lemma_binade(m);
    lemma_binade(m + 1);
    let (mid, twice) = (binary64::mid(m), binary64::mid(m + b));
    assert(twice == 2 * mid);
    assert(twice * den == 2 * (mid * den)) by (nonlinear_arith)
        requires
            twice == 2 * mid,
    ;
    let (low, below) = (binary64::mid((m - 1) as nat), binary64::mid((m + b - 1) as nat));
    if m > b {
        lemma_binade((m - 1) as nat);
        assert(below == 2 * low);
        assert(below * den == 2 * (low * den)) by (nonlinear_arith)
            requires
                below == 2 * low,
        ;
    } else {
        lemma_small((2 * b - 1) as nat);
        lemma_small(2 * b);
        assert(below == 4 * b - 1);
        assert(below * den < 4 * num) by (nonlinear_arith)
            requires
                below == 4 * b - 1,
                b * den <= num,
                den > 0,
        ;
    }
    assert((m + b) % 2 == m % 2);
    if m + b < INFINITE {
        assert(binary64::rounds_to(2 * num, den, m + b));
        binary64::lemma_nearest_is(2 * num, den, m + b);
    } else {
        // Twice the number would round to infinity.
        let top = binary64::mid((INFINITE - 1) as nat);
        if m + b > INFINITE {
            binary64::lemma_mid_increases((INFINITE - 1) as nat, (m + b - 1) as nat);
        }
        assert(top * den <= below * den) by (nonlinear_arith)
            requires
                top <= below,
        ;
        assert(binary64::rounds_to(2 * num, den, INFINITE as nat));
        binary64::lemma_nearest_is(2 * num, den, INFINITE as nat);
    }
}

/// Twice a whole number of units rounds to twice what the number rounds to, unless
/// it overflows.
proof fn lemma_units_twice(num: nat)
    requires
        binary64::nearest(2 * num, 1) < INFINITE,
    ensures
        binary64::scaled(binary64::nearest(2 * num, 1)) == 2 * binary64::scaled(
            binary64::nearest(num, 1),
        ),
        binary64::nearest(num, 1) < INFINITE,
{
    if num < BINADE {
        lemma_small(num);
        lemma_small(2 * num);
    } else {
        lemma_nearest_twice(num, 1);
    }
}

/// The sum of doubled terms is doubled, unless it overflows.
proof fn lemma_plus_twice(a: Double, b: Double, a2: Double, b2: Double)
    requires
        is_twice(a, a2),
        is_twice(b, b2),
        a2.plus(b2).is_finite(),
    ensures
        is_twice(a.plus(b), a2.plus(b2)),
{
    reveal(Double::plus_spec);
    let sum = a.value() + b.value();
    assert(a2.value() + b2.value() == 2 * sum);
    let x = if sum < 0 {
        (-sum) as nat
    } else {
        sum as nat
    };
    order::lemma_signed(false, 0);
    order::lemma_signed(true, 0);
    order::lemma_sign(a.plus(b));
    order::lemma_sign(a2.plus(b2));
    if sum != 0 {
        binary64::lemma_nearest_bound(x, 1);
        binary64::lemma_nearest_bound(2 * x, 1);
        order::lemma_signed(sum < 0, binary64::nearest(x, 1));
        order::lemma_signed(sum < 0, binary64::nearest(2 * x, 1));
        lemma_units_twice(x);
    }
}

/// The product with a doubled factor is doubled, as long as it is kept at full
/// precision and does not overflow.
proof fn lemma_times_twice(v: Double, p: Double, p2: Double)
    requires
        is_twice(p, p2),
        precision::is_normal_product(v, p),
        v.times(p2).is_finite(),
    ensures
        is_twice(v.times(p), v.times(p2)),
{
    let one = binary64::one();
    lemma_pow2_pos(1074);
    order::lemma_sign(p);
    order::lemma_sign(p2);
    assert(v.is_finite()) by {
        reveal(Double::times_spec);
        order::lemma_signed(v.is_negative() != p2.is_negative(), INFINITE as nat);
    }
    if v.is_zero() || p.is_zero() {
        order::lemma_times_sign(v, p);
        order::lemma_times_sign(v, p2);
        order::lemma_sign(v.times(p));
        order::lemma_sign(v.times(p2));
    } else {
        reveal(Double::times_spec);
        let (sv, sp) = (binary64::scaled(v.magnitude()), binary64::scaled(p.magnitude()));
        let num = sv * sp;
        let negative = v.is_negative() != p.is_negative();
        assert(sv * binary64::scaled(p2.magnitude()) == 2 * num) by (nonlinear_arith)
            requires
                binary64::scaled(p2.magnitude()) == 2 * sp,
                num == sv * sp,
        ;
        binary64::lemma_nearest_bound(num, one);
        binary64::lemma_nearest_bound(2 * num, one);
        order::lemma_signed(negative, binary64::nearest(num, one));
        order::lemma_signed(negative, binary64::nearest(2 * num, one));
        lemma_nearest_twice(num, one);
    }
}

/// A quotient does not change where both numbers are doubled.
proof fn lemma_over_twice(a: Double, b: Double, a2: Double, b2: Double)
    requires
        is_twice(a, a2),
        is_twice(b, b2),
        !b.is_zero(),
    ensures
        a2.over(b2) == a.over(b),
{
    reveal(Double::over_spec);
    order::lemma_sign(b);
    order::lemma_sign(b2);
    let one = binary64::one();
    let (x, y) = (binary64::scaled(a.magnitude()), binary64::scaled(b.magnitude()));
    assert(binary64::scaled(a2.magnitude()) == 2 * x && binary64::scaled(b2.magnitude()) == 2 * y);
    assert((2 * x) * one == (x * one) * 2) by (nonlinear_arith);
    assert(2 * y == y * 2);
    binary64::lemma_nearest_scale(x * one, y, 2);
}

/// The terms of a finite sum are finite.
proof fn lemma_finite_terms(start: Double, terms: Seq<Double>)
    requires
        vector::sum_from(start, terms).is_finite(),
    ensures
        forall|i: int| 0 <= i < terms.len() ==> (#[trigger] terms[i]).is_finite(),
    decreases terms.len(),
{
    if terms.len() > 0 {
        let first = terms.drop_last();
        precision::lemma_plus_finite_terms(vector::sum_from(start, first), terms.last());
        lemma_finite_terms(start, first);
        assert forall|i: int| 0 <= i < terms.len() implies (#[trigger] terms[i]).is_finite() by {
            if i < first.len() {
                assert(first[i] == terms[i]);
            }
        }
    }
}

/// The sum of many doubled terms is doubled, unless it overflows.
proof fn lemma_sum_twice(start: Double, terms: Seq<Double>, twice: Seq<Double>)
    requires
        start.is_zero(),
        terms.len() == twice.len(),
        forall|i: int| 0 <= i < terms.len() ==> is_twice(#[trigger] terms[i], twice[i]),
        vector::sum_from(start, twice).is_finite(),
    ensures
        is_twice(vector::sum_from(start, terms), vector::sum_from(start, twice)),
    decreases terms.len(),
{
    order::lemma_sign(start);
    if terms.len() > 0 {
        let (first, x) = (terms.drop_last(), terms.last());
        let (first2, x2) = (twice.drop_last(), twice.last());
        precision::lemma_plus_finite_terms(vector::sum_from(start, first2), x2);
        assert forall|i: int| 0 <= i < first.len() implies is_twice(
            #[trigger] first[i],
            first2[i],
        ) by {
            assert(is_twice(terms[i], twice[i]));
        }
        lemma_sum_twice(start, first, first2);
        assert(is_twice(terms[terms.len() - 1], x2));
        lemma_plus_twice(vector::sum_from(start, first), x, vector::sum_from(start, first2), x2);
    }
}

/// A move under the doubled matrix doubles what comes out, and its sum.
proof fn lemma_step_twice(a: TransitionMatrix, b: TransitionMatrix, k: nat)
    requires
        is_twice_the_matrix(a, b),
        stays_normal(a),
        stays_finite(a, b),
        runs(a, k),
    ensures
        forall|j: int|
            0 <= j < a.n ==> is_twice(
                #[trigger] evolution::advanced(a, evolution::iterate(a, k))[j],
                evolution::advanced(b, evolution::iterate(a, k))[j],
            ),
        is_twice(
            vector::total(evolution::advanced(a, evolution::iterate(a, k))),
            vector::total(evolution::advanced(b, evolution::iterate(a, k))),
        ),
{
    let n = a.n as nat;
    let v = evolution::iterate(a, k);
    let (x, y) = (evolution::advanced(a, v), evolution::advanced(b, v));
    lemma_finite_terms(vector::nothing(), y);
    assert forall|j: int| 0 <= j < n implies is_twice(#[trigger] x[j], y[j]) by {
        let (terms, twice) = (evolution::flow(a, v, j), evolution::flow(b, v, j));
        assert(y[j].is_finite());
        lemma_finite_terms(Double::zero(), twice);
        assert forall|i: int| 0 <= i < n implies is_twice(#[trigger] terms[i], twice[i]) by {
            let e = a.at(i, j);
            assert(is_twice(e, b.at(i, j)));
            assert(precision::is_normal_product(evolution::iterate(a, k)[i], e));
            assert(twice[i].is_finite());
            lemma_times_twice(v[i], e, b.at(i, j));
        }
        lemma_sum_twice(Double::zero(), terms, twice);
    }
    lemma_sum_twice(vector::nothing(), x, y);
}

/// From the same iterate, both iterations vanish or none does, and those that do
/// not get to the same iterate.
proof fn lemma_same_step(a: TransitionMatrix, b: TransitionMatrix, k: nat)
    requires
        is_twice_the_matrix(a, b),
        stays_normal(a),
        stays_finite(a, b),
        runs(a, k),
        evolution::iterate(b, k) == evolution::iterate(a, k),
    ensures
        evolution::vanishes(b, k + 1) == evolution::vanishes(a, k + 1),
        !evolution::vanishes(a, k + 1) ==> evolution::iterate(b, k + 1) == evolution::iterate(
            a,
            k + 1,
        ),
{
    let n = a.n as nat;
    let v = evolution::iterate(a, k);
    let (x, y) = (evolution::advanced(a, v), evolution::advanced(b, v));
    let (s, s2) = (vector::total(x), vector::total(y));
    lemma_step_twice(a, b, k);
    assert((k + 1 - 1) as nat == k);
    order::lemma_sign(s);
    order::lemma_sign(s2);
    order::lemma_sign(Double::zero());
    if !evolution::vanishes(a, k + 1) {
        assert forall|i: int| 0 <= i < n implies evolution::normalized(y)[i]
            == #[trigger] evolution::normalized(x)[i] by {
            assert(is_twice(x[i], y[i]));
            lemma_over_twice(x[i], s, y[i], s2);
        }
        assert(evolution::normalized(y) =~= evolution::normalized(x));
    }
}

/// As long as the iteration of either matrix runs, both run through the same
/// iterates.
proof fn lemma_same_run(a: TransitionMatrix, b: TransitionMatrix, k: nat)
    requires
        is_twice_the_matrix(a, b),
        stays_normal(a),
        stays_finite(a, b),
        runs(a, k) || runs(b, k),
    ensures
        runs(a, k),
        runs(b, k),
        forall|j: nat| j <= k ==> #[trigger] evolution::iterate(b, j) == evolution::iterate(a, j),
    decreases k,
{
    if k == 0 {
        assert(evolution::iterate(b, 0) =~= evolution::iterate(a, 0));
    } else {
        let l = (k - 1) as nat;
        assert(runs(a, l) || runs(b, l));
        lemma_same_run(a, b, l);
        assert(evolution::iterate(b, l) == evolution::iterate(a, l));
        lemma_same_step(a, b, l);
        assert(l + 1 == k);
        assert(!evolution::vanishes(a, k) || !evolution::vanishes(b, k));
        assert(evolution::is_close(a, k) == evolution::is_close(b, k));
        assert(!evolution::is_close(a, k) || !evolution::is_close(b, k));
    }
}

/// The power iterations of the two matrices converge in the same step, to the same
/// distribution.
proof fn lemma_same_convergence(a: TransitionMatrix, b: TransitionMatrix, k: nat)
    requires
        is_twice_the_matrix(a, b),
        stays_normal(a),
        stays_finite(a, b),
        evolution::converges_at(a, k) || evolution::converges_at(b, k),
    ensures
        evolution::converges_at(a, k),
        evolution::converges_at(b, k),
        evolution::iterate(b, k) == evolution::iterate(a, k),
{
    let l = (k - 1) as nat;
    assert(runs(a, l) || runs(b, l));
    lemma_same_run(a, b, l);
    assert(evolution::iterate(b, l) == evolution::iterate(a, l));
    lemma_same_step(a, b, l);
    assert(l + 1 == k);
    assert(!evolution::vanishes(a, k) || !evolution::vanishes(b, k));
    assert(evolution::is_close(a, k) == evolution::is_close(b, k));
    assert(evolution::is_close(a, k) || evolution::is_close(b, k));
}

/// A common factor of two in the matrix leaves the stationary distribution
/// unchanged to the last bit, as long as no product of the power iteration is so
/// small that it loses precision, and none of its sums so great that twice as much
/// overflows.
pub proof fn law_factor_two_changes_nothing(a: TransitionMatrix, b: TransitionMatrix)
    requires
        is_twice_the_matrix(a, b),
        stays_normal(a),
        stays_finite(a, b),
    ensures
        evolution::stationary(b) == evolution::stationary(a),
{
    if exists|k: nat| evolution::converges_at(a, k) {
        let k = choose|k: nat| evolution::converges_at(a, k);
        lemma_same_convergence(a, b, k);
        let l = choose|l: nat| evolution::converges_at(b, l);
        evolution::lemma_converges_once(b, k, l);
    } else if exists|k: nat| evolution::converges_at(b, k) {
        let k = choose|k: nat| evolution::converges_at(b, k);
        lemma_same_convergence(a, b, k);
    }
}

/// Whether the entries of the matrix lie between zero and one.
pub open spec fn entries_fractional(tm: TransitionMatrix) -> bool {
    forall|i: int, j: int|
        0 <= i < tm.n && 0 <= j < tm.n ==> Double::zero().at_most(#[trigger] tm.at(i, j))
            && tm.at(i, j).at_most(Double::one())
}

/// Entries up to two do not make a move overflow.
proof fn lemma_move_finite(tm: TransitionMatrix, v: Seq<Double>)
    requires
        tm.wf(),
        v.len() == tm.n,
        accuracy::is_fractional(v),
        forall|i: int, j: int|
            0 <= i < tm.n && 0 <= j < tm.n ==> (#[trigger] tm.at(i, j)).is_finite()
                && precision::size(precision::number(tm.at(i, j))) <= 2 as real,
    ensures
        vector::total(evolution::advanced(tm, v)).is_finite(),
{
    let n = tm.n as nat;
    let moved = evolution::advanced(tm, v);
    order::lemma_sign(Double::zero());
    order::lemma_sign(vector::nothing());
    assert forall|j: int| 0 <= j < n implies (#[trigger] moved[j]).is_finite() && precision::size(
        precision::number(moved[j]),
    ) <= 640 as real by {
        let terms = evolution::flow(tm, v, j);
        assert forall|i: int| 0 <= i < n implies (#[trigger] terms[i]).is_finite()
            && precision::size(precision::number(terms[i])) <= 5 as real by {
            accuracy::lemma_fractional(v[i]);
            assert(tm.at(i, j).is_finite());
            assert(1 as real * 2 as real == 2 as real) by (nonlinear_arith);
            precision::lemma_times_bound(v[i], tm.at(i, j), 1 as real, 2 as real);
        }
        precision::lemma_sum_bound(Double::zero(), terms, 5 as real);
        assert(n as real * 5 as real <= 64 as real * 5 as real) by (nonlinear_arith)
            requires
                n as real <= 64 as real,
        ;
    }
    precision::lemma_sum_bound(vector::nothing(), moved, 640 as real);
}

/// The iterates of a matrix with entries between zero and one are distributions.
proof fn lemma_run_normal(tm: TransitionMatrix, k: nat)
    requires
        tm.wf(),
        tm.n > 0,
        entries_fractional(tm),
        runs(tm, k),
    ensures
        accuracy::is_normal(evolution::iterate(tm, k)),
        evolution::iterate(tm, k).len() == tm.n,
    decreases k,
{
    evolution::lemma_iterate_len(tm, k);
    if k == 0 {
        accuracy::lemma_equal_shares(tm);
    } else {
        let l = (k - 1) as nat;
        assert(runs(tm, l));
        lemma_run_normal(tm, l);
        lemma_step_finite(tm, l);
        let moved = evolution::advanced(tm, evolution::iterate(tm, l));
        assert(!evolution::vanishes(tm, k));
        order::lemma_sign(vector::total(moved));
        accuracy::lemma_normalized(moved);
    }
}

/// A step of a matrix with entries between zero and one neither goes below zero nor
/// overflows.
proof fn lemma_step_finite(tm: TransitionMatrix, k: nat)
    requires
        tm.wf(),
        tm.n > 0,
        entries_fractional(tm),
        accuracy::is_normal(evolution::iterate(tm, k)),
    ensures
        vector::total(evolution::advanced(tm, evolution::iterate(tm, k))).is_finite(),
        forall|j: int|
            0 <= j < tm.n ==> order::not_below_zero(
                #[trigger] evolution::advanced(tm, evolution::iterate(tm, k))[j],
            ),
{
    let v = evolution::iterate(tm, k);
    evolution::lemma_iterate_len(tm, k);
    order::lemma_sign(Double::zero());
    assert forall|i: int, j: int| 0 <= i < tm.n && 0 <= j < tm.n implies (#[trigger] tm.at(
        i,
        j,
    )).is_finite() && precision::size(precision::number(tm.at(i, j))) <= 2 as real
        && order::not_below_zero(tm.at(i, j)) by {
        accuracy::lemma_fractional(tm.at(i, j));
        order::lemma_sign(tm.at(i, j));
    }
    lemma_move_finite(tm, v);
    assert forall|i: int| 0 <= i < v.len() implies order::not_below_zero(#[trigger] v[i]) by {
        accuracy::lemma_fractional(v[i]);
        order::lemma_sign(v[i]);
    }
    laws::lemma_advanced_sign(tm, v);
}

/// A common factor of two in a matrix with entries between zero and one leaves the
/// stationary distribution unchanged to the last bit, as long as no product of the
/// power iteration is so small that it loses precision.
pub proof fn law_factor_two_of_fractions(a: TransitionMatrix, b: TransitionMatrix)
    requires
        a.wf(),
        is_twice_the_matrix(a, b),
        entries_fractional(a),
        stays_normal(a),
    ensures
        evolution::stationary(b) == evolution::stationary(a),
{
    if a.n > 0 {
        assert forall|k: nat| #[trigger] runs(a, k) implies vector::total(
            evolution::advanced(b, evolution::iterate(a, k)),
        ).is_finite() by {
            lemma_run_normal(a, k);
            assert forall|i: int, j: int| 0 <= i < b.n && 0 <= j < b.n implies (#[trigger] b.at(
                i,
                j,
            )).is_finite() && precision::size(precision::number(b.at(i, j))) <= 2 as real by {
                let (x, y) = (a.at(i, j), b.at(i, j));
                assert(is_twice(x, y));
                accuracy::lemma_fractional(x);
                precision::lemma_number(x);
                precision::lemma_number(y);
                let (v, t) = (x.value() as real, precision::tiny());
                assert((2 as real * v) * t == 2 as real * (v * t)) by (nonlinear_arith);
            }
            lemma_move_finite(b, evolution::iterate(a, k));
        }
        law_factor_two_changes_nothing(a, b);
    }
}

/// A move under a matrix with entries from `least` to one leaves at least half of
/// `least` in each state, and at most two.
proof fn lemma_move_spreads(tm: TransitionMatrix, v: Seq<Double>, least: real, j: int)
    requires
        tm.wf(),
        v.len() == tm.n,
        accuracy::is_normal(v),
        entries_fractional(tm),
        0 <= j < tm.n,
        least > 0 as real,
        precision::tiny() * 100_000_000_000_000_000_000 as real <= least,
        forall|i: int| 0 <= i < tm.n ==> least <= precision::number(#[trigger] tm.at(i, j)),
        evolution::advanced(tm, v)[j].is_finite(),
    ensures
        least <= 2 as real * precision::number(evolution::advanced(tm, v)[j]),
        precision::number(evolution::advanced(tm, v)[j]) <= 2 as real,
{
    let n = tm.n as nat;
    let terms = evolution::flow(tm, v, j);
    let (e, t) = (precision::eps(), precision::tiny());
    precision::lemma_eps();
    precision::lemma_tiny();
    order::lemma_sign(Double::zero());
    let w = precision::numbers(v);
    let exact = |i: int| w(i) * precision::number(tm.at(i, j));
    let lows = |i: int| least * w(i);
    let errors = |i: int| e * exact(i) + t;
    assert forall|i: int| 0 <= i < n implies {
        &&& order::not_below_zero(#[trigger] terms[i])
        &&& precision::size(precision::number(terms[i]) - exact(i)) <= errors(i)
        &&& lows(i) <= exact(i)
        &&& exact(i) <= w(i)
    } by {
        let x = tm.at(i, j);
        accuracy::lemma_fractional(v[i]);
        accuracy::lemma_fractional(x);
        order::lemma_sign(v[i]);
        order::lemma_sign(x);
        order::lemma_times_nonnegative(v[i], x);
        assert(1 as real * 1 as real == 1 as real) by (nonlinear_arith);
        precision::lemma_times_bound(v[i], x, 1 as real, 1 as real);
        precision::lemma_times_error(v[i], x);
        let (p, q) = (w(i), precision::number(x));
        assert(least <= q);
        assert(0 as real <= p * q && p * q <= p && least * p <= p * q) by (nonlinear_arith)
            requires
                0 as real <= p,
                least <= q,
                0 as real <= q,
                q <= 1 as real,
        ;
    }
    let f = precision::numbers(terms);
    assert forall|i: int| 0 <= i < n implies precision::size(#[trigger] f(i) - exact(i))
        <= errors(i) by {
        assert(order::not_below_zero(terms[i]));
    }
    assert forall|i: int| 0 <= i < n implies #[trigger] lows(i) <= exact(i) by {
        assert(order::not_below_zero(terms[i]));
    }
    assert forall|i: int| 0 <= i < n implies #[trigger] exact(i) <= w(i) by {
        assert(order::not_below_zero(terms[i]));
    }
    precision::lemma_sum_order(lows, exact, n);
    precision::lemma_sum_order(exact, w, n);
    precision::lemma_sum_scale(w, least, lows, n);
    precision::lemma_sum_difference(f, exact, errors, n);
    let (parts, units) = (|i: int| e * exact(i), |i: int| t);
    precision::lemma_sum_scale(exact, e, parts, n);
    precision::lemma_sum_equal(units, t, n);
    precision::lemma_sum_plus(parts, units, errors, n);
    assert(n as real * t <= 64 as real * t) by (nonlinear_arith)
        requires
            n as real <= 64 as real,
            t > 0 as real,
    ;
    accuracy::lemma_few_error(Double::zero(), terms);
    let (x, y, m) = (precision::sum_of(exact, n), accuracy::mass(terms), accuracy::mass(v));
    let (ex, ey) = (e * x, e * y);
    assert(x == 4_503_599_627_370_496 as real * ex && y == 4_503_599_627_370_496 as real * ey)
        by (nonlinear_arith)
        requires
            ex == e * x,
            ey == e * y,
            e * 4_503_599_627_370_496 as real == 1 as real,
    ;
    assert(least * m * 10 as real >= least * 9 as real) by (nonlinear_arith)
        requires
            least > 0 as real,
            m * 10 as real >= 9 as real,
    ;
}

/// The iterates of a matrix with entries from `least` to one keep at least a
/// four-hundredth of `least` in each state.
proof fn lemma_run_positive(tm: TransitionMatrix, k: nat, least: real, i: int)
    requires
        tm.wf(),
        entries_fractional(tm),
        runs(tm, k),
        0 <= i < tm.n,
        0 as real <= least,
        precision::tiny() * 100_000_000_000_000_000_000 as real <= least,
        forall|i: int, j: int|
            0 <= i < tm.n && 0 <= j < tm.n ==> least <= precision::number(#[trigger] tm.at(i, j)),
    ensures
        least <= 400 as real * precision::number(evolution::iterate(tm, k)[i]),
{
    let n = tm.n as nat;
    let (e, t) = (precision::eps(), precision::tiny());
    precision::lemma_eps();
    precision::lemma_tiny();
    assert(tm.at(0, 0).at_most(Double::one()));
    accuracy::lemma_fractional(tm.at(0, 0));
    assert(least <= 1 as real);
    if k == 0 {
        let whole = Double::natural(n);
        precision::lemma_number_natural(n);
        precision::lemma_number_constants();
        precision::lemma_number_order(Double::one(), whole);
        double::lemma_one();
        lemma_pow2_pos(1074);
        order::lemma_ratio(Double::one(), whole);
        precision::lemma_over_error(Double::one(), whole);
        let (c, x) = (n as real, 1 as real / n as real);
        assert(x * 64 as real >= 1 as real && x <= 1 as real) by (nonlinear_arith)
            requires
                x == 1 as real / c,
                c >= 1 as real,
                c <= 64 as real,
        ;
        assert(e * x <= e) by (nonlinear_arith)
            requires
                x <= 1 as real,
                e > 0 as real,
        ;
    } else {
        let l = (k - 1) as nat;
        let v = evolution::iterate(tm, l);
        assert(runs(tm, l));
        lemma_run_normal(tm, l);
        lemma_step_finite(tm, l);
        let moved = evolution::advanced(tm, v);
        let sum = vector::total(moved);
        assert(!evolution::vanishes(tm, k));
        order::lemma_sign(sum);
        order::lemma_sign(vector::nothing());
        order::lemma_sign(Double::zero());
        accuracy::lemma_sum_covers(vector::nothing(), moved, i);
        accuracy::lemma_few_error(vector::nothing(), moved);
        let f = precision::numbers(moved);
        let bounds = |j: int| 2 as real;
        assert forall|j: int| 0 <= j < n implies #[trigger] f(j) <= bounds(j) by {
            assert(moved[j].is_finite());
            lemma_move_spreads(tm, v, least, j);
        }
        precision::lemma_sum_order(f, bounds, n);
        precision::lemma_sum_equal(bounds, 2 as real, n);
        let m = accuracy::mass(moved);
        assert(m <= 128 as real) by (nonlinear_arith)
            requires
                m <= n as real * 2 as real,
                n as real <= 64 as real,
        ;
        assert(e * m <= 128 as real * e) by (nonlinear_arith)
            requires
                m <= 128 as real,
                e > 0 as real,
        ;
        assert(moved[i].is_finite());
        lemma_move_spreads(tm, v, least, i);
        order::lemma_ratio(moved[i], sum);
        precision::lemma_over_error(moved[i], sum);
        let (x, s) = (precision::number(moved[i]), precision::number(sum));
        let q = x / s;
        assert(q * 129 as real >= x && q >= 0 as real) by (nonlinear_arith)
            requires
                q == x / s,
                s > 0 as real,
                s <= 129 as real,
                x >= 0 as real,
        ;
        assert(q == 4_503_599_627_370_496 as real * (e * q)) by (nonlinear_arith)
            requires
                e * 4_503_599_627_370_496 as real == 1 as real,
        ;
    }
}

/// A common factor of two in a matrix leaves the stationary distribution unchanged
/// to the last bit, where the entries lie between `least` and one and the square of
/// `least` is well above the least number of the format, as for ten to the power
/// -150.
pub proof fn law_factor_two_of_positive_entries(
    a: TransitionMatrix,
    b: TransitionMatrix,
    least: real,
)
    requires
        a.wf(),
        is_twice_the_matrix(a, b),
        entries_fractional(a),
        0 as real <= least,
        precision::tiny() * 100_000_000_000_000_000_000 as real <= least * least,
        forall|i: int, j: int|
            0 <= i < a.n && 0 <= j < a.n ==> least <= precision::number(#[trigger] a.at(i, j)),
    ensures
        evolution::stationary(b) == evolution::stationary(a),
{
    let t = precision::tiny();
    precision::lemma_tiny();
    if a.n > 0 {
        assert(a.at(0, 0).at_most(Double::one()));
        accuracy::lemma_fractional(a.at(0, 0));
        assert(least * least <= least) by (nonlinear_arith)
            requires
                0 as real <= least,
                least <= 1 as real,
        ;
        assert forall|k: nat, i: int, j: int|
            runs(a, k) && 0 <= i < a.n && 0 <= j < a.n implies precision::is_normal_product(
            #[trigger] evolution::iterate(a, k)[i],
            #[trigger] a.at(i, j),
        ) by {
            lemma_run_positive(a, k, least, i);
            let (x, y) = (evolution::iterate(a, k)[i], a.at(i, j));
            let (p, q) = (precision::number(x), precision::number(y));
            assert(p * q * 400 as real >= least * least) by (nonlinear_arith)
                requires
                    400 as real * p >= least,
                    q >= least,
                    least >= 0 as real,
            ;
            precision::lemma_normal_product(x, y);
        }
    }
    law_factor_two_of_fractions(a, b);
}

} // verus!
