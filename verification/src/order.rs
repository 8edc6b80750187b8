//! How the operations on numbers keep sign and order.

use vstd::arithmetic::power2::*;
use vstd::prelude::*;

use crate::binary64;
use crate::binary64::{BINADE, INFINITE, SIGN};
use crate::double;
use crate::double::Double;

verus! {

/// Whether a number is not below zero. A not-a-number is not.
pub open spec fn not_below_zero(x: Double) -> bool {
    !x.less(Double::zero())
}

/// The sign of a number, by its encoding.
pub proof fn lemma_sign(x: Double)
    ensures
        x.value() < 0 <==> x.is_negative() && !x.is_zero(),
        x.value() == 0 <==> x.is_zero(),
        Double::zero().value() == 0,
        Double::zero().is_finite(),
        not_below_zero(x) <==> x.is_nan() || x.is_zero() || !x.is_negative(),
{
    binary64::lemma_scaled_order(0, x.magnitude());
}

/// What is composed of a sign and a magnitude has them.
pub proof fn lemma_signed(negative: bool, m: nat)
    requires
        m < SIGN,
    ensures
        Double::signed(negative, m).is_negative() == negative,
        Double::signed(negative, m).magnitude() == m,
{
}

/// A finite number less itself is zero.
pub proof fn lemma_minus_self(x: Double)
    requires
        x.is_finite(),
    ensures
        x.minus(x) == Double::zero(),
{
    reveal(Double::plus_spec);
    lemma_signed(!x.is_negative(), x.magnitude());
}

/// Zero and zero are zero.
pub proof fn lemma_zero_plus_zero()
    ensures
        Double::zero().plus(Double::zero()) == Double::zero(),
{
    reveal(Double::plus_spec);
    lemma_sign(Double::zero());
}

/// Adding a zero changes no value.
pub proof fn lemma_plus_zero(a: Double, b: Double)
    requires
        b.is_zero(),
    ensures
        a.plus(b).is_nan() <==> a.is_nan(),
        a.plus(b).is_finite() <==> a.is_finite(),
        !a.is_nan() ==> a.plus(b).value() == a.value(),
{
    reveal(Double::plus_spec);
    lemma_sign(a);
    lemma_sign(b);
    if a.is_finite() {
        let m = a.magnitude();
        binary64::lemma_nearest_exact(m, 1);
        assert(binary64::scaled(m) * 1 == binary64::scaled(m)) by (nonlinear_arith);
        lemma_signed(a.is_negative(), m);
        lemma_signed(false, 0);
        lemma_signed(true, 0);
        lemma_sign(a.plus(b));
    }
}

/// Sums of numbers with the same values have the same value.
pub proof fn lemma_plus_values(a: Double, b: Double, c: Double, d: Double)
    requires
        a.equals(c),
        b.equals(d),
        a.plus(b).is_finite(),
    ensures
        a.plus(b).equals(c.plus(d)),
        c.plus(d).is_finite(),
{
    reveal(Double::plus_spec);
    lemma_sign(a);
    lemma_sign(b);
    lemma_sign(c);
    lemma_sign(d);
    binary64::lemma_scaled_order(a.magnitude(), c.magnitude());
    binary64::lemma_scaled_order(b.magnitude(), d.magnitude());
    lemma_signed(false, 0);
    lemma_signed(true, 0);
    lemma_sign(a.plus(b));
    lemma_sign(c.plus(d));
}

/// The order of the terms of a sum does not matter.
pub proof fn lemma_plus_commutes(a: Double, b: Double)
    ensures
        a.plus(b) == b.plus(a),
{
    reveal(Double::plus_spec);
}

/// A part over the whole lies between zero and one.
pub proof fn lemma_ratio(a: Double, b: Double)
    requires
        a.is_finite(),
        b.is_finite(),
        0 <= a.value() <= b.value(),
        0 < b.value(),
    ensures
        Double::zero().at_most(a.over(b)),
        a.over(b).at_most(Double::one()),
        a.over(b).is_finite(),
{
    reveal(Double::over_spec);
    let one = binary64::one();
    lemma_pow2_pos(1074);
    double::lemma_one();
    lemma_sign(Double::zero());
    lemma_sign(a);
    lemma_sign(b);
    let (x, y) = (binary64::scaled(a.magnitude()), binary64::scaled(b.magnitude()));
    let m1 = Double::one().magnitude();
    binary64::lemma_nearest_exact(m1, 1);
    assert(x * one * 1 <= one * y) by (nonlinear_arith)
        requires
            x <= y,
    ;
    binary64::lemma_nearest_monotone(x * one, y, one, 1);
    assert(binary64::scaled(m1) * 1 == one);
    let m = binary64::nearest(x * one, y);
    assert(m <= m1);
    binary64::lemma_scaled_increases(m, m1);
    lemma_signed(a.is_negative() != b.is_negative(), m);
    if a.is_negative() {
        assert(x * one == 0) by (nonlinear_arith)
            requires
                x == 0,
        ;
        binary64::lemma_nearest_exact(0, y);
        assert(binary64::scaled(0) * y == 0) by (nonlinear_arith)
            requires
                binary64::scaled(0) == 0,
        ;
    }
    lemma_sign(a.over(b));
}

/// The distance of two numbers does not depend on their order.
pub proof fn lemma_distance_symmetric(a: Double, b: Double)
    ensures
        a.minus(b).abs() == b.minus(a).abs(),
{
    reveal(Double::plus_spec);
    lemma_signed(!a.is_negative(), a.magnitude());
    lemma_signed(!b.is_negative(), b.magnitude());
    lemma_sign(a);
    lemma_sign(b);
    if a.is_finite() && b.is_finite() {
        let d = a.value() - b.value();
        assert(b.value() - a.value() == -d);
        let size = if d < 0 {
            (-d) as nat
        } else {
            d as nat
        };
        binary64::lemma_nearest_bound(size, 1);
        lemma_signed(true, binary64::nearest(size, 1));
        lemma_signed(false, binary64::nearest(size, 1));
    }
}

/// Taking away the sign leaves nothing below zero.
pub proof fn lemma_abs_sign(x: Double)
    ensures
        not_below_zero(x.abs()),
        !x.abs().is_negative(),
        x.abs().is_finite() == x.is_finite(),
{
    lemma_signed(false, x.magnitude());
    lemma_sign(x.abs());
}

/// A sum of numbers not below zero is not below zero.
pub proof fn lemma_plus_sign(a: Double, b: Double)
    requires
        not_below_zero(a),
        not_below_zero(b),
    ensures
        not_below_zero(a.plus(b)),
{
    reveal(Double::plus_spec);
    lemma_sign(a);
    lemma_sign(b);
    let sum = a.value() + b.value();
    if a.is_finite() && b.is_finite() {
        binary64::lemma_nearest_bound(sum as nat, 1);
        lemma_signed(false, binary64::nearest(sum as nat, 1));
    }
    lemma_sign(a.plus(b));
}

/// The sign of a product, and when it is zero.
pub proof fn lemma_times_sign(a: Double, b: Double)
    ensures
        a.times(b).is_nan() || a.times(b).is_negative() == (a.is_negative() != b.is_negative()),
        (a.is_zero() || b.is_zero()) && a.is_finite() && b.is_finite() ==> a.times(b).is_zero(),
        (a.is_zero() || b.is_zero()) && !(a.is_finite() && b.is_finite()) ==> a.times(b).is_nan(),
{
    reveal(Double::times_spec);
    let negative = a.is_negative() != b.is_negative();
    lemma_signed(negative, INFINITE as nat);
    if a.is_finite() && b.is_finite() {
        let num = binary64::scaled(a.magnitude()) * binary64::scaled(b.magnitude());
        binary64::lemma_nearest_bound(num, binary64::one());
        lemma_signed(negative, binary64::nearest(num, binary64::one()));
        if a.is_zero() || b.is_zero() {
            lemma_pow2_pos(1074);
            assert(num == 0) by (nonlinear_arith)
                requires
                    num == binary64::scaled(a.magnitude()) * binary64::scaled(b.magnitude()),
                    binary64::scaled(a.magnitude()) == 0 || binary64::scaled(b.magnitude()) == 0,
            ;
            binary64::lemma_nearest_exact(0, binary64::one());
            assert(0 * binary64::one() == 0) by (nonlinear_arith);
        }
    }
}

/// A product of numbers not below zero is not below zero.
pub proof fn lemma_times_nonnegative(a: Double, b: Double)
    requires
        not_below_zero(a),
        not_below_zero(b),
    ensures
        not_below_zero(a.times(b)),
{
    lemma_sign(a);
    lemma_sign(b);
    lemma_times_sign(a, b);
    lemma_sign(a.times(b));
    reveal(Double::times_spec);
}

/// A weighted square is not below zero, if the weight is not.
pub proof fn lemma_weighted_square(p: Double, d: Double)
    requires
        not_below_zero(p),
    ensures
        not_below_zero(p.times(d).times(d)),
{
    lemma_sign(p);
    let q = p.times(d);
    lemma_times_sign(p, d);
    lemma_times_sign(q, d);
    lemma_sign(q.times(d));
    reveal(Double::times_spec);
}

/// A quotient of numbers not below zero is not below zero, if the divisor is not
/// zero.
pub proof fn lemma_over_sign(a: Double, b: Double)
    requires
        not_below_zero(a),
        not_below_zero(b),
        !b.is_zero(),
    ensures
        not_below_zero(a.over(b)),
{
    reveal(Double::over_spec);
    lemma_sign(a);
    lemma_sign(b);
    let negative = a.is_negative() != b.is_negative();
    lemma_signed(negative, INFINITE as nat);
    lemma_signed(negative, 0);
    if a.is_finite() && b.is_finite() {
        let num = binary64::scaled(a.magnitude()) * binary64::one();
        let den = binary64::scaled(b.magnitude());
        binary64::lemma_nearest_bound(num, den);
        lemma_signed(negative, binary64::nearest(num, den));
        if a.is_zero() {
            binary64::lemma_scaled_order(0, b.magnitude());
            assert(num == 0) by (nonlinear_arith)
                requires
                    num == 0 * binary64::one(),
            ;
            assert(0 * den == 0) by (nonlinear_arith);
            binary64::lemma_nearest_exact(0, den);
        }
    }
    lemma_sign(a.over(b));
}

/// No square root is below zero.
pub proof fn lemma_sqrt_sign(x: Double)
    ensures
        not_below_zero(x.sqrt()),
{
    reveal(Double::sqrt_spec);
    lemma_sign(x);
    if !x.is_nan() && !x.is_zero() && !x.is_negative() && x.is_finite() {
        let square = binary64::scaled(x.magnitude()) * binary64::one();
        binary64::lemma_nearest_root(square);
        lemma_signed(false, binary64::nearest_root(square));
    }
    lemma_sign(x.sqrt());
}

/// No natural number is below zero, and none is a not-a-number.
pub proof fn lemma_natural_sign(n: nat)
    ensures
        not_below_zero(Double::natural(n)),
        !Double::natural(n).is_nan(),
        !Double::natural(n).is_negative(),
        Double::natural(n).magnitude() == binary64::nearest(n * binary64::one(), 1),
{
    reveal(Double::natural);
    binary64::lemma_nearest_bound(n * binary64::one(), 1);
    lemma_signed(false, binary64::nearest(n * binary64::one(), 1));
    lemma_sign(Double::natural(n));
}

/// Sums keep order among finite numbers not below zero.
pub proof fn lemma_plus_order(a: Double, b: Double, c: Double, d: Double)
    requires
        a.is_finite(),
        b.is_finite(),
        c.is_finite(),
        d.is_finite(),
        0 <= a.value() <= c.value(),
        0 <= b.value() <= d.value(),
    ensures
        0 <= a.plus(b).value() <= c.plus(d).value(),
        !a.plus(b).is_nan(),
        !c.plus(d).is_nan(),
{
    reveal(Double::plus_spec);
    let (x, y) = ((a.value() + b.value()) as nat, (c.value() + d.value()) as nat);
    binary64::lemma_nearest_monotone(x, 1, y, 1);
    binary64::lemma_nearest_bound(x, 1);
    binary64::lemma_nearest_bound(y, 1);
    binary64::lemma_scaled_increases(binary64::nearest(x, 1), binary64::nearest(y, 1));
    lemma_signed(false, binary64::nearest(x, 1));
    lemma_signed(false, binary64::nearest(y, 1));
    lemma_signed(true, 0);
    lemma_signed(false, 0);
}

/// Natural numbers keep order.
pub proof fn lemma_natural_order(a: nat, b: nat)
    requires
        a <= b,
    ensures
        Double::natural(a).value() <= Double::natural(b).value(),
{
    lemma_natural_sign(a);
    lemma_natural_sign(b);
    let one = binary64::one();
    assert(a * one <= b * one) by (nonlinear_arith)
        requires
            a <= b,
    ;
    binary64::lemma_nearest_monotone(a * one, 1, b * one, 1);
    binary64::lemma_scaled_increases(
        binary64::nearest(a * one, 1),
        binary64::nearest(b * one, 1),
    );
}

/// Products keep order among numbers not below zero.
pub proof fn lemma_times_order(a: Double, b: Double, c: Double, d: Double)
    requires
        !a.is_nan() && !b.is_nan() && !c.is_nan() && !d.is_nan(),
        0 <= a.value() <= c.value(),
        0 <= b.value() <= d.value(),
        !a.times(b).is_nan(),
        !c.times(d).is_nan(),
    ensures
        0 <= a.times(b).value() <= c.times(d).value(),
{
    reveal(Double::times_spec);
    lemma_sign(a);
    lemma_sign(b);
    lemma_sign(c);
    lemma_sign(d);
    lemma_times_nonnegative(a, b);
    lemma_times_nonnegative(c, d);
    lemma_sign(a.times(b));
    lemma_sign(c.times(d));
    let (sa, sb, sc, sd) = (
        binary64::scaled(a.magnitude()),
        binary64::scaled(b.magnitude()),
        binary64::scaled(c.magnitude()),
        binary64::scaled(d.magnitude()),
    );
    binary64::lemma_scaled_order(a.magnitude(), c.magnitude());
    binary64::lemma_scaled_order(b.magnitude(), d.magnitude());
    let one = binary64::one();
    lemma_pow2_pos(1074);
    binary64::lemma_nearest_bound(sa * sb, one);
    binary64::lemma_nearest_bound(sc * sd, one);
    lemma_signed(a.is_negative() != b.is_negative(), binary64::nearest(sa * sb, one));
    lemma_signed(c.is_negative() != d.is_negative(), binary64::nearest(sc * sd, one));
    lemma_signed(a.is_negative() != b.is_negative(), INFINITE as nat);
    lemma_signed(c.is_negative() != d.is_negative(), INFINITE as nat);
    if c.is_infinite() || d.is_infinite() {
        binary64::lemma_scaled_increases(a.times(b).magnitude(), INFINITE as nat);
    } else {
        assert(sa * sb * one <= sc * sd * one) by (nonlinear_arith)
            requires
                0 <= sa <= sc,
                0 <= sb <= sd,
                one > 0,
        ;
        binary64::lemma_nearest_monotone(sa * sb, one, sc * sd, one);
        binary64::lemma_scaled_increases(
            binary64::nearest(sa * sb, one),
            binary64::nearest(sc * sd, one),
        );
    }
}

/// A quotient of numbers not below zero does not shrink when the dividend grows
/// and the divisor shrinks.
pub proof fn lemma_over_order(a: Double, b: Double, c: Double, d: Double)
    requires
        !a.is_nan() && !b.is_nan() && !c.is_nan() && !d.is_nan(),
        0 <= a.value() <= c.value(),
        0 <= d.value() <= b.value(),
        !b.is_negative(),
        !d.is_negative(),
        !a.over(b).is_nan(),
        !c.over(d).is_nan(),
    ensures
        0 <= a.over(b).value() <= c.over(d).value(),
{
    reveal(Double::over_spec);
    lemma_sign(a);
    lemma_sign(b);
    lemma_sign(c);
    lemma_sign(d);
    let (sa, sb, sc, sd) = (
        binary64::scaled(a.magnitude()),
        binary64::scaled(b.magnitude()),
        binary64::scaled(c.magnitude()),
        binary64::scaled(d.magnitude()),
    );
    binary64::lemma_scaled_order(a.magnitude(), c.magnitude());
    binary64::lemma_scaled_order(d.magnitude(), b.magnitude());
    binary64::lemma_scaled_order(0, b.magnitude());
    binary64::lemma_scaled_order(0, d.magnitude());
    let one = binary64::one();
    lemma_pow2_pos(1074);
    lemma_signed(a.is_negative(), INFINITE as nat);
    lemma_signed(c.is_negative(), INFINITE as nat);
    lemma_signed(a.is_negative(), 0);
    lemma_signed(c.is_negative(), 0);
    binary64::lemma_nearest_bound(sa * one, sb);
    binary64::lemma_nearest_bound(sc * one, sd);
    lemma_signed(a.is_negative(), binary64::nearest(sa * one, sb));
    lemma_signed(c.is_negative(), binary64::nearest(sc * one, sd));
    if !b.is_zero() {
        lemma_over_sign(a, b);
    }
    if !d.is_zero() {
        lemma_over_sign(c, d);
    }
    lemma_sign(a.over(b));
    lemma_sign(c.over(d));
    binary64::lemma_scaled_increases(a.over(b).magnitude(), INFINITE as nat);
    if a.is_finite() && b.is_finite() && !b.is_zero() && c.is_finite() && d.is_finite()
        && !d.is_zero() {
        assert(sa * one * sd <= sc * one * sb) by (nonlinear_arith)
            requires
                0 <= sa <= sc,
                0 <= sd <= sb,
                one > 0,
        ;
        binary64::lemma_nearest_monotone(sa * one, sb, sc * one, sd);
        binary64::lemma_scaled_increases(
            binary64::nearest(sa * one, sb),
            binary64::nearest(sc * one, sd),
        );
    }
}

/// Rounding up keeps order among numbers not below zero.
pub proof fn lemma_ceil_order(a: Double, b: Double)
    requires
        !a.is_nan() && !b.is_nan(),
        0 <= a.value() <= b.value(),
    ensures
        !a.ceil().is_nan(),
        !b.ceil().is_nan(),
        0 <= a.ceil().value() <= b.ceil().value(),
{
    lemma_sign(a);
    lemma_sign(b);
    if b.is_infinite() {
        reveal(Double::ceil_spec);
        if a.is_finite() {
            lemma_ceil_count(a);
            binary64::lemma_scaled_increases(a.ceil().magnitude(), INFINITE as nat);
        } else {
            binary64::lemma_scaled_order(a.magnitude(), INFINITE as nat);
        }
    } else {
        binary64::lemma_scaled_order(a.magnitude(), b.magnitude());
        lemma_ceil_count(a);
        lemma_ceil_count(b);
        let one = binary64::one();
        let (x, y) = (binary64::scaled(a.magnitude()), binary64::scaled(b.magnitude()));
        lemma_pow2_pos(1074);
        vstd::arithmetic::div_mod::lemma_div_is_ordered(x as int, y as int, one as int);
        vstd::arithmetic::div_mod::lemma_fundamental_div_mod(x as int, one as int);
        vstd::arithmetic::div_mod::lemma_fundamental_div_mod(y as int, one as int);
        lemma_natural_order(whole_above(x), whole_above(y));
    }
}

/// The least whole number that is not below `x` units.
pub open spec fn whole_above(x: nat) -> nat {
    if x % binary64::one() == 0 {
        x / binary64::one()
    } else {
        x / binary64::one() + 1
    }
}

/// A finite number not below zero is rounded up to a whole number.
proof fn lemma_ceil_count(a: Double)
    requires
        a.is_finite(),
        a.value() >= 0,
    ensures
        a.ceil().value() == Double::natural(
            whole_above(binary64::scaled(a.magnitude())),
        ).value(),
        !a.ceil().is_nan(),
        a.ceil().value() >= 0,
        a.ceil().magnitude() <= INFINITE,
{
    reveal(Double::ceil_spec);
    lemma_sign(a);
    let x = binary64::scaled(a.magnitude());
    lemma_natural_sign(whole_above(x));
    lemma_pow2_pos(1074);
    if a.is_negative() {
        assert(x == 0);
        vstd::arithmetic::div_mod::lemma_div_basics(binary64::one() as int);
        vstd::arithmetic::div_mod::lemma_small_mod(0, binary64::one());
        double::lemma_natural_exact(0);
        lemma_sign(Double::natural(0));
        assert(0 * binary64::one() == 0) by (nonlinear_arith);
        lemma_signed(true, Double::natural(0).magnitude());
    }
    lemma_sign(Double::natural(whole_above(x)));
}

/// Rounding up gives no less, and of a number above zero at least one.
pub proof fn lemma_ceil_at_least(a: Double)
    requires
        a.is_finite(),
        a.value() >= 0,
    ensures
        a.value() <= a.ceil().value(),
        a.value() > 0 ==> Double::one().value() <= a.ceil().value(),
{
    lemma_ceil_count(a);
    lemma_sign(a);
    let units = binary64::scaled(a.magnitude());
    let one = binary64::one();
    let w = whole_above(units);
    lemma_pow2_pos(1074);
    vstd::arithmetic::div_mod::lemma_fundamental_div_mod(units as int, one as int);
    let q = units / one;
    assert(one * q == q * one && (q + 1) * one == q * one + one) by (nonlinear_arith);
    assert(w * one >= units);
    lemma_natural_sign(w);
    binary64::lemma_nearest_exact(a.magnitude(), 1);
    assert(units * 1 == units) by (nonlinear_arith);
    binary64::lemma_nearest_monotone(units, 1, w * one, 1);
    binary64::lemma_scaled_increases(a.magnitude(), binary64::nearest(w * one, 1));
    if a.value() > 0 {
        assert(w >= 1) by (nonlinear_arith)
            requires
                w * one >= units,
                units > 0,
        ;
        lemma_natural_order(1, w);
        double::lemma_natural_exact(1);
        double::lemma_one();
        assert(1 * one == one) by (nonlinear_arith);
    }
}

/// Rounding up gives a whole number that is less than one above.
pub proof fn lemma_ceil_whole(a: Double)
    requires
        a.is_finite(),
        a.value() >= 0,
    ensures
        a.ceil().value() < a.value() + binary64::one(),
        a.ceil().value() == whole_above(binary64::scaled(a.magnitude())) * binary64::one(),
{
    lemma_ceil_count(a);
    lemma_sign(a);
    let units = binary64::scaled(a.magnitude());
    let one = binary64::one();
    let w = whole_above(units);
    let q = units / one;
    lemma_pow2_pos(1074);
    vstd::arithmetic::div_mod::lemma_fundamental_div_mod(units as int, one as int);
    vstd::arithmetic::div_mod::lemma_mod_bound(units as int, one as int);
    assert(one * q == q * one && (q + 1) * one == q * one + one) by (nonlinear_arith);
    lemma_natural_sign(w);
    if units % one == 0 {
        binary64::lemma_nearest_exact(a.magnitude(), 1);
        assert(units * 1 == units) by (nonlinear_arith);
    } else {
        // Great numbers are whole, so this one is not great.
        binary64::lemma_parts(a.magnitude());
        let (t, u) = (
            binary64::significand(a.magnitude()),
            binary64::exponent(a.magnitude()),
        );
        if u >= 1074 {
            let v = (u - 1074) as nat;
            lemma_pow2_adds(1074, v);
            assert(t * (one * pow2(v)) == (t * pow2(v)) * one) by (nonlinear_arith);
            vstd::arithmetic::div_mod::lemma_mod_multiples_basic((t * pow2(v)) as int, one as int);
        }
        if u < 1073 {
            lemma_pow2_strictly_increases(u, 1073);
        }
        lemma_pow2_unfold(1074);
        let b = 2 * BINADE as nat;
        assert(units < b * one) by (nonlinear_arith)
            requires
                units == t * pow2(u),
                t < b,
                pow2(u) <= one,
                one > 0,
        ;
        assert(q < b) by (nonlinear_arith)
            requires
                q * one <= units,
                units < b * one,
                one > 0,
        ;
        double::lemma_natural_exact(w);
    }
}

} // verus!
