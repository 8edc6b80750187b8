//! The arithmetic of the numbers: every result is the nearest number there is, and what
//! is not a number stays so.

use vstd::arithmetic::power2::lemma_pow2_pos;
use vstd::prelude::*;

use crate::binary64;
use crate::binary64::INFINITE;
use crate::double::Double;
use crate::order;
use crate::precision;

verus! {

/// The distance of two integers.
spec fn gap(x: int, y: int) -> int {
    if x < y {
        y - x
    } else {
        x - y
    }
}

/// No magnitude is nearer to a fraction than the one that it rounds to.
proof fn lemma_nearest_magnitude(num: nat, den: nat, k: nat)
    requires
        k < INFINITE,
        binary64::nearest(num, den) < INFINITE,
    ensures
        gap((binary64::scaled(binary64::nearest(num, den)) * den) as int, num as int) <= gap(
            (binary64::scaled(k) * den) as int,
            num as int,
        ),
{
    let m = binary64::nearest(num, den);
    binary64::lemma_nearest(num, den);
    let (x, y) = (binary64::scaled(m), binary64::scaled(k));
    if k < m {
        binary64::lemma_scaled_increases(k, (m - 1) as nat);
        binary64::lemma_scaled_increases((m - 1) as nat, m);
        let z = binary64::scaled((m - 1) as nat);
        assert((z + x) * den == z * den + x * den && y * den <= z * den && z * den <= x * den)
            by (nonlinear_arith)
            requires
                y <= z,
                z <= x,
        ;
    } else if m < k {
        binary64::lemma_scaled_increases(m + 1, k);
        binary64::lemma_scaled_increases(m, m + 1);
        let z = binary64::scaled(m + 1);
        assert((x + z) * den == x * den + z * den && z * den <= y * den && x * den <= z * den)
            by (nonlinear_arith)
            requires
                z <= y,
                x <= z,
        ;
    }
}

/// No number is nearer to a signed fraction than the one that it rounds to.
proof fn lemma_nearest_number(negative: bool, num: nat, den: nat, c: Double)
    requires
        c.is_finite(),
        binary64::nearest(num, den) < INFINITE,
    ensures
        ({
            let r = Double::signed(negative, binary64::nearest(num, den));
            let target = if negative {
                -(num as int)
            } else {
                num as int
            };
            gap(r.value() * den, target) <= gap(c.value() * den, target)
        }),
{
    let m = binary64::nearest(num, den);
    order::lemma_signed(negative, m);
    let r = Double::signed(negative, m);
    let (x, y) = (binary64::scaled(m) as int, binary64::scaled(c.magnitude()) as int);
    assert((-x) * den == -(x * den) && (-y) * den == -(y * den) && 0 * den == 0 && y * den >= 0)
        by (nonlinear_arith)
        requires
            y >= 0,
    ;
    lemma_nearest_magnitude(num, den, c.magnitude());
    lemma_nearest_magnitude(num, den, 0);
    assert(binary64::scaled(0) == 0);
}

/// Distances in units, as reals.
proof fn lemma_gap_scaled(x: int, y: int, z: int, f: real)
    requires
        f >= 0 as real,
        gap(x, z) <= gap(y, z),
    ensures
        precision::size(x as real * f - z as real * f) <= precision::size(
            y as real * f - z as real * f,
        ),
{
    let (a, b) = (gap(x, z) as real, gap(y, z) as real);
    assert(a * f <= b * f) by (nonlinear_arith)
        requires
            a <= b,
            f >= 0 as real,
    ;
    let (p, q) = ((x - z) as real, (y - z) as real);
    assert(x as real * f - z as real * f == p * f && y as real * f - z as real * f == q * f)
        by (nonlinear_arith)
        requires
            p == x as real - z as real,
            q == y as real - z as real,
    ;
    assert((-p) * f == -(p * f) && (-q) * f == -(q * f)) by (nonlinear_arith);
    assert(a * f >= 0 as real && b * f >= 0 as real) by (nonlinear_arith)
        requires
            a >= 0 as real,
            b >= 0 as real,
            f >= 0 as real,
    ;
    assert(a == p || a == -p);
    assert(b == q || b == -q);
}

/// No number is nearer to the exact sum than the computed one.
pub proof fn law_sum_is_the_nearest(a: Double, b: Double, c: Double)
    requires
        a.is_finite(),
        b.is_finite(),
        c.is_finite(),
        a.plus(b).is_finite(),
    ensures
        precision::size(
            precision::number(a.plus(b)) - (precision::number(a) + precision::number(b)),
        ) <= precision::size(
            precision::number(c) - (precision::number(a) + precision::number(b)),
        ),
{
    reveal(Double::plus_spec);
    let sum = a.value() + b.value();
    let r = a.plus(b);
    let t = precision::tiny();
    precision::lemma_tiny();
    precision::lemma_number(a);
    precision::lemma_number(b);
    precision::lemma_number(c);
    precision::lemma_number(r);
    let (rv, cv) = (r.value(), c.value());
    if sum == 0 {
        order::lemma_signed(a.is_negative() && b.is_negative(), 0);
        order::lemma_sign(r);
    } else {
        let units = if sum < 0 {
            (-sum) as nat
        } else {
            sum as nat
        };
        binary64::lemma_nearest_bound(units, 1);
        order::lemma_signed(sum < 0, binary64::nearest(units, 1));
        lemma_nearest_number(sum < 0, units, 1, c);
        assert(rv * 1 == rv && cv * 1 == cv);
    }
    lemma_gap_scaled(rv, cv, sum, t);
    assert(sum as real * t == a.value() as real * t + b.value() as real * t) by (nonlinear_arith)
        requires
            sum as real == a.value() as real + b.value() as real,
    ;
}

/// No number is nearer to the exact product than the computed one.
pub proof fn law_product_is_the_nearest(a: Double, b: Double, c: Double)
    requires
        a.is_finite(),
        b.is_finite(),
        c.is_finite(),
        a.times(b).is_finite(),
    ensures
        precision::size(
            precision::number(a.times(b)) - precision::number(a) * precision::number(b),
        ) <= precision::size(precision::number(c) - precision::number(a) * precision::number(b)),
{
    reveal(Double::times_spec);
    let r = a.times(b);
    let negative = a.is_negative() != b.is_negative();
    let (x, y) = (binary64::scaled(a.magnitude()), binary64::scaled(b.magnitude()));
    let one = binary64::one();
    binary64::lemma_nearest_bound(x * y, one);
    order::lemma_signed(negative, binary64::nearest(x * y, one));
    lemma_nearest_number(negative, x * y, one, c);
    let product = a.value() * b.value();
    assert(product == if negative {
        -((x * y) as int)
    } else {
        (x * y) as int
    }) by {
        assert((-x) * y == -(x * y) && x * (-y) == -(x * y) && (-x) * (-y) == x * y)
            by (nonlinear_arith);
    }
    let t = precision::tiny();
    precision::lemma_tiny();
    precision::lemma_number(a);
    precision::lemma_number(b);
    precision::lemma_number(c);
    precision::lemma_number(r);
    assert(t * t >= 0 as real) by (nonlinear_arith);
    lemma_gap_scaled(r.value() * one, c.value() * one, product, t * t);
    lemma_units(r.value(), one as int, t);
    lemma_units(c.value(), one as int, t);
    let (p, q) = (a.value(), b.value());
    assert((p * q) as real * (t * t) == (p as real * t) * (q as real * t)) by (nonlinear_arith);
}

/// A number of units, in units of units.
proof fn lemma_units(x: int, one: int, t: real)
    requires
        t * one as real == 1 as real,
    ensures
        (x * one) as real * (t * t) == x as real * t,
{
    let (a, o) = (x as real, one as real);
    assert((x * one) as real == a * o) by (nonlinear_arith)
        requires
            a == x as real,
            o == one as real,
    ;
    assert((a * o) * (t * t) == a * t) by (nonlinear_arith)
        requires
            t * o == 1 as real,
    {
        assert((a * o) * (t * t) == (a * t) * (t * o));
    }
}

/// No number, times the divisor, is nearer to what is divided than the computed
/// quotient.
pub proof fn law_quotient_is_the_nearest(a: Double, b: Double, c: Double)
    requires
        a.is_finite(),
        b.is_finite(),
        c.is_finite(),
        !b.is_zero(),
        a.over(b).is_finite(),
    ensures
        precision::size(
            precision::number(a.over(b)) * precision::number(b) - precision::number(a),
        ) <= precision::size(precision::number(c) * precision::number(b) - precision::number(a)),
{
    reveal(Double::over_spec);
    let r = a.over(b);
    let negative = a.is_negative() != b.is_negative();
    let (x, y) = (binary64::scaled(a.magnitude()), binary64::scaled(b.magnitude()));
    let one = binary64::one();
    binary64::lemma_nearest_bound(x * one, y);
    order::lemma_signed(negative, binary64::nearest(x * one, y));
    lemma_nearest_number(negative, x * one, y, c);
    let (rv, cv, av, bv) = (r.value(), c.value(), a.value(), b.value());
    assert((-x) * one == -(x * one) && rv * (-y) == -(rv * y) && cv * (-y) == -(cv * y))
        by (nonlinear_arith);
    assert(gap(rv * bv, av * one) <= gap(cv * bv, av * one));
    let t = precision::tiny();
    precision::lemma_tiny();
    precision::lemma_number(a);
    precision::lemma_number(b);
    precision::lemma_number(c);
    precision::lemma_number(r);
    assert(t * t >= 0 as real) by (nonlinear_arith);
    lemma_gap_scaled(rv * bv, cv * bv, av * one, t * t);
    lemma_units(av, one as int, t);
    assert((rv * bv) as real * (t * t) == (rv as real * t) * (bv as real * t) && (cv * bv) as real
        * (t * t) == (cv as real * t) * (bv as real * t)) by (nonlinear_arith);
}

/// What is not a number makes every result not a number, and no comparison with it
/// holds.
pub proof fn law_not_a_number(a: Double, b: Double)
    requires
        a.is_nan() || b.is_nan(),
    ensures
        a.plus(b).is_nan(),
        a.minus(b).is_nan(),
        a.times(b).is_nan(),
        a.over(b).is_nan(),
        !a.less(b),
        !a.at_most(b),
        !a.equals(b),
        a.is_nan() ==> a.negated().is_nan() && a.abs().is_nan() && a.sqrt().is_nan()
            && a.ceil().is_nan(),
{
    reveal(Double::plus_spec);
    reveal(Double::times_spec);
    reveal(Double::over_spec);
    reveal(Double::sqrt_spec);
    reveal(Double::ceil_spec);
    order::lemma_signed(!b.is_negative(), b.magnitude());
    order::lemma_signed(!a.is_negative(), a.magnitude());
    order::lemma_signed(false, a.magnitude());
}

/// Numbers are compared by what they stand for.
pub proof fn law_comparisons(a: Double, b: Double)
    requires
        a.is_finite(),
        b.is_finite(),
    ensures
        a.less(b) <==> precision::number(a) < precision::number(b),
        a.at_most(b) <==> precision::number(a) <= precision::number(b),
        a.equals(b) <==> precision::number(a) == precision::number(b),
{
    precision::lemma_number_order(a, b);
    precision::lemma_number_order(b, a);
}

/// Adding a finite number to infinity changes nothing; infinity less itself is not a
/// number; dividing a finite number by infinity gives zero.
pub proof fn law_infinity(a: Double, b: Double)
    requires
        a.is_infinite(),
        b.is_finite(),
    ensures
        a.plus(b) == a,
        b.plus(a) == a,
        a.minus(b) == a,
        a.minus(a).is_nan(),
        b.over(a).is_zero(),
        !b.is_zero() ==> a.times(b).is_infinite(),
        b.is_zero() ==> a.times(b).is_nan(),
        a.over(b).is_infinite(),
        a.over(a).is_nan(),
        !a.is_negative() ==> b.less(a),
        a.is_negative() ==> a.less(b),
{
    reveal(Double::plus_spec);
    reveal(Double::times_spec);
    reveal(Double::over_spec);
    order::lemma_signed(!b.is_negative(), b.magnitude());
    order::lemma_signed(!a.is_negative(), a.magnitude());
    let negative = a.is_negative() != b.is_negative();
    order::lemma_signed(negative, 0);
    order::lemma_signed(negative, INFINITE as nat);
    order::lemma_signed(b.is_negative() != a.is_negative(), 0);
    binary64::lemma_scaled_increases(b.magnitude(), a.magnitude());
    binary64::lemma_scaled_order(b.magnitude(), a.magnitude());
    binary64::lemma_scaled_order(a.magnitude(), b.magnitude());
}

/// Dividing zero by zero is not a number; dividing another finite number by zero is
/// infinite.
pub proof fn law_division_by_zero(a: Double, b: Double)
    requires
        a.is_finite(),
        b.is_zero(),
    ensures
        a.is_zero() ==> a.over(b).is_nan(),
        !a.is_zero() ==> a.over(b).is_infinite(),
{
    reveal(Double::over_spec);
    order::lemma_signed(a.is_negative() != b.is_negative(), INFINITE as nat);
}

/// A finite number not below zero is rounded up to the least whole number that is not
/// less.
pub proof fn law_rounding_up(a: Double) -> (w: nat)
    requires
        a.is_finite(),
        precision::number(a) >= 0 as real,
    ensures
        precision::number(a.ceil()) == w as real,
        precision::number(a) <= w as real,
        precision::number(a) > w as real - 1 as real,
{
    precision::lemma_number(a);
    precision::lemma_number(a.ceil());
    precision::lemma_tiny();
    lemma_pow2_pos(1074);
    let one = binary64::one();
    let (t, o) = (precision::tiny(), one as real);
    let x = a.value();
    assert(x >= 0) by {
        let v = x as real;
        assert(v >= 0 as real) by (nonlinear_arith)
            requires
                v * t >= 0 as real,
                t > 0 as real,
        ;
    }
    order::lemma_ceil_whole(a);
    order::lemma_ceil_at_least(a);
    let w = order::whole_above(binary64::scaled(a.magnitude()));
    let y = a.ceil().value();
    assert(y as real == w as real * o) by (nonlinear_arith)
        requires
            y == w * one,
            o == one as real,
    ;
    let c = w as real;
    assert((c * o) * t == c) by (nonlinear_arith)
        requires
            t * o == 1 as real,
    ;
    let (p, q) = (x as real, y as real);
    assert(p * t <= q * t && (q - o) * t < p * t && (q - o) * t == q * t - 1 as real)
        by (nonlinear_arith)
        requires
            p <= q,
            q - o < p,
            t > 0 as real,
            t * o == 1 as real,
    ;
    w
}

} // verus!
