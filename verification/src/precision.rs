//! How far rounded results are from the exact ones.
//!
//! Here numbers are read as reals. Each operation is off by at most a relative
//! error of [`eps`], two to the power -52, and products and quotients by one more
//! unit of the format.

use vstd::arithmetic::power2::*;
use vstd::prelude::*;

use crate::binary64;
use crate::binary64::{BINADE, INFINITE};
use crate::double;
use crate::double::Double;
use crate::order;
use crate::vector;

verus! {

/// The number as a real.
#[verifier::opaque]
pub open spec fn number(x: Double) -> real {
    x.value() as real / binary64::one() as real
}

/// The absolute value of a real.
pub open spec fn size(x: real) -> real {
    if x < 0 as real {
        -x
    } else {
        x
    }
}

/// Two to the power -52.
#[verifier::opaque]
pub open spec fn eps() -> real {
    1 as real / BINADE as real
}

/// The unit of the format, as a real.
#[verifier::opaque]
pub open spec fn tiny() -> real {
    1 as real / binary64::one() as real
}

/// Two to the power -52, by what it is the inverse of.
pub proof fn lemma_eps()
    ensures
        eps() > 0 as real,
        eps() * 4_503_599_627_370_496 as real == 1 as real,
{
    reveal(eps);
    let b = 4_503_599_627_370_496 as real;
    assert(eps() > 0 as real && eps() * b == 1 as real) by (nonlinear_arith)
        requires
            eps() == 1 as real / b,
            b > 0 as real,
    ;
}

/// The unit is positive and very small.
pub proof fn lemma_tiny()
    ensures
        (0 as real) < tiny(),
        tiny() * (100_000_000_000_000_000_000_000_000_000_000_000_000 as real) <= 1 as real,
        tiny() * binary64::one() as real == 1 as real,
{
    reveal(tiny);
    lemma_pow2_pos(1074);
    lemma2_to64();
    lemma_pow2_adds(64, 64);
    lemma_pow2_strictly_increases(128, 1074);
    let o = binary64::one() as real;
    assert(tiny() * o == 1 as real && tiny() > 0 as real) by (nonlinear_arith)
        requires
            tiny() == 1 as real / o,
            o > 0 as real,
    ;
    assert(tiny() * (100_000_000_000_000_000_000_000_000_000_000_000_000 as real) <= tiny() * o)
        by (nonlinear_arith)
        requires
            tiny() > 0 as real,
            (100_000_000_000_000_000_000_000_000_000_000_000_000 as real) <= o,
    ;
}

/// A number, from its value in units.
pub proof fn lemma_number(x: Double)
    ensures
        number(x) == x.value() as real * tiny(),
        number(x) * binary64::one() as real == x.value() as real,
{
    reveal(number);
    reveal(tiny);
    lemma_tiny();
    lemma_pow2_pos(1074);
    let o = binary64::one() as real;
    let v = x.value() as real;
    assert(v / o == v * tiny() && (v / o) * o == v) by (nonlinear_arith)
        requires
            tiny() == 1 as real / o,
            o > 0 as real,
    ;
}

/// The order of numbers is that of their values.
pub proof fn lemma_number_order(a: Double, b: Double)
    ensures
        a.value() <= b.value() <==> number(a) <= number(b),
        a.value() == b.value() <==> number(a) == number(b),
{
    lemma_number(a);
    lemma_number(b);
    lemma_pow2_pos(1074);
    let o = binary64::one() as real;
    let (x, y) = (number(a), number(b));
    assert(x <= y <==> x * o <= y * o) by (nonlinear_arith)
        requires
            o > 0 as real,
    ;
    assert(x == y <==> x * o == y * o) by (nonlinear_arith)
        requires
            o > 0 as real,
    ;
}

/// The numbers zero and one.
pub proof fn lemma_number_constants()
    ensures
        number(Double::zero()) == 0 as real,
        number(vector::nothing()) == 0 as real,
        number(Double::one()) == 1 as real,
{
    lemma_number(Double::zero());
    lemma_number(vector::nothing());
    lemma_number(Double::one());
    order::lemma_sign(Double::zero());
    order::lemma_sign(vector::nothing());
    double::lemma_one();
    lemma_tiny();
    assert(0 as real * tiny() == 0 as real) by (nonlinear_arith);
    assert(tiny() * binary64::one() as real == binary64::one() as real * tiny())
        by (nonlinear_arith);
}

/// A natural number up to two to the power 53 is itself.
pub proof fn lemma_number_natural(c: nat)
    requires
        c <= 2 * BINADE,
    ensures
        number(Double::natural(c)) == c as real,
        Double::natural(c).is_finite(),
{
    double::lemma_natural_exact(c);
    lemma_number(Double::natural(c));
    lemma_tiny();
    let o = binary64::one();
    assert((c * o) as real == c as real * o as real) by (nonlinear_arith);
    assert(c as real * o as real * tiny() == c as real) by (nonlinear_arith)
        requires
            tiny() * o as real == 1 as real,
    ;
}

/// Changing the sign changes the sign.
pub proof fn lemma_number_negated(x: Double)
    requires
        !x.is_nan(),
    ensures
        number(x.negated()) == -number(x),
        x.negated().is_finite() == x.is_finite(),
        !x.negated().is_nan(),
{
    order::lemma_signed(!x.is_negative(), x.magnitude());
    lemma_number(x);
    lemma_number(x.negated());
    let v = x.value() as real;
    assert((-v) * tiny() == -(v * tiny())) by (nonlinear_arith);
}

/// Taking away the sign gives the absolute value.
pub proof fn lemma_number_abs(x: Double)
    requires
        !x.is_nan(),
    ensures
        number(x.abs()) == size(number(x)),
        x.abs().is_finite() == x.is_finite(),
        !x.abs().is_nan(),
{
    order::lemma_signed(false, x.magnitude());
    lemma_number(x);
    lemma_number(x.abs());
    lemma_tiny();
    let v = x.value() as real;
    assert((-v) * tiny() == -(v * tiny())) by (nonlinear_arith);
    assert(v >= 0 as real ==> v * tiny() >= 0 as real) by (nonlinear_arith)
        requires
            tiny() > 0 as real,
    ;
    assert(v < 0 as real ==> v * tiny() < 0 as real) by (nonlinear_arith)
        requires
            tiny() > 0 as real,
    ;
}

/// The error of rounding: at most half of the gap to the neighbours.
proof fn lemma_rounding_gap(num: nat, den: nat, m: nat)
    requires
        m == binary64::nearest(num, den),
        m < INFINITE,
        den > 0,
    ensures
        2 * num - 2 * (binary64::scaled(m) * den) <= pow2(binary64::exponent(m)) * den,
        2 * (binary64::scaled(m) * den) - 2 * num <= pow2(binary64::exponent(m)) * den,
        binary64::exponent(m) > 0 ==> BINADE * pow2(binary64::exponent(m)) <= binary64::scaled(m),
{
    binary64::lemma_nearest(num, den);
    binary64::lemma_parts(m);
    let (t, u) = (binary64::significand(m), binary64::exponent(m));
    let (s, p) = (binary64::scaled(m), pow2(u));
    lemma_pow2_pos(u);
    binary64::lemma_scaled_parts(u, t + 1);
    assert(u * (BINADE as nat) + (t + 1) == m + 1);
    assert((t + 1) * p == s + p) by (nonlinear_arith)
        requires
            s == t * p,
    ;
    assert(binary64::mid(m) * den == 2 * (s * den) + p * den) by (nonlinear_arith)
        requires
            binary64::mid(m) == s + (s + p),
    ;
    if u > 0 {
        assert(BINADE * p <= t * p) by (nonlinear_arith)
            requires
                BINADE <= t,
                p > 0,
        ;
    }
    if m > 0 {
        let low = binary64::scaled((m - 1) as nat);
        lemma_gap_below(m);
        let a = binary64::mid((m - 1) as nat);
        assert(a * den >= 2 * (s * den) - p * den) by (nonlinear_arith)
            requires
                a == low + s,
                low + p >= s,
                den > 0,
        ;
    } else {
        assert(s * den == 0) by (nonlinear_arith)
            requires
                s == 0,
        ;
        assert(p * den >= 0) by (nonlinear_arith);
    }
}

/// The gap below a number is not greater than the one above.
proof fn lemma_gap_below(m: nat)
    requires
        m > 0,
    ensures
        binary64::scaled((m - 1) as nat) + pow2(binary64::exponent(m)) >= binary64::scaled(m),
{
    binary64::lemma_parts(m);
    let (t, u) = (binary64::significand(m), binary64::exponent(m));
    let (s, p) = (binary64::scaled(m), pow2(u));
    let b = BINADE as nat;
    lemma_pow2_pos(u);
    if u == 0 || t > b {
        binary64::lemma_scaled_parts(u, (t - 1) as nat);
        assert(u * b + (t - 1) == m - 1);
        assert((t - 1) * p == s - p) by (nonlinear_arith)
            requires
                s == t * p,
        ;
    } else {
        let h = pow2((u - 1) as nat);
        lemma_pow2_unfold(u);
        binary64::lemma_scaled_parts((u - 1) as nat, (2 * b - 1) as nat);
        assert((u - 1) * b + (2 * b - 1) == m - 1) by (nonlinear_arith)
            requires
                m == u * b + b,
        ;
        assert((2 * b - 1) * h + p >= b * p) by (nonlinear_arith)
            requires
                p == 2 * h,
                h >= 0,
        ;
    }
}

/// A rounded number of units is off by a relative error of `eps` at most.
proof fn lemma_units_error(num: nat)
    requires
        binary64::nearest(num, 1) < INFINITE,
    ensures
        size(binary64::scaled(binary64::nearest(num, 1)) as real - num as real) <= eps()
            * num as real,
{
    let m = binary64::nearest(num, 1);
    let (s, u) = (binary64::scaled(m), binary64::exponent(m));
    let p = pow2(u);
    lemma_rounding_gap(num, 1, m);
    lemma_eps();
    lemma_pow2_pos(u);
    assert(s * 1 == s && p * 1 == p) by (nonlinear_arith);
    if u == 0 {
        lemma2_to64();
        assert(s == num);
        assert(eps() * num as real >= 0 as real) by (nonlinear_arith)
            requires
                eps() >= 0 as real,
                num as real >= 0 as real,
        ;
    } else {
        lemma_relative(s as real, num as real, p as real);
    }
}

/// From half of the gap to the relative error.
proof fn lemma_relative(s: real, x: real, p: real)
    requires
        2 as real * size(s - x) <= p,
        4_503_599_627_370_496 as real * p <= s,
        p > 0 as real,
    ensures
        size(s - x) <= eps() * x,
{
    lemma_eps();
    let b = 4_503_599_627_370_496 as real;
    // Half a gap is at most half of `eps` times `s`, and `s` is at most twice `x`.
    assert(p <= eps() * s) by (nonlinear_arith)
        requires
            b * p <= s,
            eps() * b == 1 as real,
            eps() > 0 as real,
    ;
    assert(p * (2 as real) <= s);
    assert(s <= 2 as real * x);
    assert(eps() * s <= eps() * (2 as real * x)) by (nonlinear_arith)
        requires
            s <= 2 as real * x,
            eps() > 0 as real,
    ;
    assert(eps() * (2 as real * x) == 2 as real * (eps() * x)) by (nonlinear_arith);
}

/// A rounded fraction is off by a relative error of `eps` and one unit at most.
pub proof fn lemma_fraction_error(num: nat, den: nat, x: real)
    requires
        den > 0,
        binary64::nearest(num, den) < INFINITE,
        x * den as real == num as real,
    ensures
        size(binary64::scaled(binary64::nearest(num, den)) as real - x) <= eps() * x + 1 as real,
        x >= 0 as real,
{
    let m = binary64::nearest(num, den);
    let (s, u) = (binary64::scaled(m), binary64::exponent(m));
    let p = pow2(u);
    lemma_rounding_gap(num, den, m);
    lemma_eps();
    lemma_pow2_pos(u);
    let d = den as real;
    assert((s * den) as real == s as real * d) by (nonlinear_arith)
        requires
            d == den as real,
    ;
    assert((p * den) as real == p as real * d) by (nonlinear_arith)
        requires
            d == den as real,
    ;
    assert(2 as real * (s as real - x) <= p as real) by (nonlinear_arith)
        requires
            2 as real * (s as real * d) - 2 as real * (x * d) <= p as real * d,
            d > 0 as real,
    ;
    assert(2 as real * (x - s as real) <= p as real) by (nonlinear_arith)
        requires
            2 as real * (x * d) - 2 as real * (s as real * d) <= p as real * d,
            d > 0 as real,
    ;
    assert(x >= 0 as real) by (nonlinear_arith)
        requires
            x * d >= 0 as real,
            d > 0 as real,
    ;
    assert(eps() * x >= 0 as real) by (nonlinear_arith)
        requires
            eps() >= 0 as real,
            x >= 0 as real,
    ;
    if u == 0 {
        lemma2_to64();
    } else {
        lemma_relative(s as real, x, p as real);
    }
}

/// The error of a sum.
pub proof fn lemma_plus_error(a: Double, b: Double)
    requires
        a.is_finite(),
        b.is_finite(),
        a.plus(b).is_finite(),
    ensures
        size(number(a.plus(b)) - (number(a) + number(b))) <= eps() * size(number(a) + number(b)),
{
    reveal(Double::plus_spec);
    let r = a.plus(b);
    lemma_number(a);
    lemma_number(b);
    lemma_number(r);
    lemma_tiny();
    order::lemma_sign(a);
    order::lemma_sign(b);
    let sum = a.value() + b.value();
    let x = if sum < 0 {
        (-sum) as nat
    } else {
        sum as nat
    };
    let m = binary64::nearest(x, 1);
    binary64::lemma_nearest_bound(x, 1);
    order::lemma_signed(sum < 0, m);
    order::lemma_signed(true, 0);
    order::lemma_signed(false, 0);
    let t = tiny();
    let (va, vb, vr, vs) = (
        a.value() as real,
        b.value() as real,
        r.value() as real,
        sum as real,
    );
    assert(va * t + vb * t == vs * t) by (nonlinear_arith)
        requires
            vs == va + vb,
    ;
    if sum != 0 {
        lemma_units_error(x);
    } else {
        order::lemma_sign(r);
        assert(eps() * 0 as real == 0 as real) by (nonlinear_arith);
    }
    assert(size(vr - vs) <= eps() * size(vs));
    lemma_scale_error(vr, vs, eps() * size(vs), t);
    lemma_scale_size(vs, t);
    assert(eps() * size(vs) * t == eps() * (size(vs) * t)) by (nonlinear_arith);
}

/// An error bound, scaled.
proof fn lemma_scale_error(y: real, x: real, bound: real, t: real)
    requires
        size(y - x) <= bound,
        t > 0 as real,
    ensures
        size(y * t - x * t) <= bound * t,
{
    assert(y * t - x * t == (y - x) * t) by (nonlinear_arith);
    lemma_scale_size(y - x, t);
    assert(size(y - x) * t <= bound * t) by (nonlinear_arith)
        requires
            size(y - x) <= bound,
            t > 0 as real,
    ;
}

/// An absolute value, scaled.
proof fn lemma_scale_size(x: real, t: real)
    requires
        t > 0 as real,
    ensures
        size(x * t) == size(x) * t,
{
    assert((-x) * t == -(x * t)) by (nonlinear_arith);
    assert(x >= 0 as real ==> x * t >= 0 as real) by (nonlinear_arith)
        requires
            t > 0 as real,
    ;
    assert(x < 0 as real ==> x * t < 0 as real) by (nonlinear_arith)
        requires
            t > 0 as real,
    ;
}

/// The error of a difference.
pub proof fn lemma_minus_error(a: Double, b: Double)
    requires
        a.is_finite(),
        b.is_finite(),
        a.minus(b).is_finite(),
    ensures
        size(number(a.minus(b)) - (number(a) - number(b))) <= eps() * size(number(a) - number(b)),
{
    lemma_number_negated(b);
    lemma_plus_error(a, b.negated());
}

/// The error of a product.
pub proof fn lemma_times_error(a: Double, b: Double)
    requires
        a.is_finite(),
        b.is_finite(),
        a.times(b).is_finite(),
    ensures
        size(number(a.times(b)) - number(a) * number(b)) <= eps() * size(number(a) * number(b))
            + tiny(),
{
    reveal(Double::times_spec);
    let r = a.times(b);
    lemma_number(a);
    lemma_number(b);
    lemma_number(r);
    lemma_tiny();
    let one = binary64::one();
    lemma_pow2_pos(1074);
    let (sa, sb) = (binary64::scaled(a.magnitude()), binary64::scaled(b.magnitude()));
    let num = sa * sb;
    let m = binary64::nearest(num, one);
    binary64::lemma_nearest_bound(num, one);
    order::lemma_signed(a.is_negative() != b.is_negative(), m);
    let t = tiny();
    let o = one as real;
    let x = sa as real * sb as real * t;
    assert(num as real == sa as real * sb as real) by (nonlinear_arith)
        requires
            num == sa * sb,
    ;
    assert(x * o == num as real) by (nonlinear_arith)
        requires
            x == num as real * t,
            t * o == 1 as real,
    ;
    lemma_fraction_error(num, one, x);
    let y = binary64::scaled(m) as real;
    lemma_scale_error(y, x, eps() * x + 1 as real, t);
    assert((eps() * x + 1 as real) * t == eps() * (x * t) + t) by (nonlinear_arith);
    // Back to the signed numbers.
    let (na, nb) = (number(a), number(b));
    let (pa, pb) = (sa as real * t, sb as real * t);
    assert(x * t == pa * pb) by (nonlinear_arith)
        requires
            x == sa as real * sb as real * t,
            pa == sa as real * t,
            pb == sb as real * t,
    ;
    assert((-(sa as real)) * t == -pa) by (nonlinear_arith)
        requires
            pa == sa as real * t,
    ;
    assert((-(sb as real)) * t == -pb) by (nonlinear_arith)
        requires
            pb == sb as real * t,
    ;
    assert((-y) * t == -(y * t)) by (nonlinear_arith);
    assert((-pa) * pb == -(pa * pb)) by (nonlinear_arith);
    assert(pa * (-pb) == -(pa * pb)) by (nonlinear_arith);
    assert((-pa) * (-pb) == pa * pb) by (nonlinear_arith);
    assert(pa * pb >= 0 as real) by (nonlinear_arith)
        requires
            pa * pb == x * t,
            x >= 0 as real,
            t > 0 as real,
    ;
    assert(number(r) == if a.is_negative() != b.is_negative() {
        -(y * t)
    } else {
        y * t
    });
    assert(na == if a.is_negative() {
        -pa
    } else {
        pa
    });
    assert(nb == if b.is_negative() {
        -pb
    } else {
        pb
    });
}

/// Whether the exact product of two numbers is zero or not below the least number
/// that the format keeps at full precision.
pub open spec fn is_normal_product(x: Double, y: Double) -> bool {
    x.is_zero() || y.is_zero() || BINADE * binary64::one() <= binary64::scaled(x.magnitude())
        * binary64::scaled(y.magnitude())
}

/// A product that is not too small is kept at full precision.
pub proof fn lemma_normal_product(a: Double, b: Double)
    requires
        number(a) * number(b) >= 4_503_599_627_370_496 as real * tiny(),
        number(a) >= 0 as real,
        number(b) >= 0 as real,
    ensures
        is_normal_product(a, b),
{
    lemma_number(a);
    lemma_number(b);
    lemma_tiny();
    let (sa, sb) = (binary64::scaled(a.magnitude()), binary64::scaled(b.magnitude()));
    let one = binary64::one();
    let (o, t) = (one as real, tiny());
    let (p, q) = (number(a), number(b));
    lemma_pow2_pos(1074);
    let (va, vb) = (a.value() as real, b.value() as real);
    assert(va >= 0 as real && vb >= 0 as real) by (nonlinear_arith)
        requires
            va == p * o,
            vb == q * o,
            p >= 0 as real,
            q >= 0 as real,
            o > 0 as real,
    ;
    assert(va == sa as real && vb == sb as real);
    assert(va * vb >= 4_503_599_627_370_496 as real * o) by (nonlinear_arith)
        requires
            va == p * o,
            vb == q * o,
            p * q >= 4_503_599_627_370_496 as real * t,
            t * o == 1 as real,
            o > 0 as real,
    {
        assert(va * vb == (p * q) * (o * o));
        assert((p * q) * (o * o) >= (4_503_599_627_370_496 as real * t) * (o * o));
        assert((4_503_599_627_370_496 as real * t) * (o * o) == 4_503_599_627_370_496 as real * o
            * (t * o));
    }
    assert((sa * sb) as real == sa as real * sb as real) by (nonlinear_arith);
    assert((BINADE * one) as real == 4_503_599_627_370_496 as real * o) by (nonlinear_arith)
        requires
            o == one as real,
    ;
}

/// The error of a product that is kept at full precision.
pub proof fn lemma_normal_product_error(a: Double, b: Double)
    requires
        a.is_finite(),
        b.is_finite(),
        a.times(b).is_finite(),
        is_normal_product(a, b),
    ensures
        size(number(a.times(b)) - number(a) * number(b)) <= 2 as real * (eps() * size(
            number(a) * number(b),
        )),
{
    lemma_eps();
    lemma_tiny();
    lemma_number(a);
    lemma_number(b);
    let t = tiny();
    let (x, y) = (number(a), number(b));
    if a.is_zero() || b.is_zero() {
        order::lemma_times_sign(a, b);
        order::lemma_sign(a);
        order::lemma_sign(b);
        order::lemma_sign(a.times(b));
        lemma_number(a.times(b));
        assert(0 as real * t == 0 as real) by (nonlinear_arith);
        assert(x * y == 0 as real) by (nonlinear_arith)
            requires
                x == 0 as real || y == 0 as real,
        ;
        assert(2 as real * (eps() * 0 as real) == 0 as real) by (nonlinear_arith);
    } else {
        lemma_times_error(a, b);
        let (sa, sb) = (binary64::scaled(a.magnitude()), binary64::scaled(b.magnitude()));
        let (xa, xb, o) = (sa as real, sb as real, binary64::one() as real);
        lemma_product_size(x, y);
        lemma_scale_size(a.value() as real, t);
        lemma_scale_size(b.value() as real, t);
        assert((sa * sb) as real == xa * xb) by (nonlinear_arith)
            requires
                xa == sa as real,
                xb == sb as real,
        ;
        assert((BINADE * binary64::one()) as real == 4_503_599_627_370_496 as real * o)
            by (nonlinear_arith)
            requires
                o == binary64::one() as real,
        ;
        let z = size(x * y);
        assert(z == (xa * t) * (xb * t));
        assert(4_503_599_627_370_496 as real * t <= z) by (nonlinear_arith)
            requires
                z == (xa * t) * (xb * t),
                4_503_599_627_370_496 as real * o <= xa * xb,
                t > 0 as real,
                t * o == 1 as real,
        {
            assert(z == (xa * xb) * (t * t));
            assert((4_503_599_627_370_496 as real * o) * (t * t) <= (xa * xb) * (t * t));
            assert((4_503_599_627_370_496 as real * o) * (t * t) == 4_503_599_627_370_496 as real
                * t * (t * o));
        }
        assert(t <= eps() * z) by (nonlinear_arith)
            requires
                4_503_599_627_370_496 as real * t <= z,
                eps() > 0 as real,
                eps() * 4_503_599_627_370_496 as real == 1 as real,
        ;
    }
}

/// The error of a quotient by a number above zero.
pub proof fn lemma_over_error(a: Double, b: Double)
    requires
        a.is_finite(),
        b.is_finite(),
        b.value() > 0,
        a.over(b).is_finite(),
    ensures
        size(number(a.over(b)) - number(a) / number(b)) <= eps() * size(number(a) / number(b))
            + tiny(),
        number(b) > 0 as real,
        a.value() >= 0 ==> number(a) / number(b) >= 0 as real,
{
    reveal(Double::over_spec);
    let r = a.over(b);
    lemma_number(a);
    lemma_number(b);
    lemma_number(r);
    lemma_tiny();
    order::lemma_sign(a);
    order::lemma_sign(b);
    let one = binary64::one();
    lemma_pow2_pos(1074);
    let (sa, sb) = (binary64::scaled(a.magnitude()), binary64::scaled(b.magnitude()));
    let num = sa * one;
    let m = binary64::nearest(num, sb);
    binary64::lemma_nearest_bound(num, sb);
    order::lemma_signed(a.is_negative() != b.is_negative(), m);
    let t = tiny();
    let o = one as real;
    let (xa, xb) = (sa as real, sb as real);
    assert(num as real == xa * o) by (nonlinear_arith)
        requires
            num == sa * one,
            xa == sa as real,
            o == one as real,
    ;
    let x = (xa * o) / xb;
    assert(x * xb == xa * o) by (nonlinear_arith)
        requires
            x == (xa * o) / xb,
            xb > 0 as real,
    ;
    lemma_fraction_error(num, sb, x);
    let y = binary64::scaled(m) as real;
    lemma_scale_error(y, x, eps() * x + 1 as real, t);
    assert((eps() * x + 1 as real) * t == eps() * (x * t) + t) by (nonlinear_arith);
    let (na, nb) = (xa * t, number(b));
    assert(nb > 0 as real) by (nonlinear_arith)
        requires
            nb == xb * t,
            xb > 0 as real,
            t > 0 as real,
    ;
    assert(x * t * nb == na) by (nonlinear_arith)
        requires
            x * xb == xa * o,
            nb == xb * t,
            na == xa * t,
            t * o == 1 as real,
    ;
    assert(na / nb == x * t && (-na) / nb == -(x * t)) by (nonlinear_arith)
        requires
            x * t * nb == na,
            nb > 0 as real,
    ;
    assert(x * t >= 0 as real) by (nonlinear_arith)
        requires
            x >= 0 as real,
            t > 0 as real,
    ;
    assert((-y) * t == -(y * t) && (-xa) * t == -(xa * t)) by (nonlinear_arith);
    assert(number(a) == if a.is_negative() {
        -na
    } else {
        na
    });
    assert(number(r) == if a.is_negative() {
        -(y * t)
    } else {
        y * t
    });
    if a.is_negative() && a.value() >= 0 {
        assert(na == 0 as real) by (nonlinear_arith)
            requires
                na == xa * t,
                xa == 0 as real,
        ;
    }
}

/// The sum of `f(0)`, `f(1)`, ..., `f(n - 1)`.
pub open spec fn sum_of(f: spec_fn(int) -> real, n: nat) -> real
    decreases n,
{
    if n == 0 {
        0 as real
    } else {
        sum_of(f, (n - 1) as nat) + f(n - 1)
    }
}

/// Sums keep order.
pub proof fn lemma_sum_order(f: spec_fn(int) -> real, g: spec_fn(int) -> real, n: nat)
    requires
        forall|i: int| 0 <= i < n ==> #[trigger] f(i) <= g(i),
    ensures
        sum_of(f, n) <= sum_of(g, n),
    decreases n,
{
    if n > 0 {
        lemma_sum_order(f, g, (n - 1) as nat);
        assert(f(n - 1) <= g(n - 1));
    }
}

/// Equal terms have equal sums.
pub proof fn lemma_sum_same(f: spec_fn(int) -> real, g: spec_fn(int) -> real, n: nat)
    requires
        forall|i: int| 0 <= i < n ==> #[trigger] f(i) == g(i),
    ensures
        sum_of(f, n) == sum_of(g, n),
    decreases n,
{
    if n > 0 {
        lemma_sum_same(f, g, (n - 1) as nat);
        assert(f(n - 1) == g(n - 1));
    }
}

/// The sum of sums.
pub proof fn lemma_sum_plus(
    f: spec_fn(int) -> real,
    g: spec_fn(int) -> real,
    h: spec_fn(int) -> real,
    n: nat,
)
    requires
        forall|i: int| 0 <= i < n ==> #[trigger] h(i) == f(i) + g(i),
    ensures
        sum_of(h, n) == sum_of(f, n) + sum_of(g, n),
    decreases n,
{
    if n > 0 {
        lemma_sum_plus(f, g, h, (n - 1) as nat);
        assert(h(n - 1) == f(n - 1) + g(n - 1));
    }
}

/// The sum of multiples.
pub proof fn lemma_sum_scale(f: spec_fn(int) -> real, c: real, h: spec_fn(int) -> real, n: nat)
    requires
        forall|i: int| 0 <= i < n ==> #[trigger] h(i) == c * f(i),
    ensures
        sum_of(h, n) == c * sum_of(f, n),
    decreases n,
{
    if n == 0 {
        assert(c * 0 as real == 0 as real) by (nonlinear_arith);
    } else {
        lemma_sum_scale(f, c, h, (n - 1) as nat);
        let (a, b) = (sum_of(f, (n - 1) as nat), f(n - 1));
        assert(h(n - 1) == c * b);
        assert(c * (a + b) == c * a + c * b) by (nonlinear_arith);
    }
}

/// The sum of equal terms.
pub proof fn lemma_sum_equal(f: spec_fn(int) -> real, c: real, n: nat)
    requires
        forall|i: int| 0 <= i < n ==> #[trigger] f(i) == c,
    ensures
        sum_of(f, n) == n as real * c,
    decreases n,
{
    if n == 0 {
        assert(0 as real * c == 0 as real) by (nonlinear_arith);
    } else {
        lemma_sum_equal(f, c, (n - 1) as nat);
        assert(f(n - 1) == c);
        let m = (n - 1) as real;
        assert((m + 1 as real) * c == m * c + c) by (nonlinear_arith);
    }
}

/// A sum of terms not below zero is not below zero, nor below one of them.
pub proof fn lemma_sum_bounds(f: spec_fn(int) -> real, n: nat, j: int)
    requires
        forall|i: int| 0 <= i < n ==> #[trigger] f(i) >= 0 as real,
    ensures
        sum_of(f, n) >= 0 as real,
        0 <= j < n ==> f(j) <= sum_of(f, n),
    decreases n,
{
    if n > 0 {
        lemma_sum_bounds(f, (n - 1) as nat, j);
        assert(f(n - 1) >= 0 as real);
    }
}

/// A sum is not farther from zero than its terms are together.
pub proof fn lemma_sum_size(f: spec_fn(int) -> real, g: spec_fn(int) -> real, n: nat)
    requires
        forall|i: int| 0 <= i < n ==> size(#[trigger] f(i)) <= g(i),
    ensures
        size(sum_of(f, n)) <= sum_of(g, n),
    decreases n,
{
    if n > 0 {
        lemma_sum_size(f, g, (n - 1) as nat);
        assert(size(f(n - 1)) <= g(n - 1));
    }
}

/// The difference of two sums is at most the sum of the differences.
pub proof fn lemma_sum_difference(
    f: spec_fn(int) -> real,
    g: spec_fn(int) -> real,
    d: spec_fn(int) -> real,
    n: nat,
)
    requires
        forall|i: int| 0 <= i < n ==> size(#[trigger] f(i) - g(i)) <= d(i),
    ensures
        size(sum_of(f, n) - sum_of(g, n)) <= sum_of(d, n),
    decreases n,
{
    if n > 0 {
        lemma_sum_difference(f, g, d, (n - 1) as nat);
        assert(size(f(n - 1) - g(n - 1)) <= d(n - 1));
    }
}

/// The order of summation does not matter.
pub proof fn lemma_sum_swap(g: spec_fn(int, int) -> real, n: nat, m: nat)
    ensures
        sum_of(|i: int| sum_of(|j: int| g(i, j), m), n) == sum_of(
            |j: int| sum_of(|i: int| g(i, j), n),
            m,
        ),
    decreases n,
{
    let rows = |i: int| sum_of(|j: int| g(i, j), m);
    let columns = |j: int| sum_of(|i: int| g(i, j), n);
    if n == 0 {
        assert forall|j: int| 0 <= j < m implies #[trigger] columns(j) == 0 as real by {}
        lemma_sum_equal(columns, 0 as real, m);
        assert(m as real * 0 as real == 0 as real) by (nonlinear_arith);
    } else {
        let k = (n - 1) as nat;
        lemma_sum_swap(g, k, m);
        let shorter = |j: int| sum_of(|i: int| g(i, j), k);
        let last = |j: int| g(n - 1, j);
        assert forall|j: int| 0 <= j < m implies #[trigger] columns(j) == shorter(j) + last(
            j,
        ) by {
            let column = |i: int| g(i, j);
            assert(sum_of(column, n) == sum_of(column, k) + column(n - 1));
        }
        lemma_sum_plus(shorter, last, columns, m);
        assert(rows(n - 1) == sum_of(|j: int| g(n - 1, j), m));
        assert(last =~= (|j: int| g(n - 1, j)));
    }
}

/// The terms as reals.
pub open spec fn numbers(terms: Seq<Double>) -> spec_fn(int) -> real {
    |i: int| number(terms[i])
}

/// The absolute values of the terms as reals.
pub open spec fn sizes(terms: Seq<Double>) -> spec_fn(int) -> real {
    |i: int| size(number(terms[i]))
}

/// How many of the terms are not zero.
pub open spec fn nonzero(terms: Seq<Double>) -> nat
    decreases terms.len(),
{
    if terms.len() == 0 {
        0
    } else {
        nonzero(terms.drop_last()) + if terms.last().is_zero() {
            0nat
        } else {
            1
        }
    }
}

/// Not more terms are other than zero than there are.
pub proof fn lemma_nonzero(terms: Seq<Double>)
    ensures
        nonzero(terms) <= terms.len(),
    decreases terms.len(),
{
    if terms.len() > 0 {
        lemma_nonzero(terms.drop_last());
    }
}

/// A sum is finite only if its terms are.
pub proof fn lemma_plus_finite_terms(a: Double, b: Double)
    requires
        a.plus(b).is_finite(),
    ensures
        a.is_finite(),
        b.is_finite(),
{
    reveal(Double::plus_spec);
}

/// The most terms that the bounds for sums are stated for, two to the power 50. So
/// many numbers do not fit into the memory of a machine.
pub const LENGTH_LIMIT: u64 = 0x4_0000_0000_0000;

/// The relative error that rounding makes at most in a sum of `n` terms: `n` times
/// `eps`.
#[verifier::opaque]
pub open spec fn growth(n: nat) -> real {
    n as real * eps()
}

/// The relative error grows with the number of terms, and it stays below one
/// quarter up to the limit.
pub proof fn lemma_growth(n: nat)
    ensures
        growth(n) == n as real * eps(),
        growth(n) >= 0 as real,
        growth(n) * 4_503_599_627_370_496 as real == n as real,
        n <= LENGTH_LIMIT ==> growth(n) * 4 as real <= 1 as real,
        growth(n + 1) == growth(n) + eps(),
{
    reveal(growth);
    lemma_eps();
    let (l, e) = (n as real, eps());
    assert(l * e >= 0 as real && (l * e) * 4_503_599_627_370_496 as real == l && (l + 1 as real) * e
        == l * e + e) by (nonlinear_arith)
        requires
            l >= 0 as real,
            e > 0 as real,
            e * 4_503_599_627_370_496 as real == 1 as real,
    ;
}

/// Fewer terms have a smaller error.
pub proof fn lemma_growth_order(m: nat, n: nat)
    requires
        m <= n,
    ensures
        growth(m) <= growth(n),
{
    lemma_growth(m);
    lemma_growth(n);
}

/// No number of the format is nearer to a number of units than the one that it
/// rounds to.
proof fn lemma_nearest_closest(num: nat, k: nat)
    requires
        k < INFINITE,
        binary64::nearest(num, 1) < INFINITE,
    ensures
        size(binary64::scaled(binary64::nearest(num, 1)) as real - num as real) <= size(
            binary64::scaled(k) as real - num as real,
        ),
{
    let m = binary64::nearest(num, 1);
    binary64::lemma_nearest(num, 1);
    if k < m {
        binary64::lemma_scaled_increases(k, (m - 1) as nat);
        binary64::lemma_scaled_increases((m - 1) as nat, m);
        let a = binary64::mid((m - 1) as nat);
        assert(a * 1 == a) by (nonlinear_arith);
    } else if m < k {
        binary64::lemma_scaled_increases(m + 1, k);
        binary64::lemma_scaled_increases(m, m + 1);
        let a = binary64::mid(m);
        assert(a * 1 == a) by (nonlinear_arith);
    }
}

/// The error of a sum is not greater than either of its terms.
proof fn lemma_plus_error_term(a: Double, b: Double)
    requires
        a.is_finite(),
        b.is_finite(),
        a.plus(b).is_finite(),
    ensures
        size(number(a.plus(b)) - (number(a) + number(b))) <= size(number(b)),
{
    reveal(Double::plus_spec);
    let r = a.plus(b);
    lemma_number(a);
    lemma_number(b);
    lemma_number(r);
    lemma_tiny();
    order::lemma_sign(a);
    order::lemma_sign(b);
    let sum = a.value() + b.value();
    let x = if sum < 0 {
        (-sum) as nat
    } else {
        sum as nat
    };
    let m = binary64::nearest(x, 1);
    binary64::lemma_nearest_bound(x, 1);
    order::lemma_signed(sum < 0, m);
    order::lemma_signed(true, 0);
    order::lemma_signed(false, 0);
    let t = tiny();
    let (va, vb, vr, vs) = (
        a.value() as real,
        b.value() as real,
        r.value() as real,
        sum as real,
    );
    assert(va * t + vb * t == vs * t) by (nonlinear_arith)
        requires
            vs == va + vb,
    ;
    if sum == 0 {
        order::lemma_sign(r);
    } else if a.value() == 0 || (sum < 0) != (a.value() < 0) {
        lemma_nearest_closest(x, 0);
        binary64::lemma_scaled_order(0, 0);
        order::lemma_sign(Double::zero());
    } else {
        lemma_nearest_closest(x, a.magnitude());
    }
    assert(size(vr - vs) <= size(vb));
    lemma_scale_error(vr, vs, size(vb), t);
    lemma_scale_size(vb, t);
}

/// The error of a sum of many terms, as far as they are not zero.
pub proof fn lemma_sum_error(start: Double, terms: Seq<Double>)
    requires
        start.is_zero(),
        vector::sum_from(start, terms).is_finite(),
    ensures
        forall|i: int| 0 <= i < terms.len() ==> (#[trigger] terms[i]).is_finite(),
        size(number(vector::sum_from(start, terms)) - sum_of(numbers(terms), terms.len()))
            <= growth(nonzero(terms)) * sum_of(sizes(terms), terms.len()),
        sum_of(sizes(terms), terms.len()) >= 0 as real,
    decreases terms.len(),
{
    let n = terms.len();
    if n == 0 {
        order::lemma_sign(start);
        lemma_number(start);
        assert(0 as real * tiny() == 0 as real) by (nonlinear_arith);
        assert(growth(0) * 0 as real == 0 as real) by (nonlinear_arith);
    } else {
        let (first, x) = (terms.drop_last(), terms.last());
        let s = vector::sum_from(start, first);
        lemma_plus_finite_terms(s, x);
        lemma_sum_error(start, first);
        assert forall|i: int| 0 <= i < n implies (#[trigger] terms[i]).is_finite() by {
            if i < n - 1 {
                assert(first[i] == terms[i]);
            }
        }
        let k = (n - 1) as nat;
        lemma_sum_same(numbers(first), numbers(terms), k);
        lemma_sum_same(sizes(first), sizes(terms), k);
        let (t, a) = (sum_of(numbers(first), k), sum_of(sizes(first), k));
        let (y, z) = (number(x), size(number(x)));
        assert(numbers(terms)(n - 1) == y && sizes(terms)(n - 1) == z);
        lemma_sum_size(numbers(first), sizes(first), k);
        let e = size(number(s) - t);
        let r = s.plus(x);
        if x.is_zero() {
            order::lemma_plus_zero(s, x);
            lemma_number_order(s, r);
            order::lemma_sign(x);
            lemma_number(x);
            assert(0 as real * tiny() == 0 as real) by (nonlinear_arith);
        } else {
            let d = size(number(r) - (number(s) + y));
            lemma_plus_error(s, x);
            lemma_plus_error_term(s, x);
            lemma_eps();
            assert(eps() * size(number(s) + y) <= eps() * (a + z + e)) by (nonlinear_arith)
                requires
                    size(number(s) + y) <= a + z + e,
                    eps() > 0 as real,
            ;
            lemma_growth(nonzero(first));
            lemma_sum_step(e, d, a, z, nonzero(first) as real, growth(nonzero(first)));
        }
    }
}

/// The error grows by at most one relative error with each term. A term that is
/// small against the others adds no more than itself; any other is large against
/// the error so far.
proof fn lemma_sum_step(e: real, d: real, a: real, z: real, c: real, g: real)
    requires
        e <= g * a,
        d <= z,
        d <= eps() * (a + z + e),
        a >= 0 as real,
        z >= 0 as real,
        c >= 0 as real,
        g == c * eps(),
        eps() > 0 as real,
    ensures
        e + d <= (g + eps()) * (a + z),
{
    let u = eps();
    let ua = u * a;
    assert((g + u) * (a + z) == g * a + g * z + ua + u * z) by (nonlinear_arith)
        requires
            ua == u * a,
    ;
    assert(g * z >= 0 as real && u * z >= 0 as real && g >= 0 as real) by (nonlinear_arith)
        requires
            g == c * u,
            c >= 0 as real,
            z >= 0 as real,
            u > 0 as real,
    ;
    if ua < z {
        assert(u * e <= g * z) by (nonlinear_arith)
            requires
                e <= g * a,
                ua == u * a,
                ua < z,
                g == c * u,
                c >= 0 as real,
                u > 0 as real,
        {
            assert(u * e <= u * (g * a));
            assert(u * (g * a) == g * ua);
            assert(g * ua <= g * z);
        }
        assert(u * (a + z + e) == ua + u * z + u * e) by (nonlinear_arith)
            requires
                ua == u * a,
        ;
    }
}

/// What is not great does not overflow.
proof fn lemma_not_great(num: nat, den: nat)
    requires
        den > 0,
        num <= pow2(1202) * den,
    ensures
        binary64::nearest(num, den) < INFINITE,
{
    let b = BINADE as nat;
    lemma2_to64();
    lemma2_to64_rest();
    lemma_pow2_adds(52, 1150);
    binary64::lemma_scaled_parts(1150, b);
    let m = 1150 * b + b;
    binary64::lemma_nearest_exact(m, 1);
    assert(binary64::scaled(m) * 1 == pow2(1202));
    assert(num * 1 <= pow2(1202) * den);
    binary64::lemma_nearest_monotone(num, den, pow2(1202), 1);
}

/// A number up to two to the power 100, in units.
proof fn lemma_great_units(x: real, units: nat)
    requires
        x <= 1_000_000_000_000_000_000_000_000_000_000 as real,
        units as real <= x * binary64::one() as real,
    ensures
        units <= pow2(1202),
{
    lemma2_to64();
    lemma_pow2_adds(64, 64);
    lemma_pow2_adds(128, 1074);
    lemma_pow2_pos(1074);
    let o = binary64::one() as real;
    let p = pow2(128);
    assert((p * binary64::one()) as real == p as real * o) by (nonlinear_arith)
        requires
            o == binary64::one() as real,
    ;
    assert(x * o <= p as real * o) by (nonlinear_arith)
        requires
            x <= p as real,
            o > 0 as real,
    ;
}

/// A sum that is not great is finite.
pub proof fn lemma_plus_finite(a: Double, b: Double)
    requires
        a.is_finite(),
        b.is_finite(),
        size(number(a) + number(b)) <= 1_000_000_000_000_000_000_000_000_000_000 as real,
    ensures
        a.plus(b).is_finite(),
{
    reveal(Double::plus_spec);
    lemma_number(a);
    lemma_number(b);
    let sum = a.value() + b.value();
    let x = if sum < 0 {
        (-sum) as nat
    } else {
        sum as nat
    };
    let o = binary64::one() as real;
    let (p, q) = (number(a), number(b));
    assert((p + q) * o == p * o + q * o) by (nonlinear_arith);
    lemma_pow2_pos(1074);
    lemma_scale_size(p + q, o);
    lemma_great_units(size(p + q), x);
    assert(pow2(1202) * 1 == pow2(1202)) by (nonlinear_arith);
    lemma_not_great(x, 1);
    order::lemma_signed(false, 0);
    order::lemma_signed(true, 0);
    order::lemma_signed(false, binary64::nearest(x, 1));
    order::lemma_signed(true, binary64::nearest(x, 1));
}

/// A product that is not great is finite.
pub proof fn lemma_times_finite(a: Double, b: Double)
    requires
        a.is_finite(),
        b.is_finite(),
        size(number(a) * number(b)) <= 1_000_000_000_000_000_000_000_000_000_000 as real,
    ensures
        a.times(b).is_finite(),
{
    reveal(Double::times_spec);
    lemma_number(a);
    lemma_number(b);
    let one = binary64::one();
    lemma_pow2_pos(1074);
    let (sa, sb) = (binary64::scaled(a.magnitude()), binary64::scaled(b.magnitude()));
    let num = sa * sb;
    let o = one as real;
    let (p, q) = (number(a), number(b));
    lemma_scale_size(p, o);
    lemma_scale_size(q, o);
    let x = size(p * q);
    assert(x == size(p) * size(q)) by {
        lemma_product_size(p, q);
    }
    assert(num as real == sa as real * sb as real) by (nonlinear_arith)
        requires
            num == sa * sb,
    ;
    assert(sa as real == size(p) * o && sb as real == size(q) * o);
    assert(num as real == x * o * o) by (nonlinear_arith)
        requires
            num as real == (size(p) * o) * (size(q) * o),
            x == size(p) * size(q),
    ;
    // In units, the product is at most two to the power 128.
    lemma2_to64();
    lemma_pow2_adds(64, 64);
    lemma_pow2_adds(128, 1074);
    let big = pow2(128);
    assert(x * o * o <= big as real * o * o) by (nonlinear_arith)
        requires
            x <= big as real,
            o > 0 as real,
    ;
    assert((big * one * one) as real == big as real * o * o) by (nonlinear_arith)
        requires
            o == one as real,
    ;
    assert(num <= pow2(1202) * one);
    lemma_not_great(num, one);
    let m = binary64::nearest(num, one);
    order::lemma_signed(a.is_negative() != b.is_negative(), m);
}

/// The absolute value of a product.
pub proof fn lemma_product_size(p: real, q: real)
    ensures
        size(p * q) == size(p) * size(q),
{
    assert((-p) * q == -(p * q)) by (nonlinear_arith);
    assert(p * (-q) == -(p * q)) by (nonlinear_arith);
    assert((-p) * (-q) == p * q) by (nonlinear_arith);
    let (a, b) = (size(p), size(q));
    assert(a * b >= 0 as real) by (nonlinear_arith)
        requires
            a >= 0 as real,
            b >= 0 as real,
    ;
}

/// A sum of terms that are not great together is finite.
pub proof fn lemma_sum_finite(start: Double, terms: Seq<Double>)
    requires
        start.is_zero(),
        forall|i: int| 0 <= i < terms.len() ==> (#[trigger] terms[i]).is_finite(),
        nonzero(terms) <= LENGTH_LIMIT,
        sum_of(sizes(terms), terms.len()) <= 100_000_000_000_000_000_000_000_000_000 as real,
    ensures
        vector::sum_from(start, terms).is_finite(),
    decreases terms.len(),
{
    let n = terms.len();
    if n > 0 {
        let (first, x) = (terms.drop_last(), terms.last());
        let k = (n - 1) as nat;
        assert(terms[n - 1] == x);
        assert forall|i: int| 0 <= i < k implies (#[trigger] first[i]).is_finite() by {
            assert(first[i] == terms[i]);
        }
        lemma_sum_same(sizes(first), sizes(terms), k);
        lemma_sum_bounds(sizes(first), k, 0);
        assert(sizes(terms)(n - 1) == size(number(x)));
        lemma_sum_finite(start, first);
        lemma_sum_error(start, first);
        lemma_sum_size(numbers(first), sizes(first), k);
        lemma_growth(nonzero(first));
        let (a, g) = (sum_of(sizes(first), k), growth(nonzero(first)));
        assert(g * a <= a) by (nonlinear_arith)
            requires
                a >= 0 as real,
                g * 4 as real <= 1 as real,
        ;
        lemma_plus_finite(vector::sum_from(start, first), x);
    }
}

/// A product of numbers with known bounds.
pub proof fn lemma_times_bound(a: Double, b: Double, p: real, q: real)
    requires
        a.is_finite(),
        b.is_finite(),
        size(number(a)) <= p,
        size(number(b)) <= q,
        p * q <= 100_000_000_000_000_000_000 as real,
    ensures
        a.times(b).is_finite(),
        size(number(a.times(b))) <= 2 as real * (p * q) + 1 as real,
{
    let (x, y) = (number(a), number(b));
    let (sx, sy) = (size(x), size(y));
    lemma_product_size(x, y);
    assert(sx * sy <= p * q && 0 as real <= sx * sy) by (nonlinear_arith)
        requires
            0 as real <= sx,
            sx <= p,
            0 as real <= sy,
            sy <= q,
    ;
    lemma_times_finite(a, b);
    lemma_times_error(a, b);
    lemma_eps();
    lemma_tiny();
    let z = sx * sy;
    assert(eps() * z <= z) by (nonlinear_arith)
        requires
            z >= 0 as real,
            eps() > 0 as real,
            eps() * 4_503_599_627_370_496 as real == 1 as real,
    ;
}

/// A difference of numbers with known bounds.
pub proof fn lemma_minus_bound(a: Double, b: Double, p: real, q: real)
    requires
        a.is_finite(),
        b.is_finite(),
        size(number(a)) <= p,
        size(number(b)) <= q,
        p + q <= 100_000_000_000_000_000_000 as real,
    ensures
        a.minus(b).is_finite(),
        size(number(a.minus(b))) <= 2 as real * (p + q),
{
    lemma_number_negated(b);
    lemma_plus_finite(a, b.negated());
    lemma_minus_error(a, b);
    lemma_eps();
    let z = size(number(a) - number(b));
    assert(eps() * z <= z) by (nonlinear_arith)
        requires
            z >= 0 as real,
            eps() > 0 as real,
            eps() * 4_503_599_627_370_496 as real == 1 as real,
    ;
}

/// A sum of terms with a known bound.
pub proof fn lemma_sum_bound(start: Double, terms: Seq<Double>, p: real)
    requires
        start.is_zero(),
        terms.len() <= LENGTH_LIMIT,
        forall|i: int|
            0 <= i < terms.len() ==> (#[trigger] terms[i]).is_finite() && size(number(terms[i])) <= p,
        0 as real <= p,
        p <= 10_000_000_000_000 as real,
    ensures
        vector::sum_from(start, terms).is_finite(),
        size(number(vector::sum_from(start, terms))) <= 2 as real * (terms.len() as real * p),
{
    let n = terms.len();
    let f = sizes(terms);
    let bounds = |i: int| p;
    assert forall|i: int| 0 <= i < n implies #[trigger] f(i) <= bounds(i) by {
        assert(terms[i].is_finite());
    }
    lemma_sum_order(f, bounds, n);
    lemma_sum_equal(bounds, p, n);
    assert(n as real * p <= 1_125_899_906_842_624 as real * p) by (nonlinear_arith)
        requires
            n as real <= 1_125_899_906_842_624 as real,
            p >= 0 as real,
    ;
    lemma_nonzero(terms);
    lemma_sum_finite(start, terms);
    lemma_sum_error(start, terms);
    lemma_sum_size(numbers(terms), f, n);
    lemma_growth(nonzero(terms));
    let (a, g) = (sum_of(f, n), growth(nonzero(terms)));
    assert(g * a <= a) by (nonlinear_arith)
        requires
            a >= 0 as real,
            g * 4 as real <= 1 as real,
    ;
}

/// The square root of a number that is not great is finite and less great.
pub proof fn lemma_sqrt_finite(x: Double)
    requires
        x.is_finite(),
        0 as real <= number(x),
        number(x) <= 1_000_000_000_000_000_000_000_000_000_000 as real,
    ensures
        x.sqrt().is_finite(),
        number(x.sqrt()) <= 18_446_744_073_709_551_616 as real,
{
    reveal(Double::sqrt_spec);
    order::lemma_sign(x);
    lemma_number(x);
    lemma_tiny();
    let v = x.value() as real;
    assert(v >= 0 as real) by (nonlinear_arith)
        requires
            0 as real <= v * tiny(),
            tiny() > 0 as real,
    ;
    if x.is_zero() {
        assert(x.value() as real * tiny() == 0 as real) by (nonlinear_arith)
            requires
                x.value() as real == 0 as real,
        ;
    } else {
        let units = binary64::scaled(x.magnitude());
        let one = binary64::one();
        let o = one as real;
        let square = units * one;
        let m = binary64::nearest_root(square);
        binary64::lemma_nearest_root(square);
        let b = BINADE as nat;
        lemma2_to64();
        lemma2_to64_rest();
        lemma_pow2_pos(1074);
        lemma_pow2_adds(52, 1086);
        lemma_pow2_adds(64, 1074);
        binary64::lemma_scaled_parts(1086, b);
        let top = 1086 * b + b;
        let p = pow2(1138);
        let big = 1_000_000_000_000_000_000_000_000_000_000nat;
        assert(units <= big * one) by {
            let y = number(x);
            assert(y * o <= big as real * o) by (nonlinear_arith)
                requires
                    y <= big as real,
                    o > 0 as real,
            ;
            assert((big * one) as real == big as real * o) by (nonlinear_arith)
                requires
                    o == one as real,
            ;
        }
        if m > top {
            let low = binary64::mid((m - 1) as nat);
            if top < m - 1 {
                binary64::lemma_mid_increases(top, (m - 1) as nat);
            }
            binary64::lemma_scaled_increases(top, top + 1);
            assert(low >= 2 * p);
            assert(low * low >= 4 * (p * p)) by (nonlinear_arith)
                requires
                    low >= 2 * p,
            ;
            assert(square < p * p) by (nonlinear_arith)
                requires
                    square == units * one,
                    units <= big * one,
                    big == 1_000_000_000_000_000_000_000_000_000_000,
                    p == 18_446_744_073_709_551_616 * one,
                    one > 0,
            ;
        }
        order::lemma_signed(false, m);
        lemma_number(x.sqrt());
        binary64::lemma_scaled_increases(m, top);
        let (s, c) = (number(x.sqrt()), 18_446_744_073_709_551_616 as real);
        assert((18_446_744_073_709_551_616 * one) as real == c * o) by (nonlinear_arith)
            requires
                o == one as real,
                c == 18_446_744_073_709_551_616 as real,
        ;
        assert(s <= c) by (nonlinear_arith)
            requires
                s * o <= c * o,
                o > 0 as real,
        ;
    }
}

/// A quotient by a number not below one is finite.
pub proof fn lemma_over_finite(a: Double, b: Double)
    requires
        a.is_finite(),
        b.is_finite(),
        number(b) >= 1 as real,
    ensures
        a.over(b).is_finite(),
{
    lemma_number(b);
    order::lemma_sign(b);
    let one = binary64::one();
    lemma_pow2_pos(1074);
    let (o, y, v) = (one as real, number(b), b.value() as real);
    assert(v >= o) by (nonlinear_arith)
        requires
            v == y * o,
            y >= 1 as real,
            o > 0 as real,
    ;
    let (sa, sb) = (binary64::scaled(a.magnitude()), binary64::scaled(b.magnitude()));
    assert((sa * one) * one <= (sa * one) * sb) by (nonlinear_arith)
        requires
            one <= sb,
    ;
    binary64::lemma_nearest_monotone(sa * one, sb, sa * one, one);
    binary64::lemma_nearest_exact(a.magnitude(), one);
    reveal(Double::over_spec);
    let m = binary64::nearest(sa * one, sb);
    order::lemma_signed(a.is_negative() != b.is_negative(), m);
}

/// The square of a square root is the number, up to two relative errors and units of
/// the format.
pub proof fn lemma_sqrt_error(x: Double)
    requires
        x.is_finite(),
        number(x) >= 0 as real,
        x.sqrt().is_finite(),
    ensures
        number(x.sqrt()) >= 0 as real,
        size(number(x.sqrt()) * number(x.sqrt()) - number(x)) <= 2 as real * (eps() * (number(
            x.sqrt(),
        ) * number(x.sqrt()))) + (number(x.sqrt()) + 1 as real) * tiny(),
{
    reveal(Double::sqrt_spec);
    order::lemma_sign(x);
    lemma_number(x);
    lemma_number(x.sqrt());
    lemma_tiny();
    lemma_eps();
    let t = tiny();
    let v = x.value() as real;
    assert(v >= 0 as real) by (nonlinear_arith)
        requires
            0 as real <= v * t,
            t > 0 as real,
    ;
    if x.is_zero() {
        assert(v * t == 0 as real) by (nonlinear_arith)
            requires
                v == 0 as real,
        ;
        assert(0 as real * 0 as real == 0 as real && eps() * 0 as real == 0 as real && (0 as real
            + 1 as real) * t == t) by (nonlinear_arith);
    } else {
        let units = binary64::scaled(x.magnitude());
        let one = binary64::one();
        let square = units * one;
        let m = binary64::nearest_root(square);
        binary64::lemma_nearest_root(square);
        order::lemma_signed(false, m);
        let s = binary64::scaled(m);
        let u = binary64::exponent(m);
        let p = pow2(u);
        binary64::lemma_parts(m);
        lemma_pow2_pos(u);
        let t0 = binary64::significand(m);
        binary64::lemma_scaled_parts(u, t0 + 1);
        assert(u * (BINADE as nat) + (t0 + 1) == m + 1);
        assert((t0 + 1) * p == s + p) by (nonlinear_arith)
            requires
                s == t0 * p,
        ;
        let high = binary64::mid(m);
        assert(high == 2 * s + p);
        assert(4 * square <= 4 * (s * s) + 4 * (s * p) + p * p) by (nonlinear_arith)
            requires
                4 * square <= high * high,
                high == 2 * s + p,
        ;
        if m > 0 {
            lemma_gap_below(m);
            let low = binary64::mid((m - 1) as nat);
            assert(low + p >= 2 * s);
            if u > 0 {
                assert(BINADE * p <= s) by (nonlinear_arith)
                    requires
                        s == t0 * p,
                        BINADE <= t0,
                        p > 0,
                ;
            }
            lemma2_to64();
            assert(p <= s) by (nonlinear_arith)
                requires
                    s == t0 * p,
                    t0 >= 1,
            ;
            assert(4 * (s * s) <= 4 * square + 4 * (s * p)) by (nonlinear_arith)
                requires
                    low * low <= 4 * square,
                    low + p >= 2 * s,
                    p <= s,
                    low >= 0,
                    p >= 0,
            {
                assert((2 * s - p) * (2 * s - p) <= low * low);
                assert((2 * s - p) * (2 * s - p) == 4 * (s * s) - 4 * (s * p) + p * p);
            }
        }
        if m == 0 {
            assert(s * s == 0 && s * p == 0) by (nonlinear_arith)
                requires
                    s == 0,
            ;
        }
        lemma_sqrt_units(units, s, p, u);
        assert(s as real * t >= 0 as real) by (nonlinear_arith)
            requires
                t > 0 as real,
        ;
    }
}

/// From units to reals, for the error of a square root.
proof fn lemma_sqrt_units(units: nat, s: nat, p: nat, u: nat)
    requires
        p == pow2(u),
        u > 0 ==> BINADE * p <= s,
        4 * (units * binary64::one()) <= 4 * (s * s) + 4 * (s * p) + p * p,
        4 * (s * s) <= 4 * (units * binary64::one()) + 4 * (s * p),
    ensures
        ({
            let (y, x, t) = (s as real * tiny(), units as real * tiny(), tiny());
            size(y * y - x) <= 2 as real * (eps() * (y * y)) + (y + 1 as real) * t
        }),
{
    let one = binary64::one();
    let (o, t, e) = (one as real, tiny(), eps());
    lemma_tiny();
    lemma_eps();
    lemma_pow2_pos(u);
    let (rs, rp, ru) = (s as real, p as real, units as real);
    assert((units * one) as real == ru * o && (s * s) as real == rs * rs && (s * p) as real == rs
        * rp && (p * p) as real == rp * rp) by (nonlinear_arith)
        requires
            o == one as real,
            rs == s as real,
            rp == p as real,
            ru == units as real,
    ;
    let (y, x) = (rs * t, ru * t);
    let tt = t * t;
    // The difference in square units.
    let d = rs * rs - ru * o;
    let bound = rs * rp + rp * rp;
    assert(0 as real <= rp * rp) by (nonlinear_arith);
    assert(size(d) <= bound);
    assert(y * y - x == d * tt) by (nonlinear_arith)
        requires
            y == rs * t,
            x == ru * t,
            tt == t * t,
            d == rs * rs - ru * o,
            t * o == 1 as real,
    {
        assert((ru * o) * tt == ru * t * (t * o));
    }
    assert(tt > 0 as real) by (nonlinear_arith)
        requires
            tt == t * t,
            t > 0 as real,
    ;
    lemma_scale_size(d, tt);
    let sd = size(d);
    assert(sd * tt <= bound * tt) by (nonlinear_arith)
        requires
            sd <= bound,
            tt > 0 as real,
    ;
    let yy = y * y;
    assert(yy == (rs * rs) * tt && 0 as real <= yy) by (nonlinear_arith)
        requires
            yy == y * y,
            y == rs * t,
            tt == t * t,
    ;
    if u > 0 {
        assert((BINADE * p) as real == 4_503_599_627_370_496 as real * rp) by (nonlinear_arith)
            requires
                rp == p as real,
        ;
        assert(bound * tt <= 2 as real * (e * yy)) by (nonlinear_arith)
            requires
                bound == rs * rp + rp * rp,
                4_503_599_627_370_496 as real * rp <= rs,
                rp >= 0 as real,
                e * 4_503_599_627_370_496 as real == 1 as real,
                e > 0 as real,
                yy == (rs * rs) * tt,
                tt > 0 as real,
        {
            assert(rp <= e * rs);
            assert(rp <= rs);
            assert(rs * rp <= rs * (e * rs));
            assert(rp * rp <= rs * rp);
            assert(bound <= 2 as real * (e * (rs * rs)));
            assert(bound * tt <= (2 as real * (e * (rs * rs))) * tt);
        }
        assert((y + 1 as real) * t >= 0 as real) by (nonlinear_arith)
            requires
                y == rs * t,
                rs >= 0 as real,
                t > 0 as real,
        ;
    } else {
        lemma2_to64();
        assert(bound * tt <= (y + 1 as real) * t) by (nonlinear_arith)
            requires
                bound == rs * rp + rp * rp,
                rp == 1 as real,
                y == rs * t,
                tt == t * t,
                t > 0 as real,
                t <= 1 as real,
        ;
        assert(0 as real <= e * yy) by (nonlinear_arith)
            requires
                0 as real <= yy,
                e > 0 as real,
        ;
    }
}

} // verus!
