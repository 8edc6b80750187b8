//! The binary64 number format: which real number an encoding stands for, and
//! which encoding a real number rounds to.
//!
//! The encodings of the non-negative numbers, read as integers, are called
//! magnitudes here. They run from `0` (zero) through the finite numbers to
//! `INFINITE`, in the order of the numbers that they stand for. Every finite
//! number of the format is a multiple of two to the power -1074, so a number is
//! measured in that unit, and then it is a natural number.

use vstd::arithmetic::power2::*;
use vstd::prelude::*;

verus! {

/// Two to the power 52: the number of encodings with one exponent.
pub const BINADE: u64 = 0x0010_0000_0000_0000;

/// The magnitude of infinity.
pub const INFINITE: u64 = 0x7FF0_0000_0000_0000;

/// The bit that marks a negative number.
pub const SIGN: u64 = 0x8000_0000_0000_0000;

/// The exponent of the unit: one is `pow2(UNIT)` units.
pub const UNIT: u64 = 1074;

/// One, in units.
pub open spec fn one() -> nat {
    pow2(UNIT as nat)
}

/// The number that the magnitude `m` stands for, in units.
///
/// Infinity counts as the number that would follow the largest finite one.
pub open spec fn scaled(m: nat) -> nat {
    if m < 2 * BINADE as nat {
        m
    } else {
        (BINADE as nat + m % (BINADE as nat)) * pow2((m / (BINADE as nat) - 1) as nat)
    }
}

/// Twice the midpoint between the numbers of the magnitudes `m` and `m + 1`.
pub open spec fn mid(m: nat) -> nat {
    scaled(m) + scaled(m + 1)
}

/// Whether the number `num / den` units rounds to the magnitude `m`: it lies
/// between the midpoints to either side of `m`, and on a midpoint only if `m`
/// is even.
pub open spec fn rounds_to(num: nat, den: nat, m: nat) -> bool {
    &&& m <= INFINITE
    &&& m > 0 ==> {
        &&& mid((m - 1) as nat) * den <= 2 * num
        &&& mid((m - 1) as nat) * den == 2 * num ==> m % 2 == 0
    }
    &&& m < INFINITE ==> {
        &&& 2 * num <= mid(m) * den
        &&& 2 * num == mid(m) * den ==> m % 2 == 0
    }
}

/// The magnitude that the number `num / den` units rounds to.
#[verifier::opaque]
pub open spec fn nearest(num: nat, den: nat) -> nat {
    choose|m: nat| rounds_to(num, den, m)
}

/// Whether the square root of the number `square` square units rounds to the
/// magnitude `m`.
pub open spec fn root_rounds_to(square: nat, m: nat) -> bool {
    &&& m <= INFINITE
    &&& m > 0 ==> {
        let low = mid((m - 1) as nat);
        &&& low * low <= 4 * square
        &&& low * low == 4 * square ==> m % 2 == 0
    }
    &&& m < INFINITE ==> {
        let high = mid(m);
        &&& 4 * square <= high * high
        &&& 4 * square == high * high ==> m % 2 == 0
    }
}

/// The magnitude that the square root of `square` square units rounds to.
#[verifier::opaque]
pub open spec fn nearest_root(square: nat) -> nat {
    choose|m: nat| root_rounds_to(square, m)
}

/// A significand `t` with the exponent `u` is encoded as `u * BINADE + t`.
pub proof fn lemma_scaled_parts(u: nat, t: nat)
    requires
        t <= 2 * BINADE,
        u == 0 || t >= BINADE,
    ensures
        scaled(u * (BINADE as nat) + t) == t * pow2(u),
{
    let b = BINADE as nat;
    let m = u * b + t;
    lemma2_to64();
    if u == 0 {
        if t == 2 * b {
            assert(m / b == 2 && m % b == 0);
        }
    } else if t < 2 * b {
        assert(m == (u + 1) * b + (t - b)) by (nonlinear_arith)
            requires
                m == u * b + t,
        ;
        vstd::arithmetic::div_mod::lemma_fundamental_div_mod_converse(
            m as int,
            b as int,
            (u + 1) as int,
            (t - b) as int,
        );
        assert(m >= 2 * b) by (nonlinear_arith)
            requires
                m == (u + 1) * b + (t - b),
                u >= 1,
                t >= b,
        ;
    } else {
        assert(m == (u + 2) * b) by (nonlinear_arith)
            requires
                m == u * b + t,
                t == 2 * b,
        ;
        vstd::arithmetic::div_mod::lemma_fundamental_div_mod_converse(
            m as int,
            b as int,
            (u + 2) as int,
            0,
        );
        assert(m >= 2 * b) by (nonlinear_arith)
            requires
                m == (u + 2) * b,
        ;
        lemma_pow2_unfold(u + 1);
        assert(b * pow2(u + 1) == t * pow2(u)) by (nonlinear_arith)
            requires
                t == 2 * b,
                pow2(u + 1) == 2 * pow2(u),
        ;
    }
}

/// The exponent of the magnitude `m`.
pub open spec fn exponent(m: nat) -> nat {
    if m < 2 * BINADE as nat {
        0
    } else {
        (m / (BINADE as nat) - 1) as nat
    }
}

/// The significand of the magnitude `m`.
pub open spec fn significand(m: nat) -> nat {
    if m < 2 * BINADE as nat {
        m
    } else {
        BINADE as nat + m % (BINADE as nat)
    }
}

/// A magnitude is made of its exponent and its significand.
pub proof fn lemma_parts(m: nat)
    ensures
        m == exponent(m) * (BINADE as nat) + significand(m),
        significand(m) < 2 * BINADE,
        exponent(m) == 0 || significand(m) >= BINADE,
        scaled(m) == significand(m) * pow2(exponent(m)),
        m < INFINITE ==> exponent(m) <= 2045,
{
    let b = BINADE as nat;
    lemma2_to64();
    if m >= 2 * b {
        vstd::arithmetic::div_mod::lemma_fundamental_div_mod(m as int, b as int);
        let q = m / b;
        assert(q >= 2);
        assert(m == (q - 1) * b + (b + m % b)) by (nonlinear_arith)
            requires
                m == b * q + m % b,
        ;
    }
}

/// Magnitudes are in the order of their numbers.
pub proof fn lemma_scaled_next(m: nat)
    ensures
        scaled(m) < scaled(m + 1),
{
    lemma_parts(m);
    let u = exponent(m);
    let t = significand(m);
    lemma_scaled_parts(u, t + 1);
    lemma_pow2_pos(u);
    assert(u * (BINADE as nat) + (t + 1) == m + 1);
    assert((t + 1) * pow2(u) > t * pow2(u)) by (nonlinear_arith)
        requires
            pow2(u) > 0,
    ;
}

/// Magnitudes are in the order of their numbers.
pub proof fn lemma_scaled_increases(a: nat, b: nat)
    requires
        a <= b,
    ensures
        scaled(a) <= scaled(b),
        a < b ==> scaled(a) < scaled(b),
    decreases b,
{
    if a < b {
        lemma_scaled_increases(a, (b - 1) as nat);
        lemma_scaled_next((b - 1) as nat);
    }
}

/// Magnitudes are in the order of their numbers.
pub proof fn lemma_scaled_order(a: nat, b: nat)
    ensures
        scaled(a) < scaled(b) <==> a < b,
        scaled(a) == scaled(b) <==> a == b,
{
    if a <= b {
        lemma_scaled_increases(a, b);
    } else {
        lemma_scaled_increases(b, a);
    }
}

/// Midpoints are in the order of their magnitudes.
pub proof fn lemma_mid_increases(a: nat, b: nat)
    requires
        a <= b,
    ensures
        mid(a) <= mid(b),
        a < b ==> mid(a) < mid(b),
{
    lemma_scaled_increases(a, b);
    lemma_scaled_increases(a + 1, b + 1);
}

/// Rounding keeps order: a number that is not greater does not round to a
/// greater magnitude.
pub proof fn lemma_rounding_monotone(
    num1: nat,
    den1: nat,
    m1: nat,
    num2: nat,
    den2: nat,
    m2: nat,
)
    requires
        den1 > 0,
        den2 > 0,
        num1 * den2 <= num2 * den1,
        rounds_to(num1, den1, m1),
        rounds_to(num2, den2, m2),
    ensures
        m1 <= m2,
{
    if m1 > m2 {
        let a = mid((m1 - 1) as nat);
        let b = mid(m2);
        lemma_mid_increases(m2, (m1 - 1) as nat);
        assert(a * den1 <= 2 * num1);
        assert(2 * num2 <= b * den2);
        assert(a * den1 * den2 <= 2 * num1 * den2) by (nonlinear_arith)
            requires
                a * den1 <= 2 * num1,
                den2 > 0,
        ;
        assert(2 * num2 * den1 <= b * den2 * den1) by (nonlinear_arith)
            requires
                2 * num2 <= b * den2,
                den1 > 0,
        ;
        assert(2 * num1 * den2 <= 2 * num2 * den1) by (nonlinear_arith)
            requires
                num1 * den2 <= num2 * den1,
        ;
        assert(a <= b) by (nonlinear_arith)
            requires
                a * den1 * den2 <= b * den2 * den1,
                den1 > 0,
                den2 > 0,
        ;
        assert(m2 == m1 - 1);
        assert(a * den1 == 2 * num1) by (nonlinear_arith)
            requires
                a * den1 <= 2 * num1,
                2 * num1 * den2 <= a * den2 * den1,
                den2 > 0,
        ;
        assert(2 * num2 == b * den2) by (nonlinear_arith)
            requires
                2 * num2 <= b * den2,
                b * den1 * den2 <= 2 * num2 * den1,
                den1 > 0,
        ;
    }
}

/// A number rounds to one magnitude only, and that is `nearest`.
pub proof fn lemma_nearest_is(num: nat, den: nat, m: nat)
    requires
        den > 0,
        rounds_to(num, den, m),
    ensures
        nearest(num, den) == m,
{
    reveal(nearest);
    let n = nearest(num, den);
    lemma_rounding_monotone(num, den, m, num, den, n);
    lemma_rounding_monotone(num, den, n, num, den, m);
}

/// From a magnitude `m` that is not too great, the search upwards finds the
/// magnitude that the number rounds to.
proof fn lemma_rounding_from(num: nat, den: nat, m: nat)
    requires
        m <= INFINITE,
        m > 0 ==> {
            &&& mid((m - 1) as nat) * den <= 2 * num
            &&& mid((m - 1) as nat) * den == 2 * num ==> m % 2 == 0
        },
    ensures
        exists|n: nat| rounds_to(num, den, n),
    decreases INFINITE - m,
{
    if m == INFINITE || 2 * num < mid(m) * den || (2 * num == mid(m) * den && m % 2 == 0) {
        assert(rounds_to(num, den, m));
    } else {
        lemma_rounding_from(num, den, m + 1);
    }
}

/// Every number rounds to `nearest`.
pub proof fn lemma_nearest(num: nat, den: nat)
    ensures
        rounds_to(num, den, nearest(num, den)),
{
    reveal(nearest);
    lemma_rounding_from(num, den, 0);
}

/// Nothing rounds to more than infinity.
pub proof fn lemma_nearest_bound(num: nat, den: nat)
    ensures
        nearest(num, den) <= INFINITE,
{
    lemma_nearest(num, den);
}

/// A greater number does not round to a smaller magnitude.
pub proof fn lemma_nearest_monotone(num1: nat, den1: nat, num2: nat, den2: nat)
    requires
        den1 > 0,
        den2 > 0,
        num1 * den2 <= num2 * den1,
    ensures
        nearest(num1, den1) <= nearest(num2, den2),
{
    lemma_nearest(num1, den1);
    lemma_nearest(num2, den2);
    lemma_rounding_monotone(
        num1,
        den1,
        nearest(num1, den1),
        num2,
        den2,
        nearest(num2, den2),
    );
}

/// What a number rounds to depends on the number alone, however the fraction is
/// written.
pub proof fn lemma_nearest_scale(num: nat, den: nat, c: nat)
    requires
        den > 0,
        c > 0,
    ensures
        nearest(num * c, den * c) == nearest(num, den),
{
    assert(den * c > 0) by (nonlinear_arith)
        requires
            den > 0,
            c > 0,
    ;
    assert((num * c) * den == num * (den * c)) by (nonlinear_arith);
    lemma_nearest_monotone(num, den, num * c, den * c);
    lemma_nearest_monotone(num * c, den * c, num, den);
}

/// A number of the format rounds to its own magnitude.
pub proof fn lemma_nearest_exact(m: nat, den: nat)
    requires
        m <= INFINITE,
        den > 0,
    ensures
        nearest(scaled(m) * den, den) == m,
{
    let num = scaled(m) * den;
    if m > 0 {
        lemma_scaled_next((m - 1) as nat);
        let a = mid((m - 1) as nat);
        assert(a * den < 2 * num) by (nonlinear_arith)
            requires
                a < 2 * scaled(m),
                num == scaled(m) * den,
                den > 0,
        ;
    }
    lemma_scaled_next(m);
    let b = mid(m);
    assert(2 * num < b * den) by (nonlinear_arith)
        requires
            b > 2 * scaled(m),
            num == scaled(m) * den,
            den > 0,
    ;
    assert(rounds_to(num, den, m));
    lemma_nearest_is(num, den, m);
}

/// A square root rounds to one magnitude only, and that is `nearest_root`.
pub proof fn lemma_nearest_root_is(square: nat, m: nat)
    requires
        root_rounds_to(square, m),
    ensures
        nearest_root(square) == m,
{
    reveal(nearest_root);
    let n = nearest_root(square);
    if m < n {
        lemma_root_order(square, m, n);
    } else if n < m {
        lemma_root_order(square, n, m);
    }
}

/// From a magnitude `m` that is not too great, the search upwards finds the
/// magnitude that the square root rounds to.
proof fn lemma_root_from(square: nat, m: nat)
    requires
        m <= INFINITE,
        m > 0 ==> {
            let low = mid((m - 1) as nat);
            &&& low * low <= 4 * square
            &&& low * low == 4 * square ==> m % 2 == 0
        },
    ensures
        exists|n: nat| root_rounds_to(square, n),
    decreases INFINITE - m,
{
    let high = mid(m);
    if m == INFINITE || 4 * square < high * high || (4 * square == high * high && m % 2 == 0) {
        assert(root_rounds_to(square, m));
    } else {
        lemma_root_from(square, m + 1);
    }
}

/// Every square root rounds to `nearest_root`.
pub proof fn lemma_nearest_root(square: nat)
    ensures
        root_rounds_to(square, nearest_root(square)),
{
    reveal(nearest_root);
    lemma_root_from(square, 0);
}

/// A greater magnitude is not one that the same square root rounds to.
proof fn lemma_root_order(square: nat, m: nat, n: nat)
    requires
        root_rounds_to(square, m),
        m < n,
    ensures
        !root_rounds_to(square, n),
{
    if root_rounds_to(square, n) {
        let low = mid((n - 1) as nat);
        let high = mid(m);
        lemma_mid_increases(m, (n - 1) as nat);
        assert(low <= high) by (nonlinear_arith)
            requires
                low * low <= high * high,
                low >= 0,
                high >= 0,
        ;
        assert(m == n - 1);
    }
}

} // verus!
