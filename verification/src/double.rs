//! Binary64 numbers and their arithmetic, rounded to nearest, ties to even.
//!
//! The contracts say what each operation returns in terms of the exact result
//! and its rounding (see [`crate::binary64`]). Operations that have no result
//! return one fixed not-a-number.

use vstd::arithmetic::power2::*;
use vstd::prelude::*;

use crate::binary64;
use crate::binary64::{BINADE, INFINITE, SIGN};
use crate::rounding;

verus! {

/// A binary64 number, by its encoding.
#[derive(Clone, Copy, Debug)]
pub struct Double {
    pub bits: u64,
}

/// The encoding of the not-a-number that operations without a result return.
pub const NAN_BITS: u64 = 0x7FF8_0000_0000_0000;

/// The encoding of one.
pub const ONE_BITS: u64 = 0x3FF0_0000_0000_0000;

/// The encoding of one half.
pub const HALF_BITS: u64 = 0x3FE0_0000_0000_0000;

/// The numbers themselves.
impl Double {
    pub open spec fn is_negative(self) -> bool {
        self.bits >= SIGN
    }

    /// The encoding without its sign.
    pub open spec fn magnitude(self) -> nat {
        if self.bits >= SIGN {
            (self.bits - SIGN) as nat
        } else {
            self.bits as nat
        }
    }

    pub open spec fn is_nan(self) -> bool {
        self.magnitude() > INFINITE
    }

    pub open spec fn is_infinite(self) -> bool {
        self.magnitude() == INFINITE
    }

    pub open spec fn is_finite(self) -> bool {
        self.magnitude() < INFINITE
    }

    pub open spec fn is_zero(self) -> bool {
        self.magnitude() == 0
    }

    /// The number in units; infinity counts as the number after the largest
    /// finite one.
    pub open spec fn value(self) -> int {
        if self.is_negative() {
            -(binary64::scaled(self.magnitude()) as int)
        } else {
            binary64::scaled(self.magnitude()) as int
        }
    }

    /// The number with the given sign and magnitude.
    pub open spec fn signed(negative: bool, m: nat) -> Double {
        Double {
            bits: if negative {
                (SIGN + m) as u64
            } else {
                m as u64
            },
        }
    }

    pub open spec fn nan() -> Double {
        Double { bits: NAN_BITS }
    }

    pub open spec fn zero() -> Double {
        Double { bits: 0 }
    }

    pub open spec fn one() -> Double {
        Double { bits: ONE_BITS }
    }

    pub open spec fn half() -> Double {
        Double { bits: HALF_BITS }
    }
}

/// The significand and the exponent of a finite magnitude.
fn parts(m: u64) -> (r: (u64, u64))
    requires
        m < INFINITE,
    ensures
        r.0 == binary64::significand(m as nat),
        r.1 == binary64::exponent(m as nat),
        r.0 < 2 * BINADE,
        r.1 <= 2045,
        r.1 > 0 ==> r.0 >= BINADE,
        binary64::scaled(m as nat) == r.0 * pow2(r.1 as nat),
        m > 0 ==> r.0 > 0,
{
    proof {
        binary64::lemma_parts(m as nat);
    }
    if m < 2 * BINADE {
        (m, 0)
    } else {
        (BINADE + m % BINADE, m / BINADE - 1)
    }
}

/// The greater of two exponents belongs to the greater magnitude.
proof fn lemma_exponent_order(a: nat, b: nat)
    requires
        b <= a,
    ensures
        binary64::exponent(b) <= binary64::exponent(a),
{
    if b >= 2 * BINADE {
        vstd::arithmetic::div_mod::lemma_div_is_ordered(b as int, a as int, BINADE as int);
    }
}

/// The rounded sum of two magnitudes, the first not the smaller one.
fn add_magnitudes(a: u64, b: u64) -> (m: u64)
    requires
        b <= a < INFINITE,
    ensures
        m == binary64::nearest(binary64::scaled(a as nat) + binary64::scaled(b as nat), 1),
{
    if b == 0 {
        proof {
            binary64::lemma_nearest_exact(a as nat, 1);
        }
        return a;
    }
    let (ta, ua): (u64, u64) = parts(a);
    let (tb, ub): (u64, u64) = parts(b);
    let ghost num = binary64::scaled(a as nat) + binary64::scaled(b as nat);
    proof {
        lemma_exponent_order(a as nat, b as nat);
        lemma2_to64();
        lemma2_to64_rest();
        lemma_pow2_adds(64, 63);
    }
    if ua - ub <= 64 {
        let p: u128 = rounding::power((ua - ub) as u32);
        proof {
            lemma_align(ta as nat, ua as nat, ub as nat);
        }
        let sig: u128 = ta as u128 * p + tb as u128;
        let m: u64 = rounding::round(sig, false, ub as i32, Ghost(ub as nat), Ghost(0nat));
        proof {
            assert(sig * pow2(ub as nat) == num) by (nonlinear_arith)
                requires
                    sig == ta * p + tb,
                    num == ta * p * pow2(ub as nat) + tb * pow2(ub as nat),
            ;
            rounding::lemma_rounded_units(sig as nat, false, ub as nat, m as nat, num);
        }
        m
    } else {
        let sig: u128 = ta as u128 * 4096;
        let m: u64 = rounding::round(
            sig,
            true,
            ua as i32 - 12,
            Ghost((ua - 12) as nat),
            Ghost(0nat),
        );
        proof {
            let e = (ua - 12) as nat;
            lemma_far(ta as nat, ua as nat, tb as nat, ub as nat);
            rounding::lemma_rounded_units(sig as nat, true, e, m as nat, num);
        }
        m
    }
}

/// The rounded difference of two magnitudes, the first the greater one.
fn subtract_magnitudes(a: u64, b: u64) -> (m: u64)
    requires
        b < a < INFINITE,
    ensures
        m == binary64::nearest(
            (binary64::scaled(a as nat) - binary64::scaled(b as nat)) as nat,
            1,
        ),
{
    if b == 0 {
        proof {
            binary64::lemma_nearest_exact(a as nat, 1);
        }
        return a;
    }
    let (ta, ua): (u64, u64) = parts(a);
    let (tb, ub): (u64, u64) = parts(b);
    let ghost num = (binary64::scaled(a as nat) - binary64::scaled(b as nat)) as nat;
    proof {
        lemma_exponent_order(a as nat, b as nat);
        binary64::lemma_scaled_increases(b as nat, a as nat);
        lemma2_to64();
        lemma2_to64_rest();
        lemma_pow2_adds(64, 63);
    }
    if ua - ub <= 64 {
        let p: u128 = rounding::power((ua - ub) as u32);
        proof {
            lemma_align(ta as nat, ua as nat, ub as nat);
            lemma_pow2_pos(ub as nat);
            assert(ta * p > tb) by (nonlinear_arith)
                requires
                    ta * p * pow2(ub as nat) > tb * pow2(ub as nat),
                    pow2(ub as nat) > 0,
            ;
        }
        let sig: u128 = ta as u128 * p - tb as u128;
        let m: u64 = rounding::round(sig, false, ub as i32, Ghost(ub as nat), Ghost(0nat));
        proof {
            assert(sig * pow2(ub as nat) == num) by (nonlinear_arith)
                requires
                    sig == ta * p - tb,
                    num == ta * p * pow2(ub as nat) - tb * pow2(ub as nat),
            ;
            rounding::lemma_rounded_units(sig as nat, false, ub as nat, m as nat, num);
        }
        m
    } else {
        let sig: u128 = ta as u128 * 4096 - 1;
        let m: u64 = rounding::round(
            sig,
            true,
            ua as i32 - 12,
            Ghost((ua - 12) as nat),
            Ghost(0nat),
        );
        proof {
            let e = (ua - 12) as nat;
            lemma_far(ta as nat, ua as nat, tb as nat, ub as nat);
            assert(sig * pow2(e) == (ta * 4096) * pow2(e) - pow2(e)) by (nonlinear_arith)
                requires
                    sig == ta * 4096 - 1,
            ;
            rounding::lemma_rounded_units(sig as nat, true, e, m as nat, num);
        }
        m
    }
}

/// A significand, moved to a smaller exponent.
proof fn lemma_align(ta: nat, ua: nat, ub: nat)
    requires
        ub <= ua <= ub + 64,
        ta < 2 * BINADE,
    ensures
        ta * pow2((ua - ub) as nat) * pow2(ub) == ta * pow2(ua),
        ta * pow2((ua - ub) as nat) < 2 * BINADE * 0x1_0000_0000_0000_0000,
{
    let c = (ua - ub) as nat;
    lemma2_to64();
    if c < 64 {
        lemma_pow2_strictly_increases(c, 64);
    }
    lemma_pow2_adds(c, ub);
    lemma_pow2_pos(c);
    assert(ta * pow2(c) * pow2(ub) == ta * (pow2(c) * pow2(ub))) by (nonlinear_arith);
    assert(ta * pow2(c) < 2 * BINADE * 0x1_0000_0000_0000_0000) by (nonlinear_arith)
        requires
            ta < 2 * BINADE,
            pow2(c) <= 0x1_0000_0000_0000_0000,
            pow2(c) > 0,
    ;
}

/// A number whose exponent is far below stays under the last bit kept.
proof fn lemma_far(ta: nat, ua: nat, tb: nat, ub: nat)
    requires
        ub + 65 <= ua,
        0 < tb < 2 * BINADE,
    ensures
        (ta * 4096) * pow2((ua - 12) as nat) == ta * pow2(ua),
        0 < tb * pow2(ub) < pow2((ua - 12) as nat),
{
    let e = (ua - 12) as nat;
    lemma2_to64();
    lemma2_to64_rest();
    lemma_pow2_adds(12, e);
    assert((ta * 4096) * pow2(e) == ta * (4096 * pow2(e))) by (nonlinear_arith);
    lemma_pow2_adds(53, ub);
    lemma_pow2_pos(ub);
    if ub + 53 < e {
        lemma_pow2_strictly_increases(ub + 53, e);
    }
    assert(0 < tb * pow2(ub) < 2 * BINADE * pow2(ub)) by (nonlinear_arith)
        requires
            0 < tb < 2 * BINADE,
            pow2(ub) > 0,
    ;
}

/// The rounded product of two magnitudes.
fn multiply_magnitudes(a: u64, b: u64) -> (m: u64)
    requires
        a < INFINITE,
        b < INFINITE,
    ensures
        m == binary64::nearest(
            binary64::scaled(a as nat) * binary64::scaled(b as nat),
            binary64::one(),
        ),
{
    proof {
        lemma_pow2_pos(1074);
        lemma2_to64();
        lemma2_to64_rest();
        lemma_pow2_adds(64, 63);
    }
    let (ta, ua): (u64, u64) = parts(a);
    let (tb, ub): (u64, u64) = parts(b);
    let ghost num = binary64::scaled(a as nat) * binary64::scaled(b as nat);
    if a == 0 || b == 0 {
        proof {
            binary64::lemma_nearest_exact(0, binary64::one());
            assert(num == 0) by (nonlinear_arith)
                requires
                    num == binary64::scaled(a as nat) * binary64::scaled(b as nat),
                    binary64::scaled(a as nat) == 0 || binary64::scaled(b as nat) == 0,
            ;
            assert(0 * binary64::one() == 0) by (nonlinear_arith);
        }
        return 0;
    }
    proof {
        assert(0 < ta * tb < 2 * BINADE * (2 * BINADE)) by (nonlinear_arith)
            requires
                0 < ta < 2 * BINADE,
                0 < tb < 2 * BINADE,
        ;
    }
    let sig: u128 = ta as u128 * tb as u128;
    let ghost e = (ua + ub) as nat;
    let m: u64 = rounding::round(
        sig,
        false,
        ua as i32 + ub as i32 - 1074,
        Ghost(e),
        Ghost(1074nat),
    );
    proof {
        lemma_pow2_adds(ua as nat, ub as nat);
        let (pa, pb) = (pow2(ua as nat), pow2(ub as nat));
        assert((ta * pa) * (tb * pb) == (ta * tb) * (pa * pb)) by (nonlinear_arith);
        rounding::lemma_rounded_fraction(
            sig as nat,
            false,
            e,
            1074,
            m as nat,
            1,
            num,
            binary64::one(),
        );
    }
    m
}

/// `t` moved to the left until it has 126 bits, and by how much.
fn normalize(t: u64) -> (r: (u128, u32))
    requires
        0 < t < 2 * BINADE,
    ensures
        73 <= r.1 <= 125,
        r.0 == t * pow2(r.1 as nat),
        pow2(125) <= r.0 < pow2(126),
{
    let l: u32 = rounding::bit_length(t as u128);
    proof {
        lemma2_to64_rest();
        if l > 53 {
            if l > 54 {
                lemma_pow2_strictly_increases(53, (l - 1) as nat);
            }
        }
        let s = (126 - l) as nat;
        lemma_pow2_adds(l as nat, s);
        lemma_pow2_adds((l - 1) as nat, s);
        lemma_pow2_pos(s);
        lemma_pow2_adds(63, 63);
        assert(t * pow2(s) < pow2(l as nat) * pow2(s)) by (nonlinear_arith)
            requires
                t < pow2(l as nat),
                pow2(s) > 0,
        ;
        assert(t * pow2(s) >= pow2((l - 1) as nat) * pow2(s)) by (nonlinear_arith)
            requires
                t >= pow2((l - 1) as nat),
        ;
    }
    let p: u128 = rounding::power(126 - l);
    (t as u128 * p, 126 - l)
}

/// The rounded quotient of two magnitudes.
fn divide_magnitudes(a: u64, b: u64) -> (m: u64)
    requires
        a < INFINITE,
        0 < b < INFINITE,
    ensures
        m == binary64::nearest(
            binary64::scaled(a as nat) * binary64::one(),
            binary64::scaled(b as nat),
        ),
{
    let (ta, ua): (u64, u64) = parts(a);
    let (tb, ub): (u64, u64) = parts(b);
    let ghost num = binary64::scaled(a as nat) * binary64::one();
    let ghost den = binary64::scaled(b as nat);
    proof {
        binary64::lemma_scaled_increases(0, b as nat);
    }
    if a == 0 {
        proof {
            binary64::lemma_nearest_exact(0, den);
            assert(0 * den == 0) by (nonlinear_arith);
            assert(num == 0) by (nonlinear_arith)
                requires
                    num == 0 * binary64::one(),
            ;
        }
        return 0;
    }
    let (n, s): (u128, u32) = normalize(ta);
    let q: u128 = n / tb as u128;
    let r: u128 = n % tb as u128;
    let ghost e = (ua + 1074) as nat;
    let ghost k = (ub + s) as nat;
    proof {
        vstd::arithmetic::div_mod::lemma_fundamental_div_mod(n as int, tb as int);
        vstd::arithmetic::div_mod::lemma_mod_bound(n as int, tb as int);
        lemma2_to64();
        lemma2_to64_rest();
        lemma_pow2_adds(53, 72);
        lemma_pow2_adds(8, 64);
        lemma_pow2_strictly_increases(126, 127);
        assert(q >= pow2(72)) by (nonlinear_arith)
            requires
                n == tb * q + r,
                r < tb,
                n >= 0x20_0000_0000_0000 * pow2(72),
                0 < tb < 0x20_0000_0000_0000,
        ;
        assert(q <= n) by (nonlinear_arith)
            requires
                n == tb * q + r,
                tb >= 1,
                r >= 0,
                q >= 0,
        ;
    }
    let m: u64 = rounding::round(
        q,
        r != 0,
        ua as i32 + 1074 - ub as i32 - s as i32,
        Ghost(e),
        Ghost(k),
    );
    proof {
        let c = pow2(s as nat);
        lemma_pow2_pos(s as nat);
        lemma_pow2_pos(e);
        lemma_pow2_adds(ua as nat, 1074);
        lemma_pow2_adds(ub as nat, s as nat);
        let pe = pow2(e);
        assert(num * c == n * pe) by (nonlinear_arith)
            requires
                num == ta * pow2(ua as nat) * binary64::one(),
                pe == pow2(ua as nat) * binary64::one(),
                n == ta * c,
        ;
        assert(den * c == tb * pow2(k)) by (nonlinear_arith)
            requires
                den == tb * pow2(ub as nat),
                pow2(k) == pow2(ub as nat) * c,
        ;
        assert(n * pe == q * pe * tb + r * pe) by (nonlinear_arith)
            requires
                n == tb * q + r,
        ;
        assert((q + 1) * pe * tb == q * pe * tb + tb * pe) by (nonlinear_arith);
        assert(r * pe < tb * pe) by (nonlinear_arith)
            requires
                r < tb,
                pe > 0,
        ;
        assert(r == 0 ==> r * pe == 0) by (nonlinear_arith);
        assert(r > 0 ==> r * pe > 0) by (nonlinear_arith)
            requires
                pe > 0,
        ;
        rounding::lemma_rounded_fraction(
            q as nat,
            r != 0,
            e,
            k,
            m as nat,
            tb as nat,
            num * c,
            den * c,
        );
        binary64::lemma_nearest_scale(num, den, c);
    }
    m
}

/// The integer square root.
fn integer_root(n: u128) -> (q: u128)
    requires
        n < pow2(126),
    ensures
        q < pow2(63),
        q * q <= n < (q + 1) * (q + 1),
{
    let mut q: u128 = 0;
    let mut i: u32 = 63;
    proof {
        lemma2_to64();
        lemma2_to64_rest();
        lemma_pow2_adds(63, 63);
    }
    while i > 0
        invariant
            i <= 63,
            n < pow2(126),
            pow2(63) == 0x8000_0000_0000_0000,
            q + pow2(i as nat) <= pow2(63),
            q * q <= n,
            n < (q + pow2(i as nat)) * (q + pow2(i as nat)),
        decreases i,
    {
        i = i - 1;
        let p: u128 = rounding::power(i);
        proof {
            lemma_pow2_unfold((i + 1) as nat);
            lemma_pow2_pos(i as nat);
            assert((q + p) * (q + p) <= 0x8000_0000_0000_0000 * 0x8000_0000_0000_0000)
                by (nonlinear_arith)
                requires
                    0 <= q + p <= 0x8000_0000_0000_0000,
            ;
        }
        let c: u128 = q + p;
        if c * c <= n {
            q = c;
        }
    }
    proof {
        lemma2_to64();
        assert(q + pow2(0) == q + 1);
    }
    q
}

/// The rounded square root of a magnitude.
fn root_magnitude(a: u64) -> (m: u64)
    requires
        0 < a < INFINITE,
    ensures
        m == binary64::nearest_root(binary64::scaled(a as nat) * binary64::one()),
{
    let (ta, ua): (u64, u64) = parts(a);
    let (full, all): (u128, u32) = normalize(ta);
    let odd: bool = (ua + all as u64) % 2 == 1;
    let n: u128 = if odd {
        full / 2
    } else {
        full
    };
    let s: u32 = if odd {
        all - 1
    } else {
        all
    };
    proof {
        lemma_pow2_unfold(all as nat);
        if odd {
            assert(full == 2 * (ta * pow2((all - 1) as nat))) by (nonlinear_arith)
                requires
                    full == ta * pow2(all as nat),
                    pow2(all as nat) == 2 * pow2((all - 1) as nat),
            ;
        }
        assert(n == ta * pow2(s as nat));
        lemma_pow2_unfold(125);
        lemma_pow2_unfold(126);
    }
    let q: u128 = integer_root(n);
    proof {
        lemma2_to64_rest();
        assert(q * q < 0x8000_0000_0000_0000 * 0x8000_0000_0000_0000) by (nonlinear_arith)
            requires
                0 <= q < 0x8000_0000_0000_0000,
        ;
    }
    let sticky: bool = q * q != n;
    let ghost e = ((ua + 1074 - s) / 2) as nat;
    proof {
        lemma2_to64();
        lemma2_to64_rest();
        lemma_pow2_adds(62, 62);
        lemma_pow2_strictly_increases(63, 127);
        assert(q + 1 > pow2(62)) by (nonlinear_arith)
            requires
                (q + 1) * (q + 1) > n,
                n >= pow2(62) * pow2(62),
                q >= 0,
        ;
    }
    let m: u64 = rounding::round(
        q,
        sticky,
        (ua as i32 + 1074 - s as i32) / 2,
        Ghost(e),
        Ghost(0nat),
    );
    proof {
        let square = binary64::scaled(a as nat) * binary64::one();
        assert(e + e + s == ua + 1074);
        lemma_pow2_adds(e, e);
        lemma_pow2_adds(e + e, s as nat);
        lemma_pow2_adds(ua as nat, 1074);
        let pe = pow2(e);
        assert(square == n * pe * pe) by (nonlinear_arith)
            requires
                square == ta * pow2(ua as nat) * binary64::one(),
                pow2(ua as nat) * binary64::one() == pe * pe * pow2(s as nat),
                n == ta * pow2(s as nat),
        ;
        rounding::lemma_rounded_root(q as nat, sticky, e, m as nat, n as nat, square);
    }
    m
}

/// The rounded magnitude of a natural number.
fn natural_magnitude(n: u64) -> (m: u64)
    ensures
        m == binary64::nearest(n as nat * binary64::one(), 1),
{
    if n == 0 {
        proof {
            binary64::lemma_nearest_exact(0, 1);
            assert(0 * binary64::one() == 0) by (nonlinear_arith);
        }
        return 0;
    }
    proof {
        lemma2_to64();
        lemma_pow2_strictly_increases(64, 127);
    }
    let m: u64 = rounding::round(n as u128, false, 1074, Ghost(1074nat), Ghost(0nat));
    proof {
        rounding::lemma_rounded_units(
            n as nat,
            false,
            1074,
            m as nat,
            n as nat * binary64::one(),
        );
    }
    m
}

/// The operations, each beside what it returns.
impl Double {
    /// The number with the other sign.
    pub open spec fn negated_spec(self) -> Double {
        Double::signed(!self.is_negative(), self.magnitude())
    }

    /// The number without its sign.
    pub open spec fn abs_spec(self) -> Double {
        Double::signed(false, self.magnitude())
    }

    /// Whether this number is less than the other. No not-a-number is.
    pub open spec fn less_spec(self, other: Double) -> bool {
        !self.is_nan() && !other.is_nan() && self.value() < other.value()
    }

    /// Whether this number is at most the other. No not-a-number is.
    pub open spec fn at_most_spec(self, other: Double) -> bool {
        !self.is_nan() && !other.is_nan() && self.value() <= other.value()
    }

    /// Whether the two numbers are equal; zero equals negative zero, and no
    /// not-a-number equals anything.
    pub open spec fn equals_spec(self, other: Double) -> bool {
        !self.is_nan() && !other.is_nan() && self.value() == other.value()
    }

    /// The rounded sum. A sum of zero is negative zero only if both terms are.
    #[verifier::opaque]
    pub open spec fn plus_spec(self, other: Double) -> Double {
        let sum = self.value() + other.value();
        if self.is_nan() || other.is_nan() {
            Double::nan()
        } else if self.is_infinite() {
            if other.is_infinite() && self.is_negative() != other.is_negative() {
                Double::nan()
            } else {
                self
            }
        } else if other.is_infinite() {
            other
        } else if sum == 0 {
            Double::signed(self.is_negative() && other.is_negative(), 0)
        } else if sum < 0 {
            Double::signed(true, binary64::nearest((-sum) as nat, 1))
        } else {
            Double::signed(false, binary64::nearest(sum as nat, 1))
        }
    }

    /// The rounded difference.
    pub open spec fn minus_spec(self, other: Double) -> Double {
        self.plus_spec(other.negated_spec())
    }

    /// The rounded product.
    #[verifier::opaque]
    pub open spec fn times_spec(self, other: Double) -> Double {
        let negative = self.is_negative() != other.is_negative();
        if self.is_nan() || other.is_nan() {
            Double::nan()
        } else if self.is_infinite() || other.is_infinite() {
            if self.is_zero() || other.is_zero() {
                Double::nan()
            } else {
                Double::signed(negative, INFINITE as nat)
            }
        } else {
            Double::signed(
                negative,
                binary64::nearest(
                    binary64::scaled(self.magnitude()) * binary64::scaled(other.magnitude()),
                    binary64::one(),
                ),
            )
        }
    }

    /// The rounded quotient.
    #[verifier::opaque]
    pub open spec fn over_spec(self, other: Double) -> Double {
        let negative = self.is_negative() != other.is_negative();
        if self.is_nan() || other.is_nan() {
            Double::nan()
        } else if self.is_infinite() {
            if other.is_infinite() {
                Double::nan()
            } else {
                Double::signed(negative, INFINITE as nat)
            }
        } else if other.is_infinite() {
            Double::signed(negative, 0)
        } else if other.is_zero() {
            if self.is_zero() {
                Double::nan()
            } else {
                Double::signed(negative, INFINITE as nat)
            }
        } else {
            Double::signed(
                negative,
                binary64::nearest(
                    binary64::scaled(self.magnitude()) * binary64::one(),
                    binary64::scaled(other.magnitude()),
                ),
            )
        }
    }

    /// The rounded square root.
    #[verifier::opaque]
    pub open spec fn sqrt_spec(self) -> Double {
        if self.is_nan() {
            Double::nan()
        } else if self.is_zero() {
            self
        } else if self.is_negative() {
            Double::nan()
        } else if self.is_infinite() {
            self
        } else {
            Double::signed(
                false,
                binary64::nearest_root(binary64::scaled(self.magnitude()) * binary64::one()),
            )
        }
    }

    /// The natural number `n`, rounded.
    #[verifier::opaque]
    pub open spec fn natural(n: nat) -> Double {
        Double::signed(false, binary64::nearest(n * binary64::one(), 1))
    }

    /// The least whole number that is not less.
    #[verifier::opaque]
    pub open spec fn ceil_spec(self) -> Double {
        let whole = binary64::scaled(self.magnitude()) / binary64::one();
        if !self.is_finite() {
            self
        } else if self.is_negative() {
            Double::natural(whole).negated_spec()
        } else if binary64::scaled(self.magnitude()) % binary64::one() == 0 {
            Double::natural(whole)
        } else {
            Double::natural(whole + 1)
        }
    }

    /// The number with the given encoding.
    pub fn from_bits(bits: u64) -> (r: Double)
        ensures
            r.bits == bits,
    {
        Double { bits }
    }

    /// The encoding of the number.
    pub fn to_bits(self) -> (bits: u64)
        ensures
            bits == self.bits,
    {
        self.bits
    }

    /// The natural number `n`, rounded.
    pub fn from_natural(n: u64) -> (r: Double)
        ensures
            r == Double::natural(n as nat),
    {
        reveal(Double::natural);
        Double { bits: natural_magnitude(n) }
    }

    fn sign(self) -> (negative: bool)
        ensures
            negative == self.is_negative(),
    {
        self.bits >= SIGN
    }

    fn unsigned(self) -> (m: u64)
        ensures
            m == self.magnitude(),
            m < SIGN,
    {
        if self.bits >= SIGN {
            self.bits - SIGN
        } else {
            self.bits
        }
    }

    /// The number with the given sign and magnitude.
    fn compose(negative: bool, m: u64) -> (r: Double)
        requires
            m < SIGN,
        ensures
            r == Double::signed(negative, m as nat),
    {
        if negative {
            Double { bits: SIGN + m }
        } else {
            Double { bits: m }
        }
    }

    /// The position of the number in the order of all numbers.
    fn rank(self) -> (r: i64)
        ensures
            r == if self.is_negative() {
                -(self.magnitude() as int)
            } else {
                self.magnitude() as int
            },
    {
        let m: i64 = self.unsigned() as i64;
        if self.sign() {
            -m
        } else {
            m
        }
    }

    /// The number with the other sign.
    #[verifier::when_used_as_spec(negated_spec)]
    pub fn negated(self) -> (r: Double)
        ensures
            r == self.negated_spec(),
    {
        Double::compose(!self.sign(), self.unsigned())
    }

    /// The number without its sign.
    #[verifier::when_used_as_spec(abs_spec)]
    pub fn abs(self) -> (r: Double)
        ensures
            r == self.abs_spec(),
    {
        Double::compose(false, self.unsigned())
    }

    /// Whether this number is less than the other.
    #[verifier::when_used_as_spec(less_spec)]
    pub fn less(self, other: Double) -> (r: bool)
        ensures
            r == self.less_spec(other),
    {
        proof {
            lemma_rank_order(self, other);
            lemma_rank_order(other, self);
        }
        self.unsigned() <= INFINITE && other.unsigned() <= INFINITE && self.rank() < other.rank()
    }

    /// Whether this number is at most the other.
    #[verifier::when_used_as_spec(at_most_spec)]
    pub fn at_most(self, other: Double) -> (r: bool)
        ensures
            r == self.at_most_spec(other),
    {
        proof {
            lemma_rank_order(self, other);
            lemma_rank_order(other, self);
        }
        self.unsigned() <= INFINITE && other.unsigned() <= INFINITE && self.rank() <= other.rank()
    }

    /// Whether the two numbers are equal.
    #[verifier::when_used_as_spec(equals_spec)]
    pub fn equals(self, other: Double) -> (r: bool)
        ensures
            r == self.equals_spec(other),
    {
        proof {
            lemma_rank_order(self, other);
            lemma_rank_order(other, self);
        }
        self.unsigned() <= INFINITE && other.unsigned() <= INFINITE && self.rank() == other.rank()
    }

    /// The rounded sum.
    #[verifier::when_used_as_spec(plus_spec)]
    pub fn plus(self, other: Double) -> (r: Double)
        ensures
            r == self.plus_spec(other),
    {
        reveal(Double::plus_spec);
        let (a, b): (u64, u64) = (self.unsigned(), other.unsigned());
        let (sa, sb): (bool, bool) = (self.sign(), other.sign());
        if a > INFINITE || b > INFINITE {
            return Double { bits: NAN_BITS };
        }
        if a == INFINITE {
            if b == INFINITE && sa != sb {
                return Double { bits: NAN_BITS };
            }
            return self;
        }
        if b == INFINITE {
            return other;
        }
        proof {
            binary64::lemma_scaled_order(a as nat, b as nat);
        }
        if sa == sb {
            let m: u64 = if b <= a {
                add_magnitudes(a, b)
            } else {
                add_magnitudes(b, a)
            };
            proof {
                binary64::lemma_nearest_bound((self.value() + other.value()) as nat, 1);
                binary64::lemma_nearest_bound((-(self.value() + other.value())) as nat, 1);
                binary64::lemma_nearest_exact(0, 1);
            }
            return Double::compose(sa, m);
        }
        if a == b {
            return Double { bits: 0 };
        }
        if b < a {
            let m: u64 = subtract_magnitudes(a, b);
            proof {
                binary64::lemma_nearest_bound(
                    (binary64::scaled(a as nat) - binary64::scaled(b as nat)) as nat,
                    1,
                );
            }
            Double::compose(sa, m)
        } else {
            let m: u64 = subtract_magnitudes(b, a);
            proof {
                binary64::lemma_nearest_bound(
                    (binary64::scaled(b as nat) - binary64::scaled(a as nat)) as nat,
                    1,
                );
            }
            Double::compose(sb, m)
        }
    }

    /// The rounded difference.
    #[verifier::when_used_as_spec(minus_spec)]
    pub fn minus(self, other: Double) -> (r: Double)
        ensures
            r == self.minus_spec(other),
    {
        self.plus(other.negated())
    }

    /// The rounded product.
    #[verifier::when_used_as_spec(times_spec)]
    pub fn times(self, other: Double) -> (r: Double)
        ensures
            r == self.times_spec(other),
    {
        reveal(Double::times_spec);
        let (a, b): (u64, u64) = (self.unsigned(), other.unsigned());
        let negative: bool = self.sign() != other.sign();
        if a > INFINITE || b > INFINITE {
            return Double { bits: NAN_BITS };
        }
        if a == INFINITE || b == INFINITE {
            if a == 0 || b == 0 {
                return Double { bits: NAN_BITS };
            }
            return Double::compose(negative, INFINITE);
        }
        let m: u64 = multiply_magnitudes(a, b);
        proof {
            binary64::lemma_nearest_bound(
                binary64::scaled(a as nat) * binary64::scaled(b as nat),
                binary64::one(),
            );
        }
        Double::compose(negative, m)
    }

    /// The rounded quotient.
    #[verifier::when_used_as_spec(over_spec)]
    pub fn over(self, other: Double) -> (r: Double)
        ensures
            r == self.over_spec(other),
    {
        reveal(Double::over_spec);
        let (a, b): (u64, u64) = (self.unsigned(), other.unsigned());
        let negative: bool = self.sign() != other.sign();
        if a > INFINITE || b > INFINITE {
            return Double { bits: NAN_BITS };
        }
        if a == INFINITE {
            if b == INFINITE {
                return Double { bits: NAN_BITS };
            }
            return Double::compose(negative, INFINITE);
        }
        if b == INFINITE {
            return Double::compose(negative, 0);
        }
        if b == 0 {
            if a == 0 {
                return Double { bits: NAN_BITS };
            }
            return Double::compose(negative, INFINITE);
        }
        let m: u64 = divide_magnitudes(a, b);
        proof {
            binary64::lemma_nearest_bound(
                binary64::scaled(a as nat) * binary64::one(),
                binary64::scaled(b as nat),
            );
        }
        Double::compose(negative, m)
    }

    /// The rounded square root.
    #[verifier::when_used_as_spec(sqrt_spec)]
    pub fn sqrt(self) -> (r: Double)
        ensures
            r == self.sqrt_spec(),
    {
        reveal(Double::sqrt_spec);
        let a: u64 = self.unsigned();
        if a > INFINITE {
            return Double { bits: NAN_BITS };
        }
        if a == 0 {
            return self;
        }
        if self.sign() {
            return Double { bits: NAN_BITS };
        }
        if a == INFINITE {
            return self;
        }
        Double { bits: root_magnitude(a) }
    }

    /// The least whole number that is not less.
    #[verifier::when_used_as_spec(ceil_spec)]
    pub fn ceil(self) -> (r: Double)
        ensures
            r == self.ceil_spec(),
    {
        reveal(Double::ceil_spec);
        let a: u64 = self.unsigned();
        if a >= INFINITE {
            return self;
        }
        let (t, u): (u64, u64) = parts(a);
        let ghost s = binary64::scaled(a as nat);
        proof {
            lemma_pow2_pos(1074);
        }
        if u >= 1074 {
            proof {
                reveal(Double::natural);
                lemma_whole(t as nat, u as nat);
                vstd::arithmetic::div_mod::lemma_fundamental_div_mod(
                    s as int,
                    binary64::one() as int,
                );
                assert(s / binary64::one() * binary64::one() == s) by (nonlinear_arith)
                    requires
                        s == binary64::one() * (s / binary64::one()) + 0,
                ;
                binary64::lemma_nearest_exact(a as nat, 1);
            }
            return self;
        }
        let (whole, exact): (u64, bool) = if 1074 - u >= 64 {
            proof {
                lemma_fraction_small(t as nat, u as nat);
            }
            (0, t == 0)
        } else {
            let p: u64 = rounding::power((1074 - u) as u32) as u64;
            proof {
                lemma2_to64();
                lemma_pow2_strictly_increases((1074 - u) as nat, 64);
                lemma_pow2_pos((1074 - u) as nat);
                lemma_fraction(t as nat, u as nat);
            }
            (t / p, t % p == 0)
        };
        if self.sign() {
            Double::from_natural(whole).negated()
        } else if exact {
            Double::from_natural(whole)
        } else {
            Double::from_natural(whole + 1)
        }
    }
}

/// A number with a great exponent is whole.
proof fn lemma_whole(t: nat, u: nat)
    requires
        u >= 1074,
    ensures
        (t * pow2(u)) % binary64::one() == 0,
{
    let c = (u - 1074) as nat;
    lemma_pow2_adds(c, 1074);
    lemma_pow2_pos(1074);
    assert(t * pow2(u) == (t * pow2(c)) * binary64::one()) by (nonlinear_arith)
        requires
            pow2(u) == pow2(c) * binary64::one(),
    ;
    vstd::arithmetic::div_mod::lemma_mod_multiples_basic(
        (t * pow2(c)) as int,
        binary64::one() as int,
    );
}

/// The whole part and the fraction of a number, by its significand.
proof fn lemma_fraction(t: nat, u: nat)
    requires
        u < 1074,
    ensures
        pow2((1074 - u) as nat) > 0,
        (t * pow2(u)) / binary64::one() == t / pow2((1074 - u) as nat),
        (t * pow2(u)) % binary64::one() == 0 <==> t % pow2((1074 - u) as nat) == 0,
{
    let c = (1074 - u) as nat;
    let (pc, pu, one) = (pow2(c), pow2(u), binary64::one());
    lemma_pow2_pos(c);
    lemma_pow2_pos(u);
    lemma_pow2_pos(1074);
    lemma_pow2_adds(c, u);
    let (q, r) = (t / pc, t % pc);
    vstd::arithmetic::div_mod::lemma_fundamental_div_mod(t as int, pc as int);
    vstd::arithmetic::div_mod::lemma_mod_bound(t as int, pc as int);
    assert(t * pu == q * one + r * pu) by (nonlinear_arith)
        requires
            t == pc * q + r,
            one == pc * pu,
    ;
    assert(r * pu < one) by (nonlinear_arith)
        requires
            r < pc,
            pu > 0,
            one == pc * pu,
    ;
    assert(r * pu == 0 <==> r == 0) by (nonlinear_arith)
        requires
            pu > 0,
    ;
    vstd::arithmetic::div_mod::lemma_fundamental_div_mod_converse(
        (t * pu) as int,
        one as int,
        q as int,
        (r * pu) as int,
    );
}

/// A number with a small exponent has no whole part.
proof fn lemma_fraction_small(t: nat, u: nat)
    requires
        u + 64 <= 1074,
        t < 2 * BINADE,
    ensures
        (t * pow2(u)) / binary64::one() == 0,
        (t * pow2(u)) % binary64::one() == 0 <==> t == 0,
{
    let c = (1074 - u) as nat;
    lemma_fraction(t, u);
    lemma2_to64();
    if c > 64 {
        lemma_pow2_strictly_increases(64, c);
    }
    vstd::arithmetic::div_mod::lemma_small_mod(t, pow2(c));
    vstd::arithmetic::div_mod::lemma_basic_div(t as int, pow2(c) as int);
}

/// One is as many units as its name says.
pub proof fn lemma_one()
    ensures
        Double::one().value() == binary64::one(),
        Double::one().is_finite(),
        !Double::one().is_negative(),
{
    binary64::lemma_scaled_parts(1022, BINADE as nat);
    lemma2_to64_rest();
    lemma_pow2_adds(52, 1022);
}

/// The number of bits of a positive number.
pub proof fn lemma_bits(c: nat) -> (l: nat)
    requires
        c > 0,
    ensures
        l >= 1,
        pow2((l - 1) as nat) <= c < pow2(l),
    decreases c,
{
    lemma2_to64();
    if c == 1 {
        1
    } else {
        let l = lemma_bits(c / 2);
        lemma_pow2_unfold(l);
        lemma_pow2_unfold(l + 1);
        l + 1
    }
}

/// A natural number up to two to the power 53 is kept exactly.
pub proof fn lemma_natural_exact(c: nat)
    requires
        c <= 2 * BINADE,
    ensures
        Double::natural(c).value() == c * binary64::one(),
        Double::natural(c).is_finite(),
        !Double::natural(c).is_negative(),
{
    reveal(Double::natural);
    if c == 0 {
        binary64::lemma_nearest_exact(0, 1);
        assert(c * binary64::one() == 0) by (nonlinear_arith)
            requires
                c == 0,
        ;
    } else {
        let l = lemma_bits(c);
        lemma2_to64();
        lemma2_to64_rest();
        if l > 54 {
            lemma_pow2_strictly_increases(53, (l - 1) as nat);
        }
        let (t, u) = if l == 54 {
            (BINADE as nat, 1075nat)
        } else {
            ((c * pow2((53 - l) as nat)) as nat, (1021 + l) as nat)
        };
        if l == 54 {
            lemma_pow2_adds(1, 1074);
            assert(t * pow2(u) == c * binary64::one()) by (nonlinear_arith)
                requires
                    c == 2 * t,
                    pow2(u) == 2 * binary64::one(),
            ;
        } else {
            let s = (53 - l) as nat;
            lemma_pow2_adds(s, u);
            assert(t * pow2(u) == c * binary64::one()) by (nonlinear_arith)
                requires
                    t == c * pow2(s),
                    binary64::one() == pow2(s) * pow2(u),
            ;
            lemma_pow2_adds(l, s);
            lemma_pow2_adds((l - 1) as nat, s);
            lemma_pow2_pos(s);
            assert(t < pow2(l) * pow2(s)) by (nonlinear_arith)
                requires
                    t == c * pow2(s),
                    c < pow2(l),
                    pow2(s) > 0,
            ;
            assert(t >= pow2((l - 1) as nat) * pow2(s)) by (nonlinear_arith)
                requires
                    t == c * pow2(s),
                    c >= pow2((l - 1) as nat),
            ;
        }
        let m = u * (BINADE as nat) + t;
        binary64::lemma_scaled_parts(u, t);
        assert(m < INFINITE);
        binary64::lemma_nearest_exact(m, 1);
        assert(binary64::scaled(m) * 1 == c * binary64::one());
    }
}

/// Below two to the power 53, adding one to a natural number gives the next.
pub proof fn lemma_natural_next(c: nat)
    requires
        c < 2 * BINADE,
    ensures
        Double::natural(c).plus(Double::one()) == Double::natural(c + 1),
{
    lemma_natural_exact(c);
    lemma_one();
    lemma_pow2_pos(1074);
    reveal(Double::plus_spec);
    reveal(Double::natural);
    assert(c * binary64::one() + binary64::one() == (c + 1) * binary64::one())
        by (nonlinear_arith);
}

/// At two to the power 53, adding one changes nothing.
pub proof fn lemma_natural_stuck()
    ensures
        Double::natural(2 * BINADE as nat).plus(Double::one()) == Double::natural(
            2 * BINADE as nat,
        ),
{
    let c = 2 * BINADE as nat;
    let a = Double::natural(c);
    lemma_natural_exact(c);
    lemma_one();
    lemma_pow2_pos(1074);
    reveal(Double::plus_spec);
    let one = binary64::one();
    let num = c * one + one;
    // The number is the midpoint between two neighbours, and the lower is even.
    let m = 1075 * (BINADE as nat) + BINADE as nat;
    binary64::lemma_scaled_parts(1075, BINADE as nat);
    binary64::lemma_scaled_parts(1075, (BINADE + 1) as nat);
    lemma_pow2_adds(1, 1074);
    lemma2_to64();
    assert(binary64::scaled(m) == c * one) by (nonlinear_arith)
        requires
            binary64::scaled(m) == BINADE * (2 * one),
            c == 2 * BINADE,
    ;
    assert(binary64::scaled(m + 1) == c * one + 2 * one) by (nonlinear_arith)
        requires
            binary64::scaled(m + 1) == (BINADE + 1) * (2 * one),
            c == 2 * BINADE,
    ;
    binary64::lemma_scaled_next((m - 1) as nat);
    assert(binary64::rounds_to(num, 1, m));
    binary64::lemma_nearest_is(num, 1, m);
    binary64::lemma_scaled_order(a.magnitude(), m);
}

/// The signed magnitudes are in the order of the numbers.
proof fn lemma_rank_order(a: Double, b: Double)
    ensures
        a.value() < b.value() <==> {
            let ra = if a.is_negative() {
                -(a.magnitude() as int)
            } else {
                a.magnitude() as int
            };
            let rb = if b.is_negative() {
                -(b.magnitude() as int)
            } else {
                b.magnitude() as int
            };
            ra < rb
        },
{
    binary64::lemma_scaled_order(a.magnitude(), b.magnitude());
    binary64::lemma_scaled_order(0, a.magnitude());
    binary64::lemma_scaled_order(0, b.magnitude());
}

} // verus!
