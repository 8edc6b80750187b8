//! Rounding of a significand with more bits than the format holds.

use vstd::arithmetic::power2::*;
use vstd::prelude::*;

use crate::binary64;
use crate::binary64::{BINADE, INFINITE};

verus! {

/// Whether `m` is the magnitude to which a number is rounded that is known as
/// `sig * 2^e / 2^k` units: exactly so, or, where `sticky` holds, as a number
/// strictly between that one and `(sig + 1) * 2^e / 2^k` units.
pub open spec fn rounded(sig: nat, sticky: bool, e: nat, k: nat, m: nat) -> bool {
    &&& m <= INFINITE
    &&& m > 0 ==> {
        let low = binary64::mid((m - 1) as nat) * pow2(k);
        &&& low <= 2 * sig * pow2(e)
        &&& low == 2 * sig * pow2(e) && !sticky ==> m % 2 == 0
    }
    &&& m < INFINITE ==> {
        let high = binary64::mid(m) * pow2(k);
        if sticky {
            2 * (sig + 1) * pow2(e) <= high
        } else {
            &&& 2 * sig * pow2(e) <= high
            &&& 2 * sig * pow2(e) == high ==> m % 2 == 0
        }
    }
}

/// From the rounded significand to the rounded fraction `num / den`.
pub proof fn lemma_rounded_fraction(
    sig: nat,
    sticky: bool,
    e: nat,
    k: nat,
    m: nat,
    d: nat,
    num: nat,
    den: nat,
)
    requires
        rounded(sig, sticky, e, k, m),
        d > 0,
        den == d * pow2(k),
        !sticky ==> num == sig * pow2(e) * d,
        sticky ==> sig * pow2(e) * d < num < (sig + 1) * pow2(e) * d,
    ensures
        binary64::nearest(num, den) == m,
{
    lemma_pow2_pos(k);
    lemma_pow2_pos(e);
    let pe = pow2(e);
    let pk = pow2(k);
    assert(den > 0) by (nonlinear_arith)
        requires
            den == d * pk,
            d > 0,
            pk > 0,
    ;
    if m > 0 {
        let a = binary64::mid((m - 1) as nat);
        assert(a * den == (a * pk) * d) by (nonlinear_arith)
            requires
                den == d * pk,
        ;
        assert((a * pk) * d <= (2 * sig * pe) * d) by (nonlinear_arith)
            requires
                a * pk <= 2 * sig * pe,
        ;
        assert((2 * sig * pe) * d == 2 * (sig * pe * d)) by (nonlinear_arith);
        if a * den == 2 * num {
            assert(!sticky);
            assert(a * pk == 2 * sig * pe) by (nonlinear_arith)
                requires
                    (a * pk) * d == (2 * sig * pe) * d,
                    d > 0,
            ;
        }
    }
    if m < INFINITE {
        let b = binary64::mid(m);
        assert(b * den == (b * pk) * d) by (nonlinear_arith)
            requires
                den == d * pk,
        ;
        if sticky {
            assert((2 * (sig + 1) * pe) * d <= (b * pk) * d) by (nonlinear_arith)
                requires
                    2 * (sig + 1) * pe <= b * pk,
            ;
            assert((2 * (sig + 1) * pe) * d == 2 * ((sig + 1) * pe * d)) by (nonlinear_arith);
        } else {
            assert((2 * sig * pe) * d <= (b * pk) * d) by (nonlinear_arith)
                requires
                    2 * sig * pe <= b * pk,
            ;
            assert((2 * sig * pe) * d == 2 * (sig * pe * d)) by (nonlinear_arith);
            if 2 * num == b * den {
                assert(2 * sig * pe == b * pk) by (nonlinear_arith)
                    requires
                        (2 * sig * pe) * d == (b * pk) * d,
                        d > 0,
                ;
            }
        }
    }
    assert(binary64::rounds_to(num, den, m));
    binary64::lemma_nearest_is(num, den, m);
}

/// From the rounded significand to the rounded number of units.
pub proof fn lemma_rounded_units(sig: nat, sticky: bool, e: nat, m: nat, num: nat)
    requires
        rounded(sig, sticky, e, 0, m),
        !sticky ==> num == sig * pow2(e),
        sticky ==> sig * pow2(e) < num < sig * pow2(e) + pow2(e),
    ensures
        binary64::nearest(num, 1) == m,
{
    let pe = pow2(e);
    lemma2_to64();
    assert(sig * pe * 1 == sig * pe) by (nonlinear_arith);
    assert((sig + 1) * pe * 1 == sig * pe + pe) by (nonlinear_arith);
    lemma_rounded_fraction(sig, sticky, e, 0, m, 1, num, 1);
}

/// From the rounded integer square root to the rounded square root.
pub proof fn lemma_rounded_root(sig: nat, sticky: bool, e: nat, m: nat, n: nat, square: nat)
    requires
        rounded(sig, sticky, e, 0, m),
        square == n * pow2(e) * pow2(e),
        !sticky ==> n == sig * sig,
        sticky ==> sig * sig < n < (sig + 1) * (sig + 1),
    ensures
        binary64::nearest_root(square) == m,
{
    lemma_pow2_pos(e);
    lemma2_to64();
    let pe = pow2(e);
    assert((2 * sig * pe) * (2 * sig * pe) == 4 * ((sig * sig) * pe * pe)) by (nonlinear_arith);
    assert((sig * sig) * pe * pe <= n * pe * pe) by (nonlinear_arith)
        requires
            sig * sig <= n,
    ;
    if m > 0 {
        let a = binary64::mid((m - 1) as nat);
        assert(a * a <= (2 * sig * pe) * (2 * sig * pe)) by (nonlinear_arith)
            requires
                a <= 2 * sig * pe,
        ;
        if a * a == 4 * square {
            assert(n == sig * sig) by (nonlinear_arith)
                requires
                    n * pe * pe <= (sig * sig) * pe * pe,
                    sig * sig <= n,
                    pe > 0,
            ;
            assert(a == 2 * sig * pe) by (nonlinear_arith)
                requires
                    a <= 2 * sig * pe,
                    a * a == (2 * sig * pe) * (2 * sig * pe),
            ;
        }
    }
    if m < INFINITE {
        let b = binary64::mid(m);
        if sticky {
            let s1 = sig + 1;
            assert((2 * s1 * pe) * (2 * s1 * pe) <= b * b) by (nonlinear_arith)
                requires
                    2 * s1 * pe <= b,
            ;
            assert((2 * s1 * pe) * (2 * s1 * pe) == 4 * ((s1 * s1) * pe * pe))
                by (nonlinear_arith);
            assert((s1 * s1) * pe * pe > n * pe * pe) by (nonlinear_arith)
                requires
                    s1 * s1 > n,
                    pe > 0,
            ;
        } else {
            assert((2 * sig * pe) * (2 * sig * pe) <= b * b) by (nonlinear_arith)
                requires
                    2 * sig * pe <= b,
            ;
            if 4 * square == b * b {
                assert(b == 2 * sig * pe) by (nonlinear_arith)
                    requires
                        2 * sig * pe <= b,
                        b * b == (2 * sig * pe) * (2 * sig * pe),
                ;
            }
        }
    }
    assert(binary64::root_rounds_to(square, m));
    binary64::lemma_nearest_root_is(square, m);
}

/// Dropping the last `d` bits of a significand and rounding on them.
proof fn lemma_drop_bits(
    sig: nat,
    sticky: bool,
    e: nat,
    k: nat,
    u: nat,
    d: nat,
    t: nat,
    rem: nat,
    up: bool,
)
    requires
        u + k == e + d,
        d >= 1,
        sig == t * pow2(d) + rem,
        rem < pow2(d),
        t < 2 * BINADE,
        u == 0 || t >= BINADE,
        u <= 2045,
        up == (2 * rem > pow2(d) || (2 * rem == pow2(d) && (sticky || t % 2 == 1))),
    ensures
        rounded(sig, sticky, e, k, u * (BINADE as nat) + t + if up { 1nat } else { 0 }),
{
    let (pe, pk, pd, pu) = (pow2(e), pow2(k), pow2(d), pow2(u));
    let b = BINADE as nat;
    let base = u * b + t;
    lemma_pow2_adds(u, k);
    lemma_pow2_adds(e, d);
    lemma_pow2_unfold(d);
    lemma_pow2_pos(e);
    lemma_pow2_pos(k);
    let w = pe * pd;
    assert(w == pu * pk);
    binary64::lemma_scaled_parts(u, t);
    binary64::lemma_scaled_parts(u, t + 1);
    assert(u * b + (t + 1) == base + 1);
    assert(sig * pe == t * w + rem * pe) by (nonlinear_arith)
        requires
            sig == t * pd + rem,
            w == pe * pd,
    ;
    assert(2 * sig * pe == 2 * (sig * pe)) by (nonlinear_arith);
    assert(2 * (sig + 1) * pe == 2 * (sig * pe) + 2 * pe) by (nonlinear_arith);
    // The midpoint above the truncated significand.
    let high = binary64::mid(base) * pk;
    assert(high == 2 * (t * w) + w) by (nonlinear_arith)
        requires
            high == (t * pu + (t + 1) * pu) * pk,
            w == pu * pk,
    ;
    assert(base <= INFINITE && base + 1 <= INFINITE) by (nonlinear_arith)
        requires
            base == u * b + t,
            u <= 2045,
            t < 2 * b,
            b == BINADE,
    ;
    assert((u * b) % 2 == 0) by (nonlinear_arith)
        requires
            b == 0x0010_0000_0000_0000,
    ;
    if up {
        let m = base + 1;
        assert(w <= 2 * (rem * pe)) by (nonlinear_arith)
            requires
                w == pe * pd,
                pd <= 2 * rem,
        ;
        if high == 2 * sig * pe && !sticky {
            assert(pd == 2 * rem) by (nonlinear_arith)
                requires
                    pe * pd == 2 * (rem * pe),
                    pe > 0,
            ;
        }
        binary64::lemma_scaled_next(base + 1);
        let over = binary64::mid(base + 1) * pk;
        assert(over > 2 * (t + 1) * w) by (nonlinear_arith)
            requires
                over == binary64::mid(base + 1) * pk,
                binary64::mid(base + 1) > 2 * ((t + 1) * pu),
                w == pu * pk,
                pk > 0,
        ;
        assert(sig + 1 <= (t + 1) * pd) by (nonlinear_arith)
            requires
                sig == t * pd + rem,
                rem < pd,
        ;
        assert(2 * (sig + 1) * pe <= 2 * (t + 1) * w) by (nonlinear_arith)
            requires
                sig + 1 <= (t + 1) * pd,
                w == pe * pd,
        ;
        assert(2 * sig * pe <= 2 * (sig + 1) * pe) by (nonlinear_arith);
        assert(rounded(sig, sticky, e, k, m));
    } else {
        let m = base;
        if m > 0 {
            binary64::lemma_scaled_next((m - 1) as nat);
            let low = binary64::mid((m - 1) as nat) * pk;
            assert(low < 2 * (t * w)) by (nonlinear_arith)
                requires
                    low == binary64::mid((m - 1) as nat) * pk,
                    binary64::mid((m - 1) as nat) < 2 * (t * pu),
                    w == pu * pk,
                    pk > 0,
            ;
            assert(rem * pe >= 0) by (nonlinear_arith);
        }
        if sticky {
            assert(2 * (rem * pe) + 2 * pe <= w) by (nonlinear_arith)
                requires
                    2 * rem + 2 <= pd,
                    w == pe * pd,
            ;
        } else {
            assert(2 * (rem * pe) <= w) by (nonlinear_arith)
                requires
                    2 * rem <= pd,
                    w == pe * pd,
            ;
            if 2 * sig * pe == high {
                assert(pd == 2 * rem) by (nonlinear_arith)
                    requires
                        pe * pd == 2 * (rem * pe),
                        pe > 0,
                ;
            }
        }
        assert(rounded(sig, sticky, e, k, m));
    }
}

/// A significand that the format holds is not changed.
proof fn lemma_keep_bits(sig: nat, e: nat, k: nat, u: nat, t: nat)
    requires
        t * pow2(u) * pow2(k) == sig * pow2(e),
        t < 2 * BINADE,
        u == 0 || t >= BINADE,
        u <= 2045,
    ensures
        rounded(sig, false, e, k, u * (BINADE as nat) + t),
{
    let (pe, pk, pu) = (pow2(e), pow2(k), pow2(u));
    let b = BINADE as nat;
    let m = u * b + t;
    lemma_pow2_pos(k);
    binary64::lemma_scaled_parts(u, t);
    binary64::lemma_scaled_next(m);
    assert(m < INFINITE) by (nonlinear_arith)
        requires
            m == u * b + t,
            u <= 2045,
            t < 2 * b,
            b == BINADE,
    ;
    assert(2 * sig * pe == 2 * (t * pu) * pk) by (nonlinear_arith)
        requires
            t * pu * pk == sig * pe,
    ;
    let high = binary64::mid(m) * pk;
    assert(2 * (t * pu) * pk < high) by (nonlinear_arith)
        requires
            high == binary64::mid(m) * pk,
            binary64::mid(m) > 2 * (t * pu),
            pk > 0,
    ;
    if m > 0 {
        binary64::lemma_scaled_next((m - 1) as nat);
        let low = binary64::mid((m - 1) as nat) * pk;
        assert(low < 2 * (t * pu) * pk) by (nonlinear_arith)
            requires
                low == binary64::mid((m - 1) as nat) * pk,
                binary64::mid((m - 1) as nat) < 2 * (t * pu),
                pk > 0,
        ;
    }
}

/// A number with too great an exponent rounds to infinity.
proof fn lemma_overflow(sig: nat, sticky: bool, e: nat, k: nat, l: nat)
    requires
        l >= 1,
        pow2((l - 1) as nat) <= sig,
        l + e >= k + 53 + 2046,
    ensures
        rounded(sig, sticky, e, k, INFINITE as nat),
{
    let m = INFINITE as nat;
    let pk = pow2(k);
    let top = pow2((l - 1) as nat);
    binary64::lemma_scaled_parts(2046, BINADE as nat);
    binary64::lemma_scaled_next((m - 1) as nat);
    lemma2_to64_rest();
    lemma_pow2_pos(k);
    lemma_pow2_adds(52, 2046);
    assert(binary64::scaled(m) == pow2(2098));
    lemma_pow2_adds(2098, k);
    lemma_pow2_adds((l - 1) as nat, e);
    if 2098 + k < l - 1 + e {
        lemma_pow2_strictly_increases(2098 + k, (l - 1 + e) as nat);
    }
    let low = binary64::mid((m - 1) as nat) * pk;
    assert(low < 2 * (pow2(2098) * pk)) by (nonlinear_arith)
        requires
            low == binary64::mid((m - 1) as nat) * pk,
            binary64::mid((m - 1) as nat) < 2 * pow2(2098),
            pk > 0,
    ;
    assert(2 * sig * pow2(e) >= 2 * (top * pow2(e))) by (nonlinear_arith)
        requires
            sig >= top,
    ;
}

/// `pow2(j)` as a machine integer.
pub fn power(j: u32) -> (p: u128)
    requires
        j < 128,
    ensures
        p == pow2(j as nat),
{
    proof {
        lemma_shift_is_power(j);
    }
    1u128 << j
}

proof fn lemma_shift_is_power(j: u32)
    requires
        j < 128,
    ensures
        (1u128 << j) == pow2(j as nat),
    decreases j,
{
    lemma2_to64();
    if j == 0 {
        assert(1u128 << 0u32 == 1) by (bit_vector);
    } else {
        let i: u32 = (j - 1) as u32;
        lemma_shift_is_power(i);
        lemma_pow2_unfold(j as nat);
        assert((1u128 << j) == 2 * (1u128 << i)) by (bit_vector)
            requires
                j == i + 1,
                j < 128,
        ;
    }
}

/// The number of bits of `x`.
pub fn bit_length(x: u128) -> (l: u32)
    requires
        x > 0,
    ensures
        1 <= l <= 128,
        pow2((l - 1) as nat) <= x < pow2(l as nat),
{
    let mut y: u128 = x;
    let mut l: u32 = 0;
    proof {
        lemma2_to64();
        lemma2_to64_rest();
        lemma_pow2_adds(64, 64);
    }
    while y > 1
        invariant
            1 <= y,
            l < 128,
            pow2(128) == 0x1_0000_0000_0000_0000_0000_0000_0000_0000,
            pow2(l as nat) * y <= x < pow2(l as nat) * (y + 1),
        decreases y,
    {
        let ghost (p, y0) = (pow2(l as nat), y as int);
        proof {
            lemma_pow2_unfold((l + 1) as nat);
            lemma_pow2_pos(l as nat);
        }
        y = y / 2;
        proof {
            assert(2 * p * y <= p * y0) by (nonlinear_arith)
                requires
                    2 * y <= y0,
            ;
            assert(p * (y0 + 1) <= 2 * p * (y + 1)) by (nonlinear_arith)
                requires
                    y0 + 1 <= 2 * (y + 1),
            ;
            assert(2 * p <= 2 * p * y) by (nonlinear_arith)
                requires
                    y >= 1,
                    p >= 0,
            ;
            if l + 1 >= 128 {
                if l + 1 > 128 {
                    lemma_pow2_strictly_increases(128, (l + 1) as nat);
                }
            }
        }
        l = l + 1;
    }
    proof {
        lemma_pow2_unfold((l + 1) as nat);
        let p = pow2(l as nat);
        assert(p * y == p && p * (y + 1) == 2 * p) by (nonlinear_arith)
            requires
                y == 1,
        ;
    }
    l + 1
}

/// Rounds a significand to the format.
///
/// `sh` is the exponent of the significand's last bit, in units. Where `sticky`
/// holds, the number is not `sig` itself but a little more.
pub fn round(sig: u128, sticky: bool, sh: i32, Ghost(e): Ghost<nat>, Ghost(k): Ghost<nat>) -> (m:
    u64)
    requires
        0 < sig < pow2(127),
        sticky ==> sig >= 2 * BINADE,
        sh == e - k,
        -10_000 < sh < 10_000,
    ensures
        rounded(sig as nat, sticky, e, k, m as nat),
{
    let l: i32 = bit_length(sig) as i32;
    let u: i32 = if l + sh > 53 {
        l + sh - 53
    } else {
        0
    };
    if u >= 2046 {
        proof {
            lemma_overflow(sig as nat, sticky, e, k, l as nat);
        }
        return INFINITE;
    }
    let d: i32 = u - sh;
    proof {
        lemma2_to64();
        lemma2_to64_rest();
        if l < 53 {
            lemma_pow2_strictly_increases(l as nat, 53);
        }
    }
    if d <= 0 {
        let p: u128 = power((-d) as u32);
        proof {
            assert(!sticky) by {
                if sticky {
                    assert(l <= 53);
                }
            }
            lemma_left_shift(sig as nat, sh as int, e, k, u as nat, l as nat);
        }
        let t: u64 = (sig * p) as u64;
        proof {
            lemma_keep_bits(sig as nat, e, k, u as nat, t as nat);
        }
        return u as u64 * BINADE + t;
    }
    if d >= 128 {
        proof {
            lemma_pow2_unfold(d as nat);
            if d > 128 {
                lemma_pow2_strictly_increases(127, (d - 1) as nat);
            }
            assert(u == 0) by {
                if u > 0 {
                    assert(l > 128);
                }
            }
            lemma_drop_bits(sig as nat, sticky, e, k, 0, d as nat, 0, sig as nat, false);
        }
        return 0;
    }
    let p: u128 = power(d as u32);
    proof {
        lemma_pow2_pos(d as nat);
    }
    let t: u128 = sig / p;
    let rem: u128 = sig % p;
    let half: u128 = p / 2;
    let up: bool = rem > half || (rem == half && (sticky || t % 2 == 1));
    proof {
        lemma_pow2_unfold(d as nat);
        vstd::arithmetic::div_mod::lemma_fundamental_div_mod(sig as int, p as int);
        vstd::arithmetic::div_mod::lemma_mod_bound(sig as int, p as int);
        assert(sig == t * p + rem) by (nonlinear_arith)
            requires
                sig == p * t + rem,
        ;
        lemma_quotient_bits(sig as nat, l as nat, d as nat, t as nat);
        lemma_drop_bits(
            sig as nat,
            sticky,
            e,
            k,
            u as nat,
            d as nat,
            t as nat,
            rem as nat,
            up,
        );
    }
    let m: u64 = u as u64 * BINADE + t as u64;
    if up {
        m + 1
    } else {
        m
    }
}

/// The bits of the quotient by a power of two.
proof fn lemma_quotient_bits(sig: nat, l: nat, d: nat, t: nat)
    requires
        l >= 1,
        pow2((l - 1) as nat) <= sig < pow2(l),
        t == sig / pow2(d),
        l <= d + 53,
    ensures
        t < 2 * BINADE,
        l == d + 53 ==> t >= BINADE,
{
    lemma2_to64_rest();
    lemma_pow2_pos(d);
    let pd = pow2(d);
    vstd::arithmetic::div_mod::lemma_fundamental_div_mod(sig as int, pd as int);
    vstd::arithmetic::div_mod::lemma_mod_bound(sig as int, pd as int);
    lemma_pow2_adds(53, d);
    if l < d + 53 {
        lemma_pow2_strictly_increases(l, d + 53);
    }
    assert(t < 2 * BINADE) by (nonlinear_arith)
        requires
            pd * t <= sig,
            sig < 0x20_0000_0000_0000 * pd,
            pd > 0,
            BINADE == 0x10_0000_0000_0000,
    ;
    if l == d + 53 {
        lemma_pow2_adds(52, d);
        assert(t >= BINADE) by (nonlinear_arith)
            requires
                sig < pd * t + pd,
                sig >= 0x10_0000_0000_0000 * pd,
                pd > 0,
                BINADE == 0x10_0000_0000_0000,
        ;
    }
}

/// The bits of a significand that is moved to the left.
proof fn lemma_left_shift(sig: nat, sh: int, e: nat, k: nat, u: nat, l: nat)
    requires
        l >= 1,
        pow2((l - 1) as nat) <= sig < pow2(l),
        sh == e - k,
        u == if l + sh > 53 {
            l + sh - 53
        } else {
            0
        },
        u <= sh,
    ensures
        sh - u < 128,
        sig * pow2((sh - u) as nat) < 2 * BINADE,
        u > 0 ==> sig * pow2((sh - u) as nat) >= BINADE,
        (sig * pow2((sh - u) as nat)) * pow2(u) * pow2(k) == sig * pow2(e),
{
    let c = (sh - u) as nat;
    lemma2_to64_rest();
    lemma_pow2_pos(c);
    lemma_pow2_adds(l, c);
    let t = sig * pow2(c);
    assert(t < pow2(l) * pow2(c)) by (nonlinear_arith)
        requires
            t == sig * pow2(c),
            sig < pow2(l),
            pow2(c) > 0,
    ;
    if l + c < 53 {
        lemma_pow2_strictly_increases(l + c, 53);
    }
    if u > 0 {
        assert(l + c == 53);
        lemma_pow2_adds((l - 1) as nat, c);
        assert(t >= pow2((l - 1) as nat) * pow2(c)) by (nonlinear_arith)
            requires
                t == sig * pow2(c),
                sig >= pow2((l - 1) as nat),
        ;
    }
    lemma_pow2_adds(c, u);
    lemma_pow2_adds(c + u, k);
    assert(c + u + k == e);
    assert(t * pow2(u) * pow2(k) == sig * (pow2(c) * pow2(u) * pow2(k))) by (nonlinear_arith)
        requires
            t == sig * pow2(c),
    ;
}

} // verus!
