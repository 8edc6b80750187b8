//! Divisors of integers.

use vstd::prelude::*;

verus! {

/// Whether `d` divides `n`. Zero divides zero alone.
pub open spec fn divides(d: nat, n: int) -> bool {
    if d == 0 {
        n == 0
    } else {
        n % (d as int) == 0
    }
}

/// Whether `g` is the greatest common divisor of `a` and `b`: it divides both,
/// and whatever divides both divides it.
pub open spec fn is_gcd(g: nat, a: int, b: int) -> bool {
    &&& divides(g, a)
    &&& divides(g, b)
    &&& forall|d: nat| #[trigger] divides(d, a) && divides(d, b) ==> divides(d, g as int)
}

/// A multiple is divided.
pub proof fn lemma_multiple(d: nat, q: int)
    ensures
        divides(d, d * q),
{
    if d == 0 {
        assert(d * q == 0) by (nonlinear_arith)
            requires
                d == 0,
        ;
    } else {
        vstd::arithmetic::div_mod::lemma_mod_multiples_basic(q, d as int);
        assert(d * q == q * d) by (nonlinear_arith);
    }
}

/// What is divided is a multiple.
pub proof fn lemma_quotient(d: nat, n: int) -> (q: int)
    requires
        divides(d, n),
    ensures
        n == d * q,
{
    if d == 0 {
        assert(d * 0 == 0);
        0
    } else {
        vstd::arithmetic::div_mod::lemma_fundamental_div_mod(n, d as int);
        n / (d as int)
    }
}

/// A divisor of two numbers divides the sum of their multiples.
pub proof fn lemma_combination(d: nat, a: int, b: int, x: int, y: int)
    requires
        divides(d, a),
        divides(d, b),
    ensures
        divides(d, a * x + b * y),
{
    let p = lemma_quotient(d, a);
    let q = lemma_quotient(d, b);
    lemma_multiple(d, p * x + q * y);
    assert(d * (p * x + q * y) == a * x + b * y) by (nonlinear_arith)
        requires
            a == d * p,
            b == d * q,
    ;
}

/// A divisor of two numbers divides their sum and their difference.
pub proof fn lemma_sum(d: nat, a: int, b: int)
    requires
        divides(d, a),
        divides(d, b),
    ensures
        divides(d, a + b),
        divides(d, a - b),
{
    lemma_combination(d, a, b, 1, 1);
    lemma_combination(d, a, b, 1, -1);
}

/// What divides a divisor divides what that one divides.
pub proof fn lemma_transitive(d: nat, g: nat, n: int)
    requires
        divides(d, g as int),
        divides(g, n),
    ensures
        divides(d, n),
{
    let q = lemma_quotient(g, n);
    lemma_combination(d, g as int, 0, q, 0);
    assert(g * q + 0 * 0 == n);
}

/// One divides everything.
pub proof fn lemma_one_divides()
    ensures
        forall|n: int| #[trigger] divides(1, n),
{
    assert forall|n: int| #[trigger] divides(1, n) by {
        lemma_multiple(1, n);
    }
}

/// Numbers that divide each other are equal.
pub proof fn lemma_mutual(g: nat, h: nat)
    requires
        divides(g, h as int),
        divides(h, g as int),
    ensures
        g == h,
{
    let p = lemma_quotient(g, h as int);
    let q = lemma_quotient(h, g as int);
    if g < h {
        assert(q <= 0) by (nonlinear_arith)
            requires
                g == h * q,
                g < h,
        ;
        assert(g <= 0) by (nonlinear_arith)
            requires
                g == h * q,
                q <= 0,
                h >= 0,
        ;
    } else if h < g {
        assert(p <= 0) by (nonlinear_arith)
            requires
                h == g * p,
                h < g,
        ;
        assert(h <= 0) by (nonlinear_arith)
            requires
                h == g * p,
                p <= 0,
                g >= 0,
        ;
    }
}

/// The absolute value.
fn absolute(a: i32) -> (r: i32)
    requires
        a != i32::MIN,
    ensures
        r == if a < 0 {
            -a
        } else {
            a as int
        },
{
    if a < 0 {
        -a
    } else {
        a
    }
}

/// The greatest common divisor of `a` and `b`; zero if both are zero.
pub fn gcd(a: i32, b: i32) -> (g: i32)
    requires
        a != i32::MIN,
        b != i32::MIN,
    ensures
        g >= 0,
        is_gcd(g as nat, a as int, b as int),
{
    let mut x: i32 = absolute(a);
    let mut y: i32 = absolute(b);
    proof {
        assert forall|d: nat| true implies (#[trigger] divides(d, a as int) <==> divides(
            d,
            x as int,
        )) && (divides(d, b as int) <==> divides(d, y as int)) by {
            lemma_negated(d, a as int);
            lemma_negated(d, b as int);
        }
    }
    while y != 0
        invariant
            x >= 0,
            y >= 0,
            forall|d: nat| #[trigger]
                divides(d, a as int) && divides(d, b as int) <==> divides(d, x as int) && divides(
                    d,
                    y as int,
                ),
        decreases y,
    {
        let t: i32 = y;
        let ghost (x0, y0) = (x as int, y as int);
        y = x % y;
        x = t;
        proof {
            assert forall|d: nat| true implies (divides(d, x0) && #[trigger] divides(d, y0)
                <==> divides(d, x as int) && divides(d, y as int)) by {
                lemma_euclid_step(d, x0, y0);
            }
            assert forall|d: nat| true implies (#[trigger] divides(d, a as int) && divides(
                d,
                b as int,
            ) <==> divides(d, x as int) && divides(d, y as int)) by {
                assert(divides(d, y0) <==> divides(d, y0));
            }
        }
    }
    proof {
        lemma_multiple(x as nat, 1);
        lemma_multiple(x as nat, 0);
        assert(divides(x as nat, x as int));
        assert(divides(x as nat, 0));
        assert(divides(x as nat, a as int));
        assert forall|d: nat| #[trigger]
            divides(d, a as int) && divides(d, b as int) implies divides(d, x as int) by {}
    }
    x
}

/// The sign does not matter to a divisor.
proof fn lemma_negated(d: nat, n: int)
    ensures
        divides(d, n) <==> divides(d, -n),
{
    if divides(d, n) {
        lemma_combination(d, n, 0, -1, 0);
    }
    if divides(d, -n) {
        lemma_combination(d, -n, 0, -1, 0);
    }
}

/// A step of the Euclidean algorithm keeps the common divisors.
proof fn lemma_euclid_step(d: nat, x: int, y: int)
    requires
        x >= 0,
        y > 0,
    ensures
        divides(d, x) && divides(d, y) <==> divides(d, y) && divides(d, x % y),
{
    let q = x / y;
    vstd::arithmetic::div_mod::lemma_fundamental_div_mod(x, y);
    if divides(d, x) && divides(d, y) {
        lemma_combination(d, x, y, 1, -q);
        assert(x * 1 + y * (-q) == x % y) by (nonlinear_arith)
            requires
                x == y * q + x % y,
        ;
    }
    if divides(d, y) && divides(d, x % y) {
        lemma_combination(d, y, x % y, q, 1);
    }
}

} // verus!
