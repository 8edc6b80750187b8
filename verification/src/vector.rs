//! Sums over vectors of numbers, added in order.

use vstd::prelude::*;

use crate::double::Double;

verus! {

/// The least of two lengths.
pub open spec fn shorter(a: nat, b: nat) -> nat {
    if a <= b {
        a
    } else {
        b
    }
}

/// `start` and the terms, added in order.
pub open spec fn sum_from(start: Double, terms: Seq<Double>) -> Double
    decreases terms.len(),
{
    if terms.len() == 0 {
        start
    } else {
        sum_from(start, terms.drop_last()).plus(terms.last())
    }
}

/// Negative zero, which no sum changes by.
pub open spec fn nothing() -> Double {
    Double { bits: crate::binary64::SIGN }
}

/// The sum of the terms.
pub open spec fn total(terms: Seq<Double>) -> Double {
    sum_from(nothing(), terms)
}

/// The products of the entries, as far as both vectors go.
pub open spec fn products(a: Seq<Double>, b: Seq<Double>) -> Seq<Double> {
    Seq::new(shorter(a.len(), b.len()), |i: int| a[i].times(b[i]))
}

/// The sum of the products.
pub open spec fn dot(a: Seq<Double>, b: Seq<Double>) -> Double {
    total(products(a, b))
}

/// The distances of the entries, as far as both vectors go.
pub open spec fn distances(a: Seq<Double>, b: Seq<Double>) -> Seq<Double> {
    Seq::new(shorter(a.len(), b.len()), |i: int| a[i].minus(b[i]).abs())
}

/// The sum of the distances of the entries.
pub open spec fn l1_distance(a: Seq<Double>, b: Seq<Double>) -> Double {
    total(distances(a, b))
}

/// The weighted squares of the deviations of `f` from `mean`, as far as both
/// vectors go.
pub open spec fn deviations(p: Seq<Double>, f: Seq<Double>, mean: Double) -> Seq<Double> {
    Seq::new(
        shorter(p.len(), f.len()),
        |i: int| p[i].times(f[i].minus(mean)).times(f[i].minus(mean)),
    )
}

/// The variance of `f` under the weights `p`.
pub open spec fn variance(p: Seq<Double>, f: Seq<Double>) -> Double {
    total(deviations(p, f, dot(p, f)))
}

/// The state indices `0, 1, ...` as numbers.
pub open spec fn indices(n: nat) -> Seq<Double> {
    Seq::new(n, |i: int| Double::natural(i as nat))
}

/// A sum of the first terms grows by the next one.
pub proof fn lemma_sum_take(start: Double, terms: Seq<Double>, i: int)
    requires
        0 <= i < terms.len(),
    ensures
        sum_from(start, terms.take(i + 1)) == sum_from(start, terms.take(i)).plus(terms[i]),
{
    assert(terms.take(i + 1).drop_last() == terms.take(i));
    assert(terms.take(i + 1).last() == terms[i]);
}

/// The least of two lengths.
pub fn shorter_length(a: usize, b: usize) -> (r: usize)
    ensures
        r == shorter(a as nat, b as nat),
{
    if a <= b {
        a
    } else {
        b
    }
}

/// The sum of the terms.
pub fn sum(terms: &[Double]) -> (r: Double)
    ensures
        r == total(terms@),
{
    let mut acc: Double = Double::from_bits(crate::binary64::SIGN);
    let n: usize = terms.len();
    for i in 0..n
        invariant
            n == terms@.len(),
            acc == total(terms@.take(i as int)),
    {
        proof {
            lemma_sum_take(nothing(), terms@, i as int);
        }
        acc = acc.plus(terms[i]);
    }
    proof {
        assert(terms@.take(n as int) == terms@);
    }
    acc
}

/// The sum of the products.
pub fn dot_product(a: &[Double], b: &[Double]) -> (r: Double)
    ensures
        r == dot(a@, b@),
{
    let mut acc: Double = Double::from_bits(crate::binary64::SIGN);
    let n: usize = shorter_length(a.len(), b.len());
    for i in 0..n
        invariant
            n == shorter(a@.len(), b@.len()),
            acc == total(products(a@, b@).take(i as int)),
    {
        proof {
            lemma_sum_take(nothing(), products(a@, b@), i as int);
        }
        acc = acc.plus(a[i].times(b[i]));
    }
    proof {
        assert(products(a@, b@).take(n as int) == products(a@, b@));
    }
    acc
}

/// The sum of the distances of the entries.
pub fn distance(a: &[Double], b: &[Double]) -> (r: Double)
    ensures
        r == l1_distance(a@, b@),
{
    let mut acc: Double = Double::from_bits(crate::binary64::SIGN);
    let n: usize = shorter_length(a.len(), b.len());
    for i in 0..n
        invariant
            n == shorter(a@.len(), b@.len()),
            acc == total(distances(a@, b@).take(i as int)),
    {
        proof {
            lemma_sum_take(nothing(), distances(a@, b@), i as int);
        }
        acc = acc.plus(a[i].minus(b[i]).abs());
    }
    proof {
        assert(distances(a@, b@).take(n as int) == distances(a@, b@));
    }
    acc
}

/// The variance of `f` under the weights `p`.
pub fn weighted_variance(p: &[Double], f: &[Double]) -> (r: Double)
    ensures
        r == variance(p@, f@),
{
    let mean: Double = dot_product(p, f);
    let mut acc: Double = Double::from_bits(crate::binary64::SIGN);
    let n: usize = shorter_length(p.len(), f.len());
    let ghost terms = deviations(p@, f@, mean);
    for i in 0..n
        invariant
            n == shorter(p@.len(), f@.len()),
            terms == deviations(p@, f@, mean),
            acc == total(terms.take(i as int)),
    {
        proof {
            lemma_sum_take(nothing(), terms, i as int);
        }
        let d: Double = f[i].minus(mean);
        acc = acc.plus(p[i].times(d).times(d));
    }
    proof {
        assert(terms.take(n as int) == terms);
    }
    acc
}

/// The state indices below `n` as numbers.
pub fn index_values(n: usize) -> (r: Vec<Double>)
    ensures
        r@ == indices(n as nat),
{
    let mut r: Vec<Double> = Vec::new();
    for i in 0..n
        invariant
            r@ == indices(i as nat),
    {
        r.push(Double::from_natural(i as u64));
        proof {
            assert(r@ =~= indices((i + 1) as nat));
        }
    }
    r
}

} // verus!
