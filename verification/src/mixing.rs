//! How distributions move, and when they are mixed, in exact numbers.

use vstd::prelude::*;

use crate::binary64;
use crate::double;
use crate::double::Double;
use crate::evolution;
use crate::exact;
use crate::laws;
use crate::matrix::TransitionMatrix;
use crate::order;
use crate::precision;
use crate::vector;

verus! {

/// The probabilities of moving to state `j`.
pub open spec fn column(tm: TransitionMatrix, j: int) -> Seq<Double> {
    Seq::new(tm.n as nat, |i: int| tm.at(i, j))
}

/// What exactly flows to state `j` from the distribution `v`: the sum of the entries
/// times the probabilities of moving from there.
pub open spec fn inflow(tm: TransitionMatrix, v: Seq<Double>, j: int) -> real {
    precision::sum_of(
        |i: int| precision::number(v[i]) * precision::number(tm.at(i, j)),
        tm.n as nat,
    )
}

/// The sum of the absolute values of what flows to state `j`.
pub open spec fn inflow_size(tm: TransitionMatrix, v: Seq<Double>, j: int) -> real {
    precision::sum_of(
        |i: int| precision::size(precision::number(v[i]) * precision::number(tm.at(i, j))),
        tm.n as nat,
    )
}

/// The flow to a state is the products with its column.
proof fn lemma_flow(tm: TransitionMatrix, v: Seq<Double>, j: int)
    requires
        v.len() == tm.n,
    ensures
        evolution::flow(tm, v, j) == vector::products(v, column(tm, j)),
        exact::product_sum(v, column(tm, j)) == inflow(tm, v, j),
        exact::product_size(v, column(tm, j)) == inflow_size(tm, v, j),
{
    let n = tm.n as nat;
    let c = column(tm, j);
    assert(evolution::flow(tm, v, j) =~= vector::products(v, c));
    precision::lemma_sum_same(
        |i: int| precision::number(v[i]) * precision::number(c[i]),
        |i: int| precision::number(v[i]) * precision::number(tm.at(i, j)),
        n,
    );
    precision::lemma_sum_same(
        |i: int| precision::size(precision::number(v[i]) * precision::number(c[i])),
        |i: int| precision::size(precision::number(v[i]) * precision::number(tm.at(i, j))),
        n,
    );
}

/// One move brings to each state what exactly flows there, up to the relative error
/// of the sum and two units of the format for each state. The result is a finite
/// number only if all that flows there is, and always if it is moderate.
pub proof fn law_move_is_exact(tm: TransitionMatrix, v: Seq<Double>, j: int)
    requires
        tm.wf(),
        v.len() == tm.n,
        0 <= j < tm.n,
        evolution::advanced(tm, v)[j].is_finite() || exact::are_moderate(v)
            && exact::are_moderate(column(tm, j)),
    ensures
        evolution::advanced(tm, v).len() == tm.n,
        evolution::advanced(tm, v)[j].is_finite(),
        forall|i: int|
            0 <= i < tm.n ==> (#[trigger] v[i]).is_finite() && tm.at(i, j).is_finite(),
        precision::size(precision::number(evolution::advanced(tm, v)[j]) - inflow(tm, v, j))
            <= precision::growth(tm.n as nat + 2) * inflow_size(tm, v, j) + 2 as real * (
        tm.n as real * precision::tiny()),
{
    lemma_flow(tm, v, j);
    let c = column(tm, j);
    order::lemma_sign(Double::zero());
    if !evolution::advanced(tm, v)[j].is_finite() {
        exact::lemma_moderate_products(Double::zero(), v, c);
    }
    exact::lemma_products(Double::zero(), v, c);
    assert forall|i: int| 0 <= i < tm.n implies (#[trigger] v[i]).is_finite() && tm.at(
        i,
        j,
    ).is_finite() by {
        assert(v[i].is_finite() && c[i].is_finite());
    }
}

/// The chain starts in state 0.
pub proof fn law_distribution_starts_in_state_zero(tm: TransitionMatrix, i: int)
    requires
        0 <= i < tm.n,
    ensures
        evolution::distribution_after(tm, 0).len() == tm.n,
        evolution::distribution_after(tm, 0)[i].is_finite(),
        precision::number(evolution::distribution_after(tm, 0)[i]) == exact::one_if(i == 0),
{
    precision::lemma_number_constants();
    double::lemma_one();
    order::lemma_sign(Double::zero());
}

/// The distributions have an entry for each state.
proof fn lemma_distribution_len(tm: TransitionMatrix, k: nat)
    ensures
        evolution::distribution_after(tm, k).len() == tm.n,
{
    if k > 0 {
        assert(evolution::advanced(
            tm,
            evolution::distribution_after(tm, (k - 1) as nat),
        ).len() == tm.n);
    }
}

/// With each move, each state gets what exactly flows to it from the distribution
/// before, up to the relative error of the sum and two units of the format for each
/// state.
pub proof fn law_distribution_moves(tm: TransitionMatrix, k: nat, j: int)
    requires
        tm.wf(),
        0 <= j < tm.n,
        evolution::distribution_after(tm, k + 1)[j].is_finite() || exact::are_moderate(
            evolution::distribution_after(tm, k),
        ) && exact::are_moderate(column(tm, j)),
    ensures
        evolution::distribution_after(tm, k + 1).len() == tm.n,
        evolution::distribution_after(tm, k + 1)[j].is_finite(),
        precision::size(
            precision::number(evolution::distribution_after(tm, k + 1)[j]) - inflow(
                tm,
                evolution::distribution_after(tm, k),
                j,
            ),
        ) <= precision::growth(tm.n as nat + 2) * inflow_size(
            tm,
            evolution::distribution_after(tm, k),
            j,
        ) + 2 as real * (tm.n as real * precision::tiny()),
{
    lemma_distribution_len(tm, k);
    lemma_distribution_len(tm, k + 1);
    assert((k + 1 - 1) as nat == k);
    law_move_is_exact(tm, evolution::distribution_after(tm, k), j);
}

/// The exact sum of the distances of the entries, as far as both vectors go.
pub open spec fn exact_l1(a: Seq<Double>, b: Seq<Double>) -> real {
    precision::sum_of(gaps(a, b), exact::least(a.len(), b.len()))
}

/// The exact distances of the entries.
pub open spec fn gaps(a: Seq<Double>, b: Seq<Double>) -> spec_fn(int) -> real {
    |i: int| precision::size(precision::number(a[i]) - precision::number(b[i]))
}

/// Whether all entries are finite, as far as both vectors go.
pub open spec fn are_finite(a: Seq<Double>, b: Seq<Double>) -> bool {
    forall|i: int|
        0 <= i < exact::least(a.len(), b.len()) ==> (#[trigger] a[i]).is_finite()
            && b[i].is_finite()
}

/// The computed sum of the distances, against the exact one.
pub(crate) proof fn lemma_l1(a: Seq<Double>, b: Seq<Double>)
    requires
        exact::least(a.len(), b.len()) <= precision::LENGTH_LIMIT,
        vector::l1_distance(a, b).is_finite(),
    ensures
        are_finite(a, b),
        exact_l1(a, b) >= 0 as real,
        precision::number(vector::l1_distance(a, b)) >= 0 as real,
        precision::size(precision::number(vector::l1_distance(a, b)) - exact_l1(a, b))
            <= precision::growth(exact::least(a.len(), b.len()) + 2) * exact_l1(a, b),
{
    let n = exact::least(a.len(), b.len());
    let d = vector::distances(a, b);
    let e = precision::eps();
    precision::lemma_eps();
    order::lemma_sign(vector::nothing());
    precision::lemma_nonzero(d);
    precision::lemma_sum_error(vector::nothing(), d);
    let x = gaps(a, b);
    let errors = |i: int| e * x(i);
    let f = precision::numbers(d);
    assert forall|i: int| 0 <= i < n implies {
        &&& precision::size(#[trigger] f(i) - x(i)) <= errors(i)
        &&& f(i) >= 0 as real
        &&& a[i].is_finite()
        &&& b[i].is_finite()
    } by {
        assert(d[i].is_finite());
        order::lemma_abs_sign(a[i].minus(b[i]));
        exact::lemma_distance(a[i], b[i]);
    }
    assert forall|i: int| 0 <= i < n implies (#[trigger] a[i]).is_finite() && b[i].is_finite() by {
        assert(f(i) >= 0 as real);
    }
    precision::lemma_sum_difference(f, x, errors, n);
    precision::lemma_sum_scale(x, e, errors, n);
    precision::lemma_sum_bounds(x, n, 0);
    assert forall|i: int| 0 <= i < n implies #[trigger] precision::sizes(d)(i) == f(i) by {
        assert(f(i) >= 0 as real);
    }
    precision::lemma_sum_same(precision::sizes(d), f, n);
    precision::lemma_sum_bounds(f, n, 0);
    let (g, t) = (precision::sum_of(x, n), precision::sum_of(f, n));
    let c = precision::growth(precision::nonzero(d));
    let l = precision::growth(n);
    precision::lemma_growth_order(precision::nonzero(d), n);
    precision::lemma_growth(precision::nonzero(d));
    precision::lemma_growth(n);
    precision::lemma_growth(n + 1);
    assert(c * t + e * g <= (l + e + e) * g) by (nonlinear_arith)
        requires
            0 as real <= c,
            c <= l,
            l * 4 as real <= 1 as real,
            0 as real <= t,
            t <= g + e * g,
            0 as real <= g,
            e > 0 as real,
    {
        let u = e * g;
        assert(u >= 0 as real);
        assert(c * t <= l * t);
        assert(l * t <= l * (g + u));
        assert(l * u <= u);
    }
    assert(c * t <= t) by (nonlinear_arith)
        requires
            c <= 1 as real,
            0 as real <= t,
    ;
}

/// The sum of the distances of finite entries that are not far apart is finite.
pub(crate) proof fn lemma_l1_finite(a: Seq<Double>, b: Seq<Double>)
    requires
        exact::least(a.len(), b.len()) <= precision::LENGTH_LIMIT,
        are_finite(a, b),
        exact_l1(a, b) <= 10_000_000_000_000_000_000_000_000_000 as real,
    ensures
        vector::l1_distance(a, b).is_finite(),
{
    let n = exact::least(a.len(), b.len());
    let d = vector::distances(a, b);
    let x = gaps(a, b);
    let tops = |i: int| 2 as real * x(i);
    precision::lemma_eps();
    let e = precision::eps();
    assert forall|i: int| 0 <= i < n implies (#[trigger] d[i]).is_finite() && precision::size(
        precision::number(d[i]),
    ) <= tops(i) by {
        assert(a[i].is_finite());
        precision::lemma_sum_bounds(x, n, i);
        precision::lemma_number_negated(b[i]);
        precision::lemma_plus_finite(a[i], b[i].negated());
        order::lemma_abs_sign(a[i].minus(b[i]));
        exact::lemma_distance(a[i], b[i]);
        let z = x(i);
        assert(e * z <= z) by (nonlinear_arith)
            requires
                0 as real <= z,
                e > 0 as real,
                e * 4_503_599_627_370_496 as real == 1 as real,
        ;
    }
    assert forall|i: int| 0 <= i < n implies #[trigger] precision::sizes(d)(i) <= tops(i) by {
        assert(d[i].is_finite());
    }
    precision::lemma_sum_order(precision::sizes(d), tops, n);
    precision::lemma_sum_scale(x, 2 as real, tops, n);
    order::lemma_sign(vector::nothing());
    precision::lemma_nonzero(d);
    precision::lemma_sum_finite(vector::nothing(), d);
}

/// The computed total variation distance, against half of the exact sum of the
/// distances.
proof fn lemma_half(a: Seq<Double>, b: Seq<Double>)
    requires
        exact::least(a.len(), b.len()) <= 1_000_000,
        vector::l1_distance(a, b).is_finite(),
    ensures
        evolution::total_variation(a, b).is_finite(),
        precision::size(
            2 as real * precision::number(evolution::total_variation(a, b)) - exact_l1(a, b),
        ) <= precision::growth(exact::least(a.len(), b.len()) + 4) * exact_l1(a, b) + 2 as real
            * precision::tiny(),
{
    let n = exact::least(a.len(), b.len());
    let (sum, half) = (vector::l1_distance(a, b), Double::half());
    lemma_l1(a, b);
    lemma_one_half();
    let (p, q) = (precision::number(sum), precision::number(half));
    assert(p * q * 2 as real == p) by (nonlinear_arith)
        requires
            q * 2 as real == 1 as real,
    ;
    precision::lemma_product_size(p, q);
    lemma_half_finite(sum);
    precision::lemma_times_error(sum, half);
    precision::lemma_eps();
    precision::lemma_growth(n + 2);
    precision::lemma_growth(n + 3);
    let (e, x, g) = (precision::eps(), exact_l1(a, b), precision::growth(n + 2));
    let z = precision::size(p * q);
    assert(2 as real * (e * z) == e * p) by (nonlinear_arith)
        requires
            z * 2 as real == p,
    ;
    assert((g + e + e) * x == g * x + 2 as real * (e * x)) by (nonlinear_arith);
    assert(g * x <= x) by (nonlinear_arith)
        requires
            g <= 1 as real,
            0 as real <= x,
    ;
    assert(e * p <= 2 as real * (e * x)) by (nonlinear_arith)
        requires
            p <= 2 as real * x,
            e > 0 as real,
    ;
}

/// One half.
proof fn lemma_one_half()
    ensures
        Double::half().is_finite(),
        precision::number(Double::half()) * 2 as real == 1 as real,
{
    let half = Double::half();
    laws::law_constants();
    precision::lemma_number(half);
    precision::lemma_tiny();
    let (o, v, t) = (binary64::one() as real, half.value() as real, precision::tiny());
    assert((v * t) * 2 as real == 1 as real) by (nonlinear_arith)
        requires
            2 as real * v == o,
            t * o == 1 as real,
    ;
}

/// Half of a finite number is finite.
proof fn lemma_half_finite(x: Double)
    requires
        x.is_finite(),
    ensures
        x.times(Double::half()).is_finite(),
{
    reveal(Double::times_spec);
    laws::law_constants();
    order::lemma_sign(Double::half());
    let one = binary64::one();
    let (sx, sh) = (
        binary64::scaled(x.magnitude()),
        binary64::scaled(Double::half().magnitude()),
    );
    vstd::arithmetic::power2::lemma_pow2_pos(1074);
    assert(sh <= one);
    assert((sx * sh) * one <= (sx * one) * one) by (nonlinear_arith)
        requires
            sh <= one,
    ;
    binary64::lemma_nearest_monotone(sx * sh, one, sx * one, one);
    binary64::lemma_nearest_exact(x.magnitude(), one);
    let m = binary64::nearest(sx * sh, one);
    order::lemma_signed(x.is_negative() != Double::half().is_negative(), m);
}

/// A chain is mixed exactly where half of the exact sum of the distances of its
/// distribution from `pi` is below `epsilon`, up to the relative error of the sum and
/// one unit of the format: where it is mixed, all entries are finite and the half sum
/// is not farther above than that, and where it is farther below, the chain is mixed.
pub proof fn law_mixed_is_by_half_the_distances(
    tm: TransitionMatrix,
    pi: Seq<Double>,
    epsilon: Double,
    k: nat,
)
    requires
        tm.wf(),
        epsilon.is_finite(),
    ensures
        evolution::is_mixed(tm, pi, epsilon, k) ==> are_finite(
            evolution::distribution_after(tm, k),
            pi,
        ) && nearly_within(evolution::distribution_after(tm, k), pi, epsilon),
        are_finite(evolution::distribution_after(tm, k), pi) && exact_l1(
            evolution::distribution_after(tm, k),
            pi,
        ) <= 10_000_000_000_000_000_000_000_000_000 as real && surely_within(evolution::distribution_after(tm, k), pi, epsilon) ==> evolution::is_mixed(tm, pi, epsilon, k),
{
    let v = evolution::distribution_after(tm, k);
    lemma_distribution_len(tm, k);
    let n = exact::least(v.len(), pi.len());
    let tv = evolution::total_variation(v, pi);
    let l1 = vector::l1_distance(v, pi);
    let x = exact_l1(v, pi);
    let g = precision::growth(n + 4);
    assert((1 as real - g) * x == x - g * x && (1 as real + g) * x == x + g * x)
        by (nonlinear_arith);
    if evolution::is_mixed(tm, pi, epsilon, k) {
        lemma_total_variation_number(v, pi, epsilon);
        lemma_half(v, pi);
        lemma_l1(v, pi);
        precision::lemma_number_order(tv, epsilon);
    }
    if are_finite(v, pi) && x <= 10_000_000_000_000_000_000_000_000_000 as real && surely_within(v, pi, epsilon) {
        lemma_l1_finite(v, pi);
        lemma_half(v, pi);
        precision::lemma_number_order(epsilon, tv);
    }
}

/// Whether half of the exact sum of the distances is below `epsilon` even with the
/// error of the computed distance added.
pub open spec fn surely_within(a: Seq<Double>, b: Seq<Double>, epsilon: Double) -> bool {
    (1 as real + precision::growth(exact::least(a.len(), b.len()) + 4)) * exact_l1(a, b) + 2 as real
        * precision::tiny() < 2 as real * precision::number(epsilon)
}

/// Whether half of the exact sum of the distances is below `epsilon` at least with the
/// error of the computed distance taken off.
pub open spec fn nearly_within(a: Seq<Double>, b: Seq<Double>, epsilon: Double) -> bool {
    (1 as real - precision::growth(exact::least(a.len(), b.len()) + 4)) * exact_l1(a, b) - 2 as real
        * precision::tiny() < 2 as real * precision::number(epsilon)
}

/// A total variation distance below a finite number comes from a finite sum.
proof fn lemma_total_variation_number(a: Seq<Double>, b: Seq<Double>, epsilon: Double)
    requires
        evolution::total_variation(a, b).less(epsilon),
        epsilon.is_finite(),
    ensures
        vector::l1_distance(a, b).is_finite(),
{
    let d = vector::distances(a, b);
    let sum = vector::l1_distance(a, b);
    let tv = evolution::total_variation(a, b);
    order::lemma_sign(vector::nothing());
    assert forall|i: int| 0 <= i < d.len() implies order::not_below_zero(#[trigger] d[i]) by {
        order::lemma_abs_sign(a[i].minus(b[i]));
    }
    laws::lemma_sum_sign(vector::nothing(), d);
    lemma_one_half();
    laws::law_constants();
    order::lemma_sign(Double::half());
    order::lemma_sign(sum);
    order::lemma_sign(tv);
    order::lemma_sign(epsilon);
    vstd::arithmetic::power2::lemma_pow2_pos(1074);
    if !sum.is_finite() {
        reveal(Double::times_spec);
        order::lemma_signed(sum.is_negative() != Double::half().is_negative(), binary64::INFINITE as nat);
        binary64::lemma_scaled_order(tv.magnitude(), epsilon.magnitude());
    }
}

/// The probabilities of the states in a set, and zero for the other states.
pub open spec fn within(v: Seq<Double>, set: spec_fn(int) -> bool) -> spec_fn(int) -> real {
    |i: int|
        if set(i) {
            precision::number(v[i])
        } else {
            0 as real
        }
}

/// The exact probability that `v` gives to the first `n` states that are in a set.
pub open spec fn probability(v: Seq<Double>, set: spec_fn(int) -> bool, n: nat) -> real {
    precision::sum_of(within(v, set), n)
}

/// How far the probability of a set under `a` is above that under `b`, twice, less how
/// far the sum of all of `a` is above that of `b`. Between two distributions, whose
/// sums are the same, this is twice the difference that the set makes.
pub open spec fn surplus(a: Seq<Double>, b: Seq<Double>, set: spec_fn(int) -> bool, n: nat) -> real {
    2 as real * (probability(a, set, n) - probability(b, set, n)) - (precision::sum_of(
        precision::numbers(a),
        n,
    ) - precision::sum_of(precision::numbers(b), n))
}

/// The states that `a` gives more to than `b`.
pub open spec fn ahead(a: Seq<Double>, b: Seq<Double>) -> spec_fn(int) -> bool {
    |i: int| precision::number(a[i]) > precision::number(b[i])
}

/// No set makes more of a difference than the sum of the distances, and the states
/// that are ahead make just that.
proof fn lemma_surplus(a: Seq<Double>, b: Seq<Double>, set: spec_fn(int) -> bool, n: nat)
    ensures
        precision::size(surplus(a, b, set, n)) <= precision::sum_of(gaps(a, b), n),
        surplus(a, b, ahead(a, b), n) == precision::sum_of(gaps(a, b), n),
    decreases n,
{
    if n > 0 {
        lemma_surplus(a, b, set, (n - 1) as nat);
    }
}

/// Where a chain is mixed, no set of states is told apart: its probability after `k`
/// moves and its probability under `pi` differ by less than `epsilon`, up to rounding
/// and what the two sums differ by.
pub proof fn law_mixed_on_every_set(
    tm: TransitionMatrix,
    pi: Seq<Double>,
    epsilon: Double,
    k: nat,
    set: spec_fn(int) -> bool,
)
    requires
        tm.wf(),
        epsilon.is_finite(),
        pi.len() == tm.n,
        evolution::is_mixed(tm, pi, epsilon, k),
    ensures
        (1 as real - precision::growth(tm.n as nat + 4)) * precision::size(
            surplus(evolution::distribution_after(tm, k), pi, set, tm.n as nat),
        ) < 2 as real * (precision::number(epsilon) + precision::tiny()),
{
    let v = evolution::distribution_after(tm, k);
    lemma_distribution_len(tm, k);
    law_mixed_is_by_half_the_distances(tm, pi, epsilon, k);
    lemma_surplus(v, pi, set, tm.n as nat);
    let g = precision::growth(tm.n as nat + 4);
    precision::lemma_growth(tm.n as nat + 4);
    let (x, y) = (precision::size(surplus(v, pi, set, tm.n as nat)), exact_l1(v, pi));
    assert((1 as real - g) * x <= (1 as real - g) * y) by (nonlinear_arith)
        requires
            x <= y,
            g <= 1 as real,
    ;
}

/// Where a chain is not mixed, some set of states is told apart: the probability after
/// `k` moves of the states that are ahead is above their probability under `pi` by no
/// less than `epsilon`, up to rounding and what the two sums differ by.
pub proof fn law_not_mixed_on_some_set(
    tm: TransitionMatrix,
    pi: Seq<Double>,
    epsilon: Double,
    k: nat,
)
    requires
        tm.wf(),
        epsilon.is_finite(),
        pi.len() == tm.n,
        are_finite(evolution::distribution_after(tm, k), pi),
        exact_l1(evolution::distribution_after(tm, k), pi)
            <= 10_000_000_000_000_000_000_000_000_000 as real,
        !evolution::is_mixed(tm, pi, epsilon, k),
    ensures
        (1 as real + precision::growth(tm.n as nat + 4)) * surplus(
            evolution::distribution_after(tm, k),
            pi,
            ahead(evolution::distribution_after(tm, k), pi),
            tm.n as nat,
        ) >= 2 as real * (precision::number(epsilon) - precision::tiny()),
{
    let v = evolution::distribution_after(tm, k);
    lemma_distribution_len(tm, k);
    law_mixed_is_by_half_the_distances(tm, pi, epsilon, k);
    lemma_surplus(v, pi, ahead(v, pi), tm.n as nat);
}

/// The mixing time is the first number of moves after which half of the exact sum of
/// the distances from `pi` is below `epsilon`, up to rounding: it is below then, and
/// it was not clearly below before.
pub proof fn law_mixing_time_is_the_first(
    tm: TransitionMatrix,
    pi: Seq<Double>,
    epsilon: Double,
    k: nat,
)
    requires
        tm.wf(),
        epsilon.is_finite(),
        evolution::mixes_at(tm, pi, epsilon, k),
    ensures
        are_finite(evolution::distribution_after(tm, k), pi),
        nearly_within(evolution::distribution_after(tm, k), pi, epsilon),
        forall|j: nat|
            j < k && are_finite(#[trigger] evolution::distribution_after(tm, j), pi) && exact_l1(
                evolution::distribution_after(tm, j),
                pi,
            ) <= 10_000_000_000_000_000_000_000_000_000 as real ==> !surely_within(
                evolution::distribution_after(tm, j),
                pi,
                epsilon,
            ),
{
    law_mixed_is_by_half_the_distances(tm, pi, epsilon, k);
    assert forall|j: nat|
        j < k && are_finite(#[trigger] evolution::distribution_after(tm, j), pi) && exact_l1(
            evolution::distribution_after(tm, j),
            pi,
        ) <= 10_000_000_000_000_000_000_000_000_000 as real implies !surely_within(
        evolution::distribution_after(tm, j),
        pi,
        epsilon,
    ) by {
        law_mixed_is_by_half_the_distances(tm, pi, epsilon, j);
        assert(!evolution::is_mixed(tm, pi, epsilon, j));
    }
}

/// The mixing time is found: where half of the exact sum of the distances from `pi` is
/// clearly below `epsilon` after `k` moves, and not even nearly below after fewer,
/// the chain mixes at `k`.
pub proof fn law_mixing_time_is_found(
    tm: TransitionMatrix,
    pi: Seq<Double>,
    epsilon: Double,
    k: nat,
)
    requires
        tm.wf(),
        epsilon.is_finite(),
        are_finite(evolution::distribution_after(tm, k), pi),
        exact_l1(evolution::distribution_after(tm, k), pi)
            <= 10_000_000_000_000_000_000_000_000_000 as real,
        surely_within(evolution::distribution_after(tm, k), pi, epsilon),
        forall|j: nat|
            j < k && are_finite(#[trigger] evolution::distribution_after(tm, j), pi)
                ==> !nearly_within(evolution::distribution_after(tm, j), pi, epsilon),
    ensures
        evolution::mixes_at(tm, pi, epsilon, k),
{
    law_mixed_is_by_half_the_distances(tm, pi, epsilon, k);
    assert forall|j: nat| j < k implies !#[trigger] evolution::is_mixed(tm, pi, epsilon, j) by {
        law_mixed_is_by_half_the_distances(tm, pi, epsilon, j);
    }
}

} // verus!
