//! Where the drawn numbers lead, in exact numbers.

use vstd::arithmetic::power2::{lemma2_to64_rest, lemma_pow2_adds, lemma_pow2_pos, pow2};
use vstd::prelude::*;

use crate::accuracy;
use crate::averages;
use crate::binary64;
use crate::chain;
use crate::double;
use crate::double::Double;
use crate::laws;
use crate::matrix::TransitionMatrix;
use crate::order;
use crate::precision;
use crate::vector;

verus! {

/// The probabilities of moving from state `s`, as reals.
pub open spec fn row(tm: TransitionMatrix, s: int) -> spec_fn(int) -> real {
    |j: int| precision::number(tm.at(s, j))
}

/// The exact probability of moving from state `s` to a state below `m`.
pub open spec fn below(tm: TransitionMatrix, s: int, m: int) -> real {
    precision::sum_of(row(tm, s), m as nat)
}

/// Whether row `s` holds finite numbers not below zero, and a sum that is not great.
pub open spec fn is_row(tm: TransitionMatrix, s: int) -> bool {
    &&& tm.wf()
    &&& 0 <= s < tm.n
    &&& forall|j: int|
        0 <= j < tm.n ==> (#[trigger] tm.at(s, j)).is_finite() && precision::number(tm.at(s, j))
            >= 0 as real
    &&& below(tm, s, tm.n as int) <= 1_000_000 as real
}

/// What rounding makes at most of a difference in the probabilities of row `s`.
pub open spec fn slack(tm: TransitionMatrix, s: int) -> real {
    precision::growth(tm.n as nat) * below(tm, s, tm.n as int)
}

/// The exact probabilities grow up to that of the whole row.
proof fn lemma_below(tm: TransitionMatrix, s: int, i: int, j: int)
    requires
        is_row(tm, s),
        0 <= i <= j <= tm.n,
    ensures
        0 as real <= below(tm, s, i),
        below(tm, s, i) <= below(tm, s, j),
        below(tm, s, j) <= below(tm, s, tm.n as int),
        slack(tm, s) >= 0 as real,
        j < tm.n ==> below(tm, s, j + 1) == below(tm, s, j) + precision::number(tm.at(s, j)),
{
    let f = row(tm, s);
    assert forall|k: int| 0 <= k < tm.n implies #[trigger] f(k) >= 0 as real by {
        assert(tm.at(s, k).is_finite());
    }
    averages::lemma_prefix(f, i as nat, j as nat);
    averages::lemma_prefix(f, j as nat, tm.n as nat);
    precision::lemma_growth(tm.n as nat);
    let (g, b) = (precision::growth(tm.n as nat), below(tm, s, tm.n as int));
    assert(g * b >= 0 as real) by (nonlinear_arith)
        requires
            g >= 0 as real,
            b >= 0 as real,
    ;
    if j < tm.n {
        assert((j + 1) as nat - 1 == j);
    }
}

/// The computed probability of moving to a state below `m` is the exact one, up to
/// rounding.
pub proof fn law_cumulative_is_exact(tm: TransitionMatrix, s: int, m: int)
    requires
        is_row(tm, s),
        0 <= m <= tm.n,
    ensures
        chain::cumulative(tm, s, m).is_finite(),
        precision::size(precision::number(chain::cumulative(tm, s, m)) - below(tm, s, m)) <= slack(
            tm,
            s,
        ),
{
    let terms = tm.data@[s]@.take(m);
    let f = row(tm, s);
    order::lemma_sign(Double::zero());
    lemma_below(tm, s, m, tm.n as int);
    assert forall|j: int| 0 <= j < m implies (#[trigger] terms[j]).is_finite() by {
        assert(terms[j] == tm.at(s, j));
    }
    assert forall|j: int| 0 <= j < m implies #[trigger] precision::numbers(terms)(j) == f(j) by {
        assert(terms[j] == tm.at(s, j));
    }
    assert forall|j: int| 0 <= j < m implies #[trigger] precision::sizes(terms)(j) == f(j) by {
        assert(terms[j] == tm.at(s, j));
        assert(tm.at(s, j).is_finite());
    }
    precision::lemma_sum_same(precision::numbers(terms), f, m as nat);
    precision::lemma_sum_same(precision::sizes(terms), f, m as nat);
    precision::lemma_nonzero(terms);
    precision::lemma_sum_finite(Double::zero(), terms);
    precision::lemma_sum_error(Double::zero(), terms);
    let (c, g) = (
        precision::growth(precision::nonzero(terms)),
        precision::growth(tm.n as nat),
    );
    precision::lemma_growth_order(precision::nonzero(terms), tm.n as nat);
    precision::lemma_growth(precision::nonzero(terms));
    let (x, y) = (below(tm, s, m), below(tm, s, tm.n as int));
    assert(c * x <= g * y) by (nonlinear_arith)
        requires
            0 as real <= c,
            c <= g,
            0 as real <= x,
            x <= y,
    {
        assert(c * x <= g * x);
        assert(g * x <= g * y);
    }
}

/// Whatever the row holds, a finite computed sum of its first entries is the exact one,
/// up to the relative error of the sum.
pub proof fn law_cumulative_of_any_row(tm: TransitionMatrix, s: int, m: int)
    requires
        tm.wf(),
        0 <= m <= tm.n,
        chain::cumulative(tm, s, m).is_finite(),
    ensures
        forall|j: int| 0 <= j < m ==> (#[trigger] tm.at(s, j)).is_finite(),
        precision::size(precision::number(chain::cumulative(tm, s, m)) - below(tm, s, m))
            <= precision::growth(m as nat) * precision::sum_of(
            |j: int| precision::size(precision::number(tm.at(s, j))),
            m as nat,
        ),
{
    let terms = tm.data@[s]@.take(m);
    let f = row(tm, s);
    let sizes = |j: int| precision::size(precision::number(tm.at(s, j)));
    order::lemma_sign(Double::zero());
    precision::lemma_sum_error(Double::zero(), terms);
    assert forall|j: int| 0 <= j < m implies (#[trigger] tm.at(s, j)).is_finite() by {
        assert(terms[j] == tm.at(s, j));
    }
    assert forall|j: int| 0 <= j < m implies #[trigger] precision::numbers(terms)(j) == f(j) by {
        assert(terms[j] == tm.at(s, j));
    }
    assert forall|j: int| 0 <= j < m implies #[trigger] precision::sizes(terms)(j) == sizes(j) by {
        assert(terms[j] == tm.at(s, j));
    }
    precision::lemma_sum_same(precision::numbers(terms), f, m as nat);
    precision::lemma_sum_same(precision::sizes(terms), sizes, m as nat);
    precision::lemma_nonzero(terms);
    precision::lemma_growth_order(precision::nonzero(terms), m as nat);
    let (c, g) = (precision::growth(precision::nonzero(terms)), precision::growth(m as nat));
    let x = precision::sum_of(sizes, m as nat);
    assert(c * x <= g * x) by (nonlinear_arith)
        requires
            c <= g,
            x >= 0 as real,
    ;
}

/// A number falls to one state at most.
proof fn lemma_falls_once(tm: TransitionMatrix, s: int, r: Double, j: int)
    requires
        chain::falls_to(tm, s, r, j),
    ensures
        chain::next_state(tm, s, r) == j,
{
    let i = chain::next_state(tm, s, r);
    assert(chain::falls_to(tm, s, r, i));
    if i < j {
        assert(!chain::admits(tm, s, r, i));
    } else if j < i {
        assert(!chain::admits(tm, s, r, j));
    }
}

/// What a number admits, in numbers.
proof fn lemma_admits(tm: TransitionMatrix, s: int, r: Double, j: int)
    requires
        is_row(tm, s),
        0 <= j < tm.n,
        r.is_finite(),
    ensures
        chain::admits(tm, s, r, j) <==> precision::number(tm.at(s, j)) > 0 as real
            && precision::number(r) <= precision::number(chain::cumulative(tm, s, j + 1)),
{
    law_cumulative_is_exact(tm, s, j + 1);
    precision::lemma_number_order(r, chain::cumulative(tm, s, j + 1));
    order::lemma_sign(Double::zero());
    assert(tm.at(s, j).is_finite());
    accuracy::lemma_number_sign(tm.at(s, j));
}

/// From state `s`, every number above the exact probability of a state below `j`, and
/// up to that of a state below `j + 1`, leads to `j`, unless it is within rounding of
/// one of the two.
pub proof fn law_number_leads_to_its_state(tm: TransitionMatrix, s: int, r: Double, j: int)
    requires
        is_row(tm, s),
        r.is_finite(),
        0 <= j < tm.n,
        below(tm, s, j) + slack(tm, s) < precision::number(r),
        precision::number(r) <= below(tm, s, j + 1) - slack(tm, s),
    ensures
        chain::next_state(tm, s, r) == j,
{
    lemma_below(tm, s, j, j);
    law_cumulative_is_exact(tm, s, j + 1);
    lemma_admits(tm, s, r, j);
    assert forall|i: int| 0 <= i < j implies !#[trigger] chain::admits(tm, s, r, i) by {
        lemma_admits(tm, s, r, i);
        law_cumulative_is_exact(tm, s, i + 1);
        lemma_below(tm, s, i + 1, j);
    }
    assert(chain::falls_to(tm, s, r, j));
    lemma_falls_once(tm, s, r, j);
}

/// Without any move below `m` that is possible, the probability of a state below `m`
/// is zero; otherwise it is that of a state up to the last possible move.
proof fn lemma_last_possible(tm: TransitionMatrix, s: int, m: int) -> (i: int)
    requires
        is_row(tm, s),
        0 <= m <= tm.n,
    ensures
        -1 <= i < m,
        i < 0 ==> below(tm, s, m) == 0 as real,
        i >= 0 ==> precision::number(tm.at(s, i)) > 0 as real && below(tm, s, i + 1) == below(
            tm,
            s,
            m,
        ),
    decreases m,
{
    if m == 0 {
        -1
    } else {
        lemma_below(tm, s, m - 1, m - 1);
        assert(tm.at(s, m - 1).is_finite());
        if precision::number(tm.at(s, m - 1)) > 0 as real {
            m - 1
        } else {
            lemma_last_possible(tm, s, m - 1)
        }
    }
}

/// A number from zero to the exact sum of row `s`, less rounding, leads to a state
/// that the chain can move to, and it lies between the exact probabilities of a state
/// below this one and of a state up to it, up to rounding.
pub proof fn law_number_lies_at_its_state(tm: TransitionMatrix, s: int, r: Double)
    requires
        is_row(tm, s),
        r.is_finite(),
        precision::number(r) >= 0 as real,
        precision::number(r) <= below(tm, s, tm.n as int) - slack(tm, s),
        below(tm, s, tm.n as int) > 0 as real,
    ensures
        0 <= chain::next_state(tm, s, r) < tm.n,
        precision::number(tm.at(s, chain::next_state(tm, s, r))) > 0 as real,
        below(tm, s, chain::next_state(tm, s, r)) - slack(tm, s) <= precision::number(r),
        precision::number(r) <= below(tm, s, chain::next_state(tm, s, r) + 1) + slack(tm, s),
{
    let last = lemma_last_possible(tm, s, tm.n as int);
    law_cumulative_is_exact(tm, s, last + 1);
    lemma_admits(tm, s, r, last);
    laws::lemma_falls_somewhere(tm, s, r, last as nat);
    let j = chain::next_state(tm, s, r);
    assert(chain::falls_to(tm, s, r, j));
    lemma_admits(tm, s, r, j);
    law_cumulative_is_exact(tm, s, j + 1);
    lemma_below(tm, s, j, j);
    let i = lemma_last_possible(tm, s, j);
    if i >= 0 {
        assert(!chain::admits(tm, s, r, i));
        lemma_admits(tm, s, r, i);
        law_cumulative_is_exact(tm, s, i + 1);
    }
}

/// A number above the exact sum of row `s`, and more than rounding, leads nowhere: the
/// chain stays.
pub proof fn law_number_above_stays(tm: TransitionMatrix, s: int, r: Double)
    requires
        is_row(tm, s),
        r.is_finite(),
        precision::number(r) > below(tm, s, tm.n as int) + slack(tm, s),
    ensures
        chain::next_state(tm, s, r) == s,
{
    assert forall|j: int| !chain::falls_to(tm, s, r, j) by {
        if 0 <= j < tm.n {
            lemma_admits(tm, s, r, j);
            law_cumulative_is_exact(tm, s, j + 1);
            lemma_below(tm, s, j + 1, j + 1);
        }
    }
}

/// The computed probabilities of moving to a state below `m` grow with `m`.
proof fn lemma_cumulative_order(tm: TransitionMatrix, s: int, i: int, j: int)
    requires
        is_row(tm, s),
        0 <= i <= j <= tm.n,
    ensures
        0 <= chain::cumulative(tm, s, i).value() <= chain::cumulative(tm, s, j).value(),
    decreases j,
{
    order::lemma_sign(Double::zero());
    if j == 0 {
        assert(tm.data@[s]@.take(0).len() == 0);
    } else if i < j {
        lemma_cumulative_order(tm, s, i, j - 1);
        let (a, x) = (chain::cumulative(tm, s, j - 1), tm.at(s, j - 1));
        law_cumulative_is_exact(tm, s, j - 1);
        vector::lemma_sum_take(Double::zero(), tm.data@[s]@, j - 1);
        assert(x.is_finite());
        accuracy::lemma_number_sign(x);
        order::lemma_plus_order(a, Double::zero(), a, x);
        order::lemma_plus_zero(a, Double::zero());
    } else {
        lemma_cumulative_order(tm, s, i - 1, i - 1);
        let (a, x) = (chain::cumulative(tm, s, j - 1), tm.at(s, j - 1));
        law_cumulative_is_exact(tm, s, j - 1);
        vector::lemma_sum_take(Double::zero(), tm.data@[s]@, j - 1);
        assert(x.is_finite());
        accuracy::lemma_number_sign(x);
        order::lemma_plus_order(a, Double::zero(), a, x);
    }
}

/// From state `s`, the numbers that lead to `j` are just those strictly above the
/// computed sum of the probabilities of the states below `j` and at most the sum
/// with that of `j`.
pub proof fn law_number_between_sums(tm: TransitionMatrix, s: int, r: Double, j: int)
    requires
        is_row(tm, s),
        r.is_finite(),
        0 <= j < tm.n,
        chain::cumulative(tm, s, j).value() < r.value() <= chain::cumulative(
            tm,
            s,
            j + 1,
        ).value(),
    ensures
        chain::next_state(tm, s, r) == j,
{
    let (a, x) = (chain::cumulative(tm, s, j), tm.at(s, j));
    order::lemma_sign(Double::zero());
    order::lemma_sign(x);
    assert(x.is_finite());
    accuracy::lemma_number_sign(x);
    law_cumulative_is_exact(tm, s, j);
    law_cumulative_is_exact(tm, s, j + 1);
    vector::lemma_sum_take(Double::zero(), tm.data@[s]@, j);
    if x.is_zero() {
        order::lemma_plus_zero(a, x);
    }
    assert forall|i: int| 0 <= i < j implies !#[trigger] chain::admits(tm, s, r, i) by {
        lemma_cumulative_order(tm, s, i + 1, j);
    }
    assert(chain::falls_to(tm, s, r, j));
    lemma_falls_once(tm, s, r, j);
}

/// How many grains there are, two to the power 53: the drawn numbers are the multiples
/// of their inverse in `[0, 1)`, and each stands for as many 64-bit numbers.
pub const GRAINS: u64 = 9_007_199_254_740_992;

/// The number of grains that a drawn 64-bit number stands for.
pub proof fn law_drawn_number(draw: u64)
    ensures
        chain::unit_number(draw).is_finite(),
        precision::number(chain::unit_number(draw)) * GRAINS as real == (draw as nat / 2048) as real,
{
    let r = chain::unit_number(draw);
    laws::law_unit_number(draw);
    order::lemma_sign(Double::zero());
    lemma_unit_finite(draw);
    precision::lemma_number(r);
    precision::lemma_tiny();
    lemma2_to64_rest();
    lemma_pow2_adds(53, 1021);
    lemma_pow2_pos(1021);
    let (c, p, t, o) = (
        (draw as nat / 2048) as real,
        pow2(1021) as real,
        precision::tiny(),
        binary64::one() as real,
    );
    let (grains, grain) = (draw as nat / 2048, pow2(1021));
    assert((grains * grain) as real == grains as real * grain as real) by (nonlinear_arith);
    assert((0x20_0000_0000_0000 * pow2(1021)) as real == 9_007_199_254_740_992 as real * p);
    assert(((c * p) * t) * 9_007_199_254_740_992 as real == c) by (nonlinear_arith)
        requires
            t * o == 1 as real,
            o == 9_007_199_254_740_992 as real * p,
    ;
}

/// A drawn number is finite.
proof fn lemma_unit_finite(draw: u64)
    ensures
        chain::unit_number(draw).is_finite(),
{
    let r = chain::unit_number(draw);
    laws::law_unit_number(draw);
    double::lemma_one();
    order::lemma_sign(r);
    order::lemma_sign(Double::one());
    if !r.is_finite() {
        binary64::lemma_scaled_order(Double::one().magnitude(), r.magnitude());
    }
}

/// Whether a draw of `c` grains leads from state `s` to state `j`.
pub open spec fn leads(tm: TransitionMatrix, s: int, c: nat, j: int) -> bool {
    chain::next_state(tm, s, chain::unit_number((c * 2048) as u64)) == j
}

/// How many of the draws of less than `m` grains lead from state `s` to state `j`.
pub open spec fn draws_leading_to(tm: TransitionMatrix, s: int, j: int, m: nat) -> nat
    decreases m,
{
    if m == 0 {
        0
    } else {
        draws_leading_to(tm, s, j, (m - 1) as nat) + if leads(tm, s, (m - 1) as nat, j) {
            1nat
        } else {
            0
        }
    }
}

/// At least the numbers above `a` and up to `b` are counted.
proof fn lemma_count_at_least(tm: TransitionMatrix, s: int, j: int, m: nat, a: real, b: real)
    requires
        a >= 0 as real,
        forall|c: nat|
            c < m && a < c as real && c as real <= b ==> #[trigger] leads(tm, s, c, j),
    ensures
        m as real - 1 as real <= b ==> draws_leading_to(tm, s, j, m) as real >= m as real
            - 1 as real - a,
        m as real - 1 as real > b ==> draws_leading_to(tm, s, j, m) as real >= b - a - 1 as real,
    decreases m,
{
    if m > 0 {
        let c = (m - 1) as nat;
        lemma_count_at_least(tm, s, j, c, a, b);
        assert(leads(tm, s, c, j) || !leads(tm, s, c, j));
    }
}

/// At most the numbers from `a` to `b`, and those from `d` on, are counted.
proof fn lemma_count_at_most(
    tm: TransitionMatrix,
    s: int,
    j: int,
    m: nat,
    a: real,
    b: real,
    d: real,
)
    requires
        a <= b,
        forall|c: nat|
            c < m && #[trigger] leads(tm, s, c, j) ==> a <= c as real && c as real <= b || d
                <= c as real,
    ensures
        draws_leading_to(tm, s, j, m) as real <= above_zero(m as real - a) + above_zero(
            m as real - d,
        ),
        draws_leading_to(tm, s, j, m) as real <= b - a + 1 as real + above_zero(m as real - d),
    decreases m,
{
    if m > 0 {
        let c = (m - 1) as nat;
        lemma_count_at_most(tm, s, j, c, a, b, d);
        assert(leads(tm, s, c, j) || !leads(tm, s, c, j));
    }
}

/// The order of a number and its bounds is that of their grains.
proof fn lemma_grains(x: real, c: real, low: real, high: real)
    requires
        x * 9_007_199_254_740_992 as real == c,
    ensures
        low < x <==> 9_007_199_254_740_992 as real * low < c,
        x <= high <==> c <= 9_007_199_254_740_992 as real * high,
        0 as real <= x <==> 0 as real <= c,
{
}

/// A number, or zero if it is below.
spec fn above_zero(x: real) -> real {
    if x > 0 as real {
        x
    } else {
        0 as real
    }
}

/// From state `s`, the share of the drawn numbers that lead to `j` is the probability
/// of moving there, up to rounding and what the row differs from one.
pub proof fn law_share_of_draws_is_the_probability(tm: TransitionMatrix, s: int, j: int)
    requires
        is_row(tm, s),
        0 <= j < tm.n,
    ensures
        precision::size(
            draws_leading_to(tm, s, j, GRAINS as nat) as real - GRAINS as real * precision::number(
                tm.at(s, j),
            ),
        ) <= GRAINS as real * (3 as real * slack(tm, s) + precision::size(
            below(tm, s, tm.n as int) - 1 as real,
        )) + 2 as real,
{
    let n = 9_007_199_254_740_992 as real;
    assert(GRAINS as real == n);
    let w = slack(tm, s);
    let (x, y, z) = (below(tm, s, j), below(tm, s, j + 1), below(tm, s, tm.n as int));
    lemma_below(tm, s, j, j);
    lemma_below(tm, s, j + 1, tm.n as int);
    let (a, b) = (n * (x + w), n * (y - w));
    let (a2, b2, d) = (n * (x - w), n * (y + w), n * (z - w));
    assert forall|c: nat|
        c < GRAINS && a < c as real && c as real <= b implies #[trigger] leads(tm, s, c, j) by {
        let r = chain::unit_number((c * 2048) as u64);
        law_drawn_number((c * 2048) as u64);
        assert(precision::number(r) * n == c as real);
        lemma_grains(precision::number(r), c as real, x + w, y - w);
        law_number_leads_to_its_state(tm, s, r, j);
    }
    assert forall|c: nat| c < GRAINS && #[trigger] leads(tm, s, c, j) implies a2 <= c as real
        && c as real <= b2 || d <= c as real by {
        let r = chain::unit_number((c * 2048) as u64);
        law_drawn_number((c * 2048) as u64);
        assert(precision::number(r) * n == c as real);
        lemma_grains(precision::number(r), c as real, x - w, y + w);
        lemma_grains(precision::number(r), c as real, z - w, 0 as real);
        if precision::number(r) < z - w {
            law_number_lies_at_its_state(tm, s, r);
        }
    }
    lemma_count_at_least(tm, s, j, GRAINS as nat, a, b);
    lemma_count_at_most(tm, s, j, GRAINS as nat, a2, b2, d);
}

/// A simulation starts in its initial state, and each draw moves it on: where the
/// number drawn lies clearly between the exact probabilities of a state below `j` and
/// of a state up to `j`, the chain is in `j` next.
pub proof fn law_simulation_goes_where_draws_lead(
    tm: TransitionMatrix,
    draws: Map<nat, u64>,
    s0: int,
    t: nat,
    j: int,
)
    requires
        is_row(tm, chain::state_after(tm, draws, s0, t)),
        0 <= j < tm.n,
        below(tm, chain::state_after(tm, draws, s0, t), j) + slack(
            tm,
            chain::state_after(tm, draws, s0, t),
        ) < precision::number(chain::unit_number(draws[t])),
        precision::number(chain::unit_number(draws[t])) <= below(
            tm,
            chain::state_after(tm, draws, s0, t),
            j + 1,
        ) - slack(tm, chain::state_after(tm, draws, s0, t)),
    ensures
        chain::state_after(tm, draws, s0, 0) == s0,
        chain::state_after(tm, draws, s0, t + 1) == j,
{
    assert((t + 1 - 1) as nat == t);
    law_drawn_number(draws[t]);
    law_number_leads_to_its_state(
        tm,
        chain::state_after(tm, draws, s0, t),
        chain::unit_number(draws[t]),
        j,
    );
}

} // verus!
