//! The Wasserstein distance as the least cost of transport.
//!
//! A plan says how much of the mass of each state is carried to each state. Its
//! cost counts the mass by how far it is carried on the line of states.

use vstd::prelude::*;

use crate::accuracy;
use crate::averages;
use crate::double::Double;
use crate::measures;
use crate::precision;

verus! {

/// How far apart two states are.
pub open spec fn distance(i: int, j: int) -> real {
    precision::size((i - j) as real)
}

/// What the plan carries from state `i` to the states below `b`.
pub open spec fn carried_from(plan: spec_fn(int, int) -> real, i: int, b: nat) -> real {
    precision::sum_of(|j: int| plan(i, j), b)
}

/// What the plan carries from the states below `a` to state `j`.
pub open spec fn carried_to(plan: spec_fn(int, int) -> real, a: nat, j: int) -> real {
    precision::sum_of(|i: int| plan(i, j), a)
}

/// Whether the plan carries the masses `f` of `n` states to the masses `g`.
pub open spec fn is_plan(
    plan: spec_fn(int, int) -> real,
    f: spec_fn(int) -> real,
    g: spec_fn(int) -> real,
    n: nat,
) -> bool {
    &&& forall|i: int, j: int|
        0 <= i < n && 0 <= j < n ==> #[trigger] plan(i, j) >= 0 as real
    &&& forall|i: int| 0 <= i < n ==> #[trigger] carried_from(plan, i, n) == f(i)
    &&& forall|j: int| 0 <= j < n ==> #[trigger] carried_to(plan, n, j) == g(j)
}

/// The cost of a plan: all that it carries, times how far.
pub open spec fn cost(plan: spec_fn(int, int) -> real, n: nat) -> real {
    precision::sum_of(
        |i: int| precision::sum_of(|j: int| distance(i, j) * plan(i, j), n),
        n,
    )
}

/// The sum of the distances of the exact distribution functions.
pub open spec fn gap_sum(f: spec_fn(int) -> real, g: spec_fn(int) -> real, n: nat) -> real {
    precision::sum_of(
        |k: int|
            precision::size(
                precision::sum_of(f, (k + 1) as nat) - precision::sum_of(g, (k + 1) as nat),
            ),
        n,
    )
}

/// What the plan carries from the states below `a` to the states below `b`.
spec fn block(plan: spec_fn(int, int) -> real, a: nat, b: nat) -> real {
    precision::sum_of(|i: int| carried_from(plan, i, b), a)
}

/// One if the way from `i` to `j` crosses the border behind state `k`.
spec fn crossing(i: int, j: int, k: int) -> real {
    if (i <= k) != (j <= k) {
        1 as real
    } else {
        0 as real
    }
}

/// The lesser of a number of states and a state.
spec fn cut(i: int, m: nat) -> int {
    if i < m {
        i
    } else {
        m as int
    }
}

/// The borders that a way crosses are as many as it is long.
proof fn lemma_crossings(i: int, j: int, m: nat)
    requires
        0 <= i,
        0 <= j,
    ensures
        precision::sum_of(|k: int| crossing(i, j, k), m) == distance(cut(i, m), cut(j, m)),
    decreases m,
{
    if m > 0 {
        lemma_crossings(i, j, (m - 1) as nat);
    }
}

/// A sum whose terms are of one kind up to `a` and of another kind from there on.
proof fn lemma_parts(
    f: spec_fn(int) -> real,
    g: spec_fn(int) -> real,
    h: spec_fn(int) -> real,
    a: nat,
    n: nat,
)
    requires
        a <= n,
        forall|i: int| 0 <= i < a ==> #[trigger] h(i) == f(i),
        forall|i: int| a <= i < n ==> #[trigger] h(i) == g(i),
    ensures
        precision::sum_of(h, n) == precision::sum_of(f, a) + precision::sum_of(g, n)
            - precision::sum_of(g, a),
    decreases n,
{
    if n == a {
        precision::lemma_sum_same(h, f, n);
    } else {
        lemma_parts(f, g, h, a, (n - 1) as nat);
        assert(h(n - 1) == g(n - 1));
    }
}

/// What crosses the border behind state `k` is what is on either side of it, less
/// what stays on its side.
proof fn lemma_border(
    plan: spec_fn(int, int) -> real,
    f: spec_fn(int) -> real,
    g: spec_fn(int) -> real,
    n: nat,
    k: int,
)
    requires
        is_plan(plan, f, g, n),
        0 <= k < n,
    ensures
        precision::sum_of(
            |i: int| precision::sum_of(|j: int| crossing(i, j, k) * plan(i, j), n),
            n,
        ) == precision::sum_of(f, (k + 1) as nat) + precision::sum_of(g, (k + 1) as nat)
            - 2 as real * block(plan, (k + 1) as nat, (k + 1) as nat),
{
    let a = (k + 1) as nat;
    let part = |i: int| carried_from(plan, i, a);
    let rest = |i: int| f(i) - part(i);
    let rows = |i: int| precision::sum_of(|j: int| crossing(i, j, k) * plan(i, j), n);
    let none = |j: int| 0 as real;
    precision::lemma_sum_equal(none, 0 as real, a);
    precision::lemma_sum_equal(none, 0 as real, n);
    assert(a as real * 0 as real == 0 as real && n as real * 0 as real == 0 as real)
        by (nonlinear_arith);
    assert forall|i: int| 0 <= i < n implies #[trigger] rows(i) == if i < a {
        rest(i)
    } else {
        part(i)
    } by {
        let row = |j: int| plan(i, j);
        let terms = |j: int| crossing(i, j, k) * plan(i, j);
        assert forall|j: int| 0 <= j < n implies #[trigger] terms(j) == if (i < a) == (j < a) {
            0 as real
        } else {
            row(j)
        } by {
            let x = plan(i, j);
            assert(0 as real * x == 0 as real && 1 as real * x == x) by (nonlinear_arith);
        }
        assert(carried_from(plan, i, n) == f(i));
        if i < a {
            lemma_parts(none, row, terms, a, n);
        } else {
            lemma_parts(row, none, terms, a, n);
        }
    }
    lemma_parts(rest, part, rows, a, n);
    let minus = |i: int| (-1) as real * part(i);
    assert forall|i: int| 0 <= i < a implies #[trigger] rest(i) == f(i) + minus(i) by {
        let x = part(i);
        assert((-1) as real * x == -x) by (nonlinear_arith);
    }
    precision::lemma_sum_plus(f, minus, rest, a);
    precision::lemma_sum_scale(part, (-1) as real, minus, a);
    let p = precision::sum_of(part, a);
    assert((-1) as real * p == -p) by (nonlinear_arith);
    // All that is carried to the states up to k is what they have in the end.
    precision::lemma_sum_swap(plan, n, a);
    let columns = |j: int| precision::sum_of(|i: int| plan(i, j), n);
    assert forall|j: int| 0 <= j < a implies #[trigger] columns(j) == g(j) by {
        assert(carried_to(plan, n, j) == g(j));
    }
    precision::lemma_sum_same(columns, g, a);
    assert(part =~= (|i: int| precision::sum_of(|j: int| plan(i, j), a)));
}

/// The cost of a plan, border by border.
proof fn lemma_cost(
    plan: spec_fn(int, int) -> real,
    f: spec_fn(int) -> real,
    g: spec_fn(int) -> real,
    n: nat,
)
    requires
        is_plan(plan, f, g, n),
    ensures
        cost(plan, n) == precision::sum_of(
            |k: int|
                precision::sum_of(f, (k + 1) as nat) + precision::sum_of(g, (k + 1) as nat)
                    - 2 as real * block(plan, (k + 1) as nat, (k + 1) as nat),
            n,
        ),
{
    let borders = |k: int|
        precision::sum_of(f, (k + 1) as nat) + precision::sum_of(g, (k + 1) as nat) - 2 as real
            * block(plan, (k + 1) as nat, (k + 1) as nat);
    // Row i, crossing border k.
    let at = |i: int, k: int| precision::sum_of(|j: int| crossing(i, j, k) * plan(i, j), n);
    let rows = |i: int| precision::sum_of(|k: int| at(i, k), n);
    let costs = |i: int| precision::sum_of(|j: int| distance(i, j) * plan(i, j), n);
    assert forall|i: int| 0 <= i < n implies #[trigger] costs(i) == rows(i) by {
        let moves = |j: int, k: int| crossing(i, j, k) * plan(i, j);
        let terms = |j: int| distance(i, j) * plan(i, j);
        let spread = |j: int| precision::sum_of(|k: int| moves(j, k), n);
        assert forall|j: int| 0 <= j < n implies #[trigger] terms(j) == spread(j) by {
            lemma_crossings(i, j, n);
            let crossed = |k: int| crossing(i, j, k);
            let x = plan(i, j);
            let weighted = |k: int| moves(j, k);
            assert forall|k: int| 0 <= k < n implies #[trigger] weighted(k) == x * crossed(k) by {
                let c = crossing(i, j, k);
                assert(c * x == x * c) by (nonlinear_arith);
            }
            precision::lemma_sum_scale(crossed, x, weighted, n);
            let d = distance(i, j);
            assert(x * d == d * x) by (nonlinear_arith);
        }
        precision::lemma_sum_same(terms, spread, n);
        precision::lemma_sum_swap(moves, n, n);
        let swapped = |k: int| precision::sum_of(|j: int| moves(j, k), n);
        let row = |k: int| at(i, k);
        assert forall|k: int| 0 <= k < n implies #[trigger] swapped(k) == row(k) by {
            precision::lemma_sum_same(
                |j: int| moves(j, k),
                |j: int| crossing(i, j, k) * plan(i, j),
                n,
            );
        }
        precision::lemma_sum_same(swapped, row, n);
    }
    precision::lemma_sum_same(costs, rows, n);
    precision::lemma_sum_swap(at, n, n);
    let columns = |k: int| precision::sum_of(|i: int| at(i, k), n);
    assert forall|k: int| 0 <= k < n implies #[trigger] columns(k) == borders(k) by {
        lemma_border(plan, f, g, n, k);
        precision::lemma_sum_same(
            |i: int| at(i, k),
            |i: int| precision::sum_of(|j: int| crossing(i, j, k) * plan(i, j), n),
            n,
        );
    }
    precision::lemma_sum_same(columns, borders, n);
}

/// What stays on one side of a border is not more than what is there.
proof fn lemma_block(
    plan: spec_fn(int, int) -> real,
    f: spec_fn(int) -> real,
    g: spec_fn(int) -> real,
    n: nat,
    a: nat,
)
    requires
        is_plan(plan, f, g, n),
        a <= n,
    ensures
        block(plan, a, a) <= precision::sum_of(f, a),
        block(plan, a, a) <= precision::sum_of(g, a),
{
    let part = |i: int| carried_from(plan, i, a);
    assert forall|i: int| 0 <= i < a implies #[trigger] part(i) <= f(i) by {
        let row = |j: int| plan(i, j);
        assert forall|j: int| 0 <= j < n implies #[trigger] row(j) >= 0 as real by {
            assert(plan(i, j) >= 0 as real);
        }
        averages::lemma_prefix(row, a, n);
        assert(carried_from(plan, i, n) == f(i));
    }
    precision::lemma_sum_order(part, f, a);
    precision::lemma_sum_swap(plan, a, a);
    let columns = |j: int| precision::sum_of(|i: int| plan(i, j), a);
    assert forall|j: int| 0 <= j < a implies #[trigger] columns(j) <= g(j) by {
        let column = |i: int| plan(i, j);
        assert forall|i: int| 0 <= i < n implies #[trigger] column(i) >= 0 as real by {
            assert(plan(i, j) >= 0 as real);
        }
        averages::lemma_prefix(column, a, n);
        assert(carried_to(plan, n, j) == g(j));
    }
    precision::lemma_sum_order(columns, g, a);
    assert(part =~= (|i: int| precision::sum_of(|j: int| plan(i, j), a)));
}

/// No plan costs less than the sum of the distances of the distribution functions.
pub proof fn law_no_plan_costs_less(
    plan: spec_fn(int, int) -> real,
    f: spec_fn(int) -> real,
    g: spec_fn(int) -> real,
    n: nat,
)
    requires
        is_plan(plan, f, g, n),
    ensures
        gap_sum(f, g, n) <= cost(plan, n),
{
    lemma_cost(plan, f, g, n);
    let gaps = |k: int|
        precision::size(
            precision::sum_of(f, (k + 1) as nat) - precision::sum_of(g, (k + 1) as nat),
        );
    let borders = |k: int|
        precision::sum_of(f, (k + 1) as nat) + precision::sum_of(g, (k + 1) as nat) - 2 as real
            * block(plan, (k + 1) as nat, (k + 1) as nat);
    assert forall|k: int| 0 <= k < n implies #[trigger] gaps(k) <= borders(k) by {
        lemma_block(plan, f, g, n, (k + 1) as nat);
    }
    precision::lemma_sum_order(gaps, borders, n);
}

/// The lesser of the masses of the first `i` states and of the first `j` states.
pub open spec fn common(
    f: spec_fn(int) -> real,
    g: spec_fn(int) -> real,
    i: nat,
    j: nat,
) -> real {
    if precision::sum_of(f, i) <= precision::sum_of(g, j) {
        precision::sum_of(f, i)
    } else {
        precision::sum_of(g, j)
    }
}

/// The plan that keeps the order: the first mass goes to the first place.
pub open spec fn ordered_plan(f: spec_fn(int) -> real, g: spec_fn(int) -> real) -> spec_fn(
    int,
    int,
) -> real {
    |i: int, j: int|
        common(f, g, (i + 1) as nat, (j + 1) as nat) - common(f, g, i as nat, (j + 1) as nat)
            - common(f, g, (i + 1) as nat, j as nat) + common(f, g, i as nat, j as nat)
}

/// What the ordered plan carries from state `i` to the states below `b`.
proof fn lemma_ordered_row(f: spec_fn(int) -> real, g: spec_fn(int) -> real, i: nat, b: nat, n: nat)
    requires
        i < n,
        b <= n,
        forall|k: int| 0 <= k < n ==> #[trigger] f(k) >= 0 as real,
    ensures
        carried_from(ordered_plan(f, g), i as int, b) == common(f, g, i + 1, b) - common(
            f,
            g,
            i,
            b,
        ),
    decreases b,
{
    if b == 0 {
        averages::lemma_prefix(f, i, n);
        averages::lemma_prefix(f, i + 1, n);
    } else {
        lemma_ordered_row(f, g, i, (b - 1) as nat, n);
        let row = |j: int| ordered_plan(f, g)(i as int, j);
        assert(precision::sum_of(row, b) == precision::sum_of(row, (b - 1) as nat) + row(b - 1));
    }
}

/// What the ordered plan carries from the states below `a` to state `j`.
proof fn lemma_ordered_column(
    f: spec_fn(int) -> real,
    g: spec_fn(int) -> real,
    a: nat,
    j: nat,
    n: nat,
)
    requires
        j < n,
        a <= n,
        forall|k: int| 0 <= k < n ==> #[trigger] g(k) >= 0 as real,
    ensures
        carried_to(ordered_plan(f, g), a, j as int) == common(f, g, a, j + 1) - common(f, g, a, j),
    decreases a,
{
    if a == 0 {
        averages::lemma_prefix(g, j, n);
        averages::lemma_prefix(g, j + 1, n);
    } else {
        lemma_ordered_column(f, g, (a - 1) as nat, j, n);
        let column = |i: int| ordered_plan(f, g)(i, j as int);
        assert(precision::sum_of(column, a) == precision::sum_of(column, (a - 1) as nat) + column(
            a - 1,
        ));
    }
}

/// What the ordered plan carries from the states below `a` to the states below `b`.
proof fn lemma_ordered_block(
    f: spec_fn(int) -> real,
    g: spec_fn(int) -> real,
    a: nat,
    b: nat,
    n: nat,
)
    requires
        a <= n,
        b <= n,
        forall|k: int| 0 <= k < n ==> #[trigger] f(k) >= 0 as real,
        forall|k: int| 0 <= k < n ==> #[trigger] g(k) >= 0 as real,
    ensures
        block(ordered_plan(f, g), a, b) == common(f, g, a, b),
    decreases a,
{
    if a == 0 {
        averages::lemma_prefix(g, b, n);
    } else {
        lemma_ordered_block(f, g, (a - 1) as nat, b, n);
        lemma_ordered_row(f, g, (a - 1) as nat, b, n);
    }
}

/// The ordered plan carries masses not below zero to others of the same sum, and
/// costs the sum of the distances of the distribution functions.
pub proof fn law_ordered_plan_costs_least(
    f: spec_fn(int) -> real,
    g: spec_fn(int) -> real,
    n: nat,
)
    requires
        forall|k: int| 0 <= k < n ==> #[trigger] f(k) >= 0 as real,
        forall|k: int| 0 <= k < n ==> #[trigger] g(k) >= 0 as real,
        precision::sum_of(f, n) == precision::sum_of(g, n),
    ensures
        is_plan(ordered_plan(f, g), f, g, n),
        cost(ordered_plan(f, g), n) == gap_sum(f, g, n),
{
    let plan = ordered_plan(f, g);
    assert forall|i: int, j: int| 0 <= i < n && 0 <= j < n implies #[trigger] plan(i, j)
        >= 0 as real by {
        assert(f(i) >= 0 as real && g(j) >= 0 as real);
        assert(precision::sum_of(f, (i + 1) as nat) == precision::sum_of(f, i as nat) + f(i));
        assert(precision::sum_of(g, (j + 1) as nat) == precision::sum_of(g, j as nat) + g(j));
    }
    assert forall|i: int| 0 <= i < n implies #[trigger] carried_from(plan, i, n) == f(i) by {
        lemma_ordered_row(f, g, i as nat, n, n);
        averages::lemma_prefix(f, i as nat, n);
        averages::lemma_prefix(f, (i + 1) as nat, n);
        assert(precision::sum_of(f, (i + 1) as nat) == precision::sum_of(f, i as nat) + f(i));
    }
    assert forall|j: int| 0 <= j < n implies #[trigger] carried_to(plan, n, j) == g(j) by {
        lemma_ordered_column(f, g, n, j as nat, n);
        averages::lemma_prefix(g, j as nat, n);
        averages::lemma_prefix(g, (j + 1) as nat, n);
        assert(precision::sum_of(g, (j + 1) as nat) == precision::sum_of(g, j as nat) + g(j));
    }
    lemma_cost(plan, f, g, n);
    let gaps = |k: int|
        precision::size(
            precision::sum_of(f, (k + 1) as nat) - precision::sum_of(g, (k + 1) as nat),
        );
    let borders = |k: int|
        precision::sum_of(f, (k + 1) as nat) + precision::sum_of(g, (k + 1) as nat) - 2 as real
            * block(plan, (k + 1) as nat, (k + 1) as nat);
    assert forall|k: int| 0 <= k < n implies #[trigger] gaps(k) == borders(k) by {
        lemma_ordered_block(f, g, (k + 1) as nat, (k + 1) as nat, n);
    }
    precision::lemma_sum_same(gaps, borders, n);
}

/// What the computed Wasserstein distance of probability vectors over `n` states may
/// be off by.
pub open spec fn distance_slack(n: nat) -> real {
    4 as real * (n as real * precision::growth(n + 2))
}

/// The computed Wasserstein distance, against the sum of the distances of the exact
/// distribution functions.
proof fn lemma_distance_near_gaps(mu: Seq<Double>, nu: Seq<Double>)
    requires
        accuracy::is_probability_vector(mu),
        accuracy::is_probability_vector(nu),
        mu.len() == nu.len(),
        mu.len() <= precision::LENGTH_LIMIT,
    ensures
        measures::wasserstein(mu, nu).is_finite(),
        precision::size(
            precision::number(measures::wasserstein(mu, nu)) - gap_sum(
                precision::numbers(mu),
                precision::numbers(nu),
                mu.len(),
            ),
        ) <= distance_slack(mu.len()),
        mu.len() <= 1_000 ==> distance_slack(mu.len()) * 1_000_000_000 as real <= 1 as real,
{
    let n = mu.len();
    let (f, g) = (precision::numbers(mu), precision::numbers(nu));
    averages::lemma_distance_finite(mu, nu);
    averages::lemma_distance_error(mu, nu);
    averages::lemma_distance_share(n, averages::exact_distance(mu, nu, n));
    averages::lemma_thousand(n);
    let computed = |k: int|
        precision::size(
            precision::number(measures::cdf(mu, k)) - precision::number(measures::cdf(nu, k)),
        );
    let exact = |k: int|
        precision::size(
            precision::sum_of(f, (k + 1) as nat) - precision::sum_of(g, (k + 1) as nat),
        );
    precision::lemma_growth(n);
    precision::lemma_growth(n + 1);
    let k = precision::growth(n + 2);
    let c = 5 as real / 2 as real * k;
    let errors = |i: int| c;
    assert forall|i: int| 0 <= i < n implies precision::size(#[trigger] computed(i) - exact(i))
        <= errors(i) by {
        averages::lemma_cdf(mu, i);
        averages::lemma_cdf(nu, i);
        averages::lemma_cdf_bound(mu, i);
        averages::lemma_cdf_bound(nu, i);
        assert(2 as real * c == 5 as real * k) by (nonlinear_arith)
            requires
                c == 5 as real / 2 as real * k,
        ;
    }
    precision::lemma_sum_difference(computed, exact, errors, n);
    precision::lemma_sum_equal(errors, c, n);
    let l = n as real;
    assert((l * c) * 2 as real == 5 as real * (l * k)) by (nonlinear_arith)
        requires
            c == 5 as real / 2 as real * k,
    ;
}

/// The Wasserstein distance of two probability vectors is the least cost of carrying
/// one to the other: no plan costs less, and where their masses are equal, the
/// ordered plan costs no more. Rounding adds at most `distance_slack`, for up to a
/// thousand states at most ten to the power -9.
pub proof fn law_wasserstein_is_least_cost(mu: Seq<Double>, nu: Seq<Double>)
    requires
        accuracy::is_probability_vector(mu),
        accuracy::is_probability_vector(nu),
        mu.len() == nu.len(),
        mu.len() <= precision::LENGTH_LIMIT,
    ensures
        measures::wasserstein(mu, nu).is_finite(),
        forall|plan: spec_fn(int, int) -> real| #[trigger]
            is_plan(plan, precision::numbers(mu), precision::numbers(nu), mu.len())
                ==> precision::number(measures::wasserstein(mu, nu)) - distance_slack(mu.len())
                <= cost(plan, mu.len()),
        accuracy::mass(mu) == accuracy::mass(nu) ==> {
            let plan = ordered_plan(precision::numbers(mu), precision::numbers(nu));
            &&& is_plan(plan, precision::numbers(mu), precision::numbers(nu), mu.len())
            &&& cost(plan, mu.len()) <= precision::number(measures::wasserstein(mu, nu))
                + distance_slack(mu.len())
        },
        mu.len() <= 1_000 ==> distance_slack(mu.len()) * 1_000_000_000 as real <= 1 as real,
{
    let n = mu.len();
    let (f, g) = (precision::numbers(mu), precision::numbers(nu));
    lemma_distance_near_gaps(mu, nu);
    assert forall|plan: spec_fn(int, int) -> real| #[trigger] is_plan(plan, f, g, n) implies
        precision::number(measures::wasserstein(mu, nu)) - distance_slack(n) <= cost(plan, n) by {
        law_no_plan_costs_less(plan, f, g, n);
    }
    assert forall|k: int| 0 <= k < n implies #[trigger] f(k) >= 0 as real by {
        accuracy::lemma_fractional(mu[k]);
    }
    assert forall|k: int| 0 <= k < n implies #[trigger] g(k) >= 0 as real by {
        accuracy::lemma_fractional(nu[k]);
    }
    if accuracy::mass(mu) == accuracy::mass(nu) {
        law_ordered_plan_costs_least(f, g, n);
    }
}

/// The entries of a vector as shares of its mass.
pub open spec fn shares(mu: Seq<Double>) -> spec_fn(int) -> real {
    |i: int| precision::number(mu[i]) / accuracy::mass(mu)
}

/// The shares of a probability vector add up to one, and their distribution function
/// is near that of the entries.
proof fn lemma_shares(mu: Seq<Double>, k: nat)
    requires
        accuracy::is_probability_vector(mu),
        k <= mu.len(),
    ensures
        precision::sum_of(shares(mu), mu.len()) == 1 as real,
        forall|i: int| 0 <= i < mu.len() ==> #[trigger] shares(mu)(i) >= 0 as real,
        precision::size(
            precision::sum_of(shares(mu), k) - precision::sum_of(precision::numbers(mu), k),
        ) * 1_000_000_000_000 as real <= 1 as real,
{
    let n = mu.len();
    let (f, m) = (precision::numbers(mu), accuracy::mass(mu));
    let w = 1 as real / m;
    assert(w > 0 as real && w * m == 1 as real) by (nonlinear_arith)
        requires
            w == 1 as real / m,
            m > 0 as real,
    ;
    assert forall|i: int| 0 <= i < n implies #[trigger] f(i) >= 0 as real by {
        accuracy::lemma_fractional(mu[i]);
    }
    assert forall|i: int| 0 <= i < n implies #[trigger] shares(mu)(i) == w * f(i) && shares(mu)(i)
        >= 0 as real by {
        let x = f(i);
        assert(x >= 0 as real);
        assert(x / m == w * x && w * x >= 0 as real) by (nonlinear_arith)
            requires
                w == 1 as real / m,
                w > 0 as real,
                m > 0 as real,
                x >= 0 as real,
        ;
    }
    precision::lemma_sum_scale(f, w, shares(mu), n);
    precision::lemma_sum_scale(f, w, shares(mu), k);
    averages::lemma_prefix(f, k, n);
    let x = precision::sum_of(f, k);
    let (y, d) = (w * x, 1 as real - m);
    assert(y - x == y * d && 0 as real <= y && y <= 1 as real) by (nonlinear_arith)
        requires
            y == w * x,
            d == 1 as real - m,
            w * m == 1 as real,
            w > 0 as real,
            0 as real <= x,
            x <= m,
    ;
    precision::lemma_product_size(y, d);
    let z = precision::size(d);
    assert(y * z <= z) by (nonlinear_arith)
        requires
            y <= 1 as real,
            0 as real <= z,
    ;
}

/// What the computed Wasserstein distance may be off by, against the cost for the
/// shares of the mass.
pub open spec fn share_slack(n: nat) -> real {
    distance_slack(n) + 2 as real * (n as real / 1_000_000_000_000 as real)
}

/// The Wasserstein distance of any two probability vectors is the least cost of
/// carrying their shares of the mass, which add up to one exactly: no plan costs
/// less, and the ordered plan costs no more. Rounding and the masses add at most
/// `share_slack`, for up to 400 states at most ten to the power -9.
pub proof fn law_wasserstein_is_least_cost_of_shares(mu: Seq<Double>, nu: Seq<Double>)
    requires
        accuracy::is_probability_vector(mu),
        accuracy::is_probability_vector(nu),
        mu.len() == nu.len(),
        mu.len() <= precision::LENGTH_LIMIT,
    ensures
        measures::wasserstein(mu, nu).is_finite(),
        forall|plan: spec_fn(int, int) -> real| #[trigger]
            is_plan(plan, shares(mu), shares(nu), mu.len()) ==> precision::number(
                measures::wasserstein(mu, nu),
            ) - share_slack(mu.len()) <= cost(plan, mu.len()),
        is_plan(ordered_plan(shares(mu), shares(nu)), shares(mu), shares(nu), mu.len()),
        cost(ordered_plan(shares(mu), shares(nu)), mu.len()) <= precision::number(
            measures::wasserstein(mu, nu),
        ) + share_slack(mu.len()),
        mu.len() <= 400 ==> share_slack(mu.len()) * 1_000_000_000 as real <= 1 as real,
{
    let n = mu.len();
    let (f, g) = (shares(mu), shares(nu));
    lemma_distance_near_gaps(mu, nu);
    lemma_shares(mu, 0);
    lemma_shares(nu, 0);
    law_ordered_plan_costs_least(f, g, n);
    let exact = |k: int|
        precision::size(
            precision::sum_of(precision::numbers(mu), (k + 1) as nat) - precision::sum_of(
                precision::numbers(nu),
                (k + 1) as nat,
            ),
        );
    let gaps = |k: int|
        precision::size(
            precision::sum_of(f, (k + 1) as nat) - precision::sum_of(g, (k + 1) as nat),
        );
    let c = 2 as real / 1_000_000_000_000 as real;
    assert(c * 1_000_000_000_000 as real == 2 as real) by (nonlinear_arith)
        requires
            c == 2 as real / 1_000_000_000_000 as real,
    ;
    let errors = |k: int| c;
    assert forall|k: int| 0 <= k < n implies precision::size(#[trigger] gaps(k) - exact(k))
        <= errors(k) by {
        lemma_shares(mu, (k + 1) as nat);
        lemma_shares(nu, (k + 1) as nat);
    }
    precision::lemma_sum_difference(gaps, exact, errors, n);
    precision::lemma_sum_equal(errors, c, n);
    let l = n as real;
    let q = l / 1_000_000_000_000 as real;
    assert(l * c == 2 as real * q && q * 1_000_000_000_000 as real == l) by (nonlinear_arith)
        requires
            c * 1_000_000_000_000 as real == 2 as real,
            q == l / 1_000_000_000_000 as real,
    ;
    assert forall|plan: spec_fn(int, int) -> real| #[trigger] is_plan(plan, f, g, n) implies
        precision::number(measures::wasserstein(mu, nu)) - share_slack(n) <= cost(plan, n) by {
        law_no_plan_costs_less(plan, f, g, n);
    }
    precision::lemma_growth(n + 2);
    if n <= 400 {
        let k = precision::growth(n + 2);
        assert(l * k <= 400 as real * k) by (nonlinear_arith)
            requires
                l <= 400 as real,
                0 as real <= k,
        ;
    }
}

} // verus!
