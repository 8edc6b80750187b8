//! Reachability, periods and simulations, by the walks that the chain can make.

use vstd::prelude::*;

use crate::accuracy;
use crate::chain;
use crate::divisor;
use crate::double::Double;
use crate::laws;
use crate::matrix::TransitionMatrix;
use crate::order;
use crate::precision;
use crate::text;

verus! {

/// Whether a move has a positive probability.
pub open spec fn is_possible(p: Double) -> bool {
    !p.is_nan() && precision::number(p) > 0 as real
}

/// Whether the chain can be in these states one after the other.
pub open spec fn is_walk(tm: TransitionMatrix, walk: Seq<int>) -> bool {
    &&& walk.len() > 0
    &&& forall|t: int| 0 <= t < walk.len() ==> 0 <= #[trigger] walk[t] < tm.n
    &&& forall|t: int|
        0 < t < walk.len() ==> is_possible(tm.at(walk[t - 1], #[trigger] walk[t]))
}

/// Whether this is a walk from state `i` to state `j`.
pub open spec fn leads_from_to(tm: TransitionMatrix, walk: Seq<int>, i: int, j: int) -> bool {
    is_walk(tm, walk) && walk[0] == i && walk.last() == j
}

/// There is an edge just where both are states and the move has a positive
/// probability, however small.
pub proof fn law_edges_are_possible_moves(tm: TransitionMatrix, i: int, j: int)
    ensures
        tm.edge(i, j) <==> 0 <= i < tm.n && 0 <= j < tm.n && is_possible(tm.at(i, j)),
{
    order::lemma_sign(Double::zero());
    accuracy::lemma_number_sign(tm.at(i, j));
}

/// What takes some steps is a walk with so many moves.
pub proof fn law_steps_make_a_walk(tm: TransitionMatrix, i: int, j: int, k: nat) -> (walk: Seq<int>)
    requires
        tm.steps(i, j, k),
    ensures
        leads_from_to(tm, walk, i, j),
        walk.len() == k + 1,
    decreases k,
{
    if k == 0 {
        seq![i]
    } else {
        let u = choose|u: int| tm.steps(i, u, (k - 1) as nat) && #[trigger] tm.edge(u, j);
        let first = law_steps_make_a_walk(tm, i, u, (k - 1) as nat);
        law_edges_are_possible_moves(tm, u, j);
        let walk = first.push(j);
        assert forall|t: int| 0 <= t < walk.len() implies 0 <= #[trigger] walk[t] < tm.n by {
            if t < first.len() {
                assert(walk[t] == first[t]);
            }
        }
        assert forall|t: int| 0 < t < walk.len() implies is_possible(
            tm.at(walk[t - 1], #[trigger] walk[t]),
        ) by {
            assert(walk[t - 1] == first[t - 1]);
            if t < first.len() {
                assert(walk[t] == first[t]);
            }
        }
        assert(walk[0] == first[0]);
        walk
    }
}

/// A walk takes as many steps as it has moves.
pub proof fn law_walk_takes_steps(tm: TransitionMatrix, walk: Seq<int>, i: int, j: int)
    requires
        leads_from_to(tm, walk, i, j),
    ensures
        tm.steps(i, j, (walk.len() - 1) as nat),
    decreases walk.len(),
{
    assert(0 <= walk[0] < tm.n);
    if walk.len() > 1 {
        let first = walk.drop_last();
        let u = first.last();
        assert forall|t: int| 0 <= t < first.len() implies 0 <= #[trigger] first[t] < tm.n by {
            assert(first[t] == walk[t]);
        }
        assert forall|t: int| 0 < t < first.len() implies is_possible(
            tm.at(first[t - 1], #[trigger] first[t]),
        ) by {
            assert(first[t] == walk[t] && first[t - 1] == walk[t - 1]);
        }
        assert(first[0] == walk[0]);
        law_walk_takes_steps(tm, first, i, u);
        let t = walk.len() - 1;
        assert(0 <= walk[t] < tm.n && 0 <= walk[t - 1] < tm.n);
        assert(is_possible(tm.at(walk[t - 1], walk[t])));
        law_edges_are_possible_moves(tm, u, j);
        assert(tm.edge(u, j));
    }
}

/// Whether some walk leads from state `i` to state `j`.
pub open spec fn is_led(tm: TransitionMatrix, i: int, j: int) -> bool {
    exists|walk: Seq<int>| leads_from_to(tm, walk, i, j)
}

/// A state reaches another just where some walk leads there.
pub proof fn law_reaching_is_by_walks(tm: TransitionMatrix, i: int, j: int)
    ensures
        tm.reaches(i, j) <==> is_led(tm, i, j),
{
    if tm.reaches(i, j) {
        let k = choose|k: nat| tm.steps(i, j, k);
        let walk = law_steps_make_a_walk(tm, i, j, k);
    }
    if is_led(tm, i, j) {
        let walk = choose|walk: Seq<int>| leads_from_to(tm, walk, i, j);
        law_walk_takes_steps(tm, walk, i, j);
    }
}

/// A chain is irreducible just where a walk leads from every state to every state.
pub proof fn law_irreducible_is_by_walks(tm: TransitionMatrix)
    ensures
        tm.irreducible() <==> forall|i: int, j: int|
            0 <= i < tm.n && 0 <= j < tm.n ==> #[trigger] is_led(tm, i, j),
{
    assert forall|i: int, j: int| #[trigger] tm.reaches(i, j) <==> is_led(tm, i, j) by {
        law_reaching_is_by_walks(tm, i, j);
    }
    assert forall|i: int, j: int| #[trigger] is_led(tm, i, j) <==> tm.reaches(i, j) by {
        law_reaching_is_by_walks(tm, i, j);
    }
}

/// The first state that state 0 does not reach is the first that no walk leads to, and
/// the first that does not reach state 0 is the first that no walk leads back from.
pub proof fn law_first_out_of_reach(tm: TransitionMatrix, i: int)
    ensures
        chain::first_unreached(tm, i) <==> 0 <= i < tm.n && !is_led(tm, 0, i) && forall|j: int|
            0 <= j < i ==> #[trigger] is_led(tm, 0, j),
        chain::first_stranded(tm, i) <==> 0 <= i < tm.n && !is_led(tm, i, 0) && forall|j: int|
            0 <= j < i ==> #[trigger] is_led(tm, j, 0),
        chain::all_reached(tm) <==> forall|j: int| 0 <= j < tm.n ==> #[trigger] is_led(tm, 0, j),
{
    assert forall|i: int, j: int| #[trigger] tm.reaches(i, j) <==> is_led(tm, i, j) by {
        law_reaching_is_by_walks(tm, i, j);
    }
    assert forall|i: int, j: int| #[trigger] is_led(tm, i, j) <==> tm.reaches(i, j) by {
        law_reaching_is_by_walks(tm, i, j);
    }
}

/// Whether this is a walk from state `s` back to it, with at least one move.
pub open spec fn is_round(tm: TransitionMatrix, walk: Seq<int>, s: int) -> bool {
    leads_from_to(tm, walk, s, s) && walk.len() > 1
}

/// Whether the number of moves of every walk from state `s` back to it is a multiple
/// of `d`.
pub open spec fn divides_rounds(tm: TransitionMatrix, s: int, d: nat) -> bool {
    forall|walk: Seq<int>| #[trigger]
        is_round(tm, walk, s) ==> exists|q: nat| walk.len() - 1 == #[trigger] (d * q)
}

/// The period of a state is the greatest number that divides the moves of every walk
/// back to it; without such a walk it is one.
pub proof fn law_period_is_by_walks(tm: TransitionMatrix, s: int, p: nat)
    requires
        tm.is_period(s, p),
    ensures
        p >= 1,
        divides_rounds(tm, s, p),
        has_round(tm, s) ==> forall|d: nat| #[trigger]
            divides_rounds(tm, s, d) ==> d <= p,
        !has_round(tm, s) ==> p == 1,
{
    if exists|k: nat| tm.returns_after(s, k) {
        let k = choose|k: nat| tm.returns_after(s, k);
        let round = law_steps_make_a_walk(tm, s, s, k);
        assert(is_round(tm, round, s));
        assert(divisor::divides(p, k as int));
        assert(p >= 1);
        assert forall|d: nat| #[trigger] divides_rounds(tm, s, d) implies d <= p by {
            assert forall|m: nat| #[trigger] tm.returns_after(s, m) implies divisor::divides(
                d,
                m as int,
            ) by {
                let walk = law_steps_make_a_walk(tm, s, s, m);
                assert(is_round(tm, walk, s));
                let q = choose|q: nat| walk.len() - 1 == #[trigger] (d * q);
                divisor::lemma_multiple(d, q as int);
            }
            assert(tm.divides_returns(s, d));
            let q = divisor::lemma_quotient(d, p as int);
            assert(d <= p) by (nonlinear_arith)
                requires
                    p == d * q,
                    p >= 1,
                    d >= 0,
            ;
        }
    } else {
        if has_round(tm, s) {
            let walk = choose|walk: Seq<int>| is_round(tm, walk, s);
            law_walk_takes_steps(tm, walk, s, s);
            assert(tm.returns_after(s, (walk.len() - 1) as nat));
        }
    }
    assert(tm.divides_returns(s, p)) by {
        if !exists|k: nat| tm.returns_after(s, k) {
            assert forall|k: nat| #[trigger] tm.returns_after(s, k) implies divisor::divides(
                p,
                k as int,
            ) by {}
        }
    }
    lemma_divides_rounds(tm, s, p);
}

/// A chain is aperiodic just where, for each state that some walk leads back to, no
/// number above one divides the moves of all such walks.
pub proof fn law_aperiodic_is_by_walks(tm: TransitionMatrix)
    ensures
        tm.aperiodic() <==> forall|s: int, d: nat|
            0 <= s < tm.n && d > 1 && #[trigger] divides_rounds(tm, s, d) ==> !has_round(tm, s),
{
    if tm.aperiodic() {
        assert forall|s: int, d: nat|
            0 <= s < tm.n && d > 1 && #[trigger] divides_rounds(
                tm,
                s,
                d,
            ) implies !has_round(tm, s) by {
            assert(tm.is_period(s, 1));
            law_period_is_by_walks(tm, s, 1);
        }
    }
    if forall|s: int, d: nat|
        0 <= s < tm.n && d > 1 && #[trigger] divides_rounds(tm, s, d) ==> !has_round(tm, s) {
        assert forall|s: int| 0 <= s < tm.n implies #[trigger] tm.is_period(s, 1) by {
            if exists|k: nat| tm.returns_after(s, k) {
                let k = choose|k: nat| tm.returns_after(s, k);
                let round = law_steps_make_a_walk(tm, s, s, k);
                assert(is_round(tm, round, s));
                divisor::lemma_one_divides();
                assert forall|d: nat| #[trigger] tm.divides_returns(
                    s,
                    d,
                ) implies divisor::divides(d, 1) by {
                    assert(divisor::divides(d, k as int));
                    lemma_divides_rounds(tm, s, d);
                    assert(d == 1);
                }
            }
        }
    }
}

/// Whether some walk leads from state `s` back to it.
pub open spec fn has_round(tm: TransitionMatrix, s: int) -> bool {
    exists|walk: Seq<int>| is_round(tm, walk, s)
}

/// What divides the returns divides the walks back.
proof fn lemma_divides_rounds(tm: TransitionMatrix, s: int, d: nat)
    requires
        d > 0,
        tm.divides_returns(s, d),
    ensures
        divides_rounds(tm, s, d),
{
    assert forall|walk: Seq<int>| #[trigger] is_round(tm, walk, s) implies exists|q: nat|
        walk.len() - 1 == #[trigger] (d * q) by {
        law_walk_takes_steps(tm, walk, s, s);
        let k = (walk.len() - 1) as nat;
        assert(tm.returns_after(s, k));
        assert(divisor::divides(d, k as int));
        let q = divisor::lemma_quotient(d, k as int);
        assert(q >= 0) by (nonlinear_arith)
            requires
                k == d * q,
                k >= 0,
                d >= 1,
        ;
        assert(walk.len() - 1 == d * (q as nat));
    }
}

/// A greatest common divisor divides both numbers without a rest, and no number that
/// does so is greater, unless both numbers are zero.
pub proof fn law_gcd_is_the_greatest(g: nat, a: int, b: int)
    requires
        divisor::is_gcd(g, a, b),
    ensures
        exists|q: int| a == #[trigger] (g * q),
        exists|q: int| b == #[trigger] (g * q),
        a == 0 && b == 0 ==> g == 0,
        a != 0 || b != 0 ==> forall|d: nat, x: int, y: int|
            a == #[trigger] (d * x) && b == #[trigger] (d * y) ==> d <= g,
{
    let (x, y) = (divisor::lemma_quotient(g, a), divisor::lemma_quotient(g, b));
    assert(a == g * x && b == g * y);
    if a == 0 && b == 0 {
        assert(divisor::divides(0, a) && divisor::divides(0, b));
        assert(divisor::divides(0, g as int));
    } else {
        assert(g >= 1) by (nonlinear_arith)
            requires
                a == g * x,
                b == g * y,
                a != 0 || b != 0,
        ;
        assert forall|d: nat, x: int, y: int|
            a == #[trigger] (d * x) && b == #[trigger] (d * y) implies d <= g by {
            divisor::lemma_multiple(d, x);
            divisor::lemma_multiple(d, y);
            assert(divisor::divides(d, a) && divisor::divides(d, b));
            let q = divisor::lemma_quotient(d, g as int);
            assert(d <= g) by (nonlinear_arith)
                requires
                    g == d * q,
                    g >= 1,
                    d >= 0,
            ;
        }
    }
}

/// The number that a decimal notation stands for.
pub open spec fn reading(digits: Seq<char>) -> int
    decreases digits.len(),
{
    if digits.len() == 0 {
        0
    } else {
        10 * reading(digits.drop_last()) + (digits.last() as int - '0' as int)
    }
}

/// The decimal notation reads back as the number, holds only digits, and does not
/// begin with a zero unless it is one.
pub proof fn law_decimal_reads_back(n: nat)
    ensures
        reading(text::decimal(n)) == n,
        text::decimal(n).len() > 0,
        forall|i: int|
            0 <= i < text::decimal(n).len() ==> '0' as int <= (#[trigger] text::decimal(
                n,
            )[i]) as int <= '9' as int,
        n > 0 ==> text::decimal(n)[0] != '0',
        n == 0 ==> text::decimal(n).len() == 1,
    decreases n,
{
    reveal_with_fuel(reading, 2);
    let digits = text::decimal(n);
    if n >= 10 {
        law_decimal_reads_back(n / 10);
        let first = text::decimal(n / 10);
        assert(digits.drop_last() =~= first);
        assert(digits[0] == first[0]);
        assert forall|i: int| 0 <= i < digits.len() implies '0' as int <= (#[trigger] digits[
            i
        ]) as int <= '9' as int by {
            if i < first.len() {
                assert(digits[i] == first[i]);
            }
        }
    }
}

/// The chain moves to the first state that it can move to and that the drawn number is
/// not above the computed sum for; where there is none, it stays.
pub proof fn law_next_state_is_the_first(tm: TransitionMatrix, s: int, r: Double)
    ensures
        ({
            let to = chain::next_state(tm, s, r);
            ||| 0 <= to < tm.n && is_possible(tm.at(s, to)) && r.at_most(
                chain::cumulative(tm, s, to + 1),
            ) && forall|i: int|
                0 <= i < to && #[trigger] is_possible(tm.at(s, i)) ==> !r.at_most(
                    chain::cumulative(tm, s, i + 1),
                )
            ||| to == s && forall|i: int|
                0 <= i < tm.n && #[trigger] is_possible(tm.at(s, i)) ==> !r.at_most(
                    chain::cumulative(tm, s, i + 1),
                )
        }),
{
    let to = chain::next_state(tm, s, r);
    order::lemma_sign(Double::zero());
    assert forall|i: int| #[trigger] is_possible(tm.at(s, i)) implies Double::zero().less(
        tm.at(s, i),
    ) by {
        accuracy::lemma_number_sign(tm.at(s, i));
    }
    if exists|j: int| chain::falls_to(tm, s, r, j) {
        assert(chain::falls_to(tm, s, r, to));
        accuracy::lemma_number_sign(tm.at(s, to));
        assert forall|i: int| 0 <= i < to && #[trigger] is_possible(tm.at(s, i)) implies !r.at_most(
            chain::cumulative(tm, s, i + 1),
        ) by {
            assert(!chain::admits(tm, s, r, i));
        }
    } else {
        assert forall|i: int|
            0 <= i < tm.n && #[trigger] is_possible(tm.at(s, i)) implies !r.at_most(
            chain::cumulative(tm, s, i + 1),
        ) by {
            if r.at_most(chain::cumulative(tm, s, i + 1)) {
                laws::lemma_falls_somewhere(tm, s, r, i as nat);
            }
        }
    }
}

/// A trajectory starts in its initial state, and every state after it is the one that
/// the chain moves to from the state before, by the number drawn there.
pub proof fn law_trajectory_moves(
    tm: TransitionMatrix,
    draws: Map<nat, u64>,
    s0: int,
    trajectory: Seq<usize>,
)
    requires
        chain::follows(tm, draws, s0, trajectory),
    ensures
        trajectory.len() > 0 ==> trajectory[0] == s0,
        forall|t: int|
            0 < t < trajectory.len() ==> #[trigger] trajectory[t] == chain::next_state(
                tm,
                trajectory[t - 1] as int,
                chain::unit_number(draws[(t - 1) as nat]),
            ),
{
    assert forall|t: int| 0 < t < trajectory.len() implies #[trigger] trajectory[t]
        == chain::next_state(
        tm,
        trajectory[t - 1] as int,
        chain::unit_number(draws[(t - 1) as nat]),
    ) by {
        assert(trajectory[t - 1] == chain::state_after(tm, draws, s0, (t - 1) as nat));
        assert((t as nat - 1) as nat == (t - 1) as nat);
    }
}

/// Only the trajectory that starts in the initial state and goes where the drawn
/// numbers lead is followed.
pub proof fn law_moving_trajectory_follows(
    tm: TransitionMatrix,
    draws: Map<nat, u64>,
    s0: int,
    trajectory: Seq<usize>,
)
    requires
        trajectory.len() > 0 ==> trajectory[0] == s0,
        forall|t: int|
            0 < t < trajectory.len() ==> #[trigger] trajectory[t] == chain::next_state(
                tm,
                trajectory[t - 1] as int,
                chain::unit_number(draws[(t - 1) as nat]),
            ),
    ensures
        chain::follows(tm, draws, s0, trajectory),
    decreases trajectory.len(),
{
    if trajectory.len() > 0 {
        let first = trajectory.drop_last();
        assert forall|t: int| 0 < t < first.len() implies #[trigger] first[t] == chain::next_state(
            tm,
            first[t - 1] as int,
            chain::unit_number(draws[(t - 1) as nat]),
        ) by {
            assert(first[t] == trajectory[t] && first[t - 1] == trajectory[t - 1]);
        }
        if first.len() > 0 {
            assert(first[0] == trajectory[0]);
        }
        law_moving_trajectory_follows(tm, draws, s0, first);
        assert forall|t: int| 0 <= t < trajectory.len() implies #[trigger] trajectory[t]
            == chain::state_after(tm, draws, s0, t as nat) by {
            if t < first.len() {
                assert(first[t] == trajectory[t]);
            } else if t > 0 {
                assert(first[t - 1] == trajectory[t - 1]);
                assert((t as nat - 1) as nat == (t - 1) as nat);
            }
        }
    }
}

} // verus!
