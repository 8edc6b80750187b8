//! The graph of a chain: its states, with an edge wherever the probability of a
//! move is positive.

use vstd::prelude::*;

use crate::divisor;
use crate::divisor::gcd;
use crate::double::Double;
use crate::matrix::{TransitionMatrix, MAX_STATES};

verus! {

impl TransitionMatrix {
    /// Whether state `i` moves to state `j` with positive probability.
    pub open spec fn edge(self, i: int, j: int) -> bool {
        0 <= i < self.n && 0 <= j < self.n && Double::zero().less(self.at(i, j))
    }

    /// Whether some `k` moves lead from state `i` to state `j`.
    pub open spec fn steps(self, i: int, j: int, k: nat) -> bool
        decreases k,
    {
        if k == 0 {
            i == j && 0 <= i < self.n
        } else {
            exists|u: int|
                self.steps(i, u, (k - 1) as nat) && #[trigger] self.edge(u, j)
        }
    }

    /// Whether some number of moves leads from state `i` to state `j`.
    pub open spec fn reaches(self, i: int, j: int) -> bool {
        exists|k: nat| self.steps(i, j, k)
    }

    /// Whether every state reaches every state.
    pub open spec fn irreducible(self) -> bool {
        forall|i: int, j: int| 0 <= i < self.n && 0 <= j < self.n ==> #[trigger] self.reaches(i, j)
    }

    /// Whether `k` moves, and not none, lead from state `s` back to it.
    pub open spec fn returns_after(self, s: int, k: nat) -> bool {
        k > 0 && self.steps(s, s, k)
    }

    /// Whether `d` divides the length of every return to state `s`.
    pub open spec fn divides_returns(self, s: int, d: nat) -> bool {
        forall|k: nat| #[trigger] self.returns_after(s, k) ==> divisor::divides(d, k as int)
    }

    /// Whether state `s` has the period `p`: the greatest common divisor of the
    /// lengths of its returns, or one if it has none.
    pub open spec fn is_period(self, s: int, p: nat) -> bool {
        if exists|k: nat| self.returns_after(s, k) {
            &&& self.divides_returns(s, p)
            &&& forall|d: nat| #[trigger]
                self.divides_returns(s, d) ==> divisor::divides(d, p as int)
        } else {
            p == 1
        }
    }

    /// Whether every state has the period one.
    pub open spec fn aperiodic(self) -> bool {
        forall|i: int| 0 <= i < self.n ==> #[trigger] self.is_period(i, 1)
    }

    /// The matrix with the moves turned around.
    pub fn transposed(&self) -> (r: TransitionMatrix)
        requires
            self.wf(),
        ensures
            r.n == self.n,
            forall|i: int, j: int|
                0 <= i < self.n && 0 <= j < self.n ==> #[trigger] r.at(j, i) == self.at(i, j),
            forall|i: int, j: int|
                0 <= i < MAX_STATES && 0 <= j < MAX_STATES && !(i < self.n && j < self.n)
                    ==> #[trigger] r.at(j, i) == Double::zero(),
    {
        let n: usize = self.n;
        let mut tr: TransitionMatrix = TransitionMatrix::zeros(n);
        for i in 0..n
            invariant
                n == self.n,
                n <= MAX_STATES,
                tr.n == n,
                forall|a: int, b: int|
                    0 <= a < MAX_STATES && 0 <= b < MAX_STATES ==> #[trigger] tr.at(b, a) == if a
                        < i && b < n {
                        self.at(a, b)
                    } else {
                        Double::zero()
                    },
        {
            for j in 0..n
                invariant
                    n == self.n,
                    n <= MAX_STATES,
                    i < n,
                    tr.n == n,
                    forall|a: int, b: int|
                        0 <= a < MAX_STATES && 0 <= b < MAX_STATES ==> #[trigger] tr.at(b, a)
                            == if (a < i && b < n) || (a == i && b < j) {
                            self.at(a, b)
                        } else {
                            Double::zero()
                        },
            {
                tr.set(j, i, self.data[i][j]);
            }
        }
        tr
    }
}

/// A walk stays among the states.
pub proof fn lemma_steps_range(tm: TransitionMatrix, i: int, j: int, k: nat)
    requires
        tm.steps(i, j, k),
    ensures
        0 <= i < tm.n,
        0 <= j < tm.n,
    decreases k,
{
    if k > 0 {
        let u = choose|u: int| tm.steps(i, u, (k - 1) as nat) && #[trigger] tm.edge(u, j);
        lemma_steps_range(tm, i, u, (k - 1) as nat);
    }
}

/// Two walks that meet make one.
pub proof fn lemma_steps_join(tm: TransitionMatrix, i: int, j: int, l: int, a: nat, b: nat)
    requires
        tm.steps(i, j, a),
        tm.steps(j, l, b),
    ensures
        tm.steps(i, l, a + b),
    decreases b,
{
    if b > 0 {
        let u = choose|u: int| tm.steps(j, u, (b - 1) as nat) && #[trigger] tm.edge(u, l);
        lemma_steps_join(tm, i, j, u, a, (b - 1) as nat);
        assert((a + b - 1) as nat == a + (b - 1) as nat);
        assert(tm.steps(i, u, (a + b - 1) as nat) && tm.edge(u, l));
    }
}

/// An edge is a walk of one move.
pub proof fn lemma_edge_steps(tm: TransitionMatrix, i: int, j: int)
    requires
        tm.edge(i, j),
    ensures
        tm.steps(i, j, 1),
{
    assert(tm.steps(i, i, 0));
    assert(tm.steps(i, i, (1 - 1) as nat) && tm.edge(i, j));
}

/// Walks against the moves of one matrix are walks along those of the other.
pub proof fn lemma_steps_turned(a: TransitionMatrix, b: TransitionMatrix, i: int, j: int, k: nat)
    requires
        a.n == b.n,
        forall|x: int, y: int| a.edge(x, y) == #[trigger] b.edge(y, x),
        a.steps(i, j, k),
    ensures
        b.steps(j, i, k),
    decreases k,
{
    if k > 0 {
        let u = choose|u: int| a.steps(i, u, (k - 1) as nat) && #[trigger] a.edge(u, j);
        lemma_steps_turned(a, b, i, u, (k - 1) as nat);
        assert(b.edge(j, u));
        lemma_edge_steps(b, j, u);
        lemma_steps_join(b, j, u, i, 1, (k - 1) as nat);
        assert(1 + (k - 1) as nat == k);
    }
}

/// Reaching is passed on.
pub proof fn lemma_reaches_join(tm: TransitionMatrix, i: int, j: int, l: int)
    requires
        tm.reaches(i, j),
        tm.reaches(j, l),
    ensures
        tm.reaches(i, l),
{
    let a = choose|k: nat| tm.steps(i, j, k);
    let b = choose|k: nat| tm.steps(j, l, k);
    lemma_steps_join(tm, i, j, l, a, b);
}

/// An edge leads on to whatever its end reaches.
pub proof fn lemma_edge_reaches(tm: TransitionMatrix, i: int, j: int, l: int)
    requires
        tm.edge(i, j),
        tm.reaches(j, l),
    ensures
        tm.reaches(i, l),
{
    lemma_edge_steps(tm, i, j);
    assert(tm.reaches(i, j));
    lemma_reaches_join(tm, i, j, l);
}

/// Where state 0 reaches every state and is reached by every state, every state
/// reaches every state.
pub proof fn lemma_irreducible(tm: TransitionMatrix)
    requires
        forall|j: int| 0 <= j < tm.n ==> #[trigger] tm.reaches(0, j),
        forall|j: int| 0 <= j < tm.n ==> #[trigger] tm.reaches(j, 0),
    ensures
        tm.irreducible(),
{
    assert forall|i: int, j: int| 0 <= i < tm.n && 0 <= j < tm.n implies #[trigger] tm.reaches(
        i,
        j,
    ) by {
        lemma_reaches_join(tm, i, 0, j);
    }
}

/// A state has one period only.
pub proof fn lemma_period_unique(tm: TransitionMatrix, s: int, p: nat, q: nat)
    requires
        tm.is_period(s, p),
        tm.is_period(s, q),
    ensures
        p == q,
{
    if exists|k: nat| tm.returns_after(s, k) {
        divisor::lemma_mutual(p, q);
    }
}

/// In an irreducible chain, what divides the returns to one state divides those
/// to every state.
proof fn lemma_returns_shared(tm: TransitionMatrix, i: int, j: int, d: nat)
    requires
        tm.irreducible(),
        0 <= i < tm.n,
        0 <= j < tm.n,
        tm.divides_returns(i, d),
    ensures
        tm.divides_returns(j, d),
{
    assert(tm.reaches(i, j) && tm.reaches(j, i));
    let a = choose|k: nat| tm.steps(i, j, k);
    let b = choose|k: nat| tm.steps(j, i, k);
    assert forall|k: nat| #[trigger] tm.returns_after(j, k) implies divisor::divides(
        d,
        k as int,
    ) by {
        lemma_steps_join(tm, i, j, i, a, b);
        lemma_steps_join(tm, i, j, j, a, k);
        lemma_steps_join(tm, i, j, i, a + k, b);
        assert(tm.returns_after(i, a + k + b));
        if a + b > 0 {
            assert(tm.returns_after(i, a + b));
            divisor::lemma_sum(d, (a + k + b) as int, (a + b) as int);
        }
    }
}

/// In an irreducible chain, all states have the same period.
pub proof fn lemma_common_period(tm: TransitionMatrix, i: int, p: nat)
    requires
        tm.irreducible(),
        0 <= i < tm.n,
        tm.is_period(i, p),
    ensures
        forall|j: int| 0 <= j < tm.n ==> #[trigger] tm.is_period(j, p),
{
    assert forall|j: int| 0 <= j < tm.n implies #[trigger] tm.is_period(j, p) by {
        assert forall|d: nat| tm.divides_returns(i, d) == #[trigger] tm.divides_returns(j, d) by {
            if tm.divides_returns(i, d) {
                lemma_returns_shared(tm, i, j, d);
            }
            if tm.divides_returns(j, d) {
                lemma_returns_shared(tm, j, i, d);
            }
        }
        if exists|k: nat| tm.returns_after(i, k) {
            lemma_some_return(tm, i, j);
        }
        if exists|k: nat| tm.returns_after(j, k) {
            lemma_some_return(tm, j, i);
        }
    }
}

/// In an irreducible chain, if one state has a return, every state has.
proof fn lemma_some_return(tm: TransitionMatrix, i: int, j: int)
    requires
        tm.irreducible(),
        0 <= i < tm.n,
        0 <= j < tm.n,
        exists|k: nat| tm.returns_after(i, k),
    ensures
        exists|k: nat| tm.returns_after(j, k),
{
    assert(tm.reaches(i, j) && tm.reaches(j, i));
    let k = choose|k: nat| tm.returns_after(i, k);
    let a = choose|k: nat| tm.steps(i, j, k);
    let b = choose|k: nat| tm.steps(j, i, k);
    lemma_steps_join(tm, j, i, i, b, k);
    lemma_steps_join(tm, j, i, j, b + k, a);
    assert(tm.returns_after(j, b + k + a));
}

/// A set of states that every edge stays in holds all that is reached from it.
proof fn lemma_closed(tm: TransitionMatrix, set: Seq<bool>, s: int, j: int, k: nat)
    requires
        tm.n <= set.len(),
        set[s],
        forall|u: int, v: int| 0 <= u < tm.n && set[u] && #[trigger] tm.edge(u, v) ==> set[v],
        tm.steps(s, j, k),
    ensures
        set[j],
    decreases k,
{
    if k > 0 {
        let u = choose|u: int| tm.steps(s, u, (k - 1) as nat) && #[trigger] tm.edge(u, j);
        lemma_closed(tm, set, s, u, (k - 1) as nat);
        lemma_steps_range(tm, s, u, (k - 1) as nat);
    }
}

/// Distinct states are at most as many as there are states.
proof fn lemma_distinct_states(q: Seq<usize>, n: nat)
    requires
        q.no_duplicates(),
        forall|x: int| 0 <= x < q.len() ==> #[trigger] q[x] < n,
    ensures
        q.len() <= n,
{
    let s = q.map_values(|x: usize| x as int);
    assert(s.no_duplicates());
    s.unique_seq_to_set();
    vstd::set_lib::lemma_int_range(0, n as int);
    assert(s.to_set().subset_of(vstd::set_lib::set_int_range(0, n as int)));
    vstd::set_lib::lemma_len_subset(s.to_set(), vstd::set_lib::set_int_range(0, n as int));
}

/// The states that `start` reaches, found breadth first.
pub fn bfs_reachable(tm: &TransitionMatrix, start: usize) -> (visited: [bool; MAX_STATES])
    requires
        tm.wf(),
        start < tm.n,
    ensures
        forall|i: int|
            0 <= i < MAX_STATES ==> (#[trigger] visited@[i] <==> tm.reaches(start as int, i)),
{
    let n: usize = tm.n;
    let zero: Double = Double::from_bits(0);
    let mut visited: [bool; MAX_STATES] = [false; MAX_STATES];
    let mut queue: Vec<usize> = Vec::new();
    let mut head: usize = 0;
    visited[start] = true;
    queue.push(start);
    proof {
        assert(tm.steps(start as int, start as int, 0));
        assert(queue@[0] == start);
    }
    while head < queue.len()
        invariant
            n == tm.n,
            n <= MAX_STATES,
            start < n,
            zero == Double::zero(),
            head <= queue.len(),
            visited@[start as int],
            forall|i: int|
                0 <= i < MAX_STATES && #[trigger] visited@[i] ==> i < n && tm.reaches(
                    start as int,
                    i,
                ) && queue@.contains(i as usize),
            forall|x: int|
                0 <= x < queue.len() ==> #[trigger] queue@[x] < n && visited@[queue@[x] as int],
            queue@.no_duplicates(),
            forall|x: int, j: int|
                0 <= x < head && #[trigger] tm.edge(queue@[x] as int, j) ==> visited@[j],
        decreases n - head,
    {
        proof {
            lemma_distinct_states(queue@, n as nat);
        }
        let s: usize = queue[head];
        let ghost before = queue@;
        head = head + 1;
        for j in 0..n
            invariant
                n == tm.n,
                n <= MAX_STATES,
                start < n,
                s < n,
                zero == Double::zero(),
                1 <= head <= before.len(),
                before.len() <= queue.len(),
                queue@.take(before.len() as int) == before,
                before[head - 1] == s,
                tm.reaches(start as int, s as int),
                visited@[start as int],
                forall|i: int|
                    0 <= i < MAX_STATES && #[trigger] visited@[i] ==> i < n && tm.reaches(
                        start as int,
                        i,
                    ) && queue@.contains(i as usize),
                forall|x: int|
                    0 <= x < queue.len() ==> #[trigger] queue@[x] < n
                        && visited@[queue@[x] as int],
                queue@.no_duplicates(),
                forall|x: int, v: int|
                    0 <= x < head - 1 && #[trigger] tm.edge(before[x] as int, v) ==> visited@[v],
                forall|v: int| 0 <= v < j && #[trigger] tm.edge(s as int, v) ==> visited@[v],
        {
            if zero.less(tm.data[s][j]) && !visited[j] {
                let ghost (q0, v0) = (queue@, visited@);
                visited[j] = true;
                queue.push(j);
                proof {
                    assert(tm.edge(s as int, j as int));
                    lemma_edge_steps(*tm, s as int, j as int);
                    assert(tm.reaches(s as int, j as int));
                    lemma_reaches_join(*tm, start as int, s as int, j as int);
                    assert(queue@ == q0.push(j));
                    assert(!q0.contains(j));
                    assert forall|i: int|
                        0 <= i < MAX_STATES && #[trigger] visited@[i] implies queue@.contains(
                        i as usize,
                    ) by {
                        if i == j {
                            assert(queue@[q0.len() as int] == j);
                        } else {
                            assert(v0[i]);
                            let x = q0.index_of(i as usize);
                            assert(queue@[x] == i as usize);
                        }
                    }
                    assert(queue@.take(before.len() as int) == before);
                }
            }
        }
        proof {
            assert forall|x: int, v: int|
                0 <= x < head && #[trigger] tm.edge(queue@[x] as int, v) implies visited@[v] by {
                assert(queue@[x] == before[x]);
            }
        }
    }
    proof {
        assert forall|u: int, v: int|
            0 <= u < tm.n && visited@[u] && #[trigger] tm.edge(u, v) implies visited@[v] by {
            let x = queue@.index_of(u as usize);
            assert(tm.edge(queue@[x] as int, v));
        }
        assert forall|i: int| 0 <= i < MAX_STATES && tm.reaches(start as int, i) implies #[trigger]
        visited@[i] by {
            let k = choose|k: nat| tm.steps(start as int, i, k);
            lemma_closed(*tm, visited@, start as int, i, k);
        }
    }
    visited
}

/// Whoever divides the returns to `s` divides what an edge adds to the distances
/// from `s`, if its end leads back to `s`.
proof fn lemma_edge_divided(tm: TransitionMatrix, s: int, u: int, v: int, a: nat, b: nat, d: nat)
    requires
        tm.divides_returns(s, d),
        tm.steps(s, u, a),
        tm.edge(u, v),
        tm.steps(s, v, b),
        tm.reaches(v, s),
    ensures
        divisor::divides(d, a + 1 - b),
{
    let l = choose|k: nat| tm.steps(v, s, k);
    lemma_edge_steps(tm, u, v);
    lemma_steps_join(tm, s, u, v, a, 1);
    lemma_steps_join(tm, s, v, s, a + 1, l);
    lemma_steps_join(tm, s, v, s, b, l);
    assert(tm.returns_after(s, a + 1 + l));
    if b + l > 0 {
        assert(tm.returns_after(s, b + l));
    } else {
        divisor::lemma_multiple(d, 0);
        assert(d * 0 == 0);
    }
    divisor::lemma_sum(d, (a + 1 + l) as int, (b + l) as int);
}

/// An edge between a state that `s` reaches and one that reaches `s` lies on a
/// return to `s`.
proof fn lemma_edge_returns(tm: TransitionMatrix, s: int, u: int, v: int, a: nat)
    requires
        tm.steps(s, u, a),
        tm.edge(u, v),
        tm.reaches(v, s),
    ensures
        exists|k: nat| tm.returns_after(s, k),
{
    let l = choose|k: nat| tm.steps(v, s, k);
    lemma_edge_steps(tm, u, v);
    lemma_steps_join(tm, s, u, v, a, 1);
    lemma_steps_join(tm, s, v, s, a + 1, l);
    assert(tm.returns_after(s, a + 1 + l));
}

/// The length of a walk from `s` and the distance of its end differ by a
/// multiple of `g`, where `g` divides what every edge adds to the distances.
proof fn lemma_walk_divided(
    tm: TransitionMatrix,
    s: int,
    dist: Seq<i32>,
    g: nat,
    v: int,
    k: nat,
)
    requires
        dist[s] == 0,
        forall|a: int, b: int|
            dist[a] >= 0 && #[trigger] tm.edge(a, b) && tm.reaches(b, s) ==> dist[b] >= 0
                && divisor::divides(g, dist[a] + 1 - dist[b]),
        tm.steps(s, v, k),
        tm.reaches(v, s),
    ensures
        dist[v] >= 0,
        divisor::divides(g, k - dist[v]),
    decreases k,
{
    if k == 0 {
        divisor::lemma_multiple(g, 0);
        assert(g * 0 == 0);
    } else {
        let u = choose|u: int| tm.steps(s, u, (k - 1) as nat) && #[trigger] tm.edge(u, v);
        lemma_edge_reaches(tm, u, v, s);
        lemma_walk_divided(tm, s, dist, g, u, (k - 1) as nat);
        divisor::lemma_sum(g, (k - 1) as nat - dist[u], dist[u] + 1 - dist[v]);
    }
}

/// The period of state `s`: the greatest common divisor of the lengths of its
/// returns, found from the distances of a breadth-first search among the states
/// that lead back to `s`.
pub fn state_period(tm: &TransitionMatrix, s: usize) -> (p: usize)
    requires
        tm.wf(),
        s < tm.n,
    ensures
        tm.is_period(s as int, p as nat),
{
    let n: usize = tm.n;
    let zero: Double = Double::from_bits(0);
    let back: [bool; MAX_STATES] = reaching(tm, s);
    let mut dist: [i32; MAX_STATES] = [-1; MAX_STATES];
    let mut queue: Vec<usize> = Vec::new();
    let mut head: usize = 0;
    dist[s] = 0;
    queue.push(s);
    let mut g: i32 = 0;
    proof {
        assert(tm.steps(s as int, s as int, 0));
        assert(queue@[0] == s);
        assert forall|d: nat| #[trigger] tm.divides_returns(s as int, d) implies divisor::divides(
            d,
            0,
        ) by {
            divisor::lemma_multiple(d, 0);
            assert(d * 0 == 0);
        }
    }
    while head < queue.len()
        invariant
            n == tm.n,
            n <= MAX_STATES,
            s < n,
            zero == Double::zero(),
            forall|i: int|
                0 <= i < MAX_STATES ==> (#[trigger] back@[i] <==> tm.reaches(i, s as int)),
            head <= queue.len(),
            dist@[s as int] == 0,
            forall|i: int|
                0 <= i < MAX_STATES && #[trigger] dist@[i] >= 0 ==> i < n && tm.steps(
                    s as int,
                    i,
                    dist@[i] as nat,
                ) && queue@.contains(i as usize),
            forall|x: int|
                0 <= x < queue.len() ==> #[trigger] queue@[x] < n && 0 <= dist@[queue@[x] as int]
                    <= x,
            queue@.no_duplicates(),
            forall|x: int, v: int|
                0 <= x < head && #[trigger] tm.edge(queue@[x] as int, v) && back@[v]
                    ==> dist@[v] >= 0 && divisor::divides(
                    g as nat,
                    dist@[queue@[x] as int] + 1 - dist@[v],
                ),
            g >= 0,
            forall|d: nat| #[trigger]
                tm.divides_returns(s as int, d) ==> divisor::divides(d, g as int),
            g > 0 ==> exists|k: nat| tm.returns_after(s as int, k),
        decreases n - head,
    {
        proof {
            lemma_distinct_states(queue@, n as nat);
        }
        let u: usize = queue[head];
        let ghost before = queue@;
        let ghost d0 = dist@;
        head = head + 1;
        for j in 0..n
            invariant
                n == tm.n,
                n <= MAX_STATES,
                s < n,
                u < n,
                zero == Double::zero(),
                forall|i: int|
                    0 <= i < MAX_STATES ==> (#[trigger] back@[i] <==> tm.reaches(i, s as int)),
                1 <= head <= before.len(),
                before.len() <= queue.len(),
                queue@.take(before.len() as int) == before,
                before[head - 1] == u,
                forall|x: int| 0 <= x < before.len() ==> d0[#[trigger] before[x] as int] >= 0,
                forall|i: int|
                    0 <= i < MAX_STATES && d0[i] >= 0 ==> #[trigger] dist@[i] == d0[i],
                dist@[s as int] == 0,
                dist@[u as int] >= 0,
                forall|i: int|
                    0 <= i < MAX_STATES && #[trigger] dist@[i] >= 0 ==> i < n && tm.steps(
                        s as int,
                        i,
                        dist@[i] as nat,
                    ) && queue@.contains(i as usize),
                forall|x: int|
                    0 <= x < queue.len() ==> #[trigger] queue@[x] < n && 0
                        <= dist@[queue@[x] as int] <= x,
                queue@.no_duplicates(),
                forall|x: int, v: int|
                    0 <= x < head - 1 && #[trigger] tm.edge(before[x] as int, v) && back@[v]
                        ==> dist@[v] >= 0 && divisor::divides(
                        g as nat,
                        dist@[before[x] as int] + 1 - dist@[v],
                    ),
                forall|v: int|
                    0 <= v < j && #[trigger] tm.edge(u as int, v) && back@[v] ==> dist@[v] >= 0
                        && divisor::divides(g as nat, dist@[u as int] + 1 - dist@[v]),
                g >= 0,
                forall|d: nat| #[trigger]
                    tm.divides_returns(s as int, d) ==> divisor::divides(d, g as int),
                g > 0 ==> exists|k: nat| tm.returns_after(s as int, k),
        {
            proof {
                assert(queue@[head - 1] == u);
                lemma_distinct_states(queue@, n as nat);
            }
            if zero.less(tm.data[u][j]) && back[j] {
                proof {
                    assert(tm.edge(u as int, j as int));
                }
                if dist[j] < 0 {
                    let ghost (q0, e0) = (queue@, dist@);
                    dist[j] = dist[u] + 1;
                    queue.push(j);
                    proof {
                        assert(queue@ == q0.push(j));
                        assert(!q0.contains(j));
                        lemma_edge_steps(*tm, u as int, j as int);
                        lemma_steps_join(
                            *tm,
                            s as int,
                            u as int,
                            j as int,
                            e0[u as int] as nat,
                            1,
                        );
                        assert forall|i: int|
                            0 <= i < MAX_STATES && #[trigger] dist@[i]
                                >= 0 implies queue@.contains(i as usize) by {
                            if i == j {
                                assert(queue@[q0.len() as int] == j);
                            } else {
                                assert(e0[i] >= 0);
                                let x = q0.index_of(i as usize);
                                assert(queue@[x] == i as usize);
                            }
                        }
                        assert(queue@.take(before.len() as int) == before);
                        divisor::lemma_multiple(g as nat, 0);
                        assert(g as nat * 0 == 0);
                        assert forall|x: int|
                            0 <= x < queue.len() implies #[trigger] queue@[x] < n && 0
                            <= dist@[queue@[x] as int] <= x by {
                            if x < q0.len() {
                                assert(queue@[x] == q0[x]);
                                assert(q0.contains(q0[x]));
                            } else {
                                assert(e0[u as int] <= head - 1);
                            }
                        }
                    }
                } else {
                    let ghost g0 = g as nat;
                    let cycle: i32 = dist[u] + 1 - dist[j];
                    g = gcd(g, cycle);
                    proof {
                        assert forall|d: nat| #[trigger]
                            tm.divides_returns(s as int, d) implies divisor::divides(
                            d,
                            g as int,
                        ) by {
                            lemma_edge_divided(
                                *tm,
                                s as int,
                                u as int,
                                j as int,
                                dist@[u as int] as nat,
                                dist@[j as int] as nat,
                                d,
                            );
                            assert(divisor::divides(d, g0 as int));
                        }
                        lemma_edge_returns(
                            *tm,
                            s as int,
                            u as int,
                            j as int,
                            dist@[u as int] as nat,
                        );
                        assert forall|x: int, v: int|
                            0 <= x < head - 1 && #[trigger] tm.edge(before[x] as int, v)
                                && back@[v] implies dist@[v] >= 0 && divisor::divides(
                            g as nat,
                            dist@[before[x] as int] + 1 - dist@[v],
                        ) by {
                            divisor::lemma_transitive(
                                g as nat,
                                g0,
                                dist@[before[x] as int] + 1 - dist@[v],
                            );
                        }
                        assert forall|v: int|
                            0 <= v < j && #[trigger] tm.edge(u as int, v)
                                && back@[v] implies dist@[v] >= 0 && divisor::divides(
                            g as nat,
                            dist@[u as int] + 1 - dist@[v],
                        ) by {
                            divisor::lemma_transitive(
                                g as nat,
                                g0,
                                dist@[u as int] + 1 - dist@[v],
                            );
                        }
                    }
                    if g == 1 {
                        return 1;
                    }
                }
            }
        }
        proof {
            assert forall|x: int, v: int|
                0 <= x < head && #[trigger] tm.edge(queue@[x] as int, v)
                    && back@[v] implies dist@[v] >= 0 && divisor::divides(
                g as nat,
                dist@[queue@[x] as int] + 1 - dist@[v],
            ) by {
                assert(queue@[x] == before[x]);
            }
        }
    }
    proof {
        assert forall|a: int, b: int|
            dist@[a] >= 0 && #[trigger] tm.edge(a, b) && tm.reaches(b, s as int) implies dist@[b]
            >= 0 && divisor::divides(g as nat, dist@[a] + 1 - dist@[b]) by {
            let x = queue@.index_of(a as usize);
            assert(tm.edge(queue@[x] as int, b));
            assert(back@[b]);
        }
        assert(tm.steps(s as int, s as int, 0));
        assert forall|k: nat| #[trigger]
            tm.returns_after(s as int, k) implies divisor::divides(g as nat, k as int) by {
            lemma_walk_divided(*tm, s as int, dist@, g as nat, s as int, k);
        }
    }
    if g == 0 {
        1
    } else {
        g as usize
    }
}

/// The states that reach `target`.
pub fn reaching(tm: &TransitionMatrix, target: usize) -> (visited: [bool; MAX_STATES])
    requires
        tm.wf(),
        target < tm.n,
    ensures
        forall|i: int|
            0 <= i < MAX_STATES ==> (#[trigger] visited@[i] <==> tm.reaches(i, target as int)),
{
    let tr: TransitionMatrix = tm.transposed();
    let visited: [bool; MAX_STATES] = bfs_reachable(&tr, target);
    proof {
        assert forall|x: int, y: int| tm.edge(x, y) == #[trigger] tr.edge(y, x) by {
            if 0 <= x < tm.n && 0 <= y < tm.n {
                assert(tr.at(y, x) == tm.at(x, y));
            }
        }
        assert forall|x: int, y: int| tr.edge(x, y) == #[trigger] tm.edge(y, x) by {
            assert(tm.edge(y, x) == tr.edge(x, y));
        }
        assert forall|i: int| 0 <= i < MAX_STATES implies (#[trigger] visited@[i] <==> tm.reaches(
            i,
            target as int,
        )) by {
            if tr.reaches(target as int, i) {
                let k = choose|k: nat| tr.steps(target as int, i, k);
                lemma_steps_turned(tr, *tm, target as int, i, k);
            }
            if tm.reaches(i, target as int) {
                let k = choose|k: nat| tm.steps(i, target as int, k);
                lemma_steps_turned(*tm, tr, i, target as int, k);
            }
        }
    }
    visited
}

} // verus!
