//! The library against plain machine arithmetic, its laws on concrete values,
//! and its corner cases.

use ergodic_transport::chain::unit_draw;
use ergodic_transport::evolution::TOLERANCE_BITS;
use ergodic_transport::graph::{bfs_reachable, reaching, state_period};
use ergodic_transport::text::decimal_text;
use ergodic_transport::{
    birkhoff_bound, budget_adequacy, consumption_drift, control_correction, ergodic_check,
    ergodic_time_average, gcd, lqr_step, occupation_measure, wasserstein_distance, Double,
    MarkovChain,
};
use rand::rngs::SmallRng;
use rand::{Rng, RngCore, SeedableRng};

fn double(x: f64) -> Double {
    Double::from_bits(x.to_bits())
}

fn doubles(xs: &[f64]) -> Vec<Double> {
    xs.iter().map(|&x| double(x)).collect()
}

fn float(x: Double) -> f64 {
    f64::from_bits(x.to_bits())
}

fn floats(xs: &[Double]) -> Vec<f64> {
    xs.iter().map(|&x| float(x)).collect()
}

fn chain(n: usize, flat: &[f64]) -> MarkovChain {
    MarkovChain::from_flat(n, &doubles(flat))
}

/// A chain with an edge of equal weight to each listed neighbour.
fn graph_chain(edges: &[&[usize]]) -> MarkovChain {
    let n = edges.len();
    let mut flat = vec![0.0; n * n];
    for (i, to) in edges.iter().enumerate() {
        for &j in to.iter() {
            flat[i * n + j] = 1.0 / to.len() as f64;
        }
    }
    chain(n, &flat)
}

/// A dense random matrix with rows that sum to about one.
fn random_flat(n: usize, seed: u64) -> Vec<f64> {
    let mut rng = SmallRng::seed_from_u64(seed);
    let mut flat = vec![0.0; n * n];
    for i in 0..n {
        let row: Vec<f64> = (0..n).map(|_| rng.gen::<f64>()).collect();
        let sum: f64 = row.iter().sum();
        for j in 0..n {
            flat[i * n + j] = row[j] / sum;
        }
    }
    flat
}

fn machine_advance(n: usize, flat: &[f64], v: &[f64]) -> Vec<f64> {
    let mut r = vec![0.0; n];
    for j in 0..n {
        for i in 0..n {
            r[j] += v[i] * flat[i * n + j];
        }
    }
    r
}

fn machine_stationary(n: usize, flat: &[f64]) -> Option<Vec<f64>> {
    let mut pi = vec![1.0 / n as f64; n];
    for _ in 0..100_000 {
        let mut next = machine_advance(n, flat, &pi);
        let sum: f64 = next.iter().sum();
        if sum == 0.0 {
            return None;
        }
        for v in &mut next {
            *v /= sum;
        }
        let diff: f64 = next.iter().zip(&pi).map(|(a, b)| (a - b).abs()).sum();
        pi = next;
        if diff < 1e-12 {
            return Some(pi);
        }
    }
    None
}

#[test]
fn stationary_agrees_with_the_machine() {
    for n in 1..8 {
        let flat = random_flat(n, 100 + n as u64);
        let mc = chain(n, &flat);
        let pi = mc.stationary_distribution().map(|v| floats(&v));
        assert_eq!(pi, machine_stationary(n, &flat));
    }
}

#[test]
fn mixing_time_and_margin_agree_with_the_machine() {
    let n = 4;
    let flat = random_flat(n, 17);
    let mc = chain(n, &flat);
    let pi = machine_stationary(n, &flat).unwrap();
    let mut dist = vec![1.0, 0.0, 0.0, 0.0];
    let mut mixing = None;
    for k in 0..10_000_usize {
        dist = machine_advance(n, &flat, &dist);
        let tv: f64 = dist.iter().zip(&pi).map(|(a, b)| (a - b).abs()).sum::<f64>() * 0.5;
        if tv < 1e-9 {
            mixing = Some(k + 1);
            break;
        }
    }
    assert_eq!(mc.mixing_time(double(1e-9), 10_000), mixing);
    let mean: f64 = pi.iter().enumerate().map(|(i, &p)| p * i as f64).sum();
    let var: f64 = pi
        .iter()
        .enumerate()
        .map(|(i, &p)| {
            let d = i as f64 - mean;
            p * d * d
        })
        .sum();
    let margin = mixing.unwrap() as f64 * var.sqrt();
    assert_eq!(float(mc.budget_safety_margin(double(1e-9)).unwrap()), margin);
    let bound = (var / (0.05 * 0.05 * 0.01)).ceil();
    assert_eq!(float(mc.birkhoff_bound(double(0.05), double(0.01)).unwrap()), bound);
}

#[test]
fn simulation_agrees_with_the_generator() {
    let n = 5;
    let flat = random_flat(n, 3);
    for seed in 0..20 {
        let mut mc = chain(n, &flat);
        mc.seed(seed);
        let traj = mc.simulate(2, 200);
        let mut rng = SmallRng::seed_from_u64(seed);
        let mut state = 2;
        for &s in &traj {
            assert_eq!(s, state);
            let r: f64 = rng.gen();
            let mut cum = 0.0;
            for j in 0..n {
                cum += flat[state * n + j];
                if r <= cum {
                    state = j;
                    break;
                }
            }
        }
    }
}

#[test]
fn unit_draws_agree_with_the_generator() {
    for seed in 0..50 {
        let mut a = SmallRng::seed_from_u64(seed);
        let mut b = SmallRng::seed_from_u64(seed);
        for _ in 0..20 {
            let r: f64 = a.gen();
            assert_eq!(float(unit_draw(b.next_u64())), r);
            assert!((0.0..1.0).contains(&r));
        }
    }
    assert_eq!(float(unit_draw(0)), 0.0);
    assert_eq!(float(unit_draw(u64::MAX)), 1.0 - f64::EPSILON / 2.0);
}

#[test]
fn tolerance_is_ten_to_the_minus_twelve() {
    assert_eq!(TOLERANCE_BITS, 1e-12_f64.to_bits());
}

#[test]
fn stationary_of_vanishing_mass_is_none() {
    assert!(chain(2, &[0.0; 4]).stationary_distribution().is_none());
    assert!(chain(1, &[f64::NAN]).stationary_distribution().is_none());
}

#[test]
fn stationary_of_two_cycle_with_drift_never_settles() {
    // From equal shares the swap settles at once.
    let pi = chain(2, &[0.0, 1.0, 1.0, 0.0]).stationary_distribution().unwrap();
    assert_eq!(floats(&pi), vec![0.5, 0.5]);
    // With a third state that feeds one side, the swap goes on for ever.
    let mc = chain(3, &[0.0, 1.0, 0.0, 1.0, 0.0, 0.0, 1.0, 0.0, 0.0]);
    assert!(mc.stationary_distribution().is_none());
    assert_eq!(mc.mixing_time(double(0.5), 10), None);
    assert!(mc.birkhoff_bound(double(0.5), double(0.5)).is_none());
}

#[test]
fn mixing_time_counts_from_zero_and_stops_at_the_limit() {
    let single = chain(1, &[1.0]);
    assert_eq!(single.mixing_time(double(0.5), 10), Some(0));
    assert_eq!(single.mixing_time(double(0.1), 0), Some(0));
    assert_eq!(float(single.budget_safety_margin(double(0.5)).unwrap()), 0.0);
    // The start, all in state 0, is 3/7 away from [4/7, 3/7].
    let near = chain(2, &[0.7, 0.3, 0.4, 0.6]);
    assert_eq!(near.mixing_time(double(0.43), 10), Some(0));
    assert_eq!(near.mixing_time(double(0.42), 10), Some(1));
    assert_eq!(near.mixing_time(double(0.42), 0), None);
    let mc = chain(2, &[0.7, 0.3, 0.4, 0.6]);
    let k = mc.mixing_time(double(1e-6), 1000).unwrap();
    assert_eq!(mc.mixing_time(double(1e-6), k), Some(k));
    assert_eq!(mc.mixing_time(double(1e-6), k - 1), None);
    assert!(mc.mixing_time(double(0.1), 1000).unwrap() <= k);
}

#[test]
fn ergodicity_messages() {
    let cases: [(MarkovChain, bool, &str); 6] = [
        (MarkovChain::new(), false, "chain has no states"),
        (
            graph_chain(&[&[0, 1], &[0, 1], &[0, 1, 2]]),
            false,
            "not irreducible: state 2 not reachable from state 0",
        ),
        (
            graph_chain(&[&[0, 1], &[1]]),
            false,
            "not irreducible: state 0 not reachable from state 1",
        ),
        (
            graph_chain(&[&[1], &[2], &[3], &[0]]),
            false,
            "chain has period 4 (not aperiodic)",
        ),
        (
            graph_chain(&[&[0, 1], &[0]]),
            true,
            "chain is ergodic (irreducible + aperiodic)",
        ),
        (
            graph_chain(&[&[0]]),
            true,
            "chain is ergodic (irreducible + aperiodic)",
        ),
    ];
    for (mc, ok, message) in cases {
        assert_eq!(mc.is_ergodic(), (ok, message.to_string()));
    }
}

#[test]
fn period_of_two_routes_of_equal_length() {
    // Two routes of three moves: 0 -> 1 -> 2 -> 0 and 0 -> 3 -> 2 -> 0.
    let mc = graph_chain(&[&[1, 3], &[2], &[0], &[2]]);
    assert_eq!(
        mc.is_ergodic(),
        (false, "chain has period 3 (not aperiodic)".to_string()),
    );
    // With a shortcut there are returns of two and of three moves.
    let mc = graph_chain(&[&[1, 3], &[2], &[0], &[2, 0]]);
    assert!(mc.is_ergodic().0);
}

#[test]
fn period_counts_returns_to_the_state_alone() {
    // State 1 stays where it is, but does not lead back to state 0.
    let mc = graph_chain(&[&[1], &[1]]);
    assert_eq!(state_period(mc.matrix(), 0), 1);
    assert_eq!(state_period(mc.matrix(), 1), 1);
    // Returns to state 0 take two moves, whatever states 2 to 4 do.
    let mc = graph_chain(&[&[1, 2], &[0], &[3], &[4], &[2]]);
    assert_eq!(state_period(mc.matrix(), 0), 2);
    assert_eq!(state_period(mc.matrix(), 3), 3);
}

#[test]
fn periods_agree_with_walks() {
    // All graphs on three states, against the lengths of closed walks.
    for code in 0..512_u32 {
        let edge = |i: usize, j: usize| code & (1 << (3 * i + j)) != 0;
        let flat: Vec<f64> = (0..9)
            .map(|x| if edge(x / 3, x % 3) { 0.5 } else { 0.0 })
            .collect();
        let mc = chain(3, &flat);
        for s in 0..3 {
            let mut at = [false; 3];
            at[s] = true;
            let mut g = 0;
            let mut seen = [false; 3];
            for k in 0..13 {
                for i in 0..3 {
                    seen[i] = seen[i] || at[i];
                }
                if k > 0 && at[s] {
                    g = gcd(g, k);
                }
                let mut next = [false; 3];
                for i in 0..3 {
                    for j in 0..3 {
                        next[j] = next[j] || (at[i] && edge(i, j));
                    }
                }
                at = next;
            }
            let expected = if g == 0 { 1 } else { g as usize };
            assert_eq!(state_period(mc.matrix(), s), expected, "graph {}", code);
            assert_eq!(bfs_reachable(mc.matrix(), s)[..3], seen, "graph {}", code);
            for i in 0..3 {
                assert_eq!(
                    reaching(mc.matrix(), s)[i],
                    bfs_reachable(mc.matrix(), i)[s],
                );
            }
        }
    }
}

#[test]
fn largest_chain() {
    // A cycle through all 64 states.
    let edges: Vec<Vec<usize>> = (0..64).map(|i| vec![(i + 1) % 64]).collect();
    let edges: Vec<&[usize]> = edges.iter().map(|e| e.as_slice()).collect();
    let mc = graph_chain(&edges);
    assert_eq!(mc.is_ergodic().1, "chain has period 64 (not aperiodic)");
    let mut mc = mc;
    let traj = mc.simulate(63, 3);
    assert_eq!(traj, vec![63, 0, 1]);
}

#[test]
fn greatest_common_divisors() {
    assert_eq!(gcd(0, 0), 0);
    assert_eq!(gcd(8, 12), gcd(12, 8));
    assert_eq!(gcd(-12, -8), 4);
    assert_eq!(gcd(i32::MAX, 1), 1);
    assert_eq!(gcd(i32::MAX, 0), i32::MAX);
}

#[test]
fn decimal_notation() {
    for &n in &[0_usize, 1, 9, 10, 42, 64, 100, 987654321, usize::MAX] {
        assert_eq!(decimal_text(n), n.to_string());
    }
}

#[test]
fn matrix_access() {
    let mut mc = chain(2, &[0.7, 0.3, 0.4, 0.6]);
    assert_eq!(float(mc.matrix().data[0][1]), 0.3);
    mc.matrix_mut().data[0][1] = double(0.25);
    mc.matrix_mut().n = 1;
    assert_eq!(float(mc.matrix().data[0][1]), 0.25);
    assert_eq!(mc.matrix().n, 1);
    let tr = chain(2, &[1.0, 2.0, 3.0, 4.0]).matrix().transposed();
    assert_eq!(float(tr.data[0][1]), 3.0);
    assert_eq!(float(tr.data[1][0]), 2.0);
    assert_eq!(MarkovChain::default().matrix().n, 0);
}

#[test]
fn longer_slices_are_cut() {
    let mc = chain(1, &[0.5, 0.25, 0.125]);
    assert_eq!(float(mc.matrix().data[0][0]), 0.5);
    assert_eq!(float(mc.matrix().data[0][1]), 0.0);
}

#[test]
fn clones_draw_the_same_numbers() {
    let mut a = chain(2, &[0.5, 0.5, 0.5, 0.5]);
    a.simulate(0, 3);
    let mut b = a.clone();
    assert_eq!(a.simulate(0, 100), b.simulate(0, 100));
    assert_eq!(float(b.matrix().data[1][0]), 0.5);
}

#[test]
fn unseeded_chains_differ() {
    let mut a = chain(2, &[0.5, 0.5, 0.5, 0.5]);
    let mut b = chain(2, &[0.5, 0.5, 0.5, 0.5]);
    assert_ne!(a.simulate(0, 200), b.simulate(0, 200));
}

#[test]
fn simulations_continue() {
    let mut whole = chain(3, &random_flat(3, 9));
    let mut parts = whole.clone();
    whole.seed(5);
    parts.seed(5);
    let all = whole.simulate(0, 61);
    let first = parts.simulate(0, 30);
    let second = parts.simulate(all[30], 31);
    assert_eq!(all[..30], first[..]);
    assert_eq!(all[30..], second[..]);
}

#[test]
fn simulation_without_a_way_out_stays() {
    // A row that sums to less than the number drawn keeps the chain in place.
    let mut mc = chain(2, &[0.0, 1e-300, 1.0, 0.0]);
    mc.seed(1);
    assert_eq!(mc.simulate(0, 4), vec![0, 0, 0, 0]);
    let mut none = MarkovChain::new();
    assert_eq!(none.simulate(70, 2), vec![70, 70]);
    assert_eq!(none.simulate(0, 0), Vec::<usize>::new());
}

#[test]
fn next_state_takes_the_first_threshold() {
    let mc = chain(3, &[0.25, 0.25, 0.5, 1.0, 0.0, 0.0, 0.0, 0.0, 0.5]);
    let next = |state, r| mc.matrix().next(state, double(r));
    assert_eq!(next(0, 0.0), 0);
    assert_eq!(next(0, 0.25), 0);
    assert_eq!(next(0, 0.26), 1);
    assert_eq!(next(0, 0.5), 1);
    assert_eq!(next(0, 0.99), 2);
    assert_eq!(next(1, 0.5), 0);
    assert_eq!(next(2, 0.75), 2);
    // No move to a state of probability zero, not even on a draw of zero.
    assert_eq!(next(2, 0.0), 2);
    let apart = chain(2, &[1.0, 0.0, 0.0, 1.0]);
    assert_eq!(apart.matrix().next(1, double(0.0)), 1);
    assert_eq!(apart.matrix().next(0, double(0.0)), 0);
}

#[test]
fn wasserstein_laws() {
    let a = doubles(&[0.3, 0.7, 0.1]);
    let b = doubles(&[0.6, 0.4]);
    let ab = wasserstein_distance(&a, &b);
    assert_eq!(ab.to_bits(), wasserstein_distance(&b, &a).to_bits());
    assert_eq!(float(ab), (0.3_f64 - 0.6).abs() + (0.3_f64 + 0.7 - (0.6 + 0.4)).abs());
    assert_eq!(wasserstein_distance(&a, &a).to_bits(), 0);
    assert_eq!(wasserstein_distance(&[], &a).to_bits(), 0);
    let endless = doubles(&[f64::INFINITY]);
    assert!(float(wasserstein_distance(&endless, &endless)).is_nan());
}

#[test]
fn occupation_laws() {
    let traj = vec![0, 1, 2, 1, 1, 0, 2];
    let mu = occupation_measure(&traj, 4);
    assert_eq!(floats(&mu), vec![2.0 / 7.0, 3.0 / 7.0, 2.0 / 7.0, 0.0]);
    assert_eq!(consumption_drift(&traj, &mu).to_bits(), 0);
    let same = doubles(&[2.0 / 7.0, 3.0 / 7.0, 2.0 / 7.0, -0.0]);
    assert_eq!(consumption_drift(&traj, &same).to_bits(), 0);
    assert!(occupation_measure(&[], 1).iter().all(|&x| float(x).is_nan()));
    assert!(float(ergodic_time_average(&[], &[])).is_nan());
    let pi = doubles(&[0.25, 0.25, 0.5]);
    let expected = wasserstein_distance(&occupation_measure(&traj, 3), &pi);
    assert_eq!(consumption_drift(&traj, &pi).to_bits(), expected.to_bits());
    assert!(float(expected) > 0.0);
}

#[test]
fn control_laws() {
    let mu = doubles(&[0.1, 0.2, 0.3]);
    let cost = doubles(&[3.0, -4.0]);
    let corr = control_correction(&mu, &mu, &cost);
    assert_eq!(corr.len(), 2);
    assert!(corr.iter().all(|&c| float(c) == 0.0));
    let step = lqr_step(&mu, &doubles(&[1.0, -50.0]), &cost, double(2.0));
    assert_eq!(
        floats(&step),
        vec![0.1 - 2.0 * (0.1 - 1.0 * 3.0), 0.2 - 2.0 * (0.2 - -50.0 * -4.0)],
    );
    let step = lqr_step(&mu, &doubles(&[-1.0]), &cost, double(2.0));
    assert_eq!(floats(&step), vec![0.0]);
}

#[test]
fn bounds_need_positive_parameters() {
    let pi = doubles(&[0.5, 0.5]);
    let f = doubles(&[1.0, 4.0]);
    let bound = |e: f64, d: f64| birkhoff_bound(&pi, &f, double(e), double(d)).map(float);
    assert_eq!(bound(-1.0, 0.5), None);
    assert_eq!(bound(1.0, -0.0), None);
    assert_eq!(bound(0.3, 0.07), Some((2.25_f64 / (0.3 * 0.3 * 0.07)).ceil()));
    assert!(bound(0.3, 0.07) <= bound(0.2, 0.07));
    assert!(bound(0.3, 0.07) <= bound(0.3, 0.01));
    assert!(bound(f64::NAN, 1.0).unwrap().is_nan());
    // Squares that vanish leave nothing to compare by.
    let same = doubles(&[2.0, 2.0]);
    let vanished = birkhoff_bound(&pi, &same, double(1e-200), double(1.0)).unwrap();
    assert!(float(vanished).is_nan());
}

#[test]
fn agreement_grows_with_the_tolerance() {
    let traj = vec![0, 1, 1];
    let f = doubles(&[1.0, 2.0]);
    let pi = doubles(&[0.5, 0.5]);
    let passes: Vec<bool> = [0.0, 0.1, 0.2, 10.0]
        .iter()
        .map(|&t| ergodic_check(&traj, &f, &pi, double(t)))
        .collect();
    assert_eq!(passes, vec![false, false, true, true]);
    assert!(!ergodic_check(&traj, &f, &pi, double(f64::NAN)));
}

#[test]
fn exact_budgets_leave_nothing() {
    let pi = doubles(&[0.1, 0.2, 0.7]);
    let resources = doubles(&[3.3, 4.4, 5.5]);
    let predicted = ergodic_transport::predict_consumption(&pi, &resources);
    assert_eq!(float(predicted), 0.1 * 3.3 + 0.2 * 4.4 + 0.7 * 5.5);
    assert_eq!(budget_adequacy(&[predicted], &pi, &resources).to_bits(), 0);
}

#[test]
fn laziness_makes_aperiodic() {
    let mc = graph_chain(&[&[1], &[2], &[3], &[0, 3]]);
    assert!(mc.is_ergodic().0);
}

/// A random probability vector.
fn random_distribution(n: usize, seed: u64) -> Vec<f64> {
    random_flat(n, seed)[..n].to_vec()
}

#[test]
fn stationary_distributions_are_distributions() {
    for n in 1..10 {
        let flat = random_flat(n, 70 + n as u64);
        let mc = chain(n, &flat);
        let pi = floats(&mc.stationary_distribution().unwrap());
        assert_eq!(pi.len(), n);
        assert!(pi.iter().all(|&p| (0.0..=1.0).contains(&p)));
        assert!((pi.iter().sum::<f64>() - 1.0).abs() <= 1e-12);
        let moved = machine_advance(n, &flat, &pi);
        assert!(moved.iter().zip(&pi).all(|(a, b)| (a - b).abs() <= 1e-10));
    }
    // An entry that is no number keeps the iteration from converging.
    let broken = chain(2, &[f64::NAN, 0.5, 0.5, 0.5]);
    assert!(broken.stationary_distribution().is_none());
}

#[test]
fn margins_grow_with_the_mixing_time() {
    let mc = chain(6, &random_flat(6, 77));
    let margin = |eps: f64| float(mc.budget_safety_margin(double(eps)).unwrap());
    assert_eq!(margin(1.5), 0.0);
    assert!(margin(0.1) > 0.0);
    assert!(margin(0.1) <= margin(0.01));
    assert!(margin(0.01) <= margin(1e-6));
    // No distribution is farther than one from another.
    assert_eq!(mc.mixing_time(double(1.000_000_1), 0), Some(0));
}

#[test]
fn stricter_bounds_of_a_chain_need_more() {
    let mc = chain(5, &random_flat(5, 31));
    let bound = |e: f64, d: f64| float(mc.birkhoff_bound(double(e), double(d)).unwrap());
    assert!(bound(0.1, 0.05) <= bound(0.01, 0.05));
    assert!(bound(0.1, 0.05) <= bound(0.1, 0.005));
    assert!(bound(0.1, 0.05) <= bound(0.01, 0.005));
    // A square that vanishes asks for endlessly many.
    assert_eq!(bound(1e-200, 0.05), f64::INFINITY);
    // The samples are enough.
    let pi = floats(&mc.stationary_distribution().unwrap());
    let mean: f64 = pi.iter().enumerate().map(|(i, p)| p * i as f64).sum();
    let var: f64 = pi.iter().enumerate().map(|(i, p)| p * (i as f64 - mean).powi(2)).sum();
    assert!(bound(0.3, 0.07) * 0.3 * 0.3 * 0.07 >= var * (1.0 - 1e-14));
    assert!((bound(0.3, 0.07) - 1.0) * 0.3 * 0.3 * 0.07 < var);
}

#[test]
fn wasserstein_triangle() {
    for seed in 0..40 {
        let n = 1 + seed as usize % 12;
        let a = doubles(&random_distribution(n, 3 * seed));
        let b = doubles(&random_distribution(n, 3 * seed + 1));
        let c = doubles(&random_distribution(n, 3 * seed + 2));
        let direct = float(wasserstein_distance(&a, &c));
        let detour =
            float(wasserstein_distance(&a, &b)) + float(wasserstein_distance(&b, &c));
        assert!(direct <= detour + 1e-9);
        assert!(direct <= detour * (1.0 + 1e-9));
    }
}

/// The cost of a plan, by rows.
fn plan_cost(plan: &[Vec<f64>]) -> f64 {
    let mut cost = 0.0;
    for (i, row) in plan.iter().enumerate() {
        for (j, x) in row.iter().enumerate() {
            cost += x * (i as f64 - j as f64).abs();
        }
    }
    cost
}

#[test]
fn wasserstein_is_the_least_transport_cost() {
    for seed in 0..40 {
        let n = 1 + seed as usize % 9;
        let a = random_distribution(n, 500 + 2 * seed);
        let b = random_distribution(n, 501 + 2 * seed);
        let distance = float(wasserstein_distance(&doubles(&a), &doubles(&b)));
        // The ordered plan: the first mass goes to the first place.
        let mut ordered = vec![vec![0.0; n]; n];
        let (mut from, mut to) = (a.clone(), b.clone());
        let (mut i, mut j) = (0, 0);
        while i < n && j < n {
            let x = from[i].min(to[j]);
            ordered[i][j] += x;
            from[i] -= x;
            to[j] -= x;
            if from[i] <= to[j] {
                i += 1;
            } else {
                j += 1;
            }
        }
        assert!((plan_cost(&ordered) - distance).abs() <= 1e-9);
        // The plan that carries to all places in the same proportions.
        let even: Vec<Vec<f64>> =
            a.iter().map(|x| b.iter().map(|y| x * y).collect()).collect();
        assert!(plan_cost(&even) >= distance - 1e-9);
        // The plan that carries the last mass to the first place.
        let mut reversed = vec![vec![0.0; n]; n];
        let (mut from, mut to) = (a.clone(), b.clone());
        let (mut i, mut j) = (n, 0);
        while i > 0 && j < n {
            let x = from[i - 1].min(to[j]);
            reversed[i - 1][j] += x;
            from[i - 1] -= x;
            to[j] -= x;
            if from[i - 1] <= to[j] {
                i -= 1;
            } else {
                j += 1;
            }
        }
        assert!(plan_cost(&reversed) >= distance - 1e-9);
    }
    let near = wasserstein_distance(&doubles(&[1.0, 0.0, 0.0]), &doubles(&[0.0, 1.0, 0.0]));
    let far = wasserstein_distance(&doubles(&[1.0, 0.0, 0.0]), &doubles(&[0.0, 0.0, 1.0]));
    assert_eq!((float(near), float(far)), (1.0, 2.0));
}

#[test]
fn drift_is_less_than_the_number_of_states() {
    for n in 1..9 {
        let mut mc = chain(n, &random_flat(n, 5 + n as u64));
        mc.seed(n as u64);
        let traj = mc.simulate(0, 200);
        let pi = mc.stationary_distribution().unwrap();
        assert!(float(consumption_drift(&traj, &pi)) <= n as f64 - 1.0 + 1e-9);
    }
    // As far apart as possible.
    let last = doubles(&[0.0, 0.0, 0.0, 1.0]);
    assert_eq!(float(consumption_drift(&[0, 0], &last)), 3.0);
}

#[test]
fn averages_lie_between_the_extremes() {
    for seed in 0..20 {
        let n = 2 + seed as usize % 7;
        let pi = doubles(&random_distribution(n, seed));
        let values: Vec<f64> = random_distribution(n, 1000 + seed)
            .iter()
            .map(|x| 1e5 * (x - 0.2))
            .collect();
        let least = values.iter().cloned().fold(f64::INFINITY, f64::min);
        let greatest = values.iter().cloned().fold(f64::NEG_INFINITY, f64::max);
        let slack = 1e-9 * least.abs().max(greatest.abs());
        let f = doubles(&values);
        let predicted = float(ergodic_transport::predict_consumption(&pi, &f));
        assert!(least - slack <= predicted && predicted <= greatest + slack);
        let mut mc = chain(n, &random_flat(n, 40 + seed));
        mc.seed(seed);
        let traj = mc.simulate(0, 500);
        let average = float(ergodic_time_average(&traj, &f));
        assert!(least - slack <= average && average <= greatest + slack);
        // The time average is the mean under the occupation measure.
        let mu = occupation_measure(&traj, n);
        assert!((floats(&mu).iter().sum::<f64>() - 1.0).abs() <= 1e-12);
        let mean = float(ergodic_transport::ergodic_ensemble_average(&mu, &f));
        assert!((average - mean).abs() <= slack);
    }
}

#[test]
fn factor_two_leaves_the_stationary_distribution() {
    for n in 1..8 {
        let flat = random_flat(n, 200 + n as u64);
        let twice: Vec<f64> = flat.iter().map(|x| 2.0 * x).collect();
        let pi = floats(&chain(n, &flat).stationary_distribution().unwrap());
        assert_eq!(floats(&chain(n, &twice).stationary_distribution().unwrap()), pi);
    }
    // Small entries are still far from the least number of the format.
    let small: Vec<f64> = random_flat(4, 9).iter().map(|x| 1e-150 + 1e-140 * x).collect();
    let twice: Vec<f64> = small.iter().map(|x| 2.0 * x).collect();
    let pi = floats(&chain(4, &small).stationary_distribution().unwrap());
    assert_eq!(floats(&chain(4, &twice).stationary_distribution().unwrap()), pi);
    // The least number of the format times one half is lost, twice as much is not.
    let least = f64::from_bits(1);
    assert!(chain(2, &[least; 4]).stationary_distribution().is_none());
    let twice = chain(2, &[2.0 * least; 4]).stationary_distribution().unwrap();
    assert_eq!(floats(&twice), vec![0.5, 0.5]);
}

#[test]
fn simulations_make_only_possible_moves() {
    let flat = [
        0.0, 0.25, 0.0, 0.75, //
        0.5, 0.0, 0.5, 0.0, //
        0.0, 1.0, 0.0, 0.0, //
        0.0, 0.0, 0.125, 0.875, //
    ];
    let mut mc = chain(4, &flat);
    for seed in 0..20 {
        mc.seed(seed);
        let traj = mc.simulate(seed as usize % 4, 300);
        assert!(traj.windows(2).all(|w| flat[4 * w[0] + w[1]] > 0.0));
    }
    // The least and the greatest draw.
    for draw in [0, u64::MAX] {
        for s in 0..4 {
            let to = mc.matrix().next(s, unit_draw(draw));
            assert!(flat[4 * s + to] > 0.0);
        }
    }
}
