use ergodic_transport::{gcd, Double, MarkovChain};
use nalgebra::DMatrix;

fn double(x: f64) -> Double {
    Double::from_bits(x.to_bits())
}

fn doubles(xs: &[f64]) -> Vec<Double> {
    xs.iter().map(|&x| double(x)).collect()
}

fn float(x: Double) -> f64 {
    f64::from_bits(x.to_bits())
}

fn floats(xs: &[Double]) -> Vec<f64> {
    xs.iter().map(|&x| float(x)).collect()
}

fn chain(n: usize, flat: &[f64]) -> MarkovChain {
    MarkovChain::from_flat(n, &doubles(flat))
}

/// A 2-state chain that is ergodic.
fn simple_ergodic_2() -> MarkovChain {
    chain(2, &[0.7, 0.3, 0.4, 0.6])
}

/// 0 <-> 1, with 2 unreachable.
fn periodic_3() -> MarkovChain {
    chain(3, &[0.0, 1.0, 0.0, 1.0, 0.0, 0.0, 0.0, 0.0, 1.0])
}

/// The cycle 0 -> 1 -> 2 -> 3 -> 0.
fn cycle_4() -> MarkovChain {
    chain(
        4,
        &[
            0.0, 1.0, 0.0, 0.0, //
            0.0, 0.0, 1.0, 0.0, //
            0.0, 0.0, 0.0, 1.0, //
            1.0, 0.0, 0.0, 0.0, //
        ],
    )
}

/// A 2-state chain that does not come back from state 1.
fn reducible_2() -> MarkovChain {
    chain(2, &[0.5, 0.5, 0.0, 1.0])
}

#[test]
fn test_construction_flat() {
    let mc = chain(2, &[0.1, 0.9, 0.8, 0.2]);
    assert_eq!(mc.tm.n, 2);
    assert!((float(mc.tm.data[0][0]) - 0.1).abs() < 1e-12);
    assert!((float(mc.tm.data[1][1]) - 0.2).abs() < 1e-12);
}

#[test]
fn test_new_is_empty() {
    let mc = MarkovChain::new();
    assert_eq!(mc.tm.n, 0);
}

#[test]
fn test_stationary_2state() {
    let mc = simple_ergodic_2();
    let pi = floats(&mc.stationary_distribution().unwrap());
    assert!((pi[0] - 4.0 / 7.0).abs() < 1e-6);
    assert!((pi[1] - 3.0 / 7.0).abs() < 1e-6);
}

#[test]
fn test_stationary_sums_to_one() {
    let mc = simple_ergodic_2();
    let pi = floats(&mc.stationary_distribution().unwrap());
    let s: f64 = pi.iter().sum();
    assert!((s - 1.0).abs() < 1e-12);
}

#[test]
fn test_stationary_is_fixed_point() {
    let mc = simple_ergodic_2();
    let pi = floats(&mc.stationary_distribution().unwrap());
    let n = mc.tm.n;
    let mut new_pi = vec![0.0; n];
    for j in 0..n {
        for i in 0..n {
            new_pi[j] += pi[i] * float(mc.tm.data[i][j]);
        }
    }
    for j in 0..n {
        assert!((new_pi[j] - pi[j]).abs() < 1e-10);
    }
}

#[test]
fn test_stationary_3state() {
    let mc = chain(3, &[1.0 / 3.0; 9]);
    let pi = floats(&mc.stationary_distribution().unwrap());
    for &v in &pi {
        assert!((v - 1.0 / 3.0).abs() < 1e-12);
    }
}

#[test]
fn test_stationary_empty_returns_none() {
    let mc = MarkovChain::new();
    assert!(mc.stationary_distribution().is_none());
}

#[test]
fn test_simulate_length() {
    let mut mc = simple_ergodic_2();
    let traj = mc.simulate(0, 100);
    assert_eq!(traj.len(), 100);
}

#[test]
fn test_simulate_all_valid_states() {
    let mut mc = simple_ergodic_2();
    let traj = mc.simulate(0, 200);
    for &s in &traj {
        assert!(s < 2);
    }
}

#[test]
fn test_simulate_starts_at_s0() {
    let mut mc = simple_ergodic_2();
    let traj = mc.simulate(1, 5);
    assert_eq!(traj[0], 1);
}

#[test]
fn test_simulate_seed_determinism() {
    let mut mc = simple_ergodic_2();
    mc.seed(42);
    let a = mc.simulate(0, 20);
    mc.seed(42);
    let b = mc.simulate(0, 20);
    assert_eq!(a, b);
}

#[test]
fn test_simulate_different_seeds_differ() {
    let mut mc = simple_ergodic_2();
    mc.seed(1);
    let a = mc.simulate(0, 50);
    mc.seed(999);
    let b = mc.simulate(0, 50);
    assert_ne!(a, b);
}

#[test]
fn test_simulate_rng_persists_across_calls() {
    let mut mc = simple_ergodic_2();
    mc.seed(42);
    let a = mc.simulate(0, 30);
    let b = mc.simulate(0, 30);
    assert_ne!(a, b);
}

#[test]
fn test_is_ergodic_simple() {
    let mc = simple_ergodic_2();
    let (ok, reason) = mc.is_ergodic();
    assert!(ok, "should be ergodic: {}", reason);
}

#[test]
fn test_is_ergodic_contains_ergodic_in_reason() {
    let mc = simple_ergodic_2();
    let (ok, reason) = mc.is_ergodic();
    assert!(ok);
    assert!(reason.contains("ergodic"));
}

#[test]
fn test_is_ergodic_cycle4_fails() {
    let mc = cycle_4();
    let (ok, reason) = mc.is_ergodic();
    assert!(!ok, "cycle should not be ergodic: {}", reason);
    assert!(reason.contains("period"));
}

#[test]
fn test_is_ergodic_reducible2() {
    let mc = reducible_2();
    let (ok, reason) = mc.is_ergodic();
    assert!(!ok, "reducible chain should not be ergodic: {}", reason);
}

#[test]
fn test_is_ergodic_empty() {
    let mc = MarkovChain::new();
    let (ok, reason) = mc.is_ergodic();
    assert!(!ok);
    assert!(reason.contains("no states"));
}

#[test]
fn test_is_ergodic_periodic_3() {
    let mc = periodic_3();
    let (ok, _reason) = mc.is_ergodic();
    assert!(!ok, "periodic/reducible chain should not be ergodic");
}

#[test]
fn test_mixing_time_returns_some() {
    let mc = simple_ergodic_2();
    let t = mc.mixing_time(double(0.01), 10_000);
    assert!(t.is_some());
}

#[test]
fn test_mixing_time_reasonable() {
    let mc = simple_ergodic_2();
    let t = mc.mixing_time(double(0.001), 10_000).unwrap();
    assert!(t > 0);
    assert!(t < 10_000);
}

#[test]
fn test_mixing_time_empty_returns_none() {
    let mc = MarkovChain::new();
    assert!(mc.mixing_time(double(0.01), 10_000).is_none());
}

#[test]
fn test_birkhoff_bound_positive() {
    let mc = simple_ergodic_2();
    let n = float(mc.birkhoff_bound(double(0.05), double(0.01)).unwrap());
    assert!(n >= 1.0);
}

#[test]
fn test_birkhoff_bound_eps_zero_returns_none() {
    let mc = simple_ergodic_2();
    assert!(mc.birkhoff_bound(double(0.0), double(0.01)).is_none());
}

#[test]
fn test_birkhoff_bound_delta_zero_returns_none() {
    let mc = simple_ergodic_2();
    assert!(mc.birkhoff_bound(double(0.05), double(0.0)).is_none());
}

#[test]
fn test_birkhoff_bound_stricter_eps_needs_more() {
    let mc = simple_ergodic_2();
    let n1 = float(mc.birkhoff_bound(double(0.1), double(0.01)).unwrap());
    let n2 = float(mc.birkhoff_bound(double(0.05), double(0.01)).unwrap());
    assert!(n2 >= n1);
}

#[test]
fn test_budget_safety_margin_positive() {
    let mc = simple_ergodic_2();
    let m = mc.budget_safety_margin(double(0.01));
    assert!(m.is_some());
    assert!(float(m.unwrap()) >= 0.0);
}

#[test]
fn test_budget_safety_margin_empty_returns_none() {
    let mc = MarkovChain::new();
    assert!(mc.budget_safety_margin(double(0.01)).is_none());
}

#[test]
fn test_budget_safety_margin_more_mixing_larger_margin() {
    let fast = simple_ergodic_2();
    let slow = chain(2, &[0.999, 0.001, 0.001, 0.999]);
    let m_fast = float(fast.budget_safety_margin(double(0.01)).unwrap());
    let m_slow = float(slow.budget_safety_margin(double(0.01)).unwrap());
    assert!(m_slow >= m_fast);
}

#[test]
fn test_double_simulate_advances_rng() {
    let mut mc = simple_ergodic_2();
    mc.seed(1234);
    let _first = mc.simulate(0, 10);
    mc.seed(1234);
    let second = mc.simulate(0, 10);
    let third = mc.simulate(0, 10);
    assert_ne!(second, third);
}

#[test]
fn test_gcd_helper() {
    assert_eq!(gcd(12, 8), 4);
    assert_eq!(gcd(7, 3), 1);
    assert_eq!(gcd(0, 5), 5);
    assert_eq!(gcd(-6, 15), 3);
}

#[test]
fn test_nalgebra_support() {
    let n = 2_usize;
    let mc = simple_ergodic_2();
    let flat: Vec<f64> = (0..n * n)
        .map(|idx| float(mc.tm.data[idx / n][idx % n]))
        .collect();
    let m = DMatrix::from_row_slice(n, n, &flat);
    assert!((m[(0, 0)] - 0.7).abs() < 1e-12);
    assert!((m[(1, 1)] - 0.6).abs() < 1e-12);
}

#[test]
fn test_simulate_large_n() {
    let mut mc = chain(2, &[0.5, 0.5, 0.5, 0.5]);
    mc.seed(7);
    let traj = mc.simulate(0, 1000);
    assert_eq!(traj.len(), 1000);
    let count_0 = traj.iter().filter(|&&s| s == 0).count();
    let count_1 = traj.iter().filter(|&&s| s == 1).count();
    assert_eq!(count_0 + count_1, 1000);
    let ratio = count_0 as f64 / 1000.0;
    assert!((ratio - 0.5).abs() < 0.15);
}

#[test]
fn test_stationary_of_lazy_random_walk() {
    let mc = chain(
        3,
        &[
            0.5, 0.25, 0.25, //
            0.25, 0.5, 0.25, //
            0.25, 0.25, 0.5, //
        ],
    );
    let pi = floats(&mc.stationary_distribution().unwrap());
    assert!((pi[0] - 1.0 / 3.0).abs() < 1e-6);
    assert!((pi[1] - 1.0 / 3.0).abs() < 1e-6);
    assert!((pi[2] - 1.0 / 3.0).abs() < 1e-6);
}
