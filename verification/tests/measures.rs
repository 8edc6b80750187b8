use ergodic_transport::{
    birkhoff_bound, budget_adequacy, consumption_drift, control_correction, ergodic_check,
    ergodic_ensemble_average, ergodic_time_average, lqr_step, occupation_measure,
    predict_consumption, wasserstein_distance, Double,
};

fn double(x: f64) -> Double {
    Double::from_bits(x.to_bits())
}

fn doubles(xs: &[f64]) -> Vec<Double> {
    xs.iter().map(|&x| double(x)).collect()
}

fn float(x: Double) -> f64 {
    f64::from_bits(x.to_bits())
}

fn floats(xs: &[Double]) -> Vec<f64> {
    xs.iter().map(|&x| float(x)).collect()
}

#[test]
fn test_ergodic_time_average() {
    let traj = vec![0, 1, 0, 1];
    let f = doubles(&[10.0, 20.0]);
    let avg = float(ergodic_time_average(&traj, &f));
    assert!((avg - 15.0).abs() < 1e-12);
}

#[test]
fn test_ergodic_ensemble_average() {
    let pi = doubles(&[0.8, 0.2]);
    let f = doubles(&[5.0, 10.0]);
    let avg = float(ergodic_ensemble_average(&pi, &f));
    assert!((avg - 6.0).abs() < 1e-12);
}

#[test]
fn test_ergodic_check_true() {
    let traj = vec![0, 1, 0, 1, 0, 1];
    let f = doubles(&[1.0, 2.0]);
    let pi = doubles(&[0.5, 0.5]);
    assert!(ergodic_check(&traj, &f, &pi, double(0.5)));
}

#[test]
fn test_ergodic_check_false() {
    let traj = vec![0, 0, 0, 0];
    let f = doubles(&[1.0, 100.0]);
    let pi = doubles(&[0.5, 0.5]);
    assert!(!ergodic_check(&traj, &f, &pi, double(1.0)));
}

#[test]
fn test_wasserstein_distance_identical() {
    let d = float(wasserstein_distance(&doubles(&[0.5, 0.5]), &doubles(&[0.5, 0.5])));
    assert!((d - 0.0).abs() < 1e-12);
}

#[test]
fn test_wasserstein_distance_different() {
    let d = float(wasserstein_distance(&doubles(&[1.0, 0.0]), &doubles(&[0.0, 1.0])));
    assert!((d - 1.0).abs() < 1e-12);
}

#[test]
fn test_wasserstein_distance_symmetric() {
    let a = doubles(&[0.3, 0.7]);
    let b = doubles(&[0.6, 0.4]);
    let d1 = float(wasserstein_distance(&a, &b));
    let d2 = float(wasserstein_distance(&b, &a));
    assert!((d1 - d2).abs() < 1e-12);
}

#[test]
fn test_consumption_drift_zero() {
    let traj = vec![0, 1, 0, 1, 0, 1];
    let pi = doubles(&[0.5, 0.5]);
    let d = float(consumption_drift(&traj, &pi));
    assert!(d < 1e-12);
}

#[test]
fn test_control_correction_basic() {
    let current = doubles(&[0.8, 0.2]);
    let target = doubles(&[0.5, 0.5]);
    let cost = doubles(&[1.0, 2.0]);
    let corr = floats(&control_correction(&current, &target, &cost));
    assert!((corr[0] - (-0.3)).abs() < 1e-12);
    assert!((corr[1] - 0.6).abs() < 1e-12);
}

#[test]
fn test_control_correction_zero_when_equal() {
    let d = doubles(&[0.5, 0.5]);
    let c = doubles(&[1.0; 2]);
    let corr = control_correction(&d, &d, &c);
    for v in corr {
        assert!(float(v).abs() < 1e-12);
    }
}

#[test]
fn test_lqr_step_basic() {
    let alloc = doubles(&[10.0, 20.0]);
    let target = doubles(&[1.0, 2.0]);
    let cost = doubles(&[1.0, 1.0]);
    let result = floats(&lqr_step(&alloc, &target, &cost, double(0.5)));
    assert!((result[0] - 5.5).abs() < 1e-10);
    assert!((result[1] - 11.0).abs() < 1e-10);
}

#[test]
fn test_lqr_step_no_negative() {
    let alloc = doubles(&[1.0]);
    let target = doubles(&[100.0]);
    let cost = doubles(&[10.0]);
    let result = floats(&lqr_step(&alloc, &target, &cost, double(2.0)));
    assert!(result[0] >= 0.0);
}

#[test]
fn test_predict_consumption_deterministic() {
    let pi = doubles(&[1.0]);
    let resources = doubles(&[42.0]);
    assert!((float(predict_consumption(&pi, &resources)) - 42.0).abs() < 1e-12);
}

#[test]
fn test_predict_consumption_mixed() {
    let pi = doubles(&[0.5, 0.5]);
    let resources = doubles(&[10.0, 20.0]);
    assert!((float(predict_consumption(&pi, &resources)) - 15.0).abs() < 1e-12);
}

#[test]
fn test_budget_adequacy_exact() {
    let alloc = doubles(&[15.0]);
    let pi = doubles(&[1.0]);
    let res = doubles(&[15.0]);
    assert!(float(budget_adequacy(&alloc, &pi, &res)).abs() < 1e-12);
}

#[test]
fn test_budget_adequacy_shortfall() {
    let alloc = doubles(&[10.0]);
    let pi = doubles(&[1.0]);
    let res = doubles(&[15.0]);
    assert!((float(budget_adequacy(&alloc, &pi, &res)) - (-5.0)).abs() < 1e-12);
}

#[test]
fn test_occupation_measure_single_state() {
    let traj = vec![0, 0, 0, 0];
    let mu = floats(&occupation_measure(&traj, 1));
    assert!((mu[0] - 1.0).abs() < 1e-12);
}

#[test]
fn test_occupation_measure_two_states() {
    let traj = vec![0, 1, 0, 1];
    let mu = floats(&occupation_measure(&traj, 2));
    assert!((mu[0] - 0.5).abs() < 1e-12);
    assert!((mu[1] - 0.5).abs() < 1e-12);
}

#[test]
fn test_wasserstein_three_state() {
    let d = float(wasserstein_distance(
        &doubles(&[0.2, 0.3, 0.5]),
        &doubles(&[0.5, 0.3, 0.2]),
    ));
    assert!((d - 0.6).abs() < 1e-12);
}

#[test]
fn test_birkhoff_bound_free_function() {
    let pi = doubles(&[0.5, 0.5]);
    let f = doubles(&[10.0, 20.0]);
    let n = float(birkhoff_bound(&pi, &f, double(1.0), double(0.05)).unwrap());
    assert!((n - 500.0).abs() < 1e-9);
}

#[test]
fn test_ergodic_check_positive_tolerance_always_true() {
    let traj = vec![0, 0, 0, 0];
    let f = doubles(&[1.0, 100.0]);
    let pi = doubles(&[0.5, 0.5]);
    assert!(ergodic_check(&traj, &f, &pi, double(1e6)));
}
