use lau_dynamical_systems::bifurcation::{
    period_doubling_verdict, smallest_period, sweep, BifurcationType,
};
use lau_dynamical_systems::trajectory::trajectory;

fn logistic(r: f64, x: f64) -> f64 {
    r * x * (1.0 - x)
}

/// The orbit period of the logistic map at `r`, measured as the library does:
/// after `transient` steps, the first period in 1..=50 with which the next
/// `test` points repeat within 1e-6 on a window of at most 200 points.
fn measured_period(r: f64, transient: usize, test: usize) -> usize {
    let mut x = 0.5;
    for _ in 0..transient {
        x = logistic(r, x);
    }
    let orbit = trajectory(x, test, |y: &f64| logistic(r, *y));
    let tol = 1e-6;
    smallest_period(test.min(200), 50, |i, j| (orbit[i] - orbit[j]).abs() > tol)
}

#[test]
fn test_logistic_period_1_at_r2_5() {
    assert_eq!(measured_period(2.5, 2000, 500), 1);
}

#[test]
fn test_logistic_period_2_at_r3_2() {
    assert_eq!(measured_period(3.2, 2000, 500), 2);
}

#[test]
fn test_logistic_period_4_at_r3_5() {
    assert_eq!(measured_period(3.5, 2000, 500), 4);
}

#[test]
fn smallest_period_exact_values() {
    // A sequence with period 3 on its first window.
    let orbit: Vec<u32> = (0..60).map(|k| k % 3).collect();
    assert_eq!(smallest_period(10, 50, |i, j| orbit[i] != orbit[j]), 3);
    // No period up to 2 exists: the answer is 0.
    assert_eq!(smallest_period(10, 2, |i, j| orbit[i] != orbit[j]), 0);
    // An empty window repeats with period 1.
    assert_eq!(smallest_period(0, 50, |_i, _j| true), 1);
    // No period to try.
    assert_eq!(smallest_period(5, 0, |_i, _j| false), 0);
}

#[test]
fn period_doubling_verdicts() {
    assert_eq!(period_doubling_verdict(1, 1, 2), Some(BifurcationType::PeriodDoubling));
    assert_eq!(period_doubling_verdict(2, 2, 4), Some(BifurcationType::PeriodDoubling));
    assert_eq!(period_doubling_verdict(1, 2, 2), None);
    assert_eq!(period_doubling_verdict(1, 1, 1), None);
    assert_eq!(period_doubling_verdict(0, 0, 0), Some(BifurcationType::PeriodDoubling));
}

#[test]
fn detect_period_doubling_near_r3() {
    // Period 1 just below r = 3.1 and period 2 at it.
    let before = measured_period(3.1 - 0.2, 2000, 500);
    let at = measured_period(3.1, 2000, 500);
    assert_eq!(period_doubling_verdict(1, before, at), Some(BifurcationType::PeriodDoubling));
}

/// The logistic bifurcation diagram as the library builds it: a sweep over
/// `r_steps + 1` parameter values, recording `record` points after a transient.
fn logistic_diagram(r_range: (f64, f64), r_steps: usize, transient: usize, record: usize) -> Vec<(f64, f64)> {
    let dr = (r_range.1 - r_range.0) / r_steps as f64;
    let r_at = |i: usize| r_range.0 + dr * i as f64;
    let points = sweep(r_steps, |i: usize| {
        let r = r_at(i);
        let mut x = 0.5;
        for _ in 0..transient {
            x = logistic(r, x);
        }
        let mut values = Vec::new();
        for _ in 0..record {
            x = logistic(r, x);
            values.push(x);
        }
        values
    });
    points.iter().map(|&(i, v)| (r_at(i), v)).collect()
}

#[test]
fn test_logistic_bifurcation_produces_points() {
    let pts = logistic_diagram((2.5, 4.0), 100, 500, 50);
    assert!(!pts.is_empty());
    assert!(pts.len() > 100 * 50);
}

#[test]
fn test_bifurcation_range_coverage() {
    let pts = logistic_diagram((3.0, 3.0), 1, 100, 10);
    // 0..=r_steps = 2 r values, each recording 10 points = 20
    assert_eq!(pts.len(), 20);
    for p in &pts {
        assert!((p.0 - 3.0).abs() < 1e-10);
    }
}

#[test]
fn sweep_point_k_belongs_to_grid_point_k_div_record() {
    let record = 3;
    let pts = sweep(4, |i: usize| (0..record).map(|m| 100 * i + m).collect::<Vec<usize>>());
    assert_eq!(pts.len(), 5 * record);
    for (k, &(g, v)) in pts.iter().enumerate() {
        assert_eq!(g, k / record);
        assert_eq!(v, 100 * (k / record) + k % record);
    }
}

#[test]
fn sweep_tags_in_grid_order() {
    let pts = sweep(2, |i: usize| vec![i * 10; i]);
    assert_eq!(pts, vec![(1, 10), (2, 20), (2, 20)]);
    let empty = sweep(0, |_i: usize| Vec::<u8>::new());
    assert!(empty.is_empty());
}

#[test]
fn test_iterate_count() {
    let traj = trajectory(0.5, 100, |x: &f64| logistic(2.0, *x));
    assert_eq!(traj.len(), 101);
}

#[test]
fn trajectory_steps_from_previous_state() {
    let traj = trajectory(1u64, 5, |x: &u64| x * 3);
    assert_eq!(traj, vec![1, 3, 9, 27, 81, 243]);
    let single = trajectory(7i32, 0, |x: &i32| x + 1);
    assert_eq!(single, vec![7]);
}
