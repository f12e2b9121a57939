use lau_dynamical_systems::clustering::cluster_first_fit;
use lau_dynamical_systems::correlation::{correlation_pairs, sampled_pairs, MAX_SAMPLED_PAIRS};
use lau_dynamical_systems::eigen_blocks::{diagonal_blocks, DiagonalBlock};

/// Final states of a 1D map over an evenly spaced grid.
fn finals_1d(map: impl Fn(f64) -> f64, x_min: f64, x_max: f64, n: usize, n_iter: usize) -> Vec<f64> {
    let dx = (x_max - x_min) / (n - 1).max(1) as f64;
    (0..n)
        .map(|i| {
            let mut x = x_min + dx * i as f64;
            for _ in 0..n_iter {
                x = map(x);
            }
            x
        })
        .collect()
}

#[test]
fn test_basin_logistic_r2_converges_to_one_attractor() {
    let finals = finals_1d(|x| 2.0 * x * (1.0 - x), 0.01, 0.99, 50, 1000);
    let included = vec![true; finals.len()];
    let c = cluster_first_fit(0, &included, |i, r| (finals[i] - finals[r]).abs() < 0.01);
    // For r=2, all orbits converge to x*=0.5
    assert_eq!(c.representatives.len(), 1);
    assert!((finals[c.representatives[0]] - 0.5).abs() < 0.01);
    assert!(c.assignment.iter().all(|a| *a == Some(0)));
}

#[test]
fn test_basin_logistic_multiple_attractors() {
    let finals = finals_1d(|x| 3.2 * x * (1.0 - x), 0.01, 0.99, 50, 2000);
    let included = vec![true; finals.len()];
    let c = cluster_first_fit(0, &included, |i, r| (finals[i] - finals[r]).abs() < 0.05);
    assert!(!c.representatives.is_empty());
}

#[test]
fn test_basin_2d_henon() {
    let (a, b) = (1.4, 0.3);
    let (nx, ny) = (20usize, 20usize);
    let dx = 3.0 / (nx - 1) as f64;
    let dy = 1.0 / (ny - 1) as f64;
    let mut finals = Vec::new();
    let mut included = Vec::new();
    for i in 0..nx {
        for j in 0..ny {
            let (mut x, mut y) = (-1.5 + dx * i as f64, -0.5 + dy * j as f64);
            for _ in 0..500 {
                let nxv = 1.0 - a * x * x + y;
                y = b * x;
                x = nxv;
                if !(x.is_finite() && y.is_finite()) {
                    break;
                }
            }
            included.push(x.is_finite() && y.is_finite());
            finals.push((x, y));
        }
    }
    let c = cluster_first_fit(0, &included, |i, r| {
        let (p, q) = (finals[i], finals[r]);
        ((p.0 - q.0).powi(2) + (p.1 - q.1).powi(2)).sqrt() < 0.5
    });
    assert!(!c.representatives.is_empty());
    let converged = c.assignment.iter().filter(|a| a.is_some()).count();
    assert!(converged > 0);
}

#[test]
fn first_fit_exact_assignment() {
    // Items on a line; near means within 1.5.
    let xs: [f64; 6] = [0.0, 1.0, 5.0, 2.0, 5.5, 10.0];
    let included = vec![true, true, true, true, false, true];
    let c = cluster_first_fit(0, &included, |i, r| (xs[i] - xs[r]).abs() < 1.5);
    assert_eq!(c.representatives, vec![0, 2, 3, 5]);
    assert_eq!(c.assignment, vec![Some(0), Some(0), Some(1), Some(2), None, Some(3)]);
}

#[test]
fn test_discover_attractors_dedups_against_known() {
    // Two attractors already known; candidates 2 and 3 repeat the first one.
    let xs: [f64; 5] = [0.0, 4.0, 0.00001, 4.00002, 7.0];
    let included = vec![true, true, true, false, true];
    let c = cluster_first_fit(2, &included, |i, r| (xs[i] - xs[r]).abs() < 1e-4);
    assert_eq!(c.representatives, vec![0, 1, 4]);
    assert_eq!(c.assignment, vec![Some(0), Some(1), Some(0), None, Some(2)]);
}

#[test]
fn discovering_again_adds_nothing() {
    // After a first discovery, the known attractors are 0.0, 4.0 and 7.0;
    // the same candidates found again are each near one of them.
    let xs: [f64; 6] = [0.0, 4.0, 7.0, 0.00001, 4.00002, 7.0];
    let included = vec![true; 6];
    let c = cluster_first_fit(3, &included, |i, r| (xs[i] - xs[r]).abs() < 1e-4);
    assert_eq!(c.representatives, vec![0, 1, 2]);
    assert_eq!(c.assignment, vec![Some(0), Some(1), Some(2), Some(0), Some(1), Some(2)]);
}

#[test]
fn sampled_pairs_all_when_few() {
    let pairs = sampled_pairs(10, MAX_SAMPLED_PAIRS);
    assert_eq!(pairs.len(), 45);
    assert_eq!(pairs[0], (0, 1));
    assert_eq!(pairs[8], (0, 9));
    assert_eq!(pairs[9], (1, 2));
    assert_eq!(pairs[44], (8, 9));
}

#[test]
fn sampled_pairs_subsample_every_step() {
    // 45 pairs, at most 10 kept: every 5th pair.
    let pairs = sampled_pairs(10, 10);
    assert_eq!(pairs.len(), 9);
    assert_eq!(pairs[0], (0, 5));
    assert_eq!(pairs[1], (1, 2));
    assert_eq!(pairs[8], (8, 9));
    let many = sampled_pairs(1000, MAX_SAMPLED_PAIRS);
    assert!(many.len() <= MAX_SAMPLED_PAIRS);
    assert_eq!(many.len(), 499500 / 50);
    assert!(sampled_pairs(0, 10).is_empty());
    assert!(sampled_pairs(1, 10).is_empty());
}

#[test]
fn correlation_pairs_need_ten_points() {
    assert!(correlation_pairs(9).is_empty());
    assert_eq!(correlation_pairs(10).len(), 45);
    assert_eq!(correlation_pairs(200).len(), 19900 / 2);
}

#[test]
fn test_correlation_dimension_basic() {
    // Points on a line should have dimension ~1
    let points: Vec<f64> = (0..100).map(|i| i as f64 / 100.0).collect();
    let pairs = correlation_pairs(points.len());
    let distances: Vec<f64> = pairs.iter().map(|&(i, j)| (points[i] - points[j]).abs()).collect();
    let (max_r, n_bins) = (2.0, 20);
    let dr = max_r / n_bins as f64;
    let total = distances.len() as f64;
    let mut log_r = Vec::new();
    let mut log_c = Vec::new();
    for i in 1..=n_bins {
        let r = dr * i as f64;
        let c = distances.iter().filter(|&&d| d < r).count() as f64 / total;
        if c > 0.0 && r > 0.0 {
            log_r.push(r.ln());
            log_c.push(c.ln());
        }
    }
    let n_pts = log_r.len() as f64;
    let sx: f64 = log_r.iter().sum();
    let sy: f64 = log_c.iter().sum();
    let sxy: f64 = log_r.iter().zip(log_c.iter()).map(|(x, y)| x * y).sum();
    let sx2: f64 = log_r.iter().map(|x| x * x).sum();
    let dim = ((n_pts * sxy - sx * sy) / (n_pts * sx2 - sx * sx)).max(0.0);
    assert!(dim > 0.5 && dim < 2.0, "Line dimension should be ~1, got {dim}");
}

#[test]
fn diagonal_blocks_partition() {
    assert_eq!(diagonal_blocks(&vec![]), vec![]);
    assert_eq!(
        diagonal_blocks(&vec![false, true, false, true]),
        vec![DiagonalBlock::Single(0), DiagonalBlock::Pair(1), DiagonalBlock::Single(3)]
    );
    assert_eq!(diagonal_blocks(&vec![true, true, true]), vec![DiagonalBlock::Pair(0), DiagonalBlock::Single(2)]);
}
