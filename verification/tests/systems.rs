use lau_dynamical_systems::newton::{newton_search, NewtonStep};
use lau_dynamical_systems::stability::{classify_signs, EigenSigns, Stability};
use lau_dynamical_systems::trajectory::trajectory;
use nalgebra::{DMatrix, DVector};

const SIGMA: f64 = 10.0;
const RHO: f64 = 28.0;
const BETA: f64 = 8.0 / 3.0;

fn lorenz_f(x: &DVector<f64>) -> DVector<f64> {
    DVector::from_vec(vec![
        SIGMA * (x[1] - x[0]),
        x[0] * (RHO - x[2]) - x[1],
        x[0] * x[1] - BETA * x[2],
    ])
}

fn lorenz_jacobian(x: &DVector<f64>) -> DMatrix<f64> {
    DMatrix::from_row_slice(3, 3, &[-SIGMA, SIGMA, 0.0, RHO - x[2], -1.0, -x[0], x[1], x[0], -BETA])
}

fn flow_class(jac: &DMatrix<f64>, eps: f64) -> Stability {
    let signs: Vec<EigenSigns> = jac
        .complex_eigenvalues()
        .iter()
        .map(|e| EigenSigns { growing: e.re > eps, decaying: e.re < -eps })
        .collect();
    classify_signs(&signs)
}

fn map_class(jac: &DMatrix<f64>, eps: f64) -> Stability {
    let signs: Vec<EigenSigns> = jac
        .complex_eigenvalues()
        .iter()
        .map(|e| {
            let m = e.norm();
            EigenSigns { growing: m > 1.0 + eps, decaying: m < 1.0 - eps }
        })
        .collect();
    classify_signs(&signs)
}

#[test]
fn test_lorenz_origin_stability() {
    let x0 = DVector::from_vec(vec![0.0, 0.0, 0.0]);
    assert_eq!(flow_class(&lorenz_jacobian(&x0), 1e-8), Stability::Saddle);
}

#[test]
fn test_lorenz_nontrivial_fixed_points_are_stable_or_saddle() {
    let c = (BETA * (RHO - 1.0)).sqrt();
    let fp = DVector::from_vec(vec![c, c, RHO - 1.0]);
    let class = flow_class(&lorenz_jacobian(&fp), 1e-8);
    // For canonical Lorenz, these are saddle points
    assert!(matches!(class, Stability::Unstable | Stability::Saddle));
}

#[test]
fn test_find_lorenz_fixed_point() {
    let tol = 1e-12;
    let x0 = DVector::from_vec(vec![1.0, 1.0, 1.0]);
    let fp = newton_search(
        x0,
        100,
        |x: &DVector<f64>| {
            let f = lorenz_f(x);
            if f.norm() < tol {
                return NewtonStep::Converged;
            }
            match lorenz_jacobian(x).lu().solve(&f) {
                Some(delta) => NewtonStep::Moved(x - &delta),
                None => NewtonStep::Singular,
            }
        },
        |x: &DVector<f64>| lorenz_f(x).norm() < tol * 10.0,
    );
    assert!(fp.is_some());
    let fp = fp.unwrap();
    assert!(lorenz_f(&fp).norm() < 1e-8);
}

#[test]
fn test_henon_fixed_point_analysis() {
    let (a, b) = (1.4_f64, 0.3_f64);
    let disc = (b - 1.0).powi(2) + 4.0 * a;
    let x_fp = (-(b - 1.0) - disc.sqrt()) / (2.0 * a);
    let jac = DMatrix::from_row_slice(2, 2, &[-2.0 * a * x_fp, 1.0, b, 0.0]);
    assert!(matches!(map_class(&jac, 1e-6), Stability::Unstable | Stability::Saddle));
}

#[test]
fn test_henon_bounded_orbit() {
    let (a, b) = (1.4, 0.3);
    let x0 = DVector::from_vec(vec![0.0, 0.0]);
    let traj = trajectory(x0, 5000, |x: &DVector<f64>| {
        DVector::from_vec(vec![1.0 - a * x[0] * x[0] + x[1], b * x[0]])
    });
    assert_eq!(traj.len(), 5001);
    for s in &traj[100..] {
        assert!(s[0].abs() < 5.0);
        assert!(s[1].abs() < 5.0);
    }
}
