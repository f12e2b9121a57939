use lau_dynamical_systems::section::{
    consecutive_pairs, floquet_plan, project_out, upward_crossings, FloquetPlan, SectionSide,
};

fn side(x: f64, value: f64) -> SectionSide {
    if x < value {
        SectionSide::Below
    } else if x >= value {
        SectionSide::AtOrAbove
    } else {
        SectionSide::Unordered
    }
}

/// Crossing times, interpolated linearly between the two states of each
/// upward crossing step.
fn crossing_times(states: &[Vec<f64>], times: &[f64], component: usize, value: f64) -> Vec<f64> {
    let sides: Vec<SectionSide> = states.iter().map(|s| side(s[component], value)).collect();
    upward_crossings(&sides)
        .iter()
        .map(|&i| {
            let prev = states[i - 1][component];
            let curr = states[i][component];
            let alpha = (value - prev) / (curr - prev);
            times[i - 1] + alpha * (times[i] - times[i - 1])
        })
        .collect()
}

#[test]
fn test_poincare_no_crossings_flat_signal() {
    let states = vec![vec![1.0, 2.0], vec![1.0, 2.0], vec![1.0, 2.0]];
    let times = vec![0.0, 1.0, 2.0];
    let crossings = crossing_times(&states, &times, 0, 0.5);
    assert_eq!(crossings.len(), 0);
}

#[test]
fn test_poincare_single_crossing() {
    let states = vec![vec![0.0, 0.0], vec![2.0, 0.0]];
    let times = vec![0.0, 1.0];
    let crossings = crossing_times(&states, &times, 0, 1.0);
    assert_eq!(crossings.len(), 1);
    assert!((crossings[0] - 0.5).abs() < 1e-10);
}

#[test]
fn upward_crossings_only_upward() {
    let sides = vec![
        SectionSide::Below,
        SectionSide::AtOrAbove,
        SectionSide::AtOrAbove,
        SectionSide::Below,
        SectionSide::Below,
        SectionSide::AtOrAbove,
        SectionSide::Unordered,
        SectionSide::AtOrAbove,
    ];
    assert_eq!(upward_crossings(&sides), vec![1, 5]);
    assert_eq!(upward_crossings(&vec![]), Vec::<usize>::new());
    assert_eq!(upward_crossings(&vec![SectionSide::Below]), Vec::<usize>::new());
    // A NaN coordinate is neither below nor above: no crossing through it.
    assert_eq!(upward_crossings(&vec![SectionSide::Below, SectionSide::Unordered, SectionSide::AtOrAbove]), Vec::<usize>::new());
    assert_eq!(side(f64::NAN, 0.0), SectionSide::Unordered);
}

#[test]
fn test_estimate_period_insufficient_data() {
    let none: Vec<f64> = vec![];
    assert!(consecutive_pairs(&none).is_empty());
    assert!(consecutive_pairs(&vec![1.0]).is_empty());
}

#[test]
fn return_map_pairs_consecutive() {
    let xs = vec![1.0, 2.5, 4.0, 3.0];
    assert_eq!(consecutive_pairs(&xs), vec![(1.0, 2.5), (2.5, 4.0), (4.0, 3.0)]);
    let times = vec![0.0, 2.0, 4.5];
    let periods: Vec<f64> = consecutive_pairs(&times).iter().map(|(a, b)| b - a).collect();
    let mean = periods.iter().sum::<f64>() / periods.len() as f64;
    assert!((mean - 2.25).abs() < 1e-12);
}

#[test]
fn test_poincare_section_points_dimension() {
    let state = vec![1.0, 2.0, 25.0];
    let p = project_out(&state, 3, 2);
    assert_eq!(p.len(), 2);
    assert_eq!(p, vec![1.0, 2.0]);
    assert_eq!(project_out(&state, 3, 0), vec![2.0, 25.0]);
    // A section component outside the state keeps every coordinate.
    assert_eq!(project_out(&state, 3, 7), vec![1.0, 2.0, 25.0]);
    assert_eq!(project_out(&state, 2, 1), vec![1.0]);
}

#[test]
fn floquet_plans() {
    assert_eq!(floquet_plan(3, 2, 2), None);
    assert_eq!(floquet_plan(4, 2, 0), None);
    assert_eq!(floquet_plan(4, 2, 2), Some(FloquetPlan { section_dim: 1, use_first_return: true }));
    assert_eq!(floquet_plan(4, 2, 1), Some(FloquetPlan { section_dim: 0, use_first_return: false }));
    assert_eq!(floquet_plan(2, 0, 3), Some(FloquetPlan { section_dim: 2, use_first_return: false }));
}
