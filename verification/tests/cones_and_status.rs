use clarabel::cones::{dimension, scaling_len, triangular_number, ConeSet, SupportedCone};
use clarabel::solver::{update_vector, warm_start_guess, SolverStatus};

#[test]
fn cones_report_dimension_and_kind_of_scaling() {
    assert_eq!(SupportedCone::ZeroConeT(4).nvars(), 4);
    assert_eq!(SupportedCone::NonnegativeConeT(2).nvars(), 2);
    assert_eq!(SupportedCone::SecondOrderConeT(3).nvars(), 3);
    assert_eq!(SupportedCone::PSDTriangleConeT(6).nvars(), 6);
    assert!(SupportedCone::ZeroConeT(4).hs_is_diagonal());
    assert!(SupportedCone::NonnegativeConeT(2).hs_is_diagonal());
    assert!(!SupportedCone::SecondOrderConeT(3).hs_is_diagonal());
    assert!(!SupportedCone::PSDTriangleConeT(6).hs_is_diagonal());
}

#[test]
fn triangular_number_is_exact_up_to_the_word() {
    assert_eq!(triangular_number(0), Some(0));
    assert_eq!(triangular_number(1), Some(1));
    assert_eq!(triangular_number(4), Some(10));
    assert_eq!(triangular_number(usize::MAX), None);
    assert_eq!(triangular_number(1 << 20), Some((1usize << 19) * ((1 << 20) + 1)));
}

#[test]
fn cone_set_sums_dimensions_and_scaling_entries() {
    let cones = vec![
        SupportedCone::ZeroConeT(1),
        SupportedCone::SecondOrderConeT(3),
        SupportedCone::NonnegativeConeT(2),
    ];
    assert_eq!(dimension(&cones), Some(6));
    assert_eq!(scaling_len(&cones), Some(9));
    let set = ConeSet::<f64>::new(cones).unwrap();
    assert_eq!(set.numel(), 6);
    assert_eq!(set.hs, vec![0.0; 9]);
    let empty = ConeSet::<f64>::new(vec![]).unwrap();
    assert_eq!(empty.numel(), 0);
    assert!(empty.hs.is_empty());
}

#[test]
fn cone_set_refuses_sizes_beyond_the_word() {
    let big = vec![SupportedCone::ZeroConeT(usize::MAX), SupportedCone::ZeroConeT(1)];
    assert_eq!(dimension(&big), None);
    assert_eq!(scaling_len(&big), None);
    let dense = vec![SupportedCone::SecondOrderConeT(usize::MAX)];
    assert_eq!(dimension(&dense), Some(usize::MAX));
    assert_eq!(scaling_len(&dense), None);
}

#[test]
fn status_numbers_follow_the_order_of_declaration() {
    let all = [
        SolverStatus::Unsolved,
        SolverStatus::Solved,
        SolverStatus::PrimalInfeasible,
        SolverStatus::DualInfeasible,
        SolverStatus::AlmostSolved,
        SolverStatus::AlmostPrimalInfeasible,
        SolverStatus::AlmostDualInfeasible,
        SolverStatus::MaxIterations,
        SolverStatus::MaxTime,
        SolverStatus::ScalingError,
        SolverStatus::NumericalError,
        SolverStatus::InsufficientProgress,
    ];
    for (i, s) in all.iter().enumerate() {
        assert_eq!(s.code() as usize, i);
    }
    assert_eq!(SolverStatus::default(), SolverStatus::Unsolved);
}

#[test]
fn status_names_are_the_variant_names() {
    assert_eq!(SolverStatus::Unsolved.name(), "Unsolved");
    assert_eq!(SolverStatus::Solved.name(), "Solved");
    assert_eq!(SolverStatus::PrimalInfeasible.name(), "PrimalInfeasible");
    assert_eq!(SolverStatus::DualInfeasible.name(), "DualInfeasible");
    assert_eq!(SolverStatus::AlmostSolved.name(), "AlmostSolved");
    assert_eq!(SolverStatus::AlmostPrimalInfeasible.name(), "AlmostPrimalInfeasible");
    assert_eq!(SolverStatus::AlmostDualInfeasible.name(), "AlmostDualInfeasible");
    assert_eq!(SolverStatus::MaxIterations.name(), "MaxIterations");
    assert_eq!(SolverStatus::MaxTime.name(), "MaxTime");
    assert_eq!(SolverStatus::ScalingError.name(), "ScalingError");
    assert_eq!(SolverStatus::NumericalError.name(), "NumericalError");
    assert_eq!(SolverStatus::InsufficientProgress.name(), "InsufficientProgress");
}

#[test]
fn infeasible_statuses_are_the_four_certificates() {
    assert!(SolverStatus::PrimalInfeasible.is_infeasible());
    assert!(SolverStatus::DualInfeasible.is_infeasible());
    assert!(SolverStatus::AlmostPrimalInfeasible.is_infeasible());
    assert!(SolverStatus::AlmostDualInfeasible.is_infeasible());
    assert!(!SolverStatus::Solved.is_infeasible());
    assert!(!SolverStatus::AlmostSolved.is_infeasible());
    assert!(!SolverStatus::Unsolved.is_infeasible());
    assert!(!SolverStatus::MaxIterations.is_infeasible());
    assert!(!SolverStatus::NumericalError.is_infeasible());
}

#[test]
fn warm_start_needs_all_three_guesses() {
    let g = warm_start_guess(Some(vec![1.0]), Some(vec![2.0, 3.0]), Some(vec![4.0, 5.0]));
    assert_eq!(g, Some((vec![1.0], vec![2.0, 3.0], vec![4.0, 5.0])));
    assert_eq!(warm_start_guess(None, Some(vec![2.0]), Some(vec![4.0])), None);
    assert_eq!(warm_start_guess(Some(vec![1.0]), None, Some(vec![4.0])), None);
    assert_eq!(warm_start_guess(Some(vec![1.0]), Some(vec![2.0]), None), None);
    assert_eq!(warm_start_guess::<f64>(None, None, None), None);
}

#[test]
fn update_vector_keeps_the_length() {
    let mut q = vec![-2.0, -5.0];
    assert!(update_vector(&mut q, &[1.0, 0.5]));
    assert_eq!(q, vec![1.0, 0.5]);
    assert!(!update_vector(&mut q, &[1.0, 0.5, 3.0]));
    assert_eq!(q, vec![1.0, 0.5]);
    assert!(!update_vector(&mut q, &[]));
    assert_eq!(q, vec![1.0, 0.5]);
}

#[test]
fn cone_blocks_follow_one_another() {
    let cones = vec![
        SupportedCone::ZeroConeT(1),
        SupportedCone::SecondOrderConeT(3),
        SupportedCone::NonnegativeConeT(2),
        SupportedCone::PSDTriangleConeT(0),
    ];
    let set = ConeSet::<f64>::new(cones).unwrap();
    assert_eq!(set.rng_cones(), vec![(0, 1), (1, 4), (4, 6), (6, 6)]);
    assert_eq!(set.rng_blocks(), vec![(0, 1), (1, 7), (7, 9), (9, 9)]);
    let empty = ConeSet::<f64>::new(vec![]).unwrap();
    assert!(empty.rng_cones().is_empty());
    assert!(empty.rng_blocks().is_empty());
}
