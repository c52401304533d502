use clarabel::algebra::CscMatrix;
use clarabel::cones::{ConeSet, SupportedCone};
use clarabel::kktsolvers::assembly::{AssemblyError, KKTAssembler};
use clarabel::kktsolvers::updates::DataUpdateError;

fn socp_data() -> (CscMatrix<f64>, CscMatrix<f64>, Vec<SupportedCone>) {
    let p = CscMatrix { m: 2, n: 2, colptr: vec![0, 0, 1], rowval: vec![1], nzval: vec![2.0] };
    let a = CscMatrix { m: 3, n: 2, colptr: vec![0, 1, 2], rowval: vec![1, 2], nzval: vec![-2.0, -1.0] };
    (p, a, vec![SupportedCone::SecondOrderConeT(3)])
}

fn box_qp_data() -> (CscMatrix<f64>, CscMatrix<f64>, Vec<SupportedCone>) {
    let p = CscMatrix { m: 2, n: 2, colptr: vec![0, 1, 2], rowval: vec![0, 1], nzval: vec![2.0, 2.0] };
    let a = CscMatrix { m: 2, n: 2, colptr: vec![0, 1, 2], rowval: vec![0, 1], nzval: vec![1.0, 1.0] };
    (p, a, vec![SupportedCone::NonnegativeConeT(2)])
}

fn is_canonical(k: &CscMatrix<f64>) -> bool {
    if k.colptr.len() != k.n + 1 || k.colptr[0] != 0 || k.colptr[k.n] != k.rowval.len() {
        return false;
    }
    for c in 0..k.n {
        if k.colptr[c] > k.colptr[c + 1] {
            return false;
        }
        for d in k.colptr[c]..k.colptr[c + 1] {
            if k.rowval[d] >= k.m || (d > k.colptr[c] && k.rowval[d - 1] >= k.rowval[d]) {
                return false;
            }
        }
    }
    k.rowval.len() == k.nzval.len()
}

#[test]
fn assembles_second_order_cone_program() {
    let (p, a, cones) = socp_data();
    let kkt = KKTAssembler::new(p, a, cones).unwrap();
    assert_eq!(kkt.KKT.m, 5);
    assert_eq!(kkt.KKT.n, 5);
    assert_eq!(kkt.KKT.colptr, vec![0, 1, 2, 3, 6, 10]);
    assert_eq!(kkt.KKT.rowval, vec![0, 1, 2, 0, 2, 3, 1, 2, 3, 4]);
    assert_eq!(kkt.KKT.nzval, vec![0.0, 2.0, 0.0, -2.0, 0.0, 0.0, -1.0, 0.0, 0.0, 0.0]);
    assert_eq!(kkt.PtoKKT, vec![1]);
    assert_eq!(kkt.AtoKKT, vec![3, 6]);
    assert_eq!(kkt.HtoKKT, vec![2, 4, 5, 7, 8, 9]);
    assert_eq!(kkt.diagtoKKT, vec![0, 1, 2, 5, 9]);
}

#[test]
fn assembles_box_constrained_program() {
    let (p, a, cones) = box_qp_data();
    let kkt = KKTAssembler::new(p, a, cones).unwrap();
    assert_eq!(kkt.KKT.colptr, vec![0, 1, 2, 4, 6]);
    assert_eq!(kkt.KKT.rowval, vec![0, 1, 0, 2, 1, 3]);
    assert_eq!(kkt.KKT.nzval, vec![2.0, 2.0, 1.0, 0.0, 1.0, 0.0]);
    assert_eq!(kkt.PtoKKT, vec![0, 1]);
    assert_eq!(kkt.AtoKKT, vec![2, 4]);
    assert_eq!(kkt.HtoKKT, vec![3, 5]);
    assert_eq!(kkt.diagtoKKT, vec![0, 1, 3, 5]);
}

#[test]
fn assembled_matrix_is_canonical() {
    let (p, a, cones) = socp_data();
    let kkt = KKTAssembler::new(p, a, cones).unwrap();
    assert!(is_canonical(&kkt.KKT));
    let p = CscMatrix {
        m: 3,
        n: 3,
        colptr: vec![0, 1, 2, 4],
        rowval: vec![0, 0, 0, 1],
        nzval: vec![4.0, 1.0, 2.0, 3.0],
    };
    let a = CscMatrix {
        m: 4,
        n: 3,
        colptr: vec![0, 2, 3, 6],
        rowval: vec![0, 3, 1, 0, 2, 3],
        nzval: vec![1.0, 2.0, 3.0, 4.0, 5.0, 6.0],
    };
    let cones = vec![
        SupportedCone::ZeroConeT(1),
        SupportedCone::SecondOrderConeT(2),
        SupportedCone::NonnegativeConeT(1),
    ];
    let kkt = KKTAssembler::new(p, a, cones).unwrap();
    assert!(is_canonical(&kkt.KKT));
    assert_eq!(kkt.KKT.colptr, vec![0, 1, 3, 6, 9, 11, 14, 17]);
    assert_eq!(kkt.KKT.rowval, vec![0, 0, 1, 0, 1, 2, 0, 2, 3, 1, 4, 2, 4, 5, 0, 2, 6]);
    assert_eq!(
        kkt.KKT.nzval,
        vec![4.0, 1.0, 0.0, 2.0, 3.0, 0.0, 1.0, 4.0, 0.0, 3.0, 0.0, 5.0, 0.0, 0.0, 2.0, 6.0, 0.0]
    );
    assert_eq!(kkt.HtoKKT, vec![8, 10, 12, 13, 16]);
}

#[test]
fn reverse_maps_lead_to_the_values() {
    let (p, a, cones) = socp_data();
    let pv = p.nzval.clone();
    let av = a.nzval.clone();
    let kkt = KKTAssembler::new(p, a, cones).unwrap();
    for (j, v) in pv.iter().enumerate() {
        assert_eq!(kkt.KKT.nzval[kkt.PtoKKT[j]], *v);
    }
    for (j, v) in av.iter().enumerate() {
        assert_eq!(kkt.KKT.nzval[kkt.AtoKKT[j]], *v);
    }
    for c in 0..kkt.KKT.n {
        assert_eq!(kkt.KKT.rowval[kkt.diagtoKKT[c]], c);
    }
}

#[test]
fn mismatched_dimensions_are_refused() {
    let (p, a, _) = socp_data();
    let r = KKTAssembler::new(p, a, vec![SupportedCone::NonnegativeConeT(2)]);
    assert_eq!(r.err(), Some(AssemblyError::DimensionMismatch));
    let (p, _, cones) = socp_data();
    let a = CscMatrix { m: 3, n: 1, colptr: vec![0, 1], rowval: vec![1], nzval: vec![-2.0] };
    assert_eq!(KKTAssembler::new(p, a, cones).err(), Some(AssemblyError::DimensionMismatch));
}

#[test]
fn oversized_scaling_block_is_refused() {
    let p = CscMatrix::<f64> { m: 0, n: 0, colptr: vec![0], rowval: vec![], nzval: vec![] };
    let m = usize::MAX / 2;
    let a = CscMatrix::<f64> { m, n: 0, colptr: vec![0], rowval: vec![], nzval: vec![] };
    let r = KKTAssembler::new(p, a, vec![SupportedCone::SecondOrderConeT(m)]);
    assert_eq!(r.err(), Some(AssemblyError::TooLarge));
}

#[test]
fn empty_cone_set_gives_the_cost_block_alone() {
    let p = CscMatrix { m: 2, n: 2, colptr: vec![0, 1, 3], rowval: vec![0, 0, 1], nzval: vec![4.0, 1.0, 2.0] };
    let a = CscMatrix::<f64> { m: 0, n: 2, colptr: vec![0, 0, 0], rowval: vec![], nzval: vec![] };
    let kkt = KKTAssembler::new(p, a, vec![]).unwrap();
    assert_eq!(kkt.KKT.colptr, vec![0, 1, 3]);
    assert_eq!(kkt.KKT.rowval, vec![0, 0, 1]);
    assert_eq!(kkt.KKT.nzval, vec![4.0, 1.0, 2.0]);
    assert!(kkt.HtoKKT.is_empty());
}

#[test]
fn refresh_keeps_structure_and_cost_block() {
    let (p, a, cones) = socp_data();
    let pv = p.nzval.clone();
    let mut kkt = KKTAssembler::new(p, a, cones.clone()).unwrap();
    let colptr = kkt.KKT.colptr.clone();
    let rowval = kkt.KKT.rowval.clone();
    let mut set = ConeSet::<f64>::new(cones).unwrap();
    assert_eq!(set.hs.len(), 6);
    set.hs = vec![1.0, 0.0, 1.0, 0.0, 0.0, 1.0];
    assert_eq!(kkt.refresh(&set), Ok(()));
    assert_eq!(kkt.KKT.colptr, colptr);
    assert_eq!(kkt.KKT.rowval, rowval);
    assert_eq!(kkt.KKT.nzval, vec![0.0, 2.0, 1.0, -2.0, 0.0, 1.0, -1.0, 0.0, 0.0, 1.0]);
    assert_eq!(kkt.cost_values(), pv);
}

#[test]
fn refresh_with_other_cones_changes_nothing() {
    let (p, a, cones) = socp_data();
    let mut kkt = KKTAssembler::new(p, a, cones).unwrap();
    let before = kkt.KKT.nzval.clone();
    let mut set = ConeSet::<f64>::new(vec![SupportedCone::NonnegativeConeT(3)]).unwrap();
    set.hs = vec![1.0, 1.0, 1.0];
    assert_eq!(kkt.refresh(&set), Err(DataUpdateError::ConeMismatch));
    assert_eq!(kkt.KKT.nzval, before);
}

#[test]
fn update_p_with_same_pattern_replaces_values() {
    let (p, a, cones) = box_qp_data();
    let mut kkt = KKTAssembler::new(p, a, cones).unwrap();
    let p2 = CscMatrix { m: 2, n: 2, colptr: vec![0, 1, 2], rowval: vec![0, 1], nzval: vec![3.0, 5.0] };
    assert_eq!(kkt.update_P(&p2), Ok(()));
    assert_eq!(kkt.P.nzval, vec![3.0, 5.0]);
    assert_eq!(kkt.KKT.nzval, vec![3.0, 5.0, 1.0, 0.0, 1.0, 0.0]);
    assert_eq!(kkt.KKT.rowval, vec![0, 1, 0, 2, 1, 3]);
}

#[test]
fn update_p_off_pattern_fails_cleanly() {
    let (p, a, cones) = box_qp_data();
    let mut kkt = KKTAssembler::new(p, a, cones).unwrap();
    let nz = kkt.KKT.nzval.clone();
    let pz = kkt.P.nzval.clone();
    let p2 = CscMatrix {
        m: 2,
        n: 2,
        colptr: vec![0, 1, 3],
        rowval: vec![0, 0, 1],
        nzval: vec![2.0, 7.0, 2.0],
    };
    assert_eq!(kkt.update_P(&p2), Err(DataUpdateError::SparsityPattern));
    assert_eq!(kkt.KKT.nzval, nz);
    assert_eq!(kkt.P.nzval, pz);
    assert_eq!(kkt.KKT.colptr, vec![0, 1, 2, 4, 6]);
    let p3 = CscMatrix { m: 3, n: 3, colptr: vec![0, 1, 2, 2], rowval: vec![0, 1], nzval: vec![2.0, 2.0] };
    assert_eq!(kkt.update_P(&p3), Err(DataUpdateError::IncompatibleDimension));
}

#[test]
fn update_a_goes_through_the_transposed_map() {
    let (p, a, cones) = socp_data();
    let mut kkt = KKTAssembler::new(p, a, cones).unwrap();
    let a2 = CscMatrix { m: 3, n: 2, colptr: vec![0, 1, 2], rowval: vec![1, 2], nzval: vec![-4.0, 9.0] };
    assert_eq!(kkt.update_A(&a2), Ok(()));
    assert_eq!(kkt.KKT.nzval, vec![0.0, 2.0, 0.0, -4.0, 0.0, 0.0, 9.0, 0.0, 0.0, 0.0]);
    let a3 = CscMatrix { m: 3, n: 2, colptr: vec![0, 1, 2], rowval: vec![0, 2], nzval: vec![-4.0, 9.0] };
    assert_eq!(kkt.update_A(&a3), Err(DataUpdateError::SparsityPattern));
    assert_eq!(kkt.A.nzval, vec![-4.0, 9.0]);
}

#[test]
fn assembles_linear_programs_without_cost_matrix() {
    // x <= 1 and x >= 2, as rows of A with the nonnegative orthant
    let p = CscMatrix::<f64> { m: 1, n: 1, colptr: vec![0, 0], rowval: vec![], nzval: vec![] };
    let a = CscMatrix { m: 2, n: 1, colptr: vec![0, 2], rowval: vec![0, 1], nzval: vec![1.0, -1.0] };
    let kkt = KKTAssembler::new(p, a, vec![SupportedCone::NonnegativeConeT(2)]).unwrap();
    assert_eq!(kkt.KKT.colptr, vec![0, 1, 3, 5]);
    assert_eq!(kkt.KKT.rowval, vec![0, 0, 1, 0, 2]);
    assert_eq!(kkt.KKT.nzval, vec![0.0, 1.0, 0.0, -1.0, 0.0]);
    assert!(kkt.PtoKKT.is_empty());
    assert_eq!(kkt.AtoKKT, vec![1, 3]);
    // a single constraint
    let p = CscMatrix::<f64> { m: 1, n: 1, colptr: vec![0, 0], rowval: vec![], nzval: vec![] };
    let a = CscMatrix { m: 1, n: 1, colptr: vec![0, 1], rowval: vec![0], nzval: vec![-1.0] };
    let kkt = KKTAssembler::new(p, a, vec![SupportedCone::NonnegativeConeT(1)]).unwrap();
    assert_eq!(kkt.KKT.colptr, vec![0, 1, 3]);
    assert_eq!(kkt.KKT.rowval, vec![0, 0, 1]);
    assert_eq!(kkt.KKT.nzval, vec![0.0, -1.0, 0.0]);
    assert_eq!(kkt.diagtoKKT, vec![0, 2]);
}

#[test]
fn oversized_problem_is_refused() {
    let p = CscMatrix::<f64> { m: 0, n: 0, colptr: vec![0], rowval: vec![], nzval: vec![] };
    let a = CscMatrix::<f64> { m: usize::MAX, n: 0, colptr: vec![0], rowval: vec![], nzval: vec![] };
    let r = KKTAssembler::new(p, a, vec![SupportedCone::ZeroConeT(usize::MAX)]);
    assert_eq!(r.err(), Some(AssemblyError::TooLarge));
}
