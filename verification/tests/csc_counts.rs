use clarabel::algebra::{CscMatrix, MatrixShape, MatrixTriangle};

fn counts(n: usize) -> CscMatrix<f64> {
    CscMatrix::<f64>::spalloc(n, n, 0)
}

fn upper(colptr: Vec<usize>, rowval: Vec<usize>) -> CscMatrix<f64> {
    let nzval = vec![1.0; rowval.len()];
    CscMatrix { m: colptr.len() - 1, n: colptr.len() - 1, colptr, rowval, nzval }
}

#[test]
fn spalloc_sets_shape_and_last_offset() {
    let k = CscMatrix::<f64>::spalloc(3, 4, 5);
    assert_eq!(k.m, 3);
    assert_eq!(k.n, 4);
    assert_eq!(k.colptr, vec![0, 0, 0, 0, 5]);
    assert_eq!(k.rowval, vec![0; 5]);
    assert_eq!(k.nzval, vec![0.0; 5]);
}

#[test]
fn spalloc_of_nothing_is_canonical() {
    let k = CscMatrix::<i64>::spalloc(0, 0, 0);
    assert_eq!(k.colptr, vec![0]);
    assert!(k.rowval.is_empty());
    assert!(k.nzval.is_empty());
    assert!(k.check_format());
}

#[test]
fn colcount_dense_triangle_counts_upper_and_lower() {
    let mut k = counts(5);
    k.colcount_dense_triangle(1, 3, MatrixTriangle::Triu);
    assert_eq!(k.colptr, vec![0, 1, 2, 3, 0, 0]);
    k.colcount_dense_triangle(1, 3, MatrixTriangle::Tril);
    assert_eq!(k.colptr, vec![0, 4, 4, 4, 0, 0]);
    let mut k = counts(4);
    k.colcount_dense_triangle(0, 4, MatrixTriangle::Tril);
    assert_eq!(k.colptr, vec![4, 3, 2, 1, 0]);
    k.colcount_dense_triangle(2, 0, MatrixTriangle::Triu);
    assert_eq!(k.colptr, vec![4, 3, 2, 1, 0]);
}

#[test]
fn colcount_diag_adds_one_per_column() {
    let mut k = counts(4);
    k.colcount_diag(1, 2);
    assert_eq!(k.colptr, vec![0, 1, 1, 0, 0]);
    k.colcount_diag(0, 4);
    assert_eq!(k.colptr, vec![1, 2, 2, 1, 0]);
}

#[test]
fn colcount_missing_diag_counts_empty_and_off_diagonal_columns() {
    // column 0 holds its diagonal, column 1 is empty, column 2 ends above
    // the diagonal, column 3 ends on it
    let m = upper(vec![0, 1, 1, 2, 4], vec![0, 0, 1, 3]);
    let mut k = counts(6);
    k.colcount_missing_diag(&m, 1);
    assert_eq!(k.colptr, vec![0, 0, 1, 1, 0, 0, 0]);
    assert_eq!(m.count_diagonal_entries(), 2);
}

#[test]
fn colcount_colvec_adds_the_length_to_one_column() {
    let mut k = counts(3);
    k.colcount_colvec(4, 7, 2);
    assert_eq!(k.colptr, vec![0, 0, 4, 0]);
    k.colcount_colvec(0, 0, 1);
    assert_eq!(k.colptr, vec![0, 0, 4, 0]);
}

#[test]
fn colcount_rowvec_adds_one_to_each_column() {
    let mut k = counts(4);
    k.colcount_rowvec(3, 9, 1);
    assert_eq!(k.colptr, vec![0, 1, 1, 1, 0]);
}

#[test]
fn colcount_block_reads_the_block_not_the_target() {
    let m = CscMatrix::<f64> {
        m: 3,
        n: 2,
        colptr: vec![0, 1, 3],
        rowval: vec![1, 0, 2],
        nzval: vec![-2.0, -1.0, 4.0],
    };
    let mut k = counts(5);
    k.colcount_diag(0, 5);
    k.colcount_block(&m, 1, MatrixShape::N);
    assert_eq!(k.colptr, vec![1, 2, 3, 1, 1, 0]);
    let mut k = counts(5);
    k.colcount_block(&m, 2, MatrixShape::T);
    assert_eq!(k.colptr, vec![0, 0, 1, 1, 1, 0]);
}

#[test]
fn colcount_block_transposed_counts_repeated_rows() {
    let m = CscMatrix::<f64> {
        m: 2,
        n: 3,
        colptr: vec![0, 2, 3, 4],
        rowval: vec![0, 1, 1, 1],
        nzval: vec![1.0, 2.0, 3.0, 4.0],
    };
    let mut k = counts(3);
    k.colcount_block(&m, 0, MatrixShape::T);
    assert_eq!(k.colptr, vec![1, 3, 0, 0]);
}

#[test]
fn colcount_to_colptr_is_an_exclusive_prefix_sum() {
    let mut k = counts(4);
    k.colptr = vec![2, 0, 3, 1, 0];
    assert_eq!(k.count_total(), Some(6));
    k.colcount_to_colptr();
    assert_eq!(k.colptr, vec![0, 2, 2, 5, 6]);
}

#[test]
fn colcount_to_colptr_ignores_the_last_slot() {
    let mut k = counts(2);
    k.colptr = vec![1, 2, usize::MAX];
    assert_eq!(k.count_total(), Some(3));
    k.colcount_to_colptr();
    assert_eq!(k.colptr, vec![0, 1, 3]);
}

#[test]
fn count_total_refuses_a_sum_beyond_the_word() {
    let mut k = counts(2);
    k.colptr = vec![usize::MAX, 1, 0];
    assert_eq!(k.count_total(), None);
    k.colptr = vec![usize::MAX, 0, 5];
    assert_eq!(k.count_total(), Some(usize::MAX));
}

#[test]
fn backshift_moves_offsets_up_and_zeroes_the_first() {
    let mut k = counts(3);
    k.colptr = vec![2, 2, 5, 5];
    k.backshift_colptrs();
    assert_eq!(k.colptr, vec![0, 2, 2, 5]);
    let mut k = counts(0);
    k.colptr = vec![9];
    k.backshift_colptrs();
    assert_eq!(k.colptr, vec![0]);
}

#[test]
fn scan_writes_and_backshift_restore_the_offsets() {
    let mut k = counts(3);
    k.colptr = vec![2, 0, 1, 0];
    k.colcount_to_colptr();
    let scanned = k.colptr.clone();
    // as many writes to every column as were counted
    k.colptr[0] += 2;
    k.colptr[2] += 1;
    k.backshift_colptrs();
    assert_eq!(k.colptr, scanned);
    assert_eq!(k.colptr, vec![0, 2, 2, 3]);
}

#[test]
fn count_diagonal_entries_looks_at_the_last_entry_of_each_column() {
    let m = upper(vec![0, 1, 3, 3], vec![0, 0, 1]);
    assert_eq!(m.count_diagonal_entries(), 2);
    let m = upper(vec![0, 0, 0], vec![]);
    assert_eq!(m.count_diagonal_entries(), 0);
    // a diagonal entry that is not the last of its column does not count
    let m = CscMatrix::<f64> { m: 3, n: 2, colptr: vec![0, 2, 3], rowval: vec![0, 2, 1], nzval: vec![1.0; 3] };
    assert_eq!(m.count_diagonal_entries(), 1);
}

#[test]
fn check_format_accepts_canonical_form_only() {
    let good = upper(vec![0, 1, 3], vec![0, 0, 1]);
    assert!(good.check_format());
    assert!(good.is_triu());
    let mut unsorted = upper(vec![0, 1, 3], vec![0, 1, 0]);
    assert!(!unsorted.check_format());
    unsorted.rowval = vec![0, 1, 1];
    assert!(!unsorted.check_format());
    let decreasing = upper(vec![0, 2, 1], vec![0]);
    assert!(!decreasing.check_format());
    let shifted = upper(vec![1, 1, 1], vec![0]);
    assert!(!shifted.check_format());
    let short = CscMatrix::<f64> { m: 2, n: 2, colptr: vec![0, 1], rowval: vec![0], nzval: vec![1.0] };
    assert!(!short.check_format());
    let out_of_range = CscMatrix::<f64> { m: 1, n: 1, colptr: vec![0, 1], rowval: vec![1], nzval: vec![1.0] };
    assert!(!out_of_range.check_format());
    let uneven = CscMatrix::<f64> { m: 1, n: 1, colptr: vec![0, 1], rowval: vec![0], nzval: vec![] };
    assert!(!uneven.check_format());
    let no_offsets = CscMatrix::<f64> { m: 0, n: 0, colptr: vec![], rowval: vec![], nzval: vec![] };
    assert!(!no_offsets.check_format());
}

#[test]
fn is_triu_finds_entries_below_the_diagonal() {
    let lower = CscMatrix::<f64> { m: 2, n: 2, colptr: vec![0, 2, 3], rowval: vec![0, 1, 1], nzval: vec![1.0; 3] };
    assert!(lower.check_format());
    assert!(!lower.is_triu());
}

#[test]
fn is_equal_sparsity_compares_shape_and_places() {
    let a = upper(vec![0, 1, 3], vec![0, 0, 1]);
    let mut b = upper(vec![0, 1, 3], vec![0, 0, 1]);
    b.nzval = vec![7.0, 8.0, 9.0];
    assert!(a.is_equal_sparsity(&b));
    b.rowval = vec![0, 1, 1];
    assert!(!a.is_equal_sparsity(&b));
    let c = upper(vec![0, 2, 3], vec![0, 0, 1]);
    assert!(!a.is_equal_sparsity(&c));
    let mut d = upper(vec![0, 1, 3], vec![0, 0, 1]);
    d.m = 5;
    assert!(!a.is_equal_sparsity(&d));
}

#[test]
fn update_values_writes_through_the_index() {
    let mut k = upper(vec![0, 1, 3], vec![0, 0, 1]);
    k.update_values(&[2, 0], &[5.0, -1.0]);
    assert_eq!(k.nzval, vec![-1.0, 1.0, 5.0]);
    assert_eq!(k.rowval, vec![0, 0, 1]);
    assert_eq!(k.colptr, vec![0, 1, 3]);
    k.update_values(&[], &[]);
    assert_eq!(k.nzval, vec![-1.0, 1.0, 5.0]);
}

#[test]
fn matrices_compare_and_clone_by_content() {
    let a = upper(vec![0, 1, 3], vec![0, 0, 1]);
    let b = a.clone();
    assert_eq!(a, b);
    let mut c = a.clone();
    c.nzval[1] = 2.0;
    assert_ne!(a, c);
}
