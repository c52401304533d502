use clarabel::algebra::{CscMatrix, MatrixShape, MatrixTriangle};

/// A matrix of `n` columns in the fill phase, with room for `counts[c]`
/// entries in column `c`, every cell holding the row 99 and the value 9.
fn ready(n: usize, counts: &[usize]) -> CscMatrix<f64> {
    let mut k = CscMatrix::<f64>::spalloc(n, n, 0);
    for (c, x) in counts.iter().enumerate() {
        k.colptr[c] = *x;
    }
    let total = k.count_total().unwrap();
    k.colcount_to_colptr();
    k.rowval = vec![99; total];
    k.nzval = vec![9.0; total];
    k
}

#[test]
fn fill_colvec_writes_consecutive_rows_in_one_column() {
    let mut k = ready(3, &[1, 3, 0]);
    let mut map = vec![77; 4];
    k.fill_colvec(&mut map, 5, 1, 3);
    assert_eq!(k.colptr, vec![0, 4, 4, 4]);
    assert_eq!(k.rowval, vec![99, 5, 6, 7]);
    assert_eq!(k.nzval, vec![9.0, 0.0, 0.0, 0.0]);
    assert_eq!(map, vec![1, 2, 3, 77]);
}

#[test]
fn fill_rowvec_writes_one_row_across_columns() {
    let mut k = ready(4, &[0, 1, 2, 1]);
    let mut map = vec![77; 3];
    k.fill_rowvec(&mut map, 6, 1, 3);
    assert_eq!(k.colptr, vec![0, 1, 2, 4, 4]);
    assert_eq!(k.rowval, vec![6, 6, 99, 6]);
    assert_eq!(k.nzval, vec![0.0, 0.0, 9.0, 0.0]);
    assert_eq!(map, vec![0, 1, 3]);
}

#[test]
fn fill_diag_writes_the_diagonal() {
    let mut k = ready(4, &[1, 1, 2, 0]);
    let mut map = vec![77; 2];
    k.fill_diag(&mut map, 1, 2);
    assert_eq!(k.colptr, vec![0, 2, 3, 4, 4]);
    assert_eq!(k.rowval, vec![99, 1, 2, 99]);
    assert_eq!(k.nzval, vec![9.0, 0.0, 0.0, 9.0]);
    assert_eq!(map, vec![1, 2]);
}

#[test]
fn fill_missing_diag_advances_the_cursor_of_the_column_written() {
    // column 0 of the block holds its diagonal, column 1 is empty
    let m = CscMatrix::<f64> { m: 2, n: 2, colptr: vec![0, 1, 1], rowval: vec![0], nzval: vec![3.0] };
    let mut k = ready(4, &[0, 0, 1, 1]);
    k.fill_missing_diag(&m, 2);
    assert_eq!(k.colptr, vec![0, 0, 0, 2, 2]);
    assert_eq!(k.rowval, vec![99, 3]);
    assert_eq!(k.nzval, vec![9.0, 0.0]);
}

#[test]
fn fill_dense_triangle_upper_includes_the_diagonal() {
    let mut k = ready(4, &[0, 1, 2, 3]);
    let mut map = vec![77; 7];
    k.fill_dense_triangle(&mut map, 1, 3, MatrixTriangle::Triu);
    assert_eq!(k.colptr, vec![0, 1, 3, 6, 6]);
    assert_eq!(k.rowval, vec![1, 1, 2, 1, 2, 3]);
    assert_eq!(k.nzval, vec![0.0; 6]);
    assert_eq!(map, vec![0, 1, 2, 3, 4, 5, 77]);
}

#[test]
fn fill_dense_triangle_lower_is_the_transpose() {
    let mut k = ready(3, &[3, 2, 1]);
    let mut map = vec![77; 6];
    k.fill_dense_triangle(&mut map, 0, 3, MatrixTriangle::Tril);
    assert_eq!(k.colptr, vec![3, 5, 6, 6]);
    assert_eq!(k.rowval, vec![0, 1, 2, 1, 2, 2]);
    // entry (r, c) of the packed upper triangle stands at row c, column r
    assert_eq!(map, vec![0, 1, 3, 2, 4, 5]);
    let mut u = ready(3, &[3, 2, 1]);
    let mut umap = vec![77; 6];
    u._fill_dense_triangle_tril(&mut umap, 0, 3);
    assert_eq!(u.rowval, k.rowval);
    assert_eq!(umap, map);
}

#[test]
fn fill_dense_triangle_upper_helper_agrees() {
    let mut a = ready(2, &[1, 2]);
    let mut b = ready(2, &[1, 2]);
    let mut ma = vec![0; 3];
    let mut mb = vec![0; 3];
    a.fill_dense_triangle(&mut ma, 0, 2, MatrixTriangle::Triu);
    b._fill_dense_triangle_triu(&mut mb, 0, 2);
    assert_eq!(a.colptr, b.colptr);
    assert_eq!(a.rowval, b.rowval);
    assert_eq!(ma, mb);
    assert_eq!(ma, vec![0, 1, 2]);
    assert_eq!(a.rowval, vec![0, 0, 1]);
}

#[test]
fn fill_block_as_stored_copies_columns() {
    let m = CscMatrix::<f64> {
        m: 3,
        n: 2,
        colptr: vec![0, 1, 3],
        rowval: vec![1, 0, 2],
        nzval: vec![-2.0, -1.0, 4.0],
    };
    let mut k = ready(4, &[0, 1, 2, 1]);
    let mut map = vec![77; 4];
    k.fill_block(&m, &mut map, 10, 1, MatrixShape::N);
    assert_eq!(k.colptr, vec![0, 1, 3, 3, 4]);
    assert_eq!(k.rowval, vec![11, 10, 12, 99]);
    assert_eq!(k.nzval, vec![-2.0, -1.0, 4.0, 9.0]);
    assert_eq!(map, vec![0, 1, 2, 77]);
}

#[test]
fn fill_block_transposed_sorts_each_column_by_source_column() {
    let m = CscMatrix::<f64> {
        m: 2,
        n: 3,
        colptr: vec![0, 2, 3, 4],
        rowval: vec![0, 1, 1, 1],
        nzval: vec![1.0, 2.0, 3.0, 4.0],
    };
    let mut k = ready(3, &[0, 1, 3]);
    let mut map = vec![77; 4];
    k.fill_block(&m, &mut map, 5, 1, MatrixShape::T);
    assert_eq!(k.colptr, vec![0, 1, 4, 4]);
    assert_eq!(k.rowval, vec![5, 5, 6, 7]);
    assert_eq!(k.nzval, vec![1.0, 2.0, 3.0, 4.0]);
    assert_eq!(map, vec![0, 1, 2, 3]);
}

#[test]
fn counted_and_filled_blocks_give_a_canonical_matrix() {
    let p = CscMatrix::<f64> { m: 2, n: 2, colptr: vec![0, 0, 1], rowval: vec![1], nzval: vec![2.0] };
    let a = CscMatrix::<f64> { m: 3, n: 2, colptr: vec![0, 1, 2], rowval: vec![1, 2], nzval: vec![-2.0, -1.0] };
    let mut k = CscMatrix::<f64>::spalloc(5, 5, 0);
    k.colcount_block(&p, 0, MatrixShape::N);
    k.colcount_missing_diag(&p, 0);
    k.colcount_block(&a, 2, MatrixShape::T);
    k.colcount_dense_triangle(2, 3, MatrixTriangle::Triu);
    assert_eq!(k.colptr, vec![1, 1, 1, 3, 4, 0]);
    let total = k.count_total().unwrap();
    assert_eq!(total, 10);
    k.colcount_to_colptr();
    let starts = k.colptr.clone();
    k.rowval = vec![0; total];
    k.nzval = vec![0.0; total];
    let mut pmap = vec![0; 1];
    let mut amap = vec![0; 2];
    let mut hmap = vec![0; 6];
    k.fill_block(&p, &mut pmap, 0, 0, MatrixShape::N);
    k.fill_missing_diag(&p, 0);
    k.fill_block(&a, &mut amap, 0, 2, MatrixShape::T);
    k.fill_dense_triangle(&mut hmap, 2, 3, MatrixTriangle::Triu);
    // every cursor has reached the start of the next column
    for c in 0..5 {
        assert_eq!(k.colptr[c], starts[c + 1]);
    }
    k.backshift_colptrs();
    assert_eq!(k.colptr, starts);
    assert!(k.check_format());
    assert!(k.is_triu());
    assert_eq!(k.rowval, vec![0, 1, 2, 0, 2, 3, 1, 2, 3, 4]);
    assert_eq!(k.nzval[pmap[0]], 2.0);
    assert_eq!(k.nzval[amap[0]], -2.0);
    assert_eq!(k.nzval[amap[1]], -1.0);
    assert_eq!(k.count_diagonal_entries(), 5);
}

#[test]
fn integer_values_fill_like_any_other() {
    let m = CscMatrix::<i64> { m: 2, n: 2, colptr: vec![0, 1, 2], rowval: vec![0, 1], nzval: vec![7, -3] };
    let mut k = CscMatrix::<i64>::spalloc(2, 2, 2);
    k.colptr = vec![0, 1, 2];
    let mut map = vec![0; 2];
    k.fill_block(&m, &mut map, 0, 0, MatrixShape::N);
    assert_eq!(k.nzval, vec![7, -3]);
    assert_eq!(k.colptr, vec![1, 2, 2]);
}
