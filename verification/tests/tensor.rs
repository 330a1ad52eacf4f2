use cvxpy_rust::reduction::compute_reduction_from_slices;
use cvxpy_rust::tensor::{BuildMatrixResult, SparseTensor};

#[test]
fn test_sparse_tensor_basic() {
    let mut tensor = SparseTensor::empty((3, 4));
    tensor.push(1.0, 0, 0, 0);
    tensor.push(2.0, 1, 1, 0);
    tensor.push(3.0, 2, 2, 0);

    assert_eq!(tensor.nnz(), 3);
    assert_eq!(tensor.shape, (3, 4));
}

#[test]
fn test_sparse_tensor_negate() {
    let mut tensor = SparseTensor::empty((2, 2));
    tensor.push(1.0, 0, 0, 0);
    tensor.push(-2.0, 1, 1, 0);

    tensor.negate_in_place();

    assert_eq!(tensor.data, vec![-1.0, 2.0]);
}

/// A (3, 4) problem-data matrix flattened to 12 rows, with 5 entries at
/// flat rows [0, 0, 5, 5, 11] and 2 parameter slices.
#[test]
fn test_compute_reduction_basic() {
    let result = BuildMatrixResult {
        data: vec![1.0, 2.0, 3.0, 4.0, 5.0],
        rows: vec![0, 0, 5, 5, 11],
        cols: vec![0, 1, 0, 1, 0],
        shape: (12, 2),
    };
    let red = compute_reduction_from_slices(&result.data, &result.rows, &result.cols, result.shape, 4, true);

    assert_eq!(red.reduced_data, vec![1.0, 2.0, 3.0, 4.0, 5.0]);
    assert_eq!(red.reduced_col_indices, vec![0, 1, 0, 1, 0]);
    assert_eq!(red.reduced_indptr, vec![0, 2, 4, 5]);
    assert_eq!(red.reduced_shape, (3, 2));

    // n_cols = 4 (quad_form=true), n_constr = 12 / 4 = 3.
    assert_eq!(red.final_shape, (3, 4));
    assert_eq!(red.final_indices, vec![0, 2, 2]);
    // unique_rows / n_constr = [0, 1, 3]; one per group.
    assert_eq!(red.final_indptr, vec![0, 1, 2, 2, 3]);
}

/// `quad_form=false` adds 1 to n_cols.
#[test]
fn test_compute_reduction_non_quad_form() {
    // big_M = 6, var_length=2, quad_form=false -> n_cols = 3, n_constr = 2.
    let result = BuildMatrixResult {
        data: vec![1.0, 2.0, 3.0],
        rows: vec![0, 2, 5],
        cols: vec![0, 0, 0],
        shape: (6, 1),
    };
    let red = compute_reduction_from_slices(&result.data, &result.rows, &result.cols, result.shape, 2, false);
    assert_eq!(red.final_shape, (2, 3));
    // final_indices = [0%2, 2%2, 5%2] = [0, 0, 1]
    assert_eq!(red.final_indices, vec![0, 0, 1]);
    // Counts per col: 1, 1, 1 in cols 0,1,2
    assert_eq!(red.final_indptr, vec![0, 1, 2, 3]);
}

/// Zero entries are eliminated.
#[test]
fn test_compute_reduction_drops_zeros() {
    let result = BuildMatrixResult {
        data: vec![1.0, 0.0, 2.0, 0.0, 3.0],
        rows: vec![0, 0, 5, 5, 11],
        cols: vec![0, 1, 0, 1, 0],
        shape: (12, 2),
    };
    let red = compute_reduction_from_slices(&result.data, &result.rows, &result.cols, result.shape, 4, true);
    assert_eq!(red.reduced_data, vec![1.0, 2.0, 3.0]);
    assert_eq!(red.reduced_col_indices, vec![0, 0, 0]);
    // Each unique row contributes 1 nonzero -> indptr = [0, 1, 2, 3].
    assert_eq!(red.reduced_indptr, vec![0, 1, 2, 3]);
}

/// Entries within a row are emitted sorted by column index.
#[test]
fn test_compute_reduction_sorts_within_row() {
    // Single row 0 with entries at cols 5, 1, 3 (out of order).
    let result = BuildMatrixResult {
        data: vec![10.0, 20.0, 30.0],
        rows: vec![0, 0, 0],
        cols: vec![5, 1, 3],
        shape: (1, 6),
    };
    let red = compute_reduction_from_slices(&result.data, &result.rows, &result.cols, result.shape, 1, true);
    assert_eq!(red.reduced_col_indices, vec![1, 3, 5]);
    // Data values must be permuted along with the cols.
    assert_eq!(red.reduced_data, vec![20.0, 30.0, 10.0]);
}

#[test]
fn reduction_of_empty_matrix() {
    let red = compute_reduction_from_slices::<f64>(&[], &[], &[], (6, 1), 2, false);
    assert!(red.reduced_data.is_empty());
    assert_eq!(red.reduced_indptr, vec![0]);
    assert_eq!(red.final_shape, (2, 3));
    assert_eq!(red.final_indptr, vec![0, 0, 0, 0]);
}

#[test]
fn from_tensor_flattens_column_major_and_sorts() {
    // A 2x3 tensor: entry (row, col, slice).
    let mut t = SparseTensor::empty((2, 3));
    t.push(5.0, 1, 2, 0); // flat row 2 * 2 + 1 = 5
    t.push(7.0, 0, 0, 1); // flat row 0
    t.push(9.0, 1, 0, 0); // flat row 1
    let r = BuildMatrixResult::from_tensor(t, 2);
    assert_eq!(r.shape, (6, 2));
    assert_eq!(r.rows, vec![0, 1, 5]);
    assert_eq!(r.data, vec![7.0, 9.0, 5.0]);
    assert_eq!(r.cols, vec![1, 0, 0]);
}

#[test]
fn offset_and_scale_in_place() {
    let mut t = SparseTensor::empty((4, 1));
    t.push(1.5, 0, 0, 0);
    t.push(-2.0, 1, 0, 0);
    t.offset_rows_in_place(2);
    t.scale_in_place(2.0);
    assert_eq!(t.rows, vec![2, 3]);
    assert_eq!(t.data, vec![3.0, -4.0]);
}

#[test]
fn select_rows_picks_and_repeats() {
    let mut t = SparseTensor::empty((3, 2));
    t.push(1.0, 0, 0, 0);
    t.push(2.0, 1, 1, 0);
    t.push(3.0, 2, 0, 0);
    // Output row 0 <- input row 2, output rows 1 and 2 <- input row 0.
    let s = t.select_rows(&[2, 0, 0]);
    assert_eq!(s.shape, (3, 2));
    let mut triples: Vec<(i64, i64, f64)> = (0..s.nnz()).map(|k| (s.rows[k], s.cols[k], s.data[k])).collect();
    triples.sort_by(|a, b| a.partial_cmp(b).unwrap());
    assert_eq!(triples, vec![(0, 0, 3.0), (1, 0, 1.0), (2, 0, 1.0)]);
}

#[test]
fn combine_concatenates_in_order() {
    let mut a = SparseTensor::empty((2, 2));
    a.push(1.0, 0, 0, 0);
    let mut b = SparseTensor::empty((2, 2));
    b.push(2.0, 1, 1, 0);
    b.push(3.0, 0, 1, 0);
    let c = SparseTensor::combine(vec![a, b]);
    assert_eq!(c.shape, (2, 2));
    assert_eq!(c.data, vec![1.0, 2.0, 3.0]);
    assert_eq!(c.rows, vec![0, 1, 0]);
    let empty: SparseTensor<f64> = SparseTensor::combine(vec![]);
    assert_eq!(empty.shape, (0, 0));
}

#[test]
fn from_tensor_sorts_large_tensors_in_parallel() {
    // A million entries, written in decreasing flattened row: the parallel
    // sort must reverse them.
    let n: usize = 1_000_000;
    let mut t = SparseTensor::with_capacity((n, 1), n);
    for k in 0..n {
        let row = (n - 1 - k) as i64;
        t.push(k as f64, row, 0, 0);
    }
    let r = BuildMatrixResult::from_tensor(t, 1);
    assert_eq!(r.rows.len(), n);
    assert!(r.rows.windows(2).all(|w| w[0] < w[1]));
    assert_eq!(r.rows[0], 0);
    assert_eq!(r.data[0], (n - 1) as f64);
    assert_eq!(r.data[n - 1], 0.0);
}

/// Entries sharing a coordinate are summed, as `csc_array` does.
#[test]
fn compute_reduction_sums_duplicate_coordinates() {
    let data = vec![1.0, 2.0];
    let rows = vec![0, 0];
    let cols = vec![0, 0];
    let red = compute_reduction_from_slices(&data, &rows, &cols, (1, 1), 1, true);
    assert_eq!(red.reduced_data, vec![3.0]);
    assert_eq!(red.reduced_col_indices, vec![0]);
    assert_eq!(red.reduced_indptr, vec![0, 1]);
    assert_eq!(red.reduced_shape, (1, 1));
    assert_eq!(red.final_indices, vec![0]);
    assert_eq!(red.final_indptr, vec![0, 1]);
}

/// Duplicates that cancel are dropped with the other zeros, and the
/// remaining entries of the row keep their column order.
#[test]
fn compute_reduction_drops_cancelling_duplicates() {
    let data = vec![4.0, 1.0, -1.0, 5.0, 2.0];
    let rows = vec![0, 0, 0, 0, 3];
    let cols = vec![1, 0, 0, 1, 0];
    let red = compute_reduction_from_slices(&data, &rows, &cols, (4, 2), 1, true);
    assert_eq!(red.reduced_data, vec![9.0, 2.0]);
    assert_eq!(red.reduced_col_indices, vec![1, 0]);
    assert_eq!(red.reduced_indptr, vec![0, 1, 2]);
    assert_eq!(red.reduced_shape, (2, 2));
    assert_eq!(red.final_indices, vec![0, 3]);
    assert_eq!(red.final_indptr, vec![0, 2]);
}
