use cvxpy_rust::linop::{LinOp, LinOpData, OpType, SliceData};
use cvxpy_rust::operations::arithmetic::{
    process_div, process_mul, process_mul_elem, process_neg, process_rmul,
};
use cvxpy_rust::operations::{process_linop, process_sum, ProcessingContext};
use cvxpy_rust::tensor::CONSTANT_ID;
use std::collections::HashMap;

fn ctx_with(vars: &[(i64, i64)], var_length: i64) -> ProcessingContext {
    let mut id_to_col = HashMap::new();
    for &(id, col) in vars {
        id_to_col.insert(id, col);
    }
    let mut param_to_col = HashMap::new();
    param_to_col.insert(CONSTANT_ID, 0);
    let mut param_to_size = HashMap::new();
    param_to_size.insert(CONSTANT_ID, 1);
    ProcessingContext { id_to_col, param_to_col, param_to_size, var_length, param_size_plus_one: 1 }
}

fn make_ctx() -> ProcessingContext {
    // Variable 1 at column 0
    ctx_with(&[(1, 0)], 4)
}

fn variable(id: i64, shape: Vec<usize>) -> LinOp<f64> {
    LinOp { op_type: OpType::Variable, shape, args: vec![], data: LinOpData::Int(id) }
}

fn dense(data: Vec<f64>, shape: Vec<usize>) -> LinOp<f64> {
    LinOp {
        op_type: OpType::DenseConst,
        shape: shape.clone(),
        args: vec![],
        data: LinOpData::DenseArray { data, shape },
    }
}

fn scalar(v: f64) -> LinOp<f64> {
    LinOp { op_type: OpType::ScalarConst, shape: vec![], args: vec![], data: LinOpData::Float(v) }
}

fn node(op_type: OpType, shape: Vec<usize>, args: Vec<LinOp<f64>>, data: LinOpData<f64>) -> LinOp<f64> {
    LinOp { op_type, shape, args, data }
}

#[test]
fn test_neg() {
    let ctx = make_ctx();
    let var_op = variable(1, vec![2, 2]);
    let neg_op = node(OpType::Neg, vec![2, 2], vec![var_op], LinOpData::NoData);

    let tensor = process_neg(&neg_op, &ctx);

    assert_eq!(tensor.nnz(), 4);
    // All values should be -1.0
    for &v in &tensor.data {
        assert_eq!(v, -1.0);
    }
}

#[test]
fn test_sum_two_variables() {
    // Variable 1 at column 0, variable 2 at column 4
    let ctx = ctx_with(&[(1, 0), (2, 4)], 8);
    let var1 = variable(1, vec![2, 2]);
    let var2 = variable(2, vec![2, 2]);
    let sum_op = node(OpType::Sum, vec![2, 2], vec![var1, var2], LinOpData::NoData);

    let tensor = process_sum(&sum_op, &ctx);

    // Sum of two identity matrices should have 8 non-zeros
    assert_eq!(tensor.nnz(), 8);
}

#[test]
fn test_mul_scalar() {
    let ctx = make_ctx();
    let var_op = variable(1, vec![2, 2]);
    // Multiply: 2.0 * var
    let mul_op = node(OpType::Mul, vec![2, 2], vec![var_op], LinOpData::LinOpRef(Box::new(scalar(2.0))));

    let tensor = process_mul(&mul_op, &ctx);

    assert_eq!(tensor.nnz(), 4);
    // All values should be 2.0
    for &v in &tensor.data {
        assert_eq!(v, 2.0);
    }
}

#[test]
fn test_mul_dense_matrix_row_major() {
    let ctx = make_ctx();
    let var_op = variable(1, vec![2, 2]);
    // 2x2 constant matrix [[1, 2], [3, 4]] given as [1, 2, 3, 4]
    let const_op = dense(vec![1.0, 2.0, 3.0, 4.0], vec![2, 2]);
    // Multiply: const @ var
    let mul_op = node(OpType::Mul, vec![2, 2], vec![var_op], LinOpData::LinOpRef(Box::new(const_op)));

    let tensor = process_mul(&mul_op, &ctx);

    // Should have non-zero entries
    assert!(tensor.nnz() > 0);
}

#[test]
fn test_mul_elem() {
    let ctx = make_ctx();
    let var_op = variable(1, vec![2, 2]);
    // Constant for elementwise multiply [2, 3, 4, 5]
    let const_op = dense(vec![2.0, 3.0, 4.0, 5.0], vec![2, 2]);
    let mul_elem_op =
        node(OpType::MulElem, vec![2, 2], vec![var_op], LinOpData::LinOpRef(Box::new(const_op)));

    let tensor = process_mul_elem(&mul_elem_op, &ctx);

    assert_eq!(tensor.nnz(), 4);
}

#[test]
fn test_div() {
    let ctx = ctx_with(&[(1, 0)], 2);
    let var_op = variable(1, vec![2]);
    // Constant for division [2, 4]
    let const_op = dense(vec![2.0, 4.0], vec![2]);
    let div_op = node(OpType::Div, vec![2], vec![var_op], LinOpData::LinOpRef(Box::new(const_op)));

    let tensor = process_div(&div_op, &ctx);

    assert_eq!(tensor.nnz(), 2);
    // Values should be 1/2 and 1/4
    assert!((tensor.data[0] - 0.5).abs() < 1e-10);
    assert!((tensor.data[1] - 0.25).abs() < 1e-10);
}

#[test]
fn test_mul_with_index_variable_lasso_pattern() {
    // Variable y of size 5 at column 0; y[1..4] multiplied by a 3x3 matrix
    //   A = [[ 1, 2, 3 ]
    //        [ 4, 5, 6 ]
    //        [ 7, 8, 9 ]]
    let ctx = ctx_with(&[(1, 0)], 5);
    let var = variable(1, vec![5]);
    let index = node(
        OpType::Index,
        vec![3],
        vec![var],
        LinOpData::Slices(vec![SliceData { start: 1, stop: 4, step: 1 }]),
    );
    // Column-major: (col 0) 1 4 7  (col 1) 2 5 8  (col 2) 3 6 9
    let dense_a = dense(vec![1.0, 4.0, 7.0, 2.0, 5.0, 8.0, 3.0, 6.0, 9.0], vec![3, 3]);
    let mul_op = node(OpType::Mul, vec![3], vec![index], LinOpData::LinOpRef(Box::new(dense_a)));

    let tensor = process_mul(&mul_op, &ctx);

    // A's 9 nonzeros placed at cols {1, 2, 3}, column by column.
    assert_eq!(tensor.nnz(), 9);
    assert_eq!(tensor.data, vec![1.0, 4.0, 7.0, 2.0, 5.0, 8.0, 3.0, 6.0, 9.0]);
    assert_eq!(tensor.cols, vec![1, 1, 1, 2, 2, 2, 3, 3, 3]);
    assert_eq!(tensor.rows, vec![0, 1, 2, 0, 1, 2, 0, 1, 2]);
    for &p in &tensor.param_offsets {
        assert_eq!(p, 0);
    }
}

#[test]
fn test_mul_plain_variable_fast_path_still_fires() {
    let ctx = make_ctx();
    let var_op = variable(1, vec![4]);
    // Column-major 2x4
    let dense_a = dense(vec![1.0, 0.0, 0.0, 1.0, 1.0, 0.0, 0.0, 1.0], vec![2, 4]);
    let mul_op = node(OpType::Mul, vec![2], vec![var_op], LinOpData::LinOpRef(Box::new(dense_a)));

    let tensor = process_mul(&mul_op, &ctx);

    // 4 nonzeros (the 1.0 entries). Variable starts at col 0, so out_col = col index.
    assert_eq!(tensor.nnz(), 4);
    assert_eq!(tensor.data, vec![1.0, 1.0, 1.0, 1.0]);
    assert_eq!(tensor.rows, vec![0, 1, 0, 1]);
    assert_eq!(tensor.cols, vec![0, 1, 2, 3]);
}

#[test]
fn mul_dense_matrix_by_matrix_variable_emits_kron_blocks() {
    // [[1, 3], [2, 4]] (column-major [1, 2, 3, 4]) times a 2x2 variable at
    // column 0: kron(I_2, A), the constant's entries once per column of the
    // variable, block by block.
    let ctx = make_ctx();
    let var_op = variable(1, vec![2, 2]);
    let const_op = dense(vec![1.0, 2.0, 3.0, 4.0], vec![2, 2]);
    let mul_op = node(OpType::Mul, vec![2, 2], vec![var_op], LinOpData::LinOpRef(Box::new(const_op)));
    let tensor = process_mul(&mul_op, &ctx);
    assert_eq!(tensor.nnz(), 8);
    assert_eq!(tensor.data, vec![1.0, 2.0, 3.0, 4.0, 1.0, 2.0, 3.0, 4.0]);
    assert_eq!(tensor.rows, vec![0, 1, 0, 1, 2, 3, 2, 3]);
    assert_eq!(tensor.cols, vec![0, 0, 1, 1, 2, 2, 3, 3]);
    assert_eq!(tensor.param_offsets, vec![0; 8]);
    assert_eq!(tensor.shape, (4, 5));
}

#[test]
fn mul_fast_path_matches_general_product() {
    // The same product once through the identity fast path (a plain
    // variable) and once through the general kernel (the variable negated
    // twice): the same entries in the same order.
    let ctx = ctx_with(&[(1, 0)], 6);
    let a_data = vec![1.0, 0.0, 3.0, 4.0, 0.0, 6.0];
    let fast = node(
        OpType::Mul,
        vec![2, 2],
        vec![variable(1, vec![3, 2])],
        LinOpData::LinOpRef(Box::new(dense(a_data.clone(), vec![2, 3]))),
    );
    let twice = node(
        OpType::Neg,
        vec![3, 2],
        vec![node(OpType::Neg, vec![3, 2], vec![variable(1, vec![3, 2])], LinOpData::NoData)],
        LinOpData::NoData,
    );
    let general =
        node(OpType::Mul, vec![2, 2], vec![twice], LinOpData::LinOpRef(Box::new(dense(a_data, vec![2, 3]))));
    let a = process_mul(&fast, &ctx);
    let b = process_mul(&general, &ctx);
    assert_eq!(a.data, b.data);
    assert_eq!(a.rows, b.rows);
    assert_eq!(a.cols, b.cols);
    assert_eq!(a.param_offsets, b.param_offsets);
    assert_eq!(a.nnz(), 8);
}

fn sparse(data: Vec<f64>, indices: Vec<i64>, indptr: Vec<i64>, shape: (usize, usize)) -> LinOp<f64> {
    LinOp {
        op_type: OpType::SparseConst,
        shape: vec![shape.0, shape.1],
        args: vec![],
        data: LinOpData::SparseArray { data, indices, indptr, shape },
    }
}

fn negated_twice(op: LinOp<f64>) -> LinOp<f64> {
    let shape = op.shape.clone();
    node(OpType::Neg, shape.clone(), vec![node(OpType::Neg, shape, vec![op], LinOpData::NoData)], LinOpData::NoData)
}

#[test]
fn mul_sparse_fast_path_matches_general_product() {
    // CSC [[0, 2], [5, 0], [0, 7]] times a 2x2 variable: kron(I_2, A) both
    // ways, in the same order.
    let ctx = ctx_with(&[(1, 0)], 4);
    let a = || sparse(vec![5.0, 2.0, 7.0], vec![1, 0, 2], vec![0, 1, 3], (3, 2));
    let fast = node(OpType::Mul, vec![3, 2], vec![variable(1, vec![2, 2])], LinOpData::LinOpRef(Box::new(a())));
    let general = node(
        OpType::Mul,
        vec![3, 2],
        vec![negated_twice(variable(1, vec![2, 2]))],
        LinOpData::LinOpRef(Box::new(a())),
    );
    let x = process_mul(&fast, &ctx);
    let y = process_mul(&general, &ctx);
    assert_eq!(x.data, vec![5.0, 2.0, 7.0, 5.0, 2.0, 7.0]);
    assert_eq!(x.rows, vec![1, 0, 2, 4, 3, 5]);
    assert_eq!(x.cols, vec![0, 1, 1, 2, 3, 3]);
    assert_eq!((x.data, x.rows, x.cols), (y.data, y.rows, y.cols));
}

#[test]
fn mul_scalar_fast_path_matches_general_product() {
    let ctx = ctx_with(&[(1, 0)], 3);
    let fast = node(OpType::Mul, vec![3], vec![variable(1, vec![3])], LinOpData::LinOpRef(Box::new(scalar(2.5))));
    let general = node(
        OpType::Mul,
        vec![3],
        vec![negated_twice(variable(1, vec![3]))],
        LinOpData::LinOpRef(Box::new(scalar(2.5))),
    );
    let x = process_mul(&fast, &ctx);
    let y = process_mul(&general, &ctx);
    assert_eq!(x.data, vec![2.5, 2.5, 2.5]);
    assert_eq!(x.rows, vec![0, 1, 2]);
    assert_eq!(x.cols, vec![0, 1, 2]);
    assert_eq!((x.data, x.rows, x.cols), (y.data, y.rows, y.cols));
}

#[test]
fn mul_matrix_not_tiling_variable_uses_general_product() {
    // A 1x3 constant times a variable of size 2 (a row vector of width 3
    // does not tile 2 columns): the general product, which keeps only the
    // rows the operand has.
    let ctx = ctx_with(&[(1, 0)], 2);
    let var_op = variable(1, vec![2]);
    let const_op = dense(vec![5.0, 6.0, 7.0], vec![1, 3]);
    let mul_op = node(OpType::Mul, vec![1], vec![var_op], LinOpData::LinOpRef(Box::new(const_op)));
    let tensor = process_mul(&mul_op, &ctx);
    let mut triples: Vec<(i64, i64, f64)> = (0..tensor.nnz())
        .map(|k| (tensor.rows[k], tensor.cols[k], tensor.data[k]))
        .collect();
    triples.sort_by(|a, b| a.partial_cmp(b).unwrap());
    assert_eq!(triples, vec![(0, 0, 5.0), (0, 1, 6.0)]);
}

#[test]
fn mul_dense_matrix_by_negated_variable_is_block_diagonal() {
    // A negated variable is no plain variable, so the product goes through
    // the block-diagonal kernel: (I kron A) applied to -I over the
    // variable's two columns.
    let ctx = make_ctx();
    let var_op = variable(1, vec![2, 2]);
    let negated = node(OpType::Neg, vec![2, 2], vec![var_op], LinOpData::NoData);
    let const_op = dense(vec![1.0, 2.0, 3.0, 4.0], vec![2, 2]);
    let mul_op = node(OpType::Mul, vec![2, 2], vec![negated], LinOpData::LinOpRef(Box::new(const_op)));
    let tensor = process_mul(&mul_op, &ctx);
    let mut triples: Vec<(i64, i64, f64)> = (0..tensor.nnz())
        .map(|k| (tensor.rows[k], tensor.cols[k], tensor.data[k]))
        .collect();
    triples.sort_by(|a, b| a.partial_cmp(b).unwrap());
    assert_eq!(
        triples,
        vec![
            (0, 0, -1.0),
            (0, 1, -3.0),
            (1, 0, -2.0),
            (1, 1, -4.0),
            (2, 2, -1.0),
            (2, 3, -3.0),
            (3, 2, -2.0),
            (3, 3, -4.0),
        ]
    );
}

#[test]
fn neg_twice_restores_values() {
    let ctx = make_ctx();
    let var_op = variable(1, vec![3]);
    let neg = node(OpType::Neg, vec![3], vec![var_op], LinOpData::NoData);
    let neg_neg = node(OpType::Neg, vec![3], vec![neg], LinOpData::NoData);
    let tensor = process_linop(&neg_neg, &ctx);
    assert_eq!(tensor.data, vec![1.0, 1.0, 1.0]);
    assert_eq!(tensor.rows, vec![0, 1, 2]);
}

#[test]
fn rmul_by_scalar_scales() {
    let ctx = make_ctx();
    let var_op = variable(1, vec![2]);
    let rmul = node(OpType::Rmul, vec![2], vec![var_op], LinOpData::LinOpRef(Box::new(scalar(3.0))));
    let tensor = process_rmul(&rmul, &ctx);
    assert_eq!(tensor.data, vec![3.0, 3.0]);
    assert_eq!(tensor.rows, vec![0, 1]);
    assert_eq!(tensor.cols, vec![0, 1]);
}

#[test]
fn mul_elem_scales_each_row() {
    let ctx = make_ctx();
    let var_op = variable(1, vec![3]);
    let const_op = dense(vec![2.0, 0.5, -1.0], vec![3]);
    let op = node(OpType::MulElem, vec![3], vec![var_op], LinOpData::LinOpRef(Box::new(const_op)));
    let tensor = process_mul_elem(&op, &ctx);
    assert_eq!(tensor.data, vec![2.0, 0.5, -1.0]);
    assert_eq!(tensor.rows, vec![0, 1, 2]);
    assert_eq!(tensor.cols, vec![0, 1, 2]);
}

#[test]
fn index_selects_rows_of_variable() {
    let ctx = ctx_with(&[(1, 0)], 5);
    let var = variable(1, vec![5]);
    let index = node(
        OpType::Index,
        vec![2],
        vec![var],
        LinOpData::Slices(vec![SliceData { start: 4, stop: 0, step: -3 }]),
    );
    let tensor = process_linop(&index, &ctx);
    // y[4], y[1]
    let mut pairs: Vec<(i64, i64)> = (0..tensor.nnz()).map(|k| (tensor.rows[k], tensor.cols[k])).collect();
    pairs.sort();
    assert_eq!(pairs, vec![(0, 4), (1, 1)]);
    assert_eq!(tensor.data, vec![1.0, 1.0]);
}
