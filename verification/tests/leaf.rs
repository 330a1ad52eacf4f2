use cvxpy_rust::block::Block;
use cvxpy_rust::linop::{LinOp, LinOpData, OpType};
use cvxpy_rust::operations::leaf::{
    process_dense_const, process_dense_const_block, process_param, process_scalar_const,
    process_sparse_const, process_variable, process_variable_block,
};
use cvxpy_rust::operations::ProcessingContext;
use cvxpy_rust::tensor::CONSTANT_ID;
use std::collections::HashMap;

fn make_ctx() -> ProcessingContext {
    let mut id_to_col = HashMap::new();
    id_to_col.insert(0, 0);
    id_to_col.insert(1, 5);

    let mut param_to_col = HashMap::new();
    param_to_col.insert(0, 0);
    param_to_col.insert(CONSTANT_ID, 2);

    let mut param_to_size = HashMap::new();
    param_to_size.insert(0, 2);
    param_to_size.insert(CONSTANT_ID, 1);

    ProcessingContext {
        id_to_col,
        param_to_col,
        param_to_size,
        var_length: 10,
        param_size_plus_one: 3,
    }
}

fn leaf(op_type: OpType, shape: Vec<usize>, data: LinOpData<f64>) -> LinOp<f64> {
    LinOp { op_type, shape, args: vec![], data }
}

#[test]
fn test_variable() {
    let ctx = make_ctx();
    let lin_op = leaf(OpType::Variable, vec![3], LinOpData::Int(0));

    let tensor = process_variable(&lin_op, &ctx);

    assert_eq!(tensor.nnz(), 3);
    assert_eq!(tensor.data, vec![1.0, 1.0, 1.0]);
    assert_eq!(tensor.rows, vec![0, 1, 2]);
    assert_eq!(tensor.cols, vec![0, 1, 2]);
}

#[test]
fn test_variable_block_returns_identity() {
    let ctx = make_ctx();
    // Variable 1 at column 5
    let lin_op = leaf(OpType::Variable, vec![3], LinOpData::Int(1));

    let nv = process_variable_block(&lin_op, &ctx);
    assert_eq!(nv.out_rows, 3);
    assert_eq!(nv.var_cols, 11);
    assert_eq!(nv.blocks.len(), 1);
    let entry = &nv.blocks[0];
    assert_eq!(entry.var_col_offset, 5);
    assert_eq!(entry.param_slot, 2);
    assert!(matches!(entry.block, Block::Identity { n: 3 }));
}

#[test]
fn test_scalar_const() {
    let ctx = make_ctx();
    let lin_op = leaf(OpType::ScalarConst, vec![], LinOpData::Float(3.14));

    let tensor = process_scalar_const(&lin_op, &ctx);

    assert_eq!(tensor.nnz(), 1);
    assert_eq!(tensor.data, vec![3.14]);
    assert_eq!(tensor.cols[0], 10);
}

#[test]
fn test_scalar_const_zero_is_empty() {
    let ctx = make_ctx();
    let lin_op = leaf(OpType::ScalarConst, vec![], LinOpData::Float(0.0));
    let tensor = process_scalar_const(&lin_op, &ctx);
    assert_eq!(tensor.nnz(), 0);
}

#[test]
fn test_dense_const() {
    let ctx = make_ctx();
    let lin_op = leaf(
        OpType::DenseConst,
        vec![3],
        LinOpData::DenseArray { data: vec![1.0, 0.0, 2.0], shape: vec![3] },
    );

    let tensor = process_dense_const(&lin_op, &ctx);

    assert_eq!(tensor.nnz(), 2);
    assert_eq!(tensor.data, vec![1.0, 2.0]);
    assert_eq!(tensor.rows, vec![0, 2]);
}

#[test]
fn test_dense_const_3d() {
    let ctx = make_ctx();

    let mut data = vec![0.0; 24];
    data[6] = 42.0;

    let lin_op = leaf(
        OpType::DenseConst,
        vec![2, 3, 4],
        LinOpData::DenseArray { data, shape: vec![2, 3, 4] },
    );

    let tensor = process_dense_const(&lin_op, &ctx);

    assert_eq!(tensor.nnz(), 1);
    assert_eq!(tensor.data, vec![42.0]);
    assert_eq!(tensor.rows, vec![6]);
}

#[test]
fn test_dense_const_block_is_dense() {
    let ctx = make_ctx();
    let lin_op = leaf(
        OpType::DenseConst,
        vec![3],
        LinOpData::DenseArray { data: vec![1.0, 0.0, 2.0], shape: vec![3] },
    );
    let nv = process_dense_const_block(&lin_op, &ctx);
    assert_eq!(nv.blocks.len(), 1);
    assert!(matches!(nv.blocks[0].block, Block::Dense(_)));
    assert_eq!(nv.blocks[0].var_col_offset, 10);
}

#[test]
fn test_sparse_const_round_trips() {
    let ctx = make_ctx();
    // 2x2 CSC matrix:
    //   1 .
    //   . 3
    let lin_op = leaf(
        OpType::SparseConst,
        vec![4],
        LinOpData::SparseArray {
            data: vec![1.0, 3.0],
            indices: vec![0_i64, 1],
            indptr: vec![0_i64, 1, 2],
            shape: (2, 2),
        },
    );
    let tensor = process_sparse_const(&lin_op, &ctx);
    // F-order flat indices: (i=0,j=0) -> 0, (i=1,j=1) -> 3.
    assert_eq!(tensor.nnz(), 2);
    assert_eq!(tensor.data, vec![1.0, 3.0]);
    assert_eq!(tensor.rows, vec![0, 3]);
    assert_eq!(tensor.cols, vec![10, 10]);
}

#[test]
fn test_param_round_trips() {
    let ctx = make_ctx();
    // size 2, col 0
    let lin_op = leaf(OpType::Param, vec![4], LinOpData::Int(0));
    let tensor = process_param(&lin_op, &ctx);
    assert_eq!(tensor.nnz(), 4);
    assert_eq!(tensor.data, vec![1.0, 1.0, 1.0, 1.0]);
    assert_eq!(tensor.rows, vec![0, 1, 2, 3]);
    // param_offset cycles: 0, 1, 0, 1.
    assert_eq!(tensor.param_offsets, vec![0, 1, 0, 1]);
}

#[test]
fn variable_at_unknown_id_starts_at_column_zero() {
    let ctx = make_ctx();
    let lin_op = leaf(OpType::Variable, vec![2], LinOpData::Int(99));
    let tensor = process_variable(&lin_op, &ctx);
    assert_eq!(tensor.cols, vec![0, 1]);
    assert_eq!(tensor.param_offsets, vec![2, 2]);
    assert_eq!(tensor.shape, (2, 11));
}

#[test]
fn scalar_const_from_int_data() {
    let ctx = make_ctx();
    let lin_op = leaf(OpType::ScalarConst, vec![1], LinOpData::Int(7));
    let tensor = process_scalar_const(&lin_op, &ctx);
    assert_eq!(tensor.data, vec![7.0]);
    assert_eq!(tensor.rows, vec![0]);
    assert_eq!(tensor.param_offsets, vec![2]);
}

#[test]
fn dense_const_matrix_is_read_column_major() {
    let ctx = make_ctx();
    // 2x2 matrix stored in column-major order: [[1, 3], [2, 4]].
    let lin_op = leaf(
        OpType::DenseConst,
        vec![2, 2],
        LinOpData::DenseArray { data: vec![1.0, 2.0, 3.0, 4.0], shape: vec![2, 2] },
    );
    let tensor = process_dense_const(&lin_op, &ctx);
    assert_eq!(tensor.rows, vec![0, 1, 2, 3]);
    assert_eq!(tensor.data, vec![1.0, 2.0, 3.0, 4.0]);
    assert_eq!(tensor.cols, vec![10, 10, 10, 10]);
}
