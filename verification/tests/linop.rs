use cvxpy_rust::linop::{LinOp, LinOpData, LinOpError, OpType, SliceData};
use cvxpy_rust::operations::partial::{process_arg_rows, process_linop_rows};
use cvxpy_rust::operations::{count_nnz, process_linop, ProcessingContext};
use cvxpy_rust::tensor::CONSTANT_ID;
use std::collections::HashMap;

fn ctx() -> ProcessingContext {
    let mut id_to_col = HashMap::new();
    id_to_col.insert(1, 0);
    let mut param_to_col = HashMap::new();
    param_to_col.insert(CONSTANT_ID, 0);
    let mut param_to_size = HashMap::new();
    param_to_size.insert(CONSTANT_ID, 1);
    ProcessingContext { id_to_col, param_to_col, param_to_size, var_length: 5, param_size_plus_one: 1 }
}

fn leaf(op_type: OpType, shape: Vec<usize>, data: LinOpData<f64>) -> LinOp<f64> {
    LinOp { op_type, shape, args: vec![], data }
}

#[test]
fn op_codes_and_names_round_trip() {
    assert_eq!(OpType::from_int(0).unwrap(), OpType::Variable);
    assert_eq!(OpType::from_int(12).unwrap(), OpType::Index);
    assert_eq!(OpType::from_int(27).unwrap(), OpType::NoOp);
    assert!(matches!(OpType::from_int(28), Err(LinOpError::UnknownOpTypeInt(28))));
    assert_eq!(OpType::from_str("mul_elem").unwrap(), OpType::MulElem);
    assert_eq!(OpType::from_str("kron_l").unwrap(), OpType::KronL);
    match OpType::from_str("matmul") {
        Err(LinOpError::UnknownOpType(name)) => assert_eq!(name, "matmul"),
        _ => panic!("expected an unknown operation"),
    }
    assert_eq!(OpType::SumEntries.name(), "SumEntries");
}

#[test]
fn leaves_are_the_five_leaf_types() {
    assert!(OpType::Variable.is_leaf());
    assert!(OpType::Param.is_leaf());
    assert!(OpType::SparseConst.is_leaf());
    assert!(!OpType::Sum.is_leaf());
    assert!(!OpType::NoOp.is_leaf());
}

#[test]
fn size_is_the_product_of_the_shape() {
    assert_eq!(leaf(OpType::Variable, vec![2, 3, 4], LinOpData::Int(1)).size(), 24);
    assert_eq!(leaf(OpType::ScalarConst, vec![], LinOpData::Float(1.0)).size(), 1);
    assert_eq!(leaf(OpType::Variable, vec![3, 0], LinOpData::Int(1)).size(), 0);
}

#[test]
fn estimate_nnz_by_operation() {
    let x = leaf(OpType::Variable, vec![3, 2], LinOpData::Int(1));
    assert_eq!(x.estimate_nnz(), 6);
    let a = leaf(OpType::DenseConst, vec![4, 3], LinOpData::DenseArray { data: vec![1.0; 12], shape: vec![4, 3] });
    // data estimate times the argument's second dimension
    let mul = LinOp { op_type: OpType::Mul, shape: vec![4, 2], args: vec![x], data: LinOpData::LinOpRef(Box::new(a)) };
    assert_eq!(mul.estimate_nnz(), 24);
    let s = leaf(OpType::ScalarConst, vec![], LinOpData::Float(2.0));
    assert_eq!(s.estimate_nnz(), 1);
}

#[test]
fn has_param_searches_data_and_arguments() {
    let x = leaf(OpType::Variable, vec![2], LinOpData::Int(1));
    let p = leaf(OpType::Param, vec![2], LinOpData::Int(7));
    assert!(!x.has_param());
    assert!(p.has_param());
    let in_data = LinOp {
        op_type: OpType::MulElem,
        shape: vec![2],
        args: vec![leaf(OpType::Variable, vec![2], LinOpData::Int(1))],
        data: LinOpData::LinOpRef(Box::new(p)),
    };
    assert!(in_data.has_param());
    let in_args = LinOp {
        op_type: OpType::Neg,
        shape: vec![2],
        args: vec![leaf(OpType::Param, vec![2], LinOpData::Int(7))],
        data: LinOpData::NoData,
    };
    assert!(in_args.has_param());
    let deep = LinOp { op_type: OpType::Sum, shape: vec![2], args: vec![x, in_args], data: LinOpData::NoData };
    assert!(deep.has_param());
}

#[test]
fn count_matches_entries_for_exact_trees() {
    let c = ctx();
    let x = leaf(OpType::Variable, vec![3], LinOpData::Int(1));
    let d = leaf(OpType::DenseConst, vec![3], LinOpData::DenseArray { data: vec![1.0, 0.0, 2.0], shape: vec![3] });
    let neg = LinOp { op_type: OpType::Neg, shape: vec![3], args: vec![d], data: LinOpData::NoData };
    let tree = LinOp { op_type: OpType::Sum, shape: vec![3], args: vec![x, neg], data: LinOpData::NoData };
    assert_eq!(count_nnz(&tree, &c), 5);
    assert_eq!(process_linop(&tree, &c).nnz(), 5);
}

#[test]
fn count_overestimates_a_partial_index() {
    // Three of five rows kept: the count stays at the argument's five.
    let c = ctx();
    let x = leaf(OpType::Variable, vec![5], LinOpData::Int(1));
    let index = LinOp {
        op_type: OpType::Index,
        shape: vec![3],
        args: vec![x],
        data: LinOpData::Slices(vec![SliceData { start: 1, stop: 4, step: 1 }]),
    };
    assert_eq!(count_nnz(&index, &c), 5);
    assert_eq!(process_linop(&index, &c).nnz(), 3);
}

#[test]
fn count_matches_entries_for_products_and_sparse_constants() {
    // A 2x3 dense constant with one zero times a 3x2 variable: its five
    // non-zeros once per column of the variable.
    let mut c = ctx();
    c.var_length = 6;
    let a = leaf(
        OpType::DenseConst,
        vec![2, 3],
        LinOpData::DenseArray { data: vec![1.0, 2.0, 0.0, 4.0, 5.0, 6.0], shape: vec![2, 3] },
    );
    let x = leaf(OpType::Variable, vec![3, 2], LinOpData::Int(1));
    let product = LinOp { op_type: OpType::Mul, shape: vec![2, 2], args: vec![x], data: LinOpData::LinOpRef(Box::new(a)) };
    assert_eq!(count_nnz(&product, &c), 10);
    assert_eq!(process_linop(&product, &c).nnz(), 10);

    // A canonical CSC constant with an explicit zero stored.
    let s = leaf(
        OpType::SparseConst,
        vec![2, 2],
        LinOpData::SparseArray { data: vec![3.0, 0.0, 4.0], indices: vec![0, 1, 1], indptr: vec![0, 2, 3], shape: (2, 2) },
    );
    assert_eq!(count_nnz(&s, &c), 2);
    assert_eq!(process_linop(&s, &c).nnz(), 2);
}

#[test]
fn restricted_lowering_keeps_the_listed_rows() {
    let c = ctx();
    let x = leaf(OpType::Variable, vec![5], LinOpData::Int(1));
    let d = leaf(OpType::DenseConst, vec![5], LinOpData::DenseArray { data: vec![1.0, 4.0, 2.0, 5.0, 3.0], shape: vec![5] });
    let neg = LinOp { op_type: OpType::Neg, shape: vec![5], args: vec![d], data: LinOpData::NoData };
    let tree = LinOp { op_type: OpType::Sum, shape: vec![5], args: vec![x, neg], data: LinOpData::NoData };
    let t = process_linop_rows(&tree, &c, &[1, 3]);
    assert_eq!(t.shape, (5, 6));
    assert_eq!(t.data, vec![1.0, 1.0, -4.0, -5.0]);
    assert_eq!(t.rows, vec![1, 3, 1, 3]);
    assert_eq!(t.cols, vec![1, 3, 5, 5]);
    let none = process_linop_rows(&tree, &c, &[]);
    assert_eq!(none.nnz(), 0);
    assert_eq!(none.shape, (5, 6));
}

#[test]
fn argument_rows_restrict_or_lower_in_full() {
    let c = ctx();
    let x = leaf(OpType::Variable, vec![5], LinOpData::Int(1));
    // Two distinct valid rows of five: restricted.
    let few = process_arg_rows(&x, &c, &[4, 0, 4, 9]);
    assert_eq!(few.rows, vec![0, 4]);
    assert_eq!(few.cols, vec![0, 4]);
    // Three of five: lowered in full.
    let most = process_arg_rows(&x, &c, &[0, 1, 2]);
    assert_eq!(most.rows, vec![0, 1, 2, 3, 4]);
}

#[test]
fn every_operation_name_parses_to_its_code() {
    let names = [
        "variable", "scalar_const", "dense_const", "sparse_const", "param", "sum", "neg", "reshape", "mul",
        "rmul", "mul_elem", "div", "index", "transpose", "promote", "broadcast_to", "hstack", "vstack",
        "concatenate", "sum_entries", "trace", "diag_vec", "diag_mat", "upper_tri", "conv", "kron_r",
        "kron_l", "no_op",
    ];
    for (code, name) in names.iter().enumerate() {
        assert_eq!(OpType::from_str(name).unwrap(), OpType::from_int(code as u8).unwrap());
    }
    assert!(matches!(OpType::from_str("Mul"), Err(LinOpError::UnknownOpType(_))));
}

fn two_var_ctx() -> ProcessingContext {
    let mut id_to_col = HashMap::new();
    id_to_col.insert(1, 0);
    id_to_col.insert(2, 4);
    let mut param_to_col = HashMap::new();
    param_to_col.insert(CONSTANT_ID, 0);
    let mut param_to_size = HashMap::new();
    param_to_size.insert(CONSTANT_ID, 1);
    ProcessingContext { id_to_col, param_to_col, param_to_size, var_length: 8, param_size_plus_one: 1 }
}

#[test]
fn count_of_a_sum_of_two_variables() {
    let c = two_var_ctx();
    let x = leaf(OpType::Variable, vec![2, 2], LinOpData::Int(1));
    let y = leaf(OpType::Variable, vec![2, 2], LinOpData::Int(2));
    let sum = LinOp { op_type: OpType::Sum, shape: vec![2, 2], args: vec![x, y], data: LinOpData::NoData };
    assert_eq!(count_nnz(&sum, &c), 8);
    assert_eq!(process_linop(&sum, &c).nnz(), 8);
}

#[test]
fn count_of_a_product_with_a_sum_is_exact() {
    // kron(I_2, A) applied to X + Y: every entry of the sum meets a full
    // column of A, twice as many entries as A @ X.
    let c = two_var_ctx();
    let x = leaf(OpType::Variable, vec![2, 2], LinOpData::Int(1));
    let y = leaf(OpType::Variable, vec![2, 2], LinOpData::Int(2));
    let sum = LinOp { op_type: OpType::Sum, shape: vec![2, 2], args: vec![x, y], data: LinOpData::NoData };
    let a = leaf(
        OpType::DenseConst,
        vec![2, 2],
        LinOpData::DenseArray { data: vec![1.0, 2.0, 3.0, 4.0], shape: vec![2, 2] },
    );
    let product = LinOp { op_type: OpType::Mul, shape: vec![2, 2], args: vec![sum], data: LinOpData::LinOpRef(Box::new(a)) };
    assert_eq!(count_nnz(&product, &c), 16);
    assert_eq!(process_linop(&product, &c).nnz(), 16);
}
