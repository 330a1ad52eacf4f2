use cvxpy_rust::linop::{LinOp, LinOpData, OpType, SliceData};
use cvxpy_rust::operations::partial::{filter_rows, process_linop_rows};
use cvxpy_rust::operations::{process_linop, ProcessingContext};
use cvxpy_rust::tensor::{SparseTensor, CONSTANT_ID};
use std::collections::{HashMap, HashSet};

fn ctx() -> ProcessingContext {
    let mut id_to_col = HashMap::new();
    id_to_col.insert(1, 0);
    id_to_col.insert(CONSTANT_ID, 12);
    let mut param_to_col = HashMap::new();
    param_to_col.insert(CONSTANT_ID, 0);
    let mut param_to_size = HashMap::new();
    param_to_size.insert(CONSTANT_ID, 1);
    ProcessingContext { id_to_col, param_to_col, param_to_size, var_length: 12, param_size_plus_one: 1 }
}

fn variable(shape: &[usize]) -> LinOp<f64> {
    LinOp { op_type: OpType::Variable, shape: shape.to_vec(), args: vec![], data: LinOpData::Int(1) }
}

fn dense(rows: usize, cols: usize, seed: u64) -> LinOp<f64> {
    let mut x = seed;
    let data: Vec<f64> = (0..rows * cols)
        .map(|_| {
            x = x.wrapping_mul(6364136223846793005).wrapping_add(1442695040888963407);
            ((x >> 33) % 5) as f64 - 2.0
        })
        .collect();
    LinOp {
        op_type: OpType::DenseConst,
        shape: vec![rows, cols],
        args: vec![],
        data: LinOpData::DenseArray { data, shape: vec![rows, cols] },
    }
}

fn node(op_type: OpType, shape: &[usize], args: Vec<LinOp<f64>>, data: LinOpData<f64>) -> LinOp<f64> {
    LinOp { op_type, shape: shape.to_vec(), args, data }
}

fn entries(t: &SparseTensor<f64>) -> HashMap<(i64, i64, i64), f64> {
    let mut m = HashMap::new();
    for i in 0..t.nnz() {
        *m.entry((t.rows[i], t.cols[i], t.param_offsets[i])).or_insert(0.0) += t.data[i];
    }
    m.retain(|_, v| *v != 0.0);
    m
}

fn check(lin_op: &LinOp<f64>, rows: &[i64]) {
    let c = ctx();
    let full = entries(&filter_rows(process_linop(lin_op, &c), rows));
    let restricted = process_linop_rows(lin_op, &c, rows);
    let rows_present: HashSet<i64> = restricted.rows.iter().copied().collect();
    assert!(rows_present.iter().all(|r| rows.contains(r)), "extra rows emitted");
    let got = entries(&restricted);
    assert_eq!(got.len(), full.len(), "entry count for rows {:?}", rows);
    for (k, v) in &full {
        let g = got.get(k).copied().unwrap_or(f64::NAN);
        assert!((g - v).abs() < 1e-9, "key {:?}: got {} want {}", k, g, v);
    }
}

#[test]
fn mul_elem_and_div_rows() {
    let x = variable(&[3, 4]);
    let v = dense(4, 3, 8);
    let vx = node(OpType::Mul, &[4, 4], vec![x], LinOpData::LinOpRef(Box::new(v)));
    let m = dense(4, 4, 9);
    let me = node(OpType::MulElem, &[4, 4], vec![vx], LinOpData::LinOpRef(Box::new(m)));
    let d = dense(4, 4, 10);
    let div = node(OpType::Div, &[4, 4], vec![me], LinOpData::LinOpRef(Box::new(d)));
    check(&div, &[0, 5, 10, 15]);
    check(&div, &[7]);
}

#[test]
fn left_product_rows_match_filtered_lowering() {
    let x = variable(&[3, 4]);
    let neg = node(OpType::Neg, &[3, 4], vec![x], LinOpData::NoData);
    let a = dense(4, 3, 11);
    let ax = node(OpType::Mul, &[4, 4], vec![neg], LinOpData::LinOpRef(Box::new(a)));
    check(&ax, &[0, 5, 10, 15]);
    check(&ax, &[7]);
    check(&ax, &[3, 4, 12]);
    check(&ax, &[]);
    let b = dense(2, 4, 12);
    let bax = node(OpType::Mul, &[2, 4], vec![ax], LinOpData::LinOpRef(Box::new(b)));
    check(&bax, &[1, 6]);
    check(&bax, &[0, 1, 2, 3, 4, 5, 6, 7]);
}

#[test]
fn right_product_rows_match_filtered_lowering() {
    let x = variable(&[3, 4]);
    let neg = node(OpType::Neg, &[3, 4], vec![x], LinOpData::NoData);
    let a = dense(4, 2, 13);
    let xa = node(OpType::Rmul, &[3, 2], vec![neg], LinOpData::LinOpRef(Box::new(a)));
    check(&xa, &[0, 4]);
    check(&xa, &[5]);
    check(&xa, &[1, 2, 3]);
    check(&xa, &[-1, 6, 2]);
    let b = dense(2, 5, 14);
    let xab = node(OpType::Rmul, &[3, 5], vec![xa], LinOpData::LinOpRef(Box::new(b)));
    check(&xab, &[2, 7, 14]);
    check(&xab, &[0, 1, 2, 3, 4, 5, 6, 7, 8, 9, 10, 11, 12, 13, 14]);
}

#[test]
fn index_over_sum_neg_reshape_rows() {
    let x = variable(&[3, 4]);
    let v = dense(4, 3, 3);
    let vx = node(OpType::Mul, &[4, 4], vec![x], LinOpData::LinOpRef(Box::new(v)));
    let neg = node(OpType::Neg, &[4, 4], vec![vx], LinOpData::NoData);
    let x2 = variable(&[3, 4]);
    let v2 = dense(4, 3, 4);
    let vx2 = node(OpType::Mul, &[4, 4], vec![x2], LinOpData::LinOpRef(Box::new(v2)));
    let w2 = dense(4, 4, 5);
    let affine = node(OpType::Mul, &[4, 4], vec![vx2], LinOpData::LinOpRef(Box::new(w2)));
    let other = node(OpType::Reshape, &[4, 4], vec![affine], LinOpData::NoData);
    let sum = node(OpType::Sum, &[4, 4], vec![neg, other], LinOpData::NoData);
    let slices = LinOpData::Slices(vec![
        SliceData { start: 1, stop: 4, step: 2 },
        SliceData { start: 0, stop: 4, step: 3 },
    ]);
    let index = node(OpType::Index, &[2, 2], vec![sum], slices);
    check(&index, &[0, 3]);
    check(&index, &[1]);
    check(&index, &[0, 1, 2, 3]);
}
