use cvxpy_rust::linop::{LinOp, LinOpData, OpType};
use cvxpy_rust::matrix_builder::{build_matrix_internal, row_offsets, total_rows, CachedLinOpGraph};
use std::collections::HashMap;

fn variable(id: i64, n: usize) -> LinOp<f64> {
    LinOp { op_type: OpType::Variable, shape: vec![n], args: vec![], data: LinOpData::Int(id) }
}

fn dense(data: Vec<f64>) -> LinOp<f64> {
    let n = data.len();
    LinOp { op_type: OpType::DenseConst, shape: vec![n], args: vec![], data: LinOpData::DenseArray { data, shape: vec![n] } }
}

fn param(id: i64, n: usize) -> LinOp<f64> {
    LinOp { op_type: OpType::Param, shape: vec![n], args: vec![], data: LinOpData::Int(id) }
}

fn sum(a: LinOp<f64>, b: LinOp<f64>) -> LinOp<f64> {
    let shape = a.shape.clone();
    LinOp { op_type: OpType::Sum, shape, args: vec![a, b], data: LinOpData::NoData }
}

fn var_map() -> HashMap<i64, i64> {
    let mut m = HashMap::new();
    m.insert(1, 0);
    m
}

#[test]
fn stacks_and_flattens_constraints() {
    // x (2 entries, columns 0..2) and x + [5, 6]; var_length 2, so the
    // constant column is 2 and each tensor has 3 columns.
    let ops = vec![variable(1, 2), sum(variable(1, 2), dense(vec![5.0, 6.0]))];
    let r = build_matrix_internal(&ops, 1, &var_map(), &HashMap::new(), &HashMap::new(), 2);
    // 4 rows in total, flattened over 3 columns: 12 rows, 1 slice.
    assert_eq!(r.shape, (12, 1));
    assert_eq!(r.rows, vec![0, 2, 5, 7, 10, 11]);
    assert_eq!(r.data, vec![1.0, 1.0, 1.0, 1.0, 5.0, 6.0]);
    assert_eq!(r.cols, vec![0, 0, 0, 0, 0, 0]);
}

#[test]
fn empty_problem_builds_empty_matrix() {
    let ops: Vec<LinOp<f64>> = vec![];
    let r = build_matrix_internal(&ops, 1, &HashMap::new(), &HashMap::new(), &HashMap::new(), 3);
    assert_eq!(r.shape, (0, 1));
    assert!(r.data.is_empty());
}

#[test]
fn offsets_and_total_rows() {
    let ops = vec![variable(1, 2), variable(1, 3), dense(vec![1.0])];
    assert_eq!(row_offsets(&ops), vec![0, 2, 5]);
    assert_eq!(total_rows(&ops), 6);
}

#[test]
fn parameter_slices_go_to_columns() {
    // Parameter 7 with 2 slices starting at slice 0; 3 slices in all.
    let mut p_size = HashMap::new();
    p_size.insert(7, 2);
    let mut p_col = HashMap::new();
    p_col.insert(7, 0);
    let ops = vec![param(7, 2)];
    let r = build_matrix_internal(&ops, 3, &HashMap::new(), &p_size, &p_col, 1);
    // 2 rows x 2 columns: the parameter sits in the constant column 1.
    assert_eq!(r.shape, (4, 3));
    assert_eq!(r.rows, vec![2, 3]);
    assert_eq!(r.cols, vec![0, 1]);
}

#[test]
fn cached_rebuild_matches_fresh_build() {
    let mut p_size = HashMap::new();
    p_size.insert(7, 2);
    let mut p_col = HashMap::new();
    p_col.insert(7, 0);
    let make_ops = || vec![variable(1, 2), param(7, 2), sum(variable(1, 2), dense(vec![0.5, 0.0]))];
    let fresh = build_matrix_internal(&make_ops(), 3, &var_map(), &p_size, &p_col, 2);

    let mut graph = CachedLinOpGraph::new(make_ops(), var_map(), p_size.clone(), p_col.clone(), 2, 3);
    let first = graph.build();
    let second = graph.build();
    for r in [&first, &second] {
        assert_eq!(r.shape, fresh.shape);
        assert_eq!(r.rows, fresh.rows);
        assert_eq!(r.data, fresh.data);
        assert_eq!(r.cols, fresh.cols);
    }
}

#[test]
fn parallel_lowering_matches_sequential() {
    // Four constraints with 800 entries in all take the parallel path; the
    // cached graph lowers them one after another.
    let mut vars = HashMap::new();
    vars.insert(1, 0);
    vars.insert(2, 200);
    let make_ops = || {
        vec![
            variable(1, 200),
            sum(variable(2, 200), dense((0..200).map(|k| k as f64).collect())),
            variable(2, 200),
            variable(1, 200),
        ]
    };
    let parallel = build_matrix_internal(&make_ops(), 1, &vars, &HashMap::new(), &HashMap::new(), 400);
    let mut graph = CachedLinOpGraph::new(make_ops(), vars.clone(), HashMap::new(), HashMap::new(), 400, 1);
    let sequential = graph.build();
    assert_eq!(parallel.shape, (800 * 401, 1));
    assert_eq!(parallel.rows, sequential.rows);
    assert_eq!(parallel.data, sequential.data);
    assert_eq!(parallel.cols, sequential.cols);
    assert_eq!(parallel.data.len(), 999);
}
