use cvxpy_rust::linop::{AxisSpec, LinOp, LinOpData, LinOpError, OpType};
use cvxpy_rust::serialized::{deserialize_linops, DeserializationContext, PyValue};

type P = PyValue<f64>;

fn ints(v: &[i64]) -> P {
    PyValue::List(v.iter().map(|&i| PyValue::Int(i)).collect())
}

fn node(op: i64, shape: &[i64], num_args: i64, tag: i64, payload: P, has_data_linop: i64) -> Vec<P> {
    vec![
        PyValue::Int(op),
        ints(shape),
        PyValue::Int(num_args),
        PyValue::Int(tag),
        payload,
        PyValue::Int(has_data_linop),
    ]
}

fn read_one(nodes: &[Vec<P>], floats: &[f64], int_data: &[i64]) -> Result<LinOp<f64>, LinOpError> {
    let mut ctx = DeserializationContext::new(nodes, floats, int_data);
    ctx.read_linop()
}

#[test]
fn reads_variable_leaf() {
    let nodes = vec![node(0, &[3], 0, 1, PyValue::Int(7), 0)];
    let mut ctx = DeserializationContext::new(&nodes, &[], &[]);
    let op = ctx.read_linop().unwrap();
    assert_eq!(ctx.cursor, 1);
    assert_eq!(op.op_type, OpType::Variable);
    assert_eq!(op.shape, vec![3]);
    assert!(op.args.is_empty());
    assert!(matches!(op.data, LinOpData::Int(7)));
}

#[test]
fn reads_data_operand_before_arguments() {
    let nodes = vec![
        node(8, &[2], 1, 6, PyValue::NoneValue, 1),
        node(1, &[], 0, 2, PyValue::Float(2.5), 0),
        node(0, &[2], 0, 1, PyValue::Int(1), 0),
    ];
    let mut ctx = DeserializationContext::new(&nodes, &[], &[]);
    let op = ctx.read_linop().unwrap();
    assert_eq!(ctx.cursor, 3);
    assert_eq!(op.op_type, OpType::Mul);
    assert_eq!(op.args.len(), 1);
    assert_eq!(op.args[0].op_type, OpType::Variable);
    match &op.data {
        LinOpData::LinOpRef(inner) => {
            assert_eq!(inner.op_type, OpType::ScalarConst);
            assert!(matches!(inner.data, LinOpData::Float(x) if x == 2.5));
        },
        _ => panic!("expected a data operand"),
    }
}

#[test]
fn reads_dense_array_from_float_buffer() {
    let payload = PyValue::Tuple(vec![PyValue::Int(1), PyValue::Int(2), ints(&[2])]);
    let nodes = vec![node(2, &[2], 0, 3, payload, 0)];
    let op = read_one(&nodes, &[9.0, 1.0, 2.0], &[]).unwrap();
    match op.data {
        LinOpData::DenseArray { data, shape } => {
            assert_eq!(data, vec![1.0, 2.0]);
            assert_eq!(shape, vec![2]);
        },
        _ => panic!("expected a dense array"),
    }
}

#[test]
fn reads_sparse_array_from_both_buffers() {
    let fields = [0, 2, 0, 2, 2, 3, 2, 2];
    let payload = PyValue::Tuple(fields.iter().map(|&i| PyValue::Int(i)).collect());
    let nodes = vec![node(3, &[4], 0, 4, payload, 0)];
    let op = read_one(&nodes, &[1.0, 3.0], &[0, 1, 0, 1, 2]).unwrap();
    match op.data {
        LinOpData::SparseArray { data, indices, indptr, shape } => {
            assert_eq!(data, vec![1.0, 3.0]);
            assert_eq!(indices, vec![0, 1]);
            assert_eq!(indptr, vec![0, 1, 2]);
            assert_eq!(shape, (2, 2));
        },
        _ => panic!("expected a sparse array"),
    }
}

#[test]
fn reads_slices_axis_and_concat_data() {
    let slices = PyValue::List(vec![PyValue::Tuple(vec![PyValue::Int(1), PyValue::Int(4), PyValue::Int(1)])]);
    let op = read_one(&[node(12, &[3], 0, 5, slices, 0)], &[], &[]).unwrap();
    match op.data {
        LinOpData::Slices(s) => {
            assert_eq!(s.len(), 1);
            assert_eq!((s[0].start, s[0].stop, s[0].step), (1, 4, 1));
        },
        _ => panic!("expected slices"),
    }

    let axis = PyValue::Tuple(vec![PyValue::Int(0), PyValue::Bool(true)]);
    let op = read_one(&[node(19, &[1], 0, 7, axis, 0)], &[], &[]).unwrap();
    assert!(matches!(op.data, LinOpData::AxisData { axis: Some(AxisSpec::Single(0)), keepdims: true }));

    let axes = PyValue::Tuple(vec![ints(&[0, 1]), PyValue::Bool(false)]);
    let op = read_one(&[node(13, &[2, 2], 0, 7, axes, 0)], &[], &[]).unwrap();
    match op.data {
        LinOpData::AxisData { axis: Some(AxisSpec::Multiple(v)), keepdims: false } => assert_eq!(v, vec![0, 1]),
        _ => panic!("expected several axes"),
    }

    let no_axis = PyValue::Tuple(vec![PyValue::NoneValue, PyValue::Bool(false)]);
    let op = read_one(&[node(19, &[1], 0, 7, no_axis, 0)], &[], &[]).unwrap();
    assert!(matches!(op.data, LinOpData::AxisData { axis: None, keepdims: false }));

    let op = read_one(&[node(18, &[4], 0, 8, PyValue::NoneValue, 0)], &[], &[]).unwrap();
    assert!(matches!(op.data, LinOpData::ConcatAxis(None)));
    let op = read_one(&[node(18, &[4], 0, 8, PyValue::Int(1), 0)], &[], &[]).unwrap();
    assert!(matches!(op.data, LinOpData::ConcatAxis(Some(1))));
}

#[test]
fn integer_payload_reads_as_float_and_bool_as_int() {
    let op = read_one(&[node(1, &[], 0, 2, PyValue::Int(3), 0)], &[], &[]).unwrap();
    assert!(matches!(op.data, LinOpData::Float(x) if x == 3.0));
    let op = read_one(&[node(0, &[1], 0, 1, PyValue::Bool(true), 0)], &[], &[]).unwrap();
    assert!(matches!(op.data, LinOpData::Int(1)));
    // Tag 0 and tag 6 carry no data.
    let op = read_one(&[node(5, &[1], 0, 0, PyValue::Int(3), 0)], &[], &[]).unwrap();
    assert!(matches!(op.data, LinOpData::NoData));
}

#[test]
fn unknown_op_code_is_refused() {
    let err = read_one(&[node(30, &[1], 0, 0, PyValue::NoneValue, 0)], &[], &[]).unwrap_err();
    assert!(matches!(err, LinOpError::UnknownOpTypeInt(30)));
}

#[test]
fn unknown_data_tag_is_refused() {
    let err = read_one(&[node(0, &[1], 0, 9, PyValue::NoneValue, 0)], &[], &[]).unwrap_err();
    assert!(matches!(err, LinOpError::UnknownDataTag(9)));
}

#[test]
fn stream_ending_inside_a_tree_is_refused() {
    let err = read_one(&[node(6, &[1], 1, 0, PyValue::NoneValue, 0)], &[], &[]).unwrap_err();
    assert!(matches!(err, LinOpError::UnexpectedEndOfStream));
    let err = read_one(&[], &[], &[]).unwrap_err();
    assert!(matches!(err, LinOpError::UnexpectedEndOfStream));
}

#[test]
fn payload_outside_buffer_is_refused() {
    let payload = PyValue::Tuple(vec![PyValue::Int(2), PyValue::Int(2), ints(&[2])]);
    let err = read_one(&[node(2, &[2], 0, 3, payload, 0)], &[1.0, 2.0, 3.0], &[]).unwrap_err();
    assert!(matches!(err, LinOpError::BufferOutOfRange));
}

#[test]
fn missing_and_malformed_items_are_refused() {
    let mut short = node(0, &[1], 0, 1, PyValue::Int(0), 0);
    short.truncate(5);
    assert!(matches!(read_one(&[short], &[], &[]).unwrap_err(), LinOpError::MissingItem));

    let mut bad_shape = node(0, &[1], 0, 1, PyValue::Int(0), 0);
    bad_shape[1] = PyValue::Int(3);
    assert!(matches!(read_one(&[bad_shape], &[], &[]).unwrap_err(), LinOpError::BadValue));

    let negative_dim = node(0, &[-1], 0, 1, PyValue::Int(0), 0);
    assert!(matches!(read_one(&[negative_dim], &[], &[]).unwrap_err(), LinOpError::BadValue));

    let float_id = node(0, &[1], 0, 1, PyValue::Float(1.0), 0);
    assert!(matches!(read_one(&[float_id], &[], &[]).unwrap_err(), LinOpError::BadValue));

    let list_payload = PyValue::List(vec![PyValue::Int(0), PyValue::Int(1), ints(&[1])]);
    let dense_from_list = node(2, &[1], 0, 3, list_payload, 0);
    assert!(matches!(read_one(&[dense_from_list], &[0.0], &[]).unwrap_err(), LinOpError::BadValue));

    let short_payload = PyValue::Tuple(vec![PyValue::Int(0), PyValue::Int(1)]);
    let dense_short = node(2, &[1], 0, 3, short_payload, 0);
    assert!(matches!(read_one(&[dense_short], &[0.0], &[]).unwrap_err(), LinOpError::MissingItem));
}

#[test]
fn deserialize_reads_every_tree() {
    let nodes = vec![
        node(0, &[2], 0, 1, PyValue::Int(1), 0),
        node(6, &[2], 1, 0, PyValue::NoneValue, 0),
        node(0, &[2], 0, 1, PyValue::Int(2), 0),
    ];
    let ops = deserialize_linops(&nodes, &[], &[]).unwrap();
    assert_eq!(ops.len(), 2);
    assert_eq!(ops[0].op_type, OpType::Variable);
    assert_eq!(ops[1].op_type, OpType::Neg);
    assert_eq!(ops[1].args.len(), 1);
    assert!(matches!(ops[1].args[0].data, LinOpData::Int(2)));

    let empty = deserialize_linops::<f64>(&[], &[], &[]).unwrap();
    assert!(empty.is_empty());

    let broken = vec![node(0, &[2], 0, 1, PyValue::Int(1), 0), node(40, &[2], 0, 0, PyValue::NoneValue, 0)];
    assert!(matches!(deserialize_linops(&broken, &[], &[]).unwrap_err(), LinOpError::UnknownOpTypeInt(40)));
}
