//! Reading LinOp trees from the flat node stream that the Python side
//! produces.
//!
//! The trees are written in pre-order: each node is a tuple
//! `(op_type, shape, num_args, data_tag, payload, has_data_linop)`, followed
//! by the node of its data operand (when `has_data_linop == 1`) and then by
//! its arguments.  Array data lives in two flat buffers (floats and ints)
//! that payloads address by offset and length.
//!
//! A node's items arrive as [`PyValue`]s, the Python values they hold; the
//! conversions below accept what the corresponding Python extraction
//! accepts (`bool` is an `int`, an `int` is a `float`, a list or a tuple is a
//! sequence).  [`decode_tree`] states what reading a tree yields, as a
//! [`LinOpModel`], or which error stops it.
use vstd::prelude::*;
use crate::linop::{AxisSpec, LinOp, LinOpData, LinOpError, OpType, SliceData, op_index};
use crate::scalar::{exact, from_int, from_int_spec, ops_total, Scalar};

verus! {

/// A Python value as it appears in the serialized node stream.
#[derive(Debug)]
pub enum PyValue<V> {
    NoneValue,
    Bool(bool),
    Int(i64),
    Float(V),
    Tuple(Vec<PyValue<V>>),
    List(Vec<PyValue<V>>),
    /// Any other object (a string, a dict, an integer beyond `i64`, ...).
    Other,
}

/// The integer a value holds (`True` and `False` are `1` and `0`).
pub open spec fn int_value<V>(v: PyValue<V>) -> Option<i64> {
    match v {
        PyValue::Int(i) => Some(i),
        PyValue::Bool(b) => Some(if b { 1i64 } else { 0i64 }),
        _ => None,
    }
}

/// The value as a `u8`, when it is an integer in `0..=255`.
pub open spec fn u8_value<V>(v: PyValue<V>) -> Option<u8> {
    match int_value(v) {
        Some(i) => if 0 <= i <= 255 { Some(i as u8) } else { None },
        None => None,
    }
}

/// The value as a `usize`, when it is a non-negative integer that fits.
pub open spec fn usize_value<V>(v: PyValue<V>) -> Option<usize> {
    match int_value(v) {
        Some(i) => if 0 <= i <= usize::MAX { Some(i as usize) } else { None },
        None => None,
    }
}

/// The value as a `bool`, when it is one.
pub open spec fn bool_value<V>(v: PyValue<V>) -> Option<bool> {
    match v {
        PyValue::Bool(b) => Some(b),
        _ => None,
    }
}

/// The value as a coefficient: a float, or an integer converted.
pub open spec fn float_value<V: Scalar>(v: PyValue<V>) -> Option<V> {
    match v {
        PyValue::Float(x) => Some(x),
        _ => match int_value(v) {
            Some(i) => Some(from_int_spec::<V>(i)),
            None => None,
        },
    }
}

/// The items of a list or a tuple.
pub open spec fn seq_items<V>(v: PyValue<V>) -> Option<Seq<PyValue<V>>> {
    match v {
        PyValue::Tuple(t) => Some(t@),
        PyValue::List(t) => Some(t@),
        _ => None,
    }
}

/// The items of a tuple.
pub open spec fn tuple_items<V>(v: PyValue<V>) -> Option<Seq<PyValue<V>>> {
    match v {
        PyValue::Tuple(t) => Some(t@),
        _ => None,
    }
}

/// A list or tuple of `usize` values.
pub open spec fn usize_seq_value<V>(v: PyValue<V>) -> Option<Seq<usize>> {
    match seq_items(v) {
        Some(s) => if forall|i: int| 0 <= i < s.len() ==> #[trigger] usize_value(s[i]) is Some {
            Some(Seq::new(s.len(), |i: int| usize_value(s[i])->0))
        } else {
            None
        },
        None => None,
    }
}

/// A list or tuple of integers.
pub open spec fn i64_seq_value<V>(v: PyValue<V>) -> Option<Seq<i64>> {
    match seq_items(v) {
        Some(s) => if forall|i: int| 0 <= i < s.len() ==> #[trigger] int_value(s[i]) is Some {
            Some(Seq::new(s.len(), |i: int| int_value(s[i])->0))
        } else {
            None
        },
        None => None,
    }
}

/// A `(start, stop, step)` tuple of three integers.
pub open spec fn slice_value<V>(v: PyValue<V>) -> Option<SliceData> {
    match tuple_items(v) {
        Some(t) => if t.len() == 3 && int_value(t[0]) is Some && int_value(t[1]) is Some
            && int_value(t[2]) is Some {
            Some(SliceData { start: int_value(t[0])->0, stop: int_value(t[1])->0, step: int_value(t[2])->0 })
        } else {
            None
        },
        None => None,
    }
}

/// A list or tuple of slice tuples.
pub open spec fn slices_value<V>(v: PyValue<V>) -> Option<Seq<SliceData>> {
    match seq_items(v) {
        Some(s) => if forall|i: int| 0 <= i < s.len() ==> #[trigger] slice_value(s[i]) is Some {
            Some(Seq::new(s.len(), |i: int| slice_value(s[i])->0))
        } else {
            None
        },
        None => None,
    }
}

/// An axis specification.
pub enum AxisModel {
    Single(i64),
    Multiple(Seq<i64>),
}

/// The axis a value names: `None` stays absent, an integer is one axis, a
/// sequence of integers several; anything else counts as absent.
pub open spec fn axis_value<V>(v: PyValue<V>) -> Option<AxisModel> {
    if v is NoneValue {
        None
    } else {
        match int_value(v) {
            Some(i) => Some(AxisModel::Single(i)),
            None => match i64_seq_value(v) {
                Some(s) => Some(AxisModel::Multiple(s)),
                None => None,
            },
        }
    }
}

/// Item `k` of a tuple as a `usize`.
pub open spec fn field_usize<V>(t: Seq<PyValue<V>>, k: int) -> Result<usize, LinOpError> {
    if k >= t.len() {
        Err(LinOpError::MissingItem)
    } else {
        match usize_value(t[k]) {
            Some(x) => Ok(x),
            None => Err(LinOpError::BadValue),
        }
    }
}

/// Items `0..n` of a tuple as `usize`s, or the error of the first that
/// fails.
pub open spec fn fields_usize<V>(t: Seq<PyValue<V>>, n: nat) -> Result<Seq<usize>, LinOpError>
    decreases n,
{
    if n == 0 {
        Ok(seq![])
    } else {
        match fields_usize(t, (n - 1) as nat) {
            Err(e) => Err(e),
            Ok(s) => match field_usize(t, n - 1) {
                Ok(x) => Ok(s.push(x)),
                Err(e) => Err(e),
            },
        }
    }
}

/// Once a prefix of fields fails, every longer prefix fails the same way.
proof fn lemma_fields_err<V>(t: Seq<PyValue<V>>, k: nat, n: nat)
    requires
        k <= n,
        fields_usize(t, k) is Err,
    ensures
        fields_usize(t, n) == fields_usize(t, k),
    decreases n - k,
{
    if k < n {
        lemma_fields_err(t, k, (n - 1) as nat);
    }
}

fn extract_int<V>(v: &PyValue<V>) -> (r: Option<i64>)
    ensures
        r == int_value(*v),
{
    match v {
        PyValue::Int(i) => Some(*i),
        PyValue::Bool(b) => Some(if *b { 1i64 } else { 0i64 }),
        _ => None,
    }
}

fn extract_u8<V>(v: &PyValue<V>) -> (r: Option<u8>)
    ensures
        r == u8_value(*v),
{
    match extract_int(v) {
        Some(i) => if 0 <= i && i <= 255 { Some(i as u8) } else { None },
        None => None,
    }
}

fn extract_usize<V>(v: &PyValue<V>) -> (r: Option<usize>)
    ensures
        r == usize_value(*v),
{
    match extract_int(v) {
        Some(i) => if 0 <= i && (i as u64) <= (usize::MAX as u64) {
            Some(i as usize)
        } else {
            None
        },
        None => None,
    }
}

fn extract_bool<V>(v: &PyValue<V>) -> (r: Option<bool>)
    ensures
        r == bool_value(*v),
{
    match v {
        PyValue::Bool(b) => Some(*b),
        _ => None,
    }
}

fn extract_float<V: Scalar>(v: &PyValue<V>) -> (r: Option<V>)
    requires
        ops_total::<V>(),
    ensures
        r is Some <==> float_value(*v) is Some,
        r is Some && (v is Float || exact::<V>()) ==> r->0 == float_value(*v)->0,
{
    match v {
        PyValue::Float(x) => Some(*x),
        _ => match extract_int(v) {
            Some(i) => Some(from_int(i)),
            None => None,
        },
    }
}

fn sequence_items<V>(v: &PyValue<V>) -> (r: Option<&Vec<PyValue<V>>>)
    ensures
        match r {
            Some(t) => seq_items(*v) == Some(t@),
            None => seq_items(*v) is None,
        },
{
    match v {
        PyValue::Tuple(t) => Some(t),
        PyValue::List(t) => Some(t),
        _ => None,
    }
}

fn extract_usize_seq<V>(v: &PyValue<V>) -> (r: Option<Vec<usize>>)
    ensures
        match r {
            Some(x) => usize_seq_value(*v) == Some(x@),
            None => usize_seq_value(*v) is None,
        },
{
    let items = match sequence_items(v) {
        Some(t) => t,
        None => return None,
    };
    let n = items.len();
    let mut out: Vec<usize> = Vec::with_capacity(n);
    let mut i: usize = 0;
    while i < n
        invariant
            i <= n,
            n == items@.len(),
            seq_items(*v) == Some(items@),
            out@.len() == i,
            forall|j: int| 0 <= j < i ==> #[trigger] usize_value(items@[j]) == Some(out@[j]),
        decreases n - i,
    {
        match extract_usize(&items[i]) {
            Some(x) => out.push(x),
            None => return None,
        }
        i = i + 1;
    }
    assert(out@ =~= Seq::new(items@.len(), |j: int| usize_value(items@[j])->0));
    Some(out)
}

fn extract_i64_seq<V>(v: &PyValue<V>) -> (r: Option<Vec<i64>>)
    ensures
        match r {
            Some(x) => i64_seq_value(*v) == Some(x@),
            None => i64_seq_value(*v) is None,
        },
{
    let items = match sequence_items(v) {
        Some(t) => t,
        None => return None,
    };
    let n = items.len();
    let mut out: Vec<i64> = Vec::with_capacity(n);
    let mut i: usize = 0;
    while i < n
        invariant
            i <= n,
            n == items@.len(),
            seq_items(*v) == Some(items@),
            out@.len() == i,
            forall|j: int| 0 <= j < i ==> #[trigger] int_value(items@[j]) == Some(out@[j]),
        decreases n - i,
    {
        match extract_int(&items[i]) {
            Some(x) => out.push(x),
            None => return None,
        }
        i = i + 1;
    }
    assert(out@ =~= Seq::new(items@.len(), |j: int| int_value(items@[j])->0));
    Some(out)
}

fn extract_slice<V>(v: &PyValue<V>) -> (r: Option<SliceData>)
    ensures
        r == slice_value(*v),
{
    match v {
        PyValue::Tuple(t) => {
            if t.len() != 3 {
                return None;
            }
            match (extract_int(&t[0]), extract_int(&t[1]), extract_int(&t[2])) {
                (Some(start), Some(stop), Some(step)) => Some(SliceData { start, stop, step }),
                _ => None,
            }
        },
        _ => None,
    }
}

fn extract_slices<V>(v: &PyValue<V>) -> (r: Option<Vec<SliceData>>)
    ensures
        match r {
            Some(x) => slices_value(*v) == Some(x@),
            None => slices_value(*v) is None,
        },
{
    let items = match sequence_items(v) {
        Some(t) => t,
        None => return None,
    };
    let n = items.len();
    let mut out: Vec<SliceData> = Vec::with_capacity(n);
    let mut i: usize = 0;
    while i < n
        invariant
            i <= n,
            n == items@.len(),
            seq_items(*v) == Some(items@),
            out@.len() == i,
            forall|j: int| 0 <= j < i ==> #[trigger] slice_value(items@[j]) == Some(out@[j]),
        decreases n - i,
    {
        match extract_slice(&items[i]) {
            Some(x) => out.push(x),
            None => return None,
        }
        i = i + 1;
    }
    assert(out@ =~= Seq::new(items@.len(), |j: int| slice_value(items@[j])->0));
    Some(out)
}

/// The specification of an `AxisSpec`.
pub open spec fn axis_spec_model(a: Option<AxisSpec>) -> Option<AxisModel> {
    match a {
        Some(AxisSpec::Single(i)) => Some(AxisModel::Single(i)),
        Some(AxisSpec::Multiple(v)) => Some(AxisModel::Multiple(v@)),
        None => None,
    }
}

fn extract_axis<V>(v: &PyValue<V>) -> (r: Option<AxisSpec>)
    ensures
        axis_spec_model(r) == axis_value(*v),
{
    if let PyValue::NoneValue = v {
        return None;
    }
    match extract_int(v) {
        Some(i) => Some(AxisSpec::Single(i)),
        None => match extract_i64_seq(v) {
            Some(s) => Some(AxisSpec::Multiple(s)),
            None => None,
        },
    }
}

fn read_usize_fields<V>(t: &Vec<PyValue<V>>, n: usize) -> (r: Result<Vec<usize>, LinOpError>)
    ensures
        match fields_usize(t@, n as nat) {
            Ok(s) => r matches Ok(x) && x@ == s,
            Err(e) => r == Err::<Vec<usize>, LinOpError>(e),
        },
        r matches Ok(x) ==> x@.len() == n,
{
    let mut out: Vec<usize> = Vec::with_capacity(n);
    let mut k: usize = 0;
    while k < n
        invariant
            k <= n,
            out@.len() == k,
            fields_usize(t@, k as nat) == Ok::<Seq<usize>, LinOpError>(out@),
        decreases n - k,
    {
        if k >= t.len() {
            proof {
                lemma_fields_err(t@, (k + 1) as nat, n as nat);
            }
            return Err(LinOpError::MissingItem);
        }
        match extract_usize(&t[k]) {
            Some(x) => {
                out.push(x);
            },
            None => {
                proof {
                    lemma_fields_err(t@, (k + 1) as nat, n as nat);
                }
                return Err(LinOpError::BadValue);
            },
        }
        k = k + 1;
    }
    Ok(out)
}

/// A copy of `src[off..off + len]`.
fn copy_range<T: Copy>(src: &[T], off: usize, len: usize) -> (r: Vec<T>)
    requires
        off + len <= src@.len(),
    ensures
        r@ == src@.subrange(off as int, off + len),
{
    let n = src.len();
    let mut r: Vec<T> = Vec::with_capacity(len);
    let mut i: usize = 0;
    while i < len
        invariant
            i <= len,
            n == src@.len(),
            off + len <= src@.len(),
            r@ == src@.subrange(off as int, off + i),
        decreases len - i,
    {
        r.push(src[off + i]);
        i = i + 1;
    }
    r
}

/// A node's data operand, with sequences in place of vectors.
#[allow(inconsistent_fields)]
pub enum DataModel<V> {
    NoData,
    Int(i64),
    Float(V),
    DenseArray { data: Seq<V>, shape: Seq<usize> },
    SparseArray { data: Seq<V>, indices: Seq<i64>, indptr: Seq<i64>, shape: (usize, usize) },
    Slices(Seq<SliceData>),
    LinOpRef(Box<LinOpModel<V>>),
    AxisData { axis: Option<AxisModel>, keepdims: bool },
    ConcatAxis(Option<i64>),
}

/// A LinOp tree as the stream describes it: the operation's code, the
/// shape, the arguments and the data operand.
pub struct LinOpModel<V> {
    pub op_code: int,
    pub shape: Seq<usize>,
    pub args: Seq<LinOpModel<V>>,
    pub data: DataModel<V>,
}

/// `d` holds what `m` describes (a coefficient converted from an integer
/// only when `V`'s conversions are exact).
pub open spec fn data_models<V: Scalar>(d: LinOpData<V>, m: DataModel<V>) -> bool
    decreases d,
{
    match d {
        LinOpData::NoData => m is NoData,
        LinOpData::Int(i) => m == DataModel::<V>::Int(i),
        LinOpData::Float(x) => m matches DataModel::Float(y) && (exact::<V>() ==> x == y),
        LinOpData::DenseArray { data, shape } => m matches DataModel::DenseArray { data: md, shape: ms }
            && data@ == md && shape@ == ms,
        LinOpData::SparseArray { data, indices, indptr, shape } => m matches DataModel::SparseArray {
            data: md,
            indices: mi,
            indptr: mp,
            shape: msh,
        } && data@ == md && indices@ == mi && indptr@ == mp && shape == msh,
        LinOpData::Slices(v) => m matches DataModel::Slices(ms) && v@ == ms,
        LinOpData::LinOpRef(b) => m matches DataModel::LinOpRef(mb) && models(*b, *mb),
        LinOpData::AxisData { axis, keepdims } => m matches DataModel::AxisData { axis: ma, keepdims: mk }
            && axis_spec_model(axis) == ma && keepdims == mk,
        LinOpData::ConcatAxis(a) => m == DataModel::<V>::ConcatAxis(a),
    }
}

/// The tree `op` is the one `m` describes.
pub open spec fn models<V: Scalar>(op: LinOp<V>, m: LinOpModel<V>) -> bool
    decreases op,
{
    &&& op_index(op.op_type) == m.op_code
    &&& op.shape@ == m.shape
    &&& op.args@.len() == m.args.len()
    &&& forall|i: int| 0 <= i < op.args@.len() ==> models(#[trigger] op.args@[i], m.args[i])
    &&& data_models(op.data, m.data)
}

/// The six items of a node tuple.
pub struct NodeHeader<V> {
    pub op_code: u8,
    pub shape: Seq<usize>,
    pub num_args: usize,
    pub data_tag: u8,
    pub payload: PyValue<V>,
    pub has_data_linop: u8,
}

/// Reading a node tuple's items in order: the operation code (which must
/// name an operation), the shape, the argument count, the data tag, the
/// payload and the data-operand flag.
pub open spec fn header_of<V>(node: Seq<PyValue<V>>) -> Result<NodeHeader<V>, LinOpError> {
    if node.len() < 1 {
        Err(LinOpError::MissingItem)
    } else {
        match u8_value(node[0]) {
            None => Err(LinOpError::BadValue),
            Some(code) => if code > 27 {
                Err(LinOpError::UnknownOpTypeInt(code))
            } else if node.len() < 2 {
                Err(LinOpError::MissingItem)
            } else {
                match usize_seq_value(node[1]) {
                    None => Err(LinOpError::BadValue),
                    Some(shape) => if node.len() < 3 {
                        Err(LinOpError::MissingItem)
                    } else {
                        match usize_value(node[2]) {
                            None => Err(LinOpError::BadValue),
                            Some(num_args) => if node.len() < 4 {
                                Err(LinOpError::MissingItem)
                            } else {
                                match u8_value(node[3]) {
                                    None => Err(LinOpError::BadValue),
                                    Some(data_tag) => if node.len() < 6 {
                                        Err(LinOpError::MissingItem)
                                    } else {
                                        match u8_value(node[5]) {
                                            None => Err(LinOpError::BadValue),
                                            Some(has_data_linop) => Ok(
                                                NodeHeader {
                                                    op_code: code,
                                                    shape,
                                                    num_args,
                                                    data_tag,
                                                    payload: node[4],
                                                    has_data_linop,
                                                },
                                            ),
                                        }
                                    },
                                }
                            },
                        }
                    },
                }
            },
        }
    }
}

/// The data a payload describes, by data tag: nothing (`0`, and `6`, the
/// placeholder of a data operand), an integer (`1`), a coefficient (`2`), a
/// dense array `(offset, len, shape)` (`3`) and a CSC matrix
/// `(data offset, data len, indices offset, indices len, indptr offset,
/// indptr len, rows, cols)` (`4`) read from the buffers, slices (`5`), axis
/// data `(axis, keepdims)` (`7`) and a concatenation axis (`8`).
pub open spec fn data_of<V: Scalar>(
    tag: u8,
    payload: PyValue<V>,
    fb: Seq<V>,
    ib: Seq<i64>,
) -> Result<DataModel<V>, LinOpError> {
    if tag == 0 || tag == 6 {
        Ok(DataModel::NoData)
    } else if tag == 1 {
        match int_value(payload) {
            Some(i) => Ok(DataModel::Int(i)),
            None => Err(LinOpError::BadValue),
        }
    } else if tag == 2 {
        match float_value(payload) {
            Some(x) => Ok(DataModel::Float(x)),
            None => Err(LinOpError::BadValue),
        }
    } else if tag == 3 {
        match tuple_items(payload) {
            None => Err(LinOpError::BadValue),
            Some(t) => match fields_usize(t, 2) {
                Err(e) => Err(e),
                Ok(f) => if t.len() < 3 {
                    Err(LinOpError::MissingItem)
                } else {
                    match usize_seq_value(t[2]) {
                        None => Err(LinOpError::BadValue),
                        Some(shape) => if f[0] + f[1] <= fb.len() {
                            Ok(DataModel::DenseArray { data: fb.subrange(f[0] as int, f[0] + f[1]), shape })
                        } else {
                            Err(LinOpError::BufferOutOfRange)
                        },
                    }
                },
            },
        }
    } else if tag == 4 {
        match tuple_items(payload) {
            None => Err(LinOpError::BadValue),
            Some(t) => match fields_usize(t, 8) {
                Err(e) => Err(e),
                Ok(f) => if f[0] + f[1] <= fb.len() && f[2] + f[3] <= ib.len() && f[4] + f[5] <= ib.len() {
                    Ok(
                        DataModel::SparseArray {
                            data: fb.subrange(f[0] as int, f[0] + f[1]),
                            indices: ib.subrange(f[2] as int, f[2] + f[3]),
                            indptr: ib.subrange(f[4] as int, f[4] + f[5]),
                            shape: (f[6], f[7]),
                        },
                    )
                } else {
                    Err(LinOpError::BufferOutOfRange)
                },
            },
        }
    } else if tag == 5 {
        match slices_value(payload) {
            Some(sl) => Ok(DataModel::Slices(sl)),
            None => Err(LinOpError::BadValue),
        }
    } else if tag == 7 {
        match tuple_items(payload) {
            None => Err(LinOpError::BadValue),
            Some(t) => if t.len() < 2 {
                Err(LinOpError::MissingItem)
            } else {
                match bool_value(t[1]) {
                    None => Err(LinOpError::BadValue),
                    Some(k) => Ok(DataModel::AxisData { axis: axis_value(t[0]), keepdims: k }),
                }
            },
        }
    } else if tag == 8 {
        if payload is NoneValue {
            Ok(DataModel::ConcatAxis(None))
        } else {
            match int_value(payload) {
                Some(i) => Ok(DataModel::ConcatAxis(Some(i))),
                None => Err(LinOpError::BadValue),
            }
        }
    } else {
        Err(LinOpError::UnknownDataTag(tag))
    }
}

/// Nodes left to read from position `c`.
pub open spec fn remaining(n: int, c: int) -> nat {
    if c < n {
        (n - c) as nat
    } else {
        0
    }
}

/// Reading one tree from position `c`: its model and the position after
/// it, or the first error met.  (Every tree read consumes at least its own
/// node, so the `end <= c` branches are never taken.)
pub open spec fn decode_tree<V: Scalar>(
    nodes: Seq<Vec<PyValue<V>>>,
    fb: Seq<V>,
    ib: Seq<i64>,
    c: int,
) -> Result<(LinOpModel<V>, int), LinOpError>
    decreases remaining(nodes.len() as int, c), 1nat, 0nat,
{
    if c < 0 || c >= nodes.len() {
        Err(LinOpError::UnexpectedEndOfStream)
    } else {
        match header_of(nodes[c]@) {
            Err(e) => Err(e),
            Ok(h) => match data_of(h.data_tag, h.payload, fb, ib) {
                Err(e) => Err(e),
                Ok(d) => {
                    let data_part: Result<(DataModel<V>, int), LinOpError> = if h.has_data_linop == 1 {
                        match decode_tree(nodes, fb, ib, c + 1) {
                            Err(e) => Err(e),
                            Ok((dm, c2)) => Ok((DataModel::LinOpRef(Box::new(dm)), c2)),
                        }
                    } else {
                        Ok((d, c + 1))
                    };
                    match data_part {
                        Err(e) => Err(e),
                        Ok((data, c2)) => if c2 <= c {
                            Err(LinOpError::UnexpectedEndOfStream)
                        } else {
                            match decode_args(nodes, fb, ib, c2, h.num_args as nat) {
                                Err(e) => Err(e),
                                Ok((args, c3)) => Ok(
                                    (LinOpModel { op_code: h.op_code as int, shape: h.shape, args, data }, c3),
                                ),
                            }
                        },
                    }
                },
            },
        }
    }
}

/// Reading `k` trees one after another from position `c`.
pub open spec fn decode_args<V: Scalar>(
    nodes: Seq<Vec<PyValue<V>>>,
    fb: Seq<V>,
    ib: Seq<i64>,
    c: int,
    k: nat,
) -> Result<(Seq<LinOpModel<V>>, int), LinOpError>
    decreases remaining(nodes.len() as int, c), 2nat, k,
{
    if k == 0 {
        Ok((seq![], c))
    } else {
        match decode_tree(nodes, fb, ib, c) {
            Err(e) => Err(e),
            Ok((m, c2)) => if c2 <= c {
                Err(LinOpError::UnexpectedEndOfStream)
            } else {
                match decode_args(nodes, fb, ib, c2, (k - 1) as nat) {
                    Err(e) => Err(e),
                    Ok((rest, c3)) => Ok((seq![m] + rest, c3)),
                }
            },
        }
    }
}

/// Reading trees from position `c` until the stream ends.
pub open spec fn decode_stream<V: Scalar>(
    nodes: Seq<Vec<PyValue<V>>>,
    fb: Seq<V>,
    ib: Seq<i64>,
    c: int,
) -> Result<Seq<LinOpModel<V>>, LinOpError>
    decreases remaining(nodes.len() as int, c),
{
    if c < 0 || c >= nodes.len() {
        Ok(seq![])
    } else {
        match decode_tree(nodes, fb, ib, c) {
            Err(e) => Err(e),
            Ok((m, c2)) => if c2 <= c {
                Err(LinOpError::UnexpectedEndOfStream)
            } else {
                match decode_stream(nodes, fb, ib, c2) {
                    Err(e) => Err(e),
                    Ok(rest) => Ok(seq![m] + rest),
                }
            },
        }
    }
}

/// The items of a node tuple, read in order (see [`header_of`]).
fn read_header<'b, V>(node: &'b Vec<PyValue<V>>) -> (r: Result<
    (OpType, Vec<usize>, usize, u8, &'b PyValue<V>, u8),
    LinOpError,
>)
    ensures
        match header_of(node@) {
            Ok(h) => r matches Ok((op, shape, num_args, data_tag, payload, has_data_linop)) && op_index(op)
                == h.op_code && shape@ == h.shape && num_args == h.num_args && data_tag == h.data_tag
                && *payload == h.payload && has_data_linop == h.has_data_linop,
            Err(e) => r matches Err(e2) && e2 == e,
        },
{
    if node.len() < 1 {
        return Err(LinOpError::MissingItem);
    }
    let code = match extract_u8(&node[0]) {
        Some(c) => c,
        None => return Err(LinOpError::BadValue),
    };
    let op_type = match OpType::from_int(code) {
        Ok(op) => op,
        Err(e) => return Err(e),
    };
    if node.len() < 2 {
        return Err(LinOpError::MissingItem);
    }
    let shape = match extract_usize_seq(&node[1]) {
        Some(s) => s,
        None => return Err(LinOpError::BadValue),
    };
    if node.len() < 3 {
        return Err(LinOpError::MissingItem);
    }
    let num_args = match extract_usize(&node[2]) {
        Some(n) => n,
        None => return Err(LinOpError::BadValue),
    };
    if node.len() < 4 {
        return Err(LinOpError::MissingItem);
    }
    let data_tag = match extract_u8(&node[3]) {
        Some(t) => t,
        None => return Err(LinOpError::BadValue),
    };
    if node.len() < 6 {
        return Err(LinOpError::MissingItem);
    }
    let has_data_linop = match extract_u8(&node[5]) {
        Some(h) => h,
        None => return Err(LinOpError::BadValue),
    };
    Ok((op_type, shape, num_args, data_tag, &node[4], has_data_linop))
}

/// Results of reading further trees after the models `ms`.
spec fn after<V>(ms: Seq<LinOpModel<V>>, r: Result<(Seq<LinOpModel<V>>, int), LinOpError>) -> Result<
    (Seq<LinOpModel<V>>, int),
    LinOpError,
> {
    match r {
        Ok((rest, e)) => Ok((ms + rest, e)),
        Err(err) => Err(err),
    }
}

/// Reads LinOp trees from a pre-order node stream and its two data buffers.
pub struct DeserializationContext<'a, V> {
    nodes: &'a [Vec<PyValue<V>>],
    float_data: &'a [V],
    int_data: &'a [i64],
    pub cursor: usize,
}

impl<'a, V: Scalar> DeserializationContext<'a, V> {
    /// The node stream.
    pub closed spec fn node_stream(&self) -> Seq<Vec<PyValue<V>>> {
        self.nodes@
    }

    /// The float buffer.
    pub closed spec fn floats(&self) -> Seq<V> {
        self.float_data@
    }

    /// The int buffer.
    pub closed spec fn ints(&self) -> Seq<i64> {
        self.int_data@
    }

    /// The position of the next node to read.
    pub closed spec fn position(&self) -> int {
        self.cursor as int
    }

    /// A reader positioned at the start of the stream.
    pub fn new(nodes: &'a [Vec<PyValue<V>>], float_data: &'a [V], int_data: &'a [i64]) -> (ctx: Self)
        ensures
            ctx.node_stream() == nodes@,
            ctx.floats() == float_data@,
            ctx.ints() == int_data@,
            ctx.position() == 0,
    {
        DeserializationContext { nodes, float_data, int_data, cursor: 0 }
    }

    /// The data that `payload` describes under `data_tag` (see [`data_of`]).
    fn extract_data(&self, data_tag: u8, payload: &PyValue<V>) -> (r: Result<LinOpData<V>, LinOpError>)
        requires
            ops_total::<V>(),
        ensures
            match data_of(data_tag, *payload, self.floats(), self.ints()) {
                Ok(dm) => r matches Ok(d) && data_models(d, dm),
                Err(e) => r matches Err(e2) && e2 == e,
            },
    {
        if data_tag == 0 || data_tag == 6 {
            Ok(LinOpData::NoData)
        } else if data_tag == 1 {
            match extract_int(payload) {
                Some(i) => Ok(LinOpData::Int(i)),
                None => Err(LinOpError::BadValue),
            }
        } else if data_tag == 2 {
            match extract_float(payload) {
                Some(x) => Ok(LinOpData::Float(x)),
                None => Err(LinOpError::BadValue),
            }
        } else if data_tag == 3 {
            let t = match payload {
                PyValue::Tuple(t) => t,
                _ => return Err(LinOpError::BadValue),
            };
            let f = match read_usize_fields(t, 2) {
                Ok(f) => f,
                Err(e) => return Err(e),
            };
            if t.len() < 3 {
                return Err(LinOpError::MissingItem);
            }
            let shape = match extract_usize_seq(&t[2]) {
                Some(s) => s,
                None => return Err(LinOpError::BadValue),
            };
            let fl = self.float_data.len();
            if f[0] <= fl && f[1] <= fl - f[0] {
                let data = copy_range(self.float_data, f[0], f[1]);
                Ok(LinOpData::DenseArray { data, shape })
            } else {
                Err(LinOpError::BufferOutOfRange)
            }
        } else if data_tag == 4 {
            let t = match payload {
                PyValue::Tuple(t) => t,
                _ => return Err(LinOpError::BadValue),
            };
            let f = match read_usize_fields(t, 8) {
                Ok(f) => f,
                Err(e) => return Err(e),
            };
            let fl = self.float_data.len();
            let il = self.int_data.len();
            if f[0] <= fl && f[1] <= fl - f[0] && f[2] <= il && f[3] <= il - f[2] && f[4] <= il && f[5]
                <= il - f[4] {
                let data = copy_range(self.float_data, f[0], f[1]);
                let indices = copy_range(self.int_data, f[2], f[3]);
                let indptr = copy_range(self.int_data, f[4], f[5]);
                Ok(LinOpData::SparseArray { data, indices, indptr, shape: (f[6], f[7]) })
            } else {
                Err(LinOpError::BufferOutOfRange)
            }
        } else if data_tag == 5 {
            match extract_slices(payload) {
                Some(sl) => Ok(LinOpData::Slices(sl)),
                None => Err(LinOpError::BadValue),
            }
        } else if data_tag == 7 {
            let t = match payload {
                PyValue::Tuple(t) => t,
                _ => return Err(LinOpError::BadValue),
            };
            if t.len() < 2 {
                return Err(LinOpError::MissingItem);
            }
            let keepdims = match extract_bool(&t[1]) {
                Some(k) => k,
                None => return Err(LinOpError::BadValue),
            };
            let axis = extract_axis(&t[0]);
            Ok(LinOpData::AxisData { axis, keepdims })
        } else if data_tag == 8 {
            if let PyValue::NoneValue = payload {
                Ok(LinOpData::ConcatAxis(None))
            } else {
                match extract_int(payload) {
                    Some(i) => Ok(LinOpData::ConcatAxis(Some(i))),
                    None => Err(LinOpError::BadValue),
                }
            }
        } else {
            Err(LinOpError::UnknownDataTag(data_tag))
        }
    }

    /// Read the next LinOp from the stream (recursive, pre-order): the
    /// node, then its data operand when it has one, then its arguments.
    pub fn read_linop(&mut self) -> (r: Result<LinOp<V>, LinOpError>)
        requires
            ops_total::<V>(),
        ensures
            final(self).node_stream() == old(self).node_stream(),
            final(self).floats() == old(self).floats(),
            final(self).ints() == old(self).ints(),
            match decode_tree(
                old(self).node_stream(),
                old(self).floats(),
                old(self).ints(),
                old(self).position(),
            ) {
                Ok((m, e)) => r matches Ok(op) && models(op, m) && final(self).position() == e,
                Err(err) => r matches Err(e2) && e2 == err,
            },
            r is Ok ==> final(self).position() > old(self).position(),
            r is Ok ==> final(self).position() <= final(self).node_stream().len(),
            old(self).position() >= old(self).node_stream().len() ==> final(self).position() == old(
                self,
            ).position(),
        decreases remaining(old(self).node_stream().len() as int, old(self).position()),
    {
        let ghost nodes = self.nodes@;
        let ghost fb = self.float_data@;
        let ghost ib = self.int_data@;
        let c = self.cursor;
        if c >= self.nodes.len() {
            return Err(LinOpError::UnexpectedEndOfStream);
        }
        let all = self.nodes;
        let node = &all[c];
        self.cursor = c + 1;
        let (op_type, shape, num_args, data_tag, payload, has_data_linop) = match read_header(node) {
            Ok(h) => h,
            Err(e) => return Err(e),
        };
        let ghost h = header_of(nodes[c as int]@)->Ok_0;
        let data = match self.extract_data(data_tag, payload) {
            Ok(d) => d,
            Err(e) => return Err(e),
        };
        let ghost dm = data_of(h.data_tag, h.payload, fb, ib)->Ok_0;
        let ghost mut data_model = dm;
        let data = if has_data_linop == 1 {
            let ghost before = self.cursor;
            match self.read_linop() {
                Ok(d) => {
                    proof {
                        let inner = decode_tree(nodes, fb, ib, before as int)->Ok_0.0;
                        data_model = DataModel::LinOpRef(Box::new(inner));
                    }
                    LinOpData::LinOpRef(Box::new(d))
                },
                Err(e) => return Err(e),
            }
        } else {
            data
        };
        let c2 = self.cursor;
        proof {
            assert(decode_tree(nodes, fb, ib, c as int) == match decode_args(nodes, fb, ib, c2 as int, num_args as nat) {
                Err(e) => Err(e),
                Ok((args, c3)) => Ok::<(LinOpModel<V>, int), LinOpError>(
                    (LinOpModel { op_code: h.op_code as int, shape: h.shape, args, data: data_model }, c3),
                ),
            });
        }
        let ghost whole = decode_tree(nodes, fb, ib, c as int);
        let mut args: Vec<LinOp<V>> = Vec::new();
        let ghost mut ms: Seq<LinOpModel<V>> = seq![];
        let mut j: usize = 0;
        while j < num_args
            invariant
                self.nodes@ == nodes,
                self.float_data@ == fb,
                self.int_data@ == ib,
                old(self).node_stream() == nodes,
                old(self).floats() == fb,
                old(self).ints() == ib,
                old(self).position() == c,
                self.cursor <= nodes.len(),
                ops_total::<V>(),
                c < nodes.len(),
                whole == decode_tree(nodes, fb, ib, c as int),
                whole == match decode_args(nodes, fb, ib, c2 as int, num_args as nat) {
                    Err(e) => Err(e),
                    Ok((args, c3)) => Ok::<(LinOpModel<V>, int), LinOpError>(
                        (LinOpModel { op_code: h.op_code as int, shape: h.shape, args, data: data_model }, c3),
                    ),
                },
                op_index(op_type) == h.op_code,
                shape@ == h.shape,
                data_models(data, data_model),
                c2 > c,
                self.cursor >= c2,
                j <= num_args,
                args@.len() == j,
                ms.len() == j,
                forall|i: int| 0 <= i < j ==> models(#[trigger] args@[i], ms[i]),
                decode_args(nodes, fb, ib, c2 as int, num_args as nat) == after(
                    ms,
                    decode_args(nodes, fb, ib, self.cursor as int, (num_args - j) as nat),
                ),
            decreases num_args - j,
        {
            let ghost cur = self.cursor;
            match self.read_linop() {
                Ok(a) => {
                    proof {
                        let (m, e) = decode_tree(nodes, fb, ib, cur as int)->Ok_0;
                        let rest = decode_args(nodes, fb, ib, e, (num_args - j - 1) as nat);
                        assert(decode_args(nodes, fb, ib, cur as int, (num_args - j) as nat) == after(seq![m], rest));
                        match rest {
                            Ok((r2, e2)) => {
                                assert(ms + (seq![m] + r2) =~= ms.push(m) + r2);
                            },
                            Err(_) => {},
                        }
                        ms = ms.push(m);
                    }
                    args.push(a);
                },
                Err(e) => {
                    assert(decode_args(nodes, fb, ib, cur as int, (num_args - j) as nat) matches Err(e3) && e3 == e);
                    return Err(e);
                },
            }
            j = j + 1;
        }
        proof {
            assert(ms + seq![] =~= ms);
        }
        Ok(LinOp { op_type, shape, args, data })
    }
}

/// Read every tree of a serialized stream, one after another, until the
/// stream ends (see [`decode_stream`]).
pub fn deserialize_linops<V: Scalar>(
    nodes: &[Vec<PyValue<V>>],
    float_data: &[V],
    int_data: &[i64],
) -> (r: Result<Vec<LinOp<V>>, LinOpError>)
    requires
        ops_total::<V>(),
    ensures
        match decode_stream(nodes@, float_data@, int_data@, 0) {
            Ok(ms) => r matches Ok(ops) && ops@.len() == ms.len() && forall|i: int|
                0 <= i < ms.len() ==> models(#[trigger] ops@[i], ms[i]),
            Err(e) => r matches Err(e2) && e2 == e,
        },
{
    let mut ctx = DeserializationContext::new(nodes, float_data, int_data);
    let mut ops: Vec<LinOp<V>> = Vec::new();
    let ghost mut ms: Seq<LinOpModel<V>> = seq![];
    while ctx.cursor < nodes.len()
        invariant
            ops_total::<V>(),
            ctx.node_stream() == nodes@,
            ctx.floats() == float_data@,
            ctx.ints() == int_data@,
            ctx.position() == ctx.cursor,
            ctx.cursor <= nodes@.len(),
            ops@.len() == ms.len(),
            forall|i: int| 0 <= i < ms.len() ==> models(#[trigger] ops@[i], ms[i]),
            decode_stream(nodes@, float_data@, int_data@, 0) == match decode_stream(
                nodes@,
                float_data@,
                int_data@,
                ctx.position(),
            ) {
                Ok(rest) => Ok::<Seq<LinOpModel<V>>, LinOpError>(ms + rest),
                Err(e) => Err(e),
            },
        decreases nodes@.len() - ctx.cursor,
    {
        let ghost cur = ctx.position();
        match ctx.read_linop() {
            Ok(op) => {
                proof {
                    let (m, e) = decode_tree(nodes@, float_data@, int_data@, cur)->Ok_0;
                    match decode_stream(nodes@, float_data@, int_data@, e) {
                        Ok(r2) => {
                            assert(ms + (seq![m] + r2) =~= ms.push(m) + r2);
                        },
                        Err(_) => {},
                    }
                    ms = ms.push(m);
                }
                ops.push(op);
            },
            Err(e) => {
                return Err(e);
            },
        }
    }
    proof {
        assert(ms + seq![] =~= ms);
    }
    Ok(ops)
}


/// The fields `0..n` a tuple yields are its first `n` items, each a `usize`.
proof fn lemma_fields_ok<V>(t: Seq<PyValue<V>>, n: nat)
    requires
        fields_usize(t, n) is Ok,
    ensures
        n <= t.len(),
        fields_usize(t, n)->Ok_0.len() == n,
        forall|k: int| 0 <= k < n ==> #[trigger] usize_value(t[k]) is Some && fields_usize(t, n)->Ok_0[k]
            == usize_value(t[k])->0,
    decreases n,
{
    if n > 0 {
        lemma_fields_ok(t, (n - 1) as nat);
    }
}

/// Reading a CSC payload (data tag 4), a tuple `(data offset, data length,
/// indices offset, indices length, indptr offset, indptr length, rows,
/// cols)`: when it succeeds, the matrix holds the float buffer's values and
/// the int buffer's indices and column pointers at the ranges the first six
/// items give, and its shape is `(rows, cols)`, items 6 and 7 in that order.
pub proof fn law_sparse_payload<V: Scalar>(t: Seq<PyValue<V>>, payload: PyValue<V>, fb: Seq<V>, ib: Seq<i64>)
    requires
        tuple_items(payload) == Some(t),
        data_of(4, payload, fb, ib) is Ok,
    ensures
        t.len() >= 8,
        forall|k: int| 0 <= k < 8 ==> #[trigger] usize_value(t[k]) is Some,
        ({
            let u = |k: int| usize_value(t[k])->0 as int;
            data_of(4, payload, fb, ib) == Ok::<DataModel<V>, LinOpError>(
                DataModel::SparseArray {
                    data: fb.subrange(u(0), u(0) + u(1)),
                    indices: ib.subrange(u(2), u(2) + u(3)),
                    indptr: ib.subrange(u(4), u(4) + u(5)),
                    shape: (usize_value(t[6])->0, usize_value(t[7])->0),
                },
            )
        }),
{
    lemma_fields_ok(t, 8);
}


/// Reading a dense payload (data tag 3), a tuple `(offset, length, shape)`:
/// when it succeeds, the array holds the float buffer's values at
/// `offset..offset + length` and has the shape the third item lists.
pub proof fn law_dense_payload<V: Scalar>(t: Seq<PyValue<V>>, payload: PyValue<V>, fb: Seq<V>, ib: Seq<i64>)
    requires
        tuple_items(payload) == Some(t),
        data_of(3, payload, fb, ib) is Ok,
    ensures
        t.len() >= 3,
        usize_value(t[0]) is Some,
        usize_value(t[1]) is Some,
        usize_seq_value(t[2]) is Some,
        data_of(3, payload, fb, ib) == Ok::<DataModel<V>, LinOpError>(
            DataModel::DenseArray {
                data: fb.subrange(
                    usize_value(t[0])->0 as int,
                    usize_value(t[0])->0 + usize_value(t[1])->0,
                ),
                shape: usize_seq_value(t[2])->0,
            },
        ),
{
    lemma_fields_ok(t, 2);
    assert(usize_value(t[0]) is Some);
    assert(usize_value(t[1]) is Some);
}

} // verus!
