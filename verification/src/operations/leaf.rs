//! Leaf node operations: variable, const, param.
//!
//! Each handler exposes two entry points:
//!
//! * `process_*_block(...) -> NodeValue`: a typed block when one fits
//!   naturally (an identity for a variable, a dense column for a dense
//!   constant), a `Coo` block otherwise.
//! * `process_*(...) -> SparseTensor`: the flat form, `process_*_block(...)`
//!   flattened.
use vstd::prelude::*;
use crate::block::{
    lemma_single_block_entries, block_entries, block_fits, block_rows_ok, dense_entries, identity_entries, Block, BlockEntry, DenseF, NodeValue,
};
use crate::linop::{shape_size, size_fits, LinOp, LinOpData};
use crate::operations::{CtxView, ProcessingContext};
use crate::scalar::{
    exact, from_int, from_int_spec, is_zero, is_zero_spec, one, one_spec, ops_total, zero_spec,
    Scalar,
};
use crate::tensor::{copy_vec, entry_keys, Entry, SparseTensor};

verus! {

// ---------------------------------------------------------------------------
// Variable
// ---------------------------------------------------------------------------

/// The node carries an integer (a variable or parameter id).
pub open spec fn has_int_data<V>(op: LinOp<V>) -> bool {
    op.data is Int
}

/// The id a node carries.
pub open spec fn int_data<V>(op: LinOp<V>) -> i64 {
    match op.data {
        LinOpData::Int(id) => id,
        _ => 0,
    }
}

/// What a variable lowers to: an identity at the variable's columns.
pub open spec fn variable_entries<V: Scalar>(op: LinOp<V>, c: CtxView) -> Seq<Entry<V>> {
    identity_entries(shape_size(op.shape@), c.var_col(int_data(op)) as int, c.const_param())
}

/// A variable node can be lowered without overflow.
pub open spec fn variable_fits<V>(op: LinOp<V>, c: CtxView) -> bool {
    &&& has_int_data(op)
    &&& size_fits(op.shape@)
    &&& c.valid()
    &&& shape_size(op.shape@) <= i64::MAX
    &&& c.var_col(int_data(op)) + shape_size(op.shape@) <= i64::MAX
}

/// Process a variable node into an `Identity(n)` block placed at the
/// variable's column offset.
pub fn process_variable_block<V: Scalar>(lin_op: &LinOp<V>, ctx: &ProcessingContext) -> (nv:
    NodeValue<V>)
    requires
        has_int_data(*lin_op),
        size_fits(lin_op.shape@),
        ctx@.valid(),
    ensures
        nv.out_rows == shape_size(lin_op.shape@),
        nv.var_cols == ctx@.var_cols(),
        nv.rows_ok(),
        nv.blocks@.len() == 1,
        nv.blocks@[0] == (BlockEntry::<V> {
            param_slot: ctx@.const_param(),
            var_col_offset: ctx@.var_col(int_data(*lin_op)),
            block: Block::Identity { n: shape_size(lin_op.shape@) as usize },
        }),
{
    let n = lin_op.size();
    let var_id = match &lin_op.data {
        LinOpData::Int(id) => *id,
        _ => 0,
    };
    let col_offset = ctx.var_col(var_id);
    let param_slot = ctx.const_param();
    let var_cols = ctx.var_cols();
    let nv = NodeValue {
        out_rows: n,
        var_cols,
        blocks: vec![BlockEntry { param_slot, var_col_offset: col_offset, block: Block::Identity { n } }],
    };
    assert(block_rows_ok(nv.blocks@[0], n as int));
    nv
}

/// Process a variable node: `(1, i, var_col + i, const_param)` for each
/// element `i`.
pub fn process_variable<V: Scalar>(lin_op: &LinOp<V>, ctx: &ProcessingContext) -> (t:
    SparseTensor<V>)
    requires
        ops_total::<V>(),
        variable_fits(*lin_op, ctx@),
    ensures
        t.wf(),
        t.shape == (shape_size(lin_op.shape@) as usize, ctx@.var_cols()),
        t.rows_in_range(),
        exact::<V>() ==> t.entries() == variable_entries(*lin_op, ctx@),
        entry_keys(t.entries()) == entry_keys(variable_entries(*lin_op, ctx@)),
{
    let nv = process_variable_block(lin_op, ctx);
    proof {
        lemma_single_block_entries(nv);
        assert(nv.no_dense());
    }
    assert(nv.fits()) by {
        assert(block_fits(nv.blocks@[0]));
    }
    nv.into_coo()
}

// ---------------------------------------------------------------------------
// ScalarConst
// ---------------------------------------------------------------------------

/// The node carries a number.
pub open spec fn has_scalar_data<V>(op: LinOp<V>) -> bool {
    op.data is Float || op.data is Int
}

/// The number a scalar constant carries.
pub open spec fn scalar_value<V: Scalar>(d: LinOpData<V>) -> V {
    match d {
        LinOpData::Float(v) => v,
        LinOpData::Int(v) => from_int_spec::<V>(v),
        _ => zero_spec::<V>(),
    }
}

/// What a scalar constant lowers to: its value in the constant column, or
/// nothing when it is zero.
pub open spec fn scalar_const_entries<V: Scalar>(op: LinOp<V>, c: CtxView) -> Seq<Entry<V>> {
    let v = scalar_value(op.data);
    if is_zero_spec(v) {
        seq![]
    } else {
        seq![(v, 0i64, c.var_length, c.const_param())]
    }
}

/// The number a scalar node carries.
pub fn scalar_data<V: Scalar>(data: &LinOpData<V>) -> (v: V)
    requires
        ops_total::<V>(),
        data is Float || data is Int,
    ensures
        exact::<V>() ==> v == scalar_value(*data),
{
    match data {
        LinOpData::Float(v) => *v,
        LinOpData::Int(v) => from_int(*v),
        _ => from_int(0),
    }
}

/// Process a scalar constant into a 1x1 dense block in the constant column.
pub fn process_scalar_const_block<V: Scalar>(lin_op: &LinOp<V>, ctx: &ProcessingContext) -> (nv:
    NodeValue<V>)
    requires
        ops_total::<V>(),
        has_scalar_data(*lin_op),
        ctx@.valid(),
    ensures
        nv.out_rows == 1,
        nv.var_cols == ctx@.var_cols(),
        nv.fits(),
        nv.rows_ok(),
        nv.blocks@.len() <= 1,
        forall|k: int| 0 <= k < nv.blocks@.len() ==> (#[trigger] nv.blocks@[k]).block is Dense,
        exact::<V>() ==> nv.entries() == scalar_const_entries(*lin_op, ctx@),
{
    let value = scalar_data(&lin_op.data);
    let var_cols = ctx.var_cols();
    if is_zero(&value) {
        let nv = NodeValue::empty(1, var_cols);
        assert(nv.entries() =~= Seq::<Entry<V>>::empty());
        return nv;
    }
    let dense = DenseF::from_col_major(1, 1, vec![value]);
    let nv = NodeValue {
        out_rows: 1,
        var_cols,
        blocks: vec![BlockEntry { param_slot: ctx.const_param(), var_col_offset: ctx.const_col(), block: Block::Dense(dense) }],
    };
    proof {
        assert(block_fits(nv.blocks@[0]));
        assert(block_rows_ok(nv.blocks@[0], 1));
        lemma_single_block_entries(nv);
        let d = seq![value];
        assert(dense.data@ =~= d);
        assert(dense_entries(d, 1, ctx.var_length as int, ctx@.const_param(), 0) =~= Seq::<Entry<V>>::empty());
        if exact::<V>() {
            assert(dense_entries(d, 1, ctx.var_length as int, ctx@.const_param(), 1) =~= seq![(value, 0i64, ctx.var_length, ctx@.const_param())]);
        }
    }
    nv
}

/// Process a scalar constant.
pub fn process_scalar_const<V: Scalar>(lin_op: &LinOp<V>, ctx: &ProcessingContext) -> (t:
    SparseTensor<V>)
    requires
        ops_total::<V>(),
        has_scalar_data(*lin_op),
        ctx@.valid(),
    ensures
        t.wf(),
        t.shape == (1usize, ctx@.var_cols()),
        t.rows_in_range(),
        exact::<V>() ==> t.entries() == scalar_const_entries(*lin_op, ctx@),
{
    process_scalar_const_block(lin_op, ctx).into_coo()
}

// ---------------------------------------------------------------------------
// DenseConst
// ---------------------------------------------------------------------------

/// The dense values a node carries.
pub open spec fn dense_values<V>(op: LinOp<V>) -> Seq<V> {
    match op.data {
        LinOpData::DenseArray { data, .. } => data@,
        _ => seq![],
    }
}

/// A dense constant whose values fill its shape.
pub open spec fn dense_const_fits<V>(op: LinOp<V>, c: CtxView) -> bool {
    &&& op.data is DenseArray
    &&& size_fits(op.shape@)
    &&& c.valid()
    &&& dense_values(op).len() == shape_size(op.shape@)
    &&& shape_size(op.shape@) <= i64::MAX
}

/// What a dense constant lowers to: its non-zero values, in column-major
/// order, in the constant column.
pub open spec fn dense_const_entries<V: Scalar>(op: LinOp<V>, c: CtxView) -> Seq<Entry<V>> {
    let n = shape_size(op.shape@);
    dense_entries(dense_values(op), n, c.var_length as int, c.const_param(), n)
}

/// Process a dense constant into a `Dense(n, 1)` column-vector block placed
/// at the constant column.
pub fn process_dense_const_block<V: Scalar>(lin_op: &LinOp<V>, ctx: &ProcessingContext) -> (nv:
    NodeValue<V>)
    requires
        dense_const_fits(*lin_op, ctx@),
    ensures
        nv.out_rows == shape_size(lin_op.shape@),
        nv.var_cols == ctx@.var_cols(),
        nv.fits(),
        nv.rows_ok(),
        nv.blocks@.len() <= 1,
        forall|k: int| 0 <= k < nv.blocks@.len() ==> (#[trigger] nv.blocks@[k]).block is Dense,
        nv.entries() == dense_const_entries(*lin_op, ctx@),
        shape_size(lin_op.shape@) > 0 ==> nv.blocks@.len() == 1 && nv.blocks@[0].block is Dense
            && nv.blocks@[0].var_col_offset == ctx.var_length,
{
    let n = lin_op.size();
    let var_cols = ctx.var_cols();
    if n == 0 {
        let nv = NodeValue::empty(0, var_cols);
        assert(nv.entries() =~= Seq::<Entry<V>>::empty());
        return nv;
    }
    let values = match &lin_op.data {
        LinOpData::DenseArray { data, .. } => copy_vec(data),
        _ => Vec::new(),
    };
    let dense = DenseF::from_col_major(n, 1, values);
    let nv = NodeValue {
        out_rows: n,
        var_cols,
        blocks: vec![BlockEntry { param_slot: ctx.const_param(), var_col_offset: ctx.const_col(), block: Block::Dense(dense) }],
    };
    proof {
        assert(block_fits(nv.blocks@[0]));
        assert(block_rows_ok(nv.blocks@[0], n as int));
        lemma_single_block_entries(nv);
    }
    nv
}

/// Process a dense constant.
pub fn process_dense_const<V: Scalar>(lin_op: &LinOp<V>, ctx: &ProcessingContext) -> (t:
    SparseTensor<V>)
    requires
        ops_total::<V>(),
        dense_const_fits(*lin_op, ctx@),
    ensures
        t.wf(),
        t.shape == (shape_size(lin_op.shape@) as usize, ctx@.var_cols()),
        t.rows_in_range(),
        exact::<V>() ==> t.entries() == dense_const_entries(*lin_op, ctx@),
{
    process_dense_const_block(lin_op, ctx).into_coo()
}

} // verus!

verus! {

// ---------------------------------------------------------------------------
// SparseConst
// ---------------------------------------------------------------------------

/// The non-zero values at positions `lo..hi` of a CSC matrix, which lie in
/// column `j`: value `data[idx]` becomes the entry at row `j * m + indices[idx]`
/// (the column-major position) in column `off`, slice `slot`.
pub open spec fn csc_column_entries<V: Scalar>(
    data: Seq<V>,
    indices: Seq<i64>,
    j: int,
    m: int,
    lo: int,
    hi: int,
    off: i64,
    slot: i64,
) -> Seq<Entry<V>>
    decreases hi - lo,
{
    if hi <= lo {
        seq![]
    } else {
        let prev = csc_column_entries(data, indices, j, m, lo, hi - 1, off, slot);
        let idx = hi - 1;
        if is_zero_spec(data[idx]) {
            prev
        } else {
            prev.push((data[idx], (j * m + indices[idx]) as i64, off, slot))
        }
    }
}

/// The non-zero values of the first `ncols` columns of a CSC matrix with `m`
/// rows, column after column.
pub open spec fn csc_entries<V: Scalar>(
    data: Seq<V>,
    indices: Seq<i64>,
    indptr: Seq<i64>,
    m: int,
    off: i64,
    slot: i64,
    ncols: int,
) -> Seq<Entry<V>>
    decreases ncols,
{
    if ncols <= 0 {
        seq![]
    } else {
        csc_entries(data, indices, indptr, m, off, slot, ncols - 1) + csc_column_entries(
            data,
            indices,
            ncols - 1,
            m,
            indptr[ncols - 1] as int,
            indptr[ncols] as int,
            off,
            slot,
        )
    }
}

/// A CSC matrix with `m` rows whose arrays are consistent: the column
/// pointers lie within the values, the row indices within `0..m`, and every
/// column-major position fits in `i64`.
pub open spec fn csc_valid<V>(data: Seq<V>, indices: Seq<i64>, indptr: Seq<i64>, m: int) -> bool {
    &&& indptr.len() >= 1
    &&& indices.len() == data.len()
    &&& forall|k: int| 0 <= k < indptr.len() ==> 0 <= #[trigger] indptr[k] <= data.len()
    &&& forall|k: int| 0 <= k < indices.len() ==> 0 <= #[trigger] indices[k] < m
    &&& (indptr.len() - 1) * m <= i64::MAX
    &&& (indptr.len() - 1) * m <= usize::MAX
}

/// A sparse constant with a consistent CSC matrix.
pub open spec fn sparse_const_fits<V>(op: LinOp<V>, c: CtxView) -> bool {
    &&& size_fits(op.shape@)
    &&& c.valid()
    &&& match op.data {
        LinOpData::SparseArray { data, indices, indptr, shape } => csc_valid(
            data@,
            indices@,
            indptr@,
            shape.0 as int,
        ) && (indptr@.len() - 1) * shape.0 <= shape_size(op.shape@),
        _ => false,
    }
}

/// What a sparse constant lowers to: its non-zero values at their
/// column-major positions, in the constant column.
pub open spec fn sparse_const_entries<V: Scalar>(op: LinOp<V>, c: CtxView) -> Seq<Entry<V>> {
    match op.data {
        LinOpData::SparseArray { data, indices, indptr, shape } => csc_entries(
            data@,
            indices@,
            indptr@,
            shape.0 as int,
            c.var_length,
            c.const_param(),
            indptr@.len() - 1,
        ),
        _ => seq![],
    }
}

proof fn lemma_csc_position(j: int, m: int, i: int, ncols: int)
    requires
        0 <= j < ncols,
        0 <= i < m,
        ncols * m <= i64::MAX,
        ncols * m <= usize::MAX,
    ensures
        0 <= j * m + i < ncols * m,
        j * m + i <= i64::MAX,
        j * m + i <= usize::MAX,
        j * m <= usize::MAX,
{
    assert(0 <= j * m + i < ncols * m) by (nonlinear_arith)
        requires
            0 <= j < ncols,
            0 <= i < m,
    ;
}

/// Process a sparse constant (CSC) into a flat block.
pub fn process_sparse_const_block<V: Scalar>(lin_op: &LinOp<V>, ctx: &ProcessingContext) -> (nv:
    NodeValue<V>)
    requires
        ops_total::<V>(),
        sparse_const_fits(*lin_op, ctx@),
    ensures
        nv.out_rows == shape_size(lin_op.shape@),
        nv.var_cols == ctx@.var_cols(),
        nv.fits(),
        nv.rows_ok(),
        exact::<V>() ==> nv.entries() == sparse_const_entries(*lin_op, ctx@),
{
    let n = lin_op.size();
    let var_cols = ctx.var_cols();
    let col_offset = ctx.const_col();
    let param_offset = ctx.const_param();
    let (data, indices, indptr, m) = match &lin_op.data {
        LinOpData::SparseArray { data, indices, indptr, shape } => (data, indices, indptr, shape.0),
        _ => {
            return NodeValue::empty(n, var_cols);
        },
    };
    let mut tensor = SparseTensor::with_capacity((n, var_cols), data.len());
    let n_cols = indptr.len() - 1;
    let dlen = data.len();
    let mut j: usize = 0;
    while j < n_cols
        invariant
            ops_total::<V>(),
            csc_valid(data@, indices@, indptr@, m as int),
            n_cols == indptr@.len() - 1,
            n_cols * m <= n,
            dlen == data@.len(),
            j <= n_cols,
            tensor.wf(),
            tensor.shape == (n, var_cols),
            tensor.rows_in_range(),
            exact::<V>() ==> tensor.entries() == csc_entries(data@, indices@, indptr@, m as int, col_offset, param_offset, j as int),
        decreases n_cols - j,
    {
        assert(0 <= indptr@[j as int] <= data@.len());
        assert(0 <= indptr@[j + 1] <= data@.len());
        let start = indptr[j] as usize;
        let end = indptr[j + 1] as usize;
        let ghost before = tensor.entries();
        let mut idx: usize = start;
        while idx < end
            invariant
                ops_total::<V>(),
                csc_valid(data@, indices@, indptr@, m as int),
                n_cols == indptr@.len() - 1,
                j < n_cols,
                start == indptr@[j as int],
                end == indptr@[j + 1],
                start <= idx,
                start < end ==> idx <= end,
                end <= start ==> idx == start,
                n_cols * m <= n,
                tensor.wf(),
                tensor.shape == (n, var_cols),
                tensor.rows_in_range(),
                exact::<V>() ==> tensor.entries() == before + csc_column_entries(
                    data@,
                    indices@,
                    j as int,
                    m as int,
                    start as int,
                    idx as int,
                    col_offset,
                    param_offset,
                ),
            decreases end - idx,
        {
            assert(0 <= indices@[idx as int] < m);
            let i = indices[idx] as usize;
            let value = data[idx];
            proof {
                lemma_csc_position(j as int, m as int, i as int, n_cols as int);
            }
            if !is_zero(&value) {
                let flat_idx = (j * m + i) as i64;
                let ghost prev = tensor.entries();
                tensor.push(value, flat_idx, col_offset, param_offset);
                proof {
                    assert(tensor.entries() =~= prev.push((value, flat_idx, col_offset, param_offset)));
                }
            }
            idx = idx + 1;
        }
        proof {
            if exact::<V>() {
                if end <= start {
                    assert(csc_column_entries(data@, indices@, j as int, m as int, start as int, idx as int, col_offset, param_offset) =~= Seq::<Entry<V>>::empty());
                    assert(csc_column_entries(data@, indices@, j as int, m as int, start as int, end as int, col_offset, param_offset) =~= Seq::<Entry<V>>::empty());
                }
                assert(csc_entries(data@, indices@, indptr@, m as int, col_offset, param_offset, j + 1) == csc_entries(data@, indices@, indptr@, m as int, col_offset, param_offset, j as int) + csc_column_entries(data@, indices@, j as int, m as int, indptr@[j as int] as int, indptr@[j + 1] as int, col_offset, param_offset));
            }
        }
        j = j + 1;
    }
    NodeValue::from_coo(tensor)
}

/// Process a sparse constant.
pub fn process_sparse_const<V: Scalar>(lin_op: &LinOp<V>, ctx: &ProcessingContext) -> (t:
    SparseTensor<V>)
    requires
        ops_total::<V>(),
        sparse_const_fits(*lin_op, ctx@),
    ensures
        t.wf(),
        t.shape == (shape_size(lin_op.shape@) as usize, ctx@.var_cols()),
        t.rows_in_range(),
        exact::<V>() ==> t.entries() == sparse_const_entries(*lin_op, ctx@),
{
    process_sparse_const_block(lin_op, ctx).into_coo()
}

// ---------------------------------------------------------------------------
// Param
// ---------------------------------------------------------------------------

/// The slice of element `i` of a parameter: the parameter's slices are used
/// in turn.
pub open spec fn param_slice(c: CtxView, id: i64, i: int) -> int {
    let ps = c.param_size(id);
    if ps == 0 {
        c.param_col(id) as int
    } else {
        c.param_col(id) + i % (ps as int)
    }
}

/// What a parameter lowers to: a one in the constant column of each
/// element's row, in the element's slice.
pub open spec fn param_entries<V: Scalar>(op: LinOp<V>, c: CtxView) -> Seq<Entry<V>> {
    Seq::new(
        shape_size(op.shape@) as nat,
        |i: int|
            (one_spec::<V>(), i as i64, c.var_length, param_slice(c, int_data(op), i) as i64),
    )
}

/// A parameter whose slices are representable.
pub open spec fn param_fits<V>(op: LinOp<V>, c: CtxView) -> bool {
    &&& has_int_data(op)
    &&& size_fits(op.shape@)
    &&& c.valid()
    &&& shape_size(op.shape@) <= i64::MAX
    &&& 0 <= c.param_size(int_data(op))
    &&& c.param_size(int_data(op)) <= usize::MAX
    &&& c.param_col(int_data(op)) + c.param_size(int_data(op)) <= i64::MAX
}

/// Process a parameter into a flat block: element `i` is a one in slice
/// `param_col + i % param_size`.
pub fn process_param_block<V: Scalar>(lin_op: &LinOp<V>, ctx: &ProcessingContext) -> (nv:
    NodeValue<V>)
    requires
        ops_total::<V>(),
        param_fits(*lin_op, ctx@),
    ensures
        nv.out_rows == shape_size(lin_op.shape@),
        nv.var_cols == ctx@.var_cols(),
        nv.fits(),
        nv.rows_ok(),
        exact::<V>() ==> nv.entries() == param_entries(*lin_op, ctx@),
        nv.no_dense(),
        entry_keys(nv.entries()) == entry_keys(param_entries(*lin_op, ctx@)),
{
    let n = lin_op.size();
    let var_cols = ctx.var_cols();
    let param_id = match &lin_op.data {
        LinOpData::Int(id) => *id,
        _ => 0,
    };
    let param_col_offset = ctx.param_col(param_id);
    let param_size = ctx.param_size(param_id) as usize;
    let col_offset = ctx.const_col();
    let v: V = one();
    let mut tensor = SparseTensor::with_capacity((n, var_cols), n);
    let mut i: usize = 0;
    while i < n
        invariant
            i <= n,
            n == shape_size(lin_op.shape@),
            n <= i64::MAX,
            param_id == int_data(*lin_op),
            param_size == ctx@.param_size(param_id),
            param_col_offset == ctx@.param_col(param_id),
            param_col_offset + param_size <= i64::MAX,
            col_offset == ctx.var_length,
            exact::<V>() ==> v == one_spec::<V>(),
            tensor.wf(),
            tensor.shape == (n, var_cols),
            tensor.rows_in_range(),
            forall|q: int| 0 <= q < tensor.rows@.len() ==> #[trigger] tensor.rows@[q] < i,
            exact::<V>() ==> tensor.entries() == param_entries(*lin_op, ctx@).subrange(0, i as int),
            entry_keys(tensor.entries()) == entry_keys(param_entries(*lin_op, ctx@).subrange(0, i as int)),
        decreases n - i,
    {
        let param_offset = if param_size == 0 {
            param_col_offset
        } else {
            param_col_offset + (i % param_size) as i64
        };
        let ghost prev = tensor.entries();
        tensor.push(v, i as i64, col_offset, param_offset);
        proof {
            assert(tensor.entries() =~= prev.push((v, i as i64, col_offset, param_offset)));
            if exact::<V>() {
                assert(param_entries(*lin_op, ctx@).subrange(0, i + 1) =~= param_entries(*lin_op, ctx@).subrange(0, i as int).push((v, i as i64, col_offset, param_offset)));
            }
            let pe = param_entries(*lin_op, ctx@);
            assert(pe[i as int].1 == i as i64 && pe[i as int].2 == col_offset && pe[i as int].3 == param_offset);
            assert(entry_keys(pe.subrange(0, i + 1)) =~= entry_keys(pe.subrange(0, i as int)).push((i as i64, col_offset, param_offset)));
            assert(entry_keys(tensor.entries()) =~= entry_keys(prev).push((i as i64, col_offset, param_offset)));
        }
        i = i + 1;
    }
    assert(param_entries(*lin_op, ctx@).subrange(0, n as int) =~= param_entries(*lin_op, ctx@));
    let nv = NodeValue::from_coo(tensor);
    assert(nv.no_dense());
    nv
}

/// Process a parameter.
pub fn process_param<V: Scalar>(lin_op: &LinOp<V>, ctx: &ProcessingContext) -> (t:
    SparseTensor<V>)
    requires
        ops_total::<V>(),
        param_fits(*lin_op, ctx@),
    ensures
        t.wf(),
        t.shape == (shape_size(lin_op.shape@) as usize, ctx@.var_cols()),
        t.rows_in_range(),
        exact::<V>() ==> t.entries() == param_entries(*lin_op, ctx@),
        entry_keys(t.entries()) == entry_keys(param_entries(*lin_op, ctx@)),
{
    process_param_block(lin_op, ctx).into_coo()
}

} // verus!
