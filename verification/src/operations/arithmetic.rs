//! Arithmetic operations: neg, mul, rmul, mul_elem, div.
//!
//! The constant operand of a product is read into a [`ConstantMatrix`]; the
//! product itself is a block-diagonal matrix applied to the lowered
//! argument: `kron(I_k, A) @ arg` for `A @ X` and `kron(A^T, I_k) @ arg` for
//! `X @ A`, in the column-major element order CVXPY uses.
use vstd::prelude::*;
use crate::operations::{
    as_plain_variable_spec, const_ctx_view, const_matrix, const_matrix_fits, const_matrix_rmul,
    const_vector, const_vector_fits, lower, lower_rows, lowerable, negated_entries,
    lemma_lowerable_basics, process_linop, process_linop_block, typed_identity, value_free, CtxView,
    ProcessingContext,
};
use crate::block::{identity_entries, Block, NodeValue};
use crate::linop::{data_op, is_parametric, is_parametric_spec, OpType};
use crate::scalar::{exact, is_zero, is_zero_spec, one, one_spec, ops_total, Scalar};
use crate::block::{dense_entries, lemma_col_major};
use vstd::arithmetic::div_mod::{lemma_div_is_ordered, lemma_fundamental_div_mod, lemma_fundamental_div_mod_converse};
use crate::linop::{shape_product, shape_size, size_fits, LinOp, LinOpData};
use crate::operations::{
    accumulate_rows, constant_column_values, data_matrix_fits, data_vector_fits, densify_columns,
    densify_positions, matrix_dims, matrix_from_data, matrix_from_values, vector_from_data,
};
use crate::scalar::{from_int, zero, zero_spec};
use crate::tensor::{copy_vec, CONSTANT_ID};
use vstd::std_specs::ops::AddSpec;
use crate::tensor::{entry_keys, flat_map_entries, lemma_flat_map_step, Entry, SparseTensor};
use vstd::std_specs::ops::{DivSpec, MulSpec};

verus! {

/// Representation of constant matrix data
#[derive(Debug)]
pub enum ConstantMatrix<V> {
    Scalar(V),
    /// Dense matrix stored column-major: `A[r, c] = data[c * rows + r]`.
    DenseColMajor { data: Vec<V>, rows: usize, cols: usize },
    /// Dense matrix stored row-major: `A[r, c] = data[r * cols + c]`.
    DenseRowMajor { data: Vec<V>, rows: usize, cols: usize },
    /// CSC matrix.
    Sparse {
        values: Vec<V>,
        row_indices: Vec<i64>,
        col_indptr: Vec<i64>,
        rows: usize,
        cols: usize,
    },
}

/// A CSC matrix with `rows` rows and `cols` columns.
pub open spec fn csc_matrix_valid<V>(
    values: Seq<V>,
    row_indices: Seq<i64>,
    col_indptr: Seq<i64>,
    rows: int,
    cols: int,
) -> bool {
    &&& col_indptr.len() == cols + 1
    &&& row_indices.len() == values.len()
    &&& forall|k: int| 0 <= k < col_indptr.len() ==> 0 <= #[trigger] col_indptr[k] <= values.len()
    &&& forall|k: int| 0 <= k < row_indices.len() ==> 0 <= #[trigger] row_indices[k] < rows
}

/// The mathematical content of a [`ConstantMatrix`].
pub enum MatrixView<V> {
    Scalar(V),
    /// Column-major values, rows, columns.
    DenseColMajor(Seq<V>, int, int),
    /// Row-major values, rows, columns.
    DenseRowMajor(Seq<V>, int, int),
    /// CSC values, row indices, column pointers, rows, columns.
    Sparse(Seq<V>, Seq<i64>, Seq<i64>, int, int),
}

impl<V> View for ConstantMatrix<V> {
    type V = MatrixView<V>;

    open spec fn view(&self) -> MatrixView<V> {
        match self {
            ConstantMatrix::Scalar(s) => MatrixView::Scalar(*s),
            ConstantMatrix::DenseColMajor { data, rows, cols } => MatrixView::DenseColMajor(
                data@,
                *rows as int,
                *cols as int,
            ),
            ConstantMatrix::DenseRowMajor { data, rows, cols } => MatrixView::DenseRowMajor(
                data@,
                *rows as int,
                *cols as int,
            ),
            ConstantMatrix::Sparse { values, row_indices, col_indptr, rows, cols } => MatrixView::Sparse(
                values@,
                row_indices@,
                col_indptr@,
                *rows as int,
                *cols as int,
            ),
        }
    }
}

impl<V> MatrixView<V> {
    /// The stored arrays match the dimensions.
    pub open spec fn valid(self) -> bool {
        match self {
            MatrixView::Scalar(_) => true,
            MatrixView::DenseColMajor(data, rows, cols) => data.len() == rows * cols,
            MatrixView::DenseRowMajor(data, rows, cols) => data.len() == rows * cols,
            MatrixView::Sparse(values, row_indices, col_indptr, rows, cols) => csc_matrix_valid(
                values,
                row_indices,
                col_indptr,
                rows,
                cols,
            ),
        }
    }

    /// Rows and columns of the matrix (a scalar is 1x1).
    pub open spec fn dims(self) -> (int, int) {
        match self {
            MatrixView::Scalar(_) => (1, 1),
            MatrixView::DenseColMajor(_, rows, cols) => (rows, cols),
            MatrixView::DenseRowMajor(_, rows, cols) => (rows, cols),
            MatrixView::Sparse(_, _, _, rows, cols) => (rows, cols),
        }
    }
}

impl<V> ConstantMatrix<V> {
    /// Rows and columns of the matrix (a scalar is 1x1).
    pub fn dims(&self) -> (d: (usize, usize))
        ensures
            d.0 as int == self@.dims().0,
            d.1 as int == self@.dims().1,
    {
        match self {
            ConstantMatrix::Scalar(_) => (1, 1),
            ConstantMatrix::DenseColMajor { rows, cols, .. } => (*rows, *cols),
            ConstantMatrix::DenseRowMajor { rows, cols, .. } => (*rows, *cols),
            ConstantMatrix::Sparse { rows, cols, .. } => (*rows, *cols),
        }
    }
}

/// Every entry's row `r` is non-negative and the rows of its output block,
/// `(r / a_cols) * a_rows + i` for `i < a_rows`, are representable.
pub open spec fn left_rows_fit<V>(es: Seq<Entry<V>>, a_rows: int, a_cols: int) -> bool {
    forall|k: int|
        0 <= k < es.len() ==> {
            &&& 0 <= #[trigger] es[k].1 <= usize::MAX
            &&& ((es[k].1 as int) / a_cols + 1) * a_rows <= i64::MAX
            &&& ((es[k].1 as int) / a_cols + 1) * a_rows <= usize::MAX
        }
}

/// The blocks of `kron(I, A)` applied to `in_rows` rows end within
/// `out_rows` rows: `ceil(in_rows / a_cols) * a_rows <= out_rows`.
pub open spec fn left_consistent(in_rows: int, a_rows: int, a_cols: int, out_rows: int) -> bool {
    a_cols > 0 ==> ((in_rows + a_cols - 1) / a_cols) * a_rows <= out_rows
}

/// Under `left_consistent`, the output block of any row below `in_rows`
/// ends within `out_rows`.
pub proof fn lemma_left_consistent(r: int, in_rows: int, a_rows: int, a_cols: int, out_rows: int)
    requires
        0 <= r < in_rows,
        a_cols > 0,
        a_rows >= 0,
        left_consistent(in_rows, a_rows, a_cols, out_rows),
    ensures
        (r / a_cols + 1) * a_rows <= out_rows,
{
    lemma_fundamental_div_mod(r, a_cols);
    let q = r / a_cols;
    let m = r % a_cols;
    assert(r + a_cols == (q + 1) * a_cols + m) by (nonlinear_arith)
        requires
            r == a_cols * q + m,
    ;
    lemma_fundamental_div_mod_converse(r + a_cols, a_cols, q + 1, m);
    lemma_div_is_ordered(r + a_cols, in_rows + a_cols - 1, a_cols);
    let ceil = (in_rows + a_cols - 1) / a_cols;
    assert((q + 1) * a_rows <= ceil * a_rows) by (nonlinear_arith)
        requires
            q + 1 <= ceil,
            a_rows >= 0,
    ;
}

/// Rows of a tensor with rows in range satisfy `left_rows_fit` when the
/// blocks end within a representable number of rows.
pub proof fn lemma_left_rows_fit<V>(t: SparseTensor<V>, a_rows: int, a_cols: int, out_rows: int)
    requires
        t.wf(),
        t.rows_in_range(),
        a_cols > 0,
        a_rows >= 0,
        left_consistent(t.shape.0 as int, a_rows, a_cols, out_rows),
        out_rows <= i64::MAX,
        out_rows <= usize::MAX,
    ensures
        left_rows_fit(t.entries(), a_rows, a_cols),
{
    assert forall|k: int| 0 <= k < t.entries().len() implies {
        &&& 0 <= #[trigger] t.entries()[k].1 <= usize::MAX
        &&& ((t.entries()[k].1 as int) / a_cols + 1) * a_rows <= i64::MAX
        &&& ((t.entries()[k].1 as int) / a_cols + 1) * a_rows <= usize::MAX
    } by {
        assert(t.entries()[k].1 == t.rows@[k]);
        lemma_left_consistent(t.rows@[k] as int, t.shape.0 as int, a_rows, a_cols, out_rows);
    }
}

/// Entries scaled by `s`: each value `v` becomes `v * s`.
pub open spec fn scaled_entries<V: Scalar>(es: Seq<Entry<V>>, s: V) -> Seq<Entry<V>> {
    Seq::new(es.len(), |i: int| (es[i].0.mul_spec(s), es[i].1, es[i].2, es[i].3))
}

/// A copy of a tensor with every value multiplied by `s` and the given shape.
fn scaled_copy<V: Scalar>(t: &SparseTensor<V>, s: V, shape: (usize, usize)) -> (r: SparseTensor<V>)
    requires
        ops_total::<V>(),
        t.wf(),
    ensures
        r.wf(),
        r.shape == shape,
        t.rows_in_range() && t.shape.0 <= shape.0 ==> r.rows_in_range(),
        exact::<V>() ==> r.entries() == scaled_entries(t.entries(), s),
{
    let mut result = t.copied();
    result.scale_in_place(s);
    result.shape = shape;
    assert(exact::<V>() ==> result.entries() =~= scaled_entries(t.entries(), s));
    result
}

// ---------------------------------------------------------------------------
// Left multiplication: kron(I_k, A) @ rhs
// ---------------------------------------------------------------------------

/// The image of one entry `(v, r, c, p)` under `kron(I, A)` with `A` dense
/// column-major, for the first `k` rows of `A`: entry
/// `(A[i, r % a_cols] * v, (r / a_cols) * a_rows + i, c, p)` for the non-zero
/// elements whose output row is below `out_rows`.
pub open spec fn lmul_dense_cm_rows<V: Scalar>(
    data: Seq<V>,
    a_rows: int,
    a_cols: int,
    out_rows: int,
    e: Entry<V>,
    k: int,
) -> Seq<Entry<V>>
    decreases k,
{
    if k <= 0 {
        seq![]
    } else {
        let prev = lmul_dense_cm_rows(data, a_rows, a_cols, out_rows, e, k - 1);
        let i = k - 1;
        let a = data[((e.1 as int) % a_cols) * a_rows + i];
        let new_row = ((e.1 as int) / a_cols) * a_rows + i;
        if !is_zero_spec(a) && new_row < out_rows {
            prev.push((a.mul_spec(e.0), new_row as i64, e.2, e.3))
        } else {
            prev
        }
    }
}

/// The image of one entry under `kron(I, A)`, `A` dense column-major.
pub open spec fn lmul_dense_cm_fn<V: Scalar>(
    data: Seq<V>,
    a_rows: int,
    a_cols: int,
    out_rows: int,
) -> spec_fn(Entry<V>) -> Seq<Entry<V>> {
    |e: Entry<V>| lmul_dense_cm_rows(data, a_rows, a_cols, out_rows, e, a_rows)
}

/// `kron(I, A) @ rhs` with `A` dense column-major.
pub open spec fn lmul_dense_col_major<V: Scalar>(
    data: Seq<V>,
    a_rows: int,
    a_cols: int,
    out_rows: int,
    es: Seq<Entry<V>>,
) -> Seq<Entry<V>> {
    if a_cols == 0 || a_rows == 0 {
        seq![]
    } else {
        flat_map_entries(es, lmul_dense_cm_fn(data, a_rows, a_cols, out_rows))
    }
}

/// The row-block of the output that entry row `r` lands in, and the column
/// of `A` it reads.
proof fn lemma_block_bounds(r: int, a_rows: int, a_cols: int, i: int)
    requires
        r >= 0,
        a_cols > 0,
        a_rows > 0,
        0 <= i < a_rows,
    ensures
        0 <= r % a_cols < a_cols,
        r / a_cols >= 0,
        0 <= (r % a_cols) * a_rows + i < a_rows * a_cols,
        0 <= i * a_cols + r % a_cols < a_rows * a_cols,
        0 <= (r / a_cols) * a_rows + i < (r / a_cols + 1) * a_rows,
        (r / a_cols) * a_rows <= (r / a_cols + 1) * a_rows,
{
    let c = r % a_cols;
    let b = r / a_cols;
    assert(0 <= c * a_rows + i < a_rows * a_cols) by (nonlinear_arith)
        requires
            0 <= c < a_cols,
            0 <= i < a_rows,
    ;
    assert(0 <= i * a_cols + c < a_rows * a_cols) by (nonlinear_arith)
        requires
            0 <= c < a_cols,
            0 <= i < a_rows,
    ;
    assert(0 <= b * a_rows + i < (b + 1) * a_rows) by (nonlinear_arith)
        requires
            b >= 0,
            0 <= i < a_rows,
    ;
}

/// Dense block diagonal multiplication with column-major data: kron(I_k, A) @ tensor
fn multiply_dense_block_diagonal_colmajor<V: Scalar>(
    data: &Vec<V>,
    a_rows: usize,
    a_cols: usize,
    rhs: &SparseTensor<V>,
    output_rows: usize,
    ctx: &ProcessingContext,
) -> (t: SparseTensor<V>)
    requires
        ops_total::<V>(),
        ctx@.valid(),
        rhs.wf(),
        data@.len() == a_rows * a_cols,
        a_cols > 0 ==> left_rows_fit(rhs.entries(), a_rows as int, a_cols as int),
    ensures
        t.wf(),
        t.shape == (output_rows, ctx@.var_cols()),
        t.rows_in_range(),
        exact::<V>() ==> t.entries() == lmul_dense_col_major(
            data@,
            a_rows as int,
            a_cols as int,
            output_rows as int,
            rhs.entries(),
        ),
{
    let var_cols = ctx.var_cols();
    if a_cols == 0 || a_rows == 0 || rhs.nnz() == 0 {
        let t = SparseTensor::empty((output_rows, var_cols));
        assert(rhs.entries().len() == 0 ==> rhs.entries() =~= Seq::<Entry<V>>::empty());
        return t;
    }
    let ghost f = lmul_dense_cm_fn(data@, a_rows as int, a_cols as int, output_rows as int);
    let ghost es = rhs.entries();
    let dlen = data.len();
    let mut result = SparseTensor::with_capacity((output_rows, var_cols), rhs.nnz() * 0);
    let n = rhs.nnz();
    let mut idx: usize = 0;
    while idx < n
        invariant
            ops_total::<V>(),
            rhs.wf(),
            es == rhs.entries(),
            n == es.len(),
            idx <= n,
            a_cols > 0,
            a_rows > 0,
            data@.len() == a_rows * a_cols,
            dlen == data@.len(),
            left_rows_fit(es, a_rows as int, a_cols as int),
            f == lmul_dense_cm_fn(data@, a_rows as int, a_cols as int, output_rows as int),
            result.wf(),
            result.shape == (output_rows, var_cols),
            result.rows_in_range(),
            exact::<V>() ==> result.entries() == flat_map_entries(es.subrange(0, idx as int), f),
        decreases n - idx,
    {
        let ghost e = es[idx as int];
        assert(e == (rhs.data@[idx as int], rhs.rows@[idx as int], rhs.cols@[idx as int], rhs.param_offsets@[idx as int]));
        assert(0 <= e.1 <= usize::MAX);
        let rhs_row = rhs.rows[idx] as usize;
        let rhs_col = rhs.cols[idx];
        let rhs_val = rhs.data[idx];
        let rhs_param = rhs.param_offsets[idx];
        let block = rhs_row / a_cols;
        let col_in_block = rhs_row % a_cols;
        proof {
            lemma_block_bounds(e.1 as int, a_rows as int, a_cols as int, 0);
        }
        let row_offset = block * a_rows;
        let col_start = col_in_block * a_rows;
        let ghost base = result.entries();
        let mut i: usize = 0;
        while i < a_rows
            invariant
                ops_total::<V>(),
                0 < a_rows,
                0 < a_cols,
                i <= a_rows,
                data@.len() == a_rows * a_cols,
                dlen == data@.len(),
                e.1 == rhs_row,
                e.0 == rhs_val,
                e.2 == rhs_col,
                e.3 == rhs_param,
                block == (e.1 as int) / (a_cols as int),
                col_in_block == (e.1 as int) % (a_cols as int),
                row_offset == block * a_rows,
                col_start == col_in_block * a_rows,
                ((e.1 as int) / (a_cols as int) + 1) * a_rows <= i64::MAX,
                ((e.1 as int) / (a_cols as int) + 1) * a_rows <= usize::MAX,
                result.wf(),
                result.shape == (output_rows, var_cols),
                result.rows_in_range(),
                exact::<V>() ==> result.entries() == base + lmul_dense_cm_rows(
                    data@,
                    a_rows as int,
                    a_cols as int,
                    output_rows as int,
                    e,
                    i as int,
                ),
            decreases a_rows - i,
        {
            proof {
                lemma_block_bounds(e.1 as int, a_rows as int, a_cols as int, i as int);
            }
            let a_val = data[col_start + i];
            if !is_zero(&a_val) {
                let new_row = row_offset + i;
                if new_row < output_rows {
                    result.push(a_val.mul(rhs_val), new_row as i64, rhs_col, rhs_param);
                }
            }
            i = i + 1;
        }
        proof {
            lemma_flat_map_step(es, f, idx as int);
        }
        idx = idx + 1;
    }
    assert(es.subrange(0, n as int) =~= es);
    result
}


/// The image of one entry under `kron(I, A)` with `A` dense row-major, for
/// the first `k` rows of `A`.
pub open spec fn lmul_dense_rm_rows<V: Scalar>(
    data: Seq<V>,
    a_rows: int,
    a_cols: int,
    e: Entry<V>,
    k: int,
) -> Seq<Entry<V>>
    decreases k,
{
    if k <= 0 {
        seq![]
    } else {
        let prev = lmul_dense_rm_rows(data, a_rows, a_cols, e, k - 1);
        let i = k - 1;
        let a = data[i * a_cols + (e.1 as int) % a_cols];
        if !is_zero_spec(a) {
            prev.push((a.mul_spec(e.0), (((e.1 as int) / a_cols) * a_rows + i) as i64, e.2, e.3))
        } else {
            prev
        }
    }
}

/// The image of one entry under `kron(I, A)`, `A` dense row-major.
pub open spec fn lmul_dense_rm_fn<V: Scalar>(data: Seq<V>, a_rows: int, a_cols: int) -> spec_fn(
    Entry<V>,
) -> Seq<Entry<V>> {
    |e: Entry<V>| lmul_dense_rm_rows(data, a_rows, a_cols, e, a_rows)
}

/// `kron(I, A) @ rhs` with `A` dense row-major.
pub open spec fn lmul_dense_row_major<V: Scalar>(
    data: Seq<V>,
    a_rows: int,
    a_cols: int,
    es: Seq<Entry<V>>,
) -> Seq<Entry<V>> {
    if a_cols == 0 || a_rows == 0 {
        seq![]
    } else {
        flat_map_entries(es, lmul_dense_rm_fn(data, a_rows, a_cols))
    }
}

/// Dense block diagonal multiplication with row-major data: kron(I_k, A) @ tensor
fn multiply_dense_block_diagonal_rowmajor<V: Scalar>(
    data: &Vec<V>,
    a_rows: usize,
    a_cols: usize,
    rhs: &SparseTensor<V>,
    output_rows: usize,
    ctx: &ProcessingContext,
) -> (t: SparseTensor<V>)
    requires
        ops_total::<V>(),
        ctx@.valid(),
        rhs.wf(),
        data@.len() == a_rows * a_cols,
        a_cols > 0 ==> left_rows_fit(rhs.entries(), a_rows as int, a_cols as int),
        rhs.rows_in_range(),
        left_consistent(rhs.shape.0 as int, a_rows as int, a_cols as int, output_rows as int),
    ensures
        t.wf(),
        t.shape == (output_rows, ctx@.var_cols()),
        t.rows_in_range(),
        exact::<V>() ==> t.entries() == lmul_dense_row_major(
            data@,
            a_rows as int,
            a_cols as int,
            rhs.entries(),
        ),
{
    let var_cols = ctx.var_cols();
    if a_cols == 0 || a_rows == 0 {
        return SparseTensor::empty((output_rows, var_cols));
    }
    let ghost f = lmul_dense_rm_fn(data@, a_rows as int, a_cols as int);
    let ghost es = rhs.entries();
    let dlen = data.len();
    let mut result = SparseTensor::with_capacity((output_rows, var_cols), 0);
    let n = rhs.nnz();
    let mut idx: usize = 0;
    while idx < n
        invariant
            ops_total::<V>(),
            rhs.wf(),
            es == rhs.entries(),
            n == es.len(),
            idx <= n,
            a_cols > 0,
            a_rows > 0,
            data@.len() == a_rows * a_cols,
            dlen == data@.len(),
            left_rows_fit(es, a_rows as int, a_cols as int),
            f == lmul_dense_rm_fn(data@, a_rows as int, a_cols as int),
            rhs.rows_in_range(),
            left_consistent(rhs.shape.0 as int, a_rows as int, a_cols as int, output_rows as int),
            result.wf(),
            result.shape == (output_rows, var_cols),
            result.rows_in_range(),
            exact::<V>() ==> result.entries() == flat_map_entries(es.subrange(0, idx as int), f),
        decreases n - idx,
    {
        let ghost e = es[idx as int];
        assert(e == (rhs.data@[idx as int], rhs.rows@[idx as int], rhs.cols@[idx as int], rhs.param_offsets@[idx as int]));
        assert(0 <= e.1 <= usize::MAX);
        let rhs_row = rhs.rows[idx] as usize;
        let rhs_col = rhs.cols[idx];
        let rhs_val = rhs.data[idx];
        let rhs_param = rhs.param_offsets[idx];
        let block = rhs_row / a_cols;
        let col_in_block = rhs_row % a_cols;
        proof {
            lemma_left_consistent(e.1 as int, rhs.shape.0 as int, a_rows as int, a_cols as int, output_rows as int);
        }
        let ghost base = result.entries();
        let mut i: usize = 0;
        while i < a_rows
            invariant
                ops_total::<V>(),
                0 < a_rows,
                0 < a_cols,
                i <= a_rows,
                data@.len() == a_rows * a_cols,
                dlen == data@.len(),
                ((e.1 as int) / (a_cols as int) + 1) * a_rows <= output_rows,
                result.rows_in_range(),
                e.1 == rhs_row,
                e.0 == rhs_val,
                e.2 == rhs_col,
                e.3 == rhs_param,
                block == (e.1 as int) / (a_cols as int),
                col_in_block == (e.1 as int) % (a_cols as int),
                ((e.1 as int) / (a_cols as int) + 1) * a_rows <= i64::MAX,
                ((e.1 as int) / (a_cols as int) + 1) * a_rows <= usize::MAX,
                result.wf(),
                result.shape == (output_rows, var_cols),
                exact::<V>() ==> result.entries() == base + lmul_dense_rm_rows(
                    data@,
                    a_rows as int,
                    a_cols as int,
                    e,
                    i as int,
                ),
            decreases a_rows - i,
        {
            proof {
                lemma_block_bounds(e.1 as int, a_rows as int, a_cols as int, i as int);
            }
            let a_val = data[i * a_cols + col_in_block];
            if !is_zero(&a_val) {
                let new_row = (block * a_rows + i) as i64;
                result.push(a_val.mul(rhs_val), new_row, rhs_col, rhs_param);
            }
            i = i + 1;
        }
        proof {
            lemma_flat_map_step(es, f, idx as int);
        }
        idx = idx + 1;
    }
    assert(es.subrange(0, n as int) =~= es);
    result
}

/// The image of one entry under `kron(I, A)` with `A` in CSC form, for the
/// stored positions `lo..hi` of column `r % a_cols`.
pub open spec fn lmul_sparse_rows<V: Scalar>(
    values: Seq<V>,
    row_indices: Seq<i64>,
    a_rows: int,
    a_cols: int,
    e: Entry<V>,
    lo: int,
    hi: int,
) -> Seq<Entry<V>>
    decreases hi - lo,
{
    if hi <= lo {
        seq![]
    } else {
        let prev = lmul_sparse_rows(values, row_indices, a_rows, a_cols, e, lo, hi - 1);
        let k = hi - 1;
        let a = values[k];
        if !is_zero_spec(a) {
            prev.push(
                (
                    a.mul_spec(e.0),
                    (((e.1 as int) / a_cols) * a_rows + row_indices[k]) as i64,
                    e.2,
                    e.3,
                ),
            )
        } else {
            prev
        }
    }
}

/// The image of one entry under `kron(I, A)`, `A` in CSC form.
pub open spec fn lmul_sparse_fn<V: Scalar>(
    values: Seq<V>,
    row_indices: Seq<i64>,
    col_indptr: Seq<i64>,
    a_rows: int,
    a_cols: int,
) -> spec_fn(Entry<V>) -> Seq<Entry<V>> {
    |e: Entry<V>|
        {
            let c = (e.1 as int) % a_cols;
            if c < col_indptr.len() - 1 {
                lmul_sparse_rows(
                    values,
                    row_indices,
                    a_rows,
                    a_cols,
                    e,
                    col_indptr[c] as int,
                    col_indptr[c + 1] as int,
                )
            } else {
                seq![]
            }
        }
}

/// `kron(I, A) @ rhs` with `A` in CSC form.
pub open spec fn lmul_sparse<V: Scalar>(
    values: Seq<V>,
    row_indices: Seq<i64>,
    col_indptr: Seq<i64>,
    a_rows: int,
    a_cols: int,
    es: Seq<Entry<V>>,
) -> Seq<Entry<V>> {
    if a_cols == 0 {
        seq![]
    } else {
        flat_map_entries(es, lmul_sparse_fn(values, row_indices, col_indptr, a_rows, a_cols))
    }
}

/// Sparse block diagonal multiplication: kron(I_k, A) @ tensor
fn multiply_sparse_block_diagonal<V: Scalar>(
    values: &Vec<V>,
    row_indices: &Vec<i64>,
    col_indptr: &Vec<i64>,
    a_rows: usize,
    a_cols: usize,
    rhs: &SparseTensor<V>,
    output_rows: usize,
    ctx: &ProcessingContext,
) -> (t: SparseTensor<V>)
    requires
        ops_total::<V>(),
        ctx@.valid(),
        rhs.wf(),
        csc_matrix_valid(values@, row_indices@, col_indptr@, a_rows as int, a_cols as int),
        a_cols > 0 ==> left_rows_fit(rhs.entries(), a_rows as int, a_cols as int),
        rhs.rows_in_range(),
        left_consistent(rhs.shape.0 as int, a_rows as int, a_cols as int, output_rows as int),
    ensures
        t.wf(),
        t.shape == (output_rows, ctx@.var_cols()),
        t.rows_in_range(),
        exact::<V>() ==> t.entries() == lmul_sparse(
            values@,
            row_indices@,
            col_indptr@,
            a_rows as int,
            a_cols as int,
            rhs.entries(),
        ),
{
    let var_cols = ctx.var_cols();
    if a_cols == 0 {
        return SparseTensor::empty((output_rows, var_cols));
    }
    let ghost f = lmul_sparse_fn(values@, row_indices@, col_indptr@, a_rows as int, a_cols as int);
    let ghost es = rhs.entries();
    let vlen = values.len();
    let mut result = SparseTensor::with_capacity((output_rows, var_cols), 0);
    let n = rhs.nnz();
    let mut idx: usize = 0;
    while idx < n
        invariant
            ops_total::<V>(),
            rhs.wf(),
            es == rhs.entries(),
            n == es.len(),
            idx <= n,
            a_cols > 0,
            csc_matrix_valid(values@, row_indices@, col_indptr@, a_rows as int, a_cols as int),
            vlen == values@.len(),
            left_rows_fit(es, a_rows as int, a_cols as int),
            f == lmul_sparse_fn(values@, row_indices@, col_indptr@, a_rows as int, a_cols as int),
            rhs.rows_in_range(),
            left_consistent(rhs.shape.0 as int, a_rows as int, a_cols as int, output_rows as int),
            result.wf(),
            result.shape == (output_rows, var_cols),
            result.rows_in_range(),
            exact::<V>() ==> result.entries() == flat_map_entries(es.subrange(0, idx as int), f),
        decreases n - idx,
    {
        let ghost e = es[idx as int];
        assert(e == (rhs.data@[idx as int], rhs.rows@[idx as int], rhs.cols@[idx as int], rhs.param_offsets@[idx as int]));
        assert(0 <= e.1 <= usize::MAX);
        let rhs_row = rhs.rows[idx] as usize;
        let rhs_col = rhs.cols[idx];
        let rhs_val = rhs.data[idx];
        let rhs_param = rhs.param_offsets[idx];
        let block = rhs_row / a_cols;
        let col_in_block = rhs_row % a_cols;
        proof {
            lemma_left_consistent(e.1 as int, rhs.shape.0 as int, a_rows as int, a_cols as int, output_rows as int);
        }
        let ghost base = result.entries();
        if col_in_block < col_indptr.len() - 1 {
            assert(0 <= col_indptr@[col_in_block as int] <= vlen);
            assert(0 <= col_indptr@[col_in_block + 1] <= vlen);
            let start = col_indptr[col_in_block] as usize;
            let end = col_indptr[col_in_block + 1] as usize;
            let mut nnz_idx: usize = start;
            while nnz_idx < end
                invariant
                    ops_total::<V>(),
                    0 < a_cols,
                    csc_matrix_valid(values@, row_indices@, col_indptr@, a_rows as int, a_cols as int),
                    vlen == values@.len(),
                    end <= vlen,
                    start <= nnz_idx,
                    start < end ==> nnz_idx <= end,
                    end <= start ==> nnz_idx == start,
                    e.1 == rhs_row,
                    e.0 == rhs_val,
                    e.2 == rhs_col,
                    e.3 == rhs_param,
                    block == (e.1 as int) / (a_cols as int),
                    ((e.1 as int) / (a_cols as int) + 1) * a_rows <= i64::MAX,
                    ((e.1 as int) / (a_cols as int) + 1) * a_rows <= usize::MAX,
                    ((e.1 as int) / (a_cols as int) + 1) * a_rows <= output_rows,
                    result.wf(),
                    result.shape == (output_rows, var_cols),
                    result.rows_in_range(),
                    exact::<V>() ==> result.entries() == base + lmul_sparse_rows(
                        values@,
                        row_indices@,
                        a_rows as int,
                        a_cols as int,
                        e,
                        start as int,
                        nnz_idx as int,
                    ),
                decreases end - nnz_idx,
            {
                assert(0 <= row_indices@[nnz_idx as int] < a_rows);
                let a_row = row_indices[nnz_idx] as usize;
                let a_val = values[nnz_idx];
                proof {
                    lemma_block_bounds(e.1 as int, a_rows as int, a_cols as int, a_row as int);
                }
                if !is_zero(&a_val) {
                    let new_row = (block * a_rows + a_row) as i64;
                    result.push(a_val.mul(rhs_val), new_row, rhs_col, rhs_param);
                }
                nnz_idx = nnz_idx + 1;
            }
            proof {
                if end <= start {
                    assert(lmul_sparse_rows(values@, row_indices@, a_rows as int, a_cols as int, e, start as int, end as int) =~= Seq::<Entry<V>>::empty());
                }
            }
        }
        proof {
            lemma_flat_map_step(es, f, idx as int);
        }
        idx = idx + 1;
    }
    assert(es.subrange(0, n as int) =~= es);
    result
}

/// `kron(I, A) @ rhs` for a constant matrix `A` with an output of
/// `out_rows` rows; a scalar multiplies every value.
pub open spec fn lmul_entries<V: Scalar>(lhs: MatrixView<V>, out_rows: int, es: Seq<Entry<V>>) -> Seq<
    Entry<V>,
> {
    match lhs {
        MatrixView::Scalar(s) => scaled_entries(es, s),
        MatrixView::DenseColMajor(data, rows, cols) => lmul_dense_col_major(
            data,
            rows,
            cols,
            out_rows,
            es,
        ),
        MatrixView::DenseRowMajor(data, rows, cols) => lmul_dense_row_major(data, rows, cols, es),
        MatrixView::Sparse(values, row_indices, col_indptr, rows, cols) => lmul_sparse(
            values,
            row_indices,
            col_indptr,
            rows,
            cols,
            es,
        ),
    }
}

/// Block diagonal multiplication from left: kron(I, A) @ tensor, with an
/// output of `output_rows` rows.
pub fn multiply_block_diagonal<V: Scalar>(
    lhs: &ConstantMatrix<V>,
    rhs: &SparseTensor<V>,
    output_rows: usize,
    ctx: &ProcessingContext,
) -> (t: SparseTensor<V>)
    requires
        ops_total::<V>(),
        ctx@.valid(),
        rhs.wf(),
        lhs@.valid(),
        !(lhs@ is Scalar) && lhs@.dims().1 > 0 ==> left_rows_fit(
            rhs.entries(),
            lhs@.dims().0,
            lhs@.dims().1,
        ),
        rhs.rows_in_range(),
        !(lhs@ is Scalar) ==> left_consistent(rhs.shape.0 as int, lhs@.dims().0, lhs@.dims().1, output_rows as int),
        lhs@ is Scalar ==> rhs.shape.0 <= output_rows,
    ensures
        t.wf(),
        t.shape == (output_rows, ctx@.var_cols()),
        t.rows_in_range(),
        exact::<V>() ==> t.entries() == lmul_entries(lhs@, output_rows as int, rhs.entries()),
{
    match lhs {
        ConstantMatrix::Scalar(s) => scaled_copy(rhs, *s, (output_rows, ctx.var_cols())),
        ConstantMatrix::DenseColMajor { data, rows, cols } => {
            multiply_dense_block_diagonal_colmajor(data, *rows, *cols, rhs, output_rows, ctx)
        },
        ConstantMatrix::DenseRowMajor { data, rows, cols } => {
            multiply_dense_block_diagonal_rowmajor(data, *rows, *cols, rhs, output_rows, ctx)
        },
        ConstantMatrix::Sparse { values, row_indices, col_indptr, rows, cols } => {
            multiply_sparse_block_diagonal(
                values,
                row_indices,
                col_indptr,
                *rows,
                *cols,
                rhs,
                output_rows,
                ctx,
            )
        },
    }
}


// ---------------------------------------------------------------------------
// Right multiplication: vec(X @ A) = kron(A^T, I_k) @ vec(X)
// ---------------------------------------------------------------------------

/// Every entry's row `r` is non-negative, and for a dense `A` the column of
/// `X` it stands for, `r / k`, is a row of `A`.
pub open spec fn right_rows_fit<V>(es: Seq<Entry<V>>, k: int, a_rows: int, dense: bool) -> bool {
    forall|t: int|
        0 <= t < es.len() ==> {
            &&& 0 <= #[trigger] es[t].1 <= usize::MAX
            &&& dense ==> (es[t].1 as int) / k < a_rows
        }
}

proof fn lemma_right_bounds(r: int, k: int, a_rows: int, a_cols: int, out_rows: int, j: int)
    requires
        r >= 0,
        k > 0,
        a_cols > 0,
        out_rows >= 0,
        k == out_rows / a_cols,
        0 <= j < a_cols,
    ensures
        0 <= r % k < k,
        r / k >= 0,
        0 <= j * k + r % k < out_rows,
        r / k < a_rows ==> 0 <= j * a_rows + r / k < a_rows * a_cols,
        r / k < a_rows ==> 0 <= (r / k) * a_cols + j < a_rows * a_cols,
{
    let x = r % k;
    let l = r / k;
    assert(a_cols * k <= out_rows) by (nonlinear_arith)
        requires
            a_cols > 0,
            out_rows >= 0,
            k == out_rows / a_cols,
    ;
    assert(0 <= j * k + x < a_cols * k) by (nonlinear_arith)
        requires
            0 <= j < a_cols,
            0 <= x < k,
    ;
    if l < a_rows {
        assert(0 <= j * a_rows + l < a_rows * a_cols) by (nonlinear_arith)
            requires
                0 <= j < a_cols,
                0 <= l < a_rows,
        ;
        assert(0 <= l * a_cols + j < a_rows * a_cols) by (nonlinear_arith)
            requires
                0 <= j < a_cols,
                0 <= l < a_rows,
        ;
    }
}

/// The image of one entry `(v, r, c, p)` of `vec(X)` under `X @ A`, `A`
/// dense column-major, for the first `m` columns of `A`: with `k` rows of
/// `X`, element `X[r % k, r / k]` contributes `v * A[r / k, j]` to output
/// row `j * k + r % k`.
pub open spec fn rmul_dense_cm_cols<V: Scalar>(
    data: Seq<V>,
    a_rows: int,
    k: int,
    out_rows: int,
    e: Entry<V>,
    m: int,
) -> Seq<Entry<V>>
    decreases m,
{
    if m <= 0 {
        seq![]
    } else {
        let prev = rmul_dense_cm_cols(data, a_rows, k, out_rows, e, m - 1);
        let j = m - 1;
        let a = data[j * a_rows + (e.1 as int) / k];
        let out_row = j * k + (e.1 as int) % k;
        if !is_zero_spec(a) && out_row < out_rows {
            prev.push((e.0.mul_spec(a), out_row as i64, e.2, e.3))
        } else {
            prev
        }
    }
}

/// The image of one entry of `vec(X)` under `X @ A`, `A` dense column-major.
pub open spec fn rmul_dense_cm_fn<V: Scalar>(
    data: Seq<V>,
    a_rows: int,
    a_cols: int,
    out_rows: int,
) -> spec_fn(Entry<V>) -> Seq<Entry<V>> {
    |e: Entry<V>| rmul_dense_cm_cols(data, a_rows, out_rows / a_cols, out_rows, e, a_cols)
}

/// `vec(X @ A)` from `vec(X)` with `A` dense column-major and an output of
/// `out_rows` elements.
pub open spec fn rmul_dense_col_major<V: Scalar>(
    data: Seq<V>,
    a_rows: int,
    a_cols: int,
    out_rows: int,
    es: Seq<Entry<V>>,
) -> Seq<Entry<V>> {
    if a_cols == 0 || a_rows == 0 || out_rows / a_cols == 0 {
        seq![]
    } else {
        flat_map_entries(es, rmul_dense_cm_fn(data, a_rows, a_cols, out_rows))
    }
}

/// Dense block diagonal right multiplication with column-major data.
fn multiply_dense_block_diagonal_right_colmajor<V: Scalar>(
    data: &Vec<V>,
    a_rows: usize,
    a_cols: usize,
    lhs: &SparseTensor<V>,
    output_rows: usize,
    ctx: &ProcessingContext,
) -> (t: SparseTensor<V>)
    requires
        ops_total::<V>(),
        ctx@.valid(),
        lhs.wf(),
        data@.len() == a_rows * a_cols,
        output_rows <= i64::MAX,
        a_cols > 0 && output_rows / a_cols > 0 ==> right_rows_fit(
            lhs.entries(),
            (output_rows / a_cols) as int,
            a_rows as int,
            true,
        ),
    ensures
        t.wf(),
        t.shape == (output_rows, ctx@.var_cols()),
        t.rows_in_range(),
        exact::<V>() ==> t.entries() == rmul_dense_col_major(
            data@,
            a_rows as int,
            a_cols as int,
            output_rows as int,
            lhs.entries(),
        ),
{
    let var_cols = ctx.var_cols();
    if a_cols == 0 || a_rows == 0 || lhs.nnz() == 0 {
        assert(lhs.entries().len() == 0 ==> lhs.entries() =~= Seq::<Entry<V>>::empty());
        return SparseTensor::empty((output_rows, var_cols));
    }
    let k = output_rows / a_cols;
    if k == 0 {
        return SparseTensor::empty((output_rows, var_cols));
    }
    let ghost f = rmul_dense_cm_fn(data@, a_rows as int, a_cols as int, output_rows as int);
    let ghost es = lhs.entries();
    let dlen = data.len();
    let mut result = SparseTensor::with_capacity((output_rows, var_cols), 0);
    let n = lhs.nnz();
    let mut idx: usize = 0;
    while idx < n
        invariant
            ops_total::<V>(),
            lhs.wf(),
            es == lhs.entries(),
            n == es.len(),
            idx <= n,
            a_cols > 0,
            a_rows > 0,
            k > 0,
            k == output_rows / a_cols,
            output_rows <= i64::MAX,
            data@.len() == a_rows * a_cols,
            dlen == data@.len(),
            right_rows_fit(es, k as int, a_rows as int, true),
            f == rmul_dense_cm_fn(data@, a_rows as int, a_cols as int, output_rows as int),
            result.wf(),
            result.shape == (output_rows, var_cols),
            result.rows_in_range(),
            exact::<V>() ==> result.entries() == flat_map_entries(es.subrange(0, idx as int), f),
        decreases n - idx,
    {
        let ghost e = es[idx as int];
        assert(e == (lhs.data@[idx as int], lhs.rows@[idx as int], lhs.cols@[idx as int], lhs.param_offsets@[idx as int]));
        assert(0 <= e.1 <= usize::MAX);
        let lhs_row = lhs.rows[idx] as usize;
        let lhs_col = lhs.cols[idx];
        let lhs_val = lhs.data[idx];
        let lhs_param = lhs.param_offsets[idx];
        let row_in_x = lhs_row % k;
        let col_in_x = lhs_row / k;
        let ghost base = result.entries();
        let mut j: usize = 0;
        while j < a_cols
            invariant
                ops_total::<V>(),
                0 < a_rows,
                0 < a_cols,
                k > 0,
                k == output_rows / a_cols,
                output_rows <= i64::MAX,
                j <= a_cols,
                data@.len() == a_rows * a_cols,
                dlen == data@.len(),
                e.1 == lhs_row,
                e.0 == lhs_val,
                e.2 == lhs_col,
                e.3 == lhs_param,
                row_in_x == (e.1 as int) % (k as int),
                col_in_x == (e.1 as int) / (k as int),
                col_in_x < a_rows,
                result.wf(),
                result.shape == (output_rows, var_cols),
                result.rows_in_range(),
                exact::<V>() ==> result.entries() == base + rmul_dense_cm_cols(
                    data@,
                    a_rows as int,
                    k as int,
                    output_rows as int,
                    e,
                    j as int,
                ),
            decreases a_cols - j,
        {
            proof {
                lemma_right_bounds(e.1 as int, k as int, a_rows as int, a_cols as int, output_rows as int, j as int);
            }
            let a_val = data[j * a_rows + col_in_x];
            if !is_zero(&a_val) {
                let out_row = j * k + row_in_x;
                if out_row < output_rows {
                    result.push(lhs_val.mul(a_val), out_row as i64, lhs_col, lhs_param);
                }
            }
            j = j + 1;
        }
        proof {
            lemma_flat_map_step(es, f, idx as int);
        }
        idx = idx + 1;
    }
    assert(es.subrange(0, n as int) =~= es);
    result
}

/// The image of one entry of `vec(X)` under `X @ A`, `A` dense row-major,
/// for the first `m` columns of `A`.
pub open spec fn rmul_dense_rm_cols<V: Scalar>(
    data: Seq<V>,
    a_cols: int,
    k: int,
    e: Entry<V>,
    m: int,
) -> Seq<Entry<V>>
    decreases m,
{
    if m <= 0 {
        seq![]
    } else {
        let prev = rmul_dense_rm_cols(data, a_cols, k, e, m - 1);
        let j = m - 1;
        let a = data[((e.1 as int) / k) * a_cols + j];
        if !is_zero_spec(a) {
            prev.push((a.mul_spec(e.0), (j * k + (e.1 as int) % k) as i64, e.2, e.3))
        } else {
            prev
        }
    }
}

/// The image of one entry of `vec(X)` under `X @ A`, `A` dense row-major.
pub open spec fn rmul_dense_rm_fn<V: Scalar>(data: Seq<V>, a_cols: int, out_rows: int) -> spec_fn(
    Entry<V>,
) -> Seq<Entry<V>> {
    |e: Entry<V>| rmul_dense_rm_cols(data, a_cols, out_rows / a_cols, e, a_cols)
}

/// `vec(X @ A)` from `vec(X)` with `A` dense row-major.
pub open spec fn rmul_dense_row_major<V: Scalar>(
    data: Seq<V>,
    a_cols: int,
    out_rows: int,
    es: Seq<Entry<V>>,
) -> Seq<Entry<V>> {
    if a_cols == 0 || out_rows / a_cols == 0 {
        seq![]
    } else {
        flat_map_entries(es, rmul_dense_rm_fn(data, a_cols, out_rows))
    }
}

/// Dense block diagonal right multiplication with row-major data.
fn multiply_dense_block_diagonal_right_rowmajor<V: Scalar>(
    data: &Vec<V>,
    a_rows: usize,
    a_cols: usize,
    lhs: &SparseTensor<V>,
    output_rows: usize,
    ctx: &ProcessingContext,
) -> (t: SparseTensor<V>)
    requires
        ops_total::<V>(),
        ctx@.valid(),
        lhs.wf(),
        data@.len() == a_rows * a_cols,
        output_rows <= i64::MAX,
        a_cols > 0 && output_rows / a_cols > 0 ==> right_rows_fit(
            lhs.entries(),
            (output_rows / a_cols) as int,
            a_rows as int,
            true,
        ),
    ensures
        t.wf(),
        t.shape == (output_rows, ctx@.var_cols()),
        t.rows_in_range(),
        exact::<V>() ==> t.entries() == rmul_dense_row_major(
            data@,
            a_cols as int,
            output_rows as int,
            lhs.entries(),
        ),
{
    let var_cols = ctx.var_cols();
    if a_cols == 0 {
        return SparseTensor::empty((output_rows, var_cols));
    }
    let k = output_rows / a_cols;
    if k == 0 {
        return SparseTensor::empty((output_rows, var_cols));
    }
    let ghost f = rmul_dense_rm_fn(data@, a_cols as int, output_rows as int);
    let ghost es = lhs.entries();
    let dlen = data.len();
    let mut result = SparseTensor::with_capacity((output_rows, var_cols), 0);
    let n = lhs.nnz();
    let mut idx: usize = 0;
    while idx < n
        invariant
            ops_total::<V>(),
            lhs.wf(),
            es == lhs.entries(),
            n == es.len(),
            idx <= n,
            a_cols > 0,
            k > 0,
            k == output_rows / a_cols,
            output_rows <= i64::MAX,
            data@.len() == a_rows * a_cols,
            dlen == data@.len(),
            right_rows_fit(es, k as int, a_rows as int, true),
            f == rmul_dense_rm_fn(data@, a_cols as int, output_rows as int),
            result.wf(),
            result.shape == (output_rows, var_cols),
            result.rows_in_range(),
            exact::<V>() ==> result.entries() == flat_map_entries(es.subrange(0, idx as int), f),
        decreases n - idx,
    {
        let ghost e = es[idx as int];
        assert(e == (lhs.data@[idx as int], lhs.rows@[idx as int], lhs.cols@[idx as int], lhs.param_offsets@[idx as int]));
        assert(0 <= e.1 <= usize::MAX);
        let lhs_row = lhs.rows[idx] as usize;
        let lhs_col = lhs.cols[idx];
        let lhs_val = lhs.data[idx];
        let lhs_param = lhs.param_offsets[idx];
        let row_in_x = lhs_row % k;
        let col_in_x = lhs_row / k;
        let ghost base = result.entries();
        let mut j: usize = 0;
        while j < a_cols
            invariant
                ops_total::<V>(),
                0 < a_cols,
                k > 0,
                k == output_rows / a_cols,
                output_rows <= i64::MAX,
                j <= a_cols,
                data@.len() == a_rows * a_cols,
                dlen == data@.len(),
                e.1 == lhs_row,
                e.0 == lhs_val,
                e.2 == lhs_col,
                e.3 == lhs_param,
                row_in_x == (e.1 as int) % (k as int),
                col_in_x == (e.1 as int) / (k as int),
                col_in_x < a_rows,
                result.wf(),
                result.shape == (output_rows, var_cols),
                result.rows_in_range(),
                exact::<V>() ==> result.entries() == base + rmul_dense_rm_cols(
                    data@,
                    a_cols as int,
                    k as int,
                    e,
                    j as int,
                ),
            decreases a_cols - j,
        {
            proof {
                lemma_right_bounds(e.1 as int, k as int, a_rows as int, a_cols as int, output_rows as int, j as int);
            }
            let a_val = data[col_in_x * a_cols + j];
            if !is_zero(&a_val) {
                let new_row = (j * k + row_in_x) as i64;
                result.push(a_val.mul(lhs_val), new_row, lhs_col, lhs_param);
            }
            j = j + 1;
        }
        proof {
            lemma_flat_map_step(es, f, idx as int);
        }
        idx = idx + 1;
    }
    assert(es.subrange(0, n as int) =~= es);
    result
}


/// Within stored positions `lo..hi` of column `j` of a CSC `A`, the elements
/// in row `r / k`, each contributing `A[r / k, j] * v` to output row
/// `j * k + r % k`.
pub open spec fn rmul_sparse_pos<V: Scalar>(
    values: Seq<V>,
    row_indices: Seq<i64>,
    k: int,
    e: Entry<V>,
    j: int,
    lo: int,
    hi: int,
) -> Seq<Entry<V>>
    decreases hi - lo,
{
    if hi <= lo {
        seq![]
    } else {
        let prev = rmul_sparse_pos(values, row_indices, k, e, j, lo, hi - 1);
        let t = hi - 1;
        let a = values[t];
        if row_indices[t] == (e.1 as int) / k && !is_zero_spec(a) {
            prev.push((a.mul_spec(e.0), (j * k + (e.1 as int) % k) as i64, e.2, e.3))
        } else {
            prev
        }
    }
}

/// The image of one entry of `vec(X)` under `X @ A`, `A` in CSC form, for
/// the first `m` columns of `A`.
pub open spec fn rmul_sparse_cols<V: Scalar>(
    values: Seq<V>,
    row_indices: Seq<i64>,
    col_indptr: Seq<i64>,
    k: int,
    e: Entry<V>,
    m: int,
) -> Seq<Entry<V>>
    decreases m,
{
    if m <= 0 {
        seq![]
    } else {
        let j = m - 1;
        rmul_sparse_cols(values, row_indices, col_indptr, k, e, m - 1) + if j < col_indptr.len()
            - 1 {
            rmul_sparse_pos(
                values,
                row_indices,
                k,
                e,
                j,
                col_indptr[j] as int,
                col_indptr[j + 1] as int,
            )
        } else {
            seq![]
        }
    }
}

/// The image of one entry of `vec(X)` under `X @ A`, `A` in CSC form.
pub open spec fn rmul_sparse_fn<V: Scalar>(
    values: Seq<V>,
    row_indices: Seq<i64>,
    col_indptr: Seq<i64>,
    a_cols: int,
    out_rows: int,
) -> spec_fn(Entry<V>) -> Seq<Entry<V>> {
    |e: Entry<V>| rmul_sparse_cols(values, row_indices, col_indptr, out_rows / a_cols, e, a_cols)
}

/// `vec(X @ A)` from `vec(X)` with `A` in CSC form.
pub open spec fn rmul_sparse<V: Scalar>(
    values: Seq<V>,
    row_indices: Seq<i64>,
    col_indptr: Seq<i64>,
    a_cols: int,
    out_rows: int,
    es: Seq<Entry<V>>,
) -> Seq<Entry<V>> {
    if a_cols == 0 || out_rows / a_cols == 0 {
        seq![]
    } else {
        flat_map_entries(es, rmul_sparse_fn(values, row_indices, col_indptr, a_cols, out_rows))
    }
}

/// Sparse block diagonal right multiplication.
fn multiply_sparse_block_diagonal_right<V: Scalar>(
    values: &Vec<V>,
    row_indices: &Vec<i64>,
    col_indptr: &Vec<i64>,
    a_rows: usize,
    a_cols: usize,
    lhs: &SparseTensor<V>,
    output_rows: usize,
    ctx: &ProcessingContext,
) -> (t: SparseTensor<V>)
    requires
        ops_total::<V>(),
        ctx@.valid(),
        lhs.wf(),
        csc_matrix_valid(values@, row_indices@, col_indptr@, a_rows as int, a_cols as int),
        output_rows <= i64::MAX,
        a_cols > 0 && output_rows / a_cols > 0 ==> right_rows_fit(
            lhs.entries(),
            (output_rows / a_cols) as int,
            a_rows as int,
            false,
        ),
    ensures
        t.wf(),
        t.shape == (output_rows, ctx@.var_cols()),
        t.rows_in_range(),
        exact::<V>() ==> t.entries() == rmul_sparse(
            values@,
            row_indices@,
            col_indptr@,
            a_cols as int,
            output_rows as int,
            lhs.entries(),
        ),
{
    let var_cols = ctx.var_cols();
    if a_cols == 0 {
        return SparseTensor::empty((output_rows, var_cols));
    }
    let k = output_rows / a_cols;
    if k == 0 {
        return SparseTensor::empty((output_rows, var_cols));
    }
    let ghost f = rmul_sparse_fn(values@, row_indices@, col_indptr@, a_cols as int, output_rows as int);
    let ghost es = lhs.entries();
    let vlen = values.len();
    let mut result = SparseTensor::with_capacity((output_rows, var_cols), 0);
    let n = lhs.nnz();
    let mut idx: usize = 0;
    while idx < n
        invariant
            ops_total::<V>(),
            lhs.wf(),
            es == lhs.entries(),
            n == es.len(),
            idx <= n,
            a_cols > 0,
            k > 0,
            k == output_rows / a_cols,
            output_rows <= i64::MAX,
            csc_matrix_valid(values@, row_indices@, col_indptr@, a_rows as int, a_cols as int),
            vlen == values@.len(),
            right_rows_fit(es, k as int, a_rows as int, false),
            f == rmul_sparse_fn(values@, row_indices@, col_indptr@, a_cols as int, output_rows as int),
            result.wf(),
            result.shape == (output_rows, var_cols),
            result.rows_in_range(),
            exact::<V>() ==> result.entries() == flat_map_entries(es.subrange(0, idx as int), f),
        decreases n - idx,
    {
        let ghost e = es[idx as int];
        assert(e == (lhs.data@[idx as int], lhs.rows@[idx as int], lhs.cols@[idx as int], lhs.param_offsets@[idx as int]));
        assert(0 <= e.1 <= usize::MAX);
        let lhs_row = lhs.rows[idx] as usize;
        let lhs_col = lhs.cols[idx];
        let lhs_val = lhs.data[idx];
        let lhs_param = lhs.param_offsets[idx];
        let row_in_x = lhs_row % k;
        let col_in_x = lhs_row / k;
        let ghost base = result.entries();
        let mut j: usize = 0;
        while j < a_cols
            invariant
                ops_total::<V>(),
                0 < a_cols,
                k > 0,
                k == output_rows / a_cols,
                output_rows <= i64::MAX,
                j <= a_cols,
                csc_matrix_valid(values@, row_indices@, col_indptr@, a_rows as int, a_cols as int),
                vlen == values@.len(),
                e.1 == lhs_row,
                e.0 == lhs_val,
                e.2 == lhs_col,
                e.3 == lhs_param,
                row_in_x == (e.1 as int) % (k as int),
                col_in_x == (e.1 as int) / (k as int),
                result.wf(),
                result.shape == (output_rows, var_cols),
                result.rows_in_range(),
                exact::<V>() ==> result.entries() == base + rmul_sparse_cols(
                    values@,
                    row_indices@,
                    col_indptr@,
                    k as int,
                    e,
                    j as int,
                ),
            decreases a_cols - j,
        {
            proof {
                lemma_right_bounds(e.1 as int, k as int, a_rows as int, a_cols as int, output_rows as int, j as int);
            }
            let ghost mid = result.entries();
            if j < col_indptr.len() - 1 {
                assert(0 <= col_indptr@[j as int] <= vlen);
                assert(0 <= col_indptr@[j + 1] <= vlen);
                let start = col_indptr[j] as usize;
                let end = col_indptr[j + 1] as usize;
                let mut nnz_idx: usize = start;
                while nnz_idx < end
                    invariant
                        ops_total::<V>(),
                        k > 0,
                        csc_matrix_valid(values@, row_indices@, col_indptr@, a_rows as int, a_cols as int),
                        vlen == values@.len(),
                        end <= vlen,
                        start <= nnz_idx,
                        start < end ==> nnz_idx <= end,
                        end <= start ==> nnz_idx == start,
                        e.1 == lhs_row,
                        e.0 == lhs_val,
                        e.2 == lhs_col,
                        e.3 == lhs_param,
                        row_in_x == (e.1 as int) % (k as int),
                        col_in_x == (e.1 as int) / (k as int),
                        0 <= j * k + row_in_x < output_rows,
                        output_rows <= i64::MAX,
                        result.wf(),
                        result.shape == (output_rows, var_cols),
                        result.rows_in_range(),
                        exact::<V>() ==> result.entries() == mid + rmul_sparse_pos(
                            values@,
                            row_indices@,
                            k as int,
                            e,
                            j as int,
                            start as int,
                            nnz_idx as int,
                        ),
                    decreases end - nnz_idx,
                {
                    assert(0 <= row_indices@[nnz_idx as int] < a_rows);
                    if row_indices[nnz_idx] as usize == col_in_x {
                        let a_val = values[nnz_idx];
                        if !is_zero(&a_val) {
                            let new_row = (j * k + row_in_x) as i64;
                            result.push(a_val.mul(lhs_val), new_row, lhs_col, lhs_param);
                        }
                    }
                    nnz_idx = nnz_idx + 1;
                }
                proof {
                    if end <= start {
                        assert(rmul_sparse_pos(values@, row_indices@, k as int, e, j as int, start as int, end as int) =~= Seq::<Entry<V>>::empty());
                    }
                }
            }
            proof {
                if exact::<V>() {
                    assert(result.entries() =~= base + rmul_sparse_cols(values@, row_indices@, col_indptr@, k as int, e, j + 1));
                }
            }
            j = j + 1;
        }
        proof {
            lemma_flat_map_step(es, f, idx as int);
        }
        idx = idx + 1;
    }
    assert(es.subrange(0, n as int) =~= es);
    result
}

/// `vec(X @ A)` for a constant matrix `A` and an output of `out_rows`
/// elements; a scalar multiplies every value.
pub open spec fn rmul_entries<V: Scalar>(rhs: MatrixView<V>, out_rows: int, es: Seq<Entry<V>>) -> Seq<
    Entry<V>,
> {
    match rhs {
        MatrixView::Scalar(s) => scaled_entries(es, s),
        MatrixView::DenseColMajor(data, rows, cols) => rmul_dense_col_major(
            data,
            rows,
            cols,
            out_rows,
            es,
        ),
        MatrixView::DenseRowMajor(data, _, cols) => rmul_dense_row_major(data, cols, out_rows, es),
        MatrixView::Sparse(values, row_indices, col_indptr, _, cols) => rmul_sparse(
            values,
            row_indices,
            col_indptr,
            cols,
            out_rows,
            es,
        ),
    }
}

/// What `multiply_block_diagonal_right` needs of the rows of its argument.
pub open spec fn right_fits<V>(rhs: MatrixView<V>, out_rows: int, es: Seq<Entry<V>>) -> bool {
    let (a_rows, a_cols) = rhs.dims();
    !(rhs is Scalar) && a_cols > 0 && out_rows / a_cols > 0 ==> right_rows_fit(
        es,
        out_rows / a_cols,
        a_rows,
        !(rhs is Sparse),
    )
}

/// Block diagonal multiplication from right: `vec(X @ A)` from `vec(X)`,
/// with an output of `output_rows` elements.
pub fn multiply_block_diagonal_right<V: Scalar>(
    lhs: &SparseTensor<V>,
    rhs: &ConstantMatrix<V>,
    output_rows: usize,
    ctx: &ProcessingContext,
) -> (t: SparseTensor<V>)
    requires
        ops_total::<V>(),
        ctx@.valid(),
        lhs.wf(),
        rhs@.valid(),
        output_rows <= i64::MAX,
        right_fits(rhs@, output_rows as int, lhs.entries()),
        rhs@ is Scalar ==> lhs.rows_in_range() && lhs.shape.0 <= output_rows,
    ensures
        t.wf(),
        t.shape == (output_rows, ctx@.var_cols()),
        t.rows_in_range(),
        exact::<V>() ==> t.entries() == rmul_entries(rhs@, output_rows as int, lhs.entries()),
{
    match rhs {
        ConstantMatrix::Scalar(s) => scaled_copy(lhs, *s, (output_rows, ctx.var_cols())),
        ConstantMatrix::DenseColMajor { data, rows, cols } => {
            multiply_dense_block_diagonal_right_colmajor(data, *rows, *cols, lhs, output_rows, ctx)
        },
        ConstantMatrix::DenseRowMajor { data, rows, cols } => {
            multiply_dense_block_diagonal_right_rowmajor(data, *rows, *cols, lhs, output_rows, ctx)
        },
        ConstantMatrix::Sparse { values, row_indices, col_indptr, rows, cols } => {
            multiply_sparse_block_diagonal_right(
                values,
                row_indices,
                col_indptr,
                *rows,
                *cols,
                lhs,
                output_rows,
                ctx,
            )
        },
    }
}


// ---------------------------------------------------------------------------
// Constant times identity: the Jacobian of `A @ x` is `A`
// ---------------------------------------------------------------------------

/// Number of non-zero elements among the first `k`.
pub open spec fn count_nonzero<V: Scalar>(data: Seq<V>, k: int) -> int
    decreases k,
{
    if k <= 0 {
        0
    } else {
        count_nonzero(data, k - 1) + if is_zero_spec(data[k - 1]) {
            0int
        } else {
            1int
        }
    }
}

proof fn lemma_count_nonzero<V: Scalar>(data: Seq<V>, k: int)
    requires
        0 <= k,
    ensures
        0 <= count_nonzero(data, k) <= k,
        count_nonzero(data, k) == k ==> forall|i: int| 0 <= i < k ==> !is_zero_spec(#[trigger] data[i]),
    decreases k,
{
    if k > 0 {
        lemma_count_nonzero(data, k - 1);
    }
}

/// The non-zero elements among the first `k` of a row-major matrix with
/// `cols` columns, as entries `(value, row, off + column, slot)`.
pub open spec fn row_major_entries<V: Scalar>(
    data: Seq<V>,
    cols: int,
    off: int,
    slot: i64,
    k: int,
) -> Seq<Entry<V>>
    decreases k,
{
    if k <= 0 {
        seq![]
    } else {
        let prev = row_major_entries(data, cols, off, slot, k - 1);
        let q = k - 1;
        if is_zero_spec(data[q]) {
            prev
        } else {
            prev.push((data[q], (q / cols) as i64, (off + q % cols) as i64, slot))
        }
    }
}

/// The non-zero elements at stored positions `lo..hi` of column `j` of a CSC
/// matrix, as entries `(value, row, off + j, slot)`.
pub open spec fn csc_placed_column<V: Scalar>(
    values: Seq<V>,
    row_indices: Seq<i64>,
    j: int,
    off: int,
    slot: i64,
    lo: int,
    hi: int,
) -> Seq<Entry<V>>
    decreases hi - lo,
{
    if hi <= lo {
        seq![]
    } else {
        let prev = csc_placed_column(values, row_indices, j, off, slot, lo, hi - 1);
        let t = hi - 1;
        if is_zero_spec(values[t]) {
            prev
        } else {
            prev.push((values[t], row_indices[t], (off + j) as i64, slot))
        }
    }
}

/// The non-zero elements of the first `m` columns of a CSC matrix, placed at
/// column offset `off`.
pub open spec fn csc_placed<V: Scalar>(
    values: Seq<V>,
    row_indices: Seq<i64>,
    col_indptr: Seq<i64>,
    off: int,
    slot: i64,
    m: int,
) -> Seq<Entry<V>>
    decreases m,
{
    if m <= 0 {
        seq![]
    } else {
        csc_placed(values, row_indices, col_indptr, off, slot, m - 1) + csc_placed_column(
            values,
            row_indices,
            m - 1,
            off,
            slot,
            col_indptr[m - 1] as int,
            col_indptr[m] as int,
        )
    }
}

/// One block of `A @ I`: `A`'s non-zero entries at their rows, in columns
/// `off + c` (for a scalar `s`, `s` at `(i, off + i)` for `i < n`).
pub open spec fn identity_block_entries<V: Scalar>(lhs: MatrixView<V>, off: int, n: int, slot: i64) -> Seq<
    Entry<V>,
> {
    match lhs {
        MatrixView::Scalar(s) => if is_zero_spec(s) {
            seq![]
        } else {
            Seq::new(n as nat, |i: int| (s, i as i64, (off + i) as i64, slot))
        },
        MatrixView::DenseColMajor(data, rows, cols) => dense_entries(data, rows, off, slot, rows * cols),
        MatrixView::DenseRowMajor(data, rows, cols) => row_major_entries(
            data,
            cols,
            off,
            slot,
            rows * cols,
        ),
        MatrixView::Sparse(values, row_indices, col_indptr, _, cols) => csc_placed(
            values,
            row_indices,
            col_indptr,
            off,
            slot,
            cols,
        ),
    }
}

/// Entries with their rows moved down by `d`.
pub open spec fn shift_rows<V>(es: Seq<Entry<V>>, d: int) -> Seq<Entry<V>> {
    Seq::new(es.len(), |i: int| (es[i].0, (es[i].1 + d) as i64, es[i].2, es[i].3))
}

/// The first `k` diagonal blocks of `kron(I, A)`: block `b` holds `A`'s
/// entries moved down by `b * a_rows` rows and over to columns
/// `off + b * a_cols + c`.
pub open spec fn identity_blocks<V: Scalar>(lhs: MatrixView<V>, off: int, slot: i64, k: int) -> Seq<Entry<V>>
    decreases k,
{
    if k <= 0 {
        seq![]
    } else {
        identity_blocks(lhs, off, slot, k - 1) + shift_rows(
            identity_block_entries(lhs, off + (k - 1) * lhs.dims().1, lhs.dims().1, slot),
            (k - 1) * lhs.dims().0,
        )
    }
}

/// `A` tiles an identity of width `n`: a scalar always does; a matrix when
/// it has columns and `n` is a multiple of them.
pub open spec fn identity_tiles<V>(lhs: MatrixView<V>, n: int) -> bool {
    match lhs {
        MatrixView::Scalar(_) => true,
        _ => lhs.dims().1 > 0 && n % lhs.dims().1 == 0,
    }
}

/// `A @ I` for an identity of width `n` at columns `off..off + n`: for a
/// scalar `s`, `s` on the diagonal; for a matrix that tiles the identity,
/// `kron(I_k, A)` with `k = n / a_cols`.
pub open spec fn mul_identity_entries<V: Scalar>(lhs: MatrixView<V>, off: int, n: int, slot: i64) -> Seq<
    Entry<V>,
> {
    match lhs {
        MatrixView::Scalar(_) => identity_block_entries(lhs, off, n, slot),
        _ => identity_blocks(lhs, off, slot, n / lhs.dims().1),
    }
}

/// The columns `off..off + n` of `A @ I` are representable.
pub open spec fn identity_offset_fits<V>(lhs: MatrixView<V>, off: int, n: int) -> bool {
    &&& lhs.valid()
    &&& 0 <= n <= i64::MAX
    &&& off + n <= i64::MAX
    &&& lhs.dims().0 <= i64::MAX
    &&& lhs.dims().1 <= i64::MAX
}

/// The rows of `A @ I` lie below `out_rows`, which is representable.
pub open spec fn identity_rows_fit<V>(lhs: MatrixView<V>, n: int, out_rows: int) -> bool {
    &&& out_rows <= i64::MAX
    &&& match lhs {
        MatrixView::Scalar(_) => n <= out_rows,
        _ => identity_tiles(lhs, n) ==> (n / lhs.dims().1) * lhs.dims().0 <= out_rows,
    }
}

/// One block of `A @ I` at columns from `off` is representable and its
/// rows lie below `out`.
pub open spec fn single_block_fits<V>(lhs: MatrixView<V>, off: int, n: int, out: int) -> bool {
    &&& lhs.valid()
    &&& match lhs {
        MatrixView::Scalar(_) => n <= i64::MAX && off + n <= i64::MAX && n <= out,
        _ => lhs.dims().0 <= i64::MAX && lhs.dims().1 <= i64::MAX && off + lhs.dims().1 <= i64::MAX
            && lhs.dims().0 <= out,
    }
}

/// One block of `A @ I` at `var_col_offset`: `A`'s entries with their
/// columns shifted by the offset; no multiplication is done.
fn identity_block<V: Scalar>(
    lhs: &ConstantMatrix<V>,
    var_col_offset: i64,
    n: usize,
    output_rows: usize,
    ctx: &ProcessingContext,
) -> (t: SparseTensor<V>)
    requires
        ops_total::<V>(),
        ctx@.valid(),
        single_block_fits(lhs@, var_col_offset as int, n as int, output_rows as int),
    ensures
        t.wf(),
        t.shape == (output_rows, ctx@.var_cols()),
        t.rows_in_range(),
        exact::<V>() ==> t.entries() == identity_block_entries(
            lhs@,
            var_col_offset as int,
            n as int,
            ctx@.const_param(),
        ),
{
    let param_offset = ctx.const_param();
    let out_shape = (output_rows, ctx.var_cols());
    match lhs {
        ConstantMatrix::Scalar(s) => {
            let s = *s;
            let mut result = SparseTensor::with_capacity(out_shape, n);
            if !is_zero(&s) {
                let mut i: usize = 0;
                while i < n
                    invariant
                        i <= n,
                        n <= i64::MAX,
                        var_col_offset + n <= i64::MAX,
                        n <= output_rows,
                        result.wf(),
                        result.shape == out_shape,
                        out_shape.0 == output_rows,
                        result.rows_in_range(),
                        result.entries() == Seq::new(
                            i as nat,
                            |q: int| (s, q as i64, (var_col_offset + q) as i64, param_offset),
                        ),
                    decreases n - i,
                {
                    result.push(s, i as i64, var_col_offset + i as i64, param_offset);
                    assert(result.entries() =~= Seq::new(
                        (i + 1) as nat,
                        |q: int| (s, q as i64, (var_col_offset + q) as i64, param_offset),
                    ));
                    i = i + 1;
                }
            } else {
                assert(result.entries() =~= Seq::<Entry<V>>::empty());
            }
            result
        },
        ConstantMatrix::DenseColMajor { data, rows: a_rows, cols: a_cols } => {
            let a_rows = *a_rows;
            let a_cols = *a_cols;
            let dlen = data.len();
            let total = a_rows * a_cols;
            let mut nnz_count: usize = 0;
            let mut q: usize = 0;
            while q < dlen
                invariant
                    q <= dlen,
                    dlen == data@.len(),
                    nnz_count <= q,
                    exact::<V>() ==> nnz_count == count_nonzero(data@, q as int),
                decreases dlen - q,
            {
                if !is_zero(&data[q]) {
                    nnz_count = nnz_count + 1;
                }
                q = q + 1;
            }
            proof {
                lemma_count_nonzero(data@, dlen as int);
            }
            let all_nonzero = nnz_count == total && total > 0;
            let mut result = SparseTensor::with_capacity(out_shape, nnz_count);
            let mut col: usize = 0;
            while col < a_cols
                invariant
                    ops_total::<V>(),
                    col <= a_cols,
                    dlen == data@.len(),
                    dlen == a_rows * a_cols,
                    total == a_rows * a_cols,
                    a_rows <= i64::MAX,
                    a_cols <= i64::MAX,
                    var_col_offset + a_cols <= i64::MAX,
                    exact::<V>() && all_nonzero ==> forall|i: int|
                        0 <= i < dlen ==> !is_zero_spec(#[trigger] data@[i]),
                    a_rows <= output_rows,
                    result.wf(),
                    result.shape == out_shape,
                        out_shape.0 == output_rows,
                    result.rows_in_range(),
                    exact::<V>() ==> result.entries() == dense_entries(
                        data@,
                        a_rows as int,
                        var_col_offset as int,
                        param_offset,
                        col * a_rows,
                    ),
                decreases a_cols - col,
            {
                let out_col = var_col_offset + col as i64;
                assert((col + 1) * a_rows <= a_cols * a_rows) by (nonlinear_arith)
                    requires
                        col < a_cols,
                ;
                assert(col * a_rows + a_rows == (col + 1) * a_rows) by (nonlinear_arith);
                let col_start = col * a_rows;
                let mut row: usize = 0;
                while row < a_rows
                    invariant
                        ops_total::<V>(),
                        row <= a_rows,
                        col < a_cols,
                        col_start == col * a_rows,
                        col_start + a_rows <= dlen,
                        dlen == data@.len(),
                        a_rows <= i64::MAX,
                        out_col == var_col_offset + col,
                        exact::<V>() && all_nonzero ==> forall|i: int|
                            0 <= i < dlen ==> !is_zero_spec(#[trigger] data@[i]),
                        a_rows <= output_rows,
                        result.wf(),
                        result.shape == out_shape,
                        out_shape.0 == output_rows,
                        result.rows_in_range(),
                        exact::<V>() ==> result.entries() == dense_entries(
                            data@,
                            a_rows as int,
                            var_col_offset as int,
                            param_offset,
                            col_start + row,
                        ),
                    decreases a_rows - row,
                {
                    proof {
                        lemma_col_major((col_start + row) as int, a_rows as int, col as int, row as int);
                    }
                    let val = data[col_start + row];
                    if all_nonzero {
                        result.push(val, row as i64, out_col, param_offset);
                    } else if !is_zero(&val) {
                        result.push(val, row as i64, out_col, param_offset);
                    }
                    row = row + 1;
                }
                col = col + 1;
            }
            proof {
                assert(a_cols * a_rows == a_rows * a_cols) by (nonlinear_arith);
            }
            result
        },
        ConstantMatrix::DenseRowMajor { data, rows: a_rows, cols: a_cols } => {
            let a_rows = *a_rows;
            let a_cols = *a_cols;
            let dlen = data.len();
            let mut result = SparseTensor::with_capacity(out_shape, 0);
            let mut row: usize = 0;
            while row < a_rows
                invariant
                    ops_total::<V>(),
                    row <= a_rows,
                    dlen == data@.len(),
                    dlen == a_rows * a_cols,
                    a_rows <= i64::MAX,
                    a_cols <= i64::MAX,
                    var_col_offset + a_cols <= i64::MAX,
                    a_rows <= output_rows,
                    result.wf(),
                    result.shape == out_shape,
                        out_shape.0 == output_rows,
                    result.rows_in_range(),
                    exact::<V>() ==> result.entries() == row_major_entries(
                        data@,
                        a_cols as int,
                        var_col_offset as int,
                        param_offset,
                        row * a_cols,
                    ),
                decreases a_rows - row,
            {
                assert((row + 1) * a_cols <= a_rows * a_cols) by (nonlinear_arith)
                    requires
                        row < a_rows,
                ;
                assert(row * a_cols + a_cols == (row + 1) * a_cols) by (nonlinear_arith);
                let row_start = row * a_cols;
                let mut col: usize = 0;
                while col < a_cols
                    invariant
                        ops_total::<V>(),
                        col <= a_cols,
                        row < a_rows,
                        row_start == row * a_cols,
                        row_start + a_cols <= dlen,
                        dlen == data@.len(),
                        a_rows <= i64::MAX,
                        a_cols <= i64::MAX,
                        var_col_offset + a_cols <= i64::MAX,
                        a_rows <= output_rows,
                        result.wf(),
                        result.shape == out_shape,
                        out_shape.0 == output_rows,
                        result.rows_in_range(),
                        exact::<V>() ==> result.entries() == row_major_entries(
                            data@,
                            a_cols as int,
                            var_col_offset as int,
                            param_offset,
                            row_start + col,
                        ),
                    decreases a_cols - col,
                {
                    proof {
                        lemma_col_major((row_start + col) as int, a_cols as int, row as int, col as int);
                    }
                    let val = data[row_start + col];
                    if !is_zero(&val) {
                        let out_col = var_col_offset + col as i64;
                        result.push(val, row as i64, out_col, param_offset);
                    }
                    col = col + 1;
                }
                row = row + 1;
            }
            result
        },
        ConstantMatrix::Sparse { values, row_indices, col_indptr, rows: a_rows_s, cols: a_cols } => {
            let a_rows_s = *a_rows_s;
            let a_cols = *a_cols;
            let vlen = values.len();
            let mut result = SparseTensor::with_capacity(out_shape, vlen);
            let mut col: usize = 0;
            while col < a_cols
                invariant
                    ops_total::<V>(),
                    col <= a_cols,
                    col_indptr@.len() == a_cols + 1,
                    row_indices@.len() == values@.len(),
                    vlen == values@.len(),
                    forall|k: int| 0 <= k < col_indptr@.len() ==> 0 <= #[trigger] col_indptr@[k] <= vlen,
                    a_cols <= i64::MAX,
                    var_col_offset + a_cols <= i64::MAX,
                    forall|k: int| 0 <= k < row_indices@.len() ==> 0 <= #[trigger] row_indices@[k] < a_rows_s,
                    a_rows_s <= output_rows,
                    result.wf(),
                    result.shape == out_shape,
                        out_shape.0 == output_rows,
                    result.rows_in_range(),
                    exact::<V>() ==> result.entries() == csc_placed(
                        values@,
                        row_indices@,
                        col_indptr@,
                        var_col_offset as int,
                        param_offset,
                        col as int,
                    ),
                decreases a_cols - col,
            {
                let out_col = var_col_offset + col as i64;
                assert(0 <= col_indptr@[col as int] <= vlen);
                assert(0 <= col_indptr@[col + 1] <= vlen);
                let start = col_indptr[col] as usize;
                let end = col_indptr[col + 1] as usize;
                let ghost base = result.entries();
                let mut idx: usize = start;
                while idx < end
                    invariant
                        ops_total::<V>(),
                        row_indices@.len() == values@.len(),
                        vlen == values@.len(),
                        end <= vlen,
                        start <= idx,
                        start < end ==> idx <= end,
                        end <= start ==> idx == start,
                        out_col == var_col_offset + col,
                        forall|k: int| 0 <= k < row_indices@.len() ==> 0 <= #[trigger] row_indices@[k] < a_rows_s,
                        a_rows_s <= output_rows,
                        result.wf(),
                        result.shape == out_shape,
                        out_shape.0 == output_rows,
                        result.rows_in_range(),
                        exact::<V>() ==> result.entries() == base + csc_placed_column(
                            values@,
                            row_indices@,
                            col as int,
                            var_col_offset as int,
                            param_offset,
                            start as int,
                            idx as int,
                        ),
                    decreases end - idx,
                {
                    let val = values[idx];
                    assert(0 <= row_indices@[idx as int] < a_rows_s);
                    if !is_zero(&val) {
                        result.push(val, row_indices[idx], out_col, param_offset);
                    }
                    idx = idx + 1;
                }
                proof {
                    if end <= start {
                        assert(csc_placed_column(values@, row_indices@, col as int, var_col_offset as int, param_offset, start as int, end as int) =~= Seq::<Entry<V>>::empty());
                    }
                }
                col = col + 1;
            }
            result
        },
    }
}

/// Fast path for `Mul(ConstantMatrix, Identity(n))` at `var_col_offset`:
/// `kron(I_k, A)` with `k = n / a_cols`, block `b` holding `A`'s entries
/// moved down by `b * a_rows` rows and over to columns
/// `var_col_offset + b * a_cols + c` (a scalar: its diagonal of width `n`).
/// No multiplication is done.  `None` when `A` does not tile the identity
/// (no columns, or `n` not a multiple of them).
pub fn mul_const_by_identity_offset<V: Scalar>(
    lhs: ConstantMatrix<V>,
    var_col_offset: i64,
    n: usize,
    output_rows: usize,
    ctx: &ProcessingContext,
) -> (r: Option<SparseTensor<V>>)
    requires
        ops_total::<V>(),
        ctx@.valid(),
        identity_offset_fits(lhs@, var_col_offset as int, n as int),
        identity_rows_fit(lhs@, n as int, output_rows as int),
    ensures
        r is Some <==> identity_tiles(lhs@, n as int),
        r matches Some(t) ==> {
            &&& t.wf()
            &&& t.shape == (output_rows, ctx@.var_cols())
            &&& t.rows_in_range()
            &&& exact::<V>() ==> t.entries() == mul_identity_entries(
                lhs@,
                var_col_offset as int,
                n as int,
                ctx@.const_param(),
            )
        },
{
    let (a_rows, a_cols) = lhs.dims();
    if let ConstantMatrix::Scalar(_) = lhs {
        return Some(identity_block(&lhs, var_col_offset, n, output_rows, ctx));
    }
    if a_cols == 0 || n % a_cols != 0 {
        return None;
    }
    let k = n / a_cols;
    let ghost m = lhs@;
    let ghost cp = ctx@.const_param();
    proof {
        assert(k * a_cols == n) by (nonlinear_arith)
            requires
                k == n / a_cols,
                n % a_cols == 0,
                a_cols > 0,
        ;
    }
    let mut result: SparseTensor<V> = SparseTensor::with_capacity((output_rows, ctx.var_cols()), 0);
    let mut b: usize = 0;
    while b < k
        invariant
            ops_total::<V>(),
            ctx@.valid(),
            m == lhs@,
            !(m is Scalar),
            m.dims() == (a_rows as int, a_cols as int),
            identity_offset_fits(m, var_col_offset as int, n as int),
            a_cols > 0,
            k * a_cols == n,
            k * a_rows <= output_rows,
            output_rows <= i64::MAX,
            cp == ctx@.const_param(),
            b <= k,
            result.wf(),
            result.shape == (output_rows, ctx@.var_cols()),
            result.rows_in_range(),
            exact::<V>() ==> result.entries() == identity_blocks(m, var_col_offset as int, cp, b as int),
        decreases k - b,
    {
        proof {
            assert((b + 1) * a_cols <= k * a_cols) by (nonlinear_arith)
                requires
                    b < k,
            ;
            assert((b + 1) * a_rows <= k * a_rows) by (nonlinear_arith)
                requires
                    b < k,
            ;
            assert(b * a_cols + a_cols == (b + 1) * a_cols) by (nonlinear_arith);
            assert(b * a_rows + a_rows == (b + 1) * a_rows) by (nonlinear_arith);
            assert(0 <= b * a_cols) by (nonlinear_arith);
            assert(0 <= b * a_rows) by (nonlinear_arith);
        }
        let col_base = var_col_offset + (b * a_cols) as i64;
        let row_base = (b * a_rows) as i64;
        let mut t = identity_block(&lhs, col_base, a_cols, a_rows, ctx);
        let ghost block = t.entries();
        proof {
            assert forall|q: int| 0 <= q < t.rows@.len() implies i64::MIN <= #[trigger] t.rows@[q] + row_base <= i64::MAX by {
                assert(0 <= t.rows@[q] < a_rows);
                assert(t.entries()[q].1 == t.rows@[q]);
            }
        }
        t.offset_rows_in_place(row_base);
        let ghost before = result;
        proof {
            assert(t.entries() =~= shift_rows(block, row_base as int));
        }
        let ghost shifted = t.entries();
        proof {
            assert forall|q: int| 0 <= q < t.rows@.len() implies row_base <= #[trigger] t.rows@[q] < row_base + a_rows by {
                assert(block[q].1 == t.rows@[q] - row_base);
            }
        }
        result.extend(t);
        proof {
            assert(result.entries() =~= before.entries() + shifted);
            assert forall|q: int| 0 <= q < result.rows@.len() implies 0 <= #[trigger] result.rows@[q] < result.shape.0 by {
                if q >= before.rows@.len() {
                    assert(result.rows@[q] == shifted[q - before.rows@.len()].1);
                }
            }
        }
        b = b + 1;
    }
    Some(result)
}

/// Fast path for `Mul(ConstantMatrix, Variable)`: `mul_const_by_identity_offset`
/// at the variable's columns.
pub fn mul_const_by_variable<V: Scalar>(
    lhs: ConstantMatrix<V>,
    var_id: i64,
    n: usize,
    output_rows: usize,
    ctx: &ProcessingContext,
) -> (r: Option<SparseTensor<V>>)
    requires
        ops_total::<V>(),
        ctx@.valid(),
        identity_offset_fits(lhs@, ctx@.var_col(var_id) as int, n as int),
        identity_rows_fit(lhs@, n as int, output_rows as int),
    ensures
        r is Some <==> identity_tiles(lhs@, n as int),
        r matches Some(t) ==> {
            &&& t.wf()
            &&& t.shape == (output_rows, ctx@.var_cols())
            &&& t.rows_in_range()
            &&& exact::<V>() ==> t.entries() == mul_identity_entries(
                lhs@,
                ctx@.var_col(var_id) as int,
                n as int,
                ctx@.const_param(),
            )
        },
{
    let var_col_offset = ctx.var_col(var_id);
    mul_const_by_identity_offset(lhs, var_col_offset, n, output_rows, ctx)
}


// ---------------------------------------------------------------------------
// The identity fast path is the general product
// ---------------------------------------------------------------------------

/// Multiplying by one, on either side, gives the value back.
pub open spec fn unit_law<V: Scalar>() -> bool {
    &&& forall|a: V| #[trigger] a.mul_spec(one_spec::<V>()) == a
    &&& forall|a: V| #[trigger] one_spec::<V>().mul_spec(a) == a
}

/// The non-zero elements of rows `0..r` of column `c` of a dense
/// column-major matrix with `rows` rows, at columns `off + c`.
pub open spec fn cm_column<V: Scalar>(data: Seq<V>, rows: int, off: int, slot: i64, c: int, r: int) -> Seq<
    Entry<V>,
>
    decreases r,
{
    if r <= 0 {
        seq![]
    } else {
        let prev = cm_column(data, rows, off, slot, c, r - 1);
        let p = c * rows + (r - 1);
        if is_zero_spec(data[p]) {
            prev
        } else {
            prev.push((data[p], (r - 1) as i64, (off + c) as i64, slot))
        }
    }
}

/// Moving rows down distributes over concatenation.
proof fn lemma_shift_concat<V>(a: Seq<Entry<V>>, b: Seq<Entry<V>>, d: int)
    ensures
        shift_rows(a + b, d) == shift_rows(a, d) + shift_rows(b, d),
{
    assert(shift_rows(a + b, d) =~= shift_rows(a, d) + shift_rows(b, d));
}

/// The dense entries of the first `c` columns and `r` more rows are those of
/// the first `c` columns followed by column `c`'s first `r` rows.
proof fn lemma_dense_column<V: Scalar>(data: Seq<V>, rows: int, off: int, slot: i64, c: int, r: int)
    requires
        rows > 0,
        c >= 0,
        0 <= r <= rows,
    ensures
        dense_entries(data, rows, off, slot, c * rows + r) == dense_entries(data, rows, off, slot, c * rows)
            + cm_column(data, rows, off, slot, c, r),
    decreases r,
{
    if r == 0 {
        assert(dense_entries(data, rows, off, slot, c * rows) + cm_column(data, rows, off, slot, c, 0)
            =~= dense_entries(data, rows, off, slot, c * rows));
    } else {
        lemma_dense_column(data, rows, off, slot, c, r - 1);
        let p = c * rows + (r - 1);
        assert(c * rows >= 0) by (nonlinear_arith)
            requires
                c >= 0,
                rows > 0,
        ;
        lemma_fundamental_div_mod_converse(p, rows, c, r - 1);
        let prev = dense_entries(data, rows, off, slot, c * rows);
        let col = cm_column(data, rows, off, slot, c, r - 1);
        if !is_zero_spec(data[p]) {
            assert((prev + col).push((data[p], (r - 1) as i64, (off + c) as i64, slot)) =~= prev + col.push(
                (data[p], (r - 1) as i64, (off + c) as i64, slot),
            ));
        }
    }
}

/// The image of identity entry `j = b * a_cols + c` under `kron(I, A)` is
/// column `c` of `A` moved down to block `b`, at the entry's column.
proof fn lemma_lmul_column<V: Scalar>(
    data: Seq<V>,
    a_rows: int,
    a_cols: int,
    out_rows: int,
    off: int,
    slot: i64,
    b: int,
    c: int,
    r: int,
)
    requires
        unit_law::<V>(),
        a_rows > 0,
        0 <= c < a_cols,
        b >= 0,
        (b + 1) * a_rows <= out_rows <= i64::MAX,
        b * a_cols + c <= i64::MAX,
        0 <= r <= a_rows,
    ensures
        lmul_dense_cm_rows(
            data,
            a_rows,
            a_cols,
            out_rows,
            (one_spec::<V>(), (b * a_cols + c) as i64, (off + b * a_cols + c) as i64, slot),
            r,
        ) == shift_rows(cm_column(data, a_rows, off + b * a_cols, slot, c, r), b * a_rows),
    decreases r,
{
    let j = b * a_cols + c;
    let e = (one_spec::<V>(), j as i64, (off + j) as i64, slot);
    if r == 0 {
        assert(shift_rows(Seq::<Entry<V>>::empty(), b * a_rows) =~= Seq::<Entry<V>>::empty());
    } else {
        lemma_lmul_column(data, a_rows, a_cols, out_rows, off, slot, b, c, r - 1);
        let i = r - 1;
        assert(0 <= b * a_cols) by (nonlinear_arith)
            requires
                b >= 0,
                a_cols > 0,
        ;
        lemma_fundamental_div_mod_converse(j, a_cols, b, c);
        assert(b * a_rows + i < (b + 1) * a_rows) by (nonlinear_arith)
            requires
                i < a_rows,
        ;
        assert(0 <= b * a_rows) by (nonlinear_arith)
            requires
                b >= 0,
                a_rows > 0,
        ;
        let prev = cm_column(data, a_rows, off + b * a_cols, slot, c, r - 1);
        let p = c * a_rows + i;
        if !is_zero_spec(data[p]) {
            let x = (data[p], i as i64, (off + b * a_cols + c) as i64, slot);
            assert(shift_rows(prev.push(x), b * a_rows) =~= shift_rows(prev, b * a_rows).push(
                (data[p], (i + b * a_rows) as i64, (off + b * a_cols + c) as i64, slot),
            ));
            assert(data[p].mul_spec(one_spec::<V>()) == data[p]);
        }
    }
}

/// A matrix with no rows contributes no entries to any block.
proof fn lemma_identity_blocks_empty<V: Scalar>(m: MatrixView<V>, off: int, slot: i64, k: int)
    requires
        m is DenseColMajor,
        m.dims().0 == 0,
    ensures
        identity_blocks(m, off, slot, k) == Seq::<Entry<V>>::empty(),
    decreases k,
{
    if k > 0 {
        lemma_identity_blocks_empty(m, off, slot, k - 1);
        let (data, rows, cols) = (m->DenseColMajor_0, m->DenseColMajor_1, m->DenseColMajor_2);
        assert(rows * cols == 0);
        let blk = identity_block_entries(m, off + (k - 1) * cols, cols, slot);
        assert(blk == Seq::<Entry<V>>::empty());
        assert(shift_rows(blk, (k - 1) * rows) =~= Seq::<Entry<V>>::empty());
        assert(identity_blocks(m, off, slot, k) =~= Seq::<Entry<V>>::empty());
    }
}

/// The general product over the first `j` identity entries: the whole
/// blocks before `j`'s block, then the columns of `j`'s block before it.
#[verifier::spinoff_prover]
#[verifier::rlimit(30)]
proof fn lemma_identity_prefix<V: Scalar>(m: MatrixView<V>, off: int, slot: i64, out_rows: int, n: int, j: int)
    requires
        unit_law::<V>(),
        m is DenseColMajor,
        m.valid(),
        m.dims().0 > 0,
        m.dims().1 > 0,
        n % m.dims().1 == 0,
        0 <= j <= n <= i64::MAX,
        (n / m.dims().1) * m.dims().0 <= out_rows <= i64::MAX,
    ensures
        ({
            let (a_rows, a_cols) = m.dims();
            let data = m->DenseColMajor_0;
            flat_map_entries(
                identity_entries::<V>(j, off, slot),
                lmul_dense_cm_fn(data, a_rows, a_cols, out_rows),
            ) == identity_blocks(m, off, slot, j / a_cols) + shift_rows(
                dense_entries(data, a_rows, off + (j / a_cols) * a_cols, slot, (j % a_cols) * a_rows),
                (j / a_cols) * a_rows,
            )
        }),
    decreases j,
{
    let (a_rows, a_cols) = m.dims();
    let data = m->DenseColMajor_0;
    let f = lmul_dense_cm_fn(data, a_rows, a_cols, out_rows);
    if j == 0 {
        assert(identity_entries::<V>(0, off, slot) =~= Seq::<Entry<V>>::empty());
        assert(shift_rows(Seq::<Entry<V>>::empty(), 0) =~= Seq::<Entry<V>>::empty());
        assert(identity_blocks(m, off, slot, 0) + Seq::<Entry<V>>::empty() =~= Seq::<Entry<V>>::empty());
    } else {
        let i = j - 1;
        lemma_identity_prefix(m, off, slot, out_rows, n, i);
        let b = i / a_cols;
        let c = i % a_cols;
        lemma_fundamental_div_mod(i, a_cols);
        assert(b * a_cols + c == i) by (nonlinear_arith)
            requires
                i == a_cols * b + c,
        ;
        assert(identity_entries::<V>(j, off, slot).drop_last() =~= identity_entries::<V>(i, off, slot));
        let e = identity_entries::<V>(j, off, slot).last();
        assert(e == (one_spec::<V>(), i as i64, (off + i) as i64, slot));
        assert(e == (one_spec::<V>(), (b * a_cols + c) as i64, (off + b * a_cols + c) as i64, slot));
        let k = n / a_cols;
        lemma_fundamental_div_mod(n, a_cols);
        assert(b < k) by (nonlinear_arith)
            requires
                i < n,
                i == a_cols * b + c,
                n == a_cols * k,
                0 <= c,
                a_cols > 0,
        ;
        assert((b + 1) * a_rows <= k * a_rows) by (nonlinear_arith)
            requires
                b < k,
                a_rows > 0,
        ;
        assert(b >= 0) by (nonlinear_arith)
            requires
                i >= 0,
                i == a_cols * b + c,
                c < a_cols,
                a_cols > 0,
        ;
        lemma_lmul_column(data, a_rows, a_cols, out_rows, off, slot, b, c, a_rows);
        lemma_dense_column(data, a_rows, off + b * a_cols, slot, c, a_rows);
        let before = identity_blocks(m, off, slot, b);
        let de = dense_entries(data, a_rows, off + b * a_cols, slot, c * a_rows);
        let col = cm_column(data, a_rows, off + b * a_cols, slot, c, a_rows);
        lemma_shift_concat(de, col, b * a_rows);
        assert(c * a_rows + a_rows == (c + 1) * a_rows) by (nonlinear_arith);
        let fi = flat_map_entries(identity_entries::<V>(i, off, slot), f);
        let fj = flat_map_entries(identity_entries::<V>(j, off, slot), f);
        assert(fj == fi + f(e));
        assert(f(e) == lmul_dense_cm_rows(data, a_rows, a_cols, out_rows, e, a_rows));
        assert(f(e) == shift_rows(col, b * a_rows));
        assert(fi == before + shift_rows(de, b * a_rows));
        assert(fj == before + shift_rows(de + col, b * a_rows)) by {
            assert(before + shift_rows(de, b * a_rows) + shift_rows(col, b * a_rows) =~= before
                + shift_rows(de + col, b * a_rows));
        }
        assert(de + col == dense_entries(data, a_rows, off + b * a_cols, slot, (c + 1) * a_rows));
        if c + 1 < a_cols {
            lemma_fundamental_div_mod_converse(j, a_cols, b, c + 1);
            assert(j / a_cols == b && j % a_cols == c + 1);
        } else {
            assert((b + 1) * a_cols == a_cols * b + a_cols) by (nonlinear_arith);
            lemma_fundamental_div_mod_converse(j, a_cols, b + 1, 0);
            assert(j / a_cols == b + 1 && j % a_cols == 0);
            assert(a_cols * a_rows == a_rows * a_cols) by (nonlinear_arith);
            assert((c + 1) * a_rows == a_rows * a_cols);
            let blk = identity_block_entries(m, off + b * a_cols, a_cols, slot);
            assert(blk == dense_entries(data, a_rows, off + b * a_cols, slot, a_rows * a_cols));
            assert(blk == de + col);
            assert(identity_blocks(m, off, slot, b + 1) == before + shift_rows(blk, b * a_rows));
            assert(dense_entries(data, a_rows, off + (b + 1) * a_cols, slot, 0 * a_rows) =~= Seq::<Entry<V>>::empty());
            assert(shift_rows(Seq::<Entry<V>>::empty(), (b + 1) * a_rows) =~= Seq::<Entry<V>>::empty());
            assert(identity_blocks(m, off, slot, b + 1) + Seq::<Entry<V>>::empty() =~= identity_blocks(
                m,
                off,
                slot,
                b + 1,
            ));
        }
    }
}

/// The image of identity entry `j = b * a_cols + c` under `kron(I, A)`,
/// `A` in CSC form, over the stored positions `lo..hi`: those positions of
/// column `c` moved down to block `b`, at the entry's column.
proof fn lemma_lmul_sparse_column<V: Scalar>(
    values: Seq<V>,
    row_indices: Seq<i64>,
    a_rows: int,
    a_cols: int,
    off: int,
    slot: i64,
    b: int,
    c: int,
    lo: int,
    hi: int,
)
    requires
        unit_law::<V>(),
        0 <= c < a_cols,
        b >= 0,
        0 <= b * a_cols + c <= i64::MAX,
    ensures
        lmul_sparse_rows(
            values,
            row_indices,
            a_rows,
            a_cols,
            (one_spec::<V>(), (b * a_cols + c) as i64, (off + b * a_cols + c) as i64, slot),
            lo,
            hi,
        ) == shift_rows(csc_placed_column(values, row_indices, c, off + b * a_cols, slot, lo, hi), b * a_rows),
    decreases hi - lo,
{
    let j = b * a_cols + c;
    if hi <= lo {
        assert(shift_rows(Seq::<Entry<V>>::empty(), b * a_rows) =~= Seq::<Entry<V>>::empty());
    } else {
        lemma_lmul_sparse_column(values, row_indices, a_rows, a_cols, off, slot, b, c, lo, hi - 1);
        assert(0 <= b * a_cols) by (nonlinear_arith)
            requires
                b >= 0,
                a_cols > 0,
        ;
        lemma_fundamental_div_mod_converse(j, a_cols, b, c);
        let t = hi - 1;
        let prev = csc_placed_column(values, row_indices, c, off + b * a_cols, slot, lo, t);
        if !is_zero_spec(values[t]) {
            let x = (values[t], row_indices[t], (off + b * a_cols + c) as i64, slot);
            assert(shift_rows(prev.push(x), b * a_rows) =~= shift_rows(prev, b * a_rows).push(
                (values[t], (row_indices[t] + b * a_rows) as i64, (off + b * a_cols + c) as i64, slot),
            ));
            assert(values[t].mul_spec(one_spec::<V>()) == values[t]);
        }
    }
}

/// The general product over the first `j` identity entries, `A` in CSC
/// form: the whole blocks before `j`'s block, then the columns of `j`'s
/// block before it.
#[verifier::spinoff_prover]
#[verifier::rlimit(30)]
proof fn lemma_identity_prefix_sparse<V: Scalar>(m: MatrixView<V>, off: int, slot: i64, n: int, j: int)
    requires
        unit_law::<V>(),
        m is Sparse,
        m.valid(),
        m.dims().1 > 0,
        n % m.dims().1 == 0,
        0 <= j <= n <= i64::MAX,
    ensures
        ({
            let (a_rows, a_cols) = m.dims();
            let values = m->Sparse_0;
            let row_indices = m->Sparse_1;
            let col_indptr = m->Sparse_2;
            flat_map_entries(
                identity_entries::<V>(j, off, slot),
                lmul_sparse_fn(values, row_indices, col_indptr, a_rows, a_cols),
            ) == identity_blocks(m, off, slot, j / a_cols) + shift_rows(
                csc_placed(values, row_indices, col_indptr, off + (j / a_cols) * a_cols, slot, j % a_cols),
                (j / a_cols) * a_rows,
            )
        }),
    decreases j,
{
    let (a_rows, a_cols) = m.dims();
    let values = m->Sparse_0;
    let row_indices = m->Sparse_1;
    let col_indptr = m->Sparse_2;
    let f = lmul_sparse_fn(values, row_indices, col_indptr, a_rows, a_cols);
    if j == 0 {
        assert(identity_entries::<V>(0, off, slot) =~= Seq::<Entry<V>>::empty());
        assert(shift_rows(Seq::<Entry<V>>::empty(), 0) =~= Seq::<Entry<V>>::empty());
        assert(identity_blocks(m, off, slot, 0) + Seq::<Entry<V>>::empty() =~= Seq::<Entry<V>>::empty());
    } else {
        let i = j - 1;
        lemma_identity_prefix_sparse(m, off, slot, n, i);
        let b = i / a_cols;
        let c = i % a_cols;
        lemma_fundamental_div_mod(i, a_cols);
        assert(b * a_cols + c == i) by (nonlinear_arith)
            requires
                i == a_cols * b + c,
        ;
        assert(b >= 0) by (nonlinear_arith)
            requires
                i >= 0,
                i == a_cols * b + c,
                c < a_cols,
                a_cols > 0,
        ;
        assert(identity_entries::<V>(j, off, slot).drop_last() =~= identity_entries::<V>(i, off, slot));
        let e = identity_entries::<V>(j, off, slot).last();
        assert(e == (one_spec::<V>(), i as i64, (off + i) as i64, slot));
        assert(e == (one_spec::<V>(), (b * a_cols + c) as i64, (off + b * a_cols + c) as i64, slot));
        lemma_fundamental_div_mod_converse(i, a_cols, b, c);
        let lo = col_indptr[c] as int;
        let hi = col_indptr[c + 1] as int;
        lemma_lmul_sparse_column(values, row_indices, a_rows, a_cols, off, slot, b, c, lo, hi);
        let before = identity_blocks(m, off, slot, b);
        let placed = csc_placed(values, row_indices, col_indptr, off + b * a_cols, slot, c);
        let col = csc_placed_column(values, row_indices, c, off + b * a_cols, slot, lo, hi);
        lemma_shift_concat(placed, col, b * a_rows);
        let fi = flat_map_entries(identity_entries::<V>(i, off, slot), f);
        let fj = flat_map_entries(identity_entries::<V>(j, off, slot), f);
        assert(fj == fi + f(e));
        assert(f(e) == shift_rows(col, b * a_rows));
        assert(fi == before + shift_rows(placed, b * a_rows));
        assert(fj == before + shift_rows(placed + col, b * a_rows)) by {
            assert(before + shift_rows(placed, b * a_rows) + shift_rows(col, b * a_rows) =~= before
                + shift_rows(placed + col, b * a_rows));
        }
        assert(placed + col == csc_placed(values, row_indices, col_indptr, off + b * a_cols, slot, c + 1));
        if c + 1 < a_cols {
            lemma_fundamental_div_mod_converse(j, a_cols, b, c + 1);
            assert(j / a_cols == b && j % a_cols == c + 1);
        } else {
            assert((b + 1) * a_cols == a_cols * b + a_cols) by (nonlinear_arith);
            lemma_fundamental_div_mod_converse(j, a_cols, b + 1, 0);
            assert(j / a_cols == b + 1 && j % a_cols == 0);
            let blk = identity_block_entries(m, off + b * a_cols, a_cols, slot);
            assert(blk == placed + col);
            assert(identity_blocks(m, off, slot, b + 1) == before + shift_rows(blk, b * a_rows));
            assert(csc_placed(values, row_indices, col_indptr, off + (b + 1) * a_cols, slot, 0) =~= Seq::<
                Entry<V>,
            >::empty());
            assert(shift_rows(Seq::<Entry<V>>::empty(), (b + 1) * a_rows) =~= Seq::<Entry<V>>::empty());
            assert(identity_blocks(m, off, slot, b + 1) + Seq::<Entry<V>>::empty() =~= identity_blocks(
                m,
                off,
                slot,
                b + 1,
            ));
        }
    }
}

/// The general product over the first `j` identity entries, `A` a dense
/// row-major row vector: the whole blocks before `j`'s block, then the
/// elements of `j`'s block before it.
#[verifier::spinoff_prover]
#[verifier::rlimit(30)]
proof fn lemma_identity_prefix_row<V: Scalar>(m: MatrixView<V>, off: int, slot: i64, n: int, j: int)
    requires
        unit_law::<V>(),
        m is DenseRowMajor,
        m.valid(),
        m.dims().0 == 1,
        m.dims().1 > 0,
        n % m.dims().1 == 0,
        0 <= j <= n <= i64::MAX,
    ensures
        ({
            let a_cols = m.dims().1;
            let data = m->DenseRowMajor_0;
            flat_map_entries(identity_entries::<V>(j, off, slot), lmul_dense_rm_fn(data, 1, a_cols))
                == identity_blocks(m, off, slot, j / a_cols) + shift_rows(
                row_major_entries(data, a_cols, off + (j / a_cols) * a_cols, slot, j % a_cols),
                j / a_cols,
            )
        }),
    decreases j,
{
    let a_cols = m.dims().1;
    let data = m->DenseRowMajor_0;
    let f = lmul_dense_rm_fn(data, 1, a_cols);
    if j == 0 {
        assert(identity_entries::<V>(0, off, slot) =~= Seq::<Entry<V>>::empty());
        assert(shift_rows(Seq::<Entry<V>>::empty(), 0) =~= Seq::<Entry<V>>::empty());
        assert(identity_blocks(m, off, slot, 0) + Seq::<Entry<V>>::empty() =~= Seq::<Entry<V>>::empty());
    } else {
        let i = j - 1;
        lemma_identity_prefix_row(m, off, slot, n, i);
        let b = i / a_cols;
        let c = i % a_cols;
        lemma_fundamental_div_mod(i, a_cols);
        assert(b * a_cols + c == i) by (nonlinear_arith)
            requires
                i == a_cols * b + c,
        ;
        assert(b >= 0) by (nonlinear_arith)
            requires
                i >= 0,
                i == a_cols * b + c,
                c < a_cols,
                a_cols > 0,
        ;
        assert(identity_entries::<V>(j, off, slot).drop_last() =~= identity_entries::<V>(i, off, slot));
        let e = identity_entries::<V>(j, off, slot).last();
        assert(e == (one_spec::<V>(), i as i64, (off + i) as i64, slot));
        lemma_fundamental_div_mod_converse(i, a_cols, b, c);
        lemma_fundamental_div_mod_converse(c, a_cols, 0, c);
        let before = identity_blocks(m, off, slot, b);
        let placed = row_major_entries(data, a_cols, off + b * a_cols, slot, c);
        let col = if is_zero_spec(data[c]) {
            Seq::<Entry<V>>::empty()
        } else {
            seq![(data[c], 0i64, (off + b * a_cols + c) as i64, slot)]
        };
        assert(placed + col =~= row_major_entries(data, a_cols, off + b * a_cols, slot, c + 1));
        assert(lmul_dense_rm_rows(data, 1, a_cols, e, 0) =~= Seq::<Entry<V>>::empty());
        assert(data[c].mul_spec(one_spec::<V>()) == data[c]);
        assert(f(e) =~= shift_rows(col, b));
        lemma_shift_concat(placed, col, b);
        let fi = flat_map_entries(identity_entries::<V>(i, off, slot), f);
        let fj = flat_map_entries(identity_entries::<V>(j, off, slot), f);
        assert(fj == fi + f(e));
        assert(fi == before + shift_rows(placed, b));
        assert(fj == before + shift_rows(placed + col, b)) by {
            assert(before + shift_rows(placed, b) + shift_rows(col, b) =~= before + shift_rows(
                placed + col,
                b,
            ));
        }
        if c + 1 < a_cols {
            lemma_fundamental_div_mod_converse(j, a_cols, b, c + 1);
            assert(j / a_cols == b && j % a_cols == c + 1);
        } else {
            assert((b + 1) * a_cols == a_cols * b + a_cols) by (nonlinear_arith);
            lemma_fundamental_div_mod_converse(j, a_cols, b + 1, 0);
            assert(j / a_cols == b + 1 && j % a_cols == 0);
            let blk = identity_block_entries(m, off + b * a_cols, a_cols, slot);
            assert(blk == placed + col);
            assert(identity_blocks(m, off, slot, b + 1) == before + shift_rows(blk, b));
            assert(row_major_entries(data, a_cols, off + (b + 1) * a_cols, slot, 0) =~= Seq::<
                Entry<V>,
            >::empty());
            assert(shift_rows(Seq::<Entry<V>>::empty(), b + 1) =~= Seq::<Entry<V>>::empty());
            assert(identity_blocks(m, off, slot, b + 1) + Seq::<Entry<V>>::empty() =~= identity_blocks(
                m,
                off,
                slot,
                b + 1,
            ));
        }
    }
}

/// A constant times an identity it tiles: the fast path's entries,
/// `kron(I_k, A)` placed without multiplying, are exactly those of the
/// general product `kron(I_k, A) @ I_n`, whenever multiplying by one gives a
/// value back.  Left out: a zero scalar (the general product keeps its
/// explicit zeros, the fast path emits nothing) and a row-major matrix of
/// more than one row (the same entries, but the fast path walks `A` by rows
/// and the general product by columns).
pub proof fn lemma_identity_product<V: Scalar>(
    m: MatrixView<V>,
    off: int,
    n: int,
    slot: i64,
    out_rows: int,
)
    requires
        unit_law::<V>(),
        m is DenseRowMajor ==> m.dims().0 == 1,
        m.valid(),
        identity_tiles(m, n),
        0 <= n <= i64::MAX,
        identity_rows_fit(m, n, out_rows),
        m matches MatrixView::Scalar(s) ==> !is_zero_spec(s),
    ensures
        mul_identity_entries(m, off, n, slot) == lmul_entries(
            m,
            out_rows,
            identity_entries::<V>(n, off, slot),
        ),
{
    match m {
        MatrixView::Scalar(s) => {
            assert(mul_identity_entries(m, off, n, slot) =~= lmul_entries(
                m,
                out_rows,
                identity_entries::<V>(n, off, slot),
            ));
        },
        MatrixView::DenseColMajor(data, a_rows, a_cols) => {
            let k = n / a_cols;
            assert(a_rows >= 0) by (nonlinear_arith)
                requires
                    data.len() == a_rows * a_cols,
                    a_cols > 0,
            ;
            if a_rows == 0 {
                lemma_identity_blocks_empty(m, off, slot, k);
            } else {
                lemma_identity_prefix(m, off, slot, out_rows, n, n);
                lemma_fundamental_div_mod(n, a_cols);
                assert(dense_entries(data, a_rows, off + k * a_cols, slot, 0 * a_rows) =~= Seq::<Entry<V>>::empty());
                assert(shift_rows(Seq::<Entry<V>>::empty(), k * a_rows) =~= Seq::<Entry<V>>::empty());
                assert(identity_blocks(m, off, slot, k) + Seq::<Entry<V>>::empty() =~= identity_blocks(
                    m,
                    off,
                    slot,
                    k,
                ));
            }
        },
        MatrixView::DenseRowMajor(data, a_rows, a_cols) => {
            let k = n / a_cols;
            lemma_identity_prefix_row(m, off, slot, n, n);
            lemma_fundamental_div_mod(n, a_cols);
            assert(row_major_entries(data, a_cols, off + k * a_cols, slot, 0) =~= Seq::<Entry<V>>::empty());
            assert(shift_rows(Seq::<Entry<V>>::empty(), k) =~= Seq::<Entry<V>>::empty());
            assert(identity_blocks(m, off, slot, k) + Seq::<Entry<V>>::empty() =~= identity_blocks(
                m,
                off,
                slot,
                k,
            ));
        },
        MatrixView::Sparse(values, row_indices, col_indptr, a_rows, a_cols) => {
            let k = n / a_cols;
            lemma_identity_prefix_sparse(m, off, slot, n, n);
            lemma_fundamental_div_mod(n, a_cols);
            assert(csc_placed(values, row_indices, col_indptr, off + k * a_cols, slot, 0) =~= Seq::<
                Entry<V>,
            >::empty());
            assert(shift_rows(Seq::<Entry<V>>::empty(), k * a_rows) =~= Seq::<Entry<V>>::empty());
            assert(identity_blocks(m, off, slot, k) + Seq::<Entry<V>>::empty() =~= identity_blocks(
                m,
                off,
                slot,
                k,
            ));
        },
    }
}

// ---------------------------------------------------------------------------
// Products with a lowered operand
// ---------------------------------------------------------------------------

/// The values and slices of the first `k` entries in row `r`, in order.
pub open spec fn row_group<V>(es: Seq<Entry<V>>, r: int, k: int) -> Seq<(V, i64)>
    decreases k,
{
    if k <= 0 {
        seq![]
    } else {
        let prev = row_group(es, r, k - 1);
        if es[k - 1].1 == r {
            prev.push((es[k - 1].0, es[k - 1].3))
        } else {
            prev
        }
    }
}

/// Every entry's row is non-negative and representable as a `usize`.
pub open spec fn rows_nonneg<V>(es: Seq<Entry<V>>) -> bool {
    forall|k: int| 0 <= k < es.len() ==> 0 <= #[trigger] es[k].1 <= usize::MAX
}

/// The slice of a product of two entries: the parametric one's, or the
/// second's when both are parametric.
pub open spec fn combine_param(first: i64, second: i64, const_param: i64) -> i64 {
    if first == const_param {
        second
    } else if second == const_param {
        first
    } else {
        second
    }
}

/// The products of entry `e` with each `(value, slice)` of a group, placed at
/// `row`: the value is `g * v` when `group_first`, `v * g` otherwise.
pub open spec fn group_image<V: Scalar>(
    g: Seq<(V, i64)>,
    e: Entry<V>,
    row: int,
    const_param: i64,
    group_first: bool,
) -> Seq<Entry<V>> {
    Seq::new(
        g.len(),
        |t: int|
            (
                if group_first {
                    g[t].0.mul_spec(e.0)
                } else {
                    e.0.mul_spec(g[t].0)
                },
                row as i64,
                e.2,
                combine_param(e.3, g[t].1, const_param),
            ),
    )
}

/// Group the entries of `t` by row: `groups[r]` holds the values and slices
/// of the entries in row `r`, for `r < size`, in order.
fn group_by_row<V: Copy>(t: &SparseTensor<V>, size: usize) -> (groups: Vec<Vec<(V, i64)>>)
    requires
        t.wf(),
        rows_nonneg(t.entries()),
    ensures
        groups@.len() == size,
        forall|r: int| 0 <= r < size ==> (#[trigger] groups@[r])@ == row_group(t.entries(), r, t.entries().len() as int),
{
    let mut groups: Vec<Vec<(V, i64)>> = Vec::with_capacity(size);
    let mut r: usize = 0;
    while r < size
        invariant
            r <= size,
            groups@.len() == r,
            forall|q: int| 0 <= q < r ==> (#[trigger] groups@[q])@ == Seq::<(V, i64)>::empty(),
        decreases size - r,
    {
        groups.push(Vec::new());
        r = r + 1;
    }
    let ghost es = t.entries();
    let n = t.nnz();
    let mut i: usize = 0;
    while i < n
        invariant
            t.wf(),
            es == t.entries(),
            n == es.len(),
            rows_nonneg(es),
            i <= n,
            groups@.len() == size,
            forall|q: int| 0 <= q < size ==> (#[trigger] groups@[q])@ == row_group(es, q, i as int),
        decreases n - i,
    {
        assert(es[i as int] == t.entry(i as int));
        assert(0 <= es[i as int].1 <= usize::MAX);
        let row = t.rows[i] as usize;
        if row < size {
            let item = (t.data[i], t.param_offsets[i]);
            let mut g = Vec::new();
            std::mem::swap(&mut g, &mut groups[row]);
            g.push(item);
            groups.set(row, g);
        }
        assert forall|q: int| 0 <= q < size implies (#[trigger] groups@[q])@ == row_group(es, q, i + 1) by {
            if q == row as int {
            } else {
            }
        }
        i = i + 1;
    }
    groups
}

/// Append the products of one entry with a group, placed at `row`.
fn push_group_image<V: Scalar>(
    result: &mut SparseTensor<V>,
    g: &Vec<(V, i64)>,
    val: V,
    row: i64,
    col: i64,
    param: i64,
    const_param: i64,
    group_first: bool,
)
    requires
        ops_total::<V>(),
        old(result).wf(),
    ensures
        final(result).wf(),
        final(result).shape == old(result).shape,
        old(result).rows_in_range() && 0 <= row < old(result).shape.0 ==> final(result).rows_in_range(),
        exact::<V>() ==> final(result).entries() == old(result).entries() + group_image(
            g@,
            (val, row, col, param),
            row as int,
            const_param,
            group_first,
        ),
{
    let ghost base = result.entries();
    let ghost e = (val, row, col, param);
    let m = g.len();
    let mut t: usize = 0;
    while t < m
        invariant
            ops_total::<V>(),
            t <= m,
            m == g@.len(),
            e == (val, row, col, param),
            result.wf(),
            result.shape == old(result).shape,
            old(result).rows_in_range() && 0 <= row < old(result).shape.0 ==> result.rows_in_range(),
            exact::<V>() ==> result.entries() == base + group_image(
                g@,
                e,
                row as int,
                const_param,
                group_first,
            ).subrange(0, t as int),
        decreases m - t,
    {
        let (gv, gp) = g[t];
        let v = if group_first {
            gv.mul(val)
        } else {
            val.mul(gv)
        };
        let p = if param == const_param {
            gp
        } else if gp == const_param {
            param
        } else {
            gp
        };
        result.push(v, row, col, p);
        proof {
            if exact::<V>() {
                let gi = group_image(g@, e, row as int, const_param, group_first);
                assert(g@[t as int] == (gv, gp));
                assert(gi[t as int].0 == v);
                assert(gi[t as int].1 == row);
                assert(gi[t as int].2 == col);
                assert(gi[t as int].3 == p);
                assert(gi.subrange(0, t + 1) =~= gi.subrange(0, t as int).push(gi[t as int]));
            }
        }
        t = t + 1;
    }
    proof {
        let gi = group_image(g@, e, row as int, const_param, group_first);
        assert(gi.subrange(0, m as int) =~= gi);
    }
}

/// The first two dimensions of a shape whose sizes fit multiply without
/// overflow.
proof fn lemma_dims_fit(shape: Seq<usize>)
    requires
        size_fits(shape),
    ensures
        left_dims(shape).0 * left_dims(shape).1 <= usize::MAX,
        left_dims(shape).0 >= 0,
        left_dims(shape).1 >= 0,
{
    if shape.len() >= 2 {
        assert(crate::linop::prefix_size(shape, 2) <= usize::MAX);
        assert(crate::linop::prefix_size(shape, 0) == 1);
        assert(crate::linop::prefix_size(shape, 1) == crate::linop::prefix_size(shape, 0) * shape[0]);
        assert(crate::linop::prefix_size(shape, 2) == crate::linop::prefix_size(shape, 1) * shape[1]);
        assert(1 * shape[0] == shape[0] as int);
    }
}

/// The matrix dimensions of a left operand of the given shape: a vector is
/// a row, a scalar 1x1.
pub open spec fn left_dims(shape: Seq<usize>) -> (int, int) {
    if shape.len() == 1 {
        (1, shape[0] as int)
    } else if shape.len() >= 2 {
        (shape[0] as int, shape[1] as int)
    } else {
        (1, 1)
    }
}

/// The image of one entry `(v, r, c, p)` of the argument under a parametric
/// `kron(I, A)`, for the first `k` rows of `A`: each lowered element of `A`
/// at flat position `(r % a_cols) * a_rows + i` multiplies `v`.
pub open spec fn param_left_rows<V: Scalar>(
    lhs: Seq<Entry<V>>,
    lhs_size: int,
    a_rows: int,
    a_cols: int,
    const_param: i64,
    e: Entry<V>,
    k: int,
) -> Seq<Entry<V>>
    decreases k,
{
    if k <= 0 {
        seq![]
    } else {
        let i = k - 1;
        let flat = ((e.1 as int) % a_cols) * a_rows + i;
        param_left_rows(lhs, lhs_size, a_rows, a_cols, const_param, e, k - 1) + if flat
            < lhs_size {
            group_image(
                row_group(lhs, flat, lhs.len() as int),
                e,
                ((e.1 as int) / a_cols) * a_rows + i,
                const_param,
                true,
            )
        } else {
            seq![]
        }
    }
}

/// The image of one argument entry under a parametric `kron(I, A)`.
pub open spec fn param_left_fn<V: Scalar>(
    lhs: Seq<Entry<V>>,
    lhs_size: int,
    a_rows: int,
    a_cols: int,
    const_param: i64,
) -> spec_fn(Entry<V>) -> Seq<Entry<V>> {
    |e: Entry<V>| param_left_rows(lhs, lhs_size, a_rows, a_cols, const_param, e, a_rows)
}

/// `kron(I, A) @ rhs` with `A` lowered to `lhs` (with its parameter slices).
pub open spec fn param_left_entries<V: Scalar>(
    lhs: Seq<Entry<V>>,
    lhs_shape: Seq<usize>,
    const_param: i64,
    es: Seq<Entry<V>>,
) -> Seq<Entry<V>> {
    let (a_rows, a_cols) = left_dims(lhs_shape);
    if a_cols == 0 {
        seq![]
    } else {
        flat_map_entries(
            es,
            param_left_fn(lhs, shape_size(lhs_shape), a_rows, a_cols, const_param),
        )
    }
}

/// Parametric left multiplication: param_tensor @ variable_tensor
///
/// The product of a parametric matrix `A` (lowered to `lhs_tensor`, one
/// slice per element) and the argument: each element of `A` multiplies the
/// argument entries it meets, and the product keeps the parametric slice.
pub fn multiply_parametric_left<V: Scalar>(
    lhs_tensor: &SparseTensor<V>,
    lhs_linop: &LinOp<V>,
    rhs_tensor: &SparseTensor<V>,
    output_rows: usize,
    ctx: &ProcessingContext,
) -> (t: SparseTensor<V>)
    requires
        ops_total::<V>(),
        ctx@.valid(),
        lhs_tensor.wf(),
        rhs_tensor.wf(),
        size_fits(lhs_linop.shape@),
        rows_nonneg(lhs_tensor.entries()),
        left_dims(lhs_linop.shape@).1 > 0 ==> left_rows_fit(
            rhs_tensor.entries(),
            left_dims(lhs_linop.shape@).0,
            left_dims(lhs_linop.shape@).1,
        ),
        rhs_tensor.rows_in_range(),
        left_consistent(
            rhs_tensor.shape.0 as int,
            left_dims(lhs_linop.shape@).0,
            left_dims(lhs_linop.shape@).1,
            output_rows as int,
        ),
    ensures
        t.wf(),
        t.shape == (output_rows, ctx@.var_cols()),
        t.rows_in_range(),
        exact::<V>() ==> t.entries() == param_left_entries(
            lhs_tensor.entries(),
            lhs_linop.shape@,
            ctx@.const_param(),
            rhs_tensor.entries(),
        ),
{
    let var_cols = ctx.var_cols();
    let cp = ctx.const_param();
    let (a_rows, a_cols): (usize, usize) = if lhs_linop.shape.len() == 1 {
        (1, lhs_linop.shape[0])
    } else if lhs_linop.shape.len() >= 2 {
        (lhs_linop.shape[0], lhs_linop.shape[1])
    } else {
        (1, 1)
    };
    if a_cols == 0 {
        return SparseTensor::empty((output_rows, var_cols));
    }
    proof {
        lemma_dims_fit(lhs_linop.shape@);
    }
    let lhs_size = lhs_linop.size();
    let lhs_by_flat_idx = group_by_row(lhs_tensor, lhs_size);
    let ghost lhs_es = lhs_tensor.entries();
    let ghost f = param_left_fn(lhs_es, lhs_size as int, a_rows as int, a_cols as int, cp);
    let ghost es = rhs_tensor.entries();
    let mut result = SparseTensor::with_capacity((output_rows, var_cols), 0);
    let n = rhs_tensor.nnz();
    let mut idx: usize = 0;
    while idx < n
        invariant
            ops_total::<V>(),
            rhs_tensor.wf(),
            es == rhs_tensor.entries(),
            n == es.len(),
            idx <= n,
            a_cols > 0,
            a_rows * a_cols <= usize::MAX,
            lhs_by_flat_idx@.len() == lhs_size,
            forall|r: int| 0 <= r < lhs_size ==> (#[trigger] lhs_by_flat_idx@[r])@ == row_group(lhs_es, r, lhs_es.len() as int),
            left_rows_fit(es, a_rows as int, a_cols as int),
            f == param_left_fn(lhs_es, lhs_size as int, a_rows as int, a_cols as int, cp),
            rhs_tensor.rows_in_range(),
            left_consistent(rhs_tensor.shape.0 as int, a_rows as int, a_cols as int, output_rows as int),
            result.wf(),
            result.shape == (output_rows, var_cols),
            result.rows_in_range(),
            exact::<V>() ==> result.entries() == flat_map_entries(es.subrange(0, idx as int), f),
        decreases n - idx,
    {
        let ghost e = es[idx as int];
        assert(e == (rhs_tensor.data@[idx as int], rhs_tensor.rows@[idx as int], rhs_tensor.cols@[idx as int], rhs_tensor.param_offsets@[idx as int]));
        assert(0 <= e.1 <= usize::MAX);
        let rhs_row = rhs_tensor.rows[idx] as usize;
        let rhs_col = rhs_tensor.cols[idx];
        let rhs_val = rhs_tensor.data[idx];
        let rhs_param = rhs_tensor.param_offsets[idx];
        let block = rhs_row / a_cols;
        let col_in_block = rhs_row % a_cols;
        proof {
            lemma_left_consistent(e.1 as int, rhs_tensor.shape.0 as int, a_rows as int, a_cols as int, output_rows as int);
        }
        let ghost base = result.entries();
        let mut i: usize = 0;
        while i < a_rows
            invariant
                ops_total::<V>(),
                0 < a_cols,
                a_rows * a_cols <= usize::MAX,
                ((e.1 as int) / (a_cols as int) + 1) * a_rows <= output_rows,
                result.rows_in_range(),
                i <= a_rows,
                e.1 == rhs_row,
                e.0 == rhs_val,
                e.2 == rhs_col,
                e.3 == rhs_param,
                block == (e.1 as int) / (a_cols as int),
                col_in_block == (e.1 as int) % (a_cols as int),
                ((e.1 as int) / (a_cols as int) + 1) * a_rows <= i64::MAX,
                ((e.1 as int) / (a_cols as int) + 1) * a_rows <= usize::MAX,
                lhs_by_flat_idx@.len() == lhs_size,
                forall|r: int| 0 <= r < lhs_size ==> (#[trigger] lhs_by_flat_idx@[r])@ == row_group(lhs_es, r, lhs_es.len() as int),
                result.wf(),
                result.shape == (output_rows, var_cols),
                exact::<V>() ==> result.entries() == base + param_left_rows(
                    lhs_es,
                    lhs_size as int,
                    a_rows as int,
                    a_cols as int,
                    cp,
                    e,
                    i as int,
                ),
            decreases a_rows - i,
        {
            proof {
                lemma_block_bounds(e.1 as int, a_rows as int, a_cols as int, i as int);
            }
            let flat_idx: usize;
            flat_idx = col_in_block * a_rows + i;
            if flat_idx < lhs_size {
                let new_row = (block * a_rows + i) as i64;
                push_group_image(&mut result, &lhs_by_flat_idx[flat_idx], rhs_val, new_row, rhs_col, rhs_param, cp, true);
                proof {
                    assert(group_image(lhs_by_flat_idx@[flat_idx as int]@, (rhs_val, new_row, rhs_col, rhs_param), new_row as int, cp, true) =~= group_image(row_group(lhs_es, flat_idx as int, lhs_es.len() as int), e, ((e.1 as int) / (a_cols as int)) * a_rows + i, cp, true));
                }
            }
            proof {
                if exact::<V>() {
                    assert(result.entries() =~= base + param_left_rows(lhs_es, lhs_size as int, a_rows as int, a_cols as int, cp, e, i + 1));
                }
            }
            i = i + 1;
        }
        proof {
            lemma_flat_map_step(es, f, idx as int);
        }
        idx = idx + 1;
    }
    assert(es.subrange(0, n as int) =~= es);
    result
}


/// The matrix dimensions of a right operand of shape `shape` multiplying an
/// argument of shape `arg_shape`: a vector is a column when its length
/// matches the argument's columns, a row otherwise.
pub open spec fn right_dims(shape: Seq<usize>, arg_shape: Seq<usize>) -> (int, int) {
    if shape.len() == 1 {
        let arg_cols = if arg_shape.len() == 1 {
            arg_shape[0] as int
        } else if arg_shape.len() >= 2 {
            arg_shape[1] as int
        } else {
            1
        };
        if arg_cols != shape[0] {
            (1, shape[0] as int)
        } else {
            (shape[0] as int, 1)
        }
    } else {
        left_dims(shape)
    }
}

/// The image of one entry `(v, r, c, p)` of `vec(X)` under a parametric
/// `X @ A`, for the first `m` columns of `A`: each lowered element of `A` at
/// flat position `j * a_rows + r / k` multiplies `v`.
pub open spec fn param_right_cols<V: Scalar>(
    rhs: Seq<Entry<V>>,
    rhs_size: int,
    a_rows: int,
    k: int,
    const_param: i64,
    e: Entry<V>,
    m: int,
) -> Seq<Entry<V>>
    decreases m,
{
    if m <= 0 {
        seq![]
    } else {
        let j = m - 1;
        let flat = j * a_rows + (e.1 as int) / k;
        param_right_cols(rhs, rhs_size, a_rows, k, const_param, e, m - 1) + if flat < rhs_size {
            group_image(
                row_group(rhs, flat, rhs.len() as int),
                e,
                j * k + (e.1 as int) % k,
                const_param,
                false,
            )
        } else {
            seq![]
        }
    }
}

/// The image of one entry of `vec(X)` under a parametric `X @ A`.
pub open spec fn param_right_fn<V: Scalar>(
    rhs: Seq<Entry<V>>,
    rhs_size: int,
    a_rows: int,
    a_cols: int,
    out_rows: int,
    const_param: i64,
) -> spec_fn(Entry<V>) -> Seq<Entry<V>> {
    |e: Entry<V>| param_right_cols(rhs, rhs_size, a_rows, out_rows / a_cols, const_param, e, a_cols)
}

/// `vec(X @ A)` with `A` lowered to `rhs` (with its parameter slices).
pub open spec fn param_right_entries<V: Scalar>(
    rhs: Seq<Entry<V>>,
    rhs_shape: Seq<usize>,
    arg_shape: Seq<usize>,
    out_rows: int,
    const_param: i64,
    es: Seq<Entry<V>>,
) -> Seq<Entry<V>> {
    let (a_rows, a_cols) = right_dims(rhs_shape, arg_shape);
    if a_cols == 0 || out_rows / a_cols == 0 {
        seq![]
    } else {
        flat_map_entries(
            es,
            param_right_fn(rhs, shape_size(rhs_shape), a_rows, a_cols, out_rows, const_param),
        )
    }
}

proof fn lemma_right_dims_fit(shape: Seq<usize>, arg_shape: Seq<usize>)
    requires
        size_fits(shape),
    ensures
        right_dims(shape, arg_shape).0 * right_dims(shape, arg_shape).1 <= usize::MAX,
        right_dims(shape, arg_shape).0 >= 0,
        right_dims(shape, arg_shape).1 >= 0,
{
    lemma_dims_fit(shape);
    if shape.len() == 1 {
        assert(1 * shape[0] == shape[0] as int);
        assert(shape[0] * 1 == shape[0] as int);
    }
}

/// Parametric right multiplication: variable_tensor @ param_tensor
///
/// The product of the argument `X` and a parametric matrix `A` (lowered to
/// `rhs_tensor`, one slice per element): each element of `A` multiplies the
/// argument entries it meets, and the product keeps the parametric slice.
pub fn multiply_parametric_right<V: Scalar>(
    lhs_tensor: &SparseTensor<V>,
    rhs_tensor: &SparseTensor<V>,
    rhs_linop: &LinOp<V>,
    arg_shape: &Vec<usize>,
    output_rows: usize,
    ctx: &ProcessingContext,
) -> (t: SparseTensor<V>)
    requires
        ops_total::<V>(),
        ctx@.valid(),
        lhs_tensor.wf(),
        rhs_tensor.wf(),
        size_fits(rhs_linop.shape@),
        output_rows <= i64::MAX,
        rows_nonneg(rhs_tensor.entries()),
        ({
            let (a_rows, a_cols) = right_dims(rhs_linop.shape@, arg_shape@);
            a_cols > 0 && (output_rows as int) / a_cols > 0 ==> right_rows_fit(
                lhs_tensor.entries(),
                (output_rows as int) / a_cols,
                a_rows,
                true,
            )
        }),
    ensures
        t.wf(),
        t.shape == (output_rows, ctx@.var_cols()),
        t.rows_in_range(),
        exact::<V>() ==> t.entries() == param_right_entries(
            rhs_tensor.entries(),
            rhs_linop.shape@,
            arg_shape@,
            output_rows as int,
            ctx@.const_param(),
            lhs_tensor.entries(),
        ),
{
    let var_cols = ctx.var_cols();
    let cp = ctx.const_param();
    let (a_rows, a_cols): (usize, usize) = if rhs_linop.shape.len() == 1 {
        let arg_cols = if arg_shape.len() == 1 {
            arg_shape[0]
        } else if arg_shape.len() >= 2 {
            arg_shape[1]
        } else {
            1
        };
        if arg_cols != rhs_linop.shape[0] {
            (1, rhs_linop.shape[0])
        } else {
            (rhs_linop.shape[0], 1)
        }
    } else if rhs_linop.shape.len() >= 2 {
        (rhs_linop.shape[0], rhs_linop.shape[1])
    } else {
        (1, 1)
    };
    if a_cols == 0 {
        return SparseTensor::empty((output_rows, var_cols));
    }
    let k = output_rows / a_cols;
    if k == 0 {
        return SparseTensor::empty((output_rows, var_cols));
    }
    proof {
        lemma_right_dims_fit(rhs_linop.shape@, arg_shape@);
    }
    let rhs_size = rhs_linop.size();
    let rhs_by_flat_idx = group_by_row(rhs_tensor, rhs_size);
    let ghost rhs_es = rhs_tensor.entries();
    let ghost f = param_right_fn(rhs_es, rhs_size as int, a_rows as int, a_cols as int, output_rows as int, cp);
    let ghost es = lhs_tensor.entries();
    let mut result = SparseTensor::with_capacity((output_rows, var_cols), 0);
    let n = lhs_tensor.nnz();
    let mut idx: usize = 0;
    while idx < n
        invariant
            ops_total::<V>(),
            lhs_tensor.wf(),
            es == lhs_tensor.entries(),
            n == es.len(),
            idx <= n,
            a_cols > 0,
            k > 0,
            k == output_rows / a_cols,
            output_rows <= i64::MAX,
            a_rows * a_cols <= usize::MAX,
            rhs_by_flat_idx@.len() == rhs_size,
            forall|r: int| 0 <= r < rhs_size ==> (#[trigger] rhs_by_flat_idx@[r])@ == row_group(rhs_es, r, rhs_es.len() as int),
            right_rows_fit(es, k as int, a_rows as int, true),
            f == param_right_fn(rhs_es, rhs_size as int, a_rows as int, a_cols as int, output_rows as int, cp),
            result.wf(),
            result.shape == (output_rows, var_cols),
            result.rows_in_range(),
            exact::<V>() ==> result.entries() == flat_map_entries(es.subrange(0, idx as int), f),
        decreases n - idx,
    {
        let ghost e = es[idx as int];
        assert(e == (lhs_tensor.data@[idx as int], lhs_tensor.rows@[idx as int], lhs_tensor.cols@[idx as int], lhs_tensor.param_offsets@[idx as int]));
        assert(0 <= e.1 <= usize::MAX);
        let lhs_row = lhs_tensor.rows[idx] as usize;
        let lhs_col = lhs_tensor.cols[idx];
        let lhs_val = lhs_tensor.data[idx];
        let lhs_param = lhs_tensor.param_offsets[idx];
        let row_in_x = lhs_row % k;
        let col_in_x = lhs_row / k;
        let ghost base = result.entries();
        let mut j: usize = 0;
        while j < a_cols
            invariant
                ops_total::<V>(),
                0 < a_cols,
                k > 0,
                k == output_rows / a_cols,
                output_rows <= i64::MAX,
                a_rows * a_cols <= usize::MAX,
                j <= a_cols,
                e.1 == lhs_row,
                e.0 == lhs_val,
                e.2 == lhs_col,
                e.3 == lhs_param,
                row_in_x == (e.1 as int) % (k as int),
                col_in_x == (e.1 as int) / (k as int),
                col_in_x < a_rows,
                rhs_by_flat_idx@.len() == rhs_size,
                forall|r: int| 0 <= r < rhs_size ==> (#[trigger] rhs_by_flat_idx@[r])@ == row_group(rhs_es, r, rhs_es.len() as int),
                result.wf(),
                result.shape == (output_rows, var_cols),
                result.rows_in_range(),
                exact::<V>() ==> result.entries() == base + param_right_cols(
                    rhs_es,
                    rhs_size as int,
                    a_rows as int,
                    k as int,
                    cp,
                    e,
                    j as int,
                ),
            decreases a_cols - j,
        {
            proof {
                lemma_right_bounds(e.1 as int, k as int, a_rows as int, a_cols as int, output_rows as int, j as int);
            }
            let flat_idx = j * a_rows + col_in_x;
            if flat_idx < rhs_size {
                let new_row = (j * k + row_in_x) as i64;
                push_group_image(&mut result, &rhs_by_flat_idx[flat_idx], lhs_val, new_row, lhs_col, lhs_param, cp, false);
                proof {
                    assert(group_image(rhs_by_flat_idx@[flat_idx as int]@, (lhs_val, new_row, lhs_col, lhs_param), new_row as int, cp, false) =~= group_image(row_group(rhs_es, flat_idx as int, rhs_es.len() as int), e, j * k + (e.1 as int) % (k as int), cp, false));
                }
            }
            proof {
                if exact::<V>() {
                    assert(result.entries() =~= base + param_right_cols(rhs_es, rhs_size as int, a_rows as int, k as int, cp, e, j + 1));
                }
            }
            j = j + 1;
        }
        proof {
            lemma_flat_map_step(es, f, idx as int);
        }
        idx = idx + 1;
    }
    assert(es.subrange(0, n as int) =~= es);
    result
}

// ---------------------------------------------------------------------------
// Elementwise products and quotients
// ---------------------------------------------------------------------------

/// The image of one argument entry `(v, r, c, p)` under elementwise
/// multiplication by a lowered operand: each of the operand's entries in row
/// `r` (row 0 for a scalar operand) multiplies `v`.
pub open spec fn mul_elem_fn<V: Scalar>(
    data: Seq<Entry<V>>,
    data_size: int,
    const_param: i64,
) -> spec_fn(Entry<V>) -> Seq<Entry<V>> {
    |e: Entry<V>|
        {
            let data_row = if data_size == 1 {
                0
            } else {
                e.1 as int
            };
            if data_row < data_size {
                group_image(row_group(data, data_row, data.len() as int), e, e.1 as int, const_param, false)
            } else {
                seq![]
            }
        }
}

/// Elementwise product of the lowered argument and a lowered operand of
/// `data_size` elements.
pub open spec fn mul_elem_entries<V: Scalar>(
    args: Seq<Entry<V>>,
    data: Seq<Entry<V>>,
    data_size: int,
    const_param: i64,
) -> Seq<Entry<V>> {
    flat_map_entries(args, mul_elem_fn(data, data_size, const_param))
}

/// Multiply the argument's entries elementwise by the operand's entries.
pub fn mul_elem_tensors<V: Scalar>(
    arg_tensor: &SparseTensor<V>,
    data_tensor: &SparseTensor<V>,
    data_size: usize,
    output_rows: usize,
    ctx: &ProcessingContext,
) -> (t: SparseTensor<V>)
    requires
        ops_total::<V>(),
        ctx@.valid(),
        arg_tensor.wf(),
        data_tensor.wf(),
        rows_nonneg(arg_tensor.entries()),
        rows_nonneg(data_tensor.entries()),
        arg_tensor.rows_in_range(),
        arg_tensor.shape.0 <= output_rows,
    ensures
        t.wf(),
        t.shape == (output_rows, ctx@.var_cols()),
        t.rows_in_range(),
        exact::<V>() ==> t.entries() == mul_elem_entries(
            arg_tensor.entries(),
            data_tensor.entries(),
            data_size as int,
            ctx@.const_param(),
        ),
{
    let cp = ctx.const_param();
    let is_scalar = data_size == 1;
    let data_by_row = group_by_row(data_tensor, data_size);
    let ghost data_es = data_tensor.entries();
    let ghost f = mul_elem_fn(data_es, data_size as int, cp);
    let ghost es = arg_tensor.entries();
    let mut result = SparseTensor::with_capacity((output_rows, ctx.var_cols()), 0);
    let n = arg_tensor.nnz();
    let mut i: usize = 0;
    while i < n
        invariant
            ops_total::<V>(),
            arg_tensor.wf(),
            es == arg_tensor.entries(),
            n == es.len(),
            i <= n,
            rows_nonneg(es),
            is_scalar == (data_size == 1),
            data_by_row@.len() == data_size,
            forall|r: int| 0 <= r < data_size ==> (#[trigger] data_by_row@[r])@ == row_group(data_es, r, data_es.len() as int),
            f == mul_elem_fn(data_es, data_size as int, cp),
            arg_tensor.rows_in_range(),
            arg_tensor.shape.0 <= output_rows,
            result.wf(),
            result.shape == (output_rows, ctx@.var_cols()),
            result.rows_in_range(),
            exact::<V>() ==> result.entries() == flat_map_entries(es.subrange(0, i as int), f),
        decreases n - i,
    {
        let ghost e = es[i as int];
        assert(e == (arg_tensor.data@[i as int], arg_tensor.rows@[i as int], arg_tensor.cols@[i as int], arg_tensor.param_offsets@[i as int]));
        assert(0 <= e.1 <= usize::MAX);
        let arg_row = arg_tensor.rows[i] as usize;
        let arg_col = arg_tensor.cols[i];
        let arg_val = arg_tensor.data[i];
        let arg_param = arg_tensor.param_offsets[i];
        let data_row = if is_scalar {
            0
        } else {
            arg_row
        };
        let ghost base = result.entries();
        if data_row < data_by_row.len() && data_by_row[data_row].len() > 0 {
            push_group_image(&mut result, &data_by_row[data_row], arg_val, arg_tensor.rows[i], arg_col, arg_param, cp, false);
        }
        proof {
            if exact::<V>() && data_row < data_size {
                assert(group_image(data_by_row@[data_row as int]@, (arg_val, e.1, arg_col, arg_param), e.1 as int, cp, false) =~= f(e));
                if data_by_row@[data_row as int]@.len() == 0 {
                    assert(f(e) =~= Seq::<Entry<V>>::empty());
                }
            }
            lemma_flat_map_step(es, f, i as int);
        }
        i = i + 1;
    }
    assert(es.subrange(0, n as int) =~= es);
    result
}

/// The divisor of an entry in row `r`: the single value for a scalar, the
/// value at `r` when there is one, 1 otherwise.
pub open spec fn divisor<V: Scalar>(data: Seq<V>, r: int) -> V {
    if data.len() == 1 {
        data[0]
    } else if 0 <= r < data.len() {
        data[r]
    } else {
        one_spec::<V>()
    }
}

/// Each value divided by the divisor of its row, unless that divisor is zero.
pub open spec fn div_entries<V: Scalar>(es: Seq<Entry<V>>, data: Seq<V>) -> Seq<Entry<V>> {
    Seq::new(
        es.len(),
        |i: int|
            {
                let d = divisor(data, es[i].1 as int);
                (if is_zero_spec(d) {
                    es[i].0
                } else {
                    es[i].0.div_spec(d)
                }, es[i].1, es[i].2, es[i].3)
            },
    )
}

/// Divide each entry by the element of `data` at its row (in place).
pub fn div_by_values<V: Scalar>(tensor: &mut SparseTensor<V>, data: &Vec<V>)
    requires
        ops_total::<V>(),
        old(tensor).wf(),
        rows_nonneg(old(tensor).entries()),
    ensures
        final(tensor).wf(),
        final(tensor).shape == old(tensor).shape,
        final(tensor).rows@ == old(tensor).rows@,
        exact::<V>() ==> final(tensor).entries() == div_entries(old(tensor).entries(), data@),
{
    let ghost es = tensor.entries();
    let is_scalar = data.len() == 1;
    let n = tensor.nnz();
    let mut i: usize = 0;
    while i < n
        invariant
            ops_total::<V>(),
            tensor.wf(),
            tensor.shape == old(tensor).shape,
            n == es.len(),
            tensor.data@.len() == n,
            es == old(tensor).entries(),
            rows_nonneg(es),
            is_scalar == (data@.len() == 1),
            i <= n,
            tensor.rows@ == old(tensor).rows@,
            tensor.cols@ == old(tensor).cols@,
            tensor.param_offsets@ == old(tensor).param_offsets@,
            forall|j: int| i <= j < n ==> #[trigger] tensor.data@[j] == old(tensor).data@[j],
            exact::<V>() ==> forall|j: int| 0 <= j < i ==> #[trigger] tensor.data@[j] == div_entries(es, data@)[j].0,
        decreases n - i,
    {
        assert(es[i as int] == old(tensor).entry(i as int));
        assert(0 <= es[i as int].1 <= usize::MAX);
        let row = tensor.rows[i] as usize;
        let data_val = if is_scalar {
            data[0]
        } else if row < data.len() {
            data[row]
        } else {
            one()
        };
        if !is_zero(&data_val) {
            let q = tensor.data[i].div(data_val);
            tensor.data.set(i, q);
        }
        i = i + 1;
    }
    assert(exact::<V>() ==> tensor.entries() =~= div_entries(es, data@));
}


// ---------------------------------------------------------------------------
// Reading constant operands
// ---------------------------------------------------------------------------

/// Two matrices of the same kind and dimensions.
pub open spec fn same_form<V>(a: MatrixView<V>, b: MatrixView<V>) -> bool {
    &&& a.dims() == b.dims()
    &&& (a is Scalar) == (b is Scalar)
    &&& (a is DenseColMajor) == (b is DenseColMajor)
    &&& (a is DenseRowMajor) == (b is DenseRowMajor)
    &&& (a is Sparse) == (b is Sparse)
}

/// Rows in range imply non-negative rows that fit a `usize`.
pub proof fn lemma_rows_nonneg<V>(t: SparseTensor<V>)
    requires
        t.wf(),
        t.rows_in_range(),
    ensures
        rows_nonneg(t.entries()),
{
    assert forall|k: int| 0 <= k < t.entries().len() implies 0 <= #[trigger] t.entries()[k].1 <= usize::MAX by {
        assert(t.entries()[k].1 == t.rows@[k]);
    }
}

/// Rows below `k * a_rows` stand for columns of `X` below `a_rows`.
pub proof fn lemma_right_rows_fit<V>(t: SparseTensor<V>, k: int, a_rows: int, dense: bool)
    requires
        t.wf(),
        t.rows_in_range(),
        k > 0,
        dense ==> t.shape.0 <= k * a_rows,
    ensures
        right_rows_fit(t.entries(), k, a_rows, dense),
{
    assert forall|q: int| 0 <= q < t.entries().len() implies {
        &&& 0 <= #[trigger] t.entries()[q].1 <= usize::MAX
        &&& dense ==> (t.entries()[q].1 as int) / k < a_rows
    } by {
        let r = t.rows@[q] as int;
        assert(t.entries()[q].1 == t.rows@[q]);
        if dense {
            lemma_fundamental_div_mod(r, k);
            assert(r / k < a_rows) by (nonlinear_arith)
                requires
                    r == k * (r / k) + r % k,
                    0 <= r % k,
                    r < k * a_rows,
                    k > 0,
            ;
        }
    }
}

/// The sums of the values of each row `r < size`: `result[r]` is the sum of
/// the values of the entries in row `r`.
fn accumulate_rows_exec<V: Scalar>(tensor: &SparseTensor<V>, size: usize, constant_only: bool) -> (v:
    Vec<V>)
    requires
        ops_total::<V>(),
        tensor.wf(),
        rows_nonneg(tensor.entries()),
    ensures
        v@.len() == size,
        exact::<V>() && !constant_only ==> v@ == accumulate_rows(tensor.entries(), size as int),
        exact::<V>() && constant_only ==> v@ == constant_column_values(
            tensor.entries(),
            size as int,
        ),
{
    let mut dense: Vec<V> = Vec::with_capacity(size);
    let mut k: usize = 0;
    let z: V = zero();
    while k < size
        invariant
            k <= size,
            dense@.len() == k,
            exact::<V>() ==> z == zero_spec::<V>(),
            exact::<V>() ==> forall|q: int| 0 <= q < k ==> #[trigger] dense@[q] == zero_spec::<V>(),
        decreases size - k,
    {
        dense.push(z);
        k = k + 1;
    }
    let ghost es = tensor.entries();
    proof {
        if exact::<V>() {
            assert(dense@ =~= accumulate_rows(es.subrange(0, 0), size as int));
            assert(dense@ =~= constant_column_values(es.subrange(0, 0), size as int));
        }
    }
    let n = tensor.nnz();
    let mut i: usize = 0;
    while i < n
        invariant
            ops_total::<V>(),
            tensor.wf(),
            es == tensor.entries(),
            n == es.len(),
            i <= n,
            rows_nonneg(es),
            dense@.len() == size,
            exact::<V>() && !constant_only ==> dense@ == accumulate_rows(es.subrange(0, i as int), size as int),
            exact::<V>() && constant_only ==> dense@ == constant_column_values(es.subrange(0, i as int), size as int),
        decreases n - i,
    {
        assert(es[i as int] == tensor.entry(i as int));
        assert(0 <= es[i as int].1 <= usize::MAX);
        let row = tensor.rows[i] as usize;
        let col = tensor.cols[i];
        proof {
            let s1 = es.subrange(0, i + 1);
            assert(s1.drop_last() =~= es.subrange(0, i as int));
            assert(s1.last() == es[i as int]);
        }
        if row < size && (!constant_only || col == CONSTANT_ID) {
            let sum = dense[row].add(tensor.data[i]);
            dense.set(row, sum);
        }
        i = i + 1;
    }
    assert(es.subrange(0, n as int) =~= es);
    dense
}

/// The matrix of column-major `values` of a constant of the given shape.
fn matrix_from_vec<V: Scalar>(values: Vec<V>, shape: &Vec<usize>) -> (m: ConstantMatrix<V>)
    requires
        size_fits(shape@),
        shape@.len() <= 2,
        values@.len() == shape_size(shape@),
    ensures
        m@.valid(),
        m@ == matrix_from_values(values@, shape@),
{
    proof {
        assert(crate::linop::prefix_size(shape@, 0) == 1);
        if shape@.len() >= 1 {
            assert(crate::linop::prefix_size(shape@, 1) == crate::linop::prefix_size(shape@, 0) * shape@[0]);
            assert(1 * shape@[0] == shape@[0] as int);
        }
        if shape@.len() == 2 {
            assert(crate::linop::prefix_size(shape@, 2) == crate::linop::prefix_size(shape@, 1) * shape@[1]);
        }
    }
    let (rows, cols): (usize, usize) = if shape.len() == 0 {
        (1, 1)
    } else if shape.len() == 1 {
        (1, shape[0])
    } else {
        (shape[0], shape[1])
    };
    if rows == 1 && cols == 1 {
        ConstantMatrix::Scalar(values[0])
    } else if rows == 1 {
        ConstantMatrix::DenseRowMajor { data: values, rows, cols }
    } else {
        ConstantMatrix::DenseColMajor { data: values, rows, cols }
    }
}

/// Extract matrix data directly from LinOp.data field
pub fn extract_matrix_from_data<V: Scalar>(lin_op: &LinOp<V>) -> (m: ConstantMatrix<V>)
    requires
        ops_total::<V>(),
        data_matrix_fits(lin_op.data),
    ensures
        m@.valid(),
        same_form(m@, matrix_from_data(lin_op.data)),
        exact::<V>() ==> m@ == matrix_from_data(lin_op.data),
{
    match &lin_op.data {
        LinOpData::Float(v) => ConstantMatrix::Scalar(*v),
        LinOpData::Int(v) => ConstantMatrix::Scalar(from_int(*v)),
        LinOpData::DenseArray { data, shape } => {
            if shape.len() == 0 || shape_product(shape) == 1 {
                ConstantMatrix::Scalar(data[0])
            } else if shape.len() == 1 {
                proof {
                    assert(1 * shape@[0] == shape@[0] as int);
                }
                ConstantMatrix::DenseRowMajor { data: copy_vec(data), rows: 1, cols: shape[0] }
            } else {
                ConstantMatrix::DenseColMajor { data: copy_vec(data), rows: shape[0], cols: shape[1] }
            }
        },
        LinOpData::SparseArray { data, indices, indptr, shape } => ConstantMatrix::Sparse {
            values: copy_vec(data),
            row_indices: copy_vec(indices),
            col_indptr: copy_vec(indptr),
            rows: shape.0,
            cols: shape.1,
        },
        _ => ConstantMatrix::Scalar(zero()),
    }
}

/// The constant vector a constant's own data holds, flattened column-major
/// (a sparse matrix is written out densely).
fn vector_from_data_exec<V: Scalar>(d: &LinOpData<V>) -> (v: Vec<V>)
    requires
        ops_total::<V>(),
        data_vector_fits(*d),
    ensures
        exact::<V>() ==> v@ == vector_from_data(*d),
{
    match d {
        LinOpData::Float(v) => vec![*v],
        LinOpData::Int(v) => vec![from_int(*v)],
        LinOpData::DenseArray { data, .. } => copy_vec(data),
        LinOpData::SparseArray { data, indices, indptr, shape } => {
            let n = shape.0 * shape.1;
            let m = shape.0;
            let mut dense: Vec<V> = Vec::with_capacity(n);
            let z: V = zero();
            let mut k: usize = 0;
            while k < n
                invariant
                    k <= n,
                    dense@.len() == k,
                    exact::<V>() ==> z == zero_spec::<V>(),
                    exact::<V>() ==> forall|q: int| 0 <= q < k ==> #[trigger] dense@[q] == zero_spec::<V>(),
                decreases n - k,
            {
                dense.push(z);
                k = k + 1;
            }
            let ghost base = Seq::new(n as nat, |i: int| zero_spec::<V>());
            assert(exact::<V>() ==> dense@ =~= base);
            let n_cols = indptr.len() - 1;
            let vlen = data.len();
            let mut j: usize = 0;
            while j < n_cols
                invariant
                    csc_matrix_valid(data@, indices@, indptr@, shape.0 as int, shape.1 as int),
                    n == shape.0 * shape.1,
                    m == shape.0,
                    n_cols == indptr@.len() - 1,
                    vlen == data@.len(),
                    j <= n_cols,
                    dense@.len() == n,
                    exact::<V>() ==> dense@ == densify_columns(base, data@, indices@, indptr@, m as int, j as int),
                decreases n_cols - j,
            {
                assert(0 <= indptr@[j as int] <= vlen);
                assert(0 <= indptr@[j + 1] <= vlen);
                let start = indptr[j] as usize;
                let end = indptr[j + 1] as usize;
                let ghost before = dense@;
                let mut idx: usize = start;
                while idx < end
                    invariant
                        csc_matrix_valid(data@, indices@, indptr@, shape.0 as int, shape.1 as int),
                        n == shape.0 * shape.1,
                        m == shape.0,
                        j < n_cols,
                        n_cols == indptr@.len() - 1,
                        vlen == data@.len(),
                        end <= vlen,
                        start <= idx,
                        start < end ==> idx <= end,
                        end <= start ==> idx == start,
                        dense@.len() == n,
                        exact::<V>() ==> dense@ == densify_positions(before, data@, indices@, j as int, m as int, start as int, idx as int),
                    decreases end - idx,
                {
                    assert(0 <= indices@[idx as int] < m);
                    let i = indices[idx] as usize;
                    assert(j * m + i < n) by (nonlinear_arith)
                        requires
                            j < n_cols,
                            n_cols == shape.1,
                            i < m,
                            m == shape.0,
                            n == shape.0 * shape.1,
                    ;
                    let flat_idx = j * m + i;
                    dense.set(flat_idx, data[idx]);
                    idx = idx + 1;
                }
                proof {
                    if end <= start {
                        assert(densify_positions(before, data@, indices@, j as int, m as int, start as int, end as int) == before);
                    }
                }
                j = j + 1;
            }
            dense
        },
        _ => vec![one()],
    }
}


/// Two matrices of the same form fit the same identity fast path.
proof fn lemma_same_form_fits<V>(a: MatrixView<V>, b: MatrixView<V>, off: int, n: int, out: int)
    requires
        same_form(a, b),
        a.valid(),
    ensures
        identity_offset_fits(b, off, n) ==> identity_offset_fits(a, off, n),
        identity_rows_fit(b, n, out) ==> identity_rows_fit(a, n, out),
        identity_tiles(a, n) == identity_tiles(b, n),
{
}

/// Extract matrix data by processing a complex LinOp in the context of
/// constants (no variables, one slice).
pub fn extract_matrix_from_linop<V: Scalar>(lin_op: &LinOp<V>, ctx: &ProcessingContext) -> (m:
    ConstantMatrix<V>)
    requires
        ops_total::<V>(),
        lowerable(*lin_op, const_ctx_view()),
        lin_op.shape@.len() <= 2,
    ensures
        m@.valid(),
        same_form(
            m@,
            matrix_from_values(
                accumulate_rows(lower(*lin_op, const_ctx_view()), shape_size(lin_op.shape@)),
                lin_op.shape@,
            ),
        ),
        exact::<V>() ==> m@ == matrix_from_values(
            accumulate_rows(lower(*lin_op, const_ctx_view()), shape_size(lin_op.shape@)),
            lin_op.shape@,
        ),
    decreases lin_op, 4nat,
{
    let const_ctx = ProcessingContext::for_constants();
    let tensor = process_linop(lin_op, &const_ctx);
    proof {
        lemma_rows_nonneg(tensor);
    }
    let size = lin_op.size();
    let dense = accumulate_rows_exec(&tensor, size, false);
    matrix_from_vec(dense, &lin_op.shape)
}

/// Extract matrix data by processing a LinOp in the actual context (used
/// for parameters).
pub fn extract_matrix_from_linop_with_ctx<V: Scalar>(lin_op: &LinOp<V>, ctx: &ProcessingContext) -> (m:
    ConstantMatrix<V>)
    requires
        ops_total::<V>(),
        lowerable(*lin_op, ctx@),
        lin_op.shape@.len() <= 2,
    ensures
        m@.valid(),
        same_form(
            m@,
            matrix_from_values(
                accumulate_rows(lower(*lin_op, ctx@), shape_size(lin_op.shape@)),
                lin_op.shape@,
            ),
        ),
        exact::<V>() ==> m@ == matrix_from_values(
            accumulate_rows(lower(*lin_op, ctx@), shape_size(lin_op.shape@)),
            lin_op.shape@,
        ),
    decreases lin_op, 4nat,
{
    let tensor = process_linop(lin_op, ctx);
    proof {
        lemma_rows_nonneg(tensor);
    }
    let size = lin_op.size();
    let dense = accumulate_rows_exec(&tensor, size, false);
    matrix_from_vec(dense, &lin_op.shape)
}

/// Helper: extract constant matrix data from a LinOp (2D case).
/// For left multiplication, 1D arrays are treated as row vectors (1, n).
pub fn get_constant_matrix_data<V: Scalar>(lin_op: &LinOp<V>, ctx: &ProcessingContext) -> (m:
    ConstantMatrix<V>)
    requires
        ops_total::<V>(),
        ctx@.valid(),
        const_matrix_fits(*lin_op, ctx@),
    ensures
        m@.valid(),
        same_form(m@, const_matrix(*lin_op, ctx@)),
        exact::<V>() ==> m@ == const_matrix(*lin_op, ctx@),
    decreases lin_op, 5nat,
{
    match lin_op.op_type {
        OpType::DenseConst | OpType::SparseConst | OpType::ScalarConst => extract_matrix_from_data(lin_op),
        OpType::Param => extract_matrix_from_linop_with_ctx(lin_op, ctx),
        _ => extract_matrix_from_linop(lin_op, ctx),
    }
}

/// Get constant matrix data for RMul, with special handling for 1D arrays:
/// a vector is a column `(n, 1)` unless the argument has exactly as many
/// columns as the vector has rows as a row vector.
pub fn get_constant_matrix_data_for_rmul<V: Scalar>(
    lin_op: &LinOp<V>,
    arg: &LinOp<V>,
    ctx: &ProcessingContext,
) -> (m: ConstantMatrix<V>)
    requires
        ops_total::<V>(),
        ctx@.valid(),
        const_matrix_fits(*lin_op, ctx@),
    ensures
        m@.valid(),
        same_form(m@, const_matrix_rmul(*lin_op, *arg, ctx@)),
        exact::<V>() ==> m@ == const_matrix_rmul(*lin_op, *arg, ctx@),
    decreases lin_op, 6nat,
{
    let result = get_constant_matrix_data(lin_op, ctx);
    if lin_op.shape.len() != 1 {
        return result;
    }
    let arg_cols = if arg.shape.len() == 1 {
        arg.shape[0]
    } else if arg.shape.len() >= 2 {
        arg.shape[1]
    } else {
        1
    };
    match result {
        ConstantMatrix::DenseRowMajor { data, rows, cols } => {
            if arg_cols != rows {
                assert(cols * rows == rows * cols) by (nonlinear_arith);
                ConstantMatrix::DenseColMajor { data, rows: cols, cols: rows }
            } else {
                ConstantMatrix::DenseRowMajor { data, rows, cols }
            }
        },
        ConstantMatrix::DenseColMajor { data, rows, cols } => {
            if arg_cols != rows {
                assert(cols * rows == rows * cols) by (nonlinear_arith);
                ConstantMatrix::DenseColMajor { data, rows: cols, cols: rows }
            } else {
                ConstantMatrix::DenseColMajor { data, rows, cols }
            }
        },
        other => other,
    }
}

/// Extract constant values from a tensor: the sum of the values in each row
/// that lie in the column `CONSTANT_ID`.
pub fn extract_constant_values_from_tensor<V: Scalar>(tensor: &SparseTensor<V>, size: usize) -> (v:
    Vec<V>)
    requires
        ops_total::<V>(),
        tensor.wf(),
        tensor.rows_in_range(),
    ensures
        v@.len() == size,
        exact::<V>() ==> v@ == constant_column_values(tensor.entries(), size as int),
{
    proof {
        lemma_rows_nonneg(*tensor);
    }
    accumulate_rows_exec(tensor, size, true)
}

/// Helper: extract constant vector data from a LinOp (flattened in
/// column-major order).
pub fn get_constant_vector_data<V: Scalar>(lin_op: &LinOp<V>, ctx: &ProcessingContext) -> (v: Vec<V>)
    requires
        ops_total::<V>(),
        ctx@.valid(),
        const_vector_fits(*lin_op, ctx@),
    ensures
        exact::<V>() ==> v@ == const_vector(*lin_op, ctx@),
    decreases lin_op, 5nat,
{
    match lin_op.op_type {
        OpType::DenseConst | OpType::SparseConst | OpType::ScalarConst | OpType::Param => {
            vector_from_data_exec(&lin_op.data)
        },
        _ => {
            let tensor = process_linop(lin_op, ctx);
            extract_constant_values_from_tensor(&tensor, lin_op.size())
        },
    }
}

// ---------------------------------------------------------------------------
// Handlers
// ---------------------------------------------------------------------------

/// Returns Some(var_id) if this LinOp is a plain variable, possibly wrapped
/// in Reshape or single-arg Sum nodes (which are no-ops in COO format).
pub fn as_plain_variable<V>(lin_op: &LinOp<V>) -> (r: Option<i64>)
    ensures
        r == as_plain_variable_spec(*lin_op),
    decreases lin_op,
{
    match lin_op.op_type {
        OpType::Variable => {
            if let LinOpData::Int(id) = &lin_op.data {
                Some(*id)
            } else {
                None
            }
        },
        OpType::Reshape | OpType::Sum => {
            if lin_op.args.len() == 1 {
                as_plain_variable(&lin_op.args[0])
            } else {
                None
            }
        },
        _ => None,
    }
}

/// The identity a typed lowering stands for: a single identity block in the
/// constant slice, as (column offset, width).
pub open spec fn as_typed_identity_spec<V>(nv: NodeValue<V>, c: CtxView) -> Option<(i64, usize)> {
    if nv.blocks@.len() != 1 {
        None
    } else {
        let be = nv.blocks@[0];
        if be.param_slot != c.const_param() {
            None
        } else {
            match be.block {
                Block::Identity { n } => Some((be.var_col_offset, n)),
                _ => None,
            }
        }
    }
}

/// Returns `Some((var_col_offset, n))` if the NodeValue is a single
/// non-parametric `Identity(n)` block — the precondition for the identity
/// fast path.
pub fn as_typed_identity<V>(nv: &NodeValue<V>, ctx: &ProcessingContext) -> (r: Option<(i64, usize)>)
    requires
        ctx.param_size_plus_one > i64::MIN,
    ensures
        r == as_typed_identity_spec(*nv, ctx@),
{
    if nv.blocks.len() != 1 {
        return None;
    }
    let entry = &nv.blocks[0];
    if entry.param_slot != ctx.const_param() {
        return None;
    }
    match &entry.block {
        Block::Identity { n } => Some((entry.var_col_offset, *n)),
        _ => None,
    }
}

/// Process negation operation: negates all values, `(A, b) -> (-A, -b)`.
pub fn process_neg<V: Scalar>(lin_op: &LinOp<V>, ctx: &ProcessingContext) -> (t: SparseTensor<V>)
    requires
        ops_total::<V>(),
        lowerable(*lin_op, ctx@),
        lin_op.op_type == OpType::Neg,
    ensures
        t.wf(),
        t.shape == (lower_rows(*lin_op) as usize, ctx@.var_cols()),
        t.rows_in_range(),
        exact::<V>() ==> t.entries() == lower(*lin_op, ctx@),
        value_free(*lin_op) ==> entry_keys(t.entries()) == entry_keys(lower(*lin_op, ctx@)),
    decreases lin_op, 1nat,
{
    if lin_op.args.len() == 0 {
        let t = SparseTensor::empty((lin_op.size(), ctx.var_cols()));
        assert(t.entries() =~= Seq::<Entry<V>>::empty());
        return t;
    }
    let mut tensor = process_linop(&lin_op.args[0], ctx);
    let ghost before = tensor.entries();
    tensor.negate_in_place();
    assert(exact::<V>() ==> tensor.entries() =~= negated_entries(before));
    proof {
        assert(entry_keys(tensor.entries()) =~= entry_keys(before));
        let la = lower(lin_op.args@[0], ctx@);
        assert(entry_keys(negated_entries(la)) =~= entry_keys(la));
        if value_free(*lin_op) {
            assert(value_free(lin_op.args@[0]));
        }
    }
    tensor
}

/// Process left multiplication: data @ arg
///
/// Multiplies the argument tensor from the left by a constant matrix,
/// block-diagonalized according to the output shape.  When the constant
/// data is parametric, its lowering (with its slices) is multiplied in.
pub fn process_mul<V: Scalar>(lin_op: &LinOp<V>, ctx: &ProcessingContext) -> (t: SparseTensor<V>)
    requires
        ops_total::<V>(),
        lowerable(*lin_op, ctx@),
        lin_op.op_type == OpType::Mul,
    ensures
        t.wf(),
        t.shape == (lower_rows(*lin_op) as usize, ctx@.var_cols()),
        t.rows_in_range(),
        exact::<V>() ==> t.entries() == lower(*lin_op, ctx@),
    decreases lin_op, 1nat,
{
    let out = lin_op.size();
    if lin_op.args.len() == 0 {
        return SparseTensor::empty((out, ctx.var_cols()));
    }
    let lhs_linop: &LinOp<V> = match &lin_op.data {
        LinOpData::LinOpRef(inner) => inner,
        _ => {
            return SparseTensor::empty((out, ctx.var_cols()));
        },
    };
    let arg = &lin_op.args[0];
    let ghost c = ctx@;
    proof {
        lemma_lowerable_basics(*lin_op, c);
        lemma_lowerable_basics(*arg, c);
        if is_parametric_spec(*lhs_linop) {
            lemma_lowerable_basics(*lhs_linop, c);
        }
    }
    // Fast path: Mul(ConstantMatrix, Variable): the Jacobian of A @ X is
    // kron(I_k, A), emitted without multiplying.
    if !is_parametric(lhs_linop) {
        if let Some(var_id) = as_plain_variable(arg) {
            let lhs_data = get_constant_matrix_data(lhs_linop, ctx);
            let n = arg.size();
            proof {
                lemma_same_form_fits(lhs_data@, const_matrix(*lhs_linop, c), c.var_col(var_id) as int, n as int, out as int);
            }
            if let Some(t) = mul_const_by_variable(lhs_data, var_id, n, out, ctx) {
                return t;
            }
        }
    }
    // Generalised fast path: any argument whose typed lowering is a single
    // identity block.
    let rhs_block = if !is_parametric(lhs_linop) {
        let block = process_linop_block(arg, ctx);
        if let Some((off, n)) = as_typed_identity(&block, ctx) {
            let lhs_data = get_constant_matrix_data(lhs_linop, ctx);
            proof {
                crate::operations::lemma_identity_operand(*arg, c);
                lemma_same_form_fits(lhs_data@, const_matrix(*lhs_linop, c), off as int, n as int, out as int);
            }
            if let Some(t) = mul_const_by_identity_offset(lhs_data, off, n, out, ctx) {
                return t;
            }
        }
        Some(block)
    } else {
        None
    };
    let rhs = match rhs_block {
        Some(b) => b.to_coo(),
        None => process_linop(arg, ctx),
    };
    if is_parametric(lhs_linop) {
        let lhs_tensor = process_linop(lhs_linop, ctx);
        proof {
            lemma_rows_nonneg(lhs_tensor);
            let (a_rows, a_cols) = left_dims(lhs_linop.shape@);
            lemma_dims_fit(lhs_linop.shape@);
            if a_cols > 0 {
                lemma_left_rows_fit(rhs, a_rows, a_cols, out as int);
            }
        }
        return multiply_parametric_left(&lhs_tensor, lhs_linop, &rhs, out, ctx);
    }
    let lhs_data = get_constant_matrix_data(lhs_linop, ctx);
    proof {
        if !(lhs_data@ is Scalar) && lhs_data@.dims().1 > 0 {
            lemma_left_rows_fit(rhs, lhs_data@.dims().0, lhs_data@.dims().1, out as int);
        }
    }
    multiply_block_diagonal(&lhs_data, &rhs, out, ctx)
}

/// Process right multiplication: arg @ data
///
/// Multiplies the argument tensor from the right by a constant matrix; a
/// parametric constant is multiplied in through its lowering.
pub fn process_rmul<V: Scalar>(lin_op: &LinOp<V>, ctx: &ProcessingContext) -> (t: SparseTensor<V>)
    requires
        ops_total::<V>(),
        lowerable(*lin_op, ctx@),
        lin_op.op_type == OpType::Rmul,
    ensures
        t.wf(),
        t.shape == (lower_rows(*lin_op) as usize, ctx@.var_cols()),
        t.rows_in_range(),
        exact::<V>() ==> t.entries() == lower(*lin_op, ctx@),
    decreases lin_op, 1nat,
{
    let out = lin_op.size();
    if lin_op.args.len() == 0 {
        return SparseTensor::empty((out, ctx.var_cols()));
    }
    let rhs_linop: &LinOp<V> = match &lin_op.data {
        LinOpData::LinOpRef(inner) => inner,
        _ => {
            return SparseTensor::empty((out, ctx.var_cols()));
        },
    };
    let arg = &lin_op.args[0];
    proof {
        lemma_lowerable_basics(*lin_op, ctx@);
        lemma_lowerable_basics(*arg, ctx@);
        if is_parametric_spec(*rhs_linop) {
            lemma_lowerable_basics(*rhs_linop, ctx@);
        }
    }
    let lhs = process_linop(arg, ctx);
    if is_parametric(rhs_linop) {
        let rhs_tensor = process_linop(rhs_linop, ctx);
        proof {
            lemma_rows_nonneg(rhs_tensor);
            let (a_rows, a_cols) = right_dims(rhs_linop.shape@, arg.shape@);
            if a_cols > 0 && (out as int) / a_cols > 0 {
                lemma_right_rows_fit(lhs, (out as int) / a_cols, a_rows, true);
            }
        }
        return multiply_parametric_right(&lhs, &rhs_tensor, rhs_linop, &arg.shape, out, ctx);
    }
    let rhs_data = get_constant_matrix_data_for_rmul(rhs_linop, arg, ctx);
    proof {
        let (a_rows, a_cols) = rhs_data@.dims();
        if !(rhs_data@ is Scalar) && a_cols > 0 && (out as int) / a_cols > 0 {
            lemma_right_rows_fit(lhs, (out as int) / a_cols, a_rows, !(rhs_data@ is Sparse));
        }
    }
    multiply_block_diagonal_right(&lhs, &rhs_data, out, ctx)
}

/// Process elementwise multiplication: arg * data, with the data lowered
/// so that its parameter slices are kept.
pub fn process_mul_elem<V: Scalar>(lin_op: &LinOp<V>, ctx: &ProcessingContext) -> (t: SparseTensor<V>)
    requires
        ops_total::<V>(),
        lowerable(*lin_op, ctx@),
        lin_op.op_type == OpType::MulElem,
    ensures
        t.wf(),
        t.shape == (lower_rows(*lin_op) as usize, ctx@.var_cols()),
        t.rows_in_range(),
        exact::<V>() ==> t.entries() == lower(*lin_op, ctx@),
    decreases lin_op, 1nat,
{
    let out = lin_op.size();
    if lin_op.args.len() == 0 {
        return SparseTensor::empty((out, ctx.var_cols()));
    }
    let data_linop: &LinOp<V> = match &lin_op.data {
        LinOpData::LinOpRef(inner) => inner,
        _ => {
            return SparseTensor::empty((out, ctx.var_cols()));
        },
    };
    proof {
        lemma_lowerable_basics(lin_op.args@[0], ctx@);
        lemma_lowerable_basics(*data_linop, ctx@);
    }
    let arg_tensor = process_linop(&lin_op.args[0], ctx);
    let data_tensor = process_linop(data_linop, ctx);
    proof {
        lemma_rows_nonneg(arg_tensor);
        lemma_rows_nonneg(data_tensor);
    }
    mul_elem_tensors(&arg_tensor, &data_tensor, data_linop.size(), out, ctx)
}

/// Process division: arg / data, elementwise by constant data (a scalar is
/// broadcast; a zero divisor leaves the value unchanged).
pub fn process_div<V: Scalar>(lin_op: &LinOp<V>, ctx: &ProcessingContext) -> (t: SparseTensor<V>)
    requires
        ops_total::<V>(),
        lowerable(*lin_op, ctx@),
        lin_op.op_type == OpType::Div,
    ensures
        t.wf(),
        t.shape == (lower_rows(*lin_op) as usize, ctx@.var_cols()),
        t.rows_in_range(),
        exact::<V>() ==> t.entries() == lower(*lin_op, ctx@),
    decreases lin_op, 1nat,
{
    if lin_op.args.len() == 0 {
        return SparseTensor::empty((lin_op.size(), ctx.var_cols()));
    }
    let data_linop: &LinOp<V> = match &lin_op.data {
        LinOpData::LinOpRef(inner) => inner,
        _ => {
            return SparseTensor::empty((lin_op.size(), ctx.var_cols()));
        },
    };
    let mut tensor = process_linop(&lin_op.args[0], ctx);
    let data = get_constant_vector_data(data_linop, ctx);
    proof {
        lemma_rows_nonneg(tensor);
    }
    div_by_values(&mut tensor, &data);
    tensor
}

} // verus!
