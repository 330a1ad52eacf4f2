//! Lowering of LinOp trees to sparse tensors.
//!
//! [`ProcessingContext`] holds the column layout of the problem: where each
//! variable's columns start, where each parameter's slices start and how many
//! there are.  The handlers in the submodules turn one LinOp node into a
//! [`crate::tensor::SparseTensor`].
use vstd::prelude::*;
use std::collections::HashMap;
use crate::linop::{data_op, is_parametric_spec, shape_size, size_fits, LinOp, LinOpData, OpType};
use crate::operations::arithmetic::{
    csc_matrix_valid, div_entries, identity_rows_fit, left_consistent, left_dims, left_rows_fit,
    lmul_entries, mul_elem_entries,
    identity_tiles, lemma_identity_product, mul_identity_entries, param_left_entries, unit_law, param_right_entries, right_dims, right_fits,
    right_rows_fit, rmul_entries, rows_nonneg, identity_offset_fits, MatrixView,
};
use crate::operations::leaf::{
    dense_const_entries, dense_const_fits, has_scalar_data, int_data, param_entries, param_fits,
    scalar_const_entries, sparse_const_entries, sparse_const_fits, variable_entries,
    variable_fits,
};
use crate::scalar::{exact, from_int_spec, is_zero_spec, one_spec, ops_total, zero_spec, Scalar};
use crate::tensor::{entry_keys, lemma_keys_concat, Entry, SparseTensor, CONSTANT_ID};
use crate::block::{block_fits, block_rows_ok, identity_entries, lemma_single_block_entries, Block, BlockEntry, NodeValue};
use crate::operations::arithmetic::{as_typed_identity_spec, count_nonzero, identity_block_entries, ConstantMatrix};
use crate::operations::structural::{index_map, slices_of, slices_valid};
use crate::tensor::select_rows_spec;
use vstd::std_specs::ops::{AddSpec, NegSpec};

pub mod arithmetic;
pub mod leaf;
pub mod partial;
pub mod sources;
pub mod structural;

verus! {

/// Context for processing LinOp trees
#[derive(Clone)]
pub struct ProcessingContext {
    pub id_to_col: HashMap<i64, i64>,
    pub param_to_size: HashMap<i64, i64>,
    pub param_to_col: HashMap<i64, i64>,
    pub var_length: i64,
    pub param_size_plus_one: i64,
}

/// The mathematical content of a [`ProcessingContext`].
pub struct CtxView {
    pub id_to_col: Map<i64, i64>,
    pub param_to_size: Map<i64, i64>,
    pub param_to_col: Map<i64, i64>,
    pub var_length: i64,
    pub param_size_plus_one: i64,
}

/// The value `m` holds for `key`, or `default` when it holds none.
pub open spec fn lookup_or(m: Map<i64, i64>, key: i64, default: i64) -> i64 {
    if m.contains_key(key) {
        m[key]
    } else {
        default
    }
}

impl View for ProcessingContext {
    type V = CtxView;

    open spec fn view(&self) -> CtxView {
        CtxView {
            id_to_col: self.id_to_col@,
            param_to_size: self.param_to_size@,
            param_to_col: self.param_to_col@,
            var_length: self.var_length,
            param_size_plus_one: self.param_size_plus_one,
        }
    }
}

impl CtxView {
    /// Column offset of a variable (0 for an unknown variable).
    pub open spec fn var_col(self, var_id: i64) -> i64 {
        lookup_or(self.id_to_col, var_id, 0)
    }

    /// Slice offset of a parameter (0 for an unknown parameter).
    pub open spec fn param_col(self, param_id: i64) -> i64 {
        lookup_or(self.param_to_col, param_id, 0)
    }

    /// Number of slices of a parameter (1 for an unknown parameter).
    pub open spec fn param_size(self, param_id: i64) -> i64 {
        lookup_or(self.param_to_size, param_id, 1)
    }

    /// Slice of the non-parametric part of the problem data.
    pub open spec fn const_param(self) -> i64 {
        (self.param_size_plus_one - 1) as i64
    }

    /// Number of columns of a lowered tensor: the variables and the constant.
    pub open spec fn var_cols(self) -> usize {
        (self.var_length + 1) as usize
    }

    /// The column count and the constant slice are representable.
    pub open spec fn valid(self) -> bool {
        &&& 0 <= self.var_length
        &&& self.var_length < usize::MAX
        &&& self.var_length < i64::MAX
        &&& self.param_size_plus_one > i64::MIN
    }
}

/// The context in which constant expressions are evaluated: no variables,
/// one slice, the constant column at 0.
pub open spec fn const_ctx_view() -> CtxView {
    CtxView {
        id_to_col: Map::empty(),
        param_to_size: Map::empty().insert(CONSTANT_ID, 1i64),
        param_to_col: Map::empty().insert(CONSTANT_ID, 0i64),
        var_length: 0,
        param_size_plus_one: 1,
    }
}

impl ProcessingContext {
    /// Get the column offset for a variable ID
    pub fn var_col(&self, var_id: i64) -> (c: i64)
        ensures
            c == self@.var_col(var_id),
    {
        match self.id_to_col.get(&var_id) {
            Some(c) => *c,
            None => 0,
        }
    }

    /// Get the column offset for a parameter ID
    pub fn param_col(&self, param_id: i64) -> (c: i64)
        ensures
            c == self@.param_col(param_id),
    {
        match self.param_to_col.get(&param_id) {
            Some(c) => *c,
            None => 0,
        }
    }

    /// Get the size of a parameter
    pub fn param_size(&self, param_id: i64) -> (n: i64)
        ensures
            n == self@.param_size(param_id),
    {
        match self.param_to_size.get(&param_id) {
            Some(n) => *n,
            None => 1,
        }
    }

    /// Get the constant column offset (var_length for the 'b' column)
    pub fn const_col(&self) -> (c: i64)
        ensures
            c == self.var_length,
    {
        self.var_length
    }

    /// Get the constant parameter offset (last slice for non-parametric)
    pub fn const_param(&self) -> (p: i64)
        requires
            self.param_size_plus_one > i64::MIN,
        ensures
            p == self@.const_param(),
            p == self.param_size_plus_one - 1,
    {
        self.param_size_plus_one - 1
    }

    /// Number of columns of a lowered tensor: `var_length + 1`.
    pub fn var_cols(&self) -> (n: usize)
        requires
            self@.valid(),
        ensures
            n == self@.var_cols(),
            n == self.var_length + 1,
    {
        self.var_length as usize + 1
    }

    /// The context in which constant expressions are evaluated.
    pub fn for_constants() -> (c: ProcessingContext)
        ensures
            c@ == const_ctx_view(),
    {
        let mut param_to_col = HashMap::new();
        param_to_col.insert(CONSTANT_ID, 0);
        let mut param_to_size = HashMap::new();
        param_to_size.insert(CONSTANT_ID, 1);
        let c = ProcessingContext {
            id_to_col: HashMap::new(),
            param_to_col,
            param_to_size,
            var_length: 0,
            param_size_plus_one: 1,
        };
        assert(c@.id_to_col =~= Map::<i64, i64>::empty());
        assert(c@.param_to_col =~= Map::<i64, i64>::empty().insert(CONSTANT_ID, 0i64));
        assert(c@.param_to_size =~= Map::<i64, i64>::empty().insert(CONSTANT_ID, 1i64));
        c
    }
}


// ---------------------------------------------------------------------------
// What a tree lowers to
// ---------------------------------------------------------------------------

/// Every value negated.
pub open spec fn negated_entries<V: Scalar>(es: Seq<Entry<V>>) -> Seq<Entry<V>> {
    Seq::new(es.len(), |i: int| (es[i].0.neg_spec(), es[i].1, es[i].2, es[i].3))
}

/// The variable a node stands for when it is a variable, possibly wrapped in
/// reshapes and one-argument sums.
pub open spec fn as_plain_variable_spec<V>(op: LinOp<V>) -> Option<i64>
    decreases op,
{
    match op.op_type {
        OpType::Variable => match op.data {
            LinOpData::Int(id) => Some(id),
            _ => None,
        },
        OpType::Reshape | OpType::Sum => if op.args@.len() == 1 {
            as_plain_variable_spec(op.args@[0])
        } else {
            None
        },
        _ => None,
    }
}

/// Column offset and width of the identity a `Mul` argument stands for: a
/// plain variable's columns, or else the node's typed identity block.
pub open spec fn identity_operand<V>(op: LinOp<V>, c: CtxView) -> Option<(int, int)> {
    match as_plain_variable_spec(op) {
        Some(id) => Some((c.var_col(id) as int, shape_size(op.shape@))),
        None => match typed_identity(op, c) {
            Some((off, n)) => Some((off as int, n as int)),
            None => None,
        },
    }
}

/// The general product of `A` with an operand whose rows lie below
/// `arg_rows` keeps its rows below `out`.
pub open spec fn general_left_fits<V>(m: MatrixView<V>, arg_rows: int, out: int) -> bool {
    if m is Scalar {
        arg_rows <= out
    } else {
        left_consistent(arg_rows, m.dims().0, m.dims().1, out)
    }
}

/// Column offset and width of the identity block a node lowers to, when its
/// typed lowering is a single identity in the constant slice.
pub open spec fn typed_identity<V>(op: LinOp<V>, c: CtxView) -> Option<(i64, usize)>
    decreases op,
{
    match op.op_type {
        OpType::Variable => match op.data {
            LinOpData::Int(id) => Some((c.var_col(id), shape_size(op.shape@) as usize)),
            _ => None,
        },
        OpType::Index => if is_window_index(op) {
            let start = slices_of(op)[0].start as int;
            let count = op.shape@[0] as int;
            match typed_identity(op.args@[0], c) {
                Some((off, n)) => if 0 <= start && start + count <= n {
                    Some(((off + start) as i64, count as usize))
                } else {
                    None
                },
                None => None,
            }
        } else {
            None
        },
        _ => None,
    }
}

/// A one-dimensional index of a one-dimensional argument by a single slice
/// of step 1: a window of consecutive elements.
pub open spec fn is_window_index<V>(op: LinOp<V>) -> bool {
    &&& op.args@.len() > 0
    &&& op.shape@.len() == 1
    &&& op.args@[0].shape@.len() == 1
    &&& op.data is Slices
    &&& slices_of(op).len() == 1
    &&& slices_of(op)[0].step == 1
}

/// The sum of the values of the entries of each row `r < size`, from zero.
pub open spec fn accumulate_rows<V: Scalar>(es: Seq<Entry<V>>, size: int) -> Seq<V>
    decreases es.len(),
{
    if es.len() == 0 {
        Seq::new(size as nat, |i: int| zero_spec::<V>())
    } else {
        let a = accumulate_rows(es.drop_last(), size);
        let e = es.last();
        if 0 <= e.1 < size {
            a.update(e.1 as int, a[e.1 as int].add_spec(e.0))
        } else {
            a
        }
    }
}

/// The sum of the values of the entries of each row `r < size` that lie in
/// column `CONSTANT_ID`, from zero.
pub open spec fn constant_column_values<V: Scalar>(es: Seq<Entry<V>>, size: int) -> Seq<V>
    decreases es.len(),
{
    if es.len() == 0 {
        Seq::new(size as nat, |i: int| zero_spec::<V>())
    } else {
        let a = constant_column_values(es.drop_last(), size);
        let e = es.last();
        if 0 <= e.1 < size && e.2 == CONSTANT_ID {
            a.update(e.1 as int, a[e.1 as int].add_spec(e.0))
        } else {
            a
        }
    }
}

/// Rows and columns of a constant of the given shape read as a matrix: a
/// vector is a row, a scalar 1x1.
pub open spec fn matrix_dims(shape: Seq<usize>) -> (int, int) {
    if shape.len() == 0 {
        (1, 1)
    } else if shape.len() == 1 {
        (1, shape[0] as int)
    } else {
        (shape[0] as int, shape[1] as int)
    }
}

/// A matrix from column-major values of the given shape.
pub open spec fn matrix_from_values<V>(values: Seq<V>, shape: Seq<usize>) -> MatrixView<V> {
    let (rows, cols) = matrix_dims(shape);
    if rows == 1 && cols == 1 {
        MatrixView::Scalar(values[0])
    } else if rows == 1 {
        MatrixView::DenseRowMajor(values, rows, cols)
    } else {
        MatrixView::DenseColMajor(values, rows, cols)
    }
}

/// The matrix a constant's own data holds.
pub open spec fn matrix_from_data<V: Scalar>(d: LinOpData<V>) -> MatrixView<V> {
    match d {
        LinOpData::Float(v) => MatrixView::Scalar(v),
        LinOpData::Int(v) => MatrixView::Scalar(from_int_spec::<V>(v)),
        LinOpData::DenseArray { data, shape } => if shape@.len() == 0 || shape_size(shape@) == 1 {
            MatrixView::Scalar(data@[0])
        } else if shape@.len() == 1 {
            MatrixView::DenseRowMajor(data@, 1, shape@[0] as int)
        } else {
            MatrixView::DenseColMajor(data@, shape@[0] as int, shape@[1] as int)
        },
        LinOpData::SparseArray { data, indices, indptr, shape } => MatrixView::Sparse(
            data@,
            indices@,
            indptr@,
            shape.0 as int,
            shape.1 as int,
        ),
        _ => MatrixView::Scalar(zero_spec::<V>()),
    }
}

/// The values of a CSC matrix with `m` rows written column-major into `base`,
/// for the first `ncols` columns.
pub open spec fn densify_columns<V>(
    base: Seq<V>,
    data: Seq<V>,
    indices: Seq<i64>,
    indptr: Seq<i64>,
    m: int,
    ncols: int,
) -> Seq<V>
    decreases ncols,
{
    if ncols <= 0 {
        base
    } else {
        let prev = densify_columns(base, data, indices, indptr, m, ncols - 1);
        densify_positions(prev, data, indices, ncols - 1, m, indptr[ncols - 1] as int, indptr[ncols] as int)
    }
}

/// The values at stored positions `lo..hi` of column `j` written into `base`.
pub open spec fn densify_positions<V>(
    base: Seq<V>,
    data: Seq<V>,
    indices: Seq<i64>,
    j: int,
    m: int,
    lo: int,
    hi: int,
) -> Seq<V>
    decreases hi - lo,
{
    if hi <= lo {
        base
    } else {
        let prev = densify_positions(base, data, indices, j, m, lo, hi - 1);
        prev.update(j * m + indices[hi - 1], data[hi - 1])
    }
}

/// The values a constant's own data holds, flattened column-major.
pub open spec fn vector_from_data<V: Scalar>(d: LinOpData<V>) -> Seq<V> {
    match d {
        LinOpData::Float(v) => seq![v],
        LinOpData::Int(v) => seq![from_int_spec::<V>(v)],
        LinOpData::DenseArray { data, .. } => data@,
        LinOpData::SparseArray { data, indices, indptr, shape } => densify_columns(
            Seq::new((shape.0 * shape.1) as nat, |i: int| zero_spec::<V>()),
            data@,
            indices@,
            indptr@,
            shape.0 as int,
            indptr@.len() - 1,
        ),
        _ => seq![one_spec::<V>()],
    }
}

/// The node is a constant leaf whose data is read directly.
pub open spec fn is_data_constant(op: OpType) -> bool {
    op == OpType::DenseConst || op == OpType::SparseConst || op == OpType::ScalarConst
}

/// The entries of the lowerings of the first `k` arguments, in order.
pub open spec fn lower_args<V: Scalar>(op: LinOp<V>, c: CtxView, k: int) -> Seq<Entry<V>>
    decreases op, 1nat, k,
{
    if k <= 0 || k > op.args@.len() {
        seq![]
    } else {
        lower_args(op, c, k - 1) + lower(op.args@[k - 1], c)
    }
}

/// The matrix a constant operand of a product is read as.
pub open spec fn const_matrix<V: Scalar>(op: LinOp<V>, c: CtxView) -> MatrixView<V>
    decreases op, 6nat, 0int,
{
    if is_data_constant(op.op_type) {
        matrix_from_data(op.data)
    } else if op.op_type == OpType::Param {
        matrix_from_values(accumulate_rows(lower(op, c), shape_size(op.shape@)), op.shape@)
    } else {
        matrix_from_values(
            accumulate_rows(lower(op, const_ctx_view()), shape_size(op.shape@)),
            op.shape@,
        )
    }
}

/// The values a constant operand of a quotient is read as.
pub open spec fn const_vector<V: Scalar>(op: LinOp<V>, c: CtxView) -> Seq<V>
    decreases op, 6nat, 0int,
{
    if is_data_constant(op.op_type) || op.op_type == OpType::Param {
        vector_from_data(op.data)
    } else {
        constant_column_values(lower(op, c), shape_size(op.shape@))
    }
}

/// Columns of the argument of a right product (1 for a scalar).
pub open spec fn arg_cols(arg_shape: Seq<usize>) -> int {
    if arg_shape.len() == 1 {
        arg_shape[0] as int
    } else if arg_shape.len() >= 2 {
        arg_shape[1] as int
    } else {
        1
    }
}

/// The matrix the constant operand of `X @ A` is read as: a vector `A` is a
/// column unless `X` has a single column.
pub open spec fn const_matrix_rmul<V: Scalar>(op: LinOp<V>, arg: LinOp<V>, c: CtxView) -> MatrixView<
    V,
>
    decreases op, 7nat, 0int,
{
    let base = const_matrix(op, c);
    if op.shape@.len() != 1 {
        base
    } else {
        let ac = arg_cols(arg.shape@);
        match base {
            MatrixView::DenseRowMajor(d, r, cc) => if ac != r {
                MatrixView::DenseColMajor(d, cc, r)
            } else {
                base
            },
            MatrixView::DenseColMajor(d, r, cc) => if ac != r {
                MatrixView::DenseColMajor(d, cc, r)
            } else {
                base
            },
            _ => base,
        }
    }
}

/// What a tree lowers to: the entries `(value, row, column, slice)` of its
/// coefficient tensor, in the order the handlers emit them.
pub open spec fn lower<V: Scalar>(op: LinOp<V>, c: CtxView) -> Seq<Entry<V>>
    decreases op, 5nat, 0int,
{
    let n_args = op.args@.len();
    let out = shape_size(op.shape@);
    let cp = c.const_param();
    match op.op_type {
        OpType::Variable => variable_entries(op, c),
        OpType::ScalarConst => scalar_const_entries(op, c),
        OpType::DenseConst => dense_const_entries(op, c),
        OpType::SparseConst => sparse_const_entries(op, c),
        OpType::Param => param_entries(op, c),
        OpType::Sum => lower_args(op, c, n_args as int),
        OpType::Neg => if n_args == 0 {
            seq![]
        } else {
            negated_entries(lower(op.args@[0], c))
        },
        OpType::Reshape => if n_args == 0 {
            seq![]
        } else {
            lower(op.args@[0], c)
        },
        OpType::Mul => if n_args == 0 {
            seq![]
        } else {
            match op.data {
                LinOpData::LinOpRef(lhs) => {
                    let arg = op.args@[0];
                    if !is_parametric_spec(*lhs) {
                        let m = const_matrix(*lhs, c);
                        match identity_operand(arg, c) {
                            Some((off, n)) => if identity_tiles(m, n) {
                                mul_identity_entries(m, off, n, cp)
                            } else {
                                lmul_entries(m, out, lower(arg, c))
                            },
                            None => lmul_entries(m, out, lower(arg, c)),
                        }
                    } else {
                        param_left_entries(lower(*lhs, c), lhs.shape@, cp, lower(arg, c))
                    }
                },
                _ => seq![],
            }
        },
        OpType::Rmul => if n_args == 0 {
            seq![]
        } else {
            match op.data {
                LinOpData::LinOpRef(rhs) => {
                    let arg = op.args@[0];
                    if is_parametric_spec(*rhs) {
                        param_right_entries(
                            lower(*rhs, c),
                            rhs.shape@,
                            arg.shape@,
                            out,
                            cp,
                            lower(arg, c),
                        )
                    } else {
                        rmul_entries(const_matrix_rmul(*rhs, arg, c), out, lower(arg, c))
                    }
                },
                _ => seq![],
            }
        },
        OpType::MulElem => if n_args == 0 {
            seq![]
        } else {
            match op.data {
                LinOpData::LinOpRef(d) => mul_elem_entries(
                    lower(op.args@[0], c),
                    lower(*d, c),
                    shape_size(d.shape@),
                    cp,
                ),
                _ => seq![],
            }
        },
        OpType::Div => if n_args == 0 {
            seq![]
        } else {
            match op.data {
                LinOpData::LinOpRef(d) => div_entries(lower(op.args@[0], c), const_vector(*d, c)),
                _ => seq![],
            }
        },
        OpType::Index => if n_args == 0 {
            seq![]
        } else {
            select_rows_spec(lower(op.args@[0], c), lower_rows(op.args@[0]), index_map(op))
        },
        _ => seq![],
    }
}


// ---------------------------------------------------------------------------
// When a tree can be lowered
// ---------------------------------------------------------------------------

/// Rows of the tensor a tree lowers to: the node's size, except for the
/// nodes that pass their argument's tensor on.
pub open spec fn lower_rows<V>(op: LinOp<V>) -> int
    decreases op,
{
    let size = shape_size(op.shape@);
    match op.op_type {
        OpType::Sum | OpType::Neg | OpType::Reshape | OpType::Div => if op.args@.len() > 0 {
            lower_rows(op.args@[0])
        } else {
            size
        },
        OpType::ScalarConst => 1,
        _ => size,
    }
}

/// A constant's own data can be read as a matrix.
pub open spec fn data_matrix_fits<V>(d: LinOpData<V>) -> bool {
    match d {
        LinOpData::Float(_) => true,
        LinOpData::Int(_) => true,
        LinOpData::DenseArray { data, shape } => size_fits(shape@) && if shape@.len() == 0
            || shape_size(shape@) == 1 {
            data@.len() >= 1
        } else if shape@.len() == 1 {
            data@.len() == shape@[0]
        } else {
            data@.len() == shape@[0] * shape@[1]
        },
        LinOpData::SparseArray { data, indices, indptr, shape } => csc_matrix_valid(
            data@,
            indices@,
            indptr@,
            shape.0 as int,
            shape.1 as int,
        ),
        _ => false,
    }
}

/// A constant's own data can be read as a vector.
pub open spec fn data_vector_fits<V>(d: LinOpData<V>) -> bool {
    match d {
        LinOpData::SparseArray { data, indices, indptr, shape } => csc_matrix_valid(
            data@,
            indices@,
            indptr@,
            shape.0 as int,
            shape.1 as int,
        ) && shape.0 * shape.1 <= usize::MAX,
        _ => true,
    }
}

/// The constant operand of a product can be read as a matrix.
pub open spec fn const_matrix_fits<V: Scalar>(op: LinOp<V>, c: CtxView) -> bool
    decreases op, 1nat,
{
    if is_data_constant(op.op_type) {
        data_matrix_fits(op.data)
    } else if op.op_type == OpType::Param {
        lowerable(op, c) && op.shape@.len() <= 2
    } else {
        lowerable(op, const_ctx_view()) && op.shape@.len() <= 2
    }
}

/// The constant operand of a quotient can be read as a vector.
pub open spec fn const_vector_fits<V: Scalar>(op: LinOp<V>, c: CtxView) -> bool
    decreases op, 1nat,
{
    if is_data_constant(op.op_type) || op.op_type == OpType::Param {
        data_vector_fits(op.data)
    } else {
        lowerable(op, c)
    }
}

/// A tree the handlers can lower: each node carries the data its operation
/// reads, every size and index it computes is representable, and the
/// shapes of products agree with their operands so that every row stays
/// within its node.
pub open spec fn lowerable<V: Scalar>(op: LinOp<V>, c: CtxView) -> bool
    decreases op, 0nat,
{
    let n_args = op.args@.len();
    let out = shape_size(op.shape@);
    &&& c.valid()
    &&& size_fits(op.shape@)
    &&& out <= i64::MAX
    &&& match op.op_type {
        OpType::Variable => variable_fits(op, c),
        OpType::ScalarConst => has_scalar_data(op),
        OpType::DenseConst => dense_const_fits(op, c),
        OpType::SparseConst => sparse_const_fits(op, c),
        OpType::Param => param_fits(op, c),
        OpType::Sum => forall|i: int|
            0 <= i < n_args ==> lowerable(#[trigger] op.args@[i], c) && lower_rows(op.args@[i])
                <= lower_rows(op.args@[0]),
        OpType::Neg | OpType::Reshape => n_args > 0 ==> lowerable(op.args@[0], c),
        OpType::Mul => n_args > 0 ==> match op.data {
            LinOpData::LinOpRef(lhs) => {
                let arg = op.args@[0];
                &&& lowerable(arg, c)
                &&& if !is_parametric_spec(*lhs) {
                    let m = const_matrix(*lhs, c);
                    &&& const_matrix_fits(*lhs, c)
                    &&& match identity_operand(arg, c) {
                        Some((off, n)) => {
                            &&& identity_offset_fits(m, off, n)
                            &&& identity_rows_fit(m, n, out)
                            &&& !identity_tiles(m, n) ==> general_left_fits(m, lower_rows(arg), out)
                        },
                        None => general_left_fits(m, lower_rows(arg), out),
                    }
                } else {
                    &&& lowerable(*lhs, c)
                    &&& left_consistent(
                        lower_rows(arg),
                        left_dims(lhs.shape@).0,
                        left_dims(lhs.shape@).1,
                        out,
                    )
                }
            },
            _ => false,
        },
        OpType::Rmul => n_args > 0 ==> match op.data {
            LinOpData::LinOpRef(rhs) => {
                let arg = op.args@[0];
                &&& lowerable(arg, c)
                &&& if is_parametric_spec(*rhs) {
                    let (ar, ac) = right_dims(rhs.shape@, arg.shape@);
                    &&& lowerable(*rhs, c)
                    &&& (ac > 0 && out / ac > 0 ==> lower_rows(arg) <= (out / ac) * ar)
                } else {
                    let m = const_matrix_rmul(*rhs, arg, c);
                    let (ar, ac) = m.dims();
                    &&& const_matrix_fits(*rhs, c)
                    &&& (m is Scalar ==> lower_rows(arg) <= out)
                    &&& (!(m is Scalar) && !(m is Sparse) && ac > 0 && out / ac > 0 ==> lower_rows(
                        arg,
                    ) <= (out / ac) * ar)
                }
            },
            _ => false,
        },
        OpType::MulElem => n_args > 0 ==> match op.data {
            LinOpData::LinOpRef(d) => lowerable(op.args@[0], c) && lowerable(*d, c) && lower_rows(
                op.args@[0],
            ) <= out,
            _ => false,
        },
        OpType::Div => n_args > 0 ==> match op.data {
            LinOpData::LinOpRef(d) => lowerable(op.args@[0], c) && const_vector_fits(*d, c),
            _ => false,
        },
        OpType::Index => n_args > 0 ==> {
            &&& op.data is Slices
            &&& lowerable(op.args@[0], c)
            &&& slices_valid(slices_of(op), op.shape@, op.args@[0].shape@)
        },
        OpType::NoOp => true,
        _ => false,
    }
}


/// A window `lo..lo + count` of an identity is an identity, moved by `lo`.
proof fn lemma_window_identity<V: Scalar>(n: int, off: int, cp: i64, lo: int, count: int)
    requires
        0 <= lo,
        0 <= count,
        lo + count <= n,
        n <= i64::MAX,
        off + n <= i64::MAX,
        off >= i64::MIN,
    ensures
        crate::tensor::window_entries(identity_entries::<V>(n, off, cp), lo, count)
            == identity_entries::<V>(count, off + lo, cp),
{
    lemma_window_identity_prefix::<V>(n, n, off, cp, lo, count);
    assert(identity_entries::<V>(n, off, cp).subrange(0, n) =~= identity_entries::<V>(n, off, cp));
}

proof fn lemma_window_identity_prefix<V: Scalar>(n: int, m: int, off: int, cp: i64, lo: int, count: int)
    requires
        0 <= m <= n,
        0 <= lo,
        0 <= count,
        lo + count <= n,
        n <= i64::MAX,
        off + n <= i64::MAX,
        off >= i64::MIN,
    ensures
        crate::tensor::window_entries(identity_entries::<V>(n, off, cp).subrange(0, m), lo, count)
            == identity_entries::<V>(
            if m - lo < 0 {
                0
            } else if m - lo > count {
                count
            } else {
                m - lo
            },
            off + lo,
            cp,
        ),
    decreases m,
{
    let es = identity_entries::<V>(n, off, cp);
    let w = |m: int|
        if m - lo < 0 {
            0
        } else if m - lo > count {
            count
        } else {
            m - lo
        };
    if m == 0 {
        assert(es.subrange(0, 0) =~= Seq::<Entry<V>>::empty());
        assert(identity_entries::<V>(0, off + lo, cp) =~= Seq::<Entry<V>>::empty());
    } else {
        lemma_window_identity_prefix::<V>(n, m - 1, off, cp, lo, count);
        let s = es.subrange(0, m);
        assert(s.drop_last() =~= es.subrange(0, m - 1));
        let e = s.last();
        assert(e == (one_spec::<V>(), (m - 1) as i64, (off + m - 1) as i64, cp));
        if lo <= m - 1 < lo + count {
            assert(identity_entries::<V>(w(m), off + lo, cp) =~= identity_entries::<V>(w(m - 1), off + lo, cp).push(
                (one_spec::<V>(), (m - 1 - lo) as i64, (off + m - 1) as i64, cp),
            ));
        }
    }
}

/// A node that is both a plain variable and a typed identity stands for
/// the same columns either way.
pub proof fn lemma_identity_operand<V>(op: LinOp<V>, c: CtxView)
    requires
        typed_identity(op, c) is Some,
        0 <= shape_size(op.shape@) <= usize::MAX,
    ensures
        ({
            let (off, n) = typed_identity(op, c)->0;
            identity_operand(op, c) == Some((off as int, n as int))
        }),
{
}

/// The lowering of `A @ X`, for `X` a variable, a window of one, or any
/// operand the fast path reads as an identity and that lowers to that
/// identity, and `A` a non-parametric constant, is the general product
/// `kron(I_k, A) @ lower(X)`:
/// the identity fast path changes how the entries are computed, not what
/// they are (whenever multiplying by one gives a value back; a scalar `A`
/// is non-zero and a row-major `A` a single row, see
/// `lemma_identity_product`).
pub proof fn lemma_mul_by_identity_is_product<V: Scalar>(op: LinOp<V>, c: CtxView)
    requires
        unit_law::<V>(),
        lowerable(op, c),
        op.op_type == OpType::Mul,
        op.args@.len() > 0,
        op.data matches LinOpData::LinOpRef(lhs) && !is_parametric_spec(*lhs) && (const_matrix(
            *lhs,
            c,
        ) matches MatrixView::Scalar(s) ==> !is_zero_spec(s)) && (const_matrix(*lhs, c) is DenseRowMajor
            ==> const_matrix(*lhs, c).dims().0 == 1),
        typed_identity(op.args@[0], c) is Some || (identity_operand(op.args@[0], c) matches Some((off, n))
            && lower(op.args@[0], c) == identity_entries::<V>(n, off, c.const_param())),
    ensures
        op.data matches LinOpData::LinOpRef(lhs) && lower(op, c) == lmul_entries(
            const_matrix(*lhs, c),
            shape_size(op.shape@),
            lower(op.args@[0], c),
        ),
{
    match op.data {
        LinOpData::LinOpRef(lhs) => {
            let arg = op.args@[0];
            let m = const_matrix(*lhs, c);
            assert(lowerable(arg, c));
            lemma_lowerable_basics(arg, c);
            if typed_identity(arg, c) is Some {
                lemma_typed_identity_lower(arg, c);
                lemma_identity_operand(arg, c);
            }
            let (off, n) = identity_operand(arg, c)->0;
            assert(lower(arg, c) == identity_entries::<V>(n, off, c.const_param()));
            if identity_tiles(m, n) {
                lemma_identity_product(m, off, n, c.const_param(), shape_size(op.shape@));
            }
        },
        _ => {},
    }
}

/// A node whose typed lowering is an identity lowers to that identity.
pub proof fn lemma_typed_identity_lower<V: Scalar>(op: LinOp<V>, c: CtxView)
    requires
        lowerable(op, c),
        typed_identity(op, c) is Some,
    ensures
        ({
            let (off, n) = typed_identity(op, c)->0;
            &&& lower(op, c) == identity_entries::<V>(n as int, off as int, c.const_param())
            &&& lower_rows(op) == n
            &&& n <= i64::MAX
            &&& off + n <= i64::MAX
        }),
    decreases op,
{
    lemma_lowerable_basics(op, c);
    if op.op_type == OpType::Index {
        let arg = op.args@[0];
        assert(lowerable(arg, c));
        lemma_lowerable_basics(arg, c);
        lemma_typed_identity_lower(arg, c);
        let (off, n) = typed_identity(arg, c)->0;
        let start = slices_of(op)[0].start as int;
        let count = op.shape@[0] as int;
        assert(crate::linop::prefix_size(op.shape@, 0) == 1);
        assert(crate::linop::prefix_size(op.shape@, 1) == crate::linop::prefix_size(op.shape@, 0) * op.shape@[0]);
        assert(shape_size(op.shape@) == count);
        let map = index_map(op);
        assert forall|q: int| 0 <= q < map.len() implies #[trigger] map[q] == start + q by {
            assert(q % count == q) by {
                vstd::arithmetic::div_mod::lemma_small_mod(q as nat, count as nat);
            }
            assert(q / count == 0) by {
                vstd::arithmetic::div_mod::lemma_basic_div(q, count);
            }
            let sl = slices_of(op);
            assert(crate::operations::structural::index_source(sl, op.shape@, arg.shape@, q / count, 1) == 0);
            assert(crate::operations::structural::index_source(sl, op.shape@, arg.shape@, q, 0)
                == (sl[0].start + (q % count) * sl[0].step) + arg.shape@[0] * 0);
            assert(map[q] == crate::operations::structural::index_source(sl, op.shape@, arg.shape@, q, 0) as i64);
        }
        let es = identity_entries::<V>(n as int, off as int, c.const_param());
        lemma_window_identity::<V>(n as int, off as int, c.const_param(), start, count);
        if count == 0 {
            assert(identity_entries::<V>(0, off + start, c.const_param()) =~= Seq::<Entry<V>>::empty());
        } else if crate::tensor::is_identity_spec(map, n as int) {
            assert(start == map[0]);
            assert(identity_entries::<V>(count, off + start, c.const_param()) =~= es);
        } else {
            assert(crate::tensor::is_contiguous_spec(map));
        }
    }
}

/// What every lowerable node provides: a valid context, a representable
/// size, and a representable number of rows.
pub proof fn lemma_lowerable_basics<V: Scalar>(op: LinOp<V>, c: CtxView)
    requires
        lowerable(op, c),
    ensures
        c.valid(),
        size_fits(op.shape@),
        0 <= shape_size(op.shape@) <= i64::MAX,
        0 <= lower_rows(op) <= i64::MAX,
        lower_rows(op) <= usize::MAX,
    decreases op,
{
    crate::linop::lemma_prefix_size_nonneg(op.shape@, op.shape@.len() as int);
    assert(shape_size(op.shape@) <= usize::MAX);
    match op.op_type {
        OpType::Sum | OpType::Neg | OpType::Reshape | OpType::Div => {
            if op.args@.len() > 0 {
                assert(lowerable(op.args@[0], c));
                lemma_lowerable_basics(op.args@[0], c);
            }
        },
        _ => {},
    }
}

// ---------------------------------------------------------------------------
// Dispatch
// ---------------------------------------------------------------------------

/// Process a LinOp node and its children recursively: the entry point for
/// converting a LinOp tree to a SparseTensor.
pub fn process_linop<V: Scalar>(lin_op: &LinOp<V>, ctx: &ProcessingContext) -> (t: SparseTensor<V>)
    requires
        ops_total::<V>(),
        lowerable(*lin_op, ctx@),
    ensures
        t.wf(),
        t.shape == (lower_rows(*lin_op) as usize, ctx@.var_cols()),
        t.rows_in_range(),
        exact::<V>() ==> t.entries() == lower(*lin_op, ctx@),
        value_free(*lin_op) ==> entry_keys(t.entries()) == entry_keys(lower(*lin_op, ctx@)),
    decreases lin_op, 2nat,
{
    match lin_op.op_type {
        OpType::Variable => {
            let t = leaf::process_variable(lin_op, ctx);
            assert(lower(*lin_op, ctx@) == variable_entries(*lin_op, ctx@));
            t
        },
        OpType::ScalarConst => leaf::process_scalar_const(lin_op, ctx),
        OpType::DenseConst => leaf::process_dense_const(lin_op, ctx),
        OpType::SparseConst => leaf::process_sparse_const(lin_op, ctx),
        OpType::Param => {
            let t = leaf::process_param(lin_op, ctx);
            assert(lower(*lin_op, ctx@) == param_entries(*lin_op, ctx@));
            t
        },
        OpType::Sum => process_sum(lin_op, ctx),
        OpType::Neg => arithmetic::process_neg(lin_op, ctx),
        OpType::Reshape => process_reshape(lin_op, ctx),
        OpType::Mul => arithmetic::process_mul(lin_op, ctx),
        OpType::Rmul => arithmetic::process_rmul(lin_op, ctx),
        OpType::MulElem => arithmetic::process_mul_elem(lin_op, ctx),
        OpType::Div => arithmetic::process_div(lin_op, ctx),
        OpType::Index => structural::process_index(lin_op, ctx),
        // `NoOp`; `lowerable` admits no other operation.
        _ => {
            let t = SparseTensor::empty((lin_op.size(), ctx.var_cols()));
            assert(t.entries() =~= Seq::<Entry<V>>::empty());
            t
        },
    }
}

/// Process a LinOp node into its typed form: an identity for a variable, a
/// dense column for a dense constant, a flat block otherwise.
pub fn process_linop_block<V: Scalar>(lin_op: &LinOp<V>, ctx: &ProcessingContext) -> (nv: NodeValue<
    V,
>)
    requires
        ops_total::<V>(),
        lowerable(*lin_op, ctx@),
    ensures
        nv.fits(),
        nv.rows_ok(),
        nv.out_rows == lower_rows(*lin_op),
        nv.var_cols == ctx@.var_cols(),
        exact::<V>() ==> nv.entries() == lower(*lin_op, ctx@),
        as_typed_identity_spec(nv, ctx@) == typed_identity(*lin_op, ctx@),
    decreases lin_op, 3nat,
{
    proof {
        lemma_lowerable_basics(*lin_op, ctx@);
    }
    match lin_op.op_type {
        OpType::Variable => {
            let nv = leaf::process_variable_block(lin_op, ctx);
            proof {
                assert(lower_rows(*lin_op) == shape_size(lin_op.shape@));
                assert(block_fits(nv.blocks@[0]));
                lemma_single_block_entries(nv);
            }
            nv
        },
        OpType::ScalarConst => {
            let nv = leaf::process_scalar_const_block(lin_op, ctx);
            proof {
                if nv.blocks@.len() == 1 {
                    assert(nv.blocks@[0].block is Dense);
                }
            }
            nv
        },
        OpType::DenseConst => {
            let nv = leaf::process_dense_const_block(lin_op, ctx);
            proof {
                if nv.blocks@.len() == 1 {
                    assert(nv.blocks@[0].block is Dense);
                }
            }
            nv
        },
        OpType::Index => {
            if let Some(nv) = index_window_block(lin_op, ctx) {
                return nv;
            }
            let t = process_linop(lin_op, ctx);
            NodeValue::from_coo(t)
        },
        _ => {
            let t = process_linop(lin_op, ctx);
            NodeValue::from_coo(t)
        },
    }
}

/// The typed lowering of a window of an identity: an identity over the
/// window's columns, or `None` when the index is not such a window.
fn index_window_block<V: Scalar>(lin_op: &LinOp<V>, ctx: &ProcessingContext) -> (r: Option<
    NodeValue<V>,
>)
    requires
        ops_total::<V>(),
        lowerable(*lin_op, ctx@),
        lin_op.op_type == OpType::Index,
    ensures
        r is Some <==> typed_identity(*lin_op, ctx@) is Some,
        r matches Some(nv) ==> {
            &&& nv.fits()
            &&& nv.rows_ok()
            &&& nv.out_rows == lower_rows(*lin_op)
            &&& nv.var_cols == ctx@.var_cols()
            &&& (exact::<V>() ==> nv.entries() == lower(*lin_op, ctx@))
            &&& as_typed_identity_spec(nv, ctx@) == typed_identity(*lin_op, ctx@)
        },
    decreases lin_op, 2nat,
{
    if lin_op.args.len() == 0 || lin_op.shape.len() != 1 || lin_op.args[0].shape.len() != 1 {
        return None;
    }
    let sl = match &lin_op.data {
        LinOpData::Slices(sl) => sl,
        _ => {
            return None;
        },
    };
    if sl.len() != 1 || sl[0].step != 1 {
        return None;
    }
    assert(is_window_index(*lin_op));
    assert(lowerable(lin_op.args@[0], ctx@));
    let arg_block = process_linop_block(&lin_op.args[0], ctx);
    let (off, n) = match crate::operations::arithmetic::as_typed_identity(&arg_block, ctx) {
        Some(p) => p,
        None => {
            return None;
        },
    };
    proof {
        lemma_typed_identity_lower(lin_op.args@[0], ctx@);
        lemma_lowerable_basics(*lin_op, ctx@);
        assert(crate::linop::prefix_size(lin_op.shape@, 0) == 1);
        assert(crate::linop::prefix_size(lin_op.shape@, 1) == crate::linop::prefix_size(lin_op.shape@, 0) * lin_op.shape@[0]);
    }
    let start = sl[0].start;
    let count = lin_op.shape[0];
    if start < 0 || count > n || start > (n - count) as i64 {
        return None;
    }
    let ghost c = ctx@;
    proof {
        lemma_typed_identity_lower(*lin_op, c);
    }
    let nv = NodeValue {
        out_rows: count,
        var_cols: ctx.var_cols(),
        blocks: vec![BlockEntry { param_slot: ctx.const_param(), var_col_offset: off + start, block: Block::Identity { n: count } }],
    };
    proof {
        assert(block_fits(nv.blocks@[0]));
        assert(block_rows_ok(nv.blocks@[0], count as int));
        lemma_single_block_entries(nv);
    }
    Some(nv)
}

/// Sum operation: the entries of all arguments, in order (a no-op for a
/// single argument).
pub fn process_sum<V: Scalar>(lin_op: &LinOp<V>, ctx: &ProcessingContext) -> (t: SparseTensor<V>)
    requires
        ops_total::<V>(),
        lowerable(*lin_op, ctx@),
        lin_op.op_type == OpType::Sum,
    ensures
        t.wf(),
        t.shape == (lower_rows(*lin_op) as usize, ctx@.var_cols()),
        t.rows_in_range(),
        exact::<V>() ==> t.entries() == lower(*lin_op, ctx@),
        value_free(*lin_op) ==> entry_keys(t.entries()) == entry_keys(lower(*lin_op, ctx@)),
    decreases lin_op, 1nat,
{
    let n = lin_op.args.len();
    let ghost c = ctx@;
    if n == 0 {
        assert(lower_args(*lin_op, c, 0) =~= Seq::<Entry<V>>::empty());
        let t = SparseTensor::empty((lin_op.size(), ctx.var_cols()));
        assert(t.entries() =~= Seq::<Entry<V>>::empty());
        return t;
    }
    assert(lowerable(lin_op.args@[0], c));
    proof {
        lemma_lowerable_basics(lin_op.args@[0], c);
    }
    let mut result = process_linop(&lin_op.args[0], ctx);
    proof {
        assert(lower_args(*lin_op, c, 0) =~= Seq::<Entry<V>>::empty());
        assert(lower_args(*lin_op, c, 1) =~= lower(lin_op.args@[0], c));
    }
    let mut i: usize = 1;
    while i < n
        invariant
            ops_total::<V>(),
            lowerable(*lin_op, c),
            lin_op.op_type == OpType::Sum,
            c == ctx@,
            n == lin_op.args@.len(),
            1 <= i <= n,
            result.wf(),
            result.shape == (lower_rows(lin_op.args@[0]) as usize, c.var_cols()),
            result.rows_in_range(),
            exact::<V>() ==> result.entries() == lower_args(*lin_op, c, i as int),
            value_free(*lin_op) ==> entry_keys(result.entries()) == entry_keys(lower_args(*lin_op, c, i as int)),
        decreases n - i,
    {
        assert(lowerable(lin_op.args@[i as int], c));
        proof {
            lemma_lowerable_basics(lin_op.args@[i as int], c);
            lemma_lowerable_basics(lin_op.args@[0], c);
        }
        let arg_tensor = process_linop(&lin_op.args[i], ctx);
        let ghost r0 = result.rows@;
        let ghost e0 = result.entries();
        result.extend(arg_tensor);
        proof {
            assert(result.entries() =~= e0 + arg_tensor.entries());
            if value_free(*lin_op) {
                assert(value_free(lin_op.args@[i as int]));
                assert(lower_args(*lin_op, c, i + 1) == lower_args(*lin_op, c, i as int) + lower(lin_op.args@[i as int], c));
                lemma_keys_concat(e0, arg_tensor.entries());
                lemma_keys_concat(lower_args(*lin_op, c, i as int), lower(lin_op.args@[i as int], c));
            }
            assert forall|k: int| 0 <= k < result.rows@.len() implies 0 <= #[trigger] result.rows@[k] < result.shape.0 by {
                if k >= r0.len() {
                    assert(result.rows@[k] == arg_tensor.rows@[k - r0.len()]);
                }
            }
        }
        i = i + 1;
    }
    result
}

/// Reshape operation: passes its argument through, since rows already encode
/// the column-major position.
pub fn process_reshape<V: Scalar>(lin_op: &LinOp<V>, ctx: &ProcessingContext) -> (t: SparseTensor<V>)
    requires
        ops_total::<V>(),
        lowerable(*lin_op, ctx@),
        lin_op.op_type == OpType::Reshape,
    ensures
        t.wf(),
        t.shape == (lower_rows(*lin_op) as usize, ctx@.var_cols()),
        t.rows_in_range(),
        exact::<V>() ==> t.entries() == lower(*lin_op, ctx@),
        value_free(*lin_op) ==> entry_keys(t.entries()) == entry_keys(lower(*lin_op, ctx@)),
    decreases lin_op, 1nat,
{
    if lin_op.args.len() == 0 {
        let t = SparseTensor::empty((lin_op.size(), ctx.var_cols()));
        assert(t.entries() =~= Seq::<Entry<V>>::empty());
        return t;
    }
    process_linop(&lin_op.args[0], ctx)
}


// ---------------------------------------------------------------------------
// Counting entries
// ---------------------------------------------------------------------------

/// `x`, saturated at `usize::MAX`.
pub open spec fn capped(x: int) -> int {
    if x > usize::MAX {
        usize::MAX as int
    } else {
        x
    }
}

/// Trees the structure pass counts exactly: every tree but an index, and
/// the sums, negations, reshapes and quotients that reach one.  (An index
/// is counted as its argument: an upper bound, since it keeps some of the
/// argument's rows.)
pub open spec fn count_exact<V>(op: LinOp<V>) -> bool
    decreases op,
{
    match op.op_type {
        OpType::Index => false,
        OpType::Sum | OpType::Neg | OpType::Reshape | OpType::Div => forall|i: int|
            0 <= i < op.args@.len() ==> count_exact(#[trigger] op.args@[i]),
        _ => true,
    }
}

/// Trees whose number of entries does not depend on any coefficient value:
/// variables, parameters, no-ops, and sums, negations and reshapes of them.
pub open spec fn value_free<V>(op: LinOp<V>) -> bool
    decreases op,
{
    match op.op_type {
        OpType::Variable | OpType::Param | OpType::NoOp => true,
        OpType::Sum | OpType::Neg | OpType::Reshape => forall|i: int|
            0 <= i < op.args@.len() ==> value_free(#[trigger] op.args@[i]),
        _ => false,
    }
}

/// Saturated sums add up.
pub proof fn lemma_capped_add(a: int, b: int)
    requires
        a >= 0,
        b >= 0,
    ensures
        capped(capped(a) + capped(b)) == capped(a + b),
{
}

/// `a + b`, saturated.
fn saturating_add_usize(a: usize, b: usize) -> (r: usize)
    ensures
        r == capped(a + b),
{
    match a.checked_add(b) {
        Some(s) => s,
        None => usize::MAX,
    }
}

/// `a * b`, saturated.
fn saturating_mul_usize(a: usize, b: usize) -> (r: usize)
    ensures
        r == capped(a * b),
{
    match a.checked_mul(b) {
        Some(s) => s,
        None => usize::MAX,
    }
}

/// The dense entries of the first `k` values are the non-zero ones.
proof fn lemma_dense_entries_len<V: Scalar>(data: Seq<V>, rows: int, off: int, slot: i64, k: int)
    ensures
        crate::block::dense_entries(data, rows, off, slot, k).len() == count_nonzero(data, k),
    decreases k,
{
    if k > 0 {
        lemma_dense_entries_len(data, rows, off, slot, k - 1);
    }
}

/// The row-major entries of the first `k` values are the non-zero ones.
proof fn lemma_row_major_len<V: Scalar>(data: Seq<V>, cols: int, off: int, slot: i64, k: int)
    ensures
        crate::operations::arithmetic::row_major_entries(data, cols, off, slot, k).len() == count_nonzero(
            data,
            k,
        ),
    decreases k,
{
    if k > 0 {
        lemma_row_major_len(data, cols, off, slot, k - 1);
    }
}

/// The non-zero values stored at positions `lo..hi`.
pub open spec fn range_nonzero<V: Scalar>(data: Seq<V>, lo: int, hi: int) -> int {
    if lo < hi {
        count_nonzero(data, hi) - count_nonzero(data, lo)
    } else {
        0
    }
}

/// The non-zero values the first `k` columns of a CSC matrix hold between
/// their column pointers.
pub open spec fn csc_nonzero<V: Scalar>(values: Seq<V>, col_indptr: Seq<i64>, k: int) -> int
    decreases k,
{
    if k <= 0 {
        0
    } else {
        csc_nonzero(values, col_indptr, k - 1) + range_nonzero(
            values,
            col_indptr[k - 1] as int,
            col_indptr[k] as int,
        )
    }
}

/// The non-zero values stored at positions `lo..hi` of one CSC column.
proof fn lemma_csc_column_len<V: Scalar>(
    data: Seq<V>,
    indices: Seq<i64>,
    j: int,
    m: int,
    lo: int,
    hi: int,
    off: i64,
    slot: i64,
)
    requires
        0 <= lo,
    ensures
        crate::operations::leaf::csc_column_entries(data, indices, j, m, lo, hi, off, slot).len()
            == range_nonzero(data, lo, hi),
    decreases hi - lo,
{
    if lo < hi {
        lemma_csc_column_len(data, indices, j, m, lo, hi - 1, off, slot);
    }
}

/// The non-zero values of the first `k` columns of a CSC matrix.
proof fn lemma_csc_entries_len<V: Scalar>(
    data: Seq<V>,
    indices: Seq<i64>,
    indptr: Seq<i64>,
    m: int,
    off: i64,
    slot: i64,
    k: int,
)
    requires
        0 <= k < indptr.len(),
        forall|q: int| 0 <= q < indptr.len() ==> 0 <= #[trigger] indptr[q],
    ensures
        crate::operations::leaf::csc_entries(data, indices, indptr, m, off, slot, k).len() == csc_nonzero(
            data,
            indptr,
            k,
        ),
    decreases k,
{
    if k > 0 {
        lemma_csc_entries_len(data, indices, indptr, m, off, slot, k - 1);
        assert(0 <= indptr[k - 1]);
        lemma_csc_column_len(data, indices, k - 1, m, indptr[k - 1] as int, indptr[k] as int, off, slot);
    }
}

/// The non-zero values stored at positions `lo..hi` of one placed CSC column.
proof fn lemma_csc_placed_column_len<V: Scalar>(
    values: Seq<V>,
    row_indices: Seq<i64>,
    j: int,
    off: int,
    slot: i64,
    lo: int,
    hi: int,
)
    requires
        0 <= lo,
    ensures
        crate::operations::arithmetic::csc_placed_column(values, row_indices, j, off, slot, lo, hi).len()
            == range_nonzero(values, lo, hi),
    decreases hi - lo,
{
    if lo < hi {
        lemma_csc_placed_column_len(values, row_indices, j, off, slot, lo, hi - 1);
    }
}

/// The placed non-zero values of the first `k` columns of a CSC matrix.
proof fn lemma_csc_placed_len<V: Scalar>(
    values: Seq<V>,
    row_indices: Seq<i64>,
    col_indptr: Seq<i64>,
    off: int,
    slot: i64,
    k: int,
)
    requires
        0 <= k < col_indptr.len(),
        forall|q: int| 0 <= q < col_indptr.len() ==> 0 <= #[trigger] col_indptr[q],
    ensures
        crate::operations::arithmetic::csc_placed(values, row_indices, col_indptr, off, slot, k).len()
            == csc_nonzero(values, col_indptr, k),
    decreases k,
{
    if k > 0 {
        lemma_csc_placed_len(values, row_indices, col_indptr, off, slot, k - 1);
        assert(0 <= col_indptr[k - 1]);
        lemma_csc_placed_column_len(
            values,
            row_indices,
            k - 1,
            off,
            slot,
            col_indptr[k - 1] as int,
            col_indptr[k] as int,
        );
    }
}

/// The entries of one block of `A @ I`: `A`'s non-zero elements.
pub open spec fn block_nonzero<V: Scalar>(m: MatrixView<V>) -> int {
    match m {
        MatrixView::Scalar(s) => if is_zero_spec(s) {
            0
        } else {
            1
        },
        MatrixView::DenseColMajor(data, rows, cols) => count_nonzero(data, rows * cols),
        MatrixView::DenseRowMajor(data, rows, cols) => count_nonzero(data, rows * cols),
        MatrixView::Sparse(values, _, col_indptr, _, cols) => csc_nonzero(values, col_indptr, cols),
    }
}

/// A block of `A @ I` holds `A`'s non-zero elements, wherever it stands.
proof fn lemma_block_len<V: Scalar>(m: MatrixView<V>, off: int, slot: i64)
    requires
        m.valid(),
        !(m is Scalar),
    ensures
        identity_block_entries(m, off, m.dims().1, slot).len() == block_nonzero(m),
{
    match m {
        MatrixView::DenseColMajor(data, rows, cols) => {
            lemma_dense_entries_len(data, rows, off, slot, rows * cols);
        },
        MatrixView::DenseRowMajor(data, rows, cols) => {
            lemma_row_major_len(data, cols, off, slot, rows * cols);
        },
        MatrixView::Sparse(values, row_indices, col_indptr, rows, cols) => {
            if cols >= 0 {
                lemma_csc_placed_len(values, row_indices, col_indptr, off, slot, cols);
            }
        },
        _ => {},
    }
}

/// `k` blocks of `A @ I` hold `k` times `A`'s non-zero elements.
proof fn lemma_identity_blocks_len<V: Scalar>(m: MatrixView<V>, off: int, slot: i64, k: int)
    requires
        m.valid(),
        !(m is Scalar),
        k >= 0,
    ensures
        crate::operations::arithmetic::identity_blocks(m, off, slot, k).len() == k * block_nonzero(m),
    decreases k,
{
    if k > 0 {
        lemma_identity_blocks_len(m, off, slot, k - 1);
        let blk = identity_block_entries(m, off + (k - 1) * m.dims().1, m.dims().1, slot);
        lemma_block_len(m, off + (k - 1) * m.dims().1, slot);
        assert(crate::operations::arithmetic::shift_rows(blk, (k - 1) * m.dims().0).len() == blk.len());
        assert(crate::operations::arithmetic::identity_blocks(m, off, slot, k)
            == crate::operations::arithmetic::identity_blocks(m, off, slot, k - 1)
            + crate::operations::arithmetic::shift_rows(blk, (k - 1) * m.dims().0));
        assert((k - 1) * block_nonzero(m) + block_nonzero(m) == k * block_nonzero(m)) by (nonlinear_arith);
    } else {
        assert(k * block_nonzero(m) == 0) by (nonlinear_arith)
            requires
                k == 0,
        ;
    }
}

/// Number of values among the first `k` that are not zero.
fn count_nonzero_exec<V: Scalar>(data: &Vec<V>, lo: usize, hi: usize) -> (n: usize)
    requires
        lo <= hi <= data@.len(),
    ensures
        n <= hi - lo,
        exact::<V>() ==> n == range_nonzero(data@, lo as int, hi as int),
{
    let mut n: usize = 0;
    let mut q: usize = lo;
    while q < hi
        invariant
            lo <= q <= hi,
            hi <= data@.len(),
            n <= q - lo,
            exact::<V>() ==> n == count_nonzero(data@, q as int) - count_nonzero(data@, lo as int),
        decreases hi - q,
    {
        if !crate::scalar::is_zero(&data[q]) {
            n = n + 1;
        }
        q = q + 1;
    }
    n
}

/// The non-zero values between the column pointers of the first `k`
/// columns of a CSC matrix, saturated.
fn csc_nonzero_exec<V: Scalar>(values: &Vec<V>, col_indptr: &Vec<i64>, k: usize) -> (n: usize)
    requires
        k < col_indptr@.len(),
        forall|q: int| 0 <= q < col_indptr@.len() ==> 0 <= #[trigger] col_indptr@[q] <= values@.len(),
    ensures
        exact::<V>() ==> n == capped(csc_nonzero(values@, col_indptr@, k as int)),
        exact::<V>() ==> csc_nonzero(values@, col_indptr@, k as int) >= 0,
{
    let mut n: usize = 0;
    let mut j: usize = 0;
    while j < k
        invariant
            j <= k,
            k < col_indptr@.len(),
            forall|q: int| 0 <= q < col_indptr@.len() ==> 0 <= #[trigger] col_indptr@[q] <= values@.len(),
            exact::<V>() ==> n == capped(csc_nonzero(values@, col_indptr@, j as int)),
            exact::<V>() ==> csc_nonzero(values@, col_indptr@, j as int) >= 0,
        decreases k - j,
    {
        let lo = col_indptr[j];
        let hi = col_indptr[j + 1];
        let vl = values.len();
        assert(0 <= col_indptr@[j as int] <= values@.len());
        assert(0 <= col_indptr@[j + 1] <= values@.len());
        let c = if lo < hi {
            let lo_u = lo as usize;
            let hi_u = hi as usize;
            assert(lo_u as int == lo as int && hi_u as int == hi as int);
            count_nonzero_exec(values, lo_u, hi_u)
        } else {
            0
        };
        proof {
            assert(csc_nonzero(values@, col_indptr@, j + 1) == csc_nonzero(values@, col_indptr@, j as int)
                + range_nonzero(values@, lo as int, hi as int));
            if exact::<V>() {
                assert(c == range_nonzero(values@, lo as int, hi as int));
                lemma_capped_add(csc_nonzero(values@, col_indptr@, j as int), c as int);
            }
        }
        n = saturating_add_usize(n, c);
        j = j + 1;
    }
    n
}

/// The non-zero elements of a matrix's block of `A @ I`, saturated.
fn block_nonzero_exec<V: Scalar>(m: &ConstantMatrix<V>) -> (n: usize)
    requires
        m@.valid(),
        !(m@ is Scalar),
    ensures
        exact::<V>() ==> n == capped(block_nonzero(m@)),
        exact::<V>() ==> block_nonzero(m@) >= 0,
{
    match m {
        ConstantMatrix::DenseColMajor { data, rows, cols } => count_nonzero_exec(data, 0, data.len()),
        ConstantMatrix::DenseRowMajor { data, rows, cols } => count_nonzero_exec(data, 0, data.len()),
        ConstantMatrix::Sparse { values, row_indices, col_indptr, rows, cols } => {
            csc_nonzero_exec(values, col_indptr, *cols)
        },
        ConstantMatrix::Scalar(_) => 0,
    }
}

/// The count of a product `A @ X`: for a non-parametric `A` and a plain
/// variable `X` that `A` tiles, `A`'s non-zero elements once per block (or,
/// for a scalar, one per element of `X` unless it is zero) without lowering
/// anything; otherwise the entries of the lowered product, whose number
/// depends on the rows of `X`'s entries.
fn count_mul<V: Scalar>(lin_op: &LinOp<V>, ctx: &ProcessingContext) -> (n: usize)
    requires
        ops_total::<V>(),
        lowerable(*lin_op, ctx@),
        lin_op.op_type == OpType::Mul,
    ensures
        exact::<V>() ==> n == capped(lower(*lin_op, ctx@).len() as int),
    decreases lin_op, 0nat,
{
    let ghost c = ctx@;
    proof {
        lemma_lowerable_basics(*lin_op, c);
    }
    if lin_op.args.len() > 0 {
        if let LinOpData::LinOpRef(lhs) = &lin_op.data {
            let arg = &lin_op.args[0];
            if !crate::linop::is_parametric(lhs) {
                if let Some(var_id) = crate::operations::arithmetic::as_plain_variable(arg) {
                    assert(lowerable(*arg, c));
                    proof {
                        lemma_lowerable_basics(*arg, c);
                    }
                    let m = crate::operations::arithmetic::get_constant_matrix_data(lhs, ctx);
                    let n = arg.size();
                    let ghost ms = const_matrix(**lhs, c);
                    let ghost off = c.var_col(var_id) as int;
                    assert(identity_operand(*arg, c) == Some((off, n as int)));
                    match &m {
                        ConstantMatrix::Scalar(s) => {
                            assert(identity_tiles(ms, n as int));
                            let z = crate::scalar::is_zero(s);
                            proof {
                                if exact::<V>() {
                                    assert(lower(*lin_op, c) == mul_identity_entries(ms, off, n as int, c.const_param()));
                                }
                            }
                            return if z {
                                0
                            } else {
                                n
                            };
                        },
                        _ => {
                            let (a_rows, a_cols) = m.dims();
                            if a_cols > 0 && n % a_cols == 0 {
                                let k = n / a_cols;
                                let b = block_nonzero_exec(&m);
                                proof {
                                    assert(identity_tiles(m@, n as int));
                                    if exact::<V>() {
                                        assert(identity_tiles(ms, n as int));
                                        assert(lower(*lin_op, c) == mul_identity_entries(ms, off, n as int, c.const_param()));
                                        lemma_identity_blocks_len(ms, off, c.const_param(), k as int);
                                        assert(capped(k * capped(block_nonzero(ms))) == capped(k * block_nonzero(ms))) by (nonlinear_arith)
                                            requires
                                                block_nonzero(ms) >= 0,
                                                k >= 0,
                                        {
                                            if block_nonzero(ms) > usize::MAX && k > 0 {
                                                assert(k * block_nonzero(ms) >= block_nonzero(ms));
                                                assert(k * usize::MAX >= usize::MAX);
                                            }
                                        }
                                    }
                                }
                                return saturating_mul_usize(k, b);
                            }
                        },
                    }
                }
            }
        }
    }
    let t = process_linop(lin_op, ctx);
    t.nnz()
}

/// Count the number of entries a LinOp tree lowers to: the structure pass
/// of the build.  It is exact (saturated at `usize::MAX`) for every tree of
/// [`count_exact`], whatever the coefficients of the trees of
/// [`value_free`]; an index is counted as its argument.  Leaves, sums,
/// negations, reshapes, quotients and products of a constant with a
/// variable are counted without lowering anything; the other products,
/// whose count depends on the rows of their operand's entries, are lowered.
pub fn count_nnz<V: Scalar>(lin_op: &LinOp<V>, ctx: &ProcessingContext) -> (n: usize)
    requires
        ops_total::<V>(),
        lowerable(*lin_op, ctx@),
    ensures
        exact::<V>() && count_exact(*lin_op) ==> n == capped(lower(*lin_op, ctx@).len() as int),
        value_free(*lin_op) ==> n == capped(lower(*lin_op, ctx@).len() as int),
    decreases lin_op, 1nat,
{
    let ghost c = ctx@;
    proof {
        lemma_lowerable_basics(*lin_op, c);
    }
    match lin_op.op_type {
        OpType::Variable => {
            assert(lower(*lin_op, c) == variable_entries(*lin_op, c));
            lin_op.size()
        },
        OpType::Param => {
            assert(lower(*lin_op, c) == param_entries(*lin_op, c));
            lin_op.size()
        },
        OpType::ScalarConst => {
            let v = crate::operations::leaf::scalar_data(&lin_op.data);
            assert(lower(*lin_op, c) == scalar_const_entries(*lin_op, c));
            if crate::scalar::is_zero(&v) {
                0
            } else {
                1
            }
        },
        OpType::DenseConst => match &lin_op.data {
            LinOpData::DenseArray { data, .. } => {
                let n = count_nonzero_exec(data, 0, data.len());
                proof {
                    let k = shape_size(lin_op.shape@);
                    lemma_dense_entries_len(data@, k, c.var_length as int, c.const_param(), k);
                    assert(lower(*lin_op, c) == dense_const_entries(*lin_op, c));
                }
                n
            },
            _ => 0,
        },
        OpType::SparseConst => match &lin_op.data {
            LinOpData::SparseArray { data, indices, indptr, shape } => {
                let k = indptr.len() - 1;
                let n = csc_nonzero_exec(data, indptr, k);
                proof {
                    lemma_csc_entries_len(data@, indices@, indptr@, shape.0 as int, c.var_length, c.const_param(), k as int);
                    assert(lower(*lin_op, c) == sparse_const_entries(*lin_op, c));
                }
                n
            },
            _ => 0,
        },
        OpType::Sum => {
            let len = lin_op.args.len();
            let mut total: usize = 0;
            let mut i: usize = 0;
            proof {
                assert(lower_args(*lin_op, c, 0) =~= Seq::<Entry<V>>::empty());
            }
            while i < len
                invariant
                    ops_total::<V>(),
                    lowerable(*lin_op, c),
                    lin_op.op_type == OpType::Sum,
                    c == ctx@,
                    i <= len,
                    len == lin_op.args@.len(),
                    (exact::<V>() && count_exact(*lin_op)) || value_free(*lin_op) ==> total == capped(
                        lower_args(*lin_op, c, i as int).len() as int,
                    ),
                decreases len - i,
            {
                assert(lowerable(lin_op.args@[i as int], c));
                let part = count_nnz(&lin_op.args[i], ctx);
                proof {
                    assert(lower_args(*lin_op, c, i + 1) == lower_args(*lin_op, c, i as int) + lower(
                        lin_op.args@[i as int],
                        c,
                    ));
                    if (exact::<V>() && count_exact(*lin_op)) || value_free(*lin_op) {
                        assert(count_exact(lin_op.args@[i as int]) || value_free(lin_op.args@[i as int]));
                        lemma_capped_add(
                            lower_args(*lin_op, c, i as int).len() as int,
                            lower(lin_op.args@[i as int], c).len() as int,
                        );
                    }
                }
                total = saturating_add_usize(total, part);
                i = i + 1;
            }
            total
        },
        OpType::Neg | OpType::Reshape | OpType::Div | OpType::Index => {
            if lin_op.args.len() > 0 {
                assert(lowerable(lin_op.args@[0], c));
                let n = count_nnz(&lin_op.args[0], ctx);
                proof {
                    if lin_op.op_type == OpType::Div {
                        let d = lin_op.data->LinOpRef_0;
                        assert(lower(*lin_op, c) == div_entries(lower(lin_op.args@[0], c), const_vector(*d, c)));
                    }
                }
                n
            } else {
                0
            }
        },
        OpType::Mul => count_mul(lin_op, ctx),
        OpType::Rmul | OpType::MulElem => {
            let t = process_linop(lin_op, ctx);
            t.nnz()
        },
        _ => 0,
    }
}

} // verus!
