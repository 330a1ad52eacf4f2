//! Building the problem-data matrix of a list of constraint trees.
//!
//! Each tree is lowered to a tensor, its rows are moved down by the sizes
//! of the trees before it, the tensors are stacked, and the stack is
//! flattened to the COO matrix that the Python side turns into a CSC array.
//! [`CachedLinOpGraph`] keeps the trees between builds and reuses the
//! tensors of the parameter-free ones.
use vstd::prelude::*;
use rayon::iter::{IndexedParallelIterator, IntoParallelRefIterator, ParallelIterator};
use std::collections::HashMap;
use crate::linop::{has_param_spec, shape_size, size_fits, LinOp};
use crate::operations::{
    capped, count_exact, count_nnz, lemma_lowerable_basics, lower, lower_rows, lowerable, process_linop,
    CtxView, ProcessingContext,
};
use crate::scalar::{exact, ops_total, Scalar};
use crate::tensor::{
    flat_row, flat_triples, flattened_from, lemma_map_multiset, result_triples, BuildMatrixResult, Entry,
    SparseTensor, CONSTANT_ID,
};

verus! {

/// The context of a build: the caller's maps, with the constant term
/// mapped to column `var_length`, to the last parameter slice and to one
/// slice.
pub open spec fn full_ctx_view(
    id_to_col: Map<i64, i64>,
    param_to_size: Map<i64, i64>,
    param_to_col: Map<i64, i64>,
    var_length: i64,
    param_size_plus_one: i64,
) -> CtxView {
    CtxView {
        id_to_col: id_to_col.insert(CONSTANT_ID, var_length),
        param_to_size: param_to_size.insert(CONSTANT_ID, 1i64),
        param_to_col: param_to_col.insert(CONSTANT_ID, (param_size_plus_one - 1) as i64),
        var_length,
        param_size_plus_one,
    }
}

/// The processing context of a build (see [`full_ctx_view`]).
pub fn build_context(
    id_to_col: HashMap<i64, i64>,
    param_to_size: HashMap<i64, i64>,
    param_to_col: HashMap<i64, i64>,
    var_length: i64,
    param_size_plus_one: i64,
) -> (ctx: ProcessingContext)
    requires
        param_size_plus_one > i64::MIN,
    ensures
        ctx@ == full_ctx_view(id_to_col@, param_to_size@, param_to_col@, var_length, param_size_plus_one),
{
    let mut id_to_col = id_to_col;
    id_to_col.insert(CONSTANT_ID, var_length);
    let mut param_to_col = param_to_col;
    param_to_col.insert(CONSTANT_ID, param_size_plus_one - 1);
    let mut param_to_size = param_to_size;
    param_to_size.insert(CONSTANT_ID, 1);
    ProcessingContext { id_to_col, param_to_size, param_to_col, var_length, param_size_plus_one }
}

/// Sum of the sizes of the first `k` trees: the row where tree `k` starts.
pub open spec fn sizes_before<V>(ops: Seq<LinOp<V>>, k: int) -> int
    decreases k,
{
    if k <= 0 {
        0
    } else {
        sizes_before(ops, k - 1) + shape_size(ops[k - 1].shape@)
    }
}

/// Row offsets grow with the index and start at zero.
pub proof fn lemma_sizes_before_mono<V>(ops: Seq<LinOp<V>>, i: int, j: int)
    requires
        0 <= i <= j <= ops.len(),
    ensures
        0 <= sizes_before(ops, i) <= sizes_before(ops, j),
    decreases j,
{
    if j > 0 {
        crate::linop::lemma_prefix_size_nonneg(ops[j - 1].shape@, ops[j - 1].shape@.len() as int);
        if i < j {
            lemma_sizes_before_mono(ops, i, j - 1);
        } else {
            lemma_sizes_before_mono(ops, 0, j - 1);
        }
    }
}

/// The trees can be lowered and counted in context `c`, and their rows,
/// moved down, stay representable.
pub open spec fn stack_fits<V: Scalar>(ops: Seq<LinOp<V>>, c: CtxView) -> bool {
    &&& c.valid()
    &&& forall|i: int| 0 <= i < ops.len() ==> lowerable(#[trigger] ops[i], c)
    &&& forall|i: int| 0 <= i < ops.len() ==> sizes_before(ops, i) + lower_rows(#[trigger] ops[i]) <= i64::MAX
    &&& sizes_before(ops, ops.len() as int) <= i64::MAX
    &&& sizes_before(ops, ops.len() as int) <= usize::MAX
}

/// Entries with their rows moved down by `offset`.
pub open spec fn offset_entries<V>(es: Seq<Entry<V>>, offset: int) -> Seq<Entry<V>> {
    Seq::new(es.len(), |i: int| (es[i].0, (es[i].1 + offset) as i64, es[i].2, es[i].3))
}

/// The entries of the first `k` trees: each tree's lowering, moved down to
/// the row where the tree starts, one tree after another.
pub open spec fn stacked_entries<V: Scalar>(ops: Seq<LinOp<V>>, c: CtxView, k: int) -> Seq<Entry<V>>
    decreases k,
{
    if k <= 0 {
        seq![]
    } else {
        stacked_entries(ops, c, k - 1) + offset_entries(lower(ops[k - 1], c), sizes_before(ops, k - 1))
    }
}

/// Every tree lowers to no more rows than its size, so each tree's rows
/// stay inside its own row block.
pub open spec fn stack_rows_fit<V>(ops: Seq<LinOp<V>>) -> bool {
    forall|i: int| 0 <= i < ops.len() ==> lower_rows(#[trigger] ops[i]) <= shape_size(ops[i].shape@)
}

/// `r` flattens a stack of `ops` in `c`: a tensor with one row block per
/// tree and the columns of `c`, whose entries (for exact coefficients) are
/// the stacked lowerings.
pub open spec fn builds_stack<V: Scalar>(r: BuildMatrixResult<V>, ops: Seq<LinOp<V>>, c: CtxView) -> bool {
    exists|t: SparseTensor<V>|
        #![trigger flattened_from(r, t, c.param_size_plus_one as usize)]
        {
            &&& t.wf()
            &&& t.shape == (sizes_before(ops, ops.len() as int) as usize, c.var_cols())
            &&& exact::<V>() ==> t.entries() == stacked_entries(ops, c, ops.len() as int)
            &&& stack_rows_fit(ops) ==> t.rows_in_range()
            &&& flattened_from(r, t, c.param_size_plus_one as usize)
        }
}

/// Two flattenings of the same stack agree: the same shape, the same row
/// array, and the same entries `(row, value, column)` (they can differ only
/// in the order of the entries within a row).  So a build from the cache
/// gives what a fresh build of the same trees gives.
pub proof fn lemma_builds_agree<V: Scalar>(
    r1: BuildMatrixResult<V>,
    r2: BuildMatrixResult<V>,
    ops: Seq<LinOp<V>>,
    c: CtxView,
)
    requires
        exact::<V>(),
        builds_stack(r1, ops, c),
        builds_stack(r2, ops, c),
    ensures
        r1.shape == r2.shape,
        r1.rows@ == r2.rows@,
        result_triples(r1).to_multiset() == result_triples(r2).to_multiset(),
{
    let t1 = choose|t: SparseTensor<V>|
        #![trigger flattened_from(r1, t, c.param_size_plus_one as usize)]
        {
            &&& t.wf()
            &&& t.shape == (sizes_before(ops, ops.len() as int) as usize, c.var_cols())
            &&& exact::<V>() ==> t.entries() == stacked_entries(ops, c, ops.len() as int)
            &&& stack_rows_fit(ops) ==> t.rows_in_range()
            &&& flattened_from(r1, t, c.param_size_plus_one as usize)
        };
    let t2 = choose|t: SparseTensor<V>|
        #![trigger flattened_from(r2, t, c.param_size_plus_one as usize)]
        {
            &&& t.wf()
            &&& t.shape == (sizes_before(ops, ops.len() as int) as usize, c.var_cols())
            &&& exact::<V>() ==> t.entries() == stacked_entries(ops, c, ops.len() as int)
            &&& stack_rows_fit(ops) ==> t.rows_in_range()
            &&& flattened_from(r2, t, c.param_size_plus_one as usize)
        };
    assert(t1.data@.len() == t2.data@.len()) by {
        assert(t1.entries().len() == t2.entries().len());
    }
    assert forall|i: int| 0 <= i < t1.data@.len() implies flat_triples(t1)[i] == flat_triples(t2)[i] by {
        assert(t1.entries()[i] == t2.entries()[i]);
        assert(t1.entry(i) == t2.entry(i));
        assert(flat_row(t1, i) == flat_row(t2, i));
    }
    assert(flat_triples(t1) =~= flat_triples(t2));
    let row_of = |e: (i64, V, i64)| e.0;
    lemma_map_multiset(result_triples(r1), result_triples(r2), row_of);
    assert(result_triples(r1).map_values(row_of) =~= r1.rows@);
    assert(result_triples(r2).map_values(row_of) =~= r2.rows@);
    let leq = |a: i64, b: i64| a <= b;
    assert(vstd::relations::sorted_by(r1.rows@, leq));
    assert(vstd::relations::sorted_by(r2.rows@, leq));
    assert(vstd::relations::total_ordering(leq));
    vstd::seq_lib::lemma_sorted_unique(r1.rows@, r2.rows@, leq);
}

/// Row offset of each tree: the sizes of the trees before it.
pub fn row_offsets<V>(lin_ops: &[LinOp<V>]) -> (offsets: Vec<i64>)
    requires
        forall|i: int| 0 <= i < lin_ops@.len() ==> size_fits(#[trigger] lin_ops@[i].shape@),
        sizes_before(lin_ops@, lin_ops@.len() as int) <= i64::MAX,
    ensures
        offsets@.len() == lin_ops@.len(),
        forall|i: int| 0 <= i < lin_ops@.len() ==> #[trigger] offsets@[i] == sizes_before(lin_ops@, i),
{
    let n = lin_ops.len();
    let mut offsets: Vec<i64> = Vec::with_capacity(n);
    let mut offset: i64 = 0;
    let mut i: usize = 0;
    while i < n
        invariant
            i <= n,
            n == lin_ops@.len(),
            forall|j: int| 0 <= j < lin_ops@.len() ==> size_fits(#[trigger] lin_ops@[j].shape@),
            sizes_before(lin_ops@, lin_ops@.len() as int) <= i64::MAX,
            offset == sizes_before(lin_ops@, i as int),
            offsets@.len() == i,
            forall|j: int| 0 <= j < i ==> #[trigger] offsets@[j] == sizes_before(lin_ops@, j),
        decreases n - i,
    {
        offsets.push(offset);
        proof {
            lemma_sizes_before_mono(lin_ops@, i + 1, n as int);
            lemma_sizes_before_mono(lin_ops@, i as int, i + 1);
        }
        let size = lin_ops[i].size();
        offset = offset + size as i64;
        i = i + 1;
    }
    offsets
}

/// Total number of rows: the sum of the trees' sizes.
pub fn total_rows<V>(lin_ops: &[LinOp<V>]) -> (n: usize)
    requires
        forall|i: int| 0 <= i < lin_ops@.len() ==> size_fits(#[trigger] lin_ops@[i].shape@),
        sizes_before(lin_ops@, lin_ops@.len() as int) <= usize::MAX,
    ensures
        n == sizes_before(lin_ops@, lin_ops@.len() as int),
{
    let len = lin_ops.len();
    let mut total: usize = 0;
    let mut i: usize = 0;
    while i < len
        invariant
            i <= len,
            len == lin_ops@.len(),
            forall|j: int| 0 <= j < lin_ops@.len() ==> size_fits(#[trigger] lin_ops@[j].shape@),
            sizes_before(lin_ops@, lin_ops@.len() as int) <= usize::MAX,
            total == sizes_before(lin_ops@, i as int),
        decreases len - i,
    {
        proof {
            lemma_sizes_before_mono(lin_ops@, i + 1, len as int);
        }
        total = total + lin_ops[i].size();
        i = i + 1;
    }
    total
}

/// The numbers of entries the first `k` trees lower to, summed and
/// saturated at `usize::MAX`.
pub open spec fn saturating_counts<V: Scalar>(ops: Seq<LinOp<V>>, c: CtxView, k: int) -> int
    decreases k,
{
    if k <= 0 {
        0
    } else {
        capped(saturating_counts(ops, c, k - 1) + lower(ops[k - 1], c).len())
    }
}

/// Total of the entry counts of the trees, saturating at `usize::MAX` (it
/// sizes the buffers and decides on the parallel build): for exact
/// coefficients and trees counted exactly, the saturated sum of the
/// numbers of entries they lower to.
fn total_nnz<V: Scalar>(lin_ops: &[LinOp<V>], ctx: &ProcessingContext) -> (n: usize)
    requires
        ops_total::<V>(),
        forall|i: int| 0 <= i < lin_ops@.len() ==> lowerable(#[trigger] lin_ops@[i], ctx@),
    ensures
        exact::<V>() && (forall|i: int| 0 <= i < lin_ops@.len() ==> count_exact(#[trigger] lin_ops@[i])) ==> n
            == saturating_counts(lin_ops@, ctx@, lin_ops@.len() as int),
{
    let len = lin_ops.len();
    let mut total: usize = 0;
    let mut i: usize = 0;
    while i < len
        invariant
            ops_total::<V>(),
            i <= len,
            len == lin_ops@.len(),
            forall|j: int| 0 <= j < lin_ops@.len() ==> lowerable(#[trigger] lin_ops@[j], ctx@),
            exact::<V>() && (forall|j: int| 0 <= j < lin_ops@.len() ==> count_exact(#[trigger] lin_ops@[j])) ==> total
                == saturating_counts(lin_ops@, ctx@, i as int),
            saturating_counts(lin_ops@, ctx@, i as int) >= 0,
        decreases len - i,
    {
        assert(lowerable(lin_ops@[i as int], ctx@));
        let c = count_nnz(&lin_ops[i], ctx);
        proof {
            crate::operations::lemma_capped_add(
                saturating_counts(lin_ops@, ctx@, i as int),
                lower(lin_ops@[i as int], ctx@).len() as int,
            );
        }
        total = total.saturating_add(c);
        i = i + 1;
    }
    total
}

/// The tensor of one tree, moved down to row `offset`.
fn lower_constraint<V: Scalar>(lin_op: &LinOp<V>, ctx: &ProcessingContext, offset: i64) -> (t: SparseTensor<V>)
    requires
        ops_total::<V>(),
        lowerable(*lin_op, ctx@),
        0 <= offset,
        offset + lower_rows(*lin_op) <= i64::MAX,
    ensures
        t.wf(),
        t.shape == (lower_rows(*lin_op) as usize, ctx@.var_cols()),
        exact::<V>() ==> t.entries() == offset_entries(lower(*lin_op, ctx@), offset as int),
        forall|k: int| 0 <= k < t.rows@.len() ==> offset <= #[trigger] t.rows@[k] < offset + lower_rows(*lin_op),
{
    proof {
        lemma_lowerable_basics(*lin_op, ctx@);
    }
    let mut t = process_linop(lin_op, ctx);
    let ghost before = t.entries();
    t.offset_rows_in_place(offset);
    assert(t.entries() =~= offset_entries(before, offset as int));
    t
}

/// Fewest constraints for which they are lowered in parallel.
pub const PARALLEL_MIN_CONSTRAINTS: usize = 4;

/// Fewest counted entries for which the constraints are lowered in parallel.
pub const PARALLEL_MIN_WORK: usize = 500;

/// What [`lower_constraint`] gives for a tree and an offset.
pub open spec fn lowered_constraint<V: Scalar>(t: SparseTensor<V>, op: LinOp<V>, c: CtxView, offset: i64) -> bool {
    &&& t.wf()
    &&& t.shape == (lower_rows(op) as usize, c.var_cols())
    &&& exact::<V>() ==> t.entries() == offset_entries(lower(op, c), offset as int)
    &&& forall|k: int| 0 <= k < t.rows@.len() ==> offset <= #[trigger] t.rows@[k] < offset + lower_rows(op)
}

/// Lowers every tree with [`lower_constraint`] on rayon's thread pool:
/// `par_iter().zip(..).map(..).collect()` over the trees and their offsets.
/// Claimed of rayon: the collected vector holds one result per tree, in the
/// order of the trees (an indexed parallel iterator collects in order); what
/// each result is, `lower_constraint`'s verified contract says.
#[verifier::external_body]
fn par_lower_constraints<V: Scalar + Send + Sync>(
    lin_ops: &[LinOp<V>],
    ctx: &ProcessingContext,
    offsets: &[i64],
) -> (ts: Vec<SparseTensor<V>>)
    requires
        ops_total::<V>(),
        offsets@.len() == lin_ops@.len(),
        forall|i: int|
            0 <= i < lin_ops@.len() ==> {
                &&& lowerable(#[trigger] lin_ops@[i], ctx@)
                &&& 0 <= offsets@[i]
                &&& offsets@[i] + lower_rows(lin_ops@[i]) <= i64::MAX
            },
    ensures
        ts@.len() == lin_ops@.len(),
        forall|i: int| 0 <= i < lin_ops@.len() ==> lowered_constraint(#[trigger] ts@[i], lin_ops@[i], ctx@, offsets@[i]),
{
    lin_ops.par_iter().zip(offsets.par_iter()).map(|(op, &offset)| lower_constraint(op, ctx, offset)).collect()
}

/// Appending a tensor appends its entries.
proof fn lemma_extend_entries<V>(a: SparseTensor<V>, b: SparseTensor<V>, r: SparseTensor<V>)
    requires
        a.wf(),
        b.wf(),
        r.data@ == a.data@ + b.data@,
        r.rows@ == a.rows@ + b.rows@,
        r.cols@ == a.cols@ + b.cols@,
        r.param_offsets@ == a.param_offsets@ + b.param_offsets@,
    ensures
        r.wf(),
        r.entries() == a.entries() + b.entries(),
{
    assert(r.entries() =~= a.entries() + b.entries());
}

/// Every row of `t` lies in `0..n`.
pub open spec fn rows_below<V>(t: SparseTensor<V>, n: int) -> bool {
    forall|k: int| 0 <= k < t.rows@.len() ==> 0 <= #[trigger] t.rows@[k] < n
}

/// Appending the tensor of tree `i`, whose rows lie in its row block, to a
/// stack of the trees before it keeps every row below the end of block `i`.
proof fn lemma_stack_rows_step<V>(
    ops: Seq<LinOp<V>>,
    before: SparseTensor<V>,
    t: SparseTensor<V>,
    after: SparseTensor<V>,
    i: int,
)
    requires
        0 <= i < ops.len(),
        before.wf(),
        t.wf(),
        after.rows@ == before.rows@ + t.rows@,
        stack_rows_fit(ops) ==> rows_below(before, sizes_before(ops, i)),
        forall|k: int|
            0 <= k < t.rows@.len() ==> sizes_before(ops, i) <= #[trigger] t.rows@[k] < sizes_before(ops, i)
                + lower_rows(ops[i]),
    ensures
        stack_rows_fit(ops) ==> rows_below(after, sizes_before(ops, i + 1)),
{
    if stack_rows_fit(ops) {
        lemma_sizes_before_mono(ops, 0, i);
        assert(lower_rows(ops[i]) <= shape_size(ops[i].shape@));
        assert forall|k: int| 0 <= k < after.rows@.len() implies 0 <= #[trigger] after.rows@[k] < sizes_before(ops, i + 1) by {
            if k < before.rows@.len() {
                assert(after.rows@[k] == before.rows@[k]);
                lemma_sizes_before_mono(ops, i, i + 1);
            } else {
                assert(after.rows@[k] == t.rows@[k - before.rows@.len()]);
            }
        }
    }
}

/// A stack whose rows lie below the total row count has its rows in range.
proof fn lemma_rows_below_in_range<V>(ops: Seq<LinOp<V>>, t: SparseTensor<V>)
    requires
        t.shape.0 == sizes_before(ops, ops.len() as int) as usize,
        sizes_before(ops, ops.len() as int) <= usize::MAX,
        stack_rows_fit(ops) ==> rows_below(t, sizes_before(ops, ops.len() as int)),
    ensures
        stack_rows_fit(ops) ==> t.rows_in_range(),
{
    lemma_sizes_before_mono(ops, 0, ops.len() as int);
}

/// Build the coefficient matrix of the trees `lin_ops`: lower each tree in
/// the context of the caller's maps (with the constant term added), move its
/// rows down to where the tree starts, stack the tensors and flatten them.
pub fn build_matrix_internal<V: Scalar + Send + Sync>(
    lin_ops: &[LinOp<V>],
    param_size_plus_one: i64,
    id_to_col: &HashMap<i64, i64>,
    param_to_size: &HashMap<i64, i64>,
    param_to_col: &HashMap<i64, i64>,
    var_length: i64,
) -> (r: BuildMatrixResult<V>)
    requires
        ops_total::<V>(),
        stack_fits(
            lin_ops@,
            full_ctx_view(id_to_col@, param_to_size@, param_to_col@, var_length, param_size_plus_one),
        ),
    ensures
        builds_stack(
            r,
            lin_ops@,
            full_ctx_view(id_to_col@, param_to_size@, param_to_col@, var_length, param_size_plus_one),
        ),
{
    let ghost c = full_ctx_view(id_to_col@, param_to_size@, param_to_col@, var_length, param_size_plus_one);
    let ctx = build_context(
        id_to_col.clone(),
        param_to_size.clone(),
        param_to_col.clone(),
        var_length,
        param_size_plus_one,
    );
    let ghost ops = lin_ops@;
    proof {
        assert forall|i: int| 0 <= i < ops.len() implies size_fits(#[trigger] ops[i].shape@) by {
            lemma_lowerable_basics(ops[i], c);
        }
    }
    let offsets = row_offsets(lin_ops);
    let rows = total_rows(lin_ops);
    let capacity = total_nnz(lin_ops, &ctx);
    let mut combined: SparseTensor<V> = SparseTensor::with_capacity((rows, ctx.var_cols()), capacity);
    let n = lin_ops.len();
    proof {
        assert forall|i: int| 0 <= i < n implies {
            &&& lowerable(#[trigger] ops[i], c)
            &&& 0 <= offsets@[i]
            &&& offsets@[i] + lower_rows(ops[i]) <= i64::MAX
        } by {
            lemma_sizes_before_mono(ops, i, n as int);
        }
    }
    if n >= PARALLEL_MIN_CONSTRAINTS && capacity >= PARALLEL_MIN_WORK {
        let mut tensors = par_lower_constraints(lin_ops, &ctx, offsets.as_slice());
        let mut i: usize = 0;
        while i < n
            invariant
                ops == lin_ops@,
                n == ops.len(),
                i <= n,
                tensors@.len() == n,
                offsets@.len() == n,
                forall|j: int| 0 <= j < n ==> #[trigger] offsets@[j] == sizes_before(ops, j),
                forall|j: int| i <= j < n ==> lowered_constraint(#[trigger] tensors@[j], ops[j], c, offsets@[j]),
                combined.wf(),
                combined.shape == (sizes_before(ops, n as int) as usize, c.var_cols()),
                exact::<V>() ==> combined.entries() == stacked_entries(ops, c, i as int),
                stack_rows_fit(ops) ==> rows_below(combined, sizes_before(ops, i as int)),
            decreases n - i,
        {
            assert(lowered_constraint(tensors@[i as int], ops[i as int], c, offsets@[i as int]));
            let ghost others = tensors@;
            let mut t = SparseTensor::empty((0, 0));
            std::mem::swap(&mut t, &mut tensors[i]);
            proof {
                assert(t == others[i as int]);
                assert forall|j: int| i < j < n implies lowered_constraint(#[trigger] tensors@[j], ops[j], c, offsets@[j]) by {
                    assert(tensors@[j] == others[j]);
                }
            }
            let ghost before = combined;
            combined.extend(t);
            proof {
                lemma_extend_entries(before, t, combined);
                lemma_stack_rows_step(ops, before, t, combined, i as int);
            }
            i = i + 1;
        }
    } else {
        let mut i: usize = 0;
        while i < n
            invariant
                ops_total::<V>(),
                ctx@ == c,
                ops == lin_ops@,
                n == ops.len(),
                i <= n,
                offsets@.len() == n,
                forall|j: int| 0 <= j < n ==> #[trigger] offsets@[j] == sizes_before(ops, j),
                forall|j: int|
                    0 <= j < n ==> {
                        &&& lowerable(#[trigger] ops[j], c)
                        &&& 0 <= offsets@[j]
                        &&& offsets@[j] + lower_rows(ops[j]) <= i64::MAX
                    },
                combined.wf(),
                combined.shape == (sizes_before(ops, n as int) as usize, c.var_cols()),
                exact::<V>() ==> combined.entries() == stacked_entries(ops, c, i as int),
                stack_rows_fit(ops) ==> rows_below(combined, sizes_before(ops, i as int)),
            decreases n - i,
        {
            assert(lowerable(ops[i as int], c));
            let t = lower_constraint(&lin_ops[i], &ctx, offsets[i]);
            let ghost before = combined;
            combined.extend(t);
            proof {
                lemma_extend_entries(before, t, combined);
                lemma_stack_rows_step(ops, before, t, combined, i as int);
            }
            i = i + 1;
        }
    }
    proof {
        lemma_rows_below_in_range(ops, combined);
    }
    let r = BuildMatrixResult::from_tensor(combined, param_size_plus_one as usize);
    assert(flattened_from(r, combined, c.param_size_plus_one as usize));
    r
}

/// The trees of a problem kept between builds, with the tensors of the
/// parameter-free ones, so that a new build re-lowers only the trees whose
/// parameters may have changed.
pub struct CachedLinOpGraph<V> {
    lin_ops: Vec<LinOp<V>>,
    ctx: ProcessingContext,
    param_size_plus_one: i64,
    /// Per-constraint flag: true if the subtree contains any Param nodes.
    param_dependent: Vec<bool>,
    /// Cached SparseTensor (with row offsets applied) for non-parametric constraints.
    constraint_cache: Vec<Option<SparseTensor<V>>>,
    /// Row offsets for each constraint in the output tensor.
    row_offsets: Vec<i64>,
    /// Total rows across all constraints.
    total_rows: usize,
}

impl<V: Scalar> CachedLinOpGraph<V> {
    /// The constraint trees.
    pub closed spec fn constraints(&self) -> Seq<LinOp<V>> {
        self.lin_ops@
    }

    /// The processing context.
    pub closed spec fn context(&self) -> CtxView {
        self.ctx@
    }

    /// Whether constraint `i` has a cached tensor.
    pub closed spec fn is_cached(&self, i: int) -> bool {
        self.constraint_cache@[i] is Some
    }

    /// The per-constraint data agree with the trees, and every cached
    /// tensor is the one lowering its tree again would give.
    pub closed spec fn wf(&self) -> bool {
        let ops = self.lin_ops@;
        let n = ops.len();
        &&& stack_fits(ops, self.ctx@)
        &&& self.param_size_plus_one == self.ctx.param_size_plus_one
        &&& self.param_dependent@.len() == n
        &&& self.constraint_cache@.len() == n
        &&& self.row_offsets@.len() == n
        &&& self.total_rows == sizes_before(ops, n as int)
        &&& forall|i: int| 0 <= i < n ==> #[trigger] self.param_dependent@[i] == has_param_spec(ops[i])
        &&& forall|i: int| 0 <= i < n ==> #[trigger] self.row_offsets@[i] == sizes_before(ops, i)
        &&& forall|i: int|
            0 <= i < n ==> match #[trigger] self.constraint_cache@[i] {
                Some(t) => {
                    &&& !self.param_dependent@[i]
                    &&& t.wf()
                    &&& t.shape == (lower_rows(ops[i]) as usize, self.ctx@.var_cols())
                    &&& exact::<V>() ==> t.entries() == offset_entries(lower(ops[i], self.ctx@), sizes_before(ops, i))
                    &&& forall|k: int|
                        0 <= k < t.rows@.len() ==> sizes_before(ops, i) <= #[trigger] t.rows@[k] < sizes_before(
                            ops,
                            i,
                        ) + lower_rows(ops[i])
                },
                None => true,
            }
    }

    /// A graph of the trees `lin_ops` in the context of the caller's maps
    /// (with the constant term added), with nothing cached yet.
    pub fn new(
        lin_ops: Vec<LinOp<V>>,
        id_to_col: HashMap<i64, i64>,
        param_to_size: HashMap<i64, i64>,
        param_to_col: HashMap<i64, i64>,
        var_length: i64,
        param_size_plus_one: i64,
    ) -> (g: Self)
        requires
            stack_fits(
                lin_ops@,
                full_ctx_view(id_to_col@, param_to_size@, param_to_col@, var_length, param_size_plus_one),
            ),
        ensures
            g.wf(),
            g.constraints() == lin_ops@,
            g.context() == full_ctx_view(id_to_col@, param_to_size@, param_to_col@, var_length, param_size_plus_one),
            forall|i: int| 0 <= i < lin_ops@.len() ==> !g.is_cached(i),
    {
        let ghost c = full_ctx_view(id_to_col@, param_to_size@, param_to_col@, var_length, param_size_plus_one);
        let ghost ops = lin_ops@;
        let ctx = build_context(id_to_col, param_to_size, param_to_col, var_length, param_size_plus_one);
        proof {
            assert forall|i: int| 0 <= i < ops.len() implies size_fits(#[trigger] ops[i].shape@) by {
                lemma_lowerable_basics(ops[i], c);
            }
        }
        let n = lin_ops.len();
        let mut param_dependent: Vec<bool> = Vec::with_capacity(n);
        let mut constraint_cache: Vec<Option<SparseTensor<V>>> = Vec::with_capacity(n);
        let mut i: usize = 0;
        while i < n
            invariant
                i <= n,
                n == ops.len(),
                ops == lin_ops@,
                param_dependent@.len() == i,
                constraint_cache@.len() == i,
                forall|j: int| 0 <= j < i ==> #[trigger] param_dependent@[j] == has_param_spec(ops[j]),
                forall|j: int| 0 <= j < i ==> #[trigger] constraint_cache@[j] is None,
            decreases n - i,
        {
            param_dependent.push(lin_ops[i].has_param());
            constraint_cache.push(None);
            i = i + 1;
        }
        let row_offsets = row_offsets(lin_ops.as_slice());
        let total_rows = total_rows(lin_ops.as_slice());
        CachedLinOpGraph {
            lin_ops,
            ctx,
            param_size_plus_one,
            param_dependent,
            constraint_cache,
            row_offsets,
            total_rows,
        }
    }

    /// The tensor of constraint `i`, moved down to its row offset: the cached
    /// one when there is one, else lowered again (and cached when the tree
    /// is parameter-free).
    fn constraint_tensor(&mut self, i: usize) -> (t: SparseTensor<V>)
        requires
            ops_total::<V>(),
            old(self).wf(),
            i < old(self).constraints().len(),
        ensures
            final(self).wf(),
            final(self).constraints() == old(self).constraints(),
            final(self).context() == old(self).context(),
            t.wf(),
            exact::<V>() ==> t.entries() == offset_entries(
                lower(old(self).constraints()[i as int], old(self).context()),
                sizes_before(old(self).constraints(), i as int),
            ),
            forall|k: int|
                0 <= k < t.rows@.len() ==> sizes_before(old(self).constraints(), i as int) <= #[trigger] t.rows@[k]
                    < sizes_before(old(self).constraints(), i as int) + lower_rows(old(self).constraints()[i as int]),
            forall|j: int| 0 <= j < old(self).constraints().len() && old(self).is_cached(j) ==> #[trigger] final(self).is_cached(j),
            !has_param_spec(old(self).constraints()[i as int]) ==> final(self).is_cached(i as int),
    {
        let ghost ops = self.lin_ops@;
        let ghost c = self.ctx@;
        let ghost n = ops.len();
        let dependent = self.param_dependent[i];
        if !dependent {
            if let Some(t) = &self.constraint_cache[i] {
                return t.copied();
            }
        }
        proof {
            lemma_sizes_before_mono(ops, i as int, n as int);
            assert(lowerable(ops[i as int], c));
            assert(sizes_before(ops, i as int) + lower_rows(ops[i as int]) <= i64::MAX);
        }
        let t = lower_constraint(&self.lin_ops[i], &self.ctx, self.row_offsets[i]);
        if !dependent {
            let kept = t.copied();
            let ghost cache_before = self.constraint_cache@;
            self.constraint_cache.set(i, Some(kept));
            proof {
                assert forall|j: int| 0 <= j < n implies match #[trigger] self.constraint_cache@[j] {
                    Some(t2) => {
                        &&& !self.param_dependent@[j]
                        &&& t2.wf()
                        &&& t2.shape == (lower_rows(ops[j]) as usize, c.var_cols())
                        &&& exact::<V>() ==> t2.entries() == offset_entries(lower(ops[j], c), sizes_before(ops, j))
                        &&& forall|k: int|
                            0 <= k < t2.rows@.len() ==> sizes_before(ops, j) <= #[trigger] t2.rows@[k] < sizes_before(
                                ops,
                                j,
                            ) + lower_rows(ops[j])
                    },
                    None => true,
                } by {
                    if j != i {
                        assert(self.constraint_cache@[j] == cache_before[j]);
                    }
                }
            }
        }
        t
    }

    /// Build the coefficient matrix: cached tensors are reused, the other
    /// trees are lowered again, and the tensors of parameter-free trees
    /// are cached.  The result is the one [`build_matrix_internal`] gives
    /// for the same trees and maps, whatever was cached.
    #[verifier::rlimit(80)]
    #[verifier::spinoff_prover]
    pub fn build(&mut self) -> (r: BuildMatrixResult<V>)
        requires
            ops_total::<V>(),
            old(self).wf(),
        ensures
            final(self).wf(),
            final(self).constraints() == old(self).constraints(),
            final(self).context() == old(self).context(),
            builds_stack(r, old(self).constraints(), old(self).context()),
            forall|i: int|
                0 <= i < old(self).constraints().len() && !has_param_spec(
                    #[trigger] old(self).constraints()[i],
                ) ==> final(self).is_cached(i),
    {
        let ghost ops = self.lin_ops@;
        let ghost c = self.ctx@;
        let capacity = total_nnz(self.lin_ops.as_slice(), &self.ctx);
        let mut combined: SparseTensor<V> = SparseTensor::with_capacity(
            (self.total_rows, self.ctx.var_cols()),
            capacity,
        );
        let n = self.lin_ops.len();
        let mut i: usize = 0;
        while i < n
            invariant
                ops_total::<V>(),
                self.wf(),
                self.constraints() == ops,
                self.context() == c,
                n == ops.len(),
                i <= n,
                combined.wf(),
                combined.shape == (sizes_before(ops, n as int) as usize, c.var_cols()),
                exact::<V>() ==> combined.entries() == stacked_entries(ops, c, i as int),
                stack_rows_fit(ops) ==> rows_below(combined, sizes_before(ops, i as int)),
                forall|j: int| 0 <= j < i && !has_param_spec(#[trigger] ops[j]) ==> self.is_cached(j),
            decreases n - i,
        {
            let ghost before = combined;
            let t = self.constraint_tensor(i);
            combined.extend(t);
            proof {
                lemma_extend_entries(before, t, combined);
                lemma_stack_rows_step(ops, before, t, combined, i as int);
            }
            i = i + 1;
        }
        proof {
            lemma_rows_below_in_range(ops, combined);
        }
        let r = BuildMatrixResult::from_tensor(combined, self.param_size_plus_one as usize);
        assert(flattened_from(r, combined, c.param_size_plus_one as usize));
        r
    }
}

} // verus!
