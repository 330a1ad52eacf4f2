//! Structural operations: index.
//!
//! Elements are numbered in column-major order, so indexing is a row
//! selection: output row `q` is the argument row of the element that the
//! slices pick for the `q`-th output element.
use vstd::prelude::*;
use crate::linop::{shape_size, size_fits, LinOp, LinOpData, OpType, SliceData};
use crate::operations::{
    lemma_lowerable_basics, lower, lower_rows, lowerable, process_linop, ProcessingContext,
};
use crate::scalar::{exact, ops_total, Scalar};
use crate::tensor::{lemma_select_entries_rows, SparseTensor};

verus! {

/// The slices a node carries.
pub open spec fn slices_of<V>(op: LinOp<V>) -> Seq<SliceData> {
    match op.data {
        LinOpData::Slices(s) => s@,
        _ => seq![],
    }
}

/// Product of the dimensions `s[k..]`.
pub open spec fn suffix_size(s: Seq<usize>, k: int) -> int
    decreases s.len() - k,
{
    if k < 0 || k >= s.len() {
        1
    } else {
        s[k] * suffix_size(s, k + 1)
    }
}

/// The column-major position, within the dimensions `k..` of the argument,
/// of the element that output element `rem` (counted within the output
/// dimensions `k..`) is taken from: the digit `d` of dimension `k` picks
/// argument index `start + d * step`.
pub open spec fn index_source(
    sl: Seq<SliceData>,
    oshape: Seq<usize>,
    ashape: Seq<usize>,
    rem: int,
    k: int,
) -> int
    decreases oshape.len() - k,
{
    if k < 0 || k >= oshape.len() || oshape[k] == 0 {
        0
    } else {
        let d = rem % (oshape[k] as int);
        (sl[k].start + d * sl[k].step) + ashape[k] * index_source(
            sl,
            oshape,
            ashape,
            rem / (oshape[k] as int),
            k + 1,
        )
    }
}

/// Slices that stay within the argument: one per dimension, each picking
/// indices inside its dimension, with every position representable.
pub open spec fn slices_valid(sl: Seq<SliceData>, oshape: Seq<usize>, ashape: Seq<usize>) -> bool {
    &&& sl.len() == oshape.len()
    &&& ashape.len() == oshape.len()
    &&& forall|k: int|
        0 <= k < oshape.len() ==> {
            &&& #[trigger] ashape[k] <= i64::MAX
            &&& oshape[k] <= ashape[k]
            &&& oshape[k] > 0 ==> 0 <= sl[k].start < ashape[k]
            &&& oshape[k] > 0 ==> 0 <= sl[k].start + (oshape[k] - 1) * sl[k].step < ashape[k]
        }
    &&& forall|k: int| 0 <= k <= oshape.len() ==> #[trigger] suffix_size(ashape, k) <= i64::MAX
}

/// Output row `q` of an index node reads argument row `index_map(op)[q]`.
pub open spec fn index_map<V>(op: LinOp<V>) -> Seq<i64> {
    Seq::new(
        shape_size(op.shape@) as nat,
        |q: int| index_source(slices_of(op), op.shape@, op.args@[0].shape@, q, 0) as i64,
    )
}

/// A shape with elements has no zero dimension.
proof fn lemma_positive_dims(s: Seq<usize>, k: int)
    requires
        0 <= k <= s.len(),
        crate::linop::prefix_size(s, k) > 0,
    ensures
        forall|j: int| 0 <= j < k ==> #[trigger] s[j] > 0,
    decreases k,
{
    if k > 0 {
        let p = crate::linop::prefix_size(s, k - 1);
        crate::linop::lemma_prefix_size_nonneg(s, k - 1);
        assert(p > 0 && s[k - 1] > 0) by (nonlinear_arith)
            requires
                p * s[k - 1] > 0,
                p >= 0,
        ;
        lemma_positive_dims(s, k - 1);
    }
}

proof fn lemma_suffix_nonneg(s: Seq<usize>, k: int)
    ensures
        suffix_size(s, k) >= 0,
    decreases s.len() - k,
{
    if 0 <= k < s.len() {
        lemma_suffix_nonneg(s, k + 1);
        let t = suffix_size(s, k + 1);
        assert(s[k] * t >= 0) by (nonlinear_arith)
            requires
                t >= 0,
        ;
    }
}

/// A slice with both ends inside `0..a` stays inside for every digit.
proof fn lemma_slice_between(start: int, step: int, o: int, a: int, d: int)
    requires
        0 <= d < o,
        0 <= start < a,
        0 <= start + (o - 1) * step < a,
    ensures
        0 <= start + d * step < a,
{
    if step >= 0 {
        assert(0 <= d * step <= (o - 1) * step) by (nonlinear_arith)
            requires
                0 <= d <= o - 1,
                step >= 0,
        ;
    } else {
        assert((o - 1) * step <= d * step <= 0) by (nonlinear_arith)
            requires
                0 <= d <= o - 1,
                step < 0,
        ;
    }
}

/// The source position of output element `rem`, computed as `index_source`.
fn index_source_exec(
    sl: &Vec<SliceData>,
    oshape: &Vec<usize>,
    ashape: &Vec<usize>,
    rem: usize,
    k: usize,
) -> (r: i64)
    requires
        slices_valid(sl@, oshape@, ashape@),
        k <= oshape@.len(),
        forall|j: int| k <= j < oshape@.len() ==> #[trigger] oshape@[j] > 0,
    ensures
        r == index_source(sl@, oshape@, ashape@, rem as int, k as int),
        0 <= r < suffix_size(ashape@, k as int),
    decreases oshape@.len() - k,
{
    if k >= oshape.len() {
        return 0;
    }
    let ok = oshape[k];
    if ok == 0 {
        return 0;
    }
    let d = rem % ok;
    let inner = index_source_exec(sl, oshape, ashape, rem / ok, k + 1);
    let s = sl[k];
    let a = ashape[k];
    proof {
        assert(a <= i64::MAX);
        assert(ok <= a);
        lemma_slice_between(s.start as int, s.step as int, ok as int, a as int, d as int);
        lemma_suffix_nonneg(ashape@, k + 1);
        let t = suffix_size(ashape@, k + 1);
        assert(suffix_size(ashape@, k as int) == a * t);
        assert(suffix_size(ashape@, k as int) <= i64::MAX);
        let i = s.start + d * s.step;
        assert(0 <= i + a * inner < a * t) by (nonlinear_arith)
            requires
                0 <= i < a,
                0 <= inner < t,
        ;
        assert(a * inner <= i64::MAX) by (nonlinear_arith)
            requires
                0 <= inner < t,
                a * t <= i64::MAX,
                0 <= a,
        ;
    }
    let i = s.start + (d as i64) * s.step;
    i + (a as i64) * inner
}

/// The argument row of each output row of an index node.
pub fn index_row_indices<V>(lin_op: &LinOp<V>) -> (map: Vec<i64>)
    requires
        lin_op.args@.len() > 0,
        size_fits(lin_op.shape@),
        slices_valid(slices_of(*lin_op), lin_op.shape@, lin_op.args@[0].shape@),
    ensures
        map@ == index_map(*lin_op),
{
    let n = lin_op.size();
    let empty: Vec<SliceData> = Vec::new();
    let sl = match &lin_op.data {
        LinOpData::Slices(s) => s,
        _ => &empty,
    };
    assert(sl@ == slices_of(*lin_op));
    let arg = &lin_op.args[0];
    let mut map: Vec<i64> = Vec::with_capacity(n);
    if n > 0 {
        proof {
            lemma_positive_dims(lin_op.shape@, lin_op.shape@.len() as int);
        }
    }
    let mut q: usize = 0;
    while q < n
        invariant
            q <= n,
            n > 0 ==> forall|j: int| 0 <= j < lin_op.shape@.len() ==> #[trigger] lin_op.shape@[j] > 0,
            n == shape_size(lin_op.shape@),
            sl@ == slices_of(*lin_op),
            slices_valid(sl@, lin_op.shape@, arg.shape@),
            arg.shape@ == lin_op.args@[0].shape@,
            map@ == index_map(*lin_op).subrange(0, q as int),
        decreases n - q,
    {
        let src = index_source_exec(sl, &lin_op.shape, &arg.shape, q, 0);
        map.push(src);
        assert(map@ =~= index_map(*lin_op).subrange(0, q + 1));
        q = q + 1;
    }
    assert(map@ =~= index_map(*lin_op));
    map
}

/// Index operation: the argument's rows selected by the slices.
pub fn process_index<V: Scalar>(lin_op: &LinOp<V>, ctx: &ProcessingContext) -> (t: SparseTensor<V>)
    requires
        ops_total::<V>(),
        lowerable(*lin_op, ctx@),
        lin_op.op_type == OpType::Index,
    ensures
        t.wf(),
        t.shape == (lower_rows(*lin_op) as usize, ctx@.var_cols()),
        t.rows_in_range(),
        exact::<V>() ==> t.entries() == lower(*lin_op, ctx@),
    decreases lin_op, 1nat,
{
    if lin_op.args.len() == 0 {
        return SparseTensor::empty((lin_op.size(), ctx.var_cols()));
    }
    proof {
        lemma_lowerable_basics(*lin_op, ctx@);
        lemma_lowerable_basics(lin_op.args@[0], ctx@);
    }
    let tensor = process_linop(&lin_op.args[0], ctx);
    let map = index_row_indices(lin_op);
    assert forall|i: int| 0 <= i < tensor.rows@.len() implies #[trigger] tensor.rows@[i] >= tensor.shape.0 - 1 - i64::MAX by {
    }
    let t = tensor.select_rows(map.as_slice());
    proof {
        lemma_select_entries_rows(tensor.entries(), map@);
        assert forall|i: int| 0 <= i < t.rows@.len() implies 0 <= #[trigger] t.rows@[i] < t.shape.0 by {
            assert(t.entries()[i].1 == t.rows@[i]);
        }
    }
    t
}

} // verus!
