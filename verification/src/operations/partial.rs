//! Row-restricted lowering.
//!
//! A consumer that reads only some rows of its argument needs the argument
//! rows it depends on ([`block_rows`], [`unique_sorted`]) and the entries of
//! the rows it keeps ([`filter_rows`]).  [`process_linop_rows`] lowers a
//! node restricted to a set of rows, pushing the restriction through
//! negations, reshapes, sums, elementwise products, quotients, products
//! on either side ([`mul_rows`], [`rmul_rows`]) and indexing
//! ([`index_rows`]); [`process_arg_rows`] lowers the argument
//! of such a consumer, in full when most of its rows are read anyway.
use vstd::prelude::*;
use crate::reduction::{dedup, lemma_dedup_push};
use crate::sorting::{identity_order, is_permutation, lemma_reordered_identity_is_permutation, sort_order_by_key};
use crate::tensor::{Entry, SparseTensor};
use crate::linop::{LinOp, OpType};
use crate::operations::{
    lemma_lowerable_basics, lower, lower_args, lower_rows, lowerable, negated_entries, process_linop,
    ProcessingContext,
};
use crate::scalar::{exact, ops_total, Scalar};
use crate::linop::{shape_size, LinOpData};
use crate::operations::const_vector;
use crate::operations::arithmetic::{
    div_by_values, div_entries, get_constant_vector_data, lemma_rows_nonneg, mul_elem_fn, mul_elem_tensors,
};
use crate::tensor::flat_map_entries;
use crate::tensor::{expand, lemma_positions_bounded, lemma_select_entries_rows, lemma_select_rows_shortcuts, positions, select_entries};
use crate::operations::structural::index_row_indices;
use crate::operations::{const_matrix, identity_operand, typed_identity};
use crate::operations::arithmetic::{
    get_constant_matrix_data, left_consistent, lemma_left_rows_fit, lmul_dense_cm_fn, lmul_dense_cm_rows,
    lmul_dense_rm_fn, lmul_dense_rm_rows, lmul_entries, lmul_sparse_fn, lmul_sparse_rows,
    multiply_block_diagonal, scaled_entries, ConstantMatrix, MatrixView,
};
use crate::operations::const_matrix_rmul;
use crate::operations::arithmetic::{
    get_constant_matrix_data_for_rmul, lemma_right_rows_fit, multiply_block_diagonal_right, rmul_dense_cm_cols,
    rmul_dense_cm_fn, rmul_dense_rm_cols, rmul_dense_rm_fn, rmul_entries, rmul_sparse_cols, rmul_sparse_fn,
    rmul_sparse_pos,
};
use vstd::std_specs::ops::NegSpec;

verus! {

/// The last element survives deduplication.
proof fn lemma_dedup_last(s: Seq<i64>)
    requires
        s.len() > 0,
    ensures
        dedup(s).len() > 0,
        dedup(s).last() == s.last(),
    decreases s.len(),
{
    let p = s.drop_last();
    assert(s == p.push(s.last()));
    lemma_dedup_push(p, s.last());
    if p.len() > 0 && s.last() == p.last() {
        lemma_dedup_last(p);
    }
}

/// Consecutive runs of equal elements collapsed (`Vec::dedup`).
fn dedup_vec(v: &Vec<i64>) -> (r: Vec<i64>)
    ensures
        r@ == dedup(v@),
{
    let mut r: Vec<i64> = Vec::new();
    let n = v.len();
    let mut i: usize = 0;
    while i < n
        invariant
            i <= n,
            n == v@.len(),
            r@ == dedup(v@.subrange(0, i as int)),
        decreases n - i,
    {
        let x = v[i];
        let ghost p = v@.subrange(0, i as int);
        proof {
            assert(v@.subrange(0, i + 1) =~= p.push(x));
            lemma_dedup_push(p, x);
            if p.len() > 0 {
                lemma_dedup_last(p);
            }
        }
        if r.len() == 0 || r[r.len() - 1] != x {
            r.push(x);
        }
        i = i + 1;
    }
    assert(v@.subrange(0, n as int) =~= v@);
    r
}

/// The argument rows `b * a_cols .. (b + 1) * a_cols` of the first `k`
/// blocks `b` of `blocks`, block after block.
pub open spec fn block_ranges(blocks: Seq<i64>, a_cols: int, k: int) -> Seq<i64>
    decreases k,
{
    if k <= 0 {
        seq![]
    } else {
        block_ranges(blocks, a_cols, k - 1) + Seq::new(
            a_cols as nat,
            |t: int| (blocks[k - 1] * a_cols + t) as i64,
        )
    }
}

/// The blocks of `a_rows` output rows that the given rows fall in, with
/// consecutive repeats removed.
pub open spec fn row_blocks(rows: Seq<i64>, a_rows: int) -> Seq<i64> {
    dedup(Seq::new(rows.len(), |i: int| ((rows[i] as int) / a_rows) as i64))
}

/// Every row's block ends at a representable argument row (nothing is
/// asked of the rows of an operator with no output rows).
pub open spec fn block_rows_fit(rows: Seq<i64>, a_rows: int, a_cols: int) -> bool {
    a_rows > 0 ==> forall|i: int|
        0 <= i < rows.len() ==> {
            &&& 0 <= #[trigger] rows[i] <= usize::MAX
            &&& ((rows[i] as int) / a_rows + 1) * a_cols <= i64::MAX
            &&& ((rows[i] as int) / a_rows + 1) * a_cols <= usize::MAX
        }
}

/// Argument rows for the blocks that contain the given output rows, for a
/// block-diagonal operator with `a_rows` output and `a_cols` input rows per
/// block: for each block met (consecutive repeats once), its `a_cols`
/// argument rows in order.
pub fn block_rows(rows: &[i64], a_rows: usize, a_cols: usize) -> (needed: Vec<i64>)
    requires
        block_rows_fit(rows@, a_rows as int, a_cols as int),
    ensures
        a_rows == 0 ==> needed@.len() == 0,
        a_rows > 0 ==> needed@ == block_ranges(
            row_blocks(rows@, a_rows as int),
            a_cols as int,
            row_blocks(rows@, a_rows as int).len() as int,
        ),
{
    if a_rows == 0 {
        return Vec::new();
    }
    let n = rows.len();
    let mut blocks: Vec<i64> = Vec::with_capacity(n);
    let mut i: usize = 0;
    while i < n
        invariant
            i <= n,
            n == rows@.len(),
            a_rows > 0,
            block_rows_fit(rows@, a_rows as int, a_cols as int),
            blocks@ == Seq::new(i as nat, |q: int| ((rows@[q] as int) / (a_rows as int)) as i64),
        decreases n - i,
    {
        let r = rows[i];
        assert(0 <= r <= usize::MAX);
        let b = (r as usize) / a_rows;
        blocks.push(b as i64);
        assert(blocks@ =~= Seq::new((i + 1) as nat, |q: int| ((rows@[q] as int) / (a_rows as int)) as i64));
        i = i + 1;
    }
    let blocks = dedup_vec(&blocks);
    let ghost bs = blocks@;
    assert(bs == row_blocks(rows@, a_rows as int));
    let mut needed: Vec<i64> = Vec::new();
    let m = blocks.len();
    let mut k: usize = 0;
    while k < m
        invariant
            k <= m,
            m == bs.len(),
            bs == blocks@,
            a_rows > 0,
            block_rows_fit(rows@, a_rows as int, a_cols as int),
            bs == row_blocks(rows@, a_rows as int),
            needed@ == block_ranges(bs, a_cols as int, k as int),
        decreases m - k,
    {
        let block = blocks[k];
        proof {
            crate::reduction::lemma_dedup_elements_pub(Seq::new(rows@.len(), |q: int| ((rows@[q] as int) / (a_rows as int)) as i64));
            let src = Seq::new(rows@.len(), |q: int| ((rows@[q] as int) / (a_rows as int)) as i64);
            assert(src.contains(bs[k as int]));
            let w = choose|w: int| 0 <= w < src.len() && src[w] == bs[k as int];
            assert(0 <= rows@[w] <= usize::MAX);
            assert(((rows@[w] as int) / (a_rows as int) + 1) * a_cols <= i64::MAX);
            assert((rows@[w] as int) / (a_rows as int) >= 0);
            assert(block == (rows@[w] as int) / (a_rows as int));
            assert(block * a_cols + a_cols <= i64::MAX) by (nonlinear_arith)
                requires
                    (block + 1) * a_cols <= i64::MAX,
            ;
            assert(block * a_cols + a_cols <= usize::MAX) by (nonlinear_arith)
                requires
                    (block + 1) * a_cols <= usize::MAX,
            ;
            assert(0 <= block * a_cols) by (nonlinear_arith)
                requires
                    block >= 0,
            ;
        }
        let lo = (block as usize) * a_cols;
        let ghost base = needed@;
        let mut t: usize = 0;
        while t < a_cols
            invariant
                t <= a_cols,
                lo == block * a_cols,
                lo + a_cols <= i64::MAX,
                lo + a_cols <= usize::MAX,
                needed@ == base + Seq::new(t as nat, |q: int| (block * a_cols + q) as i64),
            decreases a_cols - t,
        {
            needed.push((lo + t) as i64);
            assert(needed@ =~= base + Seq::new((t + 1) as nat, |q: int| (block * a_cols + q) as i64));
            t = t + 1;
        }
        assert(bs[k as int] == block);
        k = k + 1;
    }
    needed
}

/// Valid rows of `rows`, sorted and deduplicated: the rows `r` of `rows`
/// with `0 <= r < size`, each once, in increasing order.
pub fn unique_sorted(rows: &[i64], size: usize) -> (wanted: Vec<i64>)
    ensures
        forall|a: int, b: int| 0 <= a < b < wanted@.len() ==> wanted@[a] < wanted@[b],
        forall|k: int|
            0 <= k < wanted@.len() ==> 0 <= #[trigger] wanted@[k] < size && rows@.contains(wanted@[k]),
        forall|j: int| 0 <= j < rows@.len() && 0 <= rows@[j] < size ==> wanted@.contains(#[trigger] rows@[j]),
{
    // The valid rows, in input order.
    let n = rows.len();
    let mut valid: Vec<i64> = Vec::new();
    let mut i: usize = 0;
    while i < n
        invariant
            i <= n,
            n == rows@.len(),
            forall|k: int| 0 <= k < valid@.len() ==> 0 <= #[trigger] valid@[k] < size && rows@.contains(valid@[k]),
            forall|j: int| 0 <= j < i && 0 <= rows@[j] < size ==> valid@.contains(#[trigger] rows@[j]),
        decreases n - i,
    {
        let r = rows[i];
        let ghost before = valid@;
        if r >= 0 && (r as u64) < (size as u64) {
            valid.push(r);
            assert(valid@[valid@.len() - 1] == r);
        }
        proof {
            assert forall|j: int| 0 <= j < i + 1 && 0 <= rows@[j] < size implies valid@.contains(#[trigger] rows@[j]) by {
                if j == i {
                    assert(rows@[j] == r);
                    assert(valid@[valid@.len() - 1] == r);
                } else {
                    assert(before.contains(rows@[j]));
                    let w = choose|w: int| 0 <= w < before.len() && before[w] == rows@[j];
                    assert(valid@[w] == before[w]);
                }
            }
            assert(rows@[i as int] == r);
        }
        i = i + 1;
    }
    // Sort them.
    let m = valid.len();
    let ident = identity_order(m);
    let mut order = identity_order(m);
    assert(ident@ =~= order@);
    sort_order_by_key(&mut order, valid.as_slice());
    proof {
        lemma_reordered_identity_is_permutation(ident@, order@);
    }
    let mut sorted: Vec<i64> = Vec::with_capacity(m);
    let mut k: usize = 0;
    while k < m
        invariant
            k <= m,
            m == valid@.len(),
            is_permutation(order@, m as int),
            crate::sorting::sorted_by_keys(order@, valid@),
            sorted@.len() == k,
            forall|q: int| 0 <= q < k ==> #[trigger] sorted@[q] == valid@[order@[q] as int],
        decreases m - k,
    {
        sorted.push(valid[order[k]]);
        k = k + 1;
    }
    proof {
        broadcast use vstd::seq_lib::group_to_multiset_ensures;
        assert forall|a: int, b: int| 0 <= a <= b < sorted@.len() implies sorted@[a] <= sorted@[b] by {
            assert(valid@[order@[a] as int] <= valid@[order@[b] as int]);
        }
        assert forall|j: int| 0 <= j < m implies sorted@.contains(#[trigger] valid@[j]) by {
            assert(ident@.contains(j as usize)) by {
                assert(ident@[j] == j);
            }
            assert(order@.to_multiset() == ident@.to_multiset());
            assert(ident@.to_multiset().count(j as usize) > 0);
            assert(order@.to_multiset().count(j as usize) > 0);
            assert(order@.contains(j as usize));
            let w = choose|w: int| 0 <= w < order@.len() && order@[w] == j as usize;
            assert(sorted@[w] == valid@[j]);
        }
    }
    // Remove repeats.
    let result = dedup_vec(&sorted);
    proof {
        lemma_dedup_sorted(sorted@);
        crate::reduction::lemma_dedup_elements_pub(sorted@);
        lemma_dedup_keeps(sorted@);
        assert forall|q: int| 0 <= q < result@.len() implies 0 <= #[trigger] result@[q] < size && rows@.contains(result@[q]) by {
            assert(sorted@.contains(result@[q]));
            let w = choose|w: int| 0 <= w < sorted@.len() && sorted@[w] == result@[q];
            assert(sorted@[w] == valid@[order@[w] as int]);
            assert(valid@.contains(result@[q])) by {
                assert(valid@[order@[w] as int] == result@[q]);
            }
        }
        assert forall|j: int| 0 <= j < rows@.len() && 0 <= rows@[j] < size implies result@.contains(#[trigger] rows@[j]) by {
            assert(valid@.contains(rows@[j]));
            let w = choose|w: int| 0 <= w < valid@.len() && valid@[w] == rows@[j];
            assert(sorted@.contains(valid@[w]));
        }
    }
    result
}

/// Deduplicating a non-decreasing sequence gives a strictly increasing one.
proof fn lemma_dedup_sorted(s: Seq<i64>)
    requires
        forall|a: int, b: int| 0 <= a <= b < s.len() ==> s[a] <= s[b],
    ensures
        forall|a: int, b: int| 0 <= a < b < dedup(s).len() ==> dedup(s)[a] < dedup(s)[b],
        forall|k: int| 0 <= k < dedup(s).len() ==> #[trigger] dedup(s)[k] <= s.last(),
    decreases s.len(),
{
    if s.len() > 0 {
        let p = s.drop_last();
        assert(s == p.push(s.last()));
        lemma_dedup_push(p, s.last());
        lemma_dedup_sorted(p);
        if p.len() > 0 {
            assert(p.last() <= s.last());
            crate::reduction::lemma_dedup_elements_pub(p);
            assert forall|k: int| 0 <= k < dedup(p).len() implies #[trigger] dedup(p)[k] <= s.last() by {
                assert(dedup(p)[k] <= p.last());
            }
            if s.last() != p.last() {
                assert forall|k: int| 0 <= k < dedup(p).len() implies #[trigger] dedup(p)[k] < s.last() by {
                    assert(dedup(p)[k] <= p.last());
                }
            }
        }
    }
}

/// Every element of `s` survives deduplication.
proof fn lemma_dedup_keeps(s: Seq<i64>)
    ensures
        forall|j: int| 0 <= j < s.len() ==> dedup(s).contains(#[trigger] s[j]),
    decreases s.len(),
{
    if s.len() > 0 {
        let p = s.drop_last();
        assert(s == p.push(s.last()));
        lemma_dedup_push(p, s.last());
        lemma_dedup_keeps(p);
        lemma_dedup_last(s);
        assert forall|j: int| 0 <= j < s.len() implies dedup(s).contains(#[trigger] s[j]) by {
            if j < p.len() {
                assert(p[j] == s[j]);
                let w = choose|w: int| 0 <= w < dedup(p).len() && dedup(p)[w] == p[j];
                assert(dedup(s)[w] == dedup(p)[w]);
            } else {
                assert(dedup(s)[dedup(s).len() - 1] == s.last());
            }
        }
    }
}

/// The entries of `es` whose row `r` satisfies `0 <= r < n` and occurs in
/// `rows`, in order.
pub open spec fn filtered_entries<V>(es: Seq<Entry<V>>, n: int, rows: Seq<i64>) -> Seq<Entry<V>>
    decreases es.len(),
{
    if es.len() == 0 {
        seq![]
    } else {
        let e = es.last();
        let prev = filtered_entries(es.drop_last(), n, rows);
        if 0 <= e.1 < n && rows.contains(e.1) {
            prev.push(e)
        } else {
            prev
        }
    }
}

/// `x` is among the first `j` elements of `rows`.
pub open spec fn row_listed(rows: Seq<i64>, j: int, x: int) -> bool {
    exists|w: int| 0 <= w < j && rows[w] as int == x
}

/// Keep only the entries whose row is in `rows` (and in the tensor's rows).
pub fn filter_rows<V: Copy>(tensor: SparseTensor<V>, rows: &[i64]) -> (t: SparseTensor<V>)
    requires
        tensor.wf(),
    ensures
        t.wf(),
        t.shape == tensor.shape,
        t.entries() == filtered_entries(tensor.entries(), tensor.shape.0 as int, rows@),
{
    let n = tensor.shape.0;
    let mut keep: Vec<bool> = Vec::with_capacity(n);
    let mut q: usize = 0;
    while q < n
        invariant
            q <= n,
            keep@.len() == q,
            forall|x: int| 0 <= x < q ==> !(#[trigger] keep@[x]),
        decreases n - q,
    {
        keep.push(false);
        q = q + 1;
    }
    let m = rows.len();
    let mut j: usize = 0;
    while j < m
        invariant
            j <= m,
            m == rows@.len(),
            keep@.len() == n,
            forall|x: int| 0 <= x < n ==> (#[trigger] keep@[x] <==> row_listed(rows@, j as int, x)),
        decreases m - j,
    {
        let r = rows[j];
        let ghost before = keep@;
        if r >= 0 && (r as u64) < (n as u64) {
            keep.set(r as usize, true);
        }
        proof {
            assert forall|x: int| 0 <= x < n implies (#[trigger] keep@[x] <==> row_listed(rows@, j + 1, x)) by {
                assert(before[x] <==> row_listed(rows@, j as int, x));
                if row_listed(rows@, j as int, x) {
                    let w = choose|w: int| 0 <= w < j && rows@[w] as int == x;
                    assert(0 <= w < j + 1 && rows@[w] as int == x);
                }
                if row_listed(rows@, j + 1, x) && !row_listed(rows@, j as int, x) {
                    let w = choose|w: int| 0 <= w < j + 1 && rows@[w] as int == x;
                    assert(w == j);
                    assert(r as int == x);
                }
                if r as int == x {
                    assert(0 <= j < j + 1 && rows@[j as int] as int == x);
                }
            }
        }
        j = j + 1;
    }
    let ghost es = tensor.entries();
    let mut result = SparseTensor::with_capacity(tensor.shape, 0);
    let nnz = tensor.nnz();
    let mut i: usize = 0;
    while i < nnz
        invariant
            tensor.wf(),
            es == tensor.entries(),
            nnz == es.len(),
            n == tensor.shape.0,
            i <= nnz,
            keep@.len() == n,
            forall|x: int| 0 <= x < n ==> (#[trigger] keep@[x] <==> row_listed(rows@, m as int, x)),
            m == rows@.len(),
            result.wf(),
            result.shape == tensor.shape,
            result.entries() == filtered_entries(es.subrange(0, i as int), n as int, rows@),
        decreases nnz - i,
    {
        let r = tensor.rows[i];
        proof {
            let s1 = es.subrange(0, i + 1);
            assert(s1.drop_last() =~= es.subrange(0, i as int));
            assert(s1.last() == tensor.entry(i as int));
        }
        proof {
            if 0 <= r < n {
                if rows@.contains(r) {
                    let w = choose|w: int| 0 <= w < rows@.len() && rows@[w] == r;
                    assert(0 <= w < m && rows@[w] as int == r as int);
                }
                if row_listed(rows@, m as int, r as int) {
                    let w = choose|w: int| 0 <= w < m && rows@[w] as int == r as int;
                    assert(rows@[w] == r);
                }
                assert(keep@[r as int] <==> rows@.contains(r));
            }
        }
        if r >= 0 && (r as u64) < (n as u64) && keep[r as usize] {
            result.push(tensor.data[i], r, tensor.cols[i], tensor.param_offsets[i]);
        }
        i = i + 1;
    }
    assert(es.subrange(0, nnz as int) =~= es);
    result
}

/// Filtering finds nothing in an empty row list.
proof fn lemma_filter_none<V>(es: Seq<Entry<V>>, n: int)
    ensures
        filtered_entries(es, n, Seq::<i64>::empty()) == Seq::<Entry<V>>::empty(),
    decreases es.len(),
{
    if es.len() > 0 {
        lemma_filter_none(es.drop_last(), n);
    }
}

/// Filtering commutes with negating the values.
proof fn lemma_filter_negated<V: Scalar>(es: Seq<Entry<V>>, n: int, rows: Seq<i64>)
    ensures
        filtered_entries(negated_entries(es), n, rows) == negated_entries(filtered_entries(es, n, rows)),
    decreases es.len(),
{
    if es.len() > 0 {
        let p = es.drop_last();
        lemma_filter_negated(p, n, rows);
        assert(negated_entries(es).drop_last() =~= negated_entries(p));
        let f = filtered_entries(p, n, rows);
        let e = es.last();
        if 0 <= e.1 < n && rows.contains(e.1) {
            assert(negated_entries(f.push(e)) =~= negated_entries(f).push(
                (e.0.neg_spec(), e.1, e.2, e.3),
            ));
        }
    }
}

/// Filtering distributes over concatenation.
proof fn lemma_filter_concat<V>(a: Seq<Entry<V>>, b: Seq<Entry<V>>, n: int, rows: Seq<i64>)
    ensures
        filtered_entries(a + b, n, rows) == filtered_entries(a, n, rows) + filtered_entries(b, n, rows),
    decreases b.len(),
{
    if b.len() == 0 {
        assert(a + b =~= a);
        assert(filtered_entries(a, n, rows) + filtered_entries(b, n, rows) =~= filtered_entries(a, n, rows));
    } else {
        lemma_filter_concat(a, b.drop_last(), n, rows);
        assert((a + b).drop_last() =~= a + b.drop_last());
        assert((a + b).last() == b.last());
        let e = b.last();
        if 0 <= e.1 < n && rows.contains(e.1) {
            assert((filtered_entries(a, n, rows) + filtered_entries(b.drop_last(), n, rows)).push(e)
                =~= filtered_entries(a, n, rows) + filtered_entries(b.drop_last(), n, rows).push(e));
        }
    }
}

/// Entries whose rows lie below `n1` are filtered alike under any larger
/// bound.
proof fn lemma_filter_bound<V>(es: Seq<Entry<V>>, n1: int, n2: int, rows: Seq<i64>)
    requires
        n1 <= n2,
        forall|k: int| 0 <= k < es.len() ==> 0 <= #[trigger] es[k].1 < n1,
    ensures
        filtered_entries(es, n1, rows) == filtered_entries(es, n2, rows),
    decreases es.len(),
{
    if es.len() > 0 {
        let p = es.drop_last();
        assert forall|k: int| 0 <= k < p.len() implies 0 <= #[trigger] p[k].1 < n1 by {
            assert(p[k] == es[k]);
        }
        lemma_filter_bound(p, n1, n2, rows);
        assert(es.last() == es[es.len() - 1]);
    }
}

/// Two row lists that agree on the rows below `n` filter alike.
proof fn lemma_filter_same_rows<V>(es: Seq<Entry<V>>, n: int, r1: Seq<i64>, r2: Seq<i64>)
    requires
        forall|x: i64| 0 <= x < n ==> (r1.contains(x) <==> r2.contains(x)),
    ensures
        filtered_entries(es, n, r1) == filtered_entries(es, n, r2),
    decreases es.len(),
{
    if es.len() > 0 {
        lemma_filter_same_rows(es.drop_last(), n, r1, r2);
    }
}

/// The entries kept by a filter have their rows in `0..n`.
proof fn lemma_filtered_in_range<V>(es: Seq<Entry<V>>, n: int, rows: Seq<i64>)
    ensures
        rows_within(filtered_entries(es, n, rows), n),
    decreases es.len(),
{
    if es.len() > 0 {
        lemma_filtered_in_range(es.drop_last(), n, rows);
    }
}

/// Every entry's row lies in `0..n`.
pub open spec fn rows_within<V>(es: Seq<Entry<V>>, n: int) -> bool {
    forall|k: int| 0 <= k < es.len() ==> 0 <= #[trigger] es[k].1 < n
}

/// A tensor whose entries have their rows in range has its rows in range.
proof fn lemma_rows_from_entries<V>(t: SparseTensor<V>)
    requires
        t.wf(),
        rows_within(t.entries(), t.shape.0 as int),
    ensures
        t.rows_in_range(),
{
    assert forall|k: int| 0 <= k < t.rows@.len() implies 0 <= #[trigger] t.rows@[k] < t.shape.0 by {
        assert(t.entries()[k].1 == t.rows@[k]);
    }
}

/// A tensor's entries have their rows in range.
proof fn lemma_entries_within<V>(t: SparseTensor<V>)
    requires
        t.wf(),
        t.rows_in_range(),
    ensures
        rows_within(t.entries(), t.shape.0 as int),
{
    assert forall|k: int| 0 <= k < t.entries().len() implies 0 <= #[trigger] t.entries()[k].1 < t.shape.0 by {
        assert(t.entries()[k].1 == t.rows@[k]);
    }
}

/// The number of rows a node's lowering has.
fn lower_rows_exec<V: Scalar>(lin_op: &LinOp<V>, ctx: &ProcessingContext) -> (n: usize)
    requires
        lowerable(*lin_op, ctx@),
    ensures
        n == lower_rows(*lin_op),
    decreases lin_op,
{
    proof {
        lemma_lowerable_basics(*lin_op, ctx@);
    }
    match lin_op.op_type {
        OpType::Sum | OpType::Neg | OpType::Reshape | OpType::Div => if lin_op.args.len() > 0 {
            assert(lowerable(lin_op.args@[0], ctx@));
            lower_rows_exec(&lin_op.args[0], ctx)
        } else {
            lin_op.size()
        },
        OpType::ScalarConst => 1,
        _ => lin_op.size(),
    }
}

/// Every image `f(e)` of an entry of `es` lies in the entry's row.
pub open spec fn keeps_rows<V>(es: Seq<Entry<V>>, f: spec_fn(Entry<V>) -> Seq<Entry<V>>) -> bool {
    forall|i: int, k: int| 0 <= i < es.len() && 0 <= k < f(es[i]).len() ==> #[trigger] f(es[i])[k].1 == es[i].1
}

/// Entries all in row `r` are kept whole or dropped whole.
proof fn lemma_filter_one_row<V>(es: Seq<Entry<V>>, r: i64, n: int, rows: Seq<i64>)
    requires
        forall|k: int| 0 <= k < es.len() ==> #[trigger] es[k].1 == r,
    ensures
        filtered_entries(es, n, rows) == if 0 <= r < n && rows.contains(r) {
            es
        } else {
            Seq::<Entry<V>>::empty()
        },
    decreases es.len(),
{
    if es.len() > 0 {
        let p = es.drop_last();
        assert forall|k: int| 0 <= k < p.len() implies #[trigger] p[k].1 == r by {
            assert(p[k] == es[k]);
        }
        lemma_filter_one_row(p, r, n, rows);
        assert(es.last() == es[es.len() - 1]);
        if 0 <= r < n && rows.contains(r) {
            assert(p.push(es.last()) =~= es);
        }
    }
}

/// A row-keeping flat map and a filter commute: filtering the images is
/// filtering the entries first (the entries' rows lie below `n1 <= n2`).
proof fn lemma_filter_flat_map<V>(
    es: Seq<Entry<V>>,
    f: spec_fn(Entry<V>) -> Seq<Entry<V>>,
    n1: int,
    n2: int,
    rows: Seq<i64>,
)
    requires
        keeps_rows(es, f),
        rows_within(es, n1),
        n1 <= n2,
    ensures
        filtered_entries(flat_map_entries(es, f), n2, rows) == flat_map_entries(
            filtered_entries(es, n1, rows),
            f,
        ),
        rows_within(flat_map_entries(es, f), n2),
    decreases es.len(),
{
    if es.len() == 0 {
        assert(filtered_entries(es, n1, rows) =~= Seq::<Entry<V>>::empty());
    } else {
        let p = es.drop_last();
        let e = es.last();
        assert(e == es[es.len() - 1]);
        assert forall|i: int, k: int| 0 <= i < p.len() && 0 <= k < f(p[i]).len() implies #[trigger] f(p[i])[k].1
            == p[i].1 by {
            assert(p[i] == es[i]);
            assert(f(es[i])[k].1 == es[i].1);
        }
        assert forall|k: int| 0 <= k < p.len() implies 0 <= #[trigger] p[k].1 < n1 by {
            assert(p[k] == es[k]);
        }
        lemma_filter_flat_map(p, f, n1, n2, rows);
        let img = f(e);
        assert forall|k: int| 0 <= k < img.len() implies #[trigger] img[k].1 == e.1 by {
            assert(f(es[es.len() - 1])[k].1 == es[es.len() - 1].1);
        }
        lemma_filter_one_row(img, e.1, n2, rows);
        lemma_filter_concat(flat_map_entries(p, f), img, n2, rows);
        let fp = filtered_entries(p, n1, rows);
        if 0 <= e.1 < n1 && rows.contains(e.1) {
            assert(fp.push(e).drop_last() =~= fp);
            assert(fp.push(e).last() == e);
        }
        let fm = flat_map_entries(p, f);
        assert forall|k: int| 0 <= k < (fm + img).len() implies 0 <= #[trigger] (fm + img)[k].1 < n2 by {
            if k >= fm.len() {
                assert((fm + img)[k] == img[k - fm.len()]);
            } else {
                assert((fm + img)[k] == fm[k]);
            }
        }
    }
}

/// Filtering commutes with dividing the values.
proof fn lemma_filter_div<V: Scalar>(es: Seq<Entry<V>>, data: Seq<V>, n: int, rows: Seq<i64>)
    ensures
        filtered_entries(div_entries(es, data), n, rows) == div_entries(filtered_entries(es, n, rows), data),
        rows_within(es, n) ==> rows_within(div_entries(es, data), n),
    decreases es.len(),
{
    if es.len() > 0 {
        let p = es.drop_last();
        lemma_filter_div(p, data, n, rows);
        assert(div_entries(es, data).drop_last() =~= div_entries(p, data));
        let f = filtered_entries(p, n, rows);
        let e = es.last();
        if 0 <= e.1 < n && rows.contains(e.1) {
            assert(div_entries(f.push(e), data) =~= div_entries(f, data).push(div_entries(es, data).last()));
        }
        if rows_within(es, n) {
            assert forall|k: int| 0 <= k < p.len() implies 0 <= #[trigger] p[k].1 < n by {
                assert(p[k] == es[k]);
            }
        }
    }
}

/// The lowering of `lin_op` in full, filtered to `rows`.
fn lower_filtered<V: Scalar>(lin_op: &LinOp<V>, ctx: &ProcessingContext, rows: &[i64]) -> (t: SparseTensor<V>)
    requires
        ops_total::<V>(),
        lowerable(*lin_op, ctx@),
    ensures
        t.wf(),
        t.shape == (lower_rows(*lin_op) as usize, ctx@.var_cols()),
        t.rows_in_range(),
        exact::<V>() ==> t.entries() == filtered_entries(lower(*lin_op, ctx@), lower_rows(*lin_op), rows@),
        exact::<V>() ==> rows_within(lower(*lin_op, ctx@), lower_rows(*lin_op)),
{
    proof {
        lemma_lowerable_basics(*lin_op, ctx@);
    }
    let full = process_linop(lin_op, ctx);
    let t = filter_rows(full, rows);
    proof {
        lemma_filtered_in_range(full.entries(), full.shape.0 as int, rows@);
        lemma_rows_from_entries(t);
        lemma_entries_within(full);
    }
    t
}

/// Whether every row's block of argument rows ends at a representable row.
fn blocks_fit(rows: &Vec<i64>, a_rows: usize, a_cols: usize) -> (b: bool)
    ensures
        b ==> block_rows_fit(rows@, a_rows as int, a_cols as int),
{
    if a_rows == 0 {
        return true;
    }
    let n = rows.len();
    let mut i: usize = 0;
    while i < n
        invariant
            a_rows > 0,
            i <= n,
            n == rows@.len(),
            forall|j: int|
                0 <= j < i ==> {
                    &&& 0 <= #[trigger] rows@[j] <= usize::MAX
                    &&& ((rows@[j] as int) / (a_rows as int) + 1) * a_cols <= i64::MAX
                    &&& ((rows@[j] as int) / (a_rows as int) + 1) * a_cols <= usize::MAX
                },
        decreases n - i,
    {
        let r = rows[i];
        if r < 0 {
            return false;
        }
        let q: u128 = (r as u128) / (a_rows as u128);
        assert(q <= r) by (nonlinear_arith)
            requires
                q == (r as u128) / (a_rows as u128),
                r >= 0,
                a_rows > 0,
        ;
        assert((q + 1) * (a_cols as u128) <= 0x8000_0000_0000_0000u128 * 0x1_0000_0000_0000_0000u128) by (nonlinear_arith)
            requires
                q + 1 <= 0x8000_0000_0000_0000u128,
                a_cols <= 0x1_0000_0000_0000_0000u128,
        ;
        let e: u128 = (q + 1) * (a_cols as u128);
        if e > (i64::MAX as u128) || e > (usize::MAX as u128) || (r as u128) > (usize::MAX as u128) {
            return false;
        }
        assert(q as int == (rows@[i as int] as int) / (a_rows as int));
        i = i + 1;
    }
    true
}

/// The rows of the images `f(e)` lie in the block of `a_rows` output rows
/// that `e`'s row falls in (blocks of `a_cols` argument rows).
pub open spec fn in_blocks<V>(es: Seq<Entry<V>>, f: spec_fn(Entry<V>) -> Seq<Entry<V>>, a_rows: int, a_cols: int) -> bool {
    forall|i: int, k: int|
        0 <= i < es.len() && 0 <= k < f(es[i]).len() ==> ((es[i].1 as int) / a_cols) * a_rows
            <= #[trigger] f(es[i])[k].1 < ((es[i].1 as int) / a_cols) * a_rows + a_rows
}

/// The block of `a_rows` rows that a row falls in starts at a representable row.
proof fn lemma_block_base(x: int, a_rows: int, a_cols: int, out: int)
    requires
        0 <= x,
        a_cols > 0,
        a_rows > 0,
        (x / a_cols + 1) * a_rows <= out,
    ensures
        0 <= (x / a_cols) * a_rows,
        (x / a_cols) * a_rows + a_rows <= out,
{
    assert(0 <= x / a_cols);
    assert(0 <= (x / a_cols) * a_rows) by (nonlinear_arith)
        requires
            0 <= x / a_cols,
            a_rows > 0,
    ;
    assert((x / a_cols) * a_rows + a_rows == (x / a_cols + 1) * a_rows) by (nonlinear_arith);
}

/// The image of an entry under a dense column-major `kron(I, A)` lies in
/// its block.
proof fn lemma_cm_rows_block<V: Scalar>(data: Seq<V>, a_rows: int, a_cols: int, out: int, e: Entry<V>, j: int)
    requires
        a_cols > 0,
        a_rows > 0,
        0 <= e.1,
        ((e.1 as int) / a_cols + 1) * a_rows <= out <= i64::MAX,
        0 <= j <= a_rows,
    ensures
        forall|k: int|
            0 <= k < lmul_dense_cm_rows(data, a_rows, a_cols, out, e, j).len() ==> ((e.1 as int) / a_cols)
                * a_rows <= #[trigger] lmul_dense_cm_rows(data, a_rows, a_cols, out, e, j)[k].1 < ((e.1 as int)
                / a_cols) * a_rows + a_rows,
    decreases j,
{
    if j > 0 {
        lemma_cm_rows_block(data, a_rows, a_cols, out, e, j - 1);
        lemma_block_base(e.1 as int, a_rows, a_cols, out);
        let base = ((e.1 as int) / a_cols) * a_rows;
        let prev = lmul_dense_cm_rows(data, a_rows, a_cols, out, e, j - 1);
        let cur = lmul_dense_cm_rows(data, a_rows, a_cols, out, e, j);
        let nr = base + (j - 1);
        assert forall|k: int| 0 <= k < cur.len() implies base <= #[trigger] cur[k].1 < base + a_rows by {
            if k < prev.len() {
                assert(cur[k] == prev[k]);
            } else {
                assert(cur[k].1 == nr as i64);
            }
        }
    }
}

/// The image of an entry under a dense row-major `kron(I, A)` lies in its
/// block.
proof fn lemma_rm_rows_block<V: Scalar>(data: Seq<V>, a_rows: int, a_cols: int, out: int, e: Entry<V>, j: int)
    requires
        a_cols > 0,
        a_rows > 0,
        0 <= e.1,
        ((e.1 as int) / a_cols + 1) * a_rows <= out <= i64::MAX,
        0 <= j <= a_rows,
    ensures
        forall|k: int|
            0 <= k < lmul_dense_rm_rows(data, a_rows, a_cols, e, j).len() ==> ((e.1 as int) / a_cols) * a_rows
                <= #[trigger] lmul_dense_rm_rows(data, a_rows, a_cols, e, j)[k].1 < ((e.1 as int) / a_cols)
                * a_rows + a_rows,
    decreases j,
{
    if j > 0 {
        lemma_rm_rows_block(data, a_rows, a_cols, out, e, j - 1);
        lemma_block_base(e.1 as int, a_rows, a_cols, out);
        let base = ((e.1 as int) / a_cols) * a_rows;
        let prev = lmul_dense_rm_rows(data, a_rows, a_cols, e, j - 1);
        let cur = lmul_dense_rm_rows(data, a_rows, a_cols, e, j);
        let nr = base + (j - 1);
        assert forall|k: int| 0 <= k < cur.len() implies base <= #[trigger] cur[k].1 < base + a_rows by {
            if k < prev.len() {
                assert(cur[k] == prev[k]);
            } else {
                assert(cur[k].1 == nr as i64);
            }
        }
    }
}

/// The image of an entry under a CSC `kron(I, A)` lies in its block.
proof fn lemma_sparse_rows_block<V: Scalar>(
    values: Seq<V>,
    row_indices: Seq<i64>,
    a_rows: int,
    a_cols: int,
    out: int,
    e: Entry<V>,
    lo: int,
    hi: int,
)
    requires
        a_cols > 0,
        a_rows > 0,
        0 <= e.1,
        ((e.1 as int) / a_cols + 1) * a_rows <= out <= i64::MAX,
        0 <= lo,
        hi <= row_indices.len(),
        forall|q: int| 0 <= q < row_indices.len() ==> 0 <= #[trigger] row_indices[q] < a_rows,
    ensures
        forall|k: int|
            0 <= k < lmul_sparse_rows(values, row_indices, a_rows, a_cols, e, lo, hi).len() ==> ((e.1 as int)
                / a_cols) * a_rows <= #[trigger] lmul_sparse_rows(values, row_indices, a_rows, a_cols, e, lo, hi)[k].1
                < ((e.1 as int) / a_cols) * a_rows + a_rows,
    decreases hi - lo,
{
    if hi > lo {
        lemma_sparse_rows_block(values, row_indices, a_rows, a_cols, out, e, lo, hi - 1);
        lemma_block_base(e.1 as int, a_rows, a_cols, out);
        assert(0 <= row_indices[hi - 1] < a_rows);
        let base = ((e.1 as int) / a_cols) * a_rows;
        let prev = lmul_sparse_rows(values, row_indices, a_rows, a_cols, e, lo, hi - 1);
        let cur = lmul_sparse_rows(values, row_indices, a_rows, a_cols, e, lo, hi);
        let nr = base + row_indices[hi - 1];
        assert forall|k: int| 0 <= k < cur.len() implies base <= #[trigger] cur[k].1 < base + a_rows by {
            if k < prev.len() {
                assert(cur[k] == prev[k]);
            } else {
                assert(cur[k].1 == nr as i64);
            }
        }
    }
}

/// A filter keeps nothing of entries none of which it admits.
proof fn lemma_filter_nothing<V>(es: Seq<Entry<V>>, n: int, rows: Seq<i64>)
    requires
        forall|k: int| 0 <= k < es.len() ==> !(0 <= #[trigger] es[k].1 < n && rows.contains(es[k].1)),
    ensures
        filtered_entries(es, n, rows) == Seq::<Entry<V>>::empty(),
    decreases es.len(),
{
    if es.len() > 0 {
        let p = es.drop_last();
        assert forall|k: int| 0 <= k < p.len() implies !(0 <= #[trigger] p[k].1 < n && rows.contains(p[k].1)) by {
            assert(p[k] == es[k]);
        }
        lemma_filter_nothing(p, n, rows);
        assert(es.last() == es[es.len() - 1]);
    }
}

/// Through a block-diagonal product, only the argument rows of the blocks
/// of the rows kept matter: restricting the argument to `needed` (which
/// holds them) changes nothing among the kept rows.
proof fn lemma_filter_blocks<V>(
    es: Seq<Entry<V>>,
    f: spec_fn(Entry<V>) -> Seq<Entry<V>>,
    n1: int,
    out: int,
    rows: Seq<i64>,
    needed: Seq<i64>,
    a_rows: int,
    a_cols: int,
)
    requires
        a_cols > 0,
        a_rows > 0,
        rows_within(es, n1),
        in_blocks(es, f, a_rows, a_cols),
        left_consistent(n1, a_rows, a_cols, out),
        forall|x: int, r: i64|
            0 <= x < n1 && 0 <= r < out && #[trigger] rows.contains(r) && (r as int) / a_rows == x / a_cols
                ==> #[trigger] needed.contains(x as i64),
    ensures
        filtered_entries(flat_map_entries(es, f), out, rows) == filtered_entries(
            flat_map_entries(filtered_entries(es, n1, needed), f),
            out,
            rows,
        ),
        rows_within(flat_map_entries(es, f), out),
    decreases es.len(),
{
    if es.len() == 0 {
        assert(filtered_entries(es, n1, needed) =~= Seq::<Entry<V>>::empty());
    } else {
        let p = es.drop_last();
        let e = es.last();
        assert(e == es[es.len() - 1]);
        assert forall|k: int| 0 <= k < p.len() implies 0 <= #[trigger] p[k].1 < n1 by {
            assert(p[k] == es[k]);
        }
        assert forall|i: int, k: int| 0 <= i < p.len() && 0 <= k < f(p[i]).len() implies ((p[i].1 as int) / a_cols)
            * a_rows <= #[trigger] f(p[i])[k].1 < ((p[i].1 as int) / a_cols) * a_rows + a_rows by {
            assert(p[i] == es[i]);
        }
        lemma_filter_blocks(p, f, n1, out, rows, needed, a_rows, a_cols);
        let img = f(e);
        let b = (e.1 as int) / a_cols;
        assert(0 <= e.1 < n1);
        crate::operations::arithmetic::lemma_left_consistent(e.1 as int, n1, a_rows, a_cols, out);
        assert((b + 1) * a_rows <= out);
        lemma_block_base(e.1 as int, a_rows, a_cols, out);
        assert forall|k: int| 0 <= k < img.len() implies b * a_rows <= #[trigger] img[k].1 < b * a_rows + a_rows by {
            assert(f(es[es.len() - 1])[k].1 == img[k].1);
        }
        let fm = flat_map_entries(p, f);
        lemma_filter_concat(fm, img, out, rows);
        let fp = filtered_entries(p, n1, needed);
        if 0 <= e.1 < n1 && needed.contains(e.1) {
            assert(fp.push(e).drop_last() =~= fp);
            assert(fp.push(e).last() == e);
            lemma_filter_concat(flat_map_entries(fp, f), img, out, rows);
        } else {
            assert forall|k: int| 0 <= k < img.len() implies !(0 <= #[trigger] img[k].1 < out && rows.contains(
                img[k].1,
            )) by {
                if 0 <= img[k].1 < out && rows.contains(img[k].1) {
                    let r = img[k].1;
                    vstd::arithmetic::div_mod::lemma_fundamental_div_mod_converse(r as int, a_rows, b, r - b * a_rows);
                    assert(needed.contains((e.1 as int) as i64));
                }
            }
            lemma_filter_nothing(img, out, rows);
            assert(filtered_entries(fm, out, rows) + Seq::<Entry<V>>::empty() =~= filtered_entries(fm, out, rows));
        }
        assert forall|k: int| 0 <= k < (fm + img).len() implies 0 <= #[trigger] (fm + img)[k].1 < out by {
            if k >= fm.len() {
                assert((fm + img)[k] == img[k - fm.len()]);
            } else {
                assert((fm + img)[k] == fm[k]);
            }
        }
    }
}

/// The argument rows of the block ranges include every row of every block.
proof fn lemma_block_ranges_contains(blocks: Seq<i64>, a_cols: int, k: int, w: int, t: int)
    requires
        0 <= w < k <= blocks.len(),
        0 <= t < a_cols,
    ensures
        block_ranges(blocks, a_cols, k).contains((blocks[w] * a_cols + t) as i64),
    decreases k,
{
    let prev = block_ranges(blocks, a_cols, k - 1);
    let tail = Seq::new(a_cols as nat, |q: int| (blocks[k - 1] * a_cols + q) as i64);
    if w < k - 1 {
        lemma_block_ranges_contains(blocks, a_cols, k - 1, w, t);
        let j = choose|j: int| 0 <= j < prev.len() && prev[j] == (blocks[w] * a_cols + t) as i64;
        assert((prev + tail)[j] == prev[j]);
    } else {
        assert((prev + tail)[prev.len() + t] == tail[t]);
    }
}

/// Scaling commutes with a filter.
proof fn lemma_filter_scaled<V: Scalar>(es: Seq<Entry<V>>, s: V, n: int, rows: Seq<i64>)
    ensures
        filtered_entries(scaled_entries(es, s), n, rows) == scaled_entries(filtered_entries(es, n, rows), s),
        rows_within(es, n) ==> rows_within(scaled_entries(es, s), n),
    decreases es.len(),
{
    if es.len() > 0 {
        let p = es.drop_last();
        lemma_filter_scaled(p, s, n, rows);
        assert(scaled_entries(es, s).drop_last() =~= scaled_entries(p, s));
        let f = filtered_entries(p, n, rows);
        let e = es.last();
        if 0 <= e.1 < n && rows.contains(e.1) {
            assert(scaled_entries(f.push(e), s) =~= scaled_entries(f, s).push(scaled_entries(es, s).last()));
        }
        if rows_within(es, n) {
            assert forall|k: int| 0 <= k < p.len() implies 0 <= #[trigger] p[k].1 < n by {
                assert(p[k] == es[k]);
            }
        }
    }
}

/// `kron(I_k, A) @ X` restricted to `rows`: each output block needs its
/// whole argument block, so the argument is lowered restricted to the
/// blocks of the rows kept ([`block_rows`]; for a scalar `A`, to the rows
/// themselves), then multiplied and filtered.  A parametric `A`, an
/// operand the identity fast path reads, or rows of no representable block
/// are lowered in full and filtered.
fn mul_rows<V: Scalar>(lin_op: &LinOp<V>, ctx: &ProcessingContext, rows: &[i64]) -> (t: SparseTensor<V>)
    requires
        ops_total::<V>(),
        lowerable(*lin_op, ctx@),
        lin_op.op_type == OpType::Mul,
        lin_op.args@.len() > 0,
        rows@.len() > 0,
    ensures
        t.wf(),
        t.shape == (lower_rows(*lin_op) as usize, ctx@.var_cols()),
        t.rows_in_range(),
        exact::<V>() ==> t.entries() == filtered_entries(lower(*lin_op, ctx@), lower_rows(*lin_op), rows@),
        exact::<V>() ==> rows_within(lower(*lin_op, ctx@), lower_rows(*lin_op)),
    decreases lin_op, 1nat,
{
    let ghost c = ctx@;
    proof {
        lemma_lowerable_basics(*lin_op, c);
    }
    let lhs: &LinOp<V> = match &lin_op.data {
        LinOpData::LinOpRef(inner) => inner,
        _ => {
            return lower_filtered(lin_op, ctx, rows);
        },
    };
    let arg = &lin_op.args[0];
    if crate::linop::is_parametric(lhs) || arg.op_type == OpType::Variable || arg.op_type == OpType::Index
        || crate::operations::arithmetic::as_plain_variable(arg).is_some() {
        return lower_filtered(lin_op, ctx, rows);
    }
    assert(lowerable(*arg, c));
    proof {
        lemma_lowerable_basics(*arg, c);
        assert(typed_identity(*arg, c) is None);
        assert(identity_operand(*arg, c) is None);
    }
    let out = lin_op.size();
    let m = get_constant_matrix_data(lhs, ctx);
    let ghost ms = const_matrix(*lhs, c);
    let ghost la = lower(*arg, c);
    let ghost n1 = lower_rows(*arg);
    assert(lower(*lin_op, c) == lmul_entries(ms, out as int, la));
    match &m {
        ConstantMatrix::Scalar(s) => {
            let rhs = process_arg_rows(arg, ctx, rows);
            let prod = multiply_block_diagonal(&m, &rhs, out, ctx);
            let t = filter_rows(prod, rows);
            proof {
                lemma_filtered_in_range(prod.entries(), out as int, rows@);
                lemma_rows_from_entries(t);
                if exact::<V>() {
                    let sv = *s;
                    let x = scaled_entries(la, sv);
                    lemma_filter_scaled(la, sv, n1, rows@);
                    lemma_filter_bound(x, n1, out as int, rows@);
                    assert forall|k: int| 0 <= k < x.len() implies 0 <= #[trigger] x[k].1 < out by {
                    }
                    if rhs.entries() != la {
                        let fx = filtered_entries(x, n1, rows@);
                        lemma_filtered_in_range(x, n1, rows@);
                        lemma_filter_bound(fx, n1, out as int, rows@);
                        lemma_filter_idempotent(x, n1, rows@);
                    }
                }
            }
            t
        },
        _ => {
            let (a_rows, a_cols) = m.dims();
            if a_rows == 0 || a_cols == 0 {
                return lower_filtered(lin_op, ctx, rows);
            }
            let vrows = unique_sorted(rows, out);
            if vrows.len() == 0 || !blocks_fit(&vrows, a_rows, a_cols) {
                return lower_filtered(lin_op, ctx, rows);
            }
            let needed = block_rows(vrows.as_slice(), a_rows, a_cols);
            if needed.len() == 0 {
                return lower_filtered(lin_op, ctx, rows);
            }
            let rhs = process_arg_rows(arg, ctx, needed.as_slice());
            proof {
                lemma_left_rows_fit(rhs, a_rows as int, a_cols as int, out as int);
            }
            let prod = multiply_block_diagonal(&m, &rhs, out, ctx);
            let t = filter_rows(prod, rows);
            proof {
                lemma_filtered_in_range(prod.entries(), out as int, rows@);
                lemma_rows_from_entries(t);
                if exact::<V>() {
                    lemma_mul_rows_exact(ms, out as int, la, n1, rows@, vrows@, needed@);
                }
            }
            t
        },
    }
}

/// The exactness argument of [`mul_rows`] for a matrix: through the
/// product, the argument restricted to the blocks of the kept rows gives
/// the kept rows of the full product.
proof fn lemma_mul_rows_exact<V: Scalar>(
    m: MatrixView<V>,
    out: int,
    la: Seq<Entry<V>>,
    n1: int,
    rows: Seq<i64>,
    vrows: Seq<i64>,
    needed: Seq<i64>,
)
    requires
        m.valid(),
        !(m is Scalar),
        m.dims().0 > 0,
        m.dims().1 > 0,
        out <= i64::MAX,
        rows_within(la, n1),
        left_consistent(n1, m.dims().0, m.dims().1, out),
        forall|j: int| 0 <= j < rows.len() && 0 <= rows[j] < out ==> vrows.contains(#[trigger] rows[j]),
        needed == block_ranges(row_blocks(vrows, m.dims().0), m.dims().1, row_blocks(vrows, m.dims().0).len() as int),
    ensures
        filtered_entries(lmul_entries(m, out, la), out, rows) == filtered_entries(
            lmul_entries(m, out, filtered_entries(la, n1, needed)),
            out,
            rows,
        ),
        rows_within(lmul_entries(m, out, la), out),
{
    let (a_rows, a_cols) = m.dims();
    let s = Seq::new(vrows.len(), |i: int| ((vrows[i] as int) / a_rows) as i64);
    let blocks = row_blocks(vrows, a_rows);
    assert(blocks == dedup(s));
    lemma_dedup_keeps(s);
    assert forall|x: int, r: i64|
        0 <= x < n1 && 0 <= r < out && #[trigger] rows.contains(r) && (r as int) / a_rows == x / a_cols implies #[trigger] needed.contains(
        x as i64) by {
        let j = choose|j: int| 0 <= j < rows.len() && rows[j] == r;
        assert(vrows.contains(rows[j]));
        let i = choose|i: int| 0 <= i < vrows.len() && vrows[i] == r;
        assert(s[i] == ((r as int) / a_rows) as i64);
        assert(blocks.contains(s[i]));
        let w = choose|w: int| 0 <= w < blocks.len() && blocks[w] == s[i];
        assert(0 <= (r as int) / a_rows <= r);
        vstd::arithmetic::div_mod::lemma_fundamental_div_mod(x, a_cols);
        lemma_block_ranges_contains(blocks, a_cols, blocks.len() as int, w, x % a_cols);
        assert(blocks[w] * a_cols + x % a_cols == x) by (nonlinear_arith)
            requires
                blocks[w] as int == x / a_cols,
                x == a_cols * (x / a_cols) + x % a_cols,
        ;
    }
    match m {
        MatrixView::DenseColMajor(data, rows_a, cols_a) => {
            let f = lmul_dense_cm_fn(data, a_rows, a_cols, out);
            assert forall|i: int, k: int| 0 <= i < la.len() && 0 <= k < f(la[i]).len() implies ((la[i].1 as int)
                / a_cols) * a_rows <= #[trigger] f(la[i])[k].1 < ((la[i].1 as int) / a_cols) * a_rows + a_rows by {
                assert(0 <= la[i].1 < n1);
                crate::operations::arithmetic::lemma_left_consistent(la[i].1 as int, n1, a_rows, a_cols, out);
                lemma_cm_rows_block(data, a_rows, a_cols, out, la[i], a_rows);
            }
            lemma_filter_blocks(la, f, n1, out, rows, needed, a_rows, a_cols);
        },
        MatrixView::DenseRowMajor(data, rows_a, cols_a) => {
            let f = lmul_dense_rm_fn(data, a_rows, a_cols);
            assert forall|i: int, k: int| 0 <= i < la.len() && 0 <= k < f(la[i]).len() implies ((la[i].1 as int)
                / a_cols) * a_rows <= #[trigger] f(la[i])[k].1 < ((la[i].1 as int) / a_cols) * a_rows + a_rows by {
                assert(0 <= la[i].1 < n1);
                crate::operations::arithmetic::lemma_left_consistent(la[i].1 as int, n1, a_rows, a_cols, out);
                lemma_rm_rows_block(data, a_rows, a_cols, out, la[i], a_rows);
            }
            lemma_filter_blocks(la, f, n1, out, rows, needed, a_rows, a_cols);
        },
        MatrixView::Sparse(values, row_indices, col_indptr, rows_a, cols_a) => {
            let f = lmul_sparse_fn(values, row_indices, col_indptr, a_rows, a_cols);
            assert forall|i: int, k: int| 0 <= i < la.len() && 0 <= k < f(la[i]).len() implies ((la[i].1 as int)
                / a_cols) * a_rows <= #[trigger] f(la[i])[k].1 < ((la[i].1 as int) / a_cols) * a_rows + a_rows by {
                let e = la[i];
                assert(0 <= la[i].1 < n1);
                crate::operations::arithmetic::lemma_left_consistent(la[i].1 as int, n1, a_rows, a_cols, out);
                let cc = (e.1 as int) % a_cols;
                if cc < col_indptr.len() - 1 {
                    lemma_sparse_rows_block(
                        values,
                        row_indices,
                        a_rows,
                        a_cols,
                        out,
                        e,
                        col_indptr[cc] as int,
                        col_indptr[cc + 1] as int,
                    );
                }
            }
            lemma_filter_blocks(la, f, n1, out, rows, needed, a_rows, a_cols);
        },
        _ => {},
    }
}

/// The image rows `img` lie in `0..out`, each congruent to `r` modulo `k`.
pub open spec fn image_in_residue<V>(img: Seq<Entry<V>>, r: int, k: int, out: int) -> bool {
    forall|q: int| 0 <= q < img.len() ==> 0 <= #[trigger] img[q].1 < out && (img[q].1 as int) % k == r % k
}

/// The images `f(e)` of the entries of `es` lie in `0..out`, in the residue
/// class modulo `k` of their entry's row.
pub open spec fn in_residues<V>(es: Seq<Entry<V>>, f: spec_fn(Entry<V>) -> Seq<Entry<V>>, k: int, out: int) -> bool {
    forall|i: int| 0 <= i < es.len() ==> image_in_residue(#[trigger] f(es[i]), es[i].1 as int, k, out)
}

/// Output row `j * k + r % k` of `X @ A` (`k` rows of `X`, `j` a column of
/// `A`) lies in the output and in the residue class of `r`.
proof fn lemma_right_row(r: int, j: int, k: int, a_cols: int, out: int)
    requires
        r >= 0,
        a_cols > 0,
        k > 0,
        k == out / a_cols,
        0 <= j < a_cols,
    ensures
        0 <= j * k + r % k < out,
        (j * k + r % k) % k == r % k,
{
    let x = r % k;
    vstd::arithmetic::div_mod::lemma_mod_bound(r, k);
    vstd::arithmetic::div_mod::lemma_fundamental_div_mod(out, a_cols);
    vstd::arithmetic::div_mod::lemma_mod_bound(out, a_cols);
    assert(0 <= j * k + x < out) by (nonlinear_arith)
        requires
            0 <= j < a_cols,
            0 <= x < k,
            out == a_cols * k + out % a_cols,
            0 <= out % a_cols,
    ;
    vstd::arithmetic::div_mod::lemma_fundamental_div_mod_converse(j * k + x, k, j, x);
}

/// The image of an entry under `X @ A`, `A` dense column-major, lies in the
/// output, in the residue class of the entry's row.
proof fn lemma_rmul_cm_residue<V: Scalar>(
    data: Seq<V>,
    a_rows: int,
    a_cols: int,
    out: int,
    e: Entry<V>,
    m: int,
)
    requires
        0 <= e.1,
        a_cols > 0,
        out / a_cols > 0,
        out <= i64::MAX,
        m <= a_cols,
    ensures
        image_in_residue(rmul_dense_cm_cols(data, a_rows, out / a_cols, out, e, m), e.1 as int, out / a_cols, out),
    decreases m,
{
    let k = out / a_cols;
    if m > 0 {
        lemma_rmul_cm_residue(data, a_rows, a_cols, out, e, m - 1);
        lemma_right_row(e.1 as int, m - 1, k, a_cols, out);
        let prev = rmul_dense_cm_cols(data, a_rows, k, out, e, m - 1);
        let cur = rmul_dense_cm_cols(data, a_rows, k, out, e, m);
        assert forall|q: int| 0 <= q < cur.len() implies 0 <= #[trigger] cur[q].1 < out && (cur[q].1 as int) % k
            == (e.1 as int) % k by {
            if q < prev.len() {
                assert(cur[q] == prev[q]);
            }
        }
    }
}

/// The image of an entry under `X @ A`, `A` dense row-major, lies in the
/// output, in the residue class of the entry's row.
proof fn lemma_rmul_rm_residue<V: Scalar>(data: Seq<V>, a_cols: int, out: int, e: Entry<V>, m: int)
    requires
        0 <= e.1,
        a_cols > 0,
        out / a_cols > 0,
        out <= i64::MAX,
        m <= a_cols,
    ensures
        image_in_residue(rmul_dense_rm_cols(data, a_cols, out / a_cols, e, m), e.1 as int, out / a_cols, out),
    decreases m,
{
    let k = out / a_cols;
    if m > 0 {
        lemma_rmul_rm_residue(data, a_cols, out, e, m - 1);
        lemma_right_row(e.1 as int, m - 1, k, a_cols, out);
        let prev = rmul_dense_rm_cols(data, a_cols, k, e, m - 1);
        let cur = rmul_dense_rm_cols(data, a_cols, k, e, m);
        assert forall|q: int| 0 <= q < cur.len() implies 0 <= #[trigger] cur[q].1 < out && (cur[q].1 as int) % k
            == (e.1 as int) % k by {
            if q < prev.len() {
                assert(cur[q] == prev[q]);
            }
        }
    }
}

/// The elements of one column `j` of a CSC `A` send an entry to output
/// row `j * k + r % k`.
proof fn lemma_rmul_pos_residue<V: Scalar>(
    values: Seq<V>,
    row_indices: Seq<i64>,
    a_cols: int,
    out: int,
    e: Entry<V>,
    j: int,
    lo: int,
    hi: int,
)
    requires
        0 <= e.1,
        a_cols > 0,
        out / a_cols > 0,
        out <= i64::MAX,
        0 <= j < a_cols,
    ensures
        image_in_residue(
            rmul_sparse_pos(values, row_indices, out / a_cols, e, j, lo, hi),
            e.1 as int,
            out / a_cols,
            out,
        ),
    decreases hi - lo,
{
    let k = out / a_cols;
    if hi > lo {
        lemma_rmul_pos_residue(values, row_indices, a_cols, out, e, j, lo, hi - 1);
        lemma_right_row(e.1 as int, j, k, a_cols, out);
        let prev = rmul_sparse_pos(values, row_indices, k, e, j, lo, hi - 1);
        let cur = rmul_sparse_pos(values, row_indices, k, e, j, lo, hi);
        assert forall|q: int| 0 <= q < cur.len() implies 0 <= #[trigger] cur[q].1 < out && (cur[q].1 as int) % k
            == (e.1 as int) % k by {
            if q < prev.len() {
                assert(cur[q] == prev[q]);
            }
        }
    }
}

/// The image of an entry under `X @ A`, `A` in CSC form, lies in the output,
/// in the residue class of the entry's row.
proof fn lemma_rmul_sparse_residue<V: Scalar>(
    values: Seq<V>,
    row_indices: Seq<i64>,
    col_indptr: Seq<i64>,
    a_cols: int,
    out: int,
    e: Entry<V>,
    m: int,
)
    requires
        0 <= e.1,
        a_cols > 0,
        out / a_cols > 0,
        out <= i64::MAX,
        m <= a_cols,
    ensures
        image_in_residue(
            rmul_sparse_cols(values, row_indices, col_indptr, out / a_cols, e, m),
            e.1 as int,
            out / a_cols,
            out,
        ),
    decreases m,
{
    let k = out / a_cols;
    if m > 0 {
        lemma_rmul_sparse_residue(values, row_indices, col_indptr, a_cols, out, e, m - 1);
        let j = m - 1;
        let prev = rmul_sparse_cols(values, row_indices, col_indptr, k, e, m - 1);
        let tail = if j < col_indptr.len() - 1 {
            rmul_sparse_pos(values, row_indices, k, e, j, col_indptr[j] as int, col_indptr[j + 1] as int)
        } else {
            seq![]
        };
        if j < col_indptr.len() - 1 {
            lemma_rmul_pos_residue(
                values,
                row_indices,
                a_cols,
                out,
                e,
                j,
                col_indptr[j] as int,
                col_indptr[j + 1] as int,
            );
        }
        let cur = rmul_sparse_cols(values, row_indices, col_indptr, k, e, m);
        assert(cur == prev + tail);
        assert forall|q: int| 0 <= q < cur.len() implies 0 <= #[trigger] cur[q].1 < out && (cur[q].1 as int) % k
            == (e.1 as int) % k by {
            if q < prev.len() {
                assert(cur[q] == prev[q]);
            } else {
                assert(cur[q] == tail[q - prev.len()]);
            }
        }
    }
}

/// Through `X @ A`, an output row depends only on the argument rows of its
/// residue class modulo `k`: restricting the argument to `needed` (which
/// holds the rows of the classes of the kept rows) changes nothing among
/// the kept rows.
proof fn lemma_filter_residues<V>(
    es: Seq<Entry<V>>,
    f: spec_fn(Entry<V>) -> Seq<Entry<V>>,
    n1: int,
    out: int,
    rows: Seq<i64>,
    needed: Seq<i64>,
    k: int,
)
    requires
        k > 0,
        rows_within(es, n1),
        in_residues(es, f, k, out),
        forall|x: int, r: i64|
            0 <= x < n1 && 0 <= r < out && #[trigger] rows.contains(r) && (r as int) % k == x % k
                ==> #[trigger] needed.contains(x as i64),
    ensures
        filtered_entries(flat_map_entries(es, f), out, rows) == filtered_entries(
            flat_map_entries(filtered_entries(es, n1, needed), f),
            out,
            rows,
        ),
        rows_within(flat_map_entries(es, f), out),
    decreases es.len(),
{
    if es.len() == 0 {
        assert(filtered_entries(es, n1, needed) =~= Seq::<Entry<V>>::empty());
    } else {
        let p = es.drop_last();
        let e = es.last();
        assert(e == es[es.len() - 1]);
        assert forall|q: int| 0 <= q < p.len() implies 0 <= #[trigger] p[q].1 < n1 by {
            assert(p[q] == es[q]);
        }
        assert forall|i: int| 0 <= i < p.len() implies image_in_residue(#[trigger] f(p[i]), p[i].1 as int, k, out) by {
            assert(p[i] == es[i]);
        }
        lemma_filter_residues(p, f, n1, out, rows, needed, k);
        let img = f(e);
        assert(image_in_residue(f(es[es.len() - 1]), es[es.len() - 1].1 as int, k, out));
        assert(0 <= e.1 < n1);
        let fm = flat_map_entries(p, f);
        lemma_filter_concat(fm, img, out, rows);
        let fp = filtered_entries(p, n1, needed);
        if 0 <= e.1 < n1 && needed.contains(e.1) {
            assert(fp.push(e).drop_last() =~= fp);
            assert(fp.push(e).last() == e);
            lemma_filter_concat(flat_map_entries(fp, f), img, out, rows);
        } else {
            assert forall|q: int| 0 <= q < img.len() implies !(0 <= #[trigger] img[q].1 < out && rows.contains(
                img[q].1,
            )) by {
                if 0 <= img[q].1 < out && rows.contains(img[q].1) {
                    assert((img[q].1 as int) % k == (e.1 as int) % k);
                    assert(needed.contains((e.1 as int) as i64));
                }
            }
            lemma_filter_nothing(img, out, rows);
            assert(filtered_entries(fm, out, rows) + Seq::<Entry<V>>::empty() =~= filtered_entries(fm, out, rows));
        }
        assert forall|q: int| 0 <= q < (fm + img).len() implies 0 <= #[trigger] (fm + img)[q].1 < out by {
            if q >= fm.len() {
                assert((fm + img)[q] == img[q - fm.len()]);
            } else {
                assert((fm + img)[q] == fm[q]);
            }
        }
    }
}

/// The exactness argument of [`rmul_rows`] for a matrix: through `X @ A`,
/// the argument restricted to the residue classes of the kept rows gives
/// the kept rows of the full product.
proof fn lemma_rmul_rows_exact<V: Scalar>(
    m: MatrixView<V>,
    out: int,
    la: Seq<Entry<V>>,
    n1: int,
    rows: Seq<i64>,
    needed: Seq<i64>,
)
    requires
        !(m is Scalar),
        m.dims().1 > 0,
        out / m.dims().1 > 0,
        out <= i64::MAX,
        rows_within(la, n1),
        forall|x: int, r: i64|
            0 <= x < n1 && 0 <= r < out && #[trigger] rows.contains(r) && (r as int) % (out / m.dims().1) == x % (
            out / m.dims().1) ==> #[trigger] needed.contains(x as i64),
    ensures
        filtered_entries(rmul_entries(m, out, la), out, rows) == filtered_entries(
            rmul_entries(m, out, filtered_entries(la, n1, needed)),
            out,
            rows,
        ),
        rows_within(rmul_entries(m, out, la), out),
{
    let a_cols = m.dims().1;
    let k = out / a_cols;
    match m {
        MatrixView::DenseColMajor(data, a_rows, cols_a) => {
            if a_rows != 0 {
                let f = rmul_dense_cm_fn(data, a_rows, a_cols, out);
                assert forall|i: int| 0 <= i < la.len() implies image_in_residue(#[trigger] f(la[i]), la[i].1 as int, k, out) by {
                    lemma_rmul_cm_residue(data, a_rows, a_cols, out, la[i], a_cols);
                }
                lemma_filter_residues(la, f, n1, out, rows, needed, k);
            }
        },
        MatrixView::DenseRowMajor(data, rows_a, cols_a) => {
            let f = rmul_dense_rm_fn(data, a_cols, out);
            assert forall|i: int| 0 <= i < la.len() implies image_in_residue(#[trigger] f(la[i]), la[i].1 as int, k, out) by {
                lemma_rmul_rm_residue(data, a_cols, out, la[i], a_cols);
            }
            lemma_filter_residues(la, f, n1, out, rows, needed, k);
        },
        MatrixView::Sparse(values, row_indices, col_indptr, rows_a, cols_a) => {
            let f = rmul_sparse_fn(values, row_indices, col_indptr, a_cols, out);
            assert forall|i: int| 0 <= i < la.len() implies image_in_residue(#[trigger] f(la[i]), la[i].1 as int, k, out) by {
                lemma_rmul_sparse_residue(values, row_indices, col_indptr, a_cols, out, la[i], a_cols);
            }
            lemma_filter_residues(la, f, n1, out, rows, needed, k);
        },
        _ => {},
    }
}

/// The argument rows below `n1` in the residue classes modulo `k` of the
/// listed rows in `0..out`, in increasing order.
fn residue_rows(rows: &[i64], out: usize, k: usize, n1: usize) -> (needed: Vec<i64>)
    requires
        k > 0,
        n1 <= i64::MAX,
    ensures
        forall|x: int, r: i64|
            0 <= x < n1 && 0 <= r < out && #[trigger] rows@.contains(r) && (r as int) % (k as int) == x % (k as int)
                ==> #[trigger] needed@.contains(x as i64),
{
    let mut mark: Vec<bool> = Vec::new();
    let mut i: usize = 0;
    while i < k
        invariant
            mark.len() == i,
            i <= k,
        decreases k - i,
    {
        mark.push(false);
        i = i + 1;
    }
    let mut j: usize = 0;
    while j < rows.len()
        invariant
            mark.len() == k,
            k > 0,
            j <= rows.len(),
            forall|q: int| 0 <= q < j && 0 <= #[trigger] rows@[q] < out ==> mark@[(rows@[q] as int) % (k as int)],
        decreases rows.len() - j,
    {
        let r = rows[j];
        if r >= 0 && (r as u64) < (out as u64) {
            let idx = (r as usize) % k;
            mark.set(idx, true);
        }
        j = j + 1;
    }
    let mut needed: Vec<i64> = Vec::new();
    let mut x: usize = 0;
    while x < n1
        invariant
            mark.len() == k,
            k > 0,
            x <= n1,
            n1 <= i64::MAX,
            forall|y: int| 0 <= y < x && #[trigger] mark@[y % (k as int)] ==> needed@.contains(y as i64),
        decreases n1 - x,
    {
        if mark[x % k] {
            let ghost before = needed@;
            needed.push(x as i64);
            proof {
                assert forall|y: int| 0 <= y < x + 1 && #[trigger] mark@[y % (k as int)] implies needed@.contains(
                    y as i64,
                ) by {
                    if y < x {
                        let w = choose|w: int| 0 <= w < before.len() && before[w] == y as i64;
                        assert(needed@[w] == before[w]);
                    } else {
                        assert(needed@[before.len() as int] == x as i64);
                    }
                }
            }
        }
        x = x + 1;
    }
    proof {
        assert forall|x: int, r: i64|
            0 <= x < n1 && 0 <= r < out && #[trigger] rows@.contains(r) && (r as int) % (k as int) == x % (k as int)
                implies #[trigger] needed@.contains(x as i64) by {
            let q = choose|q: int| 0 <= q < rows@.len() && rows@[q] == r;
            assert(mark@[(rows@[q] as int) % (k as int)]);
            assert(mark@[x % (k as int)]);
        }
    }
    needed
}

/// `X @ A` restricted to `rows`: output row `r` reads only the argument
/// rows of its residue class modulo `k` (the rows of `X`), so the argument
/// is lowered restricted to those classes ([`residue_rows`]; for a scalar
/// `A`, to the rows themselves), then multiplied and filtered.  A
/// parametric `A`, or a product with no output block, is lowered in full
/// and filtered.
fn rmul_rows<V: Scalar>(lin_op: &LinOp<V>, ctx: &ProcessingContext, rows: &[i64]) -> (t: SparseTensor<V>)
    requires
        ops_total::<V>(),
        lowerable(*lin_op, ctx@),
        lin_op.op_type == OpType::Rmul,
        lin_op.args@.len() > 0,
        rows@.len() > 0,
    ensures
        t.wf(),
        t.shape == (lower_rows(*lin_op) as usize, ctx@.var_cols()),
        t.rows_in_range(),
        exact::<V>() ==> t.entries() == filtered_entries(lower(*lin_op, ctx@), lower_rows(*lin_op), rows@),
        exact::<V>() ==> rows_within(lower(*lin_op, ctx@), lower_rows(*lin_op)),
    decreases lin_op, 1nat,
{
    let ghost c = ctx@;
    proof {
        lemma_lowerable_basics(*lin_op, c);
    }
    let rhs_linop: &LinOp<V> = match &lin_op.data {
        LinOpData::LinOpRef(inner) => inner,
        _ => {
            return lower_filtered(lin_op, ctx, rows);
        },
    };
    if crate::linop::is_parametric(rhs_linop) {
        return lower_filtered(lin_op, ctx, rows);
    }
    let arg = &lin_op.args[0];
    assert(lowerable(*arg, c));
    proof {
        lemma_lowerable_basics(*arg, c);
    }
    let out = lin_op.size();
    let m = get_constant_matrix_data_for_rmul(rhs_linop, arg, ctx);
    let ghost ms = const_matrix_rmul(*rhs_linop, *arg, c);
    let ghost la = lower(*arg, c);
    let ghost n1 = lower_rows(*arg);
    assert(lower(*lin_op, c) == rmul_entries(ms, out as int, la));
    match &m {
        ConstantMatrix::Scalar(s) => {
            let lhs = process_arg_rows(arg, ctx, rows);
            let prod = multiply_block_diagonal_right(&lhs, &m, out, ctx);
            let t = filter_rows(prod, rows);
            proof {
                lemma_filtered_in_range(prod.entries(), out as int, rows@);
                lemma_rows_from_entries(t);
                if exact::<V>() {
                    let sv = *s;
                    let x = scaled_entries(la, sv);
                    lemma_filter_scaled(la, sv, n1, rows@);
                    lemma_filter_bound(x, n1, out as int, rows@);
                    assert forall|q: int| 0 <= q < x.len() implies 0 <= #[trigger] x[q].1 < out by {
                    }
                    if lhs.entries() != la {
                        let fx = filtered_entries(x, n1, rows@);
                        lemma_filtered_in_range(x, n1, rows@);
                        lemma_filter_bound(fx, n1, out as int, rows@);
                        lemma_filter_idempotent(x, n1, rows@);
                    }
                }
            }
            t
        },
        _ => {
            let (a_rows, a_cols) = m.dims();
            if a_cols == 0 || out / a_cols == 0 {
                return lower_filtered(lin_op, ctx, rows);
            }
            let k = out / a_cols;
            let n1e = lower_rows_exec(arg, ctx);
            let needed = residue_rows(rows, out, k, n1e);
            if needed.len() == 0 {
                return lower_filtered(lin_op, ctx, rows);
            }
            let lhs = process_arg_rows(arg, ctx, needed.as_slice());
            proof {
                lemma_right_rows_fit(lhs, k as int, a_rows as int, !(m@ is Sparse));
            }
            let prod = multiply_block_diagonal_right(&lhs, &m, out, ctx);
            let t = filter_rows(prod, rows);
            proof {
                lemma_filtered_in_range(prod.entries(), out as int, rows@);
                lemma_rows_from_entries(t);
                if exact::<V>() {
                    lemma_rmul_rows_exact(ms, out as int, la, n1, rows@, needed@);
                }
            }
            t
        },
    }
}

/// The image rows `img` lie in `0..out`, and any of them that `rows` lists
/// makes the source row `r` needed.
pub open spec fn reads_needed<V>(img: Seq<Entry<V>>, r: i64, out: int, rows: Seq<i64>, needed: Seq<i64>) -> bool {
    forall|q: int|
        0 <= q < img.len() ==> 0 <= #[trigger] img[q].1 < out && (rows.contains(img[q].1) ==> needed.contains(r))
}

/// When a kept image row makes its entry's row needed, restricting the
/// argument to `needed` changes nothing among the kept rows.
proof fn lemma_filter_sources<V>(
    es: Seq<Entry<V>>,
    f: spec_fn(Entry<V>) -> Seq<Entry<V>>,
    n1: int,
    out: int,
    rows: Seq<i64>,
    needed: Seq<i64>,
)
    requires
        rows_within(es, n1),
        forall|i: int| 0 <= i < es.len() ==> reads_needed(#[trigger] f(es[i]), es[i].1, out, rows, needed),
    ensures
        filtered_entries(flat_map_entries(es, f), out, rows) == filtered_entries(
            flat_map_entries(filtered_entries(es, n1, needed), f),
            out,
            rows,
        ),
        rows_within(flat_map_entries(es, f), out),
    decreases es.len(),
{
    if es.len() == 0 {
        assert(filtered_entries(es, n1, needed) =~= Seq::<Entry<V>>::empty());
    } else {
        let p = es.drop_last();
        let e = es.last();
        assert(e == es[es.len() - 1]);
        assert forall|q: int| 0 <= q < p.len() implies 0 <= #[trigger] p[q].1 < n1 by {
            assert(p[q] == es[q]);
        }
        assert forall|i: int| 0 <= i < p.len() implies reads_needed(#[trigger] f(p[i]), p[i].1, out, rows, needed) by {
            assert(p[i] == es[i]);
        }
        lemma_filter_sources(p, f, n1, out, rows, needed);
        let img = f(e);
        assert(reads_needed(f(es[es.len() - 1]), es[es.len() - 1].1, out, rows, needed));
        assert(0 <= e.1 < n1);
        let fm = flat_map_entries(p, f);
        lemma_filter_concat(fm, img, out, rows);
        let fp = filtered_entries(p, n1, needed);
        if 0 <= e.1 < n1 && needed.contains(e.1) {
            assert(fp.push(e).drop_last() =~= fp);
            assert(fp.push(e).last() == e);
            lemma_filter_concat(flat_map_entries(fp, f), img, out, rows);
        } else {
            assert forall|q: int| 0 <= q < img.len() implies !(0 <= #[trigger] img[q].1 < out && rows.contains(
                img[q].1,
            )) by {
            }
            lemma_filter_nothing(img, out, rows);
            assert(filtered_entries(fm, out, rows) + Seq::<Entry<V>>::empty() =~= filtered_entries(fm, out, rows));
        }
        assert forall|q: int| 0 <= q < (fm + img).len() implies 0 <= #[trigger] (fm + img)[q].1 < out by {
            if q >= fm.len() {
                assert((fm + img)[q] == img[q - fm.len()]);
            } else {
                assert((fm + img)[q] == fm[q]);
            }
        }
    }
}

/// A row selection is the concatenation of the copies of each entry.
proof fn lemma_select_is_flat_map<V>(es: Seq<Entry<V>>, idx: Seq<i64>)
    ensures
        select_entries(es, idx) == flat_map_entries(es, |e: Entry<V>| expand(e, idx)),
    decreases es.len(),
{
    if es.len() > 0 {
        lemma_select_is_flat_map(es.drop_last(), idx);
    }
}

/// The rows `map[r]` of the listed rows `r` in `0..map.len()`.
fn mapped_rows(rows: &[i64], map: &[i64]) -> (needed: Vec<i64>)
    ensures
        forall|r: i64| 0 <= r < map@.len() && #[trigger] rows@.contains(r) ==> needed@.contains(map@[r as int]),
{
    let mut needed: Vec<i64> = Vec::new();
    let mut j: usize = 0;
    while j < rows.len()
        invariant
            j <= rows.len(),
            forall|q: int| 0 <= q < j && 0 <= #[trigger] rows@[q] < map@.len() ==> needed@.contains(map@[rows@[q] as int]),
        decreases rows.len() - j,
    {
        let r = rows[j];
        if r >= 0 && (r as u64) < (map.len() as u64) {
            let ghost before = needed@;
            needed.push(map[r as usize]);
            proof {
                assert forall|q: int| 0 <= q < j + 1 && 0 <= #[trigger] rows@[q] < map@.len() implies needed@.contains(
                    map@[rows@[q] as int],
                ) by {
                    if q < j {
                        let w = choose|w: int| 0 <= w < before.len() && before[w] == map@[rows@[q] as int];
                        assert(needed@[w] == before[w]);
                    } else {
                        assert(needed@[before.len() as int] == map@[rows@[q] as int]);
                    }
                }
            }
        }
        j = j + 1;
    }
    proof {
        assert forall|r: i64| 0 <= r < map@.len() && #[trigger] rows@.contains(r) implies needed@.contains(
            map@[r as int],
        ) by {
            let q = choose|q: int| 0 <= q < rows@.len() && rows@[q] == r;
            assert(0 <= rows@[q] < map@.len());
        }
    }
    needed
}

/// An index restricted to `rows`: output row `r` is argument row `map[r]`,
/// so the argument is lowered restricted to the rows the kept rows read,
/// then selected and filtered (other output rows may read the same
/// argument rows).
fn index_rows<V: Scalar>(lin_op: &LinOp<V>, ctx: &ProcessingContext, rows: &[i64]) -> (t: SparseTensor<V>)
    requires
        ops_total::<V>(),
        lowerable(*lin_op, ctx@),
        lin_op.op_type == OpType::Index,
        lin_op.args@.len() > 0,
        rows@.len() > 0,
    ensures
        t.wf(),
        t.shape == (lower_rows(*lin_op) as usize, ctx@.var_cols()),
        t.rows_in_range(),
        exact::<V>() ==> t.entries() == filtered_entries(lower(*lin_op, ctx@), lower_rows(*lin_op), rows@),
        exact::<V>() ==> rows_within(lower(*lin_op, ctx@), lower_rows(*lin_op)),
    decreases lin_op, 1nat,
{
    let ghost c = ctx@;
    proof {
        lemma_lowerable_basics(*lin_op, c);
        lemma_lowerable_basics(lin_op.args@[0], c);
    }
    let arg = &lin_op.args[0];
    assert(lowerable(*arg, c));
    let map = index_row_indices(lin_op);
    let needed = mapped_rows(rows, map.as_slice());
    if needed.len() == 0 {
        return lower_filtered(lin_op, ctx, rows);
    }
    let tensor = process_arg_rows(arg, ctx, needed.as_slice());
    assert forall|i: int| 0 <= i < tensor.rows@.len() implies #[trigger] tensor.rows@[i] >= tensor.shape.0 - 1
        - i64::MAX by {
    }
    let sel = tensor.select_rows(map.as_slice());
    let t = filter_rows(sel, rows);
    proof {
        lemma_select_entries_rows(tensor.entries(), map@);
        lemma_filtered_in_range(sel.entries(), sel.shape.0 as int, rows@);
        lemma_rows_from_entries(t);
        if exact::<V>() {
            let la = lower(*arg, c);
            let n1 = lower_rows(*arg);
            let idx = map@;
            let out = idx.len() as int;
            let f = |e: Entry<V>| expand(e, idx);
            lemma_select_rows_shortcuts(la, n1, idx);
            lemma_select_is_flat_map(la, idx);
            lemma_select_is_flat_map(filtered_entries(la, n1, needed@), idx);
            assert forall|i: int| 0 <= i < la.len() implies reads_needed(#[trigger] f(la[i]), la[i].1, out, rows@, needed@) by {
                let e = la[i];
                lemma_positions_bounded(idx, e.1, out);
                let ps = positions(idx, e.1, out);
                assert forall|q: int| 0 <= q < f(e).len() implies 0 <= #[trigger] f(e)[q].1 < out && (rows@.contains(
                    f(e)[q].1,
                ) ==> needed@.contains(e.1)) by {
                    assert(f(e)[q].1 == ps[q] as i64);
                    assert(ps[q] < out);
                    assert(idx[ps[q] as int] == e.1);
                }
            }
            lemma_filter_sources(la, f, n1, out, rows@, needed@);
        }
    }
    t
}

/// Lower `lin_op` restricted to `rows`: the entries of its lowering whose
/// row is listed, in order, in a tensor of the node's full shape.  The
/// restriction is pushed through negations, reshapes, sums, elementwise
/// products and quotients (whose output rows are their argument's rows),
/// through products, which need the argument blocks ([`mul_rows`]) or
/// residue classes ([`rmul_rows`]) of the kept rows, and through indexing,
/// which reads one argument row per output row ([`index_rows`]); any other
/// node is lowered in full and filtered.
pub fn process_linop_rows<V: Scalar>(lin_op: &LinOp<V>, ctx: &ProcessingContext, rows: &[i64]) -> (t:
    SparseTensor<V>)
    requires
        ops_total::<V>(),
        lowerable(*lin_op, ctx@),
    ensures
        t.wf(),
        t.shape == (lower_rows(*lin_op) as usize, ctx@.var_cols()),
        t.rows_in_range(),
        exact::<V>() ==> t.entries() == filtered_entries(lower(*lin_op, ctx@), lower_rows(*lin_op), rows@),
        exact::<V>() && rows@.len() > 0 ==> rows_within(lower(*lin_op, ctx@), lower_rows(*lin_op)),
    decreases lin_op, 2nat,
{
    let ghost c = ctx@;
    proof {
        lemma_lowerable_basics(*lin_op, c);
    }
    if rows.len() == 0 {
        proof {
            lemma_filter_none(lower(*lin_op, c), lower_rows(*lin_op));
            assert(rows@ =~= Seq::<i64>::empty());
        }
        let t = SparseTensor::empty((lower_rows_exec(lin_op, ctx), ctx.var_cols()));
        assert(t.entries() =~= Seq::<Entry<V>>::empty());
        return t;
    }
    if lin_op.args.len() == 0 {
        let full = process_linop(lin_op, ctx);
        let t = filter_rows(full, rows);
        proof {
            lemma_filtered_in_range(full.entries(), full.shape.0 as int, rows@);
            lemma_rows_from_entries(t);
            lemma_entries_within(full);
        }
        return t;
    }
    let arg = &lin_op.args[0];
    match lin_op.op_type {
        OpType::Neg => {
            assert(lowerable(*arg, c));
            let mut tensor = process_linop_rows(arg, ctx, rows);
            let ghost before = tensor.entries();
            tensor.negate_in_place();
            proof {
                assert(exact::<V>() ==> tensor.entries() =~= negated_entries(before));
                lemma_filter_negated(lower(*arg, c), lower_rows(*arg), rows@);
                if exact::<V>() {
                    let la = lower(*arg, c);
                    assert forall|k: int| 0 <= k < negated_entries(la).len() implies 0 <= #[trigger] negated_entries(
                        la,
                    )[k].1 < lower_rows(*arg) by {
                        assert(negated_entries(la)[k].1 == la[k].1);
                    }
                }
            }
            tensor
        },
        OpType::Reshape => {
            assert(lowerable(*arg, c));
            process_linop_rows(arg, ctx, rows)
        },
        OpType::Sum => {
            let n = lin_op.args.len();
            assert(lowerable(*arg, c));
            let mut result = process_linop_rows(arg, ctx, rows);
            proof {
                assert(lower_args(*lin_op, c, 0) =~= Seq::<Entry<V>>::empty());
                assert(lower_args(*lin_op, c, 1) =~= lower(*arg, c));
            }
            let mut i: usize = 1;
            while i < n
                invariant
                    ops_total::<V>(),
                    lowerable(*lin_op, c),
                    lin_op.op_type == OpType::Sum,
                    c == ctx@,
                    n == lin_op.args@.len(),
                    1 <= i <= n,
                    result.wf(),
                    result.shape == (lower_rows(lin_op.args@[0]) as usize, c.var_cols()),
                    result.rows_in_range(),
                    exact::<V>() ==> result.entries() == filtered_entries(
                        lower_args(*lin_op, c, i as int),
                        lower_rows(lin_op.args@[0]),
                        rows@,
                    ),
                    rows@.len() > 0,
                    exact::<V>() ==> rows_within(lower_args(*lin_op, c, i as int), lower_rows(lin_op.args@[0])),
                decreases n - i,
            {
                let other = &lin_op.args[i];
                assert(lowerable(*other, c));
                proof {
                    lemma_lowerable_basics(*other, c);
                    lemma_lowerable_basics(lin_op.args@[0], c);
                }
                let part = process_linop_rows(other, ctx, rows);
                let ghost r0 = result.rows@;
                let ghost e0 = result.entries();
                proof {
                    let lo = lower(*other, c);
                    let n0 = lower_rows(lin_op.args@[0]);
                    let prev = lower_args(*lin_op, c, i as int);
                    assert(lower_args(*lin_op, c, i + 1) == prev + lo);
                    if exact::<V>() {
                        lemma_filter_bound(lo, lower_rows(*other), n0, rows@);
                        lemma_filter_concat(prev, lo, n0, rows@);
                        assert forall|k: int| 0 <= k < (prev + lo).len() implies 0 <= #[trigger] (prev
                            + lo)[k].1 < n0 by {
                            if k >= prev.len() {
                                assert((prev + lo)[k] == lo[k - prev.len()]);
                            } else {
                                assert((prev + lo)[k] == prev[k]);
                            }
                        }
                    }
                }
                result.extend(part);
                proof {
                    assert forall|k: int| 0 <= k < result.rows@.len() implies 0 <= #[trigger] result.rows@[k]
                        < result.shape.0 by {
                        if k >= r0.len() {
                            assert(result.rows@[k] == part.rows@[k - r0.len()]);
                        }
                    }
                    assert(result.entries() =~= e0 + part.entries());
                }
                i = i + 1;
            }
            result
        },
        OpType::Mul => mul_rows(lin_op, ctx, rows),
        OpType::Rmul => rmul_rows(lin_op, ctx, rows),
        OpType::Index => index_rows(lin_op, ctx, rows),
        OpType::Div => {
            let data_linop: &LinOp<V> = match &lin_op.data {
                LinOpData::LinOpRef(inner) => inner,
                _ => {
                    return SparseTensor::empty((lower_rows_exec(lin_op, ctx), ctx.var_cols()));
                },
            };
            assert(lowerable(*arg, c));
            let mut tensor = process_linop_rows(arg, ctx, rows);
            let data = get_constant_vector_data(data_linop, ctx);
            proof {
                lemma_rows_nonneg(tensor);
            }
            let ghost before = tensor.entries();
            div_by_values(&mut tensor, &data);
            proof {
                assert(tensor.rows_in_range()) by {
                    assert forall|k: int| 0 <= k < tensor.rows@.len() implies 0 <= #[trigger] tensor.rows@[k] < tensor.shape.0 by {
                        assert(tensor.rows@[k] == before[k].1);
                    }
                }
                lemma_filter_div(lower(*arg, c), const_vector(*data_linop, c), lower_rows(*arg), rows@);
            }
            tensor
        },
        OpType::MulElem => {
            let data_linop: &LinOp<V> = match &lin_op.data {
                LinOpData::LinOpRef(inner) => inner,
                _ => {
                    return SparseTensor::empty((lower_rows_exec(lin_op, ctx), ctx.var_cols()));
                },
            };
            assert(lowerable(*arg, c));
            assert(lowerable(*data_linop, c));
            proof {
                lemma_lowerable_basics(*arg, c);
                lemma_lowerable_basics(*data_linop, c);
            }
            let out = lin_op.size();
            let arg_tensor = process_linop_rows(arg, ctx, rows);
            let data_tensor = process_linop(data_linop, ctx);
            proof {
                lemma_rows_nonneg(arg_tensor);
                lemma_rows_nonneg(data_tensor);
            }
            let t = mul_elem_tensors(&arg_tensor, &data_tensor, data_linop.size(), out, ctx);
            proof {
                if exact::<V>() {
                    let f = mul_elem_fn(lower(*data_linop, c), shape_size(data_linop.shape@), c.const_param());
                    let la = lower(*arg, c);
                    assert forall|i: int, k: int| 0 <= i < la.len() && 0 <= k < f(la[i]).len() implies #[trigger] f(
                        la[i],
                    )[k].1 == la[i].1 by {
                    }
                    lemma_filter_flat_map(la, f, lower_rows(*arg), out as int, rows@);
                }
            }
            t
        },
        _ => {
            let full = process_linop(lin_op, ctx);
            let t = filter_rows(full, rows);
            proof {
                lemma_filtered_in_range(full.entries(), full.shape.0 as int, rows@);
                lemma_rows_from_entries(t);
                lemma_entries_within(full);
            }
            t
        },
    }
}

/// Filtering twice by the same rows filters once.
proof fn lemma_filter_idempotent<V>(es: Seq<Entry<V>>, n: int, rows: Seq<i64>)
    ensures
        filtered_entries(filtered_entries(es, n, rows), n, rows) == filtered_entries(es, n, rows),
    decreases es.len(),
{
    if es.len() > 0 {
        let p = es.drop_last();
        lemma_filter_idempotent(p, n, rows);
        let e = es.last();
        let f = filtered_entries(p, n, rows);
        if 0 <= e.1 < n && rows.contains(e.1) {
            assert(f.push(e).drop_last() =~= f);
        }
    }
}

/// The rows below `n` that `rows` lists.
pub open spec fn read_rows(rows: Seq<i64>, n: int) -> Set<i64> {
    Set::new(|x: i64| 0 <= x < n && rows.contains(x))
}

/// Lower `arg` for a consumer that reads only `rows` of it (any order,
/// repeats and rows outside the argument allowed): the entries of the
/// listed rows, or the whole lowering when more than half of the
/// argument's rows are read anyway ([`read_rows`]).
pub fn process_arg_rows<V: Scalar>(arg: &LinOp<V>, ctx: &ProcessingContext, rows: &[i64]) -> (t:
    SparseTensor<V>)
    requires
        ops_total::<V>(),
        lowerable(*arg, ctx@),
    ensures
        t.wf(),
        t.shape == (lower_rows(*arg) as usize, ctx@.var_cols()),
        t.rows_in_range(),
        exact::<V>() ==> t.entries() == if read_rows(rows@, lower_rows(*arg)).len() > lower_rows(*arg) / 2 {
            lower(*arg, ctx@)
        } else {
            filtered_entries(lower(*arg, ctx@), lower_rows(*arg), rows@)
        },
        exact::<V>() ==> filtered_entries(t.entries(), lower_rows(*arg), rows@) == filtered_entries(
            lower(*arg, ctx@),
            lower_rows(*arg),
            rows@,
        ),
        exact::<V>() && rows@.len() > 0 ==> rows_within(lower(*arg, ctx@), lower_rows(*arg)),
    decreases arg, 3nat,
{
    proof {
        lemma_lowerable_basics(*arg, ctx@);
    }
    let size = lower_rows_exec(arg, ctx);
    let wanted = unique_sorted(rows, size);
    proof {
        let w = wanted@;
        assert forall|i: int, j: int| 0 <= i < w.len() && 0 <= j < w.len() && i != j implies w[i] != w[j] by {
            if i < j {
                assert(w[i] < w[j]);
            } else {
                assert(w[j] < w[i]);
            }
        }
        assert(w.no_duplicates());
        w.unique_seq_to_set();
        assert forall|x: i64| #[trigger] w.to_set().contains(x) == read_rows(rows@, size as int).contains(x) by {
            if rows@.contains(x) && 0 <= x < size {
                let j = choose|j: int| 0 <= j < rows@.len() && rows@[j] == x;
                assert(w.contains(rows@[j]));
            }
            if w.contains(x) {
                let k = choose|k: int| 0 <= k < w.len() && w[k] == x;
                assert(rows@.contains(w[k]));
            }
        }
        assert(w.to_set() =~= read_rows(rows@, size as int));
    }
    if wanted.len() > size / 2 {
        let full = process_linop(arg, ctx);
        proof {
            lemma_entries_within(full);
        }
        return full;
    }
    if wanted.len() == 0 {
        let t = process_linop_rows(arg, ctx, rows);
        proof {
            lemma_filter_idempotent(lower(*arg, ctx@), lower_rows(*arg), rows@);
        }
        return t;
    }
    let t = process_linop_rows(arg, ctx, wanted.as_slice());
    proof {
        let n = lower_rows(*arg);
        assert forall|x: i64| 0 <= x < n implies (wanted@.contains(x) <==> rows@.contains(x)) by {
            if rows@.contains(x) {
                let j = choose|j: int| 0 <= j < rows@.len() && rows@[j] == x;
                assert(wanted@.contains(rows@[j]));
            }
            if wanted@.contains(x) {
                let k = choose|k: int| 0 <= k < wanted@.len() && wanted@[k] == x;
                assert(rows@.contains(wanted@[k]));
            }
        }
        lemma_filter_same_rows(lower(*arg, ctx@), n, wanted@, rows@);
        lemma_filter_idempotent(lower(*arg, ctx@), n, rows@);
    }
    t
}

} // verus!
