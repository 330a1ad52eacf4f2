//! The reduction of the flattened problem-data matrix that CVXPY's
//! `reduce_problem_data_tensor` computes, done in one pass over the sorted
//! COO output of [`crate::tensor::BuildMatrixResult::from_tensor`].
use vstd::prelude::*;
use crate::counting::{
    below_count, bucket_count, cumulative_sum_in_place, lemma_below_all, lemma_below_step,
    lemma_bucket_extend, lemma_counts_bounded, lemma_prefix_sums_count_below, prefix_sum,
};
use crate::scalar::{exact, is_zero, is_zero_spec, ops_total, Scalar};
use std::ops::Add;
use vstd::std_specs::ops::AddSpec;
use crate::sorting::{
    identity_order, is_permutation, lemma_reordered_identity_is_permutation, sort_order_by_key,
    sorted_by_keys,
};

verus! {

/// The reduced matrix (CSR) and the index of the final problem-data matrix
/// (CSC) that `MatrixData` stores.
#[derive(Debug)]
pub struct ReducedMatrix<V> {
    pub reduced_data: Vec<V>,
    pub reduced_col_indices: Vec<i64>,
    pub reduced_indptr: Vec<i64>,
    pub reduced_shape: (usize, usize),
    pub final_indices: Vec<i64>,
    pub final_indptr: Vec<i64>,
    pub final_shape: (usize, usize),
}

/// The elements `vals[j]`, `j < i`, with `keep[j]`, in order.
pub open spec fn kept<T>(vals: Seq<T>, keep: Seq<bool>, i: int) -> Seq<T>
    decreases i,
{
    if i <= 0 {
        seq![]
    } else if keep[i - 1] {
        kept(vals, keep, i - 1).push(vals[i - 1])
    } else {
        kept(vals, keep, i - 1)
    }
}

/// `s` with runs of equal consecutive elements collapsed to one element.
pub open spec fn dedup(s: Seq<i64>) -> Seq<i64>
    decreases s.len(),
{
    if s.len() == 0 {
        seq![]
    } else if s.len() == 1 || s.last() != s[s.len() - 2] {
        dedup(s.drop_last()).push(s.last())
    } else {
        dedup(s.drop_last())
    }
}

/// The run each element of `s` belongs to: `run_ids(s)[k]` is the index in
/// `dedup(s)` of the run holding `s[k]`.
pub open spec fn run_ids(s: Seq<i64>) -> Seq<int>
    decreases s.len(),
{
    if s.len() == 0 {
        seq![]
    } else {
        run_ids(s.drop_last()).push(dedup(s).len() - 1)
    }
}

/// Number of problem-data columns: the variables, plus the constant column
/// unless the matrix is a quadratic form.
pub open spec fn n_cols_spec(var_length: usize, quad_form: bool) -> int {
    if quad_form {
        var_length as int
    } else {
        var_length + 1
    }
}

/// Number of problem-data rows (constraints) of a flattened matrix.
pub open spec fn n_constr_spec(big_m: usize, var_length: usize, quad_form: bool) -> int {
    big_m as int / n_cols_spec(var_length, quad_form)
}

/// `r` is the reduction of the COO matrix `(data, rows, cols)` of `shape`
/// when the entries flagged in `keep` are the non-zero ones.
pub open spec fn is_reduction<V>(
    r: ReducedMatrix<V>,
    data: Seq<V>,
    rows: Seq<i64>,
    cols: Seq<i64>,
    keep: Seq<bool>,
    shape: (usize, usize),
    var_length: usize,
    quad_form: bool,
) -> bool {
    let n = data.len() as int;
    let kr = kept(rows, keep, n);
    let kd = kept(data, keep, n);
    let kc = kept(cols, keep, n);
    let u = dedup(kr);
    let ids = run_ids(kr);
    let nc = n_constr_spec(shape.0, var_length, quad_form);
    let ncols = n_cols_spec(var_length, quad_form);
    let groups = Seq::new(u.len(), |k: int| (u[k] as int) / nc);
    &&& r.reduced_shape == (u.len() as usize, shape.1)
    // row `q` of the reduced matrix holds the entries of the `q`-th run of
    // equal rows among the kept entries
    &&& r.reduced_indptr@.len() == u.len() + 1
    &&& forall|c: int| 0 <= c <= u.len() ==> #[trigger] r.reduced_indptr@[c] == below_count(ids, c)
    &&& r.reduced_data@.len() == kd.len()
    &&& r.reduced_col_indices@.len() == kc.len()
    // within a row, the entries are reordered by ascending column
    &&& forall|q: int|
        0 <= q < u.len() ==> segment_sorted_permutation(
            r.reduced_col_indices@,
            r.reduced_data@,
            kc,
            kd,
            #[trigger] r.reduced_indptr@[q] as int,
            r.reduced_indptr@[q + 1] as int,
        )
    // the final index: one entry per distinct row, grouped by column
    &&& r.final_shape == (nc as usize, ncols as usize)
    &&& r.final_indices@ == Seq::new(u.len(), |k: int| ((u[k] as int) % nc) as i64)
    &&& r.final_indptr@.len() == ncols + 1
    &&& forall|c: int| 0 <= c <= ncols ==> #[trigger] r.final_indptr@[c] == below_count(groups, c)
}

/// On positions `s..e`, `(cols, data)` is a reordering of `(cols0, data0)`
/// with ascending columns.
pub open spec fn segment_sorted_permutation<V>(
    cols: Seq<i64>,
    data: Seq<V>,
    cols0: Seq<i64>,
    data0: Seq<V>,
    s: int,
    e: int,
) -> bool {
    &&& forall|a: int, b: int| s <= a <= b < e ==> cols[a] <= cols[b]
    &&& exists|sp: Seq<usize>|
        #![trigger is_permutation(sp, e - s)]
        is_permutation(sp, e - s) && forall|t: int|
            0 <= t < e - s ==> #[trigger] placed_from(cols, data, cols0, data0, s, sp, t)
}

/// Position `s + t` of `(cols, data)` holds position `s + sp[t]` of
/// `(cols0, data0)`.
pub open spec fn placed_from<V>(
    cols: Seq<i64>,
    data: Seq<V>,
    cols0: Seq<i64>,
    data0: Seq<V>,
    s: int,
    sp: Seq<usize>,
    t: int,
) -> bool {
    &&& cols[s + t] == cols0[s + sp[t] as int]
    &&& data[s + t] == data0[s + sp[t] as int]
}

/// A sorted segment together with the permutation that produced it.
proof fn lemma_segment_witness<V>(
    cols: Seq<i64>,
    data: Seq<V>,
    cols0: Seq<i64>,
    data0: Seq<V>,
    s: int,
    e: int,
    sp: Seq<usize>,
)
    requires
        forall|a: int, b: int| s <= a <= b < e ==> cols[a] <= cols[b],
        is_permutation(sp, e - s),
        forall|t: int| 0 <= t < e - s ==> #[trigger] placed_from(cols, data, cols0, data0, s, sp, t),
    ensures
        segment_sorted_permutation(cols, data, cols0, data0, s, e),
{
}

/// An entry that the zero test may keep has its row inside the problem-data
/// matrix.
pub open spec fn row_fits<V: Scalar>(
    value: V,
    row: i64,
    big_m: usize,
    var_length: usize,
    quad_form: bool,
) -> bool {
    (exact::<V>() ==> !is_zero_spec(value)) ==> 0 <= row < n_constr_spec(big_m, var_length, quad_form)
        * n_cols_spec(var_length, quad_form)
}

/// Every entry that the zero test may keep has its row inside the
/// problem-data matrix.
pub open spec fn rows_fit<V: Scalar>(
    data: Seq<V>,
    rows: Seq<i64>,
    big_m: usize,
    var_length: usize,
    quad_form: bool,
) -> bool {
    forall|i: int|
        0 <= i < data.len() ==> #[trigger] row_fits(data[i], rows[i], big_m, var_length, quad_form)
}

/// The first position in `s..e` whose column is `c`, or `-1`.
pub open spec fn find_col(cols: Seq<i64>, c: i64, s: int, e: int) -> int
    decreases e - s,
{
    if s >= e {
        -1
    } else if cols[s] == c {
        s
    } else {
        find_col(cols, c, s + 1, e)
    }
}

/// The first `k` entries of the COO matrix `(data, rows, cols)` with equal
/// `(row, column)` pairs summed, as `(data, rows, cols, start)`: within each
/// run of equal consecutive rows, an entry whose column already occurs in
/// the run is added to that earlier entry; otherwise it is appended.
/// `start` is where the current run begins in the merged entries.
pub open spec fn merge_runs<V: Scalar>(data: Seq<V>, rows: Seq<i64>, cols: Seq<i64>, k: int) -> (
    Seq<V>,
    Seq<i64>,
    Seq<i64>,
    int,
)
    decreases k,
{
    if k <= 0 {
        (seq![], seq![], seq![], 0)
    } else {
        let (d, r, c, st) = merge_runs(data, rows, cols, k - 1);
        let start = if k == 1 || rows[k - 2] != rows[k - 1] {
            d.len() as int
        } else {
            st
        };
        let p = find_col(c, cols[k - 1], start, c.len() as int);
        if p >= 0 {
            (d.update(p, d[p].add_spec(data[k - 1])), r, c, start)
        } else {
            (d.push(data[k - 1]), r.push(rows[k - 1]), c.push(cols[k - 1]), start)
        }
    }
}

/// The whole COO matrix with its duplicate coordinates summed.
pub open spec fn merged<V: Scalar>(data: Seq<V>, rows: Seq<i64>, cols: Seq<i64>) -> (
    Seq<V>,
    Seq<i64>,
    Seq<i64>,
    int,
) {
    merge_runs(data, rows, cols, data.len() as int)
}

/// The merged sequences are parallel, no longer than the input, and the
/// current run starts inside them.
proof fn lemma_merge_facts<V: Scalar>(data: Seq<V>, rows: Seq<i64>, cols: Seq<i64>, k: int)
    requires
        0 <= k,
    ensures
        ({
            let (d, r, c, st) = merge_runs(data, rows, cols, k);
            &&& d.len() == r.len() == c.len()
            &&& d.len() <= k
            &&& 0 <= st <= d.len()
        }),
    decreases k,
{
    if k > 0 {
        lemma_merge_facts(data, rows, cols, k - 1);
        let (d, r, c, st) = merge_runs(data, rows, cols, k - 1);
        let start = if k == 1 || rows[k - 2] != rows[k - 1] {
            d.len() as int
        } else {
            st
        };
        lemma_find_col_range(c, cols[k - 1], start, c.len() as int);
    }
}

/// `find_col` finds a position inside its range holding the column.
proof fn lemma_find_col_range(cols: Seq<i64>, c: i64, s: int, e: int)
    ensures
        find_col(cols, c, s, e) == -1 || (s <= find_col(cols, c, s, e) < e && cols[find_col(
            cols,
            c,
            s,
            e,
        )] == c),
    decreases e - s,
{
    if s < e && cols[s] != c {
        lemma_find_col_range(cols, c, s + 1, e);
    }
}

/// `rows_fit` depends on the values only through the zero test, so it
/// carries over to values that are equal whenever `V` is exact.
proof fn lemma_rows_fit_values<V: Scalar>(
    d1: Seq<V>,
    d2: Seq<V>,
    rows: Seq<i64>,
    big_m: usize,
    var_length: usize,
    quad_form: bool,
)
    requires
        rows_fit(d1, rows, big_m, var_length, quad_form),
        d1.len() == d2.len(),
        exact::<V>() ==> d1 == d2,
    ensures
        rows_fit(d2, rows, big_m, var_length, quad_form),
{
    assert forall|i: int| 0 <= i < d2.len() implies #[trigger] row_fits(
        d2[i],
        rows[i],
        big_m,
        var_length,
        quad_form,
    ) by {
        assert(row_fits(d1[i], rows[i], big_m, var_length, quad_form));
        if exact::<V>() {
            assert(d2[i] == d1[i]);
        }
    }
}

/// Sums the entries of the COO matrix `(data, rows, cols)` that share a
/// `(row, column)` pair within a run of equal rows, as `csc_array` does
/// for a matrix with sorted rows: each sum stands at its first entry.
pub fn sum_duplicates<V: Scalar>(data: &[V], rows: &[i64], cols: &[i64]) -> (r: (
    Vec<V>,
    Vec<i64>,
    Vec<i64>,
))
    requires
        ops_total::<V>(),
        rows@.len() >= data@.len(),
        cols@.len() >= data@.len(),
    ensures
        r.0@.len() == merged(data@, rows@, cols@).0.len(),
        r.1@ == merged(data@, rows@, cols@).1,
        r.2@ == merged(data@, rows@, cols@).2,
        exact::<V>() ==> r.0@ == merged(data@, rows@, cols@).0,
{
    let n = data.len();
    let mut md: Vec<V> = Vec::with_capacity(n);
    let mut mr: Vec<i64> = Vec::with_capacity(n);
    let mut mc: Vec<i64> = Vec::with_capacity(n);
    let mut start: usize = 0;
    let mut i: usize = 0;
    while i < n
        invariant
            ops_total::<V>(),
            i <= n,
            n == data@.len(),
            rows@.len() >= n,
            cols@.len() >= n,
            md@.len() == merge_runs(data@, rows@, cols@, i as int).0.len(),
            mr@ == merge_runs(data@, rows@, cols@, i as int).1,
            mc@ == merge_runs(data@, rows@, cols@, i as int).2,
            start == merge_runs(data@, rows@, cols@, i as int).3,
            exact::<V>() ==> md@ == merge_runs(data@, rows@, cols@, i as int).0,
        decreases n - i,
    {
        proof {
            lemma_merge_facts(data@, rows@, cols@, i as int);
        }
        if i == 0 || rows[i - 1] != rows[i] {
            start = md.len();
        }
        let c = cols[i];
        let ghost c0 = mc@;
        let mut j: usize = start;
        while j < mc.len() && mc[j] != c
            invariant
                start <= j <= mc@.len(),
                mc@ == c0,
                find_col(c0, c, start as int, c0.len() as int) == find_col(c0, c, j as int, c0.len() as int),
            decreases mc@.len() - j,
        {
            j = j + 1;
        }
        proof {
            lemma_find_col_range(c0, c, start as int, c0.len() as int);
        }
        if j < mc.len() {
            let sum = md[j].add(data[i]);
            md.set(j, sum);
        } else {
            md.push(data[i]);
            mr.push(rows[i]);
            mc.push(c);
        }
        i = i + 1;
    }
    (md, mr, mc)
}

/// Compute the reduction that `reduce_problem_data_tensor` would compute on
/// `sp.csc_array((data, (rows, cols)), shape)`.
///
/// Entries sharing a `(row, column)` pair are summed, as `csc_array` does
/// (for non-decreasing `rows`, the shared pairs lie in one run of equal
/// rows); zero sums are then dropped (as `eliminate_zeros` does).  The
/// remaining entries are grouped by runs of equal rows, which for
/// non-decreasing `rows` are the distinct rows; within a row, entries are
/// sorted by column.  The final index maps each distinct row `nr` to index
/// `nr % n_constr` in column group `nr / n_constr` of a matrix with
/// `n_cols` columns (`var_length`, plus one unless `quad_form`).
pub fn compute_reduction_from_slices<V: Scalar>(
    data: &[V],
    rows: &[i64],
    cols: &[i64],
    shape: (usize, usize),
    var_length: usize,
    quad_form: bool,
) -> (r: ReducedMatrix<V>)
    requires
        ops_total::<V>(),
        rows@.len() >= data@.len(),
        cols@.len() >= data@.len(),
        data@.len() <= i64::MAX,
        data@.len() < usize::MAX,
        shape.0 <= i64::MAX,
        n_cols_spec(var_length, quad_form) < usize::MAX,
        n_cols_spec(var_length, quad_form) > 0,
        rows_fit(
            merged(data@, rows@, cols@).0,
            merged(data@, rows@, cols@).1,
            shape.0,
            var_length,
            quad_form,
        ),
    ensures
        exists|sums: Seq<V>, keep: Seq<bool>|
            #![trigger is_reduction(r, sums, merged(data@, rows@, cols@).1, merged(data@, rows@, cols@).2, keep, shape, var_length, quad_form)]
            {
                &&& sums.len() == merged(data@, rows@, cols@).0.len()
                &&& exact::<V>() ==> sums == merged(data@, rows@, cols@).0
                &&& keep.len() == sums.len()
                &&& exact::<V>() ==> forall|i: int|
                    0 <= i < keep.len() ==> #[trigger] keep[i] == !is_zero_spec(sums[i])
                &&& is_reduction(
                    r,
                    sums,
                    merged(data@, rows@, cols@).1,
                    merged(data@, rows@, cols@).2,
                    keep,
                    shape,
                    var_length,
                    quad_form,
                )
            },
{
    let (sums, mrows, mcols) = sum_duplicates(data, rows, cols);
    let ghost m = merged(data@, rows@, cols@);
    proof {
        lemma_merge_facts(data@, rows@, cols@, data@.len() as int);
        lemma_rows_fit_values(m.0, sums@, m.1, shape.0, var_length, quad_form);
        assert(rows_fit(sums@, mrows@, shape.0, var_length, quad_form));
    }
    let r = reduce_runs(sums.as_slice(), mrows.as_slice(), mcols.as_slice(), shape, var_length, quad_form);
    proof {
        let keep = choose|keep: Seq<bool>|
            keep.len() == sums@.len() && (exact::<V>() ==> forall|i: int|
                0 <= i < keep.len() ==> #[trigger] keep[i] == !is_zero_spec(sums@[i]))
                && is_reduction(r, sums@, mrows@, mcols@, keep, shape, var_length, quad_form);
        assert(is_reduction(r, sums@, m.1, m.2, keep, shape, var_length, quad_form));
    }
    r
}

/// The reduction of a COO matrix without duplicate coordinates: one pass
/// that drops zeros, groups runs of equal rows and sorts each row by
/// column, then the final index.
#[verifier::spinoff_prover]
fn reduce_runs<V: Scalar>(
    data: &[V],
    rows: &[i64],
    cols: &[i64],
    shape: (usize, usize),
    var_length: usize,
    quad_form: bool,
) -> (r: ReducedMatrix<V>)
    requires
        rows@.len() >= data@.len(),
        cols@.len() >= data@.len(),
        data@.len() <= i64::MAX,
        data@.len() < usize::MAX,
        shape.0 <= i64::MAX,
        n_cols_spec(var_length, quad_form) < usize::MAX,
        n_cols_spec(var_length, quad_form) > 0,
        rows_fit(data@, rows@, shape.0, var_length, quad_form),
    ensures
        exists|keep: Seq<bool>|
            #![trigger is_reduction(r, data@, rows@, cols@, keep, shape, var_length, quad_form)]
            keep.len() == data@.len() && (exact::<V>() ==> forall|i: int|
                0 <= i < keep.len() ==> #[trigger] keep[i] == !is_zero_spec(data@[i]))
                && is_reduction(r, data@, rows@, cols@, keep, shape, var_length, quad_form),
{
    let nnz = data.len();
    let big_m = shape.0;
    let num_param_slices = shape.1;

    // Pass 1: flag the non-zero entries, count them and the runs of rows.
    let mut keep: Vec<bool> = Vec::with_capacity(nnz);
    let mut nnz_after_drop: usize = 0;
    let mut unique_count: usize = 0;
    let mut last: i64 = i64::MIN;
    let mut have_seen_any = false;
    let mut i: usize = 0;
    while i < nnz
        invariant
            i <= nnz,
            nnz == data@.len(),
            rows@.len() >= nnz,
            keep@.len() == i,
            exact::<V>() ==> forall|j: int| 0 <= j < i ==> #[trigger] keep@[j] == !is_zero_spec(data@[j]),
            nnz_after_drop == kept(rows@, keep@, i as int).len(),
            unique_count == dedup(kept(rows@, keep@, i as int)).len(),
            have_seen_any == (kept(rows@, keep@, i as int).len() > 0),
            have_seen_any ==> last == kept(rows@, keep@, i as int).last(),
            nnz_after_drop <= i,
            unique_count <= nnz_after_drop,
        decreases nnz - i,
    {
        let ghost kr = kept(rows@, keep@, i as int);
        let ghost old_keep = keep@;
        let z = is_zero(&data[i]);
        keep.push(!z);
        proof {
            assert(old_keep =~= keep@.subrange(0, i as int));
            lemma_kept_prefix_stable(rows@, old_keep, keep@, i as int);
            assert(kept(rows@, keep@, i + 1) == if !z { kr.push(rows@[i as int]) } else { kr });
            lemma_dedup_push(kr, rows@[i as int]);
            lemma_dedup_len_le(kr);
        }
        if !z {
            nnz_after_drop = nnz_after_drop + 1;
            if !have_seen_any || rows[i] != last {
                unique_count = unique_count + 1;
                last = rows[i];
                have_seen_any = true;
            }
        }
        i = i + 1;
    }
    let ghost keep_s = keep@;
    let ghost kr_all = kept(rows@, keep_s, nnz as int);
    let ghost kd_all = kept(data@, keep_s, nnz as int);
    let ghost kc_all = kept(cols@, keep_s, nnz as int);
    let ghost u_all = dedup(kr_all);
    let ghost ids_all = run_ids(kr_all);

    // Pass 2: the kept entries, the distinct rows and the per-row counts.
    let mut reduced_data: Vec<V> = Vec::with_capacity(nnz_after_drop);
    let mut reduced_col_indices: Vec<i64> = Vec::with_capacity(nnz_after_drop);
    let mut unique_rows: Vec<i64> = Vec::with_capacity(unique_count);
    let mut reduced_indptr: Vec<i64> = zeros(unique_count + 1);
    last = i64::MIN;
    have_seen_any = false;
    let mut current_reduced_row: i64 = -1;
    i = 0;
    while i < nnz
        invariant
            i <= nnz,
            nnz == data@.len(),
            nnz <= i64::MAX,
            rows@.len() >= nnz,
            cols@.len() >= nnz,
            keep@ == keep_s,
            keep_s.len() == nnz,
            u_all == dedup(kept(rows@, keep_s, nnz as int)),
            unique_count == u_all.len(),
            reduced_indptr@.len() == unique_count + 1,
            reduced_indptr@[0] == 0,
            forall|b: int|
                0 <= b < unique_count ==> #[trigger] reduced_indptr@[b + 1] == bucket_count(
                    run_ids(kept(rows@, keep_s, i as int)),
                    b,
                ),
            reduced_data@ == kept(data@, keep_s, i as int),
            reduced_col_indices@ == kept(cols@, keep_s, i as int),
            unique_rows@ == dedup(kept(rows@, keep_s, i as int)),
            current_reduced_row == dedup(kept(rows@, keep_s, i as int)).len() - 1,
            have_seen_any == (kept(rows@, keep_s, i as int).len() > 0),
            have_seen_any ==> last == kept(rows@, keep_s, i as int).last(),
            kept(rows@, keep_s, i as int).len() <= i,
        decreases nnz - i,
    {
        let ghost kr = kept(rows@, keep_s, i as int);
        proof {
            lemma_dedup_len_mono(rows@, keep_s, i + 1, nnz as int);
            lemma_dedup_len_le(kr);
            lemma_dedup_push(kr, rows@[i as int]);
            lemma_run_ids_facts(kr);
            lemma_run_ids_facts(kr.push(rows@[i as int]));
        }
        if keep[i] {
            proof {
                lemma_dedup_push(kr, rows@[i as int]);
                assert(kept(rows@, keep_s, i + 1) == kr.push(rows@[i as int]));
                assert(run_ids(kr.push(rows@[i as int])) == run_ids(kr).push(
                    dedup(kr.push(rows@[i as int])).len() - 1,
                )) by {
                    assert(kr.push(rows@[i as int]).drop_last() =~= kr);
                }
            }
            if !have_seen_any || rows[i] != last {
                current_reduced_row = current_reduced_row + 1;
                unique_rows.push(rows[i]);
                last = rows[i];
                have_seen_any = true;
            }
            reduced_data.push(data[i]);
            reduced_col_indices.push(cols[i]);
            assert(current_reduced_row == dedup(kr.push(rows@[i as int])).len() - 1);
            assert(0 <= current_reduced_row < unique_count);
            let slot = current_reduced_row as usize + 1;
            proof {
                let ids = run_ids(kr);
                lemma_counts_bounded(ids, current_reduced_row as int);
                assert(ids.len() == kr.len());
                assert(reduced_indptr@[slot as int] == bucket_count(ids, current_reduced_row as int));
            }
            let count = reduced_indptr[slot];
            reduced_indptr.set(slot, count + 1);
            proof {
                let ids = run_ids(kr);
                assert forall|b: int| 0 <= b < unique_count implies #[trigger] reduced_indptr@[b + 1]
                    == bucket_count(run_ids(kept(rows@, keep_s, i + 1)), b) by {
                    lemma_bucket_extend(ids, current_reduced_row as int, b);
                }
            }
        }
        i = i + 1;
    }
    proof {
        assert(kept(rows@, keep_s, nnz as int) == kr_all);
        lemma_run_ids_facts(kr_all);
        lemma_kept_len(rows@, data@, keep_s, nnz as int);
        lemma_kept_len(rows@, cols@, keep_s, nnz as int);
        lemma_counts_bounded(ids_all, unique_count as int);
        lemma_prefix_sums_count_below(ids_all, reduced_indptr@, unique_count as int);
        assert forall|c: int| 0 <= c < reduced_indptr@.len() implies 0 <= #[trigger] reduced_indptr@[c] by {
            if c > 0 {
                assert(reduced_indptr@[(c - 1) + 1] == bucket_count(ids_all, c - 1));
            }
        }
    }
    let ghost counts = reduced_indptr@;
    cumulative_sum_in_place(&mut reduced_indptr);
    proof {
        assert forall|c: int| 0 <= c <= unique_count implies #[trigger] reduced_indptr@[c] == below_count(ids_all, c) by {
            lemma_prefix_sums_count_below(ids_all, counts, c);
        }
        lemma_below_all(ids_all, unique_count as int);
    }

    // Sort each row's entries by column.
    let ghost kc0 = reduced_col_indices@;
    let ghost kd0 = reduced_data@;
    let total = reduced_col_indices.len();
    let mut r: usize = 0;
    while r < unique_count
        invariant
            r <= unique_count,
            unique_count == u_all.len(),
            total == kc0.len(),
            kc0 == kc_all,
            kd0 == kd_all,
            kc0.len() == kr_all.len(),
            kd0.len() == kr_all.len(),
            ids_all == run_ids(kr_all),
            ids_all.len() == kr_all.len(),
            forall|k: int| 0 <= k < ids_all.len() ==> 0 <= #[trigger] ids_all[k] < unique_count,
            reduced_indptr@.len() == unique_count + 1,
            forall|c: int| 0 <= c <= unique_count ==> #[trigger] reduced_indptr@[c] == below_count(ids_all, c),
            reduced_col_indices@.len() == kc0.len(),
            reduced_data@.len() == kd0.len(),
            forall|q: int|
                0 <= q < r ==> segment_sorted_permutation(
                    reduced_col_indices@,
                    reduced_data@,
                    kc0,
                    kd0,
                    #[trigger] reduced_indptr@[q] as int,
                    reduced_indptr@[q + 1] as int,
                ),
            forall|k: int|
                below_count(ids_all, r as int) <= k < kc0.len() ==> {
                    &&& #[trigger] reduced_col_indices@[k] == kc0[k]
                    &&& reduced_data@[k] == kd0[k]
                },
        decreases unique_count - r,
    {
        proof {
            lemma_below_mono(ids_all, r as int, r + 1);
            lemma_below_mono(ids_all, r + 1, unique_count as int);
            lemma_counts_bounded(ids_all, r as int);
            lemma_counts_bounded(ids_all, r + 1);
        }
        assert(reduced_indptr@[r as int] == below_count(ids_all, r as int));
        assert(reduced_indptr@[r + 1] == below_count(ids_all, r + 1));
        let start = reduced_indptr[r] as usize;
        let end = reduced_indptr[r + 1] as usize;
        let ghost cols_before = reduced_col_indices@;
        let ghost data_before = reduced_data@;
        assert(0 <= reduced_indptr@[r as int] <= reduced_indptr@[r + 1] <= kc0.len());
        assert(start as int == reduced_indptr@[r as int]);
        assert(end as int == reduced_indptr@[r + 1]);
        assert forall|k: int| start <= k < kc0.len() implies (#[trigger] cols_before[k] == kc0[k] && data_before[k] == kd0[k]) by {
            assert(reduced_col_indices@[k] == kc0[k]);
            assert(reduced_data@[k] == kd0[k]);
        }
        if end - start > 1 {
            let len = end - start;
            let mut keys: Vec<i64> = Vec::with_capacity(len);
            let mut t: usize = 0;
            while t < len
                invariant
                    t <= len,
                    len == end - start,
                    end <= reduced_col_indices@.len(),
                    reduced_col_indices@ == cols_before,
                    reduced_data@ == data_before,
                    keys@.len() == t,
                    forall|j: int| 0 <= j < t ==> #[trigger] keys@[j] == reduced_col_indices@[start + j],
                decreases len - t,
            {
                keys.push(reduced_col_indices[start + t]);
                t = t + 1;
            }
            let ident = identity_order(len);
            let mut perm = identity_order(len);
            assert(ident@ =~= perm@);
            sort_order_by_key(&mut perm, keys.as_slice());
            proof {
                lemma_reordered_identity_is_permutation(ident@, perm@);
            }
            let mut cols_copy: Vec<i64> = Vec::with_capacity(len);
            let mut data_copy: Vec<V> = Vec::with_capacity(len);
            t = 0;
            while t < len
                invariant
                    t <= len,
                    len == end - start,
                    end <= reduced_col_indices@.len(),
                    reduced_data@.len() == reduced_col_indices@.len(),
                    reduced_col_indices@ == cols_before,
                    reduced_data@ == data_before,
                    keys@.len() == len,
                    forall|j: int| 0 <= j < len ==> #[trigger] keys@[j] == reduced_col_indices@[start + j],
                    is_permutation(perm@, len as int),
                    cols_copy@.len() == t,
                    data_copy@.len() == t,
                    forall|j: int| 0 <= j < t ==> #[trigger] cols_copy@[j] == keys@[perm@[j] as int],
                    forall|j: int| 0 <= j < t ==> #[trigger] data_copy@[j] == reduced_data@[start + perm@[j] as int],
                decreases len - t,
            {
                let p = perm[t];
                cols_copy.push(keys[p]);
                data_copy.push(reduced_data[start + p]);
                t = t + 1;
            }
            t = 0;
            while t < len
                invariant
                    t <= len,
                    len == end - start,
                    end <= cols_before.len(),
                    cols_before.len() == data_before.len(),
                    reduced_col_indices@.len() == cols_before.len(),
                    reduced_data@.len() == data_before.len(),
                    cols_copy@.len() == len,
                    data_copy@.len() == len,
                    forall|j: int| 0 <= j < t ==> #[trigger] reduced_col_indices@[start + j] == cols_copy@[j],
                    forall|j: int| 0 <= j < t ==> #[trigger] reduced_data@[start + j] == data_copy@[j],
                    forall|k: int|
                        0 <= k < cols_before.len() && !(start + t <= k < end) && !(start <= k < start + t) ==> {
                            &&& #[trigger] reduced_col_indices@[k] == cols_before[k]
                            &&& reduced_data@[k] == data_before[k]
                        },
                    forall|k: int|
                        start + t <= k < end ==> {
                            &&& #[trigger] reduced_col_indices@[k] == cols_before[k]
                            &&& reduced_data@[k] == data_before[k]
                        },
                decreases len - t,
            {
                let ghost c1 = reduced_col_indices@;
                let ghost d1 = reduced_data@;
                reduced_col_indices.set(start + t, cols_copy[t]);
                reduced_data.set(start + t, data_copy[t]);
                proof {
                    assert forall|k: int| start + t + 1 <= k < end implies {
                        &&& #[trigger] reduced_col_indices@[k] == cols_before[k]
                        &&& reduced_data@[k] == data_before[k]
                    } by {
                        assert(reduced_col_indices@[k] == c1[k]);
                        assert(reduced_data@[k] == d1[k]);
                    }
                }
                t = t + 1;
            }
            proof {
                assert forall|a: int, b: int| start <= a <= b < end implies reduced_col_indices@[a]
                    <= reduced_col_indices@[b] by {
                    assert(reduced_col_indices@[start + (a - start)] == cols_copy@[a - start]);
                    assert(reduced_col_indices@[start + (b - start)] == cols_copy@[b - start]);
                    assert(keys@[perm@[a - start] as int] <= keys@[perm@[b - start] as int]);
                }
                let ss = start as int;
                let ee = end as int;
                let cc = reduced_col_indices@;
                let dd = reduced_data@;
                let sp = perm@;
                assert forall|t2: int| 0 <= t2 < ee - ss implies #[trigger] placed_from(cc, dd, kc0, kd0, ss, sp, t2) by {
                    let p = perm@[t2] as int;
                    assert(0 <= p < len);
                    assert(reduced_col_indices@[start + t2] == cols_copy@[t2]);
                    assert(reduced_data@[start + t2] == data_copy@[t2]);
                    assert(cols_copy@[t2] == keys@[p]);
                    assert(keys@[p] == cols_before[start + p]);
                    assert(data_copy@[t2] == data_before[start + p]);
                    assert(cols_before[start + p] == kc0[start + p]);
                    assert(data_before[start + p] == kd0[start + p]);
                }
                assert(is_permutation(sp, ee - ss));
                lemma_segment_witness(cc, dd, kc0, kd0, ss, ee, sp);
                assert forall|k: int| 0 <= k < cols_before.len() && !(start <= k < end) implies {
                    &&& #[trigger] reduced_col_indices@[k] == cols_before[k]
                    &&& reduced_data@[k] == data_before[k]
                } by {
                }
            }
        } else {
            proof {
                assert forall|k: int| start <= k < end implies (#[trigger] reduced_col_indices@[k] == kc0[k] && reduced_data@[k] == kd0[k]) by {
                    assert(cols_before[k] == kc0[k]);
                    assert(data_before[k] == kd0[k]);
                }
                let cc = reduced_col_indices@;
                let dd = reduced_data@;
                let ss = start as int;
                let ee = end as int;
                assert(ss <= ee <= ss + 1);
                assert forall|k: int| ss <= k < ee implies #[trigger] cc[k] == kc0[k] by {
                    assert(cols_before[k] == kc0[k]);
                }
                assert forall|k: int| ss <= k < ee implies #[trigger] dd[k] == kd0[k] by {
                    assert(cols_before[k] == kc0[k]);
                }
                lemma_short_segment(cc, dd, kc0, kd0, ss, ee);
            }
        }
        proof {
            assert forall|k: int| end <= k < kc0.len() implies {
                &&& #[trigger] reduced_col_indices@[k] == kc0[k]
                &&& reduced_data@[k] == kd0[k]
            } by {
                assert(reduced_col_indices@[k] == cols_before[k]);
                assert(reduced_data@[k] == data_before[k]);
                assert(cols_before[k] == kc0[k] && data_before[k] == kd0[k]);
            }
            assert forall|q: int| 0 <= q < r + 1 implies segment_sorted_permutation(
                reduced_col_indices@,
                reduced_data@,
                kc0,
                kd0,
                #[trigger] reduced_indptr@[q] as int,
                reduced_indptr@[q + 1] as int,
            ) by {
                if q < r {
                    lemma_below_mono(ids_all, q + 1, r as int);
                    lemma_below_mono(ids_all, q, q + 1);
                    assert forall|k: int| reduced_indptr@[q] as int <= k < reduced_indptr@[q + 1] as int implies
                        reduced_col_indices@[k] == cols_before[k] && reduced_data@[k] == data_before[k] by {
                        assert(reduced_col_indices@[k] == cols_before[k]);
                    }
                    lemma_segment_frame(
                        cols_before,
                        data_before,
                        reduced_col_indices@,
                        reduced_data@,
                        kc0,
                        kd0,
                        reduced_indptr@[q] as int,
                        reduced_indptr@[q + 1] as int,
                        start as int,
                    );
                }
            }
        }
        r = r + 1;
    }
    let reduced_shape = (unique_count, num_param_slices);

    // The final problem-data index.
    let n_cols = if quad_form { var_length } else { var_length + 1 };
    let n_constr = big_m / n_cols;
    let final_shape = (n_constr, n_cols);
    let n_constr_i64 = n_constr as i64;
    let ghost groups = Seq::new(u_all.len(), |k: int| (u_all[k] as int) / (n_constr as int));
    proof {
        lemma_dedup_elements(kr_all);
        lemma_kept_fit(data@, rows@, keep_s, shape.0, var_length, quad_form, nnz as int);
    }
    let mut final_indices: Vec<i64> = Vec::with_capacity(unique_count);
    let mut final_indptr: Vec<i64> = zeros(n_cols + 1);
    let mut k: usize = 0;
    while k < unique_count
        invariant
            k <= unique_count,
            unique_count == u_all.len(),
            unique_rows@ == u_all,
            n_constr_i64 == n_constr,
            n_constr <= i64::MAX,
            n_cols == n_cols_spec(var_length, quad_form),
            n_constr == n_constr_spec(shape.0, var_length, quad_form),
            forall|j: int| 0 <= j < u_all.len() ==> 0 <= #[trigger] u_all[j] < n_constr * n_cols,
            groups == Seq::new(u_all.len(), |q: int| (u_all[q] as int) / (n_constr as int)),
            unique_count <= i64::MAX,
            final_indices@ == Seq::new(k as nat, |q: int| ((u_all[q] as int) % (n_constr as int)) as i64),
            final_indptr@.len() == n_cols + 1,
            final_indptr@[0] == 0,
            forall|b: int| 0 <= b < n_cols ==> #[trigger] final_indptr@[b + 1] == bucket_count(groups.subrange(0, k as int), b),
        decreases unique_count - k,
    {
        let nr = unique_rows[k];
        proof {
            assert(0 <= nr < n_constr * n_cols);
            assert(n_constr > 0);
            assert((nr as int) / (n_constr as int) < n_cols) by (nonlinear_arith)
                requires 0 <= nr < n_constr * n_cols, n_constr > 0;
            lemma_counts_bounded(groups.subrange(0, k as int), (nr as int) / (n_constr as int));
        }
        let col = (nr / n_constr_i64) as usize;
        let idx = nr % n_constr_i64;
        final_indices.push(idx);
        let count = final_indptr[col + 1];
        final_indptr.set(col + 1, count + 1);
        proof {
            assert(groups.subrange(0, k + 1) =~= groups.subrange(0, k as int).push(groups[k as int]));
            assert forall|b: int| 0 <= b < n_cols implies #[trigger] final_indptr@[b + 1]
                == bucket_count(groups.subrange(0, k + 1), b) by {
                lemma_bucket_extend(groups.subrange(0, k as int), groups[k as int], b);
            }
            assert(final_indices@ =~= Seq::new((k + 1) as nat, |q: int| ((u_all[q] as int) % (n_constr as int)) as i64));
        }
        k = k + 1;
    }
    proof {
        assert(groups.subrange(0, unique_count as int) =~= groups);
        assert forall|j: int| 0 <= j < groups.len() implies 0 <= #[trigger] groups[j] < n_cols by {
            assert(0 <= (u_all[j] as int) / (n_constr as int) < n_cols) by (nonlinear_arith)
                requires 0 <= u_all[j] < n_constr * n_cols, n_constr > 0;
        }
        lemma_counts_bounded(groups, n_cols as int);
        lemma_prefix_sums_count_below(groups, final_indptr@, n_cols as int);
        assert forall|c: int| 0 <= c < final_indptr@.len() implies 0 <= #[trigger] final_indptr@[c] by {
            if c > 0 {
                assert(final_indptr@[(c - 1) + 1] == bucket_count(groups, c - 1));
            }
        }
    }
    let ghost fcounts = final_indptr@;
    cumulative_sum_in_place(&mut final_indptr);
    proof {
        assert forall|c: int| 0 <= c <= n_cols implies #[trigger] final_indptr@[c] == below_count(groups, c) by {
            lemma_prefix_sums_count_below(groups, fcounts, c);
        }
    }
    let result = ReducedMatrix {
        reduced_data,
        reduced_col_indices,
        reduced_indptr,
        reduced_shape,
        final_indices,
        final_indptr,
        final_shape,
    };
    proof {
        assert(is_reduction(result, data@, rows@, cols@, keep_s, shape, var_length, quad_form));
    }
    result
}

/// A vector of `n` zeros.
fn zeros(n: usize) -> (v: Vec<i64>)
    ensures
        v@.len() == n,
        forall|k: int| 0 <= k < n ==> #[trigger] v@[k] == 0,
{
    let mut v: Vec<i64> = Vec::with_capacity(n);
    let mut i: usize = 0;
    while i < n
        invariant
            i <= n,
            v@.len() == i,
            forall|k: int| 0 <= k < i ==> #[trigger] v@[k] == 0,
        decreases n - i,
    {
        v.push(0);
        i = i + 1;
    }
    v
}

/// Flags beyond `i` do not change what is kept among the first `i`.
proof fn lemma_kept_prefix_stable<T>(vals: Seq<T>, keep: Seq<bool>, keep2: Seq<bool>, i: int)
    requires
        0 <= i <= keep.len() <= keep2.len(),
        keep == keep2.subrange(0, keep.len() as int),
    ensures
        kept(vals, keep, i) == kept(vals, keep2, i),
    decreases i,
{
    if i > 0 {
        lemma_kept_prefix_stable(vals, keep, keep2, i - 1);
        assert(keep[i - 1] == keep2[i - 1]);
    }
}

/// Kept sequences of parallel vectors have the same length.
proof fn lemma_kept_len<T, U>(a: Seq<T>, b: Seq<U>, keep: Seq<bool>, i: int)
    ensures
        kept(a, keep, i).len() == kept(b, keep, i).len(),
    decreases i,
{
    if i > 0 {
        lemma_kept_len(a, b, keep, i - 1);
    }
}

/// Appending to `s` adds a run exactly when the new element differs from
/// the last one.
pub proof fn lemma_dedup_push(s: Seq<i64>, x: i64)
    ensures
        dedup(s.push(x)) == if s.len() == 0 || x != s.last() {
            dedup(s).push(x)
        } else {
            dedup(s)
        },
{
    assert(s.push(x).drop_last() =~= s);
    if s.len() > 0 {
        assert(s.push(x)[s.push(x).len() - 2] == s.last());
    }
}

/// There are no more runs than elements.
proof fn lemma_dedup_len_le(s: Seq<i64>)
    ensures
        dedup(s).len() <= s.len(),
    decreases s.len(),
{
    if s.len() > 0 {
        lemma_dedup_len_le(s.drop_last());
    }
}

/// The number of runs never shrinks as more entries are read.
proof fn lemma_dedup_len_mono(rows: Seq<i64>, keep: Seq<bool>, i: int, j: int)
    requires
        0 <= i <= j,
    ensures
        dedup(kept(rows, keep, i)).len() <= dedup(kept(rows, keep, j)).len(),
    decreases j - i,
{
    if i < j {
        lemma_dedup_len_mono(rows, keep, i, j - 1);
        if keep[j - 1] {
            lemma_dedup_push(kept(rows, keep, j - 1), rows[j - 1]);
        }
    }
}

/// Run ids lie in `0..dedup(s).len()`, one per element.
proof fn lemma_run_ids_facts(s: Seq<i64>)
    ensures
        run_ids(s).len() == s.len(),
        forall|k: int| 0 <= k < s.len() ==> 0 <= #[trigger] run_ids(s)[k] < dedup(s).len(),
        s.len() > 0 ==> dedup(s).len() > 0,
    decreases s.len(),
{
    if s.len() > 0 {
        let p = s.drop_last();
        lemma_run_ids_facts(p);
        assert(s == p.push(s.last()));
        lemma_dedup_push(p, s.last());
        assert forall|k: int| 0 <= k < s.len() implies 0 <= #[trigger] run_ids(s)[k] < dedup(s).len() by {
            if k < p.len() {
                assert(run_ids(s)[k] == run_ids(p)[k]);
            }
        }
    }
}

/// Every element of `dedup(s)` is an element of `s`.
pub proof fn lemma_dedup_elements_pub(s: Seq<i64>)
    ensures
        forall|k: int| 0 <= k < dedup(s).len() ==> s.contains(#[trigger] dedup(s)[k]),
{
    lemma_dedup_elements(s);
}

/// Every element of `dedup(s)` is an element of `s`.
proof fn lemma_dedup_elements(s: Seq<i64>)
    ensures
        forall|k: int| 0 <= k < dedup(s).len() ==> s.contains(#[trigger] dedup(s)[k]),
    decreases s.len(),
{
    if s.len() > 0 {
        let p = s.drop_last();
        lemma_dedup_elements(p);
        lemma_dedup_push(p, s.last());
        assert(s == p.push(s.last()));
        assert forall|k: int| 0 <= k < dedup(s).len() implies s.contains(#[trigger] dedup(s)[k]) by {
            if k < dedup(p).len() {
                let x = dedup(p)[k];
                assert(p.contains(x));
                let w = choose|w: int| 0 <= w < p.len() && p[w] == x;
                assert(s[w] == x);
            } else {
                assert(s[s.len() - 1] == s.last());
            }
        }
    }
}

/// Kept rows satisfy the range condition of `rows_fit`.
proof fn lemma_kept_fit<V: Scalar>(
    data: Seq<V>,
    rows: Seq<i64>,
    keep: Seq<bool>,
    big_m: usize,
    var_length: usize,
    quad_form: bool,
    i: int,
)
    requires
        0 <= i <= data.len(),
        rows.len() >= data.len(),
        keep.len() == data.len(),
        exact::<V>() ==> forall|j: int| 0 <= j < keep.len() ==> #[trigger] keep[j] == !is_zero_spec(data[j]),
        rows_fit(data, rows, big_m, var_length, quad_form),
    ensures
        forall|k: int|
            0 <= k < kept(rows, keep, i).len() ==> 0 <= #[trigger] kept(rows, keep, i)[k]
                < n_constr_spec(big_m, var_length, quad_form) * n_cols_spec(var_length, quad_form),
    decreases i,
{
    if i > 0 {
        lemma_kept_fit(data, rows, keep, big_m, var_length, quad_form, i - 1);
        if keep[i - 1] {
            assert(exact::<V>() ==> !is_zero_spec(data[i - 1]));
            assert(row_fits(data[i - 1], rows[i - 1], big_m, var_length, quad_form));
            let prev = kept(rows, keep, i - 1);
            assert(kept(rows, keep, i) == prev.push(rows[i - 1]));
            let d = data[i - 1];
            assert(0 <= rows[i - 1] < n_constr_spec(big_m, var_length, quad_form) * n_cols_spec(var_length, quad_form));
            assert forall|k: int| 0 <= k < kept(rows, keep, i).len() implies 0 <= #[trigger] kept(rows, keep, i)[k]
                < n_constr_spec(big_m, var_length, quad_form) * n_cols_spec(var_length, quad_form) by {
                if k < prev.len() {
                    assert(kept(rows, keep, i)[k] == prev[k]);
                }
            }
        }
    }
}

/// `below_count` grows with its bound.
proof fn lemma_below_mono(ids: Seq<int>, a: int, b: int)
    requires
        a <= b,
    ensures
        below_count(ids, a) <= below_count(ids, b),
    decreases ids.len(),
{
    if ids.len() > 0 {
        lemma_below_mono(ids.drop_last(), a, b);
    }
}

/// A segment of at most one entry, left as it was, is sorted.
proof fn lemma_short_segment<V>(
    cols: Seq<i64>,
    data: Seq<V>,
    cols0: Seq<i64>,
    data0: Seq<V>,
    s: int,
    e: int,
)
    requires
        s <= e <= s + 1,
        forall|k: int| s <= k < e ==> #[trigger] cols[k] == cols0[k],
        forall|k: int| s <= k < e ==> #[trigger] data[k] == data0[k],
    ensures
        segment_sorted_permutation(cols, data, cols0, data0, s, e),
{
    let sp: Seq<usize> = Seq::new((e - s) as nat, |t: int| t as usize);
    assert(is_permutation(sp, e - s));
    assert forall|t: int| 0 <= t < e - s implies #[trigger] placed_from(cols, data, cols0, data0, s, sp, t) by {
        assert(sp[t] as int == t);
    }
}

/// Writing only at positions at or after `w` keeps a sorted segment that
/// ends at or before `w`.
proof fn lemma_segment_frame<V>(
    cols_before: Seq<i64>,
    data_before: Seq<V>,
    cols: Seq<i64>,
    data: Seq<V>,
    cols0: Seq<i64>,
    data0: Seq<V>,
    s: int,
    e: int,
    w: int,
)
    requires
        e <= w,
        segment_sorted_permutation(cols_before, data_before, cols0, data0, s, e),
        forall|k: int| s <= k < e ==> cols[k] == cols_before[k] && data[k] == data_before[k],
    ensures
        segment_sorted_permutation(cols, data, cols0, data0, s, e),
{
    let sp = choose|sp: Seq<usize>|
        #![trigger is_permutation(sp, e - s)]
        is_permutation(sp, e - s) && forall|t: int|
            0 <= t < e - s ==> #[trigger] placed_from(cols_before, data_before, cols0, data0, s, sp, t);
    assert forall|t: int| 0 <= t < e - s implies #[trigger] placed_from(cols, data, cols0, data0, s, sp, t) by {
        assert(placed_from(cols_before, data_before, cols0, data0, s, sp, t));
    }
}

} // verus!
