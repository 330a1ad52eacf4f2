//! Where the entries of a product come from.
//!
//! Each law below takes an arbitrary entry of a lowered product and names
//! the argument entry and the operand element it is made of, in terms of
//! the inputs alone: which element of the operand multiplies which entry of
//! the argument, the row the product lands in, and the parameter slice it
//! keeps.
use vstd::prelude::*;
use crate::tensor::{flat_map_entries, Entry};
use crate::scalar::{is_zero_spec, Scalar};
use crate::linop::shape_size;
use crate::operations::arithmetic::{
    lmul_dense_cm_rows, lmul_dense_col_major, lmul_dense_rm_rows, lmul_dense_row_major, lmul_sparse, lmul_sparse_rows,
    rmul_dense_cm_cols, rmul_dense_col_major, rmul_dense_rm_cols, rmul_dense_row_major,
    left_dims, mul_elem_entries, param_right_cols, param_right_entries, right_dims, param_left_entries, param_left_rows, rmul_sparse, rmul_sparse_cols,
    rmul_sparse_pos, row_group,
};
use vstd::std_specs::ops::MulSpec;

verus! {

/// The slice of the product of an entry in slice `first` with an entry in
/// slice `second`: the parametric one of the two, `second` when both are.
pub open spec fn product_slice(first: i64, second: i64, const_param: i64) -> i64 {
    if first == const_param {
        second
    } else if second == const_param {
        first
    } else {
        second
    }
}

/// The flat position of `A[ii, c]` in a column-major `A` of `a_rows` rows.
pub open spec fn col_major_position(ii: int, c: int, a_rows: int) -> int {
    c * a_rows + ii
}

/// The flat position of `A[ii, c]` in a row-major `A` of `a_cols` columns.
pub open spec fn row_major_position(ii: int, c: int, a_cols: int) -> int {
    ii * a_cols + c
}

/// Every entry of a concatenation of images is an element of the image of
/// some entry.
pub proof fn lemma_flat_map_source<V>(es: Seq<Entry<V>>, f: spec_fn(Entry<V>) -> Seq<Entry<V>>, q: int)
    requires
        0 <= q < flat_map_entries(es, f).len(),
    ensures
        exists|i: int, j: int|
            #![trigger f(es[i])[j]]
            0 <= i < es.len() && 0 <= j < f(es[i]).len() && flat_map_entries(es, f)[q] == f(es[i])[j],
    decreases es.len(),
{
    let p = es.drop_last();
    let fm = flat_map_entries(p, f);
    let img = f(es.last());
    assert(flat_map_entries(es, f) == fm + img);
    if q < fm.len() {
        lemma_flat_map_source(p, f, q);
        let (i, j) = choose|i: int, j: int|
            #![trigger f(p[i])[j]]
            0 <= i < p.len() && 0 <= j < f(p[i]).len() && fm[q] == f(p[i])[j];
        assert(p[i] == es[i]);
        assert(f(es[i])[j] == fm[q]);
    } else {
        let i = es.len() - 1;
        let j = q - fm.len();
        assert(es.last() == es[i]);
        assert(f(es[i])[j] == flat_map_entries(es, f)[q]);
    }
}

/// Every element of a row group is the value and slice of an entry in that
/// row.
pub proof fn lemma_row_group_source<V>(es: Seq<Entry<V>>, r: int, k: int, t: int)
    requires
        0 <= t < row_group(es, r, k).len(),
    ensures
        exists|s: int| #![trigger es[s]] 0 <= s < k && es[s].1 == r && row_group(es, r, k)[t] == (es[s].0, es[s].3),
    decreases k,
{
    if k > 0 {
        let prev = row_group(es, r, k - 1);
        if t < prev.len() {
            lemma_row_group_source(es, r, k - 1, t);
            let s = choose|s: int| #![trigger es[s]] 0 <= s < k - 1 && es[s].1 == r && prev[t] == (es[s].0, es[s].3);
            assert(row_group(es, r, k)[t] == prev[t]);
        } else {
            assert(es[k - 1].1 == r);
            assert(row_group(es, r, k)[t] == (es[k - 1].0, es[k - 1].3));
        }
    }
}

/// Elementwise product, law of each entry: it is the product of an entry of
/// the argument and an entry of the operand lying in the row the argument
/// entry reads (the operand's single row when it has one element), placed
/// at the argument entry's row and column, in the parametric slice of the
/// two (an argument entry in a parameter slice keeps it against a constant
/// operand entry).
pub proof fn law_mul_elem_entry<V: Scalar>(
    args: Seq<Entry<V>>,
    data: Seq<Entry<V>>,
    data_size: int,
    const_param: i64,
    q: int,
)
    requires
        0 <= q < mul_elem_entries(args, data, data_size, const_param).len(),
    ensures
        exists|i: int, s: int|
            #![trigger args[i], data[s]]
            0 <= i < args.len() && 0 <= s < data.len() && data[s].1 == (if data_size == 1 {
                0
            } else {
                args[i].1 as int
            }) && mul_elem_entries(args, data, data_size, const_param)[q] == (
                args[i].0.mul_spec(data[s].0),
                args[i].1,
                args[i].2,
                product_slice(args[i].3, data[s].3, const_param),
            ),
{
    let f = crate::operations::arithmetic::mul_elem_fn(data, data_size, const_param);
    lemma_flat_map_source(args, f, q);
    let (i, j) = choose|i: int, j: int|
        #![trigger f(args[i])[j]]
        0 <= i < args.len() && 0 <= j < f(args[i]).len() && flat_map_entries(args, f)[q] == f(args[i])[j];
    let e = args[i];
    let data_row = if data_size == 1 {
        0
    } else {
        e.1 as int
    };
    assert(data_row < data_size);
    let g = row_group(data, data_row, data.len() as int);
    lemma_row_group_source(data, data_row, data.len() as int, j);
    let s = choose|s: int|
        #![trigger data[s]]
        0 <= s < data.len() && data[s].1 == data_row && g[j] == (data[s].0, data[s].3);
    assert(f(e)[j] == (e.0.mul_spec(data[s].0), (e.1 as int) as i64, e.2, product_slice(e.3, data[s].3, const_param)));
}

/// One argument entry's image under a parametric `kron(I, A)`: each entry
/// comes from a row `ii` of `A` and the lowered element of `A` at the
/// column-major position of `A[ii, c]`, `c` the argument entry's column of
/// `A` (its row modulo the columns of `A`).
proof fn lemma_param_left_rows_source<V: Scalar>(
    lhs: Seq<Entry<V>>,
    lhs_size: int,
    a_rows: int,
    a_cols: int,
    const_param: i64,
    e: Entry<V>,
    k: int,
    j: int,
)
    requires
        0 <= j < param_left_rows(lhs, lhs_size, a_rows, a_cols, const_param, e, k).len(),
    ensures
        exists|ii: int, s: int|
            #![trigger lhs[s], col_major_position(ii, (e.1 as int) % a_cols, a_rows)]
            0 <= ii < k && 0 <= s < lhs.len() && lhs[s].1 == col_major_position(ii, (e.1 as int) % a_cols, a_rows) && param_left_rows(
                lhs,
                lhs_size,
                a_rows,
                a_cols,
                const_param,
                e,
                k,
            )[j] == (
                lhs[s].0.mul_spec(e.0),
                (((e.1 as int) / a_cols) * a_rows + ii) as i64,
                e.2,
                product_slice(e.3, lhs[s].3, const_param),
            ),
    decreases k,
{
    if k > 0 {
        let prev = param_left_rows(lhs, lhs_size, a_rows, a_cols, const_param, e, k - 1);
        let cur = param_left_rows(lhs, lhs_size, a_rows, a_cols, const_param, e, k);
        let ii = k - 1;
        let flat = ((e.1 as int) % a_cols) * a_rows + ii;
        if j < prev.len() {
            lemma_param_left_rows_source(lhs, lhs_size, a_rows, a_cols, const_param, e, k - 1, j);
            let (i2, s) = choose|i2: int, s: int|
                #![trigger lhs[s], col_major_position(i2, (e.1 as int) % a_cols, a_rows)]
                0 <= i2 < k - 1 && 0 <= s < lhs.len() && lhs[s].1 == col_major_position(i2, (e.1 as int) % a_cols, a_rows) && prev[j]
                    == (
                    lhs[s].0.mul_spec(e.0),
                    (((e.1 as int) / a_cols) * a_rows + i2) as i64,
                    e.2,
                    product_slice(e.3, lhs[s].3, const_param),
                );
            assert(cur[j] == prev[j]);
        } else {
            assert(flat < lhs_size);
            let g = row_group(lhs, flat, lhs.len() as int);
            let jj = j - prev.len();
            assert(cur[j] == crate::operations::arithmetic::group_image(
                g,
                e,
                ((e.1 as int) / a_cols) * a_rows + ii,
                const_param,
                true,
            )[jj]);
            lemma_row_group_source(lhs, flat, lhs.len() as int, jj);
            let s = choose|s: int| #![trigger lhs[s]] 0 <= s < lhs.len() && lhs[s].1 == flat && g[jj] == (lhs[s].0, lhs[s].3);
            assert(cur[j] == (
                lhs[s].0.mul_spec(e.0),
                (((e.1 as int) / a_cols) * a_rows + ii) as i64,
                e.2,
                product_slice(e.3, lhs[s].3, const_param),
            ));
            assert(lhs[s].1 == col_major_position(ii, (e.1 as int) % a_cols, a_rows));
        }
    }
}

/// Parametric left product `A @ X`, law of each entry: with `A` of
/// `a_rows x a_cols` lowered to `lhs` (element `A[ii, c]` at flat row
/// `c * a_rows + ii`, column-major), an entry of the product is an argument
/// entry in row `b * a_cols + c` times the lowered element of `A[ii, c]`,
/// placed at row `b * a_rows + ii`, in the argument entry's column and the
/// parametric slice of the two.
pub proof fn law_param_left_entry<V: Scalar>(
    lhs: Seq<Entry<V>>,
    lhs_shape: Seq<usize>,
    const_param: i64,
    es: Seq<Entry<V>>,
    q: int,
)
    requires
        0 <= q < param_left_entries(lhs, lhs_shape, const_param, es).len(),
    ensures
        ({
            let (a_rows, a_cols) = left_dims(lhs_shape);
            exists|i: int, ii: int, s: int|
                #![trigger es[i], lhs[s], col_major_position(ii, (es[i].1 as int) % a_cols, a_rows)]
                0 <= i < es.len() && 0 <= ii < a_rows && 0 <= s < lhs.len() && lhs[s].1 == col_major_position(ii, (es[i].1 as int) % a_cols, a_rows) && param_left_entries(lhs, lhs_shape, const_param, es)[q] == (
                    lhs[s].0.mul_spec(es[i].0),
                    (((es[i].1 as int) / a_cols) * a_rows + ii) as i64,
                    es[i].2,
                    product_slice(es[i].3, lhs[s].3, const_param),
                )
        }),
{
    let (a_rows, a_cols) = left_dims(lhs_shape);
    let f = crate::operations::arithmetic::param_left_fn(lhs, shape_size(lhs_shape), a_rows, a_cols, const_param);
    lemma_flat_map_source(es, f, q);
    let (i, j) = choose|i: int, j: int|
        #![trigger f(es[i])[j]]
        0 <= i < es.len() && 0 <= j < f(es[i]).len() && flat_map_entries(es, f)[q] == f(es[i])[j];
    lemma_param_left_rows_source(lhs, shape_size(lhs_shape), a_rows, a_cols, const_param, es[i], a_rows, j);
    let (ii, s) = choose|ii: int, s: int|
        #![trigger lhs[s], col_major_position(ii, (es[i].1 as int) % a_cols, a_rows)]
        0 <= ii < a_rows && 0 <= s < lhs.len() && lhs[s].1 == col_major_position(ii, (es[i].1 as int) % a_cols, a_rows)
            && f(es[i])[j] == (
            lhs[s].0.mul_spec(es[i].0),
            (((es[i].1 as int) / a_cols) * a_rows + ii) as i64,
            es[i].2,
            product_slice(es[i].3, lhs[s].3, const_param),
        );
}

/// The stored elements `lo..hi` of column `j` of a CSC `A` send an entry of
/// `vec(X)` in row `r` to output row `j * k + r % k`, each through an
/// element in row `r / k` (the column of `X` the entry lies in).
proof fn lemma_rmul_pos_source<V: Scalar>(
    values: Seq<V>,
    row_indices: Seq<i64>,
    k: int,
    e: Entry<V>,
    j: int,
    lo: int,
    hi: int,
    p: int,
)
    requires
        0 <= p < rmul_sparse_pos(values, row_indices, k, e, j, lo, hi).len(),
    ensures
        exists|t: int|
            #![trigger row_indices[t]]
            lo <= t < hi && row_indices[t] == (e.1 as int) / k && rmul_sparse_pos(values, row_indices, k, e, j, lo, hi)[p]
                == (values[t].mul_spec(e.0), (j * k + (e.1 as int) % k) as i64, e.2, e.3),
    decreases hi - lo,
{
    if hi > lo {
        let prev = rmul_sparse_pos(values, row_indices, k, e, j, lo, hi - 1);
        if p < prev.len() {
            lemma_rmul_pos_source(values, row_indices, k, e, j, lo, hi - 1, p);
            let t = choose|t: int|
                #![trigger row_indices[t]]
                lo <= t < hi - 1 && row_indices[t] == (e.1 as int) / k && prev[p] == (
                    values[t].mul_spec(e.0),
                    (j * k + (e.1 as int) % k) as i64,
                    e.2,
                    e.3,
                );
            assert(rmul_sparse_pos(values, row_indices, k, e, j, lo, hi)[p] == prev[p]);
        } else {
            assert(row_indices[hi - 1] == (e.1 as int) / k);
        }
    }
}

/// The image of an entry of `vec(X)` under the first `m` columns of a CSC
/// `A`: each entry comes from a column `j < m` and a stored element of it in
/// row `r / k`.
proof fn lemma_rmul_cols_source<V: Scalar>(
    values: Seq<V>,
    row_indices: Seq<i64>,
    col_indptr: Seq<i64>,
    k: int,
    e: Entry<V>,
    m: int,
    p: int,
)
    requires
        0 <= p < rmul_sparse_cols(values, row_indices, col_indptr, k, e, m).len(),
    ensures
        exists|j: int, t: int|
            #![trigger col_indptr[j], row_indices[t]]
            0 <= j < m && j < col_indptr.len() - 1 && col_indptr[j] <= t < col_indptr[j + 1] && row_indices[t] == (
            e.1 as int) / k && rmul_sparse_cols(values, row_indices, col_indptr, k, e, m)[p] == (
                values[t].mul_spec(e.0),
                (j * k + (e.1 as int) % k) as i64,
                e.2,
                e.3,
            ),
    decreases m,
{
    if m > 0 {
        let j = m - 1;
        let prev = rmul_sparse_cols(values, row_indices, col_indptr, k, e, m - 1);
        let tail = if j < col_indptr.len() - 1 {
            rmul_sparse_pos(values, row_indices, k, e, j, col_indptr[j] as int, col_indptr[j + 1] as int)
        } else {
            seq![]
        };
        let cur = rmul_sparse_cols(values, row_indices, col_indptr, k, e, m);
        assert(cur == prev + tail);
        if p < prev.len() {
            lemma_rmul_cols_source(values, row_indices, col_indptr, k, e, m - 1, p);
            let (j2, t) = choose|j2: int, t: int|
                #![trigger col_indptr[j2], row_indices[t]]
                0 <= j2 < m - 1 && j2 < col_indptr.len() - 1 && col_indptr[j2] <= t < col_indptr[j2 + 1]
                    && row_indices[t] == (e.1 as int) / k && prev[p] == (
                    values[t].mul_spec(e.0),
                    (j2 * k + (e.1 as int) % k) as i64,
                    e.2,
                    e.3,
                );
            assert(cur[p] == prev[p]);
        } else {
            assert(cur[p] == tail[p - prev.len()]);
            lemma_rmul_pos_source(
                values,
                row_indices,
                k,
                e,
                j,
                col_indptr[j] as int,
                col_indptr[j + 1] as int,
                p - prev.len(),
            );
            let t = choose|t: int|
                #![trigger row_indices[t]]
                col_indptr[j] <= t < col_indptr[j + 1] && row_indices[t] == (e.1 as int) / k && tail[p - prev.len()]
                    == (values[t].mul_spec(e.0), (j * k + (e.1 as int) % k) as i64, e.2, e.3);
        }
    }
}

/// Right product `X @ A` with `A` in CSC form, law of each entry: with `k`
/// rows of `X` (`k = out_rows / a_cols`), an entry of `vec(X @ A)` is an
/// entry of `vec(X)` in row `r` (element `X[r % k, r / k]`) times a stored
/// element of column `j` of `A` whose row is `r / k`, i.e. `A[r / k, j]`,
/// placed at row `j * k + r % k` (element `(X @ A)[r % k, j]`), in the
/// entry's column and slice.
pub proof fn law_rmul_sparse_entry<V: Scalar>(
    values: Seq<V>,
    row_indices: Seq<i64>,
    col_indptr: Seq<i64>,
    a_cols: int,
    out_rows: int,
    es: Seq<Entry<V>>,
    q: int,
)
    requires
        0 <= q < rmul_sparse(values, row_indices, col_indptr, a_cols, out_rows, es).len(),
    ensures
        ({
            let k = out_rows / a_cols;
            exists|i: int, j: int, t: int|
                #![trigger es[i], col_indptr[j], row_indices[t]]
                0 <= i < es.len() && 0 <= j < a_cols && j < col_indptr.len() - 1 && col_indptr[j] <= t
                    < col_indptr[j + 1] && row_indices[t] == (es[i].1 as int) / k && rmul_sparse(
                    values,
                    row_indices,
                    col_indptr,
                    a_cols,
                    out_rows,
                    es,
                )[q] == (values[t].mul_spec(es[i].0), (j * k + (es[i].1 as int) % k) as i64, es[i].2, es[i].3)
        }),
{
    let k = out_rows / a_cols;
    let f = crate::operations::arithmetic::rmul_sparse_fn(values, row_indices, col_indptr, a_cols, out_rows);
    lemma_flat_map_source(es, f, q);
    let (i, p) = choose|i: int, p: int|
        #![trigger f(es[i])[p]]
        0 <= i < es.len() && 0 <= p < f(es[i]).len() && flat_map_entries(es, f)[q] == f(es[i])[p];
    lemma_rmul_cols_source(values, row_indices, col_indptr, k, es[i], a_cols, p);
    let (j, t) = choose|j: int, t: int|
        #![trigger col_indptr[j], row_indices[t]]
        0 <= j < a_cols && j < col_indptr.len() - 1 && col_indptr[j] <= t < col_indptr[j + 1] && row_indices[t]
            == (es[i].1 as int) / k && f(es[i])[p] == (
            values[t].mul_spec(es[i].0),
            (j * k + (es[i].1 as int) % k) as i64,
            es[i].2,
            es[i].3,
        );
}


/// Every element of the image of an entry appears in the concatenation of
/// images.
pub proof fn lemma_flat_map_contains<V>(es: Seq<Entry<V>>, f: spec_fn(Entry<V>) -> Seq<Entry<V>>, i: int, j: int)
    requires
        0 <= i < es.len(),
        0 <= j < f(es[i]).len(),
    ensures
        exists|q: int|
            0 <= q < flat_map_entries(es, f).len() && #[trigger] flat_map_entries(es, f)[q] == f(es[i])[j],
    decreases es.len(),
{
    let p = es.drop_last();
    let fm = flat_map_entries(p, f);
    let img = f(es.last());
    assert(flat_map_entries(es, f) == fm + img);
    if i < es.len() - 1 {
        assert(p[i] == es[i]);
        lemma_flat_map_contains(p, f, i, j);
        let q = choose|q: int| 0 <= q < fm.len() && #[trigger] fm[q] == f(p[i])[j];
        assert(flat_map_entries(es, f)[q] == fm[q]);
    } else {
        assert(es.last() == es[i]);
        assert(flat_map_entries(es, f)[fm.len() + j] == img[j]);
    }
}

/// Every entry in row `r` among the first `k` contributes its value and
/// slice to the row group.
pub proof fn lemma_row_group_contains<V>(es: Seq<Entry<V>>, r: int, k: int, s: int)
    requires
        0 <= s < k <= es.len(),
        es[s].1 == r,
    ensures
        exists|t: int| 0 <= t < row_group(es, r, k).len() && #[trigger] row_group(es, r, k)[t] == (es[s].0, es[s].3),
    decreases k,
{
    let prev = row_group(es, r, k - 1);
    if s < k - 1 {
        lemma_row_group_contains(es, r, k - 1, s);
        let t = choose|t: int| 0 <= t < prev.len() && #[trigger] prev[t] == (es[s].0, es[s].3);
        assert(row_group(es, r, k)[t] == prev[t]);
    } else {
        assert(row_group(es, r, k)[prev.len() as int] == (es[s].0, es[s].3));
    }
}

/// Elementwise product, nothing is lost: every argument entry meets every
/// operand entry in the row it reads (the operand's single row when it has
/// one element), and their product appears, at the argument entry's row and
/// column, in the parametric slice of the two.
pub proof fn law_mul_elem_complete<V: Scalar>(
    args: Seq<Entry<V>>,
    data: Seq<Entry<V>>,
    data_size: int,
    const_param: i64,
    i: int,
    s: int,
)
    requires
        0 <= i < args.len(),
        0 <= s < data.len(),
        data[s].1 == (if data_size == 1 {
            0
        } else {
            args[i].1 as int
        }),
        data[s].1 < data_size,
    ensures
        exists|q: int|
            0 <= q < mul_elem_entries(args, data, data_size, const_param).len() && #[trigger] mul_elem_entries(
                args,
                data,
                data_size,
                const_param,
            )[q] == (
                args[i].0.mul_spec(data[s].0),
                args[i].1,
                args[i].2,
                product_slice(args[i].3, data[s].3, const_param),
            ),
{
    let f = crate::operations::arithmetic::mul_elem_fn(data, data_size, const_param);
    let e = args[i];
    let data_row = data[s].1 as int;
    lemma_row_group_contains(data, data_row, data.len() as int, s);
    let g = row_group(data, data_row, data.len() as int);
    let t = choose|t: int| 0 <= t < g.len() && #[trigger] g[t] == (data[s].0, data[s].3);
    assert(f(e)[t] == (e.0.mul_spec(data[s].0), (e.1 as int) as i64, e.2, product_slice(e.3, data[s].3, const_param)));
    lemma_flat_map_contains(args, f, i, t);
    let q = choose|q: int| 0 <= q < flat_map_entries(args, f).len() && #[trigger] flat_map_entries(args, f)[q] == f(args[i])[t];
    assert(mul_elem_entries(args, data, data_size, const_param)[q] == f(e)[t]);
}

/// The image of an argument entry under a parametric `kron(I, A)` holds,
/// for every row `ii < k` whose element position lies in `A`, the products
/// with that position's row group.
proof fn lemma_param_left_rows_contains<V: Scalar>(
    lhs: Seq<Entry<V>>,
    lhs_size: int,
    a_rows: int,
    a_cols: int,
    const_param: i64,
    e: Entry<V>,
    k: int,
    ii: int,
    t: int,
)
    requires
        0 <= ii < k,
        col_major_position(ii, (e.1 as int) % a_cols, a_rows) < lhs_size,
        0 <= t < row_group(lhs, col_major_position(ii, (e.1 as int) % a_cols, a_rows), lhs.len() as int).len(),
    ensures
        exists|j: int|
            0 <= j < param_left_rows(lhs, lhs_size, a_rows, a_cols, const_param, e, k).len() && #[trigger] param_left_rows(
                lhs,
                lhs_size,
                a_rows,
                a_cols,
                const_param,
                e,
                k,
            )[j] == crate::operations::arithmetic::group_image(
                row_group(lhs, col_major_position(ii, (e.1 as int) % a_cols, a_rows), lhs.len() as int),
                e,
                ((e.1 as int) / a_cols) * a_rows + ii,
                const_param,
                true,
            )[t],
    decreases k,
{
    let prev = param_left_rows(lhs, lhs_size, a_rows, a_cols, const_param, e, k - 1);
    let cur = param_left_rows(lhs, lhs_size, a_rows, a_cols, const_param, e, k);
    if ii < k - 1 {
        lemma_param_left_rows_contains(lhs, lhs_size, a_rows, a_cols, const_param, e, k - 1, ii, t);
        let j = choose|j: int|
            0 <= j < prev.len() && #[trigger] prev[j] == crate::operations::arithmetic::group_image(
                row_group(lhs, col_major_position(ii, (e.1 as int) % a_cols, a_rows), lhs.len() as int),
                e,
                ((e.1 as int) / a_cols) * a_rows + ii,
                const_param,
                true,
            )[t];
        assert(cur[j] == prev[j]);
    } else {
        assert(cur[prev.len() + t] == crate::operations::arithmetic::group_image(
            row_group(lhs, col_major_position(ii, (e.1 as int) % a_cols, a_rows), lhs.len() as int),
            e,
            ((e.1 as int) / a_cols) * a_rows + ii,
            const_param,
            true,
        )[t]);
    }
}

/// Parametric left product `A @ X`, nothing is lost: every argument entry in
/// row `b * a_cols + c` meets, for each row `ii` of `A`, every lowered
/// element of `A[ii, c]` (flat row `c * a_rows + ii`, column-major), and
/// their product appears at row `b * a_rows + ii`, in the argument entry's
/// column and the parametric slice of the two.
pub proof fn law_param_left_complete<V: Scalar>(
    lhs: Seq<Entry<V>>,
    lhs_shape: Seq<usize>,
    const_param: i64,
    es: Seq<Entry<V>>,
    i: int,
    ii: int,
    s: int,
)
    requires
        left_dims(lhs_shape).1 > 0,
        0 <= i < es.len(),
        0 <= ii < left_dims(lhs_shape).0,
        0 <= s < lhs.len(),
        lhs[s].1 == col_major_position(ii, (es[i].1 as int) % left_dims(lhs_shape).1, left_dims(lhs_shape).0),
        lhs[s].1 < shape_size(lhs_shape),
    ensures
        ({
            let (a_rows, a_cols) = left_dims(lhs_shape);
            exists|q: int|
                0 <= q < param_left_entries(lhs, lhs_shape, const_param, es).len() && #[trigger] param_left_entries(
                    lhs,
                    lhs_shape,
                    const_param,
                    es,
                )[q] == (
                    lhs[s].0.mul_spec(es[i].0),
                    (((es[i].1 as int) / a_cols) * a_rows + ii) as i64,
                    es[i].2,
                    product_slice(es[i].3, lhs[s].3, const_param),
                )
        }),
{
    let (a_rows, a_cols) = left_dims(lhs_shape);
    let e = es[i];
    let flat = col_major_position(ii, (e.1 as int) % a_cols, a_rows);
    let f = crate::operations::arithmetic::param_left_fn(lhs, shape_size(lhs_shape), a_rows, a_cols, const_param);
    lemma_row_group_contains(lhs, flat, lhs.len() as int, s);
    let g = row_group(lhs, flat, lhs.len() as int);
    let t = choose|t: int| 0 <= t < g.len() && #[trigger] g[t] == (lhs[s].0, lhs[s].3);
    lemma_param_left_rows_contains(lhs, shape_size(lhs_shape), a_rows, a_cols, const_param, e, a_rows, ii, t);
    let img = f(e);
    let j = choose|j: int|
        0 <= j < img.len() && #[trigger] img[j] == crate::operations::arithmetic::group_image(
            g,
            e,
            ((e.1 as int) / a_cols) * a_rows + ii,
            const_param,
            true,
        )[t];
    lemma_flat_map_contains(es, f, i, j);
    let q = choose|q: int| 0 <= q < flat_map_entries(es, f).len() && #[trigger] flat_map_entries(es, f)[q] == f(es[i])[j];
    assert(param_left_entries(lhs, lhs_shape, const_param, es)[q] == img[j]);
}

/// Column `j` of a CSC `A`, stored elements `lo..hi`: every non-zero element
/// in row `r / k` sends the entry to output row `j * k + r % k`.
proof fn lemma_rmul_pos_contains<V: Scalar>(
    values: Seq<V>,
    row_indices: Seq<i64>,
    k: int,
    e: Entry<V>,
    j: int,
    lo: int,
    hi: int,
    t: int,
)
    requires
        lo <= t < hi,
        row_indices[t] == (e.1 as int) / k,
        !is_zero_spec(values[t]),
    ensures
        exists|p: int|
            0 <= p < rmul_sparse_pos(values, row_indices, k, e, j, lo, hi).len() && #[trigger] rmul_sparse_pos(
                values,
                row_indices,
                k,
                e,
                j,
                lo,
                hi,
            )[p] == (values[t].mul_spec(e.0), (j * k + (e.1 as int) % k) as i64, e.2, e.3),
    decreases hi - lo,
{
    let prev = rmul_sparse_pos(values, row_indices, k, e, j, lo, hi - 1);
    let cur = rmul_sparse_pos(values, row_indices, k, e, j, lo, hi);
    if t < hi - 1 {
        lemma_rmul_pos_contains(values, row_indices, k, e, j, lo, hi - 1, t);
        let p = choose|p: int|
            0 <= p < prev.len() && #[trigger] prev[p] == (
                values[t].mul_spec(e.0),
                (j * k + (e.1 as int) % k) as i64,
                e.2,
                e.3,
            );
        assert(cur[p] == prev[p]);
    } else {
        assert(cur[prev.len() as int] == (values[t].mul_spec(e.0), (j * k + (e.1 as int) % k) as i64, e.2, e.3));
    }
}

/// The first `m` columns of a CSC `A`: every non-zero stored element of a
/// column `j < m` in row `r / k` sends the entry to output row
/// `j * k + r % k`.
proof fn lemma_rmul_cols_contains<V: Scalar>(
    values: Seq<V>,
    row_indices: Seq<i64>,
    col_indptr: Seq<i64>,
    k: int,
    e: Entry<V>,
    m: int,
    j: int,
    t: int,
)
    requires
        0 <= j < m,
        j < col_indptr.len() - 1,
        col_indptr[j] <= t < col_indptr[j + 1],
        row_indices[t] == (e.1 as int) / k,
        !is_zero_spec(values[t]),
    ensures
        exists|p: int|
            0 <= p < rmul_sparse_cols(values, row_indices, col_indptr, k, e, m).len() && #[trigger] rmul_sparse_cols(
                values,
                row_indices,
                col_indptr,
                k,
                e,
                m,
            )[p] == (values[t].mul_spec(e.0), (j * k + (e.1 as int) % k) as i64, e.2, e.3),
    decreases m,
{
    let jm = m - 1;
    let prev = rmul_sparse_cols(values, row_indices, col_indptr, k, e, m - 1);
    let tail = if jm < col_indptr.len() - 1 {
        rmul_sparse_pos(values, row_indices, k, e, jm, col_indptr[jm] as int, col_indptr[jm + 1] as int)
    } else {
        seq![]
    };
    let cur = rmul_sparse_cols(values, row_indices, col_indptr, k, e, m);
    assert(cur == prev + tail);
    if j < m - 1 {
        lemma_rmul_cols_contains(values, row_indices, col_indptr, k, e, m - 1, j, t);
        let p = choose|p: int|
            0 <= p < prev.len() && #[trigger] prev[p] == (
                values[t].mul_spec(e.0),
                (j * k + (e.1 as int) % k) as i64,
                e.2,
                e.3,
            );
        assert(cur[p] == prev[p]);
    } else {
        lemma_rmul_pos_contains(values, row_indices, k, e, j, col_indptr[j] as int, col_indptr[j + 1] as int, t);
        let p = choose|p: int|
            0 <= p < tail.len() && #[trigger] tail[p] == (
                values[t].mul_spec(e.0),
                (j * k + (e.1 as int) % k) as i64,
                e.2,
                e.3,
            );
        assert(cur[prev.len() + p] == tail[p]);
    }
}

/// Right product `X @ A` with `A` in CSC form, nothing is lost: with `k`
/// rows of `X`, every entry of `vec(X)` in row `r` meets every non-zero
/// stored element of every column `j` of `A` in row `r / k`, and their
/// product appears at row `j * k + r % k`, in the entry's column and slice.
pub proof fn law_rmul_sparse_complete<V: Scalar>(
    values: Seq<V>,
    row_indices: Seq<i64>,
    col_indptr: Seq<i64>,
    a_cols: int,
    out_rows: int,
    es: Seq<Entry<V>>,
    i: int,
    j: int,
    t: int,
)
    requires
        a_cols > 0,
        out_rows / a_cols > 0,
        0 <= i < es.len(),
        0 <= j < a_cols,
        j < col_indptr.len() - 1,
        col_indptr[j] <= t < col_indptr[j + 1],
        row_indices[t] == (es[i].1 as int) / (out_rows / a_cols),
        !is_zero_spec(values[t]),
    ensures
        ({
            let k = out_rows / a_cols;
            exists|q: int|
                0 <= q < rmul_sparse(values, row_indices, col_indptr, a_cols, out_rows, es).len()
                    && #[trigger] rmul_sparse(values, row_indices, col_indptr, a_cols, out_rows, es)[q] == (
                    values[t].mul_spec(es[i].0),
                    (j * k + (es[i].1 as int) % k) as i64,
                    es[i].2,
                    es[i].3,
                )
        }),
{
    let k = out_rows / a_cols;
    let f = crate::operations::arithmetic::rmul_sparse_fn(values, row_indices, col_indptr, a_cols, out_rows);
    lemma_rmul_cols_contains(values, row_indices, col_indptr, k, es[i], a_cols, j, t);
    let img = f(es[i]);
    let p = choose|p: int|
        0 <= p < img.len() && #[trigger] img[p] == (
            values[t].mul_spec(es[i].0),
            (j * k + (es[i].1 as int) % k) as i64,
            es[i].2,
            es[i].3,
        );
    lemma_flat_map_contains(es, f, i, p);
    let q = choose|q: int| 0 <= q < flat_map_entries(es, f).len() && #[trigger] flat_map_entries(es, f)[q] == f(es[i])[p];
    assert(rmul_sparse(values, row_indices, col_indptr, a_cols, out_rows, es)[q] == img[p]);
}


/// One entry's image under `kron(I, A)`, `A` dense column-major, first `k`
/// rows of `A`: each entry comes from a row `ii < k`.
proof fn lemma_lmul_cm_source<V: Scalar>(data: Seq<V>, a_rows: int, a_cols: int, out_rows: int, e: Entry<V>, k: int, p: int)
    requires
        0 <= p < lmul_dense_cm_rows(data, a_rows, a_cols, out_rows, e, k).len(),
    ensures
        exists|ii: int|
            0 <= ii < k && lmul_dense_cm_rows(data, a_rows, a_cols, out_rows, e, k)[p] == (
                data[#[trigger] col_major_position(ii, (e.1 as int) % a_cols, a_rows)].mul_spec(e.0),
                (((e.1 as int) / a_cols) * a_rows + ii) as i64,
                e.2,
                e.3,
            ),
    decreases k,
{
    let prev = lmul_dense_cm_rows(data, a_rows, a_cols, out_rows, e, k - 1);
    let cur = lmul_dense_cm_rows(data, a_rows, a_cols, out_rows, e, k);
    if p < prev.len() {
        lemma_lmul_cm_source(data, a_rows, a_cols, out_rows, e, k - 1, p);
        let ii = choose|ii: int|
            0 <= ii < k - 1 && prev[p] == (
                data[#[trigger] col_major_position(ii, (e.1 as int) % a_cols, a_rows)].mul_spec(e.0),
                (((e.1 as int) / a_cols) * a_rows + ii) as i64,
                e.2,
                e.3,
            );
        assert(cur[p] == prev[p]);
    } else {
        assert(cur[p] == (
            data[col_major_position(k - 1, (e.1 as int) % a_cols, a_rows)].mul_spec(e.0),
            (((e.1 as int) / a_cols) * a_rows + (k - 1)) as i64,
            e.2,
            e.3,
        ));
    }
}

/// Left product `A @ X`, `A` dense column-major (`A[ii, c]` at flat
/// position `c * a_rows + ii`), law of each entry: it is an argument entry
/// in row `b * a_cols + c` times `A[ii, c]` for a row `ii` of `A`, placed at
/// row `b * a_rows + ii`, in the entry's column and slice.
pub proof fn law_lmul_dense_col_major_entry<V: Scalar>(
    data: Seq<V>,
    a_rows: int,
    a_cols: int,
    out_rows: int,
    es: Seq<Entry<V>>,
    q: int,
)
    requires
        0 <= q < lmul_dense_col_major(data, a_rows, a_cols, out_rows, es).len(),
    ensures
        exists|i: int, ii: int|
            #![trigger es[i], col_major_position(ii, (es[i].1 as int) % a_cols, a_rows)]
            0 <= i < es.len() && 0 <= ii < a_rows && lmul_dense_col_major(data, a_rows, a_cols, out_rows, es)[q] == (
                data[col_major_position(ii, (es[i].1 as int) % a_cols, a_rows)].mul_spec(es[i].0),
                (((es[i].1 as int) / a_cols) * a_rows + ii) as i64,
                es[i].2,
                es[i].3,
            ),
{
    let f = crate::operations::arithmetic::lmul_dense_cm_fn(data, a_rows, a_cols, out_rows);
    lemma_flat_map_source(es, f, q);
    let (i, j) = choose|i: int, j: int|
        #![trigger f(es[i])[j]]
        0 <= i < es.len() && 0 <= j < f(es[i]).len() && flat_map_entries(es, f)[q] == f(es[i])[j];
    lemma_lmul_cm_source(data, a_rows, a_cols, out_rows, es[i], a_rows, j);
    let ii = choose|ii: int|
        0 <= ii < a_rows && f(es[i])[j] == (
            data[#[trigger] col_major_position(ii, (es[i].1 as int) % a_cols, a_rows)].mul_spec(es[i].0),
            (((es[i].1 as int) / a_cols) * a_rows + ii) as i64,
            es[i].2,
            es[i].3,
        );
}

/// One entry's image under `kron(I, A)`, `A` dense row-major, first `k`
/// rows of `A`: each entry comes from a row `ii < k`.
proof fn lemma_lmul_rm_source<V: Scalar>(data: Seq<V>, a_rows: int, a_cols: int, e: Entry<V>, k: int, p: int)
    requires
        0 <= p < lmul_dense_rm_rows(data, a_rows, a_cols, e, k).len(),
    ensures
        exists|ii: int|
            0 <= ii < k && lmul_dense_rm_rows(data, a_rows, a_cols, e, k)[p] == (
                data[#[trigger] row_major_position(ii, (e.1 as int) % a_cols, a_cols)].mul_spec(e.0),
                (((e.1 as int) / a_cols) * a_rows + ii) as i64,
                e.2,
                e.3,
            ),
    decreases k,
{
    let prev = lmul_dense_rm_rows(data, a_rows, a_cols, e, k - 1);
    let cur = lmul_dense_rm_rows(data, a_rows, a_cols, e, k);
    if p < prev.len() {
        lemma_lmul_rm_source(data, a_rows, a_cols, e, k - 1, p);
        let ii = choose|ii: int|
            0 <= ii < k - 1 && prev[p] == (
                data[#[trigger] row_major_position(ii, (e.1 as int) % a_cols, a_cols)].mul_spec(e.0),
                (((e.1 as int) / a_cols) * a_rows + ii) as i64,
                e.2,
                e.3,
            );
        assert(cur[p] == prev[p]);
    } else {
        assert(cur[p] == (
            data[row_major_position(k - 1, (e.1 as int) % a_cols, a_cols)].mul_spec(e.0),
            (((e.1 as int) / a_cols) * a_rows + (k - 1)) as i64,
            e.2,
            e.3,
        ));
    }
}

/// Left product `A @ X`, `A` dense row-major (`A[ii, c]` at flat position
/// `ii * a_cols + c`), law of each entry: it is an argument entry in row
/// `b * a_cols + c` times `A[ii, c]` for a row `ii` of `A`, placed at row
/// `b * a_rows + ii`, in the entry's column and slice.
pub proof fn law_lmul_dense_row_major_entry<V: Scalar>(
    data: Seq<V>,
    a_rows: int,
    a_cols: int,
    es: Seq<Entry<V>>,
    q: int,
)
    requires
        0 <= q < lmul_dense_row_major(data, a_rows, a_cols, es).len(),
    ensures
        exists|i: int, ii: int|
            #![trigger es[i], row_major_position(ii, (es[i].1 as int) % a_cols, a_cols)]
            0 <= i < es.len() && 0 <= ii < a_rows && lmul_dense_row_major(data, a_rows, a_cols, es)[q] == (
                data[row_major_position(ii, (es[i].1 as int) % a_cols, a_cols)].mul_spec(es[i].0),
                (((es[i].1 as int) / a_cols) * a_rows + ii) as i64,
                es[i].2,
                es[i].3,
            ),
{
    let f = crate::operations::arithmetic::lmul_dense_rm_fn(data, a_rows, a_cols);
    lemma_flat_map_source(es, f, q);
    let (i, j) = choose|i: int, j: int|
        #![trigger f(es[i])[j]]
        0 <= i < es.len() && 0 <= j < f(es[i]).len() && flat_map_entries(es, f)[q] == f(es[i])[j];
    lemma_lmul_rm_source(data, a_rows, a_cols, es[i], a_rows, j);
    let ii = choose|ii: int|
        0 <= ii < a_rows && f(es[i])[j] == (
            data[#[trigger] row_major_position(ii, (es[i].1 as int) % a_cols, a_cols)].mul_spec(es[i].0),
            (((es[i].1 as int) / a_cols) * a_rows + ii) as i64,
            es[i].2,
            es[i].3,
        );
}

/// One entry's image under `kron(I, A)`, `A` in CSC form, stored elements
/// `lo..hi`: each entry comes from one of them.
proof fn lemma_lmul_sparse_source<V: Scalar>(
    values: Seq<V>,
    row_indices: Seq<i64>,
    a_rows: int,
    a_cols: int,
    e: Entry<V>,
    lo: int,
    hi: int,
    p: int,
)
    requires
        0 <= p < lmul_sparse_rows(values, row_indices, a_rows, a_cols, e, lo, hi).len(),
    ensures
        exists|t: int|
            lo <= t < hi && lmul_sparse_rows(values, row_indices, a_rows, a_cols, e, lo, hi)[p] == (
                values[t].mul_spec(e.0),
                (((e.1 as int) / a_cols) * a_rows + #[trigger] row_indices[t]) as i64,
                e.2,
                e.3,
            ),
    decreases hi - lo,
{
    let prev = lmul_sparse_rows(values, row_indices, a_rows, a_cols, e, lo, hi - 1);
    let cur = lmul_sparse_rows(values, row_indices, a_rows, a_cols, e, lo, hi);
    if p < prev.len() {
        lemma_lmul_sparse_source(values, row_indices, a_rows, a_cols, e, lo, hi - 1, p);
        let t = choose|t: int|
            lo <= t < hi - 1 && prev[p] == (
                values[t].mul_spec(e.0),
                (((e.1 as int) / a_cols) * a_rows + #[trigger] row_indices[t]) as i64,
                e.2,
                e.3,
            );
        assert(cur[p] == prev[p]);
    } else {
        assert(cur[p] == (
            values[hi - 1].mul_spec(e.0),
            (((e.1 as int) / a_cols) * a_rows + row_indices[hi - 1]) as i64,
            e.2,
            e.3,
        ));
    }
}

/// Left product `A @ X`, `A` in CSC form, law of each entry: it is an
/// argument entry in row `b * a_cols + c` times a stored element of column
/// `c` of `A`, placed at row `b * a_rows + ii` where `ii` is that element's
/// row, in the entry's column and slice.
pub proof fn law_lmul_sparse_entry<V: Scalar>(
    values: Seq<V>,
    row_indices: Seq<i64>,
    col_indptr: Seq<i64>,
    a_rows: int,
    a_cols: int,
    es: Seq<Entry<V>>,
    q: int,
)
    requires
        0 <= q < lmul_sparse(values, row_indices, col_indptr, a_rows, a_cols, es).len(),
    ensures
        exists|i: int, t: int|
            #![trigger es[i], row_indices[t]]
            0 <= i < es.len() && (es[i].1 as int) % a_cols < col_indptr.len() - 1 && col_indptr[(es[i].1 as int)
                % a_cols] <= t < col_indptr[(es[i].1 as int) % a_cols + 1] && lmul_sparse(
                values,
                row_indices,
                col_indptr,
                a_rows,
                a_cols,
                es,
            )[q] == (
                values[t].mul_spec(es[i].0),
                (((es[i].1 as int) / a_cols) * a_rows + row_indices[t]) as i64,
                es[i].2,
                es[i].3,
            ),
{
    let f = crate::operations::arithmetic::lmul_sparse_fn(values, row_indices, col_indptr, a_rows, a_cols);
    lemma_flat_map_source(es, f, q);
    let (i, j) = choose|i: int, j: int|
        #![trigger f(es[i])[j]]
        0 <= i < es.len() && 0 <= j < f(es[i]).len() && flat_map_entries(es, f)[q] == f(es[i])[j];
    let e = es[i];
    let c = (e.1 as int) % a_cols;
    assert(c < col_indptr.len() - 1);
    lemma_lmul_sparse_source(values, row_indices, a_rows, a_cols, e, col_indptr[c] as int, col_indptr[c + 1] as int, j);
    let t = choose|t: int|
        col_indptr[c] <= t < col_indptr[c + 1] && f(e)[j] == (
            values[t].mul_spec(e.0),
            (((e.1 as int) / a_cols) * a_rows + #[trigger] row_indices[t]) as i64,
            e.2,
            e.3,
        );
}

/// One entry's image under `X @ A`, `A` dense column-major, first `m`
/// columns of `A`: each entry comes from a column `j < m`.
proof fn lemma_rmul_cm_source<V: Scalar>(data: Seq<V>, a_rows: int, k: int, out_rows: int, e: Entry<V>, m: int, p: int)
    requires
        0 <= p < rmul_dense_cm_cols(data, a_rows, k, out_rows, e, m).len(),
    ensures
        exists|j: int|
            0 <= j < m && rmul_dense_cm_cols(data, a_rows, k, out_rows, e, m)[p] == (
                e.0.mul_spec(data[#[trigger] col_major_position((e.1 as int) / k, j, a_rows)]),
                (j * k + (e.1 as int) % k) as i64,
                e.2,
                e.3,
            ),
    decreases m,
{
    let prev = rmul_dense_cm_cols(data, a_rows, k, out_rows, e, m - 1);
    let cur = rmul_dense_cm_cols(data, a_rows, k, out_rows, e, m);
    if p < prev.len() {
        lemma_rmul_cm_source(data, a_rows, k, out_rows, e, m - 1, p);
        let j = choose|j: int|
            0 <= j < m - 1 && prev[p] == (
                e.0.mul_spec(data[#[trigger] col_major_position((e.1 as int) / k, j, a_rows)]),
                (j * k + (e.1 as int) % k) as i64,
                e.2,
                e.3,
            );
        assert(cur[p] == prev[p]);
    } else {
        assert(cur[p] == (
            e.0.mul_spec(data[col_major_position((e.1 as int) / k, m - 1, a_rows)]),
            ((m - 1) * k + (e.1 as int) % k) as i64,
            e.2,
            e.3,
        ));
    }
}

/// Right product `X @ A`, `A` dense column-major, law of each entry: with
/// `k` rows of `X`, it is an entry of `vec(X)` in row `r` times `A[r / k, j]`
/// for a column `j` of `A`, placed at row `j * k + r % k`, in the entry's
/// column and slice.
pub proof fn law_rmul_dense_col_major_entry<V: Scalar>(
    data: Seq<V>,
    a_rows: int,
    a_cols: int,
    out_rows: int,
    es: Seq<Entry<V>>,
    q: int,
)
    requires
        0 <= q < rmul_dense_col_major(data, a_rows, a_cols, out_rows, es).len(),
    ensures
        ({
            let k = out_rows / a_cols;
            exists|i: int, j: int|
                #![trigger es[i], col_major_position((es[i].1 as int) / k, j, a_rows)]
                0 <= i < es.len() && 0 <= j < a_cols && rmul_dense_col_major(data, a_rows, a_cols, out_rows, es)[q]
                    == (
                    es[i].0.mul_spec(data[col_major_position((es[i].1 as int) / k, j, a_rows)]),
                    (j * k + (es[i].1 as int) % k) as i64,
                    es[i].2,
                    es[i].3,
                )
        }),
{
    let k = out_rows / a_cols;
    let f = crate::operations::arithmetic::rmul_dense_cm_fn(data, a_rows, a_cols, out_rows);
    lemma_flat_map_source(es, f, q);
    let (i, p) = choose|i: int, p: int|
        #![trigger f(es[i])[p]]
        0 <= i < es.len() && 0 <= p < f(es[i]).len() && flat_map_entries(es, f)[q] == f(es[i])[p];
    lemma_rmul_cm_source(data, a_rows, k, out_rows, es[i], a_cols, p);
    let j = choose|j: int|
        0 <= j < a_cols && f(es[i])[p] == (
            es[i].0.mul_spec(data[#[trigger] col_major_position((es[i].1 as int) / k, j, a_rows)]),
            (j * k + (es[i].1 as int) % k) as i64,
            es[i].2,
            es[i].3,
        );
}

/// One entry's image under `X @ A`, `A` dense row-major, first `m` columns
/// of `A`: each entry comes from a column `j < m`.
proof fn lemma_rmul_rm_source<V: Scalar>(data: Seq<V>, a_cols: int, k: int, e: Entry<V>, m: int, p: int)
    requires
        0 <= p < rmul_dense_rm_cols(data, a_cols, k, e, m).len(),
    ensures
        exists|j: int|
            0 <= j < m && rmul_dense_rm_cols(data, a_cols, k, e, m)[p] == (
                data[#[trigger] row_major_position((e.1 as int) / k, j, a_cols)].mul_spec(e.0),
                (j * k + (e.1 as int) % k) as i64,
                e.2,
                e.3,
            ),
    decreases m,
{
    let prev = rmul_dense_rm_cols(data, a_cols, k, e, m - 1);
    let cur = rmul_dense_rm_cols(data, a_cols, k, e, m);
    if p < prev.len() {
        lemma_rmul_rm_source(data, a_cols, k, e, m - 1, p);
        let j = choose|j: int|
            0 <= j < m - 1 && prev[p] == (
                data[#[trigger] row_major_position((e.1 as int) / k, j, a_cols)].mul_spec(e.0),
                (j * k + (e.1 as int) % k) as i64,
                e.2,
                e.3,
            );
        assert(cur[p] == prev[p]);
    } else {
        assert(cur[p] == (
            data[row_major_position((e.1 as int) / k, m - 1, a_cols)].mul_spec(e.0),
            ((m - 1) * k + (e.1 as int) % k) as i64,
            e.2,
            e.3,
        ));
    }
}

/// Right product `X @ A`, `A` dense row-major, law of each entry: with `k`
/// rows of `X`, it is `A[r / k, j]` times an entry of `vec(X)` in row `r`,
/// for a column `j` of `A`, placed at row `j * k + r % k`, in the entry's
/// column and slice.
pub proof fn law_rmul_dense_row_major_entry<V: Scalar>(
    data: Seq<V>,
    a_cols: int,
    out_rows: int,
    es: Seq<Entry<V>>,
    q: int,
)
    requires
        0 <= q < rmul_dense_row_major(data, a_cols, out_rows, es).len(),
    ensures
        ({
            let k = out_rows / a_cols;
            exists|i: int, j: int|
                #![trigger es[i], row_major_position((es[i].1 as int) / k, j, a_cols)]
                0 <= i < es.len() && 0 <= j < a_cols && rmul_dense_row_major(data, a_cols, out_rows, es)[q] == (
                    data[row_major_position((es[i].1 as int) / k, j, a_cols)].mul_spec(es[i].0),
                    (j * k + (es[i].1 as int) % k) as i64,
                    es[i].2,
                    es[i].3,
                )
        }),
{
    let k = out_rows / a_cols;
    let f = crate::operations::arithmetic::rmul_dense_rm_fn(data, a_cols, out_rows);
    lemma_flat_map_source(es, f, q);
    let (i, p) = choose|i: int, p: int|
        #![trigger f(es[i])[p]]
        0 <= i < es.len() && 0 <= p < f(es[i]).len() && flat_map_entries(es, f)[q] == f(es[i])[p];
    lemma_rmul_rm_source(data, a_cols, k, es[i], a_cols, p);
    let j = choose|j: int|
        0 <= j < a_cols && f(es[i])[p] == (
            data[#[trigger] row_major_position((es[i].1 as int) / k, j, a_cols)].mul_spec(es[i].0),
            (j * k + (es[i].1 as int) % k) as i64,
            es[i].2,
            es[i].3,
        );
}


/// One entry's image under a parametric `X @ A`, first `m` columns of `A`:
/// each entry comes from a column `j < m` and the lowered element of `A` at
/// the column-major position of `A[r / k, j]`.
proof fn lemma_param_right_cols_source<V: Scalar>(
    rhs: Seq<Entry<V>>,
    rhs_size: int,
    a_rows: int,
    k: int,
    const_param: i64,
    e: Entry<V>,
    m: int,
    p: int,
)
    requires
        0 <= p < param_right_cols(rhs, rhs_size, a_rows, k, const_param, e, m).len(),
    ensures
        exists|j: int, s: int|
            #![trigger rhs[s], col_major_position((e.1 as int) / k, j, a_rows)]
            0 <= j < m && 0 <= s < rhs.len() && rhs[s].1 == col_major_position((e.1 as int) / k, j, a_rows)
                && param_right_cols(rhs, rhs_size, a_rows, k, const_param, e, m)[p] == (
                e.0.mul_spec(rhs[s].0),
                (j * k + (e.1 as int) % k) as i64,
                e.2,
                product_slice(e.3, rhs[s].3, const_param),
            ),
    decreases m,
{
    let prev = param_right_cols(rhs, rhs_size, a_rows, k, const_param, e, m - 1);
    let cur = param_right_cols(rhs, rhs_size, a_rows, k, const_param, e, m);
    let j = m - 1;
    let flat = j * a_rows + (e.1 as int) / k;
    if p < prev.len() {
        lemma_param_right_cols_source(rhs, rhs_size, a_rows, k, const_param, e, m - 1, p);
        let (j2, s) = choose|j2: int, s: int|
            #![trigger rhs[s], col_major_position((e.1 as int) / k, j2, a_rows)]
            0 <= j2 < m - 1 && 0 <= s < rhs.len() && rhs[s].1 == col_major_position((e.1 as int) / k, j2, a_rows)
                && prev[p] == (
                e.0.mul_spec(rhs[s].0),
                (j2 * k + (e.1 as int) % k) as i64,
                e.2,
                product_slice(e.3, rhs[s].3, const_param),
            );
        assert(cur[p] == prev[p]);
    } else {
        assert(flat < rhs_size);
        let g = row_group(rhs, flat, rhs.len() as int);
        let pp = p - prev.len();
        assert(cur[p] == crate::operations::arithmetic::group_image(g, e, j * k + (e.1 as int) % k, const_param, false)[pp]);
        lemma_row_group_source(rhs, flat, rhs.len() as int, pp);
        let s = choose|s: int| #![trigger rhs[s]] 0 <= s < rhs.len() && rhs[s].1 == flat && g[pp] == (rhs[s].0, rhs[s].3);
        assert(cur[p] == (
            e.0.mul_spec(rhs[s].0),
            (j * k + (e.1 as int) % k) as i64,
            e.2,
            product_slice(e.3, rhs[s].3, const_param),
        ));
        assert(rhs[s].1 == col_major_position((e.1 as int) / k, j, a_rows));
    }
}

/// Parametric right product `X @ A`, law of each entry: with `A` of
/// `a_rows x a_cols` lowered to `rhs` (element `A[ii, j]` at flat row
/// `j * a_rows + ii`, column-major) and `k` rows of `X`, an entry of
/// `vec(X @ A)` is an entry of `vec(X)` in row `r` times the lowered element
/// of `A[r / k, j]` for a column `j`, placed at row `j * k + r % k`, in the
/// entry's column and the parametric slice of the two.
pub proof fn law_param_right_entry<V: Scalar>(
    rhs: Seq<Entry<V>>,
    rhs_shape: Seq<usize>,
    arg_shape: Seq<usize>,
    out_rows: int,
    const_param: i64,
    es: Seq<Entry<V>>,
    q: int,
)
    requires
        0 <= q < param_right_entries(rhs, rhs_shape, arg_shape, out_rows, const_param, es).len(),
    ensures
        ({
            let (a_rows, a_cols) = right_dims(rhs_shape, arg_shape);
            let k = out_rows / a_cols;
            exists|i: int, j: int, s: int|
                #![trigger es[i], rhs[s], col_major_position((es[i].1 as int) / k, j, a_rows)]
                0 <= i < es.len() && 0 <= j < a_cols && 0 <= s < rhs.len() && rhs[s].1 == col_major_position(
                    (es[i].1 as int) / k,
                    j,
                    a_rows,
                ) && param_right_entries(rhs, rhs_shape, arg_shape, out_rows, const_param, es)[q] == (
                    es[i].0.mul_spec(rhs[s].0),
                    (j * k + (es[i].1 as int) % k) as i64,
                    es[i].2,
                    product_slice(es[i].3, rhs[s].3, const_param),
                )
        }),
{
    let (a_rows, a_cols) = right_dims(rhs_shape, arg_shape);
    let k = out_rows / a_cols;
    let f = crate::operations::arithmetic::param_right_fn(rhs, shape_size(rhs_shape), a_rows, a_cols, out_rows, const_param);
    lemma_flat_map_source(es, f, q);
    let (i, p) = choose|i: int, p: int|
        #![trigger f(es[i])[p]]
        0 <= i < es.len() && 0 <= p < f(es[i]).len() && flat_map_entries(es, f)[q] == f(es[i])[p];
    lemma_param_right_cols_source(rhs, shape_size(rhs_shape), a_rows, k, const_param, es[i], a_cols, p);
    let (j, s) = choose|j: int, s: int|
        #![trigger rhs[s], col_major_position((es[i].1 as int) / k, j, a_rows)]
        0 <= j < a_cols && 0 <= s < rhs.len() && rhs[s].1 == col_major_position((es[i].1 as int) / k, j, a_rows)
            && f(es[i])[p] == (
            es[i].0.mul_spec(rhs[s].0),
            (j * k + (es[i].1 as int) % k) as i64,
            es[i].2,
            product_slice(es[i].3, rhs[s].3, const_param),
        );
}

} // verus!
