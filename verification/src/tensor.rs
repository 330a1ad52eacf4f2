//! Sparse tensors in coordinate (COO) format.
//!
//! A [`SparseTensor`] stores a three-dimensional tensor with axes
//! (row, column, parameter slice) as four parallel vectors: entry `i` holds
//! the value `data[i]` at `(rows[i], cols[i], param_offsets[i])`.
use vstd::prelude::*;
use crate::scalar::{exact, ops_total, Scalar};
use std::collections::HashMap;
pub use crate::reduction::{compute_reduction_from_slices, ReducedMatrix};
use crate::sorting::{identity_order, is_permutation, lemma_reordered_identity_is_permutation, par_sort_order_by_key, sort_order_by_key, sorted_by_keys};
use vstd::std_specs::ops::{MulSpec, NegSpec};

verus! {

/// Parameter id of the non-parametric (constant) slice.
pub const CONSTANT_ID: i64 = -1;

/// One stored entry: (value, row, column, parameter slice).
pub type Entry<V> = (V, i64, i64, i64);

/// Sparse tensor in COO format with axes (rows, cols, param slices).
#[derive(Debug)]
pub struct SparseTensor<V> {
    pub data: Vec<V>,
    pub rows: Vec<i64>,
    pub cols: Vec<i64>,
    pub param_offsets: Vec<i64>,
    pub shape: (usize, usize),
}

/// A copy of a vector of copyable elements.
pub fn copy_vec<T: Copy>(v: &Vec<T>) -> (r: Vec<T>)
    ensures
        r@ == v@,
{
    let mut r: Vec<T> = Vec::with_capacity(v.len());
    let mut i: usize = 0;
    while i < v.len()
        invariant
            i <= v@.len(),
            r@ == v@.subrange(0, i as int),
        decreases v@.len() - i,
    {
        r.push(v[i]);
        i = i + 1;
    }
    assert(r@ == v@);
    r
}

impl<V> SparseTensor<V> {
    /// The four component vectors have the same length.
    pub open spec fn wf(&self) -> bool {
        &&& self.rows@.len() == self.data@.len()
        &&& self.cols@.len() == self.data@.len()
        &&& self.param_offsets@.len() == self.data@.len()
    }

    /// Number of stored entries.
    pub open spec fn len(&self) -> nat {
        self.data@.len()
    }

    /// Entry `i` as a tuple.
    pub open spec fn entry(&self, i: int) -> Entry<V> {
        (self.data@[i], self.rows@[i], self.cols@[i], self.param_offsets@[i])
    }

    /// The stored entries in order.
    pub open spec fn entries(&self) -> Seq<Entry<V>> {
        Seq::new(self.data@.len(), |i: int| self.entry(i))
    }

    /// Every row index lies in `0..shape.0`.
    pub open spec fn rows_in_range(&self) -> bool {
        forall|i: int| 0 <= i < self.rows@.len() ==> 0 <= #[trigger] self.rows@[i] < self.shape.0
    }

    /// Create an empty tensor with the given shape.
    pub fn empty(shape: (usize, usize)) -> (t: Self)
        ensures
            t.wf(),
            t.data@.len() == 0,
            t.shape == shape,
    {
        SparseTensor {
            data: Vec::new(),
            rows: Vec::new(),
            cols: Vec::new(),
            param_offsets: Vec::new(),
            shape,
        }
    }

    /// Create an empty tensor with room for `capacity` entries.
    pub fn with_capacity(shape: (usize, usize), capacity: usize) -> (t: Self)
        ensures
            t.wf(),
            t.data@.len() == 0,
            t.shape == shape,
    {
        SparseTensor {
            data: Vec::with_capacity(capacity),
            rows: Vec::with_capacity(capacity),
            cols: Vec::with_capacity(capacity),
            param_offsets: Vec::with_capacity(capacity),
            shape,
        }
    }

    /// Number of stored entries.
    pub fn nnz(&self) -> (n: usize)
        ensures
            n == self.data@.len(),
    {
        self.data.len()
    }

    /// Append one entry.
    pub fn push(&mut self, value: V, row: i64, col: i64, param_offset: i64)
        ensures
            final(self).data@ == old(self).data@.push(value),
            final(self).rows@ == old(self).rows@.push(row),
            final(self).cols@ == old(self).cols@.push(col),
            final(self).param_offsets@ == old(self).param_offsets@.push(param_offset),
            final(self).shape == old(self).shape,
            old(self).wf() ==> final(self).wf() && final(self).entries() == old(self).entries().push(
                (value, row, col, param_offset),
            ),
    {
        let ghost before = self.entries();
        self.data.push(value);
        self.rows.push(row);
        self.cols.push(col);
        self.param_offsets.push(param_offset);
        assert(old(self).wf() ==> self.entries() =~= before.push((value, row, col, param_offset)));
    }

    /// Append all entries of `other`, in order.
    pub fn extend(&mut self, other: SparseTensor<V>)
        ensures
            final(self).data@ == old(self).data@ + other.data@,
            final(self).rows@ == old(self).rows@ + other.rows@,
            final(self).cols@ == old(self).cols@ + other.cols@,
            final(self).param_offsets@ == old(self).param_offsets@ + other.param_offsets@,
            final(self).shape == old(self).shape,
    {
        let mut other = other;
        self.data.append(&mut other.data);
        self.rows.append(&mut other.rows);
        self.cols.append(&mut other.cols);
        self.param_offsets.append(&mut other.param_offsets);
    }

    /// Offset every row index by `offset`.
    pub fn offset_rows_in_place(&mut self, offset: i64)
        requires
            forall|i: int|
                0 <= i < old(self).rows@.len() ==> i64::MIN <= #[trigger] old(self).rows@[i]
                    + offset <= i64::MAX,
        ensures
            final(self).rows@.len() == old(self).rows@.len(),
            forall|i: int|
                0 <= i < old(self).rows@.len() ==> #[trigger] final(self).rows@[i] == old(
                    self,
                ).rows@[i] + offset,
            final(self).data@ == old(self).data@,
            final(self).cols@ == old(self).cols@,
            final(self).param_offsets@ == old(self).param_offsets@,
            final(self).shape == old(self).shape,
    {
        let n = self.rows.len();
        let mut i: usize = 0;
        while i < n
            invariant
                n == old(self).rows@.len(),
                self.rows@.len() == n,
                forall|j: int| 0 <= j < i ==> #[trigger] self.rows@[j] == old(self).rows@[j] + offset,
                forall|j: int| i <= j < n ==> #[trigger] self.rows@[j] == old(self).rows@[j],
                forall|j: int|
                    0 <= j < n ==> i64::MIN <= #[trigger] old(self).rows@[j] + offset <= i64::MAX,
                self.data@ == old(self).data@,
                self.cols@ == old(self).cols@,
                self.param_offsets@ == old(self).param_offsets@,
                self.shape == old(self).shape,
            decreases n - i,
        {
            let r = self.rows[i] + offset;
            self.rows.set(i, r);
            i = i + 1;
        }
    }
}

impl<V: Copy> SparseTensor<V> {
    /// An entry-for-entry copy.
    pub fn copied(&self) -> (t: Self)
        ensures
            t.data@ == self.data@,
            t.rows@ == self.rows@,
            t.cols@ == self.cols@,
            t.param_offsets@ == self.param_offsets@,
            t.shape == self.shape,
    {
        SparseTensor {
            data: copy_vec(&self.data),
            rows: copy_vec(&self.rows),
            cols: copy_vec(&self.cols),
            param_offsets: copy_vec(&self.param_offsets),
            shape: self.shape,
        }
    }
}

impl<V: Scalar> SparseTensor<V> {
    /// Negate all values in place.
    pub fn negate_in_place(&mut self)
        requires
            ops_total::<V>(),
        ensures
            final(self).data@.len() == old(self).data@.len(),
            exact::<V>() ==> forall|i: int|
                0 <= i < old(self).data@.len() ==> #[trigger] final(self).data@[i] == old(
                    self,
                ).data@[i].neg_spec(),
            final(self).rows@ == old(self).rows@,
            final(self).cols@ == old(self).cols@,
            final(self).param_offsets@ == old(self).param_offsets@,
            final(self).shape == old(self).shape,
    {
        let n = self.data.len();
        let mut i: usize = 0;
        while i < n
            invariant
                ops_total::<V>(),
                n == old(self).data@.len(),
                self.data@.len() == n,
                exact::<V>() ==> forall|j: int|
                    0 <= j < i ==> #[trigger] self.data@[j] == old(self).data@[j].neg_spec(),
                forall|j: int| i <= j < n ==> #[trigger] self.data@[j] == old(self).data@[j],
                self.rows@ == old(self).rows@,
                self.cols@ == old(self).cols@,
                self.param_offsets@ == old(self).param_offsets@,
                self.shape == old(self).shape,
            decreases n - i,
        {
            let d = self.data[i];
            self.data.set(i, d.neg());
            i = i + 1;
        }
    }

    /// Multiply all values in place by `factor`.
    pub fn scale_in_place(&mut self, factor: V)
        requires
            ops_total::<V>(),
        ensures
            final(self).data@.len() == old(self).data@.len(),
            exact::<V>() ==> forall|i: int|
                0 <= i < old(self).data@.len() ==> #[trigger] final(self).data@[i] == old(
                    self,
                ).data@[i].mul_spec(factor),
            final(self).rows@ == old(self).rows@,
            final(self).cols@ == old(self).cols@,
            final(self).param_offsets@ == old(self).param_offsets@,
            final(self).shape == old(self).shape,
    {
        let n = self.data.len();
        let mut i: usize = 0;
        while i < n
            invariant
                ops_total::<V>(),
                n == old(self).data@.len(),
                self.data@.len() == n,
                exact::<V>() ==> forall|j: int|
                    0 <= j < i ==> #[trigger] self.data@[j] == old(self).data@[j].mul_spec(factor),
                forall|j: int| i <= j < n ==> #[trigger] self.data@[j] == old(self).data@[j],
                self.rows@ == old(self).rows@,
                self.cols@ == old(self).cols@,
                self.param_offsets@ == old(self).param_offsets@,
                self.shape == old(self).shape,
            decreases n - i,
        {
            let d = self.data[i];
            self.data.set(i, d.mul(factor));
            i = i + 1;
        }
    }
}


// ---------------------------------------------------------------------------
// Row selection
// ---------------------------------------------------------------------------

/// The positions `p < k` with `idx[p] == r`, in increasing order.
pub open spec fn positions(idx: Seq<i64>, r: i64, k: int) -> Seq<usize>
    decreases k,
{
    if k <= 0 {
        seq![]
    } else if idx[k - 1] == r {
        positions(idx, r, k - 1).push((k - 1) as usize)
    } else {
        positions(idx, r, k - 1)
    }
}

/// The copies of entry `e` that a selection by `idx` produces: one per
/// position of `e`'s row in `idx`, moved to that position.
pub open spec fn expand<V>(e: Entry<V>, idx: Seq<i64>) -> Seq<Entry<V>> {
    let ps = positions(idx, e.1, idx.len() as int);
    Seq::new(ps.len(), |j: int| (e.0, ps[j] as i64, e.2, e.3))
}

/// Row selection: output row `p` is input row `idx[p]`.  Entries are
/// produced in input order, each followed by its copies in position order.
pub open spec fn select_entries<V>(es: Seq<Entry<V>>, idx: Seq<i64>) -> Seq<Entry<V>>
    decreases es.len(),
{
    if es.len() == 0 {
        seq![]
    } else {
        select_entries(es.drop_last(), idx) + expand(es.last(), idx)
    }
}

/// `idx` is `[0, 1, ..., n-1]`.
pub open spec fn is_identity_spec(idx: Seq<i64>, n: int) -> bool {
    idx.len() == n && forall|i: int| 0 <= i < idx.len() ==> #[trigger] idx[i] == i
}

/// `idx` is `[o, o+1, ..., o+len-1]` for `o = idx[0]`.
pub open spec fn is_contiguous_spec(idx: Seq<i64>) -> bool {
    forall|i: int| 0 <= i < idx.len() ==> #[trigger] idx[i] == idx[0] + i
}

/// `idx` is `[n-1, n-2, ..., 0]`.
pub open spec fn is_reversed_spec(idx: Seq<i64>, n: int) -> bool {
    idx.len() == n && forall|i: int| 0 <= i < idx.len() ==> #[trigger] idx[i] == n - 1 - i
}

/// Entries with a row in `lo..lo+count`, moved down by `lo`.
pub open spec fn window_entries<V>(es: Seq<Entry<V>>, lo: int, count: int) -> Seq<Entry<V>>
    decreases es.len(),
{
    if es.len() == 0 {
        seq![]
    } else {
        let e = es.last();
        let prev = window_entries(es.drop_last(), lo, count);
        if lo <= e.1 < lo + count {
            prev.push((e.0, (e.1 - lo) as i64, e.2, e.3))
        } else {
            prev
        }
    }
}

/// Every row `r` replaced by `n - 1 - r`.
pub open spec fn reversed_entries<V>(es: Seq<Entry<V>>, n: int) -> Seq<Entry<V>> {
    es.map_values(|e: Entry<V>| (e.0, (n - 1 - e.1) as i64, e.2, e.3))
}

/// What `select_rows` returns: the general selection, computed by a shortcut
/// when `idx` is empty, the identity, a contiguous window or the reversal.
pub open spec fn select_rows_spec<V>(es: Seq<Entry<V>>, n: int, idx: Seq<i64>) -> Seq<Entry<V>> {
    if idx.len() == 0 {
        seq![]
    } else if is_identity_spec(idx, n) {
        es
    } else if is_contiguous_spec(idx) {
        window_entries(es, idx[0] as int, idx.len() as int)
    } else if is_reversed_spec(idx, n) {
        reversed_entries(es, n)
    } else {
        select_entries(es, idx)
    }
}

/// The positions of entries: row, column and parameter slot, without the
/// values.
pub open spec fn entry_keys<V>(es: Seq<Entry<V>>) -> Seq<(i64, i64, i64)> {
    Seq::new(es.len(), |i: int| (es[i].1, es[i].2, es[i].3))
}

/// The positions of concatenated entries are concatenated.
pub proof fn lemma_keys_concat<V>(a: Seq<Entry<V>>, b: Seq<Entry<V>>)
    ensures
        entry_keys(a + b) == entry_keys(a) + entry_keys(b),
{
    assert(entry_keys(a + b) =~= entry_keys(a) + entry_keys(b));
}

/// The sequences `f(e)` for the entries `e` of `es`, concatenated in order.
pub open spec fn flat_map_entries<V>(es: Seq<Entry<V>>, f: spec_fn(Entry<V>) -> Seq<Entry<V>>) -> Seq<
    Entry<V>,
>
    decreases es.len(),
{
    if es.len() == 0 {
        seq![]
    } else {
        flat_map_entries(es.drop_last(), f) + f(es.last())
    }
}

/// One more entry of the input adds its image to a flat map.
pub proof fn lemma_flat_map_step<V>(es: Seq<Entry<V>>, f: spec_fn(Entry<V>) -> Seq<Entry<V>>, i: int)
    requires
        0 <= i < es.len(),
    ensures
        flat_map_entries(es.subrange(0, i + 1), f) == flat_map_entries(es.subrange(0, i), f) + f(
            es[i],
        ),
{
    let s = es.subrange(0, i + 1);
    assert(s.drop_last() =~= es.subrange(0, i));
    assert(s.last() == es[i]);
}

/// Entry sequence of a tensor built from four parallel sequences.
pub open spec fn zip_entries<V>(
    data: Seq<V>,
    rows: Seq<i64>,
    cols: Seq<i64>,
    params: Seq<i64>,
) -> Seq<Entry<V>> {
    Seq::new(data.len(), |i: int| (data[i], rows[i], cols[i], params[i]))
}

proof fn lemma_push_entries<V>(t: SparseTensor<V>, u: SparseTensor<V>, e: Entry<V>)
    requires
        t.wf(),
        u.data@ == t.data@.push(e.0),
        u.rows@ == t.rows@.push(e.1),
        u.cols@ == t.cols@.push(e.2),
        u.param_offsets@ == t.param_offsets@.push(e.3),
    ensures
        u.wf(),
        u.entries() == t.entries().push(e),
{
    assert(u.entries() =~= t.entries().push(e));
}

impl<V: Copy> SparseTensor<V> {
    /// Select rows by index array: output row `p` holds the entries of input
    /// row `row_indices[p]`; the result has `row_indices.len()` rows.
    pub fn select_rows(&self, row_indices: &[i64]) -> (t: SparseTensor<V>)
        requires
            self.wf(),
            row_indices@.len() <= i64::MAX,
            row_indices@.len() == self.shape.0 ==> forall|i: int|
                0 <= i < self.rows@.len() ==> #[trigger] self.rows@[i] >= self.shape.0 - 1
                    - i64::MAX,
        ensures
            t.wf(),
            t.shape == (row_indices@.len() as usize, self.shape.1),
            t.entries() == select_rows_spec(self.entries(), self.shape.0 as int, row_indices@),
            self.rows_in_range() ==> t.entries() == select_entries(self.entries(), row_indices@),
    {
        let len = row_indices.len();
        proof {
            if self.rows_in_range() {
                assert forall|i: int| 0 <= i < self.entries().len() implies 0 <= #[trigger] self.entries()[i].1 < self.shape.0 as int by {
                    assert(self.entries()[i].1 == self.rows@[i]);
                }
                lemma_select_rows_shortcuts(self.entries(), self.shape.0 as int, row_indices@);
            }
        }
        if row_indices.len() == 0 {
            return SparseTensor::empty((0, self.shape.1));
        }
        if self.is_identity_permutation(row_indices) {
            return self.copied();
        }
        if let Some(offset) = self.check_contiguous_with_offset(row_indices) {
            assert(row_indices@.len() > 0);
            return self.select_contiguous_rows(offset, row_indices.len());
        }
        if self.is_reversed_identity(row_indices) {
            return self.reverse_rows();
        }
        self.select_rows_general(row_indices)
    }

    /// Whether `row_indices` is `[0, 1, ..., shape.0 - 1]`.
    fn is_identity_permutation(&self, row_indices: &[i64]) -> (b: bool)
        ensures
            b == is_identity_spec(row_indices@, self.shape.0 as int),
    {
        if row_indices.len() != self.shape.0 {
            return false;
        }
        let n = row_indices.len();
        let mut i: usize = 0;
        while i < n
            invariant
                n == row_indices@.len(),
                forall|j: int| 0 <= j < i ==> #[trigger] row_indices@[j] == j,
            decreases n - i,
        {
            if row_indices[i] as i128 != i as i128 {
                return false;
            }
            i = i + 1;
        }
        true
    }

    /// `Some(o)` when `row_indices` is `[o, o+1, ..., o+len-1]`.
    fn check_contiguous_with_offset(&self, row_indices: &[i64]) -> (r: Option<i64>)
        ensures
            row_indices@.len() == 0 ==> r == Some(0i64),
            row_indices@.len() > 0 ==> (r is Some <==> is_contiguous_spec(row_indices@)),
            row_indices@.len() > 0 && r is Some ==> r->0 == row_indices@[0],
    {
        if row_indices.len() == 0 {
            return Some(0);
        }
        let offset = row_indices[0];
        let n = row_indices.len();
        let mut i: usize = 0;
        while i < n
            invariant
                n == row_indices@.len(),
                n > 0,
                offset == row_indices@[0],
                forall|j: int| 0 <= j < i ==> #[trigger] row_indices@[j] == offset + j,
            decreases n - i,
        {
            if row_indices[i] as i128 != offset as i128 + i as i128 {
                return None;
            }
            i = i + 1;
        }
        Some(offset)
    }

    /// Whether `row_indices` is `[shape.0 - 1, ..., 1, 0]`.
    fn is_reversed_identity(&self, row_indices: &[i64]) -> (b: bool)
        ensures
            b == is_reversed_spec(row_indices@, self.shape.0 as int),
    {
        if row_indices.len() != self.shape.0 {
            return false;
        }
        let n = row_indices.len();
        let mut i: usize = 0;
        while i < n
            invariant
                n == row_indices@.len(),
                forall|j: int| 0 <= j < i ==> #[trigger] row_indices@[j] == n - 1 - j,
            decreases n - i,
        {
            if row_indices[i] as i128 != n as i128 - 1 - i as i128 {
                return false;
            }
            i = i + 1;
        }
        true
    }

    /// The entries with a row in `offset..offset+count`, moved down by `offset`.
    fn select_contiguous_rows(&self, offset: i64, count: usize) -> (t: SparseTensor<V>)
        requires
            self.wf(),
            count <= i64::MAX,
        ensures
            t.wf(),
            t.shape == (count, self.shape.1),
            t.entries() == window_entries(self.entries(), offset as int, count as int),
    {
        let end_row: i128 = offset as i128 + count as i128;
        let mut result = SparseTensor::with_capacity((count, self.shape.1), 0);
        let n = self.nnz();
        let mut i: usize = 0;
        while i < n
            invariant
                self.wf(),
                i <= n,
                n == self.data@.len(),
                end_row == offset + count,
                count <= i64::MAX,
                result.wf(),
                result.shape == (count, self.shape.1),
                result.entries() == window_entries(
                    self.entries().subrange(0, i as int),
                    offset as int,
                    count as int,
                ),
            decreases n - i,
        {
            let row = self.rows[i];
            proof {
                assert(self.entries().subrange(0, i + 1).drop_last() =~= self.entries().subrange(
                    0,
                    i as int,
                ));
            }
            if row >= offset && (row as i128) < end_row {
                let ghost before = result;
                result.push(self.data[i], row - offset, self.cols[i], self.param_offsets[i]);
                proof {
                    lemma_push_entries(
                        before,
                        result,
                        (self.data@[i as int], (row - offset) as i64, self.cols@[i as int], self.param_offsets@[i as int]),
                    );
                }
            }
            i = i + 1;
        }
        assert(self.entries().subrange(0, n as int) =~= self.entries());
        result
    }

    /// Every row `r` replaced by `shape.0 - 1 - r`.
    fn reverse_rows(&self) -> (t: SparseTensor<V>)
        requires
            self.wf(),
            self.shape.0 <= i64::MAX,
            forall|i: int|
                0 <= i < self.rows@.len() ==> #[trigger] self.rows@[i] >= self.shape.0 - 1
                    - i64::MAX,
        ensures
            t.wf(),
            t.shape == self.shape,
            t.entries() == reversed_entries(self.entries(), self.shape.0 as int),
    {
        let n_rows = self.shape.0 as i64;
        let n = self.nnz();
        let mut result = SparseTensor::with_capacity(self.shape, n);
        let mut i: usize = 0;
        while i < n
            invariant
                self.wf(),
                i <= n,
                n == self.data@.len(),
                n_rows == self.shape.0,
                forall|j: int|
                    0 <= j < self.rows@.len() ==> #[trigger] self.rows@[j] >= self.shape.0 - 1
                        - i64::MAX,
                result.wf(),
                result.shape == self.shape,
                result.entries() == reversed_entries(
                    self.entries().subrange(0, i as int),
                    self.shape.0 as int,
                ),
            decreases n - i,
        {
            let ghost before = result;
            let r = n_rows - 1 - self.rows[i];
            result.push(self.data[i], r, self.cols[i], self.param_offsets[i]);
            proof {
                lemma_push_entries(
                    before,
                    result,
                    (self.data@[i as int], r, self.cols@[i as int], self.param_offsets@[i as int]),
                );
                assert(result.entries() =~= reversed_entries(
                    self.entries().subrange(0, i + 1),
                    self.shape.0 as int,
                ));
            }
            i = i + 1;
        }
        assert(self.entries().subrange(0, n as int) =~= self.entries());
        result
    }

    /// General row selection through a map from input row to output positions.
    fn select_rows_general(&self, row_indices: &[i64]) -> (t: SparseTensor<V>)
        requires
            self.wf(),
            row_indices@.len() <= i64::MAX,
        ensures
            t.wf(),
            t.shape == (row_indices@.len() as usize, self.shape.1),
            t.entries() == select_entries(self.entries(), row_indices@),
    {
        let m = row_indices.len();
        let mut row_map: HashMap<i64, Vec<usize>> = HashMap::with_capacity(m);
        let mut new_idx: usize = 0;
        while new_idx < m
            invariant
                new_idx <= m,
                m == row_indices@.len(),
                m <= i64::MAX,
                forall|r: i64|
                    #![trigger row_map@.contains_key(r)]
                    row_map@.contains_key(r) ==> row_map@[r]@ == positions(
                        row_indices@,
                        r,
                        new_idx as int,
                    ),
                forall|r: i64|
                    !(#[trigger] row_map@.contains_key(r)) ==> positions(
                        row_indices@,
                        r,
                        new_idx as int,
                    ) == Seq::<usize>::empty(),
            decreases m - new_idx,
        {
            let old_row = row_indices[new_idx];
            let mut list: Vec<usize> = match row_map.get(&old_row) {
                Some(v) => copy_vec(v),
                None => Vec::new(),
            };
            list.push(new_idx);
            row_map.insert(old_row, list);
            new_idx = new_idx + 1;
        }
        let mut result = SparseTensor::with_capacity((m, self.shape.1), 0);
        let n = self.nnz();
        let mut i: usize = 0;
        while i < n
            invariant
                self.wf(),
                i <= n,
                n == self.data@.len(),
                m == row_indices@.len(),
                m <= i64::MAX,
                forall|r: i64|
                    #![trigger row_map@.contains_key(r)]
                    row_map@.contains_key(r) ==> row_map@[r]@ == positions(
                        row_indices@,
                        r,
                        m as int,
                    ),
                forall|r: i64|
                    !(#[trigger] row_map@.contains_key(r)) ==> positions(
                        row_indices@,
                        r,
                        m as int,
                    ) == Seq::<usize>::empty(),
                result.wf(),
                result.shape == (m, self.shape.1),
                result.entries() == select_entries(self.entries().subrange(0, i as int), row_indices@),
            decreases n - i,
        {
            let ghost e = self.entry(i as int);
            proof {
                let s = self.entries().subrange(0, i + 1);
                assert(s.drop_last() =~= self.entries().subrange(0, i as int));
                assert(s.last() == e);
            }
            let ghost prefix = result.entries();
            match row_map.get(&self.rows[i]) {
                Some(new_positions) => {
                    let k = new_positions.len();
                    let mut j: usize = 0;
                    proof {
                        lemma_positions_bounded(row_indices@, e.1, m as int);
                    }
                    while j < k
                        invariant
                            self.wf(),
                            j <= k,
                            i < n,
                            m == row_indices@.len(),
                            n == self.data@.len(),
                            m <= i64::MAX,
                            e == self.entry(i as int),
                            k == new_positions@.len(),
                            new_positions@ == positions(row_indices@, e.1, m as int),
                            forall|q: int| 0 <= q < k ==> (#[trigger] new_positions@[q]) < m,
                            result.wf(),
                            result.shape == (m, self.shape.1),
                            result.entries() == prefix + expand(e, row_indices@).subrange(0, j as int),
                        decreases k - j,
                    {
                        let ghost before = result;
                        let p = new_positions[j];
                        result.push(self.data[i], p as i64, self.cols[i], self.param_offsets[i]);
                        proof {
                            lemma_push_entries(before, result, (e.0, p as i64, e.2, e.3));
                            let ps = positions(row_indices@, e.1, row_indices@.len() as int);
                            assert(ps == new_positions@);
                            assert(ps[j as int] == p);
                            assert(expand(e, row_indices@).len() == k);
                            assert(expand(e, row_indices@)[j as int] == (e.0, p as i64, e.2, e.3));
                            assert(expand(e, row_indices@).subrange(0, j + 1) =~= expand(e, row_indices@).subrange(0, j as int).push((e.0, p as i64, e.2, e.3)));
                        }
                        j = j + 1;
                    }
                    assert(expand(e, row_indices@).subrange(0, k as int) =~= expand(e, row_indices@));
                },
                None => {
                    assert(expand(e, row_indices@) =~= Seq::<Entry<V>>::empty());
                    assert(result.entries() =~= prefix + expand(e, row_indices@));
                },
            }
            i = i + 1;
        }
        assert(self.entries().subrange(0, n as int) =~= self.entries());
        result
    }
}

/// The positions of `r` in the first `k` elements of `idx` lie below `k`
/// and hold `r`.
pub proof fn lemma_positions_bounded(idx: Seq<i64>, r: i64, k: int)
    requires
        k <= usize::MAX,
    ensures
        forall|q: int| 0 <= q < positions(idx, r, k).len() ==> (#[trigger] positions(idx, r, k)[q]) < k,
        forall|q: int| 0 <= q < positions(idx, r, k).len() ==> idx[#[trigger] positions(idx, r, k)[q] as int] == r,
    decreases k,
{
    if k > 0 {
        lemma_positions_bounded(idx, r, k - 1);
        let prev = positions(idx, r, k - 1);
        if idx[k - 1] == r {
            assert forall|q: int| 0 <= q < positions(idx, r, k).len() implies (#[trigger] positions(idx, r, k)[q]) < k
                && idx[positions(idx, r, k)[q] as int] == r by {
                if q < prev.len() {
                    assert(positions(idx, r, k)[q] == prev[q]);
                }
            }
        }
    }
}

/// With distinct indices, a row occurs at most once: its positions are
/// `[p]` for the `p` with `idx[p] == r`, or empty.
proof fn lemma_positions_injective(idx: Seq<i64>, r: i64, k: int, p: int)
    requires
        0 <= k <= idx.len(),
        forall|a: int, b: int| 0 <= a < b < k ==> idx[a] != idx[b],
    ensures
        0 <= p < k && idx[p] == r ==> positions(idx, r, k) == seq![p as usize],
        (forall|q: int| 0 <= q < k ==> idx[q] != r) ==> positions(idx, r, k) == Seq::<usize>::empty(),
    decreases k,
{
    if k > 0 {
        lemma_positions_injective(idx, r, k - 1, p);
        if 0 <= p < k && idx[p] == r && p < k - 1 {
            assert(idx[k - 1] != idx[p]);
        }
        if (forall|q: int| 0 <= q < k ==> idx[q] != r) {
            assert(idx[k - 1] != r);
        }
    }
}

/// Every entry of a row selection lies in a row below the number of indices.
pub proof fn lemma_select_entries_rows<V>(es: Seq<Entry<V>>, idx: Seq<i64>)
    requires
        idx.len() <= usize::MAX,
        idx.len() <= i64::MAX,
    ensures
        forall|t: int|
            0 <= t < select_entries(es, idx).len() ==> 0 <= (#[trigger] select_entries(es, idx)[t]).1
                < idx.len(),
    decreases es.len(),
{
    if es.len() > 0 {
        lemma_select_entries_rows(es.drop_last(), idx);
        let e = es.last();
        lemma_positions_bounded(idx, e.1, idx.len() as int);
        let prev = select_entries(es.drop_last(), idx);
        let ex = expand(e, idx);
        assert forall|t: int| 0 <= t < select_entries(es, idx).len() implies 0 <= (
        #[trigger] select_entries(es, idx)[t]).1 < idx.len() by {
            if t < prev.len() {
                assert(select_entries(es, idx)[t] == prev[t]);
            } else {
                assert(select_entries(es, idx)[t] == ex[t - prev.len()]);
                let ps = positions(idx, e.1, idx.len() as int);
                assert(ps[t - prev.len()] < idx.len());
            }
        }
    }
}

/// For tensors whose rows lie in `0..n`, the shortcuts of `select_rows`
/// produce exactly the general row selection.
pub proof fn lemma_select_rows_shortcuts<V>(es: Seq<Entry<V>>, n: int, idx: Seq<i64>)
    requires
        n <= usize::MAX,
        idx.len() <= i64::MAX,
        idx.len() <= usize::MAX,
        forall|i: int| 0 <= i < es.len() ==> 0 <= #[trigger] es[i].1 < n,
    ensures
        select_rows_spec(es, n, idx) == select_entries(es, idx),
    decreases es.len(),
{
    if es.len() > 0 {
        let rest = es.drop_last();
        lemma_select_rows_shortcuts(rest, n, idx);
        let e = es.last();
        assert(0 <= e.1 < n);
        if idx.len() == 0 {
            assert(expand(e, idx) =~= Seq::<Entry<V>>::empty());
            assert(select_entries(es, idx) =~= select_entries(rest, idx));
        } else if is_identity_spec(idx, n) {
            lemma_positions_injective(idx, e.1, idx.len() as int, e.1 as int);
            assert(positions(idx, e.1, idx.len() as int) == seq![e.1 as usize]);
            let ps = positions(idx, e.1, idx.len() as int);
            assert(ps.len() == 1);
            assert(ps[0] == e.1 as usize);
            assert(expand(e, idx).len() == 1);
            assert(expand(e, idx)[0].1 == e.1);
            assert(expand(e, idx)[0] == e);
            assert(expand(e, idx) =~= seq![e]);
            assert(select_entries(es, idx) =~= rest.push(e));
            assert(rest.push(e) =~= es);
        } else if is_contiguous_spec(idx) {
            let lo = idx[0] as int;
            let count = idx.len() as int;
            assert forall|a: int, b: int| 0 <= a < b < count implies idx[a] != idx[b] by {
                assert(idx[a] == idx[0] + a);
                assert(idx[b] == idx[0] + b);
            }
            if lo <= e.1 < lo + count {
                let p = e.1 - lo;
                assert(idx[p] == idx[0] + p);
                lemma_positions_injective(idx, e.1, count, p);
                assert(expand(e, idx)[0] == (e.0, (e.1 - lo) as i64, e.2, e.3));
                assert(expand(e, idx) =~= seq![(e.0, (e.1 - lo) as i64, e.2, e.3)]);
            } else {
                assert forall|q: int| 0 <= q < count implies idx[q] != e.1 by {
                    assert(idx[q] == idx[0] + q);
                }
                lemma_positions_injective(idx, e.1, count, 0);
                assert(expand(e, idx) =~= Seq::<Entry<V>>::empty());
            }
        } else if is_reversed_spec(idx, n) {
            assert forall|a: int, b: int| 0 <= a < b < n implies idx[a] != idx[b] by {
                assert(idx[a] == n - 1 - a);
                assert(idx[b] == n - 1 - b);
            }
            let p = n - 1 - e.1;
            assert(idx[p] == n - 1 - p);
            lemma_positions_injective(idx, e.1, n, p);
            assert(expand(e, idx)[0] == (e.0, (n - 1 - e.1) as i64, e.2, e.3));
            assert(expand(e, idx) =~= seq![(e.0, (n - 1 - e.1) as i64, e.2, e.3)]);
            assert(reversed_entries(es, n) =~= reversed_entries(rest, n).push(
                (e.0, (n - 1 - e.1) as i64, e.2, e.3),
            ));
        }
    }
}

// ---------------------------------------------------------------------------
// Combining tensors
// ---------------------------------------------------------------------------

/// The entries of all tensors, in order.
pub open spec fn concat_entries<V>(ts: Seq<SparseTensor<V>>) -> Seq<Entry<V>>
    decreases ts.len(),
{
    if ts.len() == 0 {
        seq![]
    } else {
        concat_entries(ts.drop_last()) + ts.last().entries()
    }
}

impl<V: Copy> SparseTensor<V> {
    /// Concatenate the entries of several tensors; the shape is that of the
    /// first tensor, or `(0, 0)` when there is none.
    pub fn combine(tensors: Vec<SparseTensor<V>>) -> (t: SparseTensor<V>)
        requires
            forall|k: int| 0 <= k < tensors@.len() ==> (#[trigger] tensors@[k]).wf(),
        ensures
            t.wf(),
            tensors@.len() == 0 ==> t.shape == (0usize, 0usize),
            tensors@.len() > 0 ==> t.shape == tensors@[0].shape,
            t.entries() == concat_entries(tensors@),
    {
        if tensors.len() == 0 {
            return SparseTensor::empty((0, 0));
        }
        let shape = tensors[0].shape;
        let mut result = SparseTensor::with_capacity(shape, 0);
        let n = tensors.len();
        let mut k: usize = 0;
        while k < n
            invariant
                k <= n,
                n == tensors@.len(),
                forall|j: int| 0 <= j < tensors@.len() ==> (#[trigger] tensors@[j]).wf(),
                result.wf(),
                result.shape == shape,
                result.entries() == concat_entries(tensors@.subrange(0, k as int)),
            decreases n - k,
        {
            let ghost before = result.entries();
            let piece = tensors[k].copied();
            result.extend(piece);
            proof {
                let ts = tensors@.subrange(0, k + 1);
                assert(ts.drop_last() =~= tensors@.subrange(0, k as int));
                assert(result.entries() =~= before + tensors@[k as int].entries());
            }
            k = k + 1;
        }
        assert(tensors@.subrange(0, n as int) =~= tensors@);
        result
    }
}

// ---------------------------------------------------------------------------
// Flattening to the problem-data matrix
// ---------------------------------------------------------------------------

/// Result structure returned to Python: a COO matrix.
#[derive(Debug)]
pub struct BuildMatrixResult<V> {
    pub data: Vec<V>,
    pub rows: Vec<i64>,
    pub cols: Vec<i64>,
    pub shape: (usize, usize),
}

/// Entry count from which the flattened entries are sorted in parallel.
pub const PAR_SORT_MIN_NNZ: usize = 1_000_000;

/// Row of entry `i` in the flattened matrix: `col * n_rows + row`, in
/// wrapping `i64` arithmetic.
pub open spec fn flat_row<V>(t: SparseTensor<V>, i: int) -> i64 {
    t.cols@[i].wrapping_mul(t.shape.0 as i64).wrapping_add(t.rows@[i])
}

/// Entry `i` of `t` flattened: its row in the flattened matrix, its value,
/// its slice.
pub open spec fn flat_triple<V>(t: SparseTensor<V>, i: int) -> (i64, V, i64) {
    (flat_row(t, i), t.data@[i], t.param_offsets@[i])
}

/// All entries of `t`, flattened, in the tensor's order.
pub open spec fn flat_triples<V>(t: SparseTensor<V>) -> Seq<(i64, V, i64)> {
    Seq::new(t.data@.len(), |i: int| flat_triple(t, i))
}

/// The entries of a flattened matrix: `(row, value, column)`.
pub open spec fn result_triples<V>(r: BuildMatrixResult<V>) -> Seq<(i64, V, i64)> {
    Seq::new(r.rows@.len(), |k: int| (r.rows@[k], r.data@[k], r.cols@[k]))
}

/// Mapping two sequences with the same elements gives two sequences with
/// the same elements.
pub proof fn lemma_map_multiset<A, B>(s1: Seq<A>, s2: Seq<A>, f: spec_fn(A) -> B)
    requires
        s1.to_multiset() == s2.to_multiset(),
    ensures
        s1.map_values(f).to_multiset() == s2.map_values(f).to_multiset(),
    decreases s1.len(),
{
    broadcast use vstd::seq_lib::group_to_multiset_ensures;
    broadcast use vstd::multiset::group_multiset_axioms;

    vstd::seq_lib::to_multiset_len(s1);
    vstd::seq_lib::to_multiset_len(s2);
    if s1.len() == 0 {
        assert(s1.map_values(f) =~= Seq::<B>::empty());
        assert(s2.map_values(f) =~= Seq::<B>::empty());
    } else {
        let x = s1.last();
        let p1 = s1.drop_last();
        assert(s1 =~= p1.push(x));
        vstd::seq_lib::to_multiset_build(p1, x);
        vstd::seq_lib::to_multiset_contains(s1, x);
        assert(s1.contains(x)) by {
            assert(s1[s1.len() - 1] == x);
        }
        vstd::seq_lib::to_multiset_contains(s2, x);
        assert(s2.contains(x));
        let j = choose|j: int| 0 <= j < s2.len() && s2[j] == x;
        let p2 = s2.remove(j);
        vstd::seq_lib::to_multiset_remove(s2, j);
        assert(p1.to_multiset() =~= s1.to_multiset().remove(x));
        lemma_map_multiset(p1, p2, f);
        assert(s1.map_values(f) =~= p1.map_values(f).push(f(x)));
        assert(s2.map_values(f) =~= p2.map_values(f).insert(j, f(x)));
        vstd::seq_lib::to_multiset_build(p1.map_values(f), f(x));
        vstd::seq_lib::to_multiset_insert(p2.map_values(f), j, f(x));
    }
}

/// `r` lists the entries of `tensor`, flattened to rows `col * n_rows + row`
/// of a matrix with one column per parameter slice, sorted by row: every
/// entry once, with its value and its slice as column.
pub open spec fn flattened_from<V>(r: BuildMatrixResult<V>, tensor: SparseTensor<V>, num_param_slices: usize) -> bool {
    &&& r.shape == (tensor.shape.0.wrapping_mul(tensor.shape.1), num_param_slices)
    &&& r.data@.len() == tensor.data@.len()
    &&& r.rows@.len() == tensor.data@.len()
    &&& r.cols@.len() == tensor.data@.len()
    &&& forall|i: int, j: int| 0 <= i <= j < r.rows@.len() ==> r.rows@[i] <= r.rows@[j]
    &&& result_triples(r).to_multiset() == flat_triples(tensor).to_multiset()
    &&& exists|perm: Seq<usize>|
        #![trigger is_permutation(perm, tensor.data@.len() as int)]
        is_permutation(perm, tensor.data@.len() as int) && forall|k: int|
            0 <= k < perm.len() ==> {
                &&& r.rows@[k] == flat_row(tensor, #[trigger] perm[k] as int)
                &&& r.data@[k] == tensor.data@[perm[k] as int]
                &&& r.cols@[k] == tensor.param_offsets@[perm[k] as int]
            }
}

impl<V: Copy> BuildMatrixResult<V> {
    /// Flatten a tensor to a matrix of shape
    /// `(n_rows * n_cols, num_param_slices)`: entry `(row, col, slice)`
    /// goes to `(col * n_rows + row, slice)`; the entries come sorted by row.
    /// (The products wrap around as release builds of unchecked arithmetic
    /// do.)
    pub fn from_tensor(tensor: SparseTensor<V>, num_param_slices: usize) -> (r: Self)
        requires
            tensor.wf(),
        ensures
            flattened_from(r, tensor, num_param_slices),
    {
        let n_rows = tensor.shape.0;
        let n_cols = tensor.shape.1;
        let output_rows = n_rows.wrapping_mul(n_cols);
        let nnz = tensor.data.len();
        let n_rows_i = n_rows as i64;

        let mut flat_rows: Vec<i64> = Vec::with_capacity(nnz);
        let mut i: usize = 0;
        while i < nnz
            invariant
                tensor.wf(),
                i <= nnz,
                nnz == tensor.data@.len(),
                n_rows_i == tensor.shape.0 as i64,
                flat_rows@.len() == i,
                forall|j: int| 0 <= j < i ==> #[trigger] flat_rows@[j] == flat_row(tensor, j),
            decreases nnz - i,
        {
            flat_rows.push(tensor.cols[i].wrapping_mul(n_rows_i).wrapping_add(tensor.rows[i]));
            i = i + 1;
        }

        let ident = identity_order(nnz);
        let mut order = identity_order(nnz);
        assert(ident@ =~= order@);
        if nnz >= PAR_SORT_MIN_NNZ {
            par_sort_order_by_key(&mut order, flat_rows.as_slice());
        } else {
            sort_order_by_key(&mut order, flat_rows.as_slice());
        }
        proof {
            lemma_reordered_identity_is_permutation(ident@, order@);
        }

        let mut sorted_rows: Vec<i64> = Vec::with_capacity(nnz);
        let mut sorted_data: Vec<V> = Vec::with_capacity(nnz);
        let mut sorted_cols: Vec<i64> = Vec::with_capacity(nnz);
        let mut k: usize = 0;
        while k < nnz
            invariant
                tensor.wf(),
                k <= nnz,
                nnz == tensor.data@.len(),
                flat_rows@.len() == nnz,
                forall|j: int| 0 <= j < nnz ==> #[trigger] flat_rows@[j] == flat_row(tensor, j),
                is_permutation(order@, nnz as int),
                sorted_by_keys(order@, flat_rows@),
                sorted_rows@.len() == k,
                sorted_data@.len() == k,
                sorted_cols@.len() == k,
                forall|j: int|
                    0 <= j < k ==> {
                        &&& sorted_rows@[j] == flat_row(tensor, #[trigger] order@[j] as int)
                        &&& sorted_data@[j] == tensor.data@[order@[j] as int]
                        &&& sorted_cols@[j] == tensor.param_offsets@[order@[j] as int]
                    },
            decreases nnz - k,
        {
            let o = order[k];
            sorted_rows.push(flat_rows[o]);
            sorted_data.push(tensor.data[o]);
            sorted_cols.push(tensor.param_offsets[o]);
            k = k + 1;
        }
        proof {
            assert forall|a: int, b: int| 0 <= a <= b < sorted_rows@.len() implies sorted_rows@[a] <= sorted_rows@[b] by {
                assert(flat_rows@[order@[a] as int] <= flat_rows@[order@[b] as int]);
            }
            assert(is_permutation(order@, tensor.data@.len() as int));
        }
        let ghost g = |i: usize| flat_triple(tensor, i as int);
        proof {
            lemma_map_multiset(order@, ident@, g);
            assert(ident@.map_values(g) =~= flat_triples(tensor));
        }
        let r = BuildMatrixResult { data: sorted_data, rows: sorted_rows, cols: sorted_cols, shape: (output_rows, num_param_slices) };
        assert(order@.map_values(g) =~= result_triples(r));
        assert(is_permutation(order@, tensor.data@.len() as int) && forall|k: int|
            0 <= k < order@.len() ==> {
                &&& r.rows@[k] == flat_row(tensor, #[trigger] order@[k] as int)
                &&& r.data@[k] == tensor.data@[order@[k] as int]
                &&& r.cols@[k] == tensor.param_offsets@[order@[k] as int]
            });
        r
    }
}

} // verus!
