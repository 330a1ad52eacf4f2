//! Typed blocks: a structured form of a lowered node.
//!
//! A [`NodeValue`] is a list of blocks placed at a column offset and a
//! parameter slot.  An `Identity(n)` block stands for the entries
//! `(1, i, offset + i, slot)`, a `Dense` block for the non-zero entries of a
//! column-major matrix placed at the offset, and a `Coo` block for an
//! already flattened tensor whose entries are taken verbatim.  Handlers that
//! know the structure of their result (a variable is an identity, a dense
//! constant a dense column) return it typed, so that a consumer such as
//! `mul` can recognise the structure without inspecting entries.
use vstd::prelude::*;
use vstd::arithmetic::div_mod::lemma_fundamental_div_mod_converse;
use crate::scalar::{exact, is_zero, is_zero_spec, one, one_spec, ops_total, Scalar};
use crate::tensor::{entry_keys, lemma_keys_concat, Entry, SparseTensor};

verus! {

/// A dense matrix stored column-major: element `(r, c)` is `data[c * rows + r]`.
#[derive(Debug)]
pub struct DenseF<V> {
    pub rows: usize,
    pub cols: usize,
    pub data: Vec<V>,
}

/// A block of a lowered node.
#[derive(Debug)]
pub enum Block<V> {
    Identity { n: usize },
    Dense(DenseF<V>),
    Coo(SparseTensor<V>),
}

/// A block placed at a column offset and a parameter slot.
#[derive(Debug)]
pub struct BlockEntry<V> {
    pub param_slot: i64,
    pub var_col_offset: i64,
    pub block: Block<V>,
}

/// The lowered value of a node: `out_rows` rows, `var_cols` columns.
#[derive(Debug)]
pub struct NodeValue<V> {
    pub out_rows: usize,
    pub var_cols: usize,
    pub blocks: Vec<BlockEntry<V>>,
}

impl<V> DenseF<V> {
    /// A column-major matrix of the given size.
    pub fn from_col_major(rows: usize, cols: usize, data: Vec<V>) -> (d: Self)
        requires
            data@.len() == rows * cols,
        ensures
            d.rows == rows,
            d.cols == cols,
            d.data@ == data@,
    {
        DenseF { rows, cols, data }
    }
}

/// The non-zero elements among the first `k` of a column-major matrix with
/// `rows` rows, as entries `(value, row, off + column, slot)`.
pub open spec fn dense_entries<V: Scalar>(
    data: Seq<V>,
    rows: int,
    off: int,
    slot: i64,
    k: int,
) -> Seq<Entry<V>>
    decreases k,
{
    if k <= 0 {
        seq![]
    } else {
        let prev = dense_entries(data, rows, off, slot, k - 1);
        let p = k - 1;
        if is_zero_spec(data[p]) {
            prev
        } else {
            prev.push((data[p], (p % rows) as i64, (off + p / rows) as i64, slot))
        }
    }
}

/// The entries of `(1, i, off + i, slot)` for `i < n`.
pub open spec fn identity_entries<V: Scalar>(n: int, off: int, slot: i64) -> Seq<Entry<V>> {
    Seq::new(n as nat, |i: int| (one_spec::<V>(), i as i64, (off + i) as i64, slot))
}

/// The entries a placed block stands for.
pub open spec fn block_entries<V: Scalar>(be: BlockEntry<V>) -> Seq<Entry<V>> {
    match be.block {
        Block::Identity { n } => identity_entries(n as int, be.var_col_offset as int, be.param_slot),
        Block::Dense(d) => dense_entries(
            d.data@,
            d.rows as int,
            be.var_col_offset as int,
            be.param_slot,
            d.data@.len() as int,
        ),
        Block::Coo(t) => t.entries(),
    }
}

/// The entries of a list of blocks, block after block.
pub open spec fn blocks_entries<V: Scalar>(bs: Seq<BlockEntry<V>>) -> Seq<Entry<V>>
    decreases bs.len(),
{
    if bs.len() == 0 {
        seq![]
    } else {
        blocks_entries(bs.drop_last()) + block_entries(bs.last())
    }
}

/// A block whose entries can be produced without overflow.
pub open spec fn block_fits<V>(be: BlockEntry<V>) -> bool {
    match be.block {
        Block::Identity { n } => n <= i64::MAX && be.var_col_offset + n <= i64::MAX,
        Block::Dense(d) => {
            &&& d.data@.len() == d.rows * d.cols
            &&& d.rows <= i64::MAX
            &&& d.cols <= i64::MAX
            &&& be.var_col_offset + d.cols <= i64::MAX
        },
        Block::Coo(t) => t.wf(),
    }
}

/// Element `p = c * rows + r` of a column-major matrix is at row `r`, column `c`.
pub proof fn lemma_col_major(p: int, rows: int, c: int, r: int)
    requires
        rows > 0,
        0 <= r < rows,
        p == c * rows + r,
    ensures
        p % rows == r,
        p / rows == c,
{
    lemma_fundamental_div_mod_converse(p, rows, c, r);
}

/// The entries of a node with one block are the block's.
pub proof fn lemma_single_block_entries<V: Scalar>(nv: NodeValue<V>)
    requires
        nv.blocks@.len() == 1,
    ensures
        nv.entries() == block_entries(nv.blocks@[0]),
{
    let bs = nv.blocks@;
    assert(bs.drop_last() =~= Seq::<BlockEntry<V>>::empty());
    assert(blocks_entries(bs.drop_last()) =~= Seq::<Entry<V>>::empty());
    assert(bs.last() == bs[0]);
    assert(nv.entries() =~= block_entries(bs[0]));
}

/// The rows a block stands for lie below `out_rows`.
pub open spec fn block_rows_ok<V>(be: BlockEntry<V>, out_rows: int) -> bool {
    match be.block {
        Block::Identity { n } => n <= out_rows,
        Block::Dense(d) => d.rows <= out_rows,
        Block::Coo(t) => t.rows_in_range() && t.shape.0 <= out_rows,
    }
}

impl<V: Scalar> NodeValue<V> {
    /// Every block's rows lie below `out_rows`.
    pub open spec fn rows_ok(&self) -> bool {
        forall|k: int| 0 <= k < self.blocks@.len() ==> block_rows_ok(#[trigger] self.blocks@[k], self.out_rows as int)
    }

    /// Every block can be flattened.
    pub open spec fn fits(&self) -> bool {
        forall|k: int| 0 <= k < self.blocks@.len() ==> block_fits(#[trigger] self.blocks@[k])
    }

    /// The entries the node stands for.
    pub open spec fn entries(&self) -> Seq<Entry<V>> {
        blocks_entries(self.blocks@)
    }

    /// No block is dense: the positions of the node's entries do not depend
    /// on the zero tests of its values.
    pub open spec fn no_dense(&self) -> bool {
        forall|k: int| 0 <= k < self.blocks@.len() ==> !(#[trigger] self.blocks@[k].block is Dense)
    }

    /// A node with no entries.
    pub fn empty(out_rows: usize, var_cols: usize) -> (nv: Self)
        ensures
            nv.out_rows == out_rows,
            nv.var_cols == var_cols,
            nv.blocks@.len() == 0,
            nv.fits(),
            nv.rows_ok(),
    {
        NodeValue { out_rows, var_cols, blocks: Vec::new() }
    }

    /// A node holding a flat tensor.
    pub fn from_coo(tensor: SparseTensor<V>) -> (nv: Self)
        requires
            tensor.wf(),
        ensures
            nv.out_rows == tensor.shape.0,
            nv.var_cols == tensor.shape.1,
            nv.fits(),
            tensor.rows_in_range() ==> nv.rows_ok(),
            nv.blocks@.len() == 1,
            nv.blocks@[0].block == Block::Coo(tensor),
            nv.entries() == tensor.entries(),
    {
        let out_rows = tensor.shape.0;
        let var_cols = tensor.shape.1;
        let ghost es = tensor.entries();
        let nv = NodeValue {
            out_rows,
            var_cols,
            blocks: vec![BlockEntry { param_slot: 0, var_col_offset: 0, block: Block::Coo(tensor) }],
        };
        proof {
            lemma_single_block_entries(nv);
        }
        nv
    }

    /// Flatten to a tensor of shape `(out_rows, var_cols)`.
    pub fn into_coo(self) -> (t: SparseTensor<V>)
        requires
            ops_total::<V>(),
            self.fits(),
        ensures
            t.wf(),
            t.shape == (self.out_rows, self.var_cols),
            self.rows_ok() ==> t.rows_in_range(),
            exact::<V>() ==> t.entries() == self.entries(),
            self.no_dense() ==> entry_keys(t.entries()) == entry_keys(self.entries()),
    {
        self.to_coo()
    }

    /// Flatten to a tensor of shape `(out_rows, var_cols)`, keeping the node.
    pub fn to_coo(&self) -> (t: SparseTensor<V>)
        requires
            ops_total::<V>(),
            self.fits(),
        ensures
            t.wf(),
            t.shape == (self.out_rows, self.var_cols),
            self.rows_ok() ==> t.rows_in_range(),
            exact::<V>() ==> t.entries() == self.entries(),
            self.no_dense() ==> entry_keys(t.entries()) == entry_keys(self.entries()),
    {
        let mut result = SparseTensor::with_capacity((self.out_rows, self.var_cols), 0);
        let nb = self.blocks.len();
        let mut k: usize = 0;
        while k < nb
            invariant
                ops_total::<V>(),
                self.fits(),
                k <= nb,
                nb == self.blocks@.len(),
                result.wf(),
                result.shape == (self.out_rows, self.var_cols),
                self.rows_ok() ==> result.rows_in_range(),
                exact::<V>() ==> result.entries() == blocks_entries(self.blocks@.subrange(0, k as int)),
                self.no_dense() ==> entry_keys(result.entries()) == entry_keys(
                    blocks_entries(self.blocks@.subrange(0, k as int)),
                ),
            decreases nb - k,
        {
            let ghost before = result.entries();
            proof {
                if self.rows_ok() {
                    assert(block_rows_ok(self.blocks@[k as int], self.out_rows as int));
                }
            }
            append_block(&mut result, &self.blocks[k]);
            proof {
                let bs = self.blocks@.subrange(0, k + 1);
                assert(bs.drop_last() =~= self.blocks@.subrange(0, k as int));
                assert(bs.last() == self.blocks@[k as int]);
                if self.no_dense() {
                    assert(!(self.blocks@[k as int].block is Dense));
                    lemma_keys_concat(before, block_entries(self.blocks@[k as int]));
                    lemma_keys_concat(
                        blocks_entries(self.blocks@.subrange(0, k as int)),
                        block_entries(self.blocks@[k as int]),
                    );
                }
            }
            k = k + 1;
        }
        assert(self.blocks@.subrange(0, nb as int) =~= self.blocks@);
        result
    }
}

/// Append the entries of one placed block.
fn append_block<V: Scalar>(result: &mut SparseTensor<V>, be: &BlockEntry<V>)
    requires
        ops_total::<V>(),
        old(result).wf(),
        block_fits(*be),
    ensures
        final(result).wf(),
        final(result).shape == old(result).shape,
        old(result).rows_in_range() && block_rows_ok(*be, old(result).shape.0 as int)
            ==> final(result).rows_in_range(),
        exact::<V>() ==> final(result).entries() == old(result).entries() + block_entries(*be),
        !(be.block is Dense) ==> entry_keys(final(result).entries()) == entry_keys(
            old(result).entries() + block_entries(*be),
        ),
{
    let ghost ok = old(result).rows_in_range() && block_rows_ok(*be, old(result).shape.0 as int);
    let ghost start = result.entries();
    let off = be.var_col_offset;
    let slot = be.param_slot;
    match &be.block {
        Block::Identity { n } => {
            let n = *n;
            let v: V = one();
            let mut i: usize = 0;
            while i < n
                invariant
                    i <= n,
                    n <= i64::MAX,
                    off + n <= i64::MAX,
                    result.wf(),
                    result.shape == old(result).shape,
                    ok ==> result.rows_in_range(),
                    ok ==> n <= result.shape.0,
                    exact::<V>() ==> v == one_spec::<V>(),
                    exact::<V>() ==> result.entries() == start + identity_entries::<V>(i as int, off as int, slot),
                    entry_keys(result.entries()) == entry_keys(start + identity_entries::<V>(i as int, off as int, slot)),
                decreases n - i,
            {
                let ghost before = result.entries();
                result.push(v, i as i64, off + i as i64, slot);
                proof {
                    assert(result.entries() =~= before.push((v, i as i64, (off + i) as i64, slot)));
                    assert(identity_entries::<V>(i + 1, off as int, slot) =~= identity_entries::<V>(i as int, off as int, slot).push((one_spec::<V>(), i as i64, (off + i) as i64, slot)));
                    assert(start + identity_entries::<V>(i + 1, off as int, slot) =~= (start + identity_entries::<V>(i as int, off as int, slot)).push((one_spec::<V>(), i as i64, (off + i) as i64, slot)));
                    let sq = start + identity_entries::<V>(i as int, off as int, slot);
                    let key = (i as i64, (off + i) as i64, slot);
                    assert(entry_keys(before.push((v, i as i64, (off + i) as i64, slot))) =~= entry_keys(before).push(key));
                    assert(entry_keys(sq.push((one_spec::<V>(), i as i64, (off + i) as i64, slot))) =~= entry_keys(sq).push(key));
                    if exact::<V>() {
                        assert(identity_entries::<V>(i + 1, off as int, slot) =~= identity_entries::<V>(i as int, off as int, slot).push((v, i as i64, (off + i) as i64, slot)));
                    }
                }
                i = i + 1;
            }
        },
        Block::Dense(d) => {
            let rows = d.rows;
            let len = d.data.len();
            let mut p: usize = 0;
            let mut r: usize = 0;
            let mut c: usize = 0;
            while p < len
                invariant
                    len == d.data@.len(),
                    len == rows * d.cols,
                    rows <= i64::MAX,
                    d.cols <= i64::MAX,
                    off + d.cols <= i64::MAX,
                    p <= len,
                    rows > 0 ==> r < rows,
                    p == c * rows + r,
                    result.wf(),
                    result.shape == old(result).shape,
                    ok ==> result.rows_in_range(),
                    ok ==> rows <= result.shape.0,
                    exact::<V>() ==> result.entries() == start + dense_entries(
                        d.data@,
                        rows as int,
                        off as int,
                        slot,
                        p as int,
                    ),
                decreases len - p,
            {
                assert(rows > 0) by {
                    if rows == 0 {
                        assert(len == 0);
                    }
                }
                proof {
                    lemma_col_major(p as int, rows as int, c as int, r as int);
                    assert(c < d.cols) by (nonlinear_arith)
                        requires
                            p == c * rows + r,
                            p < len,
                            len == rows * d.cols,
                            0 <= r,
                            rows > 0,
                    ;
                }
                let x = d.data[p];
                let z = is_zero(&x);
                if !z {
                    let ghost before = result.entries();
                    result.push(x, r as i64, off + c as i64, slot);
                    proof {
                        assert(result.entries() =~= before.push((x, r as i64, (off + c) as i64, slot)));
                    }
                }
                let ghost c0 = c;
                p = p + 1;
                r = r + 1;
                if r == rows {
                    r = 0;
                    c = c + 1;
                    assert(p == c * rows + r) by (nonlinear_arith)
                        requires
                            p == c0 * rows + rows,
                            c == c0 + 1,
                            r == 0,
                    ;
                }
            }
        },
        Block::Coo(t) => {
            let copy = t.copied();
            let ghost r0 = result.rows@;
            result.extend(copy);
            proof {
                assert(result.entries() =~= start + t.entries());
                if ok {
                    assert forall|i: int| 0 <= i < result.rows@.len() implies 0 <= #[trigger] result.rows@[i] < result.shape.0 by {
                        if i >= r0.len() {
                            assert(result.rows@[i] == t.rows@[i - r0.len()]);
                        }
                    }
                }
            }
        },
    }
}

} // verus!
