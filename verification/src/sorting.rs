//! Sorting of index vectors by an integer key, through the standard library
//! and through rayon's parallel sort.
use vstd::prelude::*;
use rayon::slice::ParallelSliceMut;

verus! {

/// `order` lists indices whose keys ascend.
pub open spec fn sorted_by_keys(order: Seq<usize>, keys: Seq<i64>) -> bool {
    forall|i: int, j: int|
        0 <= i <= j < order.len() ==> keys[#[trigger] order[i] as int] <= keys[#[trigger] order[j] as int]
}

/// `perm` is a permutation of `0..n`.
pub open spec fn is_permutation(perm: Seq<usize>, n: int) -> bool {
    &&& perm.len() == n
    &&& perm.no_duplicates()
    &&& forall|k: int| 0 <= k < perm.len() ==> #[trigger] perm[k] < n
}

/// Sorts `order` by `keys[order[i]]` with the standard library's
/// `slice::sort_unstable_by_key`.  Claimed: the result holds the same
/// indices (as a multiset) and their keys ascend; how equal keys are ordered
/// is left open, as the documentation leaves it open.
#[verifier::external_body]
pub(crate) fn sort_order_by_key(order: &mut Vec<usize>, keys: &[i64])
    requires
        forall|i: int| 0 <= i < old(order)@.len() ==> #[trigger] old(order)@[i] < keys@.len(),
    ensures
        final(order)@.to_multiset() == old(order)@.to_multiset(),
        sorted_by_keys(final(order)@, keys@),
{
    order.sort_unstable_by_key(|&i| keys[i]);
}

/// Sorts `order` by `keys[order[i]]` with rayon's parallel
/// `ParallelSliceMut::par_sort_unstable_by_key`.  Claimed: the result holds
/// the same indices (as a multiset) and their keys ascend; how equal keys
/// are ordered is left open, as the documentation leaves it open.
#[verifier::external_body]
pub(crate) fn par_sort_order_by_key(order: &mut Vec<usize>, keys: &[i64])
    requires
        forall|i: int| 0 <= i < old(order)@.len() ==> #[trigger] old(order)@[i] < keys@.len(),
    ensures
        final(order)@.to_multiset() == old(order)@.to_multiset(),
        sorted_by_keys(final(order)@, keys@),
{
    order.par_sort_unstable_by_key(|&i| keys[i]);
}

/// The identity order `[0, 1, ..., n-1]`.
pub fn identity_order(n: usize) -> (order: Vec<usize>)
    ensures
        order@.len() == n,
        forall|k: int| 0 <= k < n ==> #[trigger] order@[k] == k,
{
    let mut order: Vec<usize> = Vec::with_capacity(n);
    let mut i: usize = 0;
    while i < n
        invariant
            i <= n,
            order@.len() == i,
            forall|k: int| 0 <= k < i ==> #[trigger] order@[k] == k,
        decreases n - i,
    {
        order.push(i);
        i = i + 1;
    }
    order
}

/// A reordering of the identity order is a permutation.
pub proof fn lemma_reordered_identity_is_permutation(ident: Seq<usize>, order: Seq<usize>)
    requires
        forall|k: int| 0 <= k < ident.len() ==> #[trigger] ident[k] == k,
        order.to_multiset() == ident.to_multiset(),
    ensures
        is_permutation(order, ident.len() as int),
{
    broadcast use vstd::seq_lib::group_to_multiset_ensures;
    assert(ident.no_duplicates());
    ident.lemma_multiset_has_no_duplicates();
    order.lemma_multiset_has_no_duplicates_conv();
    assert(order.len() == ident.len()) by {
        vstd::seq_lib::to_multiset_len(order);
        vstd::seq_lib::to_multiset_len(ident);
    }
    assert forall|k: int| 0 <= k < order.len() implies #[trigger] order[k] < ident.len() by {
        assert(order.contains(order[k]));
        assert(ident.to_multiset().count(order[k]) > 0);
        assert(ident.contains(order[k]));
    }
}

} // verus!
