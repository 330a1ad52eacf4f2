//! Counting entries into buckets and turning counts into offsets, as CSR and
//! CSC index pointers are built.
use vstd::prelude::*;

verus! {

/// Number of ids equal to `b`.
pub open spec fn bucket_count(ids: Seq<int>, b: int) -> nat
    decreases ids.len(),
{
    if ids.len() == 0 {
        0
    } else {
        bucket_count(ids.drop_last(), b) + if ids.last() == b { 1nat } else { 0nat }
    }
}

/// Number of ids below `c`.
pub open spec fn below_count(ids: Seq<int>, c: int) -> nat
    decreases ids.len(),
{
    if ids.len() == 0 {
        0
    } else {
        below_count(ids.drop_last(), c) + if ids.last() < c { 1nat } else { 0nat }
    }
}

/// Sum of `s[0..=c]`.
pub open spec fn prefix_sum(s: Seq<i64>, c: int) -> int
    decreases c + 1,
{
    if c < 0 {
        0
    } else {
        prefix_sum(s, c - 1) + s[c]
    }
}

/// Counting ids below `c + 1` adds the ids equal to `c`.
pub proof fn lemma_below_step(ids: Seq<int>, c: int)
    ensures
        below_count(ids, c + 1) == below_count(ids, c) + bucket_count(ids, c),
    decreases ids.len(),
{
    if ids.len() > 0 {
        lemma_below_step(ids.drop_last(), c);
    }
}

/// No id lies below zero when all ids are non-negative.
pub proof fn lemma_below_zero(ids: Seq<int>)
    requires
        forall|k: int| 0 <= k < ids.len() ==> 0 <= #[trigger] ids[k],
    ensures
        below_count(ids, 0) == 0,
    decreases ids.len(),
{
    if ids.len() > 0 {
        lemma_below_zero(ids.drop_last());
    }
}

/// All ids lie below any bound above every id.
pub proof fn lemma_below_all(ids: Seq<int>, c: int)
    requires
        forall|k: int| 0 <= k < ids.len() ==> #[trigger] ids[k] < c,
    ensures
        below_count(ids, c) == ids.len(),
    decreases ids.len(),
{
    if ids.len() > 0 {
        lemma_below_all(ids.drop_last(), c);
    }
}

/// Counts are bounded by the number of ids.
pub proof fn lemma_counts_bounded(ids: Seq<int>, b: int)
    ensures
        bucket_count(ids, b) <= ids.len(),
        below_count(ids, b) <= ids.len(),
    decreases ids.len(),
{
    if ids.len() > 0 {
        lemma_counts_bounded(ids.drop_last(), b);
    }
}

/// With `counts[0] == 0` and `counts[b + 1]` the number of ids equal to `b`,
/// the prefix sums of `counts` count the ids below each bound.
pub proof fn lemma_prefix_sums_count_below(ids: Seq<int>, counts: Seq<i64>, c: int)
    requires
        0 <= c < counts.len(),
        counts[0] == 0,
        forall|b: int| 0 <= b < counts.len() - 1 ==> #[trigger] counts[b + 1] == bucket_count(ids, b),
        forall|k: int| 0 <= k < ids.len() ==> 0 <= #[trigger] ids[k],
    ensures
        prefix_sum(counts, c) == below_count(ids, c),
    decreases c,
{
    if c == 0 {
        lemma_below_zero(ids);
        assert(prefix_sum(counts, -1) == 0);
    } else {
        lemma_prefix_sums_count_below(ids, counts, c - 1);
        lemma_below_step(ids, c - 1);
        assert(counts[(c - 1) + 1] == bucket_count(ids, c - 1));
    }
}

/// Replace each element by the sum of it and all before it.
pub fn cumulative_sum_in_place(v: &mut Vec<i64>)
    requires
        forall|c: int| 0 <= c < old(v)@.len() ==> 0 <= #[trigger] old(v)@[c],
        prefix_sum(old(v)@, old(v)@.len() - 1) <= i64::MAX,
    ensures
        final(v)@.len() == old(v)@.len(),
        forall|c: int| 0 <= c < old(v)@.len() ==> #[trigger] final(v)@[c] == prefix_sum(old(v)@, c),
{
    let n = v.len();
    if n == 0 {
        return;
    }
    let mut r: usize = 1;
    assert(prefix_sum(old(v)@, -1) == 0);
    while r < n
        invariant
            1 <= r <= n,
            n == old(v)@.len(),
            v@.len() == n,
            forall|c: int| 0 <= c < n ==> 0 <= #[trigger] old(v)@[c],
            prefix_sum(old(v)@, n - 1) <= i64::MAX,
            forall|c: int| 0 <= c < r ==> #[trigger] v@[c] == prefix_sum(old(v)@, c),
            forall|c: int| r <= c < n ==> #[trigger] v@[c] == old(v)@[c],
        decreases n - r,
    {
        proof {
            lemma_prefix_sum_monotone(old(v)@, r as int, n - 1);
        }
        let s = v[r] + v[r - 1];
        v.set(r, s);
        r = r + 1;
    }
}

/// Prefix sums of non-negative elements grow.
pub proof fn lemma_prefix_sum_monotone(s: Seq<i64>, a: int, b: int)
    requires
        -1 <= a <= b < s.len(),
        forall|c: int| 0 <= c < s.len() ==> 0 <= #[trigger] s[c],
    ensures
        prefix_sum(s, a) <= prefix_sum(s, b),
    decreases b - a,
{
    if a < b {
        lemma_prefix_sum_monotone(s, a, b - 1);
    }
}

/// Count ids into `counts[id + 1]` and sum up: afterwards `counts[c]` is
/// the number of ids below `c`.
pub proof fn lemma_bucket_extend(ids: Seq<int>, x: int, b: int)
    ensures
        bucket_count(ids.push(x), b) == bucket_count(ids, b) + if x == b { 1nat } else { 0nat },
        below_count(ids.push(x), b) == below_count(ids, b) + if x < b { 1nat } else { 0nat },
{
    assert(ids.push(x).drop_last() =~= ids);
}

} // verus!
