//! The static strided partition of one iteration's operation indices.
//!
//! Worker `k` of `threads` is assigned the indices `k, k + threads,
//! k + 2*threads, ...` below `batch`. Together the workers cover every
//! index in `[0, batch)` exactly once, and their shares differ in size by
//! at most one.

use vstd::prelude::*;
use vstd::arithmetic::div_mod::*;
use vstd::arithmetic::mul::*;

verus! {

/// How many operation indices worker `k` is assigned: the size of
/// `{ i | 0 <= i < batch && i % threads == k }` for `0 <= k < threads`.
pub open spec fn stride_count(k: int, threads: int, batch: int) -> int
    recommends
        threads >= 1,
        0 <= k,
{
    if k >= batch {
        0
    } else {
        (batch - 1 - k) / threads + 1
    }
}

/// Worker `k`'s operation indices, in the order the worker visits them.
pub open spec fn stride_seq(k: int, threads: int, batch: int) -> Seq<int>
    recommends
        threads >= 1,
        0 <= k,
{
    Seq::new(stride_count(k, threads, batch) as nat, |j: int| k + j * threads)
}

/// Builds worker `k`'s assigned operation indices: `k, k + threads, ...`
/// while below `batch`.
pub fn worker_indices(k: u64, threads: u64, batch: u64) -> (v: Vec<u64>)
    requires
        threads >= 1,
    ensures
        v@.len() == stride_count(k as int, threads as int, batch as int),
        forall|j: int| 0 <= j < v@.len() ==> v@[j] == k + j * threads,
{
    let mut v: Vec<u64> = Vec::new();
    if k >= batch {
        return v;
    }
    let count: u64 = (batch - 1 - k) / threads + 1;
    let mut j: u64 = 0;
    while j < count
        invariant
            threads >= 1,
            k < batch,
            count == stride_count(k as int, threads as int, batch as int),
            j <= count,
            v@.len() == j,
            forall|q: int| 0 <= q < v@.len() ==> v@[q] == k + q * threads,
        decreases count - j,
    {
        proof {
            lemma_stride_element_in_range(k as int, threads as int, batch as int, j as int);
        }
        v.push(k + j * threads);
        j = j + 1;
    }
    v
}

/// Every assigned index lies inside the batch: position `j` of worker `k`'s
/// sequence holds `k + j * threads`, which is below `batch`.
pub proof fn lemma_stride_element_in_range(k: int, threads: int, batch: int, j: int)
    requires
        threads >= 1,
        0 <= k,
        0 <= j < stride_count(k, threads, batch),
    ensures
        0 <= k + j * threads < batch,
        stride_seq(k, threads, batch)[j] == k + j * threads,
{
    lemma_mul_nonnegative(j, threads);
    // j <= (batch - 1 - k) / threads, so j * threads <= batch - 1 - k.
    lemma_mul_inequality(j, (batch - 1 - k) / threads, threads);
    lemma_fundamental_div_mod(batch - 1 - k, threads);
    lemma_mod_division_less_than_divisor(batch - 1 - k, threads);
}

/// Partition completeness: every operation index `i` in `[0, batch)` is
/// covered by exactly one worker at exactly one position — worker
/// `i % threads`, at position `i / threads` of its sequence — so the
/// strided shares cover `{0, ..., batch-1}` with no gaps and no overlaps.
pub proof fn lemma_partition_complete(threads: int, batch: int, i: int)
    requires
        threads >= 1,
        0 <= i < batch,
    ensures
        0 <= i % threads < threads,
        0 <= i / threads < stride_count(i % threads, threads, batch),
        stride_seq(i % threads, threads, batch)[i / threads] == i,
        forall|k: int, j: int|
            0 <= k < threads && 0 <= j < stride_count(k, threads, batch)
                && stride_seq(k, threads, batch)[j] == i
                ==> k == i % threads && j == i / threads,
{
    let k0 = i % threads;
    let j0 = i / threads;
    lemma_fundamental_div_mod(i, threads);
    lemma_mod_division_less_than_divisor(i, threads);
    lemma_div_pos_is_pos(i, threads);

    // Position j0 is within worker k0's share: j0 <= (batch - 1 - k0) / threads.
    assert(j0 * threads == i - k0);
    lemma_div_by_multiple(j0, threads);
    assert((i - k0) / threads == j0);
    lemma_div_is_ordered(i - k0, batch - 1 - k0, threads);
    assert(j0 < stride_count(k0, threads, batch));
    assert(stride_seq(k0, threads, batch)[j0] == k0 + j0 * threads);

    // Uniqueness: any (k, j) with k + j * threads == i has k == i % threads
    // and j == i / threads, since 0 <= k < threads.
    assert forall|k: int, j: int|
        0 <= k < threads && 0 <= j < stride_count(k, threads, batch)
            && stride_seq(k, threads, batch)[j] == i
        implies k == i % threads && j == i / threads by {
        assert(i == j * threads + k);
        lemma_fundamental_div_mod_converse(i, threads, j, k);
    }
}

/// Per-worker balance: any two workers' shares differ in size by at most
/// one index.
pub proof fn lemma_partition_balanced(threads: int, batch: int, k1: int, k2: int)
    requires
        threads >= 1,
        0 <= k1 < threads,
        0 <= k2 < threads,
    ensures
        stride_count(k1, threads, batch) <= stride_count(k2, threads, batch) + 1,
{
    if k1 < batch && k2 < batch {
        // (batch - 1 - k1) exceeds (batch - 1 - k2) by less than `threads`,
        // so the quotients differ by at most one.
        lemma_div_is_ordered(batch - 1 - k1, batch - 1 - k2 + threads, threads);
        lemma_div_plus_one(batch - 1 - k2, threads);
    } else if k1 < batch {
        // k2 >= batch, so batch <= k2 < threads: worker k1's share is at
        // most one index, at position 0.
        assert(batch - 1 - k1 < threads);
        lemma_basic_div(batch - 1 - k1, threads);
    }
}

} // verus!

