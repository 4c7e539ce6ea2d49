//! A log-linear latency histogram with percentile queries.
//!
//! Values are bucketed at a configurable precision: with grouping power
//! `p`, values below `2^(p+1)` get a bucket each (relative error zero), and
//! each further power-of-two range `[2^h, 2^(h+1))` is split into `2^p`
//! equal buckets, so the relative bucket width stays below `2^-p`. With max
//! value power `n`, every value up to `2^n - 1` is representable. A
//! percentile query returns the bucket whose cumulative sample count first
//! reaches the requested fraction of all samples, ties broken toward the
//! lower bucket.

use vstd::prelude::*;
use vstd::arithmetic::div_mod::*;
use vstd::arithmetic::mul::*;
use vstd::arithmetic::power2::*;

verus! {

/// The histogram's failure cases.
#[derive(Clone, Copy, Debug, PartialEq, Eq, Structural)]
pub enum Error {
    /// The grouping power and max value power passed at construction are
    /// out of range, or ask for more buckets than this machine can index.
    InvalidConfig,
    /// A recorded value exceeds the histogram's representable range.
    OutOfRange,
    /// A percentile query on a histogram that holds no samples.
    Empty,
}

impl Error {
    /// A short description of the failure.
    pub fn message(&self) -> (r: &'static str) {
        match self {
            Error::InvalidConfig => "invalid histogram construction parameters",
            Error::OutOfRange => "value exceeds the histogram's representable range",
            Error::Empty => "the histogram holds no samples",
        }
    }
}

/// Construction parameters the histogram accepts: values must fit in 64
/// bits, the grouping must be coarser than the value range, and bucket
/// indices must fit in 32 bits.
pub open spec fn valid_params(p: int, n: int) -> bool {
    &&& 0 <= p <= 31
    &&& p < n <= 64
    &&& num_buckets(p, n) <= u32::MAX
}

/// The first value bucketed with a width above one: `2^(p+1)`.
pub open spec fn cutoff(p: int) -> int {
    pow2((p + 1) as nat) as int
}

/// The number of buckets: one per value below the cutoff, then `2^p` per
/// power-of-two range up to `2^n`.
pub open spec fn num_buckets(p: int, n: int) -> int {
    cutoff(p) + (n - p - 1) * pow2(p as nat) as int
}

/// The largest representable value, `2^n - 1`.
pub open spec fn max_trackable(n: int) -> int {
    pow2(n as nat) - 1
}

/// The floor of the base-two logarithm (0 for inputs below 2).
pub open spec fn log2_floor(v: int) -> int
    decreases v,
{
    if v < 2 {
        0
    } else {
        1 + log2_floor(v / 2)
    }
}

/// The index of the bucket that holds `v`.
pub open spec fn bucket_index(v: int, p: int) -> int {
    if v < cutoff(p) {
        v
    } else {
        let h = log2_floor(v);
        cutoff(p) + (h - p - 1) * pow2(p as nat) + (v - pow2(h as nat)) / pow2((h - p) as nat) as int
    }
}

/// The smallest value of bucket `i`.
pub open spec fn bucket_start(i: int, p: int) -> int {
    if i < cutoff(p) {
        i
    } else {
        let g = (i - cutoff(p)) / pow2(p as nat) as int;
        let off = (i - cutoff(p)) % pow2(p as nat) as int;
        pow2((p + 1 + g) as nat) + off * pow2((g + 1) as nat)
    }
}

/// The number of values bucket `i` covers.
pub open spec fn bucket_width(i: int, p: int) -> int {
    if i < cutoff(p) {
        1
    } else {
        pow2(((i - cutoff(p)) / pow2(p as nat) as int + 1) as nat) as int
    }
}

/// The largest value of bucket `i` (its reported upper bound).
pub open spec fn bucket_end(i: int, p: int) -> int {
    bucket_start(i, p) + bucket_width(i, p) - 1
}

/// The sum of the first `end` bucket counts.
pub open spec fn prefix_count(counts: Seq<u64>, end: int) -> int
    decreases end,
{
    if end <= 0 {
        0
    } else {
        prefix_count(counts, end - 1) + counts[end - 1]
    }
}

/// The total number of recorded samples.
pub open spec fn total_count(counts: Seq<u64>) -> int {
    prefix_count(counts, counts.len() as int)
}

/// The cumulative sample count a query for percentile `pct` must reach:
/// the `pct`-th fraction of all samples, rounded up.
pub open spec fn threshold(pct: int, total: int) -> int {
    (pct * total + 99) / 100
}

/// The index of the bucket whose cumulative count first reaches `needed`:
/// buckets are scanned in value order, so ties break toward the lower
/// bucket.
pub open spec fn find_reaching(counts: Seq<u64>, needed: int) -> int
    decreases counts.len(),
{
    if counts.len() == 0 {
        0
    } else if counts[0] >= needed {
        0
    } else {
        1 + find_reaching(counts.subrange(1, counts.len() as int), needed - counts[0])
    }
}

/// The bucket a query for percentile `pct` selects.
pub open spec fn percentile_index(counts: Seq<u64>, pct: int) -> int {
    find_reaching(counts, threshold(pct, total_count(counts)))
}

/// `log2_floor` names the position of the highest set bit: `2^log2_floor(v)
/// <= v < 2^(log2_floor(v) + 1)` for positive `v`.
pub proof fn lemma_log2_floor_bounds(v: int)
    requires
        v >= 1,
    ensures
        log2_floor(v) >= 0,
        pow2(log2_floor(v) as nat) <= v < pow2((log2_floor(v) + 1) as nat),
    decreases v,
{
    if v < 2 {
        assert(pow2(0) == 1 && pow2(1) == 2) by {
            lemma2_to64();
        }
    } else {
        lemma_log2_floor_bounds(v / 2);
        let h = log2_floor(v / 2);
        lemma_pow2_unfold((h + 1) as nat);
        lemma_pow2_unfold((h + 2) as nat);
        lemma_fundamental_div_mod(v, 2);
        lemma_mod_division_less_than_divisor(v, 2);
    }
}

/// Values at or above the cutoff sit in power-of-two ranges no lower than
/// `p + 1`; values below `2^n` sit no higher than `n - 1`.
pub proof fn lemma_log2_floor_range(v: int, p: int, n: int)
    requires
        valid_params(p, n),
        cutoff(p) <= v <= max_trackable(n),
    ensures
        p + 1 <= log2_floor(v) <= n - 1,
{
    let h = log2_floor(v);
    lemma_pow2_pos((p + 1) as nat);
    lemma_log2_floor_bounds(v);
    if h < p + 1 {
        lemma_pow2_strictly_increases((h + 1) as nat, (p + 1) as nat);
        assert(false);
    }
    if h > n - 1 {
        lemma_pow2_strictly_increases(n as nat, h as nat);
        assert(false);
    }
}

/// Decomposes a grouped bucket's index: bucket `cutoff + g * 2^p + off`
/// (with `0 <= off < 2^p`) is bucket `off` of log segment `g`.
pub proof fn lemma_bucket_decompose(g: int, off: int, p: int)
    requires
        0 <= p,
        0 <= g,
        0 <= off < pow2(p as nat),
    ensures
        (cutoff(p) + g * pow2(p as nat) + off - cutoff(p)) / pow2(p as nat) as int == g,
        (cutoff(p) + g * pow2(p as nat) + off - cutoff(p)) % pow2(p as nat) as int == off,
{
    lemma_pow2_pos(p as nat);
    lemma_fundamental_div_mod_converse(g * pow2(p as nat) + off, pow2(p as nat) as int, g, off);
}

/// Every representable value's bucket index is in range.
pub proof fn lemma_bucket_index_bounds(v: int, p: int, n: int)
    requires
        valid_params(p, n),
        0 <= v <= max_trackable(n),
    ensures
        0 <= bucket_index(v, p) < num_buckets(p, n),
{
    lemma_pow2_pos(p as nat);
    if v < cutoff(p) {
        // Linear region: the index is the value itself, below the cutoff,
        // and the cutoff never exceeds the bucket count.
        lemma_mul_nonnegative(n - p - 1, pow2(p as nat) as int);
    } else {
        let h = log2_floor(v);
        lemma_log2_floor_range(v, p, n);
        lemma_log2_floor_bounds(v);
        let w = pow2((h - p) as nat) as int;
        lemma_pow2_pos((h - p) as nat);
        let off = (v - pow2(h as nat)) / w;
        lemma_div_pos_is_pos(v - pow2(h as nat), w);
        // off < 2^p: the range [2^h, 2^(h+1)) spans 2^h = 2^p * 2^(h-p)
        // values, split into widths of 2^(h-p).
        lemma_pow2_adds(p as nat, (h - p) as nat);
        lemma_pow2_unfold((h + 1) as nat);
        assert(v - pow2(h as nat) < pow2(p as nat) * w);
        lemma_multiply_divide_lt(v - pow2(h as nat), w, pow2(p as nat) as int);
        assert(off < pow2(p as nat));
        // index = cutoff + (h - p - 1) * 2^p + off < cutoff + (n - p - 1) * 2^p.
        lemma_mul_nonnegative(h - p - 1, pow2(p as nat) as int);
        lemma_mul_inequality(h - p, n - p - 1, pow2(p as nat) as int);
        assert((h - p - 1) * pow2(p as nat) + pow2(p as nat) == (h - p) * pow2(p as nat)) by {
            lemma_mul_is_distributive_add_other_way(pow2(p as nat) as int, h - p - 1, 1);
        }
    }
}

/// Every value lies inside its own bucket: `bucket_start(bucket_index(v))
/// <= v <= bucket_end(bucket_index(v))`.
pub proof fn lemma_bucket_containment(v: int, p: int, n: int)
    requires
        valid_params(p, n),
        0 <= v <= max_trackable(n),
    ensures
        bucket_start(bucket_index(v, p), p) <= v <= bucket_end(bucket_index(v, p), p),
{
    lemma_pow2_pos(p as nat);
    if v >= cutoff(p) {
        let h = log2_floor(v);
        lemma_log2_floor_range(v, p, n);
        lemma_log2_floor_bounds(v);
        let w = pow2((h - p) as nat) as int;
        lemma_pow2_pos((h - p) as nat);
        let off = (v - pow2(h as nat)) / w;
        let i = bucket_index(v, p);
        lemma_div_pos_is_pos(v - pow2(h as nat), w);
        lemma_pow2_adds(p as nat, (h - p) as nat);
        lemma_pow2_unfold((h + 1) as nat);
        lemma_multiply_divide_lt(v - pow2(h as nat), w, pow2(p as nat) as int);
        // The index decomposes back into segment h - p - 1 and offset off.
        lemma_bucket_decompose(h - p - 1, off, p);
        assert(bucket_start(i, p) == pow2(h as nat) + off * pow2((h - p) as nat));
        assert(bucket_width(i, p) == w);
        // off * w <= v - 2^h < (off + 1) * w by the division's definition.
        lemma_fundamental_div_mod(v - pow2(h as nat), w);
        lemma_mod_division_less_than_divisor(v - pow2(h as nat), w);
        assert(off * w == w * off) by {
            lemma_mul_is_commutative(off, w);
        }
        assert((off + 1) * w == off * w + w) by {
            lemma_mul_is_distributive_add_other_way(w, off, 1);
        }
    }
}

/// Consecutive buckets tile the value range: bucket `i + 1` starts right
/// after bucket `i` ends.
pub proof fn lemma_buckets_adjacent(i: int, p: int)
    requires
        0 <= p <= 62,
        0 <= i,
    ensures
        bucket_end(i, p) + 1 == bucket_start(i + 1, p),
{
    let c = cutoff(p);
    let pp = pow2(p as nat) as int;
    lemma_pow2_pos(p as nat);
    if i + 1 < c {
        // Both in the linear region: width one.
    } else if i + 1 == c {
        // The first grouped bucket starts at the cutoff itself.
        lemma_bucket_decompose(0, 0, p);
        assert(bucket_start(c, p) == pow2((p + 1) as nat) + 0 * pow2(1));
    } else {
        let g = (i - c) / pp;
        let off = (i - c) % pp;
        lemma_mod_division_less_than_divisor(i - c, pp);
        lemma_div_pos_is_pos(i - c, pp);
        lemma_fundamental_div_mod(i - c, pp);
        assert(i == c + g * pp + off) by {
            lemma_mul_is_commutative(g, pp);
        }
        let w = pow2((g + 1) as nat) as int;
        lemma_pow2_pos((g + 1) as nat);
        if off + 1 < pp {
            // Same segment: the next bucket starts one width later.
            lemma_bucket_decompose(g, off + 1, p);
            assert(bucket_start(i + 1, p) == pow2((p + 1 + g) as nat) + (off + 1) * w);
            assert((off + 1) * w == off * w + w) by {
                lemma_mul_is_distributive_add_other_way(w, off, 1);
            }
        } else {
            // Last bucket of its segment: the next segment starts at the
            // next power of two.
            assert(i + 1 == c + (g + 1) * pp + 0) by {
                lemma_mul_is_distributive_add_other_way(pp, g, 1);
            }
            lemma_bucket_decompose(g + 1, 0, p);
            assert(bucket_start(i + 1, p) == pow2((p + 1 + g + 1) as nat) + 0 * pow2((g + 2) as nat));
            // end(i) + 1 = 2^(p+1+g) + 2^p * 2^(g+1) = 2^(p+g+2).
            assert((pp - 1) * w + w == pp * w) by {
                lemma_mul_is_distributive_add_other_way(w, pp - 1, 1);
            }
            lemma_pow2_adds(p as nat, (g + 1) as nat);
            lemma_pow2_unfold((p + g + 2) as nat);
        }
    }
}

/// Bucket upper bounds grow with the bucket index.
pub proof fn lemma_bucket_end_monotone(i: int, j: int, p: int)
    requires
        0 <= p <= 62,
        0 <= i <= j,
    ensures
        bucket_end(i, p) <= bucket_end(j, p),
    decreases j - i,
{
    if i < j {
        lemma_bucket_end_monotone(i, j - 1, p);
        lemma_buckets_adjacent(j - 1, p);
        // end(j) >= start(j) since every width is at least one.
        if j >= cutoff(p) {
            lemma_pow2_pos(((j - cutoff(p)) / pow2(p as nat) as int + 1) as nat);
            lemma_pow2_pos(p as nat);
            lemma_div_pos_is_pos(j - cutoff(p), pow2(p as nat) as int);
        }
    }
}

/// The last bucket ends exactly at the largest representable value, so no
/// bucket's bound overflows it.
pub proof fn lemma_bucket_end_max(p: int, n: int)
    requires
        valid_params(p, n),
    ensures
        bucket_end(num_buckets(p, n) - 1, p) == max_trackable(n),
{
    let c = cutoff(p);
    let pp = pow2(p as nat) as int;
    lemma_pow2_pos(p as nat);
    if n == p + 1 {
        // No grouped region: the last linear bucket is 2^(p+1) - 1.
        assert(num_buckets(p, n) == c + 0 * pp);
    } else {
        let g = n - p - 2;
        let i = num_buckets(p, n) - 1;
        assert(i == c + g * pp + (pp - 1)) by {
            lemma_mul_is_distributive_add_other_way(pp, g, 1);
        }
        lemma_mul_nonnegative(g, pp);
        lemma_bucket_decompose(g, pp - 1, p);
        let w = pow2((g + 1) as nat) as int;
        assert(bucket_start(i, p) == pow2((p + 1 + g) as nat) + (pp - 1) * w);
        assert((pp - 1) * w + w == pp * w) by {
            lemma_mul_is_distributive_add_other_way(w, pp - 1, 1);
        }
        lemma_pow2_adds(p as nat, (g + 1) as nat);
        lemma_pow2_unfold(n as nat);
    }
}

/// The bucket count is the grouped product `(n - p + 1) * 2^p`, is at
/// least the cutoff, and fits the accepted index range.
pub proof fn lemma_num_buckets_fits(p: int, n: int)
    requires
        valid_params(p, n),
    ensures
        2 <= cutoff(p) <= num_buckets(p, n) <= u32::MAX,
        num_buckets(p, n) == (n - p + 1) * pow2(p as nat),
{
    let pp = pow2(p as nat) as int;
    lemma_pow2_pos(p as nat);
    lemma_pow2_unfold((p + 1) as nat);
    lemma_mul_nonnegative(n - p - 1, pp);
    assert(num_buckets(p, n) == (n - p + 1) * pp) by {
        lemma_mul_is_distributive_add_other_way(pp, 2, n - p - 1);
    }
}

/// Prefix counts never decrease as the prefix grows.
pub proof fn lemma_prefix_monotone(counts: Seq<u64>, i: int, j: int)
    requires
        0 <= i <= j <= counts.len(),
    ensures
        prefix_count(counts, i) <= prefix_count(counts, j),
    decreases j - i,
{
    if i < j {
        lemma_prefix_monotone(counts, i, j - 1);
    }
}

/// Every prefix count is nonnegative.
pub proof fn lemma_prefix_nonneg(counts: Seq<u64>, i: int)
    requires
        0 <= i <= counts.len(),
    ensures
        prefix_count(counts, i) >= 0,
{
    lemma_prefix_monotone(counts, 0, i);
}

/// Raising one bucket's count by one raises every prefix count that covers
/// it by one, and leaves the shorter prefixes alone.
pub proof fn lemma_prefix_update(counts: Seq<u64>, idx: int, v: u64, end: int)
    requires
        0 <= idx < counts.len(),
        0 <= end <= counts.len(),
    ensures
        prefix_count(counts.update(idx, v), end) == prefix_count(counts, end) + (
        if idx < end {
            v - counts[idx]
        } else {
            0
        }),
    decreases end,
{
    if end > 0 {
        lemma_prefix_update(counts, idx, v, end - 1);
    }
}

/// A prefix count splits into the first bucket plus the rest's prefix.
pub proof fn lemma_prefix_tail(counts: Seq<u64>, end: int)
    requires
        1 <= end <= counts.len(),
    ensures
        prefix_count(counts, end) == counts[0] + prefix_count(
            counts.subrange(1, counts.len() as int),
            end - 1,
        ),
    decreases end,
{
    let tail = counts.subrange(1, counts.len() as int);
    if end > 1 {
        lemma_prefix_tail(counts, end - 1);
    } else {
        assert(prefix_count(counts, 0) == 0);
        assert(prefix_count(tail, 0) == 0);
    }
}

/// What the selected bucket means: `find_reaching` names the first index
/// whose cumulative count reaches `needed`, and such an index exists
/// whenever `needed` is positive and no more than the total.
pub proof fn lemma_find_reaching_char(counts: Seq<u64>, needed: int)
    requires
        1 <= needed <= total_count(counts),
    ensures
        0 <= find_reaching(counts, needed) < counts.len(),
        prefix_count(counts, find_reaching(counts, needed) + 1) >= needed,
        prefix_count(counts, find_reaching(counts, needed)) < needed,
    decreases counts.len(),
{
    lemma_prefix_nonneg(counts, counts.len() as int);
    assert(counts.len() > 0);
    if counts[0] >= needed {
        assert(prefix_count(counts, 0) == 0);
        assert(prefix_count(counts, 1) == counts[0]);
    } else {
        let tail = counts.subrange(1, counts.len() as int);
        lemma_prefix_tail(counts, counts.len() as int);
        lemma_find_reaching_char(tail, needed - counts[0]);
        let i = find_reaching(tail, needed - counts[0]);
        lemma_prefix_tail(counts, i + 2);
        lemma_prefix_tail(counts, i + 1);
    }
}

/// Only one index can be the first to reach a given cumulative count.
pub proof fn lemma_reaching_unique(counts: Seq<u64>, needed: int, i1: int, i2: int)
    requires
        0 <= i1 < counts.len(),
        0 <= i2 < counts.len(),
        prefix_count(counts, i1 + 1) >= needed,
        prefix_count(counts, i1) < needed,
        prefix_count(counts, i2 + 1) >= needed,
        prefix_count(counts, i2) < needed,
    ensures
        i1 == i2,
{
    if i1 < i2 {
        lemma_prefix_monotone(counts, i1 + 1, i2);
    }
    if i2 < i1 {
        lemma_prefix_monotone(counts, i2 + 1, i1);
    }
}

/// A percentile in (0, 100] of a populated histogram needs at least one
/// sample and never more than all of them.
pub proof fn lemma_threshold_bounds(pct: int, total: int)
    requires
        1 <= pct <= 100,
        total >= 1,
    ensures
        1 <= threshold(pct, total) <= total,
{
    lemma_mul_inequality(1, pct, total);
    lemma_mul_inequality(pct, 100, total);
    assert((1 * total + 99) / 100 >= 1) by {
        lemma_div_is_ordered(100, total + 99, 100);
    }
    assert((100 * total + 99) / 100 == total) by {
        lemma_fundamental_div_mod_converse(100 * total + 99, 100, total, 99);
        lemma_mul_is_commutative(100, total);
    }
    lemma_div_is_ordered(pct * total + 99, 100 * total + 99, 100);
    lemma_div_is_ordered(1 * total + 99, pct * total + 99, 100);
}

/// A higher percentile needs at least as many cumulative samples.
pub proof fn lemma_threshold_monotone(p1: int, p2: int, total: int)
    requires
        p1 <= p2,
        total >= 0,
    ensures
        threshold(p1, total) <= threshold(p2, total),
{
    lemma_mul_inequality(p1, p2, total);
    lemma_div_is_ordered(p1 * total + 99, p2 * total + 99, 100);
}

/// Needing more cumulative samples never selects an earlier bucket.
pub proof fn lemma_find_reaching_monotone(counts: Seq<u64>, n1: int, n2: int)
    requires
        1 <= n1 <= n2 <= total_count(counts),
    ensures
        find_reaching(counts, n1) <= find_reaching(counts, n2),
{
    let i1 = find_reaching(counts, n1);
    let i2 = find_reaching(counts, n2);
    lemma_find_reaching_char(counts, n1);
    lemma_find_reaching_char(counts, n2);
    if i2 < i1 {
        lemma_prefix_monotone(counts, i2 + 1, i1);
        assert(false);
    }
}

/// Histogram monotonicity law: on any populated histogram, a higher
/// percentile never selects a bucket with a lower upper bound:
/// `percentile(p1) <= percentile(p2)` whenever `p1 <= p2`.
pub proof fn lemma_percentile_monotonic(counts: Seq<u64>, p: int, n: int, p1: int, p2: int)
    requires
        valid_params(p, n),
        1 <= p1 <= p2 <= 100,
        total_count(counts) >= 1,
    ensures
        percentile_index(counts, p1) <= percentile_index(counts, p2),
        bucket_end(percentile_index(counts, p1), p) <= bucket_end(percentile_index(counts, p2), p),
{
    let total = total_count(counts);
    lemma_threshold_bounds(p1, total);
    lemma_threshold_bounds(p2, total);
    lemma_threshold_monotone(p1, p2, total);
    lemma_find_reaching_monotone(counts, threshold(p1, total), threshold(p2, total));
    lemma_find_reaching_char(counts, threshold(p1, total));
    lemma_bucket_end_monotone(percentile_index(counts, p1), percentile_index(counts, p2), p);
}

/// Histogram round-trip law: once a value is recorded, the bucket the
/// 100th percentile selects has an upper bound at least that value.
pub proof fn lemma_percentile_100_covers(counts: Seq<u64>, p: int, n: int, v: int)
    requires
        valid_params(p, n),
        counts.len() == num_buckets(p, n),
        0 <= v <= max_trackable(n),
        counts[bucket_index(v, p)] >= 1,
    ensures
        total_count(counts) >= 1,
        bucket_end(percentile_index(counts, 100), p) >= v,
{
    let total = total_count(counts);
    let idx = bucket_index(v, p);
    lemma_bucket_index_bounds(v, p, n);
    // The recorded value makes the total positive.
    lemma_prefix_nonneg(counts, idx);
    lemma_prefix_monotone(counts, idx + 1, counts.len() as int);
    assert(prefix_count(counts, idx + 1) == prefix_count(counts, idx) + counts[idx]);
    lemma_threshold_bounds(100, total);
    assert(threshold(100, total) == total) by {
        lemma_fundamental_div_mod_converse(100 * total + 99, 100, total, 99);
        lemma_mul_is_commutative(100, total);
    }
    let sel = percentile_index(counts, 100);
    lemma_find_reaching_char(counts, total);
    // The selected bucket cannot sit below any recorded bucket: all
    // samples, the recorded one included, lie at or before it.
    if sel < idx {
        lemma_prefix_monotone(counts, sel + 1, idx);
        assert(false);
    }
    lemma_bucket_end_monotone(idx, sel, p);
    lemma_bucket_containment(v, p, n);
}

/// Percentile positivity: on a populated histogram where every recorded
/// sample was positive (the zero-value bucket is empty), every percentile
/// selects a bucket with a positive upper bound. A recorded sample of zero
/// is the one input this cannot hold on: it makes the zero bucket
/// selectable.
pub proof fn lemma_percentile_positive(counts: Seq<u64>, p: int, n: int, pct: int)
    requires
        valid_params(p, n),
        counts.len() == num_buckets(p, n),
        total_count(counts) >= 1,
        1 <= pct <= 100,
        counts[0] == 0,
    ensures
        bucket_end(percentile_index(counts, pct), p) >= 1,
{
    let total = total_count(counts);
    let needed = threshold(pct, total);
    let sel = percentile_index(counts, pct);
    lemma_threshold_bounds(pct, total);
    lemma_find_reaching_char(counts, needed);
    // The selected bucket holds at least one sample, so it cannot be the
    // empty zero bucket.
    assert(prefix_count(counts, sel + 1) == prefix_count(counts, sel) + counts[sel]);
    assert(sel >= 1);
    // Bucket one ends at value one, and ends only grow from there.
    lemma2_to64();
    lemma_pow2_strictly_increases(0, (p + 1) as nat);
    assert(bucket_end(1, p) == 1);
    lemma_bucket_end_monotone(1, sel, p);
}

/// Computes a small power of two.
fn pow2_u64(e: u64) -> (r: u64)
    requires
        e <= 63,
    ensures
        r == pow2(e as nat),
{
    let mut r: u64 = 1;
    let mut k: u64 = 0;
    proof {
        lemma2_to64();
    }
    while k < e
        invariant
            k <= e <= 63,
            r == pow2(k as nat),
        decreases e - k,
    {
        proof {
            lemma_pow2_unfold((k + 1) as nat);
            lemma_pow2_strictly_increases((k + 1) as nat, 64);
            lemma2_to64_rest();
        }
        r = r * 2;
        k = k + 1;
    }
    r
}

/// Computes the floor of the base-two logarithm.
fn log2_floor_u64(v: u64) -> (h: u64)
    requires
        v >= 1,
    ensures
        h == log2_floor(v as int),
        h <= 63,
{
    let mut x: u64 = v;
    let mut h: u64 = 0;
    proof {
        lemma2_to64();
    }
    while x >= 2
        invariant
            x >= 1,
            h <= 63,
            log2_floor(v as int) == h + log2_floor(x as int),
            x as int * pow2(h as nat) as int <= v as int,
        decreases x,
    {
        proof {
            let xi = x as int;
            let ph = pow2(h as nat) as int;
            lemma_pow2_pos(h as nat);
            lemma_pow2_unfold((h + 1) as nat);
            lemma_fundamental_div_mod(xi, 2);
            lemma_mod_division_less_than_divisor(xi, 2);
            // (x / 2) * 2^(h+1) == (2 * (x / 2)) * 2^h <= x * 2^h.
            assert((xi / 2) * (2 * ph) == (2 * (xi / 2)) * ph) by {
                lemma_mul_is_associative(xi / 2, 2, ph);
                lemma_mul_is_commutative(xi / 2, 2);
            }
            lemma_mul_inequality(2 * (xi / 2), xi, ph);
            // h + 1 stays below 64 because 2^(h+1) <= x * 2^h <= v < 2^64.
            lemma_mul_inequality(2, xi, ph);
            if h + 1 > 63 {
                lemma2_to64_rest();
                if h + 1 > 64 {
                    lemma_pow2_strictly_increases(64, (h + 1) as nat);
                }
                assert(false);
            }
        }
        x = x / 2;
        h = h + 1;
    }
    proof {
        lemma_pow2_pos(h as nat);
        lemma_mul_inequality(1, x as int, pow2(h as nat) as int);
        lemma_mul_is_commutative(1, pow2(h as nat) as int);
        lemma_mul_is_commutative(x as int, pow2(h as nat) as int);
    }
    h
}

/// Computes how many buckets a histogram with the given powers needs.
fn num_buckets_u64(grouping_power: u8, max_value_power: u8) -> (r: u64)
    requires
        valid_params(grouping_power as int, max_value_power as int),
    ensures
        r == num_buckets(grouping_power as int, max_value_power as int),
{
    proof {
        lemma_num_buckets_fits(grouping_power as int, max_value_power as int);
    }
    let pp = pow2_u64(grouping_power as u64);
    (max_value_power as u64 - grouping_power as u64 + 1) * pp
}

/// Computes the bucket index of a representable value.
fn bucket_index_u64(v: u64, grouping_power: u8, max_value_power: u8) -> (i: u64)
    requires
        valid_params(grouping_power as int, max_value_power as int),
        v as int <= max_trackable(max_value_power as int),
    ensures
        i == bucket_index(v as int, grouping_power as int),
        i < num_buckets(grouping_power as int, max_value_power as int),
{
    let p = grouping_power as u64;
    let n = max_value_power as u64;
    proof {
        lemma_num_buckets_fits(grouping_power as int, max_value_power as int);
        lemma_bucket_index_bounds(v as int, grouping_power as int, max_value_power as int);
    }
    let cut = pow2_u64(p + 1);
    if v < cut {
        v
    } else {
        let h = log2_floor_u64(v);
        proof {
            lemma_log2_floor_range(v as int, grouping_power as int, max_value_power as int);
            lemma_log2_floor_bounds(v as int);
            lemma_pow2_pos((h - p) as nat);
            lemma_div_pos_is_pos(v as int - pow2(h as nat), pow2((h - p) as nat) as int);
            lemma_mul_nonnegative(h as int - p - 1, pow2(p as nat) as int);
        }
        let ph = pow2_u64(h);
        let pw = pow2_u64(h - p);
        let off = (v - ph) / pw;
        let pp = pow2_u64(p);
        cut + (h - p - 1) * pp + off
    }
}

/// Computes a bucket's inclusive value range.
fn bucket_bounds_u64(i: u64, grouping_power: u8, max_value_power: u8) -> (r: (u64, u64))
    requires
        valid_params(grouping_power as int, max_value_power as int),
        i < num_buckets(grouping_power as int, max_value_power as int),
    ensures
        r.0 == bucket_start(i as int, grouping_power as int),
        r.1 == bucket_end(i as int, grouping_power as int),
{
    let p = grouping_power as u64;
    let n = max_value_power as u64;
    let ghost pi = grouping_power as int;
    let ghost ni = max_value_power as int;
    proof {
        lemma_num_buckets_fits(pi, ni);
        // Every bucket's bound fits in a u64: bounds grow with the index
        // and the last bucket ends at the largest representable value.
        lemma_bucket_end_monotone(i as int, num_buckets(pi, ni) - 1, pi);
        lemma_bucket_end_max(pi, ni);
        lemma2_to64_rest();
        if ni < 64 {
            lemma_pow2_strictly_increases(ni as nat, 64);
        }
    }
    let cut = pow2_u64(p + 1);
    if i < cut {
        (i, i)
    } else {
        let pp = pow2_u64(p);
        let g = (i - cut) / pp;
        let off = (i - cut) % pp;
        proof {
            let ppi = pow2(pi as nat) as int;
            lemma_pow2_pos(pi as nat);
            lemma_mod_division_less_than_divisor(i as int - cutoff(pi), ppi);
            lemma_div_pos_is_pos(i as int - cutoff(pi), ppi);
            // g stays below the number of log segments.
            lemma_mul_nonnegative(ni - pi - 1, ppi);
            lemma_multiply_divide_lt(i as int - cutoff(pi), ppi, ni - pi - 1);
            lemma_pow2_pos((g + 1) as nat);
            lemma_mul_nonnegative(off as int, pow2((g + 1) as nat) as int);
        }
        let w = pow2_u64(g + 1);
        let start = pow2_u64(p + 1 + g) + off * w;
        (start, start + (w - 1))
    }
}

/// One bucket of a percentile query's answer: an inclusive range of values
/// and the number of samples that fell in it.
#[derive(Clone, Copy, Debug, PartialEq, Eq, Structural)]
pub struct Bucket {
    /// The inclusive lower bound of the bucket's range.
    pub start: u64,
    /// The inclusive upper bound of the bucket's range.
    pub end: u64,
    /// The number of samples within the bucket's range.
    pub count: u64,
}

/// A latency histogram: one dense sample count per bucket.
#[derive(Debug)]
pub struct Histogram {
    grouping_power: u8,
    max_value_power: u8,
    total: u64,
    buckets: Vec<u64>,
}

impl Histogram {
    /// The per-bucket sample counts.
    pub closed spec fn counts(self) -> Seq<u64> {
        self.buckets@
    }

    /// The grouping power the histogram was built with.
    pub closed spec fn grouping(self) -> int {
        self.grouping_power as int
    }

    /// The max value power the histogram was built with.
    pub closed spec fn max_power(self) -> int {
        self.max_value_power as int
    }

    /// The number of samples recorded so far.
    pub open spec fn num_samples(self) -> int {
        total_count(self.counts())
    }

    /// Internal consistency: accepted parameters, one count per bucket,
    /// and a running total that matches the counts.
    pub closed spec fn wf(self) -> bool {
        &&& valid_params(self.grouping(), self.max_power())
        &&& self.buckets@.len() == num_buckets(self.grouping(), self.max_power())
        &&& self.total as int == total_count(self.buckets@)
    }

    /// Creates an empty histogram bucketed at the given precision, or
    /// reports rejected parameters: the construction succeeds exactly when
    /// the parameters are accepted.
    pub fn new(grouping_power: u8, max_value_power: u8) -> (r: Result<Histogram, Error>)
        ensures
            match r {
                Ok(h) => {
                    &&& valid_params(grouping_power as int, max_value_power as int)
                    &&& h.wf()
                    &&& h.grouping() == grouping_power as int
                    &&& h.max_power() == max_value_power as int
                    &&& h.counts().len() == num_buckets(
                        grouping_power as int,
                        max_value_power as int,
                    )
                    &&& forall|i: int| 0 <= i < h.counts().len() ==> h.counts()[i] == 0
                },
                Err(e) => {
                    &&& !valid_params(grouping_power as int, max_value_power as int)
                    &&& e == Error::InvalidConfig
                },
            },
    {
        if max_value_power > 64 {
            return Err(Error::InvalidConfig);
        }
        if grouping_power >= max_value_power {
            return Err(Error::InvalidConfig);
        }
        if grouping_power > 31 {
            return Err(Error::InvalidConfig);
        }
        let ghost pi = grouping_power as int;
        let ghost ni = max_value_power as int;
        proof {
            lemma_pow2_pos(pi as nat);
            lemma_pow2_unfold((pi + 1) as nat);
            lemma_mul_nonnegative(ni - pi - 1, pow2(pi as nat) as int);
            assert(num_buckets(pi, ni) == (ni - pi + 1) * pow2(pi as nat)) by {
                lemma_mul_is_distributive_add_other_way(pow2(pi as nat) as int, 2, ni - pi - 1);
            }
            // (n - p + 1) <= 65 and 2^p <= 2^31, so the product fits a u64.
            lemma_pow2_strictly_increases(pi as nat, 32);
            lemma2_to64();
            lemma_mul_upper_bound(ni - pi + 1, 65, pow2(pi as nat) as int, 0x8000_0000);
        }
        let pp = pow2_u64(grouping_power as u64);
        let num = (max_value_power as u64 - grouping_power as u64 + 1) * pp;
        if num > 0xffff_ffff {
            return Err(Error::InvalidConfig);
        }
        let buckets: Vec<u64> = vec![0u64; num as usize];
        let h = Histogram { grouping_power, max_value_power, total: 0, buckets };
        proof {
            lemma_prefix_zero(h.buckets@, h.buckets@.len() as int);
        }
        Ok(h)
    }

    /// Records one sample. Out-of-range values are reported and leave the
    /// histogram unchanged — never clamped or dropped silently.
    pub fn increment(&mut self, value: u64) -> (r: Result<(), Error>)
        requires
            old(self).wf(),
            old(self).num_samples() < u64::MAX,
        ensures
            final(self).wf(),
            final(self).grouping() == old(self).grouping(),
            final(self).max_power() == old(self).max_power(),
            match r {
                Ok(()) => {
                    &&& value as int <= max_trackable(old(self).max_power())
                    &&& final(self).counts() == old(self).counts().update(
                        bucket_index(value as int, old(self).grouping()),
                        (old(self).counts()[bucket_index(value as int, old(self).grouping())]
                            + 1) as u64,
                    )
                    &&& final(self).num_samples() == old(self).num_samples() + 1
                },
                Err(e) => {
                    &&& value as int > max_trackable(old(self).max_power())
                    &&& e == Error::OutOfRange
                    &&& *final(self) == *old(self)
                },
            },
    {
        let n = self.max_value_power;
        if n < 64 {
            proof {
                lemma_pow2_pos(n as nat);
            }
            let max = pow2_u64(n as u64) - 1;
            if value > max {
                return Err(Error::OutOfRange);
            }
        } else {
            proof {
                lemma2_to64_rest();
            }
        }
        let idx = bucket_index_u64(value, self.grouping_power, self.max_value_power);
        let idx_usize = idx as usize;
        let c = self.buckets[idx_usize];
        proof {
            // The bucket's count is at most the running total, so it has
            // room to grow.
            lemma_prefix_nonneg(self.buckets@, idx as int);
            lemma_prefix_monotone(self.buckets@, idx as int + 1, self.buckets@.len() as int);
        }
        self.buckets[idx_usize] = c + 1;
        self.total = self.total + 1;
        proof {
            lemma_prefix_update(
                old(self).buckets@,
                idx as int,
                (c + 1) as u64,
                old(self).buckets@.len() as int,
            );
        }
        Ok(())
    }

    /// Extracts a sparse snapshot: the indices and counts of the non-empty
    /// buckets, in increasing index order.
    pub fn load(&self) -> (s: SparseSnapshot)
        requires
            self.wf(),
        ensures
            s.wf(),
            s.dense() == self.counts(),
            s.grouping() == self.grouping(),
            s.max_power() == self.max_power(),
    {
        let mut index: Vec<usize> = Vec::new();
        let mut count: Vec<u64> = Vec::new();
        let len = self.buckets.len();
        let mut i: usize = 0;
        while i < len
            invariant
                self.wf(),
                len == self.buckets@.len(),
                i <= len,
                index@.len() == count@.len(),
                forall|j: int, k: int|
                    0 <= j < k < index@.len() ==> #[trigger] index@[j] < #[trigger] index@[k],
                forall|j: int| 0 <= j < index@.len() ==> (#[trigger] index@[j]) < i,
                forall|j: int|
                    0 <= j < index@.len() ==> self.buckets@[(#[trigger] index@[j]) as int]
                        == count@[j],
                forall|j: int| 0 <= j < count@.len() ==> (#[trigger] count@[j]) > 0,
                forall|b: int|
                    0 <= b < i && (#[trigger] self.buckets@[b]) != 0 ==> exists|j: int|
                        0 <= j < index@.len() && index@[j] == b,
            decreases len - i,
        {
            let ghost prev_index = index@;
            let ghost prev_count = count@;
            let c = self.buckets[i];
            if c > 0 {
                index.push(i);
                count.push(c);
            }
            proof {
                if c > 0 {
                    assert(index@ == prev_index.push(i));
                    assert(count@ == prev_count.push(c));
                    assert(index@[index@.len() - 1] == i);
                    assert(count@[count@.len() - 1] == c);
                    assert forall|j: int|
                        0 <= j < index@.len() implies (#[trigger] index@[j]) < i + 1 by {
                        if j < index@.len() - 1 {
                            assert(index@[j] == prev_index[j]);
                        }
                    }
                    assert forall|j: int, k: int|
                        0 <= j < k < index@.len() implies #[trigger] index@[j]
                            < #[trigger] index@[k] by {
                        if j < index@.len() - 1 {
                            assert(index@[j] == prev_index[j]);
                        }
                        if k < index@.len() - 1 {
                            assert(index@[k] == prev_index[k]);
                        }
                    }
                    assert forall|j: int|
                        0 <= j < index@.len() implies self.buckets@[(#[trigger] index@[j]) as int]
                            == count@[j] by {
                        if j < index@.len() - 1 {
                            assert(index@[j] == prev_index[j]);
                            assert(count@[j] == prev_count[j]);
                        }
                    }
                    assert forall|j: int|
                        0 <= j < count@.len() implies (#[trigger] count@[j]) > 0 by {
                        if j < count@.len() - 1 {
                            assert(count@[j] == prev_count[j]);
                        }
                    }
                }
                assert forall|b: int|
                    0 <= b < i + 1 && (#[trigger] self.buckets@[b]) != 0 implies exists|j: int|
                    0 <= j < index@.len() && index@[j] == b by {
                    if b == i {
                        assert(index@[index@.len() - 1] == b);
                    } else {
                        let j = choose|j: int|
                            0 <= j < prev_index.len() && prev_index[j] == b;
                        assert(index@[j] == b);
                    }
                }
            }
            i = i + 1;
        }
        let s = SparseSnapshot {
            grouping_power: self.grouping_power,
            max_value_power: self.max_value_power,
            index,
            count,
            full: Ghost(self.buckets@),
        };
        proof {
            assert(s.index@ == index@);
            assert(s.count@ == count@);
            assert(s.full@ == self.buckets@);
            assert(s.wf());
        }
        s
    }

    /// The grouping power the histogram was built with.
    pub fn grouping_power(&self) -> (r: u8)
        ensures
            r as int == self.grouping(),
    {
        self.grouping_power
    }

    /// The max value power the histogram was built with.
    pub fn max_value_power(&self) -> (r: u8)
        ensures
            r as int == self.max_power(),
    {
        self.max_value_power
    }
}

/// All-zero counts hold no samples.
pub proof fn lemma_prefix_zero(counts: Seq<u64>, end: int)
    requires
        0 <= end <= counts.len(),
        forall|i: int| 0 <= i < counts.len() ==> counts[i] == 0,
    ensures
        prefix_count(counts, end) == 0,
    decreases end,
{
    if end > 0 {
        lemma_prefix_zero(counts, end - 1);
    }
}

/// A sparse, serializable snapshot of a histogram: only the non-empty
/// buckets' indices and counts, in increasing index order.
pub struct SparseSnapshot {
    grouping_power: u8,
    max_value_power: u8,
    index: Vec<usize>,
    count: Vec<u64>,
    full: Ghost<Seq<u64>>,
}

impl SparseSnapshot {
    /// The dense per-bucket counts the snapshot stands for.
    pub closed spec fn dense(self) -> Seq<u64> {
        self.full@
    }

    /// The stored bucket indices, in increasing order.
    pub closed spec fn sparse_indices(self) -> Seq<usize> {
        self.index@
    }

    /// The stored bucket counts, matching `sparse_indices` pairwise.
    pub closed spec fn sparse_counts(self) -> Seq<u64> {
        self.count@
    }

    /// The grouping power of the snapshotted histogram.
    pub closed spec fn grouping(self) -> int {
        self.grouping_power as int
    }

    /// The max value power of the snapshotted histogram.
    pub closed spec fn max_power(self) -> int {
        self.max_value_power as int
    }

    /// Internal consistency: the stored pairs are exactly the non-empty
    /// buckets of the dense counts, in increasing index order.
    pub closed spec fn wf(self) -> bool {
        &&& valid_params(self.grouping(), self.max_power())
        &&& self.full@.len() == num_buckets(self.grouping(), self.max_power())
        &&& self.index@.len() == self.count@.len()
        &&& forall|j: int, k: int|
            0 <= j < k < self.index@.len() ==> #[trigger] self.index@[j]
                < #[trigger] self.index@[k]
        &&& forall|j: int|
            0 <= j < self.index@.len() ==> (#[trigger] self.index@[j]) < self.full@.len()
        &&& forall|j: int|
            0 <= j < self.index@.len() ==> self.full@[(#[trigger] self.index@[j]) as int]
                == self.count@[j]
        &&& forall|j: int| 0 <= j < self.count@.len() ==> (#[trigger] self.count@[j]) > 0
        &&& forall|b: int|
            0 <= b < self.full@.len() && (#[trigger] self.full@[b]) != 0 ==> exists|j: int|
                0 <= j < self.index@.len() && self.index@[j] == b
        &&& total_count(self.full@) <= u64::MAX
    }

    /// The non-empty buckets' indices, in increasing order: together with
    /// `count`, a faithful serialization of the snapshot — the listed pairs
    /// are exactly the non-empty buckets of the dense counts.
    pub fn index(&self) -> (r: &Vec<usize>)
        requires
            self.wf(),
        ensures
            r@ == self.sparse_indices(),
            r@.len() == self.sparse_counts().len(),
            r@.len() <= self.dense().len(),
            forall|j: int, k: int| 0 <= j < k < r@.len() ==> #[trigger] r@[j] < #[trigger] r@[k],
            forall|j: int|
                0 <= j < r@.len() ==> ((#[trigger] r@[j]) < self.dense().len() && self.dense()[
                    r@[j] as int
                ] == self.sparse_counts()[j] && self.sparse_counts()[j] > 0),
            forall|b: int|
                0 <= b < self.dense().len() && (#[trigger] self.dense()[b]) != 0 ==> exists|j: int|
                    0 <= j < r@.len() && r@[j] == b,
    {
        proof {
            if self.index@.len() > self.dense().len() {
                // Strictly increasing indices below the bucket count cannot
                // outnumber the buckets.
                let m = self.dense().len() as int;
                assert(0 <= m < self.index@.len());
                assert(self.index@[m] < self.full@.len());
                lemma_sorted_indices_lower_bound(self.index@, m);
                assert(false);
            }
        }
        &self.index
    }

    /// The non-empty buckets' counts: entry `j` is the count of the bucket
    /// whose index `index` lists at position `j`.
    pub fn count(&self) -> (r: &Vec<u64>)
        requires
            self.wf(),
        ensures
            r@ == self.sparse_counts(),
            r@.len() == self.sparse_indices().len(),
            r@.len() <= self.dense().len(),
            forall|j: int|
                0 <= j < r@.len() ==> ((#[trigger] r@[j]) > 0 && self.sparse_indices()[j]
                    < self.dense().len() && self.dense()[self.sparse_indices()[j] as int]
                    == r@[j]),
    {
        proof {
            if self.count@.len() > self.dense().len() {
                let m = self.dense().len() as int;
                assert(self.index@[m] < self.full@.len());
                lemma_sorted_indices_lower_bound(self.index@, m);
                assert(false);
            }
        }
        &self.count
    }

    /// The grouping power of the snapshotted histogram.
    pub fn grouping_power(&self) -> (r: u8)
        ensures
            r as int == self.grouping(),
    {
        self.grouping_power
    }

    /// The max value power of the snapshotted histogram.
    pub fn max_value_power(&self) -> (r: u8)
        ensures
            r as int == self.max_power(),
    {
        self.max_value_power
    }

    /// Rebuilds the dense counts the snapshot stands for.
    fn to_dense(&self) -> (d: Vec<u64>)
        requires
            self.wf(),
        ensures
            d@ == self.dense(),
    {
        let num = num_buckets_u64(self.grouping_power, self.max_value_power);
        proof {
            lemma_num_buckets_fits(self.grouping() as int, self.max_power() as int);
        }
        let mut d: Vec<u64> = vec![0u64; num as usize];
        let pairs = self.index.len();
        let mut j: usize = 0;
        while j < pairs
            invariant
                self.wf(),
                pairs == self.index@.len(),
                j <= pairs,
                d@.len() == self.full@.len(),
                forall|jj: int| 0 <= jj < j ==> d@[self.index@[jj] as int] == self.count@[jj],
                forall|b: int|
                    0 <= b < d@.len() && d@[b] != 0 ==> exists|jj: int|
                        0 <= jj < j && self.index@[jj] == b,
            decreases pairs - j,
        {
            let ix = self.index[j];
            let c = self.count[j];
            d[ix] = c;
            j = j + 1;
            proof {
                assert forall|b: int| 0 <= b < d@.len() && d@[b] != 0 implies exists|jj: int|
                    0 <= jj < j && self.index@[jj] == b by {
                    if b != ix as int {
                        assert(exists|jj: int| 0 <= jj < j - 1 && self.index@[jj] == b);
                    }
                }
            }
        }
        proof {
            assert forall|b: int| 0 <= b < d@.len() implies d@[b] == self.full@[b] by {
                if self.full@[b] != 0 {
                    let jj = choose|jj: int|
                        0 <= jj < self.index@.len() && self.index@[jj] == b;
                    assert(d@[self.index@[jj] as int] == self.count@[jj]);
                } else {
                    if d@[b] != 0 {
                        let jj = choose|jj: int| 0 <= jj < pairs && self.index@[jj] == b;
                        assert(self.full@[self.index@[jj] as int] == self.count@[jj]);
                        assert(false);
                    }
                }
            }
            assert(d@ =~= self.full@);
        }
        d
    }

    /// Returns the bucket whose cumulative sample count first reaches the
    /// requested percentile's fraction of all samples, ties broken toward
    /// the lower bucket; a snapshot without samples reports that it is
    /// empty instead.
    pub fn percentile(&self, percentile: u64) -> (r: Result<Bucket, Error>)
        requires
            self.wf(),
            1 <= percentile <= 100,
        ensures
            match r {
                Ok(b) => {
                    &&& total_count(self.dense()) > 0
                    &&& b.start == bucket_start(
                        percentile_index(self.dense(), percentile as int),
                        self.grouping(),
                    )
                    &&& b.end == bucket_end(
                        percentile_index(self.dense(), percentile as int),
                        self.grouping(),
                    )
                    &&& b.count == self.dense()[percentile_index(
                        self.dense(),
                        percentile as int,
                    )]
                },
                Err(e) => {
                    &&& total_count(self.dense()) == 0
                    &&& e == Error::Empty
                },
            },
    {
        let d = self.to_dense();
        let len = d.len();
        let mut total: u64 = 0;
        let mut i: usize = 0;
        while i < len
            invariant
                self.wf(),
                d@ == self.dense(),
                len == d@.len(),
                i <= len,
                total as int == prefix_count(d@, i as int),
            decreases len - i,
        {
            proof {
                lemma_prefix_monotone(d@, i as int + 1, len as int);
            }
            total = total + d[i];
            i = i + 1;
        }
        if total == 0 {
            return Err(Error::Empty);
        }
        proof {
            lemma_threshold_bounds(percentile as int, total as int);
            lemma_mul_upper_bound(percentile as int, 100, total as int, u64::MAX as int);
        }
        let needed_wide: u128 = (percentile as u128 * total as u128 + 99) / 100;
        let needed = needed_wide as u64;
        let mut cum: u64 = 0;
        let mut i: usize = 0;
        while i < len
            invariant
                self.wf(),
                d@ == self.dense(),
                len == d@.len(),
                i <= len,
                cum as int == prefix_count(d@, i as int),
                cum < needed,
                needed == threshold(percentile as int, total_count(d@)),
                1 <= needed <= total_count(d@),
            decreases len - i,
        {
            proof {
                lemma_prefix_monotone(d@, i as int + 1, len as int);
            }
            let c = d[i];
            if cum + c >= needed {
                proof {
                    lemma_find_reaching_char(d@, needed as int);
                    lemma_reaching_unique(
                        d@,
                        needed as int,
                        i as int,
                        find_reaching(d@, needed as int),
                    );
                }
                let (start, end) = bucket_bounds_u64(
                    i as u64,
                    self.grouping_power,
                    self.max_value_power,
                );
                return Ok(Bucket { start, end, count: c });
            }
            cum = cum + c;
            i = i + 1;
        }
        // Unreachable: the cumulative count reaches the total, and the
        // total reaches every threshold.
        proof {
            assert(false);
        }
        Err(Error::Empty)
    }
}

/// In a strictly increasing index sequence, the entry at position `m` is at
/// least `m`.
pub proof fn lemma_sorted_indices_lower_bound(index: Seq<usize>, m: int)
    requires
        0 <= m < index.len(),
        forall|j: int, k: int| 0 <= j < k < index.len() ==> index[j] < index[k],
    ensures
        index[m] >= m,
    decreases m,
{
    if m > 0 {
        lemma_sorted_indices_lower_bound(index, m - 1);
    }
}

} // verus!
