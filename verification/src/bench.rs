//! The bencher: iteration bookkeeping, latency aggregation and the report.
//!
//! The outer program runs the iterations (threads, locking and timing live
//! there): it discards the warmup iterations, and hands each measured
//! iteration's summed worker durations to [`Bencher::record_iteration`].
//! The bencher reduces each to one per-operation average sample, and at run
//! end derives the immutable [`Report`].

use vstd::prelude::*;
use vstd::arithmetic::mul::*;
use vstd::arithmetic::power2::*;
use vstd::string::StringExecFns;
use crate::histogram::{
    bucket_end, cutoff, num_buckets, percentile_index, total_count, valid_params,
    bucket_index, Error, Histogram, SparseSnapshot,
};
use crate::text::{bucket_end_text, format_bucket_end};

verus! {

/// The grouping power of the latency histogram: eight significant bits,
/// for a relative bucket error below half a percent.
pub open spec fn latency_grouping_power() -> int {
    8
}

/// The max value power of the latency histogram: every 64-bit sample is
/// representable, from sub-nanosecond units up to many seconds.
pub open spec fn latency_max_value_power() -> int {
    64
}

/// The per-operation average latency recorded for one iteration, in the
/// histogram's sub-nanosecond unit: the iteration's duration in
/// nanoseconds, times 1000, divided by the operations per iteration,
/// truncated to the 64-bit sample width.
pub open spec fn average_latency(duration_ns: int, batch_size: int) -> int
    recommends
        batch_size >= 1,
{
    ((duration_ns * 1000) / batch_size) % 0x1_0000_0000_0000_0000
}

/// The running sum of worker durations, in nanoseconds.
pub open spec fn duration_sum(ds: Seq<u128>) -> int
    decreases ds.len(),
{
    if ds.len() == 0 {
        0
    } else {
        duration_sum(ds.drop_last()) + ds.last()
    }
}

/// A sum over a prefix never exceeds the sum over the whole.
pub proof fn lemma_duration_sum_monotone(ds: Seq<u128>, i: int)
    requires
        0 <= i <= ds.len(),
    ensures
        duration_sum(ds.subrange(0, i)) <= duration_sum(ds),
    decreases ds.len() - i,
{
    if i < ds.len() {
        lemma_duration_sum_monotone(ds, i + 1);
        assert(ds.subrange(0, i + 1).drop_last() =~= ds.subrange(0, i));
        assert(ds.subrange(0, i + 1).last() == ds[i]);
    } else {
        assert(ds.subrange(0, i) =~= ds);
    }
}

/// Sums the workers' elapsed durations of one iteration. This is the
/// deliberate reduction of the measurement design: a thread-time-weighted
/// aggregate of all workers' wall time, not the wall span of the
/// iteration. Overflow is reported, never wrapped.
pub fn sum_durations(ds: &Vec<u128>) -> (r: Option<u128>)
    ensures
        match r {
            Some(t) => t == duration_sum(ds@),
            None => duration_sum(ds@) > u128::MAX,
        },
{
    let mut t: u128 = 0;
    let mut i: usize = 0;
    let len = ds.len();
    while i < len
        invariant
            len == ds@.len(),
            i <= len,
            t == duration_sum(ds@.subrange(0, i as int)),
        decreases len - i,
    {
        proof {
            assert(ds@.subrange(0, i + 1).drop_last() =~= ds@.subrange(0, i as int));
            assert(ds@.subrange(0, i + 1).last() == ds@[i as int]);
        }
        t = match t.checked_add(ds[i]) {
            Some(t2) => t2,
            None => {
                proof {
                    lemma_duration_sum_monotone(ds@, i + 1);
                }
                return None;
            },
        };
        i = i + 1;
    }
    proof {
        assert(ds@.subrange(0, len as int) =~= ds@);
    }
    Some(t)
}

/// Orchestration bookkeeping for one run: owns the latency histogram that
/// receives exactly one sample per measured iteration.
pub struct Bencher {
    /// The latency histogram of the run.
    pub latencies: Histogram,
}

impl Bencher {
    /// A bencher in its accepted state: the histogram carries the fixed
    /// measurement parameters.
    pub open spec fn wf(self) -> bool {
        &&& self.latencies.wf()
        &&& self.latencies.grouping() == latency_grouping_power()
        &&& self.latencies.max_power() == latency_max_value_power()
    }

    /// Creates a bencher with an empty latency histogram. The fixed
    /// parameters are accepted, so construction always succeeds.
    pub fn new() -> (r: Result<Bencher, Error>)
        ensures
            match r {
                Ok(b) => {
                    &&& b.wf()
                    &&& b.latencies.num_samples() == 0
                    &&& b.latencies.counts().len() == num_buckets(
                        latency_grouping_power(),
                        latency_max_value_power(),
                    )
                    &&& forall|i: int|
                        0 <= i < b.latencies.counts().len() ==> b.latencies.counts()[i] == 0
                },
                Err(_) => false,
            },
    {
        proof {
            lemma2_to64();
            assert(pow2(8) == 256 && pow2(9) == 512);
            assert(cutoff(8) == 512);
            assert((64 - 8 - 1) * pow2(8) == 14080) by {
                lemma_mul_is_commutative(55, pow2(8) as int);
            }
            assert(num_buckets(8, 64) == 14592);
            assert(valid_params(8, 64));
        }
        match Histogram::new(8, 64) {
            Ok(latencies) => {
                proof {
                    crate::histogram::lemma_prefix_zero(
                        latencies.counts(),
                        latencies.counts().len() as int,
                    );
                }
                Ok(Bencher { latencies })
            },
            Err(_) => Err(Error::InvalidConfig),
        }
    }

    /// Records one measured iteration: reduces the iteration's summed
    /// duration to a per-operation average and feeds it into the latency
    /// histogram. Every 64-bit sample is representable at the fixed
    /// parameters, so recording always succeeds.
    pub fn record_iteration(&mut self, duration_ns: u128, batch_size: u64)
        requires
            old(self).wf(),
            batch_size >= 1,
            duration_ns <= u128::MAX / 1000,
            old(self).latencies.num_samples() < u64::MAX,
        ensures
            final(self).wf(),
            final(self).latencies.num_samples() == old(self).latencies.num_samples() + 1,
            final(self).latencies.counts() == old(self).latencies.counts().update(
                bucket_index(
                    average_latency(duration_ns as int, batch_size as int),
                    latency_grouping_power(),
                ),
                (old(self).latencies.counts()[bucket_index(
                    average_latency(duration_ns as int, batch_size as int),
                    latency_grouping_power(),
                )] + 1) as u64,
            ),
    {
        let avg_wide: u128 = (duration_ns * 1000) / (batch_size as u128);
        let avg: u64 = (avg_wide % 0x1_0000_0000_0000_0000u128) as u64;
        proof {
            lemma2_to64_rest();
            assert(avg as int == average_latency(duration_ns as int, batch_size as int));
        }
        match self.latencies.increment(avg) {
            Ok(()) => (),
            Err(_) => {
                // Unreachable: with a 64-bit max value power, every sample
                // is representable.
                proof {
                    lemma2_to64_rest();
                }
            },
        }
    }

    /// Derives the immutable report: a sparse snapshot of the latency
    /// histogram.
    pub fn report(&self) -> (r: Report)
        requires
            self.wf(),
        ensures
            r.latencies.wf(),
            r.latencies.dense() == self.latencies.counts(),
            r.latencies.grouping() == latency_grouping_power(),
            r.latencies.max_power() == latency_max_value_power(),
    {
        Report { latencies: self.latencies.load() }
    }
}

/// The upper bound of the bucket that a percentile query selects.
pub open spec fn percentile_end(counts: Seq<u64>, pct: int, p: int) -> int {
    bucket_end(percentile_index(counts, pct), p)
}

/// The rendered latency distribution: one line per reported percentile,
/// each showing the selected bucket's upper bound.
pub open spec fn report_text(counts: Seq<u64>, p: int) -> Seq<char> {
    "Latency Distribution\n"@ + "  p01:   "@ + bucket_end_text(
        percentile_end(counts, 1, p) as u64,
    ) + "\n"@ + "  p10:   "@ + bucket_end_text(percentile_end(counts, 10, p) as u64) + "\n"@
        + "  p50:   "@ + bucket_end_text(percentile_end(counts, 50, p) as u64) + "\n"@
        + "  p90:   "@ + bucket_end_text(percentile_end(counts, 90, p) as u64) + "\n"@
        + "  p95:   "@ + bucket_end_text(percentile_end(counts, 95, p) as u64) + "\n"@
        + "  p99:   "@ + bucket_end_text(percentile_end(counts, 99, p) as u64) + "\n"@
}

/// The immutable result of a run: a sparse snapshot of the latency
/// histogram, derived once at run end.
pub struct Report {
    /// The sparse latency histogram snapshot.
    pub latencies: SparseSnapshot,
}

impl Report {
    /// Renders the latency distribution as text: the six labeled
    /// percentile lines. A report of a run without measured iterations
    /// holds no samples and reports that instead of rendering defaults.
    pub fn render(&self) -> (r: Result<String, Error>)
        requires
            self.latencies.wf(),
        ensures
            match r {
                Ok(s) => {
                    &&& total_count(self.latencies.dense()) > 0
                    &&& s@ == report_text(self.latencies.dense(), self.latencies.grouping())
                },
                Err(e) => {
                    &&& total_count(self.latencies.dense()) == 0
                    &&& e == Error::Empty
                },
            },
    {
        let b01 = match self.latencies.percentile(1) {
            Ok(b) => b,
            Err(e) => {
                return Err(e);
            },
        };
        let b10 = match self.latencies.percentile(10) {
            Ok(b) => b,
            Err(e) => {
                return Err(e);
            },
        };
        let b50 = match self.latencies.percentile(50) {
            Ok(b) => b,
            Err(e) => {
                return Err(e);
            },
        };
        let b90 = match self.latencies.percentile(90) {
            Ok(b) => b,
            Err(e) => {
                return Err(e);
            },
        };
        let b95 = match self.latencies.percentile(95) {
            Ok(b) => b,
            Err(e) => {
                return Err(e);
            },
        };
        let b99 = match self.latencies.percentile(99) {
            Ok(b) => b,
            Err(e) => {
                return Err(e);
            },
        };
        let mut s = "Latency Distribution\n".to_owned();
        s.append("  p01:   ");
        let t01 = format_bucket_end(b01.end);
        s.append(t01.as_str());
        s.append("\n");
        s.append("  p10:   ");
        let t10 = format_bucket_end(b10.end);
        s.append(t10.as_str());
        s.append("\n");
        s.append("  p50:   ");
        let t50 = format_bucket_end(b50.end);
        s.append(t50.as_str());
        s.append("\n");
        s.append("  p90:   ");
        let t90 = format_bucket_end(b90.end);
        s.append(t90.as_str());
        s.append("\n");
        s.append("  p95:   ");
        let t95 = format_bucket_end(b95.end);
        s.append(t95.as_str());
        s.append("\n");
        s.append("  p99:   ");
        let t99 = format_bucket_end(b99.end);
        s.append(t99.as_str());
        s.append("\n");
        proof {
            assert(s@ =~= report_text(self.latencies.dense(), self.latencies.grouping()));
        }
        Ok(s)
    }
}

} // verus!
