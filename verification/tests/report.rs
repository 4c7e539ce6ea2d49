use std::sync::Mutex;
use std::time::Instant;

use mutex_bench::bench::{sum_durations, Bencher};
use mutex_bench::config::{Config, MemcpyConfig, MutexType, WorkloadConfig, WorkloadType};
use mutex_bench::histogram::Error;
use mutex_bench::partition::worker_indices;
use mutex_bench::text::{format_bucket_end, format_two_digits, format_u64};
use mutex_bench::workload::increment::Increment;

#[test]
fn bucket_end_below_one_nanosecond_renders_whole_units() {
    assert_eq!(format_bucket_end(500), "500 ps");
    assert_eq!(format_bucket_end(0), "0 ps");
    assert_eq!(format_bucket_end(999), "999 ps");
}

#[test]
fn bucket_end_below_one_hundred_nanoseconds_rounds_half_up() {
    assert_eq!(format_bucket_end(12345), "12.35 ns");
    assert_eq!(format_bucket_end(1000), "1.00 ns");
    assert_eq!(format_bucket_end(1004), "1.00 ns");
    assert_eq!(format_bucket_end(1005), "1.01 ns");
    assert_eq!(format_bucket_end(99994), "99.99 ns");
    // A fraction that rounds to a whole nanosecond carries into the whole
    // part.
    assert_eq!(format_bucket_end(12995), "13.00 ns");
    assert_eq!(format_bucket_end(12999), "13.00 ns");
    assert_eq!(format_bucket_end(99999), "100.00 ns");
}

#[test]
fn bucket_end_large_values_render_as_coarse_durations() {
    assert_eq!(format_bucket_end(5_000_000), "5us");
    assert_eq!(format_bucket_end(5_000_000_000), "5ms");
    assert_eq!(format_bucket_end(1_200_000_000_000), "1s 200ms");
    assert_eq!(format_bucket_end(100_000), "100ns");
}

#[test]
fn decimal_formatting_matches_std() {
    for n in [0u64, 7, 10, 99, 100, 12345, u64::MAX] {
        assert_eq!(format_u64(n), n.to_string());
    }
    assert_eq!(format_two_digits(0), "00");
    assert_eq!(format_two_digits(9), "09");
    assert_eq!(format_two_digits(35), "35");
    assert_eq!(format_two_digits(100), "100");
}

#[test]
fn summing_durations_is_a_sum_not_a_max() {
    assert_eq!(sum_durations(&vec![3, 5, 7]), Some(15));
    assert_eq!(sum_durations(&vec![]), Some(0));
    assert_eq!(sum_durations(&vec![u128::MAX, 1]), None);
}

#[test]
fn report_of_empty_run_fails_explicitly() {
    let bencher = Bencher::new().unwrap();
    let report = bencher.report();
    assert_eq!(report.render().unwrap_err(), Error::Empty);
}

#[test]
fn end_to_end_single_thread_increment() {
    let config = Config {
        iterations: 5,
        batch_size: 100,
        warmup: 0,
        threads: 1,
        workload: WorkloadType::Increment,
        mutex: MutexType::Std,
        workloads: WorkloadConfig { memcpy: MemcpyConfig { bytes: 1024 } },
    };
    let mut bencher = Bencher::new().unwrap();
    for _ in 0..config.iterations {
        let mutex = Mutex::new(Increment::new_state(&config));
        let mut workload = Increment::new(&config);
        let start = Instant::now();
        for _ in worker_indices(0, config.threads, config.batch_size) {
            workload.work(&mut mutex.lock().unwrap());
        }
        let elapsed = start.elapsed().as_nanos();
        bencher.record_iteration(elapsed, config.batch_size);
        assert_eq!(*mutex.lock().unwrap(), config.batch_size);
    }

    let report = bencher.report();
    assert_eq!(report.latencies.count().iter().sum::<u64>(), 5);

    let text = report.render().unwrap();
    assert!(text.starts_with("Latency Distribution\n"));
    for label in ["p01", "p10", "p50", "p90", "p95", "p99"] {
        assert!(text.contains(label), "missing {label} in {text}");
    }

    let mut last = 0u64;
    for p in [1u64, 10, 50, 90, 95, 99] {
        let b = report.latencies.percentile(p).unwrap();
        assert!(b.end > 0, "p{p} should be positive");
        assert!(b.end >= last, "p{p} not monotone");
        last = b.end;
    }
}
