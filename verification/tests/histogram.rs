use mutex_bench::histogram::{Error, Histogram};

#[test]
fn construction_rejects_bad_parameters() {
    assert!(Histogram::new(8, 64).is_ok());
    assert!(Histogram::new(0, 1).is_ok());
    assert_eq!(Histogram::new(8, 65).unwrap_err(), Error::InvalidConfig);
    assert_eq!(Histogram::new(8, 8).unwrap_err(), Error::InvalidConfig);
    assert_eq!(Histogram::new(64, 64).unwrap_err(), Error::InvalidConfig);
    // The bucket count must fit a 32-bit index.
    assert_eq!(Histogram::new(31, 64).unwrap_err(), Error::InvalidConfig);
}

#[test]
fn increment_rejects_out_of_range_values() {
    let mut h = Histogram::new(0, 1).unwrap();
    assert!(h.increment(1).is_ok());
    assert_eq!(h.increment(2).unwrap_err(), Error::OutOfRange);
}

#[test]
fn empty_histogram_has_no_percentile() {
    let h = Histogram::new(8, 64).unwrap();
    let snapshot = h.load();
    assert_eq!(snapshot.percentile(50).unwrap_err(), Error::Empty);
}

#[test]
fn percentile_100_covers_every_recorded_value() {
    let values = [3u64, 900, 12345, 77, 5_000_000, u64::MAX, 1_000_000_000_000];
    let mut h = Histogram::new(8, 64).unwrap();
    for v in values {
        h.increment(v).unwrap();
    }
    let snapshot = h.load();
    let top = snapshot.percentile(100).unwrap();
    let max = *values.iter().max().unwrap();
    assert!(top.end >= max);
    assert!(top.start <= max);
}

#[test]
fn percentiles_are_monotone() {
    let mut h = Histogram::new(8, 64).unwrap();
    for v in 1..=1000u64 {
        h.increment(v * 17).unwrap();
    }
    let snapshot = h.load();
    let mut last = 0u64;
    for p in 1..=100u64 {
        let b = snapshot.percentile(p).unwrap();
        assert!(b.end >= last, "p{p}: {} < {last}", b.end);
        last = b.end;
    }
}

#[test]
fn small_values_are_bucketed_exactly() {
    let mut h = Histogram::new(8, 64).unwrap();
    for v in [5u64, 5, 5, 400, 400, 511] {
        h.increment(v).unwrap();
    }
    let snapshot = h.load();
    // With grouping power 8, every value below 512 has its own bucket.
    let b = snapshot.percentile(50).unwrap();
    assert_eq!(b.start, 5);
    assert_eq!(b.end, 5);
    assert_eq!(b.count, 3);
    let b = snapshot.percentile(100).unwrap();
    assert_eq!(b.end, 511);
}

#[test]
fn percentile_selection_matches_reference_histogram() {
    let values: Vec<u64> = (0..500u64).map(|i| (i * i * 7919) % 100_000_000).collect();
    let mut ours = Histogram::new(8, 64).unwrap();
    let mut reference = histogram::Histogram::new(8, 64).unwrap();
    for &v in &values {
        ours.increment(v).unwrap();
        reference.increment(v).unwrap();
    }
    let snapshot = ours.load();
    for p in [1u64, 10, 25, 50, 75, 90, 95, 99, 100] {
        let b = snapshot.percentile(p).unwrap();
        #[allow(deprecated)]
        let r = reference.percentile(p as f64 / 100.0).unwrap().unwrap();
        assert_eq!(b.start, r.start(), "p{p} start");
        assert_eq!(b.end, r.end(), "p{p} end");
        assert_eq!(b.count, r.count(), "p{p} count");
    }
}

#[test]
fn snapshot_omits_empty_buckets() {
    let mut h = Histogram::new(8, 64).unwrap();
    h.increment(3).unwrap();
    h.increment(3).unwrap();
    h.increment(100_000).unwrap();
    let snapshot = h.load();
    assert_eq!(snapshot.index().len(), 2);
    assert_eq!(snapshot.count().len(), 2);
    assert_eq!(snapshot.index()[0], 3);
    assert_eq!(snapshot.count()[0], 2);
    assert_eq!(snapshot.count()[1], 1);
    assert_eq!(snapshot.grouping_power(), 8);
    assert_eq!(snapshot.max_value_power(), 64);
}

#[test]
fn error_messages_name_the_failure() {
    assert!(Error::InvalidConfig.message().contains("parameters"));
    assert!(Error::OutOfRange.message().contains("range"));
    assert!(Error::Empty.message().contains("no samples"));
}
