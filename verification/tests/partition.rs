use mutex_bench::partition::worker_indices;

#[test]
fn strided_partition_three_workers_batch_ten() {
    assert_eq!(worker_indices(0, 3, 10), vec![0, 3, 6, 9]);
    assert_eq!(worker_indices(1, 3, 10), vec![1, 4, 7]);
    assert_eq!(worker_indices(2, 3, 10), vec![2, 5, 8]);
}

#[test]
fn strided_partition_covers_every_index_exactly_once() {
    let threads: u64 = 7;
    let batch: u64 = 100;
    let mut seen = vec![0u32; batch as usize];
    for k in 0..threads {
        for idx in worker_indices(k, threads, batch) {
            seen[idx as usize] += 1;
        }
    }
    assert!(seen.iter().all(|&c| c == 1));
}

#[test]
fn strided_partition_sizes_differ_by_at_most_one() {
    for (threads, batch) in [(3u64, 10u64), (4, 4), (5, 3), (8, 1024), (1, 17)] {
        let sizes: Vec<usize> = (0..threads)
            .map(|k| worker_indices(k, threads, batch).len())
            .collect();
        let lo = *sizes.iter().min().unwrap();
        let hi = *sizes.iter().max().unwrap();
        assert!(hi - lo <= 1, "threads={threads} batch={batch}: {sizes:?}");
    }
}

#[test]
fn strided_partition_empty_batch() {
    assert!(worker_indices(0, 4, 0).is_empty());
    assert!(worker_indices(3, 4, 0).is_empty());
}

#[test]
fn strided_partition_more_workers_than_operations() {
    assert_eq!(worker_indices(0, 5, 2), vec![0]);
    assert_eq!(worker_indices(1, 5, 2), vec![1]);
    assert!(worker_indices(2, 5, 2).is_empty());
    assert!(worker_indices(4, 5, 2).is_empty());
}
