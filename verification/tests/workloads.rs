use mutex_bench::config::{Config, MemcpyConfig, MutexType, WorkloadConfig, WorkloadType};
use mutex_bench::workload::increment::Increment;
use mutex_bench::workload::memcpy::Memcpy;

fn config_with_bytes(bytes: usize) -> Config {
    Config {
        iterations: 1,
        batch_size: 1024,
        warmup: 0,
        threads: 1,
        workload: WorkloadType::Memcpy,
        mutex: MutexType::Std,
        workloads: WorkloadConfig { memcpy: MemcpyConfig { bytes } },
    }
}

#[test]
fn increment_starts_at_zero_and_counts_operations() {
    let config = config_with_bytes(0);
    let mut state = Increment::new_state(&config);
    assert_eq!(state, 0);
    let mut w = Increment::new(&config);
    for _ in 0..100 {
        w.work(&mut state);
    }
    assert_eq!(state, 100);
}

#[test]
fn memcpy_state_matches_configured_bytes_and_pattern() {
    let config = config_with_bytes(5);
    let mut w = Memcpy::new(&config);
    let mut state = Memcpy::new_state(&config);
    assert!(state.is_empty());
    w.work(&mut state);
    assert_eq!(state, vec![0u8, 1, 2, 3, 4]);
}

#[test]
fn memcpy_pattern_cycles_past_one_block() {
    let config = config_with_bytes(300);
    let mut w = Memcpy::new(&config);
    let mut state = Memcpy::new_state(&config);
    // A second operation on a filled state gives the same result.
    w.work(&mut state);
    w.work(&mut state);
    assert_eq!(state.len(), 300);
    assert_eq!(state[0], 0);
    assert_eq!(state[255], 255);
    assert_eq!(state[256], 0);
    assert_eq!(state[299], 43);
}

#[test]
fn memcpy_zero_bytes_leaves_state_empty() {
    let config = config_with_bytes(0);
    let mut w = Memcpy::new(&config);
    let mut state = vec![9u8, 9, 9];
    w.work(&mut state);
    assert!(state.is_empty());
}

#[test]
fn memcpy_config_defaults_to_1024_bytes() {
    assert_eq!(MemcpyConfig::default().bytes, 1024);
    assert_eq!(WorkloadConfig::default().memcpy.bytes, 1024);
}
