//! The immutable run configuration consumed by the bencher.
//!
//! A configuration is built once, before any benchmarking, by the outer
//! program (argument and file handling live there); the core only reads it.

use vstd::prelude::*;

verus! {

/// Which unit of contended work runs inside each critical section.
#[derive(Clone, Copy, Debug, PartialEq, Eq, Structural)]
pub enum WorkloadType {
    /// The simplest possible workload: increment the shared counter by 1.
    Increment,
    /// Copy a configurable amount of memory into the shared buffer.
    Memcpy,
}

/// Which synchronization primitive guards the shared state.
#[derive(Clone, Copy, Debug, PartialEq, Eq, Structural)]
pub enum MutexType {
    /// The blocking OS-level mutex.
    Std,
    /// The user-space, park-based mutex.
    ParkingLot,
}

/// Settings of the memory-copy workload.
#[derive(Clone, Copy, Debug, PartialEq, Eq, Structural)]
pub struct MemcpyConfig {
    /// How many bytes each operation copies into the shared buffer.
    pub bytes: usize,
}

impl Default for MemcpyConfig {
    fn default() -> (r: Self)
        ensures
            r.bytes == 1024,
    {
        MemcpyConfig { bytes: 1024 }
    }
}

/// Workload-specific sub-configuration.
#[derive(Clone, Copy, Debug, PartialEq, Eq, Structural)]
pub struct WorkloadConfig {
    pub memcpy: MemcpyConfig,
}

impl Default for WorkloadConfig {
    fn default() -> (r: Self)
        ensures
            r.memcpy.bytes == 1024,
    {
        WorkloadConfig { memcpy: MemcpyConfig { bytes: 1024 } }
    }
}

/// The immutable run configuration: read-only for the entire run.
#[derive(Clone, Copy, Debug, PartialEq, Eq, Structural)]
pub struct Config {
    /// The total number of measured iterations that will be performed.
    pub iterations: u64,
    /// The number of operations performed, across all workers, in one
    /// iteration; each measured sample is the average over this many
    /// operations.
    pub batch_size: u64,
    /// The number of iterations run and discarded before measuring.
    pub warmup: u64,
    /// The number of worker threads.
    pub threads: u64,
    /// The workload that will be run.
    pub workload: WorkloadType,
    /// The type of mutex that will be benchmarked.
    pub mutex: MutexType,
    /// Workload-specific settings.
    pub workloads: WorkloadConfig,
}

impl Config {
    /// A configuration the core accepts: at least one worker, and at least
    /// one operation per iteration (the per-operation average divides by
    /// the batch size).
    pub open spec fn valid(self) -> bool {
        &&& self.threads >= 1
        &&& self.batch_size >= 1
    }
}

} // verus!
