//! The pluggable units of contended work.
//!
//! Each workload offers three operations: building a worker-private
//! instance, building the single shared state all workers of one iteration
//! operate on, and performing exactly one unit of work against that state.
//! Every unit of work runs inside its own critical section of the mutex
//! under test, so a run serializes the workers' operations in some
//! interleaving; the laws here show the final state is the same for every
//! interleaving.

pub mod increment;
pub mod memcpy;
