//! The simplest possible workload: each operation increments the shared
//! counter by one.

use vstd::prelude::*;
use crate::config::Config;

verus! {

/// The increment workload. It carries no private payload.
pub struct Increment;

impl Default for Increment {
    fn default() -> (r: Self) {
        Increment
    }
}

impl Increment {
    /// Builds a worker-private instance.
    pub fn new(config: &Config) -> (r: Self) {
        let _ = config;
        Increment
    }

    /// Builds the shared state of one iteration: a counter starting at zero.
    pub fn new_state(config: &Config) -> (r: u64)
        ensures
            r == 0,
    {
        let _ = config;
        0
    }

    /// Performs one unit of contended work: adds one to the shared counter.
    pub fn work(&mut self, state: &mut u64)
        requires
            *old(state) < u64::MAX,
        ensures
            *final(state) == *old(state) + 1,
    {
        *state = *state + 1;
    }
}

/// The counter after a serialized run of the operations in `ops`, starting
/// from `start`. Each element of `ops` names the worker that performed the
/// operation; the effect of an increment does not depend on the worker, so
/// the ids only fix the interleaving's length.
pub open spec fn counter_after(start: nat, ops: Seq<int>) -> nat
    decreases ops.len(),
{
    if ops.len() == 0 {
        start
    } else {
        counter_after(start, ops.drop_last()) + 1
    }
}

/// Increment correctness: starting from zero, a serialized run of the
/// operations of any interleaving `ops` — whatever worker the mutex let win
/// each acquisition, over any thread count — leaves the counter at exactly
/// the number of operations performed.
pub proof fn lemma_increment_correct(ops: Seq<int>)
    ensures
        counter_after(0, ops) == ops.len(),
{
    lemma_counter_after_adds(0, ops);
}

/// The counter after a serialized run grows by exactly one per operation.
pub proof fn lemma_counter_after_adds(start: nat, ops: Seq<int>)
    ensures
        counter_after(start, ops) == start + ops.len(),
    decreases ops.len(),
{
    if ops.len() > 0 {
        lemma_counter_after_adds(start, ops.drop_last());
    }
}

} // verus!
