//! The memory-copy workload: each operation copies a fixed private payload
//! into the shared buffer.

use vstd::prelude::*;
use crate::config::Config;

verus! {

/// The byte at offset `i` of the repeating `0..=255` byte pattern.
pub open spec fn pattern_byte(i: int) -> u8
    recommends
        i >= 0,
{
    (i % 256) as u8
}

/// The repeating `0..=255` byte pattern, cycled and truncated to `n` bytes.
pub open spec fn pattern_seq(n: int) -> Seq<u8>
    recommends
        n >= 0,
{
    Seq::new(n as nat, |i: int| pattern_byte(i))
}

/// The memory-copy workload: a worker-private, read-only payload that every
/// operation copies into the shared buffer.
pub struct Memcpy(Vec<u8>);

impl Memcpy {
    /// The private payload's bytes.
    pub closed spec fn payload(self) -> Seq<u8> {
        self.0@
    }

    /// Builds a worker-private instance whose payload is
    /// `config.workloads.memcpy.bytes` bytes of the repeating `0..=255`
    /// pattern.
    pub fn new(config: &Config) -> (r: Self)
        ensures
            r.payload() == pattern_seq(config.workloads.memcpy.bytes as int),
    {
        let n: usize = config.workloads.memcpy.bytes;
        let mut data: Vec<u8> = Vec::new();
        let mut i: usize = 0;
        while i < n
            invariant
                i <= n,
                data@.len() == i,
                forall|q: int| 0 <= q < i ==> data@[q] == pattern_byte(q),
            decreases n - i,
        {
            data.push((i % 256) as u8);
            i = i + 1;
        }
        proof {
            assert(data@ =~= pattern_seq(n as int));
        }
        Memcpy(data)
    }

    /// Builds the shared state of one iteration: an empty growable buffer.
    pub fn new_state(config: &Config) -> (r: Vec<u8>)
        ensures
            r@ == Seq::<u8>::empty(),
    {
        let _ = config;
        Vec::new()
    }

    /// Performs one unit of contended work: clears the shared buffer, then
    /// appends the private payload's bytes to it.
    pub fn work(&mut self, state: &mut Vec<u8>)
        ensures
            final(state)@ == old(self).payload(),
            *final(self) == *old(self),
    {
        state.clear();
        state.extend_from_slice(self.0.as_slice());
        proof {
            assert(state@ =~= self.0@);
        }
    }
}

/// Memcpy correctness: after any operation by a worker built from a
/// configuration asking for `n` payload bytes, the shared buffer holds
/// exactly `n` bytes, and its content is the repeating `0..=255` pattern
/// cycled to that length.
pub proof fn lemma_memcpy_correct(w: Memcpy, state: Seq<u8>, n: int)
    requires
        n >= 0,
        w.payload() == pattern_seq(n),
        state == w.payload(),
    ensures
        state.len() == n,
        forall|i: int| 0 <= i < state.len() ==> state[i] == pattern_byte(i),
{
}

} // verus!
