//! Persistent routing state of the master: the ring snapshot and the roots
//! loaded by each worker.

use vstd::prelude::*;
use std::collections::HashMap;
use crate::ring::SerializableRing;
use vstd::std_specs::iter::IteratorSpec;

verus! {

broadcast use vstd::std_specs::hash::group_hash_axioms;

/// Persistent state of one worker.
pub struct WorkerEntry {
    pub index: u32,
    pub socket_path: String,
    pub pid: u32,
    /// Slugs of the roots loaded in this worker.
    pub root_slugs: Vec<String>,
}

/// Ring snapshot plus the registered workers, by worker index.
pub struct RoutingTable {
    pub ring_state: SerializableRing,
    pub workers: HashMap<u32, WorkerEntry>,
}

/// Worker keys of `m`, in some order, each exactly once.
pub fn worker_keys(m: &HashMap<u32, WorkerEntry>) -> (r: Vec<u32>)
    ensures
        r@.to_set() == m@.dom(),
        r@.no_duplicates(),
{
    let mut keys: Vec<u32> = Vec::new();
    let ghost init = vstd::std_specs::hash::spec_keys_iter(m).remaining();
    for k in it: m.keys()
        invariant
            keys@ == it.seq().take(it.index() as int).unref(),
            it.seq() == init,
    {
        keys.push(*k);
    }
    proof {
        vstd::std_specs::hash::axiom_spec_keys_iter(m);
        assert(init.take(init.len() as int) =~= init);
        assert(keys@ =~= init.unref());
    }
    keys
}

impl Default for RoutingTable {
    fn default() -> (r: Self)
        ensures
            r.ring_state.nodes@.len() == 0,
            r.workers@ == Map::<u32, WorkerEntry>::empty(),
    {
        RoutingTable { ring_state: SerializableRing::default(), workers: HashMap::new() }
    }
}

impl RoutingTable {
    /// Number of roots assigned to worker `worker_index` (0 if unknown).
    pub fn entries_for_worker(&self, worker_index: u32) -> (r: usize)
        ensures
            r == (if self.workers@.contains_key(worker_index) {
                self.workers@[worker_index].root_slugs@.len()
            } else {
                0
            }),
    {
        match self.workers.get(&worker_index) {
            Some(e) => e.root_slugs.len(),
            None => 0,
        }
    }

    /// Number of registered workers.
    pub fn worker_count(&self) -> (r: usize)
        ensures
            r == self.workers@.len(),
    {
        self.workers.len()
    }
}

} // verus!
