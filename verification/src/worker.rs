//! The fragmenter's view of the cluster.

use vstd::prelude::*;

verus! {

/// A snapshot of the cluster's membership, taken before a plan is cut. All
/// that the fragmenter reads of it is the number of live workers.
#[derive(Clone, Copy, Debug)]
pub struct WorkerNodeManager {
    live_workers: u32,
}

impl WorkerNodeManager {
    /// The number of live workers in this snapshot, for use in contracts.
    pub closed spec fn spec_worker_node_count(&self) -> u32 {
        self.live_workers
    }

    /// A snapshot with `live_workers` live workers.
    pub fn new(live_workers: u32) -> (r: Self)
        ensures
            r.spec_worker_node_count() == live_workers,
    {
        WorkerNodeManager { live_workers }
    }

    /// The number of live workers in this snapshot.
    #[verifier::when_used_as_spec(spec_worker_node_count)]
    pub fn worker_node_count(&self) -> (r: u32)
        ensures
            r == self.spec_worker_node_count(),
    {
        self.live_workers
    }
}

} // verus!
