//! A replicated, leader-based consensus core in the style of Raft.
//!
//! The library is the decision kernel of a consensus peer: role transitions,
//! vote and append-entries handling, quorum arithmetic, commit-index
//! advancement, the per-follower replication driver, and the binary codec for
//! the durable records. Every handler is a pure function from the peer's
//! state and an incoming event to the next state and an ordered list of
//! actions (persist, send, arm a timer, deliver to the application); the
//! surrounding process executes the actions and feeds events back in.

use vstd::prelude::*;

pub mod codec;
pub mod driver;
pub mod log;
pub mod peer;
pub mod quorum;
pub mod rng;
pub mod types;
pub mod wire;

verus! {

/// The consensus worker's stable process-group name.
pub struct RaftWorker;

impl RaftWorker {
    /// Name under which every peer joins the shared process group.
    pub fn pg_name() -> (r: String)
        ensures
            r@ == "raft_worker"@,
    {
        "raft_worker".to_owned()
    }
}

} // verus!
