//! One shared graph behind one exclusive lock.
//!
//! Every operation — reads included — acquires the lock for its full
//! duration, so all callers observe a single linear history: version
//! numbers correspond to one sequence of committed states, and nobody can
//! see a torn mutation (history updated but the adjacency index not, or
//! the other way round).  The lock's invariant is graph well-formedness,
//! so every operation hands the next one a well-formed graph.

use vstd::prelude::*;
use vstd::rwlock::{RwLock, RwLockPredicate};

use crate::network::{lemma_no_self_follow, NetworkError, SocialNetwork};

verus! {

/// The lock invariant: only a well-formed graph may be stored.
pub struct WellFormedGraph {}

impl RwLockPredicate<SocialNetwork> for WellFormedGraph {
    open spec fn inv(self, v: SocialNetwork) -> bool {
        v.wf()
    }
}

/// A single graph instance serialized behind one exclusive lock.
///
/// Concurrency is deliberately coarse: correctness of the temporal
/// invariants is prioritized over throughput, so there is no
/// reader-writer split and reads serialize behind writes too.
pub struct SocialNetworkServer {
    network: RwLock<SocialNetwork, WellFormedGraph>,
}

impl SocialNetworkServer {
    #[verifier::type_invariant]
    spec fn wf(self) -> bool {
        self.network.pred() == (WellFormedGraph {  })
    }

    /// A server owning a fresh, empty graph at version 0.
    pub fn new() -> Self {
        let graph = SocialNetwork::new();
        Self { network: RwLock::new(graph, Ghost(WellFormedGraph {  })) }
    }

    /// Record a follow under the lock.  Fails exactly on a self-edge.
    pub fn follow(&self, follower_id: u64, followee_id: u64) -> (r: Result<bool, NetworkError>)
        ensures
            r is Err <==> follower_id == followee_id,
            r is Err ==> r == Err::<bool, NetworkError>(NetworkError::SelfRelation),
    {
        proof {
            use_type_invariant(self);
        }
        let (mut graph, handle) = self.network.acquire_write();
        let r = graph.follow(follower_id, followee_id);
        handle.release_write(graph);
        r
    }

    /// Record an unfollow under the lock.  Fails exactly on a self-edge.
    pub fn unfollow(&self, follower_id: u64, followee_id: u64) -> (r: Result<bool, NetworkError>)
        ensures
            r is Err <==> follower_id == followee_id,
            r is Err ==> r == Err::<bool, NetworkError>(NetworkError::SelfRelation),
    {
        proof {
            use_type_invariant(self);
        }
        let (mut graph, handle) = self.network.acquire_write();
        let r = graph.unfollow(follower_id, followee_id);
        handle.release_write(graph);
        r
    }

    /// Answer a point-in-time query under the lock.  Whatever the hidden
    /// graph holds, no self-edge was ever recorded in it, so a self-query
    /// answers false at every version.
    pub fn is_following(&self, follower_id: u64, followee_id: u64, version: Option<u64>) -> (r:
        bool)
        ensures
            follower_id == followee_id ==> r == false,
    {
        proof {
            use_type_invariant(self);
        }
        let (graph, handle) = self.network.acquire_write();
        let r = graph.is_following(follower_id, followee_id, version);
        proof {
            if follower_id == followee_id {
                lemma_no_self_follow(graph, follower_id, version);
            }
        }
        handle.release_write(graph);
        r
    }

    /// The current followers of `user_id`, read under the lock: no
    /// duplicates, and never the user themselves.
    pub fn get_followers(&self, user_id: u64) -> (r: Vec<u64>)
        ensures
            !r@.contains(user_id),
            forall|k: int, l: int|
                0 <= k < l < r@.len() ==> (#[trigger] r@[k]) != (#[trigger] r@[l]),
    {
        proof {
            use_type_invariant(self);
        }
        let (graph, handle) = self.network.acquire_write();
        let r = graph.get_followers(user_id);
        handle.release_write(graph);
        r
    }

    /// The current followees of `user_id`, read under the lock: no
    /// duplicates, and never the user themselves.
    pub fn get_followees(&self, user_id: u64) -> (r: Vec<u64>)
        ensures
            !r@.contains(user_id),
            forall|k: int, l: int|
                0 <= k < l < r@.len() ==> (#[trigger] r@[k]) != (#[trigger] r@[l]),
    {
        proof {
            use_type_invariant(self);
        }
        let (graph, handle) = self.network.acquire_write();
        let r = graph.get_followees(user_id);
        handle.release_write(graph);
        r
    }

    /// Advance the version counter under the lock and return the new
    /// version.  At the counter's ceiling the graph is left unchanged and
    /// the ceiling is returned, keeping the counter monotonic.  Either
    /// way the result is past the starting version 0.
    pub fn commit(&self) -> (r: u64)
        ensures
            r >= 1,
    {
        proof {
            use_type_invariant(self);
        }
        let (mut graph, handle) = self.network.acquire_write();
        let v = if graph.current_version() < u64::MAX {
            graph.commit()
        } else {
            u64::MAX
        };
        handle.release_write(graph);
        v
    }

    /// The current version, read under the lock.
    pub fn get_current_version(&self) -> u64 {
        proof {
            use_type_invariant(self);
        }
        let (graph, handle) = self.network.acquire_write();
        let v = graph.current_version();
        handle.release_write(graph);
        v
    }
}

} // verus!
