//! A single span of an edge's lifetime.

use vstd::prelude::*;

verus! {

/// One contiguous span of versions during which a directed follow edge was
/// continuously active.  `follow_end == None` marks an open interval: the
/// edge is still active now.  A dedicated tagged state is used for "open"
/// rather than a sentinel version number, so that no legitimate version can
/// collide with it.
#[derive(Clone, Copy, Debug)]
pub struct FollowInterval {
    pub follow_start: u64,
    pub follow_end: Option<u64>,
}

impl FollowInterval {
    /// The interval has not been closed yet.
    pub open spec fn is_open(self) -> bool {
        self.follow_end is None
    }

    /// The interval covers `version`: it started no later than `version`
    /// and either is still open or ended no earlier than `version`.
    pub open spec fn spec_active_at(self, version: u64) -> bool {
        &&& self.follow_start <= version
        &&& match self.follow_end {
            None => true,
            Some(e) => version <= e,
        }
    }

    /// Well-formed relative to the graph's current version `current`: the
    /// interval never mentions a version from the future, and a closed
    /// interval ends no earlier than it starts.
    pub open spec fn wf(self, current: u64) -> bool {
        &&& self.follow_start <= current
        &&& match self.follow_end {
            None => true,
            Some(e) => self.follow_start <= e && e <= current,
        }
    }

    /// A fresh interval starting at `follow_start`, still open.
    pub fn new(follow_start: u64) -> (r: Self)
        ensures
            r.follow_start == follow_start,
            r.is_open(),
    {
        Self { follow_start, follow_end: None }
    }

    /// Whether this interval covers `version`.
    pub fn is_active(&self, version: u64) -> (r: bool)
        ensures
            r == self.spec_active_at(version),
    {
        version >= self.follow_start && match self.follow_end {
            None => true,
            Some(e) => version <= e,
        }
    }
}

} // verus!
