//! The versioned follow graph: authoritative interval history per edge,
//! a commit-driven version counter, and a derived index of the edges that
//! are open right now.

use vstd::prelude::*;

use crate::interval::FollowInterval;

verus! {

/// Why a mutation was refused.
#[derive(Clone, Copy, Debug, PartialEq, Eq, Structural)]
pub enum NetworkError {
    /// A user asked to follow or unfollow themselves.
    SelfRelation,
    /// The interval history of an edge was found in a shape the transition
    /// rules cannot explain.  On a well-formed graph this is proved never
    /// to be returned; it marks an internal defect, not a user error.
    InvalidIntervalState,
}

/// The full recorded lifetime of one directed edge: an append-ordered
/// sequence of follow intervals.  Entries are never deleted; only the last
/// one may be open, and a new entry may only be appended after the previous
/// one has closed.
#[derive(Debug)]
pub struct EdgeHistory {
    pub follower: u64,
    pub followee: u64,
    pub intervals: Vec<FollowInterval>,
}

impl EdgeHistory {
    /// Well-formed relative to the current version `current`:
    /// no self-edge, a non-empty history, every interval within bounds,
    /// every interval but the last closed, and starts strictly after the
    /// previous end, so the spans never overlap.
    pub open spec fn wf(self, current: u64) -> bool {
        &&& self.follower != self.followee
        &&& self.intervals@.len() > 0
        &&& forall|i: int|
            0 <= i < self.intervals@.len() ==> (#[trigger] self.intervals@[i]).wf(current)
        &&& forall|i: int|
            0 <= i < self.intervals@.len() - 1 ==> !(#[trigger] self.intervals@[i]).is_open()
        &&& forall|i: int|
            0 < i < self.intervals@.len() ==> (#[trigger] self.intervals@[i]).follow_start
                > self.intervals@[i - 1].follow_end->Some_0
    }

    /// The edge is active right now: its last recorded interval is open.
    pub open spec fn is_open(self) -> bool {
        self.intervals@.len() > 0 && self.intervals@.last().is_open()
    }
}

/// A still-open interval starting at version `v`.
pub open spec fn opened_interval(v: u64) -> FollowInterval {
    FollowInterval { follow_start: v, follow_end: None }
}

/// `s` with its last interval reopened: same start, no end.
pub open spec fn reopened_last(s: Seq<FollowInterval>) -> Seq<FollowInterval>
    recommends
        s.len() > 0,
{
    s.update(s.len() - 1, (FollowInterval { follow_start: s.last().follow_start, follow_end: None }))
}

/// `s` with its last interval closed at version `v`: same start, end `v`.
pub open spec fn closed_last(s: Seq<FollowInterval>, v: u64) -> Seq<FollowInterval>
    recommends
        s.len() > 0,
{
    s.update(
        s.len() - 1,
        (FollowInterval { follow_start: s.last().follow_start, follow_end: Some(v) }),
    )
}

/// The followers of `u` listed in `pairs`, in list order: the first
/// component of every pair whose second component is `u`.
pub open spec fn followers_in(pairs: Seq<(u64, u64)>, u: u64) -> Seq<u64>
    decreases pairs.len(),
{
    if pairs.len() == 0 {
        Seq::empty()
    } else if pairs.last().1 == u {
        followers_in(pairs.drop_last(), u).push(pairs.last().0)
    } else {
        followers_in(pairs.drop_last(), u)
    }
}

/// The followees of `u` listed in `pairs`, in list order: the second
/// component of every pair whose first component is `u`.
pub open spec fn followees_in(pairs: Seq<(u64, u64)>, u: u64) -> Seq<u64>
    decreases pairs.len(),
{
    if pairs.len() == 0 {
        Seq::empty()
    } else if pairs.last().0 == u {
        followees_in(pairs.drop_last(), u).push(pairs.last().1)
    } else {
        followees_in(pairs.drop_last(), u)
    }
}

/// `x` is a follower of `u` in `pairs` exactly when `(x, u)` is listed.
proof fn lemma_followers_in_contains(pairs: Seq<(u64, u64)>, u: u64, x: u64)
    ensures
        followers_in(pairs, u).contains(x) <==> pairs.contains((x, u)),
    decreases pairs.len(),
{
    if pairs.len() > 0 {
        lemma_followers_in_contains(pairs.drop_last(), u, x);
        assert(pairs.drop_last().push(pairs.last()) =~= pairs);
        lemma_contains_push(pairs.drop_last(), pairs.last(), (x, u));
        if pairs.last().1 == u {
            lemma_contains_push(followers_in(pairs.drop_last(), u), pairs.last().0, x);
        }
    }
}

/// `x` is a followee of `u` in `pairs` exactly when `(u, x)` is listed.
proof fn lemma_followees_in_contains(pairs: Seq<(u64, u64)>, u: u64, x: u64)
    ensures
        followees_in(pairs, u).contains(x) <==> pairs.contains((u, x)),
    decreases pairs.len(),
{
    if pairs.len() > 0 {
        lemma_followees_in_contains(pairs.drop_last(), u, x);
        assert(pairs.drop_last().push(pairs.last()) =~= pairs);
        lemma_contains_push(pairs.drop_last(), pairs.last(), (u, x));
        if pairs.last().0 == u {
            lemma_contains_push(followees_in(pairs.drop_last(), u), pairs.last().1, x);
        }
    }
}

/// A duplicate-free pair list yields a duplicate-free follower list.
proof fn lemma_followers_in_distinct(pairs: Seq<(u64, u64)>, u: u64)
    requires
        forall|k: int, l: int|
            0 <= k < l < pairs.len() ==> (#[trigger] pairs[k]) != (#[trigger] pairs[l]),
    ensures
        forall|k: int, l: int|
            0 <= k < l < followers_in(pairs, u).len() ==> (#[trigger] followers_in(pairs, u)[k])
                != (#[trigger] followers_in(pairs, u)[l]),
    decreases pairs.len(),
{
    if pairs.len() > 0 {
        let prev = pairs.drop_last();
        lemma_followers_in_distinct(prev, u);
        if pairs.last().1 == u {
            let x = pairs.last().0;
            assert(!followers_in(prev, u).contains(x)) by {
                lemma_followers_in_contains(prev, u, x);
                if prev.contains((x, u)) {
                    let j = choose|j: int| 0 <= j < prev.len() && prev[j] == (x, u);
                    assert(pairs[j] == (x, u));
                    assert(pairs[pairs.len() - 1] == (x, u));
                }
            }
            let fs = followers_in(prev, u).push(x);
            assert forall|k: int, l: int| 0 <= k < l < fs.len() implies (#[trigger] fs[k]) != (
            #[trigger] fs[l]) by {
                if l < fs.len() - 1 {
                    assert(fs[k] == followers_in(prev, u)[k] && fs[l] == followers_in(prev, u)[l]);
                } else {
                    assert(fs[l] == x);
                    assert(fs[k] == followers_in(prev, u)[k]);
                    assert(followers_in(prev, u).contains(followers_in(prev, u)[k]));
                }
            }
        }
    }
}

/// A duplicate-free pair list yields a duplicate-free followee list.
proof fn lemma_followees_in_distinct(pairs: Seq<(u64, u64)>, u: u64)
    requires
        forall|k: int, l: int|
            0 <= k < l < pairs.len() ==> (#[trigger] pairs[k]) != (#[trigger] pairs[l]),
    ensures
        forall|k: int, l: int|
            0 <= k < l < followees_in(pairs, u).len() ==> (#[trigger] followees_in(pairs, u)[k])
                != (#[trigger] followees_in(pairs, u)[l]),
    decreases pairs.len(),
{
    if pairs.len() > 0 {
        let prev = pairs.drop_last();
        lemma_followees_in_distinct(prev, u);
        if pairs.last().0 == u {
            let x = pairs.last().1;
            assert(!followees_in(prev, u).contains(x)) by {
                lemma_followees_in_contains(prev, u, x);
                if prev.contains((u, x)) {
                    let j = choose|j: int| 0 <= j < prev.len() && prev[j] == (u, x);
                    assert(pairs[j] == (u, x));
                    assert(pairs[pairs.len() - 1] == (u, x));
                }
            }
            let fs = followees_in(prev, u).push(x);
            assert forall|k: int, l: int| 0 <= k < l < fs.len() implies (#[trigger] fs[k]) != (
            #[trigger] fs[l]) by {
                if l < fs.len() - 1 {
                    assert(fs[k] == followees_in(prev, u)[k] && fs[l] == followees_in(prev, u)[l]);
                } else {
                    assert(fs[l] == x);
                    assert(fs[k] == followees_in(prev, u)[k]);
                    assert(followees_in(prev, u).contains(followees_in(prev, u)[k]));
                }
            }
        }
    }
}

/// A social-network graph with full temporal history.
///
/// `edges` is the authoritative store: one history per directed edge ever
/// followed.  `open_edges` is a derived adjacency index listing exactly the
/// `(follower, followee)` pairs whose last interval is open; well-formedness
/// ties it to the history, so the "now" view can never disagree with the
/// interval log.
#[derive(Debug)]
pub struct SocialNetwork {
    version: u64,
    edges: Vec<EdgeHistory>,
    open_edges: Vec<(u64, u64)>,
}

impl SocialNetwork {
    /// The current version of the graph.
    pub closed spec fn spec_version(self) -> u64 {
        self.version
    }

    /// `i` is the position of edge `(f, g)` in the history store.
    spec fn matching(self, i: int, f: u64, g: u64) -> bool {
        &&& 0 <= i < self.edges@.len()
        &&& self.edges@[i].follower == f
        &&& self.edges@[i].followee == g
    }

    /// Some history has been recorded for edge `(f, g)`.
    spec fn edge_exists(self, f: u64, g: u64) -> bool {
        exists|i: int| self.matching(i, f, g)
    }

    /// The position of edge `(f, g)` in the history store.
    spec fn edge_at(self, f: u64, g: u64) -> int {
        choose|i: int| self.matching(i, f, g)
    }

    /// The recorded interval history of edge `(f, g)`, oldest first;
    /// empty if the edge was never followed.
    pub closed spec fn edge_intervals(self, f: u64, g: u64) -> Seq<FollowInterval> {
        if self.edge_exists(f, g) {
            self.edges@[self.edge_at(f, g)].intervals@
        } else {
            Seq::empty()
        }
    }

    /// `f` follows `g` right now: the edge's last interval is open.
    pub open spec fn currently_follows(self, f: u64, g: u64) -> bool {
        &&& self.edge_intervals(f, g).len() > 0
        &&& self.edge_intervals(f, g).last().is_open()
    }

    /// The edge's last interval was closed within the current uncommitted
    /// version window, so a follow would reopen it instead of appending.
    pub open spec fn reopenable(self, f: u64, g: u64) -> bool {
        &&& self.edge_intervals(f, g).len() > 0
        &&& self.edge_intervals(f, g).last().follow_end == Some(self.spec_version())
    }

    /// Some recorded interval of edge `(f, g)` covers version `v`.
    pub open spec fn follows_at(self, f: u64, g: u64, v: u64) -> bool {
        exists|i: int|
            0 <= i < self.edge_intervals(f, g).len() && (#[trigger] self.edge_intervals(
                f,
                g,
            )[i]).spec_active_at(v)
    }

    /// The version a query refers to: the given one, or the current
    /// version when none is given.
    pub open spec fn resolve_version(self, version: Option<u64>) -> u64 {
        match version {
            None => self.spec_version(),
            Some(v) => v,
        }
    }

    /// What `is_following` answers: the resolved version is not in the
    /// future, and some recorded interval of the edge covers it.
    pub open spec fn spec_is_following(self, f: u64, g: u64, version: Option<u64>) -> bool {
        &&& self.resolve_version(version) <= self.spec_version()
        &&& self.follows_at(f, g, self.resolve_version(version))
    }

    /// No directed edge has more than one history entry.
    spec fn edges_unique(self) -> bool {
        forall|i: int, j: int|
            0 <= i < j < self.edges@.len() ==> !((#[trigger] self.edges@[i]).follower == (
            #[trigger] self.edges@[j]).follower && self.edges@[i].followee
                == self.edges@[j].followee)
    }

    /// Graph well-formedness: each directed edge has at most one history,
    /// each history is well-formed at the current version, and the derived
    /// index holds exactly the pairs whose last interval is open, without
    /// duplicates.
    pub closed spec fn wf(self) -> bool {
        &&& self.edges_unique()
        &&& forall|i: int|
            0 <= i < self.edges@.len() ==> (#[trigger] self.edges@[i]).wf(self.version)
        &&& forall|k: int, l: int|
            0 <= k < l < self.open_edges@.len() ==> (#[trigger] self.open_edges@[k]) != (
            #[trigger] self.open_edges@[l])
        &&& forall|k: int|
            0 <= k < self.open_edges@.len() ==> self.currently_follows(
                (#[trigger] self.open_edges@[k]).0,
                self.open_edges@[k].1,
            )
        &&& forall|f: u64, g: u64|
            #[trigger] self.currently_follows(f, g) ==> self.open_edges@.contains((f, g))
    }

    /// A fresh graph: version 0, no history, nobody following anybody.
    pub fn new() -> (r: Self)
        ensures
            r.wf(),
            r.spec_version() == 0,
            forall|f: u64, g: u64| #[trigger] r.edge_intervals(f, g) == Seq::<FollowInterval>::empty(),
            forall|f: u64, g: u64| !(#[trigger] r.currently_follows(f, g)),
            forall|u: u64| #[trigger] r.spec_followers(u) == Seq::<u64>::empty(),
            forall|u: u64| #[trigger] r.spec_followees(u) == Seq::<u64>::empty(),
    {
        let r = Self { version: 0, edges: Vec::new(), open_edges: Vec::new() };
        proof {
            assert(forall|f: u64, g: u64| !r.edge_exists(f, g));
        }
        r
    }

    /// The current version of the graph.
    pub fn current_version(&self) -> (r: u64)
        ensures
            r == self.spec_version(),
    {
        self.version
    }

    /// Seal the current window of mutations: advance the version counter
    /// and return the new version.  This is the only operation that moves
    /// time forward; no history entry changes.  The counter must still
    /// have room; a caller that cannot rule the ceiling out checks
    /// `current_version` first.
    pub fn commit(&mut self) -> (r: u64)
        requires
            old(self).wf(),
            old(self).spec_version() < u64::MAX,
        ensures
            final(self).wf(),
            final(self).spec_version() == old(self).spec_version() + 1,
            r == final(self).spec_version(),
            forall|f: u64, g: u64| #[trigger]
                final(self).edge_intervals(f, g) == old(self).edge_intervals(f, g),
            forall|f: u64, g: u64| #[trigger]
                final(self).currently_follows(f, g) == old(self).currently_follows(f, g),
    {
        self.version = self.version + 1;
        proof {
            lemma_histories_shared(*old(self), *self);
        }
        self.version
    }

    /// Record that `follower_id` follows `followee_id`, as of the current
    /// version.  Refused for a self-edge.  Returns `Ok(true)` when a new
    /// interval was appended, `Ok(false)` when the edge was already open or
    /// when an interval closed within the current uncommitted version window
    /// was reopened — an unfollow-then-follow inside one window collapses
    /// back into a single continuous interval.  Either way the edge is open
    /// afterwards, and no other edge's history changes.
    #[verifier::rlimit(100)]
    pub fn follow(&mut self, follower_id: u64, followee_id: u64) -> (r: Result<
        bool,
        NetworkError,
    >)
        requires
            old(self).wf(),
        ensures
            final(self).wf(),
            final(self).spec_version() == old(self).spec_version(),
            r is Err <==> follower_id == followee_id,
            follower_id == followee_id ==> r == Err::<bool, NetworkError>(
                NetworkError::SelfRelation,
            ) && *final(self) == *old(self),
            follower_id != followee_id ==> {
                &&& r == Ok::<bool, NetworkError>(
                    !(old(self).currently_follows(follower_id, followee_id) || old(self).reopenable(follower_id, followee_id)),
                )
                &&& old(self).currently_follows(follower_id, followee_id) ==> *final(self) == *old(self)
                &&& final(self).edge_intervals(follower_id, followee_id) == (if old(self).currently_follows(follower_id, followee_id) {
                    old(self).edge_intervals(follower_id, followee_id)
                } else if old(self).reopenable(follower_id, followee_id) {
                    reopened_last(old(self).edge_intervals(follower_id, followee_id))
                } else {
                    old(self).edge_intervals(follower_id, followee_id).push(
                        opened_interval(old(self).spec_version()),
                    )
                })
                &&& forall|a: u64, b: u64|
                    !(a == follower_id && b == followee_id) ==> #[trigger] final(self).edge_intervals(a, b) == old(self).edge_intervals(a, b)
                &&& final(self).currently_follows(follower_id, followee_id)
                &&& final(self).spec_is_following(follower_id, followee_id, None)
            },
    {
        if follower_id == followee_id {
            return Err(NetworkError::SelfRelation);
        }
        match find_edge(&self.edges, follower_id, followee_id) {
            Some(i) => {
                proof {
                    lemma_edge_at_is(*self, follower_id, followee_id, i as int);
                }
                let n = self.edges[i].intervals.len();
                let last = self.edges[i].intervals[n - 1];
                match last.follow_end {
                    None => {
                        // The last interval is still open: already following.
                        Ok(false)
                    },
                    Some(e) => {
                        if e == self.version {
                            // Closed within the current uncommitted window:
                            // reopen it rather than fragmenting the history.
                            let reopened = FollowInterval {
                                follow_start: last.follow_start,
                                follow_end: None,
                            };
                            self.edges[i].intervals.set(n - 1, reopened);
                            self.open_edges.push((follower_id, followee_id));
                            proof {
                                lemma_histories_updated(
                                    *old(self),
                                    *self,
                                    follower_id,
                                    followee_id,
                                    i as int,
                                );
                                assert(self.edge_intervals(follower_id, followee_id)
                                    =~= reopened_last(
                                    old(self).edge_intervals(follower_id, followee_id),
                                ));
                                assert forall|j: int|
                                    0 <= j < self.edges@.len() implies (
                                #[trigger] self.edges@[j]).wf(self.version) by {
                                    if j != i {
                                        assert(self.edges@[j] == old(self).edges@[j]);
                                    }
                                }
                                lemma_follow_index(*old(self), *self, follower_id, followee_id);
                                assert(self.edge_intervals(follower_id, followee_id)[n - 1]
                                    .spec_active_at(self.version));
                            }
                            Ok(false)
                        } else {
                            // The last interval closed in an earlier version:
                            // append a fresh open interval.
                            let iv = FollowInterval::new(self.version);
                            self.edges[i].intervals.push(iv);
                            self.open_edges.push((follower_id, followee_id));
                            proof {
                                assert(iv == opened_interval(self.version));
                                lemma_histories_updated(
                                    *old(self),
                                    *self,
                                    follower_id,
                                    followee_id,
                                    i as int,
                                );
                                assert(self.edge_intervals(follower_id, followee_id) == old(self).edge_intervals(follower_id, followee_id).push(
                                    opened_interval(self.version),
                                ));
                                assert forall|j: int|
                                    0 <= j < self.edges@.len() implies (
                                #[trigger] self.edges@[j]).wf(self.version) by {
                                    if j != i {
                                        assert(self.edges@[j] == old(self).edges@[j]);
                                    }
                                }
                                lemma_follow_index(*old(self), *self, follower_id, followee_id);
                                assert(self.edge_intervals(follower_id, followee_id)[n as int]
                                    .spec_active_at(self.version));
                            }
                            Ok(true)
                        }
                    },
                }
            },
            None => {
                // First follow ever for this edge: record a new history.
                proof {
                    assert(!self.edge_exists(follower_id, followee_id));
                }
                let iv = FollowInterval::new(self.version);
                let mut ivs: Vec<FollowInterval> = Vec::new();
                ivs.push(iv);
                self.edges.push(
                    EdgeHistory { follower: follower_id, followee: followee_id, intervals: ivs },
                );
                self.open_edges.push((follower_id, followee_id));
                proof {
                    assert(iv == opened_interval(self.version));
                    lemma_histories_pushed(*old(self), *self, follower_id, followee_id);
                    assert(self.edge_intervals(follower_id, followee_id) =~= old(self).edge_intervals(follower_id, followee_id).push(opened_interval(self.version)));
                    assert forall|j: int|
                        0 <= j < self.edges@.len() implies (#[trigger] self.edges@[j]).wf(
                        self.version,
                    ) by {
                        if j < old(self).edges@.len() {
                            assert(self.edges@[j] == old(self).edges@[j]);
                        } else {
                            assert(self.edges@[j] == self.edges@.last());
                        }
                    }
                    lemma_follow_index(*old(self), *self, follower_id, followee_id);
                    assert(self.edge_intervals(follower_id, followee_id)[0].spec_active_at(
                        self.version,
                    ));
                }
                Ok(true)
            },
        }
    }

    /// Record that `follower_id` no longer follows `followee_id`.  Refused
    /// for a self-edge.  When the edge is not open — never followed, or
    /// already closed — nothing changes and `Ok(false)` is returned.
    /// Otherwise the open interval is closed at the current version, which
    /// it still covers until the next commit, the edge leaves the adjacency
    /// index, and `Ok(true)` is returned.  No other edge's history changes.
    #[verifier::rlimit(100)]
    pub fn unfollow(&mut self, follower_id: u64, followee_id: u64) -> (r: Result<
        bool,
        NetworkError,
    >)
        requires
            old(self).wf(),
        ensures
            final(self).wf(),
            final(self).spec_version() == old(self).spec_version(),
            r is Err <==> follower_id == followee_id,
            follower_id == followee_id ==> r == Err::<bool, NetworkError>(
                NetworkError::SelfRelation,
            ) && *final(self) == *old(self),
            follower_id != followee_id ==> {
                &&& r == Ok::<bool, NetworkError>(
                    old(self).currently_follows(follower_id, followee_id),
                )
                &&& !old(self).currently_follows(follower_id, followee_id) ==> *final(self) == *old(self)
                &&& old(self).currently_follows(follower_id, followee_id) ==> {
                    &&& final(self).edge_intervals(follower_id, followee_id) == closed_last(
                        old(self).edge_intervals(follower_id, followee_id),
                        old(self).spec_version(),
                    )
                    &&& !final(self).currently_follows(follower_id, followee_id)
                    &&& final(self).follows_at(follower_id, followee_id, old(self).spec_version())
                }
                &&& forall|a: u64, b: u64|
                    !(a == follower_id && b == followee_id) ==> #[trigger] final(self).edge_intervals(
                        a,
                        b,
                    ) == old(self).edge_intervals(a, b)
            },
    {
        if follower_id == followee_id {
            return Err(NetworkError::SelfRelation);
        }
        if !pair_in(&self.open_edges, follower_id, followee_id) {
            // The adjacency index has no open edge here, and by
            // well-formedness neither has the history.
            proof {
                assert(!self.currently_follows(follower_id, followee_id));
            }
            return Ok(false);
        }
        proof {
            let k = choose|k: int|
                0 <= k < self.open_edges@.len() && self.open_edges@[k] == (
                follower_id,
                followee_id,
            );
            assert(self.currently_follows(self.open_edges@[k].0, self.open_edges@[k].1));
        }
        match find_edge(&self.edges, follower_id, followee_id) {
            None => {
                // The index lists the edge as open, yet no history exists:
                // impossible on a well-formed graph.
                proof {
                    assert(!self.edge_exists(follower_id, followee_id));
                    assert(false);
                }
                Err(NetworkError::InvalidIntervalState)
            },
            Some(i) => {
                proof {
                    lemma_edge_at_is(*self, follower_id, followee_id, i as int);
                }
                let n = self.edges[i].intervals.len();
                let last = self.edges[i].intervals[n - 1];
                match last.follow_end {
                    None => {
                        // Close the open interval at the current version.
                        let closed = FollowInterval {
                            follow_start: last.follow_start,
                            follow_end: Some(self.version),
                        };
                        self.edges[i].intervals.set(n - 1, closed);
                        remove_pair(&mut self.open_edges, follower_id, followee_id);
                        proof {
                            lemma_histories_updated(
                                *old(self),
                                *self,
                                follower_id,
                                followee_id,
                                i as int,
                            );
                            assert(self.edge_intervals(follower_id, followee_id) =~= closed_last(
                                old(self).edge_intervals(follower_id, followee_id),
                                old(self).spec_version(),
                            ));
                            assert forall|j: int|
                                0 <= j < self.edges@.len() implies (#[trigger] self.edges@[j]).wf(
                                self.version,
                            ) by {
                                if j != i {
                                    assert(self.edges@[j] == old(self).edges@[j]);
                                }
                            }
                            lemma_unfollow_index(*old(self), *self, follower_id, followee_id);
                            assert(self.edge_intervals(follower_id, followee_id)[n - 1]
                                .spec_active_at(self.version));
                        }
                        Ok(true)
                    },
                    Some(_) => {
                        // The index lists the edge as open, yet its last
                        // interval is closed: impossible on a well-formed
                        // graph.
                        proof {
                            assert(false);
                        }
                        Err(NetworkError::InvalidIntervalState)
                    },
                }
            },
        }
    }

    /// The followers of `user_id` as listed in the adjacency index.
    pub closed spec fn spec_followers(self, user_id: u64) -> Seq<u64> {
        followers_in(self.open_edges@, user_id)
    }

    /// The followees of `user_id` as listed in the adjacency index.
    pub closed spec fn spec_followees(self, user_id: u64) -> Seq<u64> {
        followees_in(self.open_edges@, user_id)
    }

    /// Everyone currently following `user_id`: exactly the users whose
    /// edge towards `user_id` has an open last interval.  Without
    /// duplicates, never listing `user_id` itself, and empty — not an
    /// error — for an unknown user.
    #[verifier::loop_isolation(false)]
    pub fn get_followers(&self, user_id: u64) -> (r: Vec<u64>)
        requires
            self.wf(),
        ensures
            r@ == self.spec_followers(user_id),
            forall|x: u64| r@.contains(x) <==> self.currently_follows(x, user_id),
            !r@.contains(user_id),
            forall|k: int, l: int|
                0 <= k < l < r@.len() ==> (#[trigger] r@[k]) != (#[trigger] r@[l]),
    {
        let n = self.open_edges.len();
        let mut r: Vec<u64> = Vec::new();
        let mut k: usize = 0;
        while k < n
            invariant
                k <= n,
                r@ == followers_in(self.open_edges@.take(k as int), user_id),
            decreases n - k,
        {
            let p = self.open_edges[k];
            if p.1 == user_id {
                r.push(p.0);
            }
            proof {
                assert(self.open_edges@.take(k as int + 1).drop_last() =~= self.open_edges@.take(
                    k as int,
                ));
                assert(self.open_edges@.take(k as int + 1).last() == self.open_edges@[k as int]);
            }
            k = k + 1;
        }
        proof {
            assert(self.open_edges@.take(n as int) =~= self.open_edges@);
            assert forall|x: u64| r@.contains(x) <==> self.currently_follows(x, user_id) by {
                lemma_followers_in_contains(self.open_edges@, user_id, x);
                if self.open_edges@.contains((x, user_id)) {
                    let j = choose|j: int|
                        0 <= j < self.open_edges@.len() && self.open_edges@[j] == (x, user_id);
                    assert(self.currently_follows(
                        self.open_edges@[j].0,
                        self.open_edges@[j].1,
                    ));
                }
            }
            assert(!r@.contains(user_id)) by {
                if self.currently_follows(user_id, user_id) {
                    let i = self.edge_at(user_id, user_id);
                    assert(self.matching(i, user_id, user_id));
                    assert(self.edges@[i].wf(self.version));
                }
            }
            lemma_followers_in_distinct(self.open_edges@, user_id);
        }
        r
    }

    /// Everyone `user_id` currently follows: exactly the users towards
    /// whom `user_id`'s edge has an open last interval.  Without
    /// duplicates, never listing `user_id` itself, and empty — not an
    /// error — for an unknown user.
    #[verifier::loop_isolation(false)]
    pub fn get_followees(&self, user_id: u64) -> (r: Vec<u64>)
        requires
            self.wf(),
        ensures
            r@ == self.spec_followees(user_id),
            forall|x: u64| r@.contains(x) <==> self.currently_follows(user_id, x),
            !r@.contains(user_id),
            forall|k: int, l: int|
                0 <= k < l < r@.len() ==> (#[trigger] r@[k]) != (#[trigger] r@[l]),
    {
        let n = self.open_edges.len();
        let mut r: Vec<u64> = Vec::new();
        let mut k: usize = 0;
        while k < n
            invariant
                k <= n,
                r@ == followees_in(self.open_edges@.take(k as int), user_id),
            decreases n - k,
        {
            let p = self.open_edges[k];
            if p.0 == user_id {
                r.push(p.1);
            }
            proof {
                assert(self.open_edges@.take(k as int + 1).drop_last() =~= self.open_edges@.take(
                    k as int,
                ));
                assert(self.open_edges@.take(k as int + 1).last() == self.open_edges@[k as int]);
            }
            k = k + 1;
        }
        proof {
            assert(self.open_edges@.take(n as int) =~= self.open_edges@);
            assert forall|x: u64| r@.contains(x) <==> self.currently_follows(user_id, x) by {
                lemma_followees_in_contains(self.open_edges@, user_id, x);
                if self.open_edges@.contains((user_id, x)) {
                    let j = choose|j: int|
                        0 <= j < self.open_edges@.len() && self.open_edges@[j] == (user_id, x);
                    assert(self.currently_follows(
                        self.open_edges@[j].0,
                        self.open_edges@[j].1,
                    ));
                }
            }
            assert(!r@.contains(user_id)) by {
                if self.currently_follows(user_id, user_id) {
                    let i = self.edge_at(user_id, user_id);
                    assert(self.matching(i, user_id, user_id));
                    assert(self.edges@[i].wf(self.version));
                }
            }
            lemma_followees_in_distinct(self.open_edges@, user_id);
        }
        r
    }

    /// How many users currently follow `user_id`.
    pub fn follower_count(&self, user_id: u64) -> (r: usize)
        requires
            self.wf(),
        ensures
            r == self.spec_followers(user_id).len(),
    {
        self.get_followers(user_id).len()
    }

    /// How many users `user_id` currently follows.
    pub fn followee_count(&self, user_id: u64) -> (r: usize)
        requires
            self.wf(),
        ensures
            r == self.spec_followees(user_id).len(),
    {
        self.get_followees(user_id).len()
    }

    /// Whether `follower_id` follows `followee_id` at the queried version:
    /// the given one, or the current version when none is given.  A version
    /// beyond the current one is unknown, never followed.  Pure read.
    pub fn is_following(&self, follower_id: u64, followee_id: u64, version: Option<u64>) -> (r:
        bool)
        requires
            self.wf(),
        ensures
            r == self.spec_is_following(follower_id, followee_id, version),
            self.resolve_version(version) > self.spec_version() ==> r == false,
    {
        let v = match version {
            Some(v) => v,
            None => self.version,
        };
        if v > self.version {
            return false;
        }
        match find_edge(&self.edges, follower_id, followee_id) {
            None => {
                proof {
                    assert(!self.edge_exists(follower_id, followee_id));
                }
                false
            },
            Some(i) => {
                proof {
                    lemma_edge_at_is(*self, follower_id, followee_id, i as int);
                }
                any_active(&self.edges[i].intervals, v)
            },
        }
    }
}

/// A sequence keeps an element when another is pushed, and gains the
/// pushed one.
proof fn lemma_contains_push<T>(s: Seq<T>, x: T, y: T)
    ensures
        s.push(x).contains(y) <==> (s.contains(y) || y == x),
{
    if s.contains(y) {
        let k = choose|k: int| 0 <= k < s.len() && s[k] == y;
        assert(s.push(x)[k] == y);
    }
    assert(s.push(x)[s.len() as int] == x);
    if s.push(x).contains(y) && y != x {
        let k = choose|k: int| 0 <= k < s.push(x).len() && s.push(x)[k] == y;
        assert(s[k] == y);
    }
}

/// Replacing the entry at position `i` of the store, keeping its edge,
/// leaves every other edge's history untouched, and the history of that
/// edge is read from position `i`.
proof fn lemma_histories_updated(a: SocialNetwork, b: SocialNetwork, f: u64, g: u64, i: int)
    requires
        a.edges_unique(),
        a.matching(i, f, g),
        b.edges@.len() == a.edges@.len(),
        forall|j: int| 0 <= j < a.edges@.len() && j != i ==> a.edges@[j] == #[trigger] b.edges@[j],
        b.edges@[i].follower == f,
        b.edges@[i].followee == g,
    ensures
        b.edges_unique(),
        b.edge_exists(f, g),
        b.edge_at(f, g) == i,
        b.edge_intervals(f, g) == b.edges@[i].intervals@,
        forall|x: u64, y: u64|
            !(x == f && y == g) ==> #[trigger] b.edge_intervals(x, y) == a.edge_intervals(x, y),
{
    assert forall|p: int, q: int|
        0 <= p < q < b.edges@.len() implies !((#[trigger] b.edges@[p]).follower == (
    #[trigger] b.edges@[q]).follower && b.edges@[p].followee == b.edges@[q].followee) by {
        assert(b.edges@[p].follower == a.edges@[p].follower && b.edges@[p].followee
            == a.edges@[p].followee);
        assert(b.edges@[q].follower == a.edges@[q].follower && b.edges@[q].followee
            == a.edges@[q].followee);
    }
    lemma_edge_at_is(b, f, g, i);
    assert forall|x: u64, y: u64| !(x == f && y == g) implies #[trigger] b.edge_intervals(x, y)
        == a.edge_intervals(x, y) by {
        assert(forall|j: int| a.matching(j, x, y) <==> b.matching(j, x, y));
        if a.edge_exists(x, y) {
            let j = a.edge_at(x, y);
            assert(a.matching(j, x, y));
            lemma_edge_at_is(a, x, y, j);
            lemma_edge_at_is(b, x, y, j);
            assert(b.edges@[j] == a.edges@[j]);
        } else if b.edge_exists(x, y) {
            assert(a.matching(b.edge_at(x, y), x, y));
            assert(false);
        }
    }
}

/// Appending a history entry for a fresh edge leaves every other edge's
/// history untouched, and the new edge's history is the appended one.
proof fn lemma_histories_pushed(a: SocialNetwork, b: SocialNetwork, f: u64, g: u64)
    requires
        a.edges_unique(),
        !a.edge_exists(f, g),
        b.edges@.len() == a.edges@.len() + 1,
        forall|j: int| 0 <= j < a.edges@.len() ==> a.edges@[j] == #[trigger] b.edges@[j],
        b.edges@.last().follower == f,
        b.edges@.last().followee == g,
    ensures
        b.edges_unique(),
        b.edge_exists(f, g),
        b.edge_at(f, g) == a.edges@.len(),
        b.edge_intervals(f, g) == b.edges@.last().intervals@,
        forall|x: u64, y: u64|
            !(x == f && y == g) ==> #[trigger] b.edge_intervals(x, y) == a.edge_intervals(x, y),
{
    let n = a.edges@.len() as int;
    assert forall|p: int, q: int|
        0 <= p < q < b.edges@.len() implies !((#[trigger] b.edges@[p]).follower == (
    #[trigger] b.edges@[q]).follower && b.edges@[p].followee == b.edges@[q].followee) by {
        if q < n {
            assert(b.edges@[p] == a.edges@[p]);
            assert(b.edges@[q] == a.edges@[q]);
        } else {
            assert(b.edges@[q] == b.edges@.last());
            assert(b.edges@[p] == a.edges@[p]);
            if b.edges@[p].follower == f && b.edges@[p].followee == g {
                assert(a.matching(p, f, g));
            }
        }
    }
    assert(b.matching(n, f, g));
    lemma_edge_at_is(b, f, g, n);
    assert forall|x: u64, y: u64| !(x == f && y == g) implies #[trigger] b.edge_intervals(x, y)
        == a.edge_intervals(x, y) by {
        assert(forall|j: int| 0 <= j < n ==> (a.matching(j, x, y) <==> b.matching(j, x, y)));
        if a.edge_exists(x, y) {
            let j = a.edge_at(x, y);
            assert(a.matching(j, x, y));
            lemma_edge_at_is(a, x, y, j);
            lemma_edge_at_is(b, x, y, j);
            assert(b.edges@[j] == a.edges@[j]);
        } else if b.edge_exists(x, y) {
            let j = b.edge_at(x, y);
            assert(b.matching(j, x, y));
            if j < n {
                assert(a.matching(j, x, y));
                assert(false);
            } else {
                assert(b.edges@[j] == b.edges@.last());
                assert(false);
            }
        }
    }
}

/// What a query at the current version sees, on a well-formed graph:
/// `f` follows `g` "now" exactly when the edge's last interval is open,
/// or was closed within the current uncommitted version window — a closed
/// interval still covers the version it was closed at, until the next
/// commit seals that window.
pub proof fn lemma_now_view(s: SocialNetwork, f: u64, g: u64)
    requires
        s.wf(),
    ensures
        s.spec_is_following(f, g, None) <==> (s.currently_follows(f, g) || s.reopenable(f, g)),
{
    let ivs = s.edge_intervals(f, g);
    let v = s.spec_version();
    if ivs.len() > 0 {
        let i0 = s.edge_at(f, g);
        assert(s.matching(i0, f, g));
        assert(s.edges@[i0].wf(v));
        let n = ivs.len() as int;
        if s.currently_follows(f, g) || s.reopenable(f, g) {
            assert(ivs[n - 1].spec_active_at(v));
        }
        if s.spec_is_following(f, g, None) {
            let i = choose|i: int| 0 <= i < ivs.len() && (#[trigger] ivs[i]).spec_active_at(v);
            if i < n - 1 {
                assert(!ivs[i].is_open());
                assert(ivs[i].follow_end->Some_0 == v);
                assert(ivs[i + 1].follow_start > v);
                assert(ivs[i + 1].wf(v));
                assert(false);
            }
        }
    }
}

/// A well-formed graph never records a self-edge, so a self-query answers
/// false at every version.
pub proof fn lemma_no_self_follow(s: SocialNetwork, u: u64, version: Option<u64>)
    requires
        s.wf(),
    ensures
        !s.spec_is_following(u, u, version),
{
    if s.spec_is_following(u, u, version) {
        let v = s.resolve_version(version);
        let i = choose|i: int|
            0 <= i < s.edge_intervals(u, u).len() && (#[trigger] s.edge_intervals(
                u,
                u,
            )[i]).spec_active_at(v);
        let j = s.edge_at(u, u);
        assert(s.matching(j, u, u));
        assert(s.edges@[j].wf(s.spec_version()));
        assert(false);
    }
}

/// After an edge `(f, g)` that was not open becomes open and the pair is
/// appended to the index, the index again lists exactly the open edges,
/// without duplicates.
proof fn lemma_follow_index(a: SocialNetwork, b: SocialNetwork, f: u64, g: u64)
    requires
        a.wf(),
        b.open_edges@ == a.open_edges@.push((f, g)),
        forall|x: u64, y: u64|
            !(x == f && y == g) ==> #[trigger] b.edge_intervals(x, y) == a.edge_intervals(x, y),
        b.currently_follows(f, g),
        !a.currently_follows(f, g),
    ensures
        forall|k: int, l: int|
            0 <= k < l < b.open_edges@.len() ==> (#[trigger] b.open_edges@[k]) != (
            #[trigger] b.open_edges@[l]),
        forall|k: int|
            0 <= k < b.open_edges@.len() ==> b.currently_follows(
                (#[trigger] b.open_edges@[k]).0,
                b.open_edges@[k].1,
            ),
        forall|x: u64, y: u64|
            #[trigger] b.currently_follows(x, y) ==> b.open_edges@.contains((x, y)),
{
    let n = a.open_edges@.len() as int;
    assert forall|k: int| 0 <= k < n implies a.open_edges@[k] != (f, g) by {
        if a.open_edges@[k] == (f, g) {
            assert(a.currently_follows(a.open_edges@[k].0, a.open_edges@[k].1));
        }
    }
    assert forall|k: int| 0 <= k < b.open_edges@.len() implies b.currently_follows(
        (#[trigger] b.open_edges@[k]).0,
        b.open_edges@[k].1,
    ) by {
        if k < n {
            let p = a.open_edges@[k];
            assert(a.currently_follows(p.0, p.1));
            assert(!(p.0 == f && p.1 == g));
        } else {
            assert(b.open_edges@[k] == (f, g));
        }
    }
    assert forall|x: u64, y: u64| #[trigger] b.currently_follows(x, y) implies b.open_edges@.contains(
        (x, y),
    ) by {
        if x == f && y == g {
            assert(b.open_edges@[n] == (f, g));
        } else {
            assert(a.currently_follows(x, y));
            lemma_contains_push(a.open_edges@, (f, g), (x, y));
        }
    }
}

/// The position of the history of edge `(f, g)` in `edges`, if one has
/// been recorded.
fn find_edge(edges: &Vec<EdgeHistory>, f: u64, g: u64) -> (r: Option<usize>)
    ensures
        match r {
            Some(i) => i < edges@.len() && edges@[i as int].follower == f && edges@[i as int].followee
                == g,
            None => forall|i: int|
                0 <= i < edges@.len() ==> !((#[trigger] edges@[i]).follower == f
                    && edges@[i].followee == g),
        },
{
    let n = edges.len();
    let mut k: usize = 0;
    while k < n
        invariant
            k <= n,
            n == edges@.len(),
            forall|i: int|
                0 <= i < k ==> !((#[trigger] edges@[i]).follower == f && edges@[i].followee == g),
        decreases n - k,
    {
        if edges[k].follower == f && edges[k].followee == g {
            return Some(k);
        }
        k = k + 1;
    }
    None
}

/// Whether the pair `(f, g)` is listed in `pairs`.
fn pair_in(pairs: &Vec<(u64, u64)>, f: u64, g: u64) -> (r: bool)
    ensures
        r == pairs@.contains((f, g)),
{
    let n = pairs.len();
    let mut k: usize = 0;
    while k < n
        invariant
            k <= n,
            n == pairs@.len(),
            forall|i: int| 0 <= i < k ==> #[trigger] pairs@[i] != (f, g),
        decreases n - k,
    {
        if pairs[k].0 == f && pairs[k].1 == g {
            proof {
                assert(pairs@[k as int] == (f, g));
            }
            return true;
        }
        k = k + 1;
    }
    false
}

/// Remove the one occurrence of `(f, g)` from a duplicate-free list of
/// pairs: every other pair stays, and the list stays duplicate-free.
#[verifier::loop_isolation(false)]
fn remove_pair(pairs: &mut Vec<(u64, u64)>, f: u64, g: u64)
    requires
        old(pairs)@.contains((f, g)),
        forall|k: int, l: int|
            0 <= k < l < old(pairs)@.len() ==> (#[trigger] old(pairs)@[k]) != (#[trigger] old(pairs)@[l]),
    ensures
        final(pairs)@.len() == old(pairs)@.len() - 1,
        forall|k: int, l: int|
            0 <= k < l < final(pairs)@.len() ==> (#[trigger] final(pairs)@[k]) != (#[trigger] final(pairs)@[l]),
        !final(pairs)@.contains((f, g)),
        forall|p: (u64, u64)|
            p != (f, g) ==> (final(pairs)@.contains(p) <==> #[trigger] old(pairs)@.contains(p)),
{
    let n = pairs.len();
    let mut k: usize = 0;
    while k < n
        invariant
            k <= n,
            n == pairs@.len(),
            *pairs == *old(pairs),
            forall|i: int| 0 <= i < k ==> #[trigger] pairs@[i] != (f, g),
        decreases n - k,
    {
        if pairs[k].0 == f && pairs[k].1 == g {
            proof {
                assert(pairs@[k as int] == (f, g));
            }
            pairs.remove(k);
            proof {
                let s = old(pairs)@;
                s.remove_ensures(k as int);
                assert forall|a: int, b: int|
                    0 <= a < b < pairs@.len() implies (#[trigger] pairs@[a]) != (#[trigger] pairs@[b]) by {
                    if b < k {
                        assert(pairs@[a] == s[a] && pairs@[b] == s[b]);
                    } else if a < k {
                        assert(pairs@[a] == s[a] && pairs@[b] == s[b + 1]);
                    } else {
                        assert(pairs@[a] == s[a + 1] && pairs@[b] == s[b + 1]);
                    }
                }
                assert forall|p: (u64, u64)| pairs@.contains(p) implies p == (f, g) || s.contains(
                    p,
                ) by {
                    let j = choose|j: int| 0 <= j < pairs@.len() && pairs@[j] == p;
                    if j < k {
                        assert(s[j] == p);
                    } else {
                        assert(s[j + 1] == p);
                    }
                }
                assert(!pairs@.contains((f, g))) by {
                    if pairs@.contains((f, g)) {
                        let j = choose|j: int| 0 <= j < pairs@.len() && pairs@[j] == (f, g);
                        if j < k {
                            assert(s[j] == (f, g) && s[k as int] == (f, g));
                        } else {
                            assert(s[j + 1] == (f, g) && s[k as int] == (f, g));
                        }
                    }
                }
                assert forall|p: (u64, u64)| p != (f, g) && s.contains(p) implies pairs@.contains(
                    p,
                ) by {
                    let j = choose|j: int| 0 <= j < s.len() && s[j] == p;
                    if j < k {
                        assert(pairs@[j] == p);
                    } else {
                        assert(j != k);
                        assert(pairs@[j - 1] == p);
                    }
                }
            }
            return;
        }
        k = k + 1;
    }
    proof {
        let j = choose|j: int| 0 <= j < pairs@.len() && pairs@[j] == (f, g);
        assert(false);
    }
}

/// After the one open edge `(f, g)` is closed and its pair removed from
/// the index, the index again lists exactly the open edges.
#[verifier::rlimit(100)]
proof fn lemma_unfollow_index(a: SocialNetwork, b: SocialNetwork, f: u64, g: u64)
    requires
        a.wf(),
        a.currently_follows(f, g),
        !b.currently_follows(f, g),
        forall|x: u64, y: u64|
            !(x == f && y == g) ==> #[trigger] b.edge_intervals(x, y) == a.edge_intervals(x, y),
        forall|k: int, l: int|
            0 <= k < l < b.open_edges@.len() ==> (#[trigger] b.open_edges@[k]) != (#[trigger] b.open_edges@[l]),
        !b.open_edges@.contains((f, g)),
        forall|p: (u64, u64)|
            p != (f, g) ==> (b.open_edges@.contains(p) <==> #[trigger] a.open_edges@.contains(p)),
    ensures
        forall|k: int|
            0 <= k < b.open_edges@.len() ==> b.currently_follows(
                (#[trigger] b.open_edges@[k]).0,
                b.open_edges@[k].1,
            ),
        forall|x: u64, y: u64|
            #[trigger] b.currently_follows(x, y) ==> b.open_edges@.contains((x, y)),
{
    assert forall|k: int| 0 <= k < b.open_edges@.len() implies b.currently_follows(
        (#[trigger] b.open_edges@[k]).0,
        b.open_edges@[k].1,
    ) by {
        let p = b.open_edges@[k];
        assert(b.open_edges@.contains(p));
        assert(p != (f, g));
        assert(a.open_edges@.contains(p));
        let j = choose|j: int| 0 <= j < a.open_edges@.len() && a.open_edges@[j] == p;
        assert(a.currently_follows(a.open_edges@[j].0, a.open_edges@[j].1));
    }
    assert forall|x: u64, y: u64| #[trigger] b.currently_follows(x, y) implies b.open_edges@.contains(
        (x, y),
    ) by {
        assert(!(x == f && y == g));
        assert(a.currently_follows(x, y));
        assert(a.open_edges@.contains((x, y)));
    }
}

/// Whether any interval in `intervals` covers version `v`.
fn any_active(intervals: &Vec<FollowInterval>, v: u64) -> (r: bool)
    ensures
        r == exists|i: int|
            0 <= i < intervals@.len() && (#[trigger] intervals@[i]).spec_active_at(v),
{
    let n = intervals.len();
    let mut k: usize = 0;
    while k < n
        invariant
            k <= n,
            n == intervals@.len(),
            forall|i: int| 0 <= i < k ==> !(#[trigger] intervals@[i]).spec_active_at(v),
        decreases n - k,
    {
        if intervals[k].is_active(v) {
            return true;
        }
        k = k + 1;
    }
    false
}

/// On a store without duplicate edges, any position holding `(f, g)` is
/// the position the history of `(f, g)` is read from.
proof fn lemma_edge_at_is(a: SocialNetwork, f: u64, g: u64, i: int)
    requires
        a.edges_unique(),
        a.matching(i, f, g),
    ensures
        a.edge_exists(f, g),
        a.edge_at(f, g) == i,
        a.edge_intervals(f, g) == a.edges@[i].intervals@,
{
    assert(a.edge_exists(f, g));
    let j = a.edge_at(f, g);
    assert(a.matching(j, f, g));
    if i < j {
        assert(false);
    } else if j < i {
        assert(false);
    }
}

/// Two graph states with the same history store record the same intervals
/// for every edge.
proof fn lemma_histories_shared(a: SocialNetwork, b: SocialNetwork)
    requires
        a.edges@ == b.edges@,
        a.edges_unique(),
    ensures
        forall|f: u64, g: u64| #[trigger] b.edge_intervals(f, g) == a.edge_intervals(f, g),
        forall|f: u64, g: u64| #[trigger]
            b.currently_follows(f, g) == a.currently_follows(f, g),
{
    assert forall|f: u64, g: u64| #[trigger] b.edge_intervals(f, g) == a.edge_intervals(f, g) by {
        assert(forall|i: int| a.matching(i, f, g) <==> b.matching(i, f, g));
        if a.edge_exists(f, g) {
            let i = a.edge_at(f, g);
            assert(a.matching(i, f, g));
            lemma_edge_at_is(a, f, g, i);
            lemma_edge_at_is(b, f, g, i);
        } else if b.edge_exists(f, g) {
            assert(a.matching(b.edge_at(f, g), f, g));
            assert(false);
        }
    }
}

} // verus!

