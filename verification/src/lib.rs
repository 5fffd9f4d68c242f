//! A versioned directed-edge store for "follows" relationships.
//!
//! Every follow and unfollow is recorded as an interval of versions, so
//! queries can be answered either at the current version or as of any
//! earlier one.  A monotonic version counter, advanced only by an explicit
//! commit, seals each window of mutations.  Derived adjacency data answers
//! "who follows whom right now" and is proved to agree exactly with the
//! authoritative interval history.

pub mod gate;
pub mod interval;
pub mod network;
