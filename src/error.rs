//! Errors surfaced to callers.

use crate::types::{LogIndex, NodeId};
use vstd::prelude::*;

verus! {

/// Errors that Raft operations can return.
#[derive(Debug, Clone)]
pub enum RaftError {
    /// The node is not the leader; carries the leader it knows of, if any.
    NotLeader(Option<NodeId>),
    /// The node is shutting down.
    ShuttingDown,
    /// A log index outside what the log holds.
    LogIndexOutOfRange(LogIndex),
    /// Stable storage failed; carries its message.
    Storage(String),
    /// A message could not be delivered; carries the reason.
    Rpc(String),
    /// An internal failure; carries its message.
    Internal(String),
    /// A request would remove the committed entry at this index: a safety
    /// invariant is broken and the node must stop.
    InvariantViolation(LogIndex),
}

} // verus!
