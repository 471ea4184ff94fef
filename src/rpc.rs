//! The messages of the three Raft RPCs.

use crate::types::{Entry, LogIndex, NodeId, Term};
use vstd::prelude::*;

verus! {

/// Sent by a candidate to gather votes.
#[derive(Debug, Clone)]
pub struct RequestVoteRequest {
    /// The candidate's term.
    pub term: Term,
    pub candidate_id: NodeId,
    /// Index of the candidate's last log entry.
    pub last_log_index: LogIndex,
    /// Term of the candidate's last log entry.
    pub last_log_term: Term,
}

#[derive(Debug, Clone)]
pub struct RequestVoteResponse {
    /// The voter's current term.
    pub term: Term,
    pub vote_granted: bool,
}

/// Sent by a leader to replicate entries; with no entries, a heartbeat.
#[derive(Debug, Clone)]
pub struct AppendEntriesRequest {
    pub term: Term,
    pub leader_id: NodeId,
    /// Index of the entry just before the new ones.
    pub prev_log_index: LogIndex,
    /// Term of that entry.
    pub prev_log_term: Term,
    pub entries: Vec<Entry>,
    pub leader_commit: LogIndex,
}

impl AppendEntriesRequest {
    /// A request that carries no entries.
    pub fn heartbeat(
        term: Term,
        leader_id: NodeId,
        prev_log_index: LogIndex,
        prev_log_term: Term,
        leader_commit: LogIndex,
    ) -> (r: AppendEntriesRequest)
        ensures
            r.term == term,
            r.leader_id == leader_id,
            r.prev_log_index == prev_log_index,
            r.prev_log_term == prev_log_term,
            r.entries@.len() == 0,
            r.leader_commit == leader_commit,
    {
        AppendEntriesRequest {
            term,
            leader_id,
            prev_log_index,
            prev_log_term,
            entries: Vec::new(),
            leader_commit,
        }
    }

    pub fn is_heartbeat(&self) -> (r: bool)
        ensures
            r == (self.entries@.len() == 0),
    {
        self.entries.len() == 0
    }
}

#[derive(Debug, Clone)]
pub struct AppendEntriesResponse {
    /// The follower's current term.
    pub term: Term,
    /// Whether the follower held the entry at `prev_log_index` with
    /// `prev_log_term`, and took the entries.
    pub success: bool,
    /// The follower's last index, as a hint for the next attempt.
    pub match_index: Option<LogIndex>,
    /// The follower's commit index.
    pub commit_index: LogIndex,
}

/// Sent by a leader whose log no longer holds what a follower needs.
#[derive(Debug, Clone)]
pub struct InstallSnapshotRequest {
    pub term: Term,
    pub leader_id: NodeId,
    /// The snapshot replaces every entry through this index.
    pub last_included_index: LogIndex,
    pub last_included_term: Term,
    /// Where this chunk starts in the snapshot's bytes.
    pub offset: u64,
    pub data: Vec<u8>,
    /// Whether this is the last chunk.
    pub done: bool,
}

#[derive(Debug, Clone)]
pub struct InstallSnapshotResponse {
    pub term: Term,
}

/// What a leader sends a peer next.
#[derive(Debug, Clone)]
pub enum ReplicationRequest {
    /// Entries after an index both logs are expected to hold.
    Append(AppendEntriesRequest),
    /// The leader's snapshot, when the peer needs entries it has released.
    Snapshot(InstallSnapshotRequest),
}

} // verus!
