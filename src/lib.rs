//! A Raft consensus core: role state machine, election, log replication with
//! conflict resolution, commit advancement, in-order application and snapshot
//! installation, each step stated as a contract and proved.

mod apply;
mod config;
mod election;
mod error;
mod follower;
mod leader;
mod log;
mod node;
mod rpc;
mod state;
mod types;

pub use config::{RaftConfig, RaftConfigBuilder};
pub use error::RaftError;
pub use log::{LogStorage, LogView, MemoryLogStorage};
pub use node::{RaftCore, StateMachine};
pub use rpc::{
    AppendEntriesRequest, AppendEntriesResponse, InstallSnapshotRequest, InstallSnapshotResponse,
    ReplicationRequest, RequestVoteRequest, RequestVoteResponse,
};
pub use state::{CandidateState, LeaderState, NodeState, PersistentState, RaftRole, VolatileState};
pub use types::{Entry, EntryView, LogIndex, NodeId, Snapshot, SnapshotMetadata, SnapshotView, Term};
