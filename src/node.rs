//! The consensus core of one node: every input (a timer tick, an RPC, a
//! reply, a proposal) is one call that updates the node and says what to send.
//! The caller owns transport, timers and storage flushing, and performs what
//! the call returns in order.

use crate::config::RaftConfig;
use crate::log::{LogStorage, LogView, MemoryLogStorage};
use crate::rpc::RequestVoteRequest;
use crate::state::{NodeState, PersistentState, RaftRole};
use crate::types::{LogIndex, NodeId};
use vstd::prelude::*;

verus! {

/// The application's deterministic state machine, fed committed commands in
/// log order.
pub trait StateMachine {
    /// Applies a committed command and returns its result.
    fn apply(&mut self, command: &[u8]) -> Vec<u8>;

    /// The state as bytes.
    fn snapshot(&self) -> Vec<u8>;

    /// Replaces the state with one taken by `snapshot`.
    fn restore(&mut self, snapshot: &[u8]);
}

/// One node's consensus state: its role and terms, its log, its settings
/// and its election timer.
pub struct RaftCore {
    pub state: NodeState,
    pub log: MemoryLogStorage,
    pub config: RaftConfig,
    /// Milliseconds since the election timer was last reset.
    pub election_elapsed: u64,
    /// The election timeout now in force, in milliseconds.
    pub election_timeout: u64,
    /// Snapshot bytes received so far from the leader.
    pub incoming_snapshot: Vec<u8>,
}

impl RaftCore {
    /// The current term.
    pub open spec fn term(&self) -> nat {
        self.state.persistent.current_term.0 as nat
    }

    /// The commit index.
    pub open spec fn commit(&self) -> nat {
        self.state.volatile.commit_index.0 as nat
    }

    /// The index of the last entry applied.
    pub open spec fn applied(&self) -> nat {
        self.state.volatile.last_applied.0 as nat
    }

    /// The node's invariant: the role agrees with its state, the settings
    /// are usable, the log is well formed with room for one more entry, and
    /// `snapshot index <= last_applied <= commit_index <= last index`.
    pub open spec fn wf(&self) -> bool {
        &&& self.state.wf()
        &&& self.config.valid()
        &&& self.log@.well_formed()
        &&& self.log@.last_index() < u64::MAX
        &&& self.log@.snap_index() <= self.applied()
        &&& self.applied() <= self.commit()
        &&& self.commit() <= self.log@.last_index()
        &&& self.config.election_timeout_min <= self.election_timeout
            < self.config.election_timeout_max
    }

    /// What every step keeps: the term and the commit index never go back,
    /// the node's identity and cluster stay, a vote once cast in a term
    /// stays for that term, and a leader stays leader through its term with
    /// a log that only grows.
    pub open spec fn steps_to(&self, next: &RaftCore) -> bool {
        &&& next.wf()
        &&& self.term() <= next.term()
        &&& self.commit() <= next.commit()
        &&& self.applied() <= next.applied()
        &&& next.state.id == self.state.id
        &&& next.state.peers == self.state.peers
        &&& (self.term() == next.term() && self.state.persistent.voted_for is Some
            ==> next.state.persistent.voted_for == self.state.persistent.voted_for)
        &&& (self.state.role == RaftRole::Leader && self.term() == next.term() ==> next.state.role
            == RaftRole::Leader && extends(self.log@, next.log@))
    }

    /// A follower at term 0 with an empty log.
    pub fn new(id: NodeId, peers: Vec<NodeId>, config: RaftConfig, random: u64) -> (r: RaftCore)
        requires
            config.valid(),
        ensures
            r.wf(),
            r.state.role == RaftRole::Follower,
            r.state.id == id,
            r.state.peers@ == peers@,
            r.term() == 0,
            r.state.persistent.voted_for is None,
            r.commit() == 0,
            r.applied() == 0,
            r.log@.snapshot is None,
            r.log@.entries.len() == 0,
            r.config == config,
            r.election_elapsed == 0,
            r.election_timeout == config.election_timeout_from_spec(random),
    {
        let timeout = config.election_timeout_from(random);
        let log = MemoryLogStorage::new();
        log.check_well_formed();
        RaftCore {
            state: NodeState::new(id, peers),
            log,
            config,
            election_elapsed: 0,
            election_timeout: timeout,
            incoming_snapshot: Vec::new(),
        }
    }

    /// Restarts from what stable storage kept: the term and vote, and the
    /// log with its snapshot. The node starts as a follower that has
    /// applied everything the snapshot covers, and nothing more.
    pub fn recover(
        id: NodeId,
        peers: Vec<NodeId>,
        config: RaftConfig,
        persistent: PersistentState,
        log: MemoryLogStorage,
        random: u64,
    ) -> (r: RaftCore)
        requires
            config.valid(),
            log@.last_index() < u64::MAX,
        ensures
            r.wf(),
            r.state.role == RaftRole::Follower,
            r.state.id == id,
            r.state.peers@ == peers@,
            r.state.persistent == persistent,
            r.log@ == log@,
            r.commit() == log@.snap_index(),
            r.applied() == log@.snap_index(),
            r.config == config,
    {
        let timeout = config.election_timeout_from(random);
        log.check_well_formed();
        let snap = match log.get_snapshot() {
            Some(s) => s.metadata.last_included_index,
            None => LogIndex(0),
        };
        let mut state = NodeState::new(id, peers);
        state.persistent = persistent;
        state.volatile.commit_index = snap;
        state.volatile.last_applied = snap;
        RaftCore {
            state,
            log,
            config,
            election_elapsed: 0,
            election_timeout: timeout,
            incoming_snapshot: Vec::new(),
        }
    }

    /// Restarts the election timer with a timeout picked by `random`.
    pub(crate) fn reset_election_timer(&mut self, random: u64)
        requires
            old(self).wf(),
        ensures
            final(self).wf(),
            final(self).election_elapsed == 0,
            final(self).election_timeout == old(self).config.election_timeout_from_spec(random),
            final(self).state == old(self).state,
            final(self).log == old(self).log,
            final(self).config == old(self).config,
            final(self).incoming_snapshot == old(self).incoming_snapshot,
    {
        self.election_elapsed = 0;
        self.election_timeout = self.config.election_timeout_from(random);
    }

    /// Whether the election timeout has run out on a node that does not lead.
    pub fn election_due(&self) -> (r: bool)
        ensures
            r == (self.state.role != RaftRole::Leader && self.election_elapsed
                >= self.election_timeout),
    {
        self.state.role != RaftRole::Leader && self.election_elapsed >= self.election_timeout
    }

    /// Advances the election timer by `elapsed_ms`; where the timeout runs
    /// out on a node that does not lead, starts an election and returns
    /// its requests.
    pub fn tick(&mut self, elapsed_ms: u64, random: u64) -> (r: Vec<(NodeId, RequestVoteRequest)>)
        requires
            old(self).wf(),
        ensures
            old(self).steps_to(final(self)),
            final(self).log@ == old(self).log@,
            ({
                let elapsed = if elapsed_ms <= u64::MAX - old(self).election_elapsed {
                    old(self).election_elapsed + elapsed_ms
                } else {
                    u64::MAX as int
                };
                let due = old(self).state.role != RaftRole::Leader && elapsed
                    >= old(self).election_timeout;
                &&& !due ==> final(self).state == old(self).state && final(self).election_elapsed
                    == elapsed && r@.len() == 0
                &&& due && old(self).term() < u64::MAX ==> final(self).term() == old(self).term()
                    + 1 && final(self).state.persistent.voted_for == Some(old(self).state.id)
                    && final(self).election_elapsed == 0 && r@.len() == old(self).state.others().len()
                &&& due && old(self).term() == u64::MAX ==> final(self).state == old(self).state
                    && r@.len() == 0
            }),
    {
        self.election_elapsed = if elapsed_ms <= u64::MAX - self.election_elapsed {
            self.election_elapsed + elapsed_ms
        } else {
            u64::MAX
        };
        if self.election_due() {
            self.start_election(random)
        } else {
            Vec::new()
        }
    }

}

/// Any run of steps keeps what each step keeps: a node's term and commit
/// index never decrease, a vote cast in a term stays for that term, and a
/// leader's log only grows while its term lasts.
pub proof fn lemma_steps_compose(a: &RaftCore, b: &RaftCore, c: &RaftCore)
    requires
        a.steps_to(b),
        b.steps_to(c),
    ensures
        a.steps_to(c),
{
    if a.state.role == RaftRole::Leader && a.term() == c.term() {
        assert(extends(a.log@, b.log@) && extends(b.log@, c.log@));
        assert forall|i: nat| #![trigger c.log@.entry_at(i)]
            a.log@.holds(i) && c.log@.holds(i) implies c.log@.entry_at(i) == a.log@.entry_at(i) by {
            assert(b.log@.holds(i));
            assert(c.log@.entry_at(i) == b.log@.entry_at(i));
        }
    }
}

/// Whether `next` keeps every entry of `log` that it still holds, reaches at
/// least as far, and covers at least as much by its snapshot: nothing was
/// overwritten or removed.
pub open spec fn extends(log: LogView, next: LogView) -> bool {
    &&& log.last_index() <= next.last_index()
    &&& log.snap_index() <= next.snap_index()
    &&& forall|i: nat| #![trigger next.entry_at(i)]
        log.holds(i) && next.holds(i) ==> next.entry_at(i) == log.entry_at(i)
}

} // verus!
