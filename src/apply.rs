//! Applying committed entries, taking snapshots, and installing a leader's
//! snapshot.

use crate::leader::value_of_key;
use crate::log::{entry_views, keeps_suffix, LogStorage};
use crate::node::{RaftCore, StateMachine};
use crate::rpc::{InstallSnapshotRequest, InstallSnapshotResponse};
use crate::state::{has_key, lookup, RaftRole};
use crate::types::{Entry, EntryView, LogIndex, NodeId, Snapshot, SnapshotMetadata, Term};
use vstd::prelude::*;

verus! {

impl RaftCore {
    /// Hands out the committed entries not applied yet, in log order, and
    /// counts them as applied.
    pub fn take_committed(&mut self) -> (r: Vec<Entry>)
        requires
            old(self).wf(),
        ensures
            old(self).steps_to(final(self)),
            final(self).applied() == old(self).commit(),
            final(self).commit() == old(self).commit(),
            final(self).log@ == old(self).log@,
            final(self).term() == old(self).term(),
            final(self).state.role == old(self).state.role,
            entry_views(r@) == old(self).log@.entries.subrange(
                old(self).applied() - old(self).log@.snap_index(),
                old(self).commit() - old(self).log@.snap_index(),
            ),
    {
        let applied = self.state.volatile.last_applied;
        let commit = self.state.volatile.commit_index;
        let r = match self.log.get_range(LogIndex(applied.0 + 1), LogIndex(commit.0 + 1)) {
            Ok(v) => v,
            Err(_) => Vec::new(),
        };
        self.state.volatile.last_applied = commit;
        r
    }

    /// Applies the committed entries not applied yet to `sm`, in log order,
    /// each exactly once, and returns the results in that order.
    pub fn apply_committed<SM: StateMachine>(&mut self, sm: &mut SM) -> (r: Vec<Vec<u8>>)
        requires
            old(self).wf(),
        ensures
            old(self).steps_to(final(self)),
            final(self).applied() == old(self).commit(),
            final(self).commit() == old(self).commit(),
            final(self).log@ == old(self).log@,
            final(self).term() == old(self).term(),
            r@.len() == old(self).commit() - old(self).applied(),
    {
        let entries = self.take_committed();
        let mut results: Vec<Vec<u8>> = Vec::new();
        let mut k: usize = 0;
        while k < entries.len()
            invariant
                k <= entries@.len(),
                results@.len() == k,
            decreases entries@.len() - k,
        {
            let out = sm.apply(entries[k].command.as_slice());
            results.push(out);
            k = k + 1;
        }
        proof {
            assert(entry_views(entries@).len() == entries@.len());
        }
        results
    }

    /// Whether enough entries have been applied past the snapshot to take a
    /// new one.
    pub open spec fn snapshot_due(&self) -> bool {
        &&& self.config.snapshot_threshold > 0
        &&& self.applied() >= self.log@.snap_index() + 1 + self.config.snapshot_threshold
    }

    /// Where a snapshot is due, takes one of `sm` at the last applied entry,
    /// installs it, and releases the entries it covers but the last
    /// `snapshot_trailing_logs`. Returns whether it took one.
    pub fn take_snapshot<SM: StateMachine>(&mut self, sm: &SM) -> (r: bool)
        requires
            old(self).wf(),
        ensures
            old(self).steps_to(final(self)),
            r == old(self).snapshot_due(),
            !r ==> *final(self) == *old(self),
            r ==> {
                &&& final(self).log@.snap_index() == old(self).applied()
                &&& old(self).log@.term_of(old(self).applied()) == Some(final(self).log@.snap_term())
                &&& final(self).log@.snapshot->Some_0.configuration == old(self).state.peers@
                &&& final(self).log@.entries == old(self).log@.entries.skip(
                    old(self).applied() - old(self).log@.snap_index(),
                )
            },
            final(self).state == old(self).state,
            final(self).term() == old(self).term(),
    {
        let threshold = self.config.snapshot_threshold;
        let applied = self.state.volatile.last_applied;
        let snap_index = match self.log.get_snapshot() {
            Some(s) => s.metadata.last_included_index.0,
            None => 0,
        };
        if threshold == 0 || applied.0 <= snap_index || applied.0 - snap_index - 1 < threshold {
            return false;
        }
        let term = match self.log.get_term(applied) {
            Ok(Some(t)) => t,
            _ => Term(0),
        };
        let data = sm.snapshot();
        let configuration = self.state.peers.clone();
        proof {
            assert(configuration@ =~= self.state.peers@);
        }
        let snapshot = Snapshot {
            metadata: SnapshotMetadata { last_included_index: applied, last_included_term: term, configuration },
            data,
        };
        let ghost pre = self.log@;
        let _ = self.log.set_snapshot(snapshot);
        proof {
            assert(keeps_suffix(pre, snapshot@));
        }
        proof {
            let post = self.log@;
            assert forall|i: nat| #![trigger post.entry_at(i)]
                pre.holds(i) && post.holds(i) implies post.entry_at(i) == pre.entry_at(i) by {
                assert(post.entries[i - post.snap_index() - 1] == pre.entries[i - pre.snap_index() - 1]);
            }
        }
        let trailing = self.config.snapshot_trailing_logs;
        if applied.0 > trailing {
            let _ = self.log.compact(LogIndex(applied.0 - trailing));
        }
        true
    }

    /// Whether a node in state `core` installs the snapshot that `req`
    /// completes.
    pub open spec fn installs(&self, req: &InstallSnapshotRequest) -> bool {
        &&& req.term.0 >= self.term()
        &&& !(self.state.role == RaftRole::Leader && req.term.0 == self.term())
        &&& (req.offset == 0 || req.offset == self.incoming_snapshot@.len())
        &&& req.done
        &&& req.last_included_index.0 > self.commit()
        &&& req.last_included_index.0 < u64::MAX
    }

    /// Takes a chunk of the leader's snapshot. A request from an older term
    /// is refused with no change, and so is one of the node's own term while
    /// it leads; otherwise the node follows the sender as in AppendEntries.
    /// Chunks are taken in order of offset; one out of order is dropped. On
    /// the last chunk, a snapshot past the commit index restores `sm`,
    /// becomes the log's snapshot, and sets the commit index and the last
    /// applied index to its last index.
    pub fn handle_install_snapshot<SM: StateMachine>(
        &mut self,
        req: &InstallSnapshotRequest,
        sm: &mut SM,
        random: u64,
    ) -> (r: InstallSnapshotResponse)
        requires
            old(self).wf(),
        ensures
            old(self).steps_to(final(self)),
            r.term.0 == final(self).term(),
            final(self).term() == if req.term.0 > old(self).term() {
                req.term.0 as nat
            } else {
                old(self).term()
            },
            req.term.0 < old(self).term() ==> *final(self) == *old(self),
            req.term.0 >= old(self).term() && !(old(self).state.role == RaftRole::Leader
                && req.term.0 == old(self).term()) && !req.done ==> final(self).incoming_snapshot@
                == if req.offset == 0 {
                req.data@
            } else if req.offset == old(self).incoming_snapshot@.len() {
                old(self).incoming_snapshot@ + req.data@
            } else {
                old(self).incoming_snapshot@
            },
            !old(self).installs(req) ==> final(self).log@ == old(self).log@ && final(self).commit()
                == old(self).commit() && final(self).applied() == old(self).applied(),
            old(self).installs(req) ==> {
                let data = if req.offset == 0 {
                    req.data@
                } else {
                    old(self).incoming_snapshot@ + req.data@
                };
                let s = final(self).log@.snapshot->Some_0;
                &&& final(self).commit() == req.last_included_index.0
                &&& final(self).applied() == req.last_included_index.0
                &&& final(self).log@.snapshot is Some
                &&& s.index == req.last_included_index.0
                &&& s.term == req.last_included_term.0
                &&& s.data == data
                &&& final(self).log@.entries == if keeps_suffix(old(self).log@, s) {
                    old(self).log@.entries.skip(s.index - old(self).log@.snap_index())
                } else {
                    Seq::<EntryView>::empty()
                }
            },
    {
        let term = self.state.persistent.current_term;
        if req.term.0 < term.0 || (self.state.role == RaftRole::Leader && req.term.0 == term.0) {
            return InstallSnapshotResponse { term };
        }
        if req.term.0 > term.0 || self.state.role == RaftRole::Candidate {
            self.state.become_follower(req.term, Some(req.leader_id));
        }
        self.state.leader_id = Some(req.leader_id);
        self.reset_election_timer(random);
        let term = self.state.persistent.current_term;
        if req.offset == 0 {
            let data = req.data.clone();
            proof {
                assert(data@ =~= req.data@);
            }
            self.incoming_snapshot = data;
        } else if req.offset == self.incoming_snapshot.len() as u64 {
            let mut more = req.data.clone();
            proof {
                assert(more@ =~= req.data@);
            }
            self.incoming_snapshot.append(&mut more);
        } else {
            return InstallSnapshotResponse { term };
        }
        if !req.done {
            return InstallSnapshotResponse { term };
        }
        let index = req.last_included_index;
        if index.0 <= self.state.volatile.commit_index.0 || index.0 == u64::MAX {
            self.incoming_snapshot = Vec::new();
            return InstallSnapshotResponse { term };
        }
        let mut data: Vec<u8> = Vec::new();
        core::mem::swap(&mut data, &mut self.incoming_snapshot);
        sm.restore(data.as_slice());
        let configuration = self.state.peers.clone();
        let snapshot = Snapshot {
            metadata: SnapshotMetadata {
                last_included_index: index,
                last_included_term: req.last_included_term,
                configuration,
            },
            data,
        };
        let _ = self.log.set_snapshot(snapshot);
        self.state.volatile.commit_index = index;
        self.state.volatile.last_applied = index;
        InstallSnapshotResponse { term }
    }

    /// Takes a peer's answer to an InstallSnapshot whose snapshot ended at
    /// `last_included_index`. A newer term makes the node a follower. On a
    /// leader in the same term the peer's match index rises to that index
    /// (never falling) where the log reaches it, its next index follows, and
    /// the commit index advances.
    pub fn handle_install_snapshot_response(
        &mut self,
        peer: NodeId,
        last_included_index: LogIndex,
        resp: &InstallSnapshotResponse,
    )
        requires
            old(self).wf(),
        ensures
            old(self).steps_to(final(self)),
            final(self).log@ == old(self).log@,
            resp.term.0 > old(self).term() ==> final(self).term() == resp.term.0
                && final(self).state.role == RaftRole::Follower,
            resp.term.0 <= old(self).term() ==> final(self).term() == old(self).term(),
            old(self).state.role == RaftRole::Leader && resp.term.0 == old(self).term()
                && last_included_index.0 <= old(self).log@.last_index() ==> {
                let ls0 = old(self).state.leader_state->Some_0;
                let ls1 = final(self).state.leader_state->Some_0;
                has_key(ls0.match_index@, peer) && has_key(ls0.next_index@, peer) ==> {
                    let m0 = value_of_key(ls0.match_index@, peer);
                    let m = if m0.0 >= last_included_index.0 {
                        m0.0 as nat
                    } else {
                        last_included_index.0 as nat
                    };
                    m0.0 < u64::MAX ==> lookup(ls1.match_index@, peer) == Some(LogIndex(m as u64))
                        && lookup(ls1.next_index@, peer) == Some(LogIndex((m + 1) as u64))
                }
            },
    {
        if resp.term.0 > self.state.persistent.current_term.0 {
            self.state.become_follower(resp.term, None);
            return;
        }
        if resp.term.0 < self.state.persistent.current_term.0 {
            return;
        }
        let last = self.log.last_index().0;
        let mut ls = match self.state.leader_state.take() {
            Some(ls) => ls,
            None => {
                return;
            },
        };
        if last_included_index.0 <= last {
            match (ls.get_match_index(peer), ls.get_next_index(peer)) {
                (Some(m0), Some(_)) => {
                    let m = if m0.0 >= last_included_index.0 {
                        m0.0
                    } else {
                        last_included_index.0
                    };
                    if m < u64::MAX {
                        ls.set_match_index(peer, LogIndex(m));
                        ls.set_next_index(peer, LogIndex(m + 1));
                    }
                },
                _ => {},
            }
        }
        self.state.leader_state = Some(ls);
        self.advance_commit();
    }
}

} // verus!
