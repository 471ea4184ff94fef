//! Leader election: starting an election, answering RequestVote, and
//! counting the votes.

use crate::log::LogStorage;
use crate::node::RaftCore;
use crate::rpc::{RequestVoteRequest, RequestVoteResponse};
use crate::state::{lemma_majorities_intersect, RaftRole};
use crate::types::NodeId;
use vstd::prelude::*;

verus! {

impl RaftCore {
    /// Becomes a candidate in the next term, votes for itself, and returns a
    /// RequestVote for each other peer. A node alone in its cluster becomes
    /// leader at once. At the largest term no election can start.
    pub fn start_election(&mut self, random: u64) -> (r: Vec<(NodeId, RequestVoteRequest)>)
        requires
            old(self).wf(),
        ensures
            old(self).steps_to(final(self)),
            final(self).log@ == old(self).log@,
            old(self).term() < u64::MAX ==> {
                &&& final(self).term() == old(self).term() + 1
                &&& final(self).state.persistent.voted_for == Some(old(self).state.id)
                &&& final(self).election_elapsed == 0
                &&& final(self).state.role == if is_majority(0, old(self).state.peers@.len()) {
                    RaftRole::Leader
                } else {
                    RaftRole::Candidate
                }
                &&& r@.len() == old(self).state.others().len()
                &&& forall|k: int|
                    0 <= k < r@.len() ==> {
                        &&& (#[trigger] r@[k]).0 == old(self).state.others()[k]
                        &&& r@[k].1.term.0 == final(self).term()
                        &&& r@[k].1.candidate_id == old(self).state.id
                        &&& r@[k].1.last_log_index.0 == old(self).log@.last_index()
                        &&& r@[k].1.last_log_term.0 == old(self).log@.last_term()
                    }
            },
            old(self).term() == u64::MAX ==> *final(self) == *old(self) && r@.len() == 0,
    {
        if self.state.persistent.current_term.0 == u64::MAX {
            return Vec::new();
        }
        self.state.become_candidate();
        self.reset_election_timer(random);
        let last_index = self.log.last_index();
        let last_term = self.log.last_term();
        let others = self.state.other_peers();
        let mut requests: Vec<(NodeId, RequestVoteRequest)> = Vec::new();
        let mut k: usize = 0;
        while k < others.len()
            invariant
                k <= others@.len(),
                requests@.len() == k,
                forall|j: int|
                    0 <= j < k ==> {
                        &&& (#[trigger] requests@[j]).0 == others@[j]
                        &&& requests@[j].1.term == self.state.persistent.current_term
                        &&& requests@[j].1.candidate_id == self.state.id
                        &&& requests@[j].1.last_log_index == last_index
                        &&& requests@[j].1.last_log_term == last_term
                    },
            decreases others@.len() - k,
        {
            requests.push(
                (
                    others[k],
                    RequestVoteRequest {
                        term: self.state.persistent.current_term,
                        candidate_id: self.state.id,
                        last_log_index: last_index,
                        last_log_term: last_term,
                    },
                ),
            );
            k = k + 1;
        }
        if self.state.peers.len() / 2 < 1 {
            let last = self.log.last_index();
            self.state.become_leader(last);
        }
        requests
    }

    /// Answers a RequestVote. A request from an older term is refused with
    /// no change. A newer term makes the node a follower in that term
    /// first. The vote is granted when the node has not voted for another
    /// candidate in the term and the candidate's log is at least as up to
    /// date as its own; granting records the vote and restarts the election
    /// timer.
    pub fn handle_request_vote(&mut self, req: &RequestVoteRequest, random: u64) -> (r:
        RequestVoteResponse)
        requires
            old(self).wf(),
        ensures
            old(self).steps_to(final(self)),
            final(self).log@ == old(self).log@,
            final(self).commit() == old(self).commit(),
            final(self).term() == if req.term.0 > old(self).term() {
                req.term.0 as nat
            } else {
                old(self).term()
            },
            r.term.0 == final(self).term(),
            r.vote_granted == grants_vote(old(self), req),
            r.vote_granted ==> final(self).state.persistent.voted_for == Some(req.candidate_id),
            !r.vote_granted ==> final(self).state.persistent.voted_for == if req.term.0
                > old(self).term() {
                None
            } else {
                old(self).state.persistent.voted_for
            },
            req.term.0 < old(self).term() ==> *final(self) == *old(self),
            req.term.0 > old(self).term() ==> final(self).state.role == RaftRole::Follower,
    {
        if req.term.0 < self.state.persistent.current_term.0 {
            return RequestVoteResponse { term: self.state.persistent.current_term, vote_granted: false };
        }
        if req.term.0 > self.state.persistent.current_term.0 {
            self.state.become_follower(req.term, None);
        }
        let free = match self.state.persistent.voted_for {
            None => true,
            Some(v) => v == req.candidate_id,
        };
        let our_term = self.log.last_term();
        let our_index = self.log.last_index();
        let log_ok = req.last_log_term.0 > our_term.0 || (req.last_log_term.0 == our_term.0
            && req.last_log_index.0 >= our_index.0);
        let granted = free && log_ok;
        if granted {
            self.state.persistent.voted_for = Some(req.candidate_id);
            self.reset_election_timer(random);
        }
        RequestVoteResponse { term: self.state.persistent.current_term, vote_granted: granted }
    }

    /// Counts a reply to this node's RequestVote. A newer term makes the node
    /// a follower; a grant in the current term while a candidate is recorded,
    /// and a majority makes the node leader. Returns whether it became
    /// leader.
    pub fn handle_request_vote_response(&mut self, from: NodeId, resp: &RequestVoteResponse) -> (r:
        bool)
        requires
            old(self).wf(),
        ensures
            old(self).steps_to(final(self)),
            final(self).log@ == old(self).log@,
            final(self).commit() == old(self).commit(),
            resp.term.0 > old(self).term() ==> final(self).term() == resp.term.0
                && final(self).state.role == RaftRole::Follower && !r,
            resp.term.0 <= old(self).term() ==> final(self).term() == old(self).term(),
            r == (old(self).state.role == RaftRole::Candidate && resp.term.0 == old(self).term()
                && resp.vote_granted && is_majority(
                old(self).state.candidate_state->Some_0.voters().insert(from).len(),
                old(self).state.peers@.len(),
            )),
            r ==> final(self).state.role == RaftRole::Leader,
    {
        if resp.term.0 > self.state.persistent.current_term.0 {
            self.state.become_follower(resp.term, None);
            return false;
        }
        if resp.term.0 < self.state.persistent.current_term.0 || !resp.vote_granted {
            return false;
        }
        let cluster = self.state.peers.len();
        let won = match &mut self.state.candidate_state {
            Some(c) => {
                c.add_vote(from);
                proof {
                    c.votes_received@.unique_seq_to_set();
                }
                c.has_majority(cluster)
            },
            None => false,
        };
        if won {
            let last = self.log.last_index();
            self.state.become_leader(last);
        }
        won
    }
}

/// Whether a log ending at `(last_term, last_index)` is at least as up to
/// date as one ending at `(our_term, our_index)`.
pub open spec fn at_least_as_up_to_date(
    last_term: nat,
    last_index: nat,
    our_term: nat,
    our_index: nat,
) -> bool {
    last_term > our_term || (last_term == our_term && last_index >= our_index)
}

/// Whether `n` voters, with the node itself, are more than half of a
/// cluster of `size` nodes.
pub open spec fn is_majority(n: nat, size: nat) -> bool {
    n + 1 > size / 2
}

/// Whether a node in state `core` grants the vote that `req` asks for.
pub open spec fn grants_vote(core: &RaftCore, req: &RequestVoteRequest) -> bool {
    let voted = if req.term.0 > core.term() {
        None
    } else {
        core.state.persistent.voted_for
    };
    &&& req.term.0 >= core.term()
    &&& (voted is None || voted == Some(req.candidate_id))
    &&& at_least_as_up_to_date(
        req.last_log_term.0 as nat,
        req.last_log_index.0 as nat,
        core.log@.last_term(),
        core.log@.last_index(),
    )
}

/// Election safety: in one term each node votes for at most one candidate
/// (`votes` maps each voter to the candidate it voted for, a candidate
/// voting for itself), so two candidates that each won a majority of the
/// cluster's votes in that term are the same node.
pub proof fn lemma_one_leader_per_term(
    cluster: Set<NodeId>,
    votes: Map<NodeId, NodeId>,
    a: NodeId,
    won_a: Set<NodeId>,
    b: NodeId,
    won_b: Set<NodeId>,
)
    requires
        cluster.finite(),
        won_a.subset_of(cluster),
        won_b.subset_of(cluster),
        won_a.len() > cluster.len() / 2,
        won_b.len() > cluster.len() / 2,
        forall|v: NodeId| won_a.contains(v) ==> votes.contains_key(v) && votes[v] == a,
        forall|v: NodeId| won_b.contains(v) ==> votes.contains_key(v) && votes[v] == b,
    ensures
        a == b,
{
    lemma_majorities_intersect(cluster, won_a, won_b);
    let v = choose|v: NodeId| won_a.contains(v) && won_b.contains(v);
    assert(votes[v] == a && votes[v] == b);
}

} // verus!
