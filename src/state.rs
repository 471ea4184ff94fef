//! Roles and the per-node state of Raft.

use crate::types::{LogIndex, NodeId, Term};
use vstd::prelude::*;

verus! {

/// The role a node plays.
#[derive(Debug, Clone, Copy, PartialEq, Eq, Structural)]
pub enum RaftRole {
    /// Accepts entries from a leader.
    Follower,
    /// Asks for votes to become leader.
    Candidate,
    /// Takes proposals and replicates the log.
    Leader,
}

impl RaftRole {
    /// The role's name.
    pub fn name(&self) -> (r: &'static str)
        ensures
            *self == RaftRole::Follower ==> r@ == "Follower"@,
            *self == RaftRole::Candidate ==> r@ == "Candidate"@,
            *self == RaftRole::Leader ==> r@ == "Leader"@,
    {
        match self {
            RaftRole::Follower => "Follower",
            RaftRole::Candidate => "Candidate",
            RaftRole::Leader => "Leader",
        }
    }
}

/// State that must reach stable storage before any reply that depends on it.
#[derive(Debug, Clone)]
pub struct PersistentState {
    /// The latest term seen; starts at 0 and never decreases.
    pub current_term: Term,
    /// The candidate voted for in the current term.
    pub voted_for: Option<NodeId>,
}

impl Default for PersistentState {
    fn default() -> (r: PersistentState)
        ensures
            r.current_term.0 == 0,
            r.voted_for is None,
    {
        PersistentState { current_term: Term(0), voted_for: None }
    }
}

/// State that every node keeps in memory.
#[derive(Debug, Clone)]
pub struct VolatileState {
    /// Highest index known to be committed.
    pub commit_index: LogIndex,
    /// Highest index applied to the state machine.
    pub last_applied: LogIndex,
}

impl Default for VolatileState {
    fn default() -> (r: VolatileState)
        ensures
            r.commit_index.0 == 0,
            r.last_applied.0 == 0,
    {
        VolatileState { commit_index: LogIndex(0), last_applied: LogIndex(0) }
    }
}

/// Whether each node appears at most once in `s`.
pub open spec fn keys_unique(s: Seq<(NodeId, LogIndex)>) -> bool {
    forall|i: int, j: int|
        0 <= i < s.len() && 0 <= j < s.len() && #[trigger] s[i].0 == #[trigger] s[j].0 ==> i == j
}

/// Whether `s` has an entry for `n`.
pub open spec fn has_key(s: Seq<(NodeId, LogIndex)>, n: NodeId) -> bool {
    exists|k: int| 0 <= k < s.len() && (#[trigger] s[k]).0 == n
}

/// The index recorded for `n` in `s`, where `has_key(s, n)`.
pub open spec fn value_of(s: Seq<(NodeId, LogIndex)>, n: NodeId) -> LogIndex {
    s[choose|k: int| 0 <= k < s.len() && (#[trigger] s[k]).0 == n].1
}

/// What `s` records for `n`.
pub open spec fn lookup(s: Seq<(NodeId, LogIndex)>, n: NodeId) -> Option<LogIndex> {
    if has_key(s, n) {
        Some(value_of(s, n))
    } else {
        None
    }
}

/// In a table with unique keys, the entry at `k` is what the table records.
pub proof fn lemma_lookup_at(s: Seq<(NodeId, LogIndex)>, k: int)
    requires
        keys_unique(s),
        0 <= k < s.len(),
    ensures
        lookup(s, s[k].0) == Some(s[k].1),
{
    let j = choose|j: int| 0 <= j < s.len() && (#[trigger] s[j]).0 == s[k].0;
    assert(s[j].0 == s[k].0);
}

/// Finds the position of `n` in `s`.
fn position(s: &Vec<(NodeId, LogIndex)>, n: NodeId) -> (r: Option<usize>)
    requires
        keys_unique(s@),
    ensures
        r is None ==> !has_key(s@, n),
        r matches Some(k) ==> k < s@.len() && s@[k as int].0 == n && lookup(s@, n) == Some(
            s@[k as int].1,
        ),
{
    let mut k: usize = 0;
    while k < s.len()
        invariant
            k <= s@.len(),
            keys_unique(s@),
            forall|j: int| 0 <= j < k ==> (#[trigger] s@[j]).0 != n,
        decreases s@.len() - k,
    {
        if s[k].0 == n {
            proof {
                lemma_lookup_at(s@, k as int);
            }
            return Some(k);
        }
        k = k + 1;
    }
    None
}

/// Sets what `s` records for `n`, where it records something.
fn update(s: &mut Vec<(NodeId, LogIndex)>, n: NodeId, index: LogIndex)
    requires
        keys_unique(old(s)@),
    ensures
        keys_unique(final(s)@),
        final(s)@.len() == old(s)@.len(),
        forall|m: NodeId| has_key(final(s)@, m) == has_key(old(s)@, m),
        forall|m: NodeId|
            #![trigger lookup(final(s)@, m)]
            lookup(final(s)@, m) == if m == n && has_key(old(s)@, n) {
                Some(index)
            } else {
                lookup(old(s)@, m)
            },
{
    match position(s, n) {
        Some(k) => {
            let ghost pre = s@;
            s.set(k, (n, index));
            proof {
                assert forall|m: NodeId| has_key(s@, m) == has_key(pre, m) by {
                    if has_key(pre, m) {
                        let j = choose|j: int| 0 <= j < pre.len() && (#[trigger] pre[j]).0 == m;
                        assert(s@[j].0 == m);
                    }
                    if has_key(s@, m) {
                        let j = choose|j: int| 0 <= j < s@.len() && (#[trigger] s@[j]).0 == m;
                        assert(pre[j].0 == m);
                    }
                }
                assert forall|m: NodeId|
                    #![trigger lookup(s@, m)]
                    lookup(s@, m) == if m == n && has_key(pre, n) {
                        Some(index)
                    } else {
                        lookup(pre, m)
                    } by {
                    if has_key(s@, m) {
                        let j = choose|j: int| 0 <= j < s@.len() && (#[trigger] s@[j]).0 == m;
                        lemma_lookup_at(s@, j);
                        lemma_lookup_at(pre, j);
                    }
                }
            }
        },
        None => {},
    }
}

/// Per-peer replication progress on a leader, reset at each election.
#[derive(Debug, Clone)]
pub struct LeaderState {
    /// For each peer, the index of the next entry to send.
    pub next_index: Vec<(NodeId, LogIndex)>,
    /// For each peer, the highest index known to be replicated there.
    pub match_index: Vec<(NodeId, LogIndex)>,
}

impl LeaderState {
    /// Each table names each peer once.
    pub open spec fn wf(&self) -> bool {
        &&& keys_unique(self.next_index@)
        &&& keys_unique(self.match_index@)
    }

    /// Starts each peer at `last_log_index + 1` to send and 0 replicated.
    pub fn new(peers: &[NodeId], last_log_index: LogIndex) -> (r: LeaderState)
        requires
            last_log_index.0 < u64::MAX,
        ensures
            r.wf(),
            forall|n: NodeId|
                #![trigger lookup(r.next_index@, n)]
                lookup(r.next_index@, n) == if peers@.contains(n) {
                    Some(LogIndex((last_log_index.0 + 1) as u64))
                } else {
                    None
                },
            forall|n: NodeId|
                #![trigger lookup(r.match_index@, n)]
                lookup(r.match_index@, n) == if peers@.contains(n) {
                    Some(LogIndex(0))
                } else {
                    None
                },
    {
        let mut next_index: Vec<(NodeId, LogIndex)> = Vec::new();
        let mut match_index: Vec<(NodeId, LogIndex)> = Vec::new();
        let mut k: usize = 0;
        while k < peers.len()
            invariant
                k <= peers@.len(),
                last_log_index.0 < u64::MAX,
                keys_unique(next_index@),
                keys_unique(match_index@),
                next_index@.len() == match_index@.len(),
                forall|j: int|
                    0 <= j < next_index@.len() ==> (#[trigger] next_index@[j]) == (
                        match_index@[j].0,
                        LogIndex((last_log_index.0 + 1) as u64),
                    ) && match_index@[j].1 == LogIndex(0),
                forall|n: NodeId| has_key(next_index@, n) <==> peers@.subrange(0, k as int).contains(n),
                forall|n: NodeId| has_key(match_index@, n) <==> peers@.subrange(0, k as int).contains(n),
            decreases peers@.len() - k,
        {
            let p = peers[k];
            let ghost pn = next_index@;
            let ghost pm = match_index@;
            let found = position(&next_index, p);
            proof {
                if let Some(i) = found {
                    assert(next_index@[i as int].0 == p);
                    assert(has_key(pn, p));
                }
            }
            if found.is_none() {
                next_index.push((p, LogIndex(last_log_index.0 + 1)));
                match_index.push((p, LogIndex(0)));
                proof {
                    assert forall|n: NodeId| has_key(next_index@, n) <==> has_key(pn, n) || n == p by {
                        if has_key(next_index@, n) && n != p {
                            let j = choose|j: int| 0 <= j < next_index@.len() && (#[trigger] next_index@[j]).0 == n;
                            assert(pn[j].0 == n);
                        }
                        if has_key(pn, n) {
                            let j = choose|j: int| 0 <= j < pn.len() && (#[trigger] pn[j]).0 == n;
                            assert(next_index@[j].0 == n);
                        }
                        if n == p {
                            assert(next_index@[pn.len() as int].0 == n);
                        }
                    }
                    assert forall|n: NodeId| has_key(match_index@, n) <==> has_key(pm, n) || n == p by {
                        if has_key(match_index@, n) && n != p {
                            let j = choose|j: int| 0 <= j < match_index@.len() && (#[trigger] match_index@[j]).0 == n;
                            assert(pm[j].0 == n);
                        }
                        if has_key(pm, n) {
                            let j = choose|j: int| 0 <= j < pm.len() && (#[trigger] pm[j]).0 == n;
                            assert(match_index@[j].0 == n);
                        }
                        if n == p {
                            assert(match_index@[pm.len() as int].0 == n);
                        }
                    }
                    assert forall|i: int, j: int|
                        0 <= i < match_index@.len() && 0 <= j < match_index@.len()
                            && #[trigger] match_index@[i].0 == #[trigger] match_index@[j].0 implies i == j by {
                        if i < pm.len() && j == pm.len() {
                            assert(next_index@[i].0 == p);
                            assert(has_key(pn, p));
                        }
                        if j < pm.len() && i == pm.len() {
                            assert(next_index@[j].0 == p);
                            assert(has_key(pn, p));
                        }
                    }
                }
            }
            proof {
                let sub0 = peers@.subrange(0, k as int);
                let sub1 = peers@.subrange(0, k + 1);
                assert forall|n: NodeId| sub1.contains(n) <==> sub0.contains(n) || n == p by {
                    if sub1.contains(n) {
                        let i = choose|i: int| 0 <= i < sub1.len() && sub1[i] == n;
                        if i < k {
                            assert(sub0[i] == n);
                        }
                    }
                    if sub0.contains(n) {
                        let i = choose|i: int| 0 <= i < sub0.len() && sub0[i] == n;
                        assert(sub1[i] == n);
                    }
                    if n == p {
                        assert(sub1[k as int] == p);
                    }
                }
                if has_key(pn, p) {
                    assert(next_index@ == pn && match_index@ == pm);
                    let j = choose|j: int| 0 <= j < pn.len() && (#[trigger] pn[j]).0 == p;
                    assert(match_index@[j].0 == p);
                } else {
                    assert(next_index@ == pn.push((p, LogIndex((last_log_index.0 + 1) as u64))));
                    assert(match_index@ == pm.push((p, LogIndex(0))));
                }
                assert forall|n: NodeId| has_key(next_index@, n) <==> sub1.contains(n) by {
                    if has_key(pn, n) {
                        let j = choose|j: int| 0 <= j < pn.len() && (#[trigger] pn[j]).0 == n;
                        assert(next_index@[j].0 == n);
                    }
                }
                assert forall|n: NodeId| has_key(match_index@, n) <==> sub1.contains(n) by {
                    if has_key(pm, n) {
                        let j = choose|j: int| 0 <= j < pm.len() && (#[trigger] pm[j]).0 == n;
                        assert(match_index@[j].0 == n);
                    }
                }
            }
            k = k + 1;
        }
        proof {
            assert(peers@.subrange(0, peers@.len() as int) =~= peers@);
            assert forall|n: NodeId| #![trigger lookup(next_index@, n)]
                lookup(next_index@, n) == if peers@.contains(n) {
                    Some(LogIndex((last_log_index.0 + 1) as u64))
                } else {
                    None
                } by {
                if has_key(next_index@, n) {
                    let j = choose|j: int| 0 <= j < next_index@.len() && (#[trigger] next_index@[j]).0 == n;
                    lemma_lookup_at(next_index@, j);
                }
            }
            assert forall|n: NodeId| #![trigger lookup(match_index@, n)]
                lookup(match_index@, n) == if peers@.contains(n) {
                    Some(LogIndex(0))
                } else {
                    None
                } by {
                if has_key(match_index@, n) {
                    let j = choose|j: int| 0 <= j < match_index@.len() && (#[trigger] match_index@[j]).0 == n;
                    assert(next_index@[j].0 == n);
                    lemma_lookup_at(match_index@, j);
                }
            }
        }
        LeaderState { next_index, match_index }
    }

    pub fn get_next_index(&self, node: NodeId) -> (r: Option<LogIndex>)
        requires
            self.wf(),
        ensures
            r == lookup(self.next_index@, node),
    {
        match position(&self.next_index, node) {
            Some(k) => Some(self.next_index[k].1),
            None => None,
        }
    }

    /// Sets the next index of a known peer; an unknown one is ignored.
    pub fn set_next_index(&mut self, node: NodeId, index: LogIndex)
        requires
            old(self).wf(),
        ensures
            final(self).wf(),
            final(self).match_index == old(self).match_index,
            forall|m: NodeId|
                #![trigger lookup(final(self).next_index@, m)]
                lookup(final(self).next_index@, m) == if m == node && has_key(
                    old(self).next_index@,
                    node,
                ) {
                    Some(index)
                } else {
                    lookup(old(self).next_index@, m)
                },
    {
        update(&mut self.next_index, node, index);
    }

    pub fn get_match_index(&self, node: NodeId) -> (r: Option<LogIndex>)
        requires
            self.wf(),
        ensures
            r == lookup(self.match_index@, node),
    {
        match position(&self.match_index, node) {
            Some(k) => Some(self.match_index[k].1),
            None => None,
        }
    }

    /// Sets the match index of a known peer; an unknown one is ignored.
    pub fn set_match_index(&mut self, node: NodeId, index: LogIndex)
        requires
            old(self).wf(),
        ensures
            final(self).wf(),
            final(self).next_index == old(self).next_index,
            forall|m: NodeId|
                #![trigger lookup(final(self).match_index@, m)]
                lookup(final(self).match_index@, m) == if m == node && has_key(
                    old(self).match_index@,
                    node,
                ) {
                    Some(index)
                } else {
                    lookup(old(self).match_index@, m)
                },
    {
        update(&mut self.match_index, node, index);
    }
}

/// Votes gathered by a candidate in its current election.
#[derive(Debug, Clone)]
pub struct CandidateState {
    /// The nodes that granted their vote, each once; the candidate's own
    /// vote is not among them.
    pub votes_received: Vec<NodeId>,
}

impl CandidateState {
    pub open spec fn wf(&self) -> bool {
        self.votes_received@.no_duplicates()
    }

    /// The nodes that granted their vote.
    pub open spec fn voters(&self) -> Set<NodeId> {
        self.votes_received@.to_set()
    }

    pub fn new() -> (r: CandidateState)
        ensures
            r.wf(),
            r.votes_received@.len() == 0,
    {
        CandidateState { votes_received: Vec::new() }
    }

    /// Records a granted vote; a second vote from the same node counts once.
    pub fn add_vote(&mut self, node: NodeId)
        requires
            old(self).wf(),
        ensures
            final(self).wf(),
            final(self).voters() == old(self).voters().insert(node),
    {
        let mut k: usize = 0;
        while k < self.votes_received.len()
            invariant
                k <= self.votes_received@.len(),
                self.wf(),
                forall|j: int| 0 <= j < k ==> self.votes_received@[j] != node,
            decreases self.votes_received@.len() - k,
        {
            if self.votes_received[k] == node {
                proof {
                    assert(self.voters().contains(node));
                    assert(self.voters().insert(node) =~= self.voters());
                }
                return;
            }
            k = k + 1;
        }
        let ghost pre = self.votes_received@;
        self.votes_received.push(node);
        proof {
            assert(self.votes_received@ == pre.push(node));
            assert(self.voters() =~= pre.to_set().insert(node)) by {
                pre.lemma_push_to_set_commute(node);
            }
        }
    }

    /// Whether the votes, with the candidate's own, are more than half of a
    /// cluster of `cluster_size` nodes.
    pub fn has_majority(&self, cluster_size: usize) -> (r: bool)
        ensures
            r == (self.votes_received@.len() + 1 > cluster_size / 2),
    {
        self.votes_received.len() >= cluster_size / 2
    }
}

/// Two sets of nodes of a cluster that each hold more than half of it share
/// a node. Since a node grants at most one vote per term, two candidates
/// cannot both gather a majority in the same term.
pub proof fn lemma_majorities_intersect(cluster: Set<NodeId>, a: Set<NodeId>, b: Set<NodeId>)
    requires
        cluster.finite(),
        a.subset_of(cluster),
        b.subset_of(cluster),
        a.len() > cluster.len() / 2,
        b.len() > cluster.len() / 2,
    ensures
        exists|n: NodeId| a.contains(n) && b.contains(n),
{
    vstd::set_lib::lemma_len_subset(a, cluster);
    vstd::set_lib::lemma_len_subset(b, cluster);
    vstd::set_lib::lemma_len_subset(a + b, cluster);
    if forall|n: NodeId| !(a.contains(n) && b.contains(n)) {
        assert(a.disjoint(b));
        vstd::set_lib::lemma_set_disjoint_lens(a, b);
        assert(false);
    }
}

/// Everything a node knows about itself and the cluster.
#[derive(Debug)]
pub struct NodeState {
    pub role: RaftRole,
    pub id: NodeId,
    /// The leader of the current term, if known.
    pub leader_id: Option<NodeId>,
    pub persistent: PersistentState,
    pub volatile: VolatileState,
    /// Present exactly while the node leads.
    pub leader_state: Option<LeaderState>,
    /// Present exactly while the node is a candidate.
    pub candidate_state: Option<CandidateState>,
    /// Every node of the cluster, this one included.
    pub peers: Vec<NodeId>,
}

impl NodeState {
    /// The role and its per-role state agree.
    pub open spec fn wf(&self) -> bool {
        &&& (self.role == RaftRole::Leader) == (self.leader_state is Some)
        &&& (self.role == RaftRole::Candidate) == (self.candidate_state is Some)
        &&& (self.leader_state matches Some(l) ==> l.wf())
        &&& (self.candidate_state matches Some(c) ==> c.wf())
    }

    /// The other members of the cluster.
    pub open spec fn others(&self) -> Seq<NodeId> {
        self.peers@.filter(|p: NodeId| p != self.id)
    }

    /// A follower at term 0 that has not voted.
    pub fn new(id: NodeId, peers: Vec<NodeId>) -> (r: NodeState)
        ensures
            r.wf(),
            r.role == RaftRole::Follower,
            r.id == id,
            r.leader_id is None,
            r.persistent.current_term.0 == 0,
            r.persistent.voted_for is None,
            r.volatile.commit_index.0 == 0,
            r.volatile.last_applied.0 == 0,
            r.peers@ == peers@,
    {
        NodeState {
            role: RaftRole::Follower,
            id,
            leader_id: None,
            persistent: PersistentState::default(),
            volatile: VolatileState::default(),
            leader_state: None,
            candidate_state: None,
            peers,
        }
    }

    /// Steps down to follower in `term`, which is not below the current term.
    /// The vote is cleared when the term changes.
    pub fn become_follower(&mut self, term: Term, leader: Option<NodeId>)
        requires
            term.0 >= old(self).persistent.current_term.0,
        ensures
            final(self).wf(),
            final(self).role == RaftRole::Follower,
            final(self).persistent.current_term == term,
            final(self).persistent.voted_for == if term == old(self).persistent.current_term {
                old(self).persistent.voted_for
            } else {
                None
            },
            final(self).leader_id == leader,
            final(self).id == old(self).id,
            final(self).peers == old(self).peers,
            final(self).volatile == old(self).volatile,
    {
        if term.0 != self.persistent.current_term.0 {
            self.persistent.voted_for = None;
        }
        self.role = RaftRole::Follower;
        self.persistent.current_term = term;
        self.leader_id = leader;
        self.leader_state = None;
        self.candidate_state = None;
    }

    /// Starts an election: next term, voting for itself.
    pub fn become_candidate(&mut self)
        requires
            old(self).persistent.current_term.0 < u64::MAX,
        ensures
            final(self).wf(),
            final(self).role == RaftRole::Candidate,
            final(self).persistent.current_term.0 == old(self).persistent.current_term.0 + 1,
            final(self).persistent.voted_for == Some(old(self).id),
            final(self).leader_id is None,
            final(self).candidate_state matches Some(c) && c.votes_received@.len() == 0,
            final(self).id == old(self).id,
            final(self).peers == old(self).peers,
            final(self).volatile == old(self).volatile,
    {
        self.role = RaftRole::Candidate;
        self.persistent.current_term.increment();
        self.persistent.voted_for = Some(self.id);
        self.leader_id = None;
        self.candidate_state = Some(CandidateState::new());
        self.leader_state = None;
    }

    /// Takes the lead: every other peer starts at `last_log_index + 1` to
    /// send and 0 replicated.
    pub fn become_leader(&mut self, last_log_index: LogIndex)
        requires
            last_log_index.0 < u64::MAX,
        ensures
            final(self).wf(),
            final(self).role == RaftRole::Leader,
            final(self).leader_id == Some(old(self).id),
            final(self).persistent == old(self).persistent,
            final(self).id == old(self).id,
            final(self).peers == old(self).peers,
            final(self).volatile == old(self).volatile,
            final(self).leader_state matches Some(l) && (forall|n: NodeId|
                #![trigger lookup(l.next_index@, n)]
                lookup(l.next_index@, n) == if old(self).others().contains(n) {
                    Some(LogIndex((last_log_index.0 + 1) as u64))
                } else {
                    None
                }) && (forall|n: NodeId|
                #![trigger lookup(l.match_index@, n)]
                lookup(l.match_index@, n) == if old(self).others().contains(n) {
                    Some(LogIndex(0))
                } else {
                    None
                }),
    {
        self.role = RaftRole::Leader;
        self.leader_id = Some(self.id);
        let other_peers = self.other_peers();
        self.leader_state = Some(LeaderState::new(other_peers.as_slice(), last_log_index));
        self.candidate_state = None;
    }

    /// The cluster's members other than this node, in order.
    pub fn other_peers(&self) -> (r: Vec<NodeId>)
        ensures
            r@ == self.others(),
    {
        let mut r: Vec<NodeId> = Vec::new();
        let mut k: usize = 0;
        while k < self.peers.len()
            invariant
                k <= self.peers@.len(),
                r@ == self.peers@.subrange(0, k as int).filter(|p: NodeId| p != self.id),
            decreases self.peers@.len() - k,
        {
            let p = self.peers[k];
            proof {
                let f = |q: NodeId| q != self.id;
                assert(self.peers@.subrange(0, k + 1) =~= self.peers@.subrange(0, k as int).push(p));
                self.peers@.subrange(0, k as int).lemma_filter_push(p, f);
            }
            if p != self.id {
                r.push(p);
            }
            k = k + 1;
        }
        proof {
            assert(self.peers@.subrange(0, self.peers@.len() as int) =~= self.peers@);
        }
        r
    }
}

} // verus!
