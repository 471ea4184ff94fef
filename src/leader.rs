//! The leader's side of replication: proposals, what to send each peer,
//! the peers' answers, and commit advancement.

use crate::election::is_majority;
use crate::error::RaftError;
use crate::follower::logs_match;
use crate::log::{entry_views, LogStorage, LogView};
use crate::node::RaftCore;
use crate::rpc::{
    AppendEntriesRequest, AppendEntriesResponse, InstallSnapshotRequest, ReplicationRequest,
};
use crate::state::{has_key, lookup, RaftRole};
use crate::types::{Entry, EntryView, LogIndex, NodeId, Term};
use vstd::prelude::*;

verus! {

impl RaftCore {
    /// Whether index `n` may be committed by this leader: the log holds it
    /// with the current term, and it is replicated on a majority, the leader
    /// included.
    pub open spec fn can_commit(&self, n: nat) -> bool {
        &&& self.state.leader_state is Some
        &&& self.log@.holds(n)
        &&& self.log@.term_of(n) == Some(self.term())
        &&& is_majority(
            replicated_on(self.state.leader_state->Some_0.match_index@, n),
            self.state.peers@.len(),
        )
    }

    /// Moves the commit index of a leader to the largest index above it that
    /// `can_commit` allows; without one, or on a node that does not lead,
    /// nothing changes. Entries of earlier terms are committed only along
    /// with a later entry of the current term.
    pub fn advance_commit(&mut self)
        requires
            old(self).wf(),
        ensures
            final(self).wf(),
            final(self).state.volatile.last_applied == old(self).state.volatile.last_applied,
            final(self).commit() == old(self).commit() || old(self).can_commit(final(self).commit()),
            forall|n: nat|
                final(self).commit() < n <= old(self).log@.last_index() ==> !old(self).can_commit(
                    n,
                ),
            old(self).commit() <= final(self).commit(),
            final(self).log@ == old(self).log@,
            final(self).state.role == old(self).state.role,
            final(self).state.persistent == old(self).state.persistent,
            final(self).state.id == old(self).state.id,
            final(self).state.peers == old(self).state.peers,
            final(self).state.leader_state == old(self).state.leader_state,
            final(self).state.leader_id == old(self).state.leader_id,
            final(self).election_elapsed == old(self).election_elapsed,
    {
        let term = self.state.persistent.current_term;
        let commit = self.state.volatile.commit_index.0;
        let cluster = self.state.peers.len();
        let found = match &self.state.leader_state {
            None => None,
            Some(ls) => {
                let mut n = self.log.last_index().0;
                let mut found: Option<u64> = None;
                while n > commit
                    invariant_except_break
                        found is None,
                    invariant
                        commit <= n <= self.log@.last_index(),
                        commit == self.commit(),
                        term == self.state.persistent.current_term,
                        cluster == self.state.peers@.len(),
                        self.state.leader_state == Some(*ls),
                        self.wf(),
                        forall|m: nat| n < m <= self.log@.last_index() ==> !self.can_commit(m),
                    ensures
                        found is None ==> forall|m: nat|
                            commit < m <= self.log@.last_index() ==> !self.can_commit(m),
                        found matches Some(f) ==> commit < f <= self.log@.last_index()
                            && self.can_commit(f as nat) && forall|m: nat|
                            f < m <= self.log@.last_index() ==> !self.can_commit(m),
                    decreases n,
                {
                    let t = self.log.get_term(LogIndex(n));
                    let same_term = match t {
                        Ok(Some(t)) => t.0 == term.0,
                        _ => false,
                    };
                    if same_term {
                        let count = count_replicated(&ls.match_index, n);
                        if count >= cluster / 2 {
                            found = Some(n);
                            break;
                        }
                    }
                    proof {
                        assert(!self.can_commit(n as nat));
                    }
                    n = n - 1;
                }
                found
            },
        };
        if let Some(n) = found {
            self.state.volatile.commit_index = LogIndex(n);
        }
    }

    /// Appends a command to a leader's log in its current term, and commits
    /// what a majority now holds. A node that does not lead refuses with the
    /// leader it knows of. Returns the entry's index.
    pub fn propose(&mut self, command: Vec<u8>) -> (r: Result<LogIndex, RaftError>)
        requires
            old(self).wf(),
        ensures
            old(self).steps_to(final(self)),
            final(self).term() == old(self).term(),
            final(self).state.role == old(self).state.role,
            old(self).state.role != RaftRole::Leader ==> r == Err::<LogIndex, RaftError>(
                RaftError::NotLeader(old(self).state.leader_id),
            ) && *final(self) == *old(self),
            old(self).state.role == RaftRole::Leader && old(self).log@.last_index() + 2
                >= u64::MAX ==> r == Err::<LogIndex, RaftError>(
                RaftError::LogIndexOutOfRange(LogIndex((old(self).log@.last_index() + 1) as u64)),
            ) && *final(self) == *old(self),
            old(self).state.role == RaftRole::Leader && old(self).log@.last_index() + 2 < u64::MAX
                ==> {
                &&& r == Ok::<LogIndex, RaftError>(LogIndex((old(self).log@.last_index() + 1) as u64))
                &&& final(self).log@.snapshot == old(self).log@.snapshot
                &&& final(self).log@.entries == old(self).log@.entries.push(
                    EntryView {
                        term: old(self).term() as u64,
                        index: (old(self).log@.last_index() + 1) as u64,
                        command: command@,
                    },
                )
            },
    {
        if self.state.role != RaftRole::Leader {
            return Err(RaftError::NotLeader(self.state.leader_id));
        }
        let last = self.log.last_index();
        if last.0 >= u64::MAX - 2 {
            return Err(RaftError::LogIndexOutOfRange(LogIndex(last.0 + 1)));
        }
        let index = LogIndex(last.0 + 1);
        let ghost cmd = command@;
        let mut batch: Vec<Entry> = Vec::new();
        batch.push(Entry::new(self.state.persistent.current_term, index, command));
        let appended = self.log.append(batch);
        proof {
            assert(appended is Ok);
            assert(entry_views(batch@) =~= seq![
                EntryView { term: self.term() as u64, index: index.0, command: cmd },
            ]);
        }

        self.advance_commit();
        Ok(index)
    }

    /// Where replication to a peer whose next index is `next` starts: at
    /// least 1 and at most one past the last entry.
    pub open spec fn start_for(&self, next: LogIndex) -> nat {
        if next.0 == 0 {
            1
        } else if next.0 > self.log@.last_index() + 1 {
            self.log@.last_index() + 1
        } else {
            next.0 as nat
        }
    }

    /// What a leader sends to `peer`, whose next index it knows: its snapshot
    /// where the entry before the next one has been released, otherwise an
    /// AppendEntries with the entries from the next index on, at most
    /// `max_append_entries` of them and, past the first, at most
    /// `max_append_bytes` of commands.
    pub fn replication_request(&self, peer: NodeId) -> (r: Option<ReplicationRequest>)
        requires
            self.wf(),
        ensures
            self.state.leader_state is None ==> r is None,
            self.state.leader_state matches Some(ls) ==> match lookup(ls.next_index@, peer) {
                None => r is None,
                Some(next) => {
                    let start = self.start_for(next);
                    let snap = self.log@.snap_index();
                    if start - 1 < snap {
                        r matches Some(ReplicationRequest::Snapshot(req)) && {
                            &&& req.term.0 == self.term()
                            &&& req.leader_id == self.state.id
                            &&& req.last_included_index.0 == snap
                            &&& req.last_included_term.0 == self.log@.snap_term()
                            &&& req.offset == 0
                            &&& req.data@ == self.log@.snapshot->Some_0.data
                            &&& req.done
                        }
                    } else {
                        r matches Some(ReplicationRequest::Append(req)) && {
                            let avail = self.log@.last_index() + 1 - start;
                            let limit = if self.config.max_append_entries < avail {
                                self.config.max_append_entries as nat
                            } else {
                                avail as nat
                            };
                            let from = start - snap - 1;
                            let sent = entry_views(req.entries@);
                            &&& req.term.0 == self.term()
                            &&& req.leader_id == self.state.id
                            &&& req.prev_log_index.0 == start - 1
                            &&& req.prev_log_term.0 == match self.log@.term_of(
                                (start - 1) as nat,
                            ) {
                                Some(t) => t,
                                None => 0,
                            }
                            &&& req.leader_commit.0 == self.commit()
                            &&& sent == self.log@.entries.subrange(from, from + sent.len())
                            &&& (limit > 0 ==> 1 <= sent.len() <= limit)
                            &&& (limit == 0 ==> sent.len() == 0)
                            &&& (sent.len() > 1 ==> command_bytes(sent)
                                <= self.config.max_append_bytes)
                            &&& (sent.len() < limit ==> command_bytes(
                                self.log@.entries.subrange(from, from + sent.len() + 1),
                            ) > self.config.max_append_bytes)
                        }
                    }
                },
            },
    {
        let ls = match &self.state.leader_state {
            Some(ls) => ls,
            None => {
                return None;
            },
        };
        let next = match ls.get_next_index(peer) {
            Some(n) => n,
            None => {
                return None;
            },
        };
        let last = self.log.last_index().0;
        let start: u64 = if next.0 == 0 {
            1
        } else if next.0 > last + 1 {
            last + 1
        } else {
            next.0
        };
        let snapshot = self.log.get_snapshot();
        if let Some(s) = snapshot {
            if start - 1 < s.metadata.last_included_index.0 {
                return Some(
                    ReplicationRequest::Snapshot(
                        InstallSnapshotRequest {
                            term: self.state.persistent.current_term,
                            leader_id: self.state.id,
                            last_included_index: s.metadata.last_included_index,
                            last_included_term: s.metadata.last_included_term,
                            offset: 0,
                            data: s.data,
                            done: true,
                        },
                    ),
                );
            }
        }
        let prev = LogIndex(start - 1);
        let prev_term = match self.log.get_term(prev) {
            Ok(Some(t)) => t,
            _ => Term(0),
        };
        let avail = last + 1 - start;
        let limit: u64 = if (self.config.max_append_entries as u64) < avail {
            self.config.max_append_entries as u64
        } else {
            avail
        };
        let mut entries = match self.log.get_range(LogIndex(start), LogIndex(start + limit)) {
            Ok(v) => v,
            Err(_) => Vec::new(),
        };
        let ghost snap = self.log@.snap_index();
        let ghost from = start - snap - 1;
        proof {
            assert(entry_views(entries@) == self.log@.entries.subrange(from, from + limit));
        }
        let keep = prefix_within(&entries, self.config.max_append_bytes);
        proof {
            assert forall|k: nat| k <= entries@.len() implies command_bytes(
                entry_views(entries@.subrange(0, k as int)),
            ) == command_bytes(self.log@.entries.subrange(from, from + k)) by {
                assert(entry_views(entries@.subrange(0, k as int)) =~= self.log@.entries.subrange(
                    from,
                    from + k,
                ));
            }
        }
        entries.truncate(keep);
        proof {
            assert(entry_views(entries@) =~= self.log@.entries.subrange(from, from + keep));
        }
        Some(
            ReplicationRequest::Append(
                AppendEntriesRequest {
                    term: self.state.persistent.current_term,
                    leader_id: self.state.id,
                    prev_log_index: prev,
                    prev_log_term: prev_term,
                    entries,
                    leader_commit: self.state.volatile.commit_index,
                },
            ),
        )
    }

    /// Takes a peer's answer to an AppendEntries that carried `sent` entries
    /// after `prev_log_index`. A newer term makes the node a follower; an
    /// answer from an older term, or one that reaches a node that no longer
    /// leads, is dropped. On success the peer's match index rises to
    /// `prev_log_index + sent` (never falling), its next index follows it,
    /// and the commit index advances. On failure the next index steps back,
    /// to just past the peer's hinted last index where that is lower, and
    /// never below 1.
    pub fn handle_append_entries_response(
        &mut self,
        peer: NodeId,
        prev_log_index: LogIndex,
        sent: usize,
        resp: &AppendEntriesResponse,
    )
        requires
            old(self).wf(),
        ensures
            old(self).steps_to(final(self)),
            final(self).log@ == old(self).log@,
            resp.term.0 > old(self).term() ==> final(self).term() == resp.term.0
                && final(self).state.role == RaftRole::Follower,
            resp.term.0 <= old(self).term() ==> final(self).term() == old(self).term()
                && final(self).state.role == old(self).state.role,
            resp.term.0 <= old(self).term() && (resp.term.0 < old(self).term()
                || old(self).state.role != RaftRole::Leader) ==> final(self).state == old(self).state,
            old(self).state.role == RaftRole::Leader && resp.term.0 == old(self).term() ==> {
                let ls0 = old(self).state.leader_state->Some_0;
                let ls1 = final(self).state.leader_state->Some_0;
                &&& forall|m: NodeId|
                    #![trigger lookup(ls1.match_index@, m)]
                    m != peer ==> lookup(ls1.match_index@, m) == lookup(ls0.match_index@, m)
                &&& forall|m: NodeId|
                    #![trigger lookup(ls1.next_index@, m)]
                    m != peer ==> lookup(ls1.next_index@, m) == lookup(ls0.next_index@, m)
                &&& (resp.success && prev_log_index.0 + sent <= old(self).log@.last_index()
                    && has_key(ls0.match_index@, peer) && has_key(ls0.next_index@, peer)
                    && value_of_key(ls0.match_index@, peer).0 < u64::MAX) ==> {
                    let m0 = value_of_key(ls0.match_index@, peer);
                    let m = if m0.0 >= prev_log_index.0 + sent {
                        m0.0 as nat
                    } else {
                        (prev_log_index.0 + sent) as nat
                    };
                    &&& lookup(ls1.match_index@, peer) == Some(LogIndex(m as u64))
                    &&& lookup(ls1.next_index@, peer) == Some(LogIndex((m + 1) as u64))
                }
                &&& (!resp.success && has_key(ls0.next_index@, peer)) ==> {
                    lookup(ls1.next_index@, peer) == Some(
                        LogIndex(backoff(value_of_key(ls0.next_index@, peer).0 as nat, resp.match_index) as u64),
                    ) && lookup(ls1.match_index@, peer) == lookup(ls0.match_index@, peer)
                }
            },
    {
        if resp.term.0 > self.state.persistent.current_term.0 {
            self.state.become_follower(resp.term, None);
            return;
        }
        if resp.term.0 < self.state.persistent.current_term.0 {
            return;
        }
        let last = self.log.last_index().0;
        let mut ls = match self.state.leader_state.take() {
            Some(ls) => ls,
            None => {
                return;
            },
        };
        let ghost ls0 = ls;
        if resp.success {
            if prev_log_index.0 <= last && sent as u64 <= last - prev_log_index.0 {
                let reached = prev_log_index.0 + sent as u64;
                match (ls.get_match_index(peer), ls.get_next_index(peer)) {
                    (Some(m0), Some(_)) => {
                        let m = if m0.0 >= reached {
                            m0.0
                        } else {
                            reached
                        };
                        if m < u64::MAX {
                            ls.set_match_index(peer, LogIndex(m));
                            ls.set_next_index(peer, LogIndex(m + 1));
                        }
                    },
                    _ => {},
                }
            }
        } else {
            match ls.get_next_index(peer) {
                Some(next) => {
                    let back = backoff_exec(next.0, resp.match_index);
                    ls.set_next_index(peer, LogIndex(back));
                },
                None => {},
            }
        }
        self.state.leader_state = Some(ls);
        self.advance_commit();
    }
}

/// The total length of the commands of `es`.
pub open spec fn command_bytes(es: Seq<EntryView>) -> nat
    decreases es.len(),
{
    if es.len() == 0 {
        0
    } else {
        command_bytes(es.drop_last()) + es.last().command.len()
    }
}

/// How many of the first entries to send: all of them where their commands
/// fit in `max_bytes`, otherwise the longest prefix that fits, and at least
/// one.
fn prefix_within(entries: &Vec<Entry>, max_bytes: usize) -> (r: usize)
    ensures
        r <= entries@.len(),
        entries@.len() > 0 ==> r >= 1,
        r > 1 ==> command_bytes(entry_views(entries@.subrange(0, r as int))) <= max_bytes,
        r < entries@.len() ==> command_bytes(entry_views(entries@.subrange(0, r + 1)))
            > max_bytes,
{
    let mut k: usize = 0;
    let mut bytes: usize = 0;
    while k < entries.len()
        invariant
            k <= entries@.len(),
            bytes == command_bytes(entry_views(entries@.subrange(0, k as int))),
            k > 1 ==> bytes <= max_bytes,
        ensures
            k <= entries@.len(),
            entries@.len() > 0 ==> k >= 1,
            k > 1 ==> command_bytes(entry_views(entries@.subrange(0, k as int))) <= max_bytes,
            k < entries@.len() ==> command_bytes(entry_views(entries@.subrange(0, k + 1)))
                > max_bytes,
        decreases entries@.len() - k,
    {
        let len = entries[k].command.len();
        proof {
            let a = entry_views(entries@.subrange(0, k + 1));
            assert(a.drop_last() =~= entry_views(entries@.subrange(0, k as int)));
            assert(a.last() == entries@[k as int]@);
        }
        if k > 0 && (bytes > max_bytes || len > max_bytes - bytes) {
            break;
        }
        bytes = bytes + len;
        k = k + 1;
    }
    k
}

/// The next index after a refusal: one back, or just past the peer's hinted
/// last index where that is lower, and never below 1.
pub open spec fn backoff(next: nat, hint: Option<LogIndex>) -> nat {
    let back: nat = if next > 1 {
        (next - 1) as nat
    } else {
        1
    };
    match hint {
        Some(h) => if h.0 + 1 < back {
            (h.0 + 1) as nat
        } else {
            back
        },
        None => back,
    }
}

fn backoff_exec(next: u64, hint: Option<LogIndex>) -> (r: u64)
    ensures
        r == backoff(next as nat, hint),
{
    let back = if next > 1 {
        next - 1
    } else {
        1
    };
    match hint {
        Some(h) => if h.0 < back - 1 {
            h.0 + 1
        } else {
            back
        },
        None => back,
    }
}

/// What `table` records for `n`.
pub open spec fn value_of_key(table: Seq<(NodeId, LogIndex)>, n: NodeId) -> LogIndex {
    lookup(table, n)->Some_0
}

/// How many peers in `table` have replicated index `n`.
pub open spec fn replicated_on(table: Seq<(NodeId, LogIndex)>, n: nat) -> nat {
    table.filter(|e: (NodeId, LogIndex)| e.1.0 >= n).len()
}

/// Counts the peers in `table` that have replicated index `n`.
fn count_replicated(table: &Vec<(NodeId, LogIndex)>, n: u64) -> (r: usize)
    ensures
        r == replicated_on(table@, n as nat),
{
    let ghost f = |e: (NodeId, LogIndex)| e.1.0 >= n;
    let mut count: usize = 0;
    let mut k: usize = 0;
    while k < table.len()
        invariant
            k <= table@.len(),
            count == table@.subrange(0, k as int).filter(f).len(),
            f == (|e: (NodeId, LogIndex)| e.1.0 >= n),
        decreases table@.len() - k,
    {
        proof {
            assert(table@.subrange(0, k + 1) =~= table@.subrange(0, k as int).push(table@[k as int]));
            table@.subrange(0, k as int).lemma_filter_push(table@[k as int], f);
            table@.subrange(0, k as int).lemma_filter_len(f);
        }
        if table[k].1.0 >= n {
            count = count + 1;
        }
        k = k + 1;
    }
    proof {
        assert(table@.subrange(0, table@.len() as int) =~= table@);
    }
    count
}

/// Log Matching survives a proposal: a leader appends an entry of its term
/// right after its last one. Where another log matched the leader's and
/// holds no entry of that term at that index (only the term's single leader
/// creates entries of the term), it still matches the longer log.
pub proof fn lemma_propose_keeps_matching(other: LogView, leader: LogView, e: EntryView)
    requires
        other.well_formed(),
        leader.well_formed(),
        logs_match(other, leader),
        e.index == leader.last_index() + 1,
        other.term_of(leader.last_index() + 1) != Some(e.term as nat),
    ensures
        logs_match(other, LogView { snapshot: leader.snapshot, entries: leader.entries.push(e) }),
{
    let l2 = LogView { snapshot: leader.snapshot, entries: leader.entries.push(e) };
    assert forall|i: nat, j: nat|
        #![trigger other.term_of(i), l2.term_of(i), other.entry_at(j), l2.entry_at(j)]
        other.term_of(i) is Some && other.term_of(i) == l2.term_of(i) && j <= i && other.holds(j)
            && l2.holds(j) implies other.entry_at(j) == l2.entry_at(j) by {
        assert(i <= leader.last_index());
        assert(l2.term_of(i) == leader.term_of(i));
        assert(leader.holds(j));
        assert(l2.entry_at(j) == leader.entry_at(j));
        assert(other.entry_at(j) == leader.entry_at(j));
    }
}

} // verus!
