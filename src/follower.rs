//! The follower's side of replication: the consistency check and conflict
//! resolution of AppendEntries.

use crate::error::RaftError;
use crate::log::{entry_views, numbered_from, LogStorage, LogView};
use crate::node::RaftCore;
use crate::rpc::{AppendEntriesRequest, AppendEntriesResponse};
use crate::state::RaftRole;
use crate::types::{copy_entries, Entry, EntryView, LogIndex};
use vstd::prelude::*;

verus! {

impl RaftCore {
    /// Whether the log holds the entry just before the request's entries.
    fn holds_prev(&self, req: &AppendEntriesRequest) -> (r: bool)
        requires
            self.wf(),
        ensures
            r == consistent_at(self.log@, req.prev_log_index.0 as nat, req.prev_log_term.0 as nat),
    {
        let snap_index = match self.log.get_snapshot() {
            Some(s) => s.metadata.last_included_index.0,
            None => 0,
        };
        if req.prev_log_index.0 == 0 && snap_index == 0 {
            true
        } else {
            match self.log.get_term(req.prev_log_index) {
                Ok(Some(t)) => t.0 == req.prev_log_term.0,
                _ => false,
            }
        }
    }

    /// Replaces the log from the entry at `prev_log_index + 1 + c`, the
    /// first that differs, with the request's entries from position `c`.
    fn replace_suffix(&mut self, req: &AppendEntriesRequest, c: usize)
        requires
            old(self).wf(),
            well_numbered(req),
            consistent_at(old(self).log@, req.prev_log_index.0 as nat, req.prev_log_term.0 as nat),
            c == first_mismatch(old(self).log@, req.prev_log_index.0 as nat, entry_views(req.entries@), 0),
            c < req.entries@.len(),
            req.prev_log_index.0 + 1 + c > old(self).commit(),
        ensures
            final(self).wf(),
            final(self).log@ == merged(old(self).log@, req.prev_log_index.0 as nat, entry_views(req.entries@)),
            final(self).log@.last_index() == req.prev_log_index.0 + req.entries@.len(),
            final(self).state == old(self).state,
            final(self).config == old(self).config,
            final(self).election_elapsed == old(self).election_elapsed,
            final(self).election_timeout == old(self).election_timeout,
    {
        let ghost pre = self.log@;
        let ghost es = entry_views(req.entries@);
        let p = req.prev_log_index.0;
        let n = req.entries.len();
        proof {
            lemma_first_mismatch_prefix(pre, p as nat, es, 0);
            if c > 0 {
                assert(pre.term_of((p + 1 + (c - 1)) as nat) == Some(es[c - 1].term as nat));
            }
        }
        let at = p + 1 + c as u64;
        let _ = self.log.delete_from(LogIndex(at));
        proof {
            if !pre.holds(at as nat) {
                assert(pre.truncated(at as nat).entries =~= pre.entries);
            }
            assert(self.log@ == pre.truncated(at as nat));
        }
        let rest = copy_entries(&req.entries, c, n);
        proof {
            assert(self.log@.last_index() == p + c);
            assert(forall|k: int| 0 <= k < rest@.len() ==> #[trigger] rest@[k].index == req.entries@[c + k].index);
            assert(numbered_from(rest@, self.log@.last_index() + 1));
        }
        let appended = self.log.append(rest);
        proof {
            assert(appended is Ok);
            assert(entry_views(rest@) =~= es.skip(c as int));
            assert(self.log@.entries =~= merged(pre, p as nat, es).entries);
        }
    }

    /// The first position of `entries` whose term the log does not hold
    /// right after `p`.
    fn find_mismatch(&self, p: u64, entries: &Vec<Entry>) -> (r: usize)
        requires
            self.wf(),
            p + entries@.len() < u64::MAX,
        ensures
            r == first_mismatch(self.log@, p as nat, entry_views(entries@), 0),
    {
        let ghost es = entry_views(entries@);
        let mut k: usize = 0;
        while k < entries.len()
            invariant
                k <= entries@.len(),
                p + entries@.len() < u64::MAX,
                es == entry_views(entries@),
                first_mismatch(self.log@, p as nat, es, 0) == first_mismatch(
                    self.log@,
                    p as nat,
                    es,
                    k as nat,
                ),
            decreases entries@.len() - k,
        {
            let t = self.log.get_term(LogIndex(p + 1 + k as u64));
            let same = match t {
                Ok(Some(t)) => t.0 == entries[k].term.0,
                _ => false,
            };
            if !same {
                return k;
            }
            k = k + 1;
        }
        k
    }

    /// Answers an AppendEntries from a leader.
    ///
    /// A request from an older term is refused with no change, and so is one
    /// of the node's own term while it leads. Otherwise the node follows
    /// `req.leader_id` in `req.term` (stepping down where it was a candidate
    /// or the term is newer) and restarts its election timer. The entries are
    /// taken when they are well numbered and the log holds the entry before
    /// them: entries the log holds with the same term stay, and from the
    /// first that differs the rest of the log is replaced. The commit index
    /// then moves up to `min(leader_commit, index of the last new entry)`.
    /// A request that would remove a committed entry is an
    /// `InvariantViolation` and leaves the log alone.
    pub fn handle_append_entries(&mut self, req: &AppendEntriesRequest, random: u64) -> (r: Result<
        AppendEntriesResponse,
        RaftError,
    >)
        requires
            old(self).wf(),
        ensures
            old(self).steps_to(final(self)),
            final(self).term() == if req.term.0 > old(self).term() {
                req.term.0 as nat
            } else {
                old(self).term()
            },
            req.term.0 >= old(self).term() && !(old(self).state.role == RaftRole::Leader
                && req.term.0 == old(self).term()) ==> final(self).state.role == RaftRole::Follower
                && final(self).state.leader_id == Some(req.leader_id) && final(self).election_elapsed
                == 0,
            !accepts(old(self), req) ==> (r matches Ok(resp) && !resp.success && resp.term.0
                == final(self).term() && resp.commit_index.0 == final(self).commit()),
            !accepts(old(self), req) ==> final(self).log@ == old(self).log@ && final(self).commit()
                == old(self).commit(),
            req.term.0 < old(self).term() ==> *final(self) == *old(self),
            accepts(old(self), req) && removes_committed(old(self), req) ==> r == Err::<
                AppendEntriesResponse,
                RaftError,
            >(
                RaftError::InvariantViolation(
                    LogIndex(
                        (req.prev_log_index.0 + 1 + first_mismatch(
                            old(self).log@,
                            req.prev_log_index.0 as nat,
                            entry_views(req.entries@),
                            0,
                        )) as u64,
                    ),
                ),
            ) && final(self).log@ == old(self).log@ && final(self).commit() == old(self).commit(),
            accepts(old(self), req) && !removes_committed(old(self), req) ==> {
                &&& r matches Ok(resp)
                &&& resp.success
                &&& resp.term.0 == final(self).term()
                &&& resp.match_index == Some(LogIndex(final(self).log@.last_index() as u64))
                &&& resp.commit_index.0 == final(self).commit()
                &&& final(self).log@ == merged(
                    old(self).log@,
                    req.prev_log_index.0 as nat,
                    entry_views(req.entries@),
                )
                &&& final(self).commit() == if req.leader_commit.0 > old(self).commit()
                    && req.prev_log_index.0 + req.entries@.len() > old(self).commit() {
                    if req.leader_commit.0 <= req.prev_log_index.0 + req.entries@.len() {
                        req.leader_commit.0 as nat
                    } else {
                        (req.prev_log_index.0 + req.entries@.len()) as nat
                    }
                } else {
                    old(self).commit()
                }
            },
            old(self).state.role == RaftRole::Leader && final(self).term() == old(self).term()
                ==> final(self).log@ == old(self).log@,
    {
        let term = self.state.persistent.current_term;
        if req.term.0 < term.0 || (self.state.role == RaftRole::Leader && req.term.0 == term.0) {
            return Ok(
                AppendEntriesResponse {
                    term,
                    success: false,
                    match_index: None,
                    commit_index: self.state.volatile.commit_index,
                },
            );
        }
        if req.term.0 > term.0 || self.state.role == RaftRole::Candidate {
            self.state.become_follower(req.term, Some(req.leader_id));
        }
        self.state.leader_id = Some(req.leader_id);
        self.reset_election_timer(random);
        let term = self.state.persistent.current_term;
        let commit = self.state.volatile.commit_index;
        let p = req.prev_log_index.0;
        let n = req.entries.len();
        if !check_numbering(req) {
            return Ok(AppendEntriesResponse { term, success: false, match_index: None, commit_index: commit });
        }
        if !self.holds_prev(req) {
            let last = self.log.last_index();
            return Ok(AppendEntriesResponse { term, success: false, match_index: Some(last), commit_index: commit });
        }
        let c = self.find_mismatch(p, &req.entries);
        if c < n {
            let at = p + 1 + c as u64;
            if at <= commit.0 {
                return Err(RaftError::InvariantViolation(LogIndex(at)));
            }
            self.replace_suffix(req, c);
        } else {
            proof {
                lemma_first_mismatch_prefix(self.log@, p as nat, entry_views(req.entries@), 0);
                if n > 0 {
                    assert(self.log@.term_of((p + 1 + (n - 1)) as nat) == Some(
                        entry_views(req.entries@)[n - 1].term as nat,
                    ));
                }
            }
        }
        // The commit index moves up to the last new entry at most.
        let last_new = p + n as u64;
        if req.leader_commit.0 > commit.0 && last_new > commit.0 {
            self.state.volatile.commit_index = if req.leader_commit.0 <= last_new {
                req.leader_commit
            } else {
                LogIndex(last_new)
            };
        }
        let last = self.log.last_index();
        Ok(
            AppendEntriesResponse {
                term,
                success: true,
                match_index: Some(last),
                commit_index: self.state.volatile.commit_index,
            },
        )
    }
}

/// The first position `k' >= k` of `es` whose term the log does not hold at
/// index `p + 1 + k'`; `es.len()` where it holds them all.
pub open spec fn first_mismatch(log: LogView, p: nat, es: Seq<EntryView>, k: nat) -> nat
    decreases es.len() - k,
{
    if k >= es.len() {
        es.len()
    } else if log.term_of(p + 1 + k) == Some(es[k as int].term as nat) {
        first_mismatch(log, p, es, k + 1)
    } else {
        k
    }
}

/// The log after taking `es` right after index `p`: entries it already holds
/// with the same term stay; from the first that differs or is missing, the
/// rest of the log gives way to the rest of `es`.
pub open spec fn merged(log: LogView, p: nat, es: Seq<EntryView>) -> LogView {
    let c = first_mismatch(log, p, es, 0);
    if c >= es.len() {
        log
    } else {
        LogView { snapshot: log.snapshot, entries: log.truncated(p + 1 + c).entries + es.skip(c as int) }
    }
}

/// Whether the log holds the entry just before new ones at `p` with term `t`;
/// index 0 stands before every log that has no snapshot.
pub open spec fn consistent_at(log: LogView, p: nat, t: nat) -> bool {
    (p == 0 && log.snap_index() == 0) || log.term_of(p) == Some(t)
}

/// Whether the entries of `req` are numbered on from its `prev_log_index`
/// and leave room for one more index.
pub open spec fn well_numbered(req: &AppendEntriesRequest) -> bool {
    &&& req.prev_log_index.0 + req.entries@.len() < u64::MAX
    &&& numbered_from(req.entries@, (req.prev_log_index.0 + 1) as nat)
}

/// Whether a node in state `core` takes the entries of `req`: the term is
/// current, the node is not itself the leader of that term, the entries are
/// well numbered, and the log holds the entry before them.
pub open spec fn accepts(core: &RaftCore, req: &AppendEntriesRequest) -> bool {
    &&& req.term.0 >= core.term()
    &&& !(core.state.role == RaftRole::Leader && req.term.0 == core.term())
    &&& well_numbered(req)
    &&& consistent_at(core.log@, req.prev_log_index.0 as nat, req.prev_log_term.0 as nat)
}

/// Whether taking the entries of `req` would remove a committed entry.
pub open spec fn removes_committed(core: &RaftCore, req: &AppendEntriesRequest) -> bool {
    let es = entry_views(req.entries@);
    let c = first_mismatch(core.log@, req.prev_log_index.0 as nat, es, 0);
    c < es.len() && req.prev_log_index.0 + 1 + c <= core.commit()
}

/// Every position before the first mismatch matches.
proof fn lemma_first_mismatch_prefix(log: LogView, p: nat, es: Seq<EntryView>, k: nat)
    requires
        k <= es.len(),
    ensures
        k <= first_mismatch(log, p, es, k) <= es.len(),
        forall|i: nat|
            k <= i < first_mismatch(log, p, es, k) ==> log.term_of(p + 1 + i) == Some(
                es[i as int].term as nat,
            ),
        first_mismatch(log, p, es, k) < es.len() ==> log.term_of(
            p + 1 + first_mismatch(log, p, es, k),
        ) != Some(es[first_mismatch(log, p, es, k) as int].term as nat),
    decreases es.len() - k,
{
    if k < es.len() && log.term_of(p + 1 + k) == Some(es[k as int].term as nat) {
        lemma_first_mismatch_prefix(log, p, es, k + 1);
    }
}

/// The step of Log Matching that a follower takes: once it has taken entries
/// `es` right after index `p`, where its log held the entry at `p` (or `p` is
/// 0 before any snapshot), its log holds each of `es` at its index with its
/// term, and still holds every entry up to `p` unchanged.
pub proof fn lemma_merged_agrees(log: LogView, p: nat, es: Seq<EntryView>)
    requires
        log.well_formed(),
        (p == 0 && log.snap_index() == 0) || log.term_of(p) is Some,
    ensures
        merged(log, p, es).snapshot == log.snapshot,
        forall|k: int|
            0 <= k < es.len() ==> merged(log, p, es).term_of((p + 1 + k) as nat) == Some(
                (#[trigger] es[k]).term as nat,
            ),
        forall|i: nat|
            #![trigger merged(log, p, es).entry_at(i)]
            log.holds(i) && i <= p ==> merged(log, p, es).holds(i) && merged(log, p, es).entry_at(i)
                == log.entry_at(i),
{
    let m = merged(log, p, es);
    let c = first_mismatch(log, p, es, 0);
    lemma_first_mismatch_prefix(log, p, es, 0);
    assert(log.snap_index() <= p <= log.last_index());
    if c > 0 {
        assert(log.term_of((p + 1 + (c - 1)) as nat) == Some(es[c - 1].term as nat));
    }
    assert(p + c <= log.last_index());
    assert forall|k: int| 0 <= k < es.len() implies m.term_of((p + 1 + k) as nat) == Some(
        (#[trigger] es[k]).term as nat,
    ) by {
        assert(log.term_of((p + 1 + k as nat) as nat) == Some(es[k].term as nat) || k >= c);
        if c < es.len() {
            assert(m.entries.len() == p + 1 + c - log.snap_index() - 1 + es.len() - c);
            if k < c {
                assert(m.entries[p + 1 + k - log.snap_index() - 1] == log.entries[p + 1 + k
                    - log.snap_index() - 1]);
            } else {
                assert(m.entries[p + 1 + k - log.snap_index() - 1] == es[k]);
            }
        }
    }
    assert forall|i: nat| #![trigger m.entry_at(i)]
        log.holds(i) && i <= p implies m.holds(i) && m.entry_at(i) == log.entry_at(i) by {
        if c < es.len() {
            assert(m.entries[i - log.snap_index() - 1] == log.entries[i - log.snap_index() - 1]);
        }
    }
}

/// Whether the request's entries are numbered on from its `prev_log_index`.
fn check_numbering(req: &AppendEntriesRequest) -> (r: bool)
    ensures
        r == well_numbered(req),
{
    let p = req.prev_log_index.0;
    let n = req.entries.len();
    if p >= u64::MAX - n as u64 {
        return false;
    }
    let mut k: usize = 0;
    while k < n
        invariant
            k <= n == req.entries@.len(),
            p == req.prev_log_index.0,
            p + n < u64::MAX,
            forall|j: int| 0 <= j < k ==> (#[trigger] req.entries@[j]).index.0 == p + 1 + j,
        decreases n - k,
    {
        if req.entries[k].index.0 != p + 1 + k as u64 {
            proof {
                assert(req.entries@[k as int].index.0 != p + 1 + k);
            }
            return false;
        }
        k = k + 1;
    }
    true
}

/// Log Matching between two logs: wherever both have the same term at an
/// index, they hold the same entries at every index up to it that both hold.
pub open spec fn logs_match(a: LogView, b: LogView) -> bool {
    forall|i: nat, j: nat|
        #![trigger a.term_of(i), b.term_of(i), a.entry_at(j), b.entry_at(j)]
        a.term_of(i) is Some && a.term_of(i) == b.term_of(i) && j <= i && a.holds(j) && b.holds(j)
            ==> a.entry_at(j) == b.entry_at(j)
}

/// Log Matching survives AppendEntries: when a follower's log matches the
/// leader's, and it takes the leader's entries `es` that follow index `p`
/// in the leader's log, with the leader's term at `p` (or `p` is 0 before
/// any snapshot), its new log still matches the leader's.
pub proof fn lemma_append_keeps_matching(follower: LogView, leader: LogView, p: nat, es: Seq<
    EntryView,
>)
    requires
        follower.well_formed(),
        leader.well_formed(),
        logs_match(follower, leader),
        leader.snap_index() <= p,
        p + es.len() <= leader.last_index(),
        es == leader.entries.subrange(
            p - leader.snap_index(),
            p - leader.snap_index() + es.len(),
        ),
        (p == 0 && follower.snap_index() == 0) || (follower.term_of(p) is Some
            && follower.term_of(p) == leader.term_of(p)),
    ensures
        logs_match(merged(follower, p, es), leader),
{
    let m = merged(follower, p, es);
    let c = first_mismatch(follower, p, es, 0);
    lemma_merged_agrees(follower, p, es);
    lemma_first_mismatch_prefix(follower, p, es, 0);
    let fs = follower.snap_index();
    assert(fs <= p <= follower.last_index());
    if c > 0 {
        assert(follower.term_of((p + 1 + (c - 1)) as nat) == Some(es[c - 1].term as nat));
    }
    assert(p + c <= follower.last_index());
    assert(m.snap_index() == fs);
    assert(c < es.len() ==> m.last_index() == p + es.len());
    assert(c >= es.len() ==> m == follower);
    assert forall|i: nat, j: nat|
        #![trigger m.term_of(i), leader.term_of(i), m.entry_at(j), leader.entry_at(j)]
        m.term_of(i) is Some && m.term_of(i) == leader.term_of(i) && j <= i && m.holds(j)
            && leader.holds(j) implies m.entry_at(j) == leader.entry_at(j) by {
        if c >= es.len() {
            assert(follower.term_of(i) == leader.term_of(i));
            assert(follower.entry_at(j) == leader.entry_at(j));
        } else if j <= p {
            assert(follower.holds(j));
            assert(m.entry_at(j) == follower.entry_at(j));
            assert(follower.term_of(p) == leader.term_of(p));
            assert(follower.entry_at(j) == leader.entry_at(j));
        } else if j <= p + c {
            let k = (j - p - 1) as int;
            assert(follower.term_of((p + 1 + k) as nat) == Some(es[k].term as nat));
            assert(m.entries[j - fs - 1] == follower.entries[j - fs - 1]);
            assert(follower.holds(j));
            assert(es[k] == leader.entry_at(j));
            assert(follower.term_of(j) == leader.term_of(j));
            assert(follower.entry_at(j) == leader.entry_at(j));
        } else {
            let k = (j - p - 1) as int;
            assert(m.entries[j - fs - 1] == es[k]);
            assert(es[k] == leader.entry_at(j));
        }
    }
}

} // verus!
