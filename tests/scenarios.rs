use raft_core::{
    AppendEntriesRequest, Entry, LogIndex, LogStorage, NodeId, PersistentState, RaftConfig,
    RaftCore, RaftError, RaftRole, ReplicationRequest, RequestVoteRequest, Snapshot,
    SnapshotMetadata, StateMachine, Term,
};

/// Records every command it applies; its state is the list of commands.
#[derive(Default)]
struct Recorder {
    applied: Vec<Vec<u8>>,
}

impl StateMachine for Recorder {
    fn apply(&mut self, command: &[u8]) -> Vec<u8> {
        self.applied.push(command.to_vec());
        b"ok".to_vec()
    }

    fn snapshot(&self) -> Vec<u8> {
        self.applied.join(&b","[..])
    }

    fn restore(&mut self, snapshot: &[u8]) {
        self.applied = snapshot.split(|b| *b == b',').map(|s| s.to_vec()).collect();
    }
}

fn ids(n: u64) -> Vec<NodeId> {
    (1..=n).map(NodeId).collect()
}

fn node(id: u64, n: u64) -> RaftCore {
    RaftCore::new(NodeId(id), ids(n), RaftConfig::default(), 0)
}

/// Elects `nodes[leader]` by asking everyone else for votes.
fn elect(nodes: &mut [RaftCore], leader: usize) {
    let requests = nodes[leader].start_election(0);
    for (peer, req) in requests {
        let p = (peer.0 - 1) as usize;
        if p < nodes.len() {
            let resp = nodes[p].handle_request_vote(&req, 0);
            nodes[leader].handle_request_vote_response(peer, &resp);
        }
    }
    assert_eq!(nodes[leader].state.role, RaftRole::Leader);
}

/// One round of replication from `nodes[leader]` to each reachable peer.
fn replicate(nodes: &mut [RaftCore], leader: usize, up: &[bool]) {
    let peers = nodes[leader].state.other_peers();
    for peer in peers {
        let p = (peer.0 - 1) as usize;
        if !up[p] {
            continue;
        }
        match nodes[leader].replication_request(peer) {
            Some(ReplicationRequest::Append(req)) => {
                let resp = nodes[p].handle_append_entries(&req, 0).unwrap();
                nodes[leader].handle_append_entries_response(peer, req.prev_log_index, req.entries.len(), &resp);
            }
            Some(ReplicationRequest::Snapshot(_)) => panic!("no snapshot expected"),
            None => {}
        }
    }
}

fn entry(term: u64, index: u64, cmd: &[u8]) -> Entry {
    Entry::new(Term(term), LogIndex(index), cmd.to_vec())
}

#[test]
fn single_node_cluster_elects_itself_and_applies_once() {
    let mut n = node(1, 1);
    let timeout = n.election_timeout;
    let requests = n.tick(timeout, 0);
    assert!(requests.is_empty());
    assert_eq!(n.state.role, RaftRole::Leader);
    assert_eq!(n.state.persistent.current_term, Term(1));
    assert_eq!(n.propose(b"x".to_vec()).unwrap(), LogIndex(1));
    assert_eq!(n.state.volatile.commit_index, LogIndex(1));
    let mut sm = Recorder::default();
    let results = n.apply_committed(&mut sm);
    assert_eq!(results, vec![b"ok".to_vec()]);
    assert_eq!(sm.applied, vec![b"x".to_vec()]);
    assert!(n.apply_committed(&mut sm).is_empty());
    assert_eq!(sm.applied.len(), 1);
}

#[test]
fn tick_before_timeout_does_nothing() {
    let mut n = node(1, 3);
    let timeout = n.election_timeout;
    assert!(n.tick(timeout - 1, 0).is_empty());
    assert_eq!(n.state.role, RaftRole::Follower);
    let reqs = n.tick(1, 0);
    assert_eq!(reqs.len(), 2);
    assert_eq!(reqs[0].0, NodeId(2));
    assert_eq!(reqs[1].1.term, Term(1));
    assert_eq!(n.state.role, RaftRole::Candidate);
}

#[test]
fn three_node_happy_path() {
    let mut nodes = vec![node(1, 3), node(2, 3), node(3, 3)];
    elect(&mut nodes, 0);
    assert_eq!(nodes[0].state.persistent.current_term, Term(1));
    for cmd in [b"A", b"B", b"C"] {
        nodes[0].propose(cmd.to_vec()).unwrap();
    }
    let up = [true, true, true];
    replicate(&mut nodes, 0, &up);
    assert_eq!(nodes[0].state.volatile.commit_index, LogIndex(3));
    replicate(&mut nodes, 0, &up);
    for n in nodes.iter_mut() {
        assert_eq!(n.state.volatile.commit_index, LogIndex(3));
        let mut sm = Recorder::default();
        n.apply_committed(&mut sm);
        assert_eq!(sm.applied, vec![b"A".to_vec(), b"B".to_vec(), b"C".to_vec()]);
    }
}

#[test]
fn leader_failover_and_rejoin() {
    let mut nodes = vec![node(1, 3), node(2, 3), node(3, 3)];
    elect(&mut nodes, 0);
    nodes[0].propose(b"e1".to_vec()).unwrap();
    let all = [true, true, true];
    replicate(&mut nodes, 0, &all);
    replicate(&mut nodes, 0, &all);
    assert_eq!(nodes[0].state.volatile.commit_index, LogIndex(1));
    // Node 1 crashes: keep only what stable storage holds.
    let crashed = std::mem::replace(&mut nodes[0], node(1, 3));
    let saved_term = crashed.state.persistent.clone();
    let saved_log = crashed.log;
    let up = [false, true, true];
    let requests = nodes[1].start_election(0);
    for (peer, req) in requests {
        if peer == NodeId(3) {
            let resp = nodes[2].handle_request_vote(&req, 0);
            nodes[1].handle_request_vote_response(peer, &resp);
        }
    }
    assert_eq!(nodes[1].state.role, RaftRole::Leader);
    assert!(nodes[1].state.persistent.current_term >= Term(2));
    nodes[1].propose(b"e2".to_vec()).unwrap();
    replicate(&mut nodes, 1, &up);
    replicate(&mut nodes, 1, &up);
    for p in [1usize, 2] {
        let mut sm = Recorder::default();
        nodes[p].apply_committed(&mut sm);
        assert_eq!(sm.applied, vec![b"e1".to_vec(), b"e2".to_vec()]);
    }
    // Node 1 restarts from what it persisted and catches up.
    nodes[0] = RaftCore::recover(NodeId(1), ids(3), RaftConfig::default(), saved_term, saved_log, 0);
    assert_eq!(nodes[0].state.role, RaftRole::Follower);
    let all = [true, true, true];
    for _ in 0..4 {
        replicate(&mut nodes, 1, &all);
    }
    let mut sm = Recorder::default();
    nodes[0].apply_committed(&mut sm);
    assert_eq!(sm.applied, vec![b"e1".to_vec(), b"e2".to_vec()]);
    assert_eq!(nodes[0].log.last_index(), LogIndex(2));
}

#[test]
fn conflict_resolution_truncates_and_appends() {
    let mut f = node(2, 3);
    f.log.append(vec![entry(1, 1, b"a"), entry(1, 2, b"b"), entry(2, 3, b"c")]).unwrap();
    f.state.persistent.current_term = Term(2);
    let req = AppendEntriesRequest {
        term: Term(3),
        leader_id: NodeId(1),
        prev_log_index: LogIndex(2),
        prev_log_term: Term(1),
        entries: vec![entry(3, 3, b"d")],
        leader_commit: LogIndex(0),
    };
    let resp = f.handle_append_entries(&req, 0).unwrap();
    assert!(resp.success);
    assert_eq!(resp.match_index, Some(LogIndex(3)));
    assert_eq!(f.log.get_term(LogIndex(3)).unwrap(), Some(Term(3)));
    assert_eq!(f.log.get(LogIndex(3)).unwrap().unwrap().command, b"d".to_vec());
    assert_eq!(f.log.last_index(), LogIndex(3));
}

#[test]
fn entries_already_held_are_kept() {
    let mut f = node(2, 3);
    f.log.append(vec![entry(1, 1, b"a"), entry(1, 2, b"b"), entry(1, 3, b"c")]).unwrap();
    let req = AppendEntriesRequest {
        term: Term(1),
        leader_id: NodeId(1),
        prev_log_index: LogIndex(0),
        prev_log_term: Term(0),
        entries: vec![entry(1, 1, b"a")],
        leader_commit: LogIndex(3),
    };
    let resp = f.handle_append_entries(&req, 0).unwrap();
    assert!(resp.success);
    assert_eq!(f.log.last_index(), LogIndex(3));
    // The commit index stops at the last entry the request vouched for.
    assert_eq!(f.state.volatile.commit_index, LogIndex(1));
}

#[test]
fn append_entries_rejections() {
    let mut f = node(2, 3);
    f.state.persistent.current_term = Term(4);
    let mut req = AppendEntriesRequest::heartbeat(Term(3), NodeId(1), LogIndex(0), Term(0), LogIndex(0));
    let resp = f.handle_append_entries(&req, 0).unwrap();
    assert!(!resp.success);
    assert_eq!(resp.term, Term(4));
    req.term = Term(4);
    req.prev_log_index = LogIndex(5);
    req.prev_log_term = Term(4);
    let resp = f.handle_append_entries(&req, 0).unwrap();
    assert!(!resp.success);
    assert_eq!(resp.match_index, Some(LogIndex(0)));
    assert_eq!(f.state.leader_id, Some(NodeId(1)));
    // Entries numbered wrongly are refused.
    req.prev_log_index = LogIndex(0);
    req.entries = vec![entry(4, 2, b"x")];
    let resp = f.handle_append_entries(&req, 0).unwrap();
    assert!(!resp.success);
    assert_eq!(f.log.last_index(), LogIndex(0));
}

#[test]
fn removing_a_committed_entry_is_an_invariant_violation() {
    let mut f = node(2, 3);
    let req = AppendEntriesRequest {
        term: Term(1),
        leader_id: NodeId(1),
        prev_log_index: LogIndex(0),
        prev_log_term: Term(0),
        entries: vec![entry(1, 1, b"a")],
        leader_commit: LogIndex(1),
    };
    f.handle_append_entries(&req, 0).unwrap();
    assert_eq!(f.state.volatile.commit_index, LogIndex(1));
    let bad = AppendEntriesRequest {
        term: Term(2),
        leader_id: NodeId(3),
        prev_log_index: LogIndex(0),
        prev_log_term: Term(0),
        entries: vec![entry(2, 1, b"z")],
        leader_commit: LogIndex(0),
    };
    let err = f.handle_append_entries(&bad, 0).unwrap_err();
    assert!(matches!(err, RaftError::InvariantViolation(LogIndex(1))));
    assert_eq!(f.log.get(LogIndex(1)).unwrap().unwrap().command, b"a".to_vec());
}

#[test]
fn stale_vote_rejection() {
    let mut n = node(1, 3);
    n.state.persistent.current_term = Term(5);
    n.state.persistent.voted_for = Some(NodeId(2));
    let req = RequestVoteRequest {
        term: Term(5),
        candidate_id: NodeId(3),
        last_log_index: LogIndex(0),
        last_log_term: Term(0),
    };
    let resp = n.handle_request_vote(&req, 0);
    assert!(!resp.vote_granted);
    assert_eq!(resp.term, Term(5));
    assert_eq!(n.state.persistent.voted_for, Some(NodeId(2)));
}

#[test]
fn vote_needs_an_up_to_date_log() {
    let mut n = node(1, 3);
    n.log.append(vec![entry(2, 1, b"a")]).unwrap();
    n.state.persistent.current_term = Term(2);
    let older = RequestVoteRequest { term: Term(3), candidate_id: NodeId(2), last_log_index: LogIndex(5), last_log_term: Term(1) };
    let resp = n.handle_request_vote(&older, 0);
    assert!(!resp.vote_granted);
    assert_eq!(resp.term, Term(3));
    assert_eq!(n.state.persistent.voted_for, None);
    let same = RequestVoteRequest { term: Term(3), candidate_id: NodeId(2), last_log_index: LogIndex(1), last_log_term: Term(2) };
    assert!(n.handle_request_vote(&same, 0).vote_granted);
    assert_eq!(n.state.persistent.voted_for, Some(NodeId(2)));
    // A repeated request from the same candidate is granted again.
    assert!(n.handle_request_vote(&same, 0).vote_granted);
    let stale = RequestVoteRequest { term: Term(1), candidate_id: NodeId(3), last_log_index: LogIndex(9), last_log_term: Term(9) };
    assert!(!n.handle_request_vote(&stale, 0).vote_granted);
}

#[test]
fn snapshot_catch_up() {
    // A leader whose log starts after a snapshot at index 100.
    let mut leader = node(1, 2);
    let leader_state = b"s1,s2".to_vec();
    leader
        .log
        .set_snapshot(Snapshot {
            metadata: SnapshotMetadata {
                last_included_index: LogIndex(100),
                last_included_term: Term(1),
                configuration: ids(2),
            },
            data: leader_state.clone(),
        })
        .unwrap();
    leader.state.volatile.commit_index = LogIndex(100);
    leader.state.volatile.last_applied = LogIndex(100);
    leader.state.persistent.current_term = Term(1);
    let mut follower = node(2, 2);
    let entries: Vec<Entry> = (1..=10).map(|i| entry(1, i, b"old")).collect();
    follower.log.append(entries).unwrap();
    follower.state.persistent.current_term = Term(1);
    let reqs = leader.start_election(0);
    let resp = follower.handle_request_vote(&reqs[0].1, 0);
    assert!(!resp.vote_granted || leader.handle_request_vote_response(NodeId(2), &resp));
    assert_eq!(leader.state.role, RaftRole::Leader);
    let mut sm = Recorder::default();
    let mut snapshots = 0;
    for _ in 0..4 {
        match leader.replication_request(NodeId(2)) {
            Some(ReplicationRequest::Append(req)) => {
                let resp = follower.handle_append_entries(&req, 0).unwrap();
                leader.handle_append_entries_response(NodeId(2), req.prev_log_index, req.entries.len(), &resp);
            }
            Some(ReplicationRequest::Snapshot(req)) => {
                snapshots += 1;
                let resp = follower.handle_install_snapshot(&req, &mut sm, 0);
                leader.handle_install_snapshot_response(NodeId(2), req.last_included_index, &resp);
            }
            None => panic!("leader has a request for its peer"),
        }
    }
    assert_eq!(snapshots, 1);
    assert_eq!(follower.state.volatile.last_applied, LogIndex(100));
    assert_eq!(follower.state.volatile.commit_index, LogIndex(100));
    assert_eq!(follower.log.last_index(), LogIndex(100));
    assert!(follower.log.get(LogIndex(10)).unwrap().is_none());
    assert_eq!(sm.snapshot(), leader_state);
    let l = leader.state.leader_state.as_ref().unwrap();
    assert_eq!(l.get_match_index(NodeId(2)), Some(LogIndex(100)));
}

#[test]
fn snapshot_in_chunks() {
    let mut f = node(2, 2);
    let mut sm = Recorder::default();
    let mut req = raft_core::InstallSnapshotRequest {
        term: Term(1),
        leader_id: NodeId(1),
        last_included_index: LogIndex(5),
        last_included_term: Term(1),
        offset: 0,
        data: b"a,".to_vec(),
        done: false,
    };
    f.handle_install_snapshot(&req, &mut sm, 0);
    assert_eq!(f.state.volatile.commit_index, LogIndex(0));
    req.offset = 7;
    req.data = b"zz".to_vec();
    req.done = true;
    f.handle_install_snapshot(&req, &mut sm, 0);
    assert_eq!(f.state.volatile.commit_index, LogIndex(0));
    req.offset = 2;
    req.data = b"b".to_vec();
    let resp = f.handle_install_snapshot(&req, &mut sm, 0);
    assert_eq!(resp.term, Term(1));
    assert_eq!(f.state.volatile.last_applied, LogIndex(5));
    assert_eq!(sm.applied, vec![b"a".to_vec(), b"b".to_vec()]);
    assert_eq!(f.log.get_snapshot().unwrap().data, b"a,b".to_vec());
}

#[test]
fn same_term_commit_rule() {
    let mut nodes = vec![node(1, 3), node(2, 3), node(3, 3)];
    let old: Vec<Entry> = (1..=5).map(|i| entry(2, i, b"old")).collect();
    nodes[0].log.append(old).unwrap();
    nodes[0].state.persistent.current_term = Term(2);
    nodes[1].state.persistent.current_term = Term(2);
    nodes[2].state.persistent.current_term = Term(2);
    elect(&mut nodes, 0);
    assert_eq!(nodes[0].state.persistent.current_term, Term(3));
    // Index 5, of term 2, reaches a majority: not committed by count alone.
    let ok = raft_core::AppendEntriesResponse { term: Term(3), success: true, match_index: Some(LogIndex(5)), commit_index: LogIndex(0) };
    nodes[0].handle_append_entries_response(NodeId(2), LogIndex(0), 5, &ok);
    assert_eq!(nodes[0].state.volatile.commit_index, LogIndex(0));
    // An entry of term 3 at index 6 reaching the majority commits both.
    nodes[0].propose(b"new".to_vec()).unwrap();
    assert_eq!(nodes[0].state.volatile.commit_index, LogIndex(0));
    nodes[0].handle_append_entries_response(NodeId(2), LogIndex(5), 1, &ok);
    assert_eq!(nodes[0].state.volatile.commit_index, LogIndex(6));
}

#[test]
fn proposal_on_follower_is_refused() {
    let mut n = node(2, 3);
    n.state.leader_id = Some(NodeId(1));
    let err = n.propose(b"x".to_vec()).unwrap_err();
    assert!(matches!(err, RaftError::NotLeader(Some(NodeId(1)))));
    assert_eq!(n.log.last_index(), LogIndex(0));
}

#[test]
fn failed_append_steps_next_index_back() {
    let mut nodes = vec![node(1, 3), node(2, 3), node(3, 3)];
    let prior: Vec<Entry> = (1..=8).map(|i| entry(0, i, b"p")).collect();
    nodes[0].log.append(prior).unwrap();
    elect(&mut nodes, 0);
    let no = raft_core::AppendEntriesResponse { term: Term(1), success: false, match_index: Some(LogIndex(3)), commit_index: LogIndex(0) };
    nodes[0].handle_append_entries_response(NodeId(2), LogIndex(8), 0, &no);
    assert_eq!(nodes[0].state.leader_state.as_ref().unwrap().get_next_index(NodeId(2)), Some(LogIndex(4)));
    let no_hint = raft_core::AppendEntriesResponse { term: Term(1), success: false, match_index: None, commit_index: LogIndex(0) };
    nodes[0].handle_append_entries_response(NodeId(2), LogIndex(3), 0, &no_hint);
    assert_eq!(nodes[0].state.leader_state.as_ref().unwrap().get_next_index(NodeId(2)), Some(LogIndex(3)));
    // A reply from a newer term ends the leadership.
    let newer = raft_core::AppendEntriesResponse { term: Term(7), success: false, match_index: None, commit_index: LogIndex(0) };
    nodes[0].handle_append_entries_response(NodeId(3), LogIndex(3), 0, &newer);
    assert_eq!(nodes[0].state.role, RaftRole::Follower);
    assert_eq!(nodes[0].state.persistent.current_term, Term(7));
}

#[test]
fn append_request_respects_entry_and_byte_caps() {
    let mut config = RaftConfig::default();
    config.max_append_entries = 3;
    config.max_append_bytes = 5;
    let mut l = RaftCore::new(NodeId(1), ids(2), config, 0);
    let mut f = node(2, 2);
    let reqs = l.start_election(0);
    let resp = f.handle_request_vote(&reqs[0].1, 0);
    l.handle_request_vote_response(NodeId(2), &resp);
    for c in [&b"aa"[..], b"bb", b"cc", b"dd"] {
        l.propose(c.to_vec()).unwrap();
    }
    l.propose(b"eeeeeeee".to_vec()).unwrap();
    // Up to 3 entries, and past the first at most 5 bytes of commands.
    match l.replication_request(NodeId(2)) {
        Some(ReplicationRequest::Append(req)) => {
            assert_eq!(req.prev_log_index, LogIndex(0));
            assert_eq!(req.prev_log_term, Term(0));
            assert_eq!(req.entries.len(), 2);
            assert_eq!(req.entries[1].command, b"bb".to_vec());
        }
        _ => panic!("expected an AppendEntries"),
    }
    let ls = l.state.leader_state.as_mut().unwrap();
    ls.set_next_index(NodeId(2), LogIndex(5));
    match l.replication_request(NodeId(2)) {
        Some(ReplicationRequest::Append(req)) => {
            assert_eq!(req.prev_log_index, LogIndex(4));
            assert_eq!(req.prev_log_term, Term(1));
            assert_eq!(req.entries.len(), 1);
            assert_eq!(req.entries[0].command, b"eeeeeeee".to_vec());
        }
        _ => panic!("expected an AppendEntries"),
    }
    l.state.leader_state.as_mut().unwrap().set_next_index(NodeId(2), LogIndex(9));
    match l.replication_request(NodeId(2)) {
        Some(ReplicationRequest::Append(req)) => {
            assert_eq!(req.prev_log_index, LogIndex(5));
            assert!(req.is_heartbeat());
            assert_eq!(req.leader_commit, LogIndex(0));
        }
        _ => panic!("expected an AppendEntries"),
    }
}

#[test]
fn snapshot_taken_after_threshold() {
    let mut config = RaftConfig::default();
    config.snapshot_threshold = 2;
    config.snapshot_trailing_logs = 1;
    let mut n = RaftCore::new(NodeId(1), ids(1), config, 0);
    n.start_election(0);
    for c in [&b"a"[..], b"b", b"c", b"d"] {
        n.propose(c.to_vec()).unwrap();
    }
    let mut sm = Recorder::default();
    assert!(!n.take_snapshot(&sm));
    n.apply_committed(&mut sm);
    assert!(n.take_snapshot(&sm));
    let s = n.log.get_snapshot().unwrap();
    assert_eq!(s.metadata.last_included_index, LogIndex(4));
    assert_eq!(s.metadata.last_included_term, Term(1));
    assert_eq!(s.data, b"a,b,c,d".to_vec());
    assert!(!n.take_snapshot(&sm));
    assert_eq!(n.log.last_index(), LogIndex(4));
    let _ = PersistentState::default();
}
