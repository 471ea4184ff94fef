use raft_core::{
    AppendEntriesRequest, CandidateState, Entry, LogIndex, LogStorage, NodeId, RaftConfig,
    RaftCore, RaftRole, RequestVoteRequest, Term,
};

fn node(id: u64, n: u64) -> RaftCore {
    RaftCore::new(NodeId(id), (1..=n).map(NodeId).collect(), RaftConfig::default(), 0)
}

fn entry(term: u64, index: u64, cmd: &[u8]) -> Entry {
    Entry::new(Term(term), LogIndex(index), cmd.to_vec())
}

fn vote_request(term: u64, candidate: u64) -> RequestVoteRequest {
    RequestVoteRequest { term: Term(term), candidate_id: NodeId(candidate), last_log_index: LogIndex(0), last_log_term: Term(0) }
}

#[test]
fn majorities_of_five_overlap() {
    let mut a = CandidateState::new();
    a.add_vote(NodeId(2));
    a.add_vote(NodeId(3));
    let mut b = CandidateState::new();
    b.add_vote(NodeId(3));
    b.add_vote(NodeId(5));
    assert!(a.has_majority(5) && b.has_majority(5));
    assert!(a.votes_received.iter().any(|v| b.votes_received.contains(v)));
}

#[test]
fn one_vote_per_term() {
    let mut n = node(1, 5);
    assert!(n.handle_request_vote(&vote_request(4, 2), 0).vote_granted);
    assert!(!n.handle_request_vote(&vote_request(4, 3), 0).vote_granted);
    assert_eq!(n.state.persistent.voted_for, Some(NodeId(2)));
    // A new term frees the vote.
    assert!(n.handle_request_vote(&vote_request(5, 3), 0).vote_granted);
    assert_eq!(n.state.persistent.voted_for, Some(NodeId(3)));
}

#[test]
fn term_never_decreases() {
    let mut n = node(1, 3);
    n.handle_request_vote(&vote_request(6, 2), 0);
    assert_eq!(n.state.persistent.current_term, Term(6));
    n.handle_request_vote(&vote_request(3, 3), 0);
    let old = AppendEntriesRequest::heartbeat(Term(2), NodeId(3), LogIndex(0), Term(0), LogIndex(0));
    let resp = n.handle_append_entries(&old, 0).unwrap();
    assert_eq!(resp.term, Term(6));
    assert_eq!(n.state.persistent.current_term, Term(6));
}

#[test]
fn commit_never_decreases() {
    let mut f = node(2, 3);
    let req = AppendEntriesRequest {
        term: Term(1),
        leader_id: NodeId(1),
        prev_log_index: LogIndex(0),
        prev_log_term: Term(0),
        entries: vec![entry(1, 1, b"a"), entry(1, 2, b"b"), entry(1, 3, b"c")],
        leader_commit: LogIndex(3),
    };
    f.handle_append_entries(&req, 0).unwrap();
    assert_eq!(f.state.volatile.commit_index, LogIndex(3));
    let behind = AppendEntriesRequest::heartbeat(Term(1), NodeId(1), LogIndex(1), Term(1), LogIndex(1));
    let resp = f.handle_append_entries(&behind, 0).unwrap();
    assert!(resp.success);
    assert_eq!(f.state.volatile.commit_index, LogIndex(3));
    assert_eq!(resp.commit_index, LogIndex(3));
}

#[test]
fn leader_log_is_untouched_by_same_term_append() {
    let mut l = node(1, 1);
    l.start_election(0);
    l.propose(b"x".to_vec()).unwrap();
    let term = l.state.persistent.current_term;
    let req = AppendEntriesRequest {
        term,
        leader_id: NodeId(9),
        prev_log_index: LogIndex(0),
        prev_log_term: Term(0),
        entries: vec![entry(term.0, 1, b"other")],
        leader_commit: LogIndex(0),
    };
    let resp = l.handle_append_entries(&req, 0).unwrap();
    assert!(!resp.success);
    assert_eq!(l.state.role, RaftRole::Leader);
    assert_eq!(l.log.get(LogIndex(1)).unwrap().unwrap().command, b"x".to_vec());
}

#[test]
fn accepted_entries_match_the_leader() {
    let mut f = node(2, 3);
    f.log.append(vec![entry(1, 1, b"a"), entry(1, 2, b"stale"), entry(1, 3, b"stale")]).unwrap();
    let req = AppendEntriesRequest {
        term: Term(2),
        leader_id: NodeId(1),
        prev_log_index: LogIndex(1),
        prev_log_term: Term(1),
        entries: vec![entry(2, 2, b"b"), entry(2, 3, b"c"), entry(2, 4, b"d")],
        leader_commit: LogIndex(0),
    };
    assert!(f.handle_append_entries(&req, 0).unwrap().success);
    for (i, t) in [(1, 1), (2, 2), (3, 2), (4, 2)] {
        assert_eq!(f.log.get_term(LogIndex(i)).unwrap(), Some(Term(t)));
    }
    assert_eq!(f.log.get(LogIndex(1)).unwrap().unwrap().command, b"a".to_vec());
}

#[test]
fn restart_keeps_the_vote() {
    let mut n = node(1, 3);
    n.handle_request_vote(&vote_request(3, 2), 0);
    let saved = n.state.persistent.clone();
    let RaftCore { log, .. } = n;
    let mut r = RaftCore::recover(NodeId(1), vec![NodeId(1), NodeId(2), NodeId(3)], RaftConfig::default(), saved, log, 0);
    assert_eq!(r.state.persistent.voted_for, Some(NodeId(2)));
    assert!(!r.handle_request_vote(&vote_request(3, 3), 0).vote_granted);
}
