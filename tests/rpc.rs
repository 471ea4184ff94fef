use raft_core::{AppendEntriesRequest, Entry, LogIndex, NodeId, Term};

#[test]
fn test_heartbeat_creation() {
    let req = AppendEntriesRequest::heartbeat(Term(5), NodeId(1), LogIndex(10), Term(5), LogIndex(8));

    assert!(req.is_heartbeat());
    assert_eq!(req.term, Term(5));
    assert_eq!(req.leader_id, NodeId(1));
    assert_eq!(req.entries.len(), 0);
}

#[test]
fn test_append_entries_with_entries() {
    let entries = vec![
        Entry::new(Term(5), LogIndex(11), b"cmd1".to_vec()),
        Entry::new(Term(5), LogIndex(12), b"cmd2".to_vec()),
    ];

    let req = AppendEntriesRequest {
        term: Term(5),
        leader_id: NodeId(1),
        prev_log_index: LogIndex(10),
        prev_log_term: Term(5),
        entries,
        leader_commit: LogIndex(8),
    };

    assert!(!req.is_heartbeat());
    assert_eq!(req.entries.len(), 2);
}
