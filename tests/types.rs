use raft_core::{Entry, LogIndex, NodeId, Snapshot, SnapshotMetadata, Term};

#[test]
fn test_term_increment() {
    let mut term = Term(5);
    term.increment();
    assert_eq!(term, Term(6));
}

#[test]
fn test_log_index_ops() {
    let idx = LogIndex(10);
    assert_eq!(idx + 5, LogIndex(15));
    assert_eq!(idx - 3, LogIndex(7));
}

#[test]
fn test_log_index_ordering() {
    assert!(LogIndex(1) < LogIndex(2));
    assert!(LogIndex(100) > LogIndex(50));
}

#[test]
fn test_term_ordering() {
    assert!(Term(1) < Term(2));
    assert!(Term(100) > Term(50));
}

#[test]
fn log_index_increment_and_decrement() {
    let mut idx = LogIndex(0);
    idx.increment();
    idx.increment();
    assert_eq!(idx, LogIndex(2));
    idx.decrement();
    assert_eq!(idx, LogIndex(1));
}

#[test]
fn entry_duplicate_keeps_fields() {
    let e = Entry::new(Term(3), LogIndex(7), b"cmd".to_vec());
    let d = e.duplicate();
    assert_eq!(d.term, Term(3));
    assert_eq!(d.index, LogIndex(7));
    assert_eq!(d.command, b"cmd".to_vec());
}

#[test]
fn snapshot_duplicate_keeps_fields() {
    let s = Snapshot {
        metadata: SnapshotMetadata {
            last_included_index: LogIndex(4),
            last_included_term: Term(2),
            configuration: vec![NodeId(1), NodeId(2)],
        },
        data: b"state".to_vec(),
    };
    let d = s.duplicate();
    assert_eq!(d.metadata.last_included_index, LogIndex(4));
    assert_eq!(d.metadata.last_included_term, Term(2));
    assert_eq!(d.metadata.configuration, vec![NodeId(1), NodeId(2)]);
    assert_eq!(d.data, b"state".to_vec());
}
