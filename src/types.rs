//! Identifiers, log entries and snapshots.

use vstd::prelude::*;

verus! {

/// Unique identifier of a node in the cluster.
#[derive(Debug, Clone, Copy, PartialEq, Eq, Structural, Hash, PartialOrd, Ord)]
pub struct NodeId(pub u64);

/// Election term. Every election starts a new, larger term.
#[derive(Debug, Clone, Copy, PartialEq, Eq, Structural, Hash, PartialOrd, Ord, Default)]
pub struct Term(pub u64);

impl Term {
    /// Moves to the next term.
    pub fn increment(&mut self)
        requires
            old(self).0 < u64::MAX,
        ensures
            final(self).0 == old(self).0 + 1,
    {
        self.0 = self.0 + 1;
    }
}

/// Position in the log, starting at 1; index 0 stands before the first entry.
#[derive(Debug, Clone, Copy, PartialEq, Eq, Structural, Hash, PartialOrd, Ord, Default)]
pub struct LogIndex(pub u64);

impl LogIndex {
    pub fn increment(&mut self)
        requires
            old(self).0 < u64::MAX,
        ensures
            final(self).0 == old(self).0 + 1,
    {
        self.0 = self.0 + 1;
    }

    /// Moves one position back; index 0 has no predecessor.
    pub fn decrement(&mut self)
        requires
            old(self).0 > 0,
        ensures
            final(self).0 == old(self).0 - 1,
    {
        self.0 = self.0 - 1;
    }
}

impl core::ops::Add<u64> for LogIndex {
    type Output = LogIndex;

    fn add(self, rhs: u64) -> (r: LogIndex)
        ensures
            r.0 == self.0 + rhs,
    {
        LogIndex(self.0 + rhs)
    }
}

impl vstd::std_specs::ops::AddSpecImpl<u64> for LogIndex {
    open spec fn obeys_add_spec() -> bool {
        true
    }

    open spec fn add_req(self, rhs: u64) -> bool {
        self.0 + rhs <= u64::MAX
    }

    open spec fn add_spec(self, rhs: u64) -> LogIndex {
        LogIndex((self.0 + rhs) as u64)
    }
}

impl core::ops::Sub<u64> for LogIndex {
    type Output = LogIndex;

    fn sub(self, rhs: u64) -> (r: LogIndex)
        ensures
            r.0 == self.0 - rhs,
    {
        LogIndex(self.0 - rhs)
    }
}

impl vstd::std_specs::ops::SubSpecImpl<u64> for LogIndex {
    open spec fn obeys_sub_spec() -> bool {
        true
    }

    open spec fn sub_req(self, rhs: u64) -> bool {
        self.0 >= rhs
    }

    open spec fn sub_spec(self, rhs: u64) -> LogIndex {
        LogIndex((self.0 - rhs) as u64)
    }
}

/// What an entry is, as the proofs see it.
pub ghost struct EntryView {
    pub term: u64,
    pub index: u64,
    pub command: Seq<u8>,
}

/// One entry of the replicated log.
#[derive(Debug, Clone)]
pub struct Entry {
    /// The term in which a leader created the entry.
    pub term: Term,
    /// The position of the entry in the log.
    pub index: LogIndex,
    /// The opaque command for the state machine.
    pub command: Vec<u8>,
}

impl View for Entry {
    type V = EntryView;

    open spec fn view(&self) -> EntryView {
        EntryView { term: self.term.0, index: self.index.0, command: self.command@ }
    }
}

impl Entry {
    pub fn new(term: Term, index: LogIndex, command: Vec<u8>) -> (r: Entry)
        ensures
            r.term == term,
            r.index == index,
            r.command@ == command@,
    {
        Entry { term, index, command }
    }

    /// A copy of the entry with the same term, index and command.
    pub fn duplicate(&self) -> (r: Entry)
        ensures
            r@ == self@,
    {
        let command = self.command.clone();
        proof {
            assert(command@ =~= self.command@);
        }
        Entry { term: self.term, index: self.index, command }
    }
}

/// Copies the entries at positions `[from, to)` of `entries`.
pub fn copy_entries(entries: &Vec<Entry>, from: usize, to: usize) -> (r: Vec<Entry>)
    requires
        from <= to <= entries@.len(),
    ensures
        r@.len() == to - from,
        forall|k: int| 0 <= k < r@.len() ==> (#[trigger] r@[k])@ == entries@[from + k]@,
        forall|k: int| 0 <= k < r@.len() ==> (#[trigger] r@[k]).index == entries@[from + k].index,
{
    let mut r: Vec<Entry> = Vec::new();
    let mut k: usize = from;
    while k < to
        invariant
            from <= k <= to <= entries@.len(),
            r@.len() == k - from,
            forall|j: int| 0 <= j < r@.len() ==> (#[trigger] r@[j])@ == entries@[from + j]@,
            forall|j: int| 0 <= j < r@.len() ==> (#[trigger] r@[j]).index == entries@[from + j].index,
        decreases to - k,
    {
        r.push(entries[k].duplicate());
        k = k + 1;
    }
    r
}

/// Where a snapshot ends and which cluster it was taken in.
#[derive(Debug, Clone)]
pub struct SnapshotMetadata {
    /// Index of the last entry the snapshot covers.
    pub last_included_index: LogIndex,
    /// Term of that entry.
    pub last_included_term: Term,
    /// The cluster's members when the snapshot was taken.
    pub configuration: Vec<NodeId>,
}

impl SnapshotMetadata {
    pub fn duplicate(&self) -> (r: SnapshotMetadata)
        ensures
            r.last_included_index == self.last_included_index,
            r.last_included_term == self.last_included_term,
            r.configuration@ == self.configuration@,
    {
        let configuration = self.configuration.clone();
        proof {
            assert(configuration@ =~= self.configuration@);
        }
        SnapshotMetadata {
            last_included_index: self.last_included_index,
            last_included_term: self.last_included_term,
            configuration,
        }
    }
}

/// The state machine's state up to `metadata.last_included_index`.
#[derive(Debug, Clone)]
pub struct Snapshot {
    pub metadata: SnapshotMetadata,
    pub data: Vec<u8>,
}

/// What a snapshot is, as the proofs see it.
pub ghost struct SnapshotView {
    pub index: u64,
    pub term: u64,
    pub configuration: Seq<NodeId>,
    pub data: Seq<u8>,
}

impl View for Snapshot {
    type V = SnapshotView;

    open spec fn view(&self) -> SnapshotView {
        SnapshotView {
            index: self.metadata.last_included_index.0,
            term: self.metadata.last_included_term.0,
            configuration: self.metadata.configuration@,
            data: self.data@,
        }
    }
}

impl Snapshot {
    pub fn duplicate(&self) -> (r: Snapshot)
        ensures
            r@ == self@,
    {
        let data = self.data.clone();
        proof {
            assert(data@ =~= self.data@);
        }
        Snapshot { metadata: self.metadata.duplicate(), data }
    }
}

} // verus!
