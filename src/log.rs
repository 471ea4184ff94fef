//! Log storage: the entries after the latest snapshot, and the snapshot itself.

use crate::error::RaftError;
use crate::types::{Entry, EntryView, LogIndex, Snapshot, SnapshotView, Term};
use vstd::prelude::*;

verus! {

/// A log as the proofs see it: the latest snapshot, if any, and the entries
/// that follow it, the first of them at `snap_index() + 1`.
pub ghost struct LogView {
    pub snapshot: Option<SnapshotView>,
    pub entries: Seq<EntryView>,
}

impl LogView {
    /// Index of the last entry the snapshot covers; 0 without a snapshot.
    pub open spec fn snap_index(self) -> nat {
        match self.snapshot {
            Some(s) => s.index as nat,
            None => 0,
        }
    }

    pub open spec fn snap_term(self) -> nat {
        match self.snapshot {
            Some(s) => s.term as nat,
            None => 0,
        }
    }

    pub open spec fn last_index(self) -> nat {
        self.snap_index() + self.entries.len()
    }

    pub open spec fn last_term(self) -> nat {
        if self.entries.len() > 0 {
            self.entries.last().term as nat
        } else {
            self.snap_term()
        }
    }

    /// Whether index `i` names an entry that the log still holds.
    pub open spec fn holds(self, i: nat) -> bool {
        self.snap_index() < i <= self.last_index()
    }

    /// The entry at index `i`, where `holds(i)`.
    pub open spec fn entry_at(self, i: nat) -> EntryView {
        self.entries[i - self.snap_index() - 1]
    }

    /// The term at index `i`: the snapshot's at its boundary, an entry's where
    /// the log holds one, nothing elsewhere.
    pub open spec fn term_of(self, i: nat) -> Option<nat> {
        if self.snapshot is Some && i == self.snap_index() {
            Some(self.snap_term())
        } else if self.holds(i) {
            Some(self.entry_at(i).term as nat)
        } else {
            None
        }
    }

    /// Entries carry their own positions, and every index fits a `u64`.
    pub open spec fn well_formed(self) -> bool {
        &&& self.last_index() <= u64::MAX
        &&& forall|k: int|
            0 <= k < self.entries.len() ==> (#[trigger] self.entries[k]).index == self.snap_index()
                + 1 + k
    }

    /// The log with its entries from index `i` on removed.
    pub open spec fn truncated(self, i: nat) -> LogView {
        LogView { snapshot: self.snapshot, entries: self.entries.take(i - self.snap_index() - 1) }
    }
}

/// Whether `es` are numbered consecutively from `start`.
pub open spec fn numbered_from(es: Seq<Entry>, start: nat) -> bool {
    forall|k: int| 0 <= k < es.len() ==> (#[trigger] es[k]).index.0 == start + k
}

/// The views of a sequence of entries.
pub open spec fn entry_views(es: Seq<Entry>) -> Seq<EntryView> {
    Seq::new(es.len(), |k: int| es[k]@)
}

/// Durable storage of the log. Appending and truncating must be durable
/// before they return `Ok`.
pub trait LogStorage {
    /// Appends entries after the last one.
    fn append(&mut self, entries: Vec<Entry>) -> Result<(), RaftError>;

    /// The entry at `index`, if the log holds one.
    fn get(&self, index: LogIndex) -> Result<Option<Entry>, RaftError>;

    /// The entries in `[start, end)`.
    fn get_range(&self, start: LogIndex, end: LogIndex) -> Result<Vec<Entry>, RaftError>;

    /// The entries from `start` on.
    fn get_from(&self, start: LogIndex) -> Result<Vec<Entry>, RaftError>;

    /// Removes the entries from `index` on.
    fn delete_from(&mut self, index: LogIndex) -> Result<(), RaftError>;

    fn last_index(&self) -> LogIndex;

    fn last_term(&self) -> Term;

    /// The term at `index`, if known.
    fn get_term(&self, index: LogIndex) -> Result<Option<Term>, RaftError>;

    /// Installs a snapshot.
    fn set_snapshot(&mut self, snapshot: Snapshot) -> Result<(), RaftError>;

    fn get_snapshot(&self) -> Option<Snapshot>;

    /// Releases the entries that the snapshot covers, through `through_index`.
    fn compact(&mut self, through_index: LogIndex) -> Result<(), RaftError>;
}

/// Log storage held in memory.
///
/// `entries[k]` sits at index `base + 1 + k`. Entries at or below the
/// snapshot's index that compaction has not released yet are kept but no
/// longer reachable.
pub struct MemoryLogStorage {
    entries: Vec<Entry>,
    snapshot: Option<Snapshot>,
    base: u64,
}

impl View for MemoryLogStorage {
    type V = LogView;

    closed spec fn view(&self) -> LogView {
        let snap: int = match self.snapshot {
            Some(s) => s.metadata.last_included_index.0 as int,
            None => 0,
        };
        LogView {
            snapshot: match self.snapshot {
                Some(s) => Some(s@),
                None => None,
            },
            entries: Seq::new(
                (self.base + self.entries@.len() - snap) as nat,
                |k: int| self.entries@[snap - self.base + k]@,
            ),
        }
    }
}

impl MemoryLogStorage {
    #[verifier::type_invariant]
    spec fn inv(&self) -> bool {
        &&& self.base + self.entries@.len() <= u64::MAX
        &&& forall|k: int|
            0 <= k < self.entries@.len() ==> (#[trigger] self.entries@[k]).index.0 == self.base + 1
                + k
        &&& match self.snapshot {
            None => self.base == 0,
            Some(s) => self.base <= s.metadata.last_included_index.0 <= self.base
                + self.entries@.len(),
        }
    }

    spec fn snap(&self) -> u64 {
        match self.snapshot {
            Some(s) => s.metadata.last_included_index.0,
            None => 0,
        }
    }

    proof fn lemma_view(&self)
        requires
            self.inv(),
        ensures
            self@.well_formed(),
            self@.snap_index() == self.snap(),
            self@.last_index() == self.base + self.entries@.len(),
            self.base <= self.snap(),
            forall|i: nat|
                #![trigger self@.entry_at(i)]
                self@.holds(i) ==> self@.entry_at(i) == self.entries@[i - self.base - 1]@,
    {
    }

    /// An empty log without a snapshot.
    pub fn new() -> (r: MemoryLogStorage)
        ensures
            r@.snapshot is None,
            r@.entries.len() == 0,
    {
        let r = MemoryLogStorage { entries: Vec::new(), snapshot: None, base: 0 };
        assert(r@.entries =~= Seq::<EntryView>::empty());
        r
    }

    /// The log is well formed at every moment.
    pub fn check_well_formed(&self)
        ensures
            self@.well_formed(),
    {
        proof {
            use_type_invariant(self);
            self.lemma_view();
        }
    }

    /// Takes the fields out, leaving an empty log behind.
    fn take_parts(&mut self) -> (r: (Vec<Entry>, Option<Snapshot>, u64))
        ensures
            r.0 == old(self).entries,
            r.1 == old(self).snapshot,
            r.2 == old(self).base,
            old(self).inv(),
    {
        proof {
            use_type_invariant(&*self);
        }
        let mut cur = MemoryLogStorage::new();
        core::mem::swap(self, &mut cur);
        proof {
            use_type_invariant(&cur);
        }
        let MemoryLogStorage { entries, snapshot, base } = cur;
        (entries, snapshot, base)
    }

    /// Copies the stored entries at positions `[from, to)`.
    fn copy_out(&self, from: usize, to: usize) -> (v: Vec<Entry>)
        requires
            from <= to <= self.entries@.len(),
        ensures
            v@.len() == to - from,
            forall|j: int| 0 <= j < v@.len() ==> (#[trigger] v@[j])@ == self.entries@[from + j]@,
    {
        let mut v: Vec<Entry> = Vec::new();
        let mut i: usize = from;
        while i < to
            invariant
                from <= i <= to <= self.entries@.len(),
                v@.len() == i - from,
                forall|j: int| 0 <= j < v@.len() ==> (#[trigger] v@[j])@ == self.entries@[from + j]@,
            decreases to - i,
        {
            v.push(self.entries[i].duplicate());
            i = i + 1;
        }
        v
    }

    fn snap_index_exec(&self) -> (r: u64)
        ensures
            r == self.snap(),
    {
        match &self.snapshot {
            Some(s) => s.metadata.last_included_index.0,
            None => 0,
        }
    }
}

impl Default for MemoryLogStorage {
    fn default() -> (r: MemoryLogStorage)
        ensures
            r@.snapshot is None,
            r@.entries.len() == 0,
    {
        MemoryLogStorage::new()
    }
}

impl LogStorage for MemoryLogStorage {
    /// Accepted only when the entries are numbered on from the last index.
    fn append(&mut self, entries: Vec<Entry>) -> (r: Result<(), RaftError>)
        ensures
            r is Ok <==> numbered_from(entries@, old(self)@.last_index() + 1),
            r is Ok ==> final(self)@ == (LogView {
                snapshot: old(self)@.snapshot,
                entries: old(self)@.entries + entry_views(entries@),
            }),
            r is Err ==> final(self)@ == old(self)@ && r matches Err(
                RaftError::LogIndexOutOfRange(_),
            ),
            final(self)@.well_formed(),
    {
        proof {
            use_type_invariant(&*self);
            self.lemma_view();
        }
        let last = self.base + self.entries.len() as u64;
        let mut k: usize = 0;
        while k < entries.len()
            invariant
                k <= entries@.len(),
                last == old(self)@.last_index(),
                forall|j: int| 0 <= j < k ==> (#[trigger] entries@[j]).index.0 == last + 1 + j,
            decreases entries@.len() - k,
        {
            let idx = entries[k].index.0;
            if idx == 0 || idx - 1 < last || idx - 1 - last != k as u64 {
                proof {
                    use_type_invariant(&*self);
                    self.lemma_view();
                }
                return Err(RaftError::LogIndexOutOfRange(LogIndex(idx)));
            }
            k = k + 1;
        }
        let ghost pre = *self;
        let ghost added = entries@;
        let mut entries = entries;
        let (mut es, snapshot, base) = self.take_parts();
        es.append(&mut entries);
        proof {
            assert(es@ =~= pre.entries@ + added);
            if added.len() > 0 {
                assert(added[added.len() - 1].index.0 == last + added.len());
            }
            assert forall|j: int| 0 <= j < es@.len() implies (#[trigger] es@[j]).index.0 == base
                + 1 + j by {
                if j >= pre.entries@.len() {
                    assert(es@[j] == added[j - pre.entries@.len()]);
                }
            }
        }
        *self = MemoryLogStorage { entries: es, snapshot, base };
        proof {
            self.lemma_view();
            pre.lemma_view();
            assert(self@.entries =~= pre@.entries + entry_views(added));
        }
        Ok(())
    }

    fn get(&self, index: LogIndex) -> (r: Result<Option<Entry>, RaftError>)
        ensures
            self@.holds(index.0 as nat) ==> (r matches Ok(Some(e)) && e@ == self@.entry_at(
                index.0 as nat,
            )),
            !self@.holds(index.0 as nat) ==> r matches Ok(None),
    {
        proof {
            use_type_invariant(self);
            self.lemma_view();
        }
        let snap = self.snap_index_exec();
        if index.0 <= snap || index.0 - self.base > self.entries.len() as u64 {
            Ok(None)
        } else {
            Ok(Some(self.entries[(index.0 - self.base - 1) as usize].duplicate()))
        }
    }

    /// Fails on a `start` that the log does not hold and that is not just past
    /// its end; `end` is cut to the end of the log.
    fn get_range(&self, start: LogIndex, end: LogIndex) -> (r: Result<Vec<Entry>, RaftError>)
        ensures
            (self@.snap_index() < start.0 <= self@.last_index() + 1) ==> (r matches Ok(v)
                && entry_views(v@) == self@.entries.subrange(
                start.0 - self@.snap_index() - 1,
                if end.0 <= start.0 {
                    start.0 - self@.snap_index() - 1
                } else if end.0 <= self@.last_index() + 1 {
                    end.0 - self@.snap_index() - 1
                } else {
                    self@.entries.len() as int
                },
            )),
            !(self@.snap_index() < start.0 <= self@.last_index() + 1) ==> r == Err::<
                Vec<Entry>,
                RaftError,
            >(RaftError::LogIndexOutOfRange(start)),
    {
        proof {
            use_type_invariant(self);
            self.lemma_view();
        }
        let snap = self.snap_index_exec();
        let last = self.base + self.entries.len() as u64;
        if start.0 <= snap || start.0 - 1 > last {
            return Err(RaftError::LogIndexOutOfRange(start));
        }
        let stop: u64 = if end.0 <= start.0 {
            start.0
        } else if end.0 - 1 <= last {
            end.0
        } else {
            last + 1
        };
        let v = self.copy_out((start.0 - self.base - 1) as usize, (stop - self.base - 1) as usize);
        assert(entry_views(v@) =~= self@.entries.subrange(
            start.0 - self@.snap_index() - 1,
            stop - self@.snap_index() - 1,
        ));
        Ok(v)
    }

    fn get_from(&self, start: LogIndex) -> (r: Result<Vec<Entry>, RaftError>)
        ensures
            (self@.snap_index() < start.0 <= self@.last_index() + 1) ==> (r matches Ok(v)
                && entry_views(v@) == self@.entries.subrange(
                start.0 - self@.snap_index() - 1,
                self@.entries.len() as int,
            )),
            !(self@.snap_index() < start.0 <= self@.last_index() + 1) ==> r == Err::<
                Vec<Entry>,
                RaftError,
            >(RaftError::LogIndexOutOfRange(start)),
    {
        proof {
            use_type_invariant(self);
            self.lemma_view();
        }
        let snap = self.snap_index_exec();
        let last = self.base + self.entries.len() as u64;
        if start.0 <= snap || start.0 - 1 > last {
            return Err(RaftError::LogIndexOutOfRange(start));
        }
        let v = self.copy_out((start.0 - self.base - 1) as usize, self.entries.len());
        assert(entry_views(v@) =~= self@.entries.subrange(
            start.0 - self@.snap_index() - 1,
            self@.entries.len() as int,
        ));
        Ok(v)
    }

    /// Removes the entries from `index` on, where the log holds `index`;
    /// otherwise nothing changes, so entries that the snapshot covers stay.
    fn delete_from(&mut self, index: LogIndex) -> (r: Result<(), RaftError>)
        ensures
            r is Ok,
            old(self)@.holds(index.0 as nat) ==> final(self)@ == old(self)@.truncated(
                index.0 as nat,
            ),
            !old(self)@.holds(index.0 as nat) ==> final(self)@ == old(self)@,
            final(self)@.well_formed(),
    {
        proof {
            use_type_invariant(&*self);
            self.lemma_view();
        }
        let ghost pre = *self;
        let snap = self.snap_index_exec();
        let last = self.base + self.entries.len() as u64;
        if index.0 > snap && index.0 <= last {
            let (mut es, snapshot, base) = self.take_parts();
            es.truncate((index.0 - base - 1) as usize);
            *self = MemoryLogStorage { entries: es, snapshot, base };
            proof {
                pre.lemma_view();
                assert(self@.entries =~= pre@.truncated(index.0 as nat).entries);
            }
        }
        proof {
            use_type_invariant(&*self);
            self.lemma_view();
            if !(index.0 > snap && index.0 <= last) {
                assert(self@.entries =~= pre@.entries);
            }
        }
        Ok(())
    }

    fn last_index(&self) -> (r: LogIndex)
        ensures
            r.0 == self@.last_index(),
    {
        proof {
            use_type_invariant(self);
            self.lemma_view();
        }
        LogIndex(self.base + self.entries.len() as u64)
    }

    fn last_term(&self) -> (r: Term)
        ensures
            r.0 == self@.last_term(),
    {
        proof {
            use_type_invariant(self);
            self.lemma_view();
        }
        let snap = self.snap_index_exec();
        if self.base + (self.entries.len() as u64) > snap {
            proof {
                assert(self@.holds(self@.last_index()));
                assert(self@.entry_at(self@.last_index()) == self@.entries.last());
            }
            self.entries[self.entries.len() - 1].term
        } else {
            match &self.snapshot {
                Some(s) => s.metadata.last_included_term,
                None => Term(0),
            }
        }
    }

    fn get_term(&self, index: LogIndex) -> (r: Result<Option<Term>, RaftError>)
        ensures
            r matches Ok(t) && (match self@.term_of(index.0 as nat) {
                Some(x) => t matches Some(tt) && tt.0 == x,
                None => t is None,
            }),
    {
        proof {
            use_type_invariant(self);
            self.lemma_view();
        }
        if let Some(s) = &self.snapshot {
            if index.0 == s.metadata.last_included_index.0 {
                return Ok(Some(s.metadata.last_included_term));
            }
        }
        let snap = self.snap_index_exec();
        if index.0 <= snap || index.0 - self.base > self.entries.len() as u64 {
            Ok(None)
        } else {
            Ok(Some(self.entries[(index.0 - self.base - 1) as usize].term))
        }
    }

    /// Installs the snapshot. The entries after it stay where the log holds
    /// the snapshot's last entry with the snapshot's term; otherwise the log
    /// is emptied.
    fn set_snapshot(&mut self, snapshot: Snapshot) -> (r: Result<(), RaftError>)
        ensures
            r is Ok,
            final(self)@.snapshot == Some(snapshot@),
            final(self)@.entries == if keeps_suffix(old(self)@, snapshot@) {
                old(self)@.entries.skip(snapshot@.index - old(self)@.snap_index())
            } else {
                Seq::<EntryView>::empty()
            },
            final(self)@.well_formed(),
    {
        proof {
            use_type_invariant(&*self);
            self.lemma_view();
        }
        let ghost pre = *self;
        let idx = snapshot.metadata.last_included_index.0;
        let snap = self.snap_index_exec();
        let last = self.base + self.entries.len() as u64;
        let keep = match self.get_term(LogIndex(idx)) {
            Ok(Some(t)) => t.0 == snapshot.metadata.last_included_term.0,
            _ => false,
        };
        let (es, _old, base) = self.take_parts();
        if keep {
            *self = MemoryLogStorage { entries: es, snapshot: Some(snapshot), base };
            proof {
                pre.lemma_view();
                assert(self@.entries =~= pre@.entries.skip(idx - pre@.snap_index()));
            }
        } else {
            *self = MemoryLogStorage { entries: Vec::new(), snapshot: Some(snapshot), base: idx };
            proof {
                assert(self@.entries =~= Seq::<EntryView>::empty());
            }
        }
        proof {
            use_type_invariant(&*self);
            self.lemma_view();
        }
        Ok(())
    }

    fn get_snapshot(&self) -> (r: Option<Snapshot>)
        ensures
            match self@.snapshot {
                Some(v) => r matches Some(s) && s@ == v,
                None => r is None,
            },
    {
        match &self.snapshot {
            Some(s) => Some(s.duplicate()),
            None => None,
        }
    }

    /// Releases the entries through `through_index`, which the snapshot must
    /// cover. What the log shows does not change.
    fn compact(&mut self, through_index: LogIndex) -> (r: Result<(), RaftError>)
        ensures
            r is Ok <==> through_index.0 <= old(self)@.snap_index(),
            r is Err ==> r == Err::<(), RaftError>(RaftError::LogIndexOutOfRange(through_index)),
            final(self)@ == old(self)@,
            final(self)@.well_formed(),
    {
        proof {
            use_type_invariant(&*self);
            self.lemma_view();
        }
        let ghost pre = *self;
        let snap = self.snap_index_exec();
        if through_index.0 > snap {
            return Err(RaftError::LogIndexOutOfRange(through_index));
        }
        if through_index.0 > self.base {
            let (mut es, snapshot, base) = self.take_parts();
            assert(through_index.0 - base <= es.len());
            let rest = es.split_off((through_index.0 - base) as usize);
            proof {
                assert forall|j: int| 0 <= j < rest@.len() implies (#[trigger] rest@[j]).index.0
                    == through_index.0 + 1 + j by {
                    assert(rest@[j] == pre.entries@[through_index.0 - base + j]);
                }
            }
            *self = MemoryLogStorage { entries: rest, snapshot, base: through_index.0 };
        }
        proof {
            use_type_invariant(&*self);
            self.lemma_view();
            pre.lemma_view();
            assert forall|k: int| 0 <= k < self@.entries.len() implies self@.entries[k]
                == pre@.entries[k] by {
                assert(self@.holds((self.snap() + 1 + k) as nat));
                assert(pre@.holds((self.snap() + 1 + k) as nat));
            }
            assert(self@.entries =~= pre@.entries);
        }
        Ok(())
    }
}

/// Whether installing `s` keeps the entries after it: the log knows the term
/// at the snapshot's index, and it is the snapshot's.
pub open spec fn keeps_suffix(log: LogView, s: SnapshotView) -> bool {
    log.term_of(s.index as nat) == Some(s.term as nat)
}

} // verus!
