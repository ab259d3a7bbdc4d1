//! One transaction: the writes staged since it began, and the snapshot that
//! its reads are held to.

use vstd::prelude::*;

use super::rowmap;
use super::rowmap::{copy_bytes, copy_opt_bytes, RowMap};
use super::versions;
use super::versions::Versions;

verus! {

/// The state of a transaction.
pub struct TxnView {
    pub id: u64,
    pub snapshot_seq: u64,
    pub finished: bool,
    pub staged: Seq<rowmap::Row>,
}

/// A staged write: a value, or nothing for a delete.
pub struct StagedWrite {
    pub value: Option<Vec<u8>>,
}

/// Staged writes as rows.
pub open spec fn write_views(staged: Seq<(Vec<u8>, StagedWrite)>) -> Seq<rowmap::Row> {
    staged.map_values(|w: (Vec<u8>, StagedWrite)| (w.0@, rowmap::opt_bytes(w.1.value)))
}

/// The state of an open transaction.
pub struct TransactionState {
    pub id: u64,
    pub snapshot_seq: u64,
    pub finished: bool,
    pub staged: RowMap,
}

impl View for TransactionState {
    type V = TxnView;

    open spec fn view(&self) -> TxnView {
        TxnView {
            id: self.id,
            snapshot_seq: self.snapshot_seq,
            finished: self.finished,
            staged: self.staged@,
        }
    }
}

/// A transaction.
pub struct TxnHandle {
    inner: TransactionState,
}

impl View for TxnHandle {
    type V = TxnView;

    closed spec fn view(&self) -> TxnView {
        self.inner@
    }
}

/// A transaction with one more write staged, or one more delete; once it is
/// finished it takes none.
pub open spec fn with_staged(t: TxnView, key: Seq<u8>, v: Option<Seq<u8>>) -> TxnView {
    if t.finished {
        t
    } else {
        TxnView { staged: rowmap::put(t.staged, key, v), ..t }
    }
}

/// The snapshots once a transaction has given its own up, which it does once.
pub open spec fn released(t: TxnView, store: versions::StoreView) -> versions::StoreView {
    if t.finished {
        store
    } else {
        versions::StoreView {
            snapshots: versions::without_one(store.snapshots, t.snapshot_seq),
            ..store
        }
    }
}

impl TxnHandle {
    /// Staged writes stand in the order of their keys.
    pub open spec fn wf(&self) -> bool {
        rowmap::sorted(self@.staged)
    }

    /// Begins a transaction on a snapshot that is already open.
    pub fn new(id: u64, snapshot_seq: u64) -> (t: TxnHandle)
        ensures
            t.wf(),
            t@ == (TxnView { id, snapshot_seq, finished: false, staged: Seq::empty() }),
    {
        TxnHandle {
            inner: TransactionState { id, snapshot_seq, finished: false, staged: RowMap::new() },
        }
    }

    /// The number of the transaction.
    pub fn id(&self) -> (id: u64)
        ensures
            id == self@.id,
    {
        self.inner.id
    }

    /// The sequence number that its reads see.
    pub fn snapshot_seq(&self) -> (seq: u64)
        ensures
            seq == self@.snapshot_seq,
    {
        self.inner.snapshot_seq
    }

    /// Whether it was committed or rolled back.
    pub fn is_finished(&self) -> (r: bool)
        ensures
            r == self@.finished,
    {
        self.inner.finished
    }

    /// Stages a write; nothing once the transaction is finished.
    pub fn stage_write(&mut self, composite_key: Vec<u8>, value: Vec<u8>)
        requires
            old(self).wf(),
        ensures
            final(self).wf(),
            final(self)@ == with_staged(old(self)@, composite_key@, Some(value@)),
    {
        if self.inner.finished {
            return;
        }
        self.inner.staged.insert(composite_key, Some(value));
    }

    /// Stages a delete; nothing once the transaction is finished.
    pub fn stage_delete(&mut self, composite_key: Vec<u8>)
        requires
            old(self).wf(),
        ensures
            final(self).wf(),
            final(self)@ == with_staged(old(self)@, composite_key@, None),
    {
        if self.inner.finished {
            return;
        }
        self.inner.staged.insert(composite_key, None);
    }

    /// What is staged under a key: a value, a delete (`Ok(None)`), or nothing
    /// (`Err`), which leaves the question to the committed rows.
    pub fn staged_read(&self, composite_key: &[u8]) -> (r: Result<Option<Vec<u8>>, ()>)
        requires
            self.wf(),
        ensures
            match r {
                Ok(v) => rowmap::lookup(self@.staged, composite_key@) == Some(
                    rowmap::opt_bytes(v),
                ),
                Err(_) => rowmap::lookup(self@.staged, composite_key@) is None,
            },
    {
        match self.inner.staged.get(composite_key) {
            Some(v) => Ok(copy_opt_bytes(v)),
            None => Err(()),
        }
    }

    /// Marks the transaction finished and gives its snapshot up, once.
    fn finish(&mut self, store: &mut Versions)
        requires
            old(store).wf(),
            old(self).wf(),
        ensures
            final(store).wf(),
            final(self).wf(),
            final(self)@ == (TxnView { finished: true, ..old(self)@ }),
            final(store)@ == released(old(self)@, old(store)@),
    {
        if self.inner.finished {
            return;
        }
        self.inner.finished = true;
        store.release_snapshot(self.inner.snapshot_seq);
    }

    /// Takes the staged writes out, in the order of their keys, and finishes
    /// the transaction.
    pub fn take_staged(&mut self, store: &mut Versions) -> (staged: Vec<(Vec<u8>, StagedWrite)>)
        requires
            old(store).wf(),
            old(self).wf(),
        ensures
            final(store).wf(),
            final(self).wf(),
            write_views(staged@) == old(self)@.staged,
            final(self)@ == (TxnView { finished: true, staged: Seq::empty(), ..old(self)@ }),
            final(store)@ == released(old(self)@, old(store)@),
    {
        self.finish(store);
        let ghost all = self@.staged;
        let mut staged: Vec<(Vec<u8>, StagedWrite)> = Vec::new();
        let mut i: usize = 0;
        assert(write_views(staged@) =~= all.take(0));
        while i < self.inner.staged.entries.len()
            invariant
                all == self@.staged,
                i <= self.inner.staged.entries@.len(),
                write_views(staged@) == all.take(i as int),
            decreases self.inner.staged.entries@.len() - i,
        {
            let entry = &self.inner.staged.entries[i];
            let ghost before = staged@;
            staged.push(
                (copy_bytes(entry.0.as_slice()), StagedWrite { value: copy_opt_bytes(&entry.1) }),
            );
            assert(write_views(staged@) =~= write_views(before).push(all[i as int]));
            assert(all.take(i + 1) =~= all.take(i as int).push(all[i as int]));
            i += 1;
        }
        assert(all.take(all.len() as int) =~= all);
        self.inner.staged = RowMap::new();
        staged
    }

    /// Drops the staged writes and finishes the transaction.
    pub fn discard(&mut self, store: &mut Versions)
        requires
            old(store).wf(),
            old(self).wf(),
        ensures
            final(store).wf(),
            final(self).wf(),
            final(self)@ == (TxnView { finished: true, staged: Seq::empty(), ..old(self)@ }),
            final(store)@ == released(old(self)@, old(store)@),
    {
        self.finish(store);
        self.inner.staged = RowMap::new();
    }

    /// The number of staged writes.
    pub fn pending_count(&self) -> (n: usize)
        ensures
            n == self@.staged.len(),
    {
        self.inner.staged.len()
    }

    /// The staged writes, in the order of their keys.
    pub fn staged_rows(&self) -> (rows: &RowMap)
        ensures
            rows@ == self@.staged,
    {
        &self.inner.staged
    }
}

/// Finishing a transaction a second time does nothing: its snapshot is given
/// up once.
pub proof fn law_snapshot_is_released_once(t: TxnView, store: versions::StoreView)
    ensures
        released(TxnView { finished: true, staged: Seq::empty(), ..t }, released(t, store))
            == released(t, store),
{
}

/// A transaction sees its own writes: what was staged last under a key is what
/// is read under it, and other keys are not touched.
pub proof fn law_staged_write_is_read_back(
    staged: Seq<rowmap::Row>,
    key: Seq<u8>,
    v: Option<Seq<u8>>,
    other: Seq<u8>,
)
    requires
        rowmap::sorted(staged),
    ensures
        rowmap::lookup(rowmap::put(staged, key, v), key) == Some(v),
        other != key ==> rowmap::lookup(rowmap::put(staged, key, v), other) == rowmap::lookup(
            staged,
            other,
        ),
{
    rowmap::lemma_put(staged, key, v);
}

} // verus!
