//! The committed rows, in all their versions.

use vstd::prelude::*;

use super::rowmap;
use super::rowmap::{copy_bytes, copy_opt_bytes, RowMap};
use crate::be::same_bytes;

verus! {

/// One committed write: a value, or a delete, with the number of its commit.
pub struct Version {
    pub key: Vec<u8>,
    pub seq: u64,
    pub value: Option<Vec<u8>>,
}

pub struct VersionView {
    pub key: Seq<u8>,
    pub seq: u64,
    pub value: Option<Seq<u8>>,
}

impl View for Version {
    type V = VersionView;

    open spec fn view(&self) -> VersionView {
        VersionView { key: self.key@, seq: self.seq, value: rowmap::opt_bytes(self.value) }
    }
}

pub open spec fn version_views(log: Seq<Version>) -> Seq<VersionView> {
    log.map_values(|v: Version| v@)
}

/// What a reader at `snapshot` finds under a key: the newest write whose
/// commit is not above it, or nothing if there is none.
pub open spec fn visible(log: Seq<VersionView>, key: Seq<u8>, snapshot: u64) -> Option<
    Option<Seq<u8>>,
>
    decreases log.len(),
{
    if log.len() == 0 {
        None
    } else if log.last().key == key && log.last().seq <= snapshot {
        Some(log.last().value)
    } else {
        visible(log.drop_last(), key, snapshot)
    }
}

/// The value that a reader at `snapshot` gets.
pub open spec fn value_at(log: Seq<VersionView>, key: Seq<u8>, snapshot: u64) -> Option<Seq<u8>> {
    match visible(log, key, snapshot) {
        Some(v) => v,
        None => None,
    }
}

/// All that a reader at `snapshot` finds, by key.
pub open spec fn rows_at(log: Seq<VersionView>, snapshot: u64) -> Seq<rowmap::Row>
    decreases log.len(),
{
    if log.len() == 0 {
        Seq::empty()
    } else {
        let rows = rows_at(log.drop_last(), snapshot);
        if log.last().seq <= snapshot {
            rowmap::put(rows, log.last().key, log.last().value)
        } else {
            rows
        }
    }
}

/// A batch of writes, all with the number of one commit.
pub open spec fn stamped(batch: Seq<rowmap::Row>, seq: u64) -> Seq<VersionView> {
    batch.map_values(|r: rowmap::Row| VersionView { key: r.0, seq, value: r.1 })
}

/// The list without one occurrence of `x`.
pub open spec fn without_one(list: Seq<u64>, x: u64) -> Seq<u64>
    decreases list.len(),
{
    if list.len() == 0 {
        list
    } else if list.last() == x {
        list.drop_last()
    } else {
        without_one(list.drop_last(), x).push(list.last())
    }
}

/// What a reader finds row by row and all at once is the same, in order.
pub proof fn law_scan_and_read_agree(log: Seq<VersionView>, snapshot: u64)
    ensures
        rowmap::sorted(rows_at(log, snapshot)),
        forall|k: Seq<u8>| #[trigger]
            rowmap::lookup(rows_at(log, snapshot), k) == visible(log, k, snapshot),
    decreases log.len(),
{
    if log.len() > 0 {
        let rest = log.drop_last();
        law_scan_and_read_agree(rest, snapshot);
        let rows = rows_at(rest, snapshot);
        if log.last().seq <= snapshot {
            rowmap::lemma_put(rows, log.last().key, log.last().value);
        }
        assert forall|k: Seq<u8>| #[trigger]
            rowmap::lookup(rows_at(log, snapshot), k) == visible(log, k, snapshot) by {
            assert(rowmap::lookup(rows, k) == visible(rest, k, snapshot));
        }
    }
}

/// A commit after a snapshot was taken changes nothing that the snapshot sees.
pub proof fn law_snapshot_is_stable(
    log: Seq<VersionView>,
    batch: Seq<rowmap::Row>,
    seq: u64,
    key: Seq<u8>,
    snapshot: u64,
)
    requires
        snapshot < seq,
    ensures
        visible(log + stamped(batch, seq), key, snapshot) == visible(log, key, snapshot),
    decreases batch.len(),
{
    let all = log + stamped(batch, seq);
    if batch.len() == 0 {
        assert(all =~= log);
    } else {
        law_snapshot_is_stable(log, batch.drop_last(), seq, key, snapshot);
        assert(all.drop_last() =~= log + stamped(batch.drop_last(), seq));
        assert(all.last().seq == seq);
    }
}

/// A commit is seen whole by every reader from its number on: under each of
/// its keys they find what it wrote last, under other keys what was there.
pub proof fn law_commit_is_seen_whole(
    log: Seq<VersionView>,
    batch: Seq<rowmap::Row>,
    seq: u64,
    key: Seq<u8>,
    snapshot: u64,
)
    requires
        seq <= snapshot,
    ensures
        visible(log + stamped(batch, seq), key, snapshot) == (match rowmap::lookup(batch, key) {
            Some(v) => Some(v),
            None => visible(log, key, snapshot),
        }),
    decreases batch.len(),
{
    let all = log + stamped(batch, seq);
    if batch.len() == 0 {
        assert(all =~= log);
    } else {
        law_commit_is_seen_whole(log, batch.drop_last(), seq, key, snapshot);
        assert(all.drop_last() =~= log + stamped(batch.drop_last(), seq));
        assert(all.last() == stamped(batch, seq).last());
    }
}

/// The committed rows and the snapshots that are open on them.
pub struct StoreView {
    pub log: Seq<VersionView>,
    pub next_seq: u64,
    pub snapshots: Seq<u64>,
}

/// The committed rows.
pub struct Versions {
    log: Vec<Version>,
    next_seq: u64,
    snapshots: Vec<u64>,
}

impl View for Versions {
    type V = StoreView;

    closed spec fn view(&self) -> StoreView {
        StoreView {
            log: version_views(self.log@),
            next_seq: self.next_seq,
            snapshots: self.snapshots@,
        }
    }
}

impl Versions {
    /// Every commit has a number below the next one.
    pub open spec fn wf(&self) -> bool {
        &&& self@.next_seq >= 1
        &&& forall|i: int| 0 <= i < self@.log.len() ==> (#[trigger] self@.log[i]).seq < self@.next_seq
    }

    /// A store without versions.
    pub fn new() -> (s: Versions)
        ensures
            s.wf(),
            s@ == (StoreView { log: Seq::empty(), next_seq: 1, snapshots: Seq::empty() }),
    {
        let s = Versions { log: Vec::new(), next_seq: 1, snapshots: Vec::new() };
        assert(s@.log =~= Seq::<VersionView>::empty());
        assert(s@.snapshots =~= Seq::<u64>::empty());
        s
    }

    /// A store with these versions; `last` is the highest number that was used.
    pub fn resume(log: Vec<Version>, last: u64) -> (s: Versions)
        requires
            last < u64::MAX,
            forall|i: int| 0 <= i < log@.len() ==> (#[trigger] log@[i]).seq <= last,
        ensures
            s.wf(),
            s@ == (StoreView {
                log: version_views(log@),
                next_seq: (last + 1) as u64,
                snapshots: Seq::empty(),
            }),
    {
        let s = Versions { log, next_seq: last + 1, snapshots: Vec::new() };
        proof {
            assert(s@.snapshots =~= Seq::<u64>::empty());
            assert forall|i: int| 0 <= i < s@.log.len() implies (#[trigger] s@.log[i]).seq
                < s@.next_seq by {
                assert(s@.log[i] == log@[i]@);
            }
        }
        s
    }

    /// The number of the newest commit.
    pub fn current_seq(&self) -> (seq: u64)
        requires
            self.wf(),
        ensures
            seq == self@.next_seq - 1,
    {
        self.next_seq - 1
    }

    /// Takes a snapshot of what is committed now.
    pub fn snapshot_now(&mut self) -> (seq: u64)
        requires
            old(self).wf(),
        ensures
            final(self).wf(),
            seq == old(self)@.next_seq - 1,
            final(self)@ == (StoreView { snapshots: old(self)@.snapshots.push(seq), ..old(self)@ }),
    {
        let seq: u64 = self.next_seq - 1;
        self.snapshots.push(seq);
        assert(self@ == StoreView { snapshots: old(self)@.snapshots.push(seq), ..old(self)@ });
        seq
    }

    /// Gives a snapshot up.
    pub fn release_snapshot(&mut self, seq: u64)
        requires
            old(self).wf(),
        ensures
            final(self).wf(),
            final(self)@ == (StoreView {
                snapshots: without_one(old(self)@.snapshots, seq),
                ..old(self)@
            }),
    {
        let ghost before = self.snapshots@;
        let mut i: usize = self.snapshots.len();
        while i > 0
            invariant
                *self == *old(self),
                old(self).wf(),
                before == self.snapshots@,
                i <= before.len(),
                forall|k: int| i <= k < before.len() ==> before[k] != seq,
            decreases i,
        {
            if self.snapshots[i - 1] == seq {
                proof {
                    lemma_without_one_at(before, seq, i - 1);
                }
                let _gone: u64 = self.snapshots.remove(i - 1);
                assert(self@.snapshots =~= before.remove(i - 1));
                assert(self@.log == old(self)@.log);
                return;
            }
            i -= 1;
        }
        proof {
            lemma_without_none(before, seq);
        }
    }

    /// The oldest open snapshot, below which old versions are not needed.
    pub fn oldest_snapshot(&self) -> (r: Option<u64>)
        ensures
            match r {
                Some(s) => self@.snapshots.contains(s) && forall|i: int|
                    0 <= i < self@.snapshots.len() ==> s <= #[trigger] self@.snapshots[i],
                None => self@.snapshots.len() == 0,
            },
    {
        if self.snapshots.len() == 0 {
            return None;
        }
        let mut least: u64 = self.snapshots[0];
        let mut i: usize = 1;
        assert(self@.snapshots[0] == least);
        while i < self.snapshots.len()
            invariant
                1 <= i <= self.snapshots@.len(),
                self@.snapshots.contains(least),
                forall|k: int| 0 <= k < i ==> least <= #[trigger] self@.snapshots[k],
            decreases self.snapshots@.len() - i,
        {
            if self.snapshots[i] < least {
                least = self.snapshots[i];
                assert(self@.snapshots[i as int] == least);
            }
            i += 1;
        }
        Some(least)
    }

    /// Commits writes, all under one number.
    pub fn write_batch(&mut self, batch: &Vec<(Vec<u8>, Option<Vec<u8>>)>) -> (seq: u64)
        requires
            old(self).wf(),
            old(self)@.next_seq < u64::MAX,
        ensures
            final(self).wf(),
            seq == old(self)@.next_seq,
            final(self)@ == (StoreView {
                log: old(self)@.log + stamped(rowmap::row_views(batch@), seq),
                next_seq: (seq + 1) as u64,
                snapshots: old(self)@.snapshots,
            }),
    {
        let seq: u64 = self.next_seq;
        let ghost rows = rowmap::row_views(batch@);
        let ghost before = self@.log;
        self.next_seq = seq + 1;
        let mut i: usize = 0;
        assert(before + stamped(rows.take(0), seq) =~= before);
        while i < batch.len()
            invariant
                rows == rowmap::row_views(batch@),
                i <= batch@.len(),
                self.next_seq == seq + 1,
                self.snapshots == old(self).snapshots,
                version_views(self.log@) == before + stamped(rows.take(i as int), seq),
            decreases batch@.len() - i,
        {
            let key = copy_bytes(batch[i].0.as_slice());
            let value = copy_opt_bytes(&batch[i].1);
            let ghost now = self.log@;
            self.log.push(Version { key, seq, value });
            proof {
                assert(version_views(self.log@) =~= version_views(now).push(self.log@.last()@));
                assert(stamped(rows.take(i + 1), seq) =~= stamped(rows.take(i as int), seq).push(
                    self.log@.last()@,
                ));
                assert(before + stamped(rows.take(i + 1), seq) =~= (before + stamped(
                    rows.take(i as int),
                    seq,
                )).push(self.log@.last()@));
            }
            i += 1;
        }
        proof {
            assert(rows.take(batch@.len() as int) =~= rows);
            assert(self@.log == before + stamped(rows, seq));
            assert forall|k: int| 0 <= k < self@.log.len() implies (#[trigger] self@.log[k]).seq
                < self@.next_seq by {
                if k < before.len() {
                    assert(before[k].seq < old(self)@.next_seq);
                } else {
                    assert(self@.log[k] == stamped(rows, seq)[k - before.len()]);
                }
            }
        }
        seq
    }

    /// What a reader at `snapshot` finds under a key.
    pub fn read_at(&self, key: &[u8], snapshot: u64) -> (r: Option<Vec<u8>>)
        ensures
            rowmap::opt_bytes(r) == value_at(self@.log, key@, snapshot),
    {
        let ghost all = self@.log;
        let mut i: usize = self.log.len();
        assert(all.take(i as int) =~= all);
        while i > 0
            invariant
                all == version_views(self.log@),
                i <= self.log@.len(),
                visible(all, key@, snapshot) == visible(all.take(i as int), key@, snapshot),
            decreases i,
        {
            proof {
                assert(all.take(i as int).drop_last() =~= all.take(i - 1));
                assert(all.take(i as int).last() == self.log@[i - 1]@);
            }
            let v = &self.log[i - 1];
            if v.seq <= snapshot && same_bytes(v.key.as_slice(), key) {
                return copy_opt_bytes(&v.value);
            }
            i -= 1;
        }
        None
    }

    /// All that a reader at `snapshot` finds, deletes among it.
    pub fn collect_at(&self, snapshot: u64) -> (rows: RowMap)
        ensures
            rows.wf(),
            rows@ == rows_at(self@.log, snapshot),
    {
        let ghost all = self@.log;
        let mut rows = RowMap::new();
        let mut i: usize = 0;
        assert(all.take(0) =~= Seq::<VersionView>::empty());
        while i < self.log.len()
            invariant
                all == version_views(self.log@),
                i <= self.log@.len(),
                rows.wf(),
                rows@ == rows_at(all.take(i as int), snapshot),
            decreases self.log@.len() - i,
        {
            proof {
                assert(all.take(i + 1).drop_last() =~= all.take(i as int));
                assert(all.take(i + 1).last() == self.log@[i as int]@);
            }
            let v = &self.log[i];
            if v.seq <= snapshot {
                rows.insert(copy_bytes(v.key.as_slice()), copy_opt_bytes(&v.value));
            }
            i += 1;
        }
        assert(all.take(self.log@.len() as int) =~= all);
        rows
    }
}

proof fn lemma_without_one_at(list: Seq<u64>, x: u64, p: int)
    requires
        0 <= p < list.len(),
        list[p] == x,
        forall|k: int| p < k < list.len() ==> list[k] != x,
    ensures
        without_one(list, x) == list.remove(p),
    decreases list.len(),
{
    if p == list.len() - 1 {
        assert(list.drop_last() =~= list.remove(p));
    } else {
        lemma_without_one_at(list.drop_last(), x, p);
        assert(list.remove(p) =~= list.drop_last().remove(p).push(list.last()));
    }
}

proof fn lemma_without_none(list: Seq<u64>, x: u64)
    requires
        forall|k: int| 0 <= k < list.len() ==> list[k] != x,
    ensures
        without_one(list, x) == list,
    decreases list.len(),
{
    if list.len() > 0 {
        lemma_without_none(list.drop_last(), x);
        assert(list.drop_last().push(list.last()) =~= list);
    }
}

/// A reader that is done gives back one hold on its snapshot, and no other's.
pub proof fn law_one_hold_is_given_back(list: Seq<u64>, x: u64, y: u64)
    ensures
        list.contains(x) ==> without_one(list, x).len() == list.len() - 1,
        !list.contains(x) ==> without_one(list, x) == list,
        y != x ==> (without_one(list, x).contains(y) <==> list.contains(y)),
        without_one(list.push(x), x) == list,
    decreases list.len(),
{
    assert(list.push(x).drop_last() =~= list);
    if list.len() > 0 {
        let head = list.drop_last();
        law_one_hold_is_given_back(head, x, y);
        assert(list =~= head.push(list.last()));
        lemma_held(head, list.last(), x);
        lemma_held(head, list.last(), y);
        lemma_held(without_one(head, x), list.last(), y);
    }
}

proof fn lemma_held(a: Seq<u64>, last: u64, x: u64)
    ensures
        a.push(last).contains(x) <==> a.contains(x) || last == x,
{
    if a.contains(x) {
        let k = choose|k: int| 0 <= k < a.len() && a[k] == x;
        assert(a.push(last)[k] == x);
    }
    assert(a.push(last)[a.len() as int] == last);
}

/// What a snapshot shows of a key is the last version up to it: it is in the log,
/// and no version of the key behind it is as old.
pub proof fn law_last_version_up_to_the_snapshot_is_seen(
    log: Seq<VersionView>,
    key: Seq<u8>,
    snapshot: u64,
    i: int,
)
    requires
        0 <= i < log.len(),
        log[i].key == key,
        log[i].seq <= snapshot,
        forall|j: int|
            i < j < log.len() ==> (#[trigger] log[j]).key != key || log[j].seq > snapshot,
    ensures
        visible(log, key, snapshot) == Some(log[i].value),
        value_at(log, key, snapshot) == log[i].value,
    decreases log.len(),
{
    if i < log.len() - 1 {
        let head = log.drop_last();
        assert(log[log.len() - 1].key != key || log[log.len() - 1].seq > snapshot);
        assert forall|j: int| i < j < head.len() implies (#[trigger] head[j]).key != key
            || head[j].seq > snapshot by {
            assert(head[j] == log[j]);
        }
        law_last_version_up_to_the_snapshot_is_seen(head, key, snapshot, i);
    }
}

} // verus!
