//! Partitioned, append-only topics with consumer groups and retention.
//!
//! A topic owns a fixed number of partitions. Each is a sequence of records
//! with ascending offsets, of which retention drops the oldest on every
//! publish: first those older than the newest by more than the time limit,
//! then as many as it takes to get under the size limit. A consumer group has
//! one offset per partition; polling does not move it, committing does.

use std::collections::hash_map::DefaultHasher;
use std::hash::Hasher;

use vstd::prelude::*;
use vstd::std_specs::hash::*;
use vstd::string::*;

use crate::be;
use crate::be::{copy_range, get_u32, get_u64, put_u32, put_u64};
use crate::text;
use crate::text::{decimal_text, same_text};

verus! {

/// One published record.
#[derive(Debug, Clone, PartialEq)]
pub struct FluxRecord {
    pub offset: u64,
    pub key: Option<Vec<u8>>,
    pub value: Vec<u8>,
    pub timestamp_ms: i64,
}

/// What a [`FluxRecord`] says.
pub struct FluxView {
    pub offset: u64,
    pub key: Option<Seq<u8>>,
    pub value: Seq<u8>,
    pub timestamp_ms: i64,
}

/// The bytes of an optional byte string.
pub open spec fn opt_bytes(b: Option<Vec<u8>>) -> Option<Seq<u8>> {
    match b {
        Some(v) => Some(v@),
        None => None,
    }
}

impl View for FluxRecord {
    type V = FluxView;

    open spec fn view(&self) -> FluxView {
        FluxView {
            offset: self.offset,
            key: opt_bytes(self.key),
            value: self.value@,
            timestamp_ms: self.timestamp_ms,
        }
    }
}

/// What several records say.
pub open spec fn flux_views(rs: Seq<FluxRecord>) -> Seq<FluxView> {
    rs.map_values(|r: FluxRecord| r@)
}

/// Copies an optional byte string.
fn copy_opt(b: &Option<Vec<u8>>) -> (r: Option<Vec<u8>>)
    ensures
        opt_bytes(r) == opt_bytes(*b),
{
    match b {
        Some(v) => {
            let c = copy_range(v.as_slice(), 0, v.len());
            assert(c@ =~= v@);
            Some(c)
        },
        None => None,
    }
}

impl FluxRecord {
    /// A record that says the same.
    pub fn duplicate(&self) -> (r: FluxRecord)
        ensures
            r@ == self@,
    {
        let value = copy_range(self.value.as_slice(), 0, self.value.len());
        assert(value@ =~= self.value@);
        FluxRecord {
            offset: self.offset,
            key: copy_opt(&self.key),
            value,
            timestamp_ms: self.timestamp_ms,
        }
    }
}

/// How long and how much a topic keeps. `None` sets no limit.
#[derive(Debug, Clone, Copy, PartialEq, Eq, Structural)]
pub struct RetentionPolicy {
    pub retention_ms: Option<i64>,
    pub retention_bytes: Option<u64>,
}

impl Default for RetentionPolicy {
    fn default() -> (p: RetentionPolicy)
        ensures
            p.retention_ms is None,
            p.retention_bytes is None,
    {
        RetentionPolicy { retention_ms: None, retention_bytes: None }
    }
}

/// Why a topic refuses a request.
#[derive(Debug, Clone, Copy, PartialEq, Eq, Structural)]
pub enum FluxError {
    /// A topic must have at least one partition.
    NoPartitions,
    /// The partition asked for is out of the topic's range.
    OutOfRange { partition: u32, partitions: u32 },
    /// The partition asked for does not exist.
    NoSuchPartition { partition: u32 },
    /// The header of a topic is cut off.
    CutOffMeta,
}

impl FluxError {
    /// The message that a client gets.
    pub open spec fn text(&self) -> Seq<char> {
        match self {
            FluxError::NoPartitions => "a topic must have at least 1 partition"@,
            FluxError::OutOfRange { partition, partitions } => "partition "@ + text::decimal(
                *partition as nat,
            ) + " out of range (topic has "@ + text::decimal(*partitions as nat)
                + " partition(s))"@,
            FluxError::NoSuchPartition { partition } => "partition "@ + text::decimal(
                *partition as nat,
            ) + " does not exist"@,
            FluxError::CutOffMeta => "the header of the topic is cut off"@,
        }
    }

    /// The message that a client gets.
    pub fn message(&self) -> (m: String)
        ensures
            m@ == self.text(),
    {
        match self {
            FluxError::NoPartitions => "a topic must have at least 1 partition".to_owned(),
            FluxError::OutOfRange { partition, partitions } => {
                let mut m = "partition ".to_owned();
                m.append(decimal_text(*partition as u64).as_str());
                m.append(" out of range (topic has ");
                m.append(decimal_text(*partitions as u64).as_str());
                m.append(" partition(s))");
                m
            },
            FluxError::NoSuchPartition { partition } => {
                let mut m = "partition ".to_owned();
                m.append(decimal_text(*partition as u64).as_str());
                m.append(" does not exist");
                m
            },
            FluxError::CutOffMeta => "the header of the topic is cut off".to_owned(),
        }
    }
}

/// The time now, in milliseconds of the Unix epoch, from `SystemTime::now`.
/// 0 before the epoch. Nothing is said of the result: it depends on the clock.
#[verifier::external_body]
pub fn now_ms() -> (t: i64) {
    std::time::SystemTime::now()
        .duration_since(std::time::UNIX_EPOCH)
        .map(|d| d.as_millis() as i64)
        .unwrap_or(0)
}

/// `rs` without the records at its front that are older than `cutoff`.
pub open spec fn drop_old(rs: Seq<FluxView>, cutoff: int) -> Seq<FluxView>
    decreases rs.len(),
{
    if rs.len() > 0 && rs[0].timestamp_ms < cutoff {
        drop_old(rs.drop_first(), cutoff)
    } else {
        rs
    }
}

/// The number of bytes of all values.
pub open spec fn bytes_of(rs: Seq<FluxView>) -> nat
    decreases rs.len(),
{
    if rs.len() == 0 {
        0
    } else {
        rs[0].value.len() + bytes_of(rs.drop_first())
    }
}

/// `rs` without as many records at its front as it takes for the others to
/// hold at most `max` bytes.
pub open spec fn drop_excess(rs: Seq<FluxView>, max: nat) -> Seq<FluxView>
    decreases rs.len(),
{
    if rs.len() > 0 && bytes_of(rs) > max {
        drop_excess(rs.drop_first(), max)
    } else {
        rs
    }
}

/// What retention keeps of `rs`, whose newest record is of `newest`.
pub open spec fn retained(rs: Seq<FluxView>, newest: i64, policy: RetentionPolicy) -> Seq<
    FluxView,
> {
    let recent = match policy.retention_ms {
        Some(ms) => drop_old(rs, newest - ms),
        None => rs,
    };
    match policy.retention_bytes {
        Some(max) => drop_excess(recent, max as nat),
        None => recent,
    }
}

/// At most `max` of the records with offsets from `from` on, in order.
pub open spec fn unread(rs: Seq<FluxView>, from: u64, max: nat) -> Seq<FluxView>
    decreases rs.len(),
{
    if rs.len() == 0 || max == 0 {
        Seq::empty()
    } else if rs[0].offset >= from {
        seq![rs[0]] + unread(rs.drop_first(), from, (max - 1) as nat)
    } else {
        unread(rs.drop_first(), from, max)
    }
}

/// The later of two times.
pub open spec fn later(a: i64, b: i64) -> i64 {
    if a >= b {
        a
    } else {
        b
    }
}

/// The latest time among records; the earliest of all times without any.
pub open spec fn newest_of(rs: Seq<FluxView>) -> i64
    decreases rs.len(),
{
    if rs.len() == 0 {
        i64::MIN
    } else {
        later(newest_of(rs.drop_last()), rs.last().timestamp_ms)
    }
}

/// The offset after the last record's.
pub open spec fn offset_after(rs: Seq<FluxView>) -> int {
    if rs.len() == 0 {
        0
    } else {
        rs.last().offset + 1
    }
}

/// A partition: the records it keeps, the offset of the next one and the
/// latest time seen.
pub struct PartitionView {
    pub records: Seq<FluxView>,
    pub next_offset: u64,
    pub newest_ts: i64,
}

/// The partition that replaying `rs` gives, before retention.
pub open spec fn replayed(rs: Seq<FluxView>) -> PartitionView {
    PartitionView {
        records: rs,
        next_offset: offset_after(rs) as u64,
        newest_ts: newest_of(rs),
    }
}

/// The record that a publish at `now` adds to a partition.
pub open spec fn next_record(
    p: PartitionView,
    key: Option<Seq<u8>>,
    value: Seq<u8>,
    now: i64,
) -> FluxView {
    FluxView { offset: p.next_offset, key, value, timestamp_ms: now }
}

/// The partition after a publish.
pub open spec fn appended(
    p: PartitionView,
    key: Option<Seq<u8>>,
    value: Seq<u8>,
    now: i64,
    policy: RetentionPolicy,
) -> PartitionView {
    PartitionView {
        records: retained(
            p.records.push(next_record(p, key, value, now)),
            later(p.newest_ts, now),
            policy,
        ),
        next_offset: (p.next_offset + 1) as u64,
        newest_ts: later(p.newest_ts, now),
    }
}

proof fn lemma_bytes_of_push(rs: Seq<FluxView>, r: FluxView)
    ensures
        bytes_of(rs.push(r)) == bytes_of(rs) + r.value.len(),
    decreases rs.len(),
{
    if rs.len() == 0 {
        assert(rs.push(r).drop_first() =~= rs);
        assert(bytes_of(rs) == 0);
    } else {
        lemma_bytes_of_push(rs.drop_first(), r);
        assert(rs.push(r).drop_first() =~= rs.drop_first().push(r));
    }
}

struct Partition {
    records: Vec<FluxRecord>,
    next_offset: u64,
    total_bytes: u64,
    newest_ts: i64,
}

impl View for Partition {
    type V = PartitionView;

    closed spec fn view(&self) -> PartitionView {
        PartitionView {
            records: flux_views(self.records@),
            next_offset: self.next_offset,
            newest_ts: self.newest_ts,
        }
    }
}

impl Partition {
    spec fn wf(&self) -> bool {
        self.total_bytes == bytes_of(self@.records)
    }

    /// Replays the records of a log; retention is not applied yet.
    fn open(records: Vec<FluxRecord>) -> (p: Partition)
        requires
            bytes_of(flux_views(records@)) <= u64::MAX,
            offset_after(flux_views(records@)) <= u64::MAX,
        ensures
            p.wf(),
            p@ == replayed(flux_views(records@)),
    {
        let mut total_bytes: u64 = 0;
        let mut newest_ts: i64 = i64::MIN;
        let ghost all = flux_views(records@);
        let mut i: usize = 0;
        assert(all.take(0) =~= Seq::empty());
        while i < records.len()
            invariant
                i <= records@.len(),
                all == flux_views(records@),
                bytes_of(all) <= u64::MAX,
                total_bytes == bytes_of(all.take(i as int)),
                newest_ts == newest_of(all.take(i as int)),
            decreases records@.len() - i,
        {
            proof {
                assert(all.take(i + 1) =~= all.take(i as int).push(all[i as int]));
                assert(all.take(i + 1).drop_last() =~= all.take(i as int));
                lemma_bytes_of_push(all.take(i as int), all[i as int]);
                lemma_bytes_of_part(all, i + 1);
            }
            total_bytes = total_bytes + records[i].value.len() as u64;
            if records[i].timestamp_ms > newest_ts {
                newest_ts = records[i].timestamp_ms;
            }
            i += 1;
        }
        assert(all.take(i as int) =~= all);
        let next_offset: u64 = if records.len() == 0 {
            0
        } else {
            records[records.len() - 1].offset + 1
        };
        Partition { records, next_offset, total_bytes, newest_ts }
    }

    /// Drops what is too old or too much from the front.
    fn apply_retention(&mut self, retention: RetentionPolicy)
        requires
            old(self).wf(),
        ensures
            final(self).wf(),
            final(self)@.records == retained(old(self)@.records, old(self)@.newest_ts, retention),
            final(self)@.next_offset == old(self)@.next_offset,
            final(self)@.newest_ts == old(self)@.newest_ts,
    {
        let ghost all = self@.records;
        let mut n: usize = 0;
        let mut total: u64 = self.total_bytes;
        assert(all.skip(0) =~= all);
        if let Some(ms) = retention.retention_ms {
            let cutoff: i128 = self.newest_ts as i128 - ms as i128;
            while n < self.records.len() && (self.records[n].timestamp_ms as i128) < cutoff
                invariant
                    n <= self.records@.len(),
                    all == flux_views(self.records@),
                    cutoff == self.newest_ts - ms,
                    total == bytes_of(all.skip(n as int)),
                    drop_old(all, cutoff as int) == drop_old(all.skip(n as int), cutoff as int),
                decreases self.records@.len() - n,
            {
                proof {
                    assert(all.skip(n as int)[0] == all[n as int]);
                    assert(all.skip(n as int).drop_first() =~= all.skip(n + 1));
                }
                total = total - self.records[n].value.len() as u64;
                n += 1;
            }
            proof {
                if n < all.len() {
                    assert(all.skip(n as int)[0] == all[n as int]);
                }
            }
        }
        let ghost recent = all.skip(n as int);
        if let Some(max) = retention.retention_bytes {
            while n < self.records.len() && total > max
                invariant
                    n <= self.records@.len(),
                    all == flux_views(self.records@),
                    total == bytes_of(all.skip(n as int)),
                    drop_excess(recent, max as nat) == drop_excess(all.skip(n as int), max as nat),
                decreases self.records@.len() - n,
            {
                proof {
                    assert(all.skip(n as int)[0] == all[n as int]);
                    assert(all.skip(n as int).drop_first() =~= all.skip(n + 1));
                }
                total = total - self.records[n].value.len() as u64;
                n += 1;
            }
        }
        let kept = self.records.split_off(n);
        proof {
            assert(flux_views(kept@) =~= all.skip(n as int));
        }
        self.records = kept;
        self.total_bytes = total;
    }

    fn append(
        &mut self,
        key: Option<Vec<u8>>,
        value: Vec<u8>,
        timestamp_ms: i64,
        retention: RetentionPolicy,
    ) -> (offset: u64)
        requires
            old(self).wf(),
            old(self)@.next_offset < u64::MAX,
            bytes_of(old(self)@.records) + value@.len() <= u64::MAX,
        ensures
            final(self).wf(),
            offset == old(self)@.next_offset,
            final(self)@ == appended(old(self)@, opt_bytes(key), value@, timestamp_ms, retention),
    {
        let offset: u64 = self.next_offset;
        let ghost before = self@.records;
        let record = FluxRecord { offset, key, value, timestamp_ms };
        let ghost r = record@;
        self.next_offset = offset + 1;
        self.total_bytes = self.total_bytes + record.value.len() as u64;
        if timestamp_ms > self.newest_ts {
            self.newest_ts = timestamp_ms;
        }
        self.records.push(record);
        proof {
            assert(self@.records =~= before.push(r));
            lemma_bytes_of_push(before, r);
        }
        self.apply_retention(retention);
        offset
    }

    fn poll(&self, from_offset: u64, max: usize) -> (out: Vec<FluxRecord>)
        ensures
            flux_views(out@) == unread(self@.records, from_offset, max as nat),
    {
        let ghost all = self@.records;
        let mut out: Vec<FluxRecord> = Vec::new();
        let mut i: usize = 0;
        proof {
            assert(all.skip(0) =~= all);
            assert(flux_views(out@) =~= Seq::empty());
            assert(unread(all, from_offset, max as nat) =~= flux_views(out@) + unread(
                all.skip(0),
                from_offset,
                max as nat,
            ));
        }
        while i < self.records.len() && out.len() < max
            invariant
                i <= self.records@.len(),
                out@.len() <= max,
                all == flux_views(self.records@),
                unread(all, from_offset, max as nat) == flux_views(out@) + unread(
                    all.skip(i as int),
                    from_offset,
                    (max - out@.len()) as nat,
                ),
            decreases self.records@.len() - i,
        {
            let ghost before = out@;
            proof {
                assert(all.skip(i as int)[0] == all[i as int]);
                assert(all.skip(i as int).drop_first() =~= all.skip(i + 1));
            }
            if self.records[i].offset >= from_offset {
                let record = self.records[i].duplicate();
                out.push(record);
                proof {
                    assert(flux_views(out@) =~= flux_views(before).push(all[i as int]));
                    assert(flux_views(before) + (seq![all[i as int]] + unread(
                        all.skip(i + 1),
                        from_offset,
                        (max - out@.len()) as nat,
                    )) =~= flux_views(out@) + unread(
                        all.skip(i + 1),
                        from_offset,
                        (max - out@.len()) as nat,
                    ));
                }
            }
            i += 1;
        }
        proof {
            assert(flux_views(out@) + Seq::empty() =~= flux_views(out@));
        }
        out
    }

    fn all(&self) -> (out: Vec<FluxRecord>)
        ensures
            flux_views(out@) == self@.records,
    {
        let mut out: Vec<FluxRecord> = Vec::new();
        let mut i: usize = 0;
        while i < self.records.len()
            invariant
                i <= self.records@.len(),
                out@.len() == i,
                forall|k: int| 0 <= k < i ==> (#[trigger] out@[k])@ == self.records@[k]@,
            decreases self.records@.len() - i,
        {
            out.push(self.records[i].duplicate());
            i += 1;
        }
        assert(flux_views(out@) =~= self@.records);
        out
    }
}

proof fn lemma_bytes_of_part(rs: Seq<FluxView>, n: int)
    requires
        0 <= n <= rs.len(),
    ensures
        bytes_of(rs.take(n)) <= bytes_of(rs),
    decreases rs.len() - n,
{
    if n == rs.len() {
        assert(rs.take(n) =~= rs);
    } else {
        assert(rs.take(n + 1) =~= rs.take(n).push(rs[n]));
        lemma_bytes_of_push(rs.take(n), rs[n]);
        lemma_bytes_of_part(rs, n + 1);
    }
}

/// What the default hasher makes of a key: of its length in eight bytes, the
/// lowest first, and of its bytes.
pub open spec fn key_hash(key: Seq<u8>) -> u64 {
    DefaultHasher::spec_finish(seq![be::le64(key.len() as u64), key])
}

/// The partition of a key, out of `n`.
pub open spec fn key_partition(key: Seq<u8>, n: u32) -> u32 {
    (key_hash(key) % (n as u64)) as u32
}

fn partition_for_key(key: &[u8], num_partitions: u32) -> (p: u32)
    requires
        num_partitions > 0,
    ensures
        p == key_partition(key@, num_partitions),
        p < num_partitions,
{
    let mut hasher = DefaultHasher::new();
    let len = be::le64_bytes(key.len() as u64);
    hasher.write(len.as_slice());
    hasher.write(key);
    proof {
        assert(hasher@ =~= seq![be::le64(key@.len() as u64), key@]);
    }
    (hasher.finish() % num_partitions as u64) as u32
}

/// A group's offset on a partition.
#[derive(Debug, Clone, PartialEq)]
pub struct OffsetCommit {
    pub group: String,
    pub partition: u32,
    pub offset: u64,
}

/// Whether commit `i` is for the given group and partition.
pub open spec fn commit_for(
    cs: Seq<OffsetCommit>,
    i: int,
    group: Seq<char>,
    partition: u32,
) -> bool {
    cs[i].group@ == group && cs[i].partition == partition
}

/// The offset of the last commit of a group for a partition.
pub open spec fn committed(cs: Seq<OffsetCommit>, group: Seq<char>, partition: u32) -> Option<u64>
    decreases cs.len(),
{
    if cs.len() == 0 {
        None
    } else if commit_for(cs, cs.len() - 1, group, partition) {
        Some(cs.last().offset)
    } else {
        committed(cs.drop_last(), group, partition)
    }
}

proof fn lemma_committed(cs: Seq<OffsetCommit>, group: Seq<char>, partition: u32, i: int)
    requires
        -1 <= i < cs.len(),
        i >= 0 ==> commit_for(cs, i, group, partition),
        forall|j: int| i < j < cs.len() ==> !#[trigger] commit_for(cs, j, group, partition),
    ensures
        committed(cs, group, partition) == if i >= 0 {
            Some(cs[i].offset)
        } else {
            None
        },
    decreases cs.len(),
{
    if cs.len() > 0 && i < cs.len() - 1 {
        let rest = cs.drop_last();
        assert(!commit_for(cs, cs.len() - 1, group, partition));
        assert forall|j: int| i < j < rest.len() implies !#[trigger] commit_for(
            rest,
            j,
            group,
            partition,
        ) by {
            assert(!commit_for(cs, j, group, partition));
        }
        lemma_committed(rest, group, partition, i);
    }
}

/// What a topic consists of.
pub struct TopicView {
    pub partitions: Seq<PartitionView>,
    pub retention: RetentionPolicy,
    pub turn: u32,
}

/// The partition that the next record goes to.
pub open spec fn target(t: TopicView, partition: Option<u32>, key: Option<Seq<u8>>) -> u32 {
    match partition {
        Some(p) => p,
        None => match key {
            Some(k) => key_partition(k, t.partitions.len() as u32),
            None => t.turn % (t.partitions.len() as u32),
        },
    }
}

/// The turn after a publish: the next partition's if the topic chose by turn.
pub open spec fn turn_after(t: TopicView, partition: Option<u32>, key: Option<Seq<u8>>) -> u32 {
    if partition is None && key is None {
        if t.turn == u32::MAX {
            0
        } else {
            (t.turn + 1) as u32
        }
    } else {
        t.turn
    }
}

/// The topic after a record was published at `now`.
pub open spec fn published(
    t: TopicView,
    partition: Option<u32>,
    key: Option<Seq<u8>>,
    value: Seq<u8>,
    now: i64,
) -> TopicView {
    let p = target(t, partition, key) as int;
    TopicView {
        partitions: t.partitions.update(
            p,
            appended(t.partitions[p], key, value, now, t.retention),
        ),
        retention: t.retention,
        turn: turn_after(t, partition, key),
    }
}

/// A topic.
pub struct FluxLog {
    partitions: Vec<Partition>,
    retention: RetentionPolicy,
    offsets: Vec<OffsetCommit>,
    rr_counter: u32,
}

spec fn partition_views(ps: Seq<Partition>) -> Seq<PartitionView> {
    ps.map_values(|p: Partition| p@)
}

impl View for FluxLog {
    type V = TopicView;

    closed spec fn view(&self) -> TopicView {
        TopicView {
            partitions: partition_views(self.partitions@),
            retention: self.retention,
            turn: self.rr_counter,
        }
    }
}

/// The header of a topic: the number of its partitions and its limits, -1 for
/// none.
pub open spec fn meta_bytes(num_partitions: u32, policy: RetentionPolicy) -> Seq<u8> {
    let ms: i64 = match policy.retention_ms {
        Some(ms) => ms,
        None => (-1int) as i64,
    };
    let bytes: u64 = match policy.retention_bytes {
        Some(b) => b,
        None => u64::MAX,
    };
    be::be32(num_partitions) + (be::be64(ms as u64) + be::be64(bytes))
}

/// A limit as it stands in a header: none if its top bit is set.
pub open spec fn meta_of(meta: Seq<u8>) -> (u32, RetentionPolicy) {
    let ms = be::u64_at(meta, 4);
    let bytes = be::u64_at(meta, 12);
    (
        be::u32_at(meta, 0),
        RetentionPolicy {
            retention_ms: if (ms as i64) < 0 {
                None
            } else {
                Some(ms as i64)
            },
            retention_bytes: if (bytes as i64) < 0 {
                None
            } else {
                Some(bytes)
            },
        },
    )
}

impl FluxLog {
    /// Whether the sums kept beside the records are right.
    pub closed spec fn wf(&self) -> bool {
        &&& self.partitions@.len() <= u32::MAX
        &&& forall|i: int| 0 <= i < self.partitions@.len() ==> (#[trigger] self.partitions@[i]).wf()
    }

    /// The offset that a group committed for a partition.
    pub closed spec fn group_offset(&self, group: Seq<char>, partition: u32) -> Option<u64> {
        committed(self.offsets@, group, partition)
    }

    /// Whether every partition can count one more record with a value of `len`
    /// bytes.
    pub open spec fn has_room(&self, len: nat) -> bool {
        forall|i: int|
            0 <= i < self@.partitions.len() ==> (#[trigger] self@.partitions[i]).next_offset
                < u64::MAX && bytes_of(self@.partitions[i].records) + len <= u64::MAX
    }

    /// Whether every partition can count one more record with a value of `len`
    /// bytes.
    pub fn can_take(&self, len: usize) -> (r: bool)
        requires
            self.wf(),
        ensures
            r == self.has_room(len as nat),
    {
        let mut i: usize = 0;
        while i < self.partitions.len()
            invariant
                self.wf(),
                i <= self.partitions@.len(),
                forall|k: int|
                    0 <= k < i ==> (#[trigger] self@.partitions[k]).next_offset < u64::MAX
                        && bytes_of(self@.partitions[k].records) + len <= u64::MAX,
            decreases self.partitions@.len() - i,
        {
            assert(self@.partitions[i as int] == self.partitions@[i as int]@);
            let p = &self.partitions[i];
            if p.next_offset == u64::MAX || p.total_bytes > u64::MAX - len as u64 {
                return false;
            }
            i += 1;
        }
        true
    }

    /// A new topic.
    pub fn create(num_partitions: u32, retention: RetentionPolicy) -> (r: Result<FluxLog, FluxError>)
        ensures
            match r {
                Ok(log) => {
                    &&& num_partitions > 0
                    &&& log.wf()
                    &&& log@.partitions.len() == num_partitions
                    &&& forall|i: int|
                        0 <= i < num_partitions ==> #[trigger] log@.partitions[i] == replayed(
                            Seq::empty(),
                        )
                    &&& log@.retention == retention
                    &&& log@.turn == 0
                    &&& log@ == fresh_topic(num_partitions as nat, retention)
                    &&& forall|g: Seq<char>, p: u32| #[trigger] log.group_offset(g, p) is None
                },
                Err(e) => num_partitions == 0 && e == FluxError::NoPartitions,
            },
    {
        if num_partitions == 0 {
            return Err(FluxError::NoPartitions);
        }
        let mut partitions: Vec<Partition> = Vec::new();
        let mut i: u32 = 0;
        while i < num_partitions
            invariant
                i <= num_partitions,
                partitions@.len() == i,
                forall|k: int|
                    0 <= k < i ==> (#[trigger] partitions@[k]).wf() && partitions@[k]@ == replayed(
                        Seq::empty(),
                    ),
            decreases num_partitions - i,
        {
            let none: Vec<FluxRecord> = Vec::new();
            assert(flux_views(none@) =~= Seq::empty());
            partitions.push(Partition::open(none));
            i += 1;
        }
        let log = FluxLog { partitions, retention, offsets: Vec::new(), rr_counter: 0 };
        assert(log@.partitions =~= fresh_topic(num_partitions as nat, retention).partitions);
        Ok(log)
    }

    /// Reopens a topic from the records of its partitions' logs and from its
    /// commits, oldest first, and applies retention.
    pub fn open(
        retention: RetentionPolicy,
        logs: Vec<Vec<FluxRecord>>,
        commits: Vec<OffsetCommit>,
    ) -> (log: FluxLog)
        requires
            logs@.len() <= u32::MAX,
            forall|i: int|
                0 <= i < logs@.len() ==> bytes_of(flux_views((#[trigger] logs@[i])@)) <= u64::MAX
                    && offset_after(flux_views(logs@[i]@)) <= u64::MAX,
        ensures
            log.wf(),
            log@.partitions.len() == logs@.len(),
            forall|i: int|
                0 <= i < logs@.len() ==> #[trigger] log@.partitions[i] == opened(
                    flux_views(logs@[i]@),
                    retention,
                ),
            log@.retention == retention,
            log@.turn == 0,
            forall|g: Seq<char>, p: u32| #[trigger]
                log.group_offset(g, p) == committed(commits@, g, p),
    {
        let mut partitions: Vec<Partition> = Vec::new();
        let mut left: Vec<Vec<FluxRecord>> = logs;
        let ghost all = logs@;
        while left.len() > 0
            invariant
                left@ == all.subrange(partitions@.len() as int, all.len() as int),
                partitions@.len() <= all.len(),
                forall|i: int|
                    0 <= i < all.len() ==> bytes_of(flux_views((#[trigger] all[i])@)) <= u64::MAX
                        && offset_after(flux_views(all[i]@)) <= u64::MAX,
                forall|i: int|
                    0 <= i < partitions@.len() ==> (#[trigger] partitions@[i]).wf()
                        && partitions@[i]@ == (PartitionView {
                        records: retained(
                            flux_views(all[i]@),
                            newest_of(flux_views(all[i]@)),
                            retention,
                        ),
                        ..replayed(flux_views(all[i]@))
                    }),
            decreases left@.len(),
        {
            let ghost before = left@;
            let ghost n = partitions@.len() as int;
            let records = left.remove(0);
            proof {
                assert(records == before[0]);
                assert(before[0] == all[n]);
                assert(left@ =~= all.subrange(n + 1, all.len() as int));
            }
            let mut p = Partition::open(records);
            p.apply_retention(retention);
            partitions.push(p);
        }
        FluxLog { partitions, retention, offsets: commits, rr_counter: 0 }
    }

    /// The header of a topic.
    pub fn encode_meta(num_partitions: u32, retention: RetentionPolicy) -> (out: Vec<u8>)
        ensures
            out@ == meta_bytes(num_partitions, retention),
    {
        let mut out: Vec<u8> = Vec::new();
        put_u32(&mut out, num_partitions);
        let ms: i64 = match retention.retention_ms {
            Some(ms) => ms,
            None => -1,
        };
        put_u64(&mut out, ms as u64);
        let bytes: u64 = match retention.retention_bytes {
            Some(b) => b,
            None => u64::MAX,
        };
        put_u64(&mut out, bytes);
        assert(out@ =~= meta_bytes(num_partitions, retention));
        out
    }

    /// Reads the header of a topic.
    pub fn decode_meta(meta: &[u8]) -> (r: Result<(u32, RetentionPolicy), FluxError>)
        ensures
            match r {
                Ok(m) => meta@.len() >= 20 && m == meta_of(meta@),
                Err(e) => meta@.len() < 20 && e == FluxError::CutOffMeta,
            },
    {
        if meta.len() < 20 {
            return Err(FluxError::CutOffMeta);
        }
        let n: u32 = get_u32(meta, 0);
        let ms: u64 = get_u64(meta, 4);
        let bytes: u64 = get_u64(meta, 12);
        Ok(
            (
                n,
                RetentionPolicy {
                    retention_ms: if (ms as i64) < 0 {
                        None
                    } else {
                        Some(ms as i64)
                    },
                    retention_bytes: if (bytes as i64) < 0 {
                        None
                    } else {
                        Some(bytes)
                    },
                },
            ),
        )
    }

    /// The number of partitions.
    pub fn num_partitions(&self) -> (n: u32)
        requires
            self.wf(),
        ensures
            n == self@.partitions.len(),
    {
        self.partitions.len() as u32
    }

    /// The partition that the next record goes to, and the offset that it gets: the
    /// given partition, else the key's, else the one whose turn it is.
    pub fn next_place(&self, partition: Option<u32>, key: &Option<Vec<u8>>) -> (r: Result<
        (u32, u64),
        FluxError,
    >)
        requires
            self.wf(),
            partition is None ==> self@.partitions.len() > 0,
        ensures
            match r {
                Ok((p, offset)) => {
                    &&& p < self@.partitions.len()
                    &&& p == target(self@, partition, opt_bytes(*key))
                    &&& offset == self@.partitions[p as int].next_offset
                },
                Err(e) => partition matches Some(p) && p >= self@.partitions.len() && e == (
                FluxError::OutOfRange {
                    partition: p,
                    partitions: self@.partitions.len() as u32,
                }),
            },
    {
        let n: u32 = self.num_partitions();
        let t: u32 = match partition {
            Some(p) => {
                if p >= n {
                    return Err(FluxError::OutOfRange { partition: p, partitions: n });
                }
                p
            },
            None => match key {
                Some(k) => partition_for_key(k.as_slice(), n),
                None => self.rr_counter % n,
            },
        };
        assert(self@.partitions[t as int] == self.partitions@[t as int]@);
        Ok((t, self.partitions[t as usize].next_offset))
    }

    /// Publishes a record at the time `now`: to the given partition, else to
    /// the key's, else to the partition whose turn it is.
    pub fn publish_at(
        &mut self,
        partition: Option<u32>,
        key: Option<Vec<u8>>,
        value: Vec<u8>,
        now: i64,
    ) -> (r: Result<(u32, u64), FluxError>)
        requires
            old(self).wf(),
            old(self).has_room(value@.len()),
            partition is None ==> old(self)@.partitions.len() > 0,
        ensures
            final(self).wf(),
            forall|g: Seq<char>, p: u32| #[trigger]
                final(self).group_offset(g, p) == old(self).group_offset(g, p),
            match r {
                Ok((p, offset)) => {
                    &&& p < old(self)@.partitions.len()
                    &&& p == target(old(self)@, partition, opt_bytes(key))
                    &&& offset == old(self)@.partitions[p as int].next_offset
                    &&& final(self)@ == published(
                        old(self)@,
                        partition,
                        opt_bytes(key),
                        value@,
                        now,
                    )
                },
                Err(e) => {
                    &&& partition matches Some(p) && p >= old(self)@.partitions.len() && e == (
                    FluxError::OutOfRange {
                        partition: p,
                        partitions: old(self)@.partitions.len() as u32,
                    })
                    &&& final(self)@ == old(self)@
                },
            },
    {
        let (t, _) = match self.next_place(partition, &key) {
            Ok(place) => place,
            Err(e) => return Err(e),
        };
        if partition.is_none() && key.is_none() {
            self.rr_counter = if self.rr_counter == u32::MAX {
                0
            } else {
                self.rr_counter + 1
            };
        }
        let retention = self.retention;
        let ghost before = partition_views(self.partitions@);
        proof {
            assert(old(self)@.partitions[t as int] == self.partitions@[t as int]@);
        }
        let offset: u64 = self.partitions[t as usize].append(key, value, now, retention);
        proof {
            assert(partition_views(self.partitions@) =~= before.update(
                t as int,
                self.partitions@[t as int]@,
            ));
        }
        Ok((t, offset))
    }

    /// Publishes a record now.
    pub fn publish(&mut self, partition: Option<u32>, key: Option<Vec<u8>>, value: Vec<u8>) -> (r:
        Result<(u32, u64), FluxError>)
        requires
            old(self).wf(),
            old(self).has_room(value@.len()),
            partition is None ==> old(self)@.partitions.len() > 0,
        ensures
            final(self).wf(),
            forall|g: Seq<char>, p: u32| #[trigger]
                final(self).group_offset(g, p) == old(self).group_offset(g, p),
            match r {
                Ok((p, offset)) => {
                    &&& p < old(self)@.partitions.len()
                    &&& p == target(old(self)@, partition, opt_bytes(key))
                    &&& offset == old(self)@.partitions[p as int].next_offset
                    &&& exists|now: i64|
                        final(self)@ == #[trigger] published(
                            old(self)@,
                            partition,
                            opt_bytes(key),
                            value@,
                            now,
                        )
                },
                Err(e) => {
                    &&& partition matches Some(p) && p >= old(self)@.partitions.len() && e == (
                    FluxError::OutOfRange {
                        partition: p,
                        partitions: old(self)@.partitions.len() as u32,
                    })
                    &&& final(self)@ == old(self)@
                },
            },
    {
        self.publish_at(partition, key, value, now_ms())
    }

    fn find_commit(&self, group: &str, partition: u32) -> (r: Option<usize>)
        ensures
            match r {
                Some(i) => i < self.offsets@.len() && commit_for(
                    self.offsets@,
                    i as int,
                    group@,
                    partition,
                ) && (forall|j: int|
                    i < j < self.offsets@.len() ==> !#[trigger] commit_for(
                        self.offsets@,
                        j,
                        group@,
                        partition,
                    )) && self.group_offset(group@, partition) == Some(
                    self.offsets@[i as int].offset,
                ),
                None => (forall|j: int|
                    0 <= j < self.offsets@.len() ==> !#[trigger] commit_for(
                        self.offsets@,
                        j,
                        group@,
                        partition,
                    )) && self.group_offset(group@, partition) is None,
            },
    {
        let mut i: usize = self.offsets.len();
        while i > 0
            invariant
                i <= self.offsets@.len(),
                forall|j: int|
                    i <= j < self.offsets@.len() ==> !#[trigger] commit_for(
                        self.offsets@,
                        j,
                        group@,
                        partition,
                    ),
            decreases i,
        {
            i -= 1;
            if self.offsets[i].partition == partition && same_text(
                self.offsets[i].group.as_str(),
                group,
            ) {
                proof {
                    lemma_committed(self.offsets@, group@, partition, i as int);
                }
                return Some(i);
            }
        }
        proof {
            lemma_committed(self.offsets@, group@, partition, -1);
        }
        None
    }

    /// At most `max` records of a partition from the group's offset on, or
    /// from the first if the group never committed. The offset stays.
    pub fn poll(&self, group: &str, partition: u32, max: usize) -> (r: Result<
        Vec<FluxRecord>,
        FluxError,
    >)
        requires
            self.wf(),
        ensures
            match r {
                Ok(out) => partition < self@.partitions.len() && flux_views(out@) == unread(
                    self@.partitions[partition as int].records,
                    match self.group_offset(group@, partition) {
                        Some(o) => o,
                        None => 0,
                    },
                    max as nat,
                ),
                Err(e) => partition >= self@.partitions.len() && e == (
                FluxError::NoSuchPartition { partition }),
            },
    {
        if partition >= self.num_partitions() {
            return Err(FluxError::NoSuchPartition { partition });
        }
        let from: u64 = match self.find_commit(group, partition) {
            Some(i) => self.offsets[i].offset,
            None => 0,
        };
        assert(self@.partitions[partition as int] == self.partitions@[partition as int]@);
        Ok(self.partitions[partition as usize].poll(from, max))
    }

    /// Moves a group's offset on a partition.
    pub fn commit(&mut self, group: &str, partition: u32, offset: u64) -> (r: Result<(), FluxError>)
        requires
            old(self).wf(),
        ensures
            final(self).wf(),
            final(self)@ == old(self)@,
            match r {
                Ok(_) => {
                    &&& partition < old(self)@.partitions.len()
                    &&& group_moved(*old(self), group@, partition, offset, *final(self))
                },
                Err(e) => {
                    &&& partition >= old(self)@.partitions.len()
                    &&& e == (FluxError::NoSuchPartition { partition })
                    &&& forall|g: Seq<char>, p: u32|
                        #[trigger] final(self).group_offset(g, p) == old(self).group_offset(g, p)
                },
            },
    {
        if partition >= self.num_partitions() {
            return Err(FluxError::NoSuchPartition { partition });
        }
        let ghost before = self.offsets@;
        let new = OffsetCommit { group: group.to_owned(), partition, offset };
        match self.find_commit(group, partition) {
            Some(i) => {
                self.offsets[i] = new;
                proof {
                    assert forall|g: Seq<char>, p: u32|
                        #[trigger] self.group_offset(g, p) == if g == group@ && p == partition {
                            Some(offset)
                        } else {
                            old(self).group_offset(g, p)
                        } by {
                        lemma_commit_replaced(before, i as int, new, g, p);
                    }
                }
            },
            None => {
                self.offsets.push(new);
                proof {
                    assert forall|g: Seq<char>, p: u32|
                        #[trigger] self.group_offset(g, p) == if g == group@ && p == partition {
                            Some(offset)
                        } else {
                            old(self).group_offset(g, p)
                        } by {
                        lemma_commit_added(before, new, g, p);
                    }
                }
            },
        }
        Ok(())
    }

    /// Every record that a partition keeps, whatever any group has read.
    pub fn all_records(&self, partition: u32) -> (r: Option<Vec<FluxRecord>>)
        requires
            self.wf(),
        ensures
            match r {
                Some(out) => partition < self@.partitions.len() && flux_views(out@)
                    == self@.partitions[partition as int].records,
                None => partition >= self@.partitions.len(),
            },
    {
        if partition >= self.num_partitions() {
            return None;
        }
        assert(self@.partitions[partition as int] == self.partitions@[partition as int]@);
        Some(self.partitions[partition as usize].all())
    }
}

/// A new last commit for a pair changes what is committed for that pair alone.
proof fn lemma_commit_added(
    before: Seq<OffsetCommit>,
    new: OffsetCommit,
    g: Seq<char>,
    p: u32,
)
    ensures
        committed(before.push(new), g, p) == if g == new.group@ && p == new.partition {
            Some(new.offset)
        } else {
            committed(before, g, p)
        },
{
    assert(before.push(new).drop_last() =~= before);
}

/// So does a new offset in the last commit for the pair.
proof fn lemma_commit_replaced(
    before: Seq<OffsetCommit>,
    i: int,
    new: OffsetCommit,
    g: Seq<char>,
    p: u32,
)
    requires
        0 <= i < before.len(),
        commit_for(before, i, new.group@, new.partition),
        forall|j: int|
            i < j < before.len() ==> !#[trigger] commit_for(before, j, new.group@, new.partition),
    ensures
        committed(before.update(i, new), g, p) == if g == new.group@ && p == new.partition {
            Some(new.offset)
        } else {
            committed(before, g, p)
        },
{
    let after = before.update(i, new);
    if g == new.group@ && p == new.partition {
        assert forall|j: int| i < j < after.len() implies !#[trigger] commit_for(
            after,
            j,
            g,
            p,
        ) by {
            assert(after[j] == before[j]);
            assert(!commit_for(before, j, g, p));
        }
        lemma_committed(after, g, p, i);
    } else {
        lemma_committed_elsewhere(before, after, i, g, p);
    }
}

proof fn lemma_committed_elsewhere(
    before: Seq<OffsetCommit>,
    after: Seq<OffsetCommit>,
    i: int,
    g: Seq<char>,
    p: u32,
)
    requires
        0 <= i < before.len(),
        after == before.update(i, after[i]),
        !commit_for(before, i, g, p),
        !commit_for(after, i, g, p),
    ensures
        committed(after, g, p) == committed(before, g, p),
    decreases before.len(),
{
    if i == before.len() - 1 {
        assert(after.drop_last() =~= before.drop_last());
    } else {
        assert(after.drop_last() =~= before.drop_last().update(i, after[i]));
        assert(after.last() == before.last());
        lemma_committed_elsewhere(before.drop_last(), after.drop_last(), i, g, p);
    }
}

/// Records with the same key go to the same partition, whatever was published
/// between them.
pub proof fn law_same_key_same_partition(a: TopicView, b: TopicView, key: Seq<u8>)
    requires
        a.partitions.len() == b.partitions.len(),
    ensures
        target(a, None, Some(key)) == target(b, None, Some(key)),
{
}

/// Publishing keeps the number of partitions.
pub proof fn law_partitions_stay(
    t: TopicView,
    partition: Option<u32>,
    key: Option<Seq<u8>>,
    value: Seq<u8>,
    now: i64,
)
    requires
        target(t, partition, key) < t.partitions.len(),
    ensures
        published(t, partition, key, value, now).partitions.len() == t.partitions.len(),
{
}

/// Records without a key go round the partitions: of any two of as many turns
/// as there are partitions, no two go to the same one.
pub proof fn law_turns_go_round(turn: u32, i: int, j: int, n: u32)
    requires
        0 <= i < j < n,
        turn + n <= u32::MAX,
    ensures
        (turn + i) as u32 % n != (turn + j) as u32 % n,
{
    let a = turn + i;
    let b = turn + j;
    if a % (n as int) == b % (n as int) {
        assert(false) by (nonlinear_arith)
            requires
                n > 0,
                0 < b - a < n,
                a % (n as int) == b % (n as int),
        ;
    }
}

proof fn lemma_drop_excess(rs: Seq<FluxView>, max: nat)
    ensures
        bytes_of(drop_excess(rs, max)) <= max || drop_excess(rs, max).len() == 0,
        exists|n: int| 0 <= n <= rs.len() && drop_excess(rs, max) == #[trigger] rs.skip(n),
    decreases rs.len(),
{
    if rs.len() > 0 && bytes_of(rs) > max {
        lemma_drop_excess(rs.drop_first(), max);
        let n = choose|n: int|
            0 <= n <= rs.drop_first().len() && drop_excess(rs.drop_first(), max)
                == #[trigger] rs.drop_first().skip(n);
        assert(rs.drop_first().skip(n) =~= rs.skip(n + 1));
    } else {
        assert(rs.skip(0) =~= rs);
    }
}

proof fn lemma_drop_old(rs: Seq<FluxView>, cutoff: int)
    ensures
        drop_old(rs, cutoff).len() > 0 ==> drop_old(rs, cutoff)[0].timestamp_ms >= cutoff,
        exists|n: int| 0 <= n <= rs.len() && drop_old(rs, cutoff) == #[trigger] rs.skip(n) && (
        forall|i: int| 0 <= i < n ==> (#[trigger] rs[i]).timestamp_ms < cutoff),
    decreases rs.len(),
{
    if rs.len() > 0 && rs[0].timestamp_ms < cutoff {
        let rest = rs.drop_first();
        lemma_drop_old(rest, cutoff);
        let n = choose|n: int|
            0 <= n <= rest.len() && drop_old(rest, cutoff) == #[trigger] rest.skip(n) && (forall|
                i: int,
            |
                0 <= i < n ==> (#[trigger] rest[i]).timestamp_ms < cutoff);
        assert(rest.skip(n) =~= rs.skip(n + 1));
        assert forall|i: int| 0 <= i < n + 1 implies (#[trigger] rs[i]).timestamp_ms < cutoff by {
            if i > 0 {
                assert(rest[i - 1] == rs[i]);
            }
        }
    } else {
        assert(rs.skip(0) =~= rs);
    }
}

/// Retention drops the oldest records first: what stays is the end of what was
/// there.
pub proof fn law_retention_drops_the_oldest_first(
    rs: Seq<FluxView>,
    newest: i64,
    policy: RetentionPolicy,
)
    ensures
        exists|n: int| 0 <= n <= rs.len() && retained(rs, newest, policy) == #[trigger] rs.skip(n),
{
    let recent = match policy.retention_ms {
        Some(ms) => drop_old(rs, newest - ms),
        None => rs,
    };
    let a = match policy.retention_ms {
        Some(ms) => {
            lemma_drop_old(rs, newest - ms);
            choose|n: int| 0 <= n <= rs.len() && recent == #[trigger] rs.skip(n)
        },
        None => 0,
    };
    assert(rs.skip(0) =~= rs);
    assert(recent == rs.skip(a));
    match policy.retention_bytes {
        Some(max) => {
            lemma_drop_excess(recent, max as nat);
            let b = choose|n: int|
                0 <= n <= recent.len() && drop_excess(recent, max as nat) == #[trigger] recent.skip(
                    n,
                );
            assert(recent.skip(b) =~= rs.skip(a + b));
        },
        None => {},
    }
}

/// A size limit is kept: the values that stay hold at most that many bytes.
pub proof fn law_size_limit_is_kept(rs: Seq<FluxView>, newest: i64, policy: RetentionPolicy, max: u64)
    requires
        policy.retention_bytes == Some(max),
    ensures
        bytes_of(retained(rs, newest, policy)) <= max,
{
    let recent = match policy.retention_ms {
        Some(ms) => drop_old(rs, newest - ms),
        None => rs,
    };
    lemma_drop_excess(recent, max as nat);
}

/// Whether offsets ascend and lie below the next one.
pub open spec fn offsets_ascend(p: PartitionView) -> bool {
    &&& forall|i: int, j: int|
        0 <= i < j < p.records.len() ==> (#[trigger] p.records[i]).offset < (
        #[trigger] p.records[j]).offset
    &&& forall|i: int| 0 <= i < p.records.len() ==> (#[trigger] p.records[i]).offset
        < p.next_offset
}

/// Offsets ascend in a new partition, and publishing keeps them ascending.
pub proof fn law_offsets_ascend(
    p: PartitionView,
    key: Option<Seq<u8>>,
    value: Seq<u8>,
    now: i64,
    policy: RetentionPolicy,
)
    requires
        offsets_ascend(p),
        p.next_offset < u64::MAX,
    ensures
        offsets_ascend(replayed(Seq::empty())),
        offsets_ascend(appended(p, key, value, now, policy)),
{
    let all = p.records.push(next_record(p, key, value, now));
    let newest = later(p.newest_ts, now);
    law_retention_drops_the_oldest_first(all, newest, policy);
    let n = choose|n: int|
        0 <= n <= all.len() && retained(all, newest, policy) == #[trigger] all.skip(n);
    let kept = all.skip(n);
    let after = appended(p, key, value, now, policy);
    assert forall|i: int, j: int| 0 <= i < j < after.records.len() implies (
    #[trigger] after.records[i]).offset < (#[trigger] after.records[j]).offset by {
        assert(kept[i] == all[n + i]);
        assert(kept[j] == all[n + j]);
    }
    assert forall|i: int| 0 <= i < after.records.len() implies (
    #[trigger] after.records[i]).offset < after.next_offset by {
        assert(kept[i] == all[n + i]);
    }
}

proof fn lemma_unread_all(rs: Seq<FluxView>, from: u64, max: nat)
    requires
        rs.len() <= max,
        forall|i: int| 0 <= i < rs.len() ==> (#[trigger] rs[i]).offset >= from,
    ensures
        unread(rs, from, max) == rs,
    decreases rs.len(),
{
    if rs.len() > 0 {
        let rest = rs.drop_first();
        assert forall|i: int| 0 <= i < rest.len() implies (#[trigger] rest[i]).offset >= from by {
            assert(rest[i] == rs[i + 1]);
        }
        lemma_unread_all(rest, from, (max - 1) as nat);
        assert(seq![rs[0]] + rest =~= rs);
    } else {
        assert(rs =~= Seq::empty());
    }
}

/// A group that never committed reads everything from the first record on.
pub proof fn law_new_group_reads_everything(rs: Seq<FluxView>, max: nat)
    requires
        rs.len() <= max,
    ensures
        unread(rs, 0, max) == rs,
{
    lemma_unread_all(rs, 0, max);
}

/// What a group reads starts at its offset and is at most as much as it asked
/// for.
pub proof fn law_group_reads_from_its_offset(rs: Seq<FluxView>, from: u64, max: nat)
    ensures
        unread(rs, from, max).len() <= max,
        forall|i: int|
            0 <= i < unread(rs, from, max).len() ==> (#[trigger] unread(rs, from, max)[i]).offset
                >= from,
    decreases rs.len(),
{
    if rs.len() > 0 && max > 0 {
        if rs[0].offset >= from {
            law_group_reads_from_its_offset(rs.drop_first(), from, (max - 1) as nat);
        } else {
            law_group_reads_from_its_offset(rs.drop_first(), from, max);
        }
    }
}

/// The header of a topic is read back. A negative time limit, and a size limit
/// whose top bit is set, read as none.
pub proof fn law_meta_round_trips(num_partitions: u32, policy: RetentionPolicy)
    requires
        policy.retention_ms matches Some(ms) ==> ms >= 0,
        policy.retention_bytes matches Some(b) ==> b <= i64::MAX,
    ensures
        meta_of(meta_bytes(num_partitions, policy)) == (num_partitions, policy),
{
    let ms: i64 = match policy.retention_ms {
        Some(ms) => ms,
        None => (-1int) as i64,
    };
    let bytes: u64 = match policy.retention_bytes {
        Some(b) => b,
        None => u64::MAX,
    };
    let s = meta_bytes(num_partitions, policy);
    be::lemma_be32(num_partitions);
    be::lemma_be64(ms as u64);
    be::lemma_be64(bytes);
    assert(s.subrange(0, 4) =~= be::be32(num_partitions));
    assert(s.subrange(4, 12) =~= be::be64(ms as u64));
    assert(s.subrange(12, 20) =~= be::be64(bytes));
    be::lemma_signed_bits(ms);
    be::lemma_signed_bits((-1int) as i64);
}

/// A publish: where to, what and when.
pub struct Publish {
    pub partition: Option<u32>,
    pub key: Option<Seq<u8>>,
    pub value: Seq<u8>,
    pub now: i64,
}

/// A topic as it is made.
pub open spec fn fresh_topic(n: nat, policy: RetentionPolicy) -> TopicView {
    TopicView {
        partitions: Seq::new(n, |i: int| replayed(Seq::empty())),
        retention: policy,
        turn: 0,
    }
}

/// The topic after several publishes.
pub open spec fn after_publishes(t: TopicView, ps: Seq<Publish>) -> TopicView
    decreases ps.len(),
{
    if ps.len() == 0 {
        t
    } else {
        let last = ps.last();
        published(
            after_publishes(t, ps.drop_last()),
            last.partition,
            last.key,
            last.value,
            last.now,
        )
    }
}

/// The records that several publishes sent to a partition, all of them, in
/// order: what its log holds.
pub open spec fn sent_to(t: TopicView, ps: Seq<Publish>, p: int) -> Seq<FluxView>
    decreases ps.len(),
{
    if ps.len() == 0 {
        Seq::empty()
    } else {
        let last = ps.last();
        let before = after_publishes(t, ps.drop_last());
        let sent = sent_to(t, ps.drop_last(), p);
        if target(before, last.partition, last.key) == p {
            sent.push(next_record(before.partitions[p], last.key, last.value, last.now))
        } else {
            sent
        }
    }
}

/// Whether every publish names a partition that there is, or none.
pub open spec fn all_in_range(ps: Seq<Publish>, n: nat) -> bool {
    forall|i: int|
        0 <= i < ps.len() ==> ((#[trigger] ps[i]).partition matches Some(p) ==> p < n)
}

proof fn lemma_target_in_range(t: TopicView, partition: Option<u32>, key: Option<Seq<u8>>)
    requires
        0 < t.partitions.len() <= u32::MAX,
        partition matches Some(p) ==> p < t.partitions.len(),
    ensures
        target(t, partition, key) < t.partitions.len(),
{
    let n = t.partitions.len() as u32;
    if partition is None {
        match key {
            Some(k) => {
                assert(key_hash(k) % (n as u64) < n);
            },
            None => {
                assert(t.turn % n < n);
            },
        }
    }
}

/// Whether no record is older than one before it.
pub open spec fn times_ascend(rs: Seq<FluxView>) -> bool {
    forall|i: int, j: int|
        0 <= i < j < rs.len() ==> (#[trigger] rs[i]).timestamp_ms <= (#[trigger] rs[j]).timestamp_ms
}

/// Whether the clock of several publishes never went back.
pub open spec fn clock_ascends(ps: Seq<Publish>) -> bool {
    forall|i: int, j: int| 0 <= i < j < ps.len() ==> (#[trigger] ps[i]).now <= (#[trigger] ps[j]).now
}

/// Whether a policy drops records for one reason only.
pub open spec fn one_limit(policy: RetentionPolicy) -> bool {
    policy.retention_ms is None || policy.retention_bytes is None
}

proof fn lemma_bytes_push(rs: Seq<FluxView>, r: FluxView)
    ensures
        bytes_of(rs.push(r)) == bytes_of(rs) + r.value.len(),
    decreases rs.len(),
{
    if rs.len() > 0 {
        lemma_bytes_push(rs.drop_first(), r);
        assert(rs.push(r).drop_first() =~= rs.drop_first().push(r));
    } else {
        assert(rs.push(r).drop_first() =~= rs);
    }
}

/// Dropping what is old, and again after one more record, drops what is old then.
proof fn lemma_drop_old_again(rs: Seq<FluxView>, r: FluxView, first: int, second: int)
    requires
        first <= second,
    ensures
        drop_old(drop_old(rs, first).push(r), second) == drop_old(rs.push(r), second),
    decreases rs.len(),
{
    if rs.len() > 0 && rs[0].timestamp_ms < first {
        lemma_drop_old_again(rs.drop_first(), r, first, second);
        assert(rs.push(r).drop_first() =~= rs.drop_first().push(r));
    }
}

/// Dropping what is too much, and again after one more record, drops what is too
/// much then.
proof fn lemma_drop_excess_again(rs: Seq<FluxView>, r: FluxView, max: nat)
    ensures
        drop_excess(drop_excess(rs, max).push(r), max) == drop_excess(rs.push(r), max),
    decreases rs.len(),
{
    if rs.len() > 0 && bytes_of(rs) > max {
        lemma_bytes_push(rs, r);
        lemma_drop_excess_again(rs.drop_first(), r, max);
        assert(rs.push(r).drop_first() =~= rs.drop_first().push(r));
    }
}

/// The same for both, where times ascend.
proof fn lemma_drop_both_again(rs: Seq<FluxView>, r: FluxView, cutoff: int, max: nat)
    requires
        times_ascend(rs.push(r)),
    ensures
        drop_excess(drop_old(drop_excess(rs, max).push(r), cutoff), max) == drop_excess(
            drop_old(rs.push(r), cutoff),
            max,
        ),
    decreases rs.len(),
{
    if rs.len() > 0 && bytes_of(rs) > max {
        let all = rs.push(r);
        let rest = rs.drop_first().push(r);
        assert(all.drop_first() =~= rest);
        assert forall|i: int, j: int| 0 <= i < j < rest.len() implies (
        #[trigger] rest[i]).timestamp_ms <= (#[trigger] rest[j]).timestamp_ms by {
            assert(all[i + 1] == rest[i]);
            assert(all[j + 1] == rest[j]);
        }
        lemma_drop_both_again(rs.drop_first(), r, cutoff, max);
        lemma_bytes_push(rs, r);
        if rs[0].timestamp_ms >= cutoff {
            assert(all[0].timestamp_ms <= all[1].timestamp_ms);
            assert(drop_old(all, cutoff) == all);
            assert(drop_old(rest, cutoff) == rest);
        }
    }
}

/// What is kept of what was kept, after one more record, is what is kept of all.
proof fn lemma_retained_again(
    rs: Seq<FluxView>,
    newest: i64,
    r: FluxView,
    policy: RetentionPolicy,
)
    requires
        one_limit(policy) || times_ascend(rs.push(r)),
    ensures
        retained(
            retained(rs, newest, policy).push(r),
            later(newest, r.timestamp_ms),
            policy,
        ) == retained(rs.push(r), later(newest, r.timestamp_ms), policy),
{
    let then = later(newest, r.timestamp_ms);
    match policy.retention_ms {
        Some(ms) => {
            let recent = drop_old(rs, newest - ms);
            lemma_drop_old_again(rs, r, newest - ms, then - ms);
            if let Some(max) = policy.retention_bytes {
                lemma_drop_old(rs, newest - ms);
                let n = choose|n: int|
                    0 <= n <= rs.len() && recent == #[trigger] rs.skip(n) && (forall|i: int|
                        0 <= i < n ==> (#[trigger] rs[i]).timestamp_ms < newest - ms);
                let part = recent.push(r);
                let all = rs.push(r);
                assert forall|i: int, j: int| 0 <= i < j < part.len() implies (
                #[trigger] part[i]).timestamp_ms <= (#[trigger] part[j]).timestamp_ms by {
                    assert(all[i + n] == part[i]);
                    assert(all[j + n] == part[j]);
                }
                lemma_drop_both_again(recent, r, then - ms, max as nat);
            }
        },
        None => {
            if let Some(max) = policy.retention_bytes {
                lemma_drop_excess_again(rs, r, max as nat);
            }
        },
    }
}

proof fn lemma_sent(n: nat, policy: RetentionPolicy, ps: Seq<Publish>, p: int)
    requires
        0 < n <= u32::MAX,
        0 <= p < n,
        ps.len() < u64::MAX,
        all_in_range(ps, n),
    ensures
        ({
            let t = after_publishes(fresh_topic(n, policy), ps);
            let sent = sent_to(fresh_topic(n, policy), ps, p);
            &&& t.partitions.len() == n
            &&& t.retention == policy
            &&& sent.len() <= ps.len()
            &&& t.partitions[p].next_offset == sent.len()
            &&& t.partitions[p].newest_ts == newest_of(sent)
            &&& forall|i: int| 0 <= i < sent.len() ==> (#[trigger] sent[i]).offset == i
            &&& clock_ascends(ps) ==> times_ascend(sent) && forall|i: int|
                0 <= i < sent.len() ==> (#[trigger] sent[i]).timestamp_ms <= ps.last().now
            &&& one_limit(policy) || clock_ascends(ps) ==> t.partitions[p].records == retained(
                sent,
                newest_of(sent),
                policy,
            )
        }),
    decreases ps.len(),
{
    let start = fresh_topic(n, policy);
    if ps.len() > 0 {
        let fewer = ps.drop_last();
        let last = ps.last();
        assert forall|i: int| 0 <= i < fewer.len() implies ((#[trigger] fewer[i]).partition matches Some(
            q,
        ) ==> q < n) by {
            assert(fewer[i] == ps[i]);
        }
        lemma_sent(n, policy, fewer, p);
        let before = after_publishes(start, fewer);
        assert(ps[ps.len() - 1] == last);
        lemma_target_in_range(before, last.partition, last.key);
        let sent = sent_to(start, fewer, p);
        let now = sent_to(start, ps, p);
        if clock_ascends(ps) {
            assert(clock_ascends(fewer)) by {
                assert forall|i: int, j: int| 0 <= i < j < fewer.len() implies (
                #[trigger] fewer[i]).now <= (#[trigger] fewer[j]).now by {
                    assert(ps[i] == fewer[i]);
                    assert(ps[j] == fewer[j]);
                }
            }
            assert forall|i: int| 0 <= i < sent.len() implies (#[trigger] sent[i]).timestamp_ms
                <= last.now by {
                assert(ps[fewer.len() - 1].now <= ps[ps.len() - 1].now);
            }
            assert(times_ascend(now));
        }
        if target(before, last.partition, last.key) == p {
            let r = next_record(before.partitions[p], last.key, last.value, last.now);
            assert(sent.push(r).drop_last() =~= sent);
            if one_limit(policy) || clock_ascends(ps) {
                lemma_retained_again(sent, newest_of(sent), r, policy);
            }
        }
    }
}

/// The offset of a record is the number of records that were published to its
/// partition before it, whatever retention dropped meanwhile.
pub proof fn law_offset_counts_the_records_before(
    n: nat,
    policy: RetentionPolicy,
    ps: Seq<Publish>,
    partition: Option<u32>,
    key: Option<Seq<u8>>,
)
    requires
        0 < n <= u32::MAX,
        ps.len() < u64::MAX,
        all_in_range(ps, n),
        partition matches Some(p) ==> p < n,
    ensures
        ({
            let t = after_publishes(fresh_topic(n, policy), ps);
            let p = target(t, partition, key) as int;
            &&& 0 <= p < n
            &&& t.partitions[p].next_offset == sent_to(fresh_topic(n, policy), ps, p).len()
        }),
{
    let t = after_publishes(fresh_topic(n, policy), ps);
    lemma_sent(n, policy, ps, 0);
    lemma_target_in_range(t, partition, key);
    lemma_sent(n, policy, ps, target(t, partition, key) as int);
}

/// A partition as it is opened on a log.
pub open spec fn opened(sent: Seq<FluxView>, policy: RetentionPolicy) -> PartitionView {
    PartitionView { records: retained(sent, newest_of(sent), policy), ..replayed(sent) }
}

/// A topic reopened on the logs of its partitions holds what it held: the same
/// records, the same next offset and the same latest time in every partition. A
/// policy with limits on both age and size needs a clock that never went back:
/// else a record that size dropped may have kept older ones behind it.
pub proof fn law_reopened_topic_gives_back_its_records(
    n: nat,
    policy: RetentionPolicy,
    ps: Seq<Publish>,
    p: int,
)
    requires
        0 < n <= u32::MAX,
        0 <= p < n,
        ps.len() < u64::MAX,
        all_in_range(ps, n),
        one_limit(policy) || clock_ascends(ps),
    ensures
        opened(sent_to(fresh_topic(n, policy), ps, p), policy) == after_publishes(
            fresh_topic(n, policy),
            ps,
        ).partitions[p],
{
    lemma_sent(n, policy, ps, p);
    let sent = sent_to(fresh_topic(n, policy), ps, p);
    if sent.len() > 0 {
        assert(sent[sent.len() - 1].offset == sent.len() - 1);
    }
}

/// A topic reopened on its logs and its commits gives every group what the topic
/// would have given it, and the next record the same offset.
pub proof fn law_reopened_topic_goes_on_alike(
    n: nat,
    policy: RetentionPolicy,
    ps: Seq<Publish>,
    cs: Seq<OffsetCommit>,
    group: Seq<char>,
    p: int,
    max: nat,
    next: Publish,
)
    requires
        0 < n <= u32::MAX,
        0 <= p < n,
        ps.len() < u64::MAX,
        all_in_range(ps, n),
        one_limit(policy) || clock_ascends(ps),
    ensures
        ({
            let held = after_publishes(fresh_topic(n, policy), ps).partitions[p];
            let again = opened(sent_to(fresh_topic(n, policy), ps, p), policy);
            let from = match committed(cs, group, p as u32) {
                Some(o) => o,
                None => 0u64,
            };
            &&& again.records == held.records
            &&& unread(again.records, from, max) == unread(held.records, from, max)
            &&& next_record(again, next.key, next.value, next.now) == next_record(
                held,
                next.key,
                next.value,
                next.now,
            )
            &&& again.next_offset == sent_to(fresh_topic(n, policy), ps, p).len()
        }),
{
    law_reopened_topic_gives_back_its_records(n, policy, ps, p);
    lemma_sent(n, policy, ps, p);
}

proof fn lemma_first_turns(n: nat, policy: RetentionPolicy, ps: Seq<Publish>, p: int)
    requires
        0 < n <= u32::MAX,
        0 <= p < n,
        ps.len() <= n,
        forall|i: int|
            0 <= i < ps.len() ==> (#[trigger] ps[i]).partition is None && ps[i].key is None,
    ensures
        ({
            let t = after_publishes(fresh_topic(n, policy), ps);
            &&& t.partitions.len() == n
            &&& t.turn == ps.len()
            &&& sent_to(fresh_topic(n, policy), ps, p).len() == (if p < ps.len() {
                1nat
            } else {
                0nat
            })
        }),
    decreases ps.len(),
{
    if ps.len() > 0 {
        let fewer = ps.drop_last();
        assert forall|i: int| 0 <= i < fewer.len() implies (#[trigger] fewer[i]).partition is None
            && fewer[i].key is None by {
            assert(ps[i] == fewer[i]);
        }
        lemma_first_turns(n, policy, fewer, p);
        let before = after_publishes(fresh_topic(n, policy), fewer);
        assert(ps[ps.len() - 1] == ps.last());
        assert(before.turn % (n as u32) == fewer.len()) by (nonlinear_arith)
            requires
                before.turn == fewer.len(),
                fewer.len() < n,
                n <= u32::MAX,
        ;
    }
}

/// As many records without a key as a new topic has partitions go one to each.
pub proof fn law_first_turns_reach_every_partition(
    n: nat,
    policy: RetentionPolicy,
    ps: Seq<Publish>,
    p: int,
)
    requires
        0 < n <= u32::MAX,
        0 <= p < n,
        ps.len() == n,
        forall|i: int|
            0 <= i < ps.len() ==> (#[trigger] ps[i]).partition is None && ps[i].key is None,
    ensures
        sent_to(fresh_topic(n, policy), ps, p).len() == 1,
        after_publishes(fresh_topic(n, policy), ps).partitions[p].next_offset == 1,
{
    lemma_first_turns(n, policy, ps, p);
    lemma_sent(n, policy, ps, p);
}

/// A topic reopened on its commits knows the last offset that each group
/// committed for each partition: one more commit at their end changes that of
/// its own group and partition, and no other.
pub proof fn law_reopened_topic_knows_the_commits(
    cs: Seq<OffsetCommit>,
    c: OffsetCommit,
    group: Seq<char>,
    partition: u32,
)
    ensures
        committed(Seq::empty(), group, partition) is None,
        committed(cs.push(c), group, partition) == (if group == c.group@ && partition
            == c.partition {
            Some(c.offset)
        } else {
            committed(cs, group, partition)
        }),
{
    assert(cs.push(c).drop_last() =~= cs);
}

/// A record that is published goes behind the others of its partition, with the
/// next offset, its own key and value and the time; no other partition changes.
/// Without retention nothing is dropped for it.
pub proof fn law_published_record_goes_behind_the_others(
    t: TopicView,
    partition: Option<u32>,
    key: Option<Seq<u8>>,
    value: Seq<u8>,
    now: i64,
    q: int,
)
    requires
        target(t, partition, key) < t.partitions.len(),
        t.retention.retention_ms is None,
        t.retention.retention_bytes is None,
        t.partitions[target(t, partition, key) as int].next_offset < u64::MAX,
        0 <= q < t.partitions.len(),
    ensures
        ({
            let p = target(t, partition, key) as int;
            let before = t.partitions[q];
            let after = published(t, partition, key, value, now).partitions[q];
            if q == p {
                &&& after.records.len() == before.records.len() + 1
                &&& after.records.drop_last() == before.records
                &&& after.records.last().offset == before.next_offset
                &&& after.records.last().key == key
                &&& after.records.last().value == value
                &&& after.records.last().timestamp_ms == now
                &&& after.next_offset == before.next_offset + 1
            } else {
                after == before
            }
        }),
        partition matches Some(x) ==> target(t, partition, key) == x,
        partition is None && key is None ==> target(t, partition, key) == t.turn
            % t.partitions.len() as u32,
{
    let p = target(t, partition, key) as int;
    let before = t.partitions[p];
    let after = published(t, partition, key, value, now).partitions[p];
    assert(after.records.drop_last() =~= before.records);
}

/// Retention by age drops the records in front that are older than it allows, and
/// stops at the first that is not.
pub proof fn law_age_limit_drops_only_the_old(
    rs: Seq<FluxView>,
    newest: i64,
    ms: i64,
)
    ensures
        ({
            let policy = RetentionPolicy { retention_ms: Some(ms), retention_bytes: None };
            exists|n: int|
                0 <= n <= rs.len() && retained(rs, newest, policy) == #[trigger] rs.skip(n) && (
                forall|i: int| 0 <= i < n ==> (#[trigger] rs[i]).timestamp_ms < newest - ms) && (n
                    < rs.len() ==> rs[n].timestamp_ms >= newest - ms)
        }),
{
    lemma_drop_old(rs, newest - ms);
    let n = choose|n: int|
        0 <= n <= rs.len() && drop_old(rs, newest - ms) == #[trigger] rs.skip(n) && (forall|i: int|
            0 <= i < n ==> (#[trigger] rs[i]).timestamp_ms < newest - ms);
    if n < rs.len() {
        assert(rs.skip(n)[0] == rs[n]);
    }
}

/// Retention by size drops as many records in front as it takes for the others to
/// fit, and not one more.
pub proof fn law_size_limit_drops_no_more_than_it_must(rs: Seq<FluxView>, newest: i64, max: u64)
    ensures
        ({
            let policy = RetentionPolicy { retention_ms: None, retention_bytes: Some(max) };
            exists|n: int|
                0 <= n <= rs.len() && retained(rs, newest, policy) == #[trigger] rs.skip(n)
                    && bytes_of(rs.skip(n)) <= max && (n > 0 ==> bytes_of(rs.skip(n - 1)) > max)
        }),
    decreases rs.len(),
{
    let policy = RetentionPolicy { retention_ms: None, retention_bytes: Some(max) };
    if rs.len() > 0 && bytes_of(rs) > max {
        let rest = rs.drop_first();
        law_size_limit_drops_no_more_than_it_must(rest, newest, max);
        let n = choose|n: int|
            0 <= n <= rest.len() && retained(rest, newest, policy) == #[trigger] rest.skip(n)
                && bytes_of(rest.skip(n)) <= max && (n > 0 ==> bytes_of(rest.skip(n - 1)) > max);
        assert(rest.skip(n) =~= rs.skip(n + 1));
        if n > 0 {
            assert(rest.skip(n - 1) =~= rs.skip(n));
        } else {
            assert(rs.skip(0) =~= rs);
        }
    } else {
        assert(rs.skip(0) =~= rs);
    }
}

/// The size of records is the sum of the lengths of their values.
pub proof fn law_size_is_the_sum_of_the_values(rs: Seq<FluxView>, r: FluxView)
    ensures
        bytes_of(Seq::<FluxView>::empty()) == 0,
        bytes_of(rs.push(r)) == bytes_of(rs) + r.value.len(),
{
    lemma_bytes_push(rs, r);
}

/// The latest time of records is that of one of them, and none is later.
pub proof fn law_latest_time_is_above_all(rs: Seq<FluxView>)
    ensures
        forall|i: int| 0 <= i < rs.len() ==> (#[trigger] rs[i]).timestamp_ms <= newest_of(rs),
        rs.len() > 0 ==> exists|i: int|
            0 <= i < rs.len() && (#[trigger] rs[i]).timestamp_ms == newest_of(rs),
    decreases rs.len(),
{
    if rs.len() > 0 {
        let head = rs.drop_last();
        let n = rs.len() - 1;
        law_latest_time_is_above_all(head);
        assert(rs[n] == rs.last());
        assert forall|i: int| 0 <= i < rs.len() implies (#[trigger] rs[i]).timestamp_ms
            <= newest_of(rs) by {
            if i < n {
                assert(head[i] == rs[i]);
            }
        }
        if newest_of(rs) == rs.last().timestamp_ms {
            assert(rs[n].timestamp_ms == newest_of(rs));
        } else {
            let i = choose|i: int|
                0 <= i < head.len() && (#[trigger] head[i]).timestamp_ms == newest_of(head);
            assert(rs[i] == head[i]);
        }
    }
}

/// What a group reads is one stretch of the records: it starts at the first whose
/// offset is not below the group's, and goes on to the end or as far as asked.
pub proof fn law_group_reads_one_stretch(rs: Seq<FluxView>, from: u64, max: nat)
    requires
        forall|i: int, j: int|
            0 <= i < j < rs.len() ==> (#[trigger] rs[i]).offset < (#[trigger] rs[j]).offset,
    ensures
        exists|k: int|
            0 <= k <= rs.len() && (forall|i: int| 0 <= i < k ==> (#[trigger] rs[i]).offset < from)
                && (k < rs.len() ==> rs[k].offset >= from) && unread(rs, from, max)
                == (#[trigger] rs.skip(k)).take(
                if max < rs.len() - k {
                    max as int
                } else {
                    rs.len() - k
                },
            ),
    decreases rs.len(),
{
    if rs.len() == 0 {
        assert(rs.skip(0).take(0) =~= unread(rs, from, max));
    } else {
        let rest = rs.drop_first();
        assert forall|i: int, j: int| 0 <= i < j < rest.len() implies (#[trigger] rest[i]).offset < (
        #[trigger] rest[j]).offset by {
            assert(rs[i + 1].offset < rs[j + 1].offset);
        }
        if rs[0].offset < from {
            law_group_reads_one_stretch(rest, from, max);
            let k = choose|k: int|
                0 <= k <= rest.len() && (forall|i: int|
                    0 <= i < k ==> (#[trigger] rest[i]).offset < from) && (k < rest.len()
                    ==> rest[k].offset >= from) && unread(rest, from, max)
                    == (#[trigger] rest.skip(k)).take(
                    if max < rest.len() - k {
                        max as int
                    } else {
                        rest.len() - k
                    },
                );
            assert(rest.skip(k) =~= rs.skip(k + 1));
            assert forall|i: int| 0 <= i < k + 1 implies (#[trigger] rs[i]).offset < from by {
                if i > 0 {
                    assert(rest[i - 1] == rs[i]);
                }
            }
            if max == 0 {
                assert(rs.skip(k + 1).take(0) =~= unread(rs, from, max));
            }
            assert(unread(rs, from, max) == rs.skip(k + 1).take(
                if max < rs.len() - (k + 1) {
                    max as int
                } else {
                    rs.len() - (k + 1)
                },
            ));
        } else {
            let n = if max < rs.len() {
                max as int
            } else {
                rs.len() as int
            };
            lemma_reads_all_from(rs, from, max);
            assert(rs.skip(0) =~= rs);
            assert(unread(rs, from, max) == rs.skip(0).take(n));
        }
    }
}

proof fn lemma_reads_all_from(rs: Seq<FluxView>, from: u64, max: nat)
    requires
        forall|i: int| 0 <= i < rs.len() ==> (#[trigger] rs[i]).offset >= from || i > 0,
        forall|i: int, j: int|
            0 <= i < j < rs.len() ==> (#[trigger] rs[i]).offset < (#[trigger] rs[j]).offset,
    ensures
        unread(rs, from, max) == rs.take(
            if max < rs.len() {
                max as int
            } else {
                rs.len() as int
            },
        ),
    decreases rs.len(),
{
    let n = if max < rs.len() {
        max as int
    } else {
        rs.len() as int
    };
    if rs.len() == 0 || max == 0 {
        assert(rs.take(n) =~= Seq::<FluxView>::empty());
    } else {
        let rest = rs.drop_first();
        assert forall|i: int| 0 <= i < rest.len() implies (#[trigger] rest[i]).offset >= from || i
            > 0 by {
            assert(rs[0].offset < rs[i + 1].offset);
        }
        assert forall|i: int, j: int| 0 <= i < j < rest.len() implies (#[trigger] rest[i]).offset < (
        #[trigger] rest[j]).offset by {
            assert(rs[i + 1].offset < rs[j + 1].offset);
        }
        lemma_reads_all_from(rest, from, (max - 1) as nat);
        assert(rs.take(n) =~= seq![rs[0]] + rest.take(n - 1));
    }
}

/// The header of a topic is its number of partitions in four bytes, the time that
/// it keeps records for in eight, and the bytes that it keeps in eight; all ones
/// stand for no limit.
pub proof fn law_header_of_a_topic_has_its_places(n: u32, policy: RetentionPolicy)
    ensures
        ({
            let b = meta_bytes(n, policy);
            &&& b.len() == 20
            &&& be::u32_at(b, 0) == n
            &&& be::u64_at(b, 4) == (match policy.retention_ms {
                Some(ms) => ms as u64,
                None => u64::MAX,
            })
            &&& be::u64_at(b, 12) == (match policy.retention_bytes {
                Some(max) => max,
                None => u64::MAX,
            })
        }),
{
    let ms: i64 = match policy.retention_ms {
        Some(ms) => ms,
        None => (-1int) as i64,
    };
    let bytes: u64 = match policy.retention_bytes {
        Some(b) => b,
        None => u64::MAX,
    };
    let b = meta_bytes(n, policy);
    be::lemma_be32(n);
    be::lemma_be64(ms as u64);
    be::lemma_be64(bytes);
    be::lemma_signed_bits((-1int) as i64);
    assert(b.subrange(0, 4) =~= be::be32(n));
    assert(b.subrange(4, 12) =~= be::be64(ms as u64));
    assert(b.subrange(12, 20) =~= be::be64(bytes));
}

/// Whether of all groups only one reads on from another offset, in one partition.
pub open spec fn group_moved(
    before: FluxLog,
    group: Seq<char>,
    partition: u32,
    offset: u64,
    after: FluxLog,
) -> bool {
    forall|g: Seq<char>, p: u32| #[trigger]
        after.group_offset(g, p) == if g == group && p == partition {
            Some(offset)
        } else {
            before.group_offset(g, p)
        }
}

/// A group that reads on behind the last record it got gets no record twice and
/// misses none; other groups, and other partitions, read on as before.
pub proof fn law_group_reads_on_where_it_stopped(
    rs: Seq<FluxView>,
    from: u64,
    max: nat,
    before: FluxLog,
    group: Seq<char>,
    partition: u32,
    after: FluxLog,
    g: Seq<char>,
    p: u32,
    i: int,
)
    requires
        forall|i: int, j: int|
            0 <= i < j < rs.len() ==> (#[trigger] rs[i]).offset < (#[trigger] rs[j]).offset,
        unread(rs, from, max).len() > 0,
        unread(rs, from, max).last().offset < u64::MAX,
        group_moved(
            before,
            group,
            partition,
            (unread(rs, from, max).last().offset + 1) as u64,
            after,
        ),
        0 <= i < rs.len(),
    ensures
        after.group_offset(group, partition) == Some(
            (unread(rs, from, max).last().offset + 1) as u64,
        ),
        g != group || p != partition ==> after.group_offset(g, p) == before.group_offset(g, p),
        rs[i].offset >= from ==> (unread(rs, from, max).contains(rs[i]) <==> rs[i].offset
            < after.group_offset(group, partition)->0),
{
    law_group_reads_one_stretch(rs, from, max);
    let out = unread(rs, from, max);
    let k = choose|k: int|
        0 <= k <= rs.len() && (forall|i: int| 0 <= i < k ==> (#[trigger] rs[i]).offset < from) && (k
            < rs.len() ==> rs[k].offset >= from) && out == (#[trigger] rs.skip(k)).take(
            if max < rs.len() - k {
                max as int
            } else {
                rs.len() - k
            },
        );
    let n = out.len() as int;
    assert(out.last() == rs[k + n - 1]);
    if rs[i].offset >= from {
        assert(i >= k);
        if i < k + n {
            assert(out[i - k] == rs[i]);
            if i < k + n - 1 {
                assert(rs[i].offset < rs[k + n - 1].offset);
            }
        } else {
            assert(rs[k + n - 1].offset < rs[i].offset);
            if out.contains(rs[i]) {
                let j = choose|j: int| 0 <= j < out.len() && out[j] == rs[i];
                assert(out[j] == rs[k + j]);
                assert(rs[k + j].offset < rs[i].offset);
            }
        }
    }
}

} // verus!
