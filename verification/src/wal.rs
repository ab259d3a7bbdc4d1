//! The write-ahead log: batches of writes, each durable in full or not at all.
//!
//! A log is a sequence of batches. A batch is
//! `marker(1)=0xFF | commit_seq(8) | count(4) | record*count` and a record is
//! `table_len(4)|table|key_len(4)|key|value_len(4)|value|type(1)`, every number
//! big-endian.

use vstd::prelude::*;
use vstd::string::*;
use vstd::utf8::*;

use crate::be;
use crate::be::{copy_range, field_range, get_u32, get_u64, put_bytes, put_prefixed, put_u32, put_u64};
use crate::text;
use crate::text::text_lossy;

verus! {

/// Starts a batch. Distinct from every record type.
pub const BATCH_MARKER: u8 = 0xFF;

/// One write of a batch, as replayed. `seq` is the commit sequence number of
/// the whole batch.
#[derive(Debug, Clone)]
pub struct WalRecord {
    pub seq: u64,
    pub table: String,
    pub key: Vec<u8>,
    pub value: Vec<u8>,
    /// 0 = insert, 1 = update, 2 = delete.
    pub record_type: u8,
}

/// What a [`WalRecord`] says.
pub struct RecordView {
    pub seq: u64,
    pub table: Seq<char>,
    pub key: Seq<u8>,
    pub value: Seq<u8>,
    pub record_type: u8,
}

impl View for WalRecord {
    type V = RecordView;

    open spec fn view(&self) -> RecordView {
        RecordView {
            seq: self.seq,
            table: self.table@,
            key: self.key@,
            value: self.value@,
            record_type: self.record_type,
        }
    }
}

/// The records of a list.
pub open spec fn record_views(records: Seq<WalRecord>) -> Seq<RecordView> {
    records.map_values(|r: WalRecord| r@)
}

/// The record that a `(table, key, value, type)` entry becomes in a batch.
pub open spec fn entry_record(seq: u64, entry: (String, Vec<u8>, Vec<u8>, u8)) -> RecordView {
    RecordView {
        seq,
        table: entry.0@,
        key: entry.1@,
        value: entry.2@,
        record_type: entry.3,
    }
}

/// The bytes of one record.
pub open spec fn record_bytes(r: RecordView) -> Seq<u8> {
    be::prefixed(encode_utf8(r.table)) + be::prefixed(r.key) + be::prefixed(r.value) + seq![r.record_type]
}

/// The bytes of several records.
pub open spec fn records_bytes(rs: Seq<RecordView>) -> Seq<u8>
    decreases rs.len(),
{
    if rs.len() == 0 {
        Seq::empty()
    } else {
        records_bytes(rs.drop_last()) + record_bytes(rs.last())
    }
}

/// The bytes before the records of a batch.
pub open spec fn batch_header(seq: u64, count: u32) -> Seq<u8> {
    seq![BATCH_MARKER] + be::be64(seq) + be::be32(count)
}

/// The bytes of a batch.
pub open spec fn batch_bytes(seq: u64, rs: Seq<RecordView>) -> Seq<u8> {
    batch_header(seq, rs.len() as u32) + records_bytes(rs)
}

/// Whether the length fields of a record can hold its lengths.
pub open spec fn record_fits(r: RecordView) -> bool {
    &&& encode_utf8(r.table).len() <= u32::MAX
    &&& r.key.len() <= u32::MAX
    &&& r.value.len() <= u32::MAX
}

/// Whether the length fields of a batch can hold its lengths.
pub open spec fn batch_fits(rs: Seq<RecordView>) -> bool {
    &&& rs.len() <= u32::MAX
    &&& forall|i: int| 0 <= i < rs.len() ==> record_fits(#[trigger] rs[i])
}

/// The record at `pos` and the position behind it; nothing where the buffer
/// ends inside the record.
pub open spec fn record_at(buf: Seq<u8>, pos: int, seq: u64) -> Option<(RecordView, int)> {
    match be::field_end(buf, pos) {
        None => None,
        Some(a) => match be::field_end(buf, a) {
            None => None,
            Some(b) => match be::field_end(buf, b) {
                None => None,
                Some(c) => if c + 1 > buf.len() {
                    None
                } else {
                    Some(
                        (
                            RecordView {
                                seq,
                                table: text::lossy(buf.subrange(pos + 4, a)),
                                key: buf.subrange(a + 4, b),
                                value: buf.subrange(b + 4, c),
                                record_type: buf[c],
                            },
                            c + 1,
                        ),
                    )
                },
            },
        },
    }
}

/// The `count` records from `pos` on and the position behind them; nothing
/// where the buffer ends inside one of them.
pub open spec fn records_at(buf: Seq<u8>, pos: int, seq: u64, count: nat) -> Option<
    (Seq<RecordView>, int),
>
    decreases count,
{
    if count == 0 {
        Some((Seq::empty(), pos))
    } else {
        match records_at(buf, pos, seq, (count - 1) as nat) {
            None => None,
            Some((rs, mid)) => match record_at(buf, mid, seq) {
                None => None,
                Some((r, next)) => Some((rs.push(r), next)),
            },
        }
    }
}

/// Whether a whole batch header stands at `pos`.
pub open spec fn header_at(buf: Seq<u8>, pos: int) -> bool {
    pos + 13 <= buf.len() && buf[pos] == BATCH_MARKER
}

/// The larger of two sequence numbers.
pub open spec fn max_u64(a: u64, b: u64) -> u64 {
    if a >= b {
        a
    } else {
        b
    }
}

/// What replaying the log from `pos` on gives: the records of every batch that
/// is there in full, up to the first that is not, and the highest commit
/// sequence number of a header that is there in full.
pub open spec fn replay_from(buf: Seq<u8>, pos: int) -> (Seq<RecordView>, u64)
    decreases buf.len() - pos,
{
    if pos < 0 || !header_at(buf, pos) {
        (Seq::empty(), 0)
    } else {
        let seq = be::u64_at(buf, pos + 1);
        match records_at(buf, pos + 13, seq, be::u32_at(buf, pos + 9) as nat) {
            None => (Seq::empty(), seq),
            Some((rs, next)) => if next <= pos {
                (rs, seq)
            } else {
                let rest = replay_from(buf, next);
                (rs + rest.0, max_u64(seq, rest.1))
            },
        }
    }
}

/// What replaying a whole log gives.
pub open spec fn replay_of(buf: Seq<u8>) -> (Seq<RecordView>, u64) {
    replay_from(buf, 0)
}

proof fn lemma_record_advances(buf: Seq<u8>, pos: int, seq: u64)
    requires
        0 <= pos,
    ensures
        record_at(buf, pos, seq) matches Some((r, next)) ==> pos < next <= buf.len() && r.seq
            == seq,
{
}

proof fn lemma_records_advance(buf: Seq<u8>, pos: int, seq: u64, count: nat)
    requires
        0 <= pos <= buf.len(),
    ensures
        records_at(buf, pos, seq, count) matches Some((rs, next)) ==> pos <= next <= buf.len()
            && rs.len() == count,
    decreases count,
{
    if count > 0 {
        lemma_records_advance(buf, pos, seq, (count - 1) as nat);
        if let Some((rs, mid)) = records_at(buf, pos, seq, (count - 1) as nat) {
            lemma_record_advances(buf, mid, seq);
        }
    }
}

proof fn lemma_records_none(buf: Seq<u8>, pos: int, seq: u64, few: nat, many: nat)
    requires
        few <= many,
        records_at(buf, pos, seq, few) is None,
    ensures
        records_at(buf, pos, seq, many) is None,
    decreases many - few,
{
    if few < many {
        lemma_records_none(buf, pos, seq, few + 1, many);
    }
}

/// Where a log device keeps its bytes. Appending is one write and one sync.
pub trait WalIo: Sized {
    /// The bytes that the device holds.
    spec fn log(&self) -> Seq<u8>;

    /// Appends `buf` and makes it durable.
    fn append(&mut self, buf: &[u8]) -> (r: Result<(), String>)
        ensures
            r is Ok ==> final(self).log() == old(self).log() + buf@,
    ;

    /// Forgets every byte.
    fn truncate(&mut self) -> (r: Result<(), String>)
        ensures
            r is Ok ==> final(self).log() == Seq::<u8>::empty(),
    ;

    /// Reads every byte.
    fn read_all(&self) -> (r: Result<Vec<u8>, String>)
        ensures
            r matches Ok(v) ==> v@ == self.log(),
    ;
}

/// A log device in memory. It never fails.
pub struct MemLog {
    pub bytes: Vec<u8>,
}

impl WalIo for MemLog {
    open spec fn log(&self) -> Seq<u8> {
        self.bytes@
    }

    fn append(&mut self, buf: &[u8]) -> (r: Result<(), String>)
        ensures
            r is Ok,
    {
        put_bytes(&mut self.bytes, buf);
        Ok(())
    }

    fn truncate(&mut self) -> (r: Result<(), String>)
        ensures
            r is Ok,
    {
        self.bytes = Vec::new();
        Ok(())
    }

    fn read_all(&self) -> (r: Result<Vec<u8>, String>)
        ensures
            r is Ok,
    {
        Ok(copy_range(self.bytes.as_slice(), 0, self.bytes.len()))
    }
}

/// The bytes of a batch and the records it will replay as.
pub fn encode_batch(commit_seq: u64, entries: &[(String, Vec<u8>, Vec<u8>, u8)]) -> (r: (
    Vec<u8>,
    Vec<WalRecord>,
))
    ensures
        record_views(r.1@) == entries@.map_values(
            |e: (String, Vec<u8>, Vec<u8>, u8)| entry_record(commit_seq, e),
        ),
        r.0@ == batch_bytes(commit_seq, record_views(r.1@)),
{
    let mut buf: Vec<u8> = Vec::new();
    buf.push(BATCH_MARKER);
    put_u64(&mut buf, commit_seq);
    put_u32(&mut buf, entries.len() as u32);
    let mut records: Vec<WalRecord> = Vec::new();
    let ghost header = batch_header(commit_seq, entries@.len() as u32);
    proof {
        assert(buf@ =~= header + records_bytes(record_views(records@)));
    }
    let mut i: usize = 0;
    while i < entries.len()
        invariant
            i <= entries@.len(),
            records@.len() == i,
            forall|k: int|
                0 <= k < i ==> (#[trigger] records@[k])@ == entry_record(commit_seq, entries@[k]),
            buf@ == header + records_bytes(record_views(records@)),
        decreases entries@.len() - i,
    {
        let entry = &entries[i];
        let ghost before = buf@;
        put_prefixed(&mut buf, entry.0.as_str().as_bytes());
        put_prefixed(&mut buf, entry.1.as_slice());
        put_prefixed(&mut buf, entry.2.as_slice());
        buf.push(entry.3);
        let ghost old_records = records@;
        records.push(
            WalRecord {
                seq: commit_seq,
                table: entry.0.clone(),
                key: copy_range(entry.1.as_slice(), 0, entry.1.len()),
                value: copy_range(entry.2.as_slice(), 0, entry.2.len()),
                record_type: entry.3,
            },
        );
        proof {
            let r = records@.last()@;
            assert(r.key =~= entry.1@);
            assert(r.value =~= entry.2@);
            assert(record_views(records@).drop_last() =~= record_views(old_records));
            assert(record_views(records@).last() == r);
            assert(buf@ =~= before + record_bytes(r));
            assert(buf@ =~= header + records_bytes(record_views(records@)));
        }
        i += 1;
    }
    proof {
        assert(record_views(records@) =~= entries@.map_values(
            |e: (String, Vec<u8>, Vec<u8>, u8)| entry_record(commit_seq, e),
        ));
    }
    (buf, records)
}

/// Reads the record at `pos`, tagging it with the batch's `seq`. `None` says
/// that the buffer ends inside the record.
pub fn parse_record(buf: &[u8], pos: usize, seq: u64) -> (r: Option<(WalRecord, usize)>)
    requires
        pos <= buf@.len(),
    ensures
        match r {
            Some((record, next)) => record_at(buf@, pos as int, seq) == Some(
                (record@, next as int),
            ) && pos < next <= buf@.len(),
            None => record_at(buf@, pos as int, seq) is None,
        },
{
    let a: usize = match field_range(buf, pos) {
        Some(a) => a,
        None => return None,
    };
    let b: usize = match field_range(buf, a) {
        Some(b) => b,
        None => return None,
    };
    let c: usize = match field_range(buf, b) {
        Some(c) => c,
        None => return None,
    };
    if c >= buf.len() {
        return None;
    }
    let record = WalRecord {
        seq,
        table: text_lossy(vstd::slice::slice_subrange(buf, pos + 4, a)),
        key: copy_range(buf, a + 4, b),
        value: copy_range(buf, b + 4, c),
        record_type: buf[c],
    };
    Some((record, c + 1))
}

fn parse_records(buf: &[u8], pos: usize, seq: u64, count: u32) -> (r: Option<
    (Vec<WalRecord>, usize),
>)
    requires
        pos <= buf@.len(),
    ensures
        match r {
            Some((records, next)) => records_at(buf@, pos as int, seq, count as nat) == Some(
                (record_views(records@), next as int),
            ) && pos <= next <= buf@.len(),
            None => records_at(buf@, pos as int, seq, count as nat) is None,
        },
{
    let mut records: Vec<WalRecord> = Vec::new();
    let mut cursor: usize = pos;
    let mut i: u32 = 0;
    proof {
        assert(record_views(records@) =~= Seq::empty());
    }
    while i < count
        invariant
            i <= count,
            pos <= cursor <= buf@.len(),
            records_at(buf@, pos as int, seq, i as nat) == Some(
                (record_views(records@), cursor as int),
            ),
        decreases count - i,
    {
        match parse_record(buf, cursor, seq) {
            Some((record, next)) => {
                let ghost before = records@;
                records.push(record);
                cursor = next;
                proof {
                    assert(record_views(records@) =~= record_views(before).push(record@));
                }
            },
            None => {
                proof {
                    lemma_records_none(buf@, pos as int, seq, (i + 1) as nat, count as nat);
                }
                return None;
            },
        }
        i += 1;
    }
    Some((records, cursor))
}

/// Replays a log: the records of every complete batch up to the first that is
/// torn, and the highest commit sequence number ever attempted.
pub fn replay_bytes(buf: &[u8]) -> (r: (Vec<WalRecord>, u64))
    ensures
        record_views(r.0@) == replay_of(buf@).0,
        r.1 == replay_of(buf@).1,
{
    let mut all: Vec<WalRecord> = Vec::new();
    let mut max_seq: u64 = 0;
    let mut pos: usize = 0;
    proof {
        assert(record_views(all@) + replay_from(buf@, 0).0 =~= replay_of(buf@).0);
    }
    loop
        invariant
            pos <= buf@.len(),
            replay_of(buf@).0 == record_views(all@) + replay_from(buf@, pos as int).0,
            replay_of(buf@).1 == max_u64(max_seq, replay_from(buf@, pos as int).1),
        ensures
            !header_at(buf@, pos as int),
        decreases buf@.len() - pos,
    {
        if buf.len() - pos < 13 {
            break;
        }
        if buf[pos] != BATCH_MARKER {
            break;
        }
        let seq: u64 = get_u64(buf, pos + 1);
        let count: u32 = get_u32(buf, pos + 9);
        if seq > max_seq {
            max_seq = seq;
        }
        match parse_records(buf, pos + 13, seq, count) {
            Some((records, next)) => {
                let ghost head = all@;
                let ghost tail = records@;
                let mut records = records;
                all.append(&mut records);
                pos = next;
                proof {
                    assert(record_views(all@) =~= record_views(head) + record_views(tail));
                    assert(record_views(all@) + replay_from(buf@, next as int).0 =~= record_views(
                        head,
                    ) + (record_views(tail) + replay_from(buf@, next as int).0));
                }
            },
            None => {
                proof {
                    assert(record_views(all@) =~= replay_of(buf@).0);
                }
                return (all, max_seq);
            },
        }
    }
    proof {
        assert(record_views(all@) =~= replay_of(buf@).0);
    }
    (all, max_seq)
}

/// A write-ahead log on a device.
pub struct Wal<IO: WalIo> {
    io: IO,
    bytes_written: u64,
}

impl<IO: WalIo> Wal<IO> {
    /// The bytes that the log holds.
    pub closed spec fn log(&self) -> Seq<u8> {
        self.io.log()
    }

    /// The device that holds the log.
    pub closed spec fn device(&self) -> IO {
        self.io
    }

    /// The number of bytes written since the log was last empty.
    pub closed spec fn written(&self) -> nat {
        self.bytes_written as nat
    }

    /// Opens the log on `io`, which holds `len` bytes.
    pub fn open(io: IO, len: u64) -> (wal: Self)
        requires
            len == io.log().len(),
        ensures
            wal.log() == io.log(),
            wal.written() == len,
    {
        Wal { io, bytes_written: len }
    }

    /// Appends all entries as one batch under `commit_seq`. The device is asked
    /// once, with the whole batch, and its answer decides: on an error, which is
    /// handed on, nothing counts as written.
    pub fn append_batch(
        &mut self,
        commit_seq: u64,
        entries: &[(String, Vec<u8>, Vec<u8>, u8)],
    ) -> (r: Result<Vec<WalRecord>, String>)
        requires
            old(self).written() + batch_bytes(
                commit_seq,
                entries@.map_values(
                    |e: (String, Vec<u8>, Vec<u8>, u8)| entry_record(commit_seq, e),
                ),
            ).len() <= u64::MAX,
        ensures
            match r {
                Ok(records) => {
                    &&& record_views(records@) == entries@.map_values(
                        |e: (String, Vec<u8>, Vec<u8>, u8)| entry_record(commit_seq, e),
                    )
                    &&& final(self).log() == old(self).log() + batch_bytes(
                        commit_seq,
                        record_views(records@),
                    )
                    &&& final(self).written() == old(self).written() + batch_bytes(
                        commit_seq,
                        record_views(records@),
                    ).len()
                },
                Err(_) => final(self).written() == old(self).written(),
            },
            exists|io: &mut IO, buf: &[u8], answer: Result<(), String>|
                {
                    &&& *io == old(self).device()
                    &&& *final(io) == final(self).device()
                    &&& buf@ == batch_bytes(
                        commit_seq,
                        entries@.map_values(
                            |e: (String, Vec<u8>, Vec<u8>, u8)| entry_record(commit_seq, e),
                        ),
                    )
                    &&& #[trigger] call_ensures(IO::append, (io, buf), answer)
                    &&& match answer {
                        Ok(_) => r is Ok,
                        Err(e) => r == Err::<Vec<WalRecord>, String>(e),
                    }
                },
    {
        let (buf, records) = encode_batch(commit_seq, entries);
        match self.io.append(buf.as_slice()) {
            Ok(_) => {
                self.bytes_written = self.bytes_written + buf.len() as u64;
                Ok(records)
            },
            Err(e) => Err(e),
        }
    }

    /// Replays the log from its first byte. The device is asked for the bytes; its
    /// error is handed on.
    pub fn replay(&self) -> (r: Result<(Vec<WalRecord>, u64), String>)
        ensures
            r matches Ok((records, max_seq)) ==> record_views(records@) == replay_of(
                self.log(),
            ).0 && max_seq == replay_of(self.log()).1,
            exists|answer: Result<Vec<u8>, String>| #[trigger]
                call_ensures(IO::read_all, (&self.device(),), answer) && match answer {
                    Ok(_) => r is Ok,
                    Err(e) => r == Err::<(Vec<WalRecord>, u64), String>(e),
                },
    {
        let answer = self.io.read_all();
        assert(call_ensures(IO::read_all, (&self.device(),), answer));
        match answer {
            Ok(buf) => Ok(replay_bytes(buf.as_slice())),
            Err(e) => Err(e),
        }
    }

    /// The bytes as the device gives them.
    pub fn read_all_bytes(&self) -> (r: Result<Vec<u8>, String>)
        ensures
            r matches Ok(bytes) ==> bytes@ == self.log(),
            call_ensures(IO::read_all, (&self.device(),), r),
    {
        self.io.read_all()
    }

    /// Empties the log. The device is asked once, and its answer is the result; on
    /// an error the count stays.
    pub fn truncate(&mut self) -> (r: Result<(), String>)
        ensures
            match r {
                Ok(_) => final(self).log() == Seq::<u8>::empty() && final(self).written() == 0,
                Err(_) => final(self).written() == old(self).written(),
            },
            exists|io: &mut IO|
                *io == old(self).device() && *final(io) == final(self).device()
                    && #[trigger] call_ensures(IO::truncate, (io,), r),
    {
        let r = self.io.truncate();
        if r.is_ok() {
            self.bytes_written = 0;
        }
        r
    }

    /// The number of bytes written since the log was last empty.
    pub fn bytes_written(&self) -> (n: u64)
        ensures
            n == self.written(),
    {
        self.bytes_written
    }
}

proof fn lemma_record(buf: Seq<u8>, pos: int, r: RecordView)
    requires
        0 <= pos,
        record_fits(r),
        pos + record_bytes(r).len() <= buf.len(),
        buf.subrange(pos, pos + record_bytes(r).len()) == record_bytes(r),
    ensures
        record_at(buf, pos, r.seq) == Some((r, pos + record_bytes(r).len())),
{
    let t = encode_utf8(r.table);
    let whole = record_bytes(r);
    be::lemma_be32(t.len() as u32);
    be::lemma_be32(r.key.len() as u32);
    be::lemma_be32(r.value.len() as u32);
    let a = 4 + t.len() as int;
    let b = a + 4 + r.key.len();
    let c = b + 4 + r.value.len();
    let here = buf.subrange(pos, pos + whole.len());
    assert(buf.subrange(pos, pos + a) =~= here.subrange(0, a));
    assert(here.subrange(0, a) =~= be::prefixed(t));
    assert(buf.subrange(pos + a, pos + b) =~= here.subrange(a, b));
    assert(here.subrange(a, b) =~= be::prefixed(r.key));
    assert(buf.subrange(pos + b, pos + c) =~= here.subrange(b, c));
    assert(here.subrange(b, c) =~= be::prefixed(r.value));
    assert(buf[pos + c] == here[c]);
    be::lemma_stands_prefixed(buf, pos, t);
    be::lemma_stands_prefixed(buf, pos + a, r.key);
    be::lemma_stands_prefixed(buf, pos + b, r.value);
    text::lemma_lossy_of_text(r.table);
}

proof fn lemma_records(buf: Seq<u8>, pos: int, seq: u64, rs: Seq<RecordView>)
    requires
        0 <= pos,
        forall|i: int| 0 <= i < rs.len() ==> record_fits(#[trigger] rs[i]) && rs[i].seq == seq,
        pos + records_bytes(rs).len() <= buf.len(),
        buf.subrange(pos, pos + records_bytes(rs).len()) == records_bytes(rs),
    ensures
        records_at(buf, pos, seq, rs.len()) == Some((rs, pos + records_bytes(rs).len())),
    decreases rs.len(),
{
    if rs.len() > 0 {
        let head = records_bytes(rs.drop_last());
        let here = buf.subrange(pos, pos + records_bytes(rs).len());
        let mid = pos + head.len();
        assert(buf.subrange(pos, mid) =~= here.subrange(0, head.len() as int));
        assert(here.subrange(0, head.len() as int) =~= head);
        assert forall|i: int| 0 <= i < rs.drop_last().len() implies record_fits(
            #[trigger] rs.drop_last()[i],
        ) && rs.drop_last()[i].seq == seq by {
            assert(rs.drop_last()[i] == rs[i]);
        }
        lemma_records(buf, pos, seq, rs.drop_last());
        let last = rs[rs.len() - 1];
        assert(record_fits(last));
        assert(buf.subrange(mid, mid + record_bytes(last).len()) =~= here.subrange(
            head.len() as int,
            here.len() as int,
        ));
        assert(here.subrange(head.len() as int, here.len() as int) =~= record_bytes(last));
        lemma_record(buf, mid, last);
        assert(rs.drop_last().push(last) =~= rs);
    } else {
        assert(rs =~= Seq::empty());
    }
}

proof fn lemma_record_of_prefix(buf: Seq<u8>, m: int, pos: int, seq: u64)
    requires
        0 <= pos,
        0 <= m <= buf.len(),
    ensures
        record_at(buf.subrange(0, m), pos, seq) == (match record_at(buf, pos, seq) {
            Some((r, next)) => if next <= m {
                Some((r, next))
            } else {
                None
            },
            None => None,
        }),
{
    let cut = buf.subrange(0, m);
    be::lemma_field_of_prefix(buf, m, pos);
    if let Some(a) = be::field_end(buf, pos) {
        be::lemma_field_of_prefix(buf, m, a);
        if let Some(b) = be::field_end(buf, a) {
            be::lemma_field_of_prefix(buf, m, b);
            if let Some(c) = be::field_end(buf, b) {
                if c + 1 <= m {
                    assert(cut.subrange(pos + 4, a) =~= buf.subrange(pos + 4, a));
                    assert(cut.subrange(a + 4, b) =~= buf.subrange(a + 4, b));
                    assert(cut.subrange(b + 4, c) =~= buf.subrange(b + 4, c));
                }
            }
        }
    }
}

proof fn lemma_records_of_prefix(buf: Seq<u8>, m: int, pos: int, seq: u64, count: nat)
    requires
        0 <= pos <= m <= buf.len(),
    ensures
        records_at(buf.subrange(0, m), pos, seq, count) == (match records_at(
            buf,
            pos,
            seq,
            count,
        ) {
            Some((rs, next)) => if next <= m {
                Some((rs, next))
            } else {
                None
            },
            None => None,
        }),
    decreases count,
{
    if count > 0 {
        lemma_records_of_prefix(buf, m, pos, seq, (count - 1) as nat);
        lemma_records_advance(buf, pos, seq, (count - 1) as nat);
        if let Some((rs, mid)) = records_at(buf, pos, seq, (count - 1) as nat) {
            lemma_record_advances(buf, mid, seq);
            lemma_record_of_prefix(buf, m, mid, seq);
        }
    }
}

/// A batch: its commit sequence number and its records.
pub struct Batch {
    pub seq: u64,
    pub records: Seq<RecordView>,
}

impl Batch {
    /// Whether the batch can be written and read back: its lengths fit their
    /// fields and its records bear its number.
    pub open spec fn valid(self) -> bool {
        &&& batch_fits(self.records)
        &&& forall|i: int| 0 <= i < self.records.len() ==> (#[trigger] self.records[i]).seq
            == self.seq
    }

    /// The batch's bytes.
    pub open spec fn bytes(self) -> Seq<u8> {
        batch_bytes(self.seq, self.records)
    }
}

/// The log that holds the given batches.
pub open spec fn log_of(batches: Seq<Batch>) -> Seq<u8>
    decreases batches.len(),
{
    if batches.len() == 0 {
        Seq::empty()
    } else {
        batches[0].bytes() + log_of(batches.drop_first())
    }
}

/// The records of all batches, in order.
pub open spec fn all_records(batches: Seq<Batch>) -> Seq<RecordView>
    decreases batches.len(),
{
    if batches.len() == 0 {
        Seq::empty()
    } else {
        batches[0].records + all_records(batches.drop_first())
    }
}

/// The highest number among the batches; 0 without any.
pub open spec fn top_seq(batches: Seq<Batch>) -> u64
    decreases batches.len(),
{
    if batches.len() == 0 {
        0
    } else {
        max_u64(batches[0].seq, top_seq(batches.drop_first()))
    }
}

proof fn lemma_header(buf: Seq<u8>, pos: int, batch: Batch, k: int)
    requires
        0 <= pos,
        13 <= k <= batch.bytes().len(),
        pos + k <= buf.len(),
        buf.subrange(pos, pos + k) == batch.bytes().subrange(0, k),
    ensures
        header_at(buf, pos),
        be::u64_at(buf, pos + 1) == batch.seq,
        be::u32_at(buf, pos + 9) == batch.records.len() as u32,
{
    let cut = batch.bytes().subrange(0, k);
    be::lemma_be64(batch.seq);
    be::lemma_be32(batch.records.len() as u32);
    assert(buf[pos] == cut[0]);
    assert(buf.subrange(pos + 1, pos + 9) =~= cut.subrange(1, 9));
    assert(cut.subrange(1, 9) =~= be::be64(batch.seq));
    assert(buf.subrange(pos + 9, pos + 13) =~= cut.subrange(9, 13));
    assert(cut.subrange(9, 13) =~= be::be32(batch.records.len() as u32));
}

proof fn lemma_torn_tail(buf: Seq<u8>, pos: int, batch: Batch, k: int)
    requires
        batch.valid(),
        0 <= pos,
        0 <= k < batch.bytes().len(),
        pos + k == buf.len(),
        buf.subrange(pos, pos + k) == batch.bytes().subrange(0, k),
    ensures
        replay_from(buf, pos) == (
            Seq::<RecordView>::empty(),
            if k >= 13 {
                batch.seq
            } else {
                0u64
            },
        ),
{
    be::lemma_be64(batch.seq);
    be::lemma_be32(batch.records.len() as u32);
    if k >= 13 {
        lemma_header(buf, pos, batch, k);
        let whole = buf.subrange(0, pos) + batch.bytes();
        let rb = records_bytes(batch.records);
        assert(whole.subrange(pos + 13, pos + 13 + rb.len()) =~= rb);
        lemma_records(whole, pos + 13, batch.seq, batch.records);
        lemma_records_of_prefix(whole, pos + k, pos + 13, batch.seq, batch.records.len());
        assert(whole.subrange(0, pos + k) =~= buf) by {
            assert forall|i: int| 0 <= i < buf.len() implies whole.subrange(0, pos + k)[i]
                == buf[i] by {
                if i >= pos {
                    assert(buf.subrange(pos, pos + k)[i - pos] == buf[i]);
                }
            }
        }
    }
}

proof fn lemma_replay(buf: Seq<u8>, pos: int, batches: Seq<Batch>, last: Batch, k: int)
    requires
        forall|i: int| 0 <= i < batches.len() ==> (#[trigger] batches[i]).valid(),
        last.valid(),
        0 <= pos <= buf.len(),
        0 <= k < last.bytes().len(),
        buf.subrange(pos, buf.len() as int) == log_of(batches) + last.bytes().subrange(0, k),
    ensures
        replay_from(buf, pos) == (
            all_records(batches),
            max_u64(
                top_seq(batches),
                if k >= 13 {
                    last.seq
                } else {
                    0u64
                },
            ),
        ),
    decreases batches.len(),
{
    let tail = buf.subrange(pos, buf.len() as int);
    if batches.len() == 0 {
        assert(tail =~= last.bytes().subrange(0, k));
        lemma_torn_tail(buf, pos, last, k);
    } else {
        let first = batches[0];
        let n = first.bytes().len() as int;
        let rb = records_bytes(first.records);
        be::lemma_be64(first.seq);
        be::lemma_be32(first.records.len() as u32);
        let rest = batches.drop_first();
        assert(tail =~= first.bytes() + (log_of(rest) + last.bytes().subrange(0, k)));
        assert(buf.subrange(pos, pos + n) =~= tail.subrange(0, n));
        assert(tail.subrange(0, n) =~= first.bytes().subrange(0, n));
        lemma_header(buf, pos, first, n);
        assert(buf.subrange(pos + 13, pos + 13 + rb.len()) =~= tail.subrange(
            13,
            13 + rb.len() as int,
        ));
        assert(tail.subrange(13, 13 + rb.len() as int) =~= rb);
        lemma_records(buf, pos + 13, first.seq, first.records);
        assert(buf.subrange(pos + n, buf.len() as int) =~= tail.subrange(n, tail.len() as int));
        assert(tail.subrange(n, tail.len() as int) =~= log_of(rest) + last.bytes().subrange(0, k));
        assert forall|i: int| 0 <= i < rest.len() implies (#[trigger] rest[i]).valid() by {
            assert(rest[i] == batches[i + 1]);
        }
        lemma_replay(buf, pos + n, rest, last, k);
    }
}

/// A batch is replayed in full or not at all: a log whose last batch was cut
/// off anywhere before its end replays exactly the batches before it, and the
/// number of the torn batch still counts once its header is there.
pub proof fn law_torn_batch_is_dropped_whole(batches: Seq<Batch>, last: Batch, k: int)
    requires
        forall|i: int| 0 <= i < batches.len() ==> (#[trigger] batches[i]).valid(),
        last.valid(),
        0 <= k < last.bytes().len(),
    ensures
        replay_of(log_of(batches) + last.bytes().subrange(0, k)) == (
            all_records(batches),
            max_u64(
                top_seq(batches),
                if k >= 13 {
                    last.seq
                } else {
                    0u64
                },
            ),
        ),
{
    let buf = log_of(batches) + last.bytes().subrange(0, k);
    assert(buf.subrange(0, buf.len() as int) =~= buf);
    lemma_replay(buf, 0, batches, last, k);
}

/// Replaying a log gives back every record of every batch in the order in
/// which they were written, and the highest number among the batches.
pub proof fn law_replay_gives_back_what_was_appended(batches: Seq<Batch>)
    requires
        forall|i: int| 0 <= i < batches.len() ==> (#[trigger] batches[i]).valid(),
    ensures
        replay_of(log_of(batches)) == (all_records(batches), top_seq(batches)),
{
    let none = Batch { seq: 0, records: Seq::empty() };
    law_torn_batch_is_dropped_whole(batches, none, 0);
    assert(log_of(batches) + none.bytes().subrange(0, 0) =~= log_of(batches));
}

/// Appending a batch to a log appends it to the batches that the log holds.
pub proof fn law_append_extends_the_log(batches: Seq<Batch>, next: Batch)
    ensures
        log_of(batches.push(next)) == log_of(batches) + next.bytes(),
    decreases batches.len(),
{
    if batches.len() == 0 {
        assert(batches.push(next).drop_first() =~= batches);
        assert(batches.push(next)[0] == next);
        assert(log_of(batches) =~= Seq::<u8>::empty());
        assert(log_of(batches.push(next)) == next.bytes() + log_of(
            batches.push(next).drop_first(),
        ));
        assert(log_of(batches.push(next)) =~= log_of(batches) + next.bytes());
    } else {
        law_append_extends_the_log(batches.drop_first(), next);
        assert(batches.push(next).drop_first() =~= batches.drop_first().push(next));
        assert(log_of(batches.push(next)) =~= log_of(batches) + next.bytes());
    }
}

/// The number of bytes that records take in a log.
pub open spec fn records_size(rs: Seq<RecordView>) -> nat
    decreases rs.len(),
{
    if rs.len() == 0 {
        0
    } else {
        let r = rs.last();
        records_size(rs.drop_last()) + 13 + encode_utf8(r.table).len() + r.key.len() + r.value.len()
    }
}

proof fn lemma_records_size(rs: Seq<RecordView>)
    ensures
        records_bytes(rs).len() == records_size(rs),
    decreases rs.len(),
{
    if rs.len() > 0 {
        let r = rs.last();
        lemma_records_size(rs.drop_last());
        be::lemma_be32(encode_utf8(r.table).len() as u32);
        be::lemma_be32(r.key.len() as u32);
        be::lemma_be32(r.value.len() as u32);
    }
}

/// A batch makes a log longer by its header of 13 bytes, and by 13 bytes, the
/// name of its table, its key and its value for each record.
pub proof fn law_batch_grows_the_log_by_its_size(seq: u64, rs: Seq<RecordView>)
    ensures
        batch_bytes(seq, rs).len() == 13 + records_size(rs),
{
    lemma_records_size(rs);
    be::lemma_be64(seq);
    be::lemma_be32(rs.len() as u32);
}

/// The records and the highest number of one more batch.
pub proof fn lemma_records_push(batches: Seq<Batch>, next: Batch)
    ensures
        all_records(batches.push(next)) == all_records(batches) + next.records,
        top_seq(batches.push(next)) == max_u64(top_seq(batches), next.seq),
    decreases batches.len(),
{
    let all = batches.push(next);
    if batches.len() == 0 {
        assert(all.drop_first() =~= batches);
        assert(all[0] == next);
        assert(all_records(all) =~= all_records(batches) + next.records);
    } else {
        lemma_records_push(batches.drop_first(), next);
        assert(all.drop_first() =~= batches.drop_first().push(next));
        assert(all_records(all) =~= all_records(batches) + next.records);
    }
}

/// A log to which a batch is appended replays as before, and then the records of
/// the batch.
pub proof fn law_appended_batch_is_replayed(batches: Seq<Batch>, next: Batch)
    requires
        forall|i: int| 0 <= i < batches.len() ==> (#[trigger] batches[i]).valid(),
        next.valid(),
    ensures
        replay_of(log_of(batches) + batch_bytes(next.seq, next.records)) == (
            replay_of(log_of(batches)).0 + next.records,
            max_u64(replay_of(log_of(batches)).1, next.seq),
        ),
{
    let all = batches.push(next);
    law_append_extends_the_log(batches, next);
    assert forall|i: int| 0 <= i < all.len() implies (#[trigger] all[i]).valid() by {
        if i < batches.len() {
            assert(all[i] == batches[i]);
        }
    }
    law_replay_gives_back_what_was_appended(batches);
    law_replay_gives_back_what_was_appended(all);
    lemma_records_push(batches, next);
}

proof fn lemma_records_seq(buf: Seq<u8>, pos: int, seq: u64, count: nat)
    requires
        0 <= pos <= buf.len(),
    ensures
        records_at(buf, pos, seq, count) matches Some((rs, _)) ==> forall|i: int|
            0 <= i < rs.len() ==> (#[trigger] rs[i]).seq == seq,
    decreases count,
{
    if count > 0 {
        lemma_records_seq(buf, pos, seq, (count - 1) as nat);
    }
}

proof fn lemma_replayed_numbers(buf: Seq<u8>, pos: int)
    requires
        0 <= pos,
    ensures
        forall|i: int|
            0 <= i < replay_from(buf, pos).0.len() ==> (#[trigger] replay_from(buf, pos).0[i]).seq
                <= replay_from(buf, pos).1,
    decreases buf.len() - pos,
{
    if header_at(buf, pos) {
        let seq = be::u64_at(buf, pos + 1);
        let count = be::u32_at(buf, pos + 9) as nat;
        lemma_records_seq(buf, pos + 13, seq, count);
        if let Some((rs, next)) = records_at(buf, pos + 13, seq, count) {
            if next > pos {
                lemma_replayed_numbers(buf, next);
                let rest = replay_from(buf, next);
                assert forall|i: int| 0 <= i < (rs + rest.0).len() implies (
                #[trigger] (rs + rest.0)[i]).seq <= max_u64(seq, rest.1) by {
                    if i >= rs.len() {
                        assert((rs + rest.0)[i] == rest.0[i - rs.len()]);
                    }
                }
            }
        }
    }
}

/// No replayed record has a number above the highest that was counted.
pub proof fn law_replayed_numbers_are_counted(buf: Seq<u8>)
    ensures
        forall|i: int|
            0 <= i < replay_of(buf).0.len() ==> (#[trigger] replay_of(buf).0[i]).seq <= replay_of(
                buf,
            ).1,
{
    lemma_replayed_numbers(buf, 0);
}

/// A batch starts with a byte of ones, its number in eight bytes and the number
/// of its records in four; a record is its table, its key and its value, each
/// behind its length in four bytes, and then its kind.
pub proof fn law_bytes_of_a_batch_have_their_places(seq: u64, r: RecordView)
    requires
        record_fits(r),
    ensures
        ({
            let b = batch_bytes(seq, seq![r]);
            let t = encode_utf8(r.table);
            let key = (17 + t.len()) as int;
            let value = key + 4 + r.key.len();
            let kind = value + 4 + r.value.len();
            &&& b.len() == kind + 1
            &&& b[0] == 0xff
            &&& be::u64_at(b, 1) == seq
            &&& be::u32_at(b, 9) == 1
            &&& be::u32_at(b, 13) == t.len()
            &&& b.subrange(17, key) == t
            &&& be::u32_at(b, key) == r.key.len()
            &&& b.subrange(key + 4, value) == r.key
            &&& be::u32_at(b, value) == r.value.len()
            &&& b.subrange(value + 4, kind) == r.value
            &&& b[kind] == r.record_type
        }),
{
    let b = batch_bytes(seq, seq![r]);
    let t = encode_utf8(r.table);
    let h = batch_header(seq, 1);
    let one = record_bytes(r);
    be::lemma_be64(seq);
    be::lemma_be32(1);
    be::lemma_be32(t.len() as u32);
    be::lemma_be32(r.key.len() as u32);
    be::lemma_be32(r.value.len() as u32);
    reveal_with_fuel(records_bytes, 2);
    assert(seq![r].drop_last() =~= Seq::<RecordView>::empty());
    assert(records_bytes(seq![r]) =~= one);
    assert(b =~= h + one);
    assert(b.subrange(1, 9) =~= be::be64(seq));
    assert(b.subrange(9, 13) =~= be::be32(1));
    let key = (17 + t.len()) as int;
    let value = key + 4 + r.key.len();
    let kind = value + 4 + r.value.len();
    assert(b.subrange(13, 17) =~= be::be32(t.len() as u32));
    assert(b.subrange(17, key) =~= t);
    assert(b.subrange(key, key + 4) =~= be::be32(r.key.len() as u32));
    assert(b.subrange(key + 4, value) =~= r.key);
    assert(b.subrange(value, value + 4) =~= be::be32(r.value.len() as u32));
    assert(b.subrange(value + 4, kind) =~= r.value);
}

/// The highest number among batches is one of theirs, and none is above it.
pub proof fn law_highest_number_is_above_all(batches: Seq<Batch>)
    ensures
        forall|i: int| 0 <= i < batches.len() ==> (#[trigger] batches[i]).seq <= top_seq(batches),
        batches.len() > 0 ==> exists|i: int|
            0 <= i < batches.len() && (#[trigger] batches[i]).seq == top_seq(batches),
    decreases batches.len(),
{
    if batches.len() > 0 {
        let rest = batches.drop_first();
        law_highest_number_is_above_all(rest);
        assert forall|i: int| 0 <= i < batches.len() implies (#[trigger] batches[i]).seq <= top_seq(
            batches,
        ) by {
            if i > 0 {
                assert(rest[i - 1] == batches[i]);
            }
        }
        if top_seq(batches) == batches[0].seq {
        } else {
            let i = choose|i: int| 0 <= i < rest.len() && (#[trigger] rest[i]).seq == top_seq(rest);
            assert(batches[i + 1] == rest[i]);
        }
    }
}

/// What is appended to a log in memory is replayed from it, behind what was
/// there.
pub proof fn law_memory_log_gives_back_what_was_put_in(
    batches: Seq<Batch>,
    commit_seq: u64,
    entries: &[(String, Vec<u8>, Vec<u8>, u8)],
    encoded: (Vec<u8>, Vec<WalRecord>),
    buf: &[u8],
    r: (Vec<WalRecord>, u64),
)
    requires
        forall|i: int| 0 <= i < batches.len() ==> (#[trigger] batches[i]).valid(),
        call_ensures(encode_batch, (commit_seq, entries), encoded),
        buf@ == log_of(batches) + encoded.0@,
        call_ensures(replay_bytes, (buf,), r),
        entries@.len() <= u32::MAX,
        forall|i: int|
            #![trigger entries@[i]]
            0 <= i < entries@.len() ==> encode_utf8(entries@[i].0@).len() <= u32::MAX
                && entries@[i].1@.len() <= u32::MAX && entries@[i].2@.len() <= u32::MAX,
    ensures
        r.0@.len() == all_records(batches).len() + entries@.len(),
        forall|i: int|
            #![trigger r.0@[i]]
            all_records(batches).len() <= i < r.0@.len() ==> {
                let e = entries@[i - all_records(batches).len()];
                &&& r.0@[i].table@ == e.0@
                &&& r.0@[i].key@ == e.1@
                &&& r.0@[i].value@ == e.2@
                &&& r.0@[i].record_type == e.3
                &&& r.0@[i].seq == commit_seq
            },
        commit_seq <= r.1,
{
    let records = record_views(encoded.1@);
    let next = Batch { seq: commit_seq, records };
    let made = entries@.map_values(
        |e: (String, Vec<u8>, Vec<u8>, u8)| entry_record(commit_seq, e),
    );
    assert(records == made);
    assert(next.valid()) by {
        assert forall|i: int| 0 <= i < records.len() implies (#[trigger] records[i]).seq
            == commit_seq && record_fits(records[i]) by {
            let e = entries@[i];
            assert(made[i] == entry_record(commit_seq, e));
        }
    }
    law_appended_batch_is_replayed(batches, next);
    law_replay_gives_back_what_was_appended(batches);
    let old = all_records(batches);
    assert(record_views(r.0@) == old + records);
    assert(record_views(r.0@).len() == r.0@.len());
    assert forall|i: int|
        #![trigger r.0@[i]]
        old.len() <= i < r.0@.len() implies ({
        let e = entries@[i - old.len()];
        &&& r.0@[i].table@ == e.0@
        &&& r.0@[i].key@ == e.1@
        &&& r.0@[i].value@ == e.2@
        &&& r.0@[i].record_type == e.3
        &&& r.0@[i].seq == commit_seq
    }) by {
        assert(record_views(r.0@)[i] == r.0@[i]@);
        assert(records[i - old.len()] == made[i - old.len()]);
    }
}

} // verus!
