//! Sorted string tables: immutable blobs of versioned keys.
//!
//! A table is `data section | index section | filter section | footer`, every
//! number big-endian. A data record is `key_len(4)|key|value_len(4)|value`; a
//! tombstone has none. The index is `count(4)` and, for each version,
//! `key_len(4)|key|seq(8)|tag(1)|offset(8)|value_len(4)`. The filter section is
//! `bits_len(4)|bits|num_bits(8)|num_hashes(4)` and two pairs of `u64`. The
//! footer is `0(8)|index_offset(8)|filter_offset(8)`.

use vstd::prelude::*;
use vstd::string::*;

use crate::be;
use crate::be::{copy_range, get_u32, get_u64, put_prefixed, put_u32, put_u64, same_bytes};
use crate::bloom::KeyFilter;
use crate::order;
use crate::order::{compare, Rank};
use crate::text;
use crate::text::decimal_text;

verus! {

/// Marks a live value.
pub const PUT_TAG: u8 = 1;

/// Marks a tombstone.
pub const DELETE_TAG: u8 = 0;

/// A key with the commit sequence number and the tag of the write that made
/// this version of it.
#[derive(Debug, Clone)]
pub struct InternalKey {
    pub user_key: Vec<u8>,
    pub seq: u64,
    pub tag: u8,
}

impl InternalKey {
    /// The key of a version.
    pub fn new(user_key: Vec<u8>, seq: u64, tag: u8) -> (k: InternalKey)
        ensures
            k.user_key == user_key,
            k.seq == seq,
            k.tag == tag,
    {
        InternalKey { user_key, seq, tag }
    }
}

/// Why a blob is no table, or a table has no readable record.
#[derive(Debug, Clone, Copy, PartialEq, Eq, Structural)]
pub enum TableError {
    /// Too small to hold a footer.
    NoFooter,
    /// A four-byte number at `pos` reaches beyond the end.
    WantU32 { pos: u64 },
    /// An eight-byte number at `pos` reaches beyond the end.
    WantU64 { pos: u64 },
    /// The key of an index entry reaches beyond the end.
    IndexEntry,
    /// The tag of an index entry reaches beyond the end.
    IndexTag,
    /// The bitmap of the filter reaches beyond the end.
    BloomBitmap,
    /// The value of a data record reaches beyond the end.
    DataRecord,
}

impl TableError {
    /// What is wrong, in words.
    pub open spec fn text(&self) -> Seq<char> {
        match self {
            TableError::NoFooter => "sstable blob too small to contain a footer"@,
            TableError::WantU32 { pos } => "truncated sstable buffer (want u32 at "@ + text::decimal(*pos as nat) + ")"@,
            TableError::WantU64 { pos } => "truncated sstable buffer (want u64 at "@ + text::decimal(*pos as nat) + ")"@,
            TableError::IndexEntry => "truncated sstable index entry"@,
            TableError::IndexTag => "truncated sstable index entry (tag)"@,
            TableError::BloomBitmap => "truncated sstable bloom bitmap"@,
            TableError::DataRecord => "truncated sstable data record"@,
        }
    }

    /// What is wrong, in words.
    pub fn message(&self) -> (m: String)
        ensures
            m@ == self.text(),
    {
        match self {
            TableError::NoFooter => "sstable blob too small to contain a footer".to_owned(),
            TableError::WantU32 { pos } => {
                let mut m = "truncated sstable buffer (want u32 at ".to_owned();
                m.append(decimal_text(*pos).as_str());
                m.append(")");
                m
            },
            TableError::WantU64 { pos } => {
                let mut m = "truncated sstable buffer (want u64 at ".to_owned();
                m.append(decimal_text(*pos).as_str());
                m.append(")");
                m
            },
            TableError::IndexEntry => "truncated sstable index entry".to_owned(),
            TableError::IndexTag => "truncated sstable index entry (tag)".to_owned(),
            TableError::BloomBitmap => "truncated sstable bloom bitmap".to_owned(),
            TableError::DataRecord => "truncated sstable data record".to_owned(),
        }
    }
}

/// One version of one key.
pub struct EntryView {
    pub key: Seq<u8>,
    pub seq: u64,
    pub tag: u8,
    pub value: Seq<u8>,
}

/// An index entry.
pub struct IndexView {
    pub key: Seq<u8>,
    pub seq: u64,
    pub tag: u8,
    pub offset: u64,
    pub value_len: u32,
}

/// The stored parts of a filter.
pub struct FilterView {
    pub bits: Seq<u8>,
    pub num_bits: u64,
    pub num_hashes: u32,
    pub keys: Seq<(u64, u64)>,
}

/// What a table's blob says.
pub struct TableView {
    pub index: Seq<IndexView>,
    pub filter: FilterView,
}

/// What an entry handed to a new table says.
pub open spec fn entry_view(e: (InternalKey, Vec<u8>)) -> EntryView {
    EntryView { key: e.0.user_key@, seq: e.0.seq, tag: e.0.tag, value: e.1@ }
}

/// What several entries say.
pub open spec fn entry_views(es: Seq<(InternalKey, Vec<u8>)>) -> Seq<EntryView> {
    es.map_values(|e: (InternalKey, Vec<u8>)| entry_view(e))
}

/// What a filter holds.
pub open spec fn filter_view(f: KeyFilter) -> FilterView {
    FilterView {
        bits: f.bits(),
        num_bits: f.num_bits(),
        num_hashes: f.num_hashes(),
        keys: f.keys(),
    }
}

/// The data record of an entry: none for a tombstone.
pub open spec fn data_record(e: EntryView) -> Seq<u8> {
    if e.tag == DELETE_TAG {
        Seq::empty()
    } else {
        be::prefixed(e.key) + be::prefixed(e.value)
    }
}

/// The data section.
pub open spec fn data_section(es: Seq<EntryView>) -> Seq<u8>
    decreases es.len(),
{
    if es.len() == 0 {
        Seq::empty()
    } else {
        data_section(es.drop_last()) + data_record(es.last())
    }
}

/// The index entry of `e`, whose data record starts at `offset`.
pub open spec fn index_entry(e: EntryView, offset: u64) -> IndexView {
    IndexView {
        key: e.key,
        seq: e.seq,
        tag: e.tag,
        offset,
        value_len: if e.tag == DELETE_TAG {
            0
        } else {
            e.value.len() as u32
        },
    }
}

/// The index of a table.
pub open spec fn index_of(es: Seq<EntryView>) -> Seq<IndexView>
    decreases es.len(),
{
    if es.len() == 0 {
        Seq::empty()
    } else {
        index_of(es.drop_last()).push(
            index_entry(es.last(), data_section(es.drop_last()).len() as u64),
        )
    }
}

/// The bytes of an index entry.
pub open spec fn index_record(i: IndexView) -> Seq<u8> {
    be::prefixed(i.key) + (be::be64(i.seq) + (seq![i.tag] + (be::be64(i.offset) + be::be32(
        i.value_len,
    ))))
}

/// The bytes of several index entries.
pub open spec fn index_records(index: Seq<IndexView>) -> Seq<u8>
    decreases index.len(),
{
    if index.len() == 0 {
        Seq::empty()
    } else {
        index_records(index.drop_last()) + index_record(index.last())
    }
}

/// The index section.
pub open spec fn index_section(index: Seq<IndexView>) -> Seq<u8> {
    be::be32(index.len() as u32) + index_records(index)
}

/// The filter section.
pub open spec fn filter_section(f: FilterView) -> Seq<u8> {
    be::prefixed(f.bits) + (be::be64(f.num_bits) + (be::be32(f.num_hashes) + ((be::be64(
        f.keys[0].0,
    ) + be::be64(f.keys[0].1)) + (be::be64(f.keys[1].0) + be::be64(f.keys[1].1)))))
}

/// The footer.
pub open spec fn footer(index_offset: u64, filter_offset: u64) -> Seq<u8> {
    be::be64(0) + (be::be64(index_offset) + be::be64(filter_offset))
}

/// The blob of the table that holds the given entries.
pub open spec fn table_bytes(es: Seq<EntryView>, f: FilterView) -> Seq<u8> {
    let data = data_section(es);
    let index = index_section(index_of(es));
    data + (index + (filter_section(f) + footer(
        data.len() as u64,
        (data.len() + index.len()) as u64,
    )))
}

/// The four-byte number at `pos`.
pub open spec fn u32_in(buf: Seq<u8>, pos: int) -> Result<u32, TableError> {
    if pos + 4 > buf.len() {
        Err(TableError::WantU32 { pos: pos as u64 })
    } else {
        Ok(be::u32_at(buf, pos))
    }
}

/// The eight-byte number at `pos`.
pub open spec fn u64_in(buf: Seq<u8>, pos: int) -> Result<u64, TableError> {
    if pos + 8 > buf.len() {
        Err(TableError::WantU64 { pos: pos as u64 })
    } else {
        Ok(be::u64_at(buf, pos))
    }
}

/// The index entry at `pos` and the position behind it.
pub open spec fn entry_in(buf: Seq<u8>, pos: int) -> Result<(IndexView, int), TableError> {
    match u32_in(buf, pos) {
        Err(e) => Err(e),
        Ok(key_len) => {
            let end = pos + 4 + key_len;
            if end > buf.len() {
                Err(TableError::IndexEntry)
            } else {
                match u64_in(buf, end) {
                    Err(e) => Err(e),
                    Ok(seq) => if end + 8 >= buf.len() {
                        Err(TableError::IndexTag)
                    } else {
                        match u64_in(buf, end + 9) {
                            Err(e) => Err(e),
                            Ok(offset) => match u32_in(buf, end + 17) {
                                Err(e) => Err(e),
                                Ok(value_len) => Ok(
                                    (
                                        IndexView {
                                            key: buf.subrange(pos + 4, end),
                                            seq,
                                            tag: buf[end + 8],
                                            offset,
                                            value_len,
                                        },
                                        end + 21,
                                    ),
                                ),
                            },
                        }
                    },
                }
            }
        },
    }
}

/// The `count` index entries from `pos` on and the position behind them.
pub open spec fn entries_in(buf: Seq<u8>, pos: int, count: nat) -> Result<
    (Seq<IndexView>, int),
    TableError,
>
    decreases count,
{
    if count == 0 {
        Ok((Seq::empty(), pos))
    } else {
        match entries_in(buf, pos, (count - 1) as nat) {
            Err(e) => Err(e),
            Ok((index, mid)) => match entry_in(buf, mid) {
                Err(e) => Err(e),
                Ok((entry, next)) => Ok((index.push(entry), next)),
            },
        }
    }
}

/// Four eight-byte numbers from `pos` on, in pairs.
pub open spec fn keys_in(buf: Seq<u8>, pos: int) -> Result<Seq<(u64, u64)>, TableError> {
    match u64_in(buf, pos) {
        Err(e) => Err(e),
        Ok(a) => match u64_in(buf, pos + 8) {
            Err(e) => Err(e),
            Ok(b) => match u64_in(buf, pos + 16) {
                Err(e) => Err(e),
                Ok(c) => match u64_in(buf, pos + 24) {
                    Err(e) => Err(e),
                    Ok(d) => Ok(seq![(a, b), (c, d)]),
                },
            },
        },
    }
}

/// The filter section at `pos`.
pub open spec fn filter_in(buf: Seq<u8>, pos: int) -> Result<FilterView, TableError> {
    match u32_in(buf, pos) {
        Err(e) => Err(e),
        Ok(bits_len) => {
            let end = pos + 4 + bits_len;
            if end > buf.len() {
                Err(TableError::BloomBitmap)
            } else {
                match u64_in(buf, end) {
                    Err(e) => Err(e),
                    Ok(num_bits) => match u32_in(buf, end + 8) {
                        Err(e) => Err(e),
                        Ok(num_hashes) => match keys_in(buf, end + 12) {
                            Err(e) => Err(e),
                            Ok(keys) => Ok(
                                FilterView {
                                    bits: buf.subrange(pos + 4, end),
                                    num_bits,
                                    num_hashes,
                                    keys,
                                },
                            ),
                        },
                    },
                }
            }
        },
    }
}

/// The table that a blob holds.
pub open spec fn table_in(buf: Seq<u8>) -> Result<TableView, TableError> {
    if buf.len() < 24 {
        Err(TableError::NoFooter)
    } else {
        let index_offset = be::u64_at(buf, buf.len() - 16);
        let filter_offset = be::u64_at(buf, buf.len() - 8);
        match u32_in(buf, index_offset as int) {
            Err(e) => Err(e),
            Ok(count) => match entries_in(buf, index_offset + 4, count as nat) {
                Err(e) => Err(e),
                Ok((index, _)) => match filter_in(buf, filter_offset as int) {
                    Err(e) => Err(e),
                    Ok(filter) => Ok(TableView { index, filter }),
                },
            },
        }
    }
}

/// The value of the data record that an index entry points at.
pub open spec fn value_in(buf: Seq<u8>, entry: IndexView) -> Result<Seq<u8>, TableError> {
    match u32_in(buf, entry.offset as int) {
        Err(e) => Err(e),
        Ok(key_len) => {
            let pos = entry.offset + 4 + key_len;
            match u32_in(buf, pos) {
                Err(e) => Err(e),
                Ok(value_len) => if pos + 4 + value_len > buf.len() {
                    Err(TableError::DataRecord)
                } else {
                    Ok(buf.subrange(pos + 4, pos + 4 + value_len))
                },
            }
        },
    }
}

/// A version as a scan gives it: no value for a tombstone.
pub open spec fn version_in(buf: Seq<u8>, entry: IndexView) -> Result<
    Option<Seq<u8>>,
    TableError,
> {
    if entry.tag == DELETE_TAG {
        Ok(None)
    } else {
        match value_in(buf, entry) {
            Err(e) => Err(e),
            Ok(v) => Ok(Some(v)),
        }
    }
}

/// The versions of all entries, or the first error on the way.
pub open spec fn versions_in(buf: Seq<u8>, index: Seq<IndexView>) -> Result<
    Seq<(Seq<u8>, u64, u8, Option<Seq<u8>>)>,
    TableError,
>
    decreases index.len(),
{
    if index.len() == 0 {
        Ok(Seq::empty())
    } else {
        match versions_in(buf, index.drop_last()) {
            Err(e) => Err(e),
            Ok(vs) => match version_in(buf, index.last()) {
                Err(e) => Err(e),
                Ok(v) => Ok(vs.push((index.last().key, index.last().seq, index.last().tag, v))),
            },
        }
    }
}

/// Whether an index entry comes before another or alongside it: the smaller
/// key first and, of one key, the newer version first.
pub open spec fn in_order(a: IndexView, b: IndexView) -> bool {
    order::before(a.key, b.key) || (a.key == b.key && a.seq >= b.seq)
}

/// Whether an index is in order.
pub open spec fn sorted(index: Seq<IndexView>) -> bool {
    forall|i: int, j: int|
        0 <= i < j < index.len() ==> in_order(#[trigger] index[i], #[trigger] index[j])
}

/// Whether entry `i` is a version of `key` that a reader at `snapshot` may see.
pub open spec fn may_see(index: Seq<IndexView>, i: int, key: Seq<u8>, snapshot: u64) -> bool {
    0 <= i < index.len() && index[i].key == key && index[i].seq <= snapshot
}

/// Whether entry `i` is the version of `key` that a reader at `snapshot` sees:
/// the first of those that it may see.
pub open spec fn sees(index: Seq<IndexView>, i: int, key: Seq<u8>, snapshot: u64) -> bool {
    &&& may_see(index, i, key, snapshot)
    &&& forall|j: int| 0 <= j < i ==> !#[trigger] may_see(index, j, key, snapshot)
}

/// What a reader at `snapshot` gets for `key`: nothing if it may see no
/// version, else the version that it sees.
pub open spec fn read_of(buf: Seq<u8>, index: Seq<IndexView>, key: Seq<u8>, snapshot: u64) -> Result<
    Option<Option<Seq<u8>>>,
    TableError,
> {
    if exists|i: int| sees(index, i, key, snapshot) {
        let i = choose|i: int| sees(index, i, key, snapshot);
        match version_in(buf, index[i]) {
            Err(e) => Err(e),
            Ok(v) => Ok(Some(v)),
        }
    } else {
        Ok(None)
    }
}

/// Whether an entry comes before the versions of `key` that a reader at
/// `snapshot` may see.
pub open spec fn is_ahead(entry: IndexView, key: Seq<u8>, snapshot: u64) -> bool {
    order::before(entry.key, key) || (entry.key == key && entry.seq > snapshot)
}

/// Where halving the entries from `lo` up to `hi` ends: behind the middle one
/// where that is ahead of the versions looked for, else at or before it.
pub open spec fn halved(
    index: Seq<IndexView>,
    key: Seq<u8>,
    snapshot: u64,
    lo: int,
    hi: int,
) -> int
    decreases hi - lo,
{
    if lo >= hi {
        lo
    } else {
        let mid = lo + (hi - lo) / 2;
        if is_ahead(index[mid], key, snapshot) {
            halved(index, key, snapshot, mid + 1, hi)
        } else {
            halved(index, key, snapshot, lo, mid)
        }
    }
}

/// What is read for `key` once the search ended at entry `at`.
pub open spec fn read_there(buf: Seq<u8>, index: Seq<IndexView>, key: Seq<u8>, at: int) -> Result<
    Option<Option<Seq<u8>>>,
    TableError,
> {
    if at >= index.len() || index[at].key != key {
        Ok(None)
    } else {
        match version_in(buf, index[at]) {
            Err(e) => Err(e),
            Ok(v) => Ok(Some(v)),
        }
    }
}

/// What a read gave, over its bytes.
pub open spec fn read_view(r: Result<Option<Option<Vec<u8>>>, TableError>) -> Result<
    Option<Option<Seq<u8>>>,
    TableError,
> {
    match r {
        Ok(None) => Ok(None),
        Ok(Some(None)) => Ok(Some(None)),
        Ok(Some(Some(v))) => Ok(Some(Some(v@))),
        Err(e) => Err(e),
    }
}

#[derive(Debug)]
struct IndexEntry {
    key: Vec<u8>,
    seq: u64,
    tag: u8,
    offset: u64,
    value_len: u32,
}

impl View for IndexEntry {
    type V = IndexView;

    closed spec fn view(&self) -> IndexView {
        IndexView {
            key: self.key@,
            seq: self.seq,
            tag: self.tag,
            offset: self.offset,
            value_len: self.value_len,
        }
    }
}

spec fn index_views(index: Seq<IndexEntry>) -> Seq<IndexView> {
    index.map_values(|e: IndexEntry| e@)
}

fn read_u32(buf: &[u8], pos: u64) -> (r: Result<u32, TableError>)
    ensures
        r == u32_in(buf@, pos as int),
{
    if pos > buf.len() as u64 || buf.len() as u64 - pos < 4 {
        return Err(TableError::WantU32 { pos });
    }
    Ok(get_u32(buf, pos as usize))
}

fn read_u64(buf: &[u8], pos: u64) -> (r: Result<u64, TableError>)
    ensures
        r == u64_in(buf@, pos as int),
{
    if pos > buf.len() as u64 || buf.len() as u64 - pos < 8 {
        return Err(TableError::WantU64 { pos });
    }
    Ok(get_u64(buf, pos as usize))
}

/// Reads the value bytes of a live index entry out of the data section.
fn read_value_at(buf: &[u8], entry: &IndexEntry) -> (r: Result<Vec<u8>, TableError>)
    requires
        buf@.len() + u32::MAX < u64::MAX,
    ensures
        match r {
            Ok(v) => value_in(buf@, entry@) == Ok::<Seq<u8>, TableError>(v@),
            Err(e) => value_in(buf@, entry@) == Err::<Seq<u8>, TableError>(e),
        },
{
    let key_len: u32 = match read_u32(buf, entry.offset) {
        Ok(n) => n,
        Err(e) => return Err(e),
    };
    let pos: u64 = entry.offset + 4 + key_len as u64;
    let value_len: u32 = match read_u32(buf, pos) {
        Ok(n) => n,
        Err(e) => return Err(e),
    };
    let start: u64 = pos + 4;
    if buf.len() as u64 - start < value_len as u64 {
        return Err(TableError::DataRecord);
    }
    Ok(copy_range(buf, start as usize, (start + value_len as u64) as usize))
}

fn read_index_entry(buf: &[u8], pos: u64) -> (r: Result<(IndexEntry, u64), TableError>)
    requires
        buf@.len() + u32::MAX < u64::MAX,
    ensures
        match r {
            Ok((entry, next)) => entry_in(buf@, pos as int) == Ok::<(IndexView, int), TableError>(
                (entry@, next as int),
            ) && next <= buf@.len(),
            Err(e) => entry_in(buf@, pos as int) == Err::<(IndexView, int), TableError>(e),
        },
{
    let key_len: u32 = match read_u32(buf, pos) {
        Ok(n) => n,
        Err(e) => return Err(e),
    };
    let start: u64 = pos + 4;
    if buf.len() as u64 - start < key_len as u64 {
        return Err(TableError::IndexEntry);
    }
    let end: u64 = start + key_len as u64;
    let seq: u64 = match read_u64(buf, end) {
        Ok(n) => n,
        Err(e) => return Err(e),
    };
    if end + 8 >= buf.len() as u64 {
        return Err(TableError::IndexTag);
    }
    let tag: u8 = buf[(end + 8) as usize];
    let offset: u64 = match read_u64(buf, end + 9) {
        Ok(n) => n,
        Err(e) => return Err(e),
    };
    let value_len: u32 = match read_u32(buf, end + 17) {
        Ok(n) => n,
        Err(e) => return Err(e),
    };
    let entry = IndexEntry {
        key: copy_range(buf, start as usize, end as usize),
        seq,
        tag,
        offset,
        value_len,
    };
    Ok((entry, end + 21))
}

proof fn lemma_entries_err(buf: Seq<u8>, pos: int, few: nat, many: nat)
    requires
        few <= many,
        entries_in(buf, pos, few) is Err,
    ensures
        entries_in(buf, pos, many) == entries_in(buf, pos, few),
    decreases many - few,
{
    if few < many {
        lemma_entries_err(buf, pos, few, (many - 1) as nat);
    }
}

fn read_index(buf: &[u8], pos: u64, count: u32) -> (r: Result<Vec<IndexEntry>, TableError>)
    requires
        buf@.len() + u32::MAX < u64::MAX,
    ensures
        match r {
            Ok(index) => entries_in(buf@, pos as int, count as nat) matches Ok((views, _))
                && views == index_views(index@),
            Err(e) => entries_in(buf@, pos as int, count as nat) == Err::<
                (Seq<IndexView>, int),
                TableError,
            >(e),
        },
{
    let mut index: Vec<IndexEntry> = Vec::new();
    let mut cursor: u64 = pos;
    let mut i: u32 = 0;
    proof {
        assert(index_views(index@) =~= Seq::empty());
    }
    while i < count
        invariant
            i <= count,
            buf@.len() + u32::MAX < u64::MAX,
            entries_in(buf@, pos as int, i as nat) == Ok::<(Seq<IndexView>, int), TableError>(
                (index_views(index@), cursor as int),
            ),
        decreases count - i,
    {
        match read_index_entry(buf, cursor) {
            Ok((entry, next)) => {
                let ghost before = index@;
                index.push(entry);
                cursor = next;
                proof {
                    assert(index_views(index@) =~= index_views(before).push(entry@));
                }
            },
            Err(e) => {
                proof {
                    assert(entries_in(buf@, pos as int, (i + 1) as nat) is Err);
                    lemma_entries_err(buf@, pos as int, (i + 1) as nat, count as nat);
                }
                return Err(e);
            },
        }
        i += 1;
    }
    Ok(index)
}

fn read_keys(buf: &[u8], pos: u64) -> (r: Result<[(u64, u64); 2], TableError>)
    requires
        pos <= buf@.len(),
        buf@.len() + u32::MAX < u64::MAX,
    ensures
        match r {
            Ok(keys) => keys_in(buf@, pos as int) == Ok::<Seq<(u64, u64)>, TableError>(keys@),
            Err(e) => keys_in(buf@, pos as int) == Err::<Seq<(u64, u64)>, TableError>(e),
        },
{
    let a: u64 = match read_u64(buf, pos) {
        Ok(n) => n,
        Err(e) => return Err(e),
    };
    let b: u64 = match read_u64(buf, pos + 8) {
        Ok(n) => n,
        Err(e) => return Err(e),
    };
    let c: u64 = match read_u64(buf, pos + 16) {
        Ok(n) => n,
        Err(e) => return Err(e),
    };
    let d: u64 = match read_u64(buf, pos + 24) {
        Ok(n) => n,
        Err(e) => return Err(e),
    };
    let keys: [(u64, u64); 2] = [(a, b), (c, d)];
    proof {
        assert(keys@ =~= seq![(a, b), (c, d)]);
    }
    Ok(keys)
}

fn read_filter(buf: &[u8], pos: u64) -> (r: Result<KeyFilter, TableError>)
    requires
        8 * buf@.len() <= usize::MAX,
    ensures
        match r {
            Ok(f) => {
                &&& filter_in(buf@, pos as int) == Ok::<FilterView, TableError>(filter_view(f))
                &&& f.whole()
                &&& forall|other: KeyFilter|
                    other.whole() && filter_view(other) == filter_view(f)
                        ==> #[trigger] other.admits() == f.admits()
            },
            Err(e) => filter_in(buf@, pos as int) == Err::<FilterView, TableError>(e),
        },
{
    let bits_len: u32 = match read_u32(buf, pos) {
        Ok(n) => n,
        Err(e) => return Err(e),
    };
    let start: u64 = pos + 4;
    if buf.len() as u64 - start < bits_len as u64 {
        return Err(TableError::BloomBitmap);
    }
    let end: u64 = start + bits_len as u64;
    let num_bits: u64 = match read_u64(buf, end) {
        Ok(n) => n,
        Err(e) => return Err(e),
    };
    let num_hashes: u32 = match read_u32(buf, end + 8) {
        Ok(n) => n,
        Err(e) => return Err(e),
    };
    let keys: [(u64, u64); 2] = match read_keys(buf, end + 12) {
        Ok(k) => k,
        Err(e) => return Err(e),
    };
    let bits = vstd::slice::slice_subrange(buf, start as usize, end as usize);
    Ok(KeyFilter::from_parts(bits, num_bits, num_hashes, keys))
}

fn put_index_record(buf: &mut Vec<u8>, entry: &IndexEntry)
    ensures
        final(buf)@ == old(buf)@ + index_record(entry@),
{
    put_prefixed(buf, entry.key.as_slice());
    put_u64(buf, entry.seq);
    buf.push(entry.tag);
    put_u64(buf, entry.offset);
    put_u32(buf, entry.value_len);
    proof {
        assert(buf@ =~= old(buf)@ + index_record(entry@));
    }
}

fn put_index(buf: &mut Vec<u8>, index: &Vec<IndexEntry>)
    ensures
        final(buf)@ == old(buf)@ + index_section(index_views(index@)),
{
    put_u32(buf, index.len() as u32);
    let ghost start = buf@;
    let ghost views = index_views(index@);
    let mut j: usize = 0;
    proof {
        assert(views.take(0) =~= Seq::empty());
        assert(buf@ =~= start + index_records(views.take(0)));
    }
    while j < index.len()
        invariant
            j <= index@.len(),
            views == index_views(index@),
            buf@ == start + index_records(views.take(j as int)),
        decreases index@.len() - j,
    {
        put_index_record(buf, &index[j]);
        proof {
            assert(views.take(j + 1).drop_last() =~= views.take(j as int));
            assert(views.take(j + 1).last() == index@[j as int]@);
            assert(buf@ =~= start + index_records(views.take(j + 1)));
        }
        j += 1;
    }
    proof {
        assert(views.take(j as int) =~= views);
        assert(buf@ =~= old(buf)@ + index_section(views));
    }
}

fn put_filter(buf: &mut Vec<u8>, filter: &KeyFilter)
    ensures
        final(buf)@ == old(buf)@ + filter_section(filter_view(*filter)),
{
    let (bits, num_bits, num_hashes, keys) = filter.parts();
    put_prefixed(buf, bits.as_slice());
    put_u64(buf, num_bits);
    put_u32(buf, num_hashes);
    put_u64(buf, keys[0].0);
    put_u64(buf, keys[0].1);
    put_u64(buf, keys[1].0);
    put_u64(buf, keys[1].1);
    proof {
        assert(buf@ =~= old(buf)@ + filter_section(filter_view(*filter)));
    }
}

/// A table in memory.
pub struct SSTable {
    key: String,
    id: u64,
    index: Vec<IndexEntry>,
    filter: KeyFilter,
    data: Vec<u8>,
}

impl SSTable {
    /// The blob.
    pub closed spec fn blob(&self) -> Seq<u8> {
        self.data@
    }

    /// The index.
    pub closed spec fn index(&self) -> Seq<IndexView> {
        index_views(self.index@)
    }

    /// The filter.
    pub closed spec fn filter(&self) -> KeyFilter {
        self.filter
    }

    /// The number of the table.
    pub closed spec fn id_view(&self) -> u64 {
        self.id
    }

    /// The key of the object that holds the blob.
    pub closed spec fn object_key_view(&self) -> Seq<char> {
        self.key@
    }

    /// Serialises entries, which stand in key order with the newest version of
    /// a key first, and adds their keys to the filter.
    pub fn build_bytes(entries: &[(InternalKey, Vec<u8>)], filter: &mut KeyFilter) -> (buf: Vec<u8>)
        requires
            old(filter).usable(),
            old(filter).whole(),
        ensures
            buf@ == table_bytes(entry_views(entries@), filter_view(*final(filter))),
            final(filter).usable(),
            final(filter).whole(),
            final(filter).bits().len() == old(filter).bits().len(),
            final(filter).num_bits() == old(filter).num_bits(),
            final(filter).num_hashes() == old(filter).num_hashes(),
            final(filter).keys() == old(filter).keys(),
            old(filter).admits().subset_of(final(filter).admits()),
            forall|i: int|
                0 <= i < entries@.len() ==> final(filter).admits().contains(
                    (#[trigger] entries@[i]).0.user_key@,
                ),
    {
        let ghost es = entry_views(entries@);
        let mut index: Vec<IndexEntry> = Vec::new();
        let mut buf: Vec<u8> = Vec::new();
        let mut i: usize = 0;
        proof {
            assert(es.take(0) =~= Seq::empty());
            assert(index_views(index@) =~= index_of(es.take(0)));
            assert(buf@ =~= data_section(es.take(0)));
        }
        while i < entries.len()
            invariant
                i <= entries@.len(),
                es == entry_views(entries@),
                filter.usable(),
                filter.whole(),
                filter.bits().len() == old(filter).bits().len(),
                filter.num_bits() == old(filter).num_bits(),
                filter.num_hashes() == old(filter).num_hashes(),
                filter.keys() == old(filter).keys(),
                old(filter).admits().subset_of(filter.admits()),
                forall|k: int|
                    0 <= k < i ==> filter.admits().contains((#[trigger] entries@[k]).0.user_key@),
                index_views(index@) == index_of(es.take(i as int)),
                buf@ == data_section(es.take(i as int)),
            decreases entries@.len() - i,
        {
            let entry = &entries[i];
            filter.set(&entry.0.user_key);
            let offset: u64 = buf.len() as u64;
            let live: bool = entry.0.tag != DELETE_TAG;
            let ghost before = index@;
            let ghost data = buf@;
            if live {
                put_prefixed(&mut buf, entry.0.user_key.as_slice());
                put_prefixed(&mut buf, entry.1.as_slice());
            }
            index.push(
                IndexEntry {
                    key: copy_range(entry.0.user_key.as_slice(), 0, entry.0.user_key.len()),
                    seq: entry.0.seq,
                    tag: entry.0.tag,
                    offset,
                    value_len: if live {
                        entry.1.len() as u32
                    } else {
                        0
                    },
                },
            );
            proof {
                let e = es[i as int];
                assert(es.take(i + 1).drop_last() =~= es.take(i as int));
                assert(es.take(i + 1).last() == e);
                assert(index@.last().key@ =~= e.key);
                assert(buf@ =~= data + data_record(e));
                assert(index_views(index@) =~= index_views(before).push(index@.last()@));
            }
            i += 1;
        }
        proof {
            assert(es.take(i as int) =~= es);
        }
        let index_offset: u64 = buf.len() as u64;
        put_index(&mut buf, &index);
        let filter_offset: u64 = buf.len() as u64;
        put_filter(&mut buf, filter);
        let ghost fv = filter_view(*filter);
        let ghost body = buf@;
        put_u64(&mut buf, 0);
        put_u64(&mut buf, index_offset);
        put_u64(&mut buf, filter_offset);
        proof {
            assert(buf@ =~= body + footer(index_offset, filter_offset));
            assert(buf@ =~= table_bytes(es, fv));
        }
        buf
    }

    /// Parses a blob into a table.
    pub fn decode(key: String, id: u64, data: Vec<u8>) -> (r: Result<SSTable, TableError>)
        requires
            8 * data@.len() <= usize::MAX,
        ensures
            match r {
                Ok(t) => {
                    &&& table_in(data@) == Ok::<TableView, TableError>(
                        TableView { index: t.index(), filter: filter_view(t.filter()) },
                    )
                    &&& t.filter().whole()
                    &&& t.blob() == data@
                    &&& t.id_view() == id
                    &&& t.object_key_view() == key@
                    &&& forall|other: KeyFilter|
                        other.whole() && filter_view(other) == filter_view(t.filter())
                            ==> #[trigger] other.admits() == t.filter().admits()
                },
                Err(e) => table_in(data@) == Err::<TableView, TableError>(e),
            },
    {
        if data.len() < 24 {
            return Err(TableError::NoFooter);
        }
        let len: usize = data.len();
        let index_offset: u64 = get_u64(data.as_slice(), len - 16);
        let filter_offset: u64 = get_u64(data.as_slice(), len - 8);
        let count: u32 = match read_u32(data.as_slice(), index_offset) {
            Ok(n) => n,
            Err(e) => return Err(e),
        };
        let index = match read_index(data.as_slice(), index_offset + 4, count) {
            Ok(i) => i,
            Err(e) => return Err(e),
        };
        let filter = match read_filter(data.as_slice(), filter_offset) {
            Ok(f) => f,
            Err(e) => return Err(e),
        };
        Ok(SSTable { key, id, index, filter, data })
    }

    /// The position of the first entry that does not come before the versions
    /// of `key` that a reader at `snapshot` may see.
    fn seek(&self, key: &[u8], snapshot: u64) -> (at: usize)
        ensures
            at <= self.index@.len(),
            at == halved(self.index(), key@, snapshot, 0, self.index().len() as int),
            sorted(self.index()) ==> {
                &&& forall|j: int| 0 <= j < at ==> !#[trigger] may_see(self.index(), j, key@, snapshot)
                &&& forall|j: int|
                    at <= j < self.index@.len() ==> !order::before(
                        (#[trigger] self.index()[j]).key,
                        key@,
                    ) && (self.index()[j].key == key@ ==> self.index()[j].seq <= snapshot)
            },
    {
        let mut lo: usize = 0;
        let mut hi: usize = self.index.len();
        let ghost index = self.index();
        while lo < hi
            invariant
                lo <= hi <= self.index@.len(),
                index == self.index(),
                halved(index, key@, snapshot, lo as int, hi as int) == halved(
                    index,
                    key@,
                    snapshot,
                    0,
                    index.len() as int,
                ),
                sorted(index) ==> forall|j: int|
                    0 <= j < lo ==> !#[trigger] may_see(index, j, key@, snapshot),
                sorted(index) ==> forall|j: int|
                    hi <= j < index.len() ==> !order::before((#[trigger] index[j]).key, key@) && (
                    index[j].key == key@ ==> index[j].seq <= snapshot),
            decreases hi - lo,
        {
            let mid: usize = lo + (hi - lo) / 2;
            let entry = &self.index[mid];
            let ahead = match compare(entry.key.as_slice(), key) {
                Rank::Below => true,
                Rank::Same => entry.seq > snapshot,
                Rank::Above => false,
            };
            proof {
                assert(index[mid as int] == entry@);
                order::lemma_irreflexive(key@);
                if order::before(key@, entry.key@) {
                    order::lemma_asymmetric(key@, entry.key@);
                }
                assert(ahead == is_ahead(index[mid as int], key@, snapshot));
                if sorted(index) {
                    if ahead {
                        assert forall|j: int| 0 <= j < mid + 1 implies !#[trigger] may_see(
                            index,
                            j,
                            key@,
                            snapshot,
                        ) by {
                            if j < mid {
                                assert(in_order(index[j], index[mid as int]));
                                order::lemma_irreflexive(key@);
                                if order::before(index[j].key, index[mid as int].key) {
                                    if index[mid as int].key == key@ {
                                    } else {
                                        order::lemma_transitive(
                                            index[j].key,
                                            index[mid as int].key,
                                            key@,
                                        );
                                    }
                                }
                            }
                            order::lemma_irreflexive(key@);
                        }
                    } else {
                        assert forall|j: int| mid <= j < index.len() implies !order::before(
                            (#[trigger] index[j]).key,
                            key@,
                        ) && (index[j].key == key@ ==> index[j].seq <= snapshot) by {
                            order::lemma_total(index[mid as int].key, key@);
                            if index[mid as int].key == key@ {
                                order::lemma_irreflexive(key@);
                            } else {
                                order::lemma_asymmetric(key@, index[mid as int].key);
                            }
                            if j > mid {
                                assert(in_order(index[mid as int], index[j]));
                                if order::before(index[mid as int].key, index[j].key) {
                                    if index[mid as int].key != key@ {
                                        order::lemma_transitive(
                                            key@,
                                            index[mid as int].key,
                                            index[j].key,
                                        );
                                    }
                                    order::lemma_asymmetric(key@, index[j].key);
                                }
                            }
                        }
                    }
                }
            }
            if ahead {
                lo = mid + 1;
            } else {
                hi = mid;
            }
        }
        lo
    }

    /// Whether the table's filter can be asked, which reading a key needs.
    pub fn has_usable_filter(&self) -> (r: bool)
        ensures
            r == self.filter().usable(),
    {
        self.filter.is_usable()
    }

    /// The version of `key` that a reader at `snapshot_seq` sees. `Ok(None)`
    /// says that this table has none; `Ok(Some(None))` is a tombstone. An index
    /// out of order is searched by halving all the same, and may miss versions.
    pub fn read_at(&self, key: &[u8], snapshot_seq: u64) -> (r: Result<
        Option<Option<Vec<u8>>>,
        TableError,
    >)
        requires
            self.filter().usable(),
            self.filter().whole(),
            self.blob().len() + u32::MAX < u64::MAX,
        ensures
            !self.filter().admits().contains(key@) ==> r == Ok::<Option<Option<Vec<u8>>>, TableError>(
                None,
            ),
            self.filter().admits().contains(key@) ==> read_view(r) == read_there(
                self.blob(),
                self.index(),
                key@,
                halved(self.index(), key@, snapshot_seq, 0, self.index().len() as int),
            ),
            self.filter().admits().contains(key@) && sorted(self.index()) ==> read_view(r)
                == read_of(self.blob(), self.index(), key@, snapshot_seq),
    {
        let wanted: Vec<u8> = copy_range(key, 0, key.len());
        assert(wanted@ =~= key@);
        if !self.filter.check(&wanted) {
            return Ok(None);
        }
        let at: usize = self.seek(key, snapshot_seq);
        let ghost index = self.index();
        if at >= self.index.len() {
            proof {
                if sorted(index) {
                    assert forall|i: int| !sees(index, i, key@, snapshot_seq) by {
                        assert(!may_see(index, i, key@, snapshot_seq));
                    }
                }
            }
            return Ok(None);
        }
        let entry = &self.index[at];
        assert(index[at as int] == entry@);
        if !same_bytes(entry.key.as_slice(), key) {
            proof {
                if sorted(index) {
                    order::lemma_total(entry.key@, key@);
                    assert forall|i: int| !sees(index, i, key@, snapshot_seq) by {
                        if at < i < index.len() {
                            assert(in_order(index[at as int], index[i]));
                            if index[i].key == key@ {
                                order::lemma_asymmetric(entry.key@, key@);
                            }
                        }
                        if i == at {
                        }
                        assert(!may_see(index, i, key@, snapshot_seq));
                    }
                }
            }
            return Ok(None);
        }
        proof {
            if sorted(index) {
                assert(sees(index, at as int, key@, snapshot_seq));
                let i = choose|i: int| sees(index, i, key@, snapshot_seq);
                assert(i == at) by {
                    if i < at {
                        assert(!may_see(index, i, key@, snapshot_seq));
                    } else if at < i {
                        assert(!may_see(index, at as int, key@, snapshot_seq));
                    }
                }
            }
        }
        if entry.tag == DELETE_TAG {
            return Ok(Some(None));
        }
        match read_value_at(self.data.as_slice(), entry) {
            Ok(v) => Ok(Some(Some(v))),
            Err(e) => Err(e),
        }
    }

    /// The highest sequence number in the table, or 0 if it is empty.
    pub fn max_seq(&self) -> (m: u64)
        ensures
            forall|i: int| 0 <= i < self.index().len() ==> (#[trigger] self.index()[i]).seq <= m,
            self.index().len() == 0 ==> m == 0,
            self.index().len() > 0 ==> exists|i: int|
                0 <= i < self.index().len() && (#[trigger] self.index()[i]).seq == m,
    {
        let mut m: u64 = 0;
        let mut i: usize = 0;
        let ghost index = self.index();
        while i < self.index.len()
            invariant
                i <= self.index@.len(),
                index == self.index(),
                forall|k: int| 0 <= k < i ==> (#[trigger] index[k]).seq <= m,
                i == 0 ==> m == 0,
                i > 0 ==> exists|k: int| 0 <= k < i && (#[trigger] index[k]).seq == m,
            decreases self.index@.len() - i,
        {
            assert(index[i as int] == self.index@[i as int]@);
            if i == 0 || self.index[i].seq > m {
                m = self.index[i].seq;
                assert(index[i as int].seq == m);
            }
            i += 1;
        }
        m
    }

    /// Every version of every key, in the order of the table.
    pub fn scan_all_versions(&self) -> (r: Result<
        Vec<(Vec<u8>, u64, u8, Option<Vec<u8>>)>,
        TableError,
    >)
        requires
            self.blob().len() + u32::MAX < u64::MAX,
        ensures
            match r {
                Ok(vs) => versions_in(self.blob(), self.index()) == Ok::<
                    Seq<(Seq<u8>, u64, u8, Option<Seq<u8>>)>,
                    TableError,
                >(version_views(vs@)),
                Err(e) => versions_in(self.blob(), self.index()) == Err::<
                    Seq<(Seq<u8>, u64, u8, Option<Seq<u8>>)>,
                    TableError,
                >(e),
            },
    {
        let mut out: Vec<(Vec<u8>, u64, u8, Option<Vec<u8>>)> = Vec::new();
        let mut i: usize = 0;
        let ghost index = self.index();
        proof {
            assert(index.take(0) =~= Seq::empty());
            assert(version_views(out@) =~= Seq::empty());
        }
        while i < self.index.len()
            invariant
                i <= self.index@.len(),
                index == self.index(),
                self.data@.len() + u32::MAX < u64::MAX,
                versions_in(self.data@, index.take(i as int)) == Ok::<
                    Seq<(Seq<u8>, u64, u8, Option<Seq<u8>>)>,
                    TableError,
                >(version_views(out@)),
            decreases self.index@.len() - i,
        {
            let entry = &self.index[i];
            proof {
                assert(index[i as int] == entry@);
                assert(index.take(i + 1).drop_last() =~= index.take(i as int));
                assert(index.take(i + 1).last() == entry@);
            }
            let value: Option<Vec<u8>> = if entry.tag == DELETE_TAG {
                None
            } else {
                match read_value_at(self.data.as_slice(), entry) {
                    Ok(v) => Some(v),
                    Err(e) => {
                        proof {
                            lemma_versions_err(self.data@, index, i + 1, e);
                        }
                        return Err(e);
                    },
                }
            };
            let key: Vec<u8> = copy_range(entry.key.as_slice(), 0, entry.key.len());
            let ghost before = out@;
            let version = (key, entry.seq, entry.tag, value);
            out.push(version);
            proof {
                assert(version.0@ =~= entry.key@);
                assert(version_views(out@) =~= version_views(before).push(version_view(version)));
            }
            i += 1;
        }
        assert(index.take(i as int) =~= index);
        Ok(out)
    }

    /// The number of the table.
    pub fn id(&self) -> (n: u64)
        ensures
            n == self.id_view(),
    {
        self.id
    }

    /// The key of the object that holds the blob.
    pub fn object_key(&self) -> (k: &str)
        ensures
            k@ == self.object_key_view(),
    {
        self.key.as_str()
    }

    /// The size of the blob.
    pub fn blob_size(&self) -> (n: u64)
        ensures
            n == self.blob().len(),
    {
        self.data.len() as u64
    }
}

/// What a version of a scan says.
pub open spec fn version_view(v: (Vec<u8>, u64, u8, Option<Vec<u8>>)) -> (
    Seq<u8>,
    u64,
    u8,
    Option<Seq<u8>>,
) {
    (
        v.0@,
        v.1,
        v.2,
        match v.3 {
            Some(x) => Some(x@),
            None => None,
        },
    )
}

/// What the versions of a scan say.
pub open spec fn version_views(vs: Seq<(Vec<u8>, u64, u8, Option<Vec<u8>>)>) -> Seq<
    (Seq<u8>, u64, u8, Option<Seq<u8>>),
> {
    vs.map_values(|v: (Vec<u8>, u64, u8, Option<Vec<u8>>)| version_view(v))
}

proof fn lemma_versions_err(buf: Seq<u8>, index: Seq<IndexView>, n: int, e: TableError)
    requires
        0 <= n <= index.len(),
        versions_in(buf, index.take(n)) == Err::<
            Seq<(Seq<u8>, u64, u8, Option<Seq<u8>>)>,
            TableError,
        >(e),
    ensures
        versions_in(buf, index) == Err::<Seq<(Seq<u8>, u64, u8, Option<Seq<u8>>)>, TableError>(e),
    decreases index.len() - n,
{
    if n == index.len() {
        assert(index.take(n) =~= index);
    } else {
        assert(index.take(n + 1).drop_last() =~= index.take(n));
        lemma_versions_err(buf, index, n + 1, e);
    }
}

/// Whether the length fields of a table can hold its lengths.
pub open spec fn table_fits(es: Seq<EntryView>, f: FilterView) -> bool {
    &&& es.len() <= u32::MAX
    &&& forall|i: int|
        0 <= i < es.len() ==> (#[trigger] es[i]).key.len() <= u32::MAX && es[i].value.len()
            <= u32::MAX
    &&& f.bits.len() <= u32::MAX
    &&& f.keys.len() == 2
    &&& table_bytes(es, f).len() <= u64::MAX
}

proof fn lemma_index_of(es: Seq<EntryView>)
    ensures
        index_of(es).len() == es.len(),
        forall|i: int|
            #![trigger index_of(es)[i]]
            0 <= i < es.len() ==> index_of(es)[i] == index_entry(
                es[i],
                data_section(es.take(i)).len() as u64,
            ),
    decreases es.len(),
{
    if es.len() > 0 {
        let rest = es.drop_last();
        lemma_index_of(rest);
        assert forall|i: int| 0 <= i < es.len() implies #[trigger] index_of(es)[i] == index_entry(
            es[i],
            data_section(es.take(i)).len() as u64,
        ) by {
            if i < rest.len() {
                assert(rest.take(i) =~= es.take(i));
                assert(index_of(rest)[i] == index_of(es)[i]);
            } else {
                assert(es.take(i) =~= rest);
            }
        }
    }
}

proof fn lemma_entry_stands(buf: Seq<u8>, pos: int, v: IndexView)
    requires
        be::stands(buf, pos, index_record(v)),
        v.key.len() <= u32::MAX,
    ensures
        entry_in(buf, pos) == Ok::<(IndexView, int), TableError>(
            (v, pos + index_record(v).len()),
        ),
{
    let a = be::prefixed(v.key);
    let e4 = be::be32(v.value_len);
    let e3 = be::be64(v.offset) + e4;
    let e2 = seq![v.tag] + e3;
    let e1 = be::be64(v.seq) + e2;
    be::lemma_be32(v.key.len() as u32);
    be::lemma_be64(v.seq);
    be::lemma_be64(v.offset);
    be::lemma_be32(v.value_len);
    be::lemma_stands_split(buf, pos, a, e1);
    be::lemma_stands_prefixed(buf, pos, v.key);
    let end = pos + a.len();
    be::lemma_stands_split(buf, end, be::be64(v.seq), e2);
    be::lemma_u64_at(buf, end, v.seq);
    be::lemma_stands_split(buf, end + 8, seq![v.tag], e3);
    assert(buf[end + 8] == buf.subrange(end + 8, end + 9)[0]);
    be::lemma_stands_split(buf, end + 9, be::be64(v.offset), e4);
    be::lemma_u64_at(buf, end + 9, v.offset);
    be::lemma_u32_at(buf, end + 17, v.value_len);
}

proof fn lemma_entries_stand(buf: Seq<u8>, pos: int, index: Seq<IndexView>)
    requires
        be::stands(buf, pos, index_records(index)),
        forall|i: int| 0 <= i < index.len() ==> (#[trigger] index[i]).key.len() <= u32::MAX,
    ensures
        entries_in(buf, pos, index.len()) == Ok::<(Seq<IndexView>, int), TableError>(
            (index, pos + index_records(index).len()),
        ),
    decreases index.len(),
{
    if index.len() == 0 {
        assert(index =~= Seq::empty());
    } else {
        let rest = index.drop_last();
        let last = index[index.len() - 1];
        be::lemma_stands_split(buf, pos, index_records(rest), index_record(last));
        assert forall|i: int| 0 <= i < rest.len() implies (#[trigger] rest[i]).key.len()
            <= u32::MAX by {
            assert(rest[i] == index[i]);
        }
        lemma_entries_stand(buf, pos, rest);
        lemma_entry_stands(buf, pos + index_records(rest).len(), last);
        assert(rest.push(last) =~= index);
    }
}

proof fn lemma_filter_stands(buf: Seq<u8>, pos: int, f: FilterView)
    requires
        be::stands(buf, pos, filter_section(f)),
        f.bits.len() <= u32::MAX,
        f.keys.len() == 2,
    ensures
        filter_in(buf, pos) == Ok::<FilterView, TableError>(f),
{
    let k0 = be::be64(f.keys[0].0) + be::be64(f.keys[0].1);
    let k1 = be::be64(f.keys[1].0) + be::be64(f.keys[1].1);
    let e3 = k0 + k1;
    let e2 = be::be32(f.num_hashes) + e3;
    let e1 = be::be64(f.num_bits) + e2;
    be::lemma_be32(f.bits.len() as u32);
    be::lemma_be64(f.num_bits);
    be::lemma_be32(f.num_hashes);
    be::lemma_be64(f.keys[0].0);
    be::lemma_be64(f.keys[0].1);
    be::lemma_be64(f.keys[1].0);
    be::lemma_be64(f.keys[1].1);
    be::lemma_stands_split(buf, pos, be::prefixed(f.bits), e1);
    be::lemma_stands_prefixed(buf, pos, f.bits);
    let end = pos + 4 + f.bits.len();
    be::lemma_stands_split(buf, end, be::be64(f.num_bits), e2);
    be::lemma_u64_at(buf, end, f.num_bits);
    be::lemma_stands_split(buf, end + 8, be::be32(f.num_hashes), e3);
    be::lemma_u32_at(buf, end + 8, f.num_hashes);
    be::lemma_stands_split(buf, end + 12, k0, k1);
    be::lemma_stands_split(buf, end + 12, be::be64(f.keys[0].0), be::be64(f.keys[0].1));
    be::lemma_stands_split(buf, end + 28, be::be64(f.keys[1].0), be::be64(f.keys[1].1));
    be::lemma_u64_at(buf, end + 12, f.keys[0].0);
    be::lemma_u64_at(buf, end + 20, f.keys[0].1);
    be::lemma_u64_at(buf, end + 28, f.keys[1].0);
    be::lemma_u64_at(buf, end + 36, f.keys[1].1);
    assert(f.keys =~= seq![
        (f.keys[0].0, f.keys[0].1),
        (f.keys[1].0, f.keys[1].1),
    ]);
}

proof fn lemma_whole_stands(s: Seq<u8>)
    ensures
        be::stands(s, 0, s),
{
    assert(s.subrange(0, s.len() as int) =~= s);
}

/// Decoding the blob of a table gives back its index and its filter.
pub proof fn law_decode_gives_back_the_table(es: Seq<EntryView>, f: FilterView)
    requires
        table_fits(es, f),
    ensures
        table_in(table_bytes(es, f)) == Ok::<TableView, TableError>(
            TableView { index: index_of(es), filter: f },
        ),
{
    let buf = table_bytes(es, f);
    let data = data_section(es);
    let index = index_of(es);
    let isec = index_section(index);
    let fsec = filter_section(f);
    let foot = footer(data.len() as u64, (data.len() + isec.len()) as u64);
    lemma_index_of(es);
    be::lemma_be64(0);
    be::lemma_be64(data.len() as u64);
    be::lemma_be64((data.len() + isec.len()) as u64);
    be::lemma_be32(index.len() as u32);
    lemma_whole_stands(buf);
    be::lemma_stands_split(buf, 0, data, isec + (fsec + foot));
    let io = data.len() as int;
    be::lemma_stands_split(buf, io, isec, fsec + foot);
    let fo = io + isec.len();
    be::lemma_stands_split(buf, fo, fsec, foot);
    let end = fo + fsec.len();
    be::lemma_stands_split(
        buf,
        end,
        be::be64(0),
        be::be64(data.len() as u64) + be::be64((data.len() + isec.len()) as u64),
    );
    be::lemma_stands_split(
        buf,
        end + 8,
        be::be64(data.len() as u64),
        be::be64((data.len() + isec.len()) as u64),
    );
    be::lemma_u64_at(buf, buf.len() - 16, data.len() as u64);
    be::lemma_u64_at(buf, buf.len() - 8, (data.len() + isec.len()) as u64);
    be::lemma_stands_split(buf, io, be::be32(index.len() as u32), index_records(index));
    be::lemma_u32_at(buf, io, index.len() as u32);
    assert forall|i: int| 0 <= i < index.len() implies (#[trigger] index[i]).key.len()
        <= u32::MAX by {
        assert(es[i].key.len() <= u32::MAX);
    }
    lemma_entries_stand(buf, io + 4, index);
    lemma_filter_stands(buf, fo, f);
}

proof fn lemma_data_record_stands(es: Seq<EntryView>, i: int)
    requires
        0 <= i < es.len(),
    ensures
        be::stands(data_section(es), data_section(es.take(i)).len() as int, data_record(es[i])),
    decreases es.len(),
{
    let rest = es.drop_last();
    let whole = data_section(es);
    let head = data_section(rest);
    let at = data_section(es.take(i)).len() as int;
    if i == es.len() - 1 {
        assert(es.take(i) =~= rest);
        assert(whole.subrange(at, at + data_record(es[i]).len()) =~= data_record(es[i]));
    } else {
        lemma_data_record_stands(rest, i);
        assert(rest.take(i) =~= es.take(i));
        assert(whole.subrange(at, at + data_record(es[i]).len()) =~= head.subrange(
            at,
            at + data_record(es[i]).len(),
        ));
    }
}

/// The value of a live version is read back from the blob as it was written.
pub proof fn law_values_are_read_back(es: Seq<EntryView>, f: FilterView, i: int)
    requires
        table_fits(es, f),
        0 <= i < es.len(),
    ensures
        version_in(table_bytes(es, f), index_of(es)[i]) == Ok::<Option<Seq<u8>>, TableError>(
            if es[i].tag == DELETE_TAG {
                None
            } else {
                Some(es[i].value)
            },
        ),
{
    let buf = table_bytes(es, f);
    let data = data_section(es);
    let e = es[i];
    lemma_index_of(es);
    if e.tag != DELETE_TAG {
        let at = data_section(es.take(i)).len() as int;
        lemma_data_record_stands(es, i);
        let record = data_record(e);
        assert(buf.subrange(at, at + record.len()) =~= data.subrange(at, at + record.len()));
        be::lemma_be32(e.key.len() as u32);
        be::lemma_be32(e.value.len() as u32);
        be::lemma_stands_split(buf, at, be::prefixed(e.key), be::prefixed(e.value));
        be::lemma_stands_prefixed(buf, at, e.key);
        be::lemma_stands_prefixed(buf, at + 4 + e.key.len(), e.value);
        assert(at <= data.len());
    }
}

/// In a table in order the version that a reader sees is the newest of those
/// that it may see.
pub proof fn law_reader_sees_the_newest_version(
    index: Seq<IndexView>,
    i: int,
    j: int,
    key: Seq<u8>,
    snapshot: u64,
)
    requires
        sorted(index),
        sees(index, i, key, snapshot),
        may_see(index, j, key, snapshot),
    ensures
        index[j].seq <= index[i].seq,
{
    if j < i {
        assert(!may_see(index, j, key, snapshot));
    } else if i < j {
        assert(in_order(index[i], index[j]));
        order::lemma_irreflexive(key);
    }
}

/// A table gives back what was put in: a reader gets the value, or the
/// tombstone, of the first entry for its key that its snapshot covers, and
/// nothing if there is no such entry.
pub proof fn law_table_gives_back_its_entries(
    es: Seq<EntryView>,
    f: FilterView,
    key: Seq<u8>,
    snapshot: u64,
)
    requires
        table_fits(es, f),
    ensures
        forall|i: int|
            #![trigger es[i]]
            0 <= i < es.len() && es[i].key == key && es[i].seq <= snapshot && (forall|j: int|
                0 <= j < i ==> !((#[trigger] es[j]).key == key && es[j].seq <= snapshot))
                ==> read_of(table_bytes(es, f), index_of(es), key, snapshot) == Ok::<
                Option<Option<Seq<u8>>>,
                TableError,
            >(
                Some(
                    if es[i].tag == DELETE_TAG {
                        None
                    } else {
                        Some(es[i].value)
                    },
                ),
            ),
        (forall|j: int|
            0 <= j < es.len() ==> !((#[trigger] es[j]).key == key && es[j].seq <= snapshot))
            ==> read_of(table_bytes(es, f), index_of(es), key, snapshot) == Ok::<
            Option<Option<Seq<u8>>>,
            TableError,
        >(None),
{
    lemma_index_of(es);
    let index = index_of(es);
    assert forall|i: int|
        #![trigger es[i]]
        0 <= i < es.len() && es[i].key == key && es[i].seq <= snapshot && (forall|j: int|
            0 <= j < i ==> !((#[trigger] es[j]).key == key && es[j].seq <= snapshot)) implies read_of(
        table_bytes(es, f),
        index,
        key,
        snapshot,
    ) == Ok::<Option<Option<Seq<u8>>>, TableError>(
        Some(
            if es[i].tag == DELETE_TAG {
                None
            } else {
                Some(es[i].value)
            },
        ),
    ) by {
        assert(index[i].key == key);
        assert forall|j: int| 0 <= j < i implies !#[trigger] may_see(index, j, key, snapshot) by {
            assert(!(es[j].key == key && es[j].seq <= snapshot));
        }
        assert(sees(index, i, key, snapshot));
        let k = choose|k: int| sees(index, k, key, snapshot);
        assert(k == i) by {
            if k < i {
                assert(!may_see(index, k, key, snapshot));
            } else if i < k {
                assert(!may_see(index, i, key, snapshot));
            }
        }
        law_values_are_read_back(es, f, i);
    }
    if forall|j: int|
        0 <= j < es.len() ==> !((#[trigger] es[j]).key == key && es[j].seq <= snapshot) {
        assert forall|k: int| !sees(index, k, key, snapshot) by {
            if 0 <= k < es.len() {
                assert(!(es[k].key == key && es[k].seq <= snapshot));
                assert(index[k].key == es[k].key);
            }
        }
    }
}

/// A table lists each of its entries: the key, the number and the tag, and the
/// value where the entry is no deletion.
pub proof fn law_scan_lists_every_entry(es: Seq<EntryView>, f: FilterView)
    requires
        table_fits(es, f),
    ensures
        versions_in(table_bytes(es, f), index_of(es)) matches Ok(vs) && vs.len() == es.len()
            && forall|i: int|
            #![trigger vs[i]]
            0 <= i < es.len() ==> vs[i].0 == es[i].key && vs[i].1 == es[i].seq && vs[i].2
                == es[i].tag && vs[i].3 == (if es[i].tag == DELETE_TAG {
                None
            } else {
                Some(es[i].value)
            }),
{
    lemma_scan_front(es, f, es.len() as int);
    lemma_index_len(es);
    assert(index_of(es).take(es.len() as int) =~= index_of(es));
}

proof fn lemma_index_len(es: Seq<EntryView>)
    ensures
        index_of(es).len() == es.len(),
        forall|i: int|
            0 <= i < es.len() ==> (#[trigger] index_of(es)[i]).key == es[i].key && index_of(es)[i].seq
                == es[i].seq && index_of(es)[i].tag == es[i].tag,
    decreases es.len(),
{
    if es.len() > 0 {
        lemma_index_len(es.drop_last());
    }
}

proof fn lemma_scan_front(es: Seq<EntryView>, f: FilterView, n: int)
    requires
        table_fits(es, f),
        0 <= n <= es.len(),
    ensures
        versions_in(table_bytes(es, f), index_of(es).take(n)) matches Ok(vs) && vs.len() == n
            && forall|i: int|
            #![trigger vs[i]]
            0 <= i < n ==> vs[i].0 == es[i].key && vs[i].1 == es[i].seq && vs[i].2 == es[i].tag
                && vs[i].3 == (if es[i].tag == DELETE_TAG {
                None
            } else {
                Some(es[i].value)
            }),
    decreases n,
{
    lemma_index_len(es);
    if n > 0 {
        lemma_scan_front(es, f, n - 1);
        let front = index_of(es).take(n);
        assert(front.drop_last() =~= index_of(es).take(n - 1));
        assert(front.last() == index_of(es)[n - 1]);
        law_values_are_read_back(es, f, n - 1);
    }
}

/// What a record of the data and a record of the index hold, byte for byte: key and
/// value, each behind its length; and the key behind its length, the number in
/// eight bytes, the tag in one, the offset in eight and the length in four.
pub proof fn law_records_have_their_places(e: EntryView, x: IndexView)
    requires
        e.key.len() <= u32::MAX,
        e.value.len() <= u32::MAX,
        x.key.len() <= u32::MAX,
    ensures
        e.tag == DELETE_TAG ==> data_record(e).len() == 0,
        e.tag != DELETE_TAG ==> {
            let d = data_record(e);
            let k = e.key.len() as int;
            let v = e.value.len() as int;
            &&& d.len() == 8 + k + v
            &&& be::u32_at(d, 0) == k
            &&& d.subrange(4, 4 + k) == e.key
            &&& be::u32_at(d, 4 + k) == v
            &&& d.subrange(8 + k, 8 + k + v) == e.value
        },
        ({
            let d = index_record(x);
            let k = x.key.len() as int;
            &&& d.len() == k + 25
            &&& be::u32_at(d, 0) == k
            &&& d.subrange(4, 4 + k) == x.key
            &&& be::u64_at(d, 4 + k) == x.seq
            &&& d[12 + k] == x.tag
            &&& be::u64_at(d, 13 + k) == x.offset
            &&& be::u32_at(d, 21 + k) == x.value_len
        }),
{
    if e.tag != DELETE_TAG {
        let d = data_record(e);
        let k = e.key.len() as int;
        let v = e.value.len() as int;
        be::lemma_be32(k as u32);
        be::lemma_be32(v as u32);
        assert(d.subrange(0, 4) =~= be::be32(k as u32));
        assert(d.subrange(4, 4 + k) =~= e.key);
        assert(d.subrange(4 + k, 8 + k) =~= be::be32(v as u32));
        assert(d.subrange(8 + k, 8 + k + v) =~= e.value);
        be::lemma_u32_at(d, 0, k as u32);
        be::lemma_u32_at(d, 4 + k, v as u32);
    }
    let d = index_record(x);
    let k = x.key.len() as int;
    be::lemma_be32(k as u32);
    be::lemma_be64(x.seq);
    be::lemma_be64(x.offset);
    be::lemma_be32(x.value_len);
    assert(d.subrange(0, 4) =~= be::be32(k as u32));
    assert(d.subrange(4, 4 + k) =~= x.key);
    assert(d.subrange(4 + k, 12 + k) =~= be::be64(x.seq));
    assert(d.subrange(13 + k, 21 + k) =~= be::be64(x.offset));
    assert(d.subrange(21 + k, 25 + k) =~= be::be32(x.value_len));
    be::lemma_u32_at(d, 0, k as u32);
    be::lemma_u64_at(d, 4 + k, x.seq);
    be::lemma_u64_at(d, 13 + k, x.offset);
    be::lemma_u32_at(d, 21 + k, x.value_len);
}

/// The last twenty-four bytes of a table tell where its parts begin: the data at
/// the front, the index behind the data, and the filter behind the index. The
/// index begins with the number of entries.
pub proof fn law_end_of_a_table_tells_its_parts(es: Seq<EntryView>, f: FilterView)
    requires
        table_fits(es, f),
    ensures
        ({
            let b = table_bytes(es, f);
            let n = b.len() as int;
            let index = be::u64_at(b, n - 16);
            let filter = be::u64_at(b, n - 8);
            &&& n >= 24
            &&& be::u64_at(b, n - 24) == 0
            &&& 0 <= index <= filter <= n - 24
            &&& b.subrange(0, index as int) == data_section(es)
            &&& be::u32_at(b, index as int) == es.len()
            &&& b.subrange(index + 4, filter as int) == index_records(index_of(es))
            &&& be::u32_at(b, filter as int) == f.bits.len()
            &&& b.subrange(filter + 4, filter + 4 + f.bits.len()) == f.bits
            &&& be::u64_at(b, filter + 4 + f.bits.len()) == f.num_bits
            &&& be::u32_at(b, filter + 12 + f.bits.len()) == f.num_hashes
            &&& be::u64_at(b, filter + 16 + f.bits.len()) == f.keys[0].0
            &&& be::u64_at(b, filter + 24 + f.bits.len()) == f.keys[0].1
            &&& be::u64_at(b, filter + 32 + f.bits.len()) == f.keys[1].0
            &&& be::u64_at(b, filter + 40 + f.bits.len()) == f.keys[1].1
            &&& filter + 48 + f.bits.len() == n - 24
        }),
{
    let b = table_bytes(es, f);
    let n = b.len() as int;
    let data = data_section(es);
    let index = index_section(index_of(es));
    lemma_index_len(es);
    let at = data.len() as int;
    let ft = (data.len() + index.len()) as int;
    let k = f.bits.len() as int;
    be::lemma_be32(es.len() as u32);
    be::lemma_be32(k as u32);
    be::lemma_be64(f.num_bits);
    be::lemma_be32(f.num_hashes);
    be::lemma_be64(f.keys[0].0);
    be::lemma_be64(f.keys[0].1);
    be::lemma_be64(f.keys[1].0);
    be::lemma_be64(f.keys[1].1);
    be::lemma_be64(0);
    be::lemma_be64(at as u64);
    be::lemma_be64(ft as u64);
    assert(index.len() == 4 + index_records(index_of(es)).len());
    assert(filter_section(f).len() == 48 + k);
    assert(n == ft + 48 + k + 24);
    assert(b.subrange(n - 24, n - 16) =~= be::be64(0));
    assert(b.subrange(n - 16, n - 8) =~= be::be64(at as u64));
    assert(b.subrange(n - 8, n) =~= be::be64(ft as u64));
    be::lemma_u64_at(b, n - 24, 0);
    be::lemma_u64_at(b, n - 16, at as u64);
    be::lemma_u64_at(b, n - 8, ft as u64);
    assert(b.subrange(0, at) =~= data);
    assert(b.subrange(at, at + 4) =~= be::be32(es.len() as u32));
    be::lemma_u32_at(b, at, es.len() as u32);
    assert(b.subrange(at + 4, ft) =~= index_records(index_of(es)));
    assert(b.subrange(ft, ft + 48 + k) =~= filter_section(f));
    let p = ft + 4 + k;
    assert(b.subrange(ft, ft + 4) =~= be::be32(k as u32));
    assert(b.subrange(ft + 4, p) =~= f.bits);
    assert(b.subrange(p, p + 8) =~= be::be64(f.num_bits));
    assert(b.subrange(p + 8, p + 12) =~= be::be32(f.num_hashes));
    assert(b.subrange(p + 12, p + 20) =~= be::be64(f.keys[0].0));
    assert(b.subrange(p + 20, p + 28) =~= be::be64(f.keys[0].1));
    assert(b.subrange(p + 28, p + 36) =~= be::be64(f.keys[1].0));
    assert(b.subrange(p + 36, p + 44) =~= be::be64(f.keys[1].1));
    be::lemma_u32_at(b, ft, k as u32);
    be::lemma_u64_at(b, p, f.num_bits);
    be::lemma_u32_at(b, p + 8, f.num_hashes);
    be::lemma_u64_at(b, p + 12, f.keys[0].0);
    be::lemma_u64_at(b, p + 20, f.keys[0].1);
    be::lemma_u64_at(b, p + 28, f.keys[1].0);
    be::lemma_u64_at(b, p + 36, f.keys[1].1);
}

} // verus!
