//! Reopening a database on its write-ahead log.

use vstd::prelude::*;
use vstd::string::*;

use super::engine;
use super::engine::Database;
use super::rows;
use super::rows::make_key;
use super::versions;
use super::versions::{Version, Versions};
use crate::wal;
use crate::wal::{Wal, WalIo, WalRecord};

verus! {

/// The type of a record that deletes its row.
pub const DELETE: u8 = 2;

/// The committed write that a record of the log tells of.
pub open spec fn version_of(r: wal::RecordView) -> versions::VersionView {
    versions::VersionView {
        key: rows::composite(r.table, r.key),
        seq: r.seq,
        value: if r.record_type == DELETE {
            None
        } else {
            Some(r.value)
        },
    }
}

/// The committed writes that the records of a log tell of, in order.
pub open spec fn versions_of(rs: Seq<wal::RecordView>) -> Seq<versions::VersionView> {
    rs.map_values(|r: wal::RecordView| version_of(r))
}

/// The store that a replayed log gives: its writes, and numbers behind all that
/// were ever tried.
pub open spec fn recovered(replay: (Seq<wal::RecordView>, u64)) -> versions::StoreView {
    versions::StoreView {
        log: versions_of(replay.0),
        next_seq: (replay.1 + 1) as u64,
        snapshots: Seq::empty(),
    }
}

fn to_versions(records: Vec<WalRecord>) -> (r: Vec<Version>)
    ensures
        versions::version_views(r@) == versions_of(wal::record_views(records@)),
{
    let ghost all = wal::record_views(records@);
    let mut r: Vec<Version> = Vec::new();
    let mut rest: Vec<WalRecord> = records;
    assert(versions::version_views(r@) =~= versions_of(all.take(0)));
    while rest.len() > 0
        invariant
            rest@.len() <= records@.len(),
            all == wal::record_views(records@),
            rest@ == records@.skip(records@.len() - rest@.len()),
            versions::version_views(r@) == versions_of(all.take(records@.len() - rest@.len())),
        decreases rest@.len(),
    {
        let ghost done = records@.len() - rest@.len();
        let ghost before = r@;
        let one = rest.remove(0);
        proof {
            assert(one == records@[done]);
            assert(rest@ =~= records@.skip(done + 1));
        }
        let key = make_key(one.table.as_str(), one.key.as_slice());
        let value: Option<Vec<u8>> = if one.record_type == DELETE {
            None
        } else {
            Some(one.value)
        };
        r.push(Version { key, seq: one.seq, value });
        proof {
            assert(r@.last()@ == version_of(all[done]));
            assert(versions::version_views(r@) =~= versions::version_views(before).push(
                r@.last()@,
            ));
            assert(versions_of(all.take(done + 1)) =~= versions_of(all.take(done)).push(
                version_of(all[done]),
            ));
        }
    }
    assert(all.take(records@.len() as int) =~= all);
    r
}

impl Database {
    /// Takes over the committed rows that a log holds. The error is the device's,
    /// or that the log has used up the numbers of commits.
    pub fn recover<IO: WalIo>(&mut self, log: &Wal<IO>) -> (r: Result<(), String>)
        requires
            old(self).wf(),
        ensures
            final(self).wf(),
            match r {
                Ok(_) => {
                    &&& *final(self) == (Database { store: final(self).store, ..*old(self) })
                    &&& final(self).store@ == recovered(wal::replay_of(log.log()))
                },
                Err(_) => *final(self) == *old(self),
            },
            exists|answer: Result<Vec<u8>, String>| #[trigger]
                call_ensures(IO::read_all, (&log.device(),), answer) && match answer {
                    Ok(_) => r is Ok <==> wal::replay_of(log.log()).1 < u64::MAX,
                    Err(e) => r == Err::<(), String>(e),
                },
    {
        match log.replay() {
            Err(e) => Err(e),
            Ok((records, last)) => {
                if last == u64::MAX {
                    return Err("the log has used up the numbers of commits".to_owned());
                }
                let list = to_versions(records);
                proof {
                    let all = wal::replay_of(log.log()).0;
                    wal::law_replayed_numbers_are_counted(log.log());
                    assert(versions::version_views(list@).len() == versions_of(all).len());
                    assert forall|i: int| 0 <= i < list@.len() implies (#[trigger] list@[i]).seq
                        <= last by {
                        assert(versions::version_views(list@)[i] == list@[i]@);
                        assert(versions_of(all)[i] == version_of(all[i]));
                    }
                }
                self.store = Versions::resume(list, last);
                Ok(())
            },
        }
    }
}

/// The batch in which a log keeps one write.
pub open spec fn write_batch(
    seq: u64,
    table: Seq<char>,
    row: (Seq<u8>, Seq<u8>),
) -> wal::Batch {
    wal::Batch {
        seq,
        records: seq![
            wal::RecordView { seq, table, key: row.0, value: row.1, record_type: 0 },
        ],
    }
}

/// The batches of several writes, one each, numbered from 1.
pub open spec fn write_batches(
    table: Seq<char>,
    list: Seq<(Seq<u8>, Seq<u8>)>,
) -> Seq<wal::Batch> {
    Seq::new(list.len(), |i: int| write_batch((i + 1) as u64, table, list[i]))
}

/// The store of a new database after several writes.
pub open spec fn after_writes(
    table: Seq<char>,
    list: Seq<(Seq<u8>, Seq<u8>)>,
) -> versions::StoreView
    decreases list.len(),
{
    if list.len() == 0 {
        versions::StoreView { log: Seq::empty(), next_seq: 1, snapshots: Seq::empty() }
    } else {
        engine::committed_one(
            after_writes(table, list.drop_last()),
            rows::composite(table, list.last().0),
            Some(list.last().1),
        )
    }
}

proof fn lemma_writes(table: Seq<char>, list: Seq<(Seq<u8>, Seq<u8>)>)
    requires
        list.len() < u64::MAX,
    ensures
        versions_of(wal::all_records(write_batches(table, list))) == after_writes(table, list).log,
        wal::top_seq(write_batches(table, list)) == list.len(),
        after_writes(table, list).next_seq == list.len() + 1,
        after_writes(table, list).snapshots.len() == 0,
    decreases list.len(),
{
    if list.len() == 0 {
        assert(write_batches(table, list) =~= Seq::<wal::Batch>::empty());
        assert(versions_of(wal::all_records(write_batches(table, list))) =~= after_writes(
            table,
            list,
        ).log);
    } else {
        let fewer = list.drop_last();
        let last = write_batch(list.len() as u64, table, list.last());
        lemma_writes(table, fewer);
        assert(write_batches(table, list) =~= write_batches(table, fewer).push(last));
        wal::lemma_records_push(write_batches(table, fewer), last);
        let before = wal::all_records(write_batches(table, fewer));
        assert(versions_of(before + last.records) =~= versions_of(before) + versions_of(
            last.records,
        ));
        assert(versions_of(last.records) =~= versions::stamped(
            seq![(rows::composite(table, list.last().0), Some(list.last().1))],
            list.len() as u64,
        ));
    }
}

/// A database that is reopened on the log of its writes holds them all, and
/// nothing else.
pub proof fn law_log_gives_back_the_database(table: Seq<char>, list: Seq<(Seq<u8>, Seq<u8>)>)
    requires
        list.len() < u64::MAX,
        forall|i: int|
            0 <= i < list.len() ==> wal::record_fits(
                (write_batch((i + 1) as u64, table, #[trigger] list[i])).records[0],
            ),
    ensures
        recovered(wal::replay_of(wal::log_of(write_batches(table, list)))) == after_writes(
            table,
            list,
        ),
{
    let batches = write_batches(table, list);
    assert forall|i: int| 0 <= i < batches.len() implies (#[trigger] batches[i]).valid() by {
        let r = list[i];
        assert(wal::record_fits(batches[i].records[0]));
    }
    wal::law_replay_gives_back_what_was_appended(batches);
    lemma_writes(table, list);
    assert(recovered(wal::replay_of(wal::log_of(batches))).snapshots =~= after_writes(
        table,
        list,
    ).snapshots);
}

/// A database that is reopened on a log whose last write was cut off anywhere
/// holds exactly the writes before it, and can take the next one.
pub proof fn law_torn_log_gives_back_the_writes_before(
    table: Seq<char>,
    list: Seq<(Seq<u8>, Seq<u8>)>,
    torn: (Seq<u8>, Seq<u8>),
    k: int,
)
    requires
        list.len() + 2 < u64::MAX,
        forall|i: int|
            0 <= i < list.len() ==> wal::record_fits(
                (write_batch((i + 1) as u64, table, #[trigger] list[i])).records[0],
            ),
        wal::record_fits(write_batch((list.len() + 1) as u64, table, torn).records[0]),
        0 <= k < write_batch((list.len() + 1) as u64, table, torn).bytes().len(),
    ensures
        ({
            let last = write_batch((list.len() + 1) as u64, table, torn);
            let s = recovered(
                wal::replay_of(
                    wal::log_of(write_batches(table, list)) + last.bytes().subrange(0, k),
                ),
            );
            &&& s.log == after_writes(table, list).log
            &&& s.snapshots.len() == 0
            &&& after_writes(table, list).next_seq <= s.next_seq < u64::MAX
        }),
{
    let batches = write_batches(table, list);
    let last = write_batch((list.len() + 1) as u64, table, torn);
    assert forall|i: int| 0 <= i < batches.len() implies (#[trigger] batches[i]).valid() by {
        let r = list[i];
        assert(wal::record_fits(batches[i].records[0]));
    }
    wal::law_torn_batch_is_dropped_whole(batches, last, k);
    lemma_writes(table, list);
}

/// The value that several writes left under a key.
pub open spec fn last_written(list: Seq<(Seq<u8>, Seq<u8>)>, key: Seq<u8>) -> Option<Seq<u8>>
    decreases list.len(),
{
    if list.len() == 0 {
        None
    } else if list.last().0 == key {
        Some(list.last().1)
    } else {
        last_written(list.drop_last(), key)
    }
}

proof fn lemma_last_written(table: Seq<char>, list: Seq<(Seq<u8>, Seq<u8>)>, key: Seq<u8>)
    ensures
        versions::value_at(
            after_writes(table, list).log,
            rows::composite(table, key),
            u64::MAX,
        ) == last_written(list, key),
    decreases list.len(),
{
    if list.len() > 0 {
        let before = after_writes(table, list.drop_last());
        lemma_last_written(table, list.drop_last(), key);
        engine::lemma_stripped(table, key);
        engine::lemma_stripped(table, list.last().0);
        assert(after_writes(table, list).log.drop_last() =~= before.log);
    }
}

/// A database that is reopened on a log whose last write was cut off anywhere
/// finds under each key what was last written there before, scans exactly those
/// rows, and reads back what is written next.
pub proof fn law_reopened_database_is_read_and_written(
    table: Seq<char>,
    list: Seq<(Seq<u8>, Seq<u8>)>,
    torn: (Seq<u8>, Seq<u8>),
    k: int,
    next: (Seq<u8>, Seq<u8>),
    key: Seq<u8>,
    value: Seq<u8>,
)
    requires
        list.len() + 2 < u64::MAX,
        forall|i: int|
            0 <= i < list.len() ==> wal::record_fits(
                (write_batch((i + 1) as u64, table, #[trigger] list[i])).records[0],
            ),
        wal::record_fits(write_batch((list.len() + 1) as u64, table, torn).records[0]),
        0 <= k < write_batch((list.len() + 1) as u64, table, torn).bytes().len(),
    ensures
        ({
            let last = write_batch((list.len() + 1) as u64, table, torn);
            let s = recovered(
                wal::replay_of(
                    wal::log_of(write_batches(table, list)) + last.bytes().subrange(0, k),
                ),
            );
            let then = engine::committed_one(s, rows::composite(table, next.0), Some(next.1));
            let scan = engine::rows_under(
                versions::rows_at(s.log, u64::MAX),
                rows::prefix_of(table),
            );
            &&& versions::value_at(s.log, rows::composite(table, key), u64::MAX) == last_written(
                list,
                key,
            )
            &&& scan.contains((key, value)) <==> last_written(list, key) == Some(value)
            &&& versions::value_at(then.log, rows::composite(table, key), u64::MAX)
                == last_written(list.push(next), key)
        }),
{
    law_torn_log_gives_back_the_writes_before(table, list, torn, k);
    lemma_last_written(table, list, key);
    let last = write_batch((list.len() + 1) as u64, table, torn);
    let s = recovered(
        wal::replay_of(wal::log_of(write_batches(table, list)) + last.bytes().subrange(0, k)),
    );
    engine::law_scan_lists_what_is_read(s.log, table, u64::MAX, key, value);
    let then = engine::committed_one(s, rows::composite(table, next.0), Some(next.1));
    assert(then.log.drop_last() =~= s.log);
    assert(list.push(next).drop_last() =~= list);
    engine::lemma_stripped(table, key);
    engine::lemma_stripped(table, next.0);
}

} // verus!
