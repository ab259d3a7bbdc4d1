//! The topics of a database.

use vstd::prelude::*;
use vstd::string::*;

use super::engine::{Database, DbError, NodeRole};
use crate::flux;
use crate::flux::{FluxError, FluxLog, FluxRecord, RetentionPolicy};

verus! {

/// The topic that carries the changes of a table.
pub open spec fn cdc_topic(table: Seq<char>) -> Seq<char> {
    "__cdc_"@ + table
}

/// Whether a topic is as it is made: the given partitions, all empty, and no
/// group that has read.
pub open spec fn fresh(log: FluxLog, partitions: u32, retention: RetentionPolicy) -> bool {
    &&& log.wf()
    &&& log@.partitions.len() == partitions
    &&& forall|i: int|
        0 <= i < partitions ==> #[trigger] log@.partitions[i] == flux::replayed(Seq::empty())
    &&& log@.retention == retention
    &&& log@.turn == 0
    &&& forall|g: Seq<char>, p: u32| #[trigger] log.group_offset(g, p) is None
}

/// Whether `after` are the topics once a fresh one is among them.
pub open spec fn topic_made(
    before: Map<Seq<char>, FluxLog>,
    name: Seq<char>,
    partitions: u32,
    retention: RetentionPolicy,
    after: Map<Seq<char>, FluxLog>,
) -> bool {
    &&& after.contains_key(name)
    &&& fresh(after[name], partitions, retention)
    &&& after == before.insert(name, after[name])
}

/// Whether `after` are the topics once a record was published at `now`.
pub open spec fn topic_published(
    before: Map<Seq<char>, FluxLog>,
    name: Seq<char>,
    partition: Option<u32>,
    key: Option<Seq<u8>>,
    value: Seq<u8>,
    now: i64,
    after: Map<Seq<char>, FluxLog>,
) -> bool {
    &&& before.contains_key(name)
    &&& after.contains_key(name)
    &&& after == before.insert(name, after[name])
    &&& after[name]@ == flux::published(before[name]@, partition, key, value, now)
    &&& forall|g: Seq<char>, p: u32| #[trigger]
        after[name].group_offset(g, p) == before[name].group_offset(g, p)
}

/// Whether publishing a record at `now` was answered with `r` and left the
/// topics as `after`: the record's partition and offset, or why it was turned
/// down, with nothing changed.
pub open spec fn publish_answered(
    role: NodeRole,
    before: Map<Seq<char>, FluxLog>,
    name: Seq<char>,
    partition: Option<u32>,
    key: Option<Seq<u8>>,
    value: Seq<u8>,
    now: i64,
    r: Result<(u32, u64), DbError>,
    after: Map<Seq<char>, FluxLog>,
) -> bool {
    match r {
        Ok((p, offset)) => {
            &&& role != NodeRole::Reader
            &&& before.contains_key(name)
            &&& p == flux::target(before[name]@, partition, key)
            &&& p < before[name]@.partitions.len()
            &&& offset == before[name]@.partitions[p as int].next_offset
            &&& topic_published(before, name, partition, key, value, now, after)
        },
        Err(e) => if role == NodeRole::Reader {
            e == DbError::ReadOnly && after == before
        } else if !before.contains_key(name) {
            (e matches DbError::NoTopic(t) && t@ == name) && after == before
        } else {
            &&& partition matches Some(p) && p >= before[name]@.partitions.len() && e
                == DbError::Flux(
                FluxError::OutOfRange {
                    partition: p,
                    partitions: before[name]@.partitions.len() as u32,
                },
            )
            &&& after == before
        },
    }
}

impl Database {
    /// Makes a topic.
    pub fn create_topic(
        &mut self,
        name: &str,
        partitions: u32,
        retention_ms: Option<i64>,
        retention_bytes: Option<u64>,
    ) -> (r: Result<(), DbError>)
        requires
            old(self).wf(),
        ensures
            final(self).wf(),
            match r {
                Ok(_) => {
                    &&& old(self).role != NodeRole::Reader
                    &&& !old(self).topics@.contains_key(name@)
                    &&& partitions > 0
                    &&& topic_made(
                        old(self).topics@,
                        name@,
                        partitions,
                        RetentionPolicy { retention_ms, retention_bytes },
                        final(self).topics@,
                    )
                    &&& *final(self) == (Database { topics: final(self).topics, ..*old(self) })
                },
                Err(e) => {
                    &&& *final(self) == *old(self)
                    &&& if old(self).role == NodeRole::Reader {
                        e == DbError::ReadOnly
                    } else if old(self).topics@.contains_key(name@) {
                        e matches DbError::TopicExists(t) && t@ == name@
                    } else {
                        partitions == 0 && e == DbError::Flux(FluxError::NoPartitions)
                    }
                },
            },
    {
        match self.check_writable() {
            Err(e) => {
                return Err(e);
            },
            Ok(()) => {},
        }
        if self.topics.contains_key(name) {
            return Err(DbError::TopicExists(name.to_owned()));
        }
        match FluxLog::create(partitions, RetentionPolicy { retention_ms, retention_bytes }) {
            Ok(log) => {
                self.topics.insert(name.to_owned(), log);
                assert(self.topics@ == old(self).topics@.insert(name@, self.topics@[name@]));
                Ok(())
            },
            Err(e) => Err(DbError::Flux(e)),
        }
    }

    /// Makes the topic for the changes of a table, unless it is there: one
    /// partition, nothing ever dropped.
    pub fn ensure_cdc_topic(&mut self, table: &str) -> (topic: String)
        requires
            old(self).wf(),
        ensures
            final(self).wf(),
            topic@ == cdc_topic(table@),
            *final(self) == (Database { topics: final(self).topics, ..*old(self) }),
            if old(self).topics@.contains_key(topic@) {
                final(self).topics@ == old(self).topics@
            } else {
                topic_made(
                    old(self).topics@,
                    topic@,
                    1,
                    RetentionPolicy { retention_ms: None, retention_bytes: None },
                    final(self).topics@,
                )
            },
    {
        let mut topic = "__cdc_".to_owned();
        topic.append(table);
        if !self.topics.contains_key(topic.as_str()) {
            match FluxLog::create(
                1,
                RetentionPolicy { retention_ms: None, retention_bytes: None },
            ) {
                Ok(log) => {
                    self.topics.insert(topic.clone(), log);
                    assert(self.topics@ == old(self).topics@.insert(
                        topic@,
                        self.topics@[topic@],
                    ));
                },
                Err(_) => {
                    assert(false);
                },
            }
        }
        topic
    }

    /// Publishes a record at `now`.
    pub fn flux_publish_at(
        &mut self,
        topic: &str,
        partition: Option<u32>,
        key: Option<Vec<u8>>,
        value: Vec<u8>,
        now: i64,
    ) -> (r: Result<(u32, u64), DbError>)
        requires
            old(self).wf(),
            old(self).topics@.contains_key(topic@) ==> {
                &&& old(self).topics@[topic@].has_room(value@.len())
                &&& partition is None ==> old(self).topics@[topic@]@.partitions.len() > 0
            },
        ensures
            final(self).wf(),
            *final(self) == (Database { topics: final(self).topics, ..*old(self) }),
            r is Err ==> *final(self) == *old(self),
            publish_answered(
                old(self).role,
                old(self).topics@,
                topic@,
                partition,
                flux::opt_bytes(key),
                value@,
                now,
                r,
                final(self).topics@,
            ),
    {
        match self.check_writable() {
            Err(e) => {
                return Err(e);
            },
            Ok(()) => {},
        }
        match self.topics.get(topic) {
            None => {
                return Err(DbError::NoTopic(topic.to_owned()));
            },
            Some(log) => {
                assert(old(self).topics@[topic@].wf());
                let partitions: u32 = log.num_partitions();
                match partition {
                    Some(p) => {
                        if p >= partitions {
                            return Err(
                                DbError::Flux(FluxError::OutOfRange { partition: p, partitions }),
                            );
                        }
                    },
                    None => {},
                }
            },
        }
        match self.topics.remove(topic) {
            None => Err(DbError::NoTopic(topic.to_owned())),
            Some(mut log) => {
                let done = log.publish_at(partition, key, value, now);
                self.topics.insert(topic.to_owned(), log);
                proof {
                    assert(self.topics@ =~= old(self).topics@.insert(topic@, log));
                    assert forall|t: Seq<char>| self.topics@.contains_key(t) implies (
                    #[trigger] self.topics@[t]).wf() by {
                        if t != topic@ {
                            assert(old(self).topics@[t].wf());
                        }
                    }
                }
                match done {
                    Ok(x) => Ok(x),
                    Err(e) => Err(DbError::Flux(e)),
                }
            },
        }
    }

    /// Publishes a record now.
    pub fn flux_publish(
        &mut self,
        topic: &str,
        partition: Option<u32>,
        key: Option<Vec<u8>>,
        value: Vec<u8>,
    ) -> (r: Result<(u32, u64), DbError>)
        requires
            old(self).wf(),
            old(self).topics@.contains_key(topic@) ==> {
                &&& old(self).topics@[topic@].has_room(value@.len())
                &&& partition is None ==> old(self).topics@[topic@]@.partitions.len() > 0
            },
        ensures
            final(self).wf(),
            *final(self) == (Database { topics: final(self).topics, ..*old(self) }),
            r is Err ==> *final(self) == *old(self),
            exists|now: i64| #[trigger]
                publish_answered(
                    old(self).role,
                    old(self).topics@,
                    topic@,
                    partition,
                    flux::opt_bytes(key),
                    value@,
                    now,
                    r,
                    final(self).topics@,
                ),
            r is Ok <==> {
                &&& old(self).role != NodeRole::Reader
                &&& old(self).topics@.contains_key(topic@)
                &&& partition matches Some(p) ==> p
                    < old(self).topics@[topic@]@.partitions.len()
            },
    {
        let now: i64 = flux::now_ms();
        let r = self.flux_publish_at(topic, partition, key, value, now);
        r
    }

    /// Publishes the encoded change of a row to the topic of its table.
    pub fn flux_publish_cdc(&mut self, table: &str, event: Vec<u8>, now: i64) -> (r: Result<
        (u32, u64),
        DbError,
    >)
        requires
            old(self).wf(),
            old(self).topics@.contains_key(cdc_topic(table@)) ==> {
                &&& old(self).topics@[cdc_topic(table@)].has_room(event@.len())
                &&& old(self).topics@[cdc_topic(table@)]@.partitions.len() > 0
            },
            event@.len() <= u64::MAX,
        ensures
            final(self).wf(),
            *final(self) == (Database { topics: final(self).topics, ..*old(self) }),
            r is Ok <==> old(self).role != NodeRole::Reader,
            exists|made: Map<Seq<char>, FluxLog>|
                (if old(self).topics@.contains_key(cdc_topic(table@)) {
                    made == old(self).topics@
                } else {
                    topic_made(
                        old(self).topics@,
                        cdc_topic(table@),
                        1,
                        RetentionPolicy { retention_ms: None, retention_bytes: None },
                        made,
                    )
                }) && #[trigger] publish_answered(
                    old(self).role,
                    made,
                    cdc_topic(table@),
                    None,
                    None,
                    event@,
                    now,
                    r,
                    final(self).topics@,
                ),
    {
        let topic = self.ensure_cdc_topic(table);
        let ghost made = self.topics@;
        proof {
            if !old(self).topics@.contains_key(topic@) {
                let log = made[topic@];
                assert forall|i: int| 0 <= i < log@.partitions.len() implies (
                #[trigger] log@.partitions[i]).next_offset < u64::MAX && flux::bytes_of(
                    log@.partitions[i].records,
                ) + event@.len() <= u64::MAX by {
                    assert(log@.partitions[i] == flux::replayed(Seq::empty()));
                }
            }
        }
        let r = self.flux_publish_at(topic.as_str(), None, None, event, now);
        assert(publish_answered(
            self.role,
            made,
            cdc_topic(table@),
            None,
            None,
            event@,
            now,
            r,
            self.topics@,
        ));
        r
    }

    /// The records of a partition that a group has not read, at most `max`.
    pub fn flux_poll(&self, topic: &str, partition: u32, group: &str, max: usize) -> (r: Result<
        Vec<FluxRecord>,
        DbError,
    >)
        requires
            self.wf(),
        ensures
            match r {
                Ok(out) => self.topics@.contains_key(topic@) && partition
                    < self.topics@[topic@]@.partitions.len() && flux::flux_views(out@)
                    == flux::unread(
                    self.topics@[topic@]@.partitions[partition as int].records,
                    match self.topics@[topic@].group_offset(group@, partition) {
                        Some(o) => o,
                        None => 0,
                    },
                    max as nat,
                ),
                Err(e) => if self.topics@.contains_key(topic@) {
                    partition >= self.topics@[topic@]@.partitions.len() && e == DbError::Flux(
                        FluxError::NoSuchPartition { partition },
                    )
                } else {
                    e matches DbError::NoTopic(t) && t@ == topic@
                },
            },
    {
        match self.topics.get(topic) {
            None => Err(DbError::NoTopic(topic.to_owned())),
            Some(log) => {
                assert(self.topics@[topic@].wf());
                match log.poll(group, partition, max) {
                    Ok(out) => Ok(out),
                    Err(e) => Err(DbError::Flux(e)),
                }
            },
        }
    }

    /// Notes how far a group has read a partition.
    pub fn flux_commit(&mut self, topic: &str, partition: u32, group: &str, offset: u64) -> (r:
        Result<(), DbError>)
        requires
            old(self).wf(),
        ensures
            final(self).wf(),
            *final(self) == (Database { topics: final(self).topics, ..*old(self) }),
            old(self).topics@.contains_key(topic@) ==> {
                &&& final(self).topics@.contains_key(topic@)
                &&& final(self).topics@ == old(self).topics@.insert(
                    topic@,
                    final(self).topics@[topic@],
                )
                &&& final(self).topics@[topic@]@ == old(self).topics@[topic@]@
                &&& r is Ok <==> partition < old(self).topics@[topic@]@.partitions.len()
                &&& r matches Err(e) ==> e == DbError::Flux(
                    FluxError::NoSuchPartition { partition },
                )
                &&& forall|g: Seq<char>, p: u32| #[trigger]
                    final(self).topics@[topic@].group_offset(g, p) == (if r is Ok && g == group@
                        && p == partition {
                        Some(offset)
                    } else {
                        old(self).topics@[topic@].group_offset(g, p)
                    })
            },
            !old(self).topics@.contains_key(topic@) ==> (r matches Err(DbError::NoTopic(t)) && t@
                == topic@) && final(self).topics@ == old(self).topics@,
    {
        match self.topics.remove(topic) {
            None => {
                assert(self.topics@ =~= old(self).topics@);
                Err(DbError::NoTopic(topic.to_owned()))
            },
            Some(mut log) => {
                assert(old(self).topics@[topic@].wf());
                let done = log.commit(group, partition, offset);
                self.topics.insert(topic.to_owned(), log);
                proof {
                    assert(self.topics@ =~= old(self).topics@.insert(topic@, log));
                    assert forall|t: Seq<char>| self.topics@.contains_key(t) implies (
                    #[trigger] self.topics@[t]).wf() by {
                        if t != topic@ {
                            assert(old(self).topics@[t].wf());
                        }
                    }
                }
                match done {
                    Ok(()) => Ok(()),
                    Err(e) => Err(DbError::Flux(e)),
                }
            },
        }
    }

    /// All records of a partition that are still kept; nothing without such a
    /// topic or partition.
    pub fn flux_all(&self, topic: &str, partition: u32) -> (r: Option<Vec<FluxRecord>>)
        requires
            self.wf(),
        ensures
            match r {
                Some(out) => self.topics@.contains_key(topic@) && partition
                    < self.topics@[topic@]@.partitions.len() && flux::flux_views(out@)
                    == self.topics@[topic@]@.partitions[partition as int].records,
                None => !self.topics@.contains_key(topic@) || partition
                    >= self.topics@[topic@]@.partitions.len(),
            },
    {
        match self.topics.get(topic) {
            None => None,
            Some(log) => {
                assert(self.topics@[topic@].wf());
                log.all_records(partition)
            },
        }
    }

    /// The number of partitions of a topic.
    pub fn flux_num_partitions(&self, topic: &str) -> (r: Option<u32>)
        requires
            self.wf(),
        ensures
            match r {
                Some(n) => self.topics@.contains_key(topic@) && n
                    == self.topics@[topic@]@.partitions.len(),
                None => !self.topics@.contains_key(topic@),
            },
    {
        match self.topics.get(topic) {
            None => None,
            Some(log) => {
                assert(self.topics@[topic@].wf());
                Some(log.num_partitions())
            },
        }
    }

    /// The topics, each with its number of partitions.
    pub fn list_topics(&self) -> (r: Vec<(String, u32)>)
        requires
            self.wf(),
        ensures
            r@.len() == self.topics.entries@.len(),
            forall|i: int|
                0 <= i < r@.len() ==> (#[trigger] r@[i]).0@ == self.topics.entries@[i].0@
                    && self.topics@.contains_key(r@[i].0@) && r@[i].1
                    == self.topics@[r@[i].0@]@.partitions.len(),
    {
        let mut r: Vec<(String, u32)> = Vec::new();
        let mut i: usize = 0;
        while i < self.topics.entries.len()
            invariant
                self.wf(),
                i <= self.topics.entries@.len(),
                r@.len() == i,
                forall|k: int|
                    0 <= k < i ==> (#[trigger] r@[k]).0@ == self.topics.entries@[k].0@
                        && self.topics@.contains_key(r@[k].0@) && r@[k].1
                        == self.topics@[r@[k].0@]@.partitions.len(),
            decreases self.topics.entries@.len() - i,
        {
            proof {
                self.topics.lemma_entry(i as int);
                assert(self.topics@[self.topics.entries@[i as int].0@].wf());
            }
            let n: u32 = self.topics.entries[i].1.num_partitions();
            r.push((self.topics.entries[i].0.clone(), n));
            i += 1;
        }
        r
    }
}

/// A record that is published to a topic is read by a group that has read
/// nothing, as the last of its partition, where the topic keeps everything; other
/// topics stay as they are.
pub proof fn law_published_record_is_polled(
    role: NodeRole,
    before: Map<Seq<char>, FluxLog>,
    name: Seq<char>,
    partition: Option<u32>,
    key: Option<Seq<u8>>,
    value: Seq<u8>,
    now: i64,
    p: u32,
    offset: u64,
    after: Map<Seq<char>, FluxLog>,
    max: nat,
    other: Seq<char>,
)
    requires
        publish_answered(role, before, name, partition, key, value, now, Ok((p, offset)), after),
        before[name]@.retention.retention_ms is None,
        before[name]@.retention.retention_bytes is None,
        before[name]@.partitions[p as int].next_offset < u64::MAX,
        before[name]@.partitions[p as int].records.len() < max,
    ensures
        ({
            let read = flux::unread(after[name]@.partitions[p as int].records, 0, max);
            &&& read.len() == before[name]@.partitions[p as int].records.len() + 1
            &&& read.drop_last() == before[name]@.partitions[p as int].records
            &&& read.last().offset == offset
            &&& read.last().key == key
            &&& read.last().value == value
            &&& read.last().timestamp_ms == now
        }),
        partition matches Some(x) ==> p == x,
        role != NodeRole::Reader,
        other != name ==> (after.contains_key(other) <==> before.contains_key(other)) && (
        before.contains_key(other) ==> after[other] == before[other]),
{
    flux::law_published_record_goes_behind_the_others(
        before[name]@,
        partition,
        key,
        value,
        now,
        p as int,
    );
    flux::law_new_group_reads_everything(after[name]@.partitions[p as int].records, max);
}

/// The changes of a table go to a topic of their own.
pub proof fn law_tables_have_topics_of_their_own(a: Seq<char>, b: Seq<char>)
    ensures
        cdc_topic(a) == cdc_topic(b) ==> a == b,
        cdc_topic(a).len() == a.len() + 6,
        cdc_topic(a).skip(6) == a,
{
    reveal_strlit("__cdc_");
    assert("__cdc_"@.len() == 6);
    assert(cdc_topic(a).skip(6) =~= a);
    assert(cdc_topic(b).skip(6) =~= b);
}

/// A new topic has the partitions that were asked for, none with a record, keeps
/// its records as was asked, and leaves the other topics as they are.
pub proof fn law_new_topic_is_empty(
    before: Map<Seq<char>, FluxLog>,
    name: Seq<char>,
    partitions: u32,
    retention: RetentionPolicy,
    after: Map<Seq<char>, FluxLog>,
    i: int,
    other: Seq<char>,
)
    requires
        topic_made(before, name, partitions, retention, after),
        0 <= i < partitions,
        other != name,
    ensures
        after.contains_key(name),
        after[name]@.partitions.len() == partitions,
        after[name]@.partitions[i].records.len() == 0,
        after[name]@.partitions[i].next_offset == 0,
        after[name]@.retention == retention,
        after.contains_key(other) <==> before.contains_key(other),
        before.contains_key(other) ==> after[other] == before[other],
{
}

} // verus!
