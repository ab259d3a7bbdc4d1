//! The streaming service: what a connection does with each frame, and what a
//! call does.

use vstd::prelude::*;
use vstd::string::*;
use vstd::utf8::*;

use super::proto;
use super::proto::{
    CreateTopicRequest, PollRequest, PollResponse, PublishRequest, PublishResponse, Record,
    SubscribeRequest,
};
use crate::be;
use crate::be::{copy_range, get_u32, put_bytes, put_u32};
use crate::database::engine::{Database, DbError, NodeRole};
use crate::database::rowmap::copy_bytes;
use crate::flux;
use crate::flux::{FluxError, FluxRecord};
use crate::text;
use crate::text::same_text;

verus! {

pub const DEFAULT_INITIAL_WINDOW: u32 = 65535;

pub const GRPC_OK: u8 = 0;

pub const GRPC_UNIMPLEMENTED: u8 = 12;

pub const GRPC_INTERNAL: u8 = 13;

pub const GRPC_UNAUTHENTICATED: u8 = 16;

// ---- message framing ----

/// A message on the wire: a flag for no compression, its length, and itself.
pub open spec fn enveloped(payload: Seq<u8>) -> Seq<u8> {
    seq![0u8] + be::be32(payload.len() as u32) + payload
}

/// Wraps a message.
pub fn encode_grpc_message(payload: &[u8]) -> (out: Vec<u8>)
    ensures
        out@ == enveloped(payload@),
{
    let mut out: Vec<u8> = Vec::new();
    out.push(0);
    put_u32(&mut out, payload.len() as u32);
    put_bytes(&mut out, payload);
    assert(out@ =~= enveloped(payload@));
    out
}

/// Why the body of a request holds no message.
#[derive(Debug, Clone, Copy, PartialEq, Eq, Structural)]
pub enum EnvelopeError {
    TooShort,
    Compressed,
    LengthExceedsBody,
}

impl EnvelopeError {
    /// What is wrong, in words.
    pub open spec fn text(&self) -> Seq<char> {
        match self {
            EnvelopeError::TooShort => "grpc: request body too short for a message"@,
            EnvelopeError::Compressed => "grpc: compressed messages are not supported"@,
            EnvelopeError::LengthExceedsBody => "grpc: message length exceeds body"@,
        }
    }

    /// What is wrong, in words.
    pub fn message(&self) -> (m: String)
        ensures
            m@ == self.text(),
    {
        match self {
            EnvelopeError::TooShort => "grpc: request body too short for a message".to_owned(),
            EnvelopeError::Compressed => "grpc: compressed messages are not supported".to_owned(),
            EnvelopeError::LengthExceedsBody => "grpc: message length exceeds body".to_owned(),
        }
    }
}

/// The first message of a body.
pub open spec fn first_message(body: Seq<u8>) -> Result<Seq<u8>, EnvelopeError> {
    if body.len() < 5 {
        Err(EnvelopeError::TooShort)
    } else if body[0] != 0 {
        Err(EnvelopeError::Compressed)
    } else if 5 + be::u32_at(body, 1) > body.len() {
        Err(EnvelopeError::LengthExceedsBody)
    } else {
        Ok(body.subrange(5, 5 + be::u32_at(body, 1)))
    }
}

/// Unwraps the first message of a body.
pub fn decode_first_grpc_message(body: &[u8]) -> (r: Result<Vec<u8>, EnvelopeError>)
    ensures
        match r {
            Ok(m) => first_message(body@) == Ok::<Seq<u8>, EnvelopeError>(m@),
            Err(e) => first_message(body@) == Err::<Seq<u8>, EnvelopeError>(e),
        },
{
    if body.len() < 5 {
        return Err(EnvelopeError::TooShort);
    }
    if body[0] != 0 {
        return Err(EnvelopeError::Compressed);
    }
    let len: u32 = get_u32(body, 1);
    if len as u64 > (body.len() - 5) as u64 {
        return Err(EnvelopeError::LengthExceedsBody);
    }
    Ok(copy_range(body, 5, 5 + len as usize))
}

/// The first message of a body, or an empty one.
pub open spec fn message_or_empty(body: Seq<u8>) -> Seq<u8> {
    match first_message(body) {
        Ok(m) => m,
        Err(_) => Seq::empty(),
    }
}

/// The first message of a body, or an empty one.
pub fn body_for(body: &[u8]) -> (m: Vec<u8>)
    ensures
        m@ == message_or_empty(body@),
{
    match decode_first_grpc_message(body) {
        Ok(m) => m,
        Err(_) => {
            let m: Vec<u8> = Vec::new();
            assert(m@ =~= Seq::<u8>::empty());
            m
        },
    }
}

/// A wrapped message is unwrapped as it was, whatever follows it.
pub proof fn law_message_is_unwrapped(payload: Seq<u8>, tail: Seq<u8>)
    requires
        payload.len() <= u32::MAX,
    ensures
        first_message(enveloped(payload) + tail) == Ok::<Seq<u8>, EnvelopeError>(payload),
{
    let body = enveloped(payload) + tail;
    be::lemma_be32(payload.len() as u32);
    assert(body.subrange(1, 5) =~= be::be32(payload.len() as u32));
    assert(body.subrange(5, 5 + payload.len() as int) =~= payload);
}

// ---- calls ----

/// What a call comes to.
#[derive(Debug, Clone, PartialEq)]
pub enum DispatchResult {
    /// One message and a good status.
    Unary(Vec<u8>),
    /// The records of a topic from now on.
    Subscribe(String),
    /// A status and a message.
    Error(u8, String),
}

/// Whether the outcome of a call is the error given.
pub open spec fn is_error(r: DispatchResult, status: u8, msg: Seq<char>) -> bool {
    r matches DispatchResult::Error(s, m) && s == status && m@ == msg
}

/// A record of a topic as a client gets it.
pub open spec fn record_view(topic: Seq<char>, r: flux::FluxView) -> proto::RecordView {
    proto::RecordView {
        offset: r.offset,
        key: match r.key {
            Some(k) => k,
            None => Seq::empty(),
        },
        value: r.value,
        timestamp_ms: r.timestamp_ms,
        topic,
    }
}

/// A record of a topic as a client gets it.
pub fn record_of(topic: &str, r: &FluxRecord) -> (out: Record)
    ensures
        out@ == record_view(topic@, r@),
{
    let key: Vec<u8> = match &r.key {
        Some(k) => copy_bytes(k.as_slice()),
        None => Vec::new(),
    };
    let out = Record {
        offset: r.offset,
        key,
        value: copy_bytes(r.value.as_slice()),
        timestamp_ms: r.timestamp_ms,
        topic: topic.to_owned(),
    };
    assert(out@.key =~= record_view(topic@, r@).key);
    out
}

fn internal(msg: String) -> (r: DispatchResult)
    ensures
        is_error(r, GRPC_INTERNAL, msg@),
{
    DispatchResult::Error(GRPC_INTERNAL, msg)
}

/// Whether a topic can take a record of `len` bytes to a partition.
pub open spec fn can_publish(db: Database, topic: Seq<char>, partition: Option<u32>, len: nat) -> bool {
    db.topics@.contains_key(topic) ==> {
        &&& db.topics@[topic].has_room(len)
        &&& partition is None ==> db.topics@[topic]@.partitions.len() > 0
    }
}

fn check_publish(db: &Database, topic: &str, partition: Option<u32>, len: usize) -> (r: bool)
    requires
        db.wf(),
    ensures
        r == can_publish(*db, topic@, partition, len as nat),
{
    match db.topics.get(topic) {
        None => true,
        Some(log) => {
            assert(db.topics@[topic@].wf());
            log.can_take(len) && (partition.is_some() || log.num_partitions() > 0)
        },
    }
}

/// Publishes a record.
fn dispatch_publish(msg: &[u8], db: &mut Database, now: i64) -> (r: DispatchResult)
    requires
        old(db).wf(),
    ensures
        final(db).wf(),
        publish_outcome(msg@, *old(db), now, r, *final(db)),
{
    match PublishRequest::decode(msg) {
        Err(e) => internal(e.message()),
        Ok(req) => {
            let partition: Option<u32> = if req.has_partition {
                Some(req.partition)
            } else {
                None
            };
            if !check_publish(db, req.topic.as_str(), partition, req.value.len()) {
                return internal("the topic is full".to_owned());
            }
            match db.flux_publish_at(req.topic.as_str(), partition, Some(req.key), req.value, now) {
                Ok((partition, offset)) => {
                    let resp = PublishResponse { partition, offset };
                    DispatchResult::Unary(resp.encode())
                },
                Err(e) => internal(e.message()),
            }
        },
    }
}

/// What a publish comes to.
pub open spec fn publish_outcome(
    msg: Seq<u8>,
    before: Database,
    now: i64,
    r: DispatchResult,
    after: Database,
) -> bool {
    match proto::fields_of(msg) {
        Err(e) => is_error(r, GRPC_INTERNAL, e.text()) && after == before,
        Ok(fs) => {
            let topic = proto::last_text(fs, 1);
            let partition = if proto::last_varint(fs, 4) != 0 {
                Some(proto::last_varint(fs, 5) as u32)
            } else {
                None
            };
            let key = proto::last_len(fs, 2);
            let value = proto::last_len(fs, 3);
            if !can_publish(before, topic, partition, value.len()) {
                is_error(r, GRPC_INTERNAL, "the topic is full"@) && after == before
            } else if before.role == NodeRole::Reader {
                is_error(r, GRPC_INTERNAL, DbError::ReadOnly.text()) && after == before
            } else if !before.topics@.contains_key(topic) {
                is_error(r, GRPC_INTERNAL, "topic \""@ + topic + "\" does not exist"@) && after
                    == before
            } else {
                let log = before.topics@[topic]@;
                let n = log.partitions.len();
                if partition matches Some(p) && p >= n {
                    is_error(
                        r,
                        GRPC_INTERNAL,
                        (FluxError::OutOfRange {
                            partition: partition->0,
                            partitions: n as u32,
                        }).text(),
                    ) && after == before
                } else {
                    let p = flux::target(log, partition, Some(key));
                    &&& after == (Database { topics: after.topics, ..before })
                    &&& (r matches DispatchResult::Unary(out) && out@ == proto::varint_field(
                        1,
                        p as u64,
                    ) + proto::varint_field(2, log.partitions[p as int].next_offset))
                    &&& crate::database::topics::topic_published(
                        before.topics@,
                        topic,
                        partition,
                        Some(key),
                        value,
                        now,
                        after.topics@,
                    )
                }
            }
        },
    }
}

/// The records of a poll as a client gets them.
pub open spec fn record_views(topic: Seq<char>, rs: Seq<flux::FluxView>) -> Seq<proto::RecordView> {
    rs.map_values(|r: flux::FluxView| record_view(topic, r))
}

pub open spec fn out_views(rs: Seq<Record>) -> Seq<proto::RecordView> {
    rs.map_values(|r: Record| r@)
}

/// What a poll comes to.
pub open spec fn poll_outcome(msg: Seq<u8>, db: Database, r: DispatchResult) -> bool {
    match proto::fields_of(msg) {
        Err(e) => is_error(r, GRPC_INTERNAL, e.text()),
        Ok(fs) => {
            let topic = proto::last_text(fs, 1);
            let partition = proto::last_varint(fs, 2) as u32;
            let group = proto::last_text(fs, 3);
            let max = proto::last_varint(fs, 4) as u32;
            if !db.topics@.contains_key(topic) {
                is_error(r, GRPC_INTERNAL, "topic \""@ + topic + "\" does not exist"@)
            } else if partition >= db.topics@[topic]@.partitions.len() {
                is_error(
                    r,
                    GRPC_INTERNAL,
                    (FluxError::NoSuchPartition { partition }).text(),
                )
            } else {
                r matches DispatchResult::Unary(out) && exists|records: Seq<Record>|
                    out@ == #[trigger] proto::records_bytes(records) && out_views(records)
                        == record_views(
                        topic,
                        flux::unread(
                            db.topics@[topic]@.partitions[partition as int].records,
                            match db.topics@[topic].group_offset(group, partition) {
                                Some(o) => o,
                                None => 0,
                            },
                            max as nat,
                        ),
                    )
            }
        },
    }
}

/// Polls the unread records of a group.
fn dispatch_poll(msg: &[u8], db: &Database) -> (r: DispatchResult)
    requires
        db.wf(),
    ensures
        poll_outcome(msg@, *db, r),
{
    match PollRequest::decode(msg) {
        Err(e) => internal(e.message()),
        Ok(req) => match db.flux_poll(
            req.topic.as_str(),
            req.partition,
            req.group.as_str(),
            req.max as usize,
        ) {
            Ok(found) => {
                let ghost all = flux::flux_views(found@);
                let mut records: Vec<Record> = Vec::new();
                let mut i: usize = 0;
                assert(out_views(records@) =~= record_views(req.topic@, all.take(0)));
                while i < found.len()
                    invariant
                        all == flux::flux_views(found@),
                        i <= found@.len(),
                        out_views(records@) == record_views(req.topic@, all.take(i as int)),
                    decreases found@.len() - i,
                {
                    let ghost before = records@;
                    records.push(record_of(req.topic.as_str(), &found[i]));
                    proof {
                        assert(all[i as int] == found@[i as int]@);
                        assert(out_views(records@) =~= out_views(before).push(records@.last()@));
                        assert(record_views(req.topic@, all.take(i + 1)) =~= record_views(
                            req.topic@,
                            all.take(i as int),
                        ).push(record_view(req.topic@, all[i as int])));
                    }
                    i += 1;
                }
                assert(all.take(found@.len() as int) =~= all);
                let resp = PollResponse { records };
                let out = resp.encode();
                assert(out@ == proto::records_bytes(records@));
                DispatchResult::Unary(out)
            },
            Err(e) => internal(e.message()),
        },
    }
}

/// What a request to make a topic comes to.
pub open spec fn create_outcome(
    msg: Seq<u8>,
    before: Database,
    r: DispatchResult,
    after: Database,
) -> bool {
    match proto::fields_of(msg) {
        Err(e) => is_error(r, GRPC_INTERNAL, e.text()) && after == before,
        Ok(fs) => {
            let name = proto::last_text(fs, 1);
            if name.len() == 0 {
                is_error(r, GRPC_INTERNAL, "topic name must not be empty"@) && after == before
            } else if before.topics@.contains_key(name) {
                (r matches DispatchResult::Unary(out) && out@.len() == 0) && after == before
            } else if before.role == NodeRole::Reader {
                is_error(r, GRPC_INTERNAL, DbError::ReadOnly.text()) && after == before
            } else {
                (r matches DispatchResult::Unary(out) && out@.len() == 0) && after == (Database {
                    topics: after.topics,
                    ..before
                }) && crate::database::topics::topic_made(
                    before.topics@,
                    name,
                    1,
                    flux::RetentionPolicy { retention_ms: None, retention_bytes: None },
                    after.topics@,
                )
            }
        },
    }
}

/// Makes a topic, unless it is there.
fn dispatch_create(msg: &[u8], db: &mut Database) -> (r: DispatchResult)
    requires
        old(db).wf(),
    ensures
        final(db).wf(),
        create_outcome(msg@, *old(db), r, *final(db)),
{
    match CreateTopicRequest::decode(msg) {
        Err(e) => internal(e.message()),
        Ok(req) => {
            if req.name.as_str().unicode_len() == 0 {
                return internal("topic name must not be empty".to_owned());
            }
            if db.flux_num_partitions(req.name.as_str()).is_none() {
                match db.create_topic(req.name.as_str(), 1, None, None) {
                    Ok(()) => {},
                    Err(e) => {
                        return internal(e.message());
                    },
                }
            }
            DispatchResult::Unary(proto::CreateTopicResponse {  }.encode())
        },
    }
}

/// What a request to subscribe comes to.
pub open spec fn subscribe_outcome(msg: Seq<u8>, r: DispatchResult) -> bool {
    match proto::fields_of(msg) {
        Err(e) => is_error(r, GRPC_INTERNAL, e.text()),
        Ok(fs) => {
            let topic = proto::last_text(fs, 1);
            if topic.len() == 0 {
                is_error(r, GRPC_INTERNAL, "subscribe topic must not be empty"@)
            } else {
                r matches DispatchResult::Subscribe(t) && t@ == topic
            }
        },
    }
}

/// Serves a call.
pub fn dispatch(path: &str, body: &[u8], db: &mut Database, now: i64) -> (r: DispatchResult)
    requires
        old(db).wf(),
    ensures
        final(db).wf(),
        dispatched(path@, body@, *old(db), now, r, *final(db)),
{
    let msg = body_for(body);
    if same_text(path, "/flux.Flux/Publish") {
        return dispatch_publish(msg.as_slice(), db, now);
    }
    if same_text(path, "/flux.Flux/Poll") {
        return dispatch_poll(msg.as_slice(), db);
    }
    if same_text(path, "/flux.Flux/Subscribe") {
        return match SubscribeRequest::decode(msg.as_slice()) {
            Err(e) => internal(e.message()),
            Ok(req) => {
                if req.topic.as_str().unicode_len() == 0 {
                    internal("subscribe topic must not be empty".to_owned())
                } else {
                    DispatchResult::Subscribe(req.topic)
                }
            },
        };
    }
    if same_text(path, "/flux.Flux/CreateTopic") {
        return dispatch_create(msg.as_slice(), db);
    }
    let mut m = "unknown method: ".to_owned();
    m.append(path);
    DispatchResult::Error(GRPC_UNIMPLEMENTED, m)
}

/// A publish puts its record at the end of the partition that it names, or that
/// its key is for, with the key and the value of the request, and is answered with
/// the partition and the offset of the record.
pub proof fn law_publish_puts_the_record_in(
    topic: Seq<char>,
    key: Seq<u8>,
    value: Seq<u8>,
    partition: Option<u32>,
    before: Database,
    now: i64,
    r: DispatchResult,
    after: Database,
)
    requires
        encode_utf8(topic).len() <= u64::MAX,
        key.len() <= u64::MAX,
        value.len() <= u64::MAX,
        publish_outcome(proto::publish_bytes(topic, key, value, partition), before, now, r, after),
        before.role != NodeRole::Reader,
        before.topics@.contains_key(topic),
        before.topics@[topic].has_room(value.len()),
        0 < before.topics@[topic]@.partitions.len() <= u32::MAX,
        partition matches Some(p) ==> p < before.topics@[topic]@.partitions.len(),
        before.topics@[topic]@.retention.retention_ms is None,
        before.topics@[topic]@.retention.retention_bytes is None,
    ensures
        ({
            let log = before.topics@[topic]@;
            let p = flux::target(log, partition, Some(key));
            let rs = after.topics@[topic]@.partitions[p as int].records;
            &&& p < log.partitions.len()
            &&& partition matches Some(x) ==> p == x
            &&& rs.len() == log.partitions[p as int].records.len() + 1
            &&& rs.drop_last() == log.partitions[p as int].records
            &&& rs.last().key == Some(key)
            &&& rs.last().value == value
            &&& rs.last().timestamp_ms == now
            &&& r matches DispatchResult::Unary(out) && (proto::fields_of(out@) matches Ok(fs)
                && proto::last_varint(fs, 1) == p && proto::last_varint(fs, 2) == rs.last().offset)
        }),
{
    proto::law_publish_is_read_back(topic, key, value, partition);
    let log = before.topics@[topic]@;
    let n = log.partitions.len() as u32;
    let p = flux::target(log, partition, Some(key));
    assert(flux::key_hash(key) % (n as u64) < n);
    assert(log.partitions[p as int].next_offset < u64::MAX);
    flux::law_published_record_goes_behind_the_others(
        log,
        partition,
        Some(key),
        value,
        now,
        p as int,
    );
    proto::law_short_messages_are_read_back(
        p,
        log.partitions[p as int].next_offset,
        Seq::<char>::empty(),
    );
}

/// A poll is answered with the records that the group has not read, as many as
/// asked for: each an element of the answer that gives offset, key, value, time
/// and topic.
pub proof fn law_poll_gives_the_unread_records(
    topic: Seq<char>,
    partition: u32,
    group: Seq<char>,
    max: u32,
    db: Database,
    out: Vec<u8>,
    unread: Seq<flux::FluxView>,
    i: int,
)
    requires
        encode_utf8(topic).len() <= u64::MAX,
        encode_utf8(group).len() <= u64::MAX,
        poll_outcome(
            proto::poll_bytes(topic, partition, group, max),
            db,
            DispatchResult::Unary(out),
        ),
        db.topics@.contains_key(topic),
        partition < db.topics@[topic]@.partitions.len(),
        unread == flux::unread(
            db.topics@[topic]@.partitions[partition as int].records,
            match db.topics@[topic].group_offset(group, partition) {
                Some(o) => o,
                None => 0,
            },
            max as nat,
        ),
        0 <= i < unread.len(),
        forall|j: int|
            #![trigger unread[j]]
            0 <= j < unread.len() ==> proto::record_bytes(record_view(topic, unread[j])).len()
                <= u64::MAX && unread[j].value.len() <= u64::MAX && (unread[j].key matches Some(k)
                ==> k.len() <= u64::MAX),
    ensures
        ({
            &&& proto::fields_of(out@) matches Ok(fs) && fs.len() == unread.len() && fs[i].0 == 1
                && fs[i].1 is Len && (proto::fields_of(fs[i].1->Len_0) matches Ok(gs)
                && proto::last_varint(gs, 1) == unread[i].offset && proto::last_len(gs, 2) == (
            match unread[i].key {
                Some(k) => k,
                None => Seq::empty(),
            }) && proto::last_len(gs, 3) == unread[i].value && proto::last_varint(gs, 4) as i64
                == unread[i].timestamp_ms && proto::last_text(gs, 5) == topic)
        }),
{
    proto::law_poll_is_read_back(topic, partition, group, max);
    let fs = proto::fields_of(proto::poll_bytes(topic, partition, group, max))->Ok_0;
    assert(proto::last_varint(fs, 2) as u32 == partition);
    assert(proto::last_varint(fs, 4) as u32 == max);
    let records = choose|records: Seq<Record>|
        out@ == #[trigger] proto::records_bytes(records) && out_views(records) == record_views(
            topic,
            unread,
        );
    assert(out_views(records).len() == records.len());
    assert(record_views(topic, unread).len() == unread.len());
    assert forall|j: int| 0 <= j < records.len() implies proto::record_bytes(
        (#[trigger] records[j])@,
    ).len() <= u64::MAX by {
        assert(out_views(records)[j] == records[j]@);
        assert(record_views(topic, unread)[j] == record_view(topic, unread[j]));
        assert(unread[j].value.len() <= u64::MAX);
    }
    proto::law_each_record_is_an_element(records);
    assert(out_views(records)[i] == records[i]@);
    assert(record_views(topic, unread)[i] == record_view(topic, unread[i]));
    assert(unread[i].value.len() <= u64::MAX);
    proto::law_record_is_read_back(record_view(topic, unread[i]));
}

/// A subscription names its topic, and a request for a new topic makes it, with one
/// partition that keeps everything; neither takes an empty name.
pub proof fn law_topics_are_subscribed_and_made_by_name(
    name: Seq<char>,
    subscribed: DispatchResult,
    before: Database,
    made: DispatchResult,
    after: Database,
)
    requires
        encode_utf8(name).len() <= u64::MAX,
        subscribe_outcome(proto::len_field(1, encode_utf8(name)), subscribed),
        create_outcome(proto::len_field(1, encode_utf8(name)), before, made, after),
    ensures
        name.len() > 0 ==> (subscribed matches DispatchResult::Subscribe(t) && t@ == name),
        name.len() == 0 ==> subscribed is Error && made is Error && after == before,
        name.len() > 0 && before.topics@.contains_key(name) ==> made is Unary && after == before,
        name.len() > 0 && !before.topics@.contains_key(name) && before.role != NodeRole::Reader ==> {
            &&& made is Unary
            &&& after.topics@.contains_key(name)
            &&& after.topics@[name]@.partitions.len() == 1
            &&& after.topics@[name]@.partitions[0].records.len() == 0
            &&& after.topics@[name]@.partitions[0].next_offset == 0
            &&& after.topics@[name]@.retention.retention_ms is None
            &&& after.topics@[name]@.retention.retention_bytes is None
            &&& after.topics@.remove(name) == before.topics@
        },
{
    proto::law_short_messages_are_read_back(0, 0, name);
    if name.len() > 0 && !before.topics@.contains_key(name) && before.role != NodeRole::Reader {
        assert(after.topics@.remove(name) =~= before.topics@);
        assert(after.topics@[name]@.partitions[0] == flux::replayed(Seq::empty()));
    }
}

/// What a call comes to: the method is found by its path, and the message is the
/// first one of the body.
pub open spec fn dispatched(
    path: Seq<char>,
    body: Seq<u8>,
    before: Database,
    now: i64,
    r: DispatchResult,
    after: Database,
) -> bool {
    let msg = message_or_empty(body);
    if path == "/flux.Flux/Publish"@ {
        publish_outcome(msg, before, now, r, after)
    } else if path == "/flux.Flux/Poll"@ {
        poll_outcome(msg, before, r) && after == before
    } else if path == "/flux.Flux/Subscribe"@ {
        subscribe_outcome(msg, r) && after == before
    } else if path == "/flux.Flux/CreateTopic"@ {
        create_outcome(msg, before, r, after)
    } else {
        is_error(r, GRPC_UNIMPLEMENTED, "unknown method: "@ + path) && after == before
    }
}

/// A call of a topic's name, in its envelope, subscribes to the topic or makes it,
/// by the path it is sent to. No path but that of a publish or of a new topic
/// changes anything, and one that is not known is refused.
pub proof fn law_path_leads_to_its_method(
    path: Seq<char>,
    name: Seq<char>,
    tail: Seq<u8>,
    before: Database,
    now: i64,
    r: DispatchResult,
    after: Database,
)
    requires
        0 < encode_utf8(name).len() <= u64::MAX,
        name.len() > 0,
        proto::len_field(1, encode_utf8(name)).len() <= u32::MAX,
        dispatched(
            path,
            enveloped(proto::len_field(1, encode_utf8(name))) + tail,
            before,
            now,
            r,
            after,
        ),
    ensures
        path == "/flux.Flux/Subscribe"@ ==> (r matches DispatchResult::Subscribe(t) && t@ == name)
            && after == before,
        path == "/flux.Flux/CreateTopic"@ && before.role != NodeRole::Reader ==> r is Unary
            && after.topics@.contains_key(name),
        path != "/flux.Flux/Publish"@ && path != "/flux.Flux/CreateTopic"@ ==> after == before,
        path != "/flux.Flux/Publish"@ && path != "/flux.Flux/Poll"@ && path
            != "/flux.Flux/Subscribe"@ && path != "/flux.Flux/CreateTopic"@ ==> (
        r matches DispatchResult::Error(s, _) && s == 12),
{
    let msg = proto::len_field(1, encode_utf8(name));
    law_message_is_unwrapped(msg, tail);
    proto::law_short_messages_are_read_back(0, 0, name);
    reveal_strlit("/flux.Flux/Publish");
    reveal_strlit("/flux.Flux/Poll");
    reveal_strlit("/flux.Flux/Subscribe");
    reveal_strlit("/flux.Flux/CreateTopic");
    assert("/flux.Flux/Publish"@.len() == 18);
    assert("/flux.Flux/Poll"@.len() == 15);
    assert("/flux.Flux/Subscribe"@.len() == 20);
    assert("/flux.Flux/CreateTopic"@.len() == 22);
}

} // verus!
