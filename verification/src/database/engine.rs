//! The database itself: writes, reads, transactions and the catalogue.

use vstd::prelude::*;
use vstd::string::*;

use super::catalog;
use super::catalog::{install, ColumnDef, IndexError, Indexes, OuterUpdate, TableSchema};
use super::index_files;
use super::index_files::{classify_index_file, IndexKind};
use super::rowmap;
use super::rowmap::{copy_bytes, copy_opt_bytes, RowMap};
use super::rows;
use super::rows::{make_key, make_prefix, split_table, starts_with, strip_prefix};
use super::staleness;
use super::staleness::ReaderStaleness;
use super::txn;
use super::txn::{StagedWrite, TxnHandle};
use super::versions;
use super::versions::Versions;
use crate::be;
use crate::be::copy_range;
use crate::btree::BTree;
use crate::canopy_index::{FtsIndex, JsonPathIndex};
use crate::flux::{FluxError, FluxLog};
use crate::geo_index::GeoIndex;
use crate::graph_index::GraphIndex;
use crate::order;
use crate::strmap::StrMap;
use crate::text;
use crate::ts_index::TimeIndex;

verus! {

/// Whether a node takes writes.
#[derive(Debug, Clone, Copy, PartialEq, Eq, Structural)]
pub enum NodeRole {
    Writer,
    Reader,
}

/// Why the database refuses a request.
#[derive(Debug, Clone, PartialEq)]
pub enum DbError {
    ReadOnly,
    NoTable(String),
    NoColumn(String),
    TopicExists(String),
    NoTopic(String),
    Index(IndexError),
    Flux(FluxError),
    /// A refresh failed, for the reason given.
    Refresh(String),
}

impl DbError {
    /// The message that a client gets.
    pub open spec fn text(&self) -> Seq<char> {
        match self {
            DbError::ReadOnly =>
                "this node is a read-only replica; send writes to the writer node"@,
            DbError::NoTable(t) => "table \""@ + t@ + "\" does not exist"@,
            DbError::NoColumn(c) => "column \""@ + c@ + "\" does not exist"@,
            DbError::TopicExists(t) => "topic \""@ + t@ + "\" already exists"@,
            DbError::NoTopic(t) => "topic \""@ + t@ + "\" does not exist"@,
            DbError::Refresh(m) => m@,
            DbError::Flux(e) => e.text(),
            DbError::Index(_) => "the row could not be indexed"@,
        }
    }

    /// The message that a client gets.
    pub fn message(&self) -> (m: String)
        ensures
            m@ == self.text(),
    {
        match self {
            DbError::ReadOnly =>
                "this node is a read-only replica; send writes to the writer node".to_owned(),
            DbError::NoTable(t) => quoted("table \"", t, "\" does not exist"),
            DbError::NoColumn(c) => quoted("column \"", c, "\" does not exist"),
            DbError::TopicExists(t) => quoted("topic \"", t, "\" already exists"),
            DbError::NoTopic(t) => quoted("topic \"", t, "\" does not exist"),
            DbError::Refresh(m) => m.clone(),
            DbError::Flux(e) => e.message(),
            DbError::Index(_) => "the row could not be indexed".to_owned(),
        }
    }
}

/// A name between two texts.
fn quoted(head: &str, name: &String, tail: &str) -> (m: String)
    ensures
        m@ == head@ + name@ + tail@,
{
    let mut m = head.to_owned();
    m.append(name.as_str());
    m.append(tail);
    m
}

/// A row of a table.
#[derive(Debug, Clone, PartialEq)]
pub struct KeyValue {
    pub key: Vec<u8>,
    pub value: Vec<u8>,
}

pub open spec fn pair_views(list: Seq<KeyValue>) -> Seq<(Seq<u8>, Seq<u8>)> {
    list.map_values(|kv: KeyValue| (kv.key@, kv.value@))
}

/// The live rows under a prefix, in order, with the prefix taken off.
pub open spec fn rows_under(all: Seq<rowmap::Row>, prefix: Seq<u8>) -> Seq<(Seq<u8>, Seq<u8>)>
    decreases all.len(),
{
    if all.len() == 0 {
        Seq::empty()
    } else {
        let head = rows_under(all.drop_last(), prefix);
        match all.last().1 {
            Some(v) if rows::has_prefix(all.last().0, prefix) => head.push(
                (all.last().0.skip(prefix.len() as int), v),
            ),
            _ => head,
        }
    }
}

/// Rows with others written over them.
pub open spec fn overlaid(base: Seq<rowmap::Row>, over: Seq<rowmap::Row>) -> Seq<rowmap::Row>
    decreases over.len(),
{
    if over.len() == 0 {
        base
    } else {
        rowmap::put(overlaid(base, over.drop_last()), over.last().0, over.last().1)
    }
}

/// Writing over sorted rows: where the upper rows say something it stands,
/// elsewhere the lower ones show.
pub proof fn lemma_overlaid(base: Seq<rowmap::Row>, over: Seq<rowmap::Row>)
    requires
        rowmap::sorted(base),
    ensures
        rowmap::sorted(overlaid(base, over)),
        forall|k: Seq<u8>| #[trigger]
            rowmap::lookup(overlaid(base, over), k) == (match rowmap::lookup(over, k) {
                Some(v) => Some(v),
                None => rowmap::lookup(base, k),
            }),
    decreases over.len(),
{
    if over.len() > 0 {
        lemma_overlaid(base, over.drop_last());
        let lower = overlaid(base, over.drop_last());
        rowmap::lemma_put(lower, over.last().0, over.last().1);
        assert forall|k: Seq<u8>| #[trigger]
            rowmap::lookup(overlaid(base, over), k) == (match rowmap::lookup(over, k) {
                Some(v) => Some(v),
                None => rowmap::lookup(base, k),
            }) by {
            assert(rowmap::lookup(lower, k) == (match rowmap::lookup(over.drop_last(), k) {
                Some(v) => Some(v),
                None => rowmap::lookup(base, k),
            }));
        }
    }
}

/// The staged writes whose key names a table.
pub open spec fn with_tables(staged: Seq<rowmap::Row>) -> Seq<rowmap::Row>
    decreases staged.len(),
{
    if staged.len() == 0 {
        Seq::empty()
    } else if rows::table_of(staged.last().0) is Some {
        with_tables(staged.drop_last()).push(staged.last())
    } else {
        with_tables(staged.drop_last())
    }
}

/// Keys that name no table are passed over; all else is as it was staged.
pub proof fn lemma_with_tables(staged: Seq<rowmap::Row>, key: Seq<u8>)
    ensures
        rows::table_of(key) is Some ==> rowmap::lookup(with_tables(staged), key) == rowmap::lookup(
            staged,
            key,
        ),
        rows::table_of(key) is None ==> rowmap::lookup(with_tables(staged), key) is None,
    decreases staged.len(),
{
    if staged.len() > 0 {
        lemma_with_tables(staged.drop_last(), key);
        let kept = with_tables(staged.drop_last());
        if rows::table_of(staged.last().0) is Some {
            assert(kept.push(staged.last()).drop_last() =~= kept);
        }
    }
}

/// The writes of a batch that leave a value, as the indexes see them.
pub open spec fn to_index(
    schemas: Map<Seq<char>, TableSchema>,
    batch: Seq<rowmap::Row>,
) -> Seq<catalog::Written>
    decreases batch.len(),
{
    if batch.len() == 0 {
        Seq::empty()
    } else {
        let head = to_index(schemas, batch.drop_last());
        match batch.last().1 {
            Some(v) => head.push(written(schemas, batch.last().0, v)),
            None => head,
        }
    }
}

/// A committed row as the indexes see it: under its key within its table.
pub open spec fn written(
    schemas: Map<Seq<char>, TableSchema>,
    key: Seq<u8>,
    value: Seq<u8>,
) -> catalog::Written {
    let table = rows::table_of(key)->0;
    catalog::Written { schemas, table, key: rows::stripped(key, table), value }
}

/// Whether `steps` are the indexes before, between and after carrying each of
/// `ws` into them.
pub open spec fn carried_in_turn(ws: Seq<catalog::Written>, steps: Seq<Indexes>) -> bool {
    &&& steps.len() == ws.len() + 1
    &&& forall|i: int|
        0 <= i < ws.len() ==> catalog::carried(#[trigger] ws[i], steps[i], steps[i + 1])
}

/// Whether the rows of `ws` were carried into the indexes up to one that was
/// refused, and what the indexes hold then.
pub open spec fn indexing_stopped(
    ws: Seq<catalog::Written>,
    before: Indexes,
    e: IndexError,
    after: Indexes,
) -> bool {
    exists|steps: Seq<Indexes>|
        0 < steps.len() <= ws.len() && #[trigger] carried_in_turn(
            ws.take(steps.len() - 1),
            steps,
        ) && steps.first() == before && catalog::refused(
            ws[steps.len() - 1],
            steps.last(),
            e,
            after,
        )
}

/// What is left to do for a committed row.
#[derive(Debug, Clone, PartialEq)]
pub struct RowUpdates {
    pub table: String,
    pub key: Vec<u8>,
    pub updates: Vec<OuterUpdate>,
}

/// What the object store held when it was looked at.
pub struct Found {
    pub schemas: Vec<TableSchema>,
    pub functions: Vec<(String, Vec<u8>)>,
    pub sequences: Vec<(String, Vec<u8>)>,
}

/// An index read from its file.
pub enum OpenedIndex {
    BTree(BTree),
    Geo(GeoIndex),
    Time(TimeIndex),
    Graph(GraphIndex),
    JsonPath(JsonPathIndex),
    Fts(FtsIndex),
    Vector,
    IvfPq,
}

impl OpenedIndex {
    pub open spec fn kind(&self) -> IndexKind {
        match self {
            OpenedIndex::BTree(_) => IndexKind::BTree,
            OpenedIndex::Geo(_) => IndexKind::Geo,
            OpenedIndex::Time(_) => IndexKind::Time,
            OpenedIndex::Graph(_) => IndexKind::Graph,
            OpenedIndex::JsonPath(_) => IndexKind::JsonPath,
            OpenedIndex::Fts(_) => IndexKind::Fts,
            OpenedIndex::Vector => IndexKind::Vector,
            OpenedIndex::IvfPq => IndexKind::IvfPq,
        }
    }

    pub open spec fn wf(&self) -> bool {
        match self {
            OpenedIndex::Time(i) => i.wf(),
            OpenedIndex::JsonPath(i) => i.wf(),
            OpenedIndex::Fts(i) => i.wf(),
            _ => true,
        }
    }
}

/// Whether `after` is `before` with an index put on a column.
pub open spec fn index_added(
    before: Indexes,
    table: Seq<char>,
    column: Seq<char>,
    index: OpenedIndex,
    after: Indexes,
) -> bool {
    match index {
        OpenedIndex::BTree(i) => catalog::installed(before.trees@, table, column, i, after.trees@)
            && after == (Indexes { trees: after.trees, ..before }),
        OpenedIndex::Geo(i) => catalog::installed(before.geos@, table, column, i, after.geos@)
            && after == (Indexes { geos: after.geos, ..before }),
        OpenedIndex::Time(i) => catalog::installed(before.times@, table, column, i, after.times@)
            && after == (Indexes { times: after.times, ..before }),
        OpenedIndex::Graph(i) => catalog::installed(before.graphs@, table, column, i, after.graphs@)
            && after == (Indexes { graphs: after.graphs, ..before }),
        OpenedIndex::JsonPath(i) => catalog::installed(before.paths@, table, column, i, after.paths@)
            && after == (Indexes { paths: after.paths, ..before }),
        OpenedIndex::Fts(i) => catalog::installed(before.words@, table, column, i, after.words@)
            && after == (Indexes { words: after.words, ..before }),
        OpenedIndex::Vector => catalog::installed(before.vectors@, table, column, (), after.vectors@)
            && after == (Indexes { vectors: after.vectors, ..before }),
        OpenedIndex::IvfPq => catalog::installed(before.ivf_pqs@, table, column, (), after.ivf_pqs@)
            && after == (Indexes { ivf_pqs: after.ivf_pqs, ..before }),
    }
}

/// A map with the schemas of a list added, each under its name; a later one
/// takes the place of an earlier one.
pub open spec fn with_schemas(
    m: Map<Seq<char>, TableSchema>,
    list: Seq<TableSchema>,
) -> Map<Seq<char>, TableSchema>
    decreases list.len(),
{
    if list.len() == 0 {
        m
    } else {
        with_schemas(m.insert(list[0].name@, list[0]), list.drop_first())
    }
}

/// A map with the schemas of a list added where there is none of that name.
pub open spec fn with_new_schemas(
    m: Map<Seq<char>, TableSchema>,
    list: Seq<TableSchema>,
) -> Map<Seq<char>, TableSchema>
    decreases list.len(),
{
    if list.len() == 0 {
        m
    } else {
        let next = if m.contains_key(list[0].name@) {
            m
        } else {
            m.insert(list[0].name@, list[0])
        };
        with_new_schemas(next, list.drop_first())
    }
}

/// A map with the entries of a list added where there is none of that name.
pub open spec fn with_new(
    m: Map<Seq<char>, Vec<u8>>,
    list: Seq<(String, Vec<u8>)>,
) -> Map<Seq<char>, Vec<u8>>
    decreases list.len(),
{
    if list.len() == 0 {
        m
    } else {
        let next = if m.contains_key(list[0].0@) {
            m
        } else {
            m.insert(list[0].0@, list[0].1)
        };
        with_new(next, list.drop_first())
    }
}

fn add_new_entries(m: &mut StrMap<Vec<u8>>, list: Vec<(String, Vec<u8>)>)
    requires
        old(m).wf(),
    ensures
        final(m).wf(),
        final(m)@ == with_new(old(m)@, list@),
{
    let mut rest: Vec<(String, Vec<u8>)> = list;
    while rest.len() > 0
        invariant
            m.wf(),
            with_new(m@, rest@) == with_new(old(m)@, list@),
        decreases rest@.len(),
    {
        let ghost now = rest@;
        let (name, data) = rest.remove(0);
        assert(rest@ =~= now.drop_first());
        if !m.contains_key(name.as_str()) {
            m.insert(name, data);
        }
    }
}

/// The database.
pub struct Database {
    pub role: NodeRole,
    pub store: Versions,
    pub schemas: StrMap<TableSchema>,
    pub functions: StrMap<Vec<u8>>,
    pub sequences: StrMap<Vec<u8>>,
    pub indexes: Indexes,
    pub topics: StrMap<FluxLog>,
    pub reader_staleness: ReaderStaleness,
    pub jsonb_binary: bool,
    pub next_tx_id: u64,
}

impl Database {
    pub open spec fn wf(&self) -> bool {
        &&& self.store.wf()
        &&& self.schemas.wf()
        &&& self.functions.wf()
        &&& self.sequences.wf()
        &&& self.indexes.wf()
        &&& self.topics.wf()
        &&& forall|t: Seq<char>| self.topics@.contains_key(t) ==> (#[trigger] self.topics@[t]).wf()
    }

    /// A database with what the object store held; its indexes and topics are
    /// added one by one, as their files are read.
    pub fn open(role: NodeRole, found: Found) -> (db: Database)
        ensures
            db.wf(),
            db.role == role,
            db.store@ == (versions::StoreView {
                log: Seq::empty(),
                next_seq: 1,
                snapshots: Seq::empty(),
            }),
            db.schemas@ == with_schemas(Map::empty(), found.schemas@),
            db.functions@ == with_last(Map::empty(), found.functions@),
            db.sequences@ == with_last(Map::empty(), found.sequences@),
            db.topics@ == Map::<Seq<char>, FluxLog>::empty(),
            db.indexes.is_empty(),
            db.reader_staleness.last_success_ms == 0,
            db.reader_staleness.consecutive_failures == 0,
            db.reader_staleness.last_error is None,
            !db.jsonb_binary,
            db.next_tx_id == 1,
    {
        let mut schemas: StrMap<TableSchema> = StrMap::new();
        let mut rest: Vec<TableSchema> = found.schemas;
        while rest.len() > 0
            invariant
                schemas.wf(),
                with_schemas(schemas@, rest@) == with_schemas(Map::empty(), found.schemas@),
            decreases rest@.len(),
        {
            let ghost now = rest@;
            let schema = rest.remove(0);
            assert(rest@ =~= now.drop_first());
            schemas.insert(schema.name.clone(), schema);
        }
        let mut functions: StrMap<Vec<u8>> = StrMap::new();
        add_entries(&mut functions, found.functions);
        let mut sequences: StrMap<Vec<u8>> = StrMap::new();
        add_entries(&mut sequences, found.sequences);
        Database {
            role,
            store: Versions::new(),
            schemas,
            functions,
            sequences,
            indexes: Indexes::new(),
            topics: StrMap::new(),
            reader_staleness: ReaderStaleness::default(),
            jsonb_binary: false,
            next_tx_id: 1,
        }
    }

    /// Puts an index on a column, in place of one of its kind that is there.
    pub fn add_index(&mut self, table: &str, column: &str, index: OpenedIndex)
        requires
            old(self).wf(),
            index.wf(),
        ensures
            final(self).wf(),
            index_added(old(self).indexes, table@, column@, index, final(self).indexes),
            *final(self) == (Database { indexes: final(self).indexes, ..*old(self) }),
    {
        match index {
            OpenedIndex::BTree(i) => {
                install(&mut self.indexes.trees, table, column, i);
            },
            OpenedIndex::Geo(i) => {
                install(&mut self.indexes.geos, table, column, i);
            },
            OpenedIndex::Time(i) => {
                let ghost before = self.indexes.times@;
                install(&mut self.indexes.times, table, column, i);
                assert forall|k: int| 0 <= k < self.indexes.times@.len() implies (
                #[trigger] self.indexes.times@[k]).index.wf() by {
                    if k < before.len() {
                        assert(before[k].index.wf());
                    }
                }
            },
            OpenedIndex::Graph(i) => {
                install(&mut self.indexes.graphs, table, column, i);
            },
            OpenedIndex::JsonPath(i) => {
                let ghost before = self.indexes.paths@;
                install(&mut self.indexes.paths, table, column, i);
                assert forall|k: int| 0 <= k < self.indexes.paths@.len() implies (
                #[trigger] self.indexes.paths@[k]).index.wf() by {
                    if k < before.len() {
                        assert(before[k].index.wf());
                    }
                }
            },
            OpenedIndex::Fts(i) => {
                let ghost before = self.indexes.words@;
                install(&mut self.indexes.words, table, column, i);
                assert forall|k: int| 0 <= k < self.indexes.words@.len() implies (
                #[trigger] self.indexes.words@[k]).index.wf() by {
                    if k < before.len() {
                        assert(before[k].index.wf());
                    }
                }
            },
            OpenedIndex::Vector => {
                install(&mut self.indexes.vectors, table, column, ());
            },
            OpenedIndex::IvfPq => {
                install(&mut self.indexes.ivf_pqs, table, column, ());
            },
        }
    }

    /// Takes an index that was read from a file: on the table and column that
    /// the name says, where it names one and its kind.
    pub fn load_index(&mut self, file_name: &str, index: OpenedIndex) -> (taken: bool)
        requires
            old(self).wf(),
            index.wf(),
        ensures
            final(self).wf(),
            taken == (index_files::index_in(file_name@) matches Some((kind, _, _)) && kind
                == index.kind()),
            match index_files::index_in(file_name@) {
                Some((kind, table, column)) if kind == index.kind() => index_added(
                    old(self).indexes,
                    table,
                    column,
                    index,
                    final(self).indexes,
                ) && *final(self) == (Database { indexes: final(self).indexes, ..*old(self) }),
                _ => *final(self) == *old(self),
            },
    {
        match classify_index_file(file_name) {
            Some((kind, table, column)) => {
                if kind == kind_of_opened(&index) {
                    self.add_index(table.as_str(), column.as_str(), index);
                    true
                } else {
                    false
                }
            },
            None => false,
        }
    }

    /// Takes a topic that was read from its files.
    pub fn load_topic(&mut self, name: String, log: FluxLog)
        requires
            old(self).wf(),
            log.wf(),
        ensures
            final(self).wf(),
            final(self).topics@ == old(self).topics@.insert(name@, log),
            *final(self) == (Database { topics: final(self).topics, ..*old(self) }),
    {
        self.topics.insert(name, log);
    }

    /// Whether JSON columns are stored in binary form.
    pub fn jsonb_binary_storage(&self) -> (r: bool)
        ensures
            r == self.jsonb_binary,
    {
        self.jsonb_binary
    }

    /// Says whether JSON columns are stored in binary form.
    pub fn set_jsonb_binary_storage(&mut self, enabled: bool)
        ensures
            *final(self) == (Database { jsonb_binary: enabled, ..*old(self) }),
    {
        self.jsonb_binary = enabled;
    }

    /// How far a reader lags behind.
    pub fn reader_staleness(&self) -> (s: &ReaderStaleness)
        ensures
            *s == self.reader_staleness,
    {
        &self.reader_staleness
    }

    /// Takes in what the object store held, where it could be read: what is
    /// new is added, what is known stays. The outcome is noted.
    pub fn refresh(&mut self, found: Result<Found, String>) -> (r: Result<(), DbError>)
        requires
            old(self).wf(),
        ensures
            final(self).wf(),
            *final(self) == (Database {
                schemas: final(self).schemas,
                functions: final(self).functions,
                sequences: final(self).sequences,
                reader_staleness: final(self).reader_staleness,
                ..*old(self)
            }),
            match found {
                Ok(f) => {
                    &&& r is Ok
                    &&& final(self).schemas@ == with_new_schemas(old(self).schemas@, f.schemas@)
                    &&& final(self).functions@ == with_new(old(self).functions@, f.functions@)
                    &&& final(self).sequences@ == with_new(old(self).sequences@, f.sequences@)
                    &&& final(self).reader_staleness.consecutive_failures == 0
                    &&& final(self).reader_staleness.last_error is None
                },
                Err(msg) => {
                    &&& (r matches Err(e) && e.text() == msg@ && e is Refresh)
                    &&& final(self).schemas == old(self).schemas
                    &&& final(self).functions == old(self).functions
                    &&& final(self).sequences == old(self).sequences
                    &&& (final(self).reader_staleness.last_error matches Some(e) && e@ == msg@)
                    &&& final(self).reader_staleness.last_success_ms
                        == old(self).reader_staleness.last_success_ms
                    &&& final(self).reader_staleness.consecutive_failures == staleness::one_more(
                        old(self).reader_staleness.consecutive_failures,
                    )
                },
            },
    {
        match found {
            Ok(f) => {
                let Found { schemas, functions, sequences } = f;
                let mut rest: Vec<TableSchema> = schemas;
                while rest.len() > 0
                    invariant
                        self.wf(),
                        *self == (Database { schemas: self.schemas, ..*old(self) }),
                        with_new_schemas(self.schemas@, rest@) == with_new_schemas(
                            old(self).schemas@,
                            schemas@,
                        ),
                    decreases rest@.len(),
                {
                    let ghost now = rest@;
                    let schema = rest.remove(0);
                    assert(rest@ =~= now.drop_first());
                    if !self.schemas.contains_key(schema.name.as_str()) {
                        self.schemas.insert(schema.name.clone(), schema);
                    }
                }
                add_new_entries(&mut self.functions, functions);
                add_new_entries(&mut self.sequences, sequences);
                self.reader_staleness.record_success();
                Ok(())
            },
            Err(msg) => {
                self.reader_staleness.record_failure(msg.clone());
                Err(DbError::Refresh(msg))
            },
        }
    }

    /// Whether this node takes writes.
    pub fn check_writable(&self) -> (r: Result<(), DbError>)
        ensures
            self.role == NodeRole::Reader ==> r == Err::<(), DbError>(DbError::ReadOnly),
            self.role != NodeRole::Reader ==> r is Ok,
    {
        if self.role == NodeRole::Reader {
            return Err(DbError::ReadOnly);
        }
        Ok(())
    }

    /// Adds a table.
    pub fn create_table(&mut self, schema: TableSchema) -> (r: Result<(), DbError>)
        requires
            old(self).wf(),
        ensures
            final(self).wf(),
            match r {
                Ok(_) => old(self).role != NodeRole::Reader && final(self).schemas@
                    == old(self).schemas@.insert(schema.name@, schema) && *final(self) == (
                Database { schemas: final(self).schemas, ..*old(self) }),
                Err(e) => old(self).role == NodeRole::Reader && e == DbError::ReadOnly
                    && *final(self) == *old(self),
            },
    {
        match self.check_writable() {
            Err(e) => {
                return Err(e);
            },
            Ok(()) => {},
        }
        self.schemas.insert(schema.name.clone(), schema);
        Ok(())
    }

    /// Adds a table unless there is one of that name.
    pub fn ensure_table(&mut self, name: &str, columns: Vec<ColumnDef>) -> (r: Result<(), DbError>)
        requires
            old(self).wf(),
        ensures
            final(self).wf(),
            table_ensured(
                *old(self),
                name@,
                catalog::column_names(columns@),
                *final(self),
                r,
            ),
    {
        if self.schemas.contains_key(name) {
            return Ok(());
        }
        let ghost before = self.schemas@;
        let r = self.create_table(TableSchema { name: name.to_owned(), columns });
        assert(r is Ok ==> self.schemas@.remove(name@) =~= before);
        r
    }

    /// The schema of a table.
    pub fn get_table(&self, name: &str) -> (r: Option<&TableSchema>)
        requires
            self.wf(),
        ensures
            match r {
                Some(t) => self.schemas@.contains_key(name@) && *t == self.schemas@[name@],
                None => !self.schemas@.contains_key(name@),
            },
    {
        self.schemas.get(name)
    }

    /// The names of the tables, each once, in no particular order.
    pub fn list_tables(&self) -> (r: Vec<String>)
        requires
            self.wf(),
        ensures
            text::texts(r@).no_duplicates(),
            forall|t: Seq<char>|
                text::texts(r@).contains(t) <==> #[trigger] self.schemas@.contains_key(t),
    {
        self.schemas.keys()
    }

    /// Carries a written row into every index on its table. `key` is the key
    /// of the row among those of all tables; the indexes get the one within
    /// its table, under which they were filled and are asked.
    pub fn maintain_indexes_on_write(&mut self, table: &str, key: &[u8], value: &[u8]) -> (r:
        Result<Vec<OuterUpdate>, DbError>)
        requires
            old(self).wf(),
            key@.len() <= u32::MAX,
        ensures
            final(self).wf(),
            *final(self) == (Database { indexes: final(self).indexes, ..*old(self) }),
            final(self).indexes.same_columns(old(self).indexes),
            ({
                let w = catalog::Written {
                    schemas: old(self).schemas@,
                    table: table@,
                    key: rows::stripped(key@, table@),
                    value: value@,
                };
                match r {
                    Ok(us) => catalog::carried(w, old(self).indexes, final(self).indexes)
                        && catalog::update_views(us@) == catalog::left_to_do(
                        w,
                        old(self).indexes,
                    ),
                    Err(e) => e matches DbError::Index(x) && catalog::refused(
                        w,
                        old(self).indexes,
                        x,
                        final(self).indexes,
                    ),
                }
            }),
    {
        let raw = strip_prefix(key, table);
        match self.indexes.carry(&self.schemas, table, raw.as_slice(), value) {
            Ok(us) => Ok(us),
            Err(e) => Err(DbError::Index(e)),
        }
    }

    /// Writes a row, at once committed, and carries it into the indexes.
    pub fn write(&mut self, table: &str, key: &[u8], value: &[u8]) -> (r: Result<
        Vec<OuterUpdate>,
        DbError,
    >)
        requires
            old(self).wf(),
            old(self).store@.next_seq < u64::MAX,
            rows::composite(table@, key@).len() <= u32::MAX,
        ensures
            final(self).wf(),
            row_written(*old(self), table@, key@, value@, *final(self), r),
    {
        match self.check_writable() {
            Err(e) => {
                return Err(e);
            },
            Ok(()) => {},
        }
        let composite = make_key(table, key);
        self.commit_one(composite.as_slice(), Some(copy_bytes(value)));
        proof {
            lemma_stripped(table@, key@);
        }
        self.maintain_indexes_on_write(table, composite.as_slice(), value)
    }

    /// Commits one write.
    fn commit_one(&mut self, key: &[u8], value: Option<Vec<u8>>)
        requires
            old(self).wf(),
            old(self).store@.next_seq < u64::MAX,
        ensures
            final(self).wf(),
            *final(self) == (Database { store: final(self).store, ..*old(self) }),
            final(self).store@ == committed_one(
                old(self).store@,
                key@,
                rowmap::opt_bytes(value),
            ),
    {
        let mut batch: Vec<(Vec<u8>, Option<Vec<u8>>)> = Vec::new();
        let ghost v = rowmap::opt_bytes(value);
        batch.push((copy_bytes(key), value));
        assert(rowmap::row_views(batch@) =~= seq![(key@, v)]);
        let _seq: u64 = self.store.write_batch(&batch);
    }

    /// The value of a row, as last committed.
    pub fn read(&self, table: &str, key: &[u8]) -> (r: Option<Vec<u8>>)
        ensures
            rowmap::opt_bytes(r) == versions::value_at(
                self.store@.log,
                rows::composite(table@, key@),
                u64::MAX,
            ),
    {
        let composite = make_key(table, key);
        self.store.read_at(composite.as_slice(), u64::MAX)
    }

    /// Deletes a row, at once committed.
    pub fn delete(&mut self, table: &str, key: &[u8]) -> (r: Result<(), DbError>)
        requires
            old(self).wf(),
            old(self).store@.next_seq < u64::MAX,
        ensures
            final(self).wf(),
            row_deleted(*old(self), table@, key@, *final(self), r),
    {
        match self.check_writable() {
            Err(e) => {
                return Err(e);
            },
            Ok(()) => {},
        }
        let composite = make_key(table, key);
        self.commit_one(composite.as_slice(), None);
        Ok(())
    }

    /// The rows of a table, as last committed, in the order of their keys.
    pub fn scan(&self, table: &str) -> (r: Vec<KeyValue>)
        ensures
            pair_views(r@) == rows_under(
                versions::rows_at(self.store@.log, u64::MAX),
                rows::prefix_of(table@),
            ),
    {
        let all = self.store.collect_at(u64::MAX);
        let prefix = make_prefix(table);
        live_under(&all, prefix.as_slice())
    }

    /// Begins a transaction on what is committed now.
    pub fn begin_txn(&mut self) -> (t: TxnHandle)
        requires
            old(self).wf(),
            old(self).next_tx_id < u64::MAX,
        ensures
            final(self).wf(),
            t.wf(),
            t@ == (txn::TxnView {
                id: old(self).next_tx_id,
                snapshot_seq: (old(self).store@.next_seq - 1) as u64,
                finished: false,
                staged: Seq::empty(),
            }),
            final(self).store@ == (versions::StoreView {
                snapshots: old(self).store@.snapshots.push(
                    (old(self).store@.next_seq - 1) as u64,
                ),
                ..old(self).store@
            }),
            *final(self) == (Database {
                store: final(self).store,
                next_tx_id: (old(self).next_tx_id + 1) as u64,
                ..*old(self)
            }),
    {
        let id: u64 = self.new_tx_id();
        let snapshot_seq: u64 = self.store.snapshot_now();
        TxnHandle::new(id, snapshot_seq)
    }

    /// A number that no transaction has had.
    fn new_tx_id(&mut self) -> (id: u64)
        requires
            old(self).next_tx_id < u64::MAX,
        ensures
            id == old(self).next_tx_id,
            *final(self) == (Database { next_tx_id: (id + 1) as u64, ..*old(self) }),
    {
        let id: u64 = self.next_tx_id;
        self.next_tx_id = id + 1;
        id
    }

    /// Rolls a transaction back.
    pub fn rollback_txn(&mut self, t: &mut TxnHandle)
        requires
            old(self).wf(),
            old(t).wf(),
        ensures
            final(self).wf(),
            final(t).wf(),
            final(t)@ == (txn::TxnView { finished: true, staged: Seq::empty(), ..old(t)@ }),
            final(self).store@ == txn::released(old(t)@, old(self).store@),
            *final(self) == (Database { store: final(self).store, ..*old(self) }),
    {
        t.discard(&mut self.store);
    }

    /// Writes a row in a transaction, where it is staged, or at once where
    /// there is none.
    pub fn txn_write(
        &mut self,
        t: Option<&mut TxnHandle>,
        table: &str,
        key: &[u8],
        value: &[u8],
    ) -> (r: Result<Vec<OuterUpdate>, DbError>)
        requires
            old(self).wf(),
            t matches Some(h) ==> h.wf(),
            t is None ==> old(self).store@.next_seq < u64::MAX,
            rows::composite(table@, key@).len() <= u32::MAX,
        ensures
            final(self).wf(),
            match t {
                Some(h) => {
                    &&& (r matches Ok(us) && us@.len() == 0)
                    &&& *final(self) == *old(self)
                    &&& final(h).wf()
                    &&& final(h)@ == txn::with_staged(
                        h@,
                        rows::composite(table@, key@),
                        Some(value@),
                    )
                },
                None => row_written(*old(self), table@, key@, value@, *final(self), r),
            },
    {
        match t {
            Some(h) => {
                h.stage_write(make_key(table, key), copy_bytes(value));
                Ok(Vec::new())
            },
            None => self.write(table, key, value),
        }
    }

    /// Deletes a row in a transaction, where the delete is staged, or at once
    /// where there is none.
    pub fn txn_delete(&mut self, t: Option<&mut TxnHandle>, table: &str, key: &[u8]) -> (r: Result<
        (),
        DbError,
    >)
        requires
            old(self).wf(),
            t matches Some(h) ==> h.wf(),
            t is None ==> old(self).store@.next_seq < u64::MAX,
        ensures
            final(self).wf(),
            match t {
                Some(h) => {
                    &&& r is Ok
                    &&& *final(self) == *old(self)
                    &&& final(h).wf()
                    &&& final(h)@ == txn::with_staged(h@, rows::composite(table@, key@), None)
                },
                None => row_deleted(*old(self), table@, key@, *final(self), r),
            },
    {
        match t {
            Some(h) => {
                h.stage_delete(make_key(table, key));
                Ok(())
            },
            None => self.delete(table, key),
        }
    }

    /// The value of a row as a transaction sees it: what it staged, and under
    /// that what was committed when it began. Without a transaction, what is
    /// committed now.
    pub fn txn_read(&self, t: Option<&TxnHandle>, table: &str, key: &[u8]) -> (r: Option<Vec<u8>>)
        requires
            t matches Some(h) ==> h.wf(),
        ensures
            rowmap::opt_bytes(r) == seen(
                self.store@.log,
                match t {
                    Some(h) => Some(h@),
                    None => None,
                },
                rows::composite(table@, key@),
            ),
    {
        let composite = make_key(table, key);
        match t {
            Some(h) => match h.staged_read(composite.as_slice()) {
                Ok(v) => v,
                Err(_) => self.store.read_at(composite.as_slice(), h.snapshot_seq()),
            },
            None => self.store.read_at(composite.as_slice(), u64::MAX),
        }
    }

    /// The rows of a table as a transaction sees them, in the order of their
    /// keys.
    pub fn txn_scan(&self, t: Option<&TxnHandle>, table: &str) -> (r: Vec<KeyValue>)
        requires
            t matches Some(h) ==> h.wf(),
        ensures
            pair_views(r@) == rows_under(
                match t {
                    Some(h) => overlaid(
                        versions::rows_at(self.store@.log, h@.snapshot_seq),
                        h@.staged,
                    ),
                    None => versions::rows_at(self.store@.log, u64::MAX),
                },
                rows::prefix_of(table@),
            ),
    {
        let prefix = make_prefix(table);
        let merged = match t {
            Some(h) => {
                let mut all = self.store.collect_at(h.snapshot_seq());
                overlay(&mut all, h.staged_rows());
                all
            },
            None => self.store.collect_at(u64::MAX),
        };
        live_under(&merged, prefix.as_slice())
    }
}

/// Whether asking for a table left `after` of `before` and gave `r`: one that
/// is there stays, elsewhere it is added, which a reader refuses.
pub open spec fn table_ensured(
    before: Database,
    name: Seq<char>,
    columns: Seq<Seq<char>>,
    after: Database,
    r: Result<(), DbError>,
) -> bool {
    if before.schemas@.contains_key(name) {
        r is Ok && after == before
    } else if before.role == NodeRole::Reader {
        r == Err::<(), DbError>(DbError::ReadOnly) && after == before
    } else {
        &&& r is Ok
        &&& after == (Database { schemas: after.schemas, ..before })
        &&& after.schemas@.contains_key(name)
        &&& after.schemas@.remove(name) == before.schemas@
        &&& after.schemas@[name].name@ == name
        &&& after.schemas@[name].names() == columns
    }
}

/// Whether a write left `after` of `before` and gave `r`: a reader refuses it,
/// elsewhere the row is committed and carried into the indexes.
pub open spec fn row_written(
    before: Database,
    table: Seq<char>,
    key: Seq<u8>,
    value: Seq<u8>,
    after: Database,
    r: Result<Vec<OuterUpdate>, DbError>,
) -> bool {
    if before.role == NodeRole::Reader {
        r == Err::<Vec<OuterUpdate>, DbError>(DbError::ReadOnly) && after == before
    } else {
        let w = catalog::Written { schemas: before.schemas@, table, key, value };
        &&& after == (Database { indexes: after.indexes, store: after.store, ..before })
        &&& after.store@ == committed_one(
            before.store@,
            rows::composite(table, key),
            Some(value),
        )
        &&& match r {
            Ok(us) => catalog::carried(w, before.indexes, after.indexes) && catalog::update_views(
                us@,
            ) == catalog::left_to_do(w, before.indexes),
            Err(e) => e matches DbError::Index(x) && catalog::refused(
                w,
                before.indexes,
                x,
                after.indexes,
            ),
        }
    }
}

/// Whether a delete left `after` of `before` and gave `r`: a reader refuses
/// it, elsewhere it is committed.
pub open spec fn row_deleted(
    before: Database,
    table: Seq<char>,
    key: Seq<u8>,
    after: Database,
    r: Result<(), DbError>,
) -> bool {
    if before.role == NodeRole::Reader {
        r == Err::<(), DbError>(DbError::ReadOnly) && after == before
    } else {
        &&& r is Ok
        &&& after.store@ == committed_one(before.store@, rows::composite(table, key), None)
        &&& after == (Database { store: after.store, ..before })
    }
}

/// What a transaction sees under a key.
pub open spec fn seen(
    log: Seq<versions::VersionView>,
    t: Option<txn::TxnView>,
    key: Seq<u8>,
) -> Option<Seq<u8>> {
    match t {
        Some(t) => match rowmap::lookup(t.staged, key) {
            Some(v) => v,
            None => versions::value_at(log, key, t.snapshot_seq),
        },
        None => versions::value_at(log, key, u64::MAX),
    }
}

/// The store after one more commit of one write.
pub open spec fn committed_one(
    s: versions::StoreView,
    key: Seq<u8>,
    value: Option<Seq<u8>>,
) -> versions::StoreView {
    versions::StoreView {
        log: s.log + versions::stamped(seq![(key, value)], s.next_seq),
        next_seq: (s.next_seq + 1) as u64,
        snapshots: s.snapshots,
    }
}

/// A key within a table comes out of the key made of it.
pub proof fn lemma_stripped(table: Seq<char>, key: Seq<u8>)
    ensures
        rows::stripped(rows::composite(table, key), table) == key,
{
    let all = rows::composite(table, key);
    let n = rows::prefix_of(table).len() as int;
    assert(all.take(n) =~= rows::prefix_of(table));
    assert(all.skip(n) =~= key);
}

/// A map with the entries of a list added; a later one takes the place of an
/// earlier one.
pub open spec fn with_last(
    m: Map<Seq<char>, Vec<u8>>,
    list: Seq<(String, Vec<u8>)>,
) -> Map<Seq<char>, Vec<u8>>
    decreases list.len(),
{
    if list.len() == 0 {
        m
    } else {
        with_last(m.insert(list[0].0@, list[0].1), list.drop_first())
    }
}

fn add_entries(m: &mut StrMap<Vec<u8>>, list: Vec<(String, Vec<u8>)>)
    requires
        old(m).wf(),
    ensures
        final(m).wf(),
        final(m)@ == with_last(old(m)@, list@),
{
    let mut rest: Vec<(String, Vec<u8>)> = list;
    while rest.len() > 0
        invariant
            m.wf(),
            with_last(m@, rest@) == with_last(old(m)@, list@),
        decreases rest@.len(),
    {
        let ghost now = rest@;
        let (name, data) = rest.remove(0);
        assert(rest@ =~= now.drop_first());
        m.insert(name, data);
    }
}

fn kind_of_opened(index: &OpenedIndex) -> (kind: IndexKind)
    ensures
        kind == index.kind(),
{
    match index {
        OpenedIndex::BTree(_) => IndexKind::BTree,
        OpenedIndex::Geo(_) => IndexKind::Geo,
        OpenedIndex::Time(_) => IndexKind::Time,
        OpenedIndex::Graph(_) => IndexKind::Graph,
        OpenedIndex::JsonPath(_) => IndexKind::JsonPath,
        OpenedIndex::Fts(_) => IndexKind::Fts,
        OpenedIndex::Vector => IndexKind::Vector,
        OpenedIndex::IvfPq => IndexKind::IvfPq,
    }
}

/// The live rows under a prefix, in order, with the prefix taken off.
fn live_under(all: &RowMap, prefix: &[u8]) -> (r: Vec<KeyValue>)
    ensures
        pair_views(r@) == rows_under(all@, prefix@),
{
    let ghost rows_all = all@;
    let mut r: Vec<KeyValue> = Vec::new();
    let mut i: usize = 0;
    assert(rows_all.take(0) =~= Seq::<rowmap::Row>::empty());
    assert(pair_views(r@) =~= Seq::<(Seq<u8>, Seq<u8>)>::empty());
    while i < all.entries.len()
        invariant
            rows_all == all@,
            i <= all.entries@.len(),
            pair_views(r@) == rows_under(rows_all.take(i as int), prefix@),
        decreases all.entries@.len() - i,
    {
        proof {
            assert(rows_all.take(i + 1).drop_last() =~= rows_all.take(i as int));
            assert(rows_all.take(i + 1).last() == rows_all[i as int]);
        }
        let ghost now = r@;
        let entry = &all.entries[i];
        match &entry.1 {
            Some(v) => {
                if starts_with(entry.0.as_slice(), prefix) {
                    let key = copy_range(entry.0.as_slice(), prefix.len(), entry.0.len());
                    assert(key@ =~= entry.0@.skip(prefix@.len() as int));
                    r.push(KeyValue { key, value: copy_bytes(v.as_slice()) });
                    assert(pair_views(r@) =~= pair_views(now).push(
                        (r@.last().key@, r@.last().value@),
                    ));
                }
            },
            None => {},
        }
        i += 1;
    }
    assert(rows_all.take(all.entries@.len() as int) =~= rows_all);
    r
}

/// Writes rows over others.
fn overlay(base: &mut RowMap, over: &RowMap)
    requires
        old(base).wf(),
    ensures
        final(base).wf(),
        final(base)@ == overlaid(old(base)@, over@),
{
    let ghost all = over@;
    let mut i: usize = 0;
    assert(all.take(0) =~= Seq::<rowmap::Row>::empty());
    while i < over.entries.len()
        invariant
            all == over@,
            i <= over.entries@.len(),
            base.wf(),
            base@ == overlaid(old(base)@, all.take(i as int)),
        decreases over.entries@.len() - i,
    {
        proof {
            assert(all.take(i + 1).drop_last() =~= all.take(i as int));
            assert(all.take(i + 1).last() == all[i as int]);
        }
        let entry = &over.entries[i];
        base.insert(copy_bytes(entry.0.as_slice()), copy_opt_bytes(&entry.1));
        i += 1;
    }
    assert(all.take(over.entries@.len() as int) =~= all);
}

/// Whether `ups` are what carrying `ws` in turn leaves to do.
pub open spec fn left_in_turn(
    ws: Seq<catalog::Written>,
    steps: Seq<Indexes>,
    ups: Seq<RowUpdates>,
) -> bool {
    &&& ups.len() == ws.len()
    &&& forall|i: int|
        0 <= i < ups.len() ==> (#[trigger] ups[i]).table@ == ws[i].table && ups[i].key@
            == ws[i].key && catalog::update_views(ups[i].updates@) == catalog::left_to_do(
            ws[i],
            steps[i],
        )
}

/// Whether carrying `ws` in turn took the indexes from `before` over `steps`
/// to `after` and left `ups` to do.
pub open spec fn indexed(
    ws: Seq<catalog::Written>,
    before: Indexes,
    after: Indexes,
    steps: Seq<Indexes>,
    ups: Seq<RowUpdates>,
) -> bool {
    &&& carried_in_turn(ws, steps)
    &&& steps.first() == before
    &&& steps.last() == after
    &&& left_in_turn(ws, steps, ups)
}

/// Whether carrying `ws` in turn took the indexes from `before` to `after` and
/// left `ups` to do.
pub open spec fn all_indexed(
    ws: Seq<catalog::Written>,
    before: Indexes,
    after: Indexes,
    ups: Seq<RowUpdates>,
) -> bool {
    exists|steps: Seq<Indexes>| indexed(ws, before, after, steps, ups)
}

/// The store after a transaction has given its snapshot up and its writes
/// have been committed under one number.
pub open spec fn committed(t: txn::TxnView, store: versions::StoreView) -> versions::StoreView {
    let s = txn::released(t, store);
    versions::StoreView {
        log: s.log + versions::stamped(with_tables(t.staged), s.next_seq),
        next_seq: (s.next_seq + 1) as u64,
        snapshots: s.snapshots,
    }
}

/// Keeps the writes whose key names a table.
fn keep_with_tables(staged: Vec<(Vec<u8>, StagedWrite)>) -> (batch: Vec<
    (Vec<u8>, Option<Vec<u8>>),
>)
    ensures
        rowmap::row_views(batch@) == with_tables(txn::write_views(staged@)),
        forall|i: int|
            0 <= i < batch@.len() ==> rows::table_of((#[trigger] batch@[i]).0@) is Some,
{
    let ghost all = txn::write_views(staged@);
    let mut batch: Vec<(Vec<u8>, Option<Vec<u8>>)> = Vec::new();
    let mut i: usize = 0;
    assert(all.take(0) =~= Seq::<rowmap::Row>::empty());
    assert(rowmap::row_views(batch@) =~= Seq::<rowmap::Row>::empty());
    while i < staged.len()
        invariant
            all == txn::write_views(staged@),
            i <= staged@.len(),
            rowmap::row_views(batch@) == with_tables(all.take(i as int)),
            forall|k: int|
                0 <= k < batch@.len() ==> rows::table_of((#[trigger] batch@[k]).0@) is Some,
        decreases staged@.len() - i,
    {
        proof {
            assert(all.take(i + 1).drop_last() =~= all.take(i as int));
            assert(all.take(i + 1).last() == all[i as int]);
        }
        let ghost now = batch@;
        let entry = &staged[i];
        if split_table(entry.0.as_slice()).is_some() {
            batch.push((copy_bytes(entry.0.as_slice()), copy_opt_bytes(&entry.1.value)));
            assert(rowmap::row_views(batch@) =~= rowmap::row_views(now).push(all[i as int]));
        }
        i += 1;
    }
    assert(all.take(staged@.len() as int) =~= all);
    batch
}

impl Database {
    /// Carries the rows of a batch into the indexes, one after the other.
    fn index_batch(&mut self, batch: &Vec<(Vec<u8>, Option<Vec<u8>>)>) -> (r: Result<
        Vec<RowUpdates>,
        DbError,
    >)
        requires
            old(self).wf(),
            forall|i: int|
                0 <= i < batch@.len() ==> rows::table_of((#[trigger] batch@[i]).0@) is Some
                    && batch@[i].0@.len() <= u32::MAX,
        ensures
            final(self).wf(),
            *final(self) == (Database { indexes: final(self).indexes, ..*old(self) }),
            match r {
                Ok(ups) => all_indexed(
                    to_index(old(self).schemas@, rowmap::row_views(batch@)),
                    old(self).indexes,
                    final(self).indexes,
                    ups@,
                ),
                Err(e) => e matches DbError::Index(x) && indexing_stopped(
                    to_index(old(self).schemas@, rowmap::row_views(batch@)),
                    old(self).indexes,
                    x,
                    final(self).indexes,
                ),
            },
    {
        let ghost all = rowmap::row_views(batch@);
        let ghost schemas = self.schemas@;
        let ghost mut steps: Seq<Indexes> = seq![self.indexes];
        let mut ups: Vec<RowUpdates> = Vec::new();
        let mut i: usize = 0;
        assert(all.take(0) =~= Seq::<rowmap::Row>::empty());
        while i < batch.len()
            invariant
                all == rowmap::row_views(batch@),
                schemas == old(self).schemas@,
                i <= batch@.len(),
                forall|k: int|
                    0 <= k < batch@.len() ==> rows::table_of((#[trigger] batch@[k]).0@) is Some
                        && batch@[k].0@.len() <= u32::MAX,
                self.wf(),
                *self == (Database { indexes: self.indexes, ..*old(self) }),
                carried_in_turn(to_index(schemas, all.take(i as int)), steps),
                left_in_turn(to_index(schemas, all.take(i as int)), steps, ups@),
                steps.first() == old(self).indexes,
                steps.last() == self.indexes,
            decreases batch@.len() - i,
        {
            let ghost before = to_index(schemas, all.take(i as int));
            let ghost after = to_index(schemas, all.take(i + 1));
            let ghost old_steps = steps;
            let ghost old_ups = ups@;
            proof {
                assert(all.take(i + 1).drop_last() =~= all.take(i as int));
                assert(all.take(i + 1).last() == all[i as int]);
            }
            let entry = &batch[i];
            match &entry.1 {
                Some(v) => {
                    let ghost w = written(schemas, entry.0@, v@);
                    match split_table(entry.0.as_slice()) {
                        Some(table) => {
                            match self.maintain_indexes_on_write(
                                table.as_str(),
                                entry.0.as_slice(),
                                v.as_slice(),
                            ) {
                                Ok(updates) => {
                                    let key = strip_prefix(entry.0.as_slice(), table.as_str());
                                    ups.push(RowUpdates { table, key, updates });
                                    proof {
                                        steps = steps.push(self.indexes);
                                        assert(after == before.push(w));
                                        assert forall|k: int| 0 <= k < after.len() implies
                                            catalog::carried(
                                            #[trigger] after[k],
                                            steps[k],
                                            steps[k + 1],
                                        ) by {
                                            if k < before.len() {
                                                assert(after[k] == before[k]);
                                                assert(steps[k] == old_steps[k]);
                                                assert(steps[k + 1] == old_steps[k + 1]);
                                            } else {
                                                assert(steps[k] == old_steps.last());
                                            }
                                        }
                                        assert forall|k: int| 0 <= k < ups@.len() implies (
                                        #[trigger] ups@[k]).table@ == after[k].table
                                            && ups@[k].key@ == after[k].key
                                            && catalog::update_views(ups@[k].updates@)
                                            == catalog::left_to_do(after[k], steps[k]) by {
                                            if k < before.len() {
                                                assert(ups@[k] == old_ups[k]);
                                                assert(after[k] == before[k]);
                                                assert(steps[k] == old_steps[k]);
                                            } else {
                                                assert(steps[k] == old_steps.last());
                                            }
                                        }
                                    }
                                },
                                Err(e) => {
                                    proof {
                                        assert(after == before.push(w));
                                        let ws = to_index(schemas, all);
                                        let n = before.len() as int;
                                        lemma_to_index_prefix(schemas, all, i + 1);
                                        assert(to_index(schemas, all.take(i + 1))[n] == w);
                                        assert(ws[n] == w);
                                        assert forall|k: int| 0 <= k < n implies ws[k]
                                            == before[k] by {
                                            assert(to_index(schemas, all.take(i + 1))[k]
                                                == before[k]);
                                        }
                                        assert(ws.take(n) =~= before);
                                        assert(carried_in_turn(
                                            ws.take(old_steps.len() - 1),
                                            old_steps,
                                        ));
                                        assert(indexing_stopped(
                                            ws,
                                            old(self).indexes,
                                            e->Index_0,
                                            self.indexes,
                                        ));
                                    }
                                    return Err(e);
                                },
                            }
                        },
                        None => {
                            assert(false);
                        },
                    }
                },
                None => {},
            }
            i += 1;
        }
        assert(all.take(batch@.len() as int) =~= all);
        proof {
            let ws = to_index(old(self).schemas@, rowmap::row_views(batch@));
            assert(indexed(ws, old(self).indexes, self.indexes, steps, ups@));
            assert(all_indexed(ws, old(self).indexes, self.indexes, ups@));
        }
        Ok(ups)
    }

    /// Commits a transaction: its writes become visible together, under one
    /// number, and are carried into the indexes. Nothing more happens to one
    /// that is already finished, or that has nothing staged.
    pub fn commit_txn(&mut self, t: &mut TxnHandle) -> (r: Result<Vec<RowUpdates>, DbError>)
        requires
            old(self).wf(),
            old(t).wf(),
            old(self).store@.next_seq < u64::MAX,
            forall|i: int|
                0 <= i < old(t)@.staged.len() ==> (#[trigger] old(t)@.staged[i]).0.len()
                    <= u32::MAX,
        ensures
            final(self).wf(),
            final(t).wf(),
            final(t)@ == (txn::TxnView { finished: true, staged: Seq::empty(), ..old(t)@ }),
            *final(self) == (Database {
                indexes: final(self).indexes,
                store: final(self).store,
                ..*old(self)
            }),
            old(t)@.staged.len() == 0 ==> {
                &&& (r matches Ok(ups) && ups@.len() == 0)
                &&& final(self).store@ == txn::released(old(t)@, old(self).store@)
                &&& final(self).indexes == old(self).indexes
            },
            old(t)@.staged.len() > 0 && old(self).role == NodeRole::Reader ==> {
                &&& r == Err::<Vec<RowUpdates>, DbError>(DbError::ReadOnly)
                &&& final(self).store@ == txn::released(old(t)@, old(self).store@)
                &&& final(self).indexes == old(self).indexes
            },
            old(t)@.staged.len() > 0 && old(self).role != NodeRole::Reader ==> {
                let ws = to_index(old(self).schemas@, with_tables(old(t)@.staged));
                &&& final(self).store@ == committed(old(t)@, old(self).store@)
                &&& match r {
                    Ok(ups) => all_indexed(ws, old(self).indexes, final(self).indexes, ups@),
                    Err(e) => e matches DbError::Index(x) && indexing_stopped(
                        ws,
                        old(self).indexes,
                        x,
                        final(self).indexes,
                    ),
                }
            },
    {
        let ghost rows_staged = t@.staged;
        let staged = t.take_staged(&mut self.store);
        if staged.len() == 0 {
            assert(rows_staged.len() == 0);
            return Ok(Vec::new());
        }
        assert(rows_staged.len() == staged@.len());
        match self.check_writable() {
            Err(e) => {
                return Err(e);
            },
            Ok(()) => {},
        }
        let batch = keep_with_tables(staged);
        proof {
            lemma_with_tables_len(rows_staged);
            assert forall|i: int| 0 <= i < batch@.len() implies (#[trigger] batch@[i]).0@.len()
                <= u32::MAX by {
                assert(rowmap::row_views(batch@)[i].0 == batch@[i].0@);
            }
        }
        let _seq: u64 = self.store.write_batch(&batch);
        self.index_batch(&batch)
    }
}

proof fn lemma_to_index_prefix(
    schemas: Map<Seq<char>, TableSchema>,
    batch: Seq<rowmap::Row>,
    n: int,
)
    requires
        0 <= n <= batch.len(),
    ensures
        to_index(schemas, batch.take(n)).len() <= to_index(schemas, batch).len(),
        forall|i: int|
            0 <= i < to_index(schemas, batch.take(n)).len() ==> to_index(schemas, batch)[i]
                == #[trigger] to_index(schemas, batch.take(n))[i],
    decreases batch.len(),
{
    if n < batch.len() {
        lemma_to_index_prefix(schemas, batch.drop_last(), n);
        assert(batch.drop_last().take(n) =~= batch.take(n));
    } else {
        assert(batch.take(n) =~= batch);
    }
}

proof fn lemma_with_tables_len(staged: Seq<rowmap::Row>)
    requires
        forall|i: int| 0 <= i < staged.len() ==> (#[trigger] staged[i]).0.len() <= u32::MAX,
    ensures
        forall|i: int|
            0 <= i < with_tables(staged).len() ==> (#[trigger] with_tables(staged)[i]).0.len()
                <= u32::MAX,
    decreases staged.len(),
{
    if staged.len() > 0 {
        assert forall|i: int| 0 <= i < staged.drop_last().len() implies (
        #[trigger] staged.drop_last()[i]).0.len() <= u32::MAX by {
            assert(staged[i].0.len() <= u32::MAX);
        }
        let kept = with_tables(staged.drop_last());
        lemma_with_tables_len(staged.drop_last());
        assert(staged[staged.len() - 1].0.len() <= u32::MAX);
        assert forall|i: int| 0 <= i < with_tables(staged).len() implies (
        #[trigger] with_tables(staged)[i]).0.len() <= u32::MAX by {
            if i < kept.len() {
                assert(with_tables(staged)[i] == kept[i]);
            }
        }
    }
}

/// A key that was made of a table and a key names that table, where its name
/// holds no zero character.
pub proof fn law_key_names_its_table(table: Seq<char>, key: Seq<u8>)
    requires
        forall|i: int|
            0 <= i < vstd::utf8::encode_utf8(table).len() ==> vstd::utf8::encode_utf8(table)[i] != 0,
    ensures
        rows::table_of(rows::composite(table, key)) == Some(table),
{
    let all = rows::composite(table, key);
    let n = vstd::utf8::encode_utf8(table).len() as int;
    rows::lemma_first_zero(all);
    assert(all[n] == 0);
    assert forall|j: int| 0 <= j < n implies all[j] != 0 by {
        assert(all[j] == vstd::utf8::encode_utf8(table)[j]);
    }
    assert(all.take(n) =~= vstd::utf8::encode_utf8(table));
    crate::text::lemma_lossy_of_text(table);
}

/// What a commit leaves: under each key that the transaction wrote, its last
/// write; under every other key what was committed before. A later committer
/// thus wins.
pub proof fn law_commit_leaves_the_last_writes(
    t: txn::TxnView,
    store: versions::StoreView,
    key: Seq<u8>,
)
    requires
        rows::table_of(key) is Some,
        store.next_seq < u64::MAX,
    ensures
        seen(committed(t, store).log, None, key) == (match rowmap::lookup(t.staged, key) {
            Some(v) => v,
            None => seen(store.log, None, key),
        }),
{
    versions::law_commit_is_seen_whole(
        store.log,
        with_tables(t.staged),
        store.next_seq,
        key,
        u64::MAX,
    );
    lemma_with_tables(t.staged, key);
}

/// A transaction that is rolled back, or still open, changes nothing that
/// others read.
pub proof fn law_rollback_leaves_nothing(t: txn::TxnView, store: versions::StoreView, key: Seq<u8>)
    ensures
        seen(txn::released(t, store).log, None, key) == seen(store.log, None, key),
{
}

/// A transaction reads its own writes, and under every other key what was
/// committed when it began, whatever others commit meanwhile.
pub proof fn law_open_transaction_is_isolated(
    t: txn::TxnView,
    other: txn::TxnView,
    store: versions::StoreView,
    key: Seq<u8>,
)
    requires
        t.snapshot_seq < store.next_seq < u64::MAX,
    ensures
        seen(committed(other, store).log, Some(t), key) == seen(store.log, Some(t), key),
{
    versions::law_snapshot_is_stable(
        store.log,
        with_tables(other.staged),
        store.next_seq,
        key,
        t.snapshot_seq,
    );
}

/// A scan in a transaction lists what reads in it find: a key is looked up in
/// the rows it lists with the same outcome.
pub proof fn law_scan_in_transaction_agrees_with_reads(
    t: txn::TxnView,
    log: Seq<versions::VersionView>,
    key: Seq<u8>,
)
    requires
        rowmap::sorted(t.staged),
    ensures
        ({
            let all = overlaid(versions::rows_at(log, t.snapshot_seq), t.staged);
            &&& rowmap::sorted(all)
            &&& seen(log, Some(t), key) == (match rowmap::lookup(all, key) {
                Some(v) => v,
                None => None,
            })
        }),
{
    versions::law_scan_and_read_agree(log, t.snapshot_seq);
    lemma_overlaid(versions::rows_at(log, t.snapshot_seq), t.staged);
}

proof fn lemma_rows_under(all: Seq<rowmap::Row>, prefix: Seq<u8>, key: Seq<u8>, value: Seq<u8>)
    requires
        rowmap::sorted(all),
    ensures
        rows_under(all, prefix).contains((key, value)) <==> rowmap::lookup(all, prefix + key)
            == Some(Some(value)),
    decreases all.len(),
{
    if all.len() > 0 {
        let rest = all.drop_last();
        let whole = prefix + key;
        rowmap::lemma_sorted_head(all);
        lemma_rows_under(rest, prefix, key, value);
        let head = rows_under(rest, prefix);
        let list = rows_under(all, prefix);
        let n = prefix.len() as int;
        assert(whole.take(n) =~= prefix);
        assert(whole.skip(n) =~= key);
        if all.last().0 == whole {
            // The key stands in the last row and in no other.
            if rowmap::lookup(rest, whole) is Some {
                let i = rowmap::lemma_found(rest, whole);
                assert(order::before(all[i].0, all[all.len() - 1].0));
                order::lemma_asymmetric(all[i].0, all[all.len() - 1].0);
            }
            match all.last().1 {
                Some(v) => {
                    assert(list == head.push((key, v)));
                    if v == value {
                        assert(list[head.len() as int] == (key, value));
                    }
                    if list.contains((key, value)) {
                        let j = choose|j: int| 0 <= j < list.len() && list[j] == (key, value);
                        if j < head.len() {
                            assert(head[j] == (key, value));
                            assert(head.contains((key, value)));
                        }
                    }
                },
                None => {},
            }
        } else {
            if head.contains((key, value)) {
                let j = choose|j: int| 0 <= j < head.len() && head[j] == (key, value);
                assert(list[j] == (key, value));
            }
            if list.contains((key, value)) {
                let j = choose|j: int| 0 <= j < list.len() && list[j] == (key, value);
                if j < head.len() {
                    assert(head[j] == (key, value));
                } else {
                    let last = all.last().0;
                    assert(last =~= last.take(n) + last.skip(n));
                    assert(last == whole);
                }
            }
        }
    }
}

/// A scan of a table lists exactly the rows that are found by reading them
/// one by one.
pub proof fn law_scan_lists_what_is_read(
    log: Seq<versions::VersionView>,
    table: Seq<char>,
    snapshot: u64,
    key: Seq<u8>,
    value: Seq<u8>,
)
    ensures
        rows_under(versions::rows_at(log, snapshot), rows::prefix_of(table)).contains((key, value))
            <==> versions::value_at(log, rows::composite(table, key), snapshot) == Some(value),
{
    versions::law_scan_and_read_agree(log, snapshot);
    lemma_rows_under(versions::rows_at(log, snapshot), rows::prefix_of(table), key, value);
}

/// Keys of two tables differ, and so do two keys of one table.
pub proof fn law_keys_of_rows_differ(
    table: Seq<char>,
    key: Seq<u8>,
    other: Seq<char>,
    other_key: Seq<u8>,
)
    requires
        !vstd::utf8::encode_utf8(table).contains(0),
        !vstd::utf8::encode_utf8(other).contains(0),
    ensures
        rows::composite(table, key) == rows::composite(other, other_key) <==> table == other && key
            == other_key,
{
    let a = vstd::utf8::encode_utf8(table);
    let b = vstd::utf8::encode_utf8(other);
    assert forall|i: int| 0 <= i < a.len() implies a[i] != 0 by {
        assert(a.contains(a[i]));
    }
    assert forall|i: int| 0 <= i < b.len() implies b[i] != 0 by {
        assert(b.contains(b[i]));
    }
    law_key_names_its_table(table, key);
    law_key_names_its_table(other, other_key);
    lemma_stripped(table, key);
    lemma_stripped(other, other_key);
}

/// A row that was written is read back, a row that was deleted is gone, and no
/// other row changes by either. A replica refuses both and stays as it is.
pub proof fn law_written_row_is_read_back(
    before: Database,
    table: Seq<char>,
    key: Seq<u8>,
    value: Seq<u8>,
    written: Database,
    w: Result<Vec<OuterUpdate>, DbError>,
    deleted: Database,
    d: Result<(), DbError>,
    other: Seq<char>,
    other_key: Seq<u8>,
)
    requires
        before.wf(),
        row_written(before, table, key, value, written, w),
        row_deleted(before, table, key, deleted, d),
        !vstd::utf8::encode_utf8(table).contains(0),
        !vstd::utf8::encode_utf8(other).contains(0),
    ensures
        before.role == NodeRole::Reader ==> written == before && deleted == before && w == Err::<
            Vec<OuterUpdate>,
            DbError,
        >(DbError::ReadOnly) && d == Err::<(), DbError>(DbError::ReadOnly),
        before.role != NodeRole::Reader ==> {
            let there = rows::composite(other, other_key);
            let was = versions::value_at(before.store@.log, there, u64::MAX);
            let same = other == table && other_key == key;
            &&& versions::value_at(written.store@.log, there, u64::MAX) == (if same {
                Some(value)
            } else {
                was
            })
            &&& versions::value_at(deleted.store@.log, there, u64::MAX) == (if same {
                None
            } else {
                was
            })
            &&& d is Ok
        },
{
    law_keys_of_rows_differ(table, key, other, other_key);
    if before.role != NodeRole::Reader {
        assert(written.store@.log.drop_last() =~= before.store@.log);
        assert(deleted.store@.log.drop_last() =~= before.store@.log);
    }
}

proof fn lemma_all_visible(log: Seq<versions::VersionView>, key: Seq<u8>, a: u64, b: u64)
    requires
        forall|i: int| 0 <= i < log.len() ==> (#[trigger] log[i]).seq <= a,
        a <= b,
    ensures
        versions::visible(log, key, a) == versions::visible(log, key, b),
    decreases log.len(),
{
    if log.len() > 0 {
        assert(log[log.len() - 1].seq <= a);
        assert forall|i: int| 0 <= i < log.drop_last().len() implies (
        #[trigger] log.drop_last()[i]).seq <= a by {
            assert(log[i].seq <= a);
        }
        lemma_all_visible(log.drop_last(), key, a, b);
    }
}

/// A transaction that has just begun sees every row as it was committed last.
pub proof fn law_new_transaction_sees_all_commits(store: versions::Versions, id: u64, key: Seq<u8>)
    requires
        store.wf(),
    ensures
        seen(
            store@.log,
            Some(
                txn::TxnView {
                    id,
                    snapshot_seq: (store@.next_seq - 1) as u64,
                    finished: false,
                    staged: Seq::empty(),
                },
            ),
            key,
        ) == seen(store@.log, None, key),
{
    lemma_all_visible(store@.log, key, (store@.next_seq - 1) as u64, u64::MAX);
}

/// A scan lists its rows by ascending keys, each key once.
pub proof fn law_scan_lists_rows_in_order(all: Seq<rowmap::Row>, prefix: Seq<u8>)
    requires
        rowmap::sorted(all),
    ensures
        forall|i: int, j: int|
            0 <= i < j < rows_under(all, prefix).len() ==> order::before(
                (#[trigger] rows_under(all, prefix)[i]).0,
                (#[trigger] rows_under(all, prefix)[j]).0,
            ),
        forall|i: int|
            0 <= i < rows_under(all, prefix).len() ==> exists|k: int|
                0 <= k < all.len() && #[trigger] all[k].0 == prefix + (#[trigger] rows_under(
                    all,
                    prefix,
                )[i]).0,
    decreases all.len(),
{
    if all.len() > 0 {
        let head = all.drop_last();
        let before = rows_under(head, prefix);
        let now = rows_under(all, prefix);
        assert(rowmap::sorted(head)) by {
            assert forall|i: int, j: int| 0 <= i < j < head.len() implies order::before(
                (#[trigger] head[i]).0,
                (#[trigger] head[j]).0,
            ) by {
                assert(order::before(all[i].0, all[j].0));
            }
        }
        law_scan_lists_rows_in_order(head, prefix);
        let n = prefix.len() as int;
        let last = all.last().0;
        let fresh = all.last().1 is Some && rows::has_prefix(last, prefix);
        if fresh {
            assert(last =~= prefix + last.skip(n));
        }
        assert forall|i: int| 0 <= i < now.len() implies exists|k: int|
            0 <= k < all.len() && #[trigger] all[k].0 == prefix + (#[trigger] now[i]).0 by {
            if i < before.len() {
                assert(now[i] == before[i]);
                let k = choose|k: int|
                    0 <= k < head.len() && #[trigger] head[k].0 == prefix + before[i].0;
                assert(all[k].0 == prefix + now[i].0);
            } else {
                assert(all[all.len() - 1].0 == prefix + now[i].0);
            }
        }
        assert forall|i: int, j: int| 0 <= i < j < now.len() implies order::before(
            (#[trigger] now[i]).0,
            (#[trigger] now[j]).0,
        ) by {
            if j < before.len() {
                assert(order::before(before[i].0, before[j].0));
            } else {
                assert(now[i] == before[i]);
                let k = choose|k: int|
                    0 <= k < head.len() && #[trigger] head[k].0 == prefix + before[i].0;
                assert(order::before(all[k].0, all[all.len() - 1].0));
                order::lemma_shared_front(prefix, now[i].0, now[j].0);
            }
        }
    }
}

/// Of several tables of one name found in the shared store the last counts when a
/// database opens; when it is refreshed a table that it knows stays as it is, and
/// of the others the first counts.
pub proof fn law_known_tables_stay(
    m: Map<Seq<char>, TableSchema>,
    list: Seq<TableSchema>,
    name: Seq<char>,
)
    ensures
        m.contains_key(name) ==> with_new_schemas(m, list).contains_key(name) && with_new_schemas(
            m,
            list,
        )[name] == m[name],
        !m.contains_key(name) ==> {
            &&& with_new_schemas(m, list).contains_key(name) <==> exists|i: int|
                0 <= i < list.len() && (#[trigger] list[i]).name@ == name
            &&& forall|i: int|
                #![trigger list[i]]
                0 <= i < list.len() && list[i].name@ == name && (forall|j: int|
                    0 <= j < i ==> (#[trigger] list[j]).name@ != name) ==> with_new_schemas(
                    m,
                    list,
                )[name] == list[i]
        },
        forall|i: int|
            #![trigger list[i]]
            0 <= i < list.len() && list[i].name@ == name && (forall|j: int|
                i < j < list.len() ==> (#[trigger] list[j]).name@ != name) ==> with_schemas(
                m,
                list,
            ).contains_key(name) && with_schemas(m, list)[name] == list[i],
        (forall|j: int| 0 <= j < list.len() ==> (#[trigger] list[j]).name@ != name) ==> (
        with_schemas(m, list).contains_key(name) <==> m.contains_key(name)) && (m.contains_key(name)
            ==> with_schemas(m, list)[name] == m[name]),
    decreases list.len(),
{
    if list.len() > 0 {
        let rest = list.drop_first();
        let known = if m.contains_key(list[0].name@) {
            m
        } else {
            m.insert(list[0].name@, list[0])
        };
        law_known_tables_stay(known, rest, name);
        law_known_tables_stay(m.insert(list[0].name@, list[0]), rest, name);
        assert forall|j: int| 0 < j < list.len() implies #[trigger] list[j] == rest[j - 1] by {}
        assert forall|j: int| 0 <= j < rest.len() implies #[trigger] rest[j] == list[j + 1] by {}
        if exists|i: int| 0 <= i < rest.len() && (#[trigger] rest[i]).name@ == name {
            let i = choose|i: int| 0 <= i < rest.len() && (#[trigger] rest[i]).name@ == name;
            assert(list[i + 1].name@ == name);
        }
        if exists|i: int| 0 <= i < list.len() && (#[trigger] list[i]).name@ == name {
            let i = choose|i: int| 0 <= i < list.len() && (#[trigger] list[i]).name@ == name;
            if i > 0 {
                assert(rest[i - 1].name@ == name);
            }
        }
        if !m.contains_key(name) {
            assert forall|i: int|
                #![trigger list[i]]
                0 <= i < list.len() && list[i].name@ == name && (forall|j: int|
                    0 <= j < i ==> (#[trigger] list[j]).name@ != name) implies with_new_schemas(
                m,
                list,
            )[name] == list[i] by {
                if i > 0 {
                    assert(list[0].name@ != name);
                    assert(rest[i - 1].name@ == name);
                    assert forall|j: int| 0 <= j < i - 1 implies (#[trigger] rest[j]).name@
                        != name by {
                        assert(list[j + 1].name@ != name);
                    }
                }
            }
        }
        assert forall|i: int|
            #![trigger list[i]]
            0 <= i < list.len() && list[i].name@ == name && (forall|j: int|
                i < j < list.len() ==> (#[trigger] list[j]).name@ != name) implies with_schemas(
            m,
            list,
        ).contains_key(name) && with_schemas(m, list)[name] == list[i] by {
            if i > 0 {
                assert(rest[i - 1].name@ == name);
                assert forall|j: int| i - 1 < j < rest.len() implies (#[trigger] rest[j]).name@
                    != name by {
                    assert(list[j + 1].name@ != name);
                }
            } else {
                assert forall|j: int| 0 <= j < rest.len() implies (#[trigger] rest[j]).name@
                    != name by {
                    assert(list[j + 1].name@ != name);
                }
            }
        }
        if forall|j: int| 0 <= j < list.len() ==> (#[trigger] list[j]).name@ != name {
            assert(list[0].name@ != name);
            assert forall|j: int| 0 <= j < rest.len() implies (#[trigger] rest[j]).name@ != name by {
                assert(list[j + 1].name@ != name);
            }
        }
    }
}

/// A transaction reads what it wrote itself, a deleted row as none, and reads every
/// other key as before. A finished one takes nothing.
pub proof fn law_transaction_reads_its_own_writes(
    log: Seq<versions::VersionView>,
    t: txn::TxnView,
    key: Seq<u8>,
    v: Option<Seq<u8>>,
    other: Seq<u8>,
)
    requires
        rowmap::sorted(t.staged),
    ensures
        !t.finished ==> seen(log, Some(txn::with_staged(t, key, v)), key) == v,
        other != key ==> seen(log, Some(txn::with_staged(t, key, v)), other) == seen(
            log,
            Some(t),
            other,
        ),
        t.finished ==> txn::with_staged(t, key, v) == t,
        txn::with_staged(t, key, v).snapshot_seq == t.snapshot_seq,
        txn::with_staged(t, key, v).id == t.id,
        txn::with_staged(t, key, v).finished == t.finished,
{
    txn::law_staged_write_is_read_back(t.staged, key, v, other);
}

/// What a transaction wrote is what others read once it is committed, and what it
/// deleted is gone.
pub proof fn law_committed_writes_are_read_by_others(
    t: txn::TxnView,
    store: versions::StoreView,
    key: Seq<u8>,
    v: Option<Seq<u8>>,
)
    requires
        rowmap::sorted(t.staged),
        !t.finished,
        rows::table_of(key) is Some,
        store.next_seq < u64::MAX,
    ensures
        seen(committed(txn::with_staged(t, key, v), store).log, None, key) == v,
{
    txn::law_staged_write_is_read_back(t.staged, key, v, key);
    law_commit_leaves_the_last_writes(txn::with_staged(t, key, v), store, key);
}

/// The rows of a batch are brought to the indexes one by one, in order: each write
/// with its row, no delete.
pub proof fn law_writes_of_a_batch_are_indexed(
    schemas: Map<Seq<char>, TableSchema>,
    a: Seq<rowmap::Row>,
    b: Seq<rowmap::Row>,
    row: rowmap::Row,
)
    ensures
        to_index(schemas, a + b) == to_index(schemas, a) + to_index(schemas, b),
        row.1 matches Some(v) ==> to_index(schemas, seq![row]).len() == 1 && to_index(
            schemas,
            seq![row],
        )[0].value == v && to_index(schemas, seq![row])[0].schemas == schemas,
        row.1 is None ==> to_index(schemas, seq![row]).len() == 0,
    decreases b.len(),
{
    let one = seq![row];
    assert(one.drop_last() =~= Seq::<rowmap::Row>::empty());
    assert(to_index(schemas, one.drop_last()).len() == 0);
    if b.len() == 0 {
        assert(a + b =~= a);
        assert(to_index(schemas, a) + to_index(schemas, b) =~= to_index(schemas, a));
    } else {
        law_writes_of_a_batch_are_indexed(schemas, a, b.drop_last(), row);
        assert((a + b).drop_last() =~= a + b.drop_last());
        assert(to_index(schemas, a + b) =~= to_index(schemas, a) + to_index(schemas, b));
    }
}

/// Of what a reader finds anew, what it knows already stays, and the first of two
/// new ones of a name is taken.
pub proof fn law_known_ones_stay(
    m: Map<Seq<char>, Vec<u8>>,
    list: Seq<(String, Vec<u8>)>,
    name: Seq<char>,
    i: int,
)
    ensures
        m.contains_key(name) ==> with_new(m, list).contains_key(name) && with_new(m, list)[name]
            == m[name],
        !m.contains_key(name) && 0 <= i < list.len() && list[i].0@ == name && (forall|k: int|
            0 <= k < i ==> (#[trigger] list[k]).0@ != name) ==> with_new(m, list).contains_key(name)
            && with_new(m, list)[name] == list[i].1,
        !m.contains_key(name) && (forall|k: int|
            0 <= k < list.len() ==> (#[trigger] list[k]).0@ != name) ==> !with_new(
            m,
            list,
        ).contains_key(name),
    decreases list.len(),
{
    if list.len() > 0 {
        let rest = list.drop_first();
        let next = if m.contains_key(list[0].0@) {
            m
        } else {
            m.insert(list[0].0@, list[0].1)
        };
        law_known_ones_stay(next, rest, name, i - 1);
        assert forall|k: int| 0 <= k < rest.len() implies #[trigger] rest[k] == list[k + 1] by {}
    }
}

/// When a database is opened, the last of two entries of a name is taken.
pub proof fn law_last_of_a_name_is_taken(
    m: Map<Seq<char>, Vec<u8>>,
    list: Seq<(String, Vec<u8>)>,
    name: Seq<char>,
    i: int,
)
    ensures
        0 <= i < list.len() && list[i].0@ == name && (forall|k: int|
            i < k < list.len() ==> (#[trigger] list[k]).0@ != name) ==> with_last(
            m,
            list,
        ).contains_key(name) && with_last(m, list)[name] == list[i].1,
        (forall|k: int| 0 <= k < list.len() ==> (#[trigger] list[k]).0@ != name) ==> (with_last(
            m,
            list,
        ).contains_key(name) <==> m.contains_key(name)) && (m.contains_key(name) ==> with_last(
            m,
            list,
        )[name] == m[name]),
    decreases list.len(),
{
    if list.len() > 0 {
        let rest = list.drop_first();
        law_last_of_a_name_is_taken(m.insert(list[0].0@, list[0].1), rest, name, i - 1);
        assert forall|k: int| 0 <= k < rest.len() implies #[trigger] rest[k] == list[k + 1] by {}
        if i == 0 && list[0].0@ == name && (forall|k: int|
            i < k < list.len() ==> (#[trigger] list[k]).0@ != name) {
            assert forall|k: int| 0 <= k < rest.len() implies (#[trigger] rest[k]).0@ != name by {
                assert(list[k + 1].0@ != name);
            }
        }
    }
}

} // verus!
