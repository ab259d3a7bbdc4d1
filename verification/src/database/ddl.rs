//! Creating indexes over the rows that are there, and asking them.

use vstd::prelude::*;
use vstd::string::*;

use super::catalog;
use super::catalog::{
    maintain_paths, maintain_trees, maintain_words, read_cell, read_text_cell, IndexError, Indexes,
    Slot, TableSchema,
};
use super::engine;
use super::engine::{Database, DbError, KeyValue, NodeRole, OpenedIndex};
use super::rowmap::copy_bytes;
use super::rows;
use super::versions;
use crate::btree::{BTree, TreeError};
use crate::canopy_index::{FtsIndex, JsonPathIndex};
use crate::geo_index::GeoIndex;
use crate::graph_index;
use crate::graph_index::GraphIndex;
use crate::json;
use crate::strmap::StrMap;

verus! {

/// The rows of a table, as its indexes see them.
pub open spec fn rows_to_index(
    schemas: Map<Seq<char>, TableSchema>,
    table: Seq<char>,
    pairs: Seq<(Seq<u8>, Seq<u8>)>,
) -> Seq<catalog::Written> {
    pairs.map_values(
        |p: (Seq<u8>, Seq<u8>)| catalog::Written { schemas, table, key: p.0, value: p.1 },
    )
}

/// Whether `steps` are an index on a column before, between and after it took
/// the rows in, one after the other.
pub open spec fn filling<I>(
    ws: Seq<catalog::Written>,
    table: Seq<char>,
    column: Seq<char>,
    keeps: spec_fn(catalog::Written, Slot<I>, Slot<I>) -> bool,
    steps: Seq<Slot<I>>,
) -> bool {
    &&& steps.len() == ws.len() + 1
    &&& forall|i: int|
        0 <= i < steps.len() ==> (#[trigger] steps[i]).table@ == table && steps[i].column@ == column
    &&& forall|i: int| 0 <= i < ws.len() ==> keeps(#[trigger] ws[i], steps[i], steps[i + 1])
}

/// Whether an index on a column became `after` by taking the rows in.
pub open spec fn filled<I>(
    ws: Seq<catalog::Written>,
    table: Seq<char>,
    column: Seq<char>,
    keeps: spec_fn(catalog::Written, Slot<I>, Slot<I>) -> bool,
    before: I,
    after: I,
) -> bool {
    exists|steps: Seq<Slot<I>>| #[trigger]
        filling(ws, table, column, keeps, steps) && steps.first().index == before
            && steps.last().index == after
}

/// One more row taken in.
proof fn lemma_filling_step<I>(
    ws: Seq<catalog::Written>,
    n: int,
    table: Seq<char>,
    column: Seq<char>,
    keeps: spec_fn(catalog::Written, Slot<I>, Slot<I>) -> bool,
    steps: Seq<Slot<I>>,
    next: Slot<I>,
)
    requires
        0 <= n < ws.len(),
        filling(ws.take(n), table, column, keeps, steps),
        keeps(ws[n], steps.last(), next),
        next.table@ == table,
        next.column@ == column,
    ensures
        filling(ws.take(n + 1), table, column, keeps, steps.push(next)),
        steps.push(next).first() == steps.first(),
        steps.push(next).last() == next,
{
    let after = steps.push(next);
    let now = ws.take(n + 1);
    assert forall|i: int| 0 <= i < now.len() implies keeps(
        #[trigger] now[i],
        after[i],
        after[i + 1],
    ) by {
        if i < n {
            assert(ws.take(n)[i] == now[i]);
            assert(after[i] == steps[i]);
            assert(after[i + 1] == steps[i + 1]);
        } else {
            assert(after[i] == steps.last());
        }
    }
    assert forall|i: int| 0 <= i < after.len() implies (#[trigger] after[i]).table@ == table
        && after[i].column@ == column by {
        if i < steps.len() {
            assert(after[i] == steps[i]);
        }
    }
}

/// How a row is kept in each kind of index.
pub open spec fn in_tree() -> spec_fn(catalog::Written, Slot<BTree>, Slot<BTree>) -> bool {
    |w: catalog::Written, a: Slot<BTree>, b: Slot<BTree>| catalog::tree_took(w, a, b)
}

pub open spec fn in_graph(to_column: Seq<char>, type_column: Option<Seq<char>>) -> spec_fn(
    catalog::Written,
    Slot<GraphIndex>,
    Slot<GraphIndex>,
) -> bool {
    |w: catalog::Written, a: Slot<GraphIndex>, b: Slot<GraphIndex>|
        catalog::graph_keeps_by(w, to_column, type_column, a, b)
}

pub open spec fn in_paths() -> spec_fn(
    catalog::Written,
    Slot<JsonPathIndex>,
    Slot<JsonPathIndex>,
) -> bool {
    |w: catalog::Written, a: Slot<JsonPathIndex>, b: Slot<JsonPathIndex>|
        catalog::paths_keep(w, a, b)
}

pub open spec fn in_words() -> spec_fn(catalog::Written, Slot<FtsIndex>, Slot<FtsIndex>) -> bool {
    |w: catalog::Written, a: Slot<FtsIndex>, b: Slot<FtsIndex>| catalog::words_keep(w, a, b)
}

/// A sound B-tree that takes rows in stays sound, and keeps each of them.
pub proof fn law_sound_tree_keeps_every_row(
    ws: Seq<catalog::Written>,
    table: Seq<char>,
    column: Seq<char>,
    steps: Seq<Slot<BTree>>,
    i: int,
)
    requires
        filling(ws, table, column, in_tree(), steps),
        steps.first().index.valid(),
        0 <= i <= ws.len(),
    ensures
        steps[i].index.valid(),
        i < ws.len() ==> catalog::tree_keeps(ws[i], steps[i], steps[i + 1]),
    decreases i,
{
    if i > 0 {
        law_sound_tree_keeps_every_row(ws, table, column, steps, i - 1);
    }
    if i < ws.len() {
        let keeps = in_tree();
        assert(keeps(ws[i], steps[i], steps[i + 1]));
    }
}

/// A list of one index.
fn one_slot<I>(table: &str, column: &str, index: I) -> (slots: Vec<Slot<I>>)
    ensures
        slots@.len() == 1,
        slots@[0].table@ == table@,
        slots@[0].column@ == column@,
        slots@[0].index == index,
{
    let mut slots: Vec<Slot<I>> = Vec::new();
    slots.push(Slot { table: table.to_owned(), column: column.to_owned(), index });
    slots
}

/// Whether a B-tree took rows in up to one whose cell it cannot be read for.
pub open spec fn tree_gave_out(
    ws: Seq<catalog::Written>,
    table: Seq<char>,
    column: Seq<char>,
    given: BTree,
    e: TreeError,
) -> bool {
    exists|i: int, steps: Seq<Slot<BTree>>|
        0 <= i < ws.len() && #[trigger] filling(ws.take(i), table, column, in_tree(), steps)
            && steps.first().index == given && catalog::tree_refuses(ws[i], steps.last(), e)
}

/// Whether a graph took rows in up to one for whose vertices it has no numbers
/// left.
pub open spec fn graph_ran_full(
    ws: Seq<catalog::Written>,
    table: Seq<char>,
    column: Seq<char>,
    to_column: Seq<char>,
    type_column: Option<Seq<char>>,
    given: GraphIndex,
) -> bool {
    exists|i: int, steps: Seq<Slot<GraphIndex>>|
        0 <= i < ws.len() && #[trigger] filling(
            ws.take(i),
            table,
            column,
            in_graph(to_column, type_column),
            steps,
        ) && steps.first().index == given && catalog::graph_full_by(
            ws[i],
            to_column,
            type_column,
            steps.last(),
        )
}

/// Whether a row has a text in a column that is too long for a full-text index.
pub open spec fn has_overlong(
    ws: Seq<catalog::Written>,
    table: Seq<char>,
    column: Seq<char>,
) -> bool {
    exists|i: int|
        0 <= i < ws.len() && ((#[trigger] ws[i]).text(table, column) matches Some(t)
            && catalog::searchable(t, json::json_in(t)).len() > u32::MAX)
}

/// Takes rows into a B-tree. Keys must be short enough for its nodes.
fn fill_tree(
    schemas: &StrMap<TableSchema>,
    table: &str,
    column: &str,
    rows: &Vec<KeyValue>,
    index: BTree,
) -> (r: Result<BTree, DbError>)
    requires
        schemas.wf(),
        forall|i: int| 0 <= i < rows@.len() ==> (#[trigger] rows@[i]).key@.len() <= u32::MAX,
    ensures
        index.valid() ==> (r matches Ok(t) && t.valid()),
        match r {
            Ok(t) => filled(
                rows_to_index(schemas@, table@, engine::pair_views(rows@)),
                table@,
                column@,
                in_tree(),
                index,
                t,
            ),
            Err(e) => e matches DbError::Index(IndexError::Tree(x)) && tree_gave_out(
                rows_to_index(schemas@, table@, engine::pair_views(rows@)),
                table@,
                column@,
                index,
                x,
            ),
        },
{
    let ghost ws = rows_to_index(schemas@, table@, engine::pair_views(rows@));
    let mut slots = one_slot(table, column, index);
    let ghost mut steps: Seq<Slot<BTree>> = slots@;
    let mut i: usize = 0;
    assert(filling(ws.take(0), table@, column@, in_tree(), steps));
    while i < rows.len()
        invariant
            schemas.wf(),
            forall|k: int| 0 <= k < rows@.len() ==> (#[trigger] rows@[k]).key@.len() <= u32::MAX,
            ws == rows_to_index(schemas@, table@, engine::pair_views(rows@)),
            i <= rows@.len(),
            slots@.len() == 1,
            slots@[0].table@ == table@,
            slots@[0].column@ == column@,
            index.valid() ==> slots@[0].index.valid(),
            filling(ws.take(i as int), table@, column@, in_tree(), steps),
            steps.first().index == index,
            steps.last() == slots@[0],
        decreases rows@.len() - i,
    {
        let ghost before = slots@[0];
        let ghost w = ws[i as int];
        proof {
            assert(rows@[i as int].key@.len() <= u32::MAX);
            assert(w == catalog::Written {
                schemas: schemas@,
                table: table@,
                key: rows@[i as int].key@,
                value: rows@[i as int].value@,
            });
        }
        match maintain_trees(
            &mut slots,
            schemas,
            table,
            rows[i].key.as_slice(),
            rows[i].value.as_slice(),
        ) {
            Ok(()) => {},
            Err(e) => {
                proof {
                    if let IndexError::Tree(x) = e {
                        assert(catalog::tree_refuses(w, before, x));
                        assert(tree_gave_out(ws, table@, column@, index, x));
                    }
                }
                return Err(DbError::Index(e));
            },
        }
        proof {
            assert(catalog::tree_took(w, before, slots@[0]));
            lemma_filling_step(ws, i as int, table@, column@, in_tree(), steps, slots@[0]);
            steps = steps.push(slots@[0]);
        }
        i += 1;
    }
    assert(ws.take(ws.len() as int) =~= ws);
    let Slot { table: _t, column: _c, index: done } = slots.remove(0);
    assert(filling(ws, table@, column@, in_tree(), steps));
    Ok(done)
}

/// Takes rows into a graph, whose edges lead from `column` to `to_column` and
/// have their types in `type_column`.
fn fill_graph(
    schemas: &StrMap<TableSchema>,
    table: &str,
    column: &str,
    to_column: &str,
    type_column: &Option<String>,
    rows: &Vec<KeyValue>,
    index: GraphIndex,
) -> (r: Result<GraphIndex, DbError>)
    requires
        schemas.wf(),
    ensures
        match r {
            Ok(g) => filled(
                rows_to_index(schemas@, table@, engine::pair_views(rows@)),
                table@,
                column@,
                in_graph(to_column@, graph_index::opt_text(*type_column)),
                index,
                g,
            ),
            Err(e) => e == DbError::Index(IndexError::GraphFull) && graph_ran_full(
                rows_to_index(schemas@, table@, engine::pair_views(rows@)),
                table@,
                column@,
                to_column@,
                graph_index::opt_text(*type_column),
                index,
            ),
        },
{
    let ghost ws = rows_to_index(schemas@, table@, engine::pair_views(rows@));
    let ghost rel_column = graph_index::opt_text(*type_column);
    let ghost keeps = in_graph(to_column@, rel_column);
    let mut slot = Slot { table: table.to_owned(), column: column.to_owned(), index };
    let ghost mut steps: Seq<Slot<GraphIndex>> = seq![slot];
    let mut i: usize = 0;
    assert(filling(ws.take(0), table@, column@, keeps, steps));
    while i < rows.len()
        invariant
            schemas.wf(),
            ws == rows_to_index(schemas@, table@, engine::pair_views(rows@)),
            rel_column == graph_index::opt_text(*type_column),
            keeps == in_graph(to_column@, rel_column),
            i <= rows@.len(),
            slot.table@ == table@,
            slot.column@ == column@,
            filling(ws.take(i as int), table@, column@, keeps, steps),
            steps.first().index == index,
            steps.last() == slot,
        decreases rows@.len() - i,
    {
        let ghost before = slot;
        let ghost w = ws[i as int];
        proof {
            assert(w == catalog::Written {
                schemas: schemas@,
                table: table@,
                key: rows@[i as int].key@,
                value: rows@[i as int].value@,
            });
        }
        let value = rows[i].value.as_slice();
        let from = read_cell(schemas, table, column, value);
        let to = read_cell(schemas, table, to_column, value);
        let rel: Option<String> = match type_column {
            Some(c) => read_text_cell(schemas, table, c.as_str(), value),
            None => None,
        };
        if let (Some(f), Some(t)) = (from, to) {
            if slot.index.graph().vertex_count() as u64 >= u32::MAX as u64 - 1 {
                assert(catalog::graph_full_by(w, to_column@, rel_column, steps.last()));
                return Err(DbError::Index(IndexError::GraphFull));
            }
            slot.index.insert(f.as_slice(), t.as_slice(), rel);
        }
        proof {
            assert(catalog::graph_keeps_by(w, to_column@, rel_column, before, slot));
            lemma_filling_step(ws, i as int, table@, column@, keeps, steps, slot);
            steps = steps.push(slot);
        }
        i += 1;
    }
    assert(ws.take(ws.len() as int) =~= ws);
    assert(filling(ws, table@, column@, keeps, steps));
    Ok(slot.index)
}

/// Takes rows into a path index.
fn fill_paths(
    schemas: &StrMap<TableSchema>,
    table: &str,
    column: &str,
    rows: &Vec<KeyValue>,
    index: JsonPathIndex,
) -> (done: JsonPathIndex)
    requires
        schemas.wf(),
        index.wf(),
    ensures
        done.wf(),
        filled(
            rows_to_index(schemas@, table@, engine::pair_views(rows@)),
            table@,
            column@,
            in_paths(),
            index,
            done,
        ),
{
    let ghost ws = rows_to_index(schemas@, table@, engine::pair_views(rows@));
    let mut slots = one_slot(table, column, index);
    let ghost mut steps: Seq<Slot<JsonPathIndex>> = slots@;
    let mut i: usize = 0;
    assert(filling(ws.take(0), table@, column@, in_paths(), steps));
    while i < rows.len()
        invariant
            schemas.wf(),
            ws == rows_to_index(schemas@, table@, engine::pair_views(rows@)),
            i <= rows@.len(),
            slots@.len() == 1,
            slots@[0].index.wf(),
            slots@[0].table@ == table@,
            slots@[0].column@ == column@,
            filling(ws.take(i as int), table@, column@, in_paths(), steps),
            steps.first().index == index,
            steps.last() == slots@[0],
        decreases rows@.len() - i,
    {
        let ghost before = slots@[0];
        let ghost w = ws[i as int];
        maintain_paths(
            &mut slots,
            schemas,
            table,
            rows[i].key.as_slice(),
            rows[i].value.as_slice(),
        );
        proof {
            assert(w == catalog::Written {
                schemas: schemas@,
                table: table@,
                key: rows@[i as int].key@,
                value: rows@[i as int].value@,
            });
            assert(catalog::paths_keep(w, before, slots@[0]));
            lemma_filling_step(ws, i as int, table@, column@, in_paths(), steps, slots@[0]);
            steps = steps.push(slots@[0]);
        }
        i += 1;
    }
    assert(ws.take(ws.len() as int) =~= ws);
    let Slot { table: _t, column: _c, index: done } = slots.remove(0);
    assert(filling(ws, table@, column@, in_paths(), steps));
    done
}

/// Takes rows into a full-text index.
fn fill_words(
    schemas: &StrMap<TableSchema>,
    table: &str,
    column: &str,
    rows: &Vec<KeyValue>,
    index: FtsIndex,
) -> (r: Result<FtsIndex, DbError>)
    requires
        schemas.wf(),
        index.wf(),
    ensures
        match r {
            Ok(done) => done.wf() && filled(
                rows_to_index(schemas@, table@, engine::pair_views(rows@)),
                table@,
                column@,
                in_words(),
                index,
                done,
            ),
            Err(e) => e == DbError::Index(IndexError::TextTooLong) && has_overlong(
                rows_to_index(schemas@, table@, engine::pair_views(rows@)),
                table@,
                column@,
            ),
        },
{
    let ghost ws = rows_to_index(schemas@, table@, engine::pair_views(rows@));
    let mut slots = one_slot(table, column, index);
    let ghost mut steps: Seq<Slot<FtsIndex>> = slots@;
    let mut i: usize = 0;
    assert(filling(ws.take(0), table@, column@, in_words(), steps));
    while i < rows.len()
        invariant
            schemas.wf(),
            ws == rows_to_index(schemas@, table@, engine::pair_views(rows@)),
            i <= rows@.len(),
            slots@.len() == 1,
            slots@[0].index.wf(),
            slots@[0].table@ == table@,
            slots@[0].column@ == column@,
            filling(ws.take(i as int), table@, column@, in_words(), steps),
            steps.first().index == index,
            steps.last() == slots@[0],
        decreases rows@.len() - i,
    {
        let ghost before = slots@[0];
        let ghost w = ws[i as int];
        proof {
            assert(w == catalog::Written {
                schemas: schemas@,
                table: table@,
                key: rows@[i as int].key@,
                value: rows@[i as int].value@,
            });
        }
        match maintain_words(
            &mut slots,
            schemas,
            table,
            rows[i].key.as_slice(),
            rows[i].value.as_slice(),
        ) {
            Ok(()) => {},
            Err(e) => {
                assert(catalog::overlong(ws[i as int], before));
                return Err(DbError::Index(e));
            },
        }
        proof {
            assert(catalog::words_keep(w, before, slots@[0]));
            lemma_filling_step(ws, i as int, table@, column@, in_words(), steps, slots@[0]);
            steps = steps.push(slots@[0]);
        }
        i += 1;
    }
    assert(ws.take(ws.len() as int) =~= ws);
    let Slot { table: _t, column: _c, index: done } = slots.remove(0);
    assert(filling(ws, table@, column@, in_words(), steps));
    Ok(done)
}

/// The error for a missing column of a table, or a missing table.
pub open spec fn missing(
    schemas: Map<Seq<char>, TableSchema>,
    table: Seq<char>,
    column: Seq<char>,
    e: DbError,
) -> bool {
    match catalog::columns_in(schemas, table) {
        None => e matches DbError::NoTable(t) && t@ == table,
        Some(names) => catalog::position_of(names, column) is None && (
        e matches DbError::NoColumn(c) && c@ == column),
    }
}

/// Whether a table has a column.
pub open spec fn has_column(
    schemas: Map<Seq<char>, TableSchema>,
    table: Seq<char>,
    column: Seq<char>,
) -> bool {
    match catalog::columns_in(schemas, table) {
        None => false,
        Some(names) => catalog::position_of(names, column) is Some,
    }
}

/// Whether an index on a column, once it took the rows in, was put among the
/// others.
pub open spec fn tree_created(
    ws: Seq<catalog::Written>,
    table: Seq<char>,
    column: Seq<char>,
    given: BTree,
    before: Indexes,
    after: Indexes,
) -> bool {
    exists|i: BTree| #[trigger]
        filled(ws, table, column, in_tree(), given, i) && engine::index_added(
            before,
            table,
            column,
            OpenedIndex::BTree(i),
            after,
        )
}

/// Whether an index on a column, once it took the rows in, was put among the
/// others.
pub open spec fn graph_created(
    ws: Seq<catalog::Written>,
    table: Seq<char>,
    column: Seq<char>,
    to_column: Seq<char>,
    type_column: Option<Seq<char>>,
    given: GraphIndex,
    before: Indexes,
    after: Indexes,
) -> bool {
    exists|i: GraphIndex| #[trigger]
        filled(ws, table, column, in_graph(to_column, type_column), given, i) && engine::index_added(
            before,
            table,
            column,
            OpenedIndex::Graph(i),
            after,
        )
}

/// Whether an index on a column, once it took the rows in, was put among the
/// others.
pub open spec fn paths_created(
    ws: Seq<catalog::Written>,
    table: Seq<char>,
    column: Seq<char>,
    given: JsonPathIndex,
    before: Indexes,
    after: Indexes,
) -> bool {
    exists|i: JsonPathIndex| #[trigger]
        filled(ws, table, column, in_paths(), given, i) && engine::index_added(
            before,
            table,
            column,
            OpenedIndex::JsonPath(i),
            after,
        )
}

/// Whether an index on a column, once it took the rows in, was put among the
/// others.
pub open spec fn words_created(
    ws: Seq<catalog::Written>,
    table: Seq<char>,
    column: Seq<char>,
    given: FtsIndex,
    before: Indexes,
    after: Indexes,
) -> bool {
    exists|i: FtsIndex| #[trigger]
        filled(ws, table, column, in_words(), given, i) && engine::index_added(
            before,
            table,
            column,
            OpenedIndex::Fts(i),
            after,
        )
}

impl Database {
    /// The rows of a table, as an index on it would take them in.
    pub open spec fn index_rows(&self, table: Seq<char>) -> Seq<catalog::Written> {
        rows_to_index(
            self.schemas@,
            table,
            engine::rows_under(
                versions::rows_at(self.store@.log, u64::MAX),
                rows::prefix_of(table),
            ),
        )
    }

    /// Looks a column up.
    fn check_column(&self, table: &str, column: &str) -> (r: Result<(), DbError>)
        requires
            self.wf(),
        ensures
            match r {
                Ok(_) => has_column(self.schemas@, table@, column@),
                Err(e) => !has_column(self.schemas@, table@, column@) && missing(
                    self.schemas@,
                    table@,
                    column@,
                    e,
                ),
            },
    {
        match self.schemas.get(table) {
            None => Err(DbError::NoTable(table.to_owned())),
            Some(schema) => match schema.position(column) {
                None => Err(DbError::NoColumn(column.to_owned())),
                Some(_) => Ok(()),
            },
        }
    }

    /// Puts a B-tree on a column, with the rows that are there. `tree` is what
    /// its file held; where that is damaged, it may not take a row in.
    pub fn create_index(&mut self, table: &str, column: &str, tree: BTree) -> (r: Result<
        (),
        DbError,
    >)
        requires
            old(self).wf(),
            forall|i: int|
                0 <= i < old(self).index_rows(table@).len() ==> (
                #[trigger] old(self).index_rows(table@)[i]).key.len() <= u32::MAX,
        ensures
            final(self).wf(),
            match r {
                Ok(_) => {
                    &&& old(self).role != NodeRole::Reader
                    &&& has_column(old(self).schemas@, table@, column@)
                    &&& tree_created(
                        old(self).index_rows(table@),
                        table@,
                        column@,
                        tree,
                        old(self).indexes,
                        final(self).indexes,
                    )
                    &&& *final(self) == (Database { indexes: final(self).indexes, ..*old(self) })
                },
                Err(e) => {
                    &&& *final(self) == *old(self)
                    &&& if old(self).role == NodeRole::Reader {
                        e == DbError::ReadOnly
                    } else if !has_column(old(self).schemas@, table@, column@) {
                        missing(old(self).schemas@, table@, column@, e)
                    } else {
                        &&& !tree.valid()
                        &&& e matches DbError::Index(IndexError::Tree(x)) && tree_gave_out(
                            old(self).index_rows(table@),
                            table@,
                            column@,
                            tree,
                            x,
                        )
                    }
                },
            },
    {
        match self.check_writable() {
            Err(e) => {
                return Err(e);
            },
            Ok(()) => {},
        }
        match self.check_column(table, column) {
            Err(e) => {
                return Err(e);
            },
            Ok(()) => {},
        }
        let rows = self.scan(table);
        proof {
            assert forall|i: int| 0 <= i < rows@.len() implies (#[trigger] rows@[i]).key@.len()
                <= u32::MAX by {
                assert(self.index_rows(table@)[i].key == rows@[i].key@);
            }
        }
        match fill_tree(&self.schemas, table, column, &rows, tree) {
            Ok(t) => {
                self.add_index(table, column, OpenedIndex::BTree(t));
                proof {
                    let ws = old(self).index_rows(table@);
                    assert(filled(ws, table@, column@, in_tree(), tree, t));
                    assert(tree_created(ws, table@, column@, tree, old(self).indexes, self.indexes));
                }
                Ok(())
            },
            Err(e) => Err(e),
        }
    }

    /// Puts an adjacency index on a table of edges, with the rows that are
    /// there. `graph` is what its file held, or an empty one on the columns
    /// given: the rows that are there are read by the columns given, later ones
    /// by the columns that the index names.
    pub fn create_graph_index(
        &mut self,
        table: &str,
        from_column: &str,
        to_column: &str,
        type_column: Option<String>,
        graph: GraphIndex,
    ) -> (r: Result<(), DbError>)
        requires
            old(self).wf(),
        ensures
            final(self).wf(),
            match r {
                Ok(_) => {
                    &&& old(self).role != NodeRole::Reader
                    &&& has_column(old(self).schemas@, table@, from_column@)
                    &&& has_column(old(self).schemas@, table@, to_column@)
                    &&& type_column matches Some(c) ==> has_column(
                        old(self).schemas@,
                        table@,
                        c@,
                    )
                    &&& graph_created(
                        old(self).index_rows(table@),
                        table@,
                        from_column@,
                        to_column@,
                        graph_index::opt_text(type_column),
                        graph,
                        old(self).indexes,
                        final(self).indexes,
                    )
                    &&& *final(self) == (Database { indexes: final(self).indexes, ..*old(self) })
                },
                Err(e) => {
                    &&& *final(self) == *old(self)
                    &&& if old(self).role == NodeRole::Reader {
                        e == DbError::ReadOnly
                    } else if !has_column(old(self).schemas@, table@, from_column@) {
                        missing(old(self).schemas@, table@, from_column@, e)
                    } else if !has_column(old(self).schemas@, table@, to_column@) {
                        missing(old(self).schemas@, table@, to_column@, e)
                    } else if type_column matches Some(c) && !has_column(
                        old(self).schemas@,
                        table@,
                        c@,
                    ) {
                        missing(old(self).schemas@, table@, type_column->0@, e)
                    } else {
                        e == DbError::Index(IndexError::GraphFull) && graph_ran_full(
                            old(self).index_rows(table@),
                            table@,
                            from_column@,
                            to_column@,
                            graph_index::opt_text(type_column),
                            graph,
                        )
                    }
                },
            },
    {
        match self.check_writable() {
            Err(e) => {
                return Err(e);
            },
            Ok(()) => {},
        }
        match self.check_column(table, from_column) {
            Err(e) => {
                return Err(e);
            },
            Ok(()) => {},
        }
        match self.check_column(table, to_column) {
            Err(e) => {
                return Err(e);
            },
            Ok(()) => {},
        }
        match &type_column {
            Some(c) => match self.check_column(table, c.as_str()) {
                Err(e) => {
                    return Err(e);
                },
                Ok(()) => {},
            },
            None => {},
        }
        let rows = self.scan(table);
        match fill_graph(
            &self.schemas,
            table,
            from_column,
            to_column,
            &type_column,
            &rows,
            graph,
        ) {
            Ok(g) => {
                self.add_index(table, from_column, OpenedIndex::Graph(g));
                proof {
                    let ws = old(self).index_rows(table@);
                    let rel = graph_index::opt_text(type_column);
                    assert(filled(ws, table@, from_column@, in_graph(to_column@, rel), graph, g));
                    assert(graph_created(
                        ws,
                        table@,
                        from_column@,
                        to_column@,
                        rel,
                        graph,
                        old(self).indexes,
                        self.indexes,
                    ));
                }
                Ok(())
            },
            Err(e) => Err(e),
        }
    }

    /// Puts a path index on a column of documents, with the rows that are
    /// there.
    pub fn create_json_path_index(&mut self, table: &str, column: &str, index: JsonPathIndex) -> (r:
        Result<(), DbError>)
        requires
            old(self).wf(),
            index.wf(),
        ensures
            final(self).wf(),
            match r {
                Ok(_) => {
                    &&& old(self).role != NodeRole::Reader
                    &&& has_column(old(self).schemas@, table@, column@)
                    &&& paths_created(
                        old(self).index_rows(table@),
                        table@,
                        column@,
                        index,
                        old(self).indexes,
                        final(self).indexes,
                    )
                    &&& *final(self) == (Database { indexes: final(self).indexes, ..*old(self) })
                },
                Err(e) => {
                    &&& *final(self) == *old(self)
                    &&& if old(self).role == NodeRole::Reader {
                        e == DbError::ReadOnly
                    } else {
                        !has_column(old(self).schemas@, table@, column@) && missing(
                            old(self).schemas@,
                            table@,
                            column@,
                            e,
                        )
                    }
                },
            },
    {
        match self.check_writable() {
            Err(e) => {
                return Err(e);
            },
            Ok(()) => {},
        }
        match self.check_column(table, column) {
            Err(e) => {
                return Err(e);
            },
            Ok(()) => {},
        }
        let rows = self.scan(table);
        let i = fill_paths(&self.schemas, table, column, &rows, index);
        self.add_index(table, column, OpenedIndex::JsonPath(i));
        proof {
            let ws = old(self).index_rows(table@);
            assert(filled(ws, table@, column@, in_paths(), index, i));
            assert(paths_created(ws, table@, column@, index, old(self).indexes, self.indexes));
        }
        Ok(())
    }

    /// Puts a full-text index on a column, with the rows that are there.
    pub fn create_fts_index(&mut self, table: &str, column: &str, index: FtsIndex) -> (r: Result<
        (),
        DbError,
    >)
        requires
            old(self).wf(),
            index.wf(),
        ensures
            final(self).wf(),
            match r {
                Ok(_) => {
                    &&& old(self).role != NodeRole::Reader
                    &&& has_column(old(self).schemas@, table@, column@)
                    &&& words_created(
                        old(self).index_rows(table@),
                        table@,
                        column@,
                        index,
                        old(self).indexes,
                        final(self).indexes,
                    )
                    &&& *final(self) == (Database { indexes: final(self).indexes, ..*old(self) })
                },
                Err(e) => {
                    &&& *final(self) == *old(self)
                    &&& if old(self).role == NodeRole::Reader {
                        e == DbError::ReadOnly
                    } else if !has_column(old(self).schemas@, table@, column@) {
                        missing(old(self).schemas@, table@, column@, e)
                    } else {
                        e == DbError::Index(IndexError::TextTooLong) && has_overlong(
                            old(self).index_rows(table@),
                            table@,
                            column@,
                        )
                    }
                },
            },
    {
        match self.check_writable() {
            Err(e) => {
                return Err(e);
            },
            Ok(()) => {},
        }
        match self.check_column(table, column) {
            Err(e) => {
                return Err(e);
            },
            Ok(()) => {},
        }
        let rows = self.scan(table);
        match fill_words(&self.schemas, table, column, &rows, index) {
            Ok(i) => {
                self.add_index(table, column, OpenedIndex::Fts(i));
                proof {
                    let ws = old(self).index_rows(table@);
                    assert(filled(ws, table@, column@, in_words(), index, i));
                    assert(words_created(ws, table@, column@, index, old(self).indexes, self.indexes));
                }
                Ok(())
            },
            Err(e) => Err(e),
        }
    }

    /// Puts a spatial index on a column: gives the geometries of the rows that
    /// are there, by key, for the caller to place.
    pub fn create_spatial_index(&mut self, table: &str, column: &str, geo: GeoIndex) -> (r: Result<
        Vec<(Vec<u8>, String)>,
        DbError,
    >)
        requires
            old(self).wf(),
        ensures
            final(self).wf(),
            match r {
                Ok(list) => {
                    &&& old(self).role != NodeRole::Reader
                    &&& has_column(old(self).schemas@, table@, column@)
                    &&& geometry_views(list@) == geometries(
                        old(self).index_rows(table@),
                        table@,
                        column@,
                    )
                    &&& engine::index_added(
                        old(self).indexes,
                        table@,
                        column@,
                        OpenedIndex::Geo(geo),
                        final(self).indexes,
                    )
                    &&& *final(self) == (Database { indexes: final(self).indexes, ..*old(self) })
                },
                Err(e) => {
                    &&& *final(self) == *old(self)
                    &&& if old(self).role == NodeRole::Reader {
                        e == DbError::ReadOnly
                    } else {
                        !has_column(old(self).schemas@, table@, column@) && missing(
                            old(self).schemas@,
                            table@,
                            column@,
                            e,
                        )
                    }
                },
            },
    {
        match self.check_writable() {
            Err(e) => {
                return Err(e);
            },
            Ok(()) => {},
        }
        match self.check_column(table, column) {
            Err(e) => {
                return Err(e);
            },
            Ok(()) => {},
        }
        let rows = self.scan(table);
        let list = collect_geometries(&self.schemas, table, column, &rows);
        self.add_index(table, column, OpenedIndex::Geo(geo));
        Ok(list)
    }
}

/// The texts of a column, by key, of the rows where it has one.
pub open spec fn geometries(ws: Seq<catalog::Written>, table: Seq<char>, column: Seq<char>) -> Seq<
    (Seq<u8>, Seq<char>),
>
    decreases ws.len(),
{
    if ws.len() == 0 {
        Seq::empty()
    } else {
        let head = geometries(ws.drop_last(), table, column);
        match ws.last().text(table, column) {
            Some(t) => head.push((ws.last().key, t)),
            None => head,
        }
    }
}

pub open spec fn geometry_views(list: Seq<(Vec<u8>, String)>) -> Seq<(Seq<u8>, Seq<char>)> {
    list.map_values(|g: (Vec<u8>, String)| (g.0@, g.1@))
}

fn collect_geometries(
    schemas: &StrMap<TableSchema>,
    table: &str,
    column: &str,
    rows: &Vec<KeyValue>,
) -> (list: Vec<(Vec<u8>, String)>)
    requires
        schemas.wf(),
    ensures
        geometry_views(list@) == geometries(
            rows_to_index(schemas@, table@, engine::pair_views(rows@)),
            table@,
            column@,
        ),
{
    let ghost ws = rows_to_index(schemas@, table@, engine::pair_views(rows@));
    let mut list: Vec<(Vec<u8>, String)> = Vec::new();
    let mut i: usize = 0;
    assert(geometry_views(list@) =~= Seq::<(Seq<u8>, Seq<char>)>::empty());
    assert(ws.take(0) =~= Seq::<catalog::Written>::empty());
    while i < rows.len()
        invariant
            schemas.wf(),
            ws == rows_to_index(schemas@, table@, engine::pair_views(rows@)),
            i <= rows@.len(),
            geometry_views(list@) == geometries(ws.take(i as int), table@, column@),
        decreases rows@.len() - i,
    {
        proof {
            assert(ws.take(i + 1).drop_last() =~= ws.take(i as int));
            assert(ws.take(i + 1).last() == ws[i as int]);
        }
        let ghost now = list@;
        match catalog::read_text_cell(schemas, table, column, rows[i].value.as_slice()) {
            Some(t) => {
                list.push((copy_bytes(rows[i].key.as_slice()), t));
                assert(geometry_views(list@) =~= geometry_views(now).push(
                    (list@.last().0@, list@.last().1@),
                ));
            },
            None => {},
        }
        i += 1;
    }
    assert(ws.take(ws.len() as int) =~= ws);
    list
}

/// The geometries to place are those of the rows that have a text in the column,
/// each with the key of its row, in the order of the rows.
pub proof fn law_geometries_carry_their_keys(
    ws: Seq<catalog::Written>,
    table: Seq<char>,
    column: Seq<char>,
    w: catalog::Written,
    i: int,
)
    ensures
        w.text(table, column) matches Some(t) ==> geometries(ws.push(w), table, column).len()
            == geometries(ws, table, column).len() + 1 && geometries(
            ws.push(w),
            table,
            column,
        ).last().0 == w.key && geometries(ws.push(w), table, column).last().1 == t,
        w.text(table, column) is None ==> geometries(ws.push(w), table, column) == geometries(
            ws,
            table,
            column,
        ),
        0 <= i < ws.len() && ws[i].text(table, column) is Some ==> geometries(
            ws,
            table,
            column,
        ).contains((ws[i].key, ws[i].text(table, column)->0)),
    decreases ws.len(),
{
    assert(ws.push(w).drop_last() =~= ws);
    if 0 <= i < ws.len() && ws[i].text(table, column) is Some {
        let head = ws.drop_last();
        let all = geometries(ws, table, column);
        if i == ws.len() - 1 {
            assert(all[all.len() - 1] == (ws[i].key, ws[i].text(table, column)->0));
        } else {
            law_geometries_carry_their_keys(head, table, column, w, i);
            let before = geometries(head, table, column);
            assert(head[i] == ws[i]);
            let x = (ws[i].key, ws[i].text(table, column)->0);
            let k = choose|k: int| 0 <= k < before.len() && before[k] == x;
            assert(all[k] == x);
        }
    }
}

} // verus!
