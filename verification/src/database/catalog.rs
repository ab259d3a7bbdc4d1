//! Tables, the indexes on them, and how a written row is carried into each.

use vstd::prelude::*;
use vstd::string::*;
use vstd::utf8::*;

use super::rows;
use super::rows::{decode_column, decode_i64};
use crate::btree;
use crate::btree::{BTree, TreeError};
use crate::canopy_index;
use crate::canopy_index::{FtsIndex, JsonPathIndex};
use crate::geo_index::GeoIndex;
use crate::graph_index;
use crate::graph_index::GraphIndex;
use crate::json;
use crate::json::{collect_json_strings, parse_json, Json};
use crate::strmap::StrMap;
use crate::text;
use crate::text::{same_text, text_strict};
use crate::ts_index::TimeIndex;

verus! {

/// A column of a table.
#[derive(Debug, Clone, PartialEq)]
pub struct ColumnDef {
    pub name: String,
}

impl ColumnDef {
    /// The column of a name.
    pub fn named(name: &str) -> (c: ColumnDef)
        ensures
            c.name@ == name@,
    {
        ColumnDef { name: name.to_owned() }
    }
}

/// A table and its columns.
#[derive(Debug, Clone, PartialEq)]
pub struct TableSchema {
    pub name: String,
    pub columns: Vec<ColumnDef>,
}

/// The names of columns.
pub open spec fn column_names(columns: Seq<ColumnDef>) -> Seq<Seq<char>> {
    columns.map_values(|c: ColumnDef| c.name@)
}

/// The position of the first column of a name.
pub open spec fn position_of(names: Seq<Seq<char>>, name: Seq<char>) -> Option<nat>
    decreases names.len(),
{
    if names.len() == 0 {
        None
    } else {
        match position_of(names.drop_last(), name) {
            Some(i) => Some(i),
            None => if names.last() == name {
                Some((names.len() - 1) as nat)
            } else {
                None
            },
        }
    }
}

impl TableSchema {
    pub open spec fn names(&self) -> Seq<Seq<char>> {
        column_names(self.columns@)
    }

    /// The position of a column.
    pub fn position(&self, column: &str) -> (r: Option<usize>)
        ensures
            match r {
                Some(i) => position_of(self.names(), column@) == Some(i as nat)
                    && i < self.columns@.len(),
                None => position_of(self.names(), column@) is None,
            },
    {
        let ghost all = self.names();
        let mut found: Option<usize> = None;
        let mut i: usize = 0;
        assert(all.take(0) =~= Seq::<Seq<char>>::empty());
        while i < self.columns.len()
            invariant
                all == self.names(),
                i <= self.columns@.len(),
                match found {
                    Some(p) => position_of(all.take(i as int), column@) == Some(p as nat) && p < i,
                    None => position_of(all.take(i as int), column@) is None,
                },
            decreases self.columns@.len() - i,
        {
            proof {
                assert(all.take(i + 1).drop_last() =~= all.take(i as int));
                assert(all.take(i + 1).last() == self.columns@[i as int].name@);
            }
            if found.is_none() && same_text(self.columns[i].name.as_str(), column) {
                found = Some(i);
            }
            i += 1;
        }
        assert(all.take(self.columns@.len() as int) =~= all);
        found
    }
}

/// The columns of a table, where there is such a table.
pub open spec fn columns_in(schemas: Map<Seq<char>, TableSchema>, table: Seq<char>) -> Option<
    Seq<Seq<char>>,
> {
    if schemas.contains_key(table) {
        Some(schemas[table].names())
    } else {
        None
    }
}

/// The cell of a named column of a row; nothing where there is no such table
/// or column, or the cell is null or missing.
pub open spec fn cell_of(
    schemas: Map<Seq<char>, TableSchema>,
    table: Seq<char>,
    column: Seq<char>,
    value: Seq<u8>,
) -> Option<Seq<u8>> {
    match columns_in(schemas, table) {
        None => None,
        Some(names) => match position_of(names, column) {
            None => None,
            Some(i) => rows::column_in(value, i),
        },
    }
}

/// The cell of a named column, where it is UTF-8.
pub open spec fn text_cell(
    schemas: Map<Seq<char>, TableSchema>,
    table: Seq<char>,
    column: Seq<char>,
    value: Seq<u8>,
) -> Option<Seq<char>> {
    match cell_of(schemas, table, column, value) {
        Some(cell) if valid_utf8(cell) => Some(decode_utf8(cell)),
        _ => None,
    }
}

/// The cell of a named column.
pub fn read_cell(schemas: &StrMap<TableSchema>, table: &str, column: &str, value: &[u8]) -> (r:
    Option<Vec<u8>>)
    requires
        schemas.wf(),
    ensures
        match r {
            Some(cell) => cell_of(schemas@, table@, column@, value@) == Some(cell@) && cell@.len()
                <= i32::MAX,
            None => cell_of(schemas@, table@, column@, value@) is None,
        },
{
    match schemas.get(table) {
        None => None,
        Some(schema) => match schema.position(column) {
            None => None,
            Some(i) => decode_column(value, i),
        },
    }
}

/// The cell of a named column as text.
pub fn read_text_cell(
    schemas: &StrMap<TableSchema>,
    table: &str,
    column: &str,
    value: &[u8],
) -> (r: Option<String>)
    requires
        schemas.wf(),
    ensures
        match r {
            Some(t) => text_cell(schemas@, table@, column@, value@) == Some(t@),
            None => text_cell(schemas@, table@, column@, value@) is None,
        },
{
    match read_cell(schemas, table, column, value) {
        Some(cell) => text_strict(cell),
        None => None,
    }
}

/// An index on a column of a table.
pub struct Slot<I> {
    pub table: String,
    pub column: String,
    pub index: I,
}

/// Whether a list of slots holds the same indexes as another, each on the same
/// column.
pub open spec fn same_places<I>(a: Seq<Slot<I>>, b: Seq<Slot<I>>) -> bool {
    &&& a.len() == b.len()
    &&& forall|i: int|
        0 <= i < a.len() ==> (#[trigger] a[i]).table@ == b[i].table@ && a[i].column@
            == b[i].column@
}

/// Whether slot `i` is the index on this column.
pub open spec fn slot_for<I>(
    slots: Seq<Slot<I>>,
    i: int,
    table: Seq<char>,
    column: Seq<char>,
) -> bool {
    0 <= i < slots.len() && slots[i].table@ == table && slots[i].column@ == column
}

/// The position of the index on a column.
pub fn find_slot<I>(slots: &Vec<Slot<I>>, table: &str, column: &str) -> (r: Option<usize>)
    ensures
        match r {
            Some(i) => slot_for(slots@, i as int, table@, column@) && forall|j: int|
                0 <= j < i ==> !slot_for(slots@, j, table@, column@),
            None => forall|j: int| !#[trigger] slot_for(slots@, j, table@, column@),
        },
{
    let mut i: usize = 0;
    while i < slots.len()
        invariant
            i <= slots@.len(),
            forall|j: int| 0 <= j < i ==> !#[trigger] slot_for(slots@, j, table@, column@),
        decreases slots@.len() - i,
    {
        if same_text(slots[i].table.as_str(), table) && same_text(
            slots[i].column.as_str(),
            column,
        ) {
            return Some(i);
        }
        i += 1;
    }
    None
}

/// The list once the index on a column is `index`: in place of the one that
/// was there, or as a new one.
pub open spec fn installed<I>(
    slots: Seq<Slot<I>>,
    table: Seq<char>,
    column: Seq<char>,
    index: I,
    after: Seq<Slot<I>>,
) -> bool {
    if exists|j: int| slot_for(slots, j, table, column) {
        exists|j: int| #[trigger]
            slot_for(slots, j, table, column) && same_places(after, slots) && after[j].index
                == index && forall|i: int|
                0 <= i < slots.len() && i != j ==> (#[trigger] after[i]) == slots[i]
    } else {
        &&& after.len() == slots.len() + 1
        &&& slot_for(after, slots.len() as int, table, column)
        &&& after[slots.len() as int].index == index
        &&& forall|i: int| 0 <= i < slots.len() ==> (#[trigger] after[i]) == slots[i]
    }
}

/// Makes `index` the index on a column.
pub fn install<I>(slots: &mut Vec<Slot<I>>, table: &str, column: &str, index: I)
    ensures
        installed(old(slots)@, table@, column@, index, final(slots)@),
{
    match find_slot(slots, table, column) {
        Some(i) => {
            let slot = Slot { table: table.to_owned(), column: column.to_owned(), index };
            slots[i] = slot;
            assert(slot_for(old(slots)@, i as int, table@, column@));
        },
        None => {
            slots.push(Slot { table: table.to_owned(), column: column.to_owned(), index });
        },
    }
}

/// The columns that have an index in a list.
pub fn list_slots<I>(slots: &Vec<Slot<I>>) -> (r: Vec<(String, String)>)
    ensures
        r@.len() == slots@.len(),
        forall|i: int|
            0 <= i < r@.len() ==> (#[trigger] r@[i]).0@ == slots@[i].table@ && r@[i].1@
                == slots@[i].column@,
{
    let mut r: Vec<(String, String)> = Vec::new();
    let mut i: usize = 0;
    while i < slots.len()
        invariant
            i <= slots@.len(),
            r@.len() == i,
            forall|k: int|
                0 <= k < i ==> (#[trigger] r@[k]).0@ == slots@[k].table@ && r@[k].1@
                    == slots@[k].column@,
        decreases slots@.len() - i,
    {
        r.push((slots[i].table.clone(), slots[i].column.clone()));
        i += 1;
    }
    r
}

/// Why a row could not be indexed.
#[derive(Debug, Clone, Copy, PartialEq, Eq, Structural)]
pub enum IndexError {
    /// A B-tree is damaged.
    Tree(TreeError),
    /// A text is longer than the counters of a full-text index reach.
    TextTooLong,
    /// A graph has no numbers left for vertices.
    GraphFull,
}

/// The written row, as the indexes see it.
pub struct Written {
    pub schemas: Map<Seq<char>, TableSchema>,
    pub table: Seq<char>,
    pub key: Seq<u8>,
    pub value: Seq<u8>,
}

impl Written {
    /// The cell in a slot's column, where the slot is on this table.
    pub open spec fn cell(self, table: Seq<char>, column: Seq<char>) -> Option<Seq<u8>> {
        if table == self.table {
            cell_of(self.schemas, self.table, column, self.value)
        } else {
            None
        }
    }

    /// The cell in a slot's column as text.
    pub open spec fn text(self, table: Seq<char>, column: Seq<char>) -> Option<Seq<char>> {
        if table == self.table {
            text_cell(self.schemas, self.table, column, self.value)
        } else {
            None
        }
    }
}

/// What the row does to a B-tree: its key is put under its cell.
pub open spec fn tree_keeps(w: Written, before: Slot<BTree>, after: Slot<BTree>) -> bool {
    match w.cell(before.table@, before.column@) {
        Some(cell) => {
            &&& after.index.valid()
            &&& forall|k: Seq<u8>| #[trigger]
                after.index.get(k) == btree::with_put(before.index.get(k), k, cell, w.key)
        },
        None => after.index == before.index,
    }
}

/// Whether a B-tree took a row in: the way down to its cell could be read, and
/// the row is kept, unless the tree was damaged elsewhere.
pub open spec fn tree_took(w: Written, before: Slot<BTree>, after: Slot<BTree>) -> bool {
    match w.cell(before.table@, before.column@) {
        Some(cell) => before.index.get(cell) is Ok && (before.index.valid() ==> tree_keeps(
            w,
            before,
            after,
        )),
        None => after.index == before.index,
    }
}

/// The error that a row meets in a damaged B-tree on the way down to its cell.
pub open spec fn tree_refuses(w: Written, slot: Slot<BTree>, e: TreeError) -> bool {
    match w.cell(slot.table@, slot.column@) {
        Some(cell) => slot.index.get(cell) == Err::<Option<Seq<u8>>, TreeError>(e),
        None => false,
    }
}

/// Whether the first `n` B-trees took the row in.
pub open spec fn trees_carried(
    w: Written,
    before: Seq<Slot<BTree>>,
    after: Seq<Slot<BTree>>,
    n: int,
) -> bool {
    forall|i: int| 0 <= i < n ==> tree_took(w, #[trigger] before[i], after[i])
}

/// Whether a row got as far as B-tree `n`, which is damaged and refuses it: the
/// ones before it took the row in, and the others are as they were.
pub open spec fn trees_stopped(
    w: Written,
    before: Seq<Slot<BTree>>,
    after: Seq<Slot<BTree>>,
    e: TreeError,
    n: int,
) -> bool {
    &&& 0 <= n < before.len()
    &&& !before[n].index.valid()
    &&& tree_refuses(w, before[n], e)
    &&& after[n].index.root() == before[n].index.root()
    &&& after[n].index.image() == before[n].index.image()
    &&& trees_carried(w, before, after, n)
    &&& forall|i: int| n < i < before.len() ==> #[trigger] after[i] == before[i]
}

/// Whether a row got into the first `n` indexes of a kind and the others are as
/// they were.
pub open spec fn stopped_at<I>(
    w: Written,
    before: Seq<Slot<I>>,
    after: Seq<Slot<I>>,
    n: int,
    keeps: spec_fn(Written, Slot<I>, Slot<I>) -> bool,
) -> bool {
    &&& 0 <= n < before.len()
    &&& forall|i: int| 0 <= i < n ==> keeps(w, #[trigger] before[i], after[i])
    &&& forall|i: int| n <= i < before.len() ==> #[trigger] after[i] == before[i]
}

/// Carries a row into the B-trees.
pub fn maintain_trees(
    slots: &mut Vec<Slot<BTree>>,
    schemas: &StrMap<TableSchema>,
    table: &str,
    key: &[u8],
    value: &[u8],
) -> (r: Result<(), IndexError>)
    requires
        schemas.wf(),
        key@.len() <= u32::MAX,
    ensures
        same_places(final(slots)@, old(slots)@),
        match r {
            Ok(()) => trees_carried(
                Written { schemas: schemas@, table: table@, key: key@, value: value@ },
                old(slots)@,
                final(slots)@,
                old(slots)@.len() as int,
            ),
            Err(e) => e matches IndexError::Tree(x) && exists|n: int| #[trigger]
                trees_stopped(
                    Written { schemas: schemas@, table: table@, key: key@, value: value@ },
                    old(slots)@,
                    final(slots)@,
                    x,
                    n,
                ),
        },
{
    let ghost w = Written { schemas: schemas@, table: table@, key: key@, value: value@ };
    let mut i: usize = 0;
    while i < slots.len()
        invariant
            schemas.wf(),
            key@.len() <= u32::MAX,
            w == (Written { schemas: schemas@, table: table@, key: key@, value: value@ }),
            i <= slots@.len(),
            same_places(slots@, old(slots)@),
            trees_carried(w, old(slots)@, slots@, i as int),
            forall|k: int| i <= k < slots@.len() ==> (#[trigger] slots@[k]) == old(slots)@[k],
        decreases slots@.len() - i,
    {
        let ghost now = slots@;
        assert(now[i as int] == old(slots)@[i as int]);
        if same_text(slots[i].table.as_str(), table) {
            match read_cell(schemas, table, slots[i].column.as_str(), value) {
                Some(cell) => {
                    let done = slots[i].index.insert(cell.as_slice(), key);
                    assert forall|k: int| 0 <= k < slots@.len() && k != i implies #[trigger] slots@[k]
                        == now[k] by {}
                    match done {
                        Ok(()) => {},
                        Err(e) => {
                            proof {
                                assert forall|k: int| 0 <= k < i implies tree_took(
                                    w,
                                    #[trigger] old(slots)@[k],
                                    slots@[k],
                                ) by {
                                    assert(slots@[k] == now[k]);
                                }
                                assert(trees_stopped(w, old(slots)@, slots@, e, i as int));
                            }
                            return Err(IndexError::Tree(e));
                        },
                    }
                },
                None => {},
            }
        }
        proof {
            assert forall|k: int| 0 <= k < i + 1 implies tree_took(
                w,
                #[trigger] old(slots)@[k],
                slots@[k],
            ) by {
                if k < i {
                    assert(slots@[k] == now[k]);
                }
            }
        }
        i += 1;
    }
    Ok(())
}

/// What the row does to a path index: its document is indexed under its key, and
/// under no other.
pub open spec fn paths_keep(
    w: Written,
    before: Slot<JsonPathIndex>,
    after: Slot<JsonPathIndex>,
) -> bool {
    &&& after.index.path() == before.index.path()
    &&& forall|k: Seq<char>| #[trigger]
        after.index.rows(k) == (match w.text(before.table@, before.column@) {
            Some(t) => canopy_index::rebucketed(
                before.index.rows(k),
                w.key,
                canopy_index::key_of_text(t, before.index.path()),
                k,
            ),
            None => before.index.rows(k),
        })
}

/// Carries a row into the path indexes.
pub fn maintain_paths(
    slots: &mut Vec<Slot<JsonPathIndex>>,
    schemas: &StrMap<TableSchema>,
    table: &str,
    key: &[u8],
    value: &[u8],
)
    requires
        schemas.wf(),
        forall|i: int| 0 <= i < old(slots)@.len() ==> (#[trigger] old(slots)@[i]).index.wf(),
    ensures
        same_places(final(slots)@, old(slots)@),
        forall|i: int|
            0 <= i < old(slots)@.len() ==> final(slots)@[i].index.wf() && paths_keep(
                Written { schemas: schemas@, table: table@, key: key@, value: value@ },
                #[trigger] old(slots)@[i],
                final(slots)@[i],
            ),
{
    let ghost w = Written { schemas: schemas@, table: table@, key: key@, value: value@ };
    let mut i: usize = 0;
    while i < slots.len()
        invariant
            schemas.wf(),
            w == (Written { schemas: schemas@, table: table@, key: key@, value: value@ }),
            i <= slots@.len(),
            same_places(slots@, old(slots)@),
            forall|k: int| 0 <= k < slots@.len() ==> (#[trigger] slots@[k]).index.wf(),
            forall|k: int| 0 <= k < i ==> paths_keep(w, #[trigger] old(slots)@[k], slots@[k]),
            forall|k: int| i <= k < slots@.len() ==> (#[trigger] slots@[k]) == old(slots)@[k],
        decreases slots@.len() - i,
    {
        let ghost now = slots@;
        assert(now[i as int] == old(slots)@[i as int]);
        if same_text(slots[i].table.as_str(), table) {
            match read_text_cell(schemas, table, slots[i].column.as_str(), value) {
                Some(t) => {
                    slots[i].index.insert(key, t.as_str());
                    assert forall|k: int| 0 <= k < slots@.len() && k != i implies #[trigger] slots@[k]
                        == now[k] by {}
                },
                None => {},
            }
        }
        assert(paths_keep(w, old(slots)@[i as int], slots@[i as int]));
        i += 1;
    }
}

/// The text by which a cell is found: the text leaves of a document, and of
/// what is no document, or has none, the cell itself.
pub open spec fn searchable(t: Seq<char>, doc: Option<json::JsonView>) -> Seq<char> {
    match doc {
        Some(d) => {
            let s = json::with_words(Seq::empty(), json::leaves(d));
            if s.len() == 0 {
                t
            } else {
                s
            }
        },
        None => t,
    }
}

/// The text by which a cell is found, given what the cell is as a document.
pub fn searchable_of(t: &str, doc: &Option<Json>) -> (r: String)
    ensures
        r@ == searchable(
            t@,
            match doc {
                Some(d) => Some(d@),
                None => None,
            },
        ),
{
    match doc {
        Some(d) => {
            let mut s = String::new();
            collect_json_strings(d, &mut s);
            if s.as_str().unicode_len() == 0 {
                t.to_owned()
            } else {
                s
            }
        },
        None => t.to_owned(),
    }
}

/// The text by which a cell is found.
pub fn searchable_text(t: &str) -> (r: String)
    ensures
        r@ == searchable(t@, json::json_in(t@)),
{
    let doc = parse_json(t);
    searchable_of(t, &doc)
}

/// What the row does to a full-text index: its words take the place of those
/// that were indexed under its key.
pub open spec fn words_keep(w: Written, before: Slot<FtsIndex>, after: Slot<FtsIndex>) -> bool {
    match w.text(before.table@, before.column@) {
        Some(t) => {
            let words = canopy_index::words(searchable(t, json::json_in(t)));
            &&& searchable(t, json::json_in(t)).len() <= u32::MAX
            &&& after.index.lengths() == before.index.lengths().insert(w.key, words.len() as u32)
            &&& forall|token: Seq<char>, row: Seq<u8>| #[trigger]
                after.index.frequency(token, row) == (if row == w.key {
                    canopy_index::occurrences(words, token)
                } else {
                    before.index.frequency(token, row)
                })
        },
        None => after.index == before.index,
    }
}

/// Whether the text of a row in a slot's column is too long for the index.
pub open spec fn overlong(w: Written, slot: Slot<FtsIndex>) -> bool {
    match w.text(slot.table@, slot.column@) {
        Some(t) => searchable(t, json::json_in(t)).len() > u32::MAX,
        None => false,
    }
}

/// Carries a row into the full-text indexes.
pub fn maintain_words(
    slots: &mut Vec<Slot<FtsIndex>>,
    schemas: &StrMap<TableSchema>,
    table: &str,
    key: &[u8],
    value: &[u8],
) -> (r: Result<(), IndexError>)
    requires
        schemas.wf(),
        forall|i: int| 0 <= i < old(slots)@.len() ==> (#[trigger] old(slots)@[i]).index.wf(),
    ensures
        same_places(final(slots)@, old(slots)@),
        forall|i: int| 0 <= i < final(slots)@.len() ==> (#[trigger] final(slots)@[i]).index.wf(),
        match r {
            Ok(()) => forall|i: int|
                0 <= i < old(slots)@.len() ==> words_keep(
                    Written { schemas: schemas@, table: table@, key: key@, value: value@ },
                    #[trigger] old(slots)@[i],
                    final(slots)@[i],
                ),
            Err(e) => e == IndexError::TextTooLong && exists|n: int|
                0 <= n < old(slots)@.len() && overlong(
                    Written { schemas: schemas@, table: table@, key: key@, value: value@ },
                    #[trigger] old(slots)@[n],
                ) && stopped_at(
                    Written { schemas: schemas@, table: table@, key: key@, value: value@ },
                    old(slots)@,
                    final(slots)@,
                    n,
                    |w: Written, a: Slot<FtsIndex>, b: Slot<FtsIndex>| words_keep(w, a, b),
                ),
        },
{
    let ghost w = Written { schemas: schemas@, table: table@, key: key@, value: value@ };
    let mut i: usize = 0;
    while i < slots.len()
        invariant
            schemas.wf(),
            w == (Written { schemas: schemas@, table: table@, key: key@, value: value@ }),
            i <= slots@.len(),
            same_places(slots@, old(slots)@),
            forall|k: int| 0 <= k < slots@.len() ==> (#[trigger] slots@[k]).index.wf(),
            forall|k: int| 0 <= k < i ==> words_keep(w, #[trigger] old(slots)@[k], slots@[k]),
            forall|k: int| i <= k < slots@.len() ==> (#[trigger] slots@[k]) == old(slots)@[k],
        decreases slots@.len() - i,
    {
        let ghost now = slots@;
        assert(now[i as int] == old(slots)@[i as int]);
        if same_text(slots[i].table.as_str(), table) {
            match read_text_cell(schemas, table, slots[i].column.as_str(), value) {
                Some(t) => {
                    let s = searchable_text(t.as_str());
                    let n: usize = s.as_str().unicode_len();
                    if n as u64 > u32::MAX as u64 {
                        assert(overlong(w, old(slots)@[i as int]));
                        return Err(IndexError::TextTooLong);
                    }
                    slots[i].index.insert(key, s.as_str());
                    assert forall|k: int| 0 <= k < slots@.len() && k != i implies #[trigger] slots@[k]
                        == now[k] by {}
                },
                None => {},
            }
        }
        assert(words_keep(w, old(slots)@[i as int], slots@[i as int]));
        i += 1;
    }
    Ok(())
}

/// The edge that a row is to a graph index: both ends must be there; the type
/// is left out where it is missing or not UTF-8.
pub open spec fn edge_by(
    w: Written,
    slot: Slot<GraphIndex>,
    to_column: Seq<char>,
    type_column: Option<Seq<char>>,
) -> Option<(Seq<u8>, Seq<u8>, Option<Seq<char>>)> {
    let from = w.cell(slot.table@, slot.column@);
    let to = w.cell(slot.table@, to_column);
    let rel = match type_column {
        Some(c) => w.text(slot.table@, c),
        None => None,
    };
    match (from, to) {
        (Some(f), Some(t)) => Some((f, t, rel)),
        _ => None,
    }
}

/// What the row does to a graph index whose edges are read by these columns: its
/// edge is added.
pub open spec fn graph_keeps_by(
    w: Written,
    to_column: Seq<char>,
    type_column: Option<Seq<char>>,
    before: Slot<GraphIndex>,
    after: Slot<GraphIndex>,
) -> bool {
    &&& after.index.to_col() == before.index.to_col()
    &&& after.index.type_col() == before.index.type_col()
    &&& !graph_full_by(w, to_column, type_column, before)
    &&& after.index.adjacency() == (match edge_by(w, before, to_column, type_column) {
        Some((from, to, rel)) => before.index.adjacency().with_edge(from, to, rel),
        None => before.index.adjacency(),
    })
}

/// Whether the graph has no numbers left for the vertices of the row.
pub open spec fn graph_full_by(
    w: Written,
    to_column: Seq<char>,
    type_column: Option<Seq<char>>,
    slot: Slot<GraphIndex>,
) -> bool {
    edge_by(w, slot, to_column, type_column) is Some && slot.index.adjacency().keys.len() + 1
        >= u32::MAX
}

/// What the row does to a graph index, by the columns that the index names.
pub open spec fn graph_keeps(w: Written, before: Slot<GraphIndex>, after: Slot<GraphIndex>) -> bool {
    graph_keeps_by(w, before.index.to_col(), before.index.type_col(), before, after)
}

/// Whether the graph has no numbers left, by the columns that the index names.
pub open spec fn graph_full(w: Written, slot: Slot<GraphIndex>) -> bool {
    graph_full_by(w, slot.index.to_col(), slot.index.type_col(), slot)
}

/// Carries a row into the graph indexes.
pub fn maintain_graphs(
    slots: &mut Vec<Slot<GraphIndex>>,
    schemas: &StrMap<TableSchema>,
    table: &str,
    key: &[u8],
    value: &[u8],
) -> (r: Result<(), IndexError>)
    requires
        schemas.wf(),
    ensures
        same_places(final(slots)@, old(slots)@),
        match r {
            Ok(()) => forall|i: int|
                0 <= i < old(slots)@.len() ==> graph_keeps(
                    Written { schemas: schemas@, table: table@, key: key@, value: value@ },
                    #[trigger] old(slots)@[i],
                    final(slots)@[i],
                ),
            Err(e) => e == IndexError::GraphFull && exists|n: int|
                0 <= n < old(slots)@.len() && graph_full(
                    Written { schemas: schemas@, table: table@, key: key@, value: value@ },
                    #[trigger] old(slots)@[n],
                ) && stopped_at(
                    Written { schemas: schemas@, table: table@, key: key@, value: value@ },
                    old(slots)@,
                    final(slots)@,
                    n,
                    |w: Written, a: Slot<GraphIndex>, b: Slot<GraphIndex>| graph_keeps(w, a, b),
                ),
        },
{
    let ghost w = Written { schemas: schemas@, table: table@, key: key@, value: value@ };
    let mut i: usize = 0;
    while i < slots.len()
        invariant
            schemas.wf(),
            w == (Written { schemas: schemas@, table: table@, key: key@, value: value@ }),
            i <= slots@.len(),
            same_places(slots@, old(slots)@),
            forall|k: int| 0 <= k < i ==> graph_keeps(w, #[trigger] old(slots)@[k], slots@[k]),
            forall|k: int| i <= k < slots@.len() ==> (#[trigger] slots@[k]) == old(slots)@[k],
        decreases slots@.len() - i,
    {
        let ghost now = slots@;
        assert(now[i as int] == old(slots)@[i as int]);
        if same_text(slots[i].table.as_str(), table) {
            let from = read_cell(schemas, table, slots[i].column.as_str(), value);
            let to = read_cell(schemas, table, slots[i].index.to_column(), value);
            let rel: Option<String> = match slots[i].index.type_column() {
                Some(c) => read_text_cell(schemas, table, c, value),
                None => None,
            };
            if let (Some(f), Some(t)) = (from, to) {
                if slots[i].index.graph().vertex_count() as u64 >= u32::MAX as u64 - 1 {
                    assert(graph_full(w, old(slots)@[i as int]));
                    return Err(IndexError::GraphFull);
                }
                slots[i].index.insert(f.as_slice(), t.as_slice(), rel);
                assert forall|k: int| 0 <= k < slots@.len() && k != i implies #[trigger] slots@[k]
                    == now[k] by {}
            }
        }
        assert(graph_keeps(w, old(slots)@[i as int], slots@[i as int]));
        i += 1;
    }
    Ok(())
}

/// What is left to do for a row outside this library: positions, numbers and
/// vectors are read by the caller.
#[derive(Debug, Clone, PartialEq)]
pub enum OuterUpdate {
    /// A geometry to place in the spatial index on a column.
    Geo { column: String, wkt: String },
    /// A time, and the text of a number, for the time index on a column.
    Time { column: String, ts: i64, value: String },
    /// The text of a vector for the vector index on a column.
    Vector { column: String, text: String },
}

pub enum UpdateView {
    Geo { column: Seq<char>, wkt: Seq<char> },
    Time { column: Seq<char>, ts: i64, value: Seq<char> },
    Vector { column: Seq<char>, text: Seq<char> },
}

impl View for OuterUpdate {
    type V = UpdateView;

    open spec fn view(&self) -> UpdateView {
        match self {
            OuterUpdate::Geo { column, wkt } => UpdateView::Geo { column: column@, wkt: wkt@ },
            OuterUpdate::Time { column, ts, value } => UpdateView::Time {
                column: column@,
                ts: *ts,
                value: value@,
            },
            OuterUpdate::Vector { column, text } => UpdateView::Vector {
                column: column@,
                text: text@,
            },
        }
    }
}

pub open spec fn update_views(us: Seq<OuterUpdate>) -> Seq<UpdateView> {
    us.map_values(|u: OuterUpdate| u@)
}

/// The geometries of a row.
pub open spec fn geo_updates<I>(w: Written, slots: Seq<Slot<I>>) -> Seq<UpdateView>
    decreases slots.len(),
{
    if slots.len() == 0 {
        Seq::empty()
    } else {
        let slot = slots.last();
        match w.text(slot.table@, slot.column@) {
            Some(t) => geo_updates(w, slots.drop_last()).push(
                UpdateView::Geo { column: slot.column@, wkt: t },
            ),
            None => geo_updates(w, slots.drop_last()),
        }
    }
}

/// The vectors of a row.
pub open spec fn vector_updates<I>(w: Written, slots: Seq<Slot<I>>) -> Seq<UpdateView>
    decreases slots.len(),
{
    if slots.len() == 0 {
        Seq::empty()
    } else {
        let slot = slots.last();
        match w.text(slot.table@, slot.column@) {
            Some(t) => vector_updates(w, slots.drop_last()).push(
                UpdateView::Vector { column: slot.column@, text: t },
            ),
            None => vector_updates(w, slots.drop_last()),
        }
    }
}

/// The time and the text of the value of a row in a time index's columns.
pub open spec fn sample_of(w: Written, slot: Slot<TimeIndex>) -> Option<(i64, Seq<char>)> {
    match (w.cell(slot.table@, slot.column@), w.text(slot.table@, slot.index@.value_column)) {
        (Some(cell), Some(value)) => match rows::i64_in(cell) {
            Some(ts) => Some((ts, value)),
            None => None,
        },
        _ => None,
    }
}

/// The times of a row.
pub open spec fn time_updates(w: Written, slots: Seq<Slot<TimeIndex>>) -> Seq<UpdateView>
    decreases slots.len(),
{
    if slots.len() == 0 {
        Seq::empty()
    } else {
        let slot = slots.last();
        match sample_of(w, slot) {
            Some((ts, value)) => time_updates(w, slots.drop_last()).push(
                UpdateView::Time { column: slot.column@, ts, value },
            ),
            None => time_updates(w, slots.drop_last()),
        }
    }
}

/// Collects what a row asks of the spatial or of the vector indexes.
fn collect_texts<I>(
    slots: &Vec<Slot<I>>,
    schemas: &StrMap<TableSchema>,
    table: &str,
    key: &[u8],
    value: &[u8],
    spatial: bool,
    out: &mut Vec<OuterUpdate>,
)
    requires
        schemas.wf(),
    ensures
        ({
            let w = Written { schemas: schemas@, table: table@, key: key@, value: value@ };
            update_views(final(out)@) == update_views(old(out)@) + (if spatial {
                geo_updates(w, slots@)
            } else {
                vector_updates(w, slots@)
            })
        }),
{
    let ghost w = Written { schemas: schemas@, table: table@, key: key@, value: value@ };
    let ghost before = update_views(out@);
    let mut i: usize = 0;
    assert(slots@.take(0) =~= Seq::<Slot<I>>::empty());
    assert(before + geo_updates(w, slots@.take(0)) =~= before);
    assert(before + vector_updates(w, slots@.take(0)) =~= before);
    while i < slots.len()
        invariant
            schemas.wf(),
            w == (Written { schemas: schemas@, table: table@, key: key@, value: value@ }),
            i <= slots@.len(),
            update_views(out@) == before + (if spatial {
                geo_updates(w, slots@.take(i as int))
            } else {
                vector_updates(w, slots@.take(i as int))
            }),
        decreases slots@.len() - i,
    {
        assert(slots@.take(i + 1).drop_last() =~= slots@.take(i as int));
        let ghost now = out@;
        if same_text(slots[i].table.as_str(), table) {
            match read_text_cell(schemas, table, slots[i].column.as_str(), value) {
                Some(t) => {
                    let column = slots[i].column.clone();
                    out.push(
                        if spatial {
                            OuterUpdate::Geo { column, wkt: t }
                        } else {
                            OuterUpdate::Vector { column, text: t }
                        },
                    );
                    assert(update_views(out@) =~= update_views(now).push(out@.last()@));
                },
                None => {},
            }
        }
        assert(update_views(out@) =~= before + (if spatial {
            geo_updates(w, slots@.take(i + 1))
        } else {
            vector_updates(w, slots@.take(i + 1))
        }));
        i += 1;
    }
    assert(slots@.take(slots@.len() as int) =~= slots@);
}

/// Collects what a row asks of the time indexes.
fn collect_times(
    slots: &Vec<Slot<TimeIndex>>,
    schemas: &StrMap<TableSchema>,
    table: &str,
    key: &[u8],
    value: &[u8],
    out: &mut Vec<OuterUpdate>,
)
    requires
        schemas.wf(),
    ensures
        update_views(final(out)@) == update_views(old(out)@) + time_updates(
            Written { schemas: schemas@, table: table@, key: key@, value: value@ },
            slots@,
        ),
{
    let ghost w = Written { schemas: schemas@, table: table@, key: key@, value: value@ };
    let ghost before = update_views(out@);
    let mut i: usize = 0;
    assert(slots@.take(0) =~= Seq::<Slot<TimeIndex>>::empty());
    assert(before + time_updates(w, slots@.take(0)) =~= before);
    while i < slots.len()
        invariant
            schemas.wf(),
            w == (Written { schemas: schemas@, table: table@, key: key@, value: value@ }),
            i <= slots@.len(),
            update_views(out@) == before + time_updates(w, slots@.take(i as int)),
        decreases slots@.len() - i,
    {
        assert(slots@.take(i + 1).drop_last() =~= slots@.take(i as int));
        assert(slots@.take(i + 1).last() == slots@[i as int]);
        let ghost now = out@;
        let slot = &slots[i];
        if same_text(slot.table.as_str(), table) {
            let cell = read_cell(schemas, table, slot.column.as_str(), value);
            let number = read_text_cell(schemas, table, slot.index.value_column(), value);
            if let (Some(c), Some(n)) = (cell, number) {
                match decode_i64(c.as_slice()) {
                    Some(ts) => {
                        out.push(
                            OuterUpdate::Time { column: slot.column.clone(), ts, value: n },
                        );
                        assert(update_views(out@) =~= update_views(now).push(out@.last()@));
                    },
                    None => {},
                }
            }
        }
        assert(update_views(out@) =~= before + time_updates(w, slots@.take(i + 1)));
        i += 1;
    }
    assert(slots@.take(slots@.len() as int) =~= slots@);
}

/// The indexes of a database, by kind. Those on vectors are held by the caller;
/// their places are known here.
pub struct Indexes {
    pub trees: Vec<Slot<BTree>>,
    pub geos: Vec<Slot<GeoIndex>>,
    pub times: Vec<Slot<TimeIndex>>,
    pub graphs: Vec<Slot<GraphIndex>>,
    pub paths: Vec<Slot<JsonPathIndex>>,
    pub words: Vec<Slot<FtsIndex>>,
    pub vectors: Vec<Slot<()>>,
    pub ivf_pqs: Vec<Slot<()>>,
}

impl Indexes {
    pub open spec fn wf(&self) -> bool {
        &&& forall|i: int| 0 <= i < self.times@.len() ==> (#[trigger] self.times@[i]).index.wf()
        &&& forall|i: int| 0 <= i < self.paths@.len() ==> (#[trigger] self.paths@[i]).index.wf()
        &&& forall|i: int| 0 <= i < self.words@.len() ==> (#[trigger] self.words@[i]).index.wf()
    }

    /// Whether no B-tree is damaged.
    pub open spec fn trees_valid(&self) -> bool {
        forall|i: int| 0 <= i < self.trees@.len() ==> (#[trigger] self.trees@[i]).index.valid()
    }

    /// Whether two sets of indexes are on the same columns.
    pub open spec fn same_columns(&self, other: Indexes) -> bool {
        &&& same_places(self.trees@, other.trees@)
        &&& same_places(self.graphs@, other.graphs@)
        &&& same_places(self.paths@, other.paths@)
        &&& same_places(self.words@, other.words@)
        &&& self.times == other.times
        &&& self.geos == other.geos
        &&& self.vectors == other.vectors
        &&& self.ivf_pqs == other.ivf_pqs
    }

    pub open spec fn is_empty(&self) -> bool {
        &&& self.trees@.len() == 0
        &&& self.geos@.len() == 0
        &&& self.times@.len() == 0
        &&& self.graphs@.len() == 0
        &&& self.paths@.len() == 0
        &&& self.words@.len() == 0
        &&& self.vectors@.len() == 0
        &&& self.ivf_pqs@.len() == 0
    }

    /// No index on any column.
    pub fn new() -> (r: Indexes)
        ensures
            r.wf(),
            r.is_empty(),
    {
        Indexes {
            trees: Vec::new(),
            geos: Vec::new(),
            times: Vec::new(),
            graphs: Vec::new(),
            paths: Vec::new(),
            words: Vec::new(),
            vectors: Vec::new(),
            ivf_pqs: Vec::new(),
        }
    }

    /// Carries a row into every index on its table, and says what is left for
    /// the caller. `key` is the key of the row within its table.
    pub fn carry(
        &mut self,
        schemas: &StrMap<TableSchema>,
        table: &str,
        key: &[u8],
        value: &[u8],
    ) -> (r: Result<Vec<OuterUpdate>, IndexError>)
        requires
            old(self).wf(),
            schemas.wf(),
            key@.len() <= u32::MAX,
        ensures
            final(self).wf(),
            final(self).same_columns(*old(self)),
            match r {
                Ok(us) => carried(
                    Written { schemas: schemas@, table: table@, key: key@, value: value@ },
                    *old(self),
                    *final(self),
                ) && update_views(us@) == left_to_do(
                    Written { schemas: schemas@, table: table@, key: key@, value: value@ },
                    *old(self),
                ),
                Err(e) => refused(
                    Written { schemas: schemas@, table: table@, key: key@, value: value@ },
                    *old(self),
                    e,
                    *final(self),
                ),
            },
    {
        let ghost w = Written { schemas: schemas@, table: table@, key: key@, value: value@ };
        match maintain_trees(&mut self.trees, schemas, table, key, value) {
            Ok(()) => {},
            Err(e) => {
                return Err(e);
            },
        }
        let mut out: Vec<OuterUpdate> = Vec::new();
        assert(update_views(out@) =~= Seq::<UpdateView>::empty());
        collect_texts(&self.geos, schemas, table, key, value, true, &mut out);
        collect_times(&self.times, schemas, table, key, value, &mut out);
        match maintain_graphs(&mut self.graphs, schemas, table, key, value) {
            Ok(()) => {},
            Err(e) => {
                return Err(e);
            },
        }
        maintain_paths(&mut self.paths, schemas, table, key, value);
        match maintain_words(&mut self.words, schemas, table, key, value) {
            Ok(()) => {},
            Err(e) => {
                return Err(e);
            },
        }
        collect_texts(&self.vectors, schemas, table, key, value, false, &mut out);
        assert(update_views(out@) =~= left_to_do(w, *old(self)));
        Ok(out)
    }
}

/// Whether a row was carried into every index.
pub open spec fn carried(w: Written, before: Indexes, after: Indexes) -> bool {
    &&& before.trees_valid() ==> after.trees_valid()
    &&& trees_carried(w, before.trees@, after.trees@, before.trees@.len() as int)
    &&& forall|i: int|
        0 <= i < before.graphs@.len() ==> graph_keeps(
            w,
            #[trigger] before.graphs@[i],
            after.graphs@[i],
        )
    &&& forall|i: int|
        0 <= i < before.paths@.len() ==> paths_keep(w, #[trigger] before.paths@[i], after.paths@[i])
    &&& forall|i: int|
        0 <= i < before.words@.len() ==> words_keep(w, #[trigger] before.words@[i], after.words@[i])
}

/// What a row leaves for the caller.
pub open spec fn left_to_do(w: Written, before: Indexes) -> Seq<UpdateView> {
    geo_updates(w, before.geos@) + time_updates(w, before.times@) + vector_updates(
        w,
        before.vectors@,
    )
}

/// Why a row cannot be carried into the indexes, and what they hold then: the
/// row is in those that come before the one that refused it, and the others are
/// as they were.
pub open spec fn refused(w: Written, before: Indexes, e: IndexError, after: Indexes) -> bool {
    match e {
        IndexError::Tree(x) => {
            &&& exists|n: int| #[trigger] trees_stopped(w, before.trees@, after.trees@, x, n)
            &&& after.graphs == before.graphs
            &&& after.paths == before.paths
            &&& after.words == before.words
        },
        IndexError::GraphFull => {
            &&& trees_carried(w, before.trees@, after.trees@, before.trees@.len() as int)
            &&& exists|n: int|
                0 <= n < before.graphs@.len() && graph_full(w, #[trigger] before.graphs@[n])
                    && stopped_at(
                    w,
                    before.graphs@,
                    after.graphs@,
                    n,
                    |w: Written, a: Slot<GraphIndex>, b: Slot<GraphIndex>| graph_keeps(w, a, b),
                )
            &&& after.paths == before.paths
            &&& after.words == before.words
        },
        IndexError::TextTooLong => {
            &&& trees_carried(w, before.trees@, after.trees@, before.trees@.len() as int)
            &&& forall|i: int|
                0 <= i < before.graphs@.len() ==> graph_keeps(
                    w,
                    #[trigger] before.graphs@[i],
                    after.graphs@[i],
                )
            &&& forall|i: int|
                0 <= i < before.paths@.len() ==> paths_keep(
                    w,
                    #[trigger] before.paths@[i],
                    after.paths@[i],
                )
            &&& exists|n: int|
                0 <= n < before.words@.len() && overlong(w, #[trigger] before.words@[n])
                    && stopped_at(
                    w,
                    before.words@,
                    after.words@,
                    n,
                    |w: Written, a: Slot<FtsIndex>, b: Slot<FtsIndex>| words_keep(w, a, b),
                )
        },
    }
}

/// A column is where its name first stands.
pub proof fn law_column_is_where_its_name_first_stands(names: Seq<Seq<char>>, name: Seq<char>)
    ensures
        match position_of(names, name) {
            Some(i) => i < names.len() && names[i as int] == name && forall|j: int|
                0 <= j < i ==> #[trigger] names[j] != name,
            None => !names.contains(name),
        },
    decreases names.len(),
{
    reveal_with_fuel(position_of, 2);
    if names.len() > 0 {
        law_column_is_where_its_name_first_stands(names.drop_last(), name);
        law_column_is_where_its_name_first_stands(names.drop_first(), name);
        assert forall|j: int| 0 <= j < names.len() - 1 implies #[trigger] names[j]
            == names.drop_last()[j] by {}
        assert forall|j: int| 0 < j < names.len() implies #[trigger] names[j]
            == names.drop_first()[j - 1] by {}
        if names.contains(name) {
            let k = choose|k: int| 0 <= k < names.len() && names[k] == name;
            if k < names.len() - 1 {
                assert(names.drop_last()[k] == name);
            }
            if k > 0 {
                assert(names.drop_first()[k - 1] == name);
            }
        }
    }
}

/// The cell of a column is the one that stands at the column's place in the row.
pub proof fn law_cell_stands_at_its_columns_place(
    w: Written,
    cells: Seq<Option<Seq<u8>>>,
    column: Seq<char>,
    i: int,
)
    requires
        w.schemas.contains_key(w.table),
        w.value == rows::row_bytes(cells),
        0 <= i < cells.len(),
        i < w.schemas[w.table].names().len(),
        w.schemas[w.table].names()[i] == column,
        forall|j: int| 0 <= j < i ==> #[trigger] w.schemas[w.table].names()[j] != column,
        forall|k: int|
            0 <= k <= i ==> ((#[trigger] cells[k]) matches Some(data) ==> data.len() <= i32::MAX),
    ensures
        w.cell(w.table, column) == cells[i],
        forall|t: Seq<char>| t != w.table ==> #[trigger] w.cell(t, column) is None,
        cells[i] matches Some(data) ==> (valid_utf8(data) ==> w.text(w.table, column) == Some(
            decode_utf8(data),
        )),
        cells[i] is None ==> w.text(w.table, column) is None,
{
    let names = w.schemas[w.table].names();
    law_column_is_where_its_name_first_stands(names, column);
    if position_of(names, column) is None {
        assert(names.contains(names[i]));
    } else {
        let p = position_of(names, column)->0;
        if p < i {
            assert(names[p as int] != column);
        } else if p > i {
            assert(names[i] != column);
        }
    }
    let none = Seq::<u8>::empty();
    rows::law_cells_are_read_back(none, cells, i as nat);
}

/// A row that a B-tree keeps is found under its cell, and nothing changes under
/// other values.
pub proof fn law_row_is_found_under_its_cell(
    w: Written,
    before: Slot<BTree>,
    after: Slot<BTree>,
    cell: Seq<u8>,
    other: Seq<u8>,
)
    requires
        tree_keeps(w, before, after),
        w.cell(before.table@, before.column@) == Some(cell),
    ensures
        after.index.get(cell) == Ok::<Option<Seq<u8>>, TreeError>(Some(w.key)),
        other != cell ==> after.index.get(other) == before.index.get(other),
{
    assert(after.index.get(cell) == btree::with_put(before.index.get(cell), cell, cell, w.key));
    assert(after.index.get(other) == btree::with_put(before.index.get(other), other, cell, w.key));
}

/// A row that a graph keeps joins the vertices of its two cells by an edge of the
/// type in its third; a row without both ends changes nothing.
pub proof fn law_row_joins_its_two_cells(
    w: Written,
    before: Slot<GraphIndex>,
    after: Slot<GraphIndex>,
)
    requires
        graph_keeps(w, before, after),
    ensures
        ({
            let from = w.cell(before.table@, before.column@);
            let to = w.cell(before.table@, before.index.to_col());
            let kind = match before.index.type_col() {
                Some(c) => w.text(before.table@, c),
                None => None,
            };
            let g = after.index.adjacency();
            if from is Some && to is Some {
                &&& g.edges.len() == before.index.adjacency().edges.len() + 1
                &&& g.edges.drop_last() == before.index.adjacency().edges
                &&& 0 <= g.edges.last().from < g.keys.len()
                &&& 0 <= g.edges.last().to < g.keys.len()
                &&& g.keys[g.edges.last().from] == from->0
                &&& g.keys[g.edges.last().to] == to->0
                &&& g.edges.last().rel_type == kind
            } else {
                g == before.index.adjacency()
            }
        }),
{
    let from = w.cell(before.table@, before.column@);
    let to = w.cell(before.table@, before.index.to_col());
    if from is Some && to is Some {
        let b = before.index.adjacency();
        let kind = match before.index.type_col() {
            Some(c) => w.text(before.table@, c),
            None => None,
        };
        graph_index::law_added_edge_joins_its_ends(b, from->0, to->0, kind);
        graph_index::lemma_id(after.index.adjacency().keys, from->0);
        graph_index::lemma_id(after.index.adjacency().keys, to->0);
        assert(after.index.adjacency().edges.drop_last() =~= b.edges);
    }
}

/// The index that was put on a column is the first one there, and the indexes on
/// other columns are as they were.
pub proof fn law_index_is_put_on_its_column<I>(
    slots: Seq<Slot<I>>,
    table: Seq<char>,
    column: Seq<char>,
    index: I,
    after: Seq<Slot<I>>,
)
    requires
        installed(slots, table, column, index, after),
    ensures
        exists|i: int| #[trigger] slot_for(after, i, table, column) && after[i].index == index,
        slots.len() <= after.len() <= slots.len() + 1,
        forall|i: int|
            0 <= i < slots.len() && (slots[i].table@ != table || slots[i].column@ != column)
                ==> #[trigger] after[i] == slots[i],
        after.len() == slots.len() + 1 <==> forall|i: int|
            0 <= i < slots.len() ==> (#[trigger] slots[i]).table@ != table || slots[i].column@
                != column,
{
    if exists|j: int| slot_for(slots, j, table, column) {
        let j = choose|j: int| #[trigger]
            slot_for(slots, j, table, column) && same_places(after, slots) && after[j].index
                == index && forall|i: int|
                0 <= i < slots.len() && i != j ==> (#[trigger] after[i]) == slots[i];
        assert(after[j].table@ == slots[j].table@);
        assert(slot_for(after, j, table, column));
    } else {
        assert(slot_for(after, slots.len() as int, table, column));
        assert forall|i: int| 0 <= i < slots.len() implies (#[trigger] slots[i]).table@ != table
            || slots[i].column@ != column by {
            assert(!slot_for(slots, i, table, column));
        }
    }
}

/// A row leaves to the caller a geometry for every spatial index on a column of
/// its table that holds a text, a vector for every vector index, and nothing
/// else of these kinds.
pub proof fn law_row_leaves_its_geometries_and_vectors<I>(
    w: Written,
    slots: Seq<Slot<I>>,
    column: Seq<char>,
    t: Seq<char>,
)
    ensures
        geo_updates(w, slots).contains(UpdateView::Geo { column, wkt: t }) <==> exists|i: int|
            0 <= i < slots.len() && (#[trigger] slots[i]).column@ == column && w.text(
                slots[i].table@,
                column,
            ) == Some(t),
        vector_updates(w, slots).contains(UpdateView::Vector { column, text: t }) <==> exists|
            i: int,
        |
            0 <= i < slots.len() && (#[trigger] slots[i]).column@ == column && w.text(
                slots[i].table@,
                column,
            ) == Some(t),
    decreases slots.len(),
{
    if slots.len() > 0 {
        let head = slots.drop_last();
        let n = slots.len() - 1;
        law_row_leaves_its_geometries_and_vectors(w, head, column, t);
        let g = UpdateView::Geo { column, wkt: t };
        let v = UpdateView::Vector { column, text: t };
        assert(slots[n] == slots.last());
        if exists|i: int|
            0 <= i < head.len() && (#[trigger] head[i]).column@ == column && w.text(
                head[i].table@,
                column,
            ) == Some(t) {
            let i = choose|i: int|
                0 <= i < head.len() && (#[trigger] head[i]).column@ == column && w.text(
                    head[i].table@,
                    column,
                ) == Some(t);
            assert(slots[i] == head[i]);
        }
        if exists|i: int|
            0 <= i < slots.len() && (#[trigger] slots[i]).column@ == column && w.text(
                slots[i].table@,
                column,
            ) == Some(t) {
            let i = choose|i: int|
                0 <= i < slots.len() && (#[trigger] slots[i]).column@ == column && w.text(
                    slots[i].table@,
                    column,
                ) == Some(t);
            if i < n {
                assert(head[i] == slots[i]);
            }
        }
        let last = slots.last();
        if let Some(u) = w.text(last.table@, last.column@) {
            lemma_contains_pushed(
                geo_updates(w, head),
                UpdateView::Geo { column: last.column@, wkt: u },
                g,
            );
            lemma_contains_pushed(
                vector_updates(w, head),
                UpdateView::Vector { column: last.column@, text: u },
                v,
            );
        }
    }
}

proof fn lemma_contains_pushed(a: Seq<UpdateView>, y: UpdateView, x: UpdateView)
    ensures
        a.push(y).contains(x) <==> a.contains(x) || y == x,
{
    let b = a.push(y);
    if a.contains(x) {
        let k = choose|k: int| 0 <= k < a.len() && a[k] == x;
        assert(b[k] == x);
    }
    assert(b[a.len() as int] == y);
}

/// A row leaves a sample for every time index on a column of its table that holds
/// a number, with the text in the column of values.
pub proof fn law_row_leaves_its_samples(
    w: Written,
    slots: Seq<Slot<TimeIndex>>,
    column: Seq<char>,
    ts: i64,
    value: Seq<char>,
)
    ensures
        time_updates(w, slots).contains(UpdateView::Time { column, ts, value }) <==> exists|i: int|
            0 <= i < slots.len() && (#[trigger] slots[i]).column@ == column && (w.cell(
                slots[i].table@,
                column,
            ) matches Some(cell) && rows::i64_in(cell) == Some(ts)) && w.text(
                slots[i].table@,
                slots[i].index@.value_column,
            ) == Some(value),
    decreases slots.len(),
{
    if slots.len() > 0 {
        let head = slots.drop_last();
        let n = slots.len() - 1;
        law_row_leaves_its_samples(w, head, column, ts, value);
        let u = UpdateView::Time { column, ts, value };
        assert(slots[n] == slots.last());
        if exists|i: int|
            0 <= i < head.len() && (#[trigger] head[i]).column@ == column && (w.cell(
                head[i].table@,
                column,
            ) matches Some(cell) && rows::i64_in(cell) == Some(ts)) && w.text(
                head[i].table@,
                head[i].index@.value_column,
            ) == Some(value) {
            let i = choose|i: int|
                0 <= i < head.len() && (#[trigger] head[i]).column@ == column && (w.cell(
                    head[i].table@,
                    column,
                ) matches Some(cell) && rows::i64_in(cell) == Some(ts)) && w.text(
                    head[i].table@,
                    head[i].index@.value_column,
                ) == Some(value);
            assert(slots[i] == head[i]);
        }
        if exists|i: int|
            0 <= i < slots.len() && (#[trigger] slots[i]).column@ == column && (w.cell(
                slots[i].table@,
                column,
            ) matches Some(cell) && rows::i64_in(cell) == Some(ts)) && w.text(
                slots[i].table@,
                slots[i].index@.value_column,
            ) == Some(value) {
            let i = choose|i: int|
                0 <= i < slots.len() && (#[trigger] slots[i]).column@ == column && (w.cell(
                    slots[i].table@,
                    column,
                ) matches Some(cell) && rows::i64_in(cell) == Some(ts)) && w.text(
                    slots[i].table@,
                    slots[i].index@.value_column,
                ) == Some(value);
            if i < n {
                assert(head[i] == slots[i]);
            }
        }
        let last = slots.last();
        if let Some((at, v)) = sample_of(w, last) {
            lemma_contains_pushed(
                time_updates(w, head),
                UpdateView::Time { column: last.column@, ts: at, value: v },
                u,
            );
        }
    }
}

/// A text that is no document is searched as it is, and so is one without words;
/// of a document the texts are searched.
pub proof fn law_texts_of_a_document_are_searched(t: Seq<char>, d: json::JsonView)
    ensures
        searchable(t, None) == t,
        json::with_words(Seq::empty(), json::leaves(d)).len() == 0 ==> searchable(t, Some(d)) == t,
        json::with_words(Seq::empty(), json::leaves(d)).len() > 0 ==> searchable(t, Some(d))
            == json::with_words(Seq::empty(), json::leaves(d)),
{
}

} // verus!
