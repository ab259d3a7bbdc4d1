//! Asking the indexes.

use vstd::prelude::*;
use vstd::string::*;

use super::catalog;
use super::catalog::{find_slot, list_slots, Indexes, Slot};
use super::engine;
use super::engine::{Database, KeyValue};
use super::rowmap;
use super::rowmap::copy_bytes;
use super::rows;
use super::versions;
use crate::be;
use crate::btree::TreeError;
use crate::canopy_index;
use crate::geo_index;
use crate::geo_index::GeoEntry;
use crate::graph_index;
use crate::graph_index::{copy_opt, AdjacencyGraph, Direction};
use crate::ranking;
use crate::ts_index;

verus! {

/// Whether a list holds an index on a column.
pub open spec fn indexed<I>(slots: Seq<Slot<I>>, table: Seq<char>, column: Seq<char>) -> bool {
    exists|i: int| catalog::slot_for(slots, i, table, column)
}

/// The values of the given keys that have one, in the order of the keys.
pub open spec fn present_rows(
    log: Seq<versions::VersionView>,
    table: Seq<char>,
    keys: Seq<Seq<u8>>,
) -> Seq<(Seq<u8>, Seq<u8>)>
    decreases keys.len(),
{
    if keys.len() == 0 {
        Seq::empty()
    } else {
        let head = present_rows(log, table, keys.drop_last());
        match versions::value_at(log, rows::composite(table, keys.last()), u64::MAX) {
            Some(v) => head.push((keys.last(), v)),
            None => head,
        }
    }
}

/// The neighbours of a vertex by key.
pub open spec fn neighbor_keys(g: graph_index::GraphView, list: Seq<(int, Option<Seq<char>>)>) -> Seq<
    (Seq<u8>, Option<Seq<char>>),
>
    decreases list.len(),
{
    if list.len() == 0 {
        Seq::empty()
    } else {
        let head = neighbor_keys(g, list.drop_last());
        if 0 <= list.last().0 < g.keys.len() {
            head.push((g.keys[list.last().0], list.last().1))
        } else {
            head
        }
    }
}

pub open spec fn keyed_views(list: Seq<(Vec<u8>, Option<String>)>) -> Seq<
    (Seq<u8>, Option<Seq<char>>),
> {
    list.map_values(|n: (Vec<u8>, Option<String>)| (n.0@, graph_index::opt_text(n.1)))
}

/// What an algorithm found of vertices, by key instead of number; what it says
/// of an unknown number is left out.
pub open spec fn by_key<T>(g: graph_index::GraphView, list: Seq<(u32, T)>) -> Seq<(Seq<u8>, T)>
    decreases list.len(),
{
    if list.len() == 0 {
        Seq::empty()
    } else {
        let head = by_key(g, list.drop_last());
        if list.last().0 < g.keys.len() {
            head.push((g.keys[list.last().0 as int], list.last().1))
        } else {
            head
        }
    }
}

pub open spec fn marked_views<T>(list: Seq<(Vec<u8>, T)>) -> Seq<(Seq<u8>, T)> {
    list.map_values(|m: (Vec<u8>, T)| (m.0@, m.1))
}

/// What an algorithm says of every vertex, in the order of their numbers.
pub open spec fn per_vertex<T>(g: graph_index::GraphView, marks: Seq<T>) -> Seq<(Seq<u8>, T)> {
    Seq::new(g.keys.len(), |i: int| (g.keys[i], marks[i]))
}

fn keyed<T: Copy>(graph: &AdjacencyGraph, list: &Vec<(u32, T)>) -> (r: Vec<(Vec<u8>, T)>)
    ensures
        marked_views(r@) == by_key(graph@, list@),
{
    let ghost all = list@;
    let mut r: Vec<(Vec<u8>, T)> = Vec::new();
    let mut i: usize = 0;
    assert(all.take(0) =~= Seq::<(u32, T)>::empty());
    assert(marked_views(r@) =~= Seq::<(Seq<u8>, T)>::empty());
    while i < list.len()
        invariant
            all == list@,
            i <= list@.len(),
            marked_views(r@) == by_key(graph@, all.take(i as int)),
        decreases list@.len() - i,
    {
        proof {
            assert(all.take(i + 1).drop_last() =~= all.take(i as int));
            assert(all.take(i + 1).last() == all[i as int]);
        }
        let ghost before = r@;
        match graph.key_of(list[i].0) {
            Some(key) => {
                r.push((copy_bytes(key), list[i].1));
                assert(marked_views(r@) =~= marked_views(before).push(
                    (r@.last().0@, r@.last().1),
                ));
            },
            None => {},
        }
        i += 1;
    }
    assert(all.take(list@.len() as int) =~= all);
    r
}

/// The keys of the vertices of a path; an unknown number is left out.
pub open spec fn path_keys(g: graph_index::GraphView, path: Seq<u32>) -> Seq<Seq<u8>>
    decreases path.len(),
{
    if path.len() == 0 {
        Seq::empty()
    } else if path.last() < g.keys.len() {
        path_keys(g, path.drop_last()).push(g.keys[path.last() as int])
    } else {
        path_keys(g, path.drop_last())
    }
}

fn keys_on(graph: &AdjacencyGraph, path: &Vec<u32>) -> (r: Vec<Vec<u8>>)
    ensures
        be::contents(r@) == path_keys(graph@, path@),
{
    let ghost all = path@;
    let mut r: Vec<Vec<u8>> = Vec::new();
    let mut i: usize = 0;
    assert(all.take(0) =~= Seq::<u32>::empty());
    assert(be::contents(r@) =~= Seq::<Seq<u8>>::empty());
    while i < path.len()
        invariant
            all == path@,
            i <= path@.len(),
            be::contents(r@) == path_keys(graph@, all.take(i as int)),
        decreases path@.len() - i,
    {
        proof {
            assert(all.take(i + 1).drop_last() =~= all.take(i as int));
            assert(all.take(i + 1).last() == all[i as int]);
        }
        let ghost before = r@;
        match graph.key_of(path[i]) {
            Some(key) => {
                r.push(copy_bytes(key));
                assert(be::contents(r@) =~= be::contents(before).push(r@.last()@));
            },
            None => {},
        }
        i += 1;
    }
    assert(all.take(path@.len() as int) =~= all);
    r
}

fn marked<T: Copy>(graph: &AdjacencyGraph, marks: &Vec<T>) -> (r: Vec<(Vec<u8>, T)>)
    requires
        graph@.keys.len() <= marks@.len(),
    ensures
        marked_views(r@) == per_vertex(graph@, marks@),
{
    let keys = graph.all_keys();
    let mut r: Vec<(Vec<u8>, T)> = Vec::new();
    let mut i: usize = 0;
    assert(keys@.len() == graph@.keys.len());
    while i < keys.len()
        invariant
            be::contents(keys@) == graph@.keys,
            keys@.len() == graph@.keys.len() <= marks@.len(),
            i <= keys@.len(),
            marked_views(r@) =~= per_vertex(graph@, marks@).take(i as int),
        decreases keys@.len() - i,
    {
        let ghost before = r@;
        assert(be::contents(keys@)[i as int] == keys@[i as int]@);
        r.push((copy_bytes(keys[i].as_slice()), marks[i]));
        assert(marked_views(r@) =~= marked_views(before).push((r@.last().0@, r@.last().1)));
        i += 1;
    }
    r
}

impl Database {
    /// Whether a column has a B-tree.
    pub fn indexed_column(&self, table: &str, column: &str) -> (r: bool)
        ensures
            r == indexed(self.indexes.trees@, table@, column@),
    {
        find_slot(&self.indexes.trees, table, column).is_some()
    }

    /// Whether a column has a spatial index.
    pub fn indexed_column_spatial(&self, table: &str, column: &str) -> (r: bool)
        ensures
            r == indexed(self.indexes.geos@, table@, column@),
    {
        find_slot(&self.indexes.geos, table, column).is_some()
    }

    /// Whether a column has an adjacency index.
    pub fn indexed_column_graph(&self, table: &str, from_column: &str) -> (r: bool)
        ensures
            r == indexed(self.indexes.graphs@, table@, from_column@),
    {
        find_slot(&self.indexes.graphs, table, from_column).is_some()
    }

    /// Whether a column has a path index.
    pub fn indexed_column_json_path(&self, table: &str, column: &str) -> (r: bool)
        ensures
            r == indexed(self.indexes.paths@, table@, column@),
    {
        find_slot(&self.indexes.paths, table, column).is_some()
    }

    /// Whether a column has a full-text index.
    pub fn indexed_column_fts(&self, table: &str, column: &str) -> (r: bool)
        ensures
            r == indexed(self.indexes.words@, table@, column@),
    {
        find_slot(&self.indexes.words, table, column).is_some()
    }

    /// The columns that have a spatial index.
    pub fn list_spatial_indexes(&self) -> (r: Vec<(String, String)>)
        ensures
            r@.len() == self.indexes.geos@.len(),
            forall|i: int|
                0 <= i < r@.len() ==> (#[trigger] r@[i]).0@ == self.indexes.geos@[i].table@
                    && r@[i].1@ == self.indexes.geos@[i].column@,
    {
        list_slots(&self.indexes.geos)
    }

    /// The columns that have an adjacency index.
    pub fn list_graph_indexes(&self) -> (r: Vec<(String, String)>)
        ensures
            r@.len() == self.indexes.graphs@.len(),
            forall|i: int|
                0 <= i < r@.len() ==> (#[trigger] r@[i]).0@ == self.indexes.graphs@[i].table@
                    && r@[i].1@ == self.indexes.graphs@[i].column@,
    {
        list_slots(&self.indexes.graphs)
    }

    /// The columns that have a path index.
    pub fn list_json_indexes(&self) -> (r: Vec<(String, String)>)
        ensures
            r@.len() == self.indexes.paths@.len(),
            forall|i: int|
                0 <= i < r@.len() ==> (#[trigger] r@[i]).0@ == self.indexes.paths@[i].table@
                    && r@[i].1@ == self.indexes.paths@[i].column@,
    {
        list_slots(&self.indexes.paths)
    }

    /// The columns that have a full-text index.
    pub fn list_fts_indexes(&self) -> (r: Vec<(String, String)>)
        ensures
            r@.len() == self.indexes.words@.len(),
            forall|i: int|
                0 <= i < r@.len() ==> (#[trigger] r@[i]).0@ == self.indexes.words@[i].table@
                    && r@[i].1@ == self.indexes.words@[i].column@,
    {
        list_slots(&self.indexes.words)
    }

    /// The row key under a value in the B-tree on a column; nothing without
    /// such an index.
    pub fn index_lookup(&self, table: &str, column: &str, value: &[u8]) -> (r: Option<
        Result<Option<Vec<u8>>, TreeError>,
    >)
        ensures
            match first_slot(self.indexes.trees@, table@, column@) {
                None => r is None,
                Some(i) => match r {
                    Some(Ok(v)) => self.indexes.trees@[i].index.get(value@) == Ok::<
                        Option<Seq<u8>>,
                        TreeError,
                    >(rowmap::opt_bytes(v)),
                    Some(Err(e)) => self.indexes.trees@[i].index.get(value@) == Err::<
                        Option<Seq<u8>>,
                        TreeError,
                    >(e),
                    None => false,
                },
            },
    {
        proof {
            lemma_first_slot(self.indexes.trees@, table@, column@);
        }
        match find_slot(&self.indexes.trees, table, column) {
            None => None,
            Some(i) => Some(self.indexes.trees[i].index.search(value)),
        }
    }

    /// The rows whose document has a value at the indexed path; nothing
    /// without such an index.
    pub fn json_path_lookup(&self, table: &str, column: &str, value_text: &str) -> (r: Option<
        Vec<Vec<u8>>,
    >)
        requires
            self.wf(),
        ensures
            match first_slot(self.indexes.paths@, table@, column@) {
                None => r is None,
                Some(i) => r matches Some(keys) && be::contents(keys@)
                    == self.indexes.paths@[i].index.rows(value_text@),
            },
    {
        proof {
            lemma_first_slot(self.indexes.paths@, table@, column@);
        }
        match find_slot(&self.indexes.paths, table, column) {
            None => None,
            Some(i) => {
                assert(self.indexes.paths@[i as int].index.wf());
                Some(self.indexes.paths[i].index.lookup(value_text))
            },
        }
    }

    /// The rows whose text holds every word of a query; nothing without such
    /// an index.
    pub fn fts_search(&self, table: &str, column: &str, query: &str) -> (r: Option<Vec<Vec<u8>>>)
        requires
            self.wf(),
        ensures
            match first_slot(self.indexes.words@, table@, column@) {
                None => r is None,
                Some(i) => r matches Some(keys) && found_by_words(
                    self.indexes.words@[i].index,
                    query@,
                    be::contents(keys@),
                ),
            },
    {
        proof {
            lemma_first_slot(self.indexes.words@, table@, column@);
        }
        match find_slot(&self.indexes.words, table, column) {
            None => None,
            Some(i) => {
                assert(self.indexes.words@[i as int].index.wf());
                let keys = self.indexes.words[i].index.search_and(query);
                assert(found_by_words(
                    self.indexes.words@[i as int].index,
                    query@,
                    be::contents(keys@),
                ));
                Some(keys)
            },
        }
    }

    /// The rows whose text holds at least one word of a query with their
    /// scores, the best first, no more than `limit`; nothing without such an
    /// index.
    pub fn fts_search_bm25<F: Fn(&Vec<u8>) -> u64>(
        &self,
        table: &str,
        column: &str,
        query: &str,
        score: F,
        limit: usize,
    ) -> (r: Option<Vec<(Vec<u8>, u64)>>)
        requires
            self.wf(),
            forall|row: &Vec<u8>| call_requires(score, (row,)),
        ensures
            match first_slot(self.indexes.words@, table@, column@) {
                None => r is None,
                Some(i) => r matches Some(rows) && exists|list: Seq<(Vec<u8>, u64)>| #[trigger]
                    self.indexes.words@[i].index.scored(query@, score, list) && rows@
                        == canopy_index::first_of(ranking::best_first(list), limit as nat),
            },
    {
        proof {
            lemma_first_slot(self.indexes.words@, table@, column@);
        }
        match find_slot(&self.indexes.words, table, column) {
            None => None,
            Some(i) => {
                assert(self.indexes.words@[i as int].index.wf());
                Some(self.indexes.words[i].index.search_bm25(query, score, limit))
            },
        }
    }

    /// The adjacency index on a column.
    pub open spec fn graph_on(&self, table: Seq<char>, from_column: Seq<char>) -> Option<
        graph_index::GraphView,
    > {
        match first_slot(self.indexes.graphs@, table, from_column) {
            Some(i) => Some(self.indexes.graphs@[i].index.adjacency()),
            None => None,
        }
    }

    /// The vertices that an adjacency index knows; nothing without such an
    /// index.
    pub fn graph_all_vertices(&self, table: &str, from_column: &str) -> (r: Option<Vec<Vec<u8>>>)
        ensures
            match self.graph_on(table@, from_column@) {
                None => r is None,
                Some(g) => r matches Some(keys) && be::contents(keys@) == g.keys,
            },
    {
        proof {
            lemma_first_slot(self.indexes.graphs@, table@, from_column@);
        }
        match find_slot(&self.indexes.graphs, table, from_column) {
            None => None,
            Some(i) => Some(self.indexes.graphs[i].index.graph().all_keys()),
        }
    }

    /// The neighbours of a vertex, with the types of the edges; nothing
    /// without such an index, or where it does not know the vertex.
    pub fn graph_neighbors(
        &self,
        table: &str,
        from_column: &str,
        vertex_key: &[u8],
        dir: Direction,
    ) -> (r: Option<Vec<(Vec<u8>, Option<String>)>>)
        ensures
            match self.graph_on(table@, from_column@) {
                None => r is None,
                Some(g) => neighbors_found(g, vertex_key@, dir, r),
            },
    {
        proof {
            lemma_first_slot(self.indexes.graphs@, table@, from_column@);
        }
        match find_slot(&self.indexes.graphs, table, from_column) {
            None => None,
            Some(i) => {
                let graph = self.indexes.graphs[i].index.graph();
                let ghost g = graph@;
                match graph.id_of(vertex_key) {
                    None => {
                        let r: Option<Vec<(Vec<u8>, Option<String>)>> = None;
                        assert(neighbors_found(g, vertex_key@, dir, r));
                        r
                    },
                    Some(id) => {
                        let list = graph.neighbors(id, dir);
                        let ghost all = graph_index::neighbor_views(list@);
                        let mut out: Vec<(Vec<u8>, Option<String>)> = Vec::new();
                        let mut k: usize = 0;
                        assert(all.take(0) =~= Seq::<(int, Option<Seq<char>>)>::empty());
                        assert(keyed_views(out@) =~= Seq::<(Seq<u8>, Option<Seq<char>>)>::empty());
                        while k < list.len()
                            invariant
                                g == graph@,
                                all == graph_index::neighbor_views(list@),
                                k <= list@.len(),
                                keyed_views(out@) == neighbor_keys(g, all.take(k as int)),
                            decreases list@.len() - k,
                        {
                            proof {
                                assert(all.take(k + 1).drop_last() =~= all.take(k as int));
                                assert(all.take(k + 1).last() == all[k as int]);
                            }
                            let ghost now = out@;
                            match graph.key_of(list[k].0) {
                                Some(key) => {
                                    out.push((copy_bytes(key), copy_opt(&list[k].1)));
                                    assert(keyed_views(out@) =~= keyed_views(now).push(
                                        (out@.last().0@, graph_index::opt_text(out@.last().1)),
                                    ));
                                },
                                None => {},
                            }
                            k += 1;
                        }
                        assert(all.take(list@.len() as int) =~= all);
                        let r = Some(out);
                        assert(neighbors_found(g, vertex_key@, dir, r));
                        r
                    },
                }
            },
        }
    }

    /// The number that a vertex has in an adjacency index, from which an
    /// algorithm can start; nothing without such an index, or where it does not
    /// know the vertex.
    pub fn graph_vertex(&self, table: &str, from_column: &str, vertex_key: &[u8]) -> (r: Option<u32>)
        ensures
            match self.graph_on(table@, from_column@) {
                None => r is None,
                Some(g) => match graph_index::id_in(g.keys, vertex_key@) {
                    None => r is None,
                    Some(id) => r matches Some(x) && x == id,
                },
            },
    {
        proof {
            lemma_first_slot(self.indexes.graphs@, table@, from_column@);
        }
        match find_slot(&self.indexes.graphs, table, from_column) {
            None => None,
            Some(i) => self.indexes.graphs[i].index.graph().id_of(vertex_key),
        }
    }

    /// The vertices that a breadth-first traversal from a vertex reached, each
    /// with its depth; nothing without an index, or where it does not know the
    /// vertex.
    pub fn graph_bfs(
        &self,
        table: &str,
        from_column: &str,
        start_key: &[u8],
        reached: &Vec<(u32, usize)>,
    ) -> (r: Option<Vec<(Vec<u8>, usize)>>)
        ensures
            match self.graph_on(table@, from_column@) {
                Some(g) if graph_index::id_in(g.keys, start_key@) is Some => r matches Some(list)
                    && marked_views(list@) == by_key(g, reached@),
                _ => r is None,
            },
    {
        if self.graph_vertex(table, from_column, start_key).is_none() {
            return None;
        }
        proof {
            lemma_first_slot(self.indexes.graphs@, table@, from_column@);
        }
        match find_slot(&self.indexes.graphs, table, from_column) {
            None => None,
            Some(i) => Some(keyed(self.indexes.graphs[i].index.graph(), reached)),
        }
    }

    /// The vertices of the shortest path that was found between two vertices,
    /// if there is one; nothing without an index, or where it does not know
    /// both.
    pub fn graph_shortest_path(
        &self,
        table: &str,
        from_column: &str,
        start_key: &[u8],
        end_key: &[u8],
        path: &Option<Vec<u32>>,
    ) -> (r: Option<Option<Vec<Vec<u8>>>>)
        ensures
            match self.graph_on(table@, from_column@) {
                Some(g) if graph_index::id_in(g.keys, start_key@) is Some && graph_index::id_in(
                    g.keys,
                    end_key@,
                ) is Some => match path {
                    Some(p) => r matches Some(Some(keys)) && be::contents(keys@) == path_keys(g, p@),
                    None => r matches Some(None),
                },
                _ => r is None,
            },
    {
        if self.graph_vertex(table, from_column, start_key).is_none() || self.graph_vertex(
            table,
            from_column,
            end_key,
        ).is_none() {
            return None;
        }
        proof {
            lemma_first_slot(self.indexes.graphs@, table@, from_column@);
        }
        match find_slot(&self.indexes.graphs, table, from_column) {
            None => None,
            Some(i) => match path {
                Some(p) => Some(Some(keys_on(self.indexes.graphs[i].index.graph(), p))),
                None => Some(None),
            },
        }
    }

    /// The number of the component of every vertex; nothing without an index.
    pub fn graph_connected_components(
        &self,
        table: &str,
        from_column: &str,
        components: &Vec<u32>,
    ) -> (r: Option<Vec<(Vec<u8>, u32)>>)
        requires
            self.graph_on(table@, from_column@) matches Some(g) ==> g.keys.len()
                <= components@.len(),
        ensures
            match self.graph_on(table@, from_column@) {
                Some(g) => r matches Some(list) && marked_views(list@) == per_vertex(
                    g,
                    components@,
                ),
                None => r is None,
            },
    {
        proof {
            lemma_first_slot(self.indexes.graphs@, table@, from_column@);
        }
        match find_slot(&self.indexes.graphs, table, from_column) {
            None => None,
            Some(i) => Some(marked(self.indexes.graphs[i].index.graph(), components)),
        }
    }

    /// The score of every vertex, each given by the bits of a floating-point
    /// number; nothing without an index.
    pub fn graph_pagerank(&self, table: &str, from_column: &str, scores: &Vec<u64>) -> (r: Option<
        Vec<(Vec<u8>, u64)>,
    >)
        requires
            self.graph_on(table@, from_column@) matches Some(g) ==> g.keys.len() <= scores@.len(),
        ensures
            match self.graph_on(table@, from_column@) {
                Some(g) => r matches Some(list) && marked_views(list@) == per_vertex(g, scores@),
                None => r is None,
            },
    {
        proof {
            lemma_first_slot(self.indexes.graphs@, table@, from_column@);
        }
        match find_slot(&self.indexes.graphs, table, from_column) {
            None => None,
            Some(i) => Some(marked(self.indexes.graphs[i].index.graph(), scores)),
        }
    }

    /// The number of triangles of every vertex; nothing without an index.
    pub fn graph_triangle_count(&self, table: &str, from_column: &str, counts: &Vec<u64>) -> (r:
        Option<Vec<(Vec<u8>, u64)>>)
        requires
            self.graph_on(table@, from_column@) matches Some(g) ==> g.keys.len() <= counts@.len(),
        ensures
            match self.graph_on(table@, from_column@) {
                Some(g) => r matches Some(list) && marked_views(list@) == per_vertex(g, counts@),
                None => r is None,
            },
    {
        proof {
            lemma_first_slot(self.indexes.graphs@, table@, from_column@);
        }
        match find_slot(&self.indexes.graphs, table, from_column) {
            None => None,
            Some(i) => Some(marked(self.indexes.graphs[i].index.graph(), counts)),
        }
    }

    /// The rows of the given keys, those that are there.
    pub fn rows_by_keys(&self, table: &str, keys: &Vec<Vec<u8>>) -> (r: Vec<KeyValue>)
        ensures
            engine::pair_views(r@) == present_rows(
                self.store@.log,
                table@,
                be::contents(keys@),
            ),
    {
        let ghost all = be::contents(keys@);
        let mut r: Vec<KeyValue> = Vec::new();
        let mut i: usize = 0;
        assert(all.take(0) =~= Seq::<Seq<u8>>::empty());
        assert(engine::pair_views(r@) =~= Seq::<(Seq<u8>, Seq<u8>)>::empty());
        while i < keys.len()
            invariant
                all == be::contents(keys@),
                i <= keys@.len(),
                engine::pair_views(r@) == present_rows(
                    self.store@.log,
                    table@,
                    all.take(i as int),
                ),
            decreases keys@.len() - i,
        {
            proof {
                assert(all.take(i + 1).drop_last() =~= all.take(i as int));
                assert(all.take(i + 1).last() == all[i as int]);
            }
            let ghost now = r@;
            match self.read(table, keys[i].as_slice()) {
                Some(value) => {
                    r.push(KeyValue { key: copy_bytes(keys[i].as_slice()), value });
                    assert(engine::pair_views(r@) =~= engine::pair_views(now).push(
                        (r@.last().key@, r@.last().value@),
                    ));
                },
                None => {},
            }
            i += 1;
        }
        assert(all.take(keys@.len() as int) =~= all);
        r
    }

    /// The rows that the spatial index on a column finds in several cells, in a
    /// span of time and within a radius, those that are there; nothing without
    /// such an index.
    pub fn spatial_query<F: Fn(&GeoEntry) -> u64>(
        &self,
        table: &str,
        column: &str,
        asked: &Vec<u64>,
        distance: F,
        radius: u64,
        span: Option<(i64, i64)>,
    ) -> (r: Option<Vec<KeyValue>>)
        requires
            forall|e: &GeoEntry| call_requires(distance, (e,)),
        ensures
            match first_slot(self.indexes.geos@, table@, column@) {
                None => r is None,
                Some(i) => r matches Some(list) && exists|keys: Seq<Seq<u8>>| #[trigger]
                    geo_index::in_radius(
                        self.indexes.geos@[i].index@,
                        asked@,
                        distance,
                        radius,
                        span,
                        keys,
                    ) && engine::pair_views(list@) == present_rows(self.store@.log, table@, keys),
            },
    {
        proof {
            lemma_first_slot(self.indexes.geos@, table@, column@);
        }
        match find_slot(&self.indexes.geos, table, column) {
            None => None,
            Some(i) => {
                let keys = self.indexes.geos[i].index.query_radius(asked, distance, radius, span);
                Some(self.rows_by_keys(table, &keys))
            },
        }
    }

    /// Puts a row that lies in a cell into the spatial index on a column.
    /// Nothing happens without such an index.
    pub fn index_place(&mut self, table: &str, column: &str, cell: u64, entry: GeoEntry) -> (done:
        bool)
        requires
            old(self).wf(),
        ensures
            final(self).wf(),
            catalog::same_places(final(self).indexes.geos@, old(self).indexes.geos@),
            *final(self) == (Database {
                indexes: Indexes {
                    geos: final(self).indexes.geos,
                    ..old(self).indexes
                },
                ..*old(self)
            }),
            match first_slot(old(self).indexes.geos@, table@, column@) {
                Some(i) => {
                    let before = old(self).indexes.geos@[i].index@;
                    &&& done
                    &&& final(self).indexes.geos@[i].index@ == geo_index::with_entry(
                        before,
                        cell,
                        entry@,
                    )
                    &&& final(self).indexes.geos@[i].index.grid() == old(
                        self,
                    ).indexes.geos@[i].index.grid()
                    &&& forall|j: int|
                        0 <= j < old(self).indexes.geos@.len() && j != i ==> (
                        #[trigger] final(self).indexes.geos@[j]) == old(self).indexes.geos@[j]
                },
                None => !done && *final(self) == *old(self),
            },
    {
        proof {
            lemma_first_slot(self.indexes.geos@, table@, column@);
        }
        match find_slot(&self.indexes.geos, table, column) {
            None => false,
            Some(i) => {
                self.indexes.geos[i].index.insert(cell, entry);
                true
            },
        }
    }

    /// Puts the time and value of a row into the time index on a column.
    /// Nothing happens without such an index, or where it has no bucket for
    /// that time.
    pub fn index_time(&mut self, table: &str, column: &str, key: &[u8], ts: i64, value: u64) -> (
        done: bool)
        requires
            old(self).wf(),
        ensures
            final(self).wf(),
            catalog::same_places(final(self).indexes.times@, old(self).indexes.times@),
            *final(self) == (Database {
                indexes: Indexes {
                    times: final(self).indexes.times,
                    ..old(self).indexes
                },
                ..*old(self)
            }),
            match first_slot(old(self).indexes.times@, table@, column@) {
                Some(i) => {
                    &&& done == old(self).indexes.times@[i].index.accepts(ts, true)
                    &&& final(self).indexes.times@[i].index@ == (if done {
                        ts_index::applied(
                            old(self).indexes.times@[i].index@,
                            ts_index::EntryView { row_key: key@, ts, value },
                            true,
                        )
                    } else {
                        old(self).indexes.times@[i].index@
                    })
                    &&& forall|j: int|
                        0 <= j < old(self).indexes.times@.len() && j != i ==> (
                        #[trigger] final(self).indexes.times@[j]) == old(self).indexes.times@[j]
                },
                None => !done && *final(self) == *old(self),
            },
    {
        match find_slot(&self.indexes.times, table, column) {
            None => {
                proof {
                    lemma_first_slot(self.indexes.times@, table@, column@);
                }
                false
            },
            Some(i) => {
                proof {
                    lemma_first_slot(self.indexes.times@, table@, column@);
                    assert(self.indexes.times@[i as int].index.wf());
                }
                let ghost before = self.indexes.times@;
                if !self.indexes.times[i].index.can_accept(ts, true) {
                    return false;
                }
                self.indexes.times[i].index.insert(key, ts, value);
                assert forall|k: int| 0 <= k < before.len() && k != i implies (
                #[trigger] self.indexes.times@[k]) == before[k] by {}
                assert forall|k: int| 0 <= k < self.indexes.times@.len() implies (
                #[trigger] self.indexes.times@[k]).index.wf() by {
                    if k != i {
                        assert(before[k].index.wf());
                    }
                }
                true
            },
        }
    }
}

/// The first index of a list on a column.
pub open spec fn first_slot<I>(slots: Seq<Slot<I>>, table: Seq<char>, column: Seq<char>) -> Option<
    int,
>
    decreases slots.len(),
{
    if slots.len() == 0 {
        None
    } else {
        match first_slot(slots.drop_last(), table, column) {
            Some(i) => Some(i),
            None => if slots.last().table@ == table && slots.last().column@ == column {
                Some(slots.len() - 1)
            } else {
                None
            },
        }
    }
}

pub proof fn lemma_first_slot<I>(slots: Seq<Slot<I>>, table: Seq<char>, column: Seq<char>)
    ensures
        match first_slot(slots, table, column) {
            Some(i) => catalog::slot_for(slots, i, table, column) && forall|j: int|
                0 <= j < i ==> !#[trigger] catalog::slot_for(slots, j, table, column),
            None => forall|j: int| !#[trigger] catalog::slot_for(slots, j, table, column),
        },
    decreases slots.len(),
{
    if slots.len() > 0 {
        let head = slots.drop_last();
        lemma_first_slot(head, table, column);
        assert forall|j: int| 0 <= j < slots.len() - 1 implies (#[trigger] catalog::slot_for(
            slots,
            j,
            table,
            column,
        )) == catalog::slot_for(head, j, table, column) by {}
        match first_slot(head, table, column) {
            Some(i) => {
                assert(catalog::slot_for(slots, i, table, column));
            },
            None => {
                assert forall|j: int|
                    catalog::slot_for(slots, j, table, column) implies j == slots.len() - 1 by {
                    if j < slots.len() - 1 {
                        assert(catalog::slot_for(head, j, table, column));
                    }
                }
            },
        }
    }
}

/// Whether `keys` are the rows that hold every word of a query.
pub open spec fn found_by_words(
    index: canopy_index::FtsIndex,
    query: Seq<char>,
    keys: Seq<Seq<u8>>,
) -> bool {
    &&& keys.no_duplicates()
    &&& forall|row: Seq<u8>|
        keys.contains(row) <==> canopy_index::words(query).len() > 0 && index.holds_all(
            canopy_index::words(query),
            row,
        )
}

/// Whether `r` are the neighbours of a vertex of a graph, by key.
pub open spec fn neighbors_found(
    g: graph_index::GraphView,
    key: Seq<u8>,
    dir: Direction,
    r: Option<Vec<(Vec<u8>, Option<String>)>>,
) -> bool {
    match graph_index::id_in(g.keys, key) {
        None => r is None,
        Some(id) => r matches Some(list) && keyed_views(list@) == neighbor_keys(
            g,
            graph_index::neighbors_in(g.edges, id, dir),
        ),
    }
}

/// The index on a column is the first of its kind there.
pub proof fn law_first_index_on_a_column_answers<I>(
    slots: Seq<Slot<I>>,
    table: Seq<char>,
    column: Seq<char>,
)
    ensures
        match first_slot(slots, table, column) {
            Some(i) => 0 <= i < slots.len() && slots[i].table@ == table && slots[i].column@ == column
                && forall|j: int|
                0 <= j < i ==> (#[trigger] slots[j]).table@ != table || slots[j].column@ != column,
            None => forall|j: int|
                0 <= j < slots.len() ==> (#[trigger] slots[j]).table@ != table || slots[j].column@
                    != column,
        },
    decreases slots.len(),
{
    if slots.len() > 0 {
        let head = slots.drop_last();
        law_first_index_on_a_column_answers(head, table, column);
        assert forall|j: int| 0 <= j < head.len() implies #[trigger] slots[j] == head[j] by {}
        assert(slots[slots.len() - 1] == slots.last());
    }
}

/// Rows asked for by their keys are those that are there, with their values, in
/// the order of the keys.
pub proof fn law_rows_are_given_by_their_keys(
    log: Seq<versions::VersionView>,
    table: Seq<char>,
    keys: Seq<Seq<u8>>,
    key: Seq<u8>,
    value: Seq<u8>,
)
    ensures
        present_rows(log, table, keys).contains((key, value)) <==> keys.contains(key)
            && versions::value_at(log, rows::composite(table, key), u64::MAX) == Some(value),
        (forall|i: int|
            0 <= i < keys.len() ==> versions::value_at(
                log,
                rows::composite(table, #[trigger] keys[i]),
                u64::MAX,
            ) is Some) ==> present_rows(log, table, keys).len() == keys.len() && forall|i: int|
            0 <= i < keys.len() ==> (#[trigger] present_rows(log, table, keys)[i]).0 == keys[i],
    decreases keys.len(),
{
    if keys.len() > 0 {
        let head = keys.drop_last();
        let n = keys.len() - 1;
        law_rows_are_given_by_their_keys(log, table, head, key, value);
        let before = present_rows(log, table, head);
        let all = present_rows(log, table, keys);
        let x = (key, value);
        assert(keys[n] == keys.last());
        assert forall|i: int| 0 <= i < n implies #[trigger] keys[i] == head[i] by {}
        if before.contains(x) {
            let k = choose|k: int| 0 <= k < before.len() && before[k] == x;
            assert(all[k] == x);
        }
        if all.contains(x) {
            let k = choose|k: int| 0 <= k < all.len() && all[k] == x;
            if k < before.len() {
                assert(before[k] == x);
                let j = choose|j: int| 0 <= j < head.len() && head[j] == key;
                assert(keys[j] == key);
            }
        }
        if keys.contains(key) {
            let j = choose|j: int| 0 <= j < keys.len() && keys[j] == key;
            if j < n {
                assert(head[j] == key);
            }
        }
        if keys.last() == key && versions::value_at(log, rows::composite(table, key), u64::MAX)
            == Some(value) {
            assert(all[before.len() as int] == x);
        }
        if forall|i: int|
            0 <= i < keys.len() ==> versions::value_at(
                log,
                rows::composite(table, #[trigger] keys[i]),
                u64::MAX,
            ) is Some {
            assert forall|i: int| 0 <= i < head.len() implies versions::value_at(
                log,
                rows::composite(table, #[trigger] head[i]),
                u64::MAX,
            ) is Some by {
                assert(keys[i] == head[i]);
            }
            assert forall|i: int| 0 <= i < keys.len() implies (#[trigger] all[i]).0 == keys[i] by {
                if i < n {
                    assert(before[i].0 == head[i]);
                }
            }
        }
    }
}

proof fn lemma_neighbor_keys(
    g: graph_index::GraphView,
    list: Seq<(int, Option<Seq<char>>)>,
    key: Seq<u8>,
    rel: Option<Seq<char>>,
)
    ensures
        neighbor_keys(g, list).contains((key, rel)) <==> exists|u: int|
            0 <= u < g.keys.len() && #[trigger] g.keys[u] == key && list.contains((u, rel)),
    decreases list.len(),
{
    if list.len() > 0 {
        let head = list.drop_last();
        lemma_neighbor_keys(g, head, key, rel);
        let before = neighbor_keys(g, head);
        let all = neighbor_keys(g, list);
        let x = (key, rel);
        let last = list.last();
        assert(list[list.len() - 1] == last);
        if before.contains(x) {
            let k = choose|k: int| 0 <= k < before.len() && before[k] == x;
            assert(all[k] == x);
            let u = choose|u: int|
                0 <= u < g.keys.len() && #[trigger] g.keys[u] == key && head.contains((u, rel));
            let j = choose|j: int| 0 <= j < head.len() && head[j] == (u, rel);
            assert(list[j] == (u, rel));
            assert(g.keys[u] == key);
        }
        if all.contains(x) {
            let k = choose|k: int| 0 <= k < all.len() && all[k] == x;
            if k < before.len() {
                assert(before[k] == x);
            } else {
                assert(g.keys[last.0] == key);
                assert(list.contains((last.0, rel)));
            }
        }
        if exists|u: int|
            0 <= u < g.keys.len() && #[trigger] g.keys[u] == key && list.contains((u, rel)) {
            let u = choose|u: int|
                0 <= u < g.keys.len() && #[trigger] g.keys[u] == key && list.contains((u, rel));
            let j = choose|j: int| 0 <= j < list.len() && list[j] == (u, rel);
            if j < head.len() {
                assert(head[j] == (u, rel));
            } else {
                assert(all[before.len() as int] == x);
            }
        }
    }
}

/// The neighbours that a vertex is asked for are the keys at the other ends of its
/// edges, in the direction asked, with the types of the edges.
pub proof fn law_neighbors_are_told_by_their_keys(
    g: graph_index::GraphView,
    v: int,
    dir: Direction,
    list: Vec<(Vec<u8>, Option<String>)>,
    key: Seq<u8>,
    rel: Option<Seq<char>>,
)
    requires
        g.keys.no_duplicates(),
        0 <= v < g.keys.len(),
        neighbors_found(g, g.keys[v], dir, Some(list)),
    ensures
        keyed_views(list@).contains((key, rel)) <==> exists|i: int, u: int|
            0 <= i < g.edges.len() && 0 <= u < g.keys.len() && #[trigger] g.keys[u] == key && (
            #[trigger] g.edges[i]).rel_type == rel && match dir {
                Direction::Out => g.edges[i].from == v && g.edges[i].to == u,
                Direction::In => g.edges[i].to == v && g.edges[i].from == u,
                Direction::Both => g.edges[i].from == v && g.edges[i].to == u || g.edges[i].to == v
                    && g.edges[i].from == u,
            },
{
    graph_index::lemma_id(g.keys, g.keys[v]);
    let id = graph_index::id_in(g.keys, g.keys[v])->0;
    assert(id == v);
    let near = graph_index::neighbors_in(g.edges, v, dir);
    lemma_neighbor_keys(g, near, key, rel);
    if keyed_views(list@).contains((key, rel)) {
        let u = choose|u: int|
            0 <= u < g.keys.len() && #[trigger] g.keys[u] == key && near.contains((u, rel));
        graph_index::law_neighbors_are_the_other_ends(g.edges, v, dir, u, rel);
        assert(g.keys[u] == key);
    }
    if exists|i: int, u: int|
        0 <= i < g.edges.len() && 0 <= u < g.keys.len() && #[trigger] g.keys[u] == key && (
        #[trigger] g.edges[i]).rel_type == rel && match dir {
            Direction::Out => g.edges[i].from == v && g.edges[i].to == u,
            Direction::In => g.edges[i].to == v && g.edges[i].from == u,
            Direction::Both => g.edges[i].from == v && g.edges[i].to == u || g.edges[i].to == v
                && g.edges[i].from == u,
        } {
        let (i, u) = choose|i: int, u: int|
            0 <= i < g.edges.len() && 0 <= u < g.keys.len() && #[trigger] g.keys[u] == key && (
            #[trigger] g.edges[i]).rel_type == rel && match dir {
                Direction::Out => g.edges[i].from == v && g.edges[i].to == u,
                Direction::In => g.edges[i].to == v && g.edges[i].from == u,
                Direction::Both => g.edges[i].from == v && g.edges[i].to == u || g.edges[i].to == v
                    && g.edges[i].from == u,
            };
        graph_index::law_neighbors_are_the_other_ends(g.edges, v, dir, u, rel);
    }
}

/// What is known of vertices by their numbers is told by their keys, in the same
/// order.
pub proof fn law_vertices_are_told_by_their_keys<T>(
    g: graph_index::GraphView,
    list: Seq<(u32, T)>,
    path: Seq<u32>,
)
    requires
        forall|i: int| 0 <= i < list.len() ==> (#[trigger] list[i]).0 < g.keys.len(),
        forall|i: int| 0 <= i < path.len() ==> (#[trigger] path[i]) < g.keys.len(),
    ensures
        by_key(g, list).len() == list.len(),
        forall|i: int|
            0 <= i < list.len() ==> #[trigger] by_key(g, list)[i] == (
                g.keys[list[i].0 as int],
                list[i].1,
            ),
        path_keys(g, path).len() == path.len(),
        forall|i: int|
            0 <= i < path.len() ==> #[trigger] path_keys(g, path)[i] == g.keys[path[i] as int],
    decreases list.len() + path.len(),
{
    let none_list = Seq::<(u32, T)>::empty();
    let none_path = Seq::<u32>::empty();
    if list.len() > 0 {
        let head = list.drop_last();
        assert(list[list.len() - 1].0 < g.keys.len());
        assert forall|i: int| 0 <= i < head.len() implies (#[trigger] head[i]).0
            < g.keys.len() by {
            assert(list[i].0 < g.keys.len());
        }
        law_vertices_are_told_by_their_keys(g, head, path);
        assert forall|i: int| 0 <= i < list.len() implies #[trigger] by_key(g, list)[i] == (
            g.keys[list[i].0 as int],
            list[i].1,
        ) by {
            if i < head.len() {
                assert(by_key(g, head)[i] == (g.keys[head[i].0 as int], head[i].1));
            }
        }
    } else if path.len() > 0 {
        let head = path.drop_last();
        assert(path[path.len() - 1] < g.keys.len());
        assert forall|i: int| 0 <= i < head.len() implies (#[trigger] head[i]) < g.keys.len() by {
            assert(path[i] < g.keys.len());
        }
        law_vertices_are_told_by_their_keys(g, list, head);
        assert forall|i: int| 0 <= i < path.len() implies #[trigger] path_keys(g, path)[i]
            == g.keys[path[i] as int] by {
            if i < head.len() {
                assert(path_keys(g, head)[i] == g.keys[head[i] as int]);
            }
        }
    }
}

} // verus!
