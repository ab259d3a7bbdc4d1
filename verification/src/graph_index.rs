//! An adjacency index over a table of edges.

use vstd::prelude::*;
use vstd::string::*;
use vstd::utf8::*;

use crate::be;
use crate::be::{copy_range, field_range, put_prefixed, same_bytes};
use crate::framed;
use crate::framed::split_records;
use crate::text;
use crate::text::text_strict;

verus! {

/// Which edges of a vertex are followed.
#[derive(Debug, Clone, Copy, PartialEq, Eq, Structural)]
pub enum Direction {
    Out,
    In,
    Both,
}

/// An edge between two vertices.
pub struct Edge {
    pub from: u32,
    pub to: u32,
    pub rel_type: Option<String>,
}

/// An edge as a mathematical value.
pub struct EdgeView {
    pub from: int,
    pub to: int,
    pub rel_type: Option<Seq<char>>,
}

/// The view of an optional text.
pub open spec fn opt_text(t: Option<String>) -> Option<Seq<char>> {
    match t {
        Some(s) => Some(s@),
        None => None,
    }
}

/// A copy of an optional text.
pub fn copy_opt(t: &Option<String>) -> (r: Option<String>)
    ensures
        opt_text(r) == opt_text(*t),
{
    match t {
        Some(s) => Some(s.clone()),
        None => None,
    }
}

impl View for Edge {
    type V = EdgeView;

    open spec fn view(&self) -> EdgeView {
        EdgeView { from: self.from as int, to: self.to as int, rel_type: opt_text(self.rel_type) }
    }
}

/// Vertices, numbered in the order in which they were first met, and the edges
/// between them in the order in which they were added.
pub struct GraphView {
    pub keys: Seq<Seq<u8>>,
    pub edges: Seq<EdgeView>,
}

/// The number of a vertex.
pub open spec fn id_in(keys: Seq<Seq<u8>>, key: Seq<u8>) -> Option<int>
    decreases keys.len(),
{
    if keys.len() == 0 {
        None
    } else {
        match id_in(keys.drop_last(), key) {
            Some(i) => Some(i),
            None => if keys.last() == key {
                Some(keys.len() - 1)
            } else {
                None
            },
        }
    }
}

/// The vertices once `key` is among them.
pub open spec fn with_key(keys: Seq<Seq<u8>>, key: Seq<u8>) -> Seq<Seq<u8>> {
    if id_in(keys, key) is Some {
        keys
    } else {
        keys.push(key)
    }
}

impl GraphView {
    pub open spec fn empty() -> GraphView {
        GraphView { keys: Seq::empty(), edges: Seq::empty() }
    }

    /// The graph with one more edge.
    pub open spec fn with_edge(
        self,
        from: Seq<u8>,
        to: Seq<u8>,
        rel_type: Option<Seq<char>>,
    ) -> GraphView {
        let keys = with_key(with_key(self.keys, from), to);
        GraphView {
            keys,
            edges: self.edges.push(
                EdgeView { from: id_in(keys, from)->0, to: id_in(keys, to)->0, rel_type },
            ),
        }
    }
}

/// What vertex `v` reaches over one edge in a direction.
pub open spec fn reached(e: EdgeView, v: int, dir: Direction) -> Seq<(int, Option<Seq<char>>)> {
    let out: Seq<(int, Option<Seq<char>>)> = if dir != Direction::In && e.from == v {
        seq![(e.to, e.rel_type)]
    } else {
        Seq::empty()
    };
    let back: Seq<(int, Option<Seq<char>>)> = if dir != Direction::Out && e.to == v {
        seq![(e.from, e.rel_type)]
    } else {
        Seq::empty()
    };
    out + back
}

/// The neighbours of a vertex, edge by edge.
pub open spec fn neighbors_in(edges: Seq<EdgeView>, v: int, dir: Direction) -> Seq<
    (int, Option<Seq<char>>),
>
    decreases edges.len(),
{
    if edges.len() == 0 {
        Seq::empty()
    } else {
        neighbors_in(edges.drop_last(), v, dir) + reached(edges.last(), v, dir)
    }
}

/// A vertex that has a number is at it, and no number below it has its key.
pub proof fn lemma_id(keys: Seq<Seq<u8>>, key: Seq<u8>)
    ensures
        match id_in(keys, key) {
            Some(i) => 0 <= i < keys.len() && keys[i] == key && forall|j: int|
                0 <= j < i ==> keys[j] != key,
            None => forall|j: int| 0 <= j < keys.len() ==> keys[j] != key,
        },
    decreases keys.len(),
{
    if keys.len() > 0 {
        lemma_id(keys.drop_last(), key);
        assert forall|j: int| 0 <= j < keys.len() - 1 implies keys[j] == keys.drop_last()[j] by {}
    }
}

/// Adding a vertex keeps the numbers of those that are there.
pub proof fn lemma_with_key(keys: Seq<Seq<u8>>, key: Seq<u8>, other: Seq<u8>)
    ensures
        id_in(with_key(keys, key), key) is Some,
        id_in(keys, other) is Some ==> id_in(with_key(keys, key), other) == id_in(keys, other),
{
    assert(keys.push(key).drop_last() =~= keys);
}

/// The views of edges.
pub open spec fn edge_views(edges: Seq<Edge>) -> Seq<EdgeView> {
    edges.map_values(|e: Edge| e@)
}

/// The views of neighbours.
pub open spec fn neighbor_views(list: Seq<(u32, Option<String>)>) -> Seq<
    (int, Option<Seq<char>>),
> {
    list.map_values(|n: (u32, Option<String>)| (n.0 as int, opt_text(n.1)))
}

/// The graph in memory.
pub struct AdjacencyGraph {
    keys: Vec<Vec<u8>>,
    edges: Vec<Edge>,
}

impl View for AdjacencyGraph {
    type V = GraphView;

    closed spec fn view(&self) -> GraphView {
        GraphView { keys: be::contents(self.keys@), edges: edge_views(self.edges@) }
    }
}

impl AdjacencyGraph {
    /// Every vertex has a number.
    #[verifier::type_invariant]
    spec fn numbered(&self) -> bool {
        self.keys@.len() <= u32::MAX
    }

    /// A graph without vertices.
    pub fn new() -> (g: AdjacencyGraph)
        ensures
            g@ == GraphView::empty(),
    {
        let g = AdjacencyGraph { keys: Vec::new(), edges: Vec::new() };
        assert(g@.keys =~= GraphView::empty().keys);
        assert(g@.edges =~= GraphView::empty().edges);
        g
    }

    /// The number of a vertex.
    pub fn id_of(&self, key: &[u8]) -> (r: Option<u32>)
        ensures
            match r {
                Some(id) => id_in(self@.keys, key@) == Some(id as int),
                None => id_in(self@.keys, key@) is None,
            },
    {
        proof {
            use_type_invariant(self);
        }
        let ghost all = self@.keys;
        let mut i: usize = 0;
        while i < self.keys.len()
            invariant
                all == self@.keys,
                all.len() <= u32::MAX,
                i <= self.keys@.len(),
                forall|k: int| 0 <= k < i ==> all[k] != key@,
            decreases self.keys@.len() - i,
        {
            if same_bytes(self.keys[i].as_slice(), key) {
                proof {
                    lemma_id(all, key@);
                    assert(all[i as int] == key@);
                }
                return Some(i as u32);
            }
            i += 1;
        }
        proof {
            lemma_id(all, key@);
        }
        None
    }

    /// The key of a vertex.
    pub fn key_of(&self, id: u32) -> (r: Option<&[u8]>)
        ensures
            match r {
                Some(key) => id < self@.keys.len() && key@ == self@.keys[id as int],
                None => id >= self@.keys.len(),
            },
    {
        if (id as u64) < self.keys.len() as u64 {
            Some(self.keys[id as usize].as_slice())
        } else {
            None
        }
    }

    /// The number of vertices; their numbers are those below it.
    pub fn vertex_count(&self) -> (n: usize)
        ensures
            n == self@.keys.len(),
    {
        self.keys.len()
    }

    /// The keys of all vertices, in the order of their numbers.
    pub fn all_keys(&self) -> (keys: Vec<Vec<u8>>)
        ensures
            be::contents(keys@) == self@.keys,
    {
        crate::canopy_index::copy_rows(&self.keys)
    }

    fn intern(&mut self, key: &[u8]) -> (id: u32)
        requires
            old(self)@.keys.len() < u32::MAX,
        ensures
            final(self)@.keys == with_key(old(self)@.keys, key@),
            final(self)@.edges == old(self)@.edges,
            id_in(final(self)@.keys, key@) == Some(id as int),
            final(self)@.keys.len() <= old(self)@.keys.len() + 1,
    {
        match self.id_of(key) {
            Some(id) => id,
            None => {
                let id: u32 = self.keys.len() as u32;
                let copy = copy_range(key, 0, key.len());
                let mut keys: Vec<Vec<u8>> = Vec::new();
                std::mem::swap(&mut keys, &mut self.keys);
                keys.push(copy);
                self.keys = keys;
                proof {
                    assert(copy@ =~= key@);
                    assert(self@.keys =~= old(self)@.keys.push(key@));
                    assert(self@.keys.drop_last() =~= old(self)@.keys);
                }
                id
            },
        }
    }

    /// Adds an edge between the vertices of two keys.
    pub fn add_edge(&mut self, from: &[u8], to: &[u8], rel_type: Option<String>)
        requires
            old(self)@.keys.len() + 1 < u32::MAX,
        ensures
            final(self)@ == old(self)@.with_edge(from@, to@, opt_text(rel_type)),
    {
        let f: u32 = self.intern(from);
        let t: u32 = self.intern(to);
        proof {
            lemma_with_key(with_key(old(self)@.keys, from@), to@, from@);
        }
        let mut edges: Vec<Edge> = Vec::new();
        std::mem::swap(&mut edges, &mut self.edges);
        edges.push(Edge { from: f, to: t, rel_type });
        self.edges = edges;
        proof {
            assert(self@.edges =~= old(self)@.edges.push(self.edges@.last()@));
            assert(self@ == old(self)@.with_edge(from@, to@, opt_text(rel_type)));
        }
    }

    /// The neighbours of a vertex, each with the type of the edge.
    pub fn neighbors(&self, id: u32, dir: Direction) -> (r: Vec<(u32, Option<String>)>)
        ensures
            neighbor_views(r@) == neighbors_in(self@.edges, id as int, dir),
    {
        let ghost all = self@.edges;
        let mut r: Vec<(u32, Option<String>)> = Vec::new();
        let mut i: usize = 0;
        assert(all.take(0) =~= Seq::<EdgeView>::empty());
        assert(neighbor_views(r@) =~= Seq::<(int, Option<Seq<char>>)>::empty());
        while i < self.edges.len()
            invariant
                all == self@.edges,
                i <= self.edges@.len(),
                neighbor_views(r@) == neighbors_in(all.take(i as int), id as int, dir),
            decreases self.edges@.len() - i,
        {
            let ghost before = r@;
            let e = &self.edges[i];
            if dir != Direction::In && e.from == id {
                r.push((e.to, copy_opt(&e.rel_type)));
            }
            if dir != Direction::Out && e.to == id {
                r.push((e.from, copy_opt(&e.rel_type)));
            }
            proof {
                assert(all.take(i + 1).drop_last() =~= all.take(i as int));
                assert(neighbor_views(r@) =~= neighbor_views(before) + reached(
                    e@,
                    id as int,
                    dir,
                ));
            }
            i += 1;
        }
        assert(all.take(self.edges@.len() as int) =~= all);
        r
    }
}

/// Why an index file cannot be opened.
#[derive(Debug, Clone, Copy, PartialEq, Eq, Structural)]
pub enum GraphError {
    /// The file ends inside its header or inside a record.
    CutOff,
    /// A column name is not UTF-8.
    NotText,
}

/// A length-prefixed text at `pos`, and where it ends.
pub open spec fn text_at(file: Seq<u8>, pos: int) -> Result<(Seq<char>, int), GraphError> {
    match be::field_end(file, pos) {
        None => Err(GraphError::CutOff),
        Some(end) => {
            let bytes = file.subrange(pos + 4, end);
            if valid_utf8(bytes) {
                Ok((decode_utf8(bytes), end))
            } else {
                Err(GraphError::NotText)
            }
        },
    }
}

/// The header of an index file: the name of the column of targets, and that of
/// the column of edge types, if there is one.
pub open spec fn header_bytes(to: Seq<char>, rel: Option<Seq<char>>) -> Seq<u8> {
    be::prefixed(encode_utf8(to)) + (match rel {
        Some(t) => seq![1u8] + be::prefixed(encode_utf8(t)),
        None => seq![0u8],
    })
}

/// The header of a file, and where it ends.
pub open spec fn header_in(file: Seq<u8>) -> Result<
    (Seq<char>, Option<Seq<char>>, int),
    GraphError,
> {
    match text_at(file, 0) {
        Err(e) => Err(e),
        Ok((to, end)) => if end >= file.len() {
            Err(GraphError::CutOff)
        } else if file[end] == 0 {
            Ok((to, None, end + 1))
        } else {
            match text_at(file, end + 1) {
                Err(e) => Err(e),
                Ok((rel, end2)) => Ok((to, Some(rel), end2)),
            }
        },
    }
}

fn read_text(file: &[u8], pos: usize) -> (r: Result<(String, usize), GraphError>)
    requires
        pos <= file@.len(),
    ensures
        match r {
            Ok((s, end)) => text_at(file@, pos as int) == Ok::<(Seq<char>, int), GraphError>(
                (s@, end as int),
            ) && pos <= end <= file@.len(),
            Err(e) => text_at(file@, pos as int) == Err::<(Seq<char>, int), GraphError>(e),
        },
{
    match field_range(file, pos) {
        None => Err(GraphError::CutOff),
        Some(end) => match text_strict(copy_range(file, pos + 4, end)) {
            Some(s) => Ok((s, end)),
            None => Err(GraphError::NotText),
        },
    }
}

/// One edge of the table.
#[derive(Debug, Clone, PartialEq)]
pub struct EdgeRecord {
    pub from: Vec<u8>,
    pub to: Vec<u8>,
    pub rel_type: Option<String>,
}

/// The graph with one edge per record.
pub open spec fn replayed(g: GraphView, records: Seq<EdgeRecord>) -> GraphView
    decreases records.len(),
{
    if records.len() == 0 {
        g
    } else {
        let r = records.last();
        replayed(g, records.drop_last()).with_edge(r.from@, r.to@, opt_text(r.rel_type))
    }
}

/// A graph gains at most two vertices with each record.
pub proof fn lemma_replayed_len(g: GraphView, records: Seq<EdgeRecord>)
    ensures
        replayed(g, records).keys.len() <= g.keys.len() + 2 * records.len(),
    decreases records.len(),
{
    if records.len() > 0 {
        lemma_replayed_len(g, records.drop_last());
    }
}

/// An adjacency index and the columns it is built from.
pub struct GraphIndex {
    to_column: String,
    type_column: Option<String>,
    graph: AdjacencyGraph,
}

impl GraphIndex {
    /// The column of edge targets.
    pub closed spec fn to_col(&self) -> Seq<char> {
        self.to_column@
    }

    /// The column of edge types.
    pub closed spec fn type_col(&self) -> Option<Seq<char>> {
        opt_text(self.type_column)
    }

    /// The indexed graph.
    pub closed spec fn adjacency(&self) -> GraphView {
        self.graph@
    }

    /// An empty index.
    pub fn create(to_column: &str, type_column: Option<String>) -> (index: GraphIndex)
        ensures
            index.to_col() == to_column@,
            index.type_col() == opt_text(type_column),
            index.adjacency() == GraphView::empty(),
    {
        GraphIndex { to_column: to_column.to_owned(), type_column, graph: AdjacencyGraph::new() }
    }

    /// Reads an index file: an index with the columns of the header and no
    /// edges yet, and the encoded records to replay into it.
    pub fn open(file: &[u8]) -> (r: Result<(GraphIndex, Vec<Vec<u8>>), GraphError>)
        ensures
            match header_in(file@) {
                Err(e) => r == Err::<(GraphIndex, Vec<Vec<u8>>), GraphError>(e),
                Ok((to, rel, end)) => match framed::records_in(file@, end) {
                    Err(_) => r == Err::<(GraphIndex, Vec<Vec<u8>>), GraphError>(
                        GraphError::CutOff,
                    ),
                    Ok(records) => (r matches Ok((index, rs)) && index.to_col() == to
                        && index.type_col() == rel && index.adjacency() == GraphView::empty()
                        && be::contents(rs@) == records),
                },
            },
    {
        let (to, mut end): (String, usize) = match read_text(file, 0) {
            Ok(x) => x,
            Err(e) => {
                return Err(e);
            },
        };
        if end >= file.len() {
            return Err(GraphError::CutOff);
        }
        let mut rel: Option<String> = None;
        if file[end] == 0 {
            end = end + 1;
        } else {
            match read_text(file, end + 1) {
                Ok((t, e)) => {
                    rel = Some(t);
                    end = e;
                },
                Err(e) => {
                    return Err(e);
                },
            }
        }
        match split_records(file, end) {
            Ok(rs) => Ok((GraphIndex::create(to.as_str(), rel), rs)),
            Err(_) => Err(GraphError::CutOff),
        }
    }

    /// Adds the edges of decoded records.
    pub fn replay(&mut self, records: &Vec<EdgeRecord>)
        requires
            old(self).adjacency().keys.len() + 2 * records@.len() + 2 < u32::MAX,
        ensures
            final(self).to_col() == old(self).to_col(),
            final(self).type_col() == old(self).type_col(),
            final(self).adjacency() == replayed(old(self).adjacency(), records@),
    {
        let mut i: usize = 0;
        assert(records@.take(0) =~= Seq::<EdgeRecord>::empty());
        while i < records.len()
            invariant
                i <= records@.len(),
                old(self).adjacency().keys.len() + 2 * records@.len() + 2 < u32::MAX,
                self.to_col() == old(self).to_col(),
                self.type_col() == old(self).type_col(),
                self.adjacency() == replayed(old(self).adjacency(), records@.take(i as int)),
            decreases records@.len() - i,
        {
            proof {
                lemma_replayed_len(old(self).adjacency(), records@.take(i as int));
                assert(records@.take(i + 1).drop_last() =~= records@.take(i as int));
            }
            let r = &records[i];
            self.insert(r.from.as_slice(), r.to.as_slice(), copy_opt(&r.rel_type));
            i += 1;
        }
        assert(records@.take(records@.len() as int) =~= records@);
    }

    /// The header under which the index is stored.
    pub fn write_header(&self) -> (out: Vec<u8>)
        ensures
            out@ == header_bytes(self.to_col(), self.type_col()),
    {
        let mut out: Vec<u8> = Vec::new();
        put_prefixed(&mut out, self.to_column.as_str().as_bytes());
        match &self.type_column {
            Some(t) => {
                out.push(1);
                put_prefixed(&mut out, t.as_str().as_bytes());
            },
            None => {
                out.push(0);
            },
        }
        assert(out@ =~= header_bytes(self.to_col(), self.type_col()));
        out
    }

    /// The column that names where an edge leads.
    pub fn to_column(&self) -> (c: &str)
        ensures
            c@ == self.to_col(),
    {
        self.to_column.as_str()
    }

    /// The column that names the kind of an edge, if there is one.
    pub fn type_column(&self) -> (c: Option<&str>)
        ensures
            match c {
                Some(s) => self.type_col() == Some(s@),
                None => self.type_col() is None,
            },
    {
        match &self.type_column {
            Some(t) => Some(t.as_str()),
            None => None,
        }
    }

    /// The graph that is indexed.
    pub fn graph(&self) -> (g: &AdjacencyGraph)
        ensures
            g@ == self.adjacency(),
    {
        &self.graph
    }

    /// Records one edge.
    pub fn insert(&mut self, from: &[u8], to: &[u8], rel_type: Option<String>)
        requires
            old(self).adjacency().keys.len() + 1 < u32::MAX,
        ensures
            final(self).to_col() == old(self).to_col(),
            final(self).type_col() == old(self).type_col(),
            final(self).adjacency() == old(self).adjacency().with_edge(
                from@,
                to@,
                opt_text(rel_type),
            ),
    {
        self.graph.add_edge(from, to, rel_type);
    }
}

/// A stored header is read back as it was written, whatever records follow.
pub proof fn law_header_round_trips(to: Seq<char>, rel: Option<Seq<char>>, records: Seq<u8>)
    requires
        encode_utf8(to).len() <= u32::MAX,
        rel matches Some(t) ==> encode_utf8(t).len() <= u32::MAX,
    ensures
        header_in(header_bytes(to, rel) + records) == Ok::<
            (Seq<char>, Option<Seq<char>>, int),
            GraphError,
        >((to, rel, header_bytes(to, rel).len() as int)),
{
    let file = header_bytes(to, rel) + records;
    let a = encode_utf8(to);
    text::lemma_lossy_of_text(to);
    be::lemma_be32(a.len() as u32);
    let n = be::prefixed(a).len() as int;
    assert(file.subrange(0, 4) =~= be::be32(a.len() as u32));
    assert(file.subrange(4, n) =~= a);
    match rel {
        Some(t) => {
            let b = encode_utf8(t);
            text::lemma_lossy_of_text(t);
            be::lemma_be32(b.len() as u32);
            assert(file.subrange(n + 1, n + 5) =~= be::be32(b.len() as u32));
            assert(file.subrange(n + 5, n + 5 + b.len()) =~= b);
        },
        None => {},
    }
}

/// The two ends of an added edge are neighbours: its target is one of the
/// source's neighbours outwards, its source one of the target's inwards.
pub proof fn law_added_edge_joins_its_ends(
    g: GraphView,
    from: Seq<u8>,
    to: Seq<u8>,
    rel: Option<Seq<char>>,
)
    ensures
        ({
            let after = g.with_edge(from, to, rel);
            let f = id_in(after.keys, from);
            let t = id_in(after.keys, to);
            &&& f is Some && t is Some
            &&& after.keys[f->0] == from && after.keys[t->0] == to
            &&& neighbors_in(after.edges, f->0, Direction::Out).contains((t->0, rel))
            &&& neighbors_in(after.edges, t->0, Direction::In).contains((f->0, rel))
        }),
{
    let after = g.with_edge(from, to, rel);
    lemma_with_key(g.keys, from, from);
    lemma_with_key(with_key(g.keys, from), to, from);
    lemma_id(after.keys, from);
    lemma_id(after.keys, to);
    let f = id_in(after.keys, from)->0;
    let t = id_in(after.keys, to)->0;
    assert(after.edges.drop_last() =~= g.edges);
    let out = neighbors_in(after.edges, f, Direction::Out);
    let n = neighbors_in(g.edges, f, Direction::Out).len() as int;
    assert(out[n] == (t, rel));
    let back = neighbors_in(after.edges, t, Direction::In);
    let m = neighbors_in(g.edges, t, Direction::In).len() as int;
    assert(back[m] == (f, rel));
}

/// Adding an edge leaves the number of every vertex as it was.
pub proof fn law_vertex_numbers_stay(
    g: GraphView,
    from: Seq<u8>,
    to: Seq<u8>,
    rel: Option<Seq<char>>,
    key: Seq<u8>,
)
    requires
        id_in(g.keys, key) is Some,
    ensures
        id_in(g.with_edge(from, to, rel).keys, key) == id_in(g.keys, key),
{
    lemma_with_key(g.keys, from, key);
    lemma_with_key(with_key(g.keys, from), to, key);
}

/// The neighbours of a vertex are the other ends of its edges, with their types:
/// outwards those where it is the source, inwards those where it is the target,
/// both ways all.
pub proof fn law_neighbors_are_the_other_ends(
    edges: Seq<EdgeView>,
    v: int,
    dir: Direction,
    u: int,
    rel: Option<Seq<char>>,
)
    ensures
        neighbors_in(edges, v, dir).contains((u, rel)) <==> exists|i: int|
            0 <= i < edges.len() && (#[trigger] edges[i]).rel_type == rel && match dir {
                Direction::Out => edges[i].from == v && edges[i].to == u,
                Direction::In => edges[i].to == v && edges[i].from == u,
                Direction::Both => edges[i].from == v && edges[i].to == u || edges[i].to == v
                    && edges[i].from == u,
            },
    decreases edges.len(),
{
    if edges.len() > 0 {
        let head = edges.drop_last();
        let n = edges.len() - 1;
        law_neighbors_are_the_other_ends(head, v, dir, u, rel);
        let a = neighbors_in(head, v, dir);
        let b = reached(edges.last(), v, dir);
        let all = a + b;
        let x = (u, rel);
        assert(edges[n] == edges.last());
        assert forall|i: int| 0 <= i < n implies #[trigger] edges[i] == head[i] by {}
        if a.contains(x) {
            let k = choose|k: int| 0 <= k < a.len() && a[k] == x;
            assert(all[k] == x);
        }
        if all.contains(x) {
            let k = choose|k: int| 0 <= k < all.len() && all[k] == x;
            if k < a.len() {
                assert(a[k] == x);
                let i = choose|i: int|
                    0 <= i < head.len() && (#[trigger] head[i]).rel_type == rel && match dir {
                        Direction::Out => head[i].from == v && head[i].to == u,
                        Direction::In => head[i].to == v && head[i].from == u,
                        Direction::Both => head[i].from == v && head[i].to == u || head[i].to == v
                            && head[i].from == u,
                    };
                assert(edges[i] == head[i]);
            } else {
                assert(b[k - a.len()] == x);
            }
        }
        let e = edges.last();
        if e.rel_type == rel && (match dir {
            Direction::Out => e.from == v && e.to == u,
            Direction::In => e.to == v && e.from == u,
            Direction::Both => e.from == v && e.to == u || e.to == v && e.from == u,
        }) {
            assert(b.len() > 0);
            assert(b[0] == x || b[b.len() - 1] == x);
            if b[0] == x {
                assert(all[a.len() as int] == x);
            } else {
                assert(all[a.len() + b.len() - 1] == x);
            }
        }
    }
}

/// Every edge that was added is there, in the order of adding, between the
/// vertices that bear the keys of its ends; no vertex is there twice.
pub proof fn law_graph_holds_every_added_edge(
    g: GraphView,
    from: Seq<u8>,
    to: Seq<u8>,
    rel: Option<Seq<char>>,
)
    requires
        g.keys.no_duplicates(),
    ensures
        ({
            let after = g.with_edge(from, to, rel);
            &&& after.edges.len() == g.edges.len() + 1
            &&& after.edges.drop_last() == g.edges
            &&& after.keys[after.edges.last().from] == from
            &&& after.keys[after.edges.last().to] == to
            &&& after.edges.last().rel_type == rel
            &&& after.keys.no_duplicates()
            &&& g.keys.len() <= after.keys.len()
            &&& after.keys.take(g.keys.len() as int) == g.keys
            &&& forall|i: int|
                g.keys.len() <= i < after.keys.len() ==> #[trigger] after.keys[i] == from
                    || after.keys[i] == to
        }),
{
    let after = g.with_edge(from, to, rel);
    law_added_edge_joins_its_ends(g, from, to, rel);
    assert(after.edges.drop_last() =~= g.edges);
    let half = with_key(g.keys, from);
    lemma_id(g.keys, from);
    lemma_id(half, to);
    assert(half.no_duplicates());
    assert(after.keys.take(g.keys.len() as int) =~= g.keys);
}

/// The header of a graph holds the name of the column of the other ends behind its
/// length, and then a one and the name of the column of the types, or a zero.
pub proof fn law_bytes_of_a_header_have_their_places(to: Seq<char>, rel: Seq<char>)
    requires
        encode_utf8(to).len() <= u32::MAX,
        encode_utf8(rel).len() <= u32::MAX,
    ensures
        ({
            let b = header_bytes(to, Some(rel));
            let c = header_bytes(to, None);
            let n = encode_utf8(to).len() as int;
            &&& be::u32_at(b, 0) == n
            &&& b.subrange(4, 4 + n) == encode_utf8(to)
            &&& b[4 + n] == 1
            &&& be::u32_at(b, 5 + n) == encode_utf8(rel).len()
            &&& b.skip(9 + n) == encode_utf8(rel)
            &&& be::u32_at(c, 0) == n
            &&& c.subrange(4, 4 + n) == encode_utf8(to)
            &&& c.len() == 5 + n
            &&& c[4 + n] == 0
        }),
{
    let b = header_bytes(to, Some(rel));
    let c = header_bytes(to, None);
    let n = encode_utf8(to).len() as int;
    let m = encode_utf8(rel).len() as u32;
    be::lemma_be32(n as u32);
    be::lemma_be32(m);
    assert(b.subrange(0, 4) =~= be::be32(n as u32));
    assert(c.subrange(0, 4) =~= be::be32(n as u32));
    assert(b.subrange(5 + n, 9 + n) =~= be::be32(m));
    be::lemma_u32_at(b, 0, n as u32);
    be::lemma_u32_at(c, 0, n as u32);
    be::lemma_u32_at(b, 5 + n, m);
    assert(b.subrange(4, 4 + n) =~= encode_utf8(to));
    assert(c.subrange(4, 4 + n) =~= encode_utf8(to));
    assert(b.skip(9 + n) =~= encode_utf8(rel));
}

} // verus!
