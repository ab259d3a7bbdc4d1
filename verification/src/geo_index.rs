//! An index of places: rows are held by the cell of a grid in which they lie.
//!
//! Degrees are floating-point numbers. They are held here as their bit
//! patterns; cells and distances are computed outside.

use std::collections::HashMap;
use vstd::prelude::*;

use crate::be;
use crate::database::rowmap::copy_bytes;
use crate::framed;
use crate::framed::split_records;

verus! {

/// A row with its place, and its time where it has one.
#[derive(Debug, Clone, PartialEq)]
pub struct GeoEntry {
    pub row_key: Vec<u8>,
    pub lon: u64,
    pub lat: u64,
    pub time: Option<i64>,
}

/// A row with its place, as mathematical values.
#[verifier::ext_equal]
pub struct EntryView {
    pub row_key: Seq<u8>,
    pub lon: u64,
    pub lat: u64,
    pub time: Option<i64>,
}

impl View for GeoEntry {
    type V = EntryView;

    open spec fn view(&self) -> EntryView {
        EntryView { row_key: self.row_key@, lon: self.lon, lat: self.lat, time: self.time }
    }
}

pub open spec fn entry_views(list: Seq<GeoEntry>) -> Seq<EntryView> {
    list.map_values(|e: GeoEntry| e@)
}

/// The file of an index cannot be read.
#[derive(Debug, Clone, Copy, PartialEq, Eq, Structural)]
pub enum GeoError {
    /// It ends before its header does.
    NoHeader,
    /// It ends inside a record.
    CutOff,
}

/// What a cell holds, in the order in which it was added.
pub open spec fn held(cells: Map<u64, Seq<EntryView>>, cell: u64) -> Seq<EntryView> {
    if cells.contains_key(cell) {
        cells[cell]
    } else {
        Seq::empty()
    }
}

/// Whether an entry lies in a span of time, ends included. Without a span every
/// entry does; with one an entry without a time does not.
pub open spec fn in_span(e: EntryView, span: Option<(i64, i64)>) -> bool {
    match span {
        None => true,
        Some((t0, t1)) => match e.time {
            Some(t) => t0 <= t <= t1,
            None => false,
        },
    }
}

/// The entries of a list that lie in a span of time.
pub open spec fn spanned(list: Seq<EntryView>, span: Option<(i64, i64)>) -> Seq<EntryView>
    decreases list.len(),
{
    if list.len() == 0 {
        list
    } else if in_span(list.last(), span) {
        spanned(list.drop_last(), span).push(list.last())
    } else {
        spanned(list.drop_last(), span)
    }
}

/// The entries of several cells that lie in a span of time, cell by cell.
pub open spec fn found(
    cells: Map<u64, Seq<EntryView>>,
    asked: Seq<u64>,
    span: Option<(i64, i64)>,
) -> Seq<EntryView>
    decreases asked.len(),
{
    if asked.len() == 0 {
        Seq::empty()
    } else {
        found(cells, asked.drop_last(), span) + spanned(held(cells, asked.last()), span)
    }
}

/// Whether these are the distances of entries that `distance` gave.
pub open spec fn measured<F: Fn(&GeoEntry) -> u64>(
    entries: Seq<GeoEntry>,
    distance: F,
    distances: Seq<u64>,
) -> bool {
    &&& distances.len() == entries.len()
    &&& forall|i: int|
        0 <= i < entries.len() ==> call_ensures(
            distance,
            (&#[trigger] entries[i],),
            distances[i],
        )
}

/// The rows of the entries that lie no further away than `radius`.
pub open spec fn near_rows(entries: Seq<EntryView>, distances: Seq<u64>, radius: u64) -> Seq<
    Seq<u8>,
>
    decreases entries.len(),
{
    if entries.len() == 0 {
        Seq::empty()
    } else if distances[entries.len() - 1] <= radius {
        near_rows(entries.drop_last(), distances, radius).push(entries.last().row_key)
    } else {
        near_rows(entries.drop_last(), distances, radius)
    }
}

/// Whether these are the rows of several cells that lie in a span of time and
/// no further away than `radius`, cell by cell.
pub open spec fn in_radius<F: Fn(&GeoEntry) -> u64>(
    cells: Map<u64, Seq<EntryView>>,
    asked: Seq<u64>,
    distance: F,
    radius: u64,
    span: Option<(i64, i64)>,
    rows: Seq<Seq<u8>>,
) -> bool {
    exists|entries: Seq<GeoEntry>, distances: Seq<u64>|
        entry_views(entries) == found(cells, asked, span) && #[trigger] measured(
            entries,
            distance,
            distances,
        ) && rows == near_rows(entry_views(entries), distances, radius)
}

/// An index of places.
pub struct GeoIndex {
    level: u8,
    cells: HashMap<u64, Vec<GeoEntry>>,
}

impl View for GeoIndex {
    type V = Map<u64, Seq<EntryView>>;

    closed spec fn view(&self) -> Map<u64, Seq<EntryView>> {
        self.cells@.map_values(|v: Vec<GeoEntry>| entry_views(v@))
    }
}

impl GeoIndex {
    /// How fine the grid is.
    pub closed spec fn grid(&self) -> u8 {
        self.level
    }

    /// An index without rows.
    pub fn create(level: u8) -> (g: GeoIndex)
        ensures
            g.grid() == level,
            g@ == Map::<u64, Seq<EntryView>>::empty(),
    {
        let g = GeoIndex { level, cells: HashMap::new() };
        assert(g@ =~= Map::<u64, Seq<EntryView>>::empty());
        g
    }

    /// Reads the file of an index: the header, and the encoded records, which
    /// are to be added again with `insert`.
    pub fn open(file: &[u8]) -> (r: Result<(GeoIndex, Vec<Vec<u8>>), GeoError>)
        ensures
            if file@.len() == 0 {
                r == Err::<(GeoIndex, Vec<Vec<u8>>), GeoError>(GeoError::NoHeader)
            } else {
                match framed::records_in(file@, 1) {
                    Err(_) => r == Err::<(GeoIndex, Vec<Vec<u8>>), GeoError>(GeoError::CutOff),
                    Ok(records) => {
                        &&& r matches Ok((g, rs))
                        &&& g.grid() == file@[0]
                        &&& g@ == Map::<u64, Seq<EntryView>>::empty()
                        &&& be::contents(rs@) == records
                    },
                }
            },
    {
        if file.len() == 0 {
            return Err(GeoError::NoHeader);
        }
        match split_records(file, 1) {
            Ok(rs) => Ok((GeoIndex::create(file[0]), rs)),
            Err(_) => Err(GeoError::CutOff),
        }
    }

    /// The header of the file of this index.
    pub fn write_header(&self) -> (h: Vec<u8>)
        ensures
            h@ == seq![self.grid()],
    {
        let mut h: Vec<u8> = Vec::new();
        h.push(self.level);
        assert(h@ =~= seq![self.level]);
        h
    }

    /// How fine the grid is.
    pub fn level(&self) -> (l: u8)
        ensures
            l == self.grid(),
    {
        self.level
    }

    /// Adds a row that lies in a cell.
    pub fn insert(&mut self, cell: u64, entry: GeoEntry)
        ensures
            final(self).grid() == old(self).grid(),
            final(self)@ == with_entry(old(self)@, cell, entry@),
    {
        broadcast use vstd::std_specs::hash::group_hash_axioms;

        let ghost all = self@;
        let mut list: Vec<GeoEntry> = match self.cells.remove(&cell) {
            Some(l) => l,
            None => Vec::new(),
        };
        let ghost before = list@;
        assert(entry_views(before) =~= held(all, cell));
        list.push(entry);
        assert(entry_views(list@) =~= held(all, cell).push(entry@));
        self.cells.insert(cell, list);
        assert(self@ =~= all.insert(cell, held(all, cell).push(entry@)));
    }

    /// The rows of several cells that lie in a span of time, cell by cell. Which
    /// of them lie near enough is left to the caller.
    pub fn query_cells(&self, asked: &Vec<u64>, span: Option<(i64, i64)>) -> (r: Vec<GeoEntry>)
        ensures
            entry_views(r@) == found(self@, asked@, span),
    {
        broadcast use vstd::std_specs::hash::group_hash_axioms;

        let mut r: Vec<GeoEntry> = Vec::new();
        let mut i: usize = 0;
        assert(asked@.take(0) =~= Seq::<u64>::empty());
        assert(entry_views(r@) =~= Seq::<EntryView>::empty());
        while i < asked.len()
            invariant
                i <= asked@.len(),
                entry_views(r@) == found(self@, asked@.take(i as int), span),
            decreases asked@.len() - i,
        {
            broadcast use vstd::std_specs::hash::group_hash_axioms;

            proof {
                assert(asked@.take(i + 1).drop_last() =~= asked@.take(i as int));
                assert(asked@.take(i + 1).last() == asked@[i as int]);
            }
            let ghost before = entry_views(r@);
            match self.cells.get(&asked[i]) {
                Some(list) => {
                    let ghost all = entry_views(list@);
                    let mut j: usize = 0;
                    assert(all.take(0) =~= Seq::<EntryView>::empty());
                    assert(before + spanned(all.take(0), span) =~= before);
                    while j < list.len()
                        invariant
                            all == entry_views(list@),
                            j <= list@.len(),
                            entry_views(r@) == before + spanned(all.take(j as int), span),
                        decreases list@.len() - j,
                    {
                        proof {
                            assert(all.take(j + 1).drop_last() =~= all.take(j as int));
                            assert(all.take(j + 1).last() == list@[j as int]@);
                        }
                        let e = &list[j];
                        let fits = match span {
                            None => true,
                            Some((t0, t1)) => match e.time {
                                Some(t) => t >= t0 && t <= t1,
                                None => false,
                            },
                        };
                        if fits {
                            let ghost had = r@;
                            r.push(
                                GeoEntry {
                                    row_key: copy_bytes(e.row_key.as_slice()),
                                    lon: e.lon,
                                    lat: e.lat,
                                    time: e.time,
                                },
                            );
                            assert(entry_views(r@) =~= entry_views(had).push(list@[j as int]@));
                            assert(entry_views(r@) =~= before + spanned(
                                all.take(j + 1),
                                span,
                            ));
                        }
                        j += 1;
                    }
                    assert(all.take(list@.len() as int) =~= all);
                },
                None => {
                    assert(before + spanned(Seq::<EntryView>::empty(), span) =~= before);
                },
            }
            i += 1;
        }
        assert(asked@.take(asked@.len() as int) =~= asked@);
        r
    }

    /// The rows of several cells that lie in a span of time and no further away
    /// than `radius`. A distance is an integer that orders as the distance on
    /// the globe does.
    pub fn query_radius<F: Fn(&GeoEntry) -> u64>(
        &self,
        asked: &Vec<u64>,
        distance: F,
        radius: u64,
        span: Option<(i64, i64)>,
    ) -> (r: Vec<Vec<u8>>)
        requires
            forall|e: &GeoEntry| call_requires(distance, (e,)),
        ensures
            in_radius(self@, asked@, distance, radius, span, be::contents(r@)),
    {
        let entries = self.query_cells(asked, span);
        let ghost all = entry_views(entries@);
        let ghost mut distances: Seq<u64> = Seq::empty();
        let mut r: Vec<Vec<u8>> = Vec::new();
        let mut i: usize = 0;
        assert(be::contents(r@) =~= Seq::<Seq<u8>>::empty());
        while i < entries.len()
            invariant
                forall|e: &GeoEntry| call_requires(distance, (e,)),
                all == entry_views(entries@),
                i <= entries@.len(),
                measured(entries@.take(i as int), distance, distances),
                be::contents(r@) == near_rows(all.take(i as int), distances, radius),
            decreases entries@.len() - i,
        {
            let d: u64 = distance(&entries[i]);
            let ghost before = distances;
            proof {
                distances = distances.push(d);
                let now = entries@.take(i + 1);
                assert forall|k: int| 0 <= k < now.len() implies call_ensures(
                    distance,
                    (&#[trigger] now[k],),
                    distances[k],
                ) by {
                    if k < i {
                        assert(entries@.take(i as int)[k] == now[k]);
                    }
                }
                assert(all.take(i + 1).drop_last() =~= all.take(i as int));
                lemma_near_rows(all.take(i as int), before, distances, radius);
            }
            if d <= radius {
                let ghost had = r@;
                r.push(copy_bytes(entries[i].row_key.as_slice()));
                assert(be::contents(r@) =~= be::contents(had).push(all[i as int].row_key));
            }
            i += 1;
        }
        assert(all.take(entries@.len() as int) =~= all);
        assert(entries@.take(entries@.len() as int) =~= entries@);
        assert(measured(entries@, distance, distances));
        r
    }
}

proof fn lemma_near_rows(entries: Seq<EntryView>, a: Seq<u64>, b: Seq<u64>, radius: u64)
    requires
        entries.len() <= a.len(),
        entries.len() <= b.len(),
        forall|i: int| 0 <= i < entries.len() ==> a[i] == b[i],
    ensures
        near_rows(entries, a, radius) == near_rows(entries, b, radius),
    decreases entries.len(),
{
    if entries.len() > 0 {
        lemma_near_rows(entries.drop_last(), a, b, radius);
    }
}

proof fn lemma_spanned_keeps(list: Seq<EntryView>, span: Option<(i64, i64)>, e: EntryView)
    ensures
        spanned(list, span).contains(e) <==> list.contains(e) && in_span(e, span),
    decreases list.len(),
{
    if list.len() > 0 {
        let head = list.drop_last();
        let s = spanned(head, span);
        lemma_spanned_keeps(head, span, e);
        if list.contains(e) {
            let k = choose|k: int| 0 <= k < list.len() && list[k] == e;
            if k < head.len() {
                assert(head[k] == e);
            }
        }
        if head.contains(e) {
            let k = choose|k: int| 0 <= k < head.len() && head[k] == e;
            assert(list[k] == e);
        }
        assert(list[list.len() - 1] == list.last());
        if in_span(list.last(), span) {
            let all = spanned(list, span);
            if s.contains(e) {
                let k = choose|k: int| 0 <= k < s.len() && s[k] == e;
                assert(all[k] == e);
            }
            if all.contains(e) {
                let k = choose|k: int| 0 <= k < all.len() && all[k] == e;
                if k < s.len() {
                    assert(s[k] == e);
                }
            }
            assert(all[s.len() as int] == list.last());
        }
    }
}

/// A row that was added is found again by its cell in every span of time that
/// it lies in, and in no other.
pub proof fn law_row_is_found_in_its_cell(
    cells: Map<u64, Seq<EntryView>>,
    cell: u64,
    e: EntryView,
    span: Option<(i64, i64)>,
)
    ensures
        in_span(e, span) ==> found(
            cells.insert(cell, held(cells, cell).push(e)),
            seq![cell],
            span,
        ).contains(e),
        !in_span(e, span) ==> !found(
            cells.insert(cell, held(cells, cell).push(e)),
            seq![cell],
            span,
        ).contains(e),
{
    let now = cells.insert(cell, held(cells, cell).push(e));
    let list = held(now, cell);
    assert(list[list.len() - 1] == e);
    assert(list.contains(e));
    lemma_spanned_keeps(list, span, e);
    assert(seq![cell].drop_last() =~= Seq::<u64>::empty());
    reveal_with_fuel(found, 2);
    assert(found(now, seq![cell], span) =~= spanned(list, span));
}

proof fn lemma_found(
    cells: Map<u64, Seq<EntryView>>,
    asked: Seq<u64>,
    span: Option<(i64, i64)>,
    e: EntryView,
)
    ensures
        found(cells, asked, span).contains(e) <==> in_span(e, span) && exists|i: int|
            0 <= i < asked.len() && held(cells, #[trigger] asked[i]).contains(e),
    decreases asked.len(),
{
    if asked.len() > 0 {
        let head = asked.drop_last();
        let n = asked.len() - 1;
        lemma_found(cells, head, span, e);
        lemma_spanned_keeps(held(cells, asked.last()), span, e);
        let a = found(cells, head, span);
        let b = spanned(held(cells, asked.last()), span);
        let all = a + b;
        if all.contains(e) {
            let k = choose|k: int| 0 <= k < all.len() && all[k] == e;
            if k < a.len() {
                assert(a[k] == e);
                let i = choose|i: int|
                    0 <= i < head.len() && held(cells, #[trigger] head[i]).contains(e);
                assert(held(cells, asked[i]).contains(e));
            } else {
                assert(b[k - a.len()] == e);
                assert(held(cells, asked[n]).contains(e));
            }
        }
        if in_span(e, span) && exists|i: int|
            0 <= i < asked.len() && held(cells, #[trigger] asked[i]).contains(e) {
            let i = choose|i: int|
                0 <= i < asked.len() && held(cells, #[trigger] asked[i]).contains(e);
            if i < n {
                assert(held(cells, head[i]).contains(e));
                let k = choose|k: int| 0 <= k < a.len() && a[k] == e;
                assert(all[k] == e);
            } else {
                let k = choose|k: int| 0 <= k < b.len() && b[k] == e;
                assert(all[a.len() + k] == e);
            }
        }
    }
}

/// With a span of time every row that is found has a time from its start to its
/// end, and lies in one of the cells asked; every such row is found. Without a
/// span every row of the cells asked is found.
pub proof fn law_found_rows_lie_in_the_span(
    index: GeoIndex,
    asked: Vec<u64>,
    span: Option<(i64, i64)>,
    r: Vec<GeoEntry>,
    e: EntryView,
)
    requires
        call_ensures(GeoIndex::query_cells, (&index, &asked, span), r),
    ensures
        span matches Some((t0, t1)) ==> (entry_views(r@).contains(e) <==> (e.time matches Some(t)
            && t0 <= t && t <= t1) && exists|i: int|
            0 <= i < asked@.len() && index@.contains_key(#[trigger] asked@[i])
                && index@[asked@[i]].contains(e)),
        span is None ==> (entry_views(r@).contains(e) <==> exists|i: int|
            0 <= i < asked@.len() && index@.contains_key(#[trigger] asked@[i])
                && index@[asked@[i]].contains(e)),
{
    lemma_found(index@, asked@, span, e);
    if exists|i: int| 0 <= i < asked@.len() && held(index@, #[trigger] asked@[i]).contains(e) {
        let i = choose|i: int| 0 <= i < asked@.len() && held(index@, #[trigger] asked@[i]).contains(e);
        assert(index@.contains_key(asked@[i]) && index@[asked@[i]].contains(e));
    }
    if exists|i: int|
        0 <= i < asked@.len() && index@.contains_key(#[trigger] asked@[i])
            && index@[asked@[i]].contains(e) {
        let i = choose|i: int|
            0 <= i < asked@.len() && index@.contains_key(#[trigger] asked@[i])
                && index@[asked@[i]].contains(e);
        assert(held(index@, asked@[i]).contains(e));
    }
}

proof fn lemma_near(entries: Seq<EntryView>, distances: Seq<u64>, radius: u64, row: Seq<u8>)
    ensures
        near_rows(entries, distances, radius).contains(row) <==> exists|i: int|
            0 <= i < entries.len() && (#[trigger] entries[i]).row_key == row && distances[i]
                <= radius,
    decreases entries.len(),
{
    if entries.len() > 0 {
        let head = entries.drop_last();
        let n = entries.len() - 1;
        lemma_near(head, distances, radius, row);
        let before = near_rows(head, distances, radius);
        let all = near_rows(entries, distances, radius);
        if before.contains(row) {
            let k = choose|k: int| 0 <= k < before.len() && before[k] == row;
            assert(all[k] == row);
            let i = choose|i: int|
                0 <= i < head.len() && (#[trigger] head[i]).row_key == row && distances[i]
                    <= radius;
            assert(entries[i].row_key == row);
        }
        if all.contains(row) {
            let k = choose|k: int| 0 <= k < all.len() && all[k] == row;
            if k < before.len() {
                assert(before[k] == row);
            } else {
                assert(entries[n].row_key == row);
            }
        }
        if exists|i: int|
            0 <= i < entries.len() && (#[trigger] entries[i]).row_key == row && distances[i]
                <= radius {
            let i = choose|i: int|
                0 <= i < entries.len() && (#[trigger] entries[i]).row_key == row && distances[i]
                    <= radius;
            if i < n {
                assert(head[i].row_key == row);
            } else {
                assert(all[before.len() as int] == row);
            }
        }
    }
}

/// A row that a search within a radius gives is one of an entry of the cells
/// asked, no further away than the radius, and within the span of time where one
/// is given.
pub proof fn law_rows_in_the_radius_are_near_and_in_time<F: Fn(&GeoEntry) -> u64>(
    cells: Map<u64, Seq<EntryView>>,
    asked: Seq<u64>,
    distance: F,
    radius: u64,
    span: Option<(i64, i64)>,
    rows: Seq<Seq<u8>>,
    row: Seq<u8>,
)
    requires
        in_radius(cells, asked, distance, radius, span, rows),
        rows.contains(row),
    ensures
        exists|e: GeoEntry, d: u64, i: int|
            #![trigger call_ensures(distance, (&e,), d), asked[i]]
            {
                &&& call_ensures(distance, (&e,), d)
                &&& d <= radius
                &&& e.row_key@ == row
                &&& 0 <= i < asked.len()
                &&& cells.contains_key(asked[i])
                &&& cells[asked[i]].contains(e@)
                &&& span matches Some((t0, t1)) ==> (e.time matches Some(t) && t0 <= t && t <= t1)
            },
{
    let (entries, distances) = choose|entries: Seq<GeoEntry>, distances: Seq<u64>|
        entry_views(entries) == found(cells, asked, span) && #[trigger] measured(
            entries,
            distance,
            distances,
        ) && rows == near_rows(entry_views(entries), distances, radius);
    let views = entry_views(entries);
    lemma_near(views, distances, radius, row);
    let k = choose|k: int|
        0 <= k < views.len() && (#[trigger] views[k]).row_key == row && distances[k] <= radius;
    let e = entries[k];
    let d = distances[k];
    assert(views[k] == e@);
    assert(views.contains(e@));
    lemma_found(cells, asked, span, e@);
    let i = choose|i: int| 0 <= i < asked.len() && held(cells, #[trigger] asked[i]).contains(e@);
    assert(call_ensures(distance, (&e,), d));
    assert(cells.contains_key(asked[i]));
}

/// An entry of a cell asked, within the span of time where one is given, whose
/// every distance is no more than the radius, is among the rows of a search.
pub proof fn law_near_rows_in_time_are_given<F: Fn(&GeoEntry) -> u64>(
    cells: Map<u64, Seq<EntryView>>,
    asked: Seq<u64>,
    distance: F,
    radius: u64,
    span: Option<(i64, i64)>,
    rows: Seq<Seq<u8>>,
    e: EntryView,
    i: int,
)
    requires
        in_radius(cells, asked, distance, radius, span, rows),
        0 <= i < asked.len(),
        cells.contains_key(asked[i]),
        cells[asked[i]].contains(e),
        span matches Some((t0, t1)) ==> (e.time matches Some(t) && t0 <= t && t <= t1),
        forall|g: GeoEntry, d: u64| #[trigger]
            call_ensures(distance, (&g,), d) && g@ == e ==> d <= radius,
    ensures
        rows.contains(e.row_key),
{
    let (entries, distances) = choose|entries: Seq<GeoEntry>, distances: Seq<u64>|
        entry_views(entries) == found(cells, asked, span) && #[trigger] measured(
            entries,
            distance,
            distances,
        ) && rows == near_rows(entry_views(entries), distances, radius);
    let views = entry_views(entries);
    assert(held(cells, asked[i]).contains(e));
    lemma_found(cells, asked, span, e);
    let k = choose|k: int| 0 <= k < views.len() && views[k] == e;
    assert(entries[k]@ == e);
    assert(call_ensures(distance, (&entries[k],), distances[k]));
    lemma_near(views, distances, radius, e.row_key);
    assert(views[k].row_key == e.row_key);
}

/// The cells once an entry was put behind the others of a cell.
pub open spec fn with_entry(all: Map<u64, Seq<EntryView>>, cell: u64, e: EntryView) -> Map<
    u64,
    Seq<EntryView>,
> {
    all.insert(cell, held(all, cell).push(e))
}

/// An entry is found in its cell once it is put in, in every span of time around its
/// own, behind those that were there; what is found in other cells stays.
pub proof fn law_put_entry_is_found_in_its_cell(
    all: Map<u64, Seq<EntryView>>,
    cell: u64,
    e: EntryView,
    t0: i64,
    t1: i64,
    other: u64,
)
    ensures
        found(with_entry(all, cell, e), seq![cell], None) == found(all, seq![cell], None).push(e),
        e.time matches Some(t) && t0 <= t && t <= t1 ==> found(
            with_entry(all, cell, e),
            seq![cell],
            Some((t0, t1)),
        ) == found(all, seq![cell], Some((t0, t1))).push(e),
        other != cell ==> found(with_entry(all, cell, e), seq![other], None) == found(
            all,
            seq![other],
            None,
        ),
{
    let w = with_entry(all, cell, e);
    lemma_one_cell(all, cell, None);
    lemma_one_cell(all, cell, Some((t0, t1)));
    lemma_one_cell(all, other, None);
    lemma_one_cell(w, cell, None);
    lemma_one_cell(w, cell, Some((t0, t1)));
    lemma_one_cell(w, other, None);
    assert(held(all, cell).push(e).drop_last() =~= held(all, cell));
}

proof fn lemma_one_cell(all: Map<u64, Seq<EntryView>>, cell: u64, span: Option<(i64, i64)>)
    ensures
        found(all, seq![cell], span) == spanned(held(all, cell), span),
{
    let one = seq![cell];
    assert(one.drop_last() =~= Seq::<u64>::empty());
    assert(found(all, one.drop_last(), span) == Seq::<EntryView>::empty());
    assert(found(all, one, span) =~= spanned(held(all, cell), span));
}

} // verus!
