//! Rows in the order of their keys, each with a value or the mark of a delete.

use vstd::prelude::*;

use crate::be::{copy_range, same_bytes};
use crate::order;
use crate::order::{compare, Rank};

verus! {

/// A key and what is written under it: a value, or a delete.
pub type Row = (Seq<u8>, Option<Seq<u8>>);

/// The view of an optional value.
pub open spec fn opt_bytes(v: Option<Vec<u8>>) -> Option<Seq<u8>> {
    match v {
        Some(b) => Some(b@),
        None => None,
    }
}

/// A copy of an optional value.
pub fn copy_opt_bytes(v: &Option<Vec<u8>>) -> (r: Option<Vec<u8>>)
    ensures
        opt_bytes(r) == opt_bytes(*v),
{
    match v {
        Some(b) => {
            let c = copy_range(b.as_slice(), 0, b.len());
            assert(c@ =~= b@);
            Some(c)
        },
        None => None,
    }
}

/// A copy of some bytes.
pub fn copy_bytes(b: &[u8]) -> (r: Vec<u8>)
    ensures
        r@ == b@,
{
    let c = copy_range(b, 0, b.len());
    assert(c@ =~= b@);
    c
}

pub open spec fn row_views(rows: Seq<(Vec<u8>, Option<Vec<u8>>)>) -> Seq<Row> {
    rows.map_values(|r: (Vec<u8>, Option<Vec<u8>>)| (r.0@, opt_bytes(r.1)))
}

/// Whether rows stand in the order of their keys, no key twice.
pub open spec fn sorted(rows: Seq<Row>) -> bool {
    forall|i: int, j: int|
        0 <= i < j < rows.len() ==> order::before((#[trigger] rows[i]).0, (#[trigger] rows[j]).0)
}

/// What is written under a key.
pub open spec fn lookup(rows: Seq<Row>, key: Seq<u8>) -> Option<Option<Seq<u8>>>
    decreases rows.len(),
{
    if rows.len() == 0 {
        None
    } else if rows.last().0 == key {
        Some(rows.last().1)
    } else {
        lookup(rows.drop_last(), key)
    }
}

/// The rows once `v` is written under `key`.
pub open spec fn put(rows: Seq<Row>, key: Seq<u8>, v: Option<Seq<u8>>) -> Seq<Row>
    decreases rows.len(),
{
    if rows.len() == 0 || order::before(rows.last().0, key) {
        rows.push((key, v))
    } else if rows.last().0 == key {
        rows.update(rows.len() - 1, (key, v))
    } else {
        put(rows.drop_last(), key, v).push(rows.last())
    }
}

/// The rows of the part that is live, in order.
pub open spec fn live(rows: Seq<Row>) -> Seq<(Seq<u8>, Seq<u8>)>
    decreases rows.len(),
{
    if rows.len() == 0 {
        Seq::empty()
    } else {
        match rows.last().1 {
            Some(v) => live(rows.drop_last()).push((rows.last().0, v)),
            None => live(rows.drop_last()),
        }
    }
}

/// In sorted rows a key that is under the last one is not above the others.
proof fn lemma_absent(rows: Seq<Row>, key: Seq<u8>)
    requires
        forall|i: int| 0 <= i < rows.len() ==> (#[trigger] rows[i]).0 != key,
    ensures
        lookup(rows, key) is None,
    decreases rows.len(),
{
    if rows.len() > 0 {
        assert forall|i: int| 0 <= i < rows.drop_last().len() implies (
        #[trigger] rows.drop_last()[i]).0 != key by {
            assert(rows[i].0 != key);
        }
        assert(rows[rows.len() - 1].0 != key);
        lemma_absent(rows.drop_last(), key);
    }
}

/// What is written under the key of a row of sorted rows.
pub proof fn lemma_present(rows: Seq<Row>, i: int)
    requires
        sorted(rows),
        0 <= i < rows.len(),
    ensures
        lookup(rows, rows[i].0) == Some(rows[i].1),
    decreases rows.len(),
{
    if i < rows.len() - 1 {
        order::lemma_asymmetric(rows[i].0, rows[rows.len() - 1].0);
        lemma_sorted_head(rows);
        lemma_present(rows.drop_last(), i);
    }
}

/// Where something is written under a key there is a row for it.
pub proof fn lemma_found(rows: Seq<Row>, key: Seq<u8>) -> (i: int)
    requires
        lookup(rows, key) is Some,
    ensures
        0 <= i < rows.len(),
        rows[i] == (key, lookup(rows, key)->0),
    decreases rows.len(),
{
    if rows.last().0 == key {
        rows.len() - 1
    } else {
        lemma_found(rows.drop_last(), key)
    }
}

pub proof fn lemma_sorted_head(rows: Seq<Row>)
    requires
        sorted(rows),
        rows.len() > 0,
    ensures
        sorted(rows.drop_last()),
{
    assert forall|i: int, j: int| 0 <= i < j < rows.len() - 1 implies order::before(
        (#[trigger] rows.drop_last()[i]).0,
        (#[trigger] rows.drop_last()[j]).0,
    ) by {
        assert(order::before(rows[i].0, rows[j].0));
    }
}

/// Writing keeps the rows in order, and changes what is under one key only.
pub proof fn lemma_put(rows: Seq<Row>, key: Seq<u8>, v: Option<Seq<u8>>)
    requires
        sorted(rows),
    ensures
        sorted(put(rows, key, v)),
        forall|k: Seq<u8>| #[trigger]
            lookup(put(rows, key, v), k) == (if k == key {
                Some(v)
            } else {
                lookup(rows, k)
            }),
        forall|i: int|
            0 <= i < put(rows, key, v).len() ==> (#[trigger] put(rows, key, v)[i]).0 == key
                || exists|j: int|
                0 <= j < rows.len() && (#[trigger] rows[j]).0 == put(rows, key, v)[i].0,
        put(rows, key, v).len() <= rows.len() + 1,
    decreases rows.len(),
{
    let r = put(rows, key, v);
    if rows.len() == 0 || order::before(rows.last().0, key) {
        assert(r.drop_last() =~= rows);
        assert forall|i: int, j: int| 0 <= i < j < r.len() implies order::before(
            (#[trigger] r[i]).0,
            (#[trigger] r[j]).0,
        ) by {
            assert(r[i] == rows[i]);
            if j < rows.len() {
                assert(r[j] == rows[j]);
            } else if i < rows.len() - 1 {
                assert(order::before(rows[i].0, rows[rows.len() - 1].0));
                order::lemma_transitive(rows[i].0, rows.last().0, key);
            }
        }
        assert forall|i: int| 0 <= i < r.len() implies (#[trigger] r[i]).0 == key || exists|j: int|
            0 <= j < rows.len() && (#[trigger] rows[j]).0 == r[i].0 by {
            if i < rows.len() {
                assert(rows[i].0 == r[i].0);
            }
        }
    } else if rows.last().0 == key {
        assert(r.drop_last() =~= rows.drop_last());
        assert forall|i: int, j: int| 0 <= i < j < r.len() implies order::before(
            (#[trigger] r[i]).0,
            (#[trigger] r[j]).0,
        ) by {
            assert(r[i].0 == rows[i].0);
            assert(r[j].0 == rows[j].0);
        }
        assert forall|i: int| 0 <= i < r.len() implies (#[trigger] r[i]).0 == key || exists|j: int|
            0 <= j < rows.len() && (#[trigger] rows[j]).0 == r[i].0 by {
            assert(rows[i].0 == r[i].0);
        }
    } else {
        let head = rows.drop_last();
        lemma_sorted_head(rows);
        lemma_put(head, key, v);
        let p = put(head, key, v);
        assert(r.drop_last() =~= p);
        order::lemma_total(key, rows.last().0);
        order::lemma_asymmetric(key, rows.last().0);
        assert forall|i: int, j: int| 0 <= i < j < r.len() implies order::before(
            (#[trigger] r[i]).0,
            (#[trigger] r[j]).0,
        ) by {
            assert(r[i] == p[i]);
            if j < p.len() {
                assert(r[j] == p[j]);
            } else if p[i].0 != key {
                let x = choose|x: int| 0 <= x < head.len() && (#[trigger] head[x]).0 == p[i].0;
                assert(order::before(rows[x].0, rows[rows.len() - 1].0));
            }
        }
        assert forall|k: Seq<u8>| #[trigger] lookup(r, k) == (if k == key {
            Some(v)
        } else {
            lookup(rows, k)
        }) by {
            assert(lookup(p, k) == (if k == key {
                Some(v)
            } else {
                lookup(head, k)
            }));
        }
        assert forall|i: int| 0 <= i < r.len() implies (#[trigger] r[i]).0 == key || exists|j: int|
            0 <= j < rows.len() && (#[trigger] rows[j]).0 == r[i].0 by {
            if i < p.len() {
                assert(r[i] == p[i]);
                if p[i].0 != key {
                    let x = choose|x: int| 0 <= x < head.len() && (#[trigger] head[x]).0 == p[i].0;
                    assert(rows[x].0 == r[i].0);
                }
            } else {
                assert(rows[rows.len() - 1].0 == r[i].0);
            }
        }
    }
}

/// Where a key is written among sorted rows.
proof fn lemma_put_at(rows: Seq<Row>, key: Seq<u8>, v: Option<Seq<u8>>, p: int)
    requires
        0 <= p <= rows.len(),
        p == 0 || rows[p - 1].0 == key || order::before(rows[p - 1].0, key),
        forall|i: int| p <= i < rows.len() ==> order::before(key, (#[trigger] rows[i]).0),
    ensures
        put(rows, key, v) == (if p > 0 && rows[p - 1].0 == key {
            rows.update(p - 1, (key, v))
        } else {
            rows.insert(p, (key, v))
        }),
    decreases rows.len(),
{
    let r = if p > 0 && rows[p - 1].0 == key {
        rows.update(p - 1, (key, v))
    } else {
        rows.insert(p, (key, v))
    };
    if p == rows.len() {
        if p > 0 && rows[p - 1].0 == key {
            order::lemma_irreflexive(key);
        }
        assert(put(rows, key, v) =~= r);
    } else {
        assert(order::before(key, rows[rows.len() - 1].0));
        order::lemma_asymmetric(key, rows.last().0);
        lemma_put_at(rows.drop_last(), key, v, p);
        assert(r =~= put(rows.drop_last(), key, v).push(rows.last()));
    }
}

/// Rows in the order of their keys.
pub struct RowMap {
    pub entries: Vec<(Vec<u8>, Option<Vec<u8>>)>,
}

impl View for RowMap {
    type V = Seq<Row>;

    open spec fn view(&self) -> Seq<Row> {
        row_views(self.entries@)
    }
}

impl RowMap {
    pub open spec fn wf(&self) -> bool {
        sorted(self@)
    }

    /// A map without rows.
    pub fn new() -> (m: RowMap)
        ensures
            m.wf(),
            m@ == Seq::<Row>::empty(),
    {
        let m = RowMap { entries: Vec::new() };
        assert(m@ =~= Seq::<Row>::empty());
        m
    }

    /// The position behind the last row whose key is not above `key`.
    fn place_of(&self, key: &[u8]) -> (p: usize)
        requires
            self.wf(),
        ensures
            p <= self@.len(),
            p == 0 || self@[p - 1].0 == key@ || order::before(self@[p - 1].0, key@),
            forall|i: int| p <= i < self@.len() ==> order::before(key@, (#[trigger] self@[i]).0),
    {
        let mut p: usize = self.entries.len();
        while p > 0
            invariant
                p <= self.entries@.len(),
                forall|i: int|
                    p <= i < self@.len() ==> order::before(key@, (#[trigger] self@[i]).0),
            decreases p,
        {
            let rank = compare(self.entries[p - 1].0.as_slice(), key);
            assert(self@[p - 1].0 == self.entries@[p - 1].0@);
            match rank {
                Rank::Above => {
                    p -= 1;
                },
                _ => {
                    return p;
                },
            }
        }
        p
    }

    /// The position of the row of `key`.
    pub fn find(&self, key: &[u8]) -> (r: Option<usize>)
        requires
            self.wf(),
        ensures
            match r {
                Some(i) => i < self@.len() && self@[i as int].0 == key@ && lookup(self@, key@)
                    == Some(self@[i as int].1),
                None => lookup(self@, key@) is None,
            },
    {
        let p: usize = self.place_of(key);
        if p > 0 && same_bytes(self.entries[p - 1].0.as_slice(), key) {
            proof {
                lemma_present(self@, p - 1);
            }
            return Some(p - 1);
        }
        proof {
            assert forall|i: int| 0 <= i < self@.len() implies (#[trigger] self@[i]).0 != key@ by {
                if i >= p {
                    order::lemma_irreflexive(key@);
                } else if i < p - 1 {
                    assert(order::before(self@[i].0, self@[p - 1].0));
                    order::lemma_asymmetric(self@[i].0, self@[p - 1].0);
                    order::lemma_transitive(self@[i].0, self@[p - 1].0, key@);
                    order::lemma_irreflexive(key@);
                }
            }
            lemma_absent(self@, key@);
        }
        None
    }

    /// What is written under `key`.
    pub fn get(&self, key: &[u8]) -> (r: Option<&Option<Vec<u8>>>)
        requires
            self.wf(),
        ensures
            match r {
                Some(v) => lookup(self@, key@) == Some(opt_bytes(*v)),
                None => lookup(self@, key@) is None,
            },
    {
        match self.find(key) {
            Some(i) => Some(&self.entries[i].1),
            None => None,
        }
    }

    /// Writes `value` under `key`.
    pub fn insert(&mut self, key: Vec<u8>, value: Option<Vec<u8>>)
        requires
            old(self).wf(),
        ensures
            final(self).wf(),
            final(self)@ == put(old(self)@, key@, opt_bytes(value)),
    {
        let p: usize = self.place_of(key.as_slice());
        let ghost before = self@;
        let ghost k = key@;
        let ghost v = opt_bytes(value);
        proof {
            lemma_put_at(before, k, v, p as int);
            lemma_put(before, k, v);
        }
        if p > 0 && same_bytes(self.entries[p - 1].0.as_slice(), key.as_slice()) {
            self.entries[p - 1] = (key, value);
            assert(self@ =~= before.update(p - 1, (k, v)));
        } else {
            self.entries.insert(p, (key, value));
            assert(self@ =~= before.insert(p as int, (k, v)));
        }
    }

    /// The number of rows.
    pub fn len(&self) -> (n: usize)
        ensures
            n == self@.len(),
    {
        self.entries.len()
    }
}

} // verus!
