//! A vector index in several parts.

use vstd::prelude::*;
use vstd::string::*;

use super::gpu;
use super::gpu::nearest;
use crate::database::rowmap::copy_bytes;
use crate::text;
use crate::text::decimal_text;

verus! {

/// A row that was found, with its distance from the goal.
pub struct Hit {
    pub row_key: Vec<u8>,
    pub distance: u32,
}

/// A row that was found, as mathematical values.
pub type HitView = (Seq<u8>, u32);

pub open spec fn hit_views(hits: Seq<Hit>) -> Seq<HitView> {
    hits.map_values(|h: Hit| (h.row_key@, h.distance))
}

/// The rows that all parts found, part by part.
pub open spec fn gathered(parts: Seq<Vec<Hit>>) -> Seq<HitView>
    decreases parts.len(),
{
    if parts.len() == 0 {
        Seq::empty()
    } else {
        gathered(parts.drop_last()) + hit_views(parts.last()@)
    }
}

pub open spec fn distances_of(hits: Seq<HitView>) -> Seq<u32> {
    hits.map_values(|h: HitView| h.1)
}

/// The `k` nearest of the rows that all parts found.
pub open spec fn merged(parts: Seq<Vec<Hit>>, k: nat) -> Seq<HitView> {
    let all = gathered(parts);
    gpu::nearest_of(distances_of(all), k).map_values(|i: usize| all[i as int])
}

/// How many rows each part of an index holds.
pub struct ShardedVectorIndex {
    sizes: Vec<u64>,
}

/// The sum of numbers.
pub open spec fn total(sizes: Seq<u64>) -> nat
    decreases sizes.len(),
{
    if sizes.len() == 0 {
        0
    } else {
        total(sizes.drop_last()) + sizes.last() as nat
    }
}

proof fn lemma_total_grows(sizes: Seq<u64>, n: int)
    requires
        0 <= n <= sizes.len(),
    ensures
        total(sizes.take(n)) <= total(sizes),
    decreases sizes.len(),
{
    if n < sizes.len() {
        assert(sizes.drop_last().take(n) =~= sizes.take(n));
        lemma_total_grows(sizes.drop_last(), n);
    } else {
        assert(sizes.take(n) =~= sizes);
    }
}

/// The name of the file of a part.
pub fn shard_file(shard: u32) -> (name: String)
    ensures
        name@ == "shard-"@ + text::decimal(shard as nat) + ".vec"@,
{
    let mut name = "shard-".to_owned();
    name.append(decimal_text(shard as u64).as_str());
    name.append(".vec");
    name
}

impl ShardedVectorIndex {
    pub closed spec fn sizes(&self) -> Seq<u64> {
        self.sizes@
    }

    /// An index whose parts hold so many rows.
    pub fn open(sizes: Vec<u64>) -> (s: ShardedVectorIndex)
        requires
            0 < sizes@.len() <= u32::MAX,
        ensures
            s.sizes() == sizes@,
    {
        ShardedVectorIndex { sizes }
    }

    /// How many parts there are.
    pub fn shard_count(&self) -> (n: u32)
        requires
            self.sizes().len() <= u32::MAX,
        ensures
            n == self.sizes().len(),
    {
        self.sizes.len() as u32
    }

    /// How many rows all parts hold.
    pub fn len(&self) -> (n: u64)
        requires
            total(self.sizes()) <= u64::MAX,
        ensures
            n == total(self.sizes()),
    {
        let mut n: u64 = 0;
        let mut i: usize = 0;
        assert(self.sizes@.take(0) =~= Seq::<u64>::empty());
        while i < self.sizes.len()
            invariant
                total(self.sizes@) <= u64::MAX,
                i <= self.sizes@.len(),
                n == total(self.sizes@.take(i as int)),
            decreases self.sizes@.len() - i,
        {
            proof {
                assert(self.sizes@.take(i + 1).drop_last() =~= self.sizes@.take(i as int));
                lemma_total_grows(self.sizes@, i + 1);
            }
            n = n + self.sizes[i];
            i += 1;
        }
        assert(self.sizes@.take(self.sizes@.len() as int) =~= self.sizes@);
        n
    }

    /// Whether no part holds a row.
    pub fn is_empty(&self) -> (r: bool)
        requires
            total(self.sizes()) <= u64::MAX,
        ensures
            r == (total(self.sizes()) == 0),
    {
        self.len() == 0
    }

    /// Notes that a row went to a part.
    pub fn insert(&mut self, shard: u32)
        requires
            shard < old(self).sizes().len(),
            old(self).sizes()[shard as int] < u64::MAX,
        ensures
            final(self).sizes() == old(self).sizes().update(
                shard as int,
                (old(self).sizes()[shard as int] + 1) as u64,
            ),
    {
        let n: u64 = self.sizes[shard as usize];
        self.sizes[shard as usize] = n + 1;
    }

    /// Picks the `k` nearest of the rows that all parts found.
    pub fn query_knn(parts: &Vec<Vec<Hit>>, k: usize) -> (r: Vec<Hit>)
        ensures
            hit_views(r@) == merged(parts@, k as nat),
    {
        let mut all: Vec<Hit> = Vec::new();
        let mut distances: Vec<u32> = Vec::new();
        let mut i: usize = 0;
        assert(parts@.take(0) =~= Seq::<Vec<Hit>>::empty());
        assert(hit_views(all@) =~= Seq::<HitView>::empty());
        while i < parts.len()
            invariant
                i <= parts@.len(),
                hit_views(all@) == gathered(parts@.take(i as int)),
                distances@ == distances_of(hit_views(all@)),
            decreases parts@.len() - i,
        {
            assert(parts@.take(i + 1).drop_last() =~= parts@.take(i as int));
            let ghost before = hit_views(all@);
            let ghost part = hit_views(parts@[i as int]@);
            let mut j: usize = 0;
            assert(before + part.take(0) =~= before);
            while j < parts[i].len()
                invariant
                    i < parts@.len(),
                    part == hit_views(parts@[i as int]@),
                    j <= part.len(),
                    hit_views(all@) == before + part.take(j as int),
                    distances@ == distances_of(hit_views(all@)),
                decreases part.len() - j,
            {
                let h = &parts[i][j];
                let ghost had = all@;
                all.push(Hit { row_key: copy_bytes(h.row_key.as_slice()), distance: h.distance });
                distances.push(h.distance);
                proof {
                    assert(hit_views(all@) =~= hit_views(had).push(part[j as int]));
                    assert(part.take(j + 1) =~= part.take(j as int).push(part[j as int]));
                    assert(hit_views(all@) =~= before + part.take(j + 1));
                }
                assert(distances@ =~= distances_of(hit_views(all@)));
                j += 1;
            }
            assert(part.take(part.len() as int) =~= part);
            i += 1;
        }
        assert(parts@.take(parts@.len() as int) =~= parts@);
        let best = nearest(&distances, k);
        let mut r: Vec<Hit> = Vec::new();
        let mut b: usize = 0;
        while b < best.len()
            invariant
                best@ == gpu::nearest_of(distances@, k as nat),
                distances@ == distances_of(hit_views(all@)),
                b <= best@.len(),
                r@.len() == b,
                forall|m: int| 0 <= m < b ==> hit_views(r@)[m] == hit_views(all@)[best@[m] as int],
            decreases best@.len() - b,
        {
            proof {
                gpu::lemma_nearest_in_range(distances@, k as nat);
                assert(best@[b as int] < all@.len());
            }
            let h = &all[best[b]];
            let ghost had = r@;
            r.push(Hit { row_key: copy_bytes(h.row_key.as_slice()), distance: h.distance });
            proof {
                let found = hit_views(all@)[best@[b as int] as int];
                assert(hit_views(r@) =~= hit_views(had).push(found));
            }
            b += 1;
        }
        assert(hit_views(r@) =~= merged(parts@, k as nat));
        r
    }
}

/// Where the rows of a part begin among those of all parts.
proof fn lemma_gathered_at(parts: Seq<Vec<Hit>>, i: int)
    requires
        0 <= i < parts.len(),
    ensures
        gathered(parts.take(i)).len() + parts[i]@.len() <= gathered(parts).len(),
        forall|t: int|
            0 <= t < parts[i]@.len() ==> #[trigger] gathered(parts)[gathered(parts.take(i)).len()
                + t] == (parts[i]@[t].row_key@, parts[i]@[t].distance),
    decreases parts.len(),
{
    let head = parts.drop_last();
    if i == parts.len() - 1 {
        assert(parts.take(i) =~= head);
    } else {
        assert(head.take(i) =~= parts.take(i));
        lemma_gathered_at(head, i);
    }
}

/// A list without repetitions is no longer than one that holds all of it.
proof fn lemma_held_is_shorter(a: Seq<usize>, b: Seq<usize>)
    requires
        a.no_duplicates(),
        forall|i: int| 0 <= i < a.len() ==> b.contains(#[trigger] a[i]),
    ensures
        a.len() <= b.len(),
{
    a.unique_seq_to_set();
    b.lemma_cardinality_of_set();
    assert(a.to_set().subset_of(b.to_set())) by {
        assert forall|x: usize| a.to_set().contains(x) implies b.to_set().contains(x) by {
            let i = choose|i: int| 0 <= i < a.len() && a[i] == x;
            assert(b.contains(a[i]));
        }
    }
    vstd::seq_lib::seq_to_set_is_finite(b);
    vstd::set_lib::lemma_len_subset(a.to_set(), b.to_set());
}

/// Where a part hands over its `k` nearest rows, no row that it left out is
/// nearer than any that is picked: `d` is as far away as the part's rows, or
/// further.
pub proof fn law_nearest_of_the_parts_are_nearest_of_all(
    parts: Seq<Vec<Hit>>,
    k: nat,
    i: int,
    d: u32,
    j: int,
)
    requires
        gathered(parts).len() <= usize::MAX,
        0 <= i < parts.len(),
        parts[i]@.len() >= k,
        forall|t: int| 0 <= t < parts[i]@.len() ==> (#[trigger] parts[i]@[t]).distance <= d,
        0 <= j < merged(parts, k).len(),
    ensures
        merged(parts, k)[j].1 <= d,
{
    let all = gathered(parts);
    let ds = distances_of(all);
    let best = gpu::nearest_of(ds, k);
    let base = gathered(parts.take(i)).len() as int;
    lemma_gathered_at(parts, i);
    gpu::lemma_nearest_in_range(ds, k);
    if ds[best[j] as int] > d {
        let own = Seq::new(k, |t: int| (base + t) as usize);
        assert forall|t: int| 0 <= t < k implies best.contains(#[trigger] own[t]) && ds[own[t] as int]
            <= d by {
            assert(all[base + t] == (parts[i]@[t].row_key@, parts[i]@[t].distance));
            if !best.contains(own[t]) {
                gpu::law_nearest_come_first(ds, k, j, own[t]);
            }
        }
        let more = own.push(best[j]);
        assert forall|a: int, b: int| 0 <= a < more.len() && 0 <= b < more.len() && a != b implies more[a]
            != more[b] by {
            if a == k {
                assert(ds[own[b] as int] <= d);
            } else if b == k {
                assert(ds[own[a] as int] <= d);
            }
        }
        assert forall|t: int| 0 <= t < more.len() implies best.contains(#[trigger] more[t]) by {
            if t < k {
                assert(more[t] == own[t]);
            }
        }
        lemma_held_is_shorter(more, best);
    }
}

/// The hits of all parts, put together, are as many as asked for or as there are,
/// each one of a part, the nearer before the further; none that is left out is
/// nearer than one that is given.
pub proof fn law_merged_hits_are_the_nearest(parts: Seq<Vec<Hit>>, k: nat, j: int, p: usize)
    requires
        gathered(parts).len() <= usize::MAX,
        0 <= j < merged(parts, k).len(),
        p < gathered(parts).len(),
    ensures
        ({
            let all = gathered(parts);
            let m = merged(parts, k);
            let chosen = gpu::nearest_of(distances_of(all), k);
            &&& m.len() == (if k < all.len() {
                k
            } else {
                all.len()
            })
            &&& all.contains(m[j])
            &&& forall|i: int| 0 <= i < j ==> (#[trigger] m[i]).1 <= m[j].1
            &&& chosen.no_duplicates()
            &&& chosen.contains(p) || m[j].1 <= all[p as int].1
        }),
{
    let all = gathered(parts);
    let ds = distances_of(all);
    let chosen = gpu::nearest_of(ds, k);
    let m = merged(parts, k);
    gpu::law_nearest_are_enough_and_each_once(ds, k);
    assert(m[j] == all[chosen[j] as int]);
    assert forall|i: int| 0 <= i < j implies (#[trigger] m[i]).1 <= m[j].1 by {
        assert(m[i] == all[chosen[i] as int]);
        assert(ds[chosen[i] as int] == all[chosen[i] as int].1);
        assert(ds[chosen[j] as int] == all[chosen[j] as int].1);
    }
    if !chosen.contains(p) {
        gpu::law_nearest_come_first(ds, k, j, p);
        assert(ds[p as int] == all[p as int].1);
        assert(ds[chosen[j] as int] == all[chosen[j] as int].1);
    }
}

/// The hits of the parts are put together without losing or changing one.
pub proof fn law_hits_are_gathered_from_every_part(parts: Seq<Vec<Hit>>, h: HitView)
    ensures
        gathered(parts).contains(h) <==> exists|i: int|
            0 <= i < parts.len() && hit_views((#[trigger] parts[i])@).contains(h),
    decreases parts.len(),
{
    if parts.len() > 0 {
        let head = parts.drop_last();
        let n = parts.len() - 1;
        law_hits_are_gathered_from_every_part(head, h);
        let a = gathered(head);
        let b = hit_views(parts.last()@);
        let all = a + b;
        assert(parts[n] == parts.last());
        assert forall|i: int| 0 <= i < n implies #[trigger] parts[i] == head[i] by {}
        if a.contains(h) {
            let k = choose|k: int| 0 <= k < a.len() && a[k] == h;
            assert(all[k] == h);
            let i = choose|i: int| 0 <= i < head.len() && hit_views((#[trigger] head[i])@).contains(h);
            assert(parts[i] == head[i]);
        }
        if b.contains(h) {
            let k = choose|k: int| 0 <= k < b.len() && b[k] == h;
            assert(all[a.len() + k] == h);
        }
        if all.contains(h) {
            let k = choose|k: int| 0 <= k < all.len() && all[k] == h;
            if k < a.len() {
                assert(a[k] == h);
            } else {
                assert(b[k - a.len()] == h);
            }
        }
    }
}

} // verus!
