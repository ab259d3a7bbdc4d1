//! Grouping points around centroids: who belongs where, and when to stop.
//!
//! Distances are numbers that order as the distances themselves do; the
//! centroids are kept by whoever measures them.

use vstd::prelude::*;

verus! {

/// The place of the least number, the first of equal ones.
pub open spec fn first_least(keys: Seq<u32>) -> int
    decreases keys.len(),
{
    if keys.len() <= 1 {
        0
    } else {
        let head = first_least(keys.drop_last());
        if keys.last() < keys[head] {
            keys.len() - 1
        } else {
            head
        }
    }
}

/// The place of the greatest number, the last of equal ones.
pub open spec fn last_greatest(keys: Seq<u32>) -> int
    decreases keys.len(),
{
    if keys.len() <= 1 {
        0
    } else {
        let head = last_greatest(keys.drop_last());
        if keys.last() >= keys[head] {
            keys.len() - 1
        } else {
            head
        }
    }
}

/// Nothing is less than the least number, and what is before it is greater.
pub proof fn law_first_least(keys: Seq<u32>)
    requires
        keys.len() > 0,
    ensures
        0 <= first_least(keys) < keys.len(),
        forall|i: int| 0 <= i < keys.len() ==> keys[first_least(keys)] <= #[trigger] keys[i],
        forall|i: int| 0 <= i < first_least(keys) ==> keys[first_least(keys)] < #[trigger] keys[i],
    decreases keys.len(),
{
    if keys.len() > 1 {
        let rest = keys.drop_last();
        law_first_least(rest);
        assert forall|i: int| 0 <= i < keys.len() implies keys[first_least(keys)]
            <= #[trigger] keys[i] by {
            if i < rest.len() {
                assert(rest[i] == keys[i]);
            }
        }
        assert forall|i: int| 0 <= i < first_least(keys) implies keys[first_least(keys)]
            < #[trigger] keys[i] by {
            assert(rest[i] == keys[i]);
        }
    }
}

proof fn lemma_last_greatest(keys: Seq<u32>)
    requires
        keys.len() > 0,
    ensures
        0 <= last_greatest(keys) < keys.len(),
    decreases keys.len(),
{
    if keys.len() > 1 {
        lemma_last_greatest(keys.drop_last());
    }
}

/// The centroid that is nearest, by the distances to all of them; the first
/// where there is none.
pub fn nearest_centroid(keys: &Vec<u32>) -> (r: usize)
    ensures
        r == first_least(keys@),
        keys@.len() > 0 ==> r < keys@.len(),
{
    let mut best: usize = 0;
    let mut i: usize = 1;
    while i < keys.len()
        invariant
            keys@.len() > 0 ==> 1 <= i <= keys@.len(),
            keys@.len() == 0 ==> i == 1 && best == 0,
            keys@.len() > 0 ==> best < i && best == first_least(keys@.take(i as int)),
        decreases keys@.len() - i,
    {
        proof {
            assert(keys@.take(i + 1).drop_last() =~= keys@.take(i as int));
            assert(keys@.take(i + 1).last() == keys@[i as int]);
        }
        if keys[i] < keys[best] {
            best = i;
        }
        i += 1;
    }
    assert(keys@.take(keys@.len() as int) =~= keys@);
    best
}

/// The points from which the centroids start, evenly spread.
pub open spec fn seeds_of(n: nat, k: nat) -> Seq<usize> {
    let c = if k < n {
        k
    } else {
        n
    };
    Seq::new(c, |i: int| (i * n / (c as int)) as usize)
}

proof fn lemma_seed(i: int, n: int, c: int)
    requires
        0 <= i < c <= n,
    ensures
        0 <= i * n / c < n,
{
    assert(0 <= i * n) by (nonlinear_arith)
        requires
            0 <= i,
            0 <= n,
    ;
    assert(i * n < n * c) by (nonlinear_arith)
        requires
            0 <= i < c <= n,
    ;
    assert(i * n / c < n) by (nonlinear_arith)
        requires
            i * n < n * c,
            c > 0,
    ;
    assert(0 <= i * n / c) by (nonlinear_arith)
        requires
            0 <= i * n,
            c > 0,
    ;
}

/// No two centroids start from the same point.
pub proof fn law_seeds_are_distinct(n: nat, k: nat, i: int, j: int)
    requires
        n <= usize::MAX,
        0 <= i < j < seeds_of(n, k).len(),
    ensures
        seeds_of(n, k)[i] < seeds_of(n, k)[j] < n,
{
    let c = seeds_of(n, k).len() as int;
    let m = n as int;
    lemma_seed(i, m, c);
    lemma_seed(j, m, c);
    assert(i * m + c <= j * m) by (nonlinear_arith)
        requires
            i < j,
            c <= m,
            0 <= m,
    ;
    assert(i * m / c + 1 <= j * m / c) by (nonlinear_arith)
        requires
            i * m + c <= j * m,
            c > 0,
    ;
}

/// What the grouping is at.
#[derive(Debug, Clone, Copy, PartialEq, Eq, Structural)]
pub enum Phase {
    /// Every point goes to its nearest centroid.
    Assign,
    /// One centroid after the other is moved.
    Move,
    Done,
}

/// What is asked for.
#[derive(Debug, Clone, PartialEq)]
pub enum Action {
    /// The distances of every point to every centroid.
    Measure,
    /// The centroid of this number moves to the mean of these points.
    Mean(usize, Vec<usize>),
    /// The centroid of this number has no points: it moves to the point that
    /// is furthest from its own, so the distance of every point to its own
    /// centroid is needed.
    MeasureOwn(usize),
    Done,
}

/// A grouping that goes on until no point changes its group.
pub struct KMeans {
    pub points: usize,
    pub centroids: usize,
    /// How many rounds are left, the present one among them.
    pub rounds: usize,
    /// The centroid that each point belongs to.
    pub assignments: Vec<usize>,
    /// The centroid that is moved next.
    pub cluster: usize,
    /// Whether a point changed its group in this round.
    pub changed: bool,
    pub phase: Phase,
}

/// The points of a group, in order.
pub open spec fn members_of(assignments: Seq<usize>, cluster: usize) -> Seq<usize>
    decreases assignments.len(),
{
    if assignments.len() == 0 {
        Seq::empty()
    } else if assignments.last() == cluster {
        members_of(assignments.drop_last(), cluster).push((assignments.len() - 1) as usize)
    } else {
        members_of(assignments.drop_last(), cluster)
    }
}

impl KMeans {
    pub open spec fn wf(&self) -> bool {
        &&& 0 < self.centroids <= self.points
        &&& self.assignments@.len() == self.points
        &&& forall|i: int|
            0 <= i < self.points ==> (#[trigger] self.assignments@[i]) < self.centroids
        &&& self.phase == Phase::Move ==> self.cluster < self.centroids
        &&& self.phase != Phase::Done ==> self.rounds > 0
    }

    /// Begins a grouping of `n` points into `k` groups, or into as many as
    /// there are points. The second part says from which points the centroids
    /// start.
    pub fn begin(n: usize, k: usize, max_iters: usize) -> (r: (KMeans, Vec<usize>))
        requires
            n > 0,
            k > 0,
        ensures
            r.0.wf(),
            r.0.points == n,
            r.0.centroids == seeds_of(n as nat, k as nat).len(),
            r.0.rounds == max_iters,
            forall|i: int| 0 <= i < n ==> #[trigger] r.0.assignments@[i] == 0,
            r.0.phase == (if max_iters == 0 {
                Phase::Done
            } else {
                Phase::Assign
            }),
            r.1@ == seeds_of(n as nat, k as nat),
    {
        let c: usize = if k < n {
            k
        } else {
            n
        };
        let mut seeds: Vec<usize> = Vec::new();
        let mut i: usize = 0;
        while i < c
            invariant
                0 < c <= n,
                c == seeds_of(n as nat, k as nat).len(),
                i <= c,
                seeds@ == seeds_of(n as nat, k as nat).take(i as int),
            decreases c - i,
        {
            proof {
                lemma_seed(i as int, n as int, c as int);
                assert(i * n <= usize::MAX * usize::MAX) by (nonlinear_arith)
                    requires
                        0 <= i <= usize::MAX,
                        0 <= n <= usize::MAX,
                ;
                assert(usize::MAX * usize::MAX <= u128::MAX) by (nonlinear_arith)
                    requires
                        usize::MAX <= u64::MAX,
                ;
                assert(seeds_of(n as nat, k as nat)[i as int] == (i as int * (n as int) / (
                c as int)) as usize);
            }
            let s: u128 = (i as u128) * (n as u128) / (c as u128);
            seeds.push(s as usize);
            i += 1;
            assert(seeds_of(n as nat, k as nat).take(i as int) =~= seeds_of(
                n as nat,
                k as nat,
            ).take(i - 1).push(seeds_of(n as nat, k as nat)[i - 1]));
        }
        assert(seeds@ =~= seeds_of(n as nat, k as nat));
        let mut assignments: Vec<usize> = Vec::new();
        let mut j: usize = 0;
        while j < n
            invariant
                j <= n,
                assignments@.len() == j,
                forall|x: int| 0 <= x < j ==> #[trigger] assignments@[x] == 0,
            decreases n - j,
        {
            assignments.push(0);
            j += 1;
        }
        let phase = if max_iters == 0 {
            Phase::Done
        } else {
            Phase::Assign
        };
        (
            KMeans {
                points: n,
                centroids: c,
                rounds: max_iters,
                assignments,
                cluster: 0,
                changed: false,
                phase,
            },
            seeds,
        )
    }

    /// What is asked for next.
    pub fn action(&self) -> (a: Action)
        requires
            self.wf(),
        ensures
            match self.phase {
                Phase::Assign => a is Measure,
                Phase::Done => a is Done,
                Phase::Move => {
                    let members = members_of(self.assignments@, self.cluster);
                    if members.len() > 0 {
                        a matches Action::Mean(c, ps) && c == self.cluster && ps@ == members
                    } else {
                        a == Action::MeasureOwn(self.cluster)
                    }
                },
            },
    {
        match self.phase {
            Phase::Assign => Action::Measure,
            Phase::Done => Action::Done,
            Phase::Move => {
                let mut members: Vec<usize> = Vec::new();
                let mut i: usize = 0;
                let ghost all = self.assignments@;
                assert(all.take(0) =~= Seq::<usize>::empty());
                while i < self.assignments.len()
                    invariant
                        all == self.assignments@,
                        i <= all.len(),
                        members@ == members_of(all.take(i as int), self.cluster),
                    decreases all.len() - i,
                {
                    proof {
                        assert(all.take(i + 1).drop_last() =~= all.take(i as int));
                        assert(all.take(i + 1).last() == all[i as int]);
                    }
                    if self.assignments[i] == self.cluster {
                        members.push(i);
                    }
                    i += 1;
                }
                assert(all.take(all.len() as int) =~= all);
                if members.len() > 0 {
                    Action::Mean(self.cluster, members)
                } else {
                    Action::MeasureOwn(self.cluster)
                }
            },
        }
    }

    /// Every point goes to its nearest centroid, by the distances to all of
    /// them.
    pub fn assign(&mut self, keys: &Vec<Vec<u32>>)
        requires
            old(self).wf(),
            old(self).phase == Phase::Assign,
            keys@.len() == old(self).points,
            forall|i: int|
                0 <= i < keys@.len() ==> (#[trigger] keys@[i])@.len() == old(self).centroids,
        ensures
            final(self).wf(),
            forall|i: int|
                0 <= i < old(self).points ==> #[trigger] final(self).assignments@[i]
                    == first_least(keys@[i]@),
            final(self).changed == (final(self).assignments@ != old(self).assignments@),
            *final(self) == (KMeans {
                assignments: final(self).assignments,
                changed: final(self).changed,
                cluster: 0,
                phase: Phase::Move,
                ..*old(self)
            }),
    {
        let ghost before = self.assignments@;
        self.changed = false;
        let mut i: usize = 0;
        while i < keys.len()
            invariant
                old(self).wf(),
                keys@.len() == old(self).points,
                forall|x: int|
                    0 <= x < keys@.len() ==> (#[trigger] keys@[x])@.len() == old(self).centroids,
                before == old(self).assignments@,
                i <= keys@.len(),
                self.assignments@.len() == keys@.len(),
                *self == (KMeans {
                    assignments: self.assignments,
                    changed: self.changed,
                    ..*old(self)
                }),
                forall|x: int|
                    0 <= x < i ==> #[trigger] self.assignments@[x] == first_least(keys@[x]@)
                        && self.assignments@[x] < self.centroids,
                forall|x: int|
                    i <= x < before.len() ==> #[trigger] self.assignments@[x] == before[x],
                self.changed <==> exists|x: int|
                    0 <= x < i && #[trigger] self.assignments@[x] != before[x],
            decreases keys@.len() - i,
        {
            let ghost now = self.assignments@;
            let best: usize = nearest_centroid(&keys[i]);
            assert(now[i as int] == before[i as int]);
            if self.assignments[i] != best {
                self.assignments.set(i, best);
                self.changed = true;
                assert(self.assignments@[i as int] != before[i as int]);
            } else if self.changed {
                let ghost x = choose|x: int| 0 <= x < i && #[trigger] now[x] != before[x];
                assert(self.assignments@[x] != before[x]);
            }
            i += 1;
        }
        proof {
            if self.changed {
                let x = choose|x: int|
                    0 <= x < keys@.len() && #[trigger] self.assignments@[x] != before[x];
                assert(self.assignments@ != before);
            } else {
                assert(self.assignments@ =~= before);
            }
        }
        self.cluster = 0;
        self.phase = Phase::Move;
    }

    /// The point to which a centroid without points moves: the one that is
    /// furthest from its own centroid.
    pub fn furthest(&self, keys: &Vec<u32>) -> (p: usize)
        requires
            self.wf(),
            keys@.len() == self.points,
        ensures
            p == last_greatest(keys@),
            p < self.points,
    {
        let mut best: usize = 0;
        let mut i: usize = 1;
        while i < keys.len()
            invariant
                1 <= i <= keys@.len(),
                best < i,
                best == last_greatest(keys@.take(i as int)),
            decreases keys@.len() - i,
        {
            proof {
                assert(keys@.take(i + 1).drop_last() =~= keys@.take(i as int));
                assert(keys@.take(i + 1).last() == keys@[i as int]);
            }
            if keys[i] >= keys[best] {
                best = i;
            }
            i += 1;
        }
        assert(keys@.take(keys@.len() as int) =~= keys@);
        best
    }

    /// A centroid was moved. After the last one a new round begins, unless no
    /// point changed its group in this one, or it was the last.
    pub fn moved(&mut self)
        requires
            old(self).wf(),
            old(self).phase == Phase::Move,
        ensures
            final(self).wf(),
            final(self).assignments == old(self).assignments,
            *final(self) == after_move(*old(self)),
    {
        if self.cluster + 1 < self.centroids {
            self.cluster = self.cluster + 1;
        } else {
            self.rounds = self.rounds - 1;
            if !self.changed || self.rounds == 0 {
                self.phase = Phase::Done;
            } else {
                self.phase = Phase::Assign;
            }
        }
    }
}

/// Every point is in the group of its centroid, and in no other.
pub proof fn law_groups_part_the_points(assignments: Seq<usize>, cluster: usize, p: usize)
    requires
        assignments.len() <= usize::MAX,
        p < assignments.len(),
    ensures
        members_of(assignments, cluster).contains(p) <==> assignments[p as int] == cluster,
    decreases assignments.len(),
{
    let rest = assignments.drop_last();
    let head = members_of(rest, cluster);
    let all = members_of(assignments, cluster);
    let last = (assignments.len() - 1) as usize;
    if p < last {
        law_groups_part_the_points(rest, cluster, p);
        assert(rest[p as int] == assignments[p as int]);
        if all.contains(p) {
            let j = choose|j: int| 0 <= j < all.len() && all[j] == p;
            assert(head[j] == p);
        }
        if head.contains(p) {
            let j = choose|j: int| 0 <= j < head.len() && head[j] == p;
            assert(all[j] == p);
        }
    } else {
        lemma_members_below(rest, cluster);
        if assignments.last() == cluster {
            assert(all[head.len() as int] == p);
        } else if all.contains(p) {
            let j = choose|j: int| 0 <= j < head.len() && head[j] == p;
            assert(head[j] < rest.len());
        }
    }
}

proof fn lemma_members_below(assignments: Seq<usize>, cluster: usize)
    requires
        assignments.len() <= usize::MAX,
    ensures
        forall|j: int|
            0 <= j < members_of(assignments, cluster).len() ==> (#[trigger] members_of(
                assignments,
                cluster,
            )[j]) < assignments.len(),
    decreases assignments.len(),
{
    if assignments.len() > 0 {
        lemma_members_below(assignments.drop_last(), cluster);
        let head = members_of(assignments.drop_last(), cluster);
        let all = members_of(assignments, cluster);
        assert forall|j: int| 0 <= j < all.len() implies (#[trigger] all[j]) < assignments.len() by {
            if j < head.len() {
                assert(all[j] == head[j]);
            }
        }
    }
}

/// The furthest point is the last of those whose distance none exceeds.
pub proof fn law_last_greatest(keys: Seq<u32>)
    requires
        keys.len() > 0,
    ensures
        0 <= last_greatest(keys) < keys.len(),
        forall|i: int| 0 <= i < keys.len() ==> keys[last_greatest(keys)] >= #[trigger] keys[i],
        forall|i: int|
            last_greatest(keys) < i < keys.len() ==> keys[last_greatest(keys)] > #[trigger] keys[i],
    decreases keys.len(),
{
    if keys.len() > 1 {
        let head = keys.drop_last();
        law_last_greatest(head);
        assert forall|i: int| 0 <= i < head.len() implies #[trigger] keys[i] == head[i] by {}
    }
}

/// After a round every point belongs to the first of the centroids that are nearest
/// to it.
pub proof fn law_points_go_to_the_nearest(
    keys: Vec<u32>,
    r: usize,
    other: int,
)
    requires
        call_ensures(nearest_centroid, (&keys,), r),
        0 <= other < keys@.len(),
    ensures
        r < keys@.len(),
        keys@[r as int] <= keys@[other],
        other < r ==> keys@[r as int] < keys@[other],
{
    law_first_least(keys@);
}

/// The members of a group are listed by ascending numbers.
pub proof fn law_members_ascend(assignments: Seq<usize>, cluster: usize)
    requires
        assignments.len() <= usize::MAX,
    ensures
        forall|i: int, j: int|
            0 <= i < j < members_of(assignments, cluster).len() ==> (#[trigger] members_of(
                assignments,
                cluster,
            )[i]) < (#[trigger] members_of(assignments, cluster)[j]),
        forall|i: int|
            0 <= i < members_of(assignments, cluster).len() ==> (#[trigger] members_of(
                assignments,
                cluster,
            )[i]) < assignments.len(),
    decreases assignments.len(),
{
    if assignments.len() > 0 {
        let before = members_of(assignments.drop_last(), cluster);
        let all = members_of(assignments, cluster);
        law_members_ascend(assignments.drop_last(), cluster);
        assert forall|i: int| 0 <= i < all.len() implies (#[trigger] all[i])
            < assignments.len() by {
            if i < before.len() {
                assert(all[i] == before[i]);
            }
        }
        assert forall|i: int, j: int| 0 <= i < j < all.len() implies (#[trigger] all[i]) < (
        #[trigger] all[j]) by {
            assert(all[i] == before[i]);
            if j < before.len() {
                assert(all[j] == before[j]);
            }
        }
    }
}

/// The first centroids are spread over the points: the first is the first point,
/// and there are as many as asked for or as there are points.
pub proof fn law_seeds_are_spread(n: nat, k: nat, i: int)
    requires
        0 < n <= usize::MAX,
        0 < k,
    ensures
        seeds_of(n, k).len() == (if k < n {
            k
        } else {
            n
        }),
        seeds_of(n, k)[0] == 0,
        0 <= i < seeds_of(n, k).len() ==> {
            let c = seeds_of(n, k).len();
            seeds_of(n, k)[i] * c <= i * n < (seeds_of(n, k)[i] + 1) * c
        },
{
    let c = seeds_of(n, k).len() as int;
    assert(0int * n / c == 0) by (nonlinear_arith)
        requires
            c > 0,
    ;
    if 0 <= i < c {
        let q = i * n / c;
        assert(0 <= q && q * c <= i * n && i * n < (q + 1) * c) by (nonlinear_arith)
            requires
                c > 0,
                0 <= i,
                q == i * n / c,
        ;
        assert(q < n) by (nonlinear_arith)
            requires
                q * c <= i * n,
                i < c,
                0 < n,
                0 < c,
        ;
    }
}

/// A grouping once a centroid was moved.
pub open spec fn after_move(k: KMeans) -> KMeans {
    if k.cluster + 1 < k.centroids {
        KMeans { cluster: (k.cluster + 1) as usize, ..k }
    } else {
        KMeans {
            rounds: (k.rounds - 1) as usize,
            phase: if !k.changed || k.rounds == 1 {
                Phase::Done
            } else {
                Phase::Assign
            },
            ..k
        }
    }
}

/// A grouping once `n` centroids were moved.
pub open spec fn after_moves(k: KMeans, n: nat) -> KMeans
    decreases n,
{
    if n == 0 {
        k
    } else {
        after_move(after_moves(k, (n - 1) as nat))
    }
}

/// In a round each centroid is moved once, in order. Behind the last one the round
/// is over: the grouping is done where no point changed its group or where it was
/// the last round, and goes on else with one round less.
pub proof fn law_round_moves_every_centroid_once(k: KMeans, n: nat)
    requires
        k.phase == Phase::Move,
        k.cluster == 0,
        0 < k.centroids,
        0 < k.rounds,
        n <= k.centroids,
    ensures
        n < k.centroids ==> after_moves(k, n).cluster == n && after_moves(k, n).phase == Phase::Move
            && after_moves(k, n).rounds == k.rounds,
        n == k.centroids ==> {
            &&& after_moves(k, n).rounds == k.rounds - 1
            &&& after_moves(k, n).phase == Phase::Done <==> !k.changed || k.rounds == 1
            &&& after_moves(k, n).phase == Phase::Assign <==> k.changed && k.rounds > 1
        },
        after_moves(k, n).assignments == k.assignments,
        after_moves(k, n).changed == k.changed,
        after_moves(k, n).centroids == k.centroids,
    decreases n,
{
    if n > 0 {
        law_round_moves_every_centroid_once(k, (n - 1) as nat);
    }
}

} // verus!
