//! The graph of Vamana: every point is linked to a few others, near and far,
//! so that a greedy walk finds the points nearest to any place.

use vstd::prelude::*;

use crate::ranking;
use crate::ranking::sort_by_rank;

verus! {

/// Distances between points: from each point to each.
pub type Table = Seq<Seq<u32>>;

pub open spec fn tables(t: Seq<Vec<u32>>) -> Table {
    t.map_values(|r: Vec<u32>| r@)
}

pub open spec fn lists(t: Seq<Vec<usize>>) -> Seq<Seq<usize>> {
    t.map_values(|r: Vec<usize>| r@)
}

/// Whether a table holds a distance for every two of `n` points.
pub open spec fn square(t: Table, n: nat) -> bool {
    t.len() == n && forall|i: int| 0 <= i < n ==> (#[trigger] t[i]).len() == n
}

/// Whether every number is that of one of `n` points.
pub open spec fn points_of(list: Seq<usize>, n: nat) -> bool {
    forall|i: int| 0 <= i < list.len() ==> (#[trigger] list[i]) < n
}

/// Whether every link leads to one of the points.
pub open spec fn graph_of(edges: Seq<Seq<usize>>, n: nat) -> bool {
    edges.len() == n && forall|i: int| 0 <= i < n ==> points_of(#[trigger] edges[i], n)
}

/// The first point that is nearest.
pub open spec fn is_nearest(distances: Seq<u32>, p: int) -> bool {
    &&& 0 <= p < distances.len()
    &&& forall|i: int| 0 <= i < p ==> (#[trigger] distances[i]) > distances[p]
    &&& forall|i: int| p <= i < distances.len() ==> (#[trigger] distances[i]) >= distances[p]
}

/// The point where every walk starts: the first of those nearest to the
/// centre, given the distances from it.
pub fn medoid(distances: &Vec<u32>) -> (p: usize)
    requires
        distances@.len() > 0,
    ensures
        is_nearest(distances@, p as int),
{
    let mut best: usize = 0;
    let mut i: usize = 1;
    while i < distances.len()
        invariant
            best < i <= distances@.len(),
            forall|k: int| 0 <= k < best ==> (#[trigger] distances@[k]) > distances@[best as int],
            forall|k: int| best <= k < i ==> (#[trigger] distances@[k]) >= distances@[best as int],
        decreases distances@.len() - i,
    {
        if distances[i] < distances[best] {
            best = i;
        }
        i += 1;
    }
    best
}

/// The candidates nearest to the goal, at most `l` of them, at least one.
pub open spec fn shortlist(cands: Seq<usize>, to_query: Seq<u32>, l: nat) -> Seq<usize> {
    let sorted = ranking::by_rank(cands, to_query);
    let most: nat = if l == 0 {
        1
    } else {
        l
    };
    if sorted.len() > most {
        sorted.take(most as int)
    } else {
        sorted
    }
}

/// The first of a list that is not in another.
pub open spec fn first_new(list: Seq<usize>, seen: Seq<usize>) -> Option<usize>
    decreases list.len(),
{
    if list.len() == 0 {
        None
    } else if !seen.contains(list[0]) {
        Some(list[0])
    } else {
        first_new(list.drop_first(), seen)
    }
}

/// Candidates with those neighbours added that were not met before.
pub open spec fn met(cands: Seq<usize>, seen: Seq<usize>, neighbours: Seq<usize>) -> Seq<usize>
    decreases neighbours.len(),
{
    if neighbours.len() == 0 {
        cands
    } else {
        let before = met(cands, seen, neighbours.drop_last());
        let nb = neighbours.last();
        if seen.contains(nb) || before.contains(nb) {
            before
        } else {
            before.push(nb)
        }
    }
}

/// The points that a walk visits, in order: always the nearest candidate that
/// was not visited yet, for at most `steps` steps.
pub open spec fn walk(
    edges: Seq<Seq<usize>>,
    to_query: Seq<u32>,
    l: nat,
    cands: Seq<usize>,
    seen: Seq<usize>,
    steps: nat,
) -> Seq<usize>
    decreases steps,
{
    if steps == 0 {
        seen
    } else {
        let short = shortlist(cands, to_query, l);
        match first_new(short, seen) {
            None => seen,
            Some(p) => walk(
                edges,
                to_query,
                l,
                met(short, seen.push(p), edges[p as int]),
                seen.push(p),
                (steps - 1) as nat,
            ),
        }
    }
}

/// The points that a walk from `start` towards a goal visits.
pub open spec fn visits(
    edges: Seq<Seq<usize>>,
    to_query: Seq<u32>,
    l: nat,
    start: usize,
) -> Seq<usize> {
    walk(edges, to_query, l, seq![start], Seq::empty(), edges.len())
}

fn holds(list: &Vec<usize>, e: usize) -> (r: bool)
    ensures
        r == list@.contains(e),
{
    let mut i: usize = 0;
    while i < list.len()
        invariant
            i <= list@.len(),
            forall|k: int| 0 <= k < i ==> list@[k] != e,
        decreases list@.len() - i,
    {
        if list[i] == e {
            return true;
        }
        i += 1;
    }
    false
}

fn find_new(list: &Vec<usize>, seen: &Vec<usize>) -> (r: Option<usize>)
    ensures
        r == first_new(list@, seen@),
        r matches Some(p) ==> list@.contains(p) && !seen@.contains(p),
{
    let mut i: usize = 0;
    assert(list@.skip(0) =~= list@);
    while i < list.len()
        invariant
            i <= list@.len(),
            first_new(list@, seen@) == first_new(list@.skip(i as int), seen@),
        decreases list@.len() - i,
    {
        assert(list@.skip(i as int).drop_first() =~= list@.skip(i + 1));
        if !holds(seen, list[i]) {
            assert(list@[i as int] == list@.skip(i as int)[0]);
            return Some(list[i]);
        }
        i += 1;
    }
    None
}

proof fn lemma_points_sorted(list: Seq<usize>, ranks: Seq<u32>, n: nat)
    requires
        points_of(list, n),
    ensures
        points_of(ranking::by_rank(list, ranks), n),
{
    let sorted = ranking::by_rank(list, ranks);
    ranking::lemma_by_rank(list, ranks);
    assert forall|i: int| 0 <= i < sorted.len() implies (#[trigger] sorted[i]) < n by {
        assert(sorted.contains(sorted[i]));
        let k = choose|k: int| 0 <= k < list.len() && list[k] == sorted[i];
        assert(list[k] < n);
    }
}

/// Walks greedily from `start` towards a goal, given the distance of each point
/// from it, and returns the points visited, in order.
pub fn greedy_search(edges: &Vec<Vec<usize>>, to_query: &Vec<u32>, start: usize, l: usize) -> (r:
    Vec<usize>)
    requires
        graph_of(lists(edges@), to_query@.len()),
        start < to_query@.len(),
    ensures
        r@ == visits(lists(edges@), to_query@, l as nat, start),
        points_of(r@, to_query@.len()),
{
    let ghost g = lists(edges@);
    let ghost n = to_query@.len();
    let mut seen: Vec<usize> = Vec::new();
    let mut cands: Vec<usize> = Vec::new();
    cands.push(start);
    assert(cands@ =~= seq![start]);
    assert(seen@ =~= Seq::<usize>::empty());
    let mut i: usize = 0;
    let most: usize = if l == 0 {
        1
    } else {
        l
    };
    while i < edges.len()
        invariant
            g == lists(edges@),
            n == to_query@.len(),
            graph_of(g, n),
            edges@.len() == n,
            most == (if l == 0 {
                1
            } else {
                l
            }),
            i <= edges@.len(),
            points_of(seen@, n),
            points_of(cands@, n),
            visits(g, to_query@, l as nat, start) == walk(
                g,
                to_query@,
                l as nat,
                cands@,
                seen@,
                (n - i) as nat,
            ),
        decreases edges@.len() - i,
    {
        let ghost short = shortlist(cands@, to_query@, l as nat);
        proof {
            lemma_points_sorted(cands@, to_query@, n);
        }
        let mut sorted = sort_by_rank(&cands, to_query);
        if sorted.len() > most {
            sorted.truncate(most);
        }
        assert(sorted@ =~= short);
        let p: usize = match find_new(&sorted, &seen) {
            Some(p) => p,
            None => {
                return seen;
            },
        };
        proof {
            let k = choose|k: int| 0 <= k < sorted@.len() && sorted@[k] == p;
            assert(ranking::by_rank(cands@, to_query@)[k] < n);
            assert(points_of(g[p as int], n));
        }
        seen.push(p);
        let ghost nbs = edges@[p as int]@;
        assert(g[p as int] == nbs);
        let mut j: usize = 0;
        assert(nbs.take(0) =~= Seq::<usize>::empty());
        while j < edges[p].len()
            invariant
                p < edges@.len(),
                nbs == edges@[p as int]@,
                points_of(nbs, n),
                points_of(sorted@, n),
                j <= nbs.len(),
                sorted@ == met(short, seen@, nbs.take(j as int)),
            decreases nbs.len() - j,
        {
            assert(nbs.take(j + 1).drop_last() =~= nbs.take(j as int));
            assert(nbs.take(j + 1).last() == nbs[j as int]);
            let nb: usize = edges[p][j];
            assert(nbs[j as int] < n);
            if !holds(&seen, nb) && !holds(&sorted, nb) {
                sorted.push(nb);
            }
            j += 1;
        }
        assert(nbs.take(nbs.len() as int) =~= nbs);
        cands = sorted;
        i += 1;
    }
    seen
}

/// A list without one point.
pub open spec fn without(list: Seq<usize>, p: usize) -> Seq<usize>
    decreases list.len(),
{
    if list.len() == 0 {
        list
    } else if list.last() == p {
        without(list.drop_last(), p)
    } else {
        without(list.drop_last(), p).push(list.last())
    }
}

/// The candidates of `p` that `chosen` does not stand in for: those that it is
/// not much nearer to than `p` is.
pub open spec fn uncovered(
    p: usize,
    chosen: usize,
    list: Seq<usize>,
    near: Table,
    reach: Table,
) -> Seq<usize>
    decreases list.len(),
{
    if list.len() == 0 {
        list
    } else {
        let before = uncovered(p, chosen, list.drop_last(), near, reach);
        let c = list.last();
        if c != chosen && reach[chosen as int][c as int] > near[p as int][c as int] {
            before.push(c)
        } else {
            before
        }
    }
}

proof fn lemma_uncovered(p: usize, chosen: usize, list: Seq<usize>, near: Table, reach: Table)
    ensures
        uncovered(p, chosen, list, near, reach).len() <= list.len(),
        forall|i: int|
            0 <= i < uncovered(p, chosen, list, near, reach).len() ==> list.contains(
                #[trigger] uncovered(p, chosen, list, near, reach)[i],
            ) && uncovered(p, chosen, list, near, reach)[i] != chosen,
        list.len() > 0 && list[0] == chosen ==> uncovered(p, chosen, list, near, reach).len()
            < list.len(),
    decreases list.len(),
{
    if list.len() > 0 {
        let head = list.drop_last();
        let u = uncovered(p, chosen, head, near, reach);
        lemma_uncovered(p, chosen, head, near, reach);
        let all = uncovered(p, chosen, list, near, reach);
        assert forall|i: int| 0 <= i < all.len() implies list.contains(#[trigger] all[i])
            && all[i] != chosen by {
            if i < u.len() {
                assert(head.contains(u[i]));
                let k = choose|k: int| 0 <= k < head.len() && head[k] == u[i];
                assert(list[k] == all[i]);
            } else {
                assert(list[list.len() - 1] == all[i]);
            }
        }
    }
}

/// Picks the nearest candidate again and again, up to `room` of them, each time
/// dropping those that it stands in for.
pub open spec fn picked(
    p: usize,
    list: Seq<usize>,
    near: Table,
    reach: Table,
    room: nat,
) -> Seq<usize>
    decreases list.len(),
{
    if room == 0 || list.len() == 0 {
        Seq::empty()
    } else {
        let rest = uncovered(p, list[0], list, near, reach);
        if rest.len() < list.len() {
            seq![list[0]] + picked(p, rest, near, reach, (room - 1) as nat)
        } else {
            seq![list[0]]
        }
    }
}

/// The links of `p` among candidates: at most `r`.
pub open spec fn pruned(
    p: usize,
    cands: Seq<usize>,
    near: Table,
    reach: Table,
    r: nat,
) -> Seq<usize> {
    picked(p, ranking::by_rank(without(cands, p), near[p as int]), near, reach, r)
}

proof fn lemma_without(list: Seq<usize>, p: usize, n: nat)
    requires
        points_of(list, n),
    ensures
        points_of(without(list, p), n),
        forall|i: int| 0 <= i < without(list, p).len() ==> #[trigger] without(list, p)[i] != p,
    decreases list.len(),
{
    if list.len() > 0 {
        let head = list.drop_last();
        assert(points_of(head, n)) by {
            assert forall|i: int| 0 <= i < head.len() implies (#[trigger] head[i]) < n by {
                assert(list[i] < n);
            }
        }
        lemma_without(head, p, n);
        assert(list[list.len() - 1] < n);
    }
}

proof fn lemma_picked(p: usize, list: Seq<usize>, near: Table, reach: Table, room: nat, n: nat)
    requires
        points_of(list, n),
        forall|i: int| 0 <= i < list.len() ==> #[trigger] list[i] != p,
    ensures
        picked(p, list, near, reach, room).len() <= room,
        points_of(picked(p, list, near, reach, room), n),
        forall|i: int|
            0 <= i < picked(p, list, near, reach, room).len() ==> #[trigger] picked(
                p,
                list,
                near,
                reach,
                room,
            )[i] != p,
    decreases list.len(),
{
    if room > 0 && list.len() > 0 {
        let rest = uncovered(p, list[0], list, near, reach);
        lemma_uncovered(p, list[0], list, near, reach);
        assert(list[0] < n);
        if rest.len() < list.len() {
            assert forall|i: int| 0 <= i < rest.len() implies (#[trigger] rest[i]) < n && rest[i]
                != p by {
                assert(list.contains(rest[i]));
                let k = choose|k: int| 0 <= k < list.len() && list[k] == rest[i];
                assert(list[k] < n && list[k] != p);
            }
            lemma_picked(p, rest, near, reach, (room - 1) as nat, n);
        }
    }
}

/// The links of a point are at most `r` other points.
pub proof fn law_links_are_few(
    p: usize,
    cands: Seq<usize>,
    near: Table,
    reach: Table,
    r: nat,
    n: nat,
)
    requires
        points_of(cands, n),
    ensures
        pruned(p, cands, near, reach, r).len() <= r,
        points_of(pruned(p, cands, near, reach, r), n),
        forall|i: int|
            0 <= i < pruned(p, cands, near, reach, r).len() ==> #[trigger] pruned(
                p,
                cands,
                near,
                reach,
                r,
            )[i] != p,
{
    let w = without(cands, p);
    let sorted = ranking::by_rank(w, near[p as int]);
    lemma_without(cands, p, n);
    lemma_points_sorted(w, near[p as int], n);
    ranking::lemma_by_rank(w, near[p as int]);
    assert forall|i: int| 0 <= i < sorted.len() implies #[trigger] sorted[i] != p by {
        assert(sorted.contains(sorted[i]));
        let k = choose|k: int| 0 <= k < w.len() && w[k] == sorted[i];
        assert(w[k] != p);
    }
    lemma_picked(p, sorted, near, reach, r, n);
}

/// Links `p` to some of the candidates. `near` holds the distances between
/// points; `reach` holds the same distances, stretched by the factor that says
/// how much nearer a chosen point must be to stand in for another.
pub fn robust_prune(
    p: usize,
    candidates: &Vec<usize>,
    near: &Vec<Vec<u32>>,
    reach: &Vec<Vec<u32>>,
    r: usize,
) -> (result: Vec<usize>)
    requires
        p < near@.len(),
        square(tables(near@), near@.len()),
        square(tables(reach@), near@.len()),
        points_of(candidates@, near@.len()),
    ensures
        result@ == pruned(p, candidates@, tables(near@), tables(reach@), r as nat),
        result@.len() <= r,
        points_of(result@, near@.len()),
{
    let ghost n = near@.len();
    let ghost nt = tables(near@);
    let ghost rt = tables(reach@);
    proof {
        law_links_are_few(p, candidates@, nt, rt, r as nat, n);
        lemma_without(candidates@, p, n);
        assert(nt[p as int].len() == n);
    }
    let mut others: Vec<usize> = Vec::new();
    let mut i: usize = 0;
    assert(candidates@.take(0) =~= Seq::<usize>::empty());
    while i < candidates.len()
        invariant
            i <= candidates@.len(),
            others@ == without(candidates@.take(i as int), p),
        decreases candidates@.len() - i,
    {
        assert(candidates@.take(i + 1).drop_last() =~= candidates@.take(i as int));
        if candidates[i] != p {
            others.push(candidates[i]);
        }
        i += 1;
    }
    assert(candidates@.take(candidates@.len() as int) =~= candidates@);
    assert(nt[p as int] == near@[p as int]@);
    let mut remaining = sort_by_rank(&others, &near[p]);
    proof {
        lemma_points_sorted(others@, nt[p as int], n);
    }
    let mut result: Vec<usize> = Vec::new();
    let ghost goal = pruned(p, candidates@, nt, rt, r as nat);
    assert(goal =~= result@ + picked(p, remaining@, nt, rt, r as nat));
    while remaining.len() > 0 && result.len() < r
        invariant
            p < n,
            n == near@.len(),
            nt == tables(near@),
            rt == tables(reach@),
            square(nt, n),
            square(rt, n),
            points_of(remaining@, n),
            result@.len() <= r,
            goal == result@ + picked(p, remaining@, nt, rt, (r - result@.len()) as nat),
        decreases remaining@.len(),
    {
        let chosen: usize = remaining[0];
        let ghost list = remaining@;
        let ghost before = result@;
        assert(list[0] < n);
        let mut rest: Vec<usize> = Vec::new();
        let mut k: usize = 0;
        assert(list.take(0) =~= Seq::<usize>::empty());
        while k < remaining.len()
            invariant
                p < n,
                chosen < n,
                n == near@.len(),
                nt == tables(near@),
                rt == tables(reach@),
                square(nt, n),
                square(rt, n),
                points_of(remaining@, n),
                list == remaining@,
                k <= list.len(),
                rest@ == uncovered(p, chosen, list.take(k as int), nt, rt),
            decreases list.len() - k,
        {
            assert(list.take(k + 1).drop_last() =~= list.take(k as int));
            assert(list.take(k + 1).last() == list[k as int]);
            let c: usize = remaining[k];
            assert(list[k as int] < n);
            assert(rt[chosen as int].len() == n && rt[chosen as int] == reach@[chosen as int]@);
            assert(nt[p as int].len() == n && nt[p as int] == near@[p as int]@);
            if c != chosen && reach[chosen][c] > near[p][c] {
                rest.push(c);
            }
            k += 1;
        }
        proof {
            assert(list.take(list.len() as int) =~= list);
            lemma_uncovered(p, chosen, list, nt, rt);
            assert forall|i: int| 0 <= i < rest@.len() implies (#[trigger] rest@[i]) < n by {
                assert(list.contains(rest@[i]));
                let j = choose|j: int| 0 <= j < list.len() && list[j] == rest@[i];
                assert(list[j] < n);
            }
        }
        result.push(chosen);
        remaining = rest;
        assert(before + (seq![chosen] + picked(
            p,
            remaining@,
            nt,
            rt,
            (r - result@.len()) as nat,
        )) =~= result@ + picked(p, remaining@, nt, rt, (r - result@.len()) as nat));
    }
    assert(goal =~= result@);
    result
}

/// The graph after `nb` was linked back to `p`; a list that grew too long is
/// pruned.
pub open spec fn linked_back(
    edges: Seq<Seq<usize>>,
    nb: usize,
    p: usize,
    near: Table,
    reach: Table,
    r: nat,
) -> Seq<Seq<usize>> {
    let list = edges[nb as int];
    if list.contains(p) {
        edges
    } else if list.len() + 1 > r {
        edges.update(nb as int, pruned(nb, list.push(p), near, reach, r))
    } else {
        edges.update(nb as int, list.push(p))
    }
}

/// The graph after each of a list was linked back to `p`.
pub open spec fn all_linked_back(
    edges: Seq<Seq<usize>>,
    links: Seq<usize>,
    p: usize,
    near: Table,
    reach: Table,
    r: nat,
) -> Seq<Seq<usize>>
    decreases links.len(),
{
    if links.len() == 0 {
        edges
    } else {
        linked_back(
            all_linked_back(edges, links.drop_last(), p, near, reach, r),
            links.last(),
            p,
            near,
            reach,
            r,
        )
    }
}

/// The links that a point gets in a graph.
pub open spec fn links_for(
    edges: Seq<Seq<usize>>,
    start: usize,
    p: usize,
    near: Table,
    reach: Table,
    r: nat,
    l: nat,
) -> Seq<usize> {
    pruned(p, visits(edges, near[p as int], l, start), near, reach, r)
}

/// The graph after one point was linked in.
pub open spec fn with_point(
    edges: Seq<Seq<usize>>,
    start: usize,
    p: usize,
    near: Table,
    reach: Table,
    r: nat,
    l: nat,
) -> Seq<Seq<usize>> {
    let links = links_for(edges, start, p, near, reach, r, l);
    all_linked_back(edges.update(p as int, links), links, p, near, reach, r)
}

/// The graph after points were linked in, in order, starting without links.
pub open spec fn built(
    start: usize,
    order: Seq<usize>,
    near: Table,
    reach: Table,
    r: nat,
    l: nat,
) -> Seq<Seq<usize>>
    decreases order.len(),
{
    if order.len() == 0 {
        Seq::new(near.len(), |i: int| Seq::empty())
    } else {
        with_point(
            built(start, order.drop_last(), near, reach, r, l),
            start,
            order.last(),
            near,
            reach,
            r,
            l,
        )
    }
}

/// Whether no list is longer than `r`, and no point is linked to itself.
pub open spec fn lean(edges: Seq<Seq<usize>>, r: nat) -> bool {
    forall|i: int|
        0 <= i < edges.len() ==> (#[trigger] edges[i]).len() <= r && !edges[i].contains(i as usize)
}

proof fn lemma_walk_points(
    edges: Seq<Seq<usize>>,
    to_query: Seq<u32>,
    l: nat,
    cands: Seq<usize>,
    seen: Seq<usize>,
    steps: nat,
    n: nat,
)
    requires
        graph_of(edges, n),
        points_of(cands, n),
        points_of(seen, n),
    ensures
        points_of(walk(edges, to_query, l, cands, seen, steps), n),
    decreases steps,
{
    if steps > 0 {
        let short = shortlist(cands, to_query, l);
        lemma_points_sorted(cands, to_query, n);
        assert(points_of(short, n)) by {
            assert forall|i: int| 0 <= i < short.len() implies (#[trigger] short[i]) < n by {
                assert(ranking::by_rank(cands, to_query)[i] < n);
            }
        }
        lemma_first_new(short, seen);
        match first_new(short, seen) {
            None => {},
            Some(p) => {
                let k = choose|k: int| 0 <= k < short.len() && short[k] == p;
                assert(short[k] < n);
                assert(points_of(edges[p as int], n));
                lemma_met_points(short, seen.push(p), edges[p as int], n);
                lemma_walk_points(
                    edges,
                    to_query,
                    l,
                    met(short, seen.push(p), edges[p as int]),
                    seen.push(p),
                    (steps - 1) as nat,
                    n,
                );
            },
        }
    }
}

proof fn lemma_first_new(list: Seq<usize>, seen: Seq<usize>)
    ensures
        first_new(list, seen) matches Some(p) ==> list.contains(p),
    decreases list.len(),
{
    if list.len() > 0 {
        if seen.contains(list[0]) {
            let rest = list.drop_first();
            lemma_first_new(rest, seen);
            if let Some(p) = first_new(rest, seen) {
                let k = choose|k: int| 0 <= k < rest.len() && rest[k] == p;
                assert(list[k + 1] == p);
            }
        } else {
            assert(list.contains(list[0]));
        }
    }
}

proof fn lemma_met_points(cands: Seq<usize>, seen: Seq<usize>, neighbours: Seq<usize>, n: nat)
    requires
        points_of(cands, n),
        points_of(neighbours, n),
    ensures
        points_of(met(cands, seen, neighbours), n),
    decreases neighbours.len(),
{
    if neighbours.len() > 0 {
        let head = neighbours.drop_last();
        assert(points_of(head, n)) by {
            assert forall|i: int| 0 <= i < head.len() implies (#[trigger] head[i]) < n by {
                assert(neighbours[i] < n);
            }
        }
        lemma_met_points(cands, seen, head, n);
        assert(neighbours[neighbours.len() - 1] < n);
    }
}

proof fn lemma_linked_back_lean(
    edges: Seq<Seq<usize>>,
    nb: usize,
    p: usize,
    near: Table,
    reach: Table,
    r: nat,
    n: nat,
)
    requires
        graph_of(edges, n),
        lean(edges, r),
        nb < n,
        p < n,
        nb != p,
    ensures
        graph_of(linked_back(edges, nb, p, near, reach, r), n),
        lean(linked_back(edges, nb, p, near, reach, r), r),
{
    let list = edges[nb as int];
    let all = linked_back(edges, nb, p, near, reach, r);
    assert(points_of(list, n));
    assert(points_of(list.push(p), n)) by {
        assert forall|i: int| 0 <= i < list.push(p).len() implies (#[trigger] list.push(p)[i])
            < n by {
            if i < list.len() {
                assert(list[i] < n);
            }
        }
    }
    law_links_are_few(nb, list.push(p), near, reach, r, n);
    assert forall|i: int| 0 <= i < n implies points_of(#[trigger] all[i], n) by {
        if i != nb {
            assert(all[i] == edges[i]);
        }
    }
    assert forall|i: int| 0 <= i < all.len() implies (#[trigger] all[i]).len() <= r
        && !all[i].contains(i as usize) by {
        assert(edges[i].len() <= r && !edges[i].contains(i as usize));
        if i == nb && !list.contains(p) {
            if list.len() + 1 > r {
                let few = pruned(nb, list.push(p), near, reach, r);
                assert(all[i] == few);
                if few.contains(nb) {
                    let k = choose|k: int| 0 <= k < few.len() && few[k] == nb;
                    assert(few[k] != nb);
                }
            } else {
                ranking::lemma_contains_push(list, p, nb);
            }
        }
    }
}

proof fn lemma_all_linked_back_lean(
    edges: Seq<Seq<usize>>,
    links: Seq<usize>,
    p: usize,
    near: Table,
    reach: Table,
    r: nat,
    n: nat,
)
    requires
        graph_of(edges, n),
        lean(edges, r),
        points_of(links, n),
        forall|i: int| 0 <= i < links.len() ==> #[trigger] links[i] != p,
        p < n,
    ensures
        graph_of(all_linked_back(edges, links, p, near, reach, r), n),
        lean(all_linked_back(edges, links, p, near, reach, r), r),
    decreases links.len(),
{
    if links.len() > 0 {
        let head = links.drop_last();
        assert forall|i: int| 0 <= i < head.len() implies (#[trigger] head[i]) < n && head[i]
            != p by {
            assert(links[i] < n && links[i] != p);
        }
        lemma_all_linked_back_lean(edges, head, p, near, reach, r, n);
        assert(links[links.len() - 1] < n && links[links.len() - 1] != p);
        lemma_linked_back_lean(
            all_linked_back(edges, head, p, near, reach, r),
            links.last(),
            p,
            near,
            reach,
            r,
            n,
        );
    }
}

proof fn lemma_with_point_lean(
    edges: Seq<Seq<usize>>,
    start: usize,
    p: usize,
    near: Table,
    reach: Table,
    r: nat,
    l: nat,
    n: nat,
)
    requires
        graph_of(edges, n),
        lean(edges, r),
        start < n,
        p < n,
    ensures
        points_of(visits(edges, near[p as int], l, start), n),
        points_of(links_for(edges, start, p, near, reach, r, l), n),
        graph_of(with_point(edges, start, p, near, reach, r, l), n),
        lean(with_point(edges, start, p, near, reach, r, l), r),
{
    let seen = visits(edges, near[p as int], l, start);
    lemma_walk_points(edges, near[p as int], l, seq![start], Seq::empty(), edges.len(), n);
    let links = links_for(edges, start, p, near, reach, r, l);
    law_links_are_few(p, seen, near, reach, r, n);
    let set = edges.update(p as int, links);
    assert forall|i: int| 0 <= i < n implies points_of(#[trigger] set[i], n) by {
        if i != p {
            assert(set[i] == edges[i]);
        }
    }
    assert forall|i: int| 0 <= i < set.len() implies (#[trigger] set[i]).len() <= r
        && !set[i].contains(i as usize) by {
        if i != p {
            assert(set[i] == edges[i]);
        } else if links.contains(p) {
            let k = choose|k: int| 0 <= k < links.len() && links[k] == p;
            assert(links[k] != p);
        }
    }
    lemma_all_linked_back_lean(set, links, p, near, reach, r, n);
}

/// In a finished graph no point has more than `r` links, and none is linked to
/// itself.
pub proof fn law_out_degree_is_bounded(
    start: usize,
    order: Seq<usize>,
    near: Table,
    reach: Table,
    r: nat,
    l: nat,
)
    requires
        start < near.len(),
        points_of(order, near.len()),
    ensures
        graph_of(built(start, order, near, reach, r, l), near.len()),
        lean(built(start, order, near, reach, r, l), r),
    decreases order.len(),
{
    if order.len() > 0 {
        let head = order.drop_last();
        assert forall|i: int| 0 <= i < head.len() implies (#[trigger] head[i]) < near.len() by {
            assert(order[i] < near.len());
        }
        law_out_degree_is_bounded(start, head, near, reach, r, l);
        assert(order[order.len() - 1] < near.len());
        lemma_with_point_lean(
            built(start, head, near, reach, r, l),
            start,
            order.last(),
            near,
            reach,
            r,
            l,
            near.len(),
        );
    }
}

/// A graph over points, and where walks start.
pub struct VamanaGraph {
    pub medoid: usize,
    pub edges: Vec<Vec<usize>>,
}

/// Links points in, in the given order. `l_build` is how many candidates a walk
/// keeps while the graph is built.
pub fn build(
    near: &Vec<Vec<u32>>,
    reach: &Vec<Vec<u32>>,
    start: usize,
    order: &Vec<usize>,
    r: usize,
    l_build: usize,
) -> (g: VamanaGraph)
    requires
        start < near@.len(),
        square(tables(near@), near@.len()),
        square(tables(reach@), near@.len()),
        points_of(order@, near@.len()),
    ensures
        g.medoid == start,
        lists(g.edges@) == built(
            start,
            order@,
            tables(near@),
            tables(reach@),
            r as nat,
            l_build as nat,
        ),
        lean(lists(g.edges@), r as nat),
{
    let ghost n = near@.len();
    let ghost nt = tables(near@);
    let ghost rt = tables(reach@);
    proof {
        law_out_degree_is_bounded(start, order@, nt, rt, r as nat, l_build as nat);
    }
    let mut edges: Vec<Vec<usize>> = Vec::new();
    let mut i: usize = 0;
    while i < near.len()
        invariant
            i <= near@.len(),
            edges@.len() == i,
            forall|k: int| 0 <= k < i ==> (#[trigger] edges@[k])@ == Seq::<usize>::empty(),
        decreases near@.len() - i,
    {
        edges.push(Vec::new());
        i += 1;
    }
    assert(order@.take(0) =~= Seq::<usize>::empty());
    assert(lists(edges@) =~= built(start, order@.take(0), nt, rt, r as nat, l_build as nat));
    let mut at: usize = 0;
    while at < order.len()
        invariant
            n == near@.len(),
            nt == tables(near@),
            rt == tables(reach@),
            square(nt, n),
            square(rt, n),
            start < n,
            points_of(order@, n),
            at <= order@.len(),
            lists(edges@) == built(
                start,
                order@.take(at as int),
                nt,
                rt,
                r as nat,
                l_build as nat,
            ),
        decreases order@.len() - at,
    {
        let p: usize = order[at];
        let ghost g0 = lists(edges@);
        let ghost set = g0.update(
            p as int,
            links_for(g0, start, p, nt, rt, r as nat, l_build as nat),
        );
        proof {
            assert(order@[at as int] < n);
            assert forall|i: int| 0 <= i < order@.take(at as int).len() implies (
            #[trigger] order@.take(at as int)[i]) < n by {
                assert(order@[i] < n);
            }
            law_out_degree_is_bounded(
                start,
                order@.take(at as int),
                nt,
                rt,
                r as nat,
                l_build as nat,
            );
            lemma_with_point_lean(g0, start, p, nt, rt, r as nat, l_build as nat, n);
            assert(order@.take(at + 1).drop_last() =~= order@.take(at as int));
            assert(nt[p as int] == near@[p as int]@ && nt[p as int].len() == n);
        }
        let seen = greedy_search(&edges, &near[p], start, l_build);
        let links = robust_prune(p, &seen, near, reach, r);
        let own = copy_list(&links);
        edges[p] = own;
        proof {
            law_links_are_few(p, seen@, nt, rt, r as nat, n);
            assert(lists(edges@) =~= set);
            assert(links@.take(0) =~= Seq::<usize>::empty());
            assert forall|i: int| 0 <= i < n implies points_of(#[trigger] set[i], n) by {
                if i != p {
                    assert(set[i] == g0[i]);
                }
            }
            assert forall|i: int| 0 <= i < set.len() implies (#[trigger] set[i]).len() <= r
                && !set[i].contains(i as usize) by {
                if i != p {
                    assert(set[i] == g0[i]);
                } else if links@.contains(p) {
                    let k = choose|k: int| 0 <= k < links@.len() && links@[k] == p;
                    assert(links@[k] != p);
                }
            }
        }
        let mut k: usize = 0;
        while k < links.len()
            invariant
                n == near@.len(),
                nt == tables(near@),
                rt == tables(reach@),
                square(nt, n),
                square(rt, n),
                p < n,
                points_of(links@, n),
                forall|i: int| 0 <= i < links@.len() ==> #[trigger] links@[i] != p,
                graph_of(set, n),
                lean(set, r as nat),
                k <= links@.len(),
                lists(edges@) == all_linked_back(
                    set,
                    links@.take(k as int),
                    p,
                    nt,
                    rt,
                    r as nat,
                ),
            decreases links@.len() - k,
        {
            let nb: usize = links[k];
            let ghost before = lists(edges@);
            proof {
                assert(links@[k as int] < n);
                assert(links@.take(k + 1).drop_last() =~= links@.take(k as int));
                assert(links@.take(k + 1).last() == nb);
                assert forall|i: int| 0 <= i < links@.take(k as int).len() implies (
                #[trigger] links@.take(k as int)[i]) < n && links@.take(k as int)[i] != p by {
                    assert(links@[i] < n && links@[i] != p);
                }
                lemma_all_linked_back_lean(set, links@.take(k as int), p, nt, rt, r as nat, n);
                assert(before[nb as int] == edges@[nb as int]@);
                assert(before[nb as int].len() <= r);
                assert(points_of(before[nb as int], n));
            }
            if !holds(&edges[nb], p) {
                let mut list = copy_list(&edges[nb]);
                list.push(p);
                proof {
                    assert forall|i: int| 0 <= i < list@.len() implies (#[trigger] list@[i])
                        < n by {
                        if i < before[nb as int].len() {
                            assert(before[nb as int][i] < n);
                        }
                    }
                }
                if list.len() > r {
                    list = robust_prune(nb, &list, near, reach, r);
                }
                let ghost now = list@;
                edges[nb] = list;
                assert(lists(edges@) =~= before.update(nb as int, now));
            }
            k += 1;
        }
        assert(links@.take(links@.len() as int) =~= links@);
        at += 1;
    }
    assert(order@.take(order@.len() as int) =~= order@);
    VamanaGraph { medoid: start, edges }
}

fn copy_list(list: &Vec<usize>) -> (r: Vec<usize>)
    ensures
        r@ == list@,
{
    let mut r: Vec<usize> = Vec::new();
    let mut i: usize = 0;
    while i < list.len()
        invariant
            i <= list@.len(),
            r@ == list@.take(i as int),
        decreases list@.len() - i,
    {
        r.push(list[i]);
        i += 1;
        assert(list@.take(i as int) =~= list@.take(i - 1).push(list@[i - 1]));
    }
    assert(list@.take(list@.len() as int) =~= list@);
    r
}

proof fn lemma_uncovered_are(
    p: usize,
    chosen: usize,
    list: Seq<usize>,
    near: Table,
    reach: Table,
    c: usize,
)
    ensures
        uncovered(p, chosen, list, near, reach).contains(c) <==> list.contains(c) && c != chosen
            && reach[chosen as int][c as int] > near[p as int][c as int],
    decreases list.len(),
{
    if list.len() > 0 {
        let head = list.drop_last();
        lemma_uncovered_are(p, chosen, head, near, reach, c);
        ranking::lemma_contains_last(list, c);
        ranking::lemma_contains_push(uncovered(p, chosen, head, near, reach), list.last(), c);
    }
}

/// Whether of two picked points the later is not covered by the earlier.
pub open spec fn spread_out(p: usize, links: Seq<usize>, near: Table, reach: Table) -> bool {
    forall|i: int, j: int|
        0 <= i < j < links.len() ==> reach[#[trigger] links[i] as int][#[trigger] links[j] as int]
            > near[p as int][links[j] as int]
}

proof fn lemma_picked_are(p: usize, list: Seq<usize>, near: Table, reach: Table, room: nat)
    ensures
        ({
            let links = picked(p, list, near, reach, room);
            &&& spread_out(p, links, near, reach)
            &&& forall|i: int| 0 <= i < links.len() ==> list.contains(#[trigger] links[i])
            &&& links.len() <= room
            &&& room > 0 && list.len() > 0 ==> links.len() > 0 && links[0] == list[0]
            &&& links.len() < room ==> forall|c: usize| #[trigger]
                list.contains(c) ==> links.contains(c) || exists|i: int|
                    0 <= i < links.len() && reach[#[trigger] links[i] as int][c as int]
                        <= near[p as int][c as int]
        }),
    decreases list.len(),
{
    let links = picked(p, list, near, reach, room);
    if room > 0 && list.len() > 0 {
        let first = list[0];
        let rest = uncovered(p, first, list, near, reach);
        lemma_uncovered(p, first, list, near, reach);
        assert(rest.len() < list.len());
        let more = picked(p, rest, near, reach, (room - 1) as nat);
        lemma_picked_are(p, rest, near, reach, (room - 1) as nat);
        assert(links =~= seq![first] + more);
        assert forall|i: int| 0 <= i < links.len() implies list.contains(#[trigger] links[i]) by {
            if i > 0 {
                assert(rest.contains(more[i - 1]));
                lemma_uncovered_are(p, first, list, near, reach, more[i - 1]);
            } else {
                assert(list[0] == links[0]);
            }
        }
        assert forall|i: int, j: int| 0 <= i < j < links.len() implies reach[
        #[trigger] links[i] as int][#[trigger] links[j] as int] > near[p as int][
            links[j] as int] by {
            assert(links[j] == more[j - 1]);
            if i > 0 {
                assert(links[i] == more[i - 1]);
            } else {
                assert(rest.contains(more[j - 1]));
                lemma_uncovered_are(p, first, list, near, reach, more[j - 1]);
            }
        }
        if links.len() < room {
            assert forall|c: usize| #[trigger] list.contains(c) implies links.contains(c) || exists|
                i: int,
            |
                0 <= i < links.len() && reach[#[trigger] links[i] as int][c as int] <= near[p as int][
                c as int] by {
                lemma_uncovered_are(p, first, list, near, reach, c);
                if c == first {
                    assert(links[0] == c);
                } else if rest.contains(c) {
                    if more.contains(c) {
                        let k = choose|k: int| 0 <= k < more.len() && more[k] == c;
                        assert(links[k + 1] == c);
                    } else {
                        let k = choose|k: int|
                            0 <= k < more.len() && reach[#[trigger] more[k] as int][c as int]
                                <= near[p as int][c as int];
                        assert(links[k + 1] == more[k]);
                    }
                } else {
                    assert(reach[links[0] as int][c as int] <= near[p as int][c as int]);
                }
            }
        }
    }
}

proof fn lemma_without_one(list: Seq<usize>, p: usize, c: usize)
    ensures
        without(list, p).contains(c) <==> list.contains(c) && c != p,
    decreases list.len(),
{
    if list.len() > 0 {
        lemma_without_one(list.drop_last(), p, c);
        ranking::lemma_contains_last(list, c);
        ranking::lemma_contains_push(without(list.drop_last(), p), list.last(), c);
    }
}

/// The links of a point are some of the candidates and never itself, the nearest of
/// them first. No link is covered by an earlier one, and unless the links are as
/// many as allowed every other candidate is covered by one of them.
pub proof fn law_links_cover_the_candidates(
    p: usize,
    cands: Seq<usize>,
    near: Table,
    reach: Table,
    r: nat,
    c: usize,
)
    requires
        cands.contains(c),
        c != p,
    ensures
        ({
            let links = pruned(p, cands, near, reach, r);
            &&& links.len() <= r
            &&& forall|i: int|
                0 <= i < links.len() ==> cands.contains(#[trigger] links[i]) && links[i] != p
            &&& r > 0 ==> links.len() > 0 && near[p as int][links[0] as int] <= near[p as int][
                c as int]
            &&& forall|i: int, j: int|
                0 <= i < j < links.len() ==> reach[#[trigger] links[i] as int][
                    #[trigger] links[j] as int] > near[p as int][links[j] as int]
            &&& links.len() < r ==> links.contains(c) || exists|i: int|
                0 <= i < links.len() && reach[#[trigger] links[i] as int][c as int]
                    <= near[p as int][c as int]
        }),
{
    let w = without(cands, p);
    let sorted = ranking::by_rank(w, near[p as int]);
    let links = pruned(p, cands, near, reach, r);
    ranking::lemma_by_rank(w, near[p as int]);
    lemma_without_one(cands, p, c);
    lemma_picked_are(p, sorted, near, reach, r);
    assert(sorted.contains(c));
    let k = choose|k: int| 0 <= k < sorted.len() && sorted[k] == c;
    assert(near[p as int][sorted[0] as int] <= near[p as int][sorted[k] as int]);
    assert forall|i: int| 0 <= i < links.len() implies cands.contains(#[trigger] links[i])
        && links[i] != p by {
        assert(sorted.contains(links[i]));
        lemma_without_one(cands, p, links[i]);
    }
}

/// Whether a point was met at the start or from one of the points seen.
pub open spec fn met_from(edges: Seq<Seq<usize>>, start: usize, seen: Seq<usize>, q: usize) -> bool {
    q == start || exists|k: int|
        0 <= k < seen.len() && edges[#[trigger] seen[k] as int].contains(q)
}

proof fn lemma_first_new_is_new(list: Seq<usize>, seen: Seq<usize>)
    ensures
        first_new(list, seen) matches Some(q) ==> list.contains(q) && !seen.contains(q),
        first_new(list, seen) is None ==> forall|i: int|
            0 <= i < list.len() ==> seen.contains(#[trigger] list[i]),
    decreases list.len(),
{
    lemma_first_new(list, seen);
    if list.len() > 0 && seen.contains(list[0]) {
        let rest = list.drop_first();
        lemma_first_new_is_new(rest, seen);
        assert forall|i: int|
            first_new(list, seen) is None && 0 <= i < list.len() implies seen.contains(
            #[trigger] list[i],
        ) by {
            if i > 0 {
                assert(rest[i - 1] == list[i]);
            }
        }
    }
}

proof fn lemma_met_are(cands: Seq<usize>, seen: Seq<usize>, neighbours: Seq<usize>, q: usize)
    ensures
        met(cands, seen, neighbours).contains(q) ==> cands.contains(q) || neighbours.contains(q),
    decreases neighbours.len(),
{
    if neighbours.len() > 0 {
        let before = met(cands, seen, neighbours.drop_last());
        lemma_met_are(cands, seen, neighbours.drop_last(), q);
        ranking::lemma_contains_last(neighbours, q);
        ranking::lemma_contains_push(before, neighbours.last(), q);
    }
}

proof fn lemma_walk_links(
    edges: Seq<Seq<usize>>,
    to_query: Seq<u32>,
    l: nat,
    cands: Seq<usize>,
    seen: Seq<usize>,
    steps: nat,
    start: usize,
)
    requires
        seen.no_duplicates(),
        forall|q: usize| #[trigger] cands.contains(q) ==> met_from(edges, start, seen, q),
        forall|i: int|
            0 <= i < seen.len() ==> met_from(edges, start, seen.take(i), #[trigger] seen[i]),
    ensures
        ({
            let all = walk(edges, to_query, l, cands, seen, steps);
            &&& all.no_duplicates()
            &&& seen.len() <= all.len()
            &&& all.take(seen.len() as int) == seen
            &&& forall|i: int|
                0 <= i < all.len() ==> met_from(edges, start, all.take(i), #[trigger] all[i])
        }),
    decreases steps,
{
    if steps == 0 {
        assert(seen.take(seen.len() as int) =~= seen);
    } else {
        let sorted = ranking::by_rank(cands, to_query);
        let short = shortlist(cands, to_query, l);
        ranking::lemma_by_rank(cands, to_query);
        assert forall|q: usize| #[trigger] short.contains(q) implies cands.contains(q) by {
            let k = choose|k: int| 0 <= k < short.len() && short[k] == q;
            assert(sorted[k] == q);
            assert(sorted.contains(q));
        }
        lemma_first_new_is_new(short, seen);
        match first_new(short, seen) {
            None => {
                assert(seen.take(seen.len() as int) =~= seen);
            },
            Some(p) => {
                let now = seen.push(p);
                let next = met(short, now, edges[p as int]);
                assert(short.contains(p));
                ranking::lemma_no_duplicates_push(seen, p);
                assert forall|q: usize| #[trigger] next.contains(q) implies met_from(
                    edges,
                    start,
                    now,
                    q,
                ) by {
                    lemma_met_are(short, now, edges[p as int], q);
                    if short.contains(q) {
                        assert(met_from(edges, start, seen, q));
                        if q != start {
                            let k = choose|k: int|
                                0 <= k < seen.len() && edges[#[trigger] seen[k] as int].contains(q);
                            assert(now[k] == seen[k]);
                        }
                    } else {
                        assert(now[seen.len() as int] == p);
                    }
                }
                assert forall|i: int| 0 <= i < now.len() implies met_from(
                    edges,
                    start,
                    now.take(i),
                    #[trigger] now[i],
                ) by {
                    if i < seen.len() {
                        assert(now.take(i) =~= seen.take(i));
                        assert(met_from(edges, start, seen.take(i), seen[i]));
                    } else {
                        assert(now.take(i) =~= seen);
                    }
                }
                lemma_walk_links(edges, to_query, l, next, now, (steps - 1) as nat, start);
                let all = walk(edges, to_query, l, next, now, (steps - 1) as nat);
                assert(all.take(seen.len() as int) =~= all.take(now.len() as int).take(
                    seen.len() as int,
                ));
                assert(now.take(seen.len() as int) =~= seen);
            },
        }
    }
}

/// A search begins at its start, visits no point twice, and goes to a point only
/// along a link from one that it visited before.
pub proof fn law_search_follows_the_links(
    edges: Seq<Seq<usize>>,
    to_query: Seq<u32>,
    l: nat,
    start: usize,
)
    requires
        edges.len() > 0,
    ensures
        ({
            let all = visits(edges, to_query, l, start);
            &&& all.len() > 0 && all[0] == start
            &&& all.no_duplicates()
            &&& forall|i: int|
                0 < i < all.len() ==> exists|k: int|
                    0 <= k < i && edges[#[trigger] all[k] as int].contains(#[trigger] all[i])
        }),
{
    let none = Seq::<usize>::empty();
    let all = visits(edges, to_query, l, start);
    let cands = seq![start];
    assert forall|q: usize| #[trigger] cands.contains(q) implies met_from(
        edges,
        start,
        none,
        q,
    ) by {}
    lemma_walk_links(edges, to_query, l, cands, none, edges.len(), start);
    // The first step goes to the start: there is nowhere else to go.
    reveal_with_fuel(walk, 2);
    let sorted = ranking::by_rank(cands, to_query);
    let short = shortlist(cands, to_query, l);
    ranking::lemma_by_rank(cands, to_query);
    assert(sorted.len() == 1);
    assert(sorted.contains(sorted[0]));
    assert(short =~= seq![start]);
    assert(!none.contains(short[0]));
    assert(first_new(short, none) == Some(start));
    let now = none.push(start);
    let next = met(short, now, edges[start as int]);
    assert forall|q: usize| #[trigger] next.contains(q) implies met_from(edges, start, now, q) by {
        lemma_met_are(short, now, edges[start as int], q);
        assert(now[0] == start);
        if !short.contains(q) {
            assert(edges[now[0] as int].contains(q));
        }
    }
    assert(now.take(0) =~= none);
    lemma_walk_links(edges, to_query, l, next, now, (edges.len() - 1) as nat, start);
    assert(all == walk(edges, to_query, l, next, now, (edges.len() - 1) as nat));
    assert(all.take(1)[0] == all[0]);
    assert forall|i: int| 0 < i < all.len() implies exists|k: int|
        0 <= k < i && edges[#[trigger] all[k] as int].contains(#[trigger] all[i]) by {
        assert(met_from(edges, start, all.take(i), all[i]));
        assert(all[i] != all[0]);
        let k = choose|k: int|
            0 <= k < all.take(i).len() && edges[#[trigger] all.take(i)[k] as int].contains(all[i]);
        assert(all.take(i)[k] == all[k]);
        assert(edges[all[k] as int].contains(all[i]));
    }
}

/// A point that is linked to links back, where it has room, and no other point's
/// links change.
pub proof fn law_link_is_returned(
    edges: Seq<Seq<usize>>,
    nb: usize,
    p: usize,
    near: Table,
    reach: Table,
    r: nat,
    other: int,
)
    requires
        nb < edges.len(),
        0 <= other < edges.len(),
    ensures
        ({
            let after = linked_back(edges, nb, p, near, reach, r);
            &&& after.len() == edges.len()
            &&& other != nb ==> after[other] == edges[other]
            &&& edges[nb as int].len() < r ==> after[nb as int].contains(p)
            &&& edges[nb as int].contains(p) ==> after == edges
        }),
{
    ranking::lemma_contains_push(edges[nb as int], p, p);
}

} // verus!
