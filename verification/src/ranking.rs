//! Putting numbers in the order of their ranks, and items in that of their
//! scores.

use vstd::prelude::*;

verus! {

/// A list with `e` set behind the last one that does not rank above it.
pub open spec fn placed(list: Seq<usize>, e: usize, ranks: Seq<u32>) -> Seq<usize>
    decreases list.len(),
{
    if list.len() == 0 {
        seq![e]
    } else if ranks[list.last() as int] <= ranks[e as int] {
        list.push(e)
    } else {
        placed(list.drop_last(), e, ranks).push(list.last())
    }
}

/// A list in the order of ranks; those of one rank keep their order.
pub open spec fn by_rank(list: Seq<usize>, ranks: Seq<u32>) -> Seq<usize>
    decreases list.len(),
{
    if list.len() == 0 {
        list
    } else {
        placed(by_rank(list.drop_last(), ranks), list.last(), ranks)
    }
}

pub proof fn lemma_contains_push(list: Seq<usize>, y: usize, x: usize)
    ensures
        list.push(y).contains(x) <==> list.contains(x) || x == y,
{
    if list.contains(x) {
        let i = choose|i: int| 0 <= i < list.len() && list[i] == x;
        assert(list.push(y)[i] == x);
    }
    assert(list.push(y)[list.len() as int] == y);
}

pub proof fn lemma_contains_last(list: Seq<usize>, x: usize)
    requires
        list.len() > 0,
    ensures
        list.contains(x) <==> list.drop_last().contains(x) || list.last() == x,
{
    assert(list =~= list.drop_last().push(list.last()));
    lemma_contains_push(list.drop_last(), list.last(), x);
}

pub proof fn lemma_no_duplicates_push(list: Seq<usize>, y: usize)
    requires
        list.no_duplicates(),
        !list.contains(y),
    ensures
        list.push(y).no_duplicates(),
{
    let all = list.push(y);
    assert forall|i: int, j: int| 0 <= i < all.len() && 0 <= j < all.len() && i != j implies all[i]
        != all[j] by {
        if i < list.len() {
            assert(list.contains(list[i]));
        }
        if j < list.len() {
            assert(list.contains(list[j]));
        }
    }
}

/// Whether ranks never fall along a list.
pub open spec fn ascending(list: Seq<usize>, ranks: Seq<u32>) -> bool {
    forall|i: int, j: int|
        0 <= i <= j < list.len() ==> ranks[#[trigger] list[i] as int] <= ranks[
            #[trigger] list[j] as int]
}

pub proof fn lemma_placed(list: Seq<usize>, e: usize, ranks: Seq<u32>)
    requires
        ascending(list, ranks),
    ensures
        ascending(placed(list, e, ranks), ranks),
        forall|x: usize| #[trigger]
            placed(list, e, ranks).contains(x) <==> list.contains(x) || x == e,
        list.no_duplicates() && !list.contains(e) ==> placed(list, e, ranks).no_duplicates(),
        placed(list, e, ranks).len() == list.len() + 1,
    decreases list.len(),
{
    let p = placed(list, e, ranks);
    if list.len() == 0 {
        assert(p[0] == e);
        assert(p =~= seq![e]);
    } else if ranks[list.last() as int] <= ranks[e as int] {
        assert forall|i: int, j: int| 0 <= i <= j < p.len() implies ranks[#[trigger] p[i] as int]
            <= ranks[#[trigger] p[j] as int] by {
            if i < list.len() {
                assert(ranks[list[i] as int] <= ranks[list[list.len() - 1] as int]);
                assert(p[i] == list[i]);
                if j < list.len() {
                    assert(p[j] == list[j]);
                }
            }
        }
        assert forall|x: usize| #[trigger] p.contains(x) <==> list.contains(x) || x == e by {
            lemma_contains_push(list, e, x);
        }
        if list.no_duplicates() && !list.contains(e) {
            lemma_no_duplicates_push(list, e);
        }
    } else {
        let head = list.drop_last();
        let h = placed(head, e, ranks);
        assert(ascending(head, ranks)) by {
            assert forall|i: int, j: int| 0 <= i <= j < head.len() implies ranks[
            #[trigger] head[i] as int] <= ranks[#[trigger] head[j] as int] by {
                assert(head[i] == list[i] && head[j] == list[j]);
            }
        }
        lemma_placed(head, e, ranks);
        assert forall|x: usize| #[trigger] p.contains(x) <==> list.contains(x) || x == e by {
            lemma_contains_push(h, list.last(), x);
            lemma_contains_last(list, x);
        }
        assert forall|i: int, j: int| 0 <= i <= j < p.len() implies ranks[#[trigger] p[i] as int]
            <= ranks[#[trigger] p[j] as int] by {
            if i < h.len() {
                assert(p[i] == h[i]);
                assert(h.contains(h[i]));
                if j < h.len() {
                    assert(p[j] == h[j]);
                } else if h[i] != e {
                    let k = choose|k: int| 0 <= k < head.len() && head[k] == h[i];
                    assert(list[k] == h[i]);
                    assert(ranks[list[k] as int] <= ranks[list[list.len() - 1] as int]);
                }
            }
        }
        if list.no_duplicates() && !list.contains(e) {
            assert(!head.contains(list.last())) by {
                if head.contains(list.last()) {
                    let i = choose|i: int| 0 <= i < head.len() && head[i] == list.last();
                    assert(list[i] == list[list.len() - 1]);
                }
            }
            assert(list[list.len() - 1] == list.last());
            assert(list.contains(list.last()));
            assert(!head.contains(e)) by {
                lemma_contains_last(list, e);
            }
            assert(!h.contains(list.last()));
            lemma_no_duplicates_push(h, list.last());
        }
    }
}

pub proof fn lemma_by_rank(list: Seq<usize>, ranks: Seq<u32>)
    ensures
        ascending(by_rank(list, ranks), ranks),
        forall|x: usize| #[trigger] by_rank(list, ranks).contains(x) <==> list.contains(x),
        list.no_duplicates() ==> by_rank(list, ranks).no_duplicates(),
        by_rank(list, ranks).len() == list.len(),
    decreases list.len(),
{
    if list.len() > 0 {
        let head = list.drop_last();
        let b = by_rank(head, ranks);
        lemma_by_rank(head, ranks);
        lemma_placed(b, list.last(), ranks);
        assert forall|x: usize| #[trigger] by_rank(list, ranks).contains(x) <==> list.contains(
            x,
        ) by {
            lemma_contains_last(list, x);
        }
        if list.no_duplicates() {
            assert(!head.contains(list.last())) by {
                if head.contains(list.last()) {
                    let i = choose|i: int| 0 <= i < head.len() && head[i] == list.last();
                    assert(list[i] == list[list.len() - 1]);
                }
            }
        }
    }
}

/// Setting `e` before the end is setting it in the head.
pub proof fn lemma_placed_at(list: Seq<usize>, k: int, e: usize, ranks: Seq<u32>)
    requires
        0 <= k <= list.len(),
        forall|i: int| k <= i < list.len() ==> ranks[#[trigger] list[i] as int] > ranks[e as int],
        k > 0 ==> ranks[list[k - 1] as int] <= ranks[e as int],
    ensures
        placed(list, e, ranks) == list.insert(k, e),
    decreases list.len(),
{
    if list.len() == 0 {
        assert(placed(list, e, ranks) =~= list.insert(k, e));
    } else if k == list.len() {
        assert(placed(list, e, ranks) =~= list.insert(k, e));
    } else {
        let head = list.drop_last();
        assert(ranks[list[list.len() - 1] as int] > ranks[e as int]);
        assert forall|i: int| k <= i < head.len() implies ranks[#[trigger] head[i] as int]
            > ranks[e as int] by {
            assert(head[i] == list[i]);
        }
        lemma_placed_at(head, k, e, ranks);
        assert(placed(list, e, ranks) =~= list.insert(k, e));
    }
}

/// Puts a list in the order of ranks; those of one rank keep their order.
pub fn sort_by_rank(list: &Vec<usize>, ranks: &Vec<u32>) -> (r: Vec<usize>)
    requires
        forall|i: int| 0 <= i < list@.len() ==> (#[trigger] list@[i]) < ranks@.len(),
    ensures
        r@ == by_rank(list@, ranks@),
{
    let mut r: Vec<usize> = Vec::new();
    let mut i: usize = 0;
    assert(list@.take(0) =~= Seq::<usize>::empty());
    while i < list.len()
        invariant
            forall|i: int| 0 <= i < list@.len() ==> (#[trigger] list@[i]) < ranks@.len(),
            i <= list@.len(),
            r@.len() == i,
            r@ == by_rank(list@.take(i as int), ranks@),
            forall|k: int| 0 <= k < r@.len() ==> (#[trigger] r@[k]) < ranks@.len(),
        decreases list@.len() - i,
    {
        assert(list@.take(i + 1).drop_last() =~= list@.take(i as int));
        let e: usize = list[i];
        let mut k: usize = r.len();
        while k > 0 && ranks[r[k - 1]] > ranks[e]
            invariant
                e < ranks@.len(),
                k <= r@.len(),
                forall|j: int| 0 <= j < r@.len() ==> (#[trigger] r@[j]) < ranks@.len(),
                forall|j: int|
                    k <= j < r@.len() ==> ranks@[#[trigger] r@[j] as int] > ranks@[e as int],
            decreases k,
        {
            k -= 1;
        }
        proof {
            lemma_placed_at(r@, k as int, e, ranks@);
        }
        r.insert(k, e);
        i += 1;
    }
    assert(list@.take(list@.len() as int) =~= list@);
    r
}

/// A list with `e` set behind the last one that does not score below it.
pub open spec fn scored_place<T>(list: Seq<(T, u64)>, e: (T, u64)) -> Seq<(T, u64)>
    decreases list.len(),
{
    if list.len() == 0 {
        seq![e]
    } else if list.last().1 >= e.1 {
        list.push(e)
    } else {
        scored_place(list.drop_last(), e).push(list.last())
    }
}

/// A list of items with their scores, the best first; those of one score keep
/// their order.
pub open spec fn best_first<T>(list: Seq<(T, u64)>) -> Seq<(T, u64)>
    decreases list.len(),
{
    if list.len() == 0 {
        list
    } else {
        scored_place(best_first(list.drop_last()), list.last())
    }
}

/// Whether scores never rise along a list.
pub open spec fn descending<T>(list: Seq<(T, u64)>) -> bool {
    forall|i: int, j: int|
        0 <= i <= j < list.len() ==> (#[trigger] list[i]).1 >= (#[trigger] list[j]).1
}

proof fn lemma_scored_place<T>(list: Seq<(T, u64)>, e: (T, u64))
    requires
        descending(list),
    ensures
        descending(scored_place(list, e)),
        scored_place(list, e).to_multiset() == list.to_multiset().insert(e),
        list.len() > 0 ==> scored_place(list, e).last().1 == if list.last().1 >= e.1 {
            e.1
        } else {
            list.last().1
        },
    decreases list.len(),
{
    broadcast use vstd::seq_lib::group_to_multiset_ensures;

    if list.len() == 0 {
        assert(seq![e] =~= list.push(e));
    } else if list.last().1 >= e.1 {
    } else {
        let head = list.drop_last();
        assert(list =~= head.push(list.last()));
        lemma_scored_place(head, e);
        let h = scored_place(head, e);
        assert(h.len() > 0);
        assert(h.last().1 >= list.last().1) by {
            if head.len() > 0 {
                assert(list[head.len() - 1].1 >= list[list.len() - 1].1);
            } else {
                assert(h =~= seq![e]);
            }
        }
        let p = h.push(list.last());
        assert forall|i: int, j: int| 0 <= i <= j < p.len() implies (#[trigger] p[i]).1 >= (
        #[trigger] p[j]).1 by {
            if j == h.len() && i < j {
                assert(h[i].1 >= h[h.len() - 1].1);
            }
        }
        assert(head.to_multiset().insert(e).insert(list.last())
            =~= head.to_multiset().insert(list.last()).insert(e));
    }
}

/// The best come first, and nothing is lost or added.
pub proof fn law_best_come_first<T>(list: Seq<(T, u64)>)
    ensures
        descending(best_first(list)),
        best_first(list).to_multiset() == list.to_multiset(),
    decreases list.len(),
{
    broadcast use vstd::seq_lib::group_to_multiset_ensures;

    if list.len() > 0 {
        let head = list.drop_last();
        law_best_come_first(head);
        lemma_scored_place(best_first(head), list.last());
        assert(list =~= head.push(list.last()));
    }
}

proof fn lemma_scored_at<T>(list: Seq<(T, u64)>, k: int, e: (T, u64))
    requires
        0 <= k <= list.len(),
        forall|i: int| k <= i < list.len() ==> (#[trigger] list[i]).1 < e.1,
        k > 0 ==> list[k - 1].1 >= e.1,
    ensures
        scored_place(list, e) == list.insert(k, e),
    decreases list.len(),
{
    if list.len() == 0 || k == list.len() {
        assert(scored_place(list, e) =~= list.insert(k, e));
    } else {
        let head = list.drop_last();
        assert(list[list.len() - 1].1 < e.1);
        assert forall|i: int| k <= i < head.len() implies (#[trigger] head[i]).1 < e.1 by {
            assert(head[i] == list[i]);
        }
        lemma_scored_at(head, k, e);
        assert(scored_place(list, e) =~= list.insert(k, e));
    }
}

/// Puts a list of items with their scores in order, the best first.
pub fn sort_best_first<T>(list: Vec<(T, u64)>) -> (r: Vec<(T, u64)>)
    ensures
        r@ == best_first(list@),
{
    let ghost all = list@;
    let mut rest = list;
    let mut r: Vec<(T, u64)> = Vec::new();
    assert(all.take(0) =~= Seq::<(T, u64)>::empty());
    assert(rest@ =~= all.skip(0));
    while rest.len() > 0
        invariant
            rest@.len() <= all.len(),
            rest@ == all.skip(all.len() - rest@.len()),
            r@ == best_first(all.take(all.len() - rest@.len())),
        decreases rest@.len(),
    {
        let ghost done = all.len() - rest@.len();
        assert(all.take(done + 1).drop_last() =~= all.take(done));
        let e = rest.remove(0);
        assert(e == all[done]);
        assert(rest@ =~= all.skip(done + 1));
        let mut k: usize = r.len();
        while k > 0 && r[k - 1].1 < e.1
            invariant
                k <= r@.len(),
                forall|j: int| k <= j < r@.len() ==> (#[trigger] r@[j]).1 < e.1,
            decreases k,
        {
            k -= 1;
        }
        proof {
            lemma_scored_at(r@, k as int, e);
        }
        r.insert(k, e);
    }
    assert(all.take(all.len() as int) =~= all);
    r
}

/// The members of a list that have a rank, in order.
pub open spec fn of_rank(list: Seq<usize>, ranks: Seq<u32>, rank: u32) -> Seq<usize>
    decreases list.len(),
{
    if list.len() == 0 {
        list
    } else if ranks[list.last() as int] == rank {
        of_rank(list.drop_last(), ranks, rank).push(list.last())
    } else {
        of_rank(list.drop_last(), ranks, rank)
    }
}

proof fn lemma_placed_of_rank(list: Seq<usize>, e: usize, ranks: Seq<u32>, rank: u32)
    ensures
        of_rank(placed(list, e, ranks), ranks, rank) == (if ranks[e as int] == rank {
            of_rank(list, ranks, rank).push(e)
        } else {
            of_rank(list, ranks, rank)
        }),
    decreases list.len(),
{
    let p = placed(list, e, ranks);
    if list.len() == 0 {
        assert(p.drop_last() =~= list);
        assert(of_rank(p.drop_last(), ranks, rank) =~= list);
    } else if ranks[list.last() as int] <= ranks[e as int] {
        assert(p.drop_last() =~= list);
    } else {
        lemma_placed_of_rank(list.drop_last(), e, ranks, rank);
        assert(p.drop_last() =~= placed(list.drop_last(), e, ranks));
    }
}

/// Sorted by rank a list has the same members, the lower ranks before the higher,
/// and those of one rank in the order in which they stood.
pub proof fn law_lower_ranks_come_first(list: Seq<usize>, ranks: Seq<u32>, rank: u32)
    ensures
        by_rank(list, ranks).len() == list.len(),
        forall|i: int, j: int|
            0 <= i <= j < list.len() ==> ranks[#[trigger] by_rank(list, ranks)[i] as int]
                <= ranks[#[trigger] by_rank(list, ranks)[j] as int],
        forall|x: usize| #[trigger] by_rank(list, ranks).contains(x) <==> list.contains(x),
        of_rank(by_rank(list, ranks), ranks, rank) == of_rank(list, ranks, rank),
    decreases list.len(),
{
    lemma_by_rank(list, ranks);
    if list.len() > 0 {
        law_lower_ranks_come_first(list.drop_last(), ranks, rank);
        lemma_placed_of_rank(by_rank(list.drop_last(), ranks), list.last(), ranks, rank);
    }
}

/// The members of a list that have a score, in order.
pub open spec fn of_score<T>(list: Seq<(T, u64)>, score: u64) -> Seq<(T, u64)>
    decreases list.len(),
{
    if list.len() == 0 {
        list
    } else if list.last().1 == score {
        of_score(list.drop_last(), score).push(list.last())
    } else {
        of_score(list.drop_last(), score)
    }
}

proof fn lemma_scored_place_of<T>(list: Seq<(T, u64)>, e: (T, u64), score: u64)
    ensures
        of_score(scored_place(list, e), score) == (if e.1 == score {
            of_score(list, score).push(e)
        } else {
            of_score(list, score)
        }),
    decreases list.len(),
{
    let p = scored_place(list, e);
    if list.len() == 0 {
        assert(p.drop_last() =~= list);
        assert(of_score(p.drop_last(), score) =~= list);
    } else if list.last().1 >= e.1 {
        assert(p.drop_last() =~= list);
    } else {
        lemma_scored_place_of(list.drop_last(), e, score);
        assert(p.drop_last() =~= scored_place(list.drop_last(), e));
    }
}

/// Sorted by score a list has the higher scores first, and of one score the members
/// in the order in which they stood.
pub proof fn law_higher_scores_come_first<T>(list: Seq<(T, u64)>, score: u64)
    ensures
        forall|i: int, j: int|
            0 <= i <= j < best_first(list).len() ==> (#[trigger] best_first(list)[i]).1 >= (
            #[trigger] best_first(list)[j]).1,
        of_score(best_first(list), score) == of_score(list, score),
        best_first(list).to_multiset() == list.to_multiset(),
    decreases list.len(),
{
    law_best_come_first(list);
    if list.len() > 0 {
        law_higher_scores_come_first(list.drop_last(), score);
        lemma_scored_place_of(best_first(list.drop_last()), list.last(), score);
    }
}

} // verus!
