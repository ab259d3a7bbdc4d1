//! Reactive values: which effects read which signals, and which effects have to
//! run again, in which order.
//!
//! A `Runtime` decides; whoever drives it runs the effects. To run an effect,
//! call `start_run`, carry out the cleanups that it returns, call `enter`, run
//! the effect, and call `leave`. After a write that asks for it, call
//! `next_pass` and run the effects that it returns in their order, then
//! `end_pass`, and so on until a pass is empty. A pass holds the waiting effects
//! of the lowest rank, so that an effect runs after all whose results it reads,
//! and one that waits when it starts to run waits no longer.

use vstd::prelude::*;
use vstd::std_specs::cmp::PartialEqSpec;
use vstd::string::*;

use crate::json::Json;
use crate::ranking;
use crate::ranking::sort_by_rank;
use crate::strmap::StrMap;

verus! {

/// The state of a runtime, as mathematical values. Signals and effects are
/// numbered from zero.
#[verifier::ext_equal]
pub struct RuntimeView {
    /// The effects that a change of each signal wakes.
    pub subs: Seq<Seq<usize>>,
    /// The effect that computes each signal, if one does.
    pub producers: Seq<Option<usize>>,
    /// The name of each signal, if it has one.
    pub labels: Seq<Option<Seq<char>>>,
    /// The signals that each effect read in its latest run.
    pub deps: Seq<Seq<usize>>,
    /// The cleanups that each effect left in its latest run.
    pub cleanups: Seq<Seq<u64>>,
    /// The place of each effect in the order of a pass.
    pub ranks: Seq<u32>,
    /// Whether each effect is still held by someone.
    pub alive: Seq<bool>,
    /// The effects that run right now, the innermost last.
    pub stack: Seq<usize>,
    /// The effect to which cleanups are added.
    pub current: Option<usize>,
    /// How many batches and passes are open.
    pub depth: u32,
    /// The effects that wait for the next pass.
    pub pending: Seq<usize>,
    /// The values that a server handed over, by name.
    pub hydration: Option<Map<Seq<char>, Json>>,
    /// How often each named signal was written.
    pub activity: Map<Seq<char>, u64>,
}

pub open spec fn lists(v: Seq<Vec<usize>>) -> Seq<Seq<usize>> {
    v.map_values(|l: Vec<usize>| l@)
}

/// A list without one number.
pub open spec fn without(list: Seq<usize>, e: usize) -> Seq<usize>
    decreases list.len(),
{
    if list.len() == 0 {
        list
    } else if list.last() == e {
        without(list.drop_last(), e)
    } else {
        without(list.drop_last(), e).push(list.last())
    }
}

/// The effects of a list that are still held.
pub open spec fn living(list: Seq<usize>, alive: Seq<bool>) -> Seq<usize>
    decreases list.len(),
{
    if list.len() == 0 {
        list
    } else if alive[list.last() as int] {
        living(list.drop_last(), alive).push(list.last())
    } else {
        living(list.drop_last(), alive)
    }
}

/// A list with those of another added that it lacks.
pub open spec fn joined(list: Seq<usize>, more: Seq<usize>) -> Seq<usize>
    decreases more.len(),
{
    if more.len() == 0 {
        list
    } else {
        let before = joined(list, more.drop_last());
        if before.contains(more.last()) {
            before
        } else {
            before.push(more.last())
        }
    }
}

/// The last of a list, if there is one.
pub open spec fn innermost(stack: Seq<usize>) -> Option<usize> {
    if stack.len() == 0 {
        None
    } else {
        Some(stack.last())
    }
}

/// Those at the front of an ordered list that rank with the first.
pub open spec fn lowest(list: Seq<usize>, ranks: Seq<u32>) -> Seq<usize>
    decreases list.len(),
{
    if list.len() == 0 || ranks[list.last() as int] == ranks[list[0] as int] {
        list
    } else {
        lowest(list.drop_last(), ranks)
    }
}

impl RuntimeView {
    /// Whether all numbers are those of signals and effects, and subscriptions
    /// agree with what was read.
    pub open spec fn wf(self) -> bool {
        &&& self.producers.len() == self.subs.len()
        &&& self.labels.len() == self.subs.len()
        &&& self.cleanups.len() == self.deps.len()
        &&& self.ranks.len() == self.deps.len()
        &&& self.alive.len() == self.deps.len()
        &&& forall|s: int, i: int|
            0 <= s < self.subs.len() && 0 <= i < self.subs[s].len() ==> (
            #[trigger] self.subs[s][i]) < self.deps.len()
        &&& forall|e: int, i: int|
            0 <= e < self.deps.len() && 0 <= i < self.deps[e].len() ==> (
            #[trigger] self.deps[e][i]) < self.subs.len()
        &&& forall|s: int|
            0 <= s < self.subs.len() ==> (#[trigger] self.producers[s] matches Some(e) ==> e
                < self.deps.len())
        &&& forall|i: int| 0 <= i < self.stack.len() ==> (#[trigger] self.stack[i]) < self.deps.len()
        &&& self.current == innermost(self.stack)
        &&& forall|i: int|
            0 <= i < self.pending.len() ==> (#[trigger] self.pending[i]) < self.deps.len()
        &&& self.pending.no_duplicates()
        &&& forall|s: int, e: usize|
            0 <= s < self.subs.len() && #[trigger] self.subs[s].contains(e)
                ==> self.deps[e as int].contains(s as usize)
        &&& forall|s: int, e: int|
            0 <= s < self.subs.len() && 0 <= e < self.deps.len() && self.alive[e]
                && #[trigger] self.deps[e].contains(s as usize) ==> #[trigger] self.subs[s].contains(
                e as usize,
            )
        &&& self.subs.len() <= usize::MAX
        &&& self.deps.len() <= usize::MAX
    }

    /// What a server handed over under a name.
    pub open spec fn handed_over(self, name: Seq<char>) -> Option<Json> {
        match self.hydration {
            Some(h) => if h.contains_key(name) {
                Some(h[name])
            } else {
                None
            },
            None => None,
        }
    }

    /// The rank that a reader of a signal has at least.
    pub open spec fn rank_over(self, s: int) -> nat {
        match self.producers[s] {
            Some(p) => self.ranks[p as int] as nat + 1,
            None => 0,
        }
    }

    /// The state with one more signal.
    pub open spec fn with_signal(self, producer: Option<usize>) -> RuntimeView {
        RuntimeView {
            subs: self.subs.push(Seq::empty()),
            producers: self.producers.push(producer),
            labels: self.labels.push(None),
            ..self
        }
    }

    /// The state with one more effect, which has not run yet.
    pub open spec fn with_effect(self) -> RuntimeView {
        RuntimeView {
            deps: self.deps.push(Seq::empty()),
            cleanups: self.cleanups.push(Seq::empty()),
            ranks: self.ranks.push(0),
            alive: self.alive.push(true),
            ..self
        }
    }

    /// The state with a signal named.
    pub open spec fn with_label(self, s: int, name: Seq<char>) -> RuntimeView {
        RuntimeView { labels: self.labels.update(s, Some(name)), ..self }
    }

    /// The state after the running effect, if any, read a signal.
    pub open spec fn after_read(self, s: int) -> RuntimeView {
        if self.stack.len() == 0 {
            self
        } else {
            let e = self.stack.last();
            let ranks = if self.rank_over(s) > self.ranks[e as int] {
                self.ranks.update(e as int, self.rank_over(s) as u32)
            } else {
                self.ranks
            };
            if self.subs[s].contains(e) {
                RuntimeView { ranks, ..self }
            } else {
                RuntimeView {
                    ranks,
                    subs: self.subs.update(s, self.subs[s].push(e)),
                    deps: self.deps.update(e as int, self.deps[e as int].push(s as usize)),
                    ..self
                }
            }
        }
    }

    /// The state after a signal was written.
    pub open spec fn notified(self, s: int) -> RuntimeView {
        let woken = living(self.subs[s], self.alive);
        RuntimeView {
            subs: self.subs.update(s, woken),
            pending: joined(self.pending, woken),
            ..self
        }
    }

    /// The state after an effect was made ready to run again.
    pub open spec fn started(self, e: int) -> RuntimeView {
        RuntimeView {
            subs: self.subs.map_values(|l: Seq<usize>| without(l, e as usize)),
            deps: self.deps.update(e, Seq::empty()),
            cleanups: self.cleanups.update(e, Seq::empty()),
            ranks: self.ranks.update(e, 0),
            pending: without(self.pending, e as usize),
            ..self
        }
    }

    /// With one more cleanup for the innermost running effect, if there is one.
    pub open spec fn with_cleanup(self, cleanup: u64) -> RuntimeView {
        match self.current {
            Some(e) => RuntimeView {
                cleanups: self.cleanups.update(e as int, self.cleanups[e as int].push(cleanup)),
                ..self
            },
            None => self,
        }
    }

    /// With an effect let go: it runs no more and has no cleanups left.
    pub open spec fn released(self, e: int) -> RuntimeView {
        RuntimeView {
            cleanups: self.cleanups.update(e, Seq::empty()),
            alive: self.alive.update(e, false),
            ..self
        }
    }

    /// With one more write counted under the label of a signal, if it has one.
    pub open spec fn counted(self, s: int) -> RuntimeView {
        match self.labels[s] {
            Some(l) => RuntimeView {
                activity: self.activity.insert(
                    l,
                    if self.activity.contains_key(l) {
                        (self.activity[l] + 1) as u64
                    } else {
                        1
                    },
                ),
                ..self
            },
            None => self,
        }
    }

    /// The state once an effect runs.
    pub open spec fn entered(self, e: usize) -> RuntimeView {
        RuntimeView { stack: self.stack.push(e), current: Some(e), ..self }
    }

    /// The state once the innermost effect has run.
    pub open spec fn left(self) -> RuntimeView {
        RuntimeView {
            stack: self.stack.drop_last(),
            current: innermost(self.stack.drop_last()),
            ..self
        }
    }

    /// The effects that wait and are still held, in the order of their ranks.
    pub open spec fn queue(self) -> Seq<usize> {
        ranking::by_rank(living(self.pending, self.alive), self.ranks)
    }

    /// The effects of the next pass, in order: of those that wait, the ones of
    /// the lowest rank.
    pub open spec fn pass(self) -> Seq<usize> {
        lowest(self.queue(), self.ranks)
    }
}

proof fn lemma_without(list: Seq<usize>, e: usize)
    ensures
        forall|x: usize| #[trigger]
            without(list, e).contains(x) <==> list.contains(x) && x != e,
        list.no_duplicates() ==> without(list, e).no_duplicates(),
    decreases list.len(),
{
    if list.len() > 0 {
        let head = list.drop_last();
        let w = without(head, e);
        lemma_without(head, e);
        if list.no_duplicates() && list.last() != e {
            assert(!head.contains(list.last())) by {
                if head.contains(list.last()) {
                    let i = choose|i: int| 0 <= i < head.len() && head[i] == list.last();
                    assert(list[i] == list[list.len() - 1]);
                }
            }
            assert(!w.contains(list.last()));
            ranking::lemma_no_duplicates_push(w, list.last());
        }
        assert forall|x: usize| #[trigger] without(list, e).contains(x) <==> list.contains(x) && x
            != e by {
            ranking::lemma_contains_last(list, x);
            if list.last() != e {
                ranking::lemma_contains_push(w, list.last(), x);
            }
        }
    }
}

proof fn lemma_living(list: Seq<usize>, alive: Seq<bool>)
    ensures
        forall|x: usize| #[trigger]
            living(list, alive).contains(x) <==> list.contains(x) && alive[x as int],
        list.no_duplicates() ==> living(list, alive).no_duplicates(),
    decreases list.len(),
{
    if list.len() > 0 {
        let head = list.drop_last();
        let l = living(head, alive);
        lemma_living(head, alive);
        assert forall|x: usize| #[trigger] living(list, alive).contains(x) <==> list.contains(x)
            && alive[x as int] by {
            ranking::lemma_contains_last(list, x);
            if alive[list.last() as int] {
                ranking::lemma_contains_push(l, list.last(), x);
            }
        }
        if list.no_duplicates() && alive[list.last() as int] {
            assert(!head.contains(list.last())) by {
                if head.contains(list.last()) {
                    let i = choose|i: int| 0 <= i < head.len() && head[i] == list.last();
                    assert(list[i] == list[list.len() - 1]);
                }
            }
            assert(!l.contains(list.last()));
            ranking::lemma_no_duplicates_push(l, list.last());
        }
    }
}

proof fn lemma_joined(list: Seq<usize>, more: Seq<usize>)
    ensures
        forall|x: usize| #[trigger]
            joined(list, more).contains(x) <==> list.contains(x) || more.contains(x),
        list.no_duplicates() ==> joined(list, more).no_duplicates(),
    decreases more.len(),
{
    if more.len() > 0 {
        let head = more.drop_last();
        let before = joined(list, head);
        lemma_joined(list, head);
        assert forall|x: usize| #[trigger] joined(list, more).contains(x) <==> list.contains(x)
            || more.contains(x) by {
            ranking::lemma_contains_last(more, x);
            if !before.contains(more.last()) {
                ranking::lemma_contains_push(before, more.last(), x);
            }
        }
        if list.no_duplicates() && !before.contains(more.last()) {
            ranking::lemma_no_duplicates_push(before, more.last());
        }
    }
}

/// A write wakes the effects that are still held and read the signal in their
/// latest run, and no others.
pub proof fn law_write_wakes_exactly_the_readers(v: RuntimeView, s: int, e: int)
    requires
        v.wf(),
        0 <= s < v.subs.len(),
        0 <= e < v.deps.len(),
    ensures
        v.notified(s).pending.contains(e as usize) <==> v.pending.contains(e as usize) || (
        v.alive[e] && v.deps[e].contains(s as usize)),
{
    let woken = living(v.subs[s], v.alive);
    lemma_living(v.subs[s], v.alive);
    lemma_joined(v.pending, woken);
    assert(joined(v.pending, woken).contains(e as usize) <==> v.pending.contains(e as usize)
        || woken.contains(e as usize));
    assert(woken.contains(e as usize) <==> v.subs[s].contains(e as usize) && v.alive[e]);
}

proof fn lemma_lowest(list: Seq<usize>, ranks: Seq<u32>)
    requires
        ranking::ascending(list, ranks),
    ensures
        lowest(list, ranks).len() <= list.len(),
        lowest(list, ranks) == list.take(lowest(list, ranks).len() as int),
        list.len() > 0 ==> lowest(list, ranks).len() > 0,
        forall|i: int|
            0 <= i < list.len() ==> ((i < lowest(list, ranks).len()) <==> ranks[
            #[trigger] list[i] as int] == ranks[list[0] as int]),
    decreases list.len(),
{
    if list.len() == 0 || ranks[list.last() as int] == ranks[list[0] as int] {
        assert(list.take(list.len() as int) =~= list);
        assert forall|i: int| 0 <= i < list.len() implies ranks[#[trigger] list[i] as int]
            == ranks[list[0] as int] by {
            assert(ranks[list[0] as int] <= ranks[list[i] as int]);
            assert(ranks[list[i] as int] <= ranks[list[list.len() - 1] as int]);
        }
    } else {
        let head = list.drop_last();
        assert(ranking::ascending(head, ranks)) by {
            assert forall|i: int, j: int| 0 <= i <= j < head.len() implies ranks[
            #[trigger] head[i] as int] <= ranks[#[trigger] head[j] as int] by {
                assert(head[i] == list[i] && head[j] == list[j]);
            }
        }
        lemma_lowest(head, ranks);
        let n = lowest(head, ranks).len() as int;
        assert(head.take(n) =~= list.take(n));
        assert(head[0] == list[0]);
        assert forall|i: int| 0 <= i < list.len() implies ((i < n) <==> ranks[
        #[trigger] list[i] as int] == ranks[list[0] as int]) by {
            if i < head.len() {
                assert(head[i] == list[i]);
            }
        }
    }
}

proof fn lemma_queue(v: RuntimeView)
    requires
        v.wf(),
    ensures
        v.queue().no_duplicates(),
        ranking::ascending(v.queue(), v.ranks),
        forall|x: usize| #[trigger]
            v.queue().contains(x) <==> v.pending.contains(x) && v.alive[x as int],
        v.pass().len() <= v.queue().len(),
        v.pass() == v.queue().take(v.pass().len() as int),
        v.queue().len() > 0 ==> v.pass().len() > 0,
        forall|i: int|
            0 <= i < v.queue().len() ==> ((i < v.pass().len()) <==> v.ranks[
            #[trigger] v.queue()[i] as int] == v.ranks[v.queue()[0] as int]),
{
    lemma_living(v.pending, v.alive);
    ranking::lemma_by_rank(living(v.pending, v.alive), v.ranks);
    assert forall|x: usize| #[trigger] v.queue().contains(x) <==> v.pending.contains(x)
        && v.alive[x as int] by {
        assert(living(v.pending, v.alive).contains(x) <==> v.pending.contains(x)
            && v.alive[x as int]);
    }
    lemma_lowest(v.queue(), v.ranks);
}

/// The effects that wait on when a pass was handed out.
pub open spec fn remaining(v: RuntimeView) -> Seq<usize> {
    v.queue().skip(v.pass().len() as int)
}

/// A pass runs each of its effects once, and every effect that waits and is
/// still held is in the pass or waits on, never both.
pub proof fn law_pass_runs_each_waiting_effect_once(v: RuntimeView, e: usize)
    requires
        v.wf(),
    ensures
        v.pass().no_duplicates(),
        v.pass().contains(e) || remaining(v).contains(e) <==> v.pending.contains(e)
            && v.alive[e as int],
        !(v.pass().contains(e) && remaining(v).contains(e)),
{
    lemma_queue(v);
    let q = v.queue();
    let n = v.pass().len() as int;
    assert(q.contains(e) <==> v.pending.contains(e) && v.alive[e as int]);
    if q.contains(e) {
        let i = choose|i: int| 0 <= i < q.len() && q[i] == e;
        if i < n {
            assert(v.pass()[i] == e);
        } else {
            assert(remaining(v)[i - n] == e);
        }
    }
    if v.pass().contains(e) {
        let i = choose|i: int| 0 <= i < n && v.pass()[i] == e;
        assert(q[i] == e);
    }
    if remaining(v).contains(e) {
        let k = choose|k: int| 0 <= k < remaining(v).len() && remaining(v)[k] == e;
        assert(q[n + k] == e);
    }
}

/// Where an effect waits, there is a pass to run.
pub proof fn law_waiting_effects_get_a_pass(v: RuntimeView, e: usize)
    requires
        v.wf(),
        v.pending.contains(e),
        v.alive[e as int],
    ensures
        v.pass().len() > 0,
{
    lemma_queue(v);
    assert(v.queue().contains(e));
}

/// No waiting effect ranks below one of the pass, and those that wait on rank
/// above it: an effect is run only when nothing that it builds on waits.
pub proof fn law_pass_runs_lower_ranks_first(v: RuntimeView, e: usize, x: usize)
    requires
        v.wf(),
        v.pass().contains(e),
        v.pending.contains(x),
        v.alive[x as int],
    ensures
        v.ranks[e as int] <= v.ranks[x as int],
        !v.pass().contains(x) ==> v.ranks[e as int] < v.ranks[x as int],
{
    lemma_queue(v);
    let q = v.queue();
    assert(q.contains(x));
    let i = choose|i: int| 0 <= i < v.pass().len() && v.pass()[i] == e;
    let j = choose|j: int| 0 <= j < q.len() && q[j] == x;
    assert(q[i] == e);
    assert(v.ranks[q[0] as int] <= v.ranks[q[j] as int]);
    if j < v.pass().len() {
        assert(v.pass()[j] == x);
    }
}

/// An effect that starts to run waits no longer, whatever woke it before, and
/// nothing else that waits is forgotten.
pub proof fn law_started_effect_waits_no_longer(v: RuntimeView, e: int, x: usize)
    requires
        v.wf(),
        0 <= e < v.deps.len(),
    ensures
        !v.started(e).pending.contains(e as usize),
        x != e ==> (v.started(e).pending.contains(x) <==> v.pending.contains(x)),
{
    lemma_without(v.pending, e as usize);
    assert(!without(v.pending, e as usize).contains(e as usize));
    assert(without(v.pending, e as usize).contains(x) <==> v.pending.contains(x) && x
        != e as usize);
}

/// A write of a signal wakes no effect but its readers: one that ran after the
/// effects whose results it reads stays out of the queue when others write.
pub proof fn law_settled_effect_stays_settled(v: RuntimeView, s: int, e: int)
    requires
        v.wf(),
        0 <= s < v.subs.len(),
        0 <= e < v.deps.len(),
        !v.pending.contains(e as usize),
        !v.deps[e].contains(s as usize),
    ensures
        !v.notified(s).pending.contains(e as usize),
{
    law_write_wakes_exactly_the_readers(v, s, e);
}

/// Running an effect inside another leaves the other the one that runs.
pub proof fn law_run_restores_the_outer_effect(v: RuntimeView, e: usize)
    requires
        v.wf(),
    ensures
        v.entered(e).left() == v,
{
    assert(v.stack.push(e).drop_last() =~= v.stack);
}

/// An effect that reads a computed signal ranks above the effect that computes
/// it.
pub proof fn law_reader_ranks_above_the_producer(v: RuntimeView, s: int)
    requires
        v.wf(),
        0 <= s < v.subs.len(),
        v.stack.len() > 0,
        v.producers[s] matches Some(p) && p != v.stack.last() && v.ranks[p as int] < u32::MAX,
    ensures
        v.after_read(s).ranks[v.stack.last() as int] > v.after_read(s).ranks[v.producers[s]->0 as int],
{
    assert(v.stack[v.stack.len() - 1] < v.deps.len());
}

/// Once an effect is made ready to run again, no signal wakes it until it reads
/// one.
pub proof fn law_rerun_forgets_old_reads(v: RuntimeView, e: int, s: int)
    requires
        v.wf(),
        0 <= e < v.deps.len(),
        0 <= s < v.subs.len(),
    ensures
        !v.started(e).subs[s].contains(e as usize),
        v.started(e).deps[e].len() == 0,
{
    lemma_without(v.subs[s], e as usize);
    assert(!without(v.subs[s], e as usize).contains(e as usize));
}

/// A signal that the running effect read wakes it when it is written.
pub proof fn law_read_signal_wakes_the_reader(v: RuntimeView, s: int)
    requires
        v.wf(),
        0 <= s < v.subs.len(),
        v.stack.len() > 0,
        v.alive[v.stack.last() as int],
    ensures
        v.after_read(s).notified(s).pending.contains(v.stack.last()),
{
    let e = v.stack.last();
    let t = v.after_read(s);
    assert(v.stack[v.stack.len() - 1] < v.deps.len());
    assert(t.subs[s].contains(e)) by {
        if !v.subs[s].contains(e) {
            ranking::lemma_contains_push(v.subs[s], e, e);
        }
    }
    lemma_living(t.subs[s], t.alive);
    lemma_joined(t.pending, living(t.subs[s], t.alive));
    assert(living(t.subs[s], t.alive).contains(e));
}

proof fn lemma_after_read_wf(v: RuntimeView, s: int)
    requires
        v.wf(),
        0 <= s < v.subs.len(),
    ensures
        v.after_read(s).wf(),
{
    if v.stack.len() > 0 {
        let e = v.stack.last();
        let t = v.after_read(s);
        assert(v.stack[v.stack.len() - 1] < v.deps.len());
        if !v.subs[s].contains(e) {
            assert forall|a: int, i: int|
                0 <= a < t.subs.len() && 0 <= i < t.subs[a].len() implies (#[trigger] t.subs[a][i])
                < t.deps.len() by {
                if i < v.subs[a].len() {
                    assert(t.subs[a][i] == v.subs[a][i]);
                }
            }
            assert forall|b: int, i: int|
                0 <= b < t.deps.len() && 0 <= i < t.deps[b].len() implies (#[trigger] t.deps[b][i])
                < t.subs.len() by {
                if i < v.deps[b].len() {
                    assert(t.deps[b][i] == v.deps[b][i]);
                }
            }
            assert forall|a: int, x: usize|
                0 <= a < t.subs.len() && #[trigger] t.subs[a].contains(
                    x,
                ) implies t.deps[x as int].contains(a as usize) by {
                ranking::lemma_contains_push(v.deps[e as int], s as usize, a as usize);
                if a == s {
                    ranking::lemma_contains_push(v.subs[s], e, x);
                }
            }
            assert forall|a: int, b: int|
                0 <= a < t.subs.len() && 0 <= b < t.deps.len() && t.alive[b]
                    && #[trigger] t.deps[b].contains(
                    a as usize,
                ) implies #[trigger] t.subs[a].contains(b as usize) by {
                ranking::lemma_contains_push(v.subs[s], e, b as usize);
                if b == e {
                    ranking::lemma_contains_push(v.deps[b], s as usize, a as usize);
                }
            }
        }
    }
}

proof fn lemma_notified_wf(v: RuntimeView, s: int)
    requires
        v.wf(),
        0 <= s < v.subs.len(),
    ensures
        v.notified(s).wf(),
{
    let t = v.notified(s);
    let woken = living(v.subs[s], v.alive);
    lemma_living(v.subs[s], v.alive);
    lemma_joined(v.pending, woken);
    assert forall|i: int| 0 <= i < woken.len() implies (#[trigger] woken[i]) < v.deps.len() by {
        assert(woken.contains(woken[i]));
        let k = choose|k: int| 0 <= k < v.subs[s].len() && v.subs[s][k] == woken[i];
        assert(v.subs[s][k] < v.deps.len());
    }
    assert forall|a: int, i: int| 0 <= a < t.subs.len() && 0 <= i < t.subs[a].len() implies (
    #[trigger] t.subs[a][i]) < t.deps.len() by {
        if a != s {
            assert(t.subs[a][i] == v.subs[a][i]);
        }
    }
    assert forall|i: int| 0 <= i < t.pending.len() implies (#[trigger] t.pending[i])
        < t.deps.len() by {
        let x = t.pending[i];
        assert(t.pending.contains(x));
        if v.pending.contains(x) {
            let k = choose|k: int| 0 <= k < v.pending.len() && v.pending[k] == x;
            assert(v.pending[k] < v.deps.len());
        } else {
            let k = choose|k: int| 0 <= k < woken.len() && woken[k] == x;
            assert(woken[k] < v.deps.len());
        }
    }
    assert forall|a: int, x: usize|
        0 <= a < t.subs.len() && #[trigger] t.subs[a].contains(
            x,
        ) implies t.deps[x as int].contains(a as usize) by {
        if a == s {
            assert(v.subs[s].contains(x));
        }
    }
    assert forall|a: int, b: int|
        0 <= a < t.subs.len() && 0 <= b < t.deps.len() && t.alive[b] && #[trigger] t.deps[b].contains(
            a as usize,
        ) implies #[trigger] t.subs[a].contains(b as usize) by {
        assert(v.subs[a].contains(b as usize));
    }
}

proof fn lemma_started_wf(v: RuntimeView, e: int)
    requires
        v.wf(),
        0 <= e < v.deps.len(),
    ensures
        v.started(e).wf(),
{
    let t = v.started(e);
    lemma_without(v.pending, e as usize);
    assert forall|i: int| 0 <= i < t.pending.len() implies (#[trigger] t.pending[i])
        < t.deps.len() by {
        let x = t.pending[i];
        assert(without(v.pending, e as usize).contains(x));
        let k = choose|k: int| 0 <= k < v.pending.len() && v.pending[k] == x;
        assert(v.pending[k] < v.deps.len());
    }
    assert forall|a: int, i: int| 0 <= a < t.subs.len() && 0 <= i < t.subs[a].len() implies (
    #[trigger] t.subs[a][i]) < t.deps.len() by {
        lemma_without(v.subs[a], e as usize);
        let x = t.subs[a][i];
        assert(without(v.subs[a], e as usize).contains(x));
        let k = choose|k: int| 0 <= k < v.subs[a].len() && v.subs[a][k] == x;
        assert(v.subs[a][k] < v.deps.len());
    }
    assert forall|b: int, i: int| 0 <= b < t.deps.len() && 0 <= i < t.deps[b].len() implies (
    #[trigger] t.deps[b][i]) < t.subs.len() by {
        assert(t.deps[b][i] == v.deps[b][i]);
    }
    assert forall|a: int, x: usize|
        0 <= a < t.subs.len() && #[trigger] t.subs[a].contains(
            x,
        ) implies t.deps[x as int].contains(a as usize) by {
        lemma_without(v.subs[a], e as usize);
        assert(without(v.subs[a], e as usize).contains(x));
        assert(v.subs[a].contains(x));
    }
    assert forall|a: int, b: int|
        0 <= a < t.subs.len() && 0 <= b < t.deps.len() && t.alive[b] && #[trigger] t.deps[b].contains(
            a as usize,
        ) implies #[trigger] t.subs[a].contains(b as usize) by {
        lemma_without(v.subs[a], e as usize);
        if b != e {
            assert(v.deps[b].contains(a as usize));
            assert(v.subs[a].contains(b as usize));
            assert(without(v.subs[a], e as usize).contains(b as usize));
        }
    }
}

/// The bookkeeping of signals and effects.
pub struct Runtime {
    subs: Vec<Vec<usize>>,
    producers: Vec<Option<usize>>,
    labels: Vec<Option<String>>,
    deps: Vec<Vec<usize>>,
    cleanups: Vec<Vec<u64>>,
    ranks: Vec<u32>,
    alive: Vec<bool>,
    stack: Vec<usize>,
    current: Option<usize>,
    depth: u32,
    pending: Vec<usize>,
    /// The values that a server handed over, by name.
    hydration: Option<StrMap<Json>>,
    /// How often each named signal was written.
    activity: StrMap<u64>,
}

pub open spec fn label_views(labels: Seq<Option<String>>) -> Seq<Option<Seq<char>>> {
    labels.map_values(
        |l: Option<String>|
            match l {
                Some(s) => Some(s@),
                None => None,
            },
    )
}

pub open spec fn cleanup_views(v: Seq<Vec<u64>>) -> Seq<Seq<u64>> {
    v.map_values(|l: Vec<u64>| l@)
}

impl View for Runtime {
    type V = RuntimeView;

    closed spec fn view(&self) -> RuntimeView {
        RuntimeView {
            subs: lists(self.subs@),
            producers: self.producers@,
            labels: label_views(self.labels@),
            deps: lists(self.deps@),
            cleanups: cleanup_views(self.cleanups@),
            ranks: self.ranks@,
            alive: self.alive@,
            stack: self.stack@,
            current: self.current,
            depth: self.depth,
            pending: self.pending@,
            hydration: map_view(self.hydration),
            activity: self.activity@,
        }
    }
}

pub open spec fn map_view(state: Option<StrMap<Json>>) -> Option<Map<Seq<char>, Json>> {
    match state {
        Some(m) => Some(m@),
        None => None,
    }
}

fn holds(list: &Vec<usize>, e: usize) -> (r: bool)
    ensures
        r == list@.contains(e),
{
    let mut i: usize = 0;
    while i < list.len()
        invariant
            i <= list@.len(),
            forall|k: int| 0 <= k < i ==> list@[k] != e,
        decreases list@.len() - i,
    {
        if list[i] == e {
            return true;
        }
        i += 1;
    }
    false
}

fn remove_all(list: &Vec<usize>, e: usize) -> (r: Vec<usize>)
    ensures
        r@ == without(list@, e),
{
    let mut r: Vec<usize> = Vec::new();
    let mut i: usize = 0;
    assert(list@.take(0) =~= Seq::<usize>::empty());
    while i < list.len()
        invariant
            i <= list@.len(),
            r@ == without(list@.take(i as int), e),
        decreases list@.len() - i,
    {
        assert(list@.take(i + 1).drop_last() =~= list@.take(i as int));
        if list[i] != e {
            r.push(list[i]);
        }
        i += 1;
    }
    assert(list@.take(list@.len() as int) =~= list@);
    r
}

fn keep_living(list: &Vec<usize>, alive: &Vec<bool>) -> (r: Vec<usize>)
    requires
        forall|i: int| 0 <= i < list@.len() ==> (#[trigger] list@[i]) < alive@.len(),
    ensures
        r@ == living(list@, alive@),
{
    let mut r: Vec<usize> = Vec::new();
    let mut i: usize = 0;
    assert(list@.take(0) =~= Seq::<usize>::empty());
    while i < list.len()
        invariant
            forall|i: int| 0 <= i < list@.len() ==> (#[trigger] list@[i]) < alive@.len(),
            i <= list@.len(),
            r@ == living(list@.take(i as int), alive@),
        decreases list@.len() - i,
    {
        assert(list@.take(i + 1).drop_last() =~= list@.take(i as int));
        let e: usize = list[i];
        if alive[e] {
            r.push(e);
        }
        i += 1;
    }
    assert(list@.take(list@.len() as int) =~= list@);
    r
}

fn enqueue(pending: &mut Vec<usize>, effects: &Vec<usize>)
    ensures
        final(pending)@ == joined(old(pending)@, effects@),
{
    let mut i: usize = 0;
    assert(effects@.take(0) =~= Seq::<usize>::empty());
    while i < effects.len()
        invariant
            i <= effects@.len(),
            pending@ == joined(old(pending)@, effects@.take(i as int)),
        decreases effects@.len() - i,
    {
        assert(effects@.take(i + 1).drop_last() =~= effects@.take(i as int));
        if !holds(pending, effects[i]) {
            pending.push(effects[i]);
        }
        i += 1;
    }
    assert(effects@.take(effects@.len() as int) =~= effects@);
}

impl Runtime {
    /// Whether the bookkeeping is sound.
    pub closed spec fn wf(&self) -> bool {
        &&& self@.wf()
        &&& self.activity.wf()
        &&& self.hydration matches Some(h) ==> h.wf()
    }

    /// The state of a sound runtime is sound: what is proved of sound states holds
    /// of it.
    pub proof fn lemma_wf(&self)
        requires
            self.wf(),
        ensures
            self@.wf(),
    {
    }

    /// A runtime without signals and effects.
    pub fn new() -> (rt: Runtime)
        ensures
            rt.wf(),
            rt@.subs.len() == 0,
            rt@.deps.len() == 0,
            rt@.stack.len() == 0,
            rt@.current is None,
            rt@.depth == 0,
            rt@.pending.len() == 0,
            rt@.hydration is None,
            rt@.activity == Map::<Seq<char>, u64>::empty(),
    {
        Runtime {
            subs: Vec::new(),
            producers: Vec::new(),
            labels: Vec::new(),
            deps: Vec::new(),
            cleanups: Vec::new(),
            ranks: Vec::new(),
            alive: Vec::new(),
            stack: Vec::new(),
            current: None,
            depth: 0,
            pending: Vec::new(),
            hydration: None,
            activity: StrMap::new(),
        }
    }

    fn add_signal(&mut self, producer: Option<usize>) -> (id: usize)
        requires
            old(self).wf(),
            old(self)@.subs.len() < usize::MAX,
            producer matches Some(e) ==> e < old(self)@.deps.len(),
        ensures
            final(self).wf(),
            id == old(self)@.subs.len(),
            final(self)@ == old(self)@.with_signal(producer),
    {
        let ghost v = self@;
        let id: usize = self.subs.len();
        self.subs.push(Vec::new());
        self.producers.push(producer);
        self.labels.push(None);
        proof {
            let t = self@;
            assert(t.subs =~= v.subs.push(Seq::empty()));
            assert(t.labels =~= v.labels.push(None));
            assert forall|a: int, x: usize|
                0 <= a < t.subs.len() && #[trigger] t.subs[a].contains(
                    x,
                ) implies t.deps[x as int].contains(a as usize) by {
                if a < v.subs.len() {
                    assert(v.subs[a].contains(x));
                }
            }
            assert forall|a: int, b: int|
                0 <= a < t.subs.len() && 0 <= b < t.deps.len() && t.alive[b]
                    && #[trigger] t.deps[b].contains(
                    a as usize,
                ) implies #[trigger] t.subs[a].contains(b as usize) by {
                let k = choose|k: int| 0 <= k < t.deps[b].len() && t.deps[b][k] == a as usize;
                assert(v.deps[b][k] < v.subs.len());
                assert(v.deps[b].contains(a as usize));
                assert(v.subs[a].contains(b as usize));
            }
            assert forall|s: int| 0 <= s < t.subs.len() implies (#[trigger] t.producers[s] matches Some(
                e,
            ) ==> e < t.deps.len()) by {
                if s < v.subs.len() {
                    assert(t.producers[s] == v.producers[s]);
                }
            }
            assert forall|a: int, i: int|
                0 <= a < t.subs.len() && 0 <= i < t.subs[a].len() implies (#[trigger] t.subs[a][i])
                < t.deps.len() by {
                assert(t.subs[a][i] == v.subs[a][i]);
            }
            assert forall|b: int, i: int|
                0 <= b < t.deps.len() && 0 <= i < t.deps[b].len() implies (#[trigger] t.deps[b][i])
                < t.subs.len() by {
                assert(v.deps[b][i] < v.subs.len());
            }
        }
        id
    }

    /// Adds an effect that has not run yet.
    pub fn add_effect(&mut self) -> (id: usize)
        requires
            old(self).wf(),
            old(self)@.deps.len() < usize::MAX,
        ensures
            final(self).wf(),
            id == old(self)@.deps.len(),
            final(self)@ == old(self)@.with_effect(),
    {
        let ghost v = self@;
        let id: usize = self.deps.len();
        self.deps.push(Vec::new());
        self.cleanups.push(Vec::new());
        self.ranks.push(0);
        self.alive.push(true);
        proof {
            let t = self@;
            assert(t.deps =~= v.deps.push(Seq::empty()));
            assert(t.cleanups =~= v.cleanups.push(Seq::empty()));
            assert forall|a: int, x: usize|
                0 <= a < t.subs.len() && #[trigger] t.subs[a].contains(
                    x,
                ) implies t.deps[x as int].contains(a as usize) by {
                let k = choose|k: int| 0 <= k < t.subs[a].len() && t.subs[a][k] == x;
                assert(v.subs[a][k] < v.deps.len());
                assert(v.deps[x as int].contains(a as usize));
            }
            assert forall|a: int, b: int|
                0 <= a < t.subs.len() && 0 <= b < t.deps.len() && t.alive[b]
                    && #[trigger] t.deps[b].contains(
                    a as usize,
                ) implies #[trigger] t.subs[a].contains(b as usize) by {
                if b < v.deps.len() {
                    assert(v.deps[b].contains(a as usize));
                    assert(v.subs[a].contains(b as usize));
                }
            }
            assert forall|a: int, i: int|
                0 <= a < t.subs.len() && 0 <= i < t.subs[a].len() implies (#[trigger] t.subs[a][i])
                < t.deps.len() by {
                assert(v.subs[a][i] < v.deps.len());
            }
            assert forall|b: int, i: int|
                0 <= b < t.deps.len() && 0 <= i < t.deps[b].len() implies (#[trigger] t.deps[b][i])
                < t.subs.len() by {
                assert(t.deps[b][i] == v.deps[b][i]);
            }
        }
        id
    }

    /// Notes that the running effect, if any, read a signal.
    fn track(&mut self, s: usize)
        requires
            old(self).wf(),
            s < old(self)@.subs.len(),
            old(self)@.stack.len() > 0 ==> old(self)@.rank_over(s as int) <= u32::MAX,
        ensures
            final(self).wf(),
            final(self)@ == old(self)@.after_read(s as int),
    {
        let ghost v = self@;
        proof {
            lemma_after_read_wf(v, s as int);
        }
        if self.stack.len() == 0 {
            return;
        }
        let e: usize = self.stack[self.stack.len() - 1];
        assert(v.stack[v.stack.len() - 1] == e);
        let over: u32 = match self.producers[s] {
            Some(p) => {
                assert(v.producers[s as int] == Some(p));
                self.ranks[p] + 1
            },
            None => 0,
        };
        if over > self.ranks[e] {
            self.ranks[e] = over;
        }
        assert(v.subs[s as int] == self.subs@[s as int]@);
        if !holds(&self.subs[s], e) {
            self.subs[s].push(e);
            self.deps[e].push(s);
            assert(self@.subs =~= v.subs.update(s as int, v.subs[s as int].push(e)));
            assert(self@.deps =~= v.deps.update(e as int, v.deps[e as int].push(s)));
        }
        assert(self@ =~= v.after_read(s as int));
    }

    /// Wakes the readers of a signal. Whether they have to be run at once.
    fn notify(&mut self, s: usize) -> (now: bool)
        requires
            old(self).wf(),
            s < old(self)@.subs.len(),
        ensures
            final(self).wf(),
            final(self)@ == old(self)@.notified(s as int),
            now == (old(self)@.depth == 0),
    {
        let ghost v = self@;
        proof {
            lemma_notified_wf(v, s as int);
            assert(v.subs[s as int] == self.subs@[s as int]@);
            assert forall|i: int| 0 <= i < self.subs@[s as int]@.len() implies (
            #[trigger] self.subs@[s as int]@[i]) < self.alive@.len() by {
                assert(v.subs[s as int][i] < v.deps.len());
            }
        }
        let woken = keep_living(&self.subs[s], &self.alive);
        enqueue(&mut self.pending, &woken);
        self.subs[s] = woken;
        assert(self@.subs =~= v.subs.update(s as int, living(v.subs[s as int], v.alive)));
        assert(self@ =~= v.notified(s as int));
        self.depth == 0
    }

    /// Makes an effect ready to run again: it no longer waits for the signals
    /// that it read, nor for a pass. The cleanups of its last run are handed out.
    pub fn start_run(&mut self, e: usize) -> (cleanups: Vec<u64>)
        requires
            old(self).wf(),
            e < old(self)@.deps.len(),
        ensures
            final(self).wf(),
            final(self)@ == old(self)@.started(e as int),
            cleanups@ == old(self)@.cleanups[e as int],
    {
        let ghost v = self@;
        let ghost subs0 = self.subs@;
        proof {
            lemma_started_wf(v, e as int);
        }
        self.ranks[e] = 0;
        let deps = self.deps.remove(e);
        self.deps.insert(e, Vec::new());
        assert(lists(self.deps@) =~= v.deps.update(e as int, Seq::empty()));
        assert(deps@ == v.deps[e as int]);
        let mut i: usize = 0;
        while i < deps.len()
            invariant
                v.wf(),
                e < v.deps.len(),
                deps@ == v.deps[e as int],
                v.subs == lists(subs0),
                self.subs@.len() == subs0.len(),
                i <= deps@.len(),
                self.producers@ == v.producers,
                label_views(self.labels@) == v.labels,
                lists(self.deps@) == v.deps.update(e as int, Seq::empty()),
                cleanup_views(self.cleanups@) == v.cleanups,
                self.ranks@ == v.ranks.update(e as int, 0),
                self.alive@ == v.alive,
                self.stack@ == v.stack,
                self.current == v.current,
                self.depth == v.depth,
                self.pending@ == v.pending,
                self.hydration == old(self).hydration,
                self.activity == old(self).activity,
                map_view(self.hydration) == v.hydration,
                self.activity@ == v.activity,
                forall|a: int|
                    0 <= a < subs0.len() ==> ((#[trigger] self.subs@[a])@ == without(
                        v.subs[a],
                        e,
                    ) || (self.subs@[a]@ == v.subs[a] && !deps@.take(i as int).contains(
                        a as usize,
                    ))),
            decreases deps@.len() - i,
        {
            let s: usize = deps[i];
            assert(v.deps[e as int][i as int] < v.subs.len());
            let ghost before = self.subs@;
            let kept = remove_all(&self.subs[s], e);
            proof {
                if before[s as int]@ == without(v.subs[s as int], e) {
                    lemma_without_twice(v.subs[s as int], e);
                }
            }
            self.subs[s] = kept;
            proof {
                assert forall|a: int| 0 <= a < subs0.len() implies ((#[trigger] self.subs@[a])@
                    == without(v.subs[a], e) || (self.subs@[a]@ == v.subs[a] && !deps@.take(
                    i + 1,
                ).contains(a as usize))) by {
                    if a != s {
                        assert(self.subs@[a] == before[a]);
                        assert(deps@.take(i + 1) =~= deps@.take(i as int).push(s));
                        ranking::lemma_contains_push(deps@.take(i as int), s, a as usize);
                    }
                }
            }
            i += 1;
        }
        proof {
            assert(deps@.take(deps@.len() as int) =~= deps@);
            assert forall|a: int| 0 <= a < subs0.len() implies (#[trigger] self.subs@[a])@
                == without(v.subs[a], e) by {
                if !deps@.contains(a as usize) {
                    assert(!v.subs[a].contains(e));
                    lemma_without_absent(v.subs[a], e);
                }
            }
            assert(self@.subs =~= v.subs.map_values(|l: Seq<usize>| without(l, e)));
        }
        let cleanups = self.cleanups.remove(e);
        self.cleanups.insert(e, Vec::new());
        assert(self@.cleanups =~= v.cleanups.update(e as int, Seq::empty()));
        self.pending = remove_all(&self.pending, e);
        assert(self@ =~= v.started(e as int));
        cleanups
    }

    /// Starts the run of an effect: what is read from now on, it reads.
    pub fn enter(&mut self, e: usize)
        requires
            old(self).wf(),
            e < old(self)@.deps.len(),
        ensures
            final(self).wf(),
            final(self)@ == old(self)@.entered(e),
    {
        self.stack.push(e);
        self.current = Some(e);
    }

    /// Ends the run of the innermost effect: the one around it runs on.
    pub fn leave(&mut self)
        requires
            old(self).wf(),
            old(self)@.stack.len() > 0,
        ensures
            final(self).wf(),
            final(self)@ == old(self)@.left(),
    {
        let _ = self.stack.pop();
        assert(self@.stack =~= old(self)@.stack.drop_last());
        self.current = if self.stack.len() == 0 {
            None
        } else {
            Some(self.stack[self.stack.len() - 1])
        };
    }

    /// The effects that have to run now, in order. What else waits, and what
    /// their writes wake, waits for the next pass; where there are none to run,
    /// none is opened.
    pub fn next_pass(&mut self) -> (effects: Vec<usize>)
        requires
            old(self).wf(),
            old(self)@.depth < u32::MAX,
        ensures
            final(self).wf(),
            effects@ == old(self)@.pass(),
            final(self)@ == (RuntimeView {
                pending: remaining(old(self)@),
                depth: if effects@.len() == 0 {
                    old(self)@.depth
                } else {
                    (old(self)@.depth + 1) as u32
                },
                ..old(self)@
            }),
    {
        let ghost v = self@;
        let waiting = keep_living(&self.pending, &self.alive);
        proof {
            lemma_living(v.pending, v.alive);
            assert forall|i: int| 0 <= i < waiting@.len() implies (#[trigger] waiting@[i])
                < self.ranks@.len() by {
                assert(waiting@.contains(waiting@[i]));
                let k = choose|k: int| 0 <= k < v.pending.len() && v.pending[k] == waiting@[i];
                assert(v.pending[k] < v.deps.len());
            }
        }
        let mut effects = sort_by_rank(&waiting, &self.ranks);
        let ghost q = effects@;
        proof {
            lemma_queue(v);
            assert forall|i: int| 0 <= i < q.len() implies (#[trigger] q[i]) < v.deps.len() by {
                assert(q.contains(q[i]));
                let k = choose|k: int| 0 <= k < v.pending.len() && v.pending[k] == q[i];
                assert(v.pending[k] < v.deps.len());
            }
        }
        let mut n: usize = 0;
        while n < effects.len() && self.ranks[effects[n]] == self.ranks[effects[0]]
            invariant
                effects@ == q,
                q == v.queue(),
                self.ranks@ == v.ranks,
                n <= q.len(),
                v.ranks.len() == v.deps.len(),
                forall|i: int| 0 <= i < q.len() ==> (#[trigger] q[i]) < v.deps.len(),
                forall|i: int|
                    0 <= i < n ==> v.ranks[#[trigger] q[i] as int] == v.ranks[q[0] as int],
            decreases q.len() - n,
        {
            n += 1;
        }
        proof {
            let m = v.pass().len() as int;
            if m < n {
                assert(v.ranks[q[m] as int] == v.ranks[q[0] as int]);
            }
            if n < m {
                assert(v.ranks[q[n as int] as int] == v.ranks[q[0] as int]);
            }
        }
        self.pending = effects.split_off(n);
        if effects.len() > 0 {
            self.depth = self.depth + 1;
        }
        proof {
            assert(effects@ =~= v.pass());
            assert(self@.pending =~= remaining(v));
            let p = self@.pending;
            assert forall|i: int| 0 <= i < p.len() implies (#[trigger] p[i]) < v.deps.len() by {
                assert(p[i] == q[n + i]);
            }
            assert forall|i: int, j: int|
                0 <= i < p.len() && 0 <= j < p.len() && i != j implies p[i] != p[j] by {
                assert(p[i] == q[n + i] && p[j] == q[n + j]);
            }
        }
        effects
    }

    /// Ends a pass.
    pub fn end_pass(&mut self)
        requires
            old(self).wf(),
            old(self)@.depth > 0,
        ensures
            final(self).wf(),
            final(self)@ == (RuntimeView { depth: (old(self)@.depth - 1) as u32, ..old(self)@ }),
    {
        self.depth = self.depth - 1;
    }

    /// Gives a signal a name under which its writes are counted.
    pub fn set_label(&mut self, s: usize, name: &str)
        requires
            old(self).wf(),
            s < old(self)@.subs.len(),
        ensures
            final(self).wf(),
            final(self)@ == old(self)@.with_label(s as int, name@),
    {
        let ghost v = self@;
        self.labels[s] = Some(name.to_owned());
        assert(self@.labels =~= v.labels.update(s as int, Some(name@)));
    }

    /// The value that a server handed over under a name.
    pub fn hydration_value(&self, name: &str) -> (r: Option<&Json>)
        requires
            self.wf(),
        ensures
            match r {
                Some(j) => self@.handed_over(name@) == Some(*j),
                None => self@.handed_over(name@) is None,
            },
    {
        match &self.hydration {
            Some(h) => h.get(name),
            None => None,
        }
    }
}

proof fn lemma_without_twice(list: Seq<usize>, e: usize)
    ensures
        without(without(list, e), e) == without(list, e),
    decreases list.len(),
{
    if list.len() > 0 {
        lemma_without_twice(list.drop_last(), e);
        if list.last() != e {
            let w = without(list.drop_last(), e);
            assert(w.push(list.last()).drop_last() =~= w);
        }
    }
}

proof fn lemma_without_absent(list: Seq<usize>, e: usize)
    requires
        !list.contains(e),
    ensures
        without(list, e) == list,
    decreases list.len(),
{
    if list.len() > 0 {
        ranking::lemma_contains_last(list, e);
        lemma_without_absent(list.drop_last(), e);
        assert(list.drop_last().push(list.last()) =~= list);
    }
}

/// Opens a batch: effects that are woken wait until the outermost one ends.
pub fn batch(rt: &mut Runtime)
    requires
        old(rt).wf(),
        old(rt)@.depth < u32::MAX,
    ensures
        final(rt).wf(),
        final(rt)@ == (RuntimeView { depth: (old(rt)@.depth + 1) as u32, ..old(rt)@ }),
{
    rt.depth = rt.depth + 1;
}

/// Ends a batch. Whether it was the outermost, so that the effects that wait
/// have to be run.
pub fn end_batch(rt: &mut Runtime) -> (now: bool)
    requires
        old(rt).wf(),
        old(rt)@.depth > 0,
    ensures
        final(rt).wf(),
        final(rt)@ == (RuntimeView { depth: (old(rt)@.depth - 1) as u32, ..old(rt)@ }),
        now == (final(rt)@.depth == 0),
{
    rt.depth = rt.depth - 1;
    rt.depth == 0
}

/// Hands over the values of a server, by name.
pub fn set_hydration_state(rt: &mut Runtime, state: StrMap<Json>)
    requires
        old(rt).wf(),
        state.wf(),
    ensures
        final(rt).wf(),
        final(rt)@ == (RuntimeView { hydration: Some(state@), ..old(rt)@ }),
{
    rt.hydration = Some(state);
}

/// Takes the values of a server back.
pub fn take_hydration_state(rt: &mut Runtime) -> (state: Option<StrMap<Json>>)
    requires
        old(rt).wf(),
    ensures
        final(rt).wf(),
        final(rt)@ == (RuntimeView { hydration: None, ..old(rt)@ }),
        map_view(state) == old(rt)@.hydration,
        state matches Some(m) ==> m.wf(),
{
    let mut state: Option<StrMap<Json>> = None;
    std::mem::swap(&mut state, &mut rt.hydration);
    state
}

/// How often each named signal was written.
pub fn signal_activity(rt: &Runtime) -> (counts: &StrMap<u64>)
    ensures
        counts@ == rt@.activity,
        rt.wf() ==> counts.wf(),
{
    &rt.activity
}

/// Forgets how often named signals were written.
pub fn reset_signal_activity(rt: &mut Runtime)
    requires
        old(rt).wf(),
    ensures
        final(rt).wf(),
        final(rt)@ == (RuntimeView { activity: Map::empty(), ..old(rt)@ }),
{
    rt.activity = StrMap::new();
}

/// Adds a cleanup to the effect that runs right now; without one nothing
/// happens.
pub fn on_cleanup(rt: &mut Runtime, cleanup: u64) -> (added: bool)
    requires
        old(rt).wf(),
    ensures
        final(rt).wf(),
        added == (old(rt)@.current is Some),
        final(rt)@ == old(rt)@.with_cleanup(cleanup),
{
    match rt.current {
        Some(e) => {
            let ghost v = rt@;
            rt.cleanups[e].push(cleanup);
            assert(rt@.cleanups =~= v.cleanups.update(
                e as int,
                v.cleanups[e as int].push(cleanup),
            ));
            true
        },
        None => false,
    }
}

/// Whoever holds this keeps an effect reacting.
pub struct EffectHandle {
    pub id: usize,
}

/// Adds an effect. It has to be run once right away.
pub fn create_effect(rt: &mut Runtime) -> (handle: EffectHandle)
    requires
        old(rt).wf(),
        old(rt)@.deps.len() < usize::MAX,
    ensures
        final(rt).wf(),
        handle.id == old(rt)@.deps.len(),
        final(rt)@ == old(rt)@.with_effect(),
{
    EffectHandle { id: rt.add_effect() }
}

impl EffectHandle {
    /// Lets the effect go: it never runs again. The cleanups of its last run
    /// are handed out.
    pub fn release(self, rt: &mut Runtime) -> (cleanups: Vec<u64>)
        requires
            old(rt).wf(),
            self.id < old(rt)@.deps.len(),
        ensures
            final(rt).wf(),
            cleanups@ == old(rt)@.cleanups[self.id as int],
            final(rt)@ == old(rt)@.released(self.id as int),
    {
        let ghost v = rt@;
        let e: usize = self.id;
        let cleanups = rt.cleanups.remove(e);
        rt.cleanups.insert(e, Vec::new());
        assert(rt@.cleanups =~= v.cleanups.update(e as int, Seq::empty()));
        rt.alive[e] = false;
        proof {
            let t = rt@;
            assert forall|a: int, b: int|
                0 <= a < t.subs.len() && 0 <= b < t.deps.len() && t.alive[b]
                    && #[trigger] t.deps[b].contains(
                    a as usize,
                ) implies #[trigger] t.subs[a].contains(b as usize) by {
                assert(v.alive[b]);
                assert(v.deps[b].contains(a as usize));
            }
        }
        cleanups
    }
}

/// A value that effects can read and react to.
pub struct Signal<T> {
    pub id: usize,
    pub value: T,
}

/// Makes a signal whose value an effect computes; `initial` is what its first
/// run gave.
pub fn create_memo<T>(rt: &mut Runtime, effect: usize, initial: T) -> (s: Signal<T>)
    requires
        old(rt).wf(),
        old(rt)@.subs.len() < usize::MAX,
        effect < old(rt)@.deps.len(),
    ensures
        final(rt).wf(),
        s.value == initial,
        s.id == old(rt)@.subs.len(),
        final(rt)@ == old(rt)@.with_signal(Some(effect)),
{
    let id: usize = rt.add_signal(Some(effect));
    Signal { id, value: initial }
}

impl<T> Signal<T> {
    /// Whether a signal can be read: it is one of the runtime's, and a rank
    /// above the effect that computes it can be given.
    pub open spec fn readable(&self, rt: Runtime) -> bool {
        &&& rt.wf()
        &&& self.id < rt@.subs.len()
        &&& rt@.stack.len() > 0 ==> rt@.rank_over(self.id as int) <= u32::MAX
    }

    /// A signal that holds `value`.
    pub fn new(rt: &mut Runtime, value: T) -> (s: Signal<T>)
        requires
            old(rt).wf(),
            old(rt)@.subs.len() < usize::MAX,
        ensures
            final(rt).wf(),
            s.value == value,
            s.id == old(rt)@.subs.len(),
            final(rt)@ == old(rt)@.with_signal(None),
    {
        let id: usize = rt.add_signal(None);
        Signal { id, value }
    }

    /// A signal that holds what a server handed over under `name`, where
    /// `decode` can read it, else a default.
    pub fn hydrated<F: FnOnce(&Json) -> Option<T>>(
        rt: &mut Runtime,
        name: &str,
        default: T,
        decode: F,
    ) -> (s: Signal<T>)
        requires
            old(rt).wf(),
            old(rt)@.subs.len() < usize::MAX,
            old(rt)@.handed_over(name@) matches Some(j) ==> call_requires(decode, (&j,)),
        ensures
            final(rt).wf(),
            match old(rt)@.handed_over(name@) {
                Some(j) => exists|r: Option<T>| #[trigger]
                    call_ensures(decode, (&j,), r) && s.value == (match r {
                        Some(v) => v,
                        None => default,
                    }),
                None => s.value == default,
            },
            s.id == old(rt)@.subs.len(),
            final(rt)@ == old(rt)@.with_signal(None),
    {
        let restored = match rt.hydration_value(name) {
            Some(j) => decode(j),
            None => None,
        };
        match restored {
            Some(v) => Signal::new(rt, v),
            None => Signal::new(rt, default),
        }
    }

    /// Gives the signal a name under which its writes are counted.
    pub fn labeled(self, rt: &mut Runtime, name: &str) -> (s: Signal<T>)
        requires
            old(rt).wf(),
            self.id < old(rt)@.subs.len(),
        ensures
            final(rt).wf(),
            s == self,
            final(rt)@ == old(rt)@.with_label(self.id as int, name@),
    {
        rt.set_label(self.id, name);
        self
    }

    /// Reads the value in place.
    pub fn with(&self, rt: &mut Runtime) -> (value: &T)
        requires
            self.readable(*old(rt)),
        ensures
            final(rt).wf(),
            *value == self.value,
            final(rt)@ == old(rt)@.after_read(self.id as int),
    {
        rt.track(self.id);
        &self.value
    }

    /// Reads a copy of the value.
    pub fn get(&self, rt: &mut Runtime) -> (value: T) where T: Clone
        requires
            self.readable(*old(rt)),
        ensures
            final(rt).wf(),
            cloned(self.value, value),
            final(rt)@ == old(rt)@.after_read(self.id as int),
    {
        rt.track(self.id);
        self.value.clone()
    }

    /// Writes a value. Whether the effects that it wakes have to be run at
    /// once; when they have run, call `written`.
    pub fn set(&mut self, rt: &mut Runtime, value: T) -> (now: bool)
        requires
            old(rt).wf(),
            old(self).id < old(rt)@.subs.len(),
        ensures
            final(rt).wf(),
            final(self).id == old(self).id,
            final(self).value == value,
            final(rt)@ == old(rt)@.notified(old(self).id as int),
            now == (old(rt)@.depth == 0),
    {
        self.value = value;
        rt.notify(self.id)
    }

    /// Counts a write, where the signal has a name.
    pub fn written(&self, rt: &mut Runtime)
        requires
            old(rt).wf(),
            self.id < old(rt)@.subs.len(),
            old(rt)@.labels[self.id as int] matches Some(l) ==> (old(rt)@.activity.contains_key(l)
                ==> old(rt)@.activity[l] < u64::MAX),
        ensures
            final(rt).wf(),
            final(rt)@ == old(rt)@.counted(self.id as int),
    {
        let ghost v = rt@;
        match &rt.labels[self.id] {
            Some(l) => {
                let name = l.clone();
                assert(v.labels[self.id as int] == Some(name@));
                let count: u64 = match rt.activity.get(name.as_str()) {
                    Some(c) => *c + 1,
                    None => 1,
                };
                rt.activity.insert(name, count);
            },
            None => {
                assert(v.labels[self.id as int] is None);
            },
        }
    }

    /// Writes a value where it differs from the present one. `None` where it
    /// does not, else what `set` returns.
    pub fn set_if_changed(&mut self, rt: &mut Runtime, value: T) -> (r: Option<bool>) where
        T: PartialEq,

        requires
            old(rt).wf(),
            old(self).id < old(rt)@.subs.len(),
        ensures
            final(rt).wf(),
            final(self).id == old(self).id,
            T::obeys_eq_spec() ==> (r is None <==> old(self).value.eq_spec(&value)),
            match r {
                None => {
                    &&& final(self).value == old(self).value
                    &&& final(rt)@ == old(rt)@
                },
                Some(now) => {
                    &&& now == (old(rt)@.depth == 0)
                    &&& final(self).value == value
                    &&& final(rt)@ == old(rt)@.notified(old(self).id as int)
                },
            },
    {
        if self.value == value {
            None
        } else {
            Some(self.set(rt, value))
        }
    }
}

/// A run that begins forgets what its own effect read, and nothing of any other.
pub proof fn law_rerun_leaves_the_others(v: RuntimeView, e: int, x: usize, s: int)
    requires
        v.wf(),
        0 <= e < v.deps.len(),
        0 <= s < v.subs.len(),
        x != e,
        x < v.deps.len(),
    ensures
        v.started(e).subs[s].contains(x) <==> v.subs[s].contains(x),
        v.started(e).deps[x as int] == v.deps[x as int],
        v.started(e).ranks[x as int] == v.ranks[x as int],
        v.started(e).cleanups[x as int] == v.cleanups[x as int],
        v.started(e).cleanups[e].len() == 0,
        v.started(e).ranks[e] == 0,
        v.started(e).alive == v.alive,
        v.started(e).stack == v.stack,
{
    lemma_others_stay(v.subs[s], e as usize, x);
}

proof fn lemma_others_stay(list: Seq<usize>, e: usize, x: usize)
    requires
        x != e,
    ensures
        without(list, e).contains(x) <==> list.contains(x),
    decreases list.len(),
{
    if list.len() > 0 {
        let head = list.drop_last();
        lemma_others_stay(head, e, x);
        assert(list =~= head.push(list.last()));
        lemma_pushed_contains(head, list.last(), x);
        lemma_pushed_contains(without(head, e), list.last(), x);
    }
}

proof fn lemma_pushed_contains(a: Seq<usize>, y: usize, x: usize)
    ensures
        a.push(y).contains(x) <==> a.contains(x) || y == x,
{
    if a.contains(x) {
        let k = choose|k: int| 0 <= k < a.len() && a[k] == x;
        assert(a.push(y)[k] == x);
    }
    assert(a.push(y)[a.len() as int] == y);
}

/// A read ties the innermost running effect to the signal and no other effect to
/// anything; outside of every effect it leaves no trace. A signal that no effect
/// makes does not raise the reader.
pub proof fn law_read_ties_the_innermost_effect(v: RuntimeView, s: int, x: usize, t: int)
    requires
        v.wf(),
        0 <= s < v.subs.len(),
        0 <= t < v.subs.len(),
        x < v.deps.len(),
        v.stack.len() > 0 ==> v.rank_over(s) <= u32::MAX,
    ensures
        v.stack.len() == 0 ==> v.after_read(s) == v,
        v.stack.len() > 0 ==> {
            let e = v.stack.last();
            let w = v.after_read(s);
            &&& w.subs[s].contains(e)
            &&& w.deps[e as int].contains(s as usize)
            &&& w.ranks[e as int] >= v.ranks[e as int]
            &&& v.producers[s] is None ==> w.ranks == v.ranks
            &&& (w.subs[t].contains(x) <==> v.subs[t].contains(x) || (t == s && x == e))
            &&& x != e ==> w.deps[x as int] == v.deps[x as int] && w.ranks[x as int]
                == v.ranks[x as int]
            &&& w.pending == v.pending
            &&& w.stack == v.stack
        },
{
    if v.stack.len() > 0 {
        let e = v.stack.last();
        assert(v.stack[v.stack.len() - 1] < v.deps.len());
        lemma_pushed_contains(v.subs[s], e, e);
        lemma_pushed_contains(v.subs[s], e, x);
        if v.subs[s].contains(e) {
            assert(v.deps[e as int].contains(s as usize));
        } else {
            lemma_pushed_contains(v.deps[e as int], s as usize, s as usize);
        }
    }
}

/// A write leaves the waiting effects in their order and puts those that it wakes
/// behind them; the readers of other signals it does not touch.
pub proof fn law_woken_effects_wait_behind(v: RuntimeView, s: int, t: int)
    requires
        v.wf(),
        0 <= s < v.subs.len(),
        0 <= t < v.subs.len(),
        t != s,
    ensures
        v.notified(s).pending.len() >= v.pending.len(),
        v.notified(s).pending.take(v.pending.len() as int) == v.pending,
        v.notified(s).subs[t] == v.subs[t],
        v.notified(s).deps == v.deps,
        v.notified(s).alive == v.alive,
        v.notified(s).ranks == v.ranks,
{
    lemma_joined_behind(v.pending, living(v.subs[s], v.alive));
}

proof fn lemma_joined_behind(list: Seq<usize>, more: Seq<usize>)
    ensures
        joined(list, more).len() >= list.len(),
        joined(list, more).take(list.len() as int) == list,
    decreases more.len(),
{
    if more.len() > 0 {
        lemma_joined_behind(list, more.drop_last());
        let before = joined(list, more.drop_last());
        assert(before.push(more.last()).take(list.len() as int) =~= before.take(list.len() as int));
    } else {
        assert(list.take(list.len() as int) =~= list);
    }
}

/// A new signal has no readers and no label, a new effect reads nothing, has no
/// cleanups and the lowest rank, and neither changes what is there.
pub proof fn law_new_ones_begin_empty(v: RuntimeView, producer: Option<usize>, i: int)
    requires
        v.wf(),
    ensures
        ({
            let w = v.with_signal(producer);
            let n = v.subs.len() as int;
            &&& w.subs.len() == n + 1
            &&& w.subs[n].len() == 0
            &&& w.producers[n] == producer
            &&& w.labels[n] is None
            &&& 0 <= i < n ==> w.subs[i] == v.subs[i] && w.producers[i] == v.producers[i]
                && w.labels[i] == v.labels[i]
            &&& w.deps == v.deps && w.pending == v.pending && w.stack == v.stack
        }),
        ({
            let w = v.with_effect();
            let n = v.deps.len() as int;
            &&& w.deps.len() == n + 1
            &&& w.deps[n].len() == 0
            &&& w.cleanups[n].len() == 0
            &&& w.ranks[n] == 0
            &&& w.alive[n]
            &&& 0 <= i < n ==> w.deps[i] == v.deps[i] && w.cleanups[i] == v.cleanups[i]
                && w.ranks[i] == v.ranks[i] && w.alive[i] == v.alive[i]
            &&& w.subs == v.subs && w.pending == v.pending && w.stack == v.stack
        }),
{
}

/// An effect that was let go runs no more: no write wakes it and no pass has it. Of
/// the others none is touched.
pub proof fn law_released_effect_runs_no_more(v: RuntimeView, e: usize, s: int, x: usize)
    requires
        v.wf(),
        v.released(e as int).wf(),
        e < v.deps.len(),
        0 <= s < v.subs.len(),
        x < v.deps.len(),
        x != e,
    ensures
        !v.released(e as int).pass().contains(e),
        !v.pending.contains(e) ==> !v.released(e as int).notified(s).pending.contains(e),
        v.released(e as int).cleanups[e as int].len() == 0,
        v.released(e as int).cleanups[x as int] == v.cleanups[x as int],
        v.released(e as int).alive[x as int] == v.alive[x as int],
        v.released(e as int).notified(s).pending.contains(x) <==> v.notified(s).pending.contains(x),
{
    let w = v.released(e as int);
    law_pass_runs_each_waiting_effect_once(w, e);
    law_write_wakes_exactly_the_readers(w, s, e as int);
    law_write_wakes_exactly_the_readers(w, s, x as int);
    law_write_wakes_exactly_the_readers(v, s, x as int);
}

/// A cleanup is kept for the innermost running effect, behind its others, and for
/// no other effect; outside of every effect none is kept.
pub proof fn law_cleanup_is_kept_for_the_running_effect(v: RuntimeView, cleanup: u64, x: int)
    requires
        v.wf(),
        0 <= x < v.deps.len(),
    ensures
        v.stack.len() == 0 ==> v.with_cleanup(cleanup) == v,
        v.stack.len() > 0 ==> v.with_cleanup(cleanup).cleanups[v.stack.last() as int].last()
            == cleanup && v.with_cleanup(cleanup).cleanups[v.stack.last() as int].drop_last()
            == v.cleanups[v.stack.last() as int] && (x != v.stack.last() ==> v.with_cleanup(
            cleanup,
        ).cleanups[x] == v.cleanups[x]),
{
    if v.stack.len() > 0 {
        let e = v.stack.last() as int;
        assert(v.stack[v.stack.len() - 1] < v.deps.len());
        assert(v.cleanups[e].push(cleanup).drop_last() =~= v.cleanups[e]);
    }
}

/// A write of a labeled signal is counted once under its label, and nowhere else.
pub proof fn law_write_is_counted_under_its_label(
    v: RuntimeView,
    s: int,
    name: Seq<char>,
    other: Seq<char>,
)
    requires
        v.wf(),
        0 <= s < v.subs.len(),
        other != name,
        v.activity.contains_key(name) ==> v.activity[name] < u64::MAX,
    ensures
        ({
            let w = v.with_label(s, name).counted(s);
            &&& w.activity.contains_key(name)
            &&& w.activity[name] == if v.activity.contains_key(name) {
                v.activity[name] + 1
            } else {
                1
            }
            &&& w.activity.contains_key(other) == v.activity.contains_key(other)
            &&& v.activity.contains_key(other) ==> w.activity[other] == v.activity[other]
            &&& w.labels[s] == Some(name)
            &&& w.subs == v.subs
            &&& w.pending == v.pending
        }),
        v.labels[s] is None ==> v.counted(s) == v,
{
}

} // verus!
