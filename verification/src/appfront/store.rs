//! The state of an application in one place, with its history.

use std::rc::Rc;
use vstd::prelude::*;
use vstd::string::*;

use super::shared::share;
use super::signal::{create_effect, EffectHandle, Runtime, Signal};

verus! {

/// The states that were committed, and which of them is the present one.
#[verifier::ext_equal]
pub struct HistoryView<S> {
    pub past: Seq<Rc<S>>,
    pub cursor: int,
    pub limit: nat,
}

impl<S> HistoryView<S> {
    /// Whether there is a present state, and no more states than are kept.
    pub open spec fn wf(self) -> bool {
        0 <= self.cursor < self.past.len() <= self.limit
    }

    /// The present state.
    pub open spec fn present(self) -> Rc<S> {
        self.past[self.cursor]
    }

    pub open spec fn can_undo(self) -> bool {
        self.cursor > 0
    }

    pub open spec fn can_redo(self) -> bool {
        self.cursor + 1 < self.past.len()
    }

    /// The history after a commit: what was undone is gone, and of too many
    /// states the oldest.
    pub open spec fn committed(self, next: Rc<S>) -> HistoryView<S> {
        let all = self.past.take(self.cursor + 1).push(next);
        let kept = if all.len() > self.limit {
            all.drop_first()
        } else {
            all
        };
        HistoryView { past: kept, cursor: kept.len() - 1, limit: self.limit }
    }

    /// The history one step back.
    pub open spec fn undone(self) -> HistoryView<S> {
        if self.can_undo() {
            HistoryView { cursor: self.cursor - 1, ..self }
        } else {
            self
        }
    }

    /// The history one step forward.
    pub open spec fn redone(self) -> HistoryView<S> {
        if self.can_redo() {
            HistoryView { cursor: self.cursor + 1, ..self }
        } else {
            self
        }
    }
}

/// A commit makes its state the present one, and leaves nothing to redo.
pub proof fn law_commit_is_the_present<S>(h: HistoryView<S>, next: Rc<S>)
    requires
        h.wf(),
    ensures
        h.committed(next).wf(),
        h.committed(next).present() == next,
        !h.committed(next).can_redo(),
{
}

/// Going back from a commit gives back the state before it, where more than
/// one state is kept.
pub proof fn law_undo_gives_back_the_state_before<S>(h: HistoryView<S>, next: Rc<S>)
    requires
        h.wf(),
        h.limit >= 2,
    ensures
        h.committed(next).can_undo(),
        h.committed(next).undone().present() == h.present(),
{
}

/// Going back and forward again changes nothing.
pub proof fn law_redo_takes_back_an_undo<S>(h: HistoryView<S>)
    requires
        h.wf(),
        h.can_undo(),
    ensures
        h.undone().wf(),
        h.undone().can_redo(),
        h.undone().redone() == h,
{
}

/// The states that were committed.
pub struct HistoryBuf<S> {
    past: Vec<Rc<S>>,
    cursor: usize,
    limit: usize,
}

impl<S> View for HistoryBuf<S> {
    type V = HistoryView<S>;

    closed spec fn view(&self) -> HistoryView<S> {
        HistoryView { past: self.past@, cursor: self.cursor as int, limit: self.limit as nat }
    }
}

/// A store, as a mathematical value.
#[verifier::ext_equal]
pub struct StoreView<S> {
    pub state: Rc<S>,
    pub signal: usize,
    pub history: Option<HistoryView<S>>,
    pub subscribers: Seq<u64>,
    pub next: u64,
    pub persistent: bool,
}

impl<S> StoreView<S> {
    pub open spec fn wf(self) -> bool {
        &&& self.history matches Some(h) ==> h.wf()
        &&& self.in_line()
    }

    /// Whether the subscribers stand in the order in which they came.
    pub open spec fn in_line(self) -> bool {
        &&& forall|i: int|
            0 <= i < self.subscribers.len() ==> (#[trigger] self.subscribers[i]) < self.next
        &&& ascending(self.subscribers)
    }

    /// The store after a commit.
    pub open spec fn committed(self, next: Rc<S>) -> StoreView<S> {
        StoreView {
            state: next,
            history: match self.history {
                Some(h) => Some(h.committed(next)),
                None => None,
            },
            ..self
        }
    }

    /// The store one state back, where there is one.
    pub open spec fn undone(self) -> StoreView<S> {
        if self.can_undo() {
            StoreView {
                state: self.history->0.undone().present(),
                history: Some(self.history->0.undone()),
                ..self
            }
        } else {
            self
        }
    }

    /// The store one state forward, where there is one.
    pub open spec fn redone(self) -> StoreView<S> {
        if self.can_redo() {
            StoreView {
                state: self.history->0.redone().present(),
                history: Some(self.history->0.redone()),
                ..self
            }
        } else {
            self
        }
    }

    /// The store with one more subscriber.
    pub open spec fn subscribed(self) -> StoreView<S> {
        StoreView {
            subscribers: self.subscribers.push(self.next),
            next: (self.next + 1) as u64,
            ..self
        }
    }

    /// The store without a subscriber.
    pub open spec fn unsubscribed(self, id: u64) -> StoreView<S> {
        StoreView { subscribers: without(self.subscribers, id), ..self }
    }

    /// Whether there is a state to go back to.
    pub open spec fn can_undo(self) -> bool {
        self.history matches Some(h) && h.can_undo()
    }

    /// Whether there is a state to go forward to.
    pub open spec fn can_redo(self) -> bool {
        self.history matches Some(h) && h.can_redo()
    }
}

/// The state of an application.
pub struct Store<S> {
    state: Signal<Rc<S>>,
    history: Option<HistoryBuf<S>>,
    subscribers: Vec<u64>,
    next: u64,
    persistent: bool,
}

impl<S> View for Store<S> {
    type V = StoreView<S>;

    closed spec fn view(&self) -> StoreView<S> {
        StoreView {
            state: self.state.value,
            signal: self.state.id,
            history: match self.history {
                Some(h) => Some(h@),
                None => None,
            },
            subscribers: self.subscribers@,
            next: self.next,
            persistent: self.persistent,
        }
    }
}

/// A place where the state of a store is kept.
pub trait Persistence<S> {
    /// The state that is kept there, if one can be read.
    fn load(&self) -> (state: Option<S>);

    /// Keeps a state.
    fn save(&self, state: &S);
}

/// Whether `after` is `before`, bound to a place where its state is kept, with
/// what was restored from it.
pub open spec fn restored_to<S>(
    before: StoreView<S>,
    restored: Option<S>,
    after: StoreView<S>,
) -> bool {
    after == (StoreView {
        state: match restored {
            Some(s) => Rc::new(s),
            None => before.state,
        },
        persistent: true,
        ..before
    })
}

/// Whoever holds this is told of every commit.
pub struct StoreSubscription {
    pub id: u64,
}

/// What is left to do after a commit: whom to tell of which state, and whether
/// to save it.
pub struct Notice<S> {
    pub state: Rc<S>,
    pub subscribers: Vec<u64>,
    pub save: bool,
}

/// Whether each number of a list is above those before it.
pub open spec fn ascending(list: Seq<u64>) -> bool {
    forall|i: int, j: int| 0 <= i < j < list.len() ==> (#[trigger] list[i]) < (#[trigger] list[j])
}

impl<S> View for Notice<S> {
    type V = NoticeView<S>;

    open spec fn view(&self) -> NoticeView<S> {
        NoticeView { state: self.state, told: self.subscribers@, save: self.save }
    }
}

/// A notice, as a mathematical value.
pub struct NoticeView<S> {
    pub state: Rc<S>,
    pub told: Seq<u64>,
    pub save: bool,
}

/// A list without one number.
pub open spec fn without(list: Seq<u64>, id: u64) -> Seq<u64>
    decreases list.len(),
{
    if list.len() == 0 {
        list
    } else if list.last() == id {
        without(list.drop_last(), id)
    } else {
        without(list.drop_last(), id).push(list.last())
    }
}

/// What is left of an ascending list ascends, and was in the list.
proof fn lemma_without(list: Seq<u64>, id: u64)
    requires
        ascending(list),
    ensures
        ascending(without(list, id)),
        forall|i: int| 0 <= i < without(list, id).len() ==> list.contains(
            #[trigger] without(list, id)[i],
        ),
    decreases list.len(),
{
    if list.len() > 0 {
        let head = list.drop_last();
        let w = without(head, id);
        assert(ascending(head));
        lemma_without(head, id);
        let all = without(list, id);
        assert forall|i: int| 0 <= i < all.len() implies list.contains(#[trigger] all[i]) && (i
            < w.len() ==> all[i] < list.last()) by {
            if i < w.len() {
                assert(head.contains(w[i]));
                let k = choose|k: int| 0 <= k < head.len() && head[k] == w[i];
                assert(list[k] == all[i]);
                assert(list[k] < list[list.len() - 1]);
            } else {
                assert(list[list.len() - 1] == all[i]);
            }
        }
        assert forall|i: int, j: int| 0 <= i < j < all.len() implies (#[trigger] all[i]) < (
        #[trigger] all[j]) by {
            if j < w.len() {
                assert(w[i] < w[j]);
            }
        }
    }
}

proof fn lemma_without_one(list: Seq<u64>, id: u64, x: u64)
    ensures
        without(list, id).contains(x) <==> list.contains(x) && x != id,
    decreases list.len(),
{
    if list.len() > 0 {
        let head = list.drop_last();
        let w = without(head, id);
        lemma_without_one(head, id, x);
        assert(list =~= head.push(list.last()));
        lemma_contains_push(head, list.last(), x);
        lemma_contains_push(w, list.last(), x);
    }
}

proof fn lemma_contains_push(list: Seq<u64>, y: u64, x: u64)
    ensures
        list.push(y).contains(x) <==> list.contains(x) || x == y,
{
    if list.contains(x) {
        let i = choose|i: int| 0 <= i < list.len() && list[i] == x;
        assert(list.push(y)[i] == x);
    }
    assert(list.push(y)[list.len() as int] == y);
}

/// What can be done with a store.
pub enum StoreStep<S> {
    Commit(Rc<S>),
    Undo,
    Redo,
    Subscribe,
    Unsubscribe(u64),
}

impl<S> StoreView<S> {
    /// The store after one step.
    pub open spec fn after(self, step: StoreStep<S>) -> StoreView<S> {
        match step {
            StoreStep::Commit(next) => self.committed(next),
            StoreStep::Undo => self.undone(),
            StoreStep::Redo => self.redone(),
            StoreStep::Subscribe => self.subscribed(),
            StoreStep::Unsubscribe(id) => self.unsubscribed(id),
        }
    }

    /// The store after several steps.
    pub open spec fn after_all(self, steps: Seq<StoreStep<S>>) -> StoreView<S>
        decreases steps.len(),
    {
        if steps.len() == 0 {
            self
        } else {
            self.after_all(steps.drop_last()).after(steps.last())
        }
    }

    /// What the store has told of its state.
    pub open spec fn noticed(self) -> NoticeView<S> {
        NoticeView { state: self.state, told: self.subscribers, save: self.persistent }
    }

    /// Whether a step makes another state the state.
    pub open spec fn changes(self, step: StoreStep<S>) -> bool {
        match step {
            StoreStep::Commit(_) => true,
            StoreStep::Undo => self.can_undo(),
            StoreStep::Redo => self.can_redo(),
            _ => false,
        }
    }

    /// The notices of several steps: one after each that changes the state.
    pub open spec fn notices(self, steps: Seq<StoreStep<S>>) -> Seq<NoticeView<S>>
        decreases steps.len(),
    {
        if steps.len() == 0 {
            Seq::empty()
        } else {
            let before = self.after_all(steps.drop_last());
            let given = self.notices(steps.drop_last());
            if before.changes(steps.last()) {
                given.push(before.after(steps.last()).noticed())
            } else {
                given
            }
        }
    }
}

/// Whoever subscribed is among those to be told after every later step, until
/// it leaves, and a store that was bound to a place is saved after every later
/// step.
pub proof fn law_subscriber_is_told_until_it_leaves<S>(
    v: StoreView<S>,
    id: u64,
    steps: Seq<StoreStep<S>>,
)
    requires
        forall|i: int|
            0 <= i < steps.len() ==> (#[trigger] steps[i]) != StoreStep::<S>::Unsubscribe(id),
    ensures
        v.subscribers.contains(id) ==> v.after_all(steps).subscribers.contains(id),
        v.after_all(steps).persistent == v.persistent,
    decreases steps.len(),
{
    if steps.len() > 0 {
        let head = steps.drop_last();
        assert forall|i: int| 0 <= i < head.len() implies (#[trigger] head[i]) != StoreStep::<
            S,
        >::Unsubscribe(id) by {
            assert(head[i] == steps[i]);
        }
        law_subscriber_is_told_until_it_leaves(v, id, head);
        let now = v.after_all(head);
        assert(steps.last() == steps[steps.len() - 1]);
        match steps.last() {
            StoreStep::Subscribe => lemma_contains_push(now.subscribers, now.next, id),
            StoreStep::Unsubscribe(other) => lemma_without_one(now.subscribers, other, id),
            _ => {},
        }
    }
}

/// Who subscribes is told from then on, and who leaves no longer.
pub proof fn law_subscriber_comes_and_goes<S>(v: StoreView<S>, id: u64)
    ensures
        v.subscribed().subscribers.contains(v.next),
        !v.unsubscribed(id).subscribers.contains(id),
{
    lemma_contains_push(v.subscribers, v.next, v.next);
    lemma_without_one(v.subscribers, id, id);
}

/// Subscribers stay in the order in which they came.
proof fn lemma_in_line<S>(v: StoreView<S>, steps: Seq<StoreStep<S>>)
    requires
        v.in_line(),
        v.next + steps.len() <= u64::MAX,
    ensures
        v.after_all(steps).in_line(),
        v.next <= v.after_all(steps).next <= v.next + steps.len(),
    decreases steps.len(),
{
    if steps.len() > 0 {
        let before = v.after_all(steps.drop_last());
        lemma_in_line(v, steps.drop_last());
        if let StoreStep::Unsubscribe(id) = steps.last() {
            let left = before.unsubscribed(id).subscribers;
            lemma_without(before.subscribers, id);
            assert forall|i: int| 0 <= i < left.len() implies (#[trigger] left[i])
                < before.next by {
                assert(before.subscribers.contains(left[i]));
            }
        }
    }
}

/// Every change of a store that is bound to a place is saved, once, with the
/// state that it made: what was saved last is the state.
pub proof fn law_every_change_is_saved_once<S>(v: StoreView<S>, steps: Seq<StoreStep<S>>)
    requires
        v.persistent,
    ensures
        forall|i: int| 0 <= i < v.notices(steps).len() ==> (#[trigger] v.notices(steps)[i]).save,
        v.after_all(steps).persistent,
        v.after_all(steps).state == (if v.notices(steps).len() > 0 {
            v.notices(steps).last().state
        } else {
            v.state
        }),
    decreases steps.len(),
{
    if steps.len() > 0 {
        law_every_change_is_saved_once(v, steps.drop_last());
    }
}

/// Whoever subscribed is told of every later change, once each, until it leaves,
/// and all are told in the order in which they came.
pub proof fn law_subscriber_is_told_of_every_change<S>(
    v: StoreView<S>,
    id: u64,
    steps: Seq<StoreStep<S>>,
)
    requires
        v.wf(),
        v.next + steps.len() <= u64::MAX,
        v.subscribers.contains(id),
        forall|i: int|
            0 <= i < steps.len() ==> (#[trigger] steps[i]) != StoreStep::<S>::Unsubscribe(id),
    ensures
        forall|i: int|
            0 <= i < v.notices(steps).len() ==> (#[trigger] v.notices(steps)[i]).told.contains(id)
                && ascending(v.notices(steps)[i].told),
    decreases steps.len(),
{
    if steps.len() > 0 {
        let head = steps.drop_last();
        assert forall|i: int| 0 <= i < head.len() implies (#[trigger] head[i]) != StoreStep::<
            S,
        >::Unsubscribe(id) by {
            assert(head[i] == steps[i]);
        }
        law_subscriber_is_told_of_every_change(v, id, head);
        law_subscriber_is_told_until_it_leaves(v, id, steps);
        lemma_in_line(v, steps);
        let given = v.notices(head);
        let all = v.notices(steps);
        assert forall|i: int| 0 <= i < all.len() implies (#[trigger] all[i]).told.contains(id)
            && ascending(all[i].told) by {
            if i < given.len() {
                assert(all[i] == given[i]);
            } else {
                assert(all[i] == v.after_all(steps).noticed());
            }
        }
    }
}

/// Whoever left is told of no later change.
pub proof fn law_who_left_is_told_no_more<S>(v: StoreView<S>, id: u64, steps: Seq<StoreStep<S>>)
    requires
        v.wf(),
        v.next + steps.len() <= u64::MAX,
        id < v.next,
    ensures
        ({
            let left = v.unsubscribed(id);
            &&& !left.after_all(steps).subscribers.contains(id)
            &&& forall|i: int|
                0 <= i < left.notices(steps).len() ==> !(#[trigger] left.notices(
                    steps,
                )[i]).told.contains(id)
        }),
    decreases steps.len(),
{
    let left = v.unsubscribed(id);
    lemma_without_one(v.subscribers, id, id);
    if steps.len() > 0 {
        let before = left.after_all(steps.drop_last());
        law_who_left_is_told_no_more(v, id, steps.drop_last());
        lemma_without(v.subscribers, id);
        assert forall|i: int| 0 <= i < left.subscribers.len() implies (#[trigger] left.subscribers[i])
            < left.next by {
            assert(v.subscribers.contains(left.subscribers[i]));
        }
        lemma_in_line(left, steps.drop_last());
        match steps.last() {
            StoreStep::Subscribe => lemma_contains_push(before.subscribers, before.next, id),
            StoreStep::Unsubscribe(other) => lemma_without_one(before.subscribers, other, id),
            _ => {},
        }
        let given = left.notices(steps.drop_last());
        let all = left.notices(steps);
        assert(!left.after_all(steps).subscribers.contains(id));
        assert forall|i: int| 0 <= i < all.len() implies !(#[trigger] all[i]).told.contains(id) by {
            if i < given.len() {
                assert(all[i] == given[i]);
            } else {
                assert(all[i] == left.after_all(steps).noticed());
            }
        }
    }
}

impl<S> Store<S> {
    /// Whether the store is sound and one of the runtime's.
    pub open spec fn of(&self, rt: Runtime) -> bool {
        &&& self@.wf()
        &&& rt.wf()
        &&& self@.signal < rt@.subs.len()
    }

    /// Whether the store can be read.
    pub open spec fn readable(&self, rt: Runtime) -> bool {
        &&& self.of(rt)
        &&& rt@.stack.len() > 0 ==> rt@.rank_over(self@.signal as int) <= u32::MAX
    }

    /// A store that holds `initial`.
    pub fn new(rt: &mut Runtime, initial: S) -> (s: Store<S>)
        requires
            old(rt).wf(),
            old(rt)@.subs.len() < usize::MAX,
        ensures
            s.of(*final(rt)),
            s@ == (StoreView {
                state: Rc::new(initial),
                signal: old(rt)@.subs.len() as usize,
                history: None,
                subscribers: Seq::empty(),
                next: 0,
                persistent: false,
            }),
            final(rt)@ == old(rt)@.with_signal(None),
    {
        Store {
            state: Signal::new(rt, Rc::new(initial)),
            history: None,
            subscribers: Vec::new(),
            next: 0,
            persistent: false,
        }
    }

    /// The store with a history of up to `limit` states, at least one.
    pub fn with_time_travel(self, rt: &mut Runtime, limit: usize) -> (s: Store<S>)
        requires
            self.readable(*old(rt)),
        ensures
            s.of(*final(rt)),
            s@ == (StoreView {
                history: Some(
                    HistoryView {
                        past: seq![self@.state],
                        cursor: 0,
                        limit: if limit == 0 {
                            1
                        } else {
                            limit as nat
                        },
                    },
                ),
                ..self@
            }),
            final(rt)@ == old(rt)@.after_read(self@.signal as int),
    {
        let mut s = self;
        let initial = share(s.state.with(rt));
        let mut past: Vec<Rc<S>> = Vec::new();
        past.push(initial);
        let kept: usize = if limit == 0 {
            1
        } else {
            limit
        };
        s.history = Some(HistoryBuf { past, cursor: 0, limit: kept });
        assert(s@.history->0.past =~= seq![self@.state]);
        s
    }

    /// The store bound to a place where its state is saved, with the state that
    /// was restored from it. Whether effects have to be run at once.
    pub fn with_persistence(self, rt: &mut Runtime, restored: Option<S>) -> (r: (Store<S>, bool))
        requires
            self.of(*old(rt)),
        ensures
            r.0.of(*final(rt)),
            restored_to(self@, restored, r.0@),
            match restored {
                Some(_) => r.1 == (old(rt)@.depth == 0) && final(rt)@ == old(rt)@.notified(
                    self@.signal as int,
                ),
                None => !r.1 && final(rt)@ == old(rt)@,
            },
    {
        let mut s = self;
        s.persistent = true;
        match restored {
            Some(state) => {
                let now = s.state.set(rt, Rc::new(state));
                (s, now)
            },
            None => (s, false),
        }
    }

    /// The store bound to a place where its state is saved, with what is loaded
    /// from there. Whether effects have to be run at once.
    pub fn with_backend<P: Persistence<S>>(self, rt: &mut Runtime, backend: &P) -> (r: (
        Store<S>,
        bool,
    ))
        requires
            self.of(*old(rt)),
        ensures
            r.0.of(*final(rt)),
            exists|restored: Option<S>| #[trigger]
                call_ensures(P::load, (backend,), restored) && restored_to(
                    self@,
                    restored,
                    r.0@,
                ) && match restored {
                    Some(_) => r.1 == (old(rt)@.depth == 0) && final(rt)@ == old(rt)@.notified(
                        self@.signal as int,
                    ),
                    None => !r.1 && final(rt)@ == old(rt)@,
                },
    {
        let restored = backend.load();
        let r = self.with_persistence(rt, restored);
        assert(restored_to(self@, restored, r.0@));
        r
    }

    /// The signal that holds the state.
    pub fn signal(&self) -> (s: &Signal<Rc<S>>)
        ensures
            s.id == self@.signal,
            s.value == self@.state,
    {
        &self.state
    }

    /// Reads the state.
    pub fn get(&self, rt: &mut Runtime) -> (s: Rc<S>)
        requires
            self.readable(*old(rt)),
        ensures
            final(rt).wf(),
            s == self@.state,
            final(rt)@ == old(rt)@.after_read(self@.signal as int),
    {
        share(self.state.with(rt))
    }

    fn commit(&mut self, rt: &mut Runtime, next: S) -> (now: bool)
        requires
            old(self).of(*old(rt)),
        ensures
            final(self).of(*final(rt)),
            final(self)@ == old(self)@.committed(Rc::new(next)),
            final(rt)@ == old(rt)@.notified(old(self)@.signal as int),
            now == (old(rt)@.depth == 0),
    {
        let state = Rc::new(next);
        let ghost before = self@;
        let mut history: Option<HistoryBuf<S>> = None;
        std::mem::swap(&mut history, &mut self.history);
        match history {
            Some(mut h) => {
                let ghost v = h@;
                h.past.truncate(h.cursor + 1);
                h.past.push(share(&state));
                if h.past.len() > h.limit {
                    let _ = h.past.remove(0);
                }
                h.cursor = h.past.len() - 1;
                proof {
                    assert(h@.past =~= v.committed(state).past);
                }
                self.history = Some(h);
            },
            None => {},
        }
        let now = self.state.set(rt, state);
        assert(self@ =~= before.committed(state));
        now
    }

    /// Makes `next` the state. Whether the effects that it wakes have to be run
    /// at once; when they have run, call `notice`.
    pub fn set(&mut self, rt: &mut Runtime, next: S) -> (now: bool)
        requires
            old(self).of(*old(rt)),
        ensures
            final(self).of(*final(rt)),
            final(self)@ == old(self)@.committed(Rc::new(next)),
            final(rt)@ == old(rt)@.notified(old(self)@.signal as int),
            now == (old(rt)@.depth == 0),
    {
        self.commit(rt, next)
    }

    /// Makes what `f` makes of the state the state.
    pub fn update<F: FnOnce(&S) -> S>(&mut self, rt: &mut Runtime, f: F) -> (now: bool)
        requires
            old(self).readable(*old(rt)),
            call_requires(f, (&*old(self)@.state,)),
        ensures
            final(self).of(*final(rt)),
            exists|next: S|
                call_ensures(f, (&*old(self)@.state,), next) && final(self)@ == #[trigger] old(
                    self,
                )@.committed(Rc::new(next)),
            final(rt)@ == old(rt)@.after_read(old(self)@.signal as int).notified(
                old(self)@.signal as int,
            ),
            now == (old(rt)@.depth == 0),
    {
        let current = share(self.state.with(rt));
        let next = f(&*current);
        self.commit(rt, next)
    }

    /// What is left to do after a commit and the effects that it woke.
    pub fn notice(&self, rt: &mut Runtime) -> (n: Notice<S>)
        requires
            self.readable(*old(rt)),
        ensures
            final(rt).wf(),
            n.state == self@.state,
            n.subscribers@ == self@.subscribers,
            n.save == self@.persistent,
            n@ == self@.noticed(),
            final(rt)@ == old(rt)@.after_read(self@.signal as int),
    {
        let state = share(self.state.with(rt));
        let mut subscribers: Vec<u64> = Vec::new();
        let mut i: usize = 0;
        while i < self.subscribers.len()
            invariant
                i <= self.subscribers@.len(),
                subscribers@ == self.subscribers@.take(i as int),
            decreases self.subscribers@.len() - i,
        {
            subscribers.push(self.subscribers[i]);
            i += 1;
            assert(self.subscribers@.take(i as int) =~= self.subscribers@.take(i - 1).push(
                self.subscribers@[i - 1],
            ));
        }
        assert(self.subscribers@.take(self.subscribers@.len() as int) =~= self.subscribers@);
        Notice { state, subscribers, save: self.persistent }
    }

    /// Tells someone of every commit from now on.
    pub fn subscribe(&mut self) -> (sub: StoreSubscription)
        requires
            old(self)@.wf(),
            old(self)@.next < u64::MAX,
        ensures
            final(self)@.wf(),
            sub.id == old(self)@.next,
            final(self)@ == old(self)@.subscribed(),
    {
        let id: u64 = self.next;
        self.subscribers.push(id);
        self.next = self.next + 1;
        StoreSubscription { id }
    }

    /// Ends a subscription.
    pub fn unsubscribe(&mut self, sub: StoreSubscription)
        requires
            old(self)@.wf(),
        ensures
            final(self)@.wf(),
            final(self)@ == old(self)@.unsubscribed(sub.id),
    {
        let ghost all = self.subscribers@;
        let mut kept: Vec<u64> = Vec::new();
        let mut i: usize = 0;
        assert(all.take(0) =~= Seq::<u64>::empty());
        while i < self.subscribers.len()
            invariant
                *self == *old(self),
                all == self.subscribers@,
                i <= all.len(),
                kept@ == without(all.take(i as int), sub.id),
            decreases all.len() - i,
        {
            assert(all.take(i + 1).drop_last() =~= all.take(i as int));
            if self.subscribers[i] != sub.id {
                kept.push(self.subscribers[i]);
            }
            i += 1;
        }
        assert(all.take(all.len() as int) =~= all);
        proof {
            lemma_without(all, sub.id);
            assert forall|k: int| 0 <= k < kept@.len() implies (#[trigger] kept@[k])
                < self.next by {
                assert(all.contains(kept@[k]));
                let j = choose|j: int| 0 <= j < all.len() && all[j] == kept@[k];
                assert(old(self)@.subscribers[j] < old(self)@.next);
            }
        }
        self.subscribers = kept;
    }

    /// Whether there is a state to go back to.
    pub fn can_undo(&self) -> (r: bool)
        ensures
            r == self@.can_undo(),
    {
        match &self.history {
            Some(h) => h.cursor > 0,
            None => false,
        }
    }

    /// Whether there is a state to go forward to.
    pub fn can_redo(&self) -> (r: bool)
        requires
            self@.wf(),
        ensures
            r == self@.can_redo(),
    {
        match &self.history {
            Some(h) => h.cursor + 1 < h.past.len(),
            None => false,
        }
    }

    /// Goes back to the state before. `None` where there is none, else whether
    /// effects have to be run at once.
    pub fn undo(&mut self, rt: &mut Runtime) -> (r: Option<bool>)
        requires
            old(self).of(*old(rt)),
        ensures
            final(self).of(*final(rt)),
            final(self)@ == old(self)@.undone(),
            if old(self)@.can_undo() {
                &&& r == Some(old(rt)@.depth == 0)
                &&& final(rt)@ == old(rt)@.notified(old(self)@.signal as int)
            } else {
                r is None && final(rt)@ == old(rt)@
            },
    {
        let mut history: Option<HistoryBuf<S>> = None;
        std::mem::swap(&mut history, &mut self.history);
        match history {
            Some(mut h) => {
                if h.cursor > 0 {
                    h.cursor = h.cursor - 1;
                    let state = share(&h.past[h.cursor]);
                    self.history = Some(h);
                    let now = self.state.set(rt, state);
                    Some(now)
                } else {
                    self.history = Some(h);
                    None
                }
            },
            None => None,
        }
    }

    /// Goes forward to the state that was undone. `None` where there is none,
    /// else whether effects have to be run at once.
    pub fn redo(&mut self, rt: &mut Runtime) -> (r: Option<bool>)
        requires
            old(self).of(*old(rt)),
        ensures
            final(self).of(*final(rt)),
            final(self)@ == old(self)@.redone(),
            if old(self)@.can_redo() {
                &&& r == Some(old(rt)@.depth == 0)
                &&& final(rt)@ == old(rt)@.notified(old(self)@.signal as int)
            } else {
                r is None && final(rt)@ == old(rt)@
            },
    {
        let mut history: Option<HistoryBuf<S>> = None;
        std::mem::swap(&mut history, &mut self.history);
        match history {
            Some(mut h) => {
                if h.cursor + 1 < h.past.len() {
                    h.cursor = h.cursor + 1;
                    let state = share(&h.past[h.cursor]);
                    self.history = Some(h);
                    let now = self.state.set(rt, state);
                    Some(now)
                } else {
                    self.history = Some(h);
                    None
                }
            },
            None => None,
        }
    }

    /// The state to save right now, where the store is bound to a place.
    pub fn persist_now(&self, rt: &mut Runtime) -> (r: Option<Rc<S>>)
        requires
            self.readable(*old(rt)),
        ensures
            final(rt).wf(),
            if self@.persistent {
                &&& r == Some(self@.state)
                &&& final(rt)@ == old(rt)@.after_read(self@.signal as int)
            } else {
                r is None && final(rt)@ == old(rt)@
            },
    {
        if self.persistent {
            Some(share(self.state.with(rt)))
        } else {
            None
        }
    }
}

/// Counts the writes of a store under a name. The effect that is returned has
/// to read the store's signal when it runs.
pub fn instrument_store<S>(store: &Store<S>, rt: &mut Runtime, label: &str) -> (h: EffectHandle)
    requires
        store.of(*old(rt)),
        old(rt)@.deps.len() < usize::MAX,
    ensures
        store.of(*final(rt)),
        h.id == old(rt)@.deps.len(),
        final(rt)@ == old(rt)@.with_label(store@.signal as int, label@).with_effect(),
{
    rt.set_label(store.state.id, label);
    create_effect(rt)
}

/// A commit keeps the states up to the present, newest first as many as the limit
/// allows, and drops those that could have been redone.
pub proof fn law_commit_keeps_the_newest_states<S>(h: HistoryView<S>, next: Rc<S>, back: int)
    requires
        h.wf(),
    ensures
        ({
            let c = h.committed(next);
            let n = c.past.len() as int;
            &&& n == if h.cursor + 2 <= h.limit {
                h.cursor + 2
            } else {
                h.limit as int
            }
            &&& 1 <= back < n ==> c.past[n - 1 - back] == h.past[h.cursor + 1 - back]
            &&& c.limit == h.limit
        }),
{
}

/// Undoing takes one step back and redoing one step on; neither changes the states
/// that are kept.
pub proof fn law_undo_and_redo_take_one_step<S>(h: HistoryView<S>)
    requires
        h.wf(),
    ensures
        h.cursor > 0 ==> h.undone().present() == h.past[h.cursor - 1],
        h.cursor == 0 ==> h.undone() == h,
        h.cursor + 1 < h.past.len() ==> h.redone().present() == h.past[h.cursor + 1],
        h.cursor + 1 == h.past.len() ==> h.redone() == h,
        h.undone().past == h.past,
        h.redone().past == h.past,
        h.undone().limit == h.limit,
        h.redone().limit == h.limit,
{
}

/// A subscriber that leaves takes no other along, and one that comes is put behind
/// the others under a number of its own.
pub proof fn law_subscribers_do_not_disturb_each_other<S>(v: StoreView<S>, id: u64, x: u64)
    requires
        v.wf(),
        x != id,
    ensures
        v.unsubscribed(id).subscribers.contains(x) <==> v.subscribers.contains(x),
        v.subscribed().subscribers.drop_last() == v.subscribers,
        !v.subscribers.contains(v.subscribed().subscribers.last()),
        v.unsubscribed(id).state == v.state,
        v.subscribed().state == v.state,
        v.unsubscribed(id).history == v.history,
        v.subscribed().history == v.history,
{
    lemma_others_remain(v.subscribers, id, x);
    assert(v.subscribers.push(v.next).drop_last() =~= v.subscribers);
}

proof fn lemma_others_remain(list: Seq<u64>, id: u64, x: u64)
    requires
        x != id,
    ensures
        without(list, id).contains(x) <==> list.contains(x),
    decreases list.len(),
{
    if list.len() > 0 {
        let head = list.drop_last();
        lemma_others_remain(head, id, x);
        assert(list =~= head.push(list.last()));
        lemma_behind_contains(head, list.last(), x);
        lemma_behind_contains(without(head, id), list.last(), x);
    }
}

proof fn lemma_behind_contains(a: Seq<u64>, y: u64, x: u64)
    ensures
        a.push(y).contains(x) <==> a.contains(x) || y == x,
{
    if a.contains(x) {
        let k = choose|k: int| 0 <= k < a.len() && a[k] == x;
        assert(a.push(y)[k] == x);
    }
    assert(a.push(y)[a.len() as int] == y);
}

/// What is restored becomes the state; where nothing was kept the state stays.
pub proof fn law_restored_state_is_shown<S>(
    before: StoreView<S>,
    restored: Option<S>,
    after: StoreView<S>,
)
    requires
        restored_to(before, restored, after),
    ensures
        restored matches Some(s) ==> *after.state == s,
        restored is None ==> after.state == before.state,
        after.noticed().save,
        after.subscribers == before.subscribers,
        after.history == before.history,
{
}

} // verus!
