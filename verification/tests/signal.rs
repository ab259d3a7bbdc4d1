//! Signals, effects, memos and stores, driven as a program drives them.

use std::cell::{Cell, RefCell};
use std::rc::Rc;

use tpt_core::appfront::signal;
use tpt_core::appfront::signal::{EffectHandle, Runtime, Signal};
use tpt_core::appfront::store::{instrument_store, Persistence, Store};
use tpt_core::appfront::ui_tree::{NodeKind, UITree};
use tpt_core::json::Json;
use tpt_core::strmap::StrMap;

type Body = Rc<RefCell<Box<dyn FnMut()>>>;

struct Inner {
    rt: RefCell<Runtime>,
    bodies: RefCell<Vec<Body>>,
    cleanups: RefCell<Vec<Option<Box<dyn FnOnce()>>>>,
}

#[derive(Clone)]
struct App(Rc<Inner>);

struct Sig<T> {
    app: App,
    inner: Rc<RefCell<Signal<T>>>,
}

impl<T> Clone for Sig<T> {
    fn clone(&self) -> Self {
        Sig { app: self.app.clone(), inner: self.inner.clone() }
    }
}

struct Handle {
    app: App,
    handle: Option<EffectHandle>,
}

impl Drop for Handle {
    fn drop(&mut self) {
        if let Some(h) = self.handle.take() {
            let ids = h.release(&mut self.app.0.rt.borrow_mut());
            self.app.clean(ids);
        }
    }
}

impl App {
    fn new() -> App {
        App(Rc::new(Inner {
            rt: RefCell::new(Runtime::new()),
            bodies: RefCell::new(Vec::new()),
            cleanups: RefCell::new(Vec::new()),
        }))
    }

    fn signal<T>(&self, value: T) -> Sig<T> {
        let s = Signal::new(&mut self.0.rt.borrow_mut(), value);
        Sig { app: self.clone(), inner: Rc::new(RefCell::new(s)) }
    }

    fn clean(&self, ids: Vec<u64>) {
        for id in ids {
            let c = self.0.cleanups.borrow_mut()[id as usize].take();
            if let Some(c) = c {
                c();
            }
        }
    }

    fn on_cleanup(&self, f: impl FnOnce() + 'static) {
        let id = self.0.cleanups.borrow().len() as u64;
        if signal::on_cleanup(&mut self.0.rt.borrow_mut(), id) {
            self.0.cleanups.borrow_mut().push(Some(Box::new(f)));
        }
    }

    fn run(&self, e: usize) {
        let ids = self.0.rt.borrow_mut().start_run(e);
        self.clean(ids);
        self.0.rt.borrow_mut().enter(e);
        let body = self.0.bodies.borrow()[e].clone();
        (body.borrow_mut())();
        self.0.rt.borrow_mut().leave();
    }

    fn flush(&self) {
        loop {
            let pass = self.0.rt.borrow_mut().next_pass();
            if pass.is_empty() {
                break;
            }
            for e in pass {
                self.run(e);
            }
            self.0.rt.borrow_mut().end_pass();
        }
    }

    fn effect(&self, f: impl FnMut() + 'static) -> Handle {
        let handle = signal::create_effect(&mut self.0.rt.borrow_mut());
        let id = handle.id;
        self.0.bodies.borrow_mut().push(Rc::new(RefCell::new(Box::new(f))));
        self.run(id);
        Handle { app: self.clone(), handle: Some(handle) }
    }

    fn memo<T: Clone + PartialEq + 'static>(&self, compute: impl Fn() -> T + 'static) -> Sig<T> {
        let first: Rc<RefCell<Option<T>>> = Rc::new(RefCell::new(None));
        let made: Rc<RefCell<Option<Sig<T>>>> = Rc::new(RefCell::new(None));
        let (first2, made2) = (first.clone(), made.clone());
        let id = self.0.rt.borrow_mut().add_effect();
        self.0.bodies.borrow_mut().push(Rc::new(RefCell::new(Box::new(move || {
            let value = compute();
            match made2.borrow().as_ref() {
                Some(s) => s.set_if_changed(value),
                None => *first2.borrow_mut() = Some(value),
            }
        }))));
        self.run(id);
        let initial = first.borrow_mut().take().unwrap();
        let s = signal::create_memo(&mut self.0.rt.borrow_mut(), id, initial);
        let sig = Sig { app: self.clone(), inner: Rc::new(RefCell::new(s)) };
        *made.borrow_mut() = Some(sig.clone());
        sig
    }

    fn batch(&self, f: impl FnOnce()) {
        signal::batch(&mut self.0.rt.borrow_mut());
        f();
        let now = signal::end_batch(&mut self.0.rt.borrow_mut());
        if now {
            self.flush();
        }
    }

    fn hydrated(&self, name: &str, default: i32) -> Sig<i32> {
        let s = Signal::hydrated(&mut self.0.rt.borrow_mut(), name, default, |j| match j {
            Json::Number(n) => n.parse::<i32>().ok(),
            _ => None,
        });
        Sig { app: self.clone(), inner: Rc::new(RefCell::new(s)) }
    }
}

impl<T> Sig<T> {
    fn get(&self) -> T
    where
        T: Clone,
    {
        self.inner.borrow().get(&mut self.app.0.rt.borrow_mut())
    }

    fn with<R>(&self, f: impl FnOnce(&T) -> R) -> R {
        let s = self.inner.borrow();
        let value = s.with(&mut self.app.0.rt.borrow_mut());
        f(value)
    }

    fn set(&self, value: T) {
        let now = self.inner.borrow_mut().set(&mut self.app.0.rt.borrow_mut(), value);
        if now {
            self.app.flush();
        }
        self.inner.borrow().written(&mut self.app.0.rt.borrow_mut());
    }

    fn set_if_changed(&self, value: T)
    where
        T: PartialEq,
    {
        let r = self.inner.borrow_mut().set_if_changed(&mut self.app.0.rt.borrow_mut(), value);
        if r == Some(true) {
            self.app.flush();
        }
        if r.is_some() {
            self.inner.borrow().written(&mut self.app.0.rt.borrow_mut());
        }
    }
}

#[test]
fn get_returns_current_value() {
    let app = App::new();
    let s = app.signal(1);
    assert_eq!(s.get(), 1);
    s.set(2);
    assert_eq!(s.get(), 2);
}

#[test]
fn effect_reruns_only_for_signals_it_reads() {
    let app = App::new();
    let a = app.signal(1);
    let b = app.signal(10);

    let a_runs = Rc::new(Cell::new(0));
    let a_runs_clone = Rc::clone(&a_runs);
    let a_for_effect = a.clone();
    let _handle = app.effect(move || {
        a_for_effect.get();
        a_runs_clone.set(a_runs_clone.get() + 1);
    });
    assert_eq!(a_runs.get(), 1, "effect runs once immediately");

    b.set(20);
    assert_eq!(a_runs.get(), 1, "unrelated signal must not trigger rerun");

    a.set(2);
    assert_eq!(a_runs.get(), 2, "dependency update must trigger rerun");
}

#[test]
fn dropping_handle_stops_reruns() {
    let app = App::new();
    let a = app.signal(1);
    let runs = Rc::new(Cell::new(0));
    let runs_clone = Rc::clone(&runs);
    let a_for_effect = a.clone();
    let handle = app.effect(move || {
        a_for_effect.get();
        runs_clone.set(runs_clone.get() + 1);
    });

    drop(handle);
    a.set(2);
    assert_eq!(runs.get(), 1, "effect must not rerun after its handle is dropped");
}

#[test]
fn dependencies_can_change_between_runs() {
    let app = App::new();
    let cond = app.signal(true);
    let a = app.signal(1);
    let b = app.signal(100);

    let seen = Rc::new(RefCell::new(Vec::new()));
    let seen_clone = Rc::clone(&seen);
    let cond_e = cond.clone();
    let a_e = a.clone();
    let b_e = b.clone();
    let _handle = app.effect(move || {
        let value = if cond_e.get() { a_e.get() } else { b_e.get() };
        seen_clone.borrow_mut().push(value);
    });
    assert_eq!(*seen.borrow(), vec![1]);

    b.set(200);
    assert_eq!(*seen.borrow(), vec![1]);

    cond.set(false);
    assert_eq!(*seen.borrow(), vec![1, 200], "switching branches re-subscribes to b");

    a.set(2);
    assert_eq!(*seen.borrow(), vec![1, 200], "no longer depends on a after branch switch");

    b.set(300);
    assert_eq!(*seen.borrow(), vec![1, 200, 300]);
}

#[test]
fn hydrated_uses_hydration_state_when_available() {
    let app = App::new();
    let mut state = StrMap::new();
    state.insert("count".to_string(), Json::Number("42".to_string()));
    signal::set_hydration_state(&mut app.0.rt.borrow_mut(), state);

    let s = app.hydrated("count", 0);
    assert_eq!(s.get(), 42, "should pick up the server-side value");
    let s2 = app.hydrated("count", 0);
    assert_eq!(s2.get(), 42, "state is not consumed until it is taken");

    let taken = signal::take_hydration_state(&mut app.0.rt.borrow_mut());
    assert!(taken.is_some());
    let s3 = app.hydrated("count", 0);
    assert_eq!(s3.get(), 0, "hydration state was consumed by take");
}

#[test]
fn hydrated_falls_back_to_default_without_hydration_state() {
    let app = App::new();
    let s = app.hydrated("missing", 99);
    assert_eq!(s.get(), 99);
}

#[test]
fn with_reads_without_cloning_and_still_tracks() {
    let app = App::new();
    let s = app.signal(vec![1, 2, 3]);
    assert_eq!(s.with(|v| v.len()), 3);

    let runs = Rc::new(Cell::new(0));
    let runs_clone = Rc::clone(&runs);
    let s_for_effect = s.clone();
    let _handle = app.effect(move || {
        s_for_effect.with(|v| v.len());
        runs_clone.set(runs_clone.get() + 1);
    });
    assert_eq!(runs.get(), 1);

    s.set(vec![1, 2, 3, 4]);
    assert_eq!(runs.get(), 2, "with() must subscribe like get() does");
}

#[test]
fn memo_recomputes_only_when_dependency_changes() {
    let app = App::new();
    let a = app.signal(1);
    let b = app.signal(10);

    let computes = Rc::new(Cell::new(0));
    let computes_clone = Rc::clone(&computes);
    let a_for_memo = a.clone();
    let m = app.memo(move || {
        computes_clone.set(computes_clone.get() + 1);
        a_for_memo.get() * 2
    });
    assert_eq!(computes.get(), 1, "compute runs once on creation");
    assert_eq!(m.get(), 2);

    b.set(20);
    assert_eq!(computes.get(), 1, "unrelated signal must not trigger recompute");

    a.set(5);
    assert_eq!(computes.get(), 2, "dependency update must trigger recompute");
    assert_eq!(m.get(), 10);
}

#[test]
fn memo_skips_notify_when_value_unchanged() {
    let app = App::new();
    let a = app.signal(1i32);
    let a_for_memo = a.clone();
    let m = app.memo(move || a_for_memo.get().abs());

    let downstream_runs = Rc::new(Cell::new(0));
    let downstream_runs_clone = Rc::clone(&downstream_runs);
    let m_for_effect = m.clone();
    let _handle = app.effect(move || {
        m_for_effect.get();
        downstream_runs_clone.set(downstream_runs_clone.get() + 1);
    });
    assert_eq!(downstream_runs.get(), 1, "effect runs once immediately");

    a.set(-1);
    assert_eq!(
        downstream_runs.get(),
        1,
        "memo's abs() value is unchanged (1 -> 1), downstream must not rerun"
    );

    a.set(-2);
    assert_eq!(
        downstream_runs.get(),
        2,
        "memo's value actually changed (1 -> 2), downstream must rerun"
    );
}

#[test]
fn diamond_d_runs_exactly_once() {
    let app = App::new();
    let a = app.signal(1);

    let a_for_b = a.clone();
    let b = app.memo(move || a_for_b.get() * 2);

    let a_for_c = a.clone();
    let c = app.memo(move || a_for_c.get() + 1);

    let d_computes = Rc::new(Cell::new(0));
    let d_computes_clone = Rc::clone(&d_computes);
    let b_for_d = b.clone();
    let c_for_d = c.clone();
    let d = app.memo(move || {
        d_computes_clone.set(d_computes_clone.get() + 1);
        b_for_d.get() + c_for_d.get()
    });
    assert_eq!(d_computes.get(), 1, "D computes once on creation");
    assert_eq!(d.get(), 4, "initial: b=2, c=2, d=4");

    a.set(10);
    assert_eq!(
        d_computes.get(),
        2,
        "D must recompute exactly once after A settles B and C, not zero or twice"
    );
    assert_eq!(d.get(), 31, "D must reflect both updated B (20) and C (11)");
}

#[test]
fn batch_defers_and_dedupes_across_multiple_sets() {
    let app = App::new();
    let x = app.signal(1);
    let y = app.signal(2);

    let runs = Rc::new(Cell::new(0));
    let runs_clone = Rc::clone(&runs);
    let x_for_effect = x.clone();
    let y_for_effect = y.clone();
    let _handle = app.effect(move || {
        x_for_effect.get();
        y_for_effect.get();
        runs_clone.set(runs_clone.get() + 1);
    });
    assert_eq!(runs.get(), 1, "effect runs once immediately");

    app.batch(|| {
        x.set(10);
        y.set(20);
    });
    assert_eq!(
        runs.get(),
        2,
        "batched writes to two deps the effect reads must cause exactly one rerun"
    );

    x.set(100);
    y.set(200);
    assert_eq!(runs.get(), 4, "outside batch(), sequential sets still cause one rerun each");
}

#[test]
fn nested_batch_flushes_only_at_outermost_exit() {
    let app = App::new();
    let s = app.signal(1);
    let runs = Rc::new(Cell::new(0));
    let runs_clone = Rc::clone(&runs);
    let s_for_effect = s.clone();
    let _handle = app.effect(move || {
        s_for_effect.get();
        runs_clone.set(runs_clone.get() + 1);
    });
    assert_eq!(runs.get(), 1);

    app.batch(|| {
        app.batch(|| {
            s.set(2);
        });
        assert_eq!(runs.get(), 1, "inner batch exit must not flush yet");
        s.set(3);
    });
    assert_eq!(runs.get(), 2, "outer batch exit flushes exactly once total");
}

#[test]
fn memo_rank_updates_after_dependency_change() {
    let app = App::new();
    let cond = app.signal(true);
    let a = app.signal(1);
    let b = app.signal(100);

    let cond_for_shallow = cond.clone();
    let a_for_shallow = a.clone();
    let b_for_shallow = b.clone();
    let shallow = app.memo(move || {
        if cond_for_shallow.get() {
            a_for_shallow.get()
        } else {
            b_for_shallow.get()
        }
    });

    let a_for_deep = a.clone();
    let deep_of_a = app.memo(move || a_for_deep.get() * 10);

    let seen = Rc::new(RefCell::new(Vec::new()));
    let seen_clone = Rc::clone(&seen);
    let shallow_for_top = shallow.clone();
    let deep_for_top = deep_of_a.clone();
    let _handle = app.effect(move || {
        seen_clone.borrow_mut().push(shallow_for_top.get() + deep_for_top.get());
    });
    assert_eq!(*seen.borrow(), vec![11], "1 + 1*10");

    cond.set(false);
    assert_eq!(*seen.borrow(), vec![11, 110], "100 + 1*10");

    a.set(5);
    assert_eq!(
        *seen.borrow(),
        vec![11, 110, 150],
        "shallow no longer reacts to a; only deep_of_a updates (100 + 5*10)"
    );
}

#[test]
fn on_cleanup_runs_before_next_run_and_on_drop() {
    let app = App::new();
    let a = app.signal(1);
    let runs = Rc::new(Cell::new(0));
    let cleanups = Rc::new(Cell::new(0));
    let runs_clone = Rc::clone(&runs);
    let cleanups_clone = Rc::clone(&cleanups);
    let a_for_effect = a.clone();
    let app_for_effect = app.clone();
    let handle = app.effect(move || {
        a_for_effect.get();
        runs_clone.set(runs_clone.get() + 1);
        let n = cleanups_clone.clone();
        app_for_effect.on_cleanup(move || {
            n.set(n.get() + 1);
        });
    });
    assert_eq!(runs.get(), 1);
    assert_eq!(cleanups.get(), 0, "no cleanup should fire before the first rerun");

    a.set(2);
    assert_eq!(runs.get(), 2);
    assert_eq!(cleanups.get(), 1, "cleanup from run 1 must fire before run 2");

    drop(handle);
    assert_eq!(cleanups.get(), 2, "pending cleanup must fire when the handle is dropped");
}

#[test]
fn set_if_changed_does_not_notify_on_unchanged_value() {
    let app = App::new();
    let s = app.signal(5i32);
    let runs = Rc::new(Cell::new(0));
    let runs_clone = Rc::clone(&runs);
    let s_e = s.clone();
    let _h = app.effect(move || {
        s_e.get();
        runs_clone.set(runs_clone.get() + 1);
    });
    assert_eq!(runs.get(), 1, "effect runs once on creation");
    s.set_if_changed(5);
    assert_eq!(runs.get(), 1, "set_if_changed with unchanged value must not notify");
    s.set_if_changed(6);
    assert_eq!(runs.get(), 2, "set_if_changed with new value notifies");
}

#[test]
fn signal_works_without_clone_via_with() {
    #[derive(Debug)]
    struct Big {
        parts: Vec<String>,
    }
    impl Big {
        fn len(&self) -> usize {
            self.parts.len()
        }
    }

    let app = App::new();
    let s: Sig<Big> = app.signal(Big { parts: vec!["a".to_string()] });
    assert_eq!(s.with(|b| b.len()), 1);
    s.set(Big { parts: vec!["a".to_string(), "b".to_string()] });
    assert_eq!(s.with(|b| b.len()), 2);
}

#[test]
fn cleanup_outside_an_effect_is_ignored() {
    let app = App::new();
    let fired = Rc::new(Cell::new(false));
    let fired_clone = fired.clone();
    app.on_cleanup(move || fired_clone.set(true));
    assert!(app.0.cleanups.borrow().is_empty());
    assert!(!fired.get());
}

#[test]
fn pass_puts_lower_ranks_first() {
    let mut rt = Runtime::new();
    let base = Signal::new(&mut rt, 0);
    // The consumer is added before the producer, and both read the base.
    let consumer = rt.add_effect();
    let producer = rt.add_effect();
    rt.enter(producer);
    base.with(&mut rt);
    rt.leave();
    let made = signal::create_memo(&mut rt, producer, 0);
    rt.enter(consumer);
    base.with(&mut rt);
    made.with(&mut rt);
    rt.leave();
    let mut base = base;
    assert!(base.set(&mut rt, 1));
    assert_eq!(rt.next_pass(), vec![producer]);
    rt.end_pass();
    assert_eq!(rt.next_pass(), vec![consumer]);
    rt.end_pass();
    assert!(rt.next_pass().is_empty());
}

#[test]
fn effect_on_a_signal_and_its_memo_runs_once_per_batch() {
    let app = App::new();
    let a = app.signal(1);
    let am = a.clone();
    let m = app.memo(move || am.get() * 2);
    let seen = Rc::new(RefCell::new(Vec::new()));
    let (ae, me, se) = (a.clone(), m.clone(), seen.clone());
    let _handle = app.effect(move || se.borrow_mut().push((ae.get(), me.get())));
    app.batch(|| a.set(2));
    assert_eq!(*seen.borrow(), vec![(1, 2), (2, 4)]);
}

#[test]
fn effect_at_the_end_of_a_chain_of_memos_runs_once_per_batch() {
    let app = App::new();
    let a = app.signal(1);
    let a1 = a.clone();
    let first = app.memo(move || a1.get() + 1);
    let f1 = first.clone();
    let second = app.memo(move || f1.get() + 1);
    let s1 = second.clone();
    let third = app.memo(move || s1.get() + 1);
    let seen = Rc::new(RefCell::new(Vec::new()));
    let (ae, te, se) = (a.clone(), third.clone(), seen.clone());
    let _handle = app.effect(move || se.borrow_mut().push((ae.get(), te.get())));
    app.batch(|| {
        a.set(5);
        a.set(10);
    });
    assert_eq!(*seen.borrow(), vec![(1, 4), (10, 13)]);
}

#[test]
fn cleanup_after_a_nested_effect_belongs_to_the_outer_one() {
    let app = App::new();
    let s = app.signal(0);
    let n = Rc::new(Cell::new(0));
    let (inner_app, se, ne) = (app.clone(), s.clone(), n.clone());
    let _handle = app.effect(move || {
        se.get();
        let _inner = inner_app.effect(|| {});
        let ne = ne.clone();
        inner_app.on_cleanup(move || ne.set(ne.get() + 1));
    });
    assert_eq!(n.get(), 0);
    s.set(1);
    assert_eq!(n.get(), 1);
}

#[test]
fn waiting_effect_that_starts_to_run_waits_no_longer() {
    let mut rt = Runtime::new();
    let mut a = Signal::new(&mut rt, 0);
    let e = rt.add_effect();
    rt.enter(e);
    a.with(&mut rt);
    rt.leave();
    signal::batch(&mut rt);
    a.set(&mut rt, 1);
    rt.start_run(e);
    assert!(signal::end_batch(&mut rt));
    assert!(rt.next_pass().is_empty());
}

// Stores.

#[derive(Debug, Clone, PartialEq)]
struct AppState {
    count: i32,
    name: String,
}

fn state(count: i32, name: &str) -> AppState {
    AppState { count, name: name.to_string() }
}

struct Shop {
    app: App,
    store: RefCell<Store<AppState>>,
    callbacks: RefCell<Vec<(u64, Box<dyn Fn(&AppState)>)>>,
    saved: RefCell<Option<AppState>>,
}

impl Shop {
    fn new(initial: AppState) -> Shop {
        let app = App::new();
        let store = Store::new(&mut app.0.rt.borrow_mut(), initial);
        Shop {
            app,
            store: RefCell::new(store),
            callbacks: RefCell::new(Vec::new()),
            saved: RefCell::new(None),
        }
    }

    fn with_time_travel(self, limit: usize) -> Shop {
        let Shop { app, store, callbacks, saved } = self;
        let store = store.into_inner().with_time_travel(&mut app.0.rt.borrow_mut(), limit);
        Shop { app, store: RefCell::new(store), callbacks, saved }
    }

    fn after(&self, now: bool) {
        if now {
            self.app.flush();
        }
        self.store.borrow().signal().written(&mut self.app.0.rt.borrow_mut());
        let n = self.store.borrow().notice(&mut self.app.0.rt.borrow_mut());
        for id in &n.subscribers {
            for (k, cb) in self.callbacks.borrow().iter() {
                if k == id {
                    cb(&n.state);
                }
            }
        }
        if n.save {
            *self.saved.borrow_mut() = Some((*n.state).clone());
        }
    }

    fn set(&self, next: AppState) {
        let now = self.store.borrow_mut().set(&mut self.app.0.rt.borrow_mut(), next);
        self.after(now);
    }

    fn update(&self, f: impl FnOnce(&AppState) -> AppState) {
        let now = self.store.borrow_mut().update(&mut self.app.0.rt.borrow_mut(), f);
        self.after(now);
    }

    fn undo(&self) {
        let r = self.store.borrow_mut().undo(&mut self.app.0.rt.borrow_mut());
        if let Some(now) = r {
            self.after(now);
        }
    }

    fn redo(&self) {
        let r = self.store.borrow_mut().redo(&mut self.app.0.rt.borrow_mut());
        if let Some(now) = r {
            self.after(now);
        }
    }

    fn get(&self) -> Rc<AppState> {
        self.store.borrow().get(&mut self.app.0.rt.borrow_mut())
    }
}

#[test]
fn set_and_get_round_trip() {
    let shop = Shop::new(state(0, "x"));
    shop.set(state(1, "y"));
    assert_eq!(shop.get().count, 1);
}

#[test]
fn update_applies_transformation() {
    let shop = Shop::new(state(0, "x"));
    shop.update(|s| AppState { count: s.count + 5, name: s.name.clone() });
    assert_eq!(shop.get().count, 5);
}

#[test]
fn subscribers_fire_on_commit() {
    let shop = Shop::new(state(0, "x"));
    let seen = Rc::new(RefCell::new(Vec::new()));
    let seen2 = seen.clone();
    let sub = shop.store.borrow_mut().subscribe();
    shop.callbacks
        .borrow_mut()
        .push((sub.id, Box::new(move |s: &AppState| seen2.borrow_mut().push(s.count))));
    shop.set(state(1, "a"));
    shop.update(|s| AppState { count: s.count + 1, name: "b".into() });
    assert_eq!(*seen.borrow(), vec![1, 2]);
}

#[test]
fn dropping_subscription_stops_callbacks() {
    let shop = Shop::new(state(0, "x"));
    let seen = Rc::new(RefCell::new(0usize));
    let seen2 = seen.clone();
    let sub = shop.store.borrow_mut().subscribe();
    shop.callbacks
        .borrow_mut()
        .push((sub.id, Box::new(move |_: &AppState| *seen2.borrow_mut() += 1)));
    shop.set(state(1, "a"));
    shop.store.borrow_mut().unsubscribe(sub);
    shop.set(state(2, "b"));
    assert_eq!(*seen.borrow(), 1, "no callback after drop");
}

#[test]
fn time_travel_undo_redo() {
    let shop = Shop::new(state(0, "x")).with_time_travel(10);
    shop.set(state(1, "a"));
    shop.set(state(2, "b"));
    assert!(shop.store.borrow().can_undo());
    assert!(!shop.store.borrow().can_redo());

    shop.undo();
    assert_eq!(shop.get().count, 1);
    assert!(shop.store.borrow().can_redo());

    shop.undo();
    assert_eq!(shop.get().count, 0);

    shop.redo();
    assert_eq!(shop.get().count, 1);
    assert_eq!(shop.get().name, "a");
}

#[test]
fn new_commit_after_undo_truncates_redo_branch() {
    let shop = Shop::new(state(0, "x")).with_time_travel(10);
    shop.set(state(1, "a"));
    shop.set(state(2, "b"));
    shop.undo();
    shop.set(state(9, "c"));
    assert!(!shop.store.borrow().can_redo(), "redo branch truncated by new commit");
    assert_eq!(shop.get().count, 9);
}

#[test]
fn history_keeps_no_more_than_its_limit() {
    let shop = Shop::new(state(0, "x")).with_time_travel(2);
    shop.set(state(1, "a"));
    shop.set(state(2, "b"));
    shop.undo();
    assert_eq!(shop.get().count, 1);
    assert!(!shop.store.borrow().can_undo(), "the first state is gone");
}

struct MemoryStorage(Rc<RefCell<Option<AppState>>>);

impl Persistence<AppState> for MemoryStorage {
    fn load(&self) -> Option<AppState> {
        self.0.borrow().clone()
    }

    fn save(&self, state: &AppState) {
        *self.0.borrow_mut() = Some(state.clone());
    }
}

#[test]
fn persistence_hydrates_initial_and_writes_on_commit() {
    let shop = Shop::new(state(0, "default"));
    let Shop { app, store, callbacks, saved } = shop;
    *saved.borrow_mut() = Some(state(42, "seed"));
    let backend = MemoryStorage(Rc::new(RefCell::new(None)));
    backend.save(&state(42, "seed"));
    let (store, now) =
        store.into_inner().with_backend(&mut app.0.rt.borrow_mut(), &backend);
    assert!(now);
    let shop = Shop { app, store: RefCell::new(store), callbacks, saved };

    assert_eq!(shop.get().count, 42);
    assert_eq!(shop.get().name, "seed");

    shop.set(state(7, "updated"));
    let kept = shop.store.borrow().persist_now(&mut shop.app.0.rt.borrow_mut());
    assert_eq!(kept.unwrap().count, 7);
    let restored = shop.saved.borrow().clone().unwrap();
    assert_eq!(restored.count, 7);
    assert_eq!(restored.name, "updated");
}

#[test]
fn store_keeps_its_state_where_nothing_was_saved() {
    let app = App::new();
    let store = Store::new(&mut app.0.rt.borrow_mut(), state(3, "own"));
    let backend = MemoryStorage(Rc::new(RefCell::new(None)));
    let (store, now) = store.with_backend(&mut app.0.rt.borrow_mut(), &backend);
    assert!(!now);
    assert_eq!(store.get(&mut app.0.rt.borrow_mut()).count, 3);
    assert!(store.notice(&mut app.0.rt.borrow_mut()).save);
}

#[test]
fn subscriber_is_told_of_every_commit_until_it_leaves() {
    let app = App::new();
    let mut rt = app.0.rt.borrow_mut();
    let mut store = Store::new(&mut rt, state(0, "s")).with_time_travel(&mut rt, 5);
    let first = store.subscribe();
    let second = store.subscribe();
    let (a, b) = (first.id, second.id);
    store.set(&mut rt, state(1, "s"));
    assert_eq!(store.notice(&mut rt).subscribers, vec![a, b]);
    store.unsubscribe(first);
    store.undo(&mut rt);
    assert_eq!(store.notice(&mut rt).subscribers, vec![b]);
    store.unsubscribe(second);
    store.redo(&mut rt);
    assert!(store.notice(&mut rt).subscribers.is_empty());
}

#[test]
fn instrument_store_records_writes_in_devtools() {
    let shop = Shop::new(state(0, "x"));
    signal::reset_signal_activity(&mut shop.app.0.rt.borrow_mut());
    let handle = instrument_store(
        &shop.store.borrow(),
        &mut shop.app.0.rt.borrow_mut(),
        "counter_store",
    );
    shop.app.0.bodies.borrow_mut().push(Rc::new(RefCell::new(Box::new(|| {}))));
    shop.app.run(handle.id);
    shop.set(state(1, "a"));
    shop.set(state(2, "b"));
    let rt = shop.app.0.rt.borrow();
    assert_eq!(
        signal::signal_activity(&rt).get("counter_store"),
        Some(&2),
        "devtools observes two store writes"
    );
}

// A view that is rebuilt from a signal.

#[derive(Debug, Clone, PartialEq)]
enum Msg {
    Increment,
    Decrement,
}

fn view(count: &Sig<i32>) -> UITree<Msg> {
    let n = count.get();
    let mut items = Vec::new();
    for i in 0..n.max(0) {
        items.push(UITree::text(&format!("item {i}")).key(&format!("item-{i}")));
    }
    UITree::container(vec![
        UITree::heading(1, &format!("Count: {n}")),
        UITree::list(items),
        UITree::button("+1").on_click(Msg::Increment).key("inc"),
        UITree::button("-1").on_click(Msg::Decrement).key("dec"),
    ])
}

fn reduce(count: &Sig<i32>, msg: Msg) {
    count.set(
        count.get()
            + match msg {
                Msg::Increment => 1,
                Msg::Decrement => -1,
            },
    );
}

#[test]
fn signal_effect_rebuilds_view_on_click() {
    let app = App::new();
    let count = app.signal(0);
    let current = Rc::new(RefCell::new(view(&count)));
    let current_clone = current.clone();
    let count_for_effect = count.clone();
    let _handle = app.effect(move || {
        let tree = view(&count_for_effect);
        *current_clone.borrow_mut() = tree;
    });

    assert!(matches!(&current.borrow().kind, NodeKind::Container { .. }));

    reduce(&count, Msg::Increment);
    let shown = current.borrow();
    let NodeKind::Container { children } = &shown.kind else {
        panic!();
    };
    let NodeKind::Heading { text, .. } = &children[0].kind else {
        panic!();
    };
    assert_eq!(text, "Count: 1");
}

#[test]
fn every_change_of_a_bound_store_is_saved_and_told_in_order() {
    let app = App::new();
    let mut rt = app.0.rt.borrow_mut();
    let store = Store::new(&mut rt, state(0, "s")).with_time_travel(&mut rt, 5);
    let (mut store, _) = store.with_persistence(&mut rt, None);
    let ids: Vec<u64> = (0..3).map(|_| store.subscribe().id).collect();
    let mut saved = Vec::new();
    store.set(&mut rt, state(1, "s"));
    saved.push(store.notice(&mut rt));
    store.update(&mut rt, |s| AppState { count: s.count + 1, name: s.name.clone() });
    saved.push(store.notice(&mut rt));
    assert!(store.undo(&mut rt).is_some());
    saved.push(store.notice(&mut rt));
    assert!(store.redo(&mut rt).is_some());
    saved.push(store.notice(&mut rt));
    assert!(store.redo(&mut rt).is_none(), "nothing to tell");
    assert_eq!(saved.iter().map(|n| n.state.count).collect::<Vec<_>>(), vec![1, 2, 1, 2]);
    assert!(saved.iter().all(|n| n.save && n.subscribers == ids));
}
