//! Values that are handed down to a part of the interface.

use std::collections::HashMap;
use vstd::prelude::*;

use super::signal::{Runtime, Signal};

verus! {

/// A value that is handed down. It is a signal, so that those who use it see
/// changes.
pub struct Context<T> {
    pub signal: Signal<T>,
}

impl<T> Context<T> {
    /// A context that holds `value`.
    pub fn new(rt: &mut Runtime, value: T) -> (c: Context<T>)
        requires
            old(rt).wf(),
            old(rt)@.subs.len() < usize::MAX,
        ensures
            final(rt).wf(),
            c.signal.value == value,
            c.signal.id == old(rt)@.subs.len(),
            final(rt)@ == old(rt)@.with_signal(None),
    {
        Context { signal: Signal::new(rt, value) }
    }

    /// A context around a signal.
    pub fn from_signal(signal: Signal<T>) -> (c: Context<T>)
        ensures
            c.signal == signal,
    {
        Context { signal }
    }

    /// Reads a copy of the value.
    pub fn get(&self, rt: &mut Runtime) -> (value: T) where T: Clone
        requires
            self.signal.readable(*old(rt)),
        ensures
            final(rt).wf(),
            cloned(self.signal.value, value),
            final(rt)@ == old(rt)@.after_read(self.signal.id as int),
    {
        self.signal.get(rt)
    }

    /// Writes a value. Whether the effects that it wakes have to be run at
    /// once.
    pub fn set(&mut self, rt: &mut Runtime, value: T) -> (now: bool)
        requires
            old(rt).wf(),
            old(self).signal.id < old(rt)@.subs.len(),
        ensures
            final(rt).wf(),
            final(self).signal.id == old(self).signal.id,
            final(self).signal.value == value,
            final(rt)@ == old(rt)@.notified(old(self).signal.id as int),
            now == (old(rt)@.depth == 0),
    {
        self.signal.set(rt, value)
    }

    /// The signal that holds the value.
    pub fn signal(&self) -> (s: &Signal<T>)
        ensures
            *s == self.signal,
    {
        &self.signal
    }
}

/// What is handed down right now, for each type of value the innermost last.
/// Types are told apart by a number.
pub struct Providers<C> {
    stacks: HashMap<u64, Vec<C>>,
}

impl<C> View for Providers<C> {
    type V = Map<u64, Seq<C>>;

    closed spec fn view(&self) -> Map<u64, Seq<C>> {
        self.stacks@.map_values(|v: Vec<C>| v@)
    }
}

/// The value nearest to the code that runs.
pub open spec fn nearest<C>(all: Map<u64, Seq<C>>, key: u64) -> Option<C> {
    if all.contains_key(key) && all[key].len() > 0 {
        Some(all[key].last())
    } else {
        None
    }
}

/// What is handed down inside the scope of a provider.
pub open spec fn inside<C>(all: Map<u64, Seq<C>>, key: u64, ctx: C) -> Map<u64, Seq<C>> {
    all.insert(
        key,
        if all.contains_key(key) {
            all[key].push(ctx)
        } else {
            seq![ctx]
        },
    )
}

/// What is handed down once the innermost scope for a type ended.
pub open spec fn outside<C>(all: Map<u64, Seq<C>>, key: u64) -> Map<u64, Seq<C>> {
    if !all.contains_key(key) {
        all
    } else if all[key].len() <= 1 {
        all.remove(key)
    } else {
        all.insert(key, all[key].drop_last())
    }
}

impl<C> Providers<C> {
    /// Nothing is provided.
    pub fn new() -> (p: Providers<C>)
        ensures
            p@ == Map::<u64, Seq<C>>::empty(),
    {
        let p = Providers { stacks: HashMap::new() };
        assert(p@ =~= Map::<u64, Seq<C>>::empty());
        p
    }

    /// Opens the scope of a provider.
    pub fn provide_context(&mut self, key: u64, ctx: C)
        ensures
            final(self)@ == inside(old(self)@, key, ctx),
    {
        broadcast use vstd::std_specs::hash::group_hash_axioms;

        let ghost all = self@;
        let mut stack: Vec<C> = match self.stacks.remove(&key) {
            Some(s) => s,
            None => Vec::new(),
        };
        stack.push(ctx);
        self.stacks.insert(key, stack);
        assert(self@ =~= inside(all, key, ctx));
    }

    /// Ends the innermost scope for a type.
    pub fn end_context(&mut self, key: u64)
        ensures
            final(self)@ == outside(old(self)@, key),
    {
        broadcast use vstd::std_specs::hash::group_hash_axioms;

        let ghost all = self@;
        match self.stacks.remove(&key) {
            Some(s) => {
                let mut stack = s;
                let _ = stack.pop();
                if stack.len() > 0 {
                    self.stacks.insert(key, stack);
                }
            },
            None => {},
        }
        assert(self@ =~= outside(all, key));
    }

    /// The value nearest to the code that runs, if one is handed down.
    pub fn use_context(&self, key: u64) -> (r: Option<&C>)
        ensures
            match r {
                Some(c) => nearest(self@, key) == Some(*c),
                None => nearest(self@, key) is None,
            },
    {
        broadcast use vstd::std_specs::hash::group_hash_axioms;

        match self.stacks.get(&key) {
            Some(s) => if s.len() > 0 {
                Some(&s[s.len() - 1])
            } else {
                None
            },
            None => None,
        }
    }
}

/// Inside a scope its own value is the nearest of the type; other types are
/// untouched.
pub proof fn law_inner_provider_shadows_outer<C>(
    all: Map<u64, Seq<C>>,
    key: u64,
    ctx: C,
    other: u64,
)
    ensures
        nearest(inside(all, key, ctx), key) == Some(ctx),
        other != key ==> nearest(inside(all, key, ctx), other) == nearest(all, other),
{
}

/// After a scope everything is handed down as before it.
pub proof fn law_scope_restores_the_provider<C>(
    all: Map<u64, Seq<C>>,
    key: u64,
    ctx: C,
    other: u64,
)
    ensures
        nearest(outside(inside(all, key, ctx), key), other) == nearest(all, other),
{
    if all.contains_key(key) {
        assert(all[key].push(ctx).drop_last() =~= all[key]);
    }
}

} // verus!
