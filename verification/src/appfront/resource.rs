//! A value that is being loaded.

use vstd::prelude::*;
use vstd::string::*;

use super::signal::{Runtime, Signal};

verus! {

/// How far loading has come.
#[derive(Debug, Clone, PartialEq, Eq)]
pub enum ResourceState<T> {
    Loading,
    Ready(T),
    Error(String),
}

/// The state that the outcome of a load leads to.
pub open spec fn state_of<T>(out: Result<T, String>) -> ResourceState<T> {
    match out {
        Ok(v) => ResourceState::Ready(v),
        Err(e) => ResourceState::Error(e),
    }
}

fn settled<T>(out: Result<T, String>) -> (s: ResourceState<T>)
    ensures
        s == state_of(out),
{
    match out {
        Ok(v) => ResourceState::Ready(v),
        Err(e) => ResourceState::Error(e),
    }
}

/// A value that is loaded, and loaded anew. Each load has a number: an outcome
/// counts only while its load is the latest.
pub struct Resource<T> {
    pub state: Signal<ResourceState<T>>,
    pub generation: u64,
}

impl<T> Resource<T> {
    /// Whether the resource is one of the runtime's, and can be read.
    pub open spec fn readable(&self, rt: Runtime) -> bool {
        self.state.readable(rt)
    }

    fn holding(rt: &mut Runtime, state: ResourceState<T>) -> (r: Resource<T>)
        requires
            old(rt).wf(),
            old(rt)@.subs.len() < usize::MAX,
        ensures
            final(rt).wf(),
            r.state.value == state,
            r.state.id == old(rt)@.subs.len(),
            r.generation == 0,
            final(rt)@ == old(rt)@.with_signal(None),
    {
        Resource { state: Signal::new(rt, state), generation: 0 }
    }

    /// Runs a loader and holds its outcome.
    pub fn new<F: FnOnce() -> Result<T, String>>(rt: &mut Runtime, loader: F) -> (r: Resource<T>)
        requires
            old(rt).wf(),
            old(rt)@.subs.len() < usize::MAX,
            call_requires(loader, ()),
        ensures
            final(rt).wf(),
            exists|out: Result<T, String>|
                call_ensures(loader, (), out) && r.state.value == state_of(out),
            r.state.id == old(rt)@.subs.len(),
            r.generation == 0,
            final(rt)@ == old(rt)@.with_signal(None),
    {
        let out = loader();
        Resource::holding(rt, settled(out))
    }

    /// A resource that is loaded already.
    pub fn ready(rt: &mut Runtime, value: T) -> (r: Resource<T>)
        requires
            old(rt).wf(),
            old(rt)@.subs.len() < usize::MAX,
        ensures
            final(rt).wf(),
            r.state.value == ResourceState::Ready(value),
            r.state.id == old(rt)@.subs.len(),
            r.generation == 0,
            final(rt)@ == old(rt)@.with_signal(None),
    {
        Resource::holding(rt, ResourceState::Ready(value))
    }

    /// A resource that failed to load.
    pub fn error(rt: &mut Runtime, message: String) -> (r: Resource<T>)
        requires
            old(rt).wf(),
            old(rt)@.subs.len() < usize::MAX,
        ensures
            final(rt).wf(),
            r.state.value == ResourceState::<T>::Error(message),
            r.state.id == old(rt)@.subs.len(),
            r.generation == 0,
            final(rt)@ == old(rt)@.with_signal(None),
    {
        Resource::holding(rt, ResourceState::Error(message))
    }

    /// Runs a loader and holds its outcome. Whether the effects that read the
    /// resource have to be run at once.
    pub fn load_blocking<F: FnOnce() -> Result<T, String>>(
        &mut self,
        rt: &mut Runtime,
        loader: F,
    ) -> (now: bool)
        requires
            old(rt).wf(),
            old(self).state.id < old(rt)@.subs.len(),
            call_requires(loader, ()),
        ensures
            final(rt).wf(),
            exists|out: Result<T, String>|
                call_ensures(loader, (), out) && final(self).state.value == state_of(out),
            final(self).state.id == old(self).state.id,
            final(self).generation == old(self).generation,
            final(rt)@ == old(rt)@.notified(old(self).state.id as int),
            now == (old(rt)@.depth == 0),
    {
        let out = loader();
        self.set_result(rt, out)
    }

    /// Holds the outcome of a load.
    pub fn set_result(&mut self, rt: &mut Runtime, result: Result<T, String>) -> (now: bool)
        requires
            old(rt).wf(),
            old(self).state.id < old(rt)@.subs.len(),
        ensures
            final(rt).wf(),
            final(self).state.value == state_of(result),
            final(self).state.id == old(self).state.id,
            final(self).generation == old(self).generation,
            final(rt)@ == old(rt)@.notified(old(self).state.id as int),
            now == (old(rt)@.depth == 0),
    {
        self.state.set(rt, settled(result))
    }

    /// The number of the latest load.
    pub fn generation(&self) -> (g: u64)
        ensures
            g == self.generation,
    {
        self.generation
    }

    /// Whether a load is the latest, so that its outcome counts.
    pub open spec fn current(&self, gen: u64) -> bool {
        self.generation == gen
    }

    /// Whether a load is the latest, so that its outcome counts.
    pub fn is_current(&self, gen: u64) -> (r: bool)
        ensures
            r == self.current(gen),
    {
        self.generation == gen
    }

    /// Starts a load: the resource is loading, and the load has the number that
    /// is returned first. Outcomes of earlier loads no longer count.
    pub fn load_async(&mut self, rt: &mut Runtime) -> (r: (u64, bool))
        requires
            old(rt).wf(),
            old(self).state.id < old(rt)@.subs.len(),
            old(self).generation < u64::MAX,
        ensures
            final(rt).wf(),
            final(self).state.value == ResourceState::<T>::Loading,
            final(self).state.id == old(self).state.id,
            final(self).generation == old(self).generation + 1,
            final(self).current(r.0),
            forall|g: u64| g <= old(self).generation ==> !#[trigger] final(self).current(g),
            final(rt)@ == old(rt)@.notified(old(self).state.id as int),
            r.1 == (old(rt)@.depth == 0),
    {
        self.generation = self.generation + 1;
        let now = self.state.set(rt, ResourceState::Loading);
        (self.generation, now)
    }

    /// Goes back to loading. Outcomes of earlier loads no longer count.
    pub fn reload(&mut self, rt: &mut Runtime) -> (now: bool)
        requires
            old(rt).wf(),
            old(self).state.id < old(rt)@.subs.len(),
            old(self).generation < u64::MAX,
        ensures
            final(rt).wf(),
            final(self).state.value == ResourceState::<T>::Loading,
            final(self).state.id == old(self).state.id,
            final(self).generation == old(self).generation + 1,
            forall|g: u64| g <= old(self).generation ==> !#[trigger] final(self).current(g),
            final(rt)@ == old(rt)@.notified(old(self).state.id as int),
            now == (old(rt)@.depth == 0),
    {
        self.generation = self.generation + 1;
        self.state.set(rt, ResourceState::Loading)
    }

    /// How far loading has come.
    pub fn state(&self, rt: &mut Runtime) -> (s: &ResourceState<T>)
        requires
            self.readable(*old(rt)),
        ensures
            final(rt).wf(),
            *s == self.state.value,
            final(rt)@ == old(rt)@.after_read(self.state.id as int),
    {
        self.state.with(rt)
    }

    /// The loaded value, if it is there.
    pub fn ready_value(&self, rt: &mut Runtime) -> (v: Option<&T>)
        requires
            self.readable(*old(rt)),
        ensures
            final(rt).wf(),
            match self.state.value {
                ResourceState::Ready(x) => v == Some(&x),
                _ => v is None,
            },
            final(rt)@ == old(rt)@.after_read(self.state.id as int),
    {
        match self.state.with(rt) {
            ResourceState::Ready(x) => Some(x),
            _ => None,
        }
    }

    /// Whether no outcome is there yet.
    pub fn is_loading(&self, rt: &mut Runtime) -> (r: bool)
        requires
            self.readable(*old(rt)),
        ensures
            final(rt).wf(),
            r == (self.state.value is Loading),
            final(rt)@ == old(rt)@.after_read(self.state.id as int),
    {
        match self.state.with(rt) {
            ResourceState::Loading => true,
            _ => false,
        }
    }

    /// Whether the value is there.
    pub fn is_ready(&self, rt: &mut Runtime) -> (r: bool)
        requires
            self.readable(*old(rt)),
        ensures
            final(rt).wf(),
            r == (self.state.value is Ready),
            final(rt)@ == old(rt)@.after_read(self.state.id as int),
    {
        match self.state.with(rt) {
            ResourceState::Ready(_) => true,
            _ => false,
        }
    }

    /// Whether loading failed.
    pub fn is_error(&self, rt: &mut Runtime) -> (r: bool)
        requires
            self.readable(*old(rt)),
        ensures
            final(rt).wf(),
            r == (self.state.value is Error),
            final(rt)@ == old(rt)@.after_read(self.state.id as int),
    {
        match self.state.with(rt) {
            ResourceState::Error(_) => true,
            _ => false,
        }
    }

    /// The signal that holds the state.
    pub fn signal(&self) -> (s: &Signal<ResourceState<T>>)
        ensures
            *s == self.state,
    {
        &self.state
    }
}

/// A value that was loaded is there, and a failure is told.
pub proof fn law_loaded_value_is_there<T>(value: T, fault: String)
    ensures
        state_of(Ok::<T, String>(value)) == ResourceState::Ready(value),
        state_of(Err::<T, String>(fault)) == ResourceState::<T>::Error(fault),
{
}

} // verus!
