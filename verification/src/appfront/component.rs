//! What components share.

use std::collections::HashMap;
use std::rc::Rc;
use vstd::prelude::*;
use vstd::std_specs::cmp::PartialEqSpec;

use super::shared::share;
use super::ui_tree::UITree;

verus! {

/// The elements that are put inside a component.
#[derive(Debug, PartialEq)]
pub struct Children<Msg>(pub Vec<UITree<Msg>>);

impl<Msg> Children<Msg> {
    /// No elements.
    pub fn none() -> (c: Children<Msg>)
        ensures
            c.0@.len() == 0,
    {
        Children(Vec::new())
    }

    /// Whether there are no elements.
    pub fn is_empty(&self) -> (r: bool)
        ensures
            r == (self.0@.len() == 0),
    {
        self.0.len() == 0
    }

    /// How many elements there are.
    pub fn len(&self) -> (n: usize)
        ensures
            n == self.0@.len(),
    {
        self.0.len()
    }
}

/// The tree that each component built last, with the key that it was built
/// for.
pub struct MemoCache<P, Msg> {
    built: HashMap<u64, (P, Rc<UITree<Msg>>)>,
}

impl<P, Msg> View for MemoCache<P, Msg> {
    type V = Map<u64, (P, Rc<UITree<Msg>>)>;

    closed spec fn view(&self) -> Map<u64, (P, Rc<UITree<Msg>>)> {
        self.built@
    }
}

impl<P: PartialEq, Msg> MemoCache<P, Msg> {
    /// An empty cache.
    pub fn new() -> (c: MemoCache<P, Msg>)
        ensures
            c@ == Map::<u64, (P, Rc<UITree<Msg>>)>::empty(),
    {
        MemoCache { built: HashMap::new() }
    }

    /// The tree of a component for a key: the one that it built last, where
    /// that was for an equal key, else built anew.
    pub fn memoized<F: FnOnce(&P) -> UITree<Msg>>(&mut self, id: u64, key: P, build: F) -> (r: (
        Rc<UITree<Msg>>,
        bool,
    ))
        requires
            P::obeys_eq_spec() && old(self)@.contains_key(id) && old(self)@[id].0.eq_spec(&key)
                || call_requires(build, (&key,)),
        ensures
            final(self)@.contains_key(id),
            r.0 == final(self)@[id].1,
            P::obeys_eq_spec() ==> r.1 == !(old(self)@.contains_key(id)
                && old(self)@[id].0.eq_spec(&key)),
            if r.1 {
                &&& call_ensures(build, (&key,), *r.0)
                &&& final(self)@ == old(self)@.insert(id, (key, r.0))
            } else {
                final(self)@ == old(self)@
            },
    {
        broadcast use vstd::std_specs::hash::group_hash_axioms;

        match self.built.get(&id) {
            Some(entry) => {
                if entry.0 == key {
                    return (share(&entry.1), false);
                }
            },
            None => {},
        }
        let tree = Rc::new(build(&key));
        self.built.insert(id, (key, share(&tree)));
        assert(self@ =~= old(self)@.insert(id, (key, tree)));
        (tree, true)
    }
}

} // verus!
