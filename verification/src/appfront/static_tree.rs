//! Parts of the interface that never change.

use std::collections::HashMap;
use std::rc::Rc;
use vstd::prelude::*;

use super::shared::share;
use super::ui_tree::UITree;

verus! {

/// Trees that were built once, by number.
pub struct StaticCache<Msg> {
    trees: HashMap<u64, Rc<UITree<Msg>>>,
}

impl<Msg> View for StaticCache<Msg> {
    type V = Map<u64, Rc<UITree<Msg>>>;

    closed spec fn view(&self) -> Map<u64, Rc<UITree<Msg>>> {
        self.trees@
    }
}

impl<Msg> StaticCache<Msg> {
    /// An empty cache.
    pub fn new() -> (c: StaticCache<Msg>)
        ensures
            c@ == Map::<u64, Rc<UITree<Msg>>>::empty(),
    {
        StaticCache { trees: HashMap::new() }
    }

    /// The tree of a number: built if it is asked for the first time, else the
    /// one that was built then.
    pub fn static_node<F: FnOnce() -> UITree<Msg>>(&mut self, id: u64, build: F) -> (tree: Rc<
        UITree<Msg>,
    >)
        requires
            !old(self)@.contains_key(id) ==> call_requires(build, ()),
        ensures
            final(self)@.contains_key(id),
            tree == final(self)@[id],
            if old(self)@.contains_key(id) {
                final(self)@ == old(self)@
            } else {
                &&& call_ensures(build, (), *tree)
                &&& final(self)@ == old(self)@.insert(id, tree)
            },
    {
        broadcast use vstd::std_specs::hash::group_hash_axioms;

        match self.trees.get(&id) {
            Some(tree) => {
                return share(tree);
            },
            None => {},
        }
        let tree = Rc::new(build());
        self.trees.insert(id, share(&tree));
        assert(self@ =~= old(self)@.insert(id, tree));
        tree
    }
}

} // verus!
