use std::hash::Hash;
use vstd::prelude::*;
use vstd::std_specs::hash::obeys_key_model;

use crate::node::{deref_opt, Node};

verus! {

/// A cursor at one node of a trie.
pub struct Entry<'g, S, V> {
    pub(crate) node: &'g Node<S, V>,
}

impl<'g, S, V> Entry<'g, S, V> {
    /// The node the cursor stands at.
    pub closed spec fn node(self) -> Node<S, V> {
        *self.node
    }
}

impl<'g, S: Copy + Eq + Hash, V> Entry<'g, S, V> {
    pub(crate) fn new(node: &'g Node<S, V>) -> (r: Self)
        ensures
            r.node() == *node,
    {
        Entry { node }
    }

    /// The value held at the cursor's node.
    pub fn get(&self) -> (r: Option<&'g V>)
        ensures
            deref_opt(r) == self.node().view().get(Seq::<S>::empty()),
    {
        self.node.get()
    }

    /// A cursor at the child under segment `seg`.
    pub fn child(&self, seg: &S) -> (r: Option<Entry<'g, S, V>>)
        requires
            obeys_key_model::<S>(),
        ensures
            match r {
                Some(e) => !self.node().is_retired() && self.node().children_view().get(*seg) == Some(
                    e.node(),
                ),
                None => self.node().is_retired() || !self.node().children_view().contains_key(
                    *seg,
                ),
            },
    {
        match self.node.child(seg) {
            Some(node) => Some(Entry::new(node)),
            None => None,
        }
    }

    /// A cursor at the live node that `key` leads to from this one.
    pub fn find(&self, key: &[S]) -> (r: Option<Entry<'g, S, V>>)
        requires
            obeys_key_model::<S>(),
        ensures
            match r {
                Some(e) => self.node().reach(key@) == Some(e.node()),
                None => self.node().reach(key@) is None,
            },
    {
        match self.node.find(key) {
            Some(node) => Some(Entry::new(node)),
            None => None,
        }
    }

    /// The cursor's node has been retired.
    pub fn is_removed(&self) -> (r: bool)
        ensures
            r == self.node().is_retired(),
    {
        self.node.is_removed()
    }
}

} // verus!
