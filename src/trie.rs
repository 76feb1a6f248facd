use std::hash::Hash;
use vstd::prelude::*;
use vstd::std_specs::hash::obeys_key_model;

use crate::entry::Entry;
use crate::error::Error;
use crate::node::{deref_opt, derefs, lists_values, lists_with_keys, Node};

verus! {

/// A trie from keys (sequences of segments) to values. The root node is
/// created by the first insertion and unlinked again by the removal that
/// leaves it empty.
pub struct Trie<S, V> {
    root: Option<Node<S, V>>,
}

impl<S, V> Trie<S, V> {
    /// The keys held and their values.
    pub closed spec fn view(self) -> Map<Seq<S>, V> {
        match self.root {
            Some(r) => r.view(),
            None => Map::empty(),
        }
    }

    /// The node stored at `path` from the root.
    pub closed spec fn node_at(self, path: Seq<S>) -> Option<Node<S, V>> {
        match self.root {
            Some(r) => r.node_at(path),
            None => None,
        }
    }

    /// The live node that a reader reaches by following `key` from the root.
    pub closed spec fn reach(self, key: Seq<S>) -> Option<Node<S, V>> {
        match self.root {
            Some(r) => r.reach(key),
            None => None,
        }
    }

    /// Every node of the tree, the root included, is live and holds a value
    /// or a child.
    pub closed spec fn wf(self) -> bool {
        match self.root {
            Some(r) => !r.is_retired() && !r.is_empty() && r.wf(),
            None => true,
        }
    }

    /// The trie holds a root node.
    pub closed spec fn has_root(self) -> bool {
        self.root is Some
    }
}

impl<S, V> Trie<S, V> {
    /// Between operations the tree holds exactly the nodes on paths to live
    /// values: every node is live, holds a value or a child, and lies on the
    /// path to some key that the trie holds.
    pub proof fn lemma_pruned(self, path: Seq<S>)
        requires
            self.wf(),
            self.node_at(path) is Some,
        ensures
            !self.node_at(path)->Some_0.is_retired(),
            !self.node_at(path)->Some_0.is_empty(),
            exists|rest: Seq<S>| self.view().contains_key(path + rest),
    {
        let r = self.root->Some_0;
        let m = r.node_at(path)->Some_0;
        r.lemma_sound_at(path);
        m.lemma_sound_holds_key();
        let rest = choose|rest: Seq<S>| m.view().contains_key(rest);
        r.lemma_lookup_along(path, rest);
        assert(self.view().contains_key(path + rest));
    }

    /// A pruned trie that holds no key has no root node left.
    pub proof fn lemma_empty_has_no_root(self)
        requires
            self.wf(),
            self.view() == Map::<Seq<S>, V>::empty(),
        ensures
            !self.has_root(),
    {
        if self.root is Some {
            let r = self.root->Some_0;
            r.lemma_sound_holds_key();
            let q = choose|q: Seq<S>| r.view().contains_key(q);
            assert(self.view().contains_key(q));
        }
    }
}

impl<S: Copy + Eq + Hash, V> Trie<S, V> {
    /// An empty trie, without a root node.
    pub fn new() -> (r: Self)
        ensures
            r.wf(),
            r.view() == Map::<Seq<S>, V>::empty(),
            !r.has_root(),
    {
        Trie { root: None }
    }

    /// The value stored under `key`.
    pub fn get(&self, key: &[S]) -> (r: Option<&V>)
        requires
            obeys_key_model::<S>(),
        ensures
            deref_opt(r) == self.view().get(key@),
    {
        match self.root.as_ref() {
            Some(root) => root.get_at(key),
            None => None,
        }
    }

    /// Stores `value` under `key`, creating the root node if there is none,
    /// and hands back the stored value.
    pub fn try_insert(&mut self, key: &[S], value: V) -> (r: Result<&V, Error>)
        requires
            obeys_key_model::<S>(),
            old(self).wf(),
        ensures
            r matches Ok(v) && *v == value,
            final(self).view() == old(self).view().insert(key@, value),
            final(self).wf(),
    {
        if self.root.is_none() {
            self.root = Some(Node::new());
        }
        match self.root.as_mut() {
            Some(root) => root.insert_at(key, value),
            None => Err(Error::NotFound),
        }
    }

    /// Stores `value` under `key` and hands back the stored value.
    pub fn insert(&mut self, key: &[S], value: V) -> (r: Option<&V>)
        requires
            obeys_key_model::<S>(),
            old(self).wf(),
        ensures
            r matches Some(v) && *v == value,
            final(self).view() == old(self).view().insert(key@, value),
            final(self).wf(),
    {
        match self.try_insert(key, value) {
            Ok(v) => Some(v),
            Err(_) => None,
        }
    }

    /// Takes the value stored under `key` out of the trie, pruning the nodes
    /// that are left empty; the root is unlinked when it is left empty.
    pub fn try_remove(&mut self, key: &[S]) -> (r: Result<V, Error>)
        requires
            obeys_key_model::<S>(),
            old(self).wf(),
        ensures
            old(self).view().contains_key(key@) ==> r == Ok::<V, Error>(old(self).view()[key@]),
            !old(self).view().contains_key(key@) ==> r == Err::<V, Error>(Error::NotFound),
            final(self).view() == old(self).view().remove(key@),
            final(self).wf(),
    {
        let ghost before = *self;
        let out = match self.root.as_mut() {
            None => Err(Error::NotFound),
            Some(root) => match root.remove_at(key) {
                Ok((v, e)) => Ok((v, e)),
                Err(e) => Err(e),
            },
        };
        match out {
            Ok((v, e)) => {
                if e {
                    proof {
                        self.root->Some_0.lemma_empty_view();
                    }
                    self.root = None;
                }
                Ok(v)
            },
            Err(e) => {
                proof {
                    assert(self.view() =~= before.view().remove(key@));
                }
                Err(e)
            },
        }
    }

    /// Takes the value stored under `key` out of the trie.
    pub fn remove(&mut self, key: &[S]) -> (r: Option<V>)
        requires
            obeys_key_model::<S>(),
            old(self).wf(),
        ensures
            r == old(self).view().get(key@),
            final(self).view() == old(self).view().remove(key@),
            final(self).wf(),
    {
        match self.try_remove(key) {
            Ok(v) => Some(v),
            Err(_) => None,
        }
    }

    /// A cursor at the live node that `key` leads to.
    pub fn entry(&self, key: &[S]) -> (r: Option<Entry<'_, S, V>>)
        requires
            obeys_key_model::<S>(),
        ensures
            match r {
                Some(e) => self.reach(key@) == Some(e.node()),
                None => self.reach(key@) is None,
            },
    {
        match self.root.as_ref() {
            Some(root) => match root.find(key) {
                Some(node) => Some(Entry::new(node)),
                None => None,
            },
            None => None,
        }
    }

    /// The values held in the trie, each once, in no particular order.
    pub fn iter(&self) -> (r: Vec<&V>)
        requires
            obeys_key_model::<S>(),
        ensures
            lists_values(self.view(), derefs(r@)),
    {
        match self.root.as_ref() {
            Some(root) => root.iter(),
            None => {
                let out: Vec<&V> = Vec::new();
                proof {
                    assert(derefs(out@) =~= Seq::<V>::empty());
                    assert(lists_with_keys(self.view(), derefs(out@), Seq::<Seq<S>>::empty()));
                }
                out
            },
        }
    }
}

impl<S: Copy + Eq + Hash, V> Default for Trie<S, V> {
    fn default() -> (r: Self)
        ensures
            r.wf(),
            r.view() == Map::<Seq<S>, V>::empty(),
            !r.has_root(),
    {
        Trie::new()
    }
}

} // verus!
