use std::collections::HashMap;
use std::hash::Hash;
use vstd::prelude::*;
use vstd::seq_lib::lemma_no_dup_in_concat;
use vstd::std_specs::hash::{obeys_key_model, spec_hash_map_iter};
use vstd::std_specs::iter::IteratorSpec;

use crate::error::Error;

verus! {

broadcast use vstd::std_specs::hash::group_hash_axioms;

/// One node of the trie: an optional value, the child nodes keyed by the next
/// segment, and the flag that marks the node as retired.
pub struct Node<S, V> {
    value: Option<V>,
    children: HashMap<S, Node<S, V>>,
    deleted: bool,
}

/// The value behind an optional reference.
pub open spec fn deref_opt<V>(r: Option<&V>) -> Option<V> {
    match r {
        Some(v) => Some(*v),
        None => None,
    }
}

/// The values behind a sequence of references.
pub open spec fn derefs<V>(s: Seq<&V>) -> Seq<V> {
    s.map_values(|r: &V| *r)
}

/// `vals` holds the values of `m`, one for each key: `keys` names every key
/// of `m` once and nothing else, in the order of `vals`.
pub open spec fn lists_with_keys<K, V>(m: Map<K, V>, vals: Seq<V>, keys: Seq<K>) -> bool {
    &&& keys.len() == vals.len()
    &&& keys.no_duplicates()
    &&& forall|k: K| #[trigger] m.contains_key(k) <==> keys.contains(k)
    &&& forall|i: int| 0 <= i < keys.len() ==> m[#[trigger] keys[i]] == vals[i]
}

/// `vals` is the multiset of the values of `m`, one for each key, in some
/// order.
pub open spec fn lists_values<K, V>(m: Map<K, V>, vals: Seq<V>) -> bool {
    exists|keys: Seq<K>| lists_with_keys(m, vals, keys)
}

impl<S, V> Node<S, V> {
    /// The node that a reader reaches from this one by following `key`; the
    /// walk stops at a retired node.
    pub closed spec fn reach(self, key: Seq<S>) -> Option<Node<S, V>>
        decreases key.len(),
    {
        if self.deleted {
            None
        } else if key.len() == 0 {
            Some(self)
        } else {
            match self.children@.get(key[0]) {
                Some(c) => c.reach(key.drop_first()),
                None => None,
            }
        }
    }

    /// The value that a reader finds under `key` below this node.
    pub closed spec fn lookup(self, key: Seq<S>) -> Option<V> {
        match self.reach(key) {
            Some(n) => n.value,
            None => None,
        }
    }

    /// The keys below this node and their values.
    pub closed spec fn view(self) -> Map<Seq<S>, V> {
        Map::new(|k: Seq<S>| self.lookup(k) is Some, |k: Seq<S>| self.lookup(k)->Some_0)
    }

    /// The node stored at `path` below this one, retired or not.
    pub closed spec fn node_at(self, path: Seq<S>) -> Option<Node<S, V>>
        decreases path.len(),
    {
        if path.len() == 0 {
            Some(self)
        } else {
            match self.children@.get(path[0]) {
                Some(c) => c.node_at(path.drop_first()),
                None => None,
            }
        }
    }

    /// The node holds no value and has no child.
    pub closed spec fn is_empty(self) -> bool {
        self.value is None && self.children@.is_empty()
    }

    /// The value slot of this node itself.
    pub closed spec fn own_value(self) -> Option<V> {
        self.value
    }

    /// The child nodes by segment.
    pub closed spec fn children_view(self) -> Map<S, Node<S, V>> {
        self.children@
    }

    /// The node has been retired.
    pub closed spec fn is_retired(self) -> bool {
        self.deleted
    }

    /// Pruned: every node strictly below this one is live and holds a value or
    /// a child, so no path of empty nodes hangs from it.
    pub closed spec fn wf(self) -> bool {
        forall|p: Seq<S>|
            #![trigger self.node_at(p)]
            p.len() > 0 && self.node_at(p) is Some ==> {
                let m = self.node_at(p)->Some_0;
                !m.deleted && !m.is_empty()
            }
    }

    /// A live, non-empty, pruned node: what may hang below a pruned node.
    pub closed spec fn sound_child(self) -> bool {
        !self.deleted && !self.is_empty() && self.wf()
    }

    proof fn lemma_wf_child(self, s: S)
        requires
            self.wf(),
            self.children@.contains_key(s),
        ensures
            self.children@[s].sound_child(),
    {
        let c = self.children@[s];
        assert(self.node_at(seq![s]) == Some(c)) by {
            assert(seq![s].drop_first() =~= Seq::<S>::empty());
            assert(c.node_at(Seq::empty()) == Some(c));
        }
        assert forall|p: Seq<S>|
            #![trigger c.node_at(p)]
            p.len() > 0 && c.node_at(p) is Some implies {
                let m = c.node_at(p)->Some_0;
                !m.deleted && !m.is_empty()
            } by {
            let q = seq![s] + p;
            assert(q.drop_first() =~= p);
            assert(self.node_at(q) == c.node_at(p));
        }
    }

    proof fn lemma_wf_intro(self)
        requires
            forall|s: S| #[trigger]
                self.children@.contains_key(s) ==> self.children@[s].sound_child(),
        ensures
            self.wf(),
    {
        assert forall|p: Seq<S>|
            #![trigger self.node_at(p)]
            p.len() > 0 && self.node_at(p) is Some implies {
                let m = self.node_at(p)->Some_0;
                !m.deleted && !m.is_empty()
            } by {
            let c = self.children@[p[0]];
            assert(c.sound_child());
            if p.drop_first().len() > 0 {
                assert(c.node_at(p.drop_first()) is Some);
            }
        }
    }

    /// A live, non-empty, pruned node holds at least one key: no subtree of
    /// a pruned trie is made of empty nodes alone.
    pub proof fn lemma_sound_holds_key(self)
        requires
            !self.is_retired(),
            !self.is_empty(),
            self.wf(),
        ensures
            exists|q: Seq<S>| self.view().contains_key(q),
        decreases self,
    {
        if self.value is Some {
            assert(self.view().contains_key(Seq::empty()));
        } else {
            assert(self.children@.dom() != Set::<S>::empty()) by {
                if self.children@.dom() == Set::<S>::empty() {
                    assert(self.children@ =~= Map::<S, Node<S, V>>::empty());
                }
            }
            let s = self.children@.dom().choose();
            assert(self.children@.dom().contains(s));
            let c = self.children@[s];
            self.lemma_wf_child(s);
            assert(decreases_to!(self => c)) by {
                assert(decreases_to!(self => self.children));
                assert(decreases_to!(self.children => self.children@));
                assert(decreases_to!(self.children@ => self.children@[s]));
            }
            c.lemma_sound_holds_key();
            let q = choose|q: Seq<S>| c.view().contains_key(q);
            let k = seq![s] + q;
            assert(k.drop_first() =~= q);
            assert(self.lookup(k) == c.lookup(q));
            assert(self.view().contains_key(k));
        }
    }

    /// Every node below a live, non-empty, pruned node is one too.
    pub proof fn lemma_sound_at(self, path: Seq<S>)
        requires
            !self.is_retired(),
            !self.is_empty(),
            self.wf(),
            self.node_at(path) is Some,
        ensures
            !self.node_at(path)->Some_0.is_retired(),
            !self.node_at(path)->Some_0.is_empty(),
            self.node_at(path)->Some_0.wf(),
        decreases path.len(),
    {
        if path.len() > 0 {
            let c = self.children@[path[0]];
            self.lemma_wf_child(path[0]);
            c.lemma_sound_at(path.drop_first());
        }
    }

    /// Below a live, pruned node, a key that passes through the node at
    /// `path` is looked up in that node.
    pub proof fn lemma_lookup_along(self, path: Seq<S>, rest: Seq<S>)
        requires
            !self.is_retired(),
            self.wf(),
            self.node_at(path) is Some,
        ensures
            self.view().get(path + rest) == self.node_at(path)->Some_0.view().get(rest),
        decreases path.len(),
    {
        let m = self.node_at(path)->Some_0;
        assert(self.view().contains_key(path + rest) == (self.lookup(path + rest) is Some));
        assert(m.view().contains_key(rest) == (m.lookup(rest) is Some));
        if path.len() == 0 {
            assert(path + rest =~= rest);
        } else {
            let s = path[0];
            let c = self.children@[s];
            self.lemma_wf_child(s);
            assert((path + rest).drop_first() =~= path.drop_first() + rest);
            c.lemma_lookup_along(path.drop_first(), rest);
            assert(c.view().contains_key(path.drop_first() + rest) == (c.lookup(
                path.drop_first() + rest,
            ) is Some));
        }
    }

    /// Two live nodes with the same value whose children agree off segment
    /// `s` agree on every key that does not start with `s`.
    proof fn lemma_lookup_off_segment(self, other: Self, s: S)
        requires
            !self.deleted,
            !other.deleted,
            self.value == other.value,
            forall|t: S| t != s ==> #[trigger] self.children@.get(t) == other.children@.get(t),
        ensures
            forall|k: Seq<S>|
                (k.len() == 0 || k[0] != s) ==> #[trigger] self.lookup(k) == other.lookup(k),
    {
        assert forall|k: Seq<S>| (k.len() == 0 || k[0] != s) implies #[trigger] self.lookup(k)
            == other.lookup(k) by {
            if k.len() > 0 {
                assert(self.children@.get(k[0]) == other.children@.get(k[0]));
            }
        }
    }

    /// On a live node, a key that starts with `s` is looked up in the child
    /// under `s`.
    proof fn lemma_lookup_through(self, s: S)
        requires
            !self.deleted,
        ensures
            forall|k: Seq<S>|
                k.len() > 0 && k[0] == s ==> #[trigger] self.lookup(k) == match self.children@.get(
                    s,
                ) {
                    Some(c) => c.lookup(k.drop_first()),
                    None => None,
                },
    {
    }

    /// A retired node, or one with neither value nor child, holds no key.
    pub proof fn lemma_empty_view(self)
        requires
            self.is_retired() || self.is_empty(),
        ensures
            self.view() =~= Map::<Seq<S>, V>::empty(),
    {
        assert forall|k: Seq<S>| !(#[trigger] self.view().contains_key(k)) by {
            if k.len() > 0 && !self.deleted {
                assert(!self.children@.contains_key(k[0]));
            }
        }
    }
}

impl<S: Copy + Eq + Hash, V> Node<S, V> {
    /// A live node with no value and no child.
    pub fn new() -> (r: Self)
        ensures
            !r.is_retired(),
            r.is_empty(),
            r.wf(),
            r.view() == Map::<Seq<S>, V>::empty(),
    {
        let r = Node { value: None, children: HashMap::new(), deleted: false };
        proof {
            r.lemma_wf_intro();
            r.lemma_empty_view();
        }
        r
    }

    /// The node has been retired by a removal.
    pub fn is_removed(&self) -> (r: bool)
        ensures
            r == self.is_retired(),
    {
        self.deleted
    }

    /// The value held at this node itself; nothing once it is retired.
    pub fn get(&self) -> (r: Option<&V>)
        ensures
            deref_opt(r) == self.view().get(Seq::<S>::empty()),
    {
        proof {
            assert(self.view().contains_key(Seq::empty()) == (self.lookup(Seq::empty()) is Some));
        }
        if self.deleted {
            None
        } else {
            self.value.as_ref()
        }
    }

    /// The child under segment `seg`, provided this node is live.
    pub fn child(&self, seg: &S) -> (r: Option<&Node<S, V>>)
        requires
            obeys_key_model::<S>(),
        ensures
            deref_opt(r) == if self.is_retired() {
                None
            } else {
                self.children_view().get(*seg)
            },
    {
        if self.deleted {
            return None;
        }
        self.children.get(seg)
    }

    /// The live node that `key` leads to.
    pub fn find(&self, key: &[S]) -> (r: Option<&Node<S, V>>)
        requires
            obeys_key_model::<S>(),
        ensures
            deref_opt(r) == self.reach(key@),
    {
        let mut node = self;
        let mut i: usize = 0;
        assert(key@.subrange(0, key@.len() as int) =~= key@);
        while i < key.len()
            invariant
                obeys_key_model::<S>(),
                i <= key@.len(),
                self.reach(key@) == node.reach(key@.subrange(i as int, key@.len() as int)),
            decreases key@.len() - i,
        {
            let ghost rest = key@.subrange(i as int, key@.len() as int);
            assert(rest.drop_first() =~= key@.subrange(i + 1, key@.len() as int));
            if node.deleted {
                return None;
            }
            match node.children.get(&key[i]) {
                Some(c) => {
                    node = c;
                },
                None => {
                    return None;
                },
            }
            i = i + 1;
        }
        if node.deleted {
            return None;
        }
        assert(key@.subrange(i as int, key@.len() as int) =~= Seq::<S>::empty());
        Some(node)
    }

    /// The value stored under `key` below this node.
    pub fn get_at(&self, key: &[S]) -> (r: Option<&V>)
        requires
            obeys_key_model::<S>(),
        ensures
            deref_opt(r) == self.view().get(key@),
    {
        proof {
            assert(self.view().contains_key(key@) == (self.lookup(key@) is Some));
        }
        match self.find(key) {
            Some(n) => n.value.as_ref(),
            None => None,
        }
    }

    /// Stores `value` at this node itself, replacing the value it held.
    pub fn insert(&mut self, value: V) -> (r: Result<&V, Error>)
        ensures
            old(self).is_retired() ==> r == Err::<&V, Error>(Error::Retry) && *final(self) == *old(
                self,
            ),
            !old(self).is_retired() ==> {
                &&& r matches Ok(v) && *v == value
                &&& final(self).view() == old(self).view().insert(Seq::empty(), value)
                &&& final(self).children_view() == old(self).children_view()
                &&& !final(self).is_retired()
                &&& !final(self).is_empty()
                &&& (old(self).wf() ==> final(self).wf())
            },
    {
        if self.deleted {
            return Err(Error::Retry);
        }
        let ghost before = *self;
        self.value = Some(value);
        proof {
            assert(self.view() =~= before.view().insert(Seq::empty(), value)) by {
                assert forall|k: Seq<S>| #[trigger]
                    self.lookup(k) == before.view().insert(Seq::empty(), value).get(k) by {
                    if k.len() > 0 {
                        assert(self.children@.get(k[0]) == before.children@.get(k[0]));
                    } else {
                        assert(k =~= Seq::<S>::empty());
                    }
                }
            }
            assert forall|p: Seq<S>| p.len() > 0 implies #[trigger] self.node_at(p)
                == before.node_at(p) by {
                assert(self.children@.get(p[0]) == before.children@.get(p[0]));
            }
        }
        match self.value.as_ref() {
            Some(v) => Ok(v),
            None => Err(Error::NotFound),
        }
    }

    /// Stores `value` under `key` below this node, creating the nodes on the
    /// path that are missing, and hands back the stored value.
    pub fn insert_at(&mut self, key: &[S], value: V) -> (r: Result<&V, Error>)
        requires
            obeys_key_model::<S>(),
            old(self).wf(),
        ensures
            old(self).is_retired() ==> r == Err::<&V, Error>(Error::Retry) && *final(self) == *old(
                self,
            ),
            !old(self).is_retired() ==> {
                &&& r matches Ok(v) && *v == value
                &&& final(self).view() == old(self).view().insert(key@, value)
                &&& !final(self).is_retired()
                &&& !final(self).is_empty()
                &&& final(self).wf()
            },
    {
        match self.insert_path(key, value) {
            Err(e) => Err(e),
            Ok(()) => match self.get_at(key) {
                Some(v) => Ok(v),
                None => Err(Error::NotFound),
            },
        }
    }

    fn insert_path(&mut self, key: &[S], value: V) -> (r: Result<(), Error>)
        requires
            obeys_key_model::<S>(),
            old(self).wf(),
        ensures
            old(self).is_retired() ==> r == Err::<(), Error>(Error::Retry) && *final(self) == *old(
                self,
            ),
            !old(self).is_retired() ==> {
                &&& r is Ok
                &&& final(self).view() == old(self).view().insert(key@, value)
                &&& !final(self).is_retired()
                &&& !final(self).is_empty()
                &&& final(self).wf()
            },
        decreases key@.len(),
    {
        if self.deleted {
            return Err(Error::Retry);
        }
        if key.len() == 0 {
            assert(key@ =~= Seq::<S>::empty());
            return match self.insert(value) {
                Ok(_) => Ok(()),
                Err(e) => Err(e),
            };
        }
        let ghost before = *self;
        let seg = key[0];
        let (_, rest) = key.split_at(1);
        proof {
            assert(rest@ =~= key@.drop_first());
            if before.children@.contains_key(seg) {
                before.lemma_wf_child(seg);
            }
        }
        let mut child = match self.children.remove(&seg) {
            Some(c) => c,
            None => Node::new(),
        };
        let ghost c0 = child;
        let r = child.insert_path(rest, value);
        self.children.insert(seg, child);
        proof {
            let after = *self;
            let c1 = child;
            assert(after.children@ =~= before.children@.insert(seg, c1));
            before.lemma_lookup_off_segment(after, seg);
            before.lemma_lookup_through(seg);
            after.lemma_lookup_through(seg);
            if !before.children@.contains_key(seg) {
                c0.lemma_empty_view();
            }
            assert(after.view() =~= before.view().insert(key@, value)) by {
                assert forall|q: Seq<S>| q.len() > 0 && q[0] == seg implies #[trigger] after.lookup(
                    q,
                ) == before.view().insert(key@, value).get(q) by {
                    assert(after.lookup(q) == c1.lookup(q.drop_first()));
                    assert(c1.view().get(q.drop_first()) == c0.view().insert(rest@, value).get(
                        q.drop_first(),
                    ));
                    if q != key@ {
                        assert(q.drop_first() != rest@) by {
                            if q.drop_first() == rest@ {
                                assert(q =~= seq![q[0]] + q.drop_first());
                                assert(key@ =~= seq![key@[0]] + key@.drop_first());
                            }
                        }
                    }
                }
            }
            assert forall|t: S| #[trigger]
                after.children@.contains_key(t) implies after.children@[t].sound_child() by {
                if t != seg {
                    before.lemma_wf_child(t);
                }
            }
            after.lemma_wf_intro();
        }
        r
    }

    /// Takes the value held at this node itself. The node retires when it is
    /// left with neither value nor child; the flag says whether it did.
    pub fn remove(&mut self) -> (r: Result<(V, bool), Error>)
        ensures
            (old(self).is_retired() || old(self).own_value() is None) ==> r == Err::<(V, bool), Error>(
                Error::NotFound,
            ) && *final(self) == *old(self),
            !old(self).is_retired() && old(self).own_value() is Some ==> match r {
                Ok((v, e)) => {
                    &&& v == old(self).own_value()->Some_0
                    &&& e == old(self).children_view().is_empty()
                    &&& e == final(self).is_retired()
                    &&& e == final(self).is_empty()
                    &&& final(self).own_value() is None
                    &&& final(self).children_view() == old(self).children_view()
                    &&& final(self).view() == old(self).view().remove(Seq::empty())
                    &&& (old(self).wf() ==> final(self).wf())
                },
                Err(_) => false,
            },
    {
        if self.deleted {
            return Err(Error::NotFound);
        }
        let ghost before = *self;
        match self.value.take() {
            None => Err(Error::NotFound),
            Some(v) => {
                let ghost mid = *self;
                let e = self.children.is_empty();
                if e {
                    self.deleted = true;
                }
                proof {
                    assert forall|p: Seq<S>| p.len() > 0 implies #[trigger] self.node_at(p)
                        == before.node_at(p) by {
                        assert(self.children@.get(p[0]) == before.children@.get(p[0]));
                    }
                    assert(mid.view() =~= before.view().remove(Seq::empty())) by {
                        assert forall|k: Seq<S>| #[trigger]
                            mid.lookup(k) == before.view().remove(Seq::empty()).get(k) by {
                            if k.len() > 0 {
                                assert(mid.children@.get(k[0]) == before.children@.get(k[0]));
                            } else {
                                assert(k =~= Seq::<S>::empty());
                            }
                        }
                    }
                    if e {
                        mid.lemma_empty_view();
                        self.lemma_empty_view();
                    }
                }
                Ok((v, e))
            },
        }
    }

    /// Removes the value stored under `key` below this node. Each node on the
    /// path that is left with neither value nor child is retired and unlinked
    /// from its parent as the removal returns; the flag says whether this node
    /// itself retired.
    pub fn remove_at(&mut self, key: &[S]) -> (r: Result<(V, bool), Error>)
        requires
            obeys_key_model::<S>(),
            old(self).wf(),
        ensures
            old(self).is_retired() ==> *final(self) == *old(self) && r == Err::<(V, bool), Error>(
                if key@.len() == 0 {
                    Error::NotFound
                } else {
                    Error::Retry
                },
            ),
            !old(self).is_retired() && !old(self).view().contains_key(key@) ==> {
                &&& r == Err::<(V, bool), Error>(Error::NotFound)
                &&& final(self).view() == old(self).view()
                &&& !final(self).is_retired()
                &&& final(self).is_empty() == old(self).is_empty()
                &&& final(self).wf()
            },
            !old(self).is_retired() && old(self).view().contains_key(key@) ==> match r {
                Ok((v, e)) => {
                    &&& v == old(self).view()[key@]
                    &&& e == final(self).is_retired()
                    &&& e == final(self).is_empty()
                    &&& final(self).view() == old(self).view().remove(key@)
                    &&& final(self).wf()
                },
                Err(_) => false,
            },
        decreases key@.len(),
    {
        if key.len() == 0 {
            proof {
                assert(key@ =~= Seq::<S>::empty());
                assert(self.view().contains_key(Seq::empty()) == (self.lookup(Seq::empty()) is Some));
            }
            return self.remove();
        }
        if self.deleted {
            return Err(Error::Retry);
        }
        let ghost before = *self;
        let seg = key[0];
        let (_, rest) = key.split_at(1);
        proof {
            assert(rest@ =~= key@.drop_first());
            before.lemma_lookup_through(seg);
            assert(before.view().contains_key(key@) == (before.lookup(key@) is Some));
        }
        let mut child = match self.children.remove(&seg) {
            Some(c) => c,
            None => {
                proof {
                    let after = *self;
                    assert(after.children@ =~= before.children@);
                    before.lemma_lookup_off_segment(after, seg);
                    after.lemma_lookup_through(seg);
                    assert(after.view() =~= before.view());
                    assert forall|p: Seq<S>| p.len() > 0 implies #[trigger] after.node_at(p)
                        == before.node_at(p) by {
                        assert(after.children@.get(p[0]) == before.children@.get(p[0]));
                    }
                }
                return Err(Error::NotFound);
            },
        };
        let ghost c0 = child;
        proof {
            before.lemma_wf_child(seg);
            assert(c0.view().contains_key(rest@) == (c0.lookup(rest@) is Some));
        }
        match child.remove_at(rest) {
            Err(e) => {
                self.children.insert(seg, child);
                proof {
                    let after = *self;
                    assert(after.children@ =~= before.children@.insert(seg, child));
                    before.lemma_lookup_off_segment(after, seg);
                    after.lemma_lookup_through(seg);
                    assert(after.view() =~= before.view()) by {
                        assert forall|q: Seq<S>| #[trigger]
                            after.lookup(q) == before.lookup(q) by {
                            if q.len() > 0 && q[0] == seg {
                                assert(child.view().get(q.drop_first()) == c0.view().get(
                                    q.drop_first(),
                                ));
                            }
                        }
                    }
                    assert forall|t: S| #[trigger]
                        after.children@.contains_key(t) implies after.children@[t].sound_child() by {
                        if t != seg {
                            before.lemma_wf_child(t);
                        }
                    }
                    after.lemma_wf_intro();
                }
                Err(e)
            },
            Ok((v, child_empty)) => {
                if !child_empty {
                    self.children.insert(seg, child);
                }
                let ghost mid = *self;
                proof {
                    if child_empty {
                        assert(mid.children@ =~= before.children@.remove(seg));
                        child.lemma_empty_view();
                    } else {
                        assert(mid.children@ =~= before.children@.insert(seg, child));
                    }
                    before.lemma_lookup_off_segment(mid, seg);
                    mid.lemma_lookup_through(seg);
                    assert(mid.view() =~= before.view().remove(key@)) by {
                        assert forall|q: Seq<S>| #[trigger]
                            mid.lookup(q) == before.view().remove(key@).get(q) by {
                            if q.len() > 0 && q[0] == seg {
                                assert(child.view().get(q.drop_first()) == c0.view().remove(
                                    rest@,
                                ).get(q.drop_first()));
                                if q != key@ {
                                    assert(q.drop_first() != rest@) by {
                                        if q.drop_first() == rest@ {
                                            assert(q =~= seq![q[0]] + q.drop_first());
                                            assert(key@ =~= seq![key@[0]] + key@.drop_first());
                                        }
                                    }
                                }
                            }
                        }
                    }
                    assert forall|t: S| #[trigger]
                        mid.children@.contains_key(t) implies mid.children@[t].sound_child() by {
                        if t != seg {
                            before.lemma_wf_child(t);
                        }
                    }
                    mid.lemma_wf_intro();
                }
                if self.deleted {
                    return Ok((v, false));
                }
                let self_empty = self.children.is_empty() && self.value.is_none();
                if self_empty {
                    self.deleted = true;
                    proof {
                        mid.lemma_empty_view();
                        self.lemma_empty_view();
                        self.lemma_wf_intro();
                    }
                }
                Ok((v, self_empty))
            },
        }
    }

    /// The values held in the subtree of this node, each once, in no
    /// particular order.
    pub fn iter(&self) -> (r: Vec<&V>)
        requires
            obeys_key_model::<S>(),
        ensures
            lists_values(self.view(), derefs(r@)),
    {
        let (out, _keys) = self.collect_values();
        out
    }

    fn collect_values(&self) -> (r: (Vec<&V>, Ghost<Seq<Seq<S>>>))
        requires
            obeys_key_model::<S>(),
        ensures
            lists_with_keys(self.view(), derefs(r.0@), r.1@),
        decreases self,
    {
        let mut out: Vec<&V> = Vec::new();
        let ghost mut keys: Seq<Seq<S>> = Seq::empty();
        if self.deleted {
            proof {
                self.lemma_empty_view();
                assert(derefs(out@) =~= Seq::<V>::empty());
            }
            return (out, Ghost(keys));
        }
        match self.value.as_ref() {
            Some(v) => {
                out.push(v);
                proof {
                    keys = seq![Seq::<S>::empty()];
                }
            },
            None => {},
        }
        proof {
            assert forall|k: Seq<S>| #[trigger]
                keys.contains(k) <==> (self.view().contains_key(k) && k.len() == 0) by {
                if k.len() == 0 {
                    assert(k =~= Seq::<S>::empty());
                }
                assert(self.view().contains_key(k) == (self.lookup(k) is Some));
                if keys.contains(k) {
                    assert(keys[0] == k);
                }
            }
            assert forall|i: int| 0 <= i < keys.len() implies self.view()[#[trigger] keys[i]] == derefs(out@)[i] by {
                assert(self.view().contains_key(keys[i]) == (self.lookup(keys[i]) is Some));
            }
        }
        let iter = self.children.iter();
        let ghost entries = iter.remaining();
        proof {
            assert forall|i: int, j: int|
                0 <= i < entries.len() && 0 <= j < entries.len() && i != j implies *entries[i].0
                != *entries[j].0 by {
                if *entries[i].0 == *entries[j].0 {
                    assert(self.children@.contains_key(*entries[i].0));
                    assert(self.children@.contains_key(*entries[j].0));
                    assert(entries[i] == entries[j]);
                }
            }
        }
        for e in it: iter
            invariant
                obeys_key_model::<S>(),
                !self.deleted,
                it.seq() == entries,
                entries == spec_hash_map_iter(&self.children).remaining(),
                forall|i: int, j: int|
                    0 <= i < entries.len() && 0 <= j < entries.len() && i != j ==> *entries[i].0
                        != *entries[j].0,
                keys.len() == out@.len(),
                keys.no_duplicates(),
                forall|k: Seq<S>| #[trigger]
                    keys.contains(k) <==> (self.view().contains_key(k) && (k.len() == 0 || exists|
                        j: int,
                    | 0 <= j < it.index() && *entries[j].0 == k[0])),
                forall|i: int| 0 <= i < keys.len() ==> self.view()[#[trigger] keys[i]] == derefs(out@)[i],
        {
            let (seg, child) = e;
            let ghost idx = it.index();
            proof {
                assert(e == entries[idx]);
                assert(self.children@.contains_key(*seg) && self.children@[*seg] == *child);
                assert(decreases_to!(self => *child)) by {
                    assert(decreases_to!(self => self.children));
                    assert(decreases_to!(self.children => self.children@));
                    assert(decreases_to!(self.children@ => self.children@[*seg]));
                }
            }
            let (mut cv, Ghost(cks)) = child.collect_values();
            let ghost s0 = *seg;
            let ghost c = *child;
            let ghost pre = cks.map_values(|q: Seq<S>| seq![s0] + q);
            proof {
                self.lemma_lookup_through(s0);
                assert forall|a: Seq<S>, b: Seq<S>| #[trigger] (seq![s0] + a) == #[trigger] (seq![s0] + b) implies a == b by {
                    assert((seq![s0] + a).drop_first() =~= a);
                    assert((seq![s0] + b).drop_first() =~= b);
                }
                cks.lemma_no_duplicates_injective(|q: Seq<S>| seq![s0] + q);
                assert forall|i: int, j: int| 0 <= i < keys.len() && 0 <= j < pre.len() implies keys[i] != pre[j] by {
                    let k = keys[i];
                    assert(keys.contains(k));
                    assert(pre[j][0] == s0);
                    if k == pre[j] {
                        let jj = choose|jj: int| 0 <= jj < idx && *entries[jj].0 == k[0];
                        assert(*entries[jj].0 != *entries[idx].0);
                    }
                }
                lemma_no_dup_in_concat(keys, pre);
                assert forall|q: Seq<S>| #[trigger] pre.contains(q) <==> (self.view().contains_key(q) && q.len() > 0 && q[0] == s0) by {
                    assert(self.view().contains_key(q) == (self.lookup(q) is Some));
                    if pre.contains(q) {
                        let j = choose|j: int| 0 <= j < pre.len() && pre[j] == q;
                        assert(cks.contains(cks[j]));
                        assert(q.drop_first() =~= cks[j]);
                        assert(c.view().contains_key(cks[j]) == (c.lookup(cks[j]) is Some));
                    }
                    if self.view().contains_key(q) && q.len() > 0 && q[0] == s0 {
                        assert(c.view().contains_key(q.drop_first()) == (c.lookup(q.drop_first()) is Some));
                        assert(cks.contains(q.drop_first()));
                        let j = choose|j: int| 0 <= j < cks.len() && cks[j] == q.drop_first();
                        assert(q =~= seq![s0] + q.drop_first());
                        assert(pre[j] == q);
                    }
                }
                assert forall|i: int| 0 <= i < pre.len() implies self.view()[#[trigger] pre[i]] == derefs(cv@)[i] by {
                    let q = pre[i];
                    assert(q.drop_first() =~= cks[i]);
                    assert(cks.contains(cks[i]));
                    assert(c.view().contains_key(cks[i]) == (c.lookup(cks[i]) is Some));
                    assert(self.view().contains_key(q) == (self.lookup(q) is Some));
                }
            }
            let ghost old_out = out@;
            let ghost cv_vals = cv@;
            out.append(&mut cv);
            proof {
                let old_keys = keys;
                keys = keys + pre;
                assert(derefs(out@) =~= derefs(old_out) + derefs(cv_vals));
                assert forall|k: Seq<S>| #[trigger]
                    keys.contains(k) <==> (self.view().contains_key(k) && (k.len() == 0 || exists|
                        j: int,
                    | 0 <= j < idx + 1 && *entries[j].0 == k[0])) by {
                    if keys.contains(k) {
                        let i = choose|i: int| 0 <= i < keys.len() && keys[i] == k;
                        if i < old_keys.len() {
                            assert(old_keys.contains(k));
                        } else {
                            assert(pre.contains(pre[i - old_keys.len()]));
                        }
                    }
                    if self.view().contains_key(k) && k.len() > 0 && *entries[idx].0 == k[0] {
                        assert(pre.contains(k));
                        let j = choose|j: int| 0 <= j < pre.len() && pre[j] == k;
                        assert(keys[old_keys.len() + j] == k);
                    }
                    if self.view().contains_key(k) && (k.len() == 0 || exists|j: int| 0 <= j < idx && *entries[j].0 == k[0]) {
                        assert(old_keys.contains(k));
                        let j = choose|j: int| 0 <= j < old_keys.len() && old_keys[j] == k;
                        assert(keys[j] == k);
                    }
                }
                assert forall|i: int| 0 <= i < keys.len() implies self.view()[#[trigger] keys[i]] == derefs(out@)[i] by {
                    if i >= old_keys.len() {
                        assert(keys[i] == pre[i - old_keys.len()]);
                    }
                }
            }
        }
        proof {
            assert forall|k: Seq<S>| #[trigger] self.view().contains_key(k) <==> keys.contains(k) by {
                if self.view().contains_key(k) && k.len() > 0 {
                    assert(self.view().contains_key(k) == (self.lookup(k) is Some));
                    assert(self.children@.contains_key(k[0]));
                    assert(entries.contains((&k[0], &self.children@[k[0]])));
                    let j = choose|j: int| 0 <= j < entries.len() && entries[j] == (&k[0], &self.children@[k[0]]);
                    assert(*entries[j].0 == k[0]);
                }
            }
        }
        (out, Ghost(keys))
    }
}

impl<S: Copy + Eq + Hash, V> Default for Node<S, V> {
    fn default() -> (r: Self)
        ensures
            !r.is_retired(),
            r.is_empty(),
            r.wf(),
            r.view() == Map::<Seq<S>, V>::empty(),
    {
        Node::new()
    }
}

} // verus!
