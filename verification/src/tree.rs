//! The ordered map: one root subtree behind the map's operations.

use vstd::prelude::*;
use crate::entries::{
    ascending, entry_of, holds, keys_of, lemma_empty, value_of, with_entry, without,
};
use crate::node::NodeRef;
use crate::order::{total_order, Probe};

verus! {

/// A map from keys to values, ordered by key, that finds, inserts and removes
/// an entry, and finds the entry of a given rank, in time logarithmic in its
/// size while it is balanced.
pub struct AVLTreeMap<K: Ord, V> {
    root: NodeRef<K, V>,
}

impl<K: Ord, V> View for AVLTreeMap<K, V> {
    type V = Seq<(K, V)>;

    /// The entries of the map in ascending order of their keys.
    closed spec fn view(&self) -> Seq<(K, V)> {
        self.root@
    }
}

impl<K: Ord, V> AVLTreeMap<K, V> {
    /// The tree is a search tree that records its true sizes and heights.
    /// This holds of every map.
    #[verifier::type_invariant]
    pub closed spec fn wf(self) -> bool {
        self.root.wf()
    }

    /// The root subtree.
    pub closed spec fn tree(self) -> NodeRef<K, V> {
        self.root
    }

    /// At every node of the tree the two children differ in height by at
    /// most one.
    pub open spec fn balanced(self) -> bool {
        self.tree().balanced()
    }

    /// The view of a map is the in-order traversal of its tree, and a
    /// map whose tree is well-formed has its keys in ascending order.
    pub proof fn lemma_view(self)
        ensures
            self@ == self.tree()@,
            self.wf() == self.tree().wf(),
            self.wf() ==> ascending(self@),
    {
        if self.wf() {
            self.root.lemma_ascending();
        }
    }

    /// The empty map.
    pub fn new() -> (res: Self)
        ensures
            res@ == Seq::<(K, V)>::empty(),
            res.tree() is Nil,
    {
        proof {
            lemma_empty::<K, V>(arbitrary(), arbitrary());
        }
        AVLTreeMap { root: NodeRef::Nil }
    }

    /// The number of entries.
    pub fn len(&self) -> (res: usize)
        ensures
            res == self@.len(),
    {
        proof {
            use_type_invariant(self);
        }
        self.root.size()
    }

    /// Whether the map has no entry.
    pub fn is_empty(&self) -> (res: bool)
        ensures
            res == (self@.len() == 0),
    {
        self.len() == 0
    }

    /// The value bound to `key`.
    pub fn get<Q: Probe<K> + ?Sized>(&self, key: &Q) -> (res: Option<&V>)
        requires
            total_order::<K>(),
        ensures
            res == match value_of(self@, key.stands_for()) {
                Some(v) => Some(&v),
                None => None,
            },
    {
        proof {
            use_type_invariant(self);
        }
        self.root.get(key).val()
    }

    /// The entry for `key`.
    pub fn get_key_value<Q: Probe<K> + ?Sized>(&self, key: &Q) -> (res: Option<(&K, &V)>)
        requires
            total_order::<K>(),
        ensures
            res == match entry_of(self@, key.stands_for()) {
                Some(e) => Some((&e.0, &e.1)),
                None => None,
            },
    {
        proof {
            use_type_invariant(self);
        }
        self.root.get(key).entry()
    }

    /// Whether the map has an entry for `key`.
    pub fn contains_key<Q: Probe<K> + ?Sized>(&self, key: &Q) -> (res: bool)
        requires
            total_order::<K>(),
        ensures
            res == holds(self@, key.stands_for()),
    {
        proof {
            use_type_invariant(self);
        }
        !self.root.get(key).is_nil()
    }

    /// Binds `key` to `val` and returns the value that `key` was bound to
    /// before.
    pub fn insert(&mut self, key: K, val: V) -> (res: Option<V>)
        requires
            total_order::<K>(),
            old(self)@.len() < usize::MAX,
        ensures
            final(self)@ == with_entry(old(self)@, key, val),
            res == value_of(old(self)@, key),
            final(self)@.len() == old(self)@.len() + if holds(old(self)@, key) {
                0int
            } else {
                1int
            },
            holds(old(self)@, key) ==> keys_of(final(self)@) == keys_of(old(self)@),
            entry_of(final(self)@, key) == Some((key, val)),
            final(self).tree() == old(self).tree().inserted(key, val),
            old(self).balanced() ==> final(self).balanced(),
    {
        proof {
            use_type_invariant(&*self);
            lemma_empty::<K, V>(arbitrary(), arbitrary());
        }
        let (root, old_val) = self.root.take().insert(key, val);
        self.root = root;
        old_val
    }

    /// The entry at position `k` in ascending order of the keys; nothing
    /// where the map has no more than `k` entries.
    pub fn nth_key_value(&self, k: usize) -> (res: Option<(&K, &V)>)
        ensures
            res == if k < self@.len() {
                Some((&self@[k as int].0, &self@[k as int].1))
            } else {
                None
            },
    {
        proof {
            use_type_invariant(self);
        }
        self.root.get_nth(k).entry()
    }

    /// Removes the entry for `key` and returns its value.
    pub fn remove<Q: Probe<K> + ?Sized>(&mut self, key: &Q) -> (res: Option<V>)
        requires
            total_order::<K>(),
        ensures
            final(self)@ == without(old(self)@, key.stands_for()),
            res == value_of(old(self)@, key.stands_for()),
            final(self)@.len() == old(self)@.len() - if holds(old(self)@, key.stands_for()) {
                1int
            } else {
                0int
            },
            !holds(final(self)@, key.stands_for()),
            !holds(old(self)@, key.stands_for()) ==> final(self)@ == old(self)@,
            final(self).tree() == old(self).tree().removed(key.stands_for()),
            old(self).balanced() ==> (final(self).balanced() <==> !old(self).tree().remove_ties(
                key.stands_for(),
            )),
    {
        match self.remove_entry(key) {
            Some((_, val)) => Some(val),
            None => None,
        }
    }

    /// Removes the entry for `key` and returns it.
    pub fn remove_entry<Q: Probe<K> + ?Sized>(&mut self, key: &Q) -> (res: Option<(K, V)>)
        requires
            total_order::<K>(),
        ensures
            final(self)@ == without(old(self)@, key.stands_for()),
            res == entry_of(old(self)@, key.stands_for()),
            final(self)@.len() == old(self)@.len() - if holds(old(self)@, key.stands_for()) {
                1int
            } else {
                0int
            },
            !holds(final(self)@, key.stands_for()),
            !holds(old(self)@, key.stands_for()) ==> final(self)@ == old(self)@,
            final(self).tree() == old(self).tree().removed(key.stands_for()),
            old(self).balanced() ==> (final(self).balanced() <==> !old(self).tree().remove_ties(
                key.stands_for(),
            )),
    {
        proof {
            use_type_invariant(&*self);
            lemma_empty::<K, V>(arbitrary(), arbitrary());
        }
        let (root, old_entry) = self.root.take().remove(key);
        self.root = root;
        old_entry
    }
}

impl<K: Ord, V> Default for AVLTreeMap<K, V> {
    /// The empty map.
    fn default() -> (res: Self)
        ensures
            res@ == Seq::<(K, V)>::empty(),
    {
        Self::new()
    }
}

} // verus!
