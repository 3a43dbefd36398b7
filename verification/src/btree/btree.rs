use vstd::prelude::*;

use super::lemmas::{lemma_grow_root, lemma_inserted};
use super::node::{halved, inserted, placed, split_of, Node};
use super::order::total_order;

verus! {

/// An ordered index from keys to values: a tree of nodes, all leaves at the
/// same depth, that grows at the root when the root splits.
///
/// Storing a value for a key that the tree already holds replaces the value
/// that was stored for it.
pub struct Btree<K, V> {
    pub root: Node<K, V>,
    pub size: usize,
}

impl<K: PartialOrd, V> View for Btree<K, V> {
    type V = Map<K, V>;

    /// The keys that the tree stores, each with its value.
    open spec fn view(&self) -> Map<K, V> {
        Map::new(|k: K| self.root.lookup(k) is Some, |k: K| self.root.lookup(k)->Some_0)
    }
}

impl<K: PartialOrd, V> Btree<K, V> {
    /// The tree's nodes are well formed and `size` counts the stored keys.
    pub open spec fn wf(self) -> bool {
        &&& self.root.wf()
        &&& self.size == self.root.count()
    }

    /// The number of inner nodes between the root and a leaf, the root counted.
    pub open spec fn height(self) -> nat {
        self.root.height()
    }
}

impl<K: Copy + PartialEq + PartialOrd, V> Btree<K, V> {
    /// An empty tree whose root is a leaf of the fixed capacity.
    pub fn new() -> (tree: Self)
        ensures
            tree.wf(),
            tree@ == Map::<K, V>::empty(),
            tree.size == 0,
            tree.height() == 0,
            tree.root is Leaf,
            tree.root->cap == super::node::NODE_CAPACITY,
    {
        let tree = Self { root: Node::leaf(), size: 0 };
        assert(tree@ =~= Map::<K, V>::empty());
        tree
    }

    /// An empty tree whose root leaf splits once it holds `capacity` keys and
    /// takes one more; a `capacity` above the fixed capacity counts as that.
    pub fn with_capacity(capacity: usize) -> (tree: Self)
        ensures
            tree.wf(),
            tree@ == Map::<K, V>::empty(),
            tree.size == 0,
            tree.height() == 0,
            tree.root is Leaf,
            tree.root->cap == if capacity <= super::node::NODE_CAPACITY {
                capacity
            } else {
                super::node::NODE_CAPACITY
            },
    {
        let tree = Self { root: Node::leaf_with_cap(capacity), size: 0 };
        assert(tree@ =~= Map::<K, V>::empty());
        tree
    }

    /// The number of keys that the tree stores.
    pub fn len(&self) -> (n: usize)
        ensures
            n == self.size,
    {
        self.size
    }

    /// Whether the tree stores no key.
    pub fn is_empty(&self) -> (b: bool)
        ensures
            b <==> self.size == 0,
    {
        self.size == 0
    }

    /// The value stored for `key`, if there is one.
    pub fn get(&self, key: K) -> (r: Option<&V>)
        requires
            total_order::<K>(),
            self.wf(),
        ensures
            match r {
                Some(v) => self@.contains_key(key) && self@[key] == *v,
                None => !self@.contains_key(key),
            },
    {
        self.root.get(key)
    }

    /// Stores `value` for `key`.  A key that is new is counted; a key that the
    /// tree already holds gets the new value.  When the root has to split, a
    /// new root takes the promoted median and the two halves, and the tree is
    /// one level higher.
    pub fn insert(&mut self, key: K, value: V)
        requires
            total_order::<K>(),
            old(self).wf(),
            old(self).size < usize::MAX,
        ensures
            final(self).wf(),
            final(self)@ == old(self)@.insert(key, value),
            final(self).size == old(self).size + if old(self)@.contains_key(key) {
                0int
            } else {
                1int
            },
            final(self).height() == old(self).height() + if old(self).root.overflows(key) {
                1int
            } else {
                0int
            },
            !old(self).root.overflows(key) ==> {
                &&& inserted(old(self).root, final(self).root, key, value)
                &&& placed(old(self).root, final(self).root, key, value)
            },
            old(self).root.overflows(key) ==> {
                &&& final(self).root is Inner
                &&& final(self).root.keys().len() == 1
                &&& final(self).root->nodes@.len() == 2
                &&& halved(
                    old(self).root,
                    final(self).root.keys()[0],
                    final(self).root->nodes@[0],
                    final(self).root->nodes@[1],
                    key,
                    value,
                )
                &&& split_of(
                    old(self).root,
                    final(self).root.keys()[0],
                    final(self).root->nodes@[0],
                    final(self).root->nodes@[1],
                    key,
                    value,
                )
            },
    {
        let ghost before = self.root;
        let had = self.root.get(key).is_some();
        match self.root.insert(key, value) {
            Ok(()) => {
                proof {
                    lemma_inserted(before, self.root, key, value);
                }
            },
            Err((median, left, right)) => {
                let mut new_root = Node::inner();
                new_root.insert_empty_inner(median, vec![left, right]);
                proof {
                    assert(new_root->Inner_keys@ =~= seq![median]);
                    assert(new_root->nodes@ =~= seq![left, right]);
                    lemma_grow_root(before, new_root, median, left, right, key, value);
                }
                self.root = new_root;
            },
        }
        if !had {
            self.size += 1;
        }
        assert(self@ =~= old(self)@.insert(key, value));
    }
}

} // verus!
