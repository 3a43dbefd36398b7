use vstd::prelude::*;

use super::order::{key_lt, strictly_sorted, total_order};
use super::Searchable;
use super::lemmas::{
    lemma_halved_inner, lemma_inner_child, lemma_leaf_cut, lemma_leaf_insert, lemma_leaf_replace,
    lemma_node_halves, lemma_node_replace, lemma_node_splice, lemma_search_child,
    lemma_sorted_distinct,
};

verus! {

/// The fan-out of the tree: an inner node has at most this many children.
pub const TREE_ORDER: usize = 16;

/// The most keys that a node may hold.
pub const NODE_CAPACITY: usize = TREE_ORDER - 1;

/// A key together with its value.
pub struct Kv<K, V> {
    pub key: K,
    pub value: V,
}

impl<K, V> Kv<K, V> {
    pub fn new(key: K, value: V) -> (kv: Self)
        ensures
            kv.key == key,
            kv.value == value,
    {
        Self { key, value }
    }
}

/// A node of the tree.
///
/// A leaf holds keys in ascending order and, at the same positions, their
/// values; `cap` is the number of keys it may hold before it splits.  An inner
/// node holds separator keys in ascending order and one child more than it
/// has keys: child `i` holds the keys below separator `i`, child `i + 1` the
/// keys from separator `i` on.
pub enum Node<K, V> {
    Inner { keys: Vec<K>, nodes: Vec<Node<K, V>> },
    Leaf { keys: Vec<K>, values: Vec<V>, cap: usize },
}

/// What comes out of a node that had to split: the promoted median key, the
/// node of the keys below it, and the node of the keys from it on.
pub type SplitNodes<K, V> = (K, Node<K, V>, Node<K, V>);

/// The number of `keys` that are not ordered after `key`.  Among ascending
/// separators this is the position of the child that `key` belongs to.
pub open spec fn child_index<K: PartialOrd>(keys: Seq<K>, key: K) -> int
    decreases keys.len(),
{
    if keys.len() == 0 {
        0
    } else if key_lt(key, keys.last()) {
        child_index(keys.drop_last(), key)
    } else {
        child_index(keys.drop_last(), key) + 1
    }
}

/// The value stored for `key` in a leaf of the given keys and values.
pub open spec fn leaf_lookup<K, V>(keys: Seq<K>, values: Seq<V>, key: K) -> Option<V> {
    if exists|i: int| 0 <= i < keys.len() && keys[i] == key {
        Some(values[choose|i: int| 0 <= i < keys.len() && keys[i] == key])
    } else {
        None
    }
}

/// The sum of the numbers in `s`.
pub open spec fn sum(s: Seq<nat>) -> nat
    decreases s.len(),
{
    if s.len() == 0 {
        0
    } else {
        sum(s.drop_last()) + s.last()
    }
}

/// The value that an inner node of the given separators and children holds
/// for `key`: the answer of the child that `key` belongs to.
pub open spec fn inner_lookup<K: PartialOrd, V>(keys: Seq<K>, nodes: Seq<Node<K, V>>, key: K) -> Option<V>
    decreases nodes,
{
    let i = child_index(keys, key);
    if 0 <= i < nodes.len() {
        nodes[i].lookup(key)
    } else {
        None
    }
}

/// The number of keys stored below each of `nodes`.
pub open spec fn child_counts<K: PartialOrd, V>(nodes: Seq<Node<K, V>>) -> Seq<nat>
    decreases nodes,
{
    Seq::new(
        nodes.len(),
        |i: int|
            if 0 <= i < nodes.len() {
                nodes[i].count()
            } else {
                0nat
            },
    )
}

/// What ties the children of an inner node to its separators: one child more
/// than separators, separators ascending, all children of one height, every
/// leaf child of the fixed capacity, each child's keys between its two
/// neighbouring separators, and each separator stored below the child to its
/// right.
#[verifier::opaque]
pub open spec fn children_ordered<K: PartialOrd, V>(keys: Seq<K>, nodes: Seq<Node<K, V>>) -> bool {
    &&& nodes.len() == keys.len() + 1
    &&& strictly_sorted(keys)
    &&& forall|i: int| 0 <= i < nodes.len() ==> (#[trigger] nodes[i]).height() == nodes[0].height()
    &&& forall|i: int|
        0 <= i < nodes.len() && (#[trigger] nodes[i]) is Leaf ==> nodes[i]->cap == NODE_CAPACITY
    &&& forall|i: int, k: K|
        0 <= i < nodes.len() && (#[trigger] nodes[i].lookup(k)) is Some ==> {
            &&& i < keys.len() ==> key_lt(k, keys[i])
            &&& 0 < i ==> !key_lt(k, keys[i - 1])
        }
    &&& forall|i: int| 0 <= i < keys.len() ==> nodes[i + 1].lookup(#[trigger] keys[i]) is Some
}

impl<K: PartialOrd, V> Node<K, V> {
    /// The node's own keys: a leaf's stored keys, an inner node's separators.
    pub open spec fn keys(self) -> Seq<K> {
        match self {
            Node::Leaf { keys, .. } => keys@,
            Node::Inner { keys, .. } => keys@,
        }
    }

    /// The value stored for `key` in the subtree of this node.
    pub open spec fn lookup(self, key: K) -> Option<V>
        decreases self,
    {
        match self {
            Node::Leaf { keys, values, .. } => leaf_lookup(keys@, values@, key),
            Node::Inner { keys, nodes } => inner_lookup(keys@, nodes@, key),
        }
    }

    /// The number of inner nodes on the way from this node down to a leaf.
    pub open spec fn height(self) -> nat
        decreases self,
    {
        match self {
            Node::Leaf { .. } => 0,
            Node::Inner { nodes, .. } => if nodes.len() > 0 {
                nodes[0].height() + 1
            } else {
                1
            },
        }
    }

    /// The number of keys stored in the leaves of this subtree.
    pub open spec fn count(self) -> nat
        decreases self,
    {
        match self {
            Node::Leaf { keys, .. } => keys.len() as nat,
            Node::Inner { nodes, .. } => sum(child_counts(nodes@)),
        }
    }

    /// The node and all nodes below it are well formed: keys ascending, no
    /// node over its capacity, children ordered around the separators, every
    /// leaf at the same depth.
    pub open spec fn wf(self) -> bool
        decreases self,
    {
        match self {
            Node::Leaf { keys, values, cap } => {
                &&& keys.len() == values.len()
                &&& keys.len() <= cap <= NODE_CAPACITY
                &&& strictly_sorted(keys@)
            },
            Node::Inner { keys, nodes } => {
                &&& keys.len() <= NODE_CAPACITY
                &&& forall|i: int| 0 <= i < nodes.len() ==> (#[trigger] nodes@[i]).wf()
                &&& children_ordered(keys@, nodes@)
            },
        }
    }

    /// The keys and values of the leaves of this subtree, leaf by leaf from
    /// the left and, within a leaf, in stored order.
    pub open spec fn in_order(self) -> Seq<(K, V)>
        decreases self, 0nat,
    {
        match self {
            Node::Leaf { keys, values, .. } => Seq::new(keys.len() as nat, |i: int| (keys@[i], values@[i])),
            Node::Inner { nodes, .. } => children_in_order(nodes@, nodes.len() as nat),
        }
    }

    /// The node reached from this one by going down, at each step, to the
    /// child at the next position of `path`.
    pub open spec fn descendant(self, path: Seq<int>) -> Option<Self>
        decreases path.len(),
    {
        if path.len() == 0 {
            Some(self)
        } else {
            match self {
                Node::Leaf { .. } => None,
                Node::Inner { nodes, .. } => if 0 <= path[0] < nodes.len() {
                    nodes@[path[0]].descendant(path.drop_first())
                } else {
                    None
                },
            }
        }
    }

    /// Inserting `key` makes this node split: the key is new, the leaf it
    /// belongs to is full, and so is every node from that leaf up to this one.
    pub open spec fn overflows(self, key: K) -> bool
        decreases self,
    {
        match self {
            Node::Leaf { keys, cap, .. } => keys.len() >= cap && !keys@.contains(key),
            Node::Inner { keys, nodes } => {
                let i = child_index(keys@, key);
                &&& keys.len() >= NODE_CAPACITY
                &&& 0 <= i < nodes.len()
                &&& nodes[i].overflows(key)
            },
        }
    }

    /// The node has been emptied: the same kind of node as `before`, a leaf of
    /// the same capacity, without keys, values or children.
    pub open spec fn emptied(self, before: Self) -> bool {
        match self {
            Node::Leaf { keys, values, cap } => {
                &&& before is Leaf
                &&& cap == before->cap
                &&& keys@.len() == 0
                &&& values@.len() == 0
            },
            Node::Inner { keys, nodes } => {
                &&& before is Inner
                &&& keys@.len() == 0
                &&& nodes@.len() == 0
            },
        }
    }
}

/// The keys and values of the leaves below the first `n` of `nodes`, child by
/// child from the left.
pub open spec fn children_in_order<K: PartialOrd, V>(nodes: Seq<Node<K, V>>, n: nat) -> Seq<(K, V)>
    decreases nodes, n,
{
    if n == 0 || n > nodes.len() {
        Seq::empty()
    } else {
        children_in_order(nodes, (n - 1) as nat) + nodes[n - 1].in_order()
    }
}

/// The keys of `entries` ascend strictly.
pub open spec fn ascending<K: PartialOrd, V>(entries: Seq<(K, V)>) -> bool {
    forall|i: int, j: int|
        0 <= i < j < entries.len() ==> key_lt((#[trigger] entries[i]).0, (#[trigger] entries[j]).0)
}

/// `after` is `before` with `value` stored for `key`, node by node.  A leaf
/// has the new value in the place of the old one, or has the new key and its
/// value at the position that keeps the keys ascending.  An inner node has,
/// in the place of the child that the key belongs to, that child with the key
/// stored; or, where that child had to split, its two halves, with the
/// promoted median among the separators at the child's position.
pub open spec fn placed<K: PartialOrd, V>(before: Node<K, V>, after: Node<K, V>, key: K, value: V) -> bool
    decreases before,
{
    match before {
        Node::Leaf { keys, values, cap } => {
            let at = child_index(keys@, key);
            &&& after is Leaf
            &&& after->cap == cap
            &&& if keys@.contains(key) {
                &&& after->Leaf_keys@ == keys@
                &&& after->values@ == values@.update(at - 1, value)
            } else {
                &&& after->Leaf_keys@ == keys@.insert(at, key)
                &&& after->values@ == values@.insert(at, value)
            }
        },
        Node::Inner { keys, nodes } => {
            let at = child_index(keys@, key);
            &&& after is Inner
            &&& 0 <= at < nodes.len()
            &&& if nodes@[at].overflows(key) {
                &&& after->Inner_keys@.len() == keys.len() + 1
                &&& after->nodes@.len() == nodes.len() + 1
                &&& after->Inner_keys@ == keys@.insert(at, after->Inner_keys@[at])
                &&& after->nodes@ == nodes@.update(at, after->nodes@[at]).insert(
                    at + 1,
                    after->nodes@[at + 1],
                )
                &&& halved(
                    nodes@[at],
                    after->Inner_keys@[at],
                    after->nodes@[at],
                    after->nodes@[at + 1],
                    key,
                    value,
                )
            } else {
                &&& after->Inner_keys@ == keys@
                &&& after->nodes@.len() == nodes.len()
                &&& after->nodes@ == nodes@.update(at, after->nodes@[at])
                &&& placed(nodes@[at], after->nodes@[at], key, value)
            }
        },
    }
}

/// `left` and `right` are the two halves of `before` with the new `key`
/// stored, node by node, and `median` is the key between them.  The keys of a
/// leaf, the new one among them, are cut in the middle: the lower half goes
/// left, the upper half right, and the first key of the upper half is the
/// median.  The separators of an inner node, the median of its split child
/// among them, are cut around the middle one: that one is the median, the
/// separators below it go left with their children, those above it right.
pub open spec fn halved<K: PartialOrd, V>(
    before: Node<K, V>,
    median: K,
    left: Node<K, V>,
    right: Node<K, V>,
    key: K,
    value: V,
) -> bool
    decreases before,
{
    match before {
        Node::Leaf { keys, values, .. } => {
            let at = child_index(keys@, key);
            let all_keys = keys@.insert(at, key);
            let all_values = values@.insert(at, value);
            let mid = all_keys.len() as int / 2;
            &&& left is Leaf
            &&& right is Leaf
            &&& left->cap == NODE_CAPACITY
            &&& right->cap == NODE_CAPACITY
            &&& median == all_keys[mid]
            &&& left->Leaf_keys@ == all_keys.subrange(0, mid)
            &&& left->values@ == all_values.subrange(0, mid)
            &&& right->Leaf_keys@ == all_keys.subrange(mid, all_keys.len() as int)
            &&& right->values@ == all_values.subrange(mid, all_values.len() as int)
        },
        Node::Inner { keys, nodes } => {
            let at = child_index(keys@, key);
            let all_keys = left->Inner_keys@.push(median) + right->Inner_keys@;
            let all_nodes = left->nodes@ + right->nodes@;
            &&& left is Inner
            &&& right is Inner
            &&& 0 <= at < nodes.len()
            &&& all_keys.len() == keys.len() + 1
            &&& all_nodes.len() == nodes.len() + 1
            &&& left->Inner_keys@.len() == all_keys.len() as int / 2
            &&& left->nodes@.len() == left->Inner_keys@.len() + 1
            &&& all_keys == keys@.insert(at, all_keys[at])
            &&& all_nodes == nodes@.update(at, all_nodes[at]).insert(at + 1, all_nodes[at + 1])
            &&& halved(nodes@[at], all_keys[at], all_nodes[at], all_nodes[at + 1], key, value)
        },
    }
}

/// Every node of `nodes` is well formed.
pub open spec fn all_wf<K: PartialOrd, V>(nodes: Seq<Node<K, V>>) -> bool {
    forall|i: int| 0 <= i < nodes.len() ==> (#[trigger] nodes[i]).wf()
}

/// The separators and children make up the inside of a well-formed inner
/// node, but for the number of separators, which may be over the capacity.
pub open spec fn inner_wf<K: PartialOrd, V>(keys: Seq<K>, nodes: Seq<Node<K, V>>) -> bool {
    &&& all_wf(nodes)
    &&& children_ordered(keys, nodes)
}

/// `after` is `before` with `value` stored for `key`: well formed, of the same
/// height and leaf capacity, answering `value` for `key` and as `before` for
/// every other key, with one key more exactly if `key` was new.
#[verifier::opaque]
pub open spec fn inserted<K: PartialOrd, V>(before: Node<K, V>, after: Node<K, V>, key: K, value: V) -> bool {
    &&& after.wf()
    &&& after.height() == before.height()
    &&& after is Leaf ==> before is Leaf && after->cap == before->cap
    &&& forall|k: K| #[trigger]
        after.lookup(k) == if k == key {
            Some(value)
        } else {
            before.lookup(k)
        }
    &&& after.count() == before.count() + if before.lookup(key) is Some {
        0nat
    } else {
        1nat
    }
}

/// `left` and `right` are what `before` splits into when the new `key` is
/// stored with `value`: two well-formed nodes of the height of `before` and of
/// the fixed capacity; `left` holds the keys below `median` and `right` the
/// others, `median` among them; together they answer `value` for `key` and as
/// `before` for every other key; `left` takes the lower half of the node's
/// own keys, and an inner node's median moves up instead of staying.
#[verifier::opaque]
pub open spec fn split_of<K: PartialOrd, V>(
    before: Node<K, V>,
    median: K,
    left: Node<K, V>,
    right: Node<K, V>,
    key: K,
    value: V,
) -> bool {
    &&& left.wf()
    &&& right.wf()
    &&& left.height() == before.height()
    &&& right.height() == before.height()
    &&& left is Leaf ==> left->cap == NODE_CAPACITY
    &&& right is Leaf ==> right->cap == NODE_CAPACITY
    &&& before.lookup(key) is None
    &&& forall|k: K| (#[trigger] left.lookup(k)) is Some ==> key_lt(k, median)
    &&& forall|k: K| (#[trigger] right.lookup(k)) is Some ==> !key_lt(k, median)
    &&& forall|k: K|
        #![trigger left.lookup(k)]
        #![trigger right.lookup(k)]
        (if key_lt(k, median) {
            left.lookup(k)
        } else {
            right.lookup(k)
        }) == if k == key {
            Some(value)
        } else {
            before.lookup(k)
        }
    &&& right.lookup(median) is Some
    &&& left.keys().len() == (before.keys().len() + 1) / 2
    &&& left.keys().len() + right.keys().len() + (if before is Leaf {
        0int
    } else {
        1int
    }) == before.keys().len() + 1
    &&& left.count() + right.count() == before.count() + 1
}

impl<K: Copy + PartialEq + PartialOrd, V> Node<K, V> {
    /// An inner node without separators and without children.  It becomes
    /// well formed once it has been given a separator and two children.
    pub fn inner() -> (node: Self)
        ensures
            node is Inner,
            node->Inner_keys@.len() == 0,
            node->nodes@.len() == 0,
    {
        Node::Inner { keys: Vec::with_capacity(NODE_CAPACITY), nodes: Vec::with_capacity(TREE_ORDER) }
    }

    /// An empty leaf of the fixed capacity.
    pub fn leaf() -> (node: Self)
        ensures
            node is Leaf,
            node->Leaf_keys@.len() == 0,
            node->values@.len() == 0,
            node->cap == NODE_CAPACITY,
            node.wf(),
    {
        Node::Leaf {
            keys: Vec::with_capacity(NODE_CAPACITY),
            values: Vec::with_capacity(NODE_CAPACITY),
            cap: NODE_CAPACITY,
        }
    }

    /// An empty leaf that splits once it holds `capacity` keys and takes one
    /// more.  No leaf holds more than the fixed capacity: a larger `capacity`
    /// counts as that.
    pub fn leaf_with_cap(capacity: usize) -> (node: Self)
        ensures
            node is Leaf,
            node->Leaf_keys@.len() == 0,
            node->values@.len() == 0,
            node->cap == if capacity <= NODE_CAPACITY {
                capacity
            } else {
                NODE_CAPACITY
            },
            node.wf(),
    {
        let cap = if capacity <= NODE_CAPACITY {
            capacity
        } else {
            NODE_CAPACITY
        };
        Node::Leaf { keys: Vec::with_capacity(cap), values: Vec::with_capacity(cap), cap }
    }

    /// Stores `value` for `key` in the subtree of this node.  A key that is
    /// already stored keeps its place and gets the new value.
    ///
    /// `Ok` when the node could take the key.  `Err` when it had to split:
    /// the node is left empty, and the promoted median comes back with the two
    /// nodes that take its place.
    pub fn insert(&mut self, key: K, value: V) -> (r: Result<(), SplitNodes<K, V>>)
        requires
            total_order::<K>(),
            old(self).wf(),
        ensures
            r is Err <==> old(self).overflows(key),
            match r {
                Ok(()) => {
                    &&& inserted(*old(self), *final(self), key, value)
                    &&& placed(*old(self), *final(self), key, value)
                },
                Err((median, left, right)) => {
                    &&& split_of(*old(self), median, left, right, key, value)
                    &&& halved(*old(self), median, left, right, key, value)
                    &&& final(self).emptied(*old(self))
                },
            },
        decreases *old(self),
    {
        let ghost before = *self;
        match self {
            Node::Leaf { keys, values, cap } => Self::insert_into_leaf(keys, values, *cap, key, value),
            Node::Inner { keys, nodes } => {
                let ghost keys0 = keys@;
                let ghost nodes0 = nodes@;
                assert(before.keys() == keys0 && before->nodes@ == nodes0);
                let found = keys.search(key);
                proof {
                    lemma_inner_child(before, child_index(keys0, key));
                    lemma_search_child(keys0, key, found);
                }
                let idx = match found {
                    Ok(i) => i + 1,
                    Err(p) => p,
                };
                match nodes[idx].insert(key, value) {
                    Ok(()) => {
                        proof {
                            let after = Node::Inner { keys: *keys, nodes: *nodes };
                            assert(nodes@ =~= nodes0.update(idx as int, nodes@[idx as int]));
                            lemma_node_replace(before, after, idx as int, key, value);
                            assert(placed(before, after, key, value));
                        }
                        Ok(())
                    },
                    Err((median, left, right)) => {
                        keys.insert(idx, median);
                        nodes.set(idx, left);
                        nodes.insert(idx + 1, right);
                        let ghost full = Node::Inner { keys: *keys, nodes: *nodes };
                        proof {
                            assert(nodes@ =~= nodes0.update(idx as int, left).insert(idx + 1, right));
                            lemma_node_splice(before, full, idx as int, median, left, right, key, value);
                            assert(placed(before, full, key, value));
                        }
                        if keys.len() <= NODE_CAPACITY {
                            Ok(())
                        } else {
                            let split = Self::split_inner(keys, nodes);
                            proof {
                                lemma_node_halves(before, full, split.1, split.2, key, value);
                                lemma_halved_inner(before, full, split.0, split.1, split.2, key, value);
                            }
                            Err(split)
                        }
                    },
                }
            },
        }
    }

    /// Gives an inner node one more separator and more children, after those
    /// it has.  A leaf is left as it is.
    pub fn insert_empty_inner(&mut self, key: K, ns: Vec<Node<K, V>>)
        ensures
            match *old(self) {
                Node::Inner { keys, nodes } => {
                    &&& *final(self) is Inner
                    &&& (*final(self))->Inner_keys@ == keys@.push(key)
                    &&& (*final(self))->nodes@ == nodes@ + ns@
                },
                Node::Leaf { .. } => *final(self) == *old(self),
            },
    {
        let mut ns = ns;
        if let Node::Inner { keys, nodes } = self {
            keys.push(key);
            nodes.append(&mut ns);
        }
    }

    /// The value stored for `key` in the subtree of this node, if there is one.
    pub fn get(&self, key: K) -> (r: Option<&V>)
        requires
            total_order::<K>(),
            self.wf(),
        ensures
            match r {
                Some(v) => self.lookup(key) == Some(*v),
                None => self.lookup(key) is None,
            },
        decreases self,
    {
        match self {
            Node::Leaf { keys, values, .. } => {
                let found = keys.search(key);
                proof {
                    lemma_search_child(keys@, key, found);
                    lemma_sorted_distinct(keys@);
                }
                match found {
                    Ok(i) => Some(&values[i]),
                    Err(_) => None,
                }
            },
            Node::Inner { keys, nodes } => {
                let found = keys.search(key);
                proof {
                    lemma_inner_child(*self, child_index(keys@, key));
                    lemma_search_child(keys@, key, found);
                }
                let idx = match found {
                    Ok(i) => i + 1,
                    Err(p) => p,
                };
                nodes[idx].get(key)
            },
        }
    }

    /// Stores `value` for `key` in a leaf of the given keys, values and
    /// capacity, splitting it when it is full and the key is new.
    fn insert_into_leaf(keys: &mut Vec<K>, values: &mut Vec<V>, cap: usize, key: K, value: V) -> (r:
        Result<(), SplitNodes<K, V>>)
        requires
            total_order::<K>(),
            (Node::Leaf { keys: *old(keys), values: *old(values), cap }).wf(),
        ensures
            r is Err <==> (Node::Leaf { keys: *old(keys), values: *old(values), cap }).overflows(key),
            match r {
                Ok(()) => {
                    &&& inserted(
                        Node::Leaf { keys: *old(keys), values: *old(values), cap },
                        Node::Leaf { keys: *final(keys), values: *final(values), cap },
                        key,
                        value,
                    )
                    &&& placed(
                        Node::Leaf { keys: *old(keys), values: *old(values), cap },
                        Node::Leaf { keys: *final(keys), values: *final(values), cap },
                        key,
                        value,
                    )
                },
                Err((median, left, right)) => {
                    &&& split_of(
                        Node::Leaf { keys: *old(keys), values: *old(values), cap },
                        median,
                        left,
                        right,
                        key,
                        value,
                    )
                    &&& halved(
                        Node::Leaf { keys: *old(keys), values: *old(values), cap },
                        median,
                        left,
                        right,
                        key,
                        value,
                    )
                    &&& final(keys)@.len() == 0
                    &&& final(values)@.len() == 0
                },
            },
    {
        let ghost keys0 = keys@;
        let ghost values0 = values@;
        let found = keys.search(key);
        proof {
            reveal(inserted);
            lemma_search_child(keys0, key, found);
        }
        match found {
            Ok(i) => {
                proof {
                    lemma_leaf_replace(keys0, values0, i as int, value);
                }
                values.set(i, value);
                Ok(())
            },
            Err(pos) => {
                proof {
                    lemma_leaf_insert(keys0, values0, pos as int, key, value);
                }
                if keys.len() < cap {
                    keys.insert(pos, key);
                    values.insert(pos, value);
                    Ok(())
                } else {
                    Err(Self::split_leaf(keys, values, pos, key, value, Ghost(cap)))
                }
            },
        }
    }

    /// Puts the new `key` at `pos` among a full leaf's keys and cuts the keys
    /// in the middle: the lower half stays left, the upper half, the median
    /// first, goes right.
    fn split_leaf(
        keys: &mut Vec<K>,
        values: &mut Vec<V>,
        pos: usize,
        key: K,
        value: V,
        Ghost(cap): Ghost<usize>,
    ) -> (r: SplitNodes<K, V>)
        requires
            total_order::<K>(),
            (Node::Leaf { keys: *old(keys), values: *old(values), cap }).wf(),
            pos <= old(keys).len(),
            pos == child_index(old(keys)@, key),
            forall|j: int| 0 <= j < pos ==> key_lt(#[trigger] old(keys)@[j], key),
            forall|j: int| pos <= j < old(keys).len() ==> key_lt(key, #[trigger] old(keys)@[j]),
        ensures
            split_of(Node::Leaf { keys: *old(keys), values: *old(values), cap }, r.0, r.1, r.2, key, value),
            halved(Node::Leaf { keys: *old(keys), values: *old(values), cap }, r.0, r.1, r.2, key, value),
            final(keys)@.len() == 0,
            final(values)@.len() == 0,
    {
        let ghost keys0 = keys@;
        let ghost values0 = values@;
        proof {
            lemma_leaf_insert(keys0, values0, pos as int, key, value);
        }
        keys.insert(pos, key);
        values.insert(pos, value);
        let ghost keys1 = keys@;
        let ghost values1 = values@;
        let mid = keys.len() / 2;
        let median = keys[mid];
        proof {
            lemma_leaf_cut(keys1, values1, mid as int);
        }
        let right_keys = keys.split_off(mid);
        let right_values = values.split_off(mid);
        let left_keys = keys.split_off(0);
        let left_values = values.split_off(0);
        assert(left_keys@ =~= keys1.subrange(0, mid as int));
        assert(left_values@ =~= values1.subrange(0, mid as int));
        let left = Node::Leaf { keys: left_keys, values: left_values, cap: NODE_CAPACITY };
        let right = Node::Leaf { keys: right_keys, values: right_values, cap: NODE_CAPACITY };
        proof {
            reveal(total_order);
            reveal(split_of);
            assert(keys1[mid as int] == median);
            assert(leaf_lookup(keys1, values1, median) is Some);
            assert(!key_lt(median, median));
            assert(right.lookup(median) is Some);
        }
        (median, left, right)
    }

    /// Cuts the separators and children of an inner node that took one
    /// separator too many: the separators below the middle one stay left with
    /// their children, those above it go right, and the middle one moves up.
    fn split_inner(keys: &mut Vec<K>, nodes: &mut Vec<Node<K, V>>) -> (r: SplitNodes<K, V>)
        requires
            1 <= old(keys).len(),
            old(nodes).len() == old(keys).len() + 1,
        ensures
            r.0 == old(keys)@[old(keys).len() as int / 2],
            r.1 is Inner,
            r.1->Inner_keys@ == old(keys)@.subrange(0, old(keys).len() as int / 2),
            r.1->nodes@ == old(nodes)@.subrange(0, old(keys).len() as int / 2 + 1),
            r.2 is Inner,
            r.2->Inner_keys@ == old(keys)@.subrange(
                old(keys).len() as int / 2 + 1,
                old(keys).len() as int,
            ),
            r.2->nodes@ == old(nodes)@.subrange(
                old(keys).len() as int / 2 + 1,
                old(nodes).len() as int,
            ),
            final(keys)@.len() == 0,
            final(nodes)@.len() == 0,
    {
        let ghost keys0 = keys@;
        let ghost nodes0 = nodes@;
        let mid = keys.len() / 2;
        let median = keys[mid];
        let right_keys = keys.split_off(mid + 1);
        let right_nodes = nodes.split_off(mid + 1);
        keys.truncate(mid);
        let left_keys = keys.split_off(0);
        let left_nodes = nodes.split_off(0);
        assert(left_keys@ =~= keys0.subrange(0, mid as int));
        assert(left_nodes@ =~= nodes0.subrange(0, mid as int + 1));
        (
            median,
            Node::Inner { keys: left_keys, nodes: left_nodes },
            Node::Inner { keys: right_keys, nodes: right_nodes },
        )
    }
}

} // verus!
