use vstd::prelude::*;

use super::btree::Btree;
use super::lemmas::{lemma_child_index_is, lemma_inner_child, lemma_sorted_distinct};
use super::node::{
    ascending, child_counts, child_index, children_in_order, children_ordered, inner_wf, sum, Node,
    NODE_CAPACITY,
};
use super::order::{key_lt, strictly_sorted, total_order};

verus! {

/// `key` is the key of one of `entries`.
pub open spec fn holds_key<K, V>(entries: Seq<(K, V)>, key: K) -> bool {
    exists|i: int| 0 <= i < entries.len() && (#[trigger] entries[i]).0 == key
}

/// `entries` lists what `node` stores: as many entries as the node counts
/// keys, keys ascending, each entry a key with the value stored for it, and
/// every stored key among them.
pub open spec fn lists<K: PartialOrd, V>(entries: Seq<(K, V)>, node: Node<K, V>) -> bool {
    &&& entries.len() == node.count()
    &&& ascending(entries)
    &&& forall|i: int|
        0 <= i < entries.len() ==> node.lookup((#[trigger] entries[i]).0) == Some(entries[i].1)
    &&& forall|k: K|
        (#[trigger] node.lookup(k)) is Some ==> exists|i: int|
            0 <= i < entries.len() && (#[trigger] entries[i]).0 == k
}

/// `entries` lists what the first `n` of the children `nodes` store.
pub open spec fn lists_children<K: PartialOrd, V>(
    entries: Seq<(K, V)>,
    nodes: Seq<Node<K, V>>,
    n: int,
) -> bool {
    &&& entries.len() == sum(child_counts(nodes).subrange(0, n))
    &&& ascending(entries)
    &&& forall|j: int|
        0 <= j < entries.len() ==> exists|i: int|
            0 <= i < n && (#[trigger] nodes[i]).lookup((#[trigger] entries[j]).0) == Some(entries[j].1)
    &&& forall|i: int, k: K|
        0 <= i < n && (#[trigger] nodes[i].lookup(k)) is Some ==> exists|j: int|
            0 <= j < entries.len() && (#[trigger] entries[j]).0 == k
}

/// A key stored below child `i` of an inner node belongs to child `i`.
proof fn lemma_child_holds<K: PartialOrd, V>(keys: Seq<K>, nodes: Seq<Node<K, V>>, i: int, k: K)
    requires
        total_order::<K>(),
        inner_wf(keys, nodes),
        0 <= i < nodes.len(),
        nodes[i].lookup(k) is Some,
    ensures
        child_index(keys, k) == i,
{
    reveal(children_ordered);
    reveal(total_order);
    assert forall|j: int| 0 <= j < i implies !key_lt(k, #[trigger] keys[j]) by {
        assert(!key_lt(k, keys[i - 1]));
        if j < i - 1 {
            assert(key_lt(keys[j], keys[i - 1]));
        }
    }
    assert forall|j: int| i <= j < keys.len() implies key_lt(k, #[trigger] keys[j]) by {
        assert(key_lt(k, keys[i]));
        if i < j {
            assert(key_lt(keys[i], keys[j]));
        }
    }
    lemma_child_index_is(keys, k, i);
}

/// A key stored below one child is ordered before every key stored below a
/// child further right.
proof fn lemma_children_apart<K: PartialOrd, V>(
    keys: Seq<K>,
    nodes: Seq<Node<K, V>>,
    i: int,
    j: int,
    a: K,
    b: K,
)
    requires
        total_order::<K>(),
        inner_wf(keys, nodes),
        0 <= i < j < nodes.len(),
        nodes[i].lookup(a) is Some,
        nodes[j].lookup(b) is Some,
    ensures
        key_lt(a, b),
{
    reveal(children_ordered);
    reveal(total_order);
    assert(key_lt(a, keys[i]));
    assert(!key_lt(b, keys[j - 1]));
    if i < j - 1 {
        assert(key_lt(keys[i], keys[j - 1]));
    }
}

/// The traversal of a well-formed node lists what the node stores.
pub proof fn lemma_in_order<K: PartialOrd, V>(node: Node<K, V>)
    requires
        total_order::<K>(),
        node.wf(),
    ensures
        lists(node.in_order(), node),
    decreases node, 0nat,
{
    let entries = node.in_order();
    match node {
        Node::Leaf { keys, values, .. } => {
            lemma_sorted_distinct(keys@);
            assert forall|i: int| 0 <= i < entries.len() implies node.lookup((#[trigger] entries[i]).0)
                == Some(entries[i].1) by {
                assert(keys@[i] == entries[i].0);
                let c = choose|c: int| 0 <= c < keys@.len() && keys@[c] == entries[i].0;
                assert(c == i);
            }
            assert forall|k: K| (#[trigger] node.lookup(k)) is Some implies exists|i: int|
                0 <= i < entries.len() && (#[trigger] entries[i]).0 == k by {
                let c = choose|c: int| 0 <= c < keys@.len() && keys@[c] == k;
                assert(entries[c].0 == k);
            }
            assert forall|i: int, j: int| 0 <= i < j < entries.len() implies key_lt(
                (#[trigger] entries[i]).0,
                (#[trigger] entries[j]).0,
            ) by {
                assert(key_lt(keys@[i], keys@[j]));
            }
        },
        Node::Inner { keys, nodes } => {
            lemma_inner_child(node, 0);
            lemma_children_in_order(keys@, nodes@, nodes@.len());
            assert(child_counts(nodes@).subrange(0, nodes@.len() as int) =~= child_counts(nodes@));
            assert forall|j: int| 0 <= j < entries.len() implies node.lookup((#[trigger] entries[j]).0)
                == Some(entries[j].1) by {
                let i = choose|i: int|
                    0 <= i < nodes@.len() && (#[trigger] nodes@[i]).lookup(entries[j].0) == Some(
                        entries[j].1,
                    );
                lemma_child_holds(keys@, nodes@, i, entries[j].0);
            }
            assert forall|k: K| (#[trigger] node.lookup(k)) is Some implies exists|j: int|
                0 <= j < entries.len() && (#[trigger] entries[j]).0 == k by {
                let c = child_index(keys@, k);
                assert(nodes@[c].lookup(k) is Some);
            }
        },
    }
}

/// The traversal of the first `n` children of a well-formed inner node lists
/// what those children store.
pub proof fn lemma_children_in_order<K: PartialOrd, V>(keys: Seq<K>, nodes: Seq<Node<K, V>>, n: nat)
    requires
        total_order::<K>(),
        inner_wf(keys, nodes),
        n <= nodes.len(),
    ensures
        lists_children(children_in_order(nodes, n), nodes, n as int),
    decreases nodes, n,
{
    let entries = children_in_order(nodes, n);
    if n == 0 {
        assert(child_counts(nodes).subrange(0, 0) =~= Seq::<nat>::empty());
    } else {
        let m = (n - 1) as nat;
        let head = children_in_order(nodes, m);
        let last = nodes[n - 1];
        let tail = last.in_order();
        lemma_children_in_order(keys, nodes, m);
        assert(last.wf());
        lemma_in_order(last);
        assert(entries == head + tail);
        let counts = child_counts(nodes);
        assert(counts.subrange(0, n as int).drop_last() =~= counts.subrange(0, m as int));
        assert(counts.subrange(0, n as int).last() == last.count());
        assert forall|j: int| 0 <= j < entries.len() implies exists|i: int|
            0 <= i < n && (#[trigger] nodes[i]).lookup((#[trigger] entries[j]).0) == Some(
                entries[j].1,
            ) by {
            if j < head.len() {
                assert(entries[j] == head[j]);
                let i = choose|i: int|
                    0 <= i < m && (#[trigger] nodes[i]).lookup(head[j].0) == Some(head[j].1);
                assert(nodes[i].lookup(entries[j].0) == Some(entries[j].1));
            } else {
                assert(entries[j] == tail[j - head.len()]);
                assert(nodes[n - 1].lookup(entries[j].0) == Some(entries[j].1));
            }
        }
        assert forall|i: int, k: K| 0 <= i < n && (#[trigger] nodes[i].lookup(k)) is Some implies exists|
            j: int,
        |
            0 <= j < entries.len() && (#[trigger] entries[j]).0 == k by {
            if i < m {
                let j = choose|j: int| 0 <= j < head.len() && (#[trigger] head[j]).0 == k;
                assert(entries[j].0 == k);
            } else {
                let j = choose|j: int| 0 <= j < tail.len() && (#[trigger] tail[j]).0 == k;
                assert(entries[head.len() + j].0 == k);
            }
        }
        assert forall|a: int, b: int| 0 <= a < b < entries.len() implies key_lt(
            (#[trigger] entries[a]).0,
            (#[trigger] entries[b]).0,
        ) by {
            if b < head.len() {
                assert(key_lt(head[a].0, head[b].0));
            } else if a >= head.len() {
                assert(key_lt(tail[a - head.len()].0, tail[b - head.len()].0));
            } else {
                let i = choose|i: int|
                    0 <= i < m && (#[trigger] nodes[i]).lookup(head[a].0) == Some(head[a].1);
                let e = tail[b - head.len()];
                assert(last.lookup(e.0) == Some(e.1));
                lemma_children_apart(keys, nodes, i, n - 1, head[a].0, e.0);
            }
        }
    }
}

/// The keys of a tree's leaves, read from the leftmost leaf to the rightmost,
/// ascend strictly, and they are the keys that the tree stores, each with its
/// value: as many as the tree counts.
pub proof fn lemma_traversal_ascends<K: PartialOrd, V>(tree: Btree<K, V>)
    requires
        total_order::<K>(),
        tree.wf(),
    ensures
        ascending(tree.root.in_order()),
        tree.root.in_order().len() == tree.size,
        forall|i: int|
            0 <= i < tree.root.in_order().len() ==> {
                let e = #[trigger] tree.root.in_order()[i];
                tree@.contains_key(e.0) && tree@[e.0] == e.1
            },
        forall|k: K|
            tree@.contains_key(k) ==> exists|i: int|
                0 <= i < tree.root.in_order().len() && (#[trigger] tree.root.in_order()[i]).0 == k,
{
    lemma_in_order(tree.root);
    let entries = tree.root.in_order();
    assert forall|i: int| 0 <= i < entries.len() implies {
        let e = #[trigger] entries[i];
        tree@.contains_key(e.0) && tree@[e.0] == e.1
    } by {
        assert(tree.root.lookup(entries[i].0) == Some(entries[i].1));
    }
    assert forall|k: K| tree@.contains_key(k) implies exists|i: int|
        0 <= i < entries.len() && (#[trigger] entries[i]).0 == k by {
        assert(tree.root.lookup(k) is Some);
    }
}

/// After a key has been stored, the traversal ascends, holds that key, and
/// holds any other key exactly if it held it before.
pub proof fn lemma_traversal_after_insert<K: PartialOrd, V>(
    before: Btree<K, V>,
    after: Btree<K, V>,
    key: K,
    value: V,
)
    requires
        total_order::<K>(),
        before.wf(),
        after.wf(),
        after@ == before@.insert(key, value),
    ensures
        ascending(after.root.in_order()),
        forall|k: K|
            #[trigger] holds_key(after.root.in_order(), k) <==> k == key || holds_key(
                before.root.in_order(),
                k,
            ),
{
    lemma_traversal_ascends(before);
    lemma_traversal_ascends(after);
    let old_entries = before.root.in_order();
    let new_entries = after.root.in_order();
    assert forall|k: K| #[trigger]
        holds_key(new_entries, k) <==> k == key || holds_key(old_entries, k) by {
        if exists|i: int| 0 <= i < new_entries.len() && (#[trigger] new_entries[i]).0 == k {
            let i = choose|i: int| 0 <= i < new_entries.len() && (#[trigger] new_entries[i]).0 == k;
            assert(after@.contains_key(new_entries[i].0));
            if k != key {
                assert(before@.contains_key(k));
            }
        }
        if exists|i: int| 0 <= i < old_entries.len() && (#[trigger] old_entries[i]).0 == k {
            let i = choose|i: int| 0 <= i < old_entries.len() && (#[trigger] old_entries[i]).0 == k;
            assert(before@.contains_key(old_entries[i].0));
            assert(after@.contains_key(k));
        }
        if k == key {
            assert(after@.contains_key(k));
        }
    }
}

/// Every node of a well-formed tree is well formed and holds no more keys than
/// the fixed capacity; every leaf but the root has that capacity.
pub proof fn lemma_capacity<K: PartialOrd, V>(root: Node<K, V>, path: Seq<int>)
    requires
        root.wf(),
        root.descendant(path) is Some,
    ensures
        root.descendant(path)->Some_0.wf(),
        root.descendant(path)->Some_0.keys().len() <= NODE_CAPACITY,
        path.len() > 0 && root.descendant(path)->Some_0 is Leaf ==> root.descendant(path)->Some_0->cap
            == NODE_CAPACITY,
    decreases path.len(),
{
    if path.len() > 0 {
        lemma_inner_child(root, path[0]);
        let child = root->nodes@[path[0]];
        lemma_capacity(child, path.drop_first());
        if path.len() == 1 {
            assert(path.drop_first().len() == 0);
            assert(child.descendant(path.drop_first()) == Some(child));
            assert(child is Leaf ==> child->cap == NODE_CAPACITY) by {
                reveal(children_ordered);
            }
        }
    }
}

} // verus!
