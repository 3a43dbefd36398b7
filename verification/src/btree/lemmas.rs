use vstd::prelude::*;

use super::node::{
    all_wf, child_counts, child_index, children_ordered, halved, inner_lookup, inner_wf, inserted,
    leaf_lookup, placed, split_of, sum, Node,
};
use super::node::NODE_CAPACITY;
use super::order::{key_lt, strictly_sorted, total_order};
use super::search_result;

verus! {

/// A position that splits `keys` into those not after `key` and those after it
/// is `child_index(keys, key)`.
pub proof fn lemma_child_index_is<K: PartialOrd>(keys: Seq<K>, key: K, p: int)
    requires
        0 <= p <= keys.len(),
        forall|j: int| 0 <= j < p ==> !key_lt(key, #[trigger] keys[j]),
        forall|j: int| p <= j < keys.len() ==> key_lt(key, #[trigger] keys[j]),
    ensures
        child_index(keys, key) == p,
    decreases keys.len(),
{
    if keys.len() > 0 {
        let rest = keys.drop_last();
        if p == keys.len() {
            assert(!key_lt(key, keys[keys.len() - 1]));
            lemma_child_index_is(rest, key, p - 1);
        } else {
            assert(key_lt(key, keys[keys.len() - 1]));
            lemma_child_index_is(rest, key, p);
        }
    }
}

/// Among ascending keys, `child_index` splits them into those not after `key`
/// and those after it.
pub proof fn lemma_child_index_splits<K: PartialOrd>(keys: Seq<K>, key: K)
    requires
        total_order::<K>(),
        strictly_sorted(keys),
    ensures
        0 <= child_index(keys, key) <= keys.len(),
        forall|j: int| 0 <= j < child_index(keys, key) ==> !key_lt(key, #[trigger] keys[j]),
        forall|j: int| child_index(keys, key) <= j < keys.len() ==> key_lt(key, #[trigger] keys[j]),
    decreases keys.len(),
{
    reveal(total_order);
    if keys.len() > 0 {
        let rest = keys.drop_last();
        let last = keys.last();
        assert forall|i: int, j: int| 0 <= i < j < rest.len() implies key_lt(
            #[trigger] rest[i],
            #[trigger] rest[j],
        ) by {
            assert(key_lt(keys[i], keys[j]));
        }
        lemma_child_index_splits(rest, key);
        let c = child_index(rest, key);
        if !key_lt(key, last) {
            if c < rest.len() {
                assert(key_lt(key, rest[c]));
                assert(key_lt(keys[c], keys[keys.len() - 1]));
                assert(key_lt(key, last));
            }
            assert forall|j: int| 0 <= j < c + 1 implies !key_lt(key, #[trigger] keys[j]) by {
                if j < c {
                    assert(!key_lt(key, rest[j]));
                }
            }
        } else {
            assert forall|j: int| c <= j < keys.len() implies key_lt(key, #[trigger] keys[j]) by {
                if j < rest.len() {
                    assert(key_lt(key, rest[j]));
                }
            }
            assert forall|j: int| 0 <= j < c implies !key_lt(key, #[trigger] keys[j]) by {
                assert(!key_lt(key, rest[j]));
            }
        }
    }
}

/// No key occurs twice among ascending keys.
pub proof fn lemma_sorted_distinct<K: PartialOrd>(keys: Seq<K>)
    requires
        total_order::<K>(),
        strictly_sorted(keys),
    ensures
        forall|i: int, j: int|
            0 <= i < keys.len() && 0 <= j < keys.len() && #[trigger] keys[i] == #[trigger] keys[j]
                ==> i == j,
{
    reveal(total_order);
    assert forall|i: int, j: int|
        0 <= i < keys.len() && 0 <= j < keys.len() && #[trigger] keys[i] == #[trigger] keys[j]
        implies i == j by {
        if i < j {
            assert(key_lt(keys[i], keys[j]));
        } else if j < i {
            assert(key_lt(keys[j], keys[i]));
        }
    }
}

/// Replacing the value at the position of a key that a leaf holds changes the
/// leaf's answer for that key and for no other.
pub proof fn lemma_leaf_replace<K: PartialOrd, V>(keys: Seq<K>, values: Seq<V>, i: int, value: V)
    requires
        total_order::<K>(),
        strictly_sorted(keys),
        keys.len() == values.len(),
        0 <= i < keys.len(),
    ensures
        forall|k: K| #[trigger]
            leaf_lookup(keys, values.update(i, value), k) == if k == keys[i] {
                Some(value)
            } else {
                leaf_lookup(keys, values, k)
            },
{
    lemma_sorted_distinct(keys);
    assert forall|k: K| #[trigger]
        leaf_lookup(keys, values.update(i, value), k) == if k == keys[i] {
            Some(value)
        } else {
            leaf_lookup(keys, values, k)
        } by {
        if exists|j: int| 0 <= j < keys.len() && keys[j] == k {
            let c = choose|j: int| 0 <= j < keys.len() && keys[j] == k;
            if k == keys[i] {
                assert(c == i);
            } else {
                assert(c != i);
            }
        }
    }
}

/// Inserting a key that a leaf lacks, at the position that keeps the keys
/// ascending, adds that key with its value and changes nothing else.
pub proof fn lemma_leaf_insert<K: PartialOrd, V>(
    keys: Seq<K>,
    values: Seq<V>,
    pos: int,
    key: K,
    value: V,
)
    requires
        total_order::<K>(),
        strictly_sorted(keys),
        keys.len() == values.len(),
        0 <= pos <= keys.len(),
        forall|j: int| 0 <= j < pos ==> key_lt(#[trigger] keys[j], key),
        forall|j: int| pos <= j < keys.len() ==> key_lt(key, #[trigger] keys[j]),
    ensures
        strictly_sorted(keys.insert(pos, key)),
        leaf_lookup(keys, values, key) is None,
        forall|k: K| #[trigger]
            leaf_lookup(keys.insert(pos, key), values.insert(pos, value), k) == if k == key {
                Some(value)
            } else {
                leaf_lookup(keys, values, k)
            },
{
    reveal(total_order);
    let keys2 = keys.insert(pos, key);
    let values2 = values.insert(pos, value);
    assert forall|i: int, j: int| 0 <= i < j < keys2.len() implies key_lt(
        #[trigger] keys2[i],
        #[trigger] keys2[j],
    ) by {
        if j < pos {
            assert(key_lt(keys[i], keys[j]));
        } else if j == pos {
            assert(key_lt(keys[i], key));
        } else if i < pos {
            assert(key_lt(keys[i], key));
            assert(key_lt(key, keys[j - 1]));
        } else if i == pos {
            assert(key_lt(key, keys[j - 1]));
        } else {
            assert(key_lt(keys[i - 1], keys[j - 1]));
        }
    }
    lemma_sorted_distinct(keys);
    lemma_sorted_distinct(keys2);
    if exists|j: int| 0 <= j < keys.len() && keys[j] == key {
        let c = choose|j: int| 0 <= j < keys.len() && keys[j] == key;
        if c < pos {
            assert(key_lt(keys[c], key));
        } else {
            assert(key_lt(key, keys[c]));
        }
    }
    assert forall|k: K| #[trigger]
        leaf_lookup(keys2, values2, k) == if k == key {
            Some(value)
        } else {
            leaf_lookup(keys, values, k)
        } by {
        if k == key {
            assert(keys2[pos] == key);
            let c = choose|j: int| 0 <= j < keys2.len() && keys2[j] == k;
            assert(c == pos);
        } else if exists|j: int| 0 <= j < keys.len() && keys[j] == k {
            let c = choose|j: int| 0 <= j < keys.len() && keys[j] == k;
            let c_shift = if c < pos { c } else { c + 1 };
            assert(keys2[c_shift] == k);
            let c2 = choose|j: int| 0 <= j < keys2.len() && keys2[j] == k;
            assert(c2 == c_shift);
        } else if exists|j: int| 0 <= j < keys2.len() && keys2[j] == k {
            let c2 = choose|j: int| 0 <= j < keys2.len() && keys2[j] == k;
            let c = if c2 < pos { c2 } else { c2 - 1 };
            assert(keys[c] == k);
        }
    }
}

/// Cutting a leaf's ascending keys and their values at `mid` gives two leaves:
/// the first holds the keys below the key at `mid`, the second the others, and
/// each answers for its keys as the whole did.
pub proof fn lemma_leaf_cut<K: PartialOrd, V>(keys: Seq<K>, values: Seq<V>, mid: int)
    requires
        total_order::<K>(),
        strictly_sorted(keys),
        keys.len() == values.len(),
        0 <= mid < keys.len(),
    ensures
        strictly_sorted(keys.subrange(0, mid)),
        strictly_sorted(keys.subrange(mid, keys.len() as int)),
        forall|k: K| #[trigger]
            leaf_lookup(keys.subrange(0, mid), values.subrange(0, mid), k) == if key_lt(
                k,
                keys[mid],
            ) {
                leaf_lookup(keys, values, k)
            } else {
                None
            },
        forall|k: K| #[trigger]
            leaf_lookup(
                keys.subrange(mid, keys.len() as int),
                values.subrange(mid, keys.len() as int),
                k,
            ) == if key_lt(k, keys[mid]) {
                None
            } else {
                leaf_lookup(keys, values, k)
            },
{
    reveal(total_order);
    let n = keys.len() as int;
    let lk = keys.subrange(0, mid);
    let lv = values.subrange(0, mid);
    let rk = keys.subrange(mid, n);
    let rv = values.subrange(mid, n);
    assert forall|i: int, j: int| 0 <= i < j < lk.len() implies key_lt(
        #[trigger] lk[i],
        #[trigger] lk[j],
    ) by {
        assert(key_lt(keys[i], keys[j]));
    }
    assert forall|i: int, j: int| 0 <= i < j < rk.len() implies key_lt(
        #[trigger] rk[i],
        #[trigger] rk[j],
    ) by {
        assert(key_lt(keys[mid + i], keys[mid + j]));
    }
    lemma_sorted_distinct(keys);
    assert forall|k: K| #[trigger]
        leaf_lookup(lk, lv, k) == if key_lt(k, keys[mid]) {
            leaf_lookup(keys, values, k)
        } else {
            None
        } by {
        if exists|j: int| 0 <= j < lk.len() && lk[j] == k {
            let c = choose|j: int| 0 <= j < lk.len() && lk[j] == k;
            assert(keys[c] == k);
            assert(key_lt(keys[c], keys[mid]));
            let c0 = choose|j: int| 0 <= j < keys.len() && keys[j] == k;
            assert(c0 == c);
        } else if exists|j: int| 0 <= j < keys.len() && keys[j] == k {
            let c0 = choose|j: int| 0 <= j < keys.len() && keys[j] == k;
            if c0 < mid {
                assert(lk[c0] == k);
            } else if c0 > mid {
                assert(key_lt(keys[mid], keys[c0]));
            }
        }
    }
    assert forall|k: K| #[trigger]
        leaf_lookup(rk, rv, k) == if key_lt(k, keys[mid]) {
            None
        } else {
            leaf_lookup(keys, values, k)
        } by {
        if exists|j: int| 0 <= j < rk.len() && rk[j] == k {
            let c = choose|j: int| 0 <= j < rk.len() && rk[j] == k;
            assert(keys[mid + c] == k);
            if c > 0 {
                assert(key_lt(keys[mid], keys[mid + c]));
            }
            let c0 = choose|j: int| 0 <= j < keys.len() && keys[j] == k;
            assert(c0 == mid + c);
        } else if exists|j: int| 0 <= j < keys.len() && keys[j] == k {
            let c0 = choose|j: int| 0 <= j < keys.len() && keys[j] == k;
            if c0 >= mid {
                assert(rk[c0 - mid] == k);
            } else {
                assert(key_lt(keys[c0], keys[mid]));
            }
        }
    }
}



/// Putting a number in the place of another changes the sum by their
/// difference.
pub proof fn lemma_sum_update(s: Seq<nat>, i: int, v: nat)
    requires
        0 <= i < s.len(),
    ensures
        sum(s.update(i, v)) == sum(s) - s[i] + v,
    decreases s.len(),
{
    if i == s.len() - 1 {
        assert(s.update(i, v).drop_last() =~= s.drop_last());
    } else {
        assert(s.update(i, v).drop_last() =~= s.drop_last().update(i, v));
        lemma_sum_update(s.drop_last(), i, v);
    }
}

/// Inserting a number adds it to the sum.
pub proof fn lemma_sum_insert(s: Seq<nat>, i: int, v: nat)
    requires
        0 <= i <= s.len(),
    ensures
        sum(s.insert(i, v)) == sum(s) + v,
    decreases s.len(),
{
    if i == s.len() {
        assert(s.insert(i, v).drop_last() =~= s);
    } else {
        assert(s.insert(i, v).drop_last() =~= s.drop_last().insert(i, v));
        lemma_sum_insert(s.drop_last(), i, v);
    }
}

/// The sum of two sequences in a row is the sum of their sums.
pub proof fn lemma_sum_concat(a: Seq<nat>, b: Seq<nat>)
    ensures
        sum(a + b) == sum(a) + sum(b),
    decreases b.len(),
{
    if b.len() == 0 {
        assert(a + b =~= a);
    } else {
        assert((a + b).drop_last() =~= a + b.drop_last());
        lemma_sum_concat(a, b.drop_last());
    }
}

/// A well-formed node that has a key of its own stores its first key.
pub proof fn lemma_first_key_stored<K: PartialOrd, V>(node: Node<K, V>)
    requires
        total_order::<K>(),
        node.wf(),
        node.keys().len() >= 1,
    ensures
        node.lookup(node.keys()[0]) is Some,
{
    reveal(children_ordered);
    reveal(total_order);
    let keys = node.keys();
    match node {
        Node::Leaf { keys: leaf_keys, values, .. } => {
            assert(0 <= 0 < keys.len() && keys[0] == keys[0]);
        },
        Node::Inner { keys: seps, nodes } => {
            assert forall|j: int| 1 <= j < keys.len() implies key_lt(keys[0], #[trigger] keys[j]) by {
                assert(key_lt(keys[0], keys[j]));
            }
            lemma_child_index_is(keys, keys[0], 1);
            assert(nodes@[1].lookup(keys[0]) is Some);
        },
    }
}

/// Putting, in the place of the child that `key` belongs to, a child that
/// stores `value` for `key` and is otherwise as the old one keeps the children
/// ordered and changes the answers and the count as that child's changed.
pub proof fn lemma_inner_replace<K: PartialOrd, V>(
    keys: Seq<K>,
    nodes: Seq<Node<K, V>>,
    idx: int,
    child: Node<K, V>,
    key: K,
    value: V,
)
    requires
        total_order::<K>(),
        inner_wf(keys, nodes),
        idx == child_index(keys, key),
        child.wf(),
        child.height() == nodes[idx].height(),
        child is Leaf ==> child->cap == NODE_CAPACITY,
        forall|k: K| #[trigger]
            child.lookup(k) == if k == key {
                Some(value)
            } else {
                nodes[idx].lookup(k)
            },
    ensures
        0 <= idx < nodes.len(),
        inner_wf(keys, nodes.update(idx, child)),
        forall|k: K| #[trigger]
            inner_lookup(keys, nodes.update(idx, child), k) == if k == key {
                Some(value)
            } else {
                inner_lookup(keys, nodes, k)
            },
        sum(child_counts(nodes.update(idx, child))) == sum(child_counts(nodes)) - nodes[idx].count()
            + child.count(),
{
    reveal(children_ordered);
    lemma_child_index_splits(keys, key);
    let nodes2 = nodes.update(idx, child);
    assert forall|i: int| 0 <= i < nodes2.len() implies (#[trigger] nodes2[i]).wf() by {
        if i != idx {
            assert(nodes[i].wf());
        }
    }
    assert forall|i: int| 0 <= i < nodes2.len() implies (#[trigger] nodes2[i]).height()
        == nodes2[0].height() by {
        assert(nodes[i].height() == nodes[0].height());
        assert(nodes[idx].height() == nodes[0].height());
    }
    assert forall|i: int| 0 <= i < nodes2.len() && (#[trigger] nodes2[i]) is Leaf implies nodes2[i]->cap
        == NODE_CAPACITY by {
        if i != idx {
            assert(nodes[i] is Leaf);
        }
    }
    assert forall|i: int, k: K|
        0 <= i < nodes2.len() && (#[trigger] nodes2[i].lookup(k)) is Some implies {
        &&& i < keys.len() ==> key_lt(k, keys[i])
        &&& 0 < i ==> !key_lt(k, keys[i - 1])
    } by {
        if i != idx {
            assert(nodes[i].lookup(k) is Some);
        } else if k != key {
            assert(nodes[idx].lookup(k) is Some);
        }
    }
    assert forall|i: int| 0 <= i < keys.len() implies nodes2[i + 1].lookup(#[trigger] keys[i]) is Some by {
        assert(nodes[i + 1].lookup(keys[i]) is Some);
    }
    assert forall|k: K| #[trigger]
        inner_lookup(keys, nodes2, k) == if k == key {
            Some(value)
        } else {
            inner_lookup(keys, nodes, k)
        } by {
        lemma_child_index_splits(keys, k);
        let c = child_index(keys, k);
        if c == idx {
            assert(nodes2[c] == child);
            assert(child.lookup(k) == if k == key {
                Some(value)
            } else {
                nodes[idx].lookup(k)
            });
        } else {
            assert(nodes2[c] == nodes[c]);
            assert(k != key);
        }
    }
    assert(child_counts(nodes2) =~= child_counts(nodes).update(idx, child.count()));
    lemma_sum_update(child_counts(nodes), idx, child.count());
}

/// The median that a split child promotes lies strictly between the two
/// separators around that child, so the separators stay ascending with it.
pub proof fn lemma_splice_keys<K: PartialOrd, V>(
    keys: Seq<K>,
    nodes: Seq<Node<K, V>>,
    idx: int,
    median: K,
    left: Node<K, V>,
    right: Node<K, V>,
    key: K,
    value: V,
)
    requires
        total_order::<K>(),
        inner_wf(keys, nodes),
        idx == child_index(keys, key),
        0 <= idx < nodes.len(),
        split_of(nodes[idx], median, left, right, key, value),
        left.keys().len() >= 1,
    ensures
        0 < idx ==> key_lt(keys[idx - 1], median),
        idx < keys.len() ==> key_lt(median, keys[idx]),
        strictly_sorted(keys.insert(idx, median)),
{
    assert(strictly_sorted(keys) && nodes.len() == keys.len() + 1) by {
        reveal(children_ordered);
    }
    lemma_child_index_splits(keys, key);
    let child = nodes[idx];
    let keys2 = keys.insert(idx, median);
    assert(left.wf()) by {
        reveal(split_of);
    }
    lemma_first_key_stored(left);
    let kl = left.keys()[0];
    assert(key_lt(kl, median) && (kl == key || child.lookup(kl) is Some)) by {
        reveal(split_of);
    }
    assert(!key_lt(median, median)) by {
        reveal(total_order);
    }
    assert(median == key || child.lookup(median) is Some) by {
        reveal(split_of);
        assert(right.lookup(median) is Some);
    }
    assert(strictly_sorted(keys) && nodes.len() == keys.len() + 1) by {
        reveal(children_ordered);
    }
    if idx > 0 {
        assert(!key_lt(kl, keys[idx - 1])) by {
            reveal(children_ordered);
        }
        assert(key_lt(keys[idx - 1], median)) by {
            reveal(total_order);
            if keys[idx - 1] != kl {
                assert(key_lt(keys[idx - 1], kl));
            }
        }
    }
    if idx < keys.len() {
        assert(key_lt(median, keys[idx])) by {
            reveal(children_ordered);
        }
    }
    assert forall|i: int, j: int| 0 <= i < j < keys2.len() implies key_lt(
        #[trigger] keys2[i],
        #[trigger] keys2[j],
    ) by {
        reveal(total_order);
        if j < idx {
            assert(key_lt(keys[i], keys[j]));
        } else if j == idx {
            if i < idx - 1 {
                assert(key_lt(keys[i], keys[idx - 1]));
            }
        } else if i == idx {
            if j - 1 > idx {
                assert(key_lt(keys[idx], keys[j - 1]));
            }
        } else if i < idx {
            assert(key_lt(keys[i], keys[j - 1]));
        } else {
            assert(key_lt(keys[i - 1], keys[j - 1]));
        }
    }
}

/// With the two halves of a split child in its place and the promoted median
/// among the separators, the children are ordered.
pub proof fn lemma_splice_ordered<K: PartialOrd, V>(
    keys: Seq<K>,
    nodes: Seq<Node<K, V>>,
    idx: int,
    median: K,
    left: Node<K, V>,
    right: Node<K, V>,
    key: K,
    value: V,
)
    requires
        total_order::<K>(),
        inner_wf(keys, nodes),
        idx == child_index(keys, key),
        0 <= idx < nodes.len(),
        split_of(nodes[idx], median, left, right, key, value),
        left.keys().len() >= 1,
    ensures
        inner_wf(keys.insert(idx, median), nodes.update(idx, left).insert(idx + 1, right)),
{
    reveal(children_ordered);
    reveal(split_of);
    lemma_child_index_splits(keys, key);
    lemma_splice_keys(keys, nodes, idx, median, left, right, key, value);
    let child = nodes[idx];
    let keys2 = keys.insert(idx, median);
    let nodes2 = nodes.update(idx, left).insert(idx + 1, right);
    assert forall|i: int| 0 <= i < nodes2.len() implies (#[trigger] nodes2[i]).wf() by {
        if i < idx {
            assert(nodes[i].wf());
        } else if i > idx + 1 {
            assert(nodes[i - 1].wf());
        }
    }
    assert(nodes[idx].height() == nodes[0].height());
    assert forall|i: int| 0 <= i < nodes2.len() implies (#[trigger] nodes2[i]).height()
        == nodes2[0].height() by {
        if i < idx {
            assert(nodes[i].height() == nodes[0].height());
        } else if i > idx + 1 {
            assert(nodes[i - 1].height() == nodes[0].height());
        }
        if 0 < idx {
            assert(nodes2[0] == nodes[0]);
        }
    }
    assert forall|i: int| 0 <= i < nodes2.len() && (#[trigger] nodes2[i]) is Leaf implies nodes2[i]->cap
        == NODE_CAPACITY by {
        if i < idx {
            assert(nodes[i] is Leaf);
        } else if i > idx + 1 {
            assert(nodes[i - 1] is Leaf);
        }
    }
    assert forall|i: int, k: K|
        0 <= i < nodes2.len() && (#[trigger] nodes2[i].lookup(k)) is Some implies {
        &&& i < keys2.len() ==> key_lt(k, keys2[i])
        &&& 0 < i ==> !key_lt(k, keys2[i - 1])
    } by {
        if i < idx {
            assert(nodes2[i] == nodes[i]);
            assert(nodes[i].lookup(k) is Some);
        } else if i == idx {
            assert(nodes2[i] == left);
            assert(left.lookup(k) is Some);
            assert(key_lt(k, median));
            assert(k == key || child.lookup(k) is Some);
        } else if i == idx + 1 {
            assert(nodes2[i] == right);
            assert(right.lookup(k) is Some);
            assert(!key_lt(k, median));
            assert(k == key || child.lookup(k) is Some);
        } else {
            assert(nodes2[i] == nodes[i - 1]);
            assert(nodes[i - 1].lookup(k) is Some);
        }
    }
    assert forall|i: int| 0 <= i < keys2.len() implies nodes2[i + 1].lookup(#[trigger] keys2[i]) is Some by {
        if i + 1 < idx {
            assert(keys2[i] == keys[i]);
            assert(nodes2[i + 1] == nodes[i + 1]);
        } else if i + 1 == idx {
            let sep = keys[i];
            assert(nodes[i + 1].lookup(sep) is Some);
            assert(key_lt(sep, median));
            assert(left.lookup(sep) is Some);
        } else if i == idx {
            assert(nodes2[i + 1] == right);
            assert(keys2[i] == median);
        } else {
            assert(keys2[i] == keys[i - 1]);
            assert(nodes2[i + 1] == nodes[i]);
            assert(nodes[i - 1 + 1].lookup(keys[i - 1]) is Some);
        }
    }
}

/// With the two halves of a split child in its place and the promoted median
/// among the separators, the new key is stored and no other answer changes.
pub proof fn lemma_splice_lookup<K: PartialOrd, V>(
    keys: Seq<K>,
    nodes: Seq<Node<K, V>>,
    idx: int,
    median: K,
    left: Node<K, V>,
    right: Node<K, V>,
    key: K,
    value: V,
    k: K,
)
    requires
        total_order::<K>(),
        inner_wf(keys, nodes),
        idx == child_index(keys, key),
        0 <= idx < nodes.len(),
        split_of(nodes[idx], median, left, right, key, value),
        left.keys().len() >= 1,
    ensures
        inner_lookup(keys.insert(idx, median), nodes.update(idx, left).insert(idx + 1, right), k)
            == if k == key {
            Some(value)
        } else {
            inner_lookup(keys, nodes, k)
        },
{
    lemma_splice_keys(keys, nodes, idx, median, left, right, key, value);
    let child = nodes[idx];
    let keys2 = keys.insert(idx, median);
    let nodes2 = nodes.update(idx, left).insert(idx + 1, right);
    assert(strictly_sorted(keys) && nodes.len() == keys.len() + 1) by {
        reveal(children_ordered);
    }
    lemma_child_index_splits(keys, k);
    let c = child_index(keys, k);
    let p = if c < idx {
        c
    } else if c > idx {
        c + 1
    } else if key_lt(k, median) {
        idx
    } else {
        idx + 1
    };
    assert forall|j: int| 0 <= j < p implies !key_lt(k, #[trigger] keys2[j]) by {
        reveal(total_order);
        if j < idx {
            assert(!key_lt(k, keys[j]));
        } else if j == idx {
            if c > idx {
                assert(!key_lt(k, keys[idx]));
                assert(key_lt(median, keys[idx]));
            }
        } else {
            assert(!key_lt(k, keys[j - 1]));
        }
    }
    assert forall|j: int| p <= j < keys2.len() implies key_lt(k, #[trigger] keys2[j]) by {
        reveal(total_order);
        if j < idx {
            assert(key_lt(k, keys[j]));
        } else if j == idx {
            if c < idx {
                assert(key_lt(k, keys[idx - 1]));
                assert(key_lt(keys[idx - 1], median));
            }
        } else {
            assert(key_lt(k, keys[j - 1]));
        }
    }
    lemma_child_index_is(keys2, k, p);
    assert(inner_lookup(keys2, nodes2, k) == nodes2[p].lookup(k));
    assert(inner_lookup(keys, nodes, k) == nodes[c].lookup(k));
    if c < idx {
        assert(nodes2[p] == nodes[c]);
        assert(k != key);
    } else if c > idx {
        assert(nodes2[p] == nodes[c]);
        assert(k != key);
    } else {
        assert((if key_lt(k, median) {
            left.lookup(k)
        } else {
            right.lookup(k)
        }) == if k == key {
            Some(value)
        } else {
            child.lookup(k)
        }) by {
            reveal(split_of);
        }
        if key_lt(k, median) {
            assert(nodes2[p] == left);
        } else {
            assert(nodes2[p] == right);
        }
    }
}

/// Putting the two halves of a split child in its place, with the promoted
/// median among the separators, keeps the children ordered, stores the new
/// key, changes no other answer, and counts one key more.
pub proof fn lemma_inner_splice<K: PartialOrd, V>(
    keys: Seq<K>,
    nodes: Seq<Node<K, V>>,
    idx: int,
    median: K,
    left: Node<K, V>,
    right: Node<K, V>,
    key: K,
    value: V,
)
    requires
        total_order::<K>(),
        inner_wf(keys, nodes),
        idx == child_index(keys, key),
        0 <= idx < nodes.len(),
        split_of(nodes[idx], median, left, right, key, value),
        left.keys().len() >= 1,
    ensures
        inner_wf(keys.insert(idx, median), nodes.update(idx, left).insert(idx + 1, right)),
        forall|k: K| #[trigger]
            inner_lookup(
                keys.insert(idx, median),
                nodes.update(idx, left).insert(idx + 1, right),
                k,
            ) == if k == key {
                Some(value)
            } else {
                inner_lookup(keys, nodes, k)
            },
        sum(child_counts(nodes.update(idx, left).insert(idx + 1, right))) == sum(
            child_counts(nodes),
        ) + 1,
{
    let keys2 = keys.insert(idx, median);
    let nodes2 = nodes.update(idx, left).insert(idx + 1, right);
    lemma_splice_ordered(keys, nodes, idx, median, left, right, key, value);
    assert forall|k: K| #[trigger]
        inner_lookup(keys2, nodes2, k) == if k == key {
            Some(value)
        } else {
            inner_lookup(keys, nodes, k)
        } by {
        lemma_splice_lookup(keys, nodes, idx, median, left, right, key, value, k);
    }
    assert(left.count() + right.count() == nodes[idx].count() + 1) by {
        reveal(split_of);
    }
    assert(child_counts(nodes2) =~= child_counts(nodes).update(idx, left.count()).insert(
        idx + 1,
        right.count(),
    ));
    lemma_sum_update(child_counts(nodes), idx, left.count());
    lemma_sum_insert(child_counts(nodes).update(idx, left.count()), idx + 1, right.count());
}

/// The separators below separator `mid`, with their children, are the inside
/// of a well-formed inner node.
proof fn lemma_cut_left<K: PartialOrd, V>(keys: Seq<K>, nodes: Seq<Node<K, V>>, mid: int)
    requires
        inner_wf(keys, nodes),
        0 <= mid < keys.len(),
    ensures
        inner_wf(keys.subrange(0, mid), nodes.subrange(0, mid + 1)),
{
    reveal(children_ordered);
    let lk = keys.subrange(0, mid);
    let ln = nodes.subrange(0, mid + 1);
    assert forall|i: int, j: int| 0 <= i < j < lk.len() implies key_lt(
        #[trigger] lk[i],
        #[trigger] lk[j],
    ) by {
        assert(key_lt(keys[i], keys[j]));
    }
    assert forall|i: int| 0 <= i < ln.len() implies (#[trigger] ln[i]).wf() by {
        assert(nodes[i].wf());
    }
    assert forall|i: int| 0 <= i < ln.len() implies (#[trigger] ln[i]).height() == ln[0].height() by {
        assert(nodes[i].height() == nodes[0].height());
    }
    assert forall|i: int| 0 <= i < ln.len() && (#[trigger] ln[i]) is Leaf implies ln[i]->cap
        == NODE_CAPACITY by {
        assert(nodes[i] is Leaf);
    }
    assert forall|i: int, k: K| 0 <= i < ln.len() && (#[trigger] ln[i].lookup(k)) is Some implies {
        &&& i < lk.len() ==> key_lt(k, lk[i])
        &&& 0 < i ==> !key_lt(k, lk[i - 1])
    } by {
        assert(nodes[i].lookup(k) is Some);
    }
    assert forall|i: int| 0 <= i < lk.len() implies ln[i + 1].lookup(#[trigger] lk[i]) is Some by {
        assert(nodes[i + 1].lookup(keys[i]) is Some);
    }
}

/// The separators above separator `mid`, with their children, are the inside
/// of a well-formed inner node.
proof fn lemma_cut_right<K: PartialOrd, V>(keys: Seq<K>, nodes: Seq<Node<K, V>>, mid: int)
    requires
        inner_wf(keys, nodes),
        0 <= mid < keys.len(),
    ensures
        inner_wf(
            keys.subrange(mid + 1, keys.len() as int),
            nodes.subrange(mid + 1, nodes.len() as int),
        ),
        nodes[mid + 1].height() == nodes[0].height(),
        nodes[mid + 1].lookup(keys[mid]) is Some,
{
    reveal(children_ordered);
    let n = keys.len() as int;
    let rk = keys.subrange(mid + 1, n);
    let rn = nodes.subrange(mid + 1, n + 1);
    assert forall|i: int, j: int| 0 <= i < j < rk.len() implies key_lt(
        #[trigger] rk[i],
        #[trigger] rk[j],
    ) by {
        assert(key_lt(keys[mid + 1 + i], keys[mid + 1 + j]));
    }
    assert(nodes[mid + 1].height() == nodes[0].height());
    assert forall|i: int| 0 <= i < rn.len() implies (#[trigger] rn[i]).wf() by {
        assert(nodes[mid + 1 + i].wf());
    }
    assert forall|i: int| 0 <= i < rn.len() implies (#[trigger] rn[i]).height() == rn[0].height() by {
        assert(nodes[mid + 1 + i].height() == nodes[0].height());
    }
    assert forall|i: int| 0 <= i < rn.len() && (#[trigger] rn[i]) is Leaf implies rn[i]->cap
        == NODE_CAPACITY by {
        assert(nodes[mid + 1 + i] is Leaf);
    }
    assert forall|i: int, k: K| 0 <= i < rn.len() && (#[trigger] rn[i].lookup(k)) is Some implies {
        &&& i < rk.len() ==> key_lt(k, rk[i])
        &&& 0 < i ==> !key_lt(k, rk[i - 1])
    } by {
        assert(nodes[mid + 1 + i].lookup(k) is Some);
    }
    assert forall|i: int| 0 <= i < rk.len() implies rn[i + 1].lookup(#[trigger] rk[i]) is Some by {
        assert(nodes[mid + 1 + i + 1].lookup(keys[mid + 1 + i]) is Some);
    }
    assert(nodes[mid + 1].lookup(keys[mid]) is Some);
}

/// What the two halves of a cut inner node answer for `k`: the lower half as
/// the whole did for a key below separator `mid` and nothing otherwise, the
/// upper half the other way round.
proof fn lemma_cut_lookup<K: PartialOrd, V>(keys: Seq<K>, nodes: Seq<Node<K, V>>, mid: int, k: K)
    requires
        total_order::<K>(),
        inner_wf(keys, nodes),
        0 <= mid < keys.len(),
    ensures
        inner_lookup(keys.subrange(0, mid), nodes.subrange(0, mid + 1), k) == if key_lt(
            k,
            keys[mid],
        ) {
            inner_lookup(keys, nodes, k)
        } else {
            None
        },
        inner_lookup(
            keys.subrange(mid + 1, keys.len() as int),
            nodes.subrange(mid + 1, nodes.len() as int),
            k,
        ) == if key_lt(k, keys[mid]) {
            None
        } else {
            inner_lookup(keys, nodes, k)
        },
{
    let n = keys.len() as int;
    let lk = keys.subrange(0, mid);
    let ln = nodes.subrange(0, mid + 1);
    let rk = keys.subrange(mid + 1, n);
    let rn = nodes.subrange(mid + 1, nodes.len() as int);
    assert(nodes.len() == n + 1 && strictly_sorted(keys)) by {
        reveal(children_ordered);
    }
    lemma_child_index_splits(keys, k);
    let c = child_index(keys, k);
    if key_lt(k, keys[mid]) {
        assert(c <= mid);
        assert forall|j: int| 0 <= j < c implies !key_lt(k, #[trigger] lk[j]) by {
            assert(!key_lt(k, keys[j]));
        }
        assert forall|j: int| c <= j < lk.len() implies key_lt(k, #[trigger] lk[j]) by {
            assert(key_lt(k, keys[j]));
        }
        lemma_child_index_is(lk, k, c);
        assert(ln[c] == nodes[c]);
        assert forall|j: int| 0 <= j < rk.len() implies key_lt(k, #[trigger] rk[j]) by {
            assert(key_lt(k, keys[mid + 1 + j]));
        }
        lemma_child_index_is(rk, k, 0);
        assert(rn[0] == nodes[mid + 1]);
        assert(nodes[mid + 1].lookup(k) is None) by {
            reveal(children_ordered);
            if nodes[mid + 1].lookup(k) is Some {
                assert(!key_lt(k, keys[mid + 1 - 1]));
            }
        }
    } else {
        assert(c > mid);
        assert forall|j: int| 0 <= j < mid implies !key_lt(k, #[trigger] lk[j]) by {
            assert(!key_lt(k, keys[j]));
        }
        lemma_child_index_is(lk, k, mid);
        assert(ln[mid] == nodes[mid]);
        assert(nodes[mid].lookup(k) is None) by {
            reveal(children_ordered);
            if nodes[mid].lookup(k) is Some {
                assert(key_lt(k, keys[mid]));
            }
        }
        assert forall|j: int| 0 <= j < c - mid - 1 implies !key_lt(k, #[trigger] rk[j]) by {
            assert(!key_lt(k, keys[mid + 1 + j]));
        }
        assert forall|j: int| c - mid - 1 <= j < rk.len() implies key_lt(k, #[trigger] rk[j]) by {
            assert(key_lt(k, keys[mid + 1 + j]));
        }
        lemma_child_index_is(rk, k, c - mid - 1);
        assert(rn[c - mid - 1] == nodes[c]);
    }
}

/// Cutting an inner node's separators and children at separator `mid` gives
/// two ordered families of children: the first answers for the keys below
/// that separator, the second for the others, and between them they count
/// the keys of the whole.
pub proof fn lemma_inner_cut<K: PartialOrd, V>(keys: Seq<K>, nodes: Seq<Node<K, V>>, mid: int)
    requires
        total_order::<K>(),
        inner_wf(keys, nodes),
        0 <= mid < keys.len(),
    ensures
        nodes.len() == keys.len() + 1,
        inner_wf(keys.subrange(0, mid), nodes.subrange(0, mid + 1)),
        inner_wf(
            keys.subrange(mid + 1, keys.len() as int),
            nodes.subrange(mid + 1, nodes.len() as int),
        ),
        forall|k: K| #[trigger]
            inner_lookup(keys.subrange(0, mid), nodes.subrange(0, mid + 1), k) == if key_lt(
                k,
                keys[mid],
            ) {
                inner_lookup(keys, nodes, k)
            } else {
                None
            },
        forall|k: K| #[trigger]
            inner_lookup(
                keys.subrange(mid + 1, keys.len() as int),
                nodes.subrange(mid + 1, nodes.len() as int),
                k,
            ) == if key_lt(k, keys[mid]) {
                None
            } else {
                inner_lookup(keys, nodes, k)
            },
        inner_lookup(keys, nodes, keys[mid]) is Some,
        sum(child_counts(nodes.subrange(0, mid + 1))) + sum(
            child_counts(nodes.subrange(mid + 1, nodes.len() as int)),
        ) == sum(child_counts(nodes)),
        nodes[mid + 1].height() == nodes[0].height(),
{
    let n = keys.len() as int;
    let lk = keys.subrange(0, mid);
    let ln = nodes.subrange(0, mid + 1);
    let rk = keys.subrange(mid + 1, n);
    let rn = nodes.subrange(mid + 1, nodes.len() as int);
    assert(nodes.len() == n + 1 && strictly_sorted(keys)) by {
        reveal(children_ordered);
    }
    lemma_cut_left(keys, nodes, mid);
    lemma_cut_right(keys, nodes, mid);
    assert forall|k: K| #[trigger]
        inner_lookup(lk, ln, k) == if key_lt(k, keys[mid]) {
            inner_lookup(keys, nodes, k)
        } else {
            None
        } by {
        lemma_cut_lookup(keys, nodes, mid, k);
    }
    assert forall|k: K| #[trigger]
        inner_lookup(rk, rn, k) == if key_lt(k, keys[mid]) {
            None
        } else {
            inner_lookup(keys, nodes, k)
        } by {
        lemma_cut_lookup(keys, nodes, mid, k);
    }
    assert(inner_lookup(keys, nodes, keys[mid]) is Some) by {
        reveal(total_order);
        assert forall|j: int| 0 <= j < mid + 1 implies !key_lt(keys[mid], #[trigger] keys[j]) by {
            if j < mid {
                assert(key_lt(keys[j], keys[mid]));
            }
        }
        assert forall|j: int| mid + 1 <= j < n implies key_lt(keys[mid], #[trigger] keys[j]) by {
            assert(key_lt(keys[mid], keys[j]));
        }
        lemma_child_index_is(keys, keys[mid], mid + 1);
    }
    assert(child_counts(nodes) =~= child_counts(ln) + child_counts(rn));
    lemma_sum_concat(child_counts(ln), child_counts(rn));
}

/// What a search among ascending separators found names the child that the
/// key belongs to: the one after an equal separator, else the one at the
/// insertion point.  It found the key exactly if the key occurs.
pub proof fn lemma_search_child<K: PartialOrd>(keys: Seq<K>, key: K, r: Result<usize, usize>)
    requires
        total_order::<K>(),
        strictly_sorted(keys),
        search_result(keys, key, r),
    ensures
        r is Ok <==> keys.contains(key),
        r matches Ok(i) ==> i < keys.len() && keys[i as int] == key && child_index(keys, key) == i + 1,
        r matches Err(p) ==> p <= keys.len() && child_index(keys, key) == p,
{
    reveal(total_order);
    match r {
        Ok(i) => {
            assert forall|j: int| 0 <= j < i + 1 implies !key_lt(key, #[trigger] keys[j]) by {
                if j < i {
                    assert(key_lt(keys[j], keys[i as int]));
                }
            }
            assert forall|j: int| i + 1 <= j < keys.len() implies key_lt(key, #[trigger] keys[j]) by {
                assert(key_lt(keys[i as int], keys[j]));
            }
            lemma_child_index_is(keys, key, i + 1);
        },
        Err(p) => {
            assert forall|j: int| 0 <= j < p implies !key_lt(key, #[trigger] keys[j]) by {
                assert(key_lt(keys[j], key));
            }
            lemma_child_index_is(keys, key, p as int);
            if keys.contains(key) {
                let j = choose|j: int| 0 <= j < keys.len() && keys[j] == key;
                if j < p {
                    assert(key_lt(keys[j], key));
                } else {
                    assert(key_lt(key, keys[j]));
                }
            }
        },
    }
}

/// An inner node whose child for `key` has taken `key` has taken it too.
pub proof fn lemma_node_replace<K: PartialOrd, V>(
    before: Node<K, V>,
    after: Node<K, V>,
    idx: int,
    key: K,
    value: V,
)
    requires
        total_order::<K>(),
        before is Inner,
        before.wf(),
        idx == child_index(before.keys(), key),
        after is Inner,
        after->Inner_keys@ == before->Inner_keys@,
        0 <= idx < before->nodes@.len(),
        after->nodes@ == before->nodes@.update(idx, after->nodes@[idx]),
        inserted(before->nodes@[idx], after->nodes@[idx], key, value),
    ensures
        inserted(before, after, key, value),
{
    reveal(children_ordered);
    reveal(inserted);
    let keys = before->Inner_keys@;
    let nodes = before->nodes@;
    let child = after->nodes@[idx];
    lemma_inner_child(before, idx);
    assert(nodes[idx] is Leaf ==> nodes[idx]->cap == NODE_CAPACITY);
    lemma_inner_replace(keys, nodes, idx, child, key, value);
    assert(after->nodes@[0].height() == nodes[0].height()) by {
        assert(nodes[idx].height() == nodes[0].height());
    }
    assert forall|k: K| #[trigger]
        after.lookup(k) == if k == key {
            Some(value)
        } else {
            before.lookup(k)
        } by {
        assert(after.lookup(k) == inner_lookup(keys, nodes.update(idx, child), k));
        assert(before.lookup(k) == inner_lookup(keys, nodes, k));
    }
    assert(before.lookup(key) == nodes[idx].lookup(key));
}

/// An inner node whose child for `key` has split, and which has taken the
/// promoted median and the two halves in the child's place, stores the new
/// key and is ordered; while it is within capacity it is the node with the
/// key inserted.
pub proof fn lemma_node_splice<K: PartialOrd, V>(
    before: Node<K, V>,
    after: Node<K, V>,
    idx: int,
    median: K,
    left: Node<K, V>,
    right: Node<K, V>,
    key: K,
    value: V,
)
    requires
        total_order::<K>(),
        before is Inner,
        before.wf(),
        idx == child_index(before.keys(), key),
        0 <= idx < before->nodes@.len(),
        before->nodes@[idx].overflows(key),
        split_of(before->nodes@[idx], median, left, right, key, value),
        after is Inner,
        after->Inner_keys@ == before->Inner_keys@.insert(idx, median),
        after->nodes@ == before->nodes@.update(idx, left).insert(idx + 1, right),
    ensures
        inner_wf(after->Inner_keys@, after->nodes@),
        before.lookup(key) is None,
        after.height() == before.height(),
        after.count() == before.count() + 1,
        forall|k: K| #[trigger]
            after.lookup(k) == if k == key {
                Some(value)
            } else {
                before.lookup(k)
            },
        after.keys().len() <= NODE_CAPACITY ==> inserted(before, after, key, value),
{
    let keys = before->Inner_keys@;
    let nodes = before->nodes@;
    let child = nodes[idx];
    lemma_inner_child(before, idx);
    assert(child.keys().len() >= NODE_CAPACITY && child.height() == nodes[0].height()) by {
        reveal(children_ordered);
        assert(child.wf());
        assert(child is Leaf ==> child->cap == NODE_CAPACITY);
    }
    assert(left.keys().len() >= 1 && left.height() == child.height() && child.lookup(key) is None) by {
        reveal(split_of);
    }
    lemma_inner_splice(keys, nodes, idx, median, left, right, key, value);
    assert(after->nodes@[0].height() == nodes[0].height());
    assert forall|k: K| #[trigger]
        after.lookup(k) == if k == key {
            Some(value)
        } else {
            before.lookup(k)
        } by {
        assert(after.lookup(k) == inner_lookup(after->Inner_keys@, after->nodes@, k));
        assert(before.lookup(k) == inner_lookup(keys, nodes, k));
    }
    assert(before.lookup(key) == nodes[idx].lookup(key));
    assert(after.count() == sum(child_counts(after->nodes@)));
    assert(before.count() == sum(child_counts(nodes)));
    if after.keys().len() <= NODE_CAPACITY {
        assert(all_wf(after->nodes@));
        assert(after.wf());
        assert(inserted(before, after, key, value)) by {
            reveal(inserted);
        }
    }
}

/// Cutting an inner node that took one key too many gives the two halves
/// that the node splits into.
pub proof fn lemma_node_halves<K: PartialOrd, V>(
    before: Node<K, V>,
    full: Node<K, V>,
    left: Node<K, V>,
    right: Node<K, V>,
    key: K,
    value: V,
)
    requires
        total_order::<K>(),
        before is Inner,
        before.lookup(key) is None,
        full is Inner,
        inner_wf(full->Inner_keys@, full->nodes@),
        full.keys().len() == before.keys().len() + 1,
        2 <= full.keys().len() <= NODE_CAPACITY + 1,
        full.height() == before.height(),
        full.count() == before.count() + 1,
        forall|k: K| #[trigger]
            full.lookup(k) == if k == key {
                Some(value)
            } else {
                before.lookup(k)
            },
        left is Inner,
        left->Inner_keys@ == full->Inner_keys@.subrange(0, full.keys().len() as int / 2),
        left->nodes@ == full->nodes@.subrange(0, full.keys().len() as int / 2 + 1),
        right is Inner,
        right->Inner_keys@ == full->Inner_keys@.subrange(
            full.keys().len() as int / 2 + 1,
            full.keys().len() as int,
        ),
        right->nodes@ == full->nodes@.subrange(
            full.keys().len() as int / 2 + 1,
            full->nodes@.len() as int,
        ),
    ensures
        split_of(before, full.keys()[full.keys().len() as int / 2], left, right, key, value),
{
    let keys = full->Inner_keys@;
    let nodes = full->nodes@;
    let mid = keys.len() as int / 2;
    let median = keys[mid];
    lemma_inner_cut(keys, nodes, mid);
    assert(left.wf());
    assert(right.wf());
    assert(left->nodes@[0] == nodes[0]);
    assert(right->nodes@[0] == nodes[mid + 1]);
    assert(left.height() == before.height());
    assert(right.height() == before.height());
    assert forall|k: K| (#[trigger] left.lookup(k)) is Some implies key_lt(k, median) by {
        assert(left.lookup(k) == inner_lookup(left->Inner_keys@, left->nodes@, k));
    }
    assert forall|k: K| (#[trigger] right.lookup(k)) is Some implies !key_lt(k, median) by {
        assert(right.lookup(k) == inner_lookup(right->Inner_keys@, right->nodes@, k));
    }
    assert forall|k: K|
        #![trigger left.lookup(k)]
        #![trigger right.lookup(k)]
        (if key_lt(k, median) {
            left.lookup(k)
        } else {
            right.lookup(k)
        }) == if k == key {
            Some(value)
        } else {
            before.lookup(k)
        } by {
        assert(left.lookup(k) == inner_lookup(left->Inner_keys@, left->nodes@, k));
        assert(right.lookup(k) == inner_lookup(right->Inner_keys@, right->nodes@, k));
        assert(full.lookup(k) == inner_lookup(keys, nodes, k));
        assert(full.lookup(k) == if k == key {
            Some(value)
        } else {
            before.lookup(k)
        });
    }
    assert(right.lookup(median) is Some) by {
        reveal(total_order);
        assert(right.lookup(median) == inner_lookup(right->Inner_keys@, right->nodes@, median));
        assert(!key_lt(median, median));
    }
    assert(left.count() == sum(child_counts(left->nodes@)));
    assert(right.count() == sum(child_counts(right->nodes@)));
    assert(full.count() == sum(child_counts(nodes)));
    assert(left.keys().len() == (before.keys().len() + 1) / 2);
    assert(split_of(before, median, left, right, key, value)) by {
        reveal(split_of);
    }
}

/// In a well-formed inner node, each child position up to the number of
/// separators names a well-formed child.
pub proof fn lemma_inner_child<K: PartialOrd, V>(node: Node<K, V>, idx: int)
    requires
        node is Inner,
        node.wf(),
    ensures
        node->nodes@.len() == node->Inner_keys@.len() + 1,
        node->Inner_keys@.len() <= NODE_CAPACITY,
        strictly_sorted(node->Inner_keys@),
        0 <= idx < node->nodes@.len() ==> node->nodes@[idx].wf(),
        inner_wf(node->Inner_keys@, node->nodes@),
{
    reveal(children_ordered);
}

/// What `inserted` says, spelled out.
pub proof fn lemma_inserted<K: PartialOrd, V>(before: Node<K, V>, after: Node<K, V>, key: K, value: V)
    requires
        inserted(before, after, key, value),
    ensures
        after.wf(),
        after.height() == before.height(),
        after.count() == before.count() + if before.lookup(key) is Some {
            0nat
        } else {
            1nat
        },
        forall|k: K| #[trigger]
            after.lookup(k) == if k == key {
                Some(value)
            } else {
                before.lookup(k)
            },
{
    reveal(inserted);
}

/// The two halves of a root that split are ordered around the promoted
/// median.
proof fn lemma_grow_root_ordered<K: PartialOrd, V>(
    before: Node<K, V>,
    median: K,
    left: Node<K, V>,
    right: Node<K, V>,
    key: K,
    value: V,
)
    requires
        split_of(before, median, left, right, key, value),
    ensures
        inner_wf(seq![median], seq![left, right]),
        left.height() == before.height(),
        left.count() + right.count() == before.count() + 1,
        before.lookup(key) is None,
{
    reveal(children_ordered);
    reveal(split_of);
    let keys = seq![median];
    let nodes = seq![left, right];
    assert forall|i: int, k: K|
        0 <= i < nodes.len() && (#[trigger] nodes[i].lookup(k)) is Some implies {
        &&& i < keys.len() ==> key_lt(k, keys[i])
        &&& 0 < i ==> !key_lt(k, keys[i - 1])
    } by {
        if i == 0 {
            assert(left.lookup(k) is Some);
        } else {
            assert(right.lookup(k) is Some);
        }
    }
    assert forall|i: int| 0 <= i < keys.len() implies nodes[i + 1].lookup(#[trigger] keys[i]) is Some by {
        assert(nodes[1] == right);
    }
}

/// The two halves of a root that split answer, between them, as the root
/// did, and for the new key with its value.
proof fn lemma_grow_root_lookup<K: PartialOrd, V>(
    before: Node<K, V>,
    median: K,
    left: Node<K, V>,
    right: Node<K, V>,
    key: K,
    value: V,
    k: K,
)
    requires
        split_of(before, median, left, right, key, value),
    ensures
        inner_lookup(seq![median], seq![left, right], k) == if k == key {
            Some(value)
        } else {
            before.lookup(k)
        },
{
    let keys = seq![median];
    let nodes = seq![left, right];
    assert(keys.drop_last() =~= Seq::<K>::empty());
    assert(child_index(keys.drop_last(), k) == 0);
    assert(keys.last() == median);
    if key_lt(k, median) {
        assert(child_index(keys, k) == 0);
        assert(nodes[0] == left);
        assert(inner_lookup(keys, nodes, k) == left.lookup(k));
    } else {
        assert(child_index(keys, k) == 1);
        assert(nodes[1] == right);
        assert(inner_lookup(keys, nodes, k) == right.lookup(k));
    }
    assert((if key_lt(k, median) {
        left.lookup(k)
    } else {
        right.lookup(k)
    }) == if k == key {
        Some(value)
    } else {
        before.lookup(k)
    }) by {
        reveal(split_of);
    }
}

/// A new root over the two halves of the old root, with the promoted median
/// as its one separator, is the old root with the key inserted, one level
/// higher.
pub proof fn lemma_grow_root<K: PartialOrd, V>(
    before: Node<K, V>,
    root: Node<K, V>,
    median: K,
    left: Node<K, V>,
    right: Node<K, V>,
    key: K,
    value: V,
)
    requires
        split_of(before, median, left, right, key, value),
        root is Inner,
        root->Inner_keys@ == seq![median],
        root->nodes@ == seq![left, right],
    ensures
        root.wf(),
        root.height() == before.height() + 1,
        root.count() == before.count() + 1,
        before.lookup(key) is None,
        forall|k: K| #[trigger]
            root.lookup(k) == if k == key {
                Some(value)
            } else {
                before.lookup(k)
            },
{
    let keys = root->Inner_keys@;
    let nodes = root->nodes@;
    lemma_grow_root_ordered(before, median, left, right, key, value);
    assert(keys.len() == 1 && nodes.len() == 2);
    assert(all_wf(nodes));
    assert(root.wf());
    assert(nodes[0] == left);
    assert(root.height() == left.height() + 1);
    assert forall|k: K| #[trigger]
        root.lookup(k) == if k == key {
            Some(value)
        } else {
            before.lookup(k)
        } by {
        assert(root.lookup(k) == inner_lookup(keys, nodes, k));
        lemma_grow_root_lookup(before, median, left, right, key, value, k);
    }
    assert(root.count() == sum(child_counts(nodes)));
    let counts = child_counts(nodes);
    assert(counts.drop_last().drop_last() =~= Seq::<nat>::empty());
    assert(sum(counts.drop_last().drop_last()) == 0);
    assert(counts.drop_last().last() == left.count());
    assert(sum(counts.drop_last()) == left.count());
    assert(counts.last() == right.count());
    assert(sum(counts) == left.count() + right.count());
}

/// The two halves that an inner node with one separator too many is cut
/// into are the halves of the node that it was before it took the median and
/// the halves of its split child.
pub proof fn lemma_halved_inner<K: PartialOrd, V>(
    before: Node<K, V>,
    full: Node<K, V>,
    median: K,
    left: Node<K, V>,
    right: Node<K, V>,
    key: K,
    value: V,
)
    requires
        before is Inner,
        full is Inner,
        placed(before, full, key, value),
        before->nodes@[child_index(before.keys(), key)].overflows(key),
        1 <= full.keys().len(),
        full->nodes@.len() == full.keys().len() + 1,
        median == full.keys()[full.keys().len() as int / 2],
        left is Inner,
        left->Inner_keys@ == full->Inner_keys@.subrange(0, full.keys().len() as int / 2),
        left->nodes@ == full->nodes@.subrange(0, full.keys().len() as int / 2 + 1),
        right is Inner,
        right->Inner_keys@ == full->Inner_keys@.subrange(
            full.keys().len() as int / 2 + 1,
            full.keys().len() as int,
        ),
        right->nodes@ == full->nodes@.subrange(
            full.keys().len() as int / 2 + 1,
            full->nodes@.len() as int,
        ),
    ensures
        halved(before, median, left, right, key, value),
{
    let all_keys = left->Inner_keys@.push(median) + right->Inner_keys@;
    let all_nodes = left->nodes@ + right->nodes@;
    assert(all_keys =~= full->Inner_keys@);
    assert(all_nodes =~= full->nodes@);
}

} // verus!
