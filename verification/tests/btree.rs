use kzdb::btree::btree::Btree;
use kzdb::btree::node::{Kv, Node, NODE_CAPACITY, TREE_ORDER};
use kzdb::btree::Searchable;

fn assert_leaf<K, V>(node: Node<K, V>, assert_fn: impl Fn((Vec<K>, Vec<V>)) -> ()) {
    match node {
        Node::Leaf { keys, values, .. } => assert_fn((keys, values)),
        _ => assert!(false, "Node is not a Leaf"),
    }
}

fn assert_inner<K, V>(node: Node<K, V>, assert_fn: impl Fn((Vec<K>, Vec<Node<K, V>>)) -> ()) {
    match node {
        Node::Inner { keys, nodes } => assert_fn((keys, nodes)),
        _ => assert!(false, "Node is not an Inner"),
    }
}

fn collect<K: Copy, V: Copy>(node: &Node<K, V>, out: &mut Vec<(K, V)>) {
    match node {
        Node::Leaf { keys, values, .. } => {
            for i in 0..keys.len() {
                out.push((keys[i], values[i]));
            }
        }
        Node::Inner { nodes, .. } => {
            for child in nodes {
                collect(child, out);
            }
        }
    }
}

// The depth of the leaves below `node`; checks on the way that every node
// but the root is within the fixed capacity and that all leaves are equally deep.
fn leaf_depth<K: Copy + PartialOrd, V>(node: &Node<K, V>, is_root: bool) -> usize {
    match node {
        Node::Leaf { keys, values, cap } => {
            assert_eq!(keys.len(), values.len());
            assert!(keys.len() <= *cap);
            assert!(keys.len() <= NODE_CAPACITY);
            if !is_root {
                assert_eq!(*cap, NODE_CAPACITY);
            }
            0
        }
        Node::Inner { keys, nodes } => {
            assert!(keys.len() <= NODE_CAPACITY);
            assert_eq!(nodes.len(), keys.len() + 1);
            for i in 1..keys.len() {
                assert!(keys[i - 1] < keys[i]);
            }
            let depth = leaf_depth(&nodes[0], false);
            for child in nodes {
                assert_eq!(leaf_depth(child, false), depth);
            }
            depth + 1
        }
    }
}

fn height<K, V>(node: &Node<K, V>) -> usize {
    match node {
        Node::Leaf { .. } => 0,
        Node::Inner { nodes, .. } => 1 + height(&nodes[0]),
    }
}

#[test]
fn search() {
    let vec = vec![1, 2, 5];

    assert_eq!(Err(0), vec.search(0));
    assert_eq!(Err(2), vec.search(3));
    assert_eq!(Err(3), vec.search(6));
    assert_eq!(Ok(0), vec.search(1));
    assert_eq!(Ok(1), vec.search(2));

    let vec = vec![];
    assert_eq!(Err(0), vec.search(5));

    let vec = vec![4];
    assert_eq!(Ok(0), vec.search(4));
    assert_eq!(Err(0), vec.search(2));
    assert_eq!(Err(1), vec.search(6));
}

#[test]
fn leaf_inserts_in_order() {
    let mut node = Node::leaf_with_cap(3);
    let _ = node.insert("b", 9);
    let _ = node.insert("d", 4);
    let _ = node.insert("a", 8);

    assert_leaf(node, |(keys, values)| {
        assert_eq!(keys, &["a", "b", "d"]);
        assert_eq!(values, &[8, 9, 4]);
    })
}

#[test]
fn btree_splits_root_leaf_node() {
    let mut btree = Btree::with_capacity(3);
    btree.insert("r", 9);
    btree.insert("n", 1);
    btree.insert("a", 8);
    btree.insert("q", 4);

    assert_inner(btree.root, |(keys, nodes)| {
        assert_eq!(keys, &["q"]);
        assert_eq!(nodes.len(), 2);
    })
}

#[test]
fn search_finds_every_key_and_every_gap() {
    let vec: Vec<u32> = (0..40).map(|i| 10 * i + 5).collect();
    for i in 0..40usize {
        assert_eq!(vec.search(10 * i as u32 + 5), Ok(i));
        assert_eq!(vec.search(10 * i as u32), Err(i));
    }
    assert_eq!(vec.search(1000), Err(40));
}

#[test]
fn kv_keeps_key_and_value() {
    let kv = Kv::new("k", 7);
    assert_eq!(kv.key, "k");
    assert_eq!(kv.value, 7);
}

#[test]
fn constants_of_the_tree() {
    assert_eq!(TREE_ORDER, 16);
    assert_eq!(NODE_CAPACITY, 15);
}

#[test]
fn new_nodes_are_empty() {
    match Node::<u32, u32>::leaf() {
        Node::Leaf { keys, values, cap } => {
            assert!(keys.is_empty());
            assert!(values.is_empty());
            assert_eq!(cap, 15);
        }
        _ => panic!("not a leaf"),
    }
    match Node::<u32, u32>::inner() {
        Node::Inner { keys, nodes } => {
            assert!(keys.is_empty());
            assert!(nodes.is_empty());
        }
        _ => panic!("not an inner node"),
    }
}

#[test]
fn leaf_capacity_is_at_most_the_fixed_capacity() {
    match Node::<u32, u32>::leaf_with_cap(100) {
        Node::Leaf { cap, .. } => assert_eq!(cap, 15),
        _ => panic!("not a leaf"),
    }
    match Node::<u32, u32>::leaf_with_cap(15) {
        Node::Leaf { cap, .. } => assert_eq!(cap, 15),
        _ => panic!("not a leaf"),
    }
    match Node::<u32, u32>::leaf_with_cap(0) {
        Node::Leaf { cap, .. } => assert_eq!(cap, 0),
        _ => panic!("not a leaf"),
    }
}

#[test]
fn insert_empty_inner_adds_key_and_children() {
    let mut node = Node::<u32, u32>::inner();
    node.insert_empty_inner(7, vec![Node::leaf(), Node::leaf()]);
    match &node {
        Node::Inner { keys, nodes } => {
            assert_eq!(keys, &[7]);
            assert_eq!(nodes.len(), 2);
        }
        _ => panic!("not an inner node"),
    }
    let mut leaf = Node::<u32, u32>::leaf();
    leaf.insert_empty_inner(7, vec![Node::leaf()]);
    assert_leaf(leaf, |(keys, values)| {
        assert!(keys.is_empty());
        assert!(values.is_empty());
    });
}

#[test]
fn full_leaf_splits_in_the_middle() {
    let mut node = Node::leaf_with_cap(3);
    assert!(node.insert("r", 9).is_ok());
    assert!(node.insert("n", 1).is_ok());
    assert!(node.insert("a", 8).is_ok());
    match node.insert("q", 4) {
        Ok(()) => panic!("the leaf did not split"),
        Err((median, left, right)) => {
            assert_eq!(median, "q");
            assert_leaf(left, |(keys, values)| {
                assert_eq!(keys, &["a", "n"]);
                assert_eq!(values, &[8, 1]);
            });
            assert_leaf(right, |(keys, values)| {
                assert_eq!(keys, &["q", "r"]);
                assert_eq!(values, &[4, 9]);
            });
        }
    }
    assert_leaf(node, |(keys, values)| {
        assert!(keys.is_empty());
        assert!(values.is_empty());
    });
}

#[test]
fn leaf_without_capacity_splits_at_once() {
    let mut tree = Btree::with_capacity(0);
    tree.insert(5u32, 50u32);
    assert_eq!(tree.len(), 1);
    assert_eq!(tree.get(5), Some(&50));
    assert_eq!(height(&tree.root), 1);
    tree.insert(3, 30);
    tree.insert(9, 90);
    let mut entries = Vec::new();
    collect(&tree.root, &mut entries);
    assert_eq!(entries, vec![(3, 30), (5, 50), (9, 90)]);
    leaf_depth(&tree.root, true);
}

#[test]
fn stored_key_is_overwritten_not_added() {
    let mut tree = Btree::new();
    tree.insert(4u32, 1u32);
    tree.insert(4, 2);
    assert_eq!(tree.len(), 1);
    assert_eq!(tree.get(4), Some(&2));
    let mut node = Node::leaf_with_cap(1);
    assert!(node.insert(4u32, 1u32).is_ok());
    assert!(node.insert(4, 2).is_ok());
    assert_leaf(node, |(keys, values)| {
        assert_eq!(keys, &[4]);
        assert_eq!(values, &[2]);
    });
}

#[test]
fn empty_tree() {
    let tree: Btree<u32, u32> = Btree::new();
    assert!(tree.is_empty());
    assert_eq!(tree.len(), 0);
    assert_eq!(tree.get(1), None);
    let mut tree = tree;
    tree.insert(1, 1);
    assert!(!tree.is_empty());
}

#[test]
fn root_grows_only_when_it_splits() {
    let mut tree = Btree::new();
    for i in 0..15u32 {
        tree.insert(i, i);
        assert_eq!(height(&tree.root), 0);
    }
    tree.insert(15, 15);
    assert_eq!(height(&tree.root), 1);
    match &tree.root {
        Node::Inner { keys, nodes } => {
            assert_eq!(keys, &[8]);
            assert_eq!(nodes.len(), 2);
        }
        _ => panic!("the root did not split"),
    }
    assert_eq!(tree.len(), 16);
}

#[test]
fn traversal_ascends_after_ascending_inserts() {
    let mut tree = Btree::new();
    for i in 0..2000u32 {
        tree.insert(i, i + 1);
    }
    let mut entries = Vec::new();
    collect(&tree.root, &mut entries);
    assert_eq!(entries.len(), 2000);
    for i in 0..2000u32 {
        assert_eq!(entries[i as usize], (i, i + 1));
        assert_eq!(tree.get(i), Some(&(i + 1)));
    }
    assert_eq!(tree.len(), 2000);
    assert!(leaf_depth(&tree.root, true) >= 2);
}

#[test]
fn traversal_ascends_after_descending_inserts() {
    let mut tree = Btree::new();
    for i in (0..2000u32).rev() {
        tree.insert(i, 2 * i);
    }
    let mut entries = Vec::new();
    collect(&tree.root, &mut entries);
    assert_eq!(entries.len(), 2000);
    for i in 0..2000u32 {
        assert_eq!(entries[i as usize], (i, 2 * i));
    }
    leaf_depth(&tree.root, true);
}

#[test]
fn traversal_ascends_after_scattered_inserts() {
    let mut tree = Btree::with_capacity(3);
    let mut expected = Vec::new();
    let mut x: u64 = 12345;
    for _ in 0..5000 {
        x = (x * 6364136223846793005 + 1442695040888963407) % 4294967296;
        let key = (x % 3000) as u32;
        tree.insert(key, x);
        match expected.iter().position(|e: &(u32, u64)| e.0 == key) {
            Some(i) => expected[i].1 = x,
            None => expected.push((key, x)),
        }
        leaf_depth(&tree.root, true);
    }
    expected.sort();
    let mut entries = Vec::new();
    collect(&tree.root, &mut entries);
    assert_eq!(entries, expected);
    assert_eq!(tree.len(), expected.len());
    for (key, value) in &expected {
        assert_eq!(tree.get(*key), Some(value));
    }
    assert_eq!(tree.get(3000), None);
}

#[test]
fn key_equal_to_a_separator_goes_right() {
    let mut tree = Btree::with_capacity(3);
    for key in ["r", "n", "a", "q"] {
        tree.insert(key, 0);
    }
    tree.insert("q", 7);
    assert_eq!(tree.len(), 4);
    assert_eq!(tree.get("q"), Some(&7));
    match &tree.root {
        Node::Inner { keys, nodes } => {
            assert_eq!(keys, &["q"]);
            match &nodes[1] {
                Node::Leaf { keys, values, .. } => {
                    assert_eq!(keys, &["q", "r"]);
                    assert_eq!(values, &[7, 0]);
                }
                _ => panic!("not a leaf"),
            }
        }
        _ => panic!("the root did not split"),
    }
}

#[test]
fn inner_node_splits_and_promotes_its_median() {
    let mut tree = Btree::new();
    let mut next = 0u32;
    while height(&tree.root) < 2 {
        let before = height(&tree.root);
        tree.insert(next, next);
        assert!(height(&tree.root) <= before + 1);
        next += 1;
        assert!(next < 1000);
    }
    match &tree.root {
        Node::Inner { keys, nodes } => {
            assert_eq!(keys.len(), 1);
            assert_eq!(nodes.len(), 2);
            match (&nodes[0], &nodes[1]) {
                (
                    Node::Inner { keys: left_keys, nodes: left_nodes },
                    Node::Inner { keys: right_keys, nodes: right_nodes },
                ) => {
                    // sixteen separators: eight stay left, the ninth moves up, seven go right
                    assert_eq!(left_keys.len(), 8);
                    assert_eq!(left_nodes.len(), 9);
                    assert_eq!(right_keys.len(), 7);
                    assert_eq!(right_nodes.len(), 8);
                    assert!(!left_keys.contains(&keys[0]));
                    assert!(!right_keys.contains(&keys[0]));
                    assert!(left_keys.iter().all(|k| *k < keys[0]));
                    assert!(right_keys.iter().all(|k| *k > keys[0]));
                }
                _ => panic!("not inner nodes"),
            }
            let mut entries = Vec::new();
            collect(&nodes[1], &mut entries);
            assert_eq!(entries[0].0, keys[0]);
        }
        _ => panic!("the root did not split"),
    }
    assert_eq!(tree.len(), next as usize);
    leaf_depth(&tree.root, true);
    let mut entries = Vec::new();
    collect(&tree.root, &mut entries);
    for i in 0..next {
        assert_eq!(entries[i as usize], (i, i));
    }
}
