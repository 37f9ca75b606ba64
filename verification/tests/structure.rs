use btrees::{BPlusTree, KeyValue, Node, NodeType};

fn kv(key: u16, value: u16) -> KeyValue {
    KeyValue { key, value }
}

fn entries_of(node: &Node) -> Vec<(u16, u16)> {
    node.entries().iter().map(|e| (e.key, e.value)).collect()
}

fn at(tree: &BPlusTree, id: u16) -> Vec<(u16, u16)> {
    entries_of(tree.node(id).unwrap())
}

fn leaf(keys: &[u16]) -> Vec<(u16, u16)> {
    keys.iter().map(|k| (*k, *k)).collect()
}

fn with_keys(keys: &[u16]) -> BPlusTree {
    let mut tree = BPlusTree::new();
    for key in keys {
        assert!(tree.insert(kv(*key, *key)));
    }
    tree
}

fn levels(tree: &BPlusTree) -> Option<usize> {
    if tree.is_leaf_root() {
        return None;
    }
    let mut id = 0u16;
    let mut count = 1;
    loop {
        let node = tree.node(id).unwrap();
        if node.is_leaf() {
            return Some(count);
        }
        id = node.entries()[0].value;
        count += 1;
    }
}

#[test]
fn nine_keys_leave_first_phase_once_and_stay_two_levels_high() {
    let mut tree = BPlusTree::new();
    let mut seen = Vec::new();
    for key in 1..=9u16 {
        assert!(tree.insert(kv(key, 100)));
        seen.push((tree.is_leaf_root(), levels(&tree), tree.unique_id()));
    }
    assert_eq!(
        seen,
        vec![
            (true, None, 1),
            (true, None, 1),
            (true, None, 1),
            (true, None, 1),
            (false, Some(2), 3),
            (false, Some(2), 3),
            (false, Some(2), 4),
            (false, Some(2), 4),
            (false, Some(2), 5),
        ]
    );
}

#[test]
fn thirteenth_key_splits_the_root() {
    let keys: Vec<u16> = (1..=13).collect();
    let tree = with_keys(&keys);
    assert_eq!(at(&tree, 0), vec![(7, 8), (0, 7)]);
    assert_eq!(at(&tree, 8), vec![(3, 2), (5, 3), (0, 4)]);
    assert_eq!(at(&tree, 7), vec![(9, 5), (11, 6), (0, 1)]);
    assert_eq!(at(&tree, 2), leaf(&[1, 2]));
    assert_eq!(at(&tree, 3), leaf(&[3, 4]));
    assert_eq!(at(&tree, 4), leaf(&[5, 6]));
    assert_eq!(at(&tree, 5), leaf(&[7, 8]));
    assert_eq!(at(&tree, 6), leaf(&[9, 10]));
    assert_eq!(at(&tree, 1), leaf(&[11, 12, 13]));
    assert_eq!(tree.unique_id(), 9);
    assert_eq!(levels(&tree), Some(3));
    assert!(!tree.node(7).unwrap().is_leaf());
    assert!(!tree.node(7).unwrap().is_root);
    assert!(!tree.node(8).unwrap().is_root);
    assert!(tree.node(0).unwrap().is_root);
    assert_eq!(tree.search(1), (2, 8));
    assert_eq!(tree.search(6), (4, 8));
    assert_eq!(tree.search(7), (5, 7));
    assert_eq!(tree.search(10), (6, 7));
    assert_eq!(tree.search(13), (1, 7));
    assert_eq!(tree.search(4000), (1, 7));
}

#[test]
fn internal_nodes_merge_and_the_root_collapses() {
    let keys: Vec<u16> = (1..=13).collect();
    let mut tree = with_keys(&keys);
    assert!(tree.delete(1));
    assert_eq!(at(&tree, 0), vec![(5, 3), (7, 4), (9, 5), (11, 6), (0, 1)]);
    assert_eq!(at(&tree, 3), leaf(&[2, 3, 4]));
    assert_eq!(at(&tree, 4), leaf(&[5, 6]));
    assert_eq!(at(&tree, 5), leaf(&[7, 8]));
    assert_eq!(at(&tree, 6), leaf(&[9, 10]));
    assert_eq!(at(&tree, 1), leaf(&[11, 12, 13]));
    for gone in [2u16, 7, 8] {
        assert!(tree.node(gone).is_none());
    }
    assert_eq!(levels(&tree), Some(2));
    assert_eq!(entries_of(tree.root()), at(&tree, 0));
    assert!(tree.node(0).unwrap().is_root);
    assert_eq!(tree.unique_id(), 9);
    for key in 2..=13u16 {
        assert_eq!(tree.lookup(key), Some(key));
    }
}

#[test]
fn internal_node_borrows_from_right_neighbour() {
    let keys: Vec<u16> = (1..=15).collect();
    let mut tree = with_keys(&keys);
    assert_eq!(at(&tree, 0), vec![(7, 8), (0, 7)]);
    assert_eq!(at(&tree, 7), vec![(9, 5), (11, 6), (13, 9), (0, 1)]);
    assert!(tree.delete(1));
    assert_eq!(at(&tree, 0), vec![(9, 8), (0, 7)]);
    assert_eq!(at(&tree, 8), vec![(5, 3), (7, 4), (0, 5)]);
    assert_eq!(at(&tree, 7), vec![(11, 6), (13, 9), (0, 1)]);
    assert_eq!(at(&tree, 3), leaf(&[2, 3, 4]));
    assert_eq!(at(&tree, 5), leaf(&[7, 8]));
    assert!(tree.node(2).is_none());
    assert_eq!(tree.search(8), (5, 8));
    assert_eq!(tree.search(9), (6, 7));
    for key in 2..=15u16 {
        assert_eq!(tree.lookup(key), Some(key));
    }
}

#[test]
fn internal_node_borrows_from_left_neighbour() {
    let mut keys: Vec<u16> = (1..=13).map(|k| k * 10).collect();
    keys.extend([11u16, 12, 13]);
    let mut tree = with_keys(&keys);
    assert_eq!(at(&tree, 0), vec![(70, 8), (0, 7)]);
    assert_eq!(at(&tree, 8), vec![(12, 9), (30, 2), (50, 3), (0, 4)]);
    assert_eq!(at(&tree, 9), leaf(&[10, 11]));
    assert_eq!(at(&tree, 2), leaf(&[12, 13, 20]));
    assert_eq!(at(&tree, 7), vec![(90, 5), (110, 6), (0, 1)]);
    assert!(tree.delete(70));
    assert_eq!(at(&tree, 0), vec![(50, 8), (0, 7)]);
    assert_eq!(at(&tree, 8), vec![(12, 9), (30, 2), (0, 3)]);
    assert_eq!(at(&tree, 7), vec![(70, 4), (110, 6), (0, 1)]);
    assert_eq!(at(&tree, 6), leaf(&[80, 90, 100]));
    assert_eq!(at(&tree, 4), leaf(&[50, 60]));
    assert!(tree.node(5).is_none());
    assert_eq!(tree.search(55), (4, 7));
    assert_eq!(tree.search(45), (3, 8));
    for key in keys {
        assert_eq!(tree.lookup(key), if key == 70 { None } else { Some(key) });
    }
}

#[test]
fn overflow_and_underflow_follow_the_bounds() {
    let tree = BPlusTree::new();
    let make = |is_leaf: bool, count: u16| {
        let entries: Vec<KeyValue> = (0..count).map(|i| kv(i, i)).collect();
        Node::with_entries(is_leaf, entries, false)
    };
    for count in 0..=7u16 {
        assert_eq!(tree.is_overflow(&make(true, count)), count > 4);
        assert_eq!(tree.is_underflow(&make(true, count)), count < 2);
        assert_eq!(tree.is_overflow(&make(false, count)), count > 5);
        assert_eq!(tree.is_underflow(&make(false, count)), count < 3);
    }
}

#[test]
fn node_hands_out_its_entries() {
    let mut node = Node::with_entries(true, vec![kv(1, 10), kv(2, 20)], false);
    assert!(node.is_leaf());
    assert!(!node.is_root);
    assert_eq!(entries_of(&node), vec![(1, 10), (2, 20)]);
    node.extract().push(kv(3, 30));
    assert_eq!(entries_of(&node), vec![(1, 10), (2, 20), (3, 30)]);
    assert!(node.is_leaf());
    let copy = node.clone();
    assert_eq!(entries_of(&copy), entries_of(&node));
    assert_eq!(copy.is_root, node.is_root);
    assert!(copy.is_leaf());
    assert_eq!(node.into_entries(), vec![kv(1, 10), kv(2, 20), kv(3, 30)]);
    let inner = Node::with_entries(false, vec![kv(0, 9)], true);
    assert!(!inner.is_leaf());
    assert!(inner.is_root);
    assert!(matches!(inner.node_type, NodeType::Internal(_)));
    assert_eq!(inner.get_child(5), 9);
}

#[test]
fn get_node_gives_the_holding_node() {
    let mut tree = with_keys(&[4, 2]);
    let buffer = tree.get_node(9);
    assert_eq!(entries_of(&buffer), leaf(&[2, 4]));
    assert!(buffer.is_leaf());
    for key in [6u16, 8, 10, 12, 14, 16, 18] {
        assert!(tree.insert(kv(key, key)));
    }
    assert_eq!(entries_of(&tree.get_node(2)), leaf(&[2, 4]));
    assert_eq!(entries_of(&tree.get_node(5)), leaf(&[2, 4]));
    assert_eq!(entries_of(&tree.get_node(18)), leaf(&[14, 16, 18]));
    let (leaf_id, _) = tree.search(18);
    assert_eq!(entries_of(&tree.get_node(18)), at(&tree, leaf_id));
}

#[test]
fn cloned_tree_is_independent() {
    let mut tree = with_keys(&[1, 2, 3, 4, 5, 6]);
    let copy = tree.clone();
    assert!(tree.delete(6));
    assert_eq!(tree.lookup(6), None);
    assert_eq!(copy.lookup(6), Some(6));
    assert_eq!(copy.unique_id(), tree.unique_id());
}

#[test]
fn repeated_keys_keep_every_node_in_bounds() {
    let mut tree = BPlusTree::new();
    for round in 0..40u16 {
        for key in [0u16, 0, 1, 1, 1, 65535] {
            assert!(tree.insert(kv(key, round)));
        }
    }
    let mut count = 0;
    let mut stack = vec![0u16];
    while let Some(id) = stack.pop() {
        let node = tree.node(id).unwrap();
        let n = node.entries().len();
        if node.is_leaf() {
            assert!(id == 0 || (2..=4).contains(&n));
            count += n;
        } else {
            assert!((if id == 0 { 2 } else { 3 }..=5).contains(&n));
            for e in node.entries() {
                stack.push(e.value);
            }
        }
    }
    assert_eq!(count, 240);
    for _ in 0..100 {
        assert!(tree.delete(65535));
        assert!(tree.delete(0));
    }
    assert_eq!(entries_of(tree.root()), at(&tree, 0));
}
