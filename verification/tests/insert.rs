use btrees::{BPlusTree, KeyValue, Node, NodeType};

fn kv(key: u16, value: u16) -> KeyValue {
    KeyValue { key, value }
}

fn entries_of(node: &Node) -> Vec<(u16, u16)> {
    node.entries().iter().map(|e| (e.key, e.value)).collect()
}

fn node_entries(tree: &BPlusTree, id: u16) -> Vec<(u16, u16)> {
    entries_of(tree.node(id).unwrap())
}

fn filled(keys: std::ops::RangeInclusive<u16>) -> BPlusTree {
    let mut tree = BPlusTree::new();
    for key in keys {
        assert!(tree.insert(kv(key, 100)));
    }
    tree
}

#[test]
fn new_tree_is_in_first_phase() {
    let tree = BPlusTree::new();
    assert!(tree.is_leaf_root());
    assert!(tree.node(0).is_none());
    assert_eq!(tree.unique_id(), 1);
    assert!(tree.leaf_tree().is_leaf());
    assert!(tree.leaf_tree().entries().is_empty());
    assert!(!tree.root().is_leaf());
    assert!(tree.root().entries().is_empty());
}

#[test]
fn first_phase_keeps_entries_sorted_in_buffer() {
    let mut tree = BPlusTree::new();
    for key in [5u16, 1, 9, 3] {
        assert!(tree.insert(kv(key, key + 100)));
        assert!(tree.is_leaf_root());
        assert!(tree.node(0).is_none());
    }
    assert_eq!(entries_of(tree.leaf_tree()), vec![(1, 101), (3, 103), (5, 105), (9, 109)]);
    assert_eq!(tree.unique_id(), 1);
}

#[test]
fn fifth_insert_leaves_first_phase() {
    let mut tree = filled(1..=4);
    assert!(tree.is_leaf_root());
    assert!(tree.insert(kv(5, 100)));
    assert!(!tree.is_leaf_root());
    assert_eq!(node_entries(&tree, 0), vec![(3, 2), (0, 1)]);
    assert_eq!(node_entries(&tree, 2), vec![(1, 100), (2, 100)]);
    assert_eq!(node_entries(&tree, 1), vec![(3, 100), (4, 100), (5, 100)]);
    assert_eq!(tree.unique_id(), 3);
    assert_eq!(entries_of(tree.root()), node_entries(&tree, 0));
    assert!(tree.root().is_root);
    assert!(!tree.node(1).unwrap().is_root);
    assert!(tree.node(1).unwrap().is_leaf());
    assert!(tree.node(2).unwrap().is_leaf());
    assert!(!tree.node(0).unwrap().is_leaf());
}

#[test]
fn first_phase_does_not_come_back() {
    let mut tree = filled(1..=5);
    for key in 6..=40u16 {
        assert!(tree.insert(kv(key, 1)));
        assert!(!tree.is_leaf_root());
    }
    assert_eq!(tree.leaf_tree().entries().len(), 5);
}

#[test]
fn nine_keys_make_a_root_over_four_leaves() {
    let tree = filled(1..=9);
    assert_eq!(node_entries(&tree, 0), vec![(3, 2), (5, 3), (7, 4), (0, 1)]);
    assert_eq!(node_entries(&tree, 2), vec![(1, 100), (2, 100)]);
    assert_eq!(node_entries(&tree, 3), vec![(3, 100), (4, 100)]);
    assert_eq!(node_entries(&tree, 4), vec![(5, 100), (6, 100)]);
    assert_eq!(node_entries(&tree, 1), vec![(7, 100), (8, 100), (9, 100)]);
    assert_eq!(tree.unique_id(), 5);
    for id in [1u16, 2, 3, 4] {
        assert!(tree.node(id).unwrap().is_leaf());
    }
    assert_eq!(entries_of(tree.root()), node_entries(&tree, 0));
}

#[test]
fn search_reports_leaf_and_parent() {
    let tree = filled(1..=9);
    assert_eq!(tree.search(1), (2, 0));
    assert_eq!(tree.search(2), (2, 0));
    assert_eq!(tree.search(3), (3, 0));
    assert_eq!(tree.search(6), (4, 0));
    assert_eq!(tree.search(7), (1, 0));
    assert_eq!(tree.search(9), (1, 0));
    assert_eq!(tree.search(0), (2, 0));
    assert_eq!(tree.search(60000), (1, 0));
}

#[test]
fn every_inserted_key_is_found_with_its_value() {
    let mut tree = BPlusTree::new();
    let keys: Vec<u16> = (0..500u16).map(|i| i.wrapping_mul(7919) % 1009).collect();
    for (n, key) in keys.iter().enumerate() {
        assert!(tree.insert(kv(*key, *key ^ 0x5555)));
        for seen in &keys[..=n] {
            assert_eq!(tree.lookup(*seen), Some(*seen ^ 0x5555));
            let holder = tree.get_node(*seen);
            assert!(holder.is_leaf());
            assert!(holder.entries().contains(&kv(*seen, *seen ^ 0x5555)));
        }
    }
    assert_eq!(tree.lookup(1009), None);
    assert_eq!(tree.lookup(65535), None);
}

fn check_bounds(tree: &BPlusTree, id: u16, depth: usize, leaf_depth: &mut Option<usize>) {
    let node = tree.node(id).unwrap();
    let count = node.entries().len();
    assert_eq!(node.is_root, id == 0);
    if node.is_leaf() {
        if id != 0 {
            assert!((2..=4).contains(&count), "leaf {} holds {}", id, count);
        } else {
            assert!(count <= 4);
        }
        match leaf_depth {
            Some(d) => assert_eq!(*d, depth),
            None => *leaf_depth = Some(depth),
        }
    } else {
        if id != 0 {
            assert!((3..=5).contains(&count), "internal {} holds {}", id, count);
        } else {
            assert!((2..=5).contains(&count));
        }
        assert_eq!(node.entries()[count - 1].key, 0);
        for e in node.entries() {
            check_bounds(tree, e.value, depth + 1, leaf_depth);
        }
    }
}

#[test]
fn nodes_stay_within_bounds_after_every_insert() {
    let mut tree = filled(1..=5);
    for i in 0..2000u16 {
        let key = i.wrapping_mul(40503) % 5003;
        assert!(tree.insert(kv(key, i)));
        let mut leaf_depth = None;
        check_bounds(&tree, 0, 0, &mut leaf_depth);
        assert_eq!(entries_of(tree.root()), node_entries(&tree, 0));
    }
}

#[test]
fn ascending_keys_grow_the_tree_by_levels() {
    let tree = filled(1..=11);
    // the root holds five children after the eleventh key
    assert_eq!(node_entries(&tree, 0).len(), 5);
    let mut tree = tree;
    for key in 12..=13u16 {
        assert!(tree.insert(kv(key, 100)));
    }
    // the thirteenth key splits a leaf, the root overflows and the tree grows
    let root = node_entries(&tree, 0);
    assert_eq!(root.len(), 2);
    assert_eq!(root[1].0, 0);
    let left = tree.node(root[0].1).unwrap();
    let right = tree.node(root[1].1).unwrap();
    assert!(!left.is_leaf());
    assert!(!right.is_leaf());
    assert_eq!(left.entries().len(), 3);
    assert_eq!(right.entries().len(), 3);
    assert_eq!(left.entries()[2].key, 0);
    assert_eq!(root[0].0, 7);
    assert_eq!(tree.search(13).1, root[1].1);
    assert_eq!(tree.search(1).1, root[0].1);
}

#[test]
fn duplicate_keys_are_kept_side_by_side() {
    let mut tree = BPlusTree::new();
    assert!(tree.insert(kv(7, 1)));
    assert!(tree.insert(kv(7, 2)));
    assert_eq!(entries_of(tree.leaf_tree()), vec![(7, 1), (7, 2)]);
    assert_eq!(tree.lookup(7), Some(1));
}

#[test]
fn mut_node_hands_out_the_holding_leaf() {
    let mut tree = filled(1..=9);
    {
        let leaf = tree.mut_node(4);
        assert_eq!(entries_of(leaf), vec![(3, 100), (4, 100)]);
        match &mut leaf.node_type {
            NodeType::Leaf(es) => es[1].value = 77,
            NodeType::Internal(_) => unreachable!(),
        }
    }
    assert_eq!(tree.lookup(4), Some(77));
    assert_eq!(node_entries(&tree, 3), vec![(3, 100), (4, 77)]);
    let mut young = BPlusTree::new();
    young.insert(kv(1, 1));
    young.mut_node(1).extract().push(kv(2, 2));
    assert_eq!(entries_of(young.leaf_tree()), vec![(1, 1), (2, 2)]);
}

fn path_to(tree: &BPlusTree, key: u16) -> Vec<u16> {
    let mut path = vec![0u16];
    loop {
        let node = tree.node(*path.last().unwrap()).unwrap();
        if node.is_leaf() {
            return path;
        }
        path.push(node.get_child(key));
    }
}

fn new_nodes_for(tree: &BPlusTree, key: u16) -> usize {
    let path = path_to(tree, key);
    let mut count = 0;
    for id in path.iter().rev() {
        let node = tree.node(*id).unwrap();
        let cap = if node.is_leaf() { 4 } else { 5 };
        if node.entries().len() < cap {
            return count;
        }
        count += 1;
    }
    count + 1
}

#[test]
fn insert_fails_only_when_identifiers_run_out() {
    let mut tree = BPlusTree::new();
    let mut refused = None;
    let mut count: u32 = 0;
    'outer: for _round in 0..8 {
        for key in 0..=u16::MAX {
            let materialized = !tree.is_leaf_root();
            let need = if materialized { new_nodes_for(&tree, key) } else { 0 };
            let next = tree.unique_id() as usize;
            let done = tree.insert(kv(key, 0));
            if materialized {
                assert_eq!(done, next + need <= 65535);
                if done {
                    assert_eq!(tree.unique_id() as usize, next + need);
                }
            }
            if !done {
                refused = Some(key);
                break 'outer;
            }
            count += 1;
        }
    }
    let refused = refused.unwrap();
    assert!(count > 65535);
    let next = tree.unique_id();
    let before = node_entries(&tree, 0);
    let (leaf, _) = tree.search(refused);
    assert_eq!(tree.node(leaf).unwrap().entries().len(), 4);
    assert!(!tree.insert(kv(refused, 1)));
    assert_eq!(tree.unique_id(), next);
    assert_eq!(node_entries(&tree, 0), before);
    assert_eq!(tree.node(leaf).unwrap().entries().len(), 4);
    let mut leaf_depth = None;
    check_bounds(&tree, 0, 0, &mut leaf_depth);
    // a leaf with room still takes an entry, and no identifier goes
    let roomy = (0..=u16::MAX).find(|key| new_nodes_for(&tree, *key) == 0).unwrap();
    assert!(tree.insert(kv(roomy, 5)));
    assert_eq!(tree.unique_id(), next);
    assert!(tree.delete(roomy));
}
