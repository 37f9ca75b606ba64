use btrees::{BPlusTree, KeyValue, Node};

fn kv(key: u16, value: u16) -> KeyValue {
    KeyValue { key, value }
}

fn entries_of(node: &Node) -> Vec<(u16, u16)> {
    node.entries().iter().map(|e| (e.key, e.value)).collect()
}

fn node_entries(tree: &BPlusTree, id: u16) -> Vec<(u16, u16)> {
    entries_of(tree.node(id).unwrap())
}

fn filled(keys: std::ops::RangeInclusive<u16>) -> BPlusTree {
    let mut tree = BPlusTree::new();
    for key in keys {
        assert!(tree.insert(kv(key, 100)));
    }
    tree
}

fn snapshot(tree: &BPlusTree) -> Vec<(u16, bool, bool, Vec<(u16, u16)>)> {
    let mut all = Vec::new();
    for id in 0..tree.unique_id() {
        if let Some(node) = tree.node(id) {
            all.push((id, node.is_leaf(), node.is_root, entries_of(node)));
        }
    }
    all
}

fn collect(tree: &BPlusTree, id: u16, depth: usize, leaf_depth: &mut Option<usize>, out: &mut Vec<(u16, u16)>) {
    let node = tree.node(id).unwrap();
    let count = node.entries().len();
    assert_eq!(node.is_root, id == 0);
    if node.is_leaf() {
        if id != 0 {
            assert!((2..=4).contains(&count), "leaf {} holds {}", id, count);
        } else {
            assert!(count <= 4);
        }
        match leaf_depth {
            Some(d) => assert_eq!(*d, depth),
            None => *leaf_depth = Some(depth),
        }
        out.extend(entries_of(node));
    } else {
        if id != 0 {
            assert!((3..=5).contains(&count), "internal {} holds {}", id, count);
        } else {
            assert!((2..=5).contains(&count));
        }
        assert_eq!(node.entries()[count - 1].key, 0);
        for e in node.entries() {
            collect(tree, e.value, depth + 1, leaf_depth, out);
        }
    }
}

fn contents(tree: &BPlusTree) -> Vec<(u16, u16)> {
    if tree.is_leaf_root() {
        return entries_of(tree.leaf_tree());
    }
    let mut out = Vec::new();
    let mut leaf_depth = None;
    collect(tree, 0, 0, &mut leaf_depth, &mut out);
    assert_eq!(entries_of(tree.root()), node_entries(tree, 0));
    out
}

#[test]
fn deleting_two_of_nine_merges_a_leaf() {
    let mut tree = filled(1..=9);
    assert!(tree.delete(1));
    assert_eq!(node_entries(&tree, 0), vec![(5, 3), (7, 4), (0, 1)]);
    assert_eq!(node_entries(&tree, 3), vec![(2, 100), (3, 100), (4, 100)]);
    assert!(tree.node(2).is_none());
    assert!(tree.delete(2));
    assert_eq!(node_entries(&tree, 0), vec![(5, 3), (7, 4), (0, 1)]);
    assert_eq!(node_entries(&tree, 3), vec![(3, 100), (4, 100)]);
    assert_eq!(node_entries(&tree, 4), vec![(5, 100), (6, 100)]);
    assert_eq!(node_entries(&tree, 1), vec![(7, 100), (8, 100), (9, 100)]);
    assert_eq!(entries_of(tree.root()), node_entries(&tree, 0));
    for key in 3..=9u16 {
        assert_eq!(tree.lookup(key), Some(100));
        let (leaf, parent) = tree.search(key);
        assert_eq!(parent, 0);
        assert!(tree.node(leaf).unwrap().entries().iter().any(|e| e.key == key));
    }
    assert_eq!(tree.lookup(1), None);
    assert_eq!(tree.lookup(2), None);
}

#[test]
fn deleting_an_absent_key_changes_nothing() {
    let mut tree = filled(1..=9);
    let before = snapshot(&tree);
    let next = tree.unique_id();
    assert!(tree.delete(10));
    assert!(tree.delete(0));
    assert!(!tree.remove(500));
    assert_eq!(snapshot(&tree), before);
    assert_eq!(tree.unique_id(), next);
    assert_eq!(entries_of(tree.root()), node_entries(&tree, 0));
    let mut young = filled(1..=3);
    assert!(young.delete(7));
    assert_eq!(entries_of(young.leaf_tree()), vec![(1, 100), (2, 100), (3, 100)]);
    assert!(young.is_leaf_root());
}

#[test]
fn delete_in_first_phase_takes_from_the_buffer() {
    let mut tree = filled(1..=4);
    assert!(tree.delete(2));
    assert_eq!(entries_of(tree.leaf_tree()), vec![(1, 100), (3, 100), (4, 100)]);
    assert!(tree.is_leaf_root());
    assert!(tree.node(0).is_none());
    assert!(tree.remove(4));
    assert!(!tree.remove(4));
    assert_eq!(tree.lookup(1), Some(100));
    assert_eq!(tree.lookup(2), None);
}

#[test]
fn remove_says_whether_an_entry_went() {
    let mut tree = filled(1..=9);
    assert!(tree.remove(5));
    assert!(!tree.remove(5));
    assert_eq!(tree.lookup(5), None);
    assert_eq!(tree.lookup(6), Some(100));
}

#[test]
fn leaf_borrows_from_right_neighbour() {
    // leaves: 2:[1,2] 3:[3,4] 4:[5,6] 1:[7,8,9]; fill leaf 3 up to four entries
    let mut tree = BPlusTree::new();
    for key in [10u16, 20, 30, 40, 50, 60, 70, 80, 90] {
        assert!(tree.insert(kv(key, key)));
    }
    assert!(tree.insert(kv(31, 31)));
    assert!(tree.insert(kv(32, 32)));
    assert_eq!(node_entries(&tree, 3), vec![(30, 30), (31, 31), (32, 32), (40, 40)]);
    assert!(tree.delete(10));
    // the first leaf is under its bounds and its right neighbour is full: one entry moves
    assert_eq!(node_entries(&tree, 2), vec![(20, 20), (30, 30)]);
    assert_eq!(node_entries(&tree, 3), vec![(31, 31), (32, 32), (40, 40)]);
    assert_eq!(node_entries(&tree, 0), vec![(31, 2), (50, 3), (70, 4), (0, 1)]);
    assert_eq!(tree.lookup(30), Some(30));
    assert_eq!(tree.lookup(31), Some(31));
}

#[test]
fn leaf_borrows_from_left_neighbour() {
    let mut tree = BPlusTree::new();
    for key in [10u16, 20, 30, 40, 50, 60, 70, 80, 90] {
        assert!(tree.insert(kv(key, key)));
    }
    assert!(tree.insert(kv(11, 11)));
    assert!(tree.insert(kv(12, 12)));
    assert_eq!(node_entries(&tree, 2), vec![(10, 10), (11, 11), (12, 12), (20, 20)]);
    assert!(tree.delete(30));
    // the second leaf is under its bounds and its left neighbour is full: one entry moves
    assert_eq!(node_entries(&tree, 2), vec![(10, 10), (11, 11), (12, 12)]);
    assert_eq!(node_entries(&tree, 3), vec![(20, 20), (40, 40)]);
    assert_eq!(node_entries(&tree, 0), vec![(20, 2), (50, 3), (70, 4), (0, 1)]);
    assert_eq!(tree.lookup(20), Some(20));
}

#[test]
fn last_two_leaves_merge_and_root_becomes_a_leaf() {
    let mut tree = filled(1..=5);
    assert!(tree.delete(1));
    // the two leaves fit into one: the root is left with one child and takes over its entries
    let root = tree.node(0).unwrap();
    assert!(root.is_leaf());
    assert!(root.is_root);
    assert_eq!(entries_of(root), vec![(2, 100), (3, 100), (4, 100), (5, 100)]);
    assert!(tree.node(1).is_none());
    assert!(tree.node(2).is_none());
    assert!(!tree.is_leaf_root());
    assert_eq!(tree.search(3), (0, 0));
    assert_eq!(entries_of(tree.root()), node_entries(&tree, 0));
    for key in 2..=5u16 {
        assert!(tree.delete(key));
    }
    assert!(tree.node(0).unwrap().entries().is_empty());
    assert_eq!(tree.lookup(3), None);
    assert!(tree.delete(3));
    // the root leaf fills up again and grows into an internal root on overflow
    for key in 1..=5u16 {
        assert!(tree.insert(kv(key, key)));
    }
    let root = tree.node(0).unwrap();
    assert!(!root.is_leaf());
    assert_eq!(root.entries().len(), 2);
    assert_eq!(contents(&tree), vec![(1, 1), (2, 2), (3, 3), (4, 4), (5, 5)]);
}

#[test]
fn insert_then_delete_gives_back_the_other_keys() {
    let mut tree = BPlusTree::new();
    let keys: Vec<u16> = (0..300u16).map(|i| i.wrapping_mul(7919) % 1009).collect();
    for key in &keys {
        assert!(tree.insert(kv(*key, *key + 1)));
    }
    let mut expected: Vec<(u16, u16)> = keys.iter().map(|k| (*k, *k + 1)).collect();
    expected.sort();
    assert_eq!(contents(&tree), expected);
    for extra in [1010u16, 65535, 2000, 555 + 1009] {
        assert_eq!(tree.lookup(extra), None);
        assert!(tree.insert(kv(extra, 9)));
        assert_eq!(tree.lookup(extra), Some(9));
        assert!(tree.delete(extra));
        assert_eq!(tree.lookup(extra), None);
        assert_eq!(contents(&tree), expected);
    }
}

#[test]
fn deleting_everything_keeps_the_tree_in_bounds() {
    let mut tree = BPlusTree::new();
    let keys: Vec<u16> = (0..1500u16).map(|i| i.wrapping_mul(40503) % 5003).collect();
    let mut expected: Vec<(u16, u16)> = Vec::new();
    for key in &keys {
        assert!(tree.insert(kv(*key, *key)));
        expected.push((*key, *key));
    }
    expected.sort();
    expected.dedup();
    let distinct: Vec<u16> = expected.iter().map(|e| e.0).collect();
    // only distinct keys went in more than once where the sequence repeats
    let mut tree = BPlusTree::new();
    for key in &distinct {
        assert!(tree.insert(kv(*key, *key)));
    }
    assert_eq!(contents(&tree), expected);
    let order: Vec<u16> = (0..distinct.len()).map(|i| distinct[(i * 7) % distinct.len()]).collect();
    let mut left = expected.clone();
    for key in order {
        let present = left.iter().any(|e| e.0 == key);
        assert_eq!(tree.remove(key), present);
        left.retain(|e| e.0 != key);
        assert_eq!(contents(&tree), left);
        for e in left.iter().take(20) {
            assert_eq!(tree.lookup(e.0), Some(e.1));
        }
    }
}

#[test]
fn internal_nodes_merge_and_borrow() {
    let mut tree = filled(1..=200);
    let mut left: Vec<(u16, u16)> = (1..=200u16).map(|k| (k, 100)).collect();
    assert_eq!(contents(&tree), left);
    for key in (1..=200u16).rev() {
        assert!(tree.remove(key));
        left.pop();
        assert_eq!(contents(&tree), left);
    }
    let mut tree = filled(1..=200);
    let mut left: Vec<(u16, u16)> = (1..=200u16).map(|k| (k, 100)).collect();
    for key in 1..=200u16 {
        assert!(tree.remove(key));
        left.remove(0);
        assert_eq!(contents(&tree), left);
    }
}
