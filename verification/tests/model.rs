use btrees::{BPlusTree, KeyValue};
use std::collections::BTreeMap;

fn walk(tree: &BPlusTree, id: u16, lo: u32, hi: u32, depth: usize, leaf_depth: &mut Option<usize>, out: &mut Vec<(u16, u16)>) {
    let node = tree.node(id).unwrap();
    let es = node.entries();
    assert_eq!(node.is_root, id == 0);
    if node.is_leaf() {
        assert!(id == 0 || (2..=4).contains(&es.len()));
        for pair in es.windows(2) {
            assert!(pair[0].key < pair[1].key);
        }
        for e in es {
            assert!(lo <= e.key as u32 && (e.key as u32) < hi);
            out.push((e.key, e.value));
        }
        match leaf_depth {
            Some(d) => assert_eq!(*d, depth),
            None => *leaf_depth = Some(depth),
        }
    } else {
        assert!((if id == 0 { 2 } else { 3 }..=5).contains(&es.len()));
        assert_eq!(es[es.len() - 1].key, 0);
        let mut low = lo;
        for (i, e) in es.iter().enumerate() {
            let high = if i == es.len() - 1 { hi } else { e.key as u32 };
            assert!(low < high);
            walk(tree, e.value, low, high, depth + 1, leaf_depth, out);
            low = high;
        }
    }
}

fn contents(tree: &BPlusTree) -> Vec<(u16, u16)> {
    let mut out = Vec::new();
    if tree.is_leaf_root() {
        assert!(tree.node(0).is_none());
        for e in tree.leaf_tree().entries() {
            out.push((e.key, e.value));
        }
        return out;
    }
    let mut leaf_depth = None;
    walk(tree, 0, 0, 65536, 0, &mut leaf_depth, &mut out);
    let root = tree.node(0).unwrap();
    assert_eq!(tree.root().entries(), root.entries());
    assert_eq!(tree.root().is_leaf(), root.is_leaf());
    out
}

fn run(seed: u32, steps: usize, span: u32) {
    let mut state = seed;
    let mut next = move || {
        state = state.wrapping_mul(1664525).wrapping_add(1013904223);
        state >> 8
    };
    let mut tree = BPlusTree::new();
    let mut model: BTreeMap<u16, u16> = BTreeMap::new();
    for step in 0..steps {
        let key = (next() % span) as u16;
        let grow = next() % 100 < if step < steps / 2 { 70 } else { 30 };
        if grow {
            if !model.contains_key(&key) {
                let value = next() as u16;
                assert!(tree.insert(KeyValue { key, value }));
                model.insert(key, value);
            }
        } else {
            assert_eq!(tree.remove(key), model.remove(&key).is_some());
        }
        assert_eq!(tree.lookup(key), model.get(&key).copied());
        if step % 7 == 0 {
            let expected: Vec<(u16, u16)> = model.iter().map(|(k, v)| (*k, *v)).collect();
            assert_eq!(contents(&tree), expected);
        }
    }
    for key in 0..span as u16 {
        assert_eq!(tree.lookup(key), model.get(&key).copied());
    }
    let keys: Vec<u16> = model.keys().copied().collect();
    for key in keys {
        assert!(tree.delete(key));
        model.remove(&key);
        let expected: Vec<(u16, u16)> = model.iter().map(|(k, v)| (*k, *v)).collect();
        assert_eq!(contents(&tree), expected);
    }
    assert!(contents(&tree).is_empty());
}

#[test]
fn mixed_operations_agree_with_an_ordered_map() {
    run(1, 4000, 600);
}

#[test]
fn mixed_operations_on_few_keys_agree_with_an_ordered_map() {
    run(7, 3000, 24);
}

#[test]
fn mixed_operations_on_many_keys_agree_with_an_ordered_map() {
    run(99, 6000, 65536);
}
