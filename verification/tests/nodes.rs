use btrees::entry::{index_of_child, index_of_key, rank_of};
use btrees::{KeyValue, Node, NodeType};

#[test]
fn new_node_is_an_empty_internal_node() {
    let node = Node::new(true);
    assert!(node.is_root);
    assert!(!node.is_leaf());
    assert!(node.entries().is_empty());
    let other = Node::new(false);
    assert!(!other.is_root);
}

#[test]
fn get_child_takes_first_larger_separator_or_last() {
    let node = Node {
        node_type: NodeType::Internal(vec![
            KeyValue { key: 3, value: 2 },
            KeyValue { key: 5, value: 3 },
            KeyValue { key: 0, value: 1 },
        ]),
        is_root: true,
    };
    assert_eq!(node.get_child(0), 2);
    assert_eq!(node.get_child(2), 2);
    assert_eq!(node.get_child(3), 3);
    assert_eq!(node.get_child(4), 3);
    assert_eq!(node.get_child(5), 1);
    assert_eq!(node.get_child(65535), 1);
}

fn list(keys: &[(u16, u16)]) -> Vec<KeyValue> {
    keys.iter().map(|(key, value)| KeyValue { key: *key, value: *value }).collect()
}

#[test]
fn rank_is_behind_all_keys_that_do_not_exceed() {
    let es = list(&[(2, 0), (4, 0), (4, 1), (9, 0)]);
    assert_eq!(rank_of(&es, 0), 0);
    assert_eq!(rank_of(&es, 1), 0);
    assert_eq!(rank_of(&es, 2), 1);
    assert_eq!(rank_of(&es, 3), 1);
    assert_eq!(rank_of(&es, 4), 3);
    assert_eq!(rank_of(&es, 8), 3);
    assert_eq!(rank_of(&es, 9), 4);
    assert_eq!(rank_of(&es, 65535), 4);
    assert_eq!(rank_of(&Vec::new(), 7), 0);
}

#[test]
fn index_of_key_finds_the_first_match_or_the_length() {
    let es = list(&[(2, 0), (4, 0), (4, 1), (9, 0)]);
    assert_eq!(index_of_key(&es, 2), 0);
    assert_eq!(index_of_key(&es, 4), 1);
    assert_eq!(index_of_key(&es, 9), 3);
    assert_eq!(index_of_key(&es, 3), 4);
    assert_eq!(index_of_key(&Vec::new(), 3), 0);
}

#[test]
fn index_of_child_finds_the_first_match_or_the_length() {
    let es = list(&[(3, 7), (5, 8), (0, 1)]);
    assert_eq!(index_of_child(&es, 7), 0);
    assert_eq!(index_of_child(&es, 8), 1);
    assert_eq!(index_of_child(&es, 1), 2);
    assert_eq!(index_of_child(&es, 3), 3);
}
