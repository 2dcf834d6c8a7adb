use graphrs::btree::node::{Node, NodeType};
use graphrs::btree::BTree;
use graphrs::Error;

fn check_node_sizes(node: &Node<u64>, t: usize, is_root: bool) {
    match &node.node_type {
        NodeType::Leaf(pairs) => {
            if !is_root {
                assert!(pairs.len() >= t - 1);
            }
            assert!(pairs.len() <= 2 * t - 1);
        }
        NodeType::Internal(pairs, children) => {
            assert_eq!(children.len(), pairs.len() + 1);
            if is_root {
                assert!(pairs.len() >= 1);
            } else {
                assert!(pairs.len() >= t - 1);
            }
            assert!(pairs.len() <= 2 * t - 1);
            for child in children {
                check_node_sizes(child, t, false);
            }
        }
        NodeType::Undefined => panic!("well-formed trees never hold an undefined node"),
    }
}

#[test]
fn insert_and_search_roundtrip() {
    let mut tree: BTree<u64> = BTree::new(2);
    for (k, v) in [(5u64, 50u64), (1, 10), (9, 90), (3, 30), (7, 70)] {
        assert!(tree.insert(k, v).is_ok());
    }
    assert_eq!(tree.search(3), Ok(&30));
    assert_eq!(tree.search(9), Ok(&90));
    assert_eq!(tree.search(4), Err(Error::KeyWasNotFound));
    assert!(tree.contains(1));
    assert!(!tree.contains(2));
}

#[test]
fn export_is_sorted_for_any_insertion_order() {
    let keys = [42u64, 7, 19, 3, 88, 1, 55, 23, 64, 12, 99, 31, 6, 47, 70];
    let mut tree: BTree<u64> = BTree::new(2);
    for &k in &keys {
        assert!(tree.insert(k, k * 2).is_ok());
    }
    let exported = tree.export_ordered().unwrap();
    assert_eq!(exported.len(), keys.len());
    let mut sorted = keys.to_vec();
    sorted.sort();
    for (i, &k) in sorted.iter().enumerate() {
        assert_eq!(exported[i], (k, k * 2));
    }
}

#[test]
fn duplicate_insert_fails_and_leaves_tree_unchanged() {
    let mut tree: BTree<u64> = BTree::new(2);
    for k in [4u64, 2, 6, 1, 3, 5, 7] {
        assert!(tree.insert(k, k + 100).is_ok());
    }
    let before = tree.export_ordered().unwrap();
    assert_eq!(tree.insert(6, 999), Err(Error::KeyAlreadyExists));
    let after = tree.export_ordered().unwrap();
    assert_eq!(before, after);
    assert_eq!(tree.search(6), Ok(&106));
}

#[test]
fn node_sizes_stay_within_bounds() {
    for t in [2usize, 3] {
        let mut tree: BTree<u64> = BTree::new(t);
        for k in 0u64..60 {
            let key = (k * 37) % 61;
            assert!(tree.insert(key, key).is_ok());
            check_node_sizes(tree.root(), t, true);
        }
        assert_eq!(tree.min_degree(), t);
    }
}

#[test]
fn empty_tree_behaviour() {
    let tree: BTree<u64> = BTree::default();
    assert!(!tree.contains(0));
    assert_eq!(tree.search(0), Err(Error::KeyWasNotFound));
    assert_eq!(tree.export_ordered().unwrap(), vec![]);
}

#[test]
fn root_split_grows_height() {
    let mut tree: BTree<u64> = BTree::new(2);
    for k in [1u64, 2, 3, 4] {
        assert!(tree.insert(k, k).is_ok());
    }
    match &tree.root().node_type {
        NodeType::Internal(pairs, children) => {
            assert_eq!(children.len(), pairs.len() + 1);
        }
        _ => panic!("four inserts at minimum degree two must split the root"),
    }
    assert_eq!(
        tree.export_ordered().unwrap(),
        vec![(1, 1), (2, 2), (3, 3), (4, 4)]
    );
}

#[test]
fn largest_and_smallest_keys() {
    let mut tree: BTree<u64> = BTree::new(2);
    assert!(tree.insert(u64::MAX, 1).is_ok());
    assert!(tree.insert(0, 2).is_ok());
    assert!(tree.insert(u64::MAX / 2, 3).is_ok());
    assert_eq!(
        tree.export_ordered().unwrap(),
        vec![(0, 2), (u64::MAX / 2, 3), (u64::MAX, 1)]
    );
}
