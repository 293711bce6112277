use venom_db::index::btree::BTree;
use venom_db::index::node::{BTreeNode, LeafNode, Rid};

fn rid(n: u32) -> Rid { Rid { page_id: n, slot_id: 0 } }

#[test]
fn test_insert_and_search() {
    let mut tree = BTree::new();
    for i in [10, 20, 5, 15, 30, 25, 1, 8] {
        tree.insert(i, rid(i as u32));
    }
    assert_eq!(tree.search(10), Some(rid(10)));
    assert_eq!(tree.search(1),  Some(rid(1)));
    assert_eq!(tree.search(30), Some(rid(30)));
    assert_eq!(tree.search(99), None);
}

#[test]
fn test_range_scan() {
    let mut tree = BTree::new();
    for i in 1..=20 {
        tree.insert(i, rid(i as u32));
    }
    let results = tree.range_scan(5, 10);
    let keys: Vec<u32> = results.iter().map(|r| r.page_id).collect();
    assert_eq!(keys, vec![5, 6, 7, 8, 9, 10]);
}

#[test]
fn test_delete() {
    let mut tree = BTree::new();
    for i in [10, 20, 30] {
        tree.insert(i, rid(i as u32));
    }
    assert!(tree.delete(20));
    assert_eq!(tree.search(20), None);
    assert_eq!(tree.search(10), Some(rid(10)));
    assert_eq!(tree.search(30), Some(rid(30)));
}

#[test]
fn test_large_insert_forces_splits() {
    let mut tree = BTree::new();
    // Insert enough keys to force multiple splits
    for i in 0..100 {
        tree.insert(i, rid(i as u32));
    }
    // All keys must still be searchable after splits
    for i in 0..100 {
        assert_eq!(tree.search(i), Some(rid(i as u32)),
            "key {} not found after splits", i);
    }
}

#[test]
fn test_range_scan_across_leaves() {
    let mut tree = BTree::new();
    for i in 0..50 {
        tree.insert(i, rid(i as u32));
    }
    let results = tree.range_scan(10, 20);
    assert_eq!(results.len(), 11); // 10..=20
    let keys: Vec<u32> = results.iter().map(|r| r.page_id).collect();
    assert_eq!(keys, (10..=20).collect::<Vec<u32>>());
}

#[test]
fn test_serialization_roundtrip() {
    let mut leaf = LeafNode::new();
    leaf.keys = vec![1, 2, 3];
    leaf.rids = vec![rid(1), rid(2), rid(3)];
    leaf.next_leaf = Some(42);

    let node = BTreeNode::Leaf(leaf);
    let bytes = node.to_bytes();
    let recovered = BTreeNode::from_bytes(&bytes);

    if let BTreeNode::Leaf(l) = recovered {
        assert_eq!(l.keys, vec![1, 2, 3]);
        assert_eq!(l.next_leaf, Some(42));
    } else {
        panic!("wrong node type after deserialization");
    }
}
