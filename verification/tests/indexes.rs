use venom_db::engine::index_manager::IndexManager;
use venom_db::index::btree::BTree;
use venom_db::index::node::{InternalNode, LeafNode, Rid};

fn rid(n: u32) -> Rid {
    Rid { page_id: n, slot_id: n as u16 }
}

#[test]
fn an_index_is_created_once() {
    let mut m = IndexManager::new();
    assert!(!m.has_index("t", "a"));
    m.create_index("t", "a");
    m.insert("t", "a", 1, rid(1));
    m.create_index("t", "a");
    assert!(m.has_index("t", "a"));
    assert_eq!(m.search("t", "a", 1), Some(rid(1)));
    assert_eq!(m.get_index_defs(), [("t".to_string(), "a".to_string())]);
}

#[test]
fn columns_without_an_index_have_no_entries() {
    let mut m = IndexManager::new();
    m.insert("t", "a", 1, rid(1));
    m.delete("t", "a", 1);
    assert_eq!(m.search("t", "a", 1), None);
    assert_eq!(m.range_scan("t", "a", 0, 9), vec![]);
    m.create_index("t", "a");
    m.create_index("u", "a");
    m.insert("t", "a", 1, rid(1));
    assert_eq!(m.search("u", "a", 1), None);
    m.clear();
    assert!(!m.has_index("t", "a"));
}

#[test]
fn a_range_has_both_ends() {
    let mut m = IndexManager::new();
    m.create_index("t", "a");
    for k in [5, -3, 9, 0, i64::MAX, i64::MIN] {
        m.insert("t", "a", k, Rid { page_id: 0, slot_id: (k & 7) as u16 });
    }
    assert_eq!(m.range_scan("t", "a", -3, 5).len(), 3);
    assert_eq!(m.range_scan("t", "a", i64::MIN, i64::MAX).len(), 6);
    assert_eq!(m.range_scan("t", "a", 6, 8), vec![]);
    assert_eq!(m.range_scan("t", "a", 5, -3), vec![]);
}

#[test]
fn equal_keys_are_kept() {
    let mut tree = BTree::new();
    for n in 0..10 {
        tree.insert(7, rid(n));
    }
    assert_eq!(tree.search(7), Some(rid(9)));
    assert_eq!(tree.range_scan(7, 7).len(), 10);
    assert!(tree.delete(7));
    assert_eq!(tree.search(7), Some(rid(8)));
    assert_eq!(tree.range_scan(7, 7).len(), 9);
}

#[test]
fn an_insertion_is_found_and_other_keys_stay() {
    let mut tree = BTree::new();
    for k in (0..200).rev() {
        tree.insert(k * 3 % 200, rid(k as u32));
    }
    for k in 0..200 {
        assert_eq!(tree.search(k * 3 % 200), Some(rid(k as u32)));
    }
    assert!(tree.delete(30));
    assert!(!tree.delete(30));
    assert_eq!(tree.search(30), None);
    assert!(tree.search(33).is_some());
}

#[test]
fn a_tree_is_printed_level_by_level() {
    let mut tree = BTree::new();
    assert_eq!(tree.print_tree(), "[Leaf] keys: [] next→None\n");
    for k in [-1, 7, 3] {
        tree.insert(k, rid(1));
    }
    assert_eq!(tree.print_tree(), "[Leaf] keys: [-1, 3, 7] next→None\n");
    for k in 10..15 {
        tree.insert(k, rid(1));
    }
    assert_eq!(
        tree.print_tree(),
        "[Internal] keys: [11]\n  [Leaf] keys: [-1, 3, 7, 10] next→Some(1)\n  \
         [Leaf] keys: [11, 12, 13, 14] next→None\n"
    );
}

#[test]
fn the_root_stays_at_its_page() {
    let mut tree = BTree::new();
    assert_eq!(tree.root_id, 0);
    for k in (0..300).rev() {
        tree.insert(k, rid(k as u32));
        assert_eq!(tree.root_id, 0);
    }
    for k in 0..300 {
        assert_eq!(tree.search(k), Some(rid(k as u32)));
    }
    assert_eq!(tree.range_scan(0, 299).len(), 300);
    assert!(tree.delete(150));
    assert_eq!(tree.root_id, 0);
    assert_eq!(tree.search(150), None);
}

#[test]
fn nodes_find_keys_and_children() {
    let mut node = InternalNode::new();
    node.keys = vec![10, 20];
    node.children = vec![0, 1, 2];
    assert_eq!(node.find_child_index(5), 0);
    assert_eq!(node.find_child_index(10), 1);
    assert_eq!(node.find_child_index(25), 2);
    assert!(!node.is_full());
    let mut leaf = LeafNode::new();
    leaf.keys = vec![1, 4];
    leaf.rids = vec![rid(1), rid(4)];
    assert_eq!(leaf.find_key_index(4), Some(1));
    assert_eq!(leaf.find_key_index(3), None);
}
