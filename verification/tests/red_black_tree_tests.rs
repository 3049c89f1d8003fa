use kvlab::RedBlackTree;

#[test]
fn red_black_tree_test_insert_and_get() {
    let mut tree = RedBlackTree::new();
    tree.insert("key1".to_string(), 100);
    assert_eq!(tree.get("key1"), Some(100));
}

#[test]
fn red_black_tree_test_update_existing_key() {
    let mut tree = RedBlackTree::new();
    tree.insert("key1".to_string(), 100);
    tree.insert("key1".to_string(), 200);
    assert_eq!(tree.get("key1"), Some(200));
}

#[test]
fn red_black_tree_test_delete_key() {
    let mut tree = RedBlackTree::new();
    tree.insert("key1".to_string(), 100);
    assert_eq!(tree.delete("key1"), Some(100));
    assert_eq!(tree.get("key1"), None);
}

#[test]
fn red_black_tree_test_multiple_insertions() {
    let mut tree = RedBlackTree::new();
    for i in 0..100 {
        tree.insert(format!("key{:04}", i), i);
    }
    assert_eq!(tree.get("key0050"), Some(50));
    assert_eq!(tree.get("key0099"), Some(99));
}

#[test]
fn test_sequential_insertion() {
    let mut tree = RedBlackTree::new();
    // Insert in order - worst case for unbalanced tree
    for i in 0..50 {
        tree.insert(format!("key{:04}", i), i);
    }
    let metrics = tree.get_metrics();
    // Height should be logarithmic, not linear
    // For RB-Tree: height <= 2*log(50) ≈ 11
    assert!(
        metrics.tree_height < 15,
        "Tree too tall for RB-Tree (height: {})",
        metrics.tree_height
    );
}

#[test]
fn test_random_order_insertion() {
    let mut tree = RedBlackTree::new();
    let keys = vec!["d", "b", "a", "c", "e", "f"];
    for (i, key) in keys.iter().enumerate() {
        tree.insert(key.to_string(), i as u32);
    }
    assert_eq!(tree.get("a"), Some(2));
    assert_eq!(tree.get("f"), Some(5));
}

#[test]
fn test_get_nonexistent() {
    let tree = RedBlackTree::new();
    assert_eq!(tree.get("nonexistent"), None);
}

#[test]
fn test_delete_nonexistent() {
    let mut tree = RedBlackTree::new();
    assert_eq!(tree.delete("nonexistent"), None);
}

#[test]
fn test_metrics_tracking() {
    let mut tree = RedBlackTree::new();
    for i in 0..20 {
        tree.insert(format!("key{}", i), i);
    }
    let metrics = tree.get_metrics();
    assert_eq!(metrics.total_insertions, 20);
    assert!(metrics.tree_height > 0);
}

#[test]
fn test_root_is_black() {
    let mut tree = RedBlackTree::new();
    tree.insert("key1".to_string(), 100);
    tree.insert("key2".to_string(), 200);
    tree.insert("key3".to_string(), 300);
    // Root should be enforced to be black after each insert
    let metrics = tree.get_metrics();
    assert!(metrics.tree_height > 0);
}

#[test]
fn test_height_balance() {
    let mut tree = RedBlackTree::new();
    // Insert 100 items in mixed order
    for i in 0..100 {
        tree.insert(format!("key{:03}", i * 7 % 100), i);
    }
    let metrics = tree.get_metrics();
    // RB-Tree height <= 2*log(n) where n=100
    // log2(100) ≈ 6.64, so max height should be ~13
    assert!(
        metrics.tree_height <= 15,
        "Height not logarithmic (got {})",
        metrics.tree_height
    );
}

#[test]
fn test_sequential_retrieval() {
    let mut tree = RedBlackTree::new();
    for i in 0..50 {
        tree.insert(format!("key{:02}", i), i as u32);
    }
    // Verify all can be retrieved
    for i in 0..50 {
        assert_eq!(tree.get(&format!("key{:02}", i)), Some(i as u32));
    }
}
