use kvlab::BinarySearchTree;

#[test]
fn test_bst_insert_and_get() {
    let mut tree = BinarySearchTree::new();
    tree.insert("hello".to_string(), 42);
    assert_eq!(tree.get("hello".to_string()), Some(42));
}

#[test]
fn test_bst_ordered() {
    let mut tree = BinarySearchTree::new();
    tree.insert("dog".to_string(), 1);
    tree.insert("cat".to_string(), 2);
    tree.insert("elephant".to_string(), 3);

    assert_eq!(tree.get("cat".to_string()), Some(2));
    assert_eq!(tree.get("dog".to_string()), Some(1));
    assert_eq!(tree.get("elephant".to_string()), Some(3));
}

#[test]
fn test_bst_metrics() {
    let mut tree = BinarySearchTree::new();
    for i in 0..100 {
        tree.insert(format!("key{}", i), i as u32);
    }

    let metrics = tree.get_metrics();
    assert!(metrics.max_depth > 0);
    assert_eq!(metrics.total_insertions, 100);
}

#[test]
fn test_bst_delete() {
    let mut tree = BinarySearchTree::new();
    tree.insert("hello".to_string(), 42);
    assert!(tree.delete("hello".to_string()));
    assert_eq!(tree.get("hello".to_string()), None);
}

#[test]
fn test_bst_update() {
    let mut tree = BinarySearchTree::new();
    tree.insert("hello".to_string(), 42);
    tree.insert("hello".to_string(), 99);
    assert_eq!(tree.get("hello".to_string()), Some(99));
    assert_eq!(tree.len(), 1);
}
