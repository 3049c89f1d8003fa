use kvlab::skip_list::MAX_LEVEL;
use kvlab::SkipList;

#[test]
fn test_insert_and_search_single() {
    let mut list = SkipList::new();
    list.insert("key1".to_string(), 100);
    assert_eq!(list.search("key1"), Some(100));
    assert_eq!(list.len(), 1);
}

#[test]
fn test_insert_multiple_ordered() {
    let mut list = SkipList::new();
    for i in 0..50 {
        list.insert(format!("key{:02}", i), i);
    }

    // Verify all keys are searchable
    for i in 0..50 {
        assert_eq!(list.search(&format!("key{:02}", i)), Some(i));
    }
    assert_eq!(list.len(), 50);
}

#[test]
fn test_search_returns_correct_values() {
    let mut list = SkipList::new();
    list.insert("apple".to_string(), 1);
    list.insert("banana".to_string(), 2);
    list.insert("cherry".to_string(), 3);

    assert_eq!(list.search("apple"), Some(1));
    assert_eq!(list.search("banana"), Some(2));
    assert_eq!(list.search("cherry"), Some(3));
}

#[test]
fn test_search_nonexistent() {
    let mut list = SkipList::new();
    list.insert("key1".to_string(), 100);
    assert_eq!(list.search("key2"), None);
    assert_eq!(list.search("nonexistent"), None);
}

#[test]
fn test_sequential_insertion_with_levels() {
    let mut list = SkipList::new();
    for i in 0..100 {
        list.insert(format!("key{:03}", i), i);
    }

    assert_eq!(list.len(), 100);
    let metrics = list.get_metrics();
    // Average level should be reasonable (< 10 for 100 items)
    // log2(100) ≈ 6.6, so average should be around that
    let average = metrics.average_level.num as f32 / metrics.average_level.den as f32;
    assert!(average < 10.0, "Average level {} should be < 10", average);
}

#[test]
fn test_search_comparisons_logarithmic() {
    let mut list = SkipList::new();

    // Insert 1000 items
    for i in 0..1000 {
        list.insert(format!("key{:04}", i), i);
    }

    // Measure the comparisons of a single search for a middle element
    let before = list.get_metrics();
    list.search("key0500");
    let after = list.get_metrics();

    // For 1000 items, expected comparisons ≈ log2(1000) ≈ 10
    // Allow generous margin (< 50 comparisons)
    let comparisons_per_search = after.search_comparisons - before.search_comparisons;
    assert!(
        comparisons_per_search < 50,
        "Comparisons {} should be logarithmic",
        comparisons_per_search
    );
}

#[test]
fn test_multiple_insertions_with_metrics() {
    let mut list = SkipList::new();

    for i in 0..50 {
        list.insert(format!("key{}", i), i);
    }

    let metrics = list.get_metrics();
    assert_eq!(metrics.total_insertions, 50);
    let average = metrics.average_level.num as f32 / metrics.average_level.den as f32;
    assert!(average >= 0.0);
    assert!(metrics.max_level <= MAX_LEVEL as u32);
}

#[test]
fn skip_list_test_update_existing_key() {
    let mut list = SkipList::new();

    list.insert("key1".to_string(), 100);
    assert_eq!(list.len(), 1);

    // Update same key with new value
    list.insert("key1".to_string(), 200);
    assert_eq!(list.len(), 1); // Size shouldn't change
    assert_eq!(list.search("key1"), Some(200)); // Value should update
}

#[test]
fn test_random_insertions() {
    let mut list = SkipList::new();

    // Insert in non-sequential order
    let keys = vec!["zebra", "alpha", "middle", "beta", "zulu", "alpha-2"];
    for (i, key) in keys.iter().enumerate() {
        list.insert(key.to_string(), i as u32);
    }

    // All should be searchable
    for (i, key) in keys.iter().enumerate() {
        assert_eq!(list.search(key), Some(i as u32));
    }
}

#[test]
fn test_level_distribution() {
    let mut list = SkipList::new();

    // Insert 1000 items
    for i in 0..1000 {
        list.insert(format!("key{:04}", i), i);
    }

    let metrics = list.get_metrics();
    // For 1000 items with P=0.5:
    // Expected average level with geometric distribution is around 1
    // (each node has 50% chance to be at level 0, 25% at level 1, etc.)
    // But actual average should be between 0.5 and 3.0 for random distribution
    let average = metrics.average_level.num as f32 / metrics.average_level.den as f32;
    assert!(
        average >= 0.5 && average <= 3.0,
        "Average level {} should be between 0.5-3.0",
        average
    );
}

#[test]
fn test_delete_single_item() {
    let mut list = SkipList::new();
    list.insert("only".to_string(), 42);

    assert_eq!(list.len(), 1);
    assert_eq!(list.delete("only"), Some(42));
    assert_eq!(list.len(), 0);
    assert!(list.is_empty());
    assert_eq!(list.search("only"), None);
}

#[test]
fn test_delete_multiple_items() {
    let mut list = SkipList::new();

    // Insert 10 items
    for i in 0..10 {
        list.insert(format!("key{}", i), i);
    }

    // Delete items 2, 5, 7
    assert_eq!(list.delete("key2"), Some(2));
    assert_eq!(list.delete("key5"), Some(5));
    assert_eq!(list.delete("key7"), Some(7));

    assert_eq!(list.len(), 7);

    // Verify deleted items are gone
    assert_eq!(list.search("key2"), None);
    assert_eq!(list.search("key5"), None);
    assert_eq!(list.search("key7"), None);

    // Verify remaining items still exist
    assert_eq!(list.search("key0"), Some(0));
    assert_eq!(list.search("key1"), Some(1));
    assert_eq!(list.search("key3"), Some(3));
    assert_eq!(list.search("key4"), Some(4));
    assert_eq!(list.search("key6"), Some(6));
    assert_eq!(list.search("key8"), Some(8));
    assert_eq!(list.search("key9"), Some(9));
}

#[test]
fn skip_list_test_delete_nonexistent_key() {
    let mut list = SkipList::new();
    list.insert("key1".to_string(), 100);

    assert_eq!(list.delete("nonexistent"), None);
    assert_eq!(list.len(), 1); // Size unchanged
    assert_eq!(list.search("key1"), Some(100)); // Original still there
}

#[test]
fn test_delete_and_reinsert() {
    let mut list = SkipList::new();

    list.insert("key1".to_string(), 100);
    assert_eq!(list.delete("key1"), Some(100));
    assert_eq!(list.search("key1"), None);

    // Re-insert same key with different value
    list.insert("key1".to_string(), 200);
    assert_eq!(list.search("key1"), Some(200));
    assert_eq!(list.len(), 1);
}

#[test]
fn test_delete_maintains_order() {
    let mut list = SkipList::new();

    // Insert in order
    for i in 0..20 {
        list.insert(format!("key{:02}", i), i);
    }

    // Delete every other item
    for i in (0..20).step_by(2) {
        list.delete(&format!("key{:02}", i));
    }

    assert_eq!(list.len(), 10);

    // Verify remaining items (odd indices) are still searchable in order
    for i in (1..20).step_by(2) {
        assert_eq!(
            list.search(&format!("key{:02}", i)),
            Some(i),
            "key{:02} should still exist",
            i
        );
    }
}

#[test]
fn test_size_tracking_with_deletes() {
    let mut list = SkipList::new();

    assert_eq!(list.len(), 0);

    list.insert("a".to_string(), 1);
    assert_eq!(list.len(), 1);

    list.insert("b".to_string(), 2);
    assert_eq!(list.len(), 2);

    list.insert("c".to_string(), 3);
    assert_eq!(list.len(), 3);

    list.delete("b");
    assert_eq!(list.len(), 2);

    list.delete("a");
    assert_eq!(list.len(), 1);

    list.delete("c");
    assert_eq!(list.len(), 0);
    assert!(list.is_empty());
}

#[test]
fn test_metrics_after_deletes() {
    let mut list = SkipList::new();

    // Insert 100 items
    for i in 0..100 {
        list.insert(format!("key{:03}", i), i);
    }

    let metrics_before = list.get_metrics();
    assert_eq!(list.len(), 100);

    // Delete 50 items
    for i in (0..100).step_by(2) {
        list.delete(&format!("key{:03}", i));
    }

    let metrics_after = list.get_metrics();
    assert_eq!(list.len(), 50);

    // Metrics should still be valid
    let average = metrics_after.average_level.num as f32 / metrics_after.average_level.den as f32;
    assert!(average >= 0.0);
    assert!(metrics_after.max_level <= MAX_LEVEL as u32);
    assert_eq!(metrics_after.total_insertions, metrics_before.total_insertions); // Insertions don't decrease
}

#[test]
fn test_sequential_insert_delete() {
    let mut list = SkipList::new();

    // Insert 100 items
    for i in 0..100 {
        list.insert(format!("key{:03}", i), i);
    }
    assert_eq!(list.len(), 100);

    // Delete first 50 items
    for i in 0..50 {
        assert_eq!(list.delete(&format!("key{:03}", i)), Some(i));
    }
    assert_eq!(list.len(), 50);

    // Verify deleted items are gone
    for i in 0..50 {
        assert_eq!(list.search(&format!("key{:03}", i)), None);
    }

    // Verify remaining items still exist
    for i in 50..100 {
        assert_eq!(list.search(&format!("key{:03}", i)), Some(i));
    }
}

#[test]
fn test_delete_half_of_list() {
    let mut list = SkipList::new();

    // Insert 100 items
    for i in 0..100 {
        list.insert(format!("item{:03}", i), i);
    }

    // Delete every other item (50 total)
    for i in (0..100).step_by(2) {
        list.delete(&format!("item{:03}", i));
    }

    assert_eq!(list.len(), 50);

    // Verify pattern: even indices gone, odd indices remain
    for i in 0..100 {
        if i % 2 == 0 {
            assert_eq!(
                list.search(&format!("item{:03}", i)),
                None,
                "item{:03} should be deleted",
                i
            );
        } else {
            assert_eq!(
                list.search(&format!("item{:03}", i)),
                Some(i),
                "item{:03} should exist",
                i
            );
        }
    }
}

#[test]
fn test_empty_list_operations() {
    let mut list = SkipList::new();

    // Delete from empty list
    assert_eq!(list.delete("anything"), None);
    assert_eq!(list.len(), 0);
    assert!(list.is_empty());

    // Search in empty list
    assert_eq!(list.search("anything"), None);
}

#[test]
fn test_interleaved_operations() {
    let mut list = SkipList::new();

    // Insert, delete, insert, delete pattern
    list.insert("a".to_string(), 1);
    assert_eq!(list.len(), 1);

    list.insert("b".to_string(), 2);
    assert_eq!(list.len(), 2);

    list.delete("a");
    assert_eq!(list.len(), 1);

    list.insert("c".to_string(), 3);
    assert_eq!(list.len(), 2);

    list.insert("d".to_string(), 4);
    assert_eq!(list.len(), 3);

    list.delete("b");
    assert_eq!(list.len(), 2);

    list.delete("d");
    assert_eq!(list.len(), 1);

    // Only "c" should remain
    assert_eq!(list.search("a"), None);
    assert_eq!(list.search("b"), None);
    assert_eq!(list.search("c"), Some(3));
    assert_eq!(list.search("d"), None);
}
