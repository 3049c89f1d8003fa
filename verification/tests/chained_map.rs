use kvlab::HashMap;

#[test]
fn lib_test_insert_and_get() {
    let mut map = HashMap::new();
    map.insert("hello".to_string(), 42);
    assert_eq!(map.get("hello".to_string()), Some(42));
}

#[test]
fn test_get_missing_key() {
    let map = HashMap::new();
    assert_eq!(map.get("missing".to_string()), None);
}

#[test]
fn lib_test_update_existing_key() {
    let mut map = HashMap::new();
    map.insert("hello".to_string(), 42);
    map.insert("hello".to_string(), 99);
    assert_eq!(map.get("hello".to_string()), Some(99));
    // Size should still be 1 (update, not insert)
    assert_eq!(map.len(), 1);
}

#[test]
fn lib_test_multiple_insertions() {
    let mut map = HashMap::new();
    for i in 0..100 {
        let key = format!("key{}", i);
        map.insert(key, i as u32);
    }
    assert_eq!(map.len(), 100);

    // Verify all keys are retrievable
    for i in 0..100 {
        let key = format!("key{}", i);
        assert_eq!(map.get(key), Some(i as u32));
    }
}

#[test]
fn test_delete() {
    let mut map = HashMap::new();
    map.insert("hello".to_string(), 42);
    assert!(map.delete("hello".to_string()));
    assert_eq!(map.get("hello".to_string()), None);
    assert_eq!(map.len(), 0);
}

#[test]
fn test_delete_missing_key() {
    let mut map = HashMap::new();
    assert!(!map.delete("missing".to_string()));
}

#[test]
fn test_metrics_collisions() {
    let mut map = HashMap::new();

    // Insert 10,000 items to 256 buckets
    // Expected: many collisions
    for i in 0..10000 {
        let key = format!("key{}", i);
        map.insert(key, i as u32);
    }

    let metrics = map.get_metrics();
    assert_eq!(metrics.total_insertions, 10000);
    assert!(
        metrics.total_collisions > 0,
        "Should have collisions with 10k items in 256 buckets"
    );
    assert!(metrics.max_chain_length > 1, "Max chain should be > 1");
    // Load factor ≈ 10000 / 256 ≈ 39
    let load = metrics.average_load_factor.num as f32 / metrics.average_load_factor.den as f32;
    assert!(load > 38.0 && load < 40.0);
}

#[test]
fn test_metrics_load_factor() {
    let mut map = HashMap::new();

    for i in 0..1000 {
        let key = format!("key{}", i);
        map.insert(key, i as u32);
    }

    let metrics = map.get_metrics();
    // Load factor should be 1000 / 256 ≈ 3.9
    let expected = 1000.0 / 256.0;
    let load = metrics.average_load_factor.num as f32 / metrics.average_load_factor.den as f32;
    assert!((load - expected).abs() < 0.1);
}

#[test]
fn test_empty_map() {
    let map = HashMap::new();
    assert!(map.is_empty());
    assert_eq!(map.len(), 0);
    assert_eq!(map.get("anything".to_string()), None);
}

#[test]
fn test_collision_counting() {
    let mut map = HashMap::new();
    assert_eq!(map.get_metrics().total_collisions, 0);

    // Insert first item to bucket
    map.insert("a".to_string(), 1);
    assert_eq!(map.get_metrics().total_collisions, 0); // No collision, bucket was empty

    // Insert item that might collide (depends on hash)
    // This is non-deterministic, but we can test the mechanism
    for i in 0..256 {
        let key = format!("test{}", i);
        map.insert(key, i as u32);
    }

    let metrics = map.get_metrics();
    // With 257 items in 256 buckets, at least 1 must collide
    assert!(metrics.total_collisions > 0 || metrics.total_insertions >= 256);
}
