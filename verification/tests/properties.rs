use kvlab::skip_list::MAX_LEVEL;
use kvlab::{BinarySearchTree, HashMap, OpenAddressingHashTable, RedBlackTree, SkipList};

// End-to-end scenario: chained map insert, update, delete.
#[test]
fn scenario_chained_map_lifecycle() {
    let mut map = HashMap::new();
    map.insert("hello".to_string(), 42);
    assert_eq!(map.get("hello".to_string()), Some(42));
    map.insert("hello".to_string(), 99);
    assert_eq!(map.get("hello".to_string()), Some(99));
    assert_eq!(map.len(), 1);
    assert_eq!(map.delete("hello".to_string()), true);
    assert_eq!(map.get("hello".to_string()), None);
}

// End-to-end scenario: open addressing with a delete in between.
#[test]
fn scenario_open_addressing_delete_then_insert() {
    let mut table = OpenAddressingHashTable::new(256);
    table.insert("k1".to_string(), 100);
    table.insert("k2".to_string(), 200);
    assert_eq!(table.delete("k1"), Some(100));
    table.insert("k3".to_string(), 300);
    assert_eq!(table.get("k1"), None);
    assert_eq!(table.get("k2"), Some(200));
    assert_eq!(table.get("k3"), Some(300));
}

// End-to-end scenario: three keys in an unbalanced tree.
#[test]
fn scenario_bst_three_keys() {
    let mut tree = BinarySearchTree::new();
    tree.insert("dog".to_string(), 1);
    tree.insert("cat".to_string(), 2);
    tree.insert("elephant".to_string(), 3);
    assert_eq!(tree.get("dog".to_string()), Some(1));
    assert_eq!(tree.get("cat".to_string()), Some(2));
    assert_eq!(tree.get("elephant".to_string()), Some(3));
    assert_eq!(tree.get_metrics().total_insertions, 3);
}

// End-to-end scenario: fifty ascending keys stay shallow in the balanced tree.
#[test]
fn scenario_balanced_tree_ascending_inserts() {
    let mut tree = RedBlackTree::new();
    for i in 0..50 {
        tree.insert(format!("key{:04}", i), i);
    }
    assert!(tree.get_metrics().tree_height < 15);
}

// End-to-end scenario: skip list with several deletes.
#[test]
fn scenario_skip_list_deletes() {
    let mut list = SkipList::new();
    for i in 0..10 {
        list.insert(format!("key{}", i), i);
    }
    assert_eq!(list.delete("key2"), Some(2));
    assert_eq!(list.delete("key5"), Some(5));
    assert_eq!(list.delete("key7"), Some(7));
    assert_eq!(list.len(), 7);
    for i in [2u32, 5, 7] {
        assert_eq!(list.search(&format!("key{}", i)), None);
    }
    for i in [0u32, 1, 3, 4, 6, 8, 9] {
        assert_eq!(list.search(&format!("key{}", i)), Some(i));
    }
}

// End-to-end scenario: a lone skip-list entry inserted and removed.
#[test]
fn scenario_skip_list_single_entry() {
    let mut list = SkipList::new();
    list.insert("only".to_string(), 42);
    assert_eq!(list.delete("only"), Some(42));
    assert!(list.is_empty());
    assert_eq!(list.search("only"), None);
}

// Inserting then reading back yields the inserted value, on each container.
#[test]
fn law_insert_establishes_get_everywhere() {
    let mut map = HashMap::new();
    map.insert("k".to_string(), 7);
    assert_eq!(map.get("k".to_string()), Some(7));

    let mut table = OpenAddressingHashTable::new(8);
    table.insert("k".to_string(), 7);
    assert_eq!(table.get("k"), Some(7));

    let mut bst = BinarySearchTree::new();
    bst.insert("k".to_string(), 7);
    assert_eq!(bst.get("k".to_string()), Some(7));

    let mut rb = RedBlackTree::new();
    rb.insert("k".to_string(), 7);
    assert_eq!(rb.get("k"), Some(7));

    let mut sl = SkipList::new();
    sl.insert("k".to_string(), 7);
    assert_eq!(sl.search("k"), Some(7));
}

// A key never inserted reads as absent, on each container.
#[test]
fn law_absent_key_reads_none_everywhere() {
    let map = HashMap::new();
    assert_eq!(map.get("ghost".to_string()), None);
    let mut table = OpenAddressingHashTable::new(8);
    assert_eq!(table.get("ghost"), None);
    let mut bst = BinarySearchTree::new();
    assert_eq!(bst.get("ghost".to_string()), None);
    let rb = RedBlackTree::new();
    assert_eq!(rb.get("ghost"), None);
    let mut sl = SkipList::new();
    assert_eq!(sl.search("ghost"), None);
}

// Inserting the same pair twice leaves size and lookups unchanged.
#[test]
fn law_repeat_insert_idempotent_everywhere() {
    let mut map = HashMap::new();
    map.insert("k".to_string(), 1);
    map.insert("k".to_string(), 1);
    assert_eq!(map.len(), 1);
    assert_eq!(map.get("k".to_string()), Some(1));

    let mut bst = BinarySearchTree::new();
    bst.insert("k".to_string(), 1);
    bst.insert("k".to_string(), 1);
    assert_eq!(bst.len(), 1);
    assert_eq!(bst.get("k".to_string()), Some(1));

    let mut sl = SkipList::new();
    sl.insert("k".to_string(), 1);
    sl.insert("k".to_string(), 1);
    assert_eq!(sl.len(), 1);
    assert_eq!(sl.search("k"), Some(1));
}

// Updating an existing key does not change the size.
#[test]
fn law_update_preserves_size_everywhere() {
    let mut map = HashMap::new();
    map.insert("a".to_string(), 1);
    map.insert("b".to_string(), 2);
    map.insert("a".to_string(), 9);
    assert_eq!(map.len(), 2);

    let mut bst = BinarySearchTree::new();
    bst.insert("a".to_string(), 1);
    bst.insert("b".to_string(), 2);
    bst.insert("a".to_string(), 9);
    assert_eq!(bst.len(), 2);

    let mut sl = SkipList::new();
    sl.insert("a".to_string(), 1);
    sl.insert("b".to_string(), 2);
    sl.insert("a".to_string(), 9);
    assert_eq!(sl.len(), 2);
}

// Deleting a freshly inserted key restores the previous size and absence.
#[test]
fn law_delete_restores_absence_everywhere() {
    let mut map = HashMap::new();
    map.insert("keep".to_string(), 5);
    let before = map.len();
    map.insert("fresh".to_string(), 6);
    assert!(map.delete("fresh".to_string()));
    assert_eq!(map.get("fresh".to_string()), None);
    assert_eq!(map.len(), before);

    let mut bst = BinarySearchTree::new();
    bst.insert("keep".to_string(), 5);
    let before = bst.len();
    bst.insert("fresh".to_string(), 6);
    assert!(bst.delete("fresh".to_string()));
    assert_eq!(bst.get("fresh".to_string()), None);
    assert_eq!(bst.len(), before);

    let mut rb = RedBlackTree::new();
    rb.insert("keep".to_string(), 5);
    rb.insert("fresh".to_string(), 6);
    assert_eq!(rb.delete("fresh"), Some(6));
    assert_eq!(rb.get("fresh"), None);

    let mut sl = SkipList::new();
    sl.insert("keep".to_string(), 5);
    let before = sl.len();
    sl.insert("fresh".to_string(), 6);
    assert_eq!(sl.delete("fresh"), Some(6));
    assert_eq!(sl.search("fresh"), None);
    assert_eq!(sl.len(), before);
}

// In-order traversal of the ordered containers emits strictly ascending keys.
#[test]
fn law_ordered_containers_emit_sorted_keys() {
    let input = ["pear", "apple", "zucchini", "mango", "banana", "cherry"];

    let mut bst = BinarySearchTree::new();
    let mut rb = RedBlackTree::new();
    let mut sl = SkipList::new();
    for (i, k) in input.iter().enumerate() {
        bst.insert(k.to_string(), i as u32);
        rb.insert(k.to_string(), i as u32);
        sl.insert(k.to_string(), i as u32);
    }
    for keys in [bst.keys(), rb.keys(), sl.keys()] {
        assert_eq!(keys.len(), input.len());
        for w in keys.windows(2) {
            assert!(w[0] < w[1], "keys must be strictly ascending");
        }
        let mut sorted: Vec<Vec<u8>> = input.iter().map(|s| s.as_bytes().to_vec()).collect();
        sorted.sort();
        assert_eq!(keys, sorted);
    }
}

// The load factor is reported as an exact ratio of live size to capacity.
#[test]
fn open_addressing_exact_load_factor_ratio() {
    let mut table = OpenAddressingHashTable::new(100);
    for i in 0..50 {
        table.insert(format!("key{}", i), i);
    }
    let m = table.get_metrics();
    assert_eq!(m.load_factor.num, 50);
    assert_eq!(m.load_factor.den, 100);
    table.delete("key0");
    let m = table.get_metrics();
    assert_eq!(m.load_factor.num, 49);
    assert_eq!(m.load_factor.den, 100);
    assert_eq!(m.tombstone_count, 1);
}

// The chained map reports its load factor as live size over 256 buckets.
#[test]
fn chained_map_exact_load_factor_ratio() {
    let mut map = HashMap::new();
    for i in 0..100 {
        map.insert(format!("key{}", i), i);
    }
    let m = map.get_metrics();
    assert_eq!(m.total_insertions, 100);
    assert_eq!(m.average_load_factor.num, 100);
    assert_eq!(m.average_load_factor.den, 256);
}

// A capacity-one table still stores and updates a single key.
#[test]
fn open_addressing_capacity_one() {
    let mut table = OpenAddressingHashTable::new(1);
    table.insert("solo".to_string(), 1);
    assert_eq!(table.get("solo"), Some(1));
    table.insert("solo".to_string(), 2);
    assert_eq!(table.get("solo"), Some(2));
    assert_eq!(table.delete("solo"), Some(2));
    table.insert("next".to_string(), 3);
    assert_eq!(table.get("next"), Some(3));
}

// The empty key is an ordinary key, even beside the skip list's sentinel.
#[test]
fn empty_key_is_ordinary() {
    let mut sl = SkipList::new();
    sl.insert("".to_string(), 11);
    sl.insert("a".to_string(), 22);
    assert_eq!(sl.search(""), Some(11));
    assert_eq!(sl.delete(""), Some(11));
    assert_eq!(sl.search(""), None);
    assert_eq!(sl.search("a"), Some(22));

    let mut bst = BinarySearchTree::new();
    bst.insert("".to_string(), 11);
    bst.insert("a".to_string(), 22);
    assert_eq!(bst.get("".to_string()), Some(11));
    assert!(bst.delete("".to_string()));
    assert_eq!(bst.get("".to_string()), None);

    let mut map = HashMap::new();
    map.insert("".to_string(), 11);
    assert_eq!(map.get("".to_string()), Some(11));
}

// Every drawn node level respects the cap; insertion cost reports it.
#[test]
fn skip_list_levels_stay_capped() {
    let mut list = SkipList::new();
    for i in 0..200 {
        list.insert(format!("k{}", i), i);
        let m = list.get_metrics();
        assert!(m.insertion_cost <= MAX_LEVEL as u32);
        assert!(m.max_level <= MAX_LEVEL as u32);
    }
}

// BST comparison counting: one root insert costs none, a child costs one.
#[test]
fn bst_exact_comparison_counts() {
    let mut tree = BinarySearchTree::new();
    tree.insert("m".to_string(), 1);
    assert_eq!(tree.get_metrics().total_comparisons, 0);
    tree.insert("a".to_string(), 2);
    assert_eq!(tree.get_metrics().total_comparisons, 1);
    assert_eq!(tree.get_metrics().max_depth, 1);
    tree.get("a".to_string());
    assert_eq!(tree.get_metrics().total_comparisons, 3);
}

// Deleting an interior tree node keeps the rest reachable, in order.
#[test]
fn tree_delete_interior_node() {
    let mut bst = BinarySearchTree::new();
    for k in ["m", "d", "t", "a", "f", "p", "z"] {
        bst.insert(k.to_string(), k.len() as u32);
    }
    assert!(bst.delete("m".to_string()));
    assert_eq!(bst.len(), 6);
    for k in ["d", "t", "a", "f", "p", "z"] {
        assert_eq!(bst.get(k.to_string()), Some(k.len() as u32));
    }
    let keys = bst.keys();
    for w in keys.windows(2) {
        assert!(w[0] < w[1]);
    }

    let mut rb = RedBlackTree::new();
    for k in ["m", "d", "t", "a", "f", "p", "z"] {
        rb.insert(k.to_string(), k.len() as u32);
    }
    assert_eq!(rb.delete("m"), Some(1));
    for k in ["d", "t", "a", "f", "p", "z"] {
        assert_eq!(rb.get(k), Some(k.len() as u32));
    }
}

// A re-inserted key lands with its new value; tombstones never shadow it.
#[test]
fn open_addressing_reinsert_after_delete() {
    let mut table = OpenAddressingHashTable::new(64);
    table.insert("cycle".to_string(), 1);
    assert_eq!(table.delete("cycle"), Some(1));
    table.insert("cycle".to_string(), 2);
    assert_eq!(table.get("cycle"), Some(2));
}

// Ascending inserts force a rotation: the third key unbalances the root.
#[test]
fn balanced_tree_counts_a_rotation() {
    let mut tree = RedBlackTree::new();
    tree.insert("a".to_string(), 1);
    tree.insert("b".to_string(), 2);
    assert_eq!(tree.get_metrics().rotation_count, 0);
    assert_eq!(tree.get_metrics().rebalance_count, 0);
    tree.insert("c".to_string(), 3);
    let m = tree.get_metrics();
    assert_eq!(m.rotation_count, 1);
    assert_eq!(m.rebalance_count, 1);
    assert_eq!(m.color_fix_count, 0);
    assert_eq!(m.tree_height, 2);
}

// A zig-zag shape forces a double rotation: the left child leans the
// wrong way, so it is rotated left before the node is rotated right.
#[test]
fn balanced_tree_counts_a_double_rotation() {
    let mut tree = RedBlackTree::new();
    tree.insert("c".to_string(), 1);
    tree.insert("a".to_string(), 2);
    assert_eq!(tree.get_metrics().rotation_count, 0);
    tree.insert("b".to_string(), 3);
    let m = tree.get_metrics();
    assert_eq!(m.rotation_count, 2);
    assert_eq!(m.rebalance_count, 1);
    assert_eq!(m.tree_height, 2);
    assert_eq!(tree.get("a"), Some(2));
    assert_eq!(tree.get("b"), Some(3));
    assert_eq!(tree.get("c"), Some(1));
}

// Two red children under a balanced node force a recolor, not a rotation:
// the third insert leaves the root with two red children.
#[test]
fn balanced_tree_counts_a_recolor() {
    let mut tree = RedBlackTree::new();
    tree.insert("b".to_string(), 1);
    tree.insert("a".to_string(), 2);
    assert_eq!(tree.get_metrics().color_fix_count, 0);
    tree.insert("c".to_string(), 3);
    let m = tree.get_metrics();
    assert_eq!(m.color_fix_count, 1);
    assert_eq!(m.rotation_count, 0);
    assert_eq!(m.rebalance_count, 1);
}

// Probe accounting: a lone key in a one-slot table never probes past its
// first slot, and an update adds no probe steps.
#[test]
fn open_addressing_probe_steps_exact() {
    let mut table = OpenAddressingHashTable::new(1);
    table.insert("solo".to_string(), 1);
    table.insert("solo".to_string(), 2);
    assert_eq!(table.get("solo"), Some(2));
    let m = table.get_metrics();
    assert_eq!(m.total_probes, 0);
    assert_eq!(m.max_probe_length, 0);
    assert_eq!(m.total_insertions, 2);
}

// A search of the empty list makes no key comparison.
#[test]
fn skip_list_empty_search_compares_nothing() {
    let mut list = SkipList::new();
    assert_eq!(list.search("anything"), None);
    let m = list.get_metrics();
    assert_eq!(m.total_searches, 1);
    assert_eq!(m.search_comparisons, 0);
}
