//! A pedagogical library of associative key-to-value containers.
//!
//! Five containers implement the same abstract map interface over byte-string
//! keys and `u32` values, each with a distinct indexing structure: a
//! separate-chaining hash table, an open-addressing hash table with tombstone
//! deletion, an unbalanced binary search tree, a height-rebalanced search tree
//! with node coloring, and a probabilistic skip list. Every container
//! instruments its own work (collisions, probes, comparisons, rotations,
//! levels) so that callers can contrast the structures on identical workloads.

pub mod bst;
pub mod chained;
pub mod hashing;
pub mod key;
pub mod laws;
pub mod metrics;
pub mod open_addressing;
pub mod red_black_tree;
pub mod skip_list;

pub use bst::{BinarySearchTree, BSTMetrics};
pub use chained::{HashMap, HashMapMetrics};
pub use metrics::Ratio;
pub use open_addressing::{OpenAddressingHashTable, OpenAddressingMetrics};
pub use red_black_tree::{Color, RBTreeMetrics, RedBlackTree};
pub use skip_list::{SkipList, SkipListMetrics};
