//! A classical unbalanced binary search tree.
//!
//! Keys descend left when smaller and right when larger, in lexicographic
//! byte order; an equal key updates the value in place. No balancing is
//! performed. The tree counts the key comparisons done by `insert`, `get`
//! and `delete`, and remembers the deepest point at which a new node has
//! ever been installed.

use vstd::prelude::*;

verus! {

use crate::key::{KeyOrder, key_cmp, clone_key, lex_lt, str_key, lemma_lex_lt_trichotomy,
    lemma_lex_lt_transitive, lemma_lex_lt_irreflexive};
use crate::laws::map_get;
use crate::metrics::{Ratio, spec_bump, spec_sat_add, bump, umax32, cap32};

struct Node {
    key: Vec<u8>,
    value: u32,
    left: Option<Box<Node>>,
    right: Option<Box<Node>>,
}

/// Metrics collected while a `BinarySearchTree` is used.
#[derive(Clone, Copy, Debug, PartialEq, Eq, Structural)]
pub struct BSTMetrics {
    /// Successful new-key insertions.
    pub total_insertions: u32,
    /// Key comparisons performed by `insert`, `get` and `delete`.
    pub total_comparisons: u32,
    /// Deepest depth at which a new node has ever been installed (monotonic).
    pub max_depth: u32,
    /// Comparisons divided by size, as of the last new-key insertion.
    pub average_depth: Ratio,
}

/// All fields except the comparison counter agree.
pub open spec fn same_but_comparisons(a: BSTMetrics, b: BSTMetrics) -> bool {
    &&& a.total_insertions == b.total_insertions
    &&& a.max_depth == b.max_depth
    &&& a.average_depth == b.average_depth
}

impl Node {
    spec fn optional_as_map(node_opt: Option<Box<Node>>) -> Map<Seq<u8>, u32>
        decreases node_opt,
    {
        match node_opt {
            None => Map::empty(),
            Some(node) => node.as_map(),
        }
    }

    spec fn as_map(self) -> Map<Seq<u8>, u32>
        decreases self,
    {
        Node::optional_as_map(self.left).union_prefer_right(
            Node::optional_as_map(self.right),
        ).insert(self.key@, self.value)
    }

    /// Binary-search-tree order: everything left is below the key,
    /// everything right is above it.
    spec fn wf(self) -> bool
        decreases self,
    {
        &&& (forall|elem: Seq<u8>|
            Node::optional_as_map(self.left).dom().contains(elem) ==> lex_lt(elem, self.key@))
        &&& (forall|elem: Seq<u8>|
            Node::optional_as_map(self.right).dom().contains(elem) ==> lex_lt(self.key@, elem))
        &&& (match self.left {
            Some(left_node) => left_node.wf(),
            None => true,
        })
        &&& (match self.right {
            Some(right_node) => right_node.wf(),
            None => true,
        })
    }

    spec fn opt_wf(node_opt: Option<Box<Node>>) -> bool {
        match node_opt {
            Some(node) => node.wf(),
            None => true,
        }
    }

    /// How many key comparisons a descent for `k` makes.
    spec fn cmp_count_opt(node_opt: Option<Box<Node>>, k: Seq<u8>) -> nat
        decreases node_opt,
    {
        match node_opt {
            None => 0,
            Some(node) => 1 + (if k == node.key@ {
                0
            } else if lex_lt(k, node.key@) {
                Node::cmp_count_opt(node.left, k)
            } else {
                Node::cmp_count_opt(node.right, k)
            }),
        }
    }

    /// The maps of the subtrees are finite.
    proof fn lemma_as_map_finite(node_opt: Option<Box<Node>>)
        ensures
            Node::optional_as_map(node_opt).dom().finite(),
        decreases node_opt,
    {
        match node_opt {
            None => {},
            Some(node) => {
                Node::lemma_as_map_finite(node.left);
                Node::lemma_as_map_finite(node.right);
                assert(node.as_map().dom() =~= Node::optional_as_map(node.left).dom().union(
                    Node::optional_as_map(node.right).dom(),
                ).insert(node.key@));
            },
        }
    }

    /// In a well-formed subtree the root key splits lookups: a key below the
    /// root key can only live in the left map, one above it only in the right.
    proof fn lemma_split(node: Node, k: Seq<u8>)
        requires
            node.wf(),
        ensures
            k == node.key@ ==> !Node::optional_as_map(node.left).dom().contains(k)
                && !Node::optional_as_map(node.right).dom().contains(k),
            lex_lt(k, node.key@) ==> !Node::optional_as_map(node.right).dom().contains(k)
                && k != node.key@,
            lex_lt(node.key@, k) ==> !Node::optional_as_map(node.left).dom().contains(k)
                && k != node.key@,
    {
        lemma_lex_lt_irreflexive(node.key@);
        lemma_lex_lt_trichotomy(k, node.key@);
        if Node::optional_as_map(node.left).dom().contains(k) {
            assert(lex_lt(k, node.key@));
            lemma_lex_lt_trichotomy(k, node.key@);
        }
        if Node::optional_as_map(node.right).dom().contains(k) {
            assert(lex_lt(node.key@, k));
            lemma_lex_lt_trichotomy(node.key@, k);
        }
    }

    fn insert_rec(
        node: &mut Option<Box<Node>>,
        key: Vec<u8>,
        value: u32,
        depth: u32,
        metrics: &mut BSTMetrics,
    ) -> (is_new: bool)
        requires
            Node::opt_wf(*old(node)),
        ensures
            Node::opt_wf(*final(node)),
            Node::optional_as_map(*final(node)) =~= Node::optional_as_map(*old(node)).insert(
                key@,
                value,
            ),
            is_new == !Node::optional_as_map(*old(node)).dom().contains(key@),
            final(metrics).total_comparisons == spec_sat_add(
                old(metrics).total_comparisons,
                Node::cmp_count_opt(*old(node), key@),
            ),
            final(metrics).total_insertions == old(metrics).total_insertions,
            final(metrics).average_depth == old(metrics).average_depth,
            final(metrics).max_depth == (if is_new && old(node).is_some() {
                umax32(
                    old(metrics).max_depth,
                    spec_sat_add(depth as u32, Node::cmp_count_opt(*old(node), key@)),
                )
            } else {
                old(metrics).max_depth
            }),
        decreases *old(node),
    {
        match node.take() {
            None => {
                *node = Some(Box::new(Node { key, value, left: None, right: None }));
                true
            },
            Some(mut n) => {
                metrics.total_comparisons = bump(metrics.total_comparisons);
                proof {
                    lemma_lex_lt_trichotomy(key@, n.key@);
                    Node::lemma_split(*n, key@);
                }
                let o = key_cmp(&key, &n.key);
                match o {
                    KeyOrder::Equal => {
                        n.value = value;
                        let ghost m = *n;
                        *node = Some(n);
                        proof {
                            assert(final(node).unwrap() == m);
                        }
                        false
                    },
                    KeyOrder::Less => {
                        let d2 = bump(depth);
                        let is_new = Node::insert_rec(&mut n.left, key, value, d2, metrics);
                        if is_new {
                            let md = metrics.max_depth;
                            metrics.max_depth = if md >= d2 {
                                md
                            } else {
                                d2
                            };
                        }
                        let ghost m = *n;
                        *node = Some(n);
                        proof {
                            assert(final(node).unwrap() == m);
                        }
                        is_new
                    },
                    KeyOrder::Greater => {
                        let d2 = bump(depth);
                        let is_new = Node::insert_rec(&mut n.right, key, value, d2, metrics);
                        if is_new {
                            let md = metrics.max_depth;
                            metrics.max_depth = if md >= d2 {
                                md
                            } else {
                                d2
                            };
                        }
                        let ghost m = *n;
                        *node = Some(n);
                        proof {
                            assert(final(node).unwrap() == m);
                        }
                        is_new
                    },
                }
            },
        }
    }

    fn search_rec(node: &Option<Box<Node>>, key: &Vec<u8>, metrics: &mut BSTMetrics) -> (r: Option<
        u32,
    >)
        requires
            Node::opt_wf(*node),
        ensures
            r == map_get(Node::optional_as_map(*node), key@),
            final(metrics).total_comparisons == spec_sat_add(
                old(metrics).total_comparisons,
                Node::cmp_count_opt(*node, key@),
            ),
            same_but_comparisons(*final(metrics), *old(metrics)),
        decreases *node,
    {
        match node {
            None => None,
            Some(n) => {
                metrics.total_comparisons = bump(metrics.total_comparisons);
                proof {
                    lemma_lex_lt_trichotomy(key@, n.key@);
                    Node::lemma_split(**n, key@);
                }
                let o = key_cmp(key, &n.key);
                match o {
                    KeyOrder::Equal => Some(n.value),
                    KeyOrder::Less => Node::search_rec(&n.left, key, metrics),
                    KeyOrder::Greater => Node::search_rec(&n.right, key, metrics),
                }
            },
        }
    }

    /// Remove and return the smallest entry of a non-empty subtree.
    fn delete_leftmost(node: &mut Option<Box<Node>>) -> (popped: (Vec<u8>, u32))
        requires
            old(node).is_some(),
            old(node).unwrap().wf(),
        ensures
            Node::opt_wf(*final(node)),
            Node::optional_as_map(*final(node)) =~= Node::optional_as_map(*old(node)).remove(
                popped.0@,
            ),
            Node::optional_as_map(*old(node)).dom().contains(popped.0@),
            Node::optional_as_map(*old(node))[popped.0@] == popped.1,
            forall|elem: Seq<u8>|
                Node::optional_as_map(*old(node)).dom().contains(elem) ==> elem == popped.0@
                    || lex_lt(popped.0@, elem),
        decreases *old(node),
    {
        let mut n = node.take().unwrap();
        if n.left.is_none() {
            proof {
                assert(Node::optional_as_map(n.left) =~= Map::empty());
                Node::lemma_split(*n, n.key@);
            }
            *node = n.right.take();
            (n.key, n.value)
        } else {
            let popped = Node::delete_leftmost(&mut n.left);
            proof {
                Node::lemma_split(*n, popped.0@);
                assert(lex_lt(popped.0@, n.key@));
                assert forall|elem: Seq<u8>|
                    Node::optional_as_map(*old(node)).dom().contains(elem) implies elem
                    == popped.0@ || lex_lt(popped.0@, elem) by {
                    if elem == n.key@ {
                        assert(lex_lt(popped.0@, elem));
                    } else if Node::optional_as_map(n.right).dom().contains(elem) {
                        lemma_lex_lt_transitive(popped.0@, n.key@, elem);
                    }
                }
            }
            let ghost m = *n;
            *node = Some(n);
            proof {
                assert(final(node).unwrap() == m);
            }
            popped
        }
    }

    fn delete_rec(node: &mut Option<Box<Node>>, key: &Vec<u8>, metrics: &mut BSTMetrics) -> (found:
        bool)
        requires
            Node::opt_wf(*old(node)),
        ensures
            Node::opt_wf(*final(node)),
            Node::optional_as_map(*final(node)) =~= Node::optional_as_map(*old(node)).remove(key@),
            found == Node::optional_as_map(*old(node)).dom().contains(key@),
            final(metrics).total_comparisons == spec_sat_add(
                old(metrics).total_comparisons,
                Node::cmp_count_opt(*old(node), key@),
            ),
            same_but_comparisons(*final(metrics), *old(metrics)),
        decreases *old(node),
    {
        match node.take() {
            None => false,
            Some(mut n) => {
                metrics.total_comparisons = bump(metrics.total_comparisons);
                proof {
                    lemma_lex_lt_trichotomy(key@, n.key@);
                    Node::lemma_split(*n, key@);
                }
                let o = key_cmp(key, &n.key);
                match o {
                    KeyOrder::Equal => {
                        if n.left.is_none() {
                            proof {
                                assert(Node::optional_as_map(n.left) =~= Map::empty());
                            }
                            *node = n.right.take();
                        } else if n.right.is_none() {
                            proof {
                                assert(Node::optional_as_map(n.right) =~= Map::empty());
                            }
                            *node = n.left.take();
                        } else {
                            // Two children: adopt the in-order successor.
                            let popped = Node::delete_leftmost(&mut n.right);
                            proof {
                                assert(lex_lt(n.key@, popped.0@));
                                assert forall|elem: Seq<u8>|
                                    Node::optional_as_map(n.left).dom().contains(
                                        elem,
                                    ) implies lex_lt(elem, popped.0@) by {
                                    lemma_lex_lt_transitive(elem, n.key@, popped.0@);
                                }
                                assert forall|elem: Seq<u8>|
                                    Node::optional_as_map(n.right).dom().contains(
                                        elem,
                                    ) implies lex_lt(popped.0@, elem) by {
                                    lemma_lex_lt_irreflexive(elem);
                                }
                            }
                            n.key = popped.0;
                            n.value = popped.1;
                            let ghost m = *n;
                            *node = Some(n);
                            proof {
                                assert(final(node).unwrap() == m);
                            }
                        }
                        true
                    },
                    KeyOrder::Less => {
                        let found = Node::delete_rec(&mut n.left, key, metrics);
                        let ghost m = *n;
                        *node = Some(n);
                        proof {
                            assert(final(node).unwrap() == m);
                        }
                        found
                    },
                    KeyOrder::Greater => {
                        let found = Node::delete_rec(&mut n.right, key, metrics);
                        let ghost m = *n;
                        *node = Some(n);
                        proof {
                            assert(final(node).unwrap() == m);
                        }
                        found
                    },
                }
            },
        }
    }

    /// The keys of the subtree in symmetric order.
    spec fn inorder(node_opt: Option<Box<Node>>) -> Seq<Seq<u8>>
        decreases node_opt,
    {
        match node_opt {
            None => Seq::empty(),
            Some(n) => Node::inorder(n.left) + seq![n.key@] + Node::inorder(n.right),
        }
    }

    /// In a well-formed subtree, the in-order key sequence is strictly
    /// ascending and lists exactly the keys of the subtree's map.
    proof fn lemma_inorder(node_opt: Option<Box<Node>>)
        requires
            Node::opt_wf(node_opt),
        ensures
            Node::inorder(node_opt).len() == Node::optional_as_map(node_opt).len(),
            forall|i: int|
                0 <= i < Node::inorder(node_opt).len() ==> Node::optional_as_map(
                    node_opt,
                ).dom().contains(#[trigger] Node::inorder(node_opt)[i]),
            forall|k: Seq<u8>| #[trigger]
                Node::optional_as_map(node_opt).dom().contains(k) ==> exists|i: int|
                    0 <= i < Node::inorder(node_opt).len() && Node::inorder(node_opt)[i] == k,
            forall|i: int, j: int|
                0 <= i < j < Node::inorder(node_opt).len() ==> lex_lt(
                    #[trigger] Node::inorder(node_opt)[i],
                    #[trigger] Node::inorder(node_opt)[j],
                ),
        decreases node_opt,
    {
        match node_opt {
            None => {},
            Some(n) => {
                Node::lemma_inorder(n.left);
                Node::lemma_inorder(n.right);
                Node::lemma_as_map_finite(n.left);
                Node::lemma_as_map_finite(n.right);
                let sl = Node::inorder(n.left);
                let sr = Node::inorder(n.right);
                let s = Node::inorder(node_opt);
                let dl = Node::optional_as_map(n.left).dom();
                let dr = Node::optional_as_map(n.right).dom();
                assert(forall|i: int| 0 <= i < sl.len() ==> #[trigger] s[i] == sl[i]);
                assert(s[sl.len() as int] == n.key@);
                assert(forall|i: int|
                    0 <= i < sr.len() ==> #[trigger] sr[i] == s[sl.len() + 1 + i]);
                assert forall|a: Seq<u8>| #![auto] !(dl.contains(a) && dr.contains(a)) by {
                    if dl.contains(a) && dr.contains(a) {
                        lemma_lex_lt_trichotomy(a, n.key@);
                    }
                }
                assert(dl.disjoint(dr));
                vstd::set_lib::lemma_set_disjoint_lens(dl, dr);
                assert(n.as_map().dom() =~= (dl + dr).insert(n.key@));
                assert(!(dl + dr).contains(n.key@)) by {
                    lemma_lex_lt_irreflexive(n.key@);
                }
                assert((dl + dr).insert(n.key@).len() == (dl + dr).len() + 1);
                assert forall|i: int, j: int| 0 <= i < j < s.len() implies lex_lt(
                    #[trigger] s[i],
                    #[trigger] s[j],
                ) by {
                    let m = sl.len() as int;
                    if i < m {
                        assert(s[i] == sl[i]);
                        assert(dl.contains(sl[i]));
                        if j < m {
                            assert(s[j] == sl[j]);
                        } else if j == m {
                            assert(lex_lt(s[i], n.key@));
                        } else {
                            assert(s[j] == sr[j - m - 1]);
                            assert(dr.contains(sr[j - m - 1]));
                            lemma_lex_lt_transitive(s[i], n.key@, s[j]);
                        }
                    } else if i == m {
                        assert(s[j] == sr[j - m - 1]);
                        assert(dr.contains(sr[j - m - 1]));
                    } else {
                        assert(s[i] == sr[i - m - 1] && s[j] == sr[j - m - 1]);
                    }
                }
                assert forall|k: Seq<u8>| #[trigger]
                    Node::optional_as_map(node_opt).dom().contains(k) implies exists|i: int|
                    0 <= i < s.len() && s[i] == k by {
                    let m = sl.len() as int;
                    if k == n.key@ {
                        assert(s[m] == k);
                    } else if dl.contains(k) {
                        let i = choose|i: int| 0 <= i < sl.len() && sl[i] == k;
                        assert(s[i] == k);
                    } else {
                        assert(dr.contains(k));
                        let i = choose|i: int| 0 <= i < sr.len() && sr[i] == k;
                        assert(s[m + 1 + i] == k);
                    }
                }
            },
        }
    }

    /// Append the subtree's keys to `out` in symmetric order.
    fn collect_keys(node: &Option<Box<Node>>, out: &mut Vec<Vec<u8>>)
        requires
            Node::opt_wf(*node),
        ensures
            final(out)@.len() == old(out)@.len() + Node::inorder(*node).len(),
            forall|i: int| 0 <= i < old(out)@.len() ==> #[trigger] final(out)@[i] == old(out)@[i],
            forall|i: int|
                0 <= i < Node::inorder(*node).len() ==> #[trigger] final(out)@[old(out)@.len()
                    + i]@ == Node::inorder(*node)[i],
        decreases *node,
    {
        match node {
            None => {},
            Some(n) => {
                let ghost o0 = out@;
                Node::collect_keys(&n.left, out);
                let ghost o1 = out@;
                out.push(clone_key(&n.key));
                let ghost o2 = out@;
                Node::collect_keys(&n.right, out);
                proof {
                    let sl = Node::inorder(n.left);
                    let sr = Node::inorder(n.right);
                    let s = Node::inorder(*node);
                    assert(forall|i: int| 0 <= i < sl.len() ==> #[trigger] s[i] == sl[i]);
                    assert(s[sl.len() as int] == n.key@);
                    assert(forall|i: int|
                        0 <= i < sr.len() ==> #[trigger] sr[i] == s[sl.len() + 1 + i]);
                    assert(o2.len() == o0.len() + sl.len() + 1);
                    assert forall|i: int| 0 <= i < o0.len() implies #[trigger] out@[i]
                        == o0[i] by {
                        assert(o1[i] == o0[i]);
                        assert(o2[i] == o1[i]);
                        assert(out@[i] == o2[i]);
                    }
                    assert forall|i: int| 0 <= i < s.len() implies #[trigger] out@[o0.len()
                        + i]@ == s[i] by {
                        let m = sl.len() as int;
                        if i < m {
                            assert(o1[o0.len() + i]@ == sl[i]);
                            assert(o2[o0.len() + i] == o1[o0.len() + i]);
                            assert(out@[o0.len() + i] == o2[o0.len() + i]);
                        } else if i == m {
                            assert(o2[o0.len() + i]@ == n.key@);
                            assert(out@[o0.len() + i] == o2[o0.len() + i]);
                        } else {
                            assert(out@[o2.len() + (i - m - 1)]@ == sr[i - m - 1]);
                        }
                    }
                }
            },
        }
    }
}

/// An unbalanced binary search tree over byte-string keys.
pub struct BinarySearchTree {
    root: Option<Box<Node>>,
    size: usize,
    metrics: BSTMetrics,
}

impl View for BinarySearchTree {
    type V = Map<Seq<u8>, u32>;

    closed spec fn view(&self) -> Map<Seq<u8>, u32> {
        Node::optional_as_map(self.root)
    }
}

impl BinarySearchTree {
    /// The tree is ordered and the recorded size is the map's cardinality.
    pub closed spec fn inv(&self) -> bool {
        &&& Node::opt_wf(self.root)
        &&& self.size == self@.len()
    }

    /// The metric record as last written.
    pub closed spec fn spec_metrics(&self) -> BSTMetrics {
        self.metrics
    }

    /// How many key comparisons a descent for `k` makes in the current tree.
    pub closed spec fn cmp_count(&self, k: Seq<u8>) -> nat {
        Node::cmp_count_opt(self.root, k)
    }

    /// Create an empty tree.
    pub fn new() -> (t: BinarySearchTree)
        ensures
            t.inv(),
            t@ == Map::<Seq<u8>, u32>::empty(),
            t.spec_metrics() == (BSTMetrics {
                total_insertions: 0,
                total_comparisons: 0,
                max_depth: 0,
                average_depth: Ratio { num: 0, den: 1 },
            }),
    {
        let t = BinarySearchTree {
            root: None,
            size: 0,
            metrics: BSTMetrics {
                total_insertions: 0,
                total_comparisons: 0,
                max_depth: 0,
                average_depth: Ratio { num: 0, den: 1 },
            },
        };
        proof {
            assert(t@ =~= Map::<Seq<u8>, u32>::empty());
        }
        t
    }

    /// Insert a key-value pair: create the key or update its value in place.
    ///
    /// A new key is installed at the end of its search path; an update
    /// changes no structure and refreshes no metric except the comparison
    /// count.
    pub fn insert(&mut self, key: String, value: u32)
        requires
            old(self).inv(),
            old(self)@.len() < usize::MAX,
        ensures
            final(self).inv(),
            final(self)@ == old(self)@.insert(vstd::utf8::encode_utf8(key@), value),
            final(self).spec_metrics().total_comparisons == spec_sat_add(
                old(self).spec_metrics().total_comparisons,
                old(self).cmp_count(vstd::utf8::encode_utf8(key@)),
            ),
            old(self)@.contains_key(vstd::utf8::encode_utf8(key@)) ==> {
                &&& final(self)@.len() == old(self)@.len()
                &&& final(self).spec_metrics().total_insertions == old(
                    self,
                ).spec_metrics().total_insertions
                &&& final(self).spec_metrics().max_depth == old(self).spec_metrics().max_depth
                &&& final(self).spec_metrics().average_depth == old(
                    self,
                ).spec_metrics().average_depth
            },
            !old(self)@.contains_key(vstd::utf8::encode_utf8(key@)) ==> {
                &&& final(self)@.len() == old(self)@.len() + 1
                &&& final(self).spec_metrics().total_insertions == spec_bump(
                    old(self).spec_metrics().total_insertions,
                )
                &&& final(self).spec_metrics().max_depth == umax32(
                    old(self).spec_metrics().max_depth,
                    cap32(old(self).cmp_count(vstd::utf8::encode_utf8(key@))),
                )
                &&& final(self).spec_metrics().average_depth == (Ratio {
                    num: final(self).spec_metrics().total_comparisons as u64,
                    den: final(self)@.len() as u64,
                })
            },
    {
        let kb = str_key(key.as_str());
        proof {
            Node::lemma_as_map_finite(self.root);
        }
        let is_new = Node::insert_rec(&mut self.root, kb, value, 0, &mut self.metrics);
        if is_new {
            self.size = self.size + 1;
            self.metrics.total_insertions = bump(self.metrics.total_insertions);
            self.metrics.average_depth = Ratio {
                num: self.metrics.total_comparisons as u64,
                den: self.size as u64,
            };
        }
    }

    /// Look a key up: the value stored for it, if any.
    pub fn get(&mut self, key: String) -> (r: Option<u32>)
        requires
            old(self).inv(),
        ensures
            final(self).inv(),
            final(self)@ == old(self)@,
            r == map_get(old(self)@, vstd::utf8::encode_utf8(key@)),
            final(self).spec_metrics().total_comparisons == spec_sat_add(
                old(self).spec_metrics().total_comparisons,
                old(self).cmp_count(vstd::utf8::encode_utf8(key@)),
            ),
            same_but_comparisons(final(self).spec_metrics(), old(self).spec_metrics()),
    {
        let kb = str_key(key.as_str());
        Node::search_rec(&self.root, &kb, &mut self.metrics)
    }

    /// Delete a key: report whether a removal occurred.
    pub fn delete(&mut self, key: String) -> (r: bool)
        requires
            old(self).inv(),
        ensures
            final(self).inv(),
            final(self)@ == old(self)@.remove(vstd::utf8::encode_utf8(key@)),
            r == old(self)@.contains_key(vstd::utf8::encode_utf8(key@)),
            r ==> final(self)@.len() == old(self)@.len() - 1,
            !r ==> final(self)@.len() == old(self)@.len(),
            final(self).spec_metrics().total_comparisons == spec_sat_add(
                old(self).spec_metrics().total_comparisons,
                old(self).cmp_count(vstd::utf8::encode_utf8(key@)),
            ),
            same_but_comparisons(final(self).spec_metrics(), old(self).spec_metrics()),
    {
        let kb = str_key(key.as_str());
        proof {
            Node::lemma_as_map_finite(self.root);
        }
        let found = Node::delete_rec(&mut self.root, &kb, &mut self.metrics);
        if found {
            self.size = self.size - 1;
        }
        found
    }


    /// The keys currently stored, in ascending lexicographic byte order.
    ///
    /// The sequence is strictly ascending and lists exactly the keys of the
    /// abstract map: the in-order traversal of a search tree emits sorted
    /// keys.
    pub fn keys(&self) -> (r: Vec<Vec<u8>>)
        requires
            self.inv(),
        ensures
            r@.len() == self@.len(),
            forall|i: int, j: int| 0 <= i < j < r@.len() ==> lex_lt(r@[i]@, r@[j]@),
            forall|i: int| 0 <= i < r@.len() ==> self@.contains_key((#[trigger] r@[i])@),
            forall|k: Seq<u8>| #[trigger]
                self@.contains_key(k) ==> exists|i: int|
                    0 <= i < r@.len() && (#[trigger] r@[i])@ == k,
    {
        proof {
            Node::lemma_inorder(self.root);
        }
        let mut out: Vec<Vec<u8>> = Vec::new();
        Node::collect_keys(&self.root, &mut out);
        proof {
            let s = Node::inorder(self.root);
            assert forall|i: int| 0 <= i < s.len() implies (#[trigger] out@[i])@ == s[i] by {
                assert(out@[0 + i]@ == s[i]);
            }
            assert forall|k: Seq<u8>| #[trigger] self@.contains_key(k) implies exists|i: int|
                0 <= i < out@.len() && (#[trigger] out@[i])@ == k by {
                let i = choose|i: int| 0 <= i < s.len() && s[i] == k;
                assert((out@[i])@ == k);
            }
        }
        out
    }

    /// A snapshot of the metrics.
    pub fn get_metrics(&self) -> (m: BSTMetrics)
        ensures
            m == self.spec_metrics(),
    {
        self.metrics
    }

    /// Number of live key-value pairs.
    pub fn len(&self) -> (n: usize)
        requires
            self.inv(),
        ensures
            n == self@.len(),
    {
        self.size
    }

    /// Whether the tree holds no pairs.
    pub fn is_empty(&self) -> (b: bool)
        requires
            self.inv(),
        ensures
            b == (self@.len() == 0),
    {
        self.size == 0
    }
}

} // verus!
