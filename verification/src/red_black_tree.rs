//! A height-rebalanced search tree with red/black node coloring.
//!
//! This is not a textbook red-black tree: rebalancing is triggered by an
//! absolute height-difference test on every frame of the insertion's return
//! path, and the colors are decorative. A new node starts red; the root is
//! forced black after every public operation. When a node's subtree heights
//! differ by more than one, a single or double rotation restores the
//! balance; when they are balanced but both children are red, the node is
//! recolored. Deletion splices like the unbalanced tree and does not
//! rebalance.

use vstd::prelude::*;

verus! {

use crate::key::{KeyOrder, key_cmp, clone_key, lex_lt, str_key, lemma_lex_lt_trichotomy,
    lemma_lex_lt_transitive, lemma_lex_lt_irreflexive};
use crate::laws::map_get;
use crate::metrics::{Ratio, spec_bump, spec_sat_add, bump, cap32};
use vstd::string::StringSliceAdditionalSpecFns;

/// A node's color. New nodes are red; the root is forced black.
#[derive(Clone, Copy, Debug, PartialEq, Eq, Structural)]
pub enum Color {
    Red,
    Black,
}

struct Node {
    key: Vec<u8>,
    value: u32,
    color: Color,
    left: Option<Box<Node>>,
    right: Option<Box<Node>>,
}

/// Metrics collected while a `RedBlackTree` is used.
#[derive(Clone, Copy, Debug, PartialEq, Eq, Structural)]
pub struct RBTreeMetrics {
    /// Insert calls, updates included.
    pub total_insertions: u32,
    /// Height of the tree after the last insert or successful delete.
    pub tree_height: u32,
    /// Inserts on whose return path a rotation or recolor occurred.
    pub rebalance_count: u32,
    /// Single rotations performed.
    pub rotation_count: u32,
    /// Recolorings performed.
    pub color_fix_count: u32,
    /// Placeholder; never refreshed.
    pub average_depth: Ratio,
    /// One when the tree is non-empty, zero when it is empty.
    pub balance_ratio: Ratio,
}

impl Node {
    spec fn optional_as_map(node_opt: Option<Box<Node>>) -> Map<Seq<u8>, u32>
        decreases node_opt,
    {
        match node_opt {
            None => Map::empty(),
            Some(node) => node.as_map(),
        }
    }

    spec fn as_map(self) -> Map<Seq<u8>, u32>
        decreases self,
    {
        Node::optional_as_map(self.left).union_prefer_right(
            Node::optional_as_map(self.right),
        ).insert(self.key@, self.value)
    }

    /// Binary-search-tree order: everything left is below the key,
    /// everything right is above it. Colors are unconstrained.
    spec fn wf(self) -> bool
        decreases self,
    {
        &&& (forall|elem: Seq<u8>|
            Node::optional_as_map(self.left).dom().contains(elem) ==> lex_lt(elem, self.key@))
        &&& (forall|elem: Seq<u8>|
            Node::optional_as_map(self.right).dom().contains(elem) ==> lex_lt(self.key@, elem))
        &&& (match self.left {
            Some(left_node) => left_node.wf(),
            None => true,
        })
        &&& (match self.right {
            Some(right_node) => right_node.wf(),
            None => true,
        })
    }

    spec fn opt_wf(node_opt: Option<Box<Node>>) -> bool {
        match node_opt {
            Some(node) => node.wf(),
            None => true,
        }
    }

    /// Height in nodes, saturating at the top of `usize`.
    spec fn sat_h(node_opt: Option<Box<Node>>) -> usize
        decreases node_opt,
    {
        match node_opt {
            None => 0,
            Some(n) => {
                let m = if Node::sat_h(n.left) >= Node::sat_h(n.right) {
                    Node::sat_h(n.left)
                } else {
                    Node::sat_h(n.right)
                };
                if m < usize::MAX {
                    (m + 1) as usize
                } else {
                    m
                }
            },
        }
    }

    /// The root of an optional subtree is a red node.
    spec fn opt_red(node_opt: Option<Box<Node>>) -> bool {
        match node_opt {
            None => false,
            Some(b) => b.color is Red,
        }
    }

    /// The node is out of balance: its subtree heights differ by more
    /// than one.
    spec fn unbalanced(self) -> bool {
        Node::sat_h(self.left) > Node::sat_h(self.right) + 1 || Node::sat_h(self.right)
            > Node::sat_h(self.left) + 1
    }

    /// The rebalancing step acts on this node: it is out of balance, or
    /// balanced with two red children.
    spec fn needs_fix(self) -> bool {
        self.unbalanced() || (Node::opt_red(self.left) && Node::opt_red(self.right))
    }

    /// How many rotations one rebalancing step performs at this node: one
    /// when the taller child leans the same way, two otherwise.
    spec fn fix_rotations(self) -> nat {
        if Node::sat_h(self.left) > Node::sat_h(self.right) + 1 {
            match self.left {
                Some(l) => if l.left is Some {
                    1
                } else {
                    2
                },
                None => 0,
            }
        } else if Node::sat_h(self.right) > Node::sat_h(self.left) + 1 {
            match self.right {
                Some(rc) => if rc.right is Some {
                    1
                } else {
                    2
                },
                None => 0,
            }
        } else {
            0
        }
    }

    /// The result of recoloring this node: the node turned red, both
    /// children turned black, everything else unchanged.
    spec fn recolored(self, r: Node) -> bool {
        &&& r.key == self.key
        &&& r.value == self.value
        &&& r.color is Red
        &&& self.left is Some
        &&& self.right is Some
        &&& r.left is Some
        &&& r.right is Some
        &&& {
            let sl = self.left.unwrap();
            let rl = r.left.unwrap();
            rl.key == sl.key && rl.value == sl.value && rl.color is Black && rl.left == sl.left
                && rl.right == sl.right
        }
        &&& {
            let sr = self.right.unwrap();
            let rr = r.right.unwrap();
            rr.key == sr.key && rr.value == sr.value && rr.color is Black && rr.left == sr.left
                && rr.right == sr.right
        }
    }


    /// The model's right rotation: the left child is promoted, the old
    /// root demoted to its right with the promoted node's former right
    /// subtree as its left.
    spec fn spec_rot_right(n: Node) -> Node {
        if n.left is Some {
            let l = *n.left.unwrap();
            Node {
                key: l.key,
                value: l.value,
                color: l.color,
                left: l.left,
                right: Some(
                    Box::new(
                        Node {
                            key: n.key,
                            value: n.value,
                            color: n.color,
                            left: l.right,
                            right: n.right,
                        },
                    ),
                ),
            }
        } else {
            n
        }
    }

    /// The model's left rotation, the mirror image.
    spec fn spec_rot_left(n: Node) -> Node {
        if n.right is Some {
            let r = *n.right.unwrap();
            Node {
                key: r.key,
                value: r.value,
                color: r.color,
                right: r.right,
                left: Some(
                    Box::new(
                        Node {
                            key: n.key,
                            value: n.value,
                            color: n.color,
                            right: r.left,
                            left: n.left,
                        },
                    ),
                ),
            }
        } else {
            n
        }
    }

    /// The model's repainting of a subtree root.
    spec fn spec_paint(node_opt: Option<Box<Node>>, c: Color) -> Option<Box<Node>> {
        match node_opt {
            None => None,
            Some(b) => Some(
                Box::new(
                    Node { key: b.key, value: b.value, color: c, left: b.left, right: b.right },
                ),
            ),
        }
    }

    /// What one rebalancing step does to a node: the single or double
    /// rotation toward the lighter side with the new root black and the
    /// demoted child red, the recoloring, or nothing.
    spec fn spec_fix(n: Node) -> Node {
        if Node::sat_h(n.left) > Node::sat_h(n.right) + 1 {
            let pre = if n.left.unwrap().left is Some {
                n
            } else {
                Node {
                    key: n.key,
                    value: n.value,
                    color: n.color,
                    left: Some(Box::new(Node::spec_rot_left(*n.left.unwrap()))),
                    right: n.right,
                }
            };
            let r = Node::spec_rot_right(pre);
            Node {
                key: r.key,
                value: r.value,
                color: Color::Black,
                left: r.left,
                right: Node::spec_paint(r.right, Color::Red),
            }
        } else if Node::sat_h(n.right) > Node::sat_h(n.left) + 1 {
            let pre = if n.right.unwrap().right is Some {
                n
            } else {
                Node {
                    key: n.key,
                    value: n.value,
                    color: n.color,
                    left: n.left,
                    right: Some(Box::new(Node::spec_rot_right(*n.right.unwrap()))),
                }
            };
            let r = Node::spec_rot_left(pre);
            Node {
                key: r.key,
                value: r.value,
                color: Color::Black,
                left: Node::spec_paint(r.left, Color::Red),
                right: r.right,
            }
        } else if Node::opt_red(n.left) && Node::opt_red(n.right) {
            Node {
                key: n.key,
                value: n.value,
                color: Color::Red,
                left: Node::spec_paint(n.left, Color::Black),
                right: Node::spec_paint(n.right, Color::Black),
            }
        } else {
            n
        }
    }

    /// A functional model of one insert: the resulting tree (its fresh
    /// leaf carrying an unspecified key buffer, which no later decision
    /// reads), whether any frame on the return path needed fixing, and the
    /// rotations and recolorings those frames performed.
    spec fn spec_ins(node: Option<Box<Node>>, k: Seq<u8>, v: u32) -> (
        Option<Box<Node>>,
        bool,
        nat,
        nat,
    )
        decreases node,
    {
        match node {
            None => (
                Some(
                    Box::new(
                        Node {
                            key: vstd::pervasive::arbitrary(),
                            value: v,
                            color: Color::Red,
                            left: None,
                            right: None,
                        },
                    ),
                ),
                false,
                0nat,
                0nat,
            ),
            Some(n) => {
                let step = if k == n.key@ {
                    (
                        Node {
                            key: n.key,
                            value: v,
                            color: n.color,
                            left: n.left,
                            right: n.right,
                        },
                        false,
                        0nat,
                        0nat,
                    )
                } else if lex_lt(k, n.key@) {
                    let s = Node::spec_ins(n.left, k, v);
                    (
                        Node { key: n.key, value: n.value, color: n.color, left: s.0, right: n.right },
                        s.1,
                        s.2,
                        s.3,
                    )
                } else {
                    let s = Node::spec_ins(n.right, k, v);
                    (
                        Node { key: n.key, value: n.value, color: n.color, left: n.left, right: s.0 },
                        s.1,
                        s.2,
                        s.3,
                    )
                };
                (
                    Some(Box::new(Node::spec_fix(step.0))),
                    step.1 || step.0.needs_fix(),
                    step.2 + step.0.fix_rotations(),
                    step.3 + (if !step.0.unbalanced() && Node::opt_red(step.0.left)
                        && Node::opt_red(step.0.right) {
                        1nat
                    } else {
                        0nat
                    }),
                )
            },
        }
    }

    /// Two trees of the same shape and colors; their keys and values may
    /// differ. Heights and rebalancing decisions agree on similar trees.
    spec fn sim(a: Option<Box<Node>>, b: Option<Box<Node>>) -> bool
        decreases a,
    {
        match a {
            None => b is None,
            Some(x) => match b {
                None => false,
                Some(y) => x.color == y.color && Node::sim(x.left, y.left) && Node::sim(
                    x.right,
                    y.right,
                ),
            },
        }
    }

    /// Similar trees have equal heights.
    proof fn lemma_sim_h(a: Option<Box<Node>>, b: Option<Box<Node>>)
        requires
            Node::sim(a, b),
        ensures
            Node::sat_h(a) == Node::sat_h(b),
        decreases a,
    {
        match a {
            None => {},
            Some(x) => {
                let y = b.unwrap();
                Node::lemma_sim_h(x.left, y.left);
                Node::lemma_sim_h(x.right, y.right);
            },
        }
    }

    /// Every tree is similar to itself.
    proof fn lemma_sim_refl(a: Option<Box<Node>>)
        ensures
            Node::sim(a, a),
        decreases a,
    {
        match a {
            None => {},
            Some(x) => {
                Node::lemma_sim_refl(x.left);
                Node::lemma_sim_refl(x.right);
            },
        }
    }

    /// Similar nodes make the same rebalancing decision, and fixing keeps
    /// them similar.
    proof fn lemma_sim_fix(x: Node, y: Node)
        requires
            x.color == y.color,
            Node::sim(x.left, y.left),
            Node::sim(x.right, y.right),
        ensures
            x.needs_fix() == y.needs_fix(),
            x.unbalanced() == y.unbalanced(),
            x.fix_rotations() == y.fix_rotations(),
            Node::opt_red(x.left) == Node::opt_red(y.left),
            Node::opt_red(x.right) == Node::opt_red(y.right),
            Node::spec_fix(x).color == Node::spec_fix(y).color,
            Node::sim(Node::spec_fix(x).left, Node::spec_fix(y).left),
            Node::sim(Node::spec_fix(x).right, Node::spec_fix(y).right),
    {
        Node::lemma_sim_h(x.left, y.left);
        Node::lemma_sim_h(x.right, y.right);
        if Node::sat_h(x.left) > Node::sat_h(x.right) + 1 {
            let xl = *x.left.unwrap();
            let yl = *y.left.unwrap();
            Node::lemma_sim_h(xl.left, yl.left);
            Node::lemma_sim_h(xl.right, yl.right);
            if xl.left is Some {
                assert(Node::sim(Node::spec_fix(x).left, Node::spec_fix(y).left));
                assert(Node::sim(Node::spec_fix(x).right, Node::spec_fix(y).right));
            } else {
                assert(Node::sat_h(x.left) >= 2);
                assert(Node::sat_h(xl.left) == 0);
                if xl.right is None {
                    assert(Node::sat_h(xl.right) == 0);
                    assert(Node::sat_h(x.left) <= 1);
                }
                assert(Node::sim(xl.right, yl.right));
                assert(xl.right is Some && yl.right is Some);
                let xlr = *xl.right.unwrap();
                let ylr = *yl.right.unwrap();
                assert(Node::sim(Some(Box::new(xlr)), Some(Box::new(ylr))));
                assert(xlr.color == ylr.color && Node::sim(xlr.left, ylr.left) && Node::sim(
                    xlr.right,
                    ylr.right,
                ));
                let xl2 = Node::spec_rot_left(xl);
                let yl2 = Node::spec_rot_left(yl);
                assert(xl2.color == yl2.color && Node::sim(xl2.left, yl2.left) && Node::sim(
                    xl2.right,
                    yl2.right,
                ));
                assert(Node::sim(Node::spec_fix(x).left, Node::spec_fix(y).left));
                assert(Node::sim(Node::spec_fix(x).right, Node::spec_fix(y).right));
            }
        } else if Node::sat_h(x.right) > Node::sat_h(x.left) + 1 {
            let xr = *x.right.unwrap();
            let yr = *y.right.unwrap();
            Node::lemma_sim_h(xr.left, yr.left);
            Node::lemma_sim_h(xr.right, yr.right);
            if xr.right is Some {
                assert(Node::sim(Node::spec_fix(x).left, Node::spec_fix(y).left));
                assert(Node::sim(Node::spec_fix(x).right, Node::spec_fix(y).right));
            } else {
                assert(Node::sat_h(x.right) >= 2);
                assert(Node::sat_h(xr.right) == 0);
                if xr.left is None {
                    assert(Node::sat_h(xr.left) == 0);
                    assert(Node::sat_h(x.right) <= 1);
                }
                assert(Node::sim(xr.left, yr.left));
                assert(xr.left is Some && yr.left is Some);
                let xrl = *xr.left.unwrap();
                let yrl = *yr.left.unwrap();
                assert(Node::sim(Some(Box::new(xrl)), Some(Box::new(yrl))));
                assert(xrl.color == yrl.color && Node::sim(xrl.left, yrl.left) && Node::sim(
                    xrl.right,
                    yrl.right,
                ));
                let xr2 = Node::spec_rot_right(xr);
                let yr2 = Node::spec_rot_right(yr);
                assert(xr2.color == yr2.color && Node::sim(xr2.left, yr2.left) && Node::sim(
                    xr2.right,
                    yr2.right,
                ));
                assert(Node::sim(Node::spec_fix(x).left, Node::spec_fix(y).left));
                assert(Node::sim(Node::spec_fix(x).right, Node::spec_fix(y).right));
            }
        } else {
        }
    }

    /// The maps of the subtrees are finite.
    proof fn lemma_as_map_finite(node_opt: Option<Box<Node>>)
        ensures
            Node::optional_as_map(node_opt).dom().finite(),
        decreases node_opt,
    {
        match node_opt {
            None => {},
            Some(node) => {
                Node::lemma_as_map_finite(node.left);
                Node::lemma_as_map_finite(node.right);
                assert(node.as_map().dom() =~= Node::optional_as_map(node.left).dom().union(
                    Node::optional_as_map(node.right).dom(),
                ).insert(node.key@));
            },
        }
    }

    /// In a well-formed subtree the root key splits lookups.
    proof fn lemma_split(node: Node, k: Seq<u8>)
        requires
            node.wf(),
        ensures
            k == node.key@ ==> !Node::optional_as_map(node.left).dom().contains(k)
                && !Node::optional_as_map(node.right).dom().contains(k),
            lex_lt(k, node.key@) ==> !Node::optional_as_map(node.right).dom().contains(k)
                && k != node.key@,
            lex_lt(node.key@, k) ==> !Node::optional_as_map(node.left).dom().contains(k)
                && k != node.key@,
    {
        lemma_lex_lt_irreflexive(node.key@);
        lemma_lex_lt_trichotomy(k, node.key@);
        if Node::optional_as_map(node.left).dom().contains(k) {
            assert(lex_lt(k, node.key@));
            lemma_lex_lt_trichotomy(k, node.key@);
        }
        if Node::optional_as_map(node.right).dom().contains(k) {
            assert(lex_lt(node.key@, k));
            lemma_lex_lt_trichotomy(node.key@, k);
        }
    }

    /// Height of a subtree, saturating instead of overflowing.
    fn height(node: &Option<Box<Node>>) -> (h: usize)
        ensures
            h == Node::sat_h(*node),
        decreases *node,
    {
        match node {
            None => 0,
            Some(n) => {
                let hl = Node::height(&n.left);
                let hr = Node::height(&n.right);
                let m = if hl >= hr {
                    hl
                } else {
                    hr
                };
                if m < usize::MAX {
                    m + 1
                } else {
                    m
                }
            },
        }
    }

    /// Repaint the root of a subtree, if there is one.
    fn paint(node: &mut Option<Box<Node>>, c: Color)
        ensures
            Node::optional_as_map(*final(node)) == Node::optional_as_map(*old(node)),
            Node::opt_wf(*old(node)) ==> Node::opt_wf(*final(node)),
            final(node).is_some() == old(node).is_some(),
            final(node).is_some() ==> {
                &&& final(node).unwrap().color == c
                &&& final(node).unwrap().key == old(node).unwrap().key
                &&& final(node).unwrap().value == old(node).unwrap().value
                &&& final(node).unwrap().left == old(node).unwrap().left
                &&& final(node).unwrap().right == old(node).unwrap().right
            },
    {
        match node.take() {
            None => {
                *node = None;
            },
            Some(mut b) => {
                b.color = c;
                let ghost m = *b;
                *node = Some(b);
                proof {
                    assert(final(node).unwrap() == m);
                }
            },
        }
    }

    /// Whether a subtree's root is a red node.
    fn is_red(node: &Option<Box<Node>>) -> (r: bool)
        ensures
            r == match *node {
                Some(n) => n.color is Red,
                None => false,
            },
    {
        match node {
            None => false,
            Some(n) => match n.color {
                Color::Red => true,
                Color::Black => false,
            },
        }
    }

    /// Right rotation: promote the left child; the old root becomes its
    /// right child and adopts the promoted node's former right subtree.
    /// Keys, values and colors travel with their nodes.
    fn rotate_right(mut n: Box<Node>) -> (r: Box<Node>)
        requires
            n.wf(),
            n.left.is_some(),
        ensures
            r.wf(),
            r.as_map() == n.as_map(),
            r.key == n.left.unwrap().key,
            r.value == n.left.unwrap().value,
            r.color == n.left.unwrap().color,
            r.left == n.left.unwrap().left,
            r.right is Some,
            r.right.unwrap().key == n.key,
            r.right.unwrap().value == n.value,
            r.right.unwrap().color == n.color,
            r.right.unwrap().left == n.left.unwrap().right,
            r.right.unwrap().right == n.right,
    {
        let ghost orig = *n;
        let mut l = n.left.take().unwrap();
        let ghost l0 = *l;
        proof {
            assert(orig.wf());
            assert(orig.left is Some && orig.left.unwrap() == l0);
            assert(l0.wf());
            assert(Node::optional_as_map(orig.left) == l0.as_map());
            assert(l0.as_map().dom().contains(l0.key@));
            assert(lex_lt(l0.key@, orig.key@));
        }
        n.left = l.right.take();
        let ghost n1 = *n;
        proof {
            assert(n1.left == l0.right && n1.right == orig.right && n1.key == orig.key);
            assert(Node::opt_wf(n1.left));
            assert(Node::opt_wf(n1.right));
            assert(forall|elem: Seq<u8>|
                Node::optional_as_map(n1.right).dom().contains(elem) ==> lex_lt(n1.key@, elem));
            assert forall|elem: Seq<u8>|
                Node::optional_as_map(n1.left).dom().contains(elem) implies lex_lt(
                elem,
                n1.key@,
            ) by {
                assert(l0.as_map().dom().contains(elem));
                assert(Node::optional_as_map(orig.left).dom().contains(elem));
            }
            assert(n1.wf());
        }
        l.right = Some(n);
        let ghost res = *l;
        proof {
            assert(res.right is Some && res.right.unwrap() == n1);
            assert(res.left == l0.left && res.key == l0.key);
            assert(Node::optional_as_map(res.right) == n1.as_map());
            assert(Node::optional_as_map(res.left) == Node::optional_as_map(l0.left));
            // Everything under the old root now sits right of the promoted key.
            assert forall|elem: Seq<u8>|
                Node::optional_as_map(res.right).dom().contains(elem) implies lex_lt(
                res.key@,
                elem,
            ) by {
                assert(n1.as_map().dom().contains(elem));
                if elem == orig.key@ {
                } else if Node::optional_as_map(n1.left).dom().contains(elem) {
                    assert(Node::optional_as_map(l0.right).dom().contains(elem));
                } else {
                    assert(Node::optional_as_map(n1.right).dom().contains(elem));
                    assert(Node::optional_as_map(orig.right).dom().contains(elem));
                    lemma_lex_lt_transitive(l0.key@, orig.key@, elem);
                }
            }
            assert forall|elem: Seq<u8>|
                Node::optional_as_map(res.left).dom().contains(elem) implies lex_lt(
                elem,
                res.key@,
            ) by {
                assert(Node::optional_as_map(l0.left).dom().contains(elem));
            }
            assert(res.wf());
            assert(res.as_map() =~= orig.as_map()) by {
                assert forall|k: Seq<u8>| #![auto] true implies res.as_map().contains_key(k)
                    == orig.as_map().contains_key(k) && (res.as_map().contains_key(k)
                    ==> res.as_map()[k] == orig.as_map()[k]) by {
                    Node::lemma_split(orig, k);
                    Node::lemma_split(l0, k);
                }
            }
        }
        l
    }

    /// Left rotation, the mirror image of `rotate_right`.
    fn rotate_left(mut n: Box<Node>) -> (r: Box<Node>)
        requires
            n.wf(),
            n.right.is_some(),
        ensures
            r.wf(),
            r.as_map() == n.as_map(),
            r.key == n.right.unwrap().key,
            r.value == n.right.unwrap().value,
            r.color == n.right.unwrap().color,
            r.right == n.right.unwrap().right,
            r.left is Some,
            r.left.unwrap().key == n.key,
            r.left.unwrap().value == n.value,
            r.left.unwrap().color == n.color,
            r.left.unwrap().right == n.right.unwrap().left,
            r.left.unwrap().left == n.left,
    {
        let ghost orig = *n;
        let mut rc = n.right.take().unwrap();
        let ghost r0 = *rc;
        proof {
            assert(orig.wf());
            assert(orig.right is Some && orig.right.unwrap() == r0);
            assert(r0.wf());
            assert(Node::optional_as_map(orig.right) == r0.as_map());
            assert(r0.as_map().dom().contains(r0.key@));
            assert(lex_lt(orig.key@, r0.key@));
        }
        n.right = rc.left.take();
        let ghost n1 = *n;
        proof {
            assert(n1.right == r0.left && n1.left == orig.left && n1.key == orig.key);
            assert(Node::opt_wf(n1.left));
            assert(Node::opt_wf(n1.right));
            assert(forall|elem: Seq<u8>|
                Node::optional_as_map(n1.left).dom().contains(elem) ==> lex_lt(elem, n1.key@));
            assert forall|elem: Seq<u8>|
                Node::optional_as_map(n1.right).dom().contains(elem) implies lex_lt(
                n1.key@,
                elem,
            ) by {
                assert(r0.as_map().dom().contains(elem));
                assert(Node::optional_as_map(orig.right).dom().contains(elem));
            }
            assert(n1.wf());
        }
        rc.left = Some(n);
        let ghost res = *rc;
        proof {
            assert(res.left is Some && res.left.unwrap() == n1);
            assert(res.right == r0.right && res.key == r0.key);
            assert(Node::optional_as_map(res.left) == n1.as_map());
            assert(Node::optional_as_map(res.right) == Node::optional_as_map(r0.right));
            assert forall|elem: Seq<u8>|
                Node::optional_as_map(res.left).dom().contains(elem) implies lex_lt(
                elem,
                res.key@,
            ) by {
                assert(n1.as_map().dom().contains(elem));
                if elem == orig.key@ {
                } else if Node::optional_as_map(n1.right).dom().contains(elem) {
                    assert(Node::optional_as_map(r0.left).dom().contains(elem));
                } else {
                    assert(Node::optional_as_map(n1.left).dom().contains(elem));
                    assert(Node::optional_as_map(orig.left).dom().contains(elem));
                    lemma_lex_lt_transitive(elem, orig.key@, r0.key@);
                }
            }
            assert forall|elem: Seq<u8>|
                Node::optional_as_map(res.right).dom().contains(elem) implies lex_lt(
                res.key@,
                elem,
            ) by {
                assert(Node::optional_as_map(r0.right).dom().contains(elem));
            }
            assert(res.wf());
            assert(res.as_map() =~= orig.as_map()) by {
                assert forall|k: Seq<u8>| #![auto] true implies res.as_map().contains_key(k)
                    == orig.as_map().contains_key(k) && (res.as_map().contains_key(k)
                    ==> res.as_map()[k] == orig.as_map()[k]) by {
                    Node::lemma_split(orig, k);
                    Node::lemma_split(r0, k);
                }
            }
        }
        rc
    }

    /// Restore balance at one node on the insertion's return path.
    ///
    /// A height difference above one triggers a single rotation when the
    /// taller child leans the same way, a double rotation otherwise; the new
    /// subtree root is painted black and its demoted child red. A balanced
    /// node with two red children is recolored instead. A node that needs
    /// neither comes back untouched, and the rebalanced flag rises exactly
    /// when the node needed fixing.
    fn rebalance(mut n: Box<Node>, rebalanced: &mut bool, metrics: &mut RBTreeMetrics) -> (r: Box<
        Node,
    >)
        requires
            n.wf(),
        ensures
            r.wf(),
            r.as_map() == n.as_map(),
            *r == Node::spec_fix(*n),
            *final(rebalanced) == (*old(rebalanced) || n.needs_fix()),
            Node::sat_h(n.left) > Node::sat_h(n.right) + 1 ==> r.color is Black && Node::opt_red(
                r.right,
            ),
            Node::sat_h(n.right) > Node::sat_h(n.left) + 1 ==> r.color is Black && Node::opt_red(
                r.left,
            ),
            (!n.unbalanced() && Node::opt_red(n.left) && Node::opt_red(n.right))
                ==> n.recolored(*r),
            !n.needs_fix() ==> r == n,
            final(metrics).total_insertions == old(metrics).total_insertions,
            final(metrics).tree_height == old(metrics).tree_height,
            final(metrics).rebalance_count == old(metrics).rebalance_count,
            final(metrics).average_depth == old(metrics).average_depth,
            final(metrics).balance_ratio == old(metrics).balance_ratio,
            final(metrics).rotation_count == spec_sat_add(
                old(metrics).rotation_count,
                n.fix_rotations(),
            ),
            final(metrics).color_fix_count == (if !n.unbalanced() && Node::opt_red(n.left)
                && Node::opt_red(n.right) {
                spec_bump(old(metrics).color_fix_count)
            } else {
                old(metrics).color_fix_count
            }),
    {
        let ghost n0 = *n;
        let hl = Node::height(&n.left);
        let hr = Node::height(&n.right);
        if hl > hr && hl - hr > 1 {
            // Left-heavy.
            proof {
                assert(n.left.is_some());
            }
            let has_ll = match &n.left {
                Some(l) => l.left.is_some(),
                None => false,
            };
            let ghost l0 = *n.left.unwrap();
            if !has_ll {
                // Only a right grandchild: rotate the left child left first.
                let l = n.left.take().unwrap();
                proof {
                    assert(Node::sat_h(Some(l)) == hl);
                    assert(l.left is None);
                    assert(Node::sat_h(l.left) == 0);
                    if l.right is None {
                        assert(Node::sat_h(l.right) == 0);
                        assert(hl <= 1);
                    }
                    assert(l.right.is_some());
                }
                let l2 = Node::rotate_left(l);
                metrics.rotation_count = bump(metrics.rotation_count);
                let ghost m = *l2;
                proof {
                    assert(m.left.unwrap() == Node::spec_rot_left(l0).left.unwrap());
                    assert(m == Node::spec_rot_left(l0));
                }
                n.left = Some(l2);
                proof {
                    assert(n.left.unwrap() == m);
                    assert(n.wf());
                }
            }
            let ghost pre = *n;
            let mut r = Node::rotate_right(n);
            metrics.rotation_count = bump(metrics.rotation_count);
            r.color = Color::Black;
            let ghost before_paint = *r;
            Node::paint(&mut r.right, Color::Red);
            *rebalanced = true;
            proof {
                assert(r.as_map() == before_paint.as_map());
                assert(r.wf());
                assert(n0.fix_rotations() == (if n0.left.unwrap().left is Some {
                    1nat
                } else {
                    2nat
                }));
                assert(before_paint.right.unwrap() == Node::spec_rot_right(pre).right.unwrap());
                let m = Node::spec_fix(n0);
                assert(r.right.unwrap() == m.right.unwrap());
                assert(*r == m);
            }
            r
        } else if hr > hl && hr - hl > 1 {
            // Right-heavy.
            proof {
                assert(n.right.is_some());
            }
            let has_rr = match &n.right {
                Some(rc) => rc.right.is_some(),
                None => false,
            };
            let ghost r0 = *n.right.unwrap();
            if !has_rr {
                // Only a left grandchild: rotate the right child right first.
                let rc = n.right.take().unwrap();
                proof {
                    assert(Node::sat_h(Some(rc)) == hr);
                    assert(rc.right is None);
                    assert(Node::sat_h(rc.right) == 0);
                    if rc.left is None {
                        assert(Node::sat_h(rc.left) == 0);
                        assert(hr <= 1);
                    }
                    assert(rc.left.is_some());
                }
                let rc2 = Node::rotate_right(rc);
                metrics.rotation_count = bump(metrics.rotation_count);
                let ghost m = *rc2;
                proof {
                    assert(m.right.unwrap() == Node::spec_rot_right(r0).right.unwrap());
                    assert(m == Node::spec_rot_right(r0));
                }
                n.right = Some(rc2);
                proof {
                    assert(n.right.unwrap() == m);
                    assert(n.wf());
                }
            }
            let ghost pre = *n;
            let mut r = Node::rotate_left(n);
            metrics.rotation_count = bump(metrics.rotation_count);
            r.color = Color::Black;
            let ghost before_paint = *r;
            Node::paint(&mut r.left, Color::Red);
            *rebalanced = true;
            proof {
                assert(r.as_map() == before_paint.as_map());
                assert(r.wf());
                assert(n0.fix_rotations() == (if n0.right.unwrap().right is Some {
                    1nat
                } else {
                    2nat
                }));
                assert(before_paint.left.unwrap() == Node::spec_rot_left(pre).left.unwrap());
                let m = Node::spec_fix(n0);
                assert(r.left.unwrap() == m.left.unwrap());
                assert(*r == m);
            }
            r
        } else {
            // Balanced here: recolor if both children are red.
            let lred = Node::is_red(&n.left);
            let rred = Node::is_red(&n.right);
            if lred && rred {
                n.color = Color::Red;
                let ghost before = *n;
                Node::paint(&mut n.left, Color::Black);
                let ghost mid = *n;
                Node::paint(&mut n.right, Color::Black);
                *rebalanced = true;
                metrics.color_fix_count = bump(metrics.color_fix_count);
                proof {
                    assert(mid.as_map() == before.as_map());
                    assert(n.as_map() == mid.as_map());
                    assert(n.wf());
                    assert(n0.recolored(*n));
                    let m = Node::spec_fix(n0);
                    assert(n.left.unwrap() == m.left.unwrap());
                    assert(n.right.unwrap() == m.right.unwrap());
                    assert(*n == m);
                }
            }
            n
        }
    }

    /// The keys of the subtree in symmetric order.
    spec fn inorder(node_opt: Option<Box<Node>>) -> Seq<Seq<u8>>
        decreases node_opt,
    {
        match node_opt {
            None => Seq::empty(),
            Some(n) => Node::inorder(n.left) + seq![n.key@] + Node::inorder(n.right),
        }
    }

    /// In a well-formed subtree, the in-order key sequence is strictly
    /// ascending and lists exactly the keys of the subtree's map.
    proof fn lemma_inorder(node_opt: Option<Box<Node>>)
        requires
            Node::opt_wf(node_opt),
        ensures
            Node::inorder(node_opt).len() == Node::optional_as_map(node_opt).len(),
            forall|i: int|
                0 <= i < Node::inorder(node_opt).len() ==> Node::optional_as_map(
                    node_opt,
                ).dom().contains(#[trigger] Node::inorder(node_opt)[i]),
            forall|k: Seq<u8>| #[trigger]
                Node::optional_as_map(node_opt).dom().contains(k) ==> exists|i: int|
                    0 <= i < Node::inorder(node_opt).len() && Node::inorder(node_opt)[i] == k,
            forall|i: int, j: int|
                0 <= i < j < Node::inorder(node_opt).len() ==> lex_lt(
                    #[trigger] Node::inorder(node_opt)[i],
                    #[trigger] Node::inorder(node_opt)[j],
                ),
        decreases node_opt,
    {
        match node_opt {
            None => {},
            Some(n) => {
                Node::lemma_inorder(n.left);
                Node::lemma_inorder(n.right);
                Node::lemma_as_map_finite(n.left);
                Node::lemma_as_map_finite(n.right);
                let sl = Node::inorder(n.left);
                let sr = Node::inorder(n.right);
                let s = Node::inorder(node_opt);
                let dl = Node::optional_as_map(n.left).dom();
                let dr = Node::optional_as_map(n.right).dom();
                assert(forall|i: int| 0 <= i < sl.len() ==> #[trigger] s[i] == sl[i]);
                assert(s[sl.len() as int] == n.key@);
                assert(forall|i: int|
                    0 <= i < sr.len() ==> #[trigger] sr[i] == s[sl.len() + 1 + i]);
                assert forall|a: Seq<u8>| #![auto] !(dl.contains(a) && dr.contains(a)) by {
                    if dl.contains(a) && dr.contains(a) {
                        lemma_lex_lt_trichotomy(a, n.key@);
                    }
                }
                assert(dl.disjoint(dr));
                vstd::set_lib::lemma_set_disjoint_lens(dl, dr);
                assert(n.as_map().dom() =~= (dl + dr).insert(n.key@));
                assert(!(dl + dr).contains(n.key@)) by {
                    lemma_lex_lt_irreflexive(n.key@);
                }
                assert((dl + dr).insert(n.key@).len() == (dl + dr).len() + 1);
                assert forall|i: int, j: int| 0 <= i < j < s.len() implies lex_lt(
                    #[trigger] s[i],
                    #[trigger] s[j],
                ) by {
                    let m = sl.len() as int;
                    if i < m {
                        assert(s[i] == sl[i]);
                        assert(dl.contains(sl[i]));
                        if j < m {
                            assert(s[j] == sl[j]);
                        } else if j == m {
                            assert(lex_lt(s[i], n.key@));
                        } else {
                            assert(s[j] == sr[j - m - 1]);
                            assert(dr.contains(sr[j - m - 1]));
                            lemma_lex_lt_transitive(s[i], n.key@, s[j]);
                        }
                    } else if i == m {
                        assert(s[j] == sr[j - m - 1]);
                        assert(dr.contains(sr[j - m - 1]));
                    } else {
                        assert(s[i] == sr[i - m - 1] && s[j] == sr[j - m - 1]);
                    }
                }
                assert forall|k: Seq<u8>| #[trigger]
                    Node::optional_as_map(node_opt).dom().contains(k) implies exists|i: int|
                    0 <= i < s.len() && s[i] == k by {
                    let m = sl.len() as int;
                    if k == n.key@ {
                        assert(s[m] == k);
                    } else if dl.contains(k) {
                        let i = choose|i: int| 0 <= i < sl.len() && sl[i] == k;
                        assert(s[i] == k);
                    } else {
                        assert(dr.contains(k));
                        let i = choose|i: int| 0 <= i < sr.len() && sr[i] == k;
                        assert(s[m + 1 + i] == k);
                    }
                }
            },
        }
    }

    /// Append the subtree's keys to `out` in symmetric order.
    fn collect_keys(node: &Option<Box<Node>>, out: &mut Vec<Vec<u8>>)
        requires
            Node::opt_wf(*node),
        ensures
            final(out)@.len() == old(out)@.len() + Node::inorder(*node).len(),
            forall|i: int| 0 <= i < old(out)@.len() ==> #[trigger] final(out)@[i] == old(out)@[i],
            forall|i: int|
                0 <= i < Node::inorder(*node).len() ==> #[trigger] final(out)@[old(out)@.len()
                    + i]@ == Node::inorder(*node)[i],
        decreases *node,
    {
        match node {
            None => {},
            Some(n) => {
                let ghost o0 = out@;
                Node::collect_keys(&n.left, out);
                let ghost o1 = out@;
                out.push(clone_key(&n.key));
                let ghost o2 = out@;
                Node::collect_keys(&n.right, out);
                proof {
                    let sl = Node::inorder(n.left);
                    let sr = Node::inorder(n.right);
                    let s = Node::inorder(*node);
                    assert(forall|i: int| 0 <= i < sl.len() ==> #[trigger] s[i] == sl[i]);
                    assert(s[sl.len() as int] == n.key@);
                    assert(forall|i: int|
                        0 <= i < sr.len() ==> #[trigger] sr[i] == s[sl.len() + 1 + i]);
                    assert(o2.len() == o0.len() + sl.len() + 1);
                    assert forall|i: int| 0 <= i < o0.len() implies #[trigger] out@[i]
                        == o0[i] by {
                        assert(o1[i] == o0[i]);
                        assert(o2[i] == o1[i]);
                        assert(out@[i] == o2[i]);
                    }
                    assert forall|i: int| 0 <= i < s.len() implies #[trigger] out@[o0.len()
                        + i]@ == s[i] by {
                        let m = sl.len() as int;
                        if i < m {
                            assert(o1[o0.len() + i]@ == sl[i]);
                            assert(o2[o0.len() + i] == o1[o0.len() + i]);
                            assert(out@[o0.len() + i] == o2[o0.len() + i]);
                        } else if i == m {
                            assert(o2[o0.len() + i]@ == n.key@);
                            assert(out@[o0.len() + i] == o2[o0.len() + i]);
                        } else {
                            assert(out@[o2.len() + (i - m - 1)]@ == sr[i - m - 1]);
                        }
                    }
                }
            },
        }
    }

    #[verifier::rlimit(100)]
    fn insert_rec(
        node: &mut Option<Box<Node>>,
        key: Vec<u8>,
        value: u32,
        rebalanced: &mut bool,
        metrics: &mut RBTreeMetrics,
    ) -> (is_new: bool)
        requires
            Node::opt_wf(*old(node)),
        ensures
            Node::opt_wf(*final(node)),
            final(node).is_some(),
            Node::optional_as_map(*final(node)) =~= Node::optional_as_map(*old(node)).insert(
                key@,
                value,
            ),
            is_new == !Node::optional_as_map(*old(node)).dom().contains(key@),
            Node::sim(*final(node), Node::spec_ins(*old(node), key@, value).0),
            *final(rebalanced) == (*old(rebalanced) || Node::spec_ins(*old(node), key@, value).1),
            final(metrics).total_insertions == old(metrics).total_insertions,
            final(metrics).tree_height == old(metrics).tree_height,
            final(metrics).rebalance_count == old(metrics).rebalance_count,
            final(metrics).average_depth == old(metrics).average_depth,
            final(metrics).balance_ratio == old(metrics).balance_ratio,
            final(metrics).rotation_count == spec_sat_add(
                old(metrics).rotation_count,
                Node::spec_ins(*old(node), key@, value).2,
            ),
            final(metrics).color_fix_count == spec_sat_add(
                old(metrics).color_fix_count,
                Node::spec_ins(*old(node), key@, value).3,
            ),
        decreases *old(node),
    {
        let ghost kv = key@;
        match node.take() {
            None => {
                // A new node starts red.
                *node = Some(
                    Box::new(
                        Node { key, value, color: Color::Red, left: None, right: None },
                    ),
                );
                proof {
                    let m0 = Node::spec_ins(None, kv, value).0;
                    assert(m0.unwrap().color is Red && m0.unwrap().left is None && m0.unwrap().right
                        is None);
                    assert(node.unwrap().color is Red && node.unwrap().left is None
                        && node.unwrap().right is None);
                    Node::lemma_sim_refl(node.unwrap().left);
                    Node::lemma_sim_refl(node.unwrap().right);
                    assert(node.unwrap().color == m0.unwrap().color);
                    assert(node.unwrap().left == m0.unwrap().left);
                    assert(node.unwrap().right == m0.unwrap().right);
                    assert(Node::sim(*node, m0));
                }
                true
            },
            Some(mut n) => {
                let ghost n_old = *n;
                proof {
                    lemma_lex_lt_trichotomy(key@, n.key@);
                    Node::lemma_split(*n, key@);
                }
                let o = key_cmp(&key, &n.key);
                let ghost mut stepnode: Node = n_old;
                let ghost mut stepflag: bool = false;
                let ghost mut steprot: nat = 0;
                let ghost mut stepfix: nat = 0;
                let is_new = match o {
                    KeyOrder::Equal => {
                        n.value = value;
                        proof {
                            stepnode =
                            Node {
                                key: n_old.key,
                                value: value,
                                color: n_old.color,
                                left: n_old.left,
                                right: n_old.right,
                            };
                            assert(*n == stepnode);
                        }
                        false
                    },
                    KeyOrder::Less => {
                        let b = Node::insert_rec(&mut n.left, key, value, rebalanced, metrics);
                        proof {
                            let s = Node::spec_ins(n_old.left, key@, value);
                            stepnode =
                            Node {
                                key: n_old.key,
                                value: n_old.value,
                                color: n_old.color,
                                left: s.0,
                                right: n_old.right,
                            };
                            stepflag = s.1;
                            steprot = s.2;
                            stepfix = s.3;
                        }
                        b
                    },
                    KeyOrder::Greater => {
                        let b = Node::insert_rec(&mut n.right, key, value, rebalanced, metrics);
                        proof {
                            let s = Node::spec_ins(n_old.right, key@, value);
                            stepnode =
                            Node {
                                key: n_old.key,
                                value: n_old.value,
                                color: n_old.color,
                                left: n_old.left,
                                right: s.0,
                            };
                            stepflag = s.1;
                            steprot = s.2;
                            stepfix = s.3;
                        }
                        b
                    },
                };
                proof {
                    // The partially rebuilt node is similar to the model's.
                    assert(n.color == stepnode.color);
                    Node::lemma_sim_refl(n.left);
                    Node::lemma_sim_refl(n.right);
                    assert(Node::sim(n.left, stepnode.left));
                    assert(Node::sim(n.right, stepnode.right));
                    Node::lemma_sim_fix(*n, stepnode);
                }
                let ghost pre = *n;
                let n2 = Node::rebalance(n, rebalanced, metrics);
                let ghost m2 = *n2;
                *node = Some(n2);
                proof {
                    assert(final(node).unwrap() == m2);
                    assert(m2.as_map() == pre.as_map());
                    let model = Node::spec_ins(*old(node), key@, value);
                    assert(model.0 == Some(Box::new(Node::spec_fix(stepnode))) && model.1 == (
                    stepflag || stepnode.needs_fix()) && model.2 == steprot
                        + stepnode.fix_rotations() && model.3 == stepfix + (
                    if !stepnode.unbalanced() && Node::opt_red(stepnode.left) && Node::opt_red(
                        stepnode.right,
                    ) {
                        1nat
                    } else {
                        0nat
                    }));
                    assert(m2 == Node::spec_fix(pre));
                    assert(Node::sim(*final(node), model.0));
                }
                is_new
            },
        }
    }

    fn get_rec(node: &Option<Box<Node>>, key: &Vec<u8>) -> (r: Option<u32>)
        requires
            Node::opt_wf(*node),
        ensures
            r == map_get(Node::optional_as_map(*node), key@),
        decreases *node,
    {
        match node {
            None => None,
            Some(n) => {
                proof {
                    lemma_lex_lt_trichotomy(key@, n.key@);
                    Node::lemma_split(**n, key@);
                }
                let o = key_cmp(key, &n.key);
                match o {
                    KeyOrder::Equal => Some(n.value),
                    KeyOrder::Less => Node::get_rec(&n.left, key),
                    KeyOrder::Greater => Node::get_rec(&n.right, key),
                }
            },
        }
    }

    /// Remove and return the smallest entry of a non-empty subtree.
    fn delete_leftmost(node: &mut Option<Box<Node>>) -> (popped: (Vec<u8>, u32))
        requires
            old(node).is_some(),
            old(node).unwrap().wf(),
        ensures
            Node::opt_wf(*final(node)),
            Node::optional_as_map(*final(node)) =~= Node::optional_as_map(*old(node)).remove(
                popped.0@,
            ),
            Node::optional_as_map(*old(node)).dom().contains(popped.0@),
            Node::optional_as_map(*old(node))[popped.0@] == popped.1,
            forall|elem: Seq<u8>|
                Node::optional_as_map(*old(node)).dom().contains(elem) ==> elem == popped.0@
                    || lex_lt(popped.0@, elem),
        decreases *old(node),
    {
        let mut n = node.take().unwrap();
        if n.left.is_none() {
            proof {
                assert(Node::optional_as_map(n.left) =~= Map::empty());
                Node::lemma_split(*n, n.key@);
            }
            *node = n.right.take();
            (n.key, n.value)
        } else {
            let popped = Node::delete_leftmost(&mut n.left);
            proof {
                Node::lemma_split(*n, popped.0@);
                assert(lex_lt(popped.0@, n.key@));
                assert forall|elem: Seq<u8>|
                    Node::optional_as_map(*old(node)).dom().contains(elem) implies elem
                    == popped.0@ || lex_lt(popped.0@, elem) by {
                    if elem == n.key@ {
                        assert(lex_lt(popped.0@, elem));
                    } else if Node::optional_as_map(n.right).dom().contains(elem) {
                        lemma_lex_lt_transitive(popped.0@, n.key@, elem);
                    }
                }
            }
            let ghost m = *n;
            *node = Some(n);
            proof {
                assert(final(node).unwrap() == m);
            }
            popped
        }
    }

    fn delete_rec(node: &mut Option<Box<Node>>, key: &Vec<u8>) -> (removed: Option<u32>)
        requires
            Node::opt_wf(*old(node)),
        ensures
            Node::opt_wf(*final(node)),
            Node::optional_as_map(*final(node)) =~= Node::optional_as_map(*old(node)).remove(key@),
            removed == map_get(Node::optional_as_map(*old(node)), key@),
            removed is None ==> *final(node) == *old(node),
        decreases *old(node),
    {
        match node.take() {
            None => None,
            Some(mut n) => {
                proof {
                    lemma_lex_lt_trichotomy(key@, n.key@);
                    Node::lemma_split(*n, key@);
                }
                let o = key_cmp(key, &n.key);
                match o {
                    KeyOrder::Equal => {
                        let removed = n.value;
                        if n.left.is_none() {
                            proof {
                                assert(Node::optional_as_map(n.left) =~= Map::empty());
                            }
                            *node = n.right.take();
                        } else if n.right.is_none() {
                            proof {
                                assert(Node::optional_as_map(n.right) =~= Map::empty());
                            }
                            *node = n.left.take();
                        } else {
                            // Two children: adopt the in-order successor.
                            let popped = Node::delete_leftmost(&mut n.right);
                            proof {
                                assert(lex_lt(n.key@, popped.0@));
                                assert forall|elem: Seq<u8>|
                                    Node::optional_as_map(n.left).dom().contains(
                                        elem,
                                    ) implies lex_lt(elem, popped.0@) by {
                                    lemma_lex_lt_transitive(elem, n.key@, popped.0@);
                                }
                                assert forall|elem: Seq<u8>|
                                    Node::optional_as_map(n.right).dom().contains(
                                        elem,
                                    ) implies lex_lt(popped.0@, elem) by {
                                    lemma_lex_lt_irreflexive(elem);
                                }
                            }
                            n.key = popped.0;
                            n.value = popped.1;
                            let ghost m = *n;
                            *node = Some(n);
                            proof {
                                assert(final(node).unwrap() == m);
                            }
                        }
                        Some(removed)
                    },
                    KeyOrder::Less => {
                        let removed = Node::delete_rec(&mut n.left, key);
                        let ghost m = *n;
                        *node = Some(n);
                        proof {
                            assert(final(node).unwrap() == m);
                        }
                        removed
                    },
                    KeyOrder::Greater => {
                        let removed = Node::delete_rec(&mut n.right, key);
                        let ghost m = *n;
                        *node = Some(n);
                        proof {
                            assert(final(node).unwrap() == m);
                        }
                        removed
                    },
                }
            },
        }
    }
}

/// A self-balancing search tree over byte-string keys, with decorative
/// red/black coloring and height-triggered rotations.
pub struct RedBlackTree {
    root: Option<Box<Node>>,
    size: u32,
    metrics: RBTreeMetrics,
}

impl View for RedBlackTree {
    type V = Map<Seq<u8>, u32>;

    closed spec fn view(&self) -> Map<Seq<u8>, u32> {
        Node::optional_as_map(self.root)
    }
}

impl RedBlackTree {
    /// The tree is ordered and the recorded size is the map's cardinality.
    pub closed spec fn inv(&self) -> bool {
        &&& Node::opt_wf(self.root)
        &&& self.size == self@.len()
        &&& self.root_black()
    }

    /// The metric record as last written.
    pub closed spec fn spec_metrics(&self) -> RBTreeMetrics {
        self.metrics
    }

    /// The current height of the tree, in nodes.
    pub closed spec fn spec_height(&self) -> usize {
        Node::sat_h(self.root)
    }

    /// The root is black, or the tree is empty.
    pub closed spec fn root_black(&self) -> bool {
        match self.root {
            None => true,
            Some(n) => n.color is Black,
        }
    }

    /// Whether inserting this key performs a rotation or recoloring
    /// anywhere on the return path.
    pub closed spec fn insert_rebalances(&self, k: Seq<u8>, v: u32) -> bool {
        Node::spec_ins(self.root, k, v).1
    }

    /// How many single rotations inserting this key performs.
    pub closed spec fn insert_rotations(&self, k: Seq<u8>, v: u32) -> nat {
        Node::spec_ins(self.root, k, v).2
    }

    /// How many recolorings inserting this key performs.
    pub closed spec fn insert_recolorings(&self, k: Seq<u8>, v: u32) -> nat {
        Node::spec_ins(self.root, k, v).3
    }

    /// Create an empty tree.
    pub fn new() -> (t: RedBlackTree)
        ensures
            t.inv(),
            t@ == Map::<Seq<u8>, u32>::empty(),
            t.root_black(),
            t.spec_metrics() == (RBTreeMetrics {
                total_insertions: 0,
                tree_height: 0,
                rebalance_count: 0,
                rotation_count: 0,
                color_fix_count: 0,
                average_depth: Ratio { num: 0, den: 1 },
                balance_ratio: Ratio { num: 0, den: 1 },
            }),
    {
        let t = RedBlackTree {
            root: None,
            size: 0,
            metrics: RBTreeMetrics {
                total_insertions: 0,
                tree_height: 0,
                rebalance_count: 0,
                rotation_count: 0,
                color_fix_count: 0,
                average_depth: Ratio { num: 0, den: 1 },
                balance_ratio: Ratio { num: 0, den: 1 },
            },
        };
        proof {
            assert(t@ =~= Map::<Seq<u8>, u32>::empty());
        }
        t
    }

    /// Refresh the height and balance-ratio metrics.
    fn update_metrics(&mut self)
        requires
            old(self).inv(),
        ensures
            final(self).inv(),
            final(self)@ == old(self)@,
            final(self).root == old(self).root,
            final(self).size == old(self).size,
            final(self).spec_metrics().tree_height == cap32(final(self).spec_height() as nat),
            final(self).spec_metrics().balance_ratio == (if final(self)@.len() == 0 {
                Ratio { num: 0, den: 1 }
            } else {
                Ratio { num: 1, den: 1 }
            }),
            final(self).spec_metrics().total_insertions == old(
                self,
            ).spec_metrics().total_insertions,
            final(self).spec_metrics().rebalance_count == old(self).spec_metrics().rebalance_count,
            final(self).spec_metrics().rotation_count == old(self).spec_metrics().rotation_count,
            final(self).spec_metrics().color_fix_count == old(
                self,
            ).spec_metrics().color_fix_count,
            final(self).spec_metrics().average_depth == old(self).spec_metrics().average_depth,
    {
        let h = Node::height(&self.root);
        self.metrics.tree_height = if h >= 0xffff_ffffusize {
            0xffff_ffffu32
        } else {
            h as u32
        };
        self.metrics.balance_ratio = if self.size == 0 {
            Ratio { num: 0, den: 1 }
        } else {
            Ratio { num: 1, den: 1 }
        };
    }

    /// Insert a key-value pair: create the key (red, then rebalance on the
    /// way out) or update its value in place. The root is forced black.
    pub fn insert(&mut self, key: String, value: u32)
        requires
            old(self).inv(),
            old(self)@.len() < u32::MAX,
        ensures
            final(self).inv(),
            final(self)@ == old(self)@.insert(vstd::utf8::encode_utf8(key@), value),
            final(self).root_black(),
            old(self)@.contains_key(vstd::utf8::encode_utf8(key@)) ==> final(self)@.len() == old(
                self,
            )@.len(),
            !old(self)@.contains_key(vstd::utf8::encode_utf8(key@)) ==> final(self)@.len() == old(
                self,
            )@.len() + 1,
            final(self).spec_metrics().total_insertions == spec_bump(
                old(self).spec_metrics().total_insertions,
            ),
            final(self).spec_metrics().tree_height == cap32(final(self).spec_height() as nat),
            final(self).spec_metrics().balance_ratio == (Ratio { num: 1, den: 1 }),
            final(self).spec_metrics().rebalance_count == (if old(self).insert_rebalances(
                vstd::utf8::encode_utf8(key@),
                value,
            ) {
                spec_bump(old(self).spec_metrics().rebalance_count)
            } else {
                old(self).spec_metrics().rebalance_count
            }),
            final(self).spec_metrics().rotation_count == spec_sat_add(
                old(self).spec_metrics().rotation_count,
                old(self).insert_rotations(vstd::utf8::encode_utf8(key@), value),
            ),
            final(self).spec_metrics().color_fix_count == spec_sat_add(
                old(self).spec_metrics().color_fix_count,
                old(self).insert_recolorings(vstd::utf8::encode_utf8(key@), value),
            ),
            final(self).spec_metrics().average_depth == old(self).spec_metrics().average_depth,
    {
        let kb = str_key(key.as_str());
        proof {
            Node::lemma_as_map_finite(self.root);
        }
        let mut rebalanced = false;
        let is_new = Node::insert_rec(&mut self.root, kb, value, &mut rebalanced, &mut self.metrics);
        Node::paint(&mut self.root, Color::Black);
        if is_new {
            self.size = self.size + 1;
        }
        self.metrics.total_insertions = bump(self.metrics.total_insertions);
        if rebalanced {
            self.metrics.rebalance_count = bump(self.metrics.rebalance_count);
        }
        self.update_metrics();
    }

    /// Look a key up: the value stored for it, if any.
    pub fn get(&self, key: &str) -> (r: Option<u32>)
        requires
            self.inv(),
        ensures
            r == map_get(self@, key.spec_bytes()),
    {
        let kb = str_key(key);
        Node::get_rec(&self.root, &kb)
    }

    /// Delete a key: the removed value, if the key was present.
    ///
    /// Deletion splices without rebalancing; the root is forced black.
    pub fn delete(&mut self, key: &str) -> (r: Option<u32>)
        requires
            old(self).inv(),
        ensures
            final(self).inv(),
            final(self)@ == old(self)@.remove(key.spec_bytes()),
            r == map_get(old(self)@, key.spec_bytes()),
            final(self).root_black(),
            r is Some ==> final(self)@.len() == old(self)@.len() - 1,
            r is None ==> final(self)@.len() == old(self)@.len(),
            r is Some ==> final(self).spec_metrics().tree_height == cap32(
                final(self).spec_height() as nat,
            ) && final(self).spec_metrics().balance_ratio == (if final(self)@.len() == 0 {
                Ratio { num: 0, den: 1 }
            } else {
                Ratio { num: 1, den: 1 }
            }),
            r is None ==> final(self).spec_metrics() == old(self).spec_metrics()
                && final(self).spec_height() == old(self).spec_height(),
            final(self).spec_metrics().total_insertions == old(
                self,
            ).spec_metrics().total_insertions,
            final(self).spec_metrics().rebalance_count == old(self).spec_metrics().rebalance_count,
    {
        let kb = str_key(key);
        proof {
            Node::lemma_as_map_finite(self.root);
        }
        let removed = Node::delete_rec(&mut self.root, &kb);
        match removed {
            Some(v) => {
                Node::paint(&mut self.root, Color::Black);
                self.size = self.size - 1;
                proof {
                    assert(old(self)@.dom().contains(kb@));
                    assert(self@ == old(self)@.remove(kb@));
                    assert(self@.dom() =~= old(self)@.dom().remove(kb@));
                    assert(self@.len() == old(self)@.len() - 1);
                }
                self.update_metrics();
                Some(v)
            },
            None => {
                proof {
                    assert(old(self)@.remove(kb@) =~= old(self)@);
                }
                None
            },
        }
    }


    /// The keys currently stored, in ascending lexicographic byte order.
    ///
    /// The sequence is strictly ascending and lists exactly the keys of the
    /// abstract map: the in-order traversal of a search tree emits sorted
    /// keys.
    pub fn keys(&self) -> (r: Vec<Vec<u8>>)
        requires
            self.inv(),
        ensures
            r@.len() == self@.len(),
            forall|i: int, j: int| 0 <= i < j < r@.len() ==> lex_lt(r@[i]@, r@[j]@),
            forall|i: int| 0 <= i < r@.len() ==> self@.contains_key((#[trigger] r@[i])@),
            forall|k: Seq<u8>| #[trigger]
                self@.contains_key(k) ==> exists|i: int|
                    0 <= i < r@.len() && (#[trigger] r@[i])@ == k,
    {
        proof {
            Node::lemma_inorder(self.root);
        }
        let mut out: Vec<Vec<u8>> = Vec::new();
        Node::collect_keys(&self.root, &mut out);
        proof {
            let s = Node::inorder(self.root);
            assert forall|i: int| 0 <= i < s.len() implies (#[trigger] out@[i])@ == s[i] by {
                assert(out@[0 + i]@ == s[i]);
            }
            assert forall|k: Seq<u8>| #[trigger] self@.contains_key(k) implies exists|i: int|
                0 <= i < out@.len() && (#[trigger] out@[i])@ == k by {
                let i = choose|i: int| 0 <= i < s.len() && s[i] == k;
                assert((out@[i])@ == k);
            }
        }
        out
    }

    /// A snapshot of the metrics.
    pub fn get_metrics(&self) -> (m: RBTreeMetrics)
        ensures
            m == self.spec_metrics(),
    {
        self.metrics
    }
}

} // verus!
