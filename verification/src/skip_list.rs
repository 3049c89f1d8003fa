//! A probabilistic ordered map: the skip list.
//!
//! Nodes live in an arena and are addressed by integer indices; index zero
//! is the head sentinel, and a forward "pointer" of zero marks the end of a
//! level. Each node carries a level `k` and `k + 1` forward indices; a node
//! present at level `k` is present at every lower level. Level 0 links all
//! live nodes in ascending key order; at level `l`, each node's forward
//! index is the next live node whose level reaches `l`. A new node's level
//! is drawn by counting fair coin flips, capped at the maximum level.

use vstd::prelude::*;

verus! {

use crate::key::{KeyOrder, key_cmp, clone_key, lex_lt, str_key, lemma_lex_lt_trichotomy,
    lemma_lex_lt_transitive, lemma_lex_lt_irreflexive};
use crate::laws::map_get;
use crate::metrics::{Ratio, spec_bump, spec_sat_add, bump, sat_add, cap32};
use vstd::string::StringSliceAdditionalSpecFns;

/// Highest level a node can reach.
pub const MAX_LEVEL: usize = 16;

/// Relies on rand::random: a uniformly distributed value; nothing is
/// promised of the outcome.
pub assume_specification<T>[ rand::random::<T> ]() -> (r: T)
    where
        rand::distributions::Standard: rand::distributions::Distribution<T>,
;

struct SkipNode {
    key: Vec<u8>,
    value: u32,
    level: usize,
    forward: Vec<usize>,
}

/// Metrics collected while a `SkipList` is used.
#[derive(Clone, Copy, Debug, PartialEq, Eq, Structural)]
pub struct SkipListMetrics {
    /// Insert calls, updates included.
    pub total_insertions: u32,
    /// Search calls.
    pub total_searches: u32,
    /// Key comparisons made by searches, accumulated.
    pub search_comparisons: u32,
    /// Mean level of the live nodes, as of the last structural change.
    pub average_level: Ratio,
    /// The list's current level.
    pub max_level: u32,
    /// Level of the most recently inserted new node.
    pub insertion_cost: u32,
}

/// The key bytes of an arena node.
spec fn key_at(ns: Seq<SkipNode>, i: int) -> Seq<u8> {
    ns[i].key@
}

/// The level of an arena node.
spec fn lvl_at(ns: Seq<SkipNode>, i: int) -> nat {
    ns[i].level as nat
}

/// The forward index of an arena node at one level.
spec fn fwd(ns: Seq<SkipNode>, i: int, lv: int) -> int {
    ns[i].forward@[lv] as int
}

/// The first node at spine position `pos` or later whose level reaches
/// `lv`; zero if there is none.
spec fn first_from(ns: Seq<SkipNode>, sp: Seq<int>, pos: int, lv: int) -> int
    decreases sp.len() - pos,
{
    if pos < 0 || pos >= sp.len() {
        0
    } else if lvl_at(ns, sp[pos]) >= lv {
        sp[pos]
    } else {
        first_from(ns, sp, pos + 1, lv)
    }
}

/// When `first_from` finds a node, it sits at the first position from
/// `start` whose level reaches `lv`.
proof fn lemma_first_from_pos(ns: Seq<SkipNode>, sp: Seq<int>, start: int, lv: int) -> (t: int)
    requires
        0 <= start,
        first_from(ns, sp, start, lv) != 0,
    ensures
        start <= t < sp.len(),
        sp[t] == first_from(ns, sp, start, lv),
        lvl_at(ns, sp[t]) >= lv,
        forall|t2: int| start <= t2 < t ==> lvl_at(ns, #[trigger] sp[t2]) < lv,
    decreases sp.len() - start,
{
    if lvl_at(ns, sp[start]) >= lv {
        start
    } else {
        lemma_first_from_pos(ns, sp, start + 1, lv)
    }
}

/// `first_from` finds nothing exactly when no node from `start` on reaches
/// the level.
proof fn lemma_first_from_none(ns: Seq<SkipNode>, sp: Seq<int>, start: int, lv: int)
    requires
        0 <= start,
        forall|t: int| start <= t < sp.len() ==> #[trigger] sp[t] != 0,
    ensures
        (first_from(ns, sp, start, lv) == 0) <==> (forall|t: int|
            start <= t < sp.len() ==> lvl_at(ns, #[trigger] sp[t]) < lv),
    decreases sp.len() - start,
{
    if start < sp.len() {
        lemma_first_from_none(ns, sp, start + 1, lv);
        if lvl_at(ns, sp[start]) >= lv {
            assert(first_from(ns, sp, start, lv) == sp[start]);
            assert(sp[start] != 0 ==> !(first_from(ns, sp, start, lv) == 0));
        }
    }
}

/// The spine position of the first node at `pos` or later whose level
/// reaches `lv`; the spine length when there is none.
spec fn ff_pos(ns: Seq<SkipNode>, sp: Seq<int>, pos: int, lv: int) -> int
    decreases sp.len() - pos,
{
    if pos < 0 || pos >= sp.len() {
        sp.len() as int
    } else if lvl_at(ns, sp[pos]) >= lv {
        pos
    } else {
        ff_pos(ns, sp, pos + 1, lv)
    }
}

/// `first_from` names the node at the position `ff_pos` finds.
proof fn lemma_ff_pos(ns: Seq<SkipNode>, sp: Seq<int>, pos: int, lv: int)
    ensures
        pos <= ff_pos(ns, sp, pos, lv) || ff_pos(ns, sp, pos, lv) == sp.len(),
        ff_pos(ns, sp, pos, lv) <= sp.len(),
        first_from(ns, sp, pos, lv) == (if ff_pos(ns, sp, pos, lv) < sp.len() {
            sp[ff_pos(ns, sp, pos, lv)]
        } else {
            0
        }),
        ff_pos(ns, sp, pos, lv) < sp.len() ==> lvl_at(ns, sp[ff_pos(ns, sp, pos, lv)]) >= lv,
    decreases sp.len() - pos,
{
    if 0 <= pos < sp.len() {
        lemma_ff_pos(ns, sp, pos + 1, lv);
    }
}

/// Key comparisons one level of the search walk makes from spine position
/// `pos` (the head when negative), and the position where the level ends:
/// one comparison per advance, plus one for the examination that stops the
/// level unless the level ends in a null forward index.
spec fn level_cmp(ns: Seq<SkipNode>, sp: Seq<int>, k: Seq<u8>, pos: int, lv: int) -> (nat, int)
    decreases sp.len() - pos,
        via level_cmp_decreases
{
    let t = ff_pos(ns, sp, pos + 1, lv);
    if t >= sp.len() {
        (0, pos)
    } else if lex_lt(key_at(ns, sp[t]), k) {
        let rest = level_cmp(ns, sp, k, t, lv);
        ((rest.0 + 1) as nat, rest.1)
    } else {
        (1, pos)
    }
}

#[via_fn]
proof fn level_cmp_decreases(ns: Seq<SkipNode>, sp: Seq<int>, k: Seq<u8>, pos: int, lv: int) {
    lemma_ff_pos(ns, sp, pos + 1, lv);
}

/// Key comparisons the whole search walk makes, over levels `lvc - 1`
/// down to zero, starting from spine position `pos`.
spec fn walk_cmps(ns: Seq<SkipNode>, sp: Seq<int>, k: Seq<u8>, pos: int, lvc: int) -> nat
    decreases lvc,
{
    if lvc <= 0 {
        0
    } else {
        let lev = level_cmp(ns, sp, k, pos, lvc - 1);
        lev.0 + walk_cmps(ns, sp, k, lev.1, lvc - 1)
    }
}

/// The abstract map held by the spine from position `t` on.
spec fn spine_map_from(ns: Seq<SkipNode>, sp: Seq<int>, t: int) -> Map<Seq<u8>, u32>
    decreases sp.len() - t,
{
    if t < 0 || t >= sp.len() {
        Map::empty()
    } else {
        spine_map_from(ns, sp, t + 1).insert(key_at(ns, sp[t]), ns[sp[t]].value)
    }
}

/// With distinct keys, the spine map holds exactly the spine's entries.
proof fn lemma_spine_map(ns: Seq<SkipNode>, sp: Seq<int>, t: int)
    requires
        0 <= t <= sp.len(),
        forall|t1: int, t2: int|
            t <= t1 < t2 < sp.len() ==> key_at(ns, #[trigger] sp[t1]) != key_at(
                ns,
                #[trigger] sp[t2],
            ),
    ensures
        forall|k: Seq<u8>| #[trigger]
            spine_map_from(ns, sp, t).contains_key(k) <==> exists|u: int|
                t <= u < sp.len() && key_at(ns, #[trigger] sp[u]) == k,
        forall|u: int|
            t <= u < sp.len() ==> spine_map_from(ns, sp, t)[key_at(ns, #[trigger] sp[u])]
                == ns[sp[u]].value,
        spine_map_from(ns, sp, t).dom().finite(),
        spine_map_from(ns, sp, t).len() == sp.len() - t,
    decreases sp.len() - t,
{
    if t < sp.len() {
        lemma_spine_map(ns, sp, t + 1);
        assert(!spine_map_from(ns, sp, t + 1).contains_key(key_at(ns, sp[t])));
        assert(spine_map_from(ns, sp, t).dom() =~= spine_map_from(ns, sp, t + 1).dom().insert(
            key_at(ns, sp[t]),
        ));
        assert(spine_map_from(ns, sp, t + 1).dom().insert(key_at(ns, sp[t])).len()
            == spine_map_from(ns, sp, t + 1).dom().len() + 1);
        assert forall|u: int|
            t <= u < sp.len() implies spine_map_from(ns, sp, t)[key_at(ns, #[trigger] sp[u])]
            == ns[sp[u]].value by {
            if u > t {
                assert(key_at(ns, sp[u]) != key_at(ns, sp[t]));
            }
        }
    }
}

/// Structural soundness of the arena and spine.
///
/// The spine lists the live nodes in strictly ascending key order; node
/// zero is the head sentinel; every forward vector has one slot per level;
/// and each forward index at level `l` is exactly the next spine node whose
/// level reaches `l` (at level 0, simply the next spine node).
spec fn list_inv(ns: Seq<SkipNode>, sp: Seq<int>, level: int) -> bool {
    &&& ns.len() >= 1
    &&& lvl_at(ns, 0) == MAX_LEVEL
    &&& (forall|i: int|
        0 <= i < ns.len() ==> (#[trigger] ns[i]).forward@.len() == ns[i].level + 1 && ns[i].level
            <= MAX_LEVEL)
    &&& 0 <= level <= MAX_LEVEL
    &&& (forall|t: int| 0 <= t < sp.len() ==> 0 < #[trigger] sp[t] < ns.len())
    &&& (forall|t1: int, t2: int|
        0 <= t1 < t2 < sp.len() ==> lex_lt(
            key_at(ns, #[trigger] sp[t1]),
            key_at(ns, #[trigger] sp[t2]),
        ))
    &&& (forall|t: int| 0 <= t < sp.len() ==> lvl_at(ns, #[trigger] sp[t]) <= level)
    &&& (forall|t: int, lv: int|
        0 <= t < sp.len() && 0 <= lv <= lvl_at(ns, sp[t]) ==> #[trigger] fwd(ns, sp[t], lv)
            == first_from(ns, sp, t + 1, lv))
    &&& (forall|lv: int|
        0 <= lv <= MAX_LEVEL ==> #[trigger] fwd(ns, 0, lv) == first_from(ns, sp, 0, lv))
}

/// The walker's position: at the head, or at a spine node whose key is
/// below the target.
spec fn cur_ok(ns: Seq<SkipNode>, sp: Seq<int>, k: Seq<u8>, cur: int, pos: int) -> bool {
    if pos < 0 {
        cur == 0
    } else {
        pos < sp.len() && sp[pos] == cur && lex_lt(key_at(ns, cur), k)
    }
}

/// A finished predecessor for one level: the head or a spine node below
/// the target whose level reaches `lv`, whose level-`lv` successor is
/// either the end or at-or-above the target.
spec fn pred_ok(ns: Seq<SkipNode>, sp: Seq<int>, k: Seq<u8>, x: int, lv: int) -> bool {
    &&& (x == 0 || exists|t: int|
        0 <= t < sp.len() && #[trigger] sp[t] == x && lex_lt(key_at(ns, x), k))
    &&& (x != 0 ==> lvl_at(ns, x) >= lv)
    &&& 0 <= x
    &&& (fwd(ns, x, lv) == 0 || !lex_lt(key_at(ns, fwd(ns, x, lv)), k))
}

/// `first_from` lands on the given position when it holds the first node
/// from `start` whose level reaches `lv`.
proof fn lemma_first_from_is(ns: Seq<SkipNode>, sp: Seq<int>, start: int, tpos: int, lv: int)
    requires
        0 <= start <= tpos < sp.len(),
        lvl_at(ns, sp[tpos]) >= lv,
        forall|u: int| start <= u < tpos ==> lvl_at(ns, #[trigger] sp[u]) < lv,
    ensures
        first_from(ns, sp, start, lv) == sp[tpos],
    decreases tpos - start,
{
    if start < tpos {
        lemma_first_from_is(ns, sp, start + 1, tpos, lv);
    }
}

/// Two arenas that give the spine's nodes the same levels make
/// `first_from` agree.
proof fn lemma_first_from_same(ns1: Seq<SkipNode>, ns2: Seq<SkipNode>, sp: Seq<int>, pos: int, lv: int)
    requires
        forall|t: int|
            0 <= t < sp.len() ==> lvl_at(ns1, #[trigger] sp[t]) == lvl_at(ns2, sp[t]),
    ensures
        first_from(ns1, sp, pos, lv) == first_from(ns2, sp, pos, lv),
    decreases sp.len() - pos,
{
    if 0 <= pos < sp.len() {
        lemma_first_from_same(ns1, ns2, sp, pos + 1, lv);
    }
}

/// Two arenas that give the spine's nodes the same keys and values hold
/// the same abstract map.
proof fn lemma_spine_map_same(ns1: Seq<SkipNode>, ns2: Seq<SkipNode>, sp: Seq<int>, t: int)
    requires
        0 <= t,
        forall|u: int|
            0 <= u < sp.len() ==> key_at(ns1, #[trigger] sp[u]) == key_at(ns2, sp[u])
                && ns1[sp[u]].value == ns2[sp[u]].value,
    ensures
        spine_map_from(ns1, sp, t) == spine_map_from(ns2, sp, t),
    decreases sp.len() - t,
{
    if t < sp.len() {
        lemma_spine_map_same(ns1, ns2, sp, t + 1);
    }
}

/// The level-0 successor of a finished predecessor decides membership: the
/// target key is in the map exactly when that successor carries it, and the
/// predecessor's spine position splits the keys around the target.
proof fn lemma_pred0_decides(ns: Seq<SkipNode>, sp: Seq<int>, level: int, k: Seq<u8>, x: int) -> (q:
    int)
    requires
        list_inv(ns, sp, level),
        pred_ok(ns, sp, k, x, 0),
    ensures
        0 <= q <= sp.len(),
        fwd(ns, x, 0) == (if q < sp.len() {
            sp[q]
        } else {
            0
        }),
        fwd(ns, x, 0) != 0 ==> 0 < fwd(ns, x, 0) < ns.len(),
        forall|u: int| 0 <= u < q ==> lex_lt(key_at(ns, #[trigger] sp[u]), k),
        forall|u: int| q < u < sp.len() ==> lex_lt(k, key_at(ns, #[trigger] sp[u])),
        spine_map_from(ns, sp, 0).contains_key(k) <==> (q < sp.len() && key_at(ns, sp[q]) == k),
        q < sp.len() && key_at(ns, sp[q]) == k ==> spine_map_from(ns, sp, 0)[k] == ns[sp[q]].value,
{
    lemma_spine_distinct(ns, sp);
    lemma_spine_map(ns, sp, 0);
    let nx = fwd(ns, x, 0);
    let q: int = if x == 0 {
        assert(fwd(ns, 0, 0) == first_from(ns, sp, 0, 0));
        0
    } else {
        let t = choose|t: int|
            0 <= t < sp.len() && #[trigger] sp[t] == x && lex_lt(key_at(ns, x), k);
        assert(fwd(ns, sp[t], 0) == first_from(ns, sp, t + 1, 0));
        // Every key at or before the predecessor is below the target.
        assert forall|u: int| 0 <= u <= t implies lex_lt(key_at(ns, #[trigger] sp[u]), k) by {
            if u < t {
                lemma_lex_lt_transitive(key_at(ns, sp[u]), key_at(ns, sp[t]), k);
            }
        }
        t + 1
    };
    assert(0 <= q <= sp.len());
    if q < sp.len() {
        assert(first_from(ns, sp, q, 0) == sp[q]);
    }
    assert(nx == (if q < sp.len() {
        sp[q]
    } else {
        0
    }));
    if q < sp.len() {
        // Keys past the successor are above the target.
        assert(!lex_lt(key_at(ns, sp[q]), k));
        lemma_lex_lt_trichotomy(key_at(ns, sp[q]), k);
        assert forall|u: int| q < u < sp.len() implies lex_lt(k, key_at(ns, #[trigger] sp[u])) by {
            if key_at(ns, sp[q]) == k {
                assert(lex_lt(key_at(ns, sp[q]), key_at(ns, sp[u])));
            } else {
                assert(lex_lt(k, key_at(ns, sp[q])));
                lemma_lex_lt_transitive(k, key_at(ns, sp[q]), key_at(ns, sp[u]));
            }
        }
    }
    if spine_map_from(ns, sp, 0).contains_key(k) {
        let u = choose|u: int| 0 <= u < sp.len() && key_at(ns, #[trigger] sp[u]) == k;
        lemma_lex_lt_irreflexive(k);
        assert(u >= q);
        assert(u <= q);
    }
    q
}

/// The arena after splicing a new node `w` in at levels `0..upto`:
/// compared with the base arena, each recorded predecessor's forward index
/// at its level now names `w`, `w` inherits the predecessor's old forward
/// index at that level, and nothing else changed.
spec fn splice_shape(
    ns_base: Seq<SkipNode>,
    ns: Seq<SkipNode>,
    preds: Seq<usize>,
    w: int,
    upto: int,
) -> bool {
    &&& ns.len() == ns_base.len()
    &&& (forall|i: int|
        0 <= i < ns.len() ==> (#[trigger] ns[i]).key == ns_base[i].key && ns[i].value
            == ns_base[i].value && ns[i].level == ns_base[i].level && ns[i].forward@.len()
            == ns_base[i].forward@.len())
    &&& (forall|i: int, l: int|
        0 <= i < ns.len() && 0 <= l < ns[i].forward@.len() && i != w && !(l < upto && i == preds[l]
            as int) ==> #[trigger] fwd(ns, i, l) == fwd(ns_base, i, l))
    &&& (forall|l: int| 0 <= l < upto ==> #[trigger] fwd(ns, preds[l] as int, l) == w)
    &&& (forall|l: int|
        0 <= l < upto ==> #[trigger] fwd(ns, w, l) == fwd(ns_base, preds[l] as int, l))
}

/// Splicing a new node below its recorded predecessors yields a sound list
/// whose abstract map gained exactly the new entry.
proof fn lemma_splice_inv(
    ns_base: Seq<SkipNode>,
    ns: Seq<SkipNode>,
    sp: Seq<int>,
    sp2: Seq<int>,
    level: int,
    preds: Seq<usize>,
    w: int,
    new_level: int,
    q: int,
    k: Seq<u8>,
    v: u32,
)
    requires
        list_inv(ns_base, sp, level),
        preds.len() == level + 1,
        forall|l: int|
            0 <= l <= level ==> pred_ok(ns_base, sp, k, #[trigger] preds[l] as int, l) && (
            preds[l] as int) < ns_base.len(),
        0 <= q <= sp.len(),
        forall|u: int| 0 <= u < q ==> lex_lt(key_at(ns_base, #[trigger] sp[u]), k),
        forall|u: int| q <= u < sp.len() ==> lex_lt(k, key_at(ns_base, #[trigger] sp[u])),
        w == ns_base.len() - 1,
        w >= 1,
        forall|t: int| 0 <= t < sp.len() ==> #[trigger] sp[t] < w,
        0 <= new_level <= level,
        key_at(ns_base, w) == k,
        ns_base[w].value == v,
        lvl_at(ns_base, w) == new_level,
        splice_shape(ns_base, ns, preds, w, new_level + 1),
        sp2 == sp.insert(q, w),
    ensures
        list_inv(ns, sp2, level),
        spine_map_from(ns, sp2, 0) == spine_map_from(ns_base, sp, 0).insert(k, v),
        sp2.len() == sp.len() + 1,
{
    sp.insert_ensures(q, w);
    assert(forall|u: int| 0 <= u < q ==> #[trigger] sp2[u] == sp[u]);
    assert(sp2[q] == w);
    assert(forall|u: int| q < u < sp2.len() ==> #[trigger] sp2[u] == sp[u - 1]);
    // Keys, values and levels moved unchanged into the spliced arena.
    assert(forall|i: int|
        0 <= i < ns.len() ==> key_at(ns, i) == key_at(ns_base, i) && lvl_at(ns, i) == lvl_at(
            ns_base,
            i,
        ) && ns[i].value == ns_base[i].value);
    // Sorted order around the insertion point.
    assert forall|t1: int, t2: int| 0 <= t1 < t2 < sp2.len() implies lex_lt(
        key_at(ns, #[trigger] sp2[t1]),
        key_at(ns, #[trigger] sp2[t2]),
    ) by {
        if t1 == q {
            assert(lex_lt(k, key_at(ns_base, sp[t2 - 1])));
        } else if t2 == q {
            assert(lex_lt(key_at(ns_base, sp[t1]), k));
        } else if t1 < q && t2 > q {
            lemma_lex_lt_transitive(key_at(ns_base, sp[t1]), k, key_at(ns_base, sp[t2 - 1]));
        }
    }
    // Old positions of the predecessors sit below the insertion point.
    assert forall|l: int|
        0 <= l <= level && preds[l] as int != 0 implies exists|p: int|
        0 <= p < q && #[trigger] sp[p] == preds[l] as int by {
        let p = choose|p: int|
            0 <= p < sp.len() && #[trigger] sp[p] == preds[l] as int && lex_lt(
                key_at(ns_base, preds[l] as int),
                k,
            );
        if p >= q {
            lemma_lex_lt_trichotomy(key_at(ns_base, sp[p]), k);
        }
        assert(0 <= p < q && sp[p] == preds[l] as int);
    }
    // The pointer structure of the new spine.
    assert forall|t: int, lv: int|
        0 <= t < sp2.len() && 0 <= lv <= lvl_at(ns, sp2[t]) implies #[trigger] fwd(
        ns,
        sp2[t],
        lv,
    ) == first_from(ns, sp2, t + 1, lv) by {
        lemma_splice_pointer(ns_base, ns, sp, sp2, level, preds, w, new_level, q, k, t, lv);
    }
    assert forall|lv: int| 0 <= lv <= MAX_LEVEL implies #[trigger] fwd(ns, 0, lv) == first_from(
        ns,
        sp2,
        0,
        lv,
    ) by {
        lemma_splice_head(ns_base, ns, sp, sp2, level, preds, w, new_level, q, k, lv);
    }
    assert(list_inv(ns, sp2, level));
    // The abstract map gained exactly the new entry.
    lemma_spine_distinct(ns_base, sp);
    lemma_spine_map(ns_base, sp, 0);
    lemma_spine_distinct(ns, sp2);
    lemma_spine_map(ns, sp2, 0);
    let m0 = spine_map_from(ns_base, sp, 0);
    let m1 = spine_map_from(ns, sp2, 0);
    assert forall|k2: Seq<u8>| #[trigger] m1.contains_key(k2) implies m0.insert(
        k,
        v,
    ).contains_key(k2) && m1[k2] == m0.insert(k, v)[k2] by {
        let u = choose|u: int| 0 <= u < sp2.len() && key_at(ns, #[trigger] sp2[u]) == k2;
        assert(m1[k2] == ns[sp2[u]].value) by {
            lemma_spine_distinct_idx(ns, sp2);
        }
        if u == q {
            assert(k2 == k);
            assert(m1[k2] == v);
        } else {
            let uo = if u < q {
                u
            } else {
                u - 1
            };
            assert(sp2[u] == sp[uo]);
            assert(key_at(ns_base, sp[uo]) == k2);
            assert(m0.contains_key(k2));
            assert(m0[k2] == ns_base[sp[uo]].value);
            assert(k2 != k) by {
                if uo < q {
                    lemma_lex_lt_trichotomy(key_at(ns_base, sp[uo]), k);
                } else {
                    lemma_lex_lt_trichotomy(k, key_at(ns_base, sp[uo]));
                }
            }
        }
    }
    assert forall|k2: Seq<u8>| #[trigger] m0.insert(k, v).contains_key(k2) implies m1.contains_key(
        k2,
    ) by {
        if k2 == k {
            assert(key_at(ns, sp2[q]) == k);
        } else {
            let u = choose|u: int| 0 <= u < sp.len() && key_at(ns_base, #[trigger] sp[u]) == k2;
            let un = if u < q {
                u
            } else {
                u + 1
            };
            assert(sp2[un] == sp[u]);
            assert(key_at(ns, sp2[un]) == k2);
        }
    }
    assert(m1 =~= m0.insert(k, v));
}

/// One case of the spliced pointer structure: a spine node's forward index
/// is the next spine node of its level.
proof fn lemma_splice_pointer(
    ns_base: Seq<SkipNode>,
    ns: Seq<SkipNode>,
    sp: Seq<int>,
    sp2: Seq<int>,
    level: int,
    preds: Seq<usize>,
    w: int,
    new_level: int,
    q: int,
    k: Seq<u8>,
    t: int,
    lv: int,
)
    requires
        list_inv(ns_base, sp, level),
        preds.len() == level + 1,
        forall|l: int|
            0 <= l <= level ==> pred_ok(ns_base, sp, k, #[trigger] preds[l] as int, l) && (
            preds[l] as int) < ns_base.len(),
        0 <= q <= sp.len(),
        forall|u: int| 0 <= u < q ==> lex_lt(key_at(ns_base, #[trigger] sp[u]), k),
        forall|u: int| q <= u < sp.len() ==> lex_lt(k, key_at(ns_base, #[trigger] sp[u])),
        w == ns_base.len() - 1,
        w >= 1,
        forall|t0: int| 0 <= t0 < sp.len() ==> #[trigger] sp[t0] < w,
        0 <= new_level <= level,
        key_at(ns_base, w) == k,
        lvl_at(ns_base, w) == new_level,
        splice_shape(ns_base, ns, preds, w, new_level + 1),
        sp2 == sp.insert(q, w),
        0 <= t < sp2.len(),
        0 <= lv <= lvl_at(ns, sp2[t]),
    ensures
        fwd(ns, sp2[t], lv) == first_from(ns, sp2, t + 1, lv),
{
    sp.insert_ensures(q, w);
    lemma_spine_distinct_idx(ns_base, sp);
    assert(forall|i: int|
        0 <= i < ns.len() ==> key_at(ns, i) == key_at(ns_base, i) && lvl_at(ns, i) == lvl_at(
            ns_base,
            i,
        ));
    let x = sp2[t];
    if t == q {
        // The new node: it inherited its predecessor's old forward index.
        assert(x == w);
        let pl = preds[lv] as int;
        assert(pred_ok(ns_base, sp, k, pl, lv));
        assert(fwd(ns, w, lv) == fwd(ns_base, pl, lv));
        let j = fwd(ns_base, pl, lv);
        let p: int = if pl == 0 {
            -1
        } else {
            let p = choose|p: int|
                0 <= p < sp.len() && #[trigger] sp[p] == pl && lex_lt(key_at(ns_base, pl), k);
            if p >= q {
                lemma_lex_lt_trichotomy(key_at(ns_base, sp[p]), k);
            }
            p
        };
        assert(p < q);
        assert(j == first_from(ns_base, sp, p + 1, lv));
        if j != 0 {
            let tj = lemma_first_from_pos(ns_base, sp, p + 1, lv);
            assert(!lex_lt(key_at(ns_base, j), k));
            if tj < q {
                assert(lex_lt(key_at(ns_base, sp[tj]), k));
            }
            assert(tj >= q);
            assert(sp2[tj + 1] == sp[tj]);
            lemma_first_from_is(ns, sp2, q + 1, tj + 1, lv);
        } else {
            lemma_first_from_none(ns_base, sp, p + 1, lv);
            lemma_first_from_none(ns, sp2, q + 1, lv);
            assert forall|u: int| q + 1 <= u < sp2.len() implies lvl_at(
                ns,
                #[trigger] sp2[u],
            ) < lv by {
                assert(sp2[u] == sp[u - 1]);
                assert(lvl_at(ns_base, sp[u - 1]) < lv);
            }
        }
    } else {
        // An old node.
        let old_t: int = if t < q {
            t
        } else {
            t - 1
        };
        assert(x == sp[old_t]);
        assert(0 < x < w);
        let is_pred = lv <= new_level && x == preds[lv] as int;
        assert(lv <= lvl_at(ns_base, sp[old_t]));
        assert(fwd(ns_base, sp[old_t], lv) == first_from(ns_base, sp, old_t + 1, lv));
        let j = fwd(ns_base, x, lv);
        if is_pred {
            // This node is the recorded predecessor: it now points at `w`.
            assert(fwd(ns, x, lv) == w);
            assert(t == old_t && t < q) by {
                if old_t >= q {
                    assert(lex_lt(k, key_at(ns_base, sp[old_t])));
                    assert(pred_ok(ns_base, sp, k, x, lv));
                    let p2 = choose|p: int|
                        0 <= p < sp.len() && #[trigger] sp[p] == x && lex_lt(
                            key_at(ns_base, x),
                            k,
                        );
                    lemma_lex_lt_trichotomy(key_at(ns_base, x), k);
                }
            }
            // No node of this level sits between it and the insertion point.
            assert forall|u: int| t + 1 <= u < q implies lvl_at(ns, #[trigger] sp2[u]) < lv by {
                assert(sp2[u] == sp[u]);
                if j != 0 {
                    let tj = lemma_first_from_pos(ns_base, sp, old_t + 1, lv);
                    assert(!lex_lt(key_at(ns_base, j), k));
                    if tj < q {
                        assert(lex_lt(key_at(ns_base, sp[tj]), k));
                    }
                    assert(lvl_at(ns_base, sp[u]) < lv);
                } else {
                    lemma_first_from_none(ns_base, sp, old_t + 1, lv);
                    assert(lvl_at(ns_base, sp[u]) < lv);
                }
            }
            lemma_first_from_is(ns, sp2, t + 1, q, lv);
        } else {
            // This node's pointer did not change; nothing of its level was
            // inserted before its old successor.
            assert(fwd(ns, x, lv) == fwd(ns_base, x, lv));
            if j != 0 {
                let tj = lemma_first_from_pos(ns_base, sp, old_t + 1, lv);
                if tj < q {
                    // Entirely below the insertion point.
                    assert(t == old_t);
                    assert(sp2[tj] == sp[tj]);
                    assert forall|u: int| t + 1 <= u < tj implies lvl_at(
                        ns,
                        #[trigger] sp2[u],
                    ) < lv by {
                        assert(sp2[u] == sp[u]);
                    }
                    lemma_first_from_is(ns, sp2, t + 1, tj, lv);
                } else if old_t >= q {
                    // Entirely above the insertion point.
                    assert(t == old_t + 1);
                    assert(sp2[tj + 1] == sp[tj]);
                    assert forall|u: int| t + 1 <= u < tj + 1 implies lvl_at(
                        ns,
                        #[trigger] sp2[u],
                    ) < lv by {
                        assert(sp2[u] == sp[u - 1]);
                    }
                    lemma_first_from_is(ns, sp2, t + 1, tj + 1, lv);
                } else {
                    // The pointer crosses the insertion point; the new node
                    // must sit below this level, else this node would have
                    // been the recorded predecessor.
                    assert(t == old_t);
                    if lv <= new_level {
                        assert forall|u: int| q <= u < sp.len() implies !lex_lt(
                            key_at(ns_base, #[trigger] sp[u]),
                            k,
                        ) by {
                            lemma_lex_lt_trichotomy(key_at(ns_base, sp[u]), k);
                        }
                        lemma_cross_is_pred(ns_base, sp, level, preds, q, k, old_t, lv);
                        assert(false);
                    }
                    assert(lvl_at(ns, w) < lv);
                    assert(sp2[tj + 1] == sp[tj]);
                    assert forall|u: int| t + 1 <= u < tj + 1 implies lvl_at(
                        ns,
                        #[trigger] sp2[u],
                    ) < lv by {
                        if u == q {
                            assert(sp2[u] == w);
                        } else if u < q {
                            assert(sp2[u] == sp[u]);
                        } else {
                            assert(sp2[u] == sp[u - 1]);
                        }
                    }
                    lemma_first_from_is(ns, sp2, t + 1, tj + 1, lv);
                }
            } else {
                lemma_first_from_none(ns_base, sp, old_t + 1, lv);
                if old_t < q && lv <= new_level {
                    assert forall|u: int| q <= u < sp.len() implies !lex_lt(
                        key_at(ns_base, #[trigger] sp[u]),
                        k,
                    ) by {
                        lemma_lex_lt_trichotomy(key_at(ns_base, sp[u]), k);
                    }
                    lemma_cross_is_pred(ns_base, sp, level, preds, q, k, old_t, lv);
                    assert(false);
                }
                lemma_first_from_none(ns, sp2, t + 1, lv);
                assert forall|u: int| t + 1 <= u < sp2.len() implies lvl_at(
                    ns,
                    #[trigger] sp2[u],
                ) < lv by {
                    if u == q {
                        assert(sp2[u] == w);
                    } else if u < q {
                        assert(sp2[u] == sp[u]);
                    } else {
                        assert(sp2[u] == sp[u - 1]);
                        assert(u - 1 >= old_t + 1 || u - 1 >= q);
                    }
                }
            }
        }
    }
}

/// A node below the insertion point whose level reaches `lv`, with no
/// `lv`-level node between it and the insertion point, must be the
/// recorded predecessor for `lv`.
proof fn lemma_cross_is_pred(
    ns_base: Seq<SkipNode>,
    sp: Seq<int>,
    level: int,
    preds: Seq<usize>,
    q: int,
    k: Seq<u8>,
    old_t: int,
    lv: int,
)
    requires
        list_inv(ns_base, sp, level),
        preds.len() == level + 1,
        forall|l: int|
            0 <= l <= level ==> pred_ok(ns_base, sp, k, #[trigger] preds[l] as int, l),
        0 <= q <= sp.len(),
        forall|u: int| 0 <= u < q ==> lex_lt(key_at(ns_base, #[trigger] sp[u]), k),
        forall|u: int| q <= u < sp.len() ==> !lex_lt(key_at(ns_base, #[trigger] sp[u]), k),
        0 <= lv <= level,
        0 <= old_t < q,
        lvl_at(ns_base, sp[old_t]) >= lv,
        // no lv-level node strictly between this node and the insertion point
        forall|u: int| old_t < u < q ==> lvl_at(ns_base, #[trigger] sp[u]) < lv,
    ensures
        sp[old_t] == preds[lv] as int,
{
    lemma_spine_distinct_idx(ns_base, sp);
    let pl = preds[lv] as int;
    assert(pred_ok(ns_base, sp, k, pl, lv));
    let jp = fwd(ns_base, pl, lv);
    if pl == 0 {
        // The head's level-lv successor is at or above the target, so no
        // lv-level node sits below the insertion point; ours does.
        assert(jp == first_from(ns_base, sp, 0, lv));
        if jp != 0 {
            let tj = lemma_first_from_pos(ns_base, sp, 0, lv);
            assert(!lex_lt(key_at(ns_base, jp), k));
            if tj < q {
                assert(lex_lt(key_at(ns_base, sp[tj]), k));
            }
            assert(lvl_at(ns_base, sp[old_t]) < lv);
        } else {
            lemma_first_from_none(ns_base, sp, 0, lv);
            assert(lvl_at(ns_base, sp[old_t]) < lv);
        }
    } else {
        let p = choose|p: int|
            0 <= p < sp.len() && #[trigger] sp[p] == pl && lex_lt(key_at(ns_base, pl), k);
        if p >= q {
            lemma_lex_lt_trichotomy(key_at(ns_base, sp[p]), k);
        }
        assert(p < q);
        assert(jp == first_from(ns_base, sp, p + 1, lv));
        // The predecessor's successor at this level is past the insertion
        // point, so no lv-level node sits strictly between them.
        if p < old_t {
            if jp != 0 {
                let tj = lemma_first_from_pos(ns_base, sp, p + 1, lv);
                assert(!lex_lt(key_at(ns_base, jp), k));
                if tj < q {
                    assert(lex_lt(key_at(ns_base, sp[tj]), k));
                }
                assert(lvl_at(ns_base, sp[old_t]) < lv);
            } else {
                lemma_first_from_none(ns_base, sp, p + 1, lv);
                assert(lvl_at(ns_base, sp[old_t]) < lv);
            }
        } else if p > old_t {
            assert(lvl_at(ns_base, sp[p]) >= lv);
            assert(lvl_at(ns_base, sp[p]) < lv);
        } else {
            assert(sp[old_t] == pl);
        }
    }
}

/// Head version of the spliced pointer structure.
proof fn lemma_splice_head(
    ns_base: Seq<SkipNode>,
    ns: Seq<SkipNode>,
    sp: Seq<int>,
    sp2: Seq<int>,
    level: int,
    preds: Seq<usize>,
    w: int,
    new_level: int,
    q: int,
    k: Seq<u8>,
    lv: int,
)
    requires
        list_inv(ns_base, sp, level),
        preds.len() == level + 1,
        forall|l: int|
            0 <= l <= level ==> pred_ok(ns_base, sp, k, #[trigger] preds[l] as int, l) && (
            preds[l] as int) < ns_base.len(),
        0 <= q <= sp.len(),
        forall|u: int| 0 <= u < q ==> lex_lt(key_at(ns_base, #[trigger] sp[u]), k),
        forall|u: int| q <= u < sp.len() ==> lex_lt(k, key_at(ns_base, #[trigger] sp[u])),
        w == ns_base.len() - 1,
        w >= 1,
        forall|t0: int| 0 <= t0 < sp.len() ==> #[trigger] sp[t0] < w,
        0 <= new_level <= level,
        key_at(ns_base, w) == k,
        lvl_at(ns_base, w) == new_level,
        splice_shape(ns_base, ns, preds, w, new_level + 1),
        sp2 == sp.insert(q, w),
        0 <= lv <= MAX_LEVEL,
    ensures
        fwd(ns, 0, lv) == first_from(ns, sp2, 0, lv),
{
    sp.insert_ensures(q, w);
    lemma_spine_distinct_idx(ns_base, sp);
    assert(forall|i: int|
        0 <= i < ns.len() ==> key_at(ns, i) == key_at(ns_base, i) && lvl_at(ns, i) == lvl_at(
            ns_base,
            i,
        ));
    let j = fwd(ns_base, 0, lv);
    assert(j == first_from(ns_base, sp, 0, lv));
    if lv <= new_level && preds[lv] as int == 0 {
        // The head is the recorded predecessor: it now points at `w`.
        assert(fwd(ns, 0, lv) == w);
        assert forall|u: int| 0 <= u < q implies lvl_at(ns, #[trigger] sp2[u]) < lv by {
            assert(sp2[u] == sp[u]);
            if j != 0 {
                let tj = lemma_first_from_pos(ns_base, sp, 0, lv);
                assert(!lex_lt(key_at(ns_base, j), k));
                if tj < q {
                    assert(lex_lt(key_at(ns_base, sp[tj]), k));
                }
            } else {
                lemma_first_from_none(ns_base, sp, 0, lv);
            }
        }
        lemma_first_from_is(ns, sp2, 0, q, lv);
    } else {
        assert(fwd(ns, 0, lv) == j);
        if j != 0 {
            let tj = lemma_first_from_pos(ns_base, sp, 0, lv);
            if tj < q {
                assert(sp2[tj] == sp[tj]);
                assert forall|u: int| 0 <= u < tj implies lvl_at(ns, #[trigger] sp2[u]) < lv by {
                    assert(sp2[u] == sp[u]);
                }
                lemma_first_from_is(ns, sp2, 0, tj, lv);
            } else {
                if lv <= new_level {
                    assert forall|u: int| q <= u < sp.len() implies !lex_lt(
                        key_at(ns_base, #[trigger] sp[u]),
                        k,
                    ) by {
                        lemma_lex_lt_trichotomy(key_at(ns_base, sp[u]), k);
                    }
                    lemma_head_is_pred(ns_base, sp, level, preds, q, k, lv);
                    assert(false);
                }
                assert(lvl_at(ns, w) < lv);
                assert(sp2[tj + 1] == sp[tj]);
                assert forall|u: int| 0 <= u < tj + 1 implies lvl_at(
                    ns,
                    #[trigger] sp2[u],
                ) < lv by {
                    if u == q {
                        assert(sp2[u] == w);
                    } else if u < q {
                        assert(sp2[u] == sp[u]);
                    } else {
                        assert(sp2[u] == sp[u - 1]);
                    }
                }
                lemma_first_from_is(ns, sp2, 0, tj + 1, lv);
            }
        } else {
            lemma_first_from_none(ns_base, sp, 0, lv);
            if lv <= new_level {
                assert forall|u: int| q <= u < sp.len() implies !lex_lt(
                    key_at(ns_base, #[trigger] sp[u]),
                    k,
                ) by {
                    lemma_lex_lt_trichotomy(key_at(ns_base, sp[u]), k);
                }
                lemma_head_is_pred(ns_base, sp, level, preds, q, k, lv);
                assert(false);
            }
            lemma_first_from_none(ns, sp2, 0, lv);
            assert forall|u: int| 0 <= u < sp2.len() implies lvl_at(ns, #[trigger] sp2[u]) < lv by {
                if u == q {
                    assert(sp2[u] == w);
                } else if u < q {
                    assert(sp2[u] == sp[u]);
                } else {
                    assert(sp2[u] == sp[u - 1]);
                }
            }
        }
    }
}

/// If no node below the insertion point reaches level `lv`, the recorded
/// predecessor for `lv` must be the head itself.
proof fn lemma_head_is_pred(
    ns_base: Seq<SkipNode>,
    sp: Seq<int>,
    level: int,
    preds: Seq<usize>,
    q: int,
    k: Seq<u8>,
    lv: int,
)
    requires
        list_inv(ns_base, sp, level),
        preds.len() == level + 1,
        forall|l: int|
            0 <= l <= level ==> pred_ok(ns_base, sp, k, #[trigger] preds[l] as int, l),
        0 <= q <= sp.len(),
        forall|u: int| 0 <= u < q ==> lex_lt(key_at(ns_base, #[trigger] sp[u]), k),
        forall|u: int| q <= u < sp.len() ==> !lex_lt(key_at(ns_base, #[trigger] sp[u]), k),
        0 <= lv <= level,
        // no lv-level node below the insertion point
        forall|u: int| 0 <= u < q ==> lvl_at(ns_base, #[trigger] sp[u]) < lv,
    ensures
        preds[lv] as int == 0,
{
    let pl = preds[lv] as int;
    assert(pred_ok(ns_base, sp, k, pl, lv));
    if pl != 0 {
        let p = choose|p: int|
            0 <= p < sp.len() && #[trigger] sp[p] == pl && lex_lt(key_at(ns_base, pl), k);
        if p >= q {
            lemma_lex_lt_trichotomy(key_at(ns_base, sp[p]), k);
        }
        assert(p < q);
        assert(lvl_at(ns_base, sp[p]) >= lv);
        assert(lvl_at(ns_base, sp[p]) < lv);
    }
}

/// Spine indices are distinct because the keys are strictly sorted.
proof fn lemma_spine_distinct_idx(ns: Seq<SkipNode>, sp: Seq<int>)
    requires
        forall|t1: int, t2: int|
            0 <= t1 < t2 < sp.len() ==> lex_lt(
                key_at(ns, #[trigger] sp[t1]),
                key_at(ns, #[trigger] sp[t2]),
            ),
    ensures
        forall|t1: int, t2: int|
            0 <= t1 < sp.len() && 0 <= t2 < sp.len() && t1 != t2 ==> #[trigger] sp[t1]
                != #[trigger] sp[t2],
{
    assert forall|t1: int, t2: int|
        0 <= t1 < sp.len() && 0 <= t2 < sp.len() && t1 != t2 implies #[trigger] sp[t1]
        != #[trigger] sp[t2] by {
        if t1 < t2 {
            lemma_lex_lt_irreflexive(key_at(ns, sp[t1]));
        } else {
            lemma_lex_lt_irreflexive(key_at(ns, sp[t2]));
        }
    }
}

/// Overwriting the value of the node at spine position `q` leaves the
/// structure sound and updates exactly that key's entry in the map.
proof fn lemma_update_value(
    ns0: Seq<SkipNode>,
    ns2: Seq<SkipNode>,
    sp: Seq<int>,
    level: int,
    q: int,
    k: Seq<u8>,
    v: u32,
)
    requires
        list_inv(ns0, sp, level),
        0 <= q < sp.len(),
        key_at(ns0, sp[q]) == k,
        ns2.len() == ns0.len(),
        forall|i: int|
            0 <= i < ns2.len() ==> (#[trigger] ns2[i]).key == ns0[i].key && ns2[i].level
                == ns0[i].level && ns2[i].forward == ns0[i].forward,
        forall|i: int| 0 <= i < ns2.len() && i != sp[q] ==> (#[trigger] ns2[i]).value
            == ns0[i].value,
        ns2[sp[q]].value == v,
    ensures
        list_inv(ns2, sp, level),
        spine_map_from(ns2, sp, 0) == spine_map_from(ns0, sp, 0).insert(k, v),
{
    assert(forall|i: int|
        0 <= i < ns2.len() ==> key_at(ns2, i) == key_at(ns0, i) && lvl_at(ns2, i) == lvl_at(
            ns0,
            i,
        ) && (#[trigger] ns2[i]).forward@.len() == ns0[i].forward@.len());
    assert(forall|i: int, l: int|
        0 <= i < ns2.len() && 0 <= l < ns2[i].forward@.len() ==> #[trigger] fwd(ns2, i, l) == fwd(
            ns0,
            i,
            l,
        ));
    assert forall|t: int, lv: int|
        0 <= t < sp.len() && 0 <= lv <= lvl_at(ns2, sp[t]) implies #[trigger] fwd(ns2, sp[t], lv)
        == first_from(ns2, sp, t + 1, lv) by {
        lemma_first_from_same(ns0, ns2, sp, t + 1, lv);
        assert(fwd(ns0, sp[t], lv) == first_from(ns0, sp, t + 1, lv));
    }
    assert forall|lv: int| 0 <= lv <= MAX_LEVEL implies #[trigger] fwd(ns2, 0, lv) == first_from(
        ns2,
        sp,
        0,
        lv,
    ) by {
        lemma_first_from_same(ns0, ns2, sp, 0, lv);
    }
    assert(list_inv(ns2, sp, level));
    lemma_spine_distinct(ns0, sp);
    lemma_spine_map(ns0, sp, 0);
    lemma_spine_distinct_idx(ns0, sp);
    lemma_spine_distinct(ns2, sp);
    lemma_spine_map(ns2, sp, 0);
    let m0 = spine_map_from(ns0, sp, 0);
    let m1 = spine_map_from(ns2, sp, 0);
    assert forall|k2: Seq<u8>| #[trigger] m1.contains_key(k2) implies m0.insert(
        k,
        v,
    ).contains_key(k2) && m1[k2] == m0.insert(k, v)[k2] by {
        let u = choose|u: int| 0 <= u < sp.len() && key_at(ns2, #[trigger] sp[u]) == k2;
        assert(m1[k2] == ns2[sp[u]].value);
        if u == q {
            assert(k2 == k);
            assert(m1[k2] == v);
        } else {
            assert(sp[u] != sp[q]);
            assert(m0[k2] == ns0[sp[u]].value);
            assert(k2 != k) by {
                if key_at(ns0, sp[u]) == k {
                    assert(key_at(ns0, sp[u]) == key_at(ns0, sp[q]));
                }
            }
        }
    }
    assert forall|k2: Seq<u8>| #[trigger] m0.insert(k, v).contains_key(k2) implies m1.contains_key(
        k2,
    ) by {
        if k2 == k {
            assert(key_at(ns2, sp[q]) == k);
        } else {
            let u = choose|u: int| 0 <= u < sp.len() && key_at(ns0, #[trigger] sp[u]) == k2;
            assert(key_at(ns2, sp[u]) == k2);
        }
    }
    assert(m1 =~= m0.insert(k, v));
}

/// One step of splicing: after redirecting one predecessor's forward index
/// through the new node, the splice shape extends by one level.
proof fn lemma_splice_step(
    ns_base: Seq<SkipNode>,
    mid: Seq<SkipNode>,
    ns2: Seq<SkipNode>,
    preds: Seq<usize>,
    w: usize,
    lv: int,
    after: usize,
)
    requires
        splice_shape(ns_base, mid, preds, w as int, lv),
        0 <= lv < preds.len(),
        forall|l: int| 0 <= l < preds.len() ==> (#[trigger] preds[l] as int) < w as int,
        (w as int) < mid.len(),
        ns2.len() == mid.len(),
        0 <= lv < mid[w as int].forward@.len(),
        0 <= lv < mid[preds[lv] as int].forward@.len(),
        after as int == fwd(ns_base, preds[lv] as int, lv),
        forall|i: int|
            0 <= i < ns2.len() && i != w as int && i != preds[lv] as int ==> #[trigger] ns2[i]
                == mid[i],
        ns2[w as int].key == mid[w as int].key && ns2[w as int].value == mid[w as int].value
            && ns2[w as int].level == mid[w as int].level,
        ns2[preds[lv] as int].key == mid[preds[lv] as int].key && ns2[preds[lv] as int].value
            == mid[preds[lv] as int].value && ns2[preds[lv] as int].level == mid[preds[lv]
            as int].level,
        ns2[w as int].forward@ == mid[w as int].forward@.update(lv, after),
        ns2[preds[lv] as int].forward@ == mid[preds[lv] as int].forward@.update(lv, w),
    ensures
        splice_shape(ns_base, ns2, preds, w as int, lv + 1),
{
    let pl = preds[lv] as int;
    assert forall|i: int|
        0 <= i < ns2.len() implies (#[trigger] ns2[i]).key == ns_base[i].key && ns2[i].value
        == ns_base[i].value && ns2[i].level == ns_base[i].level && ns2[i].forward@.len()
        == ns_base[i].forward@.len() by {
        if i != w as int && i != pl {
            assert(ns2[i] == mid[i]);
        }
    }
    assert forall|i: int, l: int|
        0 <= i < ns2.len() && 0 <= l < ns2[i].forward@.len() && i != w as int && !(l < lv + 1 && i
            == preds[l] as int) implies #[trigger] fwd(ns2, i, l) == fwd(ns_base, i, l) by {
        if i == pl {
            assert(l != lv);
            assert(fwd(ns2, i, l) == fwd(mid, i, l));
        } else {
            assert(ns2[i] == mid[i]);
            assert(fwd(ns2, i, l) == fwd(mid, i, l));
        }
    }
    assert forall|l: int| 0 <= l < lv + 1 implies #[trigger] fwd(ns2, preds[l] as int, l) == w
        as int by {
        if l < lv {
            assert(fwd(mid, preds[l] as int, l) == w as int);
            if preds[l] as int == pl {
                assert(fwd(ns2, pl, l) == fwd(mid, pl, l));
            } else {
                assert(ns2[preds[l] as int] == mid[preds[l] as int]);
            }
        } else {
            assert(fwd(ns2, pl, lv) == w as int);
        }
    }
    assert forall|l: int| 0 <= l < lv + 1 implies #[trigger] fwd(ns2, w as int, l) == fwd(
        ns_base,
        preds[l] as int,
        l,
    ) by {
        if l < lv {
            assert(fwd(mid, w as int, l) == fwd(ns_base, preds[l] as int, l));
            assert(fwd(ns2, w as int, l) == fwd(mid, w as int, l));
        } else {
            assert(fwd(ns2, w as int, lv) == after as int);
        }
    }
}

/// The arena after unlinking node `d` at levels `0..upto`: each recorded
/// predecessor whose forward index named `d` now inherits `d`'s forward
/// index at that level; nothing else changed, `d`'s own row included.
spec fn unsplice_shape(
    ns0: Seq<SkipNode>,
    ns: Seq<SkipNode>,
    preds: Seq<usize>,
    d: int,
    upto: int,
) -> bool {
    &&& ns.len() == ns0.len()
    &&& (forall|i: int|
        0 <= i < ns.len() ==> (#[trigger] ns[i]).key == ns0[i].key && ns[i].value == ns0[i].value
            && ns[i].level == ns0[i].level && ns[i].forward@.len() == ns0[i].forward@.len())
    &&& (forall|i: int, l: int|
        0 <= i < ns.len() && 0 <= l < ns[i].forward@.len() && !(l < upto && i == preds[l] as int
            && fwd(ns0, i, l) == d) ==> #[trigger] fwd(ns, i, l) == fwd(ns0, i, l))
    &&& (forall|l: int|
        0 <= l < upto && fwd(ns0, preds[l] as int, l) == d ==> #[trigger] fwd(
            ns,
            preds[l] as int,
            l,
        ) == fwd(ns0, d, l))
}

/// One step of unlinking: after redirecting one predecessor's forward
/// index past the node, the unsplice shape extends by one level.
proof fn lemma_unsplice_step(
    ns0: Seq<SkipNode>,
    mid: Seq<SkipNode>,
    ns2: Seq<SkipNode>,
    preds: Seq<usize>,
    d: int,
    lv: int,
    after: usize,
)
    requires
        unsplice_shape(ns0, mid, preds, d, lv),
        0 <= lv < preds.len(),
        0 < d < ns0.len(),
        forall|l: int| 0 <= l < preds.len() ==> (#[trigger] preds[l] as int) != d,
        forall|l: int| 0 <= l < preds.len() ==> (#[trigger] preds[l] as int) < mid.len(),
        ns2.len() == mid.len(),
        0 <= lv < mid[preds[lv] as int].forward@.len(),
        fwd(ns0, preds[lv] as int, lv) == d,
        after as int == fwd(ns0, d, lv),
        forall|i: int|
            0 <= i < ns2.len() && i != preds[lv] as int ==> #[trigger] ns2[i] == mid[i],
        ns2[preds[lv] as int].key == mid[preds[lv] as int].key && ns2[preds[lv] as int].value
            == mid[preds[lv] as int].value && ns2[preds[lv] as int].level == mid[preds[lv]
            as int].level,
        ns2[preds[lv] as int].forward@ == mid[preds[lv] as int].forward@.update(lv, after),
    ensures
        unsplice_shape(ns0, ns2, preds, d, lv + 1),
{
    let pl = preds[lv] as int;
    assert forall|i: int|
        0 <= i < ns2.len() implies (#[trigger] ns2[i]).key == ns0[i].key && ns2[i].value
        == ns0[i].value && ns2[i].level == ns0[i].level && ns2[i].forward@.len()
        == ns0[i].forward@.len() by {
        if i != pl {
            assert(ns2[i] == mid[i]);
        }
    }
    assert forall|i: int, l: int|
        0 <= i < ns2.len() && 0 <= l < ns2[i].forward@.len() && !(l < lv + 1 && i == preds[l]
            as int && fwd(ns0, i, l) == d) implies #[trigger] fwd(ns2, i, l) == fwd(
        ns0,
        i,
        l,
    ) by {
        if i == pl {
            assert(l != lv);
            assert(fwd(ns2, i, l) == fwd(mid, i, l));
        } else {
            assert(ns2[i] == mid[i]);
            assert(fwd(ns2, i, l) == fwd(mid, i, l));
        }
    }
    assert forall|l: int|
        0 <= l < lv + 1 && fwd(ns0, preds[l] as int, l) == d implies #[trigger] fwd(
        ns2,
        preds[l] as int,
        l,
    ) == fwd(ns0, d, l) by {
        if l < lv {
            assert(fwd(mid, preds[l] as int, l) == fwd(ns0, d, l));
            if preds[l] as int == pl {
                assert(fwd(ns2, pl, l) == fwd(mid, pl, l));
            } else {
                assert(ns2[preds[l] as int] == mid[preds[l] as int]);
                assert(fwd(ns2, preds[l] as int, l) == fwd(mid, preds[l] as int, l));
            }
        } else {
            assert(fwd(ns2, pl, lv) == after as int);
        }
    }
}

/// If the unlinking loop left a node's forward index unchanged, it cannot
/// have pointed at the removed node; otherwise that node would have been
/// the recorded predecessor, whose index was redirected. One case of the
/// unlinked pointer structure.
proof fn lemma_unsplice_pointer(
    ns0: Seq<SkipNode>,
    ns: Seq<SkipNode>,
    sp: Seq<int>,
    sp2: Seq<int>,
    level: int,
    preds: Seq<usize>,
    d: int,
    q: int,
    k: Seq<u8>,
    t: int,
    lv: int,
)
    requires
        list_inv(ns0, sp, level),
        preds.len() == level + 1,
        forall|l: int| 0 <= l <= level ==> pred_ok(ns0, sp, k, #[trigger] preds[l] as int, l),
        0 <= q < sp.len(),
        sp[q] == d,
        key_at(ns0, d) == k,
        forall|u: int| 0 <= u < q ==> lex_lt(key_at(ns0, #[trigger] sp[u]), k),
        forall|u: int| q < u < sp.len() ==> lex_lt(k, key_at(ns0, #[trigger] sp[u])),
        unsplice_shape(ns0, ns, preds, d, level + 1),
        sp2 == sp.remove(q),
        0 <= t < sp2.len(),
        0 <= lv <= lvl_at(ns, sp2[t]),
    ensures
        fwd(ns, sp2[t], lv) == first_from(ns, sp2, t + 1, lv),
{
    sp.remove_ensures(q);
    lemma_spine_distinct_idx(ns0, sp);
    assert(forall|u: int| 0 <= u < q ==> #[trigger] sp2[u] == sp[u]);
    assert(forall|u: int| q <= u < sp2.len() ==> #[trigger] sp2[u] == sp[u + 1]);
    assert(forall|i: int|
        0 <= i < ns.len() ==> key_at(ns, i) == key_at(ns0, i) && lvl_at(ns, i) == lvl_at(ns0, i));
    assert forall|u: int| q <= u < sp.len() implies !lex_lt(
        key_at(ns0, #[trigger] sp[u]),
        k,
    ) by {
        if u == q {
            lemma_lex_lt_irreflexive(k);
        } else {
            lemma_lex_lt_trichotomy(k, key_at(ns0, sp[u]));
        }
    }
    let x = sp2[t];
    let old_t: int = if t < q {
        t
    } else {
        t + 1
    };
    assert(x == sp[old_t]);
    assert(x != d);
    assert(0 <= lv <= lvl_at(ns0, sp[old_t]));
    assert(fwd(ns0, sp[old_t], lv) == first_from(ns0, sp, old_t + 1, lv));
    let j0 = fwd(ns0, x, lv);
    let changed = lv <= level && x == preds[lv] as int && j0 == d;
    if changed {
        assert(fwd(ns, x, lv) == fwd(ns0, d, lv));
        let tj = lemma_first_from_pos(ns0, sp, old_t + 1, lv);
        assert(sp[tj] == d);
        assert(tj == q);
        assert(lvl_at(ns0, d) >= lv);
        assert(old_t < q);
        assert(t == old_t);
        assert(fwd(ns0, sp[q], lv) == first_from(ns0, sp, q + 1, lv));
        let j2 = fwd(ns0, d, lv);
        if j2 != 0 {
            let t2 = lemma_first_from_pos(ns0, sp, q + 1, lv);
            assert(sp2[t2 - 1] == sp[t2]);
            assert forall|u: int| t + 1 <= u < t2 - 1 implies lvl_at(
                ns,
                #[trigger] sp2[u],
            ) < lv by {
                if u < q {
                    assert(sp2[u] == sp[u]);
                } else {
                    assert(sp2[u] == sp[u + 1]);
                }
            }
            lemma_first_from_is(ns, sp2, t + 1, t2 - 1, lv);
        } else {
            lemma_first_from_none(ns0, sp, q + 1, lv);
            lemma_first_from_none(ns, sp2, t + 1, lv);
            assert forall|u: int| t + 1 <= u < sp2.len() implies lvl_at(
                ns,
                #[trigger] sp2[u],
            ) < lv by {
                if u < q {
                    assert(sp2[u] == sp[u]);
                } else {
                    assert(sp2[u] == sp[u + 1]);
                }
            }
        }
    } else {
        assert(fwd(ns, x, lv) == j0) by {
            if lv <= level && x == preds[lv] as int {
                assert(j0 != d);
            }
        }
        if j0 == d {
            // The pointer named the removed node, so this node must have
            // been the recorded predecessor; but then it was redirected.
            let tj = lemma_first_from_pos(ns0, sp, old_t + 1, lv);
            assert(sp[tj] == d);
            assert(tj == q);
            assert(old_t < q);
            lemma_cross_is_pred(ns0, sp, level, preds, q, k, old_t, lv);
            assert(x == preds[lv] as int);
            assert(false);
        } else if j0 != 0 {
            let tj = lemma_first_from_pos(ns0, sp, old_t + 1, lv);
            assert(sp[tj] != d || tj == q);
            assert(tj != q) by {
                if tj == q {
                    assert(sp[tj] == d);
                }
            }
            if tj < q {
                assert(t == old_t);
                assert(sp2[tj] == sp[tj]);
                assert forall|u: int| t + 1 <= u < tj implies lvl_at(
                    ns,
                    #[trigger] sp2[u],
                ) < lv by {
                    assert(sp2[u] == sp[u]);
                }
                lemma_first_from_is(ns, sp2, t + 1, tj, lv);
            } else {
                assert(tj > q);
                assert(sp2[tj - 1] == sp[tj]);
                assert forall|u: int| t + 1 <= u < tj - 1 implies lvl_at(
                    ns,
                    #[trigger] sp2[u],
                ) < lv by {
                    if u < q {
                        assert(sp2[u] == sp[u]);
                    } else {
                        assert(sp2[u] == sp[u + 1]);
                    }
                }
                lemma_first_from_is(ns, sp2, t + 1, tj - 1, lv);
            }
        } else {
            lemma_first_from_none(ns0, sp, old_t + 1, lv);
            lemma_first_from_none(ns, sp2, t + 1, lv);
            assert forall|u: int| t + 1 <= u < sp2.len() implies lvl_at(
                ns,
                #[trigger] sp2[u],
            ) < lv by {
                if u < q {
                    assert(sp2[u] == sp[u]);
                } else {
                    assert(sp2[u] == sp[u + 1]);
                }
            }
        }
    }
}

/// Head version of the unlinked pointer structure.
proof fn lemma_unsplice_head(
    ns0: Seq<SkipNode>,
    ns: Seq<SkipNode>,
    sp: Seq<int>,
    sp2: Seq<int>,
    level: int,
    preds: Seq<usize>,
    d: int,
    q: int,
    k: Seq<u8>,
    lv: int,
)
    requires
        list_inv(ns0, sp, level),
        preds.len() == level + 1,
        forall|l: int| 0 <= l <= level ==> pred_ok(ns0, sp, k, #[trigger] preds[l] as int, l),
        0 <= q < sp.len(),
        sp[q] == d,
        key_at(ns0, d) == k,
        forall|u: int| 0 <= u < q ==> lex_lt(key_at(ns0, #[trigger] sp[u]), k),
        forall|u: int| q < u < sp.len() ==> lex_lt(k, key_at(ns0, #[trigger] sp[u])),
        unsplice_shape(ns0, ns, preds, d, level + 1),
        sp2 == sp.remove(q),
        0 <= lv <= MAX_LEVEL,
    ensures
        fwd(ns, 0, lv) == first_from(ns, sp2, 0, lv),
{
    sp.remove_ensures(q);
    lemma_spine_distinct_idx(ns0, sp);
    assert(forall|u: int| 0 <= u < q ==> #[trigger] sp2[u] == sp[u]);
    assert(forall|u: int| q <= u < sp2.len() ==> #[trigger] sp2[u] == sp[u + 1]);
    assert(forall|i: int|
        0 <= i < ns.len() ==> key_at(ns, i) == key_at(ns0, i) && lvl_at(ns, i) == lvl_at(ns0, i));
    assert forall|u: int| q <= u < sp.len() implies !lex_lt(
        key_at(ns0, #[trigger] sp[u]),
        k,
    ) by {
        if u == q {
            lemma_lex_lt_irreflexive(k);
        } else {
            lemma_lex_lt_trichotomy(k, key_at(ns0, sp[u]));
        }
    }
    let j0 = fwd(ns0, 0, lv);
    assert(j0 == first_from(ns0, sp, 0, lv));
    let changed = lv <= level && preds[lv] as int == 0 && j0 == d;
    if changed {
        assert(fwd(ns, 0, lv) == fwd(ns0, d, lv));
        let tj = lemma_first_from_pos(ns0, sp, 0, lv);
        assert(sp[tj] == d);
        assert(tj == q);
        assert(lvl_at(ns0, d) >= lv);
        assert(fwd(ns0, sp[q], lv) == first_from(ns0, sp, q + 1, lv));
        let j2 = fwd(ns0, d, lv);
        if j2 != 0 {
            let t2 = lemma_first_from_pos(ns0, sp, q + 1, lv);
            assert(sp2[t2 - 1] == sp[t2]);
            assert forall|u: int| 0 <= u < t2 - 1 implies lvl_at(ns, #[trigger] sp2[u]) < lv by {
                if u < q {
                    assert(sp2[u] == sp[u]);
                } else {
                    assert(sp2[u] == sp[u + 1]);
                }
            }
            lemma_first_from_is(ns, sp2, 0, t2 - 1, lv);
        } else {
            lemma_first_from_none(ns0, sp, q + 1, lv);
            lemma_first_from_none(ns, sp2, 0, lv);
            assert forall|u: int| 0 <= u < sp2.len() implies lvl_at(ns, #[trigger] sp2[u]) < lv by {
                if u < q {
                    assert(sp2[u] == sp[u]);
                } else {
                    assert(sp2[u] == sp[u + 1]);
                }
            }
        }
    } else {
        assert(fwd(ns, 0, lv) == j0) by {
            if lv <= level && preds[lv] as int == 0 {
                assert(j0 != d);
            }
            assert(lvl_at(ns0, 0) == MAX_LEVEL);
        }
        if j0 == d {
            let tj = lemma_first_from_pos(ns0, sp, 0, lv);
            assert(sp[tj] == d);
            assert(tj == q);
            assert(lvl_at(ns0, d) >= lv);
            assert(lv <= level);
            lemma_head_is_pred(ns0, sp, level, preds, q, k, lv);
            assert(preds[lv] as int == 0);
            assert(false);
        } else if j0 != 0 {
            let tj = lemma_first_from_pos(ns0, sp, 0, lv);
            assert(tj != q) by {
                if tj == q {
                    assert(sp[tj] == d);
                }
            }
            if tj < q {
                assert(sp2[tj] == sp[tj]);
                assert forall|u: int| 0 <= u < tj implies lvl_at(ns, #[trigger] sp2[u]) < lv by {
                    assert(sp2[u] == sp[u]);
                }
                lemma_first_from_is(ns, sp2, 0, tj, lv);
            } else {
                assert(tj > q);
                assert(sp2[tj - 1] == sp[tj]);
                assert forall|u: int| 0 <= u < tj - 1 implies lvl_at(
                    ns,
                    #[trigger] sp2[u],
                ) < lv by {
                    if u < q {
                        assert(sp2[u] == sp[u]);
                    } else {
                        assert(sp2[u] == sp[u + 1]);
                    }
                }
                lemma_first_from_is(ns, sp2, 0, tj - 1, lv);
            }
        } else {
            lemma_first_from_none(ns0, sp, 0, lv);
            lemma_first_from_none(ns, sp2, 0, lv);
            assert forall|u: int| 0 <= u < sp2.len() implies lvl_at(ns, #[trigger] sp2[u]) < lv by {
                if u < q {
                    assert(sp2[u] == sp[u]);
                } else {
                    assert(sp2[u] == sp[u + 1]);
                }
            }
        }
    }
}

/// Unlinking a node below its recorded predecessors yields a sound list
/// whose abstract map lost exactly that node's entry.
proof fn lemma_unsplice_inv(
    ns0: Seq<SkipNode>,
    ns: Seq<SkipNode>,
    sp: Seq<int>,
    sp2: Seq<int>,
    level: int,
    preds: Seq<usize>,
    d: int,
    q: int,
    k: Seq<u8>,
)
    requires
        list_inv(ns0, sp, level),
        preds.len() == level + 1,
        forall|l: int| 0 <= l <= level ==> pred_ok(ns0, sp, k, #[trigger] preds[l] as int, l),
        0 <= q < sp.len(),
        sp[q] == d,
        key_at(ns0, d) == k,
        forall|u: int| 0 <= u < q ==> lex_lt(key_at(ns0, #[trigger] sp[u]), k),
        forall|u: int| q < u < sp.len() ==> lex_lt(k, key_at(ns0, #[trigger] sp[u])),
        unsplice_shape(ns0, ns, preds, d, level + 1),
        sp2 == sp.remove(q),
    ensures
        list_inv(ns, sp2, level),
        spine_map_from(ns, sp2, 0) == spine_map_from(ns0, sp, 0).remove(k),
        sp2.len() == sp.len() - 1,
{
    sp.remove_ensures(q);
    lemma_spine_distinct_idx(ns0, sp);
    assert(forall|u: int| 0 <= u < q ==> #[trigger] sp2[u] == sp[u]);
    assert(forall|u: int| q <= u < sp2.len() ==> #[trigger] sp2[u] == sp[u + 1]);
    assert(forall|i: int|
        0 <= i < ns.len() ==> key_at(ns, i) == key_at(ns0, i) && lvl_at(ns, i) == lvl_at(
            ns0,
            i,
        ) && ns[i].value == ns0[i].value);
    assert forall|t1: int, t2: int| 0 <= t1 < t2 < sp2.len() implies lex_lt(
        key_at(ns, #[trigger] sp2[t1]),
        key_at(ns, #[trigger] sp2[t2]),
    ) by {
        let u1 = if t1 < q {
            t1
        } else {
            t1 + 1
        };
        let u2 = if t2 < q {
            t2
        } else {
            t2 + 1
        };
        assert(sp2[t1] == sp[u1] && sp2[t2] == sp[u2]);
    }
    assert forall|t: int, lv: int|
        0 <= t < sp2.len() && 0 <= lv <= lvl_at(ns, sp2[t]) implies #[trigger] fwd(
        ns,
        sp2[t],
        lv,
    ) == first_from(ns, sp2, t + 1, lv) by {
        lemma_unsplice_pointer(ns0, ns, sp, sp2, level, preds, d, q, k, t, lv);
    }
    assert forall|lv: int| 0 <= lv <= MAX_LEVEL implies #[trigger] fwd(ns, 0, lv) == first_from(
        ns,
        sp2,
        0,
        lv,
    ) by {
        lemma_unsplice_head(ns0, ns, sp, sp2, level, preds, d, q, k, lv);
    }
    assert(list_inv(ns, sp2, level));
    lemma_spine_distinct(ns0, sp);
    lemma_spine_map(ns0, sp, 0);
    lemma_spine_distinct(ns, sp2);
    lemma_spine_map(ns, sp2, 0);
    let m0 = spine_map_from(ns0, sp, 0);
    let m1 = spine_map_from(ns, sp2, 0);
    assert forall|k2: Seq<u8>| #[trigger] m1.contains_key(k2) implies m0.remove(k).contains_key(
        k2,
    ) && m1[k2] == m0.remove(k)[k2] by {
        let u = choose|u: int| 0 <= u < sp2.len() && key_at(ns, #[trigger] sp2[u]) == k2;
        let uo = if u < q {
            u
        } else {
            u + 1
        };
        assert(sp2[u] == sp[uo]);
        assert(key_at(ns0, sp[uo]) == k2);
        assert(m0.contains_key(k2));
        assert(m1[k2] == ns[sp2[u]].value);
        assert(m0[k2] == ns0[sp[uo]].value);
        assert(k2 != k) by {
            if key_at(ns0, sp[uo]) == k {
                assert(key_at(ns0, sp[uo]) == key_at(ns0, sp[q]));
            }
        }
    }
    assert forall|k2: Seq<u8>| #[trigger] m0.remove(k).contains_key(k2) implies m1.contains_key(
        k2,
    ) by {
        let u = choose|u: int| 0 <= u < sp.len() && key_at(ns0, #[trigger] sp[u]) == k2;
        assert(u != q) by {
            if u == q {
                assert(k2 == k);
            }
        }
        let un = if u < q {
            u
        } else {
            u - 1
        };
        assert(sp2[un] == sp[u]);
        assert(key_at(ns, sp2[un]) == k2);
    }
    assert(m1 =~= m0.remove(k));
}

/// A probabilistic ordered map over byte-string keys with multi-level
/// forward links.
pub struct SkipList {
    nodes: Vec<SkipNode>,
    level: usize,
    size: u32,
    metrics: SkipListMetrics,
    spine: Ghost<Seq<int>>,
}

impl View for SkipList {
    type V = Map<Seq<u8>, u32>;

    closed spec fn view(&self) -> Map<Seq<u8>, u32> {
        spine_map_from(self.nodes@, self.spine@, 0)
    }
}

impl SkipList {
    /// Structural soundness, plus: the recorded size is the number of live
    /// nodes.
    pub closed spec fn inv(&self) -> bool {
        &&& list_inv(self.nodes@, self.spine@, self.level as int)
        &&& self.size == self.spine@.len()
    }

    /// The metric record as last written.
    pub closed spec fn spec_metrics(&self) -> SkipListMetrics {
        self.metrics
    }

    /// The list's current level.
    pub closed spec fn spec_level(&self) -> int {
        self.level as int
    }

    /// The sum of the levels of the live nodes.
    pub closed spec fn levels_sum(&self) -> int {
        spine_levels_from(self.nodes@, self.spine@, 0)
    }

    /// Key comparisons a search for `k` makes against the current
    /// structure: the walk is deterministic, so its cost is a function of
    /// the arena, the spine, the list level and the key.
    pub closed spec fn search_cost(&self, k: Seq<u8>) -> nat {
        walk_cmps(self.nodes@, self.spine@, k, -1, self.level + 1)
    }

    /// The level of the live node that holds a key.
    pub closed spec fn level_of_key(&self, k: Seq<u8>) -> nat {
        lvl_at(
            self.nodes@,
            self.spine@[choose|t: int|
                0 <= t < self.spine@.len() && key_at(self.nodes@, #[trigger] self.spine@[t]) == k],
        )
    }

    /// Create an empty skip list: a lone head sentinel with an empty key
    /// and the full complement of forward slots.
    pub fn new() -> (l: SkipList)
        ensures
            l.inv(),
            l@ == Map::<Seq<u8>, u32>::empty(),
            l.spec_level() == 0,
            l.spec_metrics() == (SkipListMetrics {
                total_insertions: 0,
                total_searches: 0,
                search_comparisons: 0,
                average_level: Ratio { num: 0, den: 1 },
                max_level: 0,
                insertion_cost: 0,
            }),
    {
        let mut forward: Vec<usize> = Vec::new();
        let mut i: usize = 0;
        while i < MAX_LEVEL + 1
            invariant
                i <= MAX_LEVEL + 1,
                forward@.len() == i,
                forall|t: int| 0 <= t < i ==> #[trigger] forward@[t] == 0,
            decreases MAX_LEVEL + 1 - i,
        {
            forward.push(0);
            i = i + 1;
        }
        let head = SkipNode { key: Vec::new(), value: 0, level: MAX_LEVEL, forward };
        let mut nodes: Vec<SkipNode> = Vec::new();
        nodes.push(head);
        let l = SkipList {
            nodes,
            level: 0,
            size: 0,
            metrics: SkipListMetrics {
                total_insertions: 0,
                total_searches: 0,
                search_comparisons: 0,
                average_level: Ratio { num: 0, den: 1 },
                max_level: 0,
                insertion_cost: 0,
            },
            spine: Ghost(Seq::empty()),
        };
        proof {
            assert(l@ =~= Map::<Seq<u8>, u32>::empty());
        }
        l
    }

    /// Number of live key-value pairs.
    pub fn len(&self) -> (n: u32)
        requires
            self.inv(),
        ensures
            n == self@.len(),
    {
        proof {
            lemma_spine_distinct(self.nodes@, self.spine@);
            lemma_spine_map(self.nodes@, self.spine@, 0);
        }
        self.size
    }

    /// Whether the list holds no pairs.
    pub fn is_empty(&self) -> (b: bool)
        requires
            self.inv(),
        ensures
            b == (self@.len() == 0),
    {
        proof {
            lemma_spine_distinct(self.nodes@, self.spine@);
            lemma_spine_map(self.nodes@, self.spine@, 0);
        }
        self.size == 0
    }

    /// A snapshot of the metrics.
    pub fn get_metrics(&self) -> (m: SkipListMetrics)
        ensures
            m == self.spec_metrics(),
    {
        self.metrics
    }

    /// Descend from the top level, recording at each level the last node
    /// whose key is below the target. Returns the recorded predecessors,
    /// indexed by level, and the number of key comparisons made.
    fn walk(&self, kb: &Vec<u8>) -> (res: (Vec<usize>, u32))
        requires
            self.inv(),
        ensures
            res.0@.len() == self.spec_level() + 1,
            forall|l: int|
                0 <= l <= self.spec_level() ==> pred_ok(
                    self.nodes@,
                    self.spine@,
                    kb@,
                    #[trigger] res.0@[l] as int,
                    l,
                ) && res.0@[l] < self.nodes@.len(),
            res.1 == cap32(walk_cmps(self.nodes@, self.spine@, kb@, -1, self.spec_level() + 1)),
    {
        let ghost ns = self.nodes@;
        let ghost sp = self.spine@;
        let mut preds: Vec<usize> = Vec::new();
        let mut i: usize = 0;
        while i < self.level + 1
            invariant
                self.level <= MAX_LEVEL,
                i <= self.level + 1,
                preds@.len() == i,
            decreases self.level + 1 - i,
        {
            preds.push(0);
            i = i + 1;
        }
        let mut cur: usize = 0;
        let ghost mut pos: int = -1;
        let ghost mut done: nat = 0;
        let mut comparisons: u32 = 0;
        let mut lvc: usize = self.level + 1;
        while lvc > 0
            invariant
                self.inv(),
                ns == self.nodes@,
                sp == self.spine@,
                lvc <= self.level + 1,
                preds@.len() == self.level + 1,
                cur_ok(ns, sp, kb@, cur as int, pos),
                cur == 0 || lvl_at(ns, cur as int) + 1 >= lvc,
                cur < ns.len(),
                -1 <= pos < sp.len(),
                forall|l: int|
                    lvc <= l <= self.spec_level() ==> pred_ok(
                        ns,
                        sp,
                        kb@,
                        #[trigger] preds@[l] as int,
                        l,
                    ) && preds@[l] < ns.len(),
                comparisons == cap32(done),
                walk_cmps(ns, sp, kb@, -1, (self.level + 1) as int) == done + walk_cmps(
                    ns,
                    sp,
                    kb@,
                    pos,
                    lvc as int,
                ),
            decreases lvc,
        {
            let lv = lvc - 1;
            proof {
                assert(walk_cmps(ns, sp, kb@, pos, lvc as int) == level_cmp(
                    ns,
                    sp,
                    kb@,
                    pos,
                    lv as int,
                ).0 + walk_cmps(
                    ns,
                    sp,
                    kb@,
                    level_cmp(ns, sp, kb@, pos, lv as int).1,
                    lv as int,
                ));
            }
            loop
                invariant_except_break
                    walk_cmps(ns, sp, kb@, -1, (self.level + 1) as int) == done + level_cmp(
                        ns,
                        sp,
                        kb@,
                        pos,
                        lv as int,
                    ).0 + walk_cmps(
                        ns,
                        sp,
                        kb@,
                        level_cmp(ns, sp, kb@, pos, lv as int).1,
                        lv as int,
                    ),
                invariant
                    self.inv(),
                    ns == self.nodes@,
                    sp == self.spine@,
                    lv == lvc - 1,
                    1 <= lvc <= self.level + 1,
                    cur_ok(ns, sp, kb@, cur as int, pos),
                    cur == 0 || lvl_at(ns, cur as int) >= lv,
                    cur < ns.len(),
                    -1 <= pos < sp.len(),
                    comparisons == cap32(done),
                ensures
                    cur_ok(ns, sp, kb@, cur as int, pos),
                    cur == 0 || lvl_at(ns, cur as int) >= lv,
                    cur < ns.len(),
                    -1 <= pos < sp.len(),
                    fwd(ns, cur as int, lv as int) == 0 || !lex_lt(
                        key_at(ns, fwd(ns, cur as int, lv as int)),
                        kb@,
                    ),
                    comparisons == cap32(done),
                    walk_cmps(ns, sp, kb@, -1, (self.level + 1) as int) == done + walk_cmps(
                        ns,
                        sp,
                        kb@,
                        pos,
                        lv as int,
                    ),
                decreases sp.len() - pos,
            {
                let nxt = self.nodes[cur].forward[lv];
                proof {
                    assert(nxt as int == fwd(ns, cur as int, lv as int));
                    if pos < 0 {
                        assert(fwd(ns, 0, lv as int) == first_from(ns, sp, 0, lv as int));
                    } else {
                        assert(fwd(ns, sp[pos], lv as int) == first_from(ns, sp, pos + 1, lv as int));
                    }
                }
                if nxt == 0 {
                    proof {
                        lemma_ff_pos(ns, sp, pos + 1, lv as int);
                        if ff_pos(ns, sp, pos + 1, lv as int) < sp.len() {
                            assert(first_from(ns, sp, pos + 1, lv as int) == sp[ff_pos(
                                ns,
                                sp,
                                pos + 1,
                                lv as int,
                            )]);
                            assert(sp[ff_pos(ns, sp, pos + 1, lv as int)] != 0);
                        }
                        assert(level_cmp(ns, sp, kb@, pos, lv as int) == (0nat, pos));
                    }
                    break ;
                }
                let ghost t = lemma_first_from_pos(ns, sp, pos + 1, lv as int);
                proof {
                    assert(sp[t] == nxt);
                    assert(0 < sp[t] < ns.len());
                }
                proof {
                    lemma_spine_distinct_idx(ns, sp);
                    lemma_ff_pos(ns, sp, pos + 1, lv as int);
                    assert(ff_pos(ns, sp, pos + 1, lv as int) == t);
                    assert(spec_bump(cap32(done)) == cap32(done + 1));
                }
                comparisons = bump(comparisons);
                let o = key_cmp(&self.nodes[nxt].key, kb);
                match o {
                    KeyOrder::Less => {
                        cur = nxt;
                        proof {
                            assert(lex_lt(key_at(ns, sp[t]), kb@));
                            assert(level_cmp(ns, sp, kb@, pos, lv as int).0 == level_cmp(
                                ns,
                                sp,
                                kb@,
                                t,
                                lv as int,
                            ).0 + 1);
                            assert(level_cmp(ns, sp, kb@, pos, lv as int).1 == level_cmp(
                                ns,
                                sp,
                                kb@,
                                t,
                                lv as int,
                            ).1);
                            done = done + 1;
                            pos = t;
                        }
                    },
                    _ => {
                        proof {
                            assert(!lex_lt(key_at(ns, sp[t]), kb@));
                            assert(level_cmp(ns, sp, kb@, pos, lv as int) == (1nat, pos));
                            done = done + 1;
                        }
                        break ;
                    },
                }
            }
            preds[lv] = cur;
            lvc = lvc - 1;
        }
        proof {
            assert(walk_cmps(ns, sp, kb@, pos, 0) == 0);
        }
        (preds, comparisons)
    }

    /// Search for a key: the value stored for it, if any.
    ///
    /// The walk starts at the head on the list's top level, advances while
    /// the next key is below the target, drops a level, and examines the
    /// final level-0 successor for an exact match.
    pub fn search(&mut self, key: &str) -> (r: Option<u32>)
        requires
            old(self).inv(),
        ensures
            final(self).inv(),
            final(self)@ == old(self)@,
            r == map_get(old(self)@, key.spec_bytes()),
            final(self).spec_level() == old(self).spec_level(),
            final(self).spec_metrics().total_searches == spec_bump(
                old(self).spec_metrics().total_searches,
            ),
            final(self).spec_metrics().search_comparisons == spec_sat_add(
                old(self).spec_metrics().search_comparisons,
                old(self).search_cost(key.spec_bytes()),
            ),
            final(self).spec_metrics().total_insertions == old(
                self,
            ).spec_metrics().total_insertions,
            final(self).spec_metrics().average_level == old(self).spec_metrics().average_level,
            final(self).spec_metrics().max_level == old(self).spec_metrics().max_level,
            final(self).spec_metrics().insertion_cost == old(self).spec_metrics().insertion_cost,
    {
        self.metrics.total_searches = bump(self.metrics.total_searches);
        let kb = str_key(key);
        let (preds, comparisons) = self.walk(&kb);
        proof {
            let cost = old(self).search_cost(kb@);
            assert(comparisons == cap32(cost));
            assert(spec_sat_add(self.metrics.search_comparisons, cap32(cost) as nat)
                == spec_sat_add(self.metrics.search_comparisons, cost));
        }
        self.metrics.search_comparisons = sat_add(
            self.metrics.search_comparisons,
            comparisons as usize,
        );
        let p0 = preds[0];
        proof {
            let q = lemma_pred0_decides(
                self.nodes@,
                self.spine@,
                self.level as int,
                kb@,
                p0 as int,
            );
        }
        let nxt = self.nodes[p0].forward[0];
        if nxt != 0 {
            let o = key_cmp(&self.nodes[nxt].key, &kb);
            match o {
                KeyOrder::Equal => Some(self.nodes[nxt].value),
                _ => None,
            }
        } else {
            None
        }
    }

    /// Refresh the average-level and list-level metrics by scanning the
    /// level-0 chain.
    fn update_metrics(&mut self)
        requires
            old(self).inv(),
        ensures
            final(self).inv(),
            final(self)@ == old(self)@,
            final(self).nodes == old(self).nodes,
            final(self).spine == old(self).spine,
            final(self).level == old(self).level,
            final(self).size == old(self).size,
            final(self)@.len() == 0 ==> final(self).spec_metrics().average_level == (Ratio {
                num: 0,
                den: 1,
            }),
            final(self)@.len() > 0 ==> final(self).spec_metrics().average_level.num == final(self).levels_sum()
                && final(self).spec_metrics().average_level.den == final(self)@.len(),
            final(self).spec_metrics().max_level == final(self).spec_level(),
            final(self).spec_metrics().total_insertions == old(
                self,
            ).spec_metrics().total_insertions,
            final(self).spec_metrics().total_searches == old(self).spec_metrics().total_searches,
            final(self).spec_metrics().search_comparisons == old(
                self,
            ).spec_metrics().search_comparisons,
            final(self).spec_metrics().insertion_cost == old(self).spec_metrics().insertion_cost,
    {
        let ghost ns = self.nodes@;
        let ghost sp = self.spine@;
        proof {
            lemma_spine_distinct(ns, sp);
            lemma_spine_map(ns, sp, 0);
        }
        let mut total: u64 = 0;
        let mut count: u32 = 0;
        let mut cur = self.nodes[0].forward[0];
        let ghost mut pos: int = 0;
        proof {
            assert(fwd(ns, 0, 0) == first_from(ns, sp, 0, 0));
        }
        while cur != 0
            invariant
                self.inv(),
                ns == self.nodes@,
                sp == self.spine@,
                0 <= pos <= sp.len(),
                cur as int == first_from(ns, sp, pos, 0),
                cur as int == (if pos < sp.len() {
                    sp[pos]
                } else {
                    0
                }),
                count == pos,
                sp.len() < 0x1_0000_0000,
                total == spine_levels_from(ns, sp, 0) - spine_levels_from(ns, sp, pos),
                total <= 16 * pos,
            decreases sp.len() - pos,
        {
            let lv = self.nodes[cur].level;
            proof {
                assert(0 < sp[pos] < ns.len());
                assert(lvl_at(ns, sp[pos]) <= MAX_LEVEL);
                assert(fwd(ns, sp[pos], 0) == first_from(ns, sp, pos + 1, 0));
            }
            total = total + lv as u64;
            count = count + 1;
            cur = self.nodes[cur].forward[0];
            proof {
                pos = pos + 1;
                if pos < sp.len() {
                    assert(first_from(ns, sp, pos, 0) == sp[pos]);
                }
            }
        }
        proof {
            assert(pos == sp.len()) by {
                if pos < sp.len() {
                    assert(sp[pos] != 0);
                }
            }
        }
        self.metrics.average_level = if count > 0 {
            Ratio { num: total, den: count as u64 }
        } else {
            Ratio { num: 0, den: 1 }
        };
        self.metrics.max_level = self.level as u32;
    }

    /// Link a freshly pushed node `w` into levels `0..=new_level`, after
    /// each recorded predecessor.
    fn splice_links(
        &mut self,
        preds: &Vec<usize>,
        w: usize,
        new_level: usize,
        sp: Ghost<Seq<int>>,
        kbv: Ghost<Seq<u8>>,
    )
        requires
            list_inv(old(self).nodes@, sp@, old(self).level as int),
            old(self).spine@ == sp@,
            preds@.len() == old(self).level + 1,
            forall|l: int|
                0 <= l <= old(self).level ==> pred_ok(
                    old(self).nodes@,
                    sp@,
                    kbv@,
                    #[trigger] preds@[l] as int,
                    l,
                ) && (preds@[l] as int) < w,
            w as int == old(self).nodes@.len() - 1,
            w >= 1,
            lvl_at(old(self).nodes@, w as int) == new_level,
            new_level <= old(self).level,
            forall|t: int| 0 <= t < sp@.len() ==> 0 < #[trigger] sp@[t] < w,
        ensures
            splice_shape(old(self).nodes@, final(self).nodes@, preds@, w as int, new_level + 1),
            final(self).nodes@.len() == old(self).nodes@.len(),
            final(self).spine == old(self).spine,
            final(self).level == old(self).level,
            final(self).size == old(self).size,
            final(self).metrics == old(self).metrics,
    {
        let ghost ns_base = self.nodes@;
        let ghost lvl_now = self.level as int;
        let mut lv: usize = 0;
        while lv <= new_level
            invariant
                splice_shape(ns_base, self.nodes@, preds@, w as int, lv as int),
                lv <= new_level + 1,
                list_inv(ns_base, sp@, lvl_now),
                forall|l: int|
                    0 <= l <= lvl_now ==> pred_ok(ns_base, sp@, kbv@, #[trigger] preds@[l] as int, l)
                        && (preds@[l] as int) < w,
                self.nodes@.len() == ns_base.len(),
                w as int == ns_base.len() - 1,
                w >= 1,
                new_level <= lvl_now,
                preds@.len() == lvl_now + 1,
                lvl_at(ns_base, w as int) == new_level,
                self.level as int == lvl_now,
                self.spine == old(self).spine,
                self.size == old(self).size,
                self.metrics == old(self).metrics,
                ns_base == old(self).nodes@,
            decreases new_level + 1 - lv,
        {
            let pl = preds[lv];
            proof {
                assert(pred_ok(ns_base, sp@, kbv@, pl as int, lv as int));
                if pl as int != 0 {
                    assert(lvl_at(ns_base, pl as int) >= lv);
                } else {
                    assert(lvl_at(ns_base, 0) == MAX_LEVEL);
                }
                assert(self.nodes@[pl as int].forward@.len() == ns_base[pl as int].forward@.len());
                assert(fwd(self.nodes@, pl as int, lv as int) == fwd(ns_base, pl as int, lv as int));
            }
            let after = self.nodes[pl].forward[lv];
            let ghost mid = self.nodes@;
            self.nodes[w].forward[lv] = after;
            self.nodes[pl].forward[lv] = w;
            proof {
                lemma_splice_step(ns_base, mid, self.nodes@, preds@, w, lv as int, after);
            }
            lv = lv + 1;
        }
    }

    /// Insert a key-value pair: update a live key's value in place, or
    /// splice in a new node at a randomly drawn level.
    ///
    /// A drawn level above the list's current level raises the list level
    /// first, whether or not the key turns out to exist.
    #[verifier::rlimit(60)]
    pub fn insert(&mut self, key: String, value: u32)
        requires
            old(self).inv(),
            old(self)@.len() < u32::MAX,
        ensures
            final(self).inv(),
            final(self)@ == old(self)@.insert(vstd::utf8::encode_utf8(key@), value),
            final(self).spec_level() >= old(self).spec_level(),
            final(self).spec_metrics().total_insertions == spec_bump(
                old(self).spec_metrics().total_insertions,
            ),
            final(self).spec_metrics().total_searches == old(self).spec_metrics().total_searches,
            final(self).spec_metrics().search_comparisons == old(
                self,
            ).spec_metrics().search_comparisons,
            old(self)@.contains_key(vstd::utf8::encode_utf8(key@)) ==> {
                &&& final(self)@.len() == old(self)@.len()
                &&& final(self).spec_metrics().average_level == old(
                    self,
                ).spec_metrics().average_level
                &&& final(self).spec_metrics().max_level == old(self).spec_metrics().max_level
                &&& final(self).spec_metrics().insertion_cost == old(
                    self,
                ).spec_metrics().insertion_cost
            },
            !old(self)@.contains_key(vstd::utf8::encode_utf8(key@)) ==> {
                &&& final(self)@.len() == old(self)@.len() + 1
                &&& final(self).spec_metrics().max_level == final(self).spec_level()
                &&& final(self).spec_metrics().insertion_cost <= MAX_LEVEL as u32
                &&& final(self).spec_metrics().insertion_cost == final(self).level_of_key(
                    vstd::utf8::encode_utf8(key@),
                )
                &&& final(self).spec_metrics().average_level.num == final(self).levels_sum()
                &&& final(self).spec_metrics().average_level.den == final(self)@.len()
            },
    {
        let kb = str_key(key.as_str());
        let ghost kbv = kb@;
        let new_level = Self::random_level();
        if new_level > self.level {
            self.level = new_level;
            proof {
                assert(self.inv());
            }
        }
        let (preds, _cnt) = self.walk(&kb);
        let ghost ns0 = self.nodes@;
        let ghost sp = self.spine@;
        let ghost lvl_now = self.level as int;
        let p0 = preds[0];
        let ghost mut q: int = 0;
        proof {
            q = lemma_pred0_decides(ns0, sp, lvl_now, kbv, p0 as int);
            lemma_spine_distinct(ns0, sp);
            lemma_spine_map(ns0, sp, 0);
            lemma_spine_distinct_idx(ns0, sp);
        }
        let nxt = self.nodes[p0].forward[0];
        let mut update_idx: usize = 0;
        let mut is_update = false;
        if nxt != 0 {
            let o = key_cmp(&self.nodes[nxt].key, &kb);
            match o {
                KeyOrder::Equal => {
                    is_update = true;
                    update_idx = nxt;
                },
                _ => {},
            }
        }
        if is_update {
            // Existing key: overwrite the value, touch no links.
            self.nodes[update_idx].value = value;
            proof {
                assert(update_idx as int == sp[q]);
                lemma_update_value(ns0, self.nodes@, sp, lvl_now, q, kbv, value);
                assert(spine_map_from(ns0, sp, 0).contains_key(kbv));
                assert(spine_map_from(ns0, sp, 0).insert(kbv, value).dom() =~= spine_map_from(
                    ns0,
                    sp,
                    0,
                ).dom());
            }
            self.metrics.total_insertions = bump(self.metrics.total_insertions);
            return ;
        }
        // New key: the insertion position splits the spine strictly.
        proof {
            assert(!spine_map_from(ns0, sp, 0).contains_key(kbv));
            assert forall|u: int| q <= u < sp.len() implies lex_lt(
                kbv,
                key_at(ns0, #[trigger] sp[u]),
            ) by {
                if u == q {
                    assert(nxt as int == sp[q]);
                    assert(!lex_lt(key_at(ns0, sp[q]), kbv));
                    lemma_lex_lt_trichotomy(key_at(ns0, sp[q]), kbv);
                }
            }
        }
        let w = self.nodes.len();
        let mut fvec: Vec<usize> = Vec::new();
        let mut i: usize = 0;
        while i < new_level + 1
            invariant
                new_level <= MAX_LEVEL,
                i <= new_level + 1,
                fvec@.len() == i,
                forall|t: int| 0 <= t < i ==> #[trigger] fvec@[t] == 0,
            decreases new_level + 1 - i,
        {
            fvec.push(0);
            i = i + 1;
        }
        self.nodes.push(SkipNode { key: kb, value, level: new_level, forward: fvec });
        let ghost ns_base = self.nodes@;
        proof {
            // The push left every old node, and so the old structure, intact.
            assert(forall|i2: int| 0 <= i2 < w ==> ns_base[i2] == ns0[i2]);
            assert forall|t: int, lv: int|
                0 <= t < sp.len() && 0 <= lv <= lvl_at(ns_base, sp[t]) implies #[trigger] fwd(
                ns_base,
                sp[t],
                lv,
            ) == first_from(ns_base, sp, t + 1, lv) by {
                lemma_first_from_same(ns0, ns_base, sp, t + 1, lv);
                assert(fwd(ns0, sp[t], lv) == first_from(ns0, sp, t + 1, lv));
            }
            assert forall|lv: int| 0 <= lv <= MAX_LEVEL implies #[trigger] fwd(ns_base, 0, lv)
                == first_from(ns_base, sp, 0, lv) by {
                lemma_first_from_same(ns0, ns_base, sp, 0, lv);
                assert(ns_base[0] == ns0[0]);
                assert(fwd(ns0, 0, lv) == first_from(ns0, sp, 0, lv));
            }
            assert(list_inv(ns_base, sp, lvl_now));
            assert forall|l: int| 0 <= l <= lvl_now implies pred_ok(
                ns_base,
                sp,
                kbv,
                #[trigger] preds@[l] as int,
                l,
            ) by {
                assert(pred_ok(ns0, sp, kbv, preds@[l] as int, l));
                let x = preds@[l] as int;
                if x != 0 {
                    let t = choose|t: int|
                        0 <= t < sp.len() && #[trigger] sp[t] == x && lex_lt(
                            key_at(ns0, x),
                            kbv,
                        );
                    assert(sp[t] == x && lex_lt(key_at(ns_base, x), kbv));
                }
                assert(ns_base[x] == ns0[x]);
                assert(fwd(ns_base, x, l) == fwd(ns0, x, l));
                let j = fwd(ns0, x, l);
                if j != 0 {
                    // The successor is an old node, so its key is unchanged.
                    if x == 0 {
                        assert(j == first_from(ns0, sp, 0, l));
                        let tj = lemma_first_from_pos(ns0, sp, 0, l);
                        assert(0 < sp[tj] < w);
                        assert(key_at(ns_base, j) == key_at(ns0, j));
                    } else {
                        let t = choose|t: int|
                            0 <= t < sp.len() && #[trigger] sp[t] == x && lex_lt(
                                key_at(ns0, x),
                                kbv,
                            );
                        assert(0 <= l <= lvl_at(ns0, sp[t]));
                        assert(fwd(ns0, sp[t], l) == first_from(ns0, sp, t + 1, l));
                        let tj = lemma_first_from_pos(ns0, sp, t + 1, l);
                        assert(0 < sp[tj] < w);
                        assert(key_at(ns_base, j) == key_at(ns0, j));
                    }
                }
            }
        }
        self.splice_links(&preds, w, new_level, Ghost(sp), Ghost(kbv));
        proof {
            self.spine = Ghost(sp.insert(q, w as int));
            lemma_splice_inv(
                ns_base,
                self.nodes@,
                sp,
                self.spine@,
                lvl_now,
                preds@,
                w as int,
                new_level as int,
                q,
                kbv,
                value,
            );
            lemma_spine_map_same(ns0, ns_base, sp, 0);
            assert(spine_map_from(self.nodes@, self.spine@, 0) == spine_map_from(
                ns0,
                sp,
                0,
            ).insert(kbv, value));
            assert(spine_map_from(self.nodes@, self.spine@, 0).dom() =~= spine_map_from(
                ns0,
                sp,
                0,
            ).dom().insert(kbv));
            assert(spine_map_from(ns0, sp, 0).dom().insert(kbv).len() == spine_map_from(
                ns0,
                sp,
                0,
            ).dom().len() + 1);
        }
        self.size = self.size + 1;
        self.metrics.total_insertions = bump(self.metrics.total_insertions);
        self.metrics.insertion_cost = new_level as u32;
        proof {
            // The key's node sits at the insertion position with the drawn level.
            lemma_spine_distinct(self.nodes@, self.spine@);
            let sp2 = self.spine@;
            let ns2 = self.nodes@;
            let t = choose|t: int|
                0 <= t < sp2.len() && key_at(ns2, #[trigger] sp2[t]) == kbv;
            assert(key_at(ns2, sp2[q]) == kbv);
            assert(t == q);
            assert(self.level_of_key(kbv) == new_level);
        }
        self.update_metrics();
    }

    /// Unlink node `d` from every level where a recorded predecessor's
    /// forward index names it.
    fn unsplice_links(
        &mut self,
        preds: &Vec<usize>,
        d: usize,
        sp: Ghost<Seq<int>>,
        kbv: Ghost<Seq<u8>>,
        q: Ghost<int>,
    )
        requires
            list_inv(old(self).nodes@, sp@, old(self).level as int),
            old(self).spine@ == sp@,
            preds@.len() == old(self).level + 1,
            forall|l: int|
                0 <= l <= old(self).level ==> pred_ok(
                    old(self).nodes@,
                    sp@,
                    kbv@,
                    #[trigger] preds@[l] as int,
                    l,
                ) && (preds@[l] as int) < old(self).nodes@.len(),
            forall|l: int| 0 <= l <= old(self).level ==> (#[trigger] preds@[l] as int) != d as int,
            0 <= q@ < sp@.len(),
            sp@[q@] == d as int,
            key_at(old(self).nodes@, d as int) == kbv@,
        ensures
            unsplice_shape(
                old(self).nodes@,
                final(self).nodes@,
                preds@,
                d as int,
                old(self).level + 1,
            ),
            final(self).nodes@.len() == old(self).nodes@.len(),
            final(self).spine == old(self).spine,
            final(self).level == old(self).level,
            final(self).size == old(self).size,
            final(self).metrics == old(self).metrics,
    {
        let ghost ns_base = self.nodes@;
        let ghost lvl_now = self.level as int;
        proof {
            assert(0 < d as int && (d as int) < ns_base.len());
        }
        let mut lv: usize = 0;
        while lv <= self.level
            invariant
                unsplice_shape(ns_base, self.nodes@, preds@, d as int, lv as int),
                lv <= lvl_now + 1,
                list_inv(ns_base, sp@, lvl_now),
                forall|l: int|
                    0 <= l <= lvl_now ==> pred_ok(ns_base, sp@, kbv@, #[trigger] preds@[l] as int, l)
                        && (preds@[l] as int) < ns_base.len(),
                forall|l: int| 0 <= l <= lvl_now ==> (#[trigger] preds@[l] as int) != d as int,
                0 <= q@ < sp@.len(),
                sp@[q@] == d as int,
                0 < d as int && (d as int) < ns_base.len(),
                key_at(ns_base, d as int) == kbv@,
                self.nodes@.len() == ns_base.len(),
                preds@.len() == lvl_now + 1,
                self.level as int == lvl_now,
                self.spine == old(self).spine,
                self.size == old(self).size,
                self.metrics == old(self).metrics,
                ns_base == old(self).nodes@,
            decreases lvl_now + 1 - lv,
        {
            let pl = preds[lv];
            proof {
                assert(pred_ok(ns_base, sp@, kbv@, pl as int, lv as int));
                if pl as int != 0 {
                    assert(lvl_at(ns_base, pl as int) >= lv);
                } else {
                    assert(lvl_at(ns_base, 0) == MAX_LEVEL);
                }
                assert(self.nodes@[pl as int].forward@.len() == ns_base[pl as int].forward@.len());
                assert(fwd(self.nodes@, pl as int, lv as int) == fwd(ns_base, pl as int, lv as int));
            }
            let cur = self.nodes[pl].forward[lv];
            if cur == d {
                proof {
                    // The predecessor's successor is the node itself, so the
                    // node's level reaches this level.
                    if pl as int == 0 {
                        assert(fwd(ns_base, 0, lv as int) == first_from(ns_base, sp@, 0, lv as int));
                        let tj = lemma_first_from_pos(ns_base, sp@, 0, lv as int);
                        assert(lvl_at(ns_base, sp@[tj]) >= lv);
                        assert(sp@[tj] == d as int);
                    } else {
                        let p = choose|p: int|
                            0 <= p < sp@.len() && #[trigger] sp@[p] == pl as int && lex_lt(
                                key_at(ns_base, pl as int),
                                kbv@,
                            );
                        assert(0 <= lv <= lvl_at(ns_base, sp@[p]));
                        assert(fwd(ns_base, sp@[p], lv as int) == first_from(
                            ns_base,
                            sp@,
                            p + 1,
                            lv as int,
                        ));
                        let tj = lemma_first_from_pos(ns_base, sp@, p + 1, lv as int);
                        assert(lvl_at(ns_base, sp@[tj]) >= lv);
                        assert(sp@[tj] == d as int);
                    }
                    assert(lvl_at(ns_base, d as int) >= lv);
                    assert(self.nodes@[d as int].forward@.len() == ns_base[d as int].forward@.len());
                    assert(fwd(self.nodes@, d as int, lv as int) == fwd(
                        ns_base,
                        d as int,
                        lv as int,
                    ));
                }
                let after = self.nodes[d].forward[lv];
                let ghost mid = self.nodes@;
                self.nodes[pl].forward[lv] = after;
                proof {
                    lemma_unsplice_step(
                        ns_base,
                        mid,
                        self.nodes@,
                        preds@,
                        d as int,
                        lv as int,
                        after,
                    );
                }
            } else {
                proof {
                    assert(fwd(ns_base, pl as int, lv as int) != d as int);
                    assert(unsplice_shape(ns_base, self.nodes@, preds@, d as int, lv + 1));
                }
            }
            lv = lv + 1;
        }
    }

    /// Delete a key: unlink its node from every level it occupies and
    /// return the removed value, if the key was live.
    pub fn delete(&mut self, key: &str) -> (r: Option<u32>)
        requires
            old(self).inv(),
        ensures
            final(self).inv(),
            final(self)@ == old(self)@.remove(key.spec_bytes()),
            r == map_get(old(self)@, key.spec_bytes()),
            final(self).spec_level() == old(self).spec_level(),
            final(self).spec_metrics().total_insertions == old(
                self,
            ).spec_metrics().total_insertions,
            final(self).spec_metrics().total_searches == old(self).spec_metrics().total_searches,
            final(self).spec_metrics().search_comparisons == old(
                self,
            ).spec_metrics().search_comparisons,
            final(self).spec_metrics().insertion_cost == old(self).spec_metrics().insertion_cost,
            r is Some ==> {
                &&& final(self)@.len() == old(self)@.len() - 1
                &&& final(self).spec_metrics().max_level == final(self).spec_level()
                &&& (final(self)@.len() == 0 ==> final(self).spec_metrics().average_level == (
                Ratio { num: 0, den: 1 }))
                &&& (final(self)@.len() > 0 ==> final(self).spec_metrics().average_level.num
                    == final(self).levels_sum() && final(self).spec_metrics().average_level.den
                    == final(self)@.len())
            },
            r is None ==> final(self)@.len() == old(self)@.len() && final(self).spec_metrics()
                == old(self).spec_metrics(),
    {
        let kb = str_key(key);
        let ghost kbv = kb@;
        let (preds, _cnt) = self.walk(&kb);
        let ghost ns0 = self.nodes@;
        let ghost sp = self.spine@;
        let ghost lvl_now = self.level as int;
        let p0 = preds[0];
        let ghost mut q: int = 0;
        proof {
            q = lemma_pred0_decides(ns0, sp, lvl_now, kbv, p0 as int);
            lemma_spine_distinct(ns0, sp);
            lemma_spine_map(ns0, sp, 0);
            lemma_spine_distinct_idx(ns0, sp);
        }
        let nxt = self.nodes[p0].forward[0];
        let mut found = false;
        if nxt != 0 {
            let o = key_cmp(&self.nodes[nxt].key, &kb);
            match o {
                KeyOrder::Equal => {
                    found = true;
                },
                _ => {},
            }
        }
        if !found {
            proof {
                assert(old(self)@.remove(kbv) =~= old(self)@);
            }
            return None;
        }
        let d = nxt;
        proof {
            assert(d as int == sp[q]);
            assert(key_at(ns0, d as int) == kbv);
            assert forall|l: int| 0 <= l <= lvl_now implies (#[trigger] preds@[l] as int) != d
                as int by {
                if preds@[l] as int == d as int {
                    assert(pred_ok(ns0, sp, kbv, preds@[l] as int, l));
                    lemma_lex_lt_irreflexive(kbv);
                }
            }
        }
        let v = self.nodes[d].value;
        self.unsplice_links(&preds, d, Ghost(sp), Ghost(kbv), Ghost(q));
        proof {
            self.spine = Ghost(sp.remove(q));
            lemma_unsplice_inv(
                ns0,
                self.nodes@,
                sp,
                self.spine@,
                lvl_now,
                preds@,
                d as int,
                q,
                kbv,
            );
            assert(spine_map_from(self.nodes@, self.spine@, 0).dom() =~= spine_map_from(
                ns0,
                sp,
                0,
            ).dom().remove(kbv));
            assert(spine_map_from(ns0, sp, 0).dom().remove(kbv).len() == spine_map_from(
                ns0,
                sp,
                0,
            ).dom().len() - 1);
        }
        self.size = self.size - 1;
        self.update_metrics();
        Some(v)
    }

    /// The keys currently stored, in ascending lexicographic byte order.
    ///
    /// The sequence is strictly ascending and lists exactly the keys of the
    /// abstract map: the level-0 chain links all live nodes in key order.
    pub fn keys(&self) -> (r: Vec<Vec<u8>>)
        requires
            self.inv(),
        ensures
            r@.len() == self@.len(),
            forall|i: int, j: int| 0 <= i < j < r@.len() ==> lex_lt(r@[i]@, r@[j]@),
            forall|i: int| 0 <= i < r@.len() ==> self@.contains_key((#[trigger] r@[i])@),
            forall|k: Seq<u8>| #[trigger]
                self@.contains_key(k) ==> exists|i: int|
                    0 <= i < r@.len() && (#[trigger] r@[i])@ == k,
    {
        let ghost ns = self.nodes@;
        let ghost sp = self.spine@;
        proof {
            lemma_spine_distinct(ns, sp);
            lemma_spine_map(ns, sp, 0);
        }
        let mut out: Vec<Vec<u8>> = Vec::new();
        let mut cur = self.nodes[0].forward[0];
        let ghost mut pos: int = 0;
        proof {
            assert(fwd(ns, 0, 0) == first_from(ns, sp, 0, 0));
        }
        while cur != 0
            invariant
                self.inv(),
                ns == self.nodes@,
                sp == self.spine@,
                0 <= pos <= sp.len(),
                cur as int == first_from(ns, sp, pos, 0),
                cur as int == (if pos < sp.len() {
                    sp[pos]
                } else {
                    0
                }),
                out@.len() == pos,
                forall|i: int| 0 <= i < pos ==> (#[trigger] out@[i])@ == key_at(ns, sp[i]),
            decreases sp.len() - pos,
        {
            proof {
                assert(0 < sp[pos] < ns.len());
                assert(fwd(ns, sp[pos], 0) == first_from(ns, sp, pos + 1, 0));
            }
            out.push(clone_key(&self.nodes[cur].key));
            cur = self.nodes[cur].forward[0];
            proof {
                pos = pos + 1;
                if pos < sp.len() {
                    assert(first_from(ns, sp, pos, 0) == sp[pos]);
                }
            }
        }
        proof {
            assert(pos == sp.len()) by {
                if pos < sp.len() {
                    assert(sp[pos] != 0);
                }
            }
            assert forall|k: Seq<u8>| #[trigger] self@.contains_key(k) implies exists|i: int|
                0 <= i < out@.len() && (#[trigger] out@[i])@ == k by {
                let u = choose|u: int| 0 <= u < sp.len() && key_at(ns, #[trigger] sp[u]) == k;
                assert((out@[u])@ == k);
            }
        }
        out
    }

    /// Draw a level for a new node: the number of heads before the first
    /// tail of a sequence of fair coin flips, capped at the maximum.
    fn random_level() -> (lv: usize)
        ensures
            lv <= MAX_LEVEL,
    {
        let mut level: usize = 0;
        while level < MAX_LEVEL
            invariant
                level <= MAX_LEVEL,
            decreases MAX_LEVEL - level,
        {
            let heads: bool = rand::random();
            if !heads {
                return level;
            }
            level = level + 1;
        }
        level
    }
}

/// The sum of node levels along the spine from position `t` on.
spec fn spine_levels_from(ns: Seq<SkipNode>, sp: Seq<int>, t: int) -> int
    decreases sp.len() - t,
{
    if t < 0 || t >= sp.len() {
        0
    } else {
        lvl_at(ns, sp[t]) + spine_levels_from(ns, sp, t + 1)
    }
}

/// A strictly sorted spine mentions each key, and so each node, once.
proof fn lemma_spine_distinct(ns: Seq<SkipNode>, sp: Seq<int>)
    requires
        forall|t1: int, t2: int|
            0 <= t1 < t2 < sp.len() ==> lex_lt(
                key_at(ns, #[trigger] sp[t1]),
                key_at(ns, #[trigger] sp[t2]),
            ),
    ensures
        forall|t1: int, t2: int|
            0 <= t1 < t2 < sp.len() ==> key_at(ns, #[trigger] sp[t1]) != key_at(
                ns,
                #[trigger] sp[t2],
            ),
{
    assert forall|t1: int, t2: int|
        0 <= t1 < t2 < sp.len() implies key_at(ns, #[trigger] sp[t1]) != key_at(
        ns,
        #[trigger] sp[t2],
    ) by {
        lemma_lex_lt_trichotomy(key_at(ns, sp[t1]), key_at(ns, sp[t2]));
    }
}

} // verus!
