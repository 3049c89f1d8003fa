//! A fixed-capacity hash table with open addressing.
//!
//! Linear probing: a key's probe sequence starts at its hash modulo the
//! capacity and advances one slot at a time, wrapping around. A search stops
//! at an empty slot but passes through tombstones, so a delete may only turn
//! an occupied slot into a tombstone, never back into an empty one. An
//! insert installs a new key in the first tombstone of its probe sequence if
//! the sequence holds one before its first empty slot, otherwise in that
//! empty slot; this reuse of tombstones keeps probe sequences short and lets
//! a key be installed whenever the table has a free slot.

use vstd::prelude::*;

verus! {

use crate::hashing::{hash_of, hash_key};
use crate::key::{KeyOrder, key_cmp, str_key};
use crate::laws::map_get;
use crate::metrics::{Ratio, spec_bump, spec_sat_add, bump, sat_add, umax, umax32, cap32, clip};
use vstd::set_lib::{set_int_range, lemma_int_range, lemma_map_size};
use vstd::string::StringSliceAdditionalSpecFns;

/// One slot of the table.
enum Slot {
    Empty,
    Occupied { key: Vec<u8>, value: u32 },
    Tombstone,
}

/// The key of an occupied slot.
spec fn slot_key(s: Slot) -> Seq<u8> {
    match s {
        Slot::Occupied { key, value } => key@,
        _ => Seq::empty(),
    }
}

/// The value of an occupied slot.
spec fn slot_val(s: Slot) -> u32 {
    match s {
        Slot::Occupied { key, value } => value,
        _ => 0,
    }
}

/// The slot holds this key, live.
spec fn occ_with(s: Slot, k: Seq<u8>) -> bool {
    s is Occupied && slot_key(s) == k
}

/// The `t`-th slot of a probe sequence that starts at `start`.
spec fn pidx(start: int, t: int, cap: int) -> int {
    if start + t < cap {
        start + t
    } else {
        start + t - cap
    }
}

/// How many probe steps lead from `start` to slot `i`.
spec fn dist(start: int, i: int, cap: int) -> int {
    if i >= start {
        i - start
    } else {
        i + cap - start
    }
}

/// Where a key's probe sequence starts in a table of this capacity.
spec fn start_at(cap: u32, k: Seq<u8>) -> int {
    (hash_of(k) % (cap as u64)) as int
}

/// The `t`-th slot of a key's probe sequence.
spec fn pslot(cap: u32, k: Seq<u8>, t: int) -> int {
    pidx(start_at(cap, k), t, cap as int)
}

/// The slot where a live key resides.
spec fn slot_in(table: Seq<Slot>, cap: u32, k: Seq<u8>) -> int {
    choose|i: int| 0 <= i < cap as int && occ_with(table[i], k)
}

/// How many probe steps reach a live key's slot.
spec fn dist_in(table: Seq<Slot>, cap: u32, k: Seq<u8>) -> int {
    dist(start_at(cap, k), slot_in(table, cap, k), cap as int)
}

/// The probe sequence passed this slot while walking for `k`: it is
/// occupied by some other key, or a tombstone.
spec fn nonmatch_in(table: Seq<Slot>, cap: u32, k: Seq<u8>, t: int) -> bool {
    let s = table[pslot(cap, k, t)];
    (s is Occupied && slot_key(s) != k) || s is Tombstone
}

/// The slot `t` steps into `k`'s probe sequence is occupied by another key.
spec fn occupied_other_in(table: Seq<Slot>, cap: u32, k: Seq<u8>, t: int) -> bool {
    let s = table[pslot(cap, k, t)];
    s is Occupied && slot_key(s) != k
}

/// How many probe steps a walk for `k` takes from step `t` on before it
/// stops at the first empty or matching slot; the full capacity when the
/// sequence holds neither.
spec fn stop_steps_from(table: Seq<Slot>, cap: u32, k: Seq<u8>, t: int) -> nat
    decreases cap as int - t,
{
    if t < 0 || t >= cap as int {
        cap as nat
    } else if table[pslot(cap, k, t)] is Empty || occ_with(table[pslot(cap, k, t)], k) {
        t as nat
    } else {
        stop_steps_from(table, cap, k, t + 1)
    }
}

/// The probe steps of a full walk for `k`.
spec fn stop_steps(table: Seq<Slot>, cap: u32, k: Seq<u8>) -> nat {
    stop_steps_from(table, cap, k, 0)
}

/// A walk that passed `p` slots without an empty slot or a match, and then
/// met one (or ran out), stopped after exactly `p` steps.
proof fn lemma_stop_steps_is(table: Seq<Slot>, cap: u32, k: Seq<u8>, start: int, p: int)
    requires
        0 <= start <= p <= cap as int,
        forall|t: int| start <= t < p ==> #[trigger] nonmatch_in(table, cap, k, t),
        p < cap as int ==> (table[pslot(cap, k, p)] is Empty || occ_with(
            table[pslot(cap, k, p)],
            k,
        )),
    ensures
        stop_steps_from(table, cap, k, start) == p,
    decreases p - start,
{
    if start < p {
        assert(nonmatch_in(table, cap, k, start));
        lemma_stop_steps_is(table, cap, k, start + 1, p);
    }
}

/// Structural soundness of a table against its abstract map: slots agree
/// with the map, a live key occupies exactly one slot, and every live key's
/// probe path up to its slot is free of empty slots (so a search that stops
/// at the first empty slot cannot miss it).
spec fn table_inv(table: Seq<Slot>, cap: u32, model: Map<Seq<u8>, u32>) -> bool {
    &&& cap >= 1
    &&& table.len() == cap as nat
    &&& (forall|i: int|
        0 <= i < cap as int && (#[trigger] table[i]) is Occupied ==> model.contains_key(
            slot_key(table[i]),
        ) && model[slot_key(table[i])] == slot_val(table[i]))
    &&& (forall|k: Seq<u8>| #[trigger]
        model.contains_key(k) ==> exists|i: int| 0 <= i < cap as int && occ_with(table[i], k))
    &&& (forall|i: int, j: int|
        0 <= i < cap as int && 0 <= j < cap as int && (#[trigger] table[i]) is Occupied && (
        #[trigger] table[j]) is Occupied && slot_key(table[i]) == slot_key(table[j]) ==> i == j)
    &&& (forall|k: Seq<u8>, t: int|
        model.contains_key(k) && 0 <= t < dist_in(table, cap, k) ==> !((#[trigger] table[pslot(
            cap,
            k,
            t,
        )]) is Empty))
}

/// A walk that passed `probe` slots without a match and then saw an empty
/// slot (or ran through the whole table) proves the key absent.
proof fn lemma_absent(table: Seq<Slot>, cap: u32, model: Map<Seq<u8>, u32>, k: Seq<u8>, probe: int)
    requires
        table_inv(table, cap, model),
        0 <= probe <= cap as int,
        forall|t: int| 0 <= t < probe ==> #[trigger] nonmatch_in(table, cap, k, t),
        probe < cap as int ==> table[pslot(cap, k, probe)] is Empty,
    ensures
        !model.contains_key(k),
{
    if model.contains_key(k) {
        let i = slot_in(table, cap, k);
        assert(0 <= i < cap as int && occ_with(table[i], k));
        let d = dist_in(table, cap, k);
        assert(0 <= d < cap as int);
        assert(pslot(cap, k, d) == i);
        if d < probe {
            assert(nonmatch_in(table, cap, k, d));
            assert(false);
        } else if d == probe {
            assert(false);
        } else {
            assert(!(table[pslot(cap, k, probe)] is Empty));
            assert(false);
        }
    }
}

/// A full walk without match, empty slot, or tombstone means every slot
/// holds a distinct live key, so the table carries `cap` live entries.
proof fn lemma_full(table: Seq<Slot>, cap: u32, model: Map<Seq<u8>, u32>, k: Seq<u8>)
    requires
        table_inv(table, cap, model),
        model.dom().finite(),
        forall|t: int| 0 <= t < cap as int ==> #[trigger] occupied_other_in(table, cap, k, t),
    ensures
        model.len() >= cap,
{
    let capi = cap as int;
    assert forall|i: int| 0 <= i < capi implies (#[trigger] table[i]) is Occupied by {
        let t = dist(start_at(cap, k), i, capi);
        assert(0 <= t < capi);
        assert(occupied_other_in(table, cap, k, t));
        assert(pslot(cap, k, t) == i);
    }
    let slots = set_int_range(0, capi);
    lemma_int_range(0, capi);
    let f = |i: int| slot_key(table[i]);
    let keys = slots.map(f);
    assert(vstd::relations::injective_on(f, slots));
    lemma_map_size(slots, keys, f);
    assert(keys.subset_of(model.dom())) by {
        assert forall|kk: Seq<u8>| keys.contains(kk) implies model.dom().contains(kk) by {
            let i = choose|i: int| slots.contains(i) && f(i) == kk;
            assert(table[i] is Occupied);
        }
    }
    vstd::set_lib::lemma_len_subset(keys, model.dom());
}

/// Length of the run of non-empty slots that ends the sequence.
spec fn end_run(s: Seq<Slot>) -> nat
    decreases s.len(),
{
    if s.len() == 0 {
        0
    } else if s.last() is Empty {
        0
    } else {
        end_run(s.drop_last()) + 1
    }
}

/// Length of the longest run of consecutive non-empty slots.
spec fn max_run(s: Seq<Slot>) -> nat
    decreases s.len(),
{
    if s.len() == 0 {
        0
    } else {
        let m = max_run(s.drop_last());
        let e = end_run(s);
        if e > m {
            e
        } else {
            m
        }
    }
}

/// Two tables whose slots are empty in exactly the same places have the
/// same run structure.
proof fn lemma_runs_equal(a: Seq<Slot>, b: Seq<Slot>)
    requires
        a.len() == b.len(),
        forall|i: int| 0 <= i < a.len() ==> ((#[trigger] a[i]) is Empty <==> b[i] is Empty),
    ensures
        end_run(a) == end_run(b),
        max_run(a) == max_run(b),
    decreases a.len(),
{
    if a.len() > 0 {
        assert(forall|i: int|
            0 <= i < a.drop_last().len() ==> a.drop_last()[i] == a[i] && b.drop_last()[i] == b[i]);
        lemma_runs_equal(a.drop_last(), b.drop_last());
        assert(a.last() == a[a.len() - 1]);
        assert(b.last() == b[a.len() - 1]);
    }
}

/// Metrics collected while an `OpenAddressingHashTable` is used.
#[derive(Clone, Copy, Debug, PartialEq, Eq, Structural)]
pub struct OpenAddressingMetrics {
    /// Insert calls, updates included.
    pub total_insertions: u32,
    /// Probe steps beyond the first slot, accumulated over inserts and
    /// searches.
    pub total_probes: u32,
    /// Longest single insert probe sequence observed.
    pub max_probe_length: u32,
    /// Live size divided by capacity, as of the last size change.
    pub load_factor: Ratio,
    /// Longest run of consecutive non-empty slots divided by capacity,
    /// refreshed with the load factor.
    pub clustering_factor: Ratio,
    /// Deletions performed.
    pub tombstone_count: u32,
}

/// A fixed-capacity open-addressing hash table with linear probing and
/// tombstone deletion.
pub struct OpenAddressingHashTable {
    table: Vec<Slot>,
    size: u32,
    capacity: u32,
    metrics: OpenAddressingMetrics,
    model: Ghost<Map<Seq<u8>, u32>>,
}

impl View for OpenAddressingHashTable {
    type V = Map<Seq<u8>, u32>;

    closed spec fn view(&self) -> Map<Seq<u8>, u32> {
        self.model@
    }
}

impl OpenAddressingHashTable {
    /// The capacity fixed at construction.
    pub closed spec fn spec_capacity(&self) -> u32 {
        self.capacity
    }

    /// The metric record as last written.
    pub closed spec fn spec_metrics(&self) -> OpenAddressingMetrics {
        self.metrics
    }

    /// The longest run of consecutive non-empty slots in the table.
    pub closed spec fn longest_run(&self) -> nat {
        max_run(self.table@)
    }

    /// How many probe steps beyond the first slot a walk for a key takes
    /// before stopping at the first empty or matching slot; the capacity
    /// when the probe sequence holds neither.
    pub closed spec fn probe_steps(&self, k: Seq<u8>) -> nat {
        stop_steps(self.table@, self.capacity, k)
    }

    /// Structural soundness, plus: the recorded size is the cardinality of
    /// the finite abstract map.
    pub closed spec fn inv(&self) -> bool {
        &&& table_inv(self.table@, self.capacity, self.model@)
        &&& self.model@.dom().finite()
        &&& self.size == self.model@.len()
    }

    /// Create an empty table with the given capacity.
    pub fn new(capacity: u32) -> (t: OpenAddressingHashTable)
        requires
            capacity >= 1,
        ensures
            t.inv(),
            t@ == Map::<Seq<u8>, u32>::empty(),
            t.spec_capacity() == capacity,
            t.spec_metrics() == (OpenAddressingMetrics {
                total_insertions: 0,
                total_probes: 0,
                max_probe_length: 0,
                load_factor: Ratio { num: 0, den: capacity as u64 },
                clustering_factor: Ratio { num: 0, den: capacity as u64 },
                tombstone_count: 0,
            }),
    {
        let mut table: Vec<Slot> = Vec::new();
        let mut i: usize = 0;
        let cap = capacity as usize;
        while i < cap
            invariant
                i <= cap,
                table@.len() == i,
                forall|t: int| 0 <= t < i ==> (#[trigger] table@[t]) is Empty,
            decreases cap - i,
        {
            table.push(Slot::Empty);
            i = i + 1;
        }
        OpenAddressingHashTable {
            table,
            size: 0,
            capacity,
            metrics: OpenAddressingMetrics {
                total_insertions: 0,
                total_probes: 0,
                max_probe_length: 0,
                load_factor: Ratio { num: 0, den: capacity as u64 },
                clustering_factor: Ratio { num: 0, den: capacity as u64 },
                tombstone_count: 0,
            },
            model: Ghost(Map::empty()),
        }
    }

    /// Refresh the load-factor and clustering metrics.
    fn update_load_factor(&mut self)
        requires
            old(self).inv(),
        ensures
            final(self).inv(),
            final(self)@ == old(self)@,
            final(self).table == old(self).table,
            final(self).size == old(self).size,
            final(self).capacity == old(self).capacity,
            final(self).spec_metrics().load_factor == (Ratio {
                num: old(self)@.len() as u64,
                den: old(self).spec_capacity() as u64,
            }),
            final(self).spec_metrics().clustering_factor == (Ratio {
                num: old(self).longest_run() as u64,
                den: old(self).spec_capacity() as u64,
            }),
            final(self).spec_metrics().total_insertions == old(
                self,
            ).spec_metrics().total_insertions,
            final(self).spec_metrics().total_probes == old(self).spec_metrics().total_probes,
            final(self).spec_metrics().max_probe_length == old(
                self,
            ).spec_metrics().max_probe_length,
            final(self).spec_metrics().tombstone_count == old(self).spec_metrics().tombstone_count,
    {
        self.metrics.load_factor = Ratio { num: self.size as u64, den: self.capacity as u64 };
        let ghost snap = *self;
        let cap = self.capacity as usize;
        let mut consecutive: usize = 0;
        let mut max_c: usize = 0;
        let mut i: usize = 0;
        proof {
            assert(self.table@.take(0) =~= Seq::<Slot>::empty());
        }
        while i < cap
            invariant
                *self == snap,
                i <= cap,
                cap == self.capacity as nat,
                self.table@.len() == cap,
                consecutive <= i,
                consecutive == end_run(self.table@.take(i as int)),
                max_c == max_run(self.table@.take(i as int)),
            decreases cap - i,
        {
            proof {
                assert(self.table@.take(i + 1).drop_last() =~= self.table@.take(i as int));
                assert(self.table@.take(i + 1).last() == self.table@[i as int]);
            }
            let is_empty_slot = match &self.table[i] {
                Slot::Empty => true,
                _ => false,
            };
            if is_empty_slot {
                consecutive = 0;
            } else {
                consecutive = consecutive + 1;
            }
            if consecutive > max_c {
                max_c = consecutive;
            }
            i = i + 1;
        }
        proof {
            assert(self.table@.take(cap as int) =~= self.table@);
        }
        let run64: u64 = max_c as u64;
        self.metrics.clustering_factor = Ratio { num: run64, den: self.capacity as u64 };
    }

    /// Walk a key's probe sequence. Returns the matching slot if the key is
    /// live, how many probe steps were taken, and whether the walk ran
    /// through the whole table without meeting an empty slot.
    fn find_slot(&self, kb: &Vec<u8>) -> (r: (Option<usize>, usize, bool))
        requires
            self.inv(),
        ensures
            match r.0 {
                Some(i) => self@.contains_key(kb@) && (i as int) < self.spec_capacity() as int
                    && occ_with(self.table@[i as int], kb@) && self@[kb@] == slot_val(
                    self.table@[i as int],
                ),
                None => !self@.contains_key(kb@),
            },
            r.1 <= self.spec_capacity(),
            r.0 is Some ==> r.1 < self.spec_capacity(),
            r.1 == stop_steps(self.table@, self.spec_capacity(), kb@),
            r.2 == (stop_steps(self.table@, self.spec_capacity(), kb@) == self.spec_capacity()),
    {
        let cap = self.capacity as usize;
        let h = hash_key(kb);
        let start = (h % self.capacity as u64) as usize;
        proof {
            assert(start as int == start_at(self.capacity, kb@));
        }
        let mut idx = start;
        let mut probe: usize = 0;
        while probe < cap
            invariant
                self.inv(),
                cap == self.capacity as nat,
                start as int == start_at(self.capacity, kb@),
                probe <= cap,
                idx as int == pslot(self.capacity, kb@, probe as int),
                idx < cap,
                forall|t: int|
                    0 <= t < probe ==> #[trigger] nonmatch_in(self.table@, self.capacity, kb@, t),
            decreases cap - probe,
        {
            match &self.table[idx] {
                Slot::Empty => {
                    proof {
                        lemma_absent(self.table@, self.capacity, self.model@, kb@, probe as int);
                        lemma_stop_steps_is(self.table@, self.capacity, kb@, 0, probe as int);
                    }
                    return (None, probe, false);
                },
                Slot::Occupied { key, value } => {
                    let is_eq = match key_cmp(key, kb) {
                        KeyOrder::Equal => true,
                        _ => false,
                    };
                    if is_eq {
                        proof {
                            assert(occ_with(self.table@[idx as int], kb@));
                            lemma_stop_steps_is(self.table@, self.capacity, kb@, 0, probe as int);
                        }
                        return (Some(idx), probe, false);
                    }
                },
                Slot::Tombstone => {},
            }
            proof {
                assert(nonmatch_in(self.table@, self.capacity, kb@, probe as int));
            }
            probe = probe + 1;
            idx = if idx + 1 == cap {
                0
            } else {
                idx + 1
            };
        }
        proof {
            lemma_absent(self.table@, self.capacity, self.model@, kb@, cap as int);
            lemma_stop_steps_is(self.table@, self.capacity, kb@, 0, cap as int);
        }
        (None, cap, true)
    }

    /// Install a new key in an empty or tombstone slot `p` that sits `d`
    /// probe steps into the key's sequence, with every earlier slot
    /// occupied by another key or a tombstone.
    fn install_new(&mut self, kb: Vec<u8>, value: u32, p: usize, d: Ghost<int>)
        requires
            old(self).inv(),
            !old(self)@.contains_key(kb@),
            old(self)@.len() < old(self).spec_capacity(),
            (p as int) < old(self).spec_capacity() as int,
            !(old(self).table@[p as int] is Occupied),
            0 <= d@ < old(self).spec_capacity() as int,
            p as int == pslot(old(self).spec_capacity(), kb@, d@),
            forall|t: int|
                0 <= t < d@ ==> #[trigger] nonmatch_in(
                    old(self).table@,
                    old(self).spec_capacity(),
                    kb@,
                    t,
                ),
        ensures
            final(self).inv(),
            final(self)@ == old(self)@.insert(kb@, value),
            final(self)@.len() == old(self)@.len() + 1,
            final(self).capacity == old(self).capacity,
            final(self).spec_metrics() == old(self).spec_metrics(),
    {
        let ghost kbv = kb@;
        let ghost old_table = self.table@;
        let ghost cap = self.capacity;
        self.table[p] = Slot::Occupied { key: kb, value };
        proof {
            assert(self.size < self.capacity);
        }
        self.size = self.size + 1;
        proof {
            self.model = Ghost(self.model@.insert(kbv, value));
            let capi = cap as int;
            let table = self.table@;
            let model = self.model@;
            assert(table =~= old_table.update(p as int, table[p as int]));
            assert(occ_with(table[p as int], kbv));
            assert(forall|i: int| 0 <= i < capi && i != p ==> table[i] == old_table[i]);
            // Every occupied slot still reports into the map.
            assert forall|i: int|
                0 <= i < capi && (#[trigger] table[i]) is Occupied implies model.contains_key(
                slot_key(table[i]),
            ) && model[slot_key(table[i])] == slot_val(table[i]) by {
                if i != p {
                    assert(table[i] == old_table[i]);
                    assert(old_table[i] is Occupied);
                    assert(old(self).model@.contains_key(slot_key(old_table[i])));
                    assert(slot_key(old_table[i]) != kbv);
                }
            }
            // A live key still occupies only one slot.
            assert forall|i: int, j: int|
                0 <= i < capi && 0 <= j < capi && (#[trigger] table[i]) is Occupied && (
                #[trigger] table[j]) is Occupied && slot_key(table[i]) == slot_key(
                table[j],
            ) implies i == j by {
                if i != j {
                    if i == p {
                        assert(old(self).model@.contains_key(slot_key(old_table[j])));
                        assert(slot_key(old_table[j]) != kbv);
                    } else if j == p {
                        assert(old(self).model@.contains_key(slot_key(old_table[i])));
                        assert(slot_key(old_table[i]) != kbv);
                    } else {
                        assert(table[i] == old_table[i] && table[j] == old_table[j]);
                    }
                }
            }
            // Every live key still has a slot.
            assert forall|k2: Seq<u8>| #[trigger]
                model.contains_key(k2) implies exists|i: int|
                0 <= i < capi && occ_with(table[i], k2) by {
                if k2 == kbv {
                    assert(occ_with(table[p as int], k2));
                } else {
                    assert(old(self).model@.contains_key(k2));
                    let i = choose|i: int| 0 <= i < capi && occ_with(old_table[i], k2);
                    assert(i != p);
                    assert(occ_with(table[i], k2));
                }
            }
            // Probe paths stay free of empty slots.
            assert forall|k2: Seq<u8>, t: int|
                model.contains_key(k2) && 0 <= t < dist_in(table, cap, k2) implies !((
            #[trigger] table[pslot(cap, k2, t)]) is Empty) by {
                let s2 = slot_in(table, cap, k2);
                assert(0 <= s2 < capi && occ_with(table[s2], k2));
                if k2 == kbv {
                    assert(s2 == p);
                    assert(dist_in(table, cap, k2) == d@);
                    assert(nonmatch_in(old_table, cap, k2, t));
                    assert(!(old_table[pslot(cap, k2, t)] is Empty));
                } else {
                    assert(old(self).model@.contains_key(k2));
                    assert(occ_with(old_table[s2], k2));
                    assert(slot_in(old_table, cap, k2) == s2);
                    assert(!(old_table[pslot(cap, k2, t)] is Empty));
                }
            }
            assert(model.dom() =~= old(self).model@.dom().insert(kbv));
        }
    }

    /// Overwrite the value of the live key at slot `p`.
    fn overwrite(&mut self, kb: Vec<u8>, value: u32, p: usize)
        requires
            old(self).inv(),
            (p as int) < old(self).spec_capacity() as int,
            occ_with(old(self).table@[p as int], kb@),
        ensures
            final(self).inv(),
            final(self)@ == old(self)@.insert(kb@, value),
            final(self)@.len() == old(self)@.len(),
            final(self).capacity == old(self).capacity,
            final(self).size == old(self).size,
            final(self).spec_metrics() == old(self).spec_metrics(),
            final(self).longest_run() == old(self).longest_run(),
    {
        let ghost kbv = kb@;
        let ghost old_table = self.table@;
        let ghost cap = self.capacity;
        self.table[p] = Slot::Occupied { key: kb, value };
        proof {
            self.model = Ghost(self.model@.insert(kbv, value));
            let capi = cap as int;
            let table = self.table@;
            let model = self.model@;
            assert(table =~= old_table.update(p as int, table[p as int]));
            assert(occ_with(table[p as int], kbv));
            assert(forall|i: int| 0 <= i < capi && i != p ==> table[i] == old_table[i]);
            assert(old(self).model@.contains_key(kbv));
            assert forall|i: int|
                0 <= i < capi && (#[trigger] table[i]) is Occupied implies model.contains_key(
                slot_key(table[i]),
            ) && model[slot_key(table[i])] == slot_val(table[i]) by {
                if i != p {
                    assert(table[i] == old_table[i]);
                    assert(old_table[i] is Occupied);
                    assert(old(self).model@.contains_key(slot_key(old_table[i])));
                    assert(slot_key(old_table[i]) != kbv) by {
                        assert(occ_with(old_table[p as int], kbv));
                    }
                }
            }
            assert forall|i: int, j: int|
                0 <= i < capi && 0 <= j < capi && (#[trigger] table[i]) is Occupied && (
                #[trigger] table[j]) is Occupied && slot_key(table[i]) == slot_key(
                table[j],
            ) implies i == j by {
                if i != j {
                    if i == p {
                        assert(old_table[j] is Occupied && slot_key(old_table[j]) == kbv);
                        assert(occ_with(old_table[p as int], kbv));
                    } else if j == p {
                        assert(old_table[i] is Occupied && slot_key(old_table[i]) == kbv);
                        assert(occ_with(old_table[p as int], kbv));
                    } else {
                        assert(table[i] == old_table[i] && table[j] == old_table[j]);
                    }
                }
            }
            assert forall|k2: Seq<u8>| #[trigger]
                model.contains_key(k2) implies exists|i: int|
                0 <= i < capi && occ_with(table[i], k2) by {
                if k2 == kbv {
                    assert(occ_with(table[p as int], k2));
                } else {
                    assert(old(self).model@.contains_key(k2));
                    let i = choose|i: int| 0 <= i < capi && occ_with(old_table[i], k2);
                    assert(i != p);
                    assert(occ_with(table[i], k2));
                }
            }
            assert forall|k2: Seq<u8>, t: int|
                model.contains_key(k2) && 0 <= t < dist_in(table, cap, k2) implies !((
            #[trigger] table[pslot(cap, k2, t)]) is Empty) by {
                let s2 = slot_in(table, cap, k2);
                assert(0 <= s2 < capi && occ_with(table[s2], k2));
                assert(old(self).model@.contains_key(k2));
                if k2 == kbv {
                    assert(occ_with(old_table[p as int], k2));
                    assert(s2 == p);
                    assert(slot_in(old_table, cap, k2) == p);
                    assert(!(old_table[pslot(cap, k2, t)] is Empty));
                } else {
                    assert(occ_with(old_table[s2], k2));
                    assert(slot_in(old_table, cap, k2) == s2);
                    assert(!(old_table[pslot(cap, k2, t)] is Empty));
                }
            }
            assert(model.dom() =~= old(self).model@.dom());
            assert(max_run(table) == max_run(old_table)) by {
                lemma_runs_equal(old_table, table);
            }
        }
    }

    /// Insert or update a key-value pair.
    ///
    /// An update overwrites in place. A new key is installed in the first
    /// tombstone of its probe sequence, or in the first empty slot if the
    /// sequence holds no tombstone before it. The operation requires a
    /// table that is not full of other live keys; a full table has no slot
    /// that could ever hold the key.
    pub fn insert(&mut self, key: String, value: u32)
        requires
            old(self).inv(),
            old(self)@.contains_key(vstd::utf8::encode_utf8(key@)) || old(self)@.len() < old(
                self,
            ).spec_capacity(),
        ensures
            final(self).inv(),
            final(self).spec_capacity() == old(self).spec_capacity(),
            final(self)@ == old(self)@.insert(vstd::utf8::encode_utf8(key@), value),
            final(self).spec_metrics().total_insertions == spec_bump(
                old(self).spec_metrics().total_insertions,
            ),
            final(self).spec_metrics().total_probes == spec_sat_add(
                old(self).spec_metrics().total_probes,
                old(self).probe_steps(vstd::utf8::encode_utf8(key@)),
            ),
            final(self).spec_metrics().tombstone_count == old(self).spec_metrics().tombstone_count,
            old(self)@.contains_key(vstd::utf8::encode_utf8(key@)) ==> {
                &&& final(self)@.len() == old(self)@.len()
                &&& final(self).spec_metrics().max_probe_length == old(
                    self,
                ).spec_metrics().max_probe_length
                &&& final(self).spec_metrics().load_factor == old(self).spec_metrics().load_factor
                &&& final(self).spec_metrics().clustering_factor == old(
                    self,
                ).spec_metrics().clustering_factor
            },
            !old(self)@.contains_key(vstd::utf8::encode_utf8(key@)) ==> {
                &&& final(self)@.len() == old(self)@.len() + 1
                &&& final(self).spec_metrics().max_probe_length == umax32(
                    old(self).spec_metrics().max_probe_length,
                    cap32(old(self).probe_steps(vstd::utf8::encode_utf8(key@))),
                )
                &&& final(self).spec_metrics().load_factor == (Ratio {
                    num: final(self)@.len() as u64,
                    den: final(self).spec_capacity() as u64,
                })
                &&& final(self).spec_metrics().clustering_factor == (Ratio {
                    num: final(self).longest_run() as u64,
                    den: final(self).spec_capacity() as u64,
                })
            },
    {
        let kb = str_key(key.as_str());
        let ghost kbv = kb@;
        let cap = self.capacity as usize;
        let h = hash_key(&kb);
        let start = (h % self.capacity as u64) as usize;
        proof {
            assert(start as int == start_at(self.capacity, kbv));
        }
        let mut idx = start;
        let mut probe: usize = 0;
        let mut first_ts: Option<usize> = None;
        let ghost mut ts_step: int = 0;
        while probe < cap
            invariant
                *self == *old(self),
                self.inv(),
                old(self)@.contains_key(kbv) || old(self)@.len() < old(self).spec_capacity(),
                cap == self.capacity as nat,
                start as int == start_at(self.capacity, kbv),
                kbv == kb@,
                kbv == vstd::utf8::encode_utf8(key@),
                probe <= cap,
                idx as int == pslot(self.capacity, kbv, probe as int),
                idx < cap,
                forall|t: int|
                    0 <= t < probe ==> #[trigger] nonmatch_in(self.table@, self.capacity, kbv, t),
                first_ts is None ==> forall|t: int|
                    0 <= t < probe ==> #[trigger] occupied_other_in(
                        self.table@,
                        self.capacity,
                        kbv,
                        t,
                    ),
                first_ts matches Some(p) ==> 0 <= ts_step < probe && p as int == pslot(
                    self.capacity,
                    kbv,
                    ts_step,
                ) && p < cap && self.table@[p as int] is Tombstone && (forall|t: int|
                    0 <= t < ts_step ==> #[trigger] occupied_other_in(
                        self.table@,
                        self.capacity,
                        kbv,
                        t,
                    )),
            decreases cap - probe,
        {
            let slot_kind: u8 = match &self.table[idx] {
                Slot::Empty => 0,
                Slot::Occupied { key: k2, value: _ } => {
                    match key_cmp(k2, &kb) {
                        KeyOrder::Equal => 1,
                        _ => 2,
                    }
                },
                Slot::Tombstone => 3,
            };
            if slot_kind == 0 {
                // First empty slot: install here, or in the first tombstone
                // passed on the way.
                proof {
                    lemma_absent(self.table@, self.capacity, self.model@, kbv, probe as int);
                    lemma_stop_steps_is(self.table@, self.capacity, kbv, 0, probe as int);
                }
                let p = match first_ts {
                    Some(p) => p,
                    None => idx,
                };
                let ghost d: int = if first_ts is Some {
                    ts_step
                } else {
                    probe as int
                };
                self.install_new(kb, value, p, Ghost(d));
                self.metrics.total_insertions = bump(self.metrics.total_insertions);
                self.metrics.total_probes = sat_add(self.metrics.total_probes, probe);
                self.metrics.max_probe_length = umax(self.metrics.max_probe_length, clip(probe));
                self.update_load_factor();
                return ;
            } else if slot_kind == 1 {
                // Live key found: overwrite the value in place.
                proof {
                    assert(occ_with(self.table@[idx as int], kbv));
                    lemma_stop_steps_is(self.table@, self.capacity, kbv, 0, probe as int);
                }
                self.overwrite(kb, value, idx);
                self.metrics.total_insertions = bump(self.metrics.total_insertions);
                self.metrics.total_probes = sat_add(self.metrics.total_probes, probe);
                return ;
            } else if slot_kind == 3 && first_ts.is_none() {
                first_ts = Some(idx);
                proof {
                    ts_step = probe as int;
                }
            }
            proof {
                assert(nonmatch_in(self.table@, self.capacity, kbv, probe as int));
                if first_ts is None {
                    assert(occupied_other_in(self.table@, self.capacity, kbv, probe as int));
                }
            }
            probe = probe + 1;
            idx = if idx + 1 == cap {
                0
            } else {
                idx + 1
            };
        }
        // The whole sequence was walked without a match or an empty slot.
        match first_ts {
            Some(p) => {
                proof {
                    lemma_absent(self.table@, self.capacity, self.model@, kbv, cap as int);
                    lemma_stop_steps_is(self.table@, self.capacity, kbv, 0, cap as int);
                }
                self.install_new(kb, value, p, Ghost(ts_step));
                self.metrics.total_insertions = bump(self.metrics.total_insertions);
                self.metrics.total_probes = sat_add(self.metrics.total_probes, cap);
                self.metrics.max_probe_length = umax(self.metrics.max_probe_length, clip(cap));
                self.update_load_factor();
            },
            None => {
                // Every slot holds another live key; the precondition rules
                // this out.
                proof {
                    lemma_full(self.table@, self.capacity, self.model@, kbv);
                    lemma_absent(self.table@, self.capacity, self.model@, kbv, cap as int);
                    assert(false);
                }
            },
        }
    }

    /// Look a key up: the value stored for it, if any. Probe steps are
    /// added to the probe metric unless the walk wrapped all the way
    /// around.
    pub fn get(&mut self, key: &str) -> (r: Option<u32>)
        requires
            old(self).inv(),
        ensures
            final(self).inv(),
            final(self)@ == old(self)@,
            final(self).spec_capacity() == old(self).spec_capacity(),
            r == map_get(old(self)@, key.spec_bytes()),
            final(self).spec_metrics().total_probes == (if old(self).probe_steps(key.spec_bytes())
                < old(self).spec_capacity() {
                spec_sat_add(
                    old(self).spec_metrics().total_probes,
                    old(self).probe_steps(key.spec_bytes()),
                )
            } else {
                old(self).spec_metrics().total_probes
            }),
            final(self).spec_metrics().total_insertions == old(
                self,
            ).spec_metrics().total_insertions,
            final(self).spec_metrics().max_probe_length == old(
                self,
            ).spec_metrics().max_probe_length,
            final(self).spec_metrics().load_factor == old(self).spec_metrics().load_factor,
            final(self).spec_metrics().clustering_factor == old(
                self,
            ).spec_metrics().clustering_factor,
            final(self).spec_metrics().tombstone_count == old(self).spec_metrics().tombstone_count,
    {
        let kb = str_key(key);
        let (found, probes, exhausted) = self.find_slot(&kb);
        match found {
            Some(i) => {
                self.metrics.total_probes = sat_add(self.metrics.total_probes, probes);
                let v = match &self.table[i] {
                    Slot::Occupied { key: _, value } => *value,
                    _ => 0,
                };
                Some(v)
            },
            None => {
                if !exhausted {
                    self.metrics.total_probes = sat_add(self.metrics.total_probes, probes);
                }
                None
            },
        }
    }

    /// Delete a key: mark its slot as a tombstone and return the removed
    /// value, if the key was live.
    pub fn delete(&mut self, key: &str) -> (r: Option<u32>)
        requires
            old(self).inv(),
        ensures
            final(self).inv(),
            final(self)@ == old(self)@.remove(key.spec_bytes()),
            final(self).spec_capacity() == old(self).spec_capacity(),
            r == map_get(old(self)@, key.spec_bytes()),
            final(self).spec_metrics().total_insertions == old(
                self,
            ).spec_metrics().total_insertions,
            final(self).spec_metrics().total_probes == old(self).spec_metrics().total_probes,
            final(self).spec_metrics().max_probe_length == old(
                self,
            ).spec_metrics().max_probe_length,
            r is Some ==> {
                &&& final(self)@.len() == old(self)@.len() - 1
                &&& final(self).spec_metrics().tombstone_count == spec_bump(
                    old(self).spec_metrics().tombstone_count,
                )
                &&& final(self).spec_metrics().load_factor == (Ratio {
                    num: final(self)@.len() as u64,
                    den: final(self).spec_capacity() as u64,
                })
                &&& final(self).spec_metrics().clustering_factor == (Ratio {
                    num: final(self).longest_run() as u64,
                    den: final(self).spec_capacity() as u64,
                })
            },
            r is None ==> final(self)@.len() == old(self)@.len() && final(self).spec_metrics()
                == old(self).spec_metrics(),
    {
        let kb = str_key(key);
        let ghost kbv = kb@;
        let (found, _probes, _exhausted) = self.find_slot(&kb);
        match found {
            Some(i) => {
                let v = match &self.table[i] {
                    Slot::Occupied { key: _, value } => *value,
                    _ => 0,
                };
                let ghost old_table = self.table@;
                let ghost cap = self.capacity;
                self.table[i] = Slot::Tombstone;
                self.size = self.size - 1;
                proof {
                    self.model = Ghost(self.model@.remove(kbv));
                    let capi = cap as int;
                    let table = self.table@;
                    let model = self.model@;
                    assert(table =~= old_table.update(i as int, Slot::Tombstone));
                    assert(occ_with(old_table[i as int], kbv));
                    assert(forall|j: int| 0 <= j < capi && j != i ==> table[j] == old_table[j]);
                    assert forall|j: int|
                        0 <= j < capi && (#[trigger] table[j]) is Occupied implies model.contains_key(
                        slot_key(table[j]),
                    ) && model[slot_key(table[j])] == slot_val(table[j]) by {
                        assert(j != i);
                        assert(table[j] == old_table[j]);
                        assert(old_table[j] is Occupied);
                        assert(old(self).model@.contains_key(slot_key(old_table[j])));
                        assert(slot_key(old_table[j]) != kbv);
                    }
                    assert forall|j1: int, j2: int|
                        0 <= j1 < capi && 0 <= j2 < capi && (#[trigger] table[j1]) is Occupied && (
                        #[trigger] table[j2]) is Occupied && slot_key(table[j1]) == slot_key(
                        table[j2],
                    ) implies j1 == j2 by {
                        assert(j1 != i && j2 != i);
                        assert(table[j1] == old_table[j1] && table[j2] == old_table[j2]);
                    }
                    assert forall|k2: Seq<u8>| #[trigger]
                        model.contains_key(k2) implies exists|j: int|
                        0 <= j < capi && occ_with(table[j], k2) by {
                        assert(old(self).model@.contains_key(k2));
                        let j = choose|j: int| 0 <= j < capi && occ_with(old_table[j], k2);
                        assert(j != i);
                        assert(occ_with(table[j], k2));
                    }
                    assert forall|k2: Seq<u8>, t: int|
                        model.contains_key(k2) && 0 <= t < dist_in(table, cap, k2) implies !((
                    #[trigger] table[pslot(cap, k2, t)]) is Empty) by {
                        let s2 = slot_in(table, cap, k2);
                        assert(0 <= s2 < capi && occ_with(table[s2], k2));
                        assert(old(self).model@.contains_key(k2));
                        assert(occ_with(old_table[s2], k2));
                        assert(slot_in(old_table, cap, k2) == s2);
                        assert(!(old_table[pslot(cap, k2, t)] is Empty));
                    }
                    assert(model.dom() =~= old(self).model@.dom().remove(kbv));
                }
                self.metrics.tombstone_count = bump(self.metrics.tombstone_count);
                self.update_load_factor();
                Some(v)
            },
            None => {
                proof {
                    assert(old(self)@.remove(kbv) =~= old(self)@);
                }
                None
            },
        }
    }

    /// A snapshot of the metrics.
    pub fn get_metrics(&self) -> (m: OpenAddressingMetrics)
        ensures
            m == self.spec_metrics(),
    {
        self.metrics
    }
}

} // verus!
