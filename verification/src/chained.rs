//! A hash map with separate chaining.
//!
//! A fixed array of 256 buckets; each bucket is an ordered sequence of
//! `(key, value)` entries sharing a hash residue, in observation order. The
//! abstract view is a finite map from key bytes to values. Metrics describe
//! the insertion history: deletes intentionally leave them untouched.

use vstd::prelude::*;

verus! {

use crate::hashing::{hash_of, hash_key};
use crate::key::{KeyOrder, key_cmp, str_key};
use crate::laws::map_get;
use crate::metrics::{Ratio, spec_bump, bump};

/// Number of buckets in the table; fixed at construction.
pub const BUCKET_COUNT: usize = 256;

/// The bucket a key lands in: its 64-bit hash taken modulo 256.
pub open spec fn bucket_of(k: Seq<u8>) -> int {
    (hash_of(k) % 256) as int
}

/// What a linear scan of one bucket finds for a key: the value of the first
/// entry with that key, if any.
pub open spec fn bucket_get(b: Seq<(Vec<u8>, u32)>, k: Seq<u8>) -> Option<u32>
    decreases b.len(),
{
    if b.len() <= 0 {
        None
    } else if b[0].0@ == k {
        Some(b[0].1)
    } else {
        bucket_get(b.skip(1), k)
    }
}

/// A scan finds nothing exactly when no entry carries the key.
proof fn lemma_bucket_get_none_iff(b: Seq<(Vec<u8>, u32)>, k: Seq<u8>)
    ensures
        (bucket_get(b, k) is None) <==> (forall|t: int| 0 <= t < b.len() ==> b[t].0@ != k),
    decreases b.len(),
{
    if b.len() > 0 {
        lemma_bucket_get_none_iff(b.skip(1), k);
        if bucket_get(b, k) is None {
            assert(b[0].0@ != k);
            assert forall|t: int| 0 <= t < b.len() implies b[t].0@ != k by {
                if t > 0 {
                    assert(b[t] == b.skip(1)[t - 1]);
                }
            }
        }
        if forall|t: int| 0 <= t < b.len() ==> b[t].0@ != k {
            assert forall|t: int| 0 <= t < b.skip(1).len() implies b.skip(1)[t].0@ != k by {
                assert(b.skip(1)[t] == b[t + 1]);
            }
            assert(bucket_get(b.skip(1), k) is None);
            assert(b[0].0@ != k);
        }
    }
}

/// A scan returns the entry at the first matching position.
proof fn lemma_bucket_get_first(b: Seq<(Vec<u8>, u32)>, j: int, k: Seq<u8>)
    requires
        0 <= j < b.len(),
        b[j].0@ == k,
        forall|t: int| 0 <= t < j ==> b[t].0@ != k,
    ensures
        bucket_get(b, k) == Some(b[j].1),
    decreases j,
{
    if j > 0 {
        assert(forall|t: int| 0 <= t < b.skip(1).len() ==> b.skip(1)[t] == b[t + 1]);
        lemma_bucket_get_first(b.skip(1), j - 1, k);
    }
}

/// Appending an entry leaves every present key as it was and makes the new
/// key found exactly when it was absent before.
proof fn lemma_bucket_get_push(b: Seq<(Vec<u8>, u32)>, e: (Vec<u8>, u32), k: Seq<u8>)
    ensures
        bucket_get(b.push(e), k) == (if bucket_get(b, k) is Some {
            bucket_get(b, k)
        } else if e.0@ == k {
            Some(e.1)
        } else {
            None
        }),
    decreases b.len(),
{
    if b.len() == 0 {
        assert(b.push(e)[0] == e);
        assert(b.push(e).skip(1) =~= Seq::<(Vec<u8>, u32)>::empty());
        assert(bucket_get(Seq::<(Vec<u8>, u32)>::empty(), k) is None);
        if e.0@ == k {
            assert(bucket_get(b.push(e), k) == Some(e.1));
        } else {
            assert(bucket_get(b.push(e), k) == bucket_get(b.push(e).skip(1), k));
        }
        assert(bucket_get(b, k) is None);
    } else {
        assert(b.push(e)[0] == b[0]);
        assert(b.push(e).skip(1) =~= b.skip(1).push(e));
        lemma_bucket_get_push(b.skip(1), e, k);
        if b[0].0@ == k {
            assert(bucket_get(b.push(e), k) == Some(b[0].1));
            assert(bucket_get(b, k) == Some(b[0].1));
        } else {
            assert(bucket_get(b.push(e), k) == bucket_get(b.skip(1).push(e), k));
            assert(bucket_get(b, k) == bucket_get(b.skip(1), k));
        }
    }
}

/// Overwriting the first entry for a key changes what a scan finds for that
/// key, and for no other key.
proof fn lemma_bucket_get_update(b: Seq<(Vec<u8>, u32)>, j: int, e: (Vec<u8>, u32), k2: Seq<u8>)
    requires
        0 <= j < b.len(),
        e.0@ == b[j].0@,
        forall|t: int| 0 <= t < j ==> b[t].0@ != b[j].0@,
    ensures
        bucket_get(b.update(j, e), k2) == (if k2 == b[j].0@ {
            Some(e.1)
        } else {
            bucket_get(b, k2)
        }),
    decreases j,
{
    if j == 0 {
        assert(b.update(0, e)[0] == e);
        assert(b.update(0, e).skip(1) =~= b.skip(1));
    } else {
        assert(b.update(j, e)[0] == b[0]);
        assert(b.update(j, e).skip(1) =~= b.skip(1).update(j - 1, e));
        assert(forall|t: int| 0 <= t < b.skip(1).len() ==> b.skip(1)[t] == b[t + 1]);
        lemma_bucket_get_update(b.skip(1), j - 1, e, k2);
    }
}

/// Removing the only entry for a key makes that key absent and leaves every
/// other key's scan unchanged.
proof fn lemma_bucket_get_remove(b: Seq<(Vec<u8>, u32)>, j: int, k2: Seq<u8>)
    requires
        0 <= j < b.len(),
        forall|t: int| 0 <= t < b.len() && t != j ==> b[t].0@ != b[j].0@,
    ensures
        bucket_get(b.remove(j), k2) == (if k2 == b[j].0@ {
            None
        } else {
            bucket_get(b, k2)
        }),
    decreases j,
{
    if j == 0 {
        assert(b.remove(0) =~= b.skip(1));
        assert(forall|t: int| 0 <= t < b.skip(1).len() ==> b.skip(1)[t] == b[t + 1]);
        if k2 == b[0].0@ {
            lemma_bucket_get_none_iff(b.skip(1), k2);
        }
    } else {
        assert(b.remove(j)[0] == b[0]);
        assert(b.remove(j).skip(1) =~= b.skip(1).remove(j - 1));
        assert(forall|t: int| 0 <= t < b.skip(1).len() ==> b.skip(1)[t] == b[t + 1]);
        lemma_bucket_get_remove(b.skip(1), j - 1, k2);
    }
}

/// A chain length clipped to what a `u32` metric can report.
pub open spec fn chain_cap(n: nat) -> u32 {
    if n >= 0xffff_ffffnat {
        0xffff_ffffu32
    } else {
        n as u32
    }
}

/// The longest chain among the first `i` buckets, clipped to `u32`.
pub open spec fn max_chain_upto(bs: Seq<Vec<(Vec<u8>, u32)>>, i: int) -> u32
    decreases i,
{
    if i <= 0 {
        0u32
    } else {
        let rest = max_chain_upto(bs, i - 1);
        let l = chain_cap(bs[i - 1]@.len());
        if l > rest {
            l
        } else {
            rest
        }
    }
}

/// Metrics collected while a `HashMap` is filled.
#[derive(Clone, Copy, Debug, PartialEq, Eq, Structural)]
pub struct HashMapMetrics {
    /// Successful new-key insertions (updates are not counted).
    pub total_insertions: u32,
    /// New-key insertions that landed in a non-empty bucket.
    pub total_collisions: u32,
    /// Longest chain across the table after the last new-key insertion.
    pub max_chain_length: u32,
    /// Live size divided by the bucket count, as of the last new-key insertion.
    pub average_load_factor: Ratio,
}

/// A key-value map with 256 fixed buckets and separate chaining.
pub struct HashMap {
    buckets: Vec<Vec<(Vec<u8>, u32)>>,
    size: usize,
    metrics: HashMapMetrics,
    model: Ghost<Map<Seq<u8>, u32>>,
}

impl View for HashMap {
    type V = Map<Seq<u8>, u32>;

    closed spec fn view(&self) -> Map<Seq<u8>, u32> {
        self.model@
    }
}

impl HashMap {
    /// Structural soundness: the buckets agree pointwise with the abstract
    /// map, every entry sits in the bucket its hash selects, no bucket holds
    /// a key twice, and the recorded size is the map's cardinality.
    pub closed spec fn inv(&self) -> bool {
        &&& self.buckets@.len() == 256
        &&& self.model@.dom().finite()
        &&& self.size == self.model@.len()
        &&& (forall|k: Seq<u8>|
            #![trigger self.model@.contains_key(k)]
            #![trigger bucket_get(self.buckets@[bucket_of(k)]@, k)]
            bucket_get(self.buckets@[bucket_of(k)]@, k) == map_get(self.model@, k))
        &&& (forall|i: int, j: int|
            0 <= i < 256 && 0 <= j < self.buckets@[i]@.len()
                ==> bucket_of(#[trigger] self.buckets@[i]@[j].0@) == i)
        &&& (forall|i: int, j1: int, j2: int|
            #![trigger self.buckets@[i]@[j1], self.buckets@[i]@[j2]]
            0 <= i < 256 && 0 <= j1 < j2 < self.buckets@[i]@.len()
                ==> self.buckets@[i]@[j1].0@ != self.buckets@[i]@[j2].0@)
    }

    /// The metric record as last written.
    pub closed spec fn spec_metrics(&self) -> HashMapMetrics {
        self.metrics
    }

    /// The longest chain currently in the table.
    pub closed spec fn max_chain(&self) -> u32 {
        max_chain_upto(self.buckets@, 256)
    }

    /// Create an empty map with 256 buckets.
    pub fn new() -> (m: HashMap)
        ensures
            m.inv(),
            m@ == Map::<Seq<u8>, u32>::empty(),
            m.spec_metrics() == (HashMapMetrics {
                total_insertions: 0,
                total_collisions: 0,
                max_chain_length: 0,
                average_load_factor: Ratio { num: 0, den: 256 },
            }),
    {
        let mut buckets: Vec<Vec<(Vec<u8>, u32)>> = Vec::new();
        let mut i: usize = 0;
        while i < BUCKET_COUNT
            invariant
                i <= 256,
                buckets@.len() == i,
                forall|t: int| 0 <= t < i ==> #[trigger] buckets@[t]@.len() == 0,
            decreases 256 - i,
        {
            buckets.push(Vec::new());
            i = i + 1;
        }
        let m = HashMap {
            buckets,
            size: 0,
            metrics: HashMapMetrics {
                total_insertions: 0,
                total_collisions: 0,
                max_chain_length: 0,
                average_load_factor: Ratio { num: 0, den: 256 },
            },
            model: Ghost(Map::empty()),
        };
        proof {
            assert forall|k: Seq<u8>|
                bucket_get(m.buckets@[bucket_of(k)]@, k) == map_get(m.model@, k) by {
                assert(0 <= bucket_of(k) < 256) by {
                    assert(hash_of(k) % 256 < 256);
                }
            }
        }
        m
    }

    /// Find the first entry of `b` whose key equals `k`.
    fn find_in_bucket(b: &Vec<(Vec<u8>, u32)>, k: &Vec<u8>) -> (r: Option<usize>)
        ensures
            match r {
                Some(j) => j < b@.len() && b@[j as int].0@ == k@ && (forall|t: int|
                    0 <= t < j ==> b@[t].0@ != k@),
                None => forall|t: int| 0 <= t < b@.len() ==> b@[t].0@ != k@,
            },
    {
        let n = b.len();
        let mut j: usize = 0;
        while j < n
            invariant
                j <= n,
                n == b@.len(),
                forall|t: int| 0 <= t < j ==> b@[t].0@ != k@,
            decreases n - j,
        {
            let is_eq = match key_cmp(&b[j].0, k) {
                KeyOrder::Equal => true,
                _ => false,
            };
            if is_eq {
                return Some(j);
            }
            j = j + 1;
        }
        None
    }

    /// Recompute the longest chain across all buckets.
    fn compute_max_chain(&self) -> (m: u32)
        requires
            self.buckets@.len() == 256,
        ensures
            m == self.max_chain(),
    {
        let mut m: u32 = 0;
        let mut i: usize = 0;
        while i < BUCKET_COUNT
            invariant
                i <= 256,
                self.buckets@.len() == 256,
                m == max_chain_upto(self.buckets@, i as int),
            decreases 256 - i,
        {
            let l = self.buckets[i].len();
            let lu: u32 = if l >= 0xffff_ffffusize {
                0xffff_ffffu32
            } else {
                l as u32
            };
            if lu > m {
                m = lu;
            }
            i = i + 1;
        }
        m
    }

    /// Insert a key-value pair: create the key or update its value in place.
    ///
    /// An update leaves size and metrics untouched. A new key is appended to
    /// its bucket; it counts as a collision exactly when some other key
    /// already lived in that bucket.
    pub fn insert(&mut self, key: String, value: u32)
        requires
            old(self).inv(),
            old(self)@.len() < usize::MAX,
        ensures
            final(self).inv(),
            final(self)@ == old(self)@.insert(vstd::utf8::encode_utf8(key@), value),
            old(self)@.contains_key(vstd::utf8::encode_utf8(key@)) ==> final(self).spec_metrics()
                == old(self).spec_metrics() && final(self)@.len() == old(self)@.len(),
            !old(self)@.contains_key(vstd::utf8::encode_utf8(key@)) ==> {
                &&& final(self)@.len() == old(self)@.len() + 1
                &&& final(self).spec_metrics().total_insertions == spec_bump(
                    old(self).spec_metrics().total_insertions,
                )
                &&& final(self).spec_metrics().total_collisions == (if exists|k2: Seq<u8>|
                    old(self)@.contains_key(k2) && bucket_of(k2) == bucket_of(
                        vstd::utf8::encode_utf8(key@),
                    ) {
                    spec_bump(old(self).spec_metrics().total_collisions)
                } else {
                    old(self).spec_metrics().total_collisions
                })
                &&& final(self).spec_metrics().max_chain_length == final(self).max_chain()
                &&& final(self).spec_metrics().average_load_factor == (Ratio {
                    num: final(self)@.len() as u64,
                    den: 256,
                })
            },
    {
        let kb = str_key(key.as_str());
        let h = hash_key(&kb);
        let idx: usize = (h % 256) as usize;
        proof {
            assert(idx as int == bucket_of(kb@));
        }
        let ghost old_bucket = self.buckets@[idx as int]@;
        match Self::find_in_bucket(&self.buckets[idx], &kb) {
            Some(j) => {
                // Existing key: overwrite the value, count nothing.
                proof {
                    lemma_bucket_get_first(old_bucket, j as int, kb@);
                }
                self.buckets[idx][j].1 = value;
                let ghost e = self.buckets@[idx as int]@[j as int];
                proof {
                    assert(self.buckets@[idx as int]@ =~= old_bucket.update(j as int, e));
                    self.model = Ghost(self.model@.insert(kb@, value));
                    assert(self.model@.dom() =~= old(self).model@.dom());
                    assert forall|k2: Seq<u8>|
                        bucket_get(self.buckets@[bucket_of(k2)]@, k2) == map_get(
                            self.model@,
                            k2,
                        ) by {
                        if bucket_of(k2) == idx as int {
                            lemma_bucket_get_update(old_bucket, j as int, e, k2);
                        }
                    }
                }
            },
            None => {
                // New key: append, then refresh the insertion metrics.
                proof {
                    lemma_bucket_get_none_iff(old_bucket, kb@);
                    assert(!old(self)@.contains_key(kb@));
                }
                let was_collision = self.buckets[idx].len() > 0;
                let ghost e = (kb, value);
                self.buckets[idx].push((kb, value));
                proof {
                    assert(self.buckets@[idx as int]@ =~= old_bucket.push(e));
                    self.model = Ghost(self.model@.insert(kb@, value));
                    assert forall|k2: Seq<u8>|
                        bucket_get(self.buckets@[bucket_of(k2)]@, k2) == map_get(
                            self.model@,
                            k2,
                        ) by {
                        if bucket_of(k2) == idx as int {
                            lemma_bucket_get_push(old_bucket, e, k2);
                        }
                    }
                    assert(self.model@.len() == old(self).model@.len() + 1);
                    // A non-empty bucket witnesses another key of the same residue.
                    if was_collision {
                        let k0 = old_bucket[0].0@;
                        lemma_bucket_get_first(old_bucket, 0, k0);
                        assert(old(self)@.contains_key(k0) && bucket_of(k0) == bucket_of(e.0@));
                    } else {
                        assert forall|k2: Seq<u8>|
                            !(old(self)@.contains_key(k2) && bucket_of(k2) == bucket_of(
                                e.0@,
                            )) by {
                            if old(self)@.contains_key(k2) && bucket_of(k2) == bucket_of(e.0@) {
                                assert(bucket_get(old_bucket, k2) is Some);
                            }
                        }
                    }
                }
                self.size = self.size + 1;
                self.metrics.total_insertions = bump(self.metrics.total_insertions);
                if was_collision {
                    self.metrics.total_collisions = bump(self.metrics.total_collisions);
                }
                self.metrics.max_chain_length = self.compute_max_chain();
                self.metrics.average_load_factor = Ratio { num: self.size as u64, den: 256 };
            },
        }
    }

    /// Look a key up: the value stored for it, if any.
    pub fn get(&self, key: String) -> (r: Option<u32>)
        requires
            self.inv(),
        ensures
            r == map_get(self@, vstd::utf8::encode_utf8(key@)),
    {
        let kb = str_key(key.as_str());
        let h = hash_key(&kb);
        let idx: usize = (h % 256) as usize;
        proof {
            assert(idx as int == bucket_of(kb@));
        }
        match Self::find_in_bucket(&self.buckets[idx], &kb) {
            Some(j) => {
                proof {
                    lemma_bucket_get_first(self.buckets@[idx as int]@, j as int, kb@);
                }
                Some(self.buckets[idx][j].1)
            },
            None => {
                proof {
                    lemma_bucket_get_none_iff(self.buckets@[idx as int]@, kb@);
                }
                None
            },
        }
    }

    /// Delete a key: report whether a removal occurred.
    ///
    /// Metrics describe insertion history and are deliberately not updated.
    pub fn delete(&mut self, key: String) -> (r: bool)
        requires
            old(self).inv(),
        ensures
            final(self).inv(),
            final(self)@ == old(self)@.remove(vstd::utf8::encode_utf8(key@)),
            r == old(self)@.contains_key(vstd::utf8::encode_utf8(key@)),
            final(self).spec_metrics() == old(self).spec_metrics(),
            r ==> final(self)@.len() == old(self)@.len() - 1,
            !r ==> final(self)@.len() == old(self)@.len(),
    {
        let kb = str_key(key.as_str());
        let h = hash_key(&kb);
        let idx: usize = (h % 256) as usize;
        proof {
            assert(idx as int == bucket_of(kb@));
        }
        let ghost old_bucket = self.buckets@[idx as int]@;
        match Self::find_in_bucket(&self.buckets[idx], &kb) {
            Some(j) => {
                proof {
                    lemma_bucket_get_first(old_bucket, j as int, kb@);
                }
                let _ = self.buckets[idx].remove(j);
                proof {
                    assert(self.buckets@[idx as int]@ =~= old_bucket.remove(j as int));
                    self.model = Ghost(self.model@.remove(kb@));
                    assert forall|k2: Seq<u8>|
                        bucket_get(self.buckets@[bucket_of(k2)]@, k2) == map_get(
                            self.model@,
                            k2,
                        ) by {
                        if bucket_of(k2) == idx as int {
                            lemma_bucket_get_remove(old_bucket, j as int, k2);
                        }
                    }
                    assert(self.model@.len() == old(self).model@.len() - 1);
                }
                self.size = self.size - 1;
                true
            },
            None => {
                proof {
                    lemma_bucket_get_none_iff(old_bucket, kb@);
                    assert(!old(self)@.contains_key(kb@));
                    assert(old(self)@.remove(kb@) =~= old(self)@);
                }
                false
            },
        }
    }

    /// A snapshot of the metrics.
    pub fn get_metrics(&self) -> (m: HashMapMetrics)
        ensures
            m == self.spec_metrics(),
    {
        self.metrics
    }

    /// Number of live key-value pairs.
    pub fn len(&self) -> (n: usize)
        requires
            self.inv(),
        ensures
            n == self@.len(),
    {
        self.size
    }

    /// Whether the map holds no pairs.
    pub fn is_empty(&self) -> (b: bool)
        requires
            self.inv(),
        ensures
            b == (self@.len() == 0),
    {
        self.size == 0
    }
}

} // verus!
