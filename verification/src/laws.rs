//! Laws that every container obeys.
//!
//! Each container's `insert`, `get` and `delete` are specified against its
//! abstract view, a finite `Map<Seq<u8>, u32>`, using `Map::insert`,
//! `Map::remove` and map lookup. The proof functions here state the universal
//! container laws at that level, so they hold of all five containers at once.

use vstd::prelude::*;

verus! {

/// What a lookup returns on an abstract map: the stored value, if any.
pub open spec fn map_get(m: Map<Seq<u8>, u32>, k: Seq<u8>) -> Option<u32> {
    if m.contains_key(k) {
        Some(m[k])
    } else {
        None
    }
}

/// After inserting `(k, v)`, looking up `k` yields `v`.
pub proof fn lemma_insert_establishes_get(m: Map<Seq<u8>, u32>, k: Seq<u8>, v: u32)
    ensures
        m.insert(k, v).contains_key(k),
        m.insert(k, v)[k] == v,
{
}

/// A key that was never inserted reads as absent, and so does a key whose
/// last operation was a delete.
pub proof fn lemma_absent_key_reads_none(m: Map<Seq<u8>, u32>, k: Seq<u8>)
    ensures
        !Map::<Seq<u8>, u32>::empty().contains_key(k),
        !m.remove(k).contains_key(k),
{
}

/// Inserting the same key and value twice leaves the container in the same
/// abstract state as inserting it once.
pub proof fn lemma_repeat_insert_idempotent(m: Map<Seq<u8>, u32>, k: Seq<u8>, v: u32)
    ensures
        m.insert(k, v).insert(k, v) == m.insert(k, v),
{
    assert(m.insert(k, v).insert(k, v) =~= m.insert(k, v));
}

/// Inserting an existing key updates its value without changing the size.
pub proof fn lemma_update_preserves_size(m: Map<Seq<u8>, u32>, k: Seq<u8>, v: u32)
    requires
        m.dom().finite(),
        m.contains_key(k),
    ensures
        m.insert(k, v).len() == m.len(),
{
    assert(m.insert(k, v).dom() =~= m.dom());
}

/// Deleting a freshly inserted key restores the previous abstract state: the
/// key reads as absent and the size returns to its pre-insert value.
pub proof fn lemma_delete_restores_absence(m: Map<Seq<u8>, u32>, k: Seq<u8>, v: u32)
    requires
        m.dom().finite(),
        !m.contains_key(k),
    ensures
        !m.insert(k, v).remove(k).contains_key(k),
        m.insert(k, v).remove(k) == m,
        m.insert(k, v).remove(k).len() == m.len(),
{
    assert(m.insert(k, v).remove(k) =~= m);
}

} // verus!
