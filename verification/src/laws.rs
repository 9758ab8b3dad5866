//! Laws the capability contract guarantees, stated over the abstract maps
//! that every engine's contracts speak of. Each engine's `insert`, `get`
//! and `delete` pin the table's view to `Map::insert`, a lookup, and
//! `Map::remove`; these lemmas turn those contracts into the end-to-end
//! guarantees a caller relies on.

use vstd::prelude::*;

verus! {

/// Round-trip: after inserting `k` with value `v`, and before any removal
/// of `k`, a lookup of `k` yields exactly `v`.
pub proof fn lemma_insert_then_get<KA, VA>(m: Map<KA, VA>, k: KA, v: VA)
    ensures
        m.insert(k, v).contains_key(k),
        m.insert(k, v)[k] == v,
{
}

/// Deletion: after removing `k`, a lookup of `k` yields nothing, and every
/// other key is present with the same value as before.
pub proof fn lemma_delete_then_get<KA, VA>(m: Map<KA, VA>, k: KA, other: KA)
    ensures
        !m.remove(k).contains_key(k),
        other != k ==> m.remove(k).contains_key(other) == m.contains_key(other),
        other != k && m.contains_key(other) ==> m.remove(k)[other] == m[other],
{
}

/// Upsert: inserting the same key twice leaves exactly the state of one
/// insert of the second value — in particular, the key is counted once.
pub proof fn lemma_upsert<KA, VA>(m: Map<KA, VA>, k: KA, v1: VA, v2: VA)
    ensures
        m.insert(k, v1).insert(k, v2) == m.insert(k, v2),
{
    assert(m.insert(k, v1).insert(k, v2) =~= m.insert(k, v2));
}

/// Inserting a fresh key grows the count of live keys by one; inserting an
/// existing key leaves it unchanged.
pub proof fn lemma_insert_key_count<KA, VA>(m: Map<KA, VA>, k: KA, v: VA)
    requires
        m.dom().finite(),
    ensures
        m.insert(k, v).dom().finite(),
        m.insert(k, v).dom().len() == m.dom().len() + (if m.contains_key(k) {
            0int
        } else {
            1int
        }),
{
    assert(m.insert(k, v).dom() =~= m.dom().insert(k));
    vstd::set::axiom_set_insert_len(m.dom(), k);
}

/// Removing a present key shrinks the count of live keys by one; removing
/// an absent key leaves it unchanged.
pub proof fn lemma_remove_key_count<KA, VA>(m: Map<KA, VA>, k: KA)
    requires
        m.dom().finite(),
    ensures
        m.remove(k).dom().finite(),
        m.remove(k).dom().len() == m.dom().len() - (if m.contains_key(k) {
            1int
        } else {
            0int
        }),
{
    assert(m.remove(k).dom() =~= m.dom().remove(k));
    vstd::set::axiom_set_remove_len(m.dom(), k);
}

} // verus!
