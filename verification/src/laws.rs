//! Laws relating the table operations, stated over the abstract map model.
//!
//! Each operation of [`crate::table`] describes its effect on the table's
//! `Map<u64, T>` view; the lemmas here chain those effects across calls.

use vstd::prelude::*;

use crate::table::spec_lookup;
use crate::table::HashTable;
use crate::table::INIT_CAP;

verus! {

/// A table holding at least as many entries as the initial capacity must
/// have grown: the invariant keeps one slot free, so the capacity exceeds
/// the entry count at all times.
pub proof fn lemma_growth_forced<T>(m: HashTable<T>)
    requires
        m.wf(),
        m.size >= INIT_CAP,
    ensures
        m.table_size > INIT_CAP,
{
}

/// Inserting a key and then looking it up yields the inserted value.
pub proof fn lemma_insert_then_lookup<T>(m: Map<u64, T>, k: u64, v: T)
    ensures
        spec_lookup(m.insert(k, v), k) == Some(v),
{
}

/// Inserting the same key twice keeps the second value, and the second
/// insertion leaves the number of keys unchanged.
pub proof fn lemma_insert_twice_overwrites<T>(m: Map<u64, T>, k: u64, v1: T, v2: T)
    ensures
        spec_lookup(m.insert(k, v1).insert(k, v2), k) == Some(v2),
        m.insert(k, v1).insert(k, v2).dom().len() == m.insert(k, v1).dom().len(),
{
    assert(m.insert(k, v1).insert(k, v2).dom() =~= m.insert(k, v1).dom());
}

/// Inserting a key a map does not yet hold grows its key count by one.
pub proof fn lemma_insert_fresh_key_count<T>(m: Map<u64, T>, k: u64, v: T)
    requires
        m.dom().finite(),
        !m.contains_key(k),
    ensures
        m.insert(k, v).dom().len() == m.dom().len() + 1,
{
    assert(m.insert(k, v).dom() =~= m.dom().insert(k));
}

/// After a key is removed, looking it up reports absence.
pub proof fn lemma_remove_then_lookup<T>(m: Map<u64, T>, k: u64)
    ensures
        spec_lookup(m.remove(k), k) == None::<T>,
{
}

/// Removing a key a map holds shrinks its key count by exactly one, and
/// every other key keeps its value.
pub proof fn lemma_remove_present_key_count<T>(m: Map<u64, T>, k: u64)
    requires
        m.dom().finite(),
        m.contains_key(k),
    ensures
        m.remove(k).dom().len() + 1 == m.dom().len(),
        forall|k2: u64| k2 != k ==> spec_lookup(m.remove(k), k2) == spec_lookup(m, k2),
{
    assert(m.dom() =~= m.remove(k).dom().insert(k));
}

} // verus!
