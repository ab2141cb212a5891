//! An open-addressed hash table from `u64` keys to copyable values.
//!
//! The table owns a contiguous vector of slots. A slot is either `Empty` or
//! `Occupied` with a key and a value. Collisions are resolved by linear
//! probing: a scan starts at the hashed index and advances one slot at a
//! time, wrapping at the end of the vector. When an insertion would fill the
//! last free slot, the table first doubles its capacity and re-inserts every
//! entry, so at least one `Empty` slot always remains and every scan
//! terminates within `table_size` steps.
//!
//! The abstract model of a table is a finite `Map<u64, T>`; every operation
//! states its effect on that map.

use vstd::prelude::*;

verus! {

/// Number of slots a fresh table allocates.
pub const INIT_CAP: usize = 1024;

/// One slot of the backing vector: vacant, or a key with its value.
#[derive(Clone, Copy)]
pub enum Slot<T> {
    Empty,
    Occupied { key: u64, value: T },
}

/// The caller-visible failures of the table operations.
///
/// `OutOfMemory` reports that a needed capacity doubling would overflow the
/// address space; `NotFound` reports a removal of an absent key.
#[derive(Clone, Copy, Debug, PartialEq, Eq, Structural)]
pub enum TableError {
    OutOfMemory,
    NotFound,
}

/// Outcome of probing for a key: the slot holding the key, an empty slot
/// where the key may be placed, or no usable slot at current capacity.
pub enum Probe {
    Found(usize),
    Vacant(usize),
    Full,
}

/// An open-addressed hash table with linear probing.
///
/// `table_size` is the length of `data` and `size` the number of occupied
/// slots; a well-formed table keeps `size < table_size` and each key in at
/// most one slot.
pub struct HashTable<T> {
    pub table_size: usize,
    pub size: usize,
    pub data: Vec<Slot<T>>,
}

/// The key of an occupied slot (an empty slot yields a dummy key).
pub open spec fn slot_key<T>(s: Slot<T>) -> u64 {
    match s {
        Slot::Occupied { key, .. } => key,
        Slot::Empty => 0,
    }
}

/// The value of an occupied slot.
pub open spec fn slot_value<T>(s: Slot<T>) -> T {
    match s {
        Slot::Occupied { value, .. } => value,
        Slot::Empty => arbitrary(),
    }
}

/// Whether a slot currently holds the key `k`.
pub open spec fn matches_key<T>(s: Slot<T>, k: u64) -> bool {
    s is Occupied && slot_key(s) == k
}

/// Whether some slot of `s` holds the key `k`.
pub open spec fn has_key<T>(s: Seq<Slot<T>>, k: u64) -> bool {
    exists|i: int| 0 <= i < s.len() && matches_key(#[trigger] s[i], k)
}

/// The index of the slot holding `k` (unique when keys are unique).
pub open spec fn index_of_key<T>(s: Seq<Slot<T>>, k: u64) -> int {
    choose|i: int| 0 <= i < s.len() && matches_key(#[trigger] s[i], k)
}

/// The value stored under `k`.
pub open spec fn value_of_key<T>(s: Seq<Slot<T>>, k: u64) -> T {
    slot_value(s[index_of_key(s, k)])
}

/// The map represented by a slot sequence.
pub open spec fn slots_view<T>(s: Seq<Slot<T>>) -> Map<u64, T> {
    Map::new(|k: u64| has_key(s, k), |k: u64| value_of_key(s, k))
}

/// The set of keys held by a slot sequence.
pub open spec fn key_set<T>(s: Seq<Slot<T>>) -> Set<u64> {
    Set::new(|k: u64| has_key(s, k))
}

/// Every key appears in at most one slot.
pub open spec fn keys_unique<T>(s: Seq<Slot<T>>) -> bool {
    forall|i: int, j: int|
        0 <= i < s.len() && 0 <= j < s.len() && i != j
            && #[trigger] s[i] is Occupied && #[trigger] s[j] is Occupied
            ==> slot_key(s[i]) != slot_key(s[j])
}

/// How many slots of `s` are occupied.
pub open spec fn occupied_count<T>(s: Seq<Slot<T>>) -> nat
    decreases s.len(),
{
    if s.len() == 0 {
        0
    } else {
        occupied_count(s.drop_last()) + (if s.last() is Occupied {
            1nat
        } else {
            0nat
        })
    }
}

/// The index reached after `t` single steps from `start`, wrapping at `cap`.
pub open spec fn wrap_add(start: int, t: int, cap: int) -> int {
    if start + t < cap {
        start + t
    } else {
        start + t - cap
    }
}

/// The lowest index of an occupied slot, or -1 if every slot is empty.
pub open spec fn first_occupied<T>(s: Seq<Slot<T>>) -> int
    decreases s.len(),
{
    if s.len() == 0 {
        -1
    } else if s[0] is Occupied {
        0
    } else {
        let rest = first_occupied(s.drop_first());
        if rest < 0 {
            -1
        } else {
            rest + 1
        }
    }
}

/// The value an extraction returns: that of the first occupied slot.
pub open spec fn spec_peek<T>(s: Seq<Slot<T>>) -> Option<T> {
    if first_occupied(s) >= 0 {
        Some(slot_value(s[first_occupied(s)]))
    } else {
        None
    }
}

/// The key an extraction selects: that of the first occupied slot.
pub open spec fn peek_key<T>(s: Seq<Slot<T>>) -> u64 {
    slot_key(s[first_occupied(s)])
}

/// The avalanche mix the hash applies to a key before the modulo reduction:
/// a fixed round of shifts, xors and wrapping additions, then a wrapping
/// multiplication by a large odd constant.
pub open spec fn spec_mix(key: u64) -> u64 {
    let a = u64::wrapping_add(key, key << 12u64);
    let b = a ^ (a >> 22u64);
    let c = u64::wrapping_add(b, b << 4u64);
    let d = c ^ (c >> 9u64);
    let e = u64::wrapping_add(d, d << 10u64);
    let f = e ^ (e >> 2u64);
    let g = u64::wrapping_add(f, f << 7u64);
    let h = g ^ (g >> 12u64);
    u64::wrapping_mul(h >> 3u64, 2654435761u64)
}

/// What a scan of map `m` for key `k` yields.
pub open spec fn spec_lookup<T>(m: Map<u64, T>, k: u64) -> Option<T> {
    if m.contains_key(k) {
        Some(m[k])
    } else {
        None
    }
}

impl<T> HashTable<T> {
    /// The structural invariant every operation preserves: the bookkeeping
    /// fields agree with the slot vector, at least one slot is free, and
    /// keys are unique.
    pub open spec fn wf(self) -> bool {
        &&& self.data@.len() == self.table_size
        &&& self.size < self.table_size
        &&& self.size == occupied_count(self.data@)
        &&& keys_unique(self.data@)
    }
}

impl<T> View for HashTable<T> {
    type V = Map<u64, T>;

    open spec fn view(&self) -> Map<u64, T> {
        slots_view(self.data@)
    }
}

/// A slot sequence with no occupied slot has no occupied slots to count.
proof fn lemma_all_empty_count<T>(s: Seq<Slot<T>>)
    requires
        forall|i: int| 0 <= i < s.len() ==> !(#[trigger] s[i] is Occupied),
    ensures
        occupied_count(s) == 0,
    decreases s.len(),
{
    if s.len() > 0 {
        assert(forall|i: int|
            0 <= i < s.drop_last().len() ==> !(#[trigger] s.drop_last()[i] is Occupied));
        lemma_all_empty_count(s.drop_last());
    }
}

/// A slot sequence with every slot occupied counts its full length.
proof fn lemma_all_occupied_count<T>(s: Seq<Slot<T>>)
    requires
        forall|i: int| 0 <= i < s.len() ==> #[trigger] s[i] is Occupied,
    ensures
        occupied_count(s) == s.len(),
    decreases s.len(),
{
    if s.len() > 0 {
        assert(forall|i: int|
            0 <= i < s.drop_last().len() ==> #[trigger] s.drop_last()[i] is Occupied);
        lemma_all_occupied_count(s.drop_last());
    }
}

/// A sequence with no occupied slot represents the empty map.
proof fn lemma_view_of_empties<T>(s: Seq<Slot<T>>)
    requires
        forall|i: int| 0 <= i < s.len() ==> !(#[trigger] s[i] is Occupied),
    ensures
        slots_view(s) == Map::<u64, T>::empty(),
        occupied_count(s) == 0,
        keys_unique(s),
{
    lemma_all_empty_count(s);
    assert forall|k: u64| !(#[trigger] has_key(s, k)) by {
        if has_key(s, k) {
            let i = choose|i: int| 0 <= i < s.len() && matches_key(#[trigger] s[i], k);
            assert(s[i] is Occupied);
        }
    }
    assert(slots_view(s) =~= Map::<u64, T>::empty());
}

/// Updating one slot changes the occupied count by the difference the two
/// slots contribute.
proof fn lemma_occ_count_update<T>(s: Seq<Slot<T>>, i: int, v: Slot<T>)
    requires
        0 <= i < s.len(),
    ensures
        occupied_count(s.update(i, v)) == occupied_count(s) - (if s[i] is Occupied {
            1int
        } else {
            0int
        }) + (if v is Occupied {
            1int
        } else {
            0int
        }),
    decreases s.len(),
{
    let su = s.update(i, v);
    if i == s.len() - 1 {
        assert(su.drop_last() =~= s.drop_last());
        assert(su.last() == v);
    } else {
        assert(su.drop_last() =~= s.drop_last().update(i, v));
        assert(su.last() == s.last());
        lemma_occ_count_update(s.drop_last(), i, v);
    }
}

/// Under unique keys, the slot found for a key is the one holding it.
proof fn lemma_key_at<T>(s: Seq<Slot<T>>, i: int, k: u64)
    requires
        keys_unique(s),
        0 <= i < s.len(),
        matches_key(s[i], k),
    ensures
        has_key(s, k),
        index_of_key(s, k) == i,
        value_of_key(s, k) == slot_value(s[i]),
{
    assert(has_key(s, k));
    let j = index_of_key(s, k);
    assert(0 <= j < s.len() && matches_key(s[j], k));
}

/// Writing a fresh key into an empty slot adds exactly that entry to the
/// represented map and keeps keys unique.
proof fn lemma_fill_view<T>(s: Seq<Slot<T>>, i: int, key: u64, value: T)
    requires
        keys_unique(s),
        0 <= i < s.len(),
        s[i] is Empty,
        !has_key(s, key),
    ensures
        keys_unique(s.update(i, Slot::Occupied { key, value })),
        slots_view(s.update(i, Slot::Occupied { key, value })) == slots_view(s).insert(
            key,
            value,
        ),
{
    let v = Slot::Occupied { key, value };
    let su = s.update(i, v);
    assert forall|p: int, q: int|
        0 <= p < su.len() && 0 <= q < su.len() && p != q && #[trigger] su[p] is Occupied
            && #[trigger] su[q] is Occupied implies slot_key(su[p]) != slot_key(su[q]) by {
        if p == i {
            if slot_key(su[q]) == key {
                assert(matches_key(s[q], key));
                assert(has_key(s, key));
            }
        } else if q == i {
            if slot_key(su[p]) == key {
                assert(matches_key(s[p], key));
                assert(has_key(s, key));
            }
        }
    }
    assert(matches_key(su[i], key));
    lemma_key_at(su, i, key);
    assert forall|k: u64| k != key && #[trigger] has_key(su, k) implies has_key(s, k) by {
        let j = choose|j: int| 0 <= j < su.len() && matches_key(#[trigger] su[j], k);
        assert(j != i);
        assert(matches_key(s[j], k));
    }
    assert forall|k: u64| k != key && #[trigger] has_key(s, k) implies has_key(su, k)
        && value_of_key(su, k) == value_of_key(s, k) by {
        let j = choose|j: int| 0 <= j < s.len() && matches_key(#[trigger] s[j], k);
        assert(j != i);
        lemma_key_at(s, j, k);
        assert(matches_key(su[j], k));
        lemma_key_at(su, j, k);
    }
    assert(slots_view(su) =~= slots_view(s).insert(key, value));
}

/// Replacing the value stored under a key updates exactly that entry of the
/// represented map and keeps keys unique.
proof fn lemma_overwrite_view<T>(s: Seq<Slot<T>>, i: int, value: T)
    requires
        keys_unique(s),
        0 <= i < s.len(),
        s[i] is Occupied,
    ensures
        keys_unique(s.update(i, Slot::Occupied { key: slot_key(s[i]), value })),
        slots_view(s.update(i, Slot::Occupied { key: slot_key(s[i]), value })) == slots_view(
            s,
        ).insert(slot_key(s[i]), value),
{
    let key = slot_key(s[i]);
    let v = Slot::Occupied { key, value };
    let su = s.update(i, v);
    assert forall|p: int, q: int|
        0 <= p < su.len() && 0 <= q < su.len() && p != q && #[trigger] su[p] is Occupied
            && #[trigger] su[q] is Occupied implies slot_key(su[p]) != slot_key(su[q]) by {
        assert(s[p] is Occupied && s[q] is Occupied);
        assert(slot_key(su[p]) == slot_key(s[p]) && slot_key(su[q]) == slot_key(s[q]));
    }
    assert(matches_key(su[i], key));
    lemma_key_at(su, i, key);
    assert forall|k: u64| k != key && #[trigger] has_key(su, k) implies has_key(s, k) by {
        let j = choose|j: int| 0 <= j < su.len() && matches_key(#[trigger] su[j], k);
        assert(j != i);
        assert(matches_key(s[j], k));
    }
    assert forall|k: u64| k != key && #[trigger] has_key(s, k) implies has_key(su, k)
        && value_of_key(su, k) == value_of_key(s, k) by {
        let j = choose|j: int| 0 <= j < s.len() && matches_key(#[trigger] s[j], k);
        assert(j != i);
        lemma_key_at(s, j, k);
        assert(matches_key(su[j], k));
        lemma_key_at(su, j, k);
    }
    assert(slots_view(su) =~= slots_view(s).insert(key, value));
}

/// Emptying the slot that holds a key removes exactly that entry from the
/// represented map and keeps keys unique.
proof fn lemma_clear_view<T>(s: Seq<Slot<T>>, i: int)
    requires
        keys_unique(s),
        0 <= i < s.len(),
        s[i] is Occupied,
    ensures
        keys_unique(s.update(i, Slot::Empty)),
        slots_view(s.update(i, Slot::Empty)) == slots_view(s).remove(slot_key(s[i])),
        !has_key(s.update(i, Slot::Empty), slot_key(s[i])),
{
    let key = slot_key(s[i]);
    let su = s.update(i, Slot::Empty);
    assert forall|p: int, q: int|
        0 <= p < su.len() && 0 <= q < su.len() && p != q && #[trigger] su[p] is Occupied
            && #[trigger] su[q] is Occupied implies slot_key(su[p]) != slot_key(su[q]) by {
        assert(s[p] is Occupied && s[q] is Occupied);
    }
    assert forall|k: u64| #[trigger] has_key(su, k) implies k != key && has_key(s, k) by {
        let j = choose|j: int| 0 <= j < su.len() && matches_key(#[trigger] su[j], k);
        assert(j != i);
        assert(matches_key(s[j], k));
        if k == key {
            assert(matches_key(s[i], key));
            assert(s[j] is Occupied && s[i] is Occupied && slot_key(s[j]) == slot_key(s[i]));
        }
    }
    assert forall|k: u64| k != key && #[trigger] has_key(s, k) implies has_key(su, k)
        && value_of_key(su, k) == value_of_key(s, k) by {
        let j = choose|j: int| 0 <= j < s.len() && matches_key(#[trigger] s[j], k);
        assert(j != i);
        lemma_key_at(s, j, k);
        assert(matches_key(su[j], k));
        lemma_key_at(su, j, k);
    }
    assert(slots_view(su) =~= slots_view(s).remove(key));
}

/// A scan that saw no match at any of `cap` wrapped offsets saw every index,
/// so the key is nowhere in the sequence.
proof fn lemma_scan_misses_key<T>(s: Seq<Slot<T>>, start: int, cap: int, k: u64)
    requires
        cap == s.len(),
        0 <= start < cap,
        forall|u: int| 0 <= u < cap ==> !matches_key(#[trigger] s[wrap_add(start, u, cap)], k),
    ensures
        !has_key(s, k),
{
    assert forall|j: int| 0 <= j < cap implies !matches_key(#[trigger] s[j], k) by {
        let u = if j >= start {
            j - start
        } else {
            j + cap - start
        };
        assert(0 <= u < cap);
        assert(wrap_add(start, u, cap) == j);
        assert(!matches_key(s[wrap_add(start, u, cap)], k));
    }
    if has_key(s, k) {
        let i = choose|i: int| 0 <= i < s.len() && matches_key(#[trigger] s[i], k);
        assert(!matches_key(s[i], k));
    }
}

/// A scan that saw an occupied slot at every wrapped offset saw every index,
/// so every slot is occupied.
proof fn lemma_scan_all_occupied<T>(s: Seq<Slot<T>>, start: int, cap: int)
    requires
        cap == s.len(),
        0 <= start < cap,
        forall|u: int| 0 <= u < cap ==> #[trigger] s[wrap_add(start, u, cap)] is Occupied,
    ensures
        forall|j: int| 0 <= j < s.len() ==> #[trigger] s[j] is Occupied,
{
    assert forall|j: int| 0 <= j < s.len() implies #[trigger] s[j] is Occupied by {
        let u = if j >= start {
            j - start
        } else {
            j + cap - start
        };
        assert(0 <= u < cap);
        assert(wrap_add(start, u, cap) == j);
        assert(s[wrap_add(start, u, cap)] is Occupied);
    }
}

/// A count of zero means no slot is occupied.
proof fn lemma_count_zero_all_empty<T>(s: Seq<Slot<T>>)
    requires
        occupied_count(s) == 0,
    ensures
        forall|i: int| 0 <= i < s.len() ==> !(#[trigger] s[i] is Occupied),
    decreases s.len(),
{
    if s.len() > 0 {
        lemma_count_zero_all_empty(s.drop_last());
        assert forall|i: int| 0 <= i < s.len() implies !(#[trigger] s[i] is Occupied) by {
            if i < s.len() - 1 {
                assert(s.drop_last()[i] == s[i]);
                assert(!(s.drop_last()[i] is Occupied));
            } else {
                assert(!(s.last() is Occupied));
            }
        }
    }
}

/// With no occupied slot there is no first occupied slot.
proof fn lemma_first_occupied_none<T>(s: Seq<Slot<T>>)
    requires
        forall|i: int| 0 <= i < s.len() ==> !(#[trigger] s[i] is Occupied),
    ensures
        first_occupied(s) == -1,
    decreases s.len(),
{
    if s.len() > 0 {
        assert(forall|i: int|
            0 <= i < s.drop_first().len() ==> !(#[trigger] s.drop_first()[i] is Occupied));
        lemma_first_occupied_none(s.drop_first());
    }
}

/// An occupied slot preceded only by empty slots is the first occupied one.
proof fn lemma_first_occupied_is<T>(s: Seq<Slot<T>>, i: int)
    requires
        0 <= i < s.len(),
        s[i] is Occupied,
        forall|j: int| 0 <= j < i ==> !(#[trigger] s[j] is Occupied),
    ensures
        first_occupied(s) == i,
    decreases i,
{
    if i > 0 {
        let rest = s.drop_first();
        assert(rest[i - 1] == s[i]);
        assert(forall|j: int| 0 <= j < i - 1 ==> #[trigger] rest[j] == s[j + 1]);
        lemma_first_occupied_is(rest, i - 1);
    }
}

/// Extending a prefix by one slot adds that slot's contribution to the count.
proof fn lemma_occ_take_step<T>(s: Seq<Slot<T>>, i: int)
    requires
        0 <= i < s.len(),
    ensures
        occupied_count(s.take(i + 1)) == occupied_count(s.take(i)) + (if s[i] is Occupied {
            1nat
        } else {
            0nat
        }),
{
    assert(s.take(i + 1).drop_last() =~= s.take(i));
    assert(s.take(i + 1).last() == s[i]);
}

/// A prefix never holds more occupied slots than the whole sequence.
proof fn lemma_occ_take_le<T>(s: Seq<Slot<T>>, i: int)
    requires
        0 <= i <= s.len(),
    ensures
        occupied_count(s.take(i)) <= occupied_count(s),
    decreases s.len() - i,
{
    if i == s.len() {
        assert(s.take(i) =~= s);
    } else {
        lemma_occ_take_step(s, i);
        lemma_occ_take_le(s, i + 1);
    }
}

/// A prefix of a sequence with unique keys has unique keys itself.
proof fn lemma_take_unique<T>(s: Seq<Slot<T>>, i: int)
    requires
        keys_unique(s),
        0 <= i <= s.len(),
    ensures
        keys_unique(s.take(i)),
{
    let p = s.take(i);
    assert forall|a: int, b: int|
        0 <= a < p.len() && 0 <= b < p.len() && a != b && #[trigger] p[a] is Occupied
            && #[trigger] p[b] is Occupied implies slot_key(p[a]) != slot_key(p[b]) by {
        assert(p[a] == s[a] && p[b] == s[b]);
    }
}

/// Growing a prefix by one slot extends the represented map by that slot's
/// entry, whose key the prefix does not yet hold.
proof fn lemma_take_view_step<T>(s: Seq<Slot<T>>, i: int)
    requires
        keys_unique(s),
        0 <= i < s.len(),
    ensures
        s[i] is Occupied ==> !has_key(s.take(i), slot_key(s[i])) && slots_view(s.take(i + 1))
            == slots_view(s.take(i)).insert(slot_key(s[i]), slot_value(s[i])),
        !(s[i] is Occupied) ==> slots_view(s.take(i + 1)) == slots_view(s.take(i)),
{
    let p = s.take(i);
    let p1 = s.take(i + 1);
    lemma_take_unique(s, i);
    lemma_take_unique(s, i + 1);
    assert(forall|j: int| 0 <= j < i ==> #[trigger] p[j] == s[j]);
    assert(forall|j: int| 0 <= j <= i ==> #[trigger] p1[j] == s[j]);
    assert forall|k: u64| #[trigger] has_key(p, k) implies has_key(p1, k) && value_of_key(p1, k)
        == value_of_key(p, k) by {
        let j = choose|j: int| 0 <= j < p.len() && matches_key(#[trigger] p[j], k);
        lemma_key_at(p, j, k);
        assert(matches_key(p1[j], k));
        lemma_key_at(p1, j, k);
    }
    if s[i] is Occupied {
        let k0 = slot_key(s[i]);
        assert(!has_key(p, k0)) by {
            if has_key(p, k0) {
                let j = choose|j: int| 0 <= j < p.len() && matches_key(#[trigger] p[j], k0);
                assert(matches_key(s[j], k0));
                assert(matches_key(s[i], k0));
            }
        }
        assert(matches_key(p1[i], k0));
        lemma_key_at(p1, i, k0);
        assert forall|k: u64| k != k0 && #[trigger] has_key(p1, k) implies has_key(p, k) by {
            let j = choose|j: int| 0 <= j < p1.len() && matches_key(#[trigger] p1[j], k);
            assert(j != i);
            assert(matches_key(p[j], k));
        }
        assert(slots_view(p1) =~= slots_view(p).insert(k0, slot_value(s[i])));
    } else {
        assert forall|k: u64| #[trigger] has_key(p1, k) implies has_key(p, k) by {
            let j = choose|j: int| 0 <= j < p1.len() && matches_key(#[trigger] p1[j], k);
            assert(j != i);
            assert(matches_key(p[j], k));
        }
        assert(slots_view(p1) =~= slots_view(p));
    }
}

/// Under unique keys, the key set is finite and as large as the number of
/// occupied slots.
proof fn lemma_key_set_card<T>(s: Seq<Slot<T>>)
    requires
        keys_unique(s),
    ensures
        key_set(s).finite(),
        key_set(s).len() == occupied_count(s),
    decreases s.len(),
{
    if s.len() == 0 {
        assert forall|k: u64| !(#[trigger] has_key(s, k)) by {
            if has_key(s, k) {
                let i = choose|i: int| 0 <= i < s.len() && matches_key(#[trigger] s[i], k);
            }
        }
        assert(key_set(s) =~= Set::<u64>::empty());
    } else {
        let pre = s.drop_last();
        let n = s.len() - 1;
        assert(forall|j: int| 0 <= j < n ==> #[trigger] pre[j] == s[j]);
        assert forall|a: int, b: int|
            0 <= a < pre.len() && 0 <= b < pre.len() && a != b && #[trigger] pre[a] is Occupied
                && #[trigger] pre[b] is Occupied implies slot_key(pre[a]) != slot_key(pre[b]) by {
            assert(pre[a] == s[a] && pre[b] == s[b]);
        }
        lemma_key_set_card(pre);
        if s.last() is Occupied {
            let kl = slot_key(s[n]);
            assert(!has_key(pre, kl)) by {
                if has_key(pre, kl) {
                    let j = choose|j: int| 0 <= j < pre.len() && matches_key(#[trigger] pre[j], kl);
                    assert(matches_key(s[j], kl));
                    assert(matches_key(s[n], kl));
                }
            }
            assert forall|k: u64| #[trigger] has_key(s, k) implies k == kl || has_key(pre, k) by {
                let j = choose|j: int| 0 <= j < s.len() && matches_key(#[trigger] s[j], k);
                if j != n {
                    assert(matches_key(pre[j], k));
                }
            }
            assert forall|k: u64| #[trigger] has_key(pre, k) implies has_key(s, k) by {
                let j = choose|j: int| 0 <= j < pre.len() && matches_key(#[trigger] pre[j], k);
                assert(matches_key(s[j], k));
            }
            assert(matches_key(s[n], kl));
            assert(has_key(s, kl));
            assert(key_set(s) =~= key_set(pre).insert(kl));
            assert(!key_set(pre).contains(kl));
        } else {
            assert forall|k: u64| #[trigger] has_key(s, k) implies has_key(pre, k) by {
                let j = choose|j: int| 0 <= j < s.len() && matches_key(#[trigger] s[j], k);
                assert(j != n);
                assert(matches_key(pre[j], k));
            }
            assert forall|k: u64| #[trigger] has_key(pre, k) implies has_key(s, k) by {
                let j = choose|j: int| 0 <= j < pre.len() && matches_key(#[trigger] pre[j], k);
                assert(matches_key(s[j], k));
            }
            assert(key_set(s) =~= key_set(pre));
        }
    }
}

/// The entry count of a well-formed table equals the number of keys of its
/// abstract map: `len()` counts distinct inserted keys.
pub proof fn lemma_size_is_key_count<T>(m: HashTable<T>)
    requires
        m.wf(),
    ensures
        m@.dom().finite(),
        m@.dom().len() == m.size,
{
    lemma_key_set_card(m.data@);
    assert(m@.dom() =~= key_set(m.data@));
}

/// A slot vector of the given length with every slot empty.
fn new_empty_slots<T>(cap: usize) -> (v: Vec<Slot<T>>)
    ensures
        v@.len() == cap,
        forall|i: int| 0 <= i < cap ==> !(#[trigger] v@[i] is Occupied),
{
    let mut v: Vec<Slot<T>> = Vec::new();
    let mut i: usize = 0;
    while i < cap
        invariant
            i <= cap,
            v@.len() == i,
            forall|j: int| 0 <= j < i ==> !(#[trigger] v@[j] is Occupied),
        decreases cap - i,
    {
        v.push(Slot::Empty);
        i = i + 1;
    }
    v
}

/// Construct an empty table with the fixed initial capacity.
pub fn hashmap_new<T>() -> (m: HashTable<T>)
    ensures
        m.wf(),
        m@ == Map::<u64, T>::empty(),
        m.size == 0,
        m.table_size == INIT_CAP,
{
    let data = new_empty_slots::<T>(INIT_CAP);
    let m = HashTable { table_size: INIT_CAP, size: 0, data };
    proof {
        lemma_view_of_empties(m.data@);
    }
    m
}

/// The number of entries the table currently holds: one per distinct key of
/// its abstract map.
pub fn hashmap_length<T>(m: &HashTable<T>) -> (r: usize)
    requires
        m.wf(),
    ensures
        r == m.size,
        r == m@.dom().len(),
{
    proof {
        lemma_size_is_key_count(*m);
    }
    m.size
}

/// Spread a key over the slot range: the avalanche mix of [`spec_mix`]
/// followed by a reduction modulo the capacity. Deterministic in
/// `(key, table_size)`.
pub fn hashmap_hash_int<T>(m: &HashTable<T>, key: u64) -> (r: usize)
    requires
        m.table_size > 0,
    ensures
        r < m.table_size,
        r == spec_mix(key) % (m.table_size as u64),
{
    let mut k: u64 = key;
    k = k.wrapping_add(k << 12u64);
    k = k ^ (k >> 22u64);
    k = k.wrapping_add(k << 4u64);
    k = k ^ (k >> 9u64);
    k = k.wrapping_add(k << 10u64);
    k = k ^ (k >> 2u64);
    k = k.wrapping_add(k << 7u64);
    k = k ^ (k >> 12u64);
    k = (k >> 3u64).wrapping_mul(2654435761u64);
    (k % (m.table_size as u64)) as usize
}

/// Probe for `key`: scan at most `table_size` slots from the hashed index,
/// wrapping at the end. The scan reports the slot holding `key` if one does,
/// otherwise the first empty slot it passed, and `Full` only when every slot
/// is occupied by another key.
pub fn hashmap_hash<T>(m: &HashTable<T>, key: u64) -> (r: Probe)
    requires
        m.data@.len() == m.table_size,
        m.table_size > 0,
    ensures
        r matches Probe::Found(i) ==> i < m.data@.len() && matches_key(m.data@[i as int], key),
        r matches Probe::Vacant(i) ==> i < m.data@.len() && m.data@[i as int] is Empty && !has_key(
            m.data@,
            key,
        ),
        r is Full ==> !has_key(m.data@, key) && forall|j: int|
            0 <= j < m.data@.len() ==> #[trigger] m.data@[j] is Occupied,
        has_key(m.data@, key) ==> r is Found,
{
    let ts = m.table_size;
    let start = hashmap_hash_int(m, key);
    let mut cur: usize = start;
    let mut first_empty: Option<usize> = None;
    let mut t: usize = 0;
    while t < ts
        invariant
            ts == m.table_size,
            m.data@.len() == ts,
            0 < ts,
            start < ts,
            t <= ts,
            cur as int == wrap_add(start as int, t as int, ts as int),
            cur < ts,
            forall|u: int|
                0 <= u < t ==> !matches_key(
                    #[trigger] m.data@[wrap_add(start as int, u, ts as int)],
                    key,
                ),
            match first_empty {
                Some(e) => e < ts && m.data@[e as int] is Empty,
                None => forall|u: int|
                    0 <= u < t ==> #[trigger] m.data@[wrap_add(
                        start as int,
                        u,
                        ts as int,
                    )] is Occupied,
            },
        decreases ts - t,
    {
        match &m.data[cur] {
            Slot::Occupied { key: k, value: _ } => {
                if *k == key {
                    return Probe::Found(cur);
                }
            },
            Slot::Empty => {
                if first_empty.is_none() {
                    first_empty = Some(cur);
                }
            },
        }
        t = t + 1;
        cur = if cur == ts - 1 {
            0
        } else {
            cur + 1
        };
    }
    proof {
        lemma_scan_misses_key(m.data@, start as int, ts as int, key);
    }
    match first_empty {
        Some(e) => Probe::Vacant(e),
        None => {
            proof {
                lemma_scan_all_occupied(m.data@, start as int, ts as int);
            }
            Probe::Full
        },
    }
}

/// Fetch the value stored under `key`, if any, by scanning from the hashed
/// index. The table is not changed.
pub fn hashmap_get<T: Copy>(m: &HashTable<T>, key: u64) -> (r: Option<T>)
    requires
        m.wf(),
    ensures
        r == spec_lookup(m@, key),
{
    match hashmap_hash(m, key) {
        Probe::Found(i) => {
            proof {
                lemma_key_at(m.data@, i as int, key);
            }
            match m.data[i] {
                Slot::Occupied { key: _, value } => Some(value),
                Slot::Empty => None,
            }
        },
        Probe::Vacant(_) => None,
        Probe::Full => None,
    }
}

/// Place a key the table does not yet hold into an empty slot. The spare
/// capacity demanded here keeps at least one slot free afterwards.
fn insert_fresh<T>(m: &mut HashTable<T>, key: u64, value: T)
    requires
        old(m).wf(),
        !old(m)@.contains_key(key),
        old(m).size + 1 < old(m).table_size,
    ensures
        final(m).wf(),
        final(m)@ == old(m)@.insert(key, value),
        final(m).size == old(m).size + 1,
        final(m).table_size == old(m).table_size,
{
    let pr = hashmap_hash(m, key);
    match pr {
        Probe::Vacant(i) => {
            proof {
                lemma_fill_view(m.data@, i as int, key, value);
                lemma_occ_count_update(m.data@, i as int, Slot::Occupied { key, value });
            }
            m.data.set(i, Slot::Occupied { key, value });
            m.size = m.size + 1;
        },
        Probe::Found(i) => {
            proof {
                assert(matches_key(m.data@[i as int], key));
                assert(has_key(m.data@, key));
                assert(false);
            }
        },
        Probe::Full => {
            proof {
                lemma_all_occupied_count(m.data@);
                assert(false);
            }
        },
    }
}

/// Insert `value` under `key`, overwriting the value of a key already
/// present without changing the entry count. When the last free slot would
/// be consumed, the table first doubles its capacity; only a doubling that
/// would overflow the address space fails, leaving the table unchanged.
pub fn hashmap_put<T: Copy>(m: &mut HashTable<T>, key: u64, value: T) -> (r: Result<
    (),
    TableError,
>)
    requires
        old(m).wf(),
    ensures
        final(m).wf(),
        r is Ok ==> final(m)@ == old(m)@.insert(key, value),
        r is Ok ==> final(m).size == old(m).size + (if old(m)@.contains_key(key) {
            0int
        } else {
            1int
        }),
        r is Ok <==> (old(m)@.contains_key(key) || old(m).size + 1 < old(m).table_size
            || old(m).table_size <= usize::MAX / 2),
        r is Err ==> r == Err::<(), TableError>(TableError::OutOfMemory) && *final(m) == *old(m),
        final(m).table_size >= old(m).table_size,
        old(m)@.contains_key(key) || old(m).size + 1 < old(m).table_size ==> final(m).table_size
            == old(m).table_size,
        !old(m)@.contains_key(key) && old(m).size + 1 >= old(m).table_size && old(m).table_size
            <= usize::MAX / 2 ==> final(m).table_size == 2 * old(m).table_size,
{
    let pr = hashmap_hash(m, key);
    match pr {
        Probe::Found(i) => {
            proof {
                lemma_key_at(m.data@, i as int, key);
                lemma_overwrite_view(m.data@, i as int, value);
                lemma_occ_count_update(m.data@, i as int, Slot::Occupied { key, value });
            }
            m.data.set(i, Slot::Occupied { key, value });
            Ok(())
        },
        Probe::Vacant(_) | Probe::Full => {
            if m.size + 1 < m.table_size {
                insert_fresh(m, key, value);
                Ok(())
            } else if m.table_size <= usize::MAX / 2 {
                hashmap_rehash(m);
                insert_fresh(m, key, value);
                Ok(())
            } else {
                Err(TableError::OutOfMemory)
            }
        },
    }
}

/// Double the capacity: swap in a fresh all-empty slot vector of twice the
/// size and re-insert every entry of the old one in slot order. The
/// represented map and the entry count do not change.
pub fn hashmap_rehash<T: Copy>(m: &mut HashTable<T>)
    requires
        old(m).wf(),
        old(m).table_size <= usize::MAX / 2,
    ensures
        final(m).wf(),
        final(m)@ == old(m)@,
        final(m).size == old(m).size,
        final(m).table_size == 2 * old(m).table_size,
{
    let old_cap = m.table_size;
    let new_cap = 2 * old_cap;
    let mut old_data = new_empty_slots::<T>(new_cap);
    core::mem::swap(&mut m.data, &mut old_data);
    m.table_size = new_cap;
    m.size = 0;
    let ghost s = old_data@;
    proof {
        lemma_view_of_empties(m.data@);
        assert(s.take(0) =~= Seq::<Slot<T>>::empty());
        lemma_all_empty_count(s.take(0));
        assert forall|k: u64| !(#[trigger] has_key(s.take(0), k)) by {
            if has_key(s.take(0), k) {
                let i = choose|i: int| 0 <= i < s.take(0).len() && matches_key(
                    #[trigger] s.take(0)[i],
                    k,
                );
            }
        }
        assert(slots_view(s.take(0)) =~= Map::<u64, T>::empty());
    }
    let mut i: usize = 0;
    while i < old_cap
        invariant
            m.wf(),
            m.table_size == new_cap,
            new_cap == 2 * old_cap,
            old_cap < new_cap,
            i <= old_cap,
            old_data@ == s,
            s.len() == old_cap,
            keys_unique(s),
            occupied_count(s) < old_cap,
            m@ == slots_view(s.take(i as int)),
            m.size == occupied_count(s.take(i as int)),
        decreases old_cap - i,
    {
        let slot = old_data[i];
        proof {
            lemma_take_view_step(s, i as int);
            lemma_occ_take_step(s, i as int);
            lemma_occ_take_le(s, i as int + 1);
        }
        match slot {
            Slot::Occupied { key, value } => {
                insert_fresh(m, key, value);
            },
            Slot::Empty => {},
        }
        i = i + 1;
    }
    proof {
        assert(s.take(old_cap as int) =~= s);
    }
}

/// Return the value of the first occupied slot in index order, or `None` on
/// an empty table. With `remove` set, the returned entry is also removed:
/// its slot is blanked and the count decremented.
pub fn hashmap_get_one<T: Copy>(m: &mut HashTable<T>, remove: bool) -> (r: Option<T>)
    requires
        old(m).wf(),
    ensures
        final(m).wf(),
        final(m).table_size == old(m).table_size,
        r == spec_peek(old(m).data@),
        (old(m).size == 0) <==> r is None,
        !remove ==> *final(m) == *old(m),
        remove && old(m).size == 0 ==> *final(m) == *old(m),
        old(m).size > 0 ==> old(m)@.contains_key(peek_key(old(m).data@)) && r == Some(
            old(m)@[peek_key(old(m).data@)],
        ),
        remove && old(m).size > 0 ==> final(m)@ == old(m)@.remove(peek_key(old(m).data@))
            && final(m).size + 1 == old(m).size
            && !final(m)@.contains_key(peek_key(old(m).data@)),
{
    if m.size == 0 {
        proof {
            lemma_count_zero_all_empty(m.data@);
            lemma_first_occupied_none(m.data@);
        }
        return None;
    }
    let ts = m.table_size;
    let mut i: usize = 0;
    while i < ts
        invariant
            m.wf(),
            *m == *old(m),
            ts == m.table_size,
            m.size > 0,
            i <= ts,
            forall|j: int| 0 <= j < i ==> !(#[trigger] m.data@[j] is Occupied),
        decreases ts - i,
    {
        match m.data[i] {
            Slot::Occupied { key, value } => {
                proof {
                    lemma_first_occupied_is(m.data@, i as int);
                    lemma_key_at(m.data@, i as int, key);
                }
                if remove {
                    proof {
                        lemma_clear_view(m.data@, i as int);
                        lemma_occ_count_update(m.data@, i as int, Slot::Empty);
                    }
                    m.data.set(i, Slot::Empty);
                    m.size = m.size - 1;
                }
                return Some(value);
            },
            Slot::Empty => {},
        }
        i = i + 1;
    }
    proof {
        lemma_all_empty_count(m.data@);
        assert(false);
    }
    None
}

/// Remove the entry stored under `key`, blanking its slot, or report
/// `NotFound` and leave the table unchanged.
pub fn hashmap_remove<T>(m: &mut HashTable<T>, key: u64) -> (r: Result<(), TableError>)
    requires
        old(m).wf(),
    ensures
        final(m).wf(),
        final(m).table_size == old(m).table_size,
        old(m)@.contains_key(key) ==> r is Ok && final(m)@ == old(m)@.remove(key) && final(m).size
            + 1 == old(m).size,
        !old(m)@.contains_key(key) ==> r == Err::<(), TableError>(TableError::NotFound) && *final(m)
            == *old(m),
{
    match hashmap_hash(m, key) {
        Probe::Found(i) => {
            proof {
                lemma_key_at(m.data@, i as int, key);
                lemma_clear_view(m.data@, i as int);
                lemma_occ_count_update(m.data@, i as int, Slot::Empty);
            }
            m.data.set(i, Slot::Empty);
            m.size = m.size - 1;
            Ok(())
        },
        Probe::Vacant(_) => Err(TableError::NotFound),
        Probe::Full => Err(TableError::NotFound),
    }
}

} // verus!
