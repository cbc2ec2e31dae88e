//! The interval store that backs each named buffer.
//!
//! The store itself is an outside collaborator: `bumpy_vector::BumpyVector`
//! keeps non-overlapping, variably-sized entries keyed by their starting
//! offset, rejects overlapping, zero-sized and out-of-bounds insertions, and
//! answers point lookups and removals at any offset inside an entry's span.
//! This module declares that type, gives names to what a store holds
//! ([`store_entries`]) and to the bound it was created with
//! ([`store_max_size`]), and wraps the handful of methods the engine calls.
//! Everything above this module is verified against these contracts.

use vstd::prelude::*;

use crate::entry::{EntrySpec, MultiEntry};

verus! {

#[verifier::external_type_specification]
#[verifier::external_body]
#[verifier::reject_recursive_types(T)]
pub struct ExBumpyVector<T>(bumpy_vector::BumpyVector<T>);

/// The contents of a store: a finite map from each entry's starting offset to
/// the entry's span length and wrapped payload.
pub uninterp spec fn store_entries(v: bumpy_vector::BumpyVector<MultiEntry>) -> Map<int, EntrySpec>;

/// The fixed maximum size the store was created with: every stored entry lies
/// within `[0, store_max_size)`.
pub uninterp spec fn store_max_size(v: bumpy_vector::BumpyVector<MultiEntry>) -> int;

/// The entry keyed at `k` occupies the offset `off`.
pub open spec fn entry_covers(m: Map<int, EntrySpec>, k: int, off: int) -> bool {
    m.dom().contains(k) && k <= off < k + m[k].size
}

/// Some stored entry occupies the offset `off`.
pub open spec fn some_entry_covers(m: Map<int, EntrySpec>, off: int) -> bool {
    exists|k: int| entry_covers(m, k, off)
}

/// No stored entry intersects the half-open range `[off, off + size)`.
pub open spec fn range_free(m: Map<int, EntrySpec>, off: int, size: int) -> bool {
    forall|k: int| #[trigger] m.dom().contains(k) ==> k + m[k].size <= off || off + size <= k
}

/// What holds of the contents of every store the engine builds: finitely many
/// entries, each non-empty, within bounds, and pairwise non-overlapping.
pub open spec fn store_wf(m: Map<int, EntrySpec>, cap: int) -> bool {
    &&& m.dom().finite()
    &&& 0 <= cap <= usize::MAX
    &&& forall|k: int| #[trigger] m.dom().contains(k) ==> 0 <= k && 1 <= m[k].size && k + m[k].size
        <= cap
    &&& forall|k1: int, k2: int|
        #![trigger m.dom().contains(k1), m.dom().contains(k2)]
        m.dom().contains(k1) && m.dom().contains(k2) && k1 != k2 ==> k1 + m[k1].size <= k2 || k2
            + m[k2].size <= k1
}

/// In a well-formed store at most one entry occupies any given offset.
pub proof fn lemma_cover_unique(m: Map<int, EntrySpec>, cap: int, off: int, k1: int, k2: int)
    requires
        store_wf(m, cap),
        entry_covers(m, k1, off),
        entry_covers(m, k2, off),
    ensures
        k1 == k2,
{
}

/// Relies on `bumpy_vector::BumpyVector::new`: returns an empty store with
/// the given maximum size.
#[verifier::external_body]
pub(crate) fn bv_new(max_size: usize) -> (r: bumpy_vector::BumpyVector<MultiEntry>)
    ensures
        (store_entries(r) == Map::<int, EntrySpec>::empty()),
        store_max_size(r) == max_size as int,
{
    bumpy_vector::BumpyVector::new(max_size)
}

/// Relies on `bumpy_vector::BumpyVector::max_size`: returns the maximum size
/// the store was created with.
#[verifier::external_body]
pub(crate) fn bv_max_size(v: &bumpy_vector::BumpyVector<MultiEntry>) -> (r: usize)
    ensures
        r as int == store_max_size(*v),
{
    v.max_size()
}

/// Relies on `bumpy_vector::BumpyVector::len`: returns the number of stored
/// entries, which fits in a `usize`.
#[verifier::external_body]
pub(crate) fn bv_len(v: &bumpy_vector::BumpyVector<MultiEntry>) -> (r: usize)
    ensures
        r as int == store_entries(*v).len(),
{
    v.len()
}

/// Relies on `bumpy_vector::BumpyVector::insert`: rejects a zero-sized entry,
/// an entry that would end past the maximum size, and an entry whose span
/// intersects a stored one; otherwise stores the entry keyed by its starting
/// offset. The overflow bound in `requires` keeps the store's own
/// `index + size` addition from overflowing.
#[verifier::external_body]
pub(crate) fn bv_insert(
    v: &mut bumpy_vector::BumpyVector<MultiEntry>,
    index: usize,
    size: usize,
    entry: MultiEntry,
) -> (r: bool)
    requires
        store_wf(store_entries(*old(v)), store_max_size(*old(v))),
        index + size <= usize::MAX,
    ensures
        store_max_size(*final(v)) == store_max_size(*old(v)),
        r == (1 <= size && index + size <= store_max_size(*old(v)) && range_free(
            store_entries(*old(v)),
            index as int,
            size as int,
        )),
        r ==> store_entries(*final(v)) == store_entries(*old(v)).insert(
            index as int,
            EntrySpec { size: size as int, entry: entry@ },
        ),
        !r ==> store_entries(*final(v)) == store_entries(*old(v)),
{
    v.insert(bumpy_vector::BumpyEntry { entry, index, size }).is_ok()
}

/// Relies on `bumpy_vector::BumpyVector::get`: returns the starting offset,
/// span length and payload of the entry whose span covers the given offset,
/// or nothing when no entry does. The store keys every entry by its starting
/// offset, so the returned starting offset is the entry's key.
#[verifier::external_body]
pub(crate) fn bv_get<'a>(v: &'a bumpy_vector::BumpyVector<MultiEntry>, index: usize) -> (r: Option<
    (usize, usize, &'a MultiEntry),
>)
    requires
        store_wf(store_entries(*v), store_max_size(*v)),
    ensures
        r is Some <==> some_entry_covers(store_entries(*v), index as int),
        r matches Some((start, size, entry)) ==> {
            &&& entry_covers(store_entries(*v), start as int, index as int)
            &&& store_entries(*v)[start as int] == EntrySpec { size: size as int, entry: entry@ }
        },
{
    match v.get(index) {
        Some(e) => Some((e.index, e.size, &e.entry)),
        None => None,
    }
}

/// Relies on `bumpy_vector::BumpyVector::remove`: removes and returns the
/// entry whose span covers the given offset, or nothing (and changes nothing)
/// when no entry does. As with `get`, the returned starting offset is the
/// removed entry's key.
#[verifier::external_body]
pub(crate) fn bv_remove(v: &mut bumpy_vector::BumpyVector<MultiEntry>, index: usize) -> (r: Option<
    (usize, usize, MultiEntry),
>)
    requires
        store_wf(store_entries(*old(v)), store_max_size(*old(v))),
    ensures
        store_max_size(*final(v)) == store_max_size(*old(v)),
        r is Some <==> some_entry_covers(store_entries(*old(v)), index as int),
        r matches Some((start, size, entry)) ==> {
            &&& entry_covers(store_entries(*old(v)), start as int, index as int)
            &&& store_entries(*old(v))[start as int] == EntrySpec {
                size: size as int,
                entry: entry@,
            }
            &&& store_entries(*final(v)) == store_entries(*old(v)).remove(start as int)
        },
        r is None ==> store_entries(*final(v)) == store_entries(*old(v)),
{
    match v.remove(index) {
        Some(e) => Some((e.index, e.size, e.entry)),
        None => None,
    }
}

} // verus!
