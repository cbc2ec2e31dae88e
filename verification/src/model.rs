//! The mathematical model of the engine.
//!
//! A registry is a sequence of named stores; its value is a map from buffer
//! name to [`BufferModel`]. Every public operation of the engine is specified
//! against this map, and the group operations are modelled by the recursive
//! functions below, which walk a link record coordinate by coordinate.

use vstd::prelude::*;

use crate::entry::{CoordSpec, EntrySpec, MultiEntry, MultiEntrySpec};
use crate::store::{entry_covers, range_free, store_entries, store_max_size, store_wf};

verus! {

/// One named buffer as the registry holds it.
pub type StorePair = (String, bumpy_vector::BumpyVector<MultiEntry>);

/// The mathematical value of one buffer: its fixed capacity and its entries,
/// keyed by starting offset.
pub ghost struct BufferModel {
    pub capacity: int,
    pub entries: Map<int, EntrySpec>,
}

/// The mathematical value of the whole registry: a map from buffer name to
/// buffer value.
pub type RegView = Map<Seq<char>, BufferModel>;

/// The value of one store.
pub open spec fn buf_model(v: bumpy_vector::BumpyVector<MultiEntry>) -> BufferModel {
    BufferModel { capacity: store_max_size(v), entries: store_entries(v) }
}

/// Some pair of the sequence carries the name `n`.
pub open spec fn has_name(s: Seq<StorePair>, n: Seq<char>) -> bool {
    exists|i: int| 0 <= i < s.len() && (#[trigger] s[i]).0@ == n
}

/// The index of the pair that carries the name `n`.
pub open spec fn index_of_name(s: Seq<StorePair>, n: Seq<char>) -> int {
    choose|i: int| 0 <= i < s.len() && (#[trigger] s[i]).0@ == n
}

/// The registry sequence as a map from buffer name to buffer value.
pub open spec fn reg_view(s: Seq<StorePair>) -> RegView {
    Map::new(|n: Seq<char>| has_name(s, n), |n: Seq<char>| buf_model(s[index_of_name(s, n)].1))
}

/// No two pairs carry the same name.
pub open spec fn unique_names(s: Seq<StorePair>) -> bool {
    forall|i: int, j: int| 0 <= i < j < s.len() ==> (#[trigger] s[i]).0@ != (#[trigger] s[j]).0@
}

/// Every store of the sequence is well-formed.
pub open spec fn stores_wf(s: Seq<StorePair>) -> bool {
    forall|i: int|
        0 <= i < s.len() ==> store_wf(
            store_entries((#[trigger] s[i]).1),
            store_max_size(s[i].1),
        )
}

/// The registry sequence is well-formed: names are unique and every store is.
pub open spec fn reg_wf(s: Seq<StorePair>) -> bool {
    unique_names(s) && stores_wf(s)
}

/// Every buffer of a registry value is well-formed.
pub open spec fn rv_wf(rv: RegView) -> bool {
    forall|n: Seq<char>| #[trigger] rv.contains_key(n) ==> store_wf(rv[n].entries, rv[n].capacity)
}

/// The total number of entries across all stores of the sequence.
pub open spec fn total_of(s: Seq<StorePair>) -> int
    decreases s.len(),
{
    if s.len() == 0 {
        0
    } else {
        total_of(s.drop_last()) + store_entries(s.last().1).len()
    }
}

pub proof fn lemma_view_index(s: Seq<StorePair>, i: int)
    requires
        unique_names(s),
        0 <= i < s.len(),
    ensures
        reg_view(s).contains_key(s[i].0@),
        reg_view(s)[s[i].0@] == buf_model(s[i].1),
        index_of_name(s, s[i].0@) == i,
{
    assert(has_name(s, s[i].0@));
    let j = index_of_name(s, s[i].0@);
    assert(0 <= j < s.len() && s[j].0@ == s[i].0@);
    if j != i {
        assert(s[i].0@ != s[j].0@);
    }
}

pub proof fn lemma_view_wf(s: Seq<StorePair>)
    requires
        reg_wf(s),
    ensures
        rv_wf(reg_view(s)),
{
    assert forall|n: Seq<char>| #[trigger] reg_view(s).contains_key(n) implies store_wf(
        reg_view(s)[n].entries,
        reg_view(s)[n].capacity,
    ) by {
        let i = index_of_name(s, n);
        assert(0 <= i < s.len() && s[i].0@ == n);
        lemma_view_index(s, i);
    }
}

pub proof fn lemma_view_push(s: Seq<StorePair>, p: StorePair)
    requires
        unique_names(s),
        !has_name(s, p.0@),
    ensures
        unique_names(s.push(p)),
        reg_view(s.push(p)) == reg_view(s).insert(p.0@, buf_model(p.1)),
{
    let s2 = s.push(p);
    assert forall|i: int, j: int| 0 <= i < j < s2.len() implies (#[trigger] s2[i]).0@
        != (#[trigger] s2[j]).0@ by {
        if j == s.len() {
            assert(s2[i] == s[i]);
            if s2[i].0@ == p.0@ {
                assert(has_name(s, p.0@));
            }
        } else {
            assert(s2[i] == s[i] && s2[j] == s[j]);
        }
    }
    assert forall|n: Seq<char>| #[trigger] has_name(s2, n) <==> (has_name(s, n) || n == p.0@) by {
        if has_name(s2, n) {
            let i = choose|i: int| 0 <= i < s2.len() && (#[trigger] s2[i]).0@ == n;
            if i < s.len() {
                assert(s[i].0@ == n);
                assert(has_name(s, n));
            }
        }
        if has_name(s, n) {
            let i = choose|i: int| 0 <= i < s.len() && (#[trigger] s[i]).0@ == n;
            assert(s2[i].0@ == n);
            assert(has_name(s2, n));
        }
        if n == p.0@ {
            assert(s2[s.len() as int].0@ == n);
            assert(has_name(s2, n));
        }
    }
    assert forall|n: Seq<char>| #[trigger] has_name(s2, n) implies reg_view(s2)[n] == reg_view(
        s,
    ).insert(p.0@, buf_model(p.1))[n] by {
        let i = index_of_name(s2, n);
        assert(0 <= i < s2.len() && s2[i].0@ == n);
        lemma_view_index(s2, i);
        if n == p.0@ {
            if i < s.len() {
                assert(s[i].0@ == p.0@);
                assert(has_name(s, p.0@));
            }
            assert(i == s.len() as int);
            assert(s2[i].1 == p.1);
        } else {
            assert(i < s.len());
            assert(s[i] == s2[i]);
            lemma_view_index(s, i);
        }
    }
    assert(reg_view(s2) =~= reg_view(s).insert(p.0@, buf_model(p.1)));
}

pub proof fn lemma_view_update(s: Seq<StorePair>, i: int, p: StorePair)
    requires
        unique_names(s),
        0 <= i < s.len(),
        p.0@ == s[i].0@,
    ensures
        unique_names(s.update(i, p)),
        reg_view(s.update(i, p)) == reg_view(s).insert(p.0@, buf_model(p.1)),
{
    let s2 = s.update(i, p);
    assert forall|a: int, b: int| 0 <= a < b < s2.len() implies (#[trigger] s2[a]).0@
        != (#[trigger] s2[b]).0@ by {
        assert(s2[a].0@ == s[a].0@ && s2[b].0@ == s[b].0@);
    }
    assert forall|n: Seq<char>| has_name(s2, n) <==> has_name(s, n) by {
        if has_name(s2, n) {
            let a = choose|a: int| 0 <= a < s2.len() && (#[trigger] s2[a]).0@ == n;
            assert(s[a].0@ == s2[a].0@);
            assert(has_name(s, n));
        }
        if has_name(s, n) {
            let a = choose|a: int| 0 <= a < s.len() && (#[trigger] s[a]).0@ == n;
            assert(s2[a].0@ == s[a].0@);
            assert(has_name(s2, n));
        }
    }
    assert forall|n: Seq<char>| #[trigger] has_name(s2, n) implies reg_view(s2)[n] == reg_view(
        s,
    ).insert(p.0@, buf_model(p.1))[n] by {
        let a = index_of_name(s2, n);
        assert(0 <= a < s2.len() && s2[a].0@ == n);
        lemma_view_index(s2, a);
        if n == p.0@ {
            if a != i {
                assert(s2[a].0@ == s[a].0@ && s2[i].0@ == s[i].0@);
                assert(s[a].0@ == s[i].0@);
                assert(false);
            }
            assert(s2[a].1 == p.1);
        } else {
            assert(a != i);
            assert(s2[a] == s[a]);
            lemma_view_index(s, a);
        }
    }
    assert(reg_view(s2) =~= reg_view(s).insert(p.0@, buf_model(p.1)));
}

pub proof fn lemma_view_remove(s: Seq<StorePair>, i: int)
    requires
        unique_names(s),
        0 <= i < s.len(),
    ensures
        unique_names(s.remove(i)),
        reg_view(s.remove(i)) == reg_view(s).remove(s[i].0@),
{
    let s2 = s.remove(i);
    assert forall|a: int, b: int| 0 <= a < b < s2.len() implies (#[trigger] s2[a]).0@
        != (#[trigger] s2[b]).0@ by {
        let a0 = if a < i { a } else { a + 1 };
        let b0 = if b < i { b } else { b + 1 };
        assert(s2[a] == s[a0] && s2[b] == s[b0]);
    }
    assert forall|n: Seq<char>| #[trigger] has_name(s2, n) <==> (has_name(s, n) && n != s[i].0@)
        by {
        if has_name(s2, n) {
            let a = choose|a: int| 0 <= a < s2.len() && (#[trigger] s2[a]).0@ == n;
            let a0 = if a < i { a } else { a + 1 };
            assert(s2[a] == s[a0]);
            assert(s[a0].0@ == n);
            assert(has_name(s, n));
            if n == s[i].0@ {
                assert(a0 != i ==> s[a0].0@ != s[i].0@);
                assert(false);
            }
        }
        if has_name(s, n) && n != s[i].0@ {
            let a0 = choose|a0: int| 0 <= a0 < s.len() && (#[trigger] s[a0]).0@ == n;
            assert(a0 != i);
            let a = if a0 < i { a0 } else { a0 - 1 };
            assert(s2[a] == s[a0]);
            assert(has_name(s2, n));
        }
    }
    assert forall|n: Seq<char>| #[trigger] has_name(s2, n) implies reg_view(s2)[n] == reg_view(
        s,
    ).remove(s[i].0@)[n] by {
        let a = index_of_name(s2, n);
        assert(0 <= a < s2.len() && s2[a].0@ == n);
        lemma_view_index(s2, a);
        let a0 = if a < i { a } else { a + 1 };
        assert(s2[a] == s[a0]);
        lemma_view_index(s, a0);
    }
    assert(reg_view(s2) =~= reg_view(s).remove(s[i].0@));
}

pub proof fn lemma_total_push(s: Seq<StorePair>, p: StorePair)
    ensures
        total_of(s.push(p)) == total_of(s) + store_entries(p.1).len(),
{
    assert(s.push(p).drop_last() =~= s);
    assert(s.push(p).last() == p);
}

pub proof fn lemma_total_update(s: Seq<StorePair>, i: int, p: StorePair)
    requires
        0 <= i < s.len(),
    ensures
        total_of(s.update(i, p)) == total_of(s) - store_entries(s[i].1).len() + store_entries(
            p.1,
        ).len(),
    decreases s.len(),
{
    let s2 = s.update(i, p);
    if i == s.len() - 1 {
        assert(s2.drop_last() =~= s.drop_last());
        assert(s2.last() == p);
        assert(s.last() == s[i]);
    } else {
        assert(s2.drop_last() =~= s.drop_last().update(i, p));
        assert(s2.last() == s.last());
        assert(s.drop_last()[i] == s[i]);
        lemma_total_update(s.drop_last(), i, p);
    }
}

pub proof fn lemma_total_remove(s: Seq<StorePair>, i: int)
    requires
        0 <= i < s.len(),
    ensures
        total_of(s.remove(i)) == total_of(s) - store_entries(s[i].1).len(),
    decreases s.len(),
{
    let s2 = s.remove(i);
    if i == s.len() - 1 {
        assert(s2 =~= s.drop_last());
    } else {
        assert(s2.drop_last() =~= s.drop_last().remove(i));
        assert(s2.last() == s.last());
        assert(s.drop_last()[i] == s[i]);
        lemma_total_remove(s.drop_last(), i);
    }
}

/// One item of a group insertion: buffer name, payload, starting offset and
/// span length.
pub ghost struct ItemSpec {
    pub name: Seq<char>,
    pub data: u64,
    pub index: int,
    pub size: int,
}

/// The mathematical value of one exec insertion item.
pub open spec fn item_view(t: (&str, u64, usize, usize)) -> ItemSpec {
    ItemSpec { name: t.0@, data: t.1, index: t.2 as int, size: t.3 as int }
}

/// The mathematical value of an exec insertion list.
pub open spec fn items_view(s: Seq<(&str, u64, usize, usize)>) -> Seq<ItemSpec> {
    s.map_values(|t: (&str, u64, usize, usize)| item_view(t))
}

/// The link record of a group: the coordinates of all its items, in order.
pub open spec fn record_of(items: Seq<ItemSpec>) -> Seq<CoordSpec> {
    items.map_values(|it: ItemSpec| (it.name, it.index))
}

/// The entry stored for an item: its payload wrapped with the group's record.
pub open spec fn wrapped_entry(it: ItemSpec, record: Seq<CoordSpec>) -> EntrySpec {
    EntrySpec {
        size: it.size,
        entry: MultiEntrySpec { vector: it.name, data: it.data, linked: record },
    }
}

/// Whether an item can be inserted into the registry as it stands.
pub open spec fn item_ok(rv: RegView, it: ItemSpec) -> bool {
    &&& rv.contains_key(it.name)
    &&& 1 <= it.size
    &&& 0 <= it.index
    &&& it.index + it.size <= rv[it.name].capacity
    &&& range_free(rv[it.name].entries, it.index, it.size)
}

/// Why an item cannot be inserted; meaningful only when `item_ok` fails.
pub ghost enum InsertFailure {
    UnknownBuffer,
    ZeroLength,
    OutOfBounds,
    Overlap,
}

/// The first reason, in the order the engine checks them, why an item cannot
/// be inserted.
pub open spec fn item_failure(rv: RegView, it: ItemSpec) -> InsertFailure {
    if !rv.contains_key(it.name) {
        InsertFailure::UnknownBuffer
    } else if it.size < 1 {
        InsertFailure::ZeroLength
    } else if it.index + it.size > rv[it.name].capacity {
        InsertFailure::OutOfBounds
    } else {
        InsertFailure::Overlap
    }
}

/// The registry after storing one item wrapped with `record`.
pub open spec fn insert_item(rv: RegView, it: ItemSpec, record: Seq<CoordSpec>) -> RegView {
    rv.insert(
        it.name,
        BufferModel {
            capacity: rv[it.name].capacity,
            entries: rv[it.name].entries.insert(it.index, wrapped_entry(it, record)),
        },
    )
}

/// The registry after inserting every item in order, or nothing as soon as
/// one cannot be inserted.
pub open spec fn group_insert_map(
    rv: RegView,
    items: Seq<ItemSpec>,
    record: Seq<CoordSpec>,
) -> Option<RegView>
    decreases items.len(),
{
    if items.len() == 0 {
        Some(rv)
    } else if !item_ok(rv, items[0]) {
        None
    } else {
        group_insert_map(insert_item(rv, items[0], record), items.drop_first(), record)
    }
}

/// The position and kind of the first item that cannot be inserted, walking
/// the items in order, or nothing when every item can.
pub open spec fn group_insert_failure(
    rv: RegView,
    items: Seq<ItemSpec>,
    record: Seq<CoordSpec>,
) -> Option<(int, InsertFailure)>
    decreases items.len(),
{
    if items.len() == 0 {
        None
    } else if !item_ok(rv, items[0]) {
        Some((0, item_failure(rv, items[0])))
    } else {
        match group_insert_failure(insert_item(rv, items[0], record), items.drop_first(), record) {
            Some((j, f)) => Some((j + 1, f)),
            None => None,
        }
    }
}

/// A whole group insertion: every item stored, each wrapped with the group's
/// own record, or nothing as soon as one cannot be inserted.
pub open spec fn group_insert(rv: RegView, items: Seq<ItemSpec>) -> Option<RegView> {
    group_insert_map(rv, items, record_of(items))
}

/// The coordinate `c` resolves to the entry keyed at `k`.
pub open spec fn coord_found(rv: RegView, c: CoordSpec, k: int) -> bool {
    rv.contains_key(c.0) && entry_covers(rv[c.0].entries, k, c.1)
}

/// Some entry of the named buffer covers the coordinate's offset.
pub open spec fn coord_resolves(rv: RegView, c: CoordSpec) -> bool {
    exists|k: int| coord_found(rv, c, k)
}

/// The starting offset and value of the entry covering `c`, or nothing.
pub open spec fn lookup_coord(rv: RegView, c: CoordSpec) -> Option<(int, EntrySpec)> {
    if coord_resolves(rv, c) {
        let k = choose|k: int| coord_found(rv, c, k);
        Some((k, rv[c.0].entries[k]))
    } else {
        None
    }
}

/// Looks up every coordinate of a record independently, in order.
pub open spec fn group_get(rv: RegView, coords: Seq<CoordSpec>) -> Seq<Option<(int, EntrySpec)>> {
    coords.map_values(|c: CoordSpec| lookup_coord(rv, c))
}

/// The registry after removing the entry covering `c`, if any.
pub open spec fn remove_coord(rv: RegView, c: CoordSpec) -> RegView {
    match lookup_coord(rv, c) {
        Some((k, _)) => rv.insert(
            c.0,
            BufferModel { capacity: rv[c.0].capacity, entries: rv[c.0].entries.remove(k) },
        ),
        None => rv,
    }
}

/// Removes the entry at every coordinate of a record in order, collecting
/// each removed entry or its absence.
pub open spec fn group_remove(rv: RegView, coords: Seq<CoordSpec>) -> (RegView, Seq<
    Option<(int, EntrySpec)>,
>)
    decreases coords.len(),
{
    if coords.len() == 0 {
        (rv, Seq::empty())
    } else {
        let first = lookup_coord(rv, coords[0]);
        let rest = group_remove(remove_coord(rv, coords[0]), coords.drop_first());
        (rest.0, seq![first] + rest.1)
    }
}

/// The record `l` with every occurrence of the coordinate `c` removed, order
/// kept.
pub open spec fn without_coord(l: Seq<CoordSpec>, c: CoordSpec) -> Seq<CoordSpec>
    decreases l.len(),
{
    if l.len() == 0 {
        Seq::empty()
    } else if l.last() == c {
        without_coord(l.drop_last(), c)
    } else {
        without_coord(l.drop_last(), c).push(l.last())
    }
}

/// The registry with the link record of the entry keyed at `k` of buffer `b`
/// replaced by `l`; the entry's span and payload are unchanged.
pub open spec fn set_linked(rv: RegView, b: Seq<char>, k: int, l: Seq<CoordSpec>) -> RegView {
    let e = rv[b].entries[k];
    rv.insert(
        b,
        BufferModel {
            capacity: rv[b].capacity,
            entries: rv[b].entries.insert(
                k,
                EntrySpec {
                    size: e.size,
                    entry: MultiEntrySpec {
                        vector: e.entry.vector,
                        data: e.entry.data,
                        linked: l,
                    },
                },
            ),
        },
    )
}

/// Rewrites the link record of the entry covering `c` to `l`, if any.
pub open spec fn relink_coord(rv: RegView, c: CoordSpec, l: Seq<CoordSpec>) -> RegView {
    match lookup_coord(rv, c) {
        Some((k, _)) => set_linked(rv, c.0, k, l),
        None => rv,
    }
}

/// Rewrites the link record of every entry that a record's coordinates
/// resolve to.
pub open spec fn relink_all(rv: RegView, coords: Seq<CoordSpec>, l: Seq<CoordSpec>) -> RegView
    decreases coords.len(),
{
    if coords.len() == 0 {
        rv
    } else {
        relink_all(relink_coord(rv, coords[0], l), coords.drop_first(), l)
    }
}

/// The registry after unlinking the entry keyed at `k` of buffer `b`: that
/// entry's record becomes the singleton of its own coordinate, and every
/// entry reachable from the rest of its old record gets that rest as its
/// record.
pub open spec fn unlink_at(rv: RegView, b: Seq<char>, k: int) -> RegView {
    let record = rv[b].entries[k].entry.linked;
    let selfc = (b, k);
    let others = without_coord(record, selfc);
    relink_all(set_linked(rv, b, k, seq![selfc]), others, others)
}

/// Removes the entry at every coordinate, last first, and demands that each
/// removal finds its entry: the compensation applied when a group insertion
/// fails partway.
pub open spec fn undo_coords(rv: RegView, coords: Seq<CoordSpec>) -> Option<RegView>
    decreases coords.len(),
{
    if coords.len() == 0 {
        Some(rv)
    } else {
        match lookup_coord(rv, coords.last()) {
            Some(_) => undo_coords(remove_coord(rv, coords.last()), coords.drop_last()),
            None => None,
        }
    }
}

/// Inserting a well-formed item keeps the store well-formed.
pub proof fn lemma_store_wf_insert(m: Map<int, EntrySpec>, cap: int, idx: int, e: EntrySpec)
    requires
        store_wf(m, cap),
        1 <= e.size,
        0 <= idx,
        idx + e.size <= cap,
        range_free(m, idx, e.size),
    ensures
        store_wf(m.insert(idx, e), cap),
        !m.dom().contains(idx),
        m.insert(idx, e).len() == m.len() + 1,
{
    if m.dom().contains(idx) {
        assert(idx + m[idx].size <= idx || idx + e.size <= idx);
    }
    let m2 = m.insert(idx, e);
    assert(m2.dom() =~= m.dom().insert(idx));
    assert(m2.remove(idx) =~= m);
    m2.lemma_remove_key_len(idx);
}

/// A well-formed item goes to a fresh key, and removing that key afterwards
/// restores the registry exactly.
pub proof fn lemma_insert_then_remove(rv: RegView, it: ItemSpec, record: Seq<CoordSpec>)
    requires
        rv_wf(rv),
        item_ok(rv, it),
    ensures
        rv_wf(insert_item(rv, it, record)),
        lookup_coord(insert_item(rv, it, record), (it.name, it.index)) == Some(
            (it.index, wrapped_entry(it, record)),
        ),
        remove_coord(insert_item(rv, it, record), (it.name, it.index)) == rv,
{
    let e = wrapped_entry(it, record);
    let m = rv[it.name].entries;
    let cap = rv[it.name].capacity;
    lemma_store_wf_insert(m, cap, it.index, e);
    let rv2 = insert_item(rv, it, record);
    let m2 = m.insert(it.index, e);
    assert(rv2[it.name].entries == m2);
    assert forall|n: Seq<char>| #[trigger] rv2.contains_key(n) implies store_wf(
        rv2[n].entries,
        rv2[n].capacity,
    ) by {
        if n != it.name {
            assert(rv2[n] == rv[n]);
        }
    }
    let c = (it.name, it.index);
    assert(entry_covers(m2, it.index, it.index));
    assert(coord_found(rv2, c, it.index));
    let k = choose|k: int| coord_found(rv2, c, k);
    crate::store::lemma_cover_unique(m2, cap, it.index, k, it.index);
    assert(lookup_coord(rv2, c) == Some((it.index, e)));
    assert(m2.remove(it.index) =~= m);
    let rv3 = remove_coord(rv2, c);
    assert(rv3[it.name] == rv[it.name]);
    assert(rv3 =~= rv);
}

/// The two walks of a group insertion agree: the map outcome exists exactly
/// when no failure is reported.
pub proof fn lemma_group_insert_outcomes(rv: RegView, items: Seq<ItemSpec>, record: Seq<CoordSpec>)
    ensures
        group_insert_map(rv, items, record) is Some <==> group_insert_failure(
            rv,
            items,
            record,
        ) is None,
    decreases items.len(),
{
    if items.len() == 0 {
    } else if !item_ok(rv, items[0]) {
    } else {
        lemma_group_insert_outcomes(insert_item(rv, items[0], record), items.drop_first(), record);
    }
}

/// One step of a suffix walk: the head of the suffix at `j` is the item at
/// `j`, and its tail is the suffix at `j + 1`.
pub proof fn lemma_skip_step<A>(s: Seq<A>, j: int)
    requires
        0 <= j < s.len(),
    ensures
        s.skip(j)[0] == s[j],
        s.skip(j).drop_first() == s.skip(j + 1),
{
    assert(s.skip(j).drop_first() =~= s.skip(j + 1));
}

/// The mathematical value of one looked-up, still-borrowed entry.
pub open spec fn found_view(o: Option<(usize, usize, &MultiEntry)>) -> Option<(int, EntrySpec)> {
    match o {
        None => None,
        Some((s, z, e)) => Some((s as int, EntrySpec { size: z as int, entry: e@ })),
    }
}

/// The mathematical value of a list of looked-up entries.
pub open spec fn found_views(s: Seq<Option<(usize, usize, &MultiEntry)>>) -> Seq<
    Option<(int, EntrySpec)>,
> {
    s.map_values(|o: Option<(usize, usize, &MultiEntry)>| found_view(o))
}

/// The mathematical value of one removed, owned entry.
pub open spec fn removed_view(o: Option<(usize, usize, MultiEntry)>) -> Option<(int, EntrySpec)> {
    match o {
        None => None,
        Some((s, z, e)) => Some((s as int, EntrySpec { size: z as int, entry: e@ })),
    }
}

/// The mathematical value of a list of removed entries.
pub open spec fn removed_views(s: Seq<Option<(usize, usize, MultiEntry)>>) -> Seq<
    Option<(int, EntrySpec)>,
> {
    s.map_values(|o: Option<(usize, usize, MultiEntry)>| removed_view(o))
}

/// How many lookups of a group walk found an entry.
pub open spec fn count_some(s: Seq<Option<(int, EntrySpec)>>) -> int
    decreases s.len(),
{
    if s.len() == 0 {
        0
    } else {
        count_some(s.drop_last()) + (if s.last() is Some {
            1int
        } else {
            0int
        })
    }
}

/// Removing an entry keeps the store well-formed.
pub proof fn lemma_store_wf_remove(m: Map<int, EntrySpec>, cap: int, k: int)
    requires
        store_wf(m, cap),
    ensures
        store_wf(m.remove(k), cap),
{
    assert(m.remove(k).dom() =~= m.dom().remove(k));
}

/// Removing an entry frees exactly its span, so an entry of the same span
/// can take its place, and the store keeps its shape and count.
pub proof fn lemma_reinsert(m: Map<int, EntrySpec>, cap: int, k: int, e2: EntrySpec)
    requires
        store_wf(m, cap),
        m.dom().contains(k),
        e2.size == m[k].size,
    ensures
        store_wf(m.remove(k), cap),
        range_free(m.remove(k), k, e2.size),
        m.remove(k).insert(k, e2) == m.insert(k, e2),
        store_wf(m.insert(k, e2), cap),
        m.insert(k, e2).len() == m.len(),
{
    lemma_store_wf_remove(m, cap, k);
    assert forall|k1: int| #[trigger] m.remove(k).dom().contains(k1) implies k1 + m.remove(
        k,
    )[k1].size <= k || k + e2.size <= k1 by {
        assert(m.dom().contains(k1) && k1 != k);
    }
    assert(m.remove(k).insert(k, e2) =~= m.insert(k, e2));
    let m2 = m.insert(k, e2);
    assert(m2.dom() =~= m.dom().insert(k));
    assert(m2.dom() =~= m.dom());
    assert forall|k1: int, k2: int|
        #![trigger m2.dom().contains(k1), m2.dom().contains(k2)]
        m2.dom().contains(k1) && m2.dom().contains(k2) && k1 != k2 implies k1 + m2[k1].size <= k2
        || k2 + m2[k2].size <= k1 by {
        assert(m.dom().contains(k1) && m.dom().contains(k2));
        assert(m2[k1].size == m[k1].size && m2[k2].size == m[k2].size);
    }
}

/// A group removal answers every coordinate of the record, in order.
pub proof fn lemma_group_remove_len(rv: RegView, coords: Seq<CoordSpec>)
    ensures
        group_remove(rv, coords).1.len() == coords.len(),
    decreases coords.len(),
{
    if coords.len() != 0 {
        lemma_group_remove_len(remove_coord(rv, coords[0]), coords.drop_first());
    }
}

/// The listing names the starting offset of every entry of the store.
pub open spec fn lists_all_starts(
    res: Seq<(usize, usize, &MultiEntry)>,
    m: Map<int, EntrySpec>,
) -> bool {
    forall|k: int|
        #[trigger] m.contains_key(k) ==> exists|j: int|
            0 <= j < res.len() && (#[trigger] res[j]).0 == k
}

} // verus!