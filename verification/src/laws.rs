//! The laws of the engine, stated and proved against the model of
//! [`crate::model`].
//!
//! Each public proof function here states a guarantee that spans several
//! operations: what a whole group insertion makes visible, what removing a
//! freshly inserted group removes and returns, what unlinking a member leaves
//! behind, and that one bad item makes a whole group insertion fail.

use vstd::prelude::*;

use crate::entry::{CoordSpec, EntrySpec};
use crate::model::{
    coord_found, coord_resolves, count_some, group_insert, group_insert_map, group_remove,
    insert_item, item_ok, lookup_coord, record_of, relink_all, remove_coord, rv_wf, unlink_at,
    without_coord, wrapped_entry, ItemSpec, RegView,
};
use crate::store::{entry_covers, lemma_cover_unique, range_free, store_wf};

verus! {

/// The coordinates of a record name pairwise different entries.
pub open spec fn distinct_coords(record: Seq<CoordSpec>) -> bool {
    forall|j1: int, j2: int|
        0 <= j1 < j2 < record.len() ==> #[trigger] record[j1] != #[trigger] record[j2]
}

/// The record names a mutually consistent group: every coordinate of it is
/// the starting offset of a stored entry whose own link record is exactly
/// this record.
pub open spec fn group_consistent(rv: RegView, record: Seq<CoordSpec>) -> bool {
    forall|j: int|
        0 <= j < record.len() ==> {
            let c = #[trigger] record[j];
            &&& rv.contains_key(c.0)
            &&& rv[c.0].entries.contains_key(c.1)
            &&& rv[c.0].entries[c.1].entry.linked == record
        }
}

/// `rv2` keeps every buffer of `rv` with its capacity, and every entry of
/// `rv` unchanged; it may hold more entries.
pub open spec fn rv_extends(rv: RegView, rv2: RegView) -> bool {
    &&& rv2.dom() == rv.dom()
    &&& forall|b: Seq<char>| #[trigger] rv.contains_key(b) ==> rv2[b].capacity == rv[b].capacity
    &&& forall|b: Seq<char>, k: int|
        rv.contains_key(b) && #[trigger] rv[b].entries.contains_key(k) ==> (
        #[trigger] rv2[b].entries.contains_key(k) && rv2[b].entries[k] == rv[b].entries[k])
}

/// A group insertion that goes through keeps every buffer, its capacity and
/// every entry that was already stored, and keeps the registry well-formed.
pub proof fn lemma_group_insert_extends(rv: RegView, items: Seq<ItemSpec>, record: Seq<CoordSpec>)
    requires
        rv_wf(rv),
        group_insert_map(rv, items, record) is Some,
    ensures
        rv_wf(group_insert_map(rv, items, record).unwrap()),
        rv_extends(rv, group_insert_map(rv, items, record).unwrap()),
    decreases items.len(),
{
    let rvf = group_insert_map(rv, items, record).unwrap();
    if items.len() == 0 {
        assert(rv_extends(rv, rvf));
    } else {
        let it = items[0];
        let rv1 = insert_item(rv, it, record);
        crate::model::lemma_insert_then_remove(rv, it, record);
        assert(rv1.dom() =~= rv.dom());
        assert(rv_extends(rv, rv1)) by {
            crate::model::lemma_store_wf_insert(
                rv[it.name].entries,
                rv[it.name].capacity,
                it.index,
                wrapped_entry(it, record),
            );
            assert forall|b: Seq<char>, k: int|
                rv.contains_key(b) && #[trigger] rv[b].entries.contains_key(k) implies (
            #[trigger] rv1[b].entries.contains_key(k) && rv1[b].entries[k] == rv[b].entries[k]) by {
                if b == it.name {
                    assert(k != it.index);
                }
            }
        }
        lemma_group_insert_extends(rv1, items.drop_first(), record);
        let rvf1 = group_insert_map(rv1, items.drop_first(), record).unwrap();
        assert(rvf1 == rvf);
        assert(rv_extends(rv, rvf)) by {
            assert(rvf.dom() =~= rv.dom());
            assert forall|b: Seq<char>, k: int|
                rv.contains_key(b) && #[trigger] rv[b].entries.contains_key(k) implies (
            #[trigger] rvf[b].entries.contains_key(k) && rvf[b].entries[k] == rv[b].entries[k]) by {
                assert(rv1.contains_key(b) && rv1[b].entries.contains_key(k) && rv1[b].entries[k]
                    == rv[b].entries[k]);
            }
        }
    }
}

/// Every item of a group insertion that goes through is afterwards visible at
/// its own coordinate, wrapped with the record the insertion was made with.
pub proof fn lemma_group_insert_map_visible(
    rv: RegView,
    items: Seq<ItemSpec>,
    record: Seq<CoordSpec>,
)
    requires
        rv_wf(rv),
        group_insert_map(rv, items, record) is Some,
    ensures
        forall|j: int|
            0 <= j < items.len() ==> lookup_coord(
                group_insert_map(rv, items, record).unwrap(),
                ((#[trigger] items[j]).name, items[j].index),
            ) == Some((items[j].index, wrapped_entry(items[j], record))),
    decreases items.len(),
{
    let rvf = group_insert_map(rv, items, record).unwrap();
    if items.len() == 0 {
    } else {
        let it = items[0];
        assert(item_ok(rv, it));
        let rv1 = insert_item(rv, it, record);
        assert(group_insert_map(rv1, items.drop_first(), record) == Some(rvf));
        crate::model::lemma_insert_then_remove(rv, it, record);
        lemma_group_insert_extends(rv1, items.drop_first(), record);
        lemma_group_insert_map_visible(rv1, items.drop_first(), record);
        assert(rv_extends(rv1, rvf));
        assert forall|j: int|
            0 <= j < items.len() implies lookup_coord(
            rvf,
            ((#[trigger] items[j]).name, items[j].index),
        ) == Some((items[j].index, wrapped_entry(items[j], record))) by {
            if j == 0 {
                let c = (it.name, it.index);
                assert(rv1.contains_key(it.name));
                assert(rv1[it.name].entries.contains_key(it.index));
                assert(rv1[it.name].entries[it.index] == wrapped_entry(it, record));
                assert(rvf[c.0].entries.contains_key(c.1));
                assert(rvf[c.0].entries[c.1] == wrapped_entry(it, record));
                assert(entry_covers(rvf[c.0].entries, c.1, c.1));
                assert(coord_found(rvf, c, c.1));
                let kc = choose|k: int| coord_found(rvf, c, k);
                lemma_cover_unique(rvf[c.0].entries, rvf[c.0].capacity, c.1, kc, c.1);
            } else {
                assert(items.drop_first()[j - 1] == items[j]);
            }
        }
    }
}

/// The whole group of a group insertion that goes through is visible: at each
/// item's coordinate stands that item, wrapped with the group's record. With
/// the failure side of `insert_entries` — which restores the registry exactly
/// — every attempted group insertion either makes all its items visible or
/// changes nothing.
pub proof fn lemma_group_insert_all_visible(rv: RegView, items: Seq<ItemSpec>)
    requires
        rv_wf(rv),
        group_insert(rv, items) is Some,
    ensures
        forall|j: int|
            0 <= j < items.len() ==> lookup_coord(
                group_insert(rv, items).unwrap(),
                ((#[trigger] items[j]).name, items[j].index),
            ) == Some((items[j].index, wrapped_entry(items[j], record_of(items)))),
{
    lemma_group_insert_map_visible(rv, items, record_of(items));
}

/// No item of a group insertion that goes through lands on a coordinate that
/// was already occupied when the insertion began.
proof fn lemma_group_insert_avoids(
    rv: RegView,
    items: Seq<ItemSpec>,
    record: Seq<CoordSpec>,
    b: Seq<char>,
    k: int,
)
    requires
        rv_wf(rv),
        group_insert_map(rv, items, record) is Some,
        rv.contains_key(b),
        rv[b].entries.contains_key(k),
    ensures
        forall|j: int|
            0 <= j < items.len() ==> ((#[trigger] items[j]).name, items[j].index) != (b, k),
    decreases items.len(),
{
    if items.len() != 0 {
        let it = items[0];
        assert(item_ok(rv, it));
        if (it.name, it.index) == (b, k) {
            assert(range_free(rv[b].entries, k, it.size));
            assert(k + rv[b].entries[k].size <= k || k + it.size <= k);
            assert(false);
        }
        let rv1 = insert_item(rv, it, record);
        assert(rv1.contains_key(b) && rv1[b].entries.contains_key(k)) by {
            if b == it.name {
                assert(k != it.index);
            }
        }
        crate::model::lemma_insert_then_remove(rv, it, record);
        lemma_group_insert_avoids(rv1, items.drop_first(), record, b, k);
        assert forall|j: int|
            0 <= j < items.len() implies ((#[trigger] items[j]).name, items[j].index) != (b, k) by {
            if j > 0 {
                assert(items.drop_first()[j - 1] == items[j]);
            }
        }
    }
}

/// The items of a group insertion that goes through have pairwise different
/// coordinates.
proof fn lemma_group_insert_map_distinct(rv: RegView, items: Seq<ItemSpec>, record: Seq<CoordSpec>)
    requires
        rv_wf(rv),
        group_insert_map(rv, items, record) is Some,
    ensures
        forall|j1: int, j2: int|
            0 <= j1 < j2 < items.len() ==> ((#[trigger] items[j1]).name, items[j1].index) != ((
            #[trigger] items[j2]).name, items[j2].index),
    decreases items.len(),
{
    if items.len() != 0 {
        let it = items[0];
        assert(item_ok(rv, it));
        let rv1 = insert_item(rv, it, record);
        crate::model::lemma_insert_then_remove(rv, it, record);
        assert(rv1.contains_key(it.name) && rv1[it.name].entries.contains_key(it.index));
        lemma_group_insert_avoids(rv1, items.drop_first(), record, it.name, it.index);
        lemma_group_insert_map_distinct(rv1, items.drop_first(), record);
        assert forall|j1: int, j2: int|
            0 <= j1 < j2 < items.len() implies ((#[trigger] items[j1]).name, items[j1].index) != ((
        #[trigger] items[j2]).name, items[j2].index) by {
            if j1 == 0 {
                assert(items.drop_first()[j2 - 1] == items[j2]);
            } else {
                assert(items.drop_first()[j1 - 1] == items[j1]);
                assert(items.drop_first()[j2 - 1] == items[j2]);
            }
        }
    }
}

/// A group insertion that goes through leaves a mutually consistent group:
/// every coordinate of the record resolves to an entry whose own record is
/// the group's record, and the coordinates are pairwise different.
pub proof fn lemma_insert_group_consistent(rv: RegView, items: Seq<ItemSpec>)
    requires
        rv_wf(rv),
        group_insert(rv, items) is Some,
    ensures
        rv_wf(group_insert(rv, items).unwrap()),
        group_consistent(group_insert(rv, items).unwrap(), record_of(items)),
        distinct_coords(record_of(items)),
        record_of(items).len() == items.len(),
{
    let rvf = group_insert(rv, items).unwrap();
    let record = record_of(items);
    lemma_group_insert_map_visible(rv, items, record);
    lemma_group_insert_map_distinct(rv, items, record);
    lemma_group_insert_extends(rv, items, record);
    assert forall|j: int| 0 <= j < record.len() implies {
        let c = #[trigger] record[j];
        &&& rvf.contains_key(c.0)
        &&& rvf[c.0].entries.contains_key(c.1)
        &&& rvf[c.0].entries[c.1].entry.linked == record
    } by {
        let c = record[j];
        assert(c == (items[j].name, items[j].index));
        assert(lookup_coord(rvf, c) == Some((items[j].index, wrapped_entry(items[j], record))));
        assert(coord_resolves(rvf, c));
        let kc = choose|k: int| coord_found(rvf, c, k);
        assert(coord_found(rvf, c, kc));
        assert(kc == items[j].index && rvf[c.0].entries[kc] == wrapped_entry(items[j], record));
    }
    assert forall|j1: int, j2: int| 0 <= j1 < j2 < record.len() implies #[trigger] record[j1]
        != #[trigger] record[j2] by {
        assert(record[j1] == (items[j1].name, items[j1].index));
        assert(record[j2] == (items[j2].name, items[j2].index));
    }
}

/// Removing a group whose coordinates all resolve and are pairwise different
/// removes exactly those entries, returns each of them in record order, and
/// touches nothing else.
pub proof fn lemma_remove_present_group(rv: RegView, record: Seq<CoordSpec>)
    requires
        rv_wf(rv),
        distinct_coords(record),
        forall|j: int|
            0 <= j < record.len() ==> rv.contains_key((#[trigger] record[j]).0)
                && rv[record[j].0].entries.contains_key(record[j].1),
    ensures
        ({
            let gr = group_remove(rv, record);
            &&& gr.1.len() == record.len()
            &&& forall|j: int|
                0 <= j < record.len() ==> gr.1[j] == Some(
                    ((#[trigger] record[j]).1, rv[record[j].0].entries[record[j].1]),
                )
            &&& rv_wf(gr.0)
            &&& gr.0.dom() == rv.dom()
            &&& forall|b: Seq<char>| #[trigger] rv.contains_key(b) ==> gr.0[b].capacity
                == rv[b].capacity
            &&& forall|j: int|
                0 <= j < record.len() ==> !gr.0[(#[trigger] record[j]).0].entries.contains_key(
                    record[j].1,
                )
            &&& forall|b: Seq<char>, k: int|
                rv.contains_key(b) && #[trigger] rv[b].entries.contains_key(k)
                    && !record.contains((b, k)) ==> #[trigger] gr.0[b].entries.contains_key(k)
                    && gr.0[b].entries[k] == rv[b].entries[k]
            &&& forall|b: Seq<char>, k: int|
                rv.contains_key(b) && #[trigger] gr.0[b].entries.contains_key(k)
                    ==> rv[b].entries.contains_key(k)
        }),
    decreases record.len(),
{
    let gr = group_remove(rv, record);
    if record.len() == 0 {
    } else {
        let c = record[0];
        let m = rv[c.0].entries;
        let capm = rv[c.0].capacity;
        assert(entry_covers(m, c.1, c.1));
        assert(coord_found(rv, c, c.1));
        let kc = choose|k: int| coord_found(rv, c, k);
        lemma_cover_unique(m, capm, c.1, kc, c.1);
        assert(lookup_coord(rv, c) == Some((c.1, m[c.1])));
        let rv1 = remove_coord(rv, c);
        assert(rv1 == rv.insert(
            c.0,
            crate::model::BufferModel { capacity: capm, entries: m.remove(c.1) },
        ));
        assert(rv1.dom() =~= rv.dom());
        assert(rv_wf(rv1)) by {
            crate::model::lemma_store_wf_remove(m, capm, c.1);
            assert forall|n: Seq<char>| #[trigger] rv1.contains_key(n) implies store_wf(
                rv1[n].entries,
                rv1[n].capacity,
            ) by {
                if n != c.0 {
                    assert(rv1[n] == rv[n]);
                }
            }
        }
        assert forall|j: int|
            0 <= j < record.drop_first().len() implies rv1.contains_key(
            (#[trigger] record.drop_first()[j]).0,
        ) && rv1[record.drop_first()[j].0].entries.contains_key(record.drop_first()[j].1) by {
            assert(record.drop_first()[j] == record[j + 1]);
            let c2 = record[j + 1];
            assert(c2 != c);
            if c2.0 == c.0 {
                assert(c2.1 != c.1);
            }
        }
        assert(distinct_coords(record.drop_first())) by {
            assert forall|j1: int, j2: int|
                0 <= j1 < j2 < record.drop_first().len() implies #[trigger] record.drop_first()[j1]
                != #[trigger] record.drop_first()[j2] by {
                assert(record.drop_first()[j1] == record[j1 + 1]);
                assert(record.drop_first()[j2] == record[j2 + 1]);
            }
        }
        lemma_remove_present_group(rv1, record.drop_first());
        let gr1 = group_remove(rv1, record.drop_first());
        assert(gr.0 == gr1.0);
        assert(gr.1 == seq![lookup_coord(rv, c)] + gr1.1);
        assert forall|j: int| 0 <= j < record.len() implies gr.1[j] == Some(
            ((#[trigger] record[j]).1, rv[record[j].0].entries[record[j].1]),
        ) by {
            if j == 0 {
                assert(gr.1[0] == lookup_coord(rv, c));
            } else {
                assert(gr.1[j] == gr1.1[j - 1]);
                assert(record.drop_first()[j - 1] == record[j]);
                let c2 = record[j];
                assert(c2 != c);
                if c2.0 == c.0 {
                    assert(c2.1 != c.1);
                    assert(rv1[c2.0].entries[c2.1] == rv[c2.0].entries[c2.1]);
                } else {
                    assert(rv1[c2.0] == rv[c2.0]);
                }
            }
        }
        assert forall|j: int|
            0 <= j < record.len() implies !gr.0[(#[trigger] record[j]).0].entries.contains_key(
            record[j].1,
        ) by {
            if j == 0 {
                assert(!rv1[c.0].entries.contains_key(c.1));
                if gr.0[c.0].entries.contains_key(c.1) {
                    assert(rv1[c.0].entries.contains_key(c.1));
                }
            } else {
                assert(record.drop_first()[j - 1] == record[j]);
            }
        }
        assert forall|b: Seq<char>, k: int|
            rv.contains_key(b) && #[trigger] rv[b].entries.contains_key(k) && !record.contains(
                (b, k),
            ) implies #[trigger] gr.0[b].entries.contains_key(k) && gr.0[b].entries[k]
            == rv[b].entries[k] by {
            assert((b, k) != c) by {
                if (b, k) == c {
                    assert(record[0] == (b, k));
                    assert(record.contains((b, k)));
                }
            }
            assert(rv1.contains_key(b) && rv1[b].entries.contains_key(k) && rv1[b].entries[k]
                == rv[b].entries[k]) by {
                if b == c.0 {
                    assert(k != c.1);
                }
            }
            assert(!record.drop_first().contains((b, k))) by {
                if record.drop_first().contains((b, k)) {
                    let j = choose|j: int|
                        0 <= j < record.drop_first().len() && record.drop_first()[j] == (b, k);
                    assert(record[j + 1] == (b, k));
                    assert(record.contains((b, k)));
                }
            }
        }
        assert forall|b: Seq<char>, k: int|
            rv.contains_key(b) && #[trigger] gr.0[b].entries.contains_key(k) implies
            rv[b].entries.contains_key(k) by {
            assert(rv1.contains_key(b));
            assert(rv1[b].entries.contains_key(k));
            if b == c.0 {
                assert(rv1[b].entries == m.remove(c.1));
            }
        }
    }
}

/// A walk whose every slot found an entry counts as many entries as it has
/// slots.
pub proof fn lemma_count_some_all(s: Seq<Option<(int, EntrySpec)>>)
    requires
        forall|j: int| 0 <= j < s.len() ==> (#[trigger] s[j]) is Some,
    ensures
        count_some(s) == s.len(),
    decreases s.len(),
{
    if s.len() != 0 {
        assert(forall|j: int|
            0 <= j < s.drop_last().len() ==> (#[trigger] s.drop_last()[j]) is Some);
        lemma_count_some_all(s.drop_last());
    }
}

/// Removing a freshly inserted group at its record removes exactly the
/// inserted entries and returns them, wrapped as inserted, in the order the
/// group was inserted.
pub proof fn lemma_remove_inserted_group(rv: RegView, items: Seq<ItemSpec>)
    requires
        rv_wf(rv),
        group_insert(rv, items) is Some,
    ensures
        ({
            let rvf = group_insert(rv, items).unwrap();
            let record = record_of(items);
            let gr = group_remove(rvf, record);
            &&& gr.1.len() == items.len()
            &&& forall|j: int|
                0 <= j < items.len() ==> gr.1[j] == Some(
                    ((#[trigger] items[j]).index, wrapped_entry(items[j], record)),
                )
            &&& count_some(gr.1) == items.len()
            &&& forall|j: int|
                0 <= j < items.len() ==> !gr.0[(#[trigger] items[j]).name].entries.contains_key(
                    items[j].index,
                )
        }),
{
    let rvf = group_insert(rv, items).unwrap();
    let record = record_of(items);
    lemma_insert_group_consistent(rv, items);
    lemma_group_insert_extends(rv, items, record);
    assert forall|j: int|
        0 <= j < record.len() implies rvf.contains_key((#[trigger] record[j]).0)
        && rvf[record[j].0].entries.contains_key(record[j].1) by {}
    lemma_remove_present_group(rvf, record);
    let gr = group_remove(rvf, record);
    lemma_group_insert_map_visible(rv, items, record);
    assert forall|j: int| 0 <= j < items.len() implies gr.1[j] == Some(
        ((#[trigger] items[j]).index, wrapped_entry(items[j], record)),
    ) by {
        let c = record[j];
        assert(c == (items[j].name, items[j].index));
        assert(gr.1[j] == Some((c.1, rvf[c.0].entries[c.1])));
        assert(lookup_coord(rvf, c) == Some((items[j].index, wrapped_entry(items[j], record))));
        assert(coord_resolves(rvf, c));
        let kc = choose|k: int| coord_found(rvf, c, k);
        assert(kc == items[j].index && rvf[c.0].entries[kc] == wrapped_entry(items[j], record));
    }
    assert forall|j: int| 0 <= j < gr.1.len() implies (#[trigger] gr.1[j]) is Some by {
        assert(gr.1[j] == Some((items[j].index, wrapped_entry(items[j], record))));
    }
    lemma_count_some_all(gr.1);
    assert forall|j: int|
        0 <= j < items.len() implies !gr.0[(#[trigger] items[j]).name].entries.contains_key(
        items[j].index,
    ) by {
        assert(record[j] == (items[j].name, items[j].index));
    }
}

/// A record that does not name `c` is unchanged by removing `c` from it.
proof fn lemma_without_coord_absent(record: Seq<CoordSpec>, c: CoordSpec)
    requires
        !record.contains(c),
    ensures
        without_coord(record, c) == record,
    decreases record.len(),
{
    if record.len() != 0 {
        assert(record.last() != c);
        assert(!record.drop_last().contains(c)) by {
            if record.drop_last().contains(c) {
                let j = choose|j: int|
                    0 <= j < record.drop_last().len() && record.drop_last()[j] == c;
                assert(record[j] == c);
            }
        }
        lemma_without_coord_absent(record.drop_last(), c);
        assert(without_coord(record, c) =~= record);
    }
}

/// Removing one coordinate of a duplicate-free record shortens it by exactly
/// one, keeps it duplicate-free, and keeps exactly the other coordinates.
pub proof fn lemma_without_coord(record: Seq<CoordSpec>, c: CoordSpec, j0: int)
    requires
        distinct_coords(record),
        0 <= j0 < record.len(),
        record[j0] == c,
    ensures
        ({
            let rest = without_coord(record, c);
            &&& rest.len() == record.len() - 1
            &&& !rest.contains(c)
            &&& distinct_coords(rest)
            &&& forall|x: CoordSpec| #[trigger] rest.contains(x) <==> (record.contains(x) && x != c)
        }),
    decreases record.len(),
{
    let rest = without_coord(record, c);
    if record.last() == c {
        assert(j0 == record.len() - 1) by {
            if j0 < record.len() - 1 {
                assert(record[j0] != record[record.len() - 1]);
            }
        }
        assert(!record.drop_last().contains(c)) by {
            if record.drop_last().contains(c) {
                let j = choose|j: int|
                    0 <= j < record.drop_last().len() && record.drop_last()[j] == c;
                assert(record[j] == record[j0]);
            }
        }
        lemma_without_coord_absent(record.drop_last(), c);
        assert(rest == record.drop_last());
        assert(distinct_coords(rest)) by {
            assert forall|j1: int, j2: int| 0 <= j1 < j2 < rest.len() implies #[trigger] rest[j1]
                != #[trigger] rest[j2] by {
                assert(rest[j1] == record[j1] && rest[j2] == record[j2]);
            }
        }
        assert forall|x: CoordSpec| #[trigger] rest.contains(x) <==> (record.contains(x) && x != c)
            by {
            if rest.contains(x) {
                let j = choose|j: int| 0 <= j < rest.len() && rest[j] == x;
                assert(record[j] == x);
                assert(record.contains(x));
            }
            if record.contains(x) && x != c {
                let j = choose|j: int| 0 <= j < record.len() && record[j] == x;
                assert(j < record.len() - 1);
                assert(rest[j] == x);
                assert(rest.contains(x));
            }
        }
    } else {
        assert(j0 < record.len() - 1) by {
            assert(record[record.len() - 1] != c);
        }
        assert(distinct_coords(record.drop_last())) by {
            assert forall|j1: int, j2: int|
                0 <= j1 < j2 < record.drop_last().len() implies #[trigger] record.drop_last()[j1]
                != #[trigger] record.drop_last()[j2] by {
                assert(record.drop_last()[j1] == record[j1]);
                assert(record.drop_last()[j2] == record[j2]);
            }
        }
        assert(record.drop_last()[j0] == record[j0]);
        lemma_without_coord(record.drop_last(), c, j0);
        let rest1 = without_coord(record.drop_last(), c);
        assert(rest == rest1.push(record.last()));
        assert(!rest.contains(c)) by {
            if rest.contains(c) {
                let j = choose|j: int| 0 <= j < rest.len() && rest[j] == c;
                if j < rest1.len() {
                    assert(rest1[j] == c);
                    assert(rest1.contains(c));
                } else {
                    assert(record.last() == c);
                }
            }
        }
        assert(distinct_coords(rest)) by {
            assert forall|j1: int, j2: int| 0 <= j1 < j2 < rest.len() implies #[trigger] rest[j1]
                != #[trigger] rest[j2] by {
                if j2 < rest1.len() {
                    assert(rest[j1] == rest1[j1] && rest[j2] == rest1[j2]);
                } else {
                    assert(rest[j2] == record.last());
                    assert(rest[j1] == rest1[j1]);
                    assert(rest1.contains(rest1[j1]));
                    assert(record.contains(rest1[j1]));
                    let ja = choose|ja: int| 0 <= ja < record.len() && record[ja] == rest1[j1];
                    if ja < record.len() - 1 {
                        assert(record[ja] != record[record.len() - 1]);
                    }
                }
            }
        }
        assert forall|x: CoordSpec| #[trigger] rest.contains(x) <==> (record.contains(x) && x != c)
            by {
            if rest.contains(x) {
                let j = choose|j: int| 0 <= j < rest.len() && rest[j] == x;
                if j < rest1.len() {
                    assert(rest1[j] == x);
                    assert(rest1.contains(x));
                    assert(record.drop_last().contains(x));
                    let ja = choose|ja: int|
                        0 <= ja < record.drop_last().len() && record.drop_last()[ja] == x;
                    assert(record[ja] == x);
                    assert(record.contains(x));
                } else {
                    assert(x == record.last());
                    assert(record.contains(x));
                }
            }
            if record.contains(x) && x != c {
                let ja = choose|ja: int| 0 <= ja < record.len() && record[ja] == x;
                if ja < record.len() - 1 {
                    assert(record.drop_last()[ja] == x);
                    assert(record.drop_last().contains(x));
                    assert(rest1.contains(x));
                    let jb = choose|jb: int| 0 <= jb < rest1.len() && rest1[jb] == x;
                    assert(rest[jb] == x);
                } else {
                    assert(rest[rest.len() - 1] == x);
                }
            }
        }
    }
}

/// Rewriting the records of a list of resolving coordinates changes exactly
/// those records to the new list and nothing else: not which entries exist,
/// not their spans, not their payloads.
proof fn lemma_relink_all(rv: RegView, coords: Seq<CoordSpec>, l: Seq<CoordSpec>)
    requires
        rv_wf(rv),
        forall|j: int|
            0 <= j < coords.len() ==> rv.contains_key((#[trigger] coords[j]).0)
                && rv[coords[j].0].entries.contains_key(coords[j].1),
    ensures
        ({
            let rv2 = relink_all(rv, coords, l);
            &&& rv_wf(rv2)
            &&& rv2.dom() == rv.dom()
            &&& forall|b: Seq<char>| #[trigger] rv.contains_key(b) ==> rv2[b].capacity
                == rv[b].capacity
            &&& forall|b: Seq<char>, k: int|
                rv.contains_key(b) ==> (#[trigger] rv2[b].entries.contains_key(k)
                    <==> rv[b].entries.contains_key(k))
            &&& forall|b: Seq<char>, k: int|
                rv.contains_key(b) && #[trigger] rv[b].entries.contains_key(k) ==> {
                    let e1 = rv[b].entries[k];
                    let e2 = rv2[b].entries[k];
                    e2.size == e1.size && e2.entry.vector == e1.entry.vector && e2.entry.data
                        == e1.entry.data
                }
            &&& forall|j: int|
                0 <= j < coords.len() ==> rv2[(#[trigger] coords[j]).0].entries[coords[j].1].entry.linked
                    == l
            &&& forall|b: Seq<char>, k: int|
                rv.contains_key(b) && #[trigger] rv[b].entries.contains_key(k) && !coords.contains(
                    (b, k),
                ) ==> rv2[b].entries[k] == rv[b].entries[k]
        }),
    decreases coords.len(),
{
    let rv2 = relink_all(rv, coords, l);
    if coords.len() == 0 {
    } else {
        let c = coords[0];
        let m = rv[c.0].entries;
        let capm = rv[c.0].capacity;
        assert(entry_covers(m, c.1, c.1));
        assert(coord_found(rv, c, c.1));
        let kc = choose|k: int| coord_found(rv, c, k);
        lemma_cover_unique(m, capm, c.1, kc, c.1);
        assert(lookup_coord(rv, c) == Some((c.1, m[c.1])));
        let e1 = m[c.1];
        let e2 = EntrySpec {
            size: e1.size,
            entry: crate::entry::MultiEntrySpec {
                vector: e1.entry.vector,
                data: e1.entry.data,
                linked: l,
            },
        };
        let rv1 = crate::model::set_linked(rv, c.0, c.1, l);
        assert(crate::model::relink_coord(rv, c, l) == rv1);
        assert(rv1[c.0].entries == m.insert(c.1, e2));
        crate::model::lemma_reinsert(m, capm, c.1, e2);
        assert(rv1.dom() =~= rv.dom());
        assert(rv_wf(rv1)) by {
            assert forall|n: Seq<char>| #[trigger] rv1.contains_key(n) implies store_wf(
                rv1[n].entries,
                rv1[n].capacity,
            ) by {
                if n != c.0 {
                    assert(rv1[n] == rv[n]);
                }
            }
        }
        assert(m.insert(c.1, e2).dom() =~= m.dom().insert(c.1));
        assert(m.insert(c.1, e2).dom() =~= m.dom());
        assert forall|j: int|
            0 <= j < coords.drop_first().len() implies rv1.contains_key(
            (#[trigger] coords.drop_first()[j]).0,
        ) && rv1[coords.drop_first()[j].0].entries.contains_key(coords.drop_first()[j].1) by {
            assert(coords.drop_first()[j] == coords[j + 1]);
        }
        lemma_relink_all(rv1, coords.drop_first(), l);
        assert(rv2 == relink_all(rv1, coords.drop_first(), l));
        assert forall|j: int|
            0 <= j < coords.len() implies rv2[(#[trigger] coords[j]).0].entries[coords[j].1].entry.linked
            == l by {
            if j == 0 {
                if coords.drop_first().contains(c) {
                    let ja = choose|ja: int|
                        0 <= ja < coords.drop_first().len() && coords.drop_first()[ja] == c;
                    assert(rv2[coords.drop_first()[ja].0].entries[coords.drop_first()[ja].1].entry.linked
                        == l);
                } else {
                    assert(rv1[c.0].entries.contains_key(c.1));
                    assert(rv1[c.0].entries[c.1] == e2);
                    assert(rv2[c.0].entries[c.1] == rv1[c.0].entries[c.1]);
                }
            } else {
                assert(coords.drop_first()[j - 1] == coords[j]);
            }
        }
        assert forall|b: Seq<char>, k: int|
            rv.contains_key(b) && #[trigger] rv[b].entries.contains_key(k) && !coords.contains(
                (b, k),
            ) implies rv2[b].entries[k] == rv[b].entries[k] by {
            assert((b, k) != c) by {
                if (b, k) == c {
                    assert(coords[0] == (b, k));
                    assert(coords.contains((b, k)));
                }
            }
            assert(rv1.contains_key(b) && rv1[b].entries.contains_key(k) && rv1[b].entries[k]
                == rv[b].entries[k]) by {
                if b == c.0 {
                    assert(k != c.1);
                }
            }
            assert(!coords.drop_first().contains((b, k))) by {
                if coords.drop_first().contains((b, k)) {
                    let ja = choose|ja: int|
                        0 <= ja < coords.drop_first().len() && coords.drop_first()[ja] == (b, k);
                    assert(coords[ja + 1] == (b, k));
                    assert(coords.contains((b, k)));
                }
            }
        }
    }
}

/// Unlinking one member of a consistent, duplicate-free group leaves two
/// consistent groups: the unlinked entry alone, naming only itself, and the
/// other members, each carrying the record shortened by the unlinked
/// coordinate. Which entries exist, their spans and their payloads are
/// untouched.
pub proof fn lemma_unlink_group_member(rv: RegView, record: Seq<CoordSpec>, j0: int)
    requires
        rv_wf(rv),
        group_consistent(rv, record),
        distinct_coords(record),
        0 <= j0 < record.len(),
    ensures
        ({
            let c = record[j0];
            let rv2 = unlink_at(rv, c.0, c.1);
            let rest = without_coord(record, c);
            &&& rv_wf(rv2)
            &&& rv2.dom() == rv.dom()
            &&& forall|b: Seq<char>, k: int|
                rv.contains_key(b) ==> (#[trigger] rv2[b].entries.contains_key(k)
                    <==> rv[b].entries.contains_key(k))
            &&& group_consistent(rv2, seq![c])
            &&& group_consistent(rv2, rest)
            &&& distinct_coords(rest)
            &&& rest.len() == record.len() - 1
            &&& !rest.contains(c)
        }),
{
    let c = record[j0];
    let rv2 = unlink_at(rv, c.0, c.1);
    let rest0 = without_coord(rv[c.0].entries[c.1].entry.linked, c);
    assert(rv[c.0].entries[c.1].entry.linked == record);
    let rest = without_coord(record, c);
    assert(rest0 == rest);
    lemma_without_coord(record, c, j0);
    let m = rv[c.0].entries;
    let capm = rv[c.0].capacity;
    let e1 = m[c.1];
    let e2 = EntrySpec {
        size: e1.size,
        entry: crate::entry::MultiEntrySpec {
            vector: e1.entry.vector,
            data: e1.entry.data,
            linked: seq![c],
        },
    };
    let rv1 = crate::model::set_linked(rv, c.0, c.1, seq![c]);
    assert(rv2 == relink_all(rv1, rest, rest));
    crate::model::lemma_reinsert(m, capm, c.1, e2);
    assert(rv1[c.0].entries == m.insert(c.1, e2));
    assert(rv1.dom() =~= rv.dom());
    assert(m.insert(c.1, e2).dom() =~= m.dom().insert(c.1));
    assert(m.insert(c.1, e2).dom() =~= m.dom());
    assert(rv_wf(rv1)) by {
        assert forall|n: Seq<char>| #[trigger] rv1.contains_key(n) implies store_wf(
            rv1[n].entries,
            rv1[n].capacity,
        ) by {
            if n != c.0 {
                assert(rv1[n] == rv[n]);
            }
        }
    }
    assert forall|j: int|
        0 <= j < rest.len() implies rv1.contains_key((#[trigger] rest[j]).0)
        && rv1[rest[j].0].entries.contains_key(rest[j].1) by {
        assert(rest.contains(rest[j]));
        assert(record.contains(rest[j]) && rest[j] != c);
        let ja = choose|ja: int| 0 <= ja < record.len() && record[ja] == rest[j];
        assert(rv.contains_key(rest[j].0) && rv[rest[j].0].entries.contains_key(rest[j].1));
        if rest[j].0 == c.0 {
            assert(rest[j].1 != c.1);
        }
    }
    lemma_relink_all(rv1, rest, rest);
    assert(group_consistent(rv2, seq![c])) by {
        assert(rv1[c.0].entries[c.1].entry.linked == seq![c]);
        assert(!rest.contains((c.0, c.1)));
        assert(rv1[c.0].entries.contains_key(c.1));
        assert(rv2[c.0].entries[c.1] == rv1[c.0].entries[c.1]);
        assert(seq![c][0] == c);
    }
    assert(group_consistent(rv2, rest)) by {
        assert forall|j: int| 0 <= j < rest.len() implies {
            let cx = #[trigger] rest[j];
            &&& rv2.contains_key(cx.0)
            &&& rv2[cx.0].entries.contains_key(cx.1)
            &&& rv2[cx.0].entries[cx.1].entry.linked == rest
        } by {
            let cx = rest[j];
            assert(rv1.contains_key(cx.0) && rv1[cx.0].entries.contains_key(cx.1));
            assert(rv2[cx.0].entries[cx.1].entry.linked == rest);
            assert(rv2.dom() == rv1.dom());
        }
    }
    assert forall|b: Seq<char>, k: int|
        rv.contains_key(b) implies (#[trigger] rv2[b].entries.contains_key(k)
        <==> rv[b].entries.contains_key(k)) by {
        assert(rv1.contains_key(b));
        assert(rv2[b].entries.contains_key(k) <==> rv1[b].entries.contains_key(k));
        if b == c.0 {
            assert(rv1[b].entries.contains_key(k) <==> m.contains_key(k));
        } else {
            assert(rv1[b] == rv[b]);
        }
    }
    assert(rv2.dom() =~= rv.dom());
}

/// After unlinking one member of a consistent, duplicate-free group, removing
/// the group at the unlinked entry removes exactly one entry, and removing
/// the group at any surviving member afterwards removes exactly the rest:
/// one fewer than the original group.
pub proof fn lemma_unlink_then_remove(rv: RegView, record: Seq<CoordSpec>, j0: int)
    requires
        rv_wf(rv),
        group_consistent(rv, record),
        distinct_coords(record),
        0 <= j0 < record.len(),
    ensures
        ({
            let c = record[j0];
            let rv2 = unlink_at(rv, c.0, c.1);
            let g1 = group_remove(rv2, rv2[c.0].entries[c.1].entry.linked);
            &&& rv2[c.0].entries[c.1].entry.linked =~= seq![c]
            &&& g1.1.len() == 1
            &&& count_some(g1.1) == 1
            &&& forall|j1: int|
                0 <= j1 < without_coord(record, c).len() ==> {
                    let cx = #[trigger] without_coord(record, c)[j1];
                    let g2 = group_remove(g1.0, g1.0[cx.0].entries[cx.1].entry.linked);
                    &&& g1.0[cx.0].entries[cx.1].entry.linked == without_coord(record, c)
                    &&& g2.1.len() == record.len() - 1
                    &&& count_some(g2.1) == record.len() - 1
                }
        }),
{
    let c = record[j0];
    let rv2 = unlink_at(rv, c.0, c.1);
    let rest = without_coord(record, c);
    lemma_unlink_group_member(rv, record, j0);
    let selfrec = rv2[c.0].entries[c.1].entry.linked;
    assert(seq![c][0] == c);
    assert(selfrec == seq![c]);
    assert(distinct_coords(selfrec));
    assert forall|j: int|
        0 <= j < selfrec.len() implies rv2.contains_key((#[trigger] selfrec[j]).0)
        && rv2[selfrec[j].0].entries.contains_key(selfrec[j].1) by {
        assert(selfrec[j] == c);
    }
    lemma_remove_present_group(rv2, selfrec);
    let g1 = group_remove(rv2, selfrec);
    assert(g1.1.len() == 1);
    assert forall|j: int| 0 <= j < g1.1.len() implies (#[trigger] g1.1[j]) is Some by {
        assert(g1.1[j] == Some((selfrec[j].1, rv2[selfrec[j].0].entries[selfrec[j].1])));
    }
    lemma_count_some_all(g1.1);
    assert(group_consistent(g1.0, rest)) by {
        assert forall|j: int| 0 <= j < rest.len() implies {
            let cx = #[trigger] rest[j];
            &&& g1.0.contains_key(cx.0)
            &&& g1.0[cx.0].entries.contains_key(cx.1)
            &&& g1.0[cx.0].entries[cx.1].entry.linked == rest
        } by {
            let cx = rest[j];
            assert(rest.contains(cx));
            assert(cx != c);
            assert(!selfrec.contains((cx.0, cx.1))) by {
                if selfrec.contains((cx.0, cx.1)) {
                    let ja = choose|ja: int|
                        0 <= ja < selfrec.len() && selfrec[ja] == (cx.0, cx.1);
                    assert(selfrec[ja] == c);
                }
            }
            assert(rv2.contains_key(cx.0) && rv2[cx.0].entries.contains_key(cx.1));
            assert(g1.0[cx.0].entries.contains_key(cx.1) && g1.0[cx.0].entries[cx.1]
                == rv2[cx.0].entries[cx.1]);
            assert(g1.0.dom() == rv2.dom());
        }
    }
    assert(rv_wf(g1.0));
    assert forall|j1: int| 0 <= j1 < rest.len() implies {
        let cx = #[trigger] rest[j1];
        let g2 = group_remove(g1.0, g1.0[cx.0].entries[cx.1].entry.linked);
        &&& g1.0[cx.0].entries[cx.1].entry.linked == rest
        &&& g2.1.len() == record.len() - 1
        &&& count_some(g2.1) == record.len() - 1
    } by {
        let cx = rest[j1];
        assert(g1.0[cx.0].entries[cx.1].entry.linked == rest);
        assert forall|j: int|
            0 <= j < rest.len() implies g1.0.contains_key((#[trigger] rest[j]).0)
            && g1.0[rest[j].0].entries.contains_key(rest[j].1) by {}
        lemma_remove_present_group(g1.0, rest);
        let g2 = group_remove(g1.0, rest);
        assert(g2.1.len() == rest.len());
        assert forall|j: int| 0 <= j < g2.1.len() implies (#[trigger] g2.1[j]) is Some by {
            assert(g2.1[j] == Some((rest[j].1, g1.0[rest[j].0].entries[rest[j].1])));
        }
        lemma_count_some_all(g2.1);
    }
}

/// Whether the registry as it stands rejects the item: an empty span, an
/// unknown buffer, a span past the buffer's capacity, or a span that
/// intersects an entry already stored.
pub open spec fn item_blocked(rv: RegView, it: ItemSpec) -> bool {
    ||| it.size < 1
    ||| !rv.contains_key(it.name)
    ||| it.index + it.size > rv[it.name].capacity
    ||| !range_free(rv[it.name].entries, it.index, it.size)
}

/// One blocked item anywhere in the list makes the whole group insertion
/// fail. With the failure side of `insert_entries`, which restores the
/// registry exactly, such a call leaves the total entry count — and
/// everything else — unchanged.
pub proof fn lemma_blocked_item_fails(rv: RegView, items: Seq<ItemSpec>, j: int)
    requires
        rv_wf(rv),
        0 <= j < items.len(),
        item_blocked(rv, items[j]),
    ensures
        group_insert(rv, items) is None,
{
    lemma_blocked_item_fails_rec(rv, items, record_of(items), j);
}

proof fn lemma_blocked_item_fails_rec(
    rv: RegView,
    items: Seq<ItemSpec>,
    record: Seq<CoordSpec>,
    j: int,
)
    requires
        rv_wf(rv),
        0 <= j < items.len(),
        item_blocked(rv, items[j]),
    ensures
        group_insert_map(rv, items, record) is None,
    decreases items.len(),
{
    if !item_ok(rv, items[0]) {
    } else {
        let it = items[0];
        assert(j != 0);
        let rv1 = insert_item(rv, it, record);
        crate::model::lemma_insert_then_remove(rv, it, record);
        assert(rv1.dom() =~= rv.dom());
        let itj = items[j];
        assert(item_blocked(rv1, itj)) by {
            if itj.size < 1 {
            } else if !rv.contains_key(itj.name) {
                assert(!rv1.contains_key(itj.name));
            } else if itj.index + itj.size > rv[itj.name].capacity {
                assert(rv1[itj.name].capacity == rv[itj.name].capacity) by {
                    if itj.name != it.name {
                        assert(rv1[itj.name] == rv[itj.name]);
                    }
                }
            } else {
                assert(!range_free(rv[itj.name].entries, itj.index, itj.size));
                let kw = choose|k: int|
                    #[trigger] rv[itj.name].entries.dom().contains(k) && !(k
                        + rv[itj.name].entries[k].size <= itj.index || itj.index + itj.size <= k);
                assert(rv[itj.name].entries.dom().contains(kw) && !(kw
                    + rv[itj.name].entries[kw].size <= itj.index || itj.index + itj.size <= kw));
                assert(rv1[itj.name].entries.contains_key(kw) && rv1[itj.name].entries[kw]
                    == rv[itj.name].entries[kw]) by {
                    if itj.name == it.name {
                        crate::model::lemma_store_wf_insert(
                            rv[it.name].entries,
                            rv[it.name].capacity,
                            it.index,
                            wrapped_entry(it, record),
                        );
                        assert(kw != it.index);
                    } else {
                        assert(rv1[itj.name] == rv[itj.name]);
                    }
                }
                assert(!range_free(rv1[itj.name].entries, itj.index, itj.size));
            }
        }
        assert(items.drop_first()[j - 1] == items[j]);
        lemma_blocked_item_fails_rec(rv1, items.drop_first(), record, j - 1);
    }
}

} // verus!
