//! The registry of named buffers and the group orchestrator.

use vstd::prelude::*;

use crate::entry::{clone_coords, coord_view, coords_view, Coordinate, CoordSpec, EntrySpec, MultiEntry};
use crate::model::{
    buf_model, group_insert, group_insert_failure, group_insert_map, has_name, insert_item,
    item_failure, item_ok, item_view, items_view, lemma_group_insert_outcomes,
    lemma_insert_then_remove, lemma_skip_step, lemma_total_push, lemma_total_remove,
    lemma_total_update, lemma_view_index, lemma_view_push, lemma_view_remove, lemma_view_update,
    coord_found, coord_resolves, count_some, found_view, found_views, group_get, group_remove,
    lookup_coord, record_of, reg_view, reg_wf, relink_all, relink_coord, removed_view,
    removed_views, remove_coord, set_linked, total_of, undo_coords, unique_names, unlink_at,
    without_coord, wrapped_entry, BufferModel, InsertFailure, ItemSpec, RegView, StorePair,
};
use crate::store::{
    bv_get, bv_insert, bv_len, bv_max_size, bv_new, bv_remove, entry_covers, lemma_cover_unique,
    range_free, some_entry_covers, store_entries, store_max_size, store_wf,
};

verus! {

/// How an operation of the engine can fail. Every variant names the buffer it
/// concerns; the insertion and lookup failures also carry the offset.
#[derive(Clone, Debug)]
pub enum MultiVectorError {
    /// `create_vector` was given a name that is already taken.
    DuplicateName { vector: String },
    /// An operation named a buffer that does not exist.
    UnknownBuffer { vector: String },
    /// `destroy_vector` was applied to a buffer that still holds entries.
    NotEmpty { vector: String },
    /// An insertion's range intersects an entry already stored.
    Overlap { vector: String, index: usize },
    /// An insertion's range ends past the buffer's capacity.
    OutOfBounds { vector: String, index: usize },
    /// An insertion's range is empty.
    ZeroLength { vector: String, index: usize },
    /// A lookup, unlink or removal offset is not covered by any entry.
    EntryNotFound { vector: String, index: usize },
}

/// A set of named, fixed-capacity buffers whose entries can be inserted,
/// queried, unlinked and removed as groups.
///
/// The value of a `MultiVector` is a map from buffer name to buffer value
/// (capacity and entries); see [`crate::model`].
pub struct MultiVector {
    vectors: Vec<StorePair>,
}

impl View for MultiVector {
    type V = RegView;

    closed spec fn view(&self) -> RegView {
        reg_view(self.vectors@)
    }
}

impl MultiVector {
    #[verifier::type_invariant]
    spec fn wf(self) -> bool {
        reg_wf(self.vectors@)
    }

    /// The total number of entries across all buffers.
    pub closed spec fn total_len(self) -> int {
        total_of(self.vectors@)
    }

    /// Creates an engine with no buffers.
    pub fn new() -> (r: Self)
        ensures
            r@ == Map::<Seq<char>, BufferModel>::empty(),
            r.total_len() == 0,
    {
        let r = MultiVector { vectors: Vec::new() };
        proof {
            assert(r@ =~= Map::<Seq<char>, BufferModel>::empty());
        }
        r
    }

    /// Finds the position of the buffer carrying `name`, if any.
    fn find_vector(&self, name: &String) -> (r: Option<usize>)
        ensures
            match r {
                Some(i) => i < self.vectors@.len() && self.vectors@[i as int].0@ == name@,
                None => !has_name(self.vectors@, name@),
            },
    {
        find_pair(&self.vectors, name)
    }

    /// The number of buffers.
    pub fn vector_count(&self) -> (r: usize)
        ensures
            r == self@.dom().len(),
    {
        proof {
            use_type_invariant(self);
            lemma_count_is_dom_len(self.vectors@);
        }
        self.vectors.len()
    }

    /// Whether a buffer with the given name exists.
    pub fn vector_exists(&self, vector: &str) -> (r: bool)
        ensures
            r == self@.contains_key(vector@),
    {
        proof {
            use_type_invariant(self);
        }
        let name = vector.to_owned();
        match self.find_vector(&name) {
            Some(i) => {
                proof {
                    lemma_view_index(self.vectors@, i as int);
                }
                true
            },
            None => false,
        }
    }

    /// The number of entries in the named buffer, or nothing when the name is
    /// unknown.
    pub fn len_vector(&self, vector: &str) -> (r: Option<usize>)
        ensures
            match r {
                Some(n) => self@.contains_key(vector@) && n as int == self@[vector@].entries.len(),
                None => !self@.contains_key(vector@),
            },
    {
        proof {
            use_type_invariant(self);
        }
        let name = vector.to_owned();
        match self.find_vector(&name) {
            Some(i) => {
                proof {
                    lemma_view_index(self.vectors@, i as int);
                }
                Some(bv_len(&self.vectors[i].1))
            },
            None => None,
        }
    }

    /// The capacity of the named buffer, or nothing when the name is unknown.
    pub fn max_size_vector(&self, vector: &str) -> (r: Option<usize>)
        ensures
            match r {
                Some(c) => self@.contains_key(vector@) && c as int == self@[vector@].capacity,
                None => !self@.contains_key(vector@),
            },
    {
        proof {
            use_type_invariant(self);
        }
        let name = vector.to_owned();
        match self.find_vector(&name) {
            Some(i) => {
                proof {
                    lemma_view_index(self.vectors@, i as int);
                }
                Some(bv_max_size(&self.vectors[i].1))
            },
            None => None,
        }
    }

    /// The total number of entries across all buffers. The total must fit in
    /// a `usize` to be returned.
    pub fn len(&self) -> (r: usize)
        requires
            self.total_len() <= usize::MAX,
        ensures
            r as int == self.total_len(),
    {
        proof {
            use_type_invariant(self);
            assert(self.vectors@.take(0) =~= Seq::<StorePair>::empty());
        }
        let mut sum: usize = 0;
        let mut i: usize = 0;
        while i < self.vectors.len()
            invariant
                i <= self.vectors@.len(),
                total_of(self.vectors@) <= usize::MAX,
                sum as int == total_of(self.vectors@.take(i as int)),
            decreases self.vectors@.len() - i,
        {
            let n = bv_len(&self.vectors[i].1);
            proof {
                assert(self.vectors@.take(i as int + 1).drop_last() =~= self.vectors@.take(
                    i as int,
                ));
                assert(self.vectors@.take(i as int + 1).last() == self.vectors@[i as int]);
                lemma_total_take_bound(self.vectors@, i as int + 1);
            }
            sum = sum + n;
            i = i + 1;
        }
        proof {
            assert(self.vectors@.take(self.vectors@.len() as int) =~= self.vectors@);
        }
        sum
    }

    /// Creates an empty buffer of the given capacity under the given name.
    ///
    /// Fails, changing nothing, when a buffer with that name already exists.
    pub fn create_vector(&mut self, name: &str, max_size: usize) -> (r: Result<
        (),
        MultiVectorError,
    >)
        ensures
            old(self)@.contains_key(name@) <==> r is Err,
            r matches Ok(()) ==> final(self)@ == old(self)@.insert(
                name@,
                BufferModel { capacity: max_size as int, entries: Map::empty() },
            ),
            r matches Err(e) ==> final(self)@ == old(self)@ && (e matches
                MultiVectorError::DuplicateName { vector } && vector@ == name@),
            final(self).total_len() == old(self).total_len(),
    {
        proof {
            use_type_invariant(&*self);
        }
        let owned = name.to_owned();
        match self.find_vector(&owned) {
            Some(i) => {
                proof {
                    lemma_view_index(self.vectors@, i as int);
                }
                Err(MultiVectorError::DuplicateName { vector: owned })
            },
            None => {
                let store = bv_new(max_size);
                let ghost s0 = self.vectors@;
                let mut vectors: Vec<StorePair> = Vec::new();
                core::mem::swap(&mut vectors, &mut self.vectors);
                vectors.push((owned, store));
                proof {
                    let p = vectors@.last();
                    assert(vectors@ =~= s0.push(p));
                    lemma_view_push(s0, p);
                    lemma_total_push(s0, p);
                    assert(store_entries(store) =~= Map::<int, EntrySpec>::empty());
                    assert(store_entries(store).dom() =~= Set::<int>::empty());
                    assert(store_wf(store_entries(store), store_max_size(store)));
                    assert forall|j: int| 0 <= j < vectors@.len() implies store_wf(
                        store_entries((#[trigger] vectors@[j]).1),
                        store_max_size(vectors@[j].1),
                    ) by {
                        if j < s0.len() {
                            assert(vectors@[j] == s0[j]);
                        }
                    }
                    assert(buf_model(store) == BufferModel {
                        capacity: max_size as int,
                        entries: Map::empty(),
                    });
                }
                self.vectors = vectors;
                Ok(())
            },
        }
    }

    /// Inserts a grouped set of entries: for each item `(buffer, payload,
    /// offset, length)`, in order, the payload is wrapped with the group's
    /// link record (the ordered coordinates of all the items) and stored in
    /// the named buffer.
    ///
    /// Either every item is stored or, as soon as one cannot be (unknown
    /// buffer, zero length, out of bounds, overlap), everything stored so far
    /// by this call is removed again, the registry is exactly as before the
    /// call, and the error names the offending item's buffer and offset. An
    /// empty list succeeds with no effect.
    pub fn insert_entries(&mut self, entries: Vec<(&str, u64, usize, usize)>) -> (r: Result<
        (),
        MultiVectorError,
    >)
        ensures
            r is Ok <==> group_insert(old(self)@, items_view(entries@)) is Some,
            r matches Ok(()) ==> (group_insert(old(self)@, items_view(entries@)) matches Some(rv)
                && final(self)@ == rv) && final(self).total_len() == old(self).total_len()
                + entries@.len(),
            r matches Err(e) ==> final(self)@ == old(self)@ && final(self).total_len() == old(
                self,
            ).total_len() && (group_insert_failure(
                old(self)@,
                items_view(entries@),
                record_of(items_view(entries@)),
            ) matches Some((j, f)) && insert_error_matches(e, items_view(entries@)[j], f)),
    {
        proof {
            use_type_invariant(&*self);
        }
        let ghost items = items_view(entries@);
        let ghost record = record_of(items);
        let ghost rv0 = self@;
        let ghost total0 = self.total_len();

        // The link record shared by every member of the group.
        let mut references: Vec<Coordinate> = Vec::new();
        let mut i: usize = 0;
        while i < entries.len()
            invariant
                i <= entries@.len(),
                items == items_view(entries@),
                record == record_of(items),
                coords_view(references@) == record.take(i as int),
            decreases entries@.len() - i,
        {
            let t = entries[i];
            let ghost r0 = references@;
            references.push((t.0.to_owned(), t.2));
            proof {
                let c = references@.last();
                assert(coord_view(c) == record[i as int]);
                assert(coords_view(references@) =~= coords_view(r0).push(coord_view(c)));
                assert(record.take(i as int + 1) =~= record.take(i as int).push(
                    record[i as int],
                ));
            }
            i = i + 1;
        }
        proof {
            assert(record.take(entries@.len() as int) =~= record);
        }

        let mut vectors: Vec<StorePair> = Vec::new();
        core::mem::swap(&mut vectors, &mut self.vectors);
        let mut backtrack: Vec<Coordinate> = Vec::new();
        let mut failure: Option<MultiVectorError> = None;
        let ghost mut fail_at: int = 0;
        let ghost mut fail_kind: InsertFailure = InsertFailure::Overlap;
        let mut j: usize = 0;
        proof {
            assert(items.skip(0) =~= items);
            assert(coords_view(backtrack@) =~= Seq::<CoordSpec>::empty());
        }
        while j < entries.len()
            invariant_except_break
                failure is None,
                backtrack@.len() == j,
                total_of(vectors@) == total0 + j,
                undo_coords(reg_view(vectors@), coords_view(backtrack@)) == Some(rv0),
                group_insert_map(rv0, items, record) == group_insert_map(
                    reg_view(vectors@),
                    items.skip(j as int),
                    record,
                ),
                (match group_insert_failure(reg_view(vectors@), items.skip(j as int), record) {
                    Some((a, f)) => group_insert_failure(rv0, items, record) == Some((a + j, f)),
                    None => group_insert_failure(rv0, items, record) is None,
                }),
            invariant
                j <= entries@.len(),
                items == items_view(entries@),
                items.len() == entries@.len(),
                record == record_of(items),
                coords_view(references@) == record,
                reg_wf(vectors@),
            ensures
                reg_wf(vectors@),
                items == items_view(entries@),
                record == record_of(items),
                match failure {
                    None => {
                        &&& j == entries@.len()
                        &&& total_of(vectors@) == total0 + j
                        &&& group_insert_map(rv0, items, record) == group_insert_map(
                            reg_view(vectors@),
                            items.skip(j as int),
                            record,
                        )
                        &&& group_insert_failure(rv0, items, record) is None
                    },
                    Some(e) => {
                        &&& total_of(vectors@) == total0 + backtrack@.len()
                        &&& undo_coords(reg_view(vectors@), coords_view(backtrack@)) == Some(rv0)
                        &&& group_insert_failure(rv0, items, record) == Some((fail_at, fail_kind))
                        &&& 0 <= fail_at < items.len()
                        &&& insert_error_matches(e, items[fail_at], fail_kind)
                    },
                },
            decreases entries@.len() - j,
        {
            let t = entries[j];
            let ghost cur = reg_view(vectors@);
            let ghost it = items[j as int];
            proof {
                lemma_skip_step(items, j as int);
                assert(it == item_view(entries@[j as int]));
                crate::model::lemma_view_wf(vectors@);
            }
            let name = t.0.to_owned();
            match find_pair(&vectors, &name) {
                None => {
                    proof {
                        assert(!cur.contains_key(it.name));
                        assert(!item_ok(cur, it));
                        assert(item_failure(cur, it) == InsertFailure::UnknownBuffer);
                        assert(group_insert_failure(cur, items.skip(j as int), record) == Some(
                            (0int, item_failure(cur, it)),
                        ));
                        fail_at = j as int;
                        fail_kind = InsertFailure::UnknownBuffer;
                    }
                    failure = Some(MultiVectorError::UnknownBuffer { vector: name });
                    break ;
                },
                Some(i) => {
                    proof {
                        lemma_view_index(vectors@, i as int);
                        assert(cur.contains_key(it.name));
                        assert(cur[it.name] == buf_model(vectors@[i as int].1));
                    }
                    if t.3 == 0 {
                        proof {
                            assert(!item_ok(cur, it));
                            assert(item_failure(cur, it) == InsertFailure::ZeroLength);
                            assert(group_insert_failure(cur, items.skip(j as int), record)
                                == Some((0int, item_failure(cur, it))));
                            fail_at = j as int;
                            fail_kind = InsertFailure::ZeroLength;
                        }
                        failure = Some(MultiVectorError::ZeroLength { vector: name, index: t.2 });
                        break ;
                    }
                    let cap = bv_max_size(&vectors[i].1);
                    if t.3 > cap || t.2 > cap - t.3 {
                        proof {
                            assert(it.index + it.size > cur[it.name].capacity);
                            assert(!item_ok(cur, it));
                            assert(item_failure(cur, it) == InsertFailure::OutOfBounds);
                            assert(group_insert_failure(cur, items.skip(j as int), record)
                                == Some((0int, item_failure(cur, it))));
                            fail_at = j as int;
                            fail_kind = InsertFailure::OutOfBounds;
                        }
                        failure = Some(MultiVectorError::OutOfBounds { vector: name, index: t.2 });
                        break ;
                    }
                    let entry = MultiEntry {
                        vector: name,
                        data: t.1,
                        linked: clone_coords(&references),
                    };
                    proof {
                        assert(entry@ == wrapped_entry(it, record).entry);
                    }
                    let ghost sb = vectors@;
                    let mut pair = vectors.remove(i);
                    let ok = bv_insert(&mut pair.1, t.2, t.3, entry);
                    let ghost np = pair;
                    vectors.insert(i, pair);
                    proof {
                        assert(vectors@ =~= sb.update(i as int, np));
                        assert(np.0@ == sb[i as int].0@);
                        lemma_view_update(sb, i as int, np);
                        lemma_total_update(sb, i as int, np);
                    }
                    if !ok {
                        proof {
                            assert(buf_model(np.1) == cur[it.name]);
                            assert(reg_view(vectors@) =~= cur);
                            assert(total_of(vectors@) == total0 + j);
                            assert(!range_free(cur[it.name].entries, it.index, it.size));
                            assert(!item_ok(cur, it));
                            assert(item_failure(cur, it) == InsertFailure::Overlap);
                            assert(group_insert_failure(cur, items.skip(j as int), record)
                                == Some((0int, item_failure(cur, it))));
                            fail_at = j as int;
                            fail_kind = InsertFailure::Overlap;
                            assert forall|a: int| 0 <= a < vectors@.len() implies store_wf(
                                store_entries((#[trigger] vectors@[a]).1),
                                store_max_size(vectors@[a].1),
                            ) by {
                                if a != i as int {
                                    assert(vectors@[a] == sb[a]);
                                } else {
                                    assert(store_entries(np.1) == store_entries(sb[a].1));
                                    assert(store_max_size(np.1) == store_max_size(sb[a].1));
                                }
                            }
                        }
                        failure = Some(
                            MultiVectorError::Overlap { vector: t.0.to_owned(), index: t.2 },
                        );
                        break ;
                    }
                    let ghost bt0 = backtrack@;
                    backtrack.push((t.0.to_owned(), t.2));
                    proof {
                        assert(item_ok(cur, it));
                        let m = cur[it.name].entries;
                        crate::model::lemma_store_wf_insert(
                            m,
                            cur[it.name].capacity,
                            it.index,
                            wrapped_entry(it, record),
                        );
                        assert(m.insert(it.index, wrapped_entry(it, record)).dom() =~= m.dom()
                            .insert(it.index));
                        assert(store_entries(np.1).len() == m.len() + 1);
                        assert(buf_model(np.1) == insert_item(cur, it, record)[it.name]);
                        assert(reg_view(vectors@) =~= insert_item(cur, it, record));
                        let cur2 = reg_view(vectors@);
                        lemma_insert_then_remove(cur, it, record);
                        let cvnew = coords_view(backtrack@);
                        assert(backtrack@ == bt0.push(backtrack@.last()));
                        assert(coord_view(backtrack@.last()) == (it.name, it.index));
                        assert(cvnew =~= coords_view(bt0).push((it.name, it.index)));
                        assert(cvnew.last() == (it.name, it.index));
                        assert(cvnew.drop_last() =~= coords_view(bt0));
                        assert(remove_coord(cur2, (it.name, it.index)) == cur);
                        assert(undo_coords(cur2, cvnew) == undo_coords(cur, coords_view(bt0)));
                        assert(total_of(vectors@) == total0 + j + 1);
                        assert(group_insert_map(rv0, items, record) == group_insert_map(
                            cur2,
                            items.skip(j as int + 1),
                            record,
                        ));
                        assert forall|a: int| 0 <= a < vectors@.len() implies store_wf(
                            store_entries((#[trigger] vectors@[a]).1),
                            store_max_size(vectors@[a].1),
                        ) by {
                            if a != i as int {
                                assert(vectors@[a] == sb[a]);
                            } else {
                                assert(store_wf(
                                    m.insert(it.index, wrapped_entry(it, record)),
                                    cur[it.name].capacity,
                                ));
                            }
                        }
                    }
                    j = j + 1;
                },
            }
        }

        match failure {
            None => {
                proof {
                    assert(items.skip(items.len() as int) =~= Seq::<ItemSpec>::empty());
                    lemma_group_insert_outcomes(rv0, items, record);
                }
                self.vectors = vectors;
                Ok(())
            },
            Some(e) => {
                proof {
                    lemma_group_insert_outcomes(rv0, items, record);
                }
                while backtrack.len() != 0
                    invariant
                        reg_wf(vectors@),
                        undo_coords(reg_view(vectors@), coords_view(backtrack@)) == Some(rv0),
                        total_of(vectors@) == total0 + backtrack@.len(),
                    decreases backtrack@.len(),
                {
                    let ghost btv = backtrack@;
                    let c = backtrack.pop().unwrap();
                    let ghost cur = reg_view(vectors@);
                    let ghost cv = (c.0@, c.1 as int);
                    proof {
                        crate::model::lemma_view_wf(vectors@);
                        assert(coords_view(btv).last() == cv);
                        assert(coords_view(btv).drop_last() =~= coords_view(backtrack@));
                        assert(lookup_coord(cur, cv) is Some);
                    }
                    match find_pair(&vectors, &c.0) {
                        None => {
                            // A compensation coordinate always names a buffer
                            // that exists: the entry was inserted there in
                            // this very call.
                            proof {
                                assert(!cur.contains_key(cv.0));
                                assert(false);
                            }
                        },
                        Some(i) => {
                            proof {
                                lemma_view_index(vectors@, i as int);
                            }
                            let ghost sb = vectors@;
                            let mut pair = vectors.remove(i);
                            let rm = bv_remove(&mut pair.1, c.1);
                            let ghost np = pair;
                            vectors.insert(i, pair);
                            proof {
                                assert(vectors@ =~= sb.update(i as int, np));
                                lemma_view_update(sb, i as int, np);
                                lemma_total_update(sb, i as int, np);
                                let m = cur[cv.0].entries;
                                let capm = cur[cv.0].capacity;
                                let kc = choose|k: int| crate::model::coord_found(cur, cv, k);
                                assert(entry_covers(m, kc, cv.1));
                                assert(some_entry_covers(m, cv.1));
                                assert(rm is Some);
                                let (start, sz, me) = rm.unwrap();
                                lemma_cover_unique(m, capm, cv.1, kc, start as int);
                                assert(buf_model(np.1) == remove_coord(cur, cv)[cv.0]);
                                assert(reg_view(vectors@) =~= remove_coord(cur, cv));
                                m.lemma_remove_key_len(start as int);
                                assert(total_of(vectors@) == total0 + backtrack@.len());
                                assert forall|a: int| 0 <= a < vectors@.len() implies store_wf(
                                    store_entries((#[trigger] vectors@[a]).1),
                                    store_max_size(vectors@[a].1),
                                ) by {
                                    if a != i as int {
                                        assert(vectors@[a] == sb[a]);
                                    } else {
                                        assert(store_entries(np.1) == m.remove(start as int));
                                        assert(store_entries(np.1).dom() =~= m.dom().remove(
                                            start as int,
                                        ));
                                    }
                                }
                            }
                        },
                    }
                }
                proof {
                    assert(coords_view(backtrack@) =~= Seq::<CoordSpec>::empty());
                }
                self.vectors = vectors;
                Err(e)
            },
        }
    }

    /// Inserts a single entry: a group of one, linked only to itself.
    pub fn insert_entry(&mut self, vector: &str, data: u64, index: usize, size: usize) -> (r:
        Result<(), MultiVectorError>)
        ensures
            r is Ok <==> group_insert(
                old(self)@,
                seq![
                    ItemSpec {
                        name: vector@,
                        data: data,
                        index: index as int,
                        size: size as int,
                    },
                ],
            ) is Some,
            r matches Ok(()) ==> (group_insert(
                old(self)@,
                seq![
                    ItemSpec {
                        name: vector@,
                        data: data,
                        index: index as int,
                        size: size as int,
                    },
                ],
            ) matches Some(rv) && final(self)@ == rv) && final(self).total_len() == old(
                self,
            ).total_len() + 1,
            r matches Err(e) ==> final(self)@ == old(self)@ && final(self).total_len() == old(
                self,
            ).total_len() && insert_error_matches(
                e,
                ItemSpec { name: vector@, data: data, index: index as int, size: size as int },
                item_failure(
                    old(self)@,
                    ItemSpec { name: vector@, data: data, index: index as int, size: size as int },
                ),
            ),
    {
        let entries: Vec<(&str, u64, usize, usize)> = vec![(vector, data, index, size)];
        let ghost its = items_view(entries@);
        let ghost it = ItemSpec {
            name: vector@,
            data: data,
            index: index as int,
            size: size as int,
        };
        proof {
            assert(its =~= seq![it]);
        }
        let r = self.insert_entries(entries);
        proof {
            if r is Err {
                let record = record_of(its);
                assert(its.drop_first() =~= Seq::<ItemSpec>::empty());
                assert(its[0] == it);
                if item_ok(old(self)@, it) {
                    assert(group_insert_failure(
                        insert_item(old(self)@, it, record),
                        its.drop_first(),
                        record,
                    ) is None);
                    assert(group_insert_failure(old(self)@, its, record) is None);
                }
                assert(group_insert_failure(old(self)@, its, record) == Some(
                    (0int, item_failure(old(self)@, it)),
                ));
            }
        }
        r
    }

    /// The entry covering the given offset of the named buffer, as its
    /// starting offset, span length and wrapped payload; nothing when the
    /// buffer is unknown or no entry covers the offset. No group traversal.
    pub fn get_entry<'a>(&'a self, vector: &str, index: usize) -> (r: Option<
        (usize, usize, &'a MultiEntry),
    >)
        ensures
            r is Some <==> coord_resolves(self@, (vector@, index as int)),
            found_view(r) == lookup_coord(self@, (vector@, index as int)),
    {
        proof {
            use_type_invariant(self);
        }
        let name = vector.to_owned();
        lookup_in(&self.vectors, &name, index)
    }

    /// The whole group of the entry covering the given offset: its link
    /// record is read once, then every coordinate of it is looked up
    /// independently, in order. A coordinate that resolves to nothing is
    /// reported as an absent slot, not as a failure of the call.
    ///
    /// Fails when the named buffer is unknown or no entry covers the offset.
    pub fn get_entries<'a>(&'a self, vector: &str, index: usize) -> (r: Result<
        Vec<Option<(usize, usize, &'a MultiEntry)>>,
        MultiVectorError,
    >)
        ensures
            r is Ok <==> coord_resolves(self@, (vector@, index as int)),
            r matches Ok(res) ==> forall|k: int|
                coord_found(self@, (vector@, index as int), k) ==> found_views(res@) == group_get(
                    self@,
                    self@[vector@].entries[k].entry.linked,
                ),
            r matches Err(e) ==> match e {
                MultiVectorError::UnknownBuffer { vector: v } => v@ == vector@
                    && !self@.contains_key(vector@),
                MultiVectorError::EntryNotFound { vector: v, index: ix } => v@ == vector@ && ix
                    == index && self@.contains_key(vector@) && !coord_resolves(
                    self@,
                    (vector@, index as int),
                ),
                _ => false,
            },
    {
        proof {
            use_type_invariant(self);
        }
        let ghost cur = self@;
        let ghost cv = (vector@, index as int);
        let name = vector.to_owned();
        let i = match self.find_vector(&name) {
            None => {
                proof {
                    assert forall|k: int| !coord_found(cur, cv, k) by {}
                }
                return Err(MultiVectorError::UnknownBuffer { vector: name });
            },
            Some(i) => i,
        };
        proof {
            lemma_view_index(self.vectors@, i as int);
        }
        let linked: &Vec<Coordinate> = match bv_get(&self.vectors[i].1, index) {
            None => {
                proof {
                    let m = cur[cv.0].entries;
                    assert forall|k: int| !coord_found(cur, cv, k) by {
                        if coord_found(cur, cv, k) {
                            assert(some_entry_covers(m, index as int));
                        }
                    }
                }
                return Err(MultiVectorError::EntryNotFound { vector: name, index });
            },
            Some((s, _z, e)) => {
                proof {
                    assert(coord_found(cur, cv, s as int));
                    assert(cur[cv.0].entries[s as int].entry.linked == coords_view(e.linked@));
                }
                &e.linked
            },
        };
        let ghost k0 = choose|k: int| coord_found(cur, cv, k);
        let ghost linkv = coords_view(linked@);
        let mut results: Vec<Option<(usize, usize, &MultiEntry)>> = Vec::new();
        let mut a: usize = 0;
        proof {
            assert(found_views(results@) =~= group_get(cur, linkv).take(0));
        }
        while a < linked.len()
            invariant
                a <= linked@.len(),
                linkv == coords_view(linked@),
                reg_wf(self.vectors@),
                cur == self@,
                found_views(results@) == group_get(cur, linkv).take(a as int),
            decreases linked@.len() - a,
        {
            let c = &linked[a];
            let r1 = lookup_in(&self.vectors, &c.0, c.1);
            results.push(r1);
            proof {
                assert(coord_view(linked@[a as int]) == linkv[a as int]);
                assert(found_view(r1) == group_get(cur, linkv)[a as int]);
                assert(found_views(results@) =~= group_get(cur, linkv).take(a as int).push(
                    found_view(r1),
                ));
                assert(group_get(cur, linkv).take(a as int + 1) =~= group_get(cur, linkv).take(
                    a as int,
                ).push(group_get(cur, linkv)[a as int]));
            }
            a = a + 1;
        }
        proof {
            assert(group_get(cur, linkv).take(linkv.len() as int) =~= group_get(cur, linkv));
            assert forall|k: int| coord_found(cur, cv, k) implies found_views(results@)
                == group_get(cur, cur[vector@].entries[k].entry.linked) by {
                lemma_cover_unique(
                    cur[cv.0].entries,
                    cur[cv.0].capacity,
                    index as int,
                    k,
                    k0,
                );
            }
        }
        Ok(results)
    }
    /// Removes and returns the whole group of the entry covering the given
    /// offset: its link record is read once, then the entry at every
    /// coordinate of it is removed from its buffer, in order. A coordinate
    /// that resolves to nothing yields an absent slot, not a failure.
    ///
    /// Fails, changing nothing, when the named buffer is unknown or no entry
    /// covers the offset.
    pub fn remove_entries(&mut self, vector: &str, index: usize) -> (r: Result<
        Vec<Option<(usize, usize, MultiEntry)>>,
        MultiVectorError,
    >)
        ensures
            r is Ok <==> coord_resolves(old(self)@, (vector@, index as int)),
            r matches Ok(res) ==> forall|k: int|
                coord_found(old(self)@, (vector@, index as int), k) ==> {
                    let gr = group_remove(
                        old(self)@,
                        old(self)@[vector@].entries[k].entry.linked,
                    );
                    &&& final(self)@ == gr.0
                    &&& removed_views(res@) == gr.1
                    &&& final(self).total_len() == old(self).total_len() - count_some(gr.1)
                },
            r matches Err(e) ==> final(self)@ == old(self)@ && final(self).total_len() == old(
                self,
            ).total_len() && match e {
                MultiVectorError::UnknownBuffer { vector: v } => v@ == vector@ && !old(
                    self,
                )@.contains_key(vector@),
                MultiVectorError::EntryNotFound { vector: v, index: ix } => v@ == vector@ && ix
                    == index && old(self)@.contains_key(vector@) && !coord_resolves(
                    old(self)@,
                    (vector@, index as int),
                ),
                _ => false,
            },
    {
        proof {
            use_type_invariant(&*self);
        }
        let ghost rv0 = self@;
        let ghost total0 = self.total_len();
        let ghost cv0 = (vector@, index as int);
        let name = vector.to_owned();
        let i = match self.find_vector(&name) {
            None => {
                proof {
                    assert forall|k: int| !coord_found(rv0, cv0, k) by {}
                }
                return Err(MultiVectorError::UnknownBuffer { vector: name });
            },
            Some(i) => i,
        };
        proof {
            lemma_view_index(self.vectors@, i as int);
        }
        let linked: Vec<Coordinate> = match bv_get(&self.vectors[i].1, index) {
            None => {
                proof {
                    let m = rv0[cv0.0].entries;
                    assert forall|k: int| !coord_found(rv0, cv0, k) by {
                        if coord_found(rv0, cv0, k) {
                            assert(some_entry_covers(m, index as int));
                        }
                    }
                }
                return Err(MultiVectorError::EntryNotFound { vector: name, index });
            },
            Some((s, _z, e)) => {
                proof {
                    assert(coord_found(rv0, cv0, s as int));
                    assert(rv0[cv0.0].entries[s as int].entry.linked == coords_view(e.linked@));
                }
                clone_coords(&e.linked)
            },
        };
        let ghost k0 = choose|k: int| coord_found(rv0, cv0, k);
        let ghost linkv = coords_view(linked@);
        let ghost gr = group_remove(rv0, linkv);
        proof {
            crate::model::lemma_group_remove_len(rv0, linkv);
        }

        let mut vectors: Vec<StorePair> = Vec::new();
        core::mem::swap(&mut vectors, &mut self.vectors);
        let mut results: Vec<Option<(usize, usize, MultiEntry)>> = Vec::new();
        let mut a: usize = 0;
        proof {
            assert(linkv.skip(0) =~= linkv);
            assert(removed_views(results@) =~= gr.1.take(0));
            assert(gr.1.skip(0) =~= gr.1);
        }
        while a < linked.len()
            invariant
                a <= linked@.len(),
                linkv == coords_view(linked@),
                gr == group_remove(rv0, linkv),
                gr.1.len() == linkv.len(),
                reg_wf(vectors@),
                results@.len() == a,
                group_remove(reg_view(vectors@), linkv.skip(a as int)).0 == gr.0,
                group_remove(reg_view(vectors@), linkv.skip(a as int)).1 == gr.1.skip(a as int),
                removed_views(results@) == gr.1.take(a as int),
                total_of(vectors@) == total0 - count_some(gr.1.take(a as int)),
            decreases linked@.len() - a,
        {
            let ghost cur = reg_view(vectors@);
            let ghost cv = linkv[a as int];
            proof {
                crate::model::lemma_group_remove_len(rv0, linkv);
                lemma_skip_step(linkv, a as int);
                assert(coord_view(linked@[a as int]) == cv);
                crate::model::lemma_view_wf(vectors@);
                assert(gr.1[a as int] == gr.1.skip(a as int)[0]);
                assert(gr.1.take(a as int + 1) =~= gr.1.take(a as int).push(gr.1[a as int]));
                assert(gr.1.skip(a as int).drop_first() =~= gr.1.skip(a as int + 1));
            }
            let removed: Option<(usize, usize, MultiEntry)> = match find_pair(
                &vectors,
                &linked[a].0,
            ) {
                None => {
                    proof {
                        assert(!cur.contains_key(cv.0));
                        assert forall|k: int| !coord_found(cur, cv, k) by {}
                        assert(lookup_coord(cur, cv) is None);
                        assert(remove_coord(cur, cv) == cur);
                    }
                    None
                },
                Some(i2) => {
                    proof {
                        lemma_view_index(vectors@, i2 as int);
                    }
                    let ghost sb = vectors@;
                    let mut pair = vectors.remove(i2);
                    let rm = bv_remove(&mut pair.1, linked[a].1);
                    let ghost np = pair;
                    vectors.insert(i2, pair);
                    proof {
                        assert(vectors@ =~= sb.update(i2 as int, np));
                        lemma_view_update(sb, i2 as int, np);
                        lemma_total_update(sb, i2 as int, np);
                        let m = cur[cv.0].entries;
                        let capm = cur[cv.0].capacity;
                        if rm is Some {
                            let (st, z, me) = rm.unwrap();
                            assert(coord_found(cur, cv, st as int));
                            let kc = choose|k: int| coord_found(cur, cv, k);
                            lemma_cover_unique(m, capm, cv.1, kc, st as int);
                            assert(lookup_coord(cur, cv) == Some((st as int, m[st as int])));
                            assert(buf_model(np.1) == remove_coord(cur, cv)[cv.0]);
                            assert(reg_view(vectors@) =~= remove_coord(cur, cv));
                            m.lemma_remove_key_len(st as int);
                        } else {
                            assert forall|k: int| !coord_found(cur, cv, k) by {
                                if coord_found(cur, cv, k) {
                                    assert(some_entry_covers(m, cv.1));
                                }
                            }
                            assert(lookup_coord(cur, cv) is None);
                            assert(buf_model(np.1) == cur[cv.0]);
                            assert(reg_view(vectors@) =~= cur);
                            assert(remove_coord(cur, cv) == cur);
                        }
                        assert forall|b: int| 0 <= b < vectors@.len() implies store_wf(
                            store_entries((#[trigger] vectors@[b]).1),
                            store_max_size(vectors@[b].1),
                        ) by {
                            if b != i2 as int {
                                assert(vectors@[b] == sb[b]);
                            } else {
                                crate::model::lemma_store_wf_remove(
                                    store_entries(sb[b].1),
                                    store_max_size(sb[b].1),
                                    cv.1,
                                );
                                if rm is Some {
                                    let st = rm.unwrap().0;
                                    crate::model::lemma_store_wf_remove(
                                        store_entries(sb[b].1),
                                        store_max_size(sb[b].1),
                                        st as int,
                                    );
                                } else {
                                    assert(store_entries(np.1) == store_entries(sb[b].1));
                                }
                            }
                        }
                    }
                    rm
                },
            };
            proof {
                assert(removed_view(removed) == lookup_coord(cur, cv));
                assert(gr.1[a as int] == lookup_coord(cur, cv));
                assert(group_remove(reg_view(vectors@), linkv.skip(a as int + 1)).0 == gr.0);
                assert(group_remove(reg_view(vectors@), linkv.skip(a as int + 1)).1 == gr.1.skip(
                    a as int,
                ).drop_first());
            }
            let ghost res0 = results@;
            let ghost rmv = removed;
            results.push(removed);
            proof {
                assert(results@ == res0.push(rmv));
                assert forall|b: int| 0 <= b < results@.len() implies removed_views(results@)[b]
                    == gr.1.take(a as int + 1)[b] by {
                    if b < a as int {
                        assert(removed_views(res0)[b] == gr.1.take(a as int)[b]);
                        assert(results@[b] == res0[b]);
                    } else {
                        assert(results@[b] == rmv);
                        assert(removed_view(rmv) == gr.1[a as int]);
                    }
                }
                assert(removed_views(results@) =~= gr.1.take(a as int + 1));
                assert(gr.1.take(a as int + 1).drop_last() =~= gr.1.take(a as int));
                assert(gr.1.take(a as int + 1).last() == gr.1[a as int]);
                assert(count_some(gr.1.take(a as int + 1)) == count_some(gr.1.take(a as int)) + (
                if gr.1[a as int] is Some {
                    1int
                } else {
                    0int
                }));
            }
            a = a + 1;
        }
        proof {
            crate::model::lemma_group_remove_len(rv0, linkv);
            assert(linkv.skip(linkv.len() as int) =~= Seq::<CoordSpec>::empty());
            assert(gr.1.take(linkv.len() as int) =~= gr.1);
            assert(gr.1.skip(linkv.len() as int) =~= Seq::<Option<(int, EntrySpec)>>::empty());
            assert(group_remove(reg_view(vectors@), linkv.skip(linkv.len() as int)).0 == reg_view(
                vectors@,
            ));
        }
        self.vectors = vectors;
        proof {
            assert forall|k: int| coord_found(rv0, cv0, k) implies rv0[vector@].entries[k].entry.linked
                == linkv by {
                lemma_cover_unique(rv0[cv0.0].entries, rv0[cv0.0].capacity, index as int, k, k0);
            }
        }
        Ok(results)
    }
    /// Detaches the entry covering the given offset from its group: that
    /// entry's link record becomes the singleton of its own coordinate (its
    /// buffer name and stored starting offset), and every entry reachable
    /// from the rest of the old record gets that rest as its record. Buffer
    /// contents are untouched; only link records change.
    ///
    /// Fails, changing nothing, when the named buffer is unknown or no entry
    /// covers the offset.
    pub fn unlink_entry(&mut self, vector: &str, index: usize) -> (r: Result<(), MultiVectorError>)
        ensures
            r is Ok <==> coord_resolves(old(self)@, (vector@, index as int)),
            r matches Ok(()) ==> forall|k: int|
                coord_found(old(self)@, (vector@, index as int), k) ==> final(self)@ == unlink_at(
                    old(self)@,
                    vector@,
                    k,
                ),
            r matches Err(e) ==> final(self)@ == old(self)@ && match e {
                MultiVectorError::UnknownBuffer { vector: v } => v@ == vector@ && !old(
                    self,
                )@.contains_key(vector@),
                MultiVectorError::EntryNotFound { vector: v, index: ix } => v@ == vector@ && ix
                    == index && old(self)@.contains_key(vector@) && !coord_resolves(
                    old(self)@,
                    (vector@, index as int),
                ),
                _ => false,
            },
            final(self).total_len() == old(self).total_len(),
    {
        proof {
            use_type_invariant(&*self);
        }
        let ghost rv0 = self@;
        let ghost total0 = self.total_len();
        let ghost cv0 = (vector@, index as int);
        let name = vector.to_owned();
        let i = match self.find_vector(&name) {
            None => {
                proof {
                    assert forall|k: int| !coord_found(rv0, cv0, k) by {}
                }
                return Err(MultiVectorError::UnknownBuffer { vector: name });
            },
            Some(i) => i,
        };
        proof {
            lemma_view_index(self.vectors@, i as int);
        }
        let (start, linked) = match bv_get(&self.vectors[i].1, index) {
            None => {
                proof {
                    let m = rv0[cv0.0].entries;
                    assert forall|k: int| !coord_found(rv0, cv0, k) by {
                        if coord_found(rv0, cv0, k) {
                            assert(some_entry_covers(m, index as int));
                        }
                    }
                }
                return Err(MultiVectorError::EntryNotFound { vector: name, index });
            },
            Some((s, _z, e)) => {
                proof {
                    assert(coord_found(rv0, cv0, s as int));
                    assert(rv0[cv0.0].entries[s as int].entry.linked == coords_view(e.linked@));
                }
                (s, clone_coords(&e.linked))
            },
        };
        let ghost k0 = start as int;
        let ghost record = coords_view(linked@);
        let ghost selfc = (vector@, k0);

        // The rest of the record: every occurrence of this entry's own
        // coordinate removed, order kept.
        let mut others: Vec<Coordinate> = Vec::new();
        let mut a: usize = 0;
        proof {
            assert(coords_view(others@) =~= without_coord(record.take(0), selfc));
        }
        while a < linked.len()
            invariant
                a <= linked@.len(),
                record == coords_view(linked@),
                selfc == (vector@, start as int),
                name@ == vector@,
                coords_view(others@) == without_coord(record.take(a as int), selfc),
            decreases linked@.len() - a,
        {
            let ghost o0 = others@;
            let keep = !(linked[a].0 == name && linked[a].1 == start);
            if keep {
                others.push((linked[a].0.clone(), linked[a].1));
            }
            proof {
                assert(record.take(a as int + 1).drop_last() =~= record.take(a as int));
                assert(record.take(a as int + 1).last() == record[a as int]);
                assert(coord_view(linked@[a as int]) == record[a as int]);
                if keep {
                    assert(record[a as int] != selfc);
                    assert(coords_view(others@) =~= coords_view(o0).push(record[a as int]));
                } else {
                    assert(record[a as int] == selfc);
                    assert(others@ == o0);
                }
            }
            a = a + 1;
        }
        proof {
            assert(record.take(linked@.len() as int) =~= record);
        }
        let ghost othersv = without_coord(record, selfc);

        let mut vectors: Vec<StorePair> = Vec::new();
        core::mem::swap(&mut vectors, &mut self.vectors);

        // This entry becomes a group of one, naming only itself.
        let selfref: Vec<Coordinate> = vec![(name.clone(), start)];
        proof {
            assert(coords_view(selfref@) =~= seq![selfc]);
        }
        relink_one(&mut vectors, &name, index, selfref);
        proof {
            let kc = choose|k: int| coord_found(rv0, cv0, k);
            lemma_cover_unique(rv0[cv0.0].entries, rv0[cv0.0].capacity, index as int, kc, k0);
            assert(lookup_coord(rv0, cv0) == Some((k0, rv0[cv0.0].entries[k0])));
            assert(reg_view(vectors@) == set_linked(rv0, vector@, k0, seq![selfc]));
            assert(othersv.skip(0) =~= othersv);
        }

        // Every other member of the old record gets the shortened record.
        let ghost target = unlink_at(rv0, vector@, k0);
        let mut b: usize = 0;
        while b < others.len()
            invariant
                b <= others@.len(),
                othersv == coords_view(others@),
                reg_wf(vectors@),
                total_of(vectors@) == total0,
                relink_all(reg_view(vectors@), othersv.skip(b as int), othersv) == target,
            decreases others@.len() - b,
        {
            let ghost cur = reg_view(vectors@);
            proof {
                lemma_skip_step(othersv, b as int);
                assert(coord_view(others@[b as int]) == othersv[b as int]);
            }
            let newlinked = clone_coords(&others);
            relink_one(&mut vectors, &others[b].0, others[b].1, newlinked);
            proof {
                assert(reg_view(vectors@) == relink_coord(cur, othersv[b as int], othersv));
            }
            b = b + 1;
        }
        proof {
            assert(othersv.skip(others@.len() as int) =~= Seq::<CoordSpec>::empty());
        }
        self.vectors = vectors;
        proof {
            assert forall|k: int| coord_found(rv0, cv0, k) implies final(self)@ == unlink_at(
                rv0,
                vector@,
                k,
            ) by {
                lemma_cover_unique(rv0[cv0.0].entries, rv0[cv0.0].capacity, index as int, k, k0);
            }
        }
        Ok(())
    }
    /// Every entry of the named buffer, in ascending offset order, each as
    /// its starting offset, span length and wrapped payload — the buffer's
    /// contents as they would be persisted. Nothing when the name is unknown.
    pub fn entries_of_vector<'a>(&'a self, vector: &str) -> (r: Option<
        Vec<(usize, usize, &'a MultiEntry)>,
    >)
        ensures
            r is Some <==> self@.contains_key(vector@),
            r matches Some(res) ==> forall|j: int|
                0 <= j < res@.len() ==> self@[vector@].entries.contains_key(
                    (#[trigger] res@[j]).0 as int,
                ) && self@[vector@].entries[res@[j].0 as int] == (EntrySpec {
                    size: res@[j].1 as int,
                    entry: res@[j].2@,
                }),
            r matches Some(res) ==> crate::model::lists_all_starts(
                res@,
                self@[vector@].entries,
            ),
            r matches Some(res) ==> forall|j1: int, j2: int|
                0 <= j1 < j2 < res@.len() ==> (#[trigger] res@[j1]).0 < (#[trigger] res@[j2]).0,
    {
        proof {
            use_type_invariant(self);
        }
        let name = vector.to_owned();
        let i = match self.find_vector(&name) {
            None => {
                return None;
            },
            Some(i) => i,
        };
        proof {
            lemma_view_index(self.vectors@, i as int);
        }
        let store = &self.vectors[i].1;
        let cap = bv_max_size(store);
        let ghost m = store_entries(*store);
        proof {
            assert(*store == self.vectors@[i as int].1);
            assert(self@[vector@] == buf_model(self.vectors@[i as int].1));
            assert(m == self@[vector@].entries);
        }
        let mut res: Vec<(usize, usize, &MultiEntry)> = Vec::new();
        let mut off: usize = 0;
        while off < cap
            invariant
                off <= cap,
                m == store_entries(*store),
                m == self@[vector@].entries,
                store_wf(m, store_max_size(*store)),
                cap as int == store_max_size(*store),
                forall|j: int|
                    0 <= j < res@.len() ==> m.contains_key((#[trigger] res@[j]).0 as int)
                        && m[res@[j].0 as int] == (EntrySpec {
                        size: res@[j].1 as int,
                        entry: res@[j].2@,
                    }) && res@[j].0 + res@[j].1 <= off,
                forall|k: int|
                    #[trigger] m.contains_key(k) && k < off ==> exists|j: int|
                        0 <= j < res@.len() && (#[trigger] res@[j]).0 == k,
                forall|j1: int, j2: int|
                    0 <= j1 < j2 < res@.len() ==> (#[trigger] res@[j1]).0 < (
                    #[trigger] res@[j2]).0,
            decreases cap - off,
        {
            match bv_get(store, off) {
                Some((start, size, e)) => {
                    let ghost res0 = res@;
                    res.push((start, size, e));
                    proof {
                        assert(entry_covers(m, start as int, off as int));
                        assert forall|j: int|
                            0 <= j < res0.len() implies (#[trigger] res0[j]).0 < start
                            && res0[j].0 + res0[j].1 <= start as int by {
                            let p = res0[j].0 as int;
                            assert(m.contains_key(p));
                            if p != start as int {
                                assert(p + m[p].size <= start as int || start as int
                                    + m[start as int].size <= p);
                            } else {
                                assert(res0[j].0 + res0[j].1 <= off);
                                assert(start as int + m[start as int].size > off as int);
                            }
                        }
                        assert forall|k: int|
                            #[trigger] m.contains_key(k) && k < start as int + size implies
                            exists|j: int| 0 <= j < res@.len() && (#[trigger] res@[j]).0 == k by {
                            if k < off as int {
                                let j = choose|j: int|
                                    0 <= j < res0.len() && (#[trigger] res0[j]).0 == k;
                                assert(res@[j].0 == k);
                            } else if k != start as int {
                                assert(k + m[k].size <= start as int || start as int
                                    + m[start as int].size <= k);
                                assert(false);
                            } else {
                                assert(res@[res@.len() - 1].0 == k);
                            }
                        }
                    }
                    off = start + size;
                },
                None => {
                    proof {
                        assert forall|k: int|
                            #[trigger] m.contains_key(k) && k < off + 1 implies exists|j: int|
                            0 <= j < res@.len() && (#[trigger] res@[j]).0 == k by {
                            if k == off as int {
                                assert(entry_covers(m, k, off as int));
                                assert(some_entry_covers(m, off as int));
                                assert(false);
                            }
                        }
                    }
                    off = off + 1;
                },
            }
        }
        proof {
            assert forall|k: int|
                #[trigger] self@[vector@].entries.contains_key(k) implies exists|j: int|
                0 <= j < res@.len() && (#[trigger] res@[j]).0 == k by {
                assert(m.contains_key(k));
                assert(k < cap as int);
                let j = choose|j: int| 0 <= j < res@.len() && (#[trigger] res@[j]).0 == k;
                assert(0 <= j < res@.len() && res@[j].0 == k);
            }
            assert(crate::model::lists_all_starts(res@, self@[vector@].entries));
        }
        Some(res)
    }
    /// Stores one entry with the given link record taken verbatim: the way
    /// persisted state is put back. The record is not validated — a dangling
    /// coordinate is kept as it is and tolerated at query time — but the span
    /// itself is checked like any insertion.
    ///
    /// Fails, changing nothing, when the named buffer is unknown or the span
    /// is empty, out of bounds or overlaps a stored entry.
    pub fn restore_entry(
        &mut self,
        vector: &str,
        data: u64,
        index: usize,
        size: usize,
        linked: Vec<Coordinate>,
    ) -> (r: Result<(), MultiVectorError>)
        ensures
            r is Ok <==> item_ok(
                old(self)@,
                ItemSpec { name: vector@, data: data, index: index as int, size: size as int },
            ),
            r matches Ok(()) ==> final(self)@ == insert_item(
                old(self)@,
                ItemSpec { name: vector@, data: data, index: index as int, size: size as int },
                coords_view(linked@),
            ) && final(self).total_len() == old(self).total_len() + 1,
            r matches Err(e) ==> final(self)@ == old(self)@ && final(self).total_len() == old(
                self,
            ).total_len() && insert_error_matches(
                e,
                ItemSpec { name: vector@, data: data, index: index as int, size: size as int },
                item_failure(
                    old(self)@,
                    ItemSpec { name: vector@, data: data, index: index as int, size: size as int },
                ),
            ),
    {
        proof {
            use_type_invariant(&*self);
        }
        let ghost it = ItemSpec {
            name: vector@,
            data: data,
            index: index as int,
            size: size as int,
        };
        let ghost rv0 = self@;
        let name = vector.to_owned();
        let i = match self.find_vector(&name) {
            None => {
                return Err(MultiVectorError::UnknownBuffer { vector: name });
            },
            Some(i) => i,
        };
        proof {
            lemma_view_index(self.vectors@, i as int);
        }
        if size == 0 {
            return Err(MultiVectorError::ZeroLength { vector: name, index });
        }
        let cap = bv_max_size(&self.vectors[i].1);
        if size > cap || index > cap - size {
            return Err(MultiVectorError::OutOfBounds { vector: name, index });
        }
        let entry = MultiEntry { vector: name, data, linked };
        let ghost lv = entry@.linked;
        let mut vectors: Vec<StorePair> = Vec::new();
        core::mem::swap(&mut vectors, &mut self.vectors);
        let ghost sb = vectors@;
        let mut pair = vectors.remove(i);
        let ok = bv_insert(&mut pair.1, index, size, entry);
        let ghost np = pair;
        vectors.insert(i, pair);
        proof {
            assert(vectors@ =~= sb.update(i as int, np));
            lemma_view_update(sb, i as int, np);
            lemma_total_update(sb, i as int, np);
            let m = rv0[it.name].entries;
            if ok {
                crate::model::lemma_store_wf_insert(
                    m,
                    rv0[it.name].capacity,
                    it.index,
                    wrapped_entry(it, lv),
                );
                assert(buf_model(np.1) == insert_item(rv0, it, lv)[it.name]);
                assert(reg_view(vectors@) =~= insert_item(rv0, it, lv));
            } else {
                assert(buf_model(np.1) == rv0[it.name]);
                assert(reg_view(vectors@) =~= rv0);
            }
            assert forall|a: int| 0 <= a < vectors@.len() implies store_wf(
                store_entries((#[trigger] vectors@[a]).1),
                store_max_size(vectors@[a].1),
            ) by {
                if a != i as int {
                    assert(vectors@[a] == sb[a]);
                } else {
                    if !ok {
                        assert(store_entries(np.1) == store_entries(sb[a].1));
                        assert(store_max_size(np.1) == store_max_size(sb[a].1));
                    }
                }
            }
        }
        self.vectors = vectors;
        if ok {
            Ok(())
        } else {
            Err(MultiVectorError::Overlap { vector: vector.to_owned(), index })
        }
    }
    /// Removes the named buffer and returns its capacity.
    ///
    /// Fails, changing nothing, when the name is unknown or the buffer still
    /// holds entries.
    pub fn destroy_vector(&mut self, vector: &str) -> (r: Result<usize, MultiVectorError>)
        ensures
            match r {
                Ok(c) => old(self)@.contains_key(vector@) && old(self)@[vector@].entries.len() == 0
                    && c as int == old(self)@[vector@].capacity && final(self)@ == old(
                    self,
                )@.remove(vector@),
                Err(e) => final(self)@ == old(self)@ && match e {
                    MultiVectorError::UnknownBuffer { vector: v } => v@ == vector@ && !old(
                        self,
                    )@.contains_key(vector@),
                    MultiVectorError::NotEmpty { vector: v } => v@ == vector@ && old(
                        self,
                    )@.contains_key(vector@) && old(self)@[vector@].entries.len() != 0,
                    _ => false,
                },
            },
            final(self).total_len() == old(self).total_len(),
    {
        proof {
            use_type_invariant(&*self);
        }
        let owned = vector.to_owned();
        match self.find_vector(&owned) {
            None => Err(MultiVectorError::UnknownBuffer { vector: owned }),
            Some(i) => {
                proof {
                    lemma_view_index(self.vectors@, i as int);
                }
                let n = bv_len(&self.vectors[i].1);
                if n != 0 {
                    return Err(MultiVectorError::NotEmpty { vector: owned });
                }
                let c = bv_max_size(&self.vectors[i].1);
                let ghost s0 = self.vectors@;
                let mut vectors: Vec<StorePair> = Vec::new();
                core::mem::swap(&mut vectors, &mut self.vectors);
                let _removed = vectors.remove(i);
                proof {
                    lemma_view_remove(s0, i as int);
                    lemma_total_remove(s0, i as int);
                    assert forall|j: int| 0 <= j < vectors@.len() implies store_wf(
                        store_entries((#[trigger] vectors@[j]).1),
                        store_max_size(vectors@[j].1),
                    ) by {
                        let j0 = if j < i as int {
                            j
                        } else {
                            j + 1
                        };
                        assert(vectors@[j] == s0[j0]);
                    }
                }
                self.vectors = vectors;
                Ok(c)
            },
        }
    }
}

/// Whether the error value reports the given failure of the given item.
pub open spec fn insert_error_matches(e: MultiVectorError, it: ItemSpec, f: InsertFailure) -> bool {
    match f {
        InsertFailure::UnknownBuffer => (e matches MultiVectorError::UnknownBuffer { vector }
            && vector@ == it.name),
        InsertFailure::ZeroLength => (e matches MultiVectorError::ZeroLength { vector, index }
            && vector@ == it.name && index as int == it.index),
        InsertFailure::OutOfBounds => (e matches MultiVectorError::OutOfBounds { vector, index }
            && vector@ == it.name && index as int == it.index),
        InsertFailure::Overlap => (e matches MultiVectorError::Overlap { vector, index }
            && vector@ == it.name && index as int == it.index),
    }
}

/// Finds the position of the pair carrying `name`, if any.
fn find_pair(vs: &Vec<StorePair>, name: &String) -> (r: Option<usize>)
    ensures
        match r {
            Some(i) => i < vs@.len() && vs@[i as int].0@ == name@,
            None => !has_name(vs@, name@),
        },
{
    let mut i: usize = 0;
    while i < vs.len()
        invariant
            i <= vs@.len(),
            forall|j: int| 0 <= j < i ==> (#[trigger] vs@[j]).0@ != name@,
        decreases vs@.len() - i,
    {
        if vs[i].0 == *name {
            return Some(i);
        }
        i = i + 1;
    }
    None
}

/// Looks up the entry covering `(vector, index)`: the exec counterpart of
/// [`lookup_coord`].
fn lookup_in<'a>(vs: &'a Vec<StorePair>, vector: &String, index: usize) -> (r: Option<
    (usize, usize, &'a MultiEntry),
>)
    requires
        reg_wf(vs@),
    ensures
        found_view(r) == lookup_coord(reg_view(vs@), (vector@, index as int)),
        r is Some <==> coord_resolves(reg_view(vs@), (vector@, index as int)),
{
    let ghost cur = reg_view(vs@);
    let ghost cv = (vector@, index as int);
    match find_pair(vs, vector) {
        None => {
            proof {
                assert(!cur.contains_key(cv.0));
                assert forall|k: int| !coord_found(cur, cv, k) by {}
                assert(!coord_resolves(cur, cv));
            }
            None
        },
        Some(i) => {
            proof {
                lemma_view_index(vs@, i as int);
            }
            let r = bv_get(&vs[i].1, index);
            proof {
                let m = cur[cv.0].entries;
                match r {
                    None => {
                        assert forall|k: int| !coord_found(cur, cv, k) by {
                            if coord_found(cur, cv, k) {
                                assert(some_entry_covers(m, index as int));
                            }
                        }
                        assert(!coord_resolves(cur, cv));
                    },
                    Some((s, z, e)) => {
                        assert(coord_found(cur, cv, s as int));
                        assert(coord_resolves(cur, cv));
                        let kc = choose|k: int| coord_found(cur, cv, k);
                        lemma_cover_unique(m, cur[cv.0].capacity, index as int, kc, s as int);
                        assert(lookup_coord(cur, cv) == Some((s as int, m[s as int])));
                    },
                }
            }
            r
        },
    }
}

/// Rewrites the link record of the entry covering `(vector, index)` to `l`,
/// touching nothing else; when no entry covers the offset, changes nothing:
/// the exec counterpart of [`relink_coord`].
fn relink_one(vs: &mut Vec<StorePair>, vector: &String, index: usize, l: Vec<Coordinate>)
    requires
        reg_wf(old(vs)@),
    ensures
        reg_wf(final(vs)@),
        reg_view(final(vs)@) == relink_coord(
            reg_view(old(vs)@),
            (vector@, index as int),
            coords_view(l@),
        ),
        total_of(final(vs)@) == total_of(old(vs)@),
{
    let ghost cur = reg_view(old(vs)@);
    let ghost cv = (vector@, index as int);
    let ghost lv = coords_view(l@);
    match find_pair(vs, vector) {
        None => {
            proof {
                assert(!cur.contains_key(cv.0));
                assert forall|k: int| !coord_found(cur, cv, k) by {}
                assert(lookup_coord(cur, cv) is None);
            }
        },
        Some(i) => {
            proof {
                lemma_view_index(vs@, i as int);
            }
            let ghost sb = vs@;
            let mut pair = vs.remove(i);
            let rm = bv_remove(&mut pair.1, index);
            match rm {
                None => {
                    let ghost np = pair;
                    vs.insert(i, pair);
                    proof {
                        assert(vs@ =~= sb.update(i as int, np));
                        lemma_view_update(sb, i as int, np);
                        lemma_total_update(sb, i as int, np);
                        let m = cur[cv.0].entries;
                        assert forall|k: int| !coord_found(cur, cv, k) by {
                            if coord_found(cur, cv, k) {
                                assert(some_entry_covers(m, cv.1));
                            }
                        }
                        assert(lookup_coord(cur, cv) is None);
                        assert(buf_model(np.1) == cur[cv.0]);
                        assert(reg_view(vs@) =~= cur);
                        assert forall|b: int| 0 <= b < vs@.len() implies store_wf(
                            store_entries((#[trigger] vs@[b]).1),
                            store_max_size(vs@[b].1),
                        ) by {
                            if b != i as int {
                                assert(vs@[b] == sb[b]);
                            } else {
                                assert(store_entries(np.1) == store_entries(sb[b].1));
                                assert(store_max_size(np.1) == store_max_size(sb[b].1));
                            }
                        }
                    }
                },
                Some((st, z, me)) => {
                    let ghost m = cur[cv.0].entries;
                    let ghost capm = cur[cv.0].capacity;
                    let ghost e2 = EntrySpec {
                        size: z as int,
                        entry: crate::entry::MultiEntrySpec {
                            vector: me@.vector,
                            data: me@.data,
                            linked: lv,
                        },
                    };
                    proof {
                        assert(coord_found(cur, cv, st as int));
                        let kc = choose|k: int| coord_found(cur, cv, k);
                        lemma_cover_unique(m, capm, cv.1, kc, st as int);
                        assert(lookup_coord(cur, cv) == Some((st as int, m[st as int])));
                        crate::model::lemma_reinsert(m, capm, st as int, e2);
                    }
                    let mut me2 = me;
                    me2.linked = l;
                    let ok = bv_insert(&mut pair.1, st, z, me2);
                    let ghost np = pair;
                    vs.insert(i, pair);
                    proof {
                        assert(ok);
                        assert(store_entries(np.1) == m.insert(st as int, e2));
                        assert(vs@ =~= sb.update(i as int, np));
                        lemma_view_update(sb, i as int, np);
                        lemma_total_update(sb, i as int, np);
                        assert(buf_model(np.1) == set_linked(cur, cv.0, st as int, lv)[cv.0]);
                        assert(reg_view(vs@) =~= set_linked(cur, cv.0, st as int, lv));
                        assert(relink_coord(cur, cv, lv) == set_linked(cur, cv.0, st as int, lv));
                        assert forall|b: int| 0 <= b < vs@.len() implies store_wf(
                            store_entries((#[trigger] vs@[b]).1),
                            store_max_size(vs@[b].1),
                        ) by {
                            if b != i as int {
                                assert(vs@[b] == sb[b]);
                            }
                        }
                    }
                },
            }
        },
    }
}

/// With unique names, the number of pairs equals the cardinality of the
/// view's domain.
proof fn lemma_count_is_dom_len(s: Seq<StorePair>)
    requires
        unique_names(s),
    ensures
        reg_view(s).dom().finite(),
        reg_view(s).dom().len() == s.len(),
    decreases s.len(),
{
    if s.len() == 0 {
        assert(reg_view(s).dom() =~= Set::<Seq<char>>::empty());
    } else {
        let s1 = s.drop_last();
        let p = s.last();
        assert(unique_names(s1)) by {
            assert(forall|a: int| 0 <= a < s1.len() ==> s1[a] == s[a]);
        }
        assert(!has_name(s1, p.0@)) by {
            if has_name(s1, p.0@) {
                let a = choose|a: int| 0 <= a < s1.len() && (#[trigger] s1[a]).0@ == p.0@;
                assert(s[a].0@ == s[s.len() - 1].0@);
            }
        }
        lemma_count_is_dom_len(s1);
        assert(s1.push(p) =~= s);
        lemma_view_push(s1, p);
        assert(reg_view(s).dom() =~= reg_view(s1).dom().insert(p.0@));
    }
}

/// The entry total of a prefix never exceeds the total of the whole.
proof fn lemma_total_take_bound(s: Seq<StorePair>, i: int)
    requires
        0 <= i <= s.len(),
    ensures
        total_of(s.take(i)) <= total_of(s),
    decreases s.len(),
{
    if i == s.len() {
        assert(s.take(i) =~= s);
    } else {
        assert(s.take(i) =~= s.drop_last().take(i));
        lemma_total_take_bound(s.drop_last(), i);
    }
}

} // verus!
