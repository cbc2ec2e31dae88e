use multi_vector::{MultiVector, MultiVectorError};

/// The worked scenario: two buffers, two groups, a group removal, an unlink,
/// a single removal, and finally destroying the drained buffer.
#[test]
fn test_worked_scenario() {
    let mut mv: MultiVector = MultiVector::new();
    mv.create_vector("A", 100).unwrap();
    mv.create_vector("B", 200).unwrap();

    mv.insert_entries(vec![("A", 111, 0, 10), ("A", 222, 10, 10)]).unwrap();
    assert_eq!(2, mv.len());

    mv.insert_entries(vec![("A", 111, 20, 10), ("B", 222, 0, 10), ("B", 222, 10, 10)]).unwrap();
    assert_eq!(5, mv.len());

    // Removing at any coordinate of the first group removes both members.
    let removed = mv.remove_entries("A", 15).unwrap();
    assert_eq!(2, removed.len());
    assert!(removed.iter().all(|r| r.is_some()));
    assert_eq!(3, mv.len());

    // "A" still holds an entry of the second group, so it cannot go yet.
    assert!(matches!(
        mv.destroy_vector("A"),
        Err(MultiVectorError::NotEmpty { .. })
    ));

    // Unlink the surviving "A" member, then remove it alone.
    mv.unlink_entry("A", 20).unwrap();
    let removed = mv.remove_entries("A", 20).unwrap();
    assert_eq!(1, removed.len());
    assert_eq!(2, mv.len());

    // Now "A" is empty and reports its original capacity on destruction.
    assert_eq!(100, mv.destroy_vector("A").unwrap());
    assert_eq!(2, mv.len());
    assert_eq!(1, mv.vector_count());
}

/// A failed group insertion restores the buffers exactly: the entries stored
/// before the call are still there, at the same spans, with the same data,
/// and nothing else is.
#[test]
fn test_failed_insert_restores_state() {
    let mut mv: MultiVector = MultiVector::new();
    mv.create_vector("v", 100).unwrap();
    mv.insert_entries(vec![("v", 7, 40, 10)]).unwrap();

    // Two good items, then one that overlaps the pre-existing entry.
    let r = mv.insert_entries(vec![("v", 1, 0, 10), ("v", 2, 10, 10), ("v", 3, 45, 10)]);
    assert!(matches!(
        r,
        Err(MultiVectorError::Overlap { ref vector, index: 45 }) if vector == "v"
    ));

    // The first two items were rolled back.
    assert_eq!(1, mv.len());
    assert!(mv.get_entry("v", 0).is_none());
    assert!(mv.get_entry("v", 10).is_none());

    // The pre-existing entry is untouched.
    let (start, size, e) = mv.get_entry("v", 44).unwrap();
    assert_eq!(40, start);
    assert_eq!(10, size);
    assert_eq!(7, e.data);
    assert_eq!("v", e.vector);
    assert_eq!(vec![(String::from("v"), 40)], e.linked);
}

/// Removing a freshly inserted group at any member returns every member, in
/// the order the group was inserted.
#[test]
fn test_remove_returns_insertion_order() {
    let mut mv: MultiVector = MultiVector::new();
    mv.create_vector("a", 100).unwrap();
    mv.create_vector("b", 100).unwrap();
    mv.insert_entries(vec![("b", 30, 50, 5), ("a", 10, 0, 5), ("a", 20, 5, 5)]).unwrap();
    assert_eq!(3, mv.len());

    // Remove at the middle member (by insertion order it is the second).
    let removed = mv.remove_entries("a", 3).unwrap();
    assert_eq!(3, removed.len());
    let data: Vec<u64> = removed.iter().map(|r| r.as_ref().unwrap().2.data).collect();
    assert_eq!(vec![30, 10, 20], data);
    let starts: Vec<usize> = removed.iter().map(|r| r.as_ref().unwrap().0).collect();
    assert_eq!(vec![50, 0, 5], starts);
    assert_eq!(0, mv.len());
}

/// Unlinking one member, then removing it, removes exactly one entry, and a
/// group removal at a surviving sibling removes the other members.
#[test]
fn test_unlink_isolates_one_member() {
    let mut mv: MultiVector = MultiVector::new();
    mv.create_vector("v", 100).unwrap();
    mv.insert_entries(vec![("v", 1, 0, 10), ("v", 2, 10, 10), ("v", 3, 20, 10)]).unwrap();

    mv.unlink_entry("v", 10).unwrap();

    // The unlinked entry leaves alone.
    let removed = mv.remove_entries("v", 10).unwrap();
    assert_eq!(1, removed.len());
    assert_eq!(2, removed[0].as_ref().unwrap().2.data);
    assert_eq!(2, mv.len());

    // The survivors still leave together.
    let removed = mv.remove_entries("v", 25).unwrap();
    assert_eq!(2, removed.len());
    assert_eq!(1, removed[0].as_ref().unwrap().2.data);
    assert_eq!(3, removed[1].as_ref().unwrap().2.data);
    assert_eq!(0, mv.len());
}

/// Unlinking at an offset in the middle of an entry's span records the
/// entry's stored starting offset, not the lookup offset, as its own
/// coordinate.
#[test]
fn test_unlink_at_non_start_offset() {
    let mut mv: MultiVector = MultiVector::new();
    mv.create_vector("v", 100).unwrap();
    mv.insert_entries(vec![("v", 1, 0, 10), ("v", 2, 10, 10)]).unwrap();

    // Offset 5 lies inside the first entry's span, whose start is 0.
    mv.unlink_entry("v", 5).unwrap();

    let (start, _size, e) = mv.get_entry("v", 5).unwrap();
    assert_eq!(0, start);
    assert_eq!(vec![(String::from("v"), 0)], e.linked);

    // The sibling's record shrank to itself alone.
    let (_, _, e2) = mv.get_entry("v", 10).unwrap();
    assert_eq!(vec![(String::from("v"), 10)], e2.linked);

    let removed = mv.remove_entries("v", 5).unwrap();
    assert_eq!(1, removed.len());
    assert_eq!(1, mv.len());
}

/// The link record of every group member lists all members, in insertion
/// order, including the member itself.
#[test]
fn test_link_records_list_whole_group() {
    let mut mv: MultiVector = MultiVector::new();
    mv.create_vector("a", 100).unwrap();
    mv.create_vector("b", 100).unwrap();
    mv.insert_entries(vec![("a", 1, 0, 4), ("b", 2, 8, 4)]).unwrap();

    let expected = vec![(String::from("a"), 0), (String::from("b"), 8)];
    assert_eq!(expected, mv.get_entry("a", 2).unwrap().2.linked);
    assert_eq!(expected, mv.get_entry("b", 9).unwrap().2.linked);

    // The group is reachable from either member, in insertion order.
    let group = mv.get_entries("b", 8).unwrap();
    assert_eq!(2, group.len());
    assert_eq!(1, group[0].unwrap().2.data);
    assert_eq!(2, group[1].unwrap().2.data);
}

#[test]
fn test_error_duplicate_name() {
    let mut mv: MultiVector = MultiVector::new();
    mv.create_vector("v", 10).unwrap();
    assert!(matches!(
        mv.create_vector("v", 20),
        Err(MultiVectorError::DuplicateName { ref vector }) if vector == "v"
    ));
    // The original buffer keeps its capacity.
    assert_eq!(10, mv.max_size_vector("v").unwrap());
}

#[test]
fn test_error_unknown_buffer() {
    let mut mv: MultiVector = MultiVector::new();
    assert!(matches!(
        mv.destroy_vector("ghost"),
        Err(MultiVectorError::UnknownBuffer { ref vector }) if vector == "ghost"
    ));
    assert!(matches!(
        mv.insert_entries(vec![("ghost", 1, 0, 1)]),
        Err(MultiVectorError::UnknownBuffer { ref vector }) if vector == "ghost"
    ));
    assert!(matches!(
        mv.remove_entries("ghost", 0),
        Err(MultiVectorError::UnknownBuffer { .. })
    ));
    assert!(matches!(
        mv.unlink_entry("ghost", 0),
        Err(MultiVectorError::UnknownBuffer { .. })
    ));
    assert!(matches!(
        mv.get_entries("ghost", 0),
        Err(MultiVectorError::UnknownBuffer { .. })
    ));
}

#[test]
fn test_error_not_empty() {
    let mut mv: MultiVector = MultiVector::new();
    mv.create_vector("v", 10).unwrap();
    mv.insert_entry("v", 1, 0, 1).unwrap();
    assert!(matches!(
        mv.destroy_vector("v"),
        Err(MultiVectorError::NotEmpty { ref vector }) if vector == "v"
    ));
    // The buffer and its entry survive the failed destruction.
    assert_eq!(Some(1), mv.len_vector("v"));
}

#[test]
fn test_error_overlap() {
    let mut mv: MultiVector = MultiVector::new();
    mv.create_vector("v", 10).unwrap();
    mv.insert_entry("v", 1, 2, 3).unwrap();
    assert!(matches!(
        mv.insert_entry("v", 2, 4, 2),
        Err(MultiVectorError::Overlap { ref vector, index: 4 }) if vector == "v"
    ));
}

#[test]
fn test_error_out_of_bounds() {
    let mut mv: MultiVector = MultiVector::new();
    mv.create_vector("v", 10).unwrap();
    assert!(matches!(
        mv.insert_entry("v", 1, 8, 3),
        Err(MultiVectorError::OutOfBounds { ref vector, index: 8 }) if vector == "v"
    ));
    assert_eq!(0, mv.len());
}

#[test]
fn test_error_zero_length() {
    let mut mv: MultiVector = MultiVector::new();
    mv.create_vector("v", 10).unwrap();
    assert!(matches!(
        mv.insert_entry("v", 1, 3, 0),
        Err(MultiVectorError::ZeroLength { ref vector, index: 3 }) if vector == "v"
    ));
    assert_eq!(0, mv.len());
}

#[test]
fn test_error_entry_not_found() {
    let mut mv: MultiVector = MultiVector::new();
    mv.create_vector("v", 10).unwrap();
    mv.insert_entry("v", 1, 0, 2).unwrap();
    assert!(matches!(
        mv.remove_entries("v", 5),
        Err(MultiVectorError::EntryNotFound { ref vector, index: 5 }) if vector == "v"
    ));
    assert!(matches!(
        mv.unlink_entry("v", 5),
        Err(MultiVectorError::EntryNotFound { .. })
    ));
    assert!(matches!(
        mv.get_entries("v", 5),
        Err(MultiVectorError::EntryNotFound { .. })
    ));
}

/// A single inserted entry is stored where it was asked for, with its span
/// and payload; looking it up anywhere else finds nothing.
#[test]
fn test_stored_entry_round_trip() {
    let mut mv: MultiVector = MultiVector::new();
    mv.create_vector("v", 50).unwrap();
    mv.insert_entry("v", 99, 17, 4).unwrap();

    // Every offset of the span resolves to the same entry.
    for off in 17..21 {
        let (start, size, e) = mv.get_entry("v", off).unwrap();
        assert_eq!(17, start);
        assert_eq!(4, size);
        assert_eq!(99, e.data);
    }
    assert!(mv.get_entry("v", 16).is_none());
    assert!(mv.get_entry("v", 21).is_none());

    // Removing it returns the same entry; a second removal finds nothing.
    let removed = mv.remove_entries("v", 18).unwrap();
    assert_eq!(1, removed.len());
    let (start, size, e) = removed[0].as_ref().map(|t| (t.0, t.1, &t.2)).unwrap();
    assert_eq!((17, 4, 99), (start, size, e.data));
    assert!(mv.remove_entries("v", 18).is_err());
    assert_eq!(0, mv.len());
}

/// `vector_exists` and the counters follow creation and destruction.
#[test]
fn test_registry_counters() {
    let mut mv: MultiVector = MultiVector::new();
    assert!(!mv.vector_exists("v"));
    assert_eq!(None, mv.len_vector("v"));
    assert_eq!(None, mv.max_size_vector("v"));

    mv.create_vector("v", 7).unwrap();
    assert!(mv.vector_exists("v"));
    assert_eq!(Some(0), mv.len_vector("v"));
    assert_eq!(Some(7), mv.max_size_vector("v"));

    mv.destroy_vector("v").unwrap();
    assert!(!mv.vector_exists("v"));
    assert_eq!(0, mv.vector_count());
}

/// `entries_of_vector` lists exactly the stored entries, in ascending offset
/// order, whatever order they were inserted in.
#[test]
fn test_entries_of_vector() {
    let mut mv: MultiVector = MultiVector::new();
    mv.create_vector("v", 100).unwrap();
    mv.insert_entries(vec![("v", 3, 40, 5), ("v", 1, 0, 10), ("v", 2, 20, 1)]).unwrap();

    let listed = mv.entries_of_vector("v").unwrap();
    let spans: Vec<(usize, usize, u64)> = listed.iter().map(|t| (t.0, t.1, t.2.data)).collect();
    assert_eq!(vec![(0, 10, 1), (20, 1, 2), (40, 5, 3)], spans);

    assert!(mv.entries_of_vector("ghost").is_none());
    mv.create_vector("w", 10).unwrap();
    assert_eq!(0, mv.entries_of_vector("w").unwrap().len());
}

/// Persisting a buffer through `entries_of_vector` and putting it back
/// through `restore_entry` reproduces every entry with its link record
/// verbatim — including records shortened by an earlier unlink, which no
/// group insertion could rebuild.
#[test]
fn test_restore_round_trip() {
    let mut mv: MultiVector = MultiVector::new();
    mv.create_vector("v", 100).unwrap();
    mv.insert_entries(vec![("v", 1, 0, 10), ("v", 2, 10, 10), ("v", 3, 20, 10)]).unwrap();
    mv.unlink_entry("v", 0).unwrap();

    // Persist: offsets, spans, payloads and verbatim link records.
    let persisted: Vec<(usize, usize, u64, Vec<(String, usize)>)> = mv
        .entries_of_vector("v")
        .unwrap()
        .iter()
        .map(|t| (t.0, t.1, t.2.data, t.2.linked.clone()))
        .collect();

    // Rebuild a fresh engine from the persisted form.
    let mut mv2: MultiVector = MultiVector::new();
    mv2.create_vector("v", 100).unwrap();
    for (start, size, data, linked) in &persisted {
        mv2.restore_entry("v", *data, *start, *size, linked.clone()).unwrap();
    }

    // The rebuilt buffer lists the same entries with the same records.
    let restored: Vec<(usize, usize, u64, Vec<(String, usize)>)> = mv2
        .entries_of_vector("v")
        .unwrap()
        .iter()
        .map(|t| (t.0, t.1, t.2.data, t.2.linked.clone()))
        .collect();
    assert_eq!(persisted, restored);

    // The unlinked entry still stands alone, the others still leave together.
    assert_eq!(vec![(String::from("v"), 0)], mv2.get_entry("v", 0).unwrap().2.linked);
    assert_eq!(1, mv2.remove_entries("v", 0).unwrap().len());
    assert_eq!(2, mv2.remove_entries("v", 15).unwrap().len());
    assert_eq!(0, mv2.len());
}

/// A restored link record is kept even when it points at nothing: the engine
/// reports the dangling coordinate as an absent slot instead of failing.
#[test]
fn test_dangling_coordinate_tolerated() {
    let mut mv: MultiVector = MultiVector::new();
    mv.create_vector("v", 100).unwrap();

    // A record naming a sibling that does not exist.
    let linked = vec![(String::from("v"), 0), (String::from("v"), 50)];
    mv.restore_entry("v", 9, 0, 10, linked.clone()).unwrap();

    // The record is kept verbatim.
    assert_eq!(linked, mv.get_entry("v", 0).unwrap().2.linked);

    // Group traversal reports the dangling slot as absent.
    let group = mv.get_entries("v", 0).unwrap();
    assert_eq!(2, group.len());
    assert!(group[0].is_some());
    assert!(group[1].is_none());

    // Group removal does the same and removes what exists.
    let removed = mv.remove_entries("v", 0).unwrap();
    assert_eq!(2, removed.len());
    assert!(removed[0].is_some());
    assert!(removed[1].is_none());
    assert_eq!(0, mv.len());
}
