use multi_vector::MultiVector;

#[test]
fn test_create_and_destroy() {
    let mut mv: MultiVector = MultiVector::new();

    // No vectors to start with
    assert_eq!(0, mv.vector_count());

    // Create a 1000-element vector
    mv.create_vector("name", 1000).unwrap();
    assert_eq!(1, mv.vector_count());

    // Create a second vector
    mv.create_vector("name2", 100).unwrap();
    assert_eq!(2, mv.vector_count());

    // Destroy them
    let removed_size = mv.destroy_vector("name").unwrap();
    assert_eq!(1000, removed_size);
    assert_eq!(1, mv.vector_count());

    let removed_size = mv.destroy_vector("name2").unwrap();
    assert_eq!(100, removed_size);
    assert_eq!(0, mv.vector_count());
}

#[test]
fn test_destroy_vector_fails_with_entries() {
    let mut mv: MultiVector = MultiVector::new();

    // No vectors to start with
    assert_eq!(0, mv.vector_count());

    // Create a 1000-element vector
    mv.create_vector("name", 1000).unwrap();
    assert_eq!(1, mv.vector_count());

    // Create a second vector
    mv.create_vector("name2", 100).unwrap();
    assert_eq!(2, mv.vector_count());

    // Populate "name2"
    mv.insert_entries(vec![("name2", 123, 10, 10), ("name2", 123, 20, 10)]).unwrap();

    // "name" is still empty, it can be destroyed
    let removed_size = mv.destroy_vector("name").unwrap();
    assert_eq!(1000, removed_size);
    assert_eq!(1, mv.vector_count());

    // "name2" has an entry, so it can't be removed
    assert!(mv.destroy_vector("name2").is_err());
    assert_eq!(1, mv.vector_count());

    // Remove the entries
    mv.remove_entries("name2", 25).unwrap();

    // Try again
    let removed_size = mv.destroy_vector("name2").unwrap();
    assert_eq!(100, removed_size);
    assert_eq!(0, mv.vector_count());
}

#[test]
fn test_cant_have_same_vector_twice() {
    let mut mv: MultiVector = MultiVector::new();

    // No vectors to start with
    assert_eq!(0, mv.vector_count());

    // Create a 1000-element vector
    mv.create_vector("name", 1000).unwrap();
    assert_eq!(1, mv.vector_count());

    // Fail to create the same vector again
    assert!(mv.create_vector("name", 100).is_err());
    assert_eq!(1, mv.vector_count());

    // Make sure it's still the original
    assert_eq!(1000, mv.max_size_vector("name").unwrap());
}

#[test]
fn test_insert_entries() {
    let mut mv: MultiVector = MultiVector::new();
    mv.create_vector("vector1", 100).unwrap();
    mv.create_vector("vector2", 200).unwrap();

    let entries: Vec<(&str, u64, usize, usize)> = vec![
        // (vector_name, data, index, length)
        ("vector1", 111, 0, 1),
        ("vector1", 222, 5, 5),
        ("vector1", 333, 10, 10),
        ("vector2", 444, 0, 100),
        ("vector2", 555, 100, 100),
    ];

    // They are empty before
    assert_eq!(0, mv.len_vector("vector1").unwrap());
    assert_eq!(0, mv.len_vector("vector2").unwrap());

    // Insert the entries
    mv.insert_entries(entries).unwrap();

    // They are populated after
    assert_eq!(3, mv.len_vector("vector1").unwrap());
    assert_eq!(2, mv.len_vector("vector2").unwrap());

    let more_entries: Vec<(&str, u64, usize, usize)> = vec![("vector1", 667, 20, 1)];

    // Insert more entries
    mv.insert_entries(more_entries).unwrap();

    // Make sure the vectors are still tracking
    assert_eq!(4, mv.len_vector("vector1").unwrap());
}

#[test]
fn test_insert_zero_entries() {
    let mut mv: MultiVector = MultiVector::new();
    mv.create_vector("vector1", 100).unwrap();

    // Create no entries
    let entries: Vec<(&str, u64, usize, usize)> = vec![];

    // Insert them entries
    mv.insert_entries(entries).unwrap();

    // Ensure nothing was inserted
    assert_eq!(0, mv.len_vector("vector1").unwrap());
}

#[test]
fn test_insert_invalid_entries() {
    let mut mv: MultiVector = MultiVector::new();
    mv.create_vector("vector1", 100).unwrap();
    mv.create_vector("vector2", 200).unwrap();

    // Add a couple real entries so we can make sure we don't overwrite
    // or remove them
    mv.insert_entries(vec![
        ("vector1", 123, 0, 10),
        ("vector1", 123, 10, 10),
        ("vector1", 123, 20, 10),
        ("vector2", 123, 0, 10),
    ])
    .unwrap();
    assert_eq!(4, mv.len());

    // Invalid vector
    assert!(mv.insert_entries(vec![("fakevector", 123, 0, 1)]).is_err());

    // No entry should be added or removed
    assert_eq!(4, mv.len());

    // Overlapping
    assert!(mv.insert_entries(vec![("vector1", 123, 0, 10)]).is_err());

    // No entry should be added or removed
    assert_eq!(4, mv.len());

    // Off the end
    assert!(mv.insert_entries(vec![("vector1", 123, 0, 1000)]).is_err());

    // No entry should be added or removed
    assert_eq!(4, mv.len());

    // Zero length
    assert!(mv.insert_entries(vec![("vector1", 123, 0, 0)]).is_err());

    // No entry should be added or removed
    assert_eq!(4, mv.len());

    // Overlapping each other
    assert!(mv
        .insert_entries(vec![
            ("vector1", 123, 10, 10),
            ("vector1", 123, 20, 10),
            ("vector1", 123, 15, 1),
            ("vector1", 123, 50, 10),
        ])
        .is_err());

    // No entry should be added or removed
    assert_eq!(4, mv.len());

    // Multiple entries that overlap - this ensures that we don't
    // accidentally remove things from the vector that we shouldn't
    assert!(mv
        .insert_entries(vec![
            ("vector1", 123, 0, 10),
            ("vector1", 123, 10, 10),
            ("vector1", 123, 20, 10),
            ("vector2", 123, 0, 10),
        ])
        .is_err());

    // No entry should be added or removed
    assert_eq!(4, mv.len());
}

#[test]
fn test_get_entry() {
    let mut mv: MultiVector = MultiVector::new();
    mv.create_vector("vector1", 100).unwrap();
    mv.create_vector("vector2", 200).unwrap();

    // One group of entries
    mv.insert_entries(vec![
        // (vector_name, data, index, length)
        ("vector1", 111, 0, 1),
        ("vector1", 222, 5, 5),
        ("vector2", 444, 0, 100),
    ])
    .unwrap();

    mv.insert_entries(vec![("vector1", 333, 10, 10), ("vector2", 555, 100, 100)]).unwrap();

    // Verify that all entries are there
    assert_eq!(5, mv.len());

    // Get a couple entries and make sure they're correct
    assert_eq!(111, mv.get_entry("vector1", 0).unwrap().2.data);
    assert_eq!(222, mv.get_entry("vector1", 6).unwrap().2.data);
    assert_eq!(555, mv.get_entry("vector2", 115).unwrap().2.data);

    // Get some bad entries, make sure they're errors
    assert!(mv.get_entry("badvector", 123).is_none());
    assert!(mv.get_entry("vector1", 1000).is_none());
    assert!(mv.get_entry("vector1", 50).is_none());
}

#[test]
fn test_get_entries() {
    let mut mv: MultiVector = MultiVector::new();
    mv.create_vector("vector1", 100).unwrap();
    mv.create_vector("vector2", 200).unwrap();

    // One group of entries
    mv.insert_entries(vec![
        // (vector_name, data, index, length)
        ("vector1", 111, 0, 1),
        ("vector1", 222, 5, 5),
        ("vector2", 444, 0, 100),
    ])
    .unwrap();

    mv.insert_entries(vec![("vector2", 555, 100, 100), ("vector1", 333, 10, 10)]).unwrap();

    // Verify that all entries are there
    assert_eq!(5, mv.len());

    // Get the first entry at its start
    let group1 = mv.get_entries("vector1", 0).unwrap();
    assert_eq!(3, group1.len());

    assert_eq!(111, group1[0].unwrap().2.data);
    assert_eq!("vector1", group1[0].unwrap().2.vector);

    assert_eq!(222, group1[1].unwrap().2.data);
    assert_eq!("vector1", group1[1].unwrap().2.vector);

    assert_eq!(444, group1[2].unwrap().2.data);
    assert_eq!("vector2", group1[2].unwrap().2.vector);

    // Get the last entry (in the first group) in the middle
    let group1 = mv.get_entries("vector2", 50).unwrap();
    assert_eq!(3, group1.len());

    assert_eq!(111, group1[0].unwrap().2.data);
    assert_eq!("vector1", group1[0].unwrap().2.vector);

    assert_eq!(222, group1[1].unwrap().2.data);
    assert_eq!("vector1", group1[1].unwrap().2.vector);

    assert_eq!(444, group1[2].unwrap().2.data);
    assert_eq!("vector2", group1[2].unwrap().2.vector);

    // Get the second group
    let group2 = mv.get_entries("vector2", 150).unwrap();
    assert_eq!(2, group2.len());

    assert_eq!(555, group2[0].unwrap().2.data);
    assert_eq!("vector2", group2[0].unwrap().2.vector);

    assert_eq!(333, group2[1].unwrap().2.data);
    assert_eq!("vector1", group2[1].unwrap().2.vector);

    // Get some bad entries, make sure they're errors
    assert!(mv.get_entries("badvector", 123).is_err());
    assert!(mv.get_entries("vector1", 1000).is_err());
    assert!(mv.get_entries("vector1", 50).is_err());
}

#[test]
fn test_remove_entries() {
    let mut mv: MultiVector = MultiVector::new();
    mv.create_vector("vector1", 100).unwrap();
    mv.create_vector("vector2", 200).unwrap();

    // One group of entries
    mv.insert_entries(vec![
        // (vector_name, data, index, length)
        ("vector1", 111, 0, 1),
        ("vector1", 222, 5, 5),
        ("vector2", 444, 0, 100),
    ])
    .unwrap();

    mv.insert_entries(vec![("vector2", 555, 100, 100), ("vector1", 333, 10, 10)]).unwrap();

    // Verify that all entries are there
    assert_eq!(5, mv.len());

    // Get the first entry at its start
    let group1 = mv.remove_entries("vector1", 0).unwrap();

    // The group had 3 entries
    assert_eq!(3, group1.len());

    // Make sure they're actually removed
    assert_eq!(2, mv.len());
    assert!(mv.remove_entries("vector1", 0).is_err());

    assert_eq!(111, group1[0].as_ref().unwrap().2.data);
    assert_eq!("vector1", group1[0].as_ref().unwrap().2.vector);

    assert_eq!(222, group1[1].as_ref().unwrap().2.data);
    assert_eq!("vector1", group1[1].as_ref().unwrap().2.vector);

    assert_eq!(444, group1[2].as_ref().unwrap().2.data);
    assert_eq!("vector2", group1[2].as_ref().unwrap().2.vector);

    // Get the second group
    let group2 = mv.remove_entries("vector2", 150).unwrap();
    assert_eq!(2, group2.len());

    assert_eq!(555, group2[0].as_ref().unwrap().2.data);
    assert_eq!("vector2", group2[0].as_ref().unwrap().2.vector);

    assert_eq!(333, group2[1].as_ref().unwrap().2.data);
    assert_eq!("vector1", group2[1].as_ref().unwrap().2.vector);

    // Get some bad entries, make sure they're errors
    assert!(mv.remove_entries("badvector", 123).is_err());
    assert!(mv.remove_entries("vector1", 1000).is_err());
    assert!(mv.remove_entries("vector1", 50).is_err());
}

#[test]
fn test_unlink_entry() {
    let mut mv: MultiVector = MultiVector::new();
    mv.create_vector("vector1", 100).unwrap();
    mv.create_vector("vector2", 200).unwrap();

    // One group of entries
    mv.insert_entries(vec![
        // (vector_name, data, index, length)
        ("vector1", 111, 0, 1),
        ("vector1", 222, 5, 5),
        ("vector2", 444, 0, 100), // Will be unlinked for test
    ])
    .unwrap();

    mv.insert_entries(vec![
        ("vector2", 555, 100, 100), // Will be unlinked for test
        ("vector1", 333, 10, 10),
    ])
    .unwrap();

    // Verify that all entries are there
    assert_eq!(5, mv.len());

    // Unlink a couple entries
    mv.unlink_entry("vector2", 50).unwrap();

    mv.unlink_entry("vector2", 150).unwrap();

    // Test error conditions
    assert!(mv.unlink_entry("badvector", 123).is_err());
    assert!(mv.unlink_entry("vector1", 1000).is_err());
    assert!(mv.unlink_entry("vector1", 50).is_err());

    // Remove one
    let removed = mv.remove_entries("vector2", 50).unwrap();
    assert_eq!(1, removed.len());
    assert_eq!(4, mv.len());

    // Remove the other
    let removed = mv.remove_entries("vector2", 100).unwrap();
    assert_eq!(1, removed.len());
    assert_eq!(3, mv.len());

    // Remove the rest of the first group
    let removed = mv.remove_entries("vector1", 0).unwrap();
    assert_eq!(2, removed.len());
    assert_eq!(1, mv.len());
}
