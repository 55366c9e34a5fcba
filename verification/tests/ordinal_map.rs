use a3s_vec::index::ordinal_map::OrdinalMap;

#[test]
fn sparse_slots_iterate_in_ordinal_order_and_track_membership() {
    let mut values = OrdinalMap::default();
    values.insert(4, "four");
    values.insert(1, "one");
    assert_eq!(values.len(), 2);
    assert_eq!(values.slot_count(), 5);
    assert_eq!(values.keys(), vec![1, 4]);
    assert_eq!(values.get(4), Some(&"four"));
    assert_eq!(values.remove(1), Some("one"));
    assert!(!values.contains_key(1));
    assert!(values.validates(5));
    let (mut slots, len) = values.into_parts();
    slots.push(None);
    let values = OrdinalMap::from_parts(slots, len);
    assert!(!values.validates(5));
    let (mut slots, _) = values.into_parts();
    slots.pop();
    let values = OrdinalMap::from_parts(slots, 2);
    assert!(!values.validates(5));
}

#[test]
fn insert_replaces_and_reports_the_previous_value() {
    let mut values: OrdinalMap<u32> = OrdinalMap::new();
    assert!(values.is_empty());
    assert_eq!(values.insert(2, 20), None);
    assert_eq!(values.insert(2, 21), Some(20));
    assert_eq!(values.len(), 1);
    assert_eq!(values.get(2), Some(&21));
    assert_eq!(values.get(7), None);
    assert_eq!(values.remove(7), None);
    assert_eq!(values.iter(), vec![(2, &21)]);
    assert_eq!(values.values(), vec![&21]);
}

#[test]
fn get_mut_and_default_insertion_edit_in_place() {
    let mut values: OrdinalMap<Vec<u64>> = OrdinalMap::new();
    values.get_or_insert_default(3).expect("slot must exist").push(9);
    values.get_or_insert_default(3).expect("slot must exist").push(10);
    assert_eq!(values.get(3), Some(&vec![9, 10]));
    values.get_mut(3).expect("value must exist").clear();
    assert_eq!(values.get(3), Some(&Vec::new()));
    assert!(values.get_mut(4).is_none());
    assert_eq!(values.len(), 1);
    assert!(values.validates(4));
    assert!(!values.validates(3));
}

#[test]
fn from_entries_keeps_the_last_value_per_ordinal() {
    let values = OrdinalMap::from_entries(vec![(5, 'a'), (1, 'b'), (5, 'c')]);
    assert_eq!(values.len(), 2);
    assert_eq!(values.get(5), Some(&'c'));
    assert_eq!(values.keys(), vec![1, 5]);
    assert!(values.validates(6));
}
