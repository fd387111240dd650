use mk_collections::{DupErr, HashMap};

#[test]
fn new_has_no_capacity() {
    let map = HashMap::<i32>::new();
    assert_eq!(map.capacity(), 0);
}

#[test]
fn with_capacity_allocates_exactly() {
    let map = HashMap::<i32>::with_capacity(10);
    assert_eq!(map.capacity(), 10);
}

#[test]
fn find_on_unallocated_map_is_none() {
    let map = HashMap::<&str>::new();
    assert!(map.find(3).is_none());
    assert!(!map.contains_key(3));
}

#[test]
fn insert_then_find() {
    let mut map = HashMap::new();
    assert!(map.insert(3, "a").is_ok());
    assert_eq!(*map.find(3).unwrap(), "a");
    assert!(map.find(4).is_none());
    assert!(map.contains_key(3));
}

#[test]
fn contains_two_keys() {
    let mut map = HashMap::new();
    assert!(map.insert(3, "a").is_ok());
    assert!(map.insert(5, "a").is_ok());
    assert!(map.contains_key(3));
    assert!(map.contains_key(5));
    assert!(!map.contains_key(4));
}

#[test]
fn duplicate_insert_is_rejected() {
    let mut map = HashMap::with_capacity(4);
    assert!(map.insert(7, "first").is_ok());
    let cap = map.capacity();
    assert_eq!(map.insert(7, "second"), Err(DupErr { key: 7 }));
    assert_eq!(*map.find(7).unwrap(), "first");
    assert_eq!(map.capacity(), cap);
}

#[test]
fn duplicate_does_not_inflate_count() {
    // With a correct count, the failed insert leaves room for one more key
    // in a table of two slots before it has to grow again.
    let mut map = HashMap::with_capacity(2);
    assert!(map.insert(1, 10).is_ok());
    assert!(map.insert(1, 11).is_err());
    assert!(map.insert(2, 20).is_ok());
    assert_eq!(map.capacity(), 2);
    assert!(map.insert(3, 30).is_ok());
    assert_eq!(map.capacity(), 4);
}

#[test]
fn put_overwrites_and_returns_previous() {
    let mut map = HashMap::new();
    assert!(map.insert(3, "a").is_ok());
    assert_eq!(map.put(3, "b").unwrap(), "a");
    assert_eq!(*map.find(3).unwrap(), "b");
}

#[test]
fn put_twice_upserts() {
    let mut map = HashMap::new();
    assert_eq!(map.put(9, "v1"), None);
    assert_eq!(map.put(9, "v2"), Some("v1"));
    assert_eq!(*map.find(9).unwrap(), "v2");
}

#[test]
fn put_on_full_table_grows() {
    let mut map = HashMap::with_capacity(1);
    assert_eq!(map.put(0, 'x'), None);
    assert_eq!(map.capacity(), 1);
    assert_eq!(map.put(0, 'y'), Some('x'));
    assert_eq!(map.capacity(), 1);
    assert_eq!(map.put(1, 'z'), None);
    assert_eq!(map.capacity(), 2);
}

#[test]
fn remove_returns_value_once() {
    let mut map = HashMap::new();
    assert!(map.insert(3, "a").is_ok());
    assert_eq!(map.remove(3).unwrap(), "a");
    assert!(map.remove(3).is_none());
}

#[test]
fn remove_then_reinsert() {
    let mut map = HashMap::new();
    assert!(map.insert(5, 50).is_ok());
    assert_eq!(map.remove(5), Some(50));
    assert!(map.find(5).is_none());
    assert!(!map.contains_key(5));
    assert!(map.insert(5, 55).is_ok());
    assert_eq!(*map.find(5).unwrap(), 55);
}

#[test]
fn remove_absent_key_changes_nothing() {
    let mut map = HashMap::with_capacity(4);
    assert!(map.insert(1, 1).is_ok());
    assert_eq!(map.remove(2), None);
    assert_eq!(*map.find(1).unwrap(), 1);
    assert_eq!(map.capacity(), 4);
}

#[test]
fn search_passes_tombstones() {
    // Keys 0, 4 and 8 share home slot 0 in a table of four slots.
    let mut map = HashMap::with_capacity(4);
    assert!(map.insert(0, "zero").is_ok());
    assert!(map.insert(4, "four").is_ok());
    assert!(map.insert(8, "eight").is_ok());
    assert_eq!(map.remove(4), Some("four"));
    assert_eq!(*map.find(8).unwrap(), "eight");
    assert_eq!(map.remove(0), Some("zero"));
    assert_eq!(*map.find(8).unwrap(), "eight");
}

#[test]
fn duplicate_found_past_tombstone() {
    let mut map = HashMap::with_capacity(4);
    assert!(map.insert(0, 0).is_ok());
    assert!(map.insert(4, 4).is_ok());
    assert_eq!(map.remove(0), Some(0));
    assert_eq!(map.insert(4, 40), Err(DupErr { key: 4 }));
    assert_eq!(*map.find(4).unwrap(), 4);
    assert_eq!(map.remove(4), Some(4));
    assert!(map.find(4).is_none());
}

#[test]
fn tombstone_is_reused() {
    let mut map = HashMap::with_capacity(2);
    assert!(map.insert(0, 'a').is_ok());
    assert!(map.insert(2, 'b').is_ok());
    assert_eq!(map.remove(0), Some('a'));
    assert!(map.insert(4, 'c').is_ok());
    assert_eq!(map.capacity(), 2);
    assert_eq!(*map.find(2).unwrap(), 'b');
    assert_eq!(*map.find(4).unwrap(), 'c');
    assert!(map.find(0).is_none());
}

#[test]
fn probe_wraps_around() {
    let mut map = HashMap::with_capacity(3);
    assert!(map.insert(2, 20).is_ok());
    assert!(map.insert(5, 50).is_ok());
    assert_eq!(*map.find(5).unwrap(), 50);
    assert_eq!(*map.find(2).unwrap(), 20);
    assert!(map.find(8).is_none());
}

#[test]
fn full_table_lookup_miss_terminates() {
    let mut map = HashMap::with_capacity(3);
    assert!(map.insert(0, 0).is_ok());
    assert!(map.insert(1, 1).is_ok());
    assert!(map.insert(2, 2).is_ok());
    assert_eq!(map.capacity(), 3);
    assert!(map.find(3).is_none());
    assert!(!map.contains_key(100));
}

#[test]
fn negative_keys() {
    let mut map = HashMap::new();
    for k in -20..0 {
        assert!(map.insert(k, k * 2).is_ok());
    }
    for k in -20..0 {
        assert_eq!(*map.find(k).unwrap(), k * 2);
    }
    assert!(map.find(0).is_none());
    assert_eq!(map.insert(i32::MIN, 1), Ok(()));
    assert_eq!(map.insert(i32::MAX, 2), Ok(()));
    assert_eq!(*map.find(i32::MIN).unwrap(), 1);
    assert_eq!(*map.find(i32::MAX).unwrap(), 2);
}

#[test]
fn growth_preserves_content() {
    let mut map = HashMap::new();
    for k in 0..100 {
        assert!(map.insert(k * 7, k).is_ok());
    }
    assert_eq!(map.capacity(), 128);
    for k in 0..100 {
        assert_eq!(*map.find(k * 7).unwrap(), k);
    }
    assert!(map.find(1).is_none());
}

#[test]
fn growth_drops_tombstones_keeps_live() {
    let mut map = HashMap::with_capacity(4);
    for k in 0..4 {
        assert!(map.insert(k, k + 100).is_ok());
    }
    assert_eq!(map.remove(1), Some(101));
    assert!(map.insert(1, 201).is_ok());
    assert_eq!(map.capacity(), 4);
    assert!(map.insert(9, 109).is_ok());
    assert_eq!(map.capacity(), 8);
    assert_eq!(*map.find(0).unwrap(), 100);
    assert_eq!(*map.find(1).unwrap(), 201);
    assert_eq!(*map.find(2).unwrap(), 102);
    assert_eq!(*map.find(3).unwrap(), 103);
    assert_eq!(*map.find(9).unwrap(), 109);
}

#[test]
fn capacity_never_decreases() {
    let mut map = HashMap::with_capacity(1);
    let mut last = map.capacity();
    for k in 0..40 {
        if k % 3 == 0 {
            let _ = map.remove(k - 3);
        } else if k % 3 == 1 {
            let _ = map.put(k, k);
        } else {
            let _ = map.insert(k, k);
        }
        assert!(map.capacity() >= last);
        last = map.capacity();
    }
}

#[test]
fn growth_sequence_of_capacities() {
    let mut map = HashMap::new();
    let mut caps = Vec::new();
    for k in 0..9 {
        assert!(map.insert(k, k).is_ok());
        caps.push(map.capacity());
    }
    assert_eq!(caps, vec![1, 2, 4, 4, 8, 8, 8, 8, 16]);
}

#[test]
fn duplicate_on_full_table_still_grows() {
    let mut map = HashMap::with_capacity(1);
    assert!(map.insert(3, 'a').is_ok());
    assert_eq!(map.insert(3, 'b'), Err(DupErr { key: 3 }));
    assert_eq!(map.capacity(), 2);
    assert_eq!(*map.find(3).unwrap(), 'a');
}

#[test]
fn concrete_scenario() {
    let mut map = HashMap::with_capacity(0);
    assert!(map.insert(3, "a").is_ok());
    assert_eq!(map.capacity(), 1);
    assert!(map.insert(4, "b").is_ok());
    assert_eq!(map.capacity(), 2);
    assert_eq!(*map.find(3).unwrap(), "a");
    assert_eq!(*map.find(4).unwrap(), "b");
    assert_eq!(map.remove(3).unwrap(), "a");
    assert!(map.find(3).is_none());
    assert!(map.contains_key(4));
}
