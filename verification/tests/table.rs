use probe_table::{AosTable, InsertError, Table};

#[test]
fn new_table_is_empty() {
    let t = Table::<u64>::new(5, false);
    assert_eq!(t.capacity(), 32);
    assert_eq!(t.len(), 0);
    assert!(!t.contains(7));
}

#[test]
fn hash_key_remaps_zero_to_one() {
    assert_eq!(Table::<u64>::hash_key(0), 1);
    assert_eq!(Table::<u64>::hash_key(1), 1);
    assert_eq!(Table::<u64>::hash_key(5), 5);
    assert_eq!(AosTable::<u64>::hash_key(0), 1);
    assert_eq!(AosTable::<u64>::hash_key(42), 42);
}

#[test]
fn zero_hash_key_round_trips() {
    let mut t = Table::<u64>::new(3, true);
    t.insert(0);
    assert_eq!(t.lookup(0), Ok(1));
    // key 1 is stored under the same hash (1) as key 0; both are found
    t.insert(1);
    assert_eq!(t.lookup(0), Ok(1));
    assert_eq!(t.lookup(1), Ok(2));
}

#[test]
fn example_scenario_three_colliding_keys() {
    // capacity 8 (mask 7): hashes 1, 9 and 17 all map to home slot 1
    let mut t = Table::<u64>::new(3, true);
    t.insert(1);
    t.insert(9);
    t.insert(17);
    assert_eq!(t.probe_len(1), 1);
    assert_eq!(t.probe_len(9), 2);
    assert_eq!(t.probe_len(17), 3);
}

#[test]
fn aos_example_scenario_three_colliding_keys() {
    let mut t = AosTable::<u64>::new(3, true);
    t.insert(1);
    t.insert(9);
    t.insert(17);
    assert_eq!(t.probe_len(1), 1);
    assert_eq!(t.probe_len(9), 2);
    assert_eq!(t.probe_len(17), 3);
    assert_eq!(t.lookup(25), Err(4));
}

#[test]
fn aos_zero_hash_key_round_trips() {
    let mut t = AosTable::<u64>::new(3, false);
    t.insert(0);
    assert_eq!(t.lookup(0), Ok(1));
    t.insert(1);
    assert_eq!(t.lookup(0), Ok(1));
    assert_eq!(t.lookup(1), Ok(2));
}

#[test]
fn insert_and_lookup_mixed_homes() {
    let keys: [u64; 10] = [3, 11, 19, 4, 12, 7, 0, 32, 33, 100];
    let mut lin = Table::<u64>::new(4, false);
    let mut rob = Table::<u64>::new(4, true);
    for &k in keys.iter() {
        lin.insert(k);
        rob.insert(k);
    }
    assert_eq!(lin.len(), keys.len());
    assert_eq!(rob.len(), keys.len());
    for &k in keys.iter() {
        let p = lin.probe_len(k);
        assert!(p >= 1 && p <= lin.capacity());
        let q = rob.probe_len(k);
        assert!(q >= 1 && q <= rob.capacity());
        assert!(lin.contains(k));
        assert!(rob.contains(k));
    }
}

#[test]
fn lookup_of_absent_key_misses() {
    let mut t = Table::<u64>::new(3, true);
    t.insert(1);
    t.insert(9);
    // key 25 also has home slot 1; the probe walks past 1 and 9 to the
    // empty slot at 3
    assert_eq!(t.lookup(25), Err(3));
    // a key whose home slot is empty misses immediately
    assert_eq!(t.lookup(5), Err(1));
    assert!(!t.contains(25));
}

#[test]
fn lookup_is_deterministic() {
    let mut t = Table::<u64>::new(4, true);
    for &k in [8, 24, 40, 9, 2].iter() {
        t.insert(k);
    }
    for &k in [8, 24, 40, 9, 2, 77].iter() {
        let first = t.lookup(k);
        let second = t.lookup(k);
        assert_eq!(first, second);
    }
}

#[test]
fn try_insert_reports_duplicate() {
    let mut t = Table::<u64>::new(2, false);
    assert_eq!(t.try_insert(6), Ok(()));
    assert_eq!(t.try_insert(6), Err(InsertError::Duplicate));
    assert_eq!(t.len(), 1);
}

#[test]
fn try_insert_reports_full() {
    let mut t = Table::<u64>::new(0, false);
    assert_eq!(t.capacity(), 1);
    assert_eq!(t.try_insert(5), Ok(()));
    assert_eq!(t.try_insert(7), Err(InsertError::Full));
    // a full table reports Full even for a key it already holds
    assert_eq!(t.try_insert(5), Err(InsertError::Full));
    assert_eq!(t.lookup(5), Ok(1));
}

#[test]
fn aos_try_insert_and_getters() {
    let mut t = AosTable::<u64>::new(1, true);
    assert_eq!(t.capacity(), 2);
    assert_eq!(t.try_insert(3), Ok(()));
    assert_eq!(t.try_insert(3), Err(InsertError::Duplicate));
    assert_eq!(t.try_insert(4), Ok(()));
    assert_eq!(t.try_insert(8), Err(InsertError::Full));
    assert_eq!(t.len(), 2);
    assert!(t.contains(3) && t.contains(4));
}
