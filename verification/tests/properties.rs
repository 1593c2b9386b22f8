use probe_table::{AosTable, KeySet, Table};

fn max_probe_soa(t: &Table<u64>, keys: &[u64]) -> usize {
    let mut m = 0;
    for &k in keys.iter() {
        let p = t.probe_len(k);
        if p > m {
            m = p;
        }
    }
    m
}

#[test]
fn robin_hood_does_not_increase_max_probe_here() {
    // home slots in a table of capacity 8: key 2 -> 2, key 1 -> 1,
    // key 9 -> 1. Inserted in this order, plain linear probing pushes 9
    // out to slot 3 (probe length 3), while Robin Hood displacement parks
    // 9 at slot 2 and relocates 2, evening the probe lengths out.
    let keys: [u64; 3] = [2, 1, 9];
    let mut lin = Table::<u64>::new(3, false);
    let mut rob = Table::<u64>::new(3, true);
    for &k in keys.iter() {
        lin.insert(k);
        rob.insert(k);
    }
    assert_eq!(lin.probe_len(1), 1);
    assert_eq!(lin.probe_len(2), 1);
    assert_eq!(lin.probe_len(9), 3);
    assert_eq!(rob.probe_len(1), 1);
    assert_eq!(rob.probe_len(2), 2);
    assert_eq!(rob.probe_len(9), 2);
    let lin_max = max_probe_soa(&lin, &keys);
    let rob_max = max_probe_soa(&rob, &keys);
    assert!(rob_max <= lin_max);
    assert_eq!(lin_max, 3);
    assert_eq!(rob_max, 2);
}

#[test]
fn layouts_give_identical_probe_lengths() {
    let keys: [u64; 8] = [3, 11, 19, 4, 12, 0, 33, 7];
    let lookups: [u64; 11] = [7, 33, 0, 12, 4, 19, 11, 3, 99, 27, 5];
    for &robin_hood in [false, true].iter() {
        let mut soa = Table::<u64>::new(4, robin_hood);
        let mut aos = AosTable::<u64>::new(4, robin_hood);
        for &k in keys.iter() {
            soa.insert(k);
            aos.insert(k);
        }
        for &k in lookups.iter() {
            assert_eq!(soa.lookup(k), aos.lookup(k));
        }
    }
}

#[test]
fn round_trip_under_both_policies_and_layouts() {
    // 13 distinct keys in a table of capacity 16, crowding homes 1 and 2
    let keys: [u64; 13] = [1, 17, 33, 49, 2, 18, 34, 5, 6, 7, 8, 9, 0];
    for &robin_hood in [false, true].iter() {
        let mut soa = Table::<u64>::new(4, robin_hood);
        let mut aos = AosTable::<u64>::new(4, robin_hood);
        for &k in keys.iter() {
            soa.insert(k);
            aos.insert(k);
        }
        for &k in keys.iter() {
            let p = soa.probe_len(k);
            assert!(p >= 1);
            let q = aos.probe_len(k);
            assert!(q >= 1);
        }
    }
}

#[test]
fn random_keys_round_trip_in_both_layouts() {
    let mut ks = KeySet::new();
    while ks.len() < 200 {
        ks.offer(rand::random::<u64>());
    }
    let keys = ks.into_keys();
    let mut soa = Table::<u64>::new(8, true);
    let mut aos = AosTable::<u64>::new(8, true);
    for &k in keys.iter() {
        soa.insert(k);
        aos.insert(k);
    }
    assert_eq!(soa.len(), 200);
    for &k in keys.iter() {
        let p = soa.probe_len(k);
        assert!(p >= 1 && p <= soa.capacity());
        assert_eq!(soa.lookup(k), aos.lookup(k));
    }
}

#[test]
fn key_set_deduplicates() {
    let mut ks = KeySet::new();
    assert!(ks.offer(10));
    assert!(ks.offer(11));
    assert!(!ks.offer(10));
    assert!(ks.offer(12));
    assert!(!ks.offer(11));
    assert_eq!(ks.len(), 3);
    let v = ks.into_keys();
    assert_eq!(v, vec![10, 11, 12]);
}
