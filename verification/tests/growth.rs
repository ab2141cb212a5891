use probemap::table::{
    hashmap_get, hashmap_hash_int, hashmap_length, hashmap_new, hashmap_put, hashmap_rehash,
    INIT_CAP,
};

#[test]
fn filling_initial_capacity_terminates_and_grows() {
    let mut m = hashmap_new::<u64>();
    for k in 0..INIT_CAP as u64 {
        assert_eq!(hashmap_put(&mut m, k, 3 * k), Ok(()));
    }
    assert_eq!(hashmap_length(&m), INIT_CAP);
    assert!(m.table_size > INIT_CAP);
    for k in 0..INIT_CAP as u64 {
        assert_eq!(hashmap_get(&m, k), Some(3 * k));
    }
}

#[test]
fn entries_survive_growth_past_initial_capacity() {
    let mut m = hashmap_new::<u64>();
    let n = INIT_CAP as u64 + 500;
    for k in 0..n {
        assert_eq!(hashmap_put(&mut m, 10_000 + k, k * k), Ok(()));
    }
    assert!(m.table_size >= 2 * INIT_CAP);
    assert_eq!(hashmap_length(&m) as u64, n);
    for k in 0..n {
        assert_eq!(hashmap_get(&m, 10_000 + k), Some(k * k));
    }
    assert_eq!(hashmap_get(&m, 9_999), None);
}

#[test]
fn explicit_rehash_preserves_entries() {
    let mut m = hashmap_new::<i32>();
    assert_eq!(hashmap_put(&mut m, 3, 30), Ok(()));
    assert_eq!(hashmap_put(&mut m, 4, 40), Ok(()));
    let cap_before = m.table_size;
    hashmap_rehash(&mut m);
    assert_eq!(m.table_size, 2 * cap_before);
    assert_eq!(hashmap_length(&m), 2);
    assert_eq!(hashmap_get(&m, 3), Some(30));
    assert_eq!(hashmap_get(&m, 4), Some(40));
}

#[test]
fn hash_is_deterministic_and_in_range() {
    let m = hashmap_new::<i32>();
    for k in [0u64, 1, 2, 12345, u64::MAX] {
        let h1 = hashmap_hash_int(&m, k);
        let h2 = hashmap_hash_int(&m, k);
        assert_eq!(h1, h2);
        assert!(h1 < m.table_size);
    }
}
