use probemap::table::{
    hashmap_get, hashmap_get_one, hashmap_length, hashmap_new, hashmap_put, hashmap_remove,
    TableError, INIT_CAP,
};

#[test]
fn empty_table_reports_nothing() {
    let mut m = hashmap_new::<i32>();
    assert_eq!(hashmap_length(&m), 0);
    assert_eq!(m.table_size, INIT_CAP);
    assert_eq!(hashmap_get(&m, 7), None);
    assert_eq!(hashmap_get_one(&mut m, false), None);
    assert_eq!(hashmap_get_one(&mut m, true), None);
    assert_eq!(hashmap_remove(&mut m, 7), Err(TableError::NotFound));
    assert_eq!(hashmap_length(&m), 0);
}

#[test]
fn insert_then_lookup_returns_value() {
    let mut m = hashmap_new::<i32>();
    assert_eq!(hashmap_put(&mut m, 42, -7), Ok(()));
    assert_eq!(hashmap_get(&m, 42), Some(-7));
    assert_eq!(hashmap_length(&m), 1);
}

#[test]
fn insert_same_key_overwrites_without_double_count() {
    let mut m = hashmap_new::<i32>();
    assert_eq!(hashmap_put(&mut m, 5, 10), Ok(()));
    assert_eq!(hashmap_put(&mut m, 5, 20), Ok(()));
    assert_eq!(hashmap_get(&m, 5), Some(20));
    assert_eq!(hashmap_length(&m), 1);
}

#[test]
fn remove_absent_key_changes_nothing() {
    let mut m = hashmap_new::<i32>();
    assert_eq!(hashmap_put(&mut m, 1, 100), Ok(()));
    assert_eq!(hashmap_put(&mut m, 2, 200), Ok(()));
    assert_eq!(hashmap_remove(&mut m, 3), Err(TableError::NotFound));
    assert_eq!(hashmap_length(&m), 2);
    assert_eq!(hashmap_get(&m, 1), Some(100));
    assert_eq!(hashmap_get(&m, 2), Some(200));
}

#[test]
fn remove_present_key_drops_one_entry() {
    let mut m = hashmap_new::<i32>();
    assert_eq!(hashmap_put(&mut m, 1, 100), Ok(()));
    assert_eq!(hashmap_put(&mut m, 2, 200), Ok(()));
    assert_eq!(hashmap_remove(&mut m, 1), Ok(()));
    assert_eq!(hashmap_get(&m, 1), None);
    assert_eq!(hashmap_get(&m, 2), Some(200));
    assert_eq!(hashmap_length(&m), 1);
}

#[test]
fn distinct_inserts_count_each_key_once() {
    let mut m = hashmap_new::<u64>();
    for k in 0u64..300 {
        assert_eq!(hashmap_put(&mut m, k, k + 1), Ok(()));
        assert_eq!(hashmap_length(&m) as u64, k + 1);
    }
}

#[test]
fn peek_twice_returns_same_value() {
    let mut m = hashmap_new::<i32>();
    assert_eq!(hashmap_put(&mut m, 11, 111), Ok(()));
    assert_eq!(hashmap_put(&mut m, 22, 222), Ok(()));
    let first = hashmap_get_one(&mut m, false);
    let second = hashmap_get_one(&mut m, false);
    assert!(first.is_some());
    assert_eq!(first, second);
    assert_eq!(hashmap_length(&m), 2);
}

#[test]
fn extract_with_removal_drops_returned_entry() {
    let mut m = hashmap_new::<i32>();
    assert_eq!(hashmap_put(&mut m, 11, 111), Ok(()));
    assert_eq!(hashmap_put(&mut m, 22, 222), Ok(()));
    let taken = hashmap_get_one(&mut m, true).unwrap();
    assert_eq!(hashmap_length(&m), 1);
    let taken_key = if taken == 111 { 11 } else { 22 };
    let other_key = if taken == 111 { 22 } else { 11 };
    assert!(taken == 111 || taken == 222);
    assert_eq!(hashmap_get(&m, taken_key), None);
    assert!(hashmap_get(&m, other_key).is_some());
}

#[test]
fn demo_scenario() {
    let mut m = hashmap_new::<i32>();
    assert_eq!(hashmap_put(&mut m, 1, 4), Ok(()));
    assert_eq!(hashmap_get_one(&mut m, false), Some(4));
    assert_eq!(hashmap_length(&m), 1);
    assert_eq!(hashmap_put(&mut m, 2, 365), Ok(()));
    assert_eq!(hashmap_get(&m, 2), Some(365));
    assert_eq!(hashmap_remove(&mut m, 2), Ok(()));
    assert_eq!(hashmap_get_one(&mut m, false), Some(4));
    assert_eq!(hashmap_length(&m), 1);
}
