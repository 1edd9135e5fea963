use chainmap::HashMap;

#[test]
fn test_insert() {
    let mut map = HashMap::new();
    map.insert(String::from("foo"), String::from("42"));
}

#[test]
fn test_fresh_table_is_empty() {
    let map: HashMap<u64, u64> = HashMap::new();
    assert_eq!(map.len(), 0);
    assert_eq!(map.bucket_count(), 0);
}

#[test]
fn test_first_insert_grows_to_one_bucket() {
    let mut map: HashMap<u64, u64> = HashMap::new();
    let prev = map.insert(10, 100);
    assert_eq!(prev, None);
    assert_eq!(map.len(), 1);
    assert_eq!(map.bucket_count(), 1);
}

#[test]
fn test_replacement_keeps_one_entry() {
    // Idempotent replacement: the same key twice leaves one entry, the
    // second value wins, and the count rises only once.
    let mut map: HashMap<u64, u64> = HashMap::new();
    assert_eq!(map.insert(5, 1), None);
    assert_eq!(map.insert(5, 2), Some(1));
    assert_eq!(map.len(), 1);
    // a third insert returns the value the second one stored
    assert_eq!(map.insert(5, 3), Some(2));
    assert_eq!(map.len(), 1);
}

#[test]
fn test_replacement_with_string_keys() {
    let mut map: HashMap<String, u64> = HashMap::new();
    assert_eq!(map.insert(String::from("key"), 1), None);
    assert_eq!(map.insert(String::from("key"), 2), Some(1));
    assert_eq!(map.len(), 1);
}

#[test]
fn test_count_after_distinct_inserts() {
    // Count invariant: after N inserts with distinct keys, len is N.
    let mut map: HashMap<u64, u64> = HashMap::new();
    for k in 0..50u64 {
        let prev = map.insert(k, k + 1000);
        assert_eq!(prev, None);
        assert_eq!(map.len(), (k + 1) as usize);
    }
}

#[test]
fn test_membership_survives_grows() {
    // Rehash preserves membership: every key inserted before the grows is
    // still reachable afterwards, shown by the replacement path returning
    // the value it stored.
    let mut map: HashMap<u64, u64> = HashMap::new();
    for k in 0..32u64 {
        map.insert(k, 2 * k);
    }
    assert!(map.bucket_count() >= 32);
    for k in 0..32u64 {
        assert_eq!(map.insert(k, 2 * k), Some(2 * k));
    }
    assert_eq!(map.len(), 32);
}

#[test]
fn test_colliding_keys_share_a_bucket() {
    // With the identity hash and two buckets, equal parities collide; the
    // chain still keeps the keys apart.
    let mut map: HashMap<u64, u64> = HashMap::new();
    assert_eq!(map.insert(0, 10), None);
    assert_eq!(map.insert(2, 12), None);
    assert_eq!(map.len(), 2);
    assert_eq!(map.insert(0, 20), Some(10));
    assert_eq!(map.insert(2, 22), Some(12));
    assert_eq!(map.len(), 2);
}

#[test]
fn test_load_factor_bound() {
    // Immediately after any insert, len <= 3 * buckets / 4 + 1.
    let mut map: HashMap<u64, u64> = HashMap::new();
    for k in 0..200u64 {
        map.insert(k, k);
        assert!(map.len() <= 3 * map.bucket_count() / 4 + 1);
    }
}

#[test]
fn test_growth_sequence() {
    // Bucket counts observed at each grow event double: 1, 2, 4, 8, ...
    // with the first grow on the first insert.
    let mut map: HashMap<u64, u64> = HashMap::new();
    let mut seen: Vec<usize> = Vec::new();
    let mut last = map.bucket_count();
    assert_eq!(last, 0);
    for k in 0..100u64 {
        map.insert(k, k);
        let now = map.bucket_count();
        if now != last {
            seen.push(now);
            last = now;
        }
    }
    let mut expected = 1usize;
    assert!(seen.len() >= 2);
    for count in seen {
        assert_eq!(count, expected);
        expected *= 2;
    }
}

#[test]
fn test_scenario_three_keys() {
    // Construct an empty table; "foo" -> "42" returns nothing, makes one
    // item and one bucket; "foo" -> "43" replaces; "bar" and "baz" trigger
    // further grows; all three keys stay reachable with their values.
    let mut map: HashMap<String, String> = HashMap::new();
    let p = map.insert(String::from("foo"), String::from("42"));
    assert_eq!(p, None);
    assert_eq!(map.len(), 1);
    assert_eq!(map.bucket_count(), 1);

    let p = map.insert(String::from("foo"), String::from("43"));
    assert_eq!(p, Some(String::from("42")));
    assert_eq!(map.len(), 1);

    let p = map.insert(String::from("bar"), String::from("1"));
    assert_eq!(p, None);
    assert_eq!(map.bucket_count(), 2);
    let p = map.insert(String::from("baz"), String::from("2"));
    assert_eq!(p, None);
    assert_eq!(map.len(), 3);

    assert_eq!(map.insert(String::from("foo"), String::from("43")), Some(String::from("43")));
    assert_eq!(map.insert(String::from("bar"), String::from("1")), Some(String::from("1")));
    assert_eq!(map.insert(String::from("baz"), String::from("2")), Some(String::from("2")));
    assert_eq!(map.len(), 3);
}
