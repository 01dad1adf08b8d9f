use oa_hash_map::OAHashMap;

#[test]
fn basic() {
    let mut oa: OAHashMap<i32> = OAHashMap::new();
    oa.insert(1, 10);

    assert_eq!(Some(&10), oa.search(&1));

    oa.delete(&1);

    assert_eq!(None, oa.search(&1));

    oa.insert(1, 10);
    oa.insert(1, 20);

    assert_eq!(Some(&20), oa.search(&1));

    for i in 0..100u64 {
        oa.insert(i, i as i32);
    }

    for i in 0..100u64 {
        assert_eq!(Some(&(i as i32)), oa.search(&i));
    }
}

#[test]
fn empty_table_finds_nothing() {
    let mut oa: OAHashMap<u64> = OAHashMap::new();
    assert_eq!(None, oa.search(&0));
    assert_eq!(None, oa.search(&u64::MAX));
    oa.delete(&7);
    assert_eq!(None, oa.search(&7));
}

#[test]
fn round_trip_many_pairs() {
    let mut oa: OAHashMap<String> = OAHashMap::new();
    for i in 0..50u64 {
        oa.insert(i * 3, format!("value-{}", i));
    }
    for i in 0..50u64 {
        assert_eq!(Some(&format!("value-{}", i)), oa.search(&(i * 3)));
        assert_eq!(None, oa.search(&(i * 3 + 1)));
    }
}

#[test]
fn overwrite_keeps_last_value() {
    let mut oa: OAHashMap<i32> = OAHashMap::new();
    oa.insert(42, 1);
    oa.insert(42, 2);
    oa.insert(42, 3);
    assert_eq!(Some(&3), oa.search(&42));
    // overwriting does not duplicate the key: deleting once removes it
    oa.delete(&42);
    assert_eq!(None, oa.search(&42));
}

#[test]
fn delete_keeps_other_keys_findable() {
    let mut oa: OAHashMap<u64> = OAHashMap::new();
    for i in 0..100u64 {
        oa.insert(i, i + 1000);
    }
    // delete every even key; every odd key must stay findable even where its
    // probe ran through a now-deleted slot
    for i in (0..100u64).step_by(2) {
        oa.delete(&i);
    }
    for i in 0..100u64 {
        if i % 2 == 0 {
            assert_eq!(None, oa.search(&i));
        } else {
            assert_eq!(Some(&(i + 1000)), oa.search(&i));
        }
    }
    // tombstoned slots are reused: the even keys can come back
    for i in (0..100u64).step_by(2) {
        oa.insert(i, i + 2000);
    }
    for i in 0..100u64 {
        if i % 2 == 0 {
            assert_eq!(Some(&(i + 2000)), oa.search(&i));
        } else {
            assert_eq!(Some(&(i + 1000)), oa.search(&i));
        }
    }
}

#[test]
fn idempotent_delete_of_absent_key() {
    let mut oa: OAHashMap<i32> = OAHashMap::new();
    oa.insert(5, 50);
    oa.delete(&9);
    oa.delete(&9);
    assert_eq!(Some(&50), oa.search(&5));
    assert_eq!(None, oa.search(&9));
    oa.delete(&5);
    oa.delete(&5);
    assert_eq!(None, oa.search(&5));
}

#[test]
fn growth_preserves_contents() {
    // 100 distinct keys against an initial capacity of 64 forces at least
    // two growth events (the 3/5 threshold is crossed at 39 and 77 live
    // entries); every key must keep its last-inserted value
    let mut oa: OAHashMap<u64> = OAHashMap::new();
    for i in 0..100u64 {
        oa.insert(i.wrapping_mul(0x9e37_79b9_7f4a_7c15), i);
    }
    for i in 0..100u64 {
        assert_eq!(Some(&i), oa.search(&i.wrapping_mul(0x9e37_79b9_7f4a_7c15)));
    }
}

#[test]
fn large_and_extreme_keys() {
    let mut oa: OAHashMap<u64> = OAHashMap::new();
    oa.insert(0, 1);
    oa.insert(u64::MAX, 2);
    oa.insert(u64::MAX - 1, 3);
    assert_eq!(Some(&1), oa.search(&0));
    assert_eq!(Some(&2), oa.search(&u64::MAX));
    assert_eq!(Some(&3), oa.search(&(u64::MAX - 1)));
}
