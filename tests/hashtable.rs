use algorithms::hashing::HasherDJB2;
use std::hash::{Hash, Hasher};
use algorithms::hashtable::HashTable;
use algorithms::prime::is_prime;

#[test]
fn hashtable_basic() {
    let mut m = HashTable::default();

    m.insert("key", "value");
    m.insert("false", "true");

    assert!(!m.is_empty());
    assert_eq!(m.len(), 2);

    assert_eq!(m.get(&"key"), Some(&"value"));
    assert_eq!(m.get(&"false"), Some(&"true"));

    m.remove(&"key");
    m.remove(&"false");

    assert!(m.is_empty());
    assert_eq!(m.len(), 0);

    assert_eq!(m.get(&"key"), None);
    assert_eq!(m.get(&"false"), None);
}

#[test]
fn hashtable_clear() {
    let mut m = HashTable::default();
    assert!(m.is_empty());

    for i in 1..101 {
        m.insert(format!("{}", i), i)
    }
    assert!(!m.is_empty());
    assert_eq!(m.len(), 100);

    assert_eq!(m.get(&String::from("1")), Some(&1));
    assert_eq!(m.get(&String::from("100")), Some(&100));

    m.clear();
    assert!(m.is_empty());

    assert_eq!(m.get(&String::from("1")), None);
    assert_eq!(m.get(&String::from("100")), None);
}

#[test]
fn hashtable_duplicate_key() {
    let mut m = HashTable::default();

    m.insert("key", 1);
    m.insert("key", 2);
    assert_eq!(m.get(&"key"), Some(&2));

    m.remove(&"key");
    assert_eq!(m.get(&"key"), None);
}

#[test]
fn hashtable_single_remove() {
    let mut m: HashTable<_, u64> = HashTable::default();

    m.remove(&"key");
    assert_eq!(m.get(&"key"), None);
}

#[test]
fn hashtable_overwrite() {
    let mut m = HashTable::default();

    m.insert("ok", 1);
    assert_eq!(m.get(&"ok"), Some(&1));

    m.insert("ok", 2);
    assert_eq!(m.get(&"ok"), Some(&2));
}

#[test]
fn hashtable_remove_nonexistent_item() {
    let mut m = HashTable::default();

    m.remove(&"ok");
    assert!(m.is_empty());
    assert_eq!(m.get(&"ok"), None);

    m.insert("ok1", 1);
    assert!(!m.is_empty());
    assert_eq!(m.get(&"ok1"), Some(&1));

    m.remove(&"ok2");
    assert!(!m.is_empty());
    assert_eq!(m.get(&"ok2"), None);

    m.remove(&"ok1");
    assert!(m.is_empty());
    assert_eq!(m.get(&"ok1"), None);
}

#[test]
fn hashtable_resize() {
    let mut m = HashTable::default();
    let range = 0..m.capacity() * 10;

    for i in range.clone() {
        m.insert(i, i);

        assert_eq!(m.len(), i + 1);
    }

    for i in range.rev() {
        m.remove(&i);

        assert_eq!(m.len(), i);
    }
}

#[test]
fn hashtable_lots_of_insertions() {
    let mut m = HashTable::default();

    // Try this a few times to make sure we never screw up the hashmap's
    // internal state.
    for _ in 0..10 {
        assert!(m.is_empty());

        for i in 1..1001 {
            m.insert(i, i);

            for j in 1..=i {
                let r = m.get(&j);
                assert_eq!(r, Some(&j));
            }

            for j in i + 1..1001 {
                let r = m.get(&j);
                assert_eq!(r, None);
            }
        }

        for i in 1001..2001 {
            assert!(!m.contains_key(&i));
        }

        // remove forwards
        for i in 1..1001 {
            m.remove(&i);

            for j in 1..=i {
                assert!(!m.contains_key(&j));
            }

            for j in i + 1..1001 {
                assert!(m.contains_key(&j));
            }
        }

        for i in 1..1001 {
            assert!(!m.contains_key(&i));
        }

        for i in 1..1001 {
            m.insert(i, i);
        }

        // remove backwards
        for i in (1..1001).rev() {
            m.remove(&i);

            for j in i..1001 {
                assert!(!m.contains_key(&j));
            }

            for j in 1..i {
                assert!(m.contains_key(&j));
            }
        }
    }
}

#[test]
fn hashtable_clone() {
    let mut m = HashTable::default();
    assert_eq!(m.len(), 0);

    m.insert(1, 2);
    assert_eq!(m.len(), 1);

    m.insert(2, 4);
    assert_eq!(m.len(), 2);

    let m2 = m.clone();
    assert_eq!(*m2.get(&1).unwrap(), 2);
    assert_eq!(*m2.get(&2).unwrap(), 4);
    assert_eq!(m2.len(), 2);
}

#[test]
fn insert_hundred_keys_keeps_prime_capacity() {
    let mut m = HashTable::new();
    for i in 1..=100u64 {
        m.insert(i, i * 10);
    }
    assert_eq!(m.len(), 100);
    assert!(is_prime(m.capacity()));
    assert!(m.len() * 100 / m.capacity() <= 70);
    for i in 1..=100u64 {
        assert_eq!(m.get(&i), Some(&(i * 10)));
    }
}

#[test]
fn remove_hundred_keys_shrinks_to_base() {
    let mut m = HashTable::new();
    for i in 1..=100u64 {
        m.insert(i, i);
    }
    let grown = m.capacity();
    let mut last_len = m.len();
    for i in (1..=100u64).rev() {
        m.remove(&i);
        assert_eq!(m.len(), last_len - 1);
        last_len = m.len();
        assert!(m.capacity() >= 53);
        assert!(is_prime(m.capacity()));
        // what is left survives every shrink
        for j in 1..i {
            assert_eq!(m.get(&j), Some(&j));
        }
        assert_eq!(m.get(&i), None);
    }
    assert_eq!(m.len(), 0);
    assert!(m.capacity() < grown);
}

#[test]
fn overwrite_keeps_length() {
    let mut m = HashTable::new();
    m.insert("key", 1);
    m.insert("key", 2);
    assert_eq!(m.get(&"key"), Some(&2));
    assert_eq!(m.len(), 1);
}

#[test]
fn remove_missing_on_empty_table() {
    let mut m: HashTable<&str, i32> = HashTable::new();
    m.remove(&"missing");
    assert_eq!(m.get(&"missing"), None);
    assert_eq!(m.len(), 0);
}

#[test]
fn clear_returns_entries_and_table_stays_usable() {
    let mut m = HashTable::new();
    for i in 0..5i32 {
        m.insert(i, i + 100);
    }
    let mut drained = m.clear();
    drained.sort();
    assert_eq!(drained, vec![(0, 100), (1, 101), (2, 102), (3, 103), (4, 104)]);
    assert_eq!(m.len(), 0);
    assert_eq!(m.capacity(), 53);
    for i in 0..5i32 {
        assert_eq!(m.get(&i), None);
    }
    m.insert(7, 8);
    assert_eq!(m.get(&7), Some(&8));
    assert_eq!(m.len(), 1);
}

#[test]
fn new_table_has_base_capacity() {
    let m: HashTable<u32, u32> = HashTable::new();
    assert_eq!(m.capacity(), 53);
    assert!(m.is_empty());
}

#[test]
fn negative_and_string_keys() {
    let mut m = HashTable::new();
    m.insert(-1i32, "minus one");
    m.insert(i32::MIN, "min");
    m.insert(0i32, "zero");
    assert_eq!(m.get(&-1), Some(&"minus one"));
    assert_eq!(m.get(&i32::MIN), Some(&"min"));
    assert!(m.contains_key(&0));
    assert!(!m.contains_key(&1));

    let mut s = HashTable::new();
    s.insert(String::from("ünïcode"), 1u8);
    assert_eq!(s.get(&String::from("ünïcode")), Some(&1));
    assert_eq!(s.get(&String::from("unicode")), None);
}

#[test]
fn djb2_known_values() {
    let h = HasherDJB2::new();
    assert_eq!(h.finish(), 5381);

    let mut h = HasherDJB2::new();
    h.write(b"a");
    assert_eq!(h.finish(), 5381 * 33 + 97);

    let mut h = HasherDJB2::new();
    h.write(b"ab");
    assert_eq!(h.finish(), (5381 * 33 + 97) * 33 + 98);

    let mut a = HasherDJB2::new();
    a.write_le(0x0201, 2);
    let mut b = HasherDJB2::new();
    b.write(&[1, 2]);
    assert_eq!(a.finish(), b.finish());
}

#[test]
fn hashtable_eq() {
    let mut m1 = HashTable::default();
    m1.insert(1, 2);
    m1.insert(2, 3);
    m1.insert(3, 4);

    let mut m2 = HashTable::default();
    m2.insert(1, 2);
    m2.insert(2, 3);

    assert!(m1 != m2);

    m2.insert(3, 4);

    assert!(m1 == m2);
}

#[test]
fn hashtable_show() {
    let mut map = HashTable::default();
    let empty: HashTable<i32, i32> = HashTable::default();

    map.insert(1, 2);
    map.insert(3, 4);

    let map_str = map.debug_string();

    assert!(map_str == "{1: 2, 3: 4}" || map_str == "{3: 4, 1: 2}");
    assert_eq!(empty.debug_string(), "{}");
}

#[test]
fn equality_ignores_insertion_order_and_history() {
    let mut a = HashTable::new();
    let mut b = HashTable::new();
    for i in 0..200u64 {
        a.insert(i, i + 1);
    }
    for i in (0..200u64).rev() {
        b.insert(i, i + 1);
    }
    assert!(a == b);

    // a different bucket layout: grow, then remove the extra keys
    let mut c = HashTable::new();
    for i in 0..400u64 {
        c.insert(i, i + 1);
    }
    for i in 200..400u64 {
        c.remove(&i);
    }
    assert!(a == c);

    c.insert(5, 0);
    assert!(a != c);
}

#[test]
fn djb2_as_std_hasher() {
    let mut a = HasherDJB2::default();
    Hasher::write(&mut a, b"key");
    let mut b = HasherDJB2::new();
    b.write(b"key");
    assert_eq!(Hasher::finish(&a), b.finish());

    let mut c = HasherDJB2::new();
    7u8.hash(&mut c);
    assert_eq!(Hasher::finish(&c), 5381 * 33 + 7);
}

#[test]
fn growth_and_shrink_follow_the_load_policy() {
    let mut m = HashTable::new();
    for i in 0..38u64 {
        m.insert(i, i);
    }
    // 38 entries in 53 buckets: load 71 percent, so the next insert grows
    assert_eq!(m.capacity(), 53);
    m.insert(38, 38);
    assert_eq!(m.capacity(), 107);
    assert_eq!(m.len(), 39);

    // removals shrink once fewer than 10 percent of the buckets are live
    let mut i = 38u64;
    while m.len() > 11 {
        m.remove(&i);
        i -= 1;
        assert_eq!(m.capacity(), 107);
    }
    m.remove(&i); // 11 live: load 10, no shrink
    assert_eq!(m.capacity(), 107);
    i -= 1;
    m.remove(&i); // 10 live: load 9, shrinks to the least prime from 53
    assert_eq!(m.capacity(), 53);
    assert_eq!(m.len(), 9);
    for j in 0..9u64 {
        assert_eq!(m.get(&j), Some(&j));
    }
}
