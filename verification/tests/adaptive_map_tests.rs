use hashmap2::adaptive_map::{load_is_high, HashMap, SpecializedInsert, DISPLACEMENT_THRESHOLD};
use hashmap2::entry::Entry;
use hashmap2::key::Address;
use hashmap2::resize_policy::usable_capacity;

/// The `n`-th of a run of keys whose fast hashes all fall into bucket 0 of
/// any table of up to 2^24 buckets.
fn colliding(n: u32) -> u32 {
    n << 24
}

#[test]
fn colliding_keys_switch_the_map_to_safe_hashing() {
    let mut map = HashMap::new();
    for n in 1..DISPLACEMENT_THRESHOLD as u32 {
        map.insert(colliding(n), ());
    }
    assert_eq!(map.len(), DISPLACEMENT_THRESHOLD - 1);
    assert!(!map.uses_safe_hashing());
    for n in DISPLACEMENT_THRESHOLD as u32..DISPLACEMENT_THRESHOLD as u32 + 8 {
        map.insert(colliding(n), ());
    }
    assert!(map.uses_safe_hashing());
    assert_eq!(map.len(), DISPLACEMENT_THRESHOLD + 7);
    for n in 1..DISPLACEMENT_THRESHOLD as u32 + 8 {
        assert!(map.contains_key(&colliding(n)));
    }
}

#[test]
fn test_adaptive_lots_of_insertions() {
    let mut m = HashMap::new();

    // Try this a few times to make sure we never screw up the hashmap's
    // internal state.
    for _ in 0..10 {
        assert!(m.is_empty());

        for i in 1..=1000 {
            assert!(m.insert(i, i).is_none());

            for j in 1..=i {
                let r = m.get(&j);
                assert_eq!(r, Some(&j));
            }

            for j in i + 1..=1000 {
                let r = m.get(&j);
                assert_eq!(r, None);
            }
        }

        for i in 1001..=2000 {
            assert!(!m.contains_key(&i));
        }

        // remove forwards
        for i in 1..=1000 {
            assert!(m.remove(&i).is_some());

            for j in 1..=i {
                assert!(!m.contains_key(&j));
            }

            for j in i + 1..=1000 {
                assert!(m.contains_key(&j));
            }
        }

        for i in 1..=1000 {
            assert!(!m.contains_key(&i));
        }

        for i in 1..=1000 {
            assert!(m.insert(i, i).is_none());
        }

        // remove backwards
        for i in (1..1001).rev() {
            assert!(m.remove(&i).is_some());

            for j in i..=1000 {
                assert!(!m.contains_key(&j));
            }

            for j in 1..=i - 1 {
                assert!(m.contains_key(&j));
            }
        }
    }
}

#[test]
fn new_map_has_no_buckets() {
    let m: HashMap<i32, i32> = HashMap::new();
    assert_eq!(m.len(), 0);
    assert!(m.is_empty());
    assert_eq!(m.capacity(), 0);
    assert_eq!(m.get(&1), None);
    assert!(!m.contains_key(&1));
    let d: HashMap<i32, i32> = HashMap::default();
    assert_eq!(d.capacity(), 0);
    assert!(!d.uses_safe_hashing());
}

#[test]
fn first_insert_gives_the_smallest_table() {
    let mut m = HashMap::new();
    assert_eq!(m.insert(0, 0), None);
    assert_eq!(m.len(), 1);
    assert_eq!(m.capacity(), 32);
    assert_eq!(m.get(&0), Some(&0));
}

#[test]
fn narrow_integer_keys_start_fast_and_wide_ones_safe() {
    assert!(!HashMap::<u8, ()>::new().uses_safe_hashing());
    assert!(!HashMap::<i8, ()>::new().uses_safe_hashing());
    assert!(!HashMap::<u16, ()>::new().uses_safe_hashing());
    assert!(!HashMap::<i16, ()>::new().uses_safe_hashing());
    assert!(!HashMap::<u32, ()>::new().uses_safe_hashing());
    assert!(!HashMap::<i32, ()>::new().uses_safe_hashing());
    assert!(!HashMap::<u64, ()>::new().uses_safe_hashing());
    assert!(!HashMap::<i64, ()>::new().uses_safe_hashing());
    assert!(!HashMap::<Address, ()>::new().uses_safe_hashing());
    assert!(HashMap::<usize, ()>::new().uses_safe_hashing());
    assert!(HashMap::<isize, ()>::new().uses_safe_hashing());
    assert!(HashMap::<usize, ()>::with_capacity(10).uses_safe_hashing());
    assert!(!HashMap::<u32, ()>::with_capacity(10).uses_safe_hashing());
}

#[test]
fn insert_returns_the_previous_value() {
    let mut m = HashMap::new();
    assert_eq!(m.insert(5u8, "a"), None);
    assert_eq!(m.insert(5u8, "b"), Some("a"));
    assert_eq!(m.insert(6u8, "c"), None);
    assert_eq!(m.get(&5), Some(&"b"));
    assert_eq!(m.get(&6), Some(&"c"));
    assert_eq!(m.len(), 2);
}

#[test]
fn inserting_twice_leaves_the_length() {
    let mut m = HashMap::new();
    m.insert(9i64, 90);
    let len = m.len();
    let capacity = m.capacity();
    assert_eq!(m.insert(9i64, 90), Some(90));
    assert_eq!(m.len(), len);
    assert_eq!(m.capacity(), capacity);
    assert_eq!(m.get(&9), Some(&90));
}

#[test]
fn get_returns_the_value_most_recently_inserted() {
    let mut m = HashMap::new();
    assert_eq!(m.get(&1u16), None);
    m.insert(1u16, 'a');
    assert_eq!(m.get(&1), Some(&'a'));
    m.insert(1u16, 'b');
    assert_eq!(m.get(&1), Some(&'b'));
    assert_eq!(m.remove(&1), Some('b'));
    assert_eq!(m.get(&1), None);
    assert_eq!(m.remove(&1), None);
    m.insert(1u16, 'c');
    assert_eq!(m.get(&1), Some(&'c'));
    m.insert(2u16, 'd');
    assert_eq!(m.remove(&2), Some('d'));
    assert_eq!(m.get(&1), Some(&'c'));
    assert_eq!(m.len(), 1);
}

#[test]
fn remove_of_a_missing_key_changes_nothing() {
    let mut m: HashMap<u32, u32> = HashMap::new();
    assert_eq!(m.remove(&3), None);
    assert_eq!(m.capacity(), 0);
    m.insert(1, 1);
    assert_eq!(m.remove(&3), None);
    assert_eq!(m.len(), 1);
    assert_eq!(m.capacity(), 32);
}

#[test]
fn get_mut_changes_the_value_in_place() {
    let mut m = HashMap::new();
    m.insert(7u32, 1);
    if let Some(v) = m.get_mut(&7) {
        *v += 41;
    }
    assert_eq!(m.get(&7), Some(&42));
    assert!(m.get_mut(&8).is_none());
    assert_eq!(m.len(), 1);
}

#[test]
fn key_zero_is_stored_like_any_other() {
    let mut m = HashMap::new();
    assert_eq!(m.insert(0u64, 1), None);
    assert_eq!(m.insert(1u64 << 63, 2), None);
    assert_eq!(m.get(&0), Some(&1));
    assert_eq!(m.get(&(1u64 << 63)), Some(&2));
    assert_eq!(m.remove(&0), Some(1));
    assert_eq!(m.get(&(1u64 << 63)), Some(&2));
    assert_eq!(m.len(), 1);
}

#[test]
fn signed_and_address_keys() {
    let mut m = HashMap::new();
    for i in -100i8..100 {
        assert_eq!(m.insert(i, i as i32 * 2), None);
    }
    for i in -100i8..100 {
        assert_eq!(m.get(&i), Some(&(i as i32 * 2)));
    }
    assert_eq!(m.len(), 200);
    let mut a = HashMap::new();
    a.insert(Address(0x1000), 1);
    a.insert(Address(0x2000), 2);
    assert_eq!(a.get(&Address(0x1000)), Some(&1));
    assert_eq!(a.get(&Address(0x3000)), None);
}

#[test]
fn keys_that_hash_safely_from_the_start() {
    let mut m = HashMap::new();
    for i in 0usize..500 {
        assert_eq!(m.insert(i, i + 1), None);
    }
    assert!(m.uses_safe_hashing());
    for i in 0usize..500 {
        assert_eq!(m.get(&i), Some(&(i + 1)));
    }
    for i in 0usize..500 {
        assert_eq!(m.remove(&i), Some(i + 1));
    }
    assert!(m.is_empty());
    assert!(m.uses_safe_hashing());
}

#[test]
fn with_capacity_holds_what_was_asked_for() {
    let mut m = HashMap::with_capacity(100_000);
    let capacity = m.capacity();
    assert_eq!(capacity, 131_072);
    assert!(capacity.is_power_of_two());
    assert!(capacity >= 100_000);
    for i in 0u32..100_000 {
        assert_eq!(m.insert(i, i), None);
    }
    assert_eq!(m.len(), 100_000);
    assert_eq!(m.capacity(), capacity);
    assert!(m.len() <= usable_capacity(m.capacity()));
    for i in 0u32..100_000 {
        assert_eq!(m.get(&i), Some(&i));
    }
    assert!(!m.uses_safe_hashing());
}

#[test]
fn with_capacity_of_nothing_has_no_buckets() {
    let m: HashMap<u32, u32> = HashMap::with_capacity(0);
    assert_eq!(m.capacity(), 0);
    let m: HashMap<u32, u32> = HashMap::with_capacity(1);
    assert_eq!(m.capacity(), 32);
    let m: HashMap<u32, u32> = HashMap::with_capacity(30);
    assert_eq!(m.capacity(), 64);
}

#[test]
fn the_table_grows_with_the_load() {
    let mut m = HashMap::new();
    for i in 0u32..29 {
        m.insert(i, ());
    }
    assert_eq!(m.capacity(), 32);
    m.insert(29, ());
    assert_eq!(m.capacity(), 64);
    for i in 30u32..59 {
        m.insert(i, ());
    }
    assert_eq!(m.capacity(), 64);
    m.insert(59, ());
    assert_eq!(m.capacity(), 128);
    assert_eq!(m.len(), 60);
}

#[test]
fn reserve_makes_room_once() {
    let mut m: HashMap<u32, u32> = HashMap::new();
    m.reserve(0);
    assert_eq!(m.capacity(), 0);
    m.reserve(100);
    assert_eq!(m.capacity(), 128);
    for i in 0..100 {
        m.insert(i, i);
    }
    assert_eq!(m.capacity(), 128);
    m.reserve(17);
    assert_eq!(m.capacity(), 128);
    m.reserve(18);
    assert_eq!(m.capacity(), 256);
    assert_eq!(m.len(), 100);
    for i in 0..100 {
        assert_eq!(m.get(&i), Some(&i));
    }
}

#[test]
fn resize_keeps_every_entry() {
    let mut m = HashMap::new();
    for i in 0u32..20 {
        m.insert(i * 32, i);
    }
    m.resize(1024);
    assert_eq!(m.capacity(), 1024);
    assert_eq!(m.len(), 20);
    for i in 0u32..20 {
        assert_eq!(m.get(&(i * 32)), Some(&i));
    }
    m.resize(32);
    assert_eq!(m.capacity(), 32);
    for i in 0u32..20 {
        assert_eq!(m.get(&(i * 32)), Some(&i));
    }
    assert!(!m.uses_safe_hashing());
}

#[test]
fn clear_keeps_the_capacity_and_the_mode() {
    let mut m = HashMap::new();
    for i in 0u32..100 {
        m.insert(i, i);
    }
    let capacity = m.capacity();
    m.clear();
    assert!(m.is_empty());
    assert_eq!(m.len(), 0);
    assert_eq!(m.capacity(), capacity);
    assert_eq!(m.get(&5), None);
    assert!(!m.uses_safe_hashing());
    m.insert(5, 6);
    assert_eq!(m.get(&5), Some(&6));
}

#[test]
fn a_long_probe_at_a_low_load_switches_to_safe_hashing() {
    let mut m = HashMap::with_capacity(200);
    assert_eq!(m.capacity(), 256);
    for n in 1..=128u32 {
        m.insert(colliding(n), n);
    }
    assert!(!m.uses_safe_hashing());
    assert_eq!(m.capacity(), 256);
    m.insert(colliding(129), 129);
    assert!(m.uses_safe_hashing());
    assert_eq!(m.capacity(), 256);
    assert_eq!(m.len(), 129);
    for n in 1..=129u32 {
        assert_eq!(m.get(&colliding(n)), Some(&n));
    }
}

#[test]
fn a_long_probe_at_a_high_load_grows_the_table() {
    let mut m = HashMap::with_capacity(200);
    assert_eq!(m.capacity(), 256);
    for n in 1..=128u32 {
        m.insert(n * 256, n);
    }
    for k in 129..=200u32 {
        m.insert(k, k);
    }
    assert_eq!(m.len(), 200);
    assert_eq!(m.capacity(), 256);
    assert!(!m.uses_safe_hashing());
    m.insert(129 * 256, 129);
    assert_eq!(m.capacity(), 512);
    assert!(!m.uses_safe_hashing());
    assert_eq!(m.len(), 201);
    for n in 1..=129u32 {
        assert_eq!(m.get(&(n * 256)), Some(&n));
    }
    for k in 129..=200u32 {
        assert_eq!(m.get(&k), Some(&k));
    }
}

#[test]
fn a_long_probe_that_outlasts_growth_switches_to_safe_hashing() {
    let mut m = HashMap::with_capacity(200);
    for n in 1..=128u32 {
        m.insert(colliding(n), n);
    }
    for k in 129..=200u32 {
        m.insert(k, k);
    }
    assert!(!m.uses_safe_hashing());
    m.insert(colliding(129), 129);
    assert_eq!(m.capacity(), 512);
    assert!(m.uses_safe_hashing());
    for n in 1..=129u32 {
        assert_eq!(m.get(&colliding(n)), Some(&n));
    }
    for k in 129..=200u32 {
        assert_eq!(m.get(&k), Some(&k));
    }
}

#[test]
fn replacing_a_value_behind_a_long_run_does_not_adapt() {
    let mut m = HashMap::with_capacity(200);
    for n in 1..=128u32 {
        m.insert(colliding(n), n);
    }
    assert_eq!(m.insert(colliding(128), 0), Some(128));
    assert!(!m.uses_safe_hashing());
    assert_eq!(m.capacity(), 256);
}

#[test]
fn safe_hashing_stays_on() {
    let mut m = HashMap::new();
    for n in 1..=135u32 {
        m.insert(colliding(n), ());
    }
    assert!(m.uses_safe_hashing());
    for n in 1..=135u32 {
        m.remove(&colliding(n));
        assert!(m.uses_safe_hashing());
    }
    m.insert(1, ());
    assert!(m.uses_safe_hashing());
    m.reserve(1000);
    assert!(m.uses_safe_hashing());
    m.resize(4096);
    assert!(m.uses_safe_hashing());
    m.clear();
    assert!(m.uses_safe_hashing());
    m.adapt_to_safe_hashing();
    assert!(m.uses_safe_hashing());
    assert_eq!(m.get(&1), None);
}

#[test]
fn adapting_a_map_without_buckets_switches_it() {
    let mut m: HashMap<u32, u32> = HashMap::new();
    m.adapt_to_safe_hashing();
    assert!(m.uses_safe_hashing());
    assert_eq!(m.capacity(), 0);
    assert_eq!(m.insert(1, 2), None);
    assert_eq!(m.get(&1), Some(&2));
}

#[test]
fn adapting_by_hand() {
    let mut m = HashMap::new();
    for i in 0u32..10 {
        m.insert(i, i);
    }
    assert_eq!(m.capacity(), 32);
    m.adapt_to_safe_hashing();
    assert!(m.uses_safe_hashing());
    assert_eq!(m.capacity(), 32);
    for i in 0u32..10 {
        assert_eq!(m.get(&i), Some(&i));
    }
    let mut g = HashMap::new();
    for i in 0u32..20 {
        g.insert(i, i);
    }
    g.adapt_to_safe_hashing();
    assert!(!g.uses_safe_hashing());
    assert_eq!(g.capacity(), 64);
    for i in 0u32..20 {
        assert_eq!(g.get(&i), Some(&i));
    }
}

#[test]
fn load_is_high_from_five_eighths() {
    assert!(load_is_high(20, 32));
    assert!(!load_is_high(19, 32));
    assert!(load_is_high(160, 256));
    assert!(!load_is_high(159, 256));
    assert!(!load_is_high(0, 0));
    assert!(load_is_high(5, 8));
    assert!(!load_is_high(4, 8));
    assert!(!load_is_high(0, 32));
}

#[test]
fn insert_under_a_hash_computed_before() {
    let mut m = HashMap::new();
    m.reserve(2);
    let h = m.make_hash(&3u32);
    assert_eq!(h.inspect(), 3);
    assert_eq!(m.insert_hashed_nocheck(h, 3, 30), None);
    assert_eq!(m.insert_hashed_nocheck(h, 3, 31), Some(30));
    let h = m.make_hash(&4u32);
    assert_eq!(m.specialized_insert_or_replace_with(h, 4, 40), None);
    assert_eq!(m.specialized_insert_or_replace_with(h, 4, 41), Some(40));
    assert_eq!(m.get(&3), Some(&31));
    assert_eq!(m.get(&4), Some(&41));
    assert_eq!(m.len(), 2);
}

#[test]
fn entry_of_an_absent_key_is_vacant() {
    let mut m = HashMap::new();
    match m.entry(5u32) {
        Entry::Vacant(v) => {
            assert_eq!(*v.key(), 5);
            m.insert_vacant(v, 50);
        }
        Entry::Occupied(_) => panic!("the map is empty"),
    }
    assert_eq!(m.get(&5), Some(&50));
    assert_eq!(m.len(), 1);
    assert_eq!(m.capacity(), 32);
}

#[test]
fn entry_of_a_stored_key_is_occupied() {
    let mut m = HashMap::new();
    m.insert(5u32, 50);
    match m.entry(5) {
        Entry::Occupied(mut o) => {
            assert_eq!(*m.get_occupied(&o), 50);
            assert_eq!(m.insert_occupied(&mut o, 51), 50);
            assert_eq!(*m.get_occupied(&o), 51);
            *m.get_occupied_mut(&o) += 1;
            assert_eq!(m.get(&5), Some(&52));
            assert_eq!(m.remove_occupied(o), 52);
        }
        Entry::Vacant(_) => panic!("key 5 is stored"),
    }
    assert_eq!(m.get(&5), None);
    assert!(m.is_empty());
}

#[test]
fn vacant_entry_behind_colliding_keys_takes_a_bucket() {
    let mut m = HashMap::new();
    m.insert(32u32, 1);
    m.insert(64u32, 2);
    m.insert(1u32, 3);
    match m.entry(96) {
        Entry::Vacant(v) => {
            *m.insert_vacant(v, 3) += 1;
        }
        Entry::Occupied(_) => panic!("key 96 is absent"),
    }
    assert_eq!(m.get(&32), Some(&1));
    assert_eq!(m.get(&64), Some(&2));
    assert_eq!(m.get(&1), Some(&3));
    assert_eq!(m.get(&96), Some(&4));
    assert_eq!(m.len(), 4);
}

#[test]
fn iteration_lists_every_entry_once() {
    let mut m = HashMap::new();
    for i in 0u32..50 {
        m.insert(i * 7, i);
    }
    let mut pairs: Vec<(u32, u32)> = m.iter().into_iter().map(|(k, v)| (*k, *v)).collect();
    pairs.sort();
    let expected: Vec<(u32, u32)> = (0u32..50).map(|i| (i * 7, i)).collect();
    assert_eq!(pairs, expected);
    let mut keys = m.keys();
    keys.sort();
    assert_eq!(keys, (0u32..50).map(|i| i * 7).collect::<Vec<u32>>());
    let mut values: Vec<u32> = m.values().into_iter().map(|v| *v).collect();
    values.sort();
    assert_eq!(values, (0u32..50).collect::<Vec<u32>>());
    let again: Vec<u32> = m.iter().into_iter().map(|(k, _)| *k).collect();
    assert_eq!(again, m.keys());
}

#[test]
fn iteration_over_an_empty_map() {
    let m: HashMap<u32, u32> = HashMap::new();
    assert!(m.iter().is_empty());
    assert!(m.keys().is_empty());
    assert!(m.values().is_empty());
}

#[test]
fn a_key_is_listed_once_however_often_it_is_inserted() {
    let mut m = HashMap::new();
    for round in 0..5u32 {
        for k in 0u32..40 {
            m.insert(k * 32, round);
        }
    }
    assert_eq!(m.len(), 40);
    let mut keys = m.keys();
    keys.sort();
    keys.dedup();
    assert_eq!(keys.len(), 40);
    for k in 0u32..40 {
        assert_eq!(m.get(&(k * 32)), Some(&4));
    }
}
