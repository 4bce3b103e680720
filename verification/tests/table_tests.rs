use hashmap2::entry::VacantEntryState;
use hashmap2::internal_entry::InternalEntry;
use hashmap2::resize_policy::{
    raw_capacity, usable_capacity, MAX_LEN, MAX_RAW_CAPACITY, MIN_NONZERO_RAW_CAPACITY,
};
use hashmap2::entry::{OccupiedEntry, VacantEntry};
use hashmap2::robin_hood::{
    insert_or_replace_with, insert_vacant, insert_within, pop_internal, robin_hood, search_hashed,
    Probed,
};
use hashmap2::safe_hash::SafeHash;
use hashmap2::table::{BucketState, FullBucket, RawTable};

fn keys_of(table: &RawTable<u32, u32>) -> Vec<Option<u32>> {
    let mut out = Vec::new();
    for i in 0..table.capacity() {
        match table.peek(&table.bucket_at(i)) {
            BucketState::Empty(at) => {
                assert_eq!(at, i);
                out.push(None);
            }
            BucketState::Full(at, _, k, _) => {
                assert_eq!(at, i);
                out.push(Some(*k));
            }
        }
    }
    out
}

fn put(table: &mut RawTable<u32, u32>, hash: u64, key: u32) {
    let limit = table.capacity();
    match insert_within(table, SafeHash::new(hash), key, key * 10, limit) {
        Probed::Inserted(_) => {}
        _ => panic!("key {} was not new", key),
    }
}

/// Buckets 0 to 5 hold keys 30, 31, 11, 12, 10, 20, displaced by
/// 0, 1, 1, 2, 3, 3.
fn crowded() -> RawTable<u32, u32> {
    let mut t = RawTable::new(8);
    put(&mut t, 1, 10);
    put(&mut t, 1, 11);
    put(&mut t, 1, 12);
    put(&mut t, 2, 20);
    put(&mut t, 8, 30);
    put(&mut t, 16, 31);
    t
}

#[test]
fn new_table_is_empty() {
    let t: RawTable<u32, u32> = RawTable::new(8);
    assert_eq!(t.capacity(), 8);
    assert_eq!(t.size(), 0);
    assert_eq!(keys_of(&t), vec![None; 8]);
    let none: RawTable<u32, u32> = RawTable::new(0);
    assert_eq!(none.capacity(), 0);
    assert_eq!(none.size(), 0);
}

#[test]
fn with_capacity_rounds_up_to_a_power_of_two() {
    let t: RawTable<u32, u32> = RawTable::with_capacity(0);
    assert_eq!(t.capacity(), 0);
    let t: RawTable<u32, u32> = RawTable::with_capacity(1);
    assert_eq!(t.capacity(), 32);
    let t: RawTable<u32, u32> = RawTable::with_capacity(100);
    assert_eq!(t.capacity(), 128);
    assert_eq!(t.size(), 0);
}

#[test]
fn raw_capacity_is_the_smallest_power_of_two_for_the_load() {
    assert_eq!(raw_capacity(0), 0);
    assert_eq!(raw_capacity(1), 32);
    assert_eq!(raw_capacity(29), 32);
    assert_eq!(raw_capacity(30), 64);
    assert_eq!(raw_capacity(58), 64);
    assert_eq!(raw_capacity(59), 64);
    assert_eq!(raw_capacity(60), 128);
    assert_eq!(raw_capacity(1000), 2048);
    assert_eq!(raw_capacity(100_000), 131_072);
    assert_eq!(MIN_NONZERO_RAW_CAPACITY, 32);
}

#[test]
fn usable_capacity_is_ten_elevenths() {
    assert_eq!(usable_capacity(0), 0);
    assert_eq!(usable_capacity(32), 29);
    assert_eq!(usable_capacity(64), 59);
    assert_eq!(usable_capacity(128), 117);
    assert_eq!(usable_capacity(256), 233);
    assert_eq!(usable_capacity(131_072), 119_157);
    assert_eq!(MAX_LEN, usize::MAX / 64);
    assert_eq!(MAX_RAW_CAPACITY, usize::MAX / 16);
    assert!(raw_capacity(MAX_LEN) <= MAX_RAW_CAPACITY);
}

#[test]
fn probe_starts_at_the_hash_modulo_the_capacity() {
    let t: RawTable<u32, u32> = RawTable::new(8);
    assert_eq!(t.probe(SafeHash::new(3)).index(), 3);
    assert_eq!(t.probe(SafeHash::new(11)).index(), 3);
    assert_eq!(t.probe(SafeHash::new(8)).index(), 0);
    assert_eq!(t.probe(SafeHash::new(0)).index(), 0);
    assert_eq!(t.probe(SafeHash::new(u64::MAX)).index(), 7);
    assert_eq!(t.probe(SafeHash::new(3)).walked(), 0);
}

#[test]
fn next_steps_round_the_ring() {
    let t: RawTable<u32, u32> = RawTable::new(4);
    let b = t.bucket_at(2);
    let b = t.next(b);
    assert_eq!((b.index(), b.walked()), (3, 1));
    let b = t.next(b);
    assert_eq!((b.index(), b.walked()), (0, 2));
    let b = t.next(b);
    assert_eq!((b.index(), b.walked()), (1, 3));
}

#[test]
fn put_take_and_replace_change_one_bucket() {
    let mut t: RawTable<u32, u32> = RawTable::new(4);
    t.put(2, SafeHash::new(6), 60, 600);
    assert_eq!(t.size(), 1);
    assert_eq!(keys_of(&t), vec![None, None, Some(60), None]);
    assert_eq!(t.hash_at(2).inspect(), 6);
    assert_eq!(*t.key_at(2), 60);
    assert_eq!(*t.value_at(2), 600);
    assert_eq!(t.distance(2), 0);
    let (h, k, v) = t.replace(2, SafeHash::new(5), 50, 500);
    assert_eq!((h.inspect(), k, v), (6, 60, 600));
    assert_eq!(t.size(), 1);
    assert_eq!(t.distance(2), 1);
    assert_eq!(t.replace_value(2, 501), 500);
    assert_eq!(*t.value_at(2), 501);
    *t.value_mut(2) += 1;
    assert_eq!(*t.value_at(2), 502);
    let (h, k, v) = t.take(2);
    assert_eq!((h.inspect(), k, v), (5, 50, 502));
    assert_eq!(t.size(), 0);
    assert_eq!(keys_of(&t), vec![None; 4]);
}

#[test]
fn distance_wraps_round_the_ring() {
    let mut t: RawTable<u32, u32> = RawTable::new(8);
    put(&mut t, 7, 1);
    put(&mut t, 7, 2);
    put(&mut t, 15, 3);
    assert_eq!(
        keys_of(&t),
        vec![Some(2), Some(3), None, None, None, None, None, Some(1)]
    );
    assert_eq!(t.distance(7), 0);
    assert_eq!(t.distance(0), 1);
    assert_eq!(t.distance(1), 2);
}

#[test]
fn a_more_displaced_entry_takes_the_bucket_of_a_less_displaced_one() {
    let t = crowded();
    assert_eq!(t.size(), 6);
    assert_eq!(
        keys_of(&t),
        vec![Some(30), Some(31), Some(11), Some(12), Some(10), Some(20), None, None]
    );
    let distances: Vec<usize> = (0..6).map(|i| t.distance(i)).collect();
    assert_eq!(distances, vec![0, 1, 1, 2, 3, 3]);
}

#[test]
fn every_full_bucket_follows_a_bucket_displaced_at_most_one_less() {
    let t = crowded();
    let cap = t.capacity();
    for i in 0..cap {
        if let BucketState::Full(_, h, _, _) = t.peek(&t.bucket_at(i)) {
            let ideal = (h.inspect() % cap as u64) as usize;
            let d = t.distance(i);
            assert_eq!((ideal + d) % cap, i);
            if d > 0 {
                let before = (i + cap - 1) % cap;
                match t.peek(&t.bucket_at(before)) {
                    BucketState::Full(..) => assert!(t.distance(before) + 1 >= d),
                    BucketState::Empty(_) => panic!("gap before a displaced entry"),
                }
            }
        }
    }
}

#[test]
fn insert_within_replaces_the_value_of_a_key_it_finds() {
    let mut t = crowded();
    match insert_within(&mut t, SafeHash::new(1), 12, 7, 8) {
        Probed::Replaced(at, old) => {
            assert_eq!(at, 3);
            assert_eq!(old, 120);
        }
        _ => panic!("key 12 is in the table"),
    }
    assert_eq!(t.size(), 6);
    assert_eq!(*t.value_at(3), 7);
    assert_eq!(
        keys_of(&t),
        vec![Some(30), Some(31), Some(11), Some(12), Some(10), Some(20), None, None]
    );
}

#[test]
fn insert_within_gives_up_after_its_limit_and_changes_nothing() {
    let mut t = crowded();
    match insert_within(&mut t, SafeHash::new(0), 99, 1, 2) {
        Probed::TooFar(k, v) => assert_eq!((k, v), (99, 1)),
        _ => panic!("the probe passes buckets 0 and 1"),
    }
    assert_eq!(t.size(), 6);
    assert_eq!(
        keys_of(&t),
        vec![Some(30), Some(31), Some(11), Some(12), Some(10), Some(20), None, None]
    );
    match insert_within(&mut t, SafeHash::new(0), 99, 1, 3) {
        Probed::Inserted(at) => assert_eq!(at, 2),
        _ => panic!("the probe is settled at its third bucket"),
    }
    assert_eq!(
        keys_of(&t),
        vec![Some(30), Some(31), Some(99), Some(12), Some(10), Some(11), Some(20), None]
    );
}

#[test]
fn insert_within_with_no_bucket_allowed_gives_up_at_once() {
    let mut t: RawTable<u32, u32> = RawTable::new(8);
    match insert_within(&mut t, SafeHash::new(0), 1, 1, 0) {
        Probed::TooFar(k, v) => assert_eq!((k, v), (1, 1)),
        _ => panic!("no bucket may be visited"),
    }
    assert_eq!(t.size(), 0);
}

#[test]
fn search_finds_the_bucket_of_a_key() {
    let t = crowded();
    match search_hashed(&t, SafeHash::new(1), &10) {
        InternalEntry::Occupied { elem } => assert_eq!(elem.index(), 4),
        _ => panic!("key 10 is in bucket 4"),
    }
    match search_hashed(&t, SafeHash::new(16), &31) {
        InternalEntry::Occupied { elem } => assert_eq!(elem.index(), 1),
        _ => panic!("key 31 is in bucket 1"),
    }
    assert_eq!(
        search_hashed(&t, SafeHash::new(2), &20)
            .into_occupied_bucket()
            .map(|b| b.index()),
        Some(5)
    );
}

#[test]
fn search_for_an_absent_key_ends_at_an_empty_bucket() {
    let t = crowded();
    match search_hashed(&t, SafeHash::new(6), &60) {
        InternalEntry::Vacant { hash, elem: VacantEntryState::NoElem(b) } => {
            assert_eq!(hash.inspect(), 6);
            assert_eq!(b.index(), 6);
        }
        _ => panic!("bucket 6 is empty"),
    }
    match search_hashed(&t, SafeHash::new(3), &13) {
        InternalEntry::Vacant { elem: VacantEntryState::NoElem(b), .. } => {
            assert_eq!(b.index(), 6)
        }
        _ => panic!("the probe from 3 passes 12, 10, 20 and ends at 6"),
    }
    assert!(search_hashed(&t, SafeHash::new(6), &60)
        .into_occupied_bucket()
        .is_none());
}

#[test]
fn search_for_an_absent_key_ends_at_a_less_displaced_entry() {
    let t = crowded();
    match search_hashed(&t, SafeHash::new(0), &99) {
        InternalEntry::Vacant { elem: VacantEntryState::NeqElem(b, od), .. } => {
            assert_eq!(b.index(), 2);
            assert_eq!(od, 1);
        }
        _ => panic!("key 11 in bucket 2 is displaced by 1, the probe by 2"),
    }
}

#[test]
fn search_in_a_table_without_buckets() {
    let t: RawTable<u32, u32> = RawTable::new(0);
    assert!(matches!(
        search_hashed(&t, SafeHash::new(1), &1),
        InternalEntry::TableIsEmpty
    ));
    assert!(search_hashed(&t, SafeHash::new(1), &1)
        .into_occupied_bucket()
        .is_none());
    assert!(search_hashed(&t, SafeHash::new(1), &1).into_entry(1u32).is_none());
}

#[test]
fn robin_hood_moves_the_entries_put_out_onward() {
    let mut t = crowded();
    let at = robin_hood(&mut t, FullBucket::new(2), 1, SafeHash::new(0), 99, 990);
    assert_eq!(at, 2);
    assert_eq!(t.size(), 7);
    assert_eq!(
        keys_of(&t),
        vec![Some(30), Some(31), Some(99), Some(12), Some(10), Some(11), Some(20), None]
    );
    let distances: Vec<usize> = (0..7).map(|i| t.distance(i)).collect();
    assert_eq!(distances, vec![0, 1, 2, 2, 3, 4, 4]);
    assert_eq!(*t.value_at(2), 990);
}

#[test]
fn insert_vacant_fills_the_place_a_search_found() {
    let mut t = crowded();
    let found = search_hashed(&t, SafeHash::new(6), &60);
    match found {
        InternalEntry::Vacant { hash, elem } => {
            assert_eq!(insert_vacant(&mut t, elem, hash, 60, 600), 6);
        }
        _ => panic!("key 60 is absent"),
    }
    assert_eq!(
        keys_of(&t),
        vec![Some(30), Some(31), Some(11), Some(12), Some(10), Some(20), Some(60), None]
    );
    assert_eq!(t.size(), 7);
}

#[test]
fn removal_shifts_the_following_entries_back() {
    let mut t = crowded();
    let (k, v) = pop_internal(&mut t, FullBucket::new(1));
    assert_eq!((k, v), (31, 310));
    assert_eq!(t.size(), 5);
    assert_eq!(
        keys_of(&t),
        vec![Some(30), Some(11), Some(12), Some(10), Some(20), None, None, None]
    );
    let distances: Vec<usize> = (0..5).map(|i| t.distance(i)).collect();
    assert_eq!(distances, vec![0, 0, 1, 2, 2]);
}

#[test]
fn removal_stops_at_an_entry_in_its_ideal_bucket() {
    let mut t: RawTable<u32, u32> = RawTable::new(8);
    put(&mut t, 0, 1);
    put(&mut t, 0, 2);
    put(&mut t, 2, 3);
    put(&mut t, 2, 4);
    assert_eq!(
        keys_of(&t),
        vec![Some(1), Some(2), Some(3), Some(4), None, None, None, None]
    );
    let (k, _) = pop_internal(&mut t, FullBucket::new(0));
    assert_eq!(k, 1);
    assert_eq!(
        keys_of(&t),
        vec![Some(2), None, Some(3), Some(4), None, None, None, None]
    );
}

#[test]
fn removal_shifts_round_the_end_of_the_array() {
    let mut t: RawTable<u32, u32> = RawTable::new(4);
    put(&mut t, 3, 1);
    put(&mut t, 3, 2);
    put(&mut t, 3, 3);
    assert_eq!(keys_of(&t), vec![Some(2), Some(3), None, Some(1)]);
    let (k, _) = pop_internal(&mut t, FullBucket::new(3));
    assert_eq!(k, 1);
    assert_eq!(keys_of(&t), vec![Some(3), None, None, Some(2)]);
}

#[test]
fn insert_or_replace_with_has_no_limit() {
    let mut t = crowded();
    assert_eq!(
        insert_or_replace_with(&mut t, SafeHash::new(0), 99, 1),
        (2, None)
    );
    assert_eq!(
        insert_or_replace_with(&mut t, SafeHash::new(0), 99, 2),
        (2, Some(1))
    );
    assert_eq!(
        insert_or_replace_with(&mut t, SafeHash::new(2), 20, 3),
        (6, Some(200))
    );
    assert_eq!(t.size(), 7);
    assert_eq!(
        keys_of(&t),
        vec![Some(30), Some(31), Some(99), Some(12), Some(10), Some(11), Some(20), None]
    );
}

#[test]
fn occupied_entry_reads_and_changes_its_bucket() {
    let mut t = crowded();
    let found = search_hashed(&t, SafeHash::new(1), &12).into_entry(12);
    let mut o: OccupiedEntry<u32> = match found {
        Some(hashmap2::entry::Entry::Occupied(o)) => o,
        _ => panic!("key 12 is in the table"),
    };
    assert_eq!(o.key, Some(12));
    assert_eq!(o.elem.index(), 3);
    assert_eq!(*o.key(&t), 12);
    assert_eq!(*o.get(&t), 120);
    assert_eq!(o.insert(&mut t, 121), 120);
    *o.get_mut(&mut t) += 1;
    assert_eq!(*o.get(&t), 122);
    assert_eq!(o.remove_entry(&mut t), (12, 122));
    assert_eq!(
        keys_of(&t),
        vec![Some(30), Some(31), Some(11), Some(10), Some(20), None, None, None]
    );
}

#[test]
fn occupied_entry_remove_hands_out_the_value() {
    let mut t = crowded();
    let o = match search_hashed(&t, SafeHash::new(2), &20).into_entry(20) {
        Some(hashmap2::entry::Entry::Occupied(o)) => o,
        _ => panic!("key 20 is in the table"),
    };
    assert_eq!(o.remove(&mut t), 200);
    assert_eq!(t.size(), 5);
}

#[test]
fn vacant_entry_inserts_where_the_search_ended() {
    let mut t = crowded();
    let v: VacantEntry<u32> = match search_hashed(&t, SafeHash::new(0), &99).into_entry(99) {
        Some(hashmap2::entry::Entry::Vacant(v)) => v,
        _ => panic!("key 99 is absent"),
    };
    assert_eq!(*v.key(), 99);
    assert_eq!(v.hash.inspect(), 0x8000_0000_0000_0000);
    *v.insert(&mut t, 5) += 1;
    assert_eq!(*t.value_at(2), 6);
    assert_eq!(
        keys_of(&t),
        vec![Some(30), Some(31), Some(99), Some(12), Some(10), Some(11), Some(20), None]
    );
    let w = match search_hashed(&t, SafeHash::new(7), &70).into_entry(70) {
        Some(hashmap2::entry::Entry::Vacant(w)) => w,
        _ => panic!("key 70 is absent"),
    };
    assert_eq!(w.into_key(), 70);
}
