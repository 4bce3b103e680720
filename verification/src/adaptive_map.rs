//! The map: a table, the hashing state it hashes under, the load-factor
//! discipline, and the policy that answers a long probe in fast mode by
//! growing the table or by switching the map to safe hashing.
use vstd::prelude::*;
use crate::adaptive_hashing::AdaptiveState;
use crate::entry::{Entry, OccupiedEntry, VacantEntry};
use crate::internal_entry::InternalEntry;
use crate::key::{Key, hash_of, make_hash};
use crate::model::{
    Slot, as_map, blocked, count_full, distinct_keys, empty_slots, has_key, hash_agrees, hash_map,
    holds_key, robin_hood_ordered,
};
use crate::model::{
    lemma_empty_table, lemma_has_empty, lemma_map_len, lemma_map_take, lemma_map_value,
    lemma_not_blocked,
};
use crate::robin_hood::{
    Probed, insert_or_replace_with, insert_within, pop_internal, search_hashed, table_ok,
};
use crate::safe_hash::SafeHash;
use crate::resize_policy::{
    MAX_LEN, MAX_RAW_CAPACITY, MIN_NONZERO_RAW_CAPACITY, is_raw_capacity_for, raw_capacity,
    spec_usable_capacity, usable_capacity,
};
use crate::table::{RawTable, is_pow2};

verus! {

/// Beyond this many buckets passed, an insertion in fast mode grows the
/// table or switches the map to safe hashing.
pub const DISPLACEMENT_THRESHOLD: usize = 128;

/// A long probe at a load factor of at least this many eighths grows the
/// table; below it, the map switches to safe hashing.
pub const LOAD_FACTOR_EIGHTHS: usize = 5;

/// The load factor is at least five eighths. A table without buckets has
/// no load factor, and it is not high.
pub open spec fn spec_load_is_high(len: nat, raw_cap: nat) -> bool {
    raw_cap > 0 && len * 8 >= raw_cap * LOAD_FACTOR_EIGHTHS
}

/// Whether a long probe is answered by growing the table: the load factor
/// is at least five eighths.
pub fn load_is_high(len: usize, raw_cap: usize) -> (b: bool)
    requires
        len <= raw_cap,
        raw_cap <= MAX_RAW_CAPACITY,
    ensures
        b == spec_load_is_high(len as nat, raw_cap as nat),
{
    raw_cap > 0 && len * 8 >= raw_cap * LOAD_FACTOR_EIGHTHS
}

/// Every stored hash is the hash of its key under the state with `keys`.
pub open spec fn hashed<K: Key, V>(s: Seq<Option<Slot<K, V>>>, keys: Option<(u64, u64)>) -> bool {
    forall|k: K| #[trigger] hash_map(s).dom().contains(k) ==> hash_map(s)[k] == hash_of(keys, k)
}

/// In a table hashed under `keys`, any bucket that holds `k` stores the
/// hash of `k`.
pub proof fn lemma_hashed_agrees<K: Key, V>(
    s: Seq<Option<Slot<K, V>>>,
    keys: Option<(u64, u64)>,
    k: K,
)
    requires
        distinct_keys(s),
        hashed(s, keys),
    ensures
        hash_agrees(s, k, hash_of(keys, k)),
{
    assert forall|i: int| #[trigger] holds_key(s, i, k) implies s[i].unwrap().hash == hash_of(
        keys,
        k,
    ) by {
        lemma_map_value(s, i);
        assert(hash_map(s).dom().contains(k));
    }
}

/// A map from keys to values, stored in a Robin Hood table and hashed
/// under a state that starts fast, for the key types that allow it, and
/// may switch to safe.
pub struct HashMap<K: Key, V> {
    hash_state: AdaptiveState,
    table: RawTable<K, V>,
}

impl<K: Key, V> View for HashMap<K, V> {
    type V = Map<K, V>;

    closed spec fn view(&self) -> Map<K, V> {
        as_map(self.table@)
    }
}

impl<K: Key, V> HashMap<K, V> {
    /// The buckets of the table.
    pub closed spec fn slots(&self) -> Seq<Option<Slot<K, V>>> {
        self.table@
    }

    /// The keys of the hashing state: `None` in fast mode.
    pub closed spec fn hash_keys(&self) -> Option<(u64, u64)> {
        self.hash_state@
    }

    /// The number of entries.
    pub closed spec fn spec_len(&self) -> nat {
        self.table.spec_size()
    }

    /// The number of buckets.
    pub closed spec fn spec_capacity(&self) -> nat {
        self.table.spec_capacity()
    }

    /// The map's invariant: the table is consistent, Robin Hood ordered
    /// and holds no key twice; each hash stored is the hash of its key
    /// under the map's state; the load-factor discipline holds.
    pub closed spec fn wf(&self) -> bool {
        &&& table_ok(self.table)
        &&& hashed(self.table@, self.hash_state@)
        &&& self.table.spec_size() <= spec_usable_capacity(self.table.spec_capacity())
        &&& self.table.spec_capacity() <= MAX_RAW_CAPACITY
        &&& (self.table.spec_capacity() == 0 || self.table.spec_capacity()
            >= MIN_NONZERO_RAW_CAPACITY)
    }

    /// What the invariant says of the buckets, the length and the capacity.
    pub proof fn lemma_wf(&self)
        requires
            self.wf(),
        ensures
            self@ == as_map(self.slots()),
            self.slots().len() == self.spec_capacity(),
            robin_hood_ordered(self.slots()),
            distinct_keys(self.slots()),
            hashed(self.slots(), self.hash_keys()),
            self.spec_len() == count_full(self.slots()),
            self@.dom().finite(),
            self@.len() == self.spec_len(),
            self.spec_len() <= spec_usable_capacity(self.spec_capacity()),
            self.spec_capacity() == 0 || is_pow2(self.spec_capacity() as int),
            self.spec_capacity() == 0 || self.spec_capacity() >= MIN_NONZERO_RAW_CAPACITY,
            self.spec_capacity() <= MAX_RAW_CAPACITY,
            self.spec_capacity() > 0 ==> self.spec_len() < self.spec_capacity(),
    {
        self.table.lemma_wf();
        lemma_map_len(self.table@);
    }

    /// An empty map without buckets, in the given state.
    pub fn with_hash_state(hash_state: AdaptiveState) -> (m: HashMap<K, V>)
        ensures
            m.wf(),
            m@ == Map::<K, V>::empty(),
            m.spec_len() == 0,
            m.spec_capacity() == 0,
            m.hash_keys() == hash_state@,
    {
        proof {
            lemma_empty_table::<K, V>(0);
        }
        HashMap { hash_state, table: RawTable::new(0) }
    }

    /// An empty map with room for `capacity` entries, in the given state.
    pub fn with_capacity_and_hash_state(capacity: usize, hash_state: AdaptiveState) -> (m: HashMap<
        K,
        V,
    >)
        requires
            capacity <= MAX_LEN,
        ensures
            m.wf(),
            m@ == Map::<K, V>::empty(),
            m.spec_len() == 0,
            is_raw_capacity_for(capacity as nat, m.spec_capacity()),
            m.hash_keys() == hash_state@,
    {
        let raw_cap = raw_capacity(capacity);
        proof {
            lemma_empty_table::<K, V>(raw_cap as nat);
        }
        HashMap { hash_state, table: RawTable::new(raw_cap) }
    }

    /// An empty map without buckets. A map keyed by a specialized type
    /// starts in fast mode, any other in safe mode.
    pub fn new() -> (m: HashMap<K, V>)
        ensures
            m.wf(),
            m@ == Map::<K, V>::empty(),
            m.spec_len() == 0,
            m.spec_capacity() == 0,
            m.hash_keys().is_none() == K::specialized(),
    {
        if K::is_specialized() {
            HashMap::with_hash_state(AdaptiveState::new_fast())
        } else {
            HashMap::with_hash_state(AdaptiveState::new())
        }
    }

    /// An empty map with room for `capacity` entries: the smallest power of
    /// two of buckets that holds them at the load factor, none for none.
    pub fn with_capacity(capacity: usize) -> (m: HashMap<K, V>)
        requires
            capacity <= MAX_LEN,
        ensures
            m.wf(),
            m@ == Map::<K, V>::empty(),
            m.spec_len() == 0,
            is_raw_capacity_for(capacity as nat, m.spec_capacity()),
            capacity <= spec_usable_capacity(m.spec_capacity()),
            m.hash_keys().is_none() == K::specialized(),
    {
        if K::is_specialized() {
            HashMap::with_capacity_and_hash_state(capacity, AdaptiveState::new_fast())
        } else {
            HashMap::with_capacity_and_hash_state(capacity, AdaptiveState::new())
        }
    }

    /// The number of entries.
    pub fn len(&self) -> (n: usize)
        requires
            self.wf(),
        ensures
            n == self.spec_len(),
            n == self@.len(),
    {
        proof {
            self.lemma_wf();
        }
        self.table.size()
    }

    /// Whether the map holds no entry.
    pub fn is_empty(&self) -> (b: bool)
        requires
            self.wf(),
        ensures
            b == (self@.len() == 0),
    {
        self.len() == 0
    }

    /// The number of buckets: zero or a power of two.
    pub fn capacity(&self) -> (c: usize)
        ensures
            c == self.spec_capacity(),
    {
        self.table.capacity()
    }

    /// Whether the map has switched to safe hashing, or began with it.
    pub fn uses_safe_hashing(&self) -> (b: bool)
        ensures
            b == self.hash_keys().is_some(),
    {
        self.hash_state.uses_safe_hashing()
    }

    /// The hash of a key under the map's state.
    pub fn make_hash(&self, k: &K) -> (h: SafeHash)
        ensures
            h.wf(),
            h.value() == hash_of(self.hash_keys(), *k),
    {
        make_hash(&self.hash_state, k)
    }

    /// The value stored with a key, if any.
    pub fn get(&self, k: &K) -> (r: Option<&V>)
        requires
            self.wf(),
        ensures
            r == (if self@.dom().contains(*k) {
                Some(&self@[*k])
            } else {
                None
            }),
    {
        let hash = self.make_hash(k);
        proof {
            lemma_hashed_agrees(self.table@, self.hash_state@, *k);
        }
        match search_hashed(&self.table, hash, k).into_occupied_bucket() {
            Some(bucket) => {
                proof {
                    self.table.lemma_wf();
                    lemma_map_value(self.table@, bucket.spec_index());
                }
                Some(self.table.value_at(bucket.index()))
            },
            None => None,
        }
    }

    /// The value stored with a key, if any, to be changed in place.
    pub fn get_mut(&mut self, k: &K) -> (r: Option<&mut V>)
        requires
            old(self).wf(),
        ensures
            match r {
                Some(v) => {
                    &&& old(self)@.dom().contains(*k)
                    &&& *v == old(self)@[*k]
                    &&& final(self).wf()
                    &&& final(self)@ == old(self)@.insert(*k, *final(v))
                    &&& final(self).spec_len() == old(self).spec_len()
                    &&& final(self).spec_capacity() == old(self).spec_capacity()
                    &&& final(self).hash_keys() == old(self).hash_keys()
                },
                None => !old(self)@.dom().contains(*k) && *final(self) == *old(self),
            },
    {
        let hash = self.make_hash(k);
        let ghost s = self.table@;
        proof {
            self.lemma_wf();
            self.table.lemma_wf();
            lemma_hashed_agrees(self.table@, self.hash_state@, *k);
        }
        match search_hashed(&self.table, hash, k).into_occupied_bucket() {
            Some(bucket) => {
                let v = self.table.value_mut(bucket.index());
                proof {
                    let at = bucket.spec_index();
                    let fresh = Slot {
                        hash: s[at].unwrap().hash,
                        key: s[at].unwrap().key,
                        value: *final(v),
                    };
                    lemma_map_value(s, at);
                    crate::model::lemma_same_hash(s, at, fresh);
                    crate::model::lemma_map_replace(s, at, fresh);
                    assert(as_map(s).remove(*k).insert(*k, fresh.value) =~= as_map(s).insert(
                        *k,
                        fresh.value,
                    ));
                    assert(hash_map(s).remove(*k).insert(*k, fresh.hash) =~= hash_map(s));
                }
                Some(v)
            },
            None => {
                proof {
                    assert(!as_map(s).dom().contains(*k));
                }
                None
            },
        }
    }

    /// Whether a key is stored.
    pub fn contains_key(&self, k: &K) -> (b: bool)
        requires
            self.wf(),
        ensures
            b == self@.dom().contains(*k),
    {
        self.get(k).is_some()
    }

    /// Moves every entry into a fresh table of `new_raw_cap` buckets, each
    /// under its hash in the map's present state.
    fn rebuild(&mut self, new_raw_cap: usize)
        requires
            table_ok(old(self).table),
            old(self).table.spec_size() <= spec_usable_capacity(new_raw_cap as nat),
            new_raw_cap <= MAX_RAW_CAPACITY,
            new_raw_cap == 0 || (is_pow2(new_raw_cap as int) && new_raw_cap
                >= MIN_NONZERO_RAW_CAPACITY),
        ensures
            final(self).wf(),
            final(self)@ == old(self)@,
            final(self).spec_len() == old(self).spec_len(),
            final(self).spec_capacity() == new_raw_cap,
            final(self).hash_keys() == old(self).hash_keys(),
    {
        let ghost m0 = as_map(self.table@);
        let ghost n0 = self.table.spec_size();
        let ghost keys = self.hash_state@;
        let mut old_table: RawTable<K, V> = RawTable::new(new_raw_cap);
        core::mem::swap(&mut self.table, &mut old_table);
        let old_cap = old_table.capacity();
        proof {
            lemma_empty_table::<K, V>(new_raw_cap as nat);
            old_table.lemma_wf();
            assert(m0.union_prefer_right(Map::<K, V>::empty()) =~= m0);
            assert(Map::<K, V>::empty().union_prefer_right(m0) =~= m0);
        }
        let mut i: usize = 0;
        while i < old_cap
            invariant
                i <= old_cap,
                old_table.wf(),
                distinct_keys(old_table@),
                old_table.spec_capacity() == old_cap,
                old_table@.len() == old_cap,
                forall|j: int| 0 <= j < i ==> (#[trigger] old_table@[j]) is None,
                table_ok(self.table),
                self.table.spec_capacity() == new_raw_cap,
                self.hash_state@ == keys,
                hashed(self.table@, keys),
                self.table.spec_size() + old_table.spec_size() == n0,
                n0 <= spec_usable_capacity(new_raw_cap as nat),
                new_raw_cap <= MAX_RAW_CAPACITY,
                new_raw_cap == 0 || (is_pow2(new_raw_cap as int) && new_raw_cap
                    >= MIN_NONZERO_RAW_CAPACITY),
                as_map(self.table@).union_prefer_right(as_map(old_table@)) == m0,
                as_map(self.table@).dom().disjoint(as_map(old_table@).dom()),
            decreases old_cap - i,
        {
            let bucket = old_table.bucket_at(i);
            let full = match old_table.peek(&bucket) {
                crate::table::BucketState::Empty(_) => false,
                crate::table::BucketState::Full(_, _, _, _) => true,
            };
            if full {
                let ghost so = old_table@;
                let ghost sn = self.table@;
                proof {
                    old_table.lemma_wf();
                    self.table.lemma_wf();
                    crate::model::lemma_count_bound(so);
                    lemma_map_value(so, i as int);
                    lemma_map_take(so, i as int);
                }
                let (_, k, v) = old_table.take(i);
                let hash = make_hash(&self.hash_state, &k);
                proof {
                    assert(as_map(so).dom().contains(k));
                    assert(!as_map(sn).dom().contains(k));
                    assert(!has_key(sn, k));
                    assert(hash_agrees(sn, k, hash.value()));
                    let e = lemma_has_empty(sn);
                    lemma_not_blocked(sn, hash.value(), k, new_raw_cap as int, e);
                }
                match insert_within(&mut self.table, hash, k, v, new_raw_cap) {
                    Probed::Inserted(_) => {},
                    Probed::Replaced(_, _) => {
                        vstd::pervasive::unreached::<()>();
                    },
                    Probed::TooFar(_, _) => {
                        vstd::pervasive::unreached::<()>();
                    },
                }
                proof {
                    assert(as_map(self.table@).union_prefer_right(as_map(old_table@)) =~= m0);
                    assert(as_map(self.table@).dom().disjoint(as_map(old_table@).dom()));
                }
            }
            i += 1;
        }
        proof {
            assert forall|k: K| !as_map(old_table@).dom().contains(k) by {
                if has_key(old_table@, k) {
                    let j = choose|j: int| holds_key(old_table@, j, k);
                    assert(old_table@[j] is None);
                }
            }
            assert(as_map(self.table@) =~= m0);
            crate::model::lemma_count_bound(old_table@);
            old_table.lemma_wf();
            crate::model::lemma_has_full_contra(old_table@);
        }
    }

    /// Gives the table `new_raw_cap` buckets and reinserts every entry.
    /// The map stays what it is.
    pub fn resize(&mut self, new_raw_cap: usize)
        requires
            old(self).wf(),
            old(self).spec_len() <= spec_usable_capacity(new_raw_cap as nat),
            new_raw_cap <= MAX_RAW_CAPACITY,
            new_raw_cap == 0 || (is_pow2(new_raw_cap as int) && new_raw_cap
                >= MIN_NONZERO_RAW_CAPACITY),
        ensures
            final(self).wf(),
            final(self)@ == old(self)@,
            final(self).spec_len() == old(self).spec_len(),
            final(self).spec_capacity() == new_raw_cap,
            final(self).hash_keys() == old(self).hash_keys(),
    {
        self.rebuild(new_raw_cap)
    }

    /// Makes room for `additional` more entries: where the load factor
    /// would not allow them, the table is given the capacity for the
    /// entries it holds and those to come.
    pub fn reserve(&mut self, additional: usize)
        requires
            old(self).wf(),
            old(self).spec_len() + additional <= MAX_LEN,
        ensures
            final(self).wf(),
            final(self)@ == old(self)@,
            final(self).spec_len() == old(self).spec_len(),
            final(self).hash_keys() == old(self).hash_keys(),
            final(self).spec_len() + additional <= spec_usable_capacity(final(self).spec_capacity()),
            old(self).spec_len() + additional <= spec_usable_capacity(old(self).spec_capacity())
                ==> final(self).slots() == old(self).slots() && final(self).spec_capacity() == old(
                self,
            ).spec_capacity(),
            old(self).spec_len() + additional > spec_usable_capacity(old(self).spec_capacity())
                ==> is_raw_capacity_for(
                (old(self).spec_len() + additional) as nat,
                final(self).spec_capacity(),
            ),
    {
        proof {
            self.lemma_wf();
        }
        let remaining = usable_capacity(self.table.capacity()) - self.table.size();
        if remaining < additional {
            let min_cap = self.table.size() + additional;
            let raw_cap = raw_capacity(min_cap);
            self.resize(raw_cap);
        }
    }

    /// Answers a probe that went too far. At a load factor of five eighths
    /// or more the table is doubled; below it the map switches to safe
    /// hashing and every entry is hashed anew into a table of the same
    /// capacity. The map stays what it is.
    pub fn adapt_to_safe_hashing(&mut self)
        requires
            old(self).wf(),
            old(self).spec_len() <= MAX_LEN,
        ensures
            final(self).wf(),
            final(self)@ == old(self)@,
            final(self).spec_len() == old(self).spec_len(),
            spec_load_is_high(old(self).spec_len(), old(self).spec_capacity()) ==> {
                &&& final(self).spec_capacity() == 2 * old(self).spec_capacity()
                &&& final(self).hash_keys() == old(self).hash_keys()
            },
            !spec_load_is_high(old(self).spec_len(), old(self).spec_capacity()) ==> {
                &&& final(self).spec_capacity() == old(self).spec_capacity()
                &&& final(self).hash_keys().is_some()
                &&& old(self).hash_keys().is_some() ==> final(self).hash_keys() == old(
                    self,
                ).hash_keys()
            },
    {
        proof {
            self.lemma_wf();
        }
        let capacity = self.table.capacity();
        if load_is_high(self.table.size(), capacity) {
            proof {
                assert(is_pow2(2 * capacity as int)) by {
                    reveal_with_fuel(is_pow2, 2);
                }
            }
            self.resize(capacity * 2);
        } else {
            self.hash_state.switch_to_safe_hashing();
            self.rebuild(capacity);
        }
    }

    /// Inserts under a hash already computed, with no bound on the probe.
    pub fn insert_hashed_nocheck(&mut self, hash: SafeHash, k: K, v: V) -> (r: Option<V>)
        requires
            old(self).wf(),
            old(self).spec_len() + 1 <= spec_usable_capacity(old(self).spec_capacity()),
            hash.wf(),
            hash.value() == hash_of(old(self).hash_keys(), k),
        ensures
            final(self).wf(),
            final(self)@ == old(self)@.insert(k, v),
            final(self).spec_len() == old(self).spec_len() + (if old(self)@.dom().contains(k) {
                0nat
            } else {
                1nat
            }),
            r == (if old(self)@.dom().contains(k) {
                Some(old(self)@[k])
            } else {
                None
            }),
            final(self).spec_capacity() == old(self).spec_capacity(),
            final(self).hash_keys() == old(self).hash_keys(),
            final(self).slots() == Self::slots_with(old(self).slots(), hash.value(), k, v),
    {
        proof {
            self.lemma_wf();
            lemma_hashed_agrees(self.table@, self.hash_state@, k);
            if has_key(self.table@, k) {
                lemma_map_value(self.table@, crate::model::index_of(self.table@, k));
            }
        }
        let (_, old_value) = insert_or_replace_with(&mut self.table, hash, k, v);
        old_value
    }

    /// The buckets after `(k, v)` has been put into buckets `s` under hash
    /// `h` with no adaptation: the value of a stored key is replaced where
    /// it is; a new entry settles from the ideal bucket of its hash.
    pub open spec fn slots_with(s: Seq<Option<Slot<K, V>>>, h: u64, k: K, v: V) -> Seq<
        Option<Slot<K, V>>,
    > {
        let fresh = Slot { hash: h, key: k, value: v };
        if has_key(s, k) {
            s.update(crate::model::index_of(s, k), Some(fresh))
        } else {
            crate::model::settle(s, crate::model::ideal_index(h, s.len() as int), fresh, s.len())
        }
    }

    /// How far the entry of a stored key sits from its ideal bucket.
    pub closed spec fn displacement_of(&self, k: K) -> int {
        crate::model::displacement(self.table@, crate::model::index_of(self.table@, k))
    }

    /// How many adaptations a map may still go through: none in safe mode,
    /// one in fast mode at a low load factor, two at a high one.
    pub closed spec fn adaptations_left(&self) -> nat {
        if self.hash_state@.is_some() {
            0
        } else if !spec_load_is_high(self.table.spec_size(), self.table.spec_capacity()) {
            1
        } else {
            2
        }
    }

    /// Inserts `(k, v)`; hands out the value that was stored with `k`, if
    /// any. A map in safe mode stays in safe mode, under the same keys.
    pub fn insert(&mut self, k: K, v: V) -> (r: Option<V>)
        requires
            old(self).wf(),
            old(self).spec_len() < MAX_LEN,
        ensures
            final(self).wf(),
            final(self)@ == old(self)@.insert(k, v),
            final(self).spec_len() == old(self).spec_len() + (if old(self)@.dom().contains(k) {
                0nat
            } else {
                1nat
            }),
            r == (if old(self)@.dom().contains(k) {
                Some(old(self)@[k])
            } else {
                None
            }),
            old(self).hash_keys().is_some() ==> final(self).hash_keys() == old(self).hash_keys(),
            final(self).hash_keys().is_none() ==> final(self).displacement_of(k)
                < DISPLACEMENT_THRESHOLD,
            old(self).spec_len() + 1 <= spec_usable_capacity(old(self).spec_capacity()) && (old(
                self,
            ).hash_keys().is_some() || !blocked(
                old(self).slots(),
                hash_of(old(self).hash_keys(), k),
                k,
                DISPLACEMENT_THRESHOLD as int,
            )) ==> {
                &&& final(self).spec_capacity() == old(self).spec_capacity()
                &&& final(self).hash_keys() == old(self).hash_keys()
                &&& final(self).slots() == Self::slots_with(
                    old(self).slots(),
                    hash_of(old(self).hash_keys(), k),
                    k,
                    v,
                )
            },
            old(self).spec_len() + 1 <= spec_usable_capacity(old(self).spec_capacity()) && old(
                self,
            ).hash_keys().is_none() && blocked(
                old(self).slots(),
                hash_of(old(self).hash_keys(), k),
                k,
                DISPLACEMENT_THRESHOLD as int,
            ) ==> {
                if spec_load_is_high(old(self).spec_len(), old(self).spec_capacity()) {
                    final(self).spec_capacity() == 2 * old(self).spec_capacity()
                } else {
                    &&& final(self).spec_capacity() == old(self).spec_capacity()
                    &&& final(self).hash_keys().is_some()
                }
            },
    {
        let hash = self.make_hash(&k);
        self.reserve(1);
        self.specialized_insert_or_replace_with(hash, k, v)
    }

    /// Removes a key; hands out the value that was stored with it, if any.
    pub fn remove(&mut self, k: &K) -> (r: Option<V>)
        requires
            old(self).wf(),
        ensures
            final(self).wf(),
            final(self)@ == old(self)@.remove(*k),
            old(self).spec_len() == final(self).spec_len() + (if old(self)@.dom().contains(*k) {
                1nat
            } else {
                0nat
            }),
            if old(self)@.dom().contains(*k) {
                crate::model::shifted_back(
                    old(self).slots(),
                    final(self).slots(),
                    crate::model::index_of(old(self).slots(), *k),
                )
            } else {
                final(self).slots() == old(self).slots()
            },
            r == (if old(self)@.dom().contains(*k) {
                Some(old(self)@[*k])
            } else {
                None
            }),
            final(self).spec_capacity() == old(self).spec_capacity(),
            final(self).hash_keys() == old(self).hash_keys(),
    {
        let hash = self.make_hash(k);
        let ghost s = self.table@;
        proof {
            self.lemma_wf();
            lemma_hashed_agrees(self.table@, self.hash_state@, *k);
        }
        match search_hashed(&self.table, hash, k).into_occupied_bucket() {
            Some(bucket) => {
                proof {
                    lemma_map_value(s, bucket.spec_index());
                }
                let (_, value) = pop_internal(&mut self.table, bucket);
                Some(value)
            },
            None => {
                proof {
                    assert(!as_map(s).dom().contains(*k));
                    assert(as_map(s).remove(*k) =~= as_map(s));
                }
                None
            },
        }
    }

    /// Removes every entry and keeps the capacity.
    pub fn clear(&mut self)
        requires
            old(self).wf(),
        ensures
            final(self).wf(),
            final(self)@ == Map::<K, V>::empty(),
            final(self).spec_len() == 0,
            final(self).spec_capacity() == old(self).spec_capacity(),
            final(self).hash_keys() == old(self).hash_keys(),
            final(self).slots() == empty_slots::<K, V>(old(self).spec_capacity()),
    {
        proof {
            self.lemma_wf();
            lemma_empty_table::<K, V>(self.table.spec_capacity());
        }
        let capacity = self.table.capacity();
        self.table = RawTable::new(capacity);
    }

    /// `ks` lists every key of map `m` once.
    pub open spec fn lists_keys(m: Map<K, V>, ks: Seq<K>) -> bool {
        &&& ks.len() == m.len()
        &&& forall|j: int| 0 <= j < ks.len() ==> m.dom().contains(#[trigger] ks[j])
        &&& forall|j1: int, j2: int|
            0 <= j1 < ks.len() && 0 <= j2 < ks.len() && #[trigger] ks[j1] == #[trigger] ks[j2]
                ==> j1 == j2
        &&& forall|k: K| #[trigger] m.dom().contains(k) ==> exists|j: int| 0 <= j < ks.len() && ks[j] == k
    }

    /// Every entry, once, in the order of the buckets.
    pub fn iter(&self) -> (r: Vec<(&K, &V)>)
        requires
            self.wf(),
        ensures
            Self::lists_keys(self@, Seq::new(r@.len(), |j: int| *r@[j].0)),
            forall|j: int| 0 <= j < r@.len() ==> *(#[trigger] r@[j]).1 == self@[*r@[j].0],
    {
        let ghost s = self.table@;
        let capacity = self.table.capacity();
        let mut out: Vec<(&K, &V)> = Vec::new();
        let ghost mut at: Seq<int> = Seq::empty();
        let mut i: usize = 0;
        proof {
            self.lemma_wf();
            self.table.lemma_wf();
            assert(s.take(0) =~= Seq::empty());
        }
        while i < capacity
            invariant
                self.wf(),
                s == self.table@,
                capacity == s.len(),
                capacity == self.table.spec_capacity(),
                self.table.wf(),
                distinct_keys(s),
                i <= capacity,
                out@.len() == at.len(),
                at.len() == count_full(s.take(i as int)),
                forall|j: int|
                    0 <= j < at.len() ==> 0 <= #[trigger] at[j] < i && s[at[j]] is Some
                        && *out@[j].0 == s[at[j]].unwrap().key && *out@[j].1
                        == s[at[j]].unwrap().value,
                forall|j1: int, j2: int|
                    0 <= j1 < j2 < at.len() ==> #[trigger] at[j1] < #[trigger] at[j2],
                forall|b: int|
                    0 <= b < i && (#[trigger] s[b]) is Some ==> exists|j: int|
                        0 <= j < at.len() && at[j] == b,
            decreases capacity - i,
        {
            let bucket = self.table.bucket_at(i);
            proof {
                assert(s.take(i as int + 1).drop_last() =~= s.take(i as int));
            }
            match self.table.peek(&bucket) {
                crate::table::BucketState::Empty(_) => {},
                crate::table::BucketState::Full(_, _, k, v) => {
                    let ghost before = at;
                    out.push((k, v));
                    proof {
                        at = at.push(i as int);
                        assert forall|b: int| 0 <= b < i + 1 && (#[trigger] s[b]) is Some implies exists|
                            j: int,
                        | 0 <= j < at.len() && at[j] == b by {
                            if b < i {
                                let j = choose|j: int| 0 <= j < before.len() && before[j] == b;
                                assert(at[j] == b);
                            } else {
                                assert(at[before.len() as int] == b);
                            }
                        }
                    }
                },
            }
            i += 1;
        }
        proof {
            assert(s.take(capacity as int) =~= s);
            let ks = Seq::new(out@.len(), |j: int| *out@[j].0);
            assert forall|j: int| 0 <= j < ks.len() implies self@.dom().contains(#[trigger] ks[j]) by {
                lemma_map_value(s, at[j]);
            }
            assert forall|j: int| 0 <= j < out@.len() implies *(#[trigger] out@[j]).1 == self@[*out@[j].0] by {
                lemma_map_value(s, at[j]);
            }
            assert forall|k: K| #[trigger] self@.dom().contains(k) implies exists|j: int|
                0 <= j < ks.len() && ks[j] == k by {
                let b = choose|b: int| holds_key(s, b, k);
                assert(s[b] is Some);
                let j = choose|j: int| 0 <= j < at.len() && at[j] == b;
                assert(ks[j] == k);
            }
            assert forall|j1: int, j2: int|
                0 <= j1 < ks.len() && 0 <= j2 < ks.len() && #[trigger] ks[j1] == #[trigger] ks[j2]
                implies j1 == j2 by {
                if j1 < j2 {
                    assert(at[j1] < at[j2]);
                } else if j2 < j1 {
                    assert(at[j2] < at[j1]);
                }
            }
        }
        out
    }

    /// Every key, once.
    pub fn keys(&self) -> (r: Vec<K>)
        requires
            self.wf(),
        ensures
            Self::lists_keys(self@, r@),
    {
        let pairs = self.iter();
        let ghost ks = Seq::new(pairs@.len(), |j: int| *pairs@[j].0);
        let mut out: Vec<K> = Vec::new();
        let mut j: usize = 0;
        while j < pairs.len()
            invariant
                j <= pairs@.len(),
                out@.len() == j,
                forall|i: int| 0 <= i < j ==> #[trigger] out@[i] == *pairs@[i].0,
            decreases pairs@.len() - j,
        {
            out.push(*pairs[j].0);
            j += 1;
        }
        proof {
            assert(out@ =~= ks);
        }
        out
    }

    /// The value of every entry, in the order in which `iter` lists the
    /// entries.
    pub fn values(&self) -> (r: Vec<&V>)
        requires
            self.wf(),
        ensures
            exists|ks: Seq<K>|
                {
                    &&& #[trigger] Self::lists_keys(self@, ks)
                    &&& ks.len() == r@.len()
                    &&& forall|j: int| 0 <= j < r@.len() ==> *(#[trigger] r@[j]) == self@[ks[j]]
                },
    {
        let pairs = self.iter();
        let ghost ks = Seq::new(pairs@.len(), |j: int| *pairs@[j].0);
        let mut out: Vec<&V> = Vec::new();
        let mut j: usize = 0;
        while j < pairs.len()
            invariant
                j <= pairs@.len(),
                out@.len() == j,
                forall|i: int| 0 <= i < j ==> *(#[trigger] out@[i]) == *pairs@[i].1,
            decreases pairs@.len() - j,
        {
            out.push(pairs[j].1);
            j += 1;
        }
        proof {
            assert(Self::lists_keys(self@, ks));
            assert forall|j: int| 0 <= j < out@.len() implies *(#[trigger] out@[j]) == self@[ks[j]] by {
                assert(*pairs@[j].1 == self@[*pairs@[j].0]);
            }
        }
        out
    }

    /// An occupied entry is good for this map: it names a full bucket that
    /// holds the entry's key.
    pub closed spec fn holds_occupied(&self, o: OccupiedEntry<K>) -> bool {
        &&& o.valid_in(self.table@)
        &&& o.key == Some(self.table@[o.elem.spec_index()].unwrap().key)
    }

    /// A vacant entry is good for this map: its key is absent, its hash is
    /// the key's hash in the map's state, it names the bucket where the
    /// probe for the key ends, and the map has room for one more entry.
    pub closed spec fn holds_vacant(&self, v: VacantEntry<K>) -> bool {
        &&& v.valid_in(self.table@)
        &&& v.hash.value() == hash_of(self.hash_state@, v.key)
        &&& self.table.spec_size() + 1 <= spec_usable_capacity(self.table.spec_capacity())
    }

    /// The entry of a key, found in one probe pass, after room has been
    /// made for one more entry. It is good until the map is next changed.
    pub fn entry(&mut self, key: K) -> (e: Entry<K>)
        requires
            old(self).wf(),
            old(self).spec_len() < MAX_LEN,
        ensures
            final(self).wf(),
            final(self)@ == old(self)@,
            final(self).spec_len() == old(self).spec_len(),
            final(self).hash_keys() == old(self).hash_keys(),
            old(self).spec_len() + 1 <= spec_usable_capacity(old(self).spec_capacity())
                ==> final(self).slots() == old(self).slots(),
            match e {
                Entry::Occupied(o) => {
                    &&& old(self)@.dom().contains(key)
                    &&& o.key == Some(key)
                    &&& final(self).holds_occupied(o)
                },
                Entry::Vacant(v) => {
                    &&& !old(self)@.dom().contains(key)
                    &&& v.key == key
                    &&& final(self).holds_vacant(v)
                },
            },
    {
        self.reserve(1);
        let hash = self.make_hash(&key);
        proof {
            self.lemma_wf();
            lemma_hashed_agrees(self.table@, self.hash_state@, key);
        }
        let found = search_hashed(&self.table, hash, &key);
        proof {
            match found {
                InternalEntry::Occupied { elem } => {
                    lemma_map_value(self.table@, elem.spec_index());
                },
                InternalEntry::Vacant { .. } => {
                    assert(!as_map(self.table@).dom().contains(key));
                },
                InternalEntry::TableIsEmpty => {},
            }
        }
        match found.into_entry(key) {
            Some(e) => e,
            None => vstd::pervasive::unreached(),
        }
    }

    /// The value of an occupied entry.
    pub fn get_occupied(&self, o: &OccupiedEntry<K>) -> (v: &V)
        requires
            self.wf(),
            self.holds_occupied(*o),
        ensures
            o.key is Some,
            self@.dom().contains(o.key.unwrap()),
            *v == self@[o.key.unwrap()],
    {
        proof {
            self.lemma_wf();
            lemma_map_value(self.table@, o.elem.spec_index());
        }
        o.get(&self.table)
    }

    /// The value of an occupied entry, to be changed in place. The entry
    /// stays good.
    pub fn get_occupied_mut(&mut self, o: &OccupiedEntry<K>) -> (v: &mut V)
        requires
            old(self).wf(),
            old(self).holds_occupied(*o),
        ensures
            o.key is Some,
            old(self)@.dom().contains(o.key.unwrap()),
            *v == old(self)@[o.key.unwrap()],
            final(self).wf(),
            final(self).holds_occupied(*o),
            final(self)@ == old(self)@.insert(o.key.unwrap(), *final(v)),
            final(self).spec_len() == old(self).spec_len(),
            final(self).spec_capacity() == old(self).spec_capacity(),
            final(self).hash_keys() == old(self).hash_keys(),
    {
        proof {
            self.lemma_wf();
            lemma_map_value(self.table@, o.elem.spec_index());
        }
        o.get_mut(&mut self.table)
    }

    /// Replaces the value of an occupied entry and hands out the old one.
    /// The entry stays good.
    pub fn insert_occupied(&mut self, o: &mut OccupiedEntry<K>, value: V) -> (v: V)
        requires
            old(self).wf(),
            old(self).holds_occupied(*old(o)),
        ensures
            final(self).wf(),
            *final(o) == *old(o),
            final(self).holds_occupied(*final(o)),
            old(o).key is Some,
            old(self)@.dom().contains(old(o).key.unwrap()),
            v == old(self)@[old(o).key.unwrap()],
            final(self)@ == old(self)@.insert(old(o).key.unwrap(), value),
            final(self).spec_len() == old(self).spec_len(),
            final(self).slots() == old(self).slots().update(
                old(o).elem.spec_index(),
                Some(
                    Slot {
                        hash: old(self).slots()[old(o).elem.spec_index()].unwrap().hash,
                        key: old(o).key.unwrap(),
                        value,
                    },
                ),
            ),
            final(self).spec_capacity() == old(self).spec_capacity(),
            final(self).hash_keys() == old(self).hash_keys(),
    {
        proof {
            self.lemma_wf();
            lemma_map_value(self.table@, o.elem.spec_index());
        }
        o.insert(&mut self.table, value)
    }

    /// Removes an occupied entry and hands out its value.
    pub fn remove_occupied(&mut self, o: OccupiedEntry<K>) -> (v: V)
        requires
            old(self).wf(),
            old(self).holds_occupied(o),
        ensures
            final(self).wf(),
            o.key is Some,
            old(self)@.dom().contains(o.key.unwrap()),
            v == old(self)@[o.key.unwrap()],
            final(self)@ == old(self)@.remove(o.key.unwrap()),
            final(self).spec_len() + 1 == old(self).spec_len(),
            crate::model::shifted_back(old(self).slots(), final(self).slots(), o.elem.spec_index()),
            final(self).spec_capacity() == old(self).spec_capacity(),
            final(self).hash_keys() == old(self).hash_keys(),
    {
        proof {
            self.lemma_wf();
            lemma_map_value(self.table@, o.elem.spec_index());
        }
        o.remove(&mut self.table)
    }

    /// Inserts the key of a vacant entry with `value`, where the probe
    /// found that it goes, with no second probe. Returns the stored value,
    /// to be changed in place.
    pub fn insert_vacant(&mut self, e: VacantEntry<K>, value: V) -> (v: &mut V)
        requires
            old(self).wf(),
            old(self).holds_vacant(e),
        ensures
            *v == value,
            final(self).wf(),
            !old(self)@.dom().contains(e.key),
            final(self)@ == old(self)@.insert(e.key, *final(v)),
            final(self).spec_len() == old(self).spec_len() + 1,
            final(self).slots() == crate::model::settle(
                old(self).slots(),
                crate::robin_hood::vacancy_index(e.elem),
                Slot { hash: hash_of(old(self).hash_keys(), e.key), key: e.key, value },
                old(self).slots().len(),
            ).update(
                crate::robin_hood::vacancy_index(e.elem),
                Some(
                    Slot {
                        hash: hash_of(old(self).hash_keys(), e.key),
                        key: e.key,
                        value: *final(v),
                    },
                ),
            ),
            final(self).spec_capacity() == old(self).spec_capacity(),
            final(self).hash_keys() == old(self).hash_keys(),
    {
        proof {
            self.lemma_wf();
            assert(!as_map(self.table@).dom().contains(e.key));
        }
        e.insert(&mut self.table, value)
    }

}

impl<K: Key, V> Default for HashMap<K, V> {
    /// An empty map without buckets, as `new` makes it.
    fn default() -> (m: HashMap<K, V>)
        ensures
            m.wf(),
            m@ == Map::<K, V>::empty(),
            m.spec_capacity() == 0,
            m.hash_keys().is_none() == K::specialized(),
    {
        HashMap::new()
    }
}

/// Insertion under a hash already computed, for maps whose probe is
/// bounded while they hash fast.
pub trait SpecializedInsert<K, V> {
    /// What the map holds.
    spec fn contents(&self) -> Map<K, V>;

    /// The map is sound, has room for one more entry, and `hash` is the
    /// hash of `k` in its state.
    spec fn ready_for(&self, hash: SafeHash, k: K) -> bool;

    /// The map is sound.
    spec fn sound(&self) -> bool;

    /// Inserts `(k, v)`, or replaces the value stored with `k`, and hands
    /// out the value that was stored with `k`, if any.
    fn specialized_insert_or_replace_with(&mut self, hash: SafeHash, k: K, v: V) -> (r: Option<V>)
        requires
            old(self).ready_for(hash, k),
        ensures
            final(self).sound(),
            final(self).contents() == old(self).contents().insert(k, v),
            r == (if old(self).contents().dom().contains(k) {
                Some(old(self).contents()[k])
            } else {
                None
            }),
    ;
}

impl<K: Key, V> SpecializedInsert<K, V> for HashMap<K, V> {
    open spec fn contents(&self) -> Map<K, V> {
        self@
    }

    open spec fn ready_for(&self, hash: SafeHash, k: K) -> bool {
        &&& self.wf()
        &&& self.spec_len() + 1 <= spec_usable_capacity(self.spec_capacity())
        &&& self.spec_len() < MAX_LEN
        &&& hash.wf()
        &&& hash.value() == hash_of(self.hash_keys(), k)
    }

    open spec fn sound(&self) -> bool {
        self.wf()
    }

    /// Inserts `(k, v)` under `hash`, or replaces the value stored with
    /// `k`. In fast mode the probe passes at most `DISPLACEMENT_THRESHOLD`
    /// buckets: where that does not settle it, the map adapts and the
    /// insertion starts again, under the key's hash in the map's new
    /// state. In safe mode the probe is not bounded.
    fn specialized_insert_or_replace_with(&mut self, hash: SafeHash, k: K, v: V) -> (r: Option<V>)
        ensures
            final(self).spec_len() == old(self).spec_len() + (if old(self)@.dom().contains(k) {
                0nat
            } else {
                1nat
            }),
            final(self).hash_keys().is_none() ==> final(self).displacement_of(k)
                < DISPLACEMENT_THRESHOLD,
            old(self).hash_keys().is_some() || !blocked(
                old(self).slots(),
                hash.value(),
                k,
                DISPLACEMENT_THRESHOLD as int,
            ) ==> {
                &&& final(self).spec_capacity() == old(self).spec_capacity()
                &&& final(self).hash_keys() == old(self).hash_keys()
                &&& final(self).slots() == Self::slots_with(old(self).slots(), hash.value(), k, v)
            },
            old(self).hash_keys().is_none() && blocked(
                old(self).slots(),
                hash.value(),
                k,
                DISPLACEMENT_THRESHOLD as int,
            ) ==> {
                if spec_load_is_high(old(self).spec_len(), old(self).spec_capacity()) {
                    final(self).spec_capacity() == 2 * old(self).spec_capacity()
                } else {
                    &&& final(self).spec_capacity() == old(self).spec_capacity()
                    &&& final(self).hash_keys().is_some()
                }
            },
    {
        let ghost adapted = false;
        let mut cur_hash = hash;
        let mut cur_v = v;
        loop
            invariant
                self.wf(),
                self@ == old(self)@,
                self.spec_len() == old(self).spec_len(),
                self.spec_len() + 1 <= spec_usable_capacity(self.spec_capacity()),
                self.spec_len() < MAX_LEN,
                cur_v == v,
                cur_hash.wf(),
                cur_hash.value() == hash_of(self.hash_keys(), k),
                hash.value() == hash_of(old(self).hash_keys(), k),
                !adapted ==> *self == *old(self),
                adapted ==> {
                    &&& old(self).hash_keys().is_none()
                    &&& blocked(old(self).slots(), hash.value(), k, DISPLACEMENT_THRESHOLD as int)
                    &&& self.adaptations_left() <= 1
                    &&& if spec_load_is_high(old(self).spec_len(), old(self).spec_capacity()) {
                        self.spec_capacity() == 2 * old(self).spec_capacity()
                    } else {
                        &&& self.spec_capacity() == old(self).spec_capacity()
                        &&& self.hash_keys().is_some()
                    }
                },
            decreases self.adaptations_left(),
        {
            let capacity = self.table.capacity();
            let limit = if self.hash_state.uses_safe_hashing() {
                capacity
            } else {
                DISPLACEMENT_THRESHOLD
            };
            let ghost s = self.table@;
            let ghost before = *self;
            proof {
                self.lemma_wf();
                lemma_hashed_agrees(s, self.hash_state@, k);
                if self.hash_state@.is_some() {
                    let e = lemma_has_empty(s);
                    lemma_not_blocked(s, cur_hash.value(), k, capacity as int, e);
                }
            }
            match insert_within(&mut self.table, cur_hash, k, cur_v, limit) {
                Probed::Inserted(at) => {
                    proof {
                        assert(!as_map(s).dom().contains(k));
                        self.table.lemma_wf();
                        lemma_map_value(self.table@, at as int);
                    }
                    return None;
                },
                Probed::Replaced(at, old_value) => {
                    proof {
                        lemma_map_value(s, at as int);
                        self.table.lemma_wf();
                        lemma_map_value(self.table@, at as int);
                        assert(has_key(s, k));
                    }
                    return Some(old_value);
                },
                Probed::TooFar(_, v2) => {
                    self.adapt_to_safe_hashing();
                    cur_hash = self.make_hash(&k);
                    cur_v = v2;
                    proof {
                        adapted = true;
                    }
                },
            }
        }
    }

}

} // verus!
