//! The entry of one key, as one probe pass found it: occupied, or vacant
//! with the place where the key would go. An entry names buckets by
//! index, and is good for the table it was made from as long as that
//! table is not changed.
use vstd::prelude::*;
use crate::model::{Slot, as_map, hash_map};
use crate::model::{lemma_map_replace, lemma_map_value, lemma_same_hash};
use crate::robin_hood::{insert_vacant, pop_internal, table_ok, vacancy_index, vacant_at};
use crate::safe_hash::SafeHash;
use crate::table::{EmptyBucket, FullBucket, RawTable};

verus! {

/// Where an absent key would go.
#[derive(Clone, Copy, Debug)]
pub enum VacantEntryState {
    /// Into a full bucket, whose entry is displaced by the given number of
    /// steps and by less than the key would be: the key takes the bucket
    /// and the entry moves on.
    NeqElem(FullBucket, usize),
    /// Into an empty bucket.
    NoElem(EmptyBucket),
}

/// The entry of a key that is stored: the key, and its bucket.
pub struct OccupiedEntry<K> {
    pub key: Option<K>,
    pub elem: FullBucket,
}

/// The entry of a key that is absent: its hash, the key, and where it
/// would go.
pub struct VacantEntry<K> {
    pub hash: SafeHash,
    pub key: K,
    pub elem: VacantEntryState,
}

/// The entry of a key.
pub enum Entry<K> {
    Occupied(OccupiedEntry<K>),
    Vacant(VacantEntry<K>),
}

impl<K> OccupiedEntry<K> {
    /// The entry names a bucket of `s` that is full.
    pub open spec fn valid_in<V>(self, s: Seq<Option<Slot<K, V>>>) -> bool {
        0 <= self.elem.spec_index() < s.len() && s[self.elem.spec_index()] is Some
    }

    /// The key in the bucket.
    pub fn key<'a, V>(&self, table: &'a RawTable<K, V>) -> (k: &'a K)
        requires
            table.wf(),
            self.valid_in(table@),
        ensures
            *k == table@[self.elem.spec_index()].unwrap().key,
    {
        proof {
            table.lemma_wf();
        }
        table.key_at(self.elem.index())
    }

    /// The value in the bucket.
    pub fn get<'a, V>(&self, table: &'a RawTable<K, V>) -> (v: &'a V)
        requires
            table.wf(),
            self.valid_in(table@),
        ensures
            *v == table@[self.elem.spec_index()].unwrap().value,
    {
        proof {
            table.lemma_wf();
        }
        table.value_at(self.elem.index())
    }

    /// The value in the bucket, to be changed in place.
    pub fn get_mut<'a, V>(&self, table: &'a mut RawTable<K, V>) -> (v: &'a mut V)
        requires
            table_ok(*old(table)),
            self.valid_in(old(table)@),
        ensures
            *v == old(table)@[self.elem.spec_index()].unwrap().value,
            table_ok(*final(table)),
            final(table)@ == old(table)@.update(
                self.elem.spec_index(),
                Some(
                    Slot {
                        hash: old(table)@[self.elem.spec_index()].unwrap().hash,
                        key: old(table)@[self.elem.spec_index()].unwrap().key,
                        value: *final(v),
                    },
                ),
            ),
            final(table).spec_capacity() == old(table).spec_capacity(),
            final(table).spec_size() == old(table).spec_size(),
            as_map(final(table)@) == as_map(old(table)@).insert(
                old(table)@[self.elem.spec_index()].unwrap().key,
                *final(v),
            ),
            hash_map(final(table)@) == hash_map(old(table)@),
    {
        let ghost s = table@;
        let ghost at = self.elem.spec_index();
        proof {
            table.lemma_wf();
        }
        let v = table.value_mut(self.elem.index());
        proof {
            let fresh = Slot { hash: s[at].unwrap().hash, key: s[at].unwrap().key, value: *final(v) };
            lemma_same_hash(s, at, fresh);
            lemma_map_replace(s, at, fresh);
            lemma_map_value(s, at);
            assert(as_map(s).remove(fresh.key).insert(fresh.key, fresh.value) =~= as_map(s).insert(
                fresh.key,
                fresh.value,
            ));
            assert(hash_map(s).remove(fresh.key).insert(fresh.key, fresh.hash) =~= hash_map(s));
        }
        v
    }

    /// Replaces the value in the bucket and hands out the old one.
    pub fn insert<V>(&mut self, table: &mut RawTable<K, V>, value: V) -> (v: V)
        requires
            table_ok(*old(table)),
            old(self).valid_in(old(table)@),
        ensures
            *final(self) == *old(self),
            table_ok(*final(table)),
            final(self).valid_in(final(table)@),
            v == old(table)@[old(self).elem.spec_index()].unwrap().value,
            final(table)@ == old(table)@.update(
                old(self).elem.spec_index(),
                Some(
                    Slot {
                        hash: old(table)@[old(self).elem.spec_index()].unwrap().hash,
                        key: old(table)@[old(self).elem.spec_index()].unwrap().key,
                        value,
                    },
                ),
            ),
            final(table).spec_capacity() == old(table).spec_capacity(),
            final(table).spec_size() == old(table).spec_size(),
            as_map(final(table)@) == as_map(old(table)@).insert(
                old(table)@[old(self).elem.spec_index()].unwrap().key,
                value,
            ),
            hash_map(final(table)@) == hash_map(old(table)@),
    {
        let ghost s = table@;
        let ghost at = self.elem.spec_index();
        proof {
            table.lemma_wf();
            let fresh = Slot { hash: s[at].unwrap().hash, key: s[at].unwrap().key, value };
            lemma_same_hash(s, at, fresh);
            lemma_map_replace(s, at, fresh);
            lemma_map_value(s, at);
            assert(as_map(s).remove(fresh.key).insert(fresh.key, value) =~= as_map(s).insert(
                fresh.key,
                value,
            ));
            assert(hash_map(s).remove(fresh.key).insert(fresh.key, fresh.hash) =~= hash_map(s));
        }
        table.replace_value(self.elem.index(), value)
    }

    /// Takes the entry out of the table, with backward shift.
    pub fn remove_entry<V>(self, table: &mut RawTable<K, V>) -> (kv: (K, V))
        requires
            table_ok(*old(table)),
            self.valid_in(old(table)@),
        ensures
            table_ok(*final(table)),
            kv.0 == old(table)@[self.elem.spec_index()].unwrap().key,
            kv.1 == old(table)@[self.elem.spec_index()].unwrap().value,
            final(table).spec_capacity() == old(table).spec_capacity(),
            final(table).spec_size() + 1 == old(table).spec_size(),
            crate::model::shifted_back(old(table)@, final(table)@, self.elem.spec_index()),
            as_map(final(table)@) == as_map(old(table)@).remove(kv.0),
            hash_map(final(table)@) == hash_map(old(table)@).remove(kv.0),
    {
        proof {
            table.lemma_wf();
        }
        pop_internal(table, self.elem)
    }

    /// Takes the entry out of the table and hands out its value.
    pub fn remove<V>(self, table: &mut RawTable<K, V>) -> (v: V)
        requires
            table_ok(*old(table)),
            self.valid_in(old(table)@),
        ensures
            table_ok(*final(table)),
            v == old(table)@[self.elem.spec_index()].unwrap().value,
            final(table).spec_capacity() == old(table).spec_capacity(),
            final(table).spec_size() + 1 == old(table).spec_size(),
            crate::model::shifted_back(old(table)@, final(table)@, self.elem.spec_index()),
            as_map(final(table)@) == as_map(old(table)@).remove(
                old(table)@[self.elem.spec_index()].unwrap().key,
            ),
            hash_map(final(table)@) == hash_map(old(table)@).remove(
                old(table)@[self.elem.spec_index()].unwrap().key,
            ),
    {
        self.remove_entry(table).1
    }
}

impl<K> VacantEntry<K> {
    /// The entry's key is absent from `s`, and the entry names the bucket
    /// where the probe for it ends.
    pub open spec fn valid_in<V>(self, s: Seq<Option<Slot<K, V>>>) -> bool {
        self.hash.wf() && vacant_at(s, self.hash.value(), self.key, self.elem)
    }

    /// The key that the entry is for.
    pub fn key(&self) -> (k: &K)
        ensures
            *k == self.key,
    {
        &self.key
    }

    /// Gives the key back.
    pub fn into_key(self) -> (k: K)
        ensures
            k == self.key,
    {
        self.key
    }

    /// Puts the key with `value` into the table, where the probe found
    /// that it goes. Returns the stored value, to be changed in place.
    pub fn insert<'a, V>(self, table: &'a mut RawTable<K, V>, value: V) -> (v: &'a mut V)
        requires
            table_ok(*old(table)),
            old(table).spec_size() + 1 < old(table).spec_capacity(),
            self.valid_in(old(table)@),
        ensures
            *v == value,
            table_ok(*final(table)),
            final(table)@ == crate::model::settle(
                old(table)@,
                vacancy_index(self.elem),
                Slot { hash: self.hash.value(), key: self.key, value },
                old(table)@.len(),
            ).update(
                vacancy_index(self.elem),
                Some(Slot { hash: self.hash.value(), key: self.key, value: *final(v) }),
            ),
            final(table).spec_capacity() == old(table).spec_capacity(),
            final(table).spec_size() == old(table).spec_size() + 1,
            as_map(final(table)@) == as_map(old(table)@).insert(self.key, *final(v)),
            hash_map(final(table)@) == hash_map(old(table)@).insert(self.key, self.hash.value()),
    {
        let ghost s0 = table@;
        proof {
            table.lemma_wf();
        }
        let at = insert_vacant(table, self.elem, self.hash, self.key, value);
        let ghost s1 = table@;
        proof {
            table.lemma_wf();
        }
        let v = table.value_mut(at);
        proof {
            let last = Slot { hash: self.hash.value(), key: self.key, value: *final(v) };
            lemma_same_hash(s1, at as int, last);
            lemma_map_replace(s1, at as int, last);
            lemma_map_value(s1, at as int);
            assert(as_map(s1).remove(self.key).insert(self.key, last.value) =~= as_map(s0).insert(
                self.key,
                last.value,
            ));
            assert(hash_map(s1).remove(self.key).insert(self.key, last.hash) =~= hash_map(s0).insert(
                self.key,
                self.hash.value(),
            ));
        }
        v
    }

}

} // verus!
