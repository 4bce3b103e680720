//! Bucket storage: a flat array of buckets, each empty or holding a hash,
//! a key and a value, and the count of the full ones.
use vstd::prelude::*;
use crate::model::{Slot, count_full, displacement, empty_slots, ideal_index, next_index};
use crate::model::{lemma_count_bound, lemma_count_empty, lemma_count_update};
use crate::resize_policy::{MAX_LEN, is_raw_capacity_for, raw_capacity};
use crate::safe_hash::{EMPTY_BUCKET, SafeHash};

verus! {

/// `n` is a power of two.
pub open spec fn is_pow2(n: int) -> bool
    decreases n,
{
    if n <= 1 {
        n == 1
    } else {
        n % 2 == 0 && is_pow2(n / 2)
    }
}

/// A power of two that fits in 64 bits is two to an exponent below 64.
pub proof fn lemma_pow2_exponent(n: int) -> (e: nat)
    requires
        is_pow2(n),
        n <= u64::MAX,
    ensures
        e < 64,
        n == vstd::arithmetic::power2::pow2(e),
    decreases n,
{
    vstd::arithmetic::power2::lemma2_to64();
    if n <= 1 {
        0
    } else {
        let half = lemma_pow2_exponent(n / 2);
        let e = half + 1;
        vstd::arithmetic::power2::lemma_pow2_unfold(e);
        if e > 64 {
            vstd::arithmetic::power2::lemma_pow2_strictly_increases(64, e);
        }
        e
    }
}

/// For a power of two, the remainder is the low bits.
pub proof fn lemma_mask_is_mod(x: u64, cap: u64)
    requires
        is_pow2(cap as int),
    ensures
        x & ((cap - 1) as u64) == x % cap,
{
    let e = lemma_pow2_exponent(cap as int);
    vstd::bits::lemma_u64_low_bits_mask_is_mod(x, e);
}

/// A cursor: the bucket it points at, and the steps it has taken since the
/// probe began.
#[derive(Clone, Copy, Debug)]
pub struct Bucket {
    idx: usize,
    walked: usize,
}

impl Bucket {
    pub closed spec fn spec_index(self) -> int {
        self.idx as int
    }

    pub closed spec fn spec_walked(self) -> int {
        self.walked as int
    }

    /// The bucket the cursor points at.
    pub fn index(&self) -> (i: usize)
        ensures
            i == self.spec_index(),
    {
        self.idx
    }

    /// The steps taken since the probe began.
    pub fn walked(&self) -> (w: usize)
        ensures
            w == self.spec_walked(),
    {
        self.walked
    }
}

/// The index of a bucket that was found full.
#[derive(Clone, Copy, Debug)]
pub struct FullBucket {
    idx: usize,
}

impl FullBucket {
    pub closed spec fn spec_index(self) -> int {
        self.idx as int
    }

    pub fn new(idx: usize) -> (b: FullBucket)
        ensures
            b.spec_index() == idx,
    {
        FullBucket { idx }
    }

    pub fn index(&self) -> (i: usize)
        ensures
            i == self.spec_index(),
    {
        self.idx
    }
}

/// The index of a bucket that was found empty.
#[derive(Clone, Copy, Debug)]
pub struct EmptyBucket {
    idx: usize,
}

impl EmptyBucket {
    pub closed spec fn spec_index(self) -> int {
        self.idx as int
    }

    pub fn new(idx: usize) -> (b: EmptyBucket)
        ensures
            b.spec_index() == idx,
    {
        EmptyBucket { idx }
    }

    pub fn index(&self) -> (i: usize)
        ensures
            i == self.spec_index(),
    {
        self.idx
    }
}

/// What a cursor sees.
pub enum BucketState<'a, K, V> {
    Empty(usize),
    Full(usize, SafeHash, &'a K, &'a V),
}

/// The buckets of a map: one array of hashes, where the empty marker
/// stands for an empty bucket, one array of the keys and values, and the
/// number of full buckets.
pub struct RawTable<K, V> {
    hashes: Vec<u64>,
    pairs: Vec<Option<(K, V)>>,
    size: usize,
}

impl<K, V> View for RawTable<K, V> {
    type V = Seq<Option<Slot<K, V>>>;

    closed spec fn view(&self) -> Seq<Option<Slot<K, V>>> {
        Seq::new(
            self.hashes@.len(),
            |i: int|
                if self.hashes@[i] == EMPTY_BUCKET {
                    None
                } else {
                    Some(
                        Slot {
                            hash: self.hashes@[i],
                            key: self.pairs@[i].unwrap().0,
                            value: self.pairs@[i].unwrap().1,
                        },
                    )
                },
        )
    }
}

impl<K, V> RawTable<K, V> {
    /// The storage is consistent: a bucket's hash is the empty marker
    /// exactly where it holds no pair, the size is the count of the full
    /// buckets, and the capacity is zero or a power of two.
    pub closed spec fn wf(&self) -> bool {
        &&& self.hashes@.len() == self.pairs@.len()
        &&& forall|i: int|
            0 <= i < self.hashes@.len() ==> (#[trigger] self.hashes@[i] == EMPTY_BUCKET
                <==> self.pairs@[i] is None)
        &&& self.size == count_full(self@)
        &&& (self.hashes@.len() == 0 || is_pow2(self.hashes@.len() as int))
    }

    /// The number of buckets.
    pub closed spec fn spec_capacity(&self) -> nat {
        self.hashes@.len()
    }

    /// The number of full buckets.
    pub closed spec fn spec_size(&self) -> nat {
        self.size as nat
    }

    /// What well-formedness says in terms of the view.
    pub proof fn lemma_wf(&self)
        requires
            self.wf(),
        ensures
            self@.len() == self.spec_capacity(),
            self.spec_size() == count_full(self@),
            self.spec_size() <= self.spec_capacity(),
            self.spec_capacity() == 0 || is_pow2(self.spec_capacity() as int),
            forall|i: int|
                0 <= i < self@.len() && (#[trigger] self@[i]) is Some ==> self@[i].unwrap().hash
                    != EMPTY_BUCKET,
    {
        lemma_count_bound(self@);
    }

    /// A table of `capacity` empty buckets.
    pub fn new(capacity: usize) -> (t: RawTable<K, V>)
        requires
            capacity == 0 || is_pow2(capacity as int),
        ensures
            t.wf(),
            t@ == empty_slots::<K, V>(capacity as nat),
            t.spec_capacity() == capacity,
            t.spec_size() == 0,
    {
        let mut hashes: Vec<u64> = Vec::new();
        let mut pairs: Vec<Option<(K, V)>> = Vec::new();
        let mut i: usize = 0;
        while i < capacity
            invariant
                i <= capacity,
                hashes@.len() == i,
                pairs@.len() == i,
                forall|j: int| 0 <= j < i ==> #[trigger] hashes@[j] == EMPTY_BUCKET,
                forall|j: int| 0 <= j < i ==> (#[trigger] pairs@[j]) is None,
            decreases capacity - i,
        {
            hashes.push(EMPTY_BUCKET);
            pairs.push(None);
            i += 1;
        }
        let t = RawTable { hashes, pairs, size: 0 };
        proof {
            assert(t@ =~= empty_slots::<K, V>(capacity as nat));
            lemma_count_empty::<K, V>(capacity as nat);
        }
        t
    }

    /// An empty table for `n` entries: of the smallest power of two of
    /// buckets that holds them at the load factor, of none for none.
    pub fn with_capacity(n: usize) -> (t: RawTable<K, V>)
        requires
            n <= MAX_LEN,
        ensures
            t.wf(),
            is_raw_capacity_for(n as nat, t.spec_capacity()),
            t@ == empty_slots::<K, V>(t.spec_capacity()),
            t.spec_size() == 0,
    {
        RawTable::new(raw_capacity(n))
    }

    /// The number of buckets.
    pub fn capacity(&self) -> (c: usize)
        ensures
            c == self.spec_capacity(),
    {
        self.hashes.len()
    }

    /// The number of full buckets.
    pub fn size(&self) -> (n: usize)
        ensures
            n == self.spec_size(),
    {
        self.size
    }

    /// A cursor at the ideal bucket of `hash`.
    pub fn probe(&self, hash: SafeHash) -> (b: Bucket)
        requires
            self.wf(),
            self.spec_capacity() > 0,
        ensures
            b.spec_index() == ideal_index(hash.value(), self.spec_capacity() as int),
            b.spec_walked() == 0,
    {
        let cap = self.hashes.len() as u64;
        proof {
            lemma_mask_is_mod(hash.value(), cap);
        }
        Bucket { idx: (hash.inspect() & (cap - 1)) as usize, walked: 0 }
    }

    /// A cursor at bucket `idx` that has taken no step.
    pub fn bucket_at(&self, idx: usize) -> (b: Bucket)
        requires
            idx < self.spec_capacity(),
        ensures
            b.spec_index() == idx,
            b.spec_walked() == 0,
    {
        Bucket { idx, walked: 0 }
    }

    /// What the cursor points at.
    pub fn peek(&self, b: &Bucket) -> (st: BucketState<'_, K, V>)
        requires
            self.wf(),
            b.spec_index() < self.spec_capacity(),
        ensures
            match st {
                BucketState::Empty(i) => i == b.spec_index() && self@[b.spec_index()] is None,
                BucketState::Full(i, h, k, v) => i == b.spec_index() && h.wf() && self@[b.spec_index()]
                    == Some(Slot { hash: h.value(), key: *k, value: *v }),
            },
    {
        let i = b.idx;
        let h = self.hashes[i];
        match &self.pairs[i] {
            None => BucketState::Empty(i),
            Some(pair) => BucketState::Full(i, SafeHash::new(h), &pair.0, &pair.1),
        }
    }

    /// The cursor one bucket on, round the ring. A cursor that has walked
    /// the whole ring does not go on.
    pub fn next(&self, b: Bucket) -> (n: Bucket)
        requires
            self.wf(),
            b.spec_index() < self.spec_capacity(),
            b.spec_walked() + 1 < self.spec_capacity(),
        ensures
            n.spec_index() == next_index(b.spec_index(), self.spec_capacity() as int),
            n.spec_walked() == b.spec_walked() + 1,
    {
        let cap = self.hashes.len();
        let idx = if b.idx + 1 == cap {
            0
        } else {
            b.idx + 1
        };
        Bucket { idx, walked: b.walked + 1 }
    }

    /// The hash stored in a full bucket.
    pub fn hash_at(&self, idx: usize) -> (h: SafeHash)
        requires
            self.wf(),
            idx < self.spec_capacity(),
            self@[idx as int] is Some,
        ensures
            h.wf(),
            h.value() == self@[idx as int].unwrap().hash,
    {
        SafeHash::new(self.hashes[idx])
    }

    /// The key stored in a full bucket.
    pub fn key_at(&self, idx: usize) -> (k: &K)
        requires
            self.wf(),
            idx < self.spec_capacity(),
            self@[idx as int] is Some,
        ensures
            *k == self@[idx as int].unwrap().key,
    {
        match &self.pairs[idx] {
            Some(pair) => &pair.0,
            None => {
                proof {
                    assert(self.hashes@[idx as int] == EMPTY_BUCKET);
                }
                vstd::pervasive::unreached()
            },
        }
    }

    /// The value stored in a full bucket.
    pub fn value_at(&self, idx: usize) -> (v: &V)
        requires
            self.wf(),
            idx < self.spec_capacity(),
            self@[idx as int] is Some,
        ensures
            *v == self@[idx as int].unwrap().value,
    {
        match &self.pairs[idx] {
            Some(pair) => &pair.1,
            None => {
                proof {
                    assert(self.hashes@[idx as int] == EMPTY_BUCKET);
                }
                vstd::pervasive::unreached()
            },
        }
    }

    /// How far the entry in a full bucket sits from its ideal bucket.
    pub fn distance(&self, idx: usize) -> (d: usize)
        requires
            self.wf(),
            idx < self.spec_capacity(),
            self@[idx as int] is Some,
        ensures
            d == displacement(self@, idx as int),
            d < self.spec_capacity(),
    {
        let cap = self.hashes.len();
        proof {
            lemma_mask_is_mod(self.hashes@[idx as int], cap as u64);
        }
        let ib = (self.hashes[idx] & (cap as u64 - 1)) as usize;
        if idx >= ib {
            idx - ib
        } else {
            idx + (cap - ib)
        }
    }

    /// Writes an entry into an empty bucket.
    pub fn put(&mut self, idx: usize, hash: SafeHash, key: K, value: V)
        requires
            old(self).wf(),
            hash.wf(),
            idx < old(self).spec_capacity(),
            old(self)@[idx as int] is None,
        ensures
            final(self).wf(),
            final(self)@ == old(self)@.update(
                idx as int,
                Some(Slot { hash: hash.value(), key, value }),
            ),
            final(self).spec_capacity() == old(self).spec_capacity(),
            final(self).spec_size() == old(self).spec_size() + 1,
    {
        let cap = self.hashes.len();
        proof {
            lemma_count_bound(self@);
            lemma_count_update(self@, idx as int, Some(Slot { hash: hash.value(), key, value }));
            assert(self@[idx as int] is None);
            assert(self.size < cap);
        }
        let ghost before = self@;
        self.hashes[idx] = hash.inspect();
        self.pairs[idx] = Some((key, value));
        self.size = self.size + 1;
        proof {
            assert(self@ =~= before.update(
                idx as int,
                Some(Slot { hash: hash.value(), key, value }),
            ));
        }
    }

    /// Empties a full bucket and hands out what it held.
    pub fn take(&mut self, idx: usize) -> (e: (SafeHash, K, V))
        requires
            old(self).wf(),
            idx < old(self).spec_capacity(),
            old(self)@[idx as int] is Some,
        ensures
            final(self).wf(),
            final(self)@ == old(self)@.update(idx as int, None),
            final(self).spec_capacity() == old(self).spec_capacity(),
            final(self).spec_size() + 1 == old(self).spec_size(),
            e.0.wf(),
            old(self)@[idx as int] == Some(Slot { hash: e.0.value(), key: e.1, value: e.2 }),
    {
        proof {
            lemma_count_update(self@, idx as int, None);
        }
        let ghost before = self@;
        let hash = SafeHash::new(self.hashes[idx]);
        self.hashes[idx] = EMPTY_BUCKET;
        let mut pair: Option<(K, V)> = None;
        core::mem::swap(&mut self.pairs[idx], &mut pair);
        self.size = self.size - 1;
        proof {
            assert(self@ =~= before.update(idx as int, None));
        }
        match pair {
            Some((key, value)) => (hash, key, value),
            None => vstd::pervasive::unreached(),
        }
    }

    /// Overwrites a full bucket and hands out what it held.
    pub fn replace(&mut self, idx: usize, hash: SafeHash, key: K, value: V) -> (e: (SafeHash, K, V))
        requires
            old(self).wf(),
            hash.wf(),
            idx < old(self).spec_capacity(),
            old(self)@[idx as int] is Some,
        ensures
            final(self).wf(),
            final(self)@ == old(self)@.update(
                idx as int,
                Some(Slot { hash: hash.value(), key, value }),
            ),
            final(self).spec_capacity() == old(self).spec_capacity(),
            final(self).spec_size() == old(self).spec_size(),
            e.0.wf(),
            old(self)@[idx as int] == Some(Slot { hash: e.0.value(), key: e.1, value: e.2 }),
    {
        proof {
            lemma_count_update(self@, idx as int, Some(Slot { hash: hash.value(), key, value }));
        }
        let ghost before = self@;
        let old_hash = SafeHash::new(self.hashes[idx]);
        self.hashes[idx] = hash.inspect();
        let mut pair: Option<(K, V)> = Some((key, value));
        core::mem::swap(&mut self.pairs[idx], &mut pair);
        proof {
            assert(self@ =~= before.update(
                idx as int,
                Some(Slot { hash: hash.value(), key, value }),
            ));
        }
        match pair {
            Some((old_key, old_value)) => (old_hash, old_key, old_value),
            None => vstd::pervasive::unreached(),
        }
    }

    /// Overwrites the value of a full bucket and hands out the old one.
    pub fn replace_value(&mut self, idx: usize, value: V) -> (v: V)
        requires
            old(self).wf(),
            idx < old(self).spec_capacity(),
            old(self)@[idx as int] is Some,
        ensures
            final(self).wf(),
            final(self)@ == old(self)@.update(
                idx as int,
                Some(
                    Slot {
                        hash: old(self)@[idx as int].unwrap().hash,
                        key: old(self)@[idx as int].unwrap().key,
                        value,
                    },
                ),
            ),
            final(self).spec_capacity() == old(self).spec_capacity(),
            final(self).spec_size() == old(self).spec_size(),
            v == old(self)@[idx as int].unwrap().value,
    {
        let ghost before = self@;
        proof {
            lemma_count_update(
                before,
                idx as int,
                Some(
                    Slot {
                        hash: before[idx as int].unwrap().hash,
                        key: before[idx as int].unwrap().key,
                        value,
                    },
                ),
            );
        }
        let mut pair: Option<(K, V)> = None;
        core::mem::swap(&mut self.pairs[idx], &mut pair);
        match pair {
            Some((key, old_value)) => {
                self.pairs[idx] = Some((key, value));
                proof {
                    assert(self@ =~= before.update(
                        idx as int,
                        Some(
                            Slot {
                                hash: before[idx as int].unwrap().hash,
                                key: before[idx as int].unwrap().key,
                                value,
                            },
                        ),
                    ));
                }
                old_value
            },
            None => vstd::pervasive::unreached(),
        }
    }

    /// The value stored in a full bucket, to be changed in place.
    pub fn value_mut(&mut self, idx: usize) -> (v: &mut V)
        requires
            old(self).wf(),
            idx < old(self).spec_capacity(),
            old(self)@[idx as int] is Some,
        ensures
            *v == old(self)@[idx as int].unwrap().value,
            final(self).wf(),
            final(self)@ == old(self)@.update(
                idx as int,
                Some(
                    Slot {
                        hash: old(self)@[idx as int].unwrap().hash,
                        key: old(self)@[idx as int].unwrap().key,
                        value: *final(v),
                    },
                ),
            ),
            final(self).spec_capacity() == old(self).spec_capacity(),
            final(self).spec_size() == old(self).spec_size(),
    {
        let ghost before = self@;
        let v = match &mut self.pairs[idx] {
            Some(pair) => &mut pair.1,
            None => vstd::pervasive::unreached(),
        };
        proof {
            let after = Some(
                Slot {
                    hash: before[idx as int].unwrap().hash,
                    key: before[idx as int].unwrap().key,
                    value: *final(v),
                },
            );
            lemma_count_update(before, idx as int, after);
            assert(after_borrow(self)@ =~= before.update(idx as int, after));
        }
        v
    }
}

} // verus!
