//! What holds of every well-formed map, whatever was done to it.
use vstd::prelude::*;
use vstd::arithmetic::div_mod::{lemma_mod_add_multiples_vanish, lemma_small_mod};
use crate::adaptive_map::HashMap;
use crate::key::{Key, hash_of};
use crate::model::{
    displacement, ideal_index, lemma_map_value, lemma_walk_back, ordered_at, ring_back,
};

verus! {

/// One change to a map.
pub enum Op<K, V> {
    Insert(K, V),
    Remove(K),
}

/// What `get` returns for a key: the value stored with it, if any.
pub open spec fn lookup<K, V>(m: Map<K, V>, k: K) -> Option<V> {
    if m.dom().contains(k) {
        Some(m[k])
    } else {
        None
    }
}

/// The map after one change, as `insert` and `remove` leave it.
pub open spec fn apply<K, V>(m: Map<K, V>, op: Op<K, V>) -> Map<K, V> {
    match op {
        Op::Insert(k, v) => m.insert(k, v),
        Op::Remove(k) => m.remove(k),
    }
}

/// The map after a sequence of changes.
pub open spec fn run<K, V>(m: Map<K, V>, ops: Seq<Op<K, V>>) -> Map<K, V>
    decreases ops.len(),
{
    if ops.len() == 0 {
        m
    } else {
        apply(run(m, ops.drop_last()), ops.last())
    }
}

/// What the last change that names `k` left for it: the value of an
/// insertion, nothing after a removal, and what the map held at first where
/// no change names `k`.
pub open spec fn latest<K, V>(m: Map<K, V>, ops: Seq<Op<K, V>>, k: K) -> Option<V>
    decreases ops.len(),
{
    if ops.len() == 0 {
        lookup(m, k)
    } else {
        match ops.last() {
            Op::Insert(k2, v) => if k2 == k {
                Some(v)
            } else {
                latest(m, ops.drop_last(), k)
            },
            Op::Remove(k2) => if k2 == k {
                None
            } else {
                latest(m, ops.drop_last(), k)
            },
        }
    }
}

/// Round trip: after any sequence of insertions and removals, a key is
/// looked up to the value most recently inserted for it, or to nothing if
/// it was removed since.
pub proof fn law_round_trip<K, V>(m: Map<K, V>, ops: Seq<Op<K, V>>, k: K)
    ensures
        lookup(run(m, ops), k) == latest(m, ops, k),
    decreases ops.len(),
{
    if ops.len() > 0 {
        law_round_trip(m, ops.drop_last(), k);
    }
}

/// Every full bucket lies its displacement past the ideal bucket of its
/// hash, round the ring; its hash is the hash of its key in the map's
/// state; and the buckets from its ideal bucket up to it are full, each
/// with an entry displaced at least as far as this one would be there.
pub proof fn law_bucket_positions<K: Key, V>(m: HashMap<K, V>, i: int, t: int)
    requires
        m.wf(),
        0 <= i < m.slots().len(),
        m.slots()[i] is Some,
        0 <= t <= displacement(m.slots(), i),
    ensures
        0 <= displacement(m.slots(), i) < m.slots().len(),
        i == (ideal_index(m.slots()[i].unwrap().hash, m.slots().len() as int) + displacement(
            m.slots(),
            i,
        )) % (m.slots().len() as int),
        m.slots()[i].unwrap().hash == hash_of(m.hash_keys(), m.slots()[i].unwrap().key),
        ordered_at(m.slots(), i),
        m.slots()[ring_back(i, t, m.slots().len() as int)] is Some,
        displacement(m.slots(), ring_back(i, t, m.slots().len() as int)) >= displacement(
            m.slots(),
            i,
        ) - t,
{
    let s = m.slots();
    let cap = s.len() as int;
    let ib = ideal_index(s[i].unwrap().hash, cap);
    let d = displacement(s, i);
    m.lemma_wf();
    lemma_map_value(s, i);
    lemma_walk_back(s, i, t);
    assert(ordered_at(s, i));
    if ib + d < cap {
        lemma_small_mod((ib + d) as nat, cap as nat);
    } else {
        lemma_mod_add_multiples_vanish(ib + d - cap, cap);
        lemma_small_mod((ib + d - cap) as nat, cap as nat);
    }
    assert(crate::model::hash_map(s).dom().contains(s[i].unwrap().key));
}

/// No key is held by two buckets.
pub proof fn law_no_duplicate_keys<K: Key, V>(m: HashMap<K, V>, i: int, j: int)
    requires
        m.wf(),
        0 <= i < m.slots().len(),
        0 <= j < m.slots().len(),
        m.slots()[i] is Some,
        m.slots()[j] is Some,
        m.slots()[i].unwrap().key == m.slots()[j].unwrap().key,
    ensures
        i == j,
{
    m.lemma_wf();
}

/// The map is read off the buckets: a key is in the map exactly if a
/// bucket holds it, with that bucket's value.
pub proof fn law_map_of_buckets<K: Key, V>(m: HashMap<K, V>, i: int)
    requires
        m.wf(),
        0 <= i < m.slots().len(),
        m.slots()[i] is Some,
    ensures
        m@.dom().contains(m.slots()[i].unwrap().key),
        m@[m.slots()[i].unwrap().key] == m.slots()[i].unwrap().value,
{
    m.lemma_wf();
    lemma_map_value(m.slots(), i);
}

/// Inserting the same key and value a second time changes nothing: the
/// map, and with it the length, stay, and the key is looked up to the
/// value.
pub proof fn law_insert_idempotent<K: Key, V>(
    once: HashMap<K, V>,
    twice: HashMap<K, V>,
    before: Map<K, V>,
    k: K,
    v: V,
)
    requires
        once.wf(),
        twice.wf(),
        once@ == before.insert(k, v),
        twice@ == once@.insert(k, v),
    ensures
        twice@ == once@,
        twice.spec_len() == once.spec_len(),
        lookup(twice@, k) == Some(v),
{
    once.lemma_wf();
    twice.lemma_wf();
    assert(once@.insert(k, v) =~= once@);
}

} // verus!
