//! The mathematical model of a table: a sequence of optional slots read as
//! a ring, with the Robin Hood ordering, and the map that it stands for.
use vstd::prelude::*;

verus! {

/// What a full bucket holds.
pub struct Slot<K, V> {
    pub hash: u64,
    pub key: K,
    pub value: V,
}

/// The bucket at which a probe for `hash` starts.
pub open spec fn ideal_index(hash: u64, cap: int) -> int {
    (hash as int) % cap
}

/// The bucket after `i` on the ring.
pub open spec fn next_index(i: int, cap: int) -> int {
    if i + 1 == cap {
        0
    } else {
        i + 1
    }
}

/// The bucket before `i` on the ring.
pub open spec fn prev_index(i: int, cap: int) -> int {
    if i == 0 {
        cap - 1
    } else {
        i - 1
    }
}

/// The number of steps forward that lead from `from` to `to`.
pub open spec fn ring_distance(from: int, to: int, cap: int) -> int {
    if to >= from {
        to - from
    } else {
        to + cap - from
    }
}

/// The bucket `t` steps before `i`.
pub open spec fn ring_back(i: int, t: int, cap: int) -> int {
    if i >= t {
        i - t
    } else {
        i + cap - t
    }
}

/// The bucket `t` steps after `i`.
pub open spec fn ring_fwd(i: int, t: int, cap: int) -> int {
    if i + t < cap {
        i + t
    } else {
        i + t - cap
    }
}

/// How far the entry in bucket `i` sits from its ideal bucket.
pub open spec fn displacement<K, V>(s: Seq<Option<Slot<K, V>>>, i: int) -> int {
    ring_distance(ideal_index(s[i].unwrap().hash, s.len() as int), i, s.len() as int)
}

/// The Robin Hood ordering at one bucket: a displaced entry follows a full
/// bucket whose entry is displaced by at most one step less.
pub open spec fn ordered_at<K, V>(s: Seq<Option<Slot<K, V>>>, i: int) -> bool {
    s[i] is Some && displacement(s, i) > 0 ==> {
        let p = prev_index(i, s.len() as int);
        s[p] is Some && displacement(s, p) + 1 >= displacement(s, i)
    }
}

/// The Robin Hood ordering of a whole table.
pub open spec fn robin_hood_ordered<K, V>(s: Seq<Option<Slot<K, V>>>) -> bool {
    forall|i: int| 0 <= i < s.len() ==> #[trigger] ordered_at(s, i)
}

/// Bucket `i` is full and holds key `k`.
pub open spec fn holds_key<K, V>(s: Seq<Option<Slot<K, V>>>, i: int, k: K) -> bool {
    0 <= i < s.len() && s[i] is Some && s[i].unwrap().key == k
}

/// Some bucket holds key `k`.
pub open spec fn has_key<K, V>(s: Seq<Option<Slot<K, V>>>, k: K) -> bool {
    exists|i: int| holds_key(s, i, k)
}

/// No two full buckets hold the same key.
pub open spec fn distinct_keys<K, V>(s: Seq<Option<Slot<K, V>>>) -> bool {
    forall|i: int, j: int|
        0 <= i < s.len() && 0 <= j < s.len() && #[trigger] s[i] is Some && #[trigger] s[j] is Some
            && s[i].unwrap().key == s[j].unwrap().key ==> i == j
}

/// A bucket that holds key `k`.
pub open spec fn index_of<K, V>(s: Seq<Option<Slot<K, V>>>, k: K) -> int {
    choose|i: int| holds_key(s, i, k)
}

/// The map from each stored key to the value stored with it.
pub open spec fn as_map<K, V>(s: Seq<Option<Slot<K, V>>>) -> Map<K, V> {
    Map::new(|k: K| has_key(s, k), |k: K| s[index_of(s, k)].unwrap().value)
}

/// The map from each stored key to the hash stored with it.
pub open spec fn hash_map<K, V>(s: Seq<Option<Slot<K, V>>>) -> Map<K, u64> {
    Map::new(|k: K| has_key(s, k), |k: K| s[index_of(s, k)].unwrap().hash)
}

/// The map from each stored key to the whole of its bucket.
pub open spec fn entries<K, V>(s: Seq<Option<Slot<K, V>>>) -> Map<K, Slot<K, V>> {
    Map::new(|k: K| has_key(s, k), |k: K| s[index_of(s, k)].unwrap())
}

/// The maps of two tables with the same entries are the same.
pub proof fn lemma_maps_follow<K, V>(
    s: Seq<Option<Slot<K, V>>>,
    u: Seq<Option<Slot<K, V>>>,
)
    requires
        entries(u) == entries(s),
    ensures
        as_map(u) == as_map(s),
        hash_map(u) == hash_map(s),
{
    assert forall|k: K| #[trigger] has_key(u, k) == has_key(s, k) by {
        assert(entries(u).dom().contains(k) == has_key(u, k));
        assert(entries(s).dom().contains(k) == has_key(s, k));
    }
    assert forall|k: K| has_key(u, k) implies as_map(u)[k] == as_map(s)[k] && hash_map(u)[k]
        == hash_map(s)[k] by {
        assert(has_key(s, k));
        assert(entries(u).dom().contains(k));
        assert(entries(s).dom().contains(k));
        assert(entries(u)[k] == u[index_of(u, k)].unwrap());
        assert(entries(s)[k] == s[index_of(s, k)].unwrap());
        assert(as_map(u)[k] == u[index_of(u, k)].unwrap().value);
        assert(as_map(s)[k] == s[index_of(s, k)].unwrap().value);
        assert(entries(u)[k] == entries(s)[k]);
    }
    assert(as_map(u) =~= as_map(s));
    assert(hash_map(u) =~= hash_map(s));
}

/// Each map of a table after one key's entry has been set.
pub proof fn lemma_maps_insert<K, V>(
    s: Seq<Option<Slot<K, V>>>,
    u: Seq<Option<Slot<K, V>>>,
    e: Slot<K, V>,
)
    requires
        entries(u) == entries(s).insert(e.key, e),
    ensures
        as_map(u) == as_map(s).insert(e.key, e.value),
        hash_map(u) == hash_map(s).insert(e.key, e.hash),
{
    let m = entries(s).insert(e.key, e);
    assert forall|k: K| #[trigger] has_key(u, k) == (k == e.key || has_key(s, k)) by {
        assert(entries(u).dom().contains(k) == has_key(u, k));
        assert(entries(s).dom().contains(k) == has_key(s, k));
        assert(m.dom().contains(k) == (k == e.key || entries(s).dom().contains(k)));
    }
    assert forall|k: K| #[trigger] has_key(u, k) implies as_map(u)[k] == as_map(s).insert(e.key, e.value)[k]
        && hash_map(u)[k] == hash_map(s).insert(e.key, e.hash)[k] by {
        assert(entries(u).dom().contains(k));
        assert(entries(u)[k] == u[index_of(u, k)].unwrap());
        assert(as_map(u)[k] == u[index_of(u, k)].unwrap().value);
        assert(hash_map(u)[k] == u[index_of(u, k)].unwrap().hash);
        assert(entries(u)[k] == m[k]);
        if k != e.key {
            assert(entries(s).dom().contains(k));
            assert(entries(s)[k] == s[index_of(s, k)].unwrap());
            assert(as_map(s)[k] == s[index_of(s, k)].unwrap().value);
            assert(hash_map(s)[k] == s[index_of(s, k)].unwrap().hash);
        }
    }
    assert(as_map(u) =~= as_map(s).insert(e.key, e.value));
    assert(hash_map(u) =~= hash_map(s).insert(e.key, e.hash));
}

/// Each map of a table after one key's entry has been removed.
pub proof fn lemma_maps_remove<K, V>(
    s: Seq<Option<Slot<K, V>>>,
    u: Seq<Option<Slot<K, V>>>,
    key: K,
)
    requires
        entries(u) == entries(s).remove(key),
    ensures
        as_map(u) == as_map(s).remove(key),
        hash_map(u) == hash_map(s).remove(key),
{
    let m = entries(s).remove(key);
    assert forall|k: K| #[trigger] has_key(u, k) == (k != key && has_key(s, k)) by {
        assert(entries(u).dom().contains(k) == has_key(u, k));
        assert(entries(s).dom().contains(k) == has_key(s, k));
        assert(m.dom().contains(k) == (k != key && entries(s).dom().contains(k)));
    }
    assert forall|k: K| #[trigger] has_key(u, k) implies as_map(u)[k] == as_map(s).remove(key)[k]
        && hash_map(u)[k] == hash_map(s).remove(key)[k] by {
        assert(entries(u).dom().contains(k));
        assert(entries(s).dom().contains(k));
        assert(entries(u)[k] == u[index_of(u, k)].unwrap());
        assert(as_map(u)[k] == u[index_of(u, k)].unwrap().value);
        assert(hash_map(u)[k] == u[index_of(u, k)].unwrap().hash);
        assert(entries(u)[k] == m[k]);
        assert(entries(s)[k] == s[index_of(s, k)].unwrap());
        assert(as_map(s)[k] == s[index_of(s, k)].unwrap().value);
        assert(hash_map(s)[k] == s[index_of(s, k)].unwrap().hash);
    }
    assert(as_map(u) =~= as_map(s).remove(key));
    assert(hash_map(u) =~= hash_map(s).remove(key));
}

/// The number of full buckets.
pub open spec fn count_full<K, V>(s: Seq<Option<Slot<K, V>>>) -> nat
    decreases s.len(),
{
    if s.len() == 0 {
        0
    } else {
        count_full(s.drop_last()) + if s.last() is Some {
            1nat
        } else {
            0nat
        }
    }
}

/// The table of `cap` empty buckets.
pub open spec fn empty_slots<K, V>(cap: nat) -> Seq<Option<Slot<K, V>>> {
    Seq::new(cap, |i: int| None)
}

/// A table has at most as many entries as buckets; as many only if every
/// bucket is full, and none only if every bucket is empty.
pub proof fn lemma_count_bound<K, V>(s: Seq<Option<Slot<K, V>>>)
    ensures
        count_full(s) <= s.len(),
        count_full(s) == s.len() ==> forall|i: int| 0 <= i < s.len() ==> (#[trigger] s[i]) is Some,
        count_full(s) == 0 ==> forall|i: int| 0 <= i < s.len() ==> (#[trigger] s[i]) is None,
    decreases s.len(),
{
    if s.len() > 0 {
        lemma_count_bound(s.drop_last());
        assert forall|i: int| 0 <= i < s.len() && count_full(s) == s.len() implies (#[trigger] s[i]) is Some by {
            if i < s.len() - 1 {
                assert(s.drop_last()[i] is Some);
            }
        }
        assert forall|i: int| 0 <= i < s.len() && count_full(s) == 0 implies (#[trigger] s[i]) is None by {
            if i < s.len() - 1 {
                assert(s.drop_last()[i] is None);
            }
        }
    }
}

/// Writing one bucket changes the count by that bucket alone.
pub proof fn lemma_count_update<K, V>(s: Seq<Option<Slot<K, V>>>, i: int, x: Option<Slot<K, V>>)
    requires
        0 <= i < s.len(),
    ensures
        count_full(s.update(i, x)) + (if s[i] is Some { 1int } else { 0int })
            == count_full(s) + (if x is Some { 1int } else { 0int }),
    decreases s.len(),
{
    let u = s.update(i, x);
    if i == s.len() - 1 {
        assert(u.drop_last() =~= s.drop_last());
    } else {
        lemma_count_update(s.drop_last(), i, x);
        assert(u.drop_last() =~= s.drop_last().update(i, x));
    }
}

/// A table of empty buckets has no entry.
pub proof fn lemma_count_empty<K, V>(cap: nat)
    ensures
        count_full(empty_slots::<K, V>(cap)) == 0,
    decreases cap,
{
    if cap > 0 {
        lemma_count_empty::<K, V>((cap - 1) as nat);
        assert(empty_slots::<K, V>(cap).drop_last() =~= empty_slots::<K, V>((cap - 1) as nat));
    }
}

/// A table with fewer entries than buckets has an empty bucket.
pub proof fn lemma_has_empty<K, V>(s: Seq<Option<Slot<K, V>>>) -> (e: int)
    requires
        count_full(s) < s.len(),
    ensures
        0 <= e < s.len(),
        s[e] is None,
    decreases s.len(),
{
    if s.last() is None {
        (s.len() - 1) as int
    } else {
        let e = lemma_has_empty(s.drop_last());
        assert(s.drop_last()[e] is None);
        e
    }
}

/// A table with an entry has a full bucket.
pub proof fn lemma_has_full<K, V>(s: Seq<Option<Slot<K, V>>>) -> (p: int)
    requires
        count_full(s) > 0,
    ensures
        0 <= p < s.len(),
        s[p] is Some,
    decreases s.len(),
{
    if s.last() is Some {
        (s.len() - 1) as int
    } else {
        let p = lemma_has_full(s.drop_last());
        assert(s.drop_last()[p] is Some);
        p
    }
}

/// In an ordered table the buckets between an entry's ideal bucket and the
/// entry are full, each displaced at least as far as the entry would be
/// there.
pub proof fn lemma_walk_back<K, V>(s: Seq<Option<Slot<K, V>>>, i: int, t: int)
    requires
        robin_hood_ordered(s),
        0 <= i < s.len(),
        s[i] is Some,
        0 <= t <= displacement(s, i),
    ensures
        s[ring_back(i, t, s.len() as int)] is Some,
        displacement(s, ring_back(i, t, s.len() as int)) >= displacement(s, i) - t,
    decreases t,
{
    if t > 0 {
        lemma_walk_back(s, i, t - 1);
        let j = ring_back(i, t - 1, s.len() as int);
        assert(ordered_at(s, j));
        assert(prev_index(j, s.len() as int) == ring_back(i, t, s.len() as int));
    }
}

/// A full bucket's key is in the map, with the bucket's value.
pub proof fn lemma_map_value<K, V>(s: Seq<Option<Slot<K, V>>>, i: int)
    requires
        distinct_keys(s),
        0 <= i < s.len(),
        s[i] is Some,
    ensures
        has_key(s, s[i].unwrap().key),
        index_of(s, s[i].unwrap().key) == i,
        as_map(s).dom().contains(s[i].unwrap().key),
        as_map(s)[s[i].unwrap().key] == s[i].unwrap().value,
        hash_map(s)[s[i].unwrap().key] == s[i].unwrap().hash,
        entries(s)[s[i].unwrap().key] == s[i].unwrap(),
{
    let k = s[i].unwrap().key;
    assert(holds_key(s, i, k));
    let j = index_of(s, k);
    assert(holds_key(s, j, k));
}

/// What the map of a table is, given its keys and the value at each.
pub proof fn lemma_map_is<K, V>(s: Seq<Option<Slot<K, V>>>, m: Map<K, Slot<K, V>>)
    requires
        distinct_keys(s),
        forall|k: K| #[trigger] m.dom().contains(k) <==> has_key(s, k),
        forall|i: int| 0 <= i < s.len() && #[trigger] s[i] is Some ==> m[s[i].unwrap().key] == s[i].unwrap(),
    ensures
        entries(s) == m,
{
    assert forall|k: K| #[trigger] entries(s).dom().contains(k) implies entries(s)[k] == m[k] by {
        let i = index_of(s, k);
        assert(holds_key(s, i, k));
        assert(s[i] is Some);
    }
    assert(entries(s) =~= m);
}

/// Filling an empty bucket with a new key adds that key to the map.
pub proof fn lemma_map_put<K, V>(s: Seq<Option<Slot<K, V>>>, p: int, e: Slot<K, V>)
    requires
        distinct_keys(s),
        0 <= p < s.len(),
        s[p] is None,
        !has_key(s, e.key),
    ensures
        distinct_keys(s.update(p, Some(e))),
        entries(s.update(p, Some(e))) == entries(s).insert(e.key, e),
        as_map(s.update(p, Some(e))) == as_map(s).insert(e.key, e.value),
        hash_map(s.update(p, Some(e))) == hash_map(s).insert(e.key, e.hash),
{
    let u = s.update(p, Some(e));
    assert forall|i: int, j: int|
        0 <= i < u.len() && 0 <= j < u.len() && #[trigger] u[i] is Some && #[trigger] u[j] is Some
            && u[i].unwrap().key == u[j].unwrap().key implies i == j by {
        if i != p && j != p {
            assert(s[i] is Some && s[j] is Some);
        } else if i != p {
            assert(holds_key(s, i, e.key));
        } else if j != p {
            assert(holds_key(s, j, e.key));
        }
    }
    let m = entries(s).insert(e.key, e);
    assert forall|k: K| #[trigger] m.dom().contains(k) <==> has_key(u, k) by {
        if has_key(u, k) {
            let i = choose|i: int| holds_key(u, i, k);
            if i != p {
                assert(holds_key(s, i, k));
            }
        }
        if k == e.key {
            assert(holds_key(u, p, k));
        } else if has_key(s, k) {
            let i = choose|i: int| holds_key(s, i, k);
            assert(holds_key(u, i, k));
        }
    }
    assert forall|i: int| 0 <= i < u.len() && #[trigger] u[i] is Some implies m[u[i].unwrap().key]
        == u[i].unwrap() by {
        if i != p {
            assert(s[i] is Some);
            lemma_map_value(s, i);
            assert(holds_key(s, i, s[i].unwrap().key));
        }
    }
    lemma_map_is(u, m);
    lemma_maps_insert(s, u, e);
}

/// Emptying a full bucket removes its key from the map.
pub proof fn lemma_map_take<K, V>(s: Seq<Option<Slot<K, V>>>, p: int)
    requires
        distinct_keys(s),
        0 <= p < s.len(),
        s[p] is Some,
    ensures
        distinct_keys(s.update(p, None)),
        !has_key(s.update(p, None), s[p].unwrap().key),
        entries(s.update(p, None)) == entries(s).remove(s[p].unwrap().key),
        as_map(s.update(p, None)) == as_map(s).remove(s[p].unwrap().key),
        hash_map(s.update(p, None)) == hash_map(s).remove(s[p].unwrap().key),
{
    let u = s.update(p, None);
    let key = s[p].unwrap().key;
    assert forall|i: int, j: int|
        0 <= i < u.len() && 0 <= j < u.len() && #[trigger] u[i] is Some && #[trigger] u[j] is Some
            && u[i].unwrap().key == u[j].unwrap().key implies i == j by {
        assert(s[i] is Some && s[j] is Some);
    }
    if has_key(u, key) {
        let i = choose|i: int| holds_key(u, i, key);
        assert(s[i] is Some);
        assert(false);
    }
    let m = entries(s).remove(key);
    assert forall|k: K| #[trigger] m.dom().contains(k) <==> has_key(u, k) by {
        if has_key(u, k) {
            let i = choose|i: int| holds_key(u, i, k);
            assert(holds_key(s, i, k));
        }
        if k != key && has_key(s, k) {
            let i = choose|i: int| holds_key(s, i, k);
            assert(holds_key(u, i, k));
        }
    }
    assert forall|i: int| 0 <= i < u.len() && #[trigger] u[i] is Some implies m[u[i].unwrap().key]
        == u[i].unwrap() by {
        assert(s[i] is Some);
        lemma_map_value(s, i);
    }
    lemma_map_is(u, m);
    lemma_maps_remove(s, u, key);
}

/// Overwriting a full bucket swaps its key for the new one in the map.
pub proof fn lemma_map_replace<K, V>(s: Seq<Option<Slot<K, V>>>, p: int, e: Slot<K, V>)
    requires
        distinct_keys(s),
        0 <= p < s.len(),
        s[p] is Some,
        e.key == s[p].unwrap().key || !has_key(s, e.key),
    ensures
        distinct_keys(s.update(p, Some(e))),
        entries(s.update(p, Some(e))) == entries(s).remove(s[p].unwrap().key).insert(e.key, e),
        as_map(s.update(p, Some(e))) == as_map(s).remove(s[p].unwrap().key).insert(e.key, e.value),
        hash_map(s.update(p, Some(e))) == hash_map(s).remove(s[p].unwrap().key).insert(
            e.key,
            e.hash,
        ),
{
    lemma_map_take(s, p);
    let t = s.update(p, None);
    if has_key(t, e.key) {
        let i = choose|i: int| holds_key(t, i, e.key);
        assert(holds_key(s, i, e.key));
    }
    lemma_map_put(t, p, e);
    assert(t.update(p, Some(e)) =~= s.update(p, Some(e)));
}

/// Moving an entry into an empty bucket leaves the map as it is.
pub proof fn lemma_map_move<K, V>(s: Seq<Option<Slot<K, V>>>, from: int, to: int)
    requires
        distinct_keys(s),
        0 <= from < s.len(),
        0 <= to < s.len(),
        s[from] is Some,
        s[to] is None,
    ensures
        distinct_keys(s.update(to, s[from]).update(from, None)),
        entries(s.update(to, s[from]).update(from, None)) == entries(s),
        as_map(s.update(to, s[from]).update(from, None)) == as_map(s),
        hash_map(s.update(to, s[from]).update(from, None)) == hash_map(s),
{
    let e = s[from].unwrap();
    lemma_map_value(s, from);
    lemma_map_take(s, from);
    let t = s.update(from, None);
    lemma_map_put(t, to, e);
    assert(t.update(to, Some(e)) =~= s.update(to, s[from]).update(from, None));
    assert(entries(s).remove(e.key).insert(e.key, e) =~= entries(s));
    lemma_maps_follow(s, s.update(to, s[from]).update(from, None));
}

/// Any bucket that holds key `k` stores hash `h` with it.
pub open spec fn hash_agrees<K, V>(s: Seq<Option<Slot<K, V>>>, k: K, h: u64) -> bool {
    forall|i: int| #[trigger] holds_key(s, i, k) ==> s[i].unwrap().hash == h
}

/// An entry displaced by `d` may stand in bucket `p`: the bucket before
/// it is full, with an entry displaced by at least `d - 1`.
pub open spec fn may_stand<K, V>(s: Seq<Option<Slot<K, V>>>, p: int, d: int) -> bool {
    d > 0 ==> {
        let q = prev_index(p, s.len() as int);
        s[q] is Some && displacement(s, q) + 1 >= d
    }
}

/// The `d` buckets before a bucket where an entry displaced by `d` may
/// stand are full.
pub proof fn lemma_run_full<K, V>(s: Seq<Option<Slot<K, V>>>, p: int, d: int, t: int)
    requires
        robin_hood_ordered(s),
        0 <= p < s.len(),
        0 <= d < s.len(),
        may_stand(s, p, d),
        1 <= t <= d,
    ensures
        s[ring_back(p, t, s.len() as int)] is Some,
        displacement(s, ring_back(p, t, s.len() as int)) >= d - t,
{
    let cap = s.len() as int;
    let q = prev_index(p, cap);
    lemma_walk_back(s, q, t - 1);
    assert(ring_back(q, t - 1, cap) == ring_back(p, t, cap));
}

/// The first `n` buckets of the probe for `h` are full, each with an entry
/// displaced at least as far as the probe has come.
pub open spec fn run_full<K, V>(s: Seq<Option<Slot<K, V>>>, h: u64, n: int) -> bool {
    let cap = s.len() as int;
    let ib = ideal_index(h, cap);
    forall|t: int|
        0 <= t < n ==> (#[trigger] s[ring_fwd(ib, t, cap)]) is Some && displacement(
            s,
            ring_fwd(ib, t, cap),
        ) >= t
}

/// None of the first `n` buckets of the probe for `h` holds key `k`.
pub open spec fn run_misses<K, V>(s: Seq<Option<Slot<K, V>>>, h: u64, k: K, n: int) -> bool {
    let cap = s.len() as int;
    let ib = ideal_index(h, cap);
    forall|t: int| 0 <= t < n ==> !#[trigger] holds_key(s, ring_fwd(ib, t, cap), k)
}

/// The probe for `(h, k)` is not settled within `n` buckets: it passes
/// each of them.
pub open spec fn blocked<K, V>(s: Seq<Option<Slot<K, V>>>, h: u64, k: K, n: int) -> bool {
    run_full(s, h, n) && run_misses(s, h, k, n)
}

/// A probe that has passed `d` buckets without meeting `k`, and stands at
/// an empty bucket or at an entry displaced by less than `d`, shows that
/// `k` is not in the table.
pub proof fn lemma_absent<K, V>(s: Seq<Option<Slot<K, V>>>, h: u64, k: K, d: int)
    requires
        robin_hood_ordered(s),
        hash_agrees(s, k, h),
        0 <= d < s.len(),
        run_misses(s, h, k, d),
        ({
            let p = ring_fwd(ideal_index(h, s.len() as int), d, s.len() as int);
            s[p] is None || displacement(s, p) < d
        }),
    ensures
        !has_key(s, k),
{
    let cap = s.len() as int;
    let ib = ideal_index(h, cap);
    let p = ring_fwd(ib, d, cap);
    if has_key(s, k) {
        let j = choose|j: int| holds_key(s, j, k);
        assert(s[j] is Some);
        let dj = displacement(s, j);
        if dj < d {
            assert(ring_fwd(ib, dj, cap) == j);
            assert(!holds_key(s, ring_fwd(ib, dj, cap), k));
        } else {
            lemma_walk_back(s, j, dj - d);
            assert(ring_back(j, dj - d, cap) == p);
        }
    }
}

/// A probe that passes one more full bucket has not come round the ring,
/// and comes one step nearer to any empty bucket.
pub proof fn lemma_pass<K, V>(s: Seq<Option<Slot<K, V>>>, h: u64, d: int, e: int)
    requires
        0 <= d < s.len(),
        0 <= e < s.len(),
        s[e] is None,
        run_full(s, h, d),
        ({
            let p = ring_fwd(ideal_index(h, s.len() as int), d, s.len() as int);
            s[p] is Some && displacement(s, p) >= d
        }),
    ensures
        d + 1 < s.len(),
        run_full(s, h, d + 1),
        ring_fwd(ideal_index(h, s.len() as int), d + 1, s.len() as int) == next_index(
            ring_fwd(ideal_index(h, s.len() as int), d, s.len() as int),
            s.len() as int,
        ),
        ring_distance(
            ring_fwd(ideal_index(h, s.len() as int), d + 1, s.len() as int),
            e,
            s.len() as int,
        ) + 1 == ring_distance(
            ring_fwd(ideal_index(h, s.len() as int), d, s.len() as int),
            e,
            s.len() as int,
        ),
{
    let cap = s.len() as int;
    let ib = ideal_index(h, cap);
    if d + 1 == cap {
        let t = ring_distance(ib, e, cap);
        assert(ring_fwd(ib, t, cap) == e);
        assert(s[ring_fwd(ib, t, cap)] is Some);
    }
}

/// Where the probe has passed `d` buckets, an entry displaced by `d` may
/// stand in the next one.
pub proof fn lemma_run_stands<K, V>(s: Seq<Option<Slot<K, V>>>, h: u64, d: int)
    requires
        0 <= d < s.len(),
        run_full(s, h, d),
    ensures
        may_stand(s, ring_fwd(ideal_index(h, s.len() as int), d, s.len() as int), d),
        ring_distance(
            ideal_index(h, s.len() as int),
            ring_fwd(ideal_index(h, s.len() as int), d, s.len() as int),
            s.len() as int,
        ) == d,
{
    let cap = s.len() as int;
    let ib = ideal_index(h, cap);
    if d > 0 {
        assert(s[ring_fwd(ib, d - 1, cap)] is Some);
        assert(prev_index(ring_fwd(ib, d, cap), cap) == ring_fwd(ib, d - 1, cap));
    }
}

/// Filling the empty bucket at the end of a probe keeps the ordering.
pub proof fn lemma_place<K, V>(s: Seq<Option<Slot<K, V>>>, p: int, e: Slot<K, V>)
    requires
        robin_hood_ordered(s),
        0 <= p < s.len(),
        s[p] is None,
        may_stand(s, p, ring_distance(ideal_index(e.hash, s.len() as int), p, s.len() as int)),
    ensures
        robin_hood_ordered(s.update(p, Some(e))),
{
    let cap = s.len() as int;
    let u = s.update(p, Some(e));
    assert forall|i: int| 0 <= i < u.len() implies #[trigger] ordered_at(u, i) by {
        assert(ordered_at(s, i));
        if i != p && u[i] is Some && displacement(u, i) > 0 {
            assert(prev_index(i, cap) != p);
        }
    }
}

/// An entry that takes the bucket of a less displaced one keeps the
/// ordering, and the entry put out may stand in the next bucket.
pub proof fn lemma_steal<K, V>(s: Seq<Option<Slot<K, V>>>, p: int, e: Slot<K, V>)
    requires
        robin_hood_ordered(s),
        0 <= p < s.len(),
        s[p] is Some,
        may_stand(s, p, ring_distance(ideal_index(e.hash, s.len() as int), p, s.len() as int)),
        displacement(s, p) < ring_distance(ideal_index(e.hash, s.len() as int), p, s.len() as int),
    ensures
        robin_hood_ordered(s.update(p, Some(e))),
        may_stand(s.update(p, Some(e)), next_index(p, s.len() as int), displacement(s, p) + 1),
        ring_distance(
            ideal_index(s[p].unwrap().hash, s.len() as int),
            next_index(p, s.len() as int),
            s.len() as int,
        ) == displacement(s, p) + 1,
{
    let cap = s.len() as int;
    let u = s.update(p, Some(e));
    assert forall|i: int| 0 <= i < u.len() implies #[trigger] ordered_at(u, i) by {
        assert(ordered_at(s, i));
    }
}

/// A probe that passes a full bucket has not come round the ring, and
/// comes one step nearer to any empty bucket.
pub proof fn lemma_advance<K, V>(s: Seq<Option<Slot<K, V>>>, p: int, d: int, ib: int, e: int)
    requires
        robin_hood_ordered(s),
        0 <= p < s.len(),
        0 <= ib < s.len(),
        0 <= e < s.len(),
        s[e] is None,
        s[p] is Some,
        d == ring_distance(ib, p, s.len() as int),
        may_stand(s, p, d),
        displacement(s, p) >= d,
    ensures
        d + 1 < s.len(),
        ring_distance(ib, next_index(p, s.len() as int), s.len() as int) == d + 1,
        may_stand(s, next_index(p, s.len() as int), d + 1),
        ring_distance(next_index(p, s.len() as int), e, s.len() as int) + 1 == ring_distance(
            p,
            e,
            s.len() as int,
        ),
{
    let cap = s.len() as int;
    if d + 1 == cap {
        let t = ring_distance(e, p, cap);
        lemma_run_full(s, p, d, t);
        assert(ring_back(p, t, cap) == e);
    }
}

/// `u` is `s` after the entry of bucket `j` was taken out and the `n`
/// entries that follow it were moved back by one bucket each.
pub open spec fn moved_back<K, V>(
    s: Seq<Option<Slot<K, V>>>,
    u: Seq<Option<Slot<K, V>>>,
    j: int,
    n: int,
) -> bool {
    let cap = s.len() as int;
    &&& u.len() == s.len()
    &&& 0 <= n
    &&& n + 1 < cap
    &&& forall|t: int|
        0 <= t < n ==> #[trigger] u[ring_fwd(j, t, cap)] == s[ring_fwd(j, t + 1, cap)] && s[ring_fwd(
            j,
            t + 1,
            cap,
        )] is Some && displacement(s, ring_fwd(j, t + 1, cap)) > 0
    &&& u[ring_fwd(j, n, cap)] is None
    &&& forall|i: int| 0 <= i < cap && ring_distance(j, i, cap) > n ==> #[trigger] u[i] == s[i]
}

/// `u` is `s` after the removal of the entry of bucket `j` with backward
/// shift: the entries after it were moved back by one bucket each, up to
/// the first empty bucket or the first entry in its ideal bucket.
pub open spec fn shifted_back<K, V>(
    s: Seq<Option<Slot<K, V>>>,
    u: Seq<Option<Slot<K, V>>>,
    j: int,
) -> bool {
    exists|n: int|
        {
            let stop = ring_fwd(j, n + 1, s.len() as int);
            #[trigger] moved_back(s, u, j, n) && (s[stop] is None || displacement(s, stop) == 0)
        }
}

/// One more entry moved back.
pub proof fn lemma_moved_back_step<K, V>(
    s: Seq<Option<Slot<K, V>>>,
    u: Seq<Option<Slot<K, V>>>,
    j: int,
    n: int,
)
    requires
        0 <= j < s.len(),
        moved_back(s, u, j, n),
        n + 2 < s.len(),
        u[ring_fwd(j, n + 1, s.len() as int)] is Some,
        displacement(u, ring_fwd(j, n + 1, s.len() as int)) > 0,
    ensures
        moved_back(
            s,
            u.update(ring_fwd(j, n, s.len() as int), u[ring_fwd(j, n + 1, s.len() as int)]).update(
                ring_fwd(j, n + 1, s.len() as int),
                None,
            ),
            j,
            n + 1,
        ),
{
    let cap = s.len() as int;
    let g = ring_fwd(j, n, cap);
    let nx = ring_fwd(j, n + 1, cap);
    let w = u.update(g, u[nx]).update(nx, None);
    assert(ring_distance(j, nx, cap) == n + 1);
    assert(u[nx] == s[nx]);
    assert forall|t: int| 0 <= t < n + 1 implies #[trigger] w[ring_fwd(j, t, cap)] == s[ring_fwd(
        j,
        t + 1,
        cap,
    )] && s[ring_fwd(j, t + 1, cap)] is Some && displacement(s, ring_fwd(j, t + 1, cap)) > 0 by {
        if t < n {
            assert(u[ring_fwd(j, t, cap)] == s[ring_fwd(j, t + 1, cap)]);
        }
    }
}

/// A table that is ordered but for the bucket after the gap `g`, where an
/// entry may be waiting to move back into the gap.
pub open spec fn shifting<K, V>(s: Seq<Option<Slot<K, V>>>, g: int) -> bool {
    let cap = s.len() as int;
    let n = next_index(g, cap);
    &&& 0 <= g < cap
    &&& s[g] is None
    &&& forall|i: int| 0 <= i < cap && i != n ==> #[trigger] ordered_at(s, i)
    &&& s[n] is Some && displacement(s, n) > 1 ==> {
        let q = prev_index(g, cap);
        s[q] is Some && displacement(s, q) + 2 >= displacement(s, n)
    }
}

/// Emptying a bucket of an ordered table leaves a gap to shift into.
pub proof fn lemma_shift_start<K, V>(s: Seq<Option<Slot<K, V>>>, j: int)
    requires
        robin_hood_ordered(s),
        0 <= j < s.len(),
        s[j] is Some,
    ensures
        shifting(s.update(j, None), j),
{
    let cap = s.len() as int;
    let u = s.update(j, None);
    let n = next_index(j, cap);
    assert forall|i: int| 0 <= i < cap && i != n implies #[trigger] ordered_at(u, i) by {
        assert(ordered_at(s, i));
    }
    assert(ordered_at(s, n));
    assert(ordered_at(s, j));
}

/// Moving the entry after the gap back by one moves the gap forward.
pub proof fn lemma_shift_step<K, V>(s: Seq<Option<Slot<K, V>>>, g: int)
    requires
        shifting(s, g),
        s[next_index(g, s.len() as int)] is Some,
        displacement(s, next_index(g, s.len() as int)) > 0,
    ensures
        shifting(
            s.update(g, s[next_index(g, s.len() as int)]).update(next_index(g, s.len() as int), None),
            next_index(g, s.len() as int),
        ),
{
    let cap = s.len() as int;
    let n = next_index(g, cap);
    let nn = next_index(n, cap);
    let u = s.update(g, s[n]).update(n, None);
    assert(displacement(u, g) == displacement(s, n) - 1);
    assert forall|i: int| 0 <= i < cap && i != nn implies #[trigger] ordered_at(u, i) by {
        if i != n && i != g {
            assert(ordered_at(s, i));
        }
    }
    if nn != n && nn != g {
        assert(ordered_at(s, nn));
    }
}

/// Once the bucket after the gap is empty or holds an entry in its ideal
/// bucket, the table is ordered.
pub proof fn lemma_shift_done<K, V>(s: Seq<Option<Slot<K, V>>>, g: int)
    requires
        shifting(s, g),
        s[next_index(g, s.len() as int)] is None || displacement(s, next_index(g, s.len() as int))
            == 0,
    ensures
        robin_hood_ordered(s),
{
}

/// Overwriting a full bucket with an entry of the same hash keeps the
/// ordering.
pub proof fn lemma_same_hash<K, V>(s: Seq<Option<Slot<K, V>>>, p: int, e: Slot<K, V>)
    requires
        robin_hood_ordered(s),
        0 <= p < s.len(),
        s[p] is Some,
        s[p].unwrap().hash == e.hash,
    ensures
        robin_hood_ordered(s.update(p, Some(e))),
{
    let u = s.update(p, Some(e));
    assert forall|i: int| 0 <= i < u.len() implies #[trigger] ordered_at(u, i) by {
        assert(ordered_at(s, i));
    }
}

/// Where some bucket is empty, no probe passes every bucket of the table.
pub proof fn lemma_not_blocked<K, V>(s: Seq<Option<Slot<K, V>>>, h: u64, k: K, n: int, e: int)
    requires
        0 <= e < s.len(),
        s[e] is None,
        n >= s.len(),
    ensures
        !blocked(s, h, k, n),
{
    let cap = s.len() as int;
    let ib = ideal_index(h, cap);
    let t = ring_distance(ib, e, cap);
    assert(ring_fwd(ib, t, cap) == e);
    if run_full(s, h, n) {
        assert(s[ring_fwd(ib, t, cap)] is Some);
    }
}

/// The keys of a table without a repeated key are as many as its full
/// buckets.
pub proof fn lemma_map_len<K, V>(s: Seq<Option<Slot<K, V>>>)
    requires
        distinct_keys(s),
    ensures
        as_map(s).dom().finite(),
        as_map(s).dom().len() == count_full(s),
    decreases count_full(s),
{
    lemma_count_bound(s);
    if count_full(s) == 0 {
        assert forall|k: K| !as_map(s).dom().contains(k) by {
            if has_key(s, k) {
                let i = choose|i: int| holds_key(s, i, k);
                assert(s[i] is None);
            }
        }
        assert(as_map(s).dom() =~= Set::<K>::empty());
    } else {
        let p = lemma_has_full(s);
        let u = s.update(p, None);
        let k = s[p].unwrap().key;
        lemma_count_update(s, p, None);
        lemma_map_take(s, p);
        lemma_map_value(s, p);
        lemma_map_len(u);
        assert(as_map(s).dom() =~= as_map(u).dom().insert(k));
    }
}

/// A table of empty buckets stands for the empty map and is ordered.
pub proof fn lemma_empty_table<K, V>(cap: nat)
    ensures
        robin_hood_ordered(empty_slots::<K, V>(cap)),
        distinct_keys(empty_slots::<K, V>(cap)),
        as_map(empty_slots::<K, V>(cap)) == Map::<K, V>::empty(),
        hash_map(empty_slots::<K, V>(cap)) == Map::<K, u64>::empty(),
        forall|k: K| !has_key(empty_slots::<K, V>(cap), k),
{
    let s = empty_slots::<K, V>(cap);
    assert forall|i: int| 0 <= i < s.len() implies #[trigger] ordered_at(s, i) by {}
    assert forall|k: K| !has_key(s, k) by {
        if has_key(s, k) {
            let i = choose|i: int| holds_key(s, i, k);
            assert(s[i] is None);
        }
    }
    assert(as_map(s) =~= Map::<K, V>::empty());
    assert(hash_map(s) =~= Map::<K, u64>::empty());
}

/// A table whose buckets are all empty has no entry.
pub proof fn lemma_has_full_contra<K, V>(s: Seq<Option<Slot<K, V>>>)
    requires
        forall|i: int| 0 <= i < s.len() ==> (#[trigger] s[i]) is None,
    ensures
        count_full(s) == 0,
{
    if count_full(s) > 0 {
        let p = lemma_has_full(s);
    }
}

/// The table after entry `c` has come to bucket `p` in search of a place:
/// it fills an empty bucket; it takes the bucket of an entry less
/// displaced than itself, and that entry goes on to the next bucket in its
/// stead; else it goes on to the next bucket itself. `fuel` bounds the
/// number of buckets visited.
pub open spec fn settle<K, V>(
    s: Seq<Option<Slot<K, V>>>,
    p: int,
    c: Slot<K, V>,
    fuel: nat,
) -> Seq<Option<Slot<K, V>>>
    decreases fuel,
{
    let cap = s.len() as int;
    if fuel == 0 || !(0 <= p < cap) {
        s
    } else if s[p] is None {
        s.update(p, Some(c))
    } else if displacement(s, p) < ring_distance(ideal_index(c.hash, cap), p, cap) {
        settle(s.update(p, Some(c)), next_index(p, cap), s[p].unwrap(), (fuel - 1) as nat)
    } else {
        settle(s, next_index(p, cap), c, (fuel - 1) as nat)
    }
}

/// More fuel than the way to an empty bucket takes changes nothing.
pub proof fn lemma_settle_fuel<K, V>(
    s: Seq<Option<Slot<K, V>>>,
    p: int,
    c: Slot<K, V>,
    f: nat,
    g: nat,
    e: int,
)
    requires
        0 <= p < s.len(),
        0 <= e < s.len(),
        s[e] is None,
        ring_distance(p, e, s.len() as int) < f,
        f <= g,
    ensures
        settle(s, p, c, f) == settle(s, p, c, g),
    decreases f,
{
    let cap = s.len() as int;
    if s[p] is Some {
        let q = next_index(p, cap);
        if displacement(s, p) < ring_distance(ideal_index(c.hash, cap), p, cap) {
            lemma_settle_fuel(s.update(p, Some(c)), q, s[p].unwrap(), (f - 1) as nat, (g - 1) as nat, e);
        } else {
            lemma_settle_fuel(s, q, c, (f - 1) as nat, (g - 1) as nat, e);
        }
    }
}

/// An entry that passes a full bucket, or takes it, settles as the entry
/// that goes on settles from the next bucket, with the same fuel.
pub proof fn lemma_settle_step<K, V>(s: Seq<Option<Slot<K, V>>>, p: int, c: Slot<K, V>, e: int)
    requires
        0 <= p < s.len(),
        0 <= e < s.len(),
        s[e] is None,
        s[p] is Some,
    ensures
        settle(s, p, c, s.len()) == (if displacement(s, p) < ring_distance(
            ideal_index(c.hash, s.len() as int),
            p,
            s.len() as int,
        ) {
            settle(s.update(p, Some(c)), next_index(p, s.len() as int), s[p].unwrap(), s.len())
        } else {
            settle(s, next_index(p, s.len() as int), c, s.len())
        }),
{
    let cap = s.len() as int;
    let q = next_index(p, cap);
    if displacement(s, p) < ring_distance(ideal_index(c.hash, cap), p, cap) {
        lemma_settle_fuel(s.update(p, Some(c)), q, s[p].unwrap(), (cap - 1) as nat, cap as nat, e);
    } else {
        lemma_settle_fuel(s, q, c, (cap - 1) as nat, cap as nat, e);
    }
}

} // verus!
