//! Robin Hood probing over a table: search, insertion with displacement,
//! and removal with backward shift.
use vstd::prelude::*;
use crate::entry::VacantEntryState;
use crate::internal_entry::InternalEntry;
use crate::key::Key;
use crate::model::{
    Slot, as_map, blocked, displacement, distinct_keys, entries, has_key, hash_agrees, hash_map,
    holds_key, ideal_index, may_stand, moved_back, next_index, ring_distance, ring_fwd,
    robin_hood_ordered, run_full, run_misses, settle, shifted_back, shifting,
};
use crate::model::{
    lemma_absent, lemma_advance, lemma_has_empty, lemma_map_move, lemma_map_put, lemma_map_replace,
    lemma_map_take, lemma_map_value, lemma_pass, lemma_place, lemma_run_stands, lemma_settle_step,
    lemma_shift_done, lemma_shift_start, lemma_shift_step, lemma_steal,
};
use crate::safe_hash::SafeHash;
use crate::table::{BucketState, EmptyBucket, FullBucket, RawTable};

verus! {

/// A table that the algorithms here keep: consistent storage, the Robin
/// Hood ordering, no key twice, and an empty bucket where there is any
/// bucket.
pub open spec fn table_ok<K, V>(t: RawTable<K, V>) -> bool {
    &&& t.wf()
    &&& robin_hood_ordered(t@)
    &&& distinct_keys(t@)
    &&& t.spec_capacity() > 0 ==> t.spec_size() < t.spec_capacity()
}

/// The bucket that a vacancy names.
pub open spec fn vacancy_index(st: VacantEntryState) -> int {
    match st {
        VacantEntryState::NeqElem(b, _) => b.spec_index(),
        VacantEntryState::NoElem(b) => b.spec_index(),
    }
}

/// `st` is where the probe for the absent key `k` with hash `h` ends: the
/// first bucket on its way that is empty or holds an entry displaced by
/// less than the probe has come.
pub open spec fn vacant_at<K, V>(
    s: Seq<Option<Slot<K, V>>>,
    h: u64,
    k: K,
    st: VacantEntryState,
) -> bool {
    let cap = s.len() as int;
    let p = vacancy_index(st);
    let d = ring_distance(ideal_index(h, cap), p, cap);
    &&& 0 <= p < cap
    &&& run_full(s, h, d)
    &&& !has_key(s, k)
    &&& match st {
        VacantEntryState::NoElem(_) => s[p] is None,
        VacantEntryState::NeqElem(_, od) => s[p] is Some && od == displacement(s, p) && od < d,
    }
}

/// What a search for `(hash, k)` in table `s` may return.
pub open spec fn search_result<K, V>(
    s: Seq<Option<Slot<K, V>>>,
    hash: SafeHash,
    k: K,
    r: InternalEntry,
) -> bool {
    match r {
        InternalEntry::TableIsEmpty => s.len() == 0,
        InternalEntry::Occupied { elem } => holds_key(s, elem.spec_index(), k),
        InternalEntry::Vacant { hash: h, elem } => h == hash && vacant_at(s, hash.value(), k, elem),
    }
}

/// One probe pass for a key: the bucket that holds it, or the place where
/// it would go.
pub fn search_hashed<K: Key, V>(table: &RawTable<K, V>, hash: SafeHash, k: &K) -> (r: InternalEntry)
    requires
        table_ok(*table),
        hash_agrees(table@, *k, hash.value()),
    ensures
        search_result(table@, hash, *k, r),
{
    proof {
        table.lemma_wf();
    }
    if table.capacity() == 0 {
        return InternalEntry::TableIsEmpty;
    }
    let ghost s = table@;
    let ghost cap = s.len() as int;
    let ghost h = hash.value();
    let ghost ib = ideal_index(h, cap);
    let ghost e = lemma_has_empty(s);
    let mut probe = table.probe(hash);
    loop
        invariant
            table_ok(*table),
            table@ == s,
            cap == s.len(),
            cap == table.spec_capacity(),
            cap > 0,
            h == hash.value(),
            ib == ideal_index(h, cap),
            hash_agrees(s, *k, h),
            0 <= e < cap,
            s[e] is None,
            0 <= probe.spec_walked() < cap,
            probe.spec_index() == ring_fwd(ib, probe.spec_walked(), cap),
            run_full(s, h, probe.spec_walked()),
            run_misses(s, h, *k, probe.spec_walked()),
        decreases ring_distance(probe.spec_index(), e, cap),
    {
        let ghost d = probe.spec_walked();
        proof {
            lemma_run_stands(s, h, d);
        }
        match table.peek(&probe) {
            BucketState::Empty(idx) => {
                proof {
                    lemma_absent(s, h, *k, d);
                }
                return InternalEntry::Vacant {
                    hash,
                    elem: VacantEntryState::NoElem(EmptyBucket::new(idx)),
                };
            },
            BucketState::Full(idx, full_hash, full_key, _) => {
                let od = table.distance(idx);
                if od < probe.walked() {
                    proof {
                        lemma_absent(s, h, *k, d);
                    }
                    return InternalEntry::Vacant {
                        hash,
                        elem: VacantEntryState::NeqElem(FullBucket::new(idx), od),
                    };
                }
                if full_hash.inspect() == hash.inspect() {
                    if k.same(full_key) {
                        return InternalEntry::Occupied { elem: FullBucket::new(idx) };
                    }
                }
                proof {
                    lemma_pass(s, h, d, e);
                    assert(run_misses(s, h, *k, d + 1)) by {
                        assert(!holds_key(s, ring_fwd(ib, d, cap), *k));
                    }
                }
                probe = table.next(probe);
            },
        }
    }
}

/// Puts `(hash, k, v)` into the full bucket `bucket`, whose entry is less
/// displaced than the new one, and moves the entries put out onward, each
/// taking the next bucket whose entry is less displaced than itself, until
/// one lands in an empty bucket. Returns the bucket of the new entry.
pub fn robin_hood<K, V>(
    table: &mut RawTable<K, V>,
    bucket: FullBucket,
    od: usize,
    hash: SafeHash,
    k: K,
    v: V,
) -> (at: usize)
    requires
        table_ok(*old(table)),
        old(table).spec_size() + 1 < old(table).spec_capacity(),
        hash.wf(),
        vacant_at(old(table)@, hash.value(), k, VacantEntryState::NeqElem(bucket, od)),
    ensures
        table_ok(*final(table)),
        final(table).spec_capacity() == old(table).spec_capacity(),
        final(table).spec_size() == old(table).spec_size() + 1,
        at == bucket.spec_index(),
        final(table)@[at as int] == Some(Slot { hash: hash.value(), key: k, value: v }),
        final(table)@ == settle(
            old(table)@,
            bucket.spec_index(),
            Slot { hash: hash.value(), key: k, value: v },
            old(table)@.len(),
        ),
        entries(final(table)@) == entries(old(table)@).insert(
            k,
            Slot { hash: hash.value(), key: k, value: v },
        ),
        as_map(final(table)@) == as_map(old(table)@).insert(k, v),
        hash_map(final(table)@) == hash_map(old(table)@).insert(k, hash.value()),
{
    let ghost s0 = table@;
    let ghost cap = s0.len() as int;
    let ghost fresh = Slot { hash: hash.value(), key: k, value: v };
    let ghost target = entries(s0).insert(k, fresh);
    let start = bucket.index();
    let capacity = table.capacity();
    proof {
        table.lemma_wf();
        lemma_run_stands(s0, hash.value(), ring_distance(ideal_index(hash.value(), cap), start as int, cap));
        lemma_steal(s0, start as int, fresh);
        lemma_map_replace(s0, start as int, fresh);
        lemma_map_value(s0, start as int);
    }
    let ghost e = lemma_has_empty(s0);
    let mut probe = table.bucket_at(start);
    let (mut ch, mut ck, mut cv) = table.replace(start, hash, k, v);
    let mut cd: usize = od + 1;
    proof {
        lemma_settle_step(s0, start as int, fresh, e);
        assert(entries(table@).insert(ck, Slot { hash: ch.value(), key: ck, value: cv }) =~= target);
        assert(!entries(table@).dom().contains(ck));
    }
    loop
        invariant
            table.wf(),
            robin_hood_ordered(table@),
            distinct_keys(table@),
            table@.len() == cap,
            table.spec_capacity() == cap,
            old(table).spec_capacity() == cap,
            table.spec_size() == old(table).spec_size(),
            table.spec_size() + 1 < cap,
            start < cap,
            cap <= usize::MAX,
            start == bucket.spec_index(),
            s0 == old(table)@,
            s0.len() == cap,
            fresh == (Slot { hash: hash.value(), key: k, value: v }),
            table@[start as int] == Some(fresh),
            0 <= e < cap,
            table@[e] is None,
            0 <= probe.spec_index() < cap,
            0 <= probe.spec_walked(),
            table@[probe.spec_index()] is Some,
            probe.spec_walked() + ring_distance(probe.spec_index(), e, cap) == ring_distance(
                start as int,
                e,
                cap,
            ),
            ch.wf(),
            1 <= cd < cap,
            cd == ring_distance(
                ideal_index(ch.value(), cap),
                next_index(probe.spec_index(), cap),
                cap,
            ),
            may_stand(table@, next_index(probe.spec_index(), cap), cd as int),
            !has_key(table@, ck),
            entries(table@).insert(ck, Slot { hash: ch.value(), key: ck, value: cv }) == target,
            target == entries(s0).insert(k, fresh),
            settle(s0, start as int, fresh, cap as nat) == settle(
                table@,
                next_index(probe.spec_index(), cap),
                Slot { hash: ch.value(), key: ck, value: cv },
                cap as nat,
            ),
        decreases ring_distance(probe.spec_index(), e, cap),
    {
        let ghost s = table@;
        let ghost carried = Slot { hash: ch.value(), key: ck, value: cv };
        let ghost before = probe.spec_index();
        probe = table.next(probe);
        proof {
            assert(before != e);
            assert(ring_distance(probe.spec_index(), e, cap) + 1 == ring_distance(before, e, cap));
            assert(probe.spec_index() != start);
        }
        match table.peek(&probe) {
            BucketState::Empty(idx) => {
                proof {
                    lemma_place(s, idx as int, carried);
                    lemma_map_put(s, idx as int, carried);
                    assert(settle(s, idx as int, carried, cap as nat) == s.update(
                        idx as int,
                        Some(carried),
                    ));
                }
                table.put(idx, ch, ck, cv);
                proof {
                    assert(table@ == s.update(idx as int, Some(carried)));
                    assert(entries(table@) == entries(s).insert(ck, carried));
                    assert(entries(table@) == target);
                    crate::model::lemma_maps_insert(s0, table@, fresh);
                }
                return start;
            },
            BucketState::Full(idx, _, _, _) => {
                let pd = table.distance(idx);
                proof {
                    lemma_settle_step(s, idx as int, carried, e);
                }
                if pd < cd {
                    proof {
                        lemma_steal(s, idx as int, carried);
                        lemma_map_replace(s, idx as int, carried);
                        lemma_map_value(s, idx as int);
                    }
                    let (oh, ok, ov) = table.replace(idx, ch, ck, cv);
                    ch = oh;
                    ck = ok;
                    cv = ov;
                    cd = pd + 1;
                    proof {
                        assert(entries(table@).insert(
                            ck,
                            Slot { hash: ch.value(), key: ck, value: cv },
                        ) =~= target);
                        assert(!entries(table@).dom().contains(ck));
                    }
                } else {
                    proof {
                        lemma_advance(
                            s,
                            idx as int,
                            cd as int,
                            ideal_index(ch.value(), cap),
                            e,
                        );
                    }
                    cd = cd + 1;
                }
            },
        }
    }
}

/// Puts `(hash, k, v)` where a search found that it goes.
pub fn insert_vacant<K, V>(
    table: &mut RawTable<K, V>,
    elem: VacantEntryState,
    hash: SafeHash,
    k: K,
    v: V,
) -> (at: usize)
    requires
        table_ok(*old(table)),
        old(table).spec_size() + 1 < old(table).spec_capacity(),
        hash.wf(),
        vacant_at(old(table)@, hash.value(), k, elem),
    ensures
        table_ok(*final(table)),
        final(table).spec_capacity() == old(table).spec_capacity(),
        final(table).spec_size() == old(table).spec_size() + 1,
        at == vacancy_index(elem),
        final(table)@[at as int] == Some(Slot { hash: hash.value(), key: k, value: v }),
        final(table)@ == settle(
            old(table)@,
            vacancy_index(elem),
            Slot { hash: hash.value(), key: k, value: v },
            old(table)@.len(),
        ),
        entries(final(table)@) == entries(old(table)@).insert(
            k,
            Slot { hash: hash.value(), key: k, value: v },
        ),
        as_map(final(table)@) == as_map(old(table)@).insert(k, v),
        hash_map(final(table)@) == hash_map(old(table)@).insert(k, hash.value()),
{
    match elem {
        VacantEntryState::NeqElem(bucket, od) => robin_hood(table, bucket, od, hash, k, v),
        VacantEntryState::NoElem(bucket) => {
            let idx = bucket.index();
            proof {
                let s0 = table@;
                let cap = s0.len() as int;
                let fresh = Slot { hash: hash.value(), key: k, value: v };
                table.lemma_wf();
                lemma_run_stands(
                    s0,
                    hash.value(),
                    ring_distance(ideal_index(hash.value(), cap), idx as int, cap),
                );
                lemma_place(s0, idx as int, fresh);
                lemma_map_put(s0, idx as int, fresh);
            }
            table.put(idx, hash, k, v);
            idx
        },
    }
}

/// How a bounded probe for an insertion ended.
pub enum Probed<K, V> {
    /// The key was new and is now in the bucket named.
    Inserted(usize),
    /// The key was in the bucket named; its value has been replaced and
    /// the old one is handed out.
    Replaced(usize, V),
    /// The probe passed as many buckets as it was allowed; nothing was
    /// changed and the key and value are handed back.
    TooFar(K, V),
}

/// Inserts `(hash, k, v)`, or replaces the value stored with `k`, if the
/// probe is settled within its first `limit` buckets: at an empty bucket
/// the entry is placed; at a bucket that holds `k` the value is replaced;
/// at an entry less displaced than the probe has come the new entry takes
/// the bucket and that entry moves on.
pub fn insert_within<K: Key, V>(
    table: &mut RawTable<K, V>,
    hash: SafeHash,
    k: K,
    v: V,
    limit: usize,
) -> (r: Probed<K, V>)
    requires
        table_ok(*old(table)),
        old(table).spec_size() + 1 < old(table).spec_capacity(),
        hash.wf(),
        hash_agrees(old(table)@, k, hash.value()),
    ensures
        table_ok(*final(table)),
        final(table).spec_capacity() == old(table).spec_capacity(),
        match r {
            Probed::TooFar(k2, v2) => {
                &&& blocked(old(table)@, hash.value(), k, limit as int)
                &&& k2 == k
                &&& v2 == v
                &&& final(table)@ == old(table)@
                &&& final(table).spec_size() == old(table).spec_size()
            },
            Probed::Inserted(at) => {
                &&& !blocked(old(table)@, hash.value(), k, limit as int)
                &&& !has_key(old(table)@, k)
                &&& at < final(table).spec_capacity()
                &&& displacement(final(table)@, at as int) < limit
                &&& final(table)@[at as int] == Some(Slot { hash: hash.value(), key: k, value: v })
                &&& final(table)@ == settle(
                    old(table)@,
                    ideal_index(hash.value(), old(table)@.len() as int),
                    Slot { hash: hash.value(), key: k, value: v },
                    old(table)@.len(),
                )
                &&& final(table).spec_size() == old(table).spec_size() + 1
                &&& as_map(final(table)@) == as_map(old(table)@).insert(k, v)
                &&& hash_map(final(table)@) == hash_map(old(table)@).insert(k, hash.value())
            },
            Probed::Replaced(at, old_value) => {
                &&& !blocked(old(table)@, hash.value(), k, limit as int)
                &&& holds_key(old(table)@, at as int, k)
                &&& displacement(final(table)@, at as int) < limit
                &&& old_value == old(table)@[at as int].unwrap().value
                &&& final(table)@ == old(table)@.update(
                    at as int,
                    Some(Slot { hash: hash.value(), key: k, value: v }),
                )
                &&& final(table).spec_size() == old(table).spec_size()
                &&& as_map(final(table)@) == as_map(old(table)@).insert(k, v)
                &&& hash_map(final(table)@) == hash_map(old(table)@)
            },
        },
{
    proof {
        table.lemma_wf();
    }
    let ghost s = table@;
    let ghost cap = s.len() as int;
    let ghost h = hash.value();
    let ghost ib = ideal_index(h, cap);
    let ghost e = lemma_has_empty(s);
    let mut probe = table.probe(hash);
    while probe.walked() < limit
        invariant
            table_ok(*table),
            table@ == s,
            s == old(table)@,
            *table == *old(table),
            table.spec_size() + 1 < table.spec_capacity(),
            cap == s.len(),
            cap == table.spec_capacity(),
            cap > 0,
            hash.wf(),
            h == hash.value(),
            ib == ideal_index(h, cap),
            hash_agrees(s, k, h),
            0 <= e < cap,
            s[e] is None,
            0 <= probe.spec_walked() < cap,
            probe.spec_index() == ring_fwd(ib, probe.spec_walked(), cap),
            run_full(s, h, probe.spec_walked()),
            run_misses(s, h, k, probe.spec_walked()),
            settle(s, ib, Slot { hash: h, key: k, value: v }, cap as nat) == settle(
                s,
                probe.spec_index(),
                Slot { hash: h, key: k, value: v },
                cap as nat,
            ),
        decreases ring_distance(probe.spec_index(), e, cap),
    {
        let ghost d = probe.spec_walked();
        let idx = probe.index();
        proof {
            lemma_run_stands(s, h, d);
        }
        let (full, same) = match table.peek(&probe) {
            BucketState::Empty(_) => (false, false),
            BucketState::Full(_, full_hash, full_key, _) => (
                true,
                full_hash.inspect() == hash.inspect() && k.same(full_key),
            ),
        };
        if !full {
            proof {
                lemma_absent(s, h, k, d);
                assert(!blocked(s, h, k, limit as int)) by {
                    if run_full(s, h, limit as int) {
                        assert(s[ring_fwd(ib, d, cap)] is Some);
                    }
                }
            }
            let at = insert_vacant(table, VacantEntryState::NoElem(EmptyBucket::new(idx)), hash, k, v);
            proof {
                table.lemma_wf();
                assert(displacement(table@, at as int) == d);
            }
            return Probed::Inserted(at);
        }
        if same {
            proof {
                let fresh = Slot { hash: h, key: k, value: v };
                crate::model::lemma_same_hash(s, idx as int, fresh);
                lemma_map_replace(s, idx as int, fresh);
                lemma_map_value(s, idx as int);
                assert(as_map(s).remove(k).insert(k, v) =~= as_map(s).insert(k, v));
                assert(hash_map(s).remove(k).insert(k, h) =~= hash_map(s));
                assert(!blocked(s, h, k, limit as int)) by {
                    if run_misses(s, h, k, limit as int) {
                        assert(!holds_key(s, ring_fwd(ib, d, cap), k));
                    }
                }
            }
            let old_value = table.replace_value(idx, v);
            proof {
                table.lemma_wf();
                assert(displacement(table@, idx as int) == displacement(s, idx as int));
            }
            return Probed::Replaced(idx, old_value);
        }
        let od = table.distance(idx);
        if od < probe.walked() {
            proof {
                lemma_absent(s, h, k, d);
                assert(!blocked(s, h, k, limit as int)) by {
                    if run_full(s, h, limit as int) {
                        assert(s[ring_fwd(ib, d, cap)] is Some);
                    }
                }
            }
            let at = robin_hood(table, FullBucket::new(idx), od, hash, k, v);
            proof {
                table.lemma_wf();
                assert(displacement(table@, at as int) == d);
            }
            return Probed::Inserted(at);
        }
        proof {
            lemma_pass(s, h, d, e);
            assert(run_misses(s, h, k, d + 1)) by {
                assert(!holds_key(s, ring_fwd(ib, d, cap), k));
            }
            lemma_settle_step(s, idx as int, Slot { hash: h, key: k, value: v }, e);
        }
        probe = table.next(probe);
    }
    proof {
        assert(blocked(s, h, k, limit as int));
    }
    Probed::TooFar(k, v)
}

/// Inserts `(hash, k, v)`, or replaces the value stored with `k`, with no
/// bound on the probe. Returns the bucket of the entry and the value that
/// was stored with `k`, if any.
pub fn insert_or_replace_with<K: Key, V>(
    table: &mut RawTable<K, V>,
    hash: SafeHash,
    k: K,
    v: V,
) -> (r: (usize, Option<V>))
    requires
        table_ok(*old(table)),
        old(table).spec_size() + 1 < old(table).spec_capacity(),
        hash.wf(),
        hash_agrees(old(table)@, k, hash.value()),
    ensures
        table_ok(*final(table)),
        final(table).spec_capacity() == old(table).spec_capacity(),
        r.0 < final(table).spec_capacity(),
        final(table)@[r.0 as int] == Some(Slot { hash: hash.value(), key: k, value: v }),
        as_map(final(table)@) == as_map(old(table)@).insert(k, v),
        hash_map(final(table)@) == hash_map(old(table)@).insert(k, hash.value()),
        if has_key(old(table)@, k) {
            &&& holds_key(old(table)@, r.0 as int, k)
            &&& r.1 == Some(old(table)@[r.0 as int].unwrap().value)
            &&& final(table)@ == old(table)@.update(
                r.0 as int,
                Some(Slot { hash: hash.value(), key: k, value: v }),
            )
            &&& final(table).spec_size() == old(table).spec_size()
        } else {
            &&& r.1 is None
            &&& final(table)@ == settle(
                old(table)@,
                ideal_index(hash.value(), old(table)@.len() as int),
                Slot { hash: hash.value(), key: k, value: v },
                old(table)@.len(),
            )
            &&& final(table).spec_size() == old(table).spec_size() + 1
        },
{
    let capacity = table.capacity();
    let ghost s = table@;
    proof {
        table.lemma_wf();
        let e = lemma_has_empty(s);
        crate::model::lemma_not_blocked(s, hash.value(), k, capacity as int, e);
    }
    match insert_within(table, hash, k, v, capacity) {
        Probed::Inserted(at) => (at, None),
        Probed::Replaced(at, old_value) => {
            proof {
                lemma_map_value(s, at as int);
                assert(hash_map(s).insert(k, hash.value()) =~= hash_map(s));
                assert(hash_map(s)[k] == hash.value());
            }
            (at, Some(old_value))
        },
        Probed::TooFar(_, _) => vstd::pervasive::unreached(),
    }
}

/// Removes the entry of a full bucket, then moves each entry that follows
/// back by one bucket, up to the first empty bucket or the first entry
/// that sits in its ideal bucket.
pub fn pop_internal<K, V>(table: &mut RawTable<K, V>, bucket: FullBucket) -> (kv: (K, V))
    requires
        table_ok(*old(table)),
        0 <= bucket.spec_index() < old(table).spec_capacity(),
        old(table)@[bucket.spec_index()] is Some,
    ensures
        table_ok(*final(table)),
        final(table).spec_capacity() == old(table).spec_capacity(),
        final(table).spec_size() + 1 == old(table).spec_size(),
        kv.0 == old(table)@[bucket.spec_index()].unwrap().key,
        kv.1 == old(table)@[bucket.spec_index()].unwrap().value,
        !has_key(final(table)@, kv.0),
        shifted_back(old(table)@, final(table)@, bucket.spec_index()),
        entries(final(table)@) == entries(old(table)@).remove(kv.0),
        as_map(final(table)@) == as_map(old(table)@).remove(kv.0),
        hash_map(final(table)@) == hash_map(old(table)@).remove(kv.0),
{
    let ghost s0 = table@;
    let ghost cap = s0.len() as int;
    let start = bucket.index();
    proof {
        table.lemma_wf();
        lemma_shift_start(s0, start as int);
        lemma_map_take(s0, start as int);
    }
    let ghost e = lemma_has_empty(s0);
    let (_, key, value) = table.take(start);
    let mut gap = table.bucket_at(start);
    loop
        invariant
            table.wf(),
            distinct_keys(table@),
            shifting(table@, gap.spec_index()),
            table@.len() == cap,
            table.spec_capacity() == cap,
            old(table).spec_capacity() == cap,
            table.spec_size() + 1 == old(table).spec_size(),
            old(table).spec_size() < cap,
            s0 == old(table)@,
            start == bucket.spec_index(),
            0 <= start < cap,
            s0.len() == cap,
            s0[start as int] is Some,
            key == s0[start as int].unwrap().key,
            value == s0[start as int].unwrap().value,
            0 <= e < cap,
            table@[e] is None,
            e != gap.spec_index(),
            0 <= gap.spec_walked(),
            gap.spec_index() == ring_fwd(start as int, gap.spec_walked(), cap),
            moved_back(s0, table@, start as int, gap.spec_walked()),
            gap.spec_walked() + ring_distance(gap.spec_index(), e, cap) == ring_distance(
                start as int,
                e,
                cap,
            ),
            !has_key(table@, key),
            entries(table@) == entries(s0).remove(key),
            as_map(table@) == as_map(s0).remove(key),
            hash_map(table@) == hash_map(s0).remove(key),
        decreases ring_distance(gap.spec_index(), e, cap),
    {
        let ghost s = table@;
        let ghost g = gap.spec_index();
        let full = table.next(gap);
        let idx = full.index();
        let stays = match table.peek(&full) {
            BucketState::Empty(_) => true,
            BucketState::Full(_, _, _, _) => table.distance(idx) == 0,
        };
        if stays {
            proof {
                lemma_shift_done(s, g);
                assert(idx == ring_fwd(start as int, gap.spec_walked() + 1, cap));
                assert(s[idx as int] == s0[idx as int]);
            }
            return (key, value);
        }
        proof {
            lemma_shift_step(s, g);
            lemma_map_move(s, idx as int, g);
            assert(ring_distance(idx as int, e, cap) + 1 == ring_distance(g, e, cap));
            assert(idx == ring_fwd(start as int, gap.spec_walked() + 1, cap));
            crate::model::lemma_moved_back_step(s0, s, start as int, gap.spec_walked());
        }
        let (mh, mk, mv) = table.take(idx);
        table.put(gap.index(), mh, mk, mv);
        proof {
            assert(table@ =~= s.update(g, s[idx as int]).update(idx as int, None));
            assert(!has_key(table@, key)) by {
                assert(!entries(table@).dom().contains(key));
            }
        }
        gap = full;
    }
}

} // verus!
