//! The load-factor discipline: how many entries a table of a given
//! capacity is let to hold, and the capacity given to a table that shall
//! hold a given number of entries.
use vstd::prelude::*;
use crate::table::is_pow2;

verus! {

/// The capacity of the smallest table that holds anything.
pub const MIN_NONZERO_RAW_CAPACITY: usize = 32;

/// The largest number of entries a map is asked to hold.
pub const MAX_LEN: usize = usize::MAX / 64;

/// The largest capacity a table is given.
pub const MAX_RAW_CAPACITY: usize = usize::MAX / 16;

/// The number of entries that a table of `raw_cap` buckets is let to hold:
/// ten elevenths of its buckets.
pub open spec fn spec_usable_capacity(raw_cap: nat) -> nat {
    ((raw_cap * 10 + 9) / 11) as nat
}

/// `r` is the capacity given to a table that shall hold `len` entries:
/// none for none, else the smallest power of two that is at least
/// `MIN_NONZERO_RAW_CAPACITY` and at least eleven tenths of `len`.
pub open spec fn is_raw_capacity_for(len: nat, r: nat) -> bool {
    if len == 0 {
        r == 0
    } else {
        &&& is_pow2(r as int)
        &&& r >= MIN_NONZERO_RAW_CAPACITY
        &&& r >= len * 11 / 10
        &&& (r == MIN_NONZERO_RAW_CAPACITY || r / 2 < len * 11 / 10)
    }
}

/// The number of entries that a table of `raw_cap` buckets is let to hold.
pub fn usable_capacity(raw_cap: usize) -> (n: usize)
    requires
        raw_cap <= MAX_RAW_CAPACITY,
    ensures
        n == spec_usable_capacity(raw_cap as nat),
{
    (raw_cap * 10 + 10 - 1) / 11
}

/// The capacity for a table that shall hold `len` entries.
pub fn raw_capacity(len: usize) -> (r: usize)
    requires
        len <= MAX_LEN,
    ensures
        is_raw_capacity_for(len as nat, r as nat),
        r <= MAX_RAW_CAPACITY,
        len <= spec_usable_capacity(r as nat),
{
    if len == 0 {
        return 0;
    }
    let target = len * 11 / 10;
    let mut r: usize = MIN_NONZERO_RAW_CAPACITY;
    proof {
        reveal_with_fuel(is_pow2, 6);
    }
    while r < target
        invariant
            is_pow2(r as int),
            r >= MIN_NONZERO_RAW_CAPACITY,
            r == MIN_NONZERO_RAW_CAPACITY || r / 2 < target,
            target == len * 11 / 10,
            len <= MAX_LEN,
        decreases usize::MAX - r,
    {
        proof {
            assert(is_pow2(2 * r as int)) by {
                reveal_with_fuel(is_pow2, 2);
            }
        }
        r = r * 2;
    }
    r
}

} // verus!
