use vstd::prelude::*;

verus! {

/// The hash value that marks a bucket as holding nothing.
pub const EMPTY_BUCKET: u64 = 0;

/// The bit that is forced on in a raw hash equal to the empty marker.
pub const SAFE_BIT: u64 = 0x8000_0000_0000_0000;

/// A 64-bit hash that is never equal to the empty marker.
#[derive(Clone, Copy, Debug, PartialEq, Eq, Structural)]
pub struct SafeHash {
    hash: u64,
}

/// The stored hash that stands for a raw hasher output.
pub open spec fn safe_of(raw: u64) -> u64 {
    if raw == EMPTY_BUCKET {
        SAFE_BIT
    } else {
        raw
    }
}

impl SafeHash {
    /// The wrapped value.
    pub closed spec fn value(self) -> u64 {
        self.hash
    }

    /// Every hash built by `new` differs from the empty marker.
    pub open spec fn wf(self) -> bool {
        self.value() != EMPTY_BUCKET
    }

    /// Wraps a raw hash. The empty marker becomes `SAFE_BIT`; any other
    /// value is kept.
    pub fn new(raw: u64) -> (h: SafeHash)
        ensures
            h.value() == safe_of(raw),
            h.wf(),
    {
        if raw == EMPTY_BUCKET {
            SafeHash { hash: SAFE_BIT }
        } else {
            SafeHash { hash: raw }
        }
    }

    /// Reads the hash value, which is never the empty marker on a
    /// well-formed hash.
    pub fn inspect(&self) -> (r: u64)
        ensures
            r == self.value(),
    {
        self.hash
    }
}

} // verus!
