//! The key types a map can have: the fixed-width integers. Maps keyed by
//! the 8- to 64-bit integers start in fast mode and adapt; maps keyed by
//! the pointer-sized integers hash safely from the start.
use vstd::prelude::*;
use vstd::bytes::{spec_u16_to_le_bytes, spec_u32_to_le_bytes, spec_u64_to_le_bytes};
use crate::adaptive_hashing::{
    AdaptiveHasher, AdaptiveState, HasherView, fresh_hasher, spec_u8_to_le_bytes,
};
use crate::safe_hash::{SafeHash, safe_of};

verus! {

/// A key: a value that can be compared for equality and written into a
/// hasher.
pub trait Key: Copy {
    /// Whether a new map with this key type starts in fast mode.
    spec fn specialized() -> bool;

    /// The view of a hasher after this key has been written into it.
    spec fn fed(self, h: HasherView) -> HasherView;

    /// Whether a new map with this key type starts in fast mode.
    fn is_specialized() -> (b: bool)
        ensures
            b == Self::specialized(),
    ;

    /// Key equality.
    fn same(&self, other: &Self) -> (b: bool)
        ensures
            b == (*self == *other),
    ;

    /// Writes the key into a hasher.
    fn hash(&self, state: &mut AdaptiveHasher)
        ensures
            final(state)@ == self.fed(old(state)@),
    ;
}

/// The hash under which a key is stored by a map whose state has these
/// keys (`None` in fast mode).
pub open spec fn hash_of<K: Key>(keys: Option<(u64, u64)>, k: K) -> u64 {
    safe_of(k.fed(fresh_hasher(keys)).digest())
}

/// Hashes a key under a state.
pub fn make_hash<K: Key>(hash_state: &AdaptiveState, k: &K) -> (h: SafeHash)
    ensures
        h.value() == hash_of(hash_state@, *k),
        h.wf(),
{
    let mut state = hash_state.build_hasher();
    k.hash(&mut state);
    SafeHash::new(state.finish())
}

impl Key for u8 {
    open spec fn specialized() -> bool {
        true
    }

    open spec fn fed(self, h: HasherView) -> HasherView {
        h.feed(self as u64, spec_u8_to_le_bytes(self))
    }

    fn is_specialized() -> (b: bool) {
        true
    }

    fn same(&self, other: &Self) -> (b: bool) {
        *self == *other
    }

    fn hash(&self, state: &mut AdaptiveHasher) {
        state.write_u8(*self)
    }
}

impl Key for i8 {
    open spec fn specialized() -> bool {
        true
    }

    open spec fn fed(self, h: HasherView) -> HasherView {
        h.feed(self as u64, spec_u8_to_le_bytes(self as u8))
    }

    fn is_specialized() -> (b: bool) {
        true
    }

    fn same(&self, other: &Self) -> (b: bool) {
        *self == *other
    }

    fn hash(&self, state: &mut AdaptiveHasher) {
        state.write_i8(*self)
    }
}

impl Key for u16 {
    open spec fn specialized() -> bool {
        true
    }

    open spec fn fed(self, h: HasherView) -> HasherView {
        h.feed(self as u64, spec_u16_to_le_bytes(self))
    }

    fn is_specialized() -> (b: bool) {
        true
    }

    fn same(&self, other: &Self) -> (b: bool) {
        *self == *other
    }

    fn hash(&self, state: &mut AdaptiveHasher) {
        state.write_u16(*self)
    }
}

impl Key for i16 {
    open spec fn specialized() -> bool {
        true
    }

    open spec fn fed(self, h: HasherView) -> HasherView {
        h.feed(self as u64, spec_u16_to_le_bytes(self as u16))
    }

    fn is_specialized() -> (b: bool) {
        true
    }

    fn same(&self, other: &Self) -> (b: bool) {
        *self == *other
    }

    fn hash(&self, state: &mut AdaptiveHasher) {
        state.write_i16(*self)
    }
}

impl Key for u32 {
    open spec fn specialized() -> bool {
        true
    }

    open spec fn fed(self, h: HasherView) -> HasherView {
        h.feed(self as u64, spec_u32_to_le_bytes(self))
    }

    fn is_specialized() -> (b: bool) {
        true
    }

    fn same(&self, other: &Self) -> (b: bool) {
        *self == *other
    }

    fn hash(&self, state: &mut AdaptiveHasher) {
        state.write_u32(*self)
    }
}

impl Key for i32 {
    open spec fn specialized() -> bool {
        true
    }

    open spec fn fed(self, h: HasherView) -> HasherView {
        h.feed(self as u64, spec_u32_to_le_bytes(self as u32))
    }

    fn is_specialized() -> (b: bool) {
        true
    }

    fn same(&self, other: &Self) -> (b: bool) {
        *self == *other
    }

    fn hash(&self, state: &mut AdaptiveHasher) {
        state.write_i32(*self)
    }
}

impl Key for u64 {
    open spec fn specialized() -> bool {
        true
    }

    open spec fn fed(self, h: HasherView) -> HasherView {
        h.feed(self as u64, spec_u64_to_le_bytes(self))
    }

    fn is_specialized() -> (b: bool) {
        true
    }

    fn same(&self, other: &Self) -> (b: bool) {
        *self == *other
    }

    fn hash(&self, state: &mut AdaptiveHasher) {
        state.write_u64(*self)
    }
}

impl Key for i64 {
    open spec fn specialized() -> bool {
        true
    }

    open spec fn fed(self, h: HasherView) -> HasherView {
        h.feed(self as u64, spec_u64_to_le_bytes(self as u64))
    }

    fn is_specialized() -> (b: bool) {
        true
    }

    fn same(&self, other: &Self) -> (b: bool) {
        *self == *other
    }

    fn hash(&self, state: &mut AdaptiveHasher) {
        state.write_i64(*self)
    }
}

impl Key for usize {
    open spec fn specialized() -> bool {
        false
    }

    open spec fn fed(self, h: HasherView) -> HasherView {
        h.feed(self as u64, spec_u64_to_le_bytes(self as u64))
    }

    fn is_specialized() -> (b: bool) {
        false
    }

    fn same(&self, other: &Self) -> (b: bool) {
        *self == *other
    }

    fn hash(&self, state: &mut AdaptiveHasher) {
        state.write_usize(*self)
    }
}

impl Key for isize {
    open spec fn specialized() -> bool {
        false
    }

    open spec fn fed(self, h: HasherView) -> HasherView {
        h.feed(self as u64, spec_u64_to_le_bytes(self as u64))
    }

    fn is_specialized() -> (b: bool) {
        false
    }

    fn same(&self, other: &Self) -> (b: bool) {
        *self == *other
    }

    fn hash(&self, state: &mut AdaptiveHasher) {
        state.write_isize(*self)
    }
}

/// The address that a raw pointer holds, as a key. Maps keyed by
/// addresses start in fast mode, as maps keyed by the narrow integers do.
#[derive(Clone, Copy, Debug, PartialEq, Eq, Structural)]
pub struct Address(pub usize);

impl Key for Address {
    open spec fn specialized() -> bool {
        true
    }

    open spec fn fed(self, h: HasherView) -> HasherView {
        h.feed(self.0 as u64, spec_u64_to_le_bytes(self.0 as u64))
    }

    fn is_specialized() -> (b: bool) {
        true
    }

    fn same(&self, other: &Self) -> (b: bool) {
        self.0 == other.0
    }

    fn hash(&self, state: &mut AdaptiveHasher) {
        state.write_usize(self.0)
    }
}

} // verus!
