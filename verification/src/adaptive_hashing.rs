//! The dual-mode hasher: a cheap accumulator for fixed-width keys, and
//! keyed SipHash once a map has switched to safe hashing.
use vstd::prelude::*;
use vstd::bytes::{spec_u16_to_le_bytes, spec_u32_to_le_bytes, spec_u64_to_le_bytes};
use vstd::bytes::{u16_to_le_bytes, u32_to_le_bytes, u64_to_le_bytes};
use crate::sip_hash_state::{SipHashState, sip_keys, sip_written, sip_digest, sip_write, sip_finish};

verus! {

/// What a hasher has taken in so far.
pub enum HasherView {
    /// Fast mode: the exclusive-or of the integers written.
    Fast { hash: u64 },
    /// Safe mode: the keys, and the byte strings written in order.
    Safe { k0: u64, k1: u64, written: Seq<Seq<u8>> },
}

impl HasherView {
    /// The view after an integer has been written: fast mode folds in its
    /// 64-bit widening, safe mode appends its bytes.
    pub open spec fn feed(self, widened: u64, bytes: Seq<u8>) -> HasherView {
        match self {
            HasherView::Fast { hash } => HasherView::Fast { hash: hash ^ widened },
            HasherView::Safe { k0, k1, written } => HasherView::Safe {
                k0,
                k1,
                written: written.push(bytes),
            },
        }
    }

    /// The hash that `finish` returns for this view.
    pub open spec fn digest(self) -> u64 {
        match self {
            HasherView::Fast { hash } => hash,
            HasherView::Safe { k0, k1, written } => sip_digest(k0, k1, written),
        }
    }
}

/// The hasher a fresh `build_hasher` gives for a state with these keys.
pub open spec fn fresh_hasher(keys: Option<(u64, u64)>) -> HasherView {
    match keys {
        None => HasherView::Fast { hash: 0 },
        Some((k0, k1)) => HasherView::Safe { k0, k1, written: Seq::empty() },
    }
}

/// The hashing mode of one map: fast while `inner` is `None`, safe once it
/// holds SipHash keys.
#[derive(Clone, Copy)]
pub struct AdaptiveState {
    inner: Option<SipHashState>,
}

impl View for AdaptiveState {
    type V = Option<(u64, u64)>;

    closed spec fn view(&self) -> Option<(u64, u64)> {
        match self.inner {
            None => None,
            Some(s) => Some(s.keys()),
        }
    }
}

impl AdaptiveState {
    /// A state in safe mode, with fresh keys.
    pub fn new() -> (s: AdaptiveState)
        ensures
            s@.is_some(),
    {
        let mut this = AdaptiveState::new_fast();
        this.switch_to_safe_hashing();
        this
    }

    /// A state in fast mode.
    pub fn new_fast() -> (s: AdaptiveState)
        ensures
            s@.is_none(),
    {
        AdaptiveState { inner: None }
    }

    /// A state in safe mode with the given keys.
    pub fn with_keys(k0: u64, k1: u64) -> (s: AdaptiveState)
        ensures
            s@ == Some((k0, k1)),
    {
        AdaptiveState { inner: Some(SipHashState::with_keys(k0, k1)) }
    }

    /// Puts the state in safe mode. A state in fast mode gets fresh keys; a
    /// state already in safe mode keeps the keys it has.
    pub fn switch_to_safe_hashing(&mut self)
        ensures
            final(self)@.is_some(),
            old(self)@.is_some() ==> final(self)@ == old(self)@,
    {
        if self.inner.is_none() {
            self.inner = Some(SipHashState::new());
        }
    }

    /// Whether the state is in safe mode.
    pub fn uses_safe_hashing(&self) -> (b: bool)
        ensures
            b == self@.is_some(),
    {
        self.inner.is_some()
    }

    /// A hasher in this state's mode that has taken in nothing.
    pub fn build_hasher(&self) -> (h: AdaptiveHasher)
        ensures
            h@ == fresh_hasher(self@),
    {
        match &self.inner {
            Some(state) => AdaptiveHasher { safe_hasher: Some(state.build_hasher()), hash: 0 },
            None => AdaptiveHasher { safe_hasher: None, hash: 0 },
        }
    }
}

impl Default for AdaptiveState {
    /// A state in safe mode, as `new` makes it.
    fn default() -> (s: AdaptiveState)
        ensures
            s@.is_some(),
    {
        AdaptiveState::new()
    }
}

/// A hasher in one of the two modes: an accumulator, or a keyed SipHash
/// hasher.
#[allow(deprecated)]
pub struct AdaptiveHasher {
    safe_hasher: Option<core::hash::SipHasher>,
    hash: u64,
}

impl View for AdaptiveHasher {
    type V = HasherView;

    closed spec fn view(&self) -> HasherView {
        match self.safe_hasher {
            None => HasherView::Fast { hash: self.hash },
            Some(h) => HasherView::Safe {
                k0: sip_keys(h).0,
                k1: sip_keys(h).1,
                written: sip_written(h),
            },
        }
    }
}

/// The one byte of an 8-bit integer.
pub open spec fn spec_u8_to_le_bytes(i: u8) -> Seq<u8> {
    seq![i]
}

impl AdaptiveHasher {
    /// Whether the hasher is in safe mode.
    pub fn is_safe(&self) -> (b: bool)
        ensures
            b == (self@ is Safe),
    {
        self.safe_hasher.is_some()
    }

    /// Writes a byte string. Only a hasher in safe mode takes one.
    pub fn write(&mut self, msg: &[u8])
        requires
            old(self)@ is Safe,
        ensures
            final(self)@ == old(self)@.feed(0, msg@),
    {
        match &mut self.safe_hasher {
            Some(hasher) => {
                sip_write(hasher, msg);
            },
            None => {},
        }
    }

    /// An unsigned integer is written as its bytes, lowest first.
    pub fn write_u8(&mut self, i: u8)
        ensures
            final(self)@ == old(self)@.feed(i as u64, spec_u8_to_le_bytes(i)),
    {
        match &mut self.safe_hasher {
            Some(hasher) => {
                let bytes: [u8; 1] = [i];
                assert(bytes@ =~= spec_u8_to_le_bytes(i));
                sip_write(hasher, bytes.as_slice());
            },
            None => {
                self.hash = self.hash ^ (i as u64);
            },
        }
    }

    pub fn write_u16(&mut self, i: u16)
        ensures
            final(self)@ == old(self)@.feed(i as u64, spec_u16_to_le_bytes(i)),
    {
        match &mut self.safe_hasher {
            Some(hasher) => {
                let bytes = u16_to_le_bytes(i);
                sip_write(hasher, bytes.as_slice());
            },
            None => {
                self.hash = self.hash ^ (i as u64);
            },
        }
    }

    pub fn write_u32(&mut self, i: u32)
        ensures
            final(self)@ == old(self)@.feed(i as u64, spec_u32_to_le_bytes(i)),
    {
        match &mut self.safe_hasher {
            Some(hasher) => {
                let bytes = u32_to_le_bytes(i);
                sip_write(hasher, bytes.as_slice());
            },
            None => {
                self.hash = self.hash ^ (i as u64);
            },
        }
    }

    pub fn write_u64(&mut self, i: u64)
        ensures
            final(self)@ == old(self)@.feed(i, spec_u64_to_le_bytes(i)),
    {
        match &mut self.safe_hasher {
            Some(hasher) => {
                let bytes = u64_to_le_bytes(i);
                sip_write(hasher, bytes.as_slice());
            },
            None => {
                self.hash = self.hash ^ i;
            },
        }
    }

    /// A `usize` is written as the eight bytes of its 64-bit widening, on
    /// every machine.
    pub fn write_usize(&mut self, i: usize)
        ensures
            final(self)@ == old(self)@.feed(i as u64, spec_u64_to_le_bytes(i as u64)),
    {
        self.write_u64(i as u64)
    }

    /// A signed integer is written as the bytes of its two's complement.
    pub fn write_i8(&mut self, i: i8)
        ensures
            final(self)@ == old(self)@.feed(i as u64, spec_u8_to_le_bytes(i as u8)),
    {
        match &mut self.safe_hasher {
            Some(hasher) => {
                let bytes: [u8; 1] = [#[verifier::truncate] (i as u8)];
                assert(bytes@ =~= spec_u8_to_le_bytes(i as u8));
                sip_write(hasher, bytes.as_slice());
            },
            None => {
                self.hash = self.hash ^ (#[verifier::truncate] (i as u64));
            },
        }
    }

    pub fn write_i16(&mut self, i: i16)
        ensures
            final(self)@ == old(self)@.feed(i as u64, spec_u16_to_le_bytes(i as u16)),
    {
        match &mut self.safe_hasher {
            Some(hasher) => {
                let bytes = u16_to_le_bytes(#[verifier::truncate] (i as u16));
                sip_write(hasher, bytes.as_slice());
            },
            None => {
                self.hash = self.hash ^ (#[verifier::truncate] (i as u64));
            },
        }
    }

    pub fn write_i32(&mut self, i: i32)
        ensures
            final(self)@ == old(self)@.feed(i as u64, spec_u32_to_le_bytes(i as u32)),
    {
        match &mut self.safe_hasher {
            Some(hasher) => {
                let bytes = u32_to_le_bytes(#[verifier::truncate] (i as u32));
                sip_write(hasher, bytes.as_slice());
            },
            None => {
                self.hash = self.hash ^ (#[verifier::truncate] (i as u64));
            },
        }
    }

    pub fn write_i64(&mut self, i: i64)
        ensures
            final(self)@ == old(self)@.feed(i as u64, spec_u64_to_le_bytes(i as u64)),
    {
        self.write_u64(#[verifier::truncate] (i as u64))
    }

    pub fn write_isize(&mut self, i: isize)
        ensures
            final(self)@ == old(self)@.feed(i as u64, spec_u64_to_le_bytes(i as u64)),
    {
        self.write_u64(#[verifier::truncate] (i as u64))
    }

    /// The hash of what was written: the accumulator in fast mode, the
    /// SipHash digest in safe mode.
    pub fn finish(&self) -> (r: u64)
        ensures
            r == self@.digest(),
    {
        match &self.safe_hasher {
            Some(hasher) => sip_finish(hasher),
            None => self.hash,
        }
    }
}

} // verus!
