//! The keyed hasher behind safe mode: SipHash under a pair of 64-bit keys
//! that are drawn at random when a state is made.
use vstd::prelude::*;

verus! {

/// `core::hash::SipHasher`, a SipHash 2-4 hasher. Nothing inside it is
/// visible to the proofs.
#[verifier::external_type_specification]
#[verifier::external_body]
#[allow(deprecated)]
pub struct ExSipHasher(core::hash::SipHasher);

/// The two keys that a `SipHasher` was made with.
pub uninterp spec fn sip_keys(h: core::hash::SipHasher) -> (u64, u64);

/// The byte strings written into a `SipHasher` so far, one per write, in
/// the order of the writes.
pub uninterp spec fn sip_written(h: core::hash::SipHasher) -> Seq<Seq<u8>>;

/// The value that `SipHasher::finish` returns for a hasher keyed with
/// `(k0, k1)` into which `written` has been written.
pub uninterp spec fn sip_digest(k0: u64, k1: u64, written: Seq<Seq<u8>>) -> u64;

/// Calls `core::hash::SipHasher::new_with_keys`. Trusted: the new hasher is
/// keyed with the two arguments and nothing has been written into it.
#[verifier::external_body]
#[allow(deprecated)]
pub(crate) fn sip_with_keys(k0: u64, k1: u64) -> (h: core::hash::SipHasher)
    ensures
        sip_keys(h) == (k0, k1),
        sip_written(h) == Seq::<Seq<u8>>::empty(),
{
    core::hash::SipHasher::new_with_keys(k0, k1)
}

/// Calls `core::hash::Hasher::write` on a `SipHasher`. Trusted: the keys
/// stay and `msg` is appended to what has been written.
#[verifier::external_body]
#[allow(deprecated)]
pub(crate) fn sip_write(h: &mut core::hash::SipHasher, msg: &[u8])
    ensures
        sip_keys(*final(h)) == sip_keys(*old(h)),
        sip_written(*final(h)) == sip_written(*old(h)).push(msg@),
{
    core::hash::Hasher::write(h, msg)
}

/// Calls `core::hash::Hasher::finish` on a `SipHasher`. Trusted: the result
/// depends on the keys and on what has been written, and on nothing else.
#[verifier::external_body]
#[allow(deprecated)]
pub(crate) fn sip_finish(h: &core::hash::SipHasher) -> (r: u64)
    ensures
        r == sip_digest(sip_keys(*h).0, sip_keys(*h).1, sip_written(*h)),
{
    core::hash::Hasher::finish(h)
}

/// Calls `rand::random::<u64>`. Nothing is promised of the number drawn.
#[verifier::external_body]
pub(crate) fn random_key() -> u64 {
    rand::random::<u64>()
}

/// The pair of keys under which one map hashes in safe mode.
#[derive(Clone, Copy, Debug)]
pub struct SipHashState {
    k0: u64,
    k1: u64,
}

impl SipHashState {
    /// The two keys.
    pub closed spec fn keys(self) -> (u64, u64) {
        (self.k0, self.k1)
    }

    /// A state with freshly drawn keys. Two calls may give different keys,
    /// so nothing is stated about them.
    pub fn new() -> SipHashState {
        let k0 = random_key();
        let k1 = random_key();
        SipHashState { k0, k1 }
    }

    /// A state with the given keys.
    pub fn with_keys(k0: u64, k1: u64) -> (s: SipHashState)
        ensures
            s.keys() == (k0, k1),
    {
        SipHashState { k0, k1 }
    }

    /// A hasher keyed with this state's keys, with nothing written yet.
    #[allow(deprecated)]
    pub fn build_hasher(&self) -> (h: core::hash::SipHasher)
        ensures
            sip_keys(h) == self.keys(),
            sip_written(h) == Seq::<Seq<u8>>::empty(),
    {
        sip_with_keys(self.k0, self.k1)
    }
}

} // verus!
