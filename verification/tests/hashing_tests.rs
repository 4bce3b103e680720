use hashmap2::adaptive_hashing::AdaptiveState;
use hashmap2::key::{make_hash, Address};
use hashmap2::safe_hash::{SafeHash, EMPTY_BUCKET, SAFE_BIT};
use hashmap2::sip_hash_state::SipHashState;
use std::hash::Hasher;

const K0: u64 = 0x0706_0504_0302_0100;
const K1: u64 = 0x0f0e_0d0c_0b0a_0908;

#[allow(deprecated)]
fn sip(k0: u64, k1: u64, writes: &[&[u8]]) -> u64 {
    let mut h = std::hash::SipHasher::new_with_keys(k0, k1);
    for w in writes {
        h.write(w);
    }
    h.finish()
}

#[test]
fn safe_hash_maps_the_empty_marker_away() {
    assert_eq!(EMPTY_BUCKET, 0);
    assert_eq!(SafeHash::new(0).inspect(), SAFE_BIT);
    assert_eq!(SafeHash::new(0).inspect(), 0x8000_0000_0000_0000);
    assert_ne!(SafeHash::new(0).inspect(), EMPTY_BUCKET);
}

#[test]
fn safe_hash_keeps_every_other_value() {
    assert_eq!(SafeHash::new(1).inspect(), 1);
    assert_eq!(SafeHash::new(7).inspect(), 7);
    assert_eq!(SafeHash::new(SAFE_BIT).inspect(), SAFE_BIT);
    assert_eq!(SafeHash::new(u64::MAX).inspect(), u64::MAX);
    assert_eq!(SafeHash::new(9), SafeHash::new(9));
    assert_ne!(SafeHash::new(9), SafeHash::new(10));
}

#[test]
fn new_state_is_safe_and_fast_state_is_fast() {
    assert!(AdaptiveState::new().uses_safe_hashing());
    assert!(AdaptiveState::default().uses_safe_hashing());
    assert!(!AdaptiveState::new_fast().uses_safe_hashing());
    assert!(AdaptiveState::with_keys(1, 2).uses_safe_hashing());
}

#[test]
fn switch_to_safe_hashing_is_one_way() {
    let mut state = AdaptiveState::new_fast();
    assert!(!state.uses_safe_hashing());
    state.switch_to_safe_hashing();
    assert!(state.uses_safe_hashing());
    state.switch_to_safe_hashing();
    assert!(state.uses_safe_hashing());
}

#[test]
fn switching_a_safe_state_keeps_its_keys() {
    let mut state = AdaptiveState::with_keys(K0, K1);
    let before = make_hash(&state, &77u32);
    state.switch_to_safe_hashing();
    assert_eq!(make_hash(&state, &77u32), before);
    assert_eq!(before.inspect(), sip(K0, K1, &[&77u32.to_le_bytes()]));
}

#[test]
fn fast_hasher_folds_integers_by_exclusive_or() {
    let state = AdaptiveState::new_fast();
    let mut h = state.build_hasher();
    assert_eq!(h.finish(), 0);
    h.write_u8(0x0f);
    assert_eq!(h.finish(), 0x0f);
    h.write_u16(0xf0f0);
    assert_eq!(h.finish(), 0xf0ff);
    h.write_u32(0xffff_0000);
    assert_eq!(h.finish(), 0xffff_f0ff);
    h.write_u64(0x1_0000_0000);
    assert_eq!(h.finish(), 0x1_ffff_f0ff);
    h.write_usize(0xff);
    assert_eq!(h.finish(), 0x1_ffff_f000);
}

#[test]
fn fast_hasher_widens_signed_integers_with_their_sign() {
    let state = AdaptiveState::new_fast();
    let mut h = state.build_hasher();
    h.write_i8(-1);
    assert_eq!(h.finish(), u64::MAX);
    let mut h = state.build_hasher();
    h.write_i16(-2);
    assert_eq!(h.finish(), u64::MAX - 1);
    let mut h = state.build_hasher();
    h.write_i32(-3);
    assert_eq!(h.finish(), u64::MAX - 2);
    let mut h = state.build_hasher();
    h.write_i64(i64::MIN);
    assert_eq!(h.finish(), 0x8000_0000_0000_0000);
    let mut h = state.build_hasher();
    h.write_isize(-1);
    assert_eq!(h.finish(), u64::MAX);
    let mut h = state.build_hasher();
    h.write_i32(5);
    assert_eq!(h.finish(), 5);
}

#[test]
fn safe_hasher_is_siphash_under_the_state_keys() {
    let state = AdaptiveState::with_keys(K0, K1);
    let h = state.build_hasher();
    assert_eq!(h.finish(), 0x726f_db47_dd0e_0e31);
    let mut h = state.build_hasher();
    h.write_u8(0);
    assert_eq!(h.finish(), 0x74f8_39c5_93dc_67fd);
    assert_eq!(h.finish(), sip(K0, K1, &[&[0u8]]));
    let mut h = state.build_hasher();
    h.write(&[0, 1, 2]);
    assert_eq!(h.finish(), sip(K0, K1, &[&[0, 1, 2]]));
    assert_ne!(h.finish(), sip(K1, K0, &[&[0, 1, 2]]));
}

#[test]
fn safe_hasher_takes_integers_as_little_endian_bytes() {
    let state = AdaptiveState::with_keys(3, 4);
    let mut h = state.build_hasher();
    h.write_u16(0x0102);
    assert_eq!(h.finish(), sip(3, 4, &[&[0x02, 0x01]]));
    let mut h = state.build_hasher();
    h.write_u32(0x0102_0304);
    assert_eq!(h.finish(), sip(3, 4, &[&[0x04, 0x03, 0x02, 0x01]]));
    let mut h = state.build_hasher();
    h.write_u64(0x0102_0304_0506_0708);
    assert_eq!(h.finish(), sip(3, 4, &[&[8, 7, 6, 5, 4, 3, 2, 1]]));
    let mut h = state.build_hasher();
    h.write_usize(0x0102);
    assert_eq!(h.finish(), sip(3, 4, &[&[2, 1, 0, 0, 0, 0, 0, 0]]));
    let mut h = state.build_hasher();
    h.write_i8(-1);
    assert_eq!(h.finish(), sip(3, 4, &[&[0xff]]));
    let mut h = state.build_hasher();
    h.write_i16(-2);
    assert_eq!(h.finish(), sip(3, 4, &[&[0xfe, 0xff]]));
    let mut h = state.build_hasher();
    h.write_i32(-1);
    assert_eq!(h.finish(), sip(3, 4, &[&[0xff; 4]]));
    let mut h = state.build_hasher();
    h.write_i64(-1);
    assert_eq!(h.finish(), sip(3, 4, &[&[0xff; 8]]));
    let mut h = state.build_hasher();
    h.write_isize(-1);
    assert_eq!(h.finish(), sip(3, 4, &[&[0xff; 8]]));
}

#[test]
fn safe_hasher_keeps_the_order_of_writes() {
    let state = AdaptiveState::with_keys(5, 6);
    let mut h = state.build_hasher();
    h.write_u8(1);
    h.write_u8(2);
    assert_eq!(h.finish(), sip(5, 6, &[&[1], &[2]]));
    assert_ne!(h.finish(), sip(5, 6, &[&[2], &[1]]));
}

#[test]
fn sip_hash_state_builds_a_hasher_with_its_keys() {
    let state = SipHashState::with_keys(K0, K1);
    let mut h = state.build_hasher();
    h.write(&[0]);
    assert_eq!(h.finish(), 0x74f8_39c5_93dc_67fd);
}

#[test]
fn fresh_states_hash_alike_under_themselves() {
    let state = AdaptiveState::new();
    assert_eq!(make_hash(&state, &12u64), make_hash(&state, &12u64));
    let drawn = SipHashState::new();
    let mut a = drawn.build_hasher();
    let mut b = drawn.build_hasher();
    a.write(&[9]);
    b.write(&[9]);
    assert_eq!(a.finish(), b.finish());
}

#[test]
fn make_hash_in_fast_mode_is_the_key_widened() {
    let state = AdaptiveState::new_fast();
    assert_eq!(make_hash(&state, &5u8).inspect(), 5);
    assert_eq!(make_hash(&state, &513314u32).inspect(), 513314);
    assert_eq!(make_hash(&state, &-1i32).inspect(), u64::MAX);
    assert_eq!(make_hash(&state, &(1u64 << 40)).inspect(), 1 << 40);
    assert_eq!(make_hash(&state, &Address(4096)).inspect(), 4096);
}

#[test]
fn make_hash_of_key_zero_is_not_the_empty_marker() {
    let state = AdaptiveState::new_fast();
    assert_eq!(make_hash(&state, &0u32).inspect(), SAFE_BIT);
    assert_eq!(make_hash(&state, &0i64).inspect(), SAFE_BIT);
}

#[test]
fn make_hash_in_safe_mode_is_siphash_of_the_key_bytes() {
    let state = AdaptiveState::with_keys(K0, K1);
    assert_eq!(make_hash(&state, &0u8).inspect(), 0x74f8_39c5_93dc_67fd);
    assert_eq!(
        make_hash(&state, &0x0102_0304u32).inspect(),
        sip(K0, K1, &[&[4, 3, 2, 1]])
    );
    assert_eq!(
        make_hash(&state, &7usize).inspect(),
        sip(K0, K1, &[&7u64.to_le_bytes()])
    );
}
