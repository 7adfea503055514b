use hash_collider::hash::{fnv_hash, modular_inverse_odd_u32, PrecomputedSuffix, FNV_PRIME};

#[test]
fn hash_of_known_strings() {
    assert_eq!(FNV_PRIME, 37);
    assert_eq!(fnv_hash(b""), 0);
    assert_eq!(fnv_hash(b"a"), 97);
    assert_eq!(fnv_hash(b"ab"), 3687);
    assert_eq!(fnv_hash(b"hello"), 200180656);
    assert_eq!(fnv_hash(b".dcx"), 0x25b341);
    assert_eq!(fnv_hash(b"/other/m"), 309145601);
}

#[test]
fn hash_wraps_around() {
    // 37^7 exceeds 2^32: the hash of a long string is taken modulo 2^32
    let data = [255u8; 12];
    let mut expected: u64 = 0;
    for b in data {
        expected = (expected * 37 + b as u64) % (1u64 << 32);
    }
    assert_eq!(fnv_hash(&data) as u64, expected);
}

#[test]
fn inverse_of_known_values() {
    assert_eq!(modular_inverse_odd_u32(1), 1);
    assert_eq!(modular_inverse_odd_u32(3), 2863311531);
    assert_eq!(modular_inverse_odd_u32(37), 2437684141);
    assert_eq!(modular_inverse_odd_u32(u32::MAX), u32::MAX);
    assert_eq!(modular_inverse_odd_u32(0x12345679), 4053677001);
    assert_eq!(modular_inverse_odd_u32(1874161), 704075793);
}

#[test]
fn inverse_times_value_is_one() {
    let mut a: u32 = 1;
    for _ in 0..100_000 {
        assert_eq!(a.wrapping_mul(modular_inverse_odd_u32(a)), 1);
        // a walk over odd values
        a = a.wrapping_mul(1664525).wrapping_add(1013904223) | 1;
    }
    for a in [1u32, 3, 5, 7, 0x7fff_ffff, 0x8000_0001, 0xffff_fffd, u32::MAX] {
        assert_eq!(a.wrapping_mul(modular_inverse_odd_u32(a)), 1);
    }
}

#[test]
fn precomputed_suffix_of_known_suffix() {
    let s = PrecomputedSuffix::new(b".dcx", 0xd7255946);
    assert_eq!(s.hash, 0x25b341);
    assert_eq!(s.mult, 1874161);
    assert_eq!(s.target_shift, 601800277);
}

#[test]
fn precomputed_suffix_of_empty_suffix() {
    let s = PrecomputedSuffix::new(b"", 12345);
    assert_eq!(s.hash, 0);
    assert_eq!(s.mult, 1);
    assert_eq!(s.target_shift, 12345);
}

#[test]
fn target_shift_is_the_state_that_reaches_the_target() {
    let suffix = b"-some-longer-suffix";
    let base = b"anything at all";
    let mut whole = base.to_vec();
    whole.extend_from_slice(suffix);
    let target = fnv_hash(&whole);
    let s = PrecomputedSuffix::new(suffix, target);
    assert_eq!(s.target_shift, fnv_hash(base));
    assert_eq!(fnv_hash(base).wrapping_mul(s.mult).wrapping_add(s.hash), target);
    assert_eq!(s.mult % 2, 1);
}

#[test]
fn last_byte_is_solved_by_a_subtraction() {
    let suffix = b".dcx";
    let target = fnv_hash(b"base!.dcx");
    let s = PrecomputedSuffix::new(suffix, target);
    let x = s.target_shift.wrapping_sub(fnv_hash(b"base").wrapping_mul(37));
    assert_eq!(x, b'!' as u32);
}
