use hash_collider::alphabet::{sort_bytes, Alphabet};

const NAMES: &[u8; 38] = b"_.abcdefghijklmnopqrstuvwxyz0123456789";

#[test]
fn sort_bytes_orders_and_keeps_the_bytes() {
    assert_eq!(sort_bytes([3u8, 1, 2]), [1, 2, 3]);
    assert_eq!(sort_bytes([5u8, 5, 0, 255, 5]), [0, 5, 5, 5, 255]);
    assert_eq!(sort_bytes::<0>([]), []);
    assert_eq!(sort_bytes([9u8]), [9]);
    let mut expected = *NAMES;
    expected.sort();
    assert_eq!(sort_bytes(*NAMES), expected);
}

#[test]
fn bytes_are_the_symbols_ascending() {
    let alphabet = Alphabet::<38>::new(NAMES);
    assert_eq!(alphabet.bytes(), b".0123456789_abcdefghijklmnopqrstuvwxyz");
}

#[test]
fn ranges_are_the_runs_of_consecutive_symbols() {
    let alphabet = Alphabet::<38>::new(NAMES);
    assert_eq!(alphabet.ranges(), &[46..47, 48..58, 95..96, 97..123]);
    let single = Alphabet::<1>::new(&[255]);
    assert_eq!(single.ranges(), &[255..256]);
    let empty = Alphabet::<0>::new(&[]);
    assert!(empty.ranges().is_empty());
    let gaps = Alphabet::<4>::new(&[6, 0, 2, 4]);
    assert_eq!(gaps.ranges(), &[0..1, 2..3, 4..5, 6..7]);
}

#[test]
fn full_alphabet_is_one_range() {
    static ALL: [u8; 256] = {
        let mut all = [0u8; 256];
        let mut i = 0;
        while i < 256 {
            all[i] = (255 - i) as u8;
            i += 1;
        }
        all
    };
    let alphabet = Alphabet::<256>::new(&ALL);
    assert_eq!(alphabet.ranges(), &[0..256]);
    for v in 0..256u32 {
        assert!(alphabet.contains(v));
    }
    assert!(!alphabet.contains(256));
    assert!(!alphabet.contains(u32::MAX));
}

#[test]
fn contains_agrees_with_a_linear_scan() {
    let alphabet = Alphabet::<38>::new(NAMES);
    for v in 0..256u32 {
        let naive = NAMES.iter().any(|&b| b as u32 == v);
        assert_eq!(alphabet.contains(v), naive);
    }
    for v in [256u32, 257, 1000, 0x8000_0000, u32::MAX] {
        assert!(!alphabet.contains(v));
    }
    let scattered = Alphabet::<6>::new(&[0, 1, 7, 9, 254, 255]);
    for v in 0..300u32 {
        let naive = [0u32, 1, 7, 9, 254, 255].contains(&v);
        assert_eq!(scattered.contains(v), naive);
    }
    let empty = Alphabet::<0>::new(&[]);
    for v in 0..256u32 {
        assert!(!empty.contains(v));
    }
}

#[test]
fn prefilter_is_a_bound_by_the_greatest_symbol() {
    let alphabet = Alphabet::<38>::new(NAMES);
    // 'z' is 122
    assert!(alphabet.simd_prefilter([122u32, 500, 600, 700]));
    assert!(alphabet.simd_prefilter([900u32, 0, 900, 900]));
    assert!(!alphabet.simd_prefilter([123u32, 500, 600, u32::MAX]));
    assert!(!alphabet.simd_prefilter::<0>([]));
    let empty = Alphabet::<0>::new(&[]);
    assert!(!empty.simd_prefilter([0u32, 1]));
}

#[test]
fn prefilter_never_rejects_a_batch_with_a_symbol() {
    let alphabet = Alphabet::<38>::new(NAMES);
    let mut x: u32 = 12345;
    for _ in 0..20_000 {
        let mut lanes = [0u32; 4];
        for lane in lanes.iter_mut() {
            x = x.wrapping_mul(1664525).wrapping_add(1013904223);
            // small and large values alike
            *lane = if x & 1 == 0 { (x >> 8) % 300 } else { x };
        }
        if !alphabet.simd_prefilter(lanes) {
            for lane in lanes {
                assert!(!alphabet.contains(lane));
            }
        }
    }
}

#[test]
fn chunks_split_the_symbols_into_groups_and_rest() {
    let alphabet = Alphabet::<38>::new(NAMES);
    let sorted = alphabet.bytes();
    let (groups, rest) = alphabet.simd_chunks::<4>();
    assert_eq!(groups.len(), 9);
    assert_eq!(rest.len(), 2);
    for k in 0..9 {
        for j in 0..4 {
            assert_eq!(groups.index(k)[j], sorted[k * 4 + j] as u32);
        }
    }
    assert_eq!(rest.as_slice(), &[b'y' as u32, b'z' as u32]);
}

#[test]
fn chunks_of_width_one_and_of_more_than_all() {
    let alphabet = Alphabet::<3>::new(b"cab");
    let (groups, rest) = alphabet.simd_chunks::<1>();
    assert_eq!(groups.as_slice(), &[[97u32], [98], [99]]);
    assert!(rest.is_empty());
    let (groups, rest) = alphabet.simd_chunks::<8>();
    assert!(groups.is_empty());
    assert_eq!(rest.as_slice(), &[97u32, 98, 99]);
    let (groups, rest) = alphabet.simd_chunks::<3>();
    assert_eq!(groups.as_slice(), &[[97u32, 98, 99]]);
    assert!(rest.is_empty());
}

#[test]
fn checked_new_refuses_a_symbol_that_occurs_twice() {
    assert!(Alphabet::<3>::checked_new(b"aba").is_none());
    assert!(Alphabet::<3>::checked_new(b"baa").is_none());
    assert!(Alphabet::<2>::checked_new(b"zz").is_none());
    let made = Alphabet::<3>::checked_new(b"cba").unwrap();
    assert_eq!(made.bytes(), b"abc");
    assert!(Alphabet::<0>::checked_new(&[]).is_some());
}

#[test]
fn checked_new_refuses_more_than_256_symbols() {
    static TOO_MANY: [u8; 257] = [0u8; 257];
    assert!(Alphabet::<257>::checked_new(&TOO_MANY).is_none());
}
