use hash_collider::device::{bytes_at_most, effective_compute, rank_devices, supports_kernel};
use hash_collider::grid::results_buffer_bytes;

#[test]
fn byte_strings_are_ordered_by_their_first_difference() {
    assert!(bytes_at_most(b"", b""));
    assert!(bytes_at_most(b"", b"a"));
    assert!(!bytes_at_most(b"a", b""));
    assert!(bytes_at_most(b"abc", b"abc"));
    assert!(bytes_at_most(b"abc", b"abd"));
    assert!(!bytes_at_most(b"abd", b"abc"));
    assert!(bytes_at_most(b"ab", b"abc"));
    assert!(!bytes_at_most(b"abc", b"ab"));
    assert!(bytes_at_most(b"a\xff", b"b"));
    assert!(!bytes_at_most(b"\xff", b"\x00\xff"));
}

#[test]
fn byte_order_agrees_with_the_order_of_slices() {
    let samples: [&[u8]; 8] = [b"", b"1", b"1.0", b"1.1", b"1.1 ", b"1.2", b"10", b"OpenCL 3.0"];
    for a in samples {
        for b in samples {
            assert_eq!(bytes_at_most(a, b), a <= b);
        }
    }
}

#[test]
fn device_must_be_available_and_recent() {
    assert!(supports_kernel(1, b"1.1"));
    assert!(supports_kernel(1, b"1.2 CUDA"));
    assert!(supports_kernel(7, b"3.0"));
    assert!(supports_kernel(1, b"OpenCL 3.0 CUDA 12.2.148\0"));
    assert!(!supports_kernel(1, b"1.0"));
    assert!(!supports_kernel(1, b"1."));
    assert!(!supports_kernel(1, b""));
    assert!(!supports_kernel(0, b"1.1"));
    assert!(!supports_kernel(0, b"3.0"));
}

#[test]
fn effective_compute_is_a_product() {
    assert_eq!(effective_compute(1500, 40), 60000);
    assert_eq!(effective_compute(0, 40), 0);
    assert_eq!(effective_compute(u32::MAX, u32::MAX), 18446744065119617025);
}

#[test]
fn ranking_puts_most_compute_first() {
    assert_eq!(rank_devices(&[10, 30, 20]), vec![1, 2, 0]);
    assert_eq!(rank_devices(&[]), Vec::<usize>::new());
    assert_eq!(rank_devices(&[5]), vec![0]);
    assert_eq!(rank_devices(&[1, 2, 3, 4]), vec![3, 2, 1, 0]);
    assert_eq!(rank_devices(&[4, 3, 2, 1]), vec![0, 1, 2, 3]);
}

#[test]
fn ranking_keeps_equals_in_their_order() {
    assert_eq!(rank_devices(&[7, 7, 7]), vec![0, 1, 2]);
    assert_eq!(rank_devices(&[1, 9, 1, 9, 5]), vec![1, 3, 4, 0, 2]);
    let compute = [3u64, 1, 4, 1, 5, 9, 2, 6, 5, 3, 5];
    let mut expected: Vec<usize> = (0..compute.len()).collect();
    expected.sort_by_key(|&i| std::cmp::Reverse(compute[i]));
    assert_eq!(rank_devices(&compute), expected);
}

#[test]
fn results_buffer_must_fit_in_32_bits() {
    assert_eq!(results_buffer_bytes(57724, 9), Some(519516));
    assert_eq!(results_buffer_bytes(0, 9), Some(0));
    assert_eq!(results_buffer_bytes(u32::MAX as usize, 1), Some(4294967295));
    assert_eq!(results_buffer_bytes(1 << 31, 2), None);
    assert_eq!(results_buffer_bytes(usize::MAX, 2), None);
    assert_eq!(results_buffer_bytes(usize::MAX, 0), Some(0));
}
