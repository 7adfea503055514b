use hash_collider::alphabet::Alphabet;
use hash_collider::hash::{fnv_hash, PrecomputedSuffix};
use hash_collider::matching::Match;
use hash_collider::search::{find_collisions_simd, search};

fn assembled(prefix: &[u8], m: &Match, suffix: &[u8]) -> Vec<u8> {
    let mut whole = prefix.to_vec();
    whole.extend_from_slice(&m.bytes()[..m.len()]);
    whole.extend_from_slice(suffix);
    whole
}

fn strings(matches: &[Match]) -> Vec<Vec<u8>> {
    let mut all: Vec<Vec<u8>> = matches.iter().map(|m| m.bytes()[..m.len()].to_vec()).collect();
    all.sort();
    all
}

/// Every string over `symbols` of length up to `max_len` whose hash between
/// the prefix and the suffix is the target, by trying them all.
fn brute_force(symbols: &[u8], prefix: &[u8], suffix: &[u8], max_len: usize, target: u32) -> Vec<Vec<u8>> {
    let mut hits = Vec::new();
    let mut level: Vec<Vec<u8>> = vec![Vec::new()];
    for len in 0..=max_len {
        for s in &level {
            let mut whole = prefix.to_vec();
            whole.extend_from_slice(s);
            whole.extend_from_slice(suffix);
            if fnv_hash(&whole) == target {
                hits.push(s.clone());
            }
        }
        if len < max_len {
            let mut next = Vec::new();
            for s in &level {
                for &c in symbols {
                    let mut longer = s.clone();
                    longer.push(c);
                    next.push(longer);
                }
            }
            level = next;
        }
    }
    hits.sort();
    hits
}

#[test]
fn end_to_end_finds_matches_that_round_trip() {
    let alphabet = Alphabet::<38>::new(b"_.abcdefghijklmnopqrstuvwxyz0123456789");
    let suffix = b".dcx";
    let target: u32 = 0xd7255946;
    let cases: [(&[u8], &[&[u8]]); 4] = [
        (b"/other/md", &[b"pwxqwy", b"py.qwy"]),
        (b"/other/mz", &[b"i4pa3e"]),
        (b"/other/m_", &[b"389wf8", b"q4ww2d"]),
        (b"/other/m0", &[b"6xbxuw", b"6xd.uw", b"8.bxuw", b"8.d.uw", b"tw1wi4"]),
    ];
    for (prefix, expected) in cases {
        let matches = find_collisions_simd::<38, 4>(&alphabet, prefix, suffix, 6, target);
        for m in &matches {
            assert_eq!(fnv_hash(&assembled(prefix, m, suffix)), target);
        }
        let expected: Vec<Vec<u8>> = expected.iter().map(|e| e.to_vec()).collect();
        assert_eq!(strings(&matches), expected);
    }
    assert_eq!(fnv_hash(b"/other/mdpy.qwy.dcx"), target);
}

#[test]
fn end_to_end_has_no_match_of_six_bytes_or_less() {
    let alphabet = Alphabet::<38>::new(b"_.abcdefghijklmnopqrstuvwxyz0123456789");
    let matches = find_collisions_simd::<38, 4>(&alphabet, b"/other/m", b".dcx", 6, 0xd7255946);
    assert!(matches.is_empty());
}

#[test]
fn end_to_end_from_a_shorter_prefix() {
    // the same strings, found as matches of eight bytes behind a prefix that is one byte shorter
    let alphabet = Alphabet::<38>::new(b"_.abcdefghijklmnopqrstuvwxyz0123456789");
    let shift = PrecomputedSuffix::new(b".dcx", 0xd7255946);
    let matches = search::<38, 8>(&alphabet, fnv_hash(b"/other/mdpy"), shift, 4);
    assert_eq!(strings(&matches), vec![b".qwy".to_vec()]);
}

#[test]
fn zero_length_search_returns_the_one_empty_match() {
    let alphabet = Alphabet::<38>::new(b"_.abcdefghijklmnopqrstuvwxyz0123456789");
    let prefix = b"/other/m";
    let suffix = b".dcx";
    let target = fnv_hash(b"/other/m.dcx");
    assert_eq!(target, 1837923378);
    let matches = find_collisions_simd::<38, 4>(&alphabet, prefix, suffix, 0, target);
    assert_eq!(matches.len(), 1);
    assert_eq!(matches[0].len(), 0);
    assert_eq!(matches[0].bytes(), [0u8; 8]);
}

#[test]
fn zero_length_search_finds_nothing_for_another_target() {
    let alphabet = Alphabet::<4>::new(b"abcd");
    let target = fnv_hash(b"xaby");
    let matches = find_collisions_simd::<4, 2>(&alphabet, b"x", b"y", 0, target);
    assert!(matches.is_empty());
}

#[test]
fn small_space_equals_brute_force() {
    let alphabet = Alphabet::<4>::new(b"dbca");
    let symbols = b"abcd";
    let prefix = b"pre/";
    let suffix = b".x";
    for planted in [&b""[..], b"a", b"d", b"ab", b"dc", b"abc", b"ddd", b"cab"] {
        let mut whole = prefix.to_vec();
        whole.extend_from_slice(planted);
        whole.extend_from_slice(suffix);
        let target = fnv_hash(&whole);
        for max_len in 0..=3usize {
            let expected = brute_force(symbols, prefix, suffix, max_len, target);
            let got = strings(&find_collisions_simd::<4, 2>(&alphabet, prefix, suffix, max_len, target));
            assert_eq!(got, expected);
            if planted.len() <= max_len {
                assert!(got.contains(&planted.to_vec()));
            }
        }
    }
}

#[test]
fn dense_targets_equal_brute_force() {
    // with 200 symbols and a short hash distance many targets have several solutions
    let alphabet = Alphabet::<5>::new(&[0, 1, 2, 36, 37]);
    let symbols = [0u8, 1, 2, 36, 37];
    for target in 0..3000u32 {
        let expected = brute_force(&symbols, b"", b"", 4, target);
        let got = strings(&find_collisions_simd::<5, 4>(&alphabet, b"", b"", 4, target));
        assert_eq!(got, expected);
    }
}

#[test]
fn result_does_not_depend_on_lane_count() {
    let alphabet = Alphabet::<7>::new(b"0123abc");
    let prefix = b"k";
    let suffix = b"end";
    let target = fnv_hash(b"k3a1bend");
    let reference = brute_force(b"0123abc", prefix, suffix, 4, target);
    assert!(reference.contains(&b"3a1b".to_vec()));
    assert_eq!(strings(&find_collisions_simd::<7, 1>(&alphabet, prefix, suffix, 4, target)), reference);
    assert_eq!(strings(&find_collisions_simd::<7, 2>(&alphabet, prefix, suffix, 4, target)), reference);
    assert_eq!(strings(&find_collisions_simd::<7, 4>(&alphabet, prefix, suffix, 4, target)), reference);
    assert_eq!(strings(&find_collisions_simd::<7, 7>(&alphabet, prefix, suffix, 4, target)), reference);
    assert_eq!(strings(&find_collisions_simd::<7, 8>(&alphabet, prefix, suffix, 4, target)), reference);
    assert_eq!(strings(&find_collisions_simd::<7, 64>(&alphabet, prefix, suffix, 4, target)), reference);
}

#[test]
fn no_match_is_returned_twice() {
    let alphabet = Alphabet::<5>::new(&[0, 1, 2, 36, 37]);
    for target in 0..500u32 {
        let got = strings(&find_collisions_simd::<5, 2>(&alphabet, b"", b"", 5, target));
        for pair in got.windows(2) {
            assert_ne!(pair[0], pair[1]);
        }
    }
}

#[test]
fn greatest_length_fills_the_match() {
    let alphabet = Alphabet::<2>::new(b"ab");
    let target = fnv_hash(b"abbabaab");
    let matches = find_collisions_simd::<2, 2>(&alphabet, b"", b"", 8, target);
    let got = strings(&matches);
    assert_eq!(got, brute_force(b"ab", b"", b"", 8, target));
    assert!(got.contains(&b"abbabaab".to_vec()));
    let full = matches.iter().find(|m| m.len() == 8).unwrap();
    assert_eq!(&full.bytes(), b"abbabaab");
}

#[test]
fn empty_alphabet_can_only_match_the_empty_string() {
    let alphabet = Alphabet::<0>::new(&[]);
    let hit = find_collisions_simd::<0, 4>(&alphabet, b"ab", b"cd", 5, fnv_hash(b"abcd"));
    assert_eq!(hit.len(), 1);
    assert_eq!(hit[0].len(), 0);
    let miss = find_collisions_simd::<0, 4>(&alphabet, b"ab", b"cd", 5, fnv_hash(b"abxcd"));
    assert!(miss.is_empty());
}

#[test]
fn search_from_a_hash_state_agrees_with_the_search_from_bytes() {
    let alphabet = Alphabet::<4>::new(b"wxyz");
    let target = fnv_hash(b"head-zyx-tail");
    let shift = PrecomputedSuffix::new(b"-tail", target);
    let direct = search::<4, 2>(&alphabet, fnv_hash(b"head-"), shift, 3);
    let wrapped = find_collisions_simd::<4, 2>(&alphabet, b"head-", b"-tail", 3, target);
    assert_eq!(strings(&direct), strings(&wrapped));
    assert_eq!(strings(&direct), vec![b"zyx".to_vec()]);
}

#[test]
fn one_byte_match_is_solved_directly() {
    let alphabet = Alphabet::<3>::new(b"xyz");
    let target = fnv_hash(b"a/y.b");
    let matches = find_collisions_simd::<3, 1>(&alphabet, b"a/", b".b", 1, target);
    assert_eq!(strings(&matches), vec![b"y".to_vec()]);
    // a byte that solves the hash but is no symbol is no match
    let outside = fnv_hash(b"a/q.b");
    assert!(find_collisions_simd::<3, 1>(&alphabet, b"a/", b".b", 1, outside).is_empty());
}
