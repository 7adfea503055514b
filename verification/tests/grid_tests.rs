use hash_collider::alphabet::Alphabet;
use hash_collider::grid::{
    clamp_count, grid_search, lane_count, lane_prefix, padded_work_size, row_length,
};
use hash_collider::hash::{fnv_hash, PrecomputedSuffix};
use hash_collider::matching::Match;
use hash_collider::search::search;

fn text(m: &Match) -> Vec<u8> {
    m.bytes()[..m.len()].to_vec()
}

fn sorted_texts(matches: &[Match]) -> Vec<Vec<u8>> {
    let mut all: Vec<Vec<u8>> = matches.iter().map(text).collect();
    all.sort();
    all
}

#[test]
fn lane_count_is_a_power() {
    assert_eq!(lane_count(38, 4), Some(2085136));
    assert_eq!(lane_count(38, 0), Some(1));
    assert_eq!(lane_count(38, 1), Some(38));
    assert_eq!(lane_count(0, 0), Some(1));
    assert_eq!(lane_count(0, 3), Some(0));
    assert_eq!(lane_count(1, 100), Some(1));
    assert_eq!(lane_count(2, 31), Some(2147483648));
    assert_eq!(lane_count(255, 4), Some(4228250625));
}

#[test]
fn lane_count_that_does_not_fit_is_none() {
    assert_eq!(lane_count(256, 4), None);
    assert_eq!(lane_count(2, 32), None);
    assert_eq!(lane_count(38, 7), None);
    assert_eq!(lane_count(usize::MAX, 1), None);
    assert_eq!(lane_count(65536, 2), None);
    assert_eq!(lane_count(65535, 2), Some(4294836225));
}

#[test]
fn padded_work_size_rounds_up_to_a_block() {
    assert_eq!(padded_work_size(2085136, 512), Some(2085376));
    assert_eq!(padded_work_size(0, 512), Some(0));
    assert_eq!(padded_work_size(1, 512), Some(512));
    assert_eq!(padded_work_size(512, 512), Some(512));
    assert_eq!(padded_work_size(513, 512), Some(1024));
    assert_eq!(padded_work_size(7, 1), Some(7));
    assert_eq!(padded_work_size(usize::MAX, 2), None);
    assert_eq!(padded_work_size(usize::MAX, 1), Some(usize::MAX));
}

#[test]
fn clamp_count_is_the_lesser() {
    assert_eq!(clamp_count(0, 10), 0);
    assert_eq!(clamp_count(7, 10), 7);
    assert_eq!(clamp_count(10, 10), 10);
    assert_eq!(clamp_count(11, 10), 10);
    assert_eq!(clamp_count(u32::MAX, 0), 0);
}

#[test]
fn row_length_ends_at_the_first_zero() {
    assert_eq!(row_length(b"abc\0\0\0\0\0\0"), 3);
    assert_eq!(row_length(b"abcdefghi"), 9);
    assert_eq!(row_length(b"\0abc"), 0);
    assert_eq!(row_length(b"ab\0cd\0"), 2);
    assert_eq!(row_length(b""), 0);
}

#[test]
fn lane_prefix_spells_the_lane_number() {
    let alphabet = Alphabet::<3>::new(b"abc");
    let start = fnv_hash(b"pre");
    let expected: [&[u8]; 6] = [b"aaa", b"baa", b"caa", b"aba", b"bba", b"cba"];
    for (lane, want) in expected.iter().enumerate() {
        let (string, state) = lane_prefix(&alphabet, start, lane as u32, 3);
        assert_eq!(text(&string), want.to_vec());
        let mut whole = b"pre".to_vec();
        whole.extend_from_slice(want);
        assert_eq!(state, fnv_hash(&whole));
    }
    let (last, _) = lane_prefix(&alphabet, start, 26, 3);
    assert_eq!(text(&last), b"ccc".to_vec());
    let (none, state) = lane_prefix(&alphabet, start, 0, 0);
    assert_eq!(none.len(), 0);
    assert_eq!(state, start);
}

#[test]
fn lanes_have_different_strings() {
    let alphabet = Alphabet::<4>::new(b"wxyz");
    let mut seen: Vec<Vec<u8>> = Vec::new();
    for lane in 0..lane_count(4, 3).unwrap() {
        seen.push(text(&lane_prefix(&alphabet, 0, lane, 3).0));
    }
    seen.sort();
    seen.dedup();
    assert_eq!(seen.len(), 64);
}

#[test]
fn grid_finds_what_the_walk_finds_from_the_lane_length_on() {
    let alphabet = Alphabet::<5>::new(&[0, 1, 2, 36, 37]);
    for target in 0..400u32 {
        let shift = PrecomputedSuffix::new(b"", target);
        let walk = search::<5, 2>(&alphabet, 0, shift, 5);
        let mut expected: Vec<Vec<u8>> = walk.iter().filter(|m| m.len() >= 2).map(text).collect();
        expected.sort();
        let (rows, count) = grid_search::<5, 2>(&alphabet, 0, shift, 2, 3, 1000);
        assert_eq!(count, expected.len());
        assert_eq!(sorted_texts(&rows), expected);
    }
}

#[test]
fn grid_finds_a_planted_string() {
    let alphabet = Alphabet::<4>::new(b"abcd");
    let target = fnv_hash(b"head/dabbad.tail");
    let shift = PrecomputedSuffix::new(b".tail", target);
    let (rows, count) = grid_search::<4, 4>(&alphabet, fnv_hash(b"head/"), shift, 3, 3, 16);
    assert_eq!(count, rows.len());
    assert!(sorted_texts(&rows).contains(&b"dabbad".to_vec()));
    for row in &rows {
        assert!(row.len() >= 3 && row.len() <= 6);
        let mut whole = b"head/".to_vec();
        whole.extend_from_slice(&text(row));
        whole.extend_from_slice(b".tail");
        assert_eq!(fnv_hash(&whole), target);
    }
}

#[test]
fn grid_keeps_no_more_rows_than_the_buffer_holds() {
    let alphabet = Alphabet::<5>::new(&[0, 1, 2, 36, 37]);
    let shift = PrecomputedSuffix::new(b"", 37);
    let (all, total) = grid_search::<5, 1>(&alphabet, 0, shift, 1, 4, 1000);
    assert_eq!(total, all.len());
    assert!(total > 3);
    let (rows, count) = grid_search::<5, 1>(&alphabet, 0, shift, 1, 4, 3);
    assert_eq!(count, total);
    assert_eq!(rows.len(), 3);
    let everything = sorted_texts(&all);
    for row in &rows {
        assert!(everything.contains(&text(row)));
    }
    let kept = sorted_texts(&rows);
    assert!(kept[0] != kept[1] && kept[1] != kept[2]);
    let (none, count) = grid_search::<5, 1>(&alphabet, 0, shift, 1, 4, 0);
    assert!(none.is_empty());
    assert_eq!(count, total);
}

#[test]
fn grid_with_lanes_of_no_symbols_is_the_walk() {
    let alphabet = Alphabet::<3>::new(b"xyz");
    let target = fnv_hash(b"zyx");
    let shift = PrecomputedSuffix::new(b"", target);
    let (rows, count) = grid_search::<3, 2>(&alphabet, 0, shift, 0, 4, 10);
    assert_eq!(count, rows.len());
    assert_eq!(sorted_texts(&rows), sorted_texts(&search::<3, 2>(&alphabet, 0, shift, 4)));
    assert!(sorted_texts(&rows).contains(&b"zyx".to_vec()));
}

#[test]
fn append_joins_two_matches() {
    let head = Match::empty().push(1).push(2);
    let tail = Match::empty().push(3).push(4).push(5);
    let whole = head.append(&tail);
    assert_eq!(whole.len(), 5);
    assert_eq!(whole.bytes(), [1, 2, 3, 4, 5, 0, 0, 0]);
    assert_eq!(head.append(&Match::empty()).bytes(), head.bytes());
    assert_eq!(Match::empty().append(&tail).bytes(), tail.bytes());
}
