use hash_collider::const_vec::ConstVec;
use hash_collider::matching::Match;

#[test]
fn new_vector_is_empty() {
    let v: ConstVec<u32, 4> = ConstVec::new();
    assert!(v.is_empty());
    assert_eq!(v.len(), 0);
    assert!(v.as_slice().is_empty());
}

#[test]
fn push_appends_in_order() {
    let mut v: ConstVec<u32, 3> = ConstVec::new();
    v.push(10);
    v.push(20);
    assert!(!v.is_empty());
    assert_eq!(v.len(), 2);
    assert_eq!(*v.index(0), 10);
    assert_eq!(*v.index(1), 20);
    v.push(30);
    assert_eq!(v.as_slice(), &[10, 20, 30]);
}

#[test]
fn index_mut_changes_one_element() {
    let mut v: ConstVec<u32, 3> = ConstVec::new();
    v.push(1);
    v.push(2);
    v.push(3);
    *v.index_mut(1) = 7;
    assert_eq!(v.as_slice(), &[1, 7, 3]);
    assert_eq!(v.len(), 3);
}

#[test]
fn mutable_slice_changes_elements_in_place() {
    let mut v: ConstVec<u8, 4> = ConstVec::new();
    v.push(1);
    v.push(2);
    v.as_mut_slice()[0] = 9;
    v.as_mut_slice().reverse();
    assert_eq!(v.as_slice(), &[2, 9]);
}

#[test]
fn from_slice_range_copies_the_range() {
    let data = [1u8, 2, 3, 4, 5];
    let v: ConstVec<u8, 3> = ConstVec::from_slice_range(&data, 1..4);
    assert_eq!(v.as_slice(), &[2, 3, 4]);
    let none: ConstVec<u8, 3> = ConstVec::from_slice_range(&data, 2..2);
    assert!(none.is_empty());
    let first: ConstVec<u8, 1> = ConstVec::from_slice_range(&data, 0..1);
    assert_eq!(first.as_slice(), &[1]);
}

#[test]
fn clone_holds_the_same_elements() {
    let mut v: ConstVec<u32, 3> = ConstVec::new();
    v.push(4);
    v.push(5);
    let mut w = v.clone();
    assert_eq!(w.as_slice(), v.as_slice());
    w.push(6);
    assert_eq!(v.len(), 2);
    assert_eq!(w.len(), 3);
}

#[test]
fn match_grows_byte_by_byte() {
    let empty = Match::empty();
    assert_eq!(empty.len(), 0);
    assert_eq!(empty.bytes(), [0u8; 8]);
    let ab = empty.push(b'a').push(b'b');
    assert_eq!(ab.len(), 2);
    assert_eq!(ab.bytes(), [b'a', b'b', 0, 0, 0, 0, 0, 0]);
    // the shorter match is as it was
    assert_eq!(empty.len(), 0);
    let mut full = Match::empty();
    for b in 1..=8u8 {
        full = full.push(b);
    }
    assert_eq!(full.len(), 8);
    assert_eq!(full.bytes(), [1, 2, 3, 4, 5, 6, 7, 8]);
}
