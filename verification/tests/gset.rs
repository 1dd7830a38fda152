use crdts::DecodeError;
use crdts::GSet;

fn set_of(elements: &[u64]) -> GSet {
    let mut s = GSet::new();
    for &e in elements {
        s.insert(e);
    }
    s
}

#[test]
fn new_set_is_empty() {
    let a = GSet::new();
    assert_eq!(a.len(), 0);
    assert!(!a.contains(&0));
    assert!(!a.contains(&1));
    assert_eq!(a.to_vec(), Vec::<u64>::new());
}

#[test]
fn insert_then_contains() {
    let mut a = GSet::new();
    a.insert(1);
    assert!(a.contains(&1));
    assert!(!a.contains(&2));
}

#[test]
fn insert_is_idempotent() {
    let mut once = GSet::new();
    once.insert(17);
    let mut twice = GSet::new();
    twice.insert(17);
    twice.insert(17);
    assert!(once.equals(&twice));
    assert_eq!(once, twice);
    assert!(once.contains(&17));
    assert!(twice.contains(&17));
}

#[test]
fn merge_is_idempotent() {
    let mut a = set_of(&[1, 2, 3]);
    let before = a.clone();
    a.merge(a.clone());
    assert!(a.equals(&before));
    assert_eq!(a, before);
}

#[test]
fn merge_is_commutative() {
    let a = set_of(&[1, 2, 5]);
    let b = set_of(&[2, 9]);
    let mut ab = a.clone();
    ab.merge(b.clone());
    let mut ba = b.clone();
    ba.merge(a.clone());
    assert!(ab.equals(&ba));
    assert_eq!(ab, ba);
    assert_eq!(ab.to_vec(), vec![1, 2, 5, 9]);
}

#[test]
fn merge_is_associative() {
    let a = set_of(&[1, 2]);
    let b = set_of(&[2, 3]);
    let c = set_of(&[4]);
    let mut left = a.clone();
    left.merge(b.clone());
    left.merge(c.clone());
    let mut bc = b.clone();
    bc.merge(c.clone());
    let mut right = a.clone();
    right.merge(bc);
    assert!(left.equals(&right));
    assert_eq!(left, right);
    assert_eq!(left.to_vec(), vec![1, 2, 3, 4]);
}

#[test]
fn merge_is_monotone() {
    let mut a = set_of(&[10, 20]);
    let b = set_of(&[30]);
    a.merge(b.clone());
    assert!(a.contains(&10));
    assert!(a.contains(&20));
    assert!(a.contains(&30));
    assert!(b.contains(&30));
}

#[test]
fn encode_decode_round_trip() {
    let a = set_of(&[3, 1, 4, 1, 5, 9, 2, 6]);
    let encoded = a.encode();
    let decoded = GSet::decode(&encoded).expect("a whole number of element encodings");
    assert!(decoded.equals(&a));
    assert_eq!(decoded, a);
}

#[test]
fn encode_decode_round_trip_empty() {
    let a = GSet::new();
    let encoded = a.encode();
    assert!(encoded.is_empty());
    let decoded = GSet::decode(&encoded).expect("empty input decodes");
    assert!(decoded.equals(&a));
}

#[test]
fn encode_is_ordered_little_endian() {
    let a = set_of(&[2, 1]);
    let encoded = a.encode();
    assert_eq!(
        encoded,
        vec![1, 0, 0, 0, 0, 0, 0, 0, 2, 0, 0, 0, 0, 0, 0, 0]
    );
}

#[test]
fn encode_is_deterministic() {
    let a = set_of(&[7, 3, 11]);
    let b = set_of(&[11, 7, 3, 7]);
    assert_eq!(a.encode(), b.encode());
}

#[test]
fn encode_large_element() {
    let a = set_of(&[u64::MAX]);
    assert_eq!(a.encode(), vec![0xff; 8]);
}

#[test]
fn decode_rejects_truncated_input() {
    let bad = vec![1, 2, 3];
    assert_eq!(GSet::decode(&bad), Err(DecodeError::Truncated));
    let bad9 = vec![0; 9];
    assert_eq!(GSet::decode(&bad9), Err(DecodeError::Truncated));
}

#[test]
fn decode_deduplicates_and_reorders() {
    // 2, then 1, then 1 again: a form no encoder of this library writes.
    let mut bytes = Vec::new();
    bytes.extend_from_slice(&[2, 0, 0, 0, 0, 0, 0, 0]);
    bytes.extend_from_slice(&[1, 0, 0, 0, 0, 0, 0, 0]);
    bytes.extend_from_slice(&[1, 0, 0, 0, 0, 0, 0, 0]);
    let decoded = GSet::decode(&bytes).expect("well-aligned input decodes");
    assert_eq!(decoded.len(), 2);
    assert_eq!(decoded.to_vec(), vec![1, 2]);
}

#[test]
fn scenario_merge_two_replicas() {
    let mut a = GSet::new();
    a.insert(1);
    let mut b = GSet::new();
    b.insert(2);
    a.merge(b);
    assert!(a.contains(&1));
    assert!(a.contains(&2));
    assert!(!a.contains(&3));
}

#[test]
fn scenario_double_insert_counts_once() {
    let mut a = GSet::new();
    a.insert(5);
    a.insert(5);
    assert_eq!(a.len(), 1);
    assert!(a.contains(&5));
}

#[test]
fn scenario_overlapping_merge() {
    let mut a = GSet::new();
    a.insert(1);
    a.insert(2);
    let mut b = GSet::new();
    b.insert(2);
    b.insert(3);
    a.merge(b);
    assert_eq!(a.to_vec(), vec![1, 2, 3]);
    assert!(a.equals(&set_of(&[1, 2, 3])));
}

#[test]
fn equals_ignores_insertion_order() {
    let a = set_of(&[1, 2, 3]);
    let b = set_of(&[3, 2, 1]);
    assert!(a.equals(&b));
    assert_eq!(a, b);
}

#[test]
fn equals_detects_difference() {
    let a = set_of(&[1, 2]);
    let b = set_of(&[1, 3]);
    let c = set_of(&[1]);
    assert!(!a.equals(&b));
    assert!(!a.equals(&c));
    assert!(!c.equals(&a));
}

#[test]
fn clone_preserves_elements() {
    let a = set_of(&[4, 8]);
    let b = a.clone();
    assert!(a.equals(&b));
    assert_eq!(b.to_vec(), vec![4, 8]);
}

#[test]
fn to_vec_is_sorted_and_unique() {
    let a = set_of(&[9, 1, 9, 4]);
    assert_eq!(a.to_vec(), vec![1, 4, 9]);
    assert_eq!(a.len(), 3);
}
