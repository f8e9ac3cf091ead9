use glacier_stream::util::tree_hash::{SequentialTreeHash, SequentialTreeHashError};
use sha2::{Digest, Sha256};

fn pair(a: [u8; 32], b: [u8; 32]) -> [u8; 32] {
    let mut hasher = Sha256::new();
    hasher.update(a);
    hasher.update(b);
    hasher.finalize().into()
}

#[test]
fn empty_sequential_tree_fails_to_finalize() {
    let t = SequentialTreeHash::new();
    assert_eq!(t.depth(), -1);
    assert_eq!(t.finalize(), Err(SequentialTreeHashError::EmptyTree));
    assert!(SequentialTreeHash::default().finalize().is_err());
}

#[test]
fn depth_is_trailing_zeros_of_leaf_count() {
    let mut t = SequentialTreeHash::new();
    let expected = [0, 1, 0, 2, 0, 1, 0, 3, 0, 1, 0, 2];
    for (i, d) in expected.iter().enumerate() {
        t.insert([i as u8; 32]);
        assert_eq!(t.depth(), *d as i64, "after {} leaves", i + 1);
    }
}

#[test]
fn three_leaves_hash_left_pair_then_last() {
    let mut t = SequentialTreeHash::new();
    t.insert([1; 32]);
    t.insert([2; 32]);
    t.insert([3; 32]);
    assert_eq!(t.finalize().unwrap(), pair(pair([1; 32], [2; 32]), [3; 32]));
}

#[test]
fn seven_leaves_follow_the_tree_hash_shape() {
    let h: Vec<[u8; 32]> = (0..7u8).map(|i| [i; 32]).collect();
    let mut t = SequentialTreeHash::new();
    for x in &h {
        t.insert(*x);
    }
    let expected = pair(pair(pair(h[0], h[1]), pair(h[2], h[3])), pair(pair(h[4], h[5]), h[6]));
    assert_eq!(t.finalize().unwrap(), expected);
}

#[test]
fn merge_appends_leaves_when_sizes_align() {
    let h: Vec<[u8; 32]> = (0..6u8).map(|i| [i; 32]).collect();
    let mut a = SequentialTreeHash::new();
    for x in &h[..4] {
        a.insert(*x);
    }
    let mut b = SequentialTreeHash::new();
    for x in &h[4..] {
        b.insert(*x);
    }
    a.merge(b).unwrap();
    let mut all = SequentialTreeHash::new();
    for x in &h {
        all.insert(*x);
    }
    assert_eq!(a.finalize().unwrap(), all.finalize().unwrap());
}

#[test]
fn merge_rejects_misaligned_tree_and_keeps_leaves() {
    let mut a = SequentialTreeHash::new();
    a.insert([1; 32]);
    let mut b = SequentialTreeHash::new();
    b.insert([2; 32]);
    b.insert([3; 32]);
    assert_eq!(a.merge(b), Err(SequentialTreeHashError::DepthMismatch));
    assert_eq!(a.depth(), 0);
    assert_eq!(a.finalize().unwrap(), [1; 32]);
}

#[test]
fn merging_into_empty_tree_takes_everything() {
    let mut a = SequentialTreeHash::new();
    let mut b = SequentialTreeHash::new();
    for i in 0..5u8 {
        b.insert([i; 32]);
    }
    a.merge(b).unwrap();
    assert_eq!(a.depth(), 0);
}
