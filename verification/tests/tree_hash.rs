use glacier_stream::util::tree_hash::{TreeHash, TreeHashError};
use sha2::{Digest, Sha256};

fn pair(a: [u8; 32], b: [u8; 32]) -> [u8; 32] {
    let mut hasher = Sha256::new();
    hasher.update(a);
    hasher.update(b);
    hasher.finalize().into()
}

#[test]
fn test_hash_tree() {
    let mut tree = TreeHash::new(4);
    tree.try_insert(0, 4, [0; 32]).unwrap();
    tree.try_insert(4, 8, [1; 32]).unwrap();
    let hash = tree.compute_hash().unwrap();
    let mut hasher = Sha256::new();
    hasher.update([0; 32]);
    hasher.update([1; 32]);
    let result: [u8; 32] = hasher.finalize().into();
    assert_eq!(hash, result);
}

#[test]
fn test_unaligned_leaf_start() {
    let mut tree = TreeHash::new(4);
    let result = tree.try_insert(1, 5, [0; 32]);
    assert!(matches!(result, Err(TreeHashError::UnalignedLeafStart(1))));
}

#[test]
fn test_leaf_too_big() {
    let mut tree = TreeHash::new(4);
    let result = tree.try_insert(0, 5, [0; 32]);
    assert!(matches!(result, Err(TreeHashError::LeafTooBig)));
}

#[test]
fn test_multiple_short_leaves() {
    let mut tree = TreeHash::new(4);
    tree.try_insert(0, 2, [0; 32]).unwrap();
    let result = tree.try_insert(4, 6, [0; 32]);
    assert!(matches!(result, Err(TreeHashError::MultipleShortLeaves)));
}

#[test]
fn invalid_range_and_overlap_are_rejected() {
    let mut tree = TreeHash::new(4);
    assert_eq!(tree.try_insert(4, 4, [0; 32]), Err(TreeHashError::InvalidRange { start: 4, stop: 4 }));
    assert_eq!(tree.try_insert(8, 4, [0; 32]), Err(TreeHashError::InvalidRange { start: 8, stop: 4 }));
    tree.try_insert(4, 8, [0; 32]).unwrap();
    assert_eq!(tree.try_insert(4, 8, [1; 32]), Err(TreeHashError::LeafOverlap { start: 4, stop: 8 }));
}

#[test]
fn empty_tree_has_no_hash() {
    let tree = TreeHash::new(4);
    assert_eq!(tree.compute_hash(), Err(TreeHashError::EmptyTree));
}

#[test]
fn missing_first_leaf_is_a_gap() {
    let mut tree = TreeHash::new(4);
    tree.try_insert(8, 12, [0; 32]).unwrap();
    tree.try_insert(4, 8, [0; 32]).unwrap();
    assert_eq!(tree.compute_hash(), Err(TreeHashError::DataGap { start: 0, stop: 4 }));
}

#[test]
fn missing_middle_leaf_is_a_gap() {
    let mut tree = TreeHash::new(4);
    tree.try_insert(0, 4, [0; 32]).unwrap();
    tree.try_insert(20, 24, [0; 32]).unwrap();
    tree.try_insert(12, 16, [0; 32]).unwrap();
    assert_eq!(tree.compute_hash(), Err(TreeHashError::DataGap { start: 4, stop: 12 }));
}

#[test]
fn short_leaf_before_the_end_is_a_gap() {
    let mut tree = TreeHash::new(4);
    tree.try_insert(0, 3, [0; 32]).unwrap();
    tree.try_insert(4, 8, [0; 32]).unwrap();
    assert_eq!(tree.compute_hash(), Err(TreeHashError::DataGap { start: 3, stop: 4 }));
}

#[test]
fn leaves_in_any_order_hash_in_offset_order() {
    let h: Vec<[u8; 32]> = (0..5u8).map(|i| [i; 32]).collect();
    let mut tree = TreeHash::new(4);
    tree.try_insert(16, 18, h[4]).unwrap();
    tree.try_insert(4, 8, h[1]).unwrap();
    tree.try_insert(12, 16, h[3]).unwrap();
    tree.try_insert(0, 4, h[0]).unwrap();
    tree.try_insert(8, 12, h[2]).unwrap();
    let expected = pair(pair(pair(h[0], h[1]), pair(h[2], h[3])), h[4]);
    assert_eq!(tree.compute_hash().unwrap(), expected);
}

#[test]
fn single_leaf_is_its_own_hash() {
    let mut tree = TreeHash::new(4);
    tree.try_insert(0, 1, [7; 32]).unwrap();
    assert_eq!(tree.compute_hash().unwrap(), [7; 32]);
}
