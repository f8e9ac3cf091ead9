use glacier_stream::util::tree_hash::{ReservedTreeHash, SequentialTreeHash, SequentialTreeHashError};

#[test]
fn test_reserved_tree_hash() {
    let mut straight = SequentialTreeHash::new();
    straight.insert([0; 32]);
    let mut reserved = ReservedTreeHash::new(0);
    reserved.insert([1; 32]);
    reserved.insert([2; 32]);
    reserved.insert([3; 32]);
    reserved.merge_into(&mut straight)
        .expect("Merging reserved tree hash should not fail");
    let scenario1_hash = straight
        .finalize()
        .expect("Finalizing tree hash should not fail");
    let mut straight2 = SequentialTreeHash::new();
    straight2.insert([0; 32]);
    straight2.insert([1; 32]);
    straight2.insert([2; 32]);
    straight2.insert([3; 32]);
    let scenario2_hash = straight2
        .finalize()
        .expect("Finalizing tree hash should not fail");
    assert_eq!(scenario1_hash, scenario2_hash);
}

#[test]
fn test_reserved_tree_hash_negative_depth() {
    let mut straight = SequentialTreeHash::new();
    let mut reserved = ReservedTreeHash::new(-1);
    reserved.insert([0; 32]);
    reserved.insert([1; 32]);
    reserved.insert([2; 32]);
    reserved.insert([3; 32]);
    reserved.merge_into(&mut straight)
        .expect("Merging reserved tree hash should not fail");
    let scenario1_hash = straight
        .finalize()
        .expect("Finalizing tree hash should not fail");
    let mut straight2 = SequentialTreeHash::new();
    straight2.insert([0; 32]);
    straight2.insert([1; 32]);
    straight2.insert([2; 32]);
    straight2.insert([3; 32]);
    let scenario2_hash = straight2
        .finalize()
        .expect("Finalizing tree hash should not fail");
    assert_eq!(scenario1_hash, scenario2_hash);
}

fn sequential(leaves: &[[u8; 32]]) -> SequentialTreeHash {
    let mut t = SequentialTreeHash::new();
    for l in leaves {
        t.insert(*l);
    }
    t
}

#[test]
fn reserved_part_after_six_leaves_matches_sequential() {
    // six leaves before: depth 1, so the reserve takes two leaves, the main tree the rest
    let leaves: Vec<[u8; 32]> = (0..14u8).map(|i| [i; 32]).collect();
    let mut merged = sequential(&leaves[..6]);
    assert_eq!(merged.depth(), 1);
    let mut part = ReservedTreeHash::new(merged.depth());
    for l in &leaves[6..] {
        part.insert(*l);
    }
    part.merge_into(&mut merged).unwrap();
    assert_eq!(merged.finalize().unwrap(), sequential(&leaves).finalize().unwrap());
}

#[test]
fn reserved_merge_fails_when_part_is_too_large() {
    // 100 leaves before (depth 2): a part of 100 leaves does not fit after them
    let leaves: Vec<[u8; 32]> = (0..200u32).map(|i| [(i % 251) as u8; 32]).collect();
    let mut merged = sequential(&leaves[..100]);
    assert_eq!(merged.depth(), 2);
    let mut part = ReservedTreeHash::new(merged.depth());
    for l in &leaves[100..] {
        part.insert(*l);
    }
    assert_eq!(part.merge_into(&mut merged), Err(SequentialTreeHashError::DepthMismatch));
}

#[test]
fn default_reserved_tree_reserves_one_leaf() {
    let mut part = ReservedTreeHash::default();
    part.insert([1; 32]);
    part.insert([2; 32]);
    let mut merged = sequential(&[[0; 32]]);
    part.merge_into(&mut merged).unwrap();
    let expected = sequential(&[[0; 32], [1; 32], [2; 32]]).finalize().unwrap();
    assert_eq!(merged.finalize().unwrap(), expected);
}
