use glacier_stream::util::tree_hash::{AlignedTreeHash, SequentialTreeHash, SequentialTreeHashError};

fn leaf(i: u8) -> [u8; 32] {
    [i; 32]
}

fn sequential(leaves: std::ops::Range<u8>) -> SequentialTreeHash {
    let mut t = SequentialTreeHash::new();
    for i in leaves {
        t.insert(leaf(i));
    }
    t
}

#[test]
fn part_after_any_number_of_leaves_merges_like_sequential() {
    for before in 0u8..12 {
        for count in 1u8..20 {
            let mut s = sequential(0..before);
            let mut part = AlignedTreeHash::new(before as u64);
            for i in before..before + count {
                part.insert(leaf(i));
            }
            assert!(part.merge_into(&mut s).is_ok());
            let whole = sequential(0..before + count);
            assert_eq!(s.finalize().unwrap(), whole.finalize().unwrap());
        }
    }
}

#[test]
fn part_merged_at_the_wrong_place_is_refused() {
    let mut s = sequential(0..3);
    let mut part = AlignedTreeHash::new(2);
    part.insert(leaf(2));
    part.insert(leaf(3));
    assert_eq!(part.merge_into(&mut s), Err(SequentialTreeHashError::DepthMismatch));
}
