use glacier_stream::cmd::tree_hash::HashCollector;
use glacier_stream::util::tree_hash::{SequentialTreeHash, SequentialTreeHashError, AWS_TREE_HASH_PART_SIZE};

fn sequential_root(hashes: &[[u8; 32]]) -> [u8; 32] {
    let mut t = SequentialTreeHash::new();
    for h in hashes {
        t.insert(*h);
    }
    t.finalize().unwrap()
}

#[test]
fn collector_hashes_out_of_order_parts_in_order() {
    let hashes: Vec<[u8; 32]> = (0..6u8).map(|i| [i; 32]).collect();
    let mut c = HashCollector::new();
    for i in [3usize, 0, 5, 1, 4, 2] {
        c.accept(i as u64 * AWS_TREE_HASH_PART_SIZE, hashes[i]);
    }
    assert_eq!(c.finish().unwrap(), sequential_root(&hashes));
}

#[test]
fn collector_ignores_repeated_parts() {
    let hashes: Vec<[u8; 32]> = (0..3u8).map(|i| [i; 32]).collect();
    let mut c = HashCollector::new();
    c.accept(0, hashes[0]);
    c.accept(0, hashes[0]);
    c.accept(2 * AWS_TREE_HASH_PART_SIZE, hashes[2]);
    c.accept(AWS_TREE_HASH_PART_SIZE, hashes[1]);
    assert_eq!(c.finish().unwrap(), sequential_root(&hashes));
}

#[test]
fn collector_without_first_part_has_no_hash() {
    let mut c = HashCollector::new();
    c.accept(AWS_TREE_HASH_PART_SIZE, [1; 32]);
    assert_eq!(c.finish(), Err(SequentialTreeHashError::EmptyTree));
}
