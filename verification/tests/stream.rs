use glacier_stream::cmd::stream::{decode_checksum, read_part_range, record_upload, ChecksumError};
use glacier_stream::util::digest::chunk_hash;
use glacier_stream::util::tree_hash::{SequentialTreeHash, TreeHash, TreeHashError, AWS_TREE_HASH_PART_SIZE};
use glacier_stream::util::hexcode::HexError;

#[test]
fn checksum_decodes_to_32_bytes() {
    let hex = "ff".repeat(32);
    assert_eq!(decode_checksum(&hex).unwrap(), [0xff; 32]);
    assert_eq!(decode_checksum("ff"), Err(ChecksumError::InvalidLength));
    assert_eq!(decode_checksum("f"), Err(ChecksumError::Hex(HexError::OddLength)));
}

#[test]
fn read_ranges_are_inclusive() {
    assert_eq!(read_part_range(0, 10), (0, 9, 10));
    assert_eq!(read_part_range(10, 1), (10, 10, 11));
}

#[test]
fn uploaded_ranges_are_inclusive() {
    let mut t = TreeHash::new(4);
    assert!(record_upload(&mut t, 0, 3, [1; 32]).is_ok());
    assert!(record_upload(&mut t, 4, 5, [2; 32]).is_ok());
    assert!(matches!(record_upload(&mut t, 8, 12, [3; 32]), Err(TreeHashError::LeafTooBig)));
    assert!(matches!(record_upload(&mut t, 0, 3, [1; 32]), Err(TreeHashError::LeafOverlap { start: 0, stop: 4 })));
    assert!(matches!(record_upload(&mut t, 8, 9, [3; 32]), Err(TreeHashError::MultipleShortLeaves)));
    assert!(t.compute_hash().is_ok());
}

fn tree_of_chunks(data: &[u8]) -> [u8; 32] {
    let mut t = SequentialTreeHash::new();
    for c in data.chunks(AWS_TREE_HASH_PART_SIZE as usize) {
        t.insert(chunk_hash(c));
    }
    t.finalize().unwrap()
}

#[test]
fn upload_hash_of_part_hashes_is_the_archive_tree_hash() {
    let p = 2 * AWS_TREE_HASH_PART_SIZE;
    let whole: Vec<u8> = (0..5 * AWS_TREE_HASH_PART_SIZE as usize + 3).map(|i| (i % 251) as u8).collect();
    let mut t = TreeHash::new(p);
    let parts: Vec<(u64, &[u8])> = whole.chunks(p as usize).enumerate().map(|(i, c)| (i as u64 * p, c)).collect();
    for idx in [2usize, 0, 1] {
        let (start, bytes) = parts[idx];
        let end = start + bytes.len() as u64 - 1;
        assert!(record_upload(&mut t, start, end, tree_of_chunks(bytes)).is_ok());
    }
    assert_eq!(t.compute_hash().unwrap(), tree_of_chunks(&whole));
}
