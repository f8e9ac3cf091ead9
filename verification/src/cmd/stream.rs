use vstd::prelude::*;
use vstd::string::StringSliceAdditionalSpecFns;

use crate::util::hexcode::{hex_decode, spec_hex_decode, to_hash, HexError};
use crate::util::tree_hash::{insert_error, HashLeaf, TreeHash, TreeHashError};

verus! {

#[verifier::external_type_specification]
#[verifier::external_body]
pub struct ExIoError(std::io::Error);

/// Why reading the input for an upload stopped.
#[derive(Debug)]
pub enum ReadWorkerError {
    Io(std::io::Error),
    UploadAborted,
    SendWorkFailed,
}

/// Why the checksum that Glacier returned for an uploaded part is unusable.
#[derive(Debug, PartialEq, Eq, Structural)]
pub enum ChecksumError {
    Hex(HexError),
    InvalidLength,
}

/// Decodes the hex SHA-256 tree hash that Glacier returns for an uploaded part.
pub fn decode_checksum(checksum_hex: &str) -> (res: Result<[u8; 32], ChecksumError>)
    ensures
        match spec_hex_decode(checksum_hex.spec_bytes()) {
            Ok(v) => if v.len() == 32 {
                res matches Ok(h) && h@ == v
            } else {
                res == Err::<[u8; 32], ChecksumError>(ChecksumError::InvalidLength)
            },
            Err(e) => res == Err::<[u8; 32], ChecksumError>(ChecksumError::Hex(e)),
        },
{
    match hex_decode(checksum_hex) {
        Ok(bytes) => match to_hash(&bytes) {
            Some(h) => Ok(h),
            None => Err(ChecksumError::InvalidLength),
        },
        Err(e) => Err(ChecksumError::Hex(e)),
    }
}

/// The byte range of the part just read: `bytes_read` bytes after the `total_read` bytes read
/// before it, as `(first byte, last byte, total read after it)`.
pub fn read_part_range(total_read: u64, bytes_read: u64) -> (res: (u64, u64, u64))
    requires
        bytes_read > 0,
        total_read + bytes_read <= u64::MAX,
    ensures
        res.0 == total_read,
        res.1 == total_read + bytes_read - 1,
        res.2 == total_read + bytes_read,
{
    let range_start = total_read;
    let range_end = total_read + bytes_read - 1;
    (range_start, range_end, total_read + bytes_read)
}


/// Takes the checksum that Glacier returned for the uploaded bytes `range_start..=range_end`
/// into the tree hash of the upload.
pub fn record_upload(
    tree_hash: &mut TreeHash,
    range_start: u64,
    range_end: u64,
    checksum: [u8; 32],
) -> (res: Result<(), TreeHashError>)
    requires
        old(tree_hash).wf(),
        old(tree_hash).part_size() > 0,
        range_end < u64::MAX,
    ensures
        final(tree_hash).wf(),
        final(tree_hash).part_size() == old(tree_hash).part_size(),
        res is Err ==> *final(tree_hash) == *old(tree_hash),
        (match insert_error(
            old(tree_hash).leaves(),
            old(tree_hash).part_size(),
            old(tree_hash).have_end_leaf(),
            range_start,
            (range_end + 1) as u64,
        ) {
            Some(e) => {
                &&& res == Err::<(), TreeHashError>(e)
                &&& final(tree_hash).leaves() == old(tree_hash).leaves()
                &&& final(tree_hash).have_end_leaf() == old(tree_hash).have_end_leaf()
            },
            None => {
                &&& res is Ok
                &&& final(tree_hash).leaves() == old(tree_hash).leaves().insert(
                    range_start,
                    (HashLeaf { start: range_start, stop: (range_end + 1) as u64, hash: checksum }),
                )
                &&& final(tree_hash).have_end_leaf() == (old(tree_hash).have_end_leaf() || range_end
                    + 1 - range_start < old(tree_hash).part_size())
            },
        }),
{
    tree_hash.try_insert(range_start, range_end + 1, checksum)
}

} // verus!
