use glacier_stream::cmd::download::{
    command_at, hash_eq, is_valid_chunk_size, job_values, may_hand_out, part_tree_hash, JobError, DownloadWorkerCommand, DownloadedPart,
    OutputError, PartAssembler,
};
use glacier_stream::util::tree_hash::{SequentialTreeHash, SequentialTreeHashError, AWS_TREE_HASH_PART_SIZE};
use sha2::{Digest, Sha256};

const P: u64 = AWS_TREE_HASH_PART_SIZE;

fn data(len: usize, seed: u8) -> Vec<u8> {
    (0..len).map(|i| (i as u8).wrapping_mul(31).wrapping_add(seed)).collect()
}

fn chunk_root(data: &[u8]) -> [u8; 32] {
    let mut t = SequentialTreeHash::new();
    for c in data.chunks(P as usize) {
        t.insert(Sha256::digest(c).into());
    }
    t.finalize().unwrap()
}

#[test]
fn commands_cover_the_archive() {
    assert_eq!(command_at(0, 10, 4), Some((DownloadWorkerCommand { offset: 0, size: 4 }, Some(4))));
    assert_eq!(command_at(8, 10, 4), Some((DownloadWorkerCommand { offset: 8, size: 2 }, Some(12))));
    assert_eq!(command_at(12, 10, 4), None);
    assert_eq!(command_at(u64::MAX - 1, u64::MAX, 4), Some((DownloadWorkerCommand { offset: u64::MAX - 1, size: 1 }, None)));
}

#[test]
fn part_tree_hash_of_whole_archive_matches_chunk_hashes() {
    let d = data(3 * P as usize + 10, 1);
    let tree = part_tree_hash(0, &d);
    let mut s = SequentialTreeHash::new();
    tree.merge_into(&mut s).unwrap();
    assert_eq!(s.finalize().unwrap(), chunk_root(&d));
}

#[test]
fn parts_in_any_order_reassemble_and_verify() {
    let whole = data(6 * P as usize + 100, 7);
    let chunk = 2 * P as usize;
    let pieces: Vec<(u64, Vec<u8>)> = whole
        .chunks(chunk)
        .enumerate()
        .map(|(i, c)| ((i * chunk) as u64, c.to_vec()))
        .collect();
    let mut assembler = PartAssembler::new();
    let mut written: Vec<u8> = Vec::new();
    for idx in [2usize, 0, 3, 1] {
        let (offset, bytes) = pieces[idx].clone();
        let (blocks, err) = assembler.accept(DownloadedPart::new(offset, bytes));
        assert!(err.is_none());
        for b in blocks {
            written.extend_from_slice(&b);
        }
    }
    assert_eq!(written, whole);
    assert_eq!(assembler.finish(whole.len() as u64, chunk_root(&whole)), Ok(()));
}

#[test]
fn assembler_reports_wrong_hash_and_short_output() {
    let whole = data(P as usize + 5, 3);
    let mut assembler = PartAssembler::new();
    let (blocks, err) = assembler.accept(DownloadedPart::new(0, whole.clone()));
    assert_eq!(blocks.len(), 1);
    assert!(err.is_none());
    assert_eq!(assembler.finish(whole.len() as u64, [0; 32]), Err(OutputError::HashMismatch));

    let mut assembler = PartAssembler::new();
    assembler.accept(DownloadedPart::new(0, whole.clone()));
    assert_eq!(
        assembler.finish(whole.len() as u64 + 1, [0; 32]),
        Err(OutputError::Incomplete { expected: whole.len() as u64 + 1, written: whole.len() as u64 })
    );
    assert_eq!(PartAssembler::new().finish(0, [0; 32]), Err(OutputError::Tree(SequentialTreeHashError::EmptyTree)));
}

fn reassemble(whole: &[u8], chunk: usize, order: &[usize]) -> Vec<u8> {
    let pieces: Vec<(u64, Vec<u8>)> = whole
        .chunks(chunk)
        .enumerate()
        .map(|(i, c)| ((i * chunk) as u64, c.to_vec()))
        .collect();
    assert_eq!(pieces.len(), order.len());
    let mut assembler = PartAssembler::new();
    let mut written: Vec<u8> = Vec::new();
    for &idx in order {
        let (offset, bytes) = pieces[idx].clone();
        let (blocks, err) = assembler.accept(DownloadedPart::new(offset, bytes));
        assert!(err.is_none());
        for b in blocks {
            written.extend_from_slice(&b);
        }
    }
    assert_eq!(assembler.finish(whole.len() as u64, chunk_root(whole)), Ok(()));
    written
}

#[test]
fn parts_of_five_mebibytes_reassemble() {
    let whole = data(10 * P as usize, 4);
    assert_eq!(reassemble(&whole, 5 * P as usize, &[1, 0]), whole);
    let whole = data(23 * P as usize + 17, 5);
    assert_eq!(reassemble(&whole, 5 * P as usize, &[3, 1, 4, 0, 2]), whole);
}

#[test]
fn parts_of_three_and_six_mebibytes_reassemble() {
    let whole = data(20 * P as usize + 1, 6);
    assert_eq!(reassemble(&whole, 3 * P as usize, &[6, 5, 4, 3, 2, 1, 0]), whole);
    assert_eq!(reassemble(&whole, 6 * P as usize, &[2, 3, 0, 1]), whole);
}

#[test]
fn misplaced_part_fails_to_merge() {
    // three leaves written, then a part that starts at leaf 2 with two leaves
    let first = data(2 * P as usize + 1, 1);
    let second = data(2 * P as usize, 2);
    let mut assembler = PartAssembler::new();
    assembler.accept(DownloadedPart::new(0, first));
    let (blocks, err) = assembler.accept(DownloadedPart::new(2 * P + 1, second));
    assert_eq!(blocks.len(), 1);
    assert_eq!(err, Some(SequentialTreeHashError::DepthMismatch));
}

#[test]
fn hashes_compare_bytewise() {
    assert!(hash_eq(&[1; 32], &[1; 32]));
    let mut b = [1; 32];
    b[31] = 2;
    assert!(!hash_eq(&[1; 32], &b));
}

#[test]
fn chunk_size_must_be_whole_mebibytes() {
    assert!(is_valid_chunk_size(100 * P));
    assert!(is_valid_chunk_size(0));
    assert!(!is_valid_chunk_size(P + 1));
    assert!(!is_valid_chunk_size(1000));
}

#[test]
fn command_ranges_and_lengths() {
    let cmd = DownloadWorkerCommand { offset: 10, size: 5 };
    assert_eq!(cmd.last_byte(), 14);
    assert!(cmd.is_complete(5));
    assert!(!cmd.is_complete(4));
}

#[test]
fn repeated_parts_in_reverse_order_still_reassemble() {
    let whole = data(4 * P as usize + 1, 9);
    let chunk = P as usize;
    let pieces: Vec<(u64, Vec<u8>)> = whole
        .chunks(chunk)
        .enumerate()
        .map(|(i, c)| ((i * chunk) as u64, c.to_vec()))
        .collect();
    let mut assembler = PartAssembler::new();
    let mut written: Vec<u8> = Vec::new();
    for idx in [4usize, 3, 3, 2, 1, 0, 2] {
        let (offset, bytes) = pieces[idx].clone();
        let (blocks, err) = assembler.accept(DownloadedPart::new(offset, bytes));
        assert!(err.is_none());
        for b in blocks {
            written.extend_from_slice(&b);
        }
    }
    assert_eq!(written, whole);
    assert_eq!(assembler.finish(whole.len() as u64, chunk_root(&whole)), Ok(()));
}

#[test]
fn job_description_gives_size_and_hash() {
    let hex = "ab".repeat(32);
    assert_eq!(job_values(true, Some(42), Some(&hex)), Ok((42, [0xab; 32])));
    assert_eq!(job_values(false, Some(42), Some(&hex)), Err(JobError::NotFinished));
    assert_eq!(job_values(true, None, Some(&hex)), Err(JobError::MissingArchiveSize));
    assert_eq!(job_values(true, Some(42), None), Err(JobError::InvalidTreeHash));
    assert_eq!(job_values(true, Some(42), Some("abcd")), Err(JobError::InvalidTreeHash));
    assert_eq!(job_values(true, Some(42), Some("zz")), Err(JobError::InvalidTreeHash));
}

#[test]
fn work_is_handed_out_only_near_what_is_written() {
    assert!(may_hand_out(0, 0, 1, 10));
    assert!(may_hand_out(30, 0, 4, 10));
    assert!(!may_hand_out(40, 0, 4, 10));
    assert!(may_hand_out(40, 10, 4, 10));
    assert!(may_hand_out(5, 10, 0, 10));
    assert!(!may_hand_out(10, 10, 0, 10));
    assert!(may_hand_out(u64::MAX - 1, 0, u64::MAX, 2));
}

#[test]
fn gated_download_keeps_few_parts_pending() {
    // parts come back newest first within the window; the assembler never holds more than
    // `workers` parts that are not yet written
    let chunk = 2 * P as usize;
    let workers = 3u64;
    let whole = data(11 * P as usize + 7, 8);
    let pieces: Vec<(u64, Vec<u8>)> = whole
        .chunks(chunk)
        .enumerate()
        .map(|(i, c)| ((i * chunk) as u64, c.to_vec()))
        .collect();
    let mut assembler = PartAssembler::new();
    let mut written: Vec<u8> = Vec::new();
    let mut next = 0usize;
    let mut in_flight: Vec<usize> = Vec::new();
    while written.len() < whole.len() {
        while next < pieces.len()
            && may_hand_out(pieces[next].0, assembler.written(), workers, chunk as u64)
        {
            in_flight.push(next);
            next += 1;
        }
        assert!(in_flight.len() as u64 <= workers);
        let idx = in_flight.pop().unwrap();
        let before = assembler.written();
        let (blocks, err) = assembler.accept(DownloadedPart::new(pieces[idx].0, pieces[idx].1.clone()));
        assert!(err.is_none());
        assert!(assembler.written() >= before);
        for b in blocks {
            written.extend_from_slice(&b);
        }
    }
    assert_eq!(written, whole);
    assert_eq!(assembler.finish(whole.len() as u64, chunk_root(&whole)), Ok(()));
}
