use std::collections::BTreeMap;
use vstd::prelude::*;

use crate::util::digest::{sha256, sha256_digest, tree_hash};
use crate::util::hexcode::{decode_hash, spec_hex_decode};
use vstd::string::StringSliceAdditionalSpecFns;
use crate::util::tree_hash::aligned::{lemma_merge_segments_len, spec_merge_segments, AlignedTreeHash};
use crate::util::tree_hash::sequential::{SequentialTreeHash, SequentialTreeHashError};
use crate::cmd::parts::{chunk_past, lemma_outstanding_parts};
use crate::util::tree_hash::AWS_TREE_HASH_PART_SIZE;
use vstd::relations::injective_on;
use vstd::set_lib::lemma_map_size;

verus! {

broadcast use {vstd::std_specs::btree::group_btree_axioms, vstd::laws_cmp::group_laws_cmp};

/// A range of the archive for a download worker to fetch.
#[derive(Debug, Clone, Copy, PartialEq, Eq, Structural)]
pub struct DownloadWorkerCommand {
    pub offset: u64,
    pub size: u64,
}

impl DownloadWorkerCommand {
    /// The last byte of the range, as the `Range` header of the request gives it.
    pub fn last_byte(&self) -> (res: u64)
        requires
            self.size > 0,
            self.offset + self.size - 1 <= u64::MAX,
        ensures
            res == self.offset + self.size - 1,
    {
        self.offset + (self.size - 1)
    }

    /// Whether `len` bytes are the whole range.
    pub fn is_complete(&self, len: usize) -> (res: bool)
        ensures
            res == (len == self.size),
    {
        len as u64 == self.size
    }
}

/// Why a retrieval job cannot be downloaded.
#[derive(Debug, PartialEq, Eq, Structural)]
pub enum JobError {
    NotFinished,
    MissingArchiveSize,
    InvalidTreeHash,
}

/// The archive size and tree hash of a retrieval job, from its description: whether the job
/// completed, the archive size it reports and its hex SHA-256 tree hash.
pub fn job_values(completed: bool, archive_size: Option<i64>, sha256_tree_hash: Option<&str>) -> (res:
    Result<(u64, [u8; 32]), JobError>)
    ensures
        !completed ==> res == Err::<(u64, [u8; 32]), JobError>(JobError::NotFinished),
        completed && archive_size is None ==> res == Err::<(u64, [u8; 32]), JobError>(
            JobError::MissingArchiveSize,
        ),
        completed && archive_size is Some ==> match sha256_tree_hash {
            Some(h) => match spec_hex_decode(h.spec_bytes()) {
                Ok(v) => if v.len() == 32 {
                    res matches Ok((size, hash)) && size == archive_size->0 as u64 && hash@ == v
                } else {
                    res == Err::<(u64, [u8; 32]), JobError>(JobError::InvalidTreeHash)
                },
                Err(_) => res == Err::<(u64, [u8; 32]), JobError>(JobError::InvalidTreeHash),
            },
            None => res == Err::<(u64, [u8; 32]), JobError>(JobError::InvalidTreeHash),
        },
{
    if !completed {
        return Err(JobError::NotFinished);
    }
    let total_size = match archive_size {
        Some(s) => s as u64,
        None => {
            return Err(JobError::MissingArchiveSize);
        },
    };
    let tree_hash = match sha256_tree_hash {
        Some(h) => decode_hash(h),
        None => None,
    };
    match tree_hash {
        Some(hash) => Ok((total_size, hash)),
        None => Err(JobError::InvalidTreeHash),
    }
}

/// Whether a download chunk size is a whole number of 1 MiB tree-hash chunks.
pub fn is_valid_chunk_size(chunking_size: u64) -> (res: bool)
    ensures
        res == (chunking_size % AWS_TREE_HASH_PART_SIZE == 0),
{
    chunking_size % AWS_TREE_HASH_PART_SIZE == 0
}

/// Number of 1 MiB chunks that `len` bytes split into.
pub open spec fn chunk_count(len: nat) -> nat {
    ((len + AWS_TREE_HASH_PART_SIZE - 1) / (AWS_TREE_HASH_PART_SIZE as int)) as nat
}

/// End of chunk `k` of `len` bytes.
pub open spec fn chunk_end(k: nat, len: nat) -> nat {
    if (k + 1) * AWS_TREE_HASH_PART_SIZE <= len {
        ((k + 1) * AWS_TREE_HASH_PART_SIZE) as nat
    } else {
        len
    }
}

/// SHA-256 hashes of the consecutive 1 MiB chunks of `data` (the last may be shorter).
pub open spec fn chunk_hashes(data: Seq<u8>) -> Seq<Seq<u8>> {
    Seq::new(
        chunk_count(data.len()),
        |k: int|
            sha256(data.subrange(k * AWS_TREE_HASH_PART_SIZE, chunk_end(k as nat, data.len()) as int)),
    )
}

/// A downloaded part of the archive, with the tree hash of its chunks.
pub struct DownloadedPart {
    offset: u64,
    data: Vec<u8>,
    tree_hash: AlignedTreeHash,
}

impl DownloadedPart {
    pub closed spec fn spec_offset(&self) -> u64 {
        self.offset
    }

    pub closed spec fn spec_data(&self) -> Seq<u8> {
        self.data@
    }

    pub closed spec fn tree(&self) -> AlignedTreeHash {
        self.tree_hash
    }

    pub closed spec fn wf(&self) -> bool {
        &&& self.tree_hash.wf()
        &&& self.tree_hash@.len() <= self.data@.len()
    }

    /// What well-formedness says of the part's tree.
    pub proof fn lemma_wf(&self)
        requires
            self.wf(),
        ensures
            self.tree().wf(),
            self.tree()@.len() <= self.spec_data().len(),
    {
    }

    pub fn offset(&self) -> (res: u64)
        ensures
            res == self.spec_offset(),
    {
        self.offset
    }

    pub fn data(&self) -> (res: &Vec<u8>)
        ensures
            res@ == self.spec_data(),
    {
        &self.data
    }

    /// Hashes the data of a part that starts at `offset` into a tree whose first leaf is the
    /// 1 MiB chunk at `offset`, so that the part can be merged after the chunks before it.
    pub fn new(offset: u64, data: Vec<u8>) -> (res: Self)
        ensures
            res.wf(),
            res.spec_offset() == offset,
            res.spec_data() == data@,
            res.tree().start() == offset / AWS_TREE_HASH_PART_SIZE,
            res.tree()@ == chunk_hashes(data@),
    {
        let tree_hash = part_tree_hash(offset, data.as_slice());
        DownloadedPart { offset, data, tree_hash }
    }
}

/// Tree hash of the chunks of a part that starts at `offset`.
pub fn part_tree_hash(offset: u64, data: &[u8]) -> (res: AlignedTreeHash)
    ensures
        res.wf(),
        res.start() == offset / AWS_TREE_HASH_PART_SIZE,
        res@ == chunk_hashes(data@),
{
    let start = offset / AWS_TREE_HASH_PART_SIZE;
    let mut tree_hash = AlignedTreeHash::new(start);
    let len = data.len();
    let mut i: usize = 0;
    let ghost mut k: nat = 0;
    while i < len
        invariant
            len == data@.len(),
            i <= len,
            i < len ==> i == k * AWS_TREE_HASH_PART_SIZE,
            k <= chunk_count(len as nat),
            i < len ==> k < chunk_count(len as nat),
            i == len ==> k == chunk_count(len as nat),
            start == offset / AWS_TREE_HASH_PART_SIZE,
            tree_hash.wf(),
            tree_hash.start() == start,
            tree_hash@ == chunk_hashes(data@).take(k as int),
        decreases len - i,
    {
        let end = if len - i > AWS_TREE_HASH_PART_SIZE as usize {
            i + AWS_TREE_HASH_PART_SIZE as usize
        } else {
            len
        };
        let hash = sha256_digest(&data[i..end]);
        proof {
            assert(tree_hash@.len() == k);
            assert(end == chunk_end(k, len as nat));
            assert(hash@ == chunk_hashes(data@)[k as int]);
            assert(chunk_hashes(data@).take(k as int + 1) =~= chunk_hashes(data@).take(k as int).push(
                hash@,
            ));
            assert(k < len);
            assert(start <= 0xffff_ffff_ffff_ffffu64 / 1048576);
        }
        tree_hash.insert(hash);
        proof {
            if end < len {
                assert(end == (k + 1) * AWS_TREE_HASH_PART_SIZE);
                assert(k + 1 < chunk_count(len as nat));
            } else {
                assert(k + 1 == chunk_count(len as nat));
            }
        }
        i = end;
        proof {
            k = k + 1;
        }
    }
    proof {
        assert(chunk_hashes(data@).take(k as int) =~= chunk_hashes(data@));
    }
    tree_hash
}

/// The command for the download chunk starting at `offset`, and where the next one starts:
/// chunks of `chunking_size` bytes cover `total_size` bytes, the last one may be shorter; there
/// is no next chunk where the next offset would pass `u64::MAX`.
pub fn command_at(offset: u64, total_size: u64, chunking_size: u64) -> (res: Option<
    (DownloadWorkerCommand, Option<u64>),
>)
    requires
        chunking_size > 0,
    ensures
        offset >= total_size ==> res is None,
        offset < total_size ==> res == Some((
            DownloadWorkerCommand {
                offset,
                size: if chunking_size <= total_size - offset {
                    chunking_size
                } else {
                    (total_size - offset) as u64
                },
            },
            if offset + chunking_size <= u64::MAX {
                Some((offset + chunking_size) as u64)
            } else {
                None::<u64>
            },
        )),
{
    if offset >= total_size {
        return None;
    }
    let rest = total_size - offset;
    let size = if chunking_size <= rest {
        chunking_size
    } else {
        rest
    };
    let next = offset.checked_add(chunking_size);
    Some((DownloadWorkerCommand { offset, size }, next))
}

#[derive(Debug, PartialEq, Eq, Structural)]
pub enum OutputError {
    Incomplete { expected: u64, written: u64 },
    Tree(SequentialTreeHashError),
    HashMismatch,
}

/// Writing out and hashing pending parts in offset order: while a part is pending at the end
/// of the written data, it is taken out, its data is written and its tree is merged; a merge
/// that fails stops the run and is reported.  The result is `(pending, written, leaves,
/// data written, merge error)`.
pub open spec fn assemble(
    pending: Map<u64, DownloadedPart>,
    total: nat,
    leaves: Seq<Seq<u8>>,
    out: Seq<Seq<u8>>,
) -> (Map<u64, DownloadedPart>, nat, Seq<Seq<u8>>, Seq<Seq<u8>>, Option<SequentialTreeHashError>)
    decreases pending.dom().len(),
{
    if pending.dom().finite() && total <= u64::MAX && pending.contains_key(total as u64) {
        let part = pending[total as u64];
        let rest = pending.remove(total as u64);
        let written = total + part.spec_data().len();
        let merged = spec_merge_segments(leaves, part.tree().segments());
        let out2 = out.push(part.spec_data());
        match merged.0 {
            Ok(()) => assemble(rest, written, merged.1, out2),
            Err(e) => (rest, written, merged.1, out2, Some(e)),
        }
    } else {
        (pending, total, leaves, out, None)
    }
}

/// Writing out pending parts never takes the written count back.
proof fn lemma_assemble_grows(
    pending: Map<u64, DownloadedPart>,
    total: nat,
    leaves: Seq<Seq<u8>>,
    out: Seq<Seq<u8>>,
)
    ensures
        assemble(pending, total, leaves, out).1 >= total,
    decreases pending.dom().len(),
{
    if pending.dom().finite() && total <= u64::MAX && pending.contains_key(total as u64) {
        let part = pending[total as u64];
        let rest = pending.remove(total as u64);
        let merged = spec_merge_segments(leaves, part.tree().segments());
        if merged.0 is Ok {
            lemma_assemble_grows(rest, total + part.spec_data().len(), merged.1, out.push(
                part.spec_data(),
            ));
        }
    }
}

/// Whether the download chunk at `offset` may be handed out when `written` bytes of the
/// archive have been written: only while it starts fewer than `workers` chunks of
/// `chunking_size` bytes past them, so that what is downloaded but not yet written stays
/// within `workers` chunks.
pub fn may_hand_out(offset: u64, written: u64, workers: u64, chunking_size: u64) -> (res: bool)
    ensures
        res == (offset < written + workers * chunking_size),
{
    if offset < written {
        return true;
    }
    let ahead = offset - written;
    match workers.checked_mul(chunking_size) {
        Some(limit) => ahead < limit,
        None => true,
    }
}

/// Puts downloaded parts, which may arrive in any order, back in order: writes out their data
/// and merges their tree hashes as soon as the parts before them are in.
pub struct PartAssembler {
    tree_hasher: SequentialTreeHash,
    total_written: u64,
    chunk_map: BTreeMap<u64, DownloadedPart>,
}

impl PartAssembler {
    pub closed spec fn leaves(&self) -> Seq<Seq<u8>> {
        self.tree_hasher@
    }

    pub closed spec fn total(&self) -> nat {
        self.total_written as nat
    }

    pub closed spec fn pending(&self) -> Map<u64, DownloadedPart> {
        self.chunk_map@
    }

    pub closed spec fn wf(&self) -> bool {
        &&& self.tree_hasher.wf()
        &&& self.tree_hasher@.len() <= self.total_written
        &&& self.chunk_map@.dom().finite()
        &&& forall|k: u64| #[trigger]
            self.chunk_map@.contains_key(k) ==> self.chunk_map@[k].wf() && k
                + self.chunk_map@[k].spec_data().len() <= usize::MAX
    }

    pub fn new() -> (res: Self)
        ensures
            res.wf(),
            res.leaves() == Seq::<Seq<u8>>::empty(),
            res.total() == 0,
            res.pending() == Map::<u64, DownloadedPart>::empty(),
    {
        PartAssembler {
            tree_hasher: SequentialTreeHash::new(),
            total_written: 0,
            chunk_map: BTreeMap::new(),
        }
    }

    /// How many bytes have been written out.
    pub fn written(&self) -> (res: u64)
        ensures
            res == self.total(),
    {
        self.total_written
    }

    /// Memory bound: when every pending part starts a whole number of chunks of `c` bytes
    /// past the written bytes, fewer than `workers` chunks past them, at most `workers` parts
    /// are pending.
    pub proof fn lemma_pending_bound(&self, workers: nat, c: nat)
        requires
            c > 0,
            self.wf(),
            forall|k: u64|
                #[trigger] self.pending().contains_key(k) ==> exists|i: nat|
                    i < workers && k == #[trigger] chunk_past(self.total(), c, i),
        ensures
            self.pending().dom().len() <= workers,
    {
        let keys = self.pending().dom();
        let f = |k: u64| k as nat;
        let offsets = keys.map(f);
        assert(injective_on(f, keys));
        lemma_map_size(keys, offsets, f);
        assert forall|o: nat| #[trigger] offsets.contains(o) implies exists|i: nat|
            i < workers && o == #[trigger] chunk_past(self.total(), c, i) by {
            let k = choose|k: u64| keys.contains(k) && f(k) == o;
            assert(self.pending().contains_key(k));
        }
        lemma_outstanding_parts(offsets, self.total(), workers, c);
    }

    /// Takes a downloaded part and returns the data of every part that is now next in order,
    /// to be written out in that order, with the error of a merge that failed.
    pub fn accept(&mut self, part: DownloadedPart) -> (res: (Vec<Vec<u8>>, Option<
        SequentialTreeHashError,
    >))
        requires
            old(self).wf(),
            part.wf(),
            part.spec_offset() + part.spec_data().len() <= usize::MAX,
        ensures
            final(self).wf(),
            ({
                let r = assemble(
                    old(self).pending().insert(part.spec_offset(), part),
                    old(self).total(),
                    old(self).leaves(),
                    Seq::empty(),
                );
                &&& final(self).pending() == r.0
                &&& final(self).total() == r.1
                &&& final(self).leaves() == r.2
                &&& res.0@.map_values(|v: Vec<u8>| v@) == r.3
                &&& res.1 == r.4
            }),
            final(self).total() >= old(self).total(),
    {
        proof {
            lemma_assemble_grows(
                old(self).pending().insert(part.spec_offset(), part),
                old(self).total(),
                old(self).leaves(),
                Seq::empty(),
            );
        }
        let mut out: Vec<Vec<u8>> = Vec::new();
        let mut err: Option<SequentialTreeHashError> = None;
        let ghost gpart = part;
        self.chunk_map.insert(part.offset, part);
        let ghost target = assemble(
            old(self).pending().insert(gpart.spec_offset(), gpart),
            old(self).total(),
            old(self).leaves(),
            Seq::empty(),
        );
        proof {
            assert(out@.map_values(|v: Vec<u8>| v@) =~= Seq::<Seq<u8>>::empty());
        }
        loop
            invariant_except_break
                self.wf(),
                err is None,
                assemble(
                    self.pending(),
                    self.total(),
                    self.leaves(),
                    out@.map_values(|v: Vec<u8>| v@),
                ) == target,
            ensures
                self.wf(),
                target == (
                    self.pending(),
                    self.total(),
                    self.leaves(),
                    out@.map_values(|v: Vec<u8>| v@),
                    err,
                ),
            decreases self.chunk_map@.dom().len(),
        {
            let key = self.total_written;
            let ghost prev_map = self.chunk_map@;
            let ghost prev_leaves = self.tree_hasher@;
            let ghost prev_view = out@.map_values(|v: Vec<u8>| v@);
            proof {
                assert(forall|k2: u64| #[trigger]
                    prev_map.contains_key(k2) ==> prev_map[k2].wf() && k2
                        + prev_map[k2].spec_data().len() <= usize::MAX);
            }
            match self.chunk_map.remove(&key) {
                Some(p) => {
                    let ghost prev_out = out@;
                    let len = p.data.len() as u64;
                    proof {
                        p.tree_hash.lemma_view();
                        lemma_merge_segments_len(prev_leaves, p.tree_hash.segments());
                    }
                    let merged = p.tree_hash.merge_into(&mut self.tree_hasher);
                    self.total_written = key + len;
                    out.push(p.data);
                    proof {
                        assert(out@.map_values(|v: Vec<u8>| v@) =~= prev_out.map_values(
                            |v: Vec<u8>| v@,
                        ).push(p.spec_data()));
                        assert(self.tree_hasher@.len() <= self.total_written);
                        assert forall|k2: u64| #[trigger]
                            self.chunk_map@.contains_key(k2) implies self.chunk_map@[k2].wf() && k2
                                + self.chunk_map@[k2].spec_data().len() <= usize::MAX by {
                            assert(self.chunk_map@ == prev_map.remove(key));
                            assert(prev_map.contains_key(k2));
                        }
                        assert(prev_map.contains_key(key));
                        assert(prev_map[key] == p);
                    }
                    match merged {
                        Ok(()) => {},
                        Err(e) => {
                            err = Some(e);
                            break ;
                        },
                    }
                },
                None => {
                    break ;
                },
            }
        }
        (out, err)
    }

    /// Checks that exactly `total_size` bytes were written and that their tree hash is
    /// `expected`.
    pub fn finish(self, total_size: u64, expected: [u8; 32]) -> (res: Result<(), OutputError>)
        requires
            self.wf(),
        ensures
            self.total() != total_size ==> res == Err::<(), OutputError>(
                OutputError::Incomplete { expected: total_size, written: self.total() as u64 },
            ),
            self.total() == total_size && self.leaves().len() == 0 ==> res == Err::<
                (),
                OutputError,
            >(OutputError::Tree(SequentialTreeHashError::EmptyTree)),
            self.total() == total_size && self.leaves().len() > 0 ==> (res is Ok <==> tree_hash(
                self.leaves(),
            ) == expected@),
            self.total() == total_size && self.leaves().len() > 0 && res is Err ==> res == Err::<
                (),
                OutputError,
            >(OutputError::HashMismatch),
    {
        if self.total_written != total_size {
            return Err(
                OutputError::Incomplete { expected: total_size, written: self.total_written },
            );
        }
        let final_tree_hash = match self.tree_hasher.finalize() {
            Ok(h) => h,
            Err(e) => {
                return Err(OutputError::Tree(e));
            },
        };
        if !hash_eq(&final_tree_hash, &expected) {
            return Err(OutputError::HashMismatch);
        }
        Ok(())
    }
}

/// Whether two hashes are equal.
pub fn hash_eq(a: &[u8; 32], b: &[u8; 32]) -> (res: bool)
    ensures
        res == (a@ == b@),
{
    let mut i: usize = 0;
    while i < 32
        invariant
            0 <= i <= 32,
            forall|j: int| 0 <= j < i ==> a@[j] == b@[j],
        decreases 32 - i,
    {
        if a[i] != b[i] {
            return false;
        }
        i = i + 1;
    }
    proof {
        assert(a@ =~= b@);
    }
    true
}

} // verus!
