use std::collections::HashMap;
use vstd::prelude::*;
use vstd::std_specs::iter::IteratorSpec;

pub mod aligned;
pub mod reserved;
pub mod sequential;

pub use aligned::AlignedTreeHash;
pub use reserved::ReservedTreeHash;
pub use sequential::{SequentialTreeHash, SequentialTreeHashError};

use crate::util::digest::tree_hash;

verus! {

broadcast use vstd::std_specs::hash::group_hash_axioms;

/// Size of the parts that a Glacier tree hash is computed over: 1 MiB.
pub const AWS_TREE_HASH_PART_SIZE: u64 = 1048576;

/// A hashed byte range `[start, stop)` of an upload.
#[derive(Debug)]
pub struct HashLeaf {
    pub start: u64,
    pub stop: u64,
    pub hash: [u8; 32],
}

#[derive(Debug, PartialEq, Eq, Structural)]
pub enum TreeHashError {
    InvalidRange { start: u64, stop: u64 },
    LeafOverlap { start: u64, stop: u64 },
    LeafTooBig,
    UnalignedLeafStart(u64),
    MultipleShortLeaves,
    DataGap { start: u64, stop: u64 },
    EmptyTree,
}

/// Where the `j`-th leaf must start for the leaves to be contiguous: 0 for the first,
/// then where the previous one stopped.
pub open spec fn leaf_cursor(m: Map<u64, HashLeaf>, j: nat) -> u64
    decreases j,
{
    if j == 0 {
        0
    } else {
        m[leaf_cursor(m, (j - 1) as nat)].stop
    }
}

/// The number of leaves, starting from offset 0, that follow each other without a gap
/// (looking at no more than `n`); `j` is where the count starts.
pub open spec fn chain_len(m: Map<u64, HashLeaf>, j: nat, n: nat) -> nat
    decreases n - j,
{
    if j >= n || !m.contains_key(leaf_cursor(m, j)) {
        j
    } else {
        chain_len(m, j + 1, n)
    }
}

/// Hashes of the first `n` contiguous leaves, in order.
pub open spec fn chain_hashes(m: Map<u64, HashLeaf>, n: nat) -> Seq<Seq<u8>> {
    Seq::new(n, |j: int| m[leaf_cursor(m, j as nat)].hash@)
}

/// The smallest key of `keys` that is at least `x`.
pub open spec fn min_key_from(keys: Set<u64>, x: u64) -> u64 {
    choose|k: u64|
        keys.contains(k) && k >= x && forall|j: u64| keys.contains(j) && j >= x ==> k <= j
}

/// Every leaf is keyed by its start, starts on a part boundary and covers between one byte
/// and one part.
pub open spec fn aligned_leaves(m: Map<u64, HashLeaf>, part_size: u64) -> bool {
    forall|k: u64|
        #![trigger m.contains_key(k)]
        m.contains_key(k) ==> {
            &&& part_size > 0
            &&& m[k].start == k
            &&& k < m[k].stop
            &&& m[k].stop - k <= part_size
            &&& k % part_size == 0
        }
}

proof fn lemma_aligned_eq(x: int, c: int, p: int)
    requires
        p > 0,
        x >= 0,
        c >= 0,
        x % p == 0,
        c % p == 0,
        c <= x < c + p,
    ensures
        x == c,
{
    vstd::arithmetic::div_mod::lemma_fundamental_div_mod(x, p);
    vstd::arithmetic::div_mod::lemma_fundamental_div_mod(c, p);
    let qx = x / p;
    let qc = c / p;
    assert(qx == qc) by (nonlinear_arith)
        requires
            x == p * qx,
            c == p * qc,
            p > 0,
            c <= x < c + p,
    ;
}

/// Along a gap-free run of leaves, each cursor is a key and the next cursor lies at most one
/// part further on; every key below the end of the run is one of the run's cursors.
proof fn lemma_keys_below_cursor(m: Map<u64, HashLeaf>, p: u64, k: nat, x: u64)
    requires
        aligned_leaves(m, p),
        forall|j: nat| j < k ==> #[trigger] m.contains_key(leaf_cursor(m, j)),
        m.contains_key(x),
        x < leaf_cursor(m, k),
    ensures
        exists|j: nat| j < k && leaf_cursor(m, j) == x,
    decreases k,
{
    if k == 0 {
        assert(leaf_cursor(m, 0) == 0);
    } else {
        let c = leaf_cursor(m, (k - 1) as nat);
        assert(m.contains_key(c));
        if x < c {
            lemma_keys_below_cursor(m, p, (k - 1) as nat, x);
            let j = choose|j: nat| j < k - 1 && leaf_cursor(m, j) == x;
            assert(j < k && leaf_cursor(m, j) == x);
        } else {
            assert(leaf_cursor(m, k) == m[c].stop);
            lemma_aligned_eq(x as int, c as int, p as int);
            assert(leaf_cursor(m, (k - 1) as nat) == x);
        }
    }
}

/// When a gap-free run of `k` leaves ends before all `n` leaves are used up, some leaf starts
/// at or after the end of the run.
proof fn lemma_gap_successor(m: Map<u64, HashLeaf>, p: u64, k: nat)
    requires
        aligned_leaves(m, p),
        m.dom().finite(),
        k < m.dom().len(),
        forall|j: nat| j < k ==> #[trigger] m.contains_key(leaf_cursor(m, j)),
    ensures
        exists|key: u64| m.contains_key(key) && key >= leaf_cursor(m, k),
{
    let run = Seq::new(k, |j: int| leaf_cursor(m, j as nat));
    if forall|key: u64| m.contains_key(key) ==> key < leaf_cursor(m, k) {
        assert forall|key: u64| m.dom().contains(key) implies run.to_set().contains(key) by {
            lemma_keys_below_cursor(m, p, k, key);
            let j = choose|j: nat| j < k && leaf_cursor(m, j) == key;
            assert(run[j as int] == key);
        }
        run.lemma_cardinality_of_set();
        vstd::set_lib::lemma_len_subset(m.dom(), run.to_set());
    }
}

/// Smallest key of `map` that is at least `x`.
fn min_key_at_least(map: &HashMap<u64, HashLeaf>, x: u64) -> (res: u64)
    requires
        exists|k: u64| map@.contains_key(k) && k >= x,
    ensures
        res == min_key_from(map@.dom(), x),
        map@.contains_key(res),
        res >= x,
{
    let mut best: Option<u64> = None;
    let ghost all = vstd::std_specs::hash::spec_keys_iter(map).remaining();
    let ghost keys = all.unref();
    for key in it: map.keys()
        invariant
            it.seq() == all,
            keys == all.unref(),
            keys.to_set() == map@.dom(),
            best matches Some(b) ==> map@.contains_key(b) && b >= x,
            best matches Some(b) ==> forall|j: int|
                0 <= j < it.index() && keys[j] >= x ==> b <= #[trigger] keys[j],
            best is None ==> forall|j: int| 0 <= j < it.index() ==> #[trigger] keys[j] < x,
    {
        if *key >= x {
            match best {
                None => {
                    best = Some(*key);
                },
                Some(b) => {
                    if *key < b {
                        best = Some(*key);
                    }
                },
            }
        }
        proof {
            assert(keys[it.index()] == *key);
            assert(keys.contains(*key));
        }
    }
    proof {
        let w = choose|k: u64| map@.contains_key(k) && k >= x;
        assert(keys.to_set().contains(w));
        let i = choose|i: int| 0 <= i < keys.len() && keys[i] == w;
        assert(keys[i] == w);
    }
    match best {
        Some(b) => {
            proof {
                assert forall|j: u64| map@.dom().contains(j) && j >= x implies b <= j by {
                    assert(keys.to_set().contains(j));
                    let i = choose|i: int| 0 <= i < keys.len() && keys[i] == j;
                    assert(keys[i] == j);
                }
                let c = min_key_from(map@.dom(), x);
                assert(map@.dom().contains(c) && c >= x && forall|j: u64|
                    map@.dom().contains(j) && j >= x ==> c <= j);
            }
            b
        },
        None => {
            proof {
                assert(false);
            }
            x
        },
    }
}

/// Why a leaf `[start, stop)` cannot be added, if it cannot.
pub open spec fn insert_error(
    leaves: Map<u64, HashLeaf>,
    part_size: u64,
    have_end_leaf: bool,
    start: u64,
    stop: u64,
) -> Option<TreeHashError> {
    if start >= stop {
        Some(TreeHashError::InvalidRange { start, stop })
    } else if leaves.contains_key(start) {
        Some(TreeHashError::LeafOverlap { start, stop })
    } else if start % part_size != 0 {
        Some(TreeHashError::UnalignedLeafStart(start))
    } else if stop - start > part_size {
        Some(TreeHashError::LeafTooBig)
    } else if stop - start < part_size && have_end_leaf {
        Some(TreeHashError::MultipleShortLeaves)
    } else {
        None
    }
}

/// A tree hash whose leaves (byte ranges of at most one part each) may arrive in any order.
pub struct TreeHash {
    have_end_leaf: bool,
    part_size: u64,
    map_by_start: HashMap<u64, HashLeaf>,
}

impl TreeHash {
    /// Leaves received so far, by start offset.
    pub closed spec fn leaves(&self) -> Map<u64, HashLeaf> {
        self.map_by_start@
    }

    pub closed spec fn part_size(&self) -> u64 {
        self.part_size
    }

    /// Whether a leaf shorter than a part (the final leaf) has been received.
    pub closed spec fn have_end_leaf(&self) -> bool {
        self.have_end_leaf
    }

    pub open spec fn is_short(&self, k: u64) -> bool {
        self.leaves()[k].stop - self.leaves()[k].start < self.part_size()
    }

    /// Every leaf is keyed by its start, starts on a part boundary, and covers between one
    /// byte and one part; at most one leaf is short, and `have_end_leaf` records whether
    /// there is one.
    pub open spec fn wf(&self) -> bool {
        &&& aligned_leaves(self.leaves(), self.part_size())
        &&& forall|k1: u64, k2: u64|
            #![trigger self.leaves().contains_key(k1), self.leaves().contains_key(k2)]
            self.leaves().contains_key(k1) && self.leaves().contains_key(k2) && self.is_short(k1)
                && self.is_short(k2) ==> k1 == k2
        &&& self.have_end_leaf() <==> exists|k: u64|
            #![trigger self.leaves().contains_key(k)]
            self.leaves().contains_key(k) && self.is_short(k)
    }

    pub fn new(part_size: u64) -> (res: Self)
        ensures
            res.wf(),
            res.part_size() == part_size,
            res.leaves() == Map::<u64, HashLeaf>::empty(),
            !res.have_end_leaf(),
    {
        TreeHash { have_end_leaf: false, part_size, map_by_start: HashMap::new() }
    }

    /// Adds the hash of the bytes `[start, stop)`.  Fails, changing nothing, when the range
    /// is empty, already present, not on a part boundary, longer than a part, or a second
    /// short (final) range.
    pub fn try_insert(&mut self, start: u64, stop: u64, hash: [u8; 32]) -> (res: Result<
        (),
        TreeHashError,
    >)
        requires
            old(self).wf(),
            start >= stop || old(self).leaves().contains_key(start) || old(self).part_size()
                > 0,
        ensures
            final(self).wf(),
            final(self).part_size() == old(self).part_size(),
            res is Err ==> *final(self) == *old(self),
            (match insert_error(
                old(self).leaves(),
                old(self).part_size(),
                old(self).have_end_leaf(),
                start,
                stop,
            ) {
                Some(e) => {
                    &&& res == Err::<(), TreeHashError>(e)
                    &&& final(self).leaves() == old(self).leaves()
                    &&& final(self).have_end_leaf() == old(self).have_end_leaf()
                },
                None => {
                    &&& res is Ok
                    &&& final(self).leaves() == old(self).leaves().insert(
                        start,
                        (HashLeaf { start, stop, hash }),
                    )
                    &&& final(self).have_end_leaf() == (old(self).have_end_leaf() || stop - start
                        < old(self).part_size())
                },
            }),
    {
        if start >= stop {
            return Err(TreeHashError::InvalidRange { start, stop });
        }
        if self.map_by_start.contains_key(&start) {
            return Err(TreeHashError::LeafOverlap { start, stop });
        }
        if start % self.part_size != 0 {
            return Err(TreeHashError::UnalignedLeafStart(start));
        }
        let size = stop - start;
        if size > self.part_size {
            return Err(TreeHashError::LeafTooBig);
        }
        let ghost old_have = self.have_end_leaf;
        if size < self.part_size {
            if self.have_end_leaf {
                return Err(TreeHashError::MultipleShortLeaves);
            }
            self.have_end_leaf = true;
        }
        let leaf = HashLeaf { start, stop, hash };
        self.map_by_start.insert(start, leaf);
        proof {
            let m = self.leaves();
            assert forall|k: u64| #[trigger] m.contains_key(k) implies {
                &&& self.part_size() > 0
                &&& m[k].start == k
                &&& k < m[k].stop
                &&& m[k].stop - k <= self.part_size()
                &&& k % self.part_size() == 0
            } by {
                if k != start {
                    assert(old(self).leaves().contains_key(k));
                }
            }
            assert forall|k1: u64, k2: u64|
                #![trigger m.contains_key(k1), m.contains_key(k2)]
                m.contains_key(k1) && m.contains_key(k2) && self.is_short(k1) && self.is_short(
                    k2,
                ) implies k1 == k2 by {
                if k1 != start {
                    assert(old(self).leaves().contains_key(k1));
                }
                if k2 != start {
                    assert(old(self).leaves().contains_key(k2));
                }
                if k1 != k2 {
                    if k1 == start {
                        assert(old(self).is_short(k2));
                    } else if k2 == start {
                        assert(old(self).is_short(k1));
                    } else {
                        assert(old(self).is_short(k1) && old(self).is_short(k2));
                    }
                }
            }
            if self.have_end_leaf {
                if size < self.part_size {
                    assert(m.contains_key(start) && self.is_short(start));
                } else {
                    let k = choose|k: u64| old(self).leaves().contains_key(k) && old(self).is_short(k);
                    assert(m.contains_key(k) && self.is_short(k));
                }
            } else {
                assert forall|k: u64| #[trigger] m.contains_key(k) implies !self.is_short(k) by {
                    if k != start {
                        assert(old(self).leaves().contains_key(k));
                    }
                }
            }
        }
        Ok(())
    }

    /// Computes the tree hash of all leaves.  The leaves must cover the bytes from offset 0
    /// without gaps: otherwise the first gap is reported, from where the covered bytes end to
    /// the start of the next leaf.
    pub fn compute_hash(self) -> (res: Result<[u8; 32], TreeHashError>)
        requires
            self.wf(),
        ensures
            ({
                let m = self.leaves();
                let n = m.dom().len();
                let k = chain_len(m, 0, n);
                &&& n == 0 ==> res == Err::<[u8; 32], TreeHashError>(TreeHashError::EmptyTree)
                &&& n > 0 && k == n ==> (res matches Ok(h) && h@ == tree_hash(
                    chain_hashes(m, n),
                ))
                &&& n > 0 && k < n ==> res == Err::<[u8; 32], TreeHashError>(
                    TreeHashError::DataGap {
                        start: leaf_cursor(m, k),
                        stop: min_key_from(m.dom(), leaf_cursor(m, k)),
                    },
                )
            }),
    {
        let ghost m = self.leaves();
        if self.map_by_start.is_empty() {
            return Err(TreeHashError::EmptyTree);
        }
        let n = self.map_by_start.len();
        let mut tree = SequentialTreeHash::new();
        let mut last_stop: u64 = 0;
        let mut i: usize = 0;
        proof {
            assert(tree@ =~= chain_hashes(m, 0));
        }
        while i < n
            invariant
                self.wf(),
                m == self.leaves(),
                n == m.dom().len(),
                0 <= i <= n,
                last_stop == leaf_cursor(m, i as nat),
                forall|j: nat| j < i ==> #[trigger] m.contains_key(leaf_cursor(m, j)),
                chain_len(m, 0, n as nat) == chain_len(m, i as nat, n as nat),
                tree.wf(),
                tree@ == chain_hashes(m, i as nat),
            decreases n - i,
        {
            match self.map_by_start.get(&last_stop) {
                Some(leaf) => {
                    tree.insert(leaf.hash);
                    last_stop = leaf.stop;
                    proof {
                        assert(m.contains_key(leaf_cursor(m, i as nat)));
                        assert(leaf_cursor(m, (i + 1) as nat) == leaf.stop);
                        assert(tree@ =~= chain_hashes(m, (i + 1) as nat));
                        assert forall|j: nat| j < i + 1 implies #[trigger] m.contains_key(
                            leaf_cursor(m, j),
                        ) by {
                            if j == i as nat {
                            } else {
                                assert(j < i);
                            }
                        }
                    }
                    i = i + 1;
                },
                None => {
                    proof {
                        lemma_gap_successor(m, self.part_size, i as nat);
                    }
                    let next = min_key_at_least(&self.map_by_start, last_stop);
                    return Err(TreeHashError::DataGap { start: last_stop, stop: next });
                },
            }
        }
        match tree.finalize() {
            Ok(h) => Ok(h),
            Err(e) => {
                proof {
                    assert(false);
                }
                Err(TreeHashError::EmptyTree)
            },
        }
    }
}

/// When the leaves are the parts `0..n` of an upload (part `i` starts at `i * part_size`,
/// and every part but the last is a whole part), they chain without a gap, so the tree hash is
/// computed over the parts' hashes in offset order.
pub proof fn lemma_consecutive_parts_chain(m: Map<u64, HashLeaf>, part_size: u64, n: nat)
    requires
        n > 0,
        forall|i: nat| i < n ==> #[trigger] m.contains_key((i * part_size) as u64),
        forall|i: nat|
            i + 1 < n ==> #[trigger] m[(i * part_size) as u64].stop == ((i + 1) * part_size) as u64,
    ensures
        chain_len(m, 0, n) == n,
        chain_hashes(m, n) == Seq::new(n, |i: int| m[(i * part_size) as u64].hash@),
{
    assert forall|j: nat| j < n implies #[trigger] leaf_cursor(m, j) == (j * part_size) as u64 by {
        lemma_cursor_at_part(m, part_size, n, j);
    }
    lemma_chain_len_full(m, 0, n);
    assert(chain_hashes(m, n) =~= Seq::new(n, |i: int| m[(i * part_size) as u64].hash@));
}

proof fn lemma_cursor_at_part(m: Map<u64, HashLeaf>, part_size: u64, n: nat, j: nat)
    requires
        j < n,
        forall|i: nat|
            i + 1 < n ==> #[trigger] m[(i * part_size) as u64].stop == ((i + 1) * part_size) as u64,
    ensures
        leaf_cursor(m, j) == (j * part_size) as u64,
    decreases j,
{
    if j > 0 {
        let jm: nat = (j - 1) as nat;
        lemma_cursor_at_part(m, part_size, n, jm);
        assert(jm + 1 < n);
        assert(m[(jm * part_size) as u64].stop == ((jm + 1) * part_size) as u64);
        assert(jm + 1 == j);
        assert((jm + 1) * part_size == j * part_size);
        assert(leaf_cursor(m, j) == m[leaf_cursor(m, jm)].stop);
    } else {
        assert(j * part_size == 0) by (nonlinear_arith)
            requires
                j == 0,
        ;
    }
}

proof fn lemma_chain_len_full(m: Map<u64, HashLeaf>, j: nat, n: nat)
    requires
        j <= n,
        forall|i: nat| j <= i < n ==> #[trigger] m.contains_key(leaf_cursor(m, i)),
    ensures
        chain_len(m, j, n) == n,
    decreases n - j,
{
    if j < n {
        lemma_chain_len_full(m, j + 1, n);
    }
}


/// The leaves of a tree hash after `leaves` were inserted successfully, in order, starting
/// empty: each is kept under its start.
pub open spec fn inserted(leaves: Seq<HashLeaf>) -> Map<u64, HashLeaf>
    decreases leaves.len(),
{
    if leaves.len() == 0 {
        Map::empty()
    } else {
        inserted(leaves.drop_last()).insert(leaves.last().start, leaves.last())
    }
}

/// No two of the leaves start at the same offset.
pub open spec fn distinct_starts(leaves: Seq<HashLeaf>) -> bool {
    forall|i: int, j: int|
        0 <= i < j < leaves.len() ==> #[trigger] leaves[i].start != #[trigger] leaves[j].start
}

proof fn lemma_inserted(leaves: Seq<HashLeaf>)
    requires
        distinct_starts(leaves),
    ensures
        forall|k: u64|
            #[trigger] inserted(leaves).contains_key(k) <==> exists|i: int|
                0 <= i < leaves.len() && leaves[i].start == k,
        forall|i: int| 0 <= i < leaves.len() ==> inserted(leaves)[#[trigger] leaves[i].start] == leaves[i],
    decreases leaves.len(),
{
    if leaves.len() > 0 {
        let front = leaves.drop_last();
        assert forall|i: int, j: int| 0 <= i < j < front.len() implies #[trigger] front[i].start
            != #[trigger] front[j].start by {
            assert(leaves[i].start != leaves[j].start);
        }
        lemma_inserted(front);
        let n = leaves.len() - 1;
        assert forall|k: u64| #[trigger] inserted(leaves).contains_key(k) <==> exists|i: int|
            0 <= i < leaves.len() && leaves[i].start == k by {
            if inserted(leaves).contains_key(k) && k != leaves[n].start {
                assert(inserted(front).contains_key(k));
                let i = choose|i: int| 0 <= i < front.len() && front[i].start == k;
                assert(leaves[i].start == k);
            }
            if exists|i: int| 0 <= i < leaves.len() && leaves[i].start == k {
                let i = choose|i: int| 0 <= i < leaves.len() && leaves[i].start == k;
                if i < n {
                    assert(front[i].start == k);
                }
            }
        }
        assert forall|i: int| 0 <= i < leaves.len() implies inserted(leaves)[#[trigger] leaves[i].start]
            == leaves[i] by {
            if i < n {
                assert(leaves[i].start != leaves[n].start);
                assert(front[i] == leaves[i]);
            }
        }
    }
}

/// Order independence: inserting the same leaves (no two with the same start) in any order
/// leaves the tree hash with the same leaves, so `compute_hash`, which depends on the leaves
/// alone, gives the same result.
pub proof fn lemma_insert_order(a: Seq<HashLeaf>, b: Seq<HashLeaf>)
    requires
        distinct_starts(a),
        distinct_starts(b),
        a.to_set() == b.to_set(),
    ensures
        inserted(a) == inserted(b),
{
    lemma_inserted(a);
    lemma_inserted(b);
    let ma = inserted(a);
    let mb = inserted(b);
    assert forall|k: u64| ma.contains_key(k) <==> mb.contains_key(k) by {
        if ma.contains_key(k) {
            let i = choose|i: int| 0 <= i < a.len() && a[i].start == k;
            assert(a.to_set().contains(a[i]));
            assert(b.to_set().contains(a[i]));
            let j = choose|j: int| 0 <= j < b.len() && b[j] == a[i];
            assert(b[j].start == k);
        }
        if mb.contains_key(k) {
            let j = choose|j: int| 0 <= j < b.len() && b[j].start == k;
            assert(b.to_set().contains(b[j]));
            assert(a.to_set().contains(b[j]));
            let i = choose|i: int| 0 <= i < a.len() && a[i] == b[j];
            assert(a[i].start == k);
        }
    }
    assert forall|k: u64| ma.contains_key(k) implies ma[k] == mb[k] by {
        let i = choose|i: int| 0 <= i < a.len() && a[i].start == k;
        assert(a.to_set().contains(a[i]));
        assert(b.to_set().contains(a[i]));
        let j = choose|j: int| 0 <= j < b.len() && b[j] == a[i];
        assert(ma[a[i].start] == a[i]);
        assert(mb[b[j].start] == b[j]);
    }
    assert(ma =~= mb);
}

} // verus!
