use sha2::{Digest, Sha256};
use vstd::prelude::*;

use crate::util::bits::{
    lemma_log2_bounds, lemma_log2_unique, lemma_pow2_add, lemma_pow2_pos, log2, pow2,
};

verus! {

/// The SHA-256 digest of `data`, as computed by the `sha2` crate.
pub uninterp spec fn sha256(data: Seq<u8>) -> Seq<u8>;

/// Calls `sha2::Sha256::digest` on `data`.
///
/// The contract claims only that the 32 returned bytes are the SHA-256 digest of `data`
/// (named `sha256`); nothing about the digest itself is proved here.
#[verifier::external_body]
pub(crate) fn sha256_digest(data: &[u8]) -> (res: [u8; 32])
    ensures
        res@ == sha256(data@),
{
    Sha256::digest(data).into()
}

/// SHA-256 hash of one chunk of data (a tree hash leaf).
pub fn chunk_hash(data: &[u8]) -> (res: [u8; 32])
    ensures
        res@ == sha256(data@),
{
    sha256_digest(data)
}

/// Hash of an inner tree node: SHA-256 of the left child's hash followed by the right child's.
pub open spec fn hash_pair(left: Seq<u8>, right: Seq<u8>) -> Seq<u8> {
    sha256(left + right)
}

/// Number of leaves that go to the left subtree of a tree over `n >= 2` leaves:
/// the largest power of two strictly below `n`.
pub open spec fn left_size(n: nat) -> nat {
    pow2(log2((n - 1) as nat))
}

pub proof fn lemma_left_size(n: nat)
    requires
        n >= 2,
    ensures
        1 <= left_size(n) < n,
        n <= 2 * left_size(n),
{
    lemma_log2_bounds((n - 1) as nat);
    lemma_pow2_pos(log2((n - 1) as nat));
}

/// The SHA-256 tree hash of a sequence of leaf hashes (one leaf per 1 MiB part): a single
/// leaf is its own hash; otherwise the leaves are split at the largest power of two below
/// their number, and the two subtree hashes are hashed together.
pub open spec fn tree_hash(leaves: Seq<Seq<u8>>) -> Seq<u8>
    decreases leaves.len(),
{
    if leaves.len() == 0 {
        Seq::empty()
    } else if leaves.len() == 1 {
        leaves[0]
    } else {
        let k = left_size(leaves.len());
        proof {
            lemma_left_size(leaves.len());
        }
        hash_pair(tree_hash(leaves.take(k as int)), tree_hash(leaves.skip(k as int)))
    }
}

/// Computes the hash of an inner node from the hashes of its two children.
pub fn combine_hashes(left: &[u8; 32], right: &[u8; 32]) -> (res: [u8; 32])
    ensures
        res@ == hash_pair(left@, right@),
{
    let mut buf: Vec<u8> = Vec::with_capacity(64);
    let mut i: usize = 0;
    while i < 32
        invariant
            0 <= i <= 32,
            buf@ == left@.take(i as int),
        decreases 32 - i,
    {
        buf.push(left[i]);
        i = i + 1;
    }
    assert(left@.take(32) == left@);
    let mut j: usize = 0;
    while j < 32
        invariant
            0 <= j <= 32,
            buf@ == left@ + right@.take(j as int),
        decreases 32 - j,
    {
        buf.push(right[j]);
        j = j + 1;
    }
    assert(right@.take(32) == right@);
    sha256_digest(buf.as_slice())
}


/// The leaves split into consecutive groups of `g` (the last may be shorter), each replaced by
/// the tree hash of its leaves.
pub open spec fn group_hashes(leaves: Seq<Seq<u8>>, g: nat) -> Seq<Seq<u8>>
    decreases leaves.len(),
{
    if leaves.len() == 0 || g == 0 {
        Seq::empty()
    } else if leaves.len() <= g {
        seq![tree_hash(leaves)]
    } else {
        seq![tree_hash(leaves.take(g as int))] + group_hashes(leaves.skip(g as int), g)
    }
}

proof fn lemma_group_count(leaves: Seq<Seq<u8>>, g: nat)
    requires
        g > 0,
        leaves.len() > 0,
    ensures
        group_hashes(leaves, g).len() >= 1,
        g * (group_hashes(leaves, g).len() - 1) < leaves.len() <= g * group_hashes(
            leaves,
            g,
        ).len(),
    decreases leaves.len(),
{
    let n = leaves.len();
    if n > g {
        let rest = leaves.skip(g as int);
        lemma_group_count(rest, g);
        let m1 = group_hashes(rest, g).len();
        assert(group_hashes(leaves, g).len() == m1 + 1);
        assert(g * (m1 - 1) < n - g <= g * m1);
        assert(g * m1 < n <= g * (m1 + 1)) by (nonlinear_arith)
            requires
                g * (m1 - 1) < n - g <= g * m1,
                m1 >= 1,
        ;
    } else {
        assert(group_hashes(leaves, g).len() == 1);
        assert(g * 0 == 0 && g * 1 == g) by (nonlinear_arith);
    }
}

proof fn lemma_groups_split(leaves: Seq<Seq<u8>>, g: nat, j: nat)
    requires
        g > 0,
        j * g < leaves.len(),
    ensures
        group_hashes(leaves, g).take(j as int) == group_hashes(leaves.take((j * g) as int), g),
        group_hashes(leaves, g).skip(j as int) == group_hashes(leaves.skip((j * g) as int), g),
    decreases j,
{
    let gs = group_hashes(leaves, g);
    if j == 0 {
        assert(j * g == 0) by (nonlinear_arith)
            requires
                j == 0,
        ;
        assert(leaves.take(0) =~= Seq::<Seq<u8>>::empty());
        assert(gs.take(0) =~= Seq::<Seq<u8>>::empty());
        assert(leaves.skip(0) =~= leaves);
        assert(gs.skip(0) =~= gs);
    } else {
        let j1 = (j - 1) as nat;
        assert(j1 * g + g == j * g) by (nonlinear_arith)
            requires
                j == j1 + 1,
        ;
        assert(j * g >= g) by (nonlinear_arith)
            requires
                j >= 1,
        ;
        let rest = leaves.skip(g as int);
        let first = tree_hash(leaves.take(g as int));
        assert(gs == seq![first] + group_hashes(rest, g));
        lemma_groups_split(rest, g, j1);
        let gr = group_hashes(rest, g);
        lemma_group_count(leaves, g);
        assert(j < gs.len()) by (nonlinear_arith)
            requires
                j * g < leaves.len(),
                leaves.len() <= g * gs.len(),
                g > 0,
        ;
        assert(gs.take(j as int) =~= seq![first] + gr.take(j1 as int));
        assert(gs.skip(j as int) =~= gr.skip(j1 as int));
        assert(rest.skip((j1 * g) as int) =~= leaves.skip((j * g) as int));
        let front = leaves.take((j * g) as int);
        if j == 1 {
            assert(front.len() == g);
            assert(front =~= leaves.take(g as int));
            assert(rest.take(0) =~= Seq::<Seq<u8>>::empty());
            assert(j1 * g == 0);
            assert(group_hashes(front, g) == seq![tree_hash(front)]);
            assert(gs.take(j as int) =~= seq![first]);
        } else {
            assert(front.len() > g) by (nonlinear_arith)
                requires
                    front.len() == j * g,
                    j >= 2,
                    g > 0,
            ;
            assert(front.take(g as int) =~= leaves.take(g as int));
            assert(front.skip(g as int) =~= rest.take((j1 * g) as int));
            assert(group_hashes(front, g) == seq![tree_hash(front.take(g as int))] + group_hashes(
                front.skip(g as int),
                g,
            ));
            assert(group_hashes(front, g) == seq![first] + gr.take(j1 as int));
        }
        assert(gs.take(j as int) == group_hashes(front, g));
        assert(gs.skip(j as int) == group_hashes(leaves.skip((j * g) as int), g));
    }
}

/// The tree hash composes over parts of `2^k` leaves: hashing the tree hash of each part
/// (the last part may hold fewer leaves) as the leaves of a tree gives the tree hash of all
/// the leaves.
pub proof fn lemma_tree_hash_of_groups(leaves: Seq<Seq<u8>>, k: nat)
    requires
        leaves.len() > 0,
    ensures
        tree_hash(group_hashes(leaves, pow2(k))) == tree_hash(leaves),
    decreases leaves.len(),
{
    let g = pow2(k);
    let n = leaves.len();
    lemma_pow2_pos(k);
    lemma_group_count(leaves, g);
    let gs = group_hashes(leaves, g);
    let m = gs.len();
    if n <= g {
        assert(gs == seq![tree_hash(leaves)]);
    } else {
        assert(m >= 2) by (nonlinear_arith)
            requires
                n > g,
                n <= g * m,
                m >= 1,
        ;
        let a = log2((m - 1) as nat);
        lemma_log2_bounds((m - 1) as nat);
        let h = pow2(a);
        assert(left_size(m) == h);
        lemma_pow2_add(k, a);
        lemma_pow2_add(k, a + 1);
        assert(pow2(a + 1) == 2 * h);
        let split = g * h;
        assert(split <= n - 1) by (nonlinear_arith)
            requires
                h <= m - 1,
                g * (m - 1) < n,
                g > 0,
                split == g * h,
        ;
        assert(n <= g * (2 * h)) by (nonlinear_arith)
            requires
                m - 1 < 2 * h,
                n <= g * m,
                g > 0,
        ;
        assert(pow2(k + a) == split);
        assert(pow2(k + a + 1) == g * (2 * h));
        lemma_log2_unique((n - 1) as nat, k + a);
        assert(left_size(n) == split);
        assert(h * g == split) by (nonlinear_arith)
            requires
                split == g * h,
        ;
        lemma_groups_split(leaves, g, h);
        let front = leaves.take(split as int);
        let back = leaves.skip(split as int);
        lemma_tree_hash_of_groups(front, k);
        lemma_tree_hash_of_groups(back, k);
        lemma_left_size(m);
        lemma_left_size(n);
    }
}

} // verus!
