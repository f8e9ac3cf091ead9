use vstd::prelude::*;

use crate::util::bits::{
    lemma_divides_iff_trailing_zeros, lemma_pow2_divides_mod, lemma_divides_lower_bound, lemma_divides_pow2,
    lemma_divides_small, lemma_divides_weaken, lemma_divides_zero, lemma_log2_bounds,
    lemma_log2_monotone, lemma_log2_unique, lemma_pow2_64, lemma_pow2_le, lemma_pow2_pos,
    lemma_remove_lowest_bit, lemma_trailing_zeros, lemma_trailing_zeros_add_pow2,
    lemma_trailing_zeros_le_log2, lemma_trailing_zeros_of_sum, lemma_trailing_zeros_unique, log2,
    pow2, pow2_divides, trailing_zeros,
};
use crate::util::digest::{combine_hashes, hash_pair, left_size, tree_hash};

verus! {

/// Errors of the sequential tree hash.
#[derive(Debug, PartialEq, Eq, Structural)]
pub enum SequentialTreeHashError {
    EmptyTree,
    DepthMismatch,
}

/// The hash of a complete subtree of `2^depth` leaves.
#[derive(Clone, Copy, Debug)]
pub struct HashNode {
    pub hash: [u8; 32],
    pub depth: usize,
}

pub open spec fn node_view(node: HashNode) -> (Seq<u8>, nat) {
    (node.hash@, node.depth as nat)
}

pub open spec fn nodes_view(nodes: Seq<HashNode>) -> Seq<(Seq<u8>, nat)> {
    nodes.map_values(|node: HashNode| node_view(node))
}

/// The stack of complete subtrees that a sequence of leaves decomposes into: one subtree per
/// set bit of the number of leaves, largest first.  The last (smallest) subtree covers the
/// final `2^tz(n)` leaves.
pub open spec fn stack_of(leaves: Seq<Seq<u8>>) -> Seq<(Seq<u8>, nat)>
    decreases leaves.len(),
{
    if leaves.len() == 0 {
        Seq::empty()
    } else {
        let n = leaves.len();
        let t = trailing_zeros(n);
        proof {
            lemma_remove_lowest_bit(n);
            lemma_pow2_pos(t);
        }
        let cut = n - pow2(t);
        stack_of(leaves.take(cut)).push((tree_hash(leaves.skip(cut)), t))
    }
}

/// Right fold of a stack of subtree hashes: how the stack is finished into one root hash.
pub open spec fn fold_stack(stack: Seq<(Seq<u8>, nat)>) -> Seq<u8>
    decreases stack.len(),
{
    if stack.len() == 0 {
        Seq::empty()
    } else if stack.len() == 1 {
        stack[0].0
    } else {
        hash_pair(stack[0].0, fold_stack(stack.skip(1)))
    }
}

/// The leaf count of a merged tree: zero, or at least one leaf of `other` may be appended
/// after `n` leaves only when `n` is a multiple of the size of `other`'s largest subtree.
pub open spec fn mergeable(n: nat, other: nat) -> bool {
    other == 0 || pow2_divides(n, log2(other))
}

/// Merging `m` leaves after `n` succeeds exactly when `n` or `m` is zero or `n` is a multiple
/// of `2^floor(log2(m))`, the size of the largest subtree of the tree being merged.
pub proof fn lemma_mergeable_mod(n: nat, m: nat)
    ensures
        mergeable(n, m) <==> (n == 0 || m == 0 || n % pow2(log2(m)) == 0),
{
    lemma_pow2_divides_mod(n, log2(m));
    lemma_pow2_pos(log2(m));
    lemma_divides_zero(log2(m));
}

/// The tree hash of `2^d` leaves is a single node.
pub proof fn lemma_stack_of_pow2(leaves: Seq<Seq<u8>>, d: nat)
    requires
        leaves.len() == pow2(d),
    ensures
        stack_of(leaves) == seq![(tree_hash(leaves), d)],
{
    lemma_pow2_pos(d);
    lemma_divides_pow2(d, d);
    if pow2_divides(pow2(d), d + 1) {
        lemma_divides_lower_bound(pow2(d), d + 1);
        lemma_pow2_le(d + 1, d + 1);
        assert(pow2(d + 1) == 2 * pow2(d));
    }
    lemma_trailing_zeros_unique(pow2(d), d);
    assert(leaves.take(0) =~= Seq::<Seq<u8>>::empty());
    assert(leaves.skip(0) =~= leaves);
    assert(stack_of(leaves.take(0)) =~= Seq::<(Seq<u8>, nat)>::empty());
}

/// Every subtree of the stack covers at most all the leaves.
pub proof fn lemma_stack_depth_bound(leaves: Seq<Seq<u8>>)
    ensures
        forall|i: int|
            0 <= i < stack_of(leaves).len() ==> pow2(#[trigger] stack_of(leaves)[i].1)
                <= leaves.len(),
    decreases leaves.len(),
{
    if leaves.len() > 0 {
        let n = leaves.len();
        let t = trailing_zeros(n);
        lemma_remove_lowest_bit(n);
        lemma_pow2_pos(t);
        let cut = (n - pow2(t)) as int;
        lemma_stack_depth_bound(leaves.take(cut));
        let s = stack_of(leaves);
        let p = stack_of(leaves.take(cut));
        assert(s == p.push((tree_hash(leaves.skip(cut)), t)));
        assert forall|i: int| 0 <= i < s.len() implies pow2(#[trigger] s[i].1) <= leaves.len() by {
            if i < p.len() {
                assert(s[i] == p[i]);
            }
        }
    }
}

/// Decomposition: appending leaves `b` to leaves `a`, where the count of `a` is a multiple of
/// a power of two above every bit of `b`'s count, concatenates the stacks.
pub proof fn lemma_stack_concat(a: Seq<Seq<u8>>, b: Seq<Seq<u8>>)
    requires
        b.len() > 0,
        pow2_divides(a.len(), log2(b.len()) + 1),
    ensures
        stack_of(a + b) == stack_of(a) + stack_of(b),
    decreases b.len(),
{
    let n = a.len() + b.len();
    let tb = trailing_zeros(b.len());
    lemma_trailing_zeros_le_log2(b.len());
    lemma_trailing_zeros_of_sum(a.len(), b.len(), log2(b.len()) + 1);
    assert(trailing_zeros(n) == tb);
    lemma_remove_lowest_bit(b.len());
    lemma_pow2_pos(tb);
    let cut_b = (b.len() - pow2(tb)) as int;
    let cut = (n - pow2(tb)) as int;
    assert((a + b).take(cut) =~= a + b.take(cut_b));
    assert((a + b).skip(cut) =~= b.skip(cut_b));
    if cut_b == 0 {
        assert(a + b.take(cut_b) =~= a);
        assert(b.take(cut_b) =~= Seq::<Seq<u8>>::empty());
        assert(stack_of(b.take(cut_b)) =~= Seq::<(Seq<u8>, nat)>::empty());
    } else {
        let b2 = b.take(cut_b);
        lemma_log2_monotone(b2.len(), b.len());
        lemma_divides_weaken(a.len(), log2(b.len()) + 1, log2(b2.len()) + 1);
        lemma_stack_concat(a, b2);
    }
    assert(stack_of(a + b) =~= stack_of(a) + stack_of(b));
}

/// The first (largest) subtree of the stack covers the first `2^log2(n)` leaves.
pub proof fn lemma_stack_first(leaves: Seq<Seq<u8>>)
    requires
        leaves.len() > 0,
    ensures
        ({
            let p = pow2(log2(leaves.len())) as int;
            &&& 0 < p <= leaves.len()
            &&& stack_of(leaves) == seq![
                (tree_hash(leaves.take(p)), log2(leaves.len())),
            ] + stack_of(leaves.skip(p))
        }),
{
    let n = leaves.len();
    let d = log2(n);
    let p = pow2(d) as int;
    lemma_log2_bounds(n);
    lemma_pow2_pos(d);
    let a = leaves.take(p);
    let b = leaves.skip(p);
    lemma_stack_of_pow2(a, d);
    assert(leaves =~= a + b);
    if b.len() == 0 {
        assert(stack_of(b) =~= Seq::<(Seq<u8>, nat)>::empty());
        assert(a =~= leaves);
        assert(stack_of(leaves) =~= seq![(tree_hash(a), d)] + stack_of(b));
    } else {
        assert(pow2(d + 1) == 2 * pow2(d));
        lemma_log2_bounds(b.len());
        if log2(b.len()) >= d {
            lemma_pow2_le(d, log2(b.len()));
        }
        lemma_divides_pow2(d, log2(b.len()) + 1);
        lemma_stack_concat(a, b);
    }
}

/// Finishing the stack gives the tree hash of all the leaves.
pub proof fn lemma_fold_stack(leaves: Seq<Seq<u8>>)
    requires
        leaves.len() > 0,
    ensures
        fold_stack(stack_of(leaves)) == tree_hash(leaves),
    decreases leaves.len(),
{
    let n = leaves.len();
    let d = log2(n);
    let p = pow2(d) as int;
    lemma_stack_first(leaves);
    lemma_log2_bounds(n);
    if p == n {
        assert(leaves.take(p) =~= leaves);
        assert(stack_of(leaves.skip(p)) =~= Seq::<(Seq<u8>, nat)>::empty());
    } else {
        let b = leaves.skip(p);
        lemma_fold_stack(b);
        let s = stack_of(leaves);
        lemma_stack_first(b);
        assert(s.skip(1) =~= stack_of(b));
        assert(n >= 2);
        lemma_log2_unique((n - 1) as nat, d);
        assert(left_size(n) == p);
    }
}

/// The smallest subtree on the stack has depth `tz(n)`.
pub proof fn lemma_stack_last(leaves: Seq<Seq<u8>>)
    requires
        leaves.len() > 0,
    ensures
        stack_of(leaves).len() > 0,
        stack_of(leaves).last().1 == trailing_zeros(leaves.len()),
{
}

/// A tree hash built by inserting leaves one at a time, keeping only the stack of complete
/// subtrees.
pub struct SequentialTreeHash {
    stack: Vec<HashNode>,
    leaves: Ghost<Seq<Seq<u8>>>,
}

impl View for SequentialTreeHash {
    type V = Seq<Seq<u8>>;

    /// The leaf hashes inserted so far, in order.
    closed spec fn view(&self) -> Seq<Seq<u8>> {
        self.leaves@
    }
}

impl SequentialTreeHash {
    /// The stack matches the leaves inserted so far.
    pub closed spec fn wf(&self) -> bool {
        &&& nodes_view(self.stack@) == stack_of(self.leaves@)
        &&& self.leaves@.len() <= usize::MAX
    }

    /// The root hash once all leaves are in: the tree hash of the leaves.
    pub open spec fn spec_hash(&self) -> Seq<u8> {
        tree_hash(self@)
    }

    /// Depth reported for a given number of leaves: -1 when empty, else `tz(n)`.
    pub open spec fn depth_of(n: nat) -> int {
        if n == 0 {
            -1
        } else {
            trailing_zeros(n) as int
        }
    }

    proof fn lemma_depth_fits(leaves: Seq<Seq<u8>>, i: int)
        requires
            leaves.len() <= usize::MAX,
            0 <= i < stack_of(leaves).len(),
        ensures
            stack_of(leaves)[i].1 < 64,
    {
        lemma_stack_depth_bound(leaves);
        lemma_pow2_64();
        if stack_of(leaves)[i].1 >= 64 {
            lemma_pow2_le(64, stack_of(leaves)[i].1);
        }
    }

    pub fn new() -> (res: Self)
        ensures
            res.wf(),
            res@ == Seq::<Seq<u8>>::empty(),
    {
        let res = SequentialTreeHash { stack: Vec::new(), leaves: Ghost(Seq::empty()) };
        assert(nodes_view(res.stack@) =~= stack_of(res.leaves@));
        res
    }

    /// Current depth of the tree: the depth of the smallest subtree on the stack, or -1
    /// when the tree is empty.
    pub fn depth(&self) -> (res: i64)
        requires
            self.wf(),
        ensures
            res == Self::depth_of(self@.len()),
    {
        let len = self.stack.len();
        if len == 0 {
            proof {
                if self@.len() > 0 {
                    lemma_stack_last(self@);
                    assert(nodes_view(self.stack@).len() == 0);
                }
            }
            -1
        } else {
            proof {
                if self@.len() == 0 {
                    assert(nodes_view(self.stack@).len() > 0);
                }
                lemma_stack_last(self@);
                assert(nodes_view(self.stack@)[len - 1] == node_view(self.stack@[len - 1]));
                Self::lemma_depth_fits(self@, len - 1);
            }
            self.stack[len - 1].depth as i64
        }
    }

    pub fn insert(&mut self, hash: [u8; 32])
        requires
            old(self).wf(),
            old(self)@.len() < usize::MAX,
        ensures
            final(self).wf(),
            final(self)@ == old(self)@.push(hash@),
    {
        proof {
            lemma_divides_zero(0);
            reveal_with_fuel(pow2, 1);
        }
        let ghost seg = seq![hash@];
        assert(tree_hash(seg) == hash@);
        let _res = self.insert_node(HashNode { hash, depth: 0 }, Ghost(seg));
        assert(old(self)@ + seg =~= old(self)@.push(hash@));
    }

    /// Pushes a complete subtree of `2^depth` leaves on the stack, merging equal-sized
    /// subtrees.  Fails, leaving the tree unchanged, when the current leaf count is not a
    /// multiple of the subtree's size.
    fn insert_node(&mut self, node: HashNode, Ghost(seg): Ghost<Seq<Seq<u8>>>) -> (res: Result<
        (),
        SequentialTreeHashError,
    >)
        requires
            old(self).wf(),
            seg.len() == pow2(node.depth as nat),
            node.hash@ == tree_hash(seg),
            old(self)@.len() + seg.len() <= usize::MAX,
        ensures
            final(self).wf(),
            pow2_divides(old(self)@.len(), node.depth as nat) ==> res is Ok && final(self)@ == old(
                self,
            )@ + seg,
            !pow2_divides(old(self)@.len(), node.depth as nat) ==> res == Err::<
                (),
                SequentialTreeHashError,
            >(SequentialTreeHashError::DepthMismatch) && final(self)@ == old(self)@,
    {
        let ghost old_stack = self.stack@;
        let ghost old_leaves = self.leaves@;
        let ghost mut a: Seq<Seq<u8>> = self.leaves@;
        let ghost mut b: Seq<Seq<u8>> = seg;
        let mut current = node;
        proof {
            lemma_pow2_64();
            if current.depth >= 64 {
                lemma_pow2_le(64, current.depth as nat);
            }
        }
        loop
            invariant_except_break
                self.leaves@ == old_leaves,
                old_leaves == old(self).leaves@,
                old_stack == old(self).stack@,
                nodes_view(old_stack) == stack_of(old_leaves),
                a + b == old_leaves + seg,
                nodes_view(self.stack@) == stack_of(a),
                b.len() == pow2(current.depth as nat),
                current.hash@ == tree_hash(b),
                pow2_divides(old_leaves.len(), node.depth as nat) ==> pow2_divides(
                    a.len(),
                    current.depth as nat,
                ),
                !pow2_divides(old_leaves.len(), node.depth as nat) ==> (a == old_leaves && b
                    == seg && current == node && self.stack@ == old_stack),
                a.len() + b.len() <= usize::MAX,
                current.depth < 64,
            ensures
                self.leaves@ == old_leaves,
                a + b == old_leaves + seg,
                nodes_view(self.stack@) == stack_of(a),
                b.len() == pow2(current.depth as nat),
                current.hash@ == tree_hash(b),
                pow2_divides(a.len(), current.depth as nat + 1),
                pow2_divides(old_leaves.len(), node.depth as nat),
                a.len() + b.len() <= usize::MAX,
            decreases self.stack@.len(),
        {
            let len = self.stack.len();
            if len == 0 {
                proof {
                    if a.len() > 0 {
                        lemma_stack_last(a);
                        assert(nodes_view(self.stack@).len() == 0);
                    }
                    lemma_divides_zero(current.depth as nat + 1);
                    lemma_divides_zero(node.depth as nat);
                }
                break ;
            }
            let top = self.stack[len - 1];
            proof {
                if a.len() == 0 {
                    assert(nodes_view(self.stack@).len() > 0);
                }
                lemma_stack_last(a);
                assert(nodes_view(self.stack@)[len - 1] == node_view(top));
                lemma_divides_iff_trailing_zeros(a.len(), current.depth as nat);
                lemma_divides_iff_trailing_zeros(a.len(), current.depth as nat + 1);
            }
            if top.depth > current.depth {
                break ;
            } else if top.depth == current.depth {
                let ghost n = a.len();
                let ghost t = trailing_zeros(n);
                let ghost cut = (n - pow2(t)) as int;
                proof {
                    lemma_remove_lowest_bit(n);
                    lemma_pow2_pos(t);
                }
                let ghost prev = self.stack@;
                let left = self.stack.pop().unwrap();
                proof {
                    assert(self.stack@ == prev.drop_last());
                    assert(nodes_view(self.stack@) =~= nodes_view(prev).drop_last());
                    assert(stack_of(a) == stack_of(a.take(cut)).push((tree_hash(a.skip(cut)), t)));
                    assert(nodes_view(self.stack@) =~= stack_of(a.take(cut)));
                    assert(left.hash@ == tree_hash(a.skip(cut)));
                }
                let hash = combine_hashes(&left.hash, &current.hash);
                let ghost nb = a.skip(cut) + b;
                proof {
                    let d = current.depth as nat;
                    assert(pow2(d + 1) == 2 * pow2(d));
                    assert(nb.len() == pow2(d + 1));
                    lemma_pow2_64();
                    if d + 1 >= 64 {
                        lemma_pow2_le(64, d + 1);
                    }
                    lemma_pow2_pos(d);
                    lemma_log2_unique((nb.len() - 1) as nat, d);
                    assert(left_size(nb.len()) == pow2(d));
                    assert(nb.take(pow2(d) as int) =~= a.skip(cut));
                    assert(nb.skip(pow2(d) as int) =~= b);
                    assert(hash@ == tree_hash(nb));
                    assert(a.take(cut) + nb =~= a + b);
                }
                current = HashNode { hash, depth: left.depth + 1 };
                proof {
                    a = a.take(cut);
                    b = nb;
                }
            } else {
                return Err(SequentialTreeHashError::DepthMismatch);
            }
        }
        proof {
            let d = current.depth as nat;
            lemma_trailing_zeros_add_pow2(a.len(), d);
            let n = a.len() + b.len();
            assert((a + b).take(a.len() as int) =~= a);
            assert((a + b).skip(a.len() as int) =~= b);
        }
        self.stack.push(current);
        self.leaves = Ghost(a + b);
        proof {
            assert(nodes_view(self.stack@) =~= stack_of(a).push(node_view(current)));
            assert(stack_of(a + b) == stack_of(a).push((tree_hash(b), current.depth as nat)));
        }
        Ok(())
    }

    /// Inserts the subtrees of `other`, in order, after the leaves of `self`.  This works
    /// when the leaf count of `self` is a multiple of the size of `other`'s largest subtree;
    /// otherwise nothing is inserted and `DepthMismatch` is returned.
    pub fn merge(&mut self, other: SequentialTreeHash) -> (res: Result<(), SequentialTreeHashError>)
        requires
            old(self).wf(),
            other.wf(),
            old(self)@.len() + other@.len() <= usize::MAX,
        ensures
            final(self).wf(),
            mergeable(old(self)@.len(), other@.len()) ==> res is Ok && final(self)@ == old(
                self,
            )@ + other@,
            !mergeable(old(self)@.len(), other@.len()) ==> res == Err::<(), SequentialTreeHashError>(
                SequentialTreeHashError::DepthMismatch,
            ) && final(self)@ == old(self)@,
    {
        let n = other.stack.len();
        let mut i: usize = 0;
        let ghost mut c: int = 0;
        proof {
            assert(nodes_view(other.stack@).skip(0) =~= nodes_view(other.stack@));
            assert(other@.skip(0) =~= other@);
        }
        while i < n
            invariant
                other.wf(),
                n == other.stack@.len(),
                0 <= i <= n,
                self.wf(),
                0 <= c <= other@.len(),
                nodes_view(other.stack@).skip(i as int) == stack_of(other@.skip(c)),
                i == 0 ==> c == 0 && self@ == old(self)@,
                i > 0 ==> mergeable(old(self)@.len(), other@.len()) && self@ == old(self)@
                    + other@.take(c),
                i > 0 && c < other@.len() ==> pow2_divides(
                    self@.len(),
                    log2((other@.len() - c) as nat),
                ),
                old(self)@.len() + other@.len() <= usize::MAX,
            decreases n - i,
        {
            let node = other.stack[i];
            let ghost r = other@.skip(c);
            let ghost p = pow2(log2(r.len())) as int;
            proof {
                assert(nodes_view(other.stack@).skip(i as int).len() > 0);
                if r.len() == 0 {
                    assert(stack_of(r) =~= Seq::<(Seq<u8>, nat)>::empty());
                }
                lemma_stack_first(r);
                assert(nodes_view(other.stack@).skip(i as int)[0] == node_view(node));
                assert(node_view(node) == (tree_hash(r.take(p)), log2(r.len())));
                lemma_pow2_pos(log2(r.len()));
            }
            let res = self.insert_node(node, Ghost(r.take(p)));
            match res {
                Err(e) => {
                    proof {
                        if i > 0 {
                            assert(false);
                        }
                    }
                    return Err(e);
                },
                Ok(()) => {},
            }
            proof {
                let prev_len = (self@.len() - p) as nat;
                assert(pow2_divides(prev_len, log2(r.len())));
                let r2 = r.skip(p);
                assert(r2 =~= other@.skip(c + p));
                assert(nodes_view(other.stack@).skip(i + 1) =~= nodes_view(other.stack@).skip(
                    i as int,
                ).skip(1));
                assert(other@.take(c) + r.take(p) =~= other@.take(c + p));
                if r2.len() > 0 {
                    lemma_log2_bounds(r.len());
                    lemma_log2_bounds(r2.len());
                    if log2(r2.len()) >= log2(r.len()) {
                        lemma_pow2_le(log2(r.len()), log2(r2.len()));
                        assert(pow2(log2(r.len()) + 1) == 2 * pow2(log2(r.len())));
                    }
                    lemma_divides_weaken(prev_len, log2(r.len()), log2(r2.len()));
                    lemma_divides_pow2(log2(r.len()), log2(r2.len()));
                    crate::util::bits::lemma_divides_add(
                        prev_len,
                        pow2(log2(r.len())),
                        log2(r2.len()),
                    );
                }
                c = c + p;
            }
            i = i + 1;
        }
        proof {
            assert(nodes_view(other.stack@).skip(n as int) =~= Seq::<(Seq<u8>, nat)>::empty());
            if c < other@.len() {
                assert(stack_of(other@.skip(c)).len() > 0) by {
                    lemma_stack_last(other@.skip(c));
                }
            }
            assert(other@.take(c) =~= other@);
            if n == 0 {
                assert(self@ =~= old(self)@ + other@);
            }
        }
        Ok(())
    }

    /// Finishes the tree: the root hash over all inserted leaves.
    pub fn finalize(self) -> (res: Result<[u8; 32], SequentialTreeHashError>)
        requires
            self.wf(),
        ensures
            self@.len() == 0 ==> res == Err::<[u8; 32], SequentialTreeHashError>(
                SequentialTreeHashError::EmptyTree,
            ),
            self@.len() > 0 ==> (res matches Ok(h) && h@ == self.spec_hash()),
    {
        let mut stack = self.stack;
        let ghost leaves = self.leaves@;
        let ghost orig = nodes_view(stack@);
        if stack.len() == 0 {
            proof {
                if leaves.len() > 0 {
                    lemma_stack_last(leaves);
                }
            }
            return Err(SequentialTreeHashError::EmptyTree);
        }
        proof {
            if leaves.len() == 0 {
                assert(orig.len() > 0);
            }
            assert(orig.skip(orig.len() - 1) =~= seq![orig[orig.len() - 1]]);
            assert(nodes_view(stack@).take(stack@.len() - 1) =~= orig.take(orig.len() - 1));
        }
        while stack.len() > 1
            invariant
                1 <= stack@.len() <= orig.len(),
                orig == stack_of(leaves),
                leaves.len() <= usize::MAX,
                nodes_view(stack@).take(stack@.len() - 1) == orig.take(stack@.len() - 1),
                stack@.last().hash@ == fold_stack(orig.skip(stack@.len() - 1)),
            decreases stack@.len(),
        {
            let ghost len = stack@.len();
            let ghost prev = stack@;
            let right = stack.pop().unwrap();
            let left = stack.pop().unwrap();
            proof {
                assert(nodes_view(prev).take(len - 1)[len - 2] == node_view(left));
                assert(orig[len - 2] == node_view(left));
                Self::lemma_depth_fits(leaves, len - 2);
            }
            let hash = combine_hashes(&left.hash, &right.hash);
            stack.push(HashNode { hash, depth: left.depth + 1 });
            proof {
                let o = orig.skip(len - 2);
                assert(o.skip(1) =~= orig.skip(len - 1));
                assert(o[0] == orig[len - 2]);
                assert(fold_stack(o) == hash_pair(orig[len - 2].0, fold_stack(orig.skip(len - 1))));
                assert(nodes_view(stack@).take(len - 2) =~= nodes_view(prev).take(len - 1).take(
                    len - 2,
                ));
                assert(orig.take(len - 1).take(len - 2) =~= orig.take(len - 2));
            }
        }
        proof {
            assert(orig.skip(0) =~= orig);
            lemma_fold_stack(leaves);
        }
        Ok(stack[0].hash)
    }
}

impl Default for SequentialTreeHash {
    fn default() -> (res: Self)
        ensures
            res.wf(),
            res@ == Seq::<Seq<u8>>::empty(),
    {
        Self::new()
    }
}

} // verus!
