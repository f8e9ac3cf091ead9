use vstd::prelude::*;

use crate::util::bits::{
    lemma_divides_add, lemma_divides_iff_trailing_zeros, lemma_divides_lower_bound,
    lemma_divides_pow2, lemma_divides_weaken, lemma_divides_zero, lemma_log2_bounds,
    lemma_log2_unique, lemma_pow2_le, lemma_pow2_lt, lemma_pow2_pos, lemma_remove_lowest_bit,
    lemma_trailing_zeros, log2, pow2, pow2_divides, trailing_zeros,
};
use crate::util::tree_hash::sequential::{
    mergeable, SequentialTreeHash, SequentialTreeHashError,
};

verus! {

/// Outcome of merging a reserve and then a main tree into a tree with leaves `l`: the result
/// and the leaves of the target afterwards.
pub open spec fn spec_merge_into(l: Seq<Seq<u8>>, r: Seq<Seq<u8>>, m: Seq<Seq<u8>>) -> (
    Result<(), SequentialTreeHashError>,
    Seq<Seq<u8>>,
) {
    if !mergeable(l.len(), r.len()) {
        (Err(SequentialTreeHashError::DepthMismatch), l)
    } else if !mergeable(l.len() + r.len(), m.len()) {
        (Err(SequentialTreeHashError::DepthMismatch), l + r)
    } else {
        (Ok(()), l + r + m)
    }
}

/// A tree hash over a part of the data that holds back its first leaves in a separate
/// reserve tree until the reserve reaches a given depth, so that the part can later be
/// merged after the leaves that precede it.  A negative reserve depth holds nothing back.
pub struct ReservedTreeHash {
    reserve_depth: i64,
    reserve: SequentialTreeHash,
    main: SequentialTreeHash,
}

impl View for ReservedTreeHash {
    type V = Seq<Seq<u8>>;

    /// All leaves inserted so far, in order.
    closed spec fn view(&self) -> Seq<Seq<u8>> {
        self.reserve@ + self.main@
    }
}

impl ReservedTreeHash {
    pub closed spec fn reserve_depth(&self) -> i64 {
        self.reserve_depth
    }

    /// Leaves held in the reserve tree.
    pub closed spec fn reserve_leaves(&self) -> Seq<Seq<u8>> {
        self.reserve@
    }

    /// Leaves inserted after the reserve was full.
    pub closed spec fn main_leaves(&self) -> Seq<Seq<u8>> {
        self.main@
    }

    pub closed spec fn wf(&self) -> bool {
        &&& self.reserve.wf()
        &&& self.main.wf()
        &&& self.reserve@.len() + self.main@.len() <= usize::MAX
        &&& self.reserve_depth < 0 ==> self.reserve@.len() == 0
        &&& self.reserve_depth >= 0 ==> self.reserve@.len() <= pow2(self.reserve_depth as nat)
        &&& self.main@.len() > 0 ==> SequentialTreeHash::depth_of(self.reserve@.len())
            >= self.reserve_depth
    }

    pub proof fn lemma_view(&self)
        ensures
            self@ == self.reserve_leaves() + self.main_leaves(),
    {
    }

    /// Leaves go to the main tree only once the reserve is full: `2^reserve_depth` leaves
    /// (none for a negative depth).
    pub proof fn lemma_reserve_full(&self)
        requires
            self.wf(),
            self.main_leaves().len() > 0,
        ensures
            self.reserve_depth() < 0 ==> self.reserve_leaves().len() == 0,
            self.reserve_depth() >= 0 ==> self.reserve_leaves().len() == pow2(
                self.reserve_depth() as nat,
            ),
    {
        if self.reserve_depth >= 0 {
            let r = self.reserve@.len();
            assert(r > 0);
            lemma_trailing_zeros(r);
            lemma_divides_weaken(r, trailing_zeros(r), self.reserve_depth as nat);
            lemma_divides_lower_bound(r, self.reserve_depth as nat);
        }
    }

    /// Whatever leaves were inserted, the reserve holds the first of them, as many as fit in
    /// it (`2^reserve_depth`, none for a negative depth), and the main tree holds the rest.
    /// Merging is then merging a tree of the reserved leaves and a tree of the rest, one after
    /// the other; with nothing reserved, it is a plain merge of the main tree.  A merge that
    /// succeeds leaves the target with its leaves followed by all of these, and with a
    /// negative depth a merge into an empty tree always succeeds.
    pub proof fn lemma_reserve_split(&self, l: Seq<Seq<u8>>)
        requires
            self.wf(),
        ensures
            self.reserve_depth() < 0 ==> self.reserve_leaves().len() == 0,
            self.reserve_depth() >= 0 ==> self.reserve_leaves().len() == if self@.len() <= pow2(
                self.reserve_depth() as nat,
            ) {
                self@.len()
            } else {
                pow2(self.reserve_depth() as nat)
            },
            self.reserve_leaves() == self@.take(self.reserve_leaves().len() as int),
            self.main_leaves() == self@.skip(self.reserve_leaves().len() as int),
            spec_merge_into(l, self.reserve_leaves(), self.main_leaves()).0 is Ok
                ==> spec_merge_into(l, self.reserve_leaves(), self.main_leaves()).1 == l + self@,
            l.len() == 0 && self.reserve_depth() < 0 ==> spec_merge_into(
                l,
                self.reserve_leaves(),
                self.main_leaves(),
            ) == (Ok::<(), SequentialTreeHashError>(()), l + self@),
            self.reserve_leaves().len() == 0 ==> spec_merge_into(
                l,
                self.reserve_leaves(),
                self.main_leaves(),
            ) == (if mergeable(l.len(), self@.len()) {
                (Ok::<(), SequentialTreeHashError>(()), l + self@)
            } else {
                (Err::<(), SequentialTreeHashError>(SequentialTreeHashError::DepthMismatch), l)
            }),
    {
        if self.main@.len() > 0 {
            self.lemma_reserve_full();
        }
        assert(self@.take(self.reserve@.len() as int) =~= self.reserve@);
        assert(self@.skip(self.reserve@.len() as int) =~= self.main@);
        if self.reserve@.len() == 0 {
            assert(self@ =~= self.main@);
            assert(l + self.reserve@ =~= l);
        }
        assert(l + self.reserve@ + self.main@ =~= l + self@);
        if l.len() == 0 {
            lemma_divides_zero(log2(self.main@.len()));
        }
    }

    /// Using a negative reserve depth will cause no reserve to be held and all inserts go
    /// directly to the main tree.
    pub fn new(reserve_depth: i64) -> (res: Self)
        ensures
            res.wf(),
            res.reserve_depth() == reserve_depth,
            res.reserve_leaves() == Seq::<Seq<u8>>::empty(),
            res.main_leaves() == Seq::<Seq<u8>>::empty(),
            res@ == Seq::<Seq<u8>>::empty(),
    {
        let res = ReservedTreeHash {
            reserve_depth,
            reserve: SequentialTreeHash::new(),
            main: SequentialTreeHash::new(),
        };
        assert(res@ =~= Seq::<Seq<u8>>::empty());
        res
    }

    /// Inserts a leaf into the reserve while the reserve is shallower than the reserve
    /// depth, else into the main tree.
    pub fn insert(&mut self, hash: [u8; 32])
        requires
            old(self).wf(),
            old(self)@.len() < usize::MAX,
        ensures
            final(self).wf(),
            final(self).reserve_depth() == old(self).reserve_depth(),
            SequentialTreeHash::depth_of(old(self).reserve_leaves().len()) < old(
                self,
            ).reserve_depth() ==> final(self).reserve_leaves() == old(self).reserve_leaves().push(
                hash@,
            ) && final(self).main_leaves() == old(self).main_leaves(),
            SequentialTreeHash::depth_of(old(self).reserve_leaves().len()) >= old(
                self,
            ).reserve_depth() ==> final(self).main_leaves() == old(self).main_leaves().push(
                hash@,
            ) && final(self).reserve_leaves() == old(self).reserve_leaves(),
            final(self)@ == old(self)@.push(hash@),
    {
        if self.reserve.depth() < self.reserve_depth {
            proof {
                let r = self.reserve@.len();
                let d = self.reserve_depth as nat;
                if r > 0 {
                    lemma_trailing_zeros(r);
                    if r == pow2(d) {
                        lemma_divides_pow2(d, d);
                        lemma_divides_iff_trailing_zeros(r, d);
                    }
                } else {
                    lemma_pow2_pos(d);
                }
            }
            self.reserve.insert(hash);
            proof {
                assert(self.main@.len() == 0);
                assert(self.main@ =~= Seq::<Seq<u8>>::empty());
                assert(self@ =~= old(self)@.push(hash@));
            }
        } else {
            self.main.insert(hash);
            proof {
                assert(self@ =~= old(self)@.push(hash@));
            }
        }
    }

    /// Merges the reserve tree and then the main tree into the provided sequential tree.
    pub fn merge_into(self, sequential: &mut SequentialTreeHash) -> (res: Result<
        (),
        SequentialTreeHashError,
    >)
        requires
            self.wf(),
            old(sequential).wf(),
            old(sequential)@.len() + self@.len() <= usize::MAX,
        ensures
            final(sequential).wf(),
            (res, final(sequential)@) == spec_merge_into(
                old(sequential)@,
                self.reserve_leaves(),
                self.main_leaves(),
            ),
    {
        let r1 = sequential.merge(self.reserve);
        match r1 {
            Err(e) => {
                return Err(e);
            },
            Ok(()) => {},
        }
        let r2 = sequential.merge(self.main);
        match r2 {
            Err(e) => {
                return Err(e);
            },
            Ok(()) => {},
        }
        Ok(())
    }
}

impl Default for ReservedTreeHash {
    fn default() -> (res: Self)
        ensures
            res.wf(),
            res.reserve_depth() == 0,
            res@ == Seq::<Seq<u8>>::empty(),
    {
        Self::new(0)
    }
}

/// A part that is hashed with the precursor's depth as its reserve depth, and that holds at
/// most `2^(depth + 2)` leaves, merges after the precursor without error, and the result holds
/// the precursor's leaves followed by the part's, exactly as if all had been inserted one by
/// one into a single sequential tree.
pub proof fn lemma_reserved_merge_matches_sequential(
    precursor: Seq<Seq<u8>>,
    part: ReservedTreeHash,
)
    requires
        part.wf(),
        part.reserve_depth() == SequentialTreeHash::depth_of(precursor.len()),
        precursor.len() > 0 ==> part@.len() <= pow2(part.reserve_depth() as nat + 2),
    ensures
        spec_merge_into(precursor, part.reserve_leaves(), part.main_leaves()) == (
            Ok::<(), SequentialTreeHashError>(()),
            precursor + part@,
        ),
{
    let k = precursor.len();
    let r = part.reserve_leaves().len();
    let m = part.main_leaves().len();
    if k == 0 {
        lemma_divides_zero(log2(r));
        assert(r == 0);
        lemma_divides_zero(log2(m));
    } else {
        let d = trailing_zeros(k);
        lemma_trailing_zeros(k);
        if r > 0 {
            lemma_log2_bounds(r);
            if log2(r) > d {
                lemma_pow2_lt(d, log2(r));
            }
            lemma_divides_weaken(k, d, log2(r));
        }
        if m > 0 {
            part.lemma_reserve_full();
            assert(r == pow2(d));
            // k + 2^d is a multiple of 2^(d+1)
            lemma_remove_lowest_bit(k);
            let below = (k - pow2(d)) as nat;
            assert(pow2(d + 1) == 2 * pow2(d));
            lemma_divides_pow2(d + 1, d + 1);
            lemma_divides_add(below, pow2(d + 1), d + 1);
            assert(below + pow2(d + 1) == k + r);
            // the main tree holds fewer than 2^(d+2) leaves
            assert(pow2(d + 2) == 2 * pow2(d + 1));
            lemma_log2_bounds(m);
            if log2(m) > d + 1 {
                lemma_pow2_le(d + 2, log2(m));
            }
            lemma_divides_weaken(k + r, d + 1, log2(m));
        }
    }
    assert(precursor + part.reserve_leaves() + part.main_leaves() =~= precursor + part@);
}

} // verus!
