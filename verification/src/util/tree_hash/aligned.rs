use vstd::prelude::*;

use crate::util::bits::{
    lemma_divides_weaken, lemma_divides_zero, lemma_log2_monotone, lemma_log2_unique,
    lemma_pow2_divides_mul, lemma_pow2_pos, log2, pow2, pow2_divides,
};
use crate::util::tree_hash::sequential::{
    mergeable, SequentialTreeHash, SequentialTreeHashError,
};

verus! {

broadcast use vstd::seq::Seq::lemma_flatten_push;

/// Where segment `i` of `segs` starts, for segments laid one after the other from `start`.
pub open spec fn seg_start(start: nat, segs: Seq<Seq<Seq<u8>>>, i: int) -> nat {
    start + segs.take(i).flatten().len()
}

/// Every segment, laid after the ones before it from leaf `start`, can be merged there.
pub open spec fn aligned_segments(start: nat, segs: Seq<Seq<Seq<u8>>>) -> bool {
    forall|i: int| 0 <= i < segs.len() ==> mergeable(seg_start(start, segs, i), #[trigger] segs[i].len())
}

/// Outcome of merging the segments in order into a tree with leaves `l`: the result, and
/// the leaves of the target afterwards; merging stops at the first segment that does not fit.
pub open spec fn spec_merge_segments(l: Seq<Seq<u8>>, segs: Seq<Seq<Seq<u8>>>) -> (
    Result<(), SequentialTreeHashError>,
    Seq<Seq<u8>>,
)
    decreases segs.len(),
{
    if segs.len() == 0 {
        (Ok(()), l)
    } else if !mergeable(l.len(), segs[0].len()) {
        (Err(SequentialTreeHashError::DepthMismatch), l)
    } else {
        spec_merge_segments(l + segs[0], segs.drop_first())
    }
}

/// Segments that each fit where they start merge without error after `l` leaves, when the
/// first one starts at `l.len()`; the result is `l` followed by all their leaves.
pub proof fn lemma_merge_aligned(l: Seq<Seq<u8>>, segs: Seq<Seq<Seq<u8>>>)
    requires
        aligned_segments(l.len(), segs),
    ensures
        spec_merge_segments(l, segs) == (Ok::<(), SequentialTreeHashError>(()), l + segs.flatten()),
    decreases segs.len(),
{
    if segs.len() == 0 {
        assert(l + segs.flatten() =~= l);
    } else {
        assert(segs.take(0) =~= Seq::<Seq<Seq<u8>>>::empty());
        assert(seg_start(l.len(), segs, 0) == l.len());
        assert(mergeable(l.len(), segs[0].len()));
        let rest = segs.drop_first();
        let l2 = l + segs[0];
        assert forall|i: int| 0 <= i < rest.len() implies mergeable(
            seg_start(l2.len(), rest, i),
            #[trigger] rest[i].len(),
        ) by {
            assert(segs.take(i + 1) =~= seq![segs[0]] + rest.take(i));
            assert(segs.take(i + 1).drop_first() =~= rest.take(i));
            assert(seg_start(l.len(), segs, i + 1) == seg_start(l2.len(), rest, i));
            assert(segs[i + 1] == rest[i]);
        }
        lemma_merge_aligned(l2, rest);
        assert(l2 + rest.flatten() =~= l + segs.flatten());
    }
}

/// A tree hash over a run of leaves that starts at leaf `start` of a larger tree, kept as
/// consecutive segments that each fit where they start, so that it can be merged after any
/// tree of `start` leaves.  A segment that starts at leaf `s > 0` holds at most the largest
/// power of two dividing `s`; from leaf 0 a single segment holds everything.
pub struct AlignedTreeHash {
    start: u64,
    closed: Vec<SequentialTreeHash>,
    open_start: u64,
    open_cap: u64,
    open_exp: Ghost<nat>,
    open_len: u64,
    open: SequentialTreeHash,
}

/// The leaves of each of `trees`.
pub open spec fn tree_views(trees: Seq<SequentialTreeHash>) -> Seq<Seq<Seq<u8>>> {
    trees.map_values(|t: SequentialTreeHash| t@)
}

impl View for AlignedTreeHash {
    type V = Seq<Seq<u8>>;

    /// All leaves inserted so far, in order.
    closed spec fn view(&self) -> Seq<Seq<u8>> {
        self.segments().flatten()
    }
}

impl AlignedTreeHash {
    /// Index, in the larger tree, of the first leaf.
    pub closed spec fn start(&self) -> u64 {
        self.start
    }

    /// The leaves of each segment, in order.
    pub closed spec fn segments(&self) -> Seq<Seq<Seq<u8>>> {
        tree_views(self.closed@).push(self.open@)
    }

    pub closed spec fn wf(&self) -> bool {
        &&& self.open.wf()
        &&& forall|i: int| 0 <= i < self.closed@.len() ==> (#[trigger] self.closed@[i]).wf()
        &&& self.open_start == self.start + tree_views(self.closed@).flatten().len()
        &&& self.open_start < 0x4000_0000_0000_0000
        &&& self.open_len == self.open@.len()
        &&& aligned_segments(self.start as nat, self.segments())
        &&& self.open_cap == 0 ==> self.open_start == 0
        &&& self.open_cap > 0 ==> {
            &&& self.open_cap == pow2(self.open_exp@)
            &&& pow2_divides(self.open_start as nat, self.open_exp@)
            &&& self.open@.len() <= self.open_cap
        }
        &&& self.segments().flatten().len() <= usize::MAX
    }

    /// All the leaves are the segments' leaves, one segment after the other.
    pub proof fn lemma_view(&self)
        ensures
            self@ == self.segments().flatten(),
    {
    }

    /// The segments of a well-formed tree each fit where they start.
    pub proof fn lemma_aligned(&self)
        requires
            self.wf(),
        ensures
            aligned_segments(self.start() as nat, self.segments()),
    {
    }

    /// The largest power of two dividing `s > 0`, with its exponent.
    fn capacity_at(s: u64) -> (res: (u64, Ghost<nat>))
        requires
            s > 0,
        ensures
            res.0 == pow2(res.1@),
            pow2_divides(s as nat, res.1@),
            0 < res.0 <= s,
    {
        let mut q = s;
        let mut cap: u64 = 1;
        let ghost mut e: nat = 0;
        while q % 2 == 0
            invariant
                q > 0,
                cap == pow2(e),
                s == q * cap,
            decreases q,
        {
            proof {
                assert(cap * 2 <= s) by (nonlinear_arith)
                    requires
                        s == q * cap,
                        q % 2 == 0,
                        q > 0,
                ;
                assert(pow2(e + 1) == 2 * pow2(e));
                assert(s == (q / 2) * (cap * 2)) by (nonlinear_arith)
                    requires
                        s == q * cap,
                        q % 2 == 0,
                ;
            }
            q = q / 2;
            cap = cap * 2;
            proof {
                e = e + 1;
            }
        }
        proof {
            lemma_pow2_pos(e);
            lemma_pow2_divides_mul(q as nat, e);
            assert(q * pow2(e) == s);
            assert(cap <= s) by (nonlinear_arith)
                requires
                    s == q * cap,
                    q > 0,
            ;
        }
        (cap, Ghost(e))
    }

    /// An empty tree whose first leaf will be leaf `start` of the larger tree.
    pub fn new(start: u64) -> (res: Self)
        requires
            start < 0x4000_0000_0000_0000,
        ensures
            res.wf(),
            res.start() == start,
            res@ == Seq::<Seq<u8>>::empty(),
    {
        let (cap, exp) = if start == 0 {
            (0, Ghost(0))
        } else {
            Self::capacity_at(start)
        };
        let res = AlignedTreeHash {
            start,
            closed: Vec::new(),
            open_start: start,
            open_cap: cap,
            open_exp: exp,
            open_len: 0,
            open: SequentialTreeHash::new(),
        };
        proof {
            let segs = res.segments();
            assert(tree_views(res.closed@) =~= Seq::<Seq<Seq<u8>>>::empty());
            assert(segs =~= seq![Seq::<Seq<u8>>::empty()]);
            assert(segs.drop_first() =~= Seq::<Seq<Seq<u8>>>::empty());
            assert(segs.flatten() =~= Seq::<Seq<u8>>::empty());
            assert(tree_views(res.closed@).flatten() =~= Seq::<Seq<u8>>::empty());
            assert forall|i: int| 0 <= i < segs.len() implies mergeable(
                seg_start(start as nat, segs, i),
                #[trigger] segs[i].len(),
            ) by {}
        }
        res
    }

    /// Adds the hash of the next leaf.
    pub fn insert(&mut self, hash: [u8; 32])
        requires
            old(self).wf(),
            old(self).start() + old(self)@.len() < 0x4000_0000_0000_0000,
            old(self)@.len() < usize::MAX,
        ensures
            final(self).wf(),
            final(self).start() == old(self).start(),
            final(self)@ == old(self)@.push(hash@),
    {
        let ghost start = self.start as nat;
        let ghost cv = tree_views(self.closed@);
        let ghost o = self.open@;
        proof {
            assert(self.segments().flatten() == cv.flatten() + o);
        }
        if self.open_cap > 0 && self.open_len == self.open_cap {
            // the open segment is full: close it and start the next one after it
            let next_start = self.open_start + self.open_cap;
            let (cap, exp) = Self::capacity_at(next_start);
            let mut full = SequentialTreeHash::new();
            std::mem::swap(&mut full, &mut self.open);
            self.closed.push(full);
            self.open_start = next_start;
            self.open_cap = cap;
            self.open_exp = exp;
            self.open_len = 0;
            proof {
                assert(tree_views(self.closed@) =~= cv.push(o));
                assert(cv.push(o).flatten() == cv.flatten() + o);
            }
        }
        let ghost cv2 = tree_views(self.closed@);
        let ghost o2 = self.open@;
        proof {
            assert(cv2.flatten() + o2 == cv.flatten() + o);
            assert(o2.len() < usize::MAX);
        }
        self.open.insert(hash);
        self.open_len = self.open_len + 1;
        proof {
            let segs = self.segments();
            let n = cv2.len() as int;
            assert(segs == cv2.push(o2.push(hash@)));
            assert(segs.flatten() == cv2.flatten() + o2.push(hash@));
            assert(segs.flatten() =~= cv.flatten() + o + seq![hash@]);
            assert(old(self)@ == cv.flatten() + o);
            assert forall|i: int| 0 <= i < segs.len() implies mergeable(
                seg_start(start, segs, i),
                #[trigger] segs[i].len(),
            ) by {
                if i < n {
                    assert(segs.take(i) =~= cv2.take(i));
                    if i < cv.len() {
                        assert(cv2.take(i) =~= cv.take(i));
                        assert(old(self).segments().take(i) =~= cv.take(i));
                        assert(cv2[i] == cv[i]);
                        assert(old(self).segments()[i] == cv[i]);
                        assert(mergeable(
                            seg_start(start, old(self).segments(), i),
                            old(self).segments()[i].len(),
                        ));
                    } else {
                        // the segment just closed: full, at a multiple of its size
                        assert(i == cv.len());
                        assert(cv2.take(i) =~= cv);
                        assert(cv2[i] == o);
                        let e = old(self).open_exp@;
                        assert(o.len() == pow2(e));
                        lemma_pow2_pos(e);
                        assert(pow2(e + 1) == 2 * pow2(e));
                        lemma_log2_unique(pow2(e), e);
                    }
                } else {
                    assert(i == n);
                    assert(segs.take(i) =~= cv2);
                    let len = o2.len() + 1;
                    if self.open_start == 0 {
                        lemma_divides_zero(log2(len));
                    } else {
                        let e = self.open_exp@;
                        lemma_pow2_pos(e);
                        assert(pow2(e + 1) == 2 * pow2(e));
                        lemma_log2_unique(pow2(e), e);
                        lemma_log2_monotone(len, pow2(e));
                        lemma_divides_weaken(self.open_start as nat, e, log2(len));
                    }
                }
            }
        }
    }

    /// Merges the segments, in order, into the provided sequential tree; merging stops at
    /// the first segment that does not fit.
    pub fn merge_into(self, sequential: &mut SequentialTreeHash) -> (res: Result<
        (),
        SequentialTreeHashError,
    >)
        requires
            self.wf(),
            old(sequential).wf(),
            old(sequential)@.len() + self@.len() <= usize::MAX,
        ensures
            final(sequential).wf(),
            (res, final(sequential)@) == spec_merge_segments(old(sequential)@, self.segments()),
    {
        let ghost target = spec_merge_segments(old(sequential)@, self.segments());
        let AlignedTreeHash { closed, open, .. } = self;
        let mut closed = closed;
        let mut result: Result<(), SequentialTreeHashError> = Ok(());
        proof {
            assert(tree_views(closed@).push(open@) == self.segments());
        }
        while closed.len() > 0
            invariant_except_break
                sequential.wf(),
                open.wf(),
                forall|i: int| 0 <= i < closed@.len() ==> (#[trigger] closed@[i]).wf(),
                spec_merge_segments(sequential@, tree_views(closed@).push(open@)) == target,
                sequential@.len() + tree_views(closed@).push(open@).flatten().len() <= usize::MAX,
                result is Ok,
            ensures
                sequential.wf(),
                open.wf(),
                result is Ok ==> spec_merge_segments(sequential@, tree_views(closed@).push(open@))
                    == target && closed@.len() == 0 && sequential@.len() + open@.len()
                    <= usize::MAX,
                result is Err ==> (result, sequential@) == target,
            decreases closed.len(),
        {
            let ghost segs = tree_views(closed@).push(open@);
            let ghost l = sequential@;
            let t = closed.remove(0);
            proof {
                assert(segs[0] == t@);
                assert(segs.drop_first() =~= tree_views(closed@).push(open@));
                assert(segs.flatten() == t@ + segs.drop_first().flatten());
            }
            match sequential.merge(t) {
                Ok(()) => {},
                Err(e) => {
                    result = Err(e);
                    break ;
                },
            }
        }
        if result.is_err() {
            proof {
                assert((result, sequential@) == target);
            }
            return result;
        }
        let ghost l = sequential@;
        let ghost segs = tree_views(closed@).push(open@);
        proof {
            assert(tree_views(closed@) =~= Seq::<Seq<Seq<u8>>>::empty());
            assert(segs =~= seq![open@]);
            assert(segs.drop_first() =~= Seq::<Seq<Seq<u8>>>::empty());
            assert(segs[0] == open@);
            assert(spec_merge_segments(sequential@ + open@, segs.drop_first()) == (
                Ok::<(), SequentialTreeHashError>(()),
                sequential@ + open@,
            ));
        }
        let ghost o = open@;
        let r = match sequential.merge(open) {
            Ok(()) => Ok(()),
            Err(e) => Err(e),
        };
        proof {
            if mergeable(l.len(), o.len()) {
                assert(spec_merge_segments(l, segs) == spec_merge_segments(l + o, segs.drop_first()));
            } else {
                assert(spec_merge_segments(l, segs) == (
                    Err::<(), SequentialTreeHashError>(SequentialTreeHashError::DepthMismatch),
                    l,
                ));
            }
            assert((r, sequential@) == spec_merge_segments(l, segs));
        }
        r
    }
}

/// A tree whose first leaf is leaf `start`, merged after a tree of exactly `start` leaves,
/// merges without error, and the result holds the leaves before it followed by its own.
pub proof fn lemma_aligned_merge(precursor: Seq<Seq<u8>>, part: AlignedTreeHash)
    requires
        part.wf(),
        precursor.len() == part.start(),
    ensures
        spec_merge_segments(precursor, part.segments()) == (
            Ok::<(), SequentialTreeHashError>(()),
            precursor + part@,
        ),
{
    lemma_merge_aligned(precursor, part.segments());
}


/// Merging segments adds at most their leaves.
pub proof fn lemma_merge_segments_len(l: Seq<Seq<u8>>, segs: Seq<Seq<Seq<u8>>>)
    ensures
        spec_merge_segments(l, segs).1.len() <= l.len() + segs.flatten().len(),
    decreases segs.len(),
{
    if segs.len() > 0 && mergeable(l.len(), segs[0].len()) {
        lemma_merge_segments_len(l + segs[0], segs.drop_first());
    }
}

} // verus!
