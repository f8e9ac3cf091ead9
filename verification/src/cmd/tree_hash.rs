use std::collections::BTreeMap;
use vstd::prelude::*;

use crate::util::digest::tree_hash;
use crate::util::tree_hash::sequential::{SequentialTreeHash, SequentialTreeHashError};
use crate::util::tree_hash::AWS_TREE_HASH_PART_SIZE;

verus! {

broadcast use {vstd::std_specs::btree::group_btree_axioms, vstd::laws_cmp::group_laws_cmp};

/// Hashing up to `pending` hashes in offset order: while a hash is pending at the offset where
/// the hashed data ends, it is taken out and appended to the leaves, and the end moves on by
/// one part.
pub open spec fn drain(pending: Map<u64, [u8; 32]>, total: nat, leaves: Seq<Seq<u8>>) -> (
    Map<u64, [u8; 32]>,
    nat,
    Seq<Seq<u8>>,
)
    decreases pending.dom().len(),
{
    if pending.dom().finite() && total <= u64::MAX && pending.contains_key(total as u64) {
        drain(
            pending.remove(total as u64),
            (total + AWS_TREE_HASH_PART_SIZE) as nat,
            leaves.push(pending[total as u64]@),
        )
    } else {
        (pending, total, leaves)
    }
}

/// Collects the hashes of 1 MiB parts, which may arrive in any order, and hashes them into a
/// tree in offset order.
pub struct HashCollector {
    tree_hasher: SequentialTreeHash,
    total_hashed: u64,
    chunk_map: BTreeMap<u64, [u8; 32]>,
}

impl HashCollector {
    /// Hashes of the parts taken into the tree so far, in offset order.
    pub closed spec fn leaves(&self) -> Seq<Seq<u8>> {
        self.tree_hasher@
    }

    /// Offset where the hashed data ends.
    pub closed spec fn total(&self) -> nat {
        self.total_hashed as nat
    }

    /// Hashes received but not yet taken into the tree, by offset.
    pub closed spec fn pending(&self) -> Map<u64, [u8; 32]> {
        self.chunk_map@
    }

    pub closed spec fn wf(&self) -> bool {
        &&& self.tree_hasher.wf()
        &&& self.chunk_map@.dom().finite()
        &&& forall|k: u64|
            #[trigger] self.chunk_map@.contains_key(k) ==> k <= u64::MAX - AWS_TREE_HASH_PART_SIZE
    }

    pub fn new() -> (res: Self)
        ensures
            res.wf(),
            res.leaves() == Seq::<Seq<u8>>::empty(),
            res.total() == 0,
            res.pending() == Map::<u64, [u8; 32]>::empty(),
    {
        HashCollector {
            tree_hasher: SequentialTreeHash::new(),
            total_hashed: 0,
            chunk_map: BTreeMap::new(),
        }
    }

    /// Takes the hash of the part at `offset`, then hashes every part that is now next in
    /// order.
    pub fn accept(&mut self, offset: u64, hash: [u8; 32])
        requires
            old(self).wf(),
            offset <= u64::MAX - AWS_TREE_HASH_PART_SIZE,
            old(self).leaves().len() + old(self).pending().dom().len() + 1 < usize::MAX,
        ensures
            final(self).wf(),
            (final(self).pending(), final(self).total(), final(self).leaves()) == drain(
                old(self).pending().insert(offset, hash),
                old(self).total(),
                old(self).leaves(),
            ),
    {
        self.chunk_map.insert(offset, hash);
        let ghost target = drain(
            old(self).pending().insert(offset, hash),
            old(self).total(),
            old(self).leaves(),
        );
        loop
            invariant
                self.wf(),
                drain(self.pending(), self.total(), self.leaves()) == target,
                self.leaves().len() + self.pending().dom().len() < usize::MAX,
            ensures
                self.wf(),
                (self.pending(), self.total(), self.leaves()) == target,
            decreases self.chunk_map@.dom().len(),
        {
            let key = self.total_hashed;
            match self.chunk_map.remove(&key) {
                Some(h) => {
                    self.tree_hasher.insert(h);
                    self.total_hashed = key + AWS_TREE_HASH_PART_SIZE;
                },
                None => {
                    break ;
                },
            }
        }
    }

    /// The tree hash of the parts taken in so far.
    pub fn finish(self) -> (res: Result<[u8; 32], SequentialTreeHashError>)
        requires
            self.wf(),
        ensures
            self.leaves().len() == 0 ==> res == Err::<[u8; 32], SequentialTreeHashError>(
                SequentialTreeHashError::EmptyTree,
            ),
            self.leaves().len() > 0 ==> (res matches Ok(h) && h@ == tree_hash(self.leaves())),
    {
        self.tree_hasher.finalize()
    }
}

/// State of a collector, as `(pending, total, leaves)`, after it accepted `events` (pairs of
/// offset and hash) in order, starting empty.
pub open spec fn accept_all(events: Seq<(u64, [u8; 32])>) -> (
    Map<u64, [u8; 32]>,
    nat,
    Seq<Seq<u8>>,
)
    decreases events.len(),
{
    if events.len() == 0 {
        (Map::empty(), 0, Seq::empty())
    } else {
        let s = accept_all(events.drop_last());
        let e = events.last();
        drain(s.0.insert(e.0, e.1), s.1, s.2)
    }
}

/// Offset of part `i`.
pub open spec fn part_offset(i: nat) -> u64 {
    (i * 1048576) as u64
}

/// Part `i` is among the first `k` events.
pub open spec fn received(events: Seq<(u64, [u8; 32])>, k: int, i: nat) -> bool {
    exists|j: int| 0 <= j < k && #[trigger] events[j].0 == part_offset(i)
}

/// The first part at or after `s` (and before `n`) that is not among the first `k` events,
/// or `n`.
pub open spec fn next_missing(events: Seq<(u64, [u8; 32])>, k: int, s: nat, n: nat) -> nat
    decreases n - s,
{
    if s >= n || !received(events, k, s) {
        s
    } else {
        next_missing(events, k, s + 1, n)
    }
}

/// Every event is part `i < n` with its hash.
pub open spec fn events_of(events: Seq<(u64, [u8; 32])>, hashes: Seq<[u8; 32]>) -> bool {
    forall|j: int|
        0 <= j < events.len() ==> exists|i: nat|
            i < hashes.len() && #[trigger] events[j] == (part_offset(i), hashes[i as int])
}

pub open spec fn hash_views(hashes: Seq<[u8; 32]>) -> Seq<Seq<u8>> {
    hashes.map_values(|h: [u8; 32]| h@)
}

/// What holds of a collector after the first `k` events: the first `t` parts are hashed in
/// order, part `t` has not arrived, every part that arrived after `t` is pending, and every
/// pending hash is that of a part other than `t` that arrived.
pub open spec fn collector_inv(
    events: Seq<(u64, [u8; 32])>,
    hashes: Seq<[u8; 32]>,
    k: int,
    state: (Map<u64, [u8; 32]>, nat, Seq<Seq<u8>>),
    t: nat,
) -> bool {
    let n = hashes.len();
    &&& t <= n
    &&& state.1 == t * 1048576
    &&& state.0.dom().finite()
    &&& state.2 == hash_views(hashes).take(t as int)
    &&& forall|i: nat| i < t ==> #[trigger] received(events, k, i)
    &&& t < n ==> !received(events, k, t)
    &&& forall|key: u64|
        #[trigger] state.0.contains_key(key) ==> exists|i: nat|
            i < n && i != t && key == part_offset(i) && received(events, k, i)
                && state.0[key] == hashes[i as int]
    &&& forall|i: nat|
        t < i < n && #[trigger] received(events, k, i) ==> state.0.contains_key(part_offset(i))
}

proof fn lemma_offset_injective(i: nat, j: nat, n: nat)
    requires
        i < n,
        j < n,
        n * 1048576 <= u64::MAX,
        part_offset(i) == part_offset(j),
    ensures
        i == j,
{
    assert(i * 1048576 < n * 1048576) by (nonlinear_arith)
        requires
            i < n,
    ;
    assert(j * 1048576 < n * 1048576) by (nonlinear_arith)
        requires
            j < n,
    ;
    assert(part_offset(i) == i * 1048576);
    assert(part_offset(j) == j * 1048576);
}

/// Draining from part `s` takes every part up to the first missing one, `m`.
proof fn lemma_drain_run(
    hashes: Seq<[u8; 32]>,
    p: Map<u64, [u8; 32]>,
    s: nat,
    m: nat,
    leaves: Seq<Seq<u8>>,
)
    requires
        p.dom().finite(),
        s <= m <= hashes.len(),
        hashes.len() * 1048576 <= u64::MAX,
        forall|u: nat|
            s <= u < m ==> #[trigger] p.contains_key(part_offset(u)) && p[part_offset(u)]
                == hashes[u as int],
        !p.contains_key(part_offset(m)),
        leaves == hash_views(hashes).take(s as int),
    ensures
        ({
            let r = drain(p, s * 1048576, leaves);
            &&& r.1 == m * 1048576
            &&& r.2 == hash_views(hashes).take(m as int)
            &&& r.0.dom().finite()
            &&& forall|key: u64|
                #[trigger] r.0.contains_key(key) <==> (p.contains_key(key) && !exists|u: nat|
                    s <= u < m && key == part_offset(u))
            &&& forall|key: u64| #[trigger] r.0.contains_key(key) ==> r.0[key] == p[key]
        }),
    decreases m - s,
{
    let tot = s * 1048576;
    if s == m {
        assert(part_offset(s) == tot as u64);
    } else {
        assert(part_offset(s) == tot as u64);
        assert(p.contains_key(part_offset(s)));
        let p2 = p.remove(part_offset(s));
        let leaves2 = leaves.push(p[tot as u64]@);
        assert(leaves2 =~= hash_views(hashes).take(s as int + 1));
        assert forall|u: nat| s + 1 <= u < m implies #[trigger] p2.contains_key(part_offset(u))
            && p2[part_offset(u)] == hashes[u as int] by {
            assert(p.contains_key(part_offset(u)));
            if part_offset(u) == part_offset(s) {
                lemma_offset_injective(u, s, hashes.len());
            }
        }
        if p2.contains_key(part_offset(m)) {
            assert(p.contains_key(part_offset(m)));
        }
        lemma_drain_run(hashes, p2, s + 1, m, leaves2);
        assert(((s + 1) * 1048576) == (tot + 1048576) as nat);
        let r = drain(p, tot, leaves);
        assert(r == drain(p2, (s + 1) * 1048576, leaves2));
        assert forall|key: u64| #[trigger] r.0.contains_key(key) <==> (p.contains_key(key)
            && !exists|u: nat| s <= u < m && key == part_offset(u)) by {
            if p.contains_key(key) && key != part_offset(s) {
                if exists|u: nat| s <= u < m && key == part_offset(u) {
                    let u = choose|u: nat| s <= u < m && key == part_offset(u);
                    assert(s + 1 <= u < m);
                }
            }
            if r.0.contains_key(key) {
                assert(p2.contains_key(key));
                if exists|u: nat| s <= u < m && key == part_offset(u) {
                    let u = choose|u: nat| s <= u < m && key == part_offset(u);
                    if u == s {
                    } else {
                        assert(s + 1 <= u < m);
                    }
                }
            }
        }
    }
}

proof fn lemma_next_missing(events: Seq<(u64, [u8; 32])>, k: int, s: nat, n: nat)
    requires
        s <= n,
    ensures
        s <= next_missing(events, k, s, n) <= n,
        next_missing(events, k, s, n) < n ==> !received(events, k, next_missing(events, k, s, n)),
        forall|u: nat| s <= u < next_missing(events, k, s, n) ==> #[trigger] received(events, k, u),
    decreases n - s,
{
    if s < n && received(events, k, s) {
        lemma_next_missing(events, k, s + 1, n);
        assert forall|u: nat| s <= u < next_missing(events, k, s, n) implies #[trigger] received(
            events,
            k,
            u,
        ) by {
            if u > s {
            }
        }
    }
}

proof fn lemma_received_step(events: Seq<(u64, [u8; 32])>, k: int, i: nat)
    requires
        0 <= k < events.len(),
    ensures
        received(events, k + 1, i) == (received(events, k, i) || events[k].0 == part_offset(i)),
{
    if received(events, k + 1, i) && events[k].0 != part_offset(i) {
        let j = choose|j: int| 0 <= j < k + 1 && #[trigger] events[j].0 == part_offset(i);
        assert(j < k);
    }
    if events[k].0 == part_offset(i) {
        assert(events[k].0 == part_offset(i));
    }
}

proof fn lemma_accept_prefix(events: Seq<(u64, [u8; 32])>, hashes: Seq<[u8; 32]>, k: int) -> (t:
    nat)
    requires
        0 <= k <= events.len(),
        events_of(events, hashes),
        hashes.len() * 1048576 <= u64::MAX,
    ensures
        collector_inv(events, hashes, k, accept_all(events.take(k)), t),
    decreases k,
{
    let n = hashes.len();
    if k == 0 {
        assert(events.take(0) =~= Seq::<(u64, [u8; 32])>::empty());
        let st = accept_all(events.take(0));
        assert(st.2 =~= hash_views(hashes).take(0));
        if n > 0 {
            assert(!received(events, 0, 0));
        }
        assert forall|i: nat| 0 < i < n && #[trigger] received(events, 0, i) implies st.0.contains_key(
            part_offset(i),
        ) by {}
        0
    } else {
        let t = lemma_accept_prefix(events, hashes, k - 1);
        let prev = accept_all(events.take(k - 1));
        assert(events.take(k).drop_last() =~= events.take(k - 1));
        let e = events[k - 1];
        assert(events.take(k).last() == e);
        let st = accept_all(events.take(k));
        assert(st == drain(prev.0.insert(e.0, e.1), prev.1, prev.2));
        let i = choose|i: nat| i < n && #[trigger] events[k - 1] == (part_offset(i), hashes[i as int]);
        let p1 = prev.0.insert(e.0, e.1);
        assert forall|u: nat| u < n implies #[trigger] received(events, k, u) == (received(
            events,
            k - 1,
            u,
        ) || u == i) by {
            lemma_received_step(events, k - 1, u);
            if events[k - 1].0 == part_offset(u) {
                lemma_offset_injective(u, i, n);
            }
        }
        assert(i < n);
        if i != t {
            // the part that is due is still missing: nothing is drained
            if p1.contains_key(part_offset(t)) {
                if part_offset(t) == part_offset(i) {
                    if t < n {
                        lemma_offset_injective(t, i, n);
                    } else {
                        assert(part_offset(i) < part_offset(t));
                    }
                } else {
                    assert(prev.0.contains_key(part_offset(t)));
                    let i2 = choose|i2: nat|
                        i2 < n && i2 != t && part_offset(t) == part_offset(i2) && received(
                            events,
                            k - 1,
                            i2,
                        ) && prev.0[part_offset(t)] == hashes[i2 as int];
                    if t < n {
                        lemma_offset_injective(t, i2, n);
                    } else {
                        assert(part_offset(i2) < part_offset(t));
                    }
                }
            }
            assert(part_offset(t) == (t * 1048576) as u64);
            assert(st == (p1, prev.1, prev.2));
            assert forall|key: u64| #[trigger] st.0.contains_key(key) implies exists|i3: nat|
                i3 < n && i3 != t && key == part_offset(i3) && received(events, k, i3) && st.0[key]
                    == hashes[i3 as int] by {
                if key == e.0 {
                    assert(received(events, k, i));
                } else {
                    assert(prev.0.contains_key(key));
                    let i3 = choose|i3: nat|
                        i3 < n && i3 != t && key == part_offset(i3) && received(events, k - 1, i3)
                            && prev.0[key] == hashes[i3 as int];
                    assert(received(events, k, i3));
                }
            }
            assert forall|u: nat| t < u < n && #[trigger] received(events, k, u) implies st.0.contains_key(
                part_offset(u),
            ) by {
                if u != i {
                    assert(received(events, k - 1, u));
                }
            }
            t
        } else {
            // the due part arrived: drain up to the next missing one
            assert(t < n);
            let m = next_missing(events, k, t, n);
            lemma_next_missing(events, k, t, n);
            assert forall|u: nat| t <= u < m implies #[trigger] p1.contains_key(part_offset(u))
                && p1[part_offset(u)] == hashes[u as int] by {
                assert(received(events, k, u));
                if u == t {
                } else {
                    assert(received(events, k - 1, u));
                    assert(prev.0.contains_key(part_offset(u)));
                    let i3 = choose|i3: nat|
                        i3 < n && i3 != t && part_offset(u) == part_offset(i3) && received(
                            events,
                            k - 1,
                            i3,
                        ) && prev.0[part_offset(u)] == hashes[i3 as int];
                    lemma_offset_injective(u, i3, n);
                    if part_offset(u) == part_offset(t) {
                        lemma_offset_injective(u, t, n);
                    }
                }
            }
            if p1.contains_key(part_offset(m)) {
                if part_offset(m) == part_offset(t) {
                    if m < n {
                        lemma_offset_injective(m, t, n);
                    }
                    assert(m > t);
                    assert(part_offset(t) < part_offset(m));
                } else {
                    assert(prev.0.contains_key(part_offset(m)));
                    let i3 = choose|i3: nat|
                        i3 < n && i3 != t && part_offset(m) == part_offset(i3) && received(
                            events,
                            k - 1,
                            i3,
                        ) && prev.0[part_offset(m)] == hashes[i3 as int];
                    if m < n {
                        lemma_offset_injective(m, i3, n);
                        assert(received(events, k, m));
                    } else {
                        assert(part_offset(i3) < part_offset(m));
                    }
                }
            }
            assert(p1.dom().finite());
            lemma_drain_run(hashes, p1, t, m, prev.2);
            let r = st;
            assert forall|key: u64| #[trigger] r.0.contains_key(key) implies exists|i3: nat|
                i3 < n && i3 != m && key == part_offset(i3) && received(events, k, i3) && r.0[key]
                    == hashes[i3 as int] by {
                assert(p1.contains_key(key));
                assert(!exists|u: nat| t <= u < m && key == part_offset(u));
                if key == e.0 {
                    assert(key == part_offset(t));
                    assert(false);
                } else {
                    assert(prev.0.contains_key(key));
                    let i3 = choose|i3: nat|
                        i3 < n && i3 != t && key == part_offset(i3) && received(events, k - 1, i3)
                            && prev.0[key] == hashes[i3 as int];
                    assert(received(events, k, i3));
                    if i3 == m {
                        assert(received(events, k, m));
                    }
                }
            }
            assert forall|u: nat| m < u < n && #[trigger] received(events, k, u) implies r.0.contains_key(
                part_offset(u),
            ) by {
                assert(u != i);
                assert(received(events, k - 1, u));
                assert(prev.0.contains_key(part_offset(u)));
                if exists|u2: nat| t <= u2 < m && part_offset(u) == part_offset(u2) {
                    let u2 = choose|u2: nat| t <= u2 < m && part_offset(u) == part_offset(u2);
                    lemma_offset_injective(u, u2, n);
                }
            }
            assert forall|u: nat| u < m implies #[trigger] received(events, k, u) by {
                if u < t {
                    assert(received(events, k - 1, u));
                }
            }
            m
        }
    }
}

/// The hash of part `i` is among the events.
pub open spec fn arrives(events: Seq<(u64, [u8; 32])>, hashes: Seq<[u8; 32]>, i: nat) -> bool {
    exists|j: int| 0 <= j < events.len() && #[trigger] events[j] == (part_offset(i), hashes[i as int])
}

/// Order independence: whatever order the hashes of parts `0..n` arrive in (each at least
/// once, repeats allowed), the collector hashes exactly those parts, in offset order.
pub proof fn lemma_collector_any_order(events: Seq<(u64, [u8; 32])>, hashes: Seq<[u8; 32]>)
    requires
        events_of(events, hashes),
        forall|i: nat| i < hashes.len() ==> #[trigger] arrives(events, hashes, i),
        hashes.len() * 1048576 <= u64::MAX,
    ensures
        accept_all(events).2 == hash_views(hashes),
        accept_all(events).1 == hashes.len() * 1048576,
{
    let n = hashes.len();
    let k = events.len() as int;
    let t = lemma_accept_prefix(events, hashes, k);
    assert(events.take(k) =~= events);
    if t < n {
        assert(arrives(events, hashes, t));
        let j = choose|j: int| 0 <= j < events.len() && #[trigger] events[j] == (
            part_offset(t),
            hashes[t as int],
        );
        assert(events[j].0 == part_offset(t));
        assert(received(events, k, t));
    }
    assert(hash_views(hashes).take(n as int) =~= hash_views(hashes));
}

} // verus!
