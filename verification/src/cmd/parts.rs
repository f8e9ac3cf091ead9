use vstd::prelude::*;

use crate::cmd::download::{assemble, chunk_count, chunk_end, chunk_hashes, DownloadedPart};
use crate::util::bits::{lemma_pow2_pos, pow2};
use vstd::relations::injective_on;
use vstd::set_lib::{lemma_int_range, lemma_len_subset, lemma_map_size, set_int_range};
use crate::util::tree_hash::aligned::lemma_aligned_merge;
use crate::util::digest::{group_hashes, lemma_tree_hash_of_groups, tree_hash};
use crate::util::tree_hash::sequential::SequentialTreeHashError;
use crate::util::tree_hash::{chain_hashes, chain_len, lemma_consecutive_parts_chain, HashLeaf};

verus! {

/// Bytes in a part of `2^j` MiB.
pub open spec fn chunk_bytes(j: nat) -> nat {
    pow2(j) * 1048576
}

/// Number of parts of `c` bytes that `len` bytes split into (the last may be shorter).
pub open spec fn part_count(len: nat, c: nat) -> nat {
    ((len + c - 1) / (c as int)) as nat
}

/// Where part `i` of parts of `c` bytes starts in `len` bytes (`len` past the last part).
pub open spec fn part_start(len: nat, c: nat, i: nat) -> nat {
    if i * c < len {
        i * c
    } else {
        len
    }
}

/// The bytes of part `i` of `data`, split into parts of `c` bytes.
pub open spec fn part_data(data: Seq<u8>, c: nat, i: nat) -> Seq<u8> {
    data.subrange(part_start(data.len(), c, i) as int, part_start(data.len(), c, i + 1) as int)
}

/// The data of the first `t` parts of `data`, one entry per part.
pub open spec fn pieces(data: Seq<u8>, c: nat, t: nat) -> Seq<Seq<u8>> {
    Seq::new(t, |i: int| part_data(data, c, i as nat))
}

/// `p` is part `i` of `data` in parts of `c` bytes, as a download worker builds it with
/// `DownloadedPart::new`.
pub open spec fn is_part_of(p: DownloadedPart, data: Seq<u8>, c: nat, i: nat) -> bool {
    &&& i < part_count(data.len(), c)
    &&& p.wf()
    &&& p.spec_offset() == i * c
    &&& p.spec_data() == part_data(data, c, i)
    &&& p.tree().start() == p.spec_offset() / 1048576
    &&& p.tree()@ == chunk_hashes(p.spec_data())
}

/// State of an assembler, as `(pending, written, leaves, data written, whether a merge
/// failed)`, after it accepted `parts` in order, starting empty.
pub open spec fn accept_parts(parts: Seq<DownloadedPart>) -> (
    Map<u64, DownloadedPart>,
    nat,
    Seq<Seq<u8>>,
    Seq<Seq<u8>>,
    bool,
)
    decreases parts.len(),
{
    if parts.len() == 0 {
        (Map::empty(), 0, Seq::empty(), Seq::empty(), false)
    } else {
        let s = accept_parts(parts.drop_last());
        let p = parts.last();
        let r = assemble(s.0.insert(p.spec_offset(), p), s.1, s.2, Seq::empty());
        (r.0, r.1, r.2, s.3 + r.3, s.4 || r.4 is Some)
    }
}

proof fn lemma_part_count(len: nat, c: nat, i: nat)
    requires
        c > 0,
    ensures
        i < part_count(len, c) <==> i * c < len,
{
    let x = len + c - 1;
    let n = part_count(len, c);
    assert(n * c <= x && x < n * c + c) by (nonlinear_arith)
        requires
            c > 0,
            x >= 0,
            n == x / (c as int),
    ;
    if i < n {
        assert(i * c + c <= n * c) by (nonlinear_arith)
            requires
                i + 1 <= n,
                c > 0,
        ;
    } else {
        assert(n * c <= i * c) by (nonlinear_arith)
            requires
                n <= i,
                c > 0,
        ;
    }
}

proof fn lemma_mul_mono(a: nat, b: nat, c: nat)
    requires
        a < b,
        c > 0,
    ensures
        a * c < b * c,
        a * c + c <= b * c,
{
    assert(a * c + c <= b * c) by (nonlinear_arith)
        requires
            a + 1 <= b,
            c > 0,
    ;
}

/// Parts `i` and `i + 1` are next to each other, and part `i` holds at most `c` bytes.
proof fn lemma_part_bounds(len: nat, c: nat, i: nat)
    requires
        c > 0,
        i * c < len,
    ensures
        part_start(len, c, i) == i * c,
        part_start(len, c, i + 1) == (if (i + 1) * c < len {
            (i + 1) * c
        } else {
            len
        }),
        i * c < part_start(len, c, i + 1) <= i * c + c,
{
    assert((i + 1) * c == i * c + c) by (nonlinear_arith);
}

/// Hashing chunks of `a + b` is hashing those of `a`, then those of `b`, when `a` is made of
/// whole chunks.
proof fn lemma_chunk_hashes_concat(a: Seq<u8>, b: Seq<u8>, q: nat)
    requires
        a.len() == q * 1048576,
    ensures
        chunk_hashes(a + b) == chunk_hashes(a) + chunk_hashes(b),
{
    let ab = a + b;
    let la = a.len();
    let lb = b.len();
    assert(chunk_count(la) == q);
    assert(chunk_count(ab.len()) == q + chunk_count(lb));
    let lhs = chunk_hashes(ab);
    let rhs = chunk_hashes(a) + chunk_hashes(b);
    assert(lhs.len() == rhs.len());
    assert forall|k: int| 0 <= k < lhs.len() implies lhs[k] == rhs[k] by {
        if k < q {
            assert(chunk_end(k as nat, ab.len()) == (k + 1) * 1048576);
            assert(chunk_end(k as nat, la) == (k + 1) * 1048576);
            assert(ab.subrange(k * 1048576, (k + 1) * 1048576) =~= a.subrange(
                k * 1048576,
                (k + 1) * 1048576,
            ));
        } else {
            let k2 = k - q;
            assert(chunk_end(k as nat, ab.len()) == la + chunk_end(k2 as nat, lb));
            assert(ab.subrange(k * 1048576, chunk_end(k as nat, ab.len()) as int) =~= b.subrange(
                k2 * 1048576,
                chunk_end(k2 as nat, lb) as int,
            ));
        }
    }
    assert(lhs =~= rhs);
}


/// Where part `i` of parts of `c` bytes waits while it is pending.
pub open spec fn part_key(c: nat, i: nat) -> u64 {
    (i * c) as u64
}

/// The data of parts `s` up to `m`, one entry per part.
pub open spec fn pieces_between(data: Seq<u8>, c: nat, s: nat, m: nat) -> Seq<Seq<u8>> {
    Seq::new((m - s) as nat, |k: int| part_data(data, c, (s + k) as nat))
}

proof fn lemma_key_injective(len: nat, c: nat, i: nat, k: nat)
    requires
        c > 0,
        len <= u64::MAX,
        i * c < len,
        k * c < len,
        part_key(c, i) == part_key(c, k),
    ensures
        i == k,
{
    if i < k {
        lemma_mul_mono(i, k, c);
    } else if k < i {
        lemma_mul_mono(k, i, c);
    }
}

/// Draining from part `s`, whose data starts where the written data ends, takes every part
/// up to the first one that is missing, `m`; each merges without error.
proof fn lemma_assemble_run(
    data: Seq<u8>,
    c: nat,
    p: Map<u64, DownloadedPart>,
    s: nat,
    m: nat,
    out: Seq<Seq<u8>>,
)
    requires
        c > 0,
        c % 1048576 == 0,
        data.len() <= u64::MAX,
        p.dom().finite(),
        s <= m <= part_count(data.len(), c),
        forall|u: nat|
            s <= u < m ==> #[trigger] p.contains_key(part_key(c, u)) && is_part_of(
                p[part_key(c, u)],
                data,
                c,
                u,
            ),
        !p.contains_key(part_start(data.len(), c, m) as u64),
    ensures
        ({
            let start = part_start(data.len(), c, s);
            let r = assemble(p, start, chunk_hashes(data.take(start as int)), out);
            &&& r.4 is None
            &&& r.1 == part_start(data.len(), c, m)
            &&& r.2 == chunk_hashes(data.take(part_start(data.len(), c, m) as int))
            &&& r.3 == out + pieces_between(data, c, s, m)
            &&& r.0.dom().finite()
            &&& forall|key: u64|
                #[trigger] r.0.contains_key(key) <==> (p.contains_key(key) && !exists|u: nat|
                    s <= u < m && key == part_key(c, u))
            &&& forall|key: u64| #[trigger] r.0.contains_key(key) ==> r.0[key] == p[key]
        }),
    decreases m - s,
{
    let len = data.len();
    let start = part_start(len, c, s);
    let leaves = chunk_hashes(data.take(start as int));
    if s == m {
        assert(pieces_between(data, c, s, m) =~= Seq::<Seq<u8>>::empty());
        assert(out + pieces_between(data, c, s, m) =~= out);
    } else {
        lemma_part_count(len, c, s);
        lemma_part_bounds(len, c, s);
        assert(start == s * c);
        let key = part_key(c, s);
        assert(key == start as u64);
        let part = p[key];
        assert(is_part_of(part, data, c, s));
        let rest = p.remove(key);
        let next = part_start(len, c, s + 1);
        assert(part.spec_data().len() == next - start);
        // the part merges after the leaves before it
        let q = s * (c / 1048576);
        assert(start == q * 1048576) by (nonlinear_arith)
            requires
                start == s * c,
                c % 1048576 == 0,
                q == s * (c / 1048576),
        ;
        assert(data.take(start as int).len() == start);
        assert(leaves.len() == q);
        part.lemma_wf();
        assert(part.tree().start() == q);
        lemma_aligned_merge(leaves, part.tree());
        let merged = (
            Ok::<(), SequentialTreeHashError>(()),
            leaves + part.tree()@,
        );
        assert(data.take(next as int) =~= data.take(start as int) + part.spec_data());
        lemma_chunk_hashes_concat(data.take(start as int), part.spec_data(), q);
        assert(merged.1 == chunk_hashes(data.take(next as int)));
        // the rest of the run
        assert forall|u: nat| s + 1 <= u < m implies #[trigger] rest.contains_key(part_key(c, u))
            && is_part_of(rest[part_key(c, u)], data, c, u) by {
            assert(p.contains_key(part_key(c, u)));
            lemma_part_count(len, c, u);
            if part_key(c, u) == key {
                lemma_key_injective(len, c, u, s);
            }
        }
        assert(!rest.contains_key(part_start(len, c, m) as u64));
        let out2 = out.push(part.spec_data());
        lemma_assemble_run(data, c, rest, s + 1, m, out2);
        assert(assemble(p, start, leaves, out) == assemble(rest, next, merged.1, out2));
        assert(out2 + pieces_between(data, c, s + 1, m) =~= out + pieces_between(data, c, s, m));
        let r = assemble(p, start, leaves, out);
        assert forall|k: u64| #[trigger] r.0.contains_key(k) <==> (p.contains_key(k)
            && !exists|u: nat| s <= u < m && k == part_key(c, u)) by {
            if p.contains_key(k) && k != key {
                if exists|u: nat| s <= u < m && k == part_key(c, u) {
                    let u = choose|u: nat| s <= u < m && k == part_key(c, u);
                    assert(s + 1 <= u < m);
                }
            }
            if r.0.contains_key(k) {
                assert(rest.contains_key(k));
                if exists|u: nat| s <= u < m && k == part_key(c, u) {
                    let u = choose|u: nat| s <= u < m && k == part_key(c, u);
                    if u != s {
                        assert(s + 1 <= u < m);
                    }
                }
            }
        }
    }
}


/// Part `i` (of parts of `c` bytes) is among the first `k` parts that arrived.
pub open spec fn part_received(events: Seq<DownloadedPart>, c: nat, k: int, i: nat) -> bool {
    exists|x: int| 0 <= x < k && #[trigger] events[x].spec_offset() == i * c
}

/// The first part at or after `s` (and before `n`) that is not among the first `k` that
/// arrived, or `n`.
pub open spec fn next_missing_part(events: Seq<DownloadedPart>, c: nat, k: int, s: nat, n: nat) -> nat
    decreases n - s,
{
    if s >= n || !part_received(events, c, k, s) {
        s
    } else {
        next_missing_part(events, c, k, s + 1, n)
    }
}

/// Every part that arrives is a part of `data`, in parts of `c` bytes.
pub open spec fn parts_of(events: Seq<DownloadedPart>, data: Seq<u8>, c: nat) -> bool {
    forall|x: int|
        #![trigger events[x]]
        0 <= x < events.len() ==> exists|i: nat| #[trigger] is_part_of(events[x], data, c, i)
}

/// What holds of an assembler after the first `k` parts arrived: the first `t` parts are
/// written and hashed in order, part `t` has not arrived, every part after `t` that arrived is
/// pending, and every pending part is a part other than `t` that arrived.
pub open spec fn assembler_inv(
    events: Seq<DownloadedPart>,
    data: Seq<u8>,
    c: nat,
    k: int,
    st: (Map<u64, DownloadedPart>, nat, Seq<Seq<u8>>, Seq<Seq<u8>>, bool),
    t: nat,
) -> bool {
    let n = part_count(data.len(), c);
    &&& t <= n
    &&& st.1 == part_start(data.len(), c, t)
    &&& st.0.dom().finite()
    &&& st.2 == chunk_hashes(data.take(part_start(data.len(), c, t) as int))
    &&& st.3 == pieces(data, c, t)
    &&& !st.4
    &&& forall|i: nat| i < t ==> #[trigger] part_received(events, c, k, i)
    &&& t < n ==> !part_received(events, c, k, t)
    &&& forall|key: u64|
        #[trigger] st.0.contains_key(key) ==> exists|i: nat|
            i < n && i != t && key == part_key(c, i) && part_received(events, c, k, i)
                && is_part_of(st.0[key], data, c, i)
    &&& forall|i: nat|
        t < i < n && #[trigger] part_received(events, c, k, i) ==> st.0.contains_key(
            part_key(c, i),
        )
}

proof fn lemma_next_missing_part(events: Seq<DownloadedPart>, c: nat, k: int, s: nat, n: nat)
    requires
        s <= n,
    ensures
        s <= next_missing_part(events, c, k, s, n) <= n,
        next_missing_part(events, c, k, s, n) < n ==> !part_received(
            events,
            c,
            k,
            next_missing_part(events, c, k, s, n),
        ),
        forall|u: nat|
            s <= u < next_missing_part(events, c, k, s, n) ==> #[trigger] part_received(
                events,
                c,
                k,
                u,
            ),
    decreases n - s,
{
    if s < n && part_received(events, c, k, s) {
        lemma_next_missing_part(events, c, k, s + 1, n);
        assert forall|u: nat| s <= u < next_missing_part(events, c, k, s, n) implies #[trigger] part_received(
            events,
            c,
            k,
            u,
        ) by {
            if u > s {
            }
        }
    }
}

proof fn lemma_part_received_step(events: Seq<DownloadedPart>, c: nat, k: int, i: nat)
    requires
        0 <= k < events.len(),
    ensures
        part_received(events, c, k + 1, i) == (part_received(events, c, k, i)
            || events[k].spec_offset() == i * c),
{
    if part_received(events, c, k + 1, i) && events[k].spec_offset() != i * c {
        let x = choose|x: int| 0 <= x < k + 1 && #[trigger] events[x].spec_offset() == i * c;
        assert(x < k);
    }
    if events[k].spec_offset() == i * c {
        assert(events[k].spec_offset() == i * c);
    }
}

/// Every key that waits in an assembler's map is below the end of the data.
proof fn lemma_keys_below_end(len: nat, c: nat, i: nat)
    requires
        c > 0,
        len <= u64::MAX,
        i < part_count(len, c),
    ensures
        part_key(c, i) == i * c,
        part_key(c, i) < len,
        part_key(c, i) != part_start(len, c, part_count(len, c)),
{
    lemma_part_count(len, c, i);
    let n = part_count(len, c);
    lemma_part_count(len, c, n);
}

proof fn lemma_accept_parts_prefix(events: Seq<DownloadedPart>, data: Seq<u8>, c: nat, k: int) -> (t: nat)
    requires
        c > 0,
        c % 1048576 == 0,
        0 <= k <= events.len(),
        parts_of(events, data, c),
        data.len() <= u64::MAX,
    ensures
        assembler_inv(events, data, c, k, accept_parts(events.take(k)), t),
    decreases k,
{
    let len = data.len();
    let n = part_count(len, c);
    if k == 0 {
        assert(events.take(0) =~= Seq::<DownloadedPart>::empty());
        let st = accept_parts(events.take(0));
        assert(part_start(len, c, 0) == 0);
        assert(data.take(0) =~= Seq::<u8>::empty());
        assert(chunk_hashes(Seq::<u8>::empty()) =~= Seq::<Seq<u8>>::empty());
        assert(pieces(data, c, 0) =~= Seq::<Seq<u8>>::empty());
        if n > 0 {
            assert(!part_received(events, c, 0, 0));
        }
        0
    } else {
        let t = lemma_accept_parts_prefix(events, data, c, k - 1);
        let prev = accept_parts(events.take(k - 1));
        assert(events.take(k).drop_last() =~= events.take(k - 1));
        let e = events[k - 1];
        assert(events.take(k).last() == e);
        let p1 = prev.0.insert(e.spec_offset(), e);
        let r = assemble(p1, prev.1, prev.2, Seq::empty());
        let st = accept_parts(events.take(k));
        assert(st == (r.0, r.1, r.2, prev.3 + r.3, prev.4 || r.4 is Some));
        assert(exists|i: nat| #[trigger] is_part_of(events[k - 1], data, c, i));
        let i = choose|i: nat| #[trigger] is_part_of(events[k - 1], data, c, i);
        lemma_keys_below_end(len, c, i);
        assert(e.spec_offset() == part_key(c, i));
        assert forall|u: nat| u < n implies #[trigger] part_received(events, c, k, u) == (
        part_received(events, c, k - 1, u) || u == i) by {
            lemma_part_received_step(events, c, k - 1, u);
            if events[k - 1].spec_offset() == u * c {
                lemma_part_count(len, c, u);
                lemma_part_count(len, c, i);
                lemma_key_injective(len, c, u, i);
            }
        }
        if i != t {
            // the part that is due is still missing: nothing is written
            if t < n {
                lemma_part_count(len, c, t);
                lemma_part_bounds(len, c, t);
                assert(part_start(len, c, t) as u64 == part_key(c, t));
            } else {
                lemma_keys_below_end(len, c, i);
            }
            if p1.contains_key(part_start(len, c, t) as u64) {
                let key = part_start(len, c, t) as u64;
                if key == e.spec_offset() {
                    if t < n {
                        lemma_part_count(len, c, i);
                        lemma_key_injective(len, c, t, i);
                    }
                } else {
                    assert(prev.0.contains_key(key));
                    let i2 = choose|i2: nat|
                        i2 < n && i2 != t && key == part_key(c, i2) && part_received(
                            events,
                            c,
                            k - 1,
                            i2,
                        ) && is_part_of(prev.0[key], data, c, i2);
                    lemma_keys_below_end(len, c, i2);
                    if t < n {
                        lemma_part_count(len, c, i2);
                        lemma_key_injective(len, c, t, i2);
                    }
                }
            }
            assert(r == (p1, prev.1, prev.2, Seq::<Seq<u8>>::empty(), None::<SequentialTreeHashError>));
            assert(prev.3 + Seq::<Seq<u8>>::empty() =~= prev.3);
            assert forall|key: u64| #[trigger] st.0.contains_key(key) implies exists|i3: nat|
                i3 < n && i3 != t && key == part_key(c, i3) && part_received(events, c, k, i3)
                    && is_part_of(st.0[key], data, c, i3) by {
                if key == e.spec_offset() {
                    assert(part_received(events, c, k, i));
                } else {
                    assert(prev.0.contains_key(key));
                    let i3 = choose|i3: nat|
                        i3 < n && i3 != t && key == part_key(c, i3) && part_received(
                            events,
                            c,
                            k - 1,
                            i3,
                        ) && is_part_of(prev.0[key], data, c, i3);
                    assert(part_received(events, c, k, i3));
                }
            }
            assert forall|u: nat| t < u < n && #[trigger] part_received(events, c, k, u) implies st.0.contains_key(
                part_key(c, u),
            ) by {
                if u != i {
                    assert(part_received(events, c, k - 1, u));
                }
            }
            assert forall|u: nat| u < t implies #[trigger] part_received(events, c, k, u) by {
                assert(part_received(events, c, k - 1, u));
            }
            t
        } else {
            // the due part arrived: write up to the next missing one
            assert(t < n);
            let m = next_missing_part(events, c, k, t, n);
            lemma_next_missing_part(events, c, k, t, n);
            assert forall|u: nat| t <= u < m implies #[trigger] p1.contains_key(part_key(c, u))
                && is_part_of(p1[part_key(c, u)], data, c, u) by {
                assert(part_received(events, c, k, u));
                lemma_keys_below_end(len, c, u);
                if u != t {
                    assert(part_received(events, c, k - 1, u));
                    assert(prev.0.contains_key(part_key(c, u)));
                    let i3 = choose|i3: nat|
                        i3 < n && i3 != t && part_key(c, u) == part_key(c, i3) && part_received(
                            events,
                            c,
                            k - 1,
                            i3,
                        ) && is_part_of(prev.0[part_key(c, u)], data, c, i3);
                    lemma_part_count(len, c, u);
                    lemma_part_count(len, c, i3);
                    lemma_key_injective(len, c, u, i3);
                    if part_key(c, u) == e.spec_offset() {
                        lemma_part_count(len, c, t);
                        lemma_key_injective(len, c, u, t);
                    }
                }
            }
            let endkey = part_start(len, c, m) as u64;
            if p1.contains_key(endkey) {
                if m < n {
                    lemma_part_count(len, c, m);
                    lemma_part_bounds(len, c, m);
                    assert(endkey == part_key(c, m));
                    if endkey == e.spec_offset() {
                        lemma_part_count(len, c, t);
                        lemma_key_injective(len, c, m, t);
                    } else {
                        assert(prev.0.contains_key(endkey));
                        let i3 = choose|i3: nat|
                            i3 < n && i3 != t && endkey == part_key(c, i3) && part_received(
                                events,
                                c,
                                k - 1,
                                i3,
                            ) && is_part_of(prev.0[endkey], data, c, i3);
                        lemma_part_count(len, c, i3);
                        lemma_key_injective(len, c, m, i3);
                        assert(part_received(events, c, k, m));
                    }
                } else {
                    if endkey != e.spec_offset() {
                        assert(prev.0.contains_key(endkey));
                        let i3 = choose|i3: nat|
                            i3 < n && i3 != t && endkey == part_key(c, i3) && part_received(
                                events,
                                c,
                                k - 1,
                                i3,
                            ) && is_part_of(prev.0[endkey], data, c, i3);
                        lemma_keys_below_end(len, c, i3);
                    }
                }
            }
            lemma_part_count(len, c, t);
            lemma_part_bounds(len, c, t);
            assert(prev.1 == part_start(len, c, t));
            lemma_assemble_run(data, c, p1, t, m, Seq::empty());
            assert(Seq::<Seq<u8>>::empty() + pieces_between(data, c, t, m) =~= pieces_between(
                data,
                c,
                t,
                m,
            ));
            assert(pieces(data, c, t) + pieces_between(data, c, t, m) =~= pieces(data, c, m));
            assert forall|key: u64| #[trigger] st.0.contains_key(key) implies exists|i3: nat|
                i3 < n && i3 != m && key == part_key(c, i3) && part_received(events, c, k, i3)
                    && is_part_of(st.0[key], data, c, i3) by {
                assert(p1.contains_key(key));
                assert(!exists|u: nat| t <= u < m && key == part_key(c, u));
                if key == e.spec_offset() {
                    assert(key == part_key(c, t));
                    assert(false);
                } else {
                    assert(prev.0.contains_key(key));
                    let i3 = choose|i3: nat|
                        i3 < n && i3 != t && key == part_key(c, i3) && part_received(
                            events,
                            c,
                            k - 1,
                            i3,
                        ) && is_part_of(prev.0[key], data, c, i3);
                    assert(part_received(events, c, k, i3));
                    if i3 == m {
                        assert(part_received(events, c, k, m));
                    }
                }
            }
            assert forall|u: nat| m < u < n && #[trigger] part_received(events, c, k, u) implies st.0.contains_key(
                part_key(c, u),
            ) by {
                assert(u != i);
                assert(part_received(events, c, k - 1, u));
                assert(prev.0.contains_key(part_key(c, u)));
                if exists|u2: nat| t <= u2 < m && part_key(c, u) == part_key(c, u2) {
                    let u2 = choose|u2: nat| t <= u2 < m && part_key(c, u) == part_key(c, u2);
                    lemma_part_count(len, c, u);
                    lemma_part_count(len, c, u2);
                    lemma_key_injective(len, c, u, u2);
                }
            }
            assert forall|u: nat| u < m implies #[trigger] part_received(events, c, k, u) by {
                if u < t {
                    assert(part_received(events, c, k - 1, u));
                }
            }
            m
        }
    }
}


proof fn lemma_pieces_flatten(data: Seq<u8>, c: nat, t: nat)
    requires
        c > 0,
    ensures
        pieces(data, c, t).flatten() == data.take(part_start(data.len(), c, t) as int),
    decreases t,
{
    let len = data.len();
    if t == 0 {
        assert(pieces(data, c, 0) =~= Seq::<Seq<u8>>::empty());
        assert(part_start(len, c, 0) == 0);
        assert(data.take(0) =~= Seq::<u8>::empty());
    } else {
        let t1 = (t - 1) as nat;
        lemma_pieces_flatten(data, c, t1);
        assert(pieces(data, c, t) =~= pieces(data, c, t1).push(part_data(data, c, t1)));
        pieces(data, c, t1).lemma_flatten_push(part_data(data, c, t1));
        assert(t1 * c + c == t * c) by (nonlinear_arith)
            requires
                t == t1 + 1,
        ;
        assert(part_start(len, c, t1) <= part_start(len, c, t) <= len);
        assert(data.take(part_start(len, c, t1) as int) + part_data(data, c, t1) =~= data.take(
            part_start(len, c, t) as int,
        ));
    }
}

/// Some part that arrives is part `i` of `data`.
pub open spec fn part_arrives(events: Seq<DownloadedPart>, data: Seq<u8>, c: nat, i: nat) -> bool {
    exists|x: int| 0 <= x < events.len() && #[trigger] is_part_of(events[x], data, c, i)
}

/// Reassembly: whatever order the parts of a download of `data` in parts of `c` bytes, a
/// whole number of MiB, arrive in (each part at least once, repeats allowed), the assembler writes out the parts in offset
/// order, so that what it writes, put together, is `data`; every part merges into the tree
/// hash without error, and the tree then holds the hashes of the 1 MiB chunks of `data`.
pub proof fn lemma_assembler_any_order(events: Seq<DownloadedPart>, data: Seq<u8>, c: nat)
    requires
        c > 0,
        c % 1048576 == 0,
        data.len() <= u64::MAX,
        parts_of(events, data, c),
        forall|i: nat|
            i < part_count(data.len(), c) ==> #[trigger] part_arrives(
                events,
                data,
                c,
                i,
            ),
    ensures
        ({
            let r = accept_parts(events);
            &&& !r.4
            &&& r.1 == data.len()
            &&& r.2 == chunk_hashes(data)
            &&& r.3 == pieces(data, c, part_count(data.len(), c))
            &&& r.3.flatten() == data
        }),
{
    let len = data.len();
    let n = part_count(len, c);
    let k = events.len() as int;
    let t = lemma_accept_parts_prefix(events, data, c, k);
    assert(events.take(k) =~= events);
    if t < n {
        assert(part_arrives(events, data, c, t));
        let x = choose|x: int| 0 <= x < events.len() && #[trigger] is_part_of(events[x], data, c, t);
        assert(events[x].spec_offset() == t * c);
        assert(part_received(events, c, k, t));
    }
    assert(t == n);
    lemma_part_count(len, c, n);
    assert(part_start(len, c, n) == len);
    assert(data.take(len as int) =~= data);
    lemma_pieces_flatten(data, c, n);
}


/// The tree hashes of the 1 MiB chunks of `data`, grouped `2^k` chunks at a time, are the
/// tree hashes of the chunks of each part of `2^k` MiB.
proof fn lemma_groups_are_parts(data: Seq<u8>, k: nat)
    requires
        data.len() > 0,
    ensures
        group_hashes(chunk_hashes(data), pow2(k)) == Seq::new(
            part_count(data.len(), chunk_bytes(k)),
            |i: int| tree_hash(chunk_hashes(part_data(data, chunk_bytes(k), i as nat))),
        ),
    decreases data.len(),
{
    let c = chunk_bytes(k);
    let g = pow2(k);
    let len = data.len();
    let n = part_count(len, c);
    lemma_pow2_pos(k);
    let l = chunk_hashes(data);
    let target = Seq::new(n, |i: int| tree_hash(chunk_hashes(part_data(data, c, i as nat))));
    lemma_part_count(len, c, 0);
    lemma_part_count(len, c, 1);
    assert(0 * c == 0 && 1 * c == c) by (nonlinear_arith);
    if len <= c {
        assert(chunk_count(len) <= g) by (nonlinear_arith)
            requires
                len <= g * 1048576,
                chunk_count(len) == (len + 1048575) / 1048576,
        ;
        assert(n == 1);
        assert(part_start(len, c, 0) == 0);
        assert(part_start(len, c, 1) == len);
        assert(part_data(data, c, 0) =~= data);
        assert(group_hashes(l, g) == seq![tree_hash(l)]);
        assert(group_hashes(l, g) =~= target);
    } else {
        let front = data.take(c as int);
        let back = data.skip(c as int);
        assert(front.len() == g * 1048576);
        assert(data =~= front + back);
        lemma_chunk_hashes_concat(front, back, g);
        assert(chunk_count(c) == g);
        assert(chunk_hashes(front).len() == g);
        assert(l.take(g as int) =~= chunk_hashes(front));
        assert(l.skip(g as int) =~= chunk_hashes(back));
        assert(l.len() > g);
        assert(group_hashes(l, g) == seq![tree_hash(l.take(g as int))] + group_hashes(
            l.skip(g as int),
            g,
        ));
        lemma_groups_are_parts(back, k);
        let n2 = part_count(back.len(), c);
        // the parts of the rest are the parts of `data` after the first
        assert forall|i: nat| #[trigger] part_start(back.len(), c, i) + c == part_start(
            len,
            c,
            i + 1,
        ) by {
            assert((i + 1) * c == i * c + c) by (nonlinear_arith);
        }
        lemma_part_count(back.len(), c, n2);
        lemma_part_count(len, c, n2 + 1);
        if n2 > 0 {
            lemma_part_count(back.len(), c, (n2 - 1) as nat);
            lemma_part_count(len, c, n2);
            assert(((n2 - 1) as nat + 1) * c == (n2 - 1) * c + c) by (nonlinear_arith)
                requires
                    n2 >= 1,
            ;
        }
        assert((n2 + 1) * c == n2 * c + c) by (nonlinear_arith);
        assert(n == n2 + 1);
        assert(part_data(data, c, 0) =~= front);
        assert forall|i: int| 0 <= i < n2 implies #[trigger] part_data(back, c, i as nat) =~= part_data(
            data,
            c,
            (i + 1) as nat,
        ) by {
            assert(part_start(back.len(), c, i as nat) + c == part_start(len, c, (i + 1) as nat));
            assert(part_start(back.len(), c, (i + 1) as nat) + c == part_start(
                len,
                c,
                (i + 2) as nat,
            ));
        }
        assert(group_hashes(l, g) =~= target);
    }
}

/// Upload: when the leaves are the parts of `data` in parts of `2^k` MiB (each starting where
/// the one before it stops, the last one stopping at the end of `data`) and each leaf's hash
/// is the tree hash of its part's 1 MiB chunks, the leaves chain without a gap, and the tree
/// hash over their hashes in offset order is the tree hash of all the chunks of `data`.
pub proof fn lemma_upload_tree_hash(m: Map<u64, HashLeaf>, data: Seq<u8>, k: nat)
    requires
        0 < data.len() <= u64::MAX,
        forall|i: nat|
            i < part_count(data.len(), chunk_bytes(k)) ==> #[trigger] m.contains_key(
                part_key(chunk_bytes(k), i),
            ) && m[part_key(chunk_bytes(k), i)].stop == part_start(data.len(), chunk_bytes(k), i + 1)
                && m[part_key(chunk_bytes(k), i)].hash@ == tree_hash(
                chunk_hashes(part_data(data, chunk_bytes(k), i)),
            ),
    ensures
        chain_len(m, 0, part_count(data.len(), chunk_bytes(k))) == part_count(
            data.len(),
            chunk_bytes(k),
        ),
        tree_hash(chain_hashes(m, part_count(data.len(), chunk_bytes(k)))) == tree_hash(
            chunk_hashes(data),
        ),
{
    let c = chunk_bytes(k);
    let len = data.len();
    let n = part_count(len, c);
    lemma_pow2_pos(k);
    lemma_part_count(len, c, 0);
    assert(0 * c == 0) by (nonlinear_arith);
    assert(n > 0);
    // the part size as an offset; with a single part, no offset but 0 is used
    let ps: u64 = if c <= u64::MAX {
        c as u64
    } else {
        0
    };
    if n >= 2 {
        lemma_part_count(len, c, 1);
        assert(ps == c);
    }
    assert forall|i: nat| i < n implies part_key(c, i) == (i * ps) as u64 by {
        if i == 0 {
            assert(i * ps == 0 && i * c == 0) by (nonlinear_arith)
                requires
                    i == 0,
            ;
        }
    }
    assert forall|i: nat| i < n implies #[trigger] m.contains_key((i * ps) as u64) by {
        assert(part_key(c, i) == (i * ps) as u64);
    }
    assert forall|i: nat| i + 1 < n implies #[trigger] m[(i * ps) as u64].stop == ((i + 1)
        * ps) as u64 by {
        assert(part_key(c, i) == (i * ps) as u64);
        assert(m.contains_key(part_key(c, i)));
        lemma_part_count(len, c, i + 1);
        lemma_part_bounds(len, c, i + 1);
        assert(ps == c);
    }
    lemma_consecutive_parts_chain(m, ps, n);
    lemma_groups_are_parts(data, k);
    let hashes = Seq::new(n, |i: int| m[(i * ps) as u64].hash@);
    assert(hashes =~= group_hashes(chunk_hashes(data), pow2(k))) by {
        assert forall|i: int| 0 <= i < n implies hashes[i] == tree_hash(
            chunk_hashes(part_data(data, c, i as nat)),
        ) by {
            assert(part_key(c, i as nat) == (i * ps) as u64);
            assert(m.contains_key(part_key(c, i as nat)));
        }
    }
    assert(chunk_hashes(data).len() > 0);
    lemma_tree_hash_of_groups(chunk_hashes(data), k);
}


/// A part holds at most `c` bytes.
pub proof fn lemma_part_at_most_chunk(data: Seq<u8>, c: nat, i: nat)
    requires
        c > 0,
    ensures
        part_data(data, c, i).len() <= c,
{
    let len = data.len();
    assert((i + 1) * c == i * c + c) by (nonlinear_arith);
}

/// Where the chunk `i` chunks of `c` bytes past `written` starts.
pub open spec fn chunk_past(written: nat, c: nat, i: nat) -> nat {
    written + i * c
}

/// Memory bound: when every part downloaded but not yet written starts a whole number of
/// chunks of `c` bytes past the `written` bytes, fewer than `workers` chunks past them (which
/// `may_hand_out` ensures for each part it lets out, since the written count never falls),
/// there are at most `workers` such parts; each holds at most `c` bytes, so together they
/// hold at most `workers * c` bytes.
pub proof fn lemma_outstanding_parts(offsets: Set<nat>, written: nat, workers: nat, c: nat)
    requires
        c > 0,
        offsets.finite(),
        forall|o: nat|
            #[trigger] offsets.contains(o) ==> exists|i: nat|
                i < workers && o == #[trigger] chunk_past(written, c, i),
    ensures
        offsets.len() <= workers,
        offsets.len() * c <= workers * c,
{
    let f = |o: nat| ((o - written) / (c as int)) as int;
    let y = offsets.map(f);
    assert forall|o: nat| #[trigger] offsets.contains(o) implies 0 <= f(o) < workers && o
        == written + f(o) * c by {
        let i = choose|i: nat| i < workers && o == #[trigger] chunk_past(written, c, i);
        assert(((i * c) as int) / (c as int) == i) by (nonlinear_arith)
            requires
                c > 0,
        ;
        assert(o - written == i * c);
    }
    assert(injective_on(f, offsets)) by {
        assert forall|o1: nat, o2: nat|
            offsets.contains(o1) && offsets.contains(o2) && #[trigger] f(o1) == #[trigger] f(
                o2,
            ) implies o1 == o2 by {}
    }
    lemma_map_size(offsets, y, f);
    assert(y.subset_of(set_int_range(0, workers as int))) by {
        assert forall|v: int| #[trigger] y.contains(v) implies set_int_range(
            0,
            workers as int,
        ).contains(v) by {
            let o = choose|o: nat| offsets.contains(o) && f(o) == v;
        }
    }
    lemma_int_range(0, workers as int);
    lemma_len_subset(y, set_int_range(0, workers as int));
    assert(offsets.len() * c <= workers * c) by (nonlinear_arith)
        requires
            offsets.len() <= workers,
    ;
}

} // verus!
