use vstd::prelude::*;

pub mod arn;
pub mod bits;
pub mod digest;
pub mod hexcode;
pub mod text;
pub mod tier;
pub mod tree_hash;
pub mod vault;

use crate::util::bits::{
    lemma_log2_bounds, lemma_log2_unique, lemma_pow2_64, lemma_pow2_add, lemma_pow2_le, lemma_pow2_pos, log2,
    pow2,
};

verus! {

/// The most parts that a multipart upload may have.
pub const MAX_PARTS: u64 = 10000;

/// Largest part size that Glacier accepts for a multipart upload: 4 GiB.
pub const MAX_PART_SIZE: u64 = 4294967296;

/// Smallest part size used for an upload: 1 MiB.
pub const MIN_PART_SIZE: u64 = 1048576;

/// `ceil(a / b)`.
pub open spec fn div_ceil(a: nat, b: nat) -> nat {
    ((a + b - 1) / (b as int)) as nat
}

/// The smallest power of two that is at least `x` (1 for `x <= 1`).
pub open spec fn next_pow2(x: nat) -> nat {
    if x <= 1 {
        1
    } else {
        pow2(log2((x - 1) as nat) + 1)
    }
}

/// Part size for an upload of `size` bytes: the smallest power of two that splits it into
/// at most `MAX_PARTS` parts, and at least `MIN_PART_SIZE`; except that an upload of
/// exactly `MAX_PARTS` times `MIN_PART_SIZE` bytes is given its own size.
pub open spec fn spec_part_size(size: nat) -> nat {
    let p = next_pow2(div_ceil(size, MAX_PARTS as nat));
    if size == MAX_PARTS * MIN_PART_SIZE {
        size
    } else if p >= MIN_PART_SIZE {
        p
    } else {
        MIN_PART_SIZE as nat
    }
}

/// Smallest power of two that is at least `x`, for `x` below `2^62`.
fn next_power_of_two(x: u64) -> (res: u64)
    requires
        x <= 0x4000_0000_0000_0000,
    ensures
        res == next_pow2(x as nat),
{
    let mut p: u64 = 1;
    let ghost mut e: nat = 0;
    proof {
        lemma_pow2_64();
        reveal_with_fuel(pow2, 1);
    }
    while p < x
        invariant
            p == pow2(e),
            e == 0 || pow2((e - 1) as nat) < x,
            e <= 62,
            x <= 0x4000_0000_0000_0000,
        decreases 64 - e,
    {
        proof {
            lemma_pow2_64();
            if e >= 62 {
                lemma_pow2_le(62, e);
                reveal_with_fuel(pow2, 63);
                assert(pow2(62) == 0x4000_0000_0000_0000) by {
                    reveal_with_fuel(pow2, 63);
                }
            }
        }
        p = p * 2;
        proof {
            e = e + 1;
        }
    }
    proof {
        if x >= 2 {
            assert(e > 0);
            lemma_log2_unique((x - 1) as nat, (e - 1) as nat);
        } else if e > 0 {
            lemma_pow2_pos((e - 1) as nat);
        }
    }
    p
}

/// Part size to use for an upload of `size` bytes.
pub fn part_size_for_size(size: u64) -> (res: u64)
    requires
        size + (MAX_PARTS - 1) <= u64::MAX,
    ensures
        res == spec_part_size(size as nat),
{
    let min_part_size: u64 = MIN_PART_SIZE;
    let max_parts: u64 = MAX_PARTS;
    if size == max_parts * min_part_size {
        return size;
    }
    let part_size = (size + (max_parts - 1)) / max_parts;
    let p = next_power_of_two(part_size);
    if p >= min_part_size {
        p
    } else {
        min_part_size
    }
}

/// The part size is at least 1 MiB and splits the upload into at most `MAX_PARTS` parts.
/// Apart from the upload of exactly `MAX_PARTS` MiB, it is a power of two, and for an upload
/// that fits in `MAX_PARTS` parts of `MAX_PART_SIZE` it is at most `MAX_PART_SIZE`: a part
/// size that Glacier accepts (1 MiB times a power of two, up to 4 GiB).
pub proof fn lemma_part_size_bounds(size: nat)
    ensures
        spec_part_size(size) >= MIN_PART_SIZE,
        size <= MAX_PARTS * spec_part_size(size),
        div_ceil(size, spec_part_size(size)) <= MAX_PARTS,
        size != MAX_PARTS * MIN_PART_SIZE ==> exists|e: nat| spec_part_size(size) == pow2(e),
        size != MAX_PARTS * MIN_PART_SIZE && size <= MAX_PARTS * MAX_PART_SIZE ==> spec_part_size(
            size,
        ) <= MAX_PART_SIZE,
{
    if size == MAX_PARTS * MIN_PART_SIZE {
        assert(div_ceil(size, size) == 1);
    } else {
        let c = div_ceil(size, MAX_PARTS as nat);
        let p = next_pow2(c);
        lemma_pow2_64();
        assert(c * 10000 >= size) by (nonlinear_arith)
            requires
                c == (size + 9999) / 10000,
        ;
        if c >= 2 {
            lemma_log2_bounds((c - 1) as nat);
            assert(p >= c);
        }
        assert(p >= c);
        let q = spec_part_size(size);
        assert(q >= p);
        if q == p {
            if c <= 1 {
                assert(q == pow2(0));
            } else {
                assert(q == pow2(log2((c - 1) as nat) + 1));
            }
        } else {
            assert(q == pow2(20));
        }
        assert(size <= 10000 * q) by (nonlinear_arith)
            requires
                c * 10000 >= size,
                q >= c,
        ;
        assert(div_ceil(size, q) <= 10000) by (nonlinear_arith)
            requires
                size <= 10000 * q,
                q >= 1,
                div_ceil(size, q) == (size + q - 1) / (q as int),
        ;
        if size <= 10000 * 4294967296 {
            assert(c <= 4294967296);
            assert(pow2(12) == 4096) by {
                reveal_with_fuel(pow2, 13);
            }
            lemma_pow2_add(20, 12);
            if c >= 2 {
                lemma_log2_bounds((c - 1) as nat);
                let l = log2((c - 1) as nat);
                if l >= 32 {
                    lemma_pow2_le(32, l);
                }
                lemma_pow2_le(l + 1, 32);
            }
        }
    }
}

} // verus!
