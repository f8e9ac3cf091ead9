use vstd::prelude::*;

verus! {

/// `2^e`.
pub open spec fn pow2(e: nat) -> nat
    decreases e,
{
    if e == 0 {
        1
    } else {
        2 * pow2((e - 1) as nat)
    }
}

/// `x` is a multiple of `2^e`.
pub open spec fn pow2_divides(x: nat, e: nat) -> bool
    decreases e,
{
    if e == 0 {
        true
    } else {
        x % 2 == 0 && pow2_divides(x / 2, (e - 1) as nat)
    }
}

/// Number of trailing zero bits of `n` (only meaningful for `n > 0`).
pub open spec fn trailing_zeros(n: nat) -> nat
    decreases n,
{
    if n == 0 || n % 2 == 1 {
        0
    } else {
        1 + trailing_zeros(n / 2)
    }
}

/// Index of the highest set bit of `n`, i.e. `floor(log2(n))` (0 for `n <= 1`).
pub open spec fn log2(n: nat) -> nat
    decreases n,
{
    if n <= 1 {
        0
    } else {
        1 + log2(n / 2)
    }
}

pub proof fn lemma_pow2_pos(e: nat)
    ensures
        pow2(e) >= 1,
    decreases e,
{
    if e > 0 {
        lemma_pow2_pos((e - 1) as nat);
    }
}

pub proof fn lemma_pow2_le(a: nat, b: nat)
    requires
        a <= b,
    ensures
        pow2(a) <= pow2(b),
    decreases b,
{
    if a < b {
        lemma_pow2_le(a, (b - 1) as nat);
        lemma_pow2_pos((b - 1) as nat);
    }
}

pub proof fn lemma_pow2_lt(a: nat, b: nat)
    requires
        a < b,
    ensures
        pow2(a) < pow2(b),
{
    lemma_pow2_le(a, (b - 1) as nat);
    lemma_pow2_pos((b - 1) as nat);
}

pub proof fn lemma_pow2_64()
    ensures
        pow2(64) == 0x1_0000_0000_0000_0000,
        pow2(20) == 0x10_0000,
{
    reveal_with_fuel(pow2, 65);
}

/// Divisibility by `2^a` implies divisibility by every smaller power of two.
pub proof fn lemma_divides_weaken(x: nat, a: nat, b: nat)
    requires
        pow2_divides(x, a),
        b <= a,
    ensures
        pow2_divides(x, b),
    decreases b,
{
    if b > 0 {
        lemma_divides_weaken(x / 2, (a - 1) as nat, (b - 1) as nat);
    }
}

pub proof fn lemma_divides_add(x: nat, y: nat, e: nat)
    requires
        pow2_divides(x, e),
        pow2_divides(y, e),
    ensures
        pow2_divides(x + y, e),
    decreases e,
{
    if e > 0 {
        assert((x + y) / 2 == x / 2 + y / 2);
        lemma_divides_add(x / 2, y / 2, (e - 1) as nat);
    }
}

pub proof fn lemma_divides_sub(x: nat, y: nat, e: nat)
    requires
        pow2_divides(x, e),
        pow2_divides(y, e),
        y <= x,
    ensures
        pow2_divides((x - y) as nat, e),
    decreases e,
{
    if e > 0 {
        assert(((x - y) as nat) / 2 == x / 2 - y / 2);
        lemma_divides_sub(x / 2, y / 2, (e - 1) as nat);
    }
}

pub proof fn lemma_divides_pow2(a: nat, b: nat)
    requires
        b <= a,
    ensures
        pow2_divides(pow2(a), b),
    decreases b,
{
    if b > 0 {
        assert(pow2(a) / 2 == pow2((a - 1) as nat));
        lemma_divides_pow2((a - 1) as nat, (b - 1) as nat);
    }
}

/// A positive multiple of `2^e` is at least `2^e`.
pub proof fn lemma_divides_lower_bound(x: nat, e: nat)
    requires
        pow2_divides(x, e),
        x > 0,
    ensures
        pow2(e) <= x,
    decreases e,
{
    if e > 0 {
        lemma_divides_lower_bound(x / 2, (e - 1) as nat);
    }
}

pub proof fn lemma_divides_zero(e: nat)
    ensures
        pow2_divides(0, e),
    decreases e,
{
    if e > 0 {
        lemma_divides_zero((e - 1) as nat);
    }
}

/// `2^tz(n)` divides `n`, and `2^(tz(n)+1)` does not.
pub proof fn lemma_trailing_zeros(n: nat)
    requires
        n > 0,
    ensures
        pow2_divides(n, trailing_zeros(n)),
        !pow2_divides(n, trailing_zeros(n) + 1),
    decreases n,
{
    if n % 2 == 0 {
        lemma_trailing_zeros(n / 2);
    }
}

/// `2^d` divides a positive `n` exactly when `d <= tz(n)`.
pub proof fn lemma_divides_iff_trailing_zeros(n: nat, d: nat)
    requires
        n > 0,
    ensures
        pow2_divides(n, d) <==> d <= trailing_zeros(n),
{
    lemma_trailing_zeros(n);
    if d <= trailing_zeros(n) {
        lemma_divides_weaken(n, trailing_zeros(n), d);
    } else if pow2_divides(n, d) {
        lemma_divides_weaken(n, d, trailing_zeros(n) + 1);
    }
}

pub proof fn lemma_trailing_zeros_unique(n: nat, d: nat)
    requires
        n > 0,
        pow2_divides(n, d),
        !pow2_divides(n, d + 1),
    ensures
        trailing_zeros(n) == d,
{
    lemma_divides_iff_trailing_zeros(n, d);
    lemma_divides_iff_trailing_zeros(n, d + 1);
}

/// Adding `2^e` to a multiple of `2^(e+1)` gives a number with exactly `e` trailing zeros.
pub proof fn lemma_trailing_zeros_add_pow2(x: nat, e: nat)
    requires
        pow2_divides(x, e + 1),
    ensures
        trailing_zeros(x + pow2(e)) == e,
        pow2_divides(x, e),
{
    lemma_divides_weaken(x, e + 1, e);
    lemma_divides_pow2(e, e);
    lemma_divides_add(x, pow2(e), e);
    lemma_pow2_pos(e);
    if pow2_divides(x + pow2(e), e + 1) {
        lemma_divides_sub(x + pow2(e), x, e + 1);
        lemma_divides_lower_bound(pow2(e), e + 1);
    }
    lemma_trailing_zeros_unique(x + pow2(e), e);
}

/// Removing the lowest set bit of `n` leaves a multiple of `2^(tz(n)+1)`.
pub proof fn lemma_remove_lowest_bit(n: nat)
    requires
        n > 0,
    ensures
        pow2(trailing_zeros(n)) <= n,
        pow2_divides((n - pow2(trailing_zeros(n))) as nat, trailing_zeros(n) + 1),
    decreases n,
{
    lemma_trailing_zeros(n);
    lemma_divides_lower_bound(n, trailing_zeros(n));
    if n % 2 == 1 {
        assert(trailing_zeros(n) == 0);
        assert(pow2(0) == 1);
        assert(((n - 1) as nat) % 2 == 0);
        assert(pow2_divides((((n - 1) as nat) / 2) as nat, 0));
    } else {
        let t = trailing_zeros(n);
        lemma_remove_lowest_bit(n / 2);
        assert(t == 1 + trailing_zeros(n / 2));
        assert(pow2(t) == 2 * pow2((t - 1) as nat));
        assert(((n - pow2(t)) as nat) / 2 == (n / 2 - pow2((t - 1) as nat)) as nat);
        assert(((n - pow2(t)) as nat) % 2 == 0);
        assert(t + 1 - 1 == t);
    }
}

/// `tz(a + b) == tz(b)` when `a` is a multiple of a power of two above the lowest bit of `b`.
pub proof fn lemma_trailing_zeros_of_sum(a: nat, b: nat, k: nat)
    requires
        b > 0,
        pow2_divides(a, k),
        k > trailing_zeros(b),
    ensures
        trailing_zeros(a + b) == trailing_zeros(b),
{
    let t = trailing_zeros(b);
    lemma_trailing_zeros(b);
    lemma_divides_weaken(a, k, t);
    lemma_divides_add(a, b, t);
    if pow2_divides(a + b, t + 1) {
        lemma_divides_weaken(a, k, t + 1);
        lemma_divides_sub(a + b, a, t + 1);
    }
    lemma_trailing_zeros_unique(a + b, t);
}

pub proof fn lemma_log2_bounds(n: nat)
    requires
        n >= 1,
    ensures
        pow2(log2(n)) <= n < pow2(log2(n) + 1),
    decreases n,
{
    if n > 1 {
        lemma_log2_bounds(n / 2);
    }
}

pub proof fn lemma_log2_unique(n: nat, d: nat)
    requires
        pow2(d) <= n < pow2(d + 1),
    ensures
        log2(n) == d,
    decreases d,
{
    lemma_pow2_pos(d);
    if d > 0 {
        lemma_log2_unique(n / 2, (d - 1) as nat);
    } else {
        assert(n == 1);
    }
}

pub proof fn lemma_log2_monotone(x: nat, y: nat)
    requires
        1 <= x <= y,
    ensures
        log2(x) <= log2(y),
{
    lemma_log2_bounds(x);
    lemma_log2_bounds(y);
    if log2(x) > log2(y) {
        lemma_pow2_le(log2(y) + 1, log2(x));
    }
}

pub proof fn lemma_trailing_zeros_le_log2(n: nat)
    requires
        n >= 1,
    ensures
        trailing_zeros(n) <= log2(n),
{
    lemma_trailing_zeros(n);
    lemma_divides_lower_bound(n, trailing_zeros(n));
    lemma_log2_bounds(n);
    if trailing_zeros(n) > log2(n) {
        lemma_pow2_le(log2(n) + 1, trailing_zeros(n));
    }
}

/// A multiple of `2^e` below `2^e` is zero.
pub proof fn lemma_divides_small(x: nat, e: nat)
    requires
        pow2_divides(x, e),
        x < pow2(e),
    ensures
        x == 0,
{
    if x > 0 {
        lemma_divides_lower_bound(x, e);
    }
}


/// `2^(a + b) = 2^a * 2^b`.
pub proof fn lemma_pow2_add(a: nat, b: nat)
    ensures
        pow2(a + b) == pow2(a) * pow2(b),
    decreases b,
{
    if b > 0 {
        let b1 = (b - 1) as nat;
        lemma_pow2_add(a, b1);
        assert(pow2(a + b) == 2 * pow2(a + b1));
        assert(pow2(b) == 2 * pow2(b1));
        assert(pow2(a) * pow2(b) == 2 * (pow2(a) * pow2(b1))) by (nonlinear_arith)
            requires
                pow2(b) == 2 * pow2(b1),
        ;
    } else {
        assert(pow2(a) * 1 == pow2(a)) by (nonlinear_arith);
    }
}


/// `s * 2^j` is a multiple of `2^j`.
pub proof fn lemma_pow2_divides_mul(s: nat, j: nat)
    ensures
        pow2_divides(s * pow2(j), j),
    decreases j,
{
    if j > 0 {
        let j1 = (j - 1) as nat;
        assert(pow2(j) == 2 * pow2(j1));
        assert(s * pow2(j) == 2 * (s * pow2(j1))) by (nonlinear_arith)
            requires
                pow2(j) == 2 * pow2(j1),
        ;
        lemma_pow2_divides_mul(s, j1);
        assert((s * pow2(j)) / 2 == s * pow2(j1));
    }
}


/// `x` is a multiple of `2^e` exactly when `x % 2^e == 0`.
pub proof fn lemma_pow2_divides_mod(x: nat, e: nat)
    ensures
        pow2_divides(x, e) <==> x % pow2(e) == 0,
    decreases e,
{
    lemma_pow2_pos(e);
    if e > 0 {
        let e1 = (e - 1) as nat;
        lemma_pow2_divides_mod(x / 2, e1);
        lemma_pow2_pos(e1);
        assert(pow2(e) == 2 * pow2(e1));
        vstd::arithmetic::div_mod::lemma_mod_breakdown(x as int, 2, pow2(e1) as int);
    }
}

} // verus!
