//! Arithmetic on powers of two: how a universe of `2^k` keys is split into
//! `2^ceil(k/2)` clusters of `2^floor(k/2)` keys each.

use vstd::arithmetic::div_mod::{lemma_fundamental_div_mod, lemma_fundamental_div_mod_converse};
use vstd::prelude::*;

verus! {

/// Two raised to the power `k`.
pub open spec fn two_pow(k: nat) -> nat
    decreases k,
{
    if k == 0 {
        1
    } else {
        2 * two_pow((k - 1) as nat)
    }
}

/// The binary logarithm of `n`, rounded down; zero for `n <= 1`.
pub open spec fn floor_log2(n: nat) -> nat
    decreases n,
{
    if n <= 1 {
        0
    } else {
        1 + floor_log2(n / 2)
    }
}

/// The binary logarithm of `n`, rounded up; zero for `n <= 1`.
pub open spec fn ceil_log2(n: nat) -> nat
    decreases n,
{
    if n <= 1 {
        0
    } else {
        1 + ceil_log2((n + 1) / 2)
    }
}

/// `n` is one of 1, 2, 4, 8, ...
pub open spec fn is_power_of_two(n: nat) -> bool {
    n == two_pow(floor_log2(n))
}

/// The smallest power of two that is at least `n`
/// (see [`lemma_round_up_is_least`]).
pub open spec fn round_up_to_power_of_two(n: nat) -> nat {
    two_pow(ceil_log2(n))
}

/// The size of one cluster of a universe of `u = 2^k` keys: `2^floor(k/2)`.
pub open spec fn spec_low_root(u: nat) -> nat {
    two_pow(floor_log2(u) / 2)
}

/// The number of clusters of a universe of `u = 2^k` keys: `2^ceil(k/2)`.
pub open spec fn spec_high_root(u: nat) -> nat {
    two_pow((floor_log2(u) + 1) / 2)
}

pub proof fn lemma_two_pow_positive(k: nat)
    ensures
        two_pow(k) >= 1,
    decreases k,
{
    if k > 0 {
        lemma_two_pow_positive((k - 1) as nat);
    }
}

pub proof fn lemma_two_pow_adds(a: nat, b: nat)
    ensures
        two_pow(a + b) == two_pow(a) * two_pow(b),
    decreases a,
{
    if a == 0 {
        assert(two_pow(a + b) == 1 * two_pow(b));
    } else {
        let a1 = (a - 1) as nat;
        lemma_two_pow_adds(a1, b);
        assert((a + b - 1) as nat == a1 + b);
        let x = two_pow(a1) as int;
        let y = two_pow(b) as int;
        assert(2 * (x * y) == (2 * x) * y) by (nonlinear_arith);
    }
}

pub proof fn lemma_two_pow_increases(a: nat, b: nat)
    ensures
        a <= b ==> two_pow(a) <= two_pow(b),
        a < b ==> 2 * two_pow(a) <= two_pow(b),
    decreases b,
{
    lemma_two_pow_positive(a);
    if a < b {
        lemma_two_pow_increases(a, (b - 1) as nat);
    }
}

pub proof fn lemma_floor_log2_of_two_pow(k: nat)
    ensures
        floor_log2(two_pow(k)) == k,
        is_power_of_two(two_pow(k)),
    decreases k,
{
    if k > 0 {
        lemma_floor_log2_of_two_pow((k - 1) as nat);
        lemma_two_pow_positive((k - 1) as nat);
        assert(two_pow(k) / 2 == two_pow((k - 1) as nat));
    }
}

pub proof fn lemma_floor_log2_bounds(n: nat)
    requires
        n >= 1,
    ensures
        two_pow(floor_log2(n)) <= n < 2 * two_pow(floor_log2(n)),
    decreases n,
{
    if n > 1 {
        lemma_floor_log2_bounds(n / 2);
    }
}

pub proof fn lemma_ceil_log2_bounds(n: nat)
    ensures
        n <= two_pow(ceil_log2(n)),
        ceil_log2(n) == 0 || two_pow((ceil_log2(n) - 1) as nat) < n,
    decreases n,
{
    if n > 1 {
        lemma_ceil_log2_bounds((n + 1) / 2);
    }
}

/// An exponent `k` with `2^(k-1) < n <= 2^k` is the rounded-up logarithm of `n`.
pub proof fn lemma_ceil_log2_unique(n: nat, k: nat)
    requires
        n <= two_pow(k),
        k == 0 || two_pow((k - 1) as nat) < n,
    ensures
        ceil_log2(n) == k,
    decreases k,
{
    if k > 0 {
        lemma_two_pow_positive((k - 1) as nat);
        if k > 1 {
            lemma_two_pow_positive((k - 2) as nat);
        }
        lemma_ceil_log2_unique((n + 1) / 2, (k - 1) as nat);
    }
}

/// `round_up_to_power_of_two(n)` is a power of two, is at least `n`, and no
/// power of two that is at least `n` is smaller.
pub proof fn lemma_round_up_is_least(n: nat, p: nat)
    ensures
        is_power_of_two(round_up_to_power_of_two(n)),
        n <= round_up_to_power_of_two(n),
        is_power_of_two(p) && n <= p ==> round_up_to_power_of_two(n) <= p,
{
    let c = ceil_log2(n);
    lemma_floor_log2_of_two_pow(c);
    lemma_ceil_log2_bounds(n);
    if is_power_of_two(p) && n <= p {
        let j = floor_log2(p);
        if j < c {
            lemma_two_pow_increases(j, (c - 1) as nat);
        } else {
            lemma_two_pow_increases(c, j);
        }
    }
}

/// Rounding a power of two up leaves it as it is.
pub proof fn lemma_round_up_of_power_of_two(p: nat)
    requires
        is_power_of_two(p),
    ensures
        round_up_to_power_of_two(p) == p,
{
    let j = floor_log2(p);
    if j > 0 {
        lemma_two_pow_positive((j - 1) as nat);
    }
    lemma_ceil_log2_unique(p, j);
}

/// More than half of `round_up_to_power_of_two(n)` lies below `n`, once it exceeds one.
pub proof fn lemma_round_up_is_tight(n: nat)
    ensures
        round_up_to_power_of_two(n) > 1 ==> round_up_to_power_of_two(n) < 2 * n,
{
    lemma_ceil_log2_bounds(n);
}

/// The upper half of the range of `usize` starts at a power of two, the
/// largest that a `usize` holds.
pub proof fn lemma_largest_power_of_two()
    ensures
        is_power_of_two((usize::MAX / 2 + 1) as nat),
{
    assert(two_pow(8) == 256) by {
        reveal_with_fuel(two_pow, 9);
    }
    lemma_two_pow_adds(8, 8);
    assert(two_pow(16) == 65536);
    assert(two_pow(15) == 32768);
    lemma_two_pow_adds(16, 15);
    assert(two_pow(31) == 0x8000_0000);
    assert(two_pow(32) == 0x1_0000_0000);
    lemma_two_pow_adds(32, 31);
    assert(two_pow(63) == 0x8000_0000_0000_0000);
    lemma_floor_log2_of_two_pow(31);
    lemma_floor_log2_of_two_pow(63);
    assert(usize::MAX == 0xffff_ffff || usize::MAX == 0xffff_ffff_ffff_ffff);
}

/// A size in the lower half of the range of `usize`, or at the start of
/// the upper half, rounds up to a power of two that a `usize` holds.
pub proof fn lemma_round_up_fits(n: nat)
    requires
        n <= usize::MAX / 2 + 1,
    ensures
        round_up_to_power_of_two(n) <= usize::MAX,
{
    lemma_largest_power_of_two();
    lemma_round_up_is_least(n, (usize::MAX / 2 + 1) as nat);
}

/// The two roots of a universe of more than two keys: their product is the
/// universe, both are powers of two, and
/// `2 <= low <= high <= u / 2`.
pub proof fn lemma_roots(u: nat)
    requires
        is_power_of_two(u),
        u > 2,
    ensures
        spec_high_root(u) * spec_low_root(u) == u,
        2 <= spec_low_root(u) <= spec_high_root(u),
        2 * spec_high_root(u) <= u,
        is_power_of_two(spec_low_root(u)),
        is_power_of_two(spec_high_root(u)),
{
    let k = floor_log2(u);
    let lo = k / 2;
    let hi = (k + 1) / 2;
    assert(k >= 2) by {
        if k < 2 {
            assert(two_pow(0) == 1);
            assert(two_pow(1) == 2);
        }
    }
    assert(hi + lo == k);
    lemma_two_pow_adds(hi, lo);
    lemma_two_pow_increases(1, lo);
    lemma_two_pow_increases(lo, hi);
    lemma_two_pow_increases(hi, k);
    assert(two_pow(1) == 2) by {
        assert(two_pow(0) == 1);
    }
    lemma_floor_log2_of_two_pow(lo);
    lemma_floor_log2_of_two_pow(hi);
}

/// A key `x` is the number of its cluster times the cluster size `d`, plus
/// its key within the cluster: splitting and composing again gives `x` back.
pub proof fn lemma_split(x: int, d: int)
    requires
        0 <= x,
        0 < d,
    ensures
        x == (x / d) * d + x % d,
        0 <= x % d < d,
        0 <= x / d <= x,
{
    lemma_fundamental_div_mod(x, d);
    let q = x / d;
    let r = x % d;
    assert(d * q == q * d) by (nonlinear_arith);
    assert(0 <= r < d) by (nonlinear_arith)
        requires
            0 <= x,
            0 < d,
            r == x % d,
    ;
    assert(0 <= q <= x) by (nonlinear_arith)
        requires
            x == q * d + r,
            0 <= r < d,
            0 <= x,
            0 < d,
    ;
}

/// Composing a cluster number `h` and a local key `l` and splitting again
/// gives `h` and `l` back.
pub proof fn lemma_join(h: int, l: int, d: int)
    requires
        0 <= h,
        0 <= l < d,
    ensures
        (h * d + l) / d == h,
        (h * d + l) % d == l,
        0 <= h * d + l,
{
    lemma_fundamental_div_mod_converse(h * d + l, d, h, l);
    assert(0 <= h * d) by (nonlinear_arith)
        requires
            0 <= h,
            0 < d,
    ;
}

/// Keys of a later cluster are larger than keys of an earlier one.
pub proof fn lemma_join_order(h1: int, l1: int, h2: int, l2: int, d: int)
    requires
        0 <= l1 < d,
        0 <= l2 < d,
        h1 < h2,
    ensures
        h1 * d + l1 < h2 * d + l2,
{
    assert((h1 + 1) * d <= h2 * d) by (nonlinear_arith)
        requires
            h1 + 1 <= h2,
            0 < d,
    ;
    assert((h1 + 1) * d == h1 * d + d) by (nonlinear_arith);
}

/// A key below `n * d` belongs to one of the first `n` clusters of size `d`.
pub proof fn lemma_split_bound(x: int, d: int, n: int)
    requires
        0 <= x < n * d,
        0 < d,
    ensures
        0 <= x / d < n,
{
    lemma_split(x, d);
    let q = x / d;
    if q >= n {
        assert(q * d >= n * d) by (nonlinear_arith)
            requires
                q >= n,
                0 < d,
        ;
    }
}

/// Computes the binary logarithm of `value`, rounded down.
fn ilog2(value: usize) -> (k: usize)
    requires
        value >= 1,
    ensures
        k == floor_log2(value as nat),
        k < value,
{
    let mut k: usize = 0;
    let mut v: usize = value;
    while v >= 2
        invariant
            v >= 1,
            k + v <= value,
            k + floor_log2(v as nat) == floor_log2(value as nat),
        decreases v,
    {
        v = v / 2;
        k = k + 1;
    }
    k
}

/// Computes `2^k` by repeated doubling.
fn pow2(k: usize) -> (r: usize)
    requires
        two_pow(k as nat) <= usize::MAX,
    ensures
        r == two_pow(k as nat),
{
    let mut r: usize = 1;
    let mut i: usize = 0;
    while i < k
        invariant
            i <= k,
            r == two_pow(i as nat),
            two_pow(k as nat) <= usize::MAX,
        decreases k - i,
    {
        proof {
            lemma_two_pow_increases(i as nat, k as nat);
        }
        r = r * 2;
        i = i + 1;
    }
    r
}

/// The number of clusters of a universe of `value` keys.
pub fn high_root(value: usize) -> (r: usize)
    requires
        value >= 1,
    ensures
        r == spec_high_root(value as nat),
{
    let k: usize = ilog2(value);
    proof {
        lemma_floor_log2_bounds(value as nat);
        lemma_two_pow_increases(((k + 1) / 2) as nat, k as nat);
    }
    pow2((k + 1) / 2)
}

/// The number of keys in one cluster of a universe of `value` keys.
pub fn low_root(value: usize) -> (r: usize)
    requires
        value >= 1,
    ensures
        r == spec_low_root(value as nat),
{
    let k: usize = ilog2(value);
    proof {
        lemma_floor_log2_bounds(value as nat);
        lemma_two_pow_increases((k / 2) as nat, k as nat);
    }
    pow2(k / 2)
}

/// The smallest power of two that is at least `n`.
pub fn next_power_of_two(n: usize) -> (r: usize)
    requires
        n <= usize::MAX / 2 + 1,
    ensures
        r == round_up_to_power_of_two(n as nat),
{
    proof {
        lemma_round_up_fits(n as nat);
    }
    let mut r: usize = 1;
    let ghost mut k: nat = 0;
    while r < n
        invariant
            r >= 1,
            r == two_pow(k),
            k == 0 || two_pow((k - 1) as nat) < n,
            round_up_to_power_of_two(n as nat) <= usize::MAX,
        decreases ceil_log2(n as nat) - k,
    {
        proof {
            let c = ceil_log2(n as nat);
            lemma_ceil_log2_bounds(n as nat);
            if c <= k {
                lemma_two_pow_increases(c, k);
            } else {
                lemma_two_pow_increases(k, c);
            }
            k = k + 1;
        }
        r = r * 2;
    }
    proof {
        lemma_ceil_log2_unique(n as nat, k);
    }
    r
}

} // verus!
