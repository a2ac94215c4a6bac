//! Fixed-point scalars: an `i64` holding `s` stands for the number `s / ONE`.
use vstd::arithmetic::div_mod::{
    lemma_div_is_ordered, lemma_div_multiples_vanish, lemma_fundamental_div_mod_converse,
};
use vstd::prelude::*;

verus! {

/// Raw units in one: scalars carry six decimal places.
pub const ONE: i64 = 1_000_000;

/// Largest magnitude of a coordinate that the geometry works with (512.0).
pub const LIMIT: i64 = 512_000_000;

/// The fixed-point product of two scalars, rounded down.
pub open spec fn fx_mul(a: int, b: int) -> int {
    (a * b) / (ONE as int)
}

/// The fixed-point quotient of two scalars, rounded down (for `b > 0`).
pub open spec fn fx_div(a: int, b: int) -> int {
    (a * (ONE as int)) / b
}

/// True when `v` fits in an `i64`.
pub open spec fn fits_i64(v: int) -> bool {
    i64::MIN <= v <= i64::MAX
}

/// `r` is the integer square root of `n`.
pub open spec fn is_floor_sqrt(r: int, n: int) -> bool {
    0 <= r && r * r <= n < (r + 1) * (r + 1)
}

/// The integer square root of a non-negative `n`.
pub open spec fn floor_sqrt(n: int) -> int {
    choose|r: int| is_floor_sqrt(r, n)
}

/// The integer square root is unique.
pub proof fn lemma_floor_sqrt_unique(r1: int, r2: int, n: int)
    requires
        is_floor_sqrt(r1, n),
        is_floor_sqrt(r2, n),
    ensures
        r1 == r2,
{
    if r1 < r2 {
        assert((r1 + 1) * (r1 + 1) <= r2 * r2) by (nonlinear_arith)
            requires
                0 <= r1,
                r1 + 1 <= r2,
        ;
    } else if r2 < r1 {
        assert((r2 + 1) * (r2 + 1) <= r1 * r1) by (nonlinear_arith)
            requires
                0 <= r2,
                r2 + 1 <= r1,
        ;
    }
}

/// Every non-negative integer has an integer square root.
pub proof fn lemma_floor_sqrt_exists(n: int)
    requires
        n >= 0,
    ensures
        is_floor_sqrt(floor_sqrt(n), n),
    decreases n,
{
    if n == 0 {
        assert(is_floor_sqrt(0, 0));
    } else {
        lemma_floor_sqrt_exists(n - 1);
        let r = floor_sqrt(n - 1);
        if (r + 1) * (r + 1) <= n {
            assert(n < (r + 2) * (r + 2)) by (nonlinear_arith)
                requires
                    n - 1 < (r + 1) * (r + 1),
                    r >= 0,
            ;
            assert(is_floor_sqrt(r + 1, n));
        } else {
            assert(is_floor_sqrt(r, n));
        }
    }
}

/// `x == d * (x / d) + x % d`.
pub proof fn lemma_fundamental_div_mod(x: int, d: int)
    requires
        d != 0,
    ensures
        x == d * (x / d) + x % d,
{
    vstd::arithmetic::div_mod::lemma_fundamental_div_mod(x, d);
}

/// `0 <= x % d < d` for positive `d`.
pub proof fn lemma_mod_pos_bound(x: int, d: int)
    requires
        d > 0,
    ensures
        0 <= x % d < d,
{
    vstd::arithmetic::div_mod::lemma_mod_bound(x, d);
}

/// A square bound gives a bound on the value.
pub proof fn lemma_sq_le(x: int, y: int)
    requires
        0 <= y,
        x * x <= y * y,
    ensures
        -y <= x <= y,
{
    if x > y {
        assert(x * x > y * y) by (nonlinear_arith)
            requires
                x > y,
                y >= 0,
        ;
    }
    if x < -y {
        assert(x * x > y * y) by (nonlinear_arith)
            requires
                x < -y,
                y >= 0,
        ;
    }
}

/// Division by a positive number keeps order.
pub proof fn lemma_div_is_ordered_int(x: int, y: int, z: int)
    requires
        x <= y,
        0 < z,
    ensures
        x / z <= y / z,
{
    lemma_div_is_ordered(x, y, z);
}

/// Whenever a witness exists, `floor_sqrt` is that witness.
pub proof fn lemma_floor_sqrt_is(r: int, n: int)
    requires
        is_floor_sqrt(r, n),
    ensures
        floor_sqrt(n) == r,
{
    lemma_floor_sqrt_unique(floor_sqrt(n), r, n);
}

/// A bound on a product from bounds on its factors.
pub proof fn lemma_mul_abs_bound(a: int, b: int, ka: int, kb: int)
    requires
        -ka <= a <= ka,
        -kb <= b <= kb,
    ensures
        -(ka * kb) <= a * b <= ka * kb,
{
    assert(-(ka * kb) <= a * b <= ka * kb) by (nonlinear_arith)
        requires
            -ka <= a <= ka,
            -kb <= b <= kb,
    ;
}

/// Bounds on a quotient from bounds on its dividend.
pub proof fn lemma_div_bounds(a: int, lo: int, hi: int, d: int)
    requires
        d > 0,
        lo * d <= a <= hi * d,
    ensures
        lo <= a / d <= hi,
{
    lemma_div_is_ordered(lo * d, a, d);
    lemma_div_is_ordered(a, hi * d, d);
    lemma_div_multiples_vanish(lo, d);
    lemma_div_multiples_vanish(hi, d);
    assert(d * lo == lo * d && d * hi == hi * d) by (nonlinear_arith);
}

/// Division rounded toward negative infinity.
pub fn div_floor(a: i128, b: i128) -> (r: i128)
    requires
        b > 0,
        a > i128::MIN,
    ensures
        r == a / b,
{
    if a >= 0 {
        a / b
    } else {
        let m = -a - 1;
        let q = m / b;
        proof {
            let rem = m % b;
            lemma_fundamental_div_mod(m as int, b as int);
            lemma_mod_pos_bound(m as int, b as int);
            assert(m == q * b + rem) by (nonlinear_arith)
                requires
                    m == b * q + rem,
            ;
            assert(a == (-q - 1) * b + (b - 1 - rem)) by (nonlinear_arith)
                requires
                    m == q * b + rem,
                    a == -m - 1,
            ;
            lemma_fundamental_div_mod_converse(a as int, b as int, -q - 1, b - 1 - rem);
        }
        -q - 1
    }
}

/// Integer square root of `n`, by bisection.
pub fn isqrt(n: u128) -> (r: u128)
    requires
        n < 0x4000_0000_0000_0000_0000_0000_0000_0000u128,
    ensures
        is_floor_sqrt(r as int, n as int),
        r as int == floor_sqrt(n as int),
        r < 0x8000_0000_0000_0000u128,
{
    let mut lo: u128 = 0;
    let mut hi: u128 = 0x8000_0000_0000_0000u128;
    assert(hi * hi == 0x4000_0000_0000_0000_0000_0000_0000_0000u128);
    while hi - lo > 1
        invariant
            lo < hi <= 0x8000_0000_0000_0000u128,
            lo * lo <= n,
            n < hi * hi,
        decreases hi - lo,
    {
        let mid = lo + (hi - lo) / 2;
        assert(mid * mid <= 0x4000_0000_0000_0000_0000_0000_0000_0000u128) by (nonlinear_arith)
            requires
                mid < 0x8000_0000_0000_0000u128,
        ;
        if mid * mid <= n {
            lo = mid;
        } else {
            hi = mid;
        }
    }
    proof {
        lemma_floor_sqrt_is(lo as int, n as int);
    }
    lo
}

/// The fixed-point product of `a` and `b`, rounded down.
pub fn mul_fixed(a: i64, b: i64) -> (r: i64)
    requires
        fits_i64(fx_mul(a as int, b as int)),
    ensures
        r == fx_mul(a as int, b as int),
{
    proof {
        lemma_mul_abs_bound(a as int, b as int, 0x8000_0000_0000_0000, 0x8000_0000_0000_0000);
    }
    let p = (a as i128) * (b as i128);
    div_floor(p, ONE as i128) as i64
}

/// The fixed-point quotient of `a` by a positive `b`, rounded down.
pub fn div_fixed(a: i64, b: i64) -> (r: i64)
    requires
        b > 0,
        fits_i64(fx_div(a as int, b as int)),
    ensures
        r == fx_div(a as int, b as int),
{
    proof {
        lemma_mul_abs_bound(a as int, ONE as int, 0x8000_0000_0000_0000, ONE as int);
    }
    let p = (a as i128) * (ONE as i128);
    div_floor(p, b as i128) as i64
}

} // verus!
