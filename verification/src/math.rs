//! Integer arithmetic shared by the stages: powers of two, division that rounds
//! up, and row-major positions.

use vstd::arithmetic::power2::*;
use vstd::bits::*;
use vstd::prelude::*;

verus! {

/// `a / b` rounded up, for `b > 0` and any `a`.
pub open spec fn ceil_div(a: int, b: int) -> int {
    (a + b - 1) / b
}

/// The larger of two integers.
pub open spec fn max_int(a: int, b: int) -> int {
    if a >= b {
        a
    } else {
        b
    }
}

/// The smaller of two integers.
pub open spec fn min_int(a: int, b: int) -> int {
    if a <= b {
        a
    } else {
        b
    }
}

/// `ceil_div` is the least multiple count that reaches `a`.
pub proof fn lemma_ceil_div(a: int, b: int)
    requires
        b > 0,
    ensures
        b * (ceil_div(a, b) - 1) < a <= b * ceil_div(a, b),
        a >= 0 ==> ceil_div(a, b) >= 0,
        a > 0 ==> ceil_div(a, b) > 0,
        ceil_div(a, b) == a / b + (if a % b == 0 { 0int } else { 1int }),
{
    let n = a + b - 1;
    vstd::arithmetic::div_mod::lemma_fundamental_div_mod(n, b);
    vstd::arithmetic::div_mod::lemma_fundamental_div_mod(a, b);
    vstd::arithmetic::div_mod::lemma_mod_bound(n, b);
    vstd::arithmetic::div_mod::lemma_mod_bound(a, b);
    let q = n / b;
    let r = n % b;
    assert(n == b * q + r);
    assert(b * (q - 1) == b * q - b) by (nonlinear_arith);
    if a >= 0 {
        vstd::arithmetic::div_mod::lemma_div_pos_is_pos(n, b);
    }
    if a > 0 {
        vstd::arithmetic::div_mod::lemma_div_non_zero(n, b);
    }
    if a % b == 0 {
        assert(n == b * (a / b) + (b - 1));
        vstd::arithmetic::div_mod::lemma_fundamental_div_mod_converse(n, b, a / b, b - 1);
    } else {
        assert(b * (a / b + 1) == b * (a / b) + b) by (nonlinear_arith);
        vstd::arithmetic::div_mod::lemma_fundamental_div_mod_converse(n, b, a / b + 1, a % b - 1);
    }
}

/// `ceil_div` is the only count that reaches `a` without a spare step.
pub proof fn lemma_ceil_div_unique(a: int, b: int, q: int)
    requires
        b > 0,
        b * (q - 1) < a <= b * q,
    ensures
        ceil_div(a, b) == q,
{
    assert(b * (q - 1) == b * q - b && b * q == q * b) by (nonlinear_arith);
    vstd::arithmetic::div_mod::lemma_fundamental_div_mod_converse(
        a + b - 1,
        b,
        q,
        a + b - 1 - b * q,
    );
}

/// Rounding up keeps order.
pub proof fn lemma_ceil_div_mono(a1: int, a2: int, b: int)
    requires
        b > 0,
        a1 <= a2,
    ensures
        ceil_div(a1, b) <= ceil_div(a2, b),
{
    vstd::arithmetic::div_mod::lemma_div_is_ordered(a1 + b - 1, a2 + b - 1, b);
}

/// Rounding up twice is rounding up once by the product.
pub proof fn lemma_ceil_div_twice(a: int, b: int, c: int)
    requires
        b > 0,
        c > 0,
    ensures
        b * c > 0,
        ceil_div(ceil_div(a, b), c) == ceil_div(a, b * c),
{
    let q = ceil_div(a, b);
    let p = ceil_div(q, c);
    lemma_ceil_div(a, b);
    lemma_ceil_div(q, c);
    assert(b * c > 0) by (nonlinear_arith)
        requires
            b > 0,
            c > 0,
    ;
    assert(a <= (b * c) * p) by (nonlinear_arith)
        requires
            a <= b * q,
            q <= c * p,
            b > 0,
    ;
    assert((b * c) * (p - 1) < a) by (nonlinear_arith)
        requires
            c * (p - 1) <= q - 1,
            b * (q - 1) < a,
            b > 0,
    ;
    lemma_ceil_div_unique(a, b * c, p);
}

/// `2^n` as a `u64`.
pub fn pow2_u64(n: u32) -> (p: u64)
    requires
        n < 64,
    ensures
        p == pow2(n as nat),
        p > 0,
{
    proof {
        lemma_u64_pow2_no_overflow(n as nat);
        lemma_u64_shl_is_mul(1, n as u64);
        lemma_pow2_pos(n as nat);
    }
    1u64 << (n as u64)
}

/// `2^n` as an `i64`.
pub fn pow2_i64(n: u32) -> (p: i64)
    requires
        n < 63,
    ensures
        p == pow2(n as nat),
        p > 0,
{
    proof {
        lemma_pow2_strictly_increases(n as nat, 63);
        lemma2_to64_rest();
    }
    pow2_u64(n) as i64
}

/// `2^n` as an `i32`.
pub fn pow2_i32(n: u32) -> (p: i32)
    requires
        n < 31,
    ensures
        p == pow2(n as nat),
        p > 0,
{
    proof {
        lemma_pow2_strictly_increases(n as nat, 31);
        lemma2_to64();
    }
    pow2_u64(n) as i32
}

/// `a / b` rounded up.
pub fn div_ceil_u64(a: u64, b: u64) -> (q: u64)
    requires
        b > 0,
    ensures
        q as int == ceil_div(a as int, b as int),
        q <= a,
{
    proof {
        lemma_ceil_div(a as int, b as int);
        let q = ceil_div(a as int, b as int);
        if a == 0 {
            lemma_ceil_div_unique(0, b as int, 0);
        } else {
            assert(q - 1 <= b * (q - 1)) by (nonlinear_arith)
                requires
                    b >= 1,
                    q >= 1,
            ;
        }
    }
    if a % b == 0 {
        a / b
    } else {
        a / b + 1
    }
}

/// `a / b` rounded up, for a numerator of either sign.
pub fn ceil_div_i64(a: i64, b: i64) -> (q: i64)
    requires
        b > 0,
        a > i64::MIN,
    ensures
        q as int == ceil_div(a as int, b as int),
{
    if a >= 0 {
        div_ceil_u64(a as u64, b as u64) as i64
    } else {
        let m: u64 = (-a) as u64;
        let q: u64 = m / (b as u64);
        proof {
            vstd::arithmetic::div_mod::lemma_fundamental_div_mod(m as int, b as int);
            vstd::arithmetic::div_mod::lemma_mod_bound(m as int, b as int);
            vstd::arithmetic::div_mod::lemma_div_nonincreasing(m as int, b as int);
            let n = -(q as int);
            assert(b * n == -(b * q) && b * (n - 1) == -(b * q) - b) by (nonlinear_arith)
                requires
                    n == -(q as int),
            ;
            lemma_ceil_div_unique(a as int, b as int, n);
        }
        -(q as i64)
    }
}

/// `a / b` rounded down, for a numerator of either sign.
pub fn floor_div_i64(a: i64, b: i64) -> (q: i64)
    requires
        b > 0,
        a > i64::MIN,
    ensures
        q as int == a as int / b as int,
{
    if a >= 0 {
        (a as u64 / b as u64) as i64
    } else {
        let m: u64 = (-a) as u64;
        let q: u64 = div_ceil_u64(m, b as u64);
        proof {
            lemma_ceil_div(m as int, b as int);
            let n = -(q as int);
            assert(b * n == -(b * q) && b * (q - 1) == b * q - b) by (nonlinear_arith)
                requires
                    n == -(q as int),
            ;
            vstd::arithmetic::div_mod::lemma_fundamental_div_mod_converse(
                a as int,
                b as int,
                n,
                a - b * n,
            );
        }
        -(q as i64)
    }
}

/// The values of a few powers of two.
pub proof fn lemma_pow2_31()
    ensures
        pow2(0) == 1,
        pow2(1) == 2,
        pow2(30) == 0x4000_0000,
        pow2(31) == 0x8000_0000,
        pow2(32) == 0x1_0000_0000,
{
    lemma2_to64();
}

/// A row-major position inside a `w` by `h` grid is below `w * h`.
pub proof fn lemma_index_bound(x: int, y: int, w: int, h: int)
    requires
        0 <= x < w,
        0 <= y < h,
    ensures
        0 <= y * w + x < w * h,
        y * w + x < h * w,
        0 <= y * w <= y * w + x,
{
    assert(0 <= y * w + x < w * h && y * w + x < h * w && 0 <= y * w) by (nonlinear_arith)
        requires
            0 <= x < w,
            0 <= y < h,
    ;
}

/// Distinct positions have distinct row-major indices.
pub proof fn lemma_index_injective(x1: int, y1: int, x2: int, y2: int, w: int)
    requires
        0 <= x1 < w,
        0 <= x2 < w,
        y1 * w + x1 == y2 * w + x2,
    ensures
        x1 == x2,
        y1 == y2,
{
    vstd::arithmetic::div_mod::lemma_fundamental_div_mod_converse(y1 * w + x1, w, y1, x1);
    vstd::arithmetic::div_mod::lemma_fundamental_div_mod_converse(y2 * w + x2, w, y2, x2);
    assert(y1 * w == w * y1) by (nonlinear_arith);
    assert(y2 * w == w * y2) by (nonlinear_arith);
}

} // verus!
