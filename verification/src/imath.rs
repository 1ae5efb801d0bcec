//! Integer arithmetic shared by every module: bounded comparisons, truncating
//! division, arithmetic shifts, low-bit masks and the integer square root.
use vstd::prelude::*;

verus! {

/// Smaller of two integers.
pub open spec fn smin(a: int, b: int) -> int {
    if a <= b { a } else { b }
}

/// Larger of two integers.
pub open spec fn smax(a: int, b: int) -> int {
    if a >= b { a } else { b }
}

/// `x` moved into `lo..=hi`.
pub open spec fn sclamp(x: int, lo: int, hi: int) -> int {
    if x < lo { lo } else if x > hi { hi } else { x }
}

/// Absolute value.
pub open spec fn sabs(x: int) -> int {
    if x < 0 { -x } else { x }
}

/// Sign: -1, 0 or 1.
pub open spec fn ssgn(x: int) -> int {
    if x < 0 { -1 } else if x > 0 { 1 } else { 0 }
}

/// Quotient rounded towards zero, for a positive divisor.
pub open spec fn tdiv(a: int, b: int) -> int {
    if a >= 0 { a / b } else { -((-a) / b) }
}

/// Powers of two up to 2^16.
pub open spec fn p2(k: int) -> int {
    if k == 0 { 1 }
    else if k == 1 { 2 }
    else if k == 2 { 4 }
    else if k == 3 { 8 }
    else if k == 4 { 16 }
    else if k == 5 { 32 }
    else if k == 6 { 64 }
    else if k == 7 { 128 }
    else if k == 8 { 256 }
    else if k == 9 { 512 }
    else if k == 10 { 1024 }
    else if k == 11 { 2048 }
    else if k == 12 { 4096 }
    else if k == 13 { 8192 }
    else if k == 14 { 16384 }
    else if k == 15 { 32768 }
    else { 65536 }
}

pub fn imin(a: i32, b: i32) -> (r: i32)
    ensures
        r == smin(a as int, b as int),
{
    if a <= b { a } else { b }
}

pub fn imax(a: i32, b: i32) -> (r: i32)
    ensures
        r == smax(a as int, b as int),
{
    if a >= b { a } else { b }
}

pub fn iclamp(x: i32, lo: i32, hi: i32) -> (r: i32)
    requires
        lo <= hi,
    ensures
        r == sclamp(x as int, lo as int, hi as int),
{
    if x < lo { lo } else if x > hi { hi } else { x }
}

pub fn iabs(x: i32) -> (r: i32)
    requires
        x > i32::MIN,
    ensures
        r == sabs(x as int),
{
    if x < 0 { -x } else { x }
}

pub fn isgn(x: i32) -> (r: i32)
    ensures
        r == ssgn(x as int),
{
    if x < 0 { -1 } else if x > 0 { 1 } else { 0 }
}

proof fn lemma_asr(x: i32)
    by (bit_vector)
    ensures
        x >> 0u32 == x,
        (x >> 1u32) * 2 <= x < (x >> 1u32) * 2 + 2,
        (x >> 2u32) * 4 <= x < (x >> 2u32) * 4 + 4,
        (x >> 3u32) * 8 <= x < (x >> 3u32) * 8 + 8,
        (x >> 4u32) * 16 <= x < (x >> 4u32) * 16 + 16,
        (x >> 5u32) * 32 <= x < (x >> 5u32) * 32 + 32,
        (x >> 6u32) * 64 <= x < (x >> 6u32) * 64 + 64,
        (x >> 7u32) * 128 <= x < (x >> 7u32) * 128 + 128,
        (x >> 8u32) * 256 <= x < (x >> 8u32) * 256 + 256,
        (x >> 9u32) * 512 <= x < (x >> 9u32) * 512 + 512,
        (x >> 10u32) * 1024 <= x < (x >> 10u32) * 1024 + 1024,
        (x >> 11u32) * 2048 <= x < (x >> 11u32) * 2048 + 2048,
        (x >> 12u32) * 4096 <= x < (x >> 12u32) * 4096 + 4096,
        (x >> 13u32) * 8192 <= x < (x >> 13u32) * 8192 + 8192,
        (x >> 14u32) * 16384 <= x < (x >> 14u32) * 16384 + 16384,
        (x >> 15u32) * 32768 <= x < (x >> 15u32) * 32768 + 32768,
        (x >> 16u32) * 65536 <= x < (x >> 16u32) * 65536 + 65536,
{
}

/// Arithmetic right shift: the quotient by 2^k rounded down.
pub fn asr(x: i32, k: u32) -> (r: i32)
    requires
        k <= 16,
    ensures
        r == x as int / p2(k as int),
{
    proof {
        lemma_asr(x);
    }
    x >> k
}

/// Quotient rounded down, for a positive divisor.
pub fn floor_div(x: i64, d: i64) -> (r: i64)
    requires
        d > 0,
        x > i64::MIN + d,
    ensures
        r == x as int / d as int,
{
    if x >= 0 {
        x / d
    } else {
        let q: i64 = (d - 1 - x) / d;
        proof {
            lemma_floor_neg(x as int, d as int, q as int);
        }
        -q
    }
}

proof fn lemma_floor_neg(x: int, d: int, q: int)
    requires
        d > 0,
        x < 0,
        q == (d - 1 - x) / d,
    ensures
        -q == x / d,
        0 < q <= d - 1 - x,
{
    vstd::arithmetic::div_mod::lemma_fundamental_div_mod(d - 1 - x, d);
    let r = (d - 1 - x) % d;
    // d - 1 - x == d q + r, so x == d (-q) + (d - 1 - r)
    assert(x == (-q) * d + (d - 1 - r)) by (nonlinear_arith)
        requires
            d - 1 - x == d * q + r,
    ;
    vstd::arithmetic::div_mod::lemma_fundamental_div_mod_converse(x, d, -q, d - 1 - r);
    assert(0 < q <= d - 1 - x) by (nonlinear_arith)
        requires
            d > 0,
            x < 0,
            q == (d - 1 - x) / d,
    ;
}

/// The low 2 bits of `x`: its residue modulo 4.
pub fn low2(x: i32) -> (r: i32)
    ensures
        r == x as int % 4,
        0 <= r < 4,
{
    assert(0 <= x & 3 < 4 && (x & 3) + (x >> 2u32) * 4 == x) by (bit_vector);
    x & 3
}

/// The low 8 bits of `x`: its residue modulo 256.
pub fn low8(x: i32) -> (r: i32)
    ensures
        r == x as int % 256,
        0 <= r < 256,
{
    assert(0 <= x & 255 < 256 && (x & 255) + (x >> 8u32) * 256 == x) by (bit_vector);
    x & 255
}

/// `r` is the integer square root of `v`.
pub open spec fn is_isqrt(v: int, r: int) -> bool {
    0 <= r && r * r <= v && v < (r + 1) * (r + 1)
}

/// The integer square root of a non-negative `v`.
pub open spec fn sqrt_of(v: int) -> int {
    choose|r: int| is_isqrt(v, r)
}

/// The integer square root is unique.
pub proof fn lemma_isqrt_unique(v: int, a: int, b: int)
    requires
        is_isqrt(v, a),
        is_isqrt(v, b),
    ensures
        a == b,
{
    if a < b {
        assert((a + 1) * (a + 1) <= b * b) by (nonlinear_arith)
            requires 0 <= a, a + 1 <= b;
    }
    if b < a {
        assert((b + 1) * (b + 1) <= a * a) by (nonlinear_arith)
            requires 0 <= b, b + 1 <= a;
    }
}

/// A value that satisfies the defining inequalities is `sqrt_of(v)`.
pub proof fn lemma_sqrt_of(v: int, r: int)
    requires
        is_isqrt(v, r),
    ensures
        sqrt_of(v) == r,
{
    lemma_isqrt_unique(v, r, sqrt_of(v));
}

/// Every non-negative number has an integer square root.
pub proof fn lemma_sqrt_exists(v: int)
    requires
        v >= 0,
    ensures
        is_isqrt(v, sqrt_of(v)),
{
    assert(v < (v + 1) * (v + 1)) by (nonlinear_arith)
        requires v >= 0;
    lemma_sqrt_step(v, v);
}

proof fn lemma_sqrt_step(v: int, k: int)
    requires
        0 <= k,
        v >= 0,
        v < (k + 1) * (k + 1) || k * k >= v,
    ensures
        exists|r: int| is_isqrt(v, r),
    decreases k,
{
    if k * k <= v {
        if k * k == v {
            assert(v < (k + 1) * (k + 1)) by (nonlinear_arith)
                requires k * k == v, k >= 0;
        }
        assert(is_isqrt(v, k));
    } else {
        assert(k >= 1) by (nonlinear_arith)
            requires k * k > v, v >= 0, k >= 0;
        lemma_sqrt_step(v, k - 1);
    }
}

proof fn lemma_newton_lower(v: int, x: int)
    requires
        v >= 1,
        x >= 1,
    ensures
        v < ((x + v / x) / 2 + 1) * ((x + v / x) / 2 + 1),
{
    let q = v / x;
    let y = (x + q) / 2;
    assert(v < (q + 1) * x) by (nonlinear_arith)
        requires v >= 1, x >= 1, q == v / x;
    // 4 x (q + 1) <= (x + q + 1)^2 and x + q + 1 <= 2 (y + 1)
    assert(4 * (x * (q + 1)) <= (x + q + 1) * (x + q + 1)) by (nonlinear_arith);
    assert(q >= 0) by (nonlinear_arith)
        requires v >= 1, x >= 1, q == v / x;
    assert(x + q + 1 <= 2 * (y + 1));
    let s = x + q + 1;
    let t = y + 1;
    assert(s * s <= 4 * (t * t)) by (nonlinear_arith)
        requires 0 <= s, s <= 2 * t;
    assert(v < x * (q + 1)) by (nonlinear_arith)
        requires v < (q + 1) * x;
}

/// Integer square root by Newton's iteration from above.
pub fn isqrt(v: u32) -> (r: u32)
    requires
        v < u32::MAX,
    ensures
        is_isqrt(v as int, r as int),
        r == sqrt_of(v as int),
        r <= 65535,
{
    if v == 0 {
        proof {
            assert(is_isqrt(0, 0));
            lemma_sqrt_of(0, 0);
        }
        return 0;
    }
    let mut x: u32 = v;
    let mut y: u32 = (x + 1) / 2;
    proof {
        lemma_newton_lower(v as int, v as int);
        assert(v as int / v as int == 1) by (nonlinear_arith)
            requires v >= 1;
        assert(v < (v + 1) * (v + 1)) by (nonlinear_arith)
            requires v >= 1;
    }
    while y < x
        invariant
            1 <= v < u32::MAX,
            1 <= x <= v,
            y as int == (x as int + v as int / x as int) / 2,
            v < (x + 1) * (x + 1),
            v < (y + 1) * (y + 1),
        decreases x,
    {
        proof {
            assert(y >= 1) by (nonlinear_arith)
                requires v >= 1, v < (y + 1) * (y + 1), y >= 0;
            lemma_newton_lower(v as int, y as int);
            assert(v as int / y as int <= v) by (nonlinear_arith)
                requires v >= 1, y >= 1;
            assert(y as int + v as int / y as int <= u32::MAX) by {
                if y <= 1 {
                } else {
                    assert(v as int / y as int <= v as int / 2) by (nonlinear_arith)
                        requires v >= 1, y >= 2;
                    assert(y <= (v + 1) / 2) by {
                        assert(v as int / x as int <= v / x);
                        assert(x as int + v as int / x as int <= v + 1) by (nonlinear_arith)
                            requires 1 <= x, x <= v;
                    }
                }
            }
        }
        x = y;
        y = (x + v / x) / 2;
    }
    proof {
        let q = v as int / x as int;
        assert(q >= x);
        assert(x * x <= v) by (nonlinear_arith)
            requires q >= x, q == v as int / x as int, x >= 1, v >= 0;
        assert(is_isqrt(v as int, x as int));
        lemma_sqrt_of(v as int, x as int);
        assert(x <= 65535) by (nonlinear_arith)
            requires x * x <= v, v <= 0xffff_ffff;
    }
    x
}

} // verus!
