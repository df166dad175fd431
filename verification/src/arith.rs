//! Fixed-point arithmetic: shifts, rounding, saturation, and integer
//! approximations of logarithm, power, square root and division.

use vstd::prelude::*;
use vstd::arithmetic::power2::{lemma_pow2_pos, lemma_pow2_strictly_increases, lemma_pow2_unfold, pow2};

verus! {

/// One in Q15.
pub const Q15ONE: i32 = 32767;

// ---------------------------------------------------------------------------
// Division, shifts, bounds
// ---------------------------------------------------------------------------

/// Division that rounds toward zero.
pub open spec fn tdiv(a: int, b: int) -> int {
    if a >= 0 {
        a / b
    } else {
        -((-a) / b)
    }
}

pub open spec fn min_int(a: int, b: int) -> int {
    if a < b {
        a
    } else {
        b
    }
}

pub open spec fn max_int(a: int, b: int) -> int {
    if a > b {
        a
    } else {
        b
    }
}

/// `a` kept between `lo` and `hi`.
pub open spec fn bounded(a: int, lo: int, hi: int) -> int {
    min_int(max_int(a, lo), hi)
}

pub fn imin(a: i32, b: i32) -> (r: i32)
    ensures
        r == min_int(a as int, b as int),
{
    if a < b {
        a
    } else {
        b
    }
}

pub fn imax(a: i32, b: i32) -> (r: i32)
    ensures
        r == max_int(a as int, b as int),
{
    if a > b {
        a
    } else {
        b
    }
}

/// Division that rounds down.
pub fn floor_div(a: i64, b: i64) -> (r: i64)
    requires
        b > 0,
    ensures
        r == a as int / b as int,
        (a >= 0 ==> 0 <= r <= a) && (a < 0 ==> a <= r < 0),
{
    proof {
        let x = a as int;
        let d = b as int;
        assert(x >= 0 ==> 0 <= x / d <= x) by (nonlinear_arith)
            requires
                d > 0,
        ;
        assert(x < 0 ==> x <= x / d < 0) by (nonlinear_arith)
            requires
                d > 0,
        ;
        assert(x < 0 ==> x / d == -1 - (-1 - x) / d) by (nonlinear_arith)
            requires
                d > 0,
        ;
    }
    if a >= 0 {
        a / b
    } else {
        -1 - (-1 - a) / b
    }
}

/// Division that rounds toward zero.
pub fn trunc_div(a: i32, b: i32) -> (r: i64)
    requires
        b != 0,
    ensures
        r == tdiv(a as int, b as int),
        -0x8000_0000 <= r <= 0x8000_0000,
{
    let x: i64 = if a < 0 { -(a as i64) } else { a as i64 };
    let y: i64 = if b < 0 { -(b as i64) } else { b as i64 };
    let q: i64 = floor_div(x, y);
    proof {
        let n = x as int;
        let d = y as int;
        assert(n / (-d) == -(n / d)) by (nonlinear_arith)
            requires
                n >= 0,
                d > 0,
        ;
    }
    if (a < 0) == (b < 0) {
        q
    } else {
        -q
    }
}

/// What is left of a number in 32 bits.
pub open spec fn wrap32(x: int) -> int {
    if x % 0x1_0000_0000 < 0x8000_0000 {
        x % 0x1_0000_0000
    } else {
        x % 0x1_0000_0000 - 0x1_0000_0000
    }
}

pub fn wrap(x: i64) -> (r: i32)
    ensures
        r == wrap32(x as int),
{
    let low: i64 = if x >= 0 {
        x % 0x1_0000_0000
    } else {
        0xffff_ffff - (-1 - x) % 0x1_0000_0000
    };
    if low < 0x8000_0000 {
        low as i32
    } else {
        (low - 0x1_0000_0000) as i32
    }
}

/// `x` shifted left by `k` where `k` is positive, and right by `-k` otherwise,
/// rounding down.
pub open spec fn shifted(x: int, k: int) -> int {
    if k >= 0 {
        x * pow2(k as nat)
    } else {
        x / pow2((-k) as nat) as int
    }
}

/// `x` divided by two to the `k`, rounded to nearest.
pub open spec fn rounded_shr(x: int, k: int) -> int {
    if k <= 0 {
        x
    } else {
        (x + pow2((k - 1) as nat)) / pow2(k as nat) as int
    }
}

/// Two to the `k`.
pub fn exp2i(k: u32) -> (r: i64)
    requires
        k <= 62,
    ensures
        r == pow2(k as nat),
        r >= 1,
{
    let mut r: i64 = 1;
    let mut i: u32 = 0;
    proof {
        vstd::arithmetic::power2::lemma2_to64();
    }
    while i < k
        invariant
            i <= k <= 62,
            r == pow2(i as nat),
            r >= 1,
        decreases k - i,
    {
        proof {
            lemma_pow2_unfold((i + 1) as nat);
            vstd::arithmetic::power2::lemma2_to64();
            vstd::arithmetic::power2::lemma2_to64_rest();
            if i + 1 < 62 {
                lemma_pow2_strictly_increases((i + 1) as nat, 62);
            }
        }
        r = r * 2;
        i = i + 1;
    }
    r
}

/// `x` shifted left by `k` where `k` is positive, and right by `-k` otherwise.
pub fn shift(x: i64, k: i32) -> (r: i64)
    requires
        -62 <= k <= 62,
        i64::MIN <= shifted(x as int, k as int) <= i64::MAX,
    ensures
        r == shifted(x as int, k as int),
{
    if k >= 0 {
        x * exp2i(k as u32)
    } else {
        floor_div(x, exp2i((-k) as u32))
    }
}

/// Saturates to 16 bits.
pub open spec fn sat16_of(a: int) -> int {
    bounded(a, -32768, 32767)
}

pub fn silk_sat16(a: i32) -> (r: i32)
    ensures
        r == sat16_of(a as int),
{
    if a > 32767 {
        32767
    } else if a < -32768 {
        -32768
    } else {
        a
    }
}

// ---------------------------------------------------------------------------
// Products
// ---------------------------------------------------------------------------

/// Product of two Q15 numbers, rounded down.
pub open spec fn q15(a: int, b: int) -> int {
    a * b / 32768
}

/// The low 16 bits, as a signed number.
pub open spec fn low16(b: int) -> int {
    if b % 65536 < 32768 {
        b % 65536
    } else {
        b % 65536 - 65536
    }
}

/// A number times the low 16 bits of another, shifted right by 16.
pub open spec fn smulwb(a: int, b: int) -> int {
    a * low16(b) / 65536
}

/// A product of two numbers, shifted right by 16.
pub open spec fn smulww(a: int, b: int) -> int {
    a * b / 65536
}

pub proof fn lemma_product(a: int, b: int, x: int, y: int)
    requires
        -x <= a <= x,
        -y <= b <= y,
    ensures
        -(x * y) <= a * b <= x * y,
{
    assert(-(x * y) <= a * b <= x * y) by (nonlinear_arith)
        requires
            -x <= a <= x,
            -y <= b <= y,
    ;
}

pub fn mult_q15(a: i32, b: i32) -> (r: i64)
    ensures
        r == q15(a as int, b as int),
        -0x1_0000_0000_0000 <= r <= 0x1_0000_0000_0000,
{
    proof {
        lemma_product(a as int, b as int, 0x8000_0000, 0x8000_0000);
    }
    floor_div(a as i64 * b as i64, 32768)
}

/// A number times the low 16 bits of another, shifted right by 16.
pub fn silk_smulwb(a32: i32, b32: i32) -> (r: i32)
    ensures
        r == smulwb(a32 as int, b32 as int),
{
    let low: i64 = if b32 >= 0 {
        (b32 % 65536) as i64
    } else {
        (b32 as i64 + 0x8000_0000) % 65536
    };
    let b: i64 = if low < 32768 { low } else { low - 65536 };
    proof {
        assert(b == low16(b32 as int));
        lemma_product(a32 as int, b as int, 0x8000_0000, 0x8000);
    }
    floor_div(a32 as i64 * b, 65536) as i32
}

/// What is left in 32 bits of a product of two numbers, shifted right by 16.
pub fn silk_smulww(a32: i32, b32: i32) -> (r: i32)
    ensures
        r == wrap32(smulww(a32 as int, b32 as int)),
{
    proof {
        lemma_product(a32 as int, b32 as int, 0x8000_0000, 0x8000_0000);
    }
    wrap(floor_div(a32 as i64 * b32 as i64, 65536))
}

/// A plain product.
pub fn silk_mul(a: i32, b: i32) -> (r: i32)
    requires
        i32::MIN <= a * b <= i32::MAX,
    ensures
        r == a * b,
{
    a * b
}

/// Shifts right with rounding.
pub fn silk_rshift_round(a: i32, shift: i32) -> (r: i32)
    requires
        shift <= 31,
    ensures
        r == rounded_shr(a as int, shift as int),
{
    if shift <= 0 {
        return a;
    }
    let half: i64 = exp2i((shift - 1) as u32);
    let whole: i64 = exp2i(shift as u32);
    proof {
        lemma_pow2_unfold(shift as nat);
        vstd::arithmetic::power2::lemma2_to64();
        if shift - 1 < 30 {
            lemma_pow2_strictly_increases((shift - 1) as nat, 30);
        }
        let q = (a as int + half as int) / whole as int;
        let w = whole as int;
        let x = a as int + half as int;
        assert(-0x8000_0000 <= q <= 0x7fff_ffff) by (nonlinear_arith)
            requires
                q == x / w,
                w >= 2,
                -0x8000_0000 <= x <= 0xffff_fffe,
        ;
    }
    floor_div(a as i64 + half, whole) as i32
}

/// Shifts left by the low five bits of `shift`. What leaves 32 bits is lost.
pub fn silk_lshift(a: i32, shift: i32) -> (r: i32)
    ensures
        r == wrap32(a * pow2((shift as int % 32) as nat)),
{
    let k: i32 = if shift >= 0 { shift % 32 } else { 31 - (-1 - shift) % 32 };
    let p: i64 = exp2i(k as u32);
    proof {
        vstd::arithmetic::power2::lemma2_to64();
        if k < 31 {
            lemma_pow2_strictly_increases(k as nat, 31);
        }
        lemma_product(a as int, p as int, 0x8000_0000, 0x8000_0000);
    }
    wrap(a as i64 * p)
}

// ---------------------------------------------------------------------------
// Logarithm and power
// ---------------------------------------------------------------------------

/// The logarithm to base two, rounded down.
pub open spec fn ilog2(x: int) -> int
    decreases x,
{
    if x <= 1 {
        0
    } else {
        1 + ilog2(x / 2)
    }
}

/// The logarithm rounds down: `x` lies between two powers of two.
pub proof fn lemma_ilog2(x: int)
    requires
        x >= 1,
    ensures
        0 <= ilog2(x),
        pow2(ilog2(x) as nat) <= x < pow2((ilog2(x) + 1) as nat),
    decreases x,
{
    vstd::arithmetic::power2::lemma2_to64();
    if x > 1 {
        lemma_ilog2(x / 2);
        lemma_pow2_unfold(ilog2(x) as nat);
        lemma_pow2_unfold((ilog2(x) + 1) as nat);
    }
}

pub proof fn lemma_ilog2_bound(x: int, k: nat)
    requires
        1 <= x < pow2(k),
    ensures
        0 <= ilog2(x) < k,
{
    lemma_ilog2(x);
    if ilog2(x) >= k {
        if ilog2(x) > k {
            lemma_pow2_strictly_increases(k, ilog2(x) as nat);
        }
    }
}

/// The logarithm to base two, rounded down.
pub fn celt_ilog2(x: i32) -> (r: i32)
    requires
        x >= 1,
    ensures
        r == ilog2(x as int),
        0 <= r <= 30,
{
    let mut y: i32 = x;
    let mut r: i32 = 0;
    while y > 1
        invariant
            y >= 1,
            0 <= r,
            r + ilog2(y as int) == ilog2(x as int),
            x >= 1,
            r <= 30,
        decreases y,
    {
        y = y / 2;
        r = r + 1;
        proof {
            vstd::arithmetic::power2::lemma2_to64();
            lemma_ilog2_bound(x as int, 31);
            lemma_ilog2(y as int);
        }
    }
    r
}

/// The number of bits that a number takes.
pub open spec fn bit_length(x: int) -> int {
    if x <= 0 {
        0
    } else {
        ilog2(x) + 1
    }
}

/// The number of bits that a number takes.
pub fn ec_ilog(x: i32) -> (r: i32)
    requires
        x >= 0,
    ensures
        r == bit_length(x as int),
        0 <= r <= 31,
{
    if x == 0 {
        0
    } else {
        celt_ilog2(x) + 1
    }
}

/// A hundred-and-twenty-eight times the logarithm to base two, approximately: the
/// leading bit, and a parabola for the bits below it.
pub open spec fn lin2log(x: int) -> int {
    let n = ilog2(x);
    let frac = shifted(x, 7 - n) - 128;
    128 * n + frac + frac * (128 - frac) * 179 / 65536
}

/// A hundred-and-twenty-eight times the logarithm to base two, approximately.
pub fn silk_lin2log(x: i32) -> (r: i32)
    requires
        x >= 1,
    ensures
        r == lin2log(x as int),
        0 <= r <= 31 * 128,
{
    let n: i32 = celt_ilog2(x);
    proof {
        lemma_ilog2(x as int);
        lemma_normalized(x as int, n as int, 7);
        vstd::arithmetic::power2::lemma2_to64();
    }
    let frac: i64 = shift(x as i64, 7 - n) - 128;
    proof {
        assert(0 <= frac * (128 - frac) <= 128 * 128) by (nonlinear_arith)
            requires
                0 <= frac <= 127,
        ;
        assert(frac * (128 - frac) * 179 / 65536 <= 127 - frac) by (nonlinear_arith)
            requires
                0 <= frac <= 127,
        ;
    }
    (128 * n as i64 + frac + floor_div(frac * (128 - frac) * 179, 65536)) as i32
}

/// A number shifted so that its leading bit stands at `to`.
pub proof fn lemma_normalized(x: int, n: int, to: int)
    requires
        x >= 1,
        n == ilog2(x),
        0 <= to <= 40,
        n <= 40,
    ensures
        pow2(to as nat) <= shifted(x, to - n) < pow2((to + 1) as nat),
        0 <= n,
        pow2((to + 1) as nat) <= 0x200_0000_0000,
{
    lemma_ilog2(x);
    vstd::arithmetic::power2::lemma2_to64();
    vstd::arithmetic::power2::lemma2_to64_rest();
    if to + 1 < 41 {
        lemma_pow2_strictly_increases((to + 1) as nat, 41);
    }
    lemma_pow2_pos(n as nat);
    lemma_pow2_unfold((n + 1) as nat);
    lemma_pow2_unfold((to + 1) as nat);
    if to >= n {
        let k = (to - n) as nat;
        vstd::arithmetic::power2::lemma_pow2_adds(n as nat, k);
        lemma_pow2_pos(k);
        let p = pow2(k) as int;
        let q = pow2(n as nat) as int;
        assert(p * q <= x * p < p * (2 * q)) by (nonlinear_arith)
            requires
                q <= x < 2 * q,
                p >= 1,
        ;
        assert(p * (2 * q) == 2 * (q * p)) by (nonlinear_arith);
        assert(p * q == q * p) by (nonlinear_arith);
    } else {
        let k = (n - to) as nat;
        vstd::arithmetic::power2::lemma_pow2_adds(to as nat, k);
        lemma_pow2_pos(k);
        let p = pow2(k) as int;
        let q = pow2(to as nat) as int;
        assert(q <= x / p < 2 * q) by (nonlinear_arith)
            requires
                q * p <= x < 2 * (q * p),
                p >= 1,
        ;
    }
}

/// Two to the power of a hundred-and-twenty-eighth of `x`, approximately.
pub open spec fn log2lin(x: int) -> int {
    if x < 0 {
        0
    } else if x >= 3967 {
        0x7fffffff
    } else {
        let whole = pow2((x / 128) as nat) as int;
        let frac = x % 128;
        let curve = frac + frac * (128 - frac) * (-174) / 65536;
        if x < 2048 {
            whole + whole * curve / 128
        } else {
            whole + whole / 128 * curve
        }
    }
}

/// Two to the power of a hundred-and-twenty-eighth of `x`, approximately.
pub fn silk_log2lin(x: i32) -> (r: i32)
    ensures
        r == log2lin(x as int),
        0 <= r,
{
    if x < 0 {
        return 0;
    }
    if x >= 3967 {
        return 0x7fffffff;
    }
    let k: u32 = (x / 128) as u32;
    let whole: i64 = exp2i(k);
    let frac: i64 = (x % 128) as i64;
    proof {
        vstd::arithmetic::power2::lemma2_to64();
        if k < 30 {
            lemma_pow2_strictly_increases(k as nat, 30);
        }
        if k < 16 && k < 15 {
            lemma_pow2_strictly_increases(k as nat, 15);
        }
        assert(0 <= frac * (128 - frac) <= 128 * 128) by (nonlinear_arith)
            requires
                0 <= frac <= 127,
        ;
    }
    let curve: i64 = frac + floor_div(frac * (128 - frac) * (-174), 65536);
    proof {
        assert(0 <= curve <= 127) by (nonlinear_arith)
            requires
                curve == frac + frac * (128 - frac) * (-174) / 65536,
                0 <= frac <= 127,
        ;
        assert(0 <= whole * curve <= 0x4000_0000 * 127) by (nonlinear_arith)
            requires
                0 <= whole <= 0x4000_0000,
                0 <= curve <= 127,
        ;
        assert(0 <= (whole as int / 128) * curve <= 0x80_0000 * 127) by (nonlinear_arith)
            requires
                0 <= whole <= 0x4000_0000,
                0 <= curve <= 127,
        ;
    }
    if x < 2048 {
        (whole + whole * curve / 128) as i32
    } else {
        (whole + whole / 128 * curve) as i32
    }
}

/// Two to the power of a Q10 number below one, in Q14, by a polynomial.
pub open spec fn exp2_frac(x: int) -> int {
    let f = 16 * x;
    16383 + q15(f, 22804 + q15(f, 14819 + q15(10204, f)))
}

/// Two to the power of a Q10 number, in Q16.
pub open spec fn exp2_of(x: int) -> int {
    let whole = x / 1024;
    if whole > 14 {
        0x7f000000
    } else if whole < -15 {
        0
    } else {
        shifted(exp2_frac(x - whole * 1024), whole + 2)
    }
}

/// Two to the power of a Q10 number, in Q16.
pub fn celt_exp2(x: i32) -> (r: i32)
    ensures
        r == exp2_of(x as int),
        0 <= r,
{
    let whole: i64 = floor_div(x as i64, 1024);
    if whole > 14 {
        return 0x7f000000;
    }
    if whole < -15 {
        return 0;
    }
    let f: i32 = (16 * (x as i64 - whole * 1024)) as i32;
    let a: i32 = 14819 + (floor_div(10204 * f as i64, 32768)) as i32;
    proof {
        lemma_q15_half(f as int, a as int);
    }
    let b: i32 = 22804 + mult_q15(f, a) as i32;
    proof {
        lemma_q15_half(f as int, b as int);
    }
    let c: i64 = 16383 + mult_q15(f, b);
    proof {
        lemma_shift_bound(c as int, whole as int + 2);
    }
    shift(c, whole as i32 + 2) as i32
}

/// A product of a Q15 number below one half.
proof fn lemma_q15_half(f: int, v: int)
    requires
        0 <= f <= 16384,
        0 <= v,
    ensures
        0 <= q15(f, v) <= v / 2,
{
    assert(0 <= f * v <= 16384 * v) by (nonlinear_arith)
        requires
            0 <= f <= 16384,
            0 <= v,
    ;
}

proof fn lemma_shift_bound(c: int, k: int)
    requires
        0 <= c <= 32767,
        -13 <= k <= 16,
    ensures
        0 <= shifted(c, k) <= 32767 * 65536,
{
    vstd::arithmetic::power2::lemma2_to64();
    if k >= 0 {
        if k < 16 {
            lemma_pow2_strictly_increases(k as nat, 16);
        }
        let p = pow2(k as nat) as int;
        assert(0 <= c * p <= 32767 * 65536) by (nonlinear_arith)
            requires
                0 <= c <= 32767,
                0 <= p <= 65536,
        ;
    } else {
        lemma_pow2_pos((-k) as nat);
        let p = pow2((-k) as nat) as int;
        assert(0 <= c / p <= c) by (nonlinear_arith)
            requires
                0 <= c,
                p >= 1,
        ;
    }
}

// ---------------------------------------------------------------------------
// Square root and division
// ---------------------------------------------------------------------------

/// The square root of one plus a Q15 number, by a polynomial.
pub open spec fn sqrt_curve(n: int) -> int {
    23171 + q15(
        n,
        11574 + q15(n, -2901 + q15(n, 1592 + q15(n, -1002 + q15(n, 336)))),
    )
}

/// The square root, approximately.
pub open spec fn sqrt_of(x: int) -> int {
    if x == 0 {
        0
    } else if x >= 0x40000000 {
        32767
    } else {
        let k = ilog2(x) / 2 - 7;
        shifted(sqrt_curve(shifted(x, -2 * k) - 32768), k - 7)
    }
}

/// A product with a Q15 number of at most one is no greater in size.
proof fn lemma_q15_abs(n: int, v: int, most: int)
    requires
        -32768 <= n <= 32768,
        -most <= v <= most,
    ensures
        -most <= q15(n, v) <= most,
{
    lemma_product(n, v, 32768, most);
    assert(32768 * most == most * 32768) by (nonlinear_arith);
}

proof fn lemma_sqrt_curve(n: int)
    requires
        -32768 <= n <= 32768,
    ensures
        5000 <= sqrt_curve(n) <= 41000,
{
    lemma_q15_abs(n, 336, 336);
    let a = -1002 + q15(n, 336);
    lemma_q15_abs(n, a, 1338);
    let b = 1592 + q15(n, a);
    lemma_q15_abs(n, b, 2930);
    let c = -2901 + q15(n, b);
    lemma_q15_abs(n, c, 5831);
    let d = 11574 + q15(n, c);
    lemma_q15_abs(n, d, 17405);
}

/// A number shifted by an even number of bits so that it takes 15 or 16.
proof fn lemma_sqrt_range(x: int)
    requires
        1 <= x < 0x40000000,
    ensures
        ({
            let k = ilog2(x) / 2 - 7;
            &&& -7 <= k <= 7
            &&& 16384 <= shifted(x, -2 * k) < 65536
        }),
{
    vstd::arithmetic::power2::lemma2_to64();
    lemma_ilog2_bound(x, 30);
    let n = ilog2(x);
    let k = n / 2 - 7;
    if n % 2 == 0 {
        assert(-2 * k == 14 - n);
        lemma_normalized(x, n, 14);
    } else {
        assert(-2 * k == 15 - n);
        lemma_normalized(x, n, 15);
    }
}

/// The square root, approximately.
pub fn celt_sqrt(x: i32) -> (r: i32)
    requires
        x >= 0,
    ensures
        r == sqrt_of(x as int),
        0 <= r <= 41000,
{
    if x == 0 {
        return 0;
    }
    if x >= 0x40000000 {
        return 32767;
    }
    let k: i32 = celt_ilog2(x) / 2 - 7;
    proof {
        lemma_sqrt_range(x as int);
    }
    let n: i32 = (shift(x as i64, -2 * k) - 32768) as i32;
    proof {
        lemma_q15_abs(n as int, 336, 336);
    }
    let a: i32 = -1002 + mult_q15(n, 336) as i32;
    proof {
        lemma_q15_abs(n as int, a as int, 1338);
    }
    let b: i32 = 1592 + mult_q15(n, a) as i32;
    proof {
        lemma_q15_abs(n as int, b as int, 2930);
    }
    let c: i32 = -2901 + mult_q15(n, b) as i32;
    proof {
        lemma_q15_abs(n as int, c as int, 5831);
    }
    let d: i32 = 11574 + mult_q15(n, c) as i32;
    proof {
        lemma_q15_abs(n as int, d as int, 17405);
        lemma_sqrt_curve(n as int);
    }
    let curve: i64 = 23171 + mult_q15(n, d);
    proof {
        vstd::arithmetic::power2::lemma2_to64();
        let e = (7 - k) as nat;
        lemma_pow2_pos(e);
        let p = pow2(e) as int;
        assert(0 <= curve as int / p <= curve) by (nonlinear_arith)
            requires
                p >= 1,
                curve >= 0,
        ;
        if k == 7 {
            assert(shifted(curve as int, 0) == curve);
        }
    }
    shift(curve, k - 7) as i32
}

/// The reciprocal, approximately: a line, and two steps of refinement.
pub open spec fn rcp_of(x: int) -> int {
    let i = ilog2(x);
    let n = shifted(x, 15 - i) - 32768;
    let r0 = 30840 + q15(-15420, n);
    let r1 = r0 - q15(r0, q15(r0, n) + r0 - 32768);
    let r2 = r1 - (1 + q15(r1, q15(r1, n) + r1 - 32768));
    shifted(r2, 16 - i)
}

/// The reciprocal of a number of 14 or 15 bits, approximately.
fn rcp(x: i32) -> (r: i64)
    requires
        8192 <= x <= 16384,
    ensures
        r == rcp_of(x as int),
        -8_000_000 <= r <= 8_000_000,
{
    let i: i32 = celt_ilog2(x);
    proof {
        vstd::arithmetic::power2::lemma2_to64();
        lemma_ilog2_bound(x as int, 15);
        lemma_ilog2(x as int);
        if i < 13 {
            if i + 1 < 13 {
                lemma_pow2_strictly_increases((i + 1) as nat, 13);
            }
        }
        lemma_normalized(x as int, i as int, 15);
    }
    let n: i32 = (shift(x as i64, 15 - i) - 32768) as i32;
    proof {
        assert(-15420 <= q15(-15420, n as int) <= 0);
    }
    let r0: i32 = 30840 + mult_q15(-15420, n) as i32;
    proof {
        lemma_q15_abs(n as int, r0 as int, 30840);
        assert(r0 * n == n * r0) by (nonlinear_arith);
    }
    let t0: i32 = mult_q15(r0, n) as i32 + r0 - 32768;
    proof {
        lemma_product(r0 as int, t0 as int, 30840, 65536);
    }
    let r1: i32 = r0 - mult_q15(r0, t0) as i32;
    proof {
        lemma_product(r1 as int, n as int, 100_000, 32768);
    }
    let t1: i32 = mult_q15(r1, n) as i32 + r1 - 32768;
    proof {
        lemma_product(r1 as int, t1 as int, 100_000, 240_000);
    }
    let r2: i64 = r1 as i64 - (1 + mult_q15(r1, t1));
    proof {
        assert(pow2(3) == 8 && pow2(2) == 4);
        assert(i == 13 || i == 14);
        assert(-850_000 <= r2 <= 850_000);
        if i == 13 {
            assert(shifted(r2 as int, 3) == r2 * 8);
        } else {
            assert(shifted(r2 as int, 2) == r2 * 4);
        }
    }
    shift(r2, 16 - i)
}

/// A quotient of a number by one that is no smaller, in Q31, approximately.
pub open spec fn quotient(a: int, b: int) -> int {
    let sh = ilog2(b) - 29;
    let x = shifted(a, -sh);
    let y = shifted(b, -sh);
    let r = (rcp_of((y + 32768) / 65536) + 4) / 8;
    let first = r * x / 32768;
    let rem = (x + 2) / 4 - first * y / 0x80000000;
    let q = first + r * rem / 32768 * 4;
    if q >= 0x20000000 {
        0x7fffffff
    } else if q <= -0x20000000 {
        -0x7fffffff
    } else {
        4 * q
    }
}

/// A product shifted right by 31.
fn mult_q31(a: i64, b: i64) -> (r: i64)
    requires
        -0x100_0000_0000 <= a <= 0x100_0000_0000,
        0 <= b <= 0x4000_0000,
    ensures
        r == a * b / 0x80000000,
        -0x100_0000_0000 <= r <= 0x100_0000_0000,
{
    proof {
        lemma_product(a as int, b as int, 0x100_0000_0000, 0x4000_0000);
    }
    let p: i128 = a as i128 * b as i128;
    if p >= 0 {
        (p / 0x8000_0000) as i64
    } else {
        (-1 - (-1 - p) / 0x8000_0000) as i64
    }
}

/// A shift keeps the order.
proof fn lemma_shift_order(a: int, b: int, k: int)
    requires
        0 <= a <= b,
        -62 <= k <= 62,
    ensures
        0 <= shifted(a, k) <= shifted(b, k),
{
    if k >= 0 {
        lemma_pow2_pos(k as nat);
        let p = pow2(k as nat) as int;
        assert(0 <= a * p <= b * p) by (nonlinear_arith)
            requires
                0 <= a <= b,
                p >= 1,
        ;
    } else {
        lemma_pow2_pos((-k) as nat);
        let p = pow2((-k) as nat) as int;
        assert(0 <= a / p <= b / p) by (nonlinear_arith)
            requires
                0 <= a <= b,
                p >= 1,
        ;
    }
}

/// A quotient of a number by one that is no smaller, in Q31, approximately.
pub fn frac_div32(a: i32, b: i32) -> (r: i32)
    requires
        0 <= a <= b,
        1 <= b,
    ensures
        r == quotient(a as int, b as int),
{
    let sh: i32 = celt_ilog2(b) - 29;
    proof {
        vstd::arithmetic::power2::lemma2_to64();
        lemma_normalized(b as int, sh + 29, 29);
        lemma_shift_order(a as int, b as int, -(sh as int));
    }
    let x: i64 = shift(a as i64, -sh);
    let y: i64 = shift(b as i64, -sh);
    let half: i32 = ((y + 32768) / 65536) as i32;
    let r: i64 = floor_div(rcp(half) + 4, 8);
    proof {
        lemma_product(r as int, x as int, 1_000_001, 0x4000_0000);
    }
    let first: i64 = floor_div(r * x, 32768);
    let rem: i64 = (x + 2) / 4 - mult_q31(first, y);
    proof {
        lemma_product(r as int, rem as int, 1_000_001, 0x101_0000_0000);
    }
    let q: i64 = first + floor_div(r * rem, 32768) * 4;
    if q >= 0x2000_0000 {
        0x7fffffff
    } else if q <= -0x2000_0000 {
        -0x7fffffff
    } else {
        (4 * q) as i32
    }
}

} // verus!
