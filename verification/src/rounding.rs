//! Arithmetic with 24 significant bits: every result is the nearest such number to the
//! exact one, and of two equally near the one whose last bit is zero. Numbers are not
//! negative: signs are kept beside them. Exponents stay far from any limit.

use vstd::prelude::*;
use vstd::arithmetic::power2::{lemma2_to64, lemma_pow2_pos, lemma_pow2_strictly_increases, lemma_pow2_unfold, pow2};
use crate::arith::exp2i;

verus! {

/// The number `m` times two to the `e`. Unless it is zero, `m` has 24 bits.
#[derive(Clone, Copy)]
pub struct Rounded {
    pub m: u64,
    pub e: i32,
}

/// Such a number as a value.
pub ghost struct Real {
    pub m: int,
    pub e: int,
}

pub open spec fn zero() -> Real {
    Real { m: 0, e: 0 }
}

/// The quotient of two numbers, of which the first is between 2^23 and 2^24 times the
/// second, rounded to an integer, and its exponent.
pub open spec fn settle(num: int, den: int, e: int) -> Real {
    let q = num / den;
    let r = num % den;
    let m = if 2 * r > den || (2 * r == den && q % 2 == 1) {
        q + 1
    } else {
        q
    };
    if m == 0x100_0000 {
        Real { m: 0x80_0000, e: e + 1 }
    } else {
        Real { m, e }
    }
}

/// Rounds `num / den * 2^e` where the quotient is small: doubles it until it has 24 bits.
pub open spec fn scale_up(num: int, den: int, e: int) -> Real
    decreases 0x100_0000 * den - num,
    when 0 < num && 0 < den
{
    if num >= 0x80_0000 * den {
        settle(num, den, e)
    } else {
        scale_up(2 * num, den, e - 1)
    }
}

/// Rounds `num / den * 2^e` where the quotient is great: halves it until it has 24 bits.
pub open spec fn scale_down(num: int, den: int, e: int) -> Real
    decreases num - den,
    when 0 < num && 0 < den
{
    if num < 0x100_0000 * den {
        settle(num, den, e)
    } else {
        scale_down(num, 2 * den, e + 1)
    }
}

/// The number of 24 bits nearest to `num / den * 2^e`.
pub open spec fn nearest(num: int, den: int, e: int) -> Real {
    if num == 0 {
        zero()
    } else if num < 0x80_0000 * den {
        scale_up(num, den, e)
    } else {
        scale_down(num, den, e)
    }
}

pub open spec fn min_exp(a: Real, b: Real) -> int {
    if a.e < b.e {
        a.e
    } else {
        b.e
    }
}

/// `a` in units of two to the `e`, where `e` is not above its exponent.
pub open spec fn units(a: Real, e: int) -> int {
    a.m * pow2((a.e - e) as nat)
}

pub open spec fn sum(a: Real, b: Real) -> Real {
    let e = min_exp(a, b);
    nearest(units(a, e) + units(b, e), 1, e)
}

/// The difference, of a number by one that is no greater.
pub open spec fn difference(a: Real, b: Real) -> Real {
    let e = min_exp(a, b);
    nearest(units(a, e) - units(b, e), 1, e)
}

pub open spec fn product(a: Real, b: Real) -> Real {
    nearest(a.m * b.m, 1, a.e + b.e)
}

pub open spec fn ratio(a: Real, b: Real) -> Real {
    nearest(a.m, b.m, a.e - b.e)
}

pub open spec fn less(a: Real, b: Real) -> bool {
    let e = min_exp(a, b);
    units(a, e) < units(b, e)
}

/// The whole part.
pub open spec fn whole(a: Real) -> int {
    if a.e >= 0 {
        a.m * pow2(a.e as nat)
    } else {
        a.m / pow2((-a.e) as nat) as int
    }
}

/// Whether a number is not zero and has 24 bits.
pub open spec fn normal(a: Real) -> bool {
    0x80_0000 <= a.m < 0x100_0000
}

impl Rounded {
    pub open spec fn view(&self) -> Real {
        Real { m: self.m as int, e: self.e as int }
    }
}

// ---------------------------------------------------------------------------
// Where exponents lie
// ---------------------------------------------------------------------------

proof fn lemma_settle(num: int, den: int, e: int)
    requires
        den > 0,
        0x80_0000 * den <= num < 0x100_0000 * den,
    ensures
        normal(settle(num, den, e)),
        e <= settle(num, den, e).e <= e + 1,
{
    assert(0x80_0000 <= num / den < 0x100_0000) by (nonlinear_arith)
        requires
            0x80_0000 * den <= num < 0x100_0000 * den,
            den > 0,
    ;
}

pub proof fn lemma_scale_up(num: int, den: int, e: int)
    requires
        0 < num < 0x100_0000 * den,
        den > 0,
    ensures
        normal(scale_up(num, den, e)),
        scale_up(num, den, e).e <= e + 1,
    decreases 0x100_0000 * den - num,
{
    if num >= 0x80_0000 * den {
        lemma_settle(num, den, e);
    } else {
        lemma_scale_up(2 * num, den, e - 1);
    }
}

/// A quotient that is no smaller than 2^23 after `k` doublings.
pub proof fn lemma_up_least(num: int, den: int, e: int, k: nat)
    requires
        0 < num < 0x100_0000 * den,
        den > 0,
        num * pow2(k) >= 0x80_0000 * den,
    ensures
        scale_up(num, den, e).e >= e - k,
    decreases k,
{
    lemma2_to64();
    if num >= 0x80_0000 * den {
        lemma_settle(num, den, e);
    } else {
        assert(k > 0) by {
            if k == 0 {
                assert(num * pow2(0) == num);
            }
        }
        lemma_pow2_unfold(k);
        let p = pow2((k - 1) as nat) as int;
        assert((2 * num) * p == num * (2 * p)) by (nonlinear_arith);
        lemma_up_least(2 * num, den, e - 1, (k - 1) as nat);
    }
}

/// A quotient that is smaller than 2^23 after `k` doublings.
pub proof fn lemma_up_most(num: int, den: int, e: int, k: nat)
    requires
        0 < num,
        den > 0,
        num * pow2(k) < 0x80_0000 * den,
    ensures
        scale_up(num, den, e).e <= e - k,
    decreases k,
{
    lemma2_to64();
    lemma_pow2_pos(k);
    let q = pow2(k) as int;
    assert(num <= num * q) by (nonlinear_arith)
        requires
            num > 0,
            q >= 1,
    ;
    if k == 0 {
        lemma_scale_up(2 * num, den, e - 1);
    } else {
        lemma_pow2_unfold(k);
        let p = pow2((k - 1) as nat) as int;
        assert((2 * num) * p == num * (2 * p)) by (nonlinear_arith);
        lemma_up_most(2 * num, den, e - 1, (k - 1) as nat);
    }
}

/// A quotient between 2^(23+lo) and 2^(24+hi).
proof fn lemma_down(num: int, den: int, e: int, lo: nat, hi: nat)
    requires
        den > 0,
        0x80_0000 * den * pow2(lo) <= num,
        num < 0x100_0000 * den * pow2(hi),
        lo <= hi,
    ensures
        normal(scale_down(num, den, e)),
        e + lo <= scale_down(num, den, e).e <= e + hi + 1,
    decreases hi,
{
    lemma2_to64();
    lemma_pow2_pos(lo);
    let q = pow2(lo) as int;
    let d8 = 0x80_0000 * den;
    assert(d8 <= d8 * q) by (nonlinear_arith)
        requires
            d8 > 0,
            q >= 1,
    ;
    if num < 0x100_0000 * den {
        if lo > 0 {
            lemma_pow2_unfold(lo);
            let p = pow2((lo - 1) as nat) as int;
            lemma_pow2_pos((lo - 1) as nat);
            assert(d8 * (2 * p) >= 2 * d8) by (nonlinear_arith)
                requires
                    d8 > 0,
                    p >= 1,
            ;
        }
        lemma_settle(num, den, e);
    } else {
        assert(hi > 0) by {
            if hi == 0 {
                assert(0x100_0000 * den * pow2(0) == 0x100_0000 * den);
            }
        }
        lemma_pow2_unfold(hi);
        let p = pow2((hi - 1) as nat) as int;
        assert(0x100_0000 * (2 * den) * p == 0x100_0000 * den * (2 * p)) by (nonlinear_arith);
        let lo2: nat = if lo > 0 {
            (lo - 1) as nat
        } else {
            0
        };
        if lo > 0 {
            lemma_pow2_unfold(lo);
            let r = pow2((lo - 1) as nat) as int;
            assert(0x80_0000 * (2 * den) * r == 0x80_0000 * den * (2 * r)) by (nonlinear_arith);
        } else {
            assert(0x80_0000 * (2 * den) * pow2(0) == 0x100_0000 * den);
        }
        lemma_down(num, 2 * den, e + 1, lo2, (hi - 1) as nat);
    }
}

// ---------------------------------------------------------------------------
// Rounding
// ---------------------------------------------------------------------------

/// The number of 24 bits nearest to `num / den * 2^e`.
fn round_to_nearest(num: u128, den: u128, e: i32) -> (r: Rounded)
    requires
        1 <= den <= 0x100_0000,
        num <= 0x800_0000_0000_0000_0000_0000_0000_0000,
        -1000 <= e <= 1000,
    ensures
        r@ == nearest(num as int, den as int, e as int),
        num > 0 ==> normal(r@),
{
    if num == 0 {
        return Rounded { m: 0, e: 0 };
    }
    let mut n: u128 = num;
    let mut d: u128 = den;
    let mut x: i32 = e;
    proof {
        lemma2_to64();
        lemma_round_range(num as int, den as int, e as int);
    }
    if n < 0x80_0000 * d {
        let ghost mut steps: int = 0;
        while n < 0x80_0000 * d
            invariant
                1 <= d <= 0x100_0000,
                0 < n < 0x100_0000 * d,
                0 <= steps <= 47,
                n >= pow2(steps as nat),
                x == e - steps,
                -1000 <= e <= 1000,
                scale_up(n as int, d as int, x as int) == nearest(num as int, den as int, e as int),
            decreases 0x100_0000 * d - n,
        {
            proof {
                lemma_pow2_unfold((steps + 1) as nat);
                if steps >= 47 {
                    lemma_pow2_47(steps);
                }
            }
            n = 2 * n;
            x = x - 1;
            proof {
                steps = steps + 1;
            }
        }
    } else {
        let ghost mut steps: int = 0;
        while n >= 0x100_0000 * d
            invariant
                0x80_0000 * d <= n <= 0x800_0000_0000_0000_0000_0000_0000_0000,
                d >= 1,
                0 <= steps <= 100,
                d >= pow2(steps as nat),
                x == e + steps,
                -1000 <= e <= 1000,
                scale_down(n as int, d as int, x as int) == nearest(num as int, den as int, e as int),
            decreases n - d,
        {
            proof {
                lemma_pow2_unfold((steps + 1) as nat);
                if steps >= 100 {
                    lemma_pow2_100(steps);
                }
            }
            d = 2 * d;
            x = x + 1;
            proof {
                steps = steps + 1;
            }
        }
    }
    let q: u128 = n / d;
    let rem: u128 = n % d;
    proof {
        lemma_settle(n as int, d as int, x as int);
        let ni = n as int;
        let di = d as int;
        assert(0x80_0000 <= ni / di < 0x100_0000) by (nonlinear_arith)
            requires
                0x80_0000 * di <= ni < 0x100_0000 * di,
                di >= 1,
        ;
        assert(0 <= ni % di < di) by (nonlinear_arith)
            requires
                di >= 1,
        ;
    }
    let m: u128 = if 2 * rem > d || (2 * rem == d && q % 2 == 1) { q + 1 } else { q };
    if m == 0x100_0000 {
        Rounded { m: 0x80_0000, e: x + 1 }
    } else {
        Rounded { m: m as u64, e: x }
    }
}

proof fn lemma_round_range(num: int, den: int, e: int)
    requires
        den >= 1,
        num >= 1,
    ensures
        nearest(num, den, e) == if num < 0x80_0000 * den {
            scale_up(num, den, e)
        } else {
            scale_down(num, den, e)
        },
{
}

proof fn lemma_pow2_47(steps: int)
    requires
        steps >= 47,
    ensures
        pow2(steps as nat) >= 0x8000_0000_0000,
{
    lemma2_to64();
    vstd::arithmetic::power2::lemma2_to64_rest();
    if steps > 47 {
        lemma_pow2_strictly_increases(47, steps as nat);
    }
}

proof fn lemma_pow2_100(steps: int)
    requires
        steps >= 100,
    ensures
        pow2(steps as nat) >= 0x10_0000_0000_0000_0000_0000_0000,
{
    lemma2_to64();
    vstd::arithmetic::power2::lemma2_to64_rest();
    vstd::arithmetic::power2::lemma_pow2_adds(64, 36);
    if steps > 100 {
        lemma_pow2_strictly_increases(100, steps as nat);
    }
}

// ---------------------------------------------------------------------------
// Operations
// ---------------------------------------------------------------------------

/// `m` shifted left by `k`.
fn widen(m: u64, k: u32) -> (r: u128)
    requires
        m < 0x100_0000,
        k <= 98,
    ensures
        r == m * pow2(k as nat),
        r < 0x400_0000_0000_0000_0000_0000_0000_0000,
{
    proof {
        lemma_widen(m as int, k as nat);
    }
    if k <= 60 {
        m as u128 * exp2i(k) as u128
    } else {
        proof {
            lemma_widen(m as int, 60);
            vstd::arithmetic::power2::lemma_pow2_adds(60, (k - 60) as nat);
            let p = pow2(60) as int;
            let q = pow2((k - 60) as nat) as int;
            assert((m * p) * q == m * (p * q)) by (nonlinear_arith);
        }
        m as u128 * exp2i(60) as u128 * exp2i(k - 60) as u128
    }
}

proof fn lemma_widen(m: int, k: nat)
    requires
        0 <= m < 0x100_0000,
        k <= 98,
    ensures
        0 <= m * pow2(k) < 0x400_0000_0000_0000_0000_0000_0000_0000,
{
    lemma2_to64();
    vstd::arithmetic::power2::lemma2_to64_rest();
    vstd::arithmetic::power2::lemma_pow2_adds(64, 34);
    if k < 98 {
        lemma_pow2_strictly_increases(k, 98);
    }
    let p = pow2(k) as int;
    assert(0 <= m * p <= 0xff_ffff * 0x4_0000_0000_0000_0000_0000_0000) by (nonlinear_arith)
        requires
            0 <= m <= 0xff_ffff,
            0 <= p <= 0x4_0000_0000_0000_0000_0000_0000,
    ;
}

pub open spec fn max_exp(a: Real, b: Real) -> int {
    if a.e < b.e {
        b.e
    } else {
        a.e
    }
}

/// Whether a number is at most the integer `c`.
pub open spec fn within(a: Real, c: int) -> bool {
    a.e <= 0 && a.m <= c * pow2((-a.e) as nat)
}

proof fn lemma_halves(c: int, e: int)
    requires
        e < 0,
    ensures
        c * pow2((-e) as nat) == 2 * (c * pow2((-(e + 1)) as nat)),
{
    vstd::arithmetic::power2::lemma_pow2_unfold((-e) as nat);
    let p = pow2((-(e + 1)) as nat) as int;
    assert(c * (2 * p) == 2 * (c * p)) by (nonlinear_arith);
}

/// Rounding does not go past an integer of less than 24 bits.
pub proof fn lemma_settle_within(num: int, den: int, e: int, c: int)
    requires
        den > 0,
        0x80_0000 * den <= num < 0x100_0000 * den,
        e <= 0,
        0 < c < 0x80_0000,
        num <= c * pow2((-e) as nat) * den,
    ensures
        within(settle(num, den, e), c),
{
    let q = num / den;
    let r = num % den;
    let most = c * pow2((-e) as nat);
    lemma2_to64();
    assert(num == q * den + r && 0 <= r < den) by (nonlinear_arith)
        requires
            den > 0,
            q == num / den,
            r == num % den,
    ;
    assert(q <= most) by (nonlinear_arith)
        requires
            den > 0,
            num <= most * den,
            q * den <= num,
    ;
    if r > 0 {
        assert(q < most) by (nonlinear_arith)
            requires
                den > 0,
                q * den < num,
                num <= most * den,
        ;
    }
    if e < 0 {
        lemma_halves(c, e);
    } else {
        assert((-e) as nat == 0nat);
        assert(most == c * 1);
    }
}

pub proof fn lemma_scale_up_within(num: int, den: int, e: int, c: int)
    requires
        0 < num < 0x100_0000 * den,
        den > 0,
        e <= 0,
        0 < c < 0x80_0000,
        num <= c * pow2((-e) as nat) * den,
    ensures
        within(scale_up(num, den, e), c),
    decreases 0x100_0000 * den - num,
{
    if num >= 0x80_0000 * den {
        lemma_settle_within(num, den, e, c);
    } else {
        lemma_halves(c, e - 1);
        let p = c * pow2((-e) as nat);
        assert(2 * num <= (2 * p) * den) by (nonlinear_arith)
            requires
                num <= p * den,
        ;
        lemma_scale_up_within(2 * num, den, e - 1, c);
    }
}

pub proof fn lemma_scale_down_within(num: int, den: int, e: int, c: int)
    requires
        0x80_0000 * den <= num,
        den > 0,
        e <= 0,
        0 < c < 0x80_0000,
        num <= c * pow2((-e) as nat) * den,
    ensures
        within(scale_down(num, den, e), c),
    decreases num - den,
{
    if num < 0x100_0000 * den {
        lemma_settle_within(num, den, e, c);
    } else {
        lemma2_to64();
        let p = c * pow2((-e) as nat);
        if e == 0 {
            assert((-e) as nat == 0nat);
            assert(p == c * 1);
            assert(false) by (nonlinear_arith)
                requires
                    p == c,
                    c < 0x80_0000,
                    den > 0,
                    0x100_0000 * den <= num,
                    num <= p * den,
            ;
        }
        lemma_halves(c, e);
        let h = c * pow2((-(e + 1)) as nat);
        assert(h * (2 * den) == (2 * h) * den) by (nonlinear_arith);
        lemma_scale_down_within(num, 2 * den, e + 1, c);
    }
}

/// Rounding does not go past an integer of less than 24 bits.
pub proof fn lemma_nearest_within(num: int, den: int, e: int, c: int)
    requires
        0 < num,
        den > 0,
        e <= 0,
        0 < c < 0x80_0000,
        num <= c * pow2((-e) as nat) * den,
    ensures
        within(nearest(num, den, e), c),
{
    if num < 0x80_0000 * den {
        lemma_scale_up_within(num, den, e, c);
    } else {
        lemma_scale_down_within(num, den, e, c);
    }
}

/// A sum is not past the sum of the limits of its terms.
pub proof fn lemma_sum_within(a: Real, b: Real, c: int, d: int)
    requires
        normal(a),
        normal(b),
        within(a, c),
        within(b, d),
        0 < c,
        0 < d,
        c + d < 0x80_0000,
    ensures
        within(sum(a, b), c + d),
{
    let e = min_exp(a, b);
    lemma_units_within(a, e, c);
    lemma_units_within(b, e, d);
    let p = pow2((-e) as nat) as int;
    assert((c + d) * p == c * p + d * p) by (nonlinear_arith);
    assert(units(a, e) > 0 && units(b, e) > 0) by {
        vstd::arithmetic::power2::lemma_pow2_pos((a.e - e) as nat);
        vstd::arithmetic::power2::lemma_pow2_pos((b.e - e) as nat);
        let x = pow2((a.e - e) as nat) as int;
        let y = pow2((b.e - e) as nat) as int;
        assert(a.m * x > 0) by (nonlinear_arith)
            requires
                a.m > 0,
                x > 0,
        ;
        assert(b.m * y > 0) by (nonlinear_arith)
            requires
                b.m > 0,
                y > 0,
        ;
    }
    lemma_nearest_within(units(a, e) + units(b, e), 1, e, c + d);
}

proof fn lemma_units_within(a: Real, e: int, c: int)
    requires
        within(a, c),
        e <= a.e,
    ensures
        units(a, e) <= c * pow2((-e) as nat),
{
    let x = pow2((a.e - e) as nat) as int;
    let y = pow2((-a.e) as nat) as int;
    vstd::arithmetic::power2::lemma_pow2_adds((-a.e) as nat, (a.e - e) as nat);
    vstd::arithmetic::power2::lemma_pow2_pos((a.e - e) as nat);
    assert(a.m * x <= c * (y * x)) by (nonlinear_arith)
        requires
            a.m <= c * y,
            x > 0,
    ;
}

/// The whole part of a number is not past an integer that the number is not past.
pub proof fn lemma_whole_within(a: Real, c: int)
    requires
        normal(a),
        within(a, c),
    ensures
        0 <= whole(a) <= c,
{
    lemma2_to64();
    let y = pow2((-a.e) as nat) as int;
    vstd::arithmetic::power2::lemma_pow2_pos((-a.e) as nat);
    assert(0 <= a.m / y <= c) by (nonlinear_arith)
        requires
            0 <= a.m <= c * y,
            y > 0,
    ;
    if a.e == 0 {
        assert((-a.e) as nat == 0nat);
        assert(y == 1);
        assert(c * y == c) by (nonlinear_arith)
            requires
                y == 1,
        ;
        assert(a.m * pow2(a.e as nat) == a.m) by (nonlinear_arith)
            requires
                pow2(a.e as nat) == 1,
        ;
    }
}

/// Where the exponent of a sum lies.
pub proof fn lemma_sum(a: Real, b: Real)
    requires
        normal(a),
        normal(b),
    ensures
        normal(sum(a, b)),
        max_exp(a, b) <= sum(a, b).e <= max_exp(a, b) + 2,
{
    let e = min_exp(a, b);
    let k = (max_exp(a, b) - e) as nat;
    lemma2_to64();
    lemma_pow2_pos(k);
    let p = pow2(k) as int;
    let (x, y) = if a.e < b.e {
        (b.m, a.m)
    } else {
        (a.m, b.m)
    };
    let n = units(a, e) + units(b, e);
    assert(n == x * p + y * 1);
    assert(0x80_0000 * p <= n < 0x100_0000 * (2 * p)) by (nonlinear_arith)
        requires
            n == x * p + y,
            0x80_0000 <= x < 0x100_0000,
            0x80_0000 <= y < 0x100_0000,
            p >= 1,
    ;
    lemma_pow2_unfold(k + 1);
    assert(0x80_0000 * 1 * pow2(k) == 0x80_0000 * p);
    assert(0x80_0000 * p >= 0x80_0000) by (nonlinear_arith)
        requires
            p >= 1,
    ;
    lemma_down(n, 1, e, k, k + 1);
}

/// Where the exponent of a product lies.
pub proof fn lemma_product_exp(a: Real, b: Real)
    requires
        normal(a),
        normal(b),
    ensures
        normal(product(a, b)),
        a.e + b.e + 23 <= product(a, b).e <= a.e + b.e + 25,
{
    lemma2_to64();
    let n = a.m * b.m;
    assert(0x80_0000 * 0x80_0000 <= n < 0x100_0000 * 0x100_0000) by (nonlinear_arith)
        requires
            n == a.m * b.m,
            0x80_0000 <= a.m < 0x100_0000,
            0x80_0000 <= b.m < 0x100_0000,
    ;
    assert(pow2(23) == 0x80_0000 && pow2(24) == 0x100_0000);
    lemma_down(n, 1, a.e + b.e, 23, 24);
}

/// Where the exponent of a quotient lies.
pub proof fn lemma_ratio_exp(a: Real, b: Real)
    requires
        normal(a),
        normal(b),
    ensures
        normal(ratio(a, b)),
        a.e - b.e - 24 <= ratio(a, b).e <= a.e - b.e - 22,
{
    lemma2_to64();
    assert(pow2(24) == 0x100_0000 && pow2(22) == 0x40_0000);
    let e = a.e - b.e;
    lemma_scale_up(a.m, b.m, e);
    lemma_up_least(a.m, b.m, e, 24);
    lemma_up_most(a.m, b.m, e, 22);
}

/// Where the exponent of a whole number lies.
pub proof fn lemma_whole_exp(i: int)
    requires
        1 <= i <= 0x8000_0000,
    ensures
        normal(nearest(i, 1, 0)),
        -23 <= nearest(i, 1, 0).e <= 9,
        i <= 0x7fff_ffff ==> nearest(i, 1, 0).e <= 8,
{
    lemma2_to64();
    if i < 0x80_0000 {
        assert(pow2(23) == 0x80_0000);
        lemma_scale_up(i, 1, 0);
        lemma_up_least(i, 1, 0, 23);
    } else {
        assert(pow2(7) == 128 && pow2(8) == 256);
        lemma_down(i, 1, 0, 0, 8);
        if i <= 0x7fff_ffff {
            lemma_down(i, 1, 0, 0, 7);
        }
    }
}

/// Where the exponent of a difference lies, that is not zero.
pub proof fn lemma_difference(a: Real, b: Real)
    requires
        normal(a),
        normal(b),
        less(b, a),
    ensures
        normal(difference(a, b)),
        min_exp(a, b) - 23 <= difference(a, b).e <= max_exp(a, b) + 1,
{
    let e = min_exp(a, b);
    let k = (max_exp(a, b) - e) as nat;
    lemma2_to64();
    lemma_pow2_pos(k);
    let p = pow2(k) as int;
    let n = units(a, e) - units(b, e);
    assert(pow2(0) == 1 && pow2(23) == 0x80_0000);
    assert(0 <= units(b, e)) by (nonlinear_arith)
        requires
            units(b, e) == b.m * pow2((b.e - e) as nat),
            b.m >= 0,
            pow2((b.e - e) as nat) >= 0,
    ;
    assert(units(a, e) < 0x100_0000 * p) by {
        if a.e < b.e {
            assert(units(a, e) == a.m * 1);
            assert(0x100_0000 * p >= 0x100_0000) by (nonlinear_arith)
                requires
                    p >= 1,
            ;
        } else {
            assert(a.m * p < 0x100_0000 * p) by (nonlinear_arith)
                requires
                    a.m < 0x100_0000,
                    p >= 1,
            ;
        }
    }
    if n < 0x80_0000 {
        lemma_scale_up(n, 1, e);
        lemma_up_least(n, 1, e, 23);
        assert(scale_up(n, 1, e).e <= e + 1) by {
            lemma_up_most(n, 1, e, 0);
        }
    } else {
        assert(0x80_0000 * 1 * pow2(0) <= n);
        assert(0x100_0000 * 1 * pow2(k) == 0x100_0000 * p);
        lemma_down(n, 1, e, 0, k);
    }
}

/// Where the exponent of one less a number lies, that is not zero and below one.
pub proof fn lemma_complement_exp(one: Real, b: Real)
    requires
        one == (Real { m: 0x80_0000, e: -23 }),
        normal(b),
        -60 <= b.e <= -24,
    ensures
        normal(difference(one, b)),
        b.e - 23 <= difference(one, b).e <= -20,
        units(one, b.e) > units(b, b.e),
{
    lemma2_to64();
    vstd::arithmetic::power2::lemma2_to64_rest();
    let k = (-23 - b.e) as nat;
    lemma_pow2_unfold(k);
    lemma_pow2_pos((k - 1) as nat);
    let p = pow2(k) as int;
    assert(p >= 2);
    let n = units(one, b.e) - units(b, b.e);
    assert(units(b, b.e) == b.m * 1);
    assert(1 <= n < 0x80_0000 * p) by (nonlinear_arith)
        requires
            n == 0x80_0000 * p - b.m,
            0 < b.m < 0x100_0000,
            p >= 2,
    ;
    if n < 0x80_0000 {
        assert(pow2(23) == 0x80_0000);
        assert(n * pow2(23) >= 0x80_0000) by (nonlinear_arith)
            requires
                n >= 1,
                pow2(23) == 0x80_0000,
        ;
        lemma_scale_up(n, 1, b.e);
        lemma_up_least(n, 1, b.e, 23);
    } else {
        assert(n < 0x100_0000 * 1 * pow2(k)) by (nonlinear_arith)
            requires
                n < 0x80_0000 * p,
                p == pow2(k),
                p >= 2,
        ;
        assert(0x80_0000 * 1 * pow2(0) <= n);
        lemma_down(n, 1, b.e, 0, k);
    }
}

impl Rounded {
    /// The number nearest to a whole number.
    pub fn from_int(i: i32) -> (r: Self)
        requires
            i >= 0,
        ensures
            r@ == nearest(i as int, 1, 0),
            i > 0 ==> normal(r@) && -23 <= r.e <= 8,
    {
        proof {
            if i > 0 {
                lemma_whole_exp(i as int);
            }
        }
        round_to_nearest(i as u128, 1, 0)
    }

    /// The number nearest to a whole number without its sign.
    pub fn from_size(i: i32) -> (r: Self)
        ensures
            r@ == nearest(if i < 0 {
                -i
            } else {
                i as int
            }, 1, 0),
            i != 0 ==> normal(r@) && -23 <= r.e <= 9,
    {
        let size: i64 = if i < 0 { -(i as i64) } else { i as i64 };
        proof {
            if i != 0 {
                lemma_whole_exp(size as int);
            }
        }
        round_to_nearest(size as u128, 1, 0)
    }

    /// The number nearest to a number of tenths, hundredths and the like.
    pub fn from_ratio(num: i32, den: i32) -> (r: Self)
        requires
            num >= 0,
            1 <= den <= 0x100_0000,
        ensures
            r@ == nearest(num as int, den as int, 0),
            num > 0 ==> normal(r@),
    {
        round_to_nearest(num as u128, den as u128, 0)
    }

    /// The sum of two numbers that are not zero.
    pub fn plus(self, b: Self) -> (r: Self)
        requires
            normal(self@),
            normal(b@),
            -500 <= self.e <= 500,
            -500 <= b.e <= 500,
            -98 <= self.e - b.e <= 98,
        ensures
            r@ == sum(self@, b@),
            normal(r@),
            max_exp(self@, b@) <= r.e <= max_exp(self@, b@) + 2,
    {
        let e: i32 = if self.e < b.e { self.e } else { b.e };
        let x: u128 = widen(self.m, (self.e - e) as u32);
        let y: u128 = widen(b.m, (b.e - e) as u32);
        proof {
            lemma_sum(self@, b@);
        }
        round_to_nearest(x + y, 1, e)
    }

    /// The difference, of a number by one that is less.
    pub fn minus(self, b: Self) -> (r: Self)
        requires
            normal(self@),
            normal(b@),
            -500 <= self.e <= 500,
            -500 <= b.e <= 500,
            -98 <= self.e - b.e <= 98,
            less(b@, self@),
        ensures
            r@ == difference(self@, b@),
            normal(r@),
            min_exp(self@, b@) - 23 <= r.e <= max_exp(self@, b@) + 1,
    {
        let e: i32 = if self.e < b.e { self.e } else { b.e };
        let x: u128 = widen(self.m, (self.e - e) as u32);
        let y: u128 = widen(b.m, (b.e - e) as u32);
        proof {
            lemma_difference(self@, b@);
        }
        round_to_nearest(x - y, 1, e)
    }

    /// One less a number that is not zero and below one.
    pub fn complement(self) -> (r: Self)
        requires
            normal(self@),
            -60 <= self.e <= -24,
        ensures
            r@ == difference(Real { m: 0x80_0000, e: -23 }, self@),
            normal(r@),
            self.e - 23 <= r.e <= -20,
    {
        let x: u128 = widen(0x80_0000, (-23 - self.e) as u32);
        proof {
            let one = Real { m: 0x80_0000, e: -23 };
            lemma_complement_exp(one, self@);
            lemma2_to64();
            assert(units(self@, self.e as int) == self.m * 1);
            assert(units(one, self.e as int) == x);
        }
        round_to_nearest(x - self.m as u128, 1, self.e)
    }

    /// The product of two numbers that are not zero.
    pub fn times(self, b: Self) -> (r: Self)
        requires
            normal(self@),
            normal(b@),
            -400 <= self.e <= 400,
            -400 <= b.e <= 400,
        ensures
            r@ == product(self@, b@),
            normal(r@),
            self.e + b.e + 23 <= r.e <= self.e + b.e + 25,
    {
        proof {
            assert(0 <= self.m * b.m < 0x100_0000 * 0x100_0000) by (nonlinear_arith)
                requires
                    0 <= self.m < 0x100_0000,
                    0 <= b.m < 0x100_0000,
            ;
            lemma_product_exp(self@, b@);
        }
        round_to_nearest(self.m as u128 * b.m as u128, 1, self.e + b.e)
    }

    /// The quotient of two numbers that are not zero.
    pub fn over(self, b: Self) -> (r: Self)
        requires
            normal(self@),
            normal(b@),
            -400 <= self.e <= 400,
            -400 <= b.e <= 400,
        ensures
            r@ == ratio(self@, b@),
            normal(r@),
            self.e - b.e - 24 <= r.e <= self.e - b.e - 22,
    {
        proof {
            lemma_ratio_exp(self@, b@);
        }
        round_to_nearest(self.m as u128, b.m as u128, self.e - b.e)
    }

    /// Whether one number is less than another.
    pub fn is_less(self, b: Self) -> (r: bool)
        requires
            normal(self@),
            normal(b@),
            -500 <= self.e <= 500,
            -500 <= b.e <= 500,
            -98 <= self.e - b.e <= 98,
        ensures
            r == less(self@, b@),
    {
        let e: i32 = if self.e < b.e { self.e } else { b.e };
        let x: u128 = widen(self.m, (self.e - e) as u32);
        let y: u128 = widen(b.m, (b.e - e) as u32);
        x < y
    }

    /// The whole part, as far as it fits.
    pub fn floor(self) -> (r: i32)
        requires
            normal(self@),
            -500 <= self.e <= 500,
        ensures
            r == if whole(self@) > i32::MAX {
                i32::MAX as int
            } else {
                whole(self@)
            },
            r >= 0,
    {
        proof {
            lemma2_to64();
            if self.e >= 8 {
                if self.e > 8 {
                    lemma_pow2_strictly_increases(8, self.e as nat);
                }
                let p = pow2(self.e as nat) as int;
                assert(self.m * p >= 0x80_0000 * 256) by (nonlinear_arith)
                    requires
                        self.m >= 0x80_0000,
                        p >= 256,
                ;
            } else if self.e >= 0 {
                lemma_pow2_strictly_increases(self.e as nat, 8);
                let p = pow2(self.e as nat) as int;
                assert(0 <= self.m * p <= 0x100_0000 * 256) by (nonlinear_arith)
                    requires
                        0 <= self.m <= 0x100_0000,
                        0 <= p <= 256,
                ;
            } else {
                lemma_pow2_pos((-self.e) as nat);
                let p = pow2((-self.e) as nat) as int;
                assert(0 <= self.m as int / p <= self.m) by (nonlinear_arith)
                    requires
                        self.m >= 0,
                        p >= 1,
                ;
                if self.e <= -24 {
                    if self.e < -24 {
                        lemma_pow2_strictly_increases(24, (-self.e) as nat);
                    }
                    assert(self.m as int / p == 0) by (nonlinear_arith)
                        requires
                            0 <= self.m < p,
                    ;
                }
            }
        }
        if self.e >= 8 {
            return 0x7fff_ffff;
        }
        if self.e <= -24 {
            return 0;
        }
        let w: i64 = if self.e >= 0 {
            self.m as i64 * exp2i(self.e as u32)
        } else {
            self.m as i64 / exp2i((-self.e) as u32)
        };
        if w > 0x7fff_ffff {
            0x7fff_ffff
        } else {
            w as i32
        }
    }
}

// ---------------------------------------------------------------------------
// How near the nearest is
// ---------------------------------------------------------------------------

/// Whether a number is `num / den * 2^e`, to within its own last bit.
pub open spec fn close(r: Real, num: int, den: int, e: int) -> bool {
    let lo = if r.e < e {
        r.e
    } else {
        e
    };
    let exact = num * pow2((e - lo) as nat);
    let bit = den * pow2((r.e - lo) as nat);
    -bit <= r.m * bit - exact <= bit
}

proof fn lemma_settle_close(num: int, den: int, e: int)
    requires
        den > 0,
        0x80_0000 * den <= num < 0x100_0000 * den,
    ensures
        close(settle(num, den, e), num, den, e),
{
    lemma2_to64();
    let q = num / den;
    let r = num % den;
    assert(num == q * den + r && 0 <= r < den) by (nonlinear_arith)
        requires
            q == num / den,
            r == num % den,
            den > 0,
    ;
    assert(0x80_0000 <= q < 0x100_0000) by (nonlinear_arith)
        requires
            q == num / den,
            0x80_0000 * den <= num < 0x100_0000 * den,
            den > 0,
    ;
    let x = settle(num, den, e);
    assert((q + 1) * den == q * den + den) by (nonlinear_arith);
    assert(num * 1 == num && den * 1 == den);
    if x.e == e + 1 {
        assert(pow2(1) == 2);
        assert(x.m * (den * 2) == 0x100_0000 * den) by (nonlinear_arith)
            requires
                x.m == 0x80_0000,
        ;
    }
}

proof fn lemma_up_close(num: int, den: int, e: int)
    requires
        0 < num < 0x100_0000 * den,
        den > 0,
    ensures
        close(scale_up(num, den, e), num, den, e),
        scale_up(num, den, e).e <= e + 1,
    decreases 0x100_0000 * den - num,
{
    lemma2_to64();
    if num >= 0x80_0000 * den {
        lemma_settle_close(num, den, e);
    } else {
        lemma_up_close(2 * num, den, e - 1);
        let r = scale_up(num, den, e);
        if r.e < e {
            lemma_pow2_unfold((e - r.e) as nat);
            let p = pow2((e - 1 - r.e) as nat) as int;
            assert(num * (2 * p) == (2 * num) * p) by (nonlinear_arith);
        } else {
            assert(pow2(0) == 1 && pow2(1) == 2);
            let m = r.m;
            assert(m * (den * 2) == 2 * (m * den)) by (nonlinear_arith);
            assert((2 * num) * 1 == 2 * num && num * 1 == num && den * 1 == den);
            assert(r.e == e);
            assert(-(den * 2) <= m * (den * 2) - (2 * num) * 1 <= den * 2);
            assert(-den <= m * den - num <= den);
        }
    }
}

proof fn lemma_down_close(num: int, den: int, e: int)
    requires
        0x80_0000 * den <= num,
        den > 0,
    ensures
        close(scale_down(num, den, e), num, den, e),
        scale_down(num, den, e).e >= e,
    decreases num - den,
{
    lemma2_to64();
    if num < 0x100_0000 * den {
        lemma_settle_close(num, den, e);
    } else {
        lemma_down_close(num, 2 * den, e + 1);
        let r = scale_down(num, den, e);
        lemma_pow2_unfold((r.e - e) as nat);
        let p = pow2((r.e - e - 1) as nat) as int;
        assert(den * (2 * p) == (2 * den) * p) by (nonlinear_arith);
        assert(num * 1 == num);
    }
}

/// The nearest number is within its own last bit of the exact one.
pub proof fn nearest_is_close(num: int, den: int, e: int)
    requires
        0 < num,
        0 < den,
    ensures
        close(nearest(num, den, e), num, den, e),
{
    if num < 0x80_0000 * den {
        lemma_up_close(num, den, e);
    } else {
        lemma_down_close(num, den, e);
    }
}

} // verus!
