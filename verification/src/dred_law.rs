//! What holds of the quantizers of redundancy, and of when there is any.

use vstd::prelude::*;
use vstd::arithmetic::power2::{
    lemma2_to64, lemma_pow2_adds, lemma_pow2_pos, lemma_pow2_strictly_increases, lemma_pow2_unfold,
    pow2,
};
use crate::arith::{bit_length, ilog2, max_int, min_int};
use crate::dred::{
    affordable_chunks, at_most, chunk_tenths, chunks_of, dred_plan, quantizer, share_by_loss,
};
use crate::rounding::{
    lemma_product_exp, lemma_ratio_exp, lemma_scale_up, lemma_sum, lemma_up_least, lemma_up_most,
    nearest, nearest_is_close, normal, product, ratio, sum, units, Real,
};

verus! {

/// Chunks are coded the more coarsely the further back they reach: they start with the first
/// quantizer, and go to the last one, sixteen chunks by zero, two, three, four, six, eight,
/// twelve or sixteen steps.
pub proof fn quantizers_rise(q0: int, d_q: int, qmax: int, i: int, j: int)
    requires
        0 <= i <= j,
        0 <= d_q <= 7,
    ensures
        quantizer(q0, d_q, qmax, i) <= quantizer(q0, d_q, qmax, j) <= qmax,
        quantizer(q0, d_q, qmax, 0) == min_int(q0, qmax),
        ({
            let steps = if d_q == 0 {
                0int
            } else if d_q <= 3 {
                d_q + 1
            } else if d_q <= 5 {
                2 * d_q - 2
            } else {
                4 * d_q - 12
            };
            quantizer(q0, d_q, qmax, i + 16) == min_int(
                qmax,
                q0 + (steps * i + 8) / 16 + steps,
            )
        }),
{
    let s = crate::dred::quantizer_slope(d_q);
    assert(s * i <= s * j && s * (i + 16) == s * i + 16 * s && s * 0 == 0) by (nonlinear_arith)
        requires
            0 <= i <= j,
            s >= 0,
    ;
}

/// A coarser quantizer takes fewer bits.
pub proof fn coarser_is_cheaper(q: int, r: int)
    requires
        0 <= q < r <= 15,
    ensures
        chunk_tenths(q) > chunk_tenths(r),
        chunk_tenths(q) <= 732,
        chunk_tenths(r) >= 64,
{
}

proof fn lemma_bit_length_order(x: int, y: int)
    requires
        1 <= x <= y,
    ensures
        bit_length(x) <= bit_length(y),
    decreases y,
{
    if x > 1 {
        lemma_bit_length_order(x / 2, y / 2);
    } else if y > 1 {
        lemma_bit_length_order(1, y / 2);
    }
}

proof fn lemma_nothing_affordable(q0: int, d_q: int, qmax: int, n: int)
    ensures
        affordable_chunks(q0, d_q, qmax, n, 0) == 0,
    decreases n,
{
    if n > 0 {
        lemma_nothing_affordable(q0, d_q, qmax, n - 1);
    }
}

/// The more there is to spend, the finer redundancy starts: from the fourth quantizer to the
/// last, one for each doubling by three; and it gets coarser the slower above 36000 bits a
/// second. There is none without a duration, without loss, and without anything to spend
/// beyond 12000 bits a second, or 20000 with error correction.
pub proof fn redundancy_by_rate(
    fec: bool,
    loss: int,
    fs: int,
    duration: int,
    bitrate: int,
    more: int,
    frame_size: int,
)
    requires
        0 <= loss,
        bitrate <= more,
        1 <= frame_size <= 6 * fs,
    ensures
        ({
            let p = dred_plan(fec, loss, fs, duration, bitrate, frame_size);
            let q = dred_plan(fec, loss, fs, duration, more, frame_size);
            let spare = bitrate - if fec {
                20000int
            } else {
                12000
            };
            &&& 4 <= q.q0 <= p.q0 <= 15
            &&& spare < 4096 ==> p.q0 == 15
            &&& 4096 <= spare < 8192 ==> p.q0 == 12
            &&& 8192 <= spare < 16384 ==> p.q0 == 9
            &&& 16384 <= spare < 32768 ==> p.q0 == 6
            &&& 32768 <= spare ==> p.q0 == 4
            &&& p.d_q == if spare > 36000 {
                3int
            } else {
                5
            }
            &&& p.qmax == 15
            &&& duration <= 0 || loss == 0 || spare <= 0 ==> p.bitrate == 0 && p.chunks == 0
            &&& p.chunks < 2 ==> p.bitrate == 0
        }),
{
    let spare = bitrate - if fec {
        20000int
    } else {
        12000
    };
    let next = more - if fec {
        20000int
    } else {
        12000
    };
    lemma_bit_length_order(max_int(1, spare), max_int(1, next));
    let x = max_int(1, spare);
    if x < 4096 {
        lemma_bit_length_order(x, 4095);
        reveal_with_fuel(ilog2, 14);
        assert(bit_length(4095) == 12);
    } else if x < 8192 {
        lemma_bit_length_order(4096, x);
        lemma_bit_length_order(x, 8191);
        reveal_with_fuel(ilog2, 15);
        assert(bit_length(4096) == 13 && bit_length(8191) == 13);
    } else if x < 16384 {
        lemma_bit_length_order(8192, x);
        lemma_bit_length_order(x, 16383);
        reveal_with_fuel(ilog2, 16);
        assert(bit_length(8192) == 14 && bit_length(16383) == 14);
    } else if x < 32768 {
        lemma_bit_length_order(16384, x);
        lemma_bit_length_order(x, 32767);
        reveal_with_fuel(ilog2, 17);
        assert(bit_length(16384) == 15 && bit_length(32767) == 15);
    } else {
        lemma_bit_length_order(32768, x);
        reveal_with_fuel(ilog2, 18);
        assert(bit_length(32768) == 16);
    }
    let rate = 6 * fs / frame_size;
    assert(rate >= 1) by (nonlinear_arith)
        requires
            rate == 6 * fs / frame_size,
            1 <= frame_size <= 6 * fs,
    ;
    assert(0int / rate == 0) by (nonlinear_arith)
        requires
            rate >= 1,
    ;
    let p = dred_plan(fec, loss, fs, duration, bitrate, frame_size);
    lemma_nothing_affordable(p.q0, p.d_q, 15, chunks_of(duration));
}

// ---------------------------------------------------------------------------
// The share of redundancy
// ---------------------------------------------------------------------------

/// Whether a number below one is `p` hundredths, to within `slack` hundredths of its last bit.
pub open spec fn is_percent(f: Real, p: int, slack: int) -> bool {
    f.e < 0 && -slack <= 100 * f.m - p * pow2((-f.e) as nat) <= slack
}

proof fn lemma_hundred()
    ensures
        nearest(100, 1, 0) == (Real { m: 13107200, e: -17 }),
        nearest(3, 1, 0) == (Real { m: 12582912, e: -22 }),
        nearest(7, 10, 0) == (Real { m: 11744051, e: -24 }),
        nearest(8, 10, 0) == (Real { m: 13421773, e: -24 }),
        nearest(55, 100, 0) == (Real { m: 9227469, e: -24 }),
{
    reveal_with_fuel(crate::rounding::scale_up, 26);
}

/// A whole number in 24 bits.
proof fn lemma_whole_close(i: int)
    requires
        1 <= i <= 99,
    ensures
        ({
            let a = nearest(i, 1, 0);
            &&& normal(a)
            &&& -23 <= a.e <= -16
            &&& -1 <= a.m - i * pow2((-a.e) as nat) <= 1
        }),
{
    lemma2_to64();
    nearest_is_close(i, 1, 0);
    lemma_scale_up(i, 1, 0);
    assert(pow2(23) == 0x80_0000 && pow2(16) == 65536);
    lemma_up_least(i, 1, 0, 23);
    lemma_up_most(i, 1, 0, 16);
    let a = nearest(i, 1, 0);
    assert(1 * pow2(0) == 1);
    assert(a.m * 1 == a.m);
}

/// A hundredth of a number.
proof fn lemma_percent(a: Real, i: int)
    requires
        normal(a),
        -23 <= a.e <= -13,
        1 <= i <= 297,
        -3 <= a.m - i * pow2((-a.e) as nat) <= 3,
    ensures
        ({
            let f = ratio(a, nearest(100, 1, 0));
            &&& normal(f)
            &&& -31 <= f.e <= -17
            &&& is_percent(f, i, 500)
        }),
{
    lemma_hundred();
    lemma2_to64();
    let h = nearest(100, 1, 0);
    let f = ratio(a, h);
    lemma_ratio_exp(a, h);
    nearest_is_close(a.m, h.m, a.e - h.e);
    let k = a.e + 17 - f.e;
    assert(22 <= k <= 24);
    assert(1 * h.m == h.m && h.m * pow2(0) == h.m);
    let t = pow2(k as nat) as int;
    assert(pow2(22) == 0x40_0000 && pow2(23) == 0x80_0000 && pow2(24) == 0x100_0000);
    assert(-13107200 <= f.m * 13107200 - a.m * t <= 13107200);
    let p = pow2((-a.e) as nat) as int;
    let q = pow2((-f.e) as nat) as int;
    lemma_pow2_adds((-a.e) as nat, (k - 17) as nat);
    assert(pow2(5) == 32 && pow2(6) == 64 && pow2(7) == 128);
    let x = i * p;
    let y = i * q;
    if k == 22 {
        assert(q == p * 32);
        assert(a.m * t == a.m * 0x40_0000) by (nonlinear_arith)
            requires
                t == 0x40_0000,
        ;
        assert(y == 32 * x) by (nonlinear_arith)
            requires
                y == i * q,
                x == i * p,
                q == p * 32,
        ;
    } else if k == 23 {
        assert(q == p * 64);
        assert(a.m * t == a.m * 0x80_0000) by (nonlinear_arith)
            requires
                t == 0x80_0000,
        ;
        assert(y == 64 * x) by (nonlinear_arith)
            requires
                y == i * q,
                x == i * p,
                q == p * 64,
        ;
    } else {
        assert(q == p * 128);
        assert(a.m * t == a.m * 0x100_0000) by (nonlinear_arith)
            requires
                t == 0x100_0000,
        ;
        assert(y == 128 * x) by (nonlinear_arith)
            requires
                y == i * q,
                x == i * p,
                q == p * 128,
        ;
    }
}

/// Three times a number.
proof fn lemma_thrice(i: int)
    requires
        1 <= i <= 99,
    ensures
        ({
            let b = product(nearest(3, 1, 0), nearest(i, 1, 0));
            &&& normal(b)
            &&& -23 <= b.e <= -13
            &&& -3 <= b.m - (3 * i) * pow2((-b.e) as nat) <= 3
        }),
{
    lemma_hundred();
    lemma2_to64();
    lemma_whole_close(i);
    let a = nearest(i, 1, 0);
    let c = nearest(3, 1, 0);
    let b = product(c, a);
    lemma_product_exp(c, a);
    let e = a.e - 22;
    assert(c.m * a.m > 0) by (nonlinear_arith)
        requires
            c.m > 0,
            a.m > 0,
    ;
    nearest_is_close(c.m * a.m, 1, e);
    let j = b.e - e;
    assert(23 <= j <= 25);
    let t = pow2(j as nat) as int;
    assert(pow2(23) == 0x80_0000 && pow2(24) == 0x100_0000 && pow2(25) == 0x200_0000);
    assert((12582912 * a.m) * 1 == 12582912 * a.m && 1 * t == t);
    assert(-t <= b.m * t - 12582912 * a.m <= t);
    let p = pow2((-a.e) as nat) as int;
    let q = pow2((-b.e) as nat) as int;
    lemma_pow2_adds((-b.e) as nat, (j - 22) as nat);
    assert(pow2(1) == 2 && pow2(2) == 4 && pow2(3) == 8);
    let x = i * p;
    let y = (3 * i) * q;
    if j == 23 {
        assert(p == q * 2);
        assert(b.m * t == b.m * 0x80_0000) by (nonlinear_arith)
            requires
                t == 0x80_0000,
        ;
        assert(3 * x == 2 * y) by (nonlinear_arith)
            requires
                x == i * p,
                y == (3 * i) * q,
                p == q * 2,
        ;
    } else if j == 24 {
        assert(p == q * 4);
        assert(b.m * t == b.m * 0x100_0000) by (nonlinear_arith)
            requires
                t == 0x100_0000,
        ;
        assert(3 * x == 4 * y) by (nonlinear_arith)
            requires
                x == i * p,
                y == (3 * i) * q,
                p == q * 4,
        ;
    } else {
        assert(p == q * 8);
        assert(b.m * t == b.m * 0x200_0000) by (nonlinear_arith)
            requires
                t == 0x200_0000,
        ;
        assert(3 * x == 8 * y) by (nonlinear_arith)
            requires
                x == i * p,
                y == (3 * i) * q,
                p == q * 8,
        ;
    }
}

/// The smaller of a limit and a number of hundredths.
proof fn lemma_at_most(limit: Real, l: int, f: Real, p: int)
    requires
        normal(limit),
        limit.e == -24,
        50 <= l <= 90,
        -100 <= 100 * limit.m - l * 0x100_0000 <= 100,
        normal(f),
        -31 <= f.e <= -15,
        1 <= p <= 297,
        is_percent(f, p, 700),
    ensures
        is_percent(at_most(limit, f), min_int(l, p), 700),
{
    lemma2_to64();
    let q = pow2((-f.e) as nat) as int;
    assert(pow2(24) == 0x100_0000);
    if f.e <= -24 {
        let k = (-24 - f.e) as nat;
        lemma_pow2_adds(24, k);
        lemma_pow2_pos(k);
        let r = pow2(k) as int;
        assert(q == 0x100_0000 * r) by (nonlinear_arith)
            requires
                q == 0x100_0000 * r,
        ;
        assert(units(f, f.e) == f.m * 1);
        assert(units(limit, f.e) == limit.m * r);
        let u = limit.m * r;
        assert(-100 * r <= 100 * u - l * (0x100_0000 * r) <= 100 * r) by (nonlinear_arith)
            requires
                u == limit.m * r,
                -100 <= 100 * limit.m - l * 0x100_0000 <= 100,
                r >= 1,
        ;
        if u < f.m {
            assert(p >= l) by (nonlinear_arith)
                requires
                    100 * u < 100 * f.m,
                    100 * f.m <= p * q + 700,
                    100 * u >= l * q - 100 * r,
                    q == 0x100_0000 * r,
                    r >= 1,
            ;
        } else {
            assert(p <= l) by (nonlinear_arith)
                requires
                    100 * f.m <= 100 * u,
                    100 * f.m >= p * q - 700,
                    100 * u <= l * q + 100 * r,
                    q == 0x100_0000 * r,
                    r >= 1,
            ;
        }
    } else {
        // One or more.
        let k = (f.e + 24) as nat;
        lemma_pow2_unfold(k);
        lemma_pow2_pos((k - 1) as nat);
        let r = pow2(k) as int;
        lemma_pow2_adds((-f.e) as nat, k);
        assert(q * r == 0x100_0000) by (nonlinear_arith)
            requires
                q * r == 0x100_0000,
        ;
        assert(units(limit, -24) == limit.m * 1);
        assert(units(f, -24) == f.m * r);
        assert(f.m * r >= 0x100_0000) by (nonlinear_arith)
            requires
                f.m >= 0x80_0000,
                r >= 2,
        ;
        assert(q <= 0x80_0000) by (nonlinear_arith)
            requires
                q * r == 0x100_0000,
                r >= 2,
                q >= 0,
        ;
        assert(p >= 99) by (nonlinear_arith)
            requires
                p * q >= 100 * 0x80_0000 - 700,
                q <= 0x80_0000,
                p >= 0,
        ;
    }
}

/// More than half, and a number of hundredths.
proof fn lemma_added(part: Real, i: int)
    requires
        normal(part),
        -31 <= part.e <= -17,
        1 <= i <= 99,
        is_percent(part, i, 500),
    ensures
        ({
            let x = sum(nearest(55, 100, 0), part);
            &&& normal(x)
            &&& -24 <= x.e <= -15
            &&& is_percent(x, 55 + i, 700)
        }),
{
    lemma2_to64();
    lemma_hundred();
    let c = nearest(55, 100, 0);
    let q = pow2((-part.e) as nat) as int;
    assert(pow2(24) == 0x100_0000 && pow2(23) == 0x80_0000);
    if part.e > -24 {
        if part.e > -23 {
            lemma_pow2_strictly_increases((-part.e) as nat, 23);
        }
        assert(65536 <= q) by {
            assert(pow2(17) == 131072);
            if part.e < -17 {
                lemma_pow2_strictly_increases(17, (-part.e) as nat);
            }
        }
        assert(i >= 100) by (nonlinear_arith)
            requires
                i * q >= 100 * 0x80_0000 - 500,
                65536 <= q <= 0x80_0000,
        ;
    }
    assert(part.e <= -24);
    let k = (-24 - part.e) as nat;
    lemma_pow2_adds(24, k);
    lemma_pow2_pos(k);
    let s = pow2(k) as int;
    assert(units(part, part.e) == part.m * 1);
    assert(units(c, part.e) == 9227469 * s);
    let n = 9227469 * s + part.m;
    let x = sum(c, part);
    lemma_sum(c, part);
    nearest_is_close(n, 1, part.e);
    let j = (x.e - part.e) as nat;
    let t = pow2(j) as int;
    lemma_pow2_pos(j);
    assert(n * 1 == n && 1 * t == t);
    assert(-t <= x.m * t - n <= t);
    let w = pow2((-x.e) as nat) as int;
    lemma_pow2_adds((-x.e) as nat, j);
    assert(q == w * t);
    // The bits of a half and more are no finer than those of the sum.
    lemma_pow2_adds(k, (x.e + 24) as nat);
    let z = pow2((x.e + 24) as nat) as int;
    lemma_pow2_pos((x.e + 24) as nat);
    assert(t == s * z);
    assert(s <= t) by (nonlinear_arith)
        requires
            t == s * z,
            z >= 1,
            s >= 1,
    ;
    let y = i * q;
    assert((55 + i) * q == 55 * q + y) by (nonlinear_arith)
        requires
            y == i * q,
    ;
    assert(q == 0x100_0000 * s);
    let d = 100 * (x.m * t) - (55 + i) * q;
    assert(-620 * t <= d <= 620 * t);
    let g = 100 * x.m - (55 + i) * w;
    assert(d == g * t) by (nonlinear_arith)
        requires
            d == 100 * (x.m * t) - (55 + i) * q,
            g == 100 * x.m - (55 + i) * w,
            q == w * t,
    ;
    assert(-620 <= g <= 620) by (nonlinear_arith)
        requires
            -620 * t <= g * t <= 620 * t,
            t >= 1,
    ;
}

/// What redundancy is worth in packets of 20 ms, in hundredths of the bitrate, to within a ten
/// thousandth of one: three for each that is lost with error correction, up to 70; without it
/// twelve for each up to five, then 55 and one for each, up to 80.
pub proof fn redundancy_by_loss(fec: bool, loss: int)
    requires
        1 <= loss <= 99,
    ensures
        is_percent(
            share_by_loss(fec, loss),
            if fec {
                min_int(70, 3 * loss)
            } else if loss > 5 {
                min_int(80, 55 + loss)
            } else {
                12 * loss
            },
            700,
        ),
{
    lemma_hundred();
    lemma_whole_close(loss);
    if fec {
        lemma_thrice(loss);
        let b = product(nearest(3, 1, 0), nearest(loss, 1, 0));
        lemma_percent(b, 3 * loss);
        lemma_at_most(nearest(7, 10, 0), 70, ratio(b, nearest(100, 1, 0)), 3 * loss);
    } else if loss > 5 {
        let part = ratio(nearest(loss, 1, 0), nearest(100, 1, 0));
        lemma_percent(nearest(loss, 1, 0), loss);
        lemma_added(part, loss);
        lemma_at_most(nearest(8, 10, 0), 80, sum(nearest(55, 100, 0), part), 55 + loss);
    } else {
        lemma_whole_close(12 * loss);
        lemma_percent(nearest(12 * loss, 1, 0), 12 * loss);
    }
}

} // verus!
