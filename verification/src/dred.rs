//! The bitrate of deep redundancy: how much of a packet's bitrate goes to it, and how
//! many chunks of it that pays for. The rates were fitted with numbers of 24 significant
//! bits, rounded at each step, and are computed in just that way.

use vstd::prelude::*;
use vstd::arithmetic::power2::{lemma2_to64, pow2};
use crate::arith::{bit_length, ec_ilog, imax, imin, max_int, min_int, tdiv};
use crate::rates::{bitrate_of, bitrate_to_bits, bits_of, bits_to_bitrate, rate_domain, valid_fs};
use crate::rounding::{
    difference, lemma_complement_exp, lemma_difference, lemma_nearest_within, lemma_product_exp, lemma_ratio_exp,
    lemma_scale_up, lemma_sum, lemma_sum_within, lemma_up_least,
    lemma_up_most, lemma_whole_exp, lemma_whole_within, less, nearest, normal, product, ratio,
    scale_up, sum, units, whole, within, zero, Real, Rounded,
};

verus! {

/// Longest redundancy, in units of 2.5 ms.
pub const DRED_MAX_FRAMES: i32 = 104;

/// Most chunks of redundancy in a packet.
pub const DRED_MAX_CHUNKS: i32 = 26;

/// Bytes in front of redundancy while its format is experimental.
pub const DRED_EXPERIMENTAL_BYTES: i32 = 2;

/// The extension that carries redundancy.
pub const DRED_EXTENSION_ID: i32 = 126;

/// Most bytes of redundancy in a packet.
pub const DRED_MAX_DATA_SIZE: i32 = 1000;

/// Fewest bytes that redundancy is written in.
pub const DRED_MIN_BYTES: i32 = 8;

// ---------------------------------------------------------------------------
// Quantizers
// ---------------------------------------------------------------------------

/// How fast the quantizer grows with the chunk, in sixteenths.
pub open spec fn quantizer_slope(d_q: int) -> int {
    if d_q <= 0 {
        0
    } else if d_q == 1 {
        2
    } else if d_q == 2 {
        3
    } else if d_q == 3 {
        4
    } else if d_q == 4 {
        6
    } else if d_q == 5 {
        8
    } else if d_q == 6 {
        12
    } else {
        16
    }
}

/// The quantizer of chunk `i`.
pub open spec fn quantizer(q0: int, d_q: int, qmax: int, i: int) -> int {
    min_int(qmax, q0 + (quantizer_slope(d_q) * i + 8) / 16)
}

/// Whether each of the first `n` chunks has one of the sixteen quantizers, by one of the
/// eight slopes.
pub open spec fn quantizers_known(q0: int, d_q: int, qmax: int, n: int) -> bool {
    &&& n > 0 ==> 0 <= d_q <= 7
    &&& forall|i: int| 0 <= i < n ==> 0 <= #[trigger] quantizer(q0, d_q, qmax, i) <= 15
}

/// The quantizer of chunk `i`.
pub fn compute_quantizer(q0: i32, d_q: i32, qmax: i32, i: i32) -> (r: i32)
    requires
        0 <= q0 <= 15,
        0 <= d_q <= 7,
        0 <= i <= 1000,
    ensures
        r == quantizer(q0 as int, d_q as int, qmax as int, i as int),
        qmax >= 0 ==> r >= 0,
{
    let slope: i32 = if d_q <= 0 {
        0
    } else if d_q == 1 {
        2
    } else if d_q == 2 {
        3
    } else if d_q == 3 {
        4
    } else if d_q == 4 {
        6
    } else if d_q == 5 {
        8
    } else if d_q == 6 {
        12
    } else {
        16
    };
    proof {
        assert(0 <= slope * i <= 16000) by (nonlinear_arith)
            requires
                0 <= slope <= 16,
                0 <= i <= 1000,
        ;
    }
    imin(qmax, q0 + (slope * i + 8) / 16)
}

/// Tenths of bits that a chunk takes at a quantizer.
pub open spec fn chunk_tenths(q: int) -> int {
    if q <= 0 {
        732
    } else if q == 1 {
        681
    } else if q == 2 {
        625
    } else if q == 3 {
        570
    } else if q == 4 {
        515
    } else if q == 5 {
        457
    } else if q == 6 {
        399
    } else if q == 7 {
        324
    } else if q == 8 {
        264
    } else if q == 9 {
        204
    } else if q == 10 {
        163
    } else if q == 11 {
        130
    } else if q == 12 {
        93
    } else if q == 13 {
        82
    } else if q == 14 {
        72
    } else {
        64
    }
}

/// Bits that a chunk takes at a quantizer.
pub open spec fn chunk_bits(q: int) -> Real {
    nearest(chunk_tenths(q), 10, 0)
}

/// Bits that a chunk takes at a quantizer.
pub fn bits_of_chunk(q: i32) -> (r: Rounded)
    requires
        0 <= q <= 15,
    ensures
        r@ == chunk_bits(q as int),
        normal(r@),
        -22 <= r.e <= -16,
{
    let tenths: i32 = if q <= 0 {
        732
    } else if q == 1 {
        681
    } else if q == 2 {
        625
    } else if q == 3 {
        570
    } else if q == 4 {
        515
    } else if q == 5 {
        457
    } else if q == 6 {
        399
    } else if q == 7 {
        324
    } else if q == 8 {
        264
    } else if q == 9 {
        204
    } else if q == 10 {
        163
    } else if q == 11 {
        130
    } else if q == 12 {
        93
    } else if q == 13 {
        82
    } else if q == 14 {
        72
    } else {
        64
    };
    proof {
        lemma2_to64();
        assert(pow2(22) == 0x40_0000 && pow2(16) == 65536);
        lemma_scale_up(tenths as int, 10, 0);
        lemma_up_least(tenths as int, 10, 0, 22);
        lemma_up_most(tenths as int, 10, 0, 16);
    }
    Rounded::from_ratio(tenths, 10)
}

// ---------------------------------------------------------------------------
// The size of redundancy
// ---------------------------------------------------------------------------

/// Bits of redundancy of `n` chunks: five bytes of signalling, the state to start from,
/// and the chunks.
pub open spec fn dred_bits(q0: int, d_q: int, qmax: int, n: int) -> Real
    decreases n,
{
    if n <= 0 {
        sum(nearest(40, 1, 0), sum(nearest(50, 1, 0), chunk_bits(q0)))
    } else {
        sum(dred_bits(q0, d_q, qmax, n - 1), chunk_bits(quantizer(q0, d_q, qmax, n - 1)))
    }
}

/// Whether the bits of redundancy of `n` chunks are below a target.
pub open spec fn affordable(q0: int, d_q: int, qmax: int, n: int, target: int) -> bool {
    target > 0 && less(dred_bits(q0, d_q, qmax, n), nearest(target, 1, 0))
}

/// The greatest number of chunks up to `n` whose bits are below a target, 0 where there is
/// none.
pub open spec fn affordable_chunks(q0: int, d_q: int, qmax: int, n: int, target: int) -> int
    decreases n,
{
    if n <= 0 {
        0
    } else if affordable(q0, d_q, qmax, n, target) {
        n
    } else {
        affordable_chunks(q0, d_q, qmax, n - 1, target)
    }
}

/// Chunks for a duration in units of 2.5 ms.
pub open spec fn chunks_of(duration: int) -> int {
    min_int(tdiv(duration + 5, 4), DRED_MAX_CHUNKS as int)
}

proof fn lemma_affordable(q0: int, d_q: int, qmax: int, n: int, target: int)
    ensures
        affordable_chunks(q0, d_q, qmax, n, target) <= max_int(0, n),
    decreases n,
{
    if n > 0 && !affordable(q0, d_q, qmax, n, target) {
        lemma_affordable(q0, d_q, qmax, n - 1, target);
    }
}

/// Bits of redundancy of a duration, to the nearest bit.
pub open spec fn estimated_bits(q0: int, d_q: int, qmax: int, duration: int) -> int {
    let n = chunks_of(duration);
    min_int(i32::MAX as int, whole(sum(nearest(1, 2, 0), dred_bits(q0, d_q, qmax, n))))
}

/// Redundancy of `n` chunks takes no more than 74 bits a chunk, and 164 before them.
proof fn lemma_dred_bits_within(q0: int, d_q: int, qmax: int, n: int)
    requires
        n <= 1000,
    ensures
        normal(dred_bits(q0, d_q, qmax, n)),
        within(dred_bits(q0, d_q, qmax, n), 164 + 74 * max_int(0, n)),
    decreases n,
{
    lemma2_to64();
    if n <= 0 {
        lemma_chunk_within(q0);
        lemma_nearest_within(50, 1, 0, 50);
        lemma_nearest_within(40, 1, 0, 40);
        lemma_whole_exp(50);
        lemma_whole_exp(40);
        lemma_sum(nearest(50, 1, 0), chunk_bits(q0));
        lemma_sum_within(nearest(50, 1, 0), chunk_bits(q0), 50, 74);
        lemma_sum(nearest(40, 1, 0), sum(nearest(50, 1, 0), chunk_bits(q0)));
        lemma_sum_within(nearest(40, 1, 0), sum(nearest(50, 1, 0), chunk_bits(q0)), 40, 124);
    } else {
        let q = quantizer(q0, d_q, qmax, n - 1);
        lemma_dred_bits_within(q0, d_q, qmax, n - 1);
        lemma_chunk_within(q);
        lemma_sum(dred_bits(q0, d_q, qmax, n - 1), chunk_bits(q));
        lemma_sum_within(
            dred_bits(q0, d_q, qmax, n - 1),
            chunk_bits(q),
            164 + 74 * max_int(0, n - 1),
            74,
        );
    }
}

proof fn lemma_chunk_within(q: int)
    ensures
        normal(chunk_bits(q)),
        within(chunk_bits(q), 74),
{
    lemma2_to64();
    lemma_nearest_within(chunk_tenths(q), 10, 0, 74);
    lemma_scale_up(chunk_tenths(q), 10, 0);
}

/// Redundancy never takes more than 2089 bits.
pub proof fn dred_size(q0: int, d_q: int, qmax: int, duration: int)
    ensures
        0 <= estimated_bits(q0, d_q, qmax, duration) <= 2089,
{
    let n = chunks_of(duration);
    lemma2_to64();
    lemma_dred_bits_within(q0, d_q, qmax, n);
    lemma_nearest_within(1, 2, 0, 1);
    lemma_scale_up(1, 2, 0);
    lemma_sum(nearest(1, 2, 0), dred_bits(q0, d_q, qmax, n));
    lemma_sum_within(nearest(1, 2, 0), dred_bits(q0, d_q, qmax, n), 1, 164 + 74 * max_int(0, n));
    lemma_whole_within(
        sum(nearest(1, 2, 0), dred_bits(q0, d_q, qmax, n)),
        165 + 74 * max_int(0, n),
    );
}

/// Estimates the bits of redundancy, and how many chunks of it stay below a target.
pub fn estimate_dred_bitrate(q0: i32, d_q: i32, qmax: i32, duration: i32, target_bits: i32) -> (r: (
    i32,
    i32,
))
    requires
        0 <= q0 <= 15,
        quantizers_known(q0 as int, d_q as int, qmax as int, chunks_of(duration as int)),
        duration <= i32::MAX - 5,
    ensures
        r.0 == estimated_bits(q0 as int, d_q as int, qmax as int, duration as int),
        r.0 >= 0,
        r.1 == affordable_chunks(
            q0 as int,
            d_q as int,
            qmax as int,
            chunks_of(duration as int),
            target_bits as int,
        ),
{
    proof {
        lemma2_to64();
        assert(pow2(17) == 131072 && pow2(23) == 0x80_0000);
        lemma_up_most(50, 1, 0, 17);
        lemma_up_most(40, 1, 0, 17);
        lemma_scale_up(1, 2, 0);
        lemma_up_least(1, 2, 0, 24);
        lemma_up_most(1, 2, 0, 23);
    }
    let state: Rounded = Rounded::from_int(50).plus(bits_of_chunk(q0));
    let mut bits: Rounded = Rounded::from_int(40).plus(state);
    let n: i32 = imin((duration + 5) / 4, DRED_MAX_CHUNKS);
    let mut chunks: i32 = 0;
    let target: Rounded = Rounded::from_int(if target_bits > 0 { target_bits } else { 1 });
    let mut i: i32 = 0;
    while i < n
        invariant
            0 <= q0 <= 15,
            quantizers_known(q0 as int, d_q as int, qmax as int, n as int),
            0 <= i,
            i <= n || i == 0,
            n <= 26,
            bits@ == dred_bits(q0 as int, d_q as int, qmax as int, i as int),
            normal(bits@),
            -22 <= bits.e <= -12 + 2 * i,
            target_bits > 0 ==> target@ == nearest(target_bits as int, 1, 0),
            normal(target@),
            -23 <= target.e <= 8,
            chunks == affordable_chunks(
                q0 as int,
                d_q as int,
                qmax as int,
                i as int,
                target_bits as int,
            ),
        decreases n - i,
    {
        let q: i32 = compute_quantizer(q0, d_q, qmax, i);
        assert(0 <= quantizer(q0 as int, d_q as int, qmax as int, i as int) <= 15);
        bits = bits.plus(bits_of_chunk(q));
        if target_bits > 0 && bits.is_less(target) {
            chunks = i + 1;
        }
        i = i + 1;
    }
    let half: Rounded = Rounded::from_ratio(1, 2);
    proof {
        if n <= 0 {
            assert(dred_bits(q0 as int, d_q as int, qmax as int, chunks_of(duration as int))
                == dred_bits(q0 as int, d_q as int, qmax as int, 0));
        }
    }
    (half.plus(bits).floor(), chunks)
}

/// Estimates the bits of redundancy, for comparison from outside.
pub fn ropus_test_estimate_dred_bitrate(
    q0: i32,
    d_q: i32,
    qmax: i32,
    duration: i32,
    target_bits: i32,
) -> (r: (i32, i32))
    requires
        0 <= q0 <= 15,
        quantizers_known(q0 as int, d_q as int, qmax as int, chunks_of(duration as int)),
        duration <= i32::MAX - 5,
    ensures
        r.0 == estimated_bits(q0 as int, d_q as int, qmax as int, duration as int),
        r.1 == affordable_chunks(
            q0 as int,
            d_q as int,
            qmax as int,
            chunks_of(duration as int),
            target_bits as int,
        ),
{
    estimate_dred_bitrate(q0, d_q, qmax, duration, target_bits)
}

// ---------------------------------------------------------------------------
// The share of redundancy
// ---------------------------------------------------------------------------

/// The smaller of a number and a limit.
pub open spec fn at_most(limit: Real, x: Real) -> Real {
    if less(limit, x) {
        limit
    } else {
        x
    }
}

/// The share of the bitrate that redundancy is worth in packets of 20 ms, by the loss in
/// percent: less where error correction does part of the work.
pub open spec fn share_by_loss(fec: bool, loss: int) -> Real {
    let hundred = nearest(100, 1, 0);
    if loss == 0 {
        zero()
    } else if fec {
        at_most(
            nearest(7, 10, 0),
            ratio(product(nearest(3, 1, 0), nearest(loss, 1, 0)), hundred),
        )
    } else if loss > 5 {
        at_most(nearest(8, 10, 0), sum(nearest(55, 100, 0), ratio(nearest(loss, 1, 0), hundred)))
    } else {
        ratio(nearest(12 * loss, 1, 0), hundred)
    }
}

/// The same by a loss below zero, which no setting gives: how far below zero the share is.
pub open spec fn lack_by_loss(fec: bool, loss: int) -> Real {
    if fec {
        ratio(product(nearest(3, 1, 0), nearest(-loss, 1, 0)), nearest(100, 1, 0))
    } else {
        ratio(nearest(-12 * loss, 1, 0), nearest(100, 1, 0))
    }
}

/// What is left beside a share, in packets of 20 ms, as it counts in longer or shorter ones.
pub open spec fn rest_of(left: Real, frame_size: int, fs: int) -> Real {
    ratio(
        product(left, product(nearest(frame_size, 1, 0), nearest(50, 1, 0))),
        nearest(fs, 1, 0),
    )
}

/// One.
pub open spec fn one() -> Real {
    Real { m: 0x80_0000, e: -23 }
}

/// The share of the bitrate that redundancy is worth: longer packets need less.
pub open spec fn share_of(f: Real, frame_size: int, fs: int) -> Real {
    ratio(f, sum(f, rest_of(difference(one(), f), frame_size, fs)))
}

/// A share of a rate, as far as it fits.
pub open spec fn part_of(share: Real, rate: int) -> int {
    min_int(i32::MAX as int, whole(product(share, nearest(rate, 1, 0))))
}

/// The bitrate that redundancy is worth by a loss below zero. The share is below zero too,
/// unless what is left beside it makes up for less than it lacks; it has no bound where the
/// two are equal. A share and a rate on the same side of zero give a bitrate.
pub open spec fn lacking_rate(lack: Real, rest: Real, rate: int) -> int {
    if less(lack, rest) {
        if rate < 0 {
            part_of(ratio(lack, difference(rest, lack)), -rate)
        } else {
            0
        }
    } else if less(rest, lack) {
        if rate > 0 {
            part_of(ratio(lack, difference(lack, rest)), rate)
        } else {
            0
        }
    } else if rate < 0 {
        i32::MAX as int
    } else {
        0
    }
}

/// The bitrate that redundancy is worth, out of `rate` beyond what the coder needs.
pub open spec fn target_rate(fec: bool, loss: int, fs: int, rate: int, frame_size: int) -> int {
    if loss < 0 {
        let lack = lack_by_loss(fec, loss);
        lacking_rate(lack, rest_of(sum(one(), lack), frame_size, fs), rate)
    } else if loss == 0 || rate <= 0 {
        0
    } else {
        part_of(share_of(share_by_loss(fec, loss), frame_size, fs), rate)
    }
}

/// Losses for which the share can be worked out in 32 bits.
pub open spec fn loss_domain(fec: bool, loss: int) -> bool {
    fec || 12 * loss >= i32::MIN || loss > 5
}

/// A number that is not above a limit below one is below one.
proof fn lemma_below_one(limit: Real, x: Real)
    requires
        normal(limit),
        normal(x),
        limit.e == -24,
    ensures
        at_most(limit, x).e <= -24,
        normal(at_most(limit, x)),
{
    if x.e > -24 {
        lemma2_to64();
        let k = (x.e + 24) as nat;
        vstd::arithmetic::power2::lemma_pow2_unfold(k);
        vstd::arithmetic::power2::lemma_pow2_pos((k - 1) as nat);
        let p = pow2(k) as int;
        assert(units(limit, -24) == limit.m * 1);
        assert(x.m * p >= 0x100_0000) by (nonlinear_arith)
            requires
                x.m >= 0x80_0000,
                p >= 2,
        ;
    }
}

/// The limits on the share, and the shares at little loss.
proof fn lemma_shares()
    ensures
        nearest(7, 10, 0) == (Real { m: 11744051, e: -24 }),
        nearest(8, 10, 0) == (Real { m: 13421773, e: -24 }),
        nearest(55, 100, 0) == (Real { m: 9227469, e: -24 }),
{
    reveal_with_fuel(scale_up, 26);
}

proof fn lemma_little_loss(loss: int)
    requires
        1 <= loss <= 5,
    ensures
        ratio(nearest(12 * loss, 1, 0), nearest(100, 1, 0)).e <= -24,
{
    reveal_with_fuel(scale_up, 27);
    assert(nearest(100, 1, 0) == (Real { m: 13107200, e: -17 }));
    if loss == 1 {
        assert(nearest(12, 1, 0) == (Real { m: 12582912, e: -20 }));
    } else if loss == 2 {
        assert(nearest(24, 1, 0) == (Real { m: 12582912, e: -19 }));
    } else if loss == 3 {
        assert(nearest(36, 1, 0) == (Real { m: 9437184, e: -18 }));
    } else if loss == 4 {
        assert(nearest(48, 1, 0) == (Real { m: 12582912, e: -18 }));
    } else {
        assert(nearest(60, 1, 0) == (Real { m: 15728640, e: -18 }));
    }
}

/// Where the exponent of a small whole number lies.
proof fn lemma_small_exp(i: int, k: nat)
    requires
        1 <= i,
        1 <= k <= 30,
        i * pow2(k) >= 0x80_0000,
        i * pow2((k - 1) as nat) < 0x80_0000,
    ensures
        normal(nearest(i, 1, 0)),
        -k <= nearest(i, 1, 0).e <= 1 - k,
{
    vstd::arithmetic::power2::lemma_pow2_pos((k - 1) as nat);
    let p = pow2((k - 1) as nat) as int;
    assert(i <= i * p) by (nonlinear_arith)
        requires
            i >= 1,
            p >= 1,
    ;
    lemma_scale_up(i, 1, 0);
    lemma_up_least(i, 1, 0, k);
    lemma_up_most(i, 1, 0, (k - 1) as nat);
}

/// Where the exponent of a percentage lies.
proof fn lemma_percent_exp(loss: int)
    requires
        1 <= loss <= i32::MAX,
    ensures
        -23 <= nearest(loss, 1, 0).e <= 8,
        -17 <= nearest(100, 1, 0).e <= -16,
        -22 <= nearest(3, 1, 0).e <= -21,
        -18 <= nearest(50, 1, 0).e <= -17,
        loss <= 5 ==> -20 <= nearest(12 * loss, 1, 0).e <= -17,
{
    lemma2_to64();
    assert(pow2(23) == 0x80_0000 && pow2(22) == 0x40_0000 && pow2(21) == 0x20_0000 && pow2(16) == 65536
        && pow2(17) == 131072 && pow2(18) == 262144 && pow2(20) == 0x10_0000);
    lemma_small_exp(100, 17);
    lemma_small_exp(3, 22);
    lemma_small_exp(50, 18);
    lemma_whole_exp(loss);
    if loss <= 5 {
        lemma_scale_up(12 * loss, 1, 0);
        lemma_up_least(12 * loss, 1, 0, 20);
        lemma_up_most(12 * loss, 1, 0, 17);
    }
}

/// The smaller of a number and a limit.
fn limit_to(limit: Rounded, x: Rounded) -> (r: Rounded)
    requires
        normal(limit@),
        normal(x@),
        limit.e == -24,
        -60 <= x.e <= 30,
    ensures
        r@ == at_most(limit@, x@),
        normal(r@),
        r.e <= -24,
        r.e >= -60,
        r.e == limit.e || r.e == x.e,
{
    proof {
        lemma_below_one(limit@, x@);
    }
    if limit.is_less(x) {
        limit
    } else {
        x
    }
}

/// The share by loss.
fn loss_share(fec: bool, loss: i32) -> (r: Rounded)
    requires
        1 <= loss,
    ensures
        r@ == share_by_loss(fec, loss as int),
        normal(r@),
        -31 <= r.e <= -24,
{
    let hundred: Rounded = Rounded::from_int(100);
    proof {
        lemma_shares();
        lemma_percent_exp(loss as int);
        if 1 <= loss <= 5 {
            lemma_little_loss(loss as int);
        }
    }
    if fec {
        limit_to(
            Rounded::from_ratio(7, 10),
            Rounded::from_int(3).times(Rounded::from_int(loss)).over(hundred),
        )
    } else if loss > 5 {
        let part: Rounded = Rounded::from_int(loss).over(hundred);
        limit_to(Rounded::from_ratio(8, 10), Rounded::from_ratio(55, 100).plus(part))
    } else {
        Rounded::from_int(12 * loss).over(hundred)
    }
}

/// Where the exponents of a lack and of what is left beside it lie.
proof fn lemma_lack(fec: bool, loss: int, fs: int, frame_size: int)
    requires
        i32::MIN <= loss < 0,
        loss_domain(fec, loss),
        1 <= fs <= i32::MAX,
        1 <= frame_size <= i32::MAX,
    ensures
        ({
            let lack = lack_by_loss(fec, loss);
            let rest = rest_of(sum(one(), lack), frame_size, fs);
            &&& normal(lack)
            &&& -31 <= lack.e <= 9
            &&& normal(rest)
            &&& -50 <= rest.e <= 53
        }),
{
    lemma_percent_exp(1);
    lemma_whole_exp(100);
    lemma_whole_exp(3);
    lemma_whole_exp(50);
    lemma_whole_exp(fs);
    lemma_whole_exp(frame_size);
    if fec {
        lemma_whole_exp(-loss);
        lemma_product_exp(nearest(3, 1, 0), nearest(-loss, 1, 0));
        lemma_ratio_exp(product(nearest(3, 1, 0), nearest(-loss, 1, 0)), nearest(100, 1, 0));
    } else {
        lemma_whole_exp(-12 * loss);
        lemma_ratio_exp(nearest(-12 * loss, 1, 0), nearest(100, 1, 0));
    }
    let lack = lack_by_loss(fec, loss);
    let frames = product(nearest(frame_size, 1, 0), nearest(50, 1, 0));
    lemma_sum(one(), lack);
    lemma_product_exp(nearest(frame_size, 1, 0), nearest(50, 1, 0));
    lemma_product_exp(sum(one(), lack), frames);
    lemma_ratio_exp(product(sum(one(), lack), frames), nearest(fs, 1, 0));
}

/// The bitrate that redundancy is worth by a loss below zero.
fn lacking_worth(fec: bool, loss: i32, fs: i32, rate: i32, frame_size: i32) -> (r: i32)
    requires
        loss < 0,
        loss_domain(fec, loss as int),
        1 <= fs,
        1 <= frame_size,
    ensures
        r == target_rate(fec, loss as int, fs as int, rate as int, frame_size as int),
        r >= 0,
{
    proof {
        lemma_percent_exp(1);
        lemma_lack(fec, loss as int, fs as int, frame_size as int);
    }
    let hundred: Rounded = Rounded::from_int(100);
    let lack: Rounded = if fec {
        Rounded::from_int(3).times(Rounded::from_size(loss)).over(hundred)
    } else {
        Rounded::from_size(12 * loss).over(hundred)
    };
    let frames: Rounded = Rounded::from_int(frame_size).times(Rounded::from_int(50));
    let left: Rounded = Rounded { m: 0x80_0000, e: -23 }.plus(lack);
    let rest: Rounded = left.times(frames).over(Rounded::from_int(fs));
    if lack.is_less(rest) {
        if rate < 0 {
            lack.over(rest.minus(lack)).times(Rounded::from_size(rate)).floor()
        } else {
            0
        }
    } else if rest.is_less(lack) {
        if rate > 0 {
            lack.over(lack.minus(rest)).times(Rounded::from_size(rate)).floor()
        } else {
            0
        }
    } else if rate < 0 {
        i32::MAX
    } else {
        0
    }
}

/// The bitrate that redundancy is worth.
fn worth(fec: bool, loss: i32, fs: i32, rate: i32, frame_size: i32) -> (r: i32)
    requires
        loss_domain(fec, loss as int),
        1 <= fs,
        1 <= frame_size,
    ensures
        r == target_rate(fec, loss as int, fs as int, rate as int, frame_size as int),
        r >= 0,
{
    if loss < 0 {
        return lacking_worth(fec, loss, fs, rate, frame_size);
    }
    if loss == 0 || rate <= 0 {
        return 0;
    }
    proof {
        lemma_percent_exp(loss as int);
    }
    let f: Rounded = loss_share(fec, loss);
    let frames: Rounded = Rounded::from_int(frame_size).times(Rounded::from_int(50));
    let rest: Rounded = f.complement().times(frames).over(Rounded::from_int(fs));
    let share: Rounded = f.over(f.plus(rest));
    share.times(Rounded::from_int(rate)).floor()
}

/// What redundancy is coded with, and what of the bitrate goes to it.
pub ghost struct DredPlan {
    pub bitrate: int,
    pub q0: int,
    pub d_q: int,
    pub qmax: int,
    pub chunks: int,
}

/// The bitrate that the coder needs before redundancy gets any.
pub open spec fn dred_offset(fec: bool) -> int {
    if fec {
        20000
    } else {
        12000
    }
}

/// What redundancy is coded with, and what of the bitrate goes to it: nothing where that
/// does not pay for two chunks.
pub open spec fn dred_plan(
    fec: bool,
    loss: int,
    fs: int,
    duration: int,
    bitrate: int,
    frame_size: int,
) -> DredPlan {
    let rate = bitrate - dred_offset(fec);
    let q0 = min_int(15, max_int(4, 51 - 3 * bit_length(max_int(1, rate))));
    let d_q = if rate > 36000 {
        3int
    } else {
        5
    };
    let target = target_rate(fec, loss, fs, rate, frame_size);
    let bits = if duration > 0 {
        estimated_bits(q0, d_q, 15, duration)
    } else {
        0
    };
    let chunks = if duration > 0 {
        affordable_chunks(q0, d_q, 15, chunks_of(duration), bits_of(target, fs, frame_size) as i32 as int)
    } else {
        0
    };
    DredPlan {
        bitrate: if chunks < 2 {
            0
        } else {
            min_int(target, bitrate_of(bits, fs, frame_size) as i32 as int)
        },
        q0,
        d_q,
        qmax: 15,
        chunks,
    }
}

/// What redundancy is coded with, and what of the bitrate goes to it.
pub struct DredRate {
    pub bitrate: i32,
    pub q0: i32,
    pub d_q: i32,
    pub qmax: i32,
    pub chunks: i32,
}

impl DredRate {
    pub open spec fn view(&self) -> DredPlan {
        DredPlan {
            bitrate: self.bitrate as int,
            q0: self.q0 as int,
            d_q: self.d_q as int,
            qmax: self.qmax as int,
            chunks: self.chunks as int,
        }
    }
}

/// The share by loss is a number below one.
proof fn lemma_share_by_loss(fec: bool, loss: int)
    requires
        1 <= loss <= i32::MAX,
    ensures
        normal(share_by_loss(fec, loss)),
        -31 <= share_by_loss(fec, loss).e <= -24,
{
    let hundred = nearest(100, 1, 0);
    lemma_shares();
    lemma_percent_exp(loss);
    lemma_whole_exp(100);
    lemma_whole_exp(loss);
    if fec {
        let three = nearest(3, 1, 0);
        lemma_whole_exp(3);
        lemma_product_exp(three, nearest(loss, 1, 0));
        let x = product(three, nearest(loss, 1, 0));
        lemma_ratio_exp(x, hundred);
        lemma_below_one(nearest(7, 10, 0), ratio(x, hundred));
    } else if loss > 5 {
        let part = ratio(nearest(loss, 1, 0), hundred);
        lemma_ratio_exp(nearest(loss, 1, 0), hundred);
        lemma_sum(nearest(55, 100, 0), part);
        lemma_below_one(nearest(8, 10, 0), sum(nearest(55, 100, 0), part));
    } else {
        lemma_little_loss(loss);
        lemma_whole_exp(12 * loss);
        lemma_ratio_exp(nearest(12 * loss, 1, 0), hundred);
    }
}

/// What redundancy is worth is never less than nothing.
proof fn lemma_target_rate(fec: bool, loss: int, fs: int, rate: int, frame_size: int)
    requires
        i32::MIN <= loss <= i32::MAX,
        loss_domain(fec, loss),
        1 <= fs <= i32::MAX,
        i32::MIN <= rate <= i32::MAX,
        1 <= frame_size <= i32::MAX,
    ensures
        0 <= target_rate(fec, loss, fs, rate, frame_size),
{
    if loss < 0 && rate != 0 {
        let lack = lack_by_loss(fec, loss);
        let rest = rest_of(sum(one(), lack), frame_size, fs);
        lemma_lack(fec, loss, fs, frame_size);
        if less(lack, rest) && rate < 0 {
            lemma_difference(rest, lack);
            lemma_ratio_exp(lack, difference(rest, lack));
            lemma_whole_exp(-rate);
            lemma_product_exp(ratio(lack, difference(rest, lack)), nearest(-rate, 1, 0));
            lemma_whole_positive(
                product(ratio(lack, difference(rest, lack)), nearest(-rate, 1, 0)),
            );
        } else if less(rest, lack) && rate > 0 {
            lemma_difference(lack, rest);
            lemma_ratio_exp(lack, difference(lack, rest));
            lemma_whole_exp(rate);
            lemma_product_exp(ratio(lack, difference(lack, rest)), nearest(rate, 1, 0));
            lemma_whole_positive(product(ratio(lack, difference(lack, rest)), nearest(rate, 1, 0)));
        }
    }
    if loss > 0 && rate > 0 {
        let f = share_by_loss(fec, loss);
        let one = one();
        lemma_share_by_loss(fec, loss);
        lemma_whole_exp(frame_size);
        lemma_whole_exp(50);
        lemma_whole_exp(fs);
        lemma_whole_exp(rate);
        let frames = product(nearest(frame_size, 1, 0), nearest(50, 1, 0));
        lemma_product_exp(nearest(frame_size, 1, 0), nearest(50, 1, 0));
        lemma_complement_exp(one, f);
        lemma_product_exp(difference(one, f), frames);
        let x = product(difference(one, f), frames);
        lemma_ratio_exp(x, nearest(fs, 1, 0));
        let rest = ratio(x, nearest(fs, 1, 0));
        lemma_sum(f, rest);
        lemma_ratio_exp(f, sum(f, rest));
        let share = share_of(f, frame_size, fs);
        lemma_product_exp(share, nearest(rate, 1, 0));
        lemma_whole_positive(product(share, nearest(rate, 1, 0)));
    }
}

proof fn lemma_whole_positive(a: Real)
    requires
        normal(a),
    ensures
        0 <= whole(a),
{
    if a.e >= 0 {
        let p = pow2(a.e as nat) as int;
        assert(0 <= a.m * p) by (nonlinear_arith)
            requires
                a.m >= 0,
                p >= 0,
        ;
    } else {
        let p = pow2((-a.e) as nat) as int;
        vstd::arithmetic::power2::lemma_pow2_pos((-a.e) as nat);
        assert(0 <= a.m / p) by (nonlinear_arith)
            requires
                a.m >= 0,
                p > 0,
        ;
    }
}

/// Redundancy never takes more than 835600 bits a second.
pub proof fn dred_rate_is_bounded(
    fec: bool,
    loss: int,
    fs: int,
    duration: int,
    bitrate: int,
    frame_size: int,
)
    requires
        i32::MIN <= loss <= i32::MAX,
        loss_domain(fec, loss),
        rate_domain(fs, frame_size),
        1 <= fs <= 400 * frame_size,
        frame_size <= i32::MAX,
        i32::MIN <= bitrate - dred_offset(fec),
        bitrate <= i32::MAX,
    ensures
        0 <= dred_plan(fec, loss, fs, duration, bitrate, frame_size).bitrate <= 835600,
{
    let rate = bitrate - dred_offset(fec);
    let q0 = min_int(15, max_int(4, 51 - 3 * bit_length(max_int(1, rate))));
    let d_q = if rate > 36000 {
        3int
    } else {
        5
    };
    lemma_target_rate(fec, loss, fs, rate, frame_size);
    dred_size(q0, d_q, 15, duration);
    let bits = estimated_bits(q0, d_q, 15, duration);
    let q = 6 * fs / frame_size;
    assert(0 <= q <= 2400) by (nonlinear_arith)
        requires
            q == 6 * fs / frame_size,
            1 <= frame_size,
            1 <= fs <= 400 * frame_size,
    ;
    assert(0 <= bits * q <= 2089 * 2400) by (nonlinear_arith)
        requires
            0 <= bits <= 2089,
            0 <= q <= 2400,
    ;
}

/// Plans redundancy from the settings that it depends on.
pub fn plan_dred(
    use_in_band_fec: bool,
    packet_loss_perc: i32,
    fs: i32,
    dred_duration: i32,
    bitrate_bps: i32,
    frame_size: i32,
) -> (r: DredRate)
    requires
        loss_domain(use_in_band_fec, packet_loss_perc as int),
        rate_domain(fs as int, frame_size as int),
        1 <= fs,
        dred_duration <= i32::MAX - 5,
        bitrate_bps - dred_offset(use_in_band_fec) >= i32::MIN,
    ensures
        r@ == dred_plan(
            use_in_band_fec,
            packet_loss_perc as int,
            fs as int,
            dred_duration as int,
            bitrate_bps as int,
            frame_size as int,
        ),
        fs <= 400 * frame_size ==> 0 <= r.bitrate <= 835600,
        r.chunks <= DRED_MAX_CHUNKS,
{
    let offset: i32 = if use_in_band_fec { 20000 } else { 12000 };
    let rate: i32 = bitrate_bps - offset;
    let q0: i32 = imin(15, imax(4, 51 - 3 * ec_ilog(imax(1, rate))));
    let d_q: i32 = if rate > 36000 { 3 } else { 5 };
    let target: i32 = worth(use_in_band_fec, packet_loss_perc, fs, rate, frame_size);
    let mut bits: i32 = 0;
    let mut chunks: i32 = 0;
    if dred_duration > 0 {
        let target_bits: i32 = bitrate_to_bits(target, fs, frame_size);
        let estimate = estimate_dred_bitrate(q0, d_q, 15, dred_duration, target_bits);
        bits = estimate.0;
        chunks = estimate.1;
    }
    let most: i32 = bits_to_bitrate(bits, fs, frame_size);
    proof {
        if fs <= 400 * frame_size {
            dred_rate_is_bounded(
                use_in_band_fec,
                packet_loss_perc as int,
                fs as int,
                dred_duration as int,
                bitrate_bps as int,
                frame_size as int,
            );
        }
        lemma_affordable(q0 as int, d_q as int, 15, chunks_of(dred_duration as int), bits_of(
            target as int,
            fs as int,
            frame_size as int,
        ) as i32 as int);
    }
    let bitrate: i32 = if chunks < 2 { 0 } else { imin(target, most) };
    DredRate { bitrate, q0, d_q, qmax: 15, chunks }
}

/// Plans redundancy, for comparison from outside: the bitrate, the three numbers of the
/// quantizer, and the chunks.
pub fn ropus_test_compute_dred_bitrate(
    use_in_band_fec: i32,
    packet_loss_perc: i32,
    fs: i32,
    dred_duration: i32,
    bitrate_bps: i32,
    frame_size: i32,
) -> (r: (i32, i32, i32, i32, i32))
    requires
        valid_fs(fs as int),
        loss_domain(use_in_band_fec != 0, packet_loss_perc as int),
        rate_domain(fs as int, frame_size as int),
        dred_duration <= i32::MAX - 5,
        bitrate_bps - dred_offset(use_in_band_fec != 0) >= i32::MIN,
    ensures
        ({
            let p = dred_plan(
                use_in_band_fec != 0,
                packet_loss_perc as int,
                fs as int,
                dred_duration as int,
                bitrate_bps as int,
                frame_size as int,
            );
            &&& r.0 == p.bitrate
            &&& r.1 == p.q0
            &&& r.2 == p.d_q
            &&& r.3 == p.qmax
            &&& r.4 == p.chunks
        }),
{
    let p = plan_dred(
        use_in_band_fec != 0,
        packet_loss_perc,
        fs,
        dred_duration,
        bitrate_bps,
        frame_size,
    );
    (p.bitrate, p.q0, p.d_q, p.qmax, p.chunks)
}

} // verus!
