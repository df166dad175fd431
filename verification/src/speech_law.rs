//! What holds of what the speech coder is told of a frame, and of what it reports.

use vstd::prelude::*;
use crate::arith::{exp2_frac, exp2_of, q15, tdiv, shifted, Q15ONE};
use crate::encoder::OpusEncoder;
use crate::frame::FrameRun;
use crate::modes::{
    MODE_HYBRID, MODE_SILK_ONLY, OPUS_BANDWIDTH_FULLBAND, OPUS_BANDWIDTH_MEDIUMBAND,
    OPUS_BANDWIDTH_NARROWBAND, OPUS_BANDWIDTH_WIDEBAND, TYPE_NO_VOICE_ACTIVITY, VAD_NO_DECISION,
};
use crate::rates::{bitrate_of, codable_size, valid_fs};
use crate::rates_law::{low_band_by_rate, rates_are_bits_by_duration, speech_takes_the_low_band};
use crate::speech::{mask_offset, masks, speech_band};

verus! {

// ---------------------------------------------------------------------------
// Channels, durations, sampling rates
// ---------------------------------------------------------------------------

/// The speech coder is told of the channels that it gets and of those that it codes, and how
/// many milliseconds the frame lasts.
pub proof fn speech_is_told_of_the_frame(e: OpusEncoder, run: FrameRun)
    requires
        valid_fs(e.fs as int),
        codable_size(run.frame_size as int, e.fs as int),
        100 * run.frame_size >= e.fs,
    ensures
        ({
            let t = e.speech_control(run);
            &&& t.n_channels_api == e.channels
            &&& t.n_channels_internal == e.stream_channels
            &&& t.payload_size_ms * e.fs == 1000 * run.frame_size
            &&& t.complexity == e.silk_mode.complexity
            &&& t.packet_loss_percentage == e.silk_mode.packet_loss_percentage
            &&& t.lbrr_coded == e.silk_mode.lbrr_coded
            &&& t.use_dtx == e.silk_mode.use_dtx
            &&& t.to_mono == e.silk_mode.to_mono
        }),
{
    let (n, fs) = (run.frame_size as int, e.fs as int);
    if 100 * n == fs {
        crate::plan_law::lemma_quotient(1000 * n, fs, 10);
    } else if 50 * n == fs {
        crate::plan_law::lemma_quotient(1000 * n, fs, 20);
    } else if 25 * n == fs {
        crate::plan_law::lemma_quotient(1000 * n, fs, 40);
    } else if 50 * n == 3 * fs {
        crate::plan_law::lemma_quotient(1000 * n, fs, 60);
    } else if 50 * n == 4 * fs {
        crate::plan_law::lemma_quotient(1000 * n, fs, 80);
    } else if 50 * n == 5 * fs {
        crate::plan_law::lemma_quotient(1000 * n, fs, 100);
    } else {
        crate::plan_law::lemma_quotient(1000 * n, fs, 120);
    }
}

/// Speech is coded at twice its bandwidth: 8 kHz narrowband, 12 kHz mediumband, and 16 kHz
/// from wideband on. Where a packet of speech has room for fewer than 8000 bits a second it is
/// 12 kHz at most, and below 7000 it is 8 kHz; frames below 20 ms need half as much again.
/// Hybrid frames are coded at 16 kHz.
pub proof fn speech_is_sampled_by_bandwidth(e: OpusEncoder, run: FrameRun)
    requires
        valid_fs(e.fs as int),
        codable_size(run.frame_size as int, e.fs as int),
        1 <= run.max_data_bytes,
    ensures
        ({
            let t = e.speech_control(run);
            let room = 8 * run.max_data_bytes * e.fs;
            let short = 50 * run.frame_size < e.fs;
            let low = e.mode == MODE_SILK_ONLY && room < (if short {
                12000int
            } else {
                8000
            }) * run.frame_size;
            let least = e.mode == MODE_SILK_ONLY && room < (if short {
                10500int
            } else {
                7000
            }) * run.frame_size;
            &&& t.max_internal_sample_rate == if least {
                8000int
            } else if low {
                12000
            } else {
                16000
            }
            &&& run.bandwidth == OPUS_BANDWIDTH_NARROWBAND ==> t.desired_internal_sample_rate
                == 8000
            &&& run.bandwidth == OPUS_BANDWIDTH_MEDIUMBAND ==> t.desired_internal_sample_rate
                == if least {
                8000int
            } else {
                12000
            }
            &&& run.bandwidth >= OPUS_BANDWIDTH_WIDEBAND ==> t.desired_internal_sample_rate
                == t.max_internal_sample_rate
            &&& t.min_internal_sample_rate == if e.mode == MODE_HYBRID {
                16000int
            } else {
                8000
            }
            &&& run.bandwidth >= OPUS_BANDWIDTH_WIDEBAND || e.mode != MODE_HYBRID
                ==> t.min_internal_sample_rate <= t.desired_internal_sample_rate
                <= t.max_internal_sample_rate
        }),
{
    let (n, fs) = (run.frame_size as int, e.fs as int);
    let bits = run.max_data_bytes * 8;
    let rate = bitrate_of(bits, fs, n);
    rates_are_bits_by_duration(bits, n, fs);
    crate::plan_law::lemma_frame_rates(fs, n);
    assert(8 * run.max_data_bytes * e.fs == bits * fs) by (nonlinear_arith)
        requires
            bits == run.max_data_bytes * 8,
            fs == e.fs,
    ;
    assert forall|t: int| #![trigger t * n] rate < t <==> bits * fs < t * n by {
        assert(rate < t ==> (rate + 1) * n <= t * n) by (nonlinear_arith)
            requires
                n > 0,
        ;
        assert(rate >= t ==> rate * n >= t * n) by (nonlinear_arith)
            requires
                n > 0,
        ;
    }
    assert(rate < 12000 <==> bits * fs < 12000 * n);
    assert(rate < 10500 <==> bits * fs < 10500 * n);
    assert(rate < 8000 <==> bits * fs < 8000 * n);
    assert(rate < 7000 <==> bits * fs < 7000 * n);
    assert(rate >= 0) by {
        assert(bits * fs >= 0) by (nonlinear_arith)
            requires
                bits >= 0,
                fs >= 0,
        ;
        if rate < 0 {
            assert((rate + 1) * n <= 0) by (nonlinear_arith)
                requires
                    rate + 1 <= 0,
                    n > 0,
            ;
        }
    }
    assert(rate * 2 / 3 >= 8000 <==> rate >= 12000);
    assert(rate * 2 / 3 >= 7000 <==> rate >= 10500);
}

// ---------------------------------------------------------------------------
// Bits
// ---------------------------------------------------------------------------

/// Without masks, speech alone is told to take all of the bits that a frame aims at, and the
/// speech of a hybrid frame the low band's part of them.
pub proof fn speech_takes_its_part(e: OpusEncoder, run: FrameRun)
    requires
        valid_fs(e.fs as int),
        codable_size(run.frame_size as int, e.fs as int),
        0 <= run.bits_target <= 10200,
        1 <= e.stream_channels <= 2,
        e.energy_masking is None,
    ensures
        ({
            let t = e.speech_control(run);
            let n = run.frame_size as int;
            let all = run.bits_target * e.fs;
            &&& e.mode == MODE_SILK_ONLY ==> t.bit_rate * n <= all < (t.bit_rate + 1) * n
            &&& e.mode == MODE_HYBRID ==> t.bit_rate * n <= all + 800 * n
            &&& e.mode == MODE_HYBRID && e.stream_channels == 1 && 12000 * n <= all <= 64000 * n
                ==> 10000 <= t.bit_rate && 2 * t.bit_rate * n >= all - 2 * n
        }),
{
    let (n, fs) = (run.frame_size as int, e.fs as int);
    let bits = run.bits_target as int;
    let rate = bitrate_of(bits, fs, n);
    rates_are_bits_by_duration(bits, n, fs);
    assert(rate == e.frame_rate_bps(run));
    assert(0 <= rate <= 10200 * 400) by {
        assert(fs <= 400 * n);
        crate::rates::lemma_bitrate_bounds(bits, fs, n, 10200);
    }
    if e.mode == MODE_HYBRID {
        let c = e.stream_channels as int;
        speech_takes_the_low_band(
            rate,
            run.bandwidth as int,
            e.use_vbr as int,
            e.silk_mode.lbrr_coded as int,
            c,
        );
        let s = e.speech_rate(run);
        crate::rates::lemma_low_band_bound(rate / c, e.silk_mode.lbrr_coded != 0);
        assert(rate / c >= 0) by (nonlinear_arith)
            requires
                rate >= 0,
                c >= 1,
        ;
        assert(s * n <= (rate + 800) * n) by (nonlinear_arith)
            requires
                s <= rate + 800,
                n > 0,
        ;
        assert((rate + 800) * n == rate * n + 800 * n) by (nonlinear_arith);
        if c == 1 && 12000 * n <= bits * fs <= 64000 * n {
            assert(12000 <= rate <= 64000) by {
                assert(rate < 12000 ==> (rate + 1) * n <= 12000 * n) by (nonlinear_arith)
                    requires
                        n > 0,
                ;
                assert(rate > 64000 ==> rate * n >= 64000 * n + n) by (nonlinear_arith)
                    requires
                        n > 0,
                ;
            }
            low_band_by_rate(rate);
            assert(2 * s >= rate - 1);
            assert(2 * s * n >= (rate - 1) * n) by (nonlinear_arith)
                requires
                    2 * s >= rate - 1,
                    n > 0,
            ;
            assert((rate - 1) * n == (rate + 1) * n - 2 * n) by (nonlinear_arith);
        }
    }
}

/// The speech coder never has more bits than the frame has behind its first byte; a short
/// frame that comes along has its bytes, and what announces it, out of these. Where the size
/// of packets varies, and where all have one size and nothing else makes up for it, speech
/// alone has just these.
pub proof fn speech_leaves_room(e: OpusEncoder, run: FrameRun)
    requires
        e.wf(),
        1 <= run.max_data_bytes <= 1276,
        0 <= run.redundancy_bytes <= 257,
        8 * (run.max_data_bytes - 1 - run.redundancy_bytes) >= 21,
    ensures
        ({
            let t = e.speech_control(run);
            let room = 8 * (run.max_data_bytes - 1);
            let short = if run.redundancy && run.redundancy_bytes >= 2 {
                8 * run.redundancy_bytes
            } else {
                0
            };
            let notice = if short == 0 {
                0
            } else if e.mode == MODE_HYBRID {
                21int
            } else {
                1
            };
            let left = room - short - notice;
            &&& e.mode == MODE_SILK_ONLY && (e.use_vbr != 0 || run.dred_bitrate_bps <= 0)
                ==> t.max_bits == left
            &&& e.use_vbr == 0 ==> 0 <= t.max_bits <= left
            &&& e.use_vbr == 0 && e.mode != MODE_HYBRID && run.dred_bitrate_bps <= 0 <==> t.use_cbr
                == 1
            &&& t.use_cbr == 0 || t.use_cbr == 1
        }),
{
}

/// Where packets have one size but something makes up for what speech leaves, speech may take
/// a quarter of what lies between the bits that it aims at and those that there are.
pub proof fn speech_may_take_a_quarter_more(e: OpusEncoder, run: FrameRun)
    requires
        e.wf(),
        1 <= run.max_data_bytes <= 1276,
        0 <= run.redundancy_bytes <= 257,
        e.use_vbr == 0,
        e.mode == MODE_HYBRID || run.dred_bitrate_bps > 0,
        0 <= e.masked_rate(run),
        ({
            let aim = e.masked_rate(run) * run.frame_size / e.fs as int;
            0 <= aim <= e.speech_room(run)
        }),
        0 < run.frame_size,
    ensures
        ({
            let t = e.speech_control(run);
            let aim = e.masked_rate(run) * run.frame_size / e.fs as int;
            let room = e.speech_room(run);
            room + 3 * aim <= 4 * t.max_bits <= room + 3 * aim + 3
        }),
{
    let x = e.masked_rate(run) * run.frame_size;
    assert(x >= 0) by (nonlinear_arith)
        requires
            x == e.masked_rate(run) * run.frame_size,
            e.masked_rate(run) >= 0,
            run.frame_size >= 0,
    ;
}

/// Where the size of packets varies, the speech of a hybrid frame may take the low band's part
/// of the bits that there are: at least half of them, and not noticeably more than all.
pub proof fn speech_may_take_the_low_band(e: OpusEncoder, run: FrameRun)
    requires
        e.wf(),
        codable_size(run.frame_size as int, e.fs as int),
        1 <= run.max_data_bytes <= 1276,
        0 <= run.redundancy_bytes <= 257,
        e.use_vbr != 0,
        e.mode == MODE_HYBRID,
        e.speech_room(run) * e.fs >= 2100 * run.frame_size,
    ensures
        ({
            let t = e.speech_control(run);
            let (n, fs) = (run.frame_size as int, e.fs as int);
            let room = e.speech_room(run);
            room * fs - 2010 * n <= 2 * (t.max_bits + 1) * fs && t.max_bits * fs <= room * fs + 800
                * n
        }),
{
    let (n, fs) = (run.frame_size as int, e.fs as int);
    let c = e.stream_channels as int;
    let room = e.speech_room(run);
    let a = room * fs;
    let r = a / n;
    assert(a >= 0);
    assert(r * n <= a < (r + 1) * n && r >= 2100) by (nonlinear_arith)
        requires
            r == a / n,
            a >= 2100 * n,
            n > 0,
    ;
    assert(tdiv(room * e.fs, n) == r);
    speech_takes_the_low_band(
        r,
        e.bandwidth as int,
        e.use_vbr as int,
        e.silk_mode.lbrr_coded as int,
        c,
    );
    let each = r / c;
    assert(2 * (each * c) >= 2 * r - 2) by (nonlinear_arith)
        requires
            each == r / c,
            1 <= c <= 2,
    ;
    let low = crate::rates::low_band_rate(each, e.silk_mode.lbrr_coded != 0);
    assert(each >= 0) by (nonlinear_arith)
        requires
            each == r / c,
            r >= 0,
            c >= 1,
    ;
    low_band_by_rate(each);
    assert(2 * low >= each - 2);
    let s = crate::rates::silk_rate_of(
        r,
        e.bandwidth as int,
        e.use_vbr as int,
        e.silk_mode.lbrr_coded as int,
        c,
    );
    assert(2 * s >= r - 2008);
    assert(s >= 0);
    crate::rates_law::bits_are_rate_times_duration(s, n, fs);
    let bits = crate::rates::bits_of(s, fs, n);
    assert(2 * (s * n) >= a - 2010 * n && s * n <= a + 800 * n) by (nonlinear_arith)
        requires
            2 * s >= r - 2008,
            s <= r + 800,
            r * n <= a < (r + 1) * n,
            n > 0,
    ;
    assert(2 * (bits + 1) * fs == 2 * ((bits + 1) * fs)) by (nonlinear_arith);
    assert(-1 <= bits <= 50000) by {
        assert(room <= 10200);
        assert(a <= 10200 * fs) by (nonlinear_arith)
            requires
                a == room * fs,
                room <= 10200,
                fs > 0,
        ;
        assert(bits <= 50000) by (nonlinear_arith)
            requires
                bits * fs <= a + 800 * n,
                a <= 10200 * fs,
                50 * n <= 6 * fs,
                fs > 0,
        ;
        assert(s * n >= 0) by (nonlinear_arith)
            requires
                s >= 0,
                n >= 0,
        ;
        assert(bits >= -1) by (nonlinear_arith)
            requires
                s * n < (bits + 1) * fs,
                s * n >= 0,
                fs > 0,
        ;
    }
}

// ---------------------------------------------------------------------------
// The gain of the high band
// ---------------------------------------------------------------------------

proof fn lemma_q15_order(a: int, b: int, c: int, d: int)
    requires
        0 <= a <= b,
        0 <= c <= d,
    ensures
        0 <= q15(a, c) <= q15(b, d),
{
    assert(0 <= a * c <= b * d) by (nonlinear_arith)
        requires
            0 <= a <= b,
            0 <= c <= d,
    ;
}

proof fn lemma_exp2_frac(x: int, y: int)
    requires
        0 <= x <= y <= 1023,
    ensures
        16383 <= exp2_frac(x) <= exp2_frac(y) <= 32766,
{
    let (f, g) = (16 * x, 16 * y);
    lemma_q15_order(10204, 10204, f, g);
    lemma_q15_order(f, g, 14819 + q15(10204, f), 14819 + q15(10204, g));
    lemma_q15_order(
        f,
        g,
        22804 + q15(f, 14819 + q15(10204, f)),
        22804 + q15(g, 14819 + q15(10204, g)),
    );
    let t = 16368int;
    lemma_q15_order(10204, 10204, g, t);
    lemma_q15_order(g, t, 14819 + q15(10204, g), 14819 + q15(10204, t));
    lemma_q15_order(
        g,
        t,
        22804 + q15(g, 14819 + q15(10204, g)),
        22804 + q15(t, 14819 + q15(10204, t)),
    );
}

/// A power of two grows with its exponent, as long as it fits.
pub proof fn powers_grow(x: int, y: int)
    requires
        x <= y < 15360,
    ensures
        exp2_of(x) <= exp2_of(y),
{
    let (a, b) = (x / 1024, y / 1024);
    assert(a <= b);
    if -15 <= a && b <= 14 {
        lemma_exp2_frac(x - a * 1024, 1023);
        lemma_exp2_frac(0, y - b * 1024);
        lemma_exp2_frac(x - a * 1024, x - a * 1024);
        if a == b {
            lemma_exp2_frac(x - a * 1024, y - b * 1024);
            lemma_shift_order(exp2_frac(x - a * 1024), exp2_frac(y - b * 1024), a + 2);
        } else {
            let (m, n) = (exp2_frac(x - a * 1024), exp2_frac(y - b * 1024));
            lemma_shift_step(m, n, a + 2, b + 2);
        }
    } else if a < -15 && -15 <= b <= 14 {
        lemma_exp2_frac(0, y - b * 1024);
        lemma_shift_order(0, exp2_frac(y - b * 1024), b + 2);
        lemma_shift_zero(b + 2);
    }
}

proof fn lemma_shift_zero(k: int)
    ensures
        shifted(0, k) == 0,
{
    if k >= 0 {
        assert(0 * vstd::arithmetic::power2::pow2(k as nat) == 0) by (nonlinear_arith);
    } else {
        vstd::arithmetic::power2::lemma_pow2_pos((-k) as nat);
        let p = vstd::arithmetic::power2::pow2((-k) as nat) as int;
        assert(0int / p == 0) by (nonlinear_arith)
            requires
                p > 0,
        ;
    }
}

proof fn lemma_shift_order(m: int, n: int, k: int)
    requires
        0 <= m <= n,
    ensures
        shifted(m, k) <= shifted(n, k),
{
    if k >= 0 {
        let p = vstd::arithmetic::power2::pow2(k as nat) as int;
        assert(m * p <= n * p) by (nonlinear_arith)
            requires
                m <= n,
                p >= 0,
        ;
    } else {
        vstd::arithmetic::power2::lemma_pow2_pos((-k) as nat);
        let p = vstd::arithmetic::power2::pow2((-k) as nat) as int;
        assert(m / p <= n / p) by (nonlinear_arith)
            requires
                m <= n,
                p > 0,
        ;
    }
}

/// Doubling makes up for a mantissa below twice the least.
proof fn lemma_shift_step(m: int, n: int, j: int, k: int)
    requires
        0 <= m <= 32766,
        16383 <= n,
        -13 <= j < k <= 16,
    ensures
        shifted(m, j) <= shifted(n, k),
    decreases k - j,
{
    // m * 2^j <= (2 n) * 2^j == n * 2^(j + 1).
    lemma_shift_order(m, 2 * n, j);
    lemma_shift_double(n, j);
    if j + 1 < k {
        lemma_shift_step(32766, n, j + 1, k);
        if n <= 32766 {
            lemma_shift_order(n, 32766, j + 1);
        } else {
            lemma_shift_grow(n, j + 1, k);
        }
    }
}

proof fn lemma_shift_double(n: int, j: int)
    requires
        n >= 0,
    ensures
        shifted(2 * n, j) <= shifted(n, j + 1),
{
    vstd::arithmetic::power2::lemma2_to64();
    if j >= 0 {
        vstd::arithmetic::power2::lemma_pow2_unfold((j + 1) as nat);
        let p = vstd::arithmetic::power2::pow2(j as nat) as int;
        assert((2 * n) * p == n * (2 * p)) by (nonlinear_arith);
    } else {
        vstd::arithmetic::power2::lemma_pow2_unfold((-j) as nat);
        vstd::arithmetic::power2::lemma_pow2_pos((-j - 1) as nat);
        let p = vstd::arithmetic::power2::pow2((-j - 1) as nat) as int;
        assert((2 * n) / (2 * p) <= n / p) by (nonlinear_arith)
            requires
                p > 0,
                n >= 0,
        ;
        if j == -1 {
            assert(p == 1);
            assert(n / p == n) by (nonlinear_arith)
                requires
                    p == 1,
            ;
            assert(shifted(n, 0) == n * 1);
        }
    }
}

proof fn lemma_shift_grow(n: int, j: int, k: int)
    requires
        n >= 0,
        j <= k,
    ensures
        shifted(n, j) <= shifted(n, k),
    decreases k - j,
{
    if j < k {
        lemma_shift_order(n, 2 * n, j);
        lemma_shift_double(n, j);
        lemma_shift_grow(n, j + 1, k);
    }
}

/// The high band is the softer the less of the bitrate is left for it: hardly to be heard
/// where nothing is, and in full from 16384 bits a second on. Where masks are known, and where
/// there is no low band, it is in full.
pub proof fn high_band_by_what_is_left(e: OpusEncoder, run: FrameRun, other: FrameRun)
    ensures
        ({
            let left = e.frame_rate_bps(run) - e.speech_rate(run);
            let gain = e.high_band_gain(run);
            &&& e.mode != MODE_HYBRID || e.energy_masking is Some ==> gain == 32767
            &&& e.mode == MODE_HYBRID && e.energy_masking is None ==> {
                &&& gain <= 32767
                &&& gain >= 0
                &&& left <= 0 ==> gain <= 1
                &&& left > 16384 ==> gain == 32767
                &&& left <= e.frame_rate_bps(other) - e.speech_rate(other) ==> gain
                    <= e.high_band_gain(other)
            }
        }),
{
    let d = e.speech_rate(run) - e.frame_rate_bps(run);
    let o = e.speech_rate(other) - e.frame_rate_bps(other);
    vstd::arithmetic::power2::lemma2_to64();
    lemma_exp2_positive(d);
    lemma_exp2_positive(o);
    if 0 <= d < 15360 {
        powers_grow(0, d);
        assert(exp2_frac(0) == 16383);
        assert(exp2_of(0) == shifted(16383, 2));
        assert(shifted(16383, 2) == 16383 * 4);
    }
    if o <= d < 15360 {
        powers_grow(o, d);
    }
}

proof fn lemma_exp2_positive(x: int)
    ensures
        exp2_of(x) >= 0,
{
    if -15360 <= x < 15360 {
        powers_grow(-20000, x);
    }
}

// ---------------------------------------------------------------------------
// Masks
// ---------------------------------------------------------------------------

/// The more a band is masked the less it counts, between two bands' worth down and a quarter
/// of one up.
proof fn lemma_masks(a: Seq<i32>, b: Seq<i32>, from: int, n: int)
    requires
        forall|i: int| from <= i < from + n ==> #[trigger] a[i] <= b[i],
    ensures
        masks(a, from, n) <= masks(b, from, n),
    decreases n,
{
    if n > 0 {
        lemma_masks(a, b, from, n - 1);
        assert(a[from + n - 1] <= b[from + n - 1]);
    }
}

/// What is masked needs no bits: the lower the masks, the lower the rate for speech, but never
/// down by more than two thirds. Bands above the speech band do not count.
pub proof fn masks_lower_the_rate(
    a: Seq<i32>,
    b: Seq<i32>,
    channels: int,
    bandwidth: int,
    rate: int,
)
    requires
        1 <= channels <= 2,
        0 <= rate,
        ({
            let bands = if bandwidth == OPUS_BANDWIDTH_NARROWBAND {
                13int
            } else if bandwidth == OPUS_BANDWIDTH_MEDIUMBAND {
                15
            } else {
                17
            };
            &&& forall|i: int| 0 <= i < bands ==> #[trigger] a[i] <= b[i]
            &&& channels == 2 ==> forall|i: int| 21 <= i < 21 + bands ==> #[trigger] a[i] <= b[i]
        }),
    ensures
        mask_offset(a, channels, bandwidth, rate) <= mask_offset(b, channels, bandwidth, rate),
        3 * (rate + mask_offset(a, channels, bandwidth, rate)) >= rate,
{
    let (end, srate) = speech_band(bandwidth);
    lemma_masks(a, b, 0, end);
    if channels == 2 {
        lemma_masks(a, b, 21, end);
    }
    let s = masks(a, 0, end) + if channels == 2 {
        masks(a, 21, end)
    } else {
        0
    };
    let t = masks(b, 0, end) + if channels == 2 {
        masks(b, 21, end)
    } else {
        0
    };
    crate::rates_law::lemma_tdiv_order(s, t, end);
    let (x, y) = (tdiv(s, end), tdiv(t, end));
    assert(x * channels <= y * channels) by (nonlinear_arith)
        requires
            x <= y,
            channels >= 1,
    ;
    let (p, q) = ((x * channels + 3355443) / 16384, (y * channels + 3355443) / 16384);
    assert(p <= q);
    assert(srate * p <= srate * q) by (nonlinear_arith)
        requires
            p <= q,
            srate >= 0,
    ;
}

/// Masks move the rate of speech where they are known, the bitrate may vary, and the signal is
/// not all low frequencies: by all that they give up to wideband, and by three fifths of that
/// above, to within a bit a second.
pub proof fn masks_move_the_rate(e: OpusEncoder, run: FrameRun)
    ensures
        ({
            let rate = e.speech_rate(run);
            let masked = e.masked_rate(run);
            &&& e.energy_masking is None || e.use_vbr == 0 || e.lfe != 0 ==> masked == rate
            &&& e.energy_masking is Some && e.use_vbr != 0 && e.lfe == 0 ==> {
                let offset = mask_offset(
                    e.energy_masking->Some_0@,
                    e.channels as int,
                    e.bandwidth as int,
                    rate,
                );
                if e.bandwidth <= OPUS_BANDWIDTH_WIDEBAND || e.bandwidth > OPUS_BANDWIDTH_FULLBAND {
                    masked == rate + offset
                } else {
                    -5 < 5 * (masked - rate) - 3 * offset < 5
                }
            }
        }),
{
}

// ---------------------------------------------------------------------------
// Warming up
// ---------------------------------------------------------------------------

/// The speech coder is warmed up with silence, then with sound that fades in, then with sound
/// as it was: no sample gets louder, and in the end all are the same.
pub proof fn warm_up_fades_in(e: OpusEncoder, window: Seq<i16>, j: int)
    requires
        e.wf(),
        0 <= j < e.delay_buffer@.len(),
        window.len() >= 120,
        forall|k: int| 0 <= k < window.len() ==> 0 <= #[trigger] window[k] <= 32767,
    ensures
        ({
            let x = e.delay_buffer@[j] as int;
            let y = e.ramped(window, j);
            let start = e.channels * (e.fs / 100 - e.fs / 250 - e.fs / 400);
            let end = start + e.channels * (e.fs / 400);
            &&& j < start ==> y == 0
            &&& j >= end ==> y == x
            &&& x >= 0 ==> 0 <= y <= x
            &&& x <= 0 ==> x <= y <= 0
        }),
{
    let start = e.ramp_start();
    let c = e.channels as int;
    let x = e.delay_buffer@[j] as int;
    if start <= j < start + c * (e.fs / 400) && e.celt_enc is Some {
        let i = (j - start) / c;
        let (inc, overlap) = (48000int / e.fs as int, 120 * e.fs / 48000);
        assert(0 <= i < e.fs / 400) by (nonlinear_arith)
            requires
                i == (j - start) / c,
                0 <= j - start < c * (e.fs / 400),
                c >= 1,
        ;
        let k = if e.fs == 8000 {
            6int
        } else if e.fs == 12000 {
            4
        } else if e.fs == 16000 {
            3
        } else if e.fs == 24000 {
            2
        } else {
            1
        };
        crate::plan_law::lemma_quotient(48000, e.fs as int, k);
        if e.fs == 8000 {
            assert(6 * (e.fs / 400) == 120);
        } else if e.fs == 12000 {
            assert(4 * (e.fs / 400) == 120);
        } else if e.fs == 16000 {
            assert(3 * (e.fs / 400) == 120);
        } else if e.fs == 24000 {
            assert(2 * (e.fs / 400) == 120);
        }
        assert(inc == k);
        assert(inc * (e.fs / 400) == 120 && inc >= 1);
        assert(0 <= i * inc < 120) by (nonlinear_arith)
            requires
                0 <= i <= e.fs / 400 - 1,
                inc * (e.fs / 400) == 120,
                inc >= 1,
        ;
        let w = window[i * inc] as int;
        assert(0 <= w <= 32767);
        crate::music_law::fades_go_from_one_to_the_other(w, w, 0, 32767);
        let v = q15(w, w);
        assert(0 <= w * w) by (nonlinear_arith);
        assert(v * 32767 + (Q15ONE - v) * 0 >= 0);
        let g = crate::dsp::gain_for(i, window, inc, overlap, 0, Q15ONE as int);
        assert(0 <= g <= 32767);
        let p = g * x;
        assert(x >= 0 ==> 0 <= p <= 32767 * x) by (nonlinear_arith)
            requires
                p == g * x,
                0 <= g <= 32767,
        ;
        assert(x <= 0 ==> 32767 * x <= p <= 0) by (nonlinear_arith)
            requires
                p == g * x,
                0 <= g <= 32767,
        ;
    }
}

// ---------------------------------------------------------------------------
// Reports
// ---------------------------------------------------------------------------

/// Of speech alone the bandwidth is half the sampling rate that the speech coder took. Where
/// it was not known whether there is activity, the speech coder says so; what was known stays.
pub proof fn reports_are_taken(e: OpusEncoder, run: FrameRun)
    ensures
        ({
            let r = e.reported(run);
            let rate = e.silk_mode.internal_sample_rate;
            &&& e.mode == MODE_SILK_ONLY && rate == 8000 ==> r.bandwidth
                == OPUS_BANDWIDTH_NARROWBAND
            &&& e.mode == MODE_SILK_ONLY && rate == 12000 ==> r.bandwidth
                == OPUS_BANDWIDTH_MEDIUMBAND
            &&& e.mode == MODE_SILK_ONLY && rate == 16000 ==> r.bandwidth == OPUS_BANDWIDTH_WIDEBAND
            &&& e.mode != MODE_SILK_ONLY ==> r.bandwidth == run.bandwidth
            &&& run.activity != VAD_NO_DECISION ==> r.activity == run.activity
            &&& run.activity == VAD_NO_DECISION ==> (r.activity == 0 <==> e.silk_mode.signal_type
                == TYPE_NO_VOICE_ACTIVITY) && (r.activity == 0 || r.activity == 1)
        }),
{
}

/// A speech coder that is ready to change its bandwidth is followed by a short frame of music
/// behind the speech, in the last frame of a packet; else the frame stays as it is.
pub proof fn ready_speech_is_followed_by_music(e: OpusEncoder, run: FrameRun)
    requires
        e.wf(),
    ensures
        ({
            let s = e.spoken(run);
            let r = e.reported(run);
            let ready = e.silk_mode.switch_ready != 0 && e.nonfinal_frame == 0;
            &&& !ready ==> s == r
            &&& ready ==> !s.celt_to_silk && (s.redundancy <==> s.redundancy_bytes != 0)
            &&& s.max_data_bytes == run.max_data_bytes
            &&& s.bandwidth == r.bandwidth
            &&& s.activity == r.activity
            &&& s.to_celt == run.to_celt
        }),
{
}

/// A change of the speech coder's bandwidth is remembered for the next frame just where it was
/// ready, the packet ends with this frame, and something was written.
pub proof fn changes_of_bandwidth_are_remembered(e: OpusEncoder, n_bytes: int)
    ensures
        ({
            let s = e.told_by_speech(n_bytes);
            let ready = e.silk_mode.switch_ready != 0 && e.nonfinal_frame == 0;
            &&& ready && n_bytes != 0 ==> s.silk_bw_switch == 1
            &&& !ready || n_bytes == 0 ==> s.silk_bw_switch == e.silk_bw_switch
            &&& (s.silk_mode.opus_can_switch == 1 <==> ready)
            &&& n_bytes == 0 ==> s.range_final == 0
            &&& s.same_choices(e)
            &&& s.prev_mode == e.prev_mode
            &&& s.first == e.first
        }),
{
}

} // verus!
