//! What holds of durations, of first bytes, and of bitrates and bits, said in seconds and bits
//! rather than in the steps by which they are worked out.

use vstd::prelude::*;
use crate::arith::{min_int, tdiv};
use crate::modes::{
    MODE_CELT_ONLY, MODE_HYBRID, MODE_SILK_ONLY, OPUS_AUTO, OPUS_BANDWIDTH_FULLBAND,
    OPUS_BANDWIDTH_MEDIUMBAND, OPUS_BANDWIDTH_NARROWBAND, OPUS_BANDWIDTH_SUPERWIDEBAND,
    OPUS_BANDWIDTH_WIDEBAND, OPUS_BITRATE_MAX, OPUS_FRAMESIZE_100_MS, OPUS_FRAMESIZE_10_MS,
    OPUS_FRAMESIZE_120_MS, OPUS_FRAMESIZE_20_MS, OPUS_FRAMESIZE_2_5_MS, OPUS_FRAMESIZE_40_MS,
    OPUS_FRAMESIZE_5_MS, OPUS_FRAMESIZE_60_MS, OPUS_FRAMESIZE_80_MS, OPUS_FRAMESIZE_ARG,
};
use crate::packet::samples_per_frame;
use crate::rates::{
    bitrate_of, bits_of, codable, codable_size, effective_bitrate, equiv_rate_of, fec_bandwidth,
    fec_pays, low_band_rate, period_of, redundancy_bytes_of, selected_size, silk_rate_of, toc_byte,
    valid_fs,
};

verus! {

// ---------------------------------------------------------------------------
// Durations
// ---------------------------------------------------------------------------

/// Whether a size of `n` samples was selected out of `frame_size` for a duration of `units`
/// times 2.5 ms: it lasts just that long, and it is refused only where there are too few
/// samples.
pub open spec fn lasts(n: int, frame_size: int, fs: int, units: int) -> bool {
    if units * fs <= 400 * frame_size {
        400 * n == units * fs
    } else {
        n == -1
    }
}

/// A size that is selected by a duration lasts that long. It is selected wherever there are
/// enough samples for it. Without a duration all samples are selected, where they last one of
/// the nine durations; and there are no other durations.
pub proof fn selected_sizes_last(frame_size: int, duration: int, fs: int)
    requires
        valid_fs(fs),
    ensures
        ({
            let n = selected_size(frame_size, duration, fs);
            &&& duration == OPUS_FRAMESIZE_2_5_MS ==> lasts(n, frame_size, fs, 1)
            &&& duration == OPUS_FRAMESIZE_5_MS ==> lasts(n, frame_size, fs, 2)
            &&& duration == OPUS_FRAMESIZE_10_MS ==> lasts(n, frame_size, fs, 4)
            &&& duration == OPUS_FRAMESIZE_20_MS ==> lasts(n, frame_size, fs, 8)
            &&& duration == OPUS_FRAMESIZE_40_MS ==> lasts(n, frame_size, fs, 16)
            &&& duration == OPUS_FRAMESIZE_60_MS ==> lasts(n, frame_size, fs, 24)
            &&& duration == OPUS_FRAMESIZE_80_MS ==> lasts(n, frame_size, fs, 32)
            &&& duration == OPUS_FRAMESIZE_100_MS ==> lasts(n, frame_size, fs, 40)
            &&& duration == OPUS_FRAMESIZE_120_MS ==> lasts(n, frame_size, fs, 48)
            &&& duration == OPUS_FRAMESIZE_ARG ==> n == if exists|units: int|
                #![trigger units * fs]
                400 * frame_size == units * fs && (units == 1 || units == 2 || units == 4 || units
                    == 8 || units == 16 || units == 24 || units == 32 || units == 40 || units
                    == 48) {
                frame_size
            } else {
                -1
            }
            &&& duration != OPUS_FRAMESIZE_ARG && (duration < OPUS_FRAMESIZE_2_5_MS || duration
                > OPUS_FRAMESIZE_120_MS) ==> n == -1
        }),
{
    if duration == OPUS_FRAMESIZE_ARG && selected_size(frame_size, duration, fs) == frame_size
        && frame_size > 0 {
        let n = frame_size;
        assert(400 * n == 1 * fs || 400 * n == 2 * fs || 400 * n == 4 * fs || 400 * n == 8 * fs
            || 400 * n == 16 * fs || 400 * n == 24 * fs || 400 * n == 32 * fs || 400 * n == 40 * fs
            || 400 * n == 48 * fs);
    }
}

/// The first byte of a packet tells how long its frames are: the upper five bits are one of 32
/// numbers, the first twelve for speech, four for hybrid frames, and sixteen for music.
pub proof fn first_bytes_tell_durations(toc: u8, fs: int)
    requires
        valid_fs(fs),
    ensures
        ({
            let number = toc as int / 8;
            let n = samples_per_frame(toc, fs);
            &&& number < 12 ==> if number % 4 == 0 {
                100 * n == fs
            } else if number % 4 == 1 {
                50 * n == fs
            } else if number % 4 == 2 {
                25 * n == fs
            } else {
                50 * n == 3 * fs
            }
            &&& 12 <= number < 16 ==> if number % 2 == 0 {
                100 * n == fs
            } else {
                50 * n == fs
            }
            &&& 16 <= number ==> if number % 4 == 0 {
                400 * n == fs
            } else if number % 4 == 1 {
                200 * n == fs
            } else if number % 4 == 2 {
                100 * n == fs
            } else {
                50 * n == fs
            }
        }),
{
}

/// The first byte that is written for a frame tells its mode, its bandwidth, how often such
/// frames come, and whether they are in stereo. No two frames that differ in any of these have
/// the same first byte, but that music has no mediumband.
pub proof fn first_bytes_tell_frames(mode: int, frame_rate: int, bandwidth: int, channels: int)
    requires
        codable(mode, frame_rate, bandwidth),
        channels == 1 || channels == 2,
    ensures
        ({
            let toc = toc_byte(mode, frame_rate, bandwidth, channels) as int;
            let number = toc / 8;
            let n = samples_per_frame(toc as u8, 48000);
            &&& mode == MODE_SILK_ONLY ==> number < 12 && number / 4 == bandwidth
                - OPUS_BANDWIDTH_NARROWBAND
            &&& mode == MODE_HYBRID ==> 12 <= number < 16 && (bandwidth == OPUS_BANDWIDTH_FULLBAND
                <==> number >= 14)
            &&& mode == MODE_CELT_ONLY ==> {
                &&& number >= 16
                &&& bandwidth == OPUS_BANDWIDTH_NARROWBAND || bandwidth
                    == OPUS_BANDWIDTH_MEDIUMBAND <==> number < 20
                &&& bandwidth == OPUS_BANDWIDTH_WIDEBAND <==> 20 <= number < 24
                &&& bandwidth == OPUS_BANDWIDTH_SUPERWIDEBAND <==> 24 <= number < 28
                &&& bandwidth == OPUS_BANDWIDTH_FULLBAND <==> 28 <= number
            }
            &&& (channels == 2 <==> (toc / 4) % 2 == 1)
            &&& toc % 4 == 0
            &&& frame_rate * n <= 48000 < (frame_rate + 1) * n
        }),
{
    reveal_with_fuel(period_of, 8);
    let toc = toc_byte(mode, frame_rate, bandwidth, channels);
    let period = period_of(frame_rate);
    let s: u8 = if channels == 2 {
        4
    } else {
        0
    };
    if mode == MODE_SILK_ONLY {
        let b: u8 = ((bandwidth - OPUS_BANDWIDTH_NARROWBAND) * 32) as u8;
        let p: u8 = ((period - 2) * 8) as u8;
        assert((b | p | s) == b + p + s) by (bit_vector)
            requires
                b == 0 || b == 32 || b == 64,
                p == 0 || p == 8 || p == 16 || p == 24,
                s == 0 || s == 4,
        ;
        assert(toc == b + p + s);
    } else if mode == MODE_CELT_ONLY {
        let above = if bandwidth < OPUS_BANDWIDTH_MEDIUMBAND {
            0
        } else {
            bandwidth - OPUS_BANDWIDTH_MEDIUMBAND
        };
        let b: u8 = (above * 32) as u8;
        let p: u8 = (period * 8) as u8;
        assert((128u8 | b | p | s) == 128 + b + p + s) by (bit_vector)
            requires
                b == 0 || b == 32 || b == 64 || b == 96,
                p == 0 || p == 8 || p == 16 || p == 24,
                s == 0 || s == 4,
        ;
        assert(toc == 128 + b + p + s);
    } else {
        let b: u8 = ((bandwidth - OPUS_BANDWIDTH_SUPERWIDEBAND) * 16) as u8;
        let p: u8 = ((period - 2) * 8) as u8;
        assert((96u8 | b | p | s) == 96 + b + p + s) by (bit_vector)
            requires
                b == 0 || b == 16,
                p == 0 || p == 8,
                s == 0 || s == 4,
        ;
        assert(toc == 96 + b + p + s);
    }
    let n = samples_per_frame(toc, 48000);
    if frame_rate == 400 {
        assert(n == 120);
    } else if frame_rate == 200 {
        assert(n == 240);
    } else if frame_rate == 100 {
        assert(n == 480);
    } else if frame_rate == 50 {
        assert(n == 960);
    } else if frame_rate == 25 {
        assert(n == 1920);
    } else {
        assert(n == 2880);
    }
    assert(frame_rate * n <= 48000 < (frame_rate + 1) * n);
}

// ---------------------------------------------------------------------------
// Bits and bitrates
// ---------------------------------------------------------------------------

/// A sampling rate is a whole number of sixths of a size that can be coded.
proof fn lemma_sixths(n: int, fs: int)
    requires
        valid_fs(fs),
        codable_size(n, fs),
    ensures
        n >= 20,
        (6 * fs / n) * n == 6 * fs,
        50 <= 6 * fs / n <= 2400,
{
    let k = if 400 * n == fs {
        2400int
    } else if 200 * n == fs {
        1200
    } else if 100 * n == fs {
        600
    } else if 50 * n == fs {
        300
    } else if 25 * n == fs {
        150
    } else if 50 * n == 3 * fs {
        100
    } else if 50 * n == 4 * fs {
        75
    } else if 50 * n == 5 * fs {
        60
    } else {
        50
    };
    assert(6 * fs == k * n);
    crate::plan_law::lemma_quotient(6 * fs, n, k);
}

/// The bits of a frame are what a bitrate comes to while the frame lasts, rounded down.
pub proof fn bits_are_rate_times_duration(bitrate: int, n: int, fs: int)
    requires
        valid_fs(fs),
        codable_size(n, fs),
        0 <= bitrate,
    ensures
        bits_of(bitrate, fs, n) * fs <= bitrate * n < (bits_of(bitrate, fs, n) + 1) * fs,
{
    lemma_sixths(n, fs);
    let q = 6 * fs / n;
    let bits = bits_of(bitrate, fs, n);
    assert(bits * q <= bitrate * 6 < (bits + 1) * q) by (nonlinear_arith)
        requires
            bits == (bitrate * 6) / q,
            q >= 1,
            bitrate >= 0,
    ;
    assert(bits * fs <= bitrate * n < (bits + 1) * fs) by (nonlinear_arith)
        requires
            bits * q <= bitrate * 6 < (bits + 1) * q,
            q * n == 6 * fs,
            n > 0,
    ;
}

/// A bitrate is what the bits of a frame come to in a second, rounded down.
pub proof fn rates_are_bits_by_duration(bits: int, n: int, fs: int)
    requires
        valid_fs(fs),
        codable_size(n, fs),
        0 <= bits,
    ensures
        bitrate_of(bits, fs, n) * n <= bits * fs < (bitrate_of(bits, fs, n) + 1) * n,
{
    lemma_sixths(n, fs);
    let q = 6 * fs / n;
    let rate = bitrate_of(bits, fs, n);
    assert(bits * q >= 0) by (nonlinear_arith)
        requires
            bits >= 0,
            q >= 0,
    ;
    assert(rate * 6 <= bits * q < (rate + 1) * 6);
    assert(rate * n <= bits * fs < (rate + 1) * n) by (nonlinear_arith)
        requires
            rate * 6 <= bits * q < (rate + 1) * 6,
            q * n == 6 * fs,
            n > 0,
    ;
}

/// The bitrate that a setting stands for never fills a packet past its room. A number of bits
/// a second stands for itself where it fits, the greatest bitrate for 1.5 million, and no
/// setting for a bit a sample and 60 a frame.
pub proof fn settings_stand_for_rates(setting: int, channels: int, fs: int, n: int, max: int)
    requires
        valid_fs(fs),
        codable_size(n, fs),
        1 <= channels <= 2,
        1 <= max,
    ensures
        ({
            let r = effective_bitrate(setting, channels, fs, n, max);
            &&& r * n <= max * 8 * fs
            &&& setting != OPUS_AUTO && setting != OPUS_BITRATE_MAX ==> r <= setting && (r < setting
                ==> (r + 1) * n > max * 8 * fs)
            &&& setting == OPUS_BITRATE_MAX ==> r <= 1500000 && (r < 1500000 ==> (r + 1) * n > max
                * 8 * fs)
            &&& setting == OPUS_AUTO ==> {
                &&& (r - fs * channels) * n <= 60 * fs
                &&& (r + 1 - fs * channels) * n > 60 * fs || (r + 1) * n > max * 8 * fs
            }
        }),
{
    lemma_sixths(n, fs);
    rates_are_bits_by_duration(max * 8, n, fs);
    let auto = 60 * fs / n;
    assert(auto * n <= 60 * fs < (auto + 1) * n) by (nonlinear_arith)
        requires
            auto == 60 * fs / n,
            n > 0,
    ;
    let r = effective_bitrate(setting, channels, fs, n, max);
    let most = bitrate_of(max * 8, fs, n);
    assert(r <= most);
    assert(r * n <= most * n) by (nonlinear_arith)
        requires
            r <= most,
            n > 0,
    ;
    if setting == OPUS_AUTO {
        assert((r - fs * channels) * n <= auto * n) by (nonlinear_arith)
            requires
                r - fs * channels <= auto,
                n > 0,
        ;
        if r != most {
            assert(r + 1 - fs * channels == auto + 1);
        }
    }
}

// ---------------------------------------------------------------------------
// The rate that speech would need
// ---------------------------------------------------------------------------

/// Rounding keeps order.
pub proof fn lemma_tdiv_order(a: int, b: int, d: int)
    requires
        a <= b,
        d > 0,
    ensures
        tdiv(a, d) <= tdiv(b, d),
{
    assert(a >= 0 ==> a / d <= b / d) by (nonlinear_arith)
        requires
            a <= b,
            d > 0,
    ;
    assert(b < 0 ==> (-b) / d <= (-a) / d) by (nonlinear_arith)
        requires
            a <= b,
            d > 0,
    ;
    assert(a < 0 ==> (-a) / d >= 0) by (nonlinear_arith)
        requires
            d > 0,
    ;
    assert(b >= 0 ==> b / d >= 0) by (nonlinear_arith)
        requires
            d > 0,
    ;
}

/// What is left when a share of a number is taken, by a fraction of at most one, keeps order.
proof fn lemma_rest_order(a: int, b: int, k: int, d: int)
    requires
        a <= b,
        0 <= k <= d,
        d >= 1,
    ensures
        a - tdiv(a * k, d) <= b - tdiv(b * k, d),
{
    let step = b - a;
    assert(b * k - a * k == step * k && 0 <= step * k <= step * d) by (nonlinear_arith)
        requires
            step == b - a,
            step >= 0,
            0 <= k <= d,
    ;
    // The share grows by no more than the number.
    let (x, y) = (a * k, b * k);
    assert(tdiv(y, d) - tdiv(x, d) <= step) by {
        assert(x >= 0 ==> y / d <= x / d + step) by (nonlinear_arith)
            requires
                y <= x + step * d,
                d >= 1,
        ;
        assert(y < 0 ==> (-x) / d <= (-y) / d + step) by (nonlinear_arith)
            requires
                y <= x + step * d,
                d >= 1,
        ;
        assert(x < 0 && y >= 0 ==> y / d + (-x) / d <= step) by (nonlinear_arith)
            requires
                y <= x + step * d,
                d >= 1,
        ;
    }
}

/// More bits a second are worth more, in whatever mode and in however many channels.
pub proof fn more_bits_are_worth_more(
    a: int,
    b: int,
    channels: int,
    frame_rate: int,
    vbr: int,
    mode: int,
    complexity: int,
    loss: int,
)
    requires
        a <= b,
        0 <= complexity <= 10,
        0 <= loss <= 100,
    ensures
        equiv_rate_of(a, channels, frame_rate, vbr, mode, complexity, loss) <= equiv_rate_of(
            b,
            channels,
            frame_rate,
            vbr,
            mode,
            complexity,
            loss,
        ),
{
    let over = if frame_rate > 50 {
        (40 * channels + 20) * (frame_rate - 50)
    } else {
        0
    };
    let (a1, b1) = (a - over, b - over);
    assert(a1 * 1 == a1 && b1 * 1 == b1);
    lemma_rest_order(a1, b1, 1, 12);
    let (a2, b2) = if vbr == 0 {
        (a1 - tdiv(a1, 12), b1 - tdiv(b1, 12))
    } else {
        (a1, b1)
    };
    assert(a2 * (90 + complexity) <= b2 * (90 + complexity)) by (nonlinear_arith)
        requires
            a2 <= b2,
            complexity >= 0,
    ;
    lemma_tdiv_order(a2 * (90 + complexity), b2 * (90 + complexity), 100);
    let (a3, b3) = (tdiv(a2 * (90 + complexity), 100), tdiv(b2 * (90 + complexity), 100));
    lemma_tdiv_order(a3 * 4, b3 * 4, 5);
    lemma_tdiv_order(a3 * 9, b3 * 9, 10);
    let (a4, b4) = (tdiv(a3 * 4, 5), tdiv(b3 * 4, 5));
    lemma_rest_order(a3, b3, loss, 6 * loss + 10);
    lemma_rest_order(a4, b4, loss, 6 * loss + 10);
    lemma_rest_order(a3, b3, loss, 12 * loss + 20);
}

/// What a bitrate is worth at 50 frames a second or less, where it varies, at a given
/// complexity, and without loss: a hundredth less for each step of complexity below ten; a
/// fifth less again for speech of the least complexity, and a tenth for music below half.
pub proof fn complexity_is_worth_bits(bitrate: int, channels: int, frame_rate: int, mode: int, complexity: int)
    requires
        0 <= bitrate,
        frame_rate <= 50,
        0 <= complexity <= 10,
    ensures
        ({
            let r = equiv_rate_of(bitrate, channels, frame_rate, 1, mode, complexity, 0);
            let speech = mode == MODE_SILK_ONLY || mode == MODE_HYBRID;
            &&& complexity == 10 ==> r == bitrate
            &&& if speech && complexity < 2 {
                500 * r <= 4 * bitrate * (90 + complexity) < 500 * (r + 2)
            } else if mode == MODE_CELT_ONLY && complexity < 5 {
                1000 * r <= 9 * bitrate * (90 + complexity) < 1000 * (r + 2)
            } else {
                100 * r <= bitrate * (90 + complexity) < 100 * (r + 1)
            }
        }),
{
    let w = bitrate * (90 + complexity);
    assert(w >= 0) by (nonlinear_arith)
        requires
            w == bitrate * (90 + complexity),
            bitrate >= 0,
            complexity >= 0,
    ;
    let c = w / 100;
    assert(c * 0 == 0);
    assert(tdiv(c * 0, 10) == 0 && tdiv(c * 0, 20) == 0);
    assert((c * 4 / 5) * 0 == 0);
    assert(4 * bitrate * (90 + complexity) == 4 * w && 9 * bitrate * (90 + complexity) == 9 * w)
        by (nonlinear_arith)
        requires
            w == bitrate * (90 + complexity),
    ;
    if complexity == 10 {
        assert(w == bitrate * 100);
    }
}

/// Each frame beyond 50 a second costs 20 bits, and 40 more for each channel.
pub proof fn frames_cost_bits(
    bitrate: int,
    channels: int,
    frame_rate: int,
    vbr: int,
    mode: int,
    complexity: int,
    loss: int,
)
    requires
        frame_rate >= 50,
    ensures
        equiv_rate_of(bitrate, channels, frame_rate, vbr, mode, complexity, loss) == equiv_rate_of(
            bitrate - (frame_rate - 50) * (20 + 40 * channels),
            channels,
            50,
            vbr,
            mode,
            complexity,
            loss,
        ),
{
    let over = (frame_rate - 50) * (20 + 40 * channels);
    assert((40 * channels + 20) * (frame_rate - 50) == over) by (nonlinear_arith)
        requires
            over == (frame_rate - 50) * (20 + 40 * channels),
    ;
    if frame_rate == 50 {
        assert(over == 0) by (nonlinear_arith)
            requires
                over == (frame_rate - 50) * (20 + 40 * channels),
                frame_rate == 50,
        ;
    }
}

/// A bitrate that may not vary is worth what eleven twelfths of it are worth where it may.
pub proof fn constant_rates_are_worth_less(
    bitrate: int,
    channels: int,
    frame_rate: int,
    mode: int,
    complexity: int,
    loss: int,
)
    requires
        0 <= bitrate,
        frame_rate <= 50,
    ensures
        exists|b: int|
            11 * bitrate <= 12 * b < 11 * bitrate + 12 && equiv_rate_of(
                bitrate,
                channels,
                frame_rate,
                0,
                mode,
                complexity,
                loss,
            ) == #[trigger] equiv_rate_of(b, channels, frame_rate, 1, mode, complexity, loss),
{
    let b = bitrate - bitrate / 12;
    assert(equiv_rate_of(bitrate, channels, frame_rate, 0, mode, complexity, loss)
        == equiv_rate_of(b, channels, frame_rate, 1, mode, complexity, loss));
}

/// Loss takes a share of what a bitrate is worth for speech, up to a sixth; half of that where
/// the mode is open; and none for music.
pub proof fn loss_costs_bits(
    bitrate: int,
    channels: int,
    frame_rate: int,
    vbr: int,
    mode: int,
    complexity: int,
    loss: int,
)
    requires
        0 <= loss <= 100,
        0 <= complexity <= 10,
        equiv_rate_of(bitrate, channels, frame_rate, vbr, mode, complexity, 0) >= 0,
    ensures
        ({
            let a = equiv_rate_of(bitrate, channels, frame_rate, vbr, mode, complexity, 0);
            let r = equiv_rate_of(bitrate, channels, frame_rate, vbr, mode, complexity, loss);
            if mode == MODE_SILK_ONLY || mode == MODE_HYBRID {
                a * (5 * loss + 10) <= r * (6 * loss + 10) < (a + 1) * (5 * loss + 10) + loss
            } else if mode == MODE_CELT_ONLY {
                r == a
            } else {
                a * (11 * loss + 20) <= r * (12 * loss + 20) < (a + 1) * (11 * loss + 20) + loss
            }
        }),
{
    let over = if frame_rate > 50 {
        (40 * channels + 20) * (frame_rate - 50)
    } else {
        0
    };
    let a1 = bitrate - over;
    let a2 = if vbr == 0 {
        a1 - tdiv(a1, 12)
    } else {
        a1
    };
    let a3 = tdiv(a2 * (90 + complexity), 100);
    let a4 = if complexity < 2 {
        tdiv(a3 * 4, 5)
    } else {
        a3
    };
    assert(a3 * 0 == 0 && a4 * 0 == 0);
    let a = equiv_rate_of(bitrate, channels, frame_rate, vbr, mode, complexity, 0);
    if mode == MODE_SILK_ONLY || mode == MODE_HYBRID {
        assert(a == a4);
        lemma_share(a, loss, 6 * loss + 10);
        let k = 5 * loss + 10;
        assert((a + 1) * k == a * k + k) by (nonlinear_arith);
    } else if mode != MODE_CELT_ONLY {
        assert(a == a3);
        lemma_share(a, loss, 12 * loss + 20);
        let k = 11 * loss + 20;
        assert((a + 1) * k == a * k + k) by (nonlinear_arith);
    }
}

proof fn lemma_share(a: int, loss: int, d: int)
    requires
        a >= 0,
        0 <= loss,
        d >= 1,
    ensures
        ({
            let r = a - tdiv(a * loss, d);
            a * (d - loss) <= r * d < a * (d - loss) + d
        }),
{
    assert(a * loss >= 0) by (nonlinear_arith)
        requires
            a >= 0,
            loss >= 0,
    ;
    let t = a * loss / d;
    assert(t * d <= a * loss < t * d + d) by (nonlinear_arith)
        requires
            t == a * loss / d,
            d >= 1,
    ;
    assert((a - t) * d == a * d - t * d && a * (d - loss) == a * d - a * loss) by (nonlinear_arith);
}

// ---------------------------------------------------------------------------
// The two bands of a hybrid frame
// ---------------------------------------------------------------------------

/// The low band of a hybrid frame takes the more the more there is, and so does the high band.
/// Error correction takes from the high band and gives to the low one.
pub proof fn both_bands_grow(a: int, b: int, fec: bool)
    requires
        0 <= a <= b,
    ensures
        low_band_rate(a, fec) <= low_band_rate(b, fec),
        a - low_band_rate(a, fec) <= b - low_band_rate(b, fec) + 2,
        low_band_rate(a, false) <= low_band_rate(a, true),
        a >= 12000 ==> low_band_rate(a, false) + 1000 <= low_band_rate(a, true),
        low_band_rate(a, fec) <= a,
        a >= 64000 ==> 2 * (low_band_rate(b, fec) - low_band_rate(a, fec)) <= b - a + 1,
{
}

/// Where the low band's part lies: at each of six rates it is not more below the rate than at
/// it, nor less above it.
pub proof fn low_band_by_rate(rate: int)
    requires
        0 <= rate,
    ensures
        ({
            let (p, f) = (low_band_rate(rate, false), low_band_rate(rate, true));
            &&& if rate <= 12000 {
                p <= 10000 && f <= 11000 && 6 * p <= 5 * rate < 6 * (p + 1) && 12 * f <= 11 * rate
                    < 12 * (f + 1)
            } else {
                p >= 10000 && f >= 11000
            }
            &&& if rate <= 16000 {
                p <= 13500 && f <= 15000
            } else {
                p >= 13500 && f >= 15000
            }
            &&& if rate <= 20000 {
                p <= 16000 && f <= 18000
            } else {
                p >= 16000 && f >= 18000
            }
            &&& if rate <= 24000 {
                p <= 18000 && f <= 21000
            } else {
                p >= 18000 && f >= 21000
            }
            &&& if rate <= 32000 {
                p <= 22000 && f <= 28000
            } else {
                p >= 22000 && f >= 28000
            }
            &&& if rate <= 64000 {
                p <= 38000 && f <= 50000
            } else {
                p >= 38000 && f >= 50000 && 2 * p <= rate + 12000 < 2 * (p + 1) && 2 * f <= rate
                    + 36000 < 2 * (f + 1)
            }
        }),
{
}

/// The speech coder's part of a hybrid frame is the low band of each channel. A bitrate that
/// may not vary adds 100 bits a second a channel, superwideband 300; two channels share 1000
/// where each has 12000.
pub proof fn speech_takes_the_low_band(rate: int, bandwidth: int, vbr: int, fec: int, channels: int)
    requires
        0 <= rate,
        channels == 1 || channels == 2,
    ensures
        ({
            let r = silk_rate_of(rate, bandwidth, vbr, fec, channels);
            let each = rate / channels;
            let extra = (if vbr == 0 {
                100int
            } else {
                0
            }) + if bandwidth == OPUS_BANDWIDTH_SUPERWIDEBAND {
                300int
            } else {
                0
            };
            &&& channels == 1 ==> r == low_band_rate(rate, fec != 0) + extra
            &&& channels == 2 && each < 12000 ==> r == 2 * (low_band_rate(each, fec != 0) + extra)
            &&& channels == 2 && each >= 12000 ==> r + 1000 == 2 * (low_band_rate(each, fec != 0)
                + extra)
            &&& r <= rate + 800
        }),
{
    let each = rate / channels;
    assert(each * channels <= rate) by (nonlinear_arith)
        requires
            each == rate / channels,
            channels >= 1,
    ;
    crate::rates::lemma_low_band_bound(each, fec != 0);
}

// ---------------------------------------------------------------------------
// Error correction
// ---------------------------------------------------------------------------

/// The rate, in bits a second, about which error correction starts to pay at a bandwidth
/// where a quarter of the packets are lost; no loss at all would take a quarter more.
pub open spec fn fec_base(bandwidth: int) -> int {
    if bandwidth == OPUS_BANDWIDTH_NARROWBAND {
        12000
    } else if bandwidth == OPUS_BANDWIDTH_MEDIUMBAND {
        14000
    } else if bandwidth == OPUS_BANDWIDTH_WIDEBAND {
        16000
    } else if bandwidth == OPUS_BANDWIDTH_SUPERWIDEBAND {
        20000
    } else {
        22000
    }
}

/// Error correction pays from a rate on, to within a hundredth: the more packets are lost the
/// less it takes, up to a quarter of them; the wider the band the more; and where it is on
/// already it takes 2000 less than where it is not. So it always pays from 28750 bits a second
/// on, and never up to 10800.
pub proof fn error_correction_pays(last_fec: int, loss: int, bandwidth: int, rate: int)
    requires
        0 <= loss <= 100,
    ensures
        ({
            let base = fec_base(bandwidth) + if last_fec == 1 {
                -1000int
            } else {
                1000
            };
            let percent = if loss < 25 {
                125 - loss
            } else {
                100
            };
            &&& 100 * rate >= base * percent ==> fec_pays(last_fec, loss, bandwidth, rate)
            &&& fec_pays(last_fec, loss, bandwidth, rate) ==> 101 * rate > base * percent
            &&& rate >= 28750 ==> fec_pays(last_fec, loss, bandwidth, rate)
            &&& rate <= 10800 ==> !fec_pays(last_fec, loss, bandwidth, rate)
        }),
{
    let base = fec_base(bandwidth) + if last_fec == 1 {
        -1000int
    } else {
        1000
    };
    let percent = if loss < 25 {
        125 - loss
    } else {
        100
    };
    let x = base * percent;
    assert(x == base * (125 - min_int(loss, 25)));
    assert(1100000 <= x <= 2875000) by (nonlinear_arith)
        requires
            x == base * percent,
            11000 <= base <= 23000,
            100 <= percent <= 125,
    ;
    let t = x * 655 / 65536;
    assert(100 * t < x);
    assert(101 * (t + 1) > x);
}

/// Error correction stays within the bandwidth: it takes the widest band up to the given one
/// at which it pays, and a narrower one only where more than a twentieth is lost. Where it
/// pays at none, there is none.
pub proof fn error_correction_takes_the_widest(last_fec: int, loss: int, bandwidth: int, rate: int)
    requires
        OPUS_BANDWIDTH_NARROWBAND <= bandwidth <= OPUS_BANDWIDTH_FULLBAND,
    ensures
        match fec_bandwidth(last_fec, loss, bandwidth, rate) {
            Some(b) => {
                &&& OPUS_BANDWIDTH_NARROWBAND <= b <= bandwidth
                &&& fec_pays(last_fec, loss, b, rate)
                &&& forall|w: int|
                    b < w <= bandwidth ==> !#[trigger] fec_pays(last_fec, loss, w, rate)
                &&& b < bandwidth ==> loss > 5
            },
            None => {
                &&& !fec_pays(last_fec, loss, bandwidth, rate)
                &&& loss > 5 ==> forall|w: int|
                    OPUS_BANDWIDTH_NARROWBAND <= w <= bandwidth ==> !#[trigger] fec_pays(
                        last_fec,
                        loss,
                        w,
                        rate,
                    )
            },
        },
    decreases bandwidth,
{
    if bandwidth > OPUS_BANDWIDTH_NARROWBAND {
        error_correction_takes_the_widest(last_fec, loss, bandwidth - 1, rate);
    }
    assert(fec_bandwidth(last_fec, loss, OPUS_BANDWIDTH_NARROWBAND - 1, rate) is None);
}

// ---------------------------------------------------------------------------
// Short frames that come along
// ---------------------------------------------------------------------------

/// Whether `bytes` bytes are a share of the bitrate that a short frame of 5 ms may take: one
/// and a half times what the bitrate comes to, at 200 frames a second.
pub open spec fn short_by_rate(bytes: int, bitrate: int, frame_rate: int, channels: int) -> bool {
    3200 * bytes <= 3 * (bitrate + (40 * channels + 20) * (200 - frame_rate))
}

/// Whether they are a share of the packet: in proportion to the samples of 5 ms, once each of
/// the two frames has its own bits.
pub open spec fn short_by_room(bytes: int, max: int, frame_rate: int, channels: int) -> bool {
    (8 * bytes - (40 * channels + 20)) * (240 + 48000int / frame_rate) <= 240 * (8 * max - 2 * (40
        * channels + 20))
}

/// A short frame takes as many bytes as its shares of the bitrate and of the packet allow, up
/// to 257. It is left away where that would be no more than 12 bytes, or 20 in stereo.
pub proof fn short_frames_take_their_share(max: int, bitrate: int, frame_rate: int, channels: int)
    requires
        1 <= frame_rate <= 400,
        1 <= channels <= 2,
        20 <= max,
        0 <= bitrate + (40 * channels + 20) * (200 - frame_rate),
    ensures
        ({
            let r = redundancy_bytes_of(max, bitrate, frame_rate, channels);
            let fits = |b: int|
                short_by_rate(b, bitrate, frame_rate, channels) && short_by_room(
                    b,
                    max,
                    frame_rate,
                    channels,
                );
            &&& r == 0 || 4 + 8 * channels < r <= 257
            &&& r > 0 ==> fits(r)
            &&& 0 < r < 257 ==> !fits(r + 1)
            &&& r == 0 ==> !fits(5 + 8 * channels)
        }),
{
    let base = 40 * channels + 20;
    let d = 240 + 48000int / frame_rate;
    assert(48000int / frame_rate >= 0) by (nonlinear_arith)
        requires
            frame_rate >= 1,
    ;
    let x = 3 * (bitrate + base * (200 - frame_rate));
    let wanted = tdiv(tdiv(x, 2), 1600);
    assert(x >= 0);
    assert(wanted == x / 2 / 1600);
    assert(3200 * wanted <= x < 3200 * (wanted + 1));
    let a = (max * 8 - 2 * base) * 240;
    let t = tdiv(a, d);
    let most = tdiv(t + base, 8);
    if a >= 0 {
        assert(t * d <= a < (t + 1) * d) by (nonlinear_arith)
            requires
                t == a / d,
                d >= 1,
        ;
        assert(t >= 0) by (nonlinear_arith)
            requires
                t == a / d,
                a >= 0,
                d >= 1,
        ;
    } else {
        assert((t - 1) * d < a <= t * d) by (nonlinear_arith)
            requires
                t == -((-a) / d),
                d >= 1,
        ;
        assert(-160 <= t <= 0) by (nonlinear_arith)
            requires
                t == -((-a) / d),
                d >= 240,
                0 < -a <= 40 * 240,
        ;
    }
    // A number of bytes is a share of the packet just where it is not above `most`.
    assert forall|b: int| b > 4 + 8 * channels implies (#[trigger] short_by_room(
        b,
        max,
        frame_rate,
        channels,
    ) <==> b <= most) by {
        let y = 8 * b - base;
        if a < 0 {
            assert(y > 0 && b > most);
            assert(y * d > 0) by (nonlinear_arith)
                requires
                    y > 0,
                    d >= 1,
            ;
        } else if b <= most {
            assert(y <= t);
            assert(y * d <= a) by (nonlinear_arith)
                requires
                    y <= t,
                    t * d <= a,
                    d >= 1,
            ;
        } else {
            assert(y >= t + 1);
            assert(y * d > a) by (nonlinear_arith)
                requires
                    y >= t + 1,
                    a < (t + 1) * d,
                    d >= 1,
            ;
        }
    }
}

} // verus!
