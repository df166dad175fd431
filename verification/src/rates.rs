//! Rates and the decisions that are made from them: frame sizes, the
//! table-of-contents byte, bit budgets, redundancy, and when to stop sending.

use vstd::prelude::*;
use crate::arith::{imin, min_int, smulwb, tdiv, silk_smulwb};
use crate::modes::{
    MAX_CONSECUTIVE_DTX, MODE_CELT_ONLY, MODE_HYBRID, MODE_SILK_ONLY, NB_SPEECH_FRAMES_BEFORE_DTX,
    OPUS_AUTO, OPUS_BANDWIDTH_FULLBAND, OPUS_BANDWIDTH_MEDIUMBAND, OPUS_BANDWIDTH_NARROWBAND,
    OPUS_BANDWIDTH_SUPERWIDEBAND, OPUS_BANDWIDTH_WIDEBAND, OPUS_BITRATE_MAX, OPUS_FRAMESIZE_120_MS,
    OPUS_FRAMESIZE_2_5_MS, OPUS_FRAMESIZE_40_MS, OPUS_FRAMESIZE_ARG,
};
use crate::packet::{nb_frames_of, samples_per_frame};

verus! {

// ---------------------------------------------------------------------------
// The table-of-contents byte
// ---------------------------------------------------------------------------

/// How often the frame rate must be doubled to reach 400 frames per second.
pub open spec fn period_of(frame_rate: int) -> int
    decreases 800 - frame_rate,
    when frame_rate > 0
{
    if frame_rate >= 400 {
        0
    } else {
        1 + period_of(2 * frame_rate)
    }
}

/// The table-of-contents byte for one frame.
pub open spec fn toc_byte(mode: int, frame_rate: int, bandwidth: int, channels: int) -> u8 {
    let period = period_of(frame_rate);
    let stereo = if channels == 2 {
        4u8
    } else {
        0u8
    };
    if mode == MODE_SILK_ONLY {
        (((bandwidth - OPUS_BANDWIDTH_NARROWBAND) * 32) % 256) as u8 | (((period - 2) * 8) % 256) as u8
            | stereo
    } else if mode == MODE_CELT_ONLY {
        let above = if bandwidth < OPUS_BANDWIDTH_MEDIUMBAND {
            0
        } else {
            bandwidth - OPUS_BANDWIDTH_MEDIUMBAND
        };
        128u8 | ((above * 32) % 256) as u8 | ((period * 8) % 256) as u8 | stereo
    } else {
        96u8 | (((bandwidth - OPUS_BANDWIDTH_SUPERWIDEBAND) * 16) % 256) as u8 | (((period - 2) * 8)
            % 256) as u8 | stereo
    }
}

/// The low eight bits.
fn low_byte(x: i64) -> (r: u8)
    requires
        -0x100_0000_0000 <= x <= 0x100_0000_0000,
    ensures
        r == x as int % 256,
{
    ((x + 0x100_0000_0000) % 256) as u8
}

/// The table-of-contents byte for a frame of the given mode, frame rate, bandwidth and
/// number of channels.
pub fn gen_toc(mode: i32, framerate: i32, bandwidth: i32, channels: i32) -> (r: u8)
    requires
        framerate >= 1,
    ensures
        r == toc_byte(mode as int, framerate as int, bandwidth as int, channels as int),
{
    let mut period: i64 = 0;
    let mut rate: i32 = framerate;
    while rate < 400
        invariant
            rate >= 1,
            0 <= period <= 400,
            period + period_of(rate as int) == period_of(framerate as int),
            rate >= period + 1,
        decreases 800 - rate,
    {
        rate = rate * 2;
        period = period + 1;
    }
    let stereo: u8 = if channels == 2 { 4 } else { 0 };
    let wide: i64 = bandwidth as i64;
    if mode == MODE_SILK_ONLY {
        low_byte((wide - OPUS_BANDWIDTH_NARROWBAND as i64) * 32) | low_byte((period - 2) * 8) | stereo
    } else if mode == MODE_CELT_ONLY {
        let above: i64 = if bandwidth < OPUS_BANDWIDTH_MEDIUMBAND {
            0
        } else {
            wide - OPUS_BANDWIDTH_MEDIUMBAND as i64
        };
        128u8 | low_byte(above * 32) | low_byte(period * 8) | stereo
    } else {
        96u8 | low_byte((wide - OPUS_BANDWIDTH_SUPERWIDEBAND as i64) * 16) | low_byte((period - 2) * 8)
            | stereo
    }
}

/// Whether a mode can code frames of the given rate and bandwidth in one packet frame.
pub open spec fn codable(mode: int, frame_rate: int, bandwidth: int) -> bool {
    ||| mode == MODE_SILK_ONLY && (frame_rate == 100 || frame_rate == 50 || frame_rate == 25
        || frame_rate == 16) && OPUS_BANDWIDTH_NARROWBAND <= bandwidth <= OPUS_BANDWIDTH_WIDEBAND
    ||| mode == MODE_HYBRID && (frame_rate == 100 || frame_rate == 50) && (bandwidth
        == OPUS_BANDWIDTH_SUPERWIDEBAND || bandwidth == OPUS_BANDWIDTH_FULLBAND)
    ||| mode == MODE_CELT_ONLY && (frame_rate == 400 || frame_rate == 200 || frame_rate == 100
        || frame_rate == 50) && OPUS_BANDWIDTH_NARROWBAND <= bandwidth <= OPUS_BANDWIDTH_FULLBAND
}

/// The table-of-contents byte of a frame announces one frame of its duration: what a
/// reader takes from it is what the writer put in.
pub proof fn toc_tells_duration(mode: int, frame_rate: int, bandwidth: int, channels: int)
    requires
        codable(mode, frame_rate, bandwidth),
        channels == 1 || channels == 2,
    ensures
        samples_per_frame(toc_byte(mode, frame_rate, bandwidth, channels), 48000) == if frame_rate == 16 {
            2880
        } else {
            48000int / frame_rate
        },
        nb_frames_of(seq![toc_byte(mode, frame_rate, bandwidth, channels)]) == Ok::<i32, i32>(1),
{
    reveal_with_fuel(period_of, 7);
    let toc = toc_byte(mode, frame_rate, bandwidth, channels);
    let period = period_of(frame_rate);
    let s: u8 = if channels == 2 {
        4
    } else {
        0
    };
    if mode == MODE_SILK_ONLY {
        let b: u8 = ((bandwidth - OPUS_BANDWIDTH_NARROWBAND) * 32) as u8;
        let p: u8 = ((period - 2) * 8) as u8;
        assert((b | p | s) == b + p + s) by (bit_vector)
            requires
                b == 0 || b == 32 || b == 64,
                p == 0 || p == 8 || p == 16 || p == 24,
                s == 0 || s == 4,
        ;
    } else if mode == MODE_CELT_ONLY {
        let above = if bandwidth < OPUS_BANDWIDTH_MEDIUMBAND {
            0
        } else {
            bandwidth - OPUS_BANDWIDTH_MEDIUMBAND
        };
        let b: u8 = (above * 32) as u8;
        let p: u8 = (period * 8) as u8;
        assert((128u8 | b | p | s) == 128 + b + p + s) by (bit_vector)
            requires
                b == 0 || b == 32 || b == 64 || b == 96,
                p == 0 || p == 8 || p == 16 || p == 24,
                s == 0 || s == 4,
        ;
    } else {
        let b: u8 = ((bandwidth - OPUS_BANDWIDTH_SUPERWIDEBAND) * 16) as u8;
        let p: u8 = ((period - 2) * 8) as u8;
        assert((96u8 | b | p | s) == 96 + b + p + s) by (bit_vector)
            requires
                b == 0 || b == 16,
                p == 0 || p == 8,
                s == 0 || s == 4,
        ;
    }
}

// ---------------------------------------------------------------------------
// Frame sizes
// ---------------------------------------------------------------------------

/// Whether frames of `n` samples can be coded: 2.5, 5, 10, 20, 40, 60, 80, 100 or
/// 120 ms.
pub open spec fn codable_size(n: int, fs: int) -> bool {
    ||| 400 * n == fs
    ||| 200 * n == fs
    ||| 100 * n == fs
    ||| 50 * n == fs
    ||| 25 * n == fs
    ||| 50 * n == 3 * fs
    ||| 50 * n == 4 * fs
    ||| 50 * n == 5 * fs
    ||| 50 * n == 6 * fs
}

/// The frame size that a duration setting asks for, out of `frame_size` samples.
pub open spec fn wanted_size(frame_size: int, duration: int, fs: int) -> Option<int> {
    if duration == OPUS_FRAMESIZE_ARG {
        Some(frame_size)
    } else if duration < OPUS_FRAMESIZE_2_5_MS || duration > OPUS_FRAMESIZE_120_MS {
        None
    } else if duration == OPUS_FRAMESIZE_2_5_MS {
        Some(tdiv(fs, 400))
    } else if duration == OPUS_FRAMESIZE_2_5_MS + 1 {
        Some(tdiv(fs, 400) * 2)
    } else if duration == OPUS_FRAMESIZE_2_5_MS + 2 {
        Some(tdiv(fs, 400) * 4)
    } else if duration == OPUS_FRAMESIZE_2_5_MS + 3 {
        Some(tdiv(fs, 400) * 8)
    } else if duration == OPUS_FRAMESIZE_40_MS {
        Some(tdiv(fs, 400) * 16)
    } else {
        Some(tdiv((duration - OPUS_FRAMESIZE_2_5_MS - 2) * fs, 50))
    }
}

/// The frame size to code out of `frame_size` samples, -1 where there is none.
pub open spec fn selected_size(frame_size: int, duration: int, fs: int) -> int {
    match wanted_size(frame_size, duration, fs) {
        Some(n) => if frame_size < tdiv(fs, 400) || n > frame_size || !codable_size(n, fs) {
            -1
        } else {
            n
        },
        None => -1,
    }
}

/// Selects the frame size to code out of `frame_size` samples by the duration setting.
/// Returns -1 where there is none.
pub fn frame_size_select(frame_size: i32, variable_duration: i32, fs: i32) -> (r: i32)
    ensures
        r == selected_size(frame_size as int, variable_duration as int, fs as int),
{
    if frame_size < fs / 400 {
        return -1;
    }
    let rate: i64 = fs as i64;
    let n: i64 = if variable_duration == OPUS_FRAMESIZE_ARG {
        frame_size as i64
    } else if variable_duration < OPUS_FRAMESIZE_2_5_MS || variable_duration > OPUS_FRAMESIZE_120_MS {
        return -1;
    } else if variable_duration == OPUS_FRAMESIZE_2_5_MS {
        rate / 400
    } else if variable_duration == OPUS_FRAMESIZE_2_5_MS + 1 {
        rate / 400 * 2
    } else if variable_duration == OPUS_FRAMESIZE_2_5_MS + 2 {
        rate / 400 * 4
    } else if variable_duration == OPUS_FRAMESIZE_2_5_MS + 3 {
        rate / 400 * 8
    } else if variable_duration == OPUS_FRAMESIZE_40_MS {
        rate / 400 * 16
    } else {
        let k: i64 = (variable_duration - OPUS_FRAMESIZE_2_5_MS - 2) as i64;
        proof {
            assert(-8 * 0x8000_0000 <= k * rate <= 8 * 0x8000_0000) by (nonlinear_arith)
                requires
                    0 <= k <= 8,
                    -0x8000_0000 <= rate <= 0x7fff_ffff,
            ;
        }
        k * rate / 50
    };
    if n > frame_size as i64 {
        return -1;
    }
    if 400 * n == rate || 200 * n == rate || 100 * n == rate || 50 * n == rate || 25 * n == rate || 50 * n
        == 3 * rate || 50 * n == 4 * rate || 50 * n == 5 * rate || 50 * n == 6 * rate {
        n as i32
    } else {
        -1
    }
}

// ---------------------------------------------------------------------------
// Bits and bitrates
// ---------------------------------------------------------------------------

/// The bitrate of frames of `bits` bits.
pub open spec fn bitrate_of(bits: int, fs: int, frame_size: int) -> int {
    tdiv(bits * (6 * fs / frame_size), 6)
}

/// The bits of a frame at a bitrate.
pub open spec fn bits_of(bitrate: int, fs: int, frame_size: int) -> int {
    tdiv(bitrate * 6, 6 * fs / frame_size)
}

/// Sampling rate and frame size between which rates can be computed: at most six frames
/// per sample.
pub open spec fn rate_domain(fs: int, frame_size: int) -> bool {
    &&& 1 <= frame_size
    &&& frame_size <= 6 * fs
    &&& fs <= 715_827_882
}

/// A bitrate comes back from the bits of a frame, less than a bit a frame too low.
pub proof fn bitrates_come_back(bitrate: int, fs: int, frame_size: int)
    requires
        rate_domain(fs, frame_size),
        0 <= bitrate,
    ensures
        ({
            let back = bitrate_of(bits_of(bitrate, fs, frame_size), fs, frame_size);
            &&& 0 <= back <= bitrate
            &&& 6 * (bitrate - back) < 6 * fs / frame_size + 6
        }),
{
    let q = 6 * fs / frame_size;
    assert(q >= 1) by (nonlinear_arith)
        requires
            q == 6 * fs / frame_size,
            1 <= frame_size <= 6 * fs,
    ;
    let bits = bits_of(bitrate, fs, frame_size);
    assert(bits >= 0 && bits * q <= bitrate * 6 && bitrate * 6 < bits * q + q) by (nonlinear_arith)
        requires
            bits == bitrate * 6 / q,
            q >= 1,
            bitrate >= 0,
    ;
    assert(bits * q >= 0) by (nonlinear_arith)
        requires
            bits >= 0,
            q >= 1,
    ;
}

/// The bitrate of frames of `bits` bits.
pub fn bits_to_bitrate(bits: i32, fs: i32, frame_size: i32) -> (r: i32)
    requires
        rate_domain(fs as int, frame_size as int),
    ensures
        r == bitrate_of(bits as int, fs as int, frame_size as int) as i32,
{
    let rate: i64 = 6 * fs as i64 / frame_size as i64;
    proof {
        let f = 6 * fs as int;
        let n = frame_size as int;
        assert(0 <= f / n <= f) by (nonlinear_arith)
            requires
                f >= 0,
                n >= 1,
        ;
        assert(-0x7fff_ffff_ffff_ffff <= bits * rate <= 0x7fff_ffff_ffff_ffff) by (nonlinear_arith)
            requires
                -0x8000_0000 <= bits <= 0x7fff_ffff,
                0 <= rate <= 4_294_967_292,
        ;
    }
    (bits as i64 * rate / 6) as i32
}

/// The bits of a frame at a bitrate.
pub fn bitrate_to_bits(bitrate: i32, fs: i32, frame_size: i32) -> (r: i32)
    requires
        rate_domain(fs as int, frame_size as int),
    ensures
        r == bits_of(bitrate as int, fs as int, frame_size as int) as i32,
{
    let rate: i64 = 6 * fs as i64 / frame_size as i64;
    proof {
        let f = 6 * fs as int;
        let n = frame_size as int;
        assert(1 <= f / n) by (nonlinear_arith)
            requires
                f >= n,
                n >= 1,
        ;
    }
    (bitrate as i64 * 6 / rate) as i32
}

/// The bitrate that a setting stands for.
pub open spec fn requested_bitrate(setting: int, channels: int, fs: int, frame_size: int) -> int {
    if setting == OPUS_AUTO {
        60 * fs / frame_size + fs * channels
    } else if setting == OPUS_BITRATE_MAX {
        1500000
    } else {
        setting
    }
}

/// The bitrate that a setting stands for, as far as it fits in packets of
/// `max_data_bytes` bytes. Without a frame size, frames of 2.5 ms are meant.
pub open spec fn effective_bitrate(
    setting: int,
    channels: int,
    fs: int,
    frame_size: int,
    max_data_bytes: int,
) -> int {
    let n = if frame_size == 0 {
        fs / 400
    } else {
        frame_size
    };
    min_int(requested_bitrate(setting, channels, fs, n), bitrate_of(max_data_bytes * 8, fs, n))
}

/// Sampling rates of the codec.
pub open spec fn valid_fs(fs: int) -> bool {
    fs == 8000 || fs == 12000 || fs == 16000 || fs == 24000 || fs == 48000
}

/// The bitrate that a setting stands for, as far as it fits in packets of
/// `max_data_bytes` bytes.
pub fn user_bitrate_to_bitrate(
    user_bitrate_bps: i32,
    channels: i32,
    fs: i32,
    frame_size: i32,
    max_data_bytes: i32,
) -> (r: i32)
    requires
        valid_fs(fs as int),
        1 <= channels <= 2,
        0 <= frame_size <= 6 * fs,
        frame_size == 0 || fs <= 400 * frame_size,
        -1276 * 6 <= max_data_bytes <= 1276 * 6,
    ensures
        r == effective_bitrate(
            user_bitrate_bps as int,
            channels as int,
            fs as int,
            frame_size as int,
            max_data_bytes as int,
        ),
{
    let n: i32 = if frame_size == 0 { fs / 400 } else { frame_size };
    proof {
        lemma_bitrate_bounds(max_data_bytes * 8, fs as int, n as int, 61248);
        assert(0 <= 60 * fs / n as int <= 60 * fs) by (nonlinear_arith)
            requires
                fs >= 0,
                n >= 1,
        ;
        assert(fs * channels <= 96000) by (nonlinear_arith)
            requires
                fs <= 48000,
                1 <= channels <= 2,
        ;
        assert(fs * channels >= 0) by (nonlinear_arith)
            requires
                fs >= 0,
                1 <= channels <= 2,
        ;
    }
    let most: i32 = bits_to_bitrate(max_data_bytes * 8, fs, n);
    let wanted: i32 = if user_bitrate_bps == OPUS_AUTO {
        60 * fs / n + fs * channels
    } else if user_bitrate_bps == OPUS_BITRATE_MAX {
        1500000
    } else {
        user_bitrate_bps
    };
    imin(wanted, most)
}

/// A frame of at most `most` bits that takes at least 2.5 ms gives at most 400 times as
/// many bits per second.
pub proof fn lemma_bitrate_bounds(bits: int, fs: int, frame_size: int, most: int)
    requires
        -most <= bits <= most,
        0 <= fs <= 400 * frame_size,
        1 <= frame_size,
    ensures
        -(400 * most) <= bitrate_of(bits, fs, frame_size) <= 400 * most,
        bits >= 0 ==> bitrate_of(bits, fs, frame_size) >= 0,
{
    let f = 6 * fs / frame_size;
    assert(0 <= f <= 2400) by (nonlinear_arith)
        requires
            0 <= fs <= 400 * frame_size,
            frame_size >= 1,
            f == 6 * fs / frame_size,
    ;
    assert(-(most * 2400) <= bits * f <= most * 2400) by (nonlinear_arith)
        requires
            -most <= bits <= most,
            0 <= f <= 2400,
    ;
    assert(bits >= 0 ==> bits * f >= 0) by (nonlinear_arith)
        requires
            0 <= f,
    ;
}

// ---------------------------------------------------------------------------
// Decisions
// ---------------------------------------------------------------------------

/// The bitrate that frames of 20 ms in variable bitrate at full complexity would need for
/// the same quality.
pub open spec fn equiv_rate_of(
    bitrate: int,
    channels: int,
    frame_rate: int,
    vbr: int,
    mode: int,
    complexity: int,
    loss: int,
) -> int {
    // Overhead of more than 50 frames per second.
    let a = if frame_rate > 50 {
        bitrate - (40 * channels + 20) * (frame_rate - 50)
    } else {
        bitrate
    };
    // Constant bitrate costs a twelfth.
    let b = if vbr == 0 {
        a - tdiv(a, 12)
    } else {
        a
    };
    let c = tdiv(b * (90 + complexity), 100);
    if mode == MODE_SILK_ONLY || mode == MODE_HYBRID {
        let d = if complexity < 2 {
            tdiv(c * 4, 5)
        } else {
            c
        };
        d - tdiv(d * loss, 6 * loss + 10)
    } else if mode == MODE_CELT_ONLY {
        if complexity < 5 {
            tdiv(c * 9, 10)
        } else {
            c
        }
    } else {
        c - tdiv(c * loss, 12 * loss + 20)
    }
}

/// The bitrate that frames of 20 ms in variable bitrate at full complexity would need for
/// the same quality.
pub fn compute_equiv_rate(
    bitrate: i32,
    channels: i32,
    frame_rate: i32,
    vbr: i32,
    mode: i32,
    complexity: i32,
    loss: i32,
) -> (r: i32)
    requires
        -20_000_000 <= bitrate <= 20_000_000,
        1 <= channels <= 2,
        0 <= frame_rate <= 400,
        0 <= complexity <= 10,
        0 <= loss <= 100,
    ensures
        r == equiv_rate_of(
            bitrate as int,
            channels as int,
            frame_rate as int,
            vbr as int,
            mode as int,
            complexity as int,
            loss as int,
        ),
        -22_000_000 <= r <= 22_000_000,
{
    let mut rate: i64 = bitrate as i64;
    if frame_rate > 50 {
        let ch: i64 = channels as i64;
        let over: i64 = (frame_rate - 50) as i64;
        proof {
            assert(0 <= (40 * ch + 20) * over <= 100 * 350) by (nonlinear_arith)
                requires
                    1 <= ch <= 2,
                    0 <= over <= 350,
            ;
        }
        rate = rate - (40 * ch + 20) * over;
    }
    if vbr == 0 {
        rate = rate - rate / 12;
    }
    let weight: i64 = 90 + complexity as i64;
    proof {
        assert(-22_000_000 * 100 <= rate * weight <= 22_000_000 * 100) by (nonlinear_arith)
            requires
                -22_000_000 <= rate <= 22_000_000,
                90 <= weight <= 100,
        ;
    }
    rate = rate * weight / 100;
    let lost: i64 = loss as i64;
    if mode == MODE_SILK_ONLY || mode == MODE_HYBRID {
        if complexity < 2 {
            rate = rate * 4 / 5;
        }
        proof {
            lemma_loss_share(rate as int, lost as int, 6 * lost + 10);
        }
        rate = rate - rate * lost / (6 * lost + 10);
    } else if mode == MODE_CELT_ONLY {
        if complexity < 5 {
            rate = rate * 9 / 10;
        }
    } else {
        proof {
            lemma_loss_share(rate as int, lost as int, 12 * lost + 20);
        }
        rate = rate - rate * lost / (12 * lost + 20);
    }
    rate as i32
}

/// The share of a rate that loss costs is no more than the rate.
proof fn lemma_loss_share(rate: int, loss: int, d: int)
    requires
        -22_000_000 <= rate <= 22_000_000,
        0 <= loss <= 100,
        d >= loss,
        d >= 10,
    ensures
        -22_000_000 * 100 <= rate * loss <= 22_000_000 * 100,
        rate >= 0 ==> 0 <= tdiv(rate * loss, d) <= rate,
        rate < 0 ==> rate <= tdiv(rate * loss, d) <= 0,
{
    let x = if rate >= 0 {
        rate
    } else {
        -rate
    };
    assert(0 <= x * loss <= 22_000_000 * 100) by (nonlinear_arith)
        requires
            0 <= x <= 22_000_000,
            0 <= loss <= 100,
    ;
    assert(0 <= (x * loss) / d <= x) by (nonlinear_arith)
        requires
            0 <= x,
            0 <= loss <= d,
            d >= 10,
    ;
    assert(rate < 0 ==> rate * loss == -(x * loss)) by (nonlinear_arith)
        requires
            rate < 0 ==> x == -rate,
    ;
}

/// The value at `x` on the line through two points, rounded toward zero.
#[verifier::inline]
pub open spec fn line(x0: int, y0: int, x1: int, y1: int, x: int) -> int {
    tdiv(y0 * (x1 - x) + y1 * (x - x0), x1 - x0)
}

/// The rate of the low band for one channel without error correction: interpolated
/// between known points, and half of what goes beyond the last of them.
pub open spec fn low_band_plain(rate: int) -> int {
    if rate < 12000 {
        line(0, 0, 12000, 10000, rate)
    } else if rate < 16000 {
        line(12000, 10000, 16000, 13500, rate)
    } else if rate < 20000 {
        line(16000, 13500, 20000, 16000, rate)
    } else if rate < 24000 {
        line(20000, 16000, 24000, 18000, rate)
    } else if rate < 32000 {
        line(24000, 18000, 32000, 22000, rate)
    } else if rate < 64000 {
        line(32000, 22000, 64000, 38000, rate)
    } else {
        38000 + tdiv(rate - 64000, 2)
    }
}

/// The rate of the low band for one channel with error correction.
pub open spec fn low_band_fec(rate: int) -> int {
    if rate < 12000 {
        line(0, 0, 12000, 11000, rate)
    } else if rate < 16000 {
        line(12000, 11000, 16000, 15000, rate)
    } else if rate < 20000 {
        line(16000, 15000, 20000, 18000, rate)
    } else if rate < 24000 {
        line(20000, 18000, 24000, 21000, rate)
    } else if rate < 32000 {
        line(24000, 21000, 32000, 28000, rate)
    } else if rate < 64000 {
        line(32000, 28000, 64000, 50000, rate)
    } else {
        50000 + tdiv(rate - 64000, 2)
    }
}

/// The rate of the low band for one channel.
pub open spec fn low_band_rate(rate: int, fec: bool) -> int {
    if fec {
        low_band_fec(rate)
    } else {
        low_band_plain(rate)
    }
}

/// The bitrate of the speech coder in hybrid mode.
pub open spec fn silk_rate_of(rate: int, bandwidth: int, vbr: int, fec: int, channels: int) -> int {
    let each = tdiv(rate, channels);
    let low = low_band_rate(each, fec != 0) + (if vbr == 0 {
        100int
    } else {
        0
    }) + (if bandwidth == OPUS_BANDWIDTH_SUPERWIDEBAND {
        300int
    } else {
        0
    });
    low * channels - if channels == 2 && each >= 12000 {
        1000int
    } else {
        0
    }
}

/// The value at `x` on the line through two points.
fn on_line(x0: i64, y0: i64, x1: i64, y1: i64, x: i64) -> (r: i64)
    requires
        0 <= x0 < x1 <= 64000,
        0 <= y0 <= 50000,
        0 <= y1 <= 50000,
        -0x8000_0000 <= x <= 0x8000_0000,
    ensures
        r == line(x0 as int, y0 as int, x1 as int, y1 as int, x as int),
{
    proof {
        lemma_product_bound(y0 as int, x1 - x);
        lemma_product_bound(y1 as int, x - x0);
    }
    (y0 * (x1 - x) + y1 * (x - x0)) / (x1 - x0)
}

/// The rate of the low band for one channel.
fn low_band(rate: i64, fec: bool) -> (r: i64)
    requires
        -0x8000_0000 <= rate <= 0x8000_0000,
    ensures
        r == low_band_rate(rate as int, fec),
{
    if fec {
        if rate < 12000 {
            on_line(0, 0, 12000, 11000, rate)
        } else if rate < 16000 {
            on_line(12000, 11000, 16000, 15000, rate)
        } else if rate < 20000 {
            on_line(16000, 15000, 20000, 18000, rate)
        } else if rate < 24000 {
            on_line(20000, 18000, 24000, 21000, rate)
        } else if rate < 32000 {
            on_line(24000, 21000, 32000, 28000, rate)
        } else if rate < 64000 {
            on_line(32000, 28000, 64000, 50000, rate)
        } else {
            50000 + (rate - 64000) / 2
        }
    } else {
        if rate < 12000 {
            on_line(0, 0, 12000, 10000, rate)
        } else if rate < 16000 {
            on_line(12000, 10000, 16000, 13500, rate)
        } else if rate < 20000 {
            on_line(16000, 13500, 20000, 16000, rate)
        } else if rate < 24000 {
            on_line(20000, 16000, 24000, 18000, rate)
        } else if rate < 32000 {
            on_line(24000, 18000, 32000, 22000, rate)
        } else if rate < 64000 {
            on_line(32000, 22000, 64000, 38000, rate)
        } else {
            38000 + (rate - 64000) / 2
        }
    }
}

/// The bitrate of the speech coder in hybrid mode, out of the whole bitrate. Frames of
/// 10 and of 20 ms share it alike.
pub fn compute_silk_rate_for_hybrid(
    rate: i32,
    bandwidth: i32,
    frame20ms: bool,
    vbr: i32,
    fec: i32,
    channels: i32,
) -> (r: i32)
    requires
        channels == 1 || channels == 2,
    ensures
        r == silk_rate_of(rate as int, bandwidth as int, vbr as int, fec as int, channels as int),
{
    let each: i64 = rate as i64 / channels as i64;
    let mut low: i64 = low_band(each, fec != 0);
    proof {
        lemma_low_band_bound(each as int, fec != 0);
    }
    if vbr == 0 {
        low = low + 100;
    }
    if bandwidth == OPUS_BANDWIDTH_SUPERWIDEBAND {
        low = low + 300;
    }
    low = low * channels as i64;
    if channels == 2 && each >= 12000 {
        low = low - 1000;
    }
    low as i32
}

proof fn lemma_product_bound(a: int, b: int)
    requires
        0 <= a <= 50000,
        -0x1_0000_0000 <= b <= 0x1_0000_0000,
    ensures
        -50000 * 0x1_0000_0000 <= a * b <= 50000 * 0x1_0000_0000,
{
    assert(-50000 * 0x1_0000_0000 <= a * b <= 50000 * 0x1_0000_0000) by (nonlinear_arith)
        requires
            0 <= a <= 50000,
            -0x1_0000_0000 <= b <= 0x1_0000_0000,
    ;
}

/// The low band never takes more than there is, beyond what the rounding of a negative
/// rate gives.
pub proof fn lemma_low_band_bound(rate: int, fec: bool)
    ensures
        0 <= rate ==> 0 <= low_band_rate(rate, fec) <= rate,
        rate < 0 ==> rate <= low_band_rate(rate, fec) <= 0,
{
}

/// The bitrate at which error correction pays, without regard to loss, and the margin
/// that keeps the decision from flapping.
pub open spec fn fec_threshold(bandwidth: int) -> int {
    if bandwidth == OPUS_BANDWIDTH_NARROWBAND {
        12000
    } else if bandwidth == OPUS_BANDWIDTH_MEDIUMBAND {
        14000
    } else if bandwidth == OPUS_BANDWIDTH_WIDEBAND {
        16000
    } else if bandwidth == OPUS_BANDWIDTH_SUPERWIDEBAND {
        20000
    } else {
        22000
    }
}

/// Whether a bitrate is enough for error correction at a bandwidth. More loss makes less
/// do, and so does error correction that is on already.
pub open spec fn fec_pays(last_fec: int, loss: int, bandwidth: int, rate: int) -> bool {
    let base = fec_threshold(bandwidth) + if last_fec == 1 {
        -1000int
    } else {
        1000
    };
    rate > smulwb(base * (125 - min_int(loss, 25)), 655)
}

/// The widest bandwidth, from `bandwidth` down, at which error correction pays. Only loss
/// above 5 % is worth a narrower band.
pub open spec fn fec_bandwidth(last_fec: int, loss: int, bandwidth: int, rate: int) -> Option<int>
    decreases bandwidth,
{
    if bandwidth < OPUS_BANDWIDTH_NARROWBAND || bandwidth > OPUS_BANDWIDTH_FULLBAND {
        None
    } else if fec_pays(last_fec, loss, bandwidth, rate) {
        Some(bandwidth)
    } else if loss <= 5 {
        None
    } else {
        fec_bandwidth(last_fec, loss, bandwidth - 1, rate)
    }
}

/// Decides on error correction. It can make the bandwidth narrower.
pub fn decide_fec(
    use_in_band_fec: i32,
    packet_loss_perc: i32,
    last_fec: i32,
    mode: i32,
    bandwidth: &mut i32,
    rate: i32,
) -> (r: i32)
    requires
        0 <= packet_loss_perc <= 100,
    ensures
        if use_in_band_fec == 0 || packet_loss_perc == 0 || mode == MODE_CELT_ONLY {
            r == 0 && *final(bandwidth) == *old(bandwidth)
        } else {
            match fec_bandwidth(
                last_fec as int,
                packet_loss_perc as int,
                *old(bandwidth) as int,
                rate as int,
            ) {
                Some(b) => r == 1 && *final(bandwidth) == b,
                None => r == 0 && *final(bandwidth) == *old(bandwidth),
            }
        },
{
    if use_in_band_fec == 0 || packet_loss_perc == 0 || mode == MODE_CELT_ONLY {
        return 0;
    }
    let start: i32 = *bandwidth;
    let ghost goal = fec_bandwidth(
        last_fec as int,
        packet_loss_perc as int,
        start as int,
        rate as int,
    );
    let mut at: i32 = start;
    while OPUS_BANDWIDTH_NARROWBAND <= at && at <= OPUS_BANDWIDTH_FULLBAND
        invariant
            0 <= packet_loss_perc <= 100,
            *bandwidth == start,
            at <= start,
            goal == fec_bandwidth(
                last_fec as int,
                packet_loss_perc as int,
                at as int,
                rate as int,
            ),
            use_in_band_fec != 0,
            packet_loss_perc != 0,
            mode != MODE_CELT_ONLY,
            start == *old(bandwidth),
            goal == fec_bandwidth(
                last_fec as int,
                packet_loss_perc as int,
                *old(bandwidth) as int,
                rate as int,
            ),
        decreases at - OPUS_BANDWIDTH_NARROWBAND + 1,
    {
        let plain: i32 = if at == OPUS_BANDWIDTH_NARROWBAND {
            12000
        } else if at == OPUS_BANDWIDTH_MEDIUMBAND {
            14000
        } else if at == OPUS_BANDWIDTH_WIDEBAND {
            16000
        } else if at == OPUS_BANDWIDTH_SUPERWIDEBAND {
            20000
        } else {
            22000
        };
        let base: i32 = if last_fec == 1 { plain - 1000 } else { plain + 1000 };
        let factor: i32 = 125 - imin(packet_loss_perc, 25);
        proof {
            assert(0 <= base * factor <= 23000 * 125) by (nonlinear_arith)
                requires
                    0 <= base <= 23000,
                    0 <= factor <= 125,
            ;
        }
        let threshold: i32 = silk_smulwb(base * factor, 655);
        if rate > threshold {
            *bandwidth = at;
            return 1;
        }
        if packet_loss_perc <= 5 {
            return 0;
        }
        at = at - 1;
    }
    0
}

/// Bytes of a redundant frame: one and a half times its share of the bitrate, no more
/// than its share of the packet, and none where that is not worth while.
pub open spec fn redundancy_bytes_of(
    max_data_bytes: int,
    bitrate: int,
    frame_rate: int,
    channels: int,
) -> int {
    let base = 40 * channels + 20;
    let wanted = tdiv(tdiv(3 * (bitrate + base * (200 - frame_rate)), 2), 1600);
    let available = max_data_bytes * 8 - 2 * base;
    let most = tdiv(tdiv(available * 240, 240 + 48000int / frame_rate) + base, 8);
    let bytes = min_int(wanted, most);
    if bytes > 4 + 8 * channels {
        min_int(257, bytes)
    } else {
        0
    }
}

/// Bytes of a redundant frame.
pub fn compute_redundancy_bytes(
    max_data_bytes: i32,
    bitrate_bps: i32,
    frame_rate: i32,
    channels: i32,
) -> (r: i32)
    requires
        -1_000_000 <= max_data_bytes <= 1_000_000,
        -700_000_000 <= bitrate_bps <= 700_000_000,
        1 <= frame_rate <= 48000,
        1 <= channels <= 2,
    ensures
        r == redundancy_bytes_of(
            max_data_bytes as int,
            bitrate_bps as int,
            frame_rate as int,
            channels as int,
        ),
        r == 0 || 13 <= r <= 257,
{
    let base: i64 = 40 * channels as i64 + 20;
    let gap: i64 = 200 - frame_rate as i64;
    proof {
        assert(-100 * 48000 <= base * gap <= 100 * 48000) by (nonlinear_arith)
            requires
                60 <= base <= 100,
                -48000 <= gap <= 200,
        ;
    }
    let wanted: i64 = 3 * (bitrate_bps as i64 + base * gap) / 2 / 1600;
    let available: i64 = max_data_bytes as i64 * 8 - 2 * base;
    let per_frame: i64 = 48000 / frame_rate as i64;
    proof {
        let a = available * 240;
        let d = 240 + per_frame;
        assert(d >= 240) by {
            assert(48000int / frame_rate as int >= 0) by (nonlinear_arith)
                requires
                    frame_rate >= 1,
            ;
        }
        assert(-0x1_0000_0000 <= tdiv(a, d) <= 0x1_0000_0000) by {
            assert(a >= 0 ==> 0 <= a / d <= a) by (nonlinear_arith)
                requires
                    d >= 1,
            ;
            assert(a < 0 ==> 0 <= (-a) / d <= -a) by (nonlinear_arith)
                requires
                    d >= 1,
            ;
        }
    }
    let most: i64 = (available * 240 / (240 + per_frame) + base) / 8;
    let bytes: i64 = if wanted < most { wanted } else { most };
    if bytes > 4 + 8 * channels as i64 {
        if bytes < 257 {
            bytes as i32
        } else {
            257
        }
    } else {
        0
    }
}

/// Half milliseconds without activity before transmission stops.
pub open spec fn dtx_start() -> int {
    NB_SPEECH_FRAMES_BEFORE_DTX * 20 * 2
}

/// Half milliseconds without activity until a frame must be sent again.
pub open spec fn dtx_end() -> int {
    (NB_SPEECH_FRAMES_BEFORE_DTX + MAX_CONSECUTIVE_DTX) * 20 * 2
}

/// Half milliseconds without activity, with this frame.
pub open spec fn inactive_for(activity: int, before: int, frame: int) -> int {
    if activity == 0 {
        before + frame
    } else {
        0
    }
}

/// Decides whether this frame need not be sent, and keeps count of the half milliseconds
/// without activity.
pub fn decide_dtx_mode(activity: i32, nb_no_activity_ms_q1: &mut i32, frame_size_ms_q1: i32) -> (r:
    bool)
    requires
        i32::MIN <= *old(nb_no_activity_ms_q1) + frame_size_ms_q1 <= i32::MAX,
    ensures
        ({
            let n = inactive_for(
                activity as int,
                *old(nb_no_activity_ms_q1) as int,
                frame_size_ms_q1 as int,
            );
            &&& r == (dtx_start() < n <= dtx_end())
            &&& *final(nb_no_activity_ms_q1) == if n > dtx_end() {
                dtx_start()
            } else {
                n
            }
        }),
{
    if activity == 0 {
        *nb_no_activity_ms_q1 = *nb_no_activity_ms_q1 + frame_size_ms_q1;
    } else {
        *nb_no_activity_ms_q1 = 0;
    }
    let start: i32 = NB_SPEECH_FRAMES_BEFORE_DTX * 20 * 2;
    let end: i32 = (NB_SPEECH_FRAMES_BEFORE_DTX + MAX_CONSECUTIVE_DTX) * 20 * 2;
    if *nb_no_activity_ms_q1 > start && *nb_no_activity_ms_q1 <= end {
        true
    } else {
        if *nb_no_activity_ms_q1 > end {
            *nb_no_activity_ms_q1 = start;
        }
        false
    }
}

/// Error correction never makes the bandwidth wider, and never leaves the codec's
/// bandwidths.
pub proof fn fec_narrows(last_fec: int, loss: int, bandwidth: int, rate: int)
    ensures
        fec_bandwidth(last_fec, loss, bandwidth, rate) matches Some(b) ==> OPUS_BANDWIDTH_NARROWBAND <= b
            <= bandwidth && fec_pays(last_fec, loss, b, rate),
    decreases bandwidth,
{
    if OPUS_BANDWIDTH_NARROWBAND <= bandwidth <= OPUS_BANDWIDTH_FULLBAND && loss > 5 && !fec_pays(
        last_fec,
        loss,
        bandwidth,
        rate,
    ) {
        fec_narrows(last_fec, loss, bandwidth - 1, rate);
    }
}

} // verus!
