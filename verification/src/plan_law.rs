//! What holds of every packet that is planned.

use vstd::prelude::*;
use crate::arith::{max_int, min_int};
use crate::bare::{
    bare_packets_tell_duration, duration48, known_rate, lemma_no_items, lemma_toc_code, shape_of,
};
use crate::coders::AnalysisInfo;
use crate::encoder::{kept_bitrate, valid_bandwidth, valid_mode, OpusEncoder};
use crate::finish::Ending;
use crate::frame::FrameRun;
use crate::modes::{
    MODE_CELT_ONLY, MODE_HYBRID, MODE_SILK_ONLY, OPUS_AUTO, OPUS_BANDWIDTH_MEDIUMBAND,
    OPUS_BANDWIDTH_WIDEBAND, OPUS_BITRATE_MAX,
};
use crate::packet::{layout, lemma_layout, nb_frames_of, samples_per_frame};
use crate::padding::{padding_succeeds, repacked, repacking_keeps_frames};
use crate::plan::{
    frame_domain, is_plan, lemma_fec_bandwidth, lemma_frame_samples, lemma_paid_bandwidth,
    nyquist_bandwidth, ModeChoice, Plan, MAX_PACKET_BYTES,
};
use crate::rates::{bitrate_of, bits_of, codable, codable_size, valid_fs};
use crate::several::part_size;

verus! {

/// The bandwidth that is chosen is one of the five, and one that the mode can announce:
/// speech up to wideband, hybrid above it, music anything but mediumband.
pub proof fn bandwidth_suits_mode(e: OpusEncoder, c: ModeChoice, max_rate: int, lsb_depth: int)
    requires
        e.wf(),
        valid_mode(c.mode as int),
    ensures
        ({
            let after = e.with_bandwidth(c, max_rate, lsb_depth);
            &&& valid_bandwidth(after.bandwidth as int)
            &&& after.mode == MODE_SILK_ONLY ==> after.bandwidth <= OPUS_BANDWIDTH_WIDEBAND
            &&& after.mode == MODE_HYBRID ==> after.bandwidth > OPUS_BANDWIDTH_WIDEBAND
            &&& after.mode == MODE_CELT_ONLY ==> after.bandwidth != OPUS_BANDWIDTH_MEDIUMBAND
            &&& (after.mode == MODE_CELT_ONLY) == (c.mode == MODE_CELT_ONLY)
        }),
{
    lemma_chosen(e, c, max_rate);
}

/// The bandwidth that is chosen is not wider than the sampling rate carries, except that
/// music has wideband in place of mediumband.
pub proof fn bandwidth_within_sampling_rate(
    e: OpusEncoder,
    c: ModeChoice,
    max_rate: int,
    lsb_depth: int,
)
    requires
        e.wf(),
        valid_mode(c.mode as int),
    ensures
        ({
            let after = e.with_bandwidth(c, max_rate, lsb_depth);
            after.bandwidth <= nyquist_bandwidth(e.fs as int) || (after.mode == MODE_CELT_ONLY
                && after.bandwidth == OPUS_BANDWIDTH_WIDEBAND)
        }),
{
    lemma_chosen(e, c, max_rate);
}

/// Each step that leads to the bandwidth leads to one of the five, no wider than before.
pub proof fn lemma_chosen(e: OpusEncoder, c: ModeChoice, max_rate: int)
    requires
        e.wf(),
        valid_mode(c.mode as int),
    ensures
        ({
            let b = e.limited_bandwidth(c, max_rate);
            let b = if e.detected_bandwidth != 0 && e.user_bandwidth == OPUS_AUTO {
                min_int(b, e.believed_bandwidth(c))
            } else {
                b
            };
            let d = e.corrected_bandwidth(c, b).0;
            valid_bandwidth(d) && valid_bandwidth(b) && d <= b && b <= nyquist_bandwidth(
                e.fs as int,
            )
        }),
{
    lemma_paid_bandwidth(e, c.voice_est as int, c.equiv_rate as int);
    let b = e.limited_bandwidth(c, max_rate);
    assert(valid_bandwidth(b));
    let b2 = if e.detected_bandwidth != 0 && e.user_bandwidth == OPUS_AUTO {
        min_int(b, e.believed_bandwidth(c))
    } else {
        b
    };
    assert(valid_bandwidth(b2));
    lemma_fec_bandwidth(
        e.silk_mode.lbrr_coded as int,
        e.silk_mode.packet_loss_percentage as int,
        b2,
        c.equiv_rate as int,
    );
}

/// Frames below 10 ms are coded as music.
pub proof fn lemma_short_is_music(
    e: OpusEncoder,
    n: int,
    limit: int,
    width: int,
    quiet: bool,
    valid: bool,
)
    requires
        e.wf(),
        frame_domain(e.fs as int, n),
    ensures
        ({
            let c = e.with_mode(n, limit, width, quiet, valid).1;
            &&& valid_mode(c.mode as int)
            &&& n < e.fs / 100 ==> c.mode == MODE_CELT_ONLY
        }),
{
}

/// A frame that is planned can be announced: its mode codes frames of that length at that
/// bandwidth. Where it takes several, they are as long as the frame, and each can be
/// announced.
pub proof fn planned_frames_are_codable(
    e: OpusEncoder,
    n: int,
    limit: int,
    dred_bitrate: int,
    lsb_depth: int,
    quiet: bool,
    valid: bool,
)
    requires
        e.wf(),
        codable_size(n, e.fs as int),
    ensures
        ({
            let after = e.planned(n, limit, dred_bitrate, lsb_depth, quiet, valid).0;
            let fs = e.fs as int;
            let part = part_size(after.mode as int, fs, n);
            if after.needs_several(n) {
                &&& codable(after.mode as int, fs / part, after.bandwidth as int)
                &&& (n / part) * part == n
                &&& 2 <= n / part <= 6
            } else {
                codable(after.mode as int, fs / n, after.bandwidth as int)
            }
        }),
{
    let fs = e.fs as int;
    let width = e.stereo_width();
    let (a, c) = e.with_mode(n, limit, width, quiet, valid);
    let max_rate = crate::rates::bitrate_of(limit * 8, fs, n);
    lemma_short_is_music(e, n, limit, width, quiet, valid);
    assert(a.wf()) by {
        e.lemma_mode_wf(n, limit, width, quiet, valid);
    }
    bandwidth_suits_mode(a, c, max_rate, lsb_depth);
    let after = a.with_bandwidth(c, max_rate, lsb_depth);
    lemma_frame_rates(fs, n);
    if after.needs_several(n) {
        lemma_parts(after.mode as int, fs, n);
        lemma_frame_rates(fs, part_size(after.mode as int, fs, n));
    }
}

/// A multiple is divided without rest.
pub proof fn lemma_quotient(m: int, n: int, k: int)
    requires
        m == k * n,
        n > 0,
    ensures
        m / n == k,
{
    vstd::arithmetic::div_mod::lemma_div_multiples_vanish(k, n);
    assert(n * k == k * n) by (nonlinear_arith);
}

/// The frame rate of each frame size.
pub proof fn lemma_frame_rates(fs: int, n: int)
    requires
        valid_fs(fs),
        codable_size(n, fs),
    ensures
        n > 0,
        400 * n == fs ==> fs / n == 400,
        200 * n == fs ==> fs / n == 200,
        100 * n == fs ==> fs / n == 100,
        50 * n == fs ==> fs / n == 50,
        25 * n == fs ==> fs / n == 25,
        50 * n == 3 * fs ==> fs / n == 16,
        50 * n == 4 * fs ==> fs / n == 12,
        50 * n == 5 * fs ==> fs / n == 10,
        50 * n == 6 * fs ==> fs / n == 8,
{
    if 400 * n == fs {
        lemma_quotient(fs, n, 400);
    } else if 200 * n == fs {
        lemma_quotient(fs, n, 200);
    } else if 100 * n == fs {
        lemma_quotient(fs, n, 100);
    } else if 50 * n == fs {
        lemma_quotient(fs, n, 50);
    } else if 25 * n == fs {
        lemma_quotient(fs, n, 25);
    } else if 50 * n == 3 * fs {
        assert(fs / n == 16) by (nonlinear_arith)
            requires
                50 * n == 3 * fs,
                n > 0,
        ;
    } else if 50 * n == 4 * fs {
        assert(fs / n == 12) by (nonlinear_arith)
            requires
                50 * n == 4 * fs,
                n > 0,
        ;
    } else if 50 * n == 5 * fs {
        lemma_quotient(fs, n, 10);
    } else if 50 * n == 6 * fs {
        assert(fs / n == 8) by (nonlinear_arith)
            requires
                50 * n == 6 * fs,
                n > 0,
        ;
    }
}

/// A frame lasts as long at any sampling rate.
proof fn lemma_duration(fs: int, n: int)
    requires
        valid_fs(fs),
        codable_size(n, fs),
    ensures
        known_rate(fs / n),
        duration48(fs / n) * fs == n * 48000,
{
    lemma_frame_rates(fs, n);
}

/// `count` frames are `n` samples where they are at 48 kHz.
proof fn lemma_count_samples(toc: u8, fs: int, n: int, count: int)
    requires
        valid_fs(fs),
        (count * samples_per_frame(toc, 48000)) * fs == n * 48000,
    ensures
        count * samples_per_frame(toc, fs) == n,
{
    let a = samples_per_frame(toc, 48000);
    let b = samples_per_frame(toc, fs);
    let k = if fs == 8000 {
        6int
    } else if fs == 12000 {
        4
    } else if fs == 16000 {
        3
    } else if fs == 24000 {
        2
    } else {
        1
    };
    assert(a == k * b);
    assert(count * (k * b) == k * (count * b)) by (nonlinear_arith);
    assert(fs * k == 48000);
    assert((k * (count * b)) * fs == (fs * k) * (count * b)) by (nonlinear_arith);
}

/// Where there is too little to spend, what is written all the same is a packet: it fits in
/// the room for it, can be read, lasts as long as the input that it stands for, and tells
/// how many channels there are.
pub proof fn packets_without_frames_can_be_read(
    before: OpusEncoder,
    after: OpusEncoder,
    pcm: Seq<i16>,
    n: int,
    d0: Seq<u8>,
    d1: Seq<u8>,
    max: int,
    lsb_depth: int,
    info: AnalysisInfo,
    len: i32,
)
    requires
        before.wf(),
        info.wf(),
        codable_size(n, before.fs as int),
        min_int(max, MAX_PACKET_BYTES as int) <= d0.len(),
        is_plan(
            before,
            after,
            pcm,
            n,
            d0,
            d1,
            max,
            lsb_depth,
            info,
            Ok::<Plan, i32>(Plan::Bare(len)),
        ),
    ensures
        1 <= len <= max,
        len <= MAX_PACKET_BYTES,
        ({
            let w = d1.take(len as int);
            &&& layout(w, false) matches Some(l)
            &&& l.sizes.len() * samples_per_frame(w[0], before.fs as int) == n
            &&& (w[0] / 4) % 2 == if after.stream_channels == 2 {
                1int
            } else {
                0
            }
        }),
{
    let fs = before.fs as int;
    let rate = fs / n;
    let room = min_int(max, MAX_PACKET_BYTES as int);
    let known = before.known(info);
    let heard = before.opened().heard(pcm, n, known);
    let limit = heard.packet_limit(n, room);
    let rated = heard.budgeted(n, room);
    lemma_duration(fs, n);
    lemma_frame_rates(fs, n);
    assert(heard.asked_rate(n, room) == before.asked_rate(n, room));
    before.lemma_rates(n, room);
    let (m, b, c) = (rated.mode as int, rated.bandwidth as int, rated.stream_channels as int);
    let shape = shape_of(m, b, rate, max == 1);
    let s = shape.bytes(c);
    bare_packets_tell_duration(m, b, rate, max == 1, c);
    lemma_toc_code(
        shape.mode as int,
        shape.frame_rate as int,
        shape.bandwidth as int,
        c,
        shape.code,
    );
    lemma_layout(s, false);
    let count = nb_frames_of(s).unwrap() as int;
    lemma_count_samples(s[0], fs, n, count);
    let w = d1.take(len as int);
    if rated.use_vbr != 0 || limit <= s.len() {
        assert(w =~= s);
    } else {
        let x = repacked(s, Seq::empty(), limit, true);
        lemma_no_items(s);
        padding_succeeds(s, limit);
        repacking_keeps_frames(s, Seq::empty(), limit, true);
        assert(w =~= x.1);
        let l = layout(s, false).unwrap();
        let p = layout(w, false).unwrap();
        assert(p.frames(w).len() == p.sizes.len());
        assert(l.frames(s).len() == l.sizes.len());
        assert(samples_per_frame(w[0], fs) == samples_per_frame(s[0], fs));
    }
}

/// A frame that is too long for its mode splits into parts of one size.
pub proof fn lemma_parts(mode: int, fs: int, n: int)
    requires
        valid_fs(fs),
        codable_size(n, fs),
        n > if mode == MODE_SILK_ONLY {
            3 * fs / 50
        } else {
            fs / 50
        },
    ensures
        ({
            let part = part_size(mode, fs, n);
            &&& codable_size(part, fs)
            &&& (n / part) * part == n
            &&& 2 <= n / part <= 6
            &&& 50 * part == fs || (mode == MODE_SILK_ONLY && (25 * part == fs || 50 * part == 3
                * fs))
        }),
{
    let part = part_size(mode, fs, n);
    let k = if n == 2 * part {
        2int
    } else if n == 3 * part {
        3
    } else if n == 4 * part {
        4
    } else if n == 5 * part {
        5
    } else {
        6
    };
    assert(n == k * part);
    lemma_quotient(n, part, k);
}

/// A bitrate that was kept is kept as it is.
pub proof fn kept_bitrates_stay(bitrate: int, channels: int)
    requires
        bitrate > 0 || bitrate == OPUS_AUTO || bitrate == OPUS_BITRATE_MAX,
        1 <= channels <= 2,
    ensures
        kept_bitrate(kept_bitrate(bitrate, channels), channels) == kept_bitrate(bitrate, channels),
{
}

/// Where the bitrate may not vary, packets of one duration have one size, whatever was
/// coded before and whatever is heard.
pub proof fn fixed_rates_fix_the_size(
    a: OpusEncoder,
    b: OpusEncoder,
    pcm: Seq<i16>,
    n: int,
    info: AnalysisInfo,
    max: int,
)
    requires
        a.use_vbr == 0,
        b.use_vbr == 0,
        a.user_bitrate_bps == b.user_bitrate_bps,
        a.channels == b.channels,
        a.fs == b.fs,
    ensures
        a.opened().heard(pcm, n, info).packet_limit(n, max) == b.packet_limit(n, max),
{
}

/// Two encoders that were set and used alike go on alike: encoder, input, room and analysis
/// decide on the plan, on what is written, and on the encoder then.
pub proof fn plans_are_determined(
    before: OpusEncoder,
    after: (OpusEncoder, OpusEncoder),
    pcm: Seq<i16>,
    n: int,
    d0: Seq<u8>,
    d1: (Seq<u8>, Seq<u8>),
    max: int,
    lsb_depth: int,
    info: AnalysisInfo,
    r: (Result<Plan, i32>, Result<Plan, i32>),
)
    requires
        is_plan(before, after.0, pcm, n, d0, d1.0, max, lsb_depth, info, r.0),
        is_plan(before, after.1, pcm, n, d0, d1.1, max, lsb_depth, info, r.1),
    ensures
        after.0 == after.1,
        d1.0 == d1.1,
        r.0 == r.1,
{
}

/// Bytes of 20 ms at a bitrate that may not vary, in packets of at most `max` bytes: an
/// eighth of the bits, rounded to nearest, at least one.
pub open spec fn constant_bytes(bitrate: int, max: int) -> int {
    max_int(1, min_int((min_int(bitrate, 400 * max) / 50 + 4) / 8, max))
}

/// At a bitrate that may not vary, every packet of 20 ms has the size that the bitrate and
/// the room for it come to, be it with frames or without. The exception is a frame that is
/// left out, because the speech coder wrote nothing or nothing was heard for a while: it
/// takes one byte.
pub proof fn constant_rates_fix_the_bytes(
    before: OpusEncoder,
    after: OpusEncoder,
    pcm: Seq<i16>,
    d0: Seq<u8>,
    d1: Seq<u8>,
    max: int,
    lsb_depth: int,
    info: AnalysisInfo,
    r: Result<Plan, i32>,
)
    requires
        before.wf(),
        before.use_vbr == 0,
        before.user_bitrate_bps != OPUS_AUTO,
        before.user_bitrate_bps != OPUS_BITRATE_MAX,
        max >= 1,
        is_plan(
            before,
            after,
            pcm,
            before.fs as int / 50,
            d0,
            d1,
            max,
            lsb_depth,
            info,
            r,
        ),
    ensures
        ({
            let size = constant_bytes(
                before.user_bitrate_bps as int,
                min_int(max, MAX_PACKET_BYTES as int),
            );
            match r {
                Ok(Plan::Bare(len)) => len == size,
                Ok(Plan::Single(plan)) => {
                    &&& plan.max_data_bytes == size
                    &&& forall|run: FrameRun, len: i32|
                        run.orig_max_data_bytes == plan.max_data_bytes && len <= size
                            ==> #[trigger] after.sent_bytes(run, Ending::Sent(len)) == size
                    &&& forall|run: FrameRun| #[trigger] after.sent_bytes(run, Ending::LeftOut) == 1
                },
                _ => false,
            }
        }),
{
    let fs = before.fs as int;
    let n = fs / 50;
    let room = min_int(max, MAX_PACKET_BYTES as int);
    let heard = before.opened().heard(pcm, n, before.known(info));
    lemma_quotient(6 * fs, n, 300);
    lemma_quotient(fs, n, 50);
    assert(bitrate_of(room * 8, fs, n) == 400 * room);
    let rate = heard.asked_rate(n, room);
    assert(rate == min_int(before.user_bitrate_bps as int, 400 * room));
    assert(bits_of(rate, fs, n) == rate / 50);
    assert(heard.packet_limit(n, room) == constant_bytes(before.user_bitrate_bps as int, room));
}

/// More room never makes a packet shorter: what a packet may take grows with what is
/// allowed for it.
pub proof fn room_is_never_less(e: OpusEncoder, n: int, max: int, more: int)
    requires
        e.wf(),
        frame_domain(e.fs as int, n),
        1 <= max <= more <= MAX_PACKET_BYTES,
    ensures
        e.packet_limit(n, max) <= e.packet_limit(n, more),
{
    let q = 6 * e.fs as int / n;
    lemma_frame_samples(e.fs as int, n, 1);
    assert((max * 8) * q <= (more * 8) * q) by (nonlinear_arith)
        requires
            max <= more,
            q >= 0,
    ;
    assert(0 <= (max * 8) * q) by (nonlinear_arith)
        requires
            0 <= max,
            q >= 0,
    ;
    e.lemma_rates(n, max);
    e.lemma_rates(n, more);
    let (a, b) = (e.asked_rate(n, max), e.asked_rate(n, more));
    assert(a <= b);
    assert(a * 6 / q <= b * 6 / q) by (nonlinear_arith)
        requires
            0 <= a <= b,
            q > 0,
    ;
}

} // verus!
