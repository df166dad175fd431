//! What holds of the choices that are made for a packet: channels, mode, bandwidth, and error
//! correction, by the settings and by what there is to spend.

use vstd::prelude::*;
use crate::arith::{q15, Q15ONE};
use crate::encoder::OpusEncoder;
use crate::modes::{
    MODE_CELT_ONLY, OPUS_APPLICATION_AUDIO, OPUS_APPLICATION_RESTRICTED_LOWDELAY,
    OPUS_APPLICATION_VOIP, OPUS_AUTO, OPUS_SIGNAL_MUSIC, OPUS_SIGNAL_VOICE,
};
use crate::plan::FramePlan;
use crate::rates::{bits_of, codable_size};
use crate::rates_law::{bits_are_rate_times_duration, more_bits_are_worth_more};

verus! {

// ---------------------------------------------------------------------------
// Voice
// ---------------------------------------------------------------------------

/// A signal that is set to voice counts as voice for sure, and one that is set to music as
/// none, whatever else is known. Otherwise what was found counts, in 128ths: in an encoder
/// for any audio never as quite sure. Where nothing was found, calls are taken for voice, and
/// other audio for music rather.
pub proof fn voice_by_setting(e: OpusEncoder)
    requires
        e.wf(),
    ensures
        ({
            let v = e.voice_estimate();
            let r = e.voice_ratio as int;
            &&& 0 <= v <= 127
            &&& e.signal_type == OPUS_SIGNAL_VOICE ==> v == 127
            &&& e.signal_type == OPUS_SIGNAL_MUSIC ==> v == 0
            &&& e.signal_type == OPUS_AUTO && r >= 0 ==> {
                &&& 100 * v <= 128 * r
                &&& e.application != OPUS_APPLICATION_AUDIO ==> 127 * r < 100 * (v + 1)
                &&& e.application == OPUS_APPLICATION_AUDIO ==> v <= 115 && (v == 115 || 127 * r
                    < 100 * (v + 1))
            }
            &&& e.signal_type == OPUS_AUTO && r < 0 ==> v == if e.application
                == OPUS_APPLICATION_VOIP {
                115int
            } else {
                48
            }
        }),
{
}

// ---------------------------------------------------------------------------
// Channels
// ---------------------------------------------------------------------------

/// Two channels are coded as two just where the rate is above a threshold: 17000 bits a
/// second for music, up to 2000 more for voice, by its square; less 1000 in an encoder that
/// coded two last, and 1000 more in one that coded one. So 20000 are always enough, and 16000
/// never are. A number of channels that is asked for is coded, and one channel is one.
pub proof fn channels_by_rate(e: OpusEncoder, frame_rate: int)
    requires
        e.wf(),
    ensures
        ({
            let c = e.coded_channels(frame_rate);
            let rate = e.rate_in(2, frame_rate, 0);
            let v = e.voice_estimate();
            let spare = rate - 17000 - if e.stream_channels == 2 {
                -1000int
            } else {
                1000
            };
            &&& e.channels == 1 ==> c == 1
            &&& e.channels == 2 && e.force_channels != OPUS_AUTO ==> c == e.force_channels
            &&& e.channels == 2 && e.force_channels == OPUS_AUTO ==> {
                &&& c == 1 || c == 2
                &&& c == 2 <==> 16384 * spare > 2000 * (v * v)
                &&& rate > 20000 ==> c == 2
                &&& rate <= 16000 ==> c == 1
            }
        }),
{
    voice_by_setting(e);
    let v = e.voice_estimate();
    assert(0 <= v * v <= 16129) by (nonlinear_arith)
        requires
            0 <= v <= 127,
    ;
    assert(v * v * 2000 == 2000 * (v * v)) by (nonlinear_arith);
}

/// More bits a second never take a channel away.
pub proof fn channels_do_not_fall(e: OpusEncoder, more: i32, frame_rate: int)
    requires
        e.wf(),
        e.bitrate_bps <= more,
    ensures
        e.coded_channels(frame_rate) <= (OpusEncoder { bitrate_bps: more, ..e }).coded_channels(
            frame_rate,
        ),
{
    let f = OpusEncoder { bitrate_bps: more, ..e };
    more_bits_are_worth_more(
        e.bitrate_bps as int,
        more as int,
        2,
        frame_rate,
        e.use_vbr as int,
        0,
        e.silk_mode.complexity as int,
        e.silk_mode.packet_loss_percentage as int,
    );
    assert(f.voice_estimate() == e.voice_estimate());
}

// ---------------------------------------------------------------------------
// The rate from which on music coding is the better choice
// ---------------------------------------------------------------------------

/// That rate is 10000 bits a second for music and 64000 for voice, or 44000 for voice that is
/// as wide as can be, with the square of the voice estimate and the width between them, to
/// within eight bits; 8000 more in calls; and 4000 less where music was coded last, 4000 more
/// where speech was.
pub proof fn mode_threshold_by_voice(e: OpusEncoder, v: int, width: int)
    requires
        0 <= v <= 128,
        0 <= width <= 32767,
    ensures
        ({
            let call = if e.application == OPUS_APPLICATION_VOIP {
                8000int
            } else {
                0
            };
            let last = if e.prev_mode == MODE_CELT_ONLY {
                -4000int
            } else if e.prev_mode > 0 {
                4000
            } else {
                0
            };
            let t = e.mode_threshold(v, width) - call - last;
            let scale = 0x2000_0000int;
            let rise = (v * v) * (54000 * 32768 - 20000 * width);
            -8 * scale <= scale * (t - 10000) - rise <= 8 * scale
        }),
{
    let voice = q15(Q15ONE - width, 64000) + q15(width, 44000);
    let music = q15(Q15ONE - width, 10000) + q15(width, 10000);
    assert(9998 <= music <= 10000);
    assert(-4 * 32768 <= 32768 * voice - (64000 * 32768 - 20000 * width) <= 0);
    let d = voice - music;
    assert(d > 0);
    let s = v * v;
    assert(0 <= s <= 16384) by (nonlinear_arith)
        requires
            s == v * v,
            0 <= v <= 128,
    ;
    let p = s * d;
    assert(p >= 0) by (nonlinear_arith)
        requires
            p == s * d,
            s >= 0,
            d > 0,
    ;
    assert(v * v * (voice - music) == p) by (nonlinear_arith)
        requires
            s == v * v,
            p == s * d,
            d == voice - music,
    ;
    let q = p / 16384;
    let rise = s * (54000 * 32768 - 20000 * width);
    let x = 54000 * 32768 - 20000 * width;
    assert(-4 * 32768 <= 32768 * d - x <= 2 * 32768);
    assert(-4 * 0x2000_0000 <= s * (32768 * d - x) <= 2 * 0x2000_0000) by (nonlinear_arith)
        requires
            0 <= s <= 16384,
            -4 * 32768 <= 32768 * d - x <= 2 * 32768,
    ;
    assert(s * (32768 * d - x) == 32768 * p - rise) by (nonlinear_arith)
        requires
            p == s * d,
            rise == s * x,
    ;
    assert(16384 * q <= p < 16384 * q + 16384);
}

/// The rate does not fall as more speaks for voice.
pub proof fn mode_threshold_rises(e: OpusEncoder, v: int, w: int, width: int)
    requires
        0 <= v <= w <= 128,
        0 <= width <= 32767,
    ensures
        e.mode_threshold(v, width) <= e.mode_threshold(w, width),
        e.mode_threshold(0, width) <= 10000 + 12000,
        w - v >= 16 ==> e.mode_threshold(v, width) + 500 <= e.mode_threshold(w, width),
{
    let voice = q15(Q15ONE - width, 64000) + q15(width, 44000);
    let music = q15(Q15ONE - width, 10000) + q15(width, 10000);
    let d = voice - music;
    assert(d >= 33000);
    assert(0 <= v * v * d <= w * w * d && (w - v >= 16 ==> v * v * d + 256 * 33000 <= w * w * d))
        by (nonlinear_arith)
        requires
            0 <= v <= w,
            d >= 33000,
    ;
    let z = 0int;
    assert(z * z * d == 0) by (nonlinear_arith)
        requires
            z == 0,
    ;
}

// ---------------------------------------------------------------------------
// The mode
// ---------------------------------------------------------------------------

/// Whether a packet is coded as music, or is the last one on the way to it.
pub open spec fn heads_for_music(after: OpusEncoder, plan: FramePlan) -> bool {
    after.mode == MODE_CELT_ONLY || plan.to_celt
}

/// Whether nothing but the signal and the rate is to decide on the mode: frames of 10 ms or
/// more, of a signal that is not all low frequencies, where delay does not come first and no
/// mode is asked for, in packets with room for 9000 bits a second.
pub open spec fn mode_is_open(e: OpusEncoder, n: int, limit: int) -> bool {
    &&& 100 * n >= e.fs
    &&& e.lfe == 0
    &&& e.application != OPUS_APPLICATION_RESTRICTED_LOWDELAY
    &&& e.user_forced_mode == OPUS_AUTO
    &&& 8 * limit * e.fs >= 9000 * n
}

/// Frames below 10 ms, low frequencies, short delay, a mode that is asked for, and packets
/// with too little room decide on the mode, in this order and whatever the signal.
pub proof fn modes_that_are_settled(
    e: OpusEncoder,
    n: int,
    limit: int,
    dred_bitrate: int,
    lsb_depth: int,
    quiet: bool,
    valid: bool,
)
    requires
        e.wf(),
        codable_size(n, e.fs as int),
    ensures
        ({
            let (after, plan) = e.planned(n, limit, dred_bitrate, lsb_depth, quiet, valid);
            let forced = e.user_forced_mode;
            if 100 * n < e.fs {
                after.mode == MODE_CELT_ONLY && !plan.to_celt
            } else if e.lfe != 0 || e.application == OPUS_APPLICATION_RESTRICTED_LOWDELAY {
                heads_for_music(after, plan)
            } else if forced != OPUS_AUTO {
                heads_for_music(after, plan) == (forced == MODE_CELT_ONLY)
            } else {
                // The room for 6000 bits a second, or 9000 in frames below 20 ms.
                8 * (limit + 1) * e.fs <= (if 50 * n < e.fs {
                    9000int
                } else {
                    6000
                }) * n ==> heads_for_music(after, plan)
            }
        }),
{
    lemma_planned_mode(e, n, limit, dred_bitrate, lsb_depth, quiet, valid);
    lemma_mode_room(e.fs as int, n, limit);
}

/// Where the mode is open, speech that is to survive loss is coded as speech, the sooner the
/// more speaks for voice, and so is what surely is voice where silence is left out. Else a
/// packet is coded as music just where the rate reaches the rate from which on that is better.
pub proof fn modes_that_are_open(
    e: OpusEncoder,
    n: int,
    limit: int,
    dred_bitrate: int,
    lsb_depth: int,
    quiet: bool,
    valid: bool,
)
    requires
        e.wf(),
        codable_size(n, e.fs as int),
        mode_is_open(e, n, limit),
    ensures
        ({
            let (after, plan) = e.planned(n, limit, dred_bitrate, lsb_depth, quiet, valid);
            let v = e.voice_estimate();
            let loss = e.silk_mode.packet_loss_percentage as int;
            let survives = e.silk_mode.use_in_band_fec != 0 && 16 * loss > 128 - v && (e.fec_config
                != 2 || v > 25);
            let pauses = e.use_dtx != 0 && !valid && !quiet && v > 100;
            let frame_rate = e.fs as int / n;
            let channels = e.coded_channels(frame_rate) as int;
            let rate = e.rate_in(channels, frame_rate, 0);
            heads_for_music(after, plan) == (!survives && !pauses && rate >= e.mode_threshold(
                v,
                e.stereo_width(),
            ))
        }),
{
    lemma_planned_mode(e, n, limit, dred_bitrate, lsb_depth, quiet, valid);
    lemma_mode_room(e.fs as int, n, limit);
    voice_by_setting(e);
    let v = e.voice_estimate();
    let loss = e.silk_mode.packet_loss_percentage as int;
    assert(loss > (128 - v) / 16 <==> 16 * loss > 128 - v);
}

/// Speech of one channel below 60000 bits a second is never planned as music at first, and
/// music above 24000 never as speech. Above 77000 everything is music where it may be, and
/// below 5000 everything is speech.
pub proof fn rates_part_speech_from_music(
    e: OpusEncoder,
    n: int,
    limit: int,
    dred_bitrate: int,
    lsb_depth: int,
    quiet: bool,
    valid: bool,
)
    requires
        e.wf(),
        codable_size(n, e.fs as int),
        mode_is_open(e, n, limit),
        e.silk_mode.use_in_band_fec == 0,
        e.use_dtx == 0,
    ensures
        ({
            let (after, plan) = e.planned(n, limit, dred_bitrate, lsb_depth, quiet, valid);
            let frame_rate = e.fs as int / n;
            let rate = e.rate_in(e.coded_channels(frame_rate) as int, frame_rate, 0);
            &&& e.signal_type == OPUS_SIGNAL_VOICE && e.channels == 1 && e.prev_mode == 0 && rate
                < 60000 ==> after.mode != MODE_CELT_ONLY
            &&& e.signal_type == OPUS_SIGNAL_MUSIC && rate >= 24000 ==> heads_for_music(after, plan)
            &&& rate >= 77000 ==> heads_for_music(after, plan)
            &&& rate < 5000 ==> !heads_for_music(after, plan)
        }),
{
    modes_that_are_open(e, n, limit, dred_bitrate, lsb_depth, quiet, valid);
    voice_by_setting(e);
    let v = e.voice_estimate();
    let width = e.stereo_width();
    mode_threshold_by_voice(e, v, width);
    assert(0 <= v * v <= 16129) by (nonlinear_arith)
        requires
            0 <= v <= 127,
    ;
    let x = 54000 * 32768 - 20000 * width;
    assert(0 <= (v * v) * x <= 16129 * (54000 * 32768)) by (nonlinear_arith)
        requires
            0 <= v * v <= 16129,
            0 <= x <= 54000 * 32768,
    ;
    if e.signal_type == OPUS_SIGNAL_VOICE {
        assert(v * v == 16129) by (nonlinear_arith)
            requires
                v == 127,
        ;
    }
    if e.signal_type == OPUS_SIGNAL_MUSIC {
        assert((v * v) * x == 0) by (nonlinear_arith)
            requires
                v == 0,
        ;
    }
}

/// What the room of a packet says: as bits of a frame at a rate, and as bytes.
proof fn lemma_mode_room(fs: int, n: int, limit: int)
    requires
        crate::rates::valid_fs(fs),
        codable_size(n, fs),
    ensures
        ({
            let rate = if fs / n > 50 {
                9000int
            } else {
                6000
            };
            &&& limit < bits_of(rate, fs, n) / 8 <==> 8 * (limit + 1) * fs <= rate * n
            &&& (fs / n > 50 <==> 50 * n < fs)
            &&& 8 * limit * fs >= 9000 * n ==> !(limit < bits_of(rate, fs, n) / 8)
        }),
{
    let rate = if fs / n > 50 {
        9000int
    } else {
        6000
    };
    bits_are_rate_times_duration(rate, n, fs);
    let bits = bits_of(rate, fs, n);
    let k = 8 * (limit + 1);
    assert(limit < bits / 8 <==> k <= bits);
    assert(k <= bits ==> k * fs <= bits * fs) by (nonlinear_arith)
        requires
            fs > 0,
    ;
    assert(k >= bits + 1 ==> k * fs >= (bits + 1) * fs) by (nonlinear_arith)
        requires
            fs > 0,
    ;
    crate::plan_law::lemma_frame_rates(fs, n);
    assert(8 * limit * fs < k * fs) by (nonlinear_arith)
        requires
            k == 8 * (limit + 1),
            fs > 0,
    ;
}

/// The mode of a plan, by the wanted one.
proof fn lemma_planned_mode(
    e: OpusEncoder,
    n: int,
    limit: int,
    dred_bitrate: int,
    lsb_depth: int,
    quiet: bool,
    valid: bool,
)
    requires
        e.wf(),
        codable_size(n, e.fs as int),
    ensures
        ({
            let (after, plan) = e.planned(n, limit, dred_bitrate, lsb_depth, quiet, valid);
            let frame_rate = e.fs as int / n;
            let wanted = e.wanted_mode(
                n,
                limit,
                e.stereo_width(),
                e.coded_channels(frame_rate) as int,
                e.silk_dtx(quiet, valid),
            );
            &&& heads_for_music(after, plan) == (wanted == MODE_CELT_ONLY)
            &&& 100 * n < e.fs ==> !plan.to_celt
        }),
{
}

// ---------------------------------------------------------------------------
// From one packet to the next
// ---------------------------------------------------------------------------

/// A change between speech and music is eased by a short frame, and only a change is. A packet
/// of 10 ms or more that is to be music after speech is coded as speech once more; one that is
/// to be speech after music has a fresh speech coder, that is warmed up.
pub proof fn changes_are_eased(
    e: OpusEncoder,
    n: int,
    limit: int,
    dred_bitrate: int,
    lsb_depth: int,
    quiet: bool,
    valid: bool,
)
    requires
        e.wf(),
        codable_size(n, e.fs as int),
    ensures
        ({
            let (after, plan) = e.planned(n, limit, dred_bitrate, lsb_depth, quiet, valid);
            let music = after.mode == MODE_CELT_ONLY;
            &&& plan.redundancy == (plan.to_celt || plan.celt_to_silk)
            &&& plan.celt_to_silk == (e.prev_mode == MODE_CELT_ONLY && !music)
            &&& plan.to_celt ==> e.prev_mode > 0 && e.prev_mode != MODE_CELT_ONLY && !music
                && 100 * n >= e.fs
            &&& music && e.prev_mode > 0 && e.prev_mode != MODE_CELT_ONLY ==> 100 * n < e.fs
            &&& plan.prefill == if plan.celt_to_silk {
                1int
            } else {
                0
            }
            &&& plan.celt_to_silk && e.silk_enc is Some ==> after.silk_enc == Some(
                crate::coders::SilkEncoder::fresh(e.channels as int),
            )
            &&& !plan.celt_to_silk ==> after.silk_enc == e.silk_enc
        }),
{
}

/// As many channels are coded as are chosen, but that speech which was in stereo is so once
/// more before it is mono, and the speech coder is told.
pub proof fn speech_leaves_stereo_in_two_steps(
    e: OpusEncoder,
    n: int,
    limit: int,
    dred_bitrate: int,
    lsb_depth: int,
    quiet: bool,
    valid: bool,
)
    requires
        e.wf(),
        codable_size(n, e.fs as int),
    ensures
        ({
            let (after, plan) = e.planned(n, limit, dred_bitrate, lsb_depth, quiet, valid);
            let chosen = e.coded_channels(e.fs as int / n);
            let step = chosen == 1 && e.prev_channels == 2 && e.silk_mode.to_mono == 0 && after.mode
                != MODE_CELT_ONLY && e.prev_mode != MODE_CELT_ONLY;
            &&& after.stream_channels == if step {
                2
            } else {
                chosen
            }
            &&& after.silk_mode.to_mono == if step {
                1int
            } else {
                0
            }
        }),
{
}

/// What is planned goes by the settings, and changes none of them. The rate that it goes by is
/// what the bitrate is worth in the mode and the channels that are coded.
pub proof fn plans_keep_settings(
    e: OpusEncoder,
    n: int,
    limit: int,
    dred_bitrate: int,
    lsb_depth: int,
    quiet: bool,
    valid: bool,
)
    requires
        e.wf(),
        codable_size(n, e.fs as int),
    ensures
        ({
            let (after, plan) = e.planned(n, limit, dred_bitrate, lsb_depth, quiet, valid);
            &&& after.same_choices(e)
            &&& after.bitrate_bps == e.bitrate_bps
            &&& after.prev_mode == e.prev_mode
            &&& after.prev_channels == e.prev_channels
            &&& after.nb_no_activity_ms_q1 == e.nb_no_activity_ms_q1
            &&& after.silk_mode.use_dtx == if e.use_dtx != 0 && !valid && !quiet {
                1int
            } else {
                0
            }
            &&& plan.equiv_rate as int == e.rate_in(
                after.stream_channels as int,
                e.fs as int / n,
                after.mode as int,
            ) as i32
            &&& plan.is_silence == quiet
            &&& plan.max_data_bytes == limit as i32
            &&& plan.dred_bitrate_bps == dred_bitrate as i32
            &&& plan.lsb_depth == lsb_depth as i32
            &&& (after.celt_enc matches Some(celt) ==> celt.lsb_depth == lsb_depth as i32)
        }),
{
}

} // verus!
