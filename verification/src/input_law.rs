//! What holds of what is heard of the input, of what there is to spend, and of the plan that
//! comes of both.

use vstd::prelude::*;
use crate::arith::{max_int, min_int};
use crate::choice_law::rates_part_speech_from_music;
use crate::coders::AnalysisInfo;
use crate::dred::dred_rate_is_bounded;
use crate::dred_law::redundancy_by_rate;
use crate::dsp::{energy_of, silent};
use crate::encoder::OpusEncoder;
use crate::modes::{
    MODE_CELT_ONLY, MODE_HYBRID, MODE_SILK_ONLY, OPUS_AUTO, OPUS_BANDWIDTH_FULLBAND,
    OPUS_BANDWIDTH_MEDIUMBAND, OPUS_BANDWIDTH_NARROWBAND, OPUS_BANDWIDTH_SUPERWIDEBAND,
    OPUS_BANDWIDTH_WIDEBAND, OPUS_BITRATE_MAX, OPUS_SIGNAL_VOICE,
};
use crate::plan::{is_plan, FramePlan, Plan, MAX_PACKET_BYTES};
use crate::rates::{bits_of, codable_size};
use crate::rates_law::{
    bits_are_rate_times_duration, rates_are_bits_by_duration, settings_stand_for_rates,
};

verus! {

// ---------------------------------------------------------------------------
// Hearing
// ---------------------------------------------------------------------------

/// The encoder is slow to change its mind: of the same frame, one that coded music last hears
/// the least voice, one that coded speech last the most. `info` holds three ratios, by the
/// greatest, the mean and the least probability of music.
pub proof fn minds_change_slowly(
    e: OpusEncoder,
    pcm: Seq<i16>,
    n: int,
    info: AnalysisInfo,
    speech: i32,
)
    requires
        e.signal_type == OPUS_AUTO,
        info.valid,
        info.voice_ratio_max < info.voice_ratio < info.voice_ratio_min,
        speech == MODE_SILK_ONLY || speech == MODE_HYBRID,
    ensures
        ({
            let after_music = OpusEncoder { prev_mode: MODE_CELT_ONLY, ..e }.heard(pcm, n, info);
            let at_first = OpusEncoder { prev_mode: 0, ..e }.heard(pcm, n, info);
            let after_speech = OpusEncoder { prev_mode: speech, ..e }.heard(pcm, n, info);
            after_music.voice_ratio < at_first.voice_ratio < after_speech.voice_ratio
        }),
{
}

/// Of silence nothing is learnt of voice; of sound that is not analysed it is forgotten what
/// was known. A signal that is set to something is not asked for voice.
pub proof fn voice_is_heard(e: OpusEncoder, pcm: Seq<i16>, n: int, info: AnalysisInfo)
    ensures
        ({
            let r = e.heard(pcm, n, info).voice_ratio;
            let quiet = silent(pcm, n * e.channels);
            &&& !info.valid || e.signal_type != OPUS_AUTO ==> r == if quiet {
                e.voice_ratio as int
            } else {
                -1
            }
            &&& info.valid && e.signal_type == OPUS_AUTO ==> r == info.voice_ratio || r
                == info.voice_ratio_min || r == info.voice_ratio_max
        }),
{
}

/// The analysis tells a band by the number of the last of 21 that holds anything: twelve are
/// narrowband, and every two more the next. Without an analysis no band is told.
pub proof fn bands_are_heard(e: OpusEncoder, pcm: Seq<i16>, n: int, info: AnalysisInfo)
    ensures
        ({
            let b = e.heard(pcm, n, info).detected_bandwidth;
            let last = info.bandwidth;
            &&& !info.valid ==> b == 0
            &&& info.valid ==> {
                &&& b == OPUS_BANDWIDTH_NARROWBAND <==> last < 13
                &&& b == OPUS_BANDWIDTH_MEDIUMBAND <==> last == 13 || last == 14
                &&& b == OPUS_BANDWIDTH_WIDEBAND <==> last == 15 || last == 16
                &&& b == OPUS_BANDWIDTH_SUPERWIDEBAND <==> last == 17 || last == 18
                &&& b == OPUS_BANDWIDTH_FULLBAND <==> last > 18
            }
        }),
{
}

/// The peak of energy is at once as high as a frame with sound in it, and fades by a
/// thousandth a frame. Silence, and frames that the analysis finds inactive, leave it.
pub proof fn peaks_fade(e: OpusEncoder, pcm: Seq<i16>, n: int, info: AnalysisInfo)
    requires
        e.wf(),
        0 <= energy_of(pcm, n * e.channels) <= i32::MAX,
    ensures
        ({
            let before = e.peak_signal_energy as int;
            let after = e.heard(pcm, n, info).peak_signal_energy as int;
            let energy = energy_of(pcm, n * e.channels);
            if silent(pcm, n * e.channels) || (info.valid && !info.active) {
                after == before
            } else {
                &&& after >= energy
                &&& after == energy || after <= before
                &&& 1000 * after >= 998 * before - 1000
                &&& before > energy && before >= 10000 ==> after < before
                &&& after > energy ==> 1000 * after <= 999 * before + 1
            }
        }),
{
    let f = e.peak_signal_energy * 32735 / 32768;
    assert(32768 * f <= e.peak_signal_energy * 32735 < 32768 * (f + 1));
}

/// The width of the signal is followed in stereo, unless one channel is asked for. Hearing
/// changes nothing else.
pub proof fn hearing_changes_little(e: OpusEncoder, pcm: Seq<i16>, n: int, info: AnalysisInfo)
    ensures
        ({
            let h = e.heard(pcm, n, info);
            &&& e.channels == 1 || e.force_channels == 1 ==> h.width_mem == e.width_mem
                && h.stereo_width() == 0
            &&& h.same_choices(e)
            &&& h.prev_mode == e.prev_mode
            &&& h.first == e.first
            &&& h.bandwidth == e.bandwidth
            &&& h.auto_bandwidth == e.auto_bandwidth
            &&& h.stream_channels == e.stream_channels
            &&& h.silk_mode == e.silk_mode
        }),
{
}

/// The input is analysed where most work is done, at 16 kHz and more; what the analysis says
/// then counts.
pub proof fn much_work_is_analysed(e: OpusEncoder, info: AnalysisInfo)
    requires
        e.wf(),
    ensures
        e.wants_analysis() == (e.silk_mode.complexity == 10 && e.fs != 8000 && e.fs != 12000),
        e.silk_mode.complexity == 10 && e.fs >= 16000 ==> e.known(info) == info,
        e.silk_mode.complexity < 10 || e.fs < 16000 ==> !e.known(info).valid,
{
}

// ---------------------------------------------------------------------------
// What there is to spend
// ---------------------------------------------------------------------------

/// A packet gets what is asked for, as far as it fits; redundancy takes its share of that, and
/// the coders have the rest. Where the bitrate may not vary, what is asked for is first
/// rounded to whole bytes, and the packet may take just those; else it may take all its room.
pub proof fn budgets_add_up(e: OpusEncoder, n: int, max: int)
    requires
        e.wf(),
        codable_size(n, e.fs as int),
        1 <= max <= MAX_PACKET_BYTES,
    ensures
        ({
            let b = e.budgeted(n, max);
            let share = e.dred_share(n, max).bitrate;
            let limit = e.packet_limit(n, max);
            let asked = e.asked_rate(n, max);
            let total = b.bitrate_bps + share;
            &&& asked * n <= max * 8 * e.fs
            &&& e.use_vbr != 0 ==> total == asked && limit == max
            &&& e.use_vbr == 0 ==> {
                &&& 1 <= limit <= max
                // The bytes nearest to what is asked for.
                &&& limit > 1 ==> (8 * limit - 4) * e.fs <= asked * n
                &&& limit < max ==> asked * n < (8 * limit + 4) * e.fs
                &&& limit > 1 ==> total * n <= limit * 8 * e.fs < (total + 1) * n
            }
            &&& 0 <= share
            &&& e.dred_duration == 0 ==> share == 0
            &&& b.same_choices(e)
            &&& b.silk_mode == e.silk_mode
            &&& b.prev_mode == e.prev_mode
        }),
{
    let fs = e.fs as int;
    e.lemma_rates(n, max);
    settings_stand_for_rates(e.user_bitrate_bps as int, e.channels as int, fs, n, max);
    let asked = e.asked_rate(n, max);
    bits_are_rate_times_duration(asked, n, fs);
    let bits = bits_of(asked, fs, n);
    let bytes = e.fixed_bytes(n, max);
    rates_are_bits_by_duration(bytes * 8, n, fs);
    dred_rate_is_bounded(
        e.silk_mode.use_in_band_fec != 0,
        e.silk_mode.packet_loss_percentage as int,
        fs,
        e.dred_duration as int,
        e.gross_rate(n, max),
        n,
    );
    if e.use_vbr == 0 {
        let limit = e.packet_limit(n, max);
        if limit > 1 {
            assert(limit == bytes);
            assert(8 * limit - 4 <= bits);
            assert((8 * limit - 4) * fs <= bits * fs) by (nonlinear_arith)
                requires
                    8 * limit - 4 <= bits,
                    fs > 0,
            ;
            assert(limit * 8 * fs == (bytes * 8) * fs) by (nonlinear_arith)
                requires
                    limit == bytes,
            ;
        }
        if limit < max {
            assert(bits + 1 <= 8 * limit + 4);
            assert((bits + 1) * fs <= (8 * limit + 4) * fs) by (nonlinear_arith)
                requires
                    bits + 1 <= 8 * limit + 4,
                    fs > 0,
            ;
        }
    }
}

/// Redundancy is budgeted by the settings: none without a duration, and none without loss; by
/// what the packet has beyond 20000 bits a second with error correction, and beyond 12000
/// without. The encoder keeps how it is to be quantized, and how many chunks it has.
pub proof fn redundancy_is_budgeted(e: OpusEncoder, n: int, max: int)
    requires
        e.wf(),
        codable_size(n, e.fs as int),
        1 <= max <= MAX_PACKET_BYTES,
    ensures
        ({
            let b = e.budgeted(n, max);
            let share = e.dred_share(n, max);
            let spare = e.gross_rate(n, max) - if e.silk_mode.use_in_band_fec != 0 {
                20000int
            } else {
                12000
            };
            &&& e.dred_duration == 0 || e.silk_mode.packet_loss_percentage == 0 || spare <= 0
                ==> share.bitrate == 0 && b.dred_target_chunks == 0
            &&& spare < 4096 ==> b.dred_q0 == 15
            &&& spare >= 32768 ==> b.dred_q0 == 4
            &&& b.dred_d_q == if spare > 36000 {
                3int
            } else {
                5
            }
            &&& b.dred_qmax == 15
        }),
{
    redundancy_by_rate(
        e.silk_mode.use_in_band_fec != 0,
        e.silk_mode.packet_loss_percentage as int,
        e.fs as int,
        e.dred_duration as int,
        e.gross_rate(n, max),
        e.gross_rate(n, max),
        n,
    );
}

/// Frames are coded where there are three bytes for each, 24 bits a frame, and, in frames of
/// more than 20 ms, 2400 bits a second and room for them; and only there.
pub proof fn enough_to_code(e: OpusEncoder, n: int, limit: int)
    requires
        e.wf(),
        codable_size(n, e.fs as int),
    ensures
        ({
            let starved = e.starved(e.fs as int / n, limit);
            &&& limit < 3 ==> starved
            &&& e.bitrate_bps < 1200 && 50 * n <= e.fs ==> starved
            &&& e.bitrate_bps < 2400 && 50 * n > e.fs ==> starved
            &&& e.bitrate_bps < 24 * 400 && 400 * n == e.fs ==> starved
            &&& 50 * n == e.fs && limit >= 3 && e.bitrate_bps >= 1200 ==> !starved
            &&& 50 * n > e.fs && limit >= 38 && e.bitrate_bps >= 2400 ==> !starved
            &&& 50 * n > e.fs && limit <= 11 ==> starved
            &&& 50 * n < e.fs && limit >= 3 && e.bitrate_bps >= 9600 ==> !starved
        }),
{
    let fs = e.fs as int;
    let q = fs / n;
    crate::plan_law::lemma_frame_rates(fs, n);
    assert(50 * n > fs ==> 8 <= q <= 25);
    assert(8 <= q <= 25 && limit >= 38 ==> limit * q >= 300) by (nonlinear_arith);
    assert(q <= 25 && 0 <= q && limit <= 11 ==> limit * q < 300) by (nonlinear_arith);
}

// ---------------------------------------------------------------------------
// The plan
// ---------------------------------------------------------------------------

/// The plan of a packet of frames, whether of one or of several.
pub open spec fn plan_in(r: Result<Plan, i32>) -> Option<FramePlan> {
    match r {
        Ok(Plan::Single(p)) => Some(p),
        Ok(Plan::Several(p)) => Some(p),
        _ => None,
    }
}

/// A plan changes no setting and writes nothing. It takes no more bytes than there are, nor
/// more than six frames of 1276; it says whether the input is silent; and it believes samples
/// no further than they and the settings do. Frames above 20 ms, or 60 ms of speech, are
/// several.
pub proof fn plans_fit_their_input(
    before: OpusEncoder,
    after: OpusEncoder,
    pcm: Seq<i16>,
    n: int,
    d0: Seq<u8>,
    d1: Seq<u8>,
    max: int,
    lsb_depth: int,
    info: AnalysisInfo,
    r: Result<Plan, i32>,
)
    requires
        before.wf(),
        info.wf(),
        codable_size(n, before.fs as int),
        max <= i32::MAX,
        i32::MIN <= lsb_depth <= i32::MAX,
        is_plan(before, after, pcm, n, d0, d1, max, lsb_depth, info, r),
        plan_in(r) is Some,
    ensures
        ({
            let plan = plan_in(r).unwrap();
            &&& after.same_choices(before)
            &&& d1 == d0
            &&& plan.is_silence == silent(pcm, n * before.channels)
            &&& 3 <= plan.max_data_bytes <= max
            &&& plan.max_data_bytes <= 7656
            &&& before.use_vbr != 0 ==> plan.max_data_bytes == min_int(max, 7656)
            &&& plan.lsb_depth == min_int(lsb_depth, before.lsb_depth as int)
            &&& r is Ok && r->Ok_0 is Several <==> 50 * n > before.fs && (after.mode
                != MODE_SILK_ONLY || 50 * n > 3 * before.fs)
            &&& after.prev_mode == before.prev_mode
        }),
{
    let room = min_int(max, MAX_PACKET_BYTES as int);
    let known = before.known(info);
    let heard = before.opened().heard(pcm, n, known);
    assert(heard.asked_rate(n, room) == before.asked_rate(n, room));
    before.lemma_rates(n, room);
    assert(heard.packet_limit(n, room) == before.packet_limit(n, room));
}

/// A voice that is set as such, in one channel, in the first packet of an encoder that is told
/// nothing else, at up to 60000 bits a second, is coded as speech.
pub proof fn voices_are_coded_as_speech(
    before: OpusEncoder,
    after: OpusEncoder,
    pcm: Seq<i16>,
    n: int,
    d0: Seq<u8>,
    d1: Seq<u8>,
    max: int,
    lsb_depth: int,
    info: AnalysisInfo,
    r: Result<Plan, i32>,
)
    requires
        before.wf(),
        after.wf(),
        info.wf(),
        codable_size(n, before.fs as int),
        is_plan(before, after, pcm, n, d0, d1, max, lsb_depth, info, r),
        plan_in(r) is Some,
        before.prev_mode == 0,
        before.channels == 1,
        before.signal_type == OPUS_SIGNAL_VOICE,
        before.user_forced_mode == OPUS_AUTO,
        before.application != crate::modes::OPUS_APPLICATION_RESTRICTED_LOWDELAY,
        before.lfe == 0,
        before.use_dtx == 0,
        before.silk_mode.use_in_band_fec == 0,
        before.use_vbr != 0,
        before.user_bitrate_bps != OPUS_AUTO,
        before.user_bitrate_bps != OPUS_BITRATE_MAX,
        before.user_bitrate_bps < 60000,
        100 * n >= before.fs,
        8 * min_int(max, MAX_PACKET_BYTES as int) * before.fs >= 9000 * n,
    ensures
        after.mode == MODE_SILK_ONLY || after.mode == MODE_HYBRID,
{
    let fs = before.fs as int;
    let room = min_int(max, MAX_PACKET_BYTES as int);
    let known = before.known(info);
    let heard = before.opened().heard(pcm, n, known);
    let rated = heard.budgeted(n, room);
    assert(heard.asked_rate(n, room) == before.asked_rate(n, room));
    assert(heard.dred_share(n, room) == before.dred_share(n, room));
    before.lemma_rates(n, room);
    dred_rate_is_bounded(
        before.silk_mode.use_in_band_fec != 0,
        before.silk_mode.packet_loss_percentage as int,
        fs,
        before.dred_duration as int,
        before.gross_rate(n, room),
        n,
    );
    assert(rated.bitrate_bps < 60000);
    assert(rated.wf()) by {
        lemma_rated_wf(before, pcm, n, known, room);
    }
    rates_part_speech_from_music(
        rated,
        n,
        room,
        heard.dred_share(n, room).bitrate,
        min_int(lsb_depth, rated.lsb_depth as int),
        silent(pcm, n * before.channels),
        known.valid,
    );
    lemma_worth_at_most(
        rated.bitrate_bps as int,
        1,
        fs / n,
        rated.use_vbr as int,
        rated.silk_mode.complexity as int,
        rated.silk_mode.packet_loss_percentage as int,
    );
}

/// What was heard and budgeted is well-formed.
proof fn lemma_rated_wf(before: OpusEncoder, pcm: Seq<i16>, n: int, known: AnalysisInfo, room: int)
    requires
        before.wf(),
        known.wf(),
        codable_size(n, before.fs as int),
        1 <= room <= MAX_PACKET_BYTES,
        before.channels == 1,
        before.opened().heard(pcm, n, known).peak_signal_energy >= 0,
    ensures
        before.opened().heard(pcm, n, known).budgeted(n, room).wf(),
{
    let heard = before.opened().heard(pcm, n, known);
    assert(heard.asked_rate(n, room) == before.asked_rate(n, room));
    assert(heard.dred_share(n, room) == before.dred_share(n, room));
    before.lemma_rates(n, room);
    dred_rate_is_bounded(
        before.silk_mode.use_in_band_fec != 0,
        before.silk_mode.packet_loss_percentage as int,
        before.fs as int,
        before.dred_duration as int,
        before.gross_rate(n, room),
        n,
    );
}

/// A bitrate is worth no more than itself, in a mode that is open.
proof fn lemma_worth_at_most(
    bitrate: int,
    channels: int,
    frame_rate: int,
    vbr: int,
    complexity: int,
    loss: int,
)
    requires
        1 <= channels <= 2,
        0 <= complexity <= 10,
        0 <= loss <= 100,
        bitrate <= 60000,
        vbr != 0,
    ensures
        crate::rates::equiv_rate_of(bitrate, channels, frame_rate, vbr, 0, complexity, loss)
            <= max_int(0, bitrate),
{
    let over = if frame_rate > 50 {
        (40 * channels + 20) * (frame_rate - 50)
    } else {
        0
    };
    assert(over >= 0) by (nonlinear_arith)
        requires
            frame_rate > 50 ==> over == (40 * channels + 20) * (frame_rate - 50),
            frame_rate <= 50 ==> over == 0,
            channels >= 1,
    ;
    let a = bitrate - over;
    let w = a * (90 + complexity);
    assert(a >= 0 ==> 0 <= w <= a * 100) by (nonlinear_arith)
        requires
            w == a * (90 + complexity),
            0 <= complexity <= 10,
    ;
    assert(a < 0 ==> w <= 0) by (nonlinear_arith)
        requires
            w == a * (90 + complexity),
            0 <= complexity <= 10,
    ;
    let c = crate::arith::tdiv(w, 100);
    let d = 12 * loss + 20;
    let p = c * loss;
    assert(c >= 0 ==> p >= 0) by (nonlinear_arith)
        requires
            p == c * loss,
            loss >= 0,
    ;
    assert(p >= 0 ==> p / d >= 0) by (nonlinear_arith)
        requires
            d > 0,
    ;
    assert(c <= 0 ==> p <= 0 && -p <= -c * d) by (nonlinear_arith)
        requires
            p == c * loss,
            0 <= loss <= d,
    ;
    assert(c <= 0 ==> (-p) / d <= -c) by (nonlinear_arith)
        requires
            c <= 0 ==> -p <= -c * d,
            d > 0,
    ;
}

} // verus!
