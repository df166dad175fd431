//! What holds of the bandwidth that is chosen for a packet, and of error correction.

use vstd::prelude::*;
use crate::encoder::OpusEncoder;
use crate::modes::{
    MODE_CELT_ONLY, OPUS_AUTO, OPUS_BANDWIDTH_FULLBAND, OPUS_BANDWIDTH_MEDIUMBAND,
    OPUS_BANDWIDTH_NARROWBAND, OPUS_BANDWIDTH_SUPERWIDEBAND, OPUS_BANDWIDTH_WIDEBAND,
};
use crate::plan::ModeChoice;
use crate::plan_law::{lemma_chosen, lemma_short_is_music};
use crate::rates::{codable_size, fec_pays};
use crate::rates_law::{
    error_correction_pays, error_correction_takes_the_widest, rates_are_bits_by_duration,
};

verus! {

// ---------------------------------------------------------------------------
// The bandwidth for a rate
// ---------------------------------------------------------------------------

/// Whether a rate reaches `base` bits a second, and up to `voice` more by the square of the
/// voice estimate in 128ths. Where a packet was coded before, it takes `margin` less to stay
/// in a band and `margin` more to go to it.
pub open spec fn reaches(
    e: OpusEncoder,
    rate: int,
    v: int,
    bandwidth: int,
    base: int,
    voice: int,
    margin: int,
) -> bool {
    let moved = if e.first != 0 {
        0
    } else if e.auto_bandwidth >= bandwidth {
        -margin
    } else {
        margin
    };
    16384 * (rate + 1 - base - moved) > voice * (v * v)
}

/// A band is taken where its rate is reached: 9000 bits a second for wideband, 11000 to 13500
/// for superwideband, 12000 to 14000 for all, the more the more speaks for voice. The widest
/// of these is taken, and narrowband where none is.
pub proof fn bandwidth_by_rate(e: OpusEncoder, v: int, rate: int)
    requires
        0 <= v <= 127,
    ensures
        ({
            let b = e.rated_bandwidth(v, rate);
            let full = reaches(e, rate, v, OPUS_BANDWIDTH_FULLBAND as int, 12000, 2000, 2000);
            let sup = reaches(e, rate, v, OPUS_BANDWIDTH_SUPERWIDEBAND as int, 11000, 2500, 1000);
            let wide = reaches(e, rate, v, OPUS_BANDWIDTH_WIDEBAND as int, 9000, 0, 700);
            let medium = reaches(e, rate, v, OPUS_BANDWIDTH_MEDIUMBAND as int, 9000, 0, 700);
            &&& b == OPUS_BANDWIDTH_FULLBAND <==> full
            &&& b == OPUS_BANDWIDTH_SUPERWIDEBAND <==> !full && sup
            &&& b == OPUS_BANDWIDTH_WIDEBAND <==> !full && !sup && (wide || medium)
            &&& b == OPUS_BANDWIDTH_NARROWBAND <==> !full && !sup && !wide && !medium
        }),
{
    reveal_with_fuel(OpusEncoder::paid_bandwidth, 6);
    assert(0 <= v * v <= 16129) by (nonlinear_arith)
        requires
            0 <= v <= 127,
    ;
    assert(v * v * 2000 == 2000 * (v * v) && v * v * 2500 == 2500 * (v * v) && 0 * (v * v) == 0)
        by (nonlinear_arith);
}

/// More bits a second never make the band narrower. 16000 are enough for all of it whatever
/// came before and whatever speaks for voice, and below 8300 there is only narrowband.
pub proof fn bandwidth_does_not_fall(e: OpusEncoder, v: int, rate: int, more: int)
    requires
        0 <= v <= 127,
        rate <= more,
    ensures
        e.rated_bandwidth(v, rate) <= e.rated_bandwidth(v, more),
        rate >= 16000 ==> e.rated_bandwidth(v, rate) == OPUS_BANDWIDTH_FULLBAND,
        rate < 8300 ==> e.rated_bandwidth(v, rate) == OPUS_BANDWIDTH_NARROWBAND,
{
    bandwidth_by_rate(e, v, rate);
    bandwidth_by_rate(e, v, more);
    assert(0 <= v * v <= 16129) by (nonlinear_arith)
        requires
            0 <= v <= 127,
    ;
    assert(0 * (v * v) == 0) by (nonlinear_arith);
}

// ---------------------------------------------------------------------------
// The bandwidth of a packet
// ---------------------------------------------------------------------------

/// Whether a bandwidth is within a limit, but that music coding takes wideband for mediumband.
pub open spec fn is_within(after: OpusEncoder, limit: int) -> bool {
    after.bandwidth <= limit || (after.mode == MODE_CELT_ONLY && limit == OPUS_BANDWIDTH_MEDIUMBAND
        && after.bandwidth == OPUS_BANDWIDTH_WIDEBAND)
}

/// The widest band that a sampling rate has room for.
pub open spec fn half_of(fs: int) -> int {
    if fs == 8000 {
        OPUS_BANDWIDTH_NARROWBAND as int
    } else if fs == 12000 {
        OPUS_BANDWIDTH_MEDIUMBAND as int
    } else if fs == 16000 {
        OPUS_BANDWIDTH_WIDEBAND as int
    } else if fs == 24000 {
        OPUS_BANDWIDTH_SUPERWIDEBAND as int
    } else {
        OPUS_BANDWIDTH_FULLBAND as int
    }
}

/// A bandwidth that is asked for is not exceeded, nor, where none is, the widest that is
/// allowed; and never what the sampling rate has room for. Low frequencies are narrowband.
pub proof fn bandwidths_are_limited(
    e: OpusEncoder,
    n: int,
    limit: int,
    dred_bitrate: int,
    lsb_depth: int,
    quiet: bool,
    valid: bool,
)
    requires
        e.wf(),
        codable_size(n, e.fs as int),
    ensures
        ({
            let after = e.planned(n, limit, dred_bitrate, lsb_depth, quiet, valid).0;
            &&& is_within(
                after,
                if e.user_bandwidth != OPUS_AUTO {
                    e.user_bandwidth as int
                } else {
                    e.max_bandwidth as int
                },
            ) || e.lfe != 0
            &&& is_within(after, half_of(e.fs as int))
            &&& e.lfe != 0 ==> after.bandwidth == OPUS_BANDWIDTH_NARROWBAND
            &&& after.mode != MODE_CELT_ONLY && 8 * limit * e.fs < 15000 * n ==> after.bandwidth
                <= OPUS_BANDWIDTH_WIDEBAND
        }),
{
    let (a, c) = e.with_mode(n, limit, e.stereo_width(), quiet, valid);
    let max_rate = crate::rates::bitrate_of(limit * 8, e.fs as int, n);
    lemma_short_is_music(e, n, limit, e.stereo_width(), quiet, valid);
    e.lemma_mode_wf(n, limit, e.stereo_width(), quiet, valid);
    lemma_chosen(a, c, max_rate);
    lemma_low_room(e.fs as int, n, limit);
}

/// The band that the rate gives. It may change with the rate in music, in the first packet,
/// and where the speech coder allows for it; speech goes past wideband only once the speech
/// coder is ready for that. Else the band stays what it was.
pub open spec fn band_for_rate(e: OpusEncoder, music: bool, rate: int) -> int {
    let b = e.rated_bandwidth(e.voice_estimate(), rate);
    if !music && e.first == 0 && e.silk_mode.allow_bandwidth_switch == 0 {
        e.bandwidth as int
    } else if !music && e.first == 0 && e.silk_mode.in_wb_mode_without_variable_lp == 0 && b
        > OPUS_BANDWIDTH_WIDEBAND {
        OPUS_BANDWIDTH_WIDEBAND as int
    } else {
        b
    }
}

/// The band is no narrower than it has to be: every band is within it that is within what was
/// asked for, or else within what is allowed and what the rate gives; within the sampling
/// rate; in speech within wideband where there is no room for 15000 bits a second; and within
/// what the analysis found, where no error correction is to be had.
pub proof fn bandwidths_are_as_wide_as_can_be(
    e: OpusEncoder,
    n: int,
    limit: int,
    dred_bitrate: int,
    lsb_depth: int,
    quiet: bool,
    valid: bool,
    w: int,
)
    requires
        e.wf(),
        codable_size(n, e.fs as int),
        e.lfe == 0,
        e.silk_mode.use_in_band_fec == 0,
        OPUS_BANDWIDTH_NARROWBAND <= w <= half_of(e.fs as int),
        ({
            let (after, plan) = e.planned(n, limit, dred_bitrate, lsb_depth, quiet, valid);
            let music = after.mode == MODE_CELT_ONLY;
            &&& if e.user_bandwidth != OPUS_AUTO {
                w <= e.user_bandwidth
            } else {
                &&& w <= e.max_bandwidth
                &&& w <= band_for_rate(e, music, plan.equiv_rate as int)
                &&& e.detected_bandwidth != 0 ==> w <= e.detected_bandwidth
            }
            &&& !music && 8 * limit * e.fs < 15000 * n ==> w <= OPUS_BANDWIDTH_WIDEBAND
        }),
    ensures
        w <= e.planned(n, limit, dred_bitrate, lsb_depth, quiet, valid).0.bandwidth,
{
    let (a, c) = e.with_mode(n, limit, e.stereo_width(), quiet, valid);
    let max_rate = crate::rates::bitrate_of(limit * 8, e.fs as int, n);
    lemma_short_is_music(e, n, limit, e.stereo_width(), quiet, valid);
    e.lemma_mode_wf(n, limit, e.stereo_width(), quiet, valid);
    lemma_chosen(a, c, max_rate);
    lemma_low_room(e.fs as int, n, limit);
    lemma_same_band(a, e, c.voice_est as int, c.equiv_rate as int);
}

/// Where no bandwidth is asked for, the band is not wider than the rate gives.
pub proof fn bandwidths_are_paid_for(
    e: OpusEncoder,
    n: int,
    limit: int,
    dred_bitrate: int,
    lsb_depth: int,
    quiet: bool,
    valid: bool,
)
    requires
        e.wf(),
        codable_size(n, e.fs as int),
        e.user_bandwidth == OPUS_AUTO,
    ensures
        ({
            let (after, plan) = e.planned(n, limit, dred_bitrate, lsb_depth, quiet, valid);
            is_within(
                after,
                band_for_rate(e, after.mode == MODE_CELT_ONLY, plan.equiv_rate as int),
            )
        }),
{
    let (a, c) = e.with_mode(n, limit, e.stereo_width(), quiet, valid);
    let max_rate = crate::rates::bitrate_of(limit * 8, e.fs as int, n);
    lemma_short_is_music(e, n, limit, e.stereo_width(), quiet, valid);
    e.lemma_mode_wf(n, limit, e.stereo_width(), quiet, valid);
    lemma_chosen(a, c, max_rate);
    lemma_same_band(a, e, c.voice_est as int, c.equiv_rate as int);
}

/// What the analysis found narrows the band, but no more than the rate makes believable: music
/// can be narrowed to what was found up to 18000 bits a second a channel, to mediumband up to
/// 24000; all to wideband up to 30000, to superwideband up to 44000; and above that not at all.
pub proof fn bandwidths_that_were_found(
    e: OpusEncoder,
    n: int,
    limit: int,
    dred_bitrate: int,
    lsb_depth: int,
    quiet: bool,
    valid: bool,
)
    requires
        e.wf(),
        codable_size(n, e.fs as int),
        e.user_bandwidth == OPUS_AUTO,
        e.detected_bandwidth != 0,
    ensures
        ({
            let (after, plan) = e.planned(n, limit, dred_bitrate, lsb_depth, quiet, valid);
            let music = after.mode == MODE_CELT_ONLY;
            let rate = plan.equiv_rate;
            let c = after.stream_channels;
            let found = e.detected_bandwidth as int;
            let least = after.detected_bandwidth as int;
            &&& is_within(after, least)
            &&& found <= least
            &&& found < least ==> {
                &&& music && rate <= 18000 * c ==> false
                &&& music && rate <= 24000 * c ==> least == OPUS_BANDWIDTH_MEDIUMBAND
                &&& (!music || rate > 24000 * c) && rate <= 30000 * c ==> least
                    == OPUS_BANDWIDTH_WIDEBAND
                &&& 30000 * c < rate <= 44000 * c ==> least == OPUS_BANDWIDTH_SUPERWIDEBAND
                &&& rate > 44000 * c ==> least == OPUS_BANDWIDTH_FULLBAND
            }
            &&& music && rate > 18000 * c ==> least >= OPUS_BANDWIDTH_MEDIUMBAND
            &&& !music || rate > 24000 * c ==> least >= OPUS_BANDWIDTH_WIDEBAND
            &&& rate > 30000 * c ==> least >= OPUS_BANDWIDTH_SUPERWIDEBAND
            &&& rate > 44000 * c ==> least == OPUS_BANDWIDTH_FULLBAND
        }),
{
    let (a, c) = e.with_mode(n, limit, e.stereo_width(), quiet, valid);
    let max_rate = crate::rates::bitrate_of(limit * 8, e.fs as int, n);
    lemma_short_is_music(e, n, limit, e.stereo_width(), quiet, valid);
    e.lemma_mode_wf(n, limit, e.stereo_width(), quiet, valid);
    lemma_chosen(a, c, max_rate);
}

/// Encoders that differ in nothing that matters to the band take the same.
proof fn lemma_same_band(a: OpusEncoder, e: OpusEncoder, v: int, rate: int)
    requires
        a.first == e.first,
        a.auto_bandwidth == e.auto_bandwidth,
    ensures
        a.rated_bandwidth(v, rate) == e.rated_bandwidth(v, rate),
{
    reveal_with_fuel(OpusEncoder::paid_bandwidth, 6);
}

/// What a limit in bytes says as a rate.
proof fn lemma_low_room(fs: int, n: int, limit: int)
    requires
        crate::rates::valid_fs(fs),
        codable_size(n, fs),
    ensures
        8 * limit * fs < 15000 * n <==> crate::rates::bitrate_of(limit * 8, fs, n) < 15000,
{
    let rate = crate::rates::bitrate_of(limit * 8, fs, n);
    if limit >= 0 {
        rates_are_bits_by_duration(limit * 8, n, fs);
        assert(rate < 15000 ==> (rate + 1) * n <= 15000 * n) by (nonlinear_arith)
            requires
                n > 0,
        ;
        assert(rate >= 15000 ==> rate * n >= 15000 * n) by (nonlinear_arith)
            requires
                n > 0,
        ;
    } else {
        let q = 6 * fs / n;
        assert(q >= 0) by (nonlinear_arith)
            requires
                q == 6 * fs / n,
                n > 0,
                fs > 0,
        ;
        assert((limit * 8) * q <= 0) by (nonlinear_arith)
            requires
                limit < 0,
                q >= 0,
        ;
        assert(8 * limit * fs < 0) by (nonlinear_arith)
            requires
                limit < 0,
                fs > 0,
        ;
    }
}

// ---------------------------------------------------------------------------
// Error correction
// ---------------------------------------------------------------------------

/// The same encoder without error correction.
pub open spec fn uncorrected(a: OpusEncoder) -> OpusEncoder {
    OpusEncoder {
        silk_mode: crate::coders::SilkEncControlStruct { use_in_band_fec: 0, ..a.silk_mode },
        ..a
    }
}

/// There is error correction just where it is asked for, packets are lost, speech is coded,
/// and it pays at the band that would be taken without it; or at a narrower one where more
/// than a twentieth is lost, which is then taken. Else the band stays.
pub proof fn error_correction_by_rate(a: OpusEncoder, c: ModeChoice, max_rate: int, lsb_depth: int)
    requires
        a.wf(),
        a.lfe == 0,
        crate::encoder::valid_mode(c.mode as int),
    ensures
        ({
            let after = a.with_bandwidth(c, max_rate, lsb_depth);
            let plain = uncorrected(a).with_bandwidth(c, max_rate, lsb_depth).bandwidth as int;
            let loss = a.silk_mode.packet_loss_percentage as int;
            let last = a.silk_mode.lbrr_coded as int;
            let rate = c.equiv_rate as int;
            let b = after.bandwidth as int;
            if a.silk_mode.use_in_band_fec == 0 || loss == 0 || c.mode == MODE_CELT_ONLY {
                after.silk_mode.lbrr_coded == 0 && b == plain
            } else if after.silk_mode.lbrr_coded == 1 {
                &&& b <= plain
                &&& fec_pays(last, loss, b, rate)
                &&& forall|w: int| b < w <= plain ==> !#[trigger] fec_pays(last, loss, w, rate)
                &&& b < plain ==> loss > 5
            } else {
                &&& after.silk_mode.lbrr_coded == 0
                &&& b == plain
                &&& !fec_pays(last, loss, plain, rate)
                &&& loss > 5 ==> forall|w: int|
                    OPUS_BANDWIDTH_NARROWBAND <= w <= plain ==> !#[trigger] fec_pays(
                        last,
                        loss,
                        w,
                        rate,
                    )
            }
        }),
{
    let u = uncorrected(a);
    lemma_chosen(a, c, max_rate);
    lemma_chosen(u, c, max_rate);
    lemma_same_band(u, a, c.voice_est as int, c.equiv_rate as int);
    assert(u.limited_bandwidth(c, max_rate) == a.limited_bandwidth(c, max_rate));
    let b = a.limited_bandwidth(c, max_rate);
    let b = if a.detected_bandwidth != 0 && a.user_bandwidth == OPUS_AUTO {
        crate::arith::min_int(b, a.believed_bandwidth(c))
    } else {
        b
    };
    error_correction_takes_the_widest(
        a.silk_mode.lbrr_coded as int,
        a.silk_mode.packet_loss_percentage as int,
        b,
        c.equiv_rate as int,
    );
}

/// What is asked for is done: with error correction set and packets lost, speech above 30000
/// bits a second is corrected, and below 10800 it is not; and music never is.
pub proof fn error_correction_is_turned_on(
    e: OpusEncoder,
    n: int,
    limit: int,
    dred_bitrate: int,
    lsb_depth: int,
    quiet: bool,
    valid: bool,
)
    requires
        e.wf(),
        codable_size(n, e.fs as int),
        e.lfe == 0,
    ensures
        ({
            let (after, plan) = e.planned(n, limit, dred_bitrate, lsb_depth, quiet, valid);
            let asked = e.silk_mode.use_in_band_fec != 0 && e.silk_mode.packet_loss_percentage > 0
                && after.mode != MODE_CELT_ONLY;
            let on = after.silk_mode.lbrr_coded;
            &&& on == 0 || on == 1
            &&& !asked ==> on == 0
            &&& asked && plan.equiv_rate > 30000 ==> on == 1
            &&& asked && plan.equiv_rate <= 10800 ==> on == 0
        }),
{
    let (a, c) = e.with_mode(n, limit, e.stereo_width(), quiet, valid);
    let max_rate = crate::rates::bitrate_of(limit * 8, e.fs as int, n);
    lemma_short_is_music(e, n, limit, e.stereo_width(), quiet, valid);
    e.lemma_mode_wf(n, limit, e.stereo_width(), quiet, valid);
    error_correction_by_rate(a, c, max_rate, lsb_depth);
    let loss = a.silk_mode.packet_loss_percentage as int;
    let last = a.silk_mode.lbrr_coded as int;
    let rate = c.equiv_rate as int;
    let plain = uncorrected(a).with_bandwidth(c, max_rate, lsb_depth).bandwidth as int;
    let b = a.with_bandwidth(c, max_rate, lsb_depth).bandwidth as int;
    error_correction_pays(last, loss, plain, rate);
    error_correction_pays(last, loss, b, rate);
}

} // verus!
