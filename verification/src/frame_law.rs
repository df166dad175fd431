//! What holds of every frame: how it starts, in which order it is coded, what fits in it, and
//! how it ends.

use vstd::prelude::*;
use crate::arith::{ilog2, max_int, min_int};
use crate::coders::{AnalysisInfo, INITIAL_HP_SMTH};
use crate::dsp::{cutoff_filter, dc_rejected, energy_of, high_passed, Biquad};
use crate::encoder::OpusEncoder;
use crate::finish::{stripped, Ending, FrameEnd};
use crate::frame::{activity_byte, FrameRun, MAX_SINGLE_BYTES};
use crate::modes::{
    MODE_CELT_ONLY, MODE_HYBRID, MODE_SILK_ONLY, OPUS_APPLICATION_RESTRICTED_LOWDELAY,
    OPUS_APPLICATION_VOIP, OPUS_AUTO, OPUS_BITRATE_MAX, VAD_NO_DECISION,
};
use crate::plan::{is_plan, FramePlan, Plan, MAX_PACKET_BYTES};
use crate::plan_law::{constant_bytes, constant_rates_fix_the_bytes, lemma_quotient};
use crate::rates::{bits_of, codable_size, redundancy_bytes_of};
use crate::rates_law::bits_are_rate_times_duration;
use crate::stages::{rank, Stage};

verus! {

/// What the coders report of a frame: the bits that were written when a short frame was to
/// be announced, when it was, and when its size was told; and how the frame ended.
pub ghost struct CoderReport {
    pub before: int,
    pub announced: int,
    pub sized: int,
    pub end: FrameEnd,
}

impl CoderReport {
    /// The frame once it is settled whether a short frame comes along.
    pub open spec fn settled(self, e: OpusEncoder, run: FrameRun) -> FrameRun {
        e.settled(run, e.announces(run, self.before), self.announced)
    }

    /// Whether the coders kept to what they were told. The range coder starts with one bit
    /// written, and loses none. In speech frames a short frame is announced in one bit, and
    /// nothing is written behind that; other frames have the bytes of the main frame at most.
    pub open spec fn heeds(self, e: OpusEncoder, run: FrameRun) -> bool {
        let main = e.main_bytes(self.settled(e, run), self.sized);
        &&& 1 <= self.before <= self.announced <= self.sized <= self.end.bits_used
        &&& if e.mode == MODE_SILK_ONLY {
            &&& self.announced <= self.before + 1
            &&& self.sized == self.announced
            &&& self.end.bytes == main
        } else {
            0 <= self.end.bytes <= max_int(0, main)
        }
    }
}

proof fn lemma_stripped(data: Seq<u8>, n: int)
    requires
        n >= 0,
    ensures
        0 <= stripped(data, n) <= n,
    decreases n,
{
    if n > 2 {
        lemma_stripped(data, n - 1);
    }
}

/// Where the coders keep to what they are told, the packet of a frame that is sent fits in
/// the bytes that the frame may take, with its short frame.
pub proof fn coded_frames_fit(e: OpusEncoder, run: FrameRun, report: CoderReport, data: Seq<u8>)
    requires
        1 <= run.max_data_bytes <= MAX_SINGLE_BYTES,
        report.heeds(e, run),
        OpusEncoder::overran(run, report.end) ==> run.max_data_bytes >= 2,
    ensures
        1 <= e.packet_bytes(report.settled(e, run), report.end, data) <= run.max_data_bytes,
{
    lemma_stripped(data, report.end.bytes as int);
}

/// At a bitrate that may not vary, where the coders keep to what they are told, a frame of
/// 20 ms that is sent has the size that the bitrate and the room for it come to, whatever
/// the signal.
pub proof fn constant_rates_fix_the_frames(
    before: OpusEncoder,
    planned: OpusEncoder,
    pcm: Seq<i16>,
    d0: Seq<u8>,
    d1: Seq<u8>,
    max: int,
    lsb_depth: int,
    info: AnalysisInfo,
    plan: FramePlan,
    e: OpusEncoder,
    run: FrameRun,
    report: CoderReport,
    data: Seq<u8>,
)
    requires
        before.wf(),
        before.use_vbr == 0,
        before.user_bitrate_bps != OPUS_AUTO,
        before.user_bitrate_bps != OPUS_BITRATE_MAX,
        max >= 1,
        is_plan(
            before,
            planned,
            pcm,
            before.fs as int / 50,
            d0,
            d1,
            max,
            lsb_depth,
            info,
            Ok::<Plan, i32>(Plan::Single(plan)),
        ),
        e.use_vbr == planned.use_vbr,
        run.orig_max_data_bytes == plan.max_data_bytes,
        run.max_data_bytes == min_int(plan.max_data_bytes as int, MAX_SINGLE_BYTES as int),
        report.heeds(e, run),
        OpusEncoder::overran(run, report.end) ==> run.max_data_bytes >= 2,
    ensures
        ({
            let r = report.settled(e, run);
            let len = e.packet_bytes(r, report.end, data);
            &&& len <= MAX_SINGLE_BYTES
            &&& e.sent_bytes(r, Ending::Sent(len as i32)) == constant_bytes(
                before.user_bitrate_bps as int,
                min_int(max, MAX_PACKET_BYTES as int),
            )
        }),
{
    constant_rates_fix_the_bytes(
        before,
        planned,
        pcm,
        d0,
        d1,
        max,
        lsb_depth,
        info,
        Ok::<Plan, i32>(Plan::Single(plan)),
    );
    coded_frames_fit(e, run, report, data);
    assert(planned.use_vbr == 0);
}

// ---------------------------------------------------------------------------
// The start of a frame
// ---------------------------------------------------------------------------

/// A frame aims at what the bitrate comes to while it lasts, as far as that fits behind a short
/// frame, but for its first byte. A short frame comes along where the plan says so or the
/// speech coder has changed its bandwidth, never with music, and only where it is worth while.
pub proof fn frames_start_by_the_plan(e: OpusEncoder, n: int, plan: FramePlan, activity: i32)
    requires
        e.wf(),
        codable_size(n, e.fs as int),
        0 <= e.bitrate_bps,
        1 <= plan.max_data_bytes <= MAX_PACKET_BYTES,
    ensures
        ({
            let run = e.started(n, plan, activity);
            let switch = e.silk_bw_switch != 0;
            let aim = run.bits_target + 8;
            let room = 8 * (run.max_data_bytes - run.redundancy_bytes);
            &&& run.frame_size == n
            &&& run.orig_max_data_bytes == plan.max_data_bytes
            &&& run.max_data_bytes <= plan.max_data_bytes
            &&& run.max_data_bytes <= 1276
            &&& run.max_data_bytes == plan.max_data_bytes || run.max_data_bytes == 1276
            &&& aim <= room
            &&& aim * e.fs <= e.bitrate_bps * n
            &&& aim < room ==> e.bitrate_bps * n < (aim + 1) * e.fs
            &&& run.redundancy == (run.redundancy_bytes != 0)
            &&& run.redundancy ==> (plan.redundancy || switch) && e.mode != MODE_CELT_ONLY
            &&& e.mode != MODE_CELT_ONLY && (plan.redundancy || switch) ==> run.redundancy_bytes
                == redundancy_bytes_of(
                run.max_data_bytes as int,
                e.bitrate_bps as int,
                e.fs as int / n,
                e.stream_channels as int,
            )
            &&& run.celt_to_silk == (plan.celt_to_silk || switch)
            &&& run.to_celt == plan.to_celt
            &&& run.prefill == if switch {
                2
            } else {
                plan.prefill
            }
            &&& run.bandwidth == e.bandwidth
            &&& run.equiv_rate == plan.equiv_rate
            &&& run.dred_bitrate_bps == plan.dred_bitrate_bps
            &&& run.activity == activity
            &&& run.hb_gain == 32767
        }),
{
    let fs = e.fs as int;
    bits_are_rate_times_duration(e.bitrate_bps as int, n, fs);
    let bits = bits_of(e.bitrate_bps as int, fs, n);
    let aim = e.started(n, plan, activity).bits_target + 8;
    assert(0 <= bits <= 240000) by {
        assert(bits >= 0) by (nonlinear_arith)
            requires
                e.bitrate_bps * n < (bits + 1) * fs,
                e.bitrate_bps * n >= 0,
                fs > 0,
        ;
        assert(e.bitrate_bps * n >= 0 && e.bitrate_bps * n <= 2000000 * n) by (nonlinear_arith)
            requires
                0 <= e.bitrate_bps <= 2000000,
                n >= 0,
        ;
        assert(bits * fs <= 240000 * fs) by {
            assert(50 * n <= 6 * fs);
        }
        assert(bits <= 240000) by (nonlinear_arith)
            requires
                bits * fs <= 240000 * fs,
                fs > 0,
        ;
    }
    assert(aim <= bits);
    assert(aim * fs <= bits * fs) by (nonlinear_arith)
        requires
            aim <= bits,
            fs > 0,
    ;
}

/// Silence is no activity. What the analysis finds active is active. Where music is coded and
/// there is no analysis, a frame is active where its energy is above a 158th of the peak, but
/// for rounding. Speech that is not analysed is left to the speech coder.
pub proof fn activity_by_loudness(
    e: OpusEncoder,
    pcm: Seq<i16>,
    n: int,
    quiet: bool,
    info: AnalysisInfo,
)
    ensures
        ({
            let a = e.activity_of(pcm, n, quiet, info);
            let energy = energy_of(pcm, n * e.channels);
            let peak = e.peak_signal_energy as int;
            &&& quiet ==> a == 0
            &&& !quiet && info.valid && info.active_or_at ==> a == 1
            &&& !quiet && !info.valid && e.mode == MODE_CELT_ONLY ==> {
                &&& a == 0 || a == 1
                &&& energy >= 2 && 158 * (energy - 1) > peak ==> a == 1
                &&& 158 * energy <= peak ==> a == 0
            }
            &&& !quiet && !info.valid && e.mode != MODE_CELT_ONLY ==> a == VAD_NO_DECISION
        }),
{
}

/// The cutoff of the high-pass filter follows the pitch of speech slowly: it never goes past
/// it, and never away from it.
pub proof fn cutoffs_follow_the_pitch(e: OpusEncoder)
    ensures
        ({
            let (old, new, aim) = (
                e.variable_hp_smth2_q15 as int,
                e.hp_smoothed(),
                e.hp_aim(),
            );
            &&& old <= aim ==> old <= new <= aim && 70 * (new - old) >= aim - old - 70 && 60 * (new
                - old) <= aim - old
            &&& aim <= old ==> aim <= new <= old && 60 * (old - new) <= old - aim + 60
            &&& e.mode == MODE_CELT_ONLY ==> aim == INITIAL_HP_SMTH
            &&& e.mode != MODE_CELT_ONLY ==> (e.silk_enc matches Some(s) ==> aim
                == s.variable_hp_smth1_q15)
        }),
{
    let d = e.hp_aim() - e.variable_hp_smth2_q15;
    let s = d * 983 / 65536;
    assert(65536 * s <= d * 983 < 65536 * (s + 1));
}

/// The input is delayed by 4 ms, unless delay comes first.
pub proof fn delay_by_application(e: OpusEncoder)
    requires
        e.wf(),
    ensures
        e.application == OPUS_APPLICATION_RESTRICTED_LOWDELAY ==> e.delay() == 0,
        e.application != OPUS_APPLICATION_RESTRICTED_LOWDELAY ==> 250 * e.delay() == e.fs,
{
}

// ---------------------------------------------------------------------------
// Stages
// ---------------------------------------------------------------------------

/// The order of a frame: the speech coder is told, warmed up and run; then the frame is shaped
/// for music; a short frame that leads comes before the main frame, one that trails behind it;
/// and the music coder is aimed and warmed up before it codes.
pub proof fn stages_come_in_order()
    ensures
        rank(Stage::Start) < rank(Stage::Tell) < rank(Stage::WarmSpeech),
        rank(Stage::WarmSpeech) < rank(Stage::Speech) < rank(Stage::Shape),
        rank(Stage::Shape) < rank(Stage::LeadShort) < rank(Stage::Aim),
        rank(Stage::Aim) < rank(Stage::WarmMusic) < rank(Stage::Music),
        rank(Stage::Music) < rank(Stage::TrailShort) < rank(Stage::End),
{
}

/// Speech is coded in all frames but those of music, music in all but those of speech alone,
/// both in hybrid frames. The speech coder is warmed up where that was planned. A short frame
/// leads into speech, and trails on the way to music.
pub proof fn stages_by_mode(e: OpusEncoder, run: FrameRun)
    requires
        e.wf(),
    ensures
        e.takes_stage(run, Stage::Speech) == (e.mode != MODE_CELT_ONLY),
        e.takes_stage(run, Stage::Tell) == (e.mode != MODE_CELT_ONLY),
        e.takes_stage(run, Stage::Music) == (e.mode != MODE_SILK_ONLY),
        e.takes_stage(run, Stage::WarmSpeech) == (e.mode != MODE_CELT_ONLY && run.prefill != 0),
        e.takes_stage(run, Stage::LeadShort) == (run.redundancy && run.celt_to_silk),
        e.takes_stage(run, Stage::TrailShort) == (run.redundancy && !run.celt_to_silk),
        e.takes_stage(run, Stage::WarmMusic) == e.warms_up(),
        e.takes_stage(run, Stage::Shape) && e.takes_stage(run, Stage::Aim) && e.takes_stage(
            run,
            Stage::End,
        ),
{
}

// ---------------------------------------------------------------------------
// Short frames
// ---------------------------------------------------------------------------

/// A short frame is announced where there are bits for it and two bytes of its own: 17 in
/// speech, 37 in hybrid frames, never in music. It then has the bytes that were meant for it,
/// as far as there is room, and otherwise it is given up.
pub proof fn short_frames_are_announced(e: OpusEncoder, run: FrameRun, tell: int, later: int)
    requires
        e.wf(),
        0 <= tell <= later <= 1_000_000,
        1 <= run.max_data_bytes <= MAX_SINGLE_BYTES,
        run.redundancy ==> 2 <= run.redundancy_bytes <= 257,
    ensures
        ({
            let can = e.announces(run, tell);
            let s = e.settled(run, can, later);
            let bits = 8 * (run.max_data_bytes - 1);
            let taken = later + if e.mode == MODE_HYBRID {
                11int
            } else {
                0
            };
            &&& e.mode == MODE_CELT_ONLY ==> !can
            &&& e.mode == MODE_SILK_ONLY ==> can == (bits - tell >= 17)
            &&& e.mode == MODE_HYBRID ==> can == (bits - tell >= 37)
            &&& s.redundancy == (can && run.redundancy)
            &&& !s.redundancy ==> s.redundancy_bytes == 0
            &&& s.redundancy ==> {
                &&& 2 <= s.redundancy_bytes <= run.redundancy_bytes
                &&& s.redundancy_bytes < run.redundancy_bytes && s.redundancy_bytes > 2 ==> 8
                    * s.redundancy_bytes <= bits - taken < 8 * (s.redundancy_bytes + 1)
                &&& 8 * run.redundancy_bytes <= bits - taken ==> s.redundancy_bytes
                    == run.redundancy_bytes
            }
            &&& s.celt_to_silk == run.celt_to_silk
            &&& s.max_data_bytes == run.max_data_bytes
        }),
{
}

/// The main frame has all that a short frame leaves; of speech what was written. Redundancy is
/// spared some of that, but the main frame keeps five bytes behind what was written.
pub proof fn main_frames_have_the_rest(e: OpusEncoder, run: FrameRun, tell: int)
    requires
        e.wf(),
        0 <= tell,
        0 <= run.redundancy_bytes <= 257,
        0 <= run.dred_bitrate_bps,
        codable_size(run.frame_size as int, e.fs as int),
    ensures
        ({
            let b = e.main_bytes(run, tell);
            let rest = run.max_data_bytes - 1 - run.redundancy_bytes;
            &&& e.mode == MODE_SILK_ONLY ==> 8 * (b - 1) < tell <= 8 * b
            &&& e.mode != MODE_SILK_ONLY && e.dred_duration == 0 ==> b == rest
            &&& e.mode != MODE_SILK_ONLY ==> {
                &&& b <= rest
                &&& b == rest || 8 * b >= tell + 40
                // No more than three quarters of the redundancy are spared.
                &&& 32 * (rest - b) * e.fs <= 3 * run.dred_bitrate_bps * run.frame_size
            }
        }),
{
    let (n, fs) = (run.frame_size as int, e.fs as int);
    let d = run.dred_bitrate_bps as int;
    bits_are_rate_times_duration(d, n, fs);
    let bits = bits_of(d, fs, n);
    assert(bits >= 0) by (nonlinear_arith)
        requires
            d * n < (bits + 1) * fs,
            d * n >= 0,
            fs > 0,
    ;
    assert(d * n >= 0) by (nonlinear_arith)
        requires
            d >= 0,
            n >= 0,
    ;
    let b = e.main_bytes(run, tell);
    let rest = run.max_data_bytes - 1 - run.redundancy_bytes;
    if e.mode != MODE_SILK_ONLY {
        assert(32 * (rest - b) <= 3 * bits);
        assert(32 * (rest - b) * fs <= 3 * bits * fs) by (nonlinear_arith)
            requires
                32 * (rest - b) <= 3 * bits,
                fs > 0,
        ;
        assert(3 * bits * fs == 3 * (bits * fs) && 3 * d * n == 3 * (d * n)) by (nonlinear_arith);
    }
}

// ---------------------------------------------------------------------------
// The end of a frame
// ---------------------------------------------------------------------------

/// A packet is its first byte, what was coded, and the short frame. From speech alone only
/// zeros are taken, from its end, and at least two bytes stay. A frame that took too many bits
/// is a single zero.
pub proof fn packets_hold_what_was_coded(
    e: OpusEncoder,
    run: FrameRun,
    end: FrameEnd,
    data: Seq<u8>,
)
    requires
        0 <= end.bytes,
    ensures
        ({
            let len = e.packet_bytes(run, end, data);
            let short = if run.redundancy {
                run.redundancy_bytes as int
            } else {
                0
            };
            let coded = len - 1 - short;
            let too_many = end.bits_used > 8 * (run.max_data_bytes - 1);
            &&& too_many ==> coded == 1
            &&& !too_many && (e.mode != MODE_SILK_ONLY || run.redundancy) ==> coded == end.bytes
            &&& !too_many && e.mode == MODE_SILK_ONLY && !run.redundancy ==> {
                &&& coded <= end.bytes
                &&& end.bytes >= 2 ==> coded >= 2
                &&& end.bytes < 2 ==> coded == end.bytes
                &&& forall|i: int| coded < i <= end.bytes ==> data[i] == 0
                &&& coded > 2 ==> data[coded] != 0
            }
        }),
{
    lemma_stripped_zeros(data, end.bytes as int);
}

proof fn lemma_stripped_zeros(data: Seq<u8>, n: int)
    requires
        n >= 0,
    ensures
        ({
            let k = stripped(data, n);
            &&& 0 <= k <= n
            &&& n >= 2 ==> k >= 2
            &&& n < 2 ==> k == n
            &&& forall|i: int| k < i <= n ==> data[i] == 0
            &&& k > 2 ==> data[k] != 0
        }),
    decreases n,
{
    if n > 2 && data[n] == 0 {
        lemma_stripped_zeros(data, n - 1);
    }
}

/// What the next frame follows: the mode of this one, or music where this one was the last on
/// the way to it; its channels, and its size.
pub proof fn the_next_frame_follows(e: OpusEncoder, run: FrameRun, end: FrameEnd)
    requires
        e.wf(),
    ensures
        ({
            let after = e.ended(run, end);
            &&& (after.prev_mode == MODE_CELT_ONLY <==> run.to_celt || e.mode == MODE_CELT_ONLY)
            &&& !run.to_celt ==> after.prev_mode == e.mode
            &&& after.prev_channels == e.stream_channels
            &&& after.prev_framesize == run.frame_size
            &&& after.first == 0
            &&& after.mode == e.mode
            &&& after.bandwidth == e.bandwidth
            &&& after.same_choices(e)
        }),
{
}

/// Redundancy has a chunk for each 10 ms that it should reach back, and one more, up to 26;
/// where packets vary in size, no more than it pays for.
pub proof fn chunks_by_duration(e: OpusEncoder)
    requires
        e.wf(),
    ensures
        ({
            let c = e.dred_chunks();
            &&& c <= 26
            &&& 4 * (c - 1) <= e.dred_duration + 1
            &&& e.use_vbr == 0 ==> c == 26 || 4 * c > e.dred_duration + 1
            &&& e.use_vbr != 0 ==> c <= e.dred_target_chunks && (c == e.dred_target_chunks || c
                == 26 || 4 * c > e.dred_duration + 1)
        }),
{
}

/// The record of activity has an entry for each 2.5 ms.
pub proof fn activity_is_recorded(e: OpusEncoder, n: int, activity: int)
    requires
        e.wf(),
        codable_size(n, e.fs as int),
    ensures
        e.ticks(n) * e.fs == 400 * n,
        activity == 0 ==> activity_byte(activity) == 0,
        activity == 1 ==> activity_byte(activity) == 1,
        activity == VAD_NO_DECISION ==> activity_byte(activity) == 255,
{
    let fs = e.fs as int;
    if 400 * n == fs {
        lemma_quotient(n * 400, fs, 1);
    } else if 200 * n == fs {
        lemma_quotient(n * 400, fs, 2);
    } else if 100 * n == fs {
        lemma_quotient(n * 400, fs, 4);
    } else if 50 * n == fs {
        lemma_quotient(n * 400, fs, 8);
    } else if 25 * n == fs {
        lemma_quotient(n * 400, fs, 16);
    } else if 50 * n == 3 * fs {
        lemma_quotient(n * 400, fs, 24);
    } else if 50 * n == 4 * fs {
        lemma_quotient(n * 400, fs, 32);
    } else if 50 * n == 5 * fs {
        lemma_quotient(n * 400, fs, 40);
    } else {
        lemma_quotient(n * 400, fs, 48);
    }
}

/// Redundancy has all the bytes that a packet has left, up to a thousand, but for three bytes
/// and one for each 255; and a packet carries it where it has its model, a duration, and at
/// least a chunk and ten bytes, in its first frame.
pub proof fn redundancy_has_the_rest(e: OpusEncoder, run: FrameRun, len: int)
    requires
        e.wf(),
        len + 3 <= run.orig_max_data_bytes <= MAX_PACKET_BYTES,
        0 <= len,
    ensures
        ({
            let left = OpusEncoder::dred_bytes_left(run, len);
            let rest = run.orig_max_data_bytes - len;
            &&& left + 3 <= rest
            &&& left <= 1000
            &&& rest >= 1010 ==> left >= 996
            &&& rest < 1003 ==> 255 * (rest - 3 - left) <= rest < 255 * (rest - 2 - left)
            &&& e.carries_dred(run, len) ==> left >= 10 && e.dred_duration > 0 && e.first_frame_flag
            &&& e.first_frame_flag && e.has_dred() && e.dred_chunks() >= 1 && left >= 10
                ==> e.carries_dred(run, len)
        }),
{
}

/// A short frame is the end of its packet: it stands right behind what was coded, and is told
/// apart by nothing else.
pub proof fn short_frames_end_packets(
    e: OpusEncoder,
    run: FrameRun,
    end: FrameEnd,
    data: Seq<u8>,
    main_bytes: int,
)
    requires
        run.redundancy,
        !OpusEncoder::overran(run, end),
        e.mode == MODE_HYBRID || end.bytes == main_bytes,
    ensures
        e.short_frame_at(main_bytes, end.bytes as int) + run.redundancy_bytes == e.packet_bytes(
            run,
            end,
            data,
        ),
        e.short_frame_at(main_bytes, end.bytes as int) == 1 + end.bytes,
{
}

/// Redundancy is the extension of number 126 of the first frame: a D, the version, and then
/// its bytes.
pub proof fn redundancy_is_an_extension(version: u8, payload: Seq<u8>)
    ensures
        ({
            let x = OpusEncoder::dred_item(version, payload);
            &&& x.id == 126
            &&& x.frame == 0
            &&& x.len == x.data.len()
            &&& x.data.len() == payload.len() + 2
            &&& x.data[0] == 0x44
            &&& x.data[1] == version
            &&& x.data.skip(2) =~= payload
        }),
{
}

/// Calls go through the variable high-pass filter, everything else through one that takes out
/// what does not change, at 3 Hz: a power of two samples is about a twelfth of a second.
pub proof fn filters_by_application(
    e: OpusEncoder,
    pcm: Seq<i16>,
    n: int,
    out: Seq<i16>,
    after: [i32; 4],
)
    requires
        e.wf(),
        e.filters(pcm, n, out, after),
    ensures
        e.application == OPUS_APPLICATION_VOIP ==> exists|f: Biquad, hz: int|
            #![trigger cutoff_filter(f, hz, e.fs as int)]
            cutoff_filter(f, hz, e.fs as int) && high_passed(
                f,
                pcm,
                out,
                e.hp_mem,
                after,
                n,
                e.channels as int,
            ),
        e.application != OPUS_APPLICATION_VOIP ==> exists|sh: int|
            #![trigger dc_rejected(pcm, out, e.hp_mem, after, n, e.channels as int, sh)]
            dc_rejected(pcm, out, e.hp_mem, after, n, e.channels as int, sh) && 9 <= sh <= 11
                && (e.fs == 48000 <==> sh == 11),
{
    reveal_with_fuel(ilog2, 14);
    assert(ilog2(666) == 9 && ilog2(1000) == 9 && ilog2(1333) == 10 && ilog2(2000) == 10 && ilog2(
        4000,
    ) == 11);
    assert(8000int / 12 == 666 && 12000int / 12 == 1000 && 16000int / 12 == 1333 && 24000int / 12
        == 2000 && 48000int / 12 == 4000);
    if e.application != OPUS_APPLICATION_VOIP {
        let sh = ilog2(e.fs as int / 12);
        assert(dc_rejected(pcm, out, e.hp_mem, after, n, e.channels as int, sh));
    }
}

} // verus!
