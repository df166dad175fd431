//! What holds of silence: how it is counted, when it shows, and how long frames are left out.

use vstd::prelude::*;
use crate::coders::{AnalysisInfo, SilkEncoder};
use crate::dsp::silent;
use crate::encoder::OpusEncoder;
use crate::finish::FrameEnd;
use crate::frame::FrameRun;
use crate::modes::{MODE_CELT_ONLY, MODE_HYBRID, MODE_SILK_ONLY, VAD_NO_DECISION};
use crate::plan::{frame_domain, is_plan, FramePlan, Plan};
use crate::rates::{dtx_end, dtx_start, inactive_for};

verus! {

/// Half milliseconds without activity after `k` more frames of `h` half milliseconds
/// without any.
pub open spec fn inactive_after(count: int, h: int, k: int) -> int
    decreases k,
{
    if k <= 0 {
        count
    } else {
        let n = inactive_for(0, inactive_after(count, h, k - 1), h);
        if n > dtx_end() {
            dtx_start()
        } else {
            n
        }
    }
}

/// However long nothing is said, a frame is sent from time to time: frames that are left
/// out in a row start within 400 ms. Of frames of 20 ms, no more than twenty are.
pub proof fn silence_is_refreshed(count: int, h: int, k: int)
    requires
        0 <= count <= dtx_end(),
        h > 0,
        k >= 1,
        forall|i: int|
            0 <= i < k ==> dtx_start() < #[trigger] inactive_for(
                0,
                inactive_after(count, h, i),
                h,
            ) <= dtx_end(),
    ensures
        (k - 1) * h < 800,
        h == 40 ==> k <= 20,
{
    lemma_inactive(count, h, k);
    assert(inactive_for(0, inactive_after(count, h, 0), h) > dtx_start());
    assert(k * h == (k - 1) * h + h) by (nonlinear_arith);
    if h == 40 {
        assert((k - 1) * 40 < 800);
    }
}

/// An encoder that is to leave frames out, where the speech coder does not, says that it does
/// once 200 ms have passed without activity, and goes on saying so for as long as there is
/// none: after ten frames of 20 ms, not before.
pub proof fn silence_shows(e: OpusEncoder, h: int, k: int)
    requires
        h > 0,
        k >= 0,
        e.use_dtx != 0,
        e.silk_mode.use_dtx == 0,
        e.nb_no_activity_ms_q1 == inactive_after(0, h, k),
    ensures
        e.leaves_out() == (k * h >= dtx_start()),
        k * h <= dtx_end() ==> e.nb_no_activity_ms_q1 == k * h,
        h == 40 ==> e.leaves_out() == (k >= 10),
{
    lemma_quiet(h, k);
    if h == 40 {
        assert(k * 40 >= 400 <==> k >= 10);
    }
}

proof fn lemma_quiet(h: int, k: int)
    requires
        h > 0,
        k >= 0,
    ensures
        k * h <= dtx_end() ==> inactive_after(0, h, k) == k * h,
        k * h > dtx_end() ==> inactive_after(0, h, k) >= dtx_start(),
    decreases k,
{
    if k > 0 {
        lemma_quiet(h, k - 1);
        assert(k * h == (k - 1) * h + h) by (nonlinear_arith);
    } else {
        assert(0 * h == 0) by (nonlinear_arith);
    }
}

proof fn lemma_inactive(count: int, h: int, k: int)
    requires
        0 <= k,
        forall|i: int|
            0 <= i < k ==> dtx_start() < #[trigger] inactive_for(
                0,
                inactive_after(count, h, i),
                h,
            ) <= dtx_end(),
    ensures
        inactive_after(count, h, k) == count + k * h,
        k >= 1 ==> count + k * h <= dtx_end(),
    decreases k,
{
    if k > 0 {
        lemma_inactive(count, h, k - 1);
        assert(inactive_for(0, inactive_after(count, h, k - 1), h) <= dtx_end());
        assert(k * h == (k - 1) * h + h) by (nonlinear_arith);
    } else {
        assert(0 * h == 0) by (nonlinear_arith);
    }
}

/// A frame that ends without activity moves the count on by one step, where the encoder is
/// to leave frames out and the speech coder does not. Any other frame starts it over.
pub proof fn frames_are_counted(e: OpusEncoder, run: FrameRun, end: FrameEnd)
    requires
        e.wf(),
        frame_domain(e.fs as int, run.frame_size as int),
    ensures
        ({
            let after = e.ended(run, end);
            let counts = e.use_dtx != 0 && e.silk_mode.use_dtx == 0 && run.activity == 0;
            &&& after.nb_no_activity_ms_q1 == if counts {
                inactive_after(
                    e.nb_no_activity_ms_q1 as int,
                    e.half_ms(run.frame_size as int),
                    1,
                )
            } else {
                0
            }
            &&& after.fs == e.fs
            &&& after.use_dtx == e.use_dtx
            &&& after.silk_mode == e.silk_mode
        }),
{
    reveal_with_fuel(inactive_after, 2);
    lemma_half_ms(e.fs as int, run.frame_size as int);
}

proof fn lemma_half_ms(fs: int, n: int)
    requires
        frame_domain(fs, n),
    ensures
        1 <= 2000 * n / fs <= 240,
        50 * n == fs ==> 2000 * n / fs == 40,
{
    assert(1 <= 2000 * n / fs <= 240) by (nonlinear_arith)
        requires
            fs > 0,
            fs <= 400 * n,
            50 * n <= 6 * fs,
    ;
    if 50 * n == fs {
        assert(2000 * n / fs == 40) by (nonlinear_arith)
            requires
                50 * n == fs,
                fs > 0,
        ;
    }
}

/// How a packet of one frame was made: what was planned from which input, and how the frame
/// ended.
pub ghost struct FrameTrace {
    pub pcm: Seq<i16>,
    pub d0: Seq<u8>,
    pub d1: Seq<u8>,
    pub max: int,
    pub lsb_depth: int,
    pub info: AnalysisInfo,
    /// The encoder behind the plan, and the plan.
    pub planned: OpusEncoder,
    pub plan: FramePlan,
    /// The encoder and the frame when the coders were done, and what they reported.
    pub last: OpusEncoder,
    pub run: FrameRun,
    pub end: FrameEnd,
}

impl FrameTrace {
    /// Whether the encoder went from `a` to `b` with this frame of `n` samples a channel.
    /// Between the plan and the end the time without activity is not counted, and only where
    /// it is not known whether there is activity does the speech coder say so.
    pub open spec fn leads(self, a: OpusEncoder, b: OpusEncoder, n: int) -> bool {
        let activity = self.planned.activity_of(self.pcm, n, self.plan.is_silence, self.info);
        &&& is_plan(
            a,
            self.planned,
            self.pcm,
            n,
            self.d0,
            self.d1,
            self.max,
            self.lsb_depth,
            self.info,
            Ok::<Plan, i32>(Plan::Single(self.plan)),
        )
        &&& self.last.wf()
        &&& self.last.counts_like(self.planned)
        &&& self.run.frame_size == n
        &&& activity != VAD_NO_DECISION ==> self.run.activity == activity
        &&& b == self.last.ended(self.run, self.end)
    }
}

/// A frame of silence is one step of the count, and the encoder itself keeps it.
proof fn lemma_silent_frame(a: OpusEncoder, b: OpusEncoder, t: FrameTrace, n: int)
    requires
        frame_domain(a.fs as int, n),
        t.leads(a, b, n),
        silent(t.pcm, n * a.channels),
    ensures
        b.fs == a.fs,
        b.use_dtx == a.use_dtx,
        b.silk_mode.use_dtx == 0,
        b.nb_no_activity_ms_q1 == if a.use_dtx != 0 {
            inactive_after(a.nb_no_activity_ms_q1 as int, a.half_ms(n), 1)
        } else {
            0
        },
{
    assert(t.planned.fs == a.fs);
    assert(t.planned.use_dtx == a.use_dtx);
    assert(t.planned.nb_no_activity_ms_q1 == a.nb_no_activity_ms_q1);
    assert(t.planned.silk_mode.use_dtx == 0);
    assert(t.plan.is_silence);
    frames_are_counted(t.last, t.run, t.end);
}

/// Of an encoder that is to leave frames out, `k` packets of silence in a row show as soon as
/// they last 200 ms: those of 20 ms from the tenth on. They do not show where it is not to.
pub proof fn silent_packets_show(states: Seq<OpusEncoder>, frames: Seq<FrameTrace>, n: int)
    requires
        states.len() == frames.len() + 1,
        frame_domain(states[0].fs as int, n),
        states[0].nb_no_activity_ms_q1 == 0,
        forall|i: int|
            0 <= i < frames.len() ==> (#[trigger] frames[i]).leads(states[i], states[i + 1], n)
                && silent(frames[i].pcm, n * states[i].channels),
    ensures
        ({
            let k = frames.len() as int;
            let e = states.last();
            &&& e.use_dtx == states[0].use_dtx
            &&& e.use_dtx == 0 ==> !e.leaves_out()
            &&& e.use_dtx != 0 && k > 0 ==> e.leaves_out() == (k * e.half_ms(n) >= dtx_start())
            &&& e.use_dtx != 0 && k > 0 && 50 * n == e.fs ==> e.leaves_out() == (k >= 10)
            &&& k == 0 && (e.prev_mode == 0 || e.prev_mode == MODE_CELT_ONLY) ==> !e.leaves_out()
        }),
{
    let k = frames.len() as int;
    let e = states.last();
    lemma_silent_packets(states, frames, n, k);
    lemma_half_ms(e.fs as int, n);
    if e.use_dtx != 0 && k > 0 {
        silence_shows(e, e.half_ms(n), k);
    }
}

proof fn lemma_silent_packets(
    states: Seq<OpusEncoder>,
    frames: Seq<FrameTrace>,
    n: int,
    k: int,
)
    requires
        states.len() == frames.len() + 1,
        0 <= k <= frames.len(),
        frame_domain(states[0].fs as int, n),
        states[0].nb_no_activity_ms_q1 == 0,
        forall|i: int|
            0 <= i < frames.len() ==> (#[trigger] frames[i]).leads(states[i], states[i + 1], n)
                && silent(frames[i].pcm, n * states[i].channels),
    ensures
        states[k].fs == states[0].fs,
        states[k].use_dtx == states[0].use_dtx,
        k > 0 ==> states[k].silk_mode.use_dtx == 0,
        states[0].use_dtx != 0 ==> states[k].nb_no_activity_ms_q1 == inactive_after(
            0,
            states[0].half_ms(n),
            k,
        ),
    decreases k,
{
    if k > 0 {
        lemma_silent_packets(states, frames, n, k - 1);
        assert(frames[k - 1].leads(states[k - 1], states[k], n));
        lemma_silent_frame(states[k - 1], states[k], frames[k - 1], n);
        reveal_with_fuel(inactive_after, 2);
    }
}

/// Of frames of 20 ms without activity ten are sent; from then on twenty are left out, and
/// every twenty-first is sent.
pub proof fn silence_is_sent_now_and_then(k: int)
    requires
        k >= 1,
    ensures
        ({
            let count = inactive_for(0, inactive_after(0, 40, k - 1), 40);
            let left_out = dtx_start() < count <= dtx_end();
            left_out <==> k > 10 && (k - 10) % 21 != 0
        }),
{
    lemma_count_of_silence(k - 1);
}

proof fn lemma_count_of_silence(k: int)
    requires
        k >= 0,
    ensures
        inactive_after(0, 40, k) == if k <= 10 {
            40 * k
        } else {
            400 + 40 * ((k - 10) % 21)
        },
    decreases k,
{
    if k > 0 {
        lemma_count_of_silence(k - 1);
    }
}

/// Where the speech coder leaves frames out itself, the encoder says so once that has counted
/// ten frames without speech; and an encoder that is to leave nothing out never says so.
pub proof fn silent_speech_shows(e: OpusEncoder, s: SilkEncoder)
    requires
        e.wf(),
        e.silk_enc == Some(s),
    ensures
        e.use_dtx == 0 ==> !e.leaves_out(),
        e.use_dtx != 0 && e.silk_mode.use_dtx != 0 && (e.prev_mode == MODE_SILK_ONLY || e.prev_mode
            == MODE_HYBRID) ==> e.leaves_out() == (s.no_speech_counter >= 10),
{
}

} // verus!
