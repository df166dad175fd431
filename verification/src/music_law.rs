//! What holds of what the music coder is told of a frame, of fades, and of the stereo width.

use vstd::prelude::*;
use crate::arith::{q15, Q15ONE};
use crate::coders::CeltEncoder;
use crate::dsp::{fade_gain, gain_for, narrowed, side_gain, side_part};
use crate::encoder::OpusEncoder;
use crate::frame::FrameRun;
use crate::modes::{
    MODE_CELT_ONLY, MODE_HYBRID, MODE_SILK_ONLY, OPUS_BANDWIDTH_FULLBAND,
    OPUS_BANDWIDTH_MEDIUMBAND, OPUS_BANDWIDTH_NARROWBAND, OPUS_BANDWIDTH_SUPERWIDEBAND,
    OPUS_BANDWIDTH_WIDEBAND,
};
use crate::music::{is_short_aimed, width_gain};

verus! {

// ---------------------------------------------------------------------------
// The music coder
// ---------------------------------------------------------------------------

/// Music is coded up to its bandwidth: the bands end at 4, 8, 12 and 20 kHz, where the 13th,
/// the 17th, the 19th and the last of the 21 do. It has the channels that are coded, and
/// depends on earlier frames unless it should not.
pub proof fn music_is_told_of_the_frame(e: OpusEncoder, run: FrameRun, c: CeltEncoder)
    ensures
        ({
            let t = e.music_set_up(run, c);
            let free = e.silk_mode.reduced_dependency == 0;
            &&& run.bandwidth == OPUS_BANDWIDTH_NARROWBAND ==> t.end == 13
            &&& run.bandwidth == OPUS_BANDWIDTH_MEDIUMBAND ==> t.end == 17
            &&& run.bandwidth == OPUS_BANDWIDTH_WIDEBAND ==> t.end == 17
            &&& run.bandwidth == OPUS_BANDWIDTH_SUPERWIDEBAND ==> t.end == 19
            &&& run.bandwidth == OPUS_BANDWIDTH_FULLBAND ==> t.end == 21
            &&& t.stream_channels == e.stream_channels
            &&& e.mode != MODE_SILK_ONLY ==> (free <==> t.disable_pf == 0) && (free
                <==> t.force_intra == 0)
            &&& e.mode == MODE_SILK_ONLY ==> t.disable_pf == c.disable_pf && t.force_intra
                == c.force_intra
            &&& t.complexity == c.complexity
            &&& t.loss_rate == c.loss_rate
            &&& t.running == c.running
        }),
{
}

/// The music of a hybrid frame starts where speech ends, at 8 kHz, and has what speech leaves
/// of the bitrate; music alone has all of both. Where the size of packets varies, that of
/// music does, within the constraint that is set; in hybrid frames there is none. Packets of
/// one size are filled, unless redundancy is to take what music leaves.
pub proof fn music_takes_its_part(e: OpusEncoder, c: CeltEncoder)
    requires
        e.wf(),
        -170_000_000 <= e.silk_mode.bit_rate <= 170_000_000,
    ensures
        ({
            let t = e.music_aimed(c);
            let varies = e.use_vbr != 0 || e.dred_duration > 0;
            &&& e.mode == MODE_CELT_ONLY ==> t.start == 0
            &&& e.mode != MODE_CELT_ONLY ==> t.start == 17
            &&& e.mode != MODE_SILK_ONLY ==> {
                &&& (t.vbr != 0 <==> varies)
                &&& varies && e.mode == MODE_HYBRID ==> t.bitrate + e.silk_mode.bit_rate
                    == e.bitrate_bps && t.constrained_vbr == 0
                &&& varies && e.mode == MODE_CELT_ONLY ==> t.bitrate == e.bitrate_bps
                &&& e.use_vbr != 0 && e.mode == MODE_CELT_ONLY ==> t.constrained_vbr
                    == e.vbr_constraint
                &&& e.use_vbr == 0 && varies ==> t.constrained_vbr == 0
                &&& !varies ==> t.bitrate == c.bitrate
            }
            &&& t.end == c.end
            &&& t.stream_channels == c.stream_channels
        }),
{
}

/// The music coder is warmed up where music is coded in another mode than last time, and there
/// was a last time.
pub proof fn music_is_warmed_up(e: OpusEncoder)
    requires
        e.wf(),
    ensures
        e.prev_mode == 0 ==> !e.warms_up(),
        e.mode == e.prev_mode ==> !e.warms_up(),
        e.mode == MODE_SILK_ONLY ==> !e.warms_up(),
        e.mode == MODE_CELT_ONLY && (e.prev_mode == MODE_SILK_ONLY || e.prev_mode == MODE_HYBRID)
            ==> e.warms_up(),
        e.mode == MODE_HYBRID && (e.prev_mode == MODE_SILK_ONLY || e.prev_mode == MODE_CELT_ONLY)
            ==> e.warms_up(),
{
}

// ---------------------------------------------------------------------------
// Fades
// ---------------------------------------------------------------------------

/// A fade goes from one gain to another: it stays between them, to within two, starts at the
/// first and ends at the second, and never turns back.
pub proof fn fades_go_from_one_to_the_other(w: int, more: int, g1: int, g2: int)
    requires
        0 <= w <= more <= 32767,
        0 <= g1 <= 32767,
        0 <= g2 <= 32767,
    ensures
        w == 0 ==> g1 - 1 <= fade_gain(w, g1, g2) <= g1,
        w == 32767 ==> g2 - 3 <= fade_gain(w, g1, g2) <= g2 + 1,
        g1 <= g2 ==> g1 - 1 <= fade_gain(w, g1, g2) <= fade_gain(more, g1, g2) <= g2,
        g2 <= g1 ==> g2 - 1 <= fade_gain(more, g1, g2) <= fade_gain(w, g1, g2) <= g1,
{
    let (v, u) = (q15(w, w), q15(more, more));
    assert(0 <= w * w <= more * more <= 32767 * 32767) by (nonlinear_arith)
        requires
            0 <= w <= more <= 32767,
    ;
    assert(0 <= v <= u <= 32766);
    let (a, b) = (v * g2 + (Q15ONE - v) * g1, u * g2 + (Q15ONE - u) * g1);
    assert(b - a == (u - v) * (g2 - g1)) by (nonlinear_arith)
        requires
            a == v * g2 + (32767 - v) * g1,
            b == u * g2 + (32767 - u) * g1,
    ;
    assert(g1 <= g2 ==> a <= b && g1 * 32767 <= a && b <= g2 * 32767) by (nonlinear_arith)
        requires
            a == v * g2 + (32767 - v) * g1,
            b == u * g2 + (32767 - u) * g1,
            0 <= v <= u <= 32767,
    ;
    assert(g2 <= g1 ==> b <= a && g2 * 32767 <= b && a <= g1 * 32767) by (nonlinear_arith)
        requires
            a == v * g2 + (32767 - v) * g1,
            b == u * g2 + (32767 - u) * g1,
            0 <= v <= u <= 32767,
    ;
    if w == 0 {
        assert(v == 0);
        assert(a == 32767 * g1) by (nonlinear_arith)
            requires
                a == v * g2 + (32767 - v) * g1,
                v == 0,
        ;
    }
    if w == 32767 {
        assert(v == 32766);
        assert(a == 32766 * g2 + g1) by (nonlinear_arith)
            requires
                a == v * g2 + (32767 - v) * g1,
                v == 32766,
        ;
    }
}

/// Behind the overlap a fade is over.
pub proof fn fades_end(i: int, window: Seq<i16>, inc: int, overlap: int, g1: int, g2: int)
    requires
        i >= overlap,
    ensures
        gain_for(i, window, inc, overlap, g1, g2) == g2,
{
}

/// Narrowing a stereo signal keeps its middle, and brings the channels no further apart: at no
/// gain of the side nothing changes, and at the full one, which is the narrowest, hardly more
/// is left of the difference than of rounding.
pub proof fn narrowing_keeps_the_middle(before: Seq<i16>, after: Seq<i16>, i: int, g: int)
    requires
        0 <= g <= 32767,
        narrowed(before, after, i, g),
    ensures
        ({
            let (l, r) = (before[2 * i] as int, before[2 * i + 1] as int);
            let (x, y) = (after[2 * i] as int, after[2 * i + 1] as int);
            &&& x + y == l + r
            &&& l >= r ==> 0 <= x - y <= l - r
            &&& l <= r ==> l - r <= x - y <= 2
            &&& g == 0 ==> x == l && y == r
            &&& g == 32767 ==> -2 <= x - y <= 4
        }),
{
    let (l, r) = (before[2 * i] as int, before[2 * i + 1] as int);
    let h = (l - r) / 2;
    let d = side_part(g, l, r);
    assert(-32768 <= h <= 32767);
    assert(h >= 0 ==> 0 <= g * h <= 32767 * h) by (nonlinear_arith)
        requires
            0 <= g <= 32767,
    ;
    assert(h < 0 ==> 32767 * h <= g * h <= 0) by (nonlinear_arith)
        requires
            0 <= g <= 32767,
    ;
    assert(g == 0 ==> g * h == 0) by (nonlinear_arith);
    assert(g == 32767 ==> g * h == 32767 * h) by (nonlinear_arith);
    assert(h >= 0 ==> 0 <= d <= h);
    assert(h < 0 ==> h <= d <= 0);
}

// ---------------------------------------------------------------------------
// The stereo width
// ---------------------------------------------------------------------------

/// A rate allows for the more width the higher it is: for none below 16000 bits a second and
/// for all above 32000. In hybrid frames of two channels the speech coder decides.
pub proof fn width_by_rate(e: OpusEncoder, rate: int, more: int)
    requires
        rate <= more,
    ensures
        e.mode == MODE_HYBRID && e.stream_channels == 2 ==> e.width_for(rate)
            == e.silk_mode.stereo_width_q14,
        e.mode != MODE_HYBRID || e.stream_channels == 1 ==> {
            &&& 0 <= e.width_for(rate) <= e.width_for(more) <= 16384
            &&& rate < 16000 ==> e.width_for(rate) == 0
            &&& rate >= 32000 ==> e.width_for(rate) == 16384
            &&& 16000 < rate < 31990 ==> 0 < e.width_for(rate) < 16384
            &&& rate >= 20000 ==> e.width_for(rate) >= 12288
            &&& rate >= 24000 ==> e.width_for(rate) >= 14700
            &&& rate <= 18000 ==> e.width_for(rate) <= 9300
        },
{
    if 16000 <= rate <= 32000 {
        lemma_width(rate, more);
        lemma_width(rate, 32000);
        lemma_width(16000, rate);
        if rate >= 20000 {
            lemma_width(20000, rate);
        }
        if rate >= 24000 {
            lemma_width(24000, rate);
        }
        if rate <= 18000 {
            lemma_width(rate, 18000);
        }
    }
    if 16000 <= more <= 32000 {
        lemma_width(16000, more);
        lemma_width(more, 32000);
    }
}

/// What is left off the width falls as the rate rises.
proof fn lemma_width(a: int, b: int)
    requires
        16000 <= a <= 32000,
        a <= b,
    ensures
        ({
            let x = 2048 * (32000 - a) / (a - 14000);
            &&& 0 <= x <= 16384
            &&& b <= 32000 ==> 2048 * (32000 - b) / (b - 14000) <= x
            &&& a == 16000 ==> x == 16384
            &&& 16001 <= a ==> x < 16384
            &&& a < 31990 ==> x >= 1
        }),
{
    let (p, d) = (2048 * (32000 - a), a - 14000);
    let x = p / d;
    if a == 16000 {
        assert(32768000int / 2000 == 16384);
    }
    assert(0 <= x <= 16384 && x * d <= p < (x + 1) * d) by (nonlinear_arith)
        requires
            x == p / d,
            2000 <= d,
            p == 2048 * (18000 - d),
            d <= 18000,
    ;
    if b <= 32000 {
        let (q, f) = (2048 * (32000 - b), b - 14000);
        assert(q / f <= x) by (nonlinear_arith)
            requires
                x == p / d,
                0 <= q <= p,
                0 < d <= f,
        ;
    }
    if a >= 16001 {
        assert(x < 16384) by (nonlinear_arith)
            requires
                x * d <= p,
                p == 2048 * (18000 - d),
                d >= 2001,
        ;
    }
    if a < 31990 {
        assert(x >= 1) by (nonlinear_arith)
            requires
                p < (x + 1) * d,
                p >= d,
                d >= 1,
        ;
    }
}

/// A width and the gain that the sides keep are the same number, in other units: none is none,
/// and all is all.
pub proof fn widths_are_gains(w: int)
    requires
        0 <= w <= 16384,
    ensures
        2 * w - 1 <= width_gain(w) <= 2 * w,
        w < 16384 ==> width_gain(w) == 2 * w,
        w == 16384 ==> width_gain(w) == 32767,
{
}

/// Where the width was full and stays full, the sides are not touched; where it was none and
/// stays none, they are taken away.
pub proof fn sides_by_width(i: int, window: Seq<i16>, overlap: int, fs: int, g: int)
    requires
        0 <= i,
        g == 0 || g == 32767,
        crate::rates::valid_fs(fs),
        forall|k: int| 0 <= k < window.len() ==> 0 <= #[trigger] window[k] <= 32767,
        overlap == 120,
        window.len() >= 120,
    ensures
        g == 32767 ==> side_gain(i, window, overlap, fs, g, g) == 0,
        g == 0 ==> 32766 <= side_gain(i, window, overlap, fs, g, g) <= 32767,
{
    let inc = crate::arith::max_int(1, 48000int / fs);
    if i < overlap / inc {
        assert(0 <= i * inc < 120) by (nonlinear_arith)
            requires
                0 <= i,
                i < 120int / inc,
                inc >= 1,
        ;
        let w = window[i * inc] as int;
        assert(0 <= w <= 32767);
        fades_go_from_one_to_the_other(w, w, 32767 - g, 32767 - g);
        if g == 32767 {
            let v = q15(w, w);
            assert(v * 0 + (Q15ONE - v) * 0 == 0) by (nonlinear_arith);
        }
    }
}

/// The next frame goes on where this one ended: its fades start from the gain and the width
/// that this one went to. The width is that which the rate allows for.
pub proof fn fades_go_on(e: OpusEncoder, run: FrameRun)
    requires
        e.wf(),
        0 <= e.silk_mode.stereo_width_q14 <= 16384,
    ensures
        ({
            let s = e.shaped(run);
            let width = e.width_for(run.equiv_rate as int);
            &&& s.prev_hb_gain == run.hb_gain
            &&& s.silk_mode.stereo_width_q14 == width
            &&& e.channels == 2 && e.energy_masking is None ==> s.hybrid_stereo_width_q14 == width
            &&& e.channels == 1 || e.energy_masking is Some ==> s.hybrid_stereo_width_q14
                == e.hybrid_stereo_width_q14
            &&& s.same_choices(e)
            &&& s.mode == e.mode
            &&& s.bandwidth == e.bandwidth
            &&& s.stream_channels == e.stream_channels
        }),
{
    width_by_rate(e, run.equiv_rate as int, run.equiv_rate as int);
}

/// Behind its first samples a frame has the gain of the high band that it goes to. At the full
/// gain, before and now, it is not touched.
pub proof fn high_band_is_faded(e: OpusEncoder, run: FrameRun, buf: Seq<i16>, window: Seq<i16>, k: int)
    requires
        e.wf(),
        e.celt_enc is Some,
        0 <= run.hb_gain <= 32767,
        0 <= k < buf.len(),
    ensures
        ({
            let f = e.high_band_faded(run, buf, window);
            &&& e.prev_hb_gain == 32767 && run.hb_gain == 32767 ==> f == buf
            &&& k >= run.frame_size * e.channels ==> f[k] == buf[k]
            &&& 400 * (k / e.channels as int) >= e.fs && k < run.frame_size * e.channels && (
            e.prev_hb_gain < 32767 || run.hb_gain < 32767) ==> 32768 * f[k] <= run.hb_gain * buf[k]
                < 32768 * (f[k] + 1)
        }),
{
    let (g, x) = (run.hb_gain as int, buf[k] as int);
    assert(x >= 0 ==> 0 <= g * x <= 32767 * x) by (nonlinear_arith)
        requires
            0 <= g <= 32767,
    ;
    assert(x < 0 ==> 32767 * x <= g * x <= 0) by (nonlinear_arith)
        requires
            0 <= g <= 32767,
    ;
}

/// Behind its first samples a frame has the width that it goes to.
pub proof fn width_is_faded(
    e: OpusEncoder,
    run: FrameRun,
    before: Seq<i16>,
    after: Seq<i16>,
    window: Seq<i16>,
    i: int,
)
    requires
        e.wf(),
        e.celt_enc is Some,
        e.width_faded(run, before, after, window),
        e.channels == 2,
        e.energy_masking is None,
        0 <= e.silk_mode.stereo_width_q14 <= 16384,
        e.hybrid_stereo_width_q14 < 16384 || e.silk_mode.stereo_width_q14 < 16384,
        0 <= i < run.frame_size,
        400 * i >= e.fs,
    ensures
        ({
            let w = e.silk_mode.stereo_width_q14;
            narrowed(
                before,
                after,
                i,
                if w == 16384 {
                    0
                } else {
                    32767 - 2 * w
                },
            )
        }),
{
    let fs = e.fs as int;
    let inc = crate::arith::max_int(1, 48000int / fs);
    let k = if fs == 8000 {
        6int
    } else if fs == 12000 {
        4
    } else if fs == 16000 {
        3
    } else if fs == 24000 {
        2
    } else {
        1
    };
    crate::plan_law::lemma_quotient(48000, fs, k);
    assert(inc == k);
    assert(i >= 120int / inc) by {
        if fs == 8000 {
            assert(120int / 6 == 20);
        } else if fs == 12000 {
            assert(120int / 4 == 30);
        } else if fs == 16000 {
            assert(120int / 3 == 40);
        } else if fs == 24000 {
            assert(120int / 2 == 60);
        } else {
            assert(120int / 1 == 120);
        }
    }
    let g = side_gain(
        i,
        window,
        crate::speech::CELT_OVERLAP as int,
        fs,
        width_gain(e.hybrid_stereo_width_q14 as int),
        width_gain(e.silk_mode.stereo_width_q14 as int),
    );
    assert(narrowed(before, after, i, g));
}

// ---------------------------------------------------------------------------
// Short frames
// ---------------------------------------------------------------------------

/// A short frame has all bands from the lowest on, and all the bits that it can get. One on
/// the way to music starts from nothing and depends on nothing; one that leads to speech goes
/// on from the music before it.
pub proof fn short_frames_stand_for_themselves(c: CeltEncoder, d: CeltEncoder, celt_to_silk: bool)
    requires
        is_short_aimed(c, d, celt_to_silk),
    ensures
        d.start == 0,
        d.vbr == 0,
        d.end == c.end,
        d.stream_channels == c.stream_channels,
        celt_to_silk ==> d.running == c.running && d.disable_pf == c.disable_pf && d.force_intra
            == c.force_intra,
        !celt_to_silk ==> d.running.is_fresh() && d.disable_pf == 1 && d.force_intra == 1,
{
}

} // verus!
