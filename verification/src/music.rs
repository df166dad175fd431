//! What the music coder is told of a frame, the sound that it gets, and the short frames
//! that ease a change between speech and music.

use vstd::prelude::*;
use crate::arith::{imax, imin, max_int, min_int, q15, tdiv, Q15ONE};
use crate::coders::{CeltEncoder, SilkEncControlStruct};
use crate::dsp::{gain_fade, gain_for, narrowed, side_gain, stereo_fade};
use crate::encoder::{delayed, OpusEncoder};
use crate::frame::{FrameRun, MAX_SINGLE_BYTES};
use crate::modes::{
    MODE_CELT_ONLY, MODE_HYBRID, MODE_SILK_ONLY, OPUS_APPLICATION_RESTRICTED_SILK,
    OPUS_BANDWIDTH_MEDIUMBAND, OPUS_BANDWIDTH_NARROWBAND, OPUS_BANDWIDTH_SUPERWIDEBAND,
    OPUS_BANDWIDTH_WIDEBAND, OPUS_BITRATE_MAX,
};
use crate::plan::{frame_domain, lemma_frame_samples};
use crate::rates::{bitrate_to_bits, bits_of};
use crate::speech::CELT_OVERLAP;

verus! {

// ---------------------------------------------------------------------------
// Settings
// ---------------------------------------------------------------------------

/// The band behind the last one of a bandwidth.
pub open spec fn end_band(bandwidth: int) -> i32 {
    if bandwidth == OPUS_BANDWIDTH_NARROWBAND {
        13
    } else if bandwidth == OPUS_BANDWIDTH_MEDIUMBAND || bandwidth == OPUS_BANDWIDTH_WIDEBAND {
        17
    } else if bandwidth == OPUS_BANDWIDTH_SUPERWIDEBAND {
        19
    } else {
        21
    }
}

/// The first band that is coded as music.
pub open spec fn start_band(mode: int) -> i32 {
    if mode == MODE_CELT_ONLY {
        0
    } else {
        17
    }
}

/// A music coder with or without what it knows of earlier frames.
pub open spec fn predicting(c: CeltEncoder, free: bool) -> CeltEncoder {
    CeltEncoder {
        disable_pf: if free {
            0
        } else {
            1
        },
        force_intra: if free {
            0
        } else {
            1
        },
        ..c
    }
}

/// Whether `d` is the music coder `c` once it was told of a short frame.
pub open spec fn is_short_aimed(c: CeltEncoder, d: CeltEncoder, celt_to_silk: bool) -> bool {
    if celt_to_silk {
        d == (CeltEncoder { start: 0, vbr: 0, bitrate: OPUS_BITRATE_MAX, ..c })
    } else {
        &&& d.running.is_fresh()
        &&& d == predicting(
            CeltEncoder {
                start: 0,
                vbr: 0,
                bitrate: OPUS_BITRATE_MAX,
                running: d.running,
                ..c
            },
            false,
        )
    }
}

impl OpusEncoder {
    /// The music coder once it was told of a frame's bandwidth and channels, and whether to
    /// depend on earlier frames.
    pub open spec fn music_set_up(&self, run: FrameRun, c: CeltEncoder) -> CeltEncoder {
        let d = CeltEncoder {
            end: end_band(run.bandwidth as int),
            stream_channels: self.stream_channels,
            bitrate: OPUS_BITRATE_MAX,
            ..c
        };
        if self.mode != MODE_SILK_ONLY {
            predicting(d, self.silk_mode.reduced_dependency == 0)
        } else {
            d
        }
    }

    /// Tells the music coder of a frame's bandwidth and channels.
    pub fn set_up_celt(&mut self, run: &FrameRun)
        ensures
            *final(self) == (OpusEncoder {
                celt_enc: match old(self).celt_enc {
                    Some(c) => Some(old(self).music_set_up(*run, c)),
                    None => None,
                },
                ..*old(self)
            }),
            old(self).wf() ==> final(self).wf(),
    {
        let predicts = self.mode != MODE_SILK_ONLY;
        let prediction: i32 = if self.silk_mode.reduced_dependency != 0 { 0 } else { 2 };
        let channels: i32 = self.stream_channels;
        if let Some(celt) = &mut self.celt_enc {
            celt.end = if run.bandwidth == OPUS_BANDWIDTH_NARROWBAND {
                13
            } else if run.bandwidth == OPUS_BANDWIDTH_MEDIUMBAND || run.bandwidth
                == OPUS_BANDWIDTH_WIDEBAND {
                17
            } else if run.bandwidth == OPUS_BANDWIDTH_SUPERWIDEBAND {
                19
            } else {
                21
            };
            celt.stream_channels = channels;
            celt.bitrate = OPUS_BITRATE_MAX;
            if predicts {
                celt.set_prediction(prediction);
            }
        }
    }

    /// The music coder's part of the bitrate.
    pub open spec fn music_rate(&self) -> int {
        if self.mode == MODE_HYBRID {
            self.bitrate_bps - self.silk_mode.bit_rate
        } else {
            self.bitrate_bps as int
        }
    }

    /// The music coder once it was told what it may spend on the main frame. In frames of
    /// one size it may spend all, unless redundancy takes up what it leaves.
    pub open spec fn music_aimed(&self, c: CeltEncoder) -> CeltEncoder {
        let d = CeltEncoder { start: start_band(self.mode as int), ..c };
        if self.mode == MODE_SILK_ONLY {
            d
        } else if self.use_vbr != 0 {
            CeltEncoder {
                vbr: self.use_vbr,
                constrained_vbr: if self.mode == MODE_HYBRID {
                    0
                } else {
                    self.vbr_constraint
                },
                bitrate: self.music_rate() as i32,
                ..d
            }
        } else if self.dred_duration > 0 {
            CeltEncoder {
                vbr: 1,
                constrained_vbr: 0,
                bitrate: self.music_rate() as i32,
                ..d
            }
        } else {
            CeltEncoder { vbr: 0, ..d }
        }
    }

    /// Tells the music coder what it may spend on the main frame.
    pub fn aim_celt(&mut self)
        requires
            old(self).wf(),
            -170_000_000 <= old(self).silk_mode.bit_rate <= 170_000_000,
        ensures
            final(self).counts_like(*old(self)),
            final(self).wf(),
            *final(self) == (OpusEncoder {
                celt_enc: match old(self).celt_enc {
                    Some(c) => Some(old(self).music_aimed(c)),
                    None => None,
                },
                ..*old(self)
            }),
    {
        let mode: i32 = self.mode;
        let use_vbr: i32 = self.use_vbr;
        let constraint: i32 = if mode == MODE_HYBRID { 0 } else { self.vbr_constraint };
        let rate: i32 = if mode == MODE_HYBRID {
            self.bitrate_bps - self.silk_mode.bit_rate
        } else {
            self.bitrate_bps
        };
        let dred = self.dred_duration > 0;
        if let Some(celt) = &mut self.celt_enc {
            celt.start = if mode == MODE_CELT_ONLY { 0 } else { 17 };
            if mode != MODE_SILK_ONLY {
                celt.vbr = use_vbr;
                if use_vbr != 0 {
                    celt.constrained_vbr = constraint;
                    celt.bitrate = rate;
                } else if dred {
                    celt.vbr = 1;
                    celt.constrained_vbr = 0;
                    celt.bitrate = rate;
                }
            }
        }
    }

    /// Tells the music coder of a short frame that eases a change. One that leads to music
    /// starts from nothing.
    pub fn aim_short_frame(&mut self, celt_to_silk: bool)
        ensures
            final(self).counts_like(*old(self)),
            match (old(self).celt_enc, final(self).celt_enc) {
                (Some(c), Some(d)) => is_short_aimed(c, d, celt_to_silk),
                (None, None) => true,
                _ => false,
            },
            *final(self) == (OpusEncoder { celt_enc: final(self).celt_enc, ..*old(self) }),
            old(self).wf() ==> final(self).wf(),
    {
        if let Some(celt) = &mut self.celt_enc {
            if !celt_to_silk {
                celt.reset();
                celt.set_prediction(0);
            }
            celt.start = 0;
            celt.vbr = 0;
            celt.bitrate = OPUS_BITRATE_MAX;
        }
    }

    /// Whether the music coder is to be warmed up: the mode has changed.
    pub open spec fn warms_up(&self) -> bool {
        self.mode != MODE_SILK_ONLY && self.mode != self.prev_mode && self.prev_mode > 0
    }

    /// Whether the music coder is to be warmed up.
    pub fn needs_warm_up(&self) -> (r: bool)
        ensures
            r == self.warms_up(),
    {
        self.mode != MODE_SILK_ONLY && self.mode != self.prev_mode && self.prev_mode > 0
    }
}

// ---------------------------------------------------------------------------
// Sound
// ---------------------------------------------------------------------------

impl OpusEncoder {
    /// Keeps the 2.5 ms before the delay that warm up the music coder, where it is to be
    /// warmed up.
    pub fn keep_prefill(&mut self)
        requires
            old(self).wf(),
        ensures
            final(self).wf(),
            *final(self) == (OpusEncoder { tmp_prefill: final(self).tmp_prefill, ..*old(self) }),
            final(self).tmp_prefill@ =~= if old(self).warms_up() && old(self).application
                != OPUS_APPLICATION_RESTRICTED_SILK {
                let from = (old(self).encoder_buffer - old(self).delay() - old(self).fs / 400)
                    * old(self).channels;
                old(self).delay_buffer@.subrange(from, from + old(self).tmp_prefill@.len())
            } else {
                old(self).tmp_prefill@
            },
    {
        if !self.needs_warm_up() || self.application == OPUS_APPLICATION_RESTRICTED_SILK {
            return;
        }
        let ch: usize = self.channels as usize;
        let total: i32 = self.total_buffer();
        let n: usize = self.tmp_prefill.len();
        let len: usize = self.delay_buffer.len();
        proof {
            let (c, d, f, e) = (
                self.channels as int,
                self.encoder_buffer - total - self.fs / 400,
                self.fs as int / 400,
                self.encoder_buffer as int,
            );
            assert(0 <= d * c && d * c + c * f <= e * c) by (nonlinear_arith)
                requires
                    1 <= c,
                    0 <= d,
                    d + f <= e,
            ;
            assert(self.channels * self.fs / 400 == c * f) by (nonlinear_arith)
                requires
                    c == self.channels,
                    f == self.fs as int / 400,
                    1 <= c <= 2,
                    self.fs == 8000 || self.fs == 12000 || self.fs == 16000 || self.fs == 24000
                        || self.fs == 48000,
            ;
        }
        let from: usize = (self.encoder_buffer - total - self.fs / 400) as usize * ch;
        let mut kept: Vec<i16> = Vec::new();
        let mut i: usize = 0;
        while i < n
            invariant
                i <= n,
                from + n <= len,
                len == self.delay_buffer@.len(),
                *self == *old(self),
                kept@.len() == i,
                forall|j: int| 0 <= j < i ==> kept@[j] == self.delay_buffer@[from + j],
            decreases n - i,
        {
            kept.push(self.delay_buffer[from + i]);
            i += 1;
        }
        self.tmp_prefill = kept;
    }

    /// What is coded, faded to the gain of the high band.
    pub open spec fn high_band_faded(
        &self,
        run: FrameRun,
        buf: Seq<i16>,
        window: Seq<i16>,
    ) -> Seq<i16> {
        if (self.prev_hb_gain < Q15ONE || run.hb_gain < Q15ONE) && self.celt_enc is Some {
            Seq::new(
                buf.len(),
                |k: int|
                    if k < run.frame_size * self.channels {
                        q15(
                            gain_for(
                                k / (self.channels as int),
                                window,
                                48000int / self.fs as int,
                                CELT_OVERLAP * self.fs / 48000,
                                self.prev_hb_gain as int,
                                run.hb_gain as int,
                            ),
                            buf[k] as int,
                        ) as i16
                    } else {
                        buf[k]
                    },
            )
        } else {
            buf
        }
    }

    /// Fades what is coded to the gain of the high band, over the overlap of music frames.
    pub fn fade_high_band(&mut self, run: &FrameRun, pcm_buf: &mut Vec<i16>, window: &[i16])
        requires
            old(self).wf(),
            frame_domain(old(self).fs as int, run.frame_size as int),
            0 <= run.hb_gain <= Q15ONE,
            CELT_OVERLAP <= window@.len(),
            run.frame_size * old(self).channels <= old(pcm_buf)@.len(),
        ensures
            final(self).wf(),
            *final(self) == (OpusEncoder { prev_hb_gain: run.hb_gain, ..*old(self) }),
            final(pcm_buf)@ =~= old(self).high_band_faded(*run, old(pcm_buf)@, window@),
    {
        proof {
            lemma_frame_samples(self.fs as int, run.frame_size as int, self.channels as int);
        }
        if (self.prev_hb_gain < Q15ONE || run.hb_gain < Q15ONE) && self.celt_enc.is_some() {
            gain_fade(
                pcm_buf,
                self.prev_hb_gain,
                run.hb_gain,
                CELT_OVERLAP,
                run.frame_size,
                self.channels,
                window,
                self.fs,
            );
        }
        self.prev_hb_gain = run.hb_gain;
    }

    /// The stereo width that a rate allows for, in Q14: all of it above 32000 bits a
    /// second, none below 16000.
    pub open spec fn width_for(&self, rate: int) -> i32 {
        if self.mode == MODE_HYBRID && self.stream_channels != 1 {
            self.silk_mode.stereo_width_q14
        } else if rate > 32000 {
            16384
        } else if rate < 16000 {
            0
        } else {
            (16384 - 2048 * (32000 - rate) / (rate - 14000)) as i32
        }
    }

    /// Whether the stereo width is narrowed: it was, or is to be.
    pub open spec fn narrows(&self) -> bool {
        self.energy_masking is None && self.channels == 2 && (self.hybrid_stereo_width_q14 < 16384
            || self.silk_mode.stereo_width_q14 < 16384)
    }

    /// What is coded, faded to the stereo width: the frame is narrowed, and what lies behind
    /// it stays.
    pub open spec fn width_faded(
        &self,
        run: FrameRun,
        before: Seq<i16>,
        after: Seq<i16>,
        window: Seq<i16>,
    ) -> bool {
        if self.narrows() && self.celt_enc is Some {
            &&& after.len() == before.len()
            &&& forall|i: int|
                0 <= i < run.frame_size ==> #[trigger] narrowed(
                    before,
                    after,
                    i,
                    side_gain(
                        i,
                        window,
                        CELT_OVERLAP as int,
                        self.fs as int,
                        width_gain(self.hybrid_stereo_width_q14 as int),
                        width_gain(self.silk_mode.stereo_width_q14 as int),
                    ),
                )
            &&& forall|k: int|
                2 * run.frame_size <= k < before.len() ==> #[trigger] after[k] == before[k]
        } else {
            after == before
        }
    }

    /// Sets the stereo width by the rate. In hybrid mode the speech coder has set it.
    pub fn set_width(&mut self, run: &FrameRun)
        requires
            old(self).wf(),
            0 <= old(self).silk_mode.stereo_width_q14 <= 16384,
        ensures
            final(self).wf(),
            *final(self) == (OpusEncoder {
                silk_mode: SilkEncControlStruct {
                    stereo_width_q14: old(self).width_for(run.equiv_rate as int),
                    ..old(self).silk_mode
                },
                ..*old(self)
            }),
            0 <= final(self).silk_mode.stereo_width_q14 <= 16384,
    {
        if self.mode != MODE_HYBRID || self.stream_channels == 1 {
            let rate: i32 = run.equiv_rate;
            self.silk_mode.stereo_width_q14 = if rate > 32000 {
                16384
            } else if rate < 16000 {
                0
            } else {
                proof {
                    let (a, b) = (2048 * (32000 - rate), rate - 14000);
                    assert(0 <= a / b <= 16384) by (nonlinear_arith)
                        requires
                            0 <= a <= 16384 * b,
                            b > 0,
                    ;
                }
                16384 - 2048 * (32000 - rate) / (rate - 14000)
            };
        }
    }

    /// Fades what is coded to the stereo width.
    pub fn fade_width(&mut self, run: &FrameRun, pcm_buf: &mut Vec<i16>, window: &[i16])
        requires
            old(self).wf(),
            frame_domain(old(self).fs as int, run.frame_size as int),
            0 <= old(self).silk_mode.stereo_width_q14 <= 16384,
            CELT_OVERLAP <= window@.len(),
            run.frame_size * old(self).channels <= old(pcm_buf)@.len(),
        ensures
            final(self).wf(),
            *final(self) == (OpusEncoder {
                hybrid_stereo_width_q14: if old(self).narrows() {
                    old(self).silk_mode.stereo_width_q14 as i16
                } else {
                    old(self).hybrid_stereo_width_q14
                },
                ..*old(self)
            }),
            old(self).width_faded(*run, old(pcm_buf)@, final(pcm_buf)@, window@),
            final(pcm_buf)@.len() == old(pcm_buf)@.len(),
    {
        proof {
            lemma_frame_samples(self.fs as int, run.frame_size as int, self.channels as int);
        }
        if self.energy_masking.is_none() && self.channels == 2 && (self.hybrid_stereo_width_q14
            < 16384 || self.silk_mode.stereo_width_q14 < 16384) {
            let g1: i32 = gain_of_width(self.hybrid_stereo_width_q14 as i32);
            let g2: i32 = gain_of_width(self.silk_mode.stereo_width_q14);
            if self.celt_enc.is_some() {
                proof {
                    lemma_overlap(self.fs as int);
                }
                stereo_fade(
                    pcm_buf,
                    g1,
                    g2,
                    CELT_OVERLAP,
                    run.frame_size,
                    self.channels,
                    window,
                    self.fs,
                );
            }
            self.hybrid_stereo_width_q14 = self.silk_mode.stereo_width_q14 as i16;
        }
    }
}

/// At each sampling rate the overlap lasts 2.5 ms.
proof fn lemma_overlap(fs: int)
    requires
        crate::rates::valid_fs(fs),
    ensures
        ({
            let inc = max_int(1, 48000int / fs);
            &&& 1 <= inc
            &&& 120int / inc == fs / 400
            &&& (120int / inc - 1) * inc < 120
        }),
{
    let inc = max_int(1, 48000int / fs);
    if fs == 8000 {
        assert(48000int / fs == 6) by (nonlinear_arith)
            requires
                fs == 8000,
        ;
        assert(120int / inc == 20 && (120int / inc - 1) * inc < 120) by (nonlinear_arith)
            requires
                inc == 6,
        ;
    } else if fs == 12000 {
        assert(48000int / fs == 4) by (nonlinear_arith)
            requires
                fs == 12000,
        ;
        assert(120int / inc == 30 && (120int / inc - 1) * inc < 120) by (nonlinear_arith)
            requires
                inc == 4,
        ;
    } else if fs == 16000 {
        assert(48000int / fs == 3) by (nonlinear_arith)
            requires
                fs == 16000,
        ;
        assert(120int / inc == 40 && (120int / inc - 1) * inc < 120) by (nonlinear_arith)
            requires
                inc == 3,
        ;
    } else if fs == 24000 {
        assert(48000int / fs == 2) by (nonlinear_arith)
            requires
                fs == 24000,
        ;
        assert(120int / inc == 60 && (120int / inc - 1) * inc < 120) by (nonlinear_arith)
            requires
                inc == 2,
        ;
    } else {
        assert(48000int / fs == 1) by (nonlinear_arith)
            requires
                fs == 48000,
        ;
        assert(120int / inc == 120 && (120int / inc - 1) * inc < 120) by (nonlinear_arith)
            requires
                inc == 1,
        ;
    }
}

/// A width in Q14 as a gain in Q15.
pub open spec fn width_gain(width: int) -> int {
    if width == 16384 {
        Q15ONE as int
    } else {
        2 * width
    }
}

fn gain_of_width(width: i32) -> (r: i32)
    requires
        0 <= width <= 16384,
    ensures
        r == width_gain(width as int),
        0 <= r <= Q15ONE,
{
    if width == 16384 {
        Q15ONE
    } else {
        2 * width
    }
}

// ---------------------------------------------------------------------------
// Room for short frames
// ---------------------------------------------------------------------------

/// A symbol for the range coder.
#[derive(Clone, Copy, Debug, PartialEq, Eq, Structural)]
pub enum Symbol {
    /// A bit that is set once in two to the `weight` times.
    Bit { set: bool, weight: u32 },
    /// A number below `total`, all of which are equally likely.
    Number { value: u32, total: u32 },
}

impl OpusEncoder {
    /// Whether a short frame can be announced after `tell` bits: that takes 17 bits, and 20
    /// more in hybrid mode.
    pub open spec fn announces(&self, run: FrameRun, tell: int) -> bool {
        self.mode != MODE_CELT_ONLY && tell + 17 + (if self.mode == MODE_HYBRID {
            20int
        } else {
            0
        }) <= 8 * (run.max_data_bytes - 1)
    }

    /// Whether a short frame can be announced after `tell` bits.
    pub fn can_announce(&self, run: &FrameRun, tell: i32) -> (r: bool)
        requires
            1 <= run.max_data_bytes <= MAX_SINGLE_BYTES,
            0 <= tell <= 1_000_000,
        ensures
            r == self.announces(*run, tell as int),
    {
        let more: i32 = if self.mode == MODE_HYBRID { 20 } else { 0 };
        self.mode != MODE_CELT_ONLY && tell + 17 + more <= 8 * (run.max_data_bytes - 1)
    }

    /// What announces a short frame, where it can be announced: in hybrid mode, whether there
    /// is one, which is rare; then, where there is one, whether it leads to speech.
    pub open spec fn announcement(&self, run: FrameRun, announced: bool) -> Seq<Symbol> {
        let there = Symbol::Bit { set: run.redundancy, weight: 12 };
        let side = Symbol::Bit { set: run.celt_to_silk, weight: 1 };
        if !announced {
            Seq::empty()
        } else if self.mode == MODE_HYBRID {
            if run.redundancy {
                seq![there, side]
            } else {
                seq![there]
            }
        } else if run.redundancy {
            seq![side]
        } else {
            Seq::empty()
        }
    }

    /// The symbols that announce a short frame.
    pub fn announce_short_frame(&self, run: &FrameRun, announced: bool) -> (r: Vec<Symbol>)
        ensures
            r@ == self.announcement(*run, announced),
    {
        let mut r: Vec<Symbol> = Vec::new();
        if announced && self.mode == MODE_HYBRID {
            r.push(Symbol::Bit { set: run.redundancy, weight: 12 });
        }
        if announced && run.redundancy {
            r.push(Symbol::Bit { set: run.celt_to_silk, weight: 1 });
        }
        proof {
            assert(r@ =~= self.announcement(*run, announced));
        }
        r
    }

    /// The symbol that tells how long a short frame is, once that is settled. Hybrid frames
    /// have one; with speech alone the short frame takes what is left of the packet.
    pub fn short_frame_size(&self, run: &FrameRun) -> (r: Option<Symbol>)
        requires
            run.redundancy ==> 2 <= run.redundancy_bytes <= 257,
        ensures
            r == if run.redundancy && self.mode == MODE_HYBRID {
                Some(Symbol::Number { value: (run.redundancy_bytes - 2) as u32, total: 256 })
            } else {
                None
            },
    {
        if run.redundancy && self.mode == MODE_HYBRID {
            Some(Symbol::Number { value: (run.redundancy_bytes - 2) as u32, total: 256 })
        } else {
            None
        }
    }

    /// Bytes of a short frame that was announced up to `tell` bits, where its size is still
    /// to be written in hybrid mode.
    pub open spec fn short_bytes(&self, run: FrameRun, tell: int) -> int {
        let room = run.max_data_bytes - 1 - if self.mode == MODE_HYBRID {
            (tell + 18) / 8
        } else {
            (tell + 7) / 8
        };
        min_int(257, max_int(2, min_int(room, run.redundancy_bytes as int)))
    }

    /// The frame once it is settled whether a short frame comes along: `announced` is whether
    /// it could be announced.
    pub open spec fn settled(&self, run: FrameRun, announced: bool, tell: int) -> FrameRun {
        if announced && run.redundancy {
            FrameRun { redundancy_bytes: self.short_bytes(run, tell) as i32, ..run }
        } else {
            FrameRun { redundancy: false, redundancy_bytes: 0, ..run }
        }
    }

    /// Settles whether a short frame comes along, and how long it is: `announced` is whether
    /// it could be announced, and `tell` how many bits were written then.
    pub fn settle_redundancy(&mut self, run: &mut FrameRun, announced: bool, tell: i32)
        requires
            old(self).wf(),
            1 <= old(run).max_data_bytes <= MAX_SINGLE_BYTES,
            0 <= tell <= 1_000_000,
        ensures
            final(self).counts_like(*old(self)),
            final(self).wf(),
            *final(run) == old(self).settled(*old(run), announced, tell as int),
            *final(self) == if announced && old(run).redundancy {
                *old(self)
            } else {
                OpusEncoder { silk_bw_switch: 0, ..*old(self) }
            },
            final(run).redundancy ==> 2 <= final(run).redundancy_bytes <= 257,
    {
        if announced && run.redundancy {
            let used: i32 = if self.mode == MODE_HYBRID { (tell + 18) / 8 } else { (tell + 7) / 8 };
            let room: i32 = run.max_data_bytes - 1 - used;
            run.redundancy_bytes = imin(257, imax(2, imin(room, run.redundancy_bytes)));
        } else {
            run.redundancy = false;
            self.silk_bw_switch = 0;
            run.redundancy_bytes = 0;
        }
    }

    /// Bytes of the main frame: of speech what was written, in `tell` bits; else what the
    /// short frame leaves, less three quarters of what redundancy is to take, as far as
    /// what was written allows for that.
    pub open spec fn main_bytes(&self, run: FrameRun, tell: int) -> int {
        let room = run.max_data_bytes - 1 - run.redundancy_bytes;
        let dred = bits_of(
            run.dred_bitrate_bps as int,
            self.fs as int,
            run.frame_size as int,
        ) / 8;
        if self.mode == MODE_SILK_ONLY {
            (tell + 7) / 8
        } else if self.dred_duration > 0 {
            min_int(room, max_int((tell + 7) / 8 + 5, room - dred * 3 / 4))
        } else {
            room
        }
    }

    /// Finds the bytes of the main frame.
    pub fn find_main_bytes(&self, run: &FrameRun, tell: i32) -> (r: i32)
        requires
            self.wf(),
            frame_domain(self.fs as int, run.frame_size as int),
            1 <= run.max_data_bytes <= MAX_SINGLE_BYTES,
            0 <= run.redundancy_bytes <= 257,
            0 <= run.dred_bitrate_bps <= 835600,
            0 <= tell <= 1_000_000,
        ensures
            r == self.main_bytes(*run, tell as int),
    {
        if self.mode == MODE_SILK_ONLY {
            return (tell + 7) / 8;
        }
        let room: i32 = run.max_data_bytes - 1 - run.redundancy_bytes;
        if self.dred_duration > 0 {
            proof {
                lemma_frame_samples(self.fs as int, run.frame_size as int, 1);
                let (b, q) = (
                    run.dred_bitrate_bps as int,
                    6 * self.fs as int / run.frame_size as int,
                );
                assert(0 <= tdiv(b * 6, q) <= 101000) by (nonlinear_arith)
                    requires
                        0 <= b <= 835600,
                        q >= 50,
                ;
            }
            let dred: i32 = bitrate_to_bits(run.dred_bitrate_bps, self.fs, run.frame_size) / 8;
            imin(room, imax((tell + 7) / 8 + 5, room - dred * 3 / 4))
        } else {
            room
        }
    }
}

/// Whether the music coder can add to a main frame of which `tell` bits are written.
pub fn has_room(main_bytes: i32, tell: i32) -> (r: bool)
    requires
        -1000 <= main_bytes <= 1_000_000,
    ensures
        r <==> tell <= 8 * main_bytes,
{
    tell <= 8 * main_bytes
}

// ---------------------------------------------------------------------------
// Before the music coder
// ---------------------------------------------------------------------------

impl OpusEncoder {
    /// The encoder as it is told of the stereo width, which the fade goes by.
    pub open spec fn widened(self, run: FrameRun) -> OpusEncoder {
        OpusEncoder {
            silk_mode: SilkEncControlStruct {
                stereo_width_q14: self.width_for(run.equiv_rate as int),
                ..self.silk_mode
            },
            ..self
        }
    }

    /// The encoder once a frame was shaped for music, but for its buffers.
    pub open spec fn shaped(self, run: FrameRun) -> OpusEncoder {
        let w = self.widened(run);
        OpusEncoder {
            celt_enc: match self.celt_enc {
                Some(c) => Some(self.music_set_up(run, c)),
                None => None,
            },
            prev_hb_gain: run.hb_gain,
            hybrid_stereo_width_q14: if w.narrows() {
                w.silk_mode.stereo_width_q14 as i16
            } else {
                self.hybrid_stereo_width_q14
            },
            ..w
        }
    }

    /// Gets a frame ready for the music coder: tells it of the frame, keeps what warms it
    /// up, moves the delay buffer on, and fades gain and stereo width.
    pub fn shape_frame(&mut self, run: &FrameRun, pcm_buf: &mut Vec<i16>, window: &[i16])
        requires
            old(self).wf(),
            frame_domain(old(self).fs as int, run.frame_size as int),
            0 <= run.hb_gain <= Q15ONE,
            0 <= old(self).silk_mode.stereo_width_q14 <= 16384,
            CELT_OVERLAP <= window@.len(),
            old(pcm_buf)@.len() == (old(self).delay() + run.frame_size) * old(self).channels,
        ensures
            final(self).counts_like(*old(self)),
            final(self).wf(),
            *final(self) == (OpusEncoder {
                tmp_prefill: final(self).tmp_prefill,
                delay_buffer: final(self).delay_buffer,
                ..old(self).shaped(*run)
            }),
            final(self).tmp_prefill@ =~= if old(self).warms_up() && old(self).application
                != OPUS_APPLICATION_RESTRICTED_SILK {
                let from = (old(self).encoder_buffer - old(self).delay() - old(self).fs / 400)
                    * old(self).channels;
                old(self).delay_buffer@.subrange(from, from + old(self).tmp_prefill@.len())
            } else {
                old(self).tmp_prefill@
            },
            final(self).delay_buffer@ =~= delayed(
                old(self).delay_buffer@,
                old(self).delay() * old(self).channels,
                run.frame_size * old(self).channels,
                old(pcm_buf)@,
            ),
            old(self).widened(*run).width_faded(
                *run,
                old(self).high_band_faded(*run, old(pcm_buf)@, window@),
                final(pcm_buf)@,
                window@,
            ),
            final(pcm_buf)@.len() == old(pcm_buf)@.len(),
    {
        proof {
            lemma_frame_samples(self.fs as int, run.frame_size as int, self.channels as int);
            let (d, n, c) = (self.delay(), run.frame_size as int, self.channels as int);
            assert(n * c <= (d + n) * c) by (nonlinear_arith)
                requires
                    0 <= d,
                    0 <= c,
            ;
        }
        let total: i32 = self.total_buffer();
        self.set_up_celt(run);
        self.keep_prefill();
        self.update_delay_buffer_from_pcm_buf(pcm_buf, run.frame_size, total);
        self.fade_high_band(run, pcm_buf, window);
        self.set_width(run);
        self.fade_width(run, pcm_buf, window);
    }
}

} // verus!
