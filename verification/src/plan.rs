//! What is decided before a packet is coded: how many bytes it may take, whether to code
//! it at all, how, at which bandwidth, and in how many frames.

use vstd::prelude::*;
use crate::arith::{floor_div, imax, imin, max_int, min_int, mult_q15, q15, tdiv, Q15ONE};
use crate::coders::{AnalysisCursor, AnalysisInfo, CeltEncoder, SilkEncControlStruct, SilkEncoder};
use crate::bare::shape_of;
use crate::codes::{OPUS_BAD_ARG, OPUS_BUFFER_TOO_SMALL};
use crate::dred::{dred_plan, plan_dred, DredPlan};
use crate::dsp::{
    compute_frame_energy, compute_stereo_width, energy_of, is_digital_silence, silent, width_after,
    StereoWidthState, Width,
};
use crate::extension_gen::overwritten;
use crate::padding::repacked;
use crate::encoder::{valid_bandwidth, valid_mode, OpusEncoder};
use crate::modes::{
    MODE_CELT_ONLY, MODE_HYBRID, MODE_SILK_ONLY, OPUS_APPLICATION_AUDIO,
    OPUS_APPLICATION_RESTRICTED_LOWDELAY, OPUS_APPLICATION_RESTRICTED_SILK, OPUS_APPLICATION_VOIP,
    OPUS_AUTO, OPUS_BANDWIDTH_FULLBAND, OPUS_BANDWIDTH_MEDIUMBAND, OPUS_BANDWIDTH_NARROWBAND,
    OPUS_BANDWIDTH_SUPERWIDEBAND, OPUS_BANDWIDTH_WIDEBAND, OPUS_SIGNAL_MUSIC, OPUS_SIGNAL_VOICE,
};
use crate::rates::{
    bitrate_of, bitrate_to_bits, bits_of, bits_to_bitrate, compute_equiv_rate, decide_fec,
    effective_bitrate, equiv_rate_of, fec_bandwidth, frame_size_select, selected_size,
    user_bitrate_to_bitrate, valid_fs,
};

verus! {

/// A packet takes no more than six frames of 1276 bytes.
pub const MAX_PACKET_BYTES: i32 = 7656;

/// Frames that can be coded last from 2.5 to 120 ms.
pub open spec fn frame_domain(fs: int, n: int) -> bool {
    &&& valid_fs(fs)
    &&& fs <= 400 * n
    &&& 50 * n <= 6 * fs
}

/// A frame has few samples.
pub proof fn lemma_frame_samples(fs: int, n: int, channels: int)
    requires
        frame_domain(fs, n),
        1 <= channels <= 2,
    ensures
        20 <= n <= 5760,
        n <= n * channels <= 11520,
        8 <= fs / n <= 400,
        50 <= 6 * fs / n <= 2400,
{
    assert(n <= n * channels <= 2 * n) by (nonlinear_arith)
        requires
            n >= 0,
            1 <= channels <= 2,
    ;
    assert(8 <= fs / n <= 400) by (nonlinear_arith)
        requires
            n > 0,
            fs <= 400 * n,
            8 * n <= fs,
    ;
    assert(50 <= 6 * fs / n <= 2400) by (nonlinear_arith)
        requires
            n > 0,
            fs <= 400 * n,
            50 * n <= 6 * fs,
    ;
}

// ---------------------------------------------------------------------------
// What the input is like
// ---------------------------------------------------------------------------

/// The bandwidth that the analysis means by the number of a band.
pub open spec fn band_width(band: int) -> i32 {
    if band <= 12 {
        OPUS_BANDWIDTH_NARROWBAND
    } else if band <= 14 {
        OPUS_BANDWIDTH_MEDIUMBAND
    } else if band <= 16 {
        OPUS_BANDWIDTH_WIDEBAND
    } else if band <= 18 {
        OPUS_BANDWIDTH_SUPERWIDEBAND
    } else {
        OPUS_BANDWIDTH_FULLBAND
    }
}

/// An estimate of stereo width from its values.
pub open spec fn width_state(w: Width) -> StereoWidthState {
    StereoWidthState {
        xx: w.xx as i32,
        xy: w.xy as i32,
        yy: w.yy as i32,
        smoothed_width: w.smoothed as i32,
        max_follower: w.follower as i32,
    }
}

impl OpusEncoder {
    /// Whether the encoder wants the input analysed.
    pub open spec fn wants_analysis(&self) -> bool {
        self.silk_mode.complexity >= 10 && 16000 <= self.fs <= 48000 && self.application
            != OPUS_APPLICATION_RESTRICTED_SILK
    }

    /// What is known of the input: an analysis that is not wanted says nothing.
    pub open spec fn known(&self, info: AnalysisInfo) -> AnalysisInfo {
        if self.wants_analysis() {
            info
        } else {
            AnalysisInfo::unknown()
        }
    }

    /// The analysis once it is not wanted: it starts over.
    pub open spec fn opened(self) -> OpusEncoder {
        OpusEncoder {
            range_final: 0,
            analysis: if !self.wants_analysis() && self.analysis.initialized != 0 {
                AnalysisCursor { initialized: 0, read_pos: 0, read_subframe: 0, ..self.analysis }
            } else {
                self.analysis
            },
            ..self
        }
    }

    /// Opens a packet of at most `out_data_bytes` bytes for `frame_size` samples a channel:
    /// says whether the input is to be analysed first. Nothing fits in no bytes, and 100 ms
    /// do not fit in one.
    pub fn open_packet(&mut self, frame_size: i32, out_data_bytes: i32) -> (r: Result<bool, i32>)
        ensures
            if frame_size <= 0 || out_data_bytes <= 0 {
                &&& r == Err::<bool, i32>(OPUS_BAD_ARG)
                &&& *final(self) == (OpusEncoder { range_final: 0, ..*old(self) })
            } else if out_data_bytes == 1 && old(self).fs == 10 * frame_size {
                &&& r == Err::<bool, i32>(OPUS_BUFFER_TOO_SMALL)
                &&& *final(self) == (OpusEncoder { range_final: 0, ..*old(self) })
            } else {
                &&& r == Ok::<bool, i32>(old(self).wants_analysis())
                &&& *final(self) == old(self).opened()
            },
            old(self).wf() ==> final(self).wf(),
    {
        self.range_final = 0;
        if frame_size <= 0 || out_data_bytes <= 0 {
            return Err(OPUS_BAD_ARG);
        }
        if out_data_bytes == 1 && self.fs as i64 == 10 * frame_size as i64 {
            return Err(OPUS_BUFFER_TOO_SMALL);
        }
        let wanted = self.silk_mode.complexity >= 10 && self.fs >= 16000 && self.fs <= 48000
            && self.application != OPUS_APPLICATION_RESTRICTED_SILK;
        if !wanted && self.analysis.initialized != 0 {
            self.analysis.initialized = 0;
            self.analysis.read_pos = 0;
            self.analysis.read_subframe = 0;
        }
        Ok(wanted)
    }

    /// How much speaks for voice, by the analysis: the encoder is slow to change its mind.
    pub open spec fn voice_ratio_by(&self, info: AnalysisInfo) -> i32 {
        if self.prev_mode == 0 {
            info.voice_ratio
        } else if self.prev_mode == MODE_CELT_ONLY {
            info.voice_ratio_max
        } else {
            info.voice_ratio_min
        }
    }

    /// The encoder once it has heard a frame. Of silence nothing new is learnt of voice;
    /// the peak of energy fades, and frames without activity do not raise it.
    pub open spec fn heard(self, pcm: Seq<i16>, n: int, info: AnalysisInfo) -> OpusEncoder {
        let quiet = silent(pcm, n * self.channels);
        OpusEncoder {
            voice_ratio: if info.valid && self.signal_type == OPUS_AUTO {
                self.voice_ratio_by(info)
            } else if quiet {
                self.voice_ratio
            } else {
                -1i32
            },
            detected_bandwidth: if info.valid {
                band_width(info.bandwidth as int)
            } else {
                0
            },
            peak_signal_energy: if (!info.valid || info.active) && !quiet {
                max_int(
                    self.peak_signal_energy * 32735 / 32768,
                    energy_of(pcm, n * self.channels),
                ) as i32
            } else {
                self.peak_signal_energy
            },
            width_mem: if self.channels == 2 && self.force_channels != 1 {
                width_state(width_after(self.width_mem@, pcm, n, self.fs as int))
            } else {
                self.width_mem
            },
            ..self
        }
    }

    /// The stereo width of what was heard last, in Q15.
    pub open spec fn stereo_width(self) -> int {
        if self.channels == 2 && self.force_channels != 1 {
            min_int(Q15ONE as int, 20 * self.width_mem@.follower)
        } else {
            0
        }
    }

    /// Hears a frame of `frame_size` samples a channel: whether it is silent, and its
    /// stereo width.
    pub fn hear(&mut self, pcm: &[i16], frame_size: i32, lsb_depth: i32, info: &AnalysisInfo) -> (r: (
        bool,
        i32,
    ))
        requires
            old(self).wf(),
            info.wf(),
            frame_domain(old(self).fs as int, frame_size as int),
            frame_size * old(self).channels <= pcm@.len(),
        ensures
            final(self).wf(),
            *final(self) == old(self).heard(pcm@, frame_size as int, *info),
            r.0 == silent(pcm@, frame_size * old(self).channels),
            r.1 == final(self).stereo_width(),
            0 <= r.1 <= Q15ONE,
    {
        proof {
            lemma_frame_samples(self.fs as int, frame_size as int, self.channels as int);
        }
        let quiet = is_digital_silence(pcm, frame_size, self.channels, lsb_depth);
        if !quiet {
            self.voice_ratio = -1;
        }
        self.detected_bandwidth = 0;
        if info.valid {
            if self.signal_type == OPUS_AUTO {
                self.voice_ratio = if self.prev_mode == 0 {
                    info.voice_ratio
                } else if self.prev_mode == MODE_CELT_ONLY {
                    info.voice_ratio_max
                } else {
                    info.voice_ratio_min
                };
            }
            let band: i32 = info.bandwidth;
            self.detected_bandwidth = if band <= 12 {
                OPUS_BANDWIDTH_NARROWBAND
            } else if band <= 14 {
                OPUS_BANDWIDTH_MEDIUMBAND
            } else if band <= 16 {
                OPUS_BANDWIDTH_WIDEBAND
            } else if band <= 18 {
                OPUS_BANDWIDTH_SUPERWIDEBAND
            } else {
                OPUS_BANDWIDTH_FULLBAND
            };
        }
        if (!info.valid || info.active) && !quiet {
            let energy: i32 = compute_frame_energy(pcm, frame_size, self.channels);
            let faded: i32 = floor_div(self.peak_signal_energy as i64 * 32735, 32768) as i32;
            self.peak_signal_energy = imax(faded, energy);
        }
        let width: i32 = if self.channels == 2 && self.force_channels != 1 {
            compute_stereo_width(pcm, frame_size, self.fs, &mut self.width_mem)
        } else {
            0
        };
        (quiet, width)
    }
}

// ---------------------------------------------------------------------------
// What there is to spend
// ---------------------------------------------------------------------------

/// Plans redundancy out of a bitrate: returns its share, and keeps what it is coded with.
pub fn compute_dred_bitrate(enc: &mut OpusEncoder, bitrate_bps: i32, frame_size: i32) -> (r: i32)
    requires
        0 <= old(enc).silk_mode.packet_loss_percentage <= 100,
        frame_domain(old(enc).fs as int, frame_size as int),
        old(enc).dred_duration <= i32::MAX - 5,
        bitrate_bps >= i32::MIN + 20000,
    ensures
        ({
            let p = dred_plan(
                old(enc).silk_mode.use_in_band_fec != 0,
                old(enc).silk_mode.packet_loss_percentage as int,
                old(enc).fs as int,
                old(enc).dred_duration as int,
                bitrate_bps as int,
                frame_size as int,
            );
            &&& r == p.bitrate
            &&& *final(enc) == (OpusEncoder {
                dred_q0: p.q0 as i32,
                dred_d_q: p.d_q as i32,
                dred_qmax: p.qmax as i32,
                dred_target_chunks: p.chunks as i32,
                ..*old(enc)
            })
        }),
        0 <= r <= 835600,
{
    let share = plan_dred(
        enc.silk_mode.use_in_band_fec != 0,
        enc.silk_mode.packet_loss_percentage,
        enc.fs,
        enc.dred_duration,
        bitrate_bps,
        frame_size,
    );
    enc.dred_q0 = share.q0;
    enc.dred_d_q = share.d_q;
    enc.dred_qmax = share.qmax;
    enc.dred_target_chunks = share.chunks;
    share.bitrate
}

/// Bytes that a packet may take, and the bitrate that redundancy takes out of it.
pub struct Budget {
    pub max_data_bytes: i32,
    pub dred_bitrate_bps: i32,
}

impl OpusEncoder {
    /// The bitrate for frames of `n` samples in packets of `max` bytes.
    pub open spec fn asked_rate(&self, n: int, max: int) -> int {
        effective_bitrate(
            self.user_bitrate_bps as int,
            self.channels as int,
            self.fs as int,
            n,
            max,
        )
    }

    /// Bytes of a packet where all have one size.
    pub open spec fn fixed_bytes(&self, n: int, max: int) -> int {
        min_int((bits_of(self.asked_rate(n, max), self.fs as int, n) + 4) / 8, max)
    }

    /// Bytes that a packet may take.
    pub open spec fn packet_limit(&self, n: int, max: int) -> int {
        if self.use_vbr == 0 {
            max_int(1, self.fixed_bytes(n, max))
        } else {
            max
        }
    }

    /// The bitrate before redundancy takes its share.
    pub open spec fn gross_rate(&self, n: int, max: int) -> int {
        if self.use_vbr == 0 {
            bitrate_of(self.fixed_bytes(n, max) * 8, self.fs as int, n)
        } else {
            self.asked_rate(n, max)
        }
    }

    /// What redundancy is to be.
    pub open spec fn dred_share(&self, n: int, max: int) -> DredPlan {
        dred_plan(
            self.silk_mode.use_in_band_fec != 0,
            self.silk_mode.packet_loss_percentage as int,
            self.fs as int,
            self.dred_duration as int,
            self.gross_rate(n, max),
            n,
        )
    }

    /// The encoder once it knows what there is to spend.
    pub open spec fn budgeted(self, n: int, max: int) -> OpusEncoder {
        let share = self.dred_share(n, max);
        OpusEncoder {
            bitrate_bps: (self.gross_rate(n, max) - share.bitrate) as i32,
            dred_q0: share.q0 as i32,
            dred_d_q: share.d_q as i32,
            dred_qmax: share.qmax as i32,
            dred_target_chunks: share.chunks as i32,
            ..self
        }
    }

    pub proof fn lemma_rates(&self, n: int, max: int)
        requires
            self.wf(),
            frame_domain(self.fs as int, n),
            1 <= max <= MAX_PACKET_BYTES,
        ensures
            0 <= self.asked_rate(n, max) <= 1500000,
            0 <= bits_of(self.asked_rate(n, max), self.fs as int, n) <= 180000,
            0 <= self.fixed_bytes(n, max) <= max,
            1 <= self.packet_limit(n, max) <= max,
            0 <= self.gross_rate(n, max) <= 1501600,
            0 <= bitrate_of(self.packet_limit(n, max) * 8, self.fs as int, n) <= 24_499_200,
            0 <= bitrate_of(self.fixed_bytes(n, max) * 8, self.fs as int, n) <= 1501600,
    {
        let fs = self.fs as int;
        let q = 6 * fs / n;
        lemma_frame_samples(fs, n, self.channels as int);
        assert(0 <= 60 * fs / n <= 24000) by (nonlinear_arith)
            requires
                n > 0,
                0 <= fs <= 400 * n,
        ;
        assert(0 <= fs * self.channels <= 96000) by (nonlinear_arith)
            requires
                0 <= fs <= 48000,
                1 <= self.channels <= 2,
        ;
        assert(0 <= (max * 8) * q <= 61248 * 2400) by (nonlinear_arith)
            requires
                1 <= max <= 7656,
                0 <= q <= 2400,
        ;
        let rate = self.asked_rate(n, max);
        assert(0 <= rate <= 1500000);
        let bits = bits_of(rate, fs, n);
        assert(0 <= bits <= 180000 && bits * q <= rate * 6) by (nonlinear_arith)
            requires
                bits == rate * 6 / q,
                0 <= rate <= 1500000,
                50 <= q,
        ;
        let bytes = self.fixed_bytes(n, max);
        assert((bytes * 8) * q <= (bits + 4) * q) by (nonlinear_arith)
            requires
                bytes * 8 <= bits + 4,
                q >= 0,
        ;
        assert((bits + 4) * q == bits * q + 4 * q) by (nonlinear_arith);
        assert(0 <= (bytes * 8) * q) by (nonlinear_arith)
            requires
                bytes >= 0,
                q >= 0,
        ;
        let limit = self.packet_limit(n, max);
        assert(0 <= (limit * 8) * q <= 61248 * 2400) by (nonlinear_arith)
            requires
                1 <= limit <= 7656,
                0 <= q <= 2400,
        ;
    }

    /// Works out what a packet may take. Where packets have one size, the bitrate is what
    /// that size comes to.
    pub fn budget(&mut self, frame_size: i32, max_data_bytes: i32) -> (r: Budget)
        requires
            old(self).wf(),
            frame_domain(old(self).fs as int, frame_size as int),
            1 <= max_data_bytes <= MAX_PACKET_BYTES,
        ensures
            final(self).wf(),
            *final(self) == old(self).budgeted(frame_size as int, max_data_bytes as int),
            r.max_data_bytes == old(self).packet_limit(frame_size as int, max_data_bytes as int),
            1 <= r.max_data_bytes <= max_data_bytes,
            r.dred_bitrate_bps == old(self).dred_share(
                frame_size as int,
                max_data_bytes as int,
            ).bitrate,
            0 <= r.dred_bitrate_bps <= 835600,
    {
        let n: i32 = frame_size;
        proof {
            lemma_frame_samples(self.fs as int, n as int, self.channels as int);
            self.lemma_rates(n as int, max_data_bytes as int);
        }
        let mut rate: i32 = user_bitrate_to_bitrate(
            self.user_bitrate_bps,
            self.channels,
            self.fs,
            n,
            max_data_bytes,
        );
        let mut limit: i32 = max_data_bytes;
        if self.use_vbr == 0 {
            let bytes: i32 = imin((bitrate_to_bits(rate, self.fs, n) + 4) / 8, max_data_bytes);
            rate = bits_to_bitrate(bytes * 8, self.fs, n);
            limit = imax(1, bytes);
        }
        let dred: i32 = compute_dred_bitrate(self, rate, n);
        self.bitrate_bps = rate - dred;
        Budget { max_data_bytes: limit, dred_bitrate_bps: dred }
    }

    /// Whether there is too little to spend on `frame_rate` frames a second to code any.
    pub open spec fn starved(&self, frame_rate: int, limit: int) -> bool {
        ||| limit < 3
        ||| self.bitrate_bps < 24 * frame_rate
        ||| frame_rate < 50 && (limit * frame_rate < 300 || self.bitrate_bps < 2400)
    }
}

// ---------------------------------------------------------------------------
// How to code
// ---------------------------------------------------------------------------

/// How the next frame is coded, and what eases the change from the last one.
pub struct ModeChoice {
    pub mode: i32,
    /// How much speaks for voice, in Q7.
    pub voice_est: i32,
    /// The bitrate that speech would need for this quality, in the chosen mode.
    pub equiv_rate: i32,
    /// Whether a short frame in the other mode comes along.
    pub redundancy: bool,
    pub celt_to_silk: bool,
    pub to_celt: bool,
    pub prefill: i32,
}

impl OpusEncoder {
    /// How much speaks for voice, in Q7.
    pub open spec fn voice_estimate(&self) -> int {
        if self.signal_type == OPUS_SIGNAL_VOICE {
            127
        } else if self.signal_type == OPUS_SIGNAL_MUSIC {
            0
        } else if self.voice_ratio >= 0 {
            let v = self.voice_ratio * 327 / 256;
            if self.application == OPUS_APPLICATION_AUDIO {
                min_int(v, 115)
            } else {
                v
            }
        } else if self.application == OPUS_APPLICATION_VOIP {
            115
        } else {
            48
        }
    }

    /// How much speaks for voice, in Q7.
    pub fn estimate_voice(&self) -> (r: i32)
        requires
            -1 <= self.voice_ratio <= 100,
        ensures
            r == self.voice_estimate(),
            0 <= r <= 127,
    {
        if self.signal_type == OPUS_SIGNAL_VOICE {
            127
        } else if self.signal_type == OPUS_SIGNAL_MUSIC {
            0
        } else if self.voice_ratio >= 0 {
            let v: i32 = self.voice_ratio * 327 / 256;
            if self.application == OPUS_APPLICATION_AUDIO {
                imin(v, 115)
            } else {
                v
            }
        } else if self.application == OPUS_APPLICATION_VOIP {
            115
        } else {
            48
        }
    }

    /// The bitrate that speech would need for the quality that the bitrate gives in a mode.
    pub open spec fn rate_in(&self, channels: int, frame_rate: int, mode: int) -> int {
        equiv_rate_of(
            self.bitrate_bps as int,
            channels,
            frame_rate,
            self.use_vbr as int,
            mode,
            self.silk_mode.complexity as int,
            self.silk_mode.packet_loss_percentage as int,
        )
    }

    fn equiv_rate(&self, channels: i32, frame_rate: i32, mode: i32) -> (r: i32)
        requires
            self.wf(),
            1 <= channels <= 2,
            0 <= frame_rate <= 400,
        ensures
            r == self.rate_in(channels as int, frame_rate as int, mode as int),
            -22_000_000 <= r <= 22_000_000,
    {
        compute_equiv_rate(
            self.bitrate_bps,
            channels,
            frame_rate,
            self.use_vbr,
            mode,
            self.silk_mode.complexity,
            self.silk_mode.packet_loss_percentage,
        )
    }

    /// How many channels to code: as many as are asked for, or two where the rate is enough
    /// for two. The more speaks for voice the more that takes, and a change takes more.
    pub open spec fn coded_channels(&self, frame_rate: int) -> i32 {
        let v = self.voice_estimate();
        if self.channels != 2 {
            self.channels
        } else if self.force_channels != OPUS_AUTO {
            self.force_channels
        } else if self.rate_in(2, frame_rate, 0) > 17000 + v * v * 2000 / 16384 + if self.stream_channels
            == 2 {
            -1000int
        } else {
            1000
        } {
            2
        } else {
            1
        }
    }

    fn choose_channels(&self, frame_rate: i32, voice_est: i32) -> (r: i32)
        requires
            self.wf(),
            0 <= frame_rate <= 400,
            voice_est == self.voice_estimate(),
            0 <= voice_est <= 127,
        ensures
            r == self.coded_channels(frame_rate as int),
            1 <= r <= self.channels,
    {
        if self.channels != 2 {
            self.channels
        } else if self.force_channels != OPUS_AUTO {
            self.force_channels
        } else {
            let rate: i32 = self.equiv_rate(self.channels, frame_rate, 0);
            proof {
                assert(0 <= voice_est * voice_est <= 16129) by (nonlinear_arith)
                    requires
                        0 <= voice_est <= 127,
                ;
            }
            let threshold: i32 = 17000 + voice_est * voice_est * 2000 / 16384;
            let hysteresis: i32 = if self.stream_channels == 2 { -1000 } else { 1000 };
            if rate > threshold + hysteresis {
                2
            } else {
                1
            }
        }
    }

    /// The rate from which on music coding is the better choice: it depends on how much
    /// speaks for voice and on the stereo width, and a change takes more.
    pub open spec fn mode_threshold(&self, v: int, width: int) -> int {
        let voice = q15(Q15ONE - width, 64000) + q15(width, 44000);
        let music = q15(Q15ONE - width, 10000) + q15(width, 10000);
        music + tdiv(v * v * (voice - music), 16384) + (if self.application
            == OPUS_APPLICATION_VOIP {
            8000int
        } else {
            0
        }) + if self.prev_mode == MODE_CELT_ONLY {
            -4000int
        } else if self.prev_mode > 0 {
            4000
        } else {
            0
        }
    }

    fn find_mode_threshold(&self, voice_est: i32, width: i32) -> (r: i32)
        requires
            0 <= voice_est <= 127,
            0 <= width <= Q15ONE,
        ensures
            r == self.mode_threshold(voice_est as int, width as int),
    {
        let rest: i32 = Q15ONE - width;
        proof {
            assert(0 <= rest * 64000 / 32768 <= 64000) by (nonlinear_arith)
                requires
                    0 <= rest <= 32767,
            ;
            assert(0 <= width * 44000 / 32768 <= 44000) by (nonlinear_arith)
                requires
                    0 <= width <= 32767,
            ;
            assert(0 <= rest * 10000 / 32768 <= 10000) by (nonlinear_arith)
                requires
                    0 <= rest <= 32767,
            ;
            assert(0 <= width * 10000 / 32768 <= 10000) by (nonlinear_arith)
                requires
                    0 <= width <= 32767,
            ;
        }
        let voice: i64 = mult_q15(rest, 64000) + mult_q15(width, 44000);
        let music: i64 = mult_q15(rest, 10000) + mult_q15(width, 10000);
        proof {
            assert(0 <= voice_est * voice_est <= 16129) by (nonlinear_arith)
                requires
                    0 <= voice_est <= 127,
            ;
            assert(-16129 * 20000 <= voice_est * voice_est * (voice - music) <= 16129 * 108000)
                by (nonlinear_arith)
                requires
                    0 <= voice_est * voice_est <= 16129,
                    -20000 <= voice - music <= 108000,
            ;
        }
        let square: i64 = voice_est as i64 * voice_est as i64;
        let mut threshold: i64 = music + square * (voice - music) / 16384;
        if self.application == OPUS_APPLICATION_VOIP {
            threshold += 8000;
        }
        if self.prev_mode == MODE_CELT_ONLY {
            threshold -= 4000;
        } else if self.prev_mode > 0 {
            threshold += 4000;
        }
        threshold as i32
    }

    /// The mode for frames of `n` samples in packets of `limit` bytes, as far as it does not
    /// depend on the last one. Speech that is to survive loss or to be left out is coded as
    /// speech; short frames, low frequencies and the smallest packets as music.
    pub open spec fn wanted_mode(
        &self,
        n: int,
        limit: int,
        width: int,
        channels: int,
        dtx: bool,
    ) -> i32 {
        let frame_rate = self.fs as int / n;
        let v = self.voice_estimate();
        let loss = self.silk_mode.packet_loss_percentage;
        if n < self.fs / 100 || self.lfe != 0 {
            MODE_CELT_ONLY
        } else if self.application == OPUS_APPLICATION_RESTRICTED_LOWDELAY {
            MODE_CELT_ONLY
        } else if self.user_forced_mode != OPUS_AUTO {
            self.user_forced_mode
        } else if limit < bits_of(
            if frame_rate > 50 {
                9000
            } else {
                6000
            },
            self.fs as int,
            n,
        ) / 8 {
            MODE_CELT_ONLY
        } else if self.silk_mode.use_in_band_fec != 0 && loss > (128 - v) / 16 && (self.fec_config
            != 2 || v > 25) {
            MODE_SILK_ONLY
        } else if dtx && v > 100 {
            MODE_SILK_ONLY
        } else if self.rate_in(channels, frame_rate, 0) >= self.mode_threshold(v, width) {
            MODE_CELT_ONLY
        } else {
            MODE_SILK_ONLY
        }
    }

    fn want_mode(
        &self,
        frame_size: i32,
        limit: i32,
        width: i32,
        channels: i32,
        dtx: bool,
        voice_est: i32,
    ) -> (r: i32)
        requires
            self.wf(),
            frame_domain(self.fs as int, frame_size as int),
            0 <= width <= Q15ONE,
            1 <= channels <= 2,
            voice_est == self.voice_estimate(),
            0 <= voice_est <= 127,
        ensures
            r == self.wanted_mode(
                frame_size as int,
                limit as int,
                width as int,
                channels as int,
                dtx,
            ),
            valid_mode(r as int),
    {
        proof {
            lemma_frame_samples(self.fs as int, frame_size as int, 1);
        }
        let frame_rate: i32 = self.fs / frame_size;
        if frame_size < self.fs / 100 || self.lfe != 0 {
            return MODE_CELT_ONLY;
        }
        if self.application == OPUS_APPLICATION_RESTRICTED_LOWDELAY {
            return MODE_CELT_ONLY;
        }
        if self.user_forced_mode != OPUS_AUTO {
            return self.user_forced_mode;
        }
        let low_rate: i32 = if frame_rate > 50 { 9000 } else { 6000 };
        proof {
            let q = 6 * self.fs as int / frame_size as int;
            assert(0 <= low_rate * 6 / q <= 54000) by (nonlinear_arith)
                requires
                    0 <= low_rate <= 9000,
                    q >= 1,
            ;
        }
        if limit < bitrate_to_bits(low_rate, self.fs, frame_size) / 8 {
            return MODE_CELT_ONLY;
        }
        let loss: i32 = self.silk_mode.packet_loss_percentage;
        if self.silk_mode.use_in_band_fec != 0 && loss > (128 - voice_est) / 16 && (self.fec_config
            != 2 || voice_est > 25) {
            return MODE_SILK_ONLY;
        }
        if dtx && voice_est > 100 {
            return MODE_SILK_ONLY;
        }
        let threshold: i32 = self.find_mode_threshold(voice_est, width);
        if self.equiv_rate(channels, frame_rate, 0) >= threshold {
            MODE_CELT_ONLY
        } else {
            MODE_SILK_ONLY
        }
    }

    /// Whether the speech coder itself leaves frames out: it does unless the analysis knows
    /// better or there is nothing to hear.
    pub open spec fn silk_dtx(&self, quiet: bool, valid: bool) -> bool {
        self.use_dtx != 0 && !valid && !quiet
    }

    /// Whether the wanted mode is on the other side of speech and music than the last one.
    pub open spec fn switches(&self, wanted: int) -> bool {
        self.prev_mode > 0 && (self.prev_mode == MODE_CELT_ONLY) != (wanted == MODE_CELT_ONLY)
    }

    /// Whether the frame leads over to music: it is still coded as the last one, and
    /// a short music frame comes along. Frames below 10 ms change at once.
    pub open spec fn leads_to_celt(&self, n: int, wanted: int) -> bool {
        self.switches(wanted) && wanted == MODE_CELT_ONLY && n >= self.fs / 100
    }

    /// The mode of the frame.
    pub open spec fn mode_after(&self, n: int, wanted: int) -> int {
        if self.leads_to_celt(n, wanted) {
            self.prev_mode as int
        } else {
            wanted
        }
    }

    /// Whether the frame leads over from two channels to one: it still has two.
    pub open spec fn leads_to_mono(&self, channels: int, mode: int) -> bool {
        channels == 1 && self.prev_channels == 2 && self.silk_mode.to_mono == 0 && mode
            != MODE_CELT_ONLY && self.prev_mode != MODE_CELT_ONLY
    }

    /// The choice for a frame of `n` samples, and the encoder once it was made.
    pub open spec fn with_mode(
        self,
        n: int,
        limit: int,
        width: int,
        quiet: bool,
        valid: bool,
    ) -> (OpusEncoder, ModeChoice) {
        let frame_rate = self.fs as int / n;
        let channels = self.coded_channels(frame_rate);
        let dtx = self.silk_dtx(quiet, valid);
        let wanted = self.wanted_mode(n, limit, width, channels as int, dtx) as int;
        let mode = self.mode_after(n, wanted);
        let to_mono = self.leads_to_mono(channels as int, mode);
        let starts_over = mode != MODE_CELT_ONLY && self.prev_mode == MODE_CELT_ONLY;
        let celt_to_silk = self.switches(wanted) && wanted != MODE_CELT_ONLY;
        let stream_channels = if to_mono {
            2
        } else {
            channels
        };
        (
            OpusEncoder {
                stream_channels,
                silk_mode: SilkEncControlStruct {
                    use_dtx: if dtx {
                        1
                    } else {
                        0
                    },
                    to_mono: if to_mono {
                        1
                    } else {
                        0
                    },
                    ..self.silk_mode
                },
                silk_enc: if starts_over && self.silk_enc is Some {
                    Some(SilkEncoder::fresh(self.channels as int))
                } else {
                    self.silk_enc
                },
                ..self
            },
            ModeChoice {
                mode: mode as i32,
                voice_est: self.voice_estimate() as i32,
                equiv_rate: self.rate_in(stream_channels as int, frame_rate, mode) as i32,
                redundancy: celt_to_silk || self.leads_to_celt(n, wanted),
                celt_to_silk,
                to_celt: self.leads_to_celt(n, wanted),
                prefill: if starts_over {
                    1
                } else {
                    0
                },
            },
        )
    }

    /// The choice keeps everything in its range.
    pub proof fn lemma_mode_wf(
        self,
        n: int,
        limit: int,
        width: int,
        quiet: bool,
        valid: bool,
    )
        requires
            self.wf(),
            frame_domain(self.fs as int, n),
        ensures
            self.with_mode(n, limit, width, quiet, valid).0.wf(),
    {
    }

    /// Chooses how to code a frame of `frame_size` samples a channel in a packet of
    /// `limit` bytes.
    pub fn choose_mode(
        &mut self,
        frame_size: i32,
        limit: i32,
        width: i32,
        quiet: bool,
        valid: bool,
    ) -> (r: ModeChoice)
        requires
            old(self).wf(),
            frame_domain(old(self).fs as int, frame_size as int),
            0 <= width <= Q15ONE,
        ensures
            final(self).wf(),
            (*final(self), r) == old(self).with_mode(
                frame_size as int,
                limit as int,
                width as int,
                quiet,
                valid,
            ),
            valid_mode(r.mode as int),
            0 <= r.voice_est <= 127,
            -22_000_000 <= r.equiv_rate <= 22_000_000,
    {
        proof {
            lemma_frame_samples(self.fs as int, frame_size as int, 1);
        }
        let frame_rate: i32 = self.fs / frame_size;
        let voice_est: i32 = self.estimate_voice();
        let channels: i32 = self.choose_channels(frame_rate, voice_est);
        let dtx = self.use_dtx != 0 && !valid && !quiet;
        let wanted: i32 = self.want_mode(frame_size, limit, width, channels, dtx, voice_est);
        let mut mode: i32 = wanted;
        let mut redundancy = false;
        let mut celt_to_silk = false;
        let mut to_celt = false;
        if self.prev_mode > 0 && (self.prev_mode == MODE_CELT_ONLY) != (wanted == MODE_CELT_ONLY) {
            if wanted != MODE_CELT_ONLY {
                celt_to_silk = true;
                redundancy = true;
            } else if frame_size >= self.fs / 100 {
                mode = self.prev_mode;
                to_celt = true;
                redundancy = true;
            }
        }
        let to_mono = channels == 1 && self.prev_channels == 2 && self.silk_mode.to_mono == 0
            && mode != MODE_CELT_ONLY && self.prev_mode != MODE_CELT_ONLY;
        self.silk_mode.use_dtx = if dtx { 1 } else { 0 };
        self.silk_mode.to_mono = if to_mono { 1 } else { 0 };
        self.stream_channels = if to_mono { 2 } else { channels };
        let equiv_rate: i32 = self.equiv_rate(self.stream_channels, frame_rate, mode);
        let mut prefill: i32 = 0;
        if mode != MODE_CELT_ONLY && self.prev_mode == MODE_CELT_ONLY {
            if self.silk_enc.is_some() {
                self.silk_enc = Some(SilkEncoder::new(self.channels));
            }
            prefill = 1;
        }
        ModeChoice { mode, voice_est, equiv_rate, redundancy, celt_to_silk, to_celt, prefill }
    }
}

// ---------------------------------------------------------------------------
// The bandwidth
// ---------------------------------------------------------------------------

/// The rate from which on a bandwidth pays: more for voice than for music.
pub open spec fn bandwidth_rate(bandwidth: int, v: int) -> int {
    if bandwidth <= OPUS_BANDWIDTH_WIDEBAND {
        9000
    } else if bandwidth == OPUS_BANDWIDTH_SUPERWIDEBAND {
        11000 + v * v * 2500 / 16384
    } else {
        12000 + v * v * 2000 / 16384
    }
}

/// By how much that rate moves for a bandwidth that is already in use, or not yet.
pub open spec fn bandwidth_hysteresis(bandwidth: int) -> int {
    if bandwidth <= OPUS_BANDWIDTH_WIDEBAND {
        700
    } else if bandwidth == OPUS_BANDWIDTH_SUPERWIDEBAND {
        1000
    } else {
        2000
    }
}

/// The widest bandwidth that a sampling rate can carry.
pub open spec fn nyquist_bandwidth(fs: int) -> int {
    if fs <= 8000 {
        OPUS_BANDWIDTH_NARROWBAND as int
    } else if fs <= 12000 {
        OPUS_BANDWIDTH_MEDIUMBAND as int
    } else if fs <= 16000 {
        OPUS_BANDWIDTH_WIDEBAND as int
    } else if fs <= 24000 {
        OPUS_BANDWIDTH_SUPERWIDEBAND as int
    } else {
        OPUS_BANDWIDTH_FULLBAND as int
    }
}

/// The narrowest bandwidth that the analysis is believed to have found, at a rate.
pub open spec fn least_detected(rate: int, channels: int, mode: int) -> int {
    if rate <= 18000 * channels && mode == MODE_CELT_ONLY {
        OPUS_BANDWIDTH_NARROWBAND as int
    } else if rate <= 24000 * channels && mode == MODE_CELT_ONLY {
        OPUS_BANDWIDTH_MEDIUMBAND as int
    } else if rate <= 30000 * channels {
        OPUS_BANDWIDTH_WIDEBAND as int
    } else if rate <= 44000 * channels {
        OPUS_BANDWIDTH_SUPERWIDEBAND as int
    } else {
        OPUS_BANDWIDTH_FULLBAND as int
    }
}

/// The mode that a bandwidth leaves: speech coding alone goes up to wideband, and above it
/// takes music coding for the rest.
pub open spec fn mode_for(mode: int, bandwidth: int) -> i32 {
    if mode == MODE_CELT_ONLY {
        MODE_CELT_ONLY
    } else if bandwidth > OPUS_BANDWIDTH_WIDEBAND {
        MODE_HYBRID
    } else {
        MODE_SILK_ONLY
    }
}

impl OpusEncoder {
    /// Whether a bandwidth pays at a rate.
    pub open spec fn bandwidth_pays(&self, v: int, rate: int, bandwidth: int) -> bool {
        let t = bandwidth_rate(bandwidth, v);
        let h = bandwidth_hysteresis(bandwidth);
        rate >= if self.first != 0 {
            t
        } else if self.auto_bandwidth >= bandwidth {
            t - h
        } else {
            t + h
        }
    }

    /// The widest bandwidth up to `most` that pays at a rate.
    pub open spec fn paid_bandwidth(&self, v: int, rate: int, most: int) -> int
        decreases most,
    {
        if most <= OPUS_BANDWIDTH_NARROWBAND || self.bandwidth_pays(v, rate, most) {
            most
        } else {
            self.paid_bandwidth(v, rate, most - 1)
        }
    }

    /// The bandwidth for a rate. Mediumband is not chosen.
    pub open spec fn rated_bandwidth(&self, v: int, rate: int) -> int {
        let b = self.paid_bandwidth(v, rate, OPUS_BANDWIDTH_FULLBAND as int);
        if b == OPUS_BANDWIDTH_MEDIUMBAND {
            OPUS_BANDWIDTH_WIDEBAND as int
        } else {
            b
        }
    }

    fn rate_bandwidth(&self, voice_est: i32, rate: i32) -> (r: i32)
        requires
            0 <= voice_est <= 127,
        ensures
            r == self.rated_bandwidth(voice_est as int, rate as int),
            valid_bandwidth(r as int),
    {
        proof {
            assert(0 <= voice_est * voice_est <= 16129) by (nonlinear_arith)
                requires
                    0 <= voice_est <= 127,
            ;
        }
        let square: i32 = voice_est * voice_est;
        let mut bw: i32 = OPUS_BANDWIDTH_FULLBAND;
        while bw > OPUS_BANDWIDTH_NARROWBAND
            invariant_except_break
                self.paid_bandwidth(
                    voice_est as int,
                    rate as int,
                    OPUS_BANDWIDTH_FULLBAND as int,
                ) == self.paid_bandwidth(voice_est as int, rate as int, bw as int),
            invariant
                OPUS_BANDWIDTH_NARROWBAND <= bw <= OPUS_BANDWIDTH_FULLBAND,
                0 <= square <= 16129,
                square == voice_est * voice_est,
            ensures
                bw == self.paid_bandwidth(
                    voice_est as int,
                    rate as int,
                    OPUS_BANDWIDTH_FULLBAND as int,
                ),
            decreases bw,
        {
            let mut threshold: i32 = if bw <= OPUS_BANDWIDTH_WIDEBAND {
                9000
            } else if bw == OPUS_BANDWIDTH_SUPERWIDEBAND {
                11000 + square * 2500 / 16384
            } else {
                12000 + square * 2000 / 16384
            };
            let hysteresis: i32 = if bw <= OPUS_BANDWIDTH_WIDEBAND {
                700
            } else if bw == OPUS_BANDWIDTH_SUPERWIDEBAND {
                1000
            } else {
                2000
            };
            if self.first == 0 {
                if self.auto_bandwidth >= bw {
                    threshold -= hysteresis;
                } else {
                    threshold += hysteresis;
                }
            }
            if rate >= threshold {
                break;
            }
            bw -= 1;
        }
        if bw == OPUS_BANDWIDTH_MEDIUMBAND {
            OPUS_BANDWIDTH_WIDEBAND
        } else {
            bw
        }
    }

    /// Whether the bandwidth may change with the rate.
    pub open spec fn rates_bandwidth(&self, mode: int) -> bool {
        mode == MODE_CELT_ONLY || self.first != 0 || self.silk_mode.allow_bandwidth_switch != 0
    }

    /// The bandwidth before any limit: that for the rate, where it may change. The speech
    /// coder goes past wideband only when it is ready for it.
    pub open spec fn open_bandwidth(&self, c: ModeChoice) -> int {
        if self.rates_bandwidth(c.mode as int) {
            let b = self.rated_bandwidth(c.voice_est as int, c.equiv_rate as int);
            if self.first == 0 && c.mode != MODE_CELT_ONLY
                && self.silk_mode.in_wb_mode_without_variable_lp == 0 {
                min_int(b, OPUS_BANDWIDTH_WIDEBAND as int)
            } else {
                b
            }
        } else {
            self.bandwidth as int
        }
    }

    /// The bandwidth within the limits of the settings and of the sampling rate.
    pub open spec fn limited_bandwidth(&self, c: ModeChoice, max_rate: int) -> int {
        let b = if self.user_bandwidth != OPUS_AUTO {
            self.user_bandwidth as int
        } else {
            min_int(self.open_bandwidth(c), self.max_bandwidth as int)
        };
        let b = if c.mode != MODE_CELT_ONLY && max_rate < 15000 {
            min_int(b, OPUS_BANDWIDTH_WIDEBAND as int)
        } else {
            b
        };
        min_int(b, nyquist_bandwidth(self.fs as int))
    }

    /// The bandwidth that the analysis found, as far as it is believed.
    pub open spec fn believed_bandwidth(&self, c: ModeChoice) -> int {
        if self.detected_bandwidth != 0 && self.user_bandwidth == OPUS_AUTO {
            max_int(
                self.detected_bandwidth as int,
                least_detected(c.equiv_rate as int, self.stream_channels as int, c.mode as int),
            )
        } else {
            self.detected_bandwidth as int
        }
    }

    /// The bandwidth that error correction leaves, and whether there is any.
    pub open spec fn corrected_bandwidth(&self, c: ModeChoice, bandwidth: int) -> (int, bool) {
        let loss = self.silk_mode.packet_loss_percentage as int;
        if self.silk_mode.use_in_band_fec == 0 || loss == 0 || c.mode == MODE_CELT_ONLY {
            (bandwidth, false)
        } else {
            match fec_bandwidth(
                self.silk_mode.lbrr_coded as int,
                loss,
                bandwidth,
                c.equiv_rate as int,
            ) {
                Some(b) => (b, true),
                None => (bandwidth, false),
            }
        }
    }

    /// The encoder once the bandwidth was chosen.
    pub open spec fn with_bandwidth(self, c: ModeChoice, max_rate: int, lsb_depth: int) -> OpusEncoder {
        let b = self.limited_bandwidth(c, max_rate);
        let b = if self.detected_bandwidth != 0 && self.user_bandwidth == OPUS_AUTO {
            min_int(b, self.believed_bandwidth(c))
        } else {
            b
        };
        let (b, fec) = self.corrected_bandwidth(c, b);
        let bandwidth = if self.lfe != 0 {
            OPUS_BANDWIDTH_NARROWBAND
        } else if c.mode == MODE_CELT_ONLY && b == OPUS_BANDWIDTH_MEDIUMBAND {
            OPUS_BANDWIDTH_WIDEBAND
        } else {
            b as i32
        };
        OpusEncoder {
            bandwidth,
            auto_bandwidth: if self.rates_bandwidth(c.mode as int) {
                self.rated_bandwidth(c.voice_est as int, c.equiv_rate as int) as i32
            } else {
                self.auto_bandwidth
            },
            detected_bandwidth: self.believed_bandwidth(c) as i32,
            silk_mode: SilkEncControlStruct {
                lbrr_coded: if fec {
                    1
                } else {
                    0
                },
                ..self.silk_mode
            },
            celt_enc: match self.celt_enc {
                Some(celt) => if self.application != OPUS_APPLICATION_RESTRICTED_SILK {
                    Some(CeltEncoder { lsb_depth: lsb_depth as i32, ..celt })
                } else {
                    Some(celt)
                },
                None => None,
            },
            mode: mode_for(c.mode as int, bandwidth as int),
            ..self
        }
    }

    fn limit_bandwidth(&self, c: &ModeChoice, max_rate: i32, open: i32) -> (r: i32)
        requires
            self.wf(),
            open == self.open_bandwidth(*c),
            valid_bandwidth(open as int),
        ensures
            r == self.limited_bandwidth(*c, max_rate as int),
            valid_bandwidth(r as int),
    {
        let mut b: i32 = imin(open, self.max_bandwidth);
        if self.user_bandwidth != OPUS_AUTO {
            b = self.user_bandwidth;
        }
        if c.mode != MODE_CELT_ONLY && max_rate < 15000 {
            b = imin(b, OPUS_BANDWIDTH_WIDEBAND);
        }
        if self.fs <= 24000 {
            b = imin(b, OPUS_BANDWIDTH_SUPERWIDEBAND);
        }
        if self.fs <= 16000 {
            b = imin(b, OPUS_BANDWIDTH_WIDEBAND);
        }
        if self.fs <= 12000 {
            b = imin(b, OPUS_BANDWIDTH_MEDIUMBAND);
        }
        if self.fs <= 8000 {
            b = imin(b, OPUS_BANDWIDTH_NARROWBAND);
        }
        b
    }

    fn believe_bandwidth(&self, c: &ModeChoice) -> (r: i32)
        requires
            self.wf(),
            self.detected_bandwidth != 0,
            self.user_bandwidth == OPUS_AUTO,
        ensures
            r == self.believed_bandwidth(*c),
            valid_bandwidth(r as int),
    {
        let least: i32 = if c.equiv_rate <= 18000 * self.stream_channels && c.mode
            == MODE_CELT_ONLY {
            OPUS_BANDWIDTH_NARROWBAND
        } else if c.equiv_rate <= 24000 * self.stream_channels && c.mode == MODE_CELT_ONLY {
            OPUS_BANDWIDTH_MEDIUMBAND
        } else if c.equiv_rate <= 30000 * self.stream_channels {
            OPUS_BANDWIDTH_WIDEBAND
        } else if c.equiv_rate <= 44000 * self.stream_channels {
            OPUS_BANDWIDTH_SUPERWIDEBAND
        } else {
            OPUS_BANDWIDTH_FULLBAND
        };
        imax(self.detected_bandwidth, least)
    }

    /// Chooses the bandwidth, and with it settles the mode.
    pub fn choose_bandwidth(&mut self, c: &ModeChoice, max_rate: i32, lsb_depth: i32)
        requires
            old(self).wf(),
            valid_mode(c.mode as int),
            0 <= c.voice_est <= 127,
        ensures
            final(self).wf(),
            *final(self) == old(self).with_bandwidth(*c, max_rate as int, lsb_depth as int),
    {
        let mut open: i32 = self.bandwidth;
        let mut auto: i32 = self.auto_bandwidth;
        if c.mode == MODE_CELT_ONLY || self.first != 0 || self.silk_mode.allow_bandwidth_switch
            != 0 {
            auto = self.rate_bandwidth(c.voice_est, c.equiv_rate);
            open = auto;
            if self.first == 0 && c.mode != MODE_CELT_ONLY
                && self.silk_mode.in_wb_mode_without_variable_lp == 0 && open
                > OPUS_BANDWIDTH_WIDEBAND {
                open = OPUS_BANDWIDTH_WIDEBAND;
            }
        }
        let mut b: i32 = self.limit_bandwidth(c, max_rate, open);
        let mut detected: i32 = self.detected_bandwidth;
        if self.detected_bandwidth != 0 && self.user_bandwidth == OPUS_AUTO {
            detected = self.believe_bandwidth(c);
            b = imin(b, detected);
        }
        proof {
            lemma_fec_bandwidth(
                self.silk_mode.lbrr_coded as int,
                self.silk_mode.packet_loss_percentage as int,
                b as int,
                c.equiv_rate as int,
            );
        }
        let lbrr: i32 = decide_fec(
            self.silk_mode.use_in_band_fec,
            self.silk_mode.packet_loss_percentage,
            self.silk_mode.lbrr_coded,
            c.mode,
            &mut b,
            c.equiv_rate,
        );
        if c.mode == MODE_CELT_ONLY && b == OPUS_BANDWIDTH_MEDIUMBAND {
            b = OPUS_BANDWIDTH_WIDEBAND;
        }
        if self.lfe != 0 {
            b = OPUS_BANDWIDTH_NARROWBAND;
        }
        self.auto_bandwidth = auto;
        self.detected_bandwidth = detected;
        self.silk_mode.lbrr_coded = lbrr;
        self.bandwidth = b;
        if self.application != OPUS_APPLICATION_RESTRICTED_SILK {
            if let Some(celt) = &mut self.celt_enc {
                celt.lsb_depth = lsb_depth;
            }
        }
        self.mode = if c.mode == MODE_CELT_ONLY {
            MODE_CELT_ONLY
        } else if b > OPUS_BANDWIDTH_WIDEBAND {
            MODE_HYBRID
        } else {
            MODE_SILK_ONLY
        };
    }
}

/// The bandwidth for a rate is one of the five.
pub proof fn lemma_paid_bandwidth(e: OpusEncoder, v: int, rate: int)
    ensures
        valid_bandwidth(e.rated_bandwidth(v, rate)),
{
    reveal_with_fuel(OpusEncoder::paid_bandwidth, 6);
}

/// Error correction leaves one of the five bandwidths.
pub proof fn lemma_fec_bandwidth(last_fec: int, loss: int, bandwidth: int, rate: int)
    ensures
        fec_bandwidth(last_fec, loss, bandwidth, rate) matches Some(b) ==> valid_bandwidth(b) && b
            <= bandwidth,
    decreases bandwidth,
{
    if valid_bandwidth(bandwidth) {
        lemma_fec_bandwidth(last_fec, loss, bandwidth - 1, rate);
    }
}

// ---------------------------------------------------------------------------
// The whole plan
// ---------------------------------------------------------------------------

/// How a packet's frames are to be coded.
#[derive(Clone, Copy, Debug, PartialEq, Eq)]
pub struct FramePlan {
    pub max_data_bytes: i32,
    pub lsb_depth: i32,
    pub dred_bitrate_bps: i32,
    pub is_silence: bool,
    pub redundancy: bool,
    pub celt_to_silk: bool,
    pub to_celt: bool,
    pub prefill: i32,
    pub equiv_rate: i32,
}

/// What becomes of the input.
#[derive(Clone, Copy, Debug, PartialEq, Eq)]
pub enum Plan {
    /// There was too little to spend: the packet is written, and this long.
    Bare(i32),
    /// The packet is to hold one frame.
    Single(FramePlan),
    /// The packet is to hold several frames.
    Several(FramePlan),
}

/// Whether a packet was planned as it should be. `before` and `d0` are the encoder and the
/// bytes before, `after` and `d1` those after, and `r` is what was returned.
///
/// Where there is nothing to code, or nothing to put it in, there is no plan. Else the
/// encoder listens, works out what there is to spend, and where that is too little writes
/// a packet without frames. Where it is enough, it chooses mode and bandwidth.
pub open spec fn is_plan(
    before: OpusEncoder,
    after: OpusEncoder,
    pcm: Seq<i16>,
    n: int,
    d0: Seq<u8>,
    d1: Seq<u8>,
    out_data_bytes: int,
    lsb_depth: int,
    info: AnalysisInfo,
    r: Result<Plan, i32>,
) -> bool {
    if n <= 0 || out_data_bytes <= 0 {
        &&& r == Err::<Plan, i32>(OPUS_BAD_ARG)
        &&& after == (OpusEncoder { range_final: 0, ..before })
        &&& d1 == d0
    } else if out_data_bytes == 1 && before.fs == 10 * n {
        &&& r == Err::<Plan, i32>(OPUS_BUFFER_TOO_SMALL)
        &&& after == (OpusEncoder { range_final: 0, ..before })
        &&& d1 == d0
    } else {
        let frame_rate = before.fs as int / n;
        let max = min_int(out_data_bytes, MAX_PACKET_BYTES as int);
        let quiet = silent(pcm, n * before.channels);
        let known = before.known(info);
        let heard = before.opened().heard(pcm, n, known);
        let limit = heard.packet_limit(n, max);
        let rated = heard.budgeted(n, max);
        if rated.starved(frame_rate, limit) {
            let s = shape_of(
                rated.mode as int,
                rated.bandwidth as int,
                frame_rate,
                out_data_bytes == 1,
            ).bytes(rated.stream_channels as int);
            &&& after == rated
            &&& if rated.use_vbr != 0 || limit <= s.len() {
                &&& r == Ok::<Plan, i32>(Plan::Bare(s.len() as i32))
                &&& d1 == overwritten(s, d0)
            } else {
                &&& r == Ok::<Plan, i32>(Plan::Bare(limit as i32))
                &&& d1 == overwritten(repacked(s, Seq::empty(), limit, true).1, d0)
            }
        } else {
            let (chosen, plan) = rated.planned(
                n,
                limit,
                heard.dred_share(n, max).bitrate,
                min_int(lsb_depth, rated.lsb_depth as int),
                quiet,
                known.valid,
            );
            &&& after == chosen
            &&& d1 == d0
            &&& r == if chosen.needs_several(n) {
                Ok::<Plan, i32>(Plan::Several(plan))
            } else {
                Ok::<Plan, i32>(Plan::Single(plan))
            }
        }
    }
}

impl OpusEncoder {
    /// Whether a frame is too long for its mode: 60 ms is the most for speech, and 20 ms
    /// for everything else.
    pub open spec fn needs_several(&self, n: int) -> bool {
        n > if self.mode == MODE_SILK_ONLY {
            3 * self.fs / 50
        } else {
            self.fs / 50
        }
    }

    /// The encoder, and what it plans, once it knows what there is to spend on a frame that
    /// can be coded.
    pub open spec fn planned(
        self,
        n: int,
        limit: int,
        dred_bitrate: int,
        lsb_depth: int,
        quiet: bool,
        valid: bool,
    ) -> (OpusEncoder, FramePlan) {
        let (a, c) = self.with_mode(n, limit, self.stereo_width(), quiet, valid);
        let max_rate = bitrate_of(limit * 8, self.fs as int, n);
        (
            a.with_bandwidth(c, max_rate, lsb_depth),
            FramePlan {
                max_data_bytes: limit as i32,
                lsb_depth: lsb_depth as i32,
                dred_bitrate_bps: dred_bitrate as i32,
                is_silence: quiet,
                redundancy: c.redundancy,
                celt_to_silk: c.celt_to_silk,
                to_celt: c.to_celt,
                prefill: c.prefill,
                equiv_rate: c.equiv_rate,
            },
        )
    }

    /// Chooses mode and bandwidth for a packet that can be coded.
    fn plan_frames(
        &mut self,
        frame_size: i32,
        budget: &Budget,
        depth: i32,
        width: i32,
        quiet: bool,
        valid: bool,
    ) -> (r: Plan)
        requires
            old(self).wf(),
            frame_domain(old(self).fs as int, frame_size as int),
            1 <= budget.max_data_bytes <= MAX_PACKET_BYTES,
            width == old(self).stereo_width(),
            0 <= width <= Q15ONE,
        ensures
            final(self).wf(),
            ({
                let (chosen, plan) = old(self).planned(
                    frame_size as int,
                    budget.max_data_bytes as int,
                    budget.dred_bitrate_bps as int,
                    depth as int,
                    quiet,
                    valid,
                );
                &&& *final(self) == chosen
                &&& r == if chosen.needs_several(frame_size as int) {
                    Plan::Several(plan)
                } else {
                    Plan::Single(plan)
                }
            }),
    {
        let limit: i32 = budget.max_data_bytes;
        proof {
            let q = 6 * self.fs as int / frame_size as int;
            lemma_frame_samples(self.fs as int, frame_size as int, 1);
            assert(0 <= (limit * 8) * q <= 61248 * 2400) by (nonlinear_arith)
                requires
                    1 <= limit <= 7656,
                    0 <= q <= 2400,
            ;
        }
        let max_rate: i32 = bits_to_bitrate(limit * 8, self.fs, frame_size);
        let c = self.choose_mode(frame_size, limit, width, quiet, valid);
        self.choose_bandwidth(&c, max_rate, depth);
        let plan = FramePlan {
            max_data_bytes: limit,
            lsb_depth: depth,
            dred_bitrate_bps: budget.dred_bitrate_bps,
            is_silence: quiet,
            redundancy: c.redundancy,
            celt_to_silk: c.celt_to_silk,
            to_celt: c.to_celt,
            prefill: c.prefill,
            equiv_rate: c.equiv_rate,
        };
        let most: i32 = if self.mode == MODE_SILK_ONLY { 3 * self.fs / 50 } else { self.fs / 50 };
        if frame_size > most {
            Plan::Several(plan)
        } else {
            Plan::Single(plan)
        }
    }

    /// Plans a packet of at most `out_data_bytes` bytes for `frame_size` samples a channel.
    /// `info` is what the analysis says of them.
    pub fn encode_native_with_analysis(
        &mut self,
        pcm: &[i16],
        frame_size: i32,
        data: &mut [u8],
        out_data_bytes: i32,
        lsb_depth: i32,
        info: &AnalysisInfo,
    ) -> (r: Result<Plan, i32>)
        requires
            old(self).wf(),
            info.wf(),
            frame_size > 0 && out_data_bytes > 0 ==> {
                &&& frame_domain(old(self).fs as int, frame_size as int)
                &&& frame_size * old(self).channels <= pcm@.len()
                &&& min_int(out_data_bytes as int, MAX_PACKET_BYTES as int) <= old(data)@.len()
            },
        ensures
            final(self).wf(),
            is_plan(
                *old(self),
                *final(self),
                pcm@,
                frame_size as int,
                old(data)@,
                final(data)@,
                out_data_bytes as int,
                lsb_depth as int,
                *info,
                r,
            ),
    {
        let known = match self.open_packet(frame_size, out_data_bytes) {
            Err(e) => {
                return Err(e);
            },
            Ok(wanted) => if wanted {
                *info
            } else {
                AnalysisInfo::default()
            },
        };
        proof {
            lemma_frame_samples(self.fs as int, frame_size as int, self.channels as int);
        }
        let max: i32 = imin(MAX_PACKET_BYTES, out_data_bytes);
        let depth: i32 = imin(lsb_depth, self.lsb_depth);
        let (quiet, width) = self.hear(pcm, frame_size, depth, &known);
        let budget = self.budget(frame_size, max);
        let limit: i32 = budget.max_data_bytes;
        let frame_rate: i32 = self.fs / frame_size;
        proof {
            assert(0 <= limit * frame_rate <= 7656 * 400) by (nonlinear_arith)
                requires
                    0 <= limit <= 7656,
                    0 <= frame_rate <= 400,
            ;
        }
        if limit < 3 || self.bitrate_bps < 24 * frame_rate || (frame_rate < 50 && (limit
            * frame_rate < 300 || self.bitrate_bps < 2400)) {
            return match self.write_bare(frame_rate, limit, out_data_bytes == 1, data) {
                Ok(n) => Ok(Plan::Bare(n)),
                Err(e) => Err(e),
            };
        }
        Ok(self.plan_frames(frame_size, &budget, depth, width, quiet, known.valid))
    }

    /// Plans a packet without an analysis of its input.
    pub fn encode_native(
        &mut self,
        pcm: &[i16],
        frame_size: i32,
        data: &mut [u8],
        out_data_bytes: i32,
        lsb_depth: i32,
    ) -> (r: Result<Plan, i32>)
        requires
            old(self).wf(),
            frame_size > 0 && out_data_bytes > 0 ==> {
                &&& frame_domain(old(self).fs as int, frame_size as int)
                &&& frame_size * old(self).channels <= pcm@.len()
                &&& min_int(out_data_bytes as int, MAX_PACKET_BYTES as int) <= old(data)@.len()
            },
        ensures
            final(self).wf(),
            is_plan(
                *old(self),
                *final(self),
                pcm@,
                frame_size as int,
                old(data)@,
                final(data)@,
                out_data_bytes as int,
                lsb_depth as int,
                AnalysisInfo::unknown(),
                r,
            ),
    {
        let info = AnalysisInfo::default();
        self.encode_native_with_analysis(
            pcm,
            frame_size,
            data,
            out_data_bytes,
            lsb_depth,
            &info,
        )
    }

    /// Plans a packet for input of which `frame_size` samples a channel are at hand: how
    /// many of them go into it is a matter of the settings.
    pub fn encode(
        &mut self,
        pcm: &[i16],
        frame_size: i32,
        data: &mut [u8],
        max_data_bytes: i32,
        info: &AnalysisInfo,
    ) -> (r: Result<Plan, i32>)
        requires
            old(self).wf(),
            info.wf(),
            ({
                let n = selected_size(
                    frame_size as int,
                    old(self).variable_duration as int,
                    old(self).fs as int,
                );
                n > 0 && max_data_bytes > 0 ==> {
                    &&& n * old(self).channels <= pcm@.len()
                    &&& min_int(max_data_bytes as int, MAX_PACKET_BYTES as int) <= old(data)@.len()
                }
            }),
        ensures
            final(self).wf(),
            ({
                let n = selected_size(
                    frame_size as int,
                    old(self).variable_duration as int,
                    old(self).fs as int,
                );
                if n < 0 {
                    &&& r == Err::<Plan, i32>(OPUS_BAD_ARG)
                    &&& *final(self) == *old(self)
                    &&& final(data)@ == old(data)@
                } else {
                    is_plan(
                        *old(self),
                        *final(self),
                        pcm@,
                        n,
                        old(data)@,
                        final(data)@,
                        max_data_bytes as int,
                        16,
                        *info,
                        r,
                    )
                }
            }),
    {
        let n: i32 = frame_size_select(frame_size, self.variable_duration, self.fs);
        if n < 0 {
            return Err(OPUS_BAD_ARG);
        }
        proof {
            selected_sizes_can_be_coded(frame_size as int, self.variable_duration as int, self.fs as int);
        }
        self.encode_native_with_analysis(pcm, n, data, max_data_bytes, 16, info)
    }
}

/// An analysis that is not wanted changes nothing: neither the plan, nor what is written, nor
/// the encoder.
pub proof fn unwanted_analysis_is_ignored(
    before: OpusEncoder,
    after: OpusEncoder,
    pcm: Seq<i16>,
    n: int,
    d0: Seq<u8>,
    d1: Seq<u8>,
    out_data_bytes: int,
    lsb_depth: int,
    info: AnalysisInfo,
    other: AnalysisInfo,
    r: Result<Plan, i32>,
)
    requires
        before.silk_mode.complexity < 10 || before.fs < 16000 || before.application
            == OPUS_APPLICATION_RESTRICTED_SILK,
    ensures
        is_plan(before, after, pcm, n, d0, d1, out_data_bytes, lsb_depth, info, r) == is_plan(
            before,
            after,
            pcm,
            n,
            d0,
            d1,
            out_data_bytes,
            lsb_depth,
            other,
            r,
        ),
{
    assert(before.known(info) == before.known(other));
}

/// A frame size that is selected can be coded, and is not above what is at hand.
pub proof fn selected_sizes_can_be_coded(frame_size: int, duration: int, fs: int)
    requires
        valid_fs(fs),
        selected_size(frame_size, duration, fs) >= 0,
    ensures
        frame_domain(fs, selected_size(frame_size, duration, fs)),
        selected_size(frame_size, duration, fs) <= frame_size,
{
}

} // verus!
