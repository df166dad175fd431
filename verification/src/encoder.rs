//! The encoder's state, its settings, and what can be asked of it.

use vstd::prelude::*;
use crate::arith::Q15ONE;
use crate::coders::{
    initial_cutoff, AnalysisCursor, CeltEncoder, CeltEncoderStateExt, DredEncoder,
    SilkEncControlStruct, SilkEncoder, INITIAL_HP_SMTH, MAX_HP_SMTH,
};
use crate::codes::{OPUS_BAD_ARG, OPUS_INTERNAL_ERROR, OPUS_OK};
use crate::dred::DRED_MAX_FRAMES;
use crate::dsp::{StereoWidthState, Width};
use crate::modes::{
    MODE_CELT_ONLY, MODE_HYBRID, MODE_SILK_ONLY, NB_SPEECH_FRAMES_BEFORE_DTX,
    OPUS_APPLICATION_AUDIO, OPUS_APPLICATION_RESTRICTED_LOWDELAY, OPUS_APPLICATION_RESTRICTED_SILK,
    OPUS_APPLICATION_VOIP, OPUS_AUTO, OPUS_BANDWIDTH_FULLBAND, OPUS_BANDWIDTH_NARROWBAND,
    OPUS_BITRATE_MAX, OPUS_FRAMESIZE_120_MS, OPUS_FRAMESIZE_2_5_MS, OPUS_FRAMESIZE_ARG,
    OPUS_SIGNAL_MUSIC, OPUS_SIGNAL_VOICE,
};
use crate::rates::{effective_bitrate, user_bitrate_to_bitrate, valid_fs};

verus! {

/// The speech coder's numbers, at one moment.
#[derive(Clone, Copy, Debug, PartialEq, Eq)]
pub struct SilkEncoderSnapshot {
    pub fs_khz: i32,
    pub frame_length: i32,
    pub nb_subfr: i32,
    pub input_buf_ix: i32,
    pub n_frames_per_packet: i32,
    pub packet_size_ms: i32,
    pub first_frame_after_reset: i32,
    pub controlled_since_last_payload: i32,
    pub prefill_flag: i32,
    pub n_frames_encoded: i32,
    pub speech_activity_q8: i32,
    pub signal_type: i32,
    pub input_quality_bands_q15: i32,
}

/// The stereo width estimate and the modes, at one moment.
#[derive(Clone, Copy, Debug)]
pub struct OpusEncoderStereoSnapshot {
    pub hybrid_stereo_width_q14: i32,
    pub width_xx: i32,
    pub width_xy: i32,
    pub width_yy: i32,
    pub width_smoothed: i32,
    pub width_max_follower: i32,
    pub detected_bandwidth: i32,
    pub mode: i32,
    pub prev_mode: i32,
    pub bandwidth: i32,
}

/// An encoder: its settings and what it carries from frame to frame.
pub struct OpusEncoder {
    pub channels: i32,
    pub fs: i32,
    pub application: i32,
    pub silk_enc: Option<SilkEncoder>,
    pub celt_enc: Option<CeltEncoder>,
    pub silk_mode: SilkEncControlStruct,
    pub delay_compensation: i32,
    pub force_channels: i32,
    pub signal_type: i32,
    pub user_bandwidth: i32,
    pub max_bandwidth: i32,
    pub user_forced_mode: i32,
    pub voice_ratio: i32,
    pub use_vbr: i32,
    pub vbr_constraint: i32,
    pub variable_duration: i32,
    pub bitrate_bps: i32,
    pub user_bitrate_bps: i32,
    pub lsb_depth: i32,
    pub encoder_buffer: i32,
    pub lfe: i32,
    pub use_dtx: i32,
    pub fec_config: i32,
    /// How far each band is masked by other channels, for each channel in turn.
    pub energy_masking: Option<Vec<i32>>,
    pub stream_channels: i32,
    pub hybrid_stereo_width_q14: i16,
    pub variable_hp_smth2_q15: i32,
    pub prev_hb_gain: i32,
    pub hp_mem: [i32; 4],
    pub mode: i32,
    pub prev_mode: i32,
    pub prev_channels: i32,
    pub prev_framesize: i32,
    pub bandwidth: i32,
    /// The bandwidth that the analysis found, or zero.
    pub detected_bandwidth: i32,
    pub auto_bandwidth: i32,
    pub silk_bw_switch: i32,
    pub first: i32,
    pub width_mem: StereoWidthState,
    /// How long nothing was said, in half milliseconds.
    pub nb_no_activity_ms_q1: i32,
    pub peak_signal_energy: i32,
    pub nonfinal_frame: i32,
    pub range_final: u32,
    /// The last ten milliseconds of filtered input.
    pub delay_buffer: Vec<i16>,
    /// The two and a half milliseconds that warm up the music coder on a change of mode.
    pub tmp_prefill: Vec<i16>,
    pub analysis: AnalysisCursor,
    pub dred_encoder: Option<DredEncoder>,
    /// How far back a packet's redundancy reaches, in steps of two and a half
    /// milliseconds.
    pub dred_duration: i32,
    pub dred_q0: i32,
    pub dred_d_q: i32,
    pub dred_qmax: i32,
    pub dred_target_chunks: i32,
    /// Whether there was voice, for each two and a half milliseconds, newest first.
    pub activity_mem: Vec<u8>,
    pub first_frame_flag: bool,
}

/// The applications that an encoder can be made for.
pub open spec fn valid_application(application: int) -> bool {
    application == OPUS_APPLICATION_VOIP || application == OPUS_APPLICATION_AUDIO || application
        == OPUS_APPLICATION_RESTRICTED_LOWDELAY
}

/// The three ways to code a frame.
pub open spec fn valid_mode(mode: int) -> bool {
    mode == MODE_SILK_ONLY || mode == MODE_HYBRID || mode == MODE_CELT_ONLY
}

/// The five bandwidths.
pub open spec fn valid_bandwidth(bandwidth: int) -> bool {
    OPUS_BANDWIDTH_NARROWBAND <= bandwidth <= OPUS_BANDWIDTH_FULLBAND
}

/// The bitrate that is kept for a request: requests stay between 500 bits a second and
/// 750000 for each channel.
pub open spec fn kept_bitrate(bitrate: int, channels: int) -> int {
    if bitrate == OPUS_AUTO || bitrate == OPUS_BITRATE_MAX {
        bitrate
    } else if bitrate <= 500 {
        500
    } else if bitrate > 750000 * channels {
        750000 * channels
    } else {
        bitrate
    }
}

/// What the speech coder is told when nobody has set anything.
pub open spec fn default_silk_mode(fs: i32, channels: i32) -> SilkEncControlStruct {
    SilkEncControlStruct {
        n_channels_api: channels,
        n_channels_internal: channels,
        api_sample_rate: fs,
        max_internal_sample_rate: 16000,
        min_internal_sample_rate: 8000,
        desired_internal_sample_rate: 16000,
        payload_size_ms: 20,
        bit_rate: 25000,
        packet_loss_percentage: 0,
        complexity: 9,
        use_in_band_fec: 0,
        use_dred: 0,
        lbrr_coded: 0,
        use_dtx: 0,
        use_cbr: 0,
        max_bits: 0,
        to_mono: 0,
        opus_can_switch: 0,
        reduced_dependency: 0,
        internal_sample_rate: 0,
        allow_bandwidth_switch: 0,
        in_wb_mode_without_variable_lp: 0,
        stereo_width_q14: 0,
        switch_ready: 0,
        signal_type: 0,
        offset: 0,
    }
}

/// A silent buffer of `n` samples.
pub open spec fn silence(n: int) -> Seq<i16> {
    Seq::new(n as nat, |i: int| 0i16)
}

/// Samples, hashed.
pub open spec fn sample_hash(s: Seq<i16>) -> i32
    decreases s.len(),
{
    if s.len() == 0 {
        0
    } else {
        sample_hash(s.drop_last()).wrapping_mul(31).wrapping_add(s.last() as i32)
    }
}

/// The delay buffer after `step` more samples: `pcm_buf` holds what was kept of the delay
/// buffer and then the frame. The newest samples stay.
pub open spec fn delayed(buffer: Seq<i16>, kept: int, step: int, pcm_buf: Seq<i16>) -> Seq<i16> {
    let n = buffer.len() as int;
    let m = step + kept;
    if n > m {
        let k = crate::arith::min_int(m, pcm_buf.len() as int);
        buffer.subrange(step, step + n - m) + pcm_buf.subrange(0, k) + buffer.subrange(n - m + k, n)
    } else if m - n < pcm_buf.len() {
        let k = crate::arith::min_int(n, pcm_buf.len() - (m - n));
        pcm_buf.subrange(m - n, m - n + k) + buffer.subrange(k, n)
    } else {
        buffer
    }
}

/// The delay buffer always holds the newest samples: where `pcm_buf` is what was kept of it
/// and then a frame, it moves on by that frame.
pub proof fn delay_buffer_holds_the_newest(
    buffer: Seq<i16>,
    kept: int,
    frame: Seq<i16>,
    pcm_buf: Seq<i16>,
)
    requires
        0 <= kept <= buffer.len(),
        pcm_buf == buffer.skip(buffer.len() - kept) + frame,
    ensures
        delayed(buffer, kept, frame.len() as int, pcm_buf) =~= (buffer + frame).skip(
            frame.len() as int,
        ),
{
}

impl OpusEncoder {
    /// Settings are within their ranges.
    pub open spec fn settings_ok(&self) -> bool {
        &&& valid_fs(self.fs as int)
        &&& 1 <= self.channels <= 2
        &&& valid_application(self.application as int)
        &&& self.force_channels == OPUS_AUTO || 1 <= self.force_channels <= self.channels
        &&& self.signal_type == OPUS_AUTO || self.signal_type == OPUS_SIGNAL_VOICE
            || self.signal_type == OPUS_SIGNAL_MUSIC
        &&& self.user_bandwidth == OPUS_AUTO || valid_bandwidth(self.user_bandwidth as int)
        &&& valid_bandwidth(self.max_bandwidth as int)
        &&& self.user_forced_mode == OPUS_AUTO || valid_mode(self.user_forced_mode as int)
        &&& -1 <= self.voice_ratio <= 100
        &&& 0 <= self.use_vbr <= 1
        &&& 0 <= self.vbr_constraint <= 1
        &&& self.variable_duration == OPUS_FRAMESIZE_ARG || OPUS_FRAMESIZE_2_5_MS
            <= self.variable_duration <= OPUS_FRAMESIZE_120_MS
        &&& self.user_bitrate_bps == OPUS_AUTO || self.user_bitrate_bps == OPUS_BITRATE_MAX || 500
            <= self.user_bitrate_bps <= 750000 * self.channels
        &&& 8 <= self.lsb_depth <= 24
        &&& 0 <= self.use_dtx <= 1
        &&& 0 <= self.fec_config <= 2
        &&& 0 <= self.silk_mode.complexity <= 10
        &&& 0 <= self.silk_mode.packet_loss_percentage <= 100
        &&& 0 <= self.silk_mode.reduced_dependency <= 1
        &&& 0 <= self.dred_duration <= DRED_MAX_FRAMES
        &&& self.dred_duration > 0 ==> self.channels == 1
    }

    /// What is carried from frame to frame is within its ranges.
    pub open spec fn running_ok(&self) -> bool {
        &&& 1 <= self.stream_channels <= self.channels
        &&& valid_mode(self.mode as int)
        &&& self.prev_mode == 0 || valid_mode(self.prev_mode as int)
        &&& (self.first == 0) == (self.prev_mode != 0)
        &&& 0 <= self.prev_channels <= self.channels
        &&& valid_bandwidth(self.bandwidth as int)
        &&& valid_bandwidth(self.auto_bandwidth as int)
        &&& self.detected_bandwidth == 0 || valid_bandwidth(self.detected_bandwidth as int)
        &&& 0 <= self.variable_hp_smth2_q15 <= MAX_HP_SMTH
        &&& (self.silk_enc matches Some(s) ==> s.wf())
        &&& self.width_mem.wf()
        &&& 0 <= self.hybrid_stereo_width_q14 <= 16384
        &&& 0 <= self.prev_hb_gain <= Q15ONE
        &&& 0 <= self.peak_signal_energy
        &&& 0 <= self.nb_no_activity_ms_q1 <= 1200
        &&& self.prev_framesize == 0 || self.fs <= 400 * self.prev_framesize
        &&& 0 <= self.prev_framesize <= self.fs
        &&& -1000000 <= self.bitrate_bps <= 2000000
    }

    /// Buffers have the lengths that the sampling rate asks for.
    pub open spec fn buffers_ok(&self) -> bool {
        &&& self.delay_compensation == self.fs / 250
        &&& self.encoder_buffer == self.fs / 100
        &&& self.delay_buffer@.len() == self.encoder_buffer * self.channels
        &&& self.tmp_prefill@.len() == self.channels * self.fs / 400
        &&& self.activity_mem@.len() == 4 * DRED_MAX_FRAMES
    }

    /// An encoder that `new` made and that was used through its functions.
    pub open spec fn wf(&self) -> bool {
        &&& self.settings_ok()
        &&& self.running_ok()
        &&& self.buffers_ok()
    }

    /// Nothing was encoded yet, and nothing is left of what was encoded before.
    pub open spec fn is_fresh(&self) -> bool {
        &&& self.stream_channels == self.channels
        &&& self.hybrid_stereo_width_q14 == 16384
        &&& self.variable_hp_smth2_q15 == INITIAL_HP_SMTH
        &&& self.prev_hb_gain == Q15ONE
        &&& self.hp_mem@ == seq![0i32, 0i32, 0i32, 0i32]
        &&& self.mode == MODE_HYBRID
        &&& self.prev_mode == 0
        &&& self.prev_framesize == 0
        &&& self.bandwidth == OPUS_BANDWIDTH_FULLBAND
        &&& self.detected_bandwidth == 0
        &&& self.auto_bandwidth == OPUS_BANDWIDTH_FULLBAND
        &&& self.silk_bw_switch == 0
        &&& self.first == 1
        &&& self.width_mem@ == (Width { xx: 0, xy: 0, yy: 0, smoothed: 0, follower: 0 })
        &&& self.nb_no_activity_ms_q1 == 0
        &&& self.peak_signal_energy == 0
        &&& self.nonfinal_frame == 0
        &&& self.range_final == 0
        &&& self.delay_buffer@ =~= silence(self.delay_buffer@.len() as int)
        &&& self.tmp_prefill@ =~= silence(self.tmp_prefill@.len() as int)
        &&& self.activity_mem@ =~= Seq::new(self.activity_mem@.len(), |i: int| 0u8)
        &&& (self.silk_enc matches Some(s) ==> s == SilkEncoder::fresh(self.channels as int))
        &&& (self.celt_enc matches Some(c) ==> c.running.is_fresh())
        &&& (self.dred_encoder matches Some(d) ==> d.latents_buffer_fill == 0)
        &&& self.analysis.initialized == 0
        &&& self.analysis.read_pos == 0
        &&& self.analysis.read_subframe == 0
        &&& self.first_frame_flag
    }

    /// The settings of an encoder that nobody has set yet.
    pub open spec fn has_defaults(&self) -> bool {
        &&& self.force_channels == OPUS_AUTO
        &&& self.signal_type == OPUS_AUTO
        &&& self.user_bandwidth == OPUS_AUTO
        &&& self.max_bandwidth == OPUS_BANDWIDTH_FULLBAND
        &&& self.user_forced_mode == OPUS_AUTO
        &&& self.voice_ratio == -1
        &&& self.use_vbr == 1
        &&& self.vbr_constraint == 1
        &&& self.variable_duration == OPUS_FRAMESIZE_ARG
        &&& self.bitrate_bps == 3000 + self.fs * self.channels
        &&& self.user_bitrate_bps == OPUS_AUTO
        &&& self.lsb_depth == 24
        &&& self.lfe == 0
        &&& self.use_dtx == 0
        &&& self.fec_config == 0
        &&& self.energy_masking is None
        &&& self.dred_encoder is None
        &&& self.dred_duration == 0
        &&& self.dred_q0 == 0
        &&& self.dred_d_q == 0
        &&& self.dred_qmax == 0
        &&& self.dred_target_chunks == 0
        &&& self.silk_mode == default_silk_mode(self.fs, self.channels)
        &&& self.analysis.application == self.application
        &&& self.silk_enc is Some
        &&& self.celt_enc matches Some(c)
        &&& c.channels == self.channels
        &&& c.stream_channels == self.channels
        &&& c.start == 0
        &&& c.end == 21
        &&& c.bitrate == -1
        &&& c.vbr == 0
        &&& c.constrained_vbr == 1
        &&& c.signalling == 0
        &&& c.loss_rate == 0
        &&& c.lsb_depth == 24
        &&& c.complexity == 9
        &&& c.disable_pf == 0
        &&& c.force_intra == 0
        &&& c.disable_inv == 0
        &&& c.lfe == 0
        &&& c.energy_mask is None
    }

    /// Makes an encoder for one of the codec's sampling rates, one or two channels, and an
    /// application.
    pub fn new(fs: i32, channels: i32, application: i32) -> (r: Result<Self, i32>)
        ensures
            r is Ok <==> valid_fs(fs as int) && 1 <= channels <= 2 && valid_application(
                application as int,
            ),
            r matches Err(e) ==> e == OPUS_BAD_ARG,
            r matches Ok(enc) ==> {
                &&& enc.fs == fs
                &&& enc.channels == channels
                &&& enc.application == application
                &&& enc.prev_channels == 0
                &&& enc.is_fresh()
                &&& enc.has_defaults()
                &&& enc.wf()
            },
    {
        if fs != 8000 && fs != 12000 && fs != 16000 && fs != 24000 && fs != 48000 {
            return Err(OPUS_BAD_ARG);
        }
        if channels != 1 && channels != 2 {
            return Err(OPUS_BAD_ARG);
        }
        if application != OPUS_APPLICATION_VOIP && application != OPUS_APPLICATION_AUDIO
            && application != OPUS_APPLICATION_RESTRICTED_LOWDELAY {
            return Err(OPUS_BAD_ARG);
        }
        let mut celt = match CeltEncoder::new(fs, channels) {
            Some(celt) => celt,
            None => {
                return Err(OPUS_INTERNAL_ERROR);
            },
        };
        celt.signalling = 0;
        celt.complexity = 9;
        let encoder_buffer: i32 = fs / 100;
        let enc = OpusEncoder {
            channels,
            fs,
            application,
            silk_enc: Some(SilkEncoder::new(channels)),
            celt_enc: Some(celt),
            silk_mode: SilkEncControlStruct {
                n_channels_api: channels,
                n_channels_internal: channels,
                api_sample_rate: fs,
                max_internal_sample_rate: 16000,
                min_internal_sample_rate: 8000,
                desired_internal_sample_rate: 16000,
                payload_size_ms: 20,
                bit_rate: 25000,
                packet_loss_percentage: 0,
                complexity: 9,
                use_in_band_fec: 0,
                use_dred: 0,
                lbrr_coded: 0,
                use_dtx: 0,
                use_cbr: 0,
                max_bits: 0,
                to_mono: 0,
                opus_can_switch: 0,
                reduced_dependency: 0,
                internal_sample_rate: 0,
                allow_bandwidth_switch: 0,
                in_wb_mode_without_variable_lp: 0,
                stereo_width_q14: 0,
                switch_ready: 0,
                signal_type: 0,
                offset: 0,
            },
            delay_compensation: fs / 250,
            force_channels: OPUS_AUTO,
            signal_type: OPUS_AUTO,
            user_bandwidth: OPUS_AUTO,
            max_bandwidth: OPUS_BANDWIDTH_FULLBAND,
            user_forced_mode: OPUS_AUTO,
            voice_ratio: -1,
            use_vbr: 1,
            vbr_constraint: 1,
            variable_duration: OPUS_FRAMESIZE_ARG,
            bitrate_bps: 3000 + fs * channels,
            user_bitrate_bps: OPUS_AUTO,
            lsb_depth: 24,
            encoder_buffer,
            lfe: 0,
            use_dtx: 0,
            fec_config: 0,
            energy_masking: None,
            stream_channels: channels,
            hybrid_stereo_width_q14: 16384,
            variable_hp_smth2_q15: initial_cutoff(),
            prev_hb_gain: Q15ONE,
            hp_mem: [0; 4],
            mode: MODE_HYBRID,
            prev_mode: 0,
            prev_channels: 0,
            prev_framesize: 0,
            bandwidth: OPUS_BANDWIDTH_FULLBAND,
            detected_bandwidth: 0,
            auto_bandwidth: OPUS_BANDWIDTH_FULLBAND,
            silk_bw_switch: 0,
            first: 1,
            width_mem: StereoWidthState::default(),
            nb_no_activity_ms_q1: 0,
            peak_signal_energy: 0,
            nonfinal_frame: 0,
            range_final: 0,
            delay_buffer: vec![0i16; (encoder_buffer * channels) as usize],
            tmp_prefill: vec![0i16; (channels * fs / 400) as usize],
            analysis: AnalysisCursor { application, initialized: 0, read_pos: 0, read_subframe: 0 },
            dred_encoder: None,
            dred_duration: 0,
            dred_q0: 0,
            dred_d_q: 0,
            dred_qmax: 0,
            dred_target_chunks: 0,
            activity_mem: vec![0u8; 4 * DRED_MAX_FRAMES as usize],
            first_frame_flag: true,
        };
        proof {
            assert(enc.hp_mem@ =~= seq![0i32, 0i32, 0i32, 0i32]);
        }
        Ok(enc)
    }

    /// Forgets what was encoded. Settings stay.
    pub fn reset(&mut self)
        requires
            old(self).wf(),
        ensures
            final(self).wf(),
            final(self).is_fresh(),
            final(self).prev_channels == final(self).channels,
            final(self).same_settings(old(self)),
    {
        self.analysis.initialized = 0;
        self.analysis.read_pos = 0;
        self.analysis.read_subframe = 0;
        self.stream_channels = self.channels;
        self.hybrid_stereo_width_q14 = 16384;
        self.variable_hp_smth2_q15 = initial_cutoff();
        self.prev_hb_gain = Q15ONE;
        self.hp_mem = [0; 4];
        self.mode = MODE_HYBRID;
        self.prev_mode = 0;
        self.prev_channels = self.channels;
        self.prev_framesize = 0;
        self.bandwidth = OPUS_BANDWIDTH_FULLBAND;
        self.detected_bandwidth = 0;
        self.auto_bandwidth = OPUS_BANDWIDTH_FULLBAND;
        self.silk_bw_switch = 0;
        self.first = 1;
        self.width_mem = StereoWidthState::default();
        self.nb_no_activity_ms_q1 = 0;
        self.peak_signal_energy = 0;
        self.nonfinal_frame = 0;
        self.range_final = 0;
        self.delay_buffer = vec![0i16; self.delay_buffer.len()];
        self.tmp_prefill = vec![0i16; self.tmp_prefill.len()];
        if self.silk_enc.is_some() {
            self.silk_enc = Some(SilkEncoder::new(self.channels));
        }
        if let Some(celt) = &mut self.celt_enc {
            celt.reset();
        }
        if let Some(dred) = &mut self.dred_encoder {
            dred.latents_buffer_fill = 0;
        }
        self.activity_mem = vec![0u8; self.activity_mem.len()];
        self.first_frame_flag = true;
        proof {
            assert(self.hp_mem@ =~= seq![0i32, 0i32, 0i32, 0i32]);
        }
    }

    /// Two encoders are set alike.
    pub open spec fn same_settings(&self, other: &OpusEncoder) -> bool {
        &&& self.channels == other.channels
        &&& self.fs == other.fs
        &&& self.application == other.application
        &&& self.silk_mode == other.silk_mode
        &&& self.delay_compensation == other.delay_compensation
        &&& self.force_channels == other.force_channels
        &&& self.signal_type == other.signal_type
        &&& self.user_bandwidth == other.user_bandwidth
        &&& self.max_bandwidth == other.max_bandwidth
        &&& self.user_forced_mode == other.user_forced_mode
        &&& self.voice_ratio == other.voice_ratio
        &&& self.use_vbr == other.use_vbr
        &&& self.vbr_constraint == other.vbr_constraint
        &&& self.variable_duration == other.variable_duration
        &&& self.bitrate_bps == other.bitrate_bps
        &&& self.user_bitrate_bps == other.user_bitrate_bps
        &&& self.lsb_depth == other.lsb_depth
        &&& self.encoder_buffer == other.encoder_buffer
        &&& self.lfe == other.lfe
        &&& self.use_dtx == other.use_dtx
        &&& self.fec_config == other.fec_config
        &&& self.energy_masking == other.energy_masking
        &&& self.dred_duration == other.dred_duration
        &&& self.dred_q0 == other.dred_q0
        &&& self.dred_d_q == other.dred_d_q
        &&& self.dred_qmax == other.dred_qmax
        &&& self.dred_target_chunks == other.dred_target_chunks
        &&& self.delay_buffer@.len() == other.delay_buffer@.len()
        &&& self.tmp_prefill@.len() == other.tmp_prefill@.len()
        &&& self.activity_mem@.len() == other.activity_mem@.len()
        &&& self.silk_enc is Some == other.silk_enc is Some
        &&& self.analysis.application == other.analysis.application
        &&& match (self.celt_enc, other.celt_enc) {
            (Some(a), Some(b)) => a == (CeltEncoder { running: a.running, ..b }),
            (None, None) => true,
            _ => false,
        }
        &&& match (self.dred_encoder, other.dred_encoder) {
            (Some(a), Some(b)) => a.loaded == b.loaded,
            (None, None) => true,
            _ => false,
        }
    }

    /// After a frame was coded: how it was coded is what the next frame follows.
    pub fn update_state(&mut self, to_celt: bool, frame_size: i32)
        ensures
            *final(self) == (OpusEncoder {
                prev_mode: if to_celt {
                    MODE_CELT_ONLY
                } else {
                    old(self).mode
                },
                prev_channels: old(self).stream_channels,
                prev_framesize: frame_size,
                first: 0,
                ..*old(self)
            }),
            old(self).wf() && old(self).fs <= 400 * frame_size && frame_size <= old(self).fs
                ==> final(self).wf(),
    {
        self.prev_mode = if to_celt { MODE_CELT_ONLY } else { self.mode };
        self.prev_channels = self.stream_channels;
        self.prev_framesize = frame_size;
        self.first = 0;
    }

    /// Moves the delay buffer on by a frame: `pcm_buf` holds `total_buffer` samples that the
    /// delay buffer held already, and then the frame.
    pub fn update_delay_buffer_from_pcm_buf(
        &mut self,
        pcm_buf: &[i16],
        frame_size: i32,
        total_buffer: i32,
    )
        requires
            1 <= old(self).channels <= 2,
            0 <= old(self).encoder_buffer <= 480000,
            old(self).encoder_buffer == 0 || old(self).delay_buffer@.len() == old(
                self,
            ).encoder_buffer * old(self).channels,
            0 <= frame_size <= 480000,
            0 <= total_buffer <= 480000,
        ensures
            final(self).delay_buffer@ =~= if old(self).encoder_buffer == 0 {
                old(self).delay_buffer@
            } else {
                delayed(
                    old(self).delay_buffer@,
                    total_buffer * old(self).channels,
                    frame_size * old(self).channels,
                    pcm_buf@,
                )
            },
            final(self).delay_buffer@.len() == old(self).delay_buffer@.len(),
            *final(self) == (OpusEncoder {
                delay_buffer: final(self).delay_buffer,
                ..*old(self)
            }),
            old(self).wf() ==> final(self).wf(),
    {
        if self.encoder_buffer == 0 {
            return;
        }
        let ch: usize = self.channels as usize;
        let n: usize = self.delay_buffer.len();
        proof {
            assert(0 <= frame_size * ch <= 960000) by (nonlinear_arith)
                requires
                    0 <= frame_size <= 480000,
                    1 <= ch <= 2,
            ;
            assert(0 <= total_buffer * ch <= 960000) by (nonlinear_arith)
                requires
                    0 <= total_buffer <= 480000,
                    1 <= ch <= 2,
            ;
        }
        let step: usize = frame_size as usize * ch;
        let m: usize = step + total_buffer as usize * ch;
        let len: usize = pcm_buf.len();
        let mut out: Vec<i16> = Vec::new();
        if n > m {
            let kept: usize = n - m;
            let k: usize = if m < len { m } else { len };
            let mut i: usize = 0;
            while i < n
                invariant
                    i <= n,
                    n == self.delay_buffer@.len(),
                    *self == *old(self),
                    kept == n - m,
                    n > m,
                    m >= step,
                    k <= m,
                    k <= len,
                    len == pcm_buf@.len(),
                    out@.len() == i,
                    forall|j: int|
                        0 <= j < i ==> out@[j] == if j < kept {
                            self.delay_buffer@[step + j]
                        } else if j < kept + k {
                            pcm_buf@[j - kept]
                        } else {
                            self.delay_buffer@[j]
                        },
                decreases n - i,
            {
                let x: i16 = if i < kept {
                    self.delay_buffer[step + i]
                } else if i - kept < k {
                    pcm_buf[i - kept]
                } else {
                    self.delay_buffer[i]
                };
                out.push(x);
                i += 1;
            }
        } else {
            let skip: usize = m - n;
            let mut i: usize = 0;
            while i < n
                invariant
                    i <= n,
                    n == self.delay_buffer@.len(),
                    *self == *old(self),
                    skip == m - n,
                    m <= 1920000,
                    len == pcm_buf@.len(),
                    out@.len() == i,
                    forall|j: int|
                        0 <= j < i ==> out@[j] == if skip + j < len {
                            pcm_buf@[skip + j]
                        } else {
                            self.delay_buffer@[j]
                        },
                decreases n - i,
            {
                let x: i16 = if skip + i < len { pcm_buf[skip + i] } else { self.delay_buffer[i] };
                out.push(x);
                i += 1;
            }
        }
        self.delay_buffer = out;
    }

    /// Asks for a bitrate, in bits a second: a number, the encoder's own choice, or the
    /// most that fits.
    pub fn set_bitrate(&mut self, bitrate: i32) -> (r: i32)
        requires
            1 <= old(self).channels <= 2,
        ensures
            r == OPUS_OK || r == OPUS_BAD_ARG,
            r == OPUS_OK <==> bitrate > 0 || bitrate == OPUS_AUTO || bitrate == OPUS_BITRATE_MAX,
            r == OPUS_OK ==> *final(self) == (OpusEncoder {
                user_bitrate_bps: kept_bitrate(bitrate as int, old(self).channels as int) as i32,
                ..*old(self)
            }),
            r != OPUS_OK ==> *final(self) == *old(self),
            old(self).wf() ==> final(self).wf(),
    {
        if bitrate != OPUS_AUTO && bitrate != OPUS_BITRATE_MAX {
            if bitrate <= 0 {
                return OPUS_BAD_ARG;
            }
            let most: i32 = 750000 * self.channels;
            self.user_bitrate_bps = if bitrate <= 500 {
                500
            } else if bitrate > most {
                most
            } else {
                bitrate
            };
        } else {
            self.user_bitrate_bps = bitrate;
        }
        OPUS_OK
    }

    /// The bitrate that the setting comes to, for frames like the last one.
    pub fn get_bitrate(&self) -> (r: i32)
        requires
            valid_fs(self.fs as int),
            1 <= self.channels <= 2,
            0 <= self.prev_framesize <= self.fs,
            self.prev_framesize == 0 || self.fs <= 400 * self.prev_framesize,
        ensures
            r == effective_bitrate(
                self.user_bitrate_bps as int,
                self.channels as int,
                self.fs as int,
                self.prev_framesize as int,
                1276,
            ),
    {
        user_bitrate_to_bitrate(
            self.user_bitrate_bps,
            self.channels,
            self.fs,
            self.prev_framesize,
            1276,
        )
    }

    /// The bitrate of the last frame.
    pub fn current_bitrate_bps(&self) -> (r: i32)
        ensures
            r == self.bitrate_bps,
    {
        self.bitrate_bps
    }

    /// How many samples the input is delayed by to line the coders up.
    pub fn delay_compensation(&self) -> (r: i32)
        ensures
            r == self.delay_compensation,
    {
        self.delay_compensation
    }

    /// The bitrate setting as it is kept.
    pub fn get_user_bitrate_bps(&self) -> (r: i32)
        ensures
            r == self.user_bitrate_bps,
    {
        self.user_bitrate_bps
    }

    /// The music coder, where there is one.
    pub fn celt_mode(&self) -> (r: Option<&CeltEncoder>)
        ensures
            match self.celt_enc {
                Some(c) => r == Some(&c),
                None => r is None,
            },
    {
        self.celt_enc.as_ref()
    }

    /// How much work to spend, from 0 to 10.
    pub fn set_complexity(&mut self, complexity: i32) -> (r: i32)
        ensures
            r == OPUS_OK || r == OPUS_BAD_ARG,
            r == OPUS_OK <==> 0 <= complexity <= 10,
            r == OPUS_OK ==> *final(self) == (OpusEncoder {
                silk_mode: SilkEncControlStruct { complexity, ..old(self).silk_mode },
                celt_enc: match old(self).celt_enc {
                    Some(c) => Some(CeltEncoder { complexity: complexity, ..c }),
                    None => None,
                },
                ..*old(self)
            }),
            r != OPUS_OK ==> *final(self) == *old(self),
            old(self).wf() ==> final(self).wf(),
    {
        if complexity < 0 || complexity > 10 {
            return OPUS_BAD_ARG;
        }
        self.silk_mode.complexity = complexity;
        if let Some(celt) = &mut self.celt_enc {
            celt.complexity = complexity;
        }
        OPUS_OK
    }

    /// How much work is spent.
    pub fn get_complexity(&self) -> (r: i32)
        ensures
            r == self.silk_mode.complexity,
    {
        self.silk_mode.complexity
    }

    /// Whether the bitrate may vary. Where it may not, packets of one duration have one size.
    pub fn set_vbr(&mut self, vbr: i32) -> (r: i32)
        ensures
            r == OPUS_OK || r == OPUS_BAD_ARG,
            r == OPUS_OK <==> 0 <= vbr <= 1,
            r == OPUS_OK ==> *final(self) == (OpusEncoder {
                use_vbr: vbr,
                silk_mode: SilkEncControlStruct {
                    use_cbr: (1 - vbr) as i32,
                    ..old(self).silk_mode
                },
                ..*old(self)
            }),
            r != OPUS_OK ==> *final(self) == *old(self),
            old(self).wf() ==> final(self).wf(),
    {
        if vbr < 0 || vbr > 1 {
            return OPUS_BAD_ARG;
        }
        self.use_vbr = vbr;
        self.silk_mode.use_cbr = 1 - vbr;
        OPUS_OK
    }

    /// Whether the bitrate may vary.
    pub fn get_vbr(&self) -> (r: i32)
        ensures
            r == self.use_vbr,
    {
        self.use_vbr
    }

    /// Whether a bitrate that varies keeps to a buffer.
    pub fn set_vbr_constraint(&mut self, constraint: i32) -> (r: i32)
        ensures
            r == OPUS_OK || r == OPUS_BAD_ARG,
            r == OPUS_OK <==> 0 <= constraint <= 1,
            r == OPUS_OK ==> *final(self) == (OpusEncoder {
                vbr_constraint: constraint,
                ..*old(self)
            }),
            r != OPUS_OK ==> *final(self) == *old(self),
            old(self).wf() ==> final(self).wf(),
    {
        if constraint < 0 || constraint > 1 {
            return OPUS_BAD_ARG;
        }
        self.vbr_constraint = constraint;
        OPUS_OK
    }

    /// Whether a bitrate that varies keeps to a buffer.
    pub fn get_vbr_constraint(&self) -> (r: i32)
        ensures
            r == self.vbr_constraint,
    {
        self.vbr_constraint
    }

    /// How many channels to code, whatever the input.
    pub fn set_force_channels(&mut self, channels: i32) -> (r: i32)
        ensures
            r == OPUS_OK || r == OPUS_BAD_ARG,
            r == OPUS_OK <==> channels == OPUS_AUTO || 1 <= channels <= old(self).channels,
            r == OPUS_OK ==> *final(self) == (OpusEncoder {
                force_channels: channels,
                ..*old(self)
            }),
            r != OPUS_OK ==> *final(self) == *old(self),
            old(self).wf() ==> final(self).wf(),
    {
        if channels != OPUS_AUTO && (channels < 1 || channels > self.channels) {
            return OPUS_BAD_ARG;
        }
        self.force_channels = channels;
        OPUS_OK
    }

    /// How many channels are asked for.
    pub fn get_force_channels(&self) -> (r: i32)
        ensures
            r == self.force_channels,
    {
        self.force_channels
    }

    /// Which bandwidth to code, whatever the bitrate.
    pub fn set_bandwidth(&mut self, bandwidth: i32) -> (r: i32)
        ensures
            r == OPUS_OK || r == OPUS_BAD_ARG,
            r == OPUS_OK <==> bandwidth == OPUS_AUTO || valid_bandwidth(bandwidth as int),
            r == OPUS_OK ==> *final(self) == (OpusEncoder {
                user_bandwidth: bandwidth,
                ..*old(self)
            }),
            r != OPUS_OK ==> *final(self) == *old(self),
            old(self).wf() ==> final(self).wf(),
    {
        if bandwidth != OPUS_AUTO && (bandwidth < OPUS_BANDWIDTH_NARROWBAND || bandwidth
            > OPUS_BANDWIDTH_FULLBAND) {
            return OPUS_BAD_ARG;
        }
        self.user_bandwidth = bandwidth;
        OPUS_OK
    }

    /// The bandwidth of the last frame.
    pub fn get_bandwidth(&self) -> (r: i32)
        ensures
            r == self.bandwidth,
    {
        self.bandwidth
    }

    /// The widest bandwidth that may be chosen.
    pub fn set_max_bandwidth(&mut self, bandwidth: i32) -> (r: i32)
        ensures
            r == OPUS_OK || r == OPUS_BAD_ARG,
            r == OPUS_OK <==> valid_bandwidth(bandwidth as int),
            r == OPUS_OK ==> *final(self) == (OpusEncoder {
                max_bandwidth: bandwidth,
                ..*old(self)
            }),
            r != OPUS_OK ==> *final(self) == *old(self),
            old(self).wf() ==> final(self).wf(),
    {
        if bandwidth < OPUS_BANDWIDTH_NARROWBAND || bandwidth > OPUS_BANDWIDTH_FULLBAND {
            return OPUS_BAD_ARG;
        }
        self.max_bandwidth = bandwidth;
        OPUS_OK
    }

    /// The widest bandwidth that may be chosen.
    pub fn get_max_bandwidth(&self) -> (r: i32)
        ensures
            r == self.max_bandwidth,
    {
        self.max_bandwidth
    }

    /// What the input is: voice, music, or unknown.
    pub fn set_signal(&mut self, signal: i32) -> (r: i32)
        ensures
            r == OPUS_OK || r == OPUS_BAD_ARG,
            r == OPUS_OK <==> signal == OPUS_AUTO || signal == OPUS_SIGNAL_VOICE || signal == OPUS_SIGNAL_MUSIC,
            r == OPUS_OK ==> *final(self) == (OpusEncoder {
                signal_type: signal,
                ..*old(self)
            }),
            r != OPUS_OK ==> *final(self) == *old(self),
            old(self).wf() ==> final(self).wf(),
    {
        if signal != OPUS_AUTO && signal != OPUS_SIGNAL_VOICE && signal != OPUS_SIGNAL_MUSIC {
            return OPUS_BAD_ARG;
        }
        self.signal_type = signal;
        OPUS_OK
    }

    /// What the input was said to be.
    pub fn get_signal(&self) -> (r: i32)
        ensures
            r == self.signal_type,
    {
        self.signal_type
    }

    /// Whether packets carry the frame before again: no, yes, or yes without leaving music.
    pub fn set_inband_fec(&mut self, fec: i32) -> (r: i32)
        ensures
            r == OPUS_OK || r == OPUS_BAD_ARG,
            r == OPUS_OK <==> 0 <= fec <= 2,
            r == OPUS_OK ==> *final(self) == (OpusEncoder {
                fec_config: fec,
                silk_mode: SilkEncControlStruct {
                    use_in_band_fec: if fec != 0 {
                        1
                    } else {
                        0
                    },
                    ..old(self).silk_mode
                },
                ..*old(self)
            }),
            r != OPUS_OK ==> *final(self) == *old(self),
            old(self).wf() ==> final(self).wf(),
    {
        if fec < 0 || fec > 2 {
            return OPUS_BAD_ARG;
        }
        self.fec_config = fec;
        self.silk_mode.use_in_band_fec = if fec != 0 { 1 } else { 0 };
        OPUS_OK
    }

    /// Whether packets carry the frame before again.
    pub fn get_inband_fec(&self) -> (r: i32)
        ensures
            r == self.fec_config,
    {
        self.fec_config
    }

    /// How many packets in a hundred are expected to be lost.
    pub fn set_packet_loss_perc(&mut self, loss: i32) -> (r: i32)
        ensures
            r == OPUS_OK || r == OPUS_BAD_ARG,
            r == OPUS_OK <==> 0 <= loss <= 100,
            r == OPUS_OK ==> *final(self) == (OpusEncoder {
                silk_mode: SilkEncControlStruct {
                    packet_loss_percentage: loss,
                    ..old(self).silk_mode
                },
                celt_enc: match old(self).celt_enc {
                    Some(c) => Some(CeltEncoder { loss_rate: loss, ..c }),
                    None => None,
                },
                ..*old(self)
            }),
            r != OPUS_OK ==> *final(self) == *old(self),
            old(self).wf() ==> final(self).wf(),
    {
        if loss < 0 || loss > 100 {
            return OPUS_BAD_ARG;
        }
        self.silk_mode.packet_loss_percentage = loss;
        if let Some(celt) = &mut self.celt_enc {
            celt.loss_rate = loss;
        }
        OPUS_OK
    }

    /// How many packets in a hundred are expected to be lost.
    pub fn get_packet_loss_perc(&self) -> (r: i32)
        ensures
            r == self.silk_mode.packet_loss_percentage,
    {
        self.silk_mode.packet_loss_percentage
    }

    /// Whether frames without activity may be left out.
    pub fn set_dtx(&mut self, dtx: i32) -> (r: i32)
        ensures
            r == OPUS_OK || r == OPUS_BAD_ARG,
            r == OPUS_OK <==> 0 <= dtx <= 1,
            r == OPUS_OK ==> *final(self) == (OpusEncoder {
                use_dtx: dtx,
                ..*old(self)
            }),
            r != OPUS_OK ==> *final(self) == *old(self),
            old(self).wf() ==> final(self).wf(),
    {
        if dtx < 0 || dtx > 1 {
            return OPUS_BAD_ARG;
        }
        self.use_dtx = dtx;
        OPUS_OK
    }

    /// Whether frames without activity may be left out.
    pub fn get_dtx(&self) -> (r: i32)
        ensures
            r == self.use_dtx,
    {
        self.use_dtx
    }

    /// How far back redundancy reaches, in steps of two and a half milliseconds; zero for
    /// none. Only one channel can have it. A redundancy coder that is not there yet is made;
    /// its model comes with `load_dnn_blob`.
    pub fn set_dred_duration(&mut self, duration: i32) -> (r: i32)
        ensures
            r == OPUS_OK || r == OPUS_BAD_ARG,
            r == OPUS_OK <==> 0 <= duration <= DRED_MAX_FRAMES && (duration > 0 ==> old(
                self,
            ).channels <= 1),
            r == OPUS_OK ==> *final(self) == (OpusEncoder {
                dred_duration: duration,
                silk_mode: SilkEncControlStruct {
                    use_dred: if duration != 0 {
                        1
                    } else {
                        0
                    },
                    ..old(self).silk_mode
                },
                dred_encoder: if duration != 0 && old(self).dred_encoder is None {
                    Some(DredEncoder { loaded: false, latents_buffer_fill: 0 })
                } else {
                    old(self).dred_encoder
                },
                ..*old(self)
            }),
            r != OPUS_OK ==> *final(self) == *old(self),
            old(self).wf() ==> final(self).wf(),
    {
        if duration < 0 || duration > DRED_MAX_FRAMES {
            return OPUS_BAD_ARG;
        }
        if duration > 0 && self.channels > 1 {
            return OPUS_BAD_ARG;
        }
        self.dred_duration = duration;
        self.silk_mode.use_dred = if duration != 0 { 1 } else { 0 };
        if duration != 0 && self.dred_encoder.is_none() {
            self.dred_encoder = Some(DredEncoder { loaded: false, latents_buffer_fill: 0 });
        }
        OPUS_OK
    }

    /// How far back redundancy reaches.
    pub fn get_dred_duration(&self) -> (r: i32)
        ensures
            r == self.dred_duration,
    {
        self.dred_duration
    }

    /// Takes note of a model for the redundancy coder: `blob` is the model, and `accepted`
    /// whether the coder could load it. A coder that is not there yet is made.
    pub fn load_dnn_blob(&mut self, blob: &[u8], accepted: bool) -> (r: i32)
        ensures
            r == if blob@.len() > 0 && accepted {
                OPUS_OK
            } else {
                OPUS_BAD_ARG
            },
            blob@.len() == 0 ==> *final(self) == *old(self),
            blob@.len() > 0 ==> *final(self) == (OpusEncoder {
                dred_encoder: Some(
                    match old(self).dred_encoder {
                        Some(d) => DredEncoder { loaded: d.loaded || accepted, ..d },
                        None => DredEncoder { loaded: accepted, latents_buffer_fill: 0 },
                    },
                ),
                ..*old(self)
            }),
            old(self).wf() ==> final(self).wf(),
    {
        if blob.len() == 0 {
            return OPUS_BAD_ARG;
        }
        let dred = match self.dred_encoder {
            Some(d) => DredEncoder { loaded: d.loaded || accepted, ..d },
            None => DredEncoder { loaded: accepted, latents_buffer_fill: 0 },
        };
        self.dred_encoder = Some(dred);
        if accepted {
            OPUS_OK
        } else {
            OPUS_BAD_ARG
        }
    }

    /// How many bits of a sample mean anything.
    pub fn set_lsb_depth(&mut self, depth: i32) -> (r: i32)
        ensures
            r == OPUS_OK || r == OPUS_BAD_ARG,
            r == OPUS_OK <==> 8 <= depth <= 24,
            r == OPUS_OK ==> *final(self) == (OpusEncoder {
                lsb_depth: depth,
                ..*old(self)
            }),
            r != OPUS_OK ==> *final(self) == *old(self),
            old(self).wf() ==> final(self).wf(),
    {
        if depth < 8 || depth > 24 {
            return OPUS_BAD_ARG;
        }
        self.lsb_depth = depth;
        OPUS_OK
    }

    /// How many bits of a sample mean anything.
    pub fn get_lsb_depth(&self) -> (r: i32)
        ensures
            r == self.lsb_depth,
    {
        self.lsb_depth
    }

    /// The state of the high-pass filter.
    pub fn get_hp_mem(&self) -> (r: [i32; 4])
        ensures
            r == self.hp_mem,
    {
        self.hp_mem
    }

    /// The smoothed cutoff of the high-pass filter, as a logarithm.
    pub fn get_variable_hp_smth2(&self) -> (r: i32)
        ensures
            r == self.variable_hp_smth2_q15,
    {
        self.variable_hp_smth2_q15
    }

    /// The delay buffer, hashed, and its length.
    pub fn debug_delay_buffer_hash(&self) -> (r: (i32, i32))
        requires
            1 <= self.channels <= 2,
            0 <= self.encoder_buffer <= 480000,
            self.delay_buffer@.len() == self.encoder_buffer * self.channels,
        ensures
            r.0 == sample_hash(self.delay_buffer@),
            r.1 == self.encoder_buffer * self.channels,
    {
        let n: usize = self.delay_buffer.len();
        let mut h: i32 = 0;
        let mut i: usize = 0;
        while i < n
            invariant
                i <= n,
                n == self.delay_buffer@.len(),
                h == sample_hash(self.delay_buffer@.subrange(0, i as int)),
            decreases n - i,
        {
            proof {
                let next = self.delay_buffer@.subrange(0, i + 1);
                assert(next.drop_last() =~= self.delay_buffer@.subrange(0, i as int));
            }
            h = h.wrapping_mul(31).wrapping_add(self.delay_buffer[i] as i32);
            i += 1;
        }
        proof {
            assert(self.delay_buffer@.subrange(0, n as int) =~= self.delay_buffer@);
        }
        (h, n as i32)
    }

    /// How long frames are: as the input is handed over, or one of nine durations.
    pub fn set_expert_frame_duration(&mut self, duration: i32) -> (r: i32)
        ensures
            r == OPUS_OK || r == OPUS_BAD_ARG,
            r == OPUS_OK <==> duration == OPUS_FRAMESIZE_ARG || OPUS_FRAMESIZE_2_5_MS <= duration
                <= OPUS_FRAMESIZE_120_MS,
            r == OPUS_OK ==> *final(self) == (OpusEncoder {
                variable_duration: duration,
                ..*old(self)
            }),
            r != OPUS_OK ==> *final(self) == *old(self),
            old(self).wf() ==> final(self).wf(),
    {
        if duration != OPUS_FRAMESIZE_ARG && (duration < OPUS_FRAMESIZE_2_5_MS || duration
            > OPUS_FRAMESIZE_120_MS) {
            return OPUS_BAD_ARG;
        }
        self.variable_duration = duration;
        OPUS_OK
    }

    /// How long frames are.
    pub fn get_expert_frame_duration(&self) -> (r: i32)
        ensures
            r == self.variable_duration,
    {
        self.variable_duration
    }

    /// Whether frames do without what came before them.
    pub fn set_prediction_disabled(&mut self, disabled: i32) -> (r: i32)
        ensures
            r == OPUS_OK || r == OPUS_BAD_ARG,
            r == OPUS_OK <==> 0 <= disabled <= 1,
            r == OPUS_OK ==> *final(self) == (OpusEncoder {
                silk_mode: SilkEncControlStruct {
                    reduced_dependency: disabled,
                    ..old(self).silk_mode
                },
                ..*old(self)
            }),
            r != OPUS_OK ==> *final(self) == *old(self),
            old(self).wf() ==> final(self).wf(),
    {
        if disabled < 0 || disabled > 1 {
            return OPUS_BAD_ARG;
        }
        self.silk_mode.reduced_dependency = disabled;
        OPUS_OK
    }

    /// Whether frames do without what came before them.
    pub fn get_prediction_disabled(&self) -> (r: i32)
        ensures
            r == self.silk_mode.reduced_dependency,
    {
        self.silk_mode.reduced_dependency
    }

    /// Whether a channel may not be coded as the other one turned over.
    pub fn set_phase_inversion_disabled(&mut self, disabled: i32) -> (r: i32)
        ensures
            r == OPUS_OK || r == OPUS_BAD_ARG,
            r == OPUS_OK <==> 0 <= disabled <= 1,
            r == OPUS_OK ==> *final(self) == (OpusEncoder {
                celt_enc: match old(self).celt_enc {
                    Some(c) => Some(CeltEncoder { disable_inv: disabled, ..c }),
                    None => None,
                },
                ..*old(self)
            }),
            r != OPUS_OK ==> *final(self) == *old(self),
            old(self).wf() ==> final(self).wf(),
    {
        if disabled < 0 || disabled > 1 {
            return OPUS_BAD_ARG;
        }
        if let Some(celt) = &mut self.celt_enc {
            celt.disable_inv = disabled;
        }
        OPUS_OK
    }

    /// Whether a channel may not be coded as the other one turned over.
    pub fn get_phase_inversion_disabled(&self) -> (r: i32)
        ensures
            r == match self.celt_enc {
                Some(c) => c.disable_inv,
                None => 0,
            },
    {
        match &self.celt_enc {
            Some(celt) => celt.disable_inv,
            None => 0,
        }
    }

    /// How much in a hundred speaks for voice; -1 where that is unknown.
    pub fn set_voice_ratio(&mut self, ratio: i32) -> (r: i32)
        ensures
            r == OPUS_OK || r == OPUS_BAD_ARG,
            r == OPUS_OK <==> -1 <= ratio <= 100,
            r == OPUS_OK ==> *final(self) == (OpusEncoder {
                voice_ratio: ratio,
                ..*old(self)
            }),
            r != OPUS_OK ==> *final(self) == *old(self),
            old(self).wf() ==> final(self).wf(),
    {
        if ratio < -1 || ratio > 100 {
            return OPUS_BAD_ARG;
        }
        self.voice_ratio = ratio;
        OPUS_OK
    }

    /// How much in a hundred speaks for voice.
    pub fn get_voice_ratio(&self) -> (r: i32)
        ensures
            r == self.voice_ratio,
    {
        self.voice_ratio
    }

    /// Two encoders are set alike, in all that their user can choose.
    pub open spec fn same_choices(&self, other: OpusEncoder) -> bool {
        &&& self.fs == other.fs
        &&& self.channels == other.channels
        &&& self.application == other.application
        &&& self.force_channels == other.force_channels
        &&& self.signal_type == other.signal_type
        &&& self.user_bandwidth == other.user_bandwidth
        &&& self.max_bandwidth == other.max_bandwidth
        &&& self.user_forced_mode == other.user_forced_mode
        &&& self.use_vbr == other.use_vbr
        &&& self.vbr_constraint == other.vbr_constraint
        &&& self.variable_duration == other.variable_duration
        &&& self.user_bitrate_bps == other.user_bitrate_bps
        &&& self.lsb_depth == other.lsb_depth
        &&& self.lfe == other.lfe
        &&& self.use_dtx == other.use_dtx
        &&& self.fec_config == other.fec_config
        &&& self.energy_masking == other.energy_masking
        &&& self.dred_duration == other.dred_duration
        &&& self.silk_mode.complexity == other.silk_mode.complexity
        &&& self.silk_mode.packet_loss_percentage == other.silk_mode.packet_loss_percentage
        &&& self.silk_mode.use_in_band_fec == other.silk_mode.use_in_band_fec
        &&& self.silk_mode.reduced_dependency == other.silk_mode.reduced_dependency
    }

    /// Two encoders count the time without activity alike.
    pub open spec fn counts_like(&self, other: OpusEncoder) -> bool {
        &&& self.fs == other.fs
        &&& self.use_dtx == other.use_dtx
        &&& self.silk_mode.use_dtx == other.silk_mode.use_dtx
        &&& self.nb_no_activity_ms_q1 == other.nb_no_activity_ms_q1
    }

    /// Whether frames are being left out now. Where the speech coder is at work it counts
    /// the frames without speech; else two hundred milliseconds without activity decide.
    pub open spec fn leaves_out(&self) -> bool {
        &&& self.use_dtx != 0
        &&& if self.silk_mode.use_dtx != 0 && self.prev_mode != 0 && self.prev_mode
            != MODE_CELT_ONLY && self.silk_enc is Some {
            self.silk_enc->Some_0.no_speech_counter >= NB_SPEECH_FRAMES_BEFORE_DTX
        } else {
            self.nb_no_activity_ms_q1 >= NB_SPEECH_FRAMES_BEFORE_DTX * 40
        }
    }

    /// Whether frames are being left out now, as 0 or 1.
    pub fn get_in_dtx(&self) -> (r: i32)
        ensures
            r == if self.leaves_out() {
                1i32
            } else {
                0
            },
    {
        if self.use_dtx == 0 {
            return 0;
        }
        if self.silk_mode.use_dtx != 0 && self.prev_mode != 0 && self.prev_mode != MODE_CELT_ONLY {
            if let Some(silk) = &self.silk_enc {
                return if silk.no_speech_counter >= NB_SPEECH_FRAMES_BEFORE_DTX { 1 } else { 0 };
            }
        }
        if self.nb_no_activity_ms_q1 >= NB_SPEECH_FRAMES_BEFORE_DTX * 40 {
            1
        } else {
            0
        }
    }

    /// Says that the input is the low-frequency channel of a surround signal.
    pub fn set_lfe(&mut self, value: i32) -> (r: i32)
        ensures
            r == OPUS_OK,
            *final(self) == (OpusEncoder {
                lfe: value,
                celt_enc: match old(self).celt_enc {
                    Some(c) => if old(self).application != OPUS_APPLICATION_RESTRICTED_SILK {
                        Some(CeltEncoder { lfe: value, ..c })
                    } else {
                        Some(c)
                    },
                    None => None,
                },
                ..*old(self)
            }),
            old(self).wf() ==> final(self).wf(),
    {
        self.lfe = value;
        if self.application != OPUS_APPLICATION_RESTRICTED_SILK {
            if let Some(celt) = &mut self.celt_enc {
                celt.lfe = value;
            }
        }
        OPUS_OK
    }

    /// Says how far each band is masked by other channels, or that nothing is known of it.
    pub fn set_energy_mask(&mut self, mask: Option<&[i32]>) -> (r: i32)
        ensures
            r == OPUS_OK,
            match (mask, final(self).energy_masking) {
                (Some(m), Some(v)) => v@ == m@,
                (None, None) => true,
                _ => false,
            },
            match (old(self).celt_enc, final(self).celt_enc) {
                (Some(c), Some(d)) => {
                    &&& d == (CeltEncoder { energy_mask: d.energy_mask, ..c })
                    &&& if old(self).application == OPUS_APPLICATION_RESTRICTED_SILK {
                        d.energy_mask == c.energy_mask
                    } else {
                        match (mask, d.energy_mask) {
                            (Some(m), Some(v)) => v@ == m@,
                            (None, None) => true,
                            _ => false,
                        }
                    }
                },
                (None, None) => true,
                _ => false,
            },
            *final(self) == (OpusEncoder {
                energy_masking: final(self).energy_masking,
                celt_enc: final(self).celt_enc,
                ..*old(self)
            }),
            old(self).wf() ==> final(self).wf(),
    {
        self.energy_masking = match mask {
            Some(m) => Some(vstd::slice::slice_to_vec(m)),
            None => None,
        };
        if self.application != OPUS_APPLICATION_RESTRICTED_SILK {
            if let Some(celt) = &mut self.celt_enc {
                celt.energy_mask = match mask {
                    Some(m) => Some(vstd::slice::slice_to_vec(m)),
                    None => None,
                };
            }
        }
        OPUS_OK
    }

    /// How to code, whatever the input.
    pub fn set_force_mode(&mut self, mode: i32) -> (r: i32)
        ensures
            r == OPUS_OK || r == OPUS_BAD_ARG,
            r == OPUS_OK <==> mode == OPUS_AUTO || valid_mode(mode as int),
            r == OPUS_OK ==> *final(self) == (OpusEncoder {
                user_forced_mode: mode,
                ..*old(self)
            }),
            r != OPUS_OK ==> *final(self) == *old(self),
            old(self).wf() ==> final(self).wf(),
    {
        if mode != OPUS_AUTO && mode != MODE_SILK_ONLY && mode != MODE_HYBRID && mode
            != MODE_CELT_ONLY {
            return OPUS_BAD_ARG;
        }
        self.user_forced_mode = mode;
        OPUS_OK
    }

    /// By how many samples the output lags the input.
    pub fn get_lookahead(&self) -> (r: i32)
        requires
            valid_fs(self.fs as int),
            0 <= self.delay_compensation <= 480000,
        ensures
            r == self.fs / 400 + if self.application == OPUS_APPLICATION_RESTRICTED_LOWDELAY {
                0
            } else {
                self.delay_compensation as int
            },
    {
        let mut lookahead: i32 = self.fs / 400;
        if self.application != OPUS_APPLICATION_RESTRICTED_LOWDELAY {
            lookahead += self.delay_compensation;
        }
        lookahead
    }

    /// The sampling rate.
    pub fn get_sample_rate(&self) -> (r: i32)
        ensures
            r == self.fs,
    {
        self.fs
    }

    /// The state of the range coder after the last packet.
    pub fn get_final_range(&self) -> (r: u32)
        ensures
            r == self.range_final,
    {
        self.range_final
    }

    /// What the encoder is used for.
    pub fn get_application(&self) -> (r: i32)
        ensures
            r == self.application,
    {
        self.application
    }

    /// What the encoder is used for. It cannot change once a frame was coded.
    pub fn set_application(&mut self, application: i32) -> (r: i32)
        ensures
            r == OPUS_OK || r == OPUS_BAD_ARG,
            r == OPUS_OK <==> valid_application(application as int) && (old(self).first != 0 || application
                == old(self).application),
            r == OPUS_OK ==> *final(self) == (OpusEncoder {
                application,
                analysis: AnalysisCursor { application, ..old(self).analysis },
                ..*old(self)
            }),
            r != OPUS_OK ==> *final(self) == *old(self),
            old(self).wf() && old(self).prev_mode != 0 && application != old(self).application
                ==> r == OPUS_BAD_ARG,
            old(self).wf() ==> final(self).wf(),
    {
        if application != OPUS_APPLICATION_VOIP && application != OPUS_APPLICATION_AUDIO
            && application != OPUS_APPLICATION_RESTRICTED_LOWDELAY {
            return OPUS_BAD_ARG;
        }
        if self.first == 0 && self.application != application {
            return OPUS_BAD_ARG;
        }
        self.application = application;
        self.analysis.application = application;
        OPUS_OK
    }

    /// How many channels the input has.
    pub fn get_channels(&self) -> (r: i32)
        ensures
            r == self.channels,
    {
        self.channels
    }

    /// How many channels the last frame was coded with.
    pub fn get_stream_channels(&self) -> (r: i32)
        ensures
            r == self.stream_channels,
    {
        self.stream_channels
    }

    /// How the last frame was coded.
    pub fn get_mode(&self) -> (r: i32)
        ensures
            r == self.mode,
    {
        self.mode
    }

    /// What the next frame follows: how the last one ended.
    pub fn get_prev_mode(&self) -> (r: i32)
        ensures
            r == self.prev_mode,
    {
        self.prev_mode
    }

    /// The speech coder, where there is one.
    pub fn silk_encoder(&self) -> (r: Option<&SilkEncoder>)
        ensures
            match self.silk_enc {
                Some(s) => r == Some(&s),
                None => r is None,
            },
    {
        self.silk_enc.as_ref()
    }

    /// The speech coder's numbers now.
    pub fn get_silk_state(&self) -> (r: Option<SilkEncoderSnapshot>)
        ensures
            match self.silk_enc {
                Some(s) => r == Some(
                    SilkEncoderSnapshot {
                        fs_khz: s.fs_khz,
                        frame_length: s.frame_length,
                        nb_subfr: s.nb_subfr,
                        input_buf_ix: s.input_buf_ix,
                        n_frames_per_packet: s.n_frames_per_packet,
                        packet_size_ms: s.packet_size_ms,
                        first_frame_after_reset: s.first_frame_after_reset,
                        controlled_since_last_payload: s.controlled_since_last_payload,
                        prefill_flag: s.prefill_flag,
                        n_frames_encoded: s.n_frames_encoded,
                        speech_activity_q8: s.speech_activity_q8,
                        signal_type: s.signal_type,
                        input_quality_bands_q15: s.input_quality_bands_q15,
                    },
                ),
                None => r is None,
            },
    {
        match &self.silk_enc {
            Some(s) => Some(
                SilkEncoderSnapshot {
                    fs_khz: s.fs_khz,
                    frame_length: s.frame_length,
                    nb_subfr: s.nb_subfr,
                    input_buf_ix: s.input_buf_ix,
                    n_frames_per_packet: s.n_frames_per_packet,
                    packet_size_ms: s.packet_size_ms,
                    first_frame_after_reset: s.first_frame_after_reset,
                    controlled_since_last_payload: s.controlled_since_last_payload,
                    prefill_flag: s.prefill_flag,
                    n_frames_encoded: s.n_frames_encoded,
                    speech_activity_q8: s.speech_activity_q8,
                    signal_type: s.signal_type,
                    input_quality_bands_q15: s.input_quality_bands_q15,
                },
            ),
            None => None,
        }
    }

    /// The stereo width estimate and the modes now.
    pub fn get_opus_stereo_state(&self) -> (r: OpusEncoderStereoSnapshot)
        ensures
            r.hybrid_stereo_width_q14 == self.hybrid_stereo_width_q14,
            r.width_xx == self.width_mem.xx,
            r.width_xy == self.width_mem.xy,
            r.width_yy == self.width_mem.yy,
            r.width_smoothed == self.width_mem.smoothed_width,
            r.width_max_follower == self.width_mem.max_follower,
            r.detected_bandwidth == self.detected_bandwidth,
            r.mode == self.mode,
            r.prev_mode == self.prev_mode,
            r.bandwidth == self.bandwidth,
    {
        OpusEncoderStereoSnapshot {
            hybrid_stereo_width_q14: self.hybrid_stereo_width_q14 as i32,
            width_xx: self.width_mem.xx,
            width_xy: self.width_mem.xy,
            width_yy: self.width_mem.yy,
            width_smoothed: self.width_mem.smoothed_width,
            width_max_follower: self.width_mem.max_follower,
            detected_bandwidth: self.detected_bandwidth,
            mode: self.mode,
            prev_mode: self.prev_mode,
            bandwidth: self.bandwidth,
        }
    }

    /// What the music coder carries now.
    pub fn get_celt_state_ext(&self) -> (r: Option<CeltEncoderStateExt>)
        ensures
            match self.celt_enc {
                Some(c) => r == Some(c.running),
                None => r is None,
            },
    {
        match &self.celt_enc {
            Some(celt) => Some(celt.running),
            None => None,
        }
    }
}

} // verus!
