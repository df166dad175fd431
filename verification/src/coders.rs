//! What the encoder keeps of the coders below it: the speech coder, the music coder, the
//! signal analysis and the redundancy coder. They do their work elsewhere; here stand the
//! settings that they are given and the numbers that they report.

use vstd::prelude::*;
use crate::arith::{lin2log, silk_lin2log};

verus! {

/// What the speech coder is told before a frame, and what it reports after it.
#[derive(Clone, Copy, Debug)]
pub struct SilkEncControlStruct {
    pub n_channels_api: i32,
    pub n_channels_internal: i32,
    pub api_sample_rate: i32,
    pub max_internal_sample_rate: i32,
    pub min_internal_sample_rate: i32,
    pub desired_internal_sample_rate: i32,
    pub payload_size_ms: i32,
    pub bit_rate: i32,
    pub packet_loss_percentage: i32,
    pub complexity: i32,
    pub use_in_band_fec: i32,
    pub use_dred: i32,
    pub lbrr_coded: i32,
    pub use_dtx: i32,
    pub use_cbr: i32,
    pub max_bits: i32,
    pub to_mono: i32,
    pub opus_can_switch: i32,
    pub reduced_dependency: i32,
    pub internal_sample_rate: i32,
    pub allow_bandwidth_switch: i32,
    pub in_wb_mode_without_variable_lp: i32,
    pub stereo_width_q14: i32,
    pub switch_ready: i32,
    pub signal_type: i32,
    pub offset: i32,
}

/// The smoothed lower cutoff of the speech coder when it starts: 60 Hz, as a logarithm in
/// Q15.
pub const INITIAL_HP_SMTH: i32 = 193536;

/// The smoothed lower cutoff is held below 100 Hz, whose logarithm is not above this.
pub const MAX_HP_SMTH: i32 = 262144;

/// The smoothed lower cutoff when nothing was heard yet.
pub fn initial_cutoff() -> (r: i32)
    ensures
        r == INITIAL_HP_SMTH,
{
    proof {
        lemma_initial_cutoff();
    }
    silk_lin2log(60) * 256
}

/// That number is what the logarithm of the cutoff comes to.
proof fn lemma_initial_cutoff()
    ensures
        INITIAL_HP_SMTH == lin2log(60) * 256,
{
    reveal_with_fuel(crate::arith::ilog2, 7);
    vstd::arithmetic::power2::lemma2_to64();
    assert(crate::arith::ilog2(60) == 5);
    let frac = crate::arith::shifted(60, 7 - 5) - 128;
    assert(frac == 112);
    assert(112 * (128 - 112) * 179 / 65536 == 4int) by (nonlinear_arith);
}

/// What the speech coder reports of itself.
#[derive(Clone, Copy, Debug)]
pub struct SilkEncoder {
    pub n_channels: i32,
    pub fs_khz: i32,
    pub frame_length: i32,
    pub nb_subfr: i32,
    pub input_buf_ix: i32,
    pub n_frames_per_packet: i32,
    pub packet_size_ms: i32,
    pub first_frame_after_reset: i32,
    pub controlled_since_last_payload: i32,
    pub prefill_flag: i32,
    pub n_frames_encoded: i32,
    pub speech_activity_q8: i32,
    pub signal_type: i32,
    pub input_quality_bands_q15: i32,
    pub variable_hp_smth1_q15: i32,
    pub no_speech_counter: i32,
}

impl SilkEncoder {
    /// A speech coder that has seen no sample.
    pub open spec fn fresh(channels: int) -> SilkEncoder {
        SilkEncoder {
            n_channels: channels as i32,
            fs_khz: 0,
            frame_length: 0,
            nb_subfr: 0,
            input_buf_ix: 0,
            n_frames_per_packet: 0,
            packet_size_ms: 0,
            first_frame_after_reset: 1,
            controlled_since_last_payload: 0,
            prefill_flag: 0,
            n_frames_encoded: 0,
            speech_activity_q8: 0,
            signal_type: 0,
            input_quality_bands_q15: 0,
            variable_hp_smth1_q15: INITIAL_HP_SMTH,
            no_speech_counter: 0,
        }
    }

    /// The lower cutoff is within its bounds.
    pub open spec fn wf(&self) -> bool {
        0 <= self.variable_hp_smth1_q15 <= MAX_HP_SMTH
    }

    pub fn new(channels: i32) -> (r: Self)
        ensures
            r == SilkEncoder::fresh(channels as int),
            r.wf(),
    {
        SilkEncoder {
            n_channels: channels,
            fs_khz: 0,
            frame_length: 0,
            nb_subfr: 0,
            input_buf_ix: 0,
            n_frames_per_packet: 0,
            packet_size_ms: 0,
            first_frame_after_reset: 1,
            controlled_since_last_payload: 0,
            prefill_flag: 0,
            n_frames_encoded: 0,
            speech_activity_q8: 0,
            signal_type: 0,
            input_quality_bands_q15: 0,
            variable_hp_smth1_q15: initial_cutoff(),
            no_speech_counter: 0,
        }
    }
}

/// Numbers that the music coder carries from frame to frame.
#[derive(Clone, Copy, Debug)]
pub struct CeltEncoderStateExt {
    pub stereo_saving: i32,
    pub hf_average: i32,
    pub spec_avg: i32,
    pub intensity: i32,
    pub overlap_max: i32,
    pub vbr_reservoir: i32,
    pub vbr_drift: i32,
    pub vbr_offset: i32,
    pub vbr_count: i32,
    pub preemph_mem_e: [i32; 2],
    pub preemph_mem_d: [i32; 2],
    pub delayed_intra: i32,
    pub tonal_average: i32,
    pub last_coded_bands: i32,
    pub tapset_decision: i32,
    pub spread_decision: i32,
    pub rng: u32,
    pub consec_transient: i32,
}

impl CeltEncoderStateExt {
    /// What a music coder carries that has seen no sample.
    pub open spec fn is_fresh(self) -> bool {
        &&& self.stereo_saving == 0
        &&& self.hf_average == 0
        &&& self.spec_avg == 0
        &&& self.intensity == 0
        &&& self.overlap_max == 0
        &&& self.vbr_reservoir == 0
        &&& self.vbr_drift == 0
        &&& self.vbr_offset == 0
        &&& self.vbr_count == 0
        &&& self.preemph_mem_e@ == seq![0i32, 0i32]
        &&& self.preemph_mem_d@ == seq![0i32, 0i32]
        &&& self.delayed_intra == 1
        &&& self.tonal_average == 256
        &&& self.last_coded_bands == 0
        &&& self.tapset_decision == 0
        &&& self.spread_decision == 2
        &&& self.rng == 0
        &&& self.consec_transient == 0
    }

    pub fn new() -> (r: Self)
        ensures
            r.is_fresh(),
    {
        let r = CeltEncoderStateExt {
            stereo_saving: 0,
            hf_average: 0,
            spec_avg: 0,
            intensity: 0,
            overlap_max: 0,
            vbr_reservoir: 0,
            vbr_drift: 0,
            vbr_offset: 0,
            vbr_count: 0,
            preemph_mem_e: [0, 0],
            preemph_mem_d: [0, 0],
            delayed_intra: 1,
            tonal_average: 256,
            last_coded_bands: 0,
            tapset_decision: 0,
            spread_decision: 2,
            rng: 0,
            consec_transient: 0,
        };
        proof {
            assert(r.preemph_mem_e@ =~= seq![0i32, 0i32]);
            assert(r.preemph_mem_d@ =~= seq![0i32, 0i32]);
        }
        r
    }
}

/// The settings of the music coder, and what it carries.
pub struct CeltEncoder {
    pub channels: i32,
    pub stream_channels: i32,
    pub start: i32,
    pub end: i32,
    pub bitrate: i32,
    pub vbr: i32,
    pub constrained_vbr: i32,
    pub signalling: i32,
    pub loss_rate: i32,
    pub lsb_depth: i32,
    pub complexity: i32,
    pub disable_pf: i32,
    pub force_intra: i32,
    pub disable_inv: i32,
    pub lfe: i32,
    pub energy_mask: Option<Vec<i32>>,
    pub running: CeltEncoderStateExt,
}

impl CeltEncoder {
    /// A music coder for one or two channels at one of the codec's sampling rates.
    pub fn new(fs: i32, channels: i32) -> (r: Option<Self>)
        ensures
            r is Some <==> crate::rates::valid_fs(fs as int) && 1 <= channels <= 2,
            r matches Some(c) ==> {
                &&& c.channels == channels
                &&& c.stream_channels == channels
                &&& c.start == 0
                &&& c.end == 21
                &&& c.bitrate == -1
                &&& c.vbr == 0
                &&& c.constrained_vbr == 1
                &&& c.signalling == 1
                &&& c.loss_rate == 0
                &&& c.lsb_depth == 24
                &&& c.complexity == 5
                &&& c.disable_pf == 0
                &&& c.force_intra == 0
                &&& c.disable_inv == 0
                &&& c.lfe == 0
                &&& c.energy_mask is None
                &&& c.running.is_fresh()
            },
    {
        if fs != 8000 && fs != 12000 && fs != 16000 && fs != 24000 && fs != 48000 {
            return None;
        }
        if channels != 1 && channels != 2 {
            return None;
        }
        Some(
            CeltEncoder {
                channels,
                stream_channels: channels,
                start: 0,
                end: 21,
                bitrate: -1,
                vbr: 0,
                constrained_vbr: 1,
                signalling: 1,
                loss_rate: 0,
                lsb_depth: 24,
                complexity: 5,
                disable_pf: 0,
                force_intra: 0,
                disable_inv: 0,
                lfe: 0,
                energy_mask: None,
                running: CeltEncoderStateExt::new(),
            },
        )
    }

    /// Forgets all samples. Settings stay.
    pub fn reset(&mut self)
        ensures
            final(self).running.is_fresh(),
            *final(self) == (CeltEncoder { running: final(self).running, ..*old(self) }),
    {
        self.running = CeltEncoderStateExt::new();
    }

    /// Sets how far frames may depend on earlier ones: not at all, or freely.
    pub fn set_prediction(&mut self, value: i32)
        ensures
            *final(self) == (CeltEncoder {
                disable_pf: if value <= 1 {
                    1
                } else {
                    0
                },
                force_intra: if value == 0 {
                    1
                } else {
                    0
                },
                ..*old(self)
            }),
    {
        self.disable_pf = if value <= 1 { 1 } else { 0 };
        self.force_intra = if value == 0 { 1 } else { 0 };
    }
}

/// Where the signal analysis stands.
#[derive(Clone, Copy, Debug)]
pub struct AnalysisCursor {
    pub application: i32,
    pub initialized: i32,
    pub read_pos: i32,
    pub read_subframe: i32,
}

/// What the signal analysis says of a frame. The three ratios are how many in a hundred
/// speak for voice, by the mean, the least and the greatest probability of music;
/// `active` and `active_or_at` are whether the probability of activity is above the
/// threshold, and at or above it.
#[derive(Clone, Copy, Debug)]
pub struct AnalysisInfo {
    pub valid: bool,
    pub voice_ratio: i32,
    pub voice_ratio_min: i32,
    pub voice_ratio_max: i32,
    pub bandwidth: i32,
    pub active: bool,
    pub active_or_at: bool,
}

impl AnalysisInfo {
    /// Ratios are between nothing and all.
    pub open spec fn wf(&self) -> bool {
        &&& 0 <= self.voice_ratio <= 100
        &&& 0 <= self.voice_ratio_min <= 100
        &&& 0 <= self.voice_ratio_max <= 100
    }
}

impl AnalysisInfo {
    /// Nothing is known of the frame.
    pub open spec fn unknown() -> AnalysisInfo {
        AnalysisInfo {
            valid: false,
            voice_ratio: 0,
            voice_ratio_min: 0,
            voice_ratio_max: 0,
            bandwidth: 0,
            active: false,
            active_or_at: false,
        }
    }
}

impl Default for AnalysisInfo {
    /// Nothing is known of the frame.
    fn default() -> (r: Self)
        ensures
            r == AnalysisInfo::unknown(),
    {
        AnalysisInfo {
            valid: false,
            voice_ratio: 0,
            voice_ratio_min: 0,
            voice_ratio_max: 0,
            bandwidth: 0,
            active: false,
            active_or_at: false,
        }
    }
}

/// What is known of the redundancy coder: whether it has its model, and how much it has
/// buffered.
#[derive(Clone, Copy, Debug)]
pub struct DredEncoder {
    pub loaded: bool,
    pub latents_buffer_fill: i32,
}

} // verus!
