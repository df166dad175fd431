//! What is decided before, between and after the coders that code a frame. The coders
//! themselves work elsewhere: each function here takes what the last one of them
//! reported, and leaves what the next one is told.

use vstd::prelude::*;
use crate::arith::{floor_div, ilog2, imin, log2lin, min_int, silk_log2lin, tdiv, Q15ONE};
use crate::coders::{AnalysisInfo, DredEncoder, INITIAL_HP_SMTH};
use crate::dsp::{
    compute_frame_energy, cutoff_filter, dc_reject, dc_rejected, energy_of, high_passed, hp_cutoff,
    low_cutoffs_can_be_filtered, Biquad,
};
use crate::encoder::OpusEncoder;
use crate::modes::{
    MODE_CELT_ONLY, OPUS_APPLICATION_RESTRICTED_LOWDELAY, OPUS_APPLICATION_VOIP, VAD_NO_DECISION,
};
use crate::plan::{frame_domain, lemma_frame_samples, FramePlan, MAX_PACKET_BYTES};
use crate::rates::{
    bitrate_to_bits, bits_of, compute_redundancy_bytes, redundancy_bytes_of,
};
use crate::rounding::{less, nearest, product, Rounded};

verus! {

/// Bytes of a frame and the byte in front of it.
pub const MAX_SINGLE_BYTES: i32 = 1276;

/// A frame under way.
pub struct FrameRun {
    pub frame_size: i32,
    /// Bytes that the frame may take with the byte in front of it.
    pub max_data_bytes: i32,
    /// Bytes that the packet may take.
    pub orig_max_data_bytes: i32,
    pub dred_bitrate_bps: i32,
    pub equiv_rate: i32,
    pub to_celt: bool,
    /// Whether there is activity: 1, 0, or not known yet.
    pub activity: i32,
    /// Whether a short frame in the other mode comes along, and on which side.
    pub redundancy: bool,
    pub celt_to_silk: bool,
    pub redundancy_bytes: i32,
    pub prefill: i32,
    pub bits_target: i32,
    /// The bandwidth that is coded.
    pub bandwidth: i32,
    /// The gain of what lies above the speech band, in Q15.
    pub hb_gain: i32,
}

// ---------------------------------------------------------------------------
// Activity
// ---------------------------------------------------------------------------

/// Whether a frame is loud beside the peak: its energy is above a 316.23th of it. The
/// comparison is made with 24 bits.
pub open spec fn loud(peak: int, energy: int) -> bool {
    less(nearest(peak, 1, 0), product(nearest(31623, 100, 0), nearest(energy, 1, 0)))
}

fn is_loud(peak: i32, energy: i32) -> (r: bool)
    requires
        peak >= 0,
        energy >= 0,
    ensures
        r == loud(peak as int, energy as int),
{
    let threshold = Rounded::from_ratio(31623, 100);
    proof {
        lemma_threshold_exp();
    }
    if energy == 0 {
        proof {
            if peak > 0 {
                crate::rounding::lemma_whole_exp(peak as int);
            }
            lemma_not_below_zero(nearest(peak as int, 1, 0));
        }
        return false;
    }
    let noise = Rounded::from_int(energy);
    if peak == 0 {
        proof {
            crate::rounding::lemma_product_exp(threshold@, noise@);
            lemma_zero_below(product(threshold@, noise@));
        }
        return true;
    }
    Rounded::from_int(peak).is_less(threshold.times(noise))
}

proof fn lemma_threshold_exp()
    ensures
        -15 <= nearest(31623, 100, 0).e <= -13,
{
    vstd::arithmetic::power2::lemma2_to64();
    assert(vstd::arithmetic::power2::pow2(15) == 32768);
    assert(vstd::arithmetic::power2::pow2(14) == 16384);
    crate::rounding::lemma_up_least(31623, 100, 0, 15);
    crate::rounding::lemma_up_most(31623, 100, 0, 14);
}

proof fn lemma_not_below_zero(a: crate::rounding::Real)
    requires
        a.m >= 0,
    ensures
        !less(a, product(nearest(31623, 100, 0), nearest(0, 1, 0))),
{
    let t = nearest(31623, 100, 0);
    let z = product(t, nearest(0, 1, 0));
    assert(t.m * 0 == 0) by (nonlinear_arith);
    let e = crate::rounding::min_exp(a, z);
    let p = vstd::arithmetic::power2::pow2((a.e - e) as nat) as int;
    let q = vstd::arithmetic::power2::pow2((z.e - e) as nat) as int;
    assert(a.m * p >= 0) by (nonlinear_arith)
        requires
            a.m >= 0,
            p >= 0,
    ;
    assert(0 * q == 0) by (nonlinear_arith);
}

proof fn lemma_zero_below(b: crate::rounding::Real)
    requires
        crate::rounding::normal(b),
    ensures
        less(nearest(0, 1, 0), b),
{
    let a = nearest(0, 1, 0);
    let e = crate::rounding::min_exp(a, b);
    vstd::arithmetic::power2::lemma_pow2_pos((b.e - e) as nat);
    let p = vstd::arithmetic::power2::pow2((a.e - e) as nat) as int;
    let q = vstd::arithmetic::power2::pow2((b.e - e) as nat) as int;
    assert(b.m * q > 0) by (nonlinear_arith)
        requires
            b.m > 0,
            q > 0,
    ;
    assert(0 * p == 0) by (nonlinear_arith);
}

impl OpusEncoder {
    /// Whether there is activity, as far as that is known before the speech coder has seen
    /// the frame: the analysis decides where it can, and the energy where music is coded.
    pub open spec fn activity_of(
        &self,
        pcm: Seq<i16>,
        n: int,
        quiet: bool,
        info: AnalysisInfo,
    ) -> i32 {
        let energy = energy_of(pcm, n * self.channels);
        if quiet {
            0
        } else if info.valid {
            if info.active_or_at || loud(self.peak_signal_energy as int, energy) {
                1
            } else {
                0
            }
        } else if self.mode == MODE_CELT_ONLY {
            if self.peak_signal_energy < 316 * (energy / 2) {
                1
            } else {
                0
            }
        } else {
            VAD_NO_DECISION
        }
    }

    /// Finds out whether there is activity, as far as that can be known.
    pub fn find_activity(
        &self,
        pcm: &[i16],
        frame_size: i32,
        is_silence: bool,
        info: &AnalysisInfo,
    ) -> (r: i32)
        requires
            self.wf(),
            frame_domain(self.fs as int, frame_size as int),
            frame_size * self.channels <= pcm@.len(),
        ensures
            r == self.activity_of(pcm@, frame_size as int, is_silence, *info),
    {
        if is_silence {
            return 0;
        }
        proof {
            lemma_frame_samples(self.fs as int, frame_size as int, self.channels as int);
        }
        if info.valid {
            if info.active_or_at {
                return 1;
            }
            let noise: i32 = compute_frame_energy(pcm, frame_size, self.channels);
            if is_loud(self.peak_signal_energy, noise) {
                1
            } else {
                0
            }
        } else if self.mode == MODE_CELT_ONLY {
            let noise: i32 = compute_frame_energy(pcm, frame_size, self.channels);
            if (self.peak_signal_energy as i64) < 316 * (noise / 2) as i64 {
                1
            } else {
                0
            }
        } else {
            VAD_NO_DECISION
        }
    }
}

// ---------------------------------------------------------------------------
// The input, filtered
// ---------------------------------------------------------------------------

impl OpusEncoder {
    /// By how many samples the input is delayed.
    pub open spec fn delay(&self) -> int {
        if self.application == OPUS_APPLICATION_RESTRICTED_LOWDELAY {
            0
        } else {
            self.delay_compensation as int
        }
    }

    /// By how many samples the input is delayed.
    pub fn total_buffer(&self) -> (r: i32)
        ensures
            r == self.delay(),
    {
        if self.application == OPUS_APPLICATION_RESTRICTED_LOWDELAY {
            0
        } else {
            self.delay_compensation
        }
    }

    /// The cutoff that the filter tends to: where the speech coder finds the pitch.
    pub open spec fn hp_aim(&self) -> int {
        if self.mode == MODE_CELT_ONLY || self.silk_enc is None {
            INITIAL_HP_SMTH as int
        } else {
            self.silk_enc->Some_0.variable_hp_smth1_q15 as int
        }
    }

    /// The smoothed cutoff after a frame, as a logarithm.
    pub open spec fn hp_smoothed(&self) -> int {
        self.variable_hp_smth2_q15 + (self.hp_aim() - self.variable_hp_smth2_q15) * 983 / 65536
    }

    /// Whether `out` is the frame `pcm` behind the encoder's filter, and `after` the
    /// filter's memory then: for voice the variable high-pass filter, else one that takes
    /// out the mean.
    pub open spec fn filters(
        &self,
        pcm: Seq<i16>,
        n: int,
        out: Seq<i16>,
        after: [i32; 4],
    ) -> bool {
        if self.application == OPUS_APPLICATION_VOIP {
            let hz = log2lin(self.hp_smoothed() / 256);
            &&& exists|f: Biquad|
                #![trigger cutoff_filter(f, hz, self.fs as int)]
                cutoff_filter(f, hz, self.fs as int) && high_passed(
                    f,
                    pcm,
                    out,
                    self.hp_mem,
                    after,
                    n,
                    self.channels as int,
                )
            &&& self.channels == 1 ==> after[2] == self.hp_mem[2] && after[3] == self.hp_mem[3]
        } else {
            dc_rejected(
                pcm,
                out,
                self.hp_mem,
                after,
                n,
                self.channels as int,
                ilog2(self.fs as int / 12),
            )
        }
    }

    /// What is coded of a frame: what the delay buffer holds of the delay, and behind it the
    /// frame, filtered.
    pub fn filter_frame(&mut self, pcm: &[i16], frame_size: i32) -> (r: Vec<i16>)
        requires
            old(self).wf(),
            frame_domain(old(self).fs as int, frame_size as int),
            frame_size * old(self).channels <= pcm@.len(),
        ensures
            final(self).wf(),
            *final(self) == (OpusEncoder {
                variable_hp_smth2_q15: old(self).hp_smoothed() as i32,
                hp_mem: final(self).hp_mem,
                ..*old(self)
            }),
            ({
                let k = old(self).delay() * old(self).channels;
                let n = frame_size * old(self).channels;
                let buffer = old(self).delay_buffer@;
                &&& r@.len() == k + n
                &&& r@.take(k) =~= buffer.skip(buffer.len() - k)
                &&& old(self).filters(
                    pcm@,
                    frame_size as int,
                    r@.skip(k),
                    final(self).hp_mem,
                )
            }),
    {
        proof {
            lemma_frame_samples(self.fs as int, frame_size as int, self.channels as int);
        }
        let total: i32 = self.total_buffer();
        let ch: usize = self.channels as usize;
        let k: usize = total as usize * ch;
        let n: usize = frame_size as usize * ch;
        let len: usize = self.delay_buffer.len();
        proof {
            let (a, b, c) = (total as int, self.encoder_buffer as int, ch as int);
            assert(0 <= a * c <= b * c <= 2 * b) by (nonlinear_arith)
                requires
                    0 <= a <= b,
                    1 <= c <= 2,
            ;
        }
        let aim: i32 = if self.mode == MODE_CELT_ONLY {
            INITIAL_HP_SMTH
        } else {
            match &self.silk_enc {
                Some(silk) => silk.variable_hp_smth1_q15,
                None => INITIAL_HP_SMTH,
            }
        };
        let step: i64 = floor_div((aim - self.variable_hp_smth2_q15) as i64 * 983, 65536);
        self.variable_hp_smth2_q15 = (self.variable_hp_smth2_q15 as i64 + step) as i32;
        let cutoff_hz: i32 = silk_log2lin(self.variable_hp_smth2_q15 / 256);
        proof {
            lemma_cutoff(self.variable_hp_smth2_q15 as int / 256);
        }
        let mut filtered: Vec<i16> = vec![0i16; n];
        if self.application == OPUS_APPLICATION_VOIP {
            proof {
                low_cutoffs_can_be_filtered(cutoff_hz as int, self.fs as int);
            }
            hp_cutoff(
                pcm,
                cutoff_hz,
                &mut filtered,
                &mut self.hp_mem,
                frame_size as usize,
                self.channels,
                self.fs,
            );
        } else {
            dc_reject(
                pcm,
                3,
                &mut filtered,
                &mut self.hp_mem,
                frame_size as usize,
                self.channels,
                self.fs,
            );
        }
        let mut buf: Vec<i16> = Vec::new();
        let mut i: usize = 0;
        let ghost before = *self;
        while i < k
            invariant
                i <= k <= len,
                len == self.delay_buffer@.len(),
                *self == before,
                buf@.len() == i,
                forall|j: int| 0 <= j < i ==> buf@[j] == self.delay_buffer@[len - k + j],
            decreases k - i,
        {
            buf.push(self.delay_buffer[len - k + i]);
            i += 1;
        }
        let ghost out = filtered@;
        let ghost front = buf@;
        buf.append(&mut filtered);
        proof {
            assert(buf@ == front + out);
            assert(buf@.skip(k as int) =~= out);
            assert(buf@.take(k as int) =~= front);
            assert(front =~= old(self).delay_buffer@.skip(len - k));
            assert(old(self).filters(pcm@, frame_size as int, out, self.hp_mem));
        }
        buf
    }
}

proof fn lemma_cutoff(x: int)
    requires
        0 <= x <= 1024,
    ensures
        0 <= log2lin(x) <= 512,
{
    vstd::arithmetic::power2::lemma2_to64();
    let w = vstd::arithmetic::power2::pow2((x / 128) as nat) as int;
    if x / 128 < 8 {
        vstd::arithmetic::power2::lemma_pow2_strictly_increases((x / 128) as nat, 8);
    }
    vstd::arithmetic::power2::lemma_pow2_pos((x / 128) as nat);
    let frac = x % 128;
    let curve = frac + frac * (128 - frac) * (-174) / 65536;
    assert(0 <= curve <= 128) by (nonlinear_arith)
        requires
            0 <= frac <= 127,
            curve == frac + frac * (128 - frac) * (-174) / 65536,
    ;
    assert(0 <= w * curve / 128 <= w) by (nonlinear_arith)
        requires
            0 <= curve <= 128,
            w >= 0,
    ;
}

// ---------------------------------------------------------------------------
// The record of activity
// ---------------------------------------------------------------------------

/// The record with its first `k` entries set.
pub open spec fn marked(record: Seq<u8>, k: int, flag: u8) -> Seq<u8> {
    Seq::new(
        record.len(),
        |i: int|
            if i < k {
                flag
            } else {
                record[i]
            },
    )
}

/// The record moved on by `k` entries, which are set.
pub open spec fn recorded(record: Seq<u8>, k: int, flag: u8) -> Seq<u8> {
    Seq::new(
        record.len(),
        |i: int|
            if i < k {
                flag
            } else {
                record[i - k]
            },
    )
}

/// Whether there is activity, as a byte: what is not known is the greatest byte.
pub open spec fn activity_byte(activity: int) -> u8 {
    (activity % 256) as u8
}

fn flag_of(activity: i32) -> (r: u8)
    requires
        -1 <= activity <= 1,
    ensures
        r == activity_byte(activity as int),
{
    if activity < 0 {
        255
    } else {
        activity as u8
    }
}

impl OpusEncoder {
    /// Whether packets carry redundancy.
    pub open spec fn has_dred(&self) -> bool {
        self.dred_duration > 0 && (self.dred_encoder matches Some(d) && d.loaded)
    }

    /// Whether packets carry redundancy.
    pub fn uses_dred(&self) -> (r: bool)
        ensures
            r == self.has_dred(),
    {
        self.dred_duration > 0 && match &self.dred_encoder {
            Some(d) => d.loaded,
            None => false,
        }
    }

    /// Entries of the record of activity for a frame.
    pub open spec fn ticks(&self, n: int) -> int {
        n * 400 / self.fs as int
    }

    fn count_ticks(&self, frame_size: i32) -> (r: usize)
        requires
            self.wf(),
            frame_domain(self.fs as int, frame_size as int),
        ensures
            r == self.ticks(frame_size as int),
            1 <= r <= 48,
    {
        proof {
            let (n, fs) = (frame_size as int, self.fs as int);
            assert(1 <= n * 400 / fs <= 48) by (nonlinear_arith)
                requires
                    fs > 0,
                    fs <= 400 * n,
                    50 * n <= 6 * fs,
            ;
        }
        (frame_size as i64 * 400 / self.fs as i64) as usize
    }

    /// Moves the record of activity on by a frame; without redundancy nothing is recorded.
    pub fn record_activity(&mut self, frame_size: i32, activity: i32)
        requires
            old(self).wf(),
            frame_domain(old(self).fs as int, frame_size as int),
            -1 <= activity <= 1,
        ensures
            final(self).wf(),
            *final(self) == (OpusEncoder {
                activity_mem: final(self).activity_mem,
                dred_encoder: match old(self).dred_encoder {
                    Some(d) => if old(self).has_dred() {
                        Some(d)
                    } else {
                        Some(DredEncoder { latents_buffer_fill: 0, ..d })
                    },
                    None => None,
                },
                ..*old(self)
            }),
            final(self).activity_mem@ =~= if old(self).has_dred() {
                recorded(
                    old(self).activity_mem@,
                    old(self).ticks(frame_size as int),
                    activity_byte(activity as int),
                )
            } else {
                Seq::new(old(self).activity_mem@.len(), |i: int| 0u8)
            },
    {
        let len: usize = self.activity_mem.len();
        if self.uses_dred() {
            let k: usize = self.count_ticks(frame_size);
            let flag: u8 = flag_of(activity);
            let mut record: Vec<u8> = Vec::new();
            let mut i: usize = 0;
            while i < len
                invariant
                    i <= len,
                    len == self.activity_mem@.len(),
                    *self == *old(self),
                    record@.len() == i,
                    forall|j: int|
                        0 <= j < i ==> record@[j] == if j < k {
                            flag
                        } else {
                            self.activity_mem@[j - k]
                        },
                decreases len - i,
            {
                let x: u8 = if i < k { flag } else { self.activity_mem[i - k] };
                record.push(x);
                i += 1;
            }
            self.activity_mem = record;
        } else {
            if let Some(dred) = &mut self.dred_encoder {
                dred.latents_buffer_fill = 0;
            }
            self.activity_mem = vec![0u8; len];
        }
    }

    /// Sets the entries of the last frame, once it is known whether there was activity.
    pub fn correct_activity(&mut self, frame_size: i32, activity: i32)
        requires
            old(self).wf(),
            frame_domain(old(self).fs as int, frame_size as int),
            -1 <= activity <= 1,
        ensures
            final(self).wf(),
            *final(self) == (OpusEncoder {
                activity_mem: final(self).activity_mem,
                ..*old(self)
            }),
            final(self).activity_mem@ =~= marked(
                old(self).activity_mem@,
                old(self).ticks(frame_size as int),
                activity_byte(activity as int),
            ),
    {
        let len: usize = self.activity_mem.len();
        let k: usize = self.count_ticks(frame_size);
        let flag: u8 = flag_of(activity);
        let mut record: Vec<u8> = Vec::new();
        let mut i: usize = 0;
        while i < len
            invariant
                i <= len,
                len == self.activity_mem@.len(),
                *self == *old(self),
                record@.len() == i,
                forall|j: int|
                    0 <= j < i ==> record@[j] == if j < k {
                        flag
                    } else {
                        self.activity_mem@[j]
                    },
            decreases len - i,
        {
            let x: u8 = if i < k { flag } else { self.activity_mem[i] };
            record.push(x);
            i += 1;
        }
        self.activity_mem = record;
    }
}

// ---------------------------------------------------------------------------
// The start of a frame
// ---------------------------------------------------------------------------

impl OpusEncoder {
    /// A frame under way before any coder has seen it. Where the speech coder changes its
    /// bandwidth, a short music frame comes along. The bits that the frame aims at are what
    /// the bitrate gives, as far as they fit.
    pub open spec fn started(&self, n: int, plan: FramePlan, activity: i32) -> FrameRun {
        let max = min_int(plan.max_data_bytes as int, MAX_SINGLE_BYTES as int);
        let switch = self.silk_bw_switch != 0;
        let bytes = if (plan.redundancy || switch) && self.mode != MODE_CELT_ONLY {
            redundancy_bytes_of(
                max,
                self.bitrate_bps as int,
                self.fs as int / n,
                self.stream_channels as int,
            )
        } else {
            0
        };
        FrameRun {
            frame_size: n as i32,
            max_data_bytes: max as i32,
            orig_max_data_bytes: plan.max_data_bytes,
            dred_bitrate_bps: plan.dred_bitrate_bps,
            equiv_rate: plan.equiv_rate,
            to_celt: plan.to_celt,
            activity,
            redundancy: bytes != 0,
            celt_to_silk: plan.celt_to_silk || switch,
            redundancy_bytes: bytes as i32,
            prefill: if switch {
                2
            } else {
                plan.prefill
            },
            bits_target: (min_int(
                8 * (max - bytes),
                bits_of(self.bitrate_bps as int, self.fs as int, n),
            ) - 8) as i32,
            bandwidth: self.bandwidth,
            hb_gain: Q15ONE,
        }
    }

    /// Starts a frame: what is known of it before any coder has seen it, and the samples
    /// that are coded.
    pub fn start_frame(
        &mut self,
        pcm: &[i16],
        frame_size: i32,
        plan: &FramePlan,
        info: &AnalysisInfo,
    ) -> (r: (FrameRun, Vec<i16>))
        requires
            old(self).wf(),
            frame_domain(old(self).fs as int, frame_size as int),
            frame_size * old(self).channels <= pcm@.len(),
            1 <= plan.max_data_bytes <= MAX_PACKET_BYTES,
        ensures
            final(self).counts_like(*old(self)),
            final(self).wf(),
            r.0 == old(self).started(
                frame_size as int,
                *plan,
                old(self).activity_of(pcm@, frame_size as int, plan.is_silence, *info),
            ),
            *final(self) == (OpusEncoder {
                silk_bw_switch: 0,
                variable_hp_smth2_q15: old(self).hp_smoothed() as i32,
                hp_mem: final(self).hp_mem,
                activity_mem: final(self).activity_mem,
                dred_encoder: match old(self).dred_encoder {
                    Some(d) => if old(self).has_dred() {
                        Some(d)
                    } else {
                        Some(DredEncoder { latents_buffer_fill: 0, ..d })
                    },
                    None => None,
                },
                ..*old(self)
            }),
            ({
                let k = old(self).delay() * old(self).channels;
                let buffer = old(self).delay_buffer@;
                &&& r.1@.len() == k + frame_size * old(self).channels
                &&& r.1@.take(k) =~= buffer.skip(buffer.len() - k)
                &&& old(self).filters(
                    pcm@,
                    frame_size as int,
                    r.1@.skip(k),
                    final(self).hp_mem,
                )
            }),
            final(self).activity_mem@ =~= if old(self).has_dred() {
                recorded(
                    old(self).activity_mem@,
                    old(self).ticks(frame_size as int),
                    activity_byte(r.0.activity as int),
                )
            } else {
                Seq::new(old(self).activity_mem@.len(), |i: int| 0u8)
            },
            r.0.redundancy_bytes == 0 || 13 <= r.0.redundancy_bytes <= 257,
            -120008 <= r.0.bits_target <= 10200,
    {
        proof {
            lemma_frame_samples(self.fs as int, frame_size as int, self.channels as int);
            let (b, q) = (self.bitrate_bps as int, 6 * self.fs as int / frame_size as int);
            assert(-120000 <= tdiv(b * 6, q) <= 240000) by (nonlinear_arith)
                requires
                    -1000000 <= b <= 2000000,
                    q >= 50,
            ;
        }
        let max: i32 = imin(plan.max_data_bytes, MAX_SINGLE_BYTES);
        let frame_rate: i32 = self.fs / frame_size;
        let activity: i32 = self.find_activity(pcm, frame_size, plan.is_silence, info);
        let switch = self.silk_bw_switch != 0;
        let bytes: i32 = if (plan.redundancy || switch) && self.mode != MODE_CELT_ONLY {
            compute_redundancy_bytes(max, self.bitrate_bps, frame_rate, self.stream_channels)
        } else {
            0
        };
        let bits_target: i32 = imin(
            8 * (max - bytes),
            bitrate_to_bits(self.bitrate_bps, self.fs, frame_size),
        ) - 8;
        let run = FrameRun {
            frame_size,
            max_data_bytes: max,
            orig_max_data_bytes: plan.max_data_bytes,
            dred_bitrate_bps: plan.dred_bitrate_bps,
            equiv_rate: plan.equiv_rate,
            to_celt: plan.to_celt,
            activity,
            redundancy: bytes != 0,
            celt_to_silk: plan.celt_to_silk || switch,
            redundancy_bytes: bytes,
            prefill: if switch { 2 } else { plan.prefill },
            bits_target,
            bandwidth: self.bandwidth,
            hb_gain: Q15ONE,
        };
        self.silk_bw_switch = 0;
        let buf = self.filter_frame(pcm, frame_size);
        self.record_activity(frame_size, activity);
        (run, buf)
    }
}

} // verus!
