//! What the speech coder is told of a frame, and what is made of what it reports.

use vstd::prelude::*;
use crate::arith::{bounded, celt_exp2, exp2_of, floor_div, imax, imin, max_int, min_int, q15, tdiv, Q15ONE};
use crate::coders::SilkEncControlStruct;
use crate::dsp::{gain_fade, gain_for};
use crate::encoder::OpusEncoder;
use crate::frame::{activity_byte, marked, FrameRun, MAX_SINGLE_BYTES};
use crate::modes::{
    MODE_HYBRID, MODE_SILK_ONLY, OPUS_APPLICATION_RESTRICTED_SILK, OPUS_BANDWIDTH_FULLBAND,
    OPUS_BANDWIDTH_MEDIUMBAND, OPUS_BANDWIDTH_NARROWBAND, OPUS_BANDWIDTH_SUPERWIDEBAND,
    OPUS_BANDWIDTH_WIDEBAND, TYPE_NO_VOICE_ACTIVITY, VAD_NO_DECISION,
};
use crate::plan::{frame_domain, lemma_frame_samples};
use crate::rates::{
    bitrate_of, bitrate_to_bits, bits_of, bits_to_bitrate, compute_redundancy_bytes,
    compute_silk_rate_for_hybrid, gen_toc, lemma_low_band_bound, redundancy_bytes_of, silk_rate_of,
    toc_byte,
};

verus! {

/// Samples of the overlap between music frames, at 48 kHz.
pub const CELT_OVERLAP: i32 = 120;

// ---------------------------------------------------------------------------
// Masking
// ---------------------------------------------------------------------------

/// How far a band is masked, within bounds: two down and a half up, in Q24, and half of
/// that where it is up.
pub open spec fn mask_of(m: int) -> int {
    let c = bounded(m, -33554432, 8388608);
    if c > 0 {
        c / 2
    } else {
        c
    }
}

/// The sum over the first `n` bands of a channel whose bands start at `from`.
pub open spec fn masks(mask: Seq<i32>, from: int, n: int) -> int
    decreases n,
{
    if n <= 0 {
        0
    } else {
        masks(mask, from, n - 1) + mask_of(mask[from + n - 1] as int)
    }
}

fn sum_masks(mask: &Vec<i32>, from: usize, n: usize) -> (r: i32)
    requires
        n <= 21,
        from <= 21,
        from + n <= mask@.len(),
    ensures
        r == masks(mask@, from as int, n as int),
        -33554432 * n <= r <= 4194304 * n,
{
    let mut sum: i32 = 0;
    let mut i: usize = 0;
    while i < n
        invariant
            i <= n <= 21,
            from <= 21,
            from + n <= mask@.len(),
            sum == masks(mask@, from as int, i as int),
            -33554432 * i <= sum <= 4194304 * i,
        decreases n - i,
    {
        let m: i32 = imin(8388608, imax(-33554432, mask[from + i]));
        let m: i32 = if m > 0 { m / 2 } else { m };
        sum = sum + m;
        i += 1;
    }
    sum
}

/// The speech band: how many bands of music coding it spans, and its sampling rate.
pub open spec fn speech_band(bandwidth: int) -> (int, int) {
    if bandwidth == OPUS_BANDWIDTH_NARROWBAND {
        (13, 8000)
    } else if bandwidth == OPUS_BANDWIDTH_MEDIUMBAND {
        (15, 12000)
    } else {
        (17, 16000)
    }
}

/// By how much masking moves a bitrate: with the mean over the speech band, but never down
/// by more than two thirds.
pub open spec fn mask_offset(mask: Seq<i32>, channels: int, bandwidth: int, rate: int) -> int {
    let (end, srate) = speech_band(bandwidth);
    let sum = masks(mask, 0, end) + if channels == 2 {
        masks(mask, 21, end)
    } else {
        0
    };
    let depth = tdiv(sum, end) * channels + 3355443;
    max_int((srate * (depth / 16384) + 512) / 1024, tdiv(-2 * rate, 3))
}

fn find_mask_offset(mask: &Vec<i32>, channels: i32, bandwidth: i32, rate: i32) -> (r: i32)
    requires
        1 <= channels <= 2,
        21 * channels <= mask@.len(),
        -100_000_000 <= rate <= 100_000_000,
    ensures
        r == mask_offset(mask@, channels as int, bandwidth as int, rate as int),
        -70_000_000 <= r <= 70_000_000,
{
    let (end, srate): (usize, i64) = if bandwidth == OPUS_BANDWIDTH_NARROWBAND {
        (13, 8000)
    } else if bandwidth == OPUS_BANDWIDTH_MEDIUMBAND {
        (15, 12000)
    } else {
        (17, 16000)
    };
    let mut sum: i32 = sum_masks(mask, 0, end);
    if channels == 2 {
        sum = sum + sum_masks(mask, 21, end);
    }
    let mean: i32 = sum / end as i32;
    proof {
        let (s, e, c) = (sum as int, end as int, channels as int);
        assert(-67108864 <= tdiv(s, e) <= 8388608) by (nonlinear_arith)
            requires
                13 <= e <= 17,
                -67108864 * e <= s <= 8388608 * e,
        ;
        assert(-134217728 <= tdiv(s, e) * c <= 16777216) by (nonlinear_arith)
            requires
                -67108864 <= tdiv(s, e) <= 8388608,
                1 <= c <= 2,
        ;
    }
    let depth: i64 = mean as i64 * channels as i64 + 3355443;
    let steps: i64 = floor_div(depth, 16384);
    proof {
        assert(-8000 <= steps <= 1300);
        assert(-16000 * 8000 <= srate * steps <= 16000 * 1300) by (nonlinear_arith)
            requires
                -8000 <= steps <= 1300,
                8000 <= srate <= 16000,
        ;
    }
    let offset: i32 = floor_div(srate * steps + 512, 1024) as i32;
    imax(offset, (0 - 2 * rate) / 3)
}

// ---------------------------------------------------------------------------
// Before the speech coder
// ---------------------------------------------------------------------------

impl OpusEncoder {
    /// The bitrate of the frame.
    pub open spec fn frame_rate_bps(&self, run: FrameRun) -> int {
        bitrate_of(run.bits_target as int, self.fs as int, run.frame_size as int)
    }

    /// The speech coder's part of the bitrate, without regard to masking.
    pub open spec fn speech_rate(&self, run: FrameRun) -> int {
        if self.mode == MODE_HYBRID {
            silk_rate_of(
                self.frame_rate_bps(run),
                run.bandwidth as int,
                self.use_vbr as int,
                self.silk_mode.lbrr_coded as int,
                self.stream_channels as int,
            )
        } else {
            self.frame_rate_bps(run)
        }
    }

    /// The gain of what lies above the speech band: the less of the bitrate is left for it
    /// the softer it is. Where masking is known that decides instead.
    pub open spec fn high_band_gain(&self, run: FrameRun) -> int {
        if self.mode == MODE_HYBRID && self.energy_masking is None {
            max_int(0, Q15ONE - exp2_of(self.speech_rate(run) - self.frame_rate_bps(run)) / 2)
        } else {
            Q15ONE as int
        }
    }

    /// Whether masking moves the bitrate.
    pub open spec fn is_masked(&self) -> bool {
        self.energy_masking is Some && self.use_vbr != 0 && self.lfe == 0
    }

    /// The speech coder's part of the bitrate.
    pub open spec fn masked_rate(&self, run: FrameRun) -> int {
        let rate = self.speech_rate(run);
        if self.is_masked() {
            let offset = mask_offset(
                self.energy_masking->Some_0@,
                self.channels as int,
                self.bandwidth as int,
                rate,
            );
            if self.bandwidth == OPUS_BANDWIDTH_SUPERWIDEBAND || self.bandwidth
                == OPUS_BANDWIDTH_FULLBAND {
                rate + tdiv(3 * offset, 5)
            } else {
                rate + offset
            }
        } else {
            rate
        }
    }

    /// The highest internal sampling rate: where the bytes of the frame allow for little,
    /// a lower one.
    pub open spec fn top_speech_rate(&self, run: FrameRun) -> i32 {
        let rate = bitrate_of(run.max_data_bytes * 8, self.fs as int, run.frame_size as int);
        let rate = if self.fs as int / run.frame_size as int > 50 {
            rate * 2 / 3
        } else {
            rate
        };
        if self.mode != MODE_SILK_ONLY || rate >= 8000 {
            16000
        } else if rate >= 7000 {
            12000
        } else {
            8000
        }
    }

    /// Bits that the speech coder may take: those of the frame but for a short frame that
    /// comes along and its announcement.
    pub open spec fn speech_room(&self, run: FrameRun) -> int {
        (run.max_data_bytes - 1) * 8 - if run.redundancy && run.redundancy_bytes >= 2 {
            run.redundancy_bytes * 8 + 1 + if self.mode == MODE_HYBRID {
                20int
            } else {
                0
            }
        } else {
            0
        }
    }

    /// Whether all frames have one size but the speech coder's part may vary.
    pub open spec fn speech_varies(&self, run: FrameRun) -> bool {
        self.mode == MODE_HYBRID || run.dred_bitrate_bps > 0
    }

    /// Bits that the speech coder may take in the end. Where its part may vary in frames of
    /// one size, it gives back three quarters of what it does not aim at; where the size
    /// varies, music coding has its part.
    pub open spec fn speech_bits(&self, run: FrameRun) -> int {
        let room = self.speech_room(run);
        let n = run.frame_size as int;
        if self.use_vbr == 0 {
            if self.speech_varies(run) {
                let rest = max_int(
                    0,
                    (room - tdiv(self.masked_rate(run) * n, self.fs as int)) as i16 as int,
                );
                max_int(0, room - rest * 3 / 4)
            } else {
                room
            }
        } else if self.mode == MODE_HYBRID {
            bits_of(
                silk_rate_of(
                    tdiv(room * self.fs, n),
                    self.bandwidth as int,
                    self.use_vbr as int,
                    self.silk_mode.lbrr_coded as int,
                    self.stream_channels as int,
                ),
                self.fs as int,
                n,
            ) as i32 as int
        } else {
            room
        }
    }

    /// What the speech coder is told of a frame.
    pub open spec fn speech_control(&self, run: FrameRun) -> SilkEncControlStruct {
        let n = run.frame_size as int;
        SilkEncControlStruct {
            bit_rate: self.masked_rate(run) as i32,
            payload_size_ms: (1000 * n / self.fs as int) as i32,
            n_channels_api: self.channels,
            n_channels_internal: self.stream_channels,
            desired_internal_sample_rate: min_int(
                self.top_speech_rate(run) as int,
                speech_band(run.bandwidth as int).1,
            ) as i32,
            min_internal_sample_rate: if self.mode == MODE_HYBRID {
                16000
            } else {
                8000
            },
            max_internal_sample_rate: self.top_speech_rate(run),
            use_cbr: if self.use_vbr == 0 && !self.speech_varies(run) {
                1
            } else {
                0
            },
            max_bits: self.speech_bits(run) as i32,
            ..self.silk_mode
        }
    }

    /// Masks are known for all bands, where they are known.
    pub open spec fn masks_ok(&self) -> bool {
        self.energy_masking matches Some(m) ==> 21 * self.channels <= m@.len()
    }

    fn find_base_rate(&self, run: &FrameRun) -> (r: (i32, i32))
        requires
            self.wf(),
            frame_domain(self.fs as int, run.frame_size as int),
            -120008 <= run.bits_target <= 10200,
        ensures
            r.0 == self.frame_rate_bps(*run),
            r.1 == self.speech_rate(*run),
            -48_004_000 <= r.0 <= 48_004_000,
            -96_100_000 <= r.1 <= 96_100_000,
    {
        proof {
            let q = 6 * self.fs as int / run.frame_size as int;
            lemma_frame_samples(self.fs as int, run.frame_size as int, 1);
            let b = run.bits_target as int;
            assert(-120008 * 2400 <= b * q <= 10200 * 2400) by (nonlinear_arith)
                requires
                    -120008 <= b <= 10200,
                    0 <= q <= 2400,
            ;
        }
        let total: i32 = bits_to_bitrate(run.bits_target, self.fs, run.frame_size);
        if self.mode == MODE_HYBRID {
            let rate: i32 = compute_silk_rate_for_hybrid(
                total,
                run.bandwidth,
                run.frame_size == self.fs / 50,
                self.use_vbr,
                self.silk_mode.lbrr_coded,
                self.stream_channels,
            );
            proof {
                let each = tdiv(total as int, self.stream_channels as int);
                lemma_low_band_bound(each, self.silk_mode.lbrr_coded != 0);
            }
            (total, rate)
        } else {
            (total, total)
        }
    }

    fn find_masked_rate(&self, run: &FrameRun, rate: i32) -> (r: i32)
        requires
            self.wf(),
            self.masks_ok(),
            rate == self.speech_rate(*run),
            -96_100_000 <= rate <= 96_100_000,
        ensures
            r == self.masked_rate(*run),
            -170_000_000 <= r <= 170_000_000,
    {
        if let Some(mask) = &self.energy_masking {
            if self.use_vbr != 0 && self.lfe == 0 {
                let offset: i32 = find_mask_offset(mask, self.channels, self.bandwidth, rate);
                return if self.bandwidth == OPUS_BANDWIDTH_SUPERWIDEBAND || self.bandwidth
                    == OPUS_BANDWIDTH_FULLBAND {
                    rate + 3 * offset / 5
                } else {
                    rate + offset
                };
            }
        }
        rate
    }

    fn find_gain(&self, run: &FrameRun, total: i32, rate: i32) -> (r: i32)
        requires
            total == self.frame_rate_bps(*run),
            rate == self.speech_rate(*run),
            -48_004_000 <= total <= 48_004_000,
            -96_100_000 <= rate <= 96_100_000,
        ensures
            r == self.high_band_gain(*run),
            0 <= r <= Q15ONE,
    {
        if self.mode == MODE_HYBRID && self.energy_masking.is_none() {
            imax(0, Q15ONE - celt_exp2(rate - total) / 2)
        } else {
            Q15ONE
        }
    }
}

impl OpusEncoder {
    fn find_top_rate(&self, run: &FrameRun) -> (r: i32)
        requires
            self.wf(),
            frame_domain(self.fs as int, run.frame_size as int),
            1 <= run.max_data_bytes <= MAX_SINGLE_BYTES,
        ensures
            r == self.top_speech_rate(*run),
    {
        proof {
            let q = 6 * self.fs as int / run.frame_size as int;
            lemma_frame_samples(self.fs as int, run.frame_size as int, 1);
            let m = run.max_data_bytes * 8;
            assert(0 <= m * q <= 10208 * 2400) by (nonlinear_arith)
                requires
                    0 <= m <= 10208,
                    0 <= q <= 2400,
            ;
        }
        let mut rate: i32 = bits_to_bitrate(run.max_data_bytes * 8, self.fs, run.frame_size);
        if self.fs / run.frame_size > 50 {
            rate = rate * 2 / 3;
        }
        if self.mode != MODE_SILK_ONLY || rate >= 8000 {
            16000
        } else if rate >= 7000 {
            12000
        } else {
            8000
        }
    }

    fn find_speech_bits(&self, run: &FrameRun, rate: i32) -> (r: i32)
        requires
            self.wf(),
            frame_domain(self.fs as int, run.frame_size as int),
            1 <= run.max_data_bytes <= MAX_SINGLE_BYTES,
            0 <= run.redundancy_bytes <= 257,
            rate == self.masked_rate(*run),
            -170_000_000 <= rate <= 170_000_000,
        ensures
            r == self.speech_bits(*run),
    {
        let mut room: i32 = (run.max_data_bytes - 1) * 8;
        if run.redundancy && run.redundancy_bytes >= 2 {
            room = room - (run.redundancy_bytes * 8 + 1);
            if self.mode == MODE_HYBRID {
                room = room - 20;
            }
        }
        let n: i64 = run.frame_size as i64;
        let fs: i64 = self.fs as i64;
        proof {
            lemma_frame_samples(self.fs as int, run.frame_size as int, 1);
            assert(-170_000_000 * 5760 <= rate * n <= 170_000_000 * 5760) by (nonlinear_arith)
                requires
                    -170_000_000 <= rate <= 170_000_000,
                    0 <= n <= 5760,
            ;
            assert(-2200 * 48000 <= room * fs <= 10200 * 48000) by (nonlinear_arith)
                requires
                    -2200 <= room <= 10200,
                    0 <= fs <= 48000,
            ;
        }
        if self.use_vbr == 0 {
            if self.mode == MODE_HYBRID || run.dred_bitrate_bps > 0 {
                let aim: i64 = rate as i64 * n / fs;
                let rest: i16 = #[verifier::truncate]
                ((room as i64 - aim) as i16);
                let rest: i32 = imax(0, rest as i32);
                imax(0, room - rest * 3 / 4)
            } else {
                room
            }
        } else if self.mode == MODE_HYBRID {
            let max_rate: i32 = compute_silk_rate_for_hybrid(
                (room as i64 * fs / n) as i32,
                self.bandwidth,
                run.frame_size == self.fs / 50,
                self.use_vbr,
                self.silk_mode.lbrr_coded,
                self.stream_channels,
            );
            bitrate_to_bits(max_rate, self.fs, run.frame_size)
        } else {
            room
        }
    }

    /// Tells the speech coder of a frame.
    pub fn set_up_silk(&mut self, run: &mut FrameRun)
        requires
            old(self).wf(),
            old(self).masks_ok(),
            frame_domain(old(self).fs as int, old(run).frame_size as int),
            1 <= old(run).max_data_bytes <= MAX_SINGLE_BYTES,
            0 <= old(run).redundancy_bytes <= 257,
            -120008 <= old(run).bits_target <= 10200,
        ensures
            final(self).counts_like(*old(self)),
            final(self).wf(),
            *final(self) == (OpusEncoder {
                silk_mode: old(self).speech_control(*old(run)),
                ..*old(self)
            }),
            *final(run) == (FrameRun {
                hb_gain: old(self).high_band_gain(*old(run)) as i32,
                ..*old(run)
            }),
            0 <= final(run).hb_gain <= Q15ONE,
    {
        let (total, base) = self.find_base_rate(run);
        let gain: i32 = self.find_gain(run, total, base);
        let rate: i32 = self.find_masked_rate(run, base);
        let top: i32 = self.find_top_rate(run);
        let bits: i32 = self.find_speech_bits(run, rate);
        let band: i32 = if run.bandwidth == OPUS_BANDWIDTH_NARROWBAND {
            8000
        } else if run.bandwidth == OPUS_BANDWIDTH_MEDIUMBAND {
            12000
        } else {
            16000
        };
        proof {
            lemma_frame_samples(self.fs as int, run.frame_size as int, 1);
            let (n, fs) = (run.frame_size as int, self.fs as int);
            assert(0 <= 1000 * n / fs <= 1000 * n) by (nonlinear_arith)
                requires
                    n >= 0,
                    fs >= 1,
            ;
        }
        let varies = self.mode == MODE_HYBRID || run.dred_bitrate_bps > 0;
        self.silk_mode = SilkEncControlStruct {
            bit_rate: rate,
            payload_size_ms: 1000 * run.frame_size / self.fs,
            n_channels_api: self.channels,
            n_channels_internal: self.stream_channels,
            desired_internal_sample_rate: imin(top, band),
            min_internal_sample_rate: if self.mode == MODE_HYBRID { 16000 } else { 8000 },
            max_internal_sample_rate: top,
            use_cbr: if self.use_vbr == 0 && !varies { 1 } else { 0 },
            max_bits: bits,
            ..self.silk_mode
        };
        run.hb_gain = gain;
    }
}

// ---------------------------------------------------------------------------
// Warming up the speech coder
// ---------------------------------------------------------------------------

impl OpusEncoder {
    /// Where the ramp starts that leads into the samples that warm up the speech coder.
    pub open spec fn ramp_start(&self) -> int {
        self.channels * (self.encoder_buffer - self.delay_compensation - self.fs / 400)
    }

    /// A sample of the delay buffer for warming up: silence, a ramp of 2.5 ms, and the
    /// samples as they are. Without a music coder there is no ramp.
    pub open spec fn ramped(&self, window: Seq<i16>, j: int) -> int {
        let start = self.ramp_start();
        let x = self.delay_buffer@[j] as int;
        if j < start {
            0
        } else if j < start + self.channels * (self.fs / 400) && self.celt_enc is Some {
            q15(
                gain_for(
                    (j - start) / self.channels as int,
                    window,
                    48000int / self.fs as int,
                    CELT_OVERLAP * self.fs / 48000,
                    0,
                    Q15ONE as int,
                ),
                x,
            )
        } else {
            x
        }
    }

    /// Gets the delay buffer ready to warm up the speech coder, which then is not ready to
    /// change its bandwidth. `window` is the music coder's.
    pub fn ramp_delay_buffer(&mut self, window: &[i16])
        requires
            old(self).wf(),
            CELT_OVERLAP <= window@.len(),
        ensures
            final(self).counts_like(*old(self)),
            final(self).wf(),
            *final(self) == (OpusEncoder {
                delay_buffer: final(self).delay_buffer,
                silk_mode: SilkEncControlStruct { opus_can_switch: 0, ..old(self).silk_mode },
                ..*old(self)
            }),
            old(self).silk_enc is None ==> final(self).delay_buffer@ == old(self).delay_buffer@,
            old(self).silk_enc is Some ==> {
                &&& final(self).delay_buffer@.len() == old(self).delay_buffer@.len()
                &&& forall|j: int|
                    0 <= j < old(self).delay_buffer@.len()
                        ==> #[trigger] final(self).delay_buffer@[j] == old(self).ramped(window@, j)
            },
    {
        self.silk_mode.opus_can_switch = 0;
        if self.silk_enc.is_none() {
            return;
        }
        let ch: usize = self.channels as usize;
        let len: usize = self.delay_buffer.len();
        proof {
            let (c, e) = (self.channels as int, self.encoder_buffer as int);
            let d = self.encoder_buffer - self.delay_compensation - self.fs / 400;
            let f = self.fs as int / 400;
            assert(0 <= c * d) by (nonlinear_arith)
                requires
                    1 <= c,
                    0 <= d,
            ;
            assert(c * d + c * f <= e * c) by (nonlinear_arith)
                requires
                    1 <= c,
                    d + f <= e,
            ;
            assert(e * c <= 2 * e) by (nonlinear_arith)
                requires
                    c <= 2,
                    0 <= e,
            ;
            assert(0 <= c * f) by (nonlinear_arith)
                requires
                    1 <= c,
                    0 <= f,
            ;
        }
        let start: usize = ch * (self.encoder_buffer - self.delay_compensation - self.fs / 400)
            as usize;
        let mut tail: Vec<i16> = Vec::new();
        let mut i: usize = start;
        while i < len
            invariant
                start <= i <= len,
                len == self.delay_buffer@.len(),
                tail@.len() == i - start,
                forall|j: int| 0 <= j < i - start ==> tail@[j] == self.delay_buffer@[start + j],
            decreases len - i,
        {
            tail.push(self.delay_buffer[i]);
            i += 1;
        }
        if self.celt_enc.is_some() {
            gain_fade(
                &mut tail,
                0,
                Q15ONE,
                CELT_OVERLAP,
                self.fs / 400,
                self.channels,
                window,
                self.fs,
            );
        }
        let mut buf: Vec<i16> = vec![0i16; start];
        buf.append(&mut tail);
        self.delay_buffer = buf;
    }
}

// ---------------------------------------------------------------------------
// After the speech coder
// ---------------------------------------------------------------------------

/// The bandwidth that an internal sampling rate stands for.
pub open spec fn internal_bandwidth(rate: int) -> i32 {
    if rate == 8000 {
        OPUS_BANDWIDTH_NARROWBAND
    } else if rate == 12000 {
        OPUS_BANDWIDTH_MEDIUMBAND
    } else {
        OPUS_BANDWIDTH_WIDEBAND
    }
}

impl OpusEncoder {
    /// A frame under way once the speech coder has seen it: the bandwidth is what it coded,
    /// and where activity was not known it knows.
    pub open spec fn reported(&self, run: FrameRun) -> FrameRun {
        FrameRun {
            bandwidth: if self.mode == MODE_SILK_ONLY {
                internal_bandwidth(self.silk_mode.internal_sample_rate as int)
            } else {
                run.bandwidth
            },
            activity: if run.activity != VAD_NO_DECISION {
                run.activity
            } else if self.silk_mode.signal_type != TYPE_NO_VOICE_ACTIVITY {
                1
            } else {
                0
            },
            ..run
        }
    }

    /// Takes what the speech coder reports. It may change its bandwidth where it is ready
    /// and the packet ends with this frame.
    pub fn take_silk_report(&mut self, run: &mut FrameRun)
        requires
            old(self).wf(),
            frame_domain(old(self).fs as int, old(run).frame_size as int),
            -1 <= old(run).activity <= 1,
        ensures
            final(self).wf(),
            *final(run) == old(self).reported(*old(run)),
            0 <= final(run).activity <= 1,
            *final(self) == (OpusEncoder {
                silk_mode: SilkEncControlStruct {
                    opus_can_switch: if old(self).silk_mode.switch_ready != 0 && old(
                        self,
                    ).nonfinal_frame == 0 {
                        1
                    } else {
                        0
                    },
                    ..old(self).silk_mode
                },
                activity_mem: final(self).activity_mem,
                ..*old(self)
            }),
            final(self).activity_mem@ =~= if old(run).activity == VAD_NO_DECISION && old(
                self,
            ).has_dred() {
                marked(
                    old(self).activity_mem@,
                    old(self).ticks(old(run).frame_size as int),
                    activity_byte(final(run).activity as int),
                )
            } else {
                old(self).activity_mem@
            },
    {
        if self.mode == MODE_SILK_ONLY {
            let rate: i32 = self.silk_mode.internal_sample_rate;
            run.bandwidth = if rate == 8000 {
                OPUS_BANDWIDTH_NARROWBAND
            } else if rate == 12000 {
                OPUS_BANDWIDTH_MEDIUMBAND
            } else {
                OPUS_BANDWIDTH_WIDEBAND
            };
        }
        self.silk_mode.opus_can_switch = if self.silk_mode.switch_ready != 0
            && self.nonfinal_frame == 0 {
            1
        } else {
            0
        };
        if run.activity == VAD_NO_DECISION {
            run.activity = if self.silk_mode.signal_type != TYPE_NO_VOICE_ACTIVITY { 1 } else { 0 };
            if self.uses_dred() {
                self.correct_activity(run.frame_size, run.activity);
            }
        }
    }

    /// Leaves a frame out: the packet is the byte that says what it would have been.
    pub fn leave_out(&mut self, run: &FrameRun, data: &mut [u8]) -> (r: i32)
        requires
            frame_domain(old(self).fs as int, run.frame_size as int),
            1 <= old(data)@.len(),
        ensures
            r == 1,
            *final(self) == (OpusEncoder { range_final: 0, ..*old(self) }),
            final(data)@ == old(data)@.update(
                0,
                toc_byte(
                    old(self).mode as int,
                    old(self).fs as int / run.frame_size as int,
                    run.bandwidth as int,
                    old(self).stream_channels as int,
                ),
            ),
            old(self).wf() ==> final(self).wf(),
    {
        proof {
            lemma_frame_samples(self.fs as int, run.frame_size as int, 1);
        }
        self.range_final = 0;
        data[0] = gen_toc(
            self.mode,
            self.fs / run.frame_size,
            run.bandwidth,
            self.stream_channels,
        );
        1
    }

    /// Whether the speech coder's change of bandwidth needs a short music frame, and how
    /// long that is.
    pub open spec fn switched(&self, run: FrameRun) -> FrameRun {
        let bytes = redundancy_bytes_of(
            run.max_data_bytes as int,
            self.bitrate_bps as int,
            self.fs as int / run.frame_size as int,
            self.stream_channels as int,
        );
        if self.silk_mode.opus_can_switch == 0 {
            run
        } else if self.application == OPUS_APPLICATION_RESTRICTED_SILK {
            FrameRun { celt_to_silk: false, ..run }
        } else {
            FrameRun {
                celt_to_silk: false,
                redundancy_bytes: bytes as i32,
                redundancy: bytes != 0,
                ..run
            }
        }
    }

    /// Prepares for the speech coder's change of bandwidth, where it is to come.
    pub fn prepare_switch(&mut self, run: &mut FrameRun)
        requires
            old(self).wf(),
            frame_domain(old(self).fs as int, old(run).frame_size as int),
            1 <= old(run).max_data_bytes <= MAX_SINGLE_BYTES,
            0 <= old(run).redundancy_bytes <= 257,
        ensures
            final(self).wf(),
            *final(run) == old(self).switched(*old(run)),
            0 <= final(run).redundancy_bytes <= 257,
            *final(self) == (OpusEncoder {
                silk_bw_switch: if old(self).silk_mode.opus_can_switch != 0 {
                    1
                } else {
                    old(self).silk_bw_switch
                },
                ..*old(self)
            }),
    {
        proof {
            lemma_frame_samples(self.fs as int, run.frame_size as int, 1);
        }
        if self.silk_mode.opus_can_switch != 0 {
            if self.application != OPUS_APPLICATION_RESTRICTED_SILK {
                run.redundancy_bytes = compute_redundancy_bytes(
                    run.max_data_bytes,
                    self.bitrate_bps,
                    self.fs / run.frame_size,
                    self.stream_channels,
                );
                run.redundancy = run.redundancy_bytes != 0;
            }
            run.celt_to_silk = false;
            self.silk_bw_switch = 1;
        }
    }
}

impl OpusEncoder {
    /// A frame under way once the speech coder is done with it, and was not left out.
    pub open spec fn spoken(&self, run: FrameRun) -> FrameRun {
        let can_switch = self.silk_mode.switch_ready != 0 && self.nonfinal_frame == 0;
        let r = self.reported(run);
        let bytes = redundancy_bytes_of(
            run.max_data_bytes as int,
            self.bitrate_bps as int,
            self.fs as int / run.frame_size as int,
            self.stream_channels as int,
        );
        if !can_switch {
            r
        } else if self.application == OPUS_APPLICATION_RESTRICTED_SILK {
            FrameRun { celt_to_silk: false, ..r }
        } else {
            FrameRun {
                celt_to_silk: false,
                redundancy_bytes: bytes as i32,
                redundancy: bytes != 0,
                ..r
            }
        }
    }

    /// The encoder once the speech coder has written `n_bytes` bytes, but for the record of
    /// activity.
    pub open spec fn told_by_speech(self, n_bytes: int) -> OpusEncoder {
        let can_switch = self.silk_mode.switch_ready != 0 && self.nonfinal_frame == 0;
        OpusEncoder {
            silk_mode: SilkEncControlStruct {
                opus_can_switch: if can_switch {
                    1
                } else {
                    0
                },
                ..self.silk_mode
            },
            range_final: if n_bytes == 0 {
                0
            } else {
                self.range_final
            },
            silk_bw_switch: if n_bytes != 0 && can_switch {
                1
            } else {
                self.silk_bw_switch
            },
            ..self
        }
    }

    /// Goes on after the speech coder, which wrote `n_bytes` bytes. Where it wrote none, the
    /// frame is left out, and this returns true.
    pub fn after_speech(&mut self, run: &mut FrameRun, n_bytes: i32, data: &mut [u8]) -> (r: bool)
        requires
            old(self).wf(),
            frame_domain(old(self).fs as int, old(run).frame_size as int),
            -1 <= old(run).activity <= 1,
            1 <= old(run).max_data_bytes <= MAX_SINGLE_BYTES,
            0 <= old(run).redundancy_bytes <= 257,
            1 <= old(data)@.len(),
        ensures
            final(self).counts_like(*old(self)),
            final(self).wf(),
            r == (n_bytes == 0),
            *final(run) == if n_bytes == 0 {
                old(self).reported(*old(run))
            } else {
                old(self).spoken(*old(run))
            },
            0 <= final(run).redundancy_bytes <= 257,
            *final(self) == (OpusEncoder {
                activity_mem: final(self).activity_mem,
                ..old(self).told_by_speech(n_bytes as int)
            }),
            final(self).activity_mem@ =~= if old(run).activity == VAD_NO_DECISION && old(
                self,
            ).has_dred() {
                marked(
                    old(self).activity_mem@,
                    old(self).ticks(old(run).frame_size as int),
                    activity_byte(final(run).activity as int),
                )
            } else {
                old(self).activity_mem@
            },
            final(data)@ == if n_bytes == 0 {
                old(data)@.update(
                    0,
                    toc_byte(
                        old(self).mode as int,
                        old(self).fs as int / old(run).frame_size as int,
                        final(run).bandwidth as int,
                        old(self).stream_channels as int,
                    ),
                )
            } else {
                old(data)@
            },
    {
        self.take_silk_report(run);
        if n_bytes == 0 {
            self.leave_out(run, data);
            true
        } else {
            self.prepare_switch(run);
            false
        }
    }
}

} // verus!
