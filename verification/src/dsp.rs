//! Signal processing ahead of the coders: levels, filters, fades, and the width of a
//! stereo image.

use vstd::prelude::*;
use vstd::arithmetic::power2::{
    lemma2_to64, lemma_pow2_adds, lemma_pow2_pos, lemma_pow2_strictly_increases, lemma_pow2_unfold,
    pow2,
};
use crate::arith::{
    bounded, celt_ilog2, celt_sqrt, floor_div, frac_div32, ilog2, imax, imin, lemma_ilog2,
    lemma_ilog2_bound, lemma_product, max_int, min_int, mult_q15, q15, quotient, rounded_shr,
    sat16_of, shift, shifted, silk_rshift_round, silk_sat16, silk_smulwb, silk_smulww, smulwb,
    smulww, sqrt_of, tdiv, trunc_div, exp2i, wrap, wrap32, Q15ONE,
};

verus! {

// ---------------------------------------------------------------------------
// Levels
// ---------------------------------------------------------------------------

/// Whether the first `n` samples are all zero.
pub open spec fn silent(pcm: Seq<i16>, n: int) -> bool {
    forall|i: int| 0 <= i < n ==> #[trigger] pcm[i] == 0
}

/// Whether a frame is digital silence, whatever the depth of its samples.
pub fn is_digital_silence(pcm: &[i16], frame_size: i32, channels: i32, lsb_depth: i32) -> (r: bool)
    requires
        0 <= frame_size * channels <= pcm@.len(),
        frame_size * channels <= i32::MAX,
    ensures
        r == silent(pcm@, frame_size * channels),
{
    let n: usize = (frame_size * channels) as usize;
    let mut i: usize = 0;
    while i < n
        invariant
            i <= n <= pcm@.len(),
            n == frame_size * channels,
            silent(pcm@, i as int),
        decreases n - i,
    {
        if pcm[i] != 0 {
            proof {
                assert(pcm@[i as int] != 0);
            }
            return false;
        }
        i = i + 1;
    }
    true
}

/// The size of a sample.
pub open spec fn size_of(x: i16) -> int {
    if x < 0 {
        -x
    } else {
        x as int
    }
}

/// The greatest size among the first `n` samples.
pub open spec fn peak(pcm: Seq<i16>, n: int) -> int
    decreases n,
{
    if n <= 0 {
        0
    } else {
        max_int(peak(pcm, n - 1), size_of(pcm[n - 1]))
    }
}

/// The sum of the squares of the first `n` samples, each shifted right by `sh`.
pub open spec fn square_sum(pcm: Seq<i16>, n: int, sh: int) -> int
    decreases n,
{
    if n <= 0 {
        0
    } else {
        let s = shifted(pcm[n - 1] as int, -sh);
        square_sum(pcm, n - 1, sh) + s * s
    }
}

/// Bits by which samples are shifted so that the sum of squares fits.
pub open spec fn energy_shift(pcm: Seq<i16>, n: int) -> int {
    max_int(0, 2 * ilog2(1 + peak(pcm, n)) + ilog2(n) - 28)
}

/// The mean square of the first `n` samples. In a loud frame each sample is shifted right
/// before it is squared, and the mean is shifted back once, so that it comes out that many
/// bits smaller than the mean square: 480 samples of -32768 give two to the 20th.
pub open spec fn energy_of(pcm: Seq<i16>, n: int) -> int {
    let sh = energy_shift(pcm, n);
    shifted(square_sum(pcm, n, sh) / n, sh)
}

proof fn lemma_peak(pcm: Seq<i16>, n: int)
    ensures
        0 <= peak(pcm, n) <= 32768,
        forall|i: int| 0 <= i < n ==> size_of(#[trigger] pcm[i]) <= peak(pcm, n),
    decreases n,
{
    if n > 0 {
        lemma_peak(pcm, n - 1);
    }
}

/// A sample no greater than the peak, shifted right, is below a power of two.
proof fn lemma_shifted_sample(x: int, l: int, sh: int)
    requires
        -pow2((l + 1) as nat) < x < pow2((l + 1) as nat),
        0 <= sh <= l,
        l <= 15,
    ensures
        -pow2((l + 1 - sh) as nat) <= shifted(x, -sh) <= pow2((l + 1 - sh) as nat),
{
    let k = (l + 1 - sh) as nat;
    lemma_pow2_adds(k, sh as nat);
    lemma_pow2_pos(sh as nat);
    lemma2_to64();
    let p = pow2(sh as nat) as int;
    let q = pow2(k) as int;
    assert(-q <= x / p <= q) by (nonlinear_arith)
        requires
            -(q * p) < x < q * p,
            p >= 1,
    ;
    if sh == 0 {
        assert(shifted(x, 0) == x * 1);
    }
}

proof fn lemma_square_sum(pcm: Seq<i16>, n: int, sh: int, most: int)
    requires
        0 <= n <= pcm.len(),
        forall|i: int| 0 <= i < n ==> -most <= shifted(#[trigger] pcm[i] as int, -sh) <= most,
    ensures
        0 <= square_sum(pcm, n, sh) <= n * (most * most),
    decreases n,
{
    if n > 0 {
        lemma_square_sum(pcm, n - 1, sh, most);
        let s = shifted(pcm[n - 1] as int, -sh);
        assert(0 <= s * s <= most * most) by (nonlinear_arith)
            requires
                -most <= s <= most,
        ;
        assert((n - 1) * (most * most) + most * most == n * (most * most)) by (nonlinear_arith);
    } else {
        assert(n * (most * most) == 0) by (nonlinear_arith)
            requires
                n == 0,
        ;
    }
}

/// The mean square of a frame. In a loud frame the samples are shifted right before they are
/// squared, and the mean is shifted back by the same number of bits once only.
pub fn compute_frame_energy(pcm: &[i16], frame_size: i32, channels: i32) -> (r: i32)
    requires
        1 <= frame_size * channels <= pcm@.len(),
        frame_size * channels < 16384,
    ensures
        r == energy_of(pcm@, frame_size * channels),
        0 <= r <= 0x4000_0000,
{
    let n: i32 = frame_size * channels;
    let mut top: i32 = 0;
    let mut i: usize = 0;
    while i < n as usize
        invariant
            i <= n <= pcm@.len(),
            top == peak(pcm@, i as int),
            0 <= top <= 32768,
        decreases n - i,
    {
        let x: i32 = pcm[i] as i32;
        let size: i32 = if x < 0 { -x } else { x };
        if size > top {
            top = size;
        }
        i = i + 1;
    }
    let l: i32 = celt_ilog2(1 + top);
    let m: i32 = celt_ilog2(n);
    proof {
        lemma2_to64();
        lemma_ilog2_bound(1 + top, 16);
        lemma_ilog2_bound(n as int, 14);
        lemma_ilog2(1 + top);
    }
    let sh: i32 = imax(0, 2 * l + m - 28);
    let ghost most = pow2((l + 1 - sh) as nat) as int;
    proof {
        lemma_peak(pcm@, n as int);
        assert forall|i: int| 0 <= i < n implies -most <= shifted(#[trigger] pcm@[i] as int, -(sh as int))
            <= most by {
            assert(size_of(pcm@[i]) <= top);
            lemma_shifted_sample(pcm@[i] as int, l as int, sh as int);
        }
        lemma_pow2_pos((l + 1 - sh) as nat);
        lemma_energy_bound(most, l as int, m as int, sh as int);
    }
    let mut sum: i64 = 0;
    i = 0;
    while i < n as usize
        invariant
            i <= n <= pcm@.len(),
            n < 16384,
            0 <= sh <= 15,
            sum == square_sum(pcm@, i as int, sh as int),
            0 <= most <= 65536,
            forall|k: int|
                0 <= k < n ==> -most <= shifted(#[trigger] pcm@[k] as int, -(sh as int)) <= most,
            0 <= sum <= i * (most * most),
        decreases n - i,
    {
        proof {
            assert(-most <= shifted(pcm@[i as int] as int, -(sh as int)) <= most);
            lemma_square_sum(pcm@, i + 1, sh as int, most);
            let j = i + 1;
            assert(j * (most * most) <= 16384 * (65536 * 65536)) by (nonlinear_arith)
                requires
                    0 <= j <= 16384,
                    0 <= most <= 65536,
            ;
        }
        let s: i64 = shift(pcm[i] as i64, -sh);
        proof {
            lemma_product(s as int, s as int, most, most);
            assert(most * most <= 65536 * 65536) by (nonlinear_arith)
                requires
                    0 <= most <= 65536,
            ;
            assert(s * s >= 0) by (nonlinear_arith);
        }
        sum = sum + s * s;
        i = i + 1;
    }
    let mean: i64 = sum / n as i64;
    proof {
        let q = most * most;
        assert(0 <= sum as int / n as int <= q) by (nonlinear_arith)
            requires
                0 <= sum <= n * q,
                n >= 1,
        ;
        let p = pow2(sh as nat) as int;
        lemma_pow2_pos(sh as nat);
        assert(0 <= mean * p <= q * p) by (nonlinear_arith)
            requires
                0 <= mean <= q,
                p >= 1,
        ;
    }
    shift(mean, sh) as i32
}

/// The energy of samples below two to the `l + 1 - sh`, shifted back, fits.
proof fn lemma_energy_bound(most: int, l: int, m: int, sh: int)
    requires
        0 <= l <= 15,
        0 <= m <= 13,
        sh == max_int(0, 2 * l + m - 28),
        most == pow2((l + 1 - sh) as nat),
    ensures
        0 <= sh <= l,
        sh <= 15,
        most <= 65536,
        (most * most) * pow2(sh as nat) <= 0x4000_0000,
{
    lemma2_to64();
    let k = (l + 1 - sh) as nat;
    lemma_pow2_adds(k, k);
    lemma_pow2_adds(2 * k, sh as nat);
    let e = 2 * k + sh as nat;
    assert(e == 2 * l + 2 - sh);
    if e < 30 {
        lemma_pow2_strictly_increases(e, 30);
    }
    if k < 16 {
        lemma_pow2_strictly_increases(k, 16);
    }
}

// ---------------------------------------------------------------------------
// High-pass filters
// ---------------------------------------------------------------------------

/// A filter of second order, coefficients in Q28.
pub struct Biquad {
    pub b: [i32; 3],
    pub a: [i32; 2],
}

/// The memory of such a filter.
pub ghost struct BiquadState {
    pub s0: int,
    pub s1: int,
}

impl Biquad {
    /// The filtered sample in Q14, before rounding.
    pub open spec fn raw(self, s: BiquadState, x: int) -> int {
        wrap32(4 * wrap32(s.s0 + smulwb(self.b[0] as int, x)))
    }

    /// The filtered sample: rounded up, and saturated.
    #[verifier::opaque]
    pub open spec fn output(self, s: BiquadState, x: int) -> int {
        sat16_of((self.raw(s, x) + 16383) / 16384)
    }

    /// What one of the feedback coefficients contributes.
    pub open spec fn feedback(self, i: int, raw: int) -> int {
        wrap32(
            rounded_shr(smulwb(raw, (-self.a[i]) % 16384), 14) + smulwb(raw, (-self.a[i]) / 16384),
        )
    }

    /// The memory after a sample.
    #[verifier::opaque]
    pub open spec fn next(self, s: BiquadState, x: int) -> BiquadState {
        let raw = self.raw(s, x);
        BiquadState {
            s0: wrap32(wrap32(s.s1 + self.feedback(0, raw)) + smulwb(self.b[1] as int, x)),
            s1: wrap32(self.feedback(1, raw) + smulwb(self.b[2] as int, x)),
        }
    }

    /// The memory after `n` of the samples at `first`, `first + stride`, and so on.
    pub open spec fn after(self, s: BiquadState, xs: Seq<i16>, first: int, stride: int, n: int) -> BiquadState
        decreases n,
    {
        if n <= 0 {
            s
        } else {
            self.next(self.after(s, xs, first, stride, n - 1), xs[first + stride * (n - 1)] as int)
        }
    }

    /// Filters one sample.
    fn step(&self, s0: &mut i32, s1: &mut i32, x: i16) -> (y: i16)
        requires
            self.a[0] > i32::MIN,
            self.a[1] > i32::MIN,
        ensures
            ({
                let s = BiquadState { s0: *old(s0) as int, s1: *old(s1) as int };
                let t = self.next(s, x as int);
                &&& y == self.output(s, x as int)
                &&& *final(s0) == t.s0
                &&& *final(s1) == t.s1
            }),
    {
        proof {
            reveal(Biquad::output);
            reveal(Biquad::next);
        }
        let x: i32 = x as i32;
        let sum: i32 = wrap(*s0 as i64 + silk_smulwb(self.b[0], x) as i64);
        let raw: i32 = wrap(4 * sum as i64);
        let f0: i32 = self.feed(0, raw);
        let f1: i32 = self.feed(1, raw);
        let t: i32 = wrap(*s1 as i64 + f0 as i64);
        *s0 = wrap(t as i64 + silk_smulwb(self.b[1], x) as i64);
        *s1 = wrap(f1 as i64 + silk_smulwb(self.b[2], x) as i64);
        let up: i64 = floor_div(raw as i64 + 16383, 16384);
        if up > 32767 {
            32767
        } else if up < -32768 {
            -32768
        } else {
            up as i16
        }
    }

    fn feed(&self, i: usize, raw: i32) -> (r: i32)
        requires
            i < 2,
            self.a[i as int] > i32::MIN,
        ensures
            r == self.feedback(i as int, raw as int),
    {
        let a: i64 = -(self.a[i] as i64);
        let upper: i64 = floor_div(a, 16384);
        let lower: i64 = a - upper * 16384;
        wrap(
            silk_rshift_round(silk_smulwb(raw, lower as i32), 14) as i64 + silk_smulwb(
                raw,
                upper as i32,
            ) as i64,
        )
    }
}

/// Filters `len` samples of one channel.
pub fn silk_biquad_alt_stride1(
    input: &[i16],
    filter: &Biquad,
    state: &mut [i32; 2],
    output: &mut [i16],
    len: usize,
)
    requires
        filter.a[0] > i32::MIN,
        filter.a[1] > i32::MIN,
        len <= input@.len(),
        len <= old(output)@.len(),
    ensures
        ({
            let s = BiquadState { s0: old(state)[0] as int, s1: old(state)[1] as int };
            let t = filter.after(s, input@, 0, 1, len as int);
            &&& final(state)[0] == t.s0
            &&& final(state)[1] == t.s1
            &&& final(output)@.len() == old(output)@.len()
            &&& forall|k: int|
                0 <= k < len ==> #[trigger] final(output)@[k] == filter.output(
                    filter.after(s, input@, 0, 1, k),
                    input@[k] as int,
                )
            &&& forall|k: int|
                len <= k < old(output)@.len() ==> #[trigger] final(output)@[k] == old(output)@[k]
        }),
{
    let ghost s = BiquadState { s0: old(state)[0] as int, s1: old(state)[1] as int };
    let mut s0: i32 = state[0];
    let mut s1: i32 = state[1];
    let mut k: usize = 0;
    while k < len
        invariant
            k <= len <= input@.len(),
            len <= output@.len(),
            output@.len() == old(output)@.len(),
            filter.a[0] > i32::MIN,
            filter.a[1] > i32::MIN,
            s0 == filter.after(s, input@, 0, 1, k as int).s0,
            s1 == filter.after(s, input@, 0, 1, k as int).s1,
            forall|j: int|
                0 <= j < k ==> #[trigger] output@[j] == filter.output(
                    filter.after(s, input@, 0, 1, j),
                    input@[j] as int,
                ),
            forall|j: int| k <= j < output@.len() ==> #[trigger] output@[j] == old(output)@[j],
        decreases len - k,
    {
        let y: i16 = filter.step(&mut s0, &mut s1, input[k]);
        output[k] = y;
        k = k + 1;
    }
    state[0] = s0;
    state[1] = s1;
}

/// Filters `len` samples of each of two interleaved channels.
pub fn silk_biquad_alt_stride2(
    input: &[i16],
    filter: &Biquad,
    state: &mut [i32; 4],
    output: &mut [i16],
    len: usize,
)
    requires
        filter.a[0] > i32::MIN,
        filter.a[1] > i32::MIN,
        2 * len <= input@.len(),
        2 * len <= old(output)@.len(),
    ensures
        ({
            let l = BiquadState { s0: old(state)[0] as int, s1: old(state)[1] as int };
            let r = BiquadState { s0: old(state)[2] as int, s1: old(state)[3] as int };
            let tl = filter.after(l, input@, 0, 2, len as int);
            let tr = filter.after(r, input@, 1, 2, len as int);
            &&& final(state)[0] == tl.s0
            &&& final(state)[1] == tl.s1
            &&& final(state)[2] == tr.s0
            &&& final(state)[3] == tr.s1
            &&& final(output)@.len() == old(output)@.len()
            &&& forall|k: int|
                0 <= k < len ==> {
                    &&& #[trigger] final(output)@[2 * k] == filter.output(
                        filter.after(l, input@, 0, 2, k),
                        input@[2 * k] as int,
                    )
                    &&& final(output)@[2 * k + 1] == filter.output(
                        filter.after(r, input@, 1, 2, k),
                        input@[2 * k + 1] as int,
                    )
                }
            &&& forall|k: int|
                2 * len <= k < old(output)@.len() ==> #[trigger] final(output)@[k] == old(output)@[k]
        }),
{
    let ghost l = BiquadState { s0: old(state)[0] as int, s1: old(state)[1] as int };
    let ghost r = BiquadState { s0: old(state)[2] as int, s1: old(state)[3] as int };
    let mut l0: i32 = state[0];
    let mut l1: i32 = state[1];
    let mut r0: i32 = state[2];
    let mut r1: i32 = state[3];
    let in_len: usize = input.len();
    let mut k: usize = 0;
    while k < len
        invariant
            k <= len,
            2 * len <= input@.len(),
            2 * len <= output@.len(),
            input@.len() == in_len,
            output@.len() == old(output)@.len(),
            filter.a[0] > i32::MIN,
            filter.a[1] > i32::MIN,
            l0 == filter.after(l, input@, 0, 2, k as int).s0,
            l1 == filter.after(l, input@, 0, 2, k as int).s1,
            r0 == filter.after(r, input@, 1, 2, k as int).s0,
            r1 == filter.after(r, input@, 1, 2, k as int).s1,
            forall|j: int|
                0 <= j < k ==> {
                    &&& #[trigger] output@[2 * j] == filter.output(
                        filter.after(l, input@, 0, 2, j),
                        input@[2 * j] as int,
                    )
                    &&& output@[2 * j + 1] == filter.output(
                        filter.after(r, input@, 1, 2, j),
                        input@[2 * j + 1] as int,
                    )
                },
            forall|j: int| 2 * k <= j < output@.len() ==> #[trigger] output@[j] == old(output)@[j],
        decreases len - k,
    {
        let yl: i16 = filter.step(&mut l0, &mut l1, input[2 * k]);
        let yr: i16 = filter.step(&mut r0, &mut r1, input[2 * k + 1]);
        let ghost before = output@;
        output[2 * k] = yl;
        output[2 * k + 1] = yr;
        proof {
            assert forall|j: int| 0 <= j < k + 1 implies #[trigger] output@[2 * j] == filter.output(
                filter.after(l, input@, 0, 2, j),
                input@[2 * j] as int,
            ) && output@[2 * j + 1] == filter.output(
                filter.after(r, input@, 1, 2, j),
                input@[2 * j + 1] as int,
            ) by {
                if j < k {
                    assert(output@[2 * j] == before[2 * j]);
                    assert(output@[2 * j + 1] == before[2 * j + 1]);
                }
            }
        }
        k = k + 1;
    }
    state[0] = l0;
    state[1] = l1;
    state[2] = r0;
    state[3] = r1;
}

/// The frequency of the variable high-pass filter in Q19, against the sampling rate.
pub open spec fn cutoff_q19(cutoff_hz: int, fs: int) -> int {
    tdiv(2471 * cutoff_hz, tdiv(fs, 1000))
}

/// The gain of the variable high-pass filter in Q28.
pub open spec fn cutoff_gain(cutoff_hz: int, fs: int) -> int {
    0x1000_0000 - 471 * cutoff_q19(cutoff_hz, fs)
}

/// The feedback coefficients of the variable high-pass filter, in 32 bits.
pub open spec fn cutoff_feedback(cutoff_hz: int, fs: int) -> (int, int) {
    let fc = cutoff_q19(cutoff_hz, fs);
    let r = cutoff_gain(cutoff_hz, fs) / 64;
    (wrap32(smulww(r, wrap32(smulww(fc, fc)) - 0x80_0000)), wrap32(smulww(r, r)))
}

/// The coefficients of the variable high-pass filter.
pub open spec fn cutoff_filter(f: Biquad, cutoff_hz: int, fs: int) -> bool {
    let r = cutoff_gain(cutoff_hz, fs);
    let (a0, a1) = cutoff_feedback(cutoff_hz, fs);
    &&& f.b[0] == r
    &&& f.b[1] == -wrap32(2 * r)
    &&& f.b[2] == r
    &&& f.a[0] == a0
    &&& f.a[1] == a1
}

/// Cutoff frequencies and sampling rates for which the filter can be worked out in 32 bits.
pub open spec fn cutoff_domain(cutoff_hz: int, fs: int) -> bool {
    let fc = cutoff_q19(cutoff_hz, fs);
    let r = cutoff_gain(cutoff_hz, fs);
    let (a0, a1) = cutoff_feedback(cutoff_hz, fs);
    &&& tdiv(fs, 1000) != 0
    &&& i32::MIN <= 2471 * cutoff_hz <= i32::MAX
    &&& i32::MIN <= fc <= i32::MAX
    &&& i32::MIN <= 471 * fc <= i32::MAX
    &&& r <= i32::MAX
    &&& wrap32(2 * r) > i32::MIN
    &&& wrap32(smulww(fc, fc)) - 0x80_0000 >= i32::MIN
    &&& a0 > i32::MIN
    &&& a1 > i32::MIN
}

/// Cutoff frequencies up to a fifth of the sampling rate can be worked out.
pub proof fn low_cutoffs_can_be_filtered(cutoff_hz: int, fs: int)
    requires
        1000 <= fs <= i32::MAX,
        0 <= cutoff_hz <= 200 * (fs / 1000),
        2471 * cutoff_hz <= i32::MAX,
    ensures
        cutoff_domain(cutoff_hz, fs),
{
    let khz = fs / 1000;
    let num = 2471 * cutoff_hz;
    let fc = cutoff_q19(cutoff_hz, fs);
    assert(0 <= fc <= 494_200) by (nonlinear_arith)
        requires
            fc == num / khz,
            0 <= num <= 494_200 * khz,
            khz >= 1,
    ;
    let r = cutoff_gain(cutoff_hz, fs);
    assert(0 <= r <= 0x1000_0000);
    lemma_product(fc, fc, 494_200, 494_200);
    assert(fc * fc >= 0) by (nonlinear_arith);
    let sq = wrap32(smulww(fc, fc));
    lemma_product(r / 64, sq - 0x80_0000, 0x40_0000, 0x80_0000);
    lemma_product(r / 64, r / 64, 0x40_0000, 0x40_0000);
}

/// The variable high-pass filter.
fn design_cutoff(cutoff_hz: i32, fs: i32) -> (f: Biquad)
    requires
        cutoff_domain(cutoff_hz as int, fs as int),
    ensures
        cutoff_filter(f, cutoff_hz as int, fs as int),
        f.a[0] > i32::MIN,
        f.a[1] > i32::MIN,
{
    let khz: i64 = trunc_div(fs, 1000);
    let fc: i32 = trunc_div(2471 * cutoff_hz, khz as i32) as i32;
    let r: i32 = 0x1000_0000 - 471 * fc;
    let r22: i32 = floor_div(r as i64, 64) as i32;
    let sq: i32 = silk_smulww(fc, fc);
    let a0: i32 = silk_smulww(r22, sq - 0x80_0000);
    let a1: i32 = silk_smulww(r22, r22);
    Biquad { b: [r, -wrap(2 * r as i64), r], a: [a0, a1] }
}

/// The memory of the filter of channel `c`.
pub open spec fn hp_state(hp_mem: [i32; 4], c: int) -> BiquadState {
    BiquadState { s0: hp_mem[2 * c] as int, s1: hp_mem[2 * c + 1] as int }
}

/// Whether `output` is `len` samples of each channel of `input` behind the variable
/// high-pass filter, and `after` its memory then.
pub open spec fn high_passed(
    f: Biquad,
    input: Seq<i16>,
    output: Seq<i16>,
    before: [i32; 4],
    after: [i32; 4],
    len: int,
    channels: int,
) -> bool {
    forall|c: int|
        0 <= c < channels ==> {
            let s = hp_state(before, c);
            &&& #[trigger] hp_state(after, c) == f.after(s, input, c, channels, len)
            &&& forall|k: int|
                0 <= k < len ==> #[trigger] output[channels * k + c] == f.output(
                    f.after(s, input, c, channels, k),
                    input[channels * k + c] as int,
                )
        }
}

/// The samples of channel `c` of a stereo signal.
pub open spec fn channel_of(pcm: Seq<i16>, c: int, len: int) -> Seq<i16> {
    Seq::new(len as nat, |k: int| pcm[2 * k + c])
}

/// Two channels are filtered as each would be alone, with a memory of its own.
pub proof fn channels_are_filtered_alone(
    f: Biquad,
    input: Seq<i16>,
    output: Seq<i16>,
    before: [i32; 4],
    after: [i32; 4],
    len: int,
    c: int,
)
    requires
        0 <= c <= 1,
        0 <= len,
        high_passed(f, input, output, before, after, len, 2),
    ensures
        ({
            let alone = channel_of(input, c, len);
            let s = hp_state(before, c);
            &&& hp_state(after, c) == f.after(s, alone, 0, 1, len)
            &&& forall|k: int|
                0 <= k < len ==> #[trigger] channel_of(output, c, len)[k] == f.output(
                    f.after(s, alone, 0, 1, k),
                    alone[k] as int,
                )
        }),
{
    let alone = channel_of(input, c, len);
    let s = hp_state(before, c);
    lemma_stride(f, s, input, c, len, len);
    assert(hp_state(after, c) == f.after(s, input, c, 2, len));
    assert forall|k: int| 0 <= k < len implies #[trigger] channel_of(output, c, len)[k] == f.output(
        f.after(s, alone, 0, 1, k),
        alone[k] as int,
    ) by {
        lemma_stride(f, s, input, c, len, k);
        assert(output[2 * k + c] == f.output(f.after(s, input, c, 2, k), input[2 * k + c] as int));
    }
}

proof fn lemma_stride(f: Biquad, s: BiquadState, input: Seq<i16>, c: int, len: int, n: int)
    requires
        n <= len,
    ensures
        f.after(s, channel_of(input, c, len), 0, 1, n) == f.after(s, input, c, 2, n),
    decreases n,
{
    if n > 0 {
        lemma_stride(f, s, input, c, len, n - 1);
        assert(channel_of(input, c, len)[n - 1] == input[2 * (n - 1) + c]);
        assert(0 + 1 * (n - 1) == n - 1);
    }
}

/// Puts a frame behind the variable high-pass filter. Returns nothing; `hp_mem` is the
/// filter's memory.
pub fn hp_cutoff(
    input: &[i16],
    cutoff_hz: i32,
    output: &mut [i16],
    hp_mem: &mut [i32; 4],
    len: usize,
    channels: i32,
    fs: i32,
)
    requires
        cutoff_domain(cutoff_hz as int, fs as int),
        channels == 1 || channels == 2,
        len * channels <= input@.len(),
        len * channels <= old(output)@.len(),
    ensures
        final(output)@.len() == old(output)@.len(),
        exists|f: Biquad|
            #![trigger cutoff_filter(f, cutoff_hz as int, fs as int)]
            cutoff_filter(f, cutoff_hz as int, fs as int) && high_passed(
                f,
                input@,
                final(output)@,
                *old(hp_mem),
                *final(hp_mem),
                len as int,
                channels as int,
            ),
        channels == 1 ==> final(hp_mem)[2] == old(hp_mem)[2] && final(hp_mem)[3] == old(hp_mem)[3],
        forall|k: int|
            len * channels <= k < old(output)@.len() ==> #[trigger] final(output)@[k] == old(output)@[k],
{
    let f = design_cutoff(cutoff_hz, fs);
    if channels == 1 {
        let mut state: [i32; 2] = [hp_mem[0], hp_mem[1]];
        silk_biquad_alt_stride1(input, &f, &mut state, output, len);
        hp_mem[0] = state[0];
        hp_mem[1] = state[1];
        proof {
            let s = hp_state(*old(hp_mem), 0);
            assert forall|k: int| 0 <= k < len implies #[trigger] output@[1 * k + 0] == f.output(
                f.after(s, input@, 0, 1, k),
                input@[1 * k + 0] as int,
            ) by {
                assert(output@[k] == f.output(f.after(s, input@, 0, 1, k), input@[k] as int));
            }
            assert(high_passed(f, input@, output@, *old(hp_mem), *hp_mem, len as int, 1));
        }
    } else {
        silk_biquad_alt_stride2(input, &f, hp_mem, output, len);
        proof {
            let l = hp_state(*old(hp_mem), 0);
            let r = hp_state(*old(hp_mem), 1);
            assert(hp_state(*hp_mem, 0) == f.after(l, input@, 0, 2, len as int));
            assert(hp_state(*hp_mem, 1) == f.after(r, input@, 1, 2, len as int));
            assert forall|k: int| 0 <= k < len implies #[trigger] output@[2 * k + 0] == f.output(
                f.after(l, input@, 0, 2, k),
                input@[2 * k + 0] as int,
            ) by {
                assert(output@[2 * k] == f.output(f.after(l, input@, 0, 2, k), input@[2 * k] as int));
            }
            assert forall|k: int| 0 <= k < len implies #[trigger] output@[2 * k + 1] == f.output(
                f.after(r, input@, 1, 2, k),
                input@[2 * k + 1] as int,
            ) by {
                assert(output@[2 * k] == f.output(f.after(l, input@, 0, 2, k), input@[2 * k] as int));
            }
            assert(high_passed(f, input@, output@, *old(hp_mem), *hp_mem, len as int, 2));
        }
    }
}

/// The variable high-pass filter, for comparison from outside.
pub fn hp_cutoff_debug(
    input: &[i16],
    cutoff_hz: i32,
    output: &mut [i16],
    hp_mem: &mut [i32; 4],
    len: usize,
    channels: i32,
    fs: i32,
)
    requires
        cutoff_domain(cutoff_hz as int, fs as int),
        channels == 1 || channels == 2,
        len * channels <= input@.len(),
        len * channels <= old(output)@.len(),
    ensures
        final(output)@.len() == old(output)@.len(),
        exists|f: Biquad|
            #![trigger cutoff_filter(f, cutoff_hz as int, fs as int)]
            cutoff_filter(f, cutoff_hz as int, fs as int) && high_passed(
                f,
                input@,
                final(output)@,
                *old(hp_mem),
                *final(hp_mem),
                len as int,
                channels as int,
            ),
        channels == 1 ==> final(hp_mem)[2] == old(hp_mem)[2] && final(hp_mem)[3] == old(hp_mem)[3],
        forall|k: int|
            len * channels <= k < old(output)@.len() ==> #[trigger] final(output)@[k] == old(output)@[k],
{
    hp_cutoff(input, cutoff_hz, output, hp_mem, len, channels, fs);
}

/// Divides by a power of two, rounding to nearest.
fn pshr(x: i64, k: i32) -> (r: i64)
    requires
        0 <= k <= 31,
        -0x100_0000_0000 <= x <= 0x100_0000_0000,
    ensures
        r == rounded_shr(x as int, k as int),
        x >= 0 ==> 0 <= r <= x + 1,
        x < 0 ==> x <= r <= 0,
{
    if k == 0 {
        return x;
    }
    let half: i64 = exp2i((k - 1) as u32);
    let whole: i64 = exp2i(k as u32);
    proof {
        lemma_pow2_unfold(k as nat);
        lemma2_to64();
        if k - 1 < 30 {
            lemma_pow2_strictly_increases((k - 1) as nat, 30);
        }
        let q = (x + half) / whole as int;
        let h = half as int;
        assert(x >= 0 ==> 0 <= q <= x + 1) by (nonlinear_arith)
            requires
                q == (x + h) / (2 * h),
                h >= 1,
        ;
        assert(x < 0 ==> x <= q <= 0) by (nonlinear_arith)
            requires
                q == (x + h) / (2 * h),
                h >= 1,
        ;
    }
    floor_div(x + half, whole)
}

/// The memory of the filter that takes out the mean, after `n` samples.
pub open spec fn dc_memory(m: int, xs: Seq<i16>, first: int, stride: int, sh: int, n: int) -> int
    decreases n,
{
    if n <= 0 {
        m
    } else {
        let before = dc_memory(m, xs, first, stride, sh, n - 1);
        before + rounded_shr(xs[first + stride * (n - 1)] * 16384 - before, sh)
    }
}

/// A sample without the mean.
pub open spec fn dc_output(m: int, x: int) -> int {
    bounded(rounded_shr(x * 16384 - m, 14), -32767, 32767)
}

/// Takes the mean out of one channel. Returns the filter's memory.
fn reject_channel(
    input: &[i16],
    output: &mut [i16],
    mem: i32,
    len: usize,
    first: usize,
    stride: usize,
    sh: i32,
) -> (r: i32)
    requires
        0 <= sh <= 30,
        first < stride <= 2,
        len * stride <= input@.len(),
        len * stride <= old(output)@.len(),
    ensures
        r == dc_memory(mem as int, input@, first as int, stride as int, sh as int, len as int),
        final(output)@.len() == old(output)@.len(),
        forall|k: int|
            0 <= k < len ==> #[trigger] final(output)@[first + stride * k] == dc_output(
                dc_memory(mem as int, input@, first as int, stride as int, sh as int, k),
                input@[first + stride * k] as int,
            ),
        forall|j: int|
            0 <= j < old(output)@.len() && (j % (stride as int) != first || j >= len * stride)
                ==> #[trigger] final(output)@[j] == old(output)@[j],
{
    let mut m: i32 = mem;
    let in_len: usize = input.len();
    let mut k: usize = 0;
    while k < len
        invariant
            k <= len,
            0 <= sh <= 30,
            first < stride <= 2,
            len * stride <= input@.len() == in_len,
            len * stride <= output@.len(),
            output@.len() == old(output)@.len(),
            m == dc_memory(mem as int, input@, first as int, stride as int, sh as int, k as int),
            forall|j: int|
                0 <= j < k ==> #[trigger] output@[first + stride * j] == dc_output(
                    dc_memory(mem as int, input@, first as int, stride as int, sh as int, j),
                    input@[first + stride * j] as int,
                ),
            forall|j: int|
                0 <= j < old(output)@.len() && (j % (stride as int) != first || j >= k * stride)
                    ==> #[trigger] output@[j] == old(output)@[j],
        decreases len - k,
    {
        proof {
            if stride == 1 {
                assert(k * stride == k && len * stride == len && (k + 1) * stride == k + 1)
                    by (nonlinear_arith)
                    requires
                        stride == 1,
                ;
            } else {
                assert(k * stride == 2 * k && len * stride == 2 * len && (k + 1) * stride == 2 * k + 2)
                    by (nonlinear_arith)
                    requires
                        stride == 2,
                ;
            }
            assert(stride * k == k * stride) by (nonlinear_arith);
        }
        let idx: usize = first + stride * k;
        let x: i64 = input[idx] as i64 * 16384;
        let y: i64 = x - m as i64;
        let step: i64 = pshr(y, sh);
        let v: i64 = pshr(y, 14);
        m = (m as i64 + step) as i32;
        let ghost before = output@;
        output[idx] = if v < -32767 {
            -32767
        } else if v > 32767 {
            32767
        } else {
            v as i16
        };
        proof {
            assert forall|j: int| 0 <= j < k + 1 implies #[trigger] output@[first + stride * j]
                == dc_output(
                dc_memory(mem as int, input@, first as int, stride as int, sh as int, j),
                input@[first + stride * j] as int,
            ) by {
                if j < k {
                    assert(stride * j < stride * k) by (nonlinear_arith)
                        requires
                            j < k,
                            stride >= 1,
                    ;
                    assert(output@[first + stride * j] == before[first + stride * j]);
                }
            }
        }
        k = k + 1;
    }
    m
}

/// Whether `output` is `len` samples of each channel of `input` without their mean, and
/// `after` the filter's memory then.
pub open spec fn dc_rejected(
    input: Seq<i16>,
    output: Seq<i16>,
    before: [i32; 4],
    after: [i32; 4],
    len: int,
    channels: int,
    sh: int,
) -> bool {
    &&& forall|c: int|
        0 <= c < channels ==> #[trigger] after[2 * c] == dc_memory(
            before[2 * c] as int,
            input,
            c,
            channels,
            sh,
            len,
        )
    &&& forall|c: int, k: int|
        0 <= c < channels && 0 <= k < len ==> #[trigger] output[c + channels * k] == dc_output(
            dc_memory(before[2 * c] as int, input, c, channels, sh, k),
            input[c + channels * k] as int,
        )
    &&& after[1] == before[1]
    &&& after[3] == before[3]
    &&& channels == 1 ==> after[2] == before[2]
}

/// Takes the mean out of a frame, with a filter whose memory is `hp_mem`.
pub fn dc_reject(
    input: &[i16],
    cutoff_hz: i32,
    output: &mut [i16],
    hp_mem: &mut [i32; 4],
    len: usize,
    channels: i32,
    fs: i32,
)
    requires
        channels == 1 || channels == 2,
        1 <= cutoff_hz,
        4 * cutoff_hz <= fs,
        len * channels <= input@.len(),
        len * channels <= old(output)@.len(),
    ensures
        final(output)@.len() == old(output)@.len(),
        dc_rejected(
            input@,
            final(output)@,
            *old(hp_mem),
            *final(hp_mem),
            len as int,
            channels as int,
            ilog2(fs as int / (4 * cutoff_hz)),
        ),
        forall|k: int|
            len * channels <= k < old(output)@.len() ==> #[trigger] final(output)@[k] == old(output)@[k],
{
    proof {
        let q = fs as int / (4 * cutoff_hz);
        assert(q >= 1) by (nonlinear_arith)
            requires
                q == fs as int / (4 * cutoff_hz),
                4 * cutoff_hz <= fs,
                cutoff_hz >= 1,
        ;
    }
    let sh: i32 = celt_ilog2(fs / (cutoff_hz * 4));
    let ghost out0 = output@;
    hp_mem[0] = reject_channel(input, output, hp_mem[0], len, 0, channels as usize, sh);
    if channels == 2 {
        let ghost mid = output@;
        hp_mem[2] = reject_channel(input, output, hp_mem[2], len, 1, 2, sh);
        proof {
            assert forall|c: int, k: int| 0 <= c < 2 && 0 <= k < len implies #[trigger] output@[c + 2 * k]
                == dc_output(
                dc_memory(old(hp_mem)[2 * c] as int, input@, c, 2, sh as int, k),
                input@[c + 2 * k] as int,
            ) by {
                if c == 0 {
                    assert((0 + 2 * k) % 2 == 0);
                    assert(output@[0 + 2 * k] == mid[0 + 2 * k]);
                }
            }
        }
    }
}

// ---------------------------------------------------------------------------
// Fades
// ---------------------------------------------------------------------------

/// A gain between two, by the square of a window value.
pub open spec fn fade_gain(w: int, g1: int, g2: int) -> int {
    let v = q15(w, w);
    (v * g2 + (Q15ONE - v) * g1) / 32768
}

/// The gain between two, by the square of a window value.
fn gain_at(w: i16, g1: i32, g2: i32) -> (r: i32)
    requires
        0 <= g1 <= Q15ONE,
        0 <= g2 <= Q15ONE,
    ensures
        r == fade_gain(w as int, g1 as int, g2 as int),
        -1 <= r <= Q15ONE,
{
    proof {
        lemma_product(w as int, w as int, 32768, 32768);
        assert(w * w >= 0) by (nonlinear_arith);
    }
    let v: i64 = mult_q15(w as i32, w as i32);
    if v > 32767 {
        // Only the lowest window value has a square of one.
        proof {
            assert(v == 32768);
            assert(v * g2 + (Q15ONE - v) * g1 == 32768 * g2 - g1) by (nonlinear_arith)
                requires
                    v == 32768,
                    Q15ONE == 32767,
            ;
        }
        return floor_div(32768 * g2 as i64 - g1 as i64, 32768) as i32;
    }
    proof {
        assert(0 <= v * g2 + (Q15ONE - v) * g1 <= 32767 * 32767) by (nonlinear_arith)
            requires
                0 <= v <= 32767,
                0 <= g1 <= 32767,
                0 <= g2 <= 32767,
                Q15ONE == 32767,
        ;
        assert(0 <= v * g2 <= 32767 * 32767) by (nonlinear_arith)
            requires
                0 <= v <= 32767,
                0 <= g2 <= 32767,
        ;
    }
    floor_div(v * g2 as i64 + (Q15ONE as i64 - v) * g1 as i64, 32768) as i32
}

/// The gain for sample `i` of a fade that is over after `overlap` samples.
pub open spec fn gain_for(i: int, window: Seq<i16>, inc: int, overlap: int, g1: int, g2: int) -> int {
    if i < overlap {
        fade_gain(window[i * inc] as int, g1, g2)
    } else {
        g2
    }
}

/// Samples of a fade that takes `overlap48` at 48 kHz, and the step through the window.
pub open spec fn fade_domain(overlap: int, inc: int, window: Seq<i16>, frame_size: int) -> bool {
    &&& 1 <= inc
    &&& 0 <= overlap <= frame_size
    &&& overlap > 0 ==> (overlap - 1) * inc < window.len()
}

/// The gain for sample `i`.
fn gain_of(i: usize, window: &[i16], inc: usize, overlap: usize, g1: i32, g2: i32) -> (r: i32)
    requires
        1 <= inc,
        i < overlap ==> i * inc < window@.len(),
        0 <= g1 <= Q15ONE,
        0 <= g2 <= Q15ONE,
    ensures
        r == gain_for(i as int, window@, inc as int, overlap as int, g1 as int, g2 as int),
        -1 <= r <= Q15ONE,
{
    if i < overlap {
        let n: usize = window.len();
        gain_at(window[i * inc], g1, g2)
    } else {
        g2
    }
}

/// A sample times a gain.
fn amplify(g: i32, x: i32) -> (r: i32)
    requires
        -1 <= g <= Q15ONE,
        -32768 <= x <= 32767,
    ensures
        r == q15(g as int, x as int),
        -32768 <= r <= 32767,
{
    proof {
        lemma_product(g as int, x as int, 32767, 32768);
    }
    mult_q15(g, x) as i32
}

/// Fades a frame of interleaved channels from gain `g1` to gain `g2`.
pub fn gain_fade(
    pcm: &mut [i16],
    g1: i32,
    g2: i32,
    overlap48: i32,
    frame_size: i32,
    channels: i32,
    window: &[i16],
    fs: i32,
)
    requires
        1 <= fs <= 48000,
        0 <= overlap48 <= 10_000,
        0 <= g1 <= Q15ONE,
        0 <= g2 <= Q15ONE,
        channels == 1 || channels == 2,
        fade_domain(overlap48 * fs / 48000, 48000int / fs as int, window@, frame_size as int),
        frame_size * channels <= old(pcm)@.len(),
    ensures
        final(pcm)@.len() == old(pcm)@.len(),
        forall|k: int|
            0 <= k < frame_size * channels ==> #[trigger] final(pcm)@[k] == q15(
                gain_for(
                    k / (channels as int),
                    window@,
                    48000int / fs as int,
                    overlap48 * fs / 48000,
                    g1 as int,
                    g2 as int,
                ),
                old(pcm)@[k] as int,
            ),
        forall|k: int|
            frame_size * channels <= k < old(pcm)@.len() ==> #[trigger] final(pcm)@[k] == old(pcm)@[k],
{
    proof {
        assert(0 <= overlap48 * fs <= 480_000_000) by (nonlinear_arith)
            requires
                0 <= overlap48 <= 10_000,
                1 <= fs <= 48000,
        ;
    }
    let overlap: usize = (overlap48 * fs / 48000) as usize;
    let inc: usize = (48000 / fs) as usize;
    let ch: usize = channels as usize;
    let pcm_len: usize = pcm.len();
    let n: usize = frame_size as usize * ch;
    let mut k: usize = 0;
    while k < n
        invariant
            k <= n == frame_size * channels,
            n <= pcm@.len() == pcm_len,
            pcm@.len() == old(pcm)@.len(),
            ch == channels,
            channels == 1 || channels == 2,
            0 <= frame_size,
            0 <= g1 <= Q15ONE,
            0 <= g2 <= Q15ONE,
            overlap == overlap48 * fs / 48000,
            inc == 48000int / fs as int,
            fade_domain(overlap as int, inc as int, window@, frame_size as int),
            forall|j: int|
                0 <= j < k ==> #[trigger] pcm@[j] == q15(
                    gain_for(
                        j / (channels as int),
                        window@,
                        inc as int,
                        overlap as int,
                        g1 as int,
                        g2 as int,
                    ),
                    old(pcm)@[j] as int,
                ),
            forall|j: int| k <= j < pcm@.len() ==> #[trigger] pcm@[j] == old(pcm)@[j],
        decreases n - k,
    {
        let i: usize = k / ch;
        proof {
            if i < overlap {
                assert(i * inc <= (overlap - 1) * inc) by (nonlinear_arith)
                    requires
                        i <= overlap - 1,
                        inc >= 1,
                ;
            }
        }
        let g: i32 = gain_of(i, window, inc, overlap, g1, g2);
        let y: i32 = amplify(g, pcm[k] as i32);
        pcm[k] = y as i16;
        k = k + 1;
    }
}

/// Half the difference of two channels, times a gain.
pub open spec fn side_part(g: int, l: int, r: int) -> int {
    q15(g, (l - r) / 2)
}

/// Whether sample `i` of a stereo frame was made narrower by the gain `g`.
pub open spec fn narrowed(before: Seq<i16>, after: Seq<i16>, i: int, g: int) -> bool {
    let d = side_part(g, before[2 * i] as int, before[2 * i + 1] as int);
    &&& after[2 * i] == sat16_of(before[2 * i] - d)
    &&& after[2 * i + 1] == sat16_of(before[2 * i + 1] + d)
}

/// The gain of a stereo fade for sample `i`: what the width lacks to one.
pub open spec fn side_gain(i: int, window: Seq<i16>, overlap48: int, fs: int, g1: int, g2: int) -> int {
    let inc = max_int(1, 48000int / fs);
    gain_for(i, window, inc, overlap48 / inc, Q15ONE - g1, Q15ONE - g2)
}

/// Fades the width of a stereo frame from `g1` to `g2`: what the gain lacks to one of half
/// the difference is taken from one channel and given to the other.
pub fn stereo_fade(
    pcm: &mut [i16],
    g1: i32,
    g2: i32,
    overlap48: i32,
    frame_size: i32,
    channels: i32,
    window: &[i16],
    fs: i32,
)
    requires
        1 <= fs,
        0 <= overlap48,
        0 <= g1 <= Q15ONE,
        0 <= g2 <= Q15ONE,
        channels == 2,
        fade_domain(
            overlap48 as int / max_int(1, 48000int / fs as int),
            max_int(1, 48000int / fs as int),
            window@,
            frame_size as int,
        ),
        2 * frame_size <= old(pcm)@.len(),
    ensures
        final(pcm)@.len() == old(pcm)@.len(),
        forall|i: int|
            0 <= i < frame_size ==> #[trigger] narrowed(
                old(pcm)@,
                final(pcm)@,
                i,
                side_gain(i, window@, overlap48 as int, fs as int, g1 as int, g2 as int),
            ),
        forall|k: int| 2 * frame_size <= k < old(pcm)@.len() ==> #[trigger] final(pcm)@[k] == old(pcm)@[k],
{
    let inc: i32 = imax(1, 48000 / fs);
    let overlap: i32 = overlap48 / inc;
    let h1: i32 = Q15ONE - g1;
    let h2: i32 = Q15ONE - g2;
    let pcm_len: usize = pcm.len();
    let mut i: usize = 0;
    while i < frame_size as usize
        invariant
            0 <= frame_size,
            i <= frame_size,
            2 * frame_size <= pcm@.len() == pcm_len,
            pcm@.len() == old(pcm)@.len(),
            1 <= fs,
            inc == max_int(1, 48000int / fs as int),
            overlap == overlap48 as int / inc as int,
            h1 == Q15ONE - g1,
            h2 == Q15ONE - g2,
            0 <= h1 <= Q15ONE,
            0 <= h2 <= Q15ONE,
            fade_domain(overlap as int, inc as int, window@, frame_size as int),
            forall|j: int|
                0 <= j < i ==> #[trigger] narrowed(
                    old(pcm)@,
                    pcm@,
                    j,
                    side_gain(j, window@, overlap48 as int, fs as int, g1 as int, g2 as int),
                ),
            forall|j: int| 2 * i <= j < pcm@.len() ==> #[trigger] pcm@[j] == old(pcm)@[j],
        decreases frame_size - i,
    {
        proof {
            if i < overlap {
                assert(i * inc <= (overlap - 1) * inc) by (nonlinear_arith)
                    requires
                        i <= overlap - 1,
                        inc >= 1,
                ;
            }
        }
        let g: i32 = gain_of(i, window, inc as usize, overlap as usize, h1, h2);
        let l: i32 = pcm[2 * i] as i32;
        let r: i32 = pcm[2 * i + 1] as i32;
        let half: i32 = floor_div((l - r) as i64, 2) as i32;
        let d: i32 = amplify(g, half);
        let a: i32 = silk_sat16(l - d);
        let b: i32 = silk_sat16(r + d);
        let ghost before = pcm@;
        pcm[2 * i] = a as i16;
        pcm[2 * i + 1] = b as i16;
        proof {
            assert(d == side_part(g as int, l as int, r as int));
            assert forall|j: int| 0 <= j < i + 1 implies #[trigger] narrowed(
                old(pcm)@,
                pcm@,
                j,
                side_gain(j, window@, overlap48 as int, fs as int, g1 as int, g2 as int),
            ) by {
                if j < i {
                    assert(narrowed(
                        old(pcm)@,
                        before,
                        j,
                        side_gain(j, window@, overlap48 as int, fs as int, g1 as int, g2 as int),
                    ));
                    assert(pcm@[2 * j] == before[2 * j]);
                    assert(pcm@[2 * j + 1] == before[2 * j + 1]);
                }
            }
        }
        i = i + 1;
    }
}

// ---------------------------------------------------------------------------
// Mixing down
// ---------------------------------------------------------------------------

/// A sample with the fraction bits of a signal.
pub fn int16_to_sig(x: i16) -> (r: i32)
    ensures
        r == x * 4096,
{
    x as i32 * 4096
}

/// The sum of channels `from` up to `to` of a frame of `c` interleaved channels.
pub open spec fn channel_sum(samples: Seq<i16>, frame: int, c: int, from: int, to: int) -> int
    decreases to - from,
{
    if from >= to {
        0
    } else {
        channel_sum(samples, frame, c, from, to - 1) + samples[frame * c + to - 1]
    }
}

/// What one sample is mixed from: channel `c1`, and with it channel `c2`, all channels
/// but the first where `c2` is -2, or none.
pub open spec fn mixed(samples: Seq<i16>, frame: int, c1: int, c2: int, c: int) -> int {
    samples[frame * c + c1] + if c2 > -1 {
        samples[frame * c + c2] as int
    } else if c2 == -2 {
        channel_sum(samples, frame, c, 1, c)
    } else {
        0
    }
}

/// Mixes frames of `c` interleaved channels down to one, with the fraction bits of a
/// signal, from frame `offset` on.
pub fn downmix_int(
    input: &[i16],
    output: &mut [i32],
    subframe: i32,
    offset: i32,
    c1: i32,
    c2: i32,
    c: i32,
)
    requires
        0 <= subframe <= old(output)@.len(),
        0 <= offset,
        0 <= c1 < c <= 14,
        c2 < c,
        (subframe + offset) * c <= input@.len(),
        subframe + offset <= 0x400_0000,
    ensures
        final(output)@.len() == old(output)@.len(),
        forall|j: int|
            0 <= j < subframe ==> #[trigger] final(output)@[j] == 4096 * mixed(
                input@,
                j + offset,
                c1 as int,
                c2 as int,
                c as int,
            ),
        forall|j: int| subframe <= j < old(output)@.len() ==> #[trigger] final(output)@[j] == old(output)@[j],
{
    let mut j: i32 = 0;
    while j < subframe
        invariant
            0 <= j <= subframe <= output@.len(),
            output@.len() == old(output)@.len(),
            0 <= offset,
            0 <= c1 < c <= 14,
            c2 < c,
            (subframe + offset) * c <= input@.len(),
            subframe + offset <= 0x400_0000,
            forall|k: int|
                0 <= k < j ==> #[trigger] output@[k] == 4096 * mixed(
                    input@,
                    k + offset,
                    c1 as int,
                    c2 as int,
                    c as int,
                ),
            forall|k: int| j <= k < output@.len() ==> #[trigger] output@[k] == old(output)@[k],
        decreases subframe - j,
    {
        let frame: i32 = j + offset;
        proof {
            assert(0 <= frame * c && frame * c + c <= (subframe + offset) * c && frame * c <= 0x400_0000
                * 14) by (nonlinear_arith)
                requires
                    0 <= frame < subframe + offset,
                    frame <= 0x400_0000,
                    0 <= c <= 14,
            ;
        }
        let base: i32 = frame * c;
        let mut sum: i32 = int16_to_sig(input[(base + c1) as usize]);
        if c2 > -1 {
            sum = sum + int16_to_sig(input[(base + c2) as usize]);
        } else if c2 == -2 {
            let first: i32 = sum;
            let mut ch: i32 = 1;
            while ch < c
                invariant
                    1 <= ch <= c <= 14,
                    0 <= base,
                    base == frame * c,
                    base <= 0x400_0000 * 14,
                    base + c <= input@.len(),
                    -0x800_0000 <= first <= 0x800_0000,
                    sum == first + 4096 * channel_sum(
                        input@,
                        frame as int,
                        c as int,
                        1,
                        ch as int,
                    ),
                    -0x800_0000 * ch <= sum <= 0x800_0000 * ch,
                decreases c - ch,
            {
                sum = sum + int16_to_sig(input[(base + ch) as usize]);
                ch = ch + 1;
            }
        }
        output[j as usize] = sum;
        j = j + 1;
    }
}

// ---------------------------------------------------------------------------
// Stereo width
// ---------------------------------------------------------------------------

/// What the width of the stereo image is estimated from: smoothed powers of both channels
/// and of their product, the smoothed width, and its peak, in Q15.
#[derive(Clone)]
pub struct StereoWidthState {
    pub xx: i32,
    pub xy: i32,
    pub yy: i32,
    pub smoothed_width: i32,
    pub max_follower: i32,
}

impl Default for StereoWidthState {
    fn default() -> (r: Self)
        ensures
            r@ == (Width { xx: 0, xy: 0, yy: 0, smoothed: 0, follower: 0 }),
    {
        StereoWidthState { xx: 0, xy: 0, yy: 0, smoothed_width: 0, max_follower: 0 }
    }
}

/// The estimate as values.
pub ghost struct Width {
    pub xx: int,
    pub xy: int,
    pub yy: int,
    pub smoothed: int,
    pub follower: int,
}

impl StereoWidthState {
    pub open spec fn view(&self) -> Width {
        Width {
            xx: self.xx as int,
            xy: self.xy as int,
            yy: self.yy as int,
            smoothed: self.smoothed_width as int,
            follower: self.max_follower as int,
        }
    }

    /// Powers are not negative, and widths are between zero and one.
    pub open spec fn wf(&self) -> bool {
        &&& 0 <= self.xx
        &&& 0 <= self.xy
        &&& 0 <= self.yy
        &&& 0 <= self.smoothed_width <= Q15ONE
        &&& 0 <= self.max_follower <= Q15ONE
    }
}

/// A quarter of the product of channels `a` and `b` at sample `i`.
pub open spec fn quarter_product(pcm: Seq<i16>, a: int, b: int, i: int) -> int {
    pcm[2 * i + a] * pcm[2 * i + b] / 4
}

/// The sum of the products of channels `a` and `b` over the first `n` blocks of four
/// samples, each block shifted right by `sh`.
pub open spec fn product_sum(pcm: Seq<i16>, a: int, b: int, n: int, sh: int) -> int
    decreases n,
{
    if n <= 0 {
        0
    } else {
        let i = 4 * (n - 1);
        product_sum(pcm, a, b, n - 1, sh) + shifted(
            quarter_product(pcm, a, b, i) + quarter_product(pcm, a, b, i + 1) + quarter_product(
                pcm,
                a,
                b,
                i + 2,
            ) + quarter_product(pcm, a, b, i + 3),
            -sh,
        )
    }
}

/// The weight of a frame in the smoothed powers.
pub open spec fn width_alpha(frame_rate: int) -> int {
    25 * Q15ONE / max_int(50, frame_rate)
}

/// The powers, smoothed over a frame.
pub open spec fn smoothed_powers(m: Width, xx: int, xy: int, yy: int, alpha: int) -> Width {
    Width {
        xx: max_int(0, m.xx + q15(alpha, xx - m.xx)),
        xy: max_int(0, q15(Q15ONE - alpha, m.xy) + q15(alpha, xy)),
        yy: max_int(0, m.yy + q15(alpha, yy - m.yy)),
        ..m
    }
}

/// How far the channels are from each other in loudness.
pub open spec fn loudness_gap(x: int, y: int) -> int {
    let d = if x >= y {
        x - y
    } else {
        y - x
    };
    Q15ONE * d / (1 + x + y)
}

/// The width by smoothed powers: how little the channels correlate, times how far they
/// are from each other in loudness.
pub open spec fn instant_width(m: Width) -> int {
    let sx = sqrt_of(m.xx);
    let sy = sqrt_of(m.yy);
    let corr = quotient(m.xy, 1 + sx * sy) / 65536;
    q15(
        min_int(Q15ONE as int, sqrt_of(max_int(0, 0x4000_0000 - corr * corr))),
        loudness_gap(sqrt_of(sx), sqrt_of(sy)),
    )
}

/// The estimate by smoothed powers. Too little power changes nothing.
pub open spec fn width_step(m: Width, frame_rate: int) -> Width {
    if max_int(m.xx, m.yy) <= 210 {
        m
    } else {
        let capped = Width { xy: min_int(m.xy, sqrt_of(m.xx) * sqrt_of(m.yy)), ..m };
        let smoothed = m.smoothed + tdiv(instant_width(capped) - m.smoothed, frame_rate);
        Width {
            smoothed,
            follower: max_int(m.follower - 655int / frame_rate, smoothed),
            ..capped
        }
    }
}

/// The estimate after a frame.
pub open spec fn width_after(m: Width, pcm: Seq<i16>, frame_size: int, fs: int) -> Width {
    let rate = fs / frame_size;
    let sh = ilog2(frame_size) - 2;
    let n = frame_size / 4;
    width_step(
        smoothed_powers(
            m,
            product_sum(pcm, 0, 0, n, sh),
            product_sum(pcm, 0, 1, n, sh),
            product_sum(pcm, 1, 1, n, sh),
            width_alpha(rate),
        ),
        rate,
    )
}

/// The estimate with left and right exchanged.
pub open spec fn mirrored(m: Width) -> Width {
    Width { xx: m.yy, yy: m.xx, ..m }
}

/// Whether two stereo signals are each other with the channels exchanged, for `n` samples a
/// channel.
pub open spec fn exchanged(pcm: Seq<i16>, other: Seq<i16>, n: int) -> bool {
    forall|i: int|
        #![trigger pcm[2 * i]]
        #![trigger other[2 * i]]
        0 <= i < n ==> other[2 * i] == pcm[2 * i + 1] && other[2 * i + 1] == pcm[2 * i]
}

/// With the channels exchanged a signal is as wide as before: the powers change places, and
/// nothing else changes.
pub proof fn width_has_no_side(m: Width, pcm: Seq<i16>, other: Seq<i16>, frame_size: int, fs: int)
    requires
        frame_size >= 4,
        exchanged(pcm, other, frame_size),
    ensures
        width_after(mirrored(m), other, frame_size, fs) == mirrored(
            width_after(m, pcm, frame_size, fs),
        ),
        width_after(mirrored(m), other, frame_size, fs).follower == width_after(
            m,
            pcm,
            frame_size,
            fs,
        ).follower,
{
    let rate = fs / frame_size;
    let sh = ilog2(frame_size) - 2;
    let n = frame_size / 4;
    lemma_exchanged_sum(pcm, other, frame_size, n, sh);
    let p = smoothed_powers(
        m,
        product_sum(pcm, 0, 0, n, sh),
        product_sum(pcm, 0, 1, n, sh),
        product_sum(pcm, 1, 1, n, sh),
        width_alpha(rate),
    );
    assert(sqrt_of(p.xx) * sqrt_of(p.yy) == sqrt_of(p.yy) * sqrt_of(p.xx)) by (nonlinear_arith);
}

proof fn lemma_exchanged_sum(pcm: Seq<i16>, other: Seq<i16>, len: int, n: int, sh: int)
    requires
        4 * n <= len,
        exchanged(pcm, other, len),
    ensures
        product_sum(other, 0, 0, n, sh) == product_sum(pcm, 1, 1, n, sh),
        product_sum(other, 1, 1, n, sh) == product_sum(pcm, 0, 0, n, sh),
        product_sum(other, 0, 1, n, sh) == product_sum(pcm, 0, 1, n, sh),
    decreases n,
{
    if n > 0 {
        lemma_exchanged_sum(pcm, other, len, n - 1, sh);
        assert forall|i: int| 0 <= i < len implies {
            &&& #[trigger] quarter_product(other, 0, 0, i) == quarter_product(pcm, 1, 1, i)
            &&& quarter_product(other, 1, 1, i) == quarter_product(pcm, 0, 0, i)
            &&& quarter_product(other, 0, 1, i) == quarter_product(pcm, 0, 1, i)
        } by {
            let (a, b) = (pcm[2 * i] as int, pcm[2 * i + 1] as int);
            assert(other[2 * i] == b && other[2 * i + 1] == a);
            assert(a * b == b * a) by (nonlinear_arith);
        }
        let i = 4 * (n - 1);
        assert(quarter_product(other, 0, 0, i) == quarter_product(pcm, 1, 1, i));
        assert(quarter_product(other, 0, 0, i + 1) == quarter_product(pcm, 1, 1, i + 1));
        assert(quarter_product(other, 0, 0, i + 2) == quarter_product(pcm, 1, 1, i + 2));
        assert(quarter_product(other, 0, 0, i + 3) == quarter_product(pcm, 1, 1, i + 3));
    }
}

/// A quarter of the product of channels `a` and `b` at sample `i`.
fn quarter(pcm: &[i16], a: usize, b: usize, i: usize) -> (r: i64)
    requires
        a <= 1,
        b <= 1,
        2 * i + 1 < pcm@.len(),
        pcm@.len() <= usize::MAX,
    ensures
        r == quarter_product(pcm@, a as int, b as int, i as int),
        -0x1000_0000 <= r <= 0x1000_0000,
        a == b ==> r >= 0,
{
    let x: i64 = pcm[2 * i + a] as i64;
    let y: i64 = pcm[2 * i + b] as i64;
    proof {
        lemma_product(x as int, y as int, 32768, 32768);
        if a == b {
            assert(x * y >= 0) by (nonlinear_arith)
                requires
                    x == y,
            ;
        }
    }
    floor_div(x * y, 4)
}

/// The sum of the products of channels `a` and `b` over `n` blocks of four samples.
fn sum_products(pcm: &[i16], a: usize, b: usize, n: usize, sh: i32) -> (r: i64)
    requires
        a <= 1,
        b <= 1,
        8 * n <= pcm@.len(),
        0 <= sh <= 28,
        n <= 0x2000_0000,
    ensures
        r == product_sum(pcm@, a as int, b as int, n as int, sh as int),
        -(n * pow2((30 - sh) as nat)) <= r <= n * pow2((30 - sh) as nat),
        a == b ==> r >= 0,
{
    let len: usize = pcm.len();
    let ghost most = pow2((30 - sh) as nat) as int;
    let mut sum: i64 = 0;
    let mut k: usize = 0;
    proof {
        lemma2_to64();
        lemma_pow2_pos((30 - sh) as nat);
        if 30 - sh < 30 {
            lemma_pow2_strictly_increases((30 - sh) as nat, 30);
        }
    }
    while k < n
        invariant
            a <= 1,
            b <= 1,
            k <= n <= 0x2000_0000,
            8 * n <= pcm@.len() == len,
            0 <= sh <= 28,
            most == pow2((30 - sh) as nat),
            1 <= most <= 0x4000_0000,
            sum == product_sum(pcm@, a as int, b as int, k as int, sh as int),
            -(k * most) <= sum <= k * most,
            a == b ==> sum >= 0,
        decreases n - k,
    {
        let i: usize = 4 * k;
        let block: i64 = quarter(pcm, a, b, i) + quarter(pcm, a, b, i + 1) + quarter(pcm, a, b, i + 2)
            + quarter(pcm, a, b, i + 3);
        proof {
            lemma2_to64();
            lemma_pow2_adds((30 - sh) as nat, sh as nat);
            lemma_pow2_pos(sh as nat);
            let p = pow2(sh as nat) as int;
            assert(-most <= block as int / p <= most) by (nonlinear_arith)
                requires
                    -(most * p) <= block <= most * p,
                    p >= 1,
            ;
            assert(block >= 0 ==> block as int / p >= 0) by (nonlinear_arith)
                requires
                    p >= 1,
            ;
            if sh == 0 {
                assert(shifted(block as int, 0) == block * 1);
                assert(block as int / 1 == block);
            }
            assert((k + 1) * most == k * most + most) by (nonlinear_arith);
            assert((k + 1) * most <= 0x2000_0001 * 0x4000_0000) by (nonlinear_arith)
                requires
                    k + 1 <= 0x2000_0001,
                    0 <= most <= 0x4000_0000,
            ;
        }
        sum = sum + shift(block, -sh);
        k = k + 1;
    }
    sum
}

/// Sums over fewer than two to the `l - 1` blocks fit in 32 bits.
proof fn lemma_width_sum(n: int, frame_size: int, sh: int)
    requires
        4 <= frame_size,
        n == frame_size / 4,
        sh == ilog2(frame_size) - 2,
        0 <= sh <= 28,
    ensures
        n * pow2((30 - sh) as nat) < 0x8000_0000,
{
    lemma2_to64();
    lemma_ilog2(frame_size);
    let l = ilog2(frame_size);
    lemma_pow2_unfold((l + 1) as nat);
    lemma_pow2_unfold(l as nat);
    let q = pow2((l - 1) as nat) as int;
    assert(n < q);
    let p = pow2((30 - sh) as nat) as int;
    lemma_pow2_adds((l - 1) as nat, (30 - sh) as nat);
    lemma_pow2_pos((30 - sh) as nat);
    assert(n * p < q * p) by (nonlinear_arith)
        requires
            n < q,
            p >= 1,
    ;
}

/// Smooths one power over a frame.
fn smooth_power(m: i32, x: i64, alpha: i32) -> (r: i32)
    requires
        0 <= m,
        0 <= x < 0x8000_0000,
        0 <= alpha <= 16383,
    ensures
        r == max_int(0, m + q15(alpha as int, x - m)),
        r >= 0,
{
    let d: i32 = (x - m as i64) as i32;
    proof {
        let p = alpha * d;
        assert(d >= 0 ==> 0 <= p <= 16384 * d) by (nonlinear_arith)
            requires
                p == alpha * d,
                0 <= alpha <= 16383,
        ;
        assert(d < 0 ==> 16384 * d <= p <= 0) by (nonlinear_arith)
            requires
                p == alpha * d,
                0 <= alpha <= 16383,
        ;
    }
    let r: i64 = m as i64 + mult_q15(alpha, d);
    if r < 0 {
        0
    } else {
        r as i32
    }
}

/// Smooths the power of the product over a frame.
fn smooth_product(m: i32, x: i64, alpha: i32) -> (r: i32)
    requires
        0 <= m,
        -0x8000_0000 < x < 0x8000_0000,
        0 <= alpha <= 16383,
    ensures
        r == max_int(0, q15(Q15ONE - alpha, m as int) + q15(alpha as int, x as int)),
        r >= 0,
{
    proof {
        let b = Q15ONE - alpha;
        assert(0 <= b * m && b * m + alpha * 0x7fff_ffff <= 32767 * 0x7fff_ffff) by (nonlinear_arith)
            requires
                b == 32767 - alpha,
                0 <= alpha <= 16383,
                0 <= m <= 0x7fff_ffff,
        ;
        assert(-(alpha * 0x7fff_ffff) <= alpha * x <= alpha * 0x7fff_ffff) by (nonlinear_arith)
            requires
                0 <= alpha,
                -0x7fff_ffff <= x <= 0x7fff_ffff,
        ;
    }
    let r: i64 = mult_q15(Q15ONE - alpha, m) + mult_q15(alpha, x as i32);
    if r < 0 {
        0
    } else {
        r as i32
    }
}

/// The width by smoothed powers.
fn measure_width(xx: i32, xy: i32, yy: i32, Ghost(m): Ghost<Width>) -> (r: (i32, i32))
    requires
        0 <= xx,
        0 <= xy,
        0 <= yy,
        m.xx == xx,
        m.xy == xy,
        m.yy == yy,
    ensures
        ({
            let capped = min_int(m.xy, sqrt_of(m.xx) * sqrt_of(m.yy));
            &&& r.0 == capped
            &&& r.1 == instant_width(Width { xy: capped, ..m })
        }),
        0 <= r.0,
        0 <= r.1 <= Q15ONE,
{
    let sx: i32 = celt_sqrt(xx);
    let sy: i32 = celt_sqrt(yy);
    let qx: i32 = celt_sqrt(sx);
    let qy: i32 = celt_sqrt(sy);
    proof {
        lemma_product(sx as int, sy as int, 41000, 41000);
        assert(sx * sy >= 0) by (nonlinear_arith)
            requires
                sx >= 0,
                sy >= 0,
        ;
    }
    let gm: i32 = sx * sy;
    let capped: i32 = imin(xy, gm);
    let corr: i32 = floor_div(frac_div32(capped, 1 + gm) as i64, 65536) as i32;
    let gap: i32 = if qx >= qy { qx - qy } else { qy - qx };
    proof {
        let d = 1 + qx + qy;
        assert(0 <= 32767 * gap / d <= 32767) by (nonlinear_arith)
            requires
                0 <= gap <= d,
                d >= 1,
        ;
        lemma_product(corr as int, corr as int, 32768, 32768);
        assert(corr * corr >= 0) by (nonlinear_arith);
    }
    let loud: i32 = Q15ONE * gap / (1 + qx + qy);
    let rest: i32 = celt_sqrt(imax(0, 0x4000_0000 - corr * corr));
    let apart: i32 = imin(Q15ONE, rest);
    proof {
        assert(0 <= apart * loud <= 32767 * 32767) by (nonlinear_arith)
            requires
                0 <= apart <= 32767,
                0 <= loud <= 32767,
        ;
    }
    (capped, mult_q15(apart, loud) as i32)
}

/// Estimates the width of a stereo frame, between zero and one in Q15: twenty times its
/// peak.
pub fn compute_stereo_width(pcm: &[i16], frame_size: i32, fs: i32, mem: &mut StereoWidthState) -> (r:
    i32)
    requires
        4 <= frame_size <= fs,
        2 * frame_size <= pcm@.len(),
        old(mem).wf(),
    ensures
        final(mem).wf(),
        final(mem)@ == width_after(old(mem)@, pcm@, frame_size as int, fs as int),
        r == min_int(Q15ONE as int, 20 * final(mem)@.follower),
        0 <= r <= Q15ONE,
{
    let rate: i32 = fs / frame_size;
    let alpha: i32 = 25 * Q15ONE / imax(50, rate);
    let sh: i32 = celt_ilog2(frame_size) - 2;
    let n: usize = (frame_size / 4) as usize;
    proof {
        lemma2_to64();
        lemma_ilog2(frame_size as int);
        if ilog2(frame_size as int) < 2 {
            if ilog2(frame_size as int) + 1 < 2 {
                lemma_pow2_strictly_increases((ilog2(frame_size as int) + 1) as nat, 2);
            }
        }
        lemma_width_sum(n as int, frame_size as int, sh as int);
        let d = max_int(50, rate as int);
        assert(0 <= 819175int / d <= 16383) by (nonlinear_arith)
            requires
                d >= 50,
        ;
        assert(rate >= 1) by (nonlinear_arith)
            requires
                rate == fs as int / frame_size as int,
                1 <= frame_size <= fs,
        ;
    }
    let xx: i64 = sum_products(pcm, 0, 0, n, sh);
    let xy: i64 = sum_products(pcm, 0, 1, n, sh);
    let yy: i64 = sum_products(pcm, 1, 1, n, sh);
    mem.xx = smooth_power(mem.xx, xx, alpha);
    mem.xy = smooth_product(mem.xy, xy, alpha);
    mem.yy = smooth_power(mem.yy, yy, alpha);
    let ghost m = mem@;
    if imax(mem.xx, mem.yy) > 210 {
        let (capped, width): (i32, i32) = measure_width(mem.xx, mem.xy, mem.yy, Ghost(m));
        mem.xy = capped;
        let s: i32 = mem.smoothed_width;
        proof {
            lemma_toward(s as int, width as int, rate as int);
            assert(0 <= 655int / rate as int <= 655) by (nonlinear_arith)
                requires
                    rate >= 1,
            ;
        }
        mem.smoothed_width = s + (width - s) / rate;
        mem.max_follower = imax(mem.max_follower - 655 / rate, mem.smoothed_width);
    }
    imin(Q15ONE, 20 * mem.max_follower)
}

/// A step of a fraction toward a goal stays on this side of it.
proof fn lemma_toward(s: int, goal: int, rate: int)
    requires
        0 <= s <= Q15ONE,
        0 <= goal <= Q15ONE,
        rate >= 1,
    ensures
        0 <= s + tdiv(goal - s, rate) <= Q15ONE,
{
    let d = goal - s;
    assert(d >= 0 ==> 0 <= d / rate <= d) by (nonlinear_arith)
        requires
            rate >= 1,
    ;
    assert(d < 0 ==> 0 <= (-d) / rate <= -d) by (nonlinear_arith)
        requires
            rate >= 1,
    ;
}

// ---------------------------------------------------------------------------
// What the filters and the width are for
// ---------------------------------------------------------------------------

/// The mean of a signal is followed: what is kept of it moves to each sample, never past it
/// and never away from it, so that a signal that does not change is taken out.
pub proof fn means_are_followed(m: int, xs: Seq<i16>, first: int, stride: int, sh: int, n: int)
    requires
        n >= 1,
        1 <= sh <= 30,
    ensures
        ({
            let before = dc_memory(m, xs, first, stride, sh, n - 1);
            let after = dc_memory(m, xs, first, stride, sh, n);
            let x = xs[first + stride * (n - 1)] * 16384;
            &&& before <= x ==> before <= after <= x
            &&& x <= before ==> x <= after <= before
            &&& before == x ==> dc_output(before, xs[first + stride * (n - 1)] as int) == 0
        }),
{
    let before = dc_memory(m, xs, first, stride, sh, n - 1);
    let x = xs[first + stride * (n - 1)] * 16384;
    let d = x - before;
    lemma_pow2_unfold(sh as nat);
    lemma_pow2_pos((sh - 1) as nat);
    lemma2_to64();
    let h = pow2((sh - 1) as nat) as int;
    let p = pow2(sh as nat) as int;
    let r = (d + h) / p;
    assert(d >= 0 ==> 0 <= r <= d) by (nonlinear_arith)
        requires
            r == (d + h) / p,
            p == 2 * h,
            h >= 1,
    ;
    assert(d <= 0 ==> d <= r <= 0) by (nonlinear_arith)
        requires
            r == (d + h) / p,
            p == 2 * h,
            h >= 1,
    ;
    assert(rounded_shr(0, 14) == 8192int / 16384);
}

/// Two channels that are the same have no width: what was estimated before fades.
pub proof fn equal_channels_have_no_width(m: Width, pcm: Seq<i16>, frame_size: int, fs: int)
    requires
        4 <= frame_size <= fs,
        exchanged(pcm, pcm, frame_size),
        m.xx == m.yy,
        0 <= m.smoothed,
        m.smoothed <= m.follower,
    ensures
        ({
            let w = width_after(m, pcm, frame_size, fs);
            &&& w.xx == w.yy
            &&& 0 <= w.smoothed <= m.smoothed
            &&& w.follower <= m.follower
            &&& m.smoothed == 0 && m.follower == 0 ==> w.smoothed == 0 && w.follower == 0
        }),
{
    let rate = fs / frame_size;
    let sh = ilog2(frame_size) - 2;
    let n = frame_size / 4;
    lemma_exchanged_sum(pcm, pcm, frame_size, n, sh);
    assert(rate >= 1) by (nonlinear_arith)
        requires
            rate == fs / frame_size,
            4 <= frame_size <= fs,
    ;
    let p = smoothed_powers(
        m,
        product_sum(pcm, 0, 0, n, sh),
        product_sum(pcm, 0, 1, n, sh),
        product_sum(pcm, 1, 1, n, sh),
        width_alpha(rate),
    );
    assert(p.xx == p.yy);
    let s = sqrt_of(sqrt_of(p.xx));
    assert(loudness_gap(s, s) == 0int / (1 + s + s));
    if 1 + s + s != 0 {
        assert(0int / (1 + s + s) == 0) by (nonlinear_arith)
            requires
                1 + s + s != 0,
        ;
    }
    let t = m.smoothed;
    assert(0 <= t / rate <= t) by (nonlinear_arith)
        requires
            rate >= 1,
            t >= 0,
    ;
    assert(0 <= 655int / rate) by (nonlinear_arith)
        requires
            rate >= 1,
    ;
    let z = min_int(
        Q15ONE as int,
        sqrt_of(
            max_int(
                0,
                0x4000_0000 - (quotient(
                    min_int(p.xy, sqrt_of(p.xx) * sqrt_of(p.yy)),
                    1 + sqrt_of(p.xx) * sqrt_of(p.yy),
                ) / 65536) * (quotient(
                    min_int(p.xy, sqrt_of(p.xx) * sqrt_of(p.yy)),
                    1 + sqrt_of(p.xx) * sqrt_of(p.yy),
                ) / 65536),
            ),
        ),
    );
    assert(q15(z, 0) == 0) by {
        assert(z * 0 == 0);
    }
}

} // verus!
