//! Packets of several frames: how a long frame is split, what each part may take, and how
//! the parts are joined.

use vstd::prelude::*;
use crate::arith::{imin, min_int, tdiv};
use crate::coders::{AnalysisCursor, SilkEncControlStruct};
use crate::codes::{OPUS_INTERNAL_ERROR, OPUS_INVALID_PACKET, OPUS_OK};
use crate::dsp::{is_digital_silence, silent};
use crate::encoder::OpusEncoder;
use crate::extension_gen::overwritten;
use crate::extension_iter::{items, Item, OpusExtensionData};
use crate::modes::MODE_SILK_ONLY;
use crate::packet::{layout, lemma_layout};
use crate::padding::nothing_held;
use crate::plan::{frame_domain, lemma_frame_samples, FramePlan, MAX_PACKET_BYTES};
use crate::rates::{bitrate_to_bits, bits_of};
use crate::repacketizer::{held_pad, Held, OpusRepacketizer, COUNTED_PADDING};

verus! {

/// How a long frame is split.
pub struct Split {
    /// Samples a channel of each part.
    pub frame_size: i32,
    pub nb_frames: i32,
    /// Bytes that the packet may take.
    pub max_data_bytes: i32,
    /// Bytes that the parts may take as packets of their own.
    pub max_len_sum: i32,
    /// Bytes that are kept for redundancy.
    pub dred_bytes: i32,
    /// Whether the packet leads over to one channel.
    pub to_mono: i32,
}

/// The size of the parts: 80 ms of speech are two frames of 40 ms, and 120 ms two of 60 ms;
/// everything else goes in frames of 20 ms.
pub open spec fn part_size(mode: int, fs: int, n: int) -> int {
    if mode == MODE_SILK_ONLY && n == 2 * fs / 25 {
        2 * fs / 50
    } else if mode == MODE_SILK_ONLY && n == 3 * fs / 25 {
        3 * fs / 50
    } else {
        fs / 50
    }
}

/// Bytes that the head of a packet of several frames takes at most.
pub open spec fn head_bytes(nb_frames: int) -> int {
    if nb_frames == 2 {
        3
    } else {
        2 + (nb_frames - 1) * 2
    }
}

/// How long the parts are.
pub open spec fn lengths(packets: Seq<Vec<u8>>) -> Seq<int> {
    Seq::new(packets.len(), |i: int| packets[i]@.len() as int)
}

/// Bytes that the first `k` parts took.
pub open spec fn taken(lens: Seq<int>, k: int) -> int
    decreases k,
{
    if k <= 0 {
        0
    } else {
        taken(lens, k - 1) + lens[k - 1]
    }
}

/// How many of the first `k` parts were left out: those of one byte.
pub open spec fn left_out(lens: Seq<int>, k: int) -> int
    decreases k,
{
    if k <= 0 {
        0
    } else {
        left_out(lens, k - 1) + if lens[k - 1] == 1 {
            1int
        } else {
            0
        }
    }
}

/// Bytes that the parts took, and how many of them were left out.
fn count_parts(packets: &Vec<Vec<u8>>) -> (r: (i32, i32))
    requires
        packets@.len() <= 6,
        forall|i: int|
            0 <= i < packets@.len() ==> (#[trigger] packets@[i])@.len() <= MAX_PACKET_BYTES,
    ensures
        r.0 == taken(lengths(packets@), packets@.len() as int),
        r.1 == left_out(lengths(packets@), packets@.len() as int),
        0 <= r.0 <= packets@.len() * MAX_PACKET_BYTES,
        0 <= r.1 <= packets@.len(),
{
    let mut total: i32 = 0;
    let mut none: i32 = 0;
    let mut i: usize = 0;
    while i < packets.len()
        invariant
            i <= packets@.len() <= 6,
            total == taken(lengths(packets@), i as int),
            none == left_out(lengths(packets@), i as int),
            0 <= total <= i * MAX_PACKET_BYTES,
            0 <= none <= i,
            forall|i: int|
                0 <= i < packets@.len() ==> (#[trigger] packets@[i])@.len() <= MAX_PACKET_BYTES,
        decreases packets@.len() - i,
    {
        let len: usize = packets[i].len();
        assert(lengths(packets@)[i as int] == len);
        total = total + len as i32;
        if len == 1 {
            none = none + 1;
        }
        i = i + 1;
    }
    (total, none)
}

impl OpusEncoder {
    /// How a frame of `n` samples a channel is split.
    pub open spec fn split_of(&self, n: int, plan: FramePlan) -> Split {
        let size = part_size(self.mode as int, self.fs as int, n);
        let count = n / size;
        Split {
            frame_size: size as i32,
            nb_frames: count as i32,
            max_data_bytes: plan.max_data_bytes,
            max_len_sum: (count + plan.max_data_bytes - head_bytes(count)) as i32,
            dred_bytes: (bits_of(plan.dred_bitrate_bps as int, self.fs as int, n) / 8) as i32,
            to_mono: self.silk_mode.to_mono,
        }
    }

    /// The encoder once a frame was split: the analysis is read from where it was read before,
    /// and speech that is on its way to one channel gets there with the parts.
    pub open spec fn split_from(self, rewind: Option<(i32, i32)>) -> OpusEncoder {
        OpusEncoder {
            analysis: match rewind {
                Some((pos, sub)) => AnalysisCursor {
                    read_pos: pos,
                    read_subframe: sub,
                    ..self.analysis
                },
                None => self.analysis,
            },
            force_channels: if self.silk_mode.to_mono != 0 {
                1
            } else {
                self.force_channels
            },
            prev_channels: if self.silk_mode.to_mono != 0 {
                self.prev_channels
            } else {
                self.stream_channels
            },
            ..self
        }
    }

    /// Splits a frame that is too long for its mode. `rewind` is where the analysis stood
    /// before it saw the frame, where it did: it is asked again for each part.
    pub fn split_frame(
        &mut self,
        frame_size: i32,
        plan: &FramePlan,
        rewind: Option<(i32, i32)>,
    ) -> (r: Result<Split, i32>)
        requires
            old(self).wf(),
            frame_domain(old(self).fs as int, frame_size as int),
            1 <= plan.max_data_bytes <= MAX_PACKET_BYTES,
            0 <= plan.dred_bitrate_bps <= 835600,
        ensures
            final(self).wf(),
            ({
                let size = part_size(old(self).mode as int, old(self).fs as int, frame_size as int);
                if frame_size < size {
                    &&& r == Err::<Split, i32>(OPUS_INTERNAL_ERROR)
                    &&& *final(self) == *old(self)
                } else {
                    &&& r == Ok::<Split, i32>(old(self).split_of(frame_size as int, *plan))
                    &&& *final(self) == old(self).split_from(rewind)
                }
            }),
            r matches Ok(s) ==> 1 <= s.nb_frames <= 6 && 1 <= s.frame_size <= frame_size && (
            frame_domain(old(self).fs as int, s.frame_size as int)) && s.nb_frames * s.frame_size
                <= frame_size && 0 <= s.dred_bytes <= 12700,
    {
        let n: i32 = frame_size;
        let fs: i32 = self.fs;
        let size: i32 = if self.mode == MODE_SILK_ONLY && n == 2 * fs / 25 {
            2 * fs / 50
        } else if self.mode == MODE_SILK_ONLY && n == 3 * fs / 25 {
            3 * fs / 50
        } else {
            fs / 50
        };
        let count: i32 = n / size;
        if count < 1 {
            proof {
                let (a, b) = (n as int, size as int);
                assert(a < b) by (nonlinear_arith)
                    requires
                        a / b < 1,
                        a >= 0,
                        b > 0,
                ;
            }
            return Err(OPUS_INTERNAL_ERROR);
        }
        proof {
            let (a, b) = (n as int, size as int);
            assert(1 <= a / b <= 6 && (a / b) * b <= a && a >= b) by (nonlinear_arith)
                requires
                    a / b >= 1,
                    a <= 6 * b,
                    a >= 0,
                    b > 0,
            ;
            lemma_frame_samples(self.fs as int, n as int, 1);
            let (d, q) = (plan.dred_bitrate_bps as int, 6 * self.fs as int / n as int);
            assert(0 <= tdiv(d * 6, q) <= 101000) by (nonlinear_arith)
                requires
                    0 <= d <= 835600,
                    q >= 50,
            ;
        }
        if let Some((pos, sub)) = rewind {
            self.analysis.read_pos = pos;
            self.analysis.read_subframe = sub;
        }
        if self.silk_mode.to_mono != 0 {
            self.force_channels = 1;
        } else {
            self.prev_channels = self.stream_channels;
        }
        let head: i32 = if count == 2 { 3 } else { 2 + (count - 1) * 2 };
        Ok(
            Split {
                frame_size: size,
                nb_frames: count,
                max_data_bytes: plan.max_data_bytes,
                max_len_sum: count + plan.max_data_bytes - head,
                dred_bytes: bitrate_to_bits(plan.dred_bitrate_bps, self.fs, n) / 8,
                to_mono: self.silk_mode.to_mono,
            },
        )
    }

    /// Bytes that each part may take, without redundancy.
    pub open spec fn share(&self, split: Split) -> int {
        min_int(
            min_int(
                tdiv(bits_of(self.bitrate_bps as int, self.fs as int, split.frame_size as int), 8),
                tdiv(split.max_len_sum as int, split.nb_frames as int),
            ),
            tdiv(split.max_len_sum - split.dred_bytes, split.nb_frames as int),
        )
    }

    /// Bytes that part `i` may take when the parts before it took `tot_size` bytes and
    /// `dtx_count` of them were left out. Redundancy goes with the first part that is not
    /// left out.
    pub open spec fn part_bytes(&self, split: Split, i: int, tot_size: int, dtx_count: int) -> int {
        let each = self.share(split);
        min_int(
            split.max_len_sum - tot_size,
            if i == 0 || i == dtx_count {
                each + split.dred_bytes
            } else {
                each
            },
        )
    }

    /// How part `i` is to be coded. A short frame comes along with the last part where the
    /// packet leads to music, and with the first where it leads to speech.
    pub open spec fn part_plan(
        &self,
        split: Split,
        plan: FramePlan,
        i: int,
        tot_size: int,
        dtx_count: int,
        pcm: Seq<i16>,
    ) -> FramePlan {
        let last = i == split.nb_frames - 1;
        let n = split.frame_size * self.channels;
        FramePlan {
            max_data_bytes: self.part_bytes(split, i, tot_size, dtx_count) as i32,
            is_silence: silent(pcm.skip(i * n), n),
            to_celt: plan.to_celt && last,
            redundancy: plan.redundancy && ((plan.to_celt && last) || (!plan.to_celt && i == 0)),
            ..plan
        }
    }

    /// Plans the next part of a packet, behind those that `packets` holds.
    pub fn plan_part(
        &mut self,
        split: &Split,
        plan: &FramePlan,
        packets: &Vec<Vec<u8>>,
        pcm: &[i16],
    ) -> (r: FramePlan)
        requires
            old(self).wf(),
            packets@.len() < split.nb_frames <= 6,
            forall|i: int|
                0 <= i < packets@.len() ==> (#[trigger] packets@[i])@.len() <= MAX_PACKET_BYTES,
            frame_domain(old(self).fs as int, split.frame_size as int),
            -20 <= split.max_len_sum <= 2 * MAX_PACKET_BYTES,
            0 <= split.dred_bytes <= 12700,
            (packets@.len() + 1) * (split.frame_size * old(self).channels) <= pcm@.len(),
        ensures
            final(self).wf(),
            ({
                let i = packets@.len() as int;
                let dtx_count = left_out(lengths(packets@), i);
                &&& r == old(self).part_plan(
                    *split,
                    *plan,
                    i,
                    taken(lengths(packets@), i),
                    dtx_count,
                    pcm@,
                )
                &&& *final(self) == (OpusEncoder {
                    silk_mode: SilkEncControlStruct { to_mono: 0, ..old(self).silk_mode },
                    nonfinal_frame: if i < split.nb_frames - 1 {
                        1
                    } else {
                        0
                    },
                    first_frame_flag: i == 0 || i == dtx_count,
                    ..*old(self)
                })
            }),
    {
        let i: i32 = packets.len() as i32;
        let (tot_size, dtx_count) = count_parts(packets);
        let last = i == split.nb_frames - 1;
        let first = i == 0 || i == dtx_count;
        let to_celt = plan.to_celt && last;
        proof {
            lemma_frame_samples(self.fs as int, split.frame_size as int, self.channels as int);
            let (b, q) = (self.bitrate_bps as int, 6 * self.fs as int / split.frame_size as int);
            assert(-120000 <= tdiv(b * 6, q) <= 240000) by (nonlinear_arith)
                requires
                    -1000000 <= b <= 2000000,
                    q >= 50,
            ;
            let (m, d, c) = (
                split.max_len_sum as int,
                split.max_len_sum - split.dred_bytes,
                split.nb_frames as int,
            );
            assert(-20 <= tdiv(m, c) <= 15312 && -12720 <= tdiv(d, c) <= 15312)
                by (nonlinear_arith)
                requires
                    1 <= c,
                    -20 <= m <= 15312,
                    -12720 <= d <= 15312,
            ;
        }
        self.silk_mode.to_mono = 0;
        self.nonfinal_frame = if last { 0 } else { 1 };
        let mut most: i32 = imin(
            bitrate_to_bits(self.bitrate_bps, self.fs, split.frame_size) / 8,
            split.max_len_sum / split.nb_frames,
        );
        most = imin(most, (split.max_len_sum - split.dred_bytes) / split.nb_frames);
        if first {
            most = most + split.dred_bytes;
        }
        most = imin(split.max_len_sum - tot_size, most);
        let n: usize = split.frame_size as usize * self.channels as usize;
        proof {
            let (a, b) = (i as int, n as int);
            assert(0 <= a * b && a * b + b == (a + 1) * b && a * b <= 6 * 11520)
                by (nonlinear_arith)
                requires
                    0 <= a <= 6,
                    0 <= b <= 11520,
            ;
        }
        let from: usize = i as usize * n;
        let part = &pcm[from..from + n];
        let quiet = is_digital_silence(part, split.frame_size, self.channels, plan.lsb_depth);
        proof {
            let rest = pcm@.skip(i * n);
            assert forall|j: int| 0 <= j < n implies rest[j] == part@[j] by {}
        }
        self.first_frame_flag = first;
        FramePlan {
            max_data_bytes: most,
            lsb_depth: plan.lsb_depth,
            dred_bitrate_bps: plan.dred_bitrate_bps,
            is_silence: quiet,
            redundancy: plan.redundancy && (to_celt || (!plan.to_celt && i == 0)),
            celt_to_silk: plan.celt_to_silk,
            to_celt,
            prefill: plan.prefill,
            equiv_rate: plan.equiv_rate,
        }
    }
}

// ---------------------------------------------------------------------------
// Joining
// ---------------------------------------------------------------------------

/// The frames of the first `k` packets, where they go together.
pub open spec fn gathered(packets: Seq<Vec<u8>>, k: int) -> Option<Held>
    decreases k,
{
    if k <= 0 {
        Some(nothing_held())
    } else {
        match gathered(packets, k - 1) {
            None => None,
            Some(held) => {
                let s = packets[k - 1]@;
                if held.accepts(s, false) {
                    Some(held.with(s, layout(s, false).unwrap()))
                } else {
                    None
                }
            },
        }
    }
}

/// The packets joined: the number of bytes, or the error; and what is written by then.
pub open spec fn joined_packets(packets: Seq<Vec<u8>>, max: int, pad: bool) -> (int, Seq<u8>) {
    match gathered(packets, packets.len() as int) {
        None => (OPUS_INVALID_PACKET as int, Seq::empty()),
        Some(held) => held.out(0, packets.len() as int, Seq::empty(), max, false, pad),
    }
}

proof fn lemma_gathered(packets: Seq<Vec<u8>>, j: int, k: int)
    requires
        0 <= j <= k,
        gathered(packets, j) is None,
    ensures
        gathered(packets, k) is None,
    decreases k,
{
    if j < k {
        lemma_gathered(packets, j, k - 1);
    }
}

impl OpusEncoder {
    /// Joins the parts of a packet. Where packets have one size, the packet is filled up
    /// unless all of its parts were left out.
    pub fn join_parts(
        &mut self,
        split: &Split,
        packets: &Vec<Vec<u8>>,
        data: &mut [u8],
    ) -> (r: Result<i32, i32>)
        requires
            old(self).wf(),
            packets@.len() == split.nb_frames,
            1 <= split.nb_frames <= 6,
            forall|i: int|
                0 <= i < packets@.len() ==> (#[trigger] packets@[i])@.len() <= MAX_PACKET_BYTES,
            0 <= split.max_data_bytes <= old(data)@.len(),
        ensures
            final(self).wf(),
            ({
                let x = joined_packets(
                    packets@,
                    split.max_data_bytes as int,
                    old(self).use_vbr == 0 && left_out(lengths(packets@), packets@.len() as int)
                        != packets@.len(),
                );
                &&& final(data)@ == overwritten(x.1, old(data)@)
                &&& r == if x.0 < 0 {
                    Err::<i32, i32>(x.0 as i32)
                } else {
                    Ok::<i32, i32>(x.0 as i32)
                }
                &&& *final(self) == (OpusEncoder {
                    nonfinal_frame: 0,
                    first_frame_flag: true,
                    silk_mode: if x.0 < 0 {
                        old(self).silk_mode
                    } else {
                        SilkEncControlStruct { to_mono: split.to_mono, ..old(self).silk_mode }
                    },
                    ..*old(self)
                })
            }),
    {
        self.nonfinal_frame = 0;
        self.first_frame_flag = true;
        let n: usize = packets.len();
        let mut rp = OpusRepacketizer::new();
        let mut i: usize = 0;
        while i < n
            invariant
                i <= n,
                n == packets@.len(),
                rp.wf(),
                gathered(packets@, i as int) == Some(rp@),
                forall|i: int|
                    0 <= i < packets@.len() ==> (#[trigger] packets@[i])@.len() <= MAX_PACKET_BYTES,
                rp@.small_pads(),
                data@ == old(data)@,
                *self == (OpusEncoder {
                    nonfinal_frame: 0,
                    first_frame_flag: true,
                    ..*old(self)
                }),
                old(self).wf(),
            decreases n - i,
        {
            let len: usize = packets[i].len();
            proof {
                assert(packets@[i as int]@.take(len as int) =~= packets@[i as int]@);
            }
            let ghost before = rp@;
            let ret: i32 = rp.cat(&packets[i], len as i32);
            proof {
                let s = packets@[i as int]@;
                if let Some(l) = layout(s, false) {
                    lemma_layout(s, false);
                    let after = before.with(s, l);
                    assert forall|k: int| 0 <= k < after.pads.len() implies (
                    #[trigger] after.pads[k]).len <= COUNTED_PADDING by {
                        if k < before.pads.len() {
                            assert(after.pads[k] == before.pads[k]);
                        } else {
                            assert(after.pads[k] == held_pad(s, l, k - before.pads.len()));
                        }
                    }
                }
            }
            if ret != OPUS_OK {
                proof {
                    assert(gathered(packets@, i + 1) is None);
                    lemma_gathered(packets@, i + 1, n as int);
                    assert(overwritten(Seq::empty(), old(data)@) =~= old(data)@);
                }
                return Err(ret);
            }
            i += 1;
        }
        let (_, dtx_count) = count_parts(packets);
        let pad = self.use_vbr == 0 && dtx_count != split.nb_frames;
        let none: [OpusExtensionData; 0] = [];
        proof {
            assert(items(none@) =~= Seq::<Item>::empty());
        }
        let ret: i32 = rp.out_range_impl(0, n, data, split.max_data_bytes, false, pad, &none);
        if ret < 0 {
            return Err(ret);
        }
        self.silk_mode.to_mono = split.to_mono;
        Ok(ret)
    }
}

} // verus!
