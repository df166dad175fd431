//! What is decided once a frame's bits are written: whether it is sent, how long it is, and
//! what fills up its packet.

use vstd::prelude::*;
use crate::arith::{imin, min_int, tdiv};
use crate::bare::{duration48, lemma_no_items, lemma_toc_code};
use crate::codes::{OPUS_BUFFER_TOO_SMALL, OPUS_INTERNAL_ERROR, OPUS_OK};
use crate::dred::{
    DRED_EXPERIMENTAL_BYTES, DRED_EXTENSION_ID, DRED_MAX_CHUNKS, DRED_MAX_DATA_SIZE, DRED_MIN_BYTES,
};
use crate::encoder::OpusEncoder;
use crate::extension_gen::{generated, one_extension, overwritten};
use crate::extension_iter::{items, Item, OpusExtensionData};
use crate::frame::{FrameRun, MAX_SINGLE_BYTES};
use crate::modes::{MODE_CELT_ONLY, MODE_HYBRID, MODE_SILK_ONLY};
use crate::packet::{layout, samples_per_frame, total};
use crate::packing::{counted_len, joined, lemma_amount, lemma_amount_len, packed, pad_amount, same_size};
use crate::padding::{
    lemma_repacked_fits, nothing_held, opus_packet_pad, opus_packet_pad_impl, padding_items, padding_succeeds, repacked,
    repacking_keeps_frames,
};
use crate::plan::{frame_domain, lemma_frame_samples, MAX_PACKET_BYTES};
use crate::repacketizer::held_pad;
use crate::rates::{
    codable, decide_dtx_mode, dtx_end, dtx_start, gen_toc, inactive_for, toc_byte,
    toc_tells_duration,
};

verus! {

/// What the coders report when they are done with a frame.
pub struct FrameEnd {
    /// Bytes that were written behind the first one.
    pub bytes: i32,
    /// The final state of the range coder, and that of the short frame, or zero.
    pub main_rng: u32,
    pub redundant_rng: u32,
    /// Bits that were written.
    pub bits_used: i32,
}

/// How many of the first `n` bytes of a frame stay when zeros are taken off its end, as long
/// as two bytes stay.
pub open spec fn stripped(data: Seq<u8>, n: int) -> int
    decreases n,
{
    if n > 2 && data[n] == 0 {
        stripped(data, n - 1)
    } else {
        n
    }
}

/// How a frame ends.
#[derive(Clone, Copy, Debug, PartialEq, Eq)]
pub enum Ending {
    /// It is left out: the packet is its first byte.
    LeftOut,
    /// It is sent: the packet has this many bytes as yet.
    Sent(i32),
}

impl OpusEncoder {
    /// Half milliseconds of a frame.
    pub open spec fn half_ms(&self, n: int) -> int {
        2000 * n / self.fs as int
    }

    /// The first byte of the packet of a frame.
    pub open spec fn first_byte(&self, run: FrameRun) -> u8 {
        toc_byte(
            self.mode as int,
            self.fs as int / run.frame_size as int,
            run.bandwidth as int,
            self.stream_channels as int,
        )
    }

    /// Half milliseconds without activity, with this frame. They count only where the
    /// encoder is to leave frames out and the speech coder does not.
    pub open spec fn inactive_with(&self, run: FrameRun) -> int {
        if self.use_dtx != 0 && self.silk_mode.use_dtx == 0 {
            inactive_for(
                run.activity as int,
                self.nb_no_activity_ms_q1 as int,
                self.half_ms(run.frame_size as int),
            )
        } else {
            0
        }
    }

    /// Whether a frame is left out: nothing was said for some time, and not for too long.
    pub open spec fn omits(&self, run: FrameRun) -> bool {
        self.use_dtx != 0 && self.silk_mode.use_dtx == 0 && dtx_start() < self.inactive_with(run)
            <= dtx_end()
    }

    /// Whether more bits were written than there is room for.
    pub open spec fn overran(run: FrameRun, end: FrameEnd) -> bool {
        end.bits_used > (run.max_data_bytes - 1) * 8
    }

    /// Bytes of the packet: those of the frame, the first byte, and those of a short frame.
    /// A frame that took too many bits is sent as one byte, to be concealed. A speech frame
    /// goes without the zeros at its end.
    pub open spec fn packet_bytes(&self, run: FrameRun, end: FrameEnd, data: Seq<u8>) -> int {
        let n = if OpusEncoder::overran(run, end) {
            1
        } else if self.mode == MODE_SILK_ONLY && !run.redundancy {
            stripped(data, end.bytes as int)
        } else {
            end.bytes as int
        };
        1 + n + if run.redundancy {
            run.redundancy_bytes as int
        } else {
            0
        }
    }

    /// The encoder once a frame has ended.
    pub open spec fn ended(self, run: FrameRun, end: FrameEnd) -> OpusEncoder {
        let n = self.inactive_with(run);
        OpusEncoder {
            prev_mode: if run.to_celt {
                MODE_CELT_ONLY
            } else {
                self.mode
            },
            prev_channels: self.stream_channels,
            prev_framesize: run.frame_size,
            first: 0,
            nb_no_activity_ms_q1: (if n > dtx_end() {
                dtx_start()
            } else {
                n
            }) as i32,
            range_final: if self.omits(run) || (OpusEncoder::overran(run, end)
                && run.max_data_bytes >= 2) {
                0
            } else {
                end.main_rng ^ end.redundant_rng
            },
            ..self
        }
    }

    /// Ends a frame: `data` holds what the coders wrote, behind room for the first byte.
    /// Returns whether it is sent, and how many bytes the packet has then.
    pub fn end_frame(&mut self, run: &FrameRun, end: &FrameEnd, data: &mut [u8]) -> (r: Result<
        Ending,
        i32,
    >)
        requires
            old(self).wf(),
            frame_domain(old(self).fs as int, run.frame_size as int),
            1 <= run.max_data_bytes <= MAX_SINGLE_BYTES,
            run.max_data_bytes <= old(data)@.len(),
            0 <= run.redundancy_bytes <= 257,
            0 <= end.bytes < old(data)@.len(),
            end.bytes <= MAX_PACKET_BYTES,
        ensures
            final(self).wf(),
            final(data)@.len() == old(data)@.len(),
            final(data)@[0] % 4 == 0,
            *final(self) == old(self).ended(*run, *end),
            ({
                let omits = old(self).omits(*run);
                let overran = OpusEncoder::overran(*run, *end);
                if omits {
                    &&& r == Ok::<Ending, i32>(Ending::LeftOut)
                    &&& final(data)@ == old(data)@.update(0, old(self).first_byte(*run))
                } else if overran && run.max_data_bytes < 2 {
                    &&& r == Err::<Ending, i32>(OPUS_BUFFER_TOO_SMALL)
                    &&& final(data)@ == old(data)@.update(0, old(self).first_byte(*run))
                } else {
                    &&& r == Ok::<Ending, i32>(
                        Ending::Sent(old(self).packet_bytes(*run, *end, old(data)@) as i32),
                    )
                    &&& 1 <= old(self).packet_bytes(*run, *end, old(data)@) <= i32::MAX
                    &&& final(data)@ == if overran {
                        old(data)@.update(0, old(self).first_byte(*run)).update(1, 0)
                    } else {
                        old(data)@.update(0, old(self).first_byte(*run))
                    }
                }
            }),
    {
        proof {
            lemma_frame_samples(self.fs as int, run.frame_size as int, 1);
            let (n, fs) = (run.frame_size as int, self.fs as int);
            assert(0 <= 2000 * n / fs <= 240) by (nonlinear_arith)
                requires
                    fs > 0,
                    0 <= n,
                    50 * n <= 6 * fs,
            ;
            lemma_toc_code(
                self.mode as int,
                fs / n,
                run.bandwidth as int,
                self.stream_channels as int,
                0,
            );
        }
        data[0] = gen_toc(
            self.mode,
            self.fs / run.frame_size,
            run.bandwidth,
            self.stream_channels,
        );
        self.range_final = end.main_rng ^ end.redundant_rng;
        self.update_state(run.to_celt, run.frame_size);
        if self.use_dtx != 0 && self.silk_mode.use_dtx == 0 {
            let half_ms: i32 = 2000 * run.frame_size / self.fs;
            if decide_dtx_mode(run.activity, &mut self.nb_no_activity_ms_q1, half_ms) {
                self.range_final = 0;
                return Ok(Ending::LeftOut);
            }
        } else {
            self.nb_no_activity_ms_q1 = 0;
        }
        let mut n: i32 = end.bytes;
        if end.bits_used > (run.max_data_bytes - 1) * 8 {
            if run.max_data_bytes < 2 {
                return Err(OPUS_BUFFER_TOO_SMALL);
            }
            data[1] = 0;
            n = 1;
            self.range_final = 0;
        } else if self.mode == MODE_SILK_ONLY && !run.redundancy {
            while n > 2 && data[n as usize] == 0
                invariant
                    0 <= n <= end.bytes,
                    end.bytes < data@.len(),
                    forall|i: int| 1 <= i < data@.len() ==> data@[i] == old(data)@[i],
                    data@.len() == old(data)@.len(),
                    stripped(old(data)@, end.bytes as int) == stripped(old(data)@, n as int),
                decreases n,
            {
                n = n - 1;
            }
        }
        n = n + 1;
        if run.redundancy {
            n = n + run.redundancy_bytes;
        }
        Ok(Ending::Sent(n))
    }
}

// ---------------------------------------------------------------------------
// The short frame
// ---------------------------------------------------------------------------

/// Bytes with others in place of those from `at` on.
pub open spec fn placed(data: Seq<u8>, at: int, bytes: Seq<u8>) -> Seq<u8> {
    data.take(at) + bytes + data.skip(at + bytes.len())
}

impl OpusEncoder {
    /// Where the bytes of a short frame go: behind the main frame, which in hybrid mode can
    /// have become shorter than it might.
    pub open spec fn short_frame_at(&self, main_bytes: int, written: int) -> int {
        1 + if self.mode == MODE_HYBRID {
            written
        } else {
            main_bytes
        }
    }

    /// Whether a short frame of `bytes` bytes fits behind the main frame in a packet that has
    /// room for `len`.
    pub fn fits_short_frame(&self, len: usize, main_bytes: i32, written: i32, bytes: i32) -> (r: bool)
        requires
            0 <= main_bytes <= MAX_PACKET_BYTES,
            0 <= written <= MAX_PACKET_BYTES,
            0 <= bytes <= 257,
        ensures
            r <==> self.short_frame_at(main_bytes as int, written as int) + bytes <= len,
    {
        let at: usize = 1 + if self.mode == MODE_HYBRID { written as usize } else { main_bytes as usize };
        at + bytes as usize <= len
    }

    /// Puts a short frame behind the main frame, where there is room for it. `main_bytes`
    /// is what the main frame could take, and `written` what it took.
    pub fn place_short_frame(
        &self,
        data: &mut [u8],
        main_bytes: i32,
        written: i32,
        frame: &[u8],
    )
        requires
            0 <= main_bytes <= MAX_PACKET_BYTES,
            0 <= written <= MAX_PACKET_BYTES,
            frame@.len() <= 257,
        ensures
            ({
                let at = self.short_frame_at(main_bytes as int, written as int);
                final(data)@ == if at + frame@.len() <= old(data)@.len() {
                    placed(old(data)@, at, frame@)
                } else {
                    old(data)@
                }
            }),
    {
        let at: usize = 1 + if self.mode == MODE_HYBRID { written as usize } else { main_bytes as usize };
        let n: usize = frame.len();
        let len: usize = data.len();
        if at + n <= len {
            let mut i: usize = 0;
            while i < n
                invariant
                    i <= n,
                    n == frame@.len(),
                    n <= 257,
                    at <= 7657,
                    at + n <= data@.len(),
                    data@.len() == old(data)@.len(),
                    forall|j: int|
                        0 <= j < data@.len() ==> #[trigger] data@[j] == if at <= j < at + i {
                            frame@[j - at]
                        } else {
                            old(data)@[j]
                        },
                decreases n - i,
            {
                data[at + i] = frame[i];
                i += 1;
            }
            proof {
                assert(data@ =~= placed(old(data)@, at as int, frame@));
            }
        }
    }
}

// ---------------------------------------------------------------------------
// Redundancy
// ---------------------------------------------------------------------------

/// What redundancy may take: chunks, and bytes.
pub struct DredRoom {
    pub chunks: i32,
    pub bytes: i32,
}

impl OpusEncoder {
    /// Chunks that redundancy may have: as many as its duration asks for, and where packets
    /// vary in size, no more than it pays for.
    pub open spec fn dred_chunks(&self) -> int {
        let chunks = min_int(tdiv(self.dred_duration + 5, 4), DRED_MAX_CHUNKS as int);
        if self.use_vbr != 0 {
            min_int(chunks, self.dred_target_chunks as int)
        } else {
            chunks
        }
    }

    /// Bytes that are left for redundancy behind `len` bytes of a packet: three go to the
    /// packet's head and the extension's, and one for each 255 to the length of padding.
    pub open spec fn dred_bytes_left(run: FrameRun, len: int) -> int {
        let left = min_int(DRED_MAX_DATA_SIZE as int, run.orig_max_data_bytes - len - 3);
        left - tdiv(left + 1 + DRED_EXPERIMENTAL_BYTES, 255)
    }

    /// Whether the packet of a frame carries redundancy: the first frame of a packet does,
    /// where there is room for a chunk.
    pub open spec fn carries_dred(&self, run: FrameRun, len: int) -> bool {
        &&& self.first_frame_flag
        &&& self.has_dred()
        &&& self.dred_chunks() >= 1
        &&& OpusEncoder::dred_bytes_left(run, len) >= DRED_MIN_BYTES + DRED_EXPERIMENTAL_BYTES
    }

    /// What redundancy may take behind `len` bytes of a packet.
    pub fn dred_room(&self, run: &FrameRun, len: i32) -> (r: Option<DredRoom>)
        requires
            self.wf(),
            0 <= run.orig_max_data_bytes <= MAX_PACKET_BYTES,
            0 <= len <= 2 * MAX_PACKET_BYTES,
        ensures
            r is Some <==> self.carries_dred(*run, len as int),
            r matches Some(x) ==> x.chunks == self.dred_chunks() && x.bytes
                == OpusEncoder::dred_bytes_left(*run, len as int) - DRED_EXPERIMENTAL_BYTES,
    {
        if !self.first_frame_flag || !self.uses_dred() {
            return None;
        }
        let mut chunks: i32 = imin((self.dred_duration + 5) / 4, DRED_MAX_CHUNKS);
        if self.use_vbr != 0 {
            chunks = imin(chunks, self.dred_target_chunks);
        }
        let mut left: i32 = imin(DRED_MAX_DATA_SIZE, run.orig_max_data_bytes - len - 3);
        left = left - (left + 1 + DRED_EXPERIMENTAL_BYTES) / 255;
        if chunks >= 1 && left >= DRED_MIN_BYTES + DRED_EXPERIMENTAL_BYTES {
            Some(DredRoom { chunks, bytes: left - DRED_EXPERIMENTAL_BYTES })
        } else {
            None
        }
    }

    /// The extension that carries redundancy: a letter and a version go before it.
    pub open spec fn dred_item(version: u8, payload: Seq<u8>) -> Item {
        Item {
            id: DRED_EXTENSION_ID as int,
            frame: 0,
            len: payload.len() + DRED_EXPERIMENTAL_BYTES,
            data: seq![68u8, version] + payload,
        }
    }

    /// Adds redundancy to the packet `data[..len]`. Where packets have one size, the packet
    /// is filled up.
    pub fn attach_dred(
        &self,
        run: &FrameRun,
        data: &mut [u8],
        len: i32,
        version: u8,
        payload: &[u8],
    ) -> (r: Result<i32, i32>)
        requires
            1 <= len < run.orig_max_data_bytes,
            run.orig_max_data_bytes <= old(data)@.len(),
            old(data)@[0] % 4 == 0,
            payload@.len() <= DRED_MAX_DATA_SIZE,
        ensures
            ({
                let x = repacked(
                    old(data)@.take(len as int),
                    seq![OpusEncoder::dred_item(version, payload@)],
                    run.orig_max_data_bytes as int,
                    self.use_vbr == 0,
                );
                &&& final(data)@ == overwritten(x.1, old(data)@)
                &&& r == if x.0 < 0 {
                    Err::<i32, i32>(OPUS_INTERNAL_ERROR)
                } else {
                    Ok::<i32, i32>(x.0 as i32)
                }
            }),
    {
        let mut bytes: Vec<u8> = Vec::new();
        bytes.push(68);
        bytes.push(version);
        bytes.extend_from_slice(payload);
        let n: i32 = bytes.len() as i32;
        let ext = OpusExtensionData { id: DRED_EXTENSION_ID, frame: 0, data: &bytes, len: n };
        let exts = [ext];
        let ghost s = data@.take(len as int);
        proof {
            assert(bytes@ =~= seq![68u8, version] + payload@);
            assert(items(exts@) =~= seq![OpusEncoder::dred_item(version, payload@)]);
            lemma_plain_packet(s);
            lemma_repacked_fits(
                s,
                items(exts@),
                run.orig_max_data_bytes as int,
                self.use_vbr == 0,
            );
        }
        let ret: i32 = opus_packet_pad_impl(
            data,
            len,
            run.orig_max_data_bytes,
            self.use_vbr == 0,
            &exts,
        );
        if ret < 0 {
            Err(OPUS_INTERNAL_ERROR)
        } else {
            Ok(ret)
        }
    }

    /// Bytes of the packet of a frame: one where it is left out; else those that were coded,
    /// filled up where packets have one size.
    pub open spec fn sent_bytes(&self, run: FrameRun, ending: Ending) -> int {
        match ending {
            Ending::LeftOut => 1,
            Ending::Sent(len) => if self.use_vbr == 0 && len < run.orig_max_data_bytes {
                run.orig_max_data_bytes as int
            } else {
                len as int
            },
        }
    }

    /// Fills the packet `data[..len]` up, where packets have one size. Returns how long it
    /// is then.
    pub fn fill_packet(&self, run: &FrameRun, data: &mut [u8], len: i32) -> (r: i32)
        requires
            1 <= len <= old(data)@.len(),
            run.orig_max_data_bytes <= old(data)@.len(),
            old(data)@[0] % 4 == 0,
        ensures
            if self.use_vbr == 0 && len < run.orig_max_data_bytes {
                let x = repacked(
                    old(data)@.take(len as int),
                    Seq::empty(),
                    run.orig_max_data_bytes as int,
                    true,
                );
                &&& final(data)@ == overwritten(x.1, old(data)@)
                &&& r == if x.0 > 0 {
                    run.orig_max_data_bytes
                } else {
                    len
                }
                &&& len <= MAX_SINGLE_BYTES ==> r == run.orig_max_data_bytes
            } else {
                r == len && final(data)@ == old(data)@
            },
            len <= MAX_SINGLE_BYTES ==> r == self.sent_bytes(*run, Ending::Sent(len)),
    {
        if self.use_vbr != 0 || len >= run.orig_max_data_bytes {
            return len;
        }
        proof {
            let s = data@.take(len as int);
            lemma_plain_packet(s);
            lemma_repacked_fits(s, Seq::empty(), run.orig_max_data_bytes as int, true);
            if len <= MAX_SINGLE_BYTES {
                padding_succeeds(s, run.orig_max_data_bytes as int);
            }
        }
        if opus_packet_pad(data, len, run.orig_max_data_bytes) == OPUS_OK {
            run.orig_max_data_bytes
        } else {
            len
        }
    }
}

/// A packet of one frame has no padding, and can be read unless it is too long.
proof fn lemma_plain_packet(s: Seq<u8>)
    requires
        s.len() >= 1,
        s[0] % 4 == 0,
    ensures
        padding_items(s).len() == 0,
        s.len() <= MAX_SINGLE_BYTES ==> (layout(s, false) matches Some(l)
            && held_pad(s, l, 0).readable()),
{
    reveal(layout);
    assert(total(Seq::<int>::empty()) == 0);
    if layout(s, false) is Some {
        lemma_no_items(s);
    }
}

/// Redundancy that keeps to its room always fits: a packet of one frame takes it, and
/// where packets have one size, is filled up.
pub proof fn redundancy_always_fits(
    run: FrameRun,
    s: Seq<u8>,
    version: u8,
    payload: Seq<u8>,
    pad: bool,
)
    requires
        1 <= s.len() <= MAX_SINGLE_BYTES,
        s[0] % 4 == 0,
        payload.len() + DRED_EXPERIMENTAL_BYTES <= OpusEncoder::dred_bytes_left(
            run,
            s.len() as int,
        ),
    ensures
        ({
            let r = repacked(
                s,
                seq![OpusEncoder::dred_item(version, payload)],
                run.orig_max_data_bytes as int,
                pad,
            ).0;
            &&& s.len() < r <= run.orig_max_data_bytes
            &&& pad ==> r == run.orig_max_data_bytes
        }),
{
    let max = run.orig_max_data_bytes as int;
    let e = OpusEncoder::dred_item(version, payload);
    let exts = seq![e];
    lemma_plain_packet(s);
    reveal(layout);
    reveal(packed);
    assert(total(Seq::<int>::empty()) == 0);
    let l = layout(s, false).unwrap();
    let held = nothing_held().with(s, l);
    assert(l.sizes =~= seq![s.len() - 1]);
    assert(l.sizes.take(0) =~= Seq::<int>::empty());
    let frames = seq![s.skip(1)];
    assert(l.frames(s) =~= frames);
    assert(held.frames.subrange(0, 1) =~= frames);
    let pads = held.pads.subrange(0, 1);
    assert(pads =~= seq![held_pad(s, l, 0)]);
    assert(held.items(0, 1) =~= Seq::<Item>::empty());
    assert(exts + held.items(0, 1) =~= exts);
    assert(frames.drop_last() =~= Seq::<Seq<u8>>::empty());
    assert(joined(frames.drop_last()) =~= Seq::<u8>::empty());
    assert(joined(frames) =~= s.skip(1));
    assert(same_size(frames));
    let len = counted_len(frames, false);
    assert(len == s.len() + 1);
    let a = min_int(DRED_MAX_DATA_SIZE as int, max - s.len() - 3);
    let k = tdiv(a + 3, 255);
    assert(0 <= k <= 4 && 255 * k <= a + 3 < 255 * (k + 1));
    assert(e.len + k <= a);
    one_extension(e, max - len);
    let (r, bytes) = generated(exts, 1, max - len, false);
    let x = e.len + 1;
    lemma_amount(x);
    let amount = pad_amount(1, x, max - len, pad);
    lemma_amount_len(amount);
    assert(e.len / 254 <= k);
}

/// What is coded can be read: a packet is read as its one frame, and still when it was
/// filled up. Its first byte tells how long the frame is, and how many channels it has.
pub proof fn coded_packets_can_be_read(e: OpusEncoder, run: FrameRun, s: Seq<u8>, max: int)
    requires
        1 <= s.len() <= MAX_SINGLE_BYTES,
        s[0] == e.first_byte(run),
        max <= MAX_PACKET_BYTES,
    ensures
        layout(s, false) matches Some(l) && l.frames(s) == seq![s.skip(1)],
        s.len() < max ==> ({
            let w = repacked(s, Seq::empty(), max, true).1;
            &&& w.len() == max
            &&& w[0] / 4 == s[0] / 4
            &&& layout(w, false) matches Some(m) && m.frames(w) == seq![s.skip(1)]
        }),
        (s[0] / 4) % 2 == if e.stream_channels == 2 {
            1int
        } else {
            0
        },
        ({
            let rate = e.fs as int / run.frame_size as int;
            codable(e.mode as int, rate, run.bandwidth as int) && 1 <= e.stream_channels <= 2
                ==> samples_per_frame(s[0], 48000) == duration48(rate)
        }),
{
    let rate = e.fs as int / run.frame_size as int;
    lemma_toc_code(e.mode as int, rate, run.bandwidth as int, e.stream_channels as int, 0);
    lemma_plain_packet(s);
    reveal(layout);
    assert(total(Seq::<int>::empty()) == 0);
    let l = layout(s, false).unwrap();
    assert(l.sizes =~= seq![s.len() - 1]);
    assert(l.sizes.take(0) =~= Seq::<int>::empty());
    assert(l.frames(s) =~= seq![s.skip(1)]);
    if s.len() < max {
        padding_succeeds(s, max);
        repacking_keeps_frames(s, Seq::empty(), max, true);
    }
    if codable(e.mode as int, rate, run.bandwidth as int) && 1 <= e.stream_channels <= 2 {
        toc_tells_duration(
            e.mode as int,
            rate,
            run.bandwidth as int,
            e.stream_channels as int,
        );
    }
}

} // verus!
