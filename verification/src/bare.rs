//! Packets that say how long they are and hold nothing: what is sent when there is too
//! little to spend. A decoder conceals them.

use vstd::prelude::*;
use crate::arith::imax;
use crate::codes::{OPUS_INTERNAL_ERROR, OPUS_OK};
use crate::encoder::{valid_bandwidth, valid_mode, OpusEncoder};
use crate::modes::{
    MODE_CELT_ONLY, MODE_HYBRID, MODE_SILK_ONLY, OPUS_BANDWIDTH_MEDIUMBAND,
    OPUS_BANDWIDTH_NARROWBAND, OPUS_BANDWIDTH_SUPERWIDEBAND, OPUS_BANDWIDTH_WIDEBAND,
};
use crate::extension_iter::Item;
use crate::packet::{
    layout, lemma_total_constant, nb_frames_of, read_head, samples_per_frame, total, Head,
};
use crate::extension_gen::overwritten;
use crate::padding::{
    lemma_nothing_stored, lemma_repacked_fits, nothing_held, opus_packet_pad, padding_items,
    padding_succeeds, repacked,
};
use crate::rates::{codable, gen_toc, period_of, toc_byte, toc_tells_duration};
use crate::repacketizer::held_pad;

verus! {

/// How a packet without frames announces its duration.
pub struct Shape {
    pub mode: i32,
    pub frame_rate: i32,
    pub bandwidth: i32,
    /// The low bits of the first byte: one frame, two, or as many as the second byte says.
    pub code: u8,
    pub count: u8,
}

/// The widest bandwidth up to `bandwidth` that a mode can announce, or its narrowest.
pub open spec fn announced(mode: int, bandwidth: int) -> i32 {
    if mode == MODE_SILK_ONLY && bandwidth > OPUS_BANDWIDTH_WIDEBAND {
        OPUS_BANDWIDTH_WIDEBAND
    } else if mode == MODE_CELT_ONLY && bandwidth == OPUS_BANDWIDTH_MEDIUMBAND {
        OPUS_BANDWIDTH_NARROWBAND
    } else if mode == MODE_HYBRID && bandwidth <= OPUS_BANDWIDTH_SUPERWIDEBAND {
        OPUS_BANDWIDTH_SUPERWIDEBAND
    } else {
        bandwidth as i32
    }
}

/// Frames of 2.5 and 5 ms are music frames. 40 ms of music are two frames. From 60 ms on,
/// speech takes one frame or two, and everything else frames of 20 ms, unless there is
/// only one byte, in which no count fits. An encoder without a mode or a bandwidth yet (0)
/// stands for speech, and for narrowband.
pub open spec fn shape_of(mode: int, bandwidth: int, frame_rate: int, one_byte: bool) -> Shape {
    let mode = if frame_rate > 100 {
        MODE_CELT_ONLY
    } else if mode == 0 {
        MODE_SILK_ONLY
    } else {
        mode as i32
    };
    let bandwidth = if bandwidth == 0 {
        OPUS_BANDWIDTH_NARROWBAND as int
    } else {
        bandwidth
    };
    if frame_rate == 25 && mode != MODE_SILK_ONLY {
        Shape {
            mode,
            frame_rate: 50,
            bandwidth: announced(mode as int, bandwidth),
            code: 1,
            count: 0,
        }
    } else if frame_rate > 16 {
        Shape {
            mode,
            frame_rate: frame_rate as i32,
            bandwidth: announced(mode as int, bandwidth),
            code: 0,
            count: 0,
        }
    } else if one_byte || (mode == MODE_SILK_ONLY && frame_rate != 10) {
        Shape {
            mode: MODE_SILK_ONLY,
            frame_rate: if frame_rate == 12 {
                25
            } else {
                16
            },
            bandwidth: announced(MODE_SILK_ONLY as int, bandwidth),
            code: if frame_rate <= 12 {
                1
            } else {
                0
            },
            count: 0,
        }
    } else {
        Shape {
            mode,
            frame_rate: 50,
            bandwidth: announced(mode as int, bandwidth),
            code: 3,
            count: (50int / frame_rate) as u8,
        }
    }
}

/// Chooses how a packet without frames announces its duration.
pub fn choose_shape(mode: i32, bandwidth: i32, frame_rate: i32, one_byte: bool) -> (r: Shape)
    requires
        1 <= frame_rate,
    ensures
        r == shape_of(mode as int, bandwidth as int, frame_rate as int, one_byte),
{
    let mut mode: i32 = mode;
    let mut rate: i32 = frame_rate;
    let mut code: u8 = 0;
    let mut count: u8 = 0;
    if mode == 0 {
        mode = MODE_SILK_ONLY;
    }
    if rate > 100 {
        mode = MODE_CELT_ONLY;
    }
    if rate == 25 && mode != MODE_SILK_ONLY {
        rate = 50;
        code = 1;
    }
    if rate <= 16 {
        if one_byte || (mode == MODE_SILK_ONLY && rate != 10) {
            mode = MODE_SILK_ONLY;
            code = if rate <= 12 { 1 } else { 0 };
            rate = if rate == 12 { 25 } else { 16 };
        } else {
            count = (50 / rate) as u8;
            rate = 50;
            code = 3;
        }
    }
    let mut bw: i32 = if bandwidth == 0 { OPUS_BANDWIDTH_NARROWBAND } else { bandwidth };
    if mode == MODE_SILK_ONLY && bw > OPUS_BANDWIDTH_WIDEBAND {
        bw = OPUS_BANDWIDTH_WIDEBAND;
    } else if mode == MODE_CELT_ONLY && bw == OPUS_BANDWIDTH_MEDIUMBAND {
        bw = OPUS_BANDWIDTH_NARROWBAND;
    } else if mode == MODE_HYBRID && bw <= OPUS_BANDWIDTH_SUPERWIDEBAND {
        bw = OPUS_BANDWIDTH_SUPERWIDEBAND;
    }
    Shape { mode, frame_rate: rate, bandwidth: bw, code, count }
}

impl Shape {
    /// The packet.
    pub open spec fn bytes(self, channels: int) -> Seq<u8> {
        let toc = toc_byte(
            self.mode as int,
            self.frame_rate as int,
            self.bandwidth as int,
            channels,
        ) | self.code;
        if self.code == 3 {
            seq![toc, self.count]
        } else {
            seq![toc]
        }
    }
}

/// The low bits of the first byte are free for the number of frames, and the bit above them
/// is set for stereo.
pub proof fn lemma_toc_code(mode: int, frame_rate: int, bandwidth: int, channels: int, code: u8)
    requires
        code <= 3,
    ensures
        toc_byte(mode, frame_rate, bandwidth, channels) % 4 == 0,
        (toc_byte(mode, frame_rate, bandwidth, channels) / 4) % 2 == if channels == 2 {
            1int
        } else {
            0
        },
        (toc_byte(mode, frame_rate, bandwidth, channels) | code) % 4 == code,
        (toc_byte(mode, frame_rate, bandwidth, channels) | code) / 4 == toc_byte(
            mode,
            frame_rate,
            bandwidth,
            channels,
        ) / 4,
{
    let toc = toc_byte(mode, frame_rate, bandwidth, channels);
    let period = period_of(frame_rate);
    let s: u8 = if channels == 2 {
        4
    } else {
        0
    };
    let a: u8 = ((if mode == MODE_SILK_ONLY {
        (bandwidth - OPUS_BANDWIDTH_NARROWBAND) * 32
    } else if mode == MODE_CELT_ONLY {
        (if bandwidth < OPUS_BANDWIDTH_MEDIUMBAND {
            0
        } else {
            bandwidth - OPUS_BANDWIDTH_MEDIUMBAND
        }) * 32
    } else {
        (bandwidth - OPUS_BANDWIDTH_SUPERWIDEBAND) * 16
    }) % 256) as u8;
    let b: u8 = ((if mode == MODE_CELT_ONLY {
        period * 8
    } else {
        (period - 2) * 8
    }) % 256) as u8;
    assert(a % 8 == 0 && b % 8 == 0);
    assert((a | b | s) % 8 == s && (128u8 | a | b | s) % 8 == s && (96u8 | a | b | s) % 8 == s)
        by (bit_vector)
        requires
            a % 8 == 0,
            b % 8 == 0,
            s == 0 || s == 4,
    ;
    assert(toc % 8 == s);
    assert((toc | code) % 4 == code && (toc | code) / 4 == toc / 4) by (bit_vector)
        requires
            toc % 4 == 0,
            code <= 3,
    ;
}

/// What a packet without padding stores: nothing.
pub proof fn lemma_no_items(s: Seq<u8>)
    requires
        layout(s, false) matches Some(l) && l.pad == 0,
    ensures
        padding_items(s) =~= Seq::<Item>::empty(),
        held_pad(s, layout(s, false).unwrap(), 0).readable(),
{
    let l = layout(s, false).unwrap();
    let pads = nothing_held().with(s, l).pads.subrange(0, l.sizes.len() as int);
    assert forall|i: int| 0 <= i < pads.len() implies (#[trigger] pads[i]).len == 0 by {
        assert(pads[i] == held_pad(s, l, i));
    }
    lemma_nothing_stored(pads, l.sizes.len() as int);
}

/// A packet without frames can be read, and holds no padding.
proof fn lemma_bare(shape: Shape, channels: int)
    requires
        shape.code <= 1 || shape.code == 3,
        shape.code == 3 ==> 1 <= shape.count <= 6 && codable(
            shape.mode as int,
            shape.frame_rate as int,
            shape.bandwidth as int,
        ) && shape.frame_rate == 50,
        channels == 1 || channels == 2,
    ensures
        layout(shape.bytes(channels), false) matches Some(l) && l.pad == 0,
{
    let s = shape.bytes(channels);
    let (mode, rate, bandwidth) = (
        shape.mode as int,
        shape.frame_rate as int,
        shape.bandwidth as int,
    );
    let toc = toc_byte(mode, rate, bandwidth, channels);
    reveal(layout);
    lemma_toc_code(mode, rate, bandwidth, channels, shape.code);
    assert(total(Seq::<int>::empty()) == 0);
    if shape.code == 0 {
        assert(read_head(s) == Some(
            Head { len: 1, count: 1, vbr: true, sizes: Seq::empty(), pad: 0 },
        ));
    } else if shape.code == 1 {
        assert(read_head(s) == Some(
            Head { len: 1, count: 2, vbr: false, sizes: Seq::empty(), pad: 0 },
        ));
        lemma_total_constant(2, 0);
    } else {
        toc_tells_duration(mode, rate, bandwidth, channels);
        assert(samples_per_frame(s[0], 48000) == samples_per_frame(toc, 48000));
        assert(samples_per_frame(s[0], 48000) * shape.count <= 5760) by (nonlinear_arith)
            requires
                samples_per_frame(s[0], 48000) == 960,
                shape.count <= 6,
        ;
        let count = shape.count as int;
        assert(read_head(s) == Some(
            Head { len: 2, count, vbr: false, sizes: Seq::empty(), pad: 0 },
        ));
        lemma_total_constant(count as nat, 0);
    }
}

impl OpusEncoder {
    /// Writes a packet without frames for `frame_rate` packets a second. Where packets have
    /// one size, it is filled up to `max_data_bytes` bytes.
    pub fn write_bare(
        &self,
        frame_rate: i32,
        max_data_bytes: i32,
        one_byte: bool,
        data: &mut [u8],
    ) -> (r: Result<i32, i32>)
        requires
            8 <= frame_rate <= 400,
            1 <= max_data_bytes,
            self.mode == 0 || valid_mode(self.mode as int),
            self.bandwidth == 0 || valid_bandwidth(self.bandwidth as int),
            1 <= self.stream_channels <= 2,
            max_data_bytes <= old(data)@.len(),
            1 <= old(data)@.len(),
            !one_byte ==> 2 <= old(data)@.len(),
        ensures
            ({
                let s = shape_of(
                    self.mode as int,
                    self.bandwidth as int,
                    frame_rate as int,
                    one_byte,
                ).bytes(self.stream_channels as int);
                if self.use_vbr != 0 || max_data_bytes <= s.len() {
                    &&& r == Ok::<i32, i32>(s.len() as i32)
                    &&& final(data)@ == overwritten(s, old(data)@)
                } else {
                    &&& r == Ok::<i32, i32>(max_data_bytes)
                    &&& final(data)@ == overwritten(
                        repacked(s, Seq::empty(), max_data_bytes as int, true).1,
                        old(data)@,
                    )
                    &&& repacked(s, Seq::empty(), max_data_bytes as int, true).1.len()
                        == max_data_bytes
                }
            }),
    {
        let shape = choose_shape(self.mode, self.bandwidth, frame_rate, one_byte);
        let ghost s = shape.bytes(self.stream_channels as int);
        proof {
            assert(1 <= 50int / frame_rate as int <= 6 || frame_rate > 16) by (nonlinear_arith)
                requires
                    8 <= frame_rate,
            ;
            lemma_bare(shape, self.stream_channels as int);
        }
        data[0] = gen_toc(shape.mode, shape.frame_rate, shape.bandwidth, self.stream_channels)
            | shape.code;
        let mut ret: i32 = 1;
        if shape.code == 3 {
            data[1] = shape.count;
            ret = 2;
        }
        proof {
            assert(data@ =~= overwritten(s, old(data)@));
        }
        if self.use_vbr == 0 {
            let padded_len: i32 = imax(max_data_bytes, ret);
            proof {
                assert(data@.take(ret as int) =~= s);
                lemma_no_items(s);
                lemma_repacked_fits(s, Seq::empty(), padded_len as int, true);
                if ret < padded_len {
                    padding_succeeds(s, padded_len as int);
                }
            }
            if opus_packet_pad(data, ret, padded_len) != OPUS_OK {
                return Err(OPUS_INTERNAL_ERROR);
            }
            proof {
                if ret < padded_len {
                    let w = repacked(s, Seq::empty(), padded_len as int, true).1;
                    assert(overwritten(w, overwritten(s, old(data)@)) =~= overwritten(
                        w,
                        old(data)@,
                    ));
                }
            }
            ret = padded_len;
        }
        Ok(ret)
    }
}

/// Samples at 48 kHz of a frame, by how many of them there are in a second.
pub open spec fn duration48(frame_rate: int) -> int {
    if frame_rate == 16 {
        2880
    } else if frame_rate == 12 {
        3840
    } else if frame_rate == 8 {
        5760
    } else {
        48000int / frame_rate
    }
}

/// Whether frames of one of the nine durations come at this rate.
pub open spec fn known_rate(frame_rate: int) -> bool {
    frame_rate == 400 || frame_rate == 200 || frame_rate == 100 || frame_rate == 50 || frame_rate
        == 25 || frame_rate == 16 || frame_rate == 12 || frame_rate == 10 || frame_rate == 8
}

proof fn lemma_counts(frame_rate: int)
    requires
        known_rate(frame_rate),
    ensures
        frame_rate == 400 ==> 48000int / frame_rate == 120 && 50int / frame_rate == 0,
        frame_rate == 200 ==> 48000int / frame_rate == 240 && 50int / frame_rate == 0,
        frame_rate == 100 ==> 48000int / frame_rate == 480 && 50int / frame_rate == 0,
        frame_rate == 50 ==> 48000int / frame_rate == 960 && 50int / frame_rate == 1,
        frame_rate == 25 ==> 48000int / frame_rate == 1920 && 50int / frame_rate == 2,
        frame_rate == 16 ==> 48000int / frame_rate == 3000 && 50int / frame_rate == 3,
        frame_rate == 12 ==> 48000int / frame_rate == 4000 && 50int / frame_rate == 4,
        frame_rate == 10 ==> 48000int / frame_rate == 4800 && 50int / frame_rate == 5,
        frame_rate == 8 ==> 48000int / frame_rate == 6000 && 50int / frame_rate == 6,
{
    if frame_rate == 400 {
        assert(48000int / frame_rate == 120 && 50int / frame_rate == 0) by (nonlinear_arith)
            requires
                frame_rate == 400,
        ;
    } else if frame_rate == 200 {
        assert(48000int / frame_rate == 240 && 50int / frame_rate == 0) by (nonlinear_arith)
            requires
                frame_rate == 200,
        ;
    } else if frame_rate == 100 {
        assert(48000int / frame_rate == 480 && 50int / frame_rate == 0) by (nonlinear_arith)
            requires
                frame_rate == 100,
        ;
    } else if frame_rate == 50 {
        assert(48000int / frame_rate == 960 && 50int / frame_rate == 1) by (nonlinear_arith)
            requires
                frame_rate == 50,
        ;
    } else if frame_rate == 25 {
        assert(48000int / frame_rate == 1920 && 50int / frame_rate == 2) by (nonlinear_arith)
            requires
                frame_rate == 25,
        ;
    } else if frame_rate == 16 {
        assert(48000int / frame_rate == 3000 && 50int / frame_rate == 3) by (nonlinear_arith)
            requires
                frame_rate == 16,
        ;
    } else if frame_rate == 12 {
        assert(48000int / frame_rate == 4000 && 50int / frame_rate == 4) by (nonlinear_arith)
            requires
                frame_rate == 12,
        ;
    } else if frame_rate == 10 {
        assert(48000int / frame_rate == 4800 && 50int / frame_rate == 5) by (nonlinear_arith)
            requires
                frame_rate == 10,
        ;
    } else {
        assert(48000int / frame_rate == 6000 && 50int / frame_rate == 6) by (nonlinear_arith)
            requires
                frame_rate == 8,
        ;
    }
}

/// A packet without frames can be read, and lasts as long as the frame that it stands for.
/// Only 100 ms cannot be told in one byte.
pub proof fn bare_packets_tell_duration(
    mode: int,
    bandwidth: int,
    frame_rate: int,
    one_byte: bool,
    channels: int,
)
    requires
        mode == 0 || valid_mode(mode),
        bandwidth == 0 || valid_bandwidth(bandwidth),
        known_rate(frame_rate),
        !(one_byte && frame_rate == 10),
        channels == 1 || channels == 2,
    ensures
        ({
            let s = shape_of(mode, bandwidth, frame_rate, one_byte).bytes(channels);
            &&& one_byte ==> s.len() == 1
            &&& layout(s, false) matches Some(l) && l.pad == 0
            &&& nb_frames_of(s) matches Ok(n) && n * samples_per_frame(s[0], 48000) == duration48(
                frame_rate,
            )
        }),
{
    let shape = shape_of(mode, bandwidth, frame_rate, one_byte);
    let (m, r, b) = (shape.mode as int, shape.frame_rate as int, shape.bandwidth as int);
    let s = shape.bytes(channels);
    let toc = toc_byte(m, r, b, channels);
    assert(codable(m, r, b));
    toc_tells_duration(m, r, b, channels);
    lemma_toc_code(m, r, b, channels, shape.code);
    assert(samples_per_frame(s[0], 48000) == samples_per_frame(toc, 48000));
    lemma_counts(frame_rate);
    lemma_counts(r);
    lemma_bare(shape, channels);
    let n = nb_frames_of(s).unwrap() as int;
    let f = samples_per_frame(s[0], 48000);
    assert(n == 1 ==> n * f == f) by (nonlinear_arith);
    assert(n == 2 ==> n * f == 2 * f) by (nonlinear_arith);
    assert(f == 960 ==> n * f == 960 * n) by (nonlinear_arith);
}

/// A packet without frames has the mode that was chosen last, but that frames of 2.5 and 5 ms
/// are music, and that one byte for 60 ms or more is speech. It has the bandwidth that was
/// chosen last, as far as the mode can announce it: speech up to wideband, hybrid frames from
/// superwideband on, and music no mediumband.
pub proof fn bare_packets_keep_the_mode(
    mode: int,
    bandwidth: int,
    frame_rate: int,
    one_byte: bool,
)
    requires
        mode == 0 || valid_mode(mode),
        bandwidth == 0 || valid_bandwidth(bandwidth),
        known_rate(frame_rate),
    ensures
        ({
            let s = shape_of(mode, bandwidth, frame_rate, one_byte);
            let (narrow, medium, wide, sup) = (
                OPUS_BANDWIDTH_NARROWBAND,
                OPUS_BANDWIDTH_MEDIUMBAND,
                OPUS_BANDWIDTH_WIDEBAND,
                OPUS_BANDWIDTH_SUPERWIDEBAND,
            );
            &&& frame_rate > 100 ==> s.mode == MODE_CELT_ONLY
            &&& frame_rate <= 100 && (frame_rate > 16 || !one_byte) ==> s.mode == if mode == 0 {
                MODE_SILK_ONLY as int
            } else {
                mode
            }
            &&& frame_rate <= 16 && one_byte ==> s.mode == MODE_SILK_ONLY
            &&& bandwidth == 0 && s.mode != MODE_HYBRID ==> s.bandwidth == narrow
            &&& s.mode == MODE_HYBRID ==> s.bandwidth >= sup && (bandwidth >= sup ==> s.bandwidth
                == bandwidth) && (bandwidth < sup ==> s.bandwidth == sup)
            &&& s.mode == MODE_SILK_ONLY && bandwidth > 0 ==> s.bandwidth <= wide && (bandwidth
                <= wide ==> s.bandwidth == bandwidth) && (bandwidth > wide ==> s.bandwidth == wide)
            &&& s.mode == MODE_CELT_ONLY && bandwidth > 0 ==> s.bandwidth == if bandwidth
                == medium {
                narrow as int
            } else {
                bandwidth
            }
        }),
{
}

} // verus!
