//! Adding padding to packets and taking it away, in place: single packets, and
//! multistream packets, in which all streams but the last are self-delimited.

use vstd::prelude::*;
use crate::codes::{MAX_FRAME_BYTES, OPUS_BAD_ARG, OPUS_INVALID_PACKET, OPUS_OK};
use crate::extension_bound::padding_holds_few;
use crate::extension_gen::{overwritten, payloads_there};
use crate::extension_iter::{items, Item, OpusExtensionData};
use crate::packet::{layout, lemma_layout, lemma_samples_per_frame, parse_packet, samples_per_frame};
use crate::packing::packed_fits;
use crate::packing_law::{
    carries, lemma_layout_lengths, minimal, minimal_by_kind, minimal_is_shortest, packed_is_minimal,
    packed_pads, packed_round_trip,
};
use crate::repacketizer::{all_readable, held_pad, stored_items, Held, OpusRepacketizer, Pad};

verus! {

// ---------------------------------------------------------------------------
// Single packets
// ---------------------------------------------------------------------------

/// A repacketizer that holds nothing.
pub open spec fn nothing_held() -> Held {
    Held { toc: 0, frames: Seq::empty(), pads: Seq::empty() }
}

/// A repacketizer that holds nothing takes any packet.
pub proof fn lemma_accepts(s: Seq<u8>, self_delimited: bool)
    ensures
        nothing_held().accepts(s, self_delimited) == (layout(s, self_delimited) is Some),
{
    lemma_layout(s, self_delimited);
    if let Some(l) = layout(s, self_delimited) {
        let n = l.sizes.len() as int;
        let a = samples_per_frame(s[0], 48000);
        let b = samples_per_frame(s[0], 8000);
        lemma_samples_per_frame(s[0]);
        assert((0 + n) * b <= 960) by (nonlinear_arith)
            requires
                a * n <= 5760,
                a == 6 * b,
        ;
    }
}

/// The packet `s`, written anew in at most `new_len` bytes: the number of bytes, or
/// the error; and what is written by then.
pub open spec fn repacked(s: Seq<u8>, exts: Seq<Item>, new_len: int, pad: bool) -> (int, Seq<u8>) {
    match layout(s, false) {
        Some(l) => nothing_held().with(s, l).out(
            0,
            l.sizes.len() as int,
            exts,
            new_len,
            false,
            pad,
        ),
        None => (OPUS_INVALID_PACKET as int, Seq::empty()),
    }
}

/// The extensions in the padding of the packet `s`.
pub open spec fn padding_items(s: Seq<u8>) -> Seq<Item> {
    match layout(s, false) {
        Some(l) => nothing_held().with(s, l).items(0, l.sizes.len() as int),
        None => Seq::empty(),
    }
}

/// A packet written anew takes no more than it may.
pub proof fn lemma_repacked_fits(s: Seq<u8>, exts: Seq<Item>, new_len: int, pad: bool)
    requires
        new_len >= 0,
    ensures
        repacked(s, exts, new_len, pad).1.len() <= new_len,
        repacked(s, exts, new_len, pad).0 >= 0 ==> repacked(s, exts, new_len, pad).0 == repacked(
            s,
            exts,
            new_len,
            pad,
        ).1.len(),
        repacked(s, exts, new_len, pad).0 != 0,
{
    if let Some(l) = layout(s, false) {
        lemma_layout(s, false);
        lemma_layout_lengths(s, false, l);
        let held = nothing_held().with(s, l);
        let n = l.sizes.len() as int;
        assert(held.frames =~= l.frames(s));
        assert(held.frames.subrange(0, n) =~= l.frames(s));
        packed_fits(held.toc, l.frames(s), exts + held.items(0, n), new_len, false, pad);
    }
}

/// Most bytes of packets whose extensions can be counted for sure.
pub const COUNTED_BYTES: i32 = 40_000_000;

/// Whether the packet `s` can be written anew in `room` bytes, of which it may take
/// `new_len`: what is written fits, and its extensions can be counted. That is so where
/// there is room for all it may take, and the packet is not of millions of bytes.
pub open spec fn can_repack(s: Seq<u8>, exts: Seq<Item>, new_len: int, pad: bool, room: int) -> bool {
    &&& new_len <= room || repacked(s, exts, new_len, pad).1.len() <= room
    &&& (exts.len() <= 1_000_000 && s.len() <= COUNTED_BYTES) || exts.len() + padding_items(s).len()
        <= i32::MAX
}

proof fn lemma_can_repack(s: Seq<u8>, exts: Seq<Item>, new_len: int, pad: bool, room: int)
    requires
        can_repack(s, exts, new_len, pad, room),
        0 <= new_len,
        s.len() <= i32::MAX,
    ensures
        repacked(s, exts, new_len, pad).1.len() <= room,
        exts.len() + padding_items(s).len() <= i32::MAX,
{
    lemma_repacked_fits(s, exts, new_len, pad);
    padding_holds_few(s);
}

/// Copies the first `len` bytes.
fn copy_front(data: &[u8], len: usize) -> (r: Vec<u8>)
    requires
        len <= data@.len(),
    ensures
        r@ == data@.take(len as int),
{
    let mut r: Vec<u8> = Vec::new();
    let mut i: usize = 0;
    while i < len
        invariant
            i <= len <= data@.len(),
            r@ == data@.take(i as int),
        decreases len - i,
    {
        r.push(data[i]);
        proof {
            assert(r@ =~= data@.take(i + 1));
        }
        i = i + 1;
    }
    r
}

/// Writes the packet `data[..len]` anew in at most `new_len` bytes, with the given
/// extensions and its own, and with `pad` filled up to `new_len`. Returns the number of
/// bytes, or the error.
pub fn opus_packet_pad_impl(
    data: &mut [u8],
    len: i32,
    new_len: i32,
    pad: bool,
    extensions: &[OpusExtensionData],
) -> (r: i32)
    requires
        len <= old(data)@.len(),
        1 <= len < new_len ==> (layout(old(data)@.take(len as int), false) matches Some(l)
            ==> payloads_there(items(extensions@), l.sizes.len() as int)),
        1 <= len < new_len ==> can_repack(
            old(data)@.take(len as int),
            items(extensions@),
            new_len as int,
            pad,
            old(data)@.len() as int,
        ),
    ensures
        if len < 1 || len > new_len {
            r == OPUS_BAD_ARG && final(data)@ == old(data)@
        } else if len == new_len {
            r == OPUS_OK && final(data)@ == old(data)@
        } else {
            let x = repacked(
                old(data)@.take(len as int),
                items(extensions@),
                new_len as int,
                pad,
            );
            r == x.0 && final(data)@ == overwritten(x.1, old(data)@)
        },
{
    if len < 1 {
        return OPUS_BAD_ARG;
    }
    if len == new_len {
        return OPUS_OK;
    }
    if len > new_len {
        return OPUS_BAD_ARG;
    }
    let copy: Vec<u8> = copy_front(data, len as usize);
    let mut rp = OpusRepacketizer::new();
    proof {
        let s = data@.take(len as int);
        assert(copy@.take(len as int) =~= s);
        lemma_accepts(s, false);
        assert(overwritten(Seq::empty(), data@) =~= data@);
        lemma_layout(s, false);
        lemma_can_repack(s, items(extensions@), new_len as int, pad, data@.len() as int);
    }
    let ret: i32 = rp.cat(copy.as_slice(), len);
    if ret != OPUS_OK {
        return ret;
    }
    let nb: usize = rp.nb_frames;
    rp.out_range_impl(0, nb, data, new_len, false, pad, extensions)
}

/// Fills the packet `data[..len]` up to `new_len` bytes.
pub fn opus_packet_pad(data: &mut [u8], len: i32, new_len: i32) -> (r: i32)
    requires
        len <= old(data)@.len(),
        1 <= len < new_len ==> can_repack(
            old(data)@.take(len as int),
            Seq::empty(),
            new_len as int,
            true,
            old(data)@.len() as int,
        ),
    ensures
        if len < 1 || len > new_len {
            r == OPUS_BAD_ARG && final(data)@ == old(data)@
        } else if len == new_len {
            r == OPUS_OK && final(data)@ == old(data)@
        } else {
            let x = repacked(old(data)@.take(len as int), Seq::empty(), new_len as int, true);
            &&& r == if x.0 > 0 {
                OPUS_OK as int
            } else {
                x.0
            }
            &&& final(data)@ == overwritten(x.1, old(data)@)
        },
{
    let none: [OpusExtensionData; 0] = [];
    proof {
        assert(items(none@) =~= Seq::<Item>::empty());
    }
    let ret: i32 = opus_packet_pad_impl(data, len, new_len, true, &none);
    if ret > 0 {
        OPUS_OK
    } else {
        ret
    }
}

/// Lets go of all padding, extensions and all.
fn drop_padding(rp: &mut OpusRepacketizer)
    requires
        old(rp).wf(),
    ensures
        final(rp).wf(),
        final(rp)@.toc == old(rp)@.toc,
        final(rp)@.frames == old(rp)@.frames,
        all_readable(final(rp)@.pads),
        final(rp)@.items(0, final(rp)@.frames.len() as int) == Seq::<Item>::empty(),
{
    let mut i: usize = 0;
    while i < rp.nb_frames
        invariant
            rp.wf(),
            i <= rp.nb_frames,
            rp@.toc == old(rp)@.toc,
            rp@.frames == old(rp)@.frames,
            forall|k: int| 0 <= k < i ==> (#[trigger] rp@.pads[k]).len == 0,
        decreases rp.nb_frames - i,
    {
        let ghost before = rp@;
        rp.padding_len[i] = 0;
        rp.paddings[i] = &[];
        proof {
            assert(rp@.frames =~= before.frames);
            assert forall|k: int| 0 <= k < i + 1 implies (#[trigger] rp@.pads[k]).len == 0 by {
                if k < i {
                    assert(before.pads[k].len == 0);
                }
            }
        }
        i = i + 1;
    }
    proof {
        let n = rp@.frames.len() as int;
        assert(rp@.pads.subrange(0, n) =~= rp@.pads);
        lemma_nothing_stored(rp@.pads, n);
    }
}

pub proof fn lemma_nothing_stored(pads: Seq<Pad>, n: int)
    requires
        n <= pads.len(),
        forall|k: int| 0 <= k < n ==> (#[trigger] pads[k]).len == 0,
    ensures
        stored_items(pads, n) == Seq::<Item>::empty(),
    decreases n,
{
    if n > 0 {
        lemma_nothing_stored(pads, n - 1);
        assert(pads[n - 1].len == 0);
        assert(stored_items(pads, n) =~= Seq::<Item>::empty());
    }
}

/// Takes all padding, extensions and all, out of the packet `data[..len]`. Returns how
/// long it is then, or the error.
pub fn opus_packet_unpad(data: &mut [u8], len: i32) -> (r: i32)
    requires
        len <= old(data)@.len(),
    ensures
        if len < 1 {
            r == OPUS_BAD_ARG && final(data)@ == old(data)@
        } else {
            let s = old(data)@.take(len as int);
            match layout(s, false) {
                Some(l) => {
                    let w = minimal(s[0], l.frames(s), false);
                    &&& r == w.len()
                    &&& 1 <= r <= len
                    &&& final(data)@ == overwritten(w, old(data)@)
                },
                None => r == OPUS_INVALID_PACKET && final(data)@ == old(data)@,
            }
        },
{
    if len < 1 {
        return OPUS_BAD_ARG;
    }
    let copy: Vec<u8> = copy_front(data, len as usize);
    let mut rp = OpusRepacketizer::new();
    let ghost s = data@.take(len as int);
    proof {
        assert(copy@.take(len as int) =~= s);
        lemma_accepts(s, false);
        lemma_layout(s, false);
    }
    let ret: i32 = rp.cat(copy.as_slice(), len);
    if ret < 0 {
        return ret;
    }
    drop_padding(&mut rp);
    let nb: usize = rp.nb_frames;
    let none: [OpusExtensionData; 0] = [];
    proof {
        let l = layout(s, false).unwrap();
        assert(items(none@) =~= Seq::<Item>::empty());
        assert(rp@.frames =~= l.frames(s));
        assert(rp@.frames.subrange(0, nb as int) =~= rp@.frames);
        assert(rp@.pads.subrange(0, nb as int) =~= rp@.pads);
        assert(Seq::<Item>::empty() + Seq::<Item>::empty() =~= Seq::<Item>::empty());
        packed_is_minimal(s[0], l.frames(s), len as int, false);
        minimal_is_shortest(s, false);
    }
    rp.out_range_impl(0, nb, data, len, false, false, &none)
}

/// Writing a packet anew keeps its frames, puts the given extensions behind them next
/// to its own, and with padding fills it up to the length that was asked for.
pub proof fn repacking_keeps_frames(s: Seq<u8>, exts: Seq<Item>, new_len: int, pad: bool)
    requires
        layout(s, false) is Some,
        new_len <= i32::MAX,
        repacked(s, exts, new_len, pad).0 >= 0,
    ensures
        ({
            let l = layout(s, false).unwrap();
            let (r, w) = repacked(s, exts, new_len, pad);
            &&& r == w.len()
            &&& 1 <= r <= new_len
            &&& pad ==> r == new_len
            &&& w[0] / 4 == s[0] / 4
            &&& layout(w, false) matches Some(m)
            &&& m.frames(w) == l.frames(s)
            &&& carries(m.padding(w), exts + padding_items(s), l.sizes.len() as int)
        }),
{
    let l = layout(s, false).unwrap();
    let (r, w) = repacked(s, exts, new_len, pad);
    let all = exts + padding_items(s);
    lemma_layout(s, false);
    lemma_layout_lengths(s, false, l);
    let held = nothing_held().with(s, l);
    assert(held.frames =~= l.frames(s));
    assert(held.frames.subrange(0, l.sizes.len() as int) =~= l.frames(s));
    packed_round_trip(s[0], l.frames(s), all, new_len, false, pad, Seq::empty());
    packed_fits(s[0], l.frames(s), all, new_len, false, pad);
    assert(w + Seq::<u8>::empty() =~= w);
}

/// A packet that carries no extensions can be filled up to any greater length.
pub proof fn padding_succeeds(s: Seq<u8>, new_len: int)
    requires
        layout(s, false) matches Some(l) && held_pad(s, l, 0).readable(),
        padding_items(s).len() == 0,
        s.len() < new_len,
    ensures
        repacked(s, Seq::empty(), new_len, true).0 == new_len,
{
    let l = layout(s, false).unwrap();
    let n = l.sizes.len() as int;
    let frames = l.frames(s);
    let held = nothing_held().with(s, l);
    lemma_layout(s, false);
    lemma_layout_lengths(s, false, l);
    minimal_is_shortest(s, false);
    assert(held.frames =~= frames);
    assert(held.frames.subrange(0, n) =~= frames);
    let pads = held.pads.subrange(0, n);
    assert forall|i: int| 0 <= i < pads.len() implies (#[trigger] pads[i]).readable() by {
        assert(pads[i] == held_pad(s, l, i));
    }
    assert(Seq::<Item>::empty() + padding_items(s) =~= Seq::<Item>::empty());
    packed_pads(s[0], frames, new_len);
}

/// Taking the padding away undoes filling up: the packet is then what taking the
/// padding away at once would have given.
pub proof fn unpad_undoes_pad(s: Seq<u8>, exts: Seq<Item>, new_len: int, pad: bool)
    requires
        layout(s, false) is Some,
        new_len <= i32::MAX,
        repacked(s, exts, new_len, pad).0 >= 0,
    ensures
        ({
            let w = repacked(s, exts, new_len, pad).1;
            minimal(w[0], layout(w, false).unwrap().frames(w), false) == minimal(
                s[0],
                layout(s, false).unwrap().frames(s),
                false,
            )
        }),
{
    repacking_keeps_frames(s, exts, new_len, pad);
    let w = repacked(s, exts, new_len, pad).1;
    minimal_by_kind(w[0], s[0], layout(s, false).unwrap().frames(s), false);
}

/// Taking the padding away twice is the same as taking it away once.
pub proof fn unpad_is_idempotent(s: Seq<u8>)
    requires
        layout(s, false) is Some,
        s.len() <= i32::MAX,
    ensures
        ({
            let l = layout(s, false).unwrap();
            let w = minimal(s[0], l.frames(s), false);
            &&& layout(w, false) matches Some(m)
            &&& m.frames(w) == l.frames(s)
            &&& minimal(w[0], m.frames(w), false) == w
        }),
{
    let l = layout(s, false).unwrap();
    let w = minimal(s[0], l.frames(s), false);
    lemma_layout(s, false);
    lemma_layout_lengths(s, false, l);
    minimal_is_shortest(s, false);
    packed_is_minimal(s[0], l.frames(s), s.len() as int, false);
    packed_round_trip(s[0], l.frames(s), Seq::empty(), s.len() as int, false, false, Seq::empty());
    assert(w + Seq::<u8>::empty() =~= w);
    minimal_by_kind(w[0], s[0], l.frames(s), false);
}

/// Frames that were taken from packets come out as a packet with just these frames,
/// of the same kind.
pub proof fn out_round_trip(
    h: Held,
    begin: int,
    end: int,
    exts: Seq<Item>,
    maxlen: int,
    self_delimited: bool,
    pad: bool,
    tail: Seq<u8>,
)
    requires
        h.ok(),
        0 <= begin,
        maxlen <= i32::MAX,
        !self_delimited ==> tail.len() == 0,
        h.out(begin, end, exts, maxlen, self_delimited, pad).0 >= 0,
    ensures
        ({
            let (r, w) = h.out(begin, end, exts, maxlen, self_delimited, pad);
            &&& begin < end <= h.frames.len()
            &&& r == w.len() <= maxlen
            &&& pad ==> r == maxlen
            &&& w[0] / 4 == h.toc / 4
            &&& layout(w + tail, self_delimited) matches Some(l)
            &&& l.frames(w + tail) == h.frames.subrange(begin, end)
            &&& l.end() == w.len()
            &&& carries(l.padding(w + tail), exts + h.items(begin, end), end - begin)
        }),
{
    let frames = h.frames.subrange(begin, end);
    let all = exts + h.items(begin, end);
    assert forall|i: int| 0 <= i < frames.len() implies (#[trigger] frames[i]).len()
        <= MAX_FRAME_BYTES by {
        assert(frames[i] == h.frames[begin + i]);
    }
    let n = frames.len() as int;
    let m = h.frames.len() as int;
    let a = samples_per_frame(h.toc, 48000);
    let b = samples_per_frame(h.toc, 8000);
    lemma_samples_per_frame(h.toc);
    assert(m <= 48) by (nonlinear_arith)
        requires
            m * b <= 960,
            b >= 20,
    ;
    assert(a * n <= 5760) by (nonlinear_arith)
        requires
            m * b <= 960,
            a == 6 * b,
            0 <= n <= m,
            b >= 0,
    ;
    packed_round_trip(h.toc, frames, all, maxlen, self_delimited, pad, tail);
    packed_fits(h.toc, frames, all, maxlen, self_delimited, pad);
}

// ---------------------------------------------------------------------------
// Multistream packets
// ---------------------------------------------------------------------------

/// Where the stream behind the first `n` self-delimited packets starts.
pub open spec fn skip_streams(s: Seq<u8>, n: int) -> Option<int>
    decreases n,
{
    if n <= 0 {
        Some(0)
    } else {
        match layout(s, true) {
            None => None,
            Some(l) => match skip_streams(s.skip(l.end()), n - 1) {
                None => None,
                Some(k) => Some(l.end() + k),
            },
        }
    }
}

proof fn lemma_skip_streams(s: Seq<u8>, n: int)
    ensures
        skip_streams(s, n) matches Some(k) ==> 0 <= k <= s.len(),
    decreases n,
{
    if n > 0 {
        lemma_layout(s, true);
        if let Some(l) = layout(s, true) {
            lemma_skip_streams(s.skip(l.end()), n - 1);
        }
    }
}

/// Fills up the last stream of the multistream packet `data[..len]`, so that the whole
/// takes `new_len` bytes.
pub fn opus_multistream_packet_pad(data: &mut [u8], len: i32, new_len: i32, nb_streams: i32) -> (r: i32)
    requires
        len <= old(data)@.len(),
        1 <= len < new_len ==> (len <= COUNTED_BYTES && new_len <= old(data)@.len()) || (
        skip_streams(old(data)@.take(len as int), nb_streams - 1) matches Some(k) ==> k < len
            ==> can_repack(
            old(data)@.subrange(k, len as int),
            Seq::empty(),
            new_len - k,
            true,
            old(data)@.len() - k,
        )),
    ensures
        if len < 1 || len > new_len {
            r == OPUS_BAD_ARG && final(data)@ == old(data)@
        } else if len == new_len {
            r == OPUS_OK && final(data)@ == old(data)@
        } else {
            match skip_streams(old(data)@.take(len as int), nb_streams - 1) {
                None => r == OPUS_INVALID_PACKET && final(data)@ == old(data)@,
                Some(k) => if k == len {
                    r == OPUS_BAD_ARG && final(data)@ == old(data)@
                } else {
                    let x = repacked(old(data)@.subrange(k, len as int), Seq::empty(), new_len - k, true);
                    &&& r == if x.0 > 0 {
                        OPUS_OK as int
                    } else {
                        x.0
                    }
                    &&& final(data)@ == old(data)@.take(k) + overwritten(x.1, old(data)@.skip(k))
                },
            }
        },
{
    if len < 1 {
        return OPUS_BAD_ARG;
    }
    if len == new_len {
        return OPUS_OK;
    }
    if len > new_len {
        return OPUS_BAD_ARG;
    }
    let ghost all = data@.take(len as int);
    let mut offset: usize = 0;
    let mut i: i32 = 1;
    proof {
        assert(all.skip(0) =~= all);
    }
    while i < nb_streams
        invariant
            1 <= len <= data@.len(),
            data@ == old(data)@,
            all == data@.take(len as int),
            1 <= i,
            i <= nb_streams || i == 1,
            offset <= len,
            len < new_len,
            match skip_streams(all.skip(offset as int), nb_streams - i) {
                Some(k) => skip_streams(all, nb_streams - 1) == Some(offset + k),
                None => skip_streams(all, nb_streams - 1) is None,
            },
        decreases nb_streams - i,
    {
        let n: usize = len as usize - offset;
        let rest = &data[offset..len as usize];
        proof {
            assert(rest@ =~= all.skip(offset as int));
            assert(rest@.take(n as int) =~= rest@);
            lemma_layout(rest@, true);
        }
        match parse_packet(rest, n as i32, true) {
            Ok(p) => {
                proof {
                    let l = layout(rest@, true).unwrap();
                    assert(rest@.skip(l.end()) =~= all.skip(offset + l.end()));
                }
                offset = offset + p.packet_offset as usize;
            },
            Err(e) => {
                return e;
            },
        }
        i = i + 1;
    }
    let ghost before = data@;
    proof {
        assert(skip_streams(all, nb_streams - 1) == Some(offset as int));
        assert(before.skip(offset as int).take(len - offset) =~= before.subrange(
            offset as int,
            len as int,
        ));
        assert(before.take(offset as int) + before.skip(offset as int) =~= before);
    }
    let (_front, rest) = data.split_at_mut(offset);
    opus_packet_pad(rest, len - offset as i32, new_len - offset as i32)
}

/// The multistream packet `s` of `n` streams without padding; whether all its streams
/// are packets, and what is written up to the first that is not.
pub open spec fn unpadded_streams(s: Seq<u8>, n: int) -> (bool, Seq<u8>)
    decreases n,
{
    if n <= 0 {
        (true, Seq::empty())
    } else {
        match layout(s, n > 1) {
            None => (false, Seq::empty()),
            Some(l) => {
                let (ok, rest) = unpadded_streams(s.skip(l.end()), n - 1);
                (ok, minimal(s[0], l.frames(s), n > 1) + rest)
            },
        }
    }
}

/// Writes the packet at the front of `copy[from..]` without padding to `data` at `to`.
/// Returns how many bytes it took there and takes here.
fn unpad_stream(
    data: &mut [u8],
    copy: &[u8],
    from: usize,
    to: usize,
    self_delimited: bool,
) -> (r: Option<(usize, usize)>)
    requires
        to <= from <= copy@.len() <= old(data)@.len(),
        copy@.len() <= i32::MAX,
    ensures
        ({
            let s = copy@.skip(from as int);
            match layout(s, self_delimited) {
                None => r is None && final(data)@ == old(data)@,
                Some(l) => {
                    let w = minimal(s[0], l.frames(s), self_delimited);
                    &&& r matches Some(x)
                    &&& x.0 == l.end()
                    &&& x.1 == w.len()
                    &&& 1 <= x.1 <= x.0 <= s.len()
                    &&& final(data)@ == old(data)@.take(to as int) + w + old(data)@.skip(to + w.len())
                },
            }
        }),
{
    let rest = &copy[from..copy.len()];
    let n: i32 = rest.len() as i32;
    let ghost s = rest@;
    proof {
        assert(s =~= copy@.skip(from as int));
        assert(s.take(n as int) =~= s);
        lemma_layout(s, self_delimited);
        lemma_accepts(s, self_delimited);
    }
    let used: i32 = match parse_packet(rest, n, self_delimited) {
        Ok(p) => p.packet_offset,
        Err(_e) => {
            return None;
        },
    };
    let mut rp = OpusRepacketizer::new();
    let _ok: i32 = rp.cat_impl(rest, n, self_delimited);
    drop_padding(&mut rp);
    let nb: usize = rp.nb_frames;
    let none: [OpusExtensionData; 0] = [];
    let ghost before = data@;
    let ghost l = layout(s, self_delimited).unwrap();
    let ghost w = minimal(s[0], l.frames(s), self_delimited);
    proof {
        assert(items(none@) =~= Seq::<Item>::empty());
        assert(rp@.frames =~= l.frames(s));
        assert(rp@.frames.subrange(0, nb as int) =~= rp@.frames);
        assert(rp@.pads.subrange(0, nb as int) =~= rp@.pads);
        assert(Seq::<Item>::empty() + Seq::<Item>::empty() =~= Seq::<Item>::empty());
        packed_is_minimal(s[0], l.frames(s), n as int, self_delimited);
        minimal_is_shortest(s, self_delimited);
    }
    let (_front, out) = data.split_at_mut(to);
    let made: i32 = rp.out_range_impl(0, nb, out, n, self_delimited, false, &none);
    proof {
        assert(data@ =~= before.take(to as int) + w + before.skip(to + w.len()));
    }
    Some((used as usize, made as usize))
}

/// Takes all padding out of the multistream packet `data[..len]`. Returns how long it is
/// then, or the error.
pub fn opus_multistream_packet_unpad(data: &mut [u8], len: i32, nb_streams: i32) -> (r: i32)
    requires
        len <= old(data)@.len(),
    ensures
        if len < 1 {
            r == OPUS_BAD_ARG && final(data)@ == old(data)@
        } else {
            let (ok, w) = unpadded_streams(old(data)@.take(len as int), nb_streams as int);
            &&& r == if ok {
                w.len() as int
            } else {
                OPUS_INVALID_PACKET as int
            }
            &&& r <= len
            &&& final(data)@ == overwritten(w, old(data)@)
        },
{
    if len < 1 {
        return OPUS_BAD_ARG;
    }
    let copy: Vec<u8> = copy_front(data, len as usize);
    let ghost all = copy@;
    let ghost whole = unpadded_streams(all, nb_streams as int);
    let ghost mut w = Seq::<u8>::empty();
    let mut to: usize = 0;
    let mut from: usize = 0;
    let mut i: i32 = 0;
    proof {
        assert(all.skip(0) =~= all);
        assert(w + whole.1 =~= whole.1);
        assert(overwritten(w, data@) =~= data@);
    }
    while i < nb_streams
        invariant
            1 <= len <= old(data)@.len(),
            copy@ == all,
            all == old(data)@.take(len as int),
            0 <= i,
            i <= nb_streams || i == 0,
            to <= from <= len,
            to == w.len(),
            whole == unpadded_streams(all, nb_streams as int),
            ({
                let rest = unpadded_streams(all.skip(from as int), nb_streams - i);
                &&& whole.0 == rest.0
                &&& whole.1 == w + rest.1
            }),
            data@ == overwritten(w, old(data)@),
        decreases nb_streams - i,
    {
        let ghost s = all.skip(from as int);
        let ghost before = data@;
        match unpad_stream(data, copy.as_slice(), from, to, i != nb_streams - 1) {
            Some((used, made)) => {
                proof {
                    let l = layout(s, nb_streams - i > 1).unwrap();
                    let m = minimal(s[0], l.frames(s), nb_streams - i > 1);
                    assert(s.skip(l.end()) =~= all.skip(from + l.end()));
                    let rest = unpadded_streams(all.skip(from + l.end()), nb_streams - i - 1);
                    assert(w + (m + rest.1) =~= (w + m) + rest.1);
                    assert(data@ =~= overwritten(w + m, old(data)@));
                    w = w + m;
                }
                to = to + made;
                from = from + used;
            },
            None => {
                proof {
                    assert(w + Seq::<u8>::empty() =~= w);
                }
                return OPUS_INVALID_PACKET;
            },
        }
        i = i + 1;
    }
    proof {
        assert(w + Seq::<u8>::empty() =~= w);
    }
    to as i32
}

/// The frames of each of the `n` streams of a multistream packet.
pub open spec fn stream_frames(s: Seq<u8>, n: int) -> Option<Seq<Seq<Seq<u8>>>>
    decreases n,
{
    if n <= 0 {
        Some(Seq::empty())
    } else {
        match layout(s, n > 1) {
            None => None,
            Some(l) => match stream_frames(s.skip(l.end()), n - 1) {
                None => None,
                Some(rest) => Some(seq![l.frames(s)] + rest),
            },
        }
    }
}

/// Taking the padding out of a multistream packet keeps the frames of all streams.
pub proof fn unpadding_keeps_streams(s: Seq<u8>, n: int)
    requires
        n >= 1,
        s.len() <= i32::MAX,
    ensures
        unpadded_streams(s, n).0 == stream_frames(s, n) is Some,
        unpadded_streams(s, n).0 ==> stream_frames(unpadded_streams(s, n).1, n) == stream_frames(s, n),
    decreases n,
{
    reveal_with_fuel(stream_frames, 2);
    reveal_with_fuel(unpadded_streams, 2);
    if let Some(l) = layout(s, n > 1) {
        let frames = l.frames(s);
        let t = s.skip(l.end());
        let m = minimal(s[0], frames, n > 1);
        let rest = unpadded_streams(t, n - 1).1;
        lemma_layout(s, n > 1);
        lemma_layout_lengths(s, n > 1, l);
        minimal_is_shortest(s, n > 1);
        packed_is_minimal(s[0], frames, s.len() as int, n > 1);
        if n > 1 {
            unpadding_keeps_streams(t, n - 1);
        }
        packed_round_trip(s[0], frames, Seq::empty(), s.len() as int, n > 1, false, rest);
        assert((m + rest).skip(m.len() as int) =~= rest);
    }
}

} // verus!
