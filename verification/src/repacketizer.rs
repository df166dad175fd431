//! The repacketizer: takes the frames of several packets and writes them as one,
//! or takes a packet apart.

use vstd::prelude::*;
use crate::codes::{
    MAX_FRAMES, MAX_FRAME_BYTES, OPUS_BAD_ARG, OPUS_INTERNAL_ERROR, OPUS_INVALID_PACKET, OPUS_OK,
};
use crate::extension_bound::extensions_are_few;
use crate::extension_gen::{complete, in_range, overwritten, payloads_there};
use crate::extension_iter::{items, Cursor, Ext, Item, OpusExtensionData, OpusExtensionIterator};
use crate::extensions::{extensions_in, extensions_valid};
use crate::packet::{
    layout, lemma_layout, lemma_samples_per_frame, opus_packet_get_samples_per_frame, parse_packet,
    samples_per_frame, Layout,
};
use crate::packing::{contents, pack, packed, packed_fits};

verus! {

// ---------------------------------------------------------------------------
// What a repacketizer holds
// ---------------------------------------------------------------------------

/// The padding of a packet, which goes with its first frame.
pub ghost struct Pad {
    pub bytes: Seq<u8>,
    /// Bytes of it that count.
    pub len: int,
    /// Frames of the packet.
    pub nb_frames: int,
}

/// The frames that a repacketizer holds.
#[verifier::ext_equal]
pub ghost struct Held {
    pub toc: u8,
    pub frames: Seq<Seq<u8>>,
    pub pads: Seq<Pad>,
}

/// The padding that goes with frame `i` of the packet `s`: that of the packet goes
/// with its first frame.
pub open spec fn held_pad(s: Seq<u8>, l: Layout, i: int) -> Pad {
    if i == 0 {
        Pad { bytes: l.padding(s), len: l.pad, nb_frames: l.sizes.len() as int }
    } else {
        Pad { bytes: Seq::empty(), len: 0, nb_frames: 0 }
    }
}

impl Held {
    /// Whether these can be the frames of packets: none longer than a frame can be, and
    /// no more than 120 ms in all.
    pub open spec fn ok(self) -> bool {
        &&& forall|i: int|
            0 <= i < self.frames.len() ==> (#[trigger] self.frames[i]).len() <= MAX_FRAME_BYTES
        &&& self.frames.len() * samples_per_frame(self.toc, 8000) <= 960
        &&& self.pads.len() == self.frames.len()
    }

    /// The table-of-contents byte once the packet `s` was offered.
    pub open spec fn toc_for(self, s: Seq<u8>) -> u8 {
        if self.frames.len() == 0 {
            s[0]
        } else {
            self.toc
        }
    }

    /// Whether the frames of the packet at the front of `s` can be added: it must
    /// be of the same kind, and there can be no more than 120 ms in all.
    pub open spec fn accepts(self, s: Seq<u8>, self_delimited: bool) -> bool {
        &&& s.len() >= 1
        &&& self.toc_for(s) / 4 == s[0] / 4
        &&& layout(s, self_delimited) matches Some(l)
        &&& (self.frames.len() + l.sizes.len()) * samples_per_frame(s[0], 8000) <= 960
    }

    /// What is held once the frames of the packet at the front of `s` were added.
    pub open spec fn with(self, s: Seq<u8>, l: Layout) -> Held {
        Held {
            toc: self.toc_for(s),
            frames: self.frames + l.frames(s),
            pads: self.pads + Seq::new(l.sizes.len(), |i: int| held_pad(s, l, i)),
        }
    }
}

/// Takes the frames of packets and writes them as new packets.
pub struct OpusRepacketizer<'a> {
    pub toc: u8,
    pub nb_frames: usize,
    pub frames: [&'a [u8]; MAX_FRAMES],
    pub len: [i16; MAX_FRAMES],
    pub framesize: i32,
    pub paddings: [&'a [u8]; MAX_FRAMES],
    pub padding_len: [i32; MAX_FRAMES],
    pub padding_nb_frames: [u8; MAX_FRAMES],
}

impl<'a> OpusRepacketizer<'a> {
    /// What is held.
    pub open spec fn view(&self) -> Held {
        Held {
            toc: self.toc,
            frames: Seq::new(self.nb_frames as nat, |i: int| self.frames[i]@),
            pads: Seq::new(
                self.nb_frames as nat,
                |i: int|
                    Pad {
                        bytes: self.paddings[i]@,
                        len: self.padding_len[i] as int,
                        nb_frames: self.padding_nb_frames[i] as int,
                    },
            ),
        }
    }

    /// Whether the fields fit together: at most 120 ms of frames, of the lengths
    /// that are noted.
    pub open spec fn wf(&self) -> bool {
        &&& self.nb_frames <= MAX_FRAMES
        &&& self.nb_frames > 0 ==> {
            &&& self.framesize == samples_per_frame(self.toc, 8000)
            &&& self.nb_frames * self.framesize <= 960
        }
        &&& forall|i: int|
            0 <= i < self.nb_frames ==> {
                &&& 0 <= #[trigger] self.len[i] <= MAX_FRAME_BYTES
                &&& self.frames[i]@.len() == self.len[i]
            }
    }

    /// What a repacketizer holds are always frames of packets.
    pub proof fn holds_packets(&self)
        requires
            self.wf(),
        ensures
            self@.ok(),
    {
        assert forall|i: int| 0 <= i < self@.frames.len() implies (#[trigger] self@.frames[i]).len()
            <= MAX_FRAME_BYTES by {
            assert(self.len[i] <= MAX_FRAME_BYTES);
        }
    }

    /// A repacketizer that holds nothing.
    pub fn new() -> (r: Self)
        ensures
            r.wf(),
            r@ == (Held { toc: 0, frames: Seq::empty(), pads: Seq::empty() }),
    {
        let r = OpusRepacketizer {
            toc: 0,
            nb_frames: 0,
            frames: [&[]; MAX_FRAMES],
            len: [0; MAX_FRAMES],
            framesize: 0,
            paddings: [&[]; MAX_FRAMES],
            padding_len: [0; MAX_FRAMES],
            padding_nb_frames: [0; MAX_FRAMES],
        };
        proof {
            assert(r@ =~= (Held { toc: 0, frames: Seq::empty(), pads: Seq::empty() }));
        }
        r
    }

    /// Lets go of all frames.
    pub fn init(&mut self)
        requires
            old(self).wf(),
        ensures
            final(self).wf(),
            final(self)@ == (Held { toc: old(self)@.toc, frames: Seq::empty(), pads: Seq::empty() }),
    {
        self.nb_frames = 0;
        proof {
            assert(self@ =~= (Held {
                toc: old(self)@.toc,
                frames: Seq::empty(),
                pads: Seq::empty(),
            }));
        }
    }

    /// Adds the frames of the packet at the front of `data[..len]`.
    pub fn cat_impl(&mut self, data: &'a [u8], len: i32, self_delimited: bool) -> (r: i32)
        requires
            old(self).wf(),
            len <= data@.len(),
        ensures
            final(self).wf(),
            ({
                let s = data@.take(if len < 0 { 0 } else { len as int });
                if old(self)@.accepts(s, self_delimited) {
                    &&& r == OPUS_OK
                    &&& final(self)@ == old(self)@.with(s, layout(s, self_delimited).unwrap())
                } else {
                    &&& r == OPUS_INVALID_PACKET
                    &&& final(self)@ == (Held {
                        toc: if len < 1 {
                            old(self)@.toc
                        } else {
                            old(self)@.toc_for(s)
                        },
                        ..old(self)@
                    })
                }
            }),
    {
        if len < 1 {
            return OPUS_INVALID_PACKET;
        }
        let ghost s = data@.take(len as int);
        let first: u8 = data[0];
        proof {
            lemma_layout(s, self_delimited);
            lemma_samples_per_frame(first);
        }
        if self.nb_frames == 0 {
            self.toc = first;
            self.framesize = opus_packet_get_samples_per_frame(data, 8000);
            proof {
                assert(self@ =~= (Held { toc: first, ..old(self)@ }));
            }
        } else if self.toc / 4 != first / 4 {
            return OPUS_INVALID_PACKET;
        }
        let ghost held = self@;
        let count: usize = match parse_packet(data, len, self_delimited) {
            Ok(parsed) => {
                proof {
                    let l = layout(s, self_delimited).unwrap();
                    let n = parsed.count as int + self.nb_frames;
                    assert(samples_per_frame(first, 8000) == self.framesize);
                    assert(0 <= n * self.framesize <= 96 * 480) by (nonlinear_arith)
                        requires
                            0 <= n <= 96,
                            0 <= self.framesize <= 480,
                    ;
                }
                if (parsed.count + self.nb_frames) as i32 * self.framesize > 960 {
                    return OPUS_INVALID_PACKET;
                }
                let base: usize = self.nb_frames;
                proof {
                    let n = parsed.count + base;
                    assert(n <= 48) by (nonlinear_arith)
                        requires
                            n * self.framesize <= 960,
                            self.framesize >= 20,
                    ;
                }
                let mut i: usize = 0;
                while i < parsed.count
                    invariant
                        i <= parsed.count,
                        base + parsed.count <= MAX_FRAMES,
                        base == self.nb_frames,
                        self.toc == held.toc,
                        self.framesize == samples_per_frame(first, 8000),
                        parsed.describes(s, layout(s, self_delimited).unwrap()),
                        held.frames.len() == base,
                        held.pads.len() == base,
                        forall|k: int|
                            0 <= k < base ==> {
                                &&& 0 <= #[trigger] self.len[k] <= MAX_FRAME_BYTES
                                &&& self.frames[k]@.len() == self.len[k]
                            },
                        forall|k: int| 0 <= k < base ==> (#[trigger] self.frames[k])@ == held.frames[k],
                        forall|k: int|
                            0 <= k < base ==> (#[trigger] self.paddings[k])@ == held.pads[k].bytes,
                        forall|k: int|
                            0 <= k < base ==> #[trigger] self.padding_len[k] == held.pads[k].len,
                        forall|k: int|
                            0 <= k < base ==> #[trigger] self.padding_nb_frames[k] == held.pads[k].nb_frames,
                        forall|k: int|
                            base <= k < base + i ==> {
                                &&& #[trigger] self.len[k] == parsed.sizes[k - base]
                                &&& self.frames[k] == parsed.frames[k - base]
                                &&& self.padding_len[k] == (if k == base { parsed.padding_len } else { 0 })
                                &&& self.padding_nb_frames[k] == (if k == base {
                                    parsed.count as int
                                } else {
                                    0
                                })
                                &&& self.paddings[k]@ == (if k == base {
                                    parsed.padding@
                                } else {
                                    Seq::empty()
                                })
                            },
                    decreases parsed.count - i,
                {
                    self.frames[base + i] = parsed.frames[i];
                    self.len[base + i] = parsed.sizes[i];
                    if i == 0 {
                        self.paddings[base] = parsed.padding;
                        self.padding_len[base] = parsed.padding_len;
                        self.padding_nb_frames[base] = parsed.count as u8;
                    } else {
                        let none: &'a [u8] = &[];
                        proof {
                            assert(none@ =~= Seq::<u8>::empty());
                        }
                        self.paddings[base + i] = none;
                        self.padding_len[base + i] = 0;
                        self.padding_nb_frames[base + i] = 0;
                    }
                    proof {
                        let k = base + i;
                        assert(self.len[k] == parsed.sizes[i as int]);
                        assert(self.frames[k] == parsed.frames[i as int]);
                    }
                    i = i + 1;
                }
                proof {
                    let l = layout(s, self_delimited).unwrap();
                    let n = parsed.count as int;
                    assert forall|k: int| base <= k < base + n implies (#[trigger] self.frames[k])@
                        == l.frames(s)[k - base] by {
                        assert(self.len[k] == parsed.sizes[k - base]);
                        assert(parsed.frames[k - base]@ == l.frames(s)[k - base]);
                    }
                    assert forall|k: int| base <= k < base + n implies 0 <= #[trigger] self.len[k]
                        <= MAX_FRAME_BYTES && self.frames[k]@.len() == self.len[k] by {
                        assert(parsed.frames[k - base]@ == l.frames(s)[k - base]);
                        l.lemma_frame(s, self_delimited, k - base);
                    }
                    assert forall|k: int| base <= k < base + n implies (#[trigger] self.paddings[k])@
                        == held_pad(s, l, k - base).bytes by {
                        assert(self.len[k] == parsed.sizes[k - base]);
                    }
                    assert forall|k: int| base <= k < base + n implies #[trigger] self.padding_len[k]
                        == held_pad(s, l, k - base).len by {
                        assert(self.len[k] == parsed.sizes[k - base]);
                    }
                    assert forall|k: int| base <= k < base + n implies #[trigger] self.padding_nb_frames[k]
                        == held_pad(s, l, k - base).nb_frames by {
                        assert(self.len[k] == parsed.sizes[k - base]);
                    }
                }
                parsed.count
            },
            Err(_e) => {
                return OPUS_INVALID_PACKET;
            },
        };
        self.nb_frames = self.nb_frames + count;
        proof {
            let l = layout(s, self_delimited).unwrap();
            assert(self@.frames =~= old(self)@.with(s, l).frames);
            assert(self@.pads =~= old(self)@.with(s, l).pads);
        }
        OPUS_OK
    }

    /// Adds the frames of the packet `data[..len]`.
    pub fn cat(&mut self, data: &'a [u8], len: i32) -> (r: i32)
        requires
            old(self).wf(),
            len <= data@.len(),
        ensures
            final(self).wf(),
            ({
                let s = data@.take(if len < 0 { 0 } else { len as int });
                if old(self)@.accepts(s, false) {
                    &&& r == OPUS_OK
                    &&& final(self)@ == old(self)@.with(s, layout(s, false).unwrap())
                } else {
                    &&& r == OPUS_INVALID_PACKET
                    &&& final(self)@ == (Held {
                        toc: if len < 1 {
                            old(self)@.toc
                        } else {
                            old(self)@.toc_for(s)
                        },
                        ..old(self)@
                    })
                }
            }),
    {
        self.cat_impl(data, len, false)
    }

    /// Number of frames held.
    pub fn get_nb_frames(&self) -> (r: i32)
        requires
            self.wf(),
        ensures
            r == self@.frames.len(),
    {
        self.nb_frames as i32
    }
}

// ---------------------------------------------------------------------------
// Writing packets
// ---------------------------------------------------------------------------

impl Pad {
    /// Whether the padding holds extensions that can be read, or nothing.
    pub open spec fn readable(self) -> bool {
        self.len <= 0 || (self.nb_frames <= MAX_FRAMES && self.len <= self.bytes.len()
            && extensions_valid(self.bytes.take(self.len), self.nb_frames))
    }

    /// The extensions in the padding, for a packet whose frames start at `first`.
    pub open spec fn items(self, first: int) -> Seq<Item> {
        if self.len <= 0 {
            Seq::empty()
        } else {
            moved(extensions_in(self.bytes.take(self.len), self.nb_frames), first)
        }
    }
}

/// Extensions to be written for frames that start at `first`.
pub open spec fn moved(exts: Seq<Ext>, first: int) -> Seq<Item> {
    Seq::new(
        exts.len(),
        |i: int|
            Item {
                id: exts[i].id,
                frame: exts[i].frame + first,
                len: exts[i].data.len() as int,
                data: exts[i].data,
            },
    )
}

/// The extensions in the padding of the first `n` frames.
pub open spec fn stored_items(pads: Seq<Pad>, n: int) -> Seq<Item>
    decreases n,
{
    if n <= 0 {
        Seq::empty()
    } else {
        stored_items(pads, n - 1) + pads[n - 1].items(n - 1)
    }
}

/// Whether all padding can be read.
pub open spec fn all_readable(pads: Seq<Pad>) -> bool {
    forall|i: int| 0 <= i < pads.len() ==> (#[trigger] pads[i]).readable()
}

impl Held {
    /// Extensions that go with frames `begin` up to `end`.
    pub open spec fn items(self, begin: int, end: int) -> Seq<Item> {
        stored_items(self.pads.subrange(begin, end), end - begin)
    }

    /// Frames `begin` up to `end` as a packet: the number of bytes, or the error; and
    /// what is written by then. Extensions in the padding go along.
    pub open spec fn out(
        self,
        begin: int,
        end: int,
        exts: Seq<Item>,
        maxlen: int,
        self_delimited: bool,
        pad: bool,
    ) -> (int, Seq<u8>) {
        if begin >= end || end > self.frames.len() {
            (OPUS_BAD_ARG as int, Seq::empty())
        } else if !all_readable(self.pads.subrange(begin, end)) {
            (OPUS_INTERNAL_ERROR as int, Seq::empty())
        } else {
            packed(
                self.toc,
                self.frames.subrange(begin, end),
                exts + self.items(begin, end),
                maxlen,
                self_delimited,
                pad,
            )
        }
    }
}

/// Most bytes of padding whose extensions can be counted for sure.
pub const COUNTED_PADDING: i32 = 900_000;

impl Held {
    /// Whether frames `begin` up to `end` can be written as a packet in `room` bytes: what
    /// is written fits, and the extensions can be counted. That is so where there is room
    /// for all it may take, and padding is not of millions of bytes.
    pub open spec fn can_write(
        self,
        begin: int,
        end: int,
        exts: Seq<Item>,
        maxlen: int,
        self_delimited: bool,
        pad: bool,
        room: int,
    ) -> bool {
        &&& maxlen <= room || self.out(begin, end, exts, maxlen, self_delimited, pad).1.len() <= room
        &&& begin < end <= self.frames.len() ==> (exts.len() <= 1_000_000 && self.small_pads())
            || exts.len() + self.items(begin, end).len() <= i32::MAX
    }

    /// Whether padding is not of millions of bytes.
    pub open spec fn small_pads(self) -> bool {
        forall|i: int| 0 <= i < self.pads.len() ==> (#[trigger] self.pads[i]).len <= COUNTED_PADDING
    }

    proof fn lemma_can_write(
        self,
        begin: int,
        end: int,
        exts: Seq<Item>,
        maxlen: int,
        self_delimited: bool,
        pad: bool,
        room: int,
    )
        requires
            self.ok(),
            self.frames.len() <= MAX_FRAMES,
            self.can_write(begin, end, exts, maxlen, self_delimited, pad, room),
            forall|i: int| 0 <= i < self.pads.len() ==> (#[trigger] self.pads[i]).nb_frames >= 0,
            0 <= begin,
            0 <= room,
        ensures
            self.out(begin, end, exts, maxlen, self_delimited, pad).1.len() <= room,
            begin < end <= self.frames.len() && all_readable(self.pads.subrange(begin, end))
                ==> exts.len() + self.items(begin, end).len() <= i32::MAX,
    {
        if begin < end <= self.frames.len() {
            let some = self.frames.subrange(begin, end);
            assert forall|j: int| 0 <= j < some.len() implies (#[trigger] some[j]).len()
                <= MAX_FRAME_BYTES by {
                assert(some[j] == self.frames[begin + j]);
            }
            packed_fits(
                self.toc,
                some,
                exts + self.items(begin, end),
                maxlen,
                self_delimited,
                pad,
            );
            let pads = self.pads.subrange(begin, end);
            if self.small_pads() && all_readable(pads) {
                lemma_few_stored(pads, end - begin);
            }
        }
    }
}

/// Small padding stores few extensions.
proof fn lemma_few_stored(pads: Seq<Pad>, n: int)
    requires
        0 <= n <= pads.len(),
        all_readable(pads),
        forall|i: int|
            0 <= i < pads.len() ==> (#[trigger] pads[i]).len <= COUNTED_PADDING
                && pads[i].nb_frames >= 0,
    ensures
        stored_items(pads, n).len() <= n * 44_100_000,
    decreases n,
{
    if n > 0 {
        lemma_few_stored(pads, n - 1);
        let pad = pads[n - 1];
        assert(pad.readable());
        if pad.len > 0 {
            extensions_are_few(pad.bytes.take(pad.len), pad.nb_frames);
        }
    }
}

/// What padding stores has its payloads.
proof fn lemma_stored_complete(pads: Seq<Pad>, n: int)
    ensures
        complete(stored_items(pads, n)),
    decreases n,
{
    if n > 0 {
        lemma_stored_complete(pads, n - 1);
        let a = stored_items(pads, n - 1);
        let b = pads[n - 1].items(n - 1);
        assert forall|i: int| 0 <= i < (a + b).len() implies (#[trigger] (a + b)[i]).len <= (a
            + b)[i].data.len() by {
            if i < a.len() {
                assert((a + b)[i] == a[i]);
            } else {
                assert((a + b)[i] == b[i - a.len()]);
            }
        }
    }
}

/// Where the given extensions have their payloads, so have all of them.
proof fn lemma_all_complete(exts: Seq<Item>, pads: Seq<Pad>, n: int)
    requires
        payloads_there(exts, n),
    ensures
        payloads_there(exts + stored_items(pads, n), n),
{
    let b = stored_items(pads, n);
    lemma_stored_complete(pads, n);
    if n <= MAX_FRAMES && in_range(exts + b, n) {
        assert forall|i: int| 0 <= i < exts.len() implies {
            &&& 0 <= (#[trigger] exts[i]).frame < n
            &&& 3 <= exts[i].id <= 127
        } by {
            assert(exts[i] == (exts + b)[i]);
        }
        assert forall|i: int| 0 <= i < (exts + b).len() implies (#[trigger] (exts + b)[i]).len <= (
        exts + b)[i].data.len() by {
            if i < exts.len() {
                assert((exts + b)[i] == exts[i]);
            } else {
                assert((exts + b)[i] == b[i - exts.len()]);
            }
        }
    }
}

/// Appends the extensions in some padding to `all`. Returns whether it can be read.
fn collect_padding<'a>(
    bytes: &'a [u8],
    len: i32,
    nb_frames: u8,
    first: i32,
    all: &mut Vec<OpusExtensionData<'a>>,
) -> (r: bool)
    requires
        0 <= first <= MAX_FRAMES,
    ensures
        ({
            let p = Pad { bytes: bytes@, len: len as int, nb_frames: nb_frames as int };
            &&& r == p.readable()
            &&& r ==> items(final(all)@) == items(old(all)@) + p.items(first as int)
        }),
{
    let ghost p = Pad { bytes: bytes@, len: len as int, nb_frames: nb_frames as int };
    if len <= 0 {
        proof {
            assert(items(all@) + p.items(first as int) =~= items(all@));
        }
        return true;
    }
    if nb_frames as usize > MAX_FRAMES || len as usize > bytes.len() {
        return false;
    }
    let ghost start = Cursor::start(bytes@.take(len as int), nb_frames as int);
    let ghost exts = start.rest();
    let ghost before = items(all@);
    let ghost mut done: int = 0;
    let mut iter = OpusExtensionIterator::new(bytes, len, nb_frames as i32);
    proof {
        assert(exts.skip(0) =~= exts);
        assert(before + moved(exts.take(0), first as int) =~= before);
    }
    loop
        invariant
            iter.wf(),
            0 <= first <= MAX_FRAMES,
            nb_frames <= MAX_FRAMES,
            0 < len <= bytes@.len(),
            start == Cursor::start(bytes@.take(len as int), nb_frames as int),
            exts == start.rest(),
            p == (Pad { bytes: bytes@, len: len as int, nb_frames: nb_frames as int }),
            before == items(old(all)@),
            0 <= done <= exts.len(),
            exts.skip(done) == iter@.rest(),
            start.ends_well() == iter@.ends_well(),
            iter@.nb_frames == nb_frames,
            iter@.frame_max == nb_frames,
            items(all@) == before + moved(exts.take(done), first as int),
        decreases iter@.rest().len(),
    {
        let ghost now = iter@;
        let ghost have = items(all@);
        let (ret, ext) = iter.next_ext();
        proof {
            now.lemma_next();
            if now.next().0 is Found {
                assert(exts.skip(done)[0] == exts[done]);
                assert(exts.skip(done + 1) =~= exts.skip(done).skip(1));
                assert((seq![now.next().0->Found_0] + iter@.rest()).skip(1) =~= iter@.rest());
            } else {
                assert(exts.take(done) =~= exts);
            }
        }
        if ret == 0 {
            return true;
        }
        if ret < 0 {
            return false;
        }
        let moved_ext = OpusExtensionData {
            id: ext.id,
            frame: ext.frame + first,
            data: ext.data,
            len: ext.len,
        };
        all.push(moved_ext);
        proof {
            assert(items(all@) =~= have.push(moved_ext.item()));
            assert(items(all@) =~= before + moved(exts.take(done + 1), first as int));
            done = done + 1;
        }
    }
}

impl<'a> OpusRepacketizer<'a> {
    /// Writes frames `begin` up to `end` as a packet of at most `maxlen` bytes: in the
    /// most compact form, self-delimited or not, with the extensions in their padding
    /// and the given ones, and with `pad_to_max` filled up to `maxlen`. Returns the
    /// number of bytes, or the error.
    pub fn out_range_impl(
        &self,
        begin: usize,
        end: usize,
        data: &mut [u8],
        maxlen: i32,
        self_delimited: bool,
        pad_to_max: bool,
        extensions: &[OpusExtensionData<'a>],
    ) -> (r: i32)
        requires
            self.wf(),
            begin < end <= self@.frames.len() ==> payloads_there(
                items(extensions@),
                end - begin,
            ),
            self@.can_write(
                begin as int,
                end as int,
                items(extensions@),
                maxlen as int,
                self_delimited,
                pad_to_max,
                old(data)@.len() as int,
            ),
        ensures
            ({
                let x = self@.out(
                    begin as int,
                    end as int,
                    items(extensions@),
                    maxlen as int,
                    self_delimited,
                    pad_to_max,
                );
                &&& r == x.0
                &&& final(data)@ == overwritten(x.1, old(data)@)
            }),
    {
        proof {
            assert(overwritten(Seq::empty(), data@) =~= data@);
            self.holds_packets();
            self@.lemma_can_write(
                begin as int,
                end as int,
                items(extensions@),
                maxlen as int,
                self_delimited,
                pad_to_max,
                data@.len() as int,
            );
        }
        if begin >= end || end > self.nb_frames {
            return OPUS_BAD_ARG;
        }
        let count: usize = end - begin;
        let ghost pads = self@.pads.subrange(begin as int, end as int);
        let mut all: Vec<OpusExtensionData<'a>> = Vec::new();
        let mut k: usize = 0;
        while k < extensions.len()
            invariant
                k <= extensions@.len(),
                items(all@) == items(extensions@).take(k as int),
            decreases extensions@.len() - k,
        {
            let ghost have = items(all@);
            all.push(extensions[k]);
            proof {
                assert(items(all@) =~= have.push(extensions@[k as int].item()));
                assert(items(all@) =~= items(extensions@).take(k + 1));
            }
            k = k + 1;
        }
        proof {
            assert(items(all@) =~= items(extensions@) + stored_items(pads, 0));
        }
        let mut i: usize = 0;
        while i < count
            invariant
                self.wf(),
                begin < end <= self.nb_frames,
                count == end - begin,
                i <= count,
                pads == self@.pads.subrange(begin as int, end as int),
                items(all@) == items(extensions@) + stored_items(pads, i as int),
                forall|j: int| 0 <= j < i ==> (#[trigger] pads[j]).readable(),
                data@ == old(data)@,
                overwritten(Seq::empty(), old(data)@) == old(data)@,
            decreases count - i,
        {
            let ghost have = items(all@);
            let at: usize = begin + i;
            let ok = collect_padding(
                self.paddings[at],
                self.padding_len[at],
                self.padding_nb_frames[at],
                i as i32,
                &mut all,
            );
            proof {
                assert(pads[i as int] == (Pad {
                    bytes: self.paddings[at as int]@,
                    len: self.padding_len[at as int] as int,
                    nb_frames: self.padding_nb_frames[at as int] as int,
                }));
                assert(items(extensions@) + stored_items(pads, i as int) + pads[i as int].items(
                    i as int,
                ) =~= items(extensions@) + stored_items(pads, i + 1));
            }
            if !ok {
                return OPUS_INTERNAL_ERROR;
            }
            i = i + 1;
        }
        let frames = &self.frames[begin..end];
        proof {
            let some = self@.frames.subrange(begin as int, end as int);
            assert(contents(frames@) =~= some);
            assert(all_readable(pads));
            assert(items(all@).len() == all@.len());
            lemma_all_complete(items(extensions@), pads, count as int);
            assert forall|j: int| 0 <= j < some.len() implies (#[trigger] some[j]).len()
                <= MAX_FRAME_BYTES by {
                assert(self.len[begin + j] <= MAX_FRAME_BYTES);
            }
        }
        pack(data, self.toc, frames, all.as_slice(), maxlen, self_delimited, pad_to_max)
    }

    /// Writes frames `begin` up to `end` as a packet of at most `maxlen` bytes.
    pub fn out_range(&self, begin: usize, end: usize, data: &mut [u8], maxlen: i32) -> (r: i32)
        requires
            self.wf(),
            self@.can_write(
                begin as int,
                end as int,
                Seq::empty(),
                maxlen as int,
                false,
                false,
                old(data)@.len() as int,
            ),
        ensures
            ({
                let x = self@.out(
                    begin as int,
                    end as int,
                    Seq::empty(),
                    maxlen as int,
                    false,
                    false,
                );
                &&& r == x.0
                &&& final(data)@ == overwritten(x.1, old(data)@)
            }),
    {
        let none: [OpusExtensionData<'a>; 0] = [];
        proof {
            assert(items(none@) =~= Seq::<Item>::empty());
        }
        self.out_range_impl(begin, end, data, maxlen, false, false, &none)
    }

    /// Writes all frames as a packet of at most `maxlen` bytes.
    pub fn out(&self, data: &mut [u8], maxlen: i32) -> (r: i32)
        requires
            self.wf(),
            self@.can_write(
                0,
                self@.frames.len() as int,
                Seq::empty(),
                maxlen as int,
                false,
                false,
                old(data)@.len() as int,
            ),
        ensures
            ({
                let x = self@.out(
                    0,
                    self@.frames.len() as int,
                    Seq::empty(),
                    maxlen as int,
                    false,
                    false,
                );
                &&& r == x.0
                &&& final(data)@ == overwritten(x.1, old(data)@)
            }),
    {
        self.out_range(0, self.nb_frames, data, maxlen)
    }
}

} // verus!
