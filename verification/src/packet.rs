//! Packet framing: frame sizes, the table-of-contents byte, and the split of
//! a packet into its frames and its padding.

use vstd::prelude::*;
use crate::codes::{
    MAX_FRAMES, MAX_FRAME_BYTES, OPUS_BAD_ARG, OPUS_INVALID_PACKET,
};

verus! {

// ---------------------------------------------------------------------------
// Frame sizes
// ---------------------------------------------------------------------------

/// The one or two bytes that stand for a frame size in a packet header.
pub open spec fn size_bytes(size: int) -> Seq<u8> {
    if size < 252 {
        seq![size as u8]
    } else {
        seq![(252 + size % 4) as u8, (((size - 252 - size % 4) / 4) % 256) as u8]
    }
}

/// Reads a frame size off the front of `s`: how many bytes it takes, and its
/// value. `None` where `s` is too short to hold it.
pub open spec fn read_size(s: Seq<u8>) -> Option<(int, int)> {
    if s.len() < 1 {
        None
    } else if s[0] < 252 {
        Some((1, s[0] as int))
    } else if s.len() < 2 {
        None
    } else {
        Some((2, 4 * s[1] + s[0]))
    }
}

/// A frame size that fits in a header reads back as itself, whatever follows.
pub proof fn size_round_trip(size: int, tail: Seq<u8>)
    requires
        0 <= size <= MAX_FRAME_BYTES,
    ensures
        read_size(size_bytes(size) + tail) == Some((size_bytes(size).len() as int, size)),
{
}

/// What a frame size reads as, written again, gives the bytes that were read.
pub proof fn size_read_is_canonical(s: Seq<u8>)
    ensures
        read_size(s) matches Some((n, size)) ==> {
            &&& 0 <= size <= MAX_FRAME_BYTES
            &&& size_bytes(size).len() == n <= s.len()
            &&& size_bytes(size) == s.take(n)
        },
{
    if let Some((n, size)) = read_size(s) {
        assert(size_bytes(size) =~= s.take(n));
    }
}

/// Writes a frame size at the front of `data` and returns how many bytes it took.
pub fn encode_size(size: i32, data: &mut [u8]) -> (n: usize)
    requires
        0 <= size,
        size_bytes(size as int).len() <= old(data).len(),
    ensures
        n == size_bytes(size as int).len(),
        final(data)@ == size_bytes(size as int) + old(data)@.skip(n as int),
{
    if size < 252 {
        data[0] = size as u8;
        proof {
            assert(data@ =~= size_bytes(size as int) + old(data)@.skip(1));
        }
        1
    } else {
        let low: i32 = 252 + size % 4;
        data[0] = low as u8;
        data[1] = (((size - low) / 4) % 256) as u8;
        proof {
            assert(data@ =~= size_bytes(size as int) + old(data)@.skip(2));
        }
        2
    }
}

/// Reads a frame size off the first `len` bytes of `data`. Returns the number
/// of bytes consumed and the size, or `(-1, -1)` where the bytes run out.
pub fn parse_size(data: &[u8], len: i32) -> (r: (i32, i16))
    requires
        len <= data.len(),
    ensures
        match read_size(data@.take(if len < 0 { 0 } else { len as int })) {
            Some((n, size)) => r.0 == n && r.1 == size,
            None => r.0 == -1 && r.1 == -1,
        },
{
    if len < 1 {
        return (-1, -1);
    }
    let first: u8 = data[0];
    if first < 252 {
        (1, first as i16)
    } else if len < 2 {
        (-1, -1)
    } else {
        (2, 4 * (data[1] as i16) + first as i16)
    }
}

// ---------------------------------------------------------------------------
// The table-of-contents byte
// ---------------------------------------------------------------------------

/// Samples per frame at sampling rate `fs`, as the table-of-contents byte says.
pub open spec fn samples_per_frame(toc: u8, fs: int) -> int {
    let shape = (toc as int / 8) % 4;
    if toc >= 128 {
        fs * (if shape == 0 { 1int } else if shape == 1 { 2 } else if shape == 2 { 4 } else { 8 }) / 400
    } else if toc >= 96 {
        if shape % 2 == 1 {
            fs / 50
        } else {
            fs / 100
        }
    } else if shape == 3 {
        fs * 60 / 1000
    } else {
        fs * (if shape == 0 { 1int } else if shape == 1 { 2 } else { 4 }) / 100
    }
}

/// Samples per frame of the packet `data` at sampling rate `fs`.
pub fn opus_packet_get_samples_per_frame(data: &[u8], fs: i32) -> (r: i32)
    requires
        data.len() >= 1,
        0 <= fs <= i32::MAX / 60,
    ensures
        r == samples_per_frame(data[0], fs as int),
{
    let toc: u8 = data[0];
    let shape: u8 = (toc / 8) % 4;
    if toc >= 128 {
        let scale: i32 = if shape == 0 { 1 } else if shape == 1 { 2 } else if shape == 2 { 4 } else { 8 };
        (fs * scale) / 400
    } else if toc >= 96 {
        if shape % 2 == 1 {
            fs / 50
        } else {
            fs / 100
        }
    } else if shape == 3 {
        fs * 60 / 1000
    } else {
        let scale: i32 = if shape == 0 { 1 } else if shape == 1 { 2 } else { 4 };
        (fs * scale) / 100
    }
}

/// Number of frames that the head of a packet announces, or the error.
pub open spec fn nb_frames_of(s: Seq<u8>) -> Result<i32, i32> {
    if s.len() < 1 {
        Err(OPUS_BAD_ARG)
    } else if s[0] % 4 == 0 {
        Ok(1)
    } else if s[0] % 4 != 3 {
        Ok(2)
    } else if s.len() < 2 {
        Err(OPUS_INVALID_PACKET)
    } else {
        Ok((s[1] % 64) as i32)
    }
}

/// Number of frames in the packet `data`.
pub fn opus_packet_get_nb_frames(data: &[u8]) -> (r: Result<i32, i32>)
    ensures
        r == nb_frames_of(data@),
{
    if data.len() < 1 {
        return Err(OPUS_BAD_ARG);
    }
    let code: u8 = data[0] % 4;
    if code == 0 {
        Ok(1)
    } else if code != 3 {
        Ok(2)
    } else if data.len() < 2 {
        Err(OPUS_INVALID_PACKET)
    } else {
        Ok((data[1] % 64) as i32)
    }
}

// ---------------------------------------------------------------------------
// The split of a packet
// ---------------------------------------------------------------------------

/// Reads the length of the padding off the front of `s`: how many bytes say it,
/// and how many bytes of padding there are. A byte of 255 stands for 254 bytes
/// and says that another byte follows.
pub open spec fn read_padding(s: Seq<u8>) -> Option<(int, int)>
    decreases s.len(),
{
    if s.len() == 0 {
        None
    } else if s[0] == 255 {
        match read_padding(s.skip(1)) {
            Some((n, pad)) => Some((n + 1, pad + 254)),
            None => None,
        }
    } else {
        Some((1, s[0] as int))
    }
}

/// Reads `n` frame sizes off the front of `s`: how many bytes they take, and
/// the sizes.
pub open spec fn read_sizes(s: Seq<u8>, n: nat) -> Option<(int, Seq<int>)>
    decreases n,
{
    if n == 0 {
        Some((0, Seq::empty()))
    } else {
        match read_sizes(s, (n - 1) as nat) {
            Some((used, sizes)) => match read_size(s.skip(used)) {
                Some((k, size)) => Some((used + k, sizes.push(size))),
                None => None,
            },
            None => None,
        }
    }
}

/// The sum of frame sizes.
pub open spec fn total(sizes: Seq<int>) -> int
    decreases sizes.len(),
{
    if sizes.len() == 0 {
        0
    } else {
        total(sizes.drop_last()) + sizes.last()
    }
}

/// `n` frames of one size.
pub open spec fn same_sizes(n: nat, size: int) -> Seq<int> {
    Seq::new(n, |i: int| size)
}

/// What the head of a packet says.
pub ghost struct Head {
    /// Bytes that the head takes.
    pub len: int,
    /// Number of frames.
    pub count: int,
    /// Whether the frames differ in size.
    pub vbr: bool,
    /// The sizes that the head gives: all but the last one where they differ.
    pub sizes: Seq<int>,
    /// Bytes of padding.
    pub pad: int,
}

/// The head of a packet whose second byte counts the frames.
pub open spec fn counted_head(s: Seq<u8>) -> Option<Head> {
    if s.len() < 2 {
        None
    } else {
        let count = s[1] as int % 64;
        let padded = (s[1] as int / 64) % 2 == 1;
        let vbr = s[1] >= 128;
        if count == 0 || samples_per_frame(s[0], 48000) * count > 5760 {
            None
        } else {
            match if padded { read_padding(s.skip(2)) } else { Some((0, 0)) } {
                None => None,
                Some((n, pad)) => if 2 + n + pad > s.len() {
                    None
                } else if !vbr {
                    Some(Head { len: 2 + n, count, vbr, sizes: Seq::empty(), pad })
                } else {
                    match read_sizes(s.subrange(2 + n, s.len() - pad), (count - 1) as nat) {
                        None => None,
                        Some((m, sizes)) => Some(Head { len: 2 + n + m, count, vbr, sizes, pad }),
                    }
                },
            }
        }
    }
}

/// The head of the packet `s`. The two low bits of the first byte tell which of
/// four forms it has: one frame, two of one size, two of any size, or a counted
/// number of frames.
pub open spec fn read_head(s: Seq<u8>) -> Option<Head> {
    if s.len() == 0 {
        None
    } else if s[0] % 4 == 0 {
        Some(Head { len: 1, count: 1, vbr: true, sizes: Seq::empty(), pad: 0 })
    } else if s[0] % 4 == 1 {
        Some(Head { len: 1, count: 2, vbr: false, sizes: Seq::empty(), pad: 0 })
    } else if s[0] % 4 == 2 {
        match read_size(s.skip(1)) {
            None => None,
            Some((n, size)) => Some(
                Head { len: 1 + n, count: 2, vbr: true, sizes: seq![size], pad: 0 },
            ),
        }
    } else {
        counted_head(s)
    }
}

/// Where the frames of a packet stand in it.
pub ghost struct Layout {
    /// Offset of the first frame.
    pub start: int,
    /// The size of each frame.
    pub sizes: Seq<int>,
    /// Bytes of padding behind the last frame.
    pub pad: int,
}

/// Where the frames of the packet `s` stand, `None` where `s` is no packet. A
/// self-delimited packet says the size of its last frame and may be followed by
/// other bytes; any other packet takes up `s` whole.
#[verifier::opaque]
pub open spec fn layout(s: Seq<u8>, self_delimited: bool) -> Option<Layout> {
    match read_head(s) {
        None => None,
        Some(h) => {
            let end = s.len() - h.pad;
            if self_delimited {
                match read_size(s.subrange(h.len, end)) {
                    None => None,
                    Some((n, size)) => {
                        let sizes = if h.vbr {
                            h.sizes.push(size)
                        } else {
                            same_sizes(h.count as nat, size)
                        };
                        if h.len + n + total(sizes) > end {
                            None
                        } else {
                            Some(Layout { start: h.len + n, sizes, pad: h.pad })
                        }
                    },
                }
            } else if h.vbr {
                let size = end - h.len - total(h.sizes);
                if 0 <= size <= MAX_FRAME_BYTES {
                    Some(Layout { start: h.len, sizes: h.sizes.push(size), pad: h.pad })
                } else {
                    None
                }
            } else {
                let size = (end - h.len) / h.count;
                if size * h.count == end - h.len && size <= MAX_FRAME_BYTES {
                    Some(
                        Layout {
                            start: h.len,
                            sizes: same_sizes(h.count as nat, size),
                            pad: h.pad,
                        },
                    )
                } else {
                    None
                }
            }
        },
    }
}

impl Layout {
    /// Offset of frame `i`.
    pub open spec fn offset(self, i: int) -> int {
        self.start + total(self.sizes.take(i))
    }

    /// Offset of the byte behind the last frame.
    pub open spec fn frames_end(self) -> int {
        self.start + total(self.sizes)
    }

    /// Bytes of the packet, padding and all.
    pub open spec fn end(self) -> int {
        self.frames_end() + self.pad
    }

    /// The frames of the packet at the front of `s`.
    pub open spec fn frames(self, s: Seq<u8>) -> Seq<Seq<u8>> {
        Seq::new(
            self.sizes.len(),
            |i: int| s.subrange(self.offset(i), self.offset(i) + self.sizes[i]),
        )
    }

    /// The padding of the packet at the front of `s`.
    pub open spec fn padding(self, s: Seq<u8>) -> Seq<u8> {
        s.subrange(self.frames_end(), self.end())
    }
}

// ---------------------------------------------------------------------------
// Facts about sizes
// ---------------------------------------------------------------------------

pub proof fn lemma_total_push(sizes: Seq<int>, size: int)
    ensures
        total(sizes.push(size)) == total(sizes) + size,
{
    assert(sizes.push(size).drop_last() =~= sizes);
}

pub proof fn lemma_total_take(sizes: Seq<int>, i: int)
    requires
        0 <= i < sizes.len(),
    ensures
        total(sizes.take(i + 1)) == total(sizes.take(i)) + sizes[i],
{
    assert(sizes.take(i + 1).drop_last() =~= sizes.take(i));
}

/// Frames up to `j` take at least as many bytes as frames up to `i <= j`.
pub proof fn lemma_total_monotone(sizes: Seq<int>, i: int, j: int)
    requires
        0 <= i <= j <= sizes.len(),
        forall|k: int| 0 <= k < sizes.len() ==> 0 <= #[trigger] sizes[k],
    ensures
        0 <= total(sizes.take(i)) <= total(sizes.take(j)),
    decreases j,
{
    if i < j {
        lemma_total_take(sizes, j - 1);
        lemma_total_monotone(sizes, i, j - 1);
    } else if 0 < i {
        lemma_total_take(sizes, i - 1);
        lemma_total_monotone(sizes, i - 1, i - 1);
    }
}

pub proof fn lemma_total_constant(n: nat, size: int)
    ensures
        total(same_sizes(n, size)) == n * size,
    decreases n,
{
    if n > 0 {
        assert(same_sizes(n, size).drop_last() =~= same_sizes((n - 1) as nat, size));
        lemma_total_constant((n - 1) as nat, size);
        assert((n - 1) * size + size == n * size) by (nonlinear_arith);
    } else {
        assert(n * size == 0) by (nonlinear_arith)
            requires
                n == 0,
        ;
    }
}

pub proof fn lemma_read_padding(s: Seq<u8>)
    ensures
        read_padding(s) matches Some((n, pad)) ==> 1 <= n <= s.len() && 0 <= pad,
    decreases s.len(),
{
    if s.len() > 0 && s[0] == 255 {
        lemma_read_padding(s.skip(1));
    }
}

pub proof fn lemma_read_sizes(s: Seq<u8>, n: nat)
    ensures
        read_sizes(s, n) matches Some((used, sizes)) ==> {
            &&& 0 <= used <= s.len()
            &&& sizes.len() == n
            &&& forall|i: int| 0 <= i < n ==> 0 <= #[trigger] sizes[i] <= MAX_FRAME_BYTES
        },
    decreases n,
{
    if n > 0 {
        lemma_read_sizes(s, (n - 1) as nat);
    }
}

/// Reading fewer sizes succeeds wherever reading more of them does.
pub proof fn lemma_read_sizes_prefix(s: Seq<u8>, n: nat, m: nat)
    requires
        n <= m,
    ensures
        read_sizes(s, n) is None ==> read_sizes(s, m) is None,
    decreases m,
{
    if n < m {
        lemma_read_sizes_prefix(s, n, (m - 1) as nat);
    }
}

pub proof fn lemma_samples_per_frame(toc: u8)
    ensures
        120 <= samples_per_frame(toc, 48000) <= 2880,
        20 <= samples_per_frame(toc, 8000) <= 480,
        samples_per_frame(toc, 48000) == 6 * samples_per_frame(toc, 8000),
{
}

/// The number of frames that a valid head announces.
pub proof fn lemma_head(s: Seq<u8>)
    ensures
        read_head(s) matches Some(h) ==> {
            &&& 1 <= h.count <= MAX_FRAMES
            &&& samples_per_frame(s[0], 48000) * h.count <= 5760
            &&& 1 <= h.len <= s.len() - h.pad
            &&& 0 <= h.pad
            &&& h.sizes.len() == if h.vbr { h.count - 1 } else { 0 }
            &&& forall|i: int|
                0 <= i < h.sizes.len() ==> 0 <= #[trigger] h.sizes[i] <= MAX_FRAME_BYTES
        },
{
    if let Some(h) = read_head(s) {
        lemma_samples_per_frame(s[0]);
        if s[0] % 4 == 3 {
            let count = s[1] as int % 64;
            let per = samples_per_frame(s[0], 48000);
            assert(count <= 48) by (nonlinear_arith)
                requires
                    per >= 120,
                    per * count <= 5760,
            ;
            lemma_read_padding(s.skip(2));
            if (s[1] as int / 64) % 2 == 1 {
                let (n, pad) = read_padding(s.skip(2)).unwrap();
                lemma_read_sizes(s.subrange(2 + n, s.len() - pad), (count - 1) as nat);
            } else {
                lemma_read_sizes(s.subrange(2, s.len() as int), (count - 1) as nat);
            }
        } else {
            size_read_is_canonical(s.skip(1));
            assert(samples_per_frame(s[0], 48000) * h.count <= 5760) by (nonlinear_arith)
                requires
                    samples_per_frame(s[0], 48000) <= 2880,
                    h.count == 1 || h.count == 2,
            ;
        }
    }
}

// ---------------------------------------------------------------------------
// Splitting a packet
// ---------------------------------------------------------------------------

/// A packet split into its frames and its padding.
pub struct PacketParseResult<'a> {
    pub toc: u8,
    pub count: usize,
    pub frames: [&'a [u8]; MAX_FRAMES],
    pub sizes: [i16; MAX_FRAMES],
    pub padding: &'a [u8],
    pub padding_len: i32,
    pub packet_offset: i32,
}

impl<'a> PacketParseResult<'a> {
    /// Whether this is the split of the packet at the front of `s` that has the
    /// given layout.
    pub open spec fn describes(self, s: Seq<u8>, l: Layout) -> bool {
        &&& self.toc == s[0]
        &&& self.count == l.sizes.len()
        &&& self.count <= MAX_FRAMES
        &&& forall|i: int|
            0 <= i < self.count ==> {
                &&& (#[trigger] self.frames[i])@ == l.frames(s)[i]
                &&& self.sizes[i] == l.sizes[i]
            }
        &&& self.padding@ == l.padding(s)
        &&& self.padding_len == l.pad
        &&& self.packet_offset == l.end()
    }

    pub fn new() -> (r: Self)
        ensures
            r.toc == 0,
            r.count == 0,
            forall|i: int|
                0 <= i < MAX_FRAMES ==> (#[trigger] r.frames[i])@.len() == 0 && r.sizes[i] == 0,
            r.padding@.len() == 0,
            r.padding_len == 0,
            r.packet_offset == 0,
    {
        PacketParseResult {
            toc: 0,
            count: 0,
            frames: [&[]; MAX_FRAMES],
            sizes: [0; MAX_FRAMES],
            padding: &[],
            padding_len: 0,
            packet_offset: 0,
        }
    }
}

/// Reads the length of the padding off `data[pos..len]`: how many bytes say it,
/// and how many bytes of padding there are. `None` where head and padding do
/// not fit.
fn parse_padding(data: &[u8], pos: usize, len: usize) -> (r: Option<(usize, usize)>)
    requires
        pos <= len <= data.len(),
        len <= i32::MAX,
    ensures
        match read_padding(data@.subrange(pos as int, len as int)) {
            Some((n, pad)) => if n + pad <= len - pos {
                r matches Some(x) && x.0 == n && x.1 == pad
            } else {
                r is None
            },
            None => r is None,
        },
{
    let ghost s = data@.subrange(pos as int, len as int);
    let mut n: usize = 0;
    let mut pad: usize = 0;
    proof {
        assert(s.skip(0) =~= s);
    }
    loop
        invariant
            pos <= len <= data.len(),
            len <= i32::MAX,
            s == data@.subrange(pos as int, len as int),
            n + pad <= len - pos,
            match read_padding(s.skip(n as int)) {
                Some((m, p)) => read_padding(s) == Some((m + n, p + pad)),
                None => read_padding(s) is None,
            },
        decreases len - pos - n,
    {
        proof {
            lemma_read_padding(s.skip(n as int));
        }
        if n + pad >= len - pos {
            return None;
        }
        proof {
            assert(s.skip(n as int).skip(1) =~= s.skip(n + 1));
        }
        let byte: u8 = data[pos + n];
        n = n + 1;
        if byte != 255 {
            pad = pad + byte as usize;
            if n + pad > len - pos {
                return None;
            }
            return Some((n, pad));
        }
        pad = pad + 254;
        proof {
            lemma_read_padding(s.skip(n as int));
        }
        if n + pad > len - pos {
            return None;
        }
    }
}

/// Reads `n` frame sizes off `data[pos..end]` into `sizes` and returns how many
/// bytes they take.
fn parse_sizes(data: &[u8], pos: usize, end: usize, n: usize, sizes: &mut [i16; MAX_FRAMES]) -> (r:
    Option<usize>)
    requires
        pos <= end <= data.len(),
        end <= i32::MAX,
        n < MAX_FRAMES,
    ensures
        match read_sizes(data@.subrange(pos as int, end as int), n as nat) {
            Some((used, got)) => {
                &&& r matches Some(x)
                &&& x == used
                &&& forall|i: int| 0 <= i < n ==> final(sizes)[i] == #[trigger] got[i]
            },
            None => r is None,
        },
{
    let ghost s = data@.subrange(pos as int, end as int);
    let mut used: usize = 0;
    let mut i: usize = 0;
    while i < n
        invariant
            pos <= end <= data.len(),
            end <= i32::MAX,
            i <= n < MAX_FRAMES,
            s == data@.subrange(pos as int, end as int),
            used <= end - pos,
            read_sizes(s, i as nat) is Some,
            read_sizes(s, i as nat).unwrap().0 == used,
            forall|k: int| 0 <= k < i ==> sizes[k] == #[trigger] read_sizes(s, i as nat).unwrap().1[k],
        decreases n - i,
    {
        let rest = &data[pos + used..end];
        proof {
            lemma_read_sizes(s, i as nat);
            size_read_is_canonical(s.skip(used as int));
            assert(rest@ =~= s.skip(used as int));
            assert(rest@.take(rest@.len() as int) =~= rest@);
            lemma_read_sizes_prefix(s, (i + 1) as nat, n as nat);
        }
        let (bytes, size) = parse_size(rest, (end - pos - used) as i32);
        if size < 0 {
            return None;
        }
        sizes[i] = size;
        used = used + bytes as usize;
        i = i + 1;
    }
    Some(used)
}

/// The head of a packet, without the sizes that it gives.
struct HeadFields {
    len: usize,
    count: usize,
    vbr: bool,
    pad: usize,
}

/// Reads the head of the packet `data[..len]`, the sizes that it gives into `sizes`.
fn parse_head(data: &[u8], len: usize, sizes: &mut [i16; MAX_FRAMES]) -> (r: Option<HeadFields>)
    requires
        len <= data.len(),
        len <= i32::MAX,
    ensures
        match read_head(data@.take(len as int)) {
            Some(h) => {
                &&& r matches Some(f)
                &&& f.len == h.len
                &&& f.count == h.count
                &&& f.vbr == h.vbr
                &&& f.pad == h.pad
                &&& forall|i: int| 0 <= i < h.sizes.len() ==> final(sizes)[i] == #[trigger] h.sizes[i]
            },
            None => r is None,
        },
{
    let ghost s = data@.take(len as int);
    proof {
        lemma_head(s);
    }
    if len == 0 {
        return None;
    }
    let code: u8 = data[0] % 4;
    if code == 0 {
        return Some(HeadFields { len: 1, count: 1, vbr: true, pad: 0 });
    }
    if code == 1 {
        return Some(HeadFields { len: 1, count: 2, vbr: false, pad: 0 });
    }
    if code == 2 {
        let rest = &data[1..len];
        proof {
            assert(rest@ =~= s.skip(1));
            assert(rest@.take(rest@.len() as int) =~= rest@);
            size_read_is_canonical(rest@);
        }
        let (bytes, size) = parse_size(rest, (len - 1) as i32);
        if size < 0 {
            return None;
        }
        sizes[0] = size;
        return Some(HeadFields { len: 1 + bytes as usize, count: 2, vbr: true, pad: 0 });
    }
    if len < 2 {
        return None;
    }
    let second: u8 = data[1];
    let count: usize = (second % 64) as usize;
    let per_frame: i32 = opus_packet_get_samples_per_frame(data, 48000);
    proof {
        lemma_samples_per_frame(s[0]);
        assert(per_frame * count <= 2880 * 63) by (nonlinear_arith)
            requires
                0 <= per_frame <= 2880,
                0 <= count <= 63,
        ;
        assert(0 <= per_frame * count) by (nonlinear_arith)
            requires
                0 <= per_frame,
                0 <= count,
        ;
    }
    if count == 0 || per_frame * (count as i32) > 5760 {
        return None;
    }
    proof {
        assert(count <= 48) by (nonlinear_arith)
            requires
                per_frame >= 120,
                per_frame * count <= 5760,
        ;
        assert(data@.subrange(2, len as int) =~= s.skip(2));
        lemma_read_padding(s.skip(2));
    }
    let (n, pad): (usize, usize) = if (second / 64) % 2 == 1 {
        match parse_padding(data, 2, len) {
            Some(x) => x,
            None => {
                return None;
            },
        }
    } else {
        (0, 0)
    };
    if second < 128 {
        return Some(HeadFields { len: 2 + n, count, vbr: false, pad });
    }
    proof {
        assert(data@.subrange(2 + n, len - pad) =~= s.subrange(2 + n, s.len() - pad));
        lemma_read_sizes(s.subrange(2 + n, s.len() - pad), (count - 1) as nat);
    }
    match parse_sizes(data, 2 + n, len - pad, count - 1, sizes) {
        Some(m) => Some(HeadFields { len: 2 + n + m, count, vbr: true, pad }),
        None => None,
    }
}

/// What holds of every layout: at most 120 ms of frames, none longer than a
/// frame can be, which with the padding lie within the packet. Only a
/// self-delimited packet can end before `s` does.
pub proof fn lemma_layout(s: Seq<u8>, self_delimited: bool)
    ensures
        layout(s, self_delimited) matches Some(l) ==> {
            &&& s.len() >= 1
            &&& 1 <= l.sizes.len() <= MAX_FRAMES
            &&& samples_per_frame(s[0], 48000) * l.sizes.len() <= 5760
            &&& nb_frames_of(s) == Ok::<i32, i32>(l.sizes.len() as i32)
            &&& 1 <= l.start
            &&& 0 <= l.pad
            &&& forall|i: int|
                0 <= i < l.sizes.len() ==> 0 <= #[trigger] l.sizes[i] <= MAX_FRAME_BYTES
            &&& 0 <= total(l.sizes)
            &&& l.end() <= s.len()
            &&& !self_delimited ==> l.end() == s.len()
        },
{
    reveal(layout);
    lemma_head(s);
    if let Some(l) = layout(s, self_delimited) {
        let h = read_head(s).unwrap();
        let end = s.len() - h.pad;
        size_read_is_canonical(s.subrange(h.len, end));
        if h.vbr {
            lemma_total_push(h.sizes, l.sizes.last());
        } else {
            lemma_total_constant(h.count as nat, l.sizes[0]);
            if !self_delimited {
                assert(0 <= (end - h.len) / h.count) by (nonlinear_arith)
                    requires
                        end - h.len >= 0,
                        h.count >= 1,
                ;
                assert(l.sizes[0] * h.count == h.count * l.sizes[0]) by (nonlinear_arith);
            }
        }
        lemma_total_monotone(l.sizes, 0, l.sizes.len() as int);
        assert(l.sizes.take(l.sizes.len() as int) =~= l.sizes);
    }
}

impl Layout {
    /// Every frame lies within the packet and has the size that the layout says.
    pub proof fn lemma_frame(self, s: Seq<u8>, self_delimited: bool, i: int)
        requires
            layout(s, self_delimited) == Some(self),
            0 <= i < self.sizes.len(),
        ensures
            0 <= self.sizes[i] <= MAX_FRAME_BYTES,
            1 <= self.offset(i),
            self.offset(i) + self.sizes[i] <= self.frames_end() <= s.len(),
            self.frames(s)[i].len() == self.sizes[i],
    {
        lemma_layout(s, self_delimited);
        lemma_total_take(self.sizes, i);
        lemma_total_monotone(self.sizes, i, self.sizes.len() as int);
        lemma_total_monotone(self.sizes, i + 1, self.sizes.len() as int);
        assert(self.sizes.take(self.sizes.len() as int) =~= self.sizes);
    }
}

/// Finds the frames of the packet at the front of `data[..len]`: where the first
/// one starts, how many there are, and how much padding follows. Their sizes go
/// into `sizes`.
fn parse_layout(data: &[u8], len: usize, self_delimited: bool, sizes: &mut [i16; MAX_FRAMES]) -> (r:
    Option<(usize, usize, usize)>)
    requires
        len <= data.len(),
        len <= i32::MAX,
    ensures
        match layout(data@.take(len as int), self_delimited) {
            Some(l) => {
                &&& r matches Some(x)
                &&& x.0 == l.start
                &&& x.1 == l.sizes.len()
                &&& x.2 == l.pad
                &&& forall|i: int| 0 <= i < l.sizes.len() ==> final(sizes)[i] == #[trigger] l.sizes[i]
            },
            None => r is None,
        },
{
    let ghost s = data@.take(len as int);
    proof {
        reveal(layout);
        lemma_head(s);
        lemma_layout(s, self_delimited);
    }
    let head = match parse_head(data, len, sizes) {
        Some(h) => h,
        None => {
            return None;
        },
    };
    let ghost h = read_head(s).unwrap();
    let end: usize = len - head.pad;
    let count: usize = head.count;
    let mut start: usize = head.len;
    let mut explicit: i32 = 0;
    let mut i: usize = 0;
    if head.vbr {
        explicit = sum_sizes(sizes, count - 1);
        i = count - 1;
        proof {
            assert(sizes_of(sizes@, (count - 1) as nat) =~= h.sizes);
            lemma_total_monotone(h.sizes, 0, h.sizes.len() as int);
            assert(h.sizes.take(h.sizes.len() as int) =~= h.sizes);
        }
    }
    let last: i16;
    if self_delimited {
        let rest = &data[start..end];
        proof {
            assert(rest@ =~= s.subrange(h.len, s.len() - h.pad));
            assert(rest@.take(rest@.len() as int) =~= rest@);
            size_read_is_canonical(rest@);
        }
        let (bytes, size) = parse_size(rest, (end - start) as i32);
        if size < 0 {
            return None;
        }
        start = start + bytes as usize;
        last = size;
        proof {
            lemma_total_push(h.sizes, size as int);
            lemma_total_constant(count as nat, size as int);
            assert(0 <= count * size <= 48 * 1275) by (nonlinear_arith)
                requires
                    0 <= count <= 48,
                    0 <= size <= 1275,
            ;
        }
        let wanted: i32 = if head.vbr {
            explicit + size as i32
        } else {
            count as i32 * size as i32
        };
        if wanted > (end - start) as i32 {
            return None;
        }
    } else if head.vbr {
        let size: i32 = (end - start) as i32 - explicit;
        if size < 0 || size > MAX_FRAME_BYTES {
            return None;
        }
        last = size as i16;
    } else {
        let size: usize = (end - start) / count;
        proof {
            assert(0 <= size * count <= end - start) by (nonlinear_arith)
                requires
                    size == (end - start) / count as int,
                    count >= 1,
                    end - start >= 0,
            ;
        }
        if size * count != end - start || size > MAX_FRAME_BYTES as usize {
            return None;
        }
        last = size as i16;
    }
    let ghost l = layout(s, self_delimited).unwrap();
    while i < count
        invariant
            i <= count <= MAX_FRAMES,
            count == l.sizes.len(),
            forall|k: int| 0 <= k < i ==> sizes[k] == #[trigger] l.sizes[k],
            forall|k: int| i <= k < count ==> last == #[trigger] l.sizes[k],
        decreases count - i,
    {
        sizes[i] = last;
        i = i + 1;
    }
    Some((start, count, head.pad))
}

/// Splits the packet at the front of `data[..len]` into its frames and its padding.
pub fn parse_packet<'a>(data: &'a [u8], len: i32, self_delimited: bool) -> (r: Result<
    PacketParseResult<'a>,
    i32,
>)
    requires
        len <= data.len(),
    ensures
        match r {
            Ok(p) => {
                &&& len >= 0
                &&& layout(data@.take(len as int), self_delimited) matches Some(l)
                &&& p.describes(data@.take(len as int), l)
            },
            Err(e) => if len < 0 {
                e == OPUS_BAD_ARG
            } else {
                &&& e == OPUS_INVALID_PACKET
                &&& layout(data@.take(len as int), self_delimited) is None
            },
        },
{
    if len < 0 {
        return Err(OPUS_BAD_ARG);
    }
    let ghost s = data@.take(len as int);
    let n: usize = len as usize;
    let mut result = PacketParseResult::new();
    proof {
        lemma_layout(s, self_delimited);
    }
    let (start, count, pad): (usize, usize, usize) = match parse_layout(
        data,
        n,
        self_delimited,
        &mut result.sizes,
    ) {
        Some(x) => x,
        None => {
            return Err(OPUS_INVALID_PACKET);
        },
    };
    let ghost l = layout(s, self_delimited).unwrap();
    result.toc = data[0];
    result.count = count;
    let mut frame_pos: usize = start;
    proof {
        assert(l.sizes.take(0) =~= Seq::<int>::empty());
        assert(l.sizes.take(count as int) =~= l.sizes);
    }
    let mut i: usize = 0;
    while i < count
        invariant
            i <= count <= MAX_FRAMES,
            count == l.sizes.len(),
            n <= data.len(),
            s == data@.take(n as int),
            l.end() <= n,
            0 <= l.pad,
            0 <= l.start,
            frame_pos == l.offset(i as int),
            l.sizes.take(count as int) == l.sizes,
            forall|k: int| 0 <= k < count ==> result.sizes[k] == #[trigger] l.sizes[k],
            forall|k: int| 0 <= k < count ==> 0 <= #[trigger] l.sizes[k] <= MAX_FRAME_BYTES,
            forall|k: int| 0 <= k < i ==> (#[trigger] result.frames[k])@ == l.frames(s)[k],
            result.toc == s[0],
            result.count == count,
        decreases count - i,
    {
        let size: usize = result.sizes[i] as usize;
        proof {
            assert(result.sizes[i as int] == l.sizes[i as int]);
            lemma_total_take(l.sizes, i as int);
            lemma_total_monotone(l.sizes, i + 1, count as int);
            lemma_total_monotone(l.sizes, i as int, count as int);
        }
        result.frames[i] = &data[frame_pos..frame_pos + size];
        proof {
            assert(result.frames[i as int]@ =~= l.frames(s)[i as int]);
        }
        frame_pos = frame_pos + size;
        i = i + 1;
    }
    result.padding = &data[frame_pos..frame_pos + pad];
    result.padding_len = pad as i32;
    result.packet_offset = (frame_pos + pad) as i32;
    proof {
        assert(result.padding@ =~= l.padding(s));
    }
    Ok(result)
}

/// The first `n` of the sizes.
pub open spec fn sizes_of(sizes: Seq<i16>, n: nat) -> Seq<int> {
    Seq::new(n, |i: int| sizes[i] as int)
}

/// Adds up the first `n` sizes.
fn sum_sizes(sizes: &[i16; MAX_FRAMES], n: usize) -> (r: i32)
    requires
        n <= MAX_FRAMES,
    ensures
        r == total(sizes_of(sizes@, n as nat)),
        -0x8000 * n <= r <= 0x8000 * n,
{
    let mut sum: i32 = 0;
    let mut i: usize = 0;
    while i < n
        invariant
            i <= n <= MAX_FRAMES,
            sum == total(sizes_of(sizes@, i as nat)),
            -0x8000 * i <= sum <= 0x8000 * i,
        decreases n - i,
    {
        proof {
            assert(sizes_of(sizes@, (i + 1) as nat).drop_last() =~= sizes_of(sizes@, i as nat));
        }
        sum = sum + sizes[i] as i32;
        i = i + 1;
    }
    sum
}

// ---------------------------------------------------------------------------
// What first bytes say
// ---------------------------------------------------------------------------

/// Every first byte stands for one of the six durations of a frame.
pub proof fn durations_are_known(toc: u8, fs: int)
    requires
        fs == 8000 || fs == 12000 || fs == 16000 || fs == 24000 || fs == 48000,
    ensures
        ({
            let n = samples_per_frame(toc, fs);
            n == fs / 400 || n == fs / 200 || n == fs / 100 || n == fs / 50 || n == fs * 40 / 1000
                || n == fs * 60 / 1000
        }),
{
}

/// A packet has one frame, two, or up to 63 by its second byte. There is no number of
/// frames only where there is no byte, or where the second byte is to say it and is
/// missing.
pub proof fn frame_counts_are_bounded(s: Seq<u8>)
    ensures
        match nb_frames_of(s) {
            Ok(n) => {
                &&& s.len() >= 1
                &&& s[0] % 4 == 0 ==> n == 1
                &&& s[0] % 4 == 1 || s[0] % 4 == 2 ==> n == 2
                &&& 0 <= n <= 63
            },
            Err(e) => {
                ||| s.len() == 0 && e == OPUS_BAD_ARG
                ||| s.len() == 1 && s[0] % 4 == 3 && e == OPUS_INVALID_PACKET
            },
        },
{
}

/// A packet that can be read has as many frames as its first bytes say, and lasts no
/// longer than 120 ms.
pub proof fn packets_are_short(s: Seq<u8>, self_delimited: bool)
    requires
        layout(s, self_delimited) is Some,
    ensures
        ({
            let n = layout(s, self_delimited).unwrap().sizes.len() as int;
            &&& nb_frames_of(s) == Ok::<i32, i32>(n as i32)
            &&& 1 <= n <= MAX_FRAMES
            &&& n * samples_per_frame(s[0], 48000) <= 5760
        }),
{
    reveal(layout);
    lemma_layout(s, self_delimited);
    lemma_head(s);
    lemma_samples_per_frame(s[0]);
    let n = layout(s, self_delimited).unwrap().sizes.len() as int;
    let f = samples_per_frame(s[0], 48000);
    assert(n * f == f * n) by (nonlinear_arith);
}

} // verus!
