//! Writing frames as a packet: in the most compact form, or with padding and
//! extensions.

use vstd::prelude::*;
use crate::codes::{MAX_FRAMES, MAX_FRAME_BYTES, OPUS_BUFFER_TOO_SMALL};
use crate::extension_gen::{
    complete, generated, generated_exact, generated_fits, opus_packet_extensions_generate,
    overwritten, payloads_there,
};
use crate::extension_iter::{items, Item, OpusExtensionData};
use crate::packet::{encode_size, size_bytes};

verus! {

// ---------------------------------------------------------------------------
// What is written
// ---------------------------------------------------------------------------

/// The frames one after the other.
pub open spec fn joined(frames: Seq<Seq<u8>>) -> Seq<u8>
    decreases frames.len(),
{
    if frames.len() == 0 {
        Seq::empty()
    } else {
        joined(frames.drop_last()) + frames.last()
    }
}

/// The sizes of the first `n` frames, as header bytes.
pub open spec fn size_header(frames: Seq<Seq<u8>>, n: int) -> Seq<u8>
    decreases n,
{
    if n <= 0 {
        Seq::empty()
    } else {
        size_header(frames, n - 1) + size_bytes(frames[n - 1].len() as int)
    }
}

/// Whether all frames have one size.
pub open spec fn same_size(frames: Seq<Seq<u8>>) -> bool {
    forall|i: int| 0 <= i < frames.len() ==> (#[trigger] frames[i]).len() == frames[0].len()
}

/// The first byte of a packet of the given form.
pub open spec fn form_byte(toc: u8, form: int) -> u8 {
    (toc - toc % 4 + form) as u8
}

/// The head of one or two frames without padding.
pub open spec fn compact_head(toc: u8, frames: Seq<Seq<u8>>) -> Seq<u8> {
    if frames.len() == 1 {
        seq![form_byte(toc, 0)]
    } else if frames.len() == 2 {
        if same_size(frames) {
            seq![form_byte(toc, 1)]
        } else {
            seq![form_byte(toc, 2)] + size_bytes(frames[0].len() as int)
        }
    } else {
        Seq::empty()
    }
}

/// The size of the last frame, which a self-delimited packet gives.
pub open spec fn end_size(frames: Seq<Seq<u8>>, self_delimited: bool) -> Seq<u8> {
    if self_delimited {
        size_bytes(frames.last().len() as int)
    } else {
        Seq::empty()
    }
}

/// The two bytes at the head of a counted number of frames.
pub open spec fn counted_bytes(toc: u8, frames: Seq<Seq<u8>>, padded: bool) -> Seq<u8> {
    seq![
        form_byte(toc, 3),
        (frames.len() + (if same_size(frames) {
            0int
        } else {
            128
        }) + (if padded {
            64int
        } else {
            0
        })) as u8,
    ]
}

/// The sizes in the head of a counted number of frames.
pub open spec fn counted_sizes(frames: Seq<Seq<u8>>) -> Seq<u8> {
    if same_size(frames) {
        Seq::empty()
    } else {
        size_header(frames, frames.len() - 1)
    }
}

/// The bytes that say that there are `amount` bytes of padding, themselves counted.
#[verifier::opaque]
pub open spec fn amount_bytes(amount: int) -> Seq<u8> {
    let full = (amount - 1) / 255;
    Seq::new(full as nat, |i: int| 255u8).push((amount - 255 * full - 1) as u8)
}

/// Bytes that a counted number of frames takes without padding.
pub open spec fn counted_len(frames: Seq<Seq<u8>>, self_delimited: bool) -> int {
    2int + counted_sizes(frames).len() + end_size(frames, self_delimited).len() + joined(frames).len()
}

/// Bytes by which the packet is longer than without padding.
pub open spec fn pad_amount(ext_count: int, ext_len: int, room: int, pad: bool) -> int {
    if pad {
        room
    } else if ext_count > 0 {
        ext_len + if ext_len != 0 {
            (ext_len + 253) / 254
        } else {
            1
        }
    } else {
        0
    }
}

/// A counted number of frames, with extensions whose bytes are given, as a packet of
/// at most `maxlen` bytes: the number of bytes, or the error; and what is written by
/// then.
pub open spec fn finished_packet(
    toc: u8,
    frames: Seq<Seq<u8>>,
    ext_count: int,
    ext_bytes: Seq<u8>,
    maxlen: int,
    self_delimited: bool,
    pad: bool,
) -> (int, Seq<u8>) {
    let len = counted_len(frames, self_delimited);
    let body = counted_sizes(frames) + end_size(frames, self_delimited) + joined(frames);
    let ext_len = ext_bytes.len() as int;
    let amount = pad_amount(ext_count, ext_len, maxlen - len, pad);
    if amount == 0 {
        (len, counted_bytes(toc, frames, false) + body)
    } else if len + ext_len + amount_bytes(amount).len() > maxlen {
        (OPUS_BUFFER_TOO_SMALL as int, counted_bytes(toc, frames, true))
    } else {
        (
            len + amount,
            counted_bytes(toc, frames, true) + amount_bytes(amount) + body + fill_bytes(
                amount - ext_len - amount_bytes(amount).len(),
                ext_count > 0,
            ) + ext_bytes,
        )
    }
}

/// A counted number of frames as a packet of at most `maxlen` bytes: the number of
/// bytes, or the error; and what is written by then.
pub open spec fn counted_packet(
    toc: u8,
    frames: Seq<Seq<u8>>,
    exts: Seq<Item>,
    maxlen: int,
    self_delimited: bool,
    pad: bool,
) -> (int, Seq<u8>) {
    let len = counted_len(frames, self_delimited);
    if len > maxlen {
        (OPUS_BUFFER_TOO_SMALL as int, Seq::empty())
    } else if exts.len() == 0 {
        finished_packet(toc, frames, 0, Seq::empty(), maxlen, self_delimited, pad)
    } else {
        let (r, bytes) = generated(exts, frames.len() as int, maxlen - len, false);
        if r < 0 {
            (r, counted_bytes(toc, frames, false))
        } else {
            finished_packet(toc, frames, exts.len() as int, bytes, maxlen, self_delimited, pad)
        }
    }
}

/// Padding without content: ones in front of extensions, zeros otherwise.
pub open spec fn fill_bytes(n: int, before_extensions: bool) -> Seq<u8> {
    Seq::new(
        n as nat,
        |i: int|
            if before_extensions {
                1u8
            } else {
                0u8
            },
    )
}

/// `over` written over `under`.
pub open spec fn overlaid(over: Seq<u8>, under: Seq<u8>) -> Seq<u8> {
    if over.len() >= under.len() {
        over
    } else {
        over + under.skip(over.len() as int)
    }
}

/// The frames as a packet of at most `maxlen` bytes: the number of bytes, or the
/// error; and what is written by then. One or two frames go without a count unless
/// there is something to pad with.
#[verifier::opaque]
pub open spec fn packed(
    toc: u8,
    frames: Seq<Seq<u8>>,
    exts: Seq<Item>,
    maxlen: int,
    self_delimited: bool,
    pad: bool,
) -> (int, Seq<u8>) {
    let head = compact_head(toc, frames);
    let bytes = head + end_size(frames, self_delimited) + joined(frames);
    if frames.len() > 2 {
        counted_packet(toc, frames, exts, maxlen, self_delimited, pad)
    } else if bytes.len() > maxlen {
        (OPUS_BUFFER_TOO_SMALL as int, Seq::empty())
    } else if exts.len() > 0 || (pad && bytes.len() < maxlen) {
        let (r, w) = counted_packet(toc, frames, exts, maxlen, self_delimited, pad);
        (r, overlaid(w, head))
    } else {
        (bytes.len() as int, bytes)
    }
}

/// Whether there are as many frames as a packet can hold, none longer than a frame
/// can be.
pub open spec fn frames_ok(frames: Seq<Seq<u8>>) -> bool {
    &&& 1 <= frames.len() <= MAX_FRAMES
    &&& forall|i: int| 0 <= i < frames.len() ==> (#[trigger] frames[i]).len() <= MAX_FRAME_BYTES
}

// ---------------------------------------------------------------------------
// Facts about lengths
// ---------------------------------------------------------------------------

pub proof fn lemma_joined_len(frames: Seq<Seq<u8>>)
    requires
        forall|i: int| 0 <= i < frames.len() ==> (#[trigger] frames[i]).len() <= MAX_FRAME_BYTES,
    ensures
        joined(frames).len() <= frames.len() * MAX_FRAME_BYTES,
    decreases frames.len(),
{
    if frames.len() > 0 {
        assert forall|i: int| 0 <= i < frames.len() - 1 implies (#[trigger] frames.drop_last()[i]).len()
            <= MAX_FRAME_BYTES by {
            assert(frames.drop_last()[i] == frames[i]);
        }
        lemma_joined_len(frames.drop_last());
        assert(frames.last() == frames[frames.len() - 1]);
    }
}

pub proof fn lemma_size_header_len(frames: Seq<Seq<u8>>, n: int)
    ensures
        size_header(frames, n).len() <= if n > 0 {
            2 * n
        } else {
            0
        },
    decreases n,
{
    if n > 0 {
        lemma_size_header_len(frames, n - 1);
    }
}

/// A packet is never longer than was asked, and the number that is returned is its
/// length. With padding it takes up all the room.
pub proof fn packed_fits(
    toc: u8,
    frames: Seq<Seq<u8>>,
    exts: Seq<Item>,
    maxlen: int,
    self_delimited: bool,
    pad: bool,
)
    requires
        frames_ok(frames),
    ensures
        ({
            let (r, w) = packed(toc, frames, exts, maxlen, self_delimited, pad);
            &&& r <= maxlen || r == OPUS_BUFFER_TOO_SMALL
            &&& w.len() <= maxlen || w.len() == 0
            &&& r >= 0 ==> r == w.len() && r >= 1
            &&& r >= 0 && pad ==> r == maxlen
        }),
{
    reveal(packed);
    lemma_counted_fits(toc, frames, exts, maxlen, self_delimited, pad);
}

/// The bytes that announce padding of just the length of the extensions.
pub proof fn lemma_amount(ext_len: int)
    requires
        ext_len >= 0,
    ensures
        ({
            let amount = pad_amount(1, ext_len, 0, false);
            amount >= 1 && amount_bytes(amount).len() + ext_len == amount
        }),
{
    lemma_amount_len(pad_amount(1, ext_len, 0, false));
}

pub proof fn lemma_amount_len(amount: int)
    requires
        amount >= 1,
    ensures
        amount_bytes(amount).len() == (amount - 1) / 255 + 1,
        1 <= amount_bytes(amount).len() <= amount,
{
    reveal(amount_bytes);
}

proof fn lemma_finished_fits(
    toc: u8,
    frames: Seq<Seq<u8>>,
    ext_count: int,
    ext_bytes: Seq<u8>,
    maxlen: int,
    self_delimited: bool,
    pad: bool,
)
    requires
        counted_len(frames, self_delimited) + ext_bytes.len() <= maxlen,
        0 <= ext_count,
        ext_count == 0 ==> ext_bytes.len() == 0,
    ensures
        ({
            let (r, w) = finished_packet(
                toc,
                frames,
                ext_count,
                ext_bytes,
                maxlen,
                self_delimited,
                pad,
            );
            &&& r <= maxlen
            &&& w.len() <= maxlen
            &&& r >= 0 ==> r == w.len() && r >= counted_len(frames, self_delimited)
            &&& r >= 0 && pad ==> r == maxlen
            &&& r < 0 ==> r == OPUS_BUFFER_TOO_SMALL && w.len() <= 2
        }),
{
    let len = counted_len(frames, self_delimited);
    lemma_amount(ext_bytes.len() as int);
    if pad && len < maxlen {
        lemma_amount_len(maxlen - len);
    }
}

pub proof fn lemma_counted_fits(
    toc: u8,
    frames: Seq<Seq<u8>>,
    exts: Seq<Item>,
    maxlen: int,
    self_delimited: bool,
    pad: bool,
)
    requires
        frames_ok(frames),
    ensures
        ({
            let (r, w) = counted_packet(toc, frames, exts, maxlen, self_delimited, pad);
            &&& r <= maxlen || r == OPUS_BUFFER_TOO_SMALL
            &&& w.len() <= maxlen || w.len() == 0
            &&& r >= 0 ==> r == w.len() && r >= counted_len(frames, self_delimited)
            &&& r >= 0 && pad ==> r == maxlen
            &&& r < 0 ==> w.len() <= 2
        }),
        compact_head(toc, frames).len() <= 3,
        frames.len() <= 2 ==> compact_head(toc, frames).len() <= counted_len(frames, self_delimited),
{
    let len = counted_len(frames, self_delimited);
    if len <= maxlen {
        if exts.len() > 0 {
            generated_fits(exts, frames.len() as int, maxlen - len, false);
            let (r, bytes) = generated(exts, frames.len() as int, maxlen - len, false);
            if r >= 0 {
                lemma_finished_fits(
                    toc,
                    frames,
                    exts.len() as int,
                    bytes,
                    maxlen,
                    self_delimited,
                    pad,
                );
            }
        } else {
            lemma_finished_fits(toc, frames, 0, Seq::empty(), maxlen, self_delimited, pad);
        }
    }
    if frames.len() == 2 && !same_size(frames) {
        reveal_with_fuel(size_header, 2);
        assert(size_header(frames, 1) =~= size_bytes(frames[0].len() as int));
    }
}

// ---------------------------------------------------------------------------
// Writing
// ---------------------------------------------------------------------------

/// The frames as values.
pub open spec fn contents(frames: Seq<&[u8]>) -> Seq<Seq<u8>> {
    Seq::new(frames.len(), |i: int| frames[i]@)
}

/// Writes one byte behind the `w` that is written.
fn put_byte(data: &mut [u8], pos: usize, byte: u8, Ghost(w): Ghost<Seq<u8>>, Ghost(orig): Ghost<Seq<u8>>)
    requires
        pos == w.len(),
        pos < orig.len(),
        old(data)@ == overwritten(w, orig),
    ensures
        final(data)@ == overwritten(w.push(byte), orig),
{
    data[pos] = byte;
    proof {
        assert(data@ =~= overwritten(w.push(byte), orig));
    }
}

/// Writes a frame size behind the `w` that is written.
fn put_size(data: &mut [u8], pos: usize, size: usize, Ghost(w): Ghost<Seq<u8>>, Ghost(orig): Ghost<Seq<u8>>) -> (r:
    usize)
    requires
        pos == w.len(),
        size <= MAX_FRAME_BYTES,
        pos + size_bytes(size as int).len() <= orig.len(),
        orig.len() <= usize::MAX,
        old(data)@ == overwritten(w, orig),
    ensures
        final(data)@ == overwritten(w + size_bytes(size as int), orig),
        r == pos + size_bytes(size as int).len(),
{
    let ghost before = data@;
    let (_front, rest) = data.split_at_mut(pos);
    let n: usize = encode_size(size as i32, rest);
    proof {
        assert(data@ =~= overwritten(w + size_bytes(size as int), orig));
    }
    pos + n
}

/// Writes `n` times the same byte behind the `w` that is written.
fn put_many(data: &mut [u8], pos: usize, n: usize, byte: u8, Ghost(w): Ghost<Seq<u8>>, Ghost(orig): Ghost<
    Seq<u8>,
>)
    requires
        pos == w.len(),
        pos + n <= orig.len(),
        orig.len() <= usize::MAX,
        old(data)@ == overwritten(w, orig),
    ensures
        final(data)@ == overwritten(w + Seq::new(n as nat, |i: int| byte), orig),
{
    let mut i: usize = 0;
    proof {
        assert(w + Seq::new(0nat, |k: int| byte) =~= w);
    }
    while i < n
        invariant
            i <= n,
            pos == w.len(),
            pos + n <= orig.len(),
            orig.len() <= usize::MAX,
            data@ == overwritten(w + Seq::new(i as nat, |k: int| byte), orig),
        decreases n - i,
    {
        data[pos + i] = byte;
        proof {
            assert(data@ =~= overwritten(w + Seq::new((i + 1) as nat, |k: int| byte), orig));
        }
        i = i + 1;
    }
}

/// Writes a frame behind the `w` that is written.
fn put_frame(data: &mut [u8], pos: usize, frame: &[u8], Ghost(w): Ghost<Seq<u8>>, Ghost(orig): Ghost<
    Seq<u8>,
>)
    requires
        pos == w.len(),
        pos + frame@.len() <= orig.len(),
        orig.len() <= usize::MAX,
        old(data)@ == overwritten(w, orig),
    ensures
        final(data)@ == overwritten(w + frame@, orig),
{
    let mut i: usize = 0;
    proof {
        assert(w + frame@.take(0) =~= w);
    }
    while i < frame.len()
        invariant
            i <= frame@.len(),
            pos == w.len(),
            pos + frame@.len() <= orig.len(),
            orig.len() <= usize::MAX,
            data@ == overwritten(w + frame@.take(i as int), orig),
        decreases frame@.len() - i,
    {
        data[pos + i] = frame[i];
        proof {
            assert(data@ =~= overwritten(w + frame@.take(i + 1), orig));
        }
        i = i + 1;
    }
    proof {
        assert(frame@.take(frame@.len() as int) =~= frame@);
    }
}

/// Writes the frames behind the `w` that is written.
fn put_frames(data: &mut [u8], pos: usize, frames: &[&[u8]], Ghost(w): Ghost<Seq<u8>>, Ghost(orig): Ghost<
    Seq<u8>,
>) -> (r: usize)
    requires
        pos == w.len(),
        pos + joined(contents(frames@)).len() <= orig.len(),
        orig.len() <= usize::MAX,
        old(data)@ == overwritten(w, orig),
    ensures
        final(data)@ == overwritten(w + joined(contents(frames@)), orig),
        r == pos + joined(contents(frames@)).len(),
{
    let ghost all = contents(frames@);
    let mut i: usize = 0;
    let mut at: usize = pos;
    proof {
        assert(w + joined(all.take(0)) =~= w);
    }
    while i < frames.len()
        invariant
            i <= frames@.len(),
            all == contents(frames@),
            pos == w.len(),
            at == pos + joined(all.take(i as int)).len(),
            pos + joined(all).len() <= orig.len(),
            orig.len() <= usize::MAX,
            data@ == overwritten(w + joined(all.take(i as int)), orig),
        decreases frames@.len() - i,
    {
        proof {
            assert(all.take(i + 1).drop_last() =~= all.take(i as int));
            assert(joined(all.take(i + 1)) == joined(all.take(i as int)) + frames@[i as int]@);
            lemma_joined_prefix(all, i + 1);
            assert(w + joined(all.take(i as int)) + frames@[i as int]@ =~= w + joined(all.take(i + 1)));
        }
        put_frame(data, at, frames[i], Ghost(w + joined(all.take(i as int))), Ghost(orig));
        at = at + frames[i].len();
        i = i + 1;
    }
    proof {
        assert(all.take(all.len() as int) =~= all);
    }
    at
}

proof fn lemma_joined_prefix(frames: Seq<Seq<u8>>, n: int)
    requires
        0 <= n <= frames.len(),
    ensures
        joined(frames.take(n)).len() <= joined(frames).len(),
    decreases frames.len(),
{
    if n < frames.len() {
        assert(frames.drop_last().take(n) =~= frames.take(n));
        lemma_joined_prefix(frames.drop_last(), n);
    } else {
        assert(frames.take(n) =~= frames);
    }
}

/// Whether all frames have one size.
fn is_same_size(frames: &[&[u8]]) -> (r: bool)
    requires
        frames@.len() >= 1,
    ensures
        r == same_size(contents(frames@)),
{
    let mut i: usize = 1;
    while i < frames.len()
        invariant
            1 <= i <= frames@.len(),
            forall|k: int| 0 <= k < i ==> (#[trigger] contents(frames@)[k]).len() == frames@[0]@.len(),
        decreases frames@.len() - i,
    {
        if frames[i].len() != frames[0].len() {
            proof {
                assert(contents(frames@)[i as int].len() != contents(frames@)[0].len());
            }
            return false;
        }
        i = i + 1;
    }
    true
}

/// Bytes that the frames take one after the other.
fn joined_len(frames: &[&[u8]]) -> (r: usize)
    requires
        frames_ok(contents(frames@)),
    ensures
        r == joined(contents(frames@)).len(),
        r <= 48 * 1275,
{
    let ghost all = contents(frames@);
    let mut i: usize = 0;
    let mut sum: usize = 0;
    while i < frames.len()
        invariant
            i <= frames@.len() <= MAX_FRAMES,
            all == contents(frames@),
            frames_ok(all),
            sum == joined(all.take(i as int)).len(),
            sum <= i * 1275,
        decreases frames@.len() - i,
    {
        proof {
            assert(all.take(i + 1).drop_last() =~= all.take(i as int));
            assert(all[i as int].len() <= MAX_FRAME_BYTES);
        }
        sum = sum + frames[i].len();
        i = i + 1;
    }
    proof {
        assert(all.take(all.len() as int) =~= all);
    }
    sum
}

/// Bytes that a frame size takes in a head.
fn size_len(size: usize) -> (r: usize)
    ensures
        r == size_bytes(size as int).len(),
{
    if size < 252 {
        1
    } else {
        2
    }
}

/// Bytes that the sizes of the first `n` frames take.
fn size_header_len(frames: &[&[u8]], n: usize) -> (r: usize)
    requires
        n <= frames@.len() <= MAX_FRAMES,
    ensures
        r == size_header(contents(frames@), n as int).len(),
        r <= 2 * n,
{
    let mut i: usize = 0;
    let mut sum: usize = 0;
    while i < n
        invariant
            i <= n <= frames@.len() <= MAX_FRAMES,
            sum == size_header(contents(frames@), i as int).len(),
            sum <= 2 * i,
        decreases n - i,
    {
        sum = sum + size_len(frames[i].len());
        i = i + 1;
    }
    sum
}

/// Writes the sizes of the first `n` frames behind the `w` that is written.
fn put_size_header(data: &mut [u8], pos: usize, frames: &[&[u8]], n: usize, Ghost(w): Ghost<Seq<u8>>, Ghost(
    orig,
): Ghost<Seq<u8>>) -> (r: usize)
    requires
        n <= frames@.len() <= MAX_FRAMES,
        frames_ok(contents(frames@)),
        pos == w.len(),
        pos + size_header(contents(frames@), n as int).len() <= orig.len(),
        orig.len() <= usize::MAX,
        old(data)@ == overwritten(w, orig),
    ensures
        final(data)@ == overwritten(w + size_header(contents(frames@), n as int), orig),
        r == pos + size_header(contents(frames@), n as int).len(),
{
    let ghost all = contents(frames@);
    let mut i: usize = 0;
    let mut at: usize = pos;
    proof {
        assert(w + size_header(all, 0) =~= w);
    }
    while i < n
        invariant
            i <= n <= frames@.len() <= MAX_FRAMES,
            all == contents(frames@),
            frames_ok(all),
            pos == w.len(),
            at == pos + size_header(all, i as int).len(),
            pos + size_header(all, n as int).len() <= orig.len(),
            orig.len() <= usize::MAX,
            data@ == overwritten(w + size_header(all, i as int), orig),
        decreases n - i,
    {
        proof {
            lemma_size_header_prefix(all, i + 1, n as int);
            assert(all[i as int].len() <= MAX_FRAME_BYTES);
            assert(w + size_header(all, i as int) + size_bytes(all[i as int].len() as int) =~= w
                + size_header(all, i + 1));
        }
        at = put_size(data, at, frames[i].len(), Ghost(w + size_header(all, i as int)), Ghost(orig));
        i = i + 1;
    }
    at
}

proof fn lemma_size_header_prefix(frames: Seq<Seq<u8>>, m: int, n: int)
    requires
        m <= n,
    ensures
        size_header(frames, m).len() <= size_header(frames, n).len(),
    decreases n,
{
    if m < n && n > 0 {
        lemma_size_header_prefix(frames, m, n - 1);
    }
}

/// Writes the bytes that announce padding behind the `w` that is written.
fn put_amount(data: &mut [u8], pos: usize, amount: usize, Ghost(w): Ghost<Seq<u8>>, Ghost(orig): Ghost<
    Seq<u8>,
>) -> (r: usize)
    requires
        pos == w.len(),
        amount >= 1,
        pos + amount_bytes(amount as int).len() <= orig.len(),
        orig.len() <= usize::MAX,
        old(data)@ == overwritten(w, orig),
    ensures
        final(data)@ == overwritten(w + amount_bytes(amount as int), orig),
        r == pos + amount_bytes(amount as int).len(),
{
    proof {
        lemma_amount_len(amount as int);
        reveal(amount_bytes);
    }
    let full: usize = (amount - 1) / 255;
    put_many(data, pos, full, 255, Ghost(w), Ghost(orig));
    let last: u8 = ((amount - 1) % 255) as u8;
    let ghost v = w + Seq::new(full as nat, |i: int| 255u8);
    put_byte(data, pos + full, last, Ghost(v), Ghost(orig));
    proof {
        assert(v.push(last) =~= w + amount_bytes(amount as int));
    }
    pos + full + 1
}

/// Writes extensions behind the `w` that is written.
fn put_extensions(
    data: &mut [u8],
    pos: usize,
    exts: &[OpusExtensionData],
    count: usize,
    room: i32,
    ext_len: i32,
    Ghost(w): Ghost<Seq<u8>>,
    Ghost(orig): Ghost<Seq<u8>>,
)
    requires
        pos == w.len(),
        count <= MAX_FRAMES,
        exts@.len() <= i32::MAX,
        complete(items(exts@)),
        0 <= room,
        0 <= ext_len == generated(items(exts@), count as int, room as int, false).0,
        pos + ext_len <= orig.len(),
        orig.len() <= usize::MAX,
        old(data)@ == overwritten(w, orig),
    ensures
        final(data)@ == overwritten(
            w + generated(items(exts@), count as int, room as int, false).1,
            orig,
        ),
{
    proof {
        generated_fits(items(exts@), count as int, room as int, false);
        generated_exact(items(exts@), count as int, room as int, ext_len as int);
    }
    let (_front, rest) = data.split_at_mut(pos);
    let (part, _end) = rest.split_at_mut(ext_len as usize);
    let _n: i32 = opus_packet_extensions_generate(Some(part), ext_len, exts, count as i32, false);
    proof {
        assert(data@ =~= overwritten(
            w + generated(items(exts@), count as int, room as int, false).1,
            orig,
        ));
    }
}

/// Writes what stands between the head of a packet and its padding.
fn put_body(
    data: &mut [u8],
    pos: usize,
    frames: &[&[u8]],
    sized: bool,
    self_delimited: bool,
    Ghost(w): Ghost<Seq<u8>>,
    Ghost(orig): Ghost<Seq<u8>>,
) -> (r: usize)
    requires
        frames_ok(contents(frames@)),
        pos == w.len(),
        ({
            let all = contents(frames@);
            let body = (if sized {
                size_header(all, all.len() - 1)
            } else {
                Seq::empty()
            }) + end_size(all, self_delimited) + joined(all);
            pos + body.len() <= orig.len()
        }),
        orig.len() <= usize::MAX,
        old(data)@ == overwritten(w, orig),
    ensures
        ({
            let all = contents(frames@);
            let body = (if sized {
                size_header(all, all.len() - 1)
            } else {
                Seq::empty()
            }) + end_size(all, self_delimited) + joined(all);
            &&& final(data)@ == overwritten(w + body, orig)
            &&& r == pos + body.len()
        }),
{
    let ghost all = contents(frames@);
    let ghost sizes = if sized {
        size_header(all, all.len() - 1)
    } else {
        Seq::<u8>::empty()
    };
    let ghost w1 = w + sizes;
    let ghost w2 = w1 + end_size(all, self_delimited);
    let mut at: usize = pos;
    if sized {
        at = put_size_header(data, at, frames, frames.len() - 1, Ghost(w), Ghost(orig));
    } else {
        proof {
            assert(w1 =~= w);
        }
    }
    if self_delimited {
        let last = frames[frames.len() - 1];
        proof {
            assert(all.last() == last@);
        }
        at = put_size(data, at, last.len(), Ghost(w1), Ghost(orig));
    } else {
        proof {
            assert(w2 =~= w1);
        }
    }
    at = put_frames(data, at, frames, Ghost(w2), Ghost(orig));
    proof {
        assert(w2 + joined(all) =~= w + (sizes + end_size(all, self_delimited) + joined(all)));
    }
    at
}

/// Bytes that a counted number of frames takes without padding.
fn measure_counted(frames: &[&[u8]], same: bool, self_delimited: bool) -> (r: i32)
    requires
        frames_ok(contents(frames@)),
        same == same_size(contents(frames@)),
    ensures
        r == counted_len(contents(frames@), self_delimited),
        2 <= r <= 48 * 1277 + 4,
{
    let count: usize = frames.len();
    let sizes: usize = if same { 0 } else { size_header_len(frames, count - 1) };
    let end: usize = if self_delimited { size_len(frames[count - 1].len()) } else { 0 };
    proof {
        assert(contents(frames@).last() == frames@[count - 1]@);
    }
    (2 + sizes + end + joined_len(frames)) as i32
}

/// Writes the two bytes at the head of a counted number of frames.
fn put_counted_bytes(data: &mut [u8], toc: u8, frames: &[&[u8]], same: bool, padded: bool)
    requires
        frames_ok(contents(frames@)),
        same == same_size(contents(frames@)),
        old(data)@.len() >= 2,
    ensures
        final(data)@ == overwritten(counted_bytes(toc, contents(frames@), padded), old(data)@),
{
    let mut second: u8 = frames.len() as u8;
    if !same {
        second = second + 128;
    }
    if padded {
        second = second + 64;
    }
    data[0] = toc - toc % 4 + 3;
    data[1] = second;
    proof {
        assert(data@ =~= overwritten(counted_bytes(toc, contents(frames@), padded), old(data)@));
    }
}

/// Writes all of a padded packet behind its first two bytes `w`.
fn put_padded(
    data: &mut [u8],
    frames: &[&[u8]],
    same: bool,
    self_delimited: bool,
    exts: &[OpusExtensionData],
    room: i32,
    ext_len: i32,
    amount: usize,
    fill: usize,
    Ghost(w): Ghost<Seq<u8>>,
    Ghost(ext_bytes): Ghost<Seq<u8>>,
    Ghost(orig): Ghost<Seq<u8>>,
)
    requires
        frames_ok(contents(frames@)),
        same == same_size(contents(frames@)),
        w.len() == 2,
        exts@.len() <= i32::MAX,
        complete(items(exts@)),
        0 <= room,
        amount >= 1,
        (ext_len as int, ext_bytes) == if exts@.len() > 0 {
            generated(items(exts@), frames@.len() as int, room as int, false)
        } else {
            (0, Seq::empty())
        },
        ext_len >= 0,
        fill + ext_len + amount_bytes(amount as int).len() == amount,
        counted_len(contents(frames@), self_delimited) + amount <= orig.len(),
        orig.len() <= usize::MAX,
        old(data)@ == overwritten(w, orig),
    ensures
        ({
            let all = contents(frames@);
            let body = counted_sizes(all) + end_size(all, self_delimited) + joined(all);
            final(data)@ == overwritten(
                w + amount_bytes(amount as int) + body + fill_bytes(fill as int, exts@.len() > 0)
                    + ext_bytes,
                orig,
            )
        }),
{
    let ghost all = contents(frames@);
    let ghost body = counted_sizes(all) + end_size(all, self_delimited) + joined(all);
    let ghost w1 = w + amount_bytes(amount as int);
    let ghost w2 = w1 + body;
    let ghost w3 = w2 + fill_bytes(fill as int, exts@.len() > 0);
    let mut at: usize = put_amount(data, 2, amount, Ghost(w), Ghost(orig));
    at = put_body(data, at, frames, !same, self_delimited, Ghost(w1), Ghost(orig));
    let filler: u8 = if exts.len() > 0 { 1 } else { 0 };
    put_many(data, at, fill, filler, Ghost(w2), Ghost(orig));
    proof {
        assert(Seq::new(fill as nat, |i: int| filler) =~= fill_bytes(fill as int, exts@.len() > 0));
    }
    if exts.len() > 0 {
        put_extensions(data, at + fill, exts, frames.len(), room, ext_len, Ghost(w3), Ghost(orig));
    } else {
        proof {
            assert(w3 + Seq::<u8>::empty() =~= w3);
        }
    }
}

/// Writes a counted number of frames, with extensions that take `ext_len` bytes, as a
/// packet of at most `maxlen` bytes.
#[verifier::rlimit(60)]
fn put_finished(
    data: &mut [u8],
    toc: u8,
    frames: &[&[u8]],
    same: bool,
    len: i32,
    exts: &[OpusExtensionData],
    ext_len: i32,
    maxlen: i32,
    self_delimited: bool,
    pad: bool,
    Ghost(ext_bytes): Ghost<Seq<u8>>,
) -> (r: i32)
    requires
        frames_ok(contents(frames@)),
        same == same_size(contents(frames@)),
        len == counted_len(contents(frames@), self_delimited),
        exts@.len() <= i32::MAX,
        complete(items(exts@)),
        ext_len == ext_bytes.len(),
        len + ext_len <= maxlen,
        (ext_len as int, ext_bytes) == if exts@.len() > 0 {
            generated(items(exts@), frames@.len() as int, maxlen - len, false)
        } else {
            (0, Seq::empty())
        },
        finished_packet(
            toc,
            contents(frames@),
            exts@.len() as int,
            ext_bytes,
            maxlen as int,
            self_delimited,
            pad,
        ).1.len() <= old(data)@.len(),
    ensures
        ({
            let x = finished_packet(
                toc,
                contents(frames@),
                exts@.len() as int,
                ext_bytes,
                maxlen as int,
                self_delimited,
                pad,
            );
            &&& r == x.0
            &&& final(data)@ == overwritten(x.1, old(data)@)
        }),
{
    let ghost all = contents(frames@);
    let ghost orig = data@;
    let data_len: usize = data.len();
    proof {
        lemma_finished_fits(
            toc,
            all,
            exts@.len() as int,
            ext_bytes,
            maxlen as int,
            self_delimited,
            pad,
        );
    }
    let amount: i64 = if pad {
        (maxlen - len) as i64
    } else if exts.len() > 0 {
        ext_len as i64 + (if ext_len != 0 { (ext_len as i64 + 253) / 254 } else { 1 })
    } else {
        0
    };
    if amount == 0 {
        put_counted_bytes(data, toc, frames, same, false);
        let ghost head = counted_bytes(toc, all, false);
        let _n: usize = put_body(data, 2, frames, !same, self_delimited, Ghost(head), Ghost(orig));
        return len;
    }
    let announced: i64 = (amount - 1) / 255 + 1;
    put_counted_bytes(data, toc, frames, same, true);
    proof {
        lemma_amount_len(amount as int);
    }
    if len as i64 + ext_len as i64 + announced > maxlen as i64 {
        return OPUS_BUFFER_TOO_SMALL;
    }
    let fill: usize = (amount - ext_len as i64 - announced) as usize;
    let ghost head = counted_bytes(toc, all, true);
    put_padded(
        data,
        frames,
        same,
        self_delimited,
        exts,
        maxlen - len,
        ext_len,
        amount as usize,
        fill,
        Ghost(head),
        Ghost(ext_bytes),
        Ghost(orig),
    );
    (len as i64 + amount) as i32
}

/// Writes a counted number of frames as a packet of at most `maxlen` bytes.
fn put_counted(
    data: &mut [u8],
    toc: u8,
    frames: &[&[u8]],
    exts: &[OpusExtensionData],
    maxlen: i32,
    self_delimited: bool,
    pad: bool,
) -> (r: i32)
    requires
        frames_ok(contents(frames@)),
        exts@.len() <= i32::MAX,
        payloads_there(items(exts@), frames@.len() as int),
        counted_packet(
            toc,
            contents(frames@),
            items(exts@),
            maxlen as int,
            self_delimited,
            pad,
        ).1.len() <= old(data)@.len(),
    ensures
        ({
            let x = counted_packet(
                toc,
                contents(frames@),
                items(exts@),
                maxlen as int,
                self_delimited,
                pad,
            );
            &&& r == x.0
            &&& final(data)@ == overwritten(x.1, old(data)@)
        }),
{
    let ghost all = contents(frames@);
    let same = is_same_size(frames);
    let len: i32 = measure_counted(frames, same, self_delimited);
    if len > maxlen {
        proof {
            assert(overwritten(Seq::empty(), data@) =~= data@);
        }
        return OPUS_BUFFER_TOO_SMALL;
    }
    let mut ext_len: i32 = 0;
    let ghost mut ext_bytes = Seq::<u8>::empty();
    if exts.len() > 0 {
        ext_len = opus_packet_extensions_generate(None, maxlen - len, exts, frames.len() as i32, false);
        proof {
            generated_fits(items(exts@), all.len() as int, maxlen - len, false);
            ext_bytes = generated(items(exts@), all.len() as int, maxlen - len, false).1;
        }
        if ext_len < 0 {
            put_counted_bytes(data, toc, frames, same, false);
            return ext_len;
        }
    }
    put_finished(
        data,
        toc,
        frames,
        same,
        len,
        exts,
        ext_len,
        maxlen,
        self_delimited,
        pad,
        Ghost(ext_bytes),
    )
}

/// Writes the head of one or two frames without padding, and returns its length.
fn put_compact_head(data: &mut [u8], toc: u8, frames: &[&[u8]]) -> (r: usize)
    requires
        frames_ok(contents(frames@)),
        frames@.len() <= 2,
        compact_head(toc, contents(frames@)).len() <= old(data)@.len(),
    ensures
        final(data)@ == overwritten(compact_head(toc, contents(frames@)), old(data)@),
        r == compact_head(toc, contents(frames@)).len(),
{
    let ghost all = contents(frames@);
    let ghost orig = data@;
    let data_len: usize = data.len();
    let base: u8 = toc - toc % 4;
    let same = is_same_size(frames);
    if frames.len() == 1 {
        data[0] = base;
        proof {
            assert(data@ =~= overwritten(compact_head(toc, all), orig));
        }
        1
    } else if same {
        data[0] = base + 1;
        proof {
            assert(data@ =~= overwritten(compact_head(toc, all), orig));
        }
        1
    } else {
        data[0] = base + 2;
        let ghost first = seq![form_byte(toc, 2)];
        proof {
            assert(data@ =~= overwritten(first, orig));
            assert(all[0].len() <= MAX_FRAME_BYTES);
        }
        put_size(data, 1, frames[0].len(), Ghost(first), Ghost(orig))
    }
}

/// Bytes that one or two frames take without padding.
fn measure_compact(frames: &[&[u8]], self_delimited: bool) -> (r: i32)
    requires
        frames_ok(contents(frames@)),
        frames@.len() <= 2,
    ensures
        forall|toc: u8|
            r == (#[trigger] compact_head(toc, contents(frames@))).len() + end_size(
                contents(frames@),
                self_delimited,
            ).len() + joined(contents(frames@)).len(),
        1 <= r,
{
    let same = is_same_size(frames);
    let count: usize = frames.len();
    let head: usize = if count == 1 || same { 1 } else { 1 + size_len(frames[0].len()) };
    let end: usize = if self_delimited { size_len(frames[count - 1].len()) } else { 0 };
    proof {
        assert(contents(frames@).last() == frames@[count - 1]@);
    }
    (head + end + joined_len(frames)) as i32
}

/// Writes the frames as a packet of at most `maxlen` bytes. Returns the number of
/// bytes, or the error.
#[verifier::rlimit(60)]
pub fn pack(
    data: &mut [u8],
    toc: u8,
    frames: &[&[u8]],
    exts: &[OpusExtensionData],
    maxlen: i32,
    self_delimited: bool,
    pad: bool,
) -> (r: i32)
    requires
        frames_ok(contents(frames@)),
        exts@.len() <= i32::MAX,
        payloads_there(items(exts@), frames@.len() as int),
        packed(
            toc,
            contents(frames@),
            items(exts@),
            maxlen as int,
            self_delimited,
            pad,
        ).1.len() <= old(data)@.len(),
    ensures
        ({
            let x = packed(
                toc,
                contents(frames@),
                items(exts@),
                maxlen as int,
                self_delimited,
                pad,
            );
            &&& r == x.0
            &&& final(data)@ == overwritten(x.1, old(data)@)
        }),
{
    let ghost all = contents(frames@);
    let ghost orig = data@;
    let data_len: usize = data.len();
    proof {
        reveal(packed);
    }
    if frames.len() > 2 {
        return put_counted(data, toc, frames, exts, maxlen, self_delimited, pad);
    }
    let len: i32 = measure_compact(frames, self_delimited);
    let ghost head = compact_head(toc, all);
    let ghost bytes = head + end_size(all, self_delimited) + joined(all);
    proof {
        assert(bytes.len() == len);
        lemma_counted_fits(toc, all, items(exts@), maxlen as int, self_delimited, pad);
    }
    if len > maxlen {
        proof {
            assert(overwritten(Seq::empty(), orig) =~= orig);
        }
        return OPUS_BUFFER_TOO_SMALL;
    }
    if exts.len() > 0 || (pad && len < maxlen) {
        let _n: usize = put_compact_head(data, toc, frames);
        let ghost under = data@;
        let r: i32 = put_counted(data, toc, frames, exts, maxlen, self_delimited, pad);
        proof {
            let w = counted_packet(toc, all, items(exts@), maxlen as int, self_delimited, pad).1;
            assert(overwritten(w, under) =~= overwritten(overlaid(w, head), orig));
        }
        return r;
    }
    let at: usize = put_compact_head(data, toc, frames);
    let _n: usize = put_body(data, at, frames, false, self_delimited, Ghost(head), Ghost(orig));
    proof {
        assert(head + (Seq::empty() + end_size(all, self_delimited) + joined(all)) =~= bytes);
    }
    len
}

} // verus!
