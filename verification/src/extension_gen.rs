//! Writing extensions into the padding of a packet.

use vstd::prelude::*;
use crate::codes::{MAX_FRAMES, OPUS_BAD_ARG, OPUS_BUFFER_TOO_SMALL};
use crate::extension_iter::{items, Item, OpusExtensionData};

verus! {

// ---------------------------------------------------------------------------
// Pieces of output
// ---------------------------------------------------------------------------

/// A piece of output that is written as a whole or not at all.
pub ghost struct Chunk {
    /// Whether what should be written is invalid.
    pub bad: bool,
    /// Bytes that must be free.
    pub need: int,
    /// What is written.
    pub bytes: Seq<u8>,
}

/// The outcome of writing the pieces one after the other behind `done`, within
/// `room` bytes: the bytes that are written then, or the error; and what is written.
pub open spec fn run_from(done: Seq<u8>, chunks: Seq<Chunk>, room: int) -> (int, Seq<u8>)
    decreases chunks.len(),
{
    if chunks.len() == 0 {
        (done.len() as int, done)
    } else {
        let c = chunks[0];
        if c.bad {
            (OPUS_BAD_ARG as int, done)
        } else if room - done.len() < c.need {
            (OPUS_BUFFER_TOO_SMALL as int, done)
        } else {
            run_from(done + c.bytes, chunks.skip(1), room)
        }
    }
}

/// The length of a payload, as bytes in front of it.
pub open spec fn lacing_bytes(len: int) -> Seq<u8> {
    Seq::new((len / 255) as nat, |i: int| 255u8).push((len % 255) as u8)
}

/// The payload of an extension.
pub open spec fn payload(e: Item) -> Seq<u8> {
    Seq::new(e.len as nat, |i: int| e.data[i])
}

/// The payload of an extension as it is written. The last one needs no length.
pub open spec fn payload_chunk(e: Item, last: bool) -> Chunk {
    if e.len < 0 || (e.id < 32 && e.len > 1) {
        Chunk { bad: true, need: 0, bytes: Seq::empty() }
    } else if e.id < 32 || last {
        Chunk { bad: false, need: e.len as int, bytes: payload(e) }
    } else {
        Chunk {
            bad: false,
            need: 1 + e.len / 255 + e.len,
            bytes: lacing_bytes(e.len as int) + payload(e),
        }
    }
}

/// The identifier byte of an extension.
pub open spec fn id_byte(e: Item, last: bool) -> u8 {
    let flag = if e.id < 32 {
        e.len as int
    } else if last {
        0
    } else {
        1
    };
    ((2 * e.id + flag) % 256) as u8
}

pub open spec fn id_chunk(e: Item, last: bool) -> Chunk {
    Chunk { bad: false, need: 1, bytes: seq![id_byte(e, last)] }
}

/// Moves on by `diff` frames.
pub open spec fn separator_chunk(diff: int) -> Chunk {
    Chunk {
        bad: false,
        need: 2,
        bytes: if diff == 1 {
            seq![2u8]
        } else {
            seq![3u8, diff as u8]
        },
    }
}

/// Announces a repeat; the last thing that is written of this frame needs no flag.
pub open spec fn repeat_chunk(last: bool) -> Chunk {
    Chunk { bad: false, need: 1, bytes: seq![if last { 4u8 } else { 5u8 }] }
}

/// Writing in two parts comes to the same as writing in one go.
pub proof fn lemma_run_concat(done: Seq<u8>, a: Seq<Chunk>, b: Seq<Chunk>, room: int)
    ensures
        run_from(done, a + b, room) == if run_from(done, a, room).0 < 0 {
            run_from(done, a, room)
        } else {
            run_from(run_from(done, a, room).1, b, room)
        },
        run_from(done, a, room).0 >= 0 ==> run_from(done, a, room).0 == run_from(done, a, room).1.len(),
    decreases a.len(),
{
    if a.len() == 0 {
        assert(a + b =~= b);
    } else {
        assert((a + b).skip(1) =~= a.skip(1) + b);
        lemma_run_concat(done + a[0].bytes, a.skip(1), b, room);
    }
}

/// What is written stays.
pub proof fn lemma_run_keeps(done: Seq<u8>, chunks: Seq<Chunk>, room: int)
    ensures
        done.len() <= run_from(done, chunks, room).1.len(),
        run_from(done, chunks, room).1.take(done.len() as int) == done,
    decreases chunks.len(),
{
    if chunks.len() > 0 && !chunks[0].bad && room - done.len() >= chunks[0].need {
        let next = done + chunks[0].bytes;
        lemma_run_keeps(next, chunks.skip(1), room);
        let all = run_from(next, chunks.skip(1), room).1;
        assert(all.take(done.len() as int) =~= all.take(next.len() as int).take(done.len() as int));
        assert(next.take(done.len() as int) =~= done);
    } else {
        assert(done.take(done.len() as int) =~= done);
    }
}

/// What a buffer holds once `written` stands at its front.
pub open spec fn overwritten(written: Seq<u8>, old: Seq<u8>) -> Seq<u8> {
    written + old.skip(written.len() as int)
}

// ---------------------------------------------------------------------------
// Writing one extension
// ---------------------------------------------------------------------------

/// Writes the payload of an extension at `pos`. Nothing is written in a dry run.
/// Returns the position behind it, or the error.
pub fn write_extension_payload(
    buf: &mut [u8],
    dry_run: bool,
    len: i32,
    pos: i32,
    ext: &OpusExtensionData,
    last: bool,
) -> (r: i32)
    requires
        3 <= ext.id <= 127,
        0 <= pos <= len,
        !dry_run ==> ext.len <= ext.data@.len(),
        !dry_run && !payload_chunk(ext.item(), last).bad && payload_chunk(ext.item(), last).need <= len - pos ==> pos
            + payload_chunk(ext.item(), last).bytes.len() <= old(buf)@.len(),
    ensures
        ({
            let c = payload_chunk(ext.item(), last);
            if c.bad {
                r == OPUS_BAD_ARG && final(buf)@ == old(buf)@
            } else if len - pos < c.need {
                r == OPUS_BUFFER_TOO_SMALL && final(buf)@ == old(buf)@
            } else {
                &&& r == pos + c.bytes.len()
                &&& r <= len
                &&& dry_run ==> final(buf)@ == old(buf)@
                &&& !dry_run ==> final(buf)@ == old(buf)@.take(pos as int) + c.bytes + old(buf)@.skip(
                    r as int,
                )
            }
        }),
{
    if ext.len < 0 || (ext.id < 32 && ext.len > 1) {
        return OPUS_BAD_ARG;
    }
    let mut at: i32 = pos;
    let laced = ext.id >= 32 && !last;
    if laced {
        let need: i64 = 1 + (ext.len / 255) as i64 + ext.len as i64;
        if ((len - pos) as i64) < need {
            return OPUS_BUFFER_TOO_SMALL;
        }
        let full: i32 = ext.len / 255;
        let mut i: i32 = 0;
        while i < full
            invariant
                0 <= i <= full,
                0 <= ext.len,
                0 <= pos,
                at == pos + i,
                pos + full + 1 + ext.len <= len,
                !dry_run ==> pos + full + 1 + ext.len <= buf@.len(),
                buf@.len() == old(buf)@.len(),
                dry_run ==> buf@ == old(buf)@,
                !dry_run ==> buf@ == old(buf)@.take(pos as int) + Seq::new(i as nat, |k: int| 255u8) + old(
                    buf,
                )@.skip(at as int),
            decreases full - i,
        {
            if !dry_run {
                buf[at as usize] = 255;
                proof {
                    assert(buf@ =~= old(buf)@.take(pos as int) + Seq::new(
                        (i + 1) as nat,
                        |k: int| 255u8,
                    ) + old(buf)@.skip(at + 1));
                }
            }
            at = at + 1;
            i = i + 1;
        }
        if !dry_run {
            buf[at as usize] = (ext.len % 255) as u8;
        }
        at = at + 1;
        proof {
            if !dry_run {
                assert(buf@ =~= old(buf)@.take(pos as int) + lacing_bytes(ext.len as int) + old(
                    buf,
                )@.skip(at as int));
            }
        }
    } else if len - pos < ext.len {
        return OPUS_BUFFER_TOO_SMALL;
    }
    let ghost head = if laced {
        lacing_bytes(ext.len as int)
    } else {
        Seq::<u8>::empty()
    };
    proof {
        if !dry_run {
            assert(buf@ =~= old(buf)@.take(pos as int) + head + old(buf)@.skip(at as int));
        }
    }
    if !dry_run {
        let mut i: i32 = 0;
        while i < ext.len
            invariant
                0 <= i <= ext.len,
                ext.len <= ext.data@.len(),
                0 <= pos <= at,
                at == pos + head.len(),
                at + ext.len <= len,
                at + ext.len <= buf@.len(),
                buf@.len() == old(buf)@.len(),
                buf@ == old(buf)@.take(pos as int) + head + Seq::new(i as nat, |k: int| ext.data@[k])
                    + old(buf)@.skip(at + i),
            decreases ext.len - i,
        {
            buf[(at + i) as usize] = ext.data[i as usize];
            proof {
                assert(buf@ =~= old(buf)@.take(pos as int) + head + Seq::new(
                    (i + 1) as nat,
                    |k: int| ext.data@[k],
                ) + old(buf)@.skip(at + i + 1));
            }
            i = i + 1;
        }
        proof {
            assert(buf@ =~= old(buf)@.take(pos as int) + payload_chunk(ext.item(), last).bytes + old(
                buf,
            )@.skip(at + ext.len));
        }
    }
    at + ext.len
}

/// An extension as it is written: its identifier byte, then its payload.
pub open spec fn extension_chunks(e: Item, last: bool) -> Seq<Chunk> {
    seq![id_chunk(e, last), payload_chunk(e, last)]
}

/// What writing an extension comes to.
proof fn lemma_run_extension(done: Seq<u8>, e: Item, last: bool, room: int)
    ensures
        run_from(done, extension_chunks(e, last), room) == ({
            let c = payload_chunk(e, last);
            let id = done.push(id_byte(e, last));
            if room - done.len() < 1 {
                (OPUS_BUFFER_TOO_SMALL as int, done)
            } else if c.bad {
                (OPUS_BAD_ARG as int, id)
            } else if room - id.len() < c.need {
                (OPUS_BUFFER_TOO_SMALL as int, id)
            } else {
                ((id + c.bytes).len() as int, id + c.bytes)
            }
        }),
{
    let chunks = extension_chunks(e, last);
    reveal_with_fuel(run_from, 3);
    assert(chunks.skip(1) =~= seq![payload_chunk(e, last)]);
    assert(chunks.skip(1).skip(1) =~= Seq::<Chunk>::empty());
    assert(done + seq![id_byte(e, last)] =~= done.push(id_byte(e, last)));
}

/// Writes an extension at `pos`. Nothing is written in a dry run. Returns the
/// position behind it, or the error.
#[verifier::spinoff_prover]
#[verifier::rlimit(40)]
pub fn write_extension(
    buf: &mut [u8],
    dry_run: bool,
    len: i32,
    pos: i32,
    ext: &OpusExtensionData,
    last: bool,
) -> (r: i32)
    requires
        3 <= ext.id <= 127,
        0 <= pos <= len,
        !dry_run ==> pos <= old(buf)@.len(),
        !dry_run ==> ext.len <= ext.data@.len(),
        !dry_run ==> run_from(
            old(buf)@.take(pos as int),
            extension_chunks(ext.item(), last),
            len as int,
        ).1.len() <= old(buf)@.len(),
    ensures
        dry_run ==> final(buf)@ == old(buf)@,
        r <= len,
        forall|done: Seq<u8>|
            done.len() == pos ==> r == (#[trigger] run_from(
                done,
                extension_chunks(ext.item(), last),
                len as int,
            )).0,
        !dry_run ==> final(buf)@ == overwritten(
            run_from(old(buf)@.take(pos as int), extension_chunks(ext.item(), last), len as int).1,
            old(buf)@,
        ),
{
    let ghost done = old(buf)@.take(pos as int);
    let ghost chunks = extension_chunks(ext.item(), last);
    proof {
        lemma_run_extension(done, ext.item(), last, len as int);
        assert forall|d: Seq<u8>| d.len() == pos implies (#[trigger] run_from(d, chunks, len as int)).0
            == run_from(Seq::new(pos as nat, |i: int| 0u8), chunks, len as int).0 by {
            lemma_run_extension(d, ext.item(), last, len as int);
            lemma_run_extension(Seq::new(pos as nat, |i: int| 0u8), ext.item(), last, len as int);
        }
        lemma_run_extension(Seq::new(pos as nat, |i: int| 0u8), ext.item(), last, len as int);
    }
    if len - pos < 1 {
        proof {
            if !dry_run {
                assert(buf@ =~= overwritten(done, old(buf)@));
            }
        }
        return OPUS_BUFFER_TOO_SMALL;
    }
    let flag: i64 = if ext.id < 32 {
        ext.len as i64
    } else if last {
        0
    } else {
        1
    };
    let low: i64 = (2 * ext.id as i64 + flag) % 256;
    let byte: u8 = if low < 0 { (low + 256) as u8 } else { low as u8 };
    proof {
        assert(byte == id_byte(ext.item(), last));
    }
    if !dry_run {
        buf[pos as usize] = byte;
        proof {
            assert(buf@.take(pos + 1) =~= done.push(byte));
        }
    }
    let r: i32 = write_extension_payload(buf, dry_run, len, pos + 1, ext, last);
    proof {
        if !dry_run {
            assert(buf@ =~= overwritten(run_from(done, chunks, len as int).1, old(buf)@));
        }
    }
    r
}

// ---------------------------------------------------------------------------
// The order of writing
// ---------------------------------------------------------------------------

/// The extensions of one frame, in the order in which they were given.
pub open spec fn of_frame(exts: Seq<Item>, frame: int) -> Seq<Item>
    decreases exts.len(),
{
    if exts.len() == 0 {
        Seq::empty()
    } else if exts.last().frame == frame {
        of_frame(exts.drop_last(), frame).push(exts.last())
    } else {
        of_frame(exts.drop_last(), frame)
    }
}

/// The extensions of each frame.
pub open spec fn by_frame(exts: Seq<Item>, nb_frames: int) -> Seq<
    Seq<Item>,
> {
    Seq::new(nb_frames as nat, |f: int| of_frame(exts, f))
}

/// Whether one extension can stand for the other in a repeat.
pub open spec fn alike(a: Item, b: Item) -> bool {
    a.id == b.id && (a.id < 32 ==> a.len == b.len)
}

/// Whether extension `i` of frame `f` has its like in every later frame.
pub open spec fn repeatable(p: Seq<Seq<Item>>, f: int, i: int) -> bool {
    &&& f + 1 < p.len()
    &&& i < p[f].len()
    &&& forall|g: int|
        #![trigger p[g]]
        f < g < p.len() ==> i < p[g].len() && alike(p[g][i], p[f][i])
}

/// The first extension of frame `f`, from number `i` on, that cannot be repeated.
pub open spec fn repeat_end(p: Seq<Seq<Item>>, f: int, i: int) -> int
    decreases p[f].len() - i,
{
    if repeatable(p, f, i) {
        repeat_end(p, f, i + 1)
    } else {
        i
    }
}

/// The last long extension from `from` up to `to`, -1 where there is none.
pub open spec fn last_long(l: Seq<Item>, from: int, to: int) -> int
    decreases to - from,
{
    if from >= to {
        -1
    } else if l[to - 1].id >= 32 {
        to - 1
    } else {
        last_long(l, from, to - 1)
    }
}

/// The extensions of `l` from `from` up to `to`, of which number `last_at` is the
/// last thing written.
pub open spec fn list_chunks(l: Seq<Item>, from: int, to: int, last_at: int) -> Seq<Chunk>
    decreases to - from,
{
    if from >= to {
        Seq::empty()
    } else {
        list_chunks(l, from, to - 1, last_at) + extension_chunks(l[to - 1], to - 1 == last_at)
    }
}

/// The payloads alone.
pub open spec fn payload_chunks(l: Seq<Item>, from: int, to: int, last_at: int) -> Seq<Chunk>
    decreases to - from,
{
    if from >= to {
        Seq::empty()
    } else {
        payload_chunks(l, from, to - 1, last_at).push(payload_chunk(l[to - 1], to - 1 == last_at))
    }
}

/// The payloads of all frames after `f` and before `g`. In the last frame of the
/// packet, number `last_at` is the last long one written.
pub open spec fn repeated_chunks(
    p: Seq<Seq<Item>>,
    f: int,
    g: int,
    from: int,
    to: int,
    last_at: int,
) -> Seq<Chunk>
    decreases g - f,
{
    if g <= f + 1 {
        Seq::empty()
    } else {
        repeated_chunks(p, f, g - 1, from, to, last_at) + payload_chunks(
            p[g - 1],
            from,
            to,
            if g == p.len() {
                last_at
            } else {
                -1
            },
        )
    }
}

/// How far the writing has got when it comes to a frame.
pub ghost struct Progress {
    /// Extensions that are written of this frame and of each later one.
    pub consumed: int,
    /// The frame that a reader is at.
    pub frame: int,
    /// Extensions that are written in all.
    pub written: int,
}

/// What writing one frame amounts to.
pub ghost struct FramePlan {
    /// Extensions of the frame that are repeated in the later frames end here.
    pub end: int,
    /// Extensions that the repeat stands for.
    pub extra: int,
    /// The last long one among the repeated.
    pub long: int,
    /// Whether the repeat moves on to the next frame.
    pub last: bool,
    /// The number of the extension that is the last one of all.
    pub last_at: int,
}

pub open spec fn frame_plan(
    p: Seq<Seq<Item>>,
    total: int,
    f: int,
    s: Progress,
) -> FramePlan {
    let end = repeat_end(p, f, s.consumed);
    let extra = (end - s.consumed) * (p.len() - f - 1);
    let long = last_long(p[f], s.consumed, end);
    FramePlan {
        end,
        extra,
        long,
        last: s.written + (end - s.consumed) + extra == total || (long < 0 && end == p[f].len()),
        last_at: total - 1 - s.written - extra + s.consumed,
    }
}

/// The extensions of frame `f` that are repeated, and the repeat.
pub open spec fn repeat_chunks(
    p: Seq<Seq<Item>>,
    f: int,
    from: int,
    x: FramePlan,
) -> Seq<Chunk> {
    list_chunks(p[f], from, x.end, -1) + seq![repeat_chunk(x.last)] + repeated_chunks(
        p,
        f,
        p.len() as int,
        from,
        x.end,
        if x.last {
            x.long
        } else {
            -1
        },
    )
}

/// What is written for frame `f`: a step to it where the reader is not there yet,
/// the extensions that can be repeated with the repeat, and the others.
pub open spec fn frame_chunks(
    p: Seq<Seq<Item>>,
    total: int,
    f: int,
    s: Progress,
) -> Seq<Chunk> {
    let l = p[f];
    let x = frame_plan(p, total, f, s);
    if s.consumed >= l.len() {
        Seq::empty()
    } else {
        (if f != s.frame {
            seq![separator_chunk(f - s.frame)]
        } else {
            Seq::empty()
        }) + (if s.consumed < x.end {
            repeat_chunks(p, f, s.consumed, x)
        } else {
            Seq::empty()
        }) + list_chunks(l, x.end, l.len() as int, x.last_at)
    }
}

/// How far the writing has got behind frame `f`.
pub open spec fn frame_after(
    p: Seq<Seq<Item>>,
    total: int,
    f: int,
    s: Progress,
) -> Progress {
    let x = frame_plan(p, total, f, s);
    if s.consumed >= p[f].len() {
        s
    } else {
        Progress {
            consumed: x.end,
            frame: if s.consumed < x.end && x.last {
                f + 1
            } else {
                f
            },
            written: s.written + (p[f].len() - s.consumed) + x.extra,
        }
    }
}

/// What is written for frame `f` and the later ones.
pub open spec fn plan_from(
    p: Seq<Seq<Item>>,
    total: int,
    f: int,
    s: Progress,
) -> Seq<Chunk>
    decreases p.len() - f,
{
    if f >= p.len() {
        Seq::empty()
    } else {
        frame_chunks(p, total, f, s) + plan_from(p, total, f + 1, frame_after(p, total, f, s))
    }
}

/// All that is written for the given extensions.
pub open spec fn plan(exts: Seq<Item>, nb_frames: int) -> Seq<Chunk> {
    plan_from(
        by_frame(exts, nb_frames),
        exts.len() as int,
        0,
        Progress { consumed: 0, frame: 0, written: 0 },
    )
}

/// Whether frames and identifiers are within range.
pub open spec fn in_range(exts: Seq<Item>, nb_frames: int) -> bool {
    forall|i: int|
        0 <= i < exts.len() ==> {
            &&& 0 <= (#[trigger] exts[i]).frame < nb_frames
            &&& 3 <= exts[i].id <= 127
        }
}

/// Whether every extension has its payload.
pub open spec fn complete(exts: Seq<Item>) -> bool {
    forall|i: int| 0 <= i < exts.len() ==> (#[trigger] exts[i]).len <= exts[i].data.len()
}

/// Whether every extension has its payload, as far as payloads are looked at: where there are
/// too many frames, or a frame or an identifier is out of range, they are not.
pub open spec fn payloads_there(exts: Seq<Item>, nb_frames: int) -> bool {
    nb_frames <= MAX_FRAMES && in_range(exts, nb_frames) ==> complete(exts)
}

/// The outcome of writing the given extensions within `len` bytes: the bytes that
/// they take, or the error; and what is written. Padding goes in front of them.
pub open spec fn generated(
    exts: Seq<Item>,
    nb_frames: int,
    len: int,
    pad: bool,
) -> (int, Seq<u8>) {
    if nb_frames > MAX_FRAMES || !in_range(exts, nb_frames) {
        (OPUS_BAD_ARG as int, Seq::empty())
    } else {
        let (r, w) = run_from(Seq::empty(), plan(exts, nb_frames), len);
        if 0 <= r < len && pad {
            (len, Seq::new((len - r) as nat, |i: int| 1u8) + w)
        } else {
            (r, w)
        }
    }
}

// ---------------------------------------------------------------------------
// Room
// ---------------------------------------------------------------------------

/// Whether no piece is longer than the room that it asks for.
spec fn sized(chunks: Seq<Chunk>) -> bool {
    forall|i: int| 0 <= i < chunks.len() ==> (#[trigger] chunks[i]).bytes.len() <= chunks[i].need
}

proof fn lemma_list_sized(l: Seq<Item>, from: int, to: int, last_at: int)
    ensures
        sized(list_chunks(l, from, to, last_at)),
        sized(payload_chunks(l, from, to, last_at)),
    decreases to - from,
{
    if from < to {
        lemma_list_sized(l, from, to - 1, last_at);
    }
}

proof fn lemma_repeated_sized(
    p: Seq<Seq<Item>>,
    f: int,
    g: int,
    from: int,
    to: int,
    last_at: int,
)
    ensures
        sized(repeated_chunks(p, f, g, from, to, last_at)),
    decreases g - f,
{
    if g > f + 1 {
        lemma_repeated_sized(p, f, g - 1, from, to, last_at);
        lemma_list_sized(
            p[g - 1],
            from,
            to,
            if g == p.len() {
                last_at
            } else {
                -1
            },
        );
    }
}

proof fn lemma_plan_sized(p: Seq<Seq<Item>>, total: int, f: int, s: Progress)
    ensures
        sized(plan_from(p, total, f, s)),
    decreases p.len() - f,
{
    if f < p.len() {
        let x = frame_plan(p, total, f, s);
        lemma_list_sized(p[f], s.consumed, x.end, -1);
        lemma_list_sized(p[f], x.end, p[f].len() as int, x.last_at);
        lemma_repeated_sized(
            p,
            f,
            p.len() as int,
            s.consumed,
            x.end,
            if x.last {
                x.long
            } else {
                -1
            },
        );
        lemma_plan_sized(p, total, f + 1, frame_after(p, total, f, s));
        assert(sized(frame_chunks(p, total, f, s)));
    }
}

proof fn lemma_run_room(done: Seq<u8>, chunks: Seq<Chunk>, room: int)
    requires
        sized(chunks),
        done.len() <= room,
    ensures
        run_from(done, chunks, room).1.len() <= room,
        run_from(done, chunks, room).0 <= room,
        run_from(done, chunks, room).0 >= 0 ==> run_from(done, chunks, room).0 == run_from(
            done,
            chunks,
            room,
        ).1.len(),
    decreases chunks.len(),
{
    if chunks.len() > 0 && !chunks[0].bad && room - done.len() >= chunks[0].need {
        assert(sized(chunks.skip(1)));
        lemma_run_room(done + chunks[0].bytes, chunks.skip(1), room);
    }
}

/// What is written fits in the room that there is, and the number of bytes that is
/// returned is the number that is written.
pub proof fn generated_fits(exts: Seq<Item>, nb_frames: int, len: int, pad: bool)
    requires
        0 <= len,
    ensures
        generated(exts, nb_frames, len, pad).1.len() <= len,
        generated(exts, nb_frames, len, pad).0 <= len,
        generated(exts, nb_frames, len, pad).0 >= 0 ==> generated(exts, nb_frames, len, pad).0
            == generated(exts, nb_frames, len, pad).1.len(),
{
    lemma_plan_sized(
        by_frame(exts, nb_frames),
        exts.len() as int,
        0,
        Progress { consumed: 0, frame: 0, written: 0 },
    );
    lemma_run_room(Seq::empty(), plan(exts, nb_frames), len);
}

/// Whether every piece asks for exactly the room that it takes.
spec fn exact(chunks: Seq<Chunk>) -> bool {
    forall|i: int| 0 <= i < chunks.len() ==> (#[trigger] chunks[i]).bytes.len() == chunks[i].need
}

/// Whether no piece asks for more room than it takes with the one behind it.
spec fn tight(chunks: Seq<Chunk>) -> bool {
    forall|i: int|
        0 <= i < chunks.len() ==> (#[trigger] chunks[i]).need <= chunks[i].bytes.len() + if i + 1
            < chunks.len() {
            chunks[i + 1].bytes.len()
        } else {
            0
        }
}

proof fn lemma_tight_concat(a: Seq<Chunk>, b: Seq<Chunk>)
    requires
        tight(a),
        tight(b),
    ensures
        tight(a + b),
{
    assert forall|i: int| 0 <= i < (a + b).len() implies (#[trigger] (a + b)[i]).need <= (a
        + b)[i].bytes.len() + if i + 1 < (a + b).len() {
        (a + b)[i + 1].bytes.len()
    } else {
        0
    } by {
        if i < a.len() {
            assert((a + b)[i] == a[i]);
            if i + 1 < a.len() {
                assert((a + b)[i + 1] == a[i + 1]);
            }
        } else {
            assert((a + b)[i] == b[i - a.len()]);
            if i + 1 < (a + b).len() {
                assert((a + b)[i + 1] == b[i + 1 - a.len()]);
            }
        }
    }
}

proof fn lemma_list_exact(l: Seq<Item>, from: int, to: int, last_at: int)
    ensures
        exact(list_chunks(l, from, to, last_at)),
        exact(payload_chunks(l, from, to, last_at)),
        from < to ==> list_chunks(l, from, to, last_at).len() > 0 && list_chunks(
            l,
            from,
            to,
            last_at,
        )[0].bytes.len() == 1,
    decreases to - from,
{
    if from < to {
        lemma_list_exact(l, from, to - 1, last_at);
    }
}

proof fn lemma_repeated_exact(
    p: Seq<Seq<Item>>,
    f: int,
    g: int,
    from: int,
    to: int,
    last_at: int,
)
    ensures
        exact(repeated_chunks(p, f, g, from, to, last_at)),
    decreases g - f,
{
    if g > f + 1 {
        lemma_repeated_exact(p, f, g - 1, from, to, last_at);
        lemma_list_exact(
            p[g - 1],
            from,
            to,
            if g == p.len() {
                last_at
            } else {
                -1
            },
        );
    }
}

proof fn lemma_repeat_end_from(p: Seq<Seq<Item>>, f: int, i: int)
    ensures
        i <= repeat_end(p, f, i),
        i < p[f].len() ==> repeat_end(p, f, i) <= p[f].len(),
    decreases p[f].len() - i,
{
    if repeatable(p, f, i) {
        lemma_repeat_end_from(p, f, i + 1);
    }
}

proof fn lemma_plan_tight(p: Seq<Seq<Item>>, total: int, f: int, s: Progress)
    ensures
        tight(plan_from(p, total, f, s)),
    decreases p.len() - f,
{
    if f < p.len() {
        let l = p[f];
        let x = frame_plan(p, total, f, s);
        let la = if x.last {
            x.long
        } else {
            -1
        };
        lemma_repeat_end_from(p, f, s.consumed);
        lemma_list_exact(l, s.consumed, x.end, -1);
        lemma_list_exact(l, x.end, l.len() as int, x.last_at);
        lemma_repeated_exact(p, f, p.len() as int, s.consumed, x.end, la);
        lemma_plan_tight(p, total, f + 1, frame_after(p, total, f, s));
        if s.consumed < l.len() {
            let sep = if f != s.frame {
                seq![separator_chunk(f - s.frame)]
            } else {
                Seq::<Chunk>::empty()
            };
            let rep = if s.consumed < x.end {
                repeat_chunks(p, f, s.consumed, x)
            } else {
                Seq::<Chunk>::empty()
            };
            let lst = list_chunks(l, x.end, l.len() as int, x.last_at);
            assert(exact(rep + lst));
            assert((rep + lst)[0].bytes.len() == 1);
            assert(frame_chunks(p, total, f, s) =~= sep + (rep + lst));
            assert(tight(frame_chunks(p, total, f, s)));
        }
        lemma_tight_concat(
            frame_chunks(p, total, f, s),
            plan_from(p, total, f + 1, frame_after(p, total, f, s)),
        );
    }
}

proof fn lemma_run_tight(done: Seq<u8>, chunks: Seq<Chunk>, room: int, exact_room: int)
    requires
        tight(chunks),
        run_from(done, chunks, room).0 >= 0,
        exact_room >= run_from(done, chunks, room).1.len(),
    ensures
        run_from(done, chunks, exact_room) == run_from(done, chunks, room),
    decreases chunks.len(),
{
    if chunks.len() > 0 {
        let next = done + chunks[0].bytes;
        let rest = chunks.skip(1);
        assert(tight(rest)) by {
            assert forall|i: int| 0 <= i < rest.len() implies (#[trigger] rest[i]).need
                <= rest[i].bytes.len() + if i + 1 < rest.len() {
                rest[i + 1].bytes.len()
            } else {
                0
            } by {
                assert(rest[i] == chunks[i + 1]);
            }
        }
        lemma_run_tight(next, rest, room, exact_room);
        lemma_run_keeps(next, rest, room);
        assert(chunks[0].need <= chunks[0].bytes.len() + if 1 < chunks.len() {
            chunks[1].bytes.len()
        } else {
            0
        });
        if 1 < chunks.len() {
            assert(rest[0] == chunks[1]);
            lemma_run_keeps(next + rest[0].bytes, rest.skip(1), room);
        }
    }
}

/// The number of bytes that a dry run counts is room enough for the real run, and
/// no more bytes come of more room.
pub proof fn generated_exact(exts: Seq<Item>, nb_frames: int, len: int, exact_len: int)
    requires
        generated(exts, nb_frames, len, false).0 >= 0,
        0 <= len,
        exact_len >= generated(exts, nb_frames, len, false).0,
    ensures
        generated(exts, nb_frames, exact_len, false) == generated(exts, nb_frames, len, false),
{
    generated_fits(exts, nb_frames, len, false);
    lemma_plan_tight(
        by_frame(exts, nb_frames),
        exts.len() as int,
        0,
        Progress { consumed: 0, frame: 0, written: 0 },
    );
    lemma_run_tight(Seq::empty(), plan(exts, nb_frames), len, exact_len);
}

/// What can be written with some room can be written with enough room, and with less there
/// is no other error than too little room.
proof fn lemma_run_small(done: Seq<u8>, chunks: Seq<Chunk>, big: int, room: int)
    requires
        run_from(done, chunks, big).0 >= 0,
    ensures
        run_from(done, chunks, room).0 >= 0 || run_from(done, chunks, room).0
            == OPUS_BUFFER_TOO_SMALL,
    decreases chunks.len(),
{
    if chunks.len() > 0 {
        let c = chunks[0];
        lemma_run_small(done + c.bytes, chunks.skip(1), big, room);
    }
}

/// The bytes that extensions take are the same whatever the room, where it is enough; with
/// less, there is too little room; and with padding, all the room is taken, and ones go in
/// front.
pub proof fn generated_by_room(exts: Seq<Item>, nb_frames: int, big: int, len: int)
    requires
        0 <= big,
        0 <= len,
        generated(exts, nb_frames, big, false).0 >= 0,
    ensures
        ({
            let (s, w) = generated(exts, nb_frames, big, false);
            if len >= s {
                &&& generated(exts, nb_frames, len, false) == (s, w)
                &&& w.len() == s
                &&& generated(exts, nb_frames, len, true).0 == len
                &&& generated(exts, nb_frames, len, true).1 =~= Seq::new(
                    (len - s) as nat,
                    |i: int| 1u8,
                ) + w
            } else {
                &&& generated(exts, nb_frames, len, false).0 == OPUS_BUFFER_TOO_SMALL
                &&& generated(exts, nb_frames, len, true).0 == OPUS_BUFFER_TOO_SMALL
            }
        }),
{
    let (s, w) = generated(exts, nb_frames, big, false);
    generated_fits(exts, nb_frames, big, false);
    if len >= s {
        generated_exact(exts, nb_frames, big, len);
    } else {
        generated_fits(exts, nb_frames, len, false);
        lemma_run_small(Seq::empty(), plan(exts, nb_frames), big, len);
        if generated(exts, nb_frames, len, false).0 >= 0 {
            generated_exact(exts, nb_frames, len, big);
        }
    }
}

/// One long extension of the first frame takes a byte more than its payload: it is the last
/// one, and needs no length.
pub proof fn one_extension(e: Item, room: int)
    requires
        32 <= e.id <= 127,
        e.frame == 0,
        0 <= e.len <= e.data.len(),
        1 + e.len <= room,
    ensures
        generated(seq![e], 1, room, false).0 == 1 + e.len,
        generated(seq![e], 1, room, false).1.len() == 1 + e.len,
{
    let exts = seq![e];
    let p = by_frame(exts, 1);
    let s = Progress { consumed: 0, frame: 0, written: 0 };
    reveal_with_fuel(of_frame, 2);
    reveal_with_fuel(plan_from, 3);
    reveal_with_fuel(list_chunks, 3);
    assert(exts.drop_last() =~= Seq::<Item>::empty());
    assert(p[0] =~= exts);
    assert(!repeatable(p, 0, 0));
    assert(repeat_end(p, 0, 0) == 0);
    assert(list_chunks(p[0], 0, 0, 0) =~= Seq::<Chunk>::empty());
    assert(list_chunks(p[0], 0, 1, 0) =~= extension_chunks(e, true));
    assert(frame_chunks(p, 1, 0, s) =~= extension_chunks(e, true));
    assert(plan(exts, 1) =~= extension_chunks(e, true));
    lemma_run_extension(Seq::empty(), e, true, room);
}

// ---------------------------------------------------------------------------
// Writing them all
// ---------------------------------------------------------------------------

/// The extensions that a list of indices stands for.
spec fn pick(exts: Seq<Item>, list: Seq<usize>) -> Seq<Item> {
    Seq::new(list.len(), |i: int| exts[list[i] as int])
}

/// The indices of the extensions of one frame.
fn collect_frame(exts: &[OpusExtensionData], frame: i32) -> (r: Vec<usize>)
    ensures
        pick(items(exts@), r@) == of_frame(items(exts@), frame as int),
        forall|i: int| 0 <= i < r@.len() ==> #[trigger] r@[i] < exts@.len(),
        r@.len() <= exts@.len(),
{
    let mut r: Vec<usize> = Vec::new();
    let mut i: usize = 0;
    proof {
        assert(items(exts@).take(0) =~= Seq::<Item>::empty());
    }
    while i < exts.len()
        invariant
            i <= exts@.len(),
            r@.len() <= i,
            pick(items(exts@), r@) == of_frame(items(exts@).take(i as int), frame as int),
            forall|k: int| 0 <= k < r@.len() ==> #[trigger] r@[k] < i,
        decreases exts@.len() - i,
    {
        proof {
            assert(items(exts@).take(i + 1).drop_last() =~= items(exts@).take(i as int));
        }
        let ghost before = r@;
        if exts[i].frame == frame {
            r.push(i);
            proof {
                assert(pick(items(exts@), r@) =~= pick(items(exts@), before).push(items(exts@)[i as int]));
            }
        }
        i = i + 1;
    }
    proof {
        assert(items(exts@).take(exts@.len() as int) =~= items(exts@));
    }
    r
}

/// What is known of a buffer while pieces are written to it.
spec fn holds(buf: Seq<u8>, orig: Seq<u8>, dry_run: bool, written: Seq<u8>) -> bool {
    buf == if dry_run {
        orig
    } else {
        overwritten(written, orig)
    }
}

/// Writes the extensions of `list` from `from` up to `to` behind the `pos` bytes
/// that are `done`.
fn write_list(
    buf: &mut [u8],
    dry_run: bool,
    len: i32,
    pos: i32,
    exts: &[OpusExtensionData],
    list: &Vec<usize>,
    from: usize,
    to: usize,
    last_at: i64,
    Ghost(done): Ghost<Seq<u8>>,
    Ghost(orig): Ghost<Seq<u8>>,
) -> (r: i32)
    requires
        0 <= pos <= len,
        pos == done.len(),
        from <= to <= list@.len() <= i32::MAX,
        forall|i: int| 0 <= i < list@.len() ==> #[trigger] list@[i] < exts@.len(),
        in_range(items(exts@), MAX_FRAMES as int),
        !dry_run ==> complete(items(exts@)),
        !dry_run ==> run_from(
            done,
            list_chunks(pick(items(exts@), list@), from as int, to as int, last_at as int),
            len as int,
        ).1.len() <= orig.len(),
        holds(old(buf)@, orig, dry_run, done),
    ensures
        ({
            let x = run_from(
                done,
                list_chunks(pick(items(exts@), list@), from as int, to as int, last_at as int),
                len as int,
            );
            &&& r == x.0
            &&& r <= len
            &&& holds(final(buf)@, orig, dry_run, x.1)
        }),
{
    let ghost l = pick(items(exts@), list@);
    let ghost mut w = done;
    let mut at: i32 = pos;
    let mut i: usize = from;
    while i < to
        invariant
            from <= i <= to <= list@.len() <= i32::MAX,
            l == pick(items(exts@), list@),
            forall|k: int| 0 <= k < list@.len() ==> #[trigger] list@[k] < exts@.len(),
            in_range(items(exts@), MAX_FRAMES as int),
            !dry_run ==> complete(items(exts@)),
            !dry_run ==> run_from(
                done,
                list_chunks(l, from as int, to as int, last_at as int),
                len as int,
            ).1.len() <= orig.len(),
            run_from(done, list_chunks(l, from as int, i as int, last_at as int), len as int) == (
                at as int,
                w,
            ),
            0 <= at <= len,
            at == w.len(),
            holds(buf@, orig, dry_run, w),
        decreases to - i,
    {
        let ghost e = l[i as int];
        let ghost last = i == last_at;
        proof {
            lemma_list_split(l, from as int, i + 1, to as int, last_at as int);
            let a = list_chunks(l, from as int, i as int, last_at as int);
            let b = extension_chunks(e, last);
            let rest = list_chunks(l, i + 1, to as int, last_at as int);
            assert(list_chunks(l, from as int, i + 1, last_at as int) == a + b);
            lemma_run_concat(done, a, b, len as int);
            lemma_run_concat(done, a + b, rest, len as int);
            lemma_run_keeps(w, b, len as int);
            lemma_run_keeps(run_from(w, b, len as int).1, rest, len as int);
            if !dry_run {
                assert(buf@.take(at as int) =~= w);
                assert(overwritten(run_from(w, b, len as int).1, buf@) =~= overwritten(
                    run_from(w, b, len as int).1,
                    orig,
                ));
            }
        }
        let r: i32 = write_extension(buf, dry_run, len, at, &exts[list[i]], i as i64 == last_at);
        proof {
            assert(r == run_from(w, extension_chunks(e, last), len as int).0);
            w = run_from(w, extension_chunks(e, last), len as int).1;
        }
        if r < 0 {
            return r;
        }
        at = r;
        i = i + 1;
    }
    at
}

pub proof fn lemma_list_split(l: Seq<Item>, from: int, mid: int, to: int, last_at: int)
    requires
        from <= mid <= to,
    ensures
        list_chunks(l, from, to, last_at) == list_chunks(l, from, mid, last_at) + list_chunks(
            l,
            mid,
            to,
            last_at,
        ),
    decreases to - mid,
{
    if mid < to {
        lemma_list_split(l, from, mid, to - 1, last_at);
        assert(list_chunks(l, from, to, last_at) =~= list_chunks(l, from, mid, last_at) + list_chunks(
            l,
            mid,
            to,
            last_at,
        ));
    } else {
        assert(list_chunks(l, from, mid, last_at) + list_chunks(l, mid, to, last_at) =~= list_chunks(
            l,
            from,
            mid,
            last_at,
        ));
    }
}

pub proof fn lemma_payload_split(l: Seq<Item>, from: int, mid: int, to: int, last_at: int)
    requires
        from <= mid <= to,
    ensures
        payload_chunks(l, from, to, last_at) == payload_chunks(l, from, mid, last_at) + payload_chunks(
            l,
            mid,
            to,
            last_at,
        ),
    decreases to - mid,
{
    if mid < to {
        lemma_payload_split(l, from, mid, to - 1, last_at);
    }
    assert(payload_chunks(l, from, to, last_at) =~= payload_chunks(l, from, mid, last_at)
        + payload_chunks(l, mid, to, last_at));
}

/// One piece behind others.
proof fn lemma_run_push(done: Seq<u8>, a: Seq<Chunk>, c: Chunk, room: int)
    ensures
        run_from(done, a.push(c), room) == if run_from(done, a, room).0 < 0 {
            run_from(done, a, room)
        } else if c.bad {
            (OPUS_BAD_ARG as int, run_from(done, a, room).1)
        } else if room - run_from(done, a, room).1.len() < c.need {
            (OPUS_BUFFER_TOO_SMALL as int, run_from(done, a, room).1)
        } else {
            (
                (run_from(done, a, room).1 + c.bytes).len() as int,
                run_from(done, a, room).1 + c.bytes,
            )
        },
{
    assert(a.push(c) =~= a + seq![c]);
    lemma_run_concat(done, a, seq![c], room);
    reveal_with_fuel(run_from, 2);
    assert(seq![c].skip(1) =~= Seq::<Chunk>::empty());
}

/// Writes the payloads of `list` from `from` up to `to` behind the `pos` bytes
/// that are `done`.
fn write_payloads(
    buf: &mut [u8],
    dry_run: bool,
    len: i32,
    pos: i32,
    exts: &[OpusExtensionData],
    list: &Vec<usize>,
    from: usize,
    to: usize,
    last_at: i64,
    Ghost(done): Ghost<Seq<u8>>,
    Ghost(orig): Ghost<Seq<u8>>,
) -> (r: i32)
    requires
        0 <= pos <= len,
        pos == done.len(),
        from <= to <= list@.len() <= i32::MAX,
        forall|i: int| 0 <= i < list@.len() ==> #[trigger] list@[i] < exts@.len(),
        in_range(items(exts@), MAX_FRAMES as int),
        !dry_run ==> complete(items(exts@)),
        !dry_run ==> run_from(
            done,
            payload_chunks(pick(items(exts@), list@), from as int, to as int, last_at as int),
            len as int,
        ).1.len() <= orig.len(),
        holds(old(buf)@, orig, dry_run, done),
    ensures
        ({
            let x = run_from(
                done,
                payload_chunks(pick(items(exts@), list@), from as int, to as int, last_at as int),
                len as int,
            );
            &&& r == x.0
            &&& r <= len
            &&& holds(final(buf)@, orig, dry_run, x.1)
        }),
{
    let ghost l = pick(items(exts@), list@);
    let ghost mut w = done;
    let mut at: i32 = pos;
    let mut i: usize = from;
    while i < to
        invariant
            from <= i <= to <= list@.len() <= i32::MAX,
            l == pick(items(exts@), list@),
            forall|k: int| 0 <= k < list@.len() ==> #[trigger] list@[k] < exts@.len(),
            in_range(items(exts@), MAX_FRAMES as int),
            !dry_run ==> complete(items(exts@)),
            !dry_run ==> run_from(
                done,
                payload_chunks(l, from as int, to as int, last_at as int),
                len as int,
            ).1.len() <= orig.len(),
            run_from(done, payload_chunks(l, from as int, i as int, last_at as int), len as int) == (
                at as int,
                w,
            ),
            0 <= at <= len,
            at == w.len(),
            holds(buf@, orig, dry_run, w),
        decreases to - i,
    {
        let ghost e = l[i as int];
        let ghost c = payload_chunk(e, i == last_at);
        let ghost before = buf@;
        proof {
            let a = payload_chunks(l, from as int, i as int, last_at as int);
            let rest = payload_chunks(l, i + 1, to as int, last_at as int);
            lemma_payload_split(l, from as int, i + 1, to as int, last_at as int);
            assert(payload_chunks(l, from as int, i + 1, last_at as int) == a.push(c));
            lemma_run_push(done, a, c, len as int);
            lemma_run_concat(done, a.push(c), rest, len as int);
            lemma_run_keeps(run_from(done, a.push(c), len as int).1, rest, len as int);
        }
        let r: i32 = write_extension_payload(
            buf,
            dry_run,
            len,
            at,
            &exts[list[i]],
            i as i64 == last_at,
        );
        if r < 0 {
            return r;
        }
        proof {
            if !dry_run {
                assert(before.take(at as int) =~= w);
                assert(buf@ =~= overwritten(w + c.bytes, orig));
            }
            w = w + c.bytes;
        }
        at = r;
        i = i + 1;
    }
    at
}

proof fn lemma_repeated_split(
    p: Seq<Seq<Item>>,
    f: int,
    mid: int,
    g: int,
    from: int,
    to: int,
    last_at: int,
)
    requires
        f < mid <= g,
    ensures
        exists|rest: Seq<Chunk>|
            repeated_chunks(p, f, g, from, to, last_at) == #[trigger] (repeated_chunks(
                p,
                f,
                mid,
                from,
                to,
                last_at,
            ) + rest),
    decreases g - mid,
{
    let a = repeated_chunks(p, f, mid, from, to, last_at);
    if mid < g {
        lemma_repeated_split(p, f, mid, g - 1, from, to, last_at);
        let rest = choose|rest: Seq<Chunk>|
            repeated_chunks(p, f, g - 1, from, to, last_at) == #[trigger] (a + rest);
        let b = payload_chunks(
            p[g - 1],
            from,
            to,
            if g == p.len() {
                last_at
            } else {
                -1
            },
        );
        assert(repeated_chunks(p, f, g, from, to, last_at) =~= a + (rest + b));
    } else {
        assert(a =~= a + Seq::<Chunk>::empty());
    }
}

/// The lists of indices stand for the extensions frame by frame.
spec fn lists_match(
    exts: Seq<Item>,
    lists: Seq<Vec<usize>>,
    p: Seq<Seq<Item>>,
) -> bool {
    &&& lists.len() == p.len()
    &&& forall|f: int|
        0 <= f < p.len() ==> {
            &&& pick(exts, (#[trigger] lists[f])@) == p[f]
            &&& lists[f]@.len() <= exts.len()
            &&& forall|i: int| 0 <= i < lists[f]@.len() ==> #[trigger] lists[f]@[i] < exts.len()
        }
}

/// Writes the payloads that a repeat of frame `f` stands for.
fn write_repeated(
    buf: &mut [u8],
    dry_run: bool,
    len: i32,
    pos: i32,
    exts: &[OpusExtensionData],
    lists: &Vec<Vec<usize>>,
    f: usize,
    from: usize,
    to: usize,
    last_at: i64,
    Ghost(p): Ghost<Seq<Seq<Item>>>,
    Ghost(done): Ghost<Seq<u8>>,
    Ghost(orig): Ghost<Seq<u8>>,
) -> (r: i32)
    requires
        0 <= pos <= len,
        pos == done.len(),
        f < lists.len(),
        lists_match(items(exts@), lists@, p),
        exts@.len() <= i32::MAX,
        from <= to,
        forall|g: int| f < g < p.len() ==> to <= (#[trigger] p[g]).len(),
        in_range(items(exts@), MAX_FRAMES as int),
        !dry_run ==> complete(items(exts@)),
        !dry_run ==> run_from(
            done,
            repeated_chunks(p, f as int, p.len() as int, from as int, to as int, last_at as int),
            len as int,
        ).1.len() <= orig.len(),
        holds(old(buf)@, orig, dry_run, done),
    ensures
        ({
            let x = run_from(
                done,
                repeated_chunks(p, f as int, p.len() as int, from as int, to as int, last_at as int),
                len as int,
            );
            &&& r == x.0
            &&& r <= len
            &&& holds(final(buf)@, orig, dry_run, x.1)
        }),
{
    let ghost mut w = done;
    let mut at: i32 = pos;
    let mut g: usize = f + 1;
    while g < lists.len()
        invariant
            f < g <= lists@.len(),
            lists_match(items(exts@), lists@, p),
            exts@.len() <= i32::MAX,
            from <= to,
            forall|h: int| f < h < p.len() ==> to <= (#[trigger] p[h]).len(),
            in_range(items(exts@), MAX_FRAMES as int),
            !dry_run ==> complete(items(exts@)),
            !dry_run ==> run_from(
                done,
                repeated_chunks(p, f as int, p.len() as int, from as int, to as int, last_at as int),
                len as int,
            ).1.len() <= orig.len(),
            run_from(
                done,
                repeated_chunks(p, f as int, g as int, from as int, to as int, last_at as int),
                len as int,
            ) == (at as int, w),
            0 <= at <= len,
            at == w.len(),
            holds(buf@, orig, dry_run, w),
        decreases lists@.len() - g,
    {
        let at_end: i64 = if g + 1 == lists.len() {
            last_at
        } else {
            -1
        };
        proof {
            let whole = repeated_chunks(
                p,
                f as int,
                p.len() as int,
                from as int,
                to as int,
                last_at as int,
            );
            let a = repeated_chunks(p, f as int, g as int, from as int, to as int, last_at as int);
            let ab = repeated_chunks(p, f as int, g + 1, from as int, to as int, last_at as int);
            let b = payload_chunks(p[g as int], from as int, to as int, at_end as int);
            lemma_repeated_split(
                p,
                f as int,
                g + 1,
                p.len() as int,
                from as int,
                to as int,
                last_at as int,
            );
            let rest = choose|rest: Seq<Chunk>| whole == #[trigger] (ab + rest);
            assert(ab == a + b);
            lemma_run_concat(done, a, b, len as int);
            lemma_run_concat(done, ab, rest, len as int);
            lemma_run_keeps(run_from(done, ab, len as int).1, rest, len as int);
            assert(pick(items(exts@), lists@[g as int]@) == p[g as int]);
            w = run_from(w, b, len as int).1;
        }
        let r: i32 = write_payloads(
            buf,
            dry_run,
            len,
            at,
            exts,
            &lists[g],
            from,
            to,
            at_end,
            Ghost(run_from(done, repeated_chunks(p, f as int, g as int, from as int, to as int, last_at as int), len as int).1),
            Ghost(orig),
        );
        if r < 0 {
            return r;
        }
        proof {
            lemma_run_concat(
                done,
                repeated_chunks(p, f as int, g + 1, from as int, to as int, last_at as int),
                Seq::empty(),
                len as int,
            );
        }
        at = r;
        g = g + 1;
    }
    at
}

/// Whether extension `i` of frame `f` has its like in every later frame.
fn is_repeatable(
    exts: &[OpusExtensionData],
    lists: &Vec<Vec<usize>>,
    f: usize,
    i: usize,
    Ghost(p): Ghost<Seq<Seq<Item>>>,
) -> (r: bool)
    requires
        f < lists.len(),
        lists_match(items(exts@), lists@, p),
    ensures
        r == repeatable(p, f as int, i as int),
{
    proof {
        assert(pick(items(exts@), lists@[f as int]@) == p[f as int]);
    }
    if f + 1 >= lists.len() || i >= lists[f].len() {
        return false;
    }
    let e = &exts[lists[f][i]];
    let mut g: usize = f + 1;
    while g < lists.len()
        invariant
            f < g <= lists@.len(),
            lists_match(items(exts@), lists@, p),
            i < p[f as int].len(),
            e.item() == p[f as int][i as int],
            forall|h: int|
                #![trigger p[h]]
                f < h < g ==> i < p[h].len() && alike(p[h][i as int], p[f as int][i as int]),
        decreases lists@.len() - g,
    {
        proof {
            assert(pick(items(exts@), lists@[g as int]@) == p[g as int]);
        }
        if i >= lists[g].len() {
            return false;
        }
        let x = &exts[lists[g][i]];
        if x.id != e.id || (x.id < 32 && x.len != e.len) {
            proof {
                assert(!alike(p[g as int][i as int], p[f as int][i as int]));
            }
            return false;
        }
        g = g + 1;
    }
    true
}

/// The first extension of frame `f`, from number `i` on, that cannot be repeated,
/// and the last long one before it.
fn find_repeat_end(
    exts: &[OpusExtensionData],
    lists: &Vec<Vec<usize>>,
    f: usize,
    i: usize,
    Ghost(p): Ghost<Seq<Seq<Item>>>,
) -> (r: (usize, i64))
    requires
        f < lists.len(),
        lists_match(items(exts@), lists@, p),
        i <= p[f as int].len(),
        exts@.len() <= i32::MAX,
    ensures
        r.0 == repeat_end(p, f as int, i as int),
        i <= r.0 <= p[f as int].len(),
        r.1 == last_long(p[f as int], i as int, r.0 as int),
        forall|g: int| f < g < p.len() && i < r.0 ==> r.0 <= (#[trigger] p[g]).len(),
{
    let mut end: usize = i;
    let mut long: i64 = -1;
    proof {
        assert(pick(items(exts@), lists@[f as int]@) == p[f as int]);
    }
    loop
        invariant
            f < lists.len(),
            lists_match(items(exts@), lists@, p),
            exts@.len() <= i32::MAX,
            i <= end <= p[f as int].len(),
            pick(items(exts@), lists@[f as int]@) == p[f as int],
            repeat_end(p, f as int, i as int) == repeat_end(p, f as int, end as int),
            long == last_long(p[f as int], i as int, end as int),
            forall|g: int| f < g < p.len() && i < end ==> end <= (#[trigger] p[g]).len(),
        decreases p[f as int].len() - end,
    {
        if !is_repeatable(exts, lists, f, end, Ghost(p)) {
            return (end, long);
        }
        if exts[lists[f][end]].id >= 32 {
            long = end as i64;
        }
        end = end + 1;
    }
}

proof fn lemma_of_frame_range(exts: Seq<Item>, f: int)
    ensures
        of_frame(exts, f).len() <= exts.len(),
        forall|i: int| 0 <= i < of_frame(exts, f).len() ==> exts.contains(#[trigger] of_frame(exts, f)[i]),
        forall|i: int| 0 <= i < of_frame(exts, f).len() ==> (#[trigger] of_frame(exts, f)[i]).frame == f,
    decreases exts.len(),
{
    if exts.len() > 0 {
        lemma_of_frame_range(exts.drop_last(), f);
        assert forall|i: int| 0 <= i < of_frame(exts, f).len() implies exts.contains(
            #[trigger] of_frame(exts, f)[i],
        ) by {
            if i < of_frame(exts.drop_last(), f).len() {
                let e = of_frame(exts.drop_last(), f)[i];
                let k = choose|k: int| 0 <= k < exts.drop_last().len() && exts.drop_last()[k] == e;
                assert(exts[k] == e);
            } else {
                assert(exts[exts.len() - 1] == exts.last());
            }
        }
    }
}

/// The first part of a run: where it fails so does the whole, and it has written
/// no more than the whole.
proof fn lemma_run_part(done: Seq<u8>, a: Seq<Chunk>, b: Seq<Chunk>, whole: Seq<Chunk>, room: int)
    requires
        whole == a + b,
    ensures
        run_from(done, a, room).0 < 0 ==> run_from(done, whole, room) == run_from(done, a, room),
        run_from(done, a, room).0 >= 0 ==> {
            &&& run_from(done, whole, room) == run_from(run_from(done, a, room).1, b, room)
            &&& run_from(done, a, room).0 == run_from(done, a, room).1.len()
        },
        run_from(done, a, room).1.len() <= run_from(done, whole, room).1.len(),
{
    lemma_run_concat(done, a, b, room);
    lemma_run_keeps(run_from(done, a, room).1, b, room);
}

/// Writes one byte in front of which `done` stands.
fn put(
    buf: &mut [u8],
    dry_run: bool,
    pos: i32,
    byte: u8,
    Ghost(done): Ghost<Seq<u8>>,
    Ghost(orig): Ghost<Seq<u8>>,
)
    requires
        0 <= pos,
        pos == done.len(),
        !dry_run ==> pos < orig.len(),
        holds(old(buf)@, orig, dry_run, done),
    ensures
        holds(final(buf)@, orig, dry_run, done.push(byte)),
{
    if !dry_run {
        buf[pos as usize] = byte;
        proof {
            assert(buf@ =~= overwritten(done.push(byte), orig));
        }
    }
}

/// Writes the step from frame `frame` to frame `f`.
fn write_separator(
    buf: &mut [u8],
    dry_run: bool,
    len: i32,
    pos: i32,
    diff: i32,
    Ghost(done): Ghost<Seq<u8>>,
    Ghost(orig): Ghost<Seq<u8>>,
) -> (r: i32)
    requires
        0 <= pos <= len,
        pos == done.len(),
        1 <= diff <= 255,
        !dry_run ==> run_from(done, seq![separator_chunk(diff as int)], len as int).1.len() <= orig.len(),
        holds(old(buf)@, orig, dry_run, done),
    ensures
        ({
            let x = run_from(done, seq![separator_chunk(diff as int)], len as int);
            &&& r == x.0
            &&& r <= len
            &&& holds(final(buf)@, orig, dry_run, x.1)
        }),
{
    proof {
        let c = separator_chunk(diff as int);
        assert(seq![c] =~= Seq::<Chunk>::empty().push(c));
        lemma_run_push(done, Seq::empty(), c, len as int);
        if diff == 1 {
            assert(done + c.bytes =~= done.push(2u8));
        } else {
            assert(done + c.bytes =~= done.push(3u8).push(diff as u8));
        }
    }
    if len - pos < 2 {
        return OPUS_BUFFER_TOO_SMALL;
    }
    if diff == 1 {
        put(buf, dry_run, pos, 2, Ghost(done), Ghost(orig));
        pos + 1
    } else {
        put(buf, dry_run, pos, 3, Ghost(done), Ghost(orig));
        put(buf, dry_run, pos + 1, diff as u8, Ghost(done.push(3u8)), Ghost(orig));
        pos + 2
    }
}

/// Writes the announcement of a repeat.
fn write_repeat(
    buf: &mut [u8],
    dry_run: bool,
    len: i32,
    pos: i32,
    last: bool,
    Ghost(done): Ghost<Seq<u8>>,
    Ghost(orig): Ghost<Seq<u8>>,
) -> (r: i32)
    requires
        0 <= pos <= len,
        pos == done.len(),
        !dry_run ==> run_from(done, seq![repeat_chunk(last)], len as int).1.len() <= orig.len(),
        holds(old(buf)@, orig, dry_run, done),
    ensures
        ({
            let x = run_from(done, seq![repeat_chunk(last)], len as int);
            &&& r == x.0
            &&& r <= len
            &&& holds(final(buf)@, orig, dry_run, x.1)
        }),
{
    let byte: u8 = if last { 4 } else { 5 };
    proof {
        let c = repeat_chunk(last);
        assert(seq![c] =~= Seq::<Chunk>::empty().push(c));
        lemma_run_push(done, Seq::empty(), c, len as int);
        assert(done + c.bytes =~= done.push(byte));
    }
    if len - pos < 1 {
        return OPUS_BUFFER_TOO_SMALL;
    }
    put(buf, dry_run, pos, byte, Ghost(done), Ghost(orig));
    pos + 1
}

/// What all the writers of extensions rest on.
spec fn writable(
    exts: Seq<Item>,
    lists: Seq<Vec<usize>>,
    p: Seq<Seq<Item>>,
    dry_run: bool,
) -> bool {
    &&& lists_match(exts, lists, p)
    &&& exts.len() <= i32::MAX
    &&& p.len() <= MAX_FRAMES
    &&& in_range(exts, MAX_FRAMES as int)
    &&& !dry_run ==> complete(exts)
}

/// Writes the extensions of frame `f` that are repeated, and the repeat.
fn write_repeat_part(
    buf: &mut [u8],
    dry_run: bool,
    len: i32,
    pos: i32,
    exts: &[OpusExtensionData],
    lists: &Vec<Vec<usize>>,
    f: usize,
    from: usize,
    end: usize,
    last: bool,
    long: i64,
    Ghost(x): Ghost<FramePlan>,
    Ghost(p): Ghost<Seq<Seq<Item>>>,
    Ghost(done): Ghost<Seq<u8>>,
    Ghost(orig): Ghost<Seq<u8>>,
) -> (r: i32)
    requires
        0 <= pos <= len,
        pos == done.len(),
        f < lists.len(),
        writable(items(exts@), lists@, p, dry_run),
        x.end == end,
        x.last == last,
        x.long == long,
        from <= end <= p[f as int].len(),
        forall|g: int| f < g < p.len() ==> end <= (#[trigger] p[g]).len(),
        !dry_run ==> run_from(done, repeat_chunks(p, f as int, from as int, x), len as int).1.len()
            <= orig.len(),
        holds(old(buf)@, orig, dry_run, done),
    ensures
        ({
            let y = run_from(done, repeat_chunks(p, f as int, from as int, x), len as int);
            &&& r == y.0
            &&& r <= len
            &&& holds(final(buf)@, orig, dry_run, y.1)
        }),
{
    let last_at: i64 = if last { long } else { -1 };
    let ghost whole = repeat_chunks(p, f as int, from as int, x);
    let ghost a = list_chunks(p[f as int], from as int, end as int, -1);
    let ghost b = seq![repeat_chunk(last)];
    let ghost c = repeated_chunks(p, f as int, p.len() as int, from as int, end as int, last_at as int);
    proof {
        assert(pick(items(exts@), lists@[f as int]@) == p[f as int]);
        assert(whole =~= a + (b + c));
        lemma_run_part(done, a, b + c, whole, len as int);
        lemma_run_part(done, a + b, c, whole, len as int);
        lemma_run_part(done, a, b, a + b, len as int);
    }
    let r: i32 = write_list(
        buf,
        dry_run,
        len,
        pos,
        exts,
        &lists[f],
        from,
        end,
        -1,
        Ghost(done),
        Ghost(orig),
    );
    if r < 0 {
        return r;
    }
    let ghost w = run_from(done, a, len as int).1;
    let r: i32 = write_repeat(buf, dry_run, len, r, last, Ghost(w), Ghost(orig));
    if r < 0 {
        return r;
    }
    let ghost w = run_from(done, a + b, len as int).1;
    write_repeated(
        buf,
        dry_run,
        len,
        r,
        exts,
        lists,
        f,
        from,
        end,
        last_at,
        Ghost(p),
        Ghost(w),
        Ghost(orig),
    )
}

/// How far the writing has got, in numbers.
struct Place {
    consumed: usize,
    frame: i32,
    written: i64,
}

impl Place {
    spec fn view(&self) -> Progress {
        Progress {
            consumed: self.consumed as int,
            frame: self.frame as int,
            written: self.written as int,
        }
    }
}

/// What holds of the progress when the writing comes to frame `f`.
spec fn progress_ok(p: Seq<Seq<Item>>, f: int, s: Progress) -> bool {
    &&& 0 <= s.consumed
    &&& forall|g: int| f <= g < p.len() ==> s.consumed <= (#[trigger] p[g]).len()
    &&& 0 <= s.frame <= f
    &&& 0 <= s.written <= f * 0x20_0000_0000
}

/// Writes the extensions of frame `f`, and brings the progress up to date.
fn write_frame(
    buf: &mut [u8],
    dry_run: bool,
    len: i32,
    pos: i32,
    exts: &[OpusExtensionData],
    lists: &Vec<Vec<usize>>,
    f: usize,
    at: &mut Place,
    Ghost(p): Ghost<Seq<Seq<Item>>>,
    Ghost(done): Ghost<Seq<u8>>,
    Ghost(orig): Ghost<Seq<u8>>,
) -> (r: i32)
    requires
        0 <= pos <= len,
        pos == done.len(),
        f < lists.len(),
        writable(items(exts@), lists@, p, dry_run),
        progress_ok(p, f as int, old(at)@),
        !dry_run ==> run_from(
            done,
            frame_chunks(p, exts@.len() as int, f as int, old(at)@),
            len as int,
        ).1.len() <= orig.len(),
        holds(old(buf)@, orig, dry_run, done),
    ensures
        ({
            let x = run_from(
                done,
                frame_chunks(p, exts@.len() as int, f as int, old(at)@),
                len as int,
            );
            &&& r == x.0
            &&& r <= len
            &&& holds(final(buf)@, orig, dry_run, x.1)
        }),
        r >= 0 ==> final(at)@ == frame_after(p, exts@.len() as int, f as int, old(at)@) && progress_ok(
            p,
            f + 1,
            final(at)@,
        ),
{
    proof {
        assert(pick(items(exts@), lists@[f as int]@) == p[f as int]);
    }
    let n: usize = lists[f].len();
    let from: usize = at.consumed;
    if from >= n {
        return pos;
    }
    let (end, long): (usize, i64) = find_repeat_end(exts, lists, f, from, Ghost(p));
    let later: i64 = (lists.len() - f - 1) as i64;
    let again: i64 = (end - from) as i64;
    proof {
        assert(0 <= again * later <= 0x8000_0000 * 48) by (nonlinear_arith)
            requires
                0 <= again <= 0x8000_0000,
                0 <= later <= 48,
        ;
    }
    let extra: i64 = again * later;
    let all: i64 = exts.len() as i64;
    let last = at.written + again + extra == all || (long < 0 && end == n);
    let last_at: i64 = all - 1 - at.written - extra + from as i64;
    let ghost x = frame_plan(p, exts@.len() as int, f as int, old(at)@);
    let ghost whole = frame_chunks(p, exts@.len() as int, f as int, old(at)@);
    let ghost a = if f != old(at)@.frame {
        seq![separator_chunk(f - old(at)@.frame)]
    } else {
        Seq::<Chunk>::empty()
    };
    let ghost b = if from < end {
        repeat_chunks(p, f as int, from as int, x)
    } else {
        Seq::<Chunk>::empty()
    };
    let ghost c = list_chunks(p[f as int], end as int, n as int, last_at as int);
    proof {
        assert(x.end == end && x.extra == extra && x.long == long && x.last == last && x.last_at
            == last_at);
        assert(whole =~= a + (b + c));
        lemma_run_part(done, a, b + c, whole, len as int);
        lemma_run_part(done, a + b, c, whole, len as int);
        lemma_run_part(done, a, b, a + b, len as int);
        reveal_with_fuel(run_from, 1);
    }
    let mut r: i32 = pos;
    if f as i32 != at.frame {
        r = write_separator(buf, dry_run, len, r, f as i32 - at.frame, Ghost(done), Ghost(orig));
        if r < 0 {
            return r;
        }
    }
    let ghost w = run_from(done, a, len as int).1;
    if from < end {
        r = write_repeat_part(
            buf,
            dry_run,
            len,
            r,
            exts,
            lists,
            f,
            from,
            end,
            last,
            long,
            Ghost(x),
            Ghost(p),
            Ghost(w),
            Ghost(orig),
        );
        if r < 0 {
            return r;
        }
    }
    let ghost w = run_from(done, a + b, len as int).1;
    r = write_list(
        buf,
        dry_run,
        len,
        r,
        exts,
        &lists[f],
        end,
        n,
        last_at,
        Ghost(w),
        Ghost(orig),
    );
    if r < 0 {
        return r;
    }
    at.frame = if from < end && last { f as i32 + 1 } else { f as i32 };
    at.consumed = end;
    at.written = at.written + (n - from) as i64 + extra;
    r
}

/// Whether frames and identifiers are within range.
fn check_range(exts: &[OpusExtensionData], nb_frames: i32) -> (r: bool)
    ensures
        r == in_range(items(exts@), nb_frames as int),
{
    let mut i: usize = 0;
    while i < exts.len()
        invariant
            i <= exts@.len(),
            forall|k: int|
                0 <= k < i ==> {
                    &&& 0 <= (#[trigger] exts@[k]).frame < nb_frames
                    &&& 3 <= exts@[k].id <= 127
                },
        decreases exts@.len() - i,
    {
        let e = &exts[i];
        if e.frame < 0 || e.frame >= nb_frames || e.id < 3 || e.id > 127 {
            proof {
                assert(items(exts@)[i as int] == e.item());
            }
            return false;
        }
        i = i + 1;
    }
    true
}

/// Moves the first `n` bytes to the end of the first `len`, and fills up with ones
/// in front of them.
fn pad_front(buf: &mut [u8], n: usize, len: usize)
    requires
        n <= len <= old(buf)@.len(),
    ensures
        final(buf)@ == Seq::new((len - n) as nat, |i: int| 1u8) + old(buf)@.take(n as int) + old(
            buf,
        )@.skip(len as int),
{
    let shift: usize = len - n;
    let mut i: usize = n;
    while i > 0
        invariant
            0 <= i <= n,
            n <= len <= buf@.len(),
            shift == len - n,
            buf@.len() == old(buf)@.len(),
            forall|k: int| 0 <= k < i ==> #[trigger] buf@[k] == old(buf)@[k],
            forall|k: int| i + shift <= k < len ==> #[trigger] buf@[k] == old(buf)@[k - shift],
            forall|k: int| len <= k < buf@.len() ==> #[trigger] buf@[k] == old(buf)@[k],
        decreases i,
    {
        i = i - 1;
        buf[i + shift] = buf[i];
    }
    let mut j: usize = 0;
    while j < shift
        invariant
            j <= shift,
            n <= len <= buf@.len(),
            shift == len - n,
            buf@.len() == old(buf)@.len(),
            forall|k: int| 0 <= k < j ==> #[trigger] buf@[k] == 1,
            forall|k: int| shift <= k < len ==> #[trigger] buf@[k] == old(buf)@[k - shift],
            forall|k: int| len <= k < buf@.len() ==> #[trigger] buf@[k] == old(buf)@[k],
        decreases shift - j,
    {
        buf[j] = 1;
        j = j + 1;
    }
    proof {
        assert(buf@ =~= Seq::new((len - n) as nat, |i: int| 1u8) + old(buf)@.take(n as int) + old(
            buf,
        )@.skip(len as int));
    }
}

/// Writes the extensions to `buf`, or counts the bytes that this would take.
fn generate_into(
    buf: &mut [u8],
    dry_run: bool,
    len: i32,
    extensions: &[OpusExtensionData],
    nb_frames: i32,
    pad: bool,
) -> (r: i32)
    requires
        0 <= len,
        0 <= nb_frames || extensions@.len() > 0,
        extensions@.len() <= i32::MAX,
        !dry_run ==> payloads_there(items(extensions@), nb_frames as int),
        !dry_run ==> generated(items(extensions@), nb_frames as int, len as int, pad).1.len() <= old(buf)@.len(),
    ensures
        r == generated(items(extensions@), nb_frames as int, len as int, pad).0,
        holds(
            final(buf)@,
            old(buf)@,
            dry_run,
            generated(items(extensions@), nb_frames as int, len as int, pad).1,
        ),
{
    let ghost orig = buf@;
    proof {
        assert(overwritten(Seq::empty(), orig) =~= orig);
    }
    if nb_frames > MAX_FRAMES as i32 || !check_range(extensions, nb_frames) {
        return OPUS_BAD_ARG;
    }
    proof {
        if nb_frames < 0 {
            assert(items(extensions@)[0].frame < nb_frames);
        }
    }
    let ghost p = by_frame(items(extensions@), nb_frames as int);
    let ghost total = extensions@.len() as int;
    let mut lists: Vec<Vec<usize>> = Vec::new();
    let mut g: i32 = 0;
    while g < nb_frames
        invariant
            0 <= g <= nb_frames <= MAX_FRAMES,
            lists@.len() == g,
            forall|f: int|
                0 <= f < g ==> {
                    &&& pick(items(extensions@), (#[trigger] lists@[f])@) == of_frame(items(extensions@), f)
                    &&& lists@[f]@.len() <= extensions@.len()
                    &&& forall|i: int| 0 <= i < lists@[f]@.len() ==> #[trigger] lists@[f]@[i] < extensions@.len()
                },
        decreases nb_frames - g,
    {
        lists.push(collect_frame(extensions, g));
        g = g + 1;
    }
    let mut at = Place { consumed: 0, frame: 0, written: 0 };
    let ghost whole = plan(items(extensions@), nb_frames as int);
    let ghost mut before = Seq::<Chunk>::empty();
    let ghost mut w = Seq::<u8>::empty();
    let mut pos: i32 = 0;
    let mut f: usize = 0;
    proof {
        assert(before + whole =~= whole);
    }
    while f < lists.len()
        invariant
            f <= lists@.len(),
            lists@.len() == nb_frames,
            0 <= nb_frames <= MAX_FRAMES,
            orig == old(buf)@,
            p == by_frame(items(extensions@), nb_frames as int),
            total == extensions@.len(),
            in_range(items(extensions@), nb_frames as int),
            writable(items(extensions@), lists@, p, dry_run),
            progress_ok(p, f as int, at@),
            whole == plan(items(extensions@), nb_frames as int),
            whole == before + plan_from(p, total, f as int, at@),
            run_from(Seq::empty(), before, len as int) == (pos as int, w),
            0 <= pos <= len,
            pos == w.len(),
            !dry_run ==> generated(items(extensions@), nb_frames as int, len as int, pad).1.len() <= orig.len(),
            holds(buf@, orig, dry_run, w),
        decreases lists@.len() - f,
    {
        let ghost mine = frame_chunks(p, total, f as int, at@);
        let ghost rest = plan_from(p, total, f + 1, frame_after(p, total, f as int, at@));
        proof {
            assert(whole =~= (before + mine) + rest);
            lemma_run_part(Seq::empty(), before, mine, before + mine, len as int);
            lemma_run_part(Seq::empty(), before + mine, rest, whole, len as int);
        }
        pos = write_frame(
            buf,
            dry_run,
            len,
            pos,
            extensions,
            &lists,
            f,
            &mut at,
            Ghost(p),
            Ghost(w),
            Ghost(orig),
        );
        proof {
            before = before + mine;
            w = run_from(Seq::empty(), before, len as int).1;
        }
        if pos < 0 {
            return pos;
        }
        f = f + 1;
    }
    proof {
        assert(whole =~= before);
    }
    if pad && pos < len {
        if !dry_run {
            pad_front(buf, pos as usize, len as usize);
            proof {
                assert(buf@ =~= overwritten(
                    generated(items(extensions@), nb_frames as int, len as int, pad).1,
                    orig,
                ));
            }
        }
        return len;
    }
    pos
}

/// Writes the extensions to `data`, or counts the bytes that this would take where
/// there is none. With `pad` the output is filled up to `len` bytes. Returns the
/// number of bytes, or the error.
pub fn opus_packet_extensions_generate(
    data: Option<&mut [u8]>,
    len: i32,
    extensions: &[OpusExtensionData],
    nb_frames: i32,
    pad: bool,
) -> (r: i32)
    requires
        0 <= len,
        0 <= nb_frames || extensions@.len() > 0,
        extensions@.len() <= i32::MAX,
        data is Some ==> payloads_there(items(extensions@), nb_frames as int),
        data matches Some(d) ==> len <= d@.len() || generated(
            items(extensions@),
            nb_frames as int,
            len as int,
            pad,
        ).1.len() <= d@.len(),
    ensures
        r == generated(items(extensions@), nb_frames as int, len as int, pad).0,
        data matches Some(d) ==> final(d)@ == overwritten(
            generated(items(extensions@), nb_frames as int, len as int, pad).1,
            d@,
        ),
{
    proof {
        generated_fits(items(extensions@), nb_frames as int, len as int, pad);
    }
    match data {
        Some(buf) => generate_into(buf, false, len, extensions, nb_frames, pad),
        None => {
            let mut unused: Vec<u8> = Vec::new();
            generate_into(unused.as_mut_slice(), true, len, extensions, nb_frames, pad)
        },
    }
}

} // verus!
