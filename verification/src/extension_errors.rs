//! When the writing of extensions is refused.

use vstd::prelude::*;
use crate::codes::{MAX_FRAMES, OPUS_BAD_ARG, OPUS_BUFFER_TOO_SMALL};
use crate::extension_gen::{
    by_frame, extension_chunks, frame_after, frame_chunks, frame_plan, generated, in_range,
    list_chunks, of_frame, payload_chunk, payload_chunks, plan, plan_from, repeat_chunk,
    repeat_chunks, repeat_end, repeatable, repeated_chunks, run_from, separator_chunk, Chunk,
    Progress,
};
use crate::extension_iter::Item;

verus! {

/// Whether the payload of an extension has a length that can be written: at most one byte
/// behind a short identifier, any number of bytes behind a long one.
pub open spec fn writable(e: Item) -> bool {
    0 <= e.len && (e.id < 32 ==> e.len <= 1)
}

/// Whether every payload has a length that can be written.
pub open spec fn all_writable(exts: Seq<Item>) -> bool {
    forall|i: int| 0 <= i < exts.len() ==> writable(#[trigger] exts[i])
}

/// Whether no piece is bad.
spec fn sound(chunks: Seq<Chunk>) -> bool {
    forall|i: int| 0 <= i < chunks.len() ==> !(#[trigger] chunks[i]).bad
}

/// Pieces are sound where they are sound on both sides of a cut.
proof fn lemma_sound_concat(a: Seq<Chunk>, b: Seq<Chunk>)
    ensures
        sound(a + b) == (sound(a) && sound(b)),
{
    if sound(a + b) {
        assert forall|i: int| 0 <= i < a.len() implies !(#[trigger] a[i]).bad by {
            assert(a[i] == (a + b)[i]);
        }
        assert forall|i: int| 0 <= i < b.len() implies !(#[trigger] b[i]).bad by {
            assert(b[i] == (a + b)[a.len() + i]);
        }
    }
}

/// The writing succeeds only where all pieces are sound, and fails for want of room alone
/// where they are.
proof fn lemma_run_sound(done: Seq<u8>, chunks: Seq<Chunk>, room: int)
    ensures
        ({
            let r = run_from(done, chunks, room).0;
            &&& r >= 0 || r == OPUS_BAD_ARG || r == OPUS_BUFFER_TOO_SMALL
            &&& r >= 0 ==> sound(chunks)
            &&& sound(chunks) ==> r != OPUS_BAD_ARG
        }),
    decreases chunks.len(),
{
    if chunks.len() > 0 {
        let c = chunks[0];
        lemma_run_sound(done + c.bytes, chunks.skip(1), room);
        assert(chunks =~= seq![c] + chunks.skip(1));
        lemma_sound_concat(seq![c], chunks.skip(1));
        assert(seq![c][0] == c);
    }
}

/// The pieces of a list are sound just where its payloads can be written.
proof fn lemma_list_sound(l: Seq<Item>, from: int, to: int, last_at: int)
    ensures
        sound(list_chunks(l, from, to, last_at)) == (forall|i: int|
            from <= i < to ==> writable(#[trigger] l[i])),
        sound(payload_chunks(l, from, to, last_at)) == (forall|i: int|
            from <= i < to ==> writable(#[trigger] l[i])),
    decreases to - from,
{
    if from < to {
        lemma_list_sound(l, from, to - 1, last_at);
        let e = l[to - 1];
        let c = payload_chunk(e, to - 1 == last_at);
        let pair = extension_chunks(e, to - 1 == last_at);
        assert(c.bad == !writable(e));
        assert(pair[1] == c && !pair[0].bad);
        assert(sound(pair) == writable(e));
        assert(seq![c][0] == c);
        lemma_sound_concat(list_chunks(l, from, to - 1, last_at), pair);
        lemma_sound_concat(payload_chunks(l, from, to - 1, last_at), seq![c]);
        assert(payload_chunks(l, from, to, last_at) =~= payload_chunks(l, from, to - 1, last_at)
            + seq![c]);
        if forall|i: int| from <= i < to - 1 ==> writable(#[trigger] l[i]) {
            if writable(e) {
                assert forall|i: int| from <= i < to implies writable(#[trigger] l[i]) by {
                    if i == to - 1 {
                        assert(l[i] == e);
                    }
                }
            }
        }
    }
}

/// The same of the payloads of later frames.
proof fn lemma_repeated_sound(
    p: Seq<Seq<Item>>,
    f: int,
    g: int,
    from: int,
    to: int,
    last_at: int,
)
    ensures
        sound(repeated_chunks(p, f, g, from, to, last_at)) == (forall|h: int, i: int|
            f < h < g && from <= i < to ==> writable(#[trigger] p[h][i])),
    decreases g - f,
{
    if g > f + 1 {
        let la = if g == p.len() {
            last_at
        } else {
            -1
        };
        lemma_repeated_sound(p, f, g - 1, from, to, last_at);
        lemma_list_sound(p[g - 1], from, to, la);
        lemma_sound_concat(
            repeated_chunks(p, f, g - 1, from, to, last_at),
            payload_chunks(p[g - 1], from, to, la),
        );
        if sound(repeated_chunks(p, f, g, from, to, last_at)) {
            assert forall|h: int, i: int| f < h < g && from <= i < to implies writable(
                #[trigger] p[h][i],
            ) by {
                if h == g - 1 {
                    assert(writable(p[g - 1][i]));
                }
            }
        } else if forall|h: int, i: int|
            f < h < g && from <= i < to ==> writable(#[trigger] p[h][i]) {
            assert forall|h: int, i: int| f < h < g - 1 && from <= i < to implies writable(
                #[trigger] p[h][i],
            ) by {}
            assert forall|i: int| from <= i < to implies writable(#[trigger] p[g - 1][i]) by {}
        }
    }
}

/// A repeat ends within the frame and within every later one.
proof fn lemma_repeat_within(p: Seq<Seq<Item>>, f: int, i: int)
    requires
        0 <= i < p[f].len(),
        0 <= f < p.len(),
        forall|g: int| f <= g < p.len() ==> i <= (#[trigger] p[g]).len(),
    ensures
        i <= repeat_end(p, f, i) <= p[f].len(),
        forall|g: int| f <= g < p.len() ==> repeat_end(p, f, i) <= (#[trigger] p[g]).len(),
    decreases p[f].len() - i,
{
    if repeatable(p, f, i) {
        if i + 1 < p[f].len() {
            lemma_repeat_within(p, f, i + 1);
        } else {
            assert(!repeatable(p, f, i + 1));
        }
    }
}

/// The pieces from frame `f` on are sound just where the payloads that are left can be
/// written.
proof fn lemma_plan_sound(p: Seq<Seq<Item>>, total: int, f: int, s: Progress)
    requires
        0 <= f,
        0 <= s.consumed,
        forall|g: int| f <= g < p.len() ==> s.consumed <= (#[trigger] p[g]).len(),
    ensures
        sound(plan_from(p, total, f, s)) == (forall|g: int, i: int|
            f <= g < p.len() && s.consumed <= i < p[g].len() ==> writable(#[trigger] p[g][i])),
    decreases p.len() - f,
{
    if f < p.len() {
        let l = p[f];
        let x = frame_plan(p, total, f, s);
        let after = frame_after(p, total, f, s);
        let here = frame_chunks(p, total, f, s);
        let later = plan_from(p, total, f + 1, after);
        lemma_sound_concat(here, later);
        if s.consumed >= l.len() {
            lemma_plan_sound(p, total, f + 1, after);
        } else {
            lemma_repeat_within(p, f, s.consumed);
            lemma_plan_sound(p, total, f + 1, after);
            let la = if x.last {
                x.long
            } else {
                -1
            };
            let sep = if f != s.frame {
                seq![separator_chunk(f - s.frame)]
            } else {
                Seq::<Chunk>::empty()
            };
            let mark = seq![repeat_chunk(x.last)];
            let first = list_chunks(l, s.consumed, x.end, -1);
            let others = repeated_chunks(p, f, p.len() as int, s.consumed, x.end, la);
            let rep = if s.consumed < x.end {
                repeat_chunks(p, f, s.consumed, x)
            } else {
                Seq::<Chunk>::empty()
            };
            let lst = list_chunks(l, x.end, l.len() as int, x.last_at);
            lemma_list_sound(l, s.consumed, x.end, -1);
            lemma_list_sound(l, x.end, l.len() as int, x.last_at);
            lemma_repeated_sound(p, f, p.len() as int, s.consumed, x.end, la);
            lemma_sound_concat(first, mark);
            lemma_sound_concat(first + mark, others);
            lemma_sound_concat(sep, rep);
            lemma_sound_concat(sep + rep, lst);
            assert(sound(sep) && sound(mark));
            assert(here == sep + rep + lst);
            let left = forall|g: int, i: int|
                f <= g < p.len() && s.consumed <= i < p[g].len() ==> writable(#[trigger] p[g][i]);
            if sound(here + later) {
                assert forall|g: int, i: int|
                    f <= g < p.len() && s.consumed <= i < p[g].len() implies writable(
                    #[trigger] p[g][i],
                ) by {
                    if g == f {
                        assert(writable(l[i]));
                    } else if i < x.end {
                        assert(s.consumed < x.end);
                    }
                }
            } else if left {
                assert forall|i: int| s.consumed <= i < l.len() implies writable(#[trigger] l[i]) by {
                    assert(writable(p[f][i]));
                }
                assert(sound(here));
                assert(sound(later));
            }
        }
    }
}

/// The extensions of a frame are some of the given ones.
proof fn lemma_frame_from(exts: Seq<Item>, f: int)
    ensures
        forall|j: int|
            0 <= j < of_frame(exts, f).len() ==> exists|i: int|
                0 <= i < exts.len() && exts[i] == #[trigger] of_frame(exts, f)[j],
    decreases exts.len(),
{
    if exts.len() > 0 {
        let d = exts.drop_last();
        lemma_frame_from(d, f);
        assert forall|j: int| 0 <= j < of_frame(exts, f).len() implies exists|i: int|
            0 <= i < exts.len() && exts[i] == #[trigger] of_frame(exts, f)[j] by {
            if j < of_frame(d, f).len() {
                assert(of_frame(exts, f)[j] == of_frame(d, f)[j]);
                let i = choose|i: int| 0 <= i < d.len() && d[i] == of_frame(d, f)[j];
                assert(exts[i] == d[i]);
            } else {
                assert(exts[exts.len() - 1] == of_frame(exts, f)[j]);
            }
        }
    }
}

/// Each given extension is among those of its frame.
proof fn lemma_frame_has(exts: Seq<Item>, i: int)
    requires
        0 <= i < exts.len(),
    ensures
        exists|j: int|
            0 <= j < of_frame(exts, exts[i].frame).len() && of_frame(
                exts,
                exts[i].frame,
            )[j] == exts[i],
    decreases exts.len(),
{
    let f = exts[i].frame;
    let d = exts.drop_last();
    if i == exts.len() - 1 {
        assert(of_frame(exts, f)[of_frame(d, f).len() as int] == exts[i]);
    } else {
        lemma_frame_has(d, i);
        let j = choose|j: int| 0 <= j < of_frame(d, f).len() && of_frame(d, f)[j] == d[i];
        assert(of_frame(exts, f)[j] == exts[i]);
    }
}

/// Too many frames, a frame or an identifier out of range: refused, with nothing written.
/// Otherwise what is written has payloads of lengths that can be written, and where all
/// lengths can be written only room can be lacking.
pub proof fn generated_errors(exts: Seq<Item>, nb_frames: int, len: int, pad: bool)
    requires
        0 <= len,
    ensures
        ({
            let (r, w) = generated(exts, nb_frames, len, pad);
            if nb_frames > MAX_FRAMES || !in_range(exts, nb_frames) {
                r == OPUS_BAD_ARG && w.len() == 0
            } else {
                &&& r >= 0 || r == OPUS_BAD_ARG || r == OPUS_BUFFER_TOO_SMALL
                &&& r >= 0 ==> all_writable(exts)
                &&& all_writable(exts) ==> r >= 0 || r == OPUS_BUFFER_TOO_SMALL
            }
        }),
{
    if nb_frames <= MAX_FRAMES && in_range(exts, nb_frames) {
        let p = by_frame(exts, nb_frames);
        lemma_plan_sound(
            p,
            exts.len() as int,
            0,
            Progress { consumed: 0, frame: 0, written: 0 },
        );
        lemma_run_sound(Seq::empty(), plan(exts, nb_frames), len);
        if sound(plan(exts, nb_frames)) {
            assert forall|i: int| 0 <= i < exts.len() implies writable(#[trigger] exts[i]) by {
                let f = exts[i].frame;
                lemma_frame_has(exts, i);
                let j = choose|j: int|
                    0 <= j < of_frame(exts, f).len() && of_frame(exts, f)[j] == exts[i];
                assert(p[f] == of_frame(exts, f));
                assert(writable(p[f][j]));
            }
        }
        if all_writable(exts) {
            assert forall|g: int, i: int|
                0 <= g < p.len() && 0 <= i < p[g].len() implies writable(#[trigger] p[g][i]) by {
                lemma_frame_from(exts, g);
                assert(p[g] == of_frame(exts, g));
            }
        }
    }
}

} // verus!
