//! Laws of packing: what is written splits into the frames that went in, and no
//! packet gets longer when its padding is taken away.

use vstd::prelude::*;
use crate::codes::{MAX_FRAMES, MAX_FRAME_BYTES, OPUS_BUFFER_TOO_SMALL};
use crate::extension_gen::{generated, generated_exact, generated_fits, in_range, of_frame};
use crate::extension_iter::Item;
use crate::extension_law::{ext_of, exts_of_frame, extensions_round_trip};
use crate::extensions::{extensions_in, extensions_valid};
use crate::packet::{
    counted_head, layout, lemma_head, lemma_layout, lemma_read_padding, lemma_read_sizes,
    lemma_total_constant, lemma_total_push, read_head, read_padding, read_size, read_sizes,
    same_sizes, samples_per_frame, size_bytes, size_read_is_canonical, size_round_trip, total, Head,
    Layout,
};
use crate::packing::{
    amount_bytes, compact_head, counted_bytes, counted_len, counted_packet, counted_sizes, end_size,
    fill_bytes, finished_packet, form_byte, frames_ok, joined, lemma_amount, lemma_amount_len,
    lemma_counted_fits, pad_amount, packed, same_size, size_header,
};

verus! {

// ---------------------------------------------------------------------------
// Packets without padding
// ---------------------------------------------------------------------------

/// The frames as a packet without padding.
#[verifier::opaque]
pub open spec fn minimal(toc: u8, frames: Seq<Seq<u8>>, self_delimited: bool) -> Seq<u8> {
    if frames.len() <= 2 {
        compact_head(toc, frames) + end_size(frames, self_delimited) + joined(frames)
    } else {
        counted_bytes(toc, frames, false) + (counted_sizes(frames) + end_size(frames, self_delimited)
            + joined(frames))
    }
}

/// Without extensions and padding the outcome is the packet without padding, where
/// there is room for it.
pub proof fn packed_is_minimal(toc: u8, frames: Seq<Seq<u8>>, maxlen: int, self_delimited: bool)
    ensures
        packed(toc, frames, Seq::empty(), maxlen, self_delimited, false) == if minimal(
            toc,
            frames,
            self_delimited,
        ).len() <= maxlen {
            (minimal(toc, frames, self_delimited).len() as int, minimal(toc, frames, self_delimited))
        } else {
            (OPUS_BUFFER_TOO_SMALL as int, Seq::empty())
        },
{
    reveal(packed);
    reveal(minimal);
}

/// The lengths of the frames.
pub open spec fn lengths(frames: Seq<Seq<u8>>) -> Seq<int> {
    Seq::new(frames.len(), |i: int| frames[i].len() as int)
}

pub proof fn lemma_joined_total(frames: Seq<Seq<u8>>)
    ensures
        joined(frames).len() == total(lengths(frames)),
    decreases frames.len(),
{
    if frames.len() > 0 {
        lemma_joined_total(frames.drop_last());
        assert(lengths(frames).drop_last() =~= lengths(frames.drop_last()));
    }
}

/// The frames of a packet have the sizes that its layout says.
pub proof fn lemma_layout_lengths(s: Seq<u8>, self_delimited: bool, l: Layout)
    requires
        layout(s, self_delimited) == Some(l),
    ensures
        lengths(l.frames(s)) == l.sizes,
        frames_ok(l.frames(s)),
        joined(l.frames(s)).len() == total(l.sizes),
{
    lemma_layout(s, self_delimited);
    assert forall|i: int| 0 <= i < l.sizes.len() implies lengths(l.frames(s))[i] == l.sizes[i] by {
        l.lemma_frame(s, self_delimited, i);
    }
    assert(lengths(l.frames(s)) =~= l.sizes);
    lemma_joined_total(l.frames(s));
    assert forall|i: int| 0 <= i < l.frames(s).len() implies (#[trigger] l.frames(s)[i]).len()
        <= MAX_FRAME_BYTES by {
        l.lemma_frame(s, self_delimited, i);
    }
}

/// Reading sizes takes as many bytes as writing them again.
proof fn lemma_read_sizes_len(s: Seq<u8>, n: nat, frames: Seq<Seq<u8>>)
    requires
        read_sizes(s, n) matches Some(x) && x.1.len() <= frames.len() && forall|i: int|
            0 <= i < n ==> (#[trigger] frames[i]).len() == x.1[i],
    ensures
        read_sizes(s, n).unwrap().0 == size_header(frames, n as int).len(),
    decreases n,
{
    lemma_read_sizes(s, n);
    if n > 0 {
        let (used, sizes) = read_sizes(s, (n - 1) as nat).unwrap();
        lemma_read_sizes(s, (n - 1) as nat);
        assert forall|i: int| 0 <= i < n - 1 implies (#[trigger] frames[i]).len() == sizes[i] by {
            assert(read_sizes(s, n).unwrap().1[i] == sizes[i]);
        }
        lemma_read_sizes_len(s, (n - 1) as nat, frames);
        size_read_is_canonical(s.skip(used));
        let (k, size) = read_size(s.skip(used)).unwrap();
        assert(read_sizes(s, n).unwrap().1[n - 1] == size);
        assert(frames[n - 1].len() == size);
    }
}

/// Only the kind of the frames matters, not the form of the packet that they came from.
pub proof fn minimal_by_kind(a: u8, b: u8, frames: Seq<Seq<u8>>, self_delimited: bool)
    requires
        a / 4 == b / 4,
    ensures
        minimal(a, frames, self_delimited) == minimal(b, frames, self_delimited),
{
    reveal(minimal);
    assert(a - a % 4 == b - b % 4);
}

/// A packet gets no longer when its padding is taken away.
#[verifier::rlimit(60)]
pub proof fn minimal_is_shortest(s: Seq<u8>, self_delimited: bool)
    requires
        layout(s, self_delimited) is Some,
    ensures
        ({
            let l = layout(s, self_delimited).unwrap();
            1 <= minimal(s[0], l.frames(s), self_delimited).len() <= l.end() - l.pad
        }),
{
    reveal(layout);
    reveal(minimal);
    let l = layout(s, self_delimited).unwrap();
    let h = read_head(s).unwrap();
    let frames = l.frames(s);
    let end = s.len() - h.pad;
    lemma_head(s);
    lemma_read_padding(s.skip(2));
    lemma_layout(s, self_delimited);
    lemma_layout_lengths(s, self_delimited, l);
    size_read_is_canonical(s.subrange(h.len, end));
    assert forall|i: int| 0 <= i < frames.len() implies (#[trigger] frames[i]).len() == l.sizes[i] by {
        assert(lengths(frames)[i] == l.sizes[i]);
    }
    if self_delimited {
        assert(frames.last().len() == l.sizes.last());
        assert(l.start == h.len + end_size(frames, true).len());
    } else {
        assert(l.start == h.len);
    }
    if !h.vbr {
        assert(same_size(frames));
    }
    if h.count >= 2 && h.vbr {
        reveal_with_fuel(size_header, 2);
        if s[0] % 4 == 2 {
            size_read_is_canonical(s.skip(1));
            assert(frames[0].len() == h.sizes[0]);
            assert(size_header(frames, 1) =~= size_bytes(frames[0].len() as int));
        } else {
            assert(s[0] % 4 == 3);
            let padded = (s[1] as int / 64) % 2 == 1;
            let (n, pad) = if padded {
                read_padding(s.skip(2)).unwrap()
            } else {
                (0int, 0int)
            };
            let t = s.subrange(2 + n, s.len() - pad);
            let (m, sizes) = read_sizes(t, (h.count - 1) as nat).unwrap();
            assert(h.sizes == sizes);
            assert(h.len == 2 + n + m);
            assert forall|i: int| 0 <= i < h.count - 1 implies (#[trigger] frames[i]).len() == sizes[i] by {
                assert(l.sizes[i] == h.sizes[i]);
            }
            lemma_read_sizes(t, (h.count - 1) as nat);
            lemma_read_sizes_len(t, (h.count - 1) as nat, frames);
            assert(size_header(frames, 1) =~= size_bytes(frames[0].len() as int));
        }
    }
}

// ---------------------------------------------------------------------------
// Reading what was written
// ---------------------------------------------------------------------------

/// Each frame stands where the frames before it end.
proof fn lemma_joined_at(frames: Seq<Seq<u8>>, i: int)
    requires
        0 <= i < frames.len(),
    ensures
        0 <= total(lengths(frames).take(i)),
        total(lengths(frames).take(i)) + frames[i].len() <= joined(frames).len(),
        joined(frames).subrange(
            total(lengths(frames).take(i)),
            total(lengths(frames).take(i)) + frames[i].len(),
        ) == frames[i],
    decreases frames.len(),
{
    let rest = frames.drop_last();
    assert(lengths(rest) =~= lengths(frames).drop_last());
    lemma_joined_total(rest);
    if i < frames.len() - 1 {
        lemma_joined_at(rest, i);
        assert(lengths(rest).take(i) =~= lengths(frames).take(i));
        let a = total(lengths(frames).take(i));
        assert(joined(frames).subrange(a, a + frames[i].len()) =~= joined(rest).subrange(
            a,
            a + frames[i].len(),
        ));
    } else {
        assert(lengths(frames).take(i) =~= lengths(rest));
        let a = joined(rest).len() as int;
        assert(joined(frames).subrange(a, a + frames[i].len()) =~= frames[i]);
    }
}

proof fn lemma_read_amount(amount: int, tail: Seq<u8>)
    requires
        amount >= 1,
    ensures
        read_padding(amount_bytes(amount) + tail) == Some(
            (amount_bytes(amount).len() as int, amount - amount_bytes(amount).len()),
        ),
    decreases amount,
{
    reveal(amount_bytes);
    let s = amount_bytes(amount) + tail;
    if amount > 255 {
        lemma_read_amount(amount - 255, tail);
        assert(s.skip(1) =~= amount_bytes(amount - 255) + tail);
    }
}

proof fn lemma_read_size_header(frames: Seq<Seq<u8>>, n: int, tail: Seq<u8>)
    requires
        frames_ok(frames),
        0 <= n <= frames.len(),
    ensures
        read_sizes(size_header(frames, n) + tail, n as nat) == Some(
            (size_header(frames, n).len() as int, lengths(frames).take(n)),
        ),
    decreases n,
{
    let s = size_header(frames, n) + tail;
    if n > 0 {
        let b = size_bytes(frames[n - 1].len() as int);
        let a = size_header(frames, n - 1);
        assert(s =~= a + (b + tail));
        lemma_read_size_header(frames, n - 1, b + tail);
        assert(s.skip(a.len() as int) =~= b + tail);
        assert(frames[n - 1].len() <= MAX_FRAME_BYTES);
        size_round_trip(frames[n - 1].len() as int, tail);
        assert(lengths(frames).take(n) =~= lengths(frames).take(n - 1).push(
            frames[n - 1].len() as int,
        ));
    } else {
        assert(lengths(frames).take(0) =~= Seq::<int>::empty());
    }
}

/// Whether a head announces the given frames.
spec fn announces(h: Head, frames: Seq<Seq<u8>>) -> bool {
    &&& h.count == frames.len()
    &&& h.vbr ==> h.sizes == lengths(frames).drop_last()
    &&& !h.vbr ==> same_size(frames) && h.sizes.len() == 0
}

/// The layout of a packet put together from its parts.
spec fn built_layout(head: Seq<u8>, frames: Seq<Seq<u8>>, self_delimited: bool, pad: int) -> Layout {
    Layout {
        start: (head.len() + end_size(frames, self_delimited).len()) as int,
        sizes: lengths(frames),
        pad,
    }
}

proof fn lemma_build_layout(
    s: Seq<u8>,
    self_delimited: bool,
    h: Head,
    head: Seq<u8>,
    frames: Seq<Seq<u8>>,
    rest: Seq<u8>,
)
    requires
        frames_ok(frames),
        s == head + (end_size(frames, self_delimited) + joined(frames) + rest),
        read_head(s) == Some(h),
        h.len == head.len(),
        0 <= h.pad <= rest.len(),
        announces(h, frames),
        !self_delimited ==> h.pad == rest.len(),
    ensures
        layout(s, self_delimited) == Some(built_layout(head, frames, self_delimited, h.pad)),
{
    reveal(layout);
    let es = end_size(frames, self_delimited);
    let lens = lengths(frames);
    let end = s.len() - h.pad;
    let last = frames.last().len() as int;
    assert(frames.last() == frames[frames.len() - 1]);
    assert(last <= MAX_FRAME_BYTES);
    lemma_joined_total(frames);
    lemma_total_push(lens.drop_last(), last);
    assert(lens.drop_last().push(last) =~= lens);
    if !h.vbr {
        assert(lens =~= same_sizes(frames.len(), frames[0].len() as int));
        lemma_total_constant(frames.len(), frames[0].len() as int);
        assert(last == frames[0].len());
    }
    if self_delimited {
        let x = s.subrange(h.len, end);
        let y = x.skip(es.len() as int);
        assert(x =~= es + y);
        size_round_trip(last, y);
    } else if !h.vbr {
        let n = frames.len() as int;
        let size = frames[0].len() as int;
        assert((n * size) / n == size) by (nonlinear_arith)
            requires
                n >= 1,
        ;
        assert(end - h.len == n * size);
        assert(size * n == n * size) by (nonlinear_arith);
    }
}

/// The frames and the padding of a packet put together from its parts.
proof fn lemma_build(
    s: Seq<u8>,
    self_delimited: bool,
    h: Head,
    head: Seq<u8>,
    frames: Seq<Seq<u8>>,
    padding: Seq<u8>,
    tail: Seq<u8>,
)
    requires
        frames_ok(frames),
        s == head + (end_size(frames, self_delimited) + joined(frames) + (padding + tail)),
        read_head(s) == Some(h),
        h.len == head.len(),
        h.pad == padding.len(),
        announces(h, frames),
        !self_delimited ==> tail.len() == 0,
    ensures
        layout(s, self_delimited) is Some,
        layout(s, self_delimited).unwrap().frames(s) == frames,
        layout(s, self_delimited).unwrap().padding(s) == padding,
        layout(s, self_delimited).unwrap().end() == s.len() - tail.len(),
        layout(s, self_delimited).unwrap().pad == padding.len(),
{
    let es = end_size(frames, self_delimited);
    let lens = lengths(frames);
    lemma_build_layout(s, self_delimited, h, head, frames, padding + tail);
    lemma_joined_total(frames);
    let l = built_layout(head, frames, self_delimited, h.pad);
    assert forall|i: int| 0 <= i < frames.len() implies l.frames(s)[i] == frames[i] by {
        lemma_joined_at(frames, i);
        let a = total(lens.take(i));
        assert(s.subrange(l.offset(i), l.offset(i) + lens[i]) =~= joined(frames).subrange(
            a,
            a + frames[i].len(),
        ));
    }
    assert(l.frames(s) =~= frames);
    assert(l.padding(s) =~= padding);
}

/// The head of a counted number of frames as it is read.
proof fn lemma_read_counted(
    toc: u8,
    frames: Seq<Seq<u8>>,
    announced: Seq<u8>,
    pad: int,
    rest: Seq<u8>,
) -> (h: Head)
    requires
        frames_ok(frames),
        samples_per_frame(toc, 48000) * frames.len() <= 5760,
        0 <= pad <= rest.len(),
        announced == if pad == 0 && announced.len() == 0 {
            Seq::empty()
        } else {
            amount_bytes(pad + announced.len())
        },
    ensures
        read_head(
            counted_bytes(toc, frames, announced.len() > 0) + announced + counted_sizes(frames) + rest,
        ) == Some(h),
        h.len == 2 + announced.len() + counted_sizes(frames).len(),
        h.pad == pad,
        announces(h, frames),
{
    let cs = counted_sizes(frames);
    let s = counted_bytes(toc, frames, announced.len() > 0) + announced + cs + rest;
    let n = frames.len() as int;
    let vbr = !same_size(frames);
    assert(s[0] == form_byte(toc, 3));
    assert(s[0] / 8 == toc / 8);
    assert(samples_per_frame(s[0], 48000) == samples_per_frame(toc, 48000));
    assert(s[1] as int % 64 == n);
    assert((s[1] >= 128) == vbr);
    assert(((s[1] as int / 64) % 2 == 1) == (announced.len() > 0));
    assert(samples_per_frame(s[0], 48000) * n <= 5760);
    if pad + announced.len() >= 1 {
        lemma_amount_len(pad + announced.len());
    }
    if announced.len() > 0 {
        lemma_read_amount(pad + announced.len(), cs + rest);
        assert(s.skip(2) =~= announced + (cs + rest));
    }
    if vbr {
        let t = s.subrange(2int + announced.len(), s.len() - pad);
        let u = rest.take(rest.len() - pad);
        assert(t =~= cs + u);
        lemma_read_size_header(frames, n - 1, u);
        assert(lengths(frames).take(n - 1) =~= lengths(frames).drop_last());
    }
    let h = Head {
        len: 2int + announced.len() + cs.len(),
        count: n,
        vbr,
        sizes: if vbr {
            lengths(frames).drop_last()
        } else {
            Seq::empty()
        },
        pad,
    };
    assert(counted_head(s) == Some(h));
    h
}

/// The head of one or two frames as it is read.
proof fn lemma_read_compact(toc: u8, frames: Seq<Seq<u8>>, rest: Seq<u8>) -> (h: Head)
    requires
        frames_ok(frames),
        frames.len() <= 2,
    ensures
        read_head(compact_head(toc, frames) + rest) == Some(h),
        h.len == compact_head(toc, frames).len(),
        h.pad == 0,
        announces(h, frames),
{
    let head = compact_head(toc, frames);
    let s = head + rest;
    assert(s[0] == head[0]);
    if frames.len() == 2 && !same_size(frames) {
        let size = frames[0].len() as int;
        assert(size <= MAX_FRAME_BYTES);
        assert(s.skip(1) =~= size_bytes(size) + rest);
        size_round_trip(size, rest);
        assert(lengths(frames).drop_last() =~= seq![size]);
    } else if frames.len() == 1 {
        assert(lengths(frames).drop_last() =~= Seq::<int>::empty());
    }
    read_head(s).unwrap()
}

/// What the padding of a packet holds that was written with the given extensions.
pub open spec fn carries(padding: Seq<u8>, exts: Seq<Item>, count: int) -> bool {
    if exts.len() == 0 {
        forall|i: int| 0 <= i < padding.len() ==> #[trigger] padding[i] == 0
    } else {
        &&& extensions_valid(padding, count)
        &&& forall|f: int|
            0 <= f < count ==> #[trigger] exts_of_frame(extensions_in(padding, count), f) == of_frame(
                exts,
                f,
            ).map_values(|e: Item| ext_of(e))
    }
}

/// What was written splits into the given parts.
spec fn splits(
    s: Seq<u8>,
    len: int,
    frames: Seq<Seq<u8>>,
    self_delimited: bool,
    exts: Seq<Item>,
) -> bool {
    &&& layout(s, self_delimited) matches Some(l)
    &&& l.frames(s) == frames
    &&& l.end() == len
    &&& carries(l.padding(s), exts, frames.len() as int)
}

proof fn lemma_finished_splits(
    toc: u8,
    frames: Seq<Seq<u8>>,
    exts: Seq<Item>,
    ext_bytes: Seq<u8>,
    maxlen: int,
    self_delimited: bool,
    pad: bool,
    tail: Seq<u8>,
)
    requires
        frames_ok(frames),
        samples_per_frame(toc, 48000) * frames.len() <= 5760,
        !self_delimited ==> tail.len() == 0,
        maxlen <= i32::MAX,
        counted_len(frames, self_delimited) <= maxlen,
        (ext_bytes.len() as int, ext_bytes) == if exts.len() > 0 {
            generated(exts, frames.len() as int, maxlen - counted_len(frames, self_delimited), false)
        } else {
            (0, Seq::empty())
        },
        finished_packet(
            toc,
            frames,
            exts.len() as int,
            ext_bytes,
            maxlen,
            self_delimited,
            pad,
        ).0 >= 0,
    ensures
        ({
            let w = finished_packet(
                toc,
                frames,
                exts.len() as int,
                ext_bytes,
                maxlen,
                self_delimited,
                pad,
            ).1;
            &&& splits(w + tail, w.len() as int, frames, self_delimited, exts)
            &&& w[0] == form_byte(toc, 3)
        }),
{
    let n = frames.len() as int;
    let len = counted_len(frames, self_delimited);
    let w = finished_packet(
        toc,
        frames,
        exts.len() as int,
        ext_bytes,
        maxlen,
        self_delimited,
        pad,
    ).1;
    let s = w + tail;
    let ext_len = ext_bytes.len() as int;
    let amount = pad_amount(exts.len() as int, ext_len, maxlen - len, pad);
    let es = end_size(frames, self_delimited);
    let cs = counted_sizes(frames);
    if exts.len() > 0 {
        generated_fits(exts, n, maxlen - len, false);
    }
    if amount == 0 {
        lemma_unpadded_splits(toc, frames, self_delimited, tail);
        assert(w == counted_bytes(toc, frames, false) + (cs + es + joined(frames)));
        if exts.len() > 0 {
            assert(Seq::<u8>::empty() =~= fill_bytes(0, true) + ext_bytes);
            lemma_carries(exts, n, maxlen - len, Seq::empty(), 0, ext_bytes);
        }
    } else {
        lemma_amount(ext_len);
        lemma_amount_len(amount);
        let fill = amount - ext_len - amount_bytes(amount).len();
        let padding = fill_bytes(fill, exts.len() > 0) + ext_bytes;
        lemma_padded_splits(toc, frames, self_delimited, amount, padding, tail);
        let front = counted_bytes(toc, frames, true) + amount_bytes(amount) + (cs + es + joined(
            frames,
        ));
        lemma_assoc(front, fill_bytes(fill, exts.len() > 0), ext_bytes);
        assert(w == front + padding);
        if exts.len() > 0 {
            lemma_carries(exts, n, maxlen - len, padding, fill, ext_bytes);
        }
    }
}

proof fn lemma_assoc(a: Seq<u8>, b: Seq<u8>, c: Seq<u8>)
    ensures
        a + b + c == a + (b + c),
{
    assert(a + b + c =~= a + (b + c));
}

/// A counted number of frames without padding.
proof fn lemma_unpadded_splits(toc: u8, frames: Seq<Seq<u8>>, self_delimited: bool, tail: Seq<u8>)
    requires
        frames_ok(frames),
        samples_per_frame(toc, 48000) * frames.len() <= 5760,
        !self_delimited ==> tail.len() == 0,
    ensures
        ({
            let w = counted_bytes(toc, frames, false) + (counted_sizes(frames) + end_size(
                frames,
                self_delimited,
            ) + joined(frames));
            let s = w + tail;
            &&& layout(s, self_delimited) matches Some(l)
            &&& l.frames(s) == frames
            &&& l.end() == w.len()
            &&& l.padding(s) == Seq::<u8>::empty()
        }),
{
    let es = end_size(frames, self_delimited);
    let cs = counted_sizes(frames);
    let w = counted_bytes(toc, frames, false) + (cs + es + joined(frames));
    let s = w + tail;
    let rest = es + joined(frames) + (Seq::<u8>::empty() + tail);
    let head = counted_bytes(toc, frames, false) + cs;
    assert(head =~= counted_bytes(toc, frames, false) + Seq::<u8>::empty() + cs);
    assert(s =~= head + rest);
    let h = lemma_read_counted(toc, frames, Seq::empty(), 0, rest);
    lemma_build(s, self_delimited, h, head, frames, Seq::empty(), tail);
}

/// A counted number of frames with padding.
proof fn lemma_padded_splits(
    toc: u8,
    frames: Seq<Seq<u8>>,
    self_delimited: bool,
    amount: int,
    padding: Seq<u8>,
    tail: Seq<u8>,
)
    requires
        frames_ok(frames),
        samples_per_frame(toc, 48000) * frames.len() <= 5760,
        !self_delimited ==> tail.len() == 0,
        amount >= 1,
        amount == padding.len() + amount_bytes(amount).len(),
    ensures
        ({
            let w = counted_bytes(toc, frames, true) + amount_bytes(amount) + (counted_sizes(frames)
                + end_size(frames, self_delimited) + joined(frames)) + padding;
            let s = w + tail;
            &&& layout(s, self_delimited) matches Some(l)
            &&& l.frames(s) == frames
            &&& l.end() == w.len()
            &&& l.padding(s) == padding
        }),
{
    let es = end_size(frames, self_delimited);
    let cs = counted_sizes(frames);
    let announced = amount_bytes(amount);
    lemma_amount_len(amount);
    let w = counted_bytes(toc, frames, true) + announced + (cs + es + joined(frames)) + padding;
    let s = w + tail;
    let rest = es + joined(frames) + (padding + tail);
    let head = counted_bytes(toc, frames, true) + announced + cs;
    assert(s =~= head + rest);
    let h = lemma_read_counted(toc, frames, announced, padding.len() as int, rest);
    lemma_build(s, self_delimited, h, head, frames, padding, tail);
}

/// Ones and then extensions hold just these extensions.
proof fn lemma_carries(
    exts: Seq<Item>,
    count: int,
    room: int,
    padding: Seq<u8>,
    fill: int,
    ext_bytes: Seq<u8>,
)
    requires
        exts.len() > 0,
        0 <= count <= MAX_FRAMES,
        0 <= fill,
        0 <= room,
        generated(exts, count, room, false) == (ext_bytes.len() as int, ext_bytes),
        padding == fill_bytes(fill, true) + ext_bytes,
        padding.len() <= i32::MAX,
    ensures
        carries(padding, exts, count),
{
    let len = padding.len() as int;
    generated_exact(exts, count, room, len);
    assert(generated(exts, count, len, false) == (ext_bytes.len() as int, ext_bytes));
    assert(generated(exts, count, len, true).1 =~= padding);
    assert(in_range(exts, count));
    assert(count > 0) by {
        assert(0 <= exts[0].frame < count);
    }
    extensions_round_trip(exts, count, len, true, 0);
    assert forall|f: int| 0 <= f < count implies #[trigger] exts_of_frame(
        extensions_in(padding, count),
        f,
    ) == of_frame(exts, f).map_values(|e: Item| ext_of(e)) by {
        extensions_round_trip(exts, count, len, true, f);
    }
}

/// What is written as a packet splits into the frames that went in, and its padding
/// holds the extensions that went in, each in its frame: self-delimited or not, with
/// padding or without. More bytes may follow a self-delimited packet.
pub proof fn packed_round_trip(
    toc: u8,
    frames: Seq<Seq<u8>>,
    exts: Seq<Item>,
    maxlen: int,
    self_delimited: bool,
    pad: bool,
    tail: Seq<u8>,
)
    requires
        frames_ok(frames),
        samples_per_frame(toc, 48000) * frames.len() <= 5760,
        !self_delimited ==> tail.len() == 0,
        maxlen <= i32::MAX,
        packed(toc, frames, exts, maxlen, self_delimited, pad).0 >= 0,
    ensures
        ({
            let w = packed(toc, frames, exts, maxlen, self_delimited, pad).1;
            &&& w[0] / 4 == toc / 4
            &&& layout(w + tail, self_delimited) matches Some(l)
            &&& l.frames(w + tail) == frames
            &&& l.end() == w.len()
            &&& carries(l.padding(w + tail), exts, frames.len() as int)
        }),
{
    reveal(packed);
    let (r, w) = packed(toc, frames, exts, maxlen, self_delimited, pad);
    let s = w + tail;
    let head = compact_head(toc, frames);
    let es = end_size(frames, self_delimited);
    let bytes = head + es + joined(frames);
    let len = counted_len(frames, self_delimited);
    lemma_counted_fits(toc, frames, exts, maxlen, self_delimited, pad);
    if frames.len() <= 2 && exts.len() == 0 && !(pad && bytes.len() < maxlen) {
        let rest = es + joined(frames) + (Seq::<u8>::empty() + tail);
        assert(s =~= head + rest);
        let h = lemma_read_compact(toc, frames, rest);
        lemma_build(s, self_delimited, h, head, frames, Seq::empty(), tail);
        assert(w[0] == head[0]);
    } else {
        let x = counted_packet(toc, frames, exts, maxlen, self_delimited, pad);
        assert(x.0 == r);
        assert(w == x.1);
        if exts.len() > 0 {
            generated_fits(exts, frames.len() as int, maxlen - len, false);
            let e = generated(exts, frames.len() as int, maxlen - len, false).1;
            lemma_finished_splits(toc, frames, exts, e, maxlen, self_delimited, pad, tail);
        } else {
            lemma_finished_splits(
                toc,
                frames,
                exts,
                Seq::empty(),
                maxlen,
                self_delimited,
                pad,
                tail,
            );
        }
    }
}

/// Frames can be filled up to any length beyond the one they have without padding.
pub proof fn packed_pads(toc: u8, frames: Seq<Seq<u8>>, maxlen: int)
    requires
        frames_ok(frames),
        minimal(toc, frames, false).len() < maxlen,
    ensures
        packed(toc, frames, Seq::empty(), maxlen, false, true).0 == maxlen,
{
    reveal(packed);
    reveal(minimal);
    let len = counted_len(frames, false);
    reveal_with_fuel(size_header, 2);
    if frames.len() == 2 && !same_size(frames) {
        assert(size_header(frames, 1) =~= size_bytes(frames[0].len() as int));
    }
    if frames.len() == 1 {
        assert(same_size(frames));
    }
    assert(len <= maxlen);
    if len < maxlen {
        lemma_amount_len(maxlen - len);
    }
}

} // verus!
