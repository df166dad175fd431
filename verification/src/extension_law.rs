//! What is written as extensions reads back as the same extensions.

use vstd::prelude::*;
use crate::codes::MAX_FRAMES;
use crate::extension_gen::{
    alike, by_frame, extension_chunks, frame_after, frame_chunks, frame_plan, generated,
    generated_fits, id_byte, in_range, lacing_bytes, last_long, lemma_list_split,
    lemma_payload_split, list_chunks, of_frame, payload, payload_chunk, payload_chunks, plan,
    plan_from, repeat_chunk, repeat_chunks, repeat_end, repeatable, repeated_chunks, run_from,
    separator_chunk, Chunk, FramePlan, Progress,
};
use crate::extension_iter::{extension_at, payload_at, read_lacing, Cursor, Ext, Item, Step};
use crate::extensions::{extensions_in, extensions_valid};

verus! {

/// Whether an extension can be written.
pub open spec fn valid_ext(e: Item) -> bool {
    &&& 3 <= e.id <= 127
    &&& 0 <= e.len
    &&& e.id < 32 ==> e.len <= 1
}

/// The extension as a value.
pub open spec fn ext_of(e: Item) -> Ext {
    Ext { id: e.id as int, frame: e.frame as int, data: payload(e) }
}

// ---------------------------------------------------------------------------
// Bytes of pieces
// ---------------------------------------------------------------------------

/// All the bytes of the pieces.
spec fn concat(chunks: Seq<Chunk>) -> Seq<u8>
    decreases chunks.len(),
{
    if chunks.len() == 0 {
        Seq::empty()
    } else {
        concat(chunks.drop_last()) + chunks.last().bytes
    }
}

proof fn lemma_concat(a: Seq<Chunk>, b: Seq<Chunk>)
    ensures
        concat(a + b) == concat(a) + concat(b),
    decreases b.len(),
{
    if b.len() == 0 {
        assert(a + b =~= a);
        assert(concat(a) + concat(b) =~= concat(a));
    } else {
        lemma_concat(a, b.drop_last());
        assert((a + b).drop_last() =~= a + b.drop_last());
        assert(concat(a + b) =~= concat(a) + concat(b));
    }
}

proof fn lemma_concat_one(c: Chunk)
    ensures
        concat(seq![c]) == c.bytes,
{
    reveal_with_fuel(concat, 2);
    assert(seq![c].drop_last() =~= Seq::<Chunk>::empty());
    assert(concat(seq![c]) =~= c.bytes);
}

/// A run that succeeds has written the bytes of all the pieces.
proof fn lemma_run_concat_bytes(done: Seq<u8>, chunks: Seq<Chunk>, room: int)
    ensures
        run_from(done, chunks, room).0 >= 0 ==> run_from(done, chunks, room).1 == done + concat(chunks),
    decreases chunks.len(),
{
    if chunks.len() == 0 {
        assert(done + concat(chunks) =~= done);
    } else {
        let c = chunks[0];
        lemma_run_concat_bytes(done + c.bytes, chunks.skip(1), room);
        assert(chunks =~= seq![c] + chunks.skip(1));
        lemma_concat(seq![c], chunks.skip(1));
        lemma_concat_one(c);
        assert((done + c.bytes) + concat(chunks.skip(1)) =~= done + concat(chunks));
    }
}

/// The bytes of an extension.
spec fn ext_bytes(e: Item, last: bool) -> Seq<u8> {
    seq![id_byte(e, last)] + payload_chunk(e, last).bytes
}

proof fn lemma_concat_ext(e: Item, last: bool)
    ensures
        concat(extension_chunks(e, last)) == ext_bytes(e, last),
{
    let c = extension_chunks(e, last);
    assert(c.drop_last() =~= seq![c[0]]);
    lemma_concat_one(c[0]);
    assert(concat(c) =~= ext_bytes(e, last));
}

// ---------------------------------------------------------------------------
// Reading a payload
// ---------------------------------------------------------------------------

proof fn lemma_lacing(len: int, tail: Seq<u8>)
    requires
        0 <= len,
    ensures
        read_lacing(lacing_bytes(len) + tail) == Some((lacing_bytes(len).len() as int, len)),
    decreases len,
{
    let s = lacing_bytes(len) + tail;
    if len >= 255 {
        lemma_lacing(len - 255, tail);
        assert(s.skip(1) =~= lacing_bytes(len - 255) + tail);
    }
}

/// The flag in the identifier byte of an extension.
spec fn flag_of(e: Item, last: bool) -> int {
    if e.id < 32 {
        e.len as int
    } else if last {
        0
    } else {
        1
    }
}

/// Reading the payload of an extension, by the identifier byte of one like it.
proof fn lemma_payload(e: Item, last: bool, byte: u8, trailing: int, tail: Seq<u8>)
    requires
        valid_ext(e),
        byte as int / 2 == e.id,
        byte as int % 2 == flag_of(e, last),
        last && e.id >= 32 ==> tail.len() == trailing,
    ensures
        ({
            let s = payload_chunk(e, last).bytes + tail;
            let h = payload_chunk(e, last).bytes.len() - e.len;
            &&& payload_at(s, byte, trailing) == Some((h, e.len as int))
            &&& s.subrange(h, h + e.len) == payload(e)
            &&& 0 <= h
        }),
{
    let bytes = payload_chunk(e, last).bytes;
    let s = bytes + tail;
    if e.id >= 32 && !last {
        lemma_lacing(e.len as int, payload(e) + tail);
        assert(s =~= lacing_bytes(e.len as int) + (payload(e) + tail));
        assert(s.subrange(lacing_bytes(e.len as int).len() as int, bytes.len() as int) =~= payload(e));
    } else {
        assert(s.subrange(0, e.len as int) =~= payload(e));
    }
}

/// Reading a whole extension.
proof fn lemma_extension(e: Item, last: bool, tail: Seq<u8>)
    requires
        valid_ext(e),
        last && e.id >= 32 ==> tail.len() == 0,
    ensures
        ({
            let s = ext_bytes(e, last) + tail;
            let h = ext_bytes(e, last).len() - e.len;
            &&& extension_at(s) == Some((h, e.len as int))
            &&& s.subrange(h, h + e.len) == payload(e)
            &&& 1 <= h
            &&& s[0] as int / 2 == e.id
            &&& s[0] as int % 2 == flag_of(e, last)
        }),
{
    let s = ext_bytes(e, last) + tail;
    let rest = payload_chunk(e, last).bytes + tail;
    let byte = id_byte(e, last);
    assert(s.skip(1) =~= rest);
    lemma_payload(e, last, byte, 0, tail);
    let h = payload_chunk(e, last).bytes.len() - e.len;
    assert(s.subrange(h + 1, h + 1 + e.len) =~= rest.subrange(h, h + e.len));
}

// ---------------------------------------------------------------------------
// Steps of a reader
// ---------------------------------------------------------------------------

/// A reader between extensions, outside a repeat and below its frame limit.
spec fn between(c: Cursor) -> bool {
    &&& c.ok()
    &&& c.left >= 0
    &&& c.repeat_frame == 0
    &&& c.frame < c.frame_max
    &&& c.frame_max == c.nb_frames
}

/// The state behind an extension.
spec fn after_ext(c: Cursor, e: Item, last: bool) -> Cursor {
    let n = ext_bytes(e, last).len();
    Cursor {
        pos: c.pos + n,
        left: c.left - n,
        last_long: if e.id >= 32 {
            Some(c.pos + n)
        } else {
            c.last_long
        },
        trailing: if e.id >= 32 {
            0
        } else {
            c.trailing + e.len
        },
        ..c
    }
}

/// Reading an extension.
proof fn lemma_read_ext(c: Cursor, e: Item, last: bool, tail: Seq<u8>)
    requires
        between(c),
        valid_ext(e),
        e.frame == c.frame,
        c.tail() == ext_bytes(e, last) + tail,
        last && e.id >= 32 ==> tail.len() == 0,
    ensures
        between(after_ext(c, e, last)),
        after_ext(c, e, last).tail() == tail,
        c.next() == (Step::Found(ext_of(e)), after_ext(c, e, last)),
        c.rest() == seq![ext_of(e)] + after_ext(c, e, last).rest(),
        c.ends_well() == after_ext(c, e, last).ends_well(),
{
    lemma_extension(e, last, tail);
    let d = after_ext(c, e, last);
    assert(c.tail().len() == c.left);
    assert(d.tail() =~= tail) by {
        assert forall|i: int| 0 <= i < tail.len() implies d.tail()[i] == tail[i] by {
            assert(c.tail()[ext_bytes(e, last).len() + i] == tail[i]);
        }
    }
    assert(c.scan() == (Step::Found(ext_of(e)), d));
}

/// Reading the step to another frame.
proof fn lemma_read_separator(c: Cursor, frame: int, tail: Seq<u8>) -> (d: Cursor)
    requires
        between(c),
        c.frame < frame < c.nb_frames,
        c.tail() == separator_chunk(frame - c.frame).bytes + tail,
    ensures
        between(d),
        d.bytes == c.bytes,
        d.nb_frames == c.nb_frames,
        d.frame == frame,
        d.pos + d.left == c.pos + c.left,
        d.tail() == tail,
        d.repeat_pos == d.pos,
        d.last_long is None,
        c.rest() == d.rest(),
        c.ends_well() == d.ends_well(),
{
    let n = separator_chunk(frame - c.frame).bytes.len();
    let d = Cursor {
        frame,
        pos: c.pos + n,
        left: c.left - n,
        repeat_pos: c.pos + n,
        last_long: None,
        trailing: 0,
        ..c
    };
    assert(c.tail().len() == c.left);
    assert(d.tail() =~= tail) by {
        assert forall|i: int| 0 <= i < tail.len() implies d.tail()[i] == tail[i] by {
            assert(c.tail()[n + i] == tail[i]);
        }
    }
    let s = c.tail();
    assert(extension_at(s) == Some((1int, n - 1)));
    assert(c.scan() == d.scan());
    assert(c.next() == d.next());
    d
}

/// Reading a byte of padding.
proof fn lemma_read_padding_byte(c: Cursor, tail: Seq<u8>)
    requires
        between(c),
        c.tail() == seq![1u8] + tail,
    ensures
        ({
            let d = Cursor { pos: c.pos + 1, left: c.left - 1, ..c };
            &&& between(d)
            &&& d.tail() == tail
            &&& c.rest() == d.rest()
            &&& c.ends_well() == d.ends_well()
        }),
{
    let d = Cursor { pos: c.pos + 1, left: c.left - 1, ..c };
    assert(c.tail().len() == c.left);
    assert(d.tail() =~= tail) by {
        assert forall|i: int| 0 <= i < tail.len() implies d.tail()[i] == tail[i] by {
            assert(c.tail()[1 + i] == tail[i]);
        }
    }
    assert(c.tail()[0] == 1u8);
    assert(extension_at(c.tail()) == Some((1int, 0int)));
    assert(c.scan() == d.scan());
    assert(c.next() == d.next());
}

// ---------------------------------------------------------------------------
// Reading a list
// ---------------------------------------------------------------------------

/// The bytes of the extensions of `l` from `from` up to `to`.
spec fn list_bytes(l: Seq<Item>, from: int, to: int, last_at: int) -> Seq<u8> {
    concat(list_chunks(l, from, to, last_at))
}

/// The bytes of their payloads alone.
spec fn payload_bytes(l: Seq<Item>, from: int, to: int, last_at: int) -> Seq<u8> {
    concat(payload_chunks(l, from, to, last_at))
}

proof fn lemma_list_front(l: Seq<Item>, from: int, to: int, last_at: int)
    requires
        from < to,
    ensures
        list_bytes(l, from, to, last_at) == ext_bytes(l[from], from == last_at) + list_bytes(
            l,
            from + 1,
            to,
            last_at,
        ),
{
    lemma_list_split(l, from, from + 1, to, last_at);
    lemma_concat(list_chunks(l, from, from + 1, last_at), list_chunks(l, from + 1, to, last_at));
    reveal_with_fuel(list_chunks, 2);
    assert(list_chunks(l, from, from + 1, last_at) =~= extension_chunks(l[from], from == last_at));
    lemma_concat_ext(l[from], from == last_at);
}

proof fn lemma_list_back(l: Seq<Item>, from: int, mid: int, to: int, last_at: int)
    requires
        from <= mid <= to,
    ensures
        list_bytes(l, from, to, last_at) == list_bytes(l, from, mid, last_at) + list_bytes(
            l,
            mid,
            to,
            last_at,
        ),
{
    lemma_list_split(l, from, mid, to, last_at);
    lemma_concat(list_chunks(l, from, mid, last_at), list_chunks(l, mid, to, last_at));
}

proof fn lemma_payload_front(l: Seq<Item>, from: int, to: int, last_at: int)
    requires
        from < to,
    ensures
        payload_bytes(l, from, to, last_at) == payload_chunk(l[from], from == last_at).bytes
            + payload_bytes(l, from + 1, to, last_at),
{
    lemma_payload_split(l, from, from + 1, to, last_at);
    lemma_concat(payload_chunks(l, from, from + 1, last_at), payload_chunks(l, from + 1, to, last_at));
    reveal_with_fuel(payload_chunks, 2);
    let c = payload_chunk(l[from], from == last_at);
    assert(payload_chunks(l, from, from + 1, last_at) =~= seq![c]);
    lemma_concat_one(c);
}

/// The values of the extensions of `l` from `from` up to `to`.
spec fn values(l: Seq<Item>, from: int, to: int) -> Seq<Ext> {
    Seq::new((to - from) as nat, |i: int| ext_of(l[from + i]))
}

/// The sum of the payload lengths of `l` from `from` up to `to`.
spec fn short_len(l: Seq<Item>, from: int, to: int) -> int
    decreases to - from,
{
    if from >= to {
        0
    } else {
        short_len(l, from, to - 1) + l[to - 1].len
    }
}

/// Whether the extensions of `l` from `from` up to `to` can be written to `frame`.
spec fn list_ok(l: Seq<Item>, from: int, to: int, frame: int) -> bool {
    &&& 0 <= from <= to <= l.len()
    &&& forall|i: int| from <= i < to ==> valid_ext(#[trigger] l[i]) && l[i].frame == frame
}

/// Where a reader is told that the last long extension ended.
spec fn long_mark(l: Seq<Item>, from: int, to: int, base: int) -> Option<int> {
    let long = last_long(l, from, to);
    if long >= 0 {
        Some(base + list_bytes(l, from, long + 1, -1).len())
    } else {
        None
    }
}

proof fn lemma_last_long(l: Seq<Item>, from: int, to: int)
    requires
        0 <= from <= to,
    ensures
        last_long(l, from, to) < 0 ==> last_long(l, from, to) == -1,
        last_long(l, from, to) >= 0 ==> {
            &&& from <= last_long(l, from, to) < to
            &&& l[last_long(l, from, to)].id >= 32
        },
        forall|i: int| from <= i < to && i > last_long(l, from, to) ==> (#[trigger] l[i]).id < 32,
    decreases to - from,
{
    if from < to {
        lemma_last_long(l, from, to - 1);
    }
}

/// Reading a list of extensions none of which is the last of all: a repeat could
/// follow.
proof fn lemma_read_list(
    c: Cursor,
    l: Seq<Item>,
    from: int,
    to: int,
    tail: Seq<u8>,
) -> (d: Cursor)
    requires
        between(c),
        list_ok(l, from, to, c.frame),
        c.last_long is None,
        c.tail() == list_bytes(l, from, to, -1) + tail,
    ensures
        between(d),
        d == (Cursor {
            pos: c.pos + list_bytes(l, from, to, -1).len(),
            left: c.left - list_bytes(l, from, to, -1).len(),
            last_long: long_mark(l, from, to, c.pos),
            trailing: d.trailing,
            ..c
        }),
        last_long(l, from, to) >= 0 ==> d.trailing == short_len(l, last_long(l, from, to) + 1, to),
        d.tail() == tail,
        c.rest() == values(l, from, to) + d.rest(),
        c.ends_well() == d.ends_well(),
    decreases to - from,
{
    if from >= to {
        assert(c.tail() =~= tail);
        assert(values(l, from, to) + c.rest() =~= c.rest());
        c
    } else {
        let e = l[to - 1];
        let ebytes = ext_bytes(e, false);
        lemma_list_back(l, from, to - 1, to, -1);
        lemma_list_front(l, to - 1, to, -1);
        assert(list_bytes(l, to, to, -1) =~= Seq::<u8>::empty());
        assert(list_bytes(l, to - 1, to, -1) =~= ebytes);
        assert(c.tail() =~= list_bytes(l, from, to - 1, -1) + (ebytes + tail));
        let d = lemma_read_list(c, l, from, to - 1, ebytes + tail);
        lemma_read_ext(d, e, false, tail);
        let r = after_ext(d, e, false);
        assert(values(l, from, to) + r.rest() =~= values(l, from, to - 1) + (seq![ext_of(e)] + r.rest()));
        lemma_last_long(l, from, to - 1);
        if e.id < 32 && last_long(l, from, to) >= 0 {
            assert(short_len(l, last_long(l, from, to) + 1, to) == short_len(
                l,
                last_long(l, from, to) + 1,
                to - 1,
            ) + e.len);
        }
        r
    }
}

/// Reading the rest of a list, of which number `last_at` is the last extension of all.
proof fn lemma_read_rest(
    c: Cursor,
    l: Seq<Item>,
    from: int,
    to: int,
    last_at: int,
    tail: Seq<u8>,
) -> (d: Cursor)
    requires
        between(c),
        list_ok(l, from, to, c.frame),
        from <= last_at < to ==> last_at == to - 1 && tail.len() == 0,
        c.tail() == list_bytes(l, from, to, last_at) + tail,
    ensures
        between(d),
        d.bytes == c.bytes,
        d.nb_frames == c.nb_frames,
        d.frame == c.frame,
        d.tail() == tail,
        c.rest() == values(l, from, to) + d.rest(),
        c.ends_well() == d.ends_well(),
    decreases to - from,
{
    if from >= to {
        assert(c.tail() =~= tail);
        assert(values(l, from, to) + c.rest() =~= c.rest());
        c
    } else {
        let e = l[from];
        lemma_list_front(l, from, to, last_at);
        let rest = list_bytes(l, from + 1, to, last_at) + tail;
        assert(c.tail() =~= ext_bytes(e, from == last_at) + rest);
        lemma_read_ext(c, e, from == last_at, rest);
        let m = after_ext(c, e, from == last_at);
        let d = lemma_read_rest(m, l, from + 1, to, last_at, tail);
        assert(values(l, from, to) + d.rest() =~= seq![ext_of(e)] + (values(l, from + 1, to) + d.rest()));
        d
    }
}

// ---------------------------------------------------------------------------
// Reading a repeat
// ---------------------------------------------------------------------------

/// The values of the extensions of frame `g` from `k` up to `to`, and of all later
/// frames from `from` up to `to`.
spec fn later_values(
    p: Seq<Seq<Item>>,
    g: int,
    from: int,
    to: int,
    k: int,
) -> Seq<Ext>
    decreases p.len() - g,
{
    if g >= p.len() {
        Seq::empty()
    } else {
        values(p[g], k, to) + later_values(p, g + 1, from, to, from)
    }
}

/// A repeat of extensions `from` up to `x.end` of frame `f`. Their bytes stand at
/// `base`, and `rest` follows the payloads that are repeated.
ghost struct Repeat {
    p: Seq<Seq<Item>>,
    f: int,
    from: int,
    x: FramePlan,
    base: int,
    rest: Seq<u8>,
}

impl Repeat {
    spec fn ok(self) -> bool {
        &&& 0 <= self.f
        &&& self.f + 1 < self.p.len()
        &&& 0 <= self.from < self.x.end <= self.p[self.f].len()
        &&& forall|g: int|
            self.f <= g < self.p.len() ==> list_ok(#[trigger] self.p[g], self.from, self.x.end, g)
        &&& forall|g: int, k: int|
            self.f < g < self.p.len() && self.from <= k < self.x.end ==> alike(
                #[trigger] self.p[g][k],
                self.p[self.f][k],
            )
        &&& self.x.long == last_long(self.p[self.f], self.from, self.x.end)
        &&& self.x.last && self.x.long >= 0 ==> self.rest.len() == 0
        &&& 0 <= self.base
    }

    /// The extension of frame `g` whose payload is written without a length.
    spec fn last_at(self, g: int) -> int {
        if g + 1 == self.p.len() && self.x.last {
            self.x.long
        } else {
            -1
        }
    }

    /// The extensions that are repeated, as bytes, from `k` up to `m`.
    spec fn source(self, k: int, m: int) -> Seq<u8> {
        list_bytes(self.p[self.f], k, m, -1)
    }

    /// The payloads of frame `g` and of the later ones, and what follows.
    spec fn payloads_from(self, g: int) -> Seq<u8>
        decreases self.p.len() - g,
    {
        if g >= self.p.len() {
            self.rest
        } else {
            payload_bytes(self.p[g], self.from, self.x.end, self.last_at(g)) + self.payloads_from(g + 1)
        }
    }

    /// What is yet to be read in frame `g` from extension `k` on, and what follows.
    spec fn ahead(self, g: int, k: int) -> Seq<u8> {
        if g >= self.p.len() {
            self.rest
        } else {
            payload_bytes(self.p[g], k, self.x.end, self.last_at(g)) + self.payloads_from(g + 1)
        }
    }

    /// The extensions that are yet to come in frame `g` from `k` on, and in the
    /// later frames.
    spec fn values_from(self, g: int, k: int) -> Seq<Ext> {
        later_values(self.p, g, self.from, self.x.end, k)
    }

    /// The state of a reader at the repeated extensions as a whole.
    spec fn region(self, d: Cursor) -> bool {
        &&& d.ok()
        &&& d.left >= 0
        &&& d.nb_frames == self.p.len()
        &&& d.frame_max == d.nb_frames
        &&& d.frame == self.f
        &&& d.repeat_flag == if self.x.last {
            0int
        } else {
            1
        }
        &&& d.repeat_pos <= self.base
        &&& forall|i: int| d.repeat_pos <= i < self.base ==> #[trigger] d.bytes[i] == 1
        &&& d.repeat_pos + d.repeat_len == self.base + self.source(self.from, self.x.end).len()
        &&& self.base + self.source(self.from, self.x.end).len() <= d.bytes.len()
        &&& d.bytes.subrange(
            self.base,
            self.base + self.source(self.from, self.x.end).len(),
        ) == self.source(self.from, self.x.end)
        &&& d.last_long == long_mark(self.p[self.f], self.from, self.x.end, self.base)
        &&& self.x.long >= 0 ==> d.trailing == short_len(self.p[self.f], self.x.long + 1, self.x.end)
    }

    /// The state of a reader in front of extension `k` of frame `g`.
    spec fn at(self, d: Cursor, g: int, k: int) -> bool {
        &&& self.region(d)
        &&& d.repeat_frame == g
        &&& self.f < g <= self.p.len()
        &&& self.from <= k <= self.x.end
        &&& g < self.p.len() ==> {
            &&& d.src_pos == self.base + self.source(self.from, k).len()
            &&& d.src_len == self.source(k, self.x.end).len()
        }
        &&& d.tail() == self.ahead(g, k)
    }

    /// The bytes from extension `k` on.
    proof fn lemma_source(self, d: Cursor, g: int, k: int)
        requires
            self.ok(),
            self.at(d, g, k),
            g < self.p.len(),
        ensures
            d.source() == self.source(k, self.x.end),
    {
        lemma_list_back(self.p[self.f], self.from, k, self.x.end, -1);
        let all = self.source(self.from, self.x.end);
        let n = self.source(self.from, k).len();
        assert forall|i: int| 0 <= i < d.src_len implies d.source()[i] == self.source(
            k,
            self.x.end,
        )[i] by {
            assert(all[n + i] == self.source(k, self.x.end)[i]);
            assert(d.bytes.subrange(self.base, self.base + all.len())[n + i] == all[n + i]);
        }
        assert(d.source() =~= self.source(k, self.x.end));
    }

    /// The payloads behind the last long one of the last frame take as many bytes
    /// as their lengths say.
    proof fn lemma_trailing(self, k: int)
        requires
            self.ok(),
            self.x.long >= 0,
            self.x.long < k <= self.x.end,
        ensures
            payload_bytes(
                self.p[self.p.len() - 1],
                k,
                self.x.end,
                self.last_at(self.p.len() - 1),
            ).len() == short_len(self.p[self.f], k, self.x.end),
    {
        self.lemma_trailing_to(k, self.x.end);
    }

    proof fn lemma_trailing_to(self, k: int, m: int)
        requires
            self.ok(),
            self.x.long >= 0,
            self.x.long < k <= m <= self.x.end,
        ensures
            payload_bytes(
                self.p[self.p.len() - 1],
                k,
                m,
                self.last_at(self.p.len() - 1),
            ).len() == short_len(self.p[self.f], k, m),
        decreases m - k,
    {
        if k < m {
            self.lemma_trailing_to(k, m - 1);
            let g = self.p.len() - 1;
            let l = self.p[g];
            let la = self.last_at(g);
            let c = payload_chunk(l[m - 1], m - 1 == la);
            assert(payload_chunks(l, k, m, la).drop_last() =~= payload_chunks(l, k, m - 1, la));
            lemma_last_long(self.p[self.f], self.from, self.x.end);
            assert(alike(l[m - 1], self.p[self.f][m - 1]));
            assert(list_ok(l, self.from, self.x.end, g));
            assert(valid_ext(l[m - 1]));
        }
    }

    /// The extension that comes next in the source, and whether it is the one that
    /// the reader has marked as the last long one.
    proof fn lemma_step_source(self, d: Cursor, g: int, k: int)
        requires
            self.ok(),
            self.at(d, g, k),
            g < self.p.len(),
            k < self.x.end,
        ensures
            ({
                let s = self.p[self.f][k];
                let n = ext_bytes(s, false).len();
                &&& extension_at(d.source()) == Some((n - s.len, s.len as int))
                &&& d.source().len() > 0
                &&& d.source()[0] as int / 2 == s.id
                &&& d.source()[0] as int % 2 == flag_of(s, false)
                &&& d.src_pos + n == self.base + self.source(self.from, k + 1).len()
                &&& d.src_len - n == self.source(k + 1, self.x.end).len()
                &&& (d.last_long == Some(d.src_pos + n)) == (k == self.x.long)
            }),
    {
        let s = self.p[self.f][k];
        let l = self.p[self.f];
        assert(list_ok(l, self.from, self.x.end, self.f));
        self.lemma_source(d, g, k);
        lemma_list_front(l, k, self.x.end, -1);
        lemma_extension(s, false, self.source(k + 1, self.x.end));
        lemma_list_back(l, self.from, k, k + 1, -1);
        lemma_list_front(l, k, k + 1, -1);
        assert(self.source(k + 1, k + 1) =~= Seq::<u8>::empty());
        assert(self.source(k, k + 1) =~= ext_bytes(s, false));
        lemma_last_long(l, self.from, self.x.end);
        let long = self.x.long;
        if long >= 0 {
            if k < long {
                lemma_list_back(l, self.from, k + 1, long + 1, -1);
                lemma_list_front(l, k + 1, long + 1, -1);
            } else if long < k {
                lemma_list_back(l, self.from, long + 1, k + 1, -1);
                lemma_list_front(l, long + 1, k + 1, -1);
            }
        }
        let n = ext_bytes(s, false).len();
        assert(extension_at(d.source()) == Some((n - s.len, s.len as int)));
        assert(d.source()[0] as int % 2 == flag_of(s, false));
        assert(d.src_pos + n == self.base + self.source(self.from, k + 1).len());
        assert(d.src_len - n == self.source(k + 1, self.x.end).len());
        assert((d.last_long == Some(d.src_pos + n)) == (k == self.x.long));
    }

    /// The payload that comes next.
    proof fn lemma_step_payload(self, d: Cursor, g: int, k: int, byte: u8)
        requires
            self.ok(),
            self.at(d, g, k),
            g < self.p.len(),
            k < self.x.end,
            byte as int / 2 == self.p[self.f][k].id,
            byte as int % 2 == flag_of(self.p[self.f][k], k == self.last_at(g)),
        ensures
            ({
                let t = self.p[g][k];
                let n = payload_chunk(t, k == self.last_at(g)).bytes.len();
                let e = Cursor { pos: d.pos + n, left: d.left - n, ..d };
                &&& n <= d.left
                &&& n >= t.len
                &&& t.len >= 0
                &&& payload_at(d.tail(), byte, d.trailing) == Some((n - t.len, t.len as int))
                &&& d.tail().subrange(n - t.len, n as int) == payload(t)
                &&& e.tail() == self.ahead(g, k + 1)
                &&& byte as int / 2 == t.id
                &&& t.frame == g
            }),
    {
        let t = self.p[g][k];
        let la = self.last_at(g);
        let last = k == la;
        assert(list_ok(self.p[g], self.from, self.x.end, g));
        assert(alike(t, self.p[self.f][k]));
        let more = self.ahead(g, k + 1);
        lemma_payload_front(self.p[g], k, self.x.end, la);
        assert(d.tail() =~= payload_chunk(t, last).bytes + more);
        if last {
            lemma_last_long(self.p[self.f], self.from, self.x.end);
            self.lemma_trailing(k + 1);
            assert(self.payloads_from(g + 1) == self.rest);
        }
        lemma_payload(t, last, byte, d.trailing, more);
        let n = payload_chunk(t, last).bytes.len();
        let e = Cursor { pos: d.pos + n, left: d.left - n, ..d };
        assert(d.tail().len() == d.left);
        assert forall|i: int| 0 <= i < more.len() implies e.tail()[i] == more[i] by {
            assert(d.tail()[n + i] == more[i]);
        }
        assert(e.tail() =~= more);
    }

    /// Reading one repeated extension.
    proof fn lemma_step(self, d: Cursor, g: int, k: int) -> (e: Cursor)
        requires
            self.ok(),
            self.at(d, g, k),
            g < self.p.len(),
            k < self.x.end,
        ensures
            self.at(e, g, k + 1),
            e.bytes == d.bytes,
            d.next_repeat().0 is Found,
            d.rest() == seq![ext_of(self.p[g][k])] + e.rest(),
            d.ends_well() == e.ends_well(),
    {
        let s = self.p[self.f][k];
        let t = self.p[g][k];
        let last = k == self.last_at(g);
        assert(list_ok(self.p[self.f], self.from, self.x.end, self.f));
        lemma_last_long(self.p[self.f], self.from, self.x.end);
        self.lemma_step_source(d, g, k);
        let src_end = d.src_pos + ext_bytes(s, false).len();
        let byte = d.repeated_id_byte(d.source()[0], src_end);
        self.lemma_step_payload(d, g, k, byte);
        let n = payload_chunk(t, last).bytes.len();
        let c = Cursor { src_pos: src_end, src_len: d.src_len - ext_bytes(s, false).len(), ..d };
        let e = Cursor { pos: c.pos + n, left: c.left - n, ..c };
        assert(e.tail() == (Cursor { pos: d.pos + n, left: d.left - n, ..d }).tail());
        assert(d.src_len > 0);
        assert(d.source()[0] > 3);
        assert(d.next_repeat() == (Step::Found(ext_of(t)), e));
        assert(d.next() == (Step::Found(ext_of(t)), e));
        e
    }

    /// Padding in front of the repeated extensions is not repeated.
    proof fn lemma_skip_ones(self, d: Cursor, e: Cursor, g: int)
        requires
            self.ok(),
            self.at(e, g, self.from),
            g < self.p.len(),
            d.repeat_pos <= d.src_pos <= self.base,
            e == (Cursor {
                src_pos: self.base,
                src_len: self.source(self.from, self.x.end).len() as int,
                ..d
            }),
            d.src_pos + d.src_len == d.repeat_pos + d.repeat_len,
        ensures
            d.next_repeat() == e.next_repeat(),
        decreases self.base - d.src_pos,
    {
        assert(self.source(self.from, self.from) =~= Seq::<u8>::empty());
        if d.src_pos < self.base {
            assert(d.bytes[d.src_pos] == 1);
            assert(d.source()[0] == 1u8);
            assert(extension_at(d.source()) == Some((1int, 0int)));
            let c = Cursor { src_pos: d.src_pos + 1, src_len: d.src_len - 1, ..d };
            self.lemma_skip_ones(c, e, g);
        }
    }

    /// From the end of one frame to the start of the next.
    proof fn lemma_next_frame(self, d: Cursor, g: int) -> (e: Cursor)
        requires
            self.ok(),
            self.at(d, g, self.x.end),
            g < self.p.len(),
        ensures
            self.at(e, g + 1, self.from),
            e.bytes == d.bytes,
            d.rest() == e.rest(),
            d.ends_well() == e.ends_well(),
    {
        assert(self.source(self.x.end, self.x.end) =~= Seq::<u8>::empty());
        assert(self.source(self.from, self.from) =~= Seq::<u8>::empty());
        let c = Cursor {
            src_pos: d.repeat_pos,
            src_len: d.repeat_len,
            repeat_frame: g + 1,
            ..d
        };
        assert(payload_bytes(self.p[g], self.x.end, self.x.end, self.last_at(g)) =~= Seq::<u8>::empty());
        assert(self.ahead(g, self.x.end) =~= self.payloads_from(g + 1));
        assert(self.ahead(g + 1, self.from) =~= self.payloads_from(g + 1));
        assert(d.next_repeat() == c.next_repeat());
        assert(c.tail() =~= d.tail());
        if g + 1 < self.p.len() {
            let e = Cursor {
                src_pos: self.base,
                src_len: self.source(self.from, self.x.end).len() as int,
                ..c
            };
            assert(e.tail() =~= d.tail());
            self.lemma_skip_ones(c, e, g + 1);
            assert(d.next() == e.next());
            e
        } else {
            assert(d.next() == c.next());
            c
        }
    }

    /// Reading what is left of the repeat.
    proof fn lemma_read(self, d: Cursor, g: int, k: int) -> (e: Cursor)
        requires
            self.ok(),
            self.at(d, g, k),
        ensures
            between(e),
            e.bytes == d.bytes,
            e.nb_frames == d.nb_frames,
            e.frame == if self.x.last {
                self.f + 1
            } else {
                self.f
            },
            e.repeat_pos == e.pos,
            e.last_long is None,
            e.tail() == self.rest,
            d.rest() == self.values_from(g, k) + e.rest(),
            d.ends_well() == e.ends_well(),
        decreases self.p.len() - g, self.x.end - k,
    {
        if g >= self.p.len() {
            let e = d.after_repeat();
            assert(d.next_repeat() == (Step::Done, e));
            assert(e.tail() =~= d.tail());
            assert(d.next() == e.scan());
            assert(e.next() == e.scan());
            assert(self.values_from(g, k) + e.rest() =~= e.rest());
            e
        } else if k < self.x.end {
            let c = self.lemma_step(d, g, k);
            let e = self.lemma_read(c, g, k + 1);
            assert(self.values_from(g, k) + e.rest() =~= seq![ext_of(self.p[g][k])] + (self.values_from(
                g,
                k + 1,
            ) + e.rest()));
            e
        } else {
            let c = self.lemma_next_frame(d, g);
            let e = self.lemma_read(c, g + 1, self.from);
            assert(self.values_from(g, k) =~= self.values_from(g + 1, self.from));
            e
        }
    }

    /// Reading the announcement of the repeat.
    proof fn lemma_enter(self, m: Cursor) -> (e: Cursor)
        requires
            self.ok(),
            between(m),
            m.nb_frames == self.p.len(),
            m.frame == self.f,
            m.tail() == repeat_chunk(self.x.last).bytes + self.payloads_from(self.f + 1),
            m.repeat_pos <= self.base,
            forall|i: int| m.repeat_pos <= i < self.base ==> #[trigger] m.bytes[i] == 1,
            m.pos == self.base + self.source(self.from, self.x.end).len(),
            m.bytes.subrange(self.base, m.pos) == self.source(self.from, self.x.end),
            m.last_long == long_mark(self.p[self.f], self.from, self.x.end, self.base),
            self.x.long >= 0 ==> m.trailing == short_len(self.p[self.f], self.x.long + 1, self.x.end),
        ensures
            self.at(e, self.f + 1, self.from),
            e.bytes == m.bytes,
            m.rest() == e.rest(),
            m.ends_well() == e.ends_well(),
    {
        let after = self.payloads_from(self.f + 1);
        let mark = repeat_chunk(self.x.last).bytes;
        assert(m.tail()[0] == mark[0]);
        assert(m.tail().len() == m.left);
        assert(extension_at(m.tail()) == Some((1int, 0int)));
        let b = m.begin_repeat(mark[0] as int % 2, m.pos + 1, m.left - 1);
        let e = Cursor {
            src_pos: self.base,
            src_len: self.source(self.from, self.x.end).len() as int,
            ..b
        };
        assert forall|i: int| 0 <= i < after.len() implies e.tail()[i] == after[i] by {
            assert(m.tail()[1 + i] == after[i]);
        }
        assert(e.tail() =~= after);
        assert(self.source(self.from, self.from) =~= Seq::<u8>::empty());
        assert(self.ahead(self.f + 1, self.from) =~= after);
        assert(self.at(e, self.f + 1, self.from));
        self.lemma_skip_ones(b, e, self.f + 1);
        let first = self.lemma_step(e, self.f + 1, self.from);
        assert(m.scan() == e.next());
        assert(m.next() == e.next());
        e
    }

    /// The payloads of the repeat, in the order of writing.
    proof fn lemma_payloads(self, g: int)
        requires
            self.ok(),
            self.f < g <= self.p.len(),
        ensures
            concat(
                repeated_chunks(
                    self.p,
                    self.f,
                    g,
                    self.from,
                    self.x.end,
                    if self.x.last {
                        self.x.long
                    } else {
                        -1
                    },
                ),
            ) + self.payloads_from(g) == self.payloads_from(self.f + 1),
        decreases g,
    {
        let la = if self.x.last {
            self.x.long
        } else {
            -1
        };
        let a = repeated_chunks(self.p, self.f, g, self.from, self.x.end, la);
        if g == self.f + 1 {
            assert(concat(a) + self.payloads_from(g) =~= self.payloads_from(g));
        } else {
            self.lemma_payloads(g - 1);
            let b = repeated_chunks(self.p, self.f, g - 1, self.from, self.x.end, la);
            let m = payload_chunks(self.p[g - 1], self.from, self.x.end, self.last_at(g - 1));
            lemma_last_long(self.p[self.f], self.from, self.x.end);
            assert(a == b + m);
            lemma_concat(b, m);
            assert(concat(a) + self.payloads_from(g) =~= concat(b) + (concat(m) + self.payloads_from(g)));
        }
    }
}

// ---------------------------------------------------------------------------
// Reading frame by frame
// ---------------------------------------------------------------------------

/// Whether all extensions can be written, each in its own frame.
spec fn frames_ok(p: Seq<Seq<Item>>) -> bool {
    &&& p.len() <= MAX_FRAMES
    &&& forall|g: int| 0 <= g < p.len() ==> list_ok(#[trigger] p[g], 0, p[g].len() as int, g)
}

/// Extensions of frame `f` and of the later ones, but for the first `consumed` of each.
spec fn remaining(p: Seq<Seq<Item>>, f: int, consumed: int) -> int
    decreases p.len() - f,
{
    if f >= p.len() {
        0
    } else {
        p[f].len() - consumed + remaining(p, f + 1, consumed)
    }
}

spec fn all_at_least(p: Seq<Seq<Item>>, f: int, consumed: int) -> bool {
    forall|g: int| f <= g < p.len() ==> consumed <= (#[trigger] p[g]).len()
}

proof fn lemma_remaining(p: Seq<Seq<Item>>, f: int, a: int, b: int)
    requires
        0 <= f <= p.len(),
        all_at_least(p, f, b),
    ensures
        remaining(p, f, b) >= 0,
        remaining(p, f, a) == remaining(p, f, b) + (b - a) * (p.len() - f),
        remaining(p, f, b) == 0 ==> forall|g: int| f <= g < p.len() ==> (#[trigger] p[g]).len() == b,
    decreases p.len() - f,
{
    if f < p.len() {
        lemma_remaining(p, f + 1, a, b);
        assert((b - a) * (p.len() - f) == (b - a) * (p.len() - (f + 1)) + (b - a)) by (nonlinear_arith);
    } else {
        assert((b - a) * (p.len() - f) == 0) by (nonlinear_arith)
            requires
                p.len() - f == 0,
        ;
    }
}

/// What holds of the progress when the writing comes to frame `f`.
spec fn progress_ok(p: Seq<Seq<Item>>, total: int, f: int, s: Progress) -> bool {
    &&& 0 <= s.consumed
    &&& all_at_least(p, f, s.consumed)
    &&& 0 <= s.frame <= f
    &&& s.frame < p.len()
    &&& s.written + remaining(p, f, s.consumed) == total
}

proof fn lemma_repeat_end(p: Seq<Seq<Item>>, f: int, i: int)
    requires
        0 <= f < p.len(),
        0 <= i <= p[f].len(),
    ensures
        i <= repeat_end(p, f, i) <= p[f].len(),
        forall|k: int| i <= k < repeat_end(p, f, i) ==> #[trigger] repeatable(p, f, k),
    decreases p[f].len() - i,
{
    if repeatable(p, f, i) {
        lemma_repeat_end(p, f, i + 1);
    }
}

/// The repeated part of a frame has its like in every later one.
proof fn lemma_repeated_alike(p: Seq<Seq<Item>>, f: int, i: int)
    requires
        0 <= f < p.len(),
        0 <= i <= p[f].len(),
        all_at_least(p, f, i),
    ensures
        all_at_least(p, f + 1, repeat_end(p, f, i)),
        i < repeat_end(p, f, i) ==> f + 1 < p.len(),
        forall|g: int, k: int|
            f < g < p.len() && i <= k < repeat_end(p, f, i) ==> alike(#[trigger] p[g][k], p[f][k]),
{
    lemma_repeat_end(p, f, i);
    let end = repeat_end(p, f, i);
    if i < end {
        assert(repeatable(p, f, end - 1));
    }
    assert forall|g: int, k: int| f < g < p.len() && i <= k < end implies alike(
        #[trigger] p[g][k],
        p[f][k],
    ) by {
        assert(repeatable(p, f, k));
        assert(k < p[g].len());
    }
}

proof fn lemma_progress(p: Seq<Seq<Item>>, total: int, f: int, s: Progress)
    requires
        0 <= f < p.len(),
        progress_ok(p, total, f, s),
    ensures
        progress_ok(p, total, f + 1, frame_after(p, total, f, s)),
        frame_plan(p, total, f, s).end >= s.consumed,
{
    lemma_repeated_alike(p, f, s.consumed);
    lemma_repeat_end(p, f, s.consumed);
    let end = repeat_end(p, f, s.consumed);
    lemma_remaining(p, f + 1, s.consumed, end);
    assert((p.len() - f - 1) == p.len() - (f + 1));
    assert((end - s.consumed) * (p.len() - f - 1) == (end - s.consumed) * (p.len() - (f + 1)));
}

/// Once all is written, nothing more is.
proof fn lemma_plan_empty(p: Seq<Seq<Item>>, total: int, f: int, s: Progress)
    requires
        0 <= f <= p.len(),
        all_at_least(p, f, s.consumed),
        remaining(p, f, s.consumed) == 0,
    ensures
        plan_from(p, total, f, s) == Seq::<Chunk>::empty(),
    decreases p.len() - f,
{
    lemma_remaining(p, f, s.consumed, s.consumed);
    if f < p.len() {
        assert(p[f].len() == s.consumed);
        lemma_plan_empty(p, total, f + 1, s);
        assert(plan_from(p, total, f, s) =~= Seq::<Chunk>::empty());
    }
}

/// The values that are written for frame `f`, in the order of writing.
spec fn frame_values(p: Seq<Seq<Item>>, total: int, f: int, s: Progress) -> Seq<Ext> {
    let l = p[f];
    let end = frame_plan(p, total, f, s).end;
    if s.consumed >= l.len() {
        Seq::empty()
    } else {
        values(l, s.consumed, end) + (if s.consumed < end {
            later_values(p, f + 1, s.consumed, end, s.consumed)
        } else {
            Seq::empty()
        }) + values(l, end, l.len() as int)
    }
}

/// The values that are written for frame `f` and for the later ones.
spec fn plan_values(p: Seq<Seq<Item>>, total: int, f: int, s: Progress) -> Seq<Ext>
    decreases p.len() - f,
{
    if f >= p.len() {
        Seq::empty()
    } else {
        frame_values(p, total, f, s) + plan_values(p, total, f + 1, frame_after(p, total, f, s))
    }
}

/// A reader that is where the writing has got to when it comes to frame `f`.
spec fn ready(c: Cursor, p: Seq<Seq<Item>>, f: int, s: Progress) -> bool {
    &&& between(c)
    &&& c.nb_frames == p.len()
    &&& c.frame == s.frame
    &&& s.frame == f ==> {
        &&& c.last_long is None
        &&& forall|i: int| c.repeat_pos <= i < c.pos ==> #[trigger] c.bytes[i] == 1
    }
}

/// Reading the repeat of frame `f`, with the extensions that it repeats.
proof fn lemma_read_repeat(
    c: Cursor,
    p: Seq<Seq<Item>>,
    total: int,
    f: int,
    s: Progress,
    rest: Seq<u8>,
) -> (d: Cursor)
    requires
        frames_ok(p),
        0 <= f < p.len(),
        progress_ok(p, total, f, s),
        ready(c, p, f, s),
        c.frame == f,
        s.consumed < frame_plan(p, total, f, s).end,
        frame_plan(p, total, f, s).last && frame_plan(p, total, f, s).long >= 0 ==> rest.len() == 0,
        c.tail() == concat(repeat_chunks(p, f, s.consumed, frame_plan(p, total, f, s))) + rest,
    ensures
        between(d),
        d.nb_frames == p.len(),
        d.frame == if frame_plan(p, total, f, s).last {
            f + 1
        } else {
            f
        },
        d.repeat_pos == d.pos,
        d.last_long is None,
        d.tail() == rest,
        c.rest() == values(p[f], s.consumed, frame_plan(p, total, f, s).end) + later_values(
            p,
            f + 1,
            s.consumed,
            frame_plan(p, total, f, s).end,
            s.consumed,
        ) + d.rest(),
        c.ends_well() == d.ends_well(),
{
    let x = frame_plan(p, total, f, s);
    let from = s.consumed;
    lemma_repeat_end(p, f, from);
    lemma_repeated_alike(p, f, from);
    let r = Repeat { p, f, from, x, base: c.pos, rest };
    assert forall|g: int| f <= g < p.len() implies list_ok(#[trigger] p[g], from, x.end, g) by {
        assert(list_ok(p[g], 0, p[g].len() as int, g));
        if g > f {
            assert(x.end <= p[g].len());
        }
    }
    assert(r.ok());
    let la = if x.last {
        x.long
    } else {
        -1
    };
    let lc = list_chunks(p[f], from, x.end, -1);
    let mark = repeat_chunk(x.last);
    let pc = repeated_chunks(p, f, p.len() as int, from, x.end, la);
    lemma_concat(lc + seq![mark], pc);
    lemma_concat(lc, seq![mark]);
    lemma_concat_one(mark);
    r.lemma_payloads(p.len() as int);
    let after = r.payloads_from(f + 1);
    assert(c.tail() =~= list_bytes(p[f], from, x.end, -1) + (mark.bytes + after));
    assert(list_ok(p[f], from, x.end, f));
    let m = lemma_read_list(c, p[f], from, x.end, mark.bytes + after);
    let src = r.source(from, x.end);
    assert(m.bytes.subrange(c.pos, m.pos) =~= src) by {
        assert forall|i: int| 0 <= i < src.len() implies m.bytes[c.pos + i] == src[i] by {
            assert(c.tail()[i] == src[i]);
        }
    }
    let e = r.lemma_enter(m);
    let d = r.lemma_read(e, f + 1, from);
    assert(c.rest() =~= values(p[f], from, x.end) + later_values(p, f + 1, from, x.end, from) + d.rest());
    d
}

/// Reading one frame.
#[verifier::spinoff_prover]
#[verifier::rlimit(60)]
proof fn lemma_read_frame(
    c: Cursor,
    p: Seq<Seq<Item>>,
    total: int,
    f: int,
    s: Progress,
) -> (d: Cursor)
    requires
        frames_ok(p),
        0 <= f < p.len(),
        progress_ok(p, total, f, s),
        ready(c, p, f, s),
        c.tail() == concat(frame_chunks(p, total, f, s)) + concat(
            plan_from(p, total, f + 1, frame_after(p, total, f, s)),
        ),
    ensures
        ready(d, p, f + 1, frame_after(p, total, f, s)),
        d.tail() == concat(plan_from(p, total, f + 1, frame_after(p, total, f, s))),
        c.rest() == frame_values(p, total, f, s) + d.rest(),
        c.ends_well() == d.ends_well(),
{
    let l = p[f];
    let x = frame_plan(p, total, f, s);
    let after = frame_after(p, total, f, s);
    let tail = concat(plan_from(p, total, f + 1, after));
    lemma_progress(p, total, f, s);
    lemma_repeat_end(p, f, s.consumed);
    if s.consumed >= l.len() {
        assert(frame_chunks(p, total, f, s) =~= Seq::<Chunk>::empty());
        assert(c.tail() =~= tail);
        assert(frame_values(p, total, f, s) + c.rest() =~= c.rest());
        return c;
    }
    let sep = if f != s.frame {
        seq![separator_chunk(f - s.frame)]
    } else {
        Seq::<Chunk>::empty()
    };
    let rep = if s.consumed < x.end {
        repeat_chunks(p, f, s.consumed, x)
    } else {
        Seq::<Chunk>::empty()
    };
    let lst = list_chunks(l, x.end, l.len() as int, x.last_at);
    assert(frame_chunks(p, total, f, s) == sep + rep + lst);
    lemma_concat(sep + rep, lst);
    lemma_concat(sep, rep);
    let m1 = if f != s.frame {
        lemma_concat_one(sep[0]);
        assert(c.tail() =~= sep[0].bytes + (concat(rep) + (concat(lst) + tail)));
        lemma_read_separator(c, f, concat(rep) + (concat(lst) + tail))
    } else {
        assert(c.tail() =~= concat(rep) + (concat(lst) + tail));
        c
    };
    let s1 = Progress { frame: f, ..s };
    assert(m1.tail() == concat(rep) + (concat(lst) + tail));
    assert(ready(m1, p, f, s1));
    let rest = concat(lst) + tail;
    // What is left once the repeat says that all is written.
    lemma_remaining(p, f + 1, after.consumed, after.consumed);
    if x.end <= x.last_at < l.len() || s.written + (x.end - s.consumed) + x.extra == total {
        assert(after.written + remaining(p, f + 1, after.consumed) == total);
        assert(remaining(p, f + 1, after.consumed) == 0);
        lemma_plan_empty(p, total, f + 1, after);
        assert(tail =~= Seq::<u8>::empty());
    }
    if s.written + (x.end - s.consumed) + x.extra == total {
        assert(l.len() == x.end);
        assert(lst =~= Seq::<Chunk>::empty());
        assert(concat(lst) =~= Seq::<u8>::empty());
    }
    let m2 = if s.consumed < x.end {
        let px = frame_plan(p, total, f, s1);
        assert(px == x);
        lemma_read_repeat(m1, p, total, f, s1, rest)
    } else {
        assert(m1.tail() =~= rest);
        m1
    };
    assert(list_ok(p[f], 0, l.len() as int, f));
    if s.consumed < x.end && x.last {
        assert(l.len() == x.end);
        assert(lst =~= Seq::<Chunk>::empty());
        assert(rest =~= tail);
        assert(values(l, x.end, l.len() as int) =~= Seq::<Ext>::empty());
        assert(c.rest() =~= frame_values(p, total, f, s) + m2.rest());
        m2
    } else {
        let d = lemma_read_rest(m2, l, x.end, l.len() as int, x.last_at, tail);
        assert(c.rest() =~= frame_values(p, total, f, s) + d.rest());
        d
    }
}

/// Reading all the frames.
proof fn lemma_read_plan(
    c: Cursor,
    p: Seq<Seq<Item>>,
    total: int,
    f: int,
    s: Progress,
)
    requires
        frames_ok(p),
        0 <= f <= p.len(),
        progress_ok(p, total, f, s),
        ready(c, p, f, s),
        c.tail() == concat(plan_from(p, total, f, s)),
    ensures
        c.rest() == plan_values(p, total, f, s),
        c.ends_well(),
    decreases p.len() - f,
{
    if f < p.len() {
        let after = frame_after(p, total, f, s);
        lemma_concat(frame_chunks(p, total, f, s), plan_from(p, total, f + 1, after));
        let d = lemma_read_frame(c, p, total, f, s);
        lemma_progress(p, total, f, s);
        lemma_read_plan(d, p, total, f + 1, after);
    } else {
        assert(c.tail().len() == c.left);
        assert(c.next() == (Step::Done, c));
        assert(c.rest() =~= plan_values(p, total, f, s));
    }
}

/// Reading past the padding in front.
proof fn lemma_read_ones(c: Cursor, n: int, tail: Seq<u8>) -> (d: Cursor)
    requires
        between(c),
        0 <= n,
        c.tail() == Seq::new(n as nat, |i: int| 1u8) + tail,
    ensures
        d == (Cursor { pos: c.pos + n, left: c.left - n, ..c }),
        between(d),
        d.tail() == tail,
        c.rest() == d.rest(),
        c.ends_well() == d.ends_well(),
    decreases n,
{
    if n == 0 {
        assert(c.tail() =~= tail);
        c
    } else {
        let more = Seq::new((n - 1) as nat, |i: int| 1u8) + tail;
        assert(c.tail() =~= seq![1u8] + more);
        lemma_read_padding_byte(c, more);
        lemma_read_ones(Cursor { pos: c.pos + 1, left: c.left - 1, ..c }, n - 1, tail)
    }
}

// ---------------------------------------------------------------------------
// The law
// ---------------------------------------------------------------------------

/// The extensions of one frame, in the order in which they come.
pub open spec fn exts_of_frame(exts: Seq<Ext>, frame: int) -> Seq<Ext>
    decreases exts.len(),
{
    if exts.len() == 0 {
        Seq::empty()
    } else if exts.last().frame == frame {
        exts_of_frame(exts.drop_last(), frame).push(exts.last())
    } else {
        exts_of_frame(exts.drop_last(), frame)
    }
}

proof fn lemma_exts_concat(a: Seq<Ext>, b: Seq<Ext>, frame: int)
    ensures
        exts_of_frame(a + b, frame) == exts_of_frame(a, frame) + exts_of_frame(b, frame),
    decreases b.len(),
{
    if b.len() == 0 {
        assert(a + b =~= a);
        assert(exts_of_frame(a, frame) + exts_of_frame(b, frame) =~= exts_of_frame(a, frame));
    } else {
        lemma_exts_concat(a, b.drop_last(), frame);
        assert((a + b).drop_last() =~= a + b.drop_last());
        assert(exts_of_frame(a + b, frame) =~= exts_of_frame(a, frame) + exts_of_frame(b, frame));
    }
}

proof fn lemma_values_frame(l: Seq<Item>, from: int, to: int, frame: int, h: int)
    requires
        list_ok(l, from, to, frame),
    ensures
        exts_of_frame(values(l, from, to), h) == if h == frame {
            values(l, from, to)
        } else {
            Seq::empty()
        },
    decreases to - from,
{
    let v = values(l, from, to);
    if from < to {
        lemma_values_frame(l, from, to - 1, frame, h);
        assert(v.drop_last() =~= values(l, from, to - 1));
        if h == frame {
            assert(exts_of_frame(v, h) =~= v);
        }
    } else {
        assert(v =~= Seq::<Ext>::empty());
    }
}

proof fn lemma_later_frame(
    p: Seq<Seq<Item>>,
    g: int,
    from: int,
    to: int,
    h: int,
)
    requires
        frames_ok(p),
        0 <= g,
        0 <= from <= to,
        all_at_least(p, g, to),
    ensures
        exts_of_frame(later_values(p, g, from, to, from), h) == if g <= h < p.len() {
            values(p[h], from, to)
        } else {
            Seq::empty()
        },
    decreases p.len() - g,
{
    if g < p.len() {
        lemma_later_frame(p, g + 1, from, to, h);
        lemma_exts_concat(values(p[g], from, to), later_values(p, g + 1, from, to, from), h);
        assert(list_ok(p[g], 0, p[g].len() as int, g));
        lemma_values_frame(p[g], from, to, g, h);
        assert(exts_of_frame(later_values(p, g, from, to, from), h) =~= if g <= h < p.len() {
            values(p[h], from, to)
        } else {
            Seq::empty()
        });
    }
}

proof fn lemma_frame_values_frame(
    p: Seq<Seq<Item>>,
    total: int,
    f: int,
    s: Progress,
    h: int,
)
    requires
        frames_ok(p),
        0 <= f < p.len(),
        progress_ok(p, total, f, s),
    ensures
        exts_of_frame(frame_values(p, total, f, s), h) == if h == f {
            values(p[h], s.consumed, p[h].len() as int)
        } else if f < h < p.len() {
            values(p[h], s.consumed, frame_after(p, total, f, s).consumed)
        } else {
            Seq::empty()
        },
{
    let l = p[f];
    let end = frame_plan(p, total, f, s).end;
    lemma_repeat_end(p, f, s.consumed);
    lemma_repeated_alike(p, f, s.consumed);
    assert(list_ok(l, 0, l.len() as int, f));
    if s.consumed < l.len() {
        let a = values(l, s.consumed, end);
        let b = if s.consumed < end {
            later_values(p, f + 1, s.consumed, end, s.consumed)
        } else {
            Seq::empty()
        };
        let c = values(l, end, l.len() as int);
        lemma_exts_concat(a + b, c, h);
        lemma_exts_concat(a, b, h);
        lemma_values_frame(l, s.consumed, end, f, h);
        lemma_values_frame(l, end, l.len() as int, f, h);
        if s.consumed < end {
            lemma_later_frame(p, f + 1, s.consumed, end, h);
        }
        if h == f {
            assert(exts_of_frame(a + b + c, h) =~= values(l, s.consumed, l.len() as int));
        } else if f < h < p.len() {
            assert(exts_of_frame(a + b + c, h) =~= values(p[h], s.consumed, end));
        } else {
            assert(exts_of_frame(a + b + c, h) =~= Seq::<Ext>::empty());
        }
    } else {
        assert(values(l, s.consumed, l.len() as int) =~= Seq::<Ext>::empty());
        if f < h < p.len() {
            assert(values(p[h], s.consumed, s.consumed) =~= Seq::<Ext>::empty());
        }
    }
}

proof fn lemma_plan_values_frame(
    p: Seq<Seq<Item>>,
    total: int,
    f: int,
    s: Progress,
    h: int,
)
    requires
        frames_ok(p),
        0 <= f <= p.len(),
        progress_ok(p, total, f, s),
    ensures
        exts_of_frame(plan_values(p, total, f, s), h) == if f <= h < p.len() {
            values(p[h], s.consumed, p[h].len() as int)
        } else {
            Seq::empty()
        },
    decreases p.len() - f,
{
    if f < p.len() {
        let after = frame_after(p, total, f, s);
        lemma_progress(p, total, f, s);
        lemma_plan_values_frame(p, total, f + 1, after, h);
        lemma_frame_values_frame(p, total, f, s, h);
        lemma_exts_concat(frame_values(p, total, f, s), plan_values(p, total, f + 1, after), h);
        if f < h < p.len() {
            assert(after.consumed <= p[h].len());
            assert(exts_of_frame(plan_values(p, total, f, s), h) =~= values(
                p[h],
                s.consumed,
                p[h].len() as int,
            ));
        } else if h == f {
            assert(exts_of_frame(plan_values(p, total, f, s), h) =~= values(
                p[h],
                s.consumed,
                p[h].len() as int,
            ));
        } else {
            assert(exts_of_frame(plan_values(p, total, f, s), h) =~= Seq::<Ext>::empty());
        }
    }
}

/// Extensions of frame `f` and of later ones.
spec fn count_from(exts: Seq<Item>, f: int) -> int
    decreases exts.len(),
{
    if exts.len() == 0 {
        0
    } else {
        count_from(exts.drop_last(), f) + if exts.last().frame >= f {
            1int
        } else {
            0
        }
    }
}

proof fn lemma_count_from(exts: Seq<Item>, f: int)
    ensures
        count_from(exts, f) == count_from(exts, f + 1) + of_frame(exts, f).len(),
        (forall|i: int| 0 <= i < exts.len() ==> (#[trigger] exts[i]).frame < f) ==> count_from(exts, f)
            == 0,
        (forall|i: int| 0 <= i < exts.len() ==> (#[trigger] exts[i]).frame >= f) ==> count_from(exts, f)
            == exts.len(),
    decreases exts.len(),
{
    if exts.len() > 0 {
        lemma_count_from(exts.drop_last(), f);
        assert forall|i: int| 0 <= i < exts.len() - 1 implies exts.drop_last()[i] == exts[i] by {}
    }
}

proof fn lemma_remaining_count(exts: Seq<Item>, nb_frames: int, f: int)
    requires
        in_range(exts, nb_frames),
        0 <= f <= nb_frames,
    ensures
        remaining(by_frame(exts, nb_frames), f, 0) == count_from(exts, f),
    decreases nb_frames - f,
{
    lemma_count_from(exts, f);
    if f < nb_frames {
        lemma_remaining_count(exts, nb_frames, f + 1);
    }
}

/// A run that succeeds met nothing invalid.
proof fn lemma_run_valid(done: Seq<u8>, chunks: Seq<Chunk>, room: int, i: int)
    requires
        run_from(done, chunks, room).0 >= 0,
        0 <= i < chunks.len(),
    ensures
        !chunks[i].bad,
    decreases chunks.len(),
{
    if i > 0 {
        assert(chunks.skip(1)[i - 1] == chunks[i]);
        lemma_run_valid(done + chunks[0].bytes, chunks.skip(1), room, i - 1);
    }
}

spec fn none_bad(chunks: Seq<Chunk>) -> bool {
    forall|i: int| 0 <= i < chunks.len() ==> !(#[trigger] chunks[i]).bad
}

proof fn lemma_none_bad(a: Seq<Chunk>, b: Seq<Chunk>)
    requires
        none_bad(a + b),
    ensures
        none_bad(a),
        none_bad(b),
{
    assert forall|i: int| 0 <= i < a.len() implies !(#[trigger] a[i]).bad by {
        assert((a + b)[i] == a[i]);
    }
    assert forall|i: int| 0 <= i < b.len() implies !(#[trigger] b[i]).bad by {
        assert((a + b)[a.len() + i] == b[i]);
    }
}

/// Whether the payload of an extension can be written.
spec fn payload_ok(e: Item) -> bool {
    0 <= e.len && (e.id < 32 ==> e.len <= 1)
}

proof fn lemma_list_valid(l: Seq<Item>, from: int, to: int, last_at: int, k: int)
    requires
        none_bad(list_chunks(l, from, to, last_at)),
        from <= k < to,
    ensures
        payload_ok(l[k]),
    decreases to - from,
{
    let a = list_chunks(l, from, to - 1, last_at);
    let b = extension_chunks(l[to - 1], to - 1 == last_at);
    lemma_none_bad(a, b);
    if k == to - 1 {
        assert(!b[1].bad);
    } else {
        lemma_list_valid(l, from, to - 1, last_at, k);
    }
}

proof fn lemma_payloads_valid(l: Seq<Item>, from: int, to: int, last_at: int, k: int)
    requires
        none_bad(payload_chunks(l, from, to, last_at)),
        from <= k < to,
    ensures
        payload_ok(l[k]),
    decreases to - from,
{
    let a = payload_chunks(l, from, to - 1, last_at);
    let c = payload_chunk(l[to - 1], to - 1 == last_at);
    assert(a.push(c) =~= a + seq![c]);
    lemma_none_bad(a, seq![c]);
    if k == to - 1 {
        assert(!seq![c][0].bad);
    } else {
        lemma_payloads_valid(l, from, to - 1, last_at, k);
    }
}

proof fn lemma_repeated_valid(
    p: Seq<Seq<Item>>,
    f: int,
    g: int,
    from: int,
    to: int,
    last_at: int,
    h: int,
    k: int,
)
    requires
        none_bad(repeated_chunks(p, f, g, from, to, last_at)),
        f < h < g,
        from <= k < to,
    ensures
        payload_ok(p[h][k]),
    decreases g - f,
{
    let la = if g == p.len() {
        last_at
    } else {
        -1
    };
    lemma_none_bad(
        repeated_chunks(p, f, g - 1, from, to, last_at),
        payload_chunks(p[g - 1], from, to, la),
    );
    if h == g - 1 {
        lemma_payloads_valid(p[h], from, to, la, k);
    } else {
        lemma_repeated_valid(p, f, g - 1, from, to, last_at, h, k);
    }
}

proof fn lemma_plan_valid(
    p: Seq<Seq<Item>>,
    total: int,
    f: int,
    s: Progress,
    h: int,
    k: int,
)
    requires
        none_bad(plan_from(p, total, f, s)),
        0 <= f <= h < p.len(),
        progress_ok(p, total, f, s),
        s.consumed <= k < p[h].len(),
    ensures
        payload_ok(p[h][k]),
    decreases p.len() - f,
{
    let l = p[f];
    let x = frame_plan(p, total, f, s);
    let after = frame_after(p, total, f, s);
    lemma_progress(p, total, f, s);
    lemma_repeat_end(p, f, s.consumed);
    lemma_none_bad(frame_chunks(p, total, f, s), plan_from(p, total, f + 1, after));
    if h > f && after.consumed <= k {
        lemma_plan_valid(p, total, f + 1, after, h, k);
    } else {
        let sep = if f != s.frame {
            seq![separator_chunk(f - s.frame)]
        } else {
            Seq::<Chunk>::empty()
        };
        let rep = if s.consumed < x.end {
            repeat_chunks(p, f, s.consumed, x)
        } else {
            Seq::<Chunk>::empty()
        };
        let lst = list_chunks(l, x.end, l.len() as int, x.last_at);
        lemma_none_bad(sep + rep, lst);
        lemma_none_bad(sep, rep);
        if k >= x.end {
            lemma_list_valid(l, x.end, l.len() as int, x.last_at, k);
        } else {
            let la = if x.last {
                x.long
            } else {
                -1
            };
            let a = list_chunks(l, s.consumed, x.end, -1);
            let b = seq![repeat_chunk(x.last)];
            let c = repeated_chunks(p, f, p.len() as int, s.consumed, x.end, la);
            lemma_none_bad(a + b, c);
            lemma_none_bad(a, b);
            if h == f {
                lemma_list_valid(l, s.consumed, x.end, -1, k);
            } else {
                lemma_repeated_valid(p, f, p.len() as int, s.consumed, x.end, la, h, k);
            }
        }
    }
}

proof fn lemma_of_frame(exts: Seq<Item>, f: int, nb_frames: int)
    requires
        in_range(exts, nb_frames),
    ensures
        forall|i: int|
            0 <= i < of_frame(exts, f).len() ==> {
                &&& (#[trigger] of_frame(exts, f)[i]).frame == f
                &&& 3 <= of_frame(exts, f)[i].id <= 127
            },
    decreases exts.len(),
{
    if exts.len() > 0 {
        assert(in_range(exts.drop_last(), nb_frames)) by {
            assert forall|i: int| 0 <= i < exts.len() - 1 implies 0 <= (#[trigger] exts.drop_last()[i]).frame
                < nb_frames && 3 <= exts.drop_last()[i].id <= 127 by {
                assert(exts.drop_last()[i] == exts[i]);
            }
        }
        lemma_of_frame(exts.drop_last(), f, nb_frames);
        let last = exts[exts.len() - 1];
        assert(3 <= last.id <= 127);
        let a = of_frame(exts.drop_last(), f);
        assert forall|i: int| 0 <= i < of_frame(exts, f).len() implies (#[trigger] of_frame(exts, f)[i]).frame
            == f && 3 <= of_frame(exts, f)[i].id <= 127 by {
            if i < a.len() {
                assert(of_frame(exts, f)[i] == a[i]);
            } else {
                assert(of_frame(exts, f)[i] == last);
            }
        }
    }
}

/// What is written as extensions reads back: the bytes are valid to the end, and
/// in every frame there come the extensions that were given for it, in their
/// order and with their payloads.
pub proof fn extensions_round_trip(
    exts: Seq<Item>,
    nb_frames: int,
    len: int,
    pad: bool,
    frame: int,
)
    requires
        0 <= nb_frames <= MAX_FRAMES,
        0 <= len <= i32::MAX,
        generated(exts, nb_frames, len, pad).0 >= 0,
        0 <= frame < nb_frames,
    ensures
        extensions_valid(generated(exts, nb_frames, len, pad).1, nb_frames),
        exts_of_frame(extensions_in(generated(exts, nb_frames, len, pad).1, nb_frames), frame)
            == of_frame(exts, frame).map_values(|e: Item| ext_of(e)),
{
    let p = by_frame(exts, nb_frames);
    let total = exts.len() as int;
    let s = Progress { consumed: 0, frame: 0, written: 0 };
    let chunks = plan(exts, nb_frames);
    let (r, w) = run_from(Seq::empty(), chunks, len);
    let bytes = generated(exts, nb_frames, len, pad).1;
    lemma_remaining_count(exts, nb_frames, 0);
    lemma_count_from(exts, 0);
    assert(progress_ok(p, total, 0, s));
    assert(none_bad(chunks)) by {
        assert forall|i: int| 0 <= i < chunks.len() implies !(#[trigger] chunks[i]).bad by {
            lemma_run_valid(Seq::empty(), chunks, len, i);
        }
    }
    assert(frames_ok(p)) by {
        assert forall|g: int| 0 <= g < p.len() implies list_ok(#[trigger] p[g], 0, p[g].len() as int, g) by {
            lemma_of_frame(exts, g, nb_frames);
            assert forall|k: int| 0 <= k < p[g].len() implies valid_ext(#[trigger] p[g][k])
                && p[g][k].frame == g by {
                lemma_plan_valid(p, total, 0, s, g, k);
                assert(p[g][k] == of_frame(exts, g)[k]);
            }
        }
    }
    lemma_run_concat_bytes(Seq::empty(), chunks, len);
    assert(w =~= concat(chunks));
    generated_fits(exts, nb_frames, len, pad);
    let n = bytes.len() - w.len();
    assert(bytes =~= Seq::new(n as nat, |i: int| 1u8) + w);
    let c = Cursor::start(bytes, nb_frames);
    assert(c.tail() =~= bytes);
    let d = lemma_read_ones(c, n, w);
    assert(ready(d, p, 0, s));
    lemma_read_plan(d, p, total, 0, s);
    lemma_plan_values_frame(p, total, 0, s, frame);
    assert(values(p[frame], 0, p[frame].len() as int) =~= of_frame(exts, frame).map_values(
        |e: Item| ext_of(e),
    ));
}

} // verus!
