//! Reading the extensions in the padding of a packet: how many there are, and
//! what they are, in the order of the bytes or frame by frame.

use vstd::prelude::*;
use crate::codes::{MAX_FRAMES, OPUS_BAD_ARG, OPUS_BUFFER_TOO_SMALL, OPUS_INVALID_PACKET, OPUS_OK};
use crate::extension_bound::extensions_are_few;
use crate::extension_iter::{
    extension_at, lemma_extension_at, Cursor, Ext, OpusExtensionData, OpusExtensionIterator, Step,
};

verus! {

/// The extensions in `bytes`, for a packet of `nb_frames` frames, in the order of
/// the bytes, up to the first error.
pub open spec fn extensions_in(bytes: Seq<u8>, nb_frames: int) -> Seq<Ext> {
    Cursor::start(bytes, nb_frames).rest()
}

/// Whether `bytes` hold extensions and nothing else.
pub open spec fn extensions_valid(bytes: Seq<u8>, nb_frames: int) -> bool {
    Cursor::start(bytes, nb_frames).ends_well()
}

/// Most bytes whose extensions can be counted for sure.
pub const COUNTED_EXTENSION_BYTES: i32 = 43_000_000;

/// Whether the extensions in the first `len` bytes can be counted. They can unless there
/// are tens of millions of bytes.
pub open spec fn can_count(bytes: Seq<u8>, len: int, nb_frames: int) -> bool {
    0 < len <= bytes.len() && 0 <= nb_frames <= MAX_FRAMES ==> len <= COUNTED_EXTENSION_BYTES
        || extensions_in(bytes.take(len), nb_frames).len() <= i32::MAX
}

proof fn lemma_can_count(bytes: Seq<u8>, len: int, nb_frames: int)
    requires
        can_count(bytes, len, nb_frames),
    ensures
        0 < len <= bytes.len() && 0 <= nb_frames <= MAX_FRAMES ==> extensions_in(
            bytes.take(len),
            nb_frames,
        ).len() <= i32::MAX,
{
    if 0 < len <= bytes.len() && 0 <= nb_frames <= MAX_FRAMES && len <= COUNTED_EXTENSION_BYTES {
        extensions_are_few(bytes.take(len), nb_frames);
    }
}

/// How many of `exts` belong to the given frame.
pub open spec fn count_in_frame(exts: Seq<Ext>, frame: int) -> int
    decreases exts.len(),
{
    if exts.len() == 0 {
        0
    } else {
        count_in_frame(exts.drop_last(), frame) + if exts.last().frame == frame {
            1int
        } else {
            0
        }
    }
}

// ---------------------------------------------------------------------------
// In the order of the bytes
// ---------------------------------------------------------------------------

/// Counts the extensions in the first `len` bytes of `data`.
pub fn opus_packet_extensions_count(data: &[u8], len: i32, nb_frames: i32) -> (r: i32)
    requires
        can_count(data@, len as int, nb_frames as int),
    ensures
        if len <= 0 {
            r == 0
        } else if nb_frames < 0 || nb_frames > MAX_FRAMES || len > data@.len() {
            r == OPUS_BAD_ARG
        } else {
            r == extensions_in(data@.take(len as int), nb_frames as int).len()
        },
{
    proof {
        lemma_can_count(data@, len as int, nb_frames as int);
    }
    if len <= 0 {
        return 0;
    }
    if nb_frames < 0 || nb_frames > MAX_FRAMES as i32 || (len as usize) > data.len() {
        return OPUS_BAD_ARG;
    }
    let ghost all = extensions_in(data@.take(len as int), nb_frames as int);
    let mut iter = OpusExtensionIterator::new(data, len, nb_frames);
    let mut count: i32 = 0;
    loop
        invariant
            iter.wf(),
            0 < len <= data@.len(),
            0 <= nb_frames <= MAX_FRAMES,
            all == extensions_in(data@.take(len as int), nb_frames as int),
            all.len() == count + iter@.rest().len(),
            all.len() <= i32::MAX,
            0 <= count,
        decreases iter@.rest().len(),
    {
        let ghost before = iter@;
        let (ret, _ext) = iter.next_ext();
        proof {
            before.lemma_next();
        }
        if ret <= 0 {
            return count;
        }
        count = count + 1;
    }
}

/// Reads the extensions in the first `len` bytes of `data` into `extensions`, in
/// the order of the bytes. `nb_extensions` holds how many there is room for, and
/// then how many there were.
pub fn opus_packet_extensions_parse<'a>(
    data: &'a [u8],
    len: i32,
    extensions: &mut [OpusExtensionData<'a>],
    nb_extensions: &mut i32,
    nb_frames: i32,
) -> (r: i32)
    ensures
        final(extensions)@.len() == old(extensions)@.len(),
        ({
            let room = *old(nb_extensions);
            let all = extensions_in(data@.take(len as int), nb_frames as int);
            if nb_frames < 0 || nb_frames > MAX_FRAMES || room < 0 || room > old(extensions)@.len() || len
                > data@.len() {
                &&& r == OPUS_BAD_ARG
                &&& *final(nb_extensions) == room
                &&& final(extensions)@ == old(extensions)@
            } else if len <= 0 {
                &&& r == 0
                &&& *final(nb_extensions) == 0
                &&& final(extensions)@ == old(extensions)@
            } else {
                let got = if all.len() > room { room as int } else { all.len() as int };
                &&& forall|i: int| 0 <= i < got ==> (#[trigger] final(extensions)@[i]).is(all[i])
                &&& forall|i: int|
                    got <= i < old(extensions)@.len() ==> #[trigger] final(extensions)@[i] == old(
                        extensions,
                    )@[i]
                &&& if all.len() > room {
                    &&& r == OPUS_BUFFER_TOO_SMALL
                    &&& *final(nb_extensions) == room
                } else {
                    &&& r == if extensions_valid(data@.take(len as int), nb_frames as int) {
                        0
                    } else {
                        OPUS_INVALID_PACKET
                    }
                    &&& *final(nb_extensions) == all.len()
                }
            }
        }),
{
    if nb_frames < 0 || nb_frames > MAX_FRAMES as i32 {
        return OPUS_BAD_ARG;
    }
    let room: i32 = *nb_extensions;
    if room < 0 || (room as usize) > extensions.len() {
        return OPUS_BAD_ARG;
    }
    if len > 0 && (len as usize) > data.len() {
        return OPUS_BAD_ARG;
    }
    if len <= 0 {
        *nb_extensions = 0;
        return 0;
    }
    let ghost start = Cursor::start(data@.take(len as int), nb_frames as int);
    let ghost all = start.rest();
    let mut iter = OpusExtensionIterator::new(data, len, nb_frames);
    let mut count: i32 = 0;
    proof {
        assert(all.skip(0) =~= all);
    }
    loop
        invariant
            iter.wf(),
            0 <= count <= room <= extensions@.len(),
            count <= all.len(),
            extensions@.len() == old(extensions)@.len(),
            *nb_extensions == room,
            room == *old(nb_extensions),
            all == start.rest(),
            start == Cursor::start(data@.take(len as int), nb_frames as int),
            all.skip(count as int) == iter@.rest(),
            start.ends_well() == iter@.ends_well(),
            forall|i: int| 0 <= i < count ==> (#[trigger] extensions@[i]).is(all[i]),
            forall|i: int|
                count <= i < extensions@.len() ==> #[trigger] extensions@[i] == old(extensions)@[i],
            0 < len <= data@.len(),
            0 <= nb_frames <= MAX_FRAMES,
        decreases iter@.rest().len(),
    {
        let ghost before = iter@;
        let (ret, ext) = iter.next_ext();
        proof {
            before.lemma_next();
            if before.next().0 is Found {
                assert(all.skip(count as int)[0] == all[count as int]);
                assert(all.skip(count + 1) =~= all.skip(count as int).skip(1));
                assert((seq![before.next().0->Found_0] + iter@.rest()).skip(1) =~= iter@.rest());
            }
        }
        if ret <= 0 {
            *nb_extensions = count;
            return ret;
        }
        if count == room {
            return OPUS_BUFFER_TOO_SMALL;
        }
        extensions[count as usize] = ext;
        count = count + 1;
    }
}

// ---------------------------------------------------------------------------
// Frame by frame
// ---------------------------------------------------------------------------

/// Counts the extensions of each frame in the first `len` bytes of `data` into
/// `nb_frame_exts`, and returns how many there are in all.
pub fn opus_packet_extensions_count_ext(
    data: &[u8],
    len: i32,
    nb_frame_exts: &mut [i32],
    nb_frames: i32,
) -> (r: i32)
    requires
        can_count(data@, len as int, nb_frames as int),
    ensures
        final(nb_frame_exts)@.len() == old(nb_frame_exts)@.len(),
        ({
            let all = extensions_in(data@.take(len as int), nb_frames as int);
            if nb_frames < 0 || nb_frames > MAX_FRAMES || nb_frames > old(nb_frame_exts)@.len() || len
                > data@.len() {
                &&& r == OPUS_BAD_ARG
                &&& final(nb_frame_exts)@ == old(nb_frame_exts)@
            } else {
                &&& r == if len <= 0 { 0 } else { all.len() as int }
                &&& forall|f: int|
                    0 <= f < nb_frames ==> #[trigger] final(nb_frame_exts)@[f] == if len <= 0 {
                        0
                    } else {
                        count_in_frame(all, f)
                    }
                &&& forall|f: int|
                    nb_frames <= f < old(nb_frame_exts)@.len() ==> #[trigger] final(nb_frame_exts)@[f]
                        == old(nb_frame_exts)@[f]
            }
        }),
{
    proof {
        lemma_can_count(data@, len as int, nb_frames as int);
    }
    if nb_frames < 0 || nb_frames > MAX_FRAMES as i32 || nb_frames as usize > nb_frame_exts.len() || (
    len > 0 && (len as usize) > data.len()) {
        return OPUS_BAD_ARG;
    }
    let mut f: usize = 0;
    while f < nb_frames as usize
        invariant
            0 <= nb_frames <= nb_frame_exts@.len(),
            f <= nb_frames,
            nb_frame_exts@.len() == old(nb_frame_exts)@.len(),
            forall|g: int| 0 <= g < f ==> #[trigger] nb_frame_exts@[g] == 0,
            forall|g: int|
                f <= g < nb_frame_exts@.len() ==> #[trigger] nb_frame_exts@[g] == old(nb_frame_exts)@[g],
        decreases nb_frames - f,
    {
        nb_frame_exts[f] = 0;
        f = f + 1;
    }
    if len <= 0 {
        return 0;
    }
    let ghost all = extensions_in(data@.take(len as int), nb_frames as int);
    let mut iter = OpusExtensionIterator::new(data, len, nb_frames);
    let mut count: i32 = 0;
    proof {
        assert(all.skip(0) =~= all);
        assert(all.take(0) =~= Seq::<Ext>::empty());
    }
    loop
        invariant
            iter.wf(),
            0 < len <= data@.len(),
            0 <= nb_frames <= MAX_FRAMES,
            nb_frames <= nb_frame_exts@.len(),
            all == extensions_in(data@.take(len as int), nb_frames as int),
            0 <= count <= all.len() <= i32::MAX,
            all.skip(count as int) == iter@.rest(),
            iter@.nb_frames == nb_frames,
            iter@.frame_max == nb_frames,
            nb_frame_exts@.len() == old(nb_frame_exts)@.len(),
            forall|g: int|
                0 <= g < nb_frames ==> #[trigger] nb_frame_exts@[g] == count_in_frame(
                    all.take(count as int),
                    g,
                ),
            forall|g: int|
                0 <= g < nb_frames ==> 0 <= #[trigger] nb_frame_exts@[g] <= count,
            forall|g: int|
                nb_frames <= g < nb_frame_exts@.len() ==> #[trigger] nb_frame_exts@[g] == old(
                    nb_frame_exts,
                )@[g],
        decreases iter@.rest().len(),
    {
        let ghost before = iter@;
        let (ret, ext) = iter.next_ext();
        proof {
            before.lemma_next();
            if before.next().0 is Found {
                assert(all.skip(count as int)[0] == all[count as int]);
                assert(all.skip(count + 1) =~= all.skip(count as int).skip(1));
                assert((seq![before.next().0->Found_0] + iter@.rest()).skip(1) =~= iter@.rest());
                assert(all.take(count + 1).drop_last() =~= all.take(count as int));
            } else {
                assert(all.take(count as int) =~= all);
            }
        }
        if ret <= 0 {
            return count;
        }
        nb_frame_exts[ext.frame as usize] = nb_frame_exts[ext.frame as usize] + 1;
        count = count + 1;
    }
}

/// Extensions in the frames before `frame`, by the given counts.
pub open spec fn frame_start(counts: Seq<i32>, frame: int) -> int
    decreases frame,
{
    if frame <= 0 {
        0
    } else {
        frame_start(counts, frame - 1) + counts[frame - 1]
    }
}

/// Whether the counts of `nb_frames` frames are counts at all.
pub open spec fn counts_valid(counts: Seq<i32>, nb_frames: int) -> bool {
    &&& forall|f: int| 0 <= f < nb_frames ==> 0 <= #[trigger] counts[f]
    &&& frame_start(counts, nb_frames) <= i32::MAX
}

/// Where extension `i` goes: behind the extensions of earlier frames, and behind
/// those of its own frame that come before it.
pub open spec fn slot(all: Seq<Ext>, counts: Seq<i32>, i: int) -> int {
    frame_start(counts, all[i].frame) + count_in_frame(all.take(i), all[i].frame)
}

/// How many extensions come, from number `i` on, before one that has no room.
pub open spec fn fitting(all: Seq<Ext>, counts: Seq<i32>, room: int, i: int) -> int
    decreases all.len() - i,
{
    if i >= all.len() || slot(all, counts, i) >= room {
        i
    } else {
        fitting(all, counts, room, i + 1)
    }
}

/// What `size` slots hold once the first `n` extensions are in theirs.
pub open spec fn filled(all: Seq<Ext>, counts: Seq<i32>, size: nat, n: int) -> Seq<Option<Ext>>
    decreases n,
{
    if n <= 0 {
        Seq::new(size, |j: int| None)
    } else {
        filled(all, counts, size, n - 1).update(slot(all, counts, n - 1), Some(all[n - 1]))
    }
}

/// Reads the extensions in the first `len` bytes of `data` into `extensions`,
/// frame by frame. `nb_frame_exts` says how many extensions each frame has, as
/// [`opus_packet_extensions_count_ext`] counts them.
pub fn opus_packet_extensions_parse_ext<'a>(
    data: &'a [u8],
    len: i32,
    extensions: &mut [OpusExtensionData<'a>],
    nb_extensions: &mut i32,
    nb_frame_exts: &[i32],
    nb_frames: i32,
) -> (r: i32)
    requires
        can_count(data@, len as int, nb_frames as int),
    ensures
        final(extensions)@.len() == old(extensions)@.len(),
        ({
            let room = *old(nb_extensions);
            let counts = nb_frame_exts@;
            let all = extensions_in(data@.take(len as int), nb_frames as int);
            if nb_frames < 0 || nb_frames > MAX_FRAMES || nb_frames > counts.len() || len > data@.len() || room
                < 0 || room > old(extensions)@.len() || !counts_valid(counts, nb_frames as int) {
                &&& r == OPUS_BAD_ARG
                &&& *final(nb_extensions) == room
                &&& final(extensions)@ == old(extensions)@
            } else if len <= 0 {
                &&& r == OPUS_OK
                &&& *final(nb_extensions) == 0
                &&& final(extensions)@ == old(extensions)@
            } else {
                let n = fitting(all, counts, room as int, 0);
                &&& forall|j: int|
                    0 <= j < old(extensions)@.len() ==> match filled(
                        all,
                        counts,
                        old(extensions)@.len(),
                        n,
                    )[j] {
                        Some(e) => (#[trigger] final(extensions)@[j]).is(e),
                        None => final(extensions)@[j] == old(extensions)@[j],
                    }
                &&& if n < all.len() {
                    &&& r == OPUS_BUFFER_TOO_SMALL
                    &&& *final(nb_extensions) == room
                } else {
                    &&& r == if extensions_valid(data@.take(len as int), nb_frames as int) {
                        OPUS_OK
                    } else {
                        OPUS_INVALID_PACKET
                    }
                    &&& *final(nb_extensions) == all.len()
                }
            }
        }),
{
    proof {
        lemma_can_count(data@, len as int, nb_frames as int);
    }
    if nb_frames < 0 || nb_frames > MAX_FRAMES as i32 {
        return OPUS_BAD_ARG;
    }
    if nb_frames as usize > nb_frame_exts.len() || (len > 0 && (len as usize) > data.len()) {
        return OPUS_BAD_ARG;
    }
    let room: i32 = *nb_extensions;
    if room < 0 || (room as usize) > extensions.len() {
        return OPUS_BAD_ARG;
    }
    let ghost counts = nb_frame_exts@;
    let mut next_slot: [i32; MAX_FRAMES] = [0; MAX_FRAMES];
    let mut sum: i32 = 0;
    let mut f: usize = 0;
    while f < nb_frames as usize
        invariant
            f <= nb_frames <= nb_frame_exts@.len(),
            nb_frames <= MAX_FRAMES,
            counts == nb_frame_exts@,
            sum == frame_start(counts, f as int),
            0 <= sum,
            forall|g: int| 0 <= g < f ==> 0 <= #[trigger] counts[g],
            forall|g: int| 0 <= g < f ==> #[trigger] next_slot[g] == frame_start(counts, g),
            forall|g: int| 0 <= g < f ==> 0 <= #[trigger] next_slot[g],
            extensions@ == old(extensions)@,
            *nb_extensions == *old(nb_extensions),
            0 <= room <= extensions@.len(),
            room == *old(nb_extensions),
            len <= data@.len(),
        decreases nb_frames - f,
    {
        let n: i32 = nb_frame_exts[f];
        if n < 0 {
            proof {
                assert(counts[f as int] < 0);
            }
            return OPUS_BAD_ARG;
        }
        next_slot[f] = sum;
        match sum.checked_add(n) {
            Some(total) => {
                sum = total;
            },
            None => {
                proof {
                    if counts_valid(counts, nb_frames as int) {
                        lemma_frame_start_monotone(counts, f + 1, nb_frames as int);
                    }
                }
                return OPUS_BAD_ARG;
            },
        }
        f = f + 1;
    }
    if len <= 0 {
        *nb_extensions = 0;
        return OPUS_OK;
    }
    let ghost start = Cursor::start(data@.take(len as int), nb_frames as int);
    let ghost all = start.rest();
    let ghost size = extensions@.len();
    let mut iter = OpusExtensionIterator::new(data, len, nb_frames);
    let mut count: i32 = 0;
    proof {
        assert(all.skip(0) =~= all);
        assert(all.take(0) =~= Seq::<Ext>::empty());
    }
    let ghost mut done: int = 0;
    loop
        invariant
            iter.wf(),
            0 < len <= data@.len(),
            0 <= nb_frames <= MAX_FRAMES,
            nb_frames <= nb_frame_exts@.len(),
            counts == nb_frame_exts@,
            counts_valid(counts, nb_frames as int),
            start == Cursor::start(data@.take(len as int), nb_frames as int),
            all == start.rest(),
            0 <= done <= all.len() <= i32::MAX,
            all.skip(done) == iter@.rest(),
            start.ends_well() == iter@.ends_well(),
            iter@.nb_frames == nb_frames,
            iter@.frame_max == nb_frames,
            size == extensions@.len() == old(extensions)@.len(),
            0 <= room <= size,
            room == *old(nb_extensions),
            *nb_extensions == room,
            fitting(all, counts, room as int, 0) == fitting(all, counts, room as int, done),
            forall|g: int|
                0 <= g < nb_frames ==> #[trigger] next_slot[g] == frame_start(counts, g)
                    + count_in_frame(all.take(done), g),
            forall|g: int| 0 <= g < nb_frames ==> 0 <= #[trigger] next_slot[g],
            count == done,
            filled(all, counts, size, done).len() == size,
            forall|j: int|
                0 <= j < size ==> match filled(all, counts, size, done)[j] {
                    Some(e) => (#[trigger] extensions@[j]).is(e),
                    None => extensions@[j] == old(extensions)@[j],
                },
        decreases iter@.rest().len(),
    {
        let ghost before = iter@;
        let (ret, ext) = iter.next_ext();
        proof {
            before.lemma_next();
            if before.next().0 is Found {
                assert(all.skip(done)[0] == all[done]);
                assert(all.skip(done + 1) =~= all.skip(done).skip(1));
                assert((seq![before.next().0->Found_0] + iter@.rest()).skip(1) =~= iter@.rest());
                assert(all.take(done + 1).drop_last() =~= all.take(done));
            }
        }
        if ret <= 0 {
            *nb_extensions = count;
            return ret;
        }
        let index: i32 = next_slot[ext.frame as usize];
        if index >= room {
            return OPUS_BUFFER_TOO_SMALL;
        }
        extensions[index as usize] = ext;
        next_slot[ext.frame as usize] = index + 1;
        count = count + 1;
        proof {
            done = done + 1;
        }
    }
}

proof fn lemma_frame_start_monotone(counts: Seq<i32>, f: int, g: int)
    requires
        0 <= f <= g,
        forall|h: int| 0 <= h < g ==> 0 <= #[trigger] counts[h],
    ensures
        frame_start(counts, f) <= frame_start(counts, g),
    decreases g,
{
    if f < g {
        lemma_frame_start_monotone(counts, f, g - 1);
    }
}

// ---------------------------------------------------------------------------
// The order frame by frame
// ---------------------------------------------------------------------------

/// How many of `exts` belong to frames before the given one.
pub open spec fn count_before_frame(exts: Seq<Ext>, frame: int) -> int
    decreases exts.len(),
{
    if exts.len() == 0 {
        0
    } else {
        count_before_frame(exts.drop_last(), frame) + if exts.last().frame < frame {
            1int
        } else {
            0
        }
    }
}

pub proof fn lemma_count_before_next(exts: Seq<Ext>, frame: int)
    ensures
        count_before_frame(exts, frame + 1) == count_before_frame(exts, frame) + count_in_frame(
            exts,
            frame,
        ),
    decreases exts.len(),
{
    if exts.len() > 0 {
        lemma_count_before_next(exts.drop_last(), frame);
    }
}

pub proof fn lemma_count_before_bounds(exts: Seq<Ext>, f: int, g: int)
    requires
        f <= g,
    ensures
        0 <= count_before_frame(exts, f) <= count_before_frame(exts, g) <= exts.len(),
        0 <= count_in_frame(exts, f) <= exts.len(),
        (forall|i: int| 0 <= i < exts.len() ==> 0 <= (#[trigger] exts[i]).frame) ==> count_before_frame(
            exts,
            0,
        ) == 0,
        (forall|i: int| 0 <= i < exts.len() ==> (#[trigger] exts[i]).frame < g) ==> count_before_frame(
            exts,
            g,
        ) == exts.len(),
    decreases exts.len(),
{
    if exts.len() > 0 {
        lemma_count_before_bounds(exts.drop_last(), f, g);
        assert forall|i: int| 0 <= i < exts.len() - 1 implies exts.drop_last()[i] == exts[i] by {}
    }
}

proof fn lemma_count_in_take(exts: Seq<Ext>, frame: int, i: int, j: int)
    requires
        0 <= i < j <= exts.len(),
    ensures
        count_in_frame(exts.take(i), frame) <= count_in_frame(exts.take(j), frame),
        exts[i].frame == frame ==> count_in_frame(exts.take(i), frame) < count_in_frame(
            exts.take(j),
            frame,
        ),
    decreases j,
{
    assert(exts.take(j).drop_last() =~= exts.take(j - 1));
    if i < j - 1 {
        lemma_count_in_take(exts, frame, i, j - 1);
    }
}

pub proof fn lemma_frame_start_counts(all: Seq<Ext>, counts: Seq<i32>, nb_frames: int, frame: int)
    requires
        0 <= frame <= nb_frames,
        forall|f: int| 0 <= f < nb_frames ==> #[trigger] counts[f] == count_in_frame(all, f),
        forall|i: int| 0 <= i < all.len() ==> 0 <= (#[trigger] all[i]).frame,
    ensures
        frame_start(counts, frame) == count_before_frame(all, frame),
    decreases frame,
{
    lemma_count_before_bounds(all, 0, 0);
    if frame > 0 {
        lemma_frame_start_counts(all, counts, nb_frames, frame - 1);
        lemma_count_before_next(all, frame - 1);
    }
}

proof fn lemma_slot_bounds(all: Seq<Ext>, counts: Seq<i32>, nb_frames: int, i: int)
    requires
        0 <= i < all.len(),
        forall|f: int| 0 <= f < nb_frames ==> #[trigger] counts[f] == count_in_frame(all, f),
        forall|k: int| 0 <= k < all.len() ==> 0 <= (#[trigger] all[k]).frame < nb_frames,
    ensures
        count_before_frame(all, all[i].frame) <= slot(all, counts, i) < count_before_frame(
            all,
            all[i].frame + 1,
        ),
        0 <= slot(all, counts, i) < all.len(),
{
    let f = all[i].frame;
    lemma_frame_start_counts(all, counts, nb_frames, f);
    lemma_count_before_next(all, f);
    lemma_count_in_take(all, f, i, all.len() as int);
    assert(all.take(all.len() as int) =~= all);
    lemma_count_before_bounds(all, f, f + 1);
    lemma_count_before_bounds(all.take(i), f, f);
}

proof fn lemma_slot_order(all: Seq<Ext>, counts: Seq<i32>, nb_frames: int, i: int, j: int)
    requires
        0 <= i < all.len(),
        0 <= j < all.len(),
        forall|f: int| 0 <= f < nb_frames ==> #[trigger] counts[f] == count_in_frame(all, f),
        forall|k: int| 0 <= k < all.len() ==> 0 <= (#[trigger] all[k]).frame < nb_frames,
        all[i].frame < all[j].frame || (all[i].frame == all[j].frame && i < j),
    ensures
        slot(all, counts, i) < slot(all, counts, j),
{
    if all[i].frame < all[j].frame {
        lemma_slot_bounds(all, counts, nb_frames, i);
        lemma_slot_bounds(all, counts, nb_frames, j);
        lemma_count_before_bounds(all, all[i].frame + 1, all[j].frame);
    } else {
        lemma_count_in_take(all, all[i].frame, i, j);
    }
}

proof fn lemma_fitting_all(all: Seq<Ext>, counts: Seq<i32>, room: int, i: int)
    requires
        0 <= i <= all.len(),
        forall|k: int| 0 <= k < all.len() ==> #[trigger] slot(all, counts, k) < room,
    ensures
        fitting(all, counts, room, i) == all.len(),
    decreases all.len() - i,
{
    if i < all.len() {
        lemma_fitting_all(all, counts, room, i + 1);
    }
}

proof fn lemma_filled(all: Seq<Ext>, counts: Seq<i32>, size: nat, n: int)
    requires
        0 <= n <= all.len(),
        forall|k: int| 0 <= k < all.len() ==> 0 <= #[trigger] slot(all, counts, k) < size,
        forall|i: int, j: int|
            0 <= i < all.len() && 0 <= j < all.len() && i != j ==> #[trigger] slot(all, counts, i)
                != #[trigger] slot(all, counts, j),
    ensures
        filled(all, counts, size, n).len() == size,
        forall|i: int|
            0 <= i < n ==> filled(all, counts, size, n)[#[trigger] slot(all, counts, i)] == Some(all[i]),
    decreases n,
{
    if n > 0 {
        lemma_filled(all, counts, size, n - 1);
    }
}

/// With the true number of extensions of each frame and room for all of them,
/// reading frame by frame stores every extension, each in a slot of its own, a
/// frame behind the frames before it, and within a frame in the order of the bytes.
pub proof fn frame_order(all: Seq<Ext>, counts: Seq<i32>, nb_frames: int, room: int, size: nat)
    requires
        all.len() <= room <= size,
        forall|f: int| 0 <= f < nb_frames ==> #[trigger] counts[f] == count_in_frame(all, f),
        forall|k: int| 0 <= k < all.len() ==> 0 <= (#[trigger] all[k]).frame < nb_frames,
    ensures
        fitting(all, counts, room, 0) == all.len(),
        forall|i: int|
            0 <= i < all.len() ==> {
                &&& 0 <= #[trigger] slot(all, counts, i) < all.len()
                &&& filled(all, counts, size, all.len() as int)[slot(all, counts, i)] == Some(all[i])
            },
        forall|i: int, j: int|
            0 <= i < all.len() && 0 <= j < all.len() && (all[i].frame < all[j].frame || (all[i].frame
                == all[j].frame && i < j)) ==> #[trigger] slot(all, counts, i) < #[trigger] slot(
                all,
                counts,
                j,
            ),
{
    assert forall|i: int| 0 <= i < all.len() implies 0 <= #[trigger] slot(all, counts, i) < all.len() by {
        lemma_slot_bounds(all, counts, nb_frames, i);
    }
    assert forall|i: int, j: int|
        0 <= i < all.len() && 0 <= j < all.len() && (all[i].frame < all[j].frame || (all[i].frame
            == all[j].frame && i < j)) implies #[trigger] slot(all, counts, i) < #[trigger] slot(
        all,
        counts,
        j,
    ) by {
        lemma_slot_order(all, counts, nb_frames, i, j);
    }
    lemma_fitting_all(all, counts, room, 0);
    lemma_filled(all, counts, size, all.len() as int);
}

/// Every extension read from a packet belongs to one of its frames.
pub proof fn extensions_in_frames(bytes: Seq<u8>, nb_frames: int)
    requires
        0 <= nb_frames <= MAX_FRAMES,
        bytes.len() <= i32::MAX,
    ensures
        forall|i: int|
            0 <= i < extensions_in(bytes, nb_frames).len() ==> 0 <= (#[trigger] extensions_in(
                bytes,
                nb_frames,
            )[i]).frame < nb_frames,
{
    lemma_rest_frames(Cursor::start(bytes, nb_frames));
}

proof fn lemma_rest_frames(c: Cursor)
    requires
        c.ok(),
        c.frame_max <= c.nb_frames,
    ensures
        forall|i: int| 0 <= i < c.rest().len() ==> 0 <= (#[trigger] c.rest()[i]).frame < c.nb_frames,
    decreases c.rest().len(),
{
    c.lemma_next();
    if let (Step::Found(e), d) = c.next() {
        lemma_rest_frames(d);
        assert(c.rest() == seq![e] + d.rest());
    }
}

// ---------------------------------------------------------------------------
// Starting over
// ---------------------------------------------------------------------------

/// Whether two iterators are in the same state, but for what a past repeat left behind.
spec fn same_state(c: Cursor, d: Cursor) -> bool {
    &&& c.ok()
    &&& d.ok()
    &&& c == d || (c.repeat_frame == 0 && c == (Cursor {
        repeat_flag: c.repeat_flag,
        repeat_len: c.repeat_len,
        src_pos: c.src_pos,
        src_len: c.src_len,
        ..d
    }))
}

proof fn lemma_same_scan(c: Cursor, d: Cursor)
    requires
        same_state(c, d),
        c.left >= 0,
        c.repeat_frame == 0,
    ensures
        c.scan().0 == d.scan().0,
        same_state(c.scan().1, d.scan().1),
    decreases c.left,
{
    c.lemma_scan();
    d.lemma_scan();
    if c.left > 0 {
        lemma_extension_at(c.tail());
        assert(c.tail() == d.tail());
        if let Some((n, len)) = extension_at(c.tail()) {
            let id = c.tail()[0] as int / 2;
            let flag = c.tail()[0] as int % 2;
            let c1 = Cursor { pos: c.pos + n + len, left: c.left - n - len, ..c };
            let d1 = Cursor { pos: d.pos + n + len, left: d.left - n - len, ..d };
            if id == 0 {
                lemma_same_scan(c1, d1);
            } else if id == 1 {
                let step = if flag == 0 {
                    1
                } else {
                    c.tail()[1] as int
                };
                let frame = c.frame + step;
                if step == 0 {
                    lemma_same_scan(c1, d1);
                } else if frame < c.nb_frames {
                    let left = if frame >= c.frame_max {
                        0
                    } else {
                        c1.left
                    };
                    let c2 = Cursor {
                        frame,
                        left,
                        repeat_pos: c1.pos,
                        last_long: None,
                        trailing: 0,
                        ..c1
                    };
                    let d2 = Cursor {
                        frame,
                        left,
                        repeat_pos: d1.pos,
                        last_long: None,
                        trailing: 0,
                        ..d1
                    };
                    lemma_same_scan(c2, d2);
                }
            } else if id == 2 {
                let b = c.begin_repeat(flag, c1.pos, c1.left);
                assert(b == d.begin_repeat(flag, d1.pos, d1.left));
                b.lemma_next_repeat();
                match b.next_repeat() {
                    (Step::Done, e) => lemma_same_scan(e, e),
                    _ => {},
                }
            }
        }
    }
}

proof fn lemma_same_rest(c: Cursor, d: Cursor)
    requires
        same_state(c, d),
    ensures
        c.rest() == d.rest(),
        c.ends_well() == d.ends_well(),
    decreases c.rest().len(),
{
    c.lemma_next();
    d.lemma_next();
    if c != d && c.left >= 0 {
        lemma_same_scan(c, d);
    }
    if let Step::Found(e) = c.next().0 {
        lemma_same_rest(c.next().1, d.next().1);
    }
}

/// An iterator that starts over comes upon the same extensions as a new one with the
/// same frame limit, wherever it was before.
pub proof fn reset_starts_over(c: Cursor)
    requires
        c.ok(),
    ensures
        ({
            let reset = Cursor {
                pos: 0,
                repeat_pos: 0,
                last_long: None,
                left: c.bytes.len() as int,
                frame: 0,
                repeat_frame: 0,
                trailing: 0,
                ..c
            };
            let fresh = Cursor { frame_max: c.frame_max, ..Cursor::start(c.bytes, c.nb_frames) };
            &&& reset.rest() == fresh.rest()
            &&& reset.ends_well() == fresh.ends_well()
        }),
{
    let reset = Cursor {
        pos: 0,
        repeat_pos: 0,
        last_long: None,
        left: c.bytes.len() as int,
        frame: 0,
        repeat_frame: 0,
        trailing: 0,
        ..c
    };
    let fresh = Cursor { frame_max: c.frame_max, ..Cursor::start(c.bytes, c.nb_frames) };
    lemma_same_rest(reset, fresh);
}

} // verus!
