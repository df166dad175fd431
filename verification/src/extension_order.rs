//! Extensions frame by frame: how many each frame has, and in which order they are read.

use vstd::prelude::*;
use crate::codes::MAX_FRAMES;
use crate::extension_gen::{generated, generated_fits, in_range, of_frame};
use crate::extension_iter::{Ext, Item};
use crate::extension_law::{ext_of, exts_of_frame, extensions_round_trip};
use crate::extensions::{
    count_before_frame, count_in_frame, counts_valid, extensions_in, extensions_in_frames, extensions_valid,
    filled, fitting, frame_order, lemma_count_before_bounds, lemma_count_before_next,
    lemma_frame_start_counts, slot,
};

verus! {

// ---------------------------------------------------------------------------
// Counts
// ---------------------------------------------------------------------------

/// How many extensions the first `n` frames have.
pub open spec fn counted(exts: Seq<Ext>, n: int) -> int
    decreases n,
{
    if n <= 0 {
        0
    } else {
        counted(exts, n - 1) + count_in_frame(exts, n - 1)
    }
}

proof fn lemma_counted(exts: Seq<Ext>, n: int)
    requires
        0 <= n,
        forall|i: int| 0 <= i < exts.len() ==> 0 <= (#[trigger] exts[i]).frame,
    ensures
        counted(exts, n) == count_before_frame(exts, n),
    decreases n,
{
    lemma_count_before_bounds(exts, 0, 0);
    if n > 0 {
        lemma_counted(exts, n - 1);
        lemma_count_before_next(exts, n - 1);
    }
}

/// The extensions of the frames add up to all of them.
pub proof fn counts_add_up(bytes: Seq<u8>, nb_frames: int)
    requires
        0 <= nb_frames <= MAX_FRAMES,
        bytes.len() <= i32::MAX,
    ensures
        counted(extensions_in(bytes, nb_frames), nb_frames) == extensions_in(bytes, nb_frames).len(),
{
    let all = extensions_in(bytes, nb_frames);
    extensions_in_frames(bytes, nb_frames);
    lemma_counted(all, nb_frames);
    lemma_count_before_bounds(all, 0, nb_frames);
}

// ---------------------------------------------------------------------------
// Order
// ---------------------------------------------------------------------------

/// The extensions of the first `n` frames, sorted by frame; those of one frame stay in
/// their order.
pub open spec fn by_frames(exts: Seq<Ext>, n: int) -> Seq<Ext>
    decreases n,
{
    if n <= 0 {
        Seq::empty()
    } else {
        by_frames(exts, n - 1) + exts_of_frame(exts, n - 1)
    }
}

/// Extensions to be written, sorted in the same way.
pub open spec fn items_by_frames(exts: Seq<Item>, n: int) -> Seq<Item>
    decreases n,
{
    if n <= 0 {
        Seq::empty()
    } else {
        items_by_frames(exts, n - 1) + of_frame(exts, n - 1)
    }
}

proof fn lemma_frame_count(exts: Seq<Ext>, frame: int)
    ensures
        exts_of_frame(exts, frame).len() == count_in_frame(exts, frame),
    decreases exts.len(),
{
    if exts.len() > 0 {
        lemma_frame_count(exts.drop_last(), frame);
    }
}

/// Where number `j` of a frame stands among all extensions.
proof fn lemma_nth(exts: Seq<Ext>, frame: int, j: int) -> (i: int)
    requires
        0 <= j < exts_of_frame(exts, frame).len(),
    ensures
        0 <= i < exts.len(),
        exts[i].frame == frame,
        count_in_frame(exts.take(i), frame) == j,
        exts_of_frame(exts, frame)[j] == exts[i],
    decreases exts.len(),
{
    let front = exts.drop_last();
    lemma_frame_count(front, frame);
    if exts.last().frame == frame && j == exts_of_frame(front, frame).len() {
        assert(exts.take(exts.len() - 1) =~= front);
        exts.len() - 1
    } else {
        let i = lemma_nth(front, frame, j);
        assert(exts.take(i) =~= front.take(i));
        i
    }
}

/// What stands at a place among the sorted extensions, and where it stood before.
proof fn lemma_sorted_at(exts: Seq<Ext>, n: int, k: int) -> (i: int)
    requires
        0 <= n,
        0 <= k < by_frames(exts, n).len(),
        forall|i: int| 0 <= i < exts.len() ==> 0 <= (#[trigger] exts[i]).frame,
    ensures
        0 <= i < exts.len(),
        0 <= exts[i].frame < n,
        by_frames(exts, n)[k] == exts[i],
        k == count_before_frame(exts, exts[i].frame) + count_in_frame(
            exts.take(i),
            exts[i].frame,
        ),
    decreases n,
{
    lemma_sorted_len(exts, n - 1);
    if k < by_frames(exts, n - 1).len() {
        lemma_sorted_at(exts, n - 1, k)
    } else {
        lemma_nth(exts, n - 1, k - by_frames(exts, n - 1).len())
    }
}

proof fn lemma_sorted_len(exts: Seq<Ext>, n: int)
    requires
        forall|i: int| 0 <= i < exts.len() ==> 0 <= (#[trigger] exts[i]).frame,
    ensures
        by_frames(exts, n).len() == if n <= 0 {
            0
        } else {
            count_before_frame(exts, n)
        },
        n == 0 ==> count_before_frame(exts, n) == 0,
    decreases n,
{
    lemma_count_before_bounds(exts, 0, 0);
    if n > 0 {
        lemma_sorted_len(exts, n - 1);
        lemma_count_before_next(exts, n - 1);
        lemma_frame_count(exts, n - 1);
    }
}

/// With the true number of extensions of each frame and room for all of them, reading frame
/// by frame gives the extensions sorted by frame, those of one frame in the order of the
/// bytes.
pub proof fn reading_sorts_by_frame(
    all: Seq<Ext>,
    counts: Seq<i32>,
    nb_frames: int,
    room: int,
    size: nat,
)
    requires
        all.len() <= room <= size,
        0 <= nb_frames,
        forall|f: int| 0 <= f < nb_frames ==> #[trigger] counts[f] == count_in_frame(all, f),
        forall|k: int| 0 <= k < all.len() ==> 0 <= (#[trigger] all[k]).frame < nb_frames,
    ensures
        fitting(all, counts, room, 0) == all.len(),
        by_frames(all, nb_frames).len() == all.len(),
        forall|k: int|
            0 <= k < all.len() ==> #[trigger] filled(all, counts, size, all.len() as int)[k] == Some(
                by_frames(all, nb_frames)[k],
            ),
{
    frame_order(all, counts, nb_frames, room, size);
    lemma_sorted_len(all, nb_frames);
    lemma_count_before_bounds(all, 0, nb_frames);
    if nb_frames == 0 {
        assert(all.len() == 0) by {
            if all.len() > 0 {
                assert(all[0].frame < 0);
            }
        }
    }
    assert forall|k: int| 0 <= k < all.len() implies #[trigger] filled(
        all,
        counts,
        size,
        all.len() as int,
    )[k] == Some(by_frames(all, nb_frames)[k]) by {
        let i = lemma_sorted_at(all, nb_frames, k);
        lemma_frame_start_counts(all, counts, nb_frames, all[i].frame);
        assert(slot(all, counts, i) == k);
    }
}

/// What is read of each frame is what was given for it, so the sorted lists agree.
proof fn lemma_sorted_agree(all: Seq<Ext>, exts: Seq<Item>, n: int)
    requires
        forall|f: int|
            0 <= f < n ==> #[trigger] exts_of_frame(all, f) == of_frame(exts, f).map_values(
                |e: Item| ext_of(e),
            ),
    ensures
        by_frames(all, n) =~= items_by_frames(exts, n).map_values(|e: Item| ext_of(e)),
    decreases n,
{
    if n > 0 {
        lemma_sorted_agree(all, exts, n - 1);
        assert(exts_of_frame(all, n - 1) == of_frame(exts, n - 1).map_values(|e: Item| ext_of(e)));
    }
}

/// How many of the items belong to frames below `n`.
spec fn items_below(exts: Seq<Item>, n: int) -> int
    decreases exts.len(),
{
    if exts.len() == 0 {
        0
    } else {
        items_below(exts.drop_last(), n) + if 0 <= exts.last().frame < n {
            1int
        } else {
            0
        }
    }
}

proof fn lemma_items_below(exts: Seq<Item>, n: int)
    requires
        0 <= n,
    ensures
        items_below(exts, n + 1) == items_below(exts, n) + of_frame(exts, n).len(),
        items_below(exts, 0) == 0,
        in_range(exts, n) ==> items_below(exts, n) == exts.len(),
    decreases exts.len(),
{
    if exts.len() > 0 {
        lemma_items_below(exts.drop_last(), n);
        if in_range(exts, n) {
            assert forall|i: int| 0 <= i < exts.drop_last().len() implies {
                &&& 0 <= (#[trigger] exts.drop_last()[i]).frame < n
                &&& 3 <= exts.drop_last()[i].id <= 127
            } by {
                assert(exts.drop_last()[i] == exts[i]);
            }
            assert(exts.last() == exts[exts.len() - 1]);
        }
    }
}

proof fn lemma_items_len(exts: Seq<Item>, n: int)
    requires
        0 <= n,
    ensures
        items_by_frames(exts, n).len() == items_below(exts, n),
    decreases n,
{
    lemma_items_below(exts, n);
    if n > 0 {
        lemma_items_len(exts, n - 1);
        lemma_items_below(exts, n - 1);
    }
}

/// Nothing is lost, doubled or reordered within a frame: extensions that were generated,
/// counted and then read frame by frame come back sorted by frame, with all of their
/// payloads.
pub proof fn generated_reads_frame_by_frame(
    exts: Seq<Item>,
    nb_frames: int,
    len: int,
    pad: bool,
    counts: Seq<i32>,
    room: int,
    size: nat,
)
    requires
        0 <= nb_frames <= MAX_FRAMES,
        0 <= len <= i32::MAX,
        generated(exts, nb_frames, len, pad).0 >= 0,
        exts.len() <= room <= size,
        forall|f: int|
            0 <= f < nb_frames ==> #[trigger] counts[f] == count_in_frame(
                extensions_in(generated(exts, nb_frames, len, pad).1, nb_frames),
                f,
            ),
    ensures
        ({
            let bytes = generated(exts, nb_frames, len, pad).1;
            let all = extensions_in(bytes, nb_frames);
            &&& extensions_valid(bytes, nb_frames)
            &&& all.len() == exts.len()
            &&& items_by_frames(exts, nb_frames).len() == exts.len()
            &&& room <= i32::MAX ==> counts_valid(counts, nb_frames)
            &&& fitting(all, counts, room, 0) == all.len()
            &&& forall|k: int|
                0 <= k < exts.len() ==> #[trigger] filled(all, counts, size, all.len() as int)[k]
                    == Some(ext_of(items_by_frames(exts, nb_frames)[k]))
        }),
{
    let bytes = generated(exts, nb_frames, len, pad).1;
    let all = extensions_in(bytes, nb_frames);
    generated_fits(exts, nb_frames, len, pad);
    extensions_in_frames(bytes, nb_frames);
    assert forall|f: int| 0 <= f < nb_frames implies #[trigger] exts_of_frame(all, f) == of_frame(
        exts,
        f,
    ).map_values(|e: Item| ext_of(e)) by {
        extensions_round_trip(exts, nb_frames, len, pad, f);
    }
    lemma_sorted_agree(all, exts, nb_frames);
    lemma_items_len(exts, nb_frames);
    lemma_items_below(exts, nb_frames);
    lemma_sorted_len(all, nb_frames);
    lemma_count_before_bounds(all, 0, nb_frames);
    if nb_frames > 0 {
        extensions_round_trip(exts, nb_frames, len, pad, 0);
    } else {
        if exts.len() > 0 {
            assert(0 <= exts[0].frame < nb_frames);
        }
        if all.len() > 0 {
            assert(all[0].frame < 0);
        }
        lemma_nothing_valid(bytes);
    }
    reading_sorts_by_frame(all, counts, nb_frames, room, size);
    assert forall|f: int| 0 <= f < nb_frames implies 0 <= #[trigger] counts[f] by {
        lemma_count_before_bounds(all, f, f);
    }
    lemma_frame_start_counts(all, counts, nb_frames, nb_frames);
}

/// Without frames there is nothing to read.
proof fn lemma_nothing_valid(bytes: Seq<u8>)
    requires
        bytes.len() <= i32::MAX,
    ensures
        extensions_valid(bytes, 0),
{
    crate::extension_iter::Cursor::start(bytes, 0).lemma_next();
}

} // verus!
