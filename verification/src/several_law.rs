//! What holds of packets of several frames.

use vstd::prelude::*;
use crate::arith::tdiv;
use crate::codes::MAX_FRAME_BYTES;
use crate::dred::dred_rate_is_bounded;
use crate::encoder::{valid_mode, OpusEncoder};
use crate::extension_iter::Item;
use crate::modes::MODE_SILK_ONLY;
use crate::packet::{layout, lemma_layout, lemma_samples_per_frame, samples_per_frame};
use crate::packing::{joined, lemma_size_header_len, packed, same_size};
use crate::packing_law::{minimal, packed_is_minimal, packed_pads};
use crate::padding::{nothing_held, out_round_trip, padding_items};
use crate::plan::{FramePlan, MAX_PACKET_BYTES};
use crate::plan_law::{lemma_parts, lemma_quotient};
use crate::rates::codable_size;
use crate::repacketizer::{all_readable, held_pad, stored_items, Pad};
use crate::several::{
    gathered, head_bytes, joined_packets, left_out, part_size, taken, Split,
};

verus! {

/// Packets of one frame each, all of the kind of `toc`, that last no more than 120 ms
/// together. They may be padded, but not with extensions.
pub open spec fn are_parts(packets: Seq<Vec<u8>>, toc: u8) -> bool {
    &&& packets.len() * samples_per_frame(toc, 8000) <= 960
    &&& forall|i: int| 0 <= i < packets.len() ==> is_part((#[trigger] packets[i])@, toc)
}

/// A packet of one frame, of the kind of `toc`, without extensions.
pub open spec fn is_part(s: Seq<u8>, toc: u8) -> bool {
    &&& s.len() >= 1
    &&& s[0] / 4 == toc / 4
    &&& layout(s, false) matches Some(l) && l.sizes.len() == 1 && held_pad(s, l, 0).readable()
    &&& padding_items(s).len() == 0
}

/// Bytes of the first `k` packets.
pub open spec fn bytes_of(packets: Seq<Vec<u8>>, k: int) -> int
    decreases k,
{
    if k <= 0 {
        0
    } else {
        bytes_of(packets, k - 1) + packets[k - 1]@.len()
    }
}

/// The frames of packets of one frame each.
pub open spec fn frames_of(packets: Seq<Vec<u8>>, k: int) -> Seq<Seq<u8>> {
    Seq::new(k as nat, |i: int| layout(packets[i]@, false).unwrap().frames(packets[i]@)[0])
}

/// A part's frame is shorter than the part, and its padding holds nothing.
proof fn lemma_part(s: Seq<u8>, toc: u8)
    requires
        is_part(s, toc),
    ensures
        ({
            let l = layout(s, false).unwrap();
            &&& l.frames(s)[0].len() <= s.len() - 1
            &&& l.frames(s)[0].len() <= MAX_FRAME_BYTES
            &&& forall|k: int| #[trigger] held_pad(s, l, 0).items(k) =~= Seq::<Item>::empty()
            &&& samples_per_frame(s[0], 8000) == samples_per_frame(toc, 8000)
        }),
{
    let l = layout(s, false).unwrap();
    lemma_layout(s, false);
    l.lemma_frame(s, false, 0);
    let pads = nothing_held().with(s, l).pads;
    let pad = held_pad(s, l, 0);
    assert(pads =~= seq![pad]);
    assert(pads.subrange(0, 1) =~= pads);
    reveal_with_fuel(stored_items, 2);
    assert(padding_items(s) =~= pad.items(0));
    assert forall|k: int| #[trigger] pad.items(k) =~= Seq::<Item>::empty() by {
        assert(pad.items(k).len() == pad.items(0).len());
    }
}

/// What parts store: nothing.
proof fn lemma_nothing_in(pads: Seq<Pad>, n: int)
    requires
        0 <= n <= pads.len(),
        forall|i: int, k: int|
            0 <= i < n ==> #[trigger] pads[i].items(k) =~= Seq::<Item>::empty(),
    ensures
        stored_items(pads, n) =~= Seq::<Item>::empty(),
    decreases n,
{
    if n > 0 {
        lemma_nothing_in(pads, n - 1);
        assert(pads[n - 1].items(n - 1) =~= Seq::<Item>::empty());
    }
}

/// Parts of one packet go together.
proof fn lemma_gathers(packets: Seq<Vec<u8>>, toc: u8, k: int)
    requires
        are_parts(packets, toc),
        0 <= k <= packets.len(),
    ensures
        gathered(packets, k) is Some,
        ({
            let h = gathered(packets, k).unwrap();
            &&& h.frames =~= frames_of(packets, k)
            &&& k > 0 ==> h.toc / 4 == toc / 4
            &&& h.pads.len() == k
            &&& all_readable(h.pads)
            &&& forall|i: int, j: int|
                0 <= i < k ==> #[trigger] h.pads[i].items(j) =~= Seq::<Item>::empty()
        }),
    decreases k,
{
    if k > 0 {
        lemma_gathers(packets, toc, k - 1);
        let h = gathered(packets, k - 1).unwrap();
        let s = packets[k - 1]@;
        assert(is_part(s, toc));
        lemma_part(s, toc);
        let l = layout(s, false).unwrap();
        let f = samples_per_frame(toc, 8000);
        lemma_samples_per_frame(toc);
        assert(k * f <= 960) by (nonlinear_arith)
            requires
                packets.len() * f <= 960,
                k <= packets.len(),
                f >= 0,
        ;
        assert(h.accepts(s, false));
        let next = h.with(s, l);
        assert(next.pads =~= h.pads.push(held_pad(s, l, 0)));
        assert(l.frames(s) =~= seq![l.frames(s)[0]]);
        assert(next.frames =~= frames_of(packets, k));
        assert forall|i: int, j: int| 0 <= i < k implies #[trigger] next.pads[i].items(j)
            =~= Seq::<Item>::empty() by {
            if i < k - 1 {
                assert(h.pads[i].items(j) =~= Seq::<Item>::empty());
            }
        }
    }
}

/// The frames together are no longer than the packets without their first bytes.
proof fn lemma_joined_parts(packets: Seq<Vec<u8>>, toc: u8, k: int)
    requires
        are_parts(packets, toc),
        0 <= k <= packets.len(),
    ensures
        joined(frames_of(packets, k)).len() <= bytes_of(packets, k) - k,
    decreases k,
{
    if k > 0 {
        lemma_joined_parts(packets, toc, k - 1);
        assert(frames_of(packets, k).drop_last() =~= frames_of(packets, k - 1));
        assert(is_part(packets[k - 1]@, toc));
        lemma_part(packets[k - 1]@, toc);
    }
}

/// Parts that keep to their share always fit: where packets of one frame each take no more
/// than what is left of a packet of `max` bytes behind its longest head, they can be
/// joined, and where the packet is to be filled up, it is. What comes of it is read as the
/// frames of the parts.
pub proof fn parts_always_fit(packets: Seq<Vec<u8>>, toc: u8, max: int, pad: bool)
    requires
        are_parts(packets, toc),
        1 <= packets.len() <= 6,
        bytes_of(packets, packets.len() as int) <= packets.len() + max - head_bytes(
            packets.len() as int,
        ),
    ensures
        1 <= joined_packets(packets, max, pad).0 <= max,
        pad ==> joined_packets(packets, max, pad).0 == max,
        max <= i32::MAX ==> ({
            let w = joined_packets(packets, max, pad).1;
            &&& w[0] / 4 == toc / 4
            &&& layout(w, false) matches Some(l) && l.frames(w) == frames_of(
                packets,
                packets.len() as int,
            )
        }),
{
    let n = packets.len() as int;
    let frames = frames_of(packets, n);
    lemma_gathers(packets, toc, n);
    lemma_joined_parts(packets, toc, n);
    let h = gathered(packets, n).unwrap();
    assert(h.frames.subrange(0, n) =~= frames);
    assert(h.pads.subrange(0, n) =~= h.pads);
    lemma_nothing_in(h.pads, n);
    assert(Seq::<Item>::empty() + h.items(0, n) =~= Seq::<Item>::empty());
    assert forall|i: int| 0 <= i < frames.len() implies (#[trigger] frames[i]).len()
        <= MAX_FRAME_BYTES by {
        assert(is_part(packets[i]@, toc));
        lemma_part(packets[i]@, toc);
    }
    let m = minimal(h.toc, frames, false).len() as int;
    reveal(minimal);
    lemma_size_header_len(frames, n - 1);
    if n == 2 && !same_size(frames) {
        assert(crate::packet::size_bytes(frames[0].len() as int).len() <= 2);
    }
    assert(1 <= m <= max);
    if !pad {
        packed_is_minimal(h.toc, frames, max, false);
    } else if m < max {
        packed_pads(h.toc, frames, max);
    } else {
        reveal(packed);
    }
    if max <= i32::MAX {
        let f = samples_per_frame(toc, 8000);
        assert(samples_per_frame(h.toc, 8000) == f);
        out_round_trip(h, 0, n, Seq::empty(), max, false, pad, Seq::empty());
        let w = joined_packets(packets, max, pad).1;
        assert(w + Seq::<u8>::empty() =~= w);
    }
}

// ---------------------------------------------------------------------------
// Shares
// ---------------------------------------------------------------------------

/// Whether each of the first `k` parts took no more than it could.
pub open spec fn kept_to_shares(e: OpusEncoder, split: Split, lens: Seq<int>, k: int) -> bool {
    forall|i: int|
        0 <= i < k ==> 1 <= #[trigger] lens[i] <= e.part_bytes(
            split,
            i,
            taken(lens, i),
            left_out(lens, i),
        )
}

/// As long as the parts before it keep to what they may take, each part gets its share,
/// and the first one that is not left out gets what is kept for redundancy as well.
pub proof fn parts_get_their_share(e: OpusEncoder, split: Split, lens: Seq<int>, k: int)
    requires
        1 <= e.share(split),
        0 <= split.dred_bytes,
        0 <= k < split.nb_frames,
        kept_to_shares(e, split, lens, k),
    ensures
        e.part_bytes(split, k, taken(lens, k), left_out(lens, k)) >= e.share(split) + if left_out(
            lens,
            k,
        ) == k {
            split.dred_bytes as int
        } else {
            0
        },
{
    let each = e.share(split);
    let (n, d) = (split.nb_frames as int, split.dred_bytes as int);
    lemma_taken(e, split, lens, k);
    let room = split.max_len_sum - d;
    assert(n * each <= room) by (nonlinear_arith)
        requires
            1 <= each <= tdiv(room, n),
            n >= 1,
    ;
    assert((k + 1) * each <= n * each) by (nonlinear_arith)
        requires
            k + 1 <= n,
            each >= 0,
    ;
    assert((k + 1) * each == k * each + each) by (nonlinear_arith);
}

proof fn lemma_taken(e: OpusEncoder, split: Split, lens: Seq<int>, k: int)
    requires
        1 <= e.share(split),
        0 <= split.dred_bytes,
        0 <= k,
        kept_to_shares(e, split, lens, k),
    ensures
        0 <= left_out(lens, k) <= k,
        left_out(lens, k) == k ==> taken(lens, k) == k && k <= k * e.share(split),
        taken(lens, k) <= k * e.share(split) + if left_out(lens, k) < k {
            split.dred_bytes as int
        } else {
            0
        },
    decreases k,
{
    let each = e.share(split);
    if k > 0 {
        lemma_taken(e, split, lens, k - 1);
        assert(1 <= lens[k - 1] <= e.part_bytes(
            split,
            k - 1,
            taken(lens, k - 1),
            left_out(lens, k - 1),
        ));
        assert(k * each == (k - 1) * each + each) by (nonlinear_arith);
        assert(k <= k * each) by (nonlinear_arith)
            requires
                each >= 1,
                k >= 0,
        ;
    } else {
        assert(0 * each == 0) by (nonlinear_arith);
    }
}

/// Where there is enough to spend to code a packet at all, the share of each of its parts
/// is five bytes or more.
pub proof fn shares_are_worth_while(e: OpusEncoder, mode: i32, n: int, max: int, plan: FramePlan)
    requires
        e.wf(),
        valid_mode(mode as int),
        codable_size(n, e.fs as int),
        1 <= max <= MAX_PACKET_BYTES,
        n > if mode == MODE_SILK_ONLY {
            3 * e.fs / 50
        } else {
            e.fs / 50
        },
        !e.budgeted(n, max).starved(e.fs as int / n, e.packet_limit(n, max)),
        plan.max_data_bytes == e.packet_limit(n, max),
        plan.dred_bitrate_bps == e.dred_share(n, max).bitrate,
    ensures
        ({
            let after = OpusEncoder { mode, ..e.budgeted(n, max) };
            after.share(after.split_of(n, plan)) >= 5
        }),
{
    let fs = e.fs as int;
    let limit = e.packet_limit(n, max);
    let gross = e.gross_rate(n, max);
    let dred = e.dred_share(n, max).bitrate;
    let net = gross - dred;
    let k = 50 * n / fs;
    let q = 6 * fs / n;
    e.lemma_rates(n, max);
    dred_rate_is_bounded(
        e.silk_mode.use_in_band_fec != 0,
        e.silk_mode.packet_loss_percentage as int,
        fs,
        e.dred_duration as int,
        gross,
        n,
    );
    lemma_parts(mode as int, fs, n);
    let part = part_size(mode as int, fs, n);
    let count = n / part;
    assert(2 <= k <= 6 && 50 * n == k * fs);
    lemma_quotient(6 * fs, n, 300int / k);
    let rate = fs / n;
    assert(rate == 50int / k) by (nonlinear_arith)
        requires
            rate == fs / n,
            50 * n == k * fs,
            2 <= k <= 6,
            n > 0,
    ;
    let after = OpusEncoder { mode, ..e.budgeted(n, max) };
    assert(after.bitrate_bps == net);
    assert(net >= 2400 && limit * rate >= 300);
    assert(gross <= limit * 8 * q / 6);
    let bits = dred * 6 / q;
    let bytes = bits / 8;
    assert(q == 150 || q == 100 || q == 75 || q == 60 || q == 50);
    assert(6 * dred <= limit * 8 * q - 14400) by (nonlinear_arith)
        requires
            dred + 2400 <= limit * 8 * q / 6,
    ;
    assert(bits * q <= 6 * dred) by (nonlinear_arith)
        requires
            bits == dred * 6 / q,
            q > 0,
    ;
    assert(bytes <= limit - 6 * k) by (nonlinear_arith)
        requires
            bits * q <= limit * 8 * q - 14400,
            bytes == bits / 8,
            (q == 150 && k == 2) || (q == 100 && k == 3) || (q == 75 && k == 4) || (q == 60 && k
                == 5) || (q == 50 && k == 6),
    ;
    let sum = count + limit - head_bytes(count);
    let split = after.split_of(n, plan);
    let p = 6 * fs / part;
    let main = net * 6 / p;
    lemma_quotient(6 * fs, part, if 50 * part == fs { 300 } else if 25 * part == fs { 150 } else { 100 });
    assert(main >= 48) by (nonlinear_arith)
        requires
            main == net * 6 / p,
            net >= 2400,
            p == 300 || p == 150 || p == 100,
    ;
    assert(0 <= bits);
    assert(split.max_len_sum == sum);
    assert(split.dred_bytes == bytes);
    assert(k == count || k == 2 * count || k == 3 * count) by {
        assert(n == count * part);
        if 50 * part == fs {
            assert(k * fs == count * fs) by (nonlinear_arith)
                requires
                    50 * n == k * fs,
                    n == count * part,
                    50 * part == fs,
            ;
            assert(k == count) by (nonlinear_arith)
                requires
                    k * fs == count * fs,
                    fs > 0,
            ;
        } else if 25 * part == fs {
            assert(k * fs == 2 * count * fs) by (nonlinear_arith)
                requires
                    50 * n == k * fs,
                    n == count * part,
                    25 * part == fs,
            ;
            assert(k == 2 * count) by (nonlinear_arith)
                requires
                    k * fs == 2 * count * fs,
                    fs > 0,
            ;
        } else {
            assert(k * fs == 3 * count * fs) by (nonlinear_arith)
                requires
                    50 * n == k * fs,
                    n == count * part,
                    50 * part == 3 * fs,
            ;
            assert(k == 3 * count) by (nonlinear_arith)
                requires
                    k * fs == 3 * count * fs,
                    fs > 0,
            ;
        }
    }
    assert(sum - bytes >= 5 * count);
    assert((sum - bytes) / count >= 5) by (nonlinear_arith)
        requires
            2 <= count <= 6,
            sum - bytes >= 5 * count,
    ;
    assert(sum / count >= 5) by (nonlinear_arith)
        requires
            2 <= count <= 6,
            sum >= 5 * count,
    ;
}

/// Speech of 80 ms goes in two frames, and so does speech of 120 ms; everything else goes in
/// frames of 20 ms. All parts together are the whole, and have its bytes, less the bytes of
/// the head that they take beyond their own first ones.
pub proof fn long_frames_are_split(e: OpusEncoder, n: int, plan: FramePlan)
    requires
        e.wf(),
        codable_size(n, e.fs as int),
        e.needs_several(n),
        1 <= plan.max_data_bytes <= MAX_PACKET_BYTES,
        0 <= plan.dred_bitrate_bps <= 835600,
    ensures
        ({
            let s = e.split_of(n, plan);
            let speech = e.mode == MODE_SILK_ONLY;
            &&& s.nb_frames * s.frame_size == n
            &&& speech && 25 * n == 2 * e.fs ==> s.nb_frames == 2
            &&& speech && 25 * n == 3 * e.fs ==> s.nb_frames == 2
            &&& speech && 10 * n == e.fs ==> s.nb_frames == 5
            &&& !speech ==> 50 * s.frame_size == e.fs
            &&& s.max_data_bytes == plan.max_data_bytes
            &&& s.nb_frames == 2 ==> s.max_len_sum == plan.max_data_bytes - 1
            &&& s.nb_frames > 2 ==> s.max_len_sum == plan.max_data_bytes - s.nb_frames
            &&& 8 * s.dred_bytes * e.fs <= plan.dred_bitrate_bps * n
            &&& plan.dred_bitrate_bps * n < 8 * (s.dred_bytes + 1) * e.fs
            &&& s.to_mono == e.silk_mode.to_mono
        }),
{
    let fs = e.fs as int;
    let part = part_size(e.mode as int, fs, n);
    lemma_parts(e.mode as int, fs, n);
    let count = n / part;
    let d = plan.dred_bitrate_bps as int;
    crate::rates_law::bits_are_rate_times_duration(d, n, fs);
    let bits = crate::rates::bits_of(d, fs, n);
    assert(d * n >= 0) by (nonlinear_arith)
        requires
            d >= 0,
            n >= 0,
    ;
    assert(bits >= 0) by (nonlinear_arith)
        requires
            d * n < (bits + 1) * fs,
            d * n >= 0,
            fs > 0,
    ;
    assert(bits <= 101000) by {
        assert(d * n <= 835600 * n) by (nonlinear_arith)
            requires
                d <= 835600,
                n >= 0,
        ;
        assert(bits <= 101000) by (nonlinear_arith)
            requires
                bits * fs <= 835600 * n,
                50 * n <= 6 * fs,
                fs > 0,
        ;
    }
    let b = bits / 8;
    assert(8 * b * fs <= bits * fs && (bits + 1) * fs <= 8 * (b + 1) * fs) by (nonlinear_arith)
        requires
            8 * b <= bits < 8 * (b + 1),
            fs > 0,
    ;
    if e.mode == MODE_SILK_ONLY && 25 * n == 2 * fs {
        lemma_quotient(n, part, 2);
    } else if e.mode == MODE_SILK_ONLY && 25 * n == 3 * fs {
        lemma_quotient(n, part, 2);
    } else if e.mode == MODE_SILK_ONLY && 10 * n == fs {
        lemma_quotient(n, part, 5);
    }
}

/// Of the parts of a packet just one has the short frame that eases a change, where the packet
/// has one: the first, where the change is to speech, and the last, where it is to music; and
/// only that last part leads to music. Everything else is as planned for all.
pub proof fn one_part_eases_the_change(
    e: OpusEncoder,
    split: Split,
    plan: FramePlan,
    i: int,
    tot_size: int,
    dtx_count: int,
    pcm: Seq<i16>,
)
    requires
        0 <= i < split.nb_frames,
        plan.to_celt ==> !plan.celt_to_silk,
    ensures
        ({
            let p = e.part_plan(split, plan, i, tot_size, dtx_count, pcm);
            &&& p.to_celt == (plan.to_celt && i == split.nb_frames - 1)
            &&& plan.to_celt ==> p.redundancy == (plan.redundancy && i == split.nb_frames - 1)
            &&& plan.celt_to_silk ==> p.redundancy == (plan.redundancy && i == 0)
            &&& p.celt_to_silk == plan.celt_to_silk
            &&& p.prefill == plan.prefill
            &&& p.lsb_depth == plan.lsb_depth
            &&& p.equiv_rate == plan.equiv_rate
            &&& p.dred_bitrate_bps == plan.dred_bitrate_bps
        }),
{
}

/// A part may take what the bitrate comes to while it lasts, and no more than its share of the
/// packet; the first that is not left out has the redundancy on top; and none takes what is
/// not there.
pub proof fn parts_take_their_rate(
    e: OpusEncoder,
    split: Split,
    i: int,
    tot_size: int,
    dtx_count: int,
)
    requires
        e.wf(),
        0 <= e.bitrate_bps,
        codable_size(split.frame_size as int, e.fs as int),
        1 <= split.nb_frames,
        0 <= split.dred_bytes <= split.max_len_sum,
    ensures
        ({
            let b = e.part_bytes(split, i, tot_size, dtx_count);
            let own = b - if i == 0 || i == dtx_count {
                split.dred_bytes as int
            } else {
                0
            };
            let full = |x: int|
                8 * x * e.fs > e.bitrate_bps * split.frame_size || x * split.nb_frames
                    > split.max_len_sum - split.dred_bytes;
            &&& b <= split.max_len_sum - tot_size
            &&& !full(own) || own < 0
            &&& b == split.max_len_sum - tot_size || full(own + 1)
        }),
{
    let (fs, n) = (e.fs as int, split.frame_size as int);
    let rate = e.bitrate_bps as int;
    crate::rates_law::bits_are_rate_times_duration(rate, n, fs);
    let bits = crate::rates::bits_of(rate, fs, n);
    assert(rate * n >= 0) by (nonlinear_arith)
        requires
            rate >= 0,
            n >= 0,
    ;
    assert(bits >= 0) by (nonlinear_arith)
        requires
            rate * n < (bits + 1) * fs,
            rate * n >= 0,
            fs > 0,
    ;
    let k = split.nb_frames as int;
    let (m, d) = (split.max_len_sum as int, split.max_len_sum - split.dred_bytes);
    assert(d / k <= m / k) by (nonlinear_arith)
        requires
            d <= m,
            k >= 1,
    ;
    let each = e.share(split);
    let by_rate = bits / 8;
    let by_room = d / k;
    assert(each == crate::arith::min_int(by_rate, by_room));
    assert(by_room * k <= d < (by_room + 1) * k) by (nonlinear_arith)
        requires
            by_room == d / k,
            k >= 1,
    ;
    assert forall|x: int| #![trigger x * k] 0 <= x <= each implies 8 * x * fs <= rate * n && x * k
        <= d by {
        assert(8 * x * fs <= bits * fs) by (nonlinear_arith)
            requires
                8 * x <= bits,
                fs > 0,
        ;
        assert(x * k <= by_room * k) by (nonlinear_arith)
            requires
                x <= by_room,
                k >= 1,
        ;
    }
    let y = each + 1;
    if each == by_rate {
        assert(8 * y * fs >= (bits + 1) * fs) by (nonlinear_arith)
            requires
                8 * y >= bits + 1,
                fs > 0,
        ;
    } else {
        assert(y == by_room + 1);
    }
    let b = e.part_bytes(split, i, tot_size, dtx_count);
    let own = b - if i == 0 || i == dtx_count {
        split.dred_bytes as int
    } else {
        0
    };
    assert(own <= each);
    if own >= 0 {
        assert(own * k <= d);
    }
}

/// Speech on its way to one channel is told to code one in all parts, and remembers how many
/// it had; other packets go on with the channels that they have.
pub proof fn splitting_settles_channels(e: OpusEncoder, rewind: Option<(i32, i32)>)
    ensures
        ({
            let s = e.split_from(rewind);
            &&& e.silk_mode.to_mono != 0 ==> s.force_channels == 1 && s.prev_channels
                == e.prev_channels
            &&& e.silk_mode.to_mono == 0 ==> s.force_channels == e.force_channels
                && s.prev_channels == e.stream_channels
            &&& (rewind matches Some((p, q)) ==> s.analysis.read_pos == p
                && s.analysis.read_subframe == q)
            &&& rewind is None ==> s.analysis == e.analysis
            &&& s.stream_channels == e.stream_channels
            &&& s.mode == e.mode
            &&& s.bitrate_bps == e.bitrate_bps
        }),
{
}

} // verus!
