//! How many extensions padding can hold.

use vstd::prelude::*;
use crate::codes::MAX_FRAMES;
use crate::extension_iter::{
    extension_at, lemma_extension_at, lemma_payload_at, payload_at, Cursor, Step,
};
use crate::extensions::extensions_in;
use crate::packet::{layout, lemma_layout};
use crate::padding::{nothing_held, padding_items};
use crate::repacketizer::{held_pad, stored_items, Pad};

verus! {

impl Cursor {
    /// More than the extensions that are yet to come: each byte that is left can be one,
    /// and be repeated in 48 frames.
    pub open spec fn promise(self) -> int {
        if self.repeat_frame == 0 {
            49 * self.left + 48 * (self.pos - self.repeat_pos)
        } else if self.repeat_frame >= self.nb_frames {
            49 * self.left
        } else {
            49 * self.left + (self.nb_frames - self.repeat_frame - 1) * self.repeat_len
                + self.src_len
        }
    }

    proof fn lemma_repeat_promise(self)
        requires
            self.ok(),
            self.left >= 0,
            self.repeat_frame > 0,
        ensures
            match self.next_repeat().0 {
                Step::Found(e) => self.next_repeat().1.promise() < self.promise(),
                Step::Done => self.next_repeat().1.promise() <= self.promise(),
                Step::Bad => true,
            },
        decreases self.nb_frames - self.repeat_frame, self.src_len,
    {
        lemma_extension_at(self.source());
        if self.repeat_frame >= self.nb_frames {
        } else if self.src_len == 0 {
            let c = Cursor {
                src_pos: self.repeat_pos,
                src_len: self.repeat_len,
                repeat_frame: self.repeat_frame + 1,
                ..self
            };
            let (a, r) = (self.nb_frames - self.repeat_frame - 1, self.repeat_len);
            assert(a * r == (a - 1) * r + r) by (nonlinear_arith);
            assert(0 <= a * r) by (nonlinear_arith)
                requires
                    0 <= a,
                    0 <= r,
            ;
            c.lemma_repeat_promise();
        } else {
            match extension_at(self.source()) {
                None => {
                    Cursor { src_len: 0, ..self }.lemma_repeat_promise();
                },
                Some((n, len)) => {
                    let c = Cursor {
                        src_pos: self.src_pos + n + len,
                        src_len: self.src_len - n - len,
                        ..self
                    };
                    if self.source()[0] <= 3 {
                        c.lemma_repeat_promise();
                    } else {
                        let id_byte = self.repeated_id_byte(self.source()[0], c.src_pos);
                        lemma_payload_at(self.tail(), id_byte, self.trailing);
                        match payload_at(self.tail(), id_byte, self.trailing) {
                            None => {},
                            Some((h, k)) => {
                                let d = Cursor { pos: c.pos + h + k, left: c.left - h - k, ..c };
                                if self.repeat_frame >= self.frame_max {
                                    d.lemma_repeat_promise();
                                }
                            },
                        }
                    }
                },
            }
        }
    }

    proof fn lemma_scan_promise(self)
        requires
            self.ok(),
            self.left >= 0,
            self.repeat_frame == 0,
        ensures
            self.scan().0 is Found ==> self.scan().1.promise() < self.promise(),
        decreases self.left,
    {
        if self.left > 0 {
            lemma_extension_at(self.tail());
            if let Some((n, len)) = extension_at(self.tail()) {
                let id = self.tail()[0] as int / 2;
                let flag = self.tail()[0] as int % 2;
                let c = Cursor { pos: self.pos + n + len, left: self.left - n - len, ..self };
                if id == 0 {
                    c.lemma_scan_promise();
                } else if id == 1 {
                    let step = if flag == 0 {
                        1
                    } else {
                        self.tail()[1] as int
                    };
                    let frame = self.frame + step;
                    if step == 0 {
                        c.lemma_scan_promise();
                    } else if frame < self.nb_frames {
                        Cursor {
                            frame,
                            left: if frame >= self.frame_max {
                                0
                            } else {
                                c.left
                            },
                            repeat_pos: c.pos,
                            last_long: None,
                            trailing: 0,
                            ..c
                        }.lemma_scan_promise();
                    }
                } else if id == 2 {
                    let d = self.begin_repeat(flag, c.pos, c.left);
                    let (a, u) = (self.nb_frames - self.frame - 2, self.pos - self.repeat_pos);
                    assert(a * u + u <= 48 * u) by (nonlinear_arith)
                        requires
                            a <= 46,
                            0 <= u,
                    ;
                    d.lemma_next_repeat();
                    d.lemma_repeat_promise();
                    match d.next_repeat() {
                        (Step::Done, e) => e.lemma_scan_promise(),
                        _ => {},
                    }
                }
            }
        }
    }

    /// There are no more extensions to come than are promised.
    proof fn lemma_rest_promise(self)
        requires
            self.ok(),
        ensures
            self.left >= 0 ==> self.rest().len() <= self.promise(),
            self.left < 0 ==> self.rest().len() == 0,
        decreases self.left, self.nb_frames - self.repeat_frame, self.src_len,
    {
        self.lemma_next();
        if self.left >= 0 {
            if self.repeat_frame > 0 {
                let (a, r) = (self.nb_frames - self.repeat_frame - 1, self.repeat_len);
                if a >= 0 {
                    assert(0 <= a * r) by (nonlinear_arith)
                        requires
                            0 <= a,
                            0 <= r,
                    ;
                }
                self.lemma_next_repeat();
                self.lemma_repeat_promise();
                if self.next_repeat().0 is Done {
                    self.next_repeat().1.lemma_scan_promise();
                }
            } else {
                self.lemma_scan_promise();
            }
            if self.next().0 is Found {
                self.next().1.lemma_rest_promise();
            }
        }
    }
}

/// Padding holds no more than 49 extensions for each of its bytes.
pub proof fn extensions_are_few(bytes: Seq<u8>, nb_frames: int)
    requires
        0 <= nb_frames <= MAX_FRAMES,
        bytes.len() <= i32::MAX,
    ensures
        extensions_in(bytes, nb_frames).len() <= 49 * bytes.len(),
{
    Cursor::start(bytes, nb_frames).lemma_rest_promise();
}

/// The padding of a packet holds no more than 49 extensions for each byte of the packet.
pub proof fn padding_holds_few(s: Seq<u8>)
    requires
        s.len() <= i32::MAX,
    ensures
        padding_items(s).len() <= 49 * s.len(),
{
    if let Some(l) = layout(s, false) {
        lemma_layout(s, false);
        let pads = nothing_held().with(s, l).pads.subrange(0, l.sizes.len() as int);
        assert forall|i: int| 0 < i < pads.len() implies (#[trigger] pads[i]).len == 0 by {
            assert(pads[i] == held_pad(s, l, i));
        }
        lemma_first_pad(pads, pads.len() as int);
        let pad = pads[0];
        assert(pad == held_pad(s, l, 0));
        if pad.len > 0 {
            extensions_are_few(pad.bytes.take(pad.len), pad.nb_frames);
        }
    }
}

/// Only the first frame's padding holds anything.
proof fn lemma_first_pad(pads: Seq<Pad>, n: int)
    requires
        1 <= n <= pads.len(),
        forall|i: int| 0 < i < n ==> (#[trigger] pads[i]).len == 0,
    ensures
        stored_items(pads, n).len() == pads[0].items(0).len(),
    decreases n,
{
    reveal_with_fuel(stored_items, 2);
    if n > 1 {
        lemma_first_pad(pads, n - 1);
        assert(pads[n - 1].len == 0);
    }
}

} // verus!
