//! What the steps of an iterator over extensions give, and what a limit on frames leaves.

use vstd::prelude::*;
use crate::codes::MAX_FRAMES;
use crate::extension_iter::{
    extension_at, lemma_extension_at, lemma_payload_at, lemma_read_lacing, lies_in, payload_at,
    read_lacing, Cursor, Ext, Step,
};
use crate::extensions::{extensions_in, extensions_valid};

verus! {

// ---------------------------------------------------------------------------
// Ends
// ---------------------------------------------------------------------------

/// An end or an error is final: every later step gives the same and changes nothing.
pub proof fn ends_are_final(c: Cursor)
    requires
        c.ok(),
        !(c.next().0 is Found),
    ensures
        c.next().1.next() == c.next(),
{
    c.lemma_next();
    if c.left >= 0 {
        if c.repeat_frame > 0 {
            c.lemma_next_repeat();
            if c.next_repeat().0 is Done {
                c.next_repeat().1.lemma_scan();
            }
        } else {
            c.lemma_scan();
        }
    }
}

// ---------------------------------------------------------------------------
// What can be repeated
// ---------------------------------------------------------------------------

/// Whether the payload behind an identifier byte has its length from the bytes in front,
/// and does not take all that is left.
pub open spec fn fixed(id_byte: u8) -> bool {
    id_byte % 2 == 1 || 1 <= id_byte / 2 < 32
}

/// Whether `s` is made of extensions, padding and steps, and holds no repeat.
pub open spec fn plain(s: Seq<u8>) -> bool
    decreases s.len(),
{
    if s.len() == 0 {
        true
    } else {
        match extension_at(s) {
            Some((n, len)) => if 1 <= n + len <= s.len() {
                s[0] / 2 != 2 && fixed(s[0]) && plain(s.skip(n + len))
            } else {
                false
            },
            None => false,
        }
    }
}

proof fn lemma_lacing_tail(s: Seq<u8>, t: Seq<u8>)
    requires
        read_lacing(s) is Some,
    ensures
        read_lacing(s + t) == read_lacing(s),
    decreases s.len(),
{
    lemma_read_lacing(s);
    assert((s + t).skip(1) =~= s.skip(1) + t);
    if s[0] == 255 {
        lemma_lacing_tail(s.skip(1), t);
    }
}

proof fn lemma_lacing_front(s: Seq<u8>, k: int)
    requires
        read_lacing(s) matches Some((n, len)) && n <= k <= s.len(),
    ensures
        read_lacing(s.take(k)) == read_lacing(s),
    decreases s.len(),
{
    lemma_read_lacing(s);
    if s[0] == 255 {
        assert(s.take(k).skip(1) =~= s.skip(1).take(k - 1));
        lemma_read_lacing(s.skip(1));
        lemma_lacing_front(s.skip(1), k - 1);
    }
}

/// An extension of fixed length is read as such whatever follows.
proof fn lemma_fixed_tail(s: Seq<u8>, t: Seq<u8>)
    requires
        s.len() > 0,
        fixed(s[0]),
        extension_at(s) is Some,
    ensures
        extension_at(s + t) == extension_at(s),
{
    assert((s + t).skip(1) =~= s.skip(1) + t);
    lemma_payload_at(s.skip(1), s[0], 0);
    if s[0] / 2 >= 32 || s[0] / 2 == 0 {
        if s[0] != 1 {
            lemma_lacing_tail(s.skip(1), t);
        }
    }
}

/// An extension of fixed length is read off the bytes that it takes.
proof fn lemma_fixed_front(s: Seq<u8>)
    requires
        s.len() > 0,
        fixed(s[0]),
        extension_at(s) is Some,
    ensures
        ({
            let (n, len) = extension_at(s).unwrap();
            extension_at(s.take(n + len)) == extension_at(s)
        }),
{
    lemma_extension_at(s);
    let (n, len) = extension_at(s).unwrap();
    lemma_payload_at(s.skip(1), s[0], 0);
    assert(s.take(n + len).skip(1) =~= s.skip(1).take(n + len - 1));
    if s[0] / 2 >= 32 {
        lemma_lacing_front(s.skip(1), n + len - 1);
    }
}

/// One more extension of fixed length keeps a region plain.
proof fn lemma_plain_push(a: Seq<u8>, s: Seq<u8>)
    requires
        plain(a),
        s.len() > 0,
        fixed(s[0]),
        s[0] / 2 != 2,
        extension_at(s) is Some,
    ensures
        ({
            let (n, len) = extension_at(s).unwrap();
            plain(a + s.take(n + len))
        }),
    decreases a.len(),
{
    lemma_extension_at(s);
    let (n, len) = extension_at(s).unwrap();
    let e = s.take(n + len);
    lemma_fixed_front(s);
    if a.len() == 0 {
        assert(a + e =~= e);
        assert(e.skip(n + len) =~= Seq::<u8>::empty());
        assert(plain(e.skip(n + len)));
    } else {
        lemma_extension_at(a);
        let (m, k) = extension_at(a).unwrap();
        lemma_fixed_tail(a, e);
        assert((a + e).skip(m + k) =~= a.skip(m + k) + e);
        lemma_plain_push(a.skip(m + k), s);
    }
}

impl Cursor {
    /// What a repeat would repeat, or repeats.
    pub open spec fn region(self) -> Seq<u8> {
        self.bytes.subrange(
            self.repeat_pos,
            if self.repeat_frame > 0 {
                self.repeat_pos + self.repeat_len
            } else {
                self.pos
            },
        )
    }

    /// Whether what can be repeated holds no repeat. That is so of every state that reading
    /// comes to.
    pub open spec fn regular(self) -> bool {
        &&& self.ok()
        &&& self.left > 0 || (self.left == 0 && self.repeat_frame > 0) ==> plain(self.region())
        &&& self.left >= 0 && self.repeat_frame > 0 ==> plain(self.source())
    }

    proof fn lemma_repeat_regular(self)
        requires
            self.regular(),
            self.left >= 0,
            self.repeat_frame > 0,
        ensures
            self.next_repeat().1.regular(),
            self.next_repeat().0 matches Step::Found(e) ==> 3 <= e.id,
        decreases self.nb_frames - self.repeat_frame, self.src_len,
    {
        lemma_extension_at(self.source());
        self.lemma_next_repeat();
        if self.repeat_frame >= self.nb_frames {
            assert(self.after_repeat().region() =~= Seq::<u8>::empty());
        } else if self.src_len == 0 {
            let c = Cursor {
                src_pos: self.repeat_pos,
                src_len: self.repeat_len,
                repeat_frame: self.repeat_frame + 1,
                ..self
            };
            assert(c.source() =~= self.region());
            c.lemma_repeat_regular();
        } else {
            let (n, len) = extension_at(self.source()).unwrap();
            let c = Cursor {
                src_pos: self.src_pos + n + len,
                src_len: self.src_len - n - len,
                ..self
            };
            assert(c.source() =~= self.source().skip(n + len));
            assert(c.region() =~= self.region());
            if self.source()[0] <= 3 {
                c.lemma_repeat_regular();
            } else {
                let id_byte = self.repeated_id_byte(self.source()[0], c.src_pos);
                lemma_payload_at(self.tail(), id_byte, self.trailing);
                match payload_at(self.tail(), id_byte, self.trailing) {
                    None => {},
                    Some((h, k)) => {
                        let d = Cursor { pos: c.pos + h + k, left: c.left - h - k, ..c };
                        assert(d.region() =~= self.region());
                        assert(d.source() =~= c.source());
                        if self.repeat_frame >= self.frame_max {
                            d.lemma_repeat_regular();
                        }
                    },
                }
            }
        }
    }

    /// Reading on behind an extension keeps what can be repeated plain.
    proof fn lemma_region_push(self)
        requires
            self.regular(),
            self.left > 0,
            self.repeat_frame == 0,
            extension_at(self.tail()) is Some,
            self.tail()[0] / 2 != 2,
        ensures
            ({
                let (n, len) = extension_at(self.tail()).unwrap();
                self.left - n - len > 0 ==> plain(
                    self.bytes.subrange(self.repeat_pos, self.pos + n + len),
                )
            }),
    {
        let t = self.tail();
        lemma_extension_at(t);
        let (n, len) = extension_at(t).unwrap();
        if self.left - n - len > 0 {
            assert(fixed(t[0]));
            lemma_plain_push(self.region(), t);
            assert(self.region() + t.take(n + len) =~= self.bytes.subrange(
                self.repeat_pos,
                self.pos + n + len,
            ));
        }
    }

    proof fn lemma_scan_regular(self)
        requires
            self.regular(),
            self.left >= 0,
            self.repeat_frame == 0,
        ensures
            self.scan().1.regular(),
            self.scan().0 matches Step::Found(e) ==> 3 <= e.id,
        decreases self.left,
    {
        self.lemma_scan();
        if self.left > 0 {
            lemma_extension_at(self.tail());
            if let Some((n, len)) = extension_at(self.tail()) {
                let id = self.tail()[0] as int / 2;
                let flag = self.tail()[0] as int % 2;
                let c = Cursor { pos: self.pos + n + len, left: self.left - n - len, ..self };
                if id != 2 {
                    self.lemma_region_push();
                }
                if id == 0 {
                    c.lemma_scan_regular();
                } else if id == 1 {
                    let step = if flag == 0 {
                        1
                    } else {
                        self.tail()[1] as int
                    };
                    let frame = self.frame + step;
                    if step == 0 {
                        c.lemma_scan_regular();
                    } else if frame < self.nb_frames {
                        let d = Cursor {
                            frame,
                            left: if frame >= self.frame_max {
                                0
                            } else {
                                c.left
                            },
                            repeat_pos: c.pos,
                            last_long: None,
                            trailing: 0,
                            ..c
                        };
                        assert(d.region() =~= Seq::<u8>::empty());
                        d.lemma_scan_regular();
                    }
                } else if id == 2 {
                    let d = self.begin_repeat(flag, c.pos, c.left);
                    assert(d.region() =~= self.region());
                    assert(d.source() =~= self.region());
                    d.lemma_next_repeat();
                    d.lemma_repeat_regular();
                    match d.next_repeat() {
                        (Step::Done, e) => e.lemma_scan_regular(),
                        _ => {},
                    }
                }
            }
        }
    }

    /// Reading starts in such a state.
    pub proof fn start_is_regular(bytes: Seq<u8>, nb_frames: int)
        requires
            0 <= nb_frames <= MAX_FRAMES,
            bytes.len() <= i32::MAX,
        ensures
            Cursor::start(bytes, nb_frames).regular(),
    {
        assert(Cursor::start(bytes, nb_frames).region() =~= Seq::<u8>::empty());
    }

    /// What a step finds is an extension: its identifier is from 3 to 127, it belongs to
    /// a frame below the limit, its payload is a part of the bytes, and of no more than one
    /// byte where the identifier is below 32. The next step can say the same.
    pub proof fn steps_find_extensions(self)
        requires
            self.regular(),
        ensures
            self.next().1.regular(),
            self.next().0 matches Step::Found(e) ==> {
                &&& 3 <= e.id <= 127
                &&& 0 <= e.frame < self.frame_max
                &&& e.id < 32 ==> e.data.len() <= 1
                &&& lies_in(e.data, self.bytes)
            },
    {
        self.lemma_next();
        if self.left >= 0 {
            if self.repeat_frame > 0 {
                self.lemma_next_repeat();
                self.lemma_repeat_regular();
                if self.next_repeat().0 is Done {
                    self.next_repeat().1.lemma_scan_regular();
                }
            } else {
                self.lemma_scan_regular();
            }
        }
    }
}

// ---------------------------------------------------------------------------
// A limit on frames
// ---------------------------------------------------------------------------

impl Cursor {
    /// The same state with a limit on frames.
    pub open spec fn limited(self, m: int) -> Cursor {
        Cursor { frame_max: m, ..self }
    }

    proof fn lemma_repeat_limited(self, m: int)
        requires
            self.ok(),
            self.left >= 0,
            self.repeat_frame > 0,
            self.frame_max == self.nb_frames,
            m <= self.nb_frames,
        ensures
            match self.next_repeat() {
                (Step::Found(e), d) => if e.frame < m {
                    self.limited(m).next_repeat() == (Step::Found(e), d.limited(m))
                } else {
                    d.repeat_frame > 0 && self.limited(m).next_repeat() == d.limited(m).next_repeat()
                },
                (s, d) => self.limited(m).next_repeat() == (s, d.limited(m)),
            },
            self.next_repeat().0 matches Step::Found(e) ==> e.frame >= self.repeat_frame
                && self.next_repeat().1.frame == self.frame,
            self.next_repeat().1.left >= 0 ==> self.next_repeat().1.frame >= self.frame,
        decreases self.nb_frames - self.repeat_frame, self.src_len,
    {
        lemma_extension_at(self.source());
        self.lemma_next_repeat();
        self.limited(m).lemma_next_repeat();
        assert(self.limited(m).source() =~= self.source());
        assert(self.limited(m).tail() =~= self.tail());
        if self.repeat_frame >= self.nb_frames {
        } else if self.src_len == 0 {
            let c = Cursor {
                src_pos: self.repeat_pos,
                src_len: self.repeat_len,
                repeat_frame: self.repeat_frame + 1,
                ..self
            };
            c.lemma_repeat_limited(m);
            assert(self.limited(m).next_repeat() == c.limited(m).next_repeat());
        } else {
            match extension_at(self.source()) {
                None => {
                    let c = Cursor { src_len: 0, ..self };
                    c.lemma_repeat_limited(m);
                    assert(self.limited(m).next_repeat() == c.limited(m).next_repeat());
                },
                Some((n, len)) => {
                    let c = Cursor {
                        src_pos: self.src_pos + n + len,
                        src_len: self.src_len - n - len,
                        ..self
                    };
                    if self.source()[0] <= 3 {
                        c.lemma_repeat_limited(m);
                        assert(self.limited(m).next_repeat() == c.limited(m).next_repeat());
                    } else {
                        let id_byte = self.repeated_id_byte(self.source()[0], c.src_pos);
                        lemma_payload_at(self.tail(), id_byte, self.trailing);
                        match payload_at(self.tail(), id_byte, self.trailing) {
                            None => {},
                            Some((h, k)) => {
                                let d = Cursor { pos: c.pos + h + k, left: c.left - h - k, ..c };
                                if self.repeat_frame >= m {
                                    assert(self.limited(m).next_repeat() == d.limited(
                                        m,
                                    ).next_repeat());
                                }
                            },
                        }
                    }
                },
            }
        }
    }

    /// What the limited iterator does where the other one takes a step from outside a
    /// repeat: the same; or it passes over what was found; or it is done, and all that is
    /// yet to come is beyond the limit.
    pub open spec fn follows(self, m: int, s: (Step, Cursor), t: (Step, Cursor)) -> bool {
        match s {
            (Step::Found(e), d) => if e.frame < m {
                t == (Step::Found(e), d.limited(m))
            } else {
                t == d.limited(m).next() || (t.0 is Done && d.frame >= m)
            },
            (Step::Done, d) => t.0 is Done,
            (Step::Bad, d) => true,
        }
    }

    proof fn lemma_scan_limited(self, m: int)
        requires
            self.ok(),
            self.left >= 0,
            self.repeat_frame == 0,
            self.frame_max == self.nb_frames,
            0 <= self.frame < m <= self.nb_frames,
        ensures
            self.follows(m, self.scan(), self.limited(m).scan()),
        decreases self.left,
    {
        self.lemma_scan();
        assert(self.limited(m).tail() =~= self.tail());
        if self.left > 0 {
            lemma_extension_at(self.tail());
            if let Some((n, len)) = extension_at(self.tail()) {
                let id = self.tail()[0] as int / 2;
                let flag = self.tail()[0] as int % 2;
                let c = Cursor { pos: self.pos + n + len, left: self.left - n - len, ..self };
                if id == 0 {
                    c.lemma_scan_limited(m);
                    assert(self.limited(m).scan() == c.limited(m).scan());
                } else if id == 1 {
                    let step = if flag == 0 {
                        1
                    } else {
                        self.tail()[1] as int
                    };
                    let frame = self.frame + step;
                    if step == 0 {
                        c.lemma_scan_limited(m);
                        assert(self.limited(m).scan() == c.limited(m).scan());
                    } else if frame < self.nb_frames {
                        let d = Cursor {
                            frame,
                            repeat_pos: c.pos,
                            last_long: None,
                            trailing: 0,
                            ..c
                        };
                        assert(self.scan() == d.scan());
                        if frame < m {
                            d.lemma_scan_limited(m);
                            assert(self.limited(m).scan() == d.limited(m).scan());
                        } else {
                            let z = Cursor { left: 0, ..d.limited(m) };
                            assert(self.limited(m).scan() == z.scan());
                            d.lemma_scan_frames();
                        }
                    }
                } else if id == 2 {
                    let d = self.begin_repeat(flag, c.pos, c.left);
                    d.lemma_next_repeat();
                    d.lemma_repeat_limited(m);
                    assert(d.limited(m) == self.limited(m).begin_repeat(flag, c.pos, c.left));
                    match d.next_repeat() {
                        (Step::Done, e) => {
                            e.lemma_scan();
                            if e.frame < m {
                                e.lemma_scan_limited(m);
                            } else if e.frame < e.nb_frames {
                                e.lemma_scan_frames();
                            }
                        },
                        (Step::Found(x), e) => {
                            if x.frame >= m {
                                e.limited(m).lemma_next_repeat();
                            }
                        },
                        _ => {},
                    }
                }
            }
        }
    }

    /// A repeat is about later frames.
    pub open spec fn ahead(self) -> bool {
        self.repeat_frame > 0 ==> self.repeat_frame > self.frame
    }

    /// Outside a repeat, what is found belongs to this frame or to a later one.
    proof fn lemma_scan_frames(self)
        requires
            self.ok(),
            self.left >= 0,
            self.repeat_frame == 0,
            self.frame_max == self.nb_frames,
        ensures
            self.scan().0 matches Step::Found(e) ==> e.frame >= self.frame,
            self.scan().1.left >= 0 ==> self.scan().1.frame >= self.frame,
            self.scan().0 is Found ==> self.scan().1.ahead(),
        decreases self.left,
    {
        self.lemma_scan();
        if self.left > 0 {
            lemma_extension_at(self.tail());
            if let Some((n, len)) = extension_at(self.tail()) {
                let id = self.tail()[0] as int / 2;
                let flag = self.tail()[0] as int % 2;
                let c = Cursor { pos: self.pos + n + len, left: self.left - n - len, ..self };
                if id == 0 {
                    c.lemma_scan_frames();
                } else if id == 1 {
                    let step = if flag == 0 {
                        1
                    } else {
                        self.tail()[1] as int
                    };
                    let frame = self.frame + step;
                    if step == 0 {
                        c.lemma_scan_frames();
                    } else if frame < self.nb_frames {
                        let d = Cursor {
                            frame,
                            repeat_pos: c.pos,
                            last_long: None,
                            trailing: 0,
                            ..c
                        };
                        assert(self.scan() == d.scan());
                        d.lemma_scan_frames();
                    }
                } else if id == 2 {
                    let d = self.begin_repeat(flag, c.pos, c.left);
                    d.lemma_next_repeat();
                    d.lemma_repeat_limited(d.nb_frames);
                    match d.next_repeat() {
                        (Step::Done, e) => e.lemma_scan_frames(),
                        _ => {},
                    }
                }
            }
        }
    }
}

impl Cursor {
    /// All that is yet to come belongs to this frame or to a later one.
    proof fn lemma_rest_frames(self)
        requires
            self.ok(),
            self.ahead(),
            self.frame_max == self.nb_frames,
        ensures
            forall|i: int| 0 <= i < self.rest().len() ==> (#[trigger] self.rest()[i]).frame >= self.frame,
        decreases self.left, self.nb_frames - self.repeat_frame, self.src_len,
    {
        self.lemma_next();
        if let (Step::Found(e), d) = self.next() {
            if self.repeat_frame > 0 {
                self.lemma_next_repeat();
                self.lemma_repeat_limited(self.nb_frames);
                if self.next_repeat().0 is Done {
                    self.next_repeat().1.lemma_scan_frames();
                }
            } else {
                self.lemma_scan_frames();
            }
            d.lemma_rest_frames();
            assert(self.rest() == seq![e] + d.rest());
            assert forall|i: int| 0 <= i < self.rest().len() implies (
            #[trigger] self.rest()[i]).frame >= self.frame by {
                if i > 0 {
                    assert(self.rest()[i] == d.rest()[i - 1]);
                }
            }
        }
    }

    /// The steps of a limited iterator follow those of the other one.
    proof fn lemma_next_limited(self, m: int)
        requires
            self.ok(),
            self.ahead(),
            self.left >= 0,
            self.frame_max == self.nb_frames,
            0 <= m <= self.nb_frames,
        ensures
            self.follows(m, self.next(), self.limited(m).next()),
            self.next().0 is Found ==> self.next().1.ahead(),
    {
        self.lemma_next();
        if self.repeat_frame > 0 {
            self.lemma_next_repeat();
            self.lemma_repeat_limited(m);
            match self.next_repeat() {
                (Step::Done, c) => {
                    if c.frame < c.frame_max {
                        c.lemma_scan_frames();
                        if c.frame < m {
                            c.lemma_scan_limited(m);
                        }
                    }
                },
                _ => {},
            }
        } else if self.frame < self.frame_max {
            self.lemma_scan_frames();
            if self.frame < m {
                self.lemma_scan_limited(m);
            }
        }
    }

    /// A limit keeps of what is yet to come what belongs to frames below it, in the same
    /// order, where the bytes are all right.
    pub proof fn limit_keeps_frames_below(self, m: int)
        requires
            self.ok(),
            self.ahead(),
            self.frame_max == self.nb_frames,
            0 <= m <= self.nb_frames,
            self.ends_well(),
        ensures
            self.limited(m).ok(),
            self.limited(m).rest() == self.rest().filter(|e: Ext| e.frame < m),
            self.limited(m).ends_well(),
        decreases self.left, self.nb_frames - self.repeat_frame, self.src_len,
    {
        let p = |e: Ext| e.frame < m;
        let c = self.limited(m);
        self.lemma_next();
        self.lemma_next_limited(m);
        match self.next() {
            (Step::Found(e), d) => {
                assert(self.rest() == seq![e] + d.rest());
                Seq::filter_distributes_over_add(seq![e], d.rest(), p);
                reveal_with_fuel(Seq::filter, 2);
                assert(seq![e].drop_last() =~= Seq::<Ext>::empty());
                d.limit_keeps_frames_below(m);
                if e.frame < m {
                    assert(seq![e].filter(p) =~= seq![e]);
                } else {
                    assert(seq![e].filter(p) =~= Seq::<Ext>::empty());
                    assert(self.rest().filter(p) =~= d.rest().filter(p));
                    if !(c.next() == d.limited(m).next()) {
                        d.lemma_rest_frames();
                        lemma_none_kept(d.rest(), m);
                    }
                }
            },
            _ => {
                reveal_with_fuel(Seq::filter, 1);
                assert(self.rest().filter(p) =~= Seq::<Ext>::empty());
            },
        }
    }
}

proof fn lemma_none_kept(exts: Seq<Ext>, m: int)
    requires
        forall|i: int| 0 <= i < exts.len() ==> (#[trigger] exts[i]).frame >= m,
    ensures
        exts.filter(|e: Ext| e.frame < m) =~= Seq::<Ext>::empty(),
    decreases exts.len(),
{
    reveal_with_fuel(Seq::filter, 1);
    if exts.len() > 0 {
        let front = exts.drop_last();
        assert forall|i: int| 0 <= i < front.len() implies (#[trigger] front[i]).frame >= m by {
            assert(front[i] == exts[i]);
        }
        lemma_none_kept(front, m);
    }
}

/// An iterator over well-formed bytes that is limited to frames below `m` before its first
/// step finds just the extensions of these frames, in the order of the bytes, and then comes
/// to an end.
pub proof fn limited_iteration(bytes: Seq<u8>, nb_frames: int, m: int)
    requires
        0 <= m <= nb_frames <= MAX_FRAMES,
        bytes.len() <= i32::MAX,
        extensions_valid(bytes, nb_frames),
    ensures
        ({
            let c = Cursor { frame_max: m, ..Cursor::start(bytes, nb_frames) };
            &&& c.rest() == extensions_in(bytes, nb_frames).filter(|e: Ext| e.frame < m)
            &&& c.ends_well()
        }),
{
    Cursor::start(bytes, nb_frames).limit_keeps_frames_below(m);
}

} // verus!
