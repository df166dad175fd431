//! Packet extensions: what the padding of a packet holds, and the iterator that
//! reads it.
//!
//! An extension is a byte with its identifier and a flag, then a payload. Below
//! 32 the payload is the flag's number of bytes. From 32 on the flag says that
//! the payload's length stands in front of it; without it the payload takes all
//! that is left. Identifier 0 is padding, 1 moves on to a later frame, and 2
//! repeats the extensions of this frame in all later ones: for each of them only
//! the payload is written.

use vstd::prelude::*;
use crate::codes::{MAX_FRAMES, OPUS_INVALID_PACKET};

verus! {

// ---------------------------------------------------------------------------
// Extensions
// ---------------------------------------------------------------------------

/// An extension: its identifier, the frame it belongs to, and its payload, which
/// is the first `len` bytes of `data`.
#[derive(Clone, Copy, Debug)]
pub struct OpusExtensionData<'a> {
    pub id: i32,
    pub frame: i32,
    pub data: &'a [u8],
    pub len: i32,
}

/// What an extension is, as a value.
pub ghost struct Ext {
    pub id: int,
    pub frame: int,
    pub data: Seq<u8>,
}

/// An extension as it is to be written: what its fields say.
pub ghost struct Item {
    pub id: int,
    pub frame: int,
    pub len: int,
    pub data: Seq<u8>,
}

/// A list of extensions to be written.
pub open spec fn items(exts: Seq<OpusExtensionData>) -> Seq<Item> {
    Seq::new(exts.len(), |i: int| exts[i].item())
}

impl<'a> OpusExtensionData<'a> {
    /// What the fields say.
    pub open spec fn item(self) -> Item {
        Item {
            id: self.id as int,
            frame: self.frame as int,
            len: self.len as int,
            data: self.data@,
        }
    }

    /// An extension without content.
    pub fn empty() -> (r: Self)
        ensures
            r.id == 0,
            r.frame == 0,
            r.data@ == Seq::<u8>::empty(),
            r.len == 0,
    {
        OpusExtensionData { id: 0, frame: 0, data: &[], len: 0 }
    }

    /// Whether this stands for the extension `e`, and nothing but its payload is
    /// in `data`.
    pub open spec fn is(self, e: Ext) -> bool {
        &&& self.id == e.id
        &&& self.frame == e.frame
        &&& self.data@ == e.data
        &&& self.len == e.data.len()
    }
}

// ---------------------------------------------------------------------------
// Payloads
// ---------------------------------------------------------------------------

/// Reads the length of a payload off the front of `s`: how many bytes say it,
/// and the length. A byte of 255 says that another byte follows.
pub open spec fn read_lacing(s: Seq<u8>) -> Option<(int, int)>
    decreases s.len(),
{
    if s.len() == 0 {
        None
    } else if s[0] == 255 {
        match read_lacing(s.skip(1)) {
            Some((n, len)) => Some((n + 1, len + 255)),
            None => None,
        }
    } else {
        Some((1, s[0] as int))
    }
}

/// The payload at the front of `s` of an extension with the given identifier
/// byte: how many bytes say its length, and its length. A payload that takes all
/// that is left leaves `trailing` bytes. `None` where `s` is too short.
pub open spec fn payload_at(s: Seq<u8>, id_byte: u8, trailing: int) -> Option<(int, int)> {
    let id = id_byte as int / 2;
    let flag = id_byte as int % 2;
    if id_byte == 1 || id == 2 {
        Some((0, 0))
    } else if 0 < id < 32 {
        if s.len() < flag {
            None
        } else {
            Some((0, flag))
        }
    } else if flag == 0 {
        if s.len() < trailing {
            None
        } else {
            Some((0, s.len() - trailing))
        }
    } else {
        match read_lacing(s) {
            Some((n, len)) => if n + len <= s.len() {
                Some((n, len))
            } else {
                None
            },
            None => None,
        }
    }
}

pub proof fn lemma_read_lacing(s: Seq<u8>)
    ensures
        read_lacing(s) matches Some((n, len)) ==> 1 <= n <= s.len() && 0 <= len,
    decreases s.len(),
{
    if s.len() > 0 && s[0] == 255 {
        lemma_read_lacing(s.skip(1));
    }
}

pub proof fn lemma_payload_at(s: Seq<u8>, id_byte: u8, trailing: int)
    requires
        0 <= trailing,
    ensures
        payload_at(s, id_byte, trailing) matches Some((n, len)) ==> {
            &&& 0 <= n
            &&& 0 <= len
            &&& n + len <= s.len()
        },
{
    lemma_read_lacing(s);
}

/// Reads the length of a payload off `data[pos..end]`: how many bytes say it, and
/// the length. `None` where the payload does not fit.
fn parse_lacing(data: &[u8], pos: usize, end: usize) -> (r: Option<(usize, usize)>)
    requires
        pos <= end <= data.len(),
        end - pos <= i32::MAX,
    ensures
        match read_lacing(data@.subrange(pos as int, end as int)) {
            Some((n, len)) => if n + len <= end - pos {
                r matches Some(x) && x.0 == n && x.1 == len
            } else {
                r is None
            },
            None => r is None,
        },
{
    let ghost s = data@.subrange(pos as int, end as int);
    let mut n: usize = 0;
    let mut len: usize = 0;
    proof {
        assert(s.skip(0) =~= s);
    }
    loop
        invariant
            pos <= end <= data.len(),
            end - pos <= i32::MAX,
            s == data@.subrange(pos as int, end as int),
            n + len <= end - pos,
            match read_lacing(s.skip(n as int)) {
                Some((m, k)) => read_lacing(s) == Some((m + n, k + len)),
                None => read_lacing(s) is None,
            },
        decreases end - pos - n,
    {
        proof {
            lemma_read_lacing(s.skip(n as int));
        }
        if n + len >= end - pos {
            return None;
        }
        proof {
            assert(s.skip(n as int).skip(1) =~= s.skip(n + 1));
        }
        let byte: u8 = data[pos + n];
        n = n + 1;
        len = len + byte as usize;
        proof {
            lemma_read_lacing(s.skip(n as int));
        }
        if n + len > end - pos {
            return None;
        }
        if byte != 255 {
            return Some((n, len));
        }
    }
}

/// Moves `pos` past the payload of an extension with the given identifier byte.
/// Returns how much of `remaining` is left, or -1 where the payload does not fit;
/// nothing moves then.
pub fn skip_extension_payload(
    data: &[u8],
    pos: &mut usize,
    remaining: i32,
    header_size: &mut i32,
    id_byte: u8,
    trailing_short_len: i32,
) -> (r: i32)
    requires
        0 <= remaining,
        *old(pos) + remaining <= data.len(),
        0 <= trailing_short_len,
    ensures
        match payload_at(
            data@.subrange(*old(pos) as int, *old(pos) + remaining),
            id_byte,
            trailing_short_len as int,
        ) {
            Some((n, len)) => {
                &&& r == remaining - n - len
                &&& r >= 0
                &&& *final(pos) == *old(pos) + n + len
                &&& *final(header_size) == n
            },
            None => {
                &&& r == -1
                &&& *final(pos) == *old(pos)
                &&& *final(header_size) == 0
            },
        },
{
    *header_size = 0;
    let id: u8 = id_byte / 2;
    let flag: i32 = (id_byte % 2) as i32;
    let ghost s = data@.subrange(*pos as int, *pos + remaining);
    proof {
        lemma_read_lacing(s);
    }
    if id_byte == 1 || id == 2 {
        return remaining;
    }
    if 0 < id && id < 32 {
        if remaining < flag {
            return -1;
        }
        *pos = *pos + flag as usize;
        return remaining - flag;
    }
    if flag == 0 {
        if remaining < trailing_short_len {
            return -1;
        }
        *pos = *pos + (remaining - trailing_short_len) as usize;
        return trailing_short_len;
    }
    match parse_lacing(data, *pos, *pos + remaining as usize) {
        Some((n, len)) => {
            *pos = *pos + n + len;
            *header_size = n as i32;
            remaining - n as i32 - len as i32
        },
        None => -1,
    }
}

/// The extension at the front of `s`: how many bytes stand before its payload,
/// and the length of the payload.
pub open spec fn extension_at(s: Seq<u8>) -> Option<(int, int)> {
    if s.len() == 0 {
        None
    } else {
        match payload_at(s.skip(1), s[0], 0) {
            Some((n, len)) => Some((n + 1, len)),
            None => None,
        }
    }
}

pub proof fn lemma_extension_at(s: Seq<u8>)
    ensures
        extension_at(s) matches Some((n, len)) ==> {
            &&& 1 <= n
            &&& 0 <= len
            &&& n + len <= s.len()
        },
{
    if s.len() > 0 {
        lemma_payload_at(s.skip(1), s[0], 0);
    }
}

/// Moves `pos` past an extension. Returns how much of `remaining` is left, or -1
/// where the extension does not fit; nothing moves then.
pub fn skip_extension(data: &[u8], pos: &mut usize, remaining: i32, header_size: &mut i32) -> (r: i32)
    requires
        remaining <= 0 || *old(pos) + remaining <= data.len(),
    ensures
        remaining == 0 ==> r == 0 && *final(pos) == *old(pos) && *final(header_size) == 0,
        remaining < 0 ==> r == -1 && *final(pos) == *old(pos),
        remaining > 0 ==> match extension_at(data@.subrange(*old(pos) as int, *old(pos) + remaining)) {
            Some((n, len)) => {
                &&& r == remaining - n - len
                &&& r >= 0
                &&& *final(pos) == *old(pos) + n + len
                &&& *final(header_size) == n
            },
            None => {
                &&& r == -1
                &&& *final(pos) == *old(pos)
                &&& *final(header_size) == 0
            },
        },
{
    if remaining == 0 {
        *header_size = 0;
        return 0;
    }
    if remaining < 1 {
        return -1;
    }
    let saved_pos: usize = *pos;
    let ghost s = data@.subrange(*pos as int, *pos + remaining);
    proof {
        assert(s.skip(1) =~= data@.subrange(*pos + 1, *pos + remaining));
        lemma_payload_at(s.skip(1), s[0], 0);
    }
    let id_byte: u8 = data[*pos];
    *pos = *pos + 1;
    let left: i32 = skip_extension_payload(data, pos, remaining - 1, header_size, id_byte, 0);
    if left >= 0 {
        *header_size = *header_size + 1;
    } else {
        *pos = saved_pos;
    }
    left
}

// ---------------------------------------------------------------------------
// The iterator as a state machine
// ---------------------------------------------------------------------------

/// The state of an iterator over extensions.
#[verifier::ext_equal]
pub ghost struct Cursor {
    /// All the extension bytes.
    pub bytes: Seq<u8>,
    /// Frames in the packet.
    pub nb_frames: int,
    /// Extensions of this and of later frames are passed over.
    pub frame_max: int,
    /// Where the next byte is read.
    pub pos: int,
    /// Bytes that are left from there, negative once an error was met.
    pub left: int,
    /// The frame that extensions belong to here.
    pub frame: int,
    /// Where the extensions begin that a repeat would repeat.
    pub repeat_pos: int,
    /// The byte behind the last long one among them.
    pub last_long: Option<int>,
    /// Bytes of payload of the short ones behind it.
    pub trailing: int,
    /// The frame that a repeat is at, 0 outside a repeat.
    pub repeat_frame: int,
    /// The flag of the repeat.
    pub repeat_flag: int,
    /// Bytes that the repeated extensions take.
    pub repeat_len: int,
    /// Which of them comes next.
    pub src_pos: int,
    /// Bytes that are left of them from there.
    pub src_len: int,
}

/// What one call of the iterator comes to.
pub ghost enum Step {
    Found(Ext),
    Done,
    Bad,
}

/// Whether a payload is a part of the given bytes.
pub open spec fn lies_in(data: Seq<u8>, bytes: Seq<u8>) -> bool {
    exists|from: int, to: int|
        0 <= from <= to <= bytes.len() && data == #[trigger] bytes.subrange(from, to)
}

impl Cursor {
    /// A part of what is left is a part of the bytes.
    proof fn lemma_lies_in(self, from: int, to: int)
        requires
            self.ok(),
            0 <= from <= to <= self.left,
        ensures
            lies_in(self.tail().subrange(from, to), self.bytes),
    {
        assert(self.tail().subrange(from, to) =~= self.bytes.subrange(
            self.pos + from,
            self.pos + to,
        ));
    }

    /// The state in front of the first of the given extension bytes.
    pub open spec fn start(bytes: Seq<u8>, nb_frames: int) -> Cursor {
        Cursor {
            bytes,
            nb_frames,
            frame_max: nb_frames,
            pos: 0,
            left: bytes.len() as int,
            frame: 0,
            repeat_pos: 0,
            last_long: None,
            trailing: 0,
            repeat_frame: 0,
            repeat_flag: 0,
            repeat_len: 0,
            src_pos: 0,
            src_len: 0,
        }
    }

    /// What holds of every state that the iterator can be in.
    pub open spec fn ok(self) -> bool {
        &&& 0 <= self.nb_frames <= MAX_FRAMES
        &&& self.bytes.len() <= i32::MAX
        &&& 0 <= self.repeat_flag <= 1
        &&& self.left >= 0 ==> {
            &&& 0 <= self.repeat_pos <= self.pos
            &&& self.pos + self.left <= self.bytes.len()
            &&& 0 <= self.trailing <= self.pos
            &&& 0 <= self.frame <= MAX_FRAMES
            &&& self.left > 0 || self.repeat_frame > 0 ==> self.frame < self.nb_frames || self.frame == 0
            &&& 0 <= self.repeat_frame <= MAX_FRAMES
            &&& self.repeat_frame > 0 ==> {
                &&& 0 <= self.repeat_len
                &&& self.repeat_pos + self.repeat_len <= self.pos
                &&& 0 <= self.src_pos
                &&& 0 <= self.src_len
                &&& self.src_pos + self.src_len <= self.pos
            }
        }
    }

    /// The bytes that are left.
    pub open spec fn tail(self) -> Seq<u8> {
        self.bytes.subrange(self.pos, self.pos + self.left)
    }

    /// The repeated extensions that are left for this frame.
    pub open spec fn source(self) -> Seq<u8> {
        self.bytes.subrange(self.src_pos, self.src_pos + self.src_len)
    }

    /// The state once a repeat has gone through all frames. Without the flag it
    /// moves on to the next frame.
    pub open spec fn after_repeat(self) -> Cursor {
        let frame = if self.repeat_flag == 0 {
            self.frame + 1
        } else {
            self.frame
        };
        Cursor {
            repeat_pos: self.pos,
            last_long: None,
            frame,
            left: if self.repeat_flag == 0 && frame >= self.nb_frames {
                0
            } else {
                self.left
            },
            repeat_frame: 0,
            ..self
        }
    }

    /// The identifier byte that governs the payload of a repeated extension,
    /// which ends at `src_end`. The last long extension in the last frame of a
    /// repeat without the flag has no length in front of it.
    pub open spec fn repeated_id_byte(self, id_byte: u8, src_end: int) -> u8 {
        if self.repeat_flag == 0 && self.repeat_frame + 1 >= self.nb_frames && self.last_long == Some(
            src_end,
        ) {
            (id_byte - id_byte % 2) as u8
        } else {
            id_byte
        }
    }

    /// The next extension of the repeat that is under way.
    pub open spec fn next_repeat(self) -> (Step, Cursor)
        decreases self.nb_frames - self.repeat_frame, self.src_len,
        when self.ok() && self.left >= 0 && self.repeat_frame > 0
        via Self::next_repeat_decreases
    {
        if self.repeat_frame >= self.nb_frames {
            (Step::Done, self.after_repeat())
        } else if self.src_len == 0 {
            Cursor {
                src_pos: self.repeat_pos,
                src_len: self.repeat_len,
                repeat_frame: self.repeat_frame + 1,
                ..self
            }.next_repeat()
        } else {
            match extension_at(self.source()) {
                None => Cursor { src_len: 0, ..self }.next_repeat(),
                Some((n, len)) => {
                    let c = Cursor {
                        src_pos: self.src_pos + n + len,
                        src_len: self.src_len - n - len,
                        ..self
                    };
                    if self.source()[0] <= 3 {
                        c.next_repeat()
                    } else {
                        let id_byte = self.repeated_id_byte(self.source()[0], c.src_pos);
                        match payload_at(self.tail(), id_byte, self.trailing) {
                            None => (Step::Bad, Cursor { left: -1, ..c }),
                            Some((h, k)) => {
                                let d = Cursor { pos: c.pos + h + k, left: c.left - h - k, ..c };
                                if self.repeat_frame >= self.frame_max {
                                    d.next_repeat()
                                } else {
                                    (
                                        Step::Found(
                                            Ext {
                                                id: id_byte as int / 2,
                                                frame: self.repeat_frame,
                                                data: self.tail().subrange(h, h + k),
                                            },
                                        ),
                                        d,
                                    )
                                }
                            },
                        }
                    }
                },
            }
        }
    }

    #[via_fn]
    proof fn next_repeat_decreases(self) {
        lemma_extension_at(self.source());
    }

    /// The next extension from `pos` on, outside a repeat.
    pub open spec fn scan(self) -> (Step, Cursor)
        decreases self.left,
        when self.ok() && self.repeat_frame == 0
        via Self::scan_decreases
    {
        if self.left <= 0 {
            (Step::Done, self)
        } else {
            match extension_at(self.tail()) {
                None => (Step::Bad, Cursor { left: -1, ..self }),
                Some((n, len)) => {
                    let id = self.tail()[0] as int / 2;
                    let flag = self.tail()[0] as int % 2;
                    let c = Cursor { pos: self.pos + n + len, left: self.left - n - len, ..self };
                    if id == 0 {
                        c.scan()
                    } else if id == 1 {
                        let step = if flag == 0 {
                            1
                        } else {
                            self.tail()[1] as int
                        };
                        let frame = self.frame + step;
                        if step == 0 {
                            c.scan()
                        } else if frame >= self.nb_frames {
                            (Step::Bad, Cursor { frame, left: -1, ..c })
                        } else {
                            Cursor {
                                frame,
                                left: if frame >= self.frame_max {
                                    0
                                } else {
                                    c.left
                                },
                                repeat_pos: c.pos,
                                last_long: None,
                                trailing: 0,
                                ..c
                            }.scan()
                        }
                    } else if id == 2 {
                        let d = self.begin_repeat(flag, c.pos, c.left);
                        match d.next_repeat() {
                            (Step::Done, e) => if e.frame >= e.frame_max {
                                (Step::Done, e)
                            } else {
                                e.scan()
                            },
                            other => other,
                        }
                    } else {
                        (
                            Step::Found(
                                Ext { id, frame: self.frame, data: self.tail().subrange(n, n + len) },
                            ),
                            Cursor {
                                last_long: if id >= 32 {
                                    Some(c.pos)
                                } else {
                                    self.last_long
                                },
                                trailing: if id >= 32 {
                                    0
                                } else {
                                    self.trailing + flag
                                },
                                ..c
                            },
                        )
                    }
                },
            }
        }
    }

    /// The state as a repeat begins.
    pub open spec fn begin_repeat(self, flag: int, pos: int, left: int) -> Cursor {
        Cursor {
            pos,
            left,
            repeat_flag: flag,
            repeat_frame: self.frame + 1,
            repeat_len: self.pos - self.repeat_pos,
            src_pos: self.repeat_pos,
            src_len: self.pos - self.repeat_pos,
            ..self
        }
    }

    #[via_fn]
    proof fn scan_decreases(self) {
        lemma_extension_at(self.tail());
        if self.left > 0 {
            if let Some((n, len)) = extension_at(self.tail()) {
                let d = self.begin_repeat(
                    self.tail()[0] as int % 2,
                    self.pos + n + len,
                    self.left - n - len,
                );
                d.lemma_next_repeat();
            }
        }
    }

    /// A repeat reads forward and keeps the state as it should be.
    pub proof fn lemma_next_repeat(self)
        requires
            self.ok(),
            self.left >= 0,
            self.repeat_frame > 0,
        ensures
            self.next_repeat().1.ok(),
            self.next_repeat().1.left <= self.left,
            self.next_repeat().1.bytes == self.bytes,
            self.next_repeat().1.nb_frames == self.nb_frames,
            self.next_repeat().1.frame_max == self.frame_max,
            match self.next_repeat().0 {
                Step::Found(e) => {
                    let d = self.next_repeat().1;
                    &&& 0 <= e.frame < self.frame_max
                    &&& e.frame < self.nb_frames
                    &&& d.left >= 0
                    &&& d.repeat_frame >= self.repeat_frame
                    &&& d.repeat_frame < d.nb_frames
                    &&& d.repeat_frame == self.repeat_frame ==> d.src_len < self.src_len
                    &&& 2 <= e.id <= 127
                    &&& e.id < 32 ==> e.data.len() <= 1
                    &&& e.data.len() <= self.left
                    &&& lies_in(e.data, self.bytes)
                },
                Step::Done => self.next_repeat().1.repeat_frame == 0 && self.next_repeat().1.left >= 0,
                Step::Bad => self.next_repeat().1.left == -1,
            },
        decreases self.nb_frames - self.repeat_frame, self.src_len,
    {
        lemma_extension_at(self.source());
        if self.repeat_frame >= self.nb_frames {
        } else if self.src_len == 0 {
            Cursor {
                src_pos: self.repeat_pos,
                src_len: self.repeat_len,
                repeat_frame: self.repeat_frame + 1,
                ..self
            }.lemma_next_repeat();
        } else {
            match extension_at(self.source()) {
                None => {
                    Cursor { src_len: 0, ..self }.lemma_next_repeat();
                },
                Some((n, len)) => {
                    let c = Cursor {
                        src_pos: self.src_pos + n + len,
                        src_len: self.src_len - n - len,
                        ..self
                    };
                    if self.source()[0] <= 3 {
                        c.lemma_next_repeat();
                    } else {
                        let id_byte = self.repeated_id_byte(self.source()[0], c.src_pos);
                        lemma_payload_at(self.tail(), id_byte, self.trailing);
                        match payload_at(self.tail(), id_byte, self.trailing) {
                            None => {},
                            Some((h, k)) => {
                                let d = Cursor { pos: c.pos + h + k, left: c.left - h - k, ..c };
                                if self.repeat_frame >= self.frame_max {
                                    d.lemma_next_repeat();
                                } else {
                                    self.lemma_lies_in(h, h + k);
                                }
                            },
                        }
                    }
                },
            }
        }
    }

    /// Reading on keeps the state as it should be.
    pub proof fn lemma_scan(self)
        requires
            self.ok(),
            self.left >= 0,
            self.repeat_frame == 0,
        ensures
            self.scan().1.ok(),
            self.scan().1.left <= self.left,
            self.scan().1.bytes == self.bytes,
            self.scan().1.nb_frames == self.nb_frames,
            self.scan().1.frame_max == self.frame_max,
            match self.scan().0 {
                Step::Found(e) => {
                    let d = self.scan().1;
                    &&& 0 <= e.frame
                    &&& self.nb_frames > 0 ==> e.frame < self.nb_frames
                    &&& self.frame < self.frame_max ==> e.frame < self.frame_max
                    &&& 2 <= e.id <= 127
                    &&& e.id < 32 ==> e.data.len() <= 1
                    &&& 0 <= d.left < self.left
                    &&& e.data.len() <= self.left
                    &&& lies_in(e.data, self.bytes)
                },
                Step::Done => self.scan().1.repeat_frame == 0 && self.scan().1.left >= 0 && (
                self.scan().1.left == 0 || self.scan().1.frame >= self.frame_max),
                Step::Bad => self.scan().1.left == -1,
            },
        decreases self.left,
    {
        if self.left > 0 {
            lemma_extension_at(self.tail());
            if let Some((n, len)) = extension_at(self.tail()) {
                let id = self.tail()[0] as int / 2;
                let flag = self.tail()[0] as int % 2;
                let c = Cursor { pos: self.pos + n + len, left: self.left - n - len, ..self };
                if id == 0 {
                    c.lemma_scan();
                } else if id == 1 {
                    let step = if flag == 0 {
                        1
                    } else {
                        self.tail()[1] as int
                    };
                    let frame = self.frame + step;
                    if step == 0 {
                        c.lemma_scan();
                    } else if frame < self.nb_frames {
                        Cursor {
                            frame,
                            left: if frame >= self.frame_max {
                                0
                            } else {
                                c.left
                            },
                            repeat_pos: c.pos,
                            last_long: None,
                            trailing: 0,
                            ..c
                        }.lemma_scan();
                    }
                } else if id == 2 {
                    let d = self.begin_repeat(flag, c.pos, c.left);
                    d.lemma_next_repeat();
                    match d.next_repeat() {
                        (Step::Done, e) => e.lemma_scan(),
                        _ => {},
                    }
                } else {
                    self.lemma_lies_in(n, n + len);
                }
            }
        }
    }

    /// What the next call of the iterator gives, and the state after it.
    pub open spec fn next(self) -> (Step, Cursor) {
        if self.left < 0 {
            (Step::Bad, self)
        } else if self.repeat_frame > 0 {
            match self.next_repeat() {
                (Step::Done, c) => if c.frame >= c.frame_max {
                    (Step::Done, c)
                } else {
                    c.scan()
                },
                other => other,
            }
        } else if self.frame >= self.frame_max {
            (Step::Done, self)
        } else {
            self.scan()
        }
    }

    pub proof fn lemma_next(self)
        requires
            self.ok(),
        ensures
            self.next().1.ok(),
            self.next().1.bytes == self.bytes,
            self.next().1.nb_frames == self.nb_frames,
            self.next().1.frame_max == self.frame_max,
            match self.next().0 {
                Step::Found(e) => {
                    let d = self.next().1;
                    &&& 0 <= e.frame < self.frame_max
                    &&& self.frame_max <= self.nb_frames ==> e.frame < self.nb_frames
                    &&& 2 <= e.id <= 127
                    &&& e.id < 32 ==> e.data.len() <= 1
                    &&& e.data.len() <= self.bytes.len()
                    &&& lies_in(e.data, self.bytes)
                    &&& 0 <= d.left <= self.left
                    &&& d.left == self.left ==> {
                        &&& 0 < self.repeat_frame <= d.repeat_frame < d.nb_frames
                        &&& d.repeat_frame == self.repeat_frame ==> d.src_len < self.src_len
                    }
                },
                Step::Done => self.left >= 0 && self.next().1.repeat_frame == 0,
                Step::Bad => self.next().1.left < 0,
            },
    {
        if self.left >= 0 {
            if self.repeat_frame > 0 {
                self.lemma_next_repeat();
                if self.next_repeat().0 is Done {
                    self.next_repeat().1.lemma_scan();
                }
            } else {
                self.lemma_scan();
            }
        }
    }

    /// All the extensions that are yet to come, in the order of the bytes.
    pub open spec fn rest(self) -> Seq<Ext>
        decreases self.left, self.nb_frames - self.repeat_frame, self.src_len,
        when self.ok()
        via Self::rest_decreases
    {
        match self.next() {
            (Step::Found(e), c) => seq![e] + c.rest(),
            _ => Seq::empty(),
        }
    }

    #[via_fn]
    proof fn rest_decreases(self) {
        self.lemma_next();
    }

    /// Reads on to the next extension with the given identifier.
    pub open spec fn find(self, id: int) -> (Step, Cursor)
        decreases self.left, self.nb_frames - self.repeat_frame, self.src_len,
        when self.ok()
        via Self::find_decreases
    {
        match self.next() {
            (Step::Found(e), c) => if e.id == id {
                (Step::Found(e), c)
            } else {
                c.find(id)
            },
            other => other,
        }
    }

    #[via_fn]
    proof fn find_decreases(self, id: int) {
        self.lemma_next();
    }

    /// How reading to the end ends: `true` where the bytes are all right.
    pub open spec fn ends_well(self) -> bool
        decreases self.left, self.nb_frames - self.repeat_frame, self.src_len,
        when self.ok()
        via Self::ends_well_decreases
    {
        match self.next() {
            (Step::Found(e), c) => c.ends_well(),
            (Step::Done, c) => true,
            (Step::Bad, c) => false,
        }
    }

    #[via_fn]
    proof fn ends_well_decreases(self) {
        self.lemma_next();
    }
}

// ---------------------------------------------------------------------------
// The iterator
// ---------------------------------------------------------------------------

/// Iterator over the extensions in the padding of a packet.
pub struct OpusExtensionIterator<'a> {
    pub data: &'a [u8],
    /// Current read position.
    pub pos: usize,
    /// Start of the region that a repeat would repeat.
    pub repeat_pos: usize,
    /// Position past the last long extension of that region.
    pub last_long_pos: Option<usize>,
    /// Position in that region during a repeat.
    pub src_pos: usize,
    /// Total length of the extension bytes, -1 where the arguments were invalid.
    pub len: i32,
    /// Bytes left from `pos`, negative after an error.
    pub curr_len: i32,
    /// Length of the repeated region.
    pub repeat_len: i32,
    /// Bytes left of the repeated region.
    pub src_len: i32,
    /// Bytes of short payloads after the last long extension.
    pub trailing_short_len: i32,
    /// Frames in the packet.
    pub nb_frames: i32,
    /// Frame at which iteration stops.
    pub frame_max: i32,
    /// Current frame.
    pub curr_frame: i32,
    /// Current frame of a repeat, 0 outside one.
    pub repeat_frame: i32,
    /// The flag of the repeat.
    pub repeat_l: u8,
}

/// The status that an iterator step is reported by.
pub open spec fn status(s: Step) -> i32 {
    match s {
        Step::Found(e) => 1,
        Step::Done => 0,
        Step::Bad => OPUS_INVALID_PACKET,
    }
}

/// The extension that an iterator step hands out, an empty one where it finds none.
pub open spec fn found_in(s: Step) -> Ext {
    match s {
        Step::Found(e) => e,
        _ => Ext { id: 0, frame: 0, data: Seq::empty() },
    }
}

impl<'a> OpusExtensionIterator<'a> {
    /// The state as a value.
    pub open spec fn view(&self) -> Cursor {
        Cursor {
            bytes: if self.len >= 0 {
                self.data@.take(self.len as int)
            } else {
                Seq::empty()
            },
            nb_frames: self.nb_frames as int,
            frame_max: self.frame_max as int,
            pos: self.pos as int,
            left: self.curr_len as int,
            frame: self.curr_frame as int,
            repeat_pos: self.repeat_pos as int,
            last_long: match self.last_long_pos {
                Some(p) => Some(p as int),
                None => None,
            },
            trailing: self.trailing_short_len as int,
            repeat_frame: self.repeat_frame as int,
            repeat_flag: self.repeat_l as int,
            repeat_len: self.repeat_len as int,
            src_pos: self.src_pos as int,
            src_len: self.src_len as int,
        }
    }

    /// Whether the fields fit together.
    pub open spec fn wf(&self) -> bool {
        &&& -1 <= self.len <= self.data@.len()
        &&& self@.ok()
        &&& self.len < 0 ==> self.curr_len < 0
    }

    /// An iterator over the first `len` bytes of `data`, for a packet of
    /// `nb_frames` frames. Where the arguments do not fit together every step of
    /// it reports an error.
    pub fn new(data: &'a [u8], len: i32, nb_frames: i32) -> (r: Self)
        ensures
            r.wf(),
            r.data@ == data@,
            if 0 <= nb_frames <= MAX_FRAMES && 0 <= len <= data@.len() {
                r.len == len && r@ == Cursor::start(data@.take(len as int), nb_frames as int)
            } else {
                r.len == -1 && r@ == (Cursor { left: -1, ..Cursor::start(Seq::empty(), 0) })
            },
    {
        let valid = 0 <= nb_frames && nb_frames <= MAX_FRAMES as i32 && len >= 0 && (len as usize)
            <= data.len();
        let len: i32 = if valid { len } else { -1 };
        let nb_frames: i32 = if valid { nb_frames } else { 0 };
        OpusExtensionIterator {
            data,
            pos: 0,
            repeat_pos: 0,
            last_long_pos: None,
            src_pos: 0,
            len,
            curr_len: len,
            repeat_len: 0,
            src_len: 0,
            trailing_short_len: 0,
            nb_frames,
            frame_max: nb_frames,
            curr_frame: 0,
            repeat_frame: 0,
            repeat_l: 0,
        }
    }

    /// Goes back to the first extension. The frame limit stays.
    pub fn reset(&mut self)
        requires
            old(self).wf(),
        ensures
            final(self).wf(),
            final(self).data@ == old(self).data@,
            final(self).len == old(self).len,
            final(self)@ == (Cursor {
                pos: 0,
                repeat_pos: 0,
                last_long: None,
                left: old(self).len as int,
                frame: 0,
                repeat_frame: 0,
                trailing: 0,
                ..old(self)@
            }),
    {
        self.pos = 0;
        self.repeat_pos = 0;
        self.last_long_pos = None;
        self.curr_len = self.len;
        self.curr_frame = 0;
        self.repeat_frame = 0;
        self.trailing_short_len = 0;
    }

    /// Limits the iteration to frames below `frame_max`.
    pub fn set_frame_max(&mut self, frame_max: i32)
        requires
            old(self).wf(),
        ensures
            final(self).wf(),
            final(self).data@ == old(self).data@,
            final(self).len == old(self).len,
            final(self)@ == (Cursor { frame_max: frame_max as int, ..old(self)@ }),
    {
        self.frame_max = frame_max;
    }

    /// The next extension of the repeat that is under way: 1 with the extension,
    /// 0 at the end of the repeat, or the error.
    fn next_repeat(&mut self) -> (r: (i32, OpusExtensionData<'a>))
        requires
            old(self).wf(),
            old(self).curr_len >= 0,
            old(self).repeat_frame > 0,
        ensures
            final(self).wf(),
            final(self).data@ == old(self).data@,
            final(self).len == old(self).len,
            final(self)@ == old(self)@.next_repeat().1,
            r.0 == status(old(self)@.next_repeat().0),
            r.1.is(found_in(old(self)@.next_repeat().0)),
    {
        let ext = OpusExtensionData::empty();
        loop
            invariant
                self.wf(),
                self.data@ == old(self).data@,
                self.len == old(self).len,
                self.curr_len >= 0,
                self.repeat_frame > 0,
                self@.next_repeat() == old(self)@.next_repeat(),
                ext.is(found_in(Step::Done)),
            ensures
                self.wf(),
                self.data@ == old(self).data@,
                self.len == old(self).len,
                self.curr_len >= 0,
                self.repeat_frame > 0,
                self.repeat_frame >= self.nb_frames,
                self@.next_repeat() == old(self)@.next_repeat(),
            decreases self.nb_frames - self.repeat_frame, self.src_len,
        {
            if self.repeat_frame >= self.nb_frames {
                break;
            }
            proof {
                self@.lemma_next_repeat();
                lemma_extension_at(self@.source());
            }
            if self.src_len == 0 {
                self.src_pos = self.repeat_pos;
                self.src_len = self.repeat_len;
                self.repeat_frame = self.repeat_frame + 1;
                continue;
            }
            let ghost c0 = self@;
            let src_byte: u8 = self.data[self.src_pos];
            let mut header_size: i32 = 0;
            let mut src_pos: usize = self.src_pos;
            proof {
                assert(self.data@.subrange(c0.src_pos, c0.src_pos + c0.src_len) =~= c0.source());
            }
            let src_len: i32 = skip_extension(self.data, &mut src_pos, self.src_len, &mut header_size);
            if src_len < 0 {
                self.src_len = 0;
                continue;
            }
            self.src_pos = src_pos;
            self.src_len = src_len;
            if src_byte <= 3 {
                continue;
            }
            let at_last_long = match self.last_long_pos {
                Some(p) => p == src_pos,
                None => false,
            };
            let id_byte: u8 = if self.repeat_l == 0 && self.repeat_frame + 1 >= self.nb_frames
                && at_last_long {
                src_byte - src_byte % 2
            } else {
                src_byte
            };
            let ext_start: usize = self.pos;
            let mut pos: usize = self.pos;
            proof {
                assert(self.data@.subrange(c0.pos, c0.pos + c0.left) =~= c0.tail());
                lemma_payload_at(c0.tail(), id_byte, c0.trailing);
            }
            let left: i32 = skip_extension_payload(
                self.data,
                &mut pos,
                self.curr_len,
                &mut header_size,
                id_byte,
                self.trailing_short_len,
            );
            self.curr_len = left;
            if left < 0 {
                return (OPUS_INVALID_PACKET, ext);
            }
            self.pos = pos;
            if self.repeat_frame >= self.frame_max {
                continue;
            }
            let from: usize = ext_start + header_size as usize;
            let found = OpusExtensionData {
                id: (id_byte / 2) as i32,
                frame: self.repeat_frame,
                data: &self.data[from..pos],
                len: (pos - from) as i32,
            };
            proof {
                assert(found.data@ =~= c0.tail().subrange(header_size as int, pos - ext_start));
            }
            return (1, found);
        }
        self.repeat_pos = self.pos;
        self.last_long_pos = None;
        if self.repeat_l == 0 {
            self.curr_frame = self.curr_frame + 1;
            if self.curr_frame >= self.nb_frames {
                self.curr_len = 0;
            }
        }
        self.repeat_frame = 0;
        (0, ext)
    }

    /// The next extension, in the order of the bytes: 1 with the extension, 0 at
    /// the end, or the error.
    pub fn next_ext(&mut self) -> (r: (i32, OpusExtensionData<'a>))
        requires
            old(self).wf(),
        ensures
            final(self).wf(),
            final(self).data@ == old(self).data@,
            final(self).len == old(self).len,
            final(self)@ == old(self)@.next().1,
            r.0 == status(old(self)@.next().0),
            r.1.is(found_in(old(self)@.next().0)),
    {
        let none = OpusExtensionData::empty();
        if self.curr_len < 0 {
            return (OPUS_INVALID_PACKET, none);
        }
        proof {
            self@.lemma_next();
        }
        if self.repeat_frame > 0 {
            let (ret, ext) = self.next_repeat();
            if ret != 0 {
                return (ret, ext);
            }
            proof {
                old(self)@.lemma_next_repeat();
            }
        }
        if self.curr_frame >= self.frame_max {
            return (0, none);
        }
        while self.curr_len > 0
            invariant
                self.wf(),
                self.data@ == old(self).data@,
                self.len == old(self).len,
                self.curr_len >= 0,
                self.repeat_frame == 0,
                self@.scan() == old(self)@.next(),
                none.is(found_in(Step::Done)),
            decreases self.curr_len,
        {
            let ghost c0 = self@;
            proof {
                c0.lemma_scan();
                assert(self.data@.subrange(c0.pos, c0.pos + c0.left) =~= c0.tail());
                lemma_extension_at(c0.tail());
            }
            let ext_start: usize = self.pos;
            let id: i32 = (self.data[ext_start] / 2) as i32;
            let flag: i32 = (self.data[ext_start] % 2) as i32;
            let mut header_size: i32 = 0;
            let mut pos: usize = self.pos;
            let left: i32 = skip_extension(self.data, &mut pos, self.curr_len, &mut header_size);
            if left < 0 {
                self.curr_len = left;
                return (OPUS_INVALID_PACKET, none);
            }
            if id == 0 {
                self.pos = pos;
                self.curr_len = left;
            } else if id == 1 {
                self.pos = pos;
                self.curr_len = left;
                let step: i32 = if flag == 0 { 1 } else { self.data[ext_start + 1] as i32 };
                if step == 0 {
                    continue;
                }
                self.curr_frame = self.curr_frame + step;
                if self.curr_frame >= self.nb_frames {
                    self.curr_len = -1;
                    return (OPUS_INVALID_PACKET, none);
                }
                if self.curr_frame >= self.frame_max {
                    self.curr_len = 0;
                }
                self.repeat_pos = self.pos;
                self.last_long_pos = None;
                self.trailing_short_len = 0;
            } else if id == 2 {
                self.repeat_l = flag as u8;
                self.repeat_frame = self.curr_frame + 1;
                self.repeat_len = (ext_start - self.repeat_pos) as i32;
                self.src_pos = self.repeat_pos;
                self.src_len = self.repeat_len;
                self.pos = pos;
                self.curr_len = left;
                let ghost d = self@;
                proof {
                    assert(d == c0.begin_repeat(flag as int, pos as int, left as int));
                    d.lemma_next_repeat();
                }
                let (ret, ext) = self.next_repeat();
                if ret != 0 {
                    return (ret, ext);
                }
                if self.curr_frame >= self.frame_max {
                    return (0, none);
                }
            } else {
                if id >= 32 {
                    self.last_long_pos = Some(pos);
                    self.trailing_short_len = 0;
                } else {
                    self.trailing_short_len = self.trailing_short_len + flag;
                }
                self.pos = pos;
                self.curr_len = left;
                let from: usize = ext_start + header_size as usize;
                let found = OpusExtensionData {
                    id,
                    frame: self.curr_frame,
                    data: &self.data[from..pos],
                    len: (pos - from) as i32,
                };
                proof {
                    assert(found.data@ =~= c0.tail().subrange(header_size as int, pos - ext_start));
                }
                return (1, found);
            }
        }
        (0, none)
    }

    /// Reads on to the next extension with the given identifier: 1 with the
    /// extension, 0 where there is none, or the error.
    pub fn find(&mut self, id: i32) -> (r: (i32, OpusExtensionData<'a>))
        requires
            old(self).wf(),
        ensures
            final(self).wf(),
            final(self).data@ == old(self).data@,
            final(self).len == old(self).len,
            final(self)@ == old(self)@.find(id as int).1,
            r.0 == status(old(self)@.find(id as int).0),
            r.1.is(found_in(old(self)@.find(id as int).0)),
    {
        loop
            invariant
                self.wf(),
                self.data@ == old(self).data@,
                self.len == old(self).len,
                self@.find(id as int) == old(self)@.find(id as int),
            decreases self@.rest().len(),
        {
            proof {
                self@.lemma_next();
            }
            let (ret, ext) = self.next_ext();
            if ret <= 0 || ext.id == id {
                return (ret, ext);
            }
        }
    }
}

} // verus!
