//! Status codes and limits shared by the whole library.

use vstd::prelude::*;

verus! {

/// Success.
pub const OPUS_OK: i32 = 0;

/// An argument is out of its documented range.
pub const OPUS_BAD_ARG: i32 = -1;

/// The output does not fit in the given number of bytes.
pub const OPUS_BUFFER_TOO_SMALL: i32 = -2;

/// Stored data turned out to be inconsistent.
pub const OPUS_INTERNAL_ERROR: i32 = -3;

/// The bytes are not a valid packet.
pub const OPUS_INVALID_PACKET: i32 = -4;

/// Most frames that one packet can hold (120 ms of 2.5 ms frames).
pub const MAX_FRAMES: usize = 48;

/// Longest frame that a packet can hold, in bytes.
pub const MAX_FRAME_BYTES: i32 = 1275;

} // verus!
