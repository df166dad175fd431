//! The numbers by which the encoder's interface names modes, bandwidths,
//! applications, signal types and frame durations.

use vstd::prelude::*;

verus! {

pub const MODE_SILK_ONLY: i32 = 1000;
pub const MODE_HYBRID: i32 = 1001;
pub const MODE_CELT_ONLY: i32 = 1002;

pub const OPUS_BANDWIDTH_NARROWBAND: i32 = 1101;
pub const OPUS_BANDWIDTH_MEDIUMBAND: i32 = 1102;
pub const OPUS_BANDWIDTH_WIDEBAND: i32 = 1103;
pub const OPUS_BANDWIDTH_SUPERWIDEBAND: i32 = 1104;
pub const OPUS_BANDWIDTH_FULLBAND: i32 = 1105;

pub const OPUS_APPLICATION_VOIP: i32 = 2048;
pub const OPUS_APPLICATION_AUDIO: i32 = 2049;
pub const OPUS_APPLICATION_RESTRICTED_LOWDELAY: i32 = 2051;
pub const OPUS_APPLICATION_RESTRICTED_SILK: i32 = 2052;

/// Leave the choice to the encoder.
pub const OPUS_AUTO: i32 = -1000;

/// As many bits as fit in the packet.
pub const OPUS_BITRATE_MAX: i32 = -1;

pub const OPUS_SIGNAL_VOICE: i32 = 3001;
pub const OPUS_SIGNAL_MUSIC: i32 = 3002;

/// The frame duration is given with each frame.
pub const OPUS_FRAMESIZE_ARG: i32 = 5000;
pub const OPUS_FRAMESIZE_2_5_MS: i32 = 5001;
pub const OPUS_FRAMESIZE_5_MS: i32 = 5002;
pub const OPUS_FRAMESIZE_10_MS: i32 = 5003;
pub const OPUS_FRAMESIZE_20_MS: i32 = 5004;
pub const OPUS_FRAMESIZE_40_MS: i32 = 5005;
pub const OPUS_FRAMESIZE_60_MS: i32 = 5006;
pub const OPUS_FRAMESIZE_80_MS: i32 = 5007;
pub const OPUS_FRAMESIZE_100_MS: i32 = 5008;
pub const OPUS_FRAMESIZE_120_MS: i32 = 5009;

/// No decision on voice activity was made.
pub const VAD_NO_DECISION: i32 = -1;

/// The signal type by which the speech coder reports that there is no voice.
pub const TYPE_NO_VOICE_ACTIVITY: i32 = 0;

/// Frames of 20 ms without activity before transmission stops.
pub const NB_SPEECH_FRAMES_BEFORE_DTX: i32 = 10;

/// Frames of 20 ms for which transmission can stop.
pub const MAX_CONSECUTIVE_DTX: i32 = 20;

} // verus!
