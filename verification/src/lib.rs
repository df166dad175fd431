//! Verified core of an Opus codec: packet framing, packet extensions,
//! repacketizing, and the encoder's control logic.

use vstd::prelude::*;

pub mod arith;
pub mod bandwidth_law;
pub mod bare;
pub mod coders;
pub mod choice_law;
pub mod codes;
pub mod dred;
pub mod dred_law;
pub mod dsp;
pub mod encoder;
pub mod extension_bound;
pub mod extension_errors;
pub mod extension_gen;
pub mod extension_iter;
pub mod extension_law;
pub mod extension_order;
pub mod extension_steps;
pub mod extensions;
pub mod finish;
pub mod frame;
pub mod frame_law;
pub mod input_law;
pub mod modes;
pub mod music;
pub mod music_law;
pub mod packet;
pub mod packing;
pub mod packing_law;
pub mod padding;
pub mod plan;
pub mod plan_law;
pub mod rates;
pub mod rates_law;
pub mod repacketizer;
pub mod rounding;
pub mod several;
pub mod several_law;
pub mod silence_law;
pub mod speech;
pub mod speech_law;
pub mod stages;

pub use crate::coders::CeltEncoderStateExt;
pub use crate::dred::{ropus_test_compute_dred_bitrate, ropus_test_estimate_dred_bitrate};
pub use crate::dsp::{hp_cutoff_debug, StereoWidthState};
pub use crate::encoder::{OpusEncoder, OpusEncoderStereoSnapshot, SilkEncoderSnapshot};
pub use crate::extension_gen::opus_packet_extensions_generate;
pub use crate::extension_iter::{OpusExtensionData, OpusExtensionIterator};
pub use crate::extensions::{
    opus_packet_extensions_count, opus_packet_extensions_count_ext, opus_packet_extensions_parse,
    opus_packet_extensions_parse_ext,
};
pub use crate::padding::{
    opus_multistream_packet_pad, opus_multistream_packet_unpad, opus_packet_pad, opus_packet_unpad,
};
pub use crate::repacketizer::OpusRepacketizer;

verus! {

}
