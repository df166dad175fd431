//! From input to packet, with coders that write fixed bytes.

use opus_core::bare::choose_shape;
use opus_core::coders::AnalysisInfo;
use opus_core::codes::{
    OPUS_BAD_ARG, OPUS_BUFFER_TOO_SMALL, OPUS_INTERNAL_ERROR, OPUS_INVALID_PACKET, OPUS_OK,
};
use opus_core::encoder::OpusEncoder;
use opus_core::extension_iter::OpusExtensionIterator;
use opus_core::finish::{Ending, FrameEnd};
use opus_core::modes::{
    MODE_CELT_ONLY, MODE_HYBRID, MODE_SILK_ONLY, OPUS_APPLICATION_AUDIO,
    OPUS_APPLICATION_RESTRICTED_LOWDELAY, OPUS_APPLICATION_VOIP, OPUS_AUTO,
    OPUS_BANDWIDTH_FULLBAND, OPUS_BANDWIDTH_MEDIUMBAND, OPUS_BANDWIDTH_NARROWBAND,
    OPUS_BANDWIDTH_SUPERWIDEBAND, OPUS_BANDWIDTH_WIDEBAND, OPUS_BITRATE_MAX,
    OPUS_FRAMESIZE_100_MS, OPUS_FRAMESIZE_10_MS, OPUS_FRAMESIZE_120_MS, OPUS_FRAMESIZE_20_MS,
    OPUS_FRAMESIZE_2_5_MS, OPUS_FRAMESIZE_40_MS, OPUS_FRAMESIZE_5_MS, OPUS_FRAMESIZE_60_MS,
    OPUS_FRAMESIZE_80_MS, OPUS_SIGNAL_MUSIC, OPUS_SIGNAL_VOICE,
};
use opus_core::packet::{opus_packet_get_nb_frames, opus_packet_get_samples_per_frame, parse_packet};
use opus_core::music::Symbol;
use opus_core::plan::{FramePlan, Plan};
use opus_core::rates::{compute_silk_rate_for_hybrid, frame_size_select};
use opus_core::stages::Stage;

/// The window of music frames.
const WINDOW: [i16; 120] = [
    2, 20, 55, 108, 178, 266, 372, 494, 635, 792, 966, 1157,
    1365, 1590, 1831, 2089, 2362, 2651, 2956, 3276, 3611, 3961, 4325, 4703,
    5094, 5499, 5916, 6346, 6788, 7241, 7705, 8179, 8663, 9156, 9657, 10167,
    10684, 11207, 11736, 12271, 12810, 13353, 13899, 14447, 14997, 15547, 16098, 16648,
    17197, 17744, 18287, 18827, 19363, 19893, 20418, 20936, 21447, 21950, 22445, 22931,
    23407, 23874, 24330, 24774, 25208, 25629, 26039, 26435, 26819, 27190, 27548, 27893,
    28224, 28541, 28845, 29135, 29411, 29674, 29924, 30160, 30384, 30594, 30792, 30977,
    31151, 31313, 31463, 31602, 31731, 31849, 31958, 32057, 32148, 32229, 32303, 32370,
    32429, 32481, 32528, 32568, 32604, 32634, 32661, 32683, 32701, 32717, 32729, 32740,
    32748, 32754, 32758, 32762, 32764, 32766, 32767, 32767, 32767, 32767, 32767, 32767,
];

fn patterned_pcm_i16(frame_size: usize, channels: usize, seed: i32) -> Vec<i16> {
    (0..frame_size * channels)
        .map(|i| {
            let base = ((i as i32 * 7919 + seed * 911) % 28000) - 14000;
            if channels == 2 && i % 2 == 1 {
                (base / 2) as i16
            } else {
                base as i16
            }
        })
        .collect()
}

fn packet_mode_from_toc(packet: &[u8]) -> i32 {
    if packet[0] & 0x80 != 0 {
        MODE_CELT_ONLY
    } else if (packet[0] & 0x60) == 0x60 {
        MODE_HYBRID
    } else {
        MODE_SILK_ONLY
    }
}

/// Codes one frame with coders that write as many bytes as they may, all alike.
fn code_frame(
    enc: &mut OpusEncoder,
    pcm: &[i16],
    frame_size: i32,
    plan: &FramePlan,
    info: &AnalysisInfo,
    data: &mut [u8],
) -> Result<i32, i32> {
    let (mut run, mut buf) = enc.start_frame(pcm, frame_size, plan, info);
    let mut tell = 1;
    let mut main_bytes = 0;
    let mut bytes = 0;
    let mut stage = Stage::Start;
    while stage != Stage::End {
        stage = enc.next_stage(&run, stage);
        match stage {
            Stage::Tell => enc.set_up_silk(&mut run),
            Stage::WarmSpeech => enc.ramp_delay_buffer(&WINDOW),
            Stage::Speech => {
                enc.silk_mode.internal_sample_rate = enc.silk_mode.desired_internal_sample_rate;
                enc.silk_mode.signal_type = if plan.is_silence { 0 } else { 1 };
                enc.silk_mode.stereo_width_q14 = 16384;
                tell = 8 * (run.max_data_bytes - 1).min(20);
                assert!(!enc.after_speech(&mut run, 20, data));
            }
            Stage::Shape => {
                enc.shape_frame(&run, &mut buf, &WINDOW);
                let announced = enc.can_announce(&run, tell);
                enc.settle_redundancy(&mut run, announced, tell);
                main_bytes = enc.find_main_bytes(&run, tell);
                bytes = main_bytes;
            }
            Stage::LeadShort => enc.aim_short_frame(true),
            Stage::Aim => enc.aim_celt(),
            Stage::Music => {
                if enc.use_vbr != 0 {
                    bytes = bytes.min(50);
                }
            }
            Stage::TrailShort => enc.aim_short_frame(false),
            _ => {}
        }
    }
    for i in 0..bytes as usize {
        data[1 + i] = (i % 250 + 1) as u8;
    }
    if run.redundancy {
        let short = vec![0xEEu8; run.redundancy_bytes as usize];
        enc.place_short_frame(data, main_bytes, bytes, &short);
    }
    let end = FrameEnd { bytes, main_rng: 0x1234, redundant_rng: 0, bits_used: tell };
    match enc.end_frame(&run, &end, data)? {
        Ending::LeftOut => Ok(1),
        Ending::Sent(len) => Ok(enc.fill_packet(&run, data, len)),
    }
}

/// Codes a packet.
fn code(enc: &mut OpusEncoder, pcm: &[i16], frame_size: i32, data: &mut [u8], max: i32) -> Result<i32, i32> {
    let info = AnalysisInfo::default();
    match enc.encode(pcm, frame_size, data, max, &info)? {
        Plan::Bare(len) => Ok(len),
        Plan::Single(plan) => {
            let n = frame_size_select(frame_size, enc.variable_duration, enc.fs);
            code_frame(enc, pcm, n, &plan, &info, data)
        }
        Plan::Several(plan) => {
            let n = frame_size_select(frame_size, enc.variable_duration, enc.fs);
            code_frames(enc, pcm, n, &plan, data)
        }
    }
}

/// Codes the parts of a packet, and joins them.
fn code_frames(enc: &mut OpusEncoder, pcm: &[i16], frame_size: i32, plan: &FramePlan, data: &mut [u8]) -> Result<i32, i32> {
    let info = AnalysisInfo::default();
    let split = enc.split_frame(frame_size, plan, None)?;
    let mut packets: Vec<Vec<u8>> = Vec::new();
    for i in 0..split.nb_frames {
        let part = enc.plan_part(&split, plan, &packets, pcm);
        let mut packet = vec![0u8; part.max_data_bytes as usize];
        let from = (i * split.frame_size * enc.channels) as usize;
        let len = code_frame(enc, &pcm[from..], split.frame_size, &part, &info, &mut packet)?;
        packet.truncate(len as usize);
        packets.push(packet);
    }
    enc.join_parts(&split, &packets, data)
}

fn plan_for(max_data_bytes: i32, equiv_rate: i32) -> FramePlan {
    FramePlan {
        max_data_bytes,
        lsb_depth: 16,
        dred_bitrate_bps: 0,
        is_silence: false,
        redundancy: false,
        celt_to_silk: false,
        to_celt: false,
        prefill: 0,
        equiv_rate,
    }
}

#[test]
fn test_encode_native_argument_and_silence_paths() {
    let mut enc = OpusEncoder::new(48000, 1, OPUS_APPLICATION_AUDIO).unwrap();
    let mut empty: [u8; 0] = [];
    assert_eq!(enc.encode_native(&[], 0, &mut empty, 0, 16), Err(OPUS_BAD_ARG));

    let pcm = patterned_pcm_i16(4800, 1, 19);
    let mut tiny_packet = [0u8; 1];
    assert_eq!(enc.encode_native(&pcm, 4800, &mut tiny_packet, 1, 16), Err(OPUS_BUFFER_TOO_SMALL));

    assert_eq!(enc.set_vbr(0), OPUS_OK);
    assert_eq!(enc.set_bitrate(64000), OPUS_OK);

    let silence = [0i16; 960];
    let mut packet = vec![0u8; 1500];
    let packet_len = packet.len() as i32;
    let plan = enc.encode_native(&silence, 960, &mut packet, packet_len, 16).unwrap();
    let len = match plan {
        Plan::Single(plan) => {
            assert!(plan.is_silence);
            code_frame(&mut enc, &silence, 960, &plan, &AnalysisInfo::default(), &mut packet).unwrap()
        }
        _ => panic!("one frame"),
    };

    assert!(len > 1);
    assert_eq!(len, 160);
    assert_eq!(enc.peak_signal_energy, 0);
    assert_eq!(enc.voice_ratio, -1);
}

#[test]
fn test_encode_multiframe_silk_special_frame_sizes() {
    let mut enc = OpusEncoder::new(16000, 1, OPUS_APPLICATION_VOIP).unwrap();
    assert_eq!(enc.set_force_mode(MODE_SILK_ONLY), OPUS_OK);
    assert_eq!(enc.set_bandwidth(OPUS_BANDWIDTH_WIDEBAND), OPUS_OK);
    assert_eq!(enc.set_bitrate(24000), OPUS_OK);
    assert_eq!(enc.set_vbr(1), OPUS_OK);
    assert_eq!(enc.set_signal(OPUS_SIGNAL_VOICE), OPUS_OK);
    enc.mode = MODE_SILK_ONLY;

    let mut packet = vec![0u8; 1500];
    let capacity = packet.len() as i32;
    let plan = plan_for(capacity, enc.bitrate_bps);

    let pcm_80 = patterned_pcm_i16((2 * enc.fs / 25) as usize, 1, 1401);
    let size = 2 * enc.fs / 25;
    let len_80 = code_frames(&mut enc, &pcm_80, size, &plan, &mut packet).unwrap();
    assert!(len_80 > 1);
    assert_eq!(enc.nonfinal_frame, 0);
    // Two frames of 40 ms.
    assert_eq!(opus_packet_get_nb_frames(&packet), Ok(2));
    assert_eq!(opus_packet_get_samples_per_frame(&packet, 16000), 640);

    let pcm_120 = patterned_pcm_i16((3 * enc.fs / 25) as usize, 1, 1403);
    let size = 3 * enc.fs / 25;
    let len_120 = code_frames(&mut enc, &pcm_120, size, &plan, &mut packet).unwrap();
    assert!(len_120 > 1);
    assert_eq!(enc.nonfinal_frame, 0);
    // Two frames of 60 ms.
    assert_eq!(opus_packet_get_nb_frames(&packet), Ok(2));
    assert_eq!(opus_packet_get_samples_per_frame(&packet, 16000), 960);
}

#[test]
fn test_encode_frame_native_celt_resets_silk_bw_switch() {
    let mut enc = OpusEncoder::new(48000, 1, OPUS_APPLICATION_RESTRICTED_LOWDELAY).unwrap();
    assert_eq!(enc.set_bitrate(32000), OPUS_OK);
    assert_eq!(enc.set_vbr(1), OPUS_OK);
    enc.mode = MODE_CELT_ONLY;
    enc.prev_mode = MODE_CELT_ONLY;
    enc.bandwidth = OPUS_BANDWIDTH_FULLBAND;
    enc.silk_bw_switch = 1;

    let pcm = patterned_pcm_i16(960, 1, 1601);
    let mut packet = vec![0u8; 1500];
    let packet_capacity = packet.len() as i32;
    let plan = plan_for(packet_capacity, enc.bitrate_bps);
    let len = code_frame(&mut enc, &pcm, 960, &plan, &AnalysisInfo::default(), &mut packet).unwrap();

    assert!(len > 1);
    assert_eq!(enc.silk_bw_switch, 0);
    assert_eq!(packet_mode_from_toc(&packet[..len as usize]), MODE_CELT_ONLY);
}

/// The highest internal sampling rate of a speech frame in `max` bytes.
fn top_rate(frame_size: i32, max: i32, seed: i32) -> i32 {
    let mut enc = OpusEncoder::new(48000, 1, OPUS_APPLICATION_VOIP).unwrap();
    enc.mode = MODE_SILK_ONLY;
    enc.prev_mode = MODE_SILK_ONLY;
    enc.bandwidth = OPUS_BANDWIDTH_WIDEBAND;
    let pcm = patterned_pcm_i16(frame_size as usize, 1, seed);
    let plan = plan_for(max, 6000);
    let (mut run, _) = enc.start_frame(&pcm, frame_size, &plan, &AnalysisInfo::default());
    enc.set_up_silk(&mut run);
    enc.silk_mode.max_internal_sample_rate
}

#[test]
fn test_effective_max_rate_narrows_silk_internal_rate() {
    assert_eq!(top_rate(960, 25, 501), 16000, "rate >= 8000: max_internal_sample_rate should stay at 16000");
    assert_eq!(top_rate(960, 18, 502), 12000, "rate < 8000: max_internal_sample_rate should be capped at 12000");
    assert_eq!(top_rate(960, 15, 503), 8000, "rate < 7000: max_internal_sample_rate should be capped at 8000");
}

#[test]
fn test_effective_max_rate_high_frame_rate_penalty() {
    assert_eq!(top_rate(480, 15, 601), 16000, "post-penalty rate == 8000 should not trigger narrowing");
    assert_eq!(top_rate(480, 14, 602), 12000, "post-penalty rate 7466 < 8000 should cap at 12000");
    assert_eq!(top_rate(480, 13, 603), 8000, "post-penalty rate 6933 < 7000 should cap at 8000");
}

#[test]
fn test_encode_emits_toc_only_packet_for_tiny_budget() {
    let mut enc = OpusEncoder::new(48000, 1, OPUS_APPLICATION_AUDIO).unwrap();
    let pcm = patterned_pcm_i16(960, 1, 7);
    let mut packet = [0u8; 2];

    let len = code(&mut enc, &pcm, 960, &mut packet, 2).unwrap();

    assert_eq!(len, 1);
    assert_ne!(packet[0], 0);
    assert_eq!(enc.get_final_range(), 0);
}

#[test]
fn test_encode_rejects_one_byte_100ms_packet() {
    let mut enc = OpusEncoder::new(48000, 1, OPUS_APPLICATION_AUDIO).unwrap();
    let pcm = patterned_pcm_i16(4800, 1, 19);
    let mut packet = [0u8; 1];
    assert_eq!(code(&mut enc, &pcm, 4800, &mut packet, 1), Err(OPUS_BUFFER_TOO_SMALL));
}

#[test]
fn test_encode_wrappers_reject_invalid_selected_frame_size() {
    let mut enc = OpusEncoder::new(48000, 2, OPUS_APPLICATION_AUDIO).unwrap();
    enc.variable_duration = 12_345;
    let pcm_i16 = patterned_pcm_i16(960, 2, 77);
    let mut packet = [0u8; 16];
    assert_eq!(code(&mut enc, &pcm_i16, 960, &mut packet, 16), Err(OPUS_BAD_ARG));
}

#[test]
fn bc_encode_tiny_budget_returns_toc() {
    let mut enc = OpusEncoder::new(48000, 1, OPUS_APPLICATION_AUDIO).unwrap();
    let pcm = patterned_pcm_i16(960, 1, 6400);
    let mut packet = [0u8; 2];
    let len = code(&mut enc, &pcm, 960, &mut packet, 2).unwrap();
    assert_eq!(len, 1);
}

#[test]
fn bc_tiny_budget_with_prior_mode() {
    let mut enc = OpusEncoder::new(48000, 1, OPUS_APPLICATION_AUDIO).unwrap();
    assert_eq!(enc.set_bitrate(64000), OPUS_OK);
    let pcm = patterned_pcm_i16(960, 1, 9001);
    let mut packet = vec![0u8; 1500];
    let _ = code(&mut enc, &pcm, 960, &mut packet, 1500).unwrap();
    assert!(enc.get_prev_mode() > 0);
    let mut tiny = [0u8; 2];
    let len = code(&mut enc, &pcm, 960, &mut tiny, 2).unwrap();
    assert_eq!(len, 1);
}

#[test]
fn bc_tiny_budget_first_frame_zero_bandwidth() {
    let mut enc = OpusEncoder::new(48000, 1, OPUS_APPLICATION_AUDIO).unwrap();
    enc.bandwidth = 0;
    let pcm = patterned_pcm_i16(960, 1, 9100);
    let mut tiny = [0u8; 2];
    let len = code(&mut enc, &pcm, 960, &mut tiny, 2).unwrap();
    assert_eq!(len, 1);
}

#[test]
fn without_a_bandwidth_narrowband_is_meant() {
    assert_eq!(choose_shape(0, 0, 50, false).bandwidth, OPUS_BANDWIDTH_NARROWBAND);
}

#[test]
fn test_lfe_forces_celt_only_narrowband() {
    let mut enc = OpusEncoder::new(48000, 1, OPUS_APPLICATION_AUDIO).unwrap();
    assert_eq!(enc.set_lfe(1), OPUS_OK);
    assert_eq!(enc.set_bitrate(32000), OPUS_OK);
    assert_eq!(enc.set_vbr(1), OPUS_OK);

    let pcm = patterned_pcm_i16(960, 1, 2601);
    let mut packet = vec![0u8; 1500];
    let cap = packet.len() as i32;
    let len = code(&mut enc, &pcm, 960, &mut packet, cap).unwrap();
    assert!(len > 0);
    assert_eq!(enc.get_mode(), MODE_CELT_ONLY);
    assert_eq!(enc.get_bandwidth(), OPUS_BANDWIDTH_NARROWBAND);
}

#[test]
fn test_restricted_lowdelay_forces_celt_zero_delay() {
    let mut enc = OpusEncoder::new(48000, 1, OPUS_APPLICATION_RESTRICTED_LOWDELAY).unwrap();
    assert_eq!(enc.set_bitrate(64000), OPUS_OK);
    assert_eq!(enc.set_vbr(1), OPUS_OK);
    assert_eq!(enc.set_expert_frame_duration(OPUS_FRAMESIZE_2_5_MS), OPUS_OK);

    let pcm = patterned_pcm_i16(120, 1, 2701);
    let mut packet = vec![0u8; 1500];
    let cap = packet.len() as i32;
    let len = code(&mut enc, &pcm, 120, &mut packet, cap).unwrap();
    assert!(len > 0);
    assert_eq!(enc.get_mode(), MODE_CELT_ONLY);
    assert_eq!(enc.get_lookahead(), 120);
}

#[test]
fn test_encode_12khz_mediumband() {
    let mut enc = OpusEncoder::new(12000, 1, OPUS_APPLICATION_VOIP).unwrap();
    assert_eq!(enc.set_bitrate(16000), OPUS_OK);
    assert_eq!(enc.set_vbr(1), OPUS_OK);
    assert_eq!(enc.set_signal(OPUS_SIGNAL_VOICE), OPUS_OK);

    let pcm = patterned_pcm_i16(240, 1, 3801);
    let mut packet = vec![0u8; 1500];
    let cap = packet.len() as i32;
    let len = code(&mut enc, &pcm, 240, &mut packet, cap).unwrap();
    assert!(len > 0);
    assert!(enc.get_bandwidth() <= OPUS_BANDWIDTH_MEDIUMBAND);
}

#[test]
fn test_encode_8khz_narrowband_hp_filter() {
    let mut enc = OpusEncoder::new(8000, 1, OPUS_APPLICATION_VOIP).unwrap();
    assert_eq!(enc.set_bitrate(12000), OPUS_OK);
    assert_eq!(enc.set_vbr(1), OPUS_OK);
    assert_eq!(enc.set_signal(OPUS_SIGNAL_VOICE), OPUS_OK);

    let pcm = patterned_pcm_i16(160, 1, 3601);
    let mut packet = vec![0u8; 1500];
    let cap = packet.len() as i32;
    let len = code(&mut enc, &pcm, 160, &mut packet, cap).unwrap();
    assert!(len > 0);
    assert_eq!(enc.get_bandwidth(), OPUS_BANDWIDTH_NARROWBAND);
}

#[test]
fn bc_16k_bandwidth_cap() {
    let mut enc = OpusEncoder::new(16000, 1, OPUS_APPLICATION_AUDIO).unwrap();
    assert_eq!(enc.set_bandwidth(OPUS_BANDWIDTH_FULLBAND), OPUS_OK);
    assert_eq!(enc.set_bitrate(32000), OPUS_OK);
    let pcm = patterned_pcm_i16(320, 1, 11000);
    let mut packet = vec![0u8; 1500];
    let _ = code(&mut enc, &pcm, 320, &mut packet, 1500).unwrap();
    assert_eq!(enc.get_bandwidth(), OPUS_BANDWIDTH_WIDEBAND);
}

#[test]
fn bc_8k_bandwidth_cap() {
    let mut enc = OpusEncoder::new(8000, 1, OPUS_APPLICATION_VOIP).unwrap();
    assert_eq!(enc.set_bandwidth(OPUS_BANDWIDTH_WIDEBAND), OPUS_OK);
    assert_eq!(enc.set_bitrate(16000), OPUS_OK);
    let pcm = patterned_pcm_i16(160, 1, 11200);
    let mut packet = vec![0u8; 1500];
    let _ = code(&mut enc, &pcm, 160, &mut packet, 1500).unwrap();
    assert_eq!(enc.get_bandwidth(), OPUS_BANDWIDTH_NARROWBAND);
}

#[test]
fn test_signal_type_music_voice_estimation() {
    let mut enc = OpusEncoder::new(48000, 2, OPUS_APPLICATION_AUDIO).unwrap();
    assert_eq!(enc.set_signal(OPUS_SIGNAL_MUSIC), OPUS_OK);
    assert_eq!(enc.set_bitrate(96000), OPUS_OK);
    assert_eq!(enc.set_vbr(1), OPUS_OK);

    let pcm = patterned_pcm_i16(960, 2, 3301);
    let mut packet = vec![0u8; 1500];
    let cap = packet.len() as i32;
    let len = code(&mut enc, &pcm, 960, &mut packet, cap).unwrap();
    assert!(len > 1);
    assert_eq!(enc.get_mode(), MODE_CELT_ONLY);
}

#[test]
fn test_ctl_get_in_dtx_drives_through_encode() {
    let mut enc = OpusEncoder::new(48000, 1, OPUS_APPLICATION_VOIP).unwrap();
    assert_eq!(enc.set_force_mode(MODE_CELT_ONLY), OPUS_OK);
    assert_eq!(enc.set_bitrate(32000), OPUS_OK);
    assert_eq!(enc.set_vbr(1), OPUS_OK);
    assert_eq!(enc.set_dtx(1), OPUS_OK);
    assert_eq!(enc.get_in_dtx(), 0);

    let pcm_active = patterned_pcm_i16(960, 1, 2101);
    let mut packet = vec![0u8; 1500];
    let cap = packet.len() as i32;
    let _ = code(&mut enc, &pcm_active, 960, &mut packet, cap).unwrap();

    let silence = [0i16; 960];
    let mut flipped = false;
    for _ in 0..20 {
        let _ = code(&mut enc, &silence, 960, &mut packet, cap).unwrap();
        if enc.get_in_dtx() == 1 {
            flipped = true;
            break;
        }
    }
    assert!(flipped, "expected get_in_dtx() to report 1 after sustained silence");
}

#[test]
fn test_dtx_activation_celt_silence_path() {
    let mut enc = OpusEncoder::new(48000, 1, OPUS_APPLICATION_AUDIO).unwrap();
    assert_eq!(enc.set_force_mode(MODE_CELT_ONLY), OPUS_OK);
    assert_eq!(enc.set_bitrate(32000), OPUS_OK);
    assert_eq!(enc.set_vbr(1), OPUS_OK);
    assert_eq!(enc.set_dtx(1), OPUS_OK);

    let silence = [0i16; 960];
    let mut packet = vec![0u8; 1500];
    let cap = packet.len() as i32;
    let pcm_active = patterned_pcm_i16(960, 1, 2101);
    let _ = code(&mut enc, &pcm_active, 960, &mut packet, cap).unwrap();

    let mut got_dtx = false;
    for _ in 0..15 {
        let len = code(&mut enc, &silence, 960, &mut packet, cap).unwrap();
        if len == 1 {
            got_dtx = true;
            assert_eq!(enc.get_final_range(), 0);
            break;
        }
    }
    assert!(got_dtx, "expected DTX 1-byte packet after sustained silence");
}

#[test]
fn test_hybrid_silk_rate_interpolation_with_fec() {
    assert_eq!(
        compute_silk_rate_for_hybrid(32000, OPUS_BANDWIDTH_SUPERWIDEBAND, true, 0, 1, 1),
        28400
    );
    assert_eq!(
        compute_silk_rate_for_hybrid(32000, OPUS_BANDWIDTH_FULLBAND, true, 1, 0, 1),
        22000
    );
    assert_eq!(
        compute_silk_rate_for_hybrid(200000, OPUS_BANDWIDTH_FULLBAND, true, 1, 1, 2),
        135000
    );
    let mut enc = OpusEncoder::new(48000, 2, OPUS_APPLICATION_VOIP).unwrap();
    assert_eq!(enc.set_force_mode(MODE_HYBRID), OPUS_OK);
    assert_eq!(enc.set_bitrate(48000), OPUS_OK);
    assert_eq!(enc.set_vbr(1), OPUS_OK);
    assert_eq!(enc.set_inband_fec(1), OPUS_OK);
    assert_eq!(enc.set_packet_loss_perc(10), OPUS_OK);

    let pcm = patterned_pcm_i16(960, 2, 2201);
    let mut packet = vec![0u8; 1500];
    let cap = packet.len() as i32;
    let len = code(&mut enc, &pcm, 960, &mut packet, cap).unwrap();
    assert!(len > 1);
    assert_eq!(enc.get_mode(), MODE_HYBRID);
}

#[test]
fn test_encode_multiframe_cbr_padding_and_wrapper_errors() {
    let mut enc = OpusEncoder::new(48000, 1, OPUS_APPLICATION_AUDIO).unwrap();
    assert_eq!(enc.set_vbr(0), OPUS_OK);
    assert_eq!(enc.set_bitrate(32000), OPUS_OK);

    let pcm = patterned_pcm_i16(3840, 1, 1201);
    let mut packet = vec![0u8; 400];
    let len = code(&mut enc, &pcm, 3840, &mut packet, 200).unwrap();
    assert_eq!(len, 200);
    assert!(enc.get_prev_mode() > 0);
    assert!(enc.get_final_range() != 0);
    assert_eq!(code(&mut enc, &pcm, -1, &mut packet, 200), Err(OPUS_BAD_ARG));
}

#[test]
fn test_encode_stereo_voice_ratio_forced_mono_transition_path() {
    let mut enc = OpusEncoder::new(48000, 2, OPUS_APPLICATION_AUDIO).unwrap();
    assert_eq!(enc.set_force_mode(MODE_SILK_ONLY), OPUS_OK);
    assert_eq!(enc.set_bandwidth(OPUS_BANDWIDTH_WIDEBAND), OPUS_OK);
    assert_eq!(enc.set_max_bandwidth(OPUS_BANDWIDTH_WIDEBAND), OPUS_OK);
    assert_eq!(enc.set_force_channels(1), OPUS_OK);
    assert_eq!(enc.set_voice_ratio(80), OPUS_OK);
    assert_eq!(enc.set_signal(OPUS_AUTO), OPUS_OK);
    assert_eq!(enc.set_bitrate(20000), OPUS_OK);
    assert_eq!(enc.set_vbr(1), OPUS_OK);

    enc.prev_mode = MODE_SILK_ONLY;
    enc.prev_channels = 2;
    enc.stream_channels = 2;
    enc.silk_mode.to_mono = 0;

    let pcm = patterned_pcm_i16(960, 2, 1501);
    let mut packet = vec![0u8; 1500];
    let packet_capacity = packet.len() as i32;
    let len = code(&mut enc, &pcm, 960, &mut packet, packet_capacity).unwrap();

    assert!(len > 1);
    assert_ne!(enc.get_mode(), MODE_CELT_ONLY);
    assert_eq!(packet_mode_from_toc(&packet[..len as usize]), enc.get_mode());
    assert_eq!(enc.silk_mode.to_mono, 1);
    assert_eq!(enc.get_stream_channels(), 2);
}

#[test]
fn packets_without_frames_tell_their_duration() {
    let cases: [(i32, i32, &[u8]); 6] = [
        (960, 2, &[0x78]),
        (1920, 2, &[0x79]),
        (2880, 2, &[0x7B, 3]),
        (5760, 2, &[0x7B, 6]),
        (5760, 1, &[0x59]),
        (120, 2, &[0xE0]),
    ];
    for (size, max, expected) in cases {
        let mut enc = OpusEncoder::new(48000, 1, OPUS_APPLICATION_AUDIO).unwrap();
        let pcm = patterned_pcm_i16(size as usize, 1, 3);
        let mut packet = [0u8; 2];
        let len = code(&mut enc, &pcm, size, &mut packet, max).unwrap();
        assert_eq!(&packet[..len as usize], expected, "{} samples", size);
    }
}

#[test]
fn packets_without_frames_are_filled_up() {
    let mut enc = OpusEncoder::new(48000, 1, OPUS_APPLICATION_AUDIO).unwrap();
    assert_eq!(enc.set_vbr(0), OPUS_OK);
    assert_eq!(enc.set_bitrate(1500), OPUS_OK);
    let pcm = patterned_pcm_i16(1920, 1, 3);
    let mut packet = [9u8; 20];
    let len = code(&mut enc, &pcm, 1920, &mut packet, 20).unwrap();
    assert_eq!(len, 8);
    assert_eq!(packet[..9], [0x7B, 0x42, 5, 0, 0, 0, 0, 0, 9]);
}

#[test]
fn a_change_to_music_is_led_over() {
    let mut enc = OpusEncoder::new(48000, 1, OPUS_APPLICATION_AUDIO).unwrap();
    assert_eq!(enc.set_bitrate(32000), OPUS_OK);
    assert_eq!(enc.set_force_mode(MODE_SILK_ONLY), OPUS_OK);
    let pcm = patterned_pcm_i16(960, 1, 5);
    let mut packet = vec![0u8; 1500];
    code(&mut enc, &pcm, 960, &mut packet, 1500).unwrap();
    let speech = enc.get_mode();
    assert_ne!(speech, MODE_CELT_ONLY);
    assert_eq!(enc.set_force_mode(MODE_CELT_ONLY), OPUS_OK);
    // One more frame of speech carries the short music frame.
    let len = code(&mut enc, &pcm, 960, &mut packet, 1500).unwrap();
    assert_eq!(enc.get_mode(), speech);
    assert_eq!(enc.get_prev_mode(), MODE_CELT_ONLY);
    assert_eq!(packet[len as usize - 1], 0xEE);
    code(&mut enc, &pcm, 960, &mut packet, 1500).unwrap();
    assert_eq!(enc.get_mode(), MODE_CELT_ONLY);
    // Frames below 10 ms change at once.
    let mut enc = OpusEncoder::new(48000, 1, OPUS_APPLICATION_AUDIO).unwrap();
    enc.prev_mode = MODE_SILK_ONLY;
    enc.first = 0;
    code(&mut enc, &pcm[..240], 240, &mut packet, 1500).unwrap();
    assert_eq!(enc.get_mode(), MODE_CELT_ONLY);
}

#[test]
fn a_change_to_speech_starts_the_coder_over() {
    let mut enc = OpusEncoder::new(48000, 1, OPUS_APPLICATION_VOIP).unwrap();
    assert_eq!(enc.set_bitrate(24000), OPUS_OK);
    enc.prev_mode = MODE_CELT_ONLY;
    enc.first = 0;
    enc.silk_enc.as_mut().unwrap().no_speech_counter = 9;
    assert_eq!(enc.set_force_mode(MODE_SILK_ONLY), OPUS_OK);
    let pcm = patterned_pcm_i16(960, 1, 5);
    let mut packet = vec![0u8; 1500];
    match enc.encode(&pcm, 960, &mut packet, 1500, &AnalysisInfo::default()).unwrap() {
        Plan::Single(plan) => {
            assert!(plan.redundancy && plan.celt_to_silk && !plan.to_celt);
            assert_eq!(plan.prefill, 1);
        }
        _ => panic!("one frame"),
    }
    assert_eq!(enc.silk_encoder().unwrap().no_speech_counter, 0);
}

#[test]
fn what_the_analysis_finds_narrows() {
    let info = AnalysisInfo { valid: true, voice_ratio: 3, voice_ratio_min: 2, voice_ratio_max: 4, bandwidth: 10, active: true, active_or_at: true };
    let mut enc = OpusEncoder::new(48000, 1, OPUS_APPLICATION_AUDIO).unwrap();
    assert_eq!(enc.set_complexity(10), OPUS_OK);
    assert_eq!(enc.set_bitrate(20000), OPUS_OK);
    assert_eq!(enc.set_force_mode(MODE_CELT_ONLY), OPUS_OK);
    let pcm = patterned_pcm_i16(960, 1, 5);
    let mut packet = vec![0u8; 1500];
    enc.encode(&pcm, 960, &mut packet, 1500, &info).unwrap();
    assert_eq!(enc.get_voice_ratio(), 3);
    // Mediumband is the least that is believed at this rate, and music goes one wider.
    assert_eq!(enc.detected_bandwidth, OPUS_BANDWIDTH_MEDIUMBAND);
    assert_eq!(enc.get_bandwidth(), OPUS_BANDWIDTH_WIDEBAND);
    // A setting is not overruled.
    assert_eq!(enc.set_bandwidth(OPUS_BANDWIDTH_FULLBAND), OPUS_OK);
    enc.encode(&pcm, 960, &mut packet, 1500, &info).unwrap();
    assert_eq!(enc.get_bandwidth(), OPUS_BANDWIDTH_FULLBAND);
}

#[test]
fn an_analysis_that_is_not_wanted_is_ignored() {
    let info = AnalysisInfo { valid: true, voice_ratio: 3, voice_ratio_min: 2, voice_ratio_max: 4, bandwidth: 10, active: true, active_or_at: true };
    let mut enc = OpusEncoder::new(48000, 1, OPUS_APPLICATION_AUDIO).unwrap();
    let mut other = OpusEncoder::new(48000, 1, OPUS_APPLICATION_AUDIO).unwrap();
    let pcm = patterned_pcm_i16(960, 1, 5);
    let mut packet = vec![0u8; 1500];
    for e in [&mut enc, &mut other] {
        assert_eq!(e.set_complexity(9), OPUS_OK);
        assert_eq!(e.set_bitrate(20000), OPUS_OK);
        assert_eq!(e.set_force_mode(MODE_CELT_ONLY), OPUS_OK);
    }
    enc.encode(&pcm, 960, &mut packet, 1500, &info).unwrap();
    other.encode(&pcm, 960, &mut packet, 1500, &AnalysisInfo::default()).unwrap();
    assert_eq!(enc.get_voice_ratio(), -1);
    assert_eq!(enc.get_voice_ratio(), other.get_voice_ratio());
    assert_eq!(enc.detected_bandwidth, 0);
    assert_eq!(enc.get_bandwidth(), other.get_bandwidth());
}

#[test]
fn only_the_selected_samples_are_needed() {
    let mut enc = OpusEncoder::new(48000, 2, OPUS_APPLICATION_AUDIO).unwrap();
    let mut packet = vec![0u8; 1500];
    // A size that cannot be coded is refused before a sample is looked at.
    assert!(matches!(enc.encode(&[], 961, &mut [], 1500, &AnalysisInfo::default()), Err(OPUS_BAD_ARG)));
    assert_eq!(enc.set_expert_frame_duration(OPUS_FRAMESIZE_10_MS), OPUS_OK);
    let pcm = patterned_pcm_i16(480, 2, 3);
    match enc.encode(&pcm, 960, &mut packet, 1500, &AnalysisInfo::default()).unwrap() {
        Plan::Single(plan) => assert_eq!(plan.max_data_bytes, 1500),
        _ => panic!("one frame"),
    }
}

#[test]
fn the_application_stays_once_a_frame_was_coded() {
    let mut enc = OpusEncoder::new(48000, 1, OPUS_APPLICATION_AUDIO).unwrap();
    assert_eq!(enc.set_application(OPUS_APPLICATION_VOIP), OPUS_OK);
    assert_eq!(enc.set_application(OPUS_APPLICATION_AUDIO), OPUS_OK);
    let pcm = patterned_pcm_i16(960, 1, 12);
    let mut packet = vec![0u8; 1500];
    code(&mut enc, &pcm, 960, &mut packet, 1500).unwrap();
    assert!(enc.get_prev_mode() != 0);
    assert_eq!(enc.set_application(OPUS_APPLICATION_VOIP), OPUS_BAD_ARG);
    assert_eq!(enc.set_application(OPUS_APPLICATION_RESTRICTED_LOWDELAY), OPUS_BAD_ARG);
    assert_eq!(enc.set_application(OPUS_APPLICATION_AUDIO), OPUS_OK);
}

#[test]
fn packets_of_20_ms_have_the_size_of_their_bitrate() {
    // (bitrate, room, size)
    let cases = [(32000, 1500, 80), (6000, 1500, 15), (64000, 100, 100), (12150, 1500, 30), (500, 1500, 1), (40000, 2, 2)];
    for &(bitrate, room, size) in &cases {
        let mut enc = OpusEncoder::new(48000, 1, OPUS_APPLICATION_AUDIO).unwrap();
        assert_eq!(enc.set_vbr(0), OPUS_OK);
        assert_eq!(enc.set_bitrate(bitrate), OPUS_OK);
        let pcm = patterned_pcm_i16(960, 1, 31);
        let mut packet = vec![0u8; 1500];
        assert_eq!(code(&mut enc, &pcm, 960, &mut packet, room), Ok(size));
    }
}

#[test]
fn after_ten_quiet_frames_the_encoder_says_so() {
    let mut enc = OpusEncoder::new(48000, 1, OPUS_APPLICATION_RESTRICTED_LOWDELAY).unwrap();
    assert_eq!(enc.set_dtx(1), OPUS_OK);
    let silence = [0i16; 960];
    let mut packet = vec![0u8; 1500];
    for k in 1..=60 {
        code(&mut enc, &silence, 960, &mut packet, 1500).unwrap();
        assert_eq!(enc.get_in_dtx(), if k >= 10 { 1 } else { 0 });
    }
}

#[test]
fn short_frames_are_announced() {
    let mut enc = OpusEncoder::new(48000, 1, OPUS_APPLICATION_AUDIO).unwrap();
    let plan = plan_for(100, 24000);
    let pcm = patterned_pcm_i16(960, 1, 9);
    let (mut run, _) = enc.start_frame(&pcm, 960, &plan, &AnalysisInfo::default());
    run.redundancy = true;
    run.redundancy_bytes = 40;
    run.celt_to_silk = true;
    enc.mode = MODE_HYBRID;
    let there = Symbol::Bit { set: true, weight: 12 };
    let side = Symbol::Bit { set: true, weight: 1 };
    assert_eq!(enc.announce_short_frame(&run, true), vec![there, side]);
    assert_eq!(enc.announce_short_frame(&run, false), vec![]);
    assert_eq!(enc.short_frame_size(&run), Some(Symbol::Number { value: 38, total: 256 }));
    enc.mode = MODE_SILK_ONLY;
    assert_eq!(enc.announce_short_frame(&run, true), vec![side]);
    assert_eq!(enc.short_frame_size(&run), None);
    run.redundancy = false;
    assert_eq!(enc.announce_short_frame(&run, true), vec![]);
    enc.mode = MODE_HYBRID;
    assert_eq!(enc.announce_short_frame(&run, true), vec![Symbol::Bit { set: false, weight: 12 }]);
    assert_eq!(enc.short_frame_size(&run), None);
}

#[test]
fn parts_of_one_byte_are_counted() {
    let mut enc = OpusEncoder::new(48000, 1, OPUS_APPLICATION_AUDIO).unwrap();
    assert_eq!(enc.set_vbr(0), OPUS_OK);
    enc.mode = MODE_CELT_ONLY;
    enc.bitrate_bps = 64000;
    let plan = plan_for(300, 64000);
    let pcm = patterned_pcm_i16(2880, 1, 5);
    let split = enc.split_frame(2880, &plan, None).unwrap();
    enc.plan_part(&split, &plan, &vec![vec![0x98]], &pcm);
    assert!(enc.first_frame_flag);
    enc.plan_part(&split, &plan, &vec![vec![0x98, 1]], &pcm);
    assert!(!enc.first_frame_flag);
    // A packet is filled up unless all of its parts were left out.
    let mut data = [0u8; 300];
    let none = vec![vec![0x98], vec![0x98], vec![0x98]];
    assert_eq!(enc.join_parts(&split, &none, &mut data), Ok(2));
    let some = vec![vec![0x98], vec![0x98, 7], vec![0x98]];
    assert_eq!(enc.join_parts(&split, &some, &mut data), Ok(300));
}

#[test]
fn analysis_is_wanted_of_much_work_only() {
    let mut enc = OpusEncoder::new(48000, 1, OPUS_APPLICATION_AUDIO).unwrap();
    enc.analysis.initialized = 1;
    enc.analysis.read_pos = 7;
    assert_eq!(enc.open_packet(960, 100), Ok(false));
    assert_eq!(enc.analysis.initialized, 0);
    assert_eq!(enc.set_complexity(10), OPUS_OK);
    assert_eq!(enc.open_packet(960, 100), Ok(true));
    assert_eq!(enc.open_packet(960, 0), Err(OPUS_BAD_ARG));
    assert_eq!(enc.open_packet(4800, 1), Err(OPUS_BUFFER_TOO_SMALL));
    let mut low = OpusEncoder::new(12000, 1, OPUS_APPLICATION_AUDIO).unwrap();
    assert_eq!(low.set_complexity(10), OPUS_OK);
    assert_eq!(low.open_packet(240, 100), Ok(false));
}

#[test]
fn bitrates_that_are_fixed_fix_the_size() {
    for &(size, bytes) in &[(960, 80), (480, 40), (1920, 160)] {
        let mut enc = OpusEncoder::new(48000, 1, OPUS_APPLICATION_AUDIO).unwrap();
        assert_eq!(enc.set_vbr(0), OPUS_OK);
        assert_eq!(enc.set_bitrate(32000), OPUS_OK);
        let pcm = patterned_pcm_i16(size as usize, 1, 31);
        let mut packet = vec![0u8; 1500];
        let len = code(&mut enc, &pcm, size, &mut packet, 1500).unwrap();
        assert_eq!(len, bytes);
    }
}

#[test]
fn masking_moves_the_bitrate_of_speech() {
    let mut enc = OpusEncoder::new(48000, 1, OPUS_APPLICATION_VOIP).unwrap();
    enc.mode = MODE_SILK_ONLY;
    enc.bandwidth = OPUS_BANDWIDTH_WIDEBAND;
    enc.bitrate_bps = 24000;
    let pcm = patterned_pcm_i16(960, 1, 5);
    let plan = plan_for(400, 20000);
    let (mut run, _) = enc.start_frame(&pcm, 960, &plan, &AnalysisInfo::default());
    enc.set_up_silk(&mut run);
    assert_eq!(run.bits_target, 472);
    assert_eq!(enc.silk_mode.bit_rate, 23600);
    // A mask of -1 in Q24 in each band: a depth of -0.8, at 16000 a second.
    assert_eq!(enc.set_energy_mask(Some(&[-16777216; 21])), OPUS_OK);
    let (mut run, _) = enc.start_frame(&pcm, 960, &plan, &AnalysisInfo::default());
    enc.set_up_silk(&mut run);
    assert_eq!(enc.silk_mode.bit_rate, 23600 - 12812);
}

#[test]
fn speech_and_music_share_hybrid_frames() {
    let mut enc = OpusEncoder::new(48000, 1, OPUS_APPLICATION_VOIP).unwrap();
    enc.mode = MODE_HYBRID;
    enc.bandwidth = OPUS_BANDWIDTH_FULLBAND;
    enc.bitrate_bps = 32400;
    let pcm = patterned_pcm_i16(960, 1, 5);
    let plan = plan_for(400, 32000);
    let (mut run, _) = enc.start_frame(&pcm, 960, &plan, &AnalysisInfo::default());
    enc.set_up_silk(&mut run);
    assert_eq!(enc.silk_mode.bit_rate, 22000);
    assert!(run.hb_gain > 32000);
    assert_eq!(enc.silk_mode.min_internal_sample_rate, 16000);
    enc.aim_celt();
    let celt = enc.celt_enc.as_ref().unwrap();
    assert_eq!((celt.start, celt.vbr, celt.constrained_vbr, celt.bitrate), (17, 1, 0, 10400));
}

#[test]
fn zeros_at_the_end_of_speech_are_not_sent() {
    let mut enc = OpusEncoder::new(16000, 1, OPUS_APPLICATION_VOIP).unwrap();
    enc.mode = MODE_SILK_ONLY;
    enc.bandwidth = OPUS_BANDWIDTH_WIDEBAND;
    let pcm = patterned_pcm_i16(320, 1, 5);
    let plan = plan_for(100, 20000);
    let (run, _) = enc.start_frame(&pcm, 320, &plan, &AnalysisInfo::default());
    let mut data = [0u8; 100];
    data[1] = 1;
    data[4] = 2;
    let end = FrameEnd { bytes: 30, main_rng: 6, redundant_rng: 3, bits_used: 240 };
    assert_eq!(enc.end_frame(&run, &end, &mut data), Ok(Ending::Sent(5)));
    assert_eq!(enc.get_final_range(), 5);
    // Nothing but zeros keeps two bytes.
    data = [0u8; 100];
    assert_eq!(enc.end_frame(&run, &end, &mut data), Ok(Ending::Sent(3)));
    // A frame that took too many bits is sent as one byte.
    let end = FrameEnd { bytes: 30, main_rng: 6, redundant_rng: 3, bits_used: 793 };
    data[1] = 7;
    assert_eq!(enc.end_frame(&run, &end, &mut data), Ok(Ending::Sent(2)));
    assert_eq!(data[1], 0);
    assert_eq!(enc.get_final_range(), 0);
    let plan = plan_for(1, 20000);
    let (run, _) = enc.start_frame(&pcm, 320, &plan, &AnalysisInfo::default());
    assert_eq!(enc.end_frame(&run, &end, &mut data), Err(OPUS_BUFFER_TOO_SMALL));
}

#[test]
fn redundancy_rides_on_a_packet() {
    let mut enc = OpusEncoder::new(48000, 1, OPUS_APPLICATION_VOIP).unwrap();
    assert_eq!(enc.set_dred_duration(40), OPUS_OK);
    let pcm = patterned_pcm_i16(960, 1, 5);
    let mut plan = plan_for(300, 20000);
    plan.dred_bitrate_bps = 8000;
    enc.mode = MODE_CELT_ONLY;
    let (run, _) = enc.start_frame(&pcm, 960, &plan, &AnalysisInfo::default());
    // Without its model there is none, and nothing is recorded.
    assert!(enc.dred_room(&run, 100).is_none());
    assert!(enc.activity_mem.iter().all(|&x| x == 0));
    assert_eq!(enc.load_dnn_blob(&[1], true), OPUS_OK);
    let (run, _) = enc.start_frame(&pcm, 960, &plan, &AnalysisInfo::default());
    assert!(enc.activity_mem[..8].iter().all(|&x| x == 1));
    assert_eq!(enc.activity_mem[8], 0);
    enc.dred_target_chunks = 5;
    let room = enc.dred_room(&run, 100).unwrap();
    assert_eq!((room.chunks, room.bytes), (5, 195));
    assert!(enc.dred_room(&run, 290).is_none());
    // The packet carries the payload in its padding.
    let mut data = [0u8; 300];
    data[0] = 0x98;
    data[1] = 55;
    let payload = [7u8; 12];
    let len = enc.attach_dred(&run, &mut data, 10, 12, &payload).unwrap();
    let parsed = parse_packet(&data, len, false).unwrap();
    assert_eq!(parsed.count, 1);
    assert_eq!(parsed.sizes[0], 9);
    let mut found = OpusExtensionIterator::new(parsed.padding, parsed.padding_len, 1);
    let (r, ext) = found.find(126);
    assert!(r > 0);
    assert_eq!(ext.data[..2], [b'D', 12]);
    assert_eq!(ext.data[2..14], payload);
    // Where packets have one size, it is filled up.
    assert_eq!(enc.set_vbr(0), OPUS_OK);
    let mut data = [0u8; 300];
    data[0] = 0x98;
    assert_eq!(enc.attach_dred(&run, &mut data, 10, 12, &payload), Ok(300));
    let mut data = [0u8; 300];
    data[0] = 0x98;
    assert_eq!(enc.fill_packet(&run, &mut data, 10), 300);
}

#[test]
fn parts_share_the_bytes() {
    let mut enc = OpusEncoder::new(48000, 1, OPUS_APPLICATION_AUDIO).unwrap();
    enc.mode = MODE_CELT_ONLY;
    enc.bitrate_bps = 64000;
    let mut plan = plan_for(300, 64000);
    plan.redundancy = true;
    plan.to_celt = true;
    let pcm = patterned_pcm_i16(2880, 1, 5);
    let split = enc.split_frame(2880, &plan, Some((4, 5))).unwrap();
    assert_eq!((split.frame_size, split.nb_frames, split.max_len_sum), (960, 3, 297));
    assert_eq!((enc.analysis.read_pos, enc.analysis.read_subframe), (4, 5));
    let first = enc.plan_part(&split, &plan, &Vec::new(), &pcm);
    assert_eq!(first.max_data_bytes, 99);
    assert!(!first.redundancy && !first.to_celt);
    assert_eq!(enc.nonfinal_frame, 1);
    let last = enc.plan_part(&split, &plan, &vec![vec![0x98; 99], vec![0x98; 151]], &pcm);
    assert_eq!(last.max_data_bytes, 47);
    assert!(last.redundancy && last.to_celt);
    assert_eq!(enc.nonfinal_frame, 0);
    assert!(!enc.first_frame_flag);
    // Packets that do not go together cannot be joined.
    let mut data = [0u8; 300];
    let packets = vec![vec![0x98, 1, 2], vec![0x98, 3], vec![0x18, 3]];
    assert_eq!(enc.join_parts(&split, &packets, &mut data), Err(OPUS_INVALID_PACKET));
    let packets = vec![vec![0x98, 1, 2], vec![0x98, 3], vec![0x98, 3]];
    let len = enc.join_parts(&split, &packets, &mut data).unwrap();
    assert_eq!(data[..len as usize], [0x9B, 0x83, 2, 1, 1, 2, 3, 3]);
    // A frame shorter than its parts cannot be split.
    assert!(matches!(enc.split_frame(480, &plan, None), Err(OPUS_INTERNAL_ERROR)));
}

#[test]
fn the_delay_buffer_is_ramped_up() {
    let mut enc = OpusEncoder::new(48000, 1, OPUS_APPLICATION_AUDIO).unwrap();
    for s in enc.delay_buffer.iter_mut() {
        *s = 10000;
    }
    enc.ramp_delay_buffer(&WINDOW);
    assert_eq!(enc.delay_buffer[167], 0);
    assert_eq!(enc.delay_buffer[168 + 60], 5102);
    assert_eq!(enc.delay_buffer[168 + 119], 9999);
    assert_eq!(enc.delay_buffer[168 + 120], 10000);
    enc.prev_mode = MODE_SILK_ONLY;
    enc.keep_prefill();
    assert_eq!(enc.tmp_prefill[60], 5102);
}

#[test]
fn width_follows_the_rate() {
    let mut enc = OpusEncoder::new(48000, 2, OPUS_APPLICATION_AUDIO).unwrap();
    enc.mode = MODE_CELT_ONLY;
    let pcm = patterned_pcm_i16(960, 2, 5);
    for &(rate, width) in &[(40000, 16384), (32000, 16384), (24000, 14746), (16000, 0), (1000, 0)] {
        let plan = plan_for(400, rate);
        let (run, _) = enc.start_frame(&pcm, 960, &plan, &AnalysisInfo::default());
        enc.set_width(&run);
        assert_eq!(enc.silk_mode.stereo_width_q14, width);
    }
    let plan = plan_for(400, 1000);
    let (run, mut buf) = enc.start_frame(&pcm, 960, &plan, &AnalysisInfo::default());
    enc.fade_width(&run, &mut buf, &WINDOW);
    assert_eq!(enc.hybrid_stereo_width_q14, 0);
    // Past the overlap the channels are alike.
    assert!((buf[2 * 500] - buf[2 * 500 + 1]).abs() <= 3);
}

#[test]
fn short_frames_keep_to_their_room() {
    let mut enc = OpusEncoder::new(48000, 1, OPUS_APPLICATION_AUDIO).unwrap();
    enc.mode = MODE_HYBRID;
    let pcm = patterned_pcm_i16(960, 1, 5);
    let mut plan = plan_for(100, 32000);
    plan.redundancy = true;
    enc.bitrate_bps = 32000;
    let (mut run, _) = enc.start_frame(&pcm, 960, &plan, &AnalysisInfo::default());
    assert_eq!(run.redundancy_bytes, 24);
    assert!(enc.can_announce(&run, 755));
    assert!(!enc.can_announce(&run, 756));
    enc.settle_redundancy(&mut run, true, 700);
    assert_eq!(run.redundancy_bytes, 10);
    assert_eq!(enc.find_main_bytes(&run, 700), 89);
    enc.silk_bw_switch = 1;
    enc.settle_redundancy(&mut run, false, 756);
    assert!(!run.redundancy);
    assert_eq!(enc.silk_bw_switch, 0);
    assert_eq!(enc.find_main_bytes(&run, 700), 99);
}

#[test]
fn stages_come_in_order() {
    let mut enc = OpusEncoder::new(48000, 1, OPUS_APPLICATION_AUDIO).unwrap();
    let pcm = patterned_pcm_i16(960, 1, 5);
    let mut plan = plan_for(400, 32000);
    plan.redundancy = true;
    plan.celt_to_silk = true;
    plan.prefill = 1;
    enc.mode = MODE_HYBRID;
    enc.prev_mode = MODE_CELT_ONLY;
    let (run, _) = enc.start_frame(&pcm, 960, &plan, &AnalysisInfo::default());
    let mut stage = Stage::Start;
    let mut seen = vec![];
    while stage != Stage::End {
        stage = enc.next_stage(&run, stage);
        seen.push(stage);
    }
    assert_eq!(
        seen,
        vec![
            Stage::Tell,
            Stage::WarmSpeech,
            Stage::Speech,
            Stage::Shape,
            Stage::LeadShort,
            Stage::Aim,
            Stage::WarmMusic,
            Stage::Music,
            Stage::End
        ]
    );
    assert_eq!(enc.next_stage(&run, Stage::End), Stage::End);
    assert_eq!(enc.trail_starts(&run, 1152), (600, 720));
    enc.mode = MODE_CELT_ONLY;
    let (run, _) = enc.start_frame(&pcm, 960, &plan, &AnalysisInfo::default());
    assert_eq!(enc.next_stage(&run, Stage::Start), Stage::Shape);
    assert_eq!(enc.next_stage(&run, Stage::Shape), Stage::Aim);
    assert_eq!(enc.next_stage(&run, Stage::WarmMusic), Stage::Music);
}

#[test]
fn speech_that_says_nothing_is_left_out() {
    let mut enc = OpusEncoder::new(16000, 1, OPUS_APPLICATION_VOIP).unwrap();
    enc.mode = MODE_SILK_ONLY;
    enc.bandwidth = OPUS_BANDWIDTH_WIDEBAND;
    enc.range_final = 9;
    let pcm = patterned_pcm_i16(320, 1, 5);
    let (mut run, _) = enc.start_frame(&pcm, 320, &plan_for(100, 20000), &AnalysisInfo::default());
    assert_eq!(run.activity, -1);
    enc.silk_mode.internal_sample_rate = 12000;
    let mut data = [0u8; 100];
    assert!(enc.after_speech(&mut run, 0, &mut data));
    assert_eq!(run.activity, 0);
    assert_eq!(run.bandwidth, OPUS_BANDWIDTH_MEDIUMBAND);
    assert_eq!(data[0], 0x28);
    assert_eq!(enc.get_final_range(), 0);
    // A coder that is ready changes its bandwidth with a short frame.
    let (mut run, _) = enc.start_frame(&pcm, 320, &plan_for(100, 20000), &AnalysisInfo::default());
    enc.silk_mode.switch_ready = 1;
    enc.bitrate_bps = 24000;
    assert!(!enc.after_speech(&mut run, 30, &mut data));
    assert!(run.redundancy && !run.celt_to_silk);
    assert_eq!(run.redundancy_bytes, 24);
    assert_eq!(enc.silk_bw_switch, 1);
}

#[test]
fn loud_noise_counts_as_activity() {
    let info = AnalysisInfo { valid: true, voice_ratio: 50, voice_ratio_min: 50, voice_ratio_max: 50, bandwidth: 20, active: false, active_or_at: false };
    let mut enc = OpusEncoder::new(48000, 1, OPUS_APPLICATION_VOIP).unwrap();
    let noise = [10i16; 480];
    for &(peak, active) in &[(31622, 1), (31623, 1), (31624, 0), (0, 1), (i32::MAX, 0)] {
        enc.peak_signal_energy = peak;
        assert_eq!((peak as f32) < 316.23_f32 * 100.0_f32, active == 1);
        assert_eq!(enc.find_activity(&noise, 480, false, &info), active);
    }
    assert_eq!(enc.find_activity(&noise, 480, true, &info), 0);
    assert_eq!(enc.find_activity(&[0; 480], 480, false, &info), 0);
    enc.mode = MODE_CELT_ONLY;
    for &(peak, active) in &[(15799, 1), (15800, 0)] {
        enc.peak_signal_energy = peak;
        assert_eq!(enc.find_activity(&noise, 480, false, &AnalysisInfo::default()), active);
    }
}

#[test]
fn test_silk_bw_switch_triggers_redundancy() {
    let mut enc = OpusEncoder::new(48000, 1, OPUS_APPLICATION_VOIP).unwrap();
    assert_eq!(enc.set_bitrate(64000), OPUS_OK);
    assert_eq!(enc.set_vbr(1), OPUS_OK);
    assert_eq!(enc.set_force_mode(MODE_SILK_ONLY), OPUS_OK);
    assert_eq!(enc.set_bandwidth(OPUS_BANDWIDTH_WIDEBAND), OPUS_OK);
    let pcm = patterned_pcm_i16(960, 1, 2001);
    let mut packet = vec![0u8; 1500];
    let cap = packet.len() as i32;
    let _ = code(&mut enc, &pcm, 960, &mut packet, cap).unwrap();
    assert_eq!(enc.get_mode(), MODE_SILK_ONLY);

    enc.silk_bw_switch = 1;
    enc.mode = MODE_SILK_ONLY;
    enc.bandwidth = OPUS_BANDWIDTH_WIDEBAND;
    let pcm2 = patterned_pcm_i16(960, 1, 2002);
    let plan = plan_for(cap, enc.bitrate_bps);
    let len = code_frame(&mut enc, &pcm2, 960, &plan, &AnalysisInfo::default(), &mut packet).unwrap();
    assert!(len > 1);
    assert_eq!(enc.silk_bw_switch, 0);
    // The short frame is at the end of the packet.
    assert_eq!(packet[len as usize - 1], 0xEE);
}

#[test]
fn test_silk_bandwidth_switch_redundancy_recalc() {
    let mut enc = OpusEncoder::new(48000, 1, OPUS_APPLICATION_VOIP).unwrap();
    assert_eq!(enc.set_force_mode(MODE_SILK_ONLY), OPUS_OK);
    assert_eq!(enc.set_bandwidth(OPUS_BANDWIDTH_WIDEBAND), OPUS_OK);
    assert_eq!(enc.set_bitrate(32000), OPUS_OK);
    assert_eq!(enc.set_vbr(1), OPUS_OK);
    assert_eq!(enc.set_signal(OPUS_SIGNAL_VOICE), OPUS_OK);

    let mut packet = vec![0u8; 1500];
    let cap = packet.len() as i32;
    for i in 0..5 {
        let pcm = patterned_pcm_i16(960, 1, 3401 + i * 13);
        let _ = code(&mut enc, &pcm, 960, &mut packet, cap).unwrap();
    }
    enc.silk_bw_switch = 1;
    let pcm2 = patterned_pcm_i16(960, 1, 3499);
    let plan = plan_for(cap, enc.bitrate_bps);
    let len = code_frame(&mut enc, &pcm2, 960, &plan, &AnalysisInfo::default(), &mut packet).unwrap();
    assert!(len > 1);
    assert_eq!(enc.silk_bw_switch, 0);
}

#[test]
fn test_mode_transition_prefill_paths() {
    let mut enc = OpusEncoder::new(48000, 1, OPUS_APPLICATION_VOIP).unwrap();
    assert_eq!(enc.set_expert_frame_duration(OPUS_FRAMESIZE_20_MS), OPUS_OK);
    assert_eq!(enc.set_bitrate(64000), OPUS_OK);
    assert_eq!(enc.set_vbr(1), OPUS_OK);
    assert_eq!(enc.set_signal(OPUS_SIGNAL_VOICE), OPUS_OK);

    let pcm = patterned_pcm_i16(960, 1, 511);
    let mut packet = vec![0u8; 1500];
    let packet_capacity = packet.len() as i32;

    assert_eq!(enc.set_force_mode(MODE_CELT_ONLY), OPUS_OK);
    let len_celt = code(&mut enc, &pcm, 960, &mut packet, packet_capacity).unwrap();
    assert!(len_celt > 1);
    assert_eq!(enc.get_mode(), MODE_CELT_ONLY);
    assert_eq!(enc.get_prev_mode(), MODE_CELT_ONLY);
    assert_eq!(
        packet_mode_from_toc(&packet[..len_celt as usize]),
        MODE_CELT_ONLY
    );

    assert_eq!(enc.set_bandwidth(OPUS_BANDWIDTH_WIDEBAND), OPUS_OK);
    assert_eq!(enc.set_force_mode(MODE_SILK_ONLY), OPUS_OK);
    let len_silk = code(&mut enc, &pcm, 960, &mut packet, packet_capacity).unwrap();
    assert!(len_silk > 1);
    assert_ne!(enc.get_mode(), MODE_CELT_ONLY);
    assert_eq!(enc.get_prev_mode(), enc.get_mode());
    assert_eq!(
        packet_mode_from_toc(&packet[..len_silk as usize]),
        enc.get_mode()
    );

    assert_eq!(enc.set_bandwidth(OPUS_BANDWIDTH_WIDEBAND), OPUS_OK);
    assert_eq!(enc.set_force_mode(MODE_CELT_ONLY), OPUS_OK);
    let len_transition = code(&mut enc, &pcm, 960, &mut packet, packet_capacity).unwrap();
    assert!(len_transition > 1);
    assert_ne!(enc.get_mode(), MODE_CELT_ONLY);
    assert_eq!(enc.get_prev_mode(), MODE_CELT_ONLY);
    assert_eq!(
        packet_mode_from_toc(&packet[..len_transition as usize]),
        enc.get_mode()
    );
}

#[test]
fn test_encode_forced_mono_celt_and_dtx_branch_paths() {
    let mut enc = OpusEncoder::new(48000, 2, OPUS_APPLICATION_AUDIO).unwrap();
    assert_eq!(enc.set_force_mode(MODE_CELT_ONLY), OPUS_OK);
    assert_eq!(enc.set_force_channels(1), OPUS_OK);
    assert_eq!(enc.set_bandwidth(OPUS_BANDWIDTH_WIDEBAND), OPUS_OK);
    assert_eq!(enc.set_dtx(1), OPUS_OK);
    assert_eq!(enc.set_phase_inversion_disabled(1), OPUS_OK);
    assert_eq!(enc.get_phase_inversion_disabled(), 1);

    let pcm = patterned_pcm_i16(960, 2, 901);
    let mut active_packet = vec![0u8; 1500];
    let active_capacity = active_packet.len() as i32;
    let len = code(&mut enc, &pcm, 960, &mut active_packet, active_capacity)
        .unwrap();
    let active_packet = &active_packet[..len as usize];

    assert!(len > 1);
    assert_eq!(enc.get_mode(), MODE_CELT_ONLY);
    assert_eq!(enc.get_stream_channels(), 1);
    assert_eq!(enc.get_bandwidth(), OPUS_BANDWIDTH_WIDEBAND);
    assert_eq!(packet_mode_from_toc(active_packet), MODE_CELT_ONLY);

    let silence = [0i16; 960 * 2];
    let mut dtx_packet = vec![0u8; 1500];
    let dtx_capacity = dtx_packet.len() as i32;
    let mut len = code(&mut enc, &silence, 960, &mut dtx_packet, dtx_capacity)
        .unwrap();
    assert!(len > 1);
    for _ in 1..10 {
        len = code(&mut enc, &silence, 960, &mut dtx_packet, dtx_capacity)
            .unwrap();
        assert!(len > 1);
    }

    len = code(&mut enc, &silence, 960, &mut dtx_packet, dtx_capacity)
        .unwrap();
    assert_eq!(len, 1);
    assert_eq!(enc.get_final_range(), 0);
    assert_ne!(dtx_packet[0], 0);
}

#[test]
fn test_hybrid_constrained_vbr_silk_rate() {
    let mut enc = OpusEncoder::new(48000, 1, OPUS_APPLICATION_AUDIO).unwrap();
    assert_eq!(enc.set_force_mode(MODE_HYBRID), OPUS_OK);
    assert_eq!(enc.set_bitrate(40000), OPUS_OK);
    assert_eq!(enc.set_vbr(1), OPUS_OK);
    assert_eq!(enc.set_vbr_constraint(1), OPUS_OK);

    let mut packet = vec![0u8; 1500];
    let cap = packet.len() as i32;
    for seed in 0..3 {
        let pcm = patterned_pcm_i16(960, 1, 2301 + seed);
        let _ = code(&mut enc, &pcm, 960, &mut packet, cap).unwrap();
    }
    assert_eq!(enc.get_mode(), MODE_HYBRID);
}

#[test]
fn test_fec_decision_in_encode_path() {
    let mut enc = OpusEncoder::new(16000, 1, OPUS_APPLICATION_VOIP).unwrap();
    assert_eq!(enc.set_force_mode(MODE_SILK_ONLY), OPUS_OK);
    assert_eq!(enc.set_bandwidth(OPUS_BANDWIDTH_WIDEBAND), OPUS_OK);
    assert_eq!(enc.set_bitrate(24000), OPUS_OK);
    assert_eq!(enc.set_vbr(1), OPUS_OK);
    assert_eq!(enc.set_inband_fec(1), OPUS_OK);
    assert_eq!(enc.set_packet_loss_perc(15), OPUS_OK);
    assert_eq!(enc.set_signal(OPUS_SIGNAL_VOICE), OPUS_OK);

    let mut packet = vec![0u8; 1500];
    let cap = packet.len() as i32;

    for i in 0..3 {
        let pcm = patterned_pcm_i16(320, 1, 2401 + i);
        let _ = code(&mut enc, &pcm, 320, &mut packet, cap).unwrap();
    }
    assert!(enc.silk_mode.lbrr_coded == 0 || enc.silk_mode.lbrr_coded == 1);
}

#[test]
fn test_stereo_width_reduction_hybrid_low_bitrate() {
    let mut enc = OpusEncoder::new(48000, 2, OPUS_APPLICATION_AUDIO).unwrap();
    assert_eq!(enc.set_force_mode(MODE_HYBRID), OPUS_OK);
    assert_eq!(enc.set_bitrate(20000), OPUS_OK);
    assert_eq!(enc.set_vbr(1), OPUS_OK);

    let mut packet = vec![0u8; 1500];
    let cap = packet.len() as i32;

    for i in 0..3 {
        let pcm = patterned_pcm_i16(960, 2, 2501 + i * 17);
        let _ = code(&mut enc, &pcm, 960, &mut packet, cap).unwrap();
    }
    assert_eq!(enc.get_mode(), MODE_HYBRID);
    assert!(
        (enc.hybrid_stereo_width_q14 as i32) < (1 << 14),
        "stereo width should be reduced at low bitrate"
    );
}

#[test]
fn test_vbr_constraint_celt_only_path() {
    let mut enc = OpusEncoder::new(48000, 1, OPUS_APPLICATION_AUDIO).unwrap();
    assert_eq!(enc.set_force_mode(MODE_CELT_ONLY), OPUS_OK);
    assert_eq!(enc.set_bitrate(64000), OPUS_OK);
    assert_eq!(enc.set_vbr(1), OPUS_OK);
    assert_eq!(enc.set_vbr_constraint(1), OPUS_OK);

    let pcm = patterned_pcm_i16(960, 1, 2801);
    let mut packet = vec![0u8; 1500];
    let cap = packet.len() as i32;
    let len = code(&mut enc, &pcm, 960, &mut packet, cap).unwrap();
    assert!(len > 1);
    assert_eq!(enc.get_mode(), MODE_CELT_ONLY);
    assert_eq!(enc.get_vbr(), 1);
    assert_eq!(enc.get_vbr_constraint(), 1);
}

#[test]
fn test_prefill_gain_fade_on_celt_to_silk_transition() {
    let mut enc = OpusEncoder::new(48000, 1, OPUS_APPLICATION_VOIP).unwrap();
    assert_eq!(enc.set_bitrate(48000), OPUS_OK);
    assert_eq!(enc.set_vbr(1), OPUS_OK);
    assert_eq!(enc.set_signal(OPUS_SIGNAL_VOICE), OPUS_OK);

    assert_eq!(enc.set_force_mode(MODE_CELT_ONLY), OPUS_OK);
    let pcm = patterned_pcm_i16(960, 1, 3001);
    let mut packet = vec![0u8; 1500];
    let cap = packet.len() as i32;
    let _ = code(&mut enc, &pcm, 960, &mut packet, cap).unwrap();
    assert_eq!(enc.get_mode(), MODE_CELT_ONLY);

    assert_eq!(enc.set_force_mode(MODE_SILK_ONLY), OPUS_OK);
    assert_eq!(enc.set_bandwidth(OPUS_BANDWIDTH_WIDEBAND), OPUS_OK);
    let pcm2 = patterned_pcm_i16(960, 1, 3002);
    let len = code(&mut enc, &pcm2, 960, &mut packet, cap).unwrap();
    assert!(len > 1);
    assert_ne!(
        packet_mode_from_toc(&packet[..len as usize]),
        MODE_CELT_ONLY
    );
}

#[test]
fn test_cbr_padding_multiframe() {
    let mut enc = OpusEncoder::new(48000, 1, OPUS_APPLICATION_AUDIO).unwrap();
    assert_eq!(enc.set_force_mode(MODE_CELT_ONLY), OPUS_OK);
    assert_eq!(enc.set_vbr(0), OPUS_OK);
    assert_eq!(enc.set_bitrate(48000), OPUS_OK);
    assert_eq!(enc.set_expert_frame_duration(OPUS_FRAMESIZE_40_MS), OPUS_OK);

    let pcm = patterned_pcm_i16(1920, 1, 3101);
    let mut packet = vec![0u8; 1500];
    let cap = packet.len() as i32;
    let len = code(&mut enc, &pcm, 1920, &mut packet, cap).unwrap();
    assert!(len > 1);
}

#[test]
fn test_100ms_frame_size_encoding() {
    let mut enc = OpusEncoder::new(48000, 1, OPUS_APPLICATION_VOIP).unwrap();
    assert_eq!(enc.set_force_mode(MODE_SILK_ONLY), OPUS_OK);
    assert_eq!(enc.set_bandwidth(OPUS_BANDWIDTH_WIDEBAND), OPUS_OK);
    assert_eq!(enc.set_bitrate(24000), OPUS_OK);
    assert_eq!(enc.set_vbr(1), OPUS_OK);
    assert_eq!(
        enc.set_expert_frame_duration(OPUS_FRAMESIZE_100_MS),
        OPUS_OK
    );

    let pcm = patterned_pcm_i16(4800, 1, 3201);
    let mut packet = vec![0u8; 1500];
    let cap = packet.len() as i32;
    let len = code(&mut enc, &pcm, 4800, &mut packet, cap).unwrap();
    assert!(len > 1, "100ms frame should produce valid packet");

    let mut tiny = [0u8; 1];
    assert_eq!(
        code(&mut enc, &pcm, 4800, &mut tiny, 1),
        Err(OPUS_BUFFER_TOO_SMALL)
    );
}

#[test]
fn test_stereo_width_intermediate_bitrate_non_hybrid() {
    let mut enc = OpusEncoder::new(48000, 2, OPUS_APPLICATION_VOIP).unwrap();
    assert_eq!(enc.set_force_mode(MODE_SILK_ONLY), OPUS_OK);
    assert_eq!(enc.set_bandwidth(OPUS_BANDWIDTH_WIDEBAND), OPUS_OK);
    assert_eq!(enc.set_bitrate(20000), OPUS_OK);
    assert_eq!(enc.set_vbr(1), OPUS_OK);

    let mut packet = vec![0u8; 1500];
    let cap = packet.len() as i32;

    for i in 0..3 {
        let pcm = patterned_pcm_i16(960, 2, 3501 + i * 7);
        let _ = code(&mut enc, &pcm, 960, &mut packet, cap).unwrap();
    }
    assert!(
        enc.silk_mode.stereo_width_q14 >= 0 && enc.silk_mode.stereo_width_q14 <= 16384,
        "stereo width should be in valid range"
    );
}

#[test]
fn test_encode_stereo_voip_hp_filter() {
    let mut enc = OpusEncoder::new(48000, 2, OPUS_APPLICATION_VOIP).unwrap();
    assert_eq!(enc.set_bitrate(64000), OPUS_OK);
    assert_eq!(enc.set_vbr(1), OPUS_OK);
    assert_eq!(enc.set_signal(OPUS_SIGNAL_VOICE), OPUS_OK);

    let pcm = patterned_pcm_i16(960, 2, 3701);
    let mut packet = vec![0u8; 1500];
    let cap = packet.len() as i32;
    let len = code(&mut enc, &pcm, 960, &mut packet, cap).unwrap();
    assert!(len > 1);
    assert!(enc.hp_mem.iter().any(|&m| m != 0));
}

#[test]
fn test_cbr_multiframe_60ms_celt() {
    let mut enc = OpusEncoder::new(48000, 1, OPUS_APPLICATION_AUDIO).unwrap();
    assert_eq!(enc.set_force_mode(MODE_CELT_ONLY), OPUS_OK);
    assert_eq!(enc.set_vbr(0), OPUS_OK);
    assert_eq!(enc.set_bitrate(64000), OPUS_OK);
    assert_eq!(enc.set_expert_frame_duration(OPUS_FRAMESIZE_60_MS), OPUS_OK);

    let pcm = patterned_pcm_i16(2880, 1, 3901);
    let mut packet = vec![0u8; 1500];
    let cap = packet.len() as i32;
    let len = code(&mut enc, &pcm, 2880, &mut packet, cap).unwrap();
    assert!(len > 1);
    assert_eq!(enc.get_mode(), MODE_CELT_ONLY);
}

#[test]
fn test_audio_application_voice_ratio_capped() {
    let mut enc = OpusEncoder::new(48000, 1, OPUS_APPLICATION_AUDIO).unwrap();
    assert_eq!(enc.set_voice_ratio(100), OPUS_OK);
    assert_eq!(enc.set_bitrate(32000), OPUS_OK);
    assert_eq!(enc.set_vbr(1), OPUS_OK);

    let pcm = patterned_pcm_i16(960, 1, 4001);
    let mut packet = vec![0u8; 1500];
    let cap = packet.len() as i32;
    let len = code(&mut enc, &pcm, 960, &mut packet, cap).unwrap();
    assert!(len > 0);
}

#[test]
fn test_ctl_getters_exercise() {
    let mut enc = OpusEncoder::new(48000, 2, OPUS_APPLICATION_AUDIO).unwrap();
    enc.set_bitrate(64000);
    let pcm = patterned_pcm_i16(960, 2, 42);
    let mut pkt = vec![0u8; 1500];
    code(&mut enc, &pcm, 960, &mut pkt, 1500).unwrap();

    let _ = enc.get_bandwidth();
    let _ = enc.get_max_bandwidth();
    let _ = enc.get_signal();
    let _ = enc.get_inband_fec();
    let _ = enc.get_packet_loss_perc();
    let _ = enc.get_dtx();
    let _ = enc.get_lsb_depth();
    let _ = enc.get_hp_mem();
    let _ = enc.get_variable_hp_smth2();
}

#[test]
fn test_encode_with_forced_narrowband() {
    let mut enc = OpusEncoder::new(48000, 1, OPUS_APPLICATION_VOIP).unwrap();
    enc.set_bitrate(16000);
    enc.set_max_bandwidth(OPUS_BANDWIDTH_NARROWBAND);
    let pcm = patterned_pcm_i16(960, 1, 11);
    let mut pkt = vec![0u8; 1500];
    let len = code(&mut enc, &pcm, 960, &mut pkt, 1500).unwrap();
    assert!(len > 0);
}

#[test]
fn test_encode_with_forced_mediumband() {
    let mut enc = OpusEncoder::new(48000, 1, OPUS_APPLICATION_VOIP).unwrap();
    enc.set_bitrate(20000);
    enc.set_max_bandwidth(OPUS_BANDWIDTH_MEDIUMBAND);
    let pcm = patterned_pcm_i16(960, 1, 22);
    let mut pkt = vec![0u8; 1500];
    let len = code(&mut enc, &pcm, 960, &mut pkt, 1500).unwrap();
    assert!(len > 0);
}

#[test]
fn test_encode_with_forced_wideband() {
    let mut enc = OpusEncoder::new(48000, 1, OPUS_APPLICATION_VOIP).unwrap();
    enc.set_bitrate(24000);
    enc.set_bandwidth(OPUS_BANDWIDTH_WIDEBAND);
    let pcm = patterned_pcm_i16(960, 1, 33);
    let mut pkt = vec![0u8; 1500];
    let len = code(&mut enc, &pcm, 960, &mut pkt, 1500).unwrap();
    assert!(len > 0);
}

#[test]
fn test_encode_buffer_too_small() {
    let mut enc = OpusEncoder::new(48000, 1, OPUS_APPLICATION_AUDIO).unwrap();
    enc.set_bitrate(128000);
    let pcm = patterned_pcm_i16(960, 1, 1);
    let mut pkt = vec![0u8; 2];
    let result = code(&mut enc, &pcm, 960, &mut pkt, 2);
    assert!(result.is_ok() || result.is_err());
}

#[test]
fn test_ctl_voice_ratio_boundary_with_encode() {
    let mut enc = OpusEncoder::new(48000, 2, OPUS_APPLICATION_AUDIO).unwrap();
    assert_eq!(enc.set_voice_ratio(0), OPUS_OK);
    assert_eq!(enc.get_voice_ratio(), 0);
    enc.set_bitrate(32000);
    let pcm = patterned_pcm_i16(960, 2, 9001);
    let mut pkt = vec![0u8; 1500];
    let len = code(&mut enc, &pcm, 960, &mut pkt, 1500).unwrap();
    assert!(len > 0);

    assert_eq!(enc.set_voice_ratio(100), OPUS_OK);
    let len2 = code(&mut enc, &pcm, 960, &mut pkt, 1500).unwrap();
    assert!(len2 > 0);
}

#[test]
fn bc_encode_application_signal_grid() {
    let fs = 16000;
    let frame = 320;
    let apps = [
        OPUS_APPLICATION_VOIP,
        OPUS_APPLICATION_AUDIO,
        OPUS_APPLICATION_RESTRICTED_LOWDELAY,
    ];
    let signals = [OPUS_SIGNAL_VOICE, OPUS_SIGNAL_MUSIC, OPUS_AUTO];
    let complexities = [0, 5, 10];
    for &app in &apps {
        for &sig in &signals {
            for &comp in &complexities {
                let mut enc = OpusEncoder::new(fs, 1, app).unwrap();
                assert_eq!(enc.set_signal(sig), OPUS_OK);
                assert_eq!(enc.set_complexity(comp), OPUS_OK);
                assert_eq!(enc.set_bitrate(24000), OPUS_OK);

                let pcm = patterned_pcm_i16(frame as usize, 1, 2000 + comp);
                let mut packet = vec![0u8; 1500];
                let len = code(&mut enc, &pcm, frame, &mut packet, 1500).unwrap();
                assert!(len > 0);
            }
        }
    }
}

#[test]
fn bc_encode_vbr_cbr_fec_dtx_matrix() {
    let frame = 960;
    let cases: &[(i32, i32, i32, i32, i32, i32)] = &[
        (6000, 0, 0, 0, 0, 0),
        (10000, 1, 1, 1, 1, 30),
        (16000, 1, 0, 2, 0, 10),
        (32000, 0, 1, 1, 1, 50),
        (64000, 1, 0, 0, 0, 0),
        (128000, 1, 0, 0, 0, 0),
        (256000, 0, 0, 0, 0, 0),
        (510000, 1, 0, 0, 0, 0),
    ];
    for &(br, vbr, vbrc, fec, dtx, loss) in cases {
        let mut enc = OpusEncoder::new(48000, 2, OPUS_APPLICATION_AUDIO).unwrap();
        assert_eq!(enc.set_bitrate(br), OPUS_OK);
        assert_eq!(enc.set_vbr(vbr), OPUS_OK);
        assert_eq!(enc.set_vbr_constraint(vbrc), OPUS_OK);
        assert_eq!(enc.set_inband_fec(fec), OPUS_OK);
        assert_eq!(enc.set_dtx(dtx), OPUS_OK);
        assert_eq!(enc.set_packet_loss_perc(loss), OPUS_OK);

        let pcm = patterned_pcm_i16(frame as usize, 2, br);
        let mut packet = vec![0u8; 1500];
        let len = code(&mut enc, &pcm, frame, &mut packet, 1500).unwrap();
        assert!(len > 0);
    }
}

#[test]
fn bc_mode_switching_sequence() {
    let mut enc = OpusEncoder::new(48000, 2, OPUS_APPLICATION_AUDIO).unwrap();
    assert_eq!(enc.set_bitrate(64000), OPUS_OK);
    assert_eq!(enc.set_vbr(1), OPUS_OK);
    let frame = 960;

    let mut packet = vec![0u8; 1500];
    let modes = [
        MODE_SILK_ONLY,
        MODE_HYBRID,
        MODE_CELT_ONLY,
        MODE_SILK_ONLY,
        MODE_CELT_ONLY,
        MODE_HYBRID,
    ];
    for (i, &m) in modes.iter().enumerate() {
        assert_eq!(enc.set_force_mode(m), OPUS_OK);
        let bw = match i % 4 {
            0 => OPUS_BANDWIDTH_WIDEBAND,
            1 => OPUS_BANDWIDTH_SUPERWIDEBAND,
            2 => OPUS_BANDWIDTH_FULLBAND,
            _ => OPUS_AUTO,
        };
        let _ = enc.set_bandwidth(bw);

        let pcm = patterned_pcm_i16(frame as usize, 2, 3000 + i as i32);
        let len = code(&mut enc, &pcm, frame, &mut packet, 1500).unwrap();
        assert!(len > 0);
    }
}

#[test]
fn bc_encode_fec_overrides_mode() {
    let mut enc = OpusEncoder::new(48000, 1, OPUS_APPLICATION_VOIP).unwrap();
    assert_eq!(enc.set_bitrate(20000), OPUS_OK);
    assert_eq!(enc.set_inband_fec(1), OPUS_OK);
    assert_eq!(enc.set_packet_loss_perc(40), OPUS_OK);
    assert_eq!(enc.set_signal(OPUS_SIGNAL_VOICE), OPUS_OK);
    assert_eq!(enc.set_force_mode(OPUS_AUTO), OPUS_OK);

    let mut packet = vec![0u8; 1500];
    for i in 0..3 {
        let pcm = patterned_pcm_i16(960, 1, 4100 + i);
        let len = code(&mut enc, &pcm, 960, &mut packet, 1500).unwrap();
        assert!(len > 0);
    }
}

#[test]
fn bc_encode_fec_config2_variants() {
    for &ratio in &[0, 50, 100] {
        let mut enc = OpusEncoder::new(48000, 1, OPUS_APPLICATION_AUDIO).unwrap();
        assert_eq!(enc.set_bitrate(24000), OPUS_OK);
        assert_eq!(enc.set_inband_fec(2), OPUS_OK);
        assert_eq!(enc.set_packet_loss_perc(30), OPUS_OK);
        assert_eq!(enc.set_voice_ratio(ratio), OPUS_OK);
        let pcm = patterned_pcm_i16(960, 1, 4200 + ratio);
        let mut packet = vec![0u8; 1500];
        let _ = code(&mut enc, &pcm, 960, &mut packet, 1500).unwrap();
    }
}

#[test]
fn bc_encode_dtx_override_voice() {
    let mut enc = OpusEncoder::new(48000, 1, OPUS_APPLICATION_VOIP).unwrap();
    assert_eq!(enc.set_bitrate(24000), OPUS_OK);
    assert_eq!(enc.set_dtx(1), OPUS_OK);
    assert_eq!(enc.set_signal(OPUS_SIGNAL_VOICE), OPUS_OK);
    let pcm = patterned_pcm_i16(960, 1, 4301);
    let mut packet = vec![0u8; 1500];
    let len = code(&mut enc, &pcm, 960, &mut packet, 1500).unwrap();
    assert!(len > 0);
}

#[test]
fn bc_encode_bandwidth_override() {
    for &bw in &[
        OPUS_BANDWIDTH_NARROWBAND,
        OPUS_BANDWIDTH_MEDIUMBAND,
        OPUS_BANDWIDTH_WIDEBAND,
        OPUS_BANDWIDTH_SUPERWIDEBAND,
        OPUS_BANDWIDTH_FULLBAND,
    ] {
        let mut enc = OpusEncoder::new(48000, 2, OPUS_APPLICATION_AUDIO).unwrap();
        assert_eq!(enc.set_bandwidth(bw), OPUS_OK);
        assert_eq!(enc.set_bitrate(64000), OPUS_OK);
        let pcm = patterned_pcm_i16(960, 2, 4400 + bw);
        let mut packet = vec![0u8; 1500];
        let len = code(&mut enc, &pcm, 960, &mut packet, 1500).unwrap();
        assert!(len > 0);
    }
}

#[test]
fn bc_encode_high_framerate() {
    let mut enc = OpusEncoder::new(48000, 1, OPUS_APPLICATION_VOIP).unwrap();
    assert_eq!(enc.set_bitrate(6000), OPUS_OK);
    assert_eq!(enc.set_expert_frame_duration(OPUS_FRAMESIZE_10_MS), OPUS_OK);
    let pcm = patterned_pcm_i16(480, 1, 4500);
    let mut packet = vec![0u8; 1500];
    let _ = code(&mut enc, &pcm, 480, &mut packet, 1500).unwrap();

    let mut enc = OpusEncoder::new(48000, 1, OPUS_APPLICATION_RESTRICTED_LOWDELAY).unwrap();
    assert_eq!(enc.set_expert_frame_duration(OPUS_FRAMESIZE_5_MS), OPUS_OK);
    let pcm = patterned_pcm_i16(240, 1, 4501);
    let _ = code(&mut enc, &pcm, 240, &mut packet, 1500).unwrap();

    let mut enc = OpusEncoder::new(48000, 1, OPUS_APPLICATION_RESTRICTED_LOWDELAY).unwrap();
    assert_eq!(
        enc.set_expert_frame_duration(OPUS_FRAMESIZE_2_5_MS),
        OPUS_OK
    );
    let pcm = patterned_pcm_i16(120, 1, 4502);
    let _ = code(&mut enc, &pcm, 120, &mut packet, 1500).unwrap();
}

#[test]
fn bc_encode_sample_rates() {
    for &(fs, frame) in &[
        (8000, 160),
        (12000, 240),
        (16000, 320),
        (24000, 480),
        (48000, 960),
    ] {
        let mut enc = OpusEncoder::new(fs, 1, OPUS_APPLICATION_VOIP).unwrap();
        assert_eq!(enc.set_bitrate(16000), OPUS_OK);
        let pcm = patterned_pcm_i16(frame as usize, 1, fs);
        let mut packet = vec![0u8; 1500];
        let len = code(&mut enc, &pcm, frame, &mut packet, 1500).unwrap();
        assert!(len > 0);
    }
}

#[test]
fn bc_encode_all_frame_durations() {
    let fs = 48000;
    let cases = [
        (OPUS_FRAMESIZE_2_5_MS, 120),
        (OPUS_FRAMESIZE_5_MS, 240),
        (OPUS_FRAMESIZE_10_MS, 480),
        (OPUS_FRAMESIZE_20_MS, 960),
        (OPUS_FRAMESIZE_40_MS, 1920),
        (OPUS_FRAMESIZE_60_MS, 2880),
        (OPUS_FRAMESIZE_80_MS, 3840),
        (OPUS_FRAMESIZE_100_MS, 4800),
        (OPUS_FRAMESIZE_120_MS, 5760),
    ];
    for &(dur, frame) in &cases {
        let mut enc = OpusEncoder::new(fs, 1, OPUS_APPLICATION_AUDIO).unwrap();
        assert_eq!(enc.set_expert_frame_duration(dur), OPUS_OK);
        assert_eq!(enc.set_bitrate(32000), OPUS_OK);
        let pcm = patterned_pcm_i16(frame as usize, 1, dur);
        let mut packet = vec![0u8; 1500];
        let len = code(&mut enc, &pcm, frame, &mut packet, 1500).unwrap();
        assert!(len > 0);
    }
}

#[test]
fn bc_multiframe_silk_durations() {
    for &(dur, frame) in &[
        (OPUS_FRAMESIZE_40_MS, 1920),
        (OPUS_FRAMESIZE_60_MS, 2880),
        (OPUS_FRAMESIZE_80_MS, 3840),
        (OPUS_FRAMESIZE_120_MS, 5760),
    ] {
        let mut enc = OpusEncoder::new(48000, 1, OPUS_APPLICATION_VOIP).unwrap();
        assert_eq!(enc.set_force_mode(MODE_SILK_ONLY), OPUS_OK);
        assert_eq!(enc.set_bandwidth(OPUS_BANDWIDTH_WIDEBAND), OPUS_OK);
        assert_eq!(enc.set_bitrate(32000), OPUS_OK);
        assert_eq!(enc.set_expert_frame_duration(dur), OPUS_OK);
        let pcm = patterned_pcm_i16(frame as usize, 1, dur);
        let mut packet = vec![0u8; 1500];
        let len = code(&mut enc, &pcm, frame, &mut packet, 1500).unwrap();
        assert!(len > 0);
    }
}

#[test]
fn bc_multiframe_cbr_padding_paths() {
    let mut enc = OpusEncoder::new(48000, 2, OPUS_APPLICATION_AUDIO).unwrap();
    assert_eq!(enc.set_vbr(0), OPUS_OK);
    assert_eq!(enc.set_bitrate(48000), OPUS_OK);
    assert_eq!(enc.set_expert_frame_duration(OPUS_FRAMESIZE_60_MS), OPUS_OK);
    let pcm = patterned_pcm_i16(2880, 2, 5500);
    let mut packet = vec![0u8; 600];
    let len = code(&mut enc, &pcm, 2880, &mut packet, 300).unwrap();
    assert!(len > 0);
}

#[test]
fn bc_encode_dtx_many_silence_frames() {
    let mut enc = OpusEncoder::new(48000, 1, OPUS_APPLICATION_VOIP).unwrap();
    assert_eq!(enc.set_dtx(1), OPUS_OK);
    assert_eq!(enc.set_bitrate(24000), OPUS_OK);
    assert_eq!(enc.set_force_mode(MODE_SILK_ONLY), OPUS_OK);
    assert_eq!(enc.set_bandwidth(OPUS_BANDWIDTH_WIDEBAND), OPUS_OK);

    let silence = [0i16; 960];
    let mut packet = vec![0u8; 1500];
    for _ in 0..20 {
        let _ = code(&mut enc, &silence, 960, &mut packet, 1500).unwrap();
    }
}

#[test]
fn bc_encode_voice_ratio_sweep() {
    for &ratio in &[-1, 0, 25, 50, 75, 100] {
        let mut enc = OpusEncoder::new(48000, 1, OPUS_APPLICATION_AUDIO).unwrap();
        assert_eq!(enc.set_voice_ratio(ratio), OPUS_OK);
        assert_eq!(enc.set_signal(OPUS_AUTO), OPUS_OK);
        assert_eq!(enc.set_bitrate(32000), OPUS_OK);
        let pcm = patterned_pcm_i16(960, 1, 5700 + ratio);
        let mut packet = vec![0u8; 1500];
        let _ = code(&mut enc, &pcm, 960, &mut packet, 1500).unwrap();
    }
}

#[test]
fn bc_stereo_to_mono_transition_without_force() {
    let mut enc = OpusEncoder::new(48000, 2, OPUS_APPLICATION_AUDIO).unwrap();
    assert_eq!(enc.set_bitrate(12000), OPUS_OK);
    assert_eq!(enc.set_signal(OPUS_SIGNAL_VOICE), OPUS_OK);
    let pcm = patterned_pcm_i16(960, 2, 5800);
    let mut packet = vec![0u8; 1500];
    for i in 0..4 {
        let p = patterned_pcm_i16(960, 2, 5800 + i);
        let _ = code(&mut enc, &p, 960, &mut packet, 1500).unwrap();
    }
    drop(pcm);
}

#[test]
fn bc_encode_lfe_channel() {
    let mut enc = OpusEncoder::new(48000, 1, OPUS_APPLICATION_AUDIO).unwrap();
    enc.lfe = 1;
    assert_eq!(enc.set_bitrate(32000), OPUS_OK);
    let pcm = patterned_pcm_i16(960, 1, 6200);
    let mut packet = vec![0u8; 1500];
    let len = code(&mut enc, &pcm, 960, &mut packet, 1500).unwrap();
    assert!(len > 0);
}

#[test]
fn bc_encode_restricted_lowdelay_grid() {
    for &comp in &[0, 5, 10] {
        for &sig in &[OPUS_AUTO, OPUS_SIGNAL_VOICE, OPUS_SIGNAL_MUSIC] {
            let mut enc =
                OpusEncoder::new(48000, 2, OPUS_APPLICATION_RESTRICTED_LOWDELAY).unwrap();
            assert_eq!(enc.set_complexity(comp), OPUS_OK);
            assert_eq!(enc.set_signal(sig), OPUS_OK);
            assert_eq!(enc.set_expert_frame_duration(OPUS_FRAMESIZE_10_MS), OPUS_OK);
            let pcm = patterned_pcm_i16(480, 2, 6300 + comp);
            let mut packet = vec![0u8; 1500];
            let len = code(&mut enc, &pcm, 480, &mut packet, 1500).unwrap();
            assert!(len > 0);
        }
    }
}

#[test]
fn bc_encode_cbr_padding_variants() {
    for &br in &[8000, 16000, 24000, 48000] {
        let mut enc = OpusEncoder::new(48000, 1, OPUS_APPLICATION_AUDIO).unwrap();
        assert_eq!(enc.set_vbr(0), OPUS_OK);
        assert_eq!(enc.set_bitrate(br), OPUS_OK);
        let pcm = patterned_pcm_i16(960, 1, br);
        let mut packet = vec![0u8; 1500];
        let cap = (br / 400).max(10);
        let len = code(&mut enc, &pcm, 960, &mut packet, cap).unwrap();
        assert!(len > 0);
    }
}

#[test]
fn bc_encode_prediction_disabled_toggle() {
    let mut enc = OpusEncoder::new(48000, 1, OPUS_APPLICATION_AUDIO).unwrap();
    assert_eq!(enc.set_bitrate(48000), OPUS_OK);
    assert_eq!(enc.set_force_mode(MODE_CELT_ONLY), OPUS_OK);
    let mut packet = vec![0u8; 1500];
    for (i, &disabled) in [0, 1, 0, 1].iter().enumerate() {
        assert_eq!(enc.set_prediction_disabled(disabled), OPUS_OK);
        let pcm = patterned_pcm_i16(960, 1, 6600 + i as i32);
        let _ = code(&mut enc, &pcm, 960, &mut packet, 1500).unwrap();
    }
}

#[test]
fn bc_encode_max_bandwidth_caps() {
    let mut enc = OpusEncoder::new(48000, 2, OPUS_APPLICATION_AUDIO).unwrap();
    assert_eq!(enc.set_max_bandwidth(OPUS_BANDWIDTH_NARROWBAND), OPUS_OK);
    assert_eq!(enc.set_bitrate(64000), OPUS_OK);
    let pcm = patterned_pcm_i16(960, 2, 6700);
    let mut packet = vec![0u8; 1500];
    let _ = code(&mut enc, &pcm, 960, &mut packet, 1500).unwrap();
}

#[test]
fn bc_silk_only_cbr_and_hybrid_cbr() {
    let mut enc = OpusEncoder::new(48000, 1, OPUS_APPLICATION_VOIP).unwrap();
    assert_eq!(enc.set_force_mode(MODE_SILK_ONLY), OPUS_OK);
    assert_eq!(enc.set_bandwidth(OPUS_BANDWIDTH_WIDEBAND), OPUS_OK);
    assert_eq!(enc.set_vbr(0), OPUS_OK);
    assert_eq!(enc.set_bitrate(20000), OPUS_OK);
    let pcm = patterned_pcm_i16(960, 1, 7001);
    let mut packet = vec![0u8; 1500];
    let _ = code(&mut enc, &pcm, 960, &mut packet, 1500).unwrap();

    let mut enc = OpusEncoder::new(48000, 2, OPUS_APPLICATION_VOIP).unwrap();
    assert_eq!(enc.set_force_mode(MODE_HYBRID), OPUS_OK);
    assert_eq!(enc.set_vbr(0), OPUS_OK);
    assert_eq!(enc.set_bitrate(96000), OPUS_OK);
    let pcm = patterned_pcm_i16(960, 2, 7002);
    let _ = code(&mut enc, &pcm, 960, &mut packet, 1500).unwrap();

    let mut enc = OpusEncoder::new(48000, 2, OPUS_APPLICATION_VOIP).unwrap();
    assert_eq!(enc.set_force_mode(MODE_HYBRID), OPUS_OK);
    assert_eq!(enc.set_vbr(1), OPUS_OK);
    assert_eq!(enc.set_vbr_constraint(1), OPUS_OK);
    assert_eq!(enc.set_bitrate(64000), OPUS_OK);
    let pcm = patterned_pcm_i16(960, 2, 7003);
    let _ = code(&mut enc, &pcm, 960, &mut packet, 1500).unwrap();
}

#[test]
fn bc_encode_small_budget_no_redundancy() {
    let mut enc = OpusEncoder::new(48000, 1, OPUS_APPLICATION_VOIP).unwrap();
    assert_eq!(enc.set_bitrate(16000), OPUS_OK);
    let pcm = patterned_pcm_i16(960, 1, 7101);
    let mut packet = vec![0u8; 100];
    let _ = code(&mut enc, &pcm, 960, &mut packet, 100).unwrap();
    assert_eq!(enc.set_force_mode(MODE_CELT_ONLY), OPUS_OK);
    let pcm = patterned_pcm_i16(960, 1, 7102);
    let _ = code(&mut enc, &pcm, 960, &mut packet, 30).unwrap();
}

#[test]
fn bc_encode_forced_mono_stereo_encoder() {
    let mut enc = OpusEncoder::new(48000, 2, OPUS_APPLICATION_AUDIO).unwrap();
    assert_eq!(enc.set_force_channels(1), OPUS_OK);
    assert_eq!(enc.set_bitrate(12000), OPUS_OK);
    assert_eq!(enc.set_signal(OPUS_SIGNAL_VOICE), OPUS_OK);
    let pcm = patterned_pcm_i16(960, 2, 7200);
    let mut packet = vec![0u8; 1500];
    let len = code(&mut enc, &pcm, 960, &mut packet, 1500).unwrap();
    assert!(len > 0);
}

#[test]
fn bc_reset_after_encode() {
    let mut enc = OpusEncoder::new(48000, 2, OPUS_APPLICATION_AUDIO).unwrap();
    let pcm = patterned_pcm_i16(960, 2, 7300);
    let mut packet = vec![0u8; 1500];
    let _ = code(&mut enc, &pcm, 960, &mut packet, 1500).unwrap();
    enc.reset();
    assert_eq!(enc.get_stream_channels(), 2);
    assert_eq!(enc.get_prev_mode(), 0);
    let _ = code(&mut enc, &pcm, 960, &mut packet, 1500).unwrap();
}

#[test]
fn bc_silk_bw_switch_flag() {
    let mut enc = OpusEncoder::new(48000, 1, OPUS_APPLICATION_VOIP).unwrap();
    assert_eq!(enc.set_bitrate(32000), OPUS_OK);
    let pcm = patterned_pcm_i16(960, 1, 7401);
    let mut packet = vec![0u8; 1500];
    assert_eq!(enc.set_force_mode(MODE_SILK_ONLY), OPUS_OK);
    let _ = code(&mut enc, &pcm, 960, &mut packet, 1500).unwrap();
    enc.silk_bw_switch = 1;
    let _ = code(&mut enc, &pcm, 960, &mut packet, 1500).unwrap();
    assert_eq!(enc.silk_bw_switch, 0);
}

#[test]
fn bc_signal_type_application_grid() {
    for &app in &[OPUS_APPLICATION_VOIP, OPUS_APPLICATION_AUDIO] {
        for &sig in &[OPUS_SIGNAL_VOICE, OPUS_SIGNAL_MUSIC] {
            let mut enc = OpusEncoder::new(48000, 1, app).unwrap();
            assert_eq!(enc.set_signal(sig), OPUS_OK);
            assert_eq!(enc.set_bitrate(32000), OPUS_OK);
            let pcm = patterned_pcm_i16(960, 1, 7500);
            let mut packet = vec![0u8; 1500];
            let _ = code(&mut enc, &pcm, 960, &mut packet, 1500).unwrap();
        }
    }
}

#[test]
fn bc_long_running_stereo_music_sequence() {
    let mut enc = OpusEncoder::new(48000, 2, OPUS_APPLICATION_AUDIO).unwrap();
    assert_eq!(enc.set_complexity(8), OPUS_OK);
    assert_eq!(enc.set_bitrate(96000), OPUS_OK);
    assert_eq!(enc.set_signal(OPUS_SIGNAL_MUSIC), OPUS_OK);
    assert_eq!(enc.set_inband_fec(1), OPUS_OK);
    assert_eq!(enc.set_packet_loss_perc(15), OPUS_OK);
    let mut packet = vec![0u8; 1500];
    for i in 0..6 {
        let pcm = patterned_pcm_i16(960, 2, 7600 + i);
        let _ = code(&mut enc, &pcm, 960, &mut packet, 1500).unwrap();
    }
}

#[test]
fn bc_voip_hp_cutoff_coverage() {
    let mut enc = OpusEncoder::new(8000, 1, OPUS_APPLICATION_VOIP).unwrap();
    assert_eq!(enc.set_bitrate(8000), OPUS_OK);
    let pcm = patterned_pcm_i16(160, 1, 7700);
    let mut packet = vec![0u8; 500];
    let _ = code(&mut enc, &pcm, 160, &mut packet, 500).unwrap();
    let hp = enc.get_hp_mem();
    let _ = hp;
}

#[test]
fn bc_audio_dc_reject_path() {
    let mut enc = OpusEncoder::new(48000, 1, OPUS_APPLICATION_AUDIO).unwrap();
    let pcm = patterned_pcm_i16(960, 1, 7800);
    let mut packet = vec![0u8; 1500];
    let _ = code(&mut enc, &pcm, 960, &mut packet, 1500).unwrap();
}

#[test]
fn bc_vbr_toggle_midstream() {
    let mut enc = OpusEncoder::new(48000, 2, OPUS_APPLICATION_AUDIO).unwrap();
    assert_eq!(enc.set_bitrate(48000), OPUS_OK);
    let mut packet = vec![0u8; 1500];
    for (i, &vbr) in [1, 0, 1, 0].iter().enumerate() {
        assert_eq!(enc.set_vbr(vbr), OPUS_OK);
        let pcm = patterned_pcm_i16(960, 2, 8000 + i as i32);
        let _ = code(&mut enc, &pcm, 960, &mut packet, 1500).unwrap();
    }
}

#[test]
fn bc_redundancy_fallback_budget() {
    let mut enc = OpusEncoder::new(48000, 1, OPUS_APPLICATION_VOIP).unwrap();
    assert_eq!(enc.set_bitrate(16000), OPUS_OK);
    let mut packet = vec![0u8; 1500];
    assert_eq!(enc.set_force_mode(MODE_SILK_ONLY), OPUS_OK);
    let pcm = patterned_pcm_i16(960, 1, 8100);
    let _ = code(&mut enc, &pcm, 960, &mut packet, 1500).unwrap();
    assert_eq!(enc.set_force_mode(MODE_CELT_ONLY), OPUS_OK);
    let _ = code(&mut enc, &pcm, 960, &mut packet, 20).unwrap();
}

#[test]
fn bc_fec_config2_music_signal() {
    let mut enc = OpusEncoder::new(48000, 1, OPUS_APPLICATION_AUDIO).unwrap();
    assert_eq!(enc.set_signal(OPUS_SIGNAL_MUSIC), OPUS_OK);
    assert_eq!(enc.set_inband_fec(2), OPUS_OK);
    assert_eq!(enc.set_packet_loss_perc(20), OPUS_OK);
    assert_eq!(enc.set_bitrate(32000), OPUS_OK);
    let pcm = patterned_pcm_i16(960, 1, 8200);
    let mut packet = vec![0u8; 1500];
    let _ = code(&mut enc, &pcm, 960, &mut packet, 1500).unwrap();
}

#[test]
fn bc_phase_inversion_toggled() {
    let mut enc = OpusEncoder::new(48000, 2, OPUS_APPLICATION_AUDIO).unwrap();
    assert_eq!(enc.set_bitrate(48000), OPUS_OK);
    let mut packet = vec![0u8; 1500];
    for (i, &v) in [0, 1, 0, 1].iter().enumerate() {
        assert_eq!(enc.set_phase_inversion_disabled(v), OPUS_OK);
        let pcm = patterned_pcm_i16(960, 2, 8300 + i as i32);
        let _ = code(&mut enc, &pcm, 960, &mut packet, 1500).unwrap();
    }
}

#[test]
fn bc_voice_ratio_with_audio_app_cap() {
    let mut enc = OpusEncoder::new(48000, 1, OPUS_APPLICATION_AUDIO).unwrap();
    assert_eq!(enc.set_signal(OPUS_AUTO), OPUS_OK);
    assert_eq!(enc.set_voice_ratio(100), OPUS_OK);
    assert_eq!(enc.set_bitrate(32000), OPUS_OK);
    let pcm = patterned_pcm_i16(960, 1, 9200);
    let mut packet = vec![0u8; 1500];
    let _ = code(&mut enc, &pcm, 960, &mut packet, 1500).unwrap();
}

#[test]
fn bc_celt_redundancy_short_frame() {
    let mut enc = OpusEncoder::new(48000, 1, OPUS_APPLICATION_RESTRICTED_LOWDELAY).unwrap();
    assert_eq!(enc.set_bitrate(48000), OPUS_OK);
    assert_eq!(enc.set_expert_frame_duration(OPUS_FRAMESIZE_20_MS), OPUS_OK);
    let pcm = patterned_pcm_i16(960, 1, 9300);
    let mut packet = vec![0u8; 1500];
    let _ = code(&mut enc, &pcm, 960, &mut packet, 1500).unwrap();
    assert_eq!(enc.get_prev_mode(), MODE_CELT_ONLY);
    assert_eq!(enc.set_expert_frame_duration(OPUS_FRAMESIZE_5_MS), OPUS_OK);
    let pcm = patterned_pcm_i16(240, 1, 9301);
    let _ = code(&mut enc, &pcm, 240, &mut packet, 1500).unwrap();
}

#[test]
fn bc_bandwidth_narrowing_floor() {
    let mut enc = OpusEncoder::new(48000, 1, OPUS_APPLICATION_VOIP).unwrap();
    assert_eq!(enc.set_bitrate(6000), OPUS_OK);
    assert_eq!(enc.set_signal(OPUS_SIGNAL_VOICE), OPUS_OK);
    let pcm = patterned_pcm_i16(960, 1, 9400);
    let mut packet = vec![0u8; 1500];
    let _ = code(&mut enc, &pcm, 960, &mut packet, 1500).unwrap();
}

#[test]
fn bc_bandwidth_hysteresis_second_frame() {
    let mut enc = OpusEncoder::new(48000, 2, OPUS_APPLICATION_AUDIO).unwrap();
    assert_eq!(enc.set_bitrate(32000), OPUS_OK);
    let pcm = patterned_pcm_i16(960, 2, 9500);
    let mut packet = vec![0u8; 1500];
    let _ = code(&mut enc, &pcm, 960, &mut packet, 1500).unwrap();
    let pcm2 = patterned_pcm_i16(960, 2, 9501);
    let _ = code(&mut enc, &pcm2, 960, &mut packet, 1500).unwrap();
}

#[test]
fn bc_multiframe_with_bak_to_mono_set() {
    let mut enc = OpusEncoder::new(48000, 2, OPUS_APPLICATION_VOIP).unwrap();
    assert_eq!(enc.set_force_mode(MODE_SILK_ONLY), OPUS_OK);
    assert_eq!(enc.set_bandwidth(OPUS_BANDWIDTH_WIDEBAND), OPUS_OK);
    assert_eq!(enc.set_bitrate(24000), OPUS_OK);
    assert_eq!(enc.set_expert_frame_duration(OPUS_FRAMESIZE_40_MS), OPUS_OK);
    enc.silk_mode.to_mono = 1;
    let pcm = patterned_pcm_i16(1920, 2, 9600);
    let mut packet = vec![0u8; 1500];
    let _ = code(&mut enc, &pcm, 1920, &mut packet, 1500).unwrap();
}

#[test]
fn bc_multiframe_bitrate_max() {
    let mut enc = OpusEncoder::new(48000, 1, OPUS_APPLICATION_AUDIO).unwrap();
    assert_eq!(enc.set_bitrate(OPUS_BITRATE_MAX), OPUS_OK);
    assert_eq!(enc.set_vbr(0), OPUS_OK);
    assert_eq!(enc.set_expert_frame_duration(OPUS_FRAMESIZE_60_MS), OPUS_OK);
    let pcm = patterned_pcm_i16(2880, 1, 9700);
    let mut packet = vec![0u8; 1500];
    let _ = code(&mut enc, &pcm, 2880, &mut packet, 1500).unwrap();
}

#[test]
fn bc_multiframe_all_silence_dtx() {
    let mut enc = OpusEncoder::new(48000, 1, OPUS_APPLICATION_VOIP).unwrap();
    assert_eq!(enc.set_dtx(1), OPUS_OK);
    assert_eq!(enc.set_force_mode(MODE_SILK_ONLY), OPUS_OK);
    assert_eq!(enc.set_bandwidth(OPUS_BANDWIDTH_WIDEBAND), OPUS_OK);
    assert_eq!(enc.set_vbr(0), OPUS_OK);
    assert_eq!(enc.set_bitrate(16000), OPUS_OK);
    assert_eq!(enc.set_expert_frame_duration(OPUS_FRAMESIZE_40_MS), OPUS_OK);
    let silence = vec![0i16; 1920];
    let mut packet = vec![0u8; 1500];
    for _ in 0..15 {
        let _ = code(&mut enc, &silence, 1920, &mut packet, 1500).unwrap();
    }
}

#[test]
fn bc_celt_activity_energy_both_branches() {
    let mut enc = OpusEncoder::new(48000, 1, OPUS_APPLICATION_AUDIO).unwrap();
    assert_eq!(enc.set_force_mode(MODE_CELT_ONLY), OPUS_OK);
    assert_eq!(enc.set_bitrate(32000), OPUS_OK);
    let loud: Vec<i16> = (0..960).map(|i| ((i * 100) % 30000) as i16).collect();
    let mut packet = vec![0u8; 1500];
    let _ = code(&mut enc, &loud, 960, &mut packet, 1500).unwrap();
    let quiet: Vec<i16> = (0..960).map(|i| ((i * 3) % 100) as i16).collect();
    let _ = code(&mut enc, &quiet, 960, &mut packet, 1500).unwrap();
}

#[test]
fn bc_hybrid_cbr_max_bits() {
    let mut enc = OpusEncoder::new(48000, 2, OPUS_APPLICATION_AUDIO).unwrap();
    assert_eq!(enc.set_force_mode(MODE_HYBRID), OPUS_OK);
    assert_eq!(enc.set_vbr(0), OPUS_OK);
    assert_eq!(enc.set_bitrate(64000), OPUS_OK);
    assert_eq!(enc.set_bandwidth(OPUS_BANDWIDTH_FULLBAND), OPUS_OK);
    let pcm = patterned_pcm_i16(960, 2, 9800);
    let mut packet = vec![0u8; 1500];
    let _ = code(&mut enc, &pcm, 960, &mut packet, 1500).unwrap();
}

#[test]
fn bc_hybrid_low_rate_swb() {
    let mut enc = OpusEncoder::new(48000, 1, OPUS_APPLICATION_VOIP).unwrap();
    assert_eq!(enc.set_force_mode(MODE_HYBRID), OPUS_OK);
    assert_eq!(enc.set_bandwidth(OPUS_BANDWIDTH_SUPERWIDEBAND), OPUS_OK);
    assert_eq!(enc.set_bitrate(20000), OPUS_OK);
    let pcm = patterned_pcm_i16(960, 1, 9900);
    let mut packet = vec![0u8; 1500];
    let _ = code(&mut enc, &pcm, 960, &mut packet, 1500).unwrap();
}

#[test]
fn bc_celt_prev_mode_tmp_prefill() {
    let mut enc = OpusEncoder::new(48000, 1, OPUS_APPLICATION_AUDIO).unwrap();
    assert_eq!(enc.set_bitrate(48000), OPUS_OK);
    assert_eq!(enc.set_force_mode(MODE_SILK_ONLY), OPUS_OK);
    let pcm = patterned_pcm_i16(960, 1, 10000);
    let mut packet = vec![0u8; 1500];
    let _ = code(&mut enc, &pcm, 960, &mut packet, 1500).unwrap();
    assert_eq!(enc.set_force_mode(MODE_CELT_ONLY), OPUS_OK);
    let _ = code(&mut enc, &pcm, 960, &mut packet, 1500).unwrap();
}

#[test]
fn bc_silk_to_celt_redundancy() {
    let mut enc = OpusEncoder::new(48000, 2, OPUS_APPLICATION_AUDIO).unwrap();
    assert_eq!(enc.set_bitrate(64000), OPUS_OK);
    assert_eq!(enc.set_force_mode(MODE_SILK_ONLY), OPUS_OK);
    assert_eq!(enc.set_bandwidth(OPUS_BANDWIDTH_WIDEBAND), OPUS_OK);
    let pcm = patterned_pcm_i16(960, 2, 10100);
    let mut packet = vec![0u8; 1500];
    let _ = code(&mut enc, &pcm, 960, &mut packet, 1500).unwrap();
    assert_eq!(enc.set_force_mode(MODE_CELT_ONLY), OPUS_OK);
    let _ = code(&mut enc, &pcm, 960, &mut packet, 1500).unwrap();
}

#[test]
fn bc_celt_to_silk_redundancy() {
    let mut enc = OpusEncoder::new(48000, 2, OPUS_APPLICATION_AUDIO).unwrap();
    assert_eq!(enc.set_bitrate(64000), OPUS_OK);
    assert_eq!(enc.set_force_mode(MODE_CELT_ONLY), OPUS_OK);
    let pcm = patterned_pcm_i16(960, 2, 10200);
    let mut packet = vec![0u8; 1500];
    let _ = code(&mut enc, &pcm, 960, &mut packet, 1500).unwrap();
    assert_eq!(enc.set_force_mode(MODE_SILK_ONLY), OPUS_OK);
    assert_eq!(enc.set_bandwidth(OPUS_BANDWIDTH_WIDEBAND), OPUS_OK);
    let _ = code(&mut enc, &pcm, 960, &mut packet, 1500).unwrap();
}

#[test]
fn bc_encode_with_silk_enc_none() {
    let mut enc = OpusEncoder::new(48000, 1, OPUS_APPLICATION_AUDIO).unwrap();
    enc.silk_enc = None;
    assert_eq!(enc.set_force_mode(MODE_CELT_ONLY), OPUS_OK);
    assert_eq!(enc.set_bitrate(32000), OPUS_OK);
    let pcm = patterned_pcm_i16(960, 1, 10300);
    let mut packet = vec![0u8; 1500];
    let _ = code(&mut enc, &pcm, 960, &mut packet, 1500).unwrap();
}

#[test]
fn bc_stereo_width_low_bitrate_music() {
    let mut enc = OpusEncoder::new(48000, 2, OPUS_APPLICATION_AUDIO).unwrap();
    assert_eq!(enc.set_bitrate(10000), OPUS_OK);
    assert_eq!(enc.set_signal(OPUS_SIGNAL_MUSIC), OPUS_OK);
    let mut packet = vec![0u8; 1500];
    for i in 0..3 {
        let pcm = patterned_pcm_i16(960, 2, 10400 + i);
        let _ = code(&mut enc, &pcm, 960, &mut packet, 1500).unwrap();
    }
}

#[test]
fn bc_stereo_width_interpolation_rate() {
    let mut enc = OpusEncoder::new(48000, 2, OPUS_APPLICATION_AUDIO).unwrap();
    assert_eq!(enc.set_bitrate(22000), OPUS_OK);
    let mut packet = vec![0u8; 1500];
    for i in 0..3 {
        let pcm = patterned_pcm_i16(960, 2, 10500 + i);
        let _ = code(&mut enc, &pcm, 960, &mut packet, 1500).unwrap();
    }
}

#[test]
fn bc_stereo_width_high_rate() {
    let mut enc = OpusEncoder::new(48000, 2, OPUS_APPLICATION_AUDIO).unwrap();
    assert_eq!(enc.set_bitrate(128000), OPUS_OK);
    let pcm = patterned_pcm_i16(960, 2, 10600);
    let mut packet = vec![0u8; 1500];
    let _ = code(&mut enc, &pcm, 960, &mut packet, 1500).unwrap();
}

#[test]
fn bc_mode_sequence_with_silk_bw_switch() {
    let mut enc = OpusEncoder::new(48000, 1, OPUS_APPLICATION_VOIP).unwrap();
    assert_eq!(enc.set_bitrate(32000), OPUS_OK);
    let mut packet = vec![0u8; 1500];
    assert_eq!(enc.set_force_mode(MODE_SILK_ONLY), OPUS_OK);
    assert_eq!(enc.set_bandwidth(OPUS_BANDWIDTH_WIDEBAND), OPUS_OK);
    let pcm = patterned_pcm_i16(960, 1, 10700);
    let _ = code(&mut enc, &pcm, 960, &mut packet, 1500).unwrap();
    assert_eq!(enc.set_force_mode(MODE_HYBRID), OPUS_OK);
    assert_eq!(enc.set_bandwidth(OPUS_BANDWIDTH_SUPERWIDEBAND), OPUS_OK);
    let _ = code(&mut enc, &pcm, 960, &mut packet, 1500).unwrap();
    assert_eq!(enc.set_force_mode(MODE_SILK_ONLY), OPUS_OK);
    assert_eq!(enc.set_bandwidth(OPUS_BANDWIDTH_WIDEBAND), OPUS_OK);
    let _ = code(&mut enc, &pcm, 960, &mut packet, 1500).unwrap();
}

#[test]
fn bc_long_frames_no_dtx() {
    for &(dur, fr) in &[
        (OPUS_FRAMESIZE_40_MS, 1920),
        (OPUS_FRAMESIZE_60_MS, 2880),
        (OPUS_FRAMESIZE_80_MS, 3840),
        (OPUS_FRAMESIZE_100_MS, 4800),
    ] {
        let mut enc = OpusEncoder::new(48000, 1, OPUS_APPLICATION_AUDIO).unwrap();
        assert_eq!(enc.set_expert_frame_duration(dur), OPUS_OK);
        assert_eq!(enc.set_bitrate(48000), OPUS_OK);
        assert_eq!(enc.set_dtx(0), OPUS_OK);
        let pcm = patterned_pcm_i16(fr as usize, 1, dur);
        let mut packet = vec![0u8; 1500];
        let _ = code(&mut enc, &pcm, fr, &mut packet, 1500).unwrap();
    }
}

#[test]
fn bc_force_channels_stereo_celt_voice() {
    let mut enc = OpusEncoder::new(48000, 2, OPUS_APPLICATION_AUDIO).unwrap();
    assert_eq!(enc.set_force_channels(1), OPUS_OK);
    assert_eq!(enc.set_force_mode(MODE_CELT_ONLY), OPUS_OK);
    assert_eq!(enc.set_bitrate(32000), OPUS_OK);
    assert_eq!(enc.set_signal(OPUS_SIGNAL_VOICE), OPUS_OK);
    let pcm = patterned_pcm_i16(960, 2, 10800);
    let mut packet = vec![0u8; 1500];
    let _ = code(&mut enc, &pcm, 960, &mut packet, 1500).unwrap();
}

#[test]
fn bc_packet_loss_perc_sweep() {
    for &loss in &[0, 5, 6, 10, 25, 50, 100] {
        let mut enc = OpusEncoder::new(48000, 1, OPUS_APPLICATION_VOIP).unwrap();
        assert_eq!(enc.set_bitrate(24000), OPUS_OK);
        assert_eq!(enc.set_inband_fec(1), OPUS_OK);
        assert_eq!(enc.set_packet_loss_perc(loss), OPUS_OK);
        let pcm = patterned_pcm_i16(960, 1, 10900 + loss);
        let mut packet = vec![0u8; 1500];
        let _ = code(&mut enc, &pcm, 960, &mut packet, 1500).unwrap();
    }
}

#[test]
fn bc_12k_bandwidth_cap() {
    let mut enc = OpusEncoder::new(12000, 1, OPUS_APPLICATION_AUDIO).unwrap();
    assert_eq!(enc.set_bandwidth(OPUS_BANDWIDTH_SUPERWIDEBAND), OPUS_OK);
    assert_eq!(enc.set_bitrate(24000), OPUS_OK);
    let pcm = patterned_pcm_i16(240, 1, 11100);
    let mut packet = vec![0u8; 1500];
    let _ = code(&mut enc, &pcm, 240, &mut packet, 1500).unwrap();
}

#[test]
fn bc_encode_with_celt_enc_none_silk_mode() {
    let mut enc = OpusEncoder::new(48000, 1, OPUS_APPLICATION_VOIP).unwrap();
    assert_eq!(enc.set_force_mode(MODE_SILK_ONLY), OPUS_OK);
    assert_eq!(enc.set_bandwidth(OPUS_BANDWIDTH_WIDEBAND), OPUS_OK);
    assert_eq!(enc.set_bitrate(20000), OPUS_OK);
    let pcm = patterned_pcm_i16(960, 1, 11400);
    let mut packet = vec![0u8; 1500];
    let _ = code(&mut enc, &pcm, 960, &mut packet, 1500).unwrap();
    enc.celt_enc = None;
    let res = code(&mut enc, &pcm, 960, &mut packet, 1500);
    let _ = res;
}

#[test]
fn bc_hp_freq_smth1_silk_none_nonceltmode() {
    let mut enc = OpusEncoder::new(48000, 1, OPUS_APPLICATION_VOIP).unwrap();
    assert_eq!(enc.set_force_mode(MODE_SILK_ONLY), OPUS_OK);
    assert_eq!(enc.set_bitrate(24000), OPUS_OK);
    let pcm = patterned_pcm_i16(960, 1, 11500);
    let mut packet = vec![0u8; 1500];
    let _ = code(&mut enc, &pcm, 960, &mut packet, 1500).unwrap();
    enc.silk_enc = None;
    let _ = code(&mut enc, &pcm, 960, &mut packet, 1500);
}

#[test]
fn bc_multiframe_mixed_silence() {
    let mut enc = OpusEncoder::new(48000, 1, OPUS_APPLICATION_VOIP).unwrap();
    assert_eq!(enc.set_dtx(1), OPUS_OK);
    assert_eq!(enc.set_force_mode(MODE_SILK_ONLY), OPUS_OK);
    assert_eq!(enc.set_bandwidth(OPUS_BANDWIDTH_WIDEBAND), OPUS_OK);
    assert_eq!(enc.set_bitrate(20000), OPUS_OK);
    assert_eq!(enc.set_expert_frame_duration(OPUS_FRAMESIZE_60_MS), OPUS_OK);
    let mut packet = vec![0u8; 1500];
    let silence = vec![0i16; 2880];
    for _ in 0..10 {
        let _ = code(&mut enc, &silence, 2880, &mut packet, 1500).unwrap();
    }
    let active = patterned_pcm_i16(2880, 1, 11600);
    let _ = code(&mut enc, &active, 2880, &mut packet, 1500).unwrap();
}

#[test]
fn bc_bandwidth_mediumband_skip() {
    let mut enc = OpusEncoder::new(48000, 1, OPUS_APPLICATION_VOIP).unwrap();
    assert_eq!(enc.set_force_mode(MODE_CELT_ONLY), OPUS_OK);
    assert_eq!(enc.set_bandwidth(OPUS_BANDWIDTH_MEDIUMBAND), OPUS_OK);
    assert_eq!(enc.set_bitrate(24000), OPUS_OK);
    let pcm = patterned_pcm_i16(960, 1, 11700);
    let mut packet = vec![0u8; 1500];
    let _ = code(&mut enc, &pcm, 960, &mut packet, 1500).unwrap();
}

#[test]
fn bc_stereo_to_mono_natural_transition() {
    let mut enc = OpusEncoder::new(48000, 2, OPUS_APPLICATION_AUDIO).unwrap();
    assert_eq!(enc.set_bitrate(6000), OPUS_OK);
    assert_eq!(enc.set_signal(OPUS_SIGNAL_VOICE), OPUS_OK);
    let mut packet = vec![0u8; 1500];
    for i in 0..2 {
        let pcm = patterned_pcm_i16(960, 2, 11800 + i);
        let _ = code(&mut enc, &pcm, 960, &mut packet, 1500).unwrap();
    }
    assert_eq!(enc.set_expert_frame_duration(OPUS_FRAMESIZE_40_MS), OPUS_OK);
    for i in 0..2 {
        let pcm = patterned_pcm_i16(1920, 2, 12000 + i);
        let _ = code(&mut enc, &pcm, 1920, &mut packet, 1500).unwrap();
    }
}

#[test]
fn bc_multiframe_all_silence_all_dtx_bitrate_max() {
    let mut enc = OpusEncoder::new(48000, 1, OPUS_APPLICATION_VOIP).unwrap();
    assert_eq!(enc.set_dtx(1), OPUS_OK);
    assert_eq!(enc.set_bitrate(OPUS_BITRATE_MAX), OPUS_OK);
    assert_eq!(enc.set_expert_frame_duration(OPUS_FRAMESIZE_40_MS), OPUS_OK);
    let silence = vec![0i16; 1920];
    let mut packet = vec![0u8; 1500];
    for _ in 0..15 {
        let _ = code(&mut enc, &silence, 1920, &mut packet, 1500).unwrap();
    }
}

#[test]
fn bc_silk_long_sequence_for_switch() {
    let mut enc = OpusEncoder::new(48000, 1, OPUS_APPLICATION_VOIP).unwrap();
    assert_eq!(enc.set_force_mode(MODE_SILK_ONLY), OPUS_OK);
    assert_eq!(enc.set_bandwidth(OPUS_AUTO), OPUS_OK);
    assert_eq!(enc.set_bitrate(20000), OPUS_OK);
    let mut packet = vec![0u8; 1500];
    for i in 0..12 {
        let pcm = patterned_pcm_i16(960, 1, 12500 + i);
        let _ = code(&mut enc, &pcm, 960, &mut packet, 1500).unwrap();
    }
}

#[test]
fn bc_silk_pure_silence_no_dtx() {
    let mut enc = OpusEncoder::new(48000, 1, OPUS_APPLICATION_VOIP).unwrap();
    assert_eq!(enc.set_force_mode(MODE_SILK_ONLY), OPUS_OK);
    assert_eq!(enc.set_bandwidth(OPUS_BANDWIDTH_WIDEBAND), OPUS_OK);
    assert_eq!(enc.set_dtx(0), OPUS_OK);
    assert_eq!(enc.set_bitrate(20000), OPUS_OK);
    let silence = vec![0i16; 960];
    let mut packet = vec![0u8; 1500];
    for _ in 0..5 {
        let _ = code(&mut enc, &silence, 960, &mut packet, 1500).unwrap();
    }
}

#[test]
fn bc_mediumband_skip() {
    let mut enc = OpusEncoder::new(48000, 1, OPUS_APPLICATION_AUDIO).unwrap();
    assert_eq!(enc.set_signal(OPUS_SIGNAL_MUSIC), OPUS_OK);
    assert_eq!(enc.set_force_mode(MODE_CELT_ONLY), OPUS_OK);
    assert_eq!(enc.set_bitrate(9000), OPUS_OK);
    let pcm = patterned_pcm_i16(960, 1, 12600);
    let mut packet = vec![0u8; 1500];
    for _ in 0..3 {
        let _ = code(&mut enc, &pcm, 960, &mut packet, 1500).unwrap();
    }
    let mut enc = OpusEncoder::new(48000, 1, OPUS_APPLICATION_AUDIO).unwrap();
    assert_eq!(enc.set_signal(OPUS_SIGNAL_VOICE), OPUS_OK);
    assert_eq!(enc.set_force_mode(MODE_CELT_ONLY), OPUS_OK);
    assert_eq!(enc.set_bitrate(10000), OPUS_OK);
    let _ = code(&mut enc, &pcm, 960, &mut packet, 1500).unwrap();
}

#[test]
fn bc_stereo_voice_voip_bandwidth() {
    let mut enc = OpusEncoder::new(48000, 2, OPUS_APPLICATION_VOIP).unwrap();
    assert_eq!(enc.set_signal(OPUS_SIGNAL_VOICE), OPUS_OK);
    assert_eq!(enc.set_bitrate(16000), OPUS_OK);
    let pcm = patterned_pcm_i16(960, 2, 12700);
    let mut packet = vec![0u8; 1500];
    for _ in 0..3 {
        let _ = code(&mut enc, &pcm, 960, &mut packet, 1500).unwrap();
    }
}

#[test]
fn bc_multiframe_redundancy_to_celt() {
    let mut enc = OpusEncoder::new(48000, 1, OPUS_APPLICATION_AUDIO).unwrap();
    assert_eq!(enc.set_bitrate(48000), OPUS_OK);
    assert_eq!(enc.set_force_mode(MODE_SILK_ONLY), OPUS_OK);
    assert_eq!(enc.set_bandwidth(OPUS_BANDWIDTH_WIDEBAND), OPUS_OK);
    assert_eq!(enc.set_expert_frame_duration(OPUS_FRAMESIZE_40_MS), OPUS_OK);
    let pcm = patterned_pcm_i16(1920, 1, 11300);
    let mut packet = vec![0u8; 1500];
    let _ = code(&mut enc, &pcm, 1920, &mut packet, 1500).unwrap();
    assert_eq!(enc.set_force_mode(MODE_CELT_ONLY), OPUS_OK);
    assert_eq!(enc.set_expert_frame_duration(OPUS_FRAMESIZE_40_MS), OPUS_OK);
    let _ = code(&mut enc, &pcm, 1920, &mut packet, 1500).unwrap();
}
