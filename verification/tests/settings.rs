//! Settings of the encoder, and what can be asked of it.

use opus_core::coders::CeltEncoder;
use opus_core::codes::{OPUS_BAD_ARG, OPUS_OK};
use opus_core::encoder::OpusEncoder;
use opus_core::modes::{
    MODE_CELT_ONLY, MODE_HYBRID, MODE_SILK_ONLY, OPUS_APPLICATION_AUDIO,
    OPUS_APPLICATION_RESTRICTED_LOWDELAY, OPUS_APPLICATION_VOIP, OPUS_AUTO,
    OPUS_BANDWIDTH_FULLBAND, OPUS_BANDWIDTH_MEDIUMBAND, OPUS_BANDWIDTH_NARROWBAND,
    OPUS_BANDWIDTH_SUPERWIDEBAND, OPUS_BANDWIDTH_WIDEBAND, OPUS_BITRATE_MAX,
    OPUS_FRAMESIZE_100_MS, OPUS_FRAMESIZE_10_MS, OPUS_FRAMESIZE_120_MS, OPUS_FRAMESIZE_20_MS,
    OPUS_FRAMESIZE_2_5_MS, OPUS_FRAMESIZE_40_MS, OPUS_FRAMESIZE_5_MS, OPUS_FRAMESIZE_60_MS,
    OPUS_FRAMESIZE_80_MS, OPUS_FRAMESIZE_ARG, OPUS_SIGNAL_MUSIC, OPUS_SIGNAL_VOICE,
};

fn patterned_pcm_i16(frame_size: usize, channels: usize, seed: i32) -> Vec<i16> {
    (0..frame_size * channels)
        .map(|i| {
            let base = ((i as i32 * 7919 + seed * 911) % 28000) - 14000;
            if channels == 2 && i % 2 == 1 {
                (base / 2) as i16
            } else {
                base as i16
            }
        })
        .collect()
}

#[test]
fn test_encoder_create() {
    let enc = OpusEncoder::new(48000, 2, OPUS_APPLICATION_VOIP);
    assert!(enc.is_ok());
    let enc = enc.unwrap();
    assert_eq!(enc.channels, 2);
    assert_eq!(enc.fs, 48000);
    assert_eq!(enc.get_sample_rate(), 48000);
}

#[test]
fn test_encoder_create_invalid() {
    assert!(OpusEncoder::new(44100, 2, OPUS_APPLICATION_VOIP).is_err());
    assert!(OpusEncoder::new(48000, 3, OPUS_APPLICATION_VOIP).is_err());
    assert!(OpusEncoder::new(48000, 2, 9999).is_err());
}

#[test]
fn test_encoder_ctl() {
    let mut enc = OpusEncoder::new(48000, 2, OPUS_APPLICATION_AUDIO).unwrap();

    assert_eq!(enc.set_bitrate(64000), OPUS_OK);
    assert!(enc.get_bitrate() > 0);

    assert_eq!(enc.set_complexity(5), OPUS_OK);
    assert_eq!(enc.get_complexity(), 5);

    assert_eq!(enc.set_vbr(0), OPUS_OK);
    assert_eq!(enc.get_vbr(), 0);

    assert_eq!(enc.set_signal(OPUS_SIGNAL_VOICE), OPUS_OK);
    assert_eq!(enc.get_signal(), OPUS_SIGNAL_VOICE);

    assert_eq!(enc.set_bandwidth(OPUS_BANDWIDTH_WIDEBAND), OPUS_OK);
    assert_eq!(enc.get_bandwidth(), OPUS_BANDWIDTH_FULLBAND);
}

#[test]
fn test_encoder_rejects_invalid_ctl_ranges() {
    let mut enc = OpusEncoder::new(48000, 2, OPUS_APPLICATION_AUDIO).unwrap();

    assert_eq!(enc.set_vbr(2), OPUS_BAD_ARG);
    assert_eq!(enc.set_vbr_constraint(-1), OPUS_BAD_ARG);
    assert_eq!(enc.set_force_channels(3), OPUS_BAD_ARG);
    assert_eq!(enc.set_bandwidth(12345), OPUS_BAD_ARG);
    assert_eq!(enc.set_max_bandwidth(12345), OPUS_BAD_ARG);
    assert_eq!(enc.set_signal(12345), OPUS_BAD_ARG);
    assert_eq!(enc.set_inband_fec(3), OPUS_BAD_ARG);
    assert_eq!(enc.set_packet_loss_perc(101), OPUS_BAD_ARG);
    assert_eq!(enc.set_dtx(2), OPUS_BAD_ARG);
    assert_eq!(enc.set_lsb_depth(7), OPUS_BAD_ARG);
    assert_eq!(enc.set_expert_frame_duration(4999), OPUS_BAD_ARG);
    assert_eq!(enc.set_prediction_disabled(2), OPUS_BAD_ARG);
    assert_eq!(enc.set_voice_ratio(101), OPUS_BAD_ARG);
    assert_eq!(enc.set_force_mode(12345), OPUS_BAD_ARG);
}

#[test]
fn test_encoder_bitrate_and_ctl_special_values() {
    let mut enc = OpusEncoder::new(48000, 2, OPUS_APPLICATION_AUDIO).unwrap();

    assert_eq!(enc.set_bitrate(OPUS_AUTO), OPUS_OK);
    assert_eq!(enc.user_bitrate_bps, OPUS_AUTO);

    assert_eq!(enc.set_bitrate(OPUS_BITRATE_MAX), OPUS_OK);
    assert_eq!(enc.user_bitrate_bps, OPUS_BITRATE_MAX);

    assert_eq!(enc.set_bitrate(400), OPUS_OK);
    assert_eq!(enc.user_bitrate_bps, 500);

    assert_eq!(enc.set_bitrate(2_000_000), OPUS_OK);
    assert_eq!(enc.user_bitrate_bps, 1_500_000);

    assert_eq!(enc.set_vbr_constraint(0), OPUS_OK);
    assert_eq!(enc.get_vbr_constraint(), 0);
    assert_eq!(enc.set_vbr_constraint(1), OPUS_OK);
    assert_eq!(enc.get_vbr_constraint(), 1);

    assert_eq!(enc.set_force_channels(OPUS_AUTO), OPUS_OK);
    assert_eq!(enc.get_force_channels(), OPUS_AUTO);
    assert_eq!(enc.set_bandwidth(OPUS_AUTO), OPUS_OK);
    assert_eq!(enc.user_bandwidth, OPUS_AUTO);
    assert_eq!(enc.set_signal(OPUS_AUTO), OPUS_OK);
    assert_eq!(enc.get_signal(), OPUS_AUTO);
    assert_eq!(enc.set_max_bandwidth(OPUS_BANDWIDTH_FULLBAND), OPUS_OK);
    assert_eq!(enc.get_max_bandwidth(), OPUS_BANDWIDTH_FULLBAND);
    assert_eq!(enc.set_voice_ratio(-1), OPUS_OK);
    assert_eq!(enc.get_voice_ratio(), -1);
}

#[test]
fn test_encoder_controls_update_state_and_lookahead() {
    let mut enc = OpusEncoder::new(48000, 2, OPUS_APPLICATION_AUDIO).unwrap();

    assert_eq!(enc.get_lookahead(), 312);
    assert_eq!(enc.set_bitrate(0), OPUS_BAD_ARG);
    assert_eq!(enc.set_bitrate(1), OPUS_OK);
    assert_eq!(enc.get_bitrate(), 500);

    assert_eq!(enc.set_force_channels(1), OPUS_OK);
    assert_eq!(enc.get_force_channels(), 1);
    assert_eq!(enc.set_bandwidth(OPUS_BANDWIDTH_WIDEBAND), OPUS_OK);
    assert_eq!(enc.set_max_bandwidth(OPUS_BANDWIDTH_SUPERWIDEBAND), OPUS_OK);
    assert_eq!(enc.get_max_bandwidth(), OPUS_BANDWIDTH_SUPERWIDEBAND);
    assert_eq!(enc.set_signal(OPUS_SIGNAL_MUSIC), OPUS_OK);
    assert_eq!(enc.get_signal(), OPUS_SIGNAL_MUSIC);
    assert_eq!(enc.set_inband_fec(2), OPUS_OK);
    assert_eq!(enc.get_inband_fec(), 2);
    assert_eq!(enc.silk_mode.use_in_band_fec, 1);
    assert_eq!(enc.set_packet_loss_perc(12), OPUS_OK);
    assert_eq!(enc.get_packet_loss_perc(), 12);
    assert_eq!(enc.set_dtx(1), OPUS_OK);
    assert_eq!(enc.get_dtx(), 1);
    assert_eq!(enc.set_lsb_depth(16), OPUS_OK);
    assert_eq!(enc.get_lsb_depth(), 16);
    assert_eq!(enc.set_expert_frame_duration(OPUS_FRAMESIZE_20_MS), OPUS_OK);
    assert_eq!(enc.get_expert_frame_duration(), OPUS_FRAMESIZE_20_MS);
    assert_eq!(enc.set_prediction_disabled(1), OPUS_OK);
    assert_eq!(enc.get_prediction_disabled(), 1);
    assert_eq!(enc.set_voice_ratio(100), OPUS_OK);
    assert_eq!(enc.get_voice_ratio(), 100);
    assert_eq!(enc.set_force_mode(MODE_HYBRID), OPUS_OK);
    assert_eq!(enc.user_forced_mode, MODE_HYBRID);
    assert_eq!(enc.set_phase_inversion_disabled(1), OPUS_OK);
    assert_eq!(enc.get_phase_inversion_disabled(), 1);

    let lowdelay = OpusEncoder::new(48000, 2, OPUS_APPLICATION_RESTRICTED_LOWDELAY).unwrap();
    assert_eq!(lowdelay.get_lookahead(), 120);
}

#[test]
fn test_delay_buffer_update_branches() {
    let mut enc = OpusEncoder::new(48000, 1, OPUS_APPLICATION_AUDIO).unwrap();

    enc.encoder_buffer = 6;
    enc.delay_buffer = vec![0; 6];
    enc.update_delay_buffer_from_pcm_buf(&[20, 21, 22, 23, 24, 25], 4, 0);
    assert_eq!(enc.delay_buffer, vec![0, 0, 20, 21, 22, 23]);

    enc.encoder_buffer = 4;
    enc.delay_buffer = vec![0; 4];
    enc.update_delay_buffer_from_pcm_buf(&[20, 21, 22, 23, 24, 25], 6, 0);
    assert_eq!(enc.delay_buffer, vec![22, 23, 24, 25]);
}

#[test]
fn test_public_setters_round_trip_state_and_reset() {
    let mut enc = OpusEncoder::new(48000, 2, OPUS_APPLICATION_AUDIO).unwrap();

    assert_eq!(enc.set_bitrate(54321), OPUS_OK);
    assert_eq!(enc.set_bandwidth(OPUS_BANDWIDTH_WIDEBAND), OPUS_OK);
    assert_eq!(enc.set_max_bandwidth(OPUS_BANDWIDTH_SUPERWIDEBAND), OPUS_OK);
    assert_eq!(enc.set_force_mode(MODE_CELT_ONLY), OPUS_OK);
    assert_eq!(enc.set_force_channels(1), OPUS_OK);
    assert_eq!(enc.set_lfe(1), OPUS_OK);
    assert_eq!(enc.set_expert_frame_duration(OPUS_FRAMESIZE_10_MS), OPUS_OK);
    assert_eq!(enc.set_lsb_depth(12), OPUS_OK);
    assert_eq!(enc.set_complexity(7), OPUS_OK);
    assert_eq!(enc.set_vbr(0), OPUS_OK);
    assert_eq!(enc.set_vbr_constraint(1), OPUS_OK);
    assert_eq!(enc.set_signal(OPUS_SIGNAL_MUSIC), OPUS_OK);
    assert_eq!(enc.set_inband_fec(1), OPUS_OK);
    assert_eq!(enc.set_packet_loss_perc(17), OPUS_OK);
    assert_eq!(enc.set_dtx(1), OPUS_OK);
    assert_eq!(enc.set_prediction_disabled(1), OPUS_OK);
    assert_eq!(enc.set_phase_inversion_disabled(1), OPUS_OK);
    assert_eq!(
        enc.set_application(OPUS_APPLICATION_RESTRICTED_LOWDELAY),
        OPUS_OK
    );
    assert_eq!(enc.set_application(12345), OPUS_BAD_ARG);

    enc.hp_mem = [1, 2, 3, 4];
    enc.variable_hp_smth2_q15 = 123456;
    enc.range_final = 0x1357_9BDF;
    enc.mode = MODE_CELT_ONLY;
    enc.prev_mode = MODE_SILK_ONLY;
    enc.stream_channels = 1;

    assert_eq!(enc.get_vbr(), 0);
    assert_eq!(enc.get_expert_frame_duration(), OPUS_FRAMESIZE_10_MS);
    assert_eq!(enc.get_lsb_depth(), 12);
    assert_eq!(enc.get_complexity(), 7);
    assert_eq!(enc.delay_compensation(), enc.delay_compensation);
    assert!(enc.celt_mode().is_some());
    assert_eq!(enc.get_hp_mem(), [1, 2, 3, 4]);
    assert_eq!(enc.get_variable_hp_smth2(), 123456);
    assert_eq!(enc.get_sample_rate(), 48000);
    assert_eq!(enc.get_final_range(), 0x1357_9BDF);
    assert_eq!(enc.get_application(), OPUS_APPLICATION_RESTRICTED_LOWDELAY);
    assert_eq!(enc.get_channels(), 2);
    assert_eq!(enc.get_stream_channels(), 1);
    assert_eq!(enc.get_mode(), MODE_CELT_ONLY);
    assert_eq!(enc.get_prev_mode(), MODE_SILK_ONLY);

    enc.reset();
    assert_eq!(enc.get_stream_channels(), 2);
    assert_eq!(enc.get_mode(), MODE_HYBRID);
    assert_eq!(enc.get_prev_mode(), 0);
    assert_eq!(enc.get_final_range(), 0);
    assert_eq!(enc.get_hp_mem(), [0; 4]);
}

#[test]
fn test_public_setters_cover_none_and_some_celt_paths() {
    let mut enc = OpusEncoder::new(48000, 2, OPUS_APPLICATION_AUDIO).unwrap();

    enc.celt_enc = None;
    assert_eq!(enc.set_complexity(4), OPUS_OK);
    assert_eq!(enc.set_packet_loss_perc(9), OPUS_OK);
    assert_eq!(enc.set_prediction_disabled(1), OPUS_OK);
    assert_eq!(enc.set_phase_inversion_disabled(1), OPUS_OK);
    assert_eq!(enc.set_application(12_345), OPUS_BAD_ARG);
    assert_eq!(enc.get_complexity(), 4);
    assert_eq!(enc.silk_mode.packet_loss_percentage, 9);
    assert_eq!(enc.get_application(), OPUS_APPLICATION_AUDIO);

    enc.celt_enc = Some(CeltEncoder::new(48000, 2).unwrap());
    assert_eq!(enc.set_bitrate(64_321), OPUS_OK);
    assert_eq!(enc.set_bandwidth(OPUS_BANDWIDTH_WIDEBAND), OPUS_OK);
    assert_eq!(enc.set_max_bandwidth(OPUS_BANDWIDTH_FULLBAND), OPUS_OK);
    assert_eq!(enc.set_force_mode(MODE_CELT_ONLY), OPUS_OK);
    assert_eq!(enc.set_force_channels(1), OPUS_OK);
    assert_eq!(enc.set_lfe(1), OPUS_OK);
    assert_eq!(enc.set_expert_frame_duration(OPUS_FRAMESIZE_10_MS), OPUS_OK);
    assert_eq!(enc.set_lsb_depth(14), OPUS_OK);
    assert_eq!(enc.set_complexity(8), OPUS_OK);
    assert_eq!(enc.set_vbr(0), OPUS_OK);
    assert_eq!(enc.set_vbr_constraint(1), OPUS_OK);
    assert_eq!(enc.set_signal(OPUS_SIGNAL_MUSIC), OPUS_OK);
    assert_eq!(enc.set_inband_fec(2), OPUS_OK);
    assert_eq!(enc.set_packet_loss_perc(17), OPUS_OK);
    assert_eq!(enc.set_dtx(1), OPUS_OK);
    assert_eq!(enc.set_prediction_disabled(1), OPUS_OK);
    assert_eq!(enc.set_phase_inversion_disabled(1), OPUS_OK);
    assert_eq!(
        enc.set_application(OPUS_APPLICATION_RESTRICTED_LOWDELAY),
        OPUS_OK
    );

    assert_eq!(enc.get_vbr(), 0);
    assert_eq!(enc.get_expert_frame_duration(), OPUS_FRAMESIZE_10_MS);
    assert_eq!(enc.get_lsb_depth(), 14);
    assert_eq!(enc.get_complexity(), 8);
    assert_eq!(enc.user_bitrate_bps, 64_321);
    assert_eq!(enc.user_bandwidth, OPUS_BANDWIDTH_WIDEBAND);
    assert_eq!(enc.max_bandwidth, OPUS_BANDWIDTH_FULLBAND);
    assert_eq!(enc.user_forced_mode, MODE_CELT_ONLY);
    assert_eq!(enc.force_channels, 1);
    assert_eq!(enc.lfe, 1);
    assert_eq!(enc.signal_type, OPUS_SIGNAL_MUSIC);
    assert_eq!(enc.fec_config, 2);
    assert_eq!(enc.silk_mode.use_in_band_fec, 1);
    assert_eq!(enc.silk_mode.use_cbr, 1);
    assert_eq!(enc.use_dtx, 1);
    assert_eq!(enc.get_application(), OPUS_APPLICATION_RESTRICTED_LOWDELAY);

    let celt = enc.celt_enc.as_ref().unwrap();
    assert_eq!(celt.complexity, 8);
    assert_eq!(celt.loss_rate, 17);
    assert_eq!(enc.silk_mode.reduced_dependency, 1);
}

#[test]
fn test_public_getters_cover_runtime_state_snapshots() {
    let mut enc = OpusEncoder::new(48000, 1, OPUS_APPLICATION_VOIP).unwrap();
    enc.hp_mem = [11, 22, 33, 44];
    enc.variable_hp_smth2_q15 = 55_555;
    enc.range_final = 0x2468_ACE0;
    enc.mode = MODE_CELT_ONLY;
    enc.prev_mode = MODE_HYBRID;
    enc.stream_channels = 1;

    assert_eq!(enc.get_hp_mem(), [11, 22, 33, 44]);
    assert_eq!(enc.get_variable_hp_smth2(), 55_555);
    assert_eq!(enc.get_sample_rate(), 48_000);
    assert_eq!(enc.get_final_range(), 0x2468_ACE0);
    assert_eq!(enc.get_application(), OPUS_APPLICATION_VOIP);
    assert_eq!(enc.get_channels(), 1);
    assert_eq!(enc.get_stream_channels(), 1);
    assert_eq!(enc.get_mode(), MODE_CELT_ONLY);
    assert_eq!(enc.get_prev_mode(), MODE_HYBRID);
}

#[test]
fn test_helper_noop_branches_and_phase_inversion_default() {
    let mut enc = OpusEncoder::new(48000, 1, OPUS_APPLICATION_AUDIO).unwrap();
    enc.celt_enc = None;
    assert_eq!(enc.get_phase_inversion_disabled(), 0);

    enc.encoder_buffer = 0;
    enc.delay_buffer = vec![7, 8, 9];
    enc.update_delay_buffer_from_pcm_buf(&[4, 5, 6], 3, 0);
    assert_eq!(enc.delay_buffer, vec![7, 8, 9]);
}

#[test]
fn test_ctl_set_bandwidth_error_paths() {
    let mut enc = OpusEncoder::new(48000, 1, OPUS_APPLICATION_AUDIO).unwrap();
    assert_eq!(enc.set_bandwidth(OPUS_AUTO), OPUS_OK);
    assert_eq!(enc.set_bandwidth(OPUS_BANDWIDTH_NARROWBAND), OPUS_OK);
    assert_eq!(enc.set_bandwidth(OPUS_BANDWIDTH_FULLBAND), OPUS_OK);
    assert_eq!(
        enc.set_bandwidth(OPUS_BANDWIDTH_NARROWBAND - 1),
        OPUS_BAD_ARG
    );
    assert_eq!(enc.set_bandwidth(OPUS_BANDWIDTH_FULLBAND + 1), OPUS_BAD_ARG);
}

#[test]
fn test_ctl_set_max_bandwidth_error_paths() {
    let mut enc = OpusEncoder::new(48000, 1, OPUS_APPLICATION_AUDIO).unwrap();
    assert_eq!(enc.set_max_bandwidth(OPUS_BANDWIDTH_WIDEBAND), OPUS_OK);
    assert_eq!(enc.get_max_bandwidth(), OPUS_BANDWIDTH_WIDEBAND);
    assert_eq!(
        enc.set_max_bandwidth(OPUS_BANDWIDTH_NARROWBAND - 1),
        OPUS_BAD_ARG
    );
    assert_eq!(
        enc.set_max_bandwidth(OPUS_BANDWIDTH_FULLBAND + 1),
        OPUS_BAD_ARG
    );
}

#[test]
fn test_ctl_set_signal_error_paths() {
    let mut enc = OpusEncoder::new(48000, 1, OPUS_APPLICATION_AUDIO).unwrap();
    assert_eq!(enc.set_signal(OPUS_AUTO), OPUS_OK);
    assert_eq!(enc.set_signal(OPUS_SIGNAL_VOICE), OPUS_OK);
    assert_eq!(enc.set_signal(OPUS_SIGNAL_MUSIC), OPUS_OK);
    assert_eq!(enc.get_signal(), OPUS_SIGNAL_MUSIC);
    assert_eq!(enc.set_signal(9999), OPUS_BAD_ARG);
}

#[test]
fn test_ctl_set_inband_fec_error_paths() {
    let mut enc = OpusEncoder::new(48000, 1, OPUS_APPLICATION_VOIP).unwrap();
    assert_eq!(enc.set_inband_fec(0), OPUS_OK);
    assert_eq!(enc.set_inband_fec(1), OPUS_OK);
    assert_eq!(enc.set_inband_fec(2), OPUS_OK);
    assert_eq!(enc.get_inband_fec(), 2);
    assert_eq!(enc.set_inband_fec(-1), OPUS_BAD_ARG);
    assert_eq!(enc.set_inband_fec(3), OPUS_BAD_ARG);
}

#[test]
fn test_ctl_set_packet_loss_perc_error_paths() {
    let mut enc = OpusEncoder::new(48000, 1, OPUS_APPLICATION_VOIP).unwrap();
    assert_eq!(enc.set_packet_loss_perc(0), OPUS_OK);
    assert_eq!(enc.set_packet_loss_perc(50), OPUS_OK);
    assert_eq!(enc.set_packet_loss_perc(100), OPUS_OK);
    assert_eq!(enc.get_packet_loss_perc(), 100);
    assert_eq!(enc.set_packet_loss_perc(-1), OPUS_BAD_ARG);
    assert_eq!(enc.set_packet_loss_perc(101), OPUS_BAD_ARG);
}

#[test]
fn test_ctl_set_dtx_error_paths() {
    let mut enc = OpusEncoder::new(48000, 1, OPUS_APPLICATION_VOIP).unwrap();
    assert_eq!(enc.set_dtx(0), OPUS_OK);
    assert_eq!(enc.set_dtx(1), OPUS_OK);
    assert_eq!(enc.get_dtx(), 1);
    assert_eq!(enc.set_dtx(-1), OPUS_BAD_ARG);
    assert_eq!(enc.set_dtx(2), OPUS_BAD_ARG);
}

#[test]
fn test_ctl_set_lfe_roundtrip() {
    let mut enc = OpusEncoder::new(48000, 2, OPUS_APPLICATION_AUDIO).unwrap();
    assert_eq!(enc.set_lfe(1), OPUS_OK);
    assert_eq!(enc.lfe, 1);
    if let Some(ref celt) = enc.celt_enc {
        assert_eq!(celt.lfe, 1);
    } else {
        panic!("celt_enc missing");
    }
    assert_eq!(enc.set_lfe(0), OPUS_OK);
    assert_eq!(enc.lfe, 0);
    if let Some(ref celt) = enc.celt_enc {
        assert_eq!(celt.lfe, 0);
    }
}

#[test]
fn test_ctl_set_energy_mask_roundtrip() {
    let mut enc = OpusEncoder::new(48000, 2, OPUS_APPLICATION_AUDIO).unwrap();
    let mask: Vec<i32> = vec![-1000; 42];
    assert_eq!(enc.set_energy_mask(Some(&mask)), OPUS_OK);
    assert_eq!(enc.energy_masking.as_deref(), Some(mask.as_slice()));
    if let Some(ref celt) = enc.celt_enc {
        assert_eq!(celt.energy_mask.as_deref(), Some(mask.as_slice()));
    } else {
        panic!("celt_enc missing");
    }
    assert_eq!(enc.set_energy_mask(None), OPUS_OK);
    assert!(enc.energy_masking.is_none());
    if let Some(ref celt) = enc.celt_enc {
        assert!(celt.energy_mask.is_none());
    }
}

#[test]
fn test_ctl_set_lsb_depth_error_paths() {
    let mut enc = OpusEncoder::new(48000, 1, OPUS_APPLICATION_AUDIO).unwrap();
    assert_eq!(enc.set_lsb_depth(8), OPUS_OK);
    assert_eq!(enc.set_lsb_depth(16), OPUS_OK);
    assert_eq!(enc.set_lsb_depth(24), OPUS_OK);
    assert_eq!(enc.get_lsb_depth(), 24);
    assert_eq!(enc.set_lsb_depth(7), OPUS_BAD_ARG);
    assert_eq!(enc.set_lsb_depth(25), OPUS_BAD_ARG);
}

#[test]
fn test_ctl_set_complexity_error_paths() {
    let mut enc = OpusEncoder::new(48000, 1, OPUS_APPLICATION_AUDIO).unwrap();
    assert_eq!(enc.set_complexity(0), OPUS_OK);
    assert_eq!(enc.get_complexity(), 0);
    assert_eq!(enc.set_complexity(10), OPUS_OK);
    assert_eq!(enc.get_complexity(), 10);
    assert_eq!(enc.set_complexity(-1), OPUS_BAD_ARG);
    assert_eq!(enc.set_complexity(11), OPUS_BAD_ARG);
}

#[test]
fn test_ctl_set_prediction_disabled_error_paths() {
    let mut enc = OpusEncoder::new(48000, 1, OPUS_APPLICATION_AUDIO).unwrap();
    assert_eq!(enc.set_prediction_disabled(0), OPUS_OK);
    assert_eq!(enc.get_prediction_disabled(), 0);
    assert_eq!(enc.set_prediction_disabled(1), OPUS_OK);
    assert_eq!(enc.get_prediction_disabled(), 1);
    assert_eq!(enc.set_prediction_disabled(-1), OPUS_BAD_ARG);
    assert_eq!(enc.set_prediction_disabled(2), OPUS_BAD_ARG);
}

#[test]
fn test_ctl_force_channels_mono_encoder() {
    let mut enc = OpusEncoder::new(48000, 1, OPUS_APPLICATION_AUDIO).unwrap();
    assert_eq!(enc.set_force_channels(1), OPUS_OK);
    assert_eq!(enc.get_force_channels(), 1);
    assert_eq!(enc.set_force_channels(2), OPUS_BAD_ARG);
    assert_eq!(enc.set_force_channels(0), OPUS_BAD_ARG);
    assert_eq!(enc.set_force_channels(OPUS_AUTO), OPUS_OK);
}

#[test]
fn test_ctl_expert_frame_duration_arg_value() {
    let mut enc = OpusEncoder::new(48000, 1, OPUS_APPLICATION_AUDIO).unwrap();
    assert_eq!(enc.set_expert_frame_duration(OPUS_FRAMESIZE_ARG), OPUS_OK);
    assert_eq!(enc.get_expert_frame_duration(), OPUS_FRAMESIZE_ARG);
    assert_eq!(
        enc.set_expert_frame_duration(OPUS_FRAMESIZE_2_5_MS),
        OPUS_OK
    );
    assert_eq!(
        enc.set_expert_frame_duration(OPUS_FRAMESIZE_120_MS),
        OPUS_OK
    );
    assert_eq!(enc.get_expert_frame_duration(), OPUS_FRAMESIZE_120_MS);
}

#[test]
fn bc_ctl_setters_without_celt_encoder() {
    let mut enc = OpusEncoder::new(48000, 2, OPUS_APPLICATION_AUDIO).unwrap();
    enc.celt_enc = None;

    assert_eq!(enc.set_packet_loss_perc(7), OPUS_OK);
    assert_eq!(enc.get_packet_loss_perc(), 7);
    assert_eq!(enc.set_complexity(3), OPUS_OK);
    assert_eq!(enc.get_complexity(), 3);
    assert_eq!(enc.set_phase_inversion_disabled(1), OPUS_OK);
    assert_eq!(enc.get_phase_inversion_disabled(), 0);
}

#[test]
fn bc_ctl_boundary_values() {
    let mut enc = OpusEncoder::new(48000, 2, OPUS_APPLICATION_AUDIO).unwrap();

    assert_eq!(enc.set_voice_ratio(-2), OPUS_BAD_ARG);
    assert_eq!(enc.set_voice_ratio(-1), OPUS_OK);
    assert_eq!(enc.set_voice_ratio(0), OPUS_OK);
    assert_eq!(enc.set_voice_ratio(100), OPUS_OK);
    assert_eq!(enc.set_voice_ratio(101), OPUS_BAD_ARG);

    assert_eq!(enc.set_force_mode(OPUS_AUTO), OPUS_OK);
    assert_eq!(enc.set_force_mode(MODE_SILK_ONLY), OPUS_OK);
    assert_eq!(enc.set_force_mode(MODE_HYBRID), OPUS_OK);
    assert_eq!(enc.set_force_mode(MODE_CELT_ONLY), OPUS_OK);

    for &d in &[
        OPUS_FRAMESIZE_ARG,
        OPUS_FRAMESIZE_2_5_MS,
        OPUS_FRAMESIZE_5_MS,
        OPUS_FRAMESIZE_10_MS,
        OPUS_FRAMESIZE_20_MS,
        OPUS_FRAMESIZE_40_MS,
        OPUS_FRAMESIZE_60_MS,
        OPUS_FRAMESIZE_80_MS,
        OPUS_FRAMESIZE_100_MS,
        OPUS_FRAMESIZE_120_MS,
    ] {
        assert_eq!(enc.set_expert_frame_duration(d), OPUS_OK);
        assert_eq!(enc.get_expert_frame_duration(), d);
    }
    assert_eq!(enc.set_expert_frame_duration(4999), OPUS_BAD_ARG);
    assert_eq!(
        enc.set_expert_frame_duration(OPUS_FRAMESIZE_120_MS + 1),
        OPUS_BAD_ARG
    );

    assert_eq!(enc.set_complexity(0), OPUS_OK);
    assert_eq!(enc.set_complexity(10), OPUS_OK);
    assert_eq!(enc.set_complexity(-1), OPUS_BAD_ARG);
    assert_eq!(enc.set_complexity(11), OPUS_BAD_ARG);

    assert_eq!(enc.set_lsb_depth(8), OPUS_OK);
    assert_eq!(enc.set_lsb_depth(24), OPUS_OK);
    assert_eq!(enc.set_lsb_depth(25), OPUS_BAD_ARG);

    assert_eq!(enc.set_packet_loss_perc(0), OPUS_OK);
    assert_eq!(enc.set_packet_loss_perc(100), OPUS_OK);
    assert_eq!(enc.set_packet_loss_perc(-1), OPUS_BAD_ARG);

    assert_eq!(enc.set_bandwidth(OPUS_AUTO), OPUS_OK);
    for &b in &[
        OPUS_BANDWIDTH_NARROWBAND,
        OPUS_BANDWIDTH_MEDIUMBAND,
        OPUS_BANDWIDTH_WIDEBAND,
        OPUS_BANDWIDTH_SUPERWIDEBAND,
        OPUS_BANDWIDTH_FULLBAND,
    ] {
        assert_eq!(enc.set_bandwidth(b), OPUS_OK);
        assert_eq!(enc.set_max_bandwidth(b), OPUS_OK);
    }
    assert_eq!(enc.set_bandwidth(OPUS_BANDWIDTH_FULLBAND + 1), OPUS_BAD_ARG);
    assert_eq!(
        enc.set_max_bandwidth(OPUS_BANDWIDTH_NARROWBAND - 1),
        OPUS_BAD_ARG
    );
    let _ = enc.get_bandwidth();

    assert_eq!(enc.set_force_channels(OPUS_AUTO), OPUS_OK);
    assert_eq!(enc.set_force_channels(1), OPUS_OK);
    assert_eq!(enc.set_force_channels(2), OPUS_OK);
    assert_eq!(enc.set_force_channels(0), OPUS_BAD_ARG);
}

#[test]
fn bc_force_channels_mono_encoder() {
    let mut enc = OpusEncoder::new(48000, 1, OPUS_APPLICATION_VOIP).unwrap();
    assert_eq!(enc.set_force_channels(1), OPUS_OK);
    assert_eq!(enc.set_force_channels(2), OPUS_BAD_ARG);
    assert_eq!(enc.set_force_channels(OPUS_AUTO), OPUS_OK);
}

#[test]
fn bc_encode_native_bad_frame_size() {
    let mut enc = OpusEncoder::new(48000, 1, OPUS_APPLICATION_AUDIO).unwrap();
    let pcm = patterned_pcm_i16(960, 1, 6800);
    let mut packet = vec![0u8; 1500];
    assert_eq!(
        enc.encode_native(&pcm, 0, &mut packet, 1500, 16),
        Err(OPUS_BAD_ARG)
    );
    assert_eq!(
        enc.encode_native(&pcm, -1, &mut packet, 1500, 16),
        Err(OPUS_BAD_ARG)
    );
    assert_eq!(
        enc.encode_native(&pcm, 960, &mut packet, 0, 16),
        Err(OPUS_BAD_ARG)
    );
}

#[test]
fn bc_reset_without_celt_encoder() {
    let mut enc = OpusEncoder::new(48000, 1, OPUS_APPLICATION_AUDIO).unwrap();
    enc.celt_enc = None;
    enc.reset();
    assert_eq!(enc.get_prev_mode(), 0);
}

#[test]
fn bc_encode_native_lsb_depth_variations() {
    let mut enc = OpusEncoder::new(48000, 1, OPUS_APPLICATION_AUDIO).unwrap();
    let pcm = patterned_pcm_i16(960, 1, 7900);
    let mut packet = vec![0u8; 1500];
    let _ = enc.encode_native(&pcm, 960, &mut packet, 1500, 16).unwrap();
    let _ = enc.encode_native(&pcm, 960, &mut packet, 1500, 24).unwrap();
    let _ = enc.encode_native(&pcm, 960, &mut packet, 1500, 8).unwrap();
}

#[test]
fn bc_silk_encoder_accessors() {
    let enc = OpusEncoder::new(48000, 2, OPUS_APPLICATION_VOIP).unwrap();
    assert!(enc.silk_encoder().is_some());
    let snap = enc.get_silk_state();
    assert!(snap.is_some());
    let s = snap.unwrap();
    let _ = s.fs_khz + s.frame_length + s.nb_subfr;
    let _ = s.input_buf_ix + s.n_frames_per_packet + s.packet_size_ms;
    let _ = s.first_frame_after_reset + s.controlled_since_last_payload;
    let _ = s.prefill_flag + s.n_frames_encoded + s.speech_activity_q8;
    let _ = s.signal_type + s.input_quality_bands_q15 as i32;

    let mut enc2 = OpusEncoder::new(48000, 1, OPUS_APPLICATION_AUDIO).unwrap();
    enc2.silk_enc = None;
    assert!(enc2.silk_encoder().is_none());
    assert!(enc2.get_silk_state().is_none());
}

#[test]
fn a_new_encoder_has_its_defaults() {
    let enc = OpusEncoder::new(48000, 2, OPUS_APPLICATION_AUDIO).unwrap();
    assert_eq!(enc.current_bitrate_bps(), 99000);
    assert_eq!(enc.get_user_bitrate_bps(), OPUS_AUTO);
    assert_eq!(enc.get_complexity(), 9);
    assert_eq!(enc.celt_mode().unwrap().complexity, 9);
    assert_eq!(enc.get_variable_hp_smth2(), 193536);
    assert_eq!(enc.get_dred_duration(), 0);
    assert_eq!(enc.delay_compensation(), 192);
    assert_eq!(enc.debug_delay_buffer_hash(), (0, 960));
    // Without a frame size, 2.5 ms are meant.
    assert_eq!(enc.get_bitrate(), 60 * 400 + 96000);
}

#[test]
fn every_bad_argument_to_new_is_an_error() {
    assert_eq!(OpusEncoder::new(44100, 2, OPUS_APPLICATION_VOIP).err(), Some(OPUS_BAD_ARG));
    assert_eq!(OpusEncoder::new(48000, 0, OPUS_APPLICATION_VOIP).err(), Some(OPUS_BAD_ARG));
    assert_eq!(OpusEncoder::new(48000, 2, 2050).err(), Some(OPUS_BAD_ARG));
}

#[test]
fn samples_are_hashed_in_order() {
    let mut enc = OpusEncoder::new(8000, 1, OPUS_APPLICATION_AUDIO).unwrap();
    enc.encoder_buffer = 3;
    enc.delay_buffer = vec![1, 2, 3];
    assert_eq!(enc.debug_delay_buffer_hash(), (1026, 3));
}

#[test]
fn a_model_is_noted() {
    let mut enc = OpusEncoder::new(48000, 1, OPUS_APPLICATION_VOIP).unwrap();
    assert_eq!(enc.load_dnn_blob(&[], true), OPUS_BAD_ARG);
    assert!(enc.dred_encoder.is_none());
    assert_eq!(enc.load_dnn_blob(&[1, 2], false), OPUS_BAD_ARG);
    assert!(!enc.dred_encoder.unwrap().loaded);
    assert_eq!(enc.load_dnn_blob(&[1, 2], true), OPUS_OK);
    assert!(enc.dred_encoder.unwrap().loaded);
    assert_eq!(enc.set_dred_duration(105), OPUS_BAD_ARG);
    assert_eq!(enc.set_dred_duration(-1), OPUS_BAD_ARG);
    assert_eq!(enc.set_dred_duration(104), OPUS_OK);
    assert_eq!(enc.silk_mode.use_dred, 1);
    assert!(enc.dred_encoder.unwrap().loaded);
}

#[test]
fn leaving_out_is_told_by_the_coder_at_work() {
    let mut enc = OpusEncoder::new(48000, 1, OPUS_APPLICATION_VOIP).unwrap();
    enc.nb_no_activity_ms_q1 = 400;
    assert_eq!(enc.get_in_dtx(), 0);
    assert_eq!(enc.set_dtx(1), OPUS_OK);
    assert_eq!(enc.get_in_dtx(), 1);
    enc.nb_no_activity_ms_q1 = 399;
    assert_eq!(enc.get_in_dtx(), 0);
    enc.silk_mode.use_dtx = 1;
    enc.prev_mode = MODE_SILK_ONLY;
    enc.silk_enc.as_mut().unwrap().no_speech_counter = 10;
    assert_eq!(enc.get_in_dtx(), 1);
    enc.silk_enc.as_mut().unwrap().no_speech_counter = 9;
    assert_eq!(enc.get_in_dtx(), 0);
    enc.silk_enc = None;
    enc.nb_no_activity_ms_q1 = 1200;
    assert_eq!(enc.get_in_dtx(), 1);
}

#[test]
fn the_application_is_fixed_by_the_first_frame() {
    let mut enc = OpusEncoder::new(48000, 1, OPUS_APPLICATION_VOIP).unwrap();
    enc.update_state(false, 960);
    assert_eq!(enc.set_application(OPUS_APPLICATION_AUDIO), OPUS_BAD_ARG);
    assert_eq!(enc.set_application(OPUS_APPLICATION_VOIP), OPUS_OK);
    enc.reset();
    assert_eq!(enc.set_application(OPUS_APPLICATION_AUDIO), OPUS_OK);
    assert_eq!(enc.analysis.application, OPUS_APPLICATION_AUDIO);
}

#[test]
fn states_can_be_looked_at() {
    let mut enc = OpusEncoder::new(48000, 2, OPUS_APPLICATION_AUDIO).unwrap();
    enc.width_mem.xx = 5;
    enc.hybrid_stereo_width_q14 = 77;
    enc.detected_bandwidth = OPUS_BANDWIDTH_WIDEBAND;
    let stereo = enc.get_opus_stereo_state();
    assert_eq!(stereo.width_xx, 5);
    assert_eq!(stereo.hybrid_stereo_width_q14, 77);
    assert_eq!(stereo.detected_bandwidth, OPUS_BANDWIDTH_WIDEBAND);
    assert_eq!(stereo.mode, MODE_HYBRID);
    enc.celt_enc.as_mut().unwrap().running.rng = 9;
    let celt = enc.get_celt_state_ext().unwrap();
    assert_eq!(celt.rng, 9);
    assert_eq!(celt.tonal_average, 256);
    assert_eq!(celt.spread_decision, 2);
    enc.celt_enc = None;
    assert!(enc.get_celt_state_ext().is_none());
    assert!(enc.celt_mode().is_none());
}

#[test]
fn settings_survive_a_reset() {
    let mut enc = OpusEncoder::new(24000, 2, OPUS_APPLICATION_AUDIO).unwrap();
    assert_eq!(enc.set_bitrate(54321), OPUS_OK);
    assert_eq!(enc.set_vbr(0), OPUS_OK);
    assert_eq!(enc.set_packet_loss_perc(7), OPUS_OK);
    enc.delay_buffer[3] = 9;
    enc.celt_enc.as_mut().unwrap().running.rng = 77;
    enc.analysis.initialized = 1;
    enc.reset();
    assert_eq!(enc.get_user_bitrate_bps(), 54321);
    assert_eq!(enc.get_vbr(), 0);
    assert_eq!(enc.get_packet_loss_perc(), 7);
    assert_eq!(enc.celt_enc.as_ref().unwrap().loss_rate, 7);
    assert_eq!(enc.get_celt_state_ext().unwrap().rng, 0);
    assert_eq!(enc.debug_delay_buffer_hash(), (0, 480));
    assert_eq!(enc.analysis.initialized, 0);
}

#[test]
fn new_encoders_leave_the_music_coder_as_it_comes() {
    let enc = OpusEncoder::new(48000, 2, OPUS_APPLICATION_AUDIO).unwrap();
    let celt = enc.celt_enc.as_ref().unwrap();
    assert_eq!((celt.start, celt.end, celt.bitrate, celt.vbr, celt.constrained_vbr), (0, 21, -1, 0, 1));
    assert_eq!((celt.lsb_depth, celt.disable_pf, celt.force_intra, celt.disable_inv, celt.lfe), (24, 0, 0, 0, 0));
    assert_eq!((celt.signalling, celt.complexity, celt.loss_rate), (0, 9, 0));
}

#[test]
fn reset_empties_the_redundancy_encoder() {
    let mut enc = OpusEncoder::new(48000, 1, OPUS_APPLICATION_AUDIO).unwrap();
    assert_eq!(enc.set_dred_duration(40), OPUS_OK);
    enc.dred_encoder.as_mut().unwrap().latents_buffer_fill = 7;
    enc.reset();
    assert_eq!(enc.dred_encoder.as_ref().unwrap().latents_buffer_fill, 0);
    assert_eq!(enc.get_dred_duration(), 40);
}
