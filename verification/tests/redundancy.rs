//! The bitrate of redundancy.

use opus_core::codes::{OPUS_BAD_ARG, OPUS_OK};
use opus_core::dred::{
    bits_of_chunk, compute_quantizer, estimate_dred_bitrate, ropus_test_compute_dred_bitrate,
    ropus_test_estimate_dred_bitrate,
};
use opus_core::encoder::OpusEncoder;
use opus_core::modes::{OPUS_APPLICATION_AUDIO, OPUS_APPLICATION_VOIP};
use opus_core::plan::compute_dred_bitrate;
use opus_core::rounding::Rounded;

/// An encoder of one channel with the given settings.
fn make_dred_encoder_mono_48k(bitrate_bps: i32, use_in_band_fec: i32, loss: i32, duration: i32) -> OpusEncoder {
    let mut enc = OpusEncoder::new(48000, 1, OPUS_APPLICATION_VOIP).unwrap();
    enc.silk_mode.use_in_band_fec = use_in_band_fec;
    enc.silk_mode.packet_loss_percentage = loss;
    enc.dred_duration = duration;
    enc.bitrate_bps = bitrate_bps;
    enc
}

/// A rounded number as a float.
fn as_f32(r: Rounded) -> f32 {
    r.m as f32 * 2f32.powi(r.e)
}

#[test]
fn test_set_dred_duration_rejects_stereo() {
    let mut stereo = OpusEncoder::new(48000, 2, OPUS_APPLICATION_AUDIO).unwrap();
    assert_eq!(stereo.set_dred_duration(100), OPUS_BAD_ARG);
    assert_eq!(stereo.set_dred_duration(0), OPUS_OK);

    let mut mono = OpusEncoder::new(48000, 1, OPUS_APPLICATION_AUDIO).unwrap();
    assert_eq!(mono.set_dred_duration(100), OPUS_OK);
}

#[test]
fn test_estimate_dred_bitrate_golden() {
    let cases: [(i32, i32, i32, i32, i32, i32, i32); 5] = [
        (15, 5, 15, 4, 1_000_000, 109, 2),
        (9, 3, 15, 100, 1_000_000, 393, 26),
        (4, 5, 15, 100, 10_000, 663, 26),
        (4, 3, 15, 8, 8000, 290, 3),
        (15, 5, 15, 104, 0, 263, 0),
    ];
    for (q0, d_q, qmax, duration, target_bits, exp_bits, exp_tc) in cases.iter().copied() {
        let (bits, tc) = estimate_dred_bitrate(q0, d_q, qmax, duration, target_bits);
        assert_eq!(
            (bits, tc),
            (exp_bits, exp_tc),
            "estimate_dred_bitrate(q0={}, dQ={}, qmax={}, dur={}, tgt={}) \
             returned ({}, {}), expected ({}, {})",
            q0,
            d_q,
            qmax,
            duration,
            target_bits,
            bits,
            tc,
            exp_bits,
            exp_tc,
        );
    }
}

#[test]
fn test_compute_dred_bitrate_no_dred() {
    let mut enc = make_dred_encoder_mono_48k(32000, 0, 0, 0);
    let ret = compute_dred_bitrate(&mut enc, 32000, 960);
    assert_eq!(ret, 0, "no-DRED path must return 0");
    assert_eq!(
        enc.dred_target_chunks, 0,
        "target_chunks must be 0 when dred_duration=0"
    );
}

#[test]
fn test_compute_dred_bitrate_fec_off_loss_zero() {
    let mut enc = make_dred_encoder_mono_48k(32000, 0, 0, 100);
    let ret = compute_dred_bitrate(&mut enc, 32000, 960);
    assert_eq!(ret, 0, "FEC off + loss=0 must return 0");
    assert_eq!(enc.dred_target_chunks, 0);
}

#[test]
fn test_compute_dred_bitrate_fec_off_loss_30() {
    let mut enc = make_dred_encoder_mono_48k(48000, 0, 30, 100);
    let ret = compute_dred_bitrate(&mut enc, 48000, 960);
    assert_eq!(ret, 28800, "FEC off, loss=30, 48kbps expected 28800 bps");
    assert_eq!(enc.dred_q0, 4);
    assert_eq!(enc.dred_d_q, 5);
    assert_eq!(enc.dred_qmax, 15);
    assert_eq!(enc.dred_target_chunks, 14);
}

#[test]
fn test_compute_dred_bitrate_fec_on() {
    let mut enc = make_dred_encoder_mono_48k(48000, 1, 15, 100);
    let ret = compute_dred_bitrate(&mut enc, 48000, 960);
    assert_eq!(ret, 12600, "FEC on, loss=15, 48kbps expected 12600 bps");
    assert_eq!(enc.dred_q0, 6);
    assert_eq!(enc.dred_d_q, 5);
    assert_eq!(enc.dred_qmax, 15);
    assert_eq!(enc.dred_target_chunks, 3);
}

#[test]
fn test_compute_dred_bitrate_under_2_chunks() {
    let mut enc = make_dred_encoder_mono_48k(16000, 0, 30, 100);
    let ret = compute_dred_bitrate(&mut enc, 16000, 960);
    assert_eq!(ret, 0, "target_chunks<2 must clamp to 0");
    assert_eq!(enc.dred_target_chunks, 0, "tc must be 0 here");
}

#[test]
fn test_compute_dred_bitrate_writes_q_state() {
    let mut enc = make_dred_encoder_mono_48k(48000, 0, 30, 100);
    assert_eq!(enc.dred_q0, 0);
    assert_eq!(enc.dred_d_q, 0);
    assert_eq!(enc.dred_qmax, 0);
    assert_eq!(enc.dred_target_chunks, 0);
    let _ = compute_dred_bitrate(&mut enc, 48000, 960);
    assert_eq!(enc.dred_q0, 4, "dred_q0 not written");
    assert_eq!(enc.dred_d_q, 5, "dred_d_q not written");
    assert_eq!(enc.dred_qmax, 15, "dred_qmax not written");
    assert_eq!(enc.dred_target_chunks, 14, "dred_target_chunks not written");
}

#[test]
fn test_set_dred_duration_no_longer_writes_q_state() {
    let mut enc = OpusEncoder::new(48000, 1, OPUS_APPLICATION_VOIP).unwrap();
    assert_eq!(enc.dred_q0, 0);
    assert_eq!(enc.dred_d_q, 0);
    assert_eq!(enc.dred_qmax, 0);
    assert_eq!(enc.dred_target_chunks, 0);
    let r = enc.set_dred_duration(100);
    assert_eq!(r, OPUS_OK);
    assert_eq!(
        enc.dred_q0, 0,
        "set_dred_duration must not set dred_q0"
    );
    assert_eq!(
        enc.dred_d_q, 0,
        "set_dred_duration must not set dred_d_q"
    );
    assert_eq!(
        enc.dred_qmax, 0,
        "set_dred_duration must not set dred_qmax"
    );
    assert_eq!(
        enc.dred_target_chunks, 0,
        "set_dred_duration must not set dred_target_chunks"
    );
}

#[test]
fn test_compute_dred_bitrate_q0_boundaries() {
    for (bitrate_bps, expected_q0) in &[(16095_i32, 15_i32), (16096, 12), (100_000, 4)] {
        let mut enc = make_dred_encoder_mono_48k(*bitrate_bps, 0, 30, 100);
        let _ = compute_dred_bitrate(&mut enc, *bitrate_bps, 960);
        assert_eq!(
            enc.dred_q0, *expected_q0,
            "br={} expected q0={}, got {}",
            bitrate_bps, expected_q0, enc.dred_q0
        );
    }
}

#[test]
fn test_dred_bits_table_constants() {
    let expected: [f32; 16] = [
        73.2_f32, 68.1_f32, 62.5_f32, 57.0_f32, 51.5_f32, 45.7_f32, 39.9_f32, 32.4_f32, 26.4_f32,
        20.4_f32, 16.3_f32, 13.0_f32, 9.3_f32, 8.2_f32, 7.2_f32, 6.4_f32,
    ];
    for (i, exp) in expected.iter().enumerate() {
        let bits = as_f32(bits_of_chunk(i as i32));
        assert_eq!(bits.to_bits(), exp.to_bits(), "bits of a chunk at {}: {:?} != {:?}", i, bits, exp);
    }
}

#[test]
fn redundancy_takes_little() {
    assert_eq!(estimate_dred_bitrate(0, 0, 15, 104, i32::MAX), (2066, 26));
    assert_eq!(ropus_test_estimate_dred_bitrate(15, 5, 15, 4, 1_000_000), (109, 2));
}

#[test]
fn redundancy_by_settings() {
    assert_eq!(ropus_test_compute_dred_bitrate(0, 30, 48000, 100, 48000, 960), (28800, 4, 5, 15, 14));
    assert_eq!(ropus_test_compute_dred_bitrate(1, 15, 48000, 100, 48000, 960), (12600, 6, 5, 15, 3));
    assert_eq!(ropus_test_compute_dred_bitrate(0, 30, 48000, 0, 48000, 960), (0, 4, 5, 15, 0));
    // A packet of 40 ms needs less redundancy than two of 20 ms.
    let long = ropus_test_compute_dred_bitrate(0, 30, 48000, 100, 48000, 1920);
    assert!(long.0 < 28800);
}

#[test]
fn quantizers_rise() {
    assert_eq!(compute_quantizer(4, 3, 15, 0), 4);
    assert_eq!(compute_quantizer(4, 3, 15, 2), 5);
    assert_eq!(compute_quantizer(14, 7, 15, 20), 15);
}

#[test]
fn rounded_numbers_are_floats() {
    for &(a, b) in &[(1i32, 3i32), (5, 7), (31623, 100), (16777217, 1), (2147483647, 9)] {
        let r = Rounded::from_ratio(a, b);
        if a <= 1 << 24 {
            assert_eq!(as_f32(r).to_bits(), (a as f32 / b as f32).to_bits());
        }
        let (x, y) = (Rounded::from_int(a), Rounded::from_int(b));
        assert_eq!(as_f32(x).to_bits(), (a as f32).to_bits());
        assert_eq!(as_f32(x.plus(y)).to_bits(), (a as f32 + b as f32).to_bits());
        assert_eq!(as_f32(x.times(y)).to_bits(), (a as f32 * b as f32).to_bits());
        assert_eq!(as_f32(x.over(y)).to_bits(), (a as f32 / b as f32).to_bits());
        assert_eq!(x.is_less(y), (a as f32) < (b as f32));
        assert_eq!(x.over(y).floor(), (a as f32 / b as f32) as i32);
    }
}

#[test]
fn any_loss_has_its_rate() {
    // (error correction, loss, sampling rate, duration, bitrate, samples, result)
    let cases = [
        // Losses above a hundred are worth no more than the limit on the share.
        (0, 200, 48000, 100, 64000, 960, (41600, 4, 3, 15, 18)),
        (1, 2_000_000_000, 48000, 100, 64000, 960, (30800, 4, 3, 15, 10)),
        // Below zero, share and rate must be on the same side of it.
        (0, -10, 48000, 100, 64000, 960, (0, 4, 3, 15, 0)),
        (0, -50, 16000, 80, -500_000, 320, (11550, 15, 5, 15, 21)),
        (0, -100, 48000, 100, 100, 960, (13150, 15, 5, 15, 26)),
        (1, -100, 48000, 100, 100, 480, (0, 15, 5, 15, 0)),
        (1, i32::MIN, 48000, 100, 500_000, 480, (96900, 4, 3, 15, 26)),
        // What is left makes up for just what the share lacks.
        (1, -100, 48000, 104, -2_000_000, 720, (17533, 15, 5, 15, 26)),
        (1, -100, 48000, 104, 2_000_000, 720, (0, 4, 3, 15, 0)),
    ];
    for &(fec, loss, fs, duration, bitrate, n, expected) in &cases {
        assert_eq!(ropus_test_compute_dred_bitrate(fec, loss, fs, duration, bitrate, n), expected);
    }
}

#[test]
fn quantizers_need_no_limit_where_they_stay_small() {
    assert_eq!(ropus_test_estimate_dred_bitrate(4, 3, 20, 40, 500), (619, 7));
    assert_eq!(ropus_test_estimate_dred_bitrate(4, 0, 100, 100, 700), (1481, 10));
    assert_eq!(ropus_test_estimate_dred_bitrate(0, 9, -3, -9, 100), (163, 0));
}
