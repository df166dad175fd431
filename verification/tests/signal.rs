//! Filters, fades, energies and widths.

use opus_core::arith::Q15ONE;
use opus_core::dsp::{
    Biquad, StereoWidthState, compute_frame_energy, compute_stereo_width, dc_reject,
    downmix_int, gain_fade, hp_cutoff_debug, int16_to_sig, is_digital_silence,
    silk_biquad_alt_stride1, silk_biquad_alt_stride2, stereo_fade,
};

/// The window of music frames.
const WINDOW: [i16; 120] = [
    2, 20, 55, 108, 178, 266, 372, 494, 635, 792, 966, 1157,
    1365, 1590, 1831, 2089, 2362, 2651, 2956, 3276, 3611, 3961, 4325, 4703,
    5094, 5499, 5916, 6346, 6788, 7241, 7705, 8179, 8663, 9156, 9657, 10167,
    10684, 11207, 11736, 12271, 12810, 13353, 13899, 14447, 14997, 15547, 16098, 16648,
    17197, 17744, 18287, 18827, 19363, 19893, 20418, 20936, 21447, 21950, 22445, 22931,
    23407, 23874, 24330, 24774, 25208, 25629, 26039, 26435, 26819, 27190, 27548, 27893,
    28224, 28541, 28845, 29135, 29411, 29674, 29924, 30160, 30384, 30594, 30792, 30977,
    31151, 31313, 31463, 31602, 31731, 31849, 31958, 32057, 32148, 32229, 32303, 32370,
    32429, 32481, 32528, 32568, 32604, 32634, 32661, 32683, 32701, 32717, 32729, 32740,
    32748, 32754, 32758, 32762, 32764, 32766, 32767, 32767, 32767, 32767, 32767, 32767,
];

#[test]
fn test_is_digital_silence() {
    let silence = [0i16; 960];
    assert!(is_digital_silence(&silence, 480, 1, 16));

    let mut noisy = [0i16; 960];
    noisy[100] = 1;
    assert!(!is_digital_silence(&noisy, 480, 1, 16));
}

#[test]
fn test_frame_energy_and_stereo_width_branches() {
    let mono = vec![2i16; 480];
    assert_eq!(compute_frame_energy(&mono, 480, 1), 4);

    let stereo = vec![2i16; 960];
    assert_eq!(compute_frame_energy(&stereo, 480, 2), 4);

    let silence = vec![0i16; 960];
    assert_eq!(compute_frame_energy(&silence, 480, 2), 0);

    let mut mem = StereoWidthState::default();
    assert_eq!(compute_stereo_width(&silence, 480, 48000, &mut mem), 0);
    assert_eq!(mem.smoothed_width, 0);

    let stereo_identical = vec![100i16; 960];
    let mut mem = StereoWidthState::default();
    let width = compute_stereo_width(&stereo_identical, 480, 48000, &mut mem);
    assert_eq!(width, 0);
    assert!(mem.xx > 0 && mem.yy > 0);
}

#[test]
fn test_hp_cutoff_mono_and_stereo() {
    let input_mono = vec![1000i16; 480];
    let mut output_mono = vec![0i16; 480];
    let mut hp_mem_mono = [0i32; 4];
    hp_cutoff_debug(
        &input_mono,
        100,
        &mut output_mono,
        &mut hp_mem_mono,
        480,
        1,
        48000,
    );
    assert!(output_mono.iter().any(|&s| s != 0));
    assert!(hp_mem_mono.iter().any(|&m| m != 0));

    let input_stereo = vec![500i16; 960];
    let mut output_stereo = vec![0i16; 960];
    let mut hp_mem_stereo = [0i32; 4];
    hp_cutoff_debug(
        &input_stereo,
        80,
        &mut output_stereo,
        &mut hp_mem_stereo,
        480,
        2,
        48000,
    );
    assert!(output_stereo.iter().any(|&s| s != 0));
    assert!(hp_mem_stereo.iter().any(|&m| m != 0));
}

#[test]
fn test_pin_stereo_fade_exact() {
    let window = &WINDOW;

    let frame_size = 150;
    let mut pcm = vec![0i16; frame_size * 2];
    for i in 0..frame_size {
        pcm[i * 2] = 1000;
        pcm[i * 2 + 1] = -1000;
    }
    stereo_fade(
        &mut pcm,
        Q15ONE,
        Q15ONE / 2,
        120,
        frame_size as i32,
        2,
        window,
        48000,
    );
    assert_eq!((pcm[0], pcm[1]), (1000, -1000));
    assert_eq!((pcm[2], pcm[3]), (1000, -1000));
    assert_eq!((pcm[20], pcm[21]), (1000, -1000));
    assert_eq!((pcm[120], pcm[121]), (745, -745));
    assert_eq!((pcm[238], pcm[239]), (501, -501));
    assert_eq!((pcm[240], pcm[241]), (500, -500));
    assert_eq!((pcm[298], pcm[299]), (500, -500));

    let frame_size2 = 30;
    let mut pcm2 = vec![0i16; frame_size2 * 2];
    for i in 0..frame_size2 {
        pcm2[i * 2] = 5000;
        pcm2[i * 2 + 1] = -3000;
    }
    stereo_fade(
        &mut pcm2,
        0,
        Q15ONE,
        120,
        frame_size2 as i32,
        2,
        window,
        8000,
    );
    assert_eq!((pcm2[0], pcm2[1]), (1001, 999));
    assert_eq!((pcm2[10], pcm2[11]), (1222, 778));
    assert_eq!((pcm2[20], pcm2[21]), (3042, -1042));
    assert_eq!((pcm2[30], pcm2[31]), (4805, -2805));
    assert_eq!((pcm2[38], pcm2[39]), (5000, -3000));
    assert_eq!((pcm2[40], pcm2[41]), (5000, -3000));
    assert_eq!((pcm2[58], pcm2[59]), (5000, -3000));
}

#[test]
fn test_pin_gain_fade_exact() {
    let window = &WINDOW;

    let frame_size = 150;
    let mut pcm = vec![10000i16; frame_size];
    gain_fade(
        &mut pcm,
        0,
        Q15ONE,
        120,
        frame_size as i32,
        1,
        window,
        48000,
    );
    assert_eq!(pcm[0], 0);
    assert_eq!(pcm[1], 0);
    assert_eq!(pcm[10], 8);
    assert_eq!(pcm[60], 5102);
    assert_eq!(pcm[119], 9999);
    assert_eq!(pcm[120], 9999);
    assert_eq!(pcm[149], 9999);

    let frame_size2 = 30;
    let mut pcm2 = vec![0i16; frame_size2 * 2];
    for i in 0..frame_size2 {
        pcm2[i * 2] = 8000;
        pcm2[i * 2 + 1] = -4000;
    }
    gain_fade(
        &mut pcm2,
        Q15ONE,
        Q15ONE / 2,
        120,
        frame_size2 as i32,
        2,
        window,
        8000,
    );
    assert_eq!((pcm2[0], pcm2[1]), (7999, -4000));
    assert_eq!((pcm2[10], pcm2[11]), (7778, -3890));
    assert_eq!((pcm2[20], pcm2[21]), (5958, -2980));
    assert_eq!((pcm2[38], pcm2[39]), (3999, -2000));
    assert_eq!((pcm2[40], pcm2[41]), (3999, -2000));
    assert_eq!((pcm2[58], pcm2[59]), (3999, -2000));
}

#[test]
fn test_pin_dc_reject_exact() {
    let input = vec![5000i16; 16];
    let mut output = vec![0i16; 16];
    let mut hp_mem = [0i32; 4];
    dc_reject(&input, 3, &mut output, &mut hp_mem, 16, 1, 48000);
    let expected_mono: [i16; 16] = [
        5000, 4998, 4995, 4993, 4990, 4988, 4985, 4983,
        4981, 4978, 4976, 4973, 4971, 4968, 4966, 4964,
    ];
    assert_eq!(output, expected_mono);
    assert_eq!(hp_mem, [637660, 0, 0, 0]);

    let mut input_s = vec![0i16; 16];
    for i in 0..8 {
        input_s[i * 2] = 3000;
        input_s[i * 2 + 1] = -2000;
    }
    let mut output_s = vec![0i16; 16];
    let mut hp_mem_s = [0i32; 4];
    dc_reject(&input_s, 3, &mut output_s, &mut hp_mem_s, 8, 2, 48000);
    let expected_stereo: [i16; 16] = [
        3000, -2000, 2999, -1999, 2997, -1998, 2996, -1997,
        2994, -1996, 2993, -1995, 2991, -1994, 2990, -1993,
    ];
    assert_eq!(output_s, expected_stereo);
    assert_eq!(hp_mem_s, [191672, 0, -127781, 0]);
}

#[test]
fn test_pin_compute_stereo_width_exact() {
    let corr: Vec<i16> = (0..480)
        .flat_map(|i| {
            let v = ((i as f64 * 0.1).sin() * 10000.0) as i16;
            vec![v, v]
        })
        .collect();
    let mut mem = StereoWidthState::default();
    assert_eq!(compute_stereo_width(&corr, 480, 48000, &mut mem), 0);
    assert_eq!(mem.xx, 23163419);
    assert_eq!(mem.xy, 23155344);
    assert_eq!(mem.yy, 23163419);
    assert_eq!(mem.smoothed_width, 0);
    assert_eq!(mem.max_follower, 0);

    let anti: Vec<i16> = (0..480)
        .flat_map(|i| {
            let v = ((i as f64 * 0.1).sin() * 10000.0) as i16;
            vec![v, -v]
        })
        .collect();
    let mut mem2 = StereoWidthState::default();
    assert_eq!(compute_stereo_width(&anti, 480, 48000, &mut mem2), 0);
    assert_eq!(mem2.xx, 23163419);
    assert_eq!(mem2.xy, 0);
    assert_eq!(mem2.yy, 23163419);
    assert_eq!(mem2.smoothed_width, 0);
    assert_eq!(mem2.max_follower, 0);

    let uncorr: Vec<i16> = (0..480)
        .flat_map(|i| {
            let l = ((i as f64 * 0.1).sin() * 10000.0) as i16;
            let r = ((i as f64 * 0.17 + 1.0).sin() * 8000.0) as i16;
            vec![l, r]
        })
        .collect();
    let mut mem3 = StereoWidthState::default();
    assert_eq!(compute_stereo_width(&uncorr, 480, 48000, &mut mem3), 340);
    assert_eq!(mem3.xx, 23163419);
    assert_eq!(mem3.xy, 0);
    assert_eq!(mem3.yy, 14993283);
    assert_eq!(mem3.smoothed_width, 17);
    assert_eq!(mem3.max_follower, 17);
}

#[test]
fn downmix_adds_channels() {
    let pcm = [100i16, 300, -200, 50, 7, -8];
    let mut out = [0i32; 3];
    downmix_int(&pcm, &mut out, 3, 0, 0, 1, 2);
    assert_eq!(out, [400 * 4096, -150 * 4096, -4096]);
    downmix_int(&pcm, &mut out, 2, 1, 1, -1, 2);
    assert_eq!(out, [50 * 4096, -8 * 4096, -4096]);
    downmix_int(&pcm, &mut out, 2, 0, 0, -2, 3);
    assert_eq!(out[0], 200 * 4096);
    assert_eq!(out[1], 49 * 4096);
    assert_eq!(int16_to_sig(-3), -12288);
}

#[test]
fn one_filter_for_one_channel_and_for_two() {
    let filter = Biquad { b: [1 << 28, 0, 0], a: [0, 0] };
    let input = [1000i16, -2000, 30000, -32768];
    let mut state = [0i32; 2];
    let mut output = [0i16; 4];
    silk_biquad_alt_stride1(&input, &filter, &mut state, &mut output, 4);
    assert_eq!(output, input);
    let mut state = [0i32; 4];
    let mut output = [0i16; 4];
    silk_biquad_alt_stride2(&input, &filter, &mut state, &mut output, 2);
    assert_eq!(output, input);
}

#[test]
fn energy_of_loud_and_odd_frames() {
    assert_eq!(compute_frame_energy(&[3, 3, 3], 3, 1), 9);
    assert_eq!(compute_frame_energy(&[0, 4], 1, 2), 8);
    assert_eq!(compute_frame_energy(&[-32768; 480], 480, 1), 1 << 20);
}

#[test]
fn wide_cutoffs_are_filtered() {
    let input = [1000i16, -500, 250, 0];
    let mut output = [0i16; 4];
    let mut mem = [0i32; 4];
    hp_cutoff_debug(&input, 4000, &mut output, &mut mem, 4, 1, 8000);
    assert_eq!(output, [-1167, 2745, -624, -2669]);
    assert_eq!((mem[2], mem[3]), (0, 0));
}

#[test]
fn channels_are_filtered_alone() {
    let left: Vec<i16> = (0..60).map(|i| (i * 331 % 4001 - 2000) as i16).collect();
    let right: Vec<i16> = (0..60).map(|i| (i * 577 % 3001 - 1500) as i16).collect();
    let both: Vec<i16> = (0..120).map(|i| if i % 2 == 0 { left[i / 2] } else { right[i / 2] }).collect();
    let mut out = vec![0i16; 120];
    let mut mem = [5, -6, 7, -8];
    hp_cutoff_debug(&both, 90, &mut out, &mut mem, 60, 2, 16000);
    let mut out_left = vec![0i16; 60];
    let mut mem_left = [5, -6, 1, 2];
    hp_cutoff_debug(&left, 90, &mut out_left, &mut mem_left, 60, 1, 16000);
    let mut out_right = vec![0i16; 60];
    let mut mem_right = [7, -8, 3, 4];
    hp_cutoff_debug(&right, 90, &mut out_right, &mut mem_right, 60, 1, 16000);
    for k in 0..60 {
        assert_eq!((out[2 * k], out[2 * k + 1]), (out_left[k], out_right[k]));
    }
    assert_eq!(mem, [mem_left[0], mem_left[1], mem_right[0], mem_right[1]]);
    assert_eq!((mem_left[2], mem_left[3]), (1, 2));
}

#[test]
fn width_is_the_same_from_either_side() {
    let pcm: Vec<i16> = (0..960).map(|i| ((i as i32 * 7919 % 20011 - 10000) / (1 + i as i32 % 2)) as i16).collect();
    let other: Vec<i16> = (0..960).map(|i| pcm[i ^ 1]).collect();
    let mut mem = StereoWidthState::default();
    let mut mirror = StereoWidthState::default();
    for _ in 0..3 {
        let width = compute_stereo_width(&pcm, 480, 48000, &mut mem);
        assert!(width > 0);
        assert_eq!(compute_stereo_width(&other, 480, 48000, &mut mirror), width);
        assert_eq!((mem.xx, mem.xy, mem.yy), (mirror.yy, mirror.xy, mirror.xx));
    }
}

#[test]
fn loud_frames_are_shifted_back_once() {
    assert_eq!(compute_frame_energy(&[-32768i16; 480], 480, 1), 1 << 20);
}
