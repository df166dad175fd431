//! Reading lists of extensions.

use opus_core::codes::{OPUS_BAD_ARG, OPUS_BUFFER_TOO_SMALL, OPUS_INVALID_PACKET};
use opus_core::extension_gen::opus_packet_extensions_generate;
use opus_core::extension_iter::{OpusExtensionData, OpusExtensionIterator};
use opus_core::extensions::{
    opus_packet_extensions_count, opus_packet_extensions_count_ext,
    opus_packet_extensions_parse_ext,
};

#[test]
fn parse_ext_rejects_negative_frame_count() {
    let data = [0x0Bu8, 0x42];
    let mut parsed = [OpusExtensionData {
        id: 0,
        frame: 0,
        data: &[],
        len: 0,
    }];
    let mut nb_extensions = 1;

    assert_eq!(
        opus_packet_extensions_parse_ext(
            &data,
            data.len() as i32,
            &mut parsed,
            &mut nb_extensions,
            &[-1],
            1,
        ),
        OPUS_BAD_ARG
    );
}

#[test]
fn parse_ext_rejects_short_output_slice() {
    let data = [0x0Bu8, 0x42];
    let mut parsed = [];
    let mut nb_extensions = 1;

    assert_eq!(
        opus_packet_extensions_parse_ext(
            &data,
            data.len() as i32,
            &mut parsed,
            &mut nb_extensions,
            &[1],
            1,
        ),
        OPUS_BAD_ARG
    );
}

#[test]
fn parse_ext_rejects_length_beyond_input_slice() {
    let data = [0x0Bu8, 0x42];
    let mut parsed = [OpusExtensionData {
        id: 0,
        frame: 0,
        data: &[],
        len: 0,
    }];
    let mut nb_extensions = 1;

    assert_eq!(
        opus_packet_extensions_parse_ext(&data, 3, &mut parsed, &mut nb_extensions, &[1], 1,),
        OPUS_BAD_ARG
    );
}

#[test]
fn parse_ext_reports_declared_output_capacity_shortage() {
    let data = [0x0Bu8, 0x42];
    let mut parsed = [OpusExtensionData {
        id: 0,
        frame: 0,
        data: &[],
        len: 0,
    }];
    let mut nb_extensions = 0;

    assert_eq!(
        opus_packet_extensions_parse_ext(
            &data,
            data.len() as i32,
            &mut parsed,
            &mut nb_extensions,
            &[1],
            1,
        ),
        OPUS_BUFFER_TOO_SMALL
    );
}

fn extension(id: i32, frame: i32, data: &[u8]) -> OpusExtensionData<'_> {
    OpusExtensionData { id, frame, data, len: data.len() as i32 }
}

/// What an iterator with a limit finds, and how it ends.
fn found(bytes: &[u8], nb_frames: i32, limit: i32) -> (Vec<(i32, i32, Vec<u8>)>, i32) {
    let mut it = OpusExtensionIterator::new(bytes, bytes.len() as i32, nb_frames);
    it.set_frame_max(limit);
    let mut list = Vec::new();
    loop {
        let (r, e) = it.next_ext();
        if r <= 0 {
            // An end and an error are final.
            assert_eq!(it.next_ext().0, r);
            return (list, r);
        }
        list.push((e.id, e.frame, e.data.to_vec()));
    }
}

#[test]
fn a_limit_leaves_out_later_frames() {
    let bytes = [0x0Bu8, 0x11, 0x04, 0x22, 0x0D, 0x33];
    let all = vec![(5, 0, vec![0x11]), (5, 1, vec![0x22]), (6, 1, vec![0x33])];
    assert_eq!(found(&bytes, 2, 2), (all.clone(), 0));
    assert_eq!(found(&bytes, 2, 1), (all[..1].to_vec(), 0));
    assert_eq!(found(&bytes, 2, 0), (vec![], 0));
}

#[test]
fn errors_are_final() {
    // A long extension whose length is past the end.
    assert_eq!(found(&[0x0Bu8, 0x11, 0x41, 0x09], 1, 1), (vec![(5, 0, vec![0x11])], OPUS_INVALID_PACKET));
}

#[test]
fn counts_of_frames_add_up() {
    let bytes = [0x0Bu8, 0x11, 0x04, 0x22, 0x0D, 0x33];
    let mut counts = [9i32; 2];
    assert_eq!(opus_packet_extensions_count_ext(&bytes, 6, &mut counts, 2), 3);
    assert_eq!(counts, [1, 2]);
    assert_eq!(opus_packet_extensions_count(&bytes, 6, 2), 3);
}

#[test]
fn what_is_written_is_read_frame_by_frame() {
    let long: Vec<u8> = (0..300).map(|i| (i % 256) as u8).collect();
    let exts = [
        extension(40, 2, &long),
        extension(5, 0, &[1]),
        extension(33, 1, &[]),
        extension(5, 2, &[2]),
        extension(7, 0, &[]),
        extension(40, 1, &[3, 4, 5]),
    ];
    let mut buf = [0u8; 400];
    let len = opus_packet_extensions_generate(Some(&mut buf), 400, &exts, 3, true);
    assert_eq!(len, 400);
    let mut counts = [0i32; 3];
    assert_eq!(opus_packet_extensions_count_ext(&buf, len, &mut counts, 3), 6);
    assert_eq!(counts, [2, 2, 2]);
    let mut out = [
        extension(0, 0, &[]),
        extension(0, 0, &[]),
        extension(0, 0, &[]),
        extension(0, 0, &[]),
        extension(0, 0, &[]),
        extension(0, 0, &[]),
    ];
    let mut nb = 6;
    assert_eq!(opus_packet_extensions_parse_ext(&buf, len, &mut out, &mut nb, &counts, 3), 0);
    assert_eq!(nb, 6);
    for (k, &i) in [1usize, 4, 2, 5, 0, 3].iter().enumerate() {
        assert_eq!((out[k].id, out[k].frame, out[k].len), (exts[i].id, exts[i].frame, exts[i].len));
        assert_eq!(out[k].data, exts[i].data);
    }
}

#[test]
fn bad_arguments_are_refused_whatever_the_payloads() {
    let short: [u8; 1] = [1];
    let missing = |id: i32, frame: i32| OpusExtensionData { id, frame, data: &short[..], len: 9 };
    let mut buf = [7u8; 20];
    for exts in [[missing(2, 0)], [missing(128, 0)], [missing(40, 1)], [missing(40, -1)]] {
        assert_eq!(opus_packet_extensions_generate(Some(&mut buf), 20, &exts, 1, false), OPUS_BAD_ARG);
    }
    assert_eq!(opus_packet_extensions_generate(Some(&mut buf), 20, &[missing(40, 0)], 49, false), OPUS_BAD_ARG);
    assert_eq!(buf, [7u8; 20]);
}

#[test]
fn payloads_of_wrong_length_are_refused() {
    let bytes = [1u8, 2, 3];
    let two = OpusExtensionData { id: 5, frame: 0, data: &bytes[..], len: 2 };
    let negative = OpusExtensionData { id: 40, frame: 0, data: &bytes[..], len: -1 };
    let fine = OpusExtensionData { id: 40, frame: 0, data: &bytes[..], len: 3 };
    assert_eq!(opus_packet_extensions_generate(None, 20, &[two], 1, false), OPUS_BAD_ARG);
    assert_eq!(opus_packet_extensions_generate(None, 20, &[negative], 1, false), OPUS_BAD_ARG);
    assert_eq!(opus_packet_extensions_generate(None, 20, &[fine], 1, false), 4);
    assert_eq!(opus_packet_extensions_generate(None, 3, &[fine], 1, false), OPUS_BUFFER_TOO_SMALL);
}

#[test]
fn dry_runs_and_runs_agree() {
    let exts = [extension(5, 0, &[1]), extension(40, 1, &[2, 3])];
    let s = opus_packet_extensions_generate(None, 1000, &exts, 2, false);
    assert!(s > 0);
    for len in 0..20 {
        let mut buf = [0xAAu8; 20];
        let r = opus_packet_extensions_generate(Some(&mut buf), len, &exts, 2, false);
        assert_eq!(r, opus_packet_extensions_generate(None, len, &exts, 2, false));
        assert_eq!(r, if len < s { OPUS_BUFFER_TOO_SMALL } else { s });
        if len >= s {
            assert_eq!(buf[s as usize..], [0xAAu8; 20][s as usize..]);
            let mut padded = [0u8; 20];
            assert_eq!(opus_packet_extensions_generate(Some(&mut padded), len, &exts, 2, true), len);
            assert!(padded[..(len - s) as usize].iter().all(|&b| b == 1));
            assert_eq!(padded[(len - s) as usize..len as usize], buf[..s as usize]);
        }
    }
}
