use lcevc_enc::config::{ColourInfo, LcevcConfig};
use lcevc_enc::mp4::{mux_mp4, split_aus, split_lcevc_nals, split_nals, strip_start_code};
use lcevc_enc::nal::{build_nal_unit, BLOCK_ENCODED_DATA};
use lcevc_enc::session::mux_streams;

fn be32(d: &[u8], at: usize) -> usize {
    ((d[at] as usize) << 24)
        | ((d[at + 1] as usize) << 16)
        | ((d[at + 2] as usize) << 8)
        | d[at + 3] as usize
}

fn find(d: &[u8], code: &[u8], nth: usize) -> usize {
    (0..d.len() - 4).filter(|&i| &d[i..i + 4] == code).nth(nth).unwrap()
}

#[test]
fn units_with_both_start_codes() {
    let data = [0u8, 0, 0, 1, 9, 9, 0, 0, 1, 7, 0, 0, 0, 1, 5];
    assert_eq!(split_nals(&data), vec![(0, 6), (6, 4), (10, 5)]);
    assert_eq!(split_nals(&[1, 2, 3]), vec![]);
    // Bytes before the first start code belong to no unit.
    assert_eq!(split_nals(&[5, 0, 0, 1, 7]), vec![(1, 4)]);
    // A VVC header of the base layer begins with a zero byte.
    assert_eq!(split_nals(&[0, 0, 1, 0, 0xA0, 0x10]), vec![(0, 6)]);
    // A start code in the last bytes ends a unit and starts none.
    assert_eq!(split_nals(&[0, 0, 1, 7, 8, 0, 0, 1]), vec![(0, 5)]);
}

#[test]
fn a_stream_of_units_splits_into_them() {
    let a = build_nal_unit(true, &[(BLOCK_ENCODED_DATA, vec![0; 40])]);
    let b = build_nal_unit(false, &[(BLOCK_ENCODED_DATA, vec![0, 0, 1, 0, 0, 3, 0])]);
    let mut stream = a.clone();
    stream.extend_from_slice(&b);
    let units = split_lcevc_nals(&stream);
    assert_eq!(units, vec![(0, a.len()), (a.len(), b.len())]);
}

#[test]
fn access_units_start_at_delimiters() {
    // Header bytes: type in the upper five bits of the second.
    let aud = [0u8, 0, 0, 1, 0, 20 << 3, 0x50];
    let slice = [0u8, 0, 1, 0, 1 << 3, 0xAA, 0xBB];
    let mut data = Vec::new();
    for _ in 0..3 {
        data.extend_from_slice(&aud);
        data.extend_from_slice(&slice);
    }
    assert_eq!(split_aus(&data), vec![(0, 14), (14, 14), (28, 14)]);
    // Without delimiters everything is one unit.
    assert_eq!(split_aus(&slice), vec![(0, 7)]);
    assert_eq!(split_aus(&[]), vec![]);
}

#[test]
fn start_codes_are_stripped() {
    assert_eq!(strip_start_code(&[0, 0, 0, 1, 5, 6]), &[5, 6]);
    assert_eq!(strip_start_code(&[0, 0, 1, 5, 6]), &[5, 6]);
    assert_eq!(strip_start_code(&[0, 1, 5, 6]), &[0, 1, 5, 6]);
}

#[test]
fn samples_are_where_the_tables_say() {
    let base = vec![vec![0u8, 0, 0, 1, 11, 12], vec![0u8, 0, 1, 13]];
    let enh = vec![vec![0u8, 0, 1, 21, 22, 23], vec![0u8, 0, 0, 1, 24]];
    let file = mux_mp4(&base, &enh, 320, 180, 25, None).unwrap();
    assert_eq!(&file[4..12], b"ftypisom");
    // ftyp has 28 bytes, free 8.
    assert_eq!(be32(&file, 0), 28);
    assert_eq!(&file[32..36], b"free");
    assert_eq!(&file[40..44], b"mdat");
    assert_eq!(be32(&file, 36), 8 + 6 + 4 + 3 + 4 + 4 + 1);
    for (track, samples) in [
        (0usize, vec![base[0].clone(), base[1].clone()]),
        (1, vec![vec![0, 0, 0, 3, 21, 22, 23], vec![0, 0, 0, 1, 24]]),
    ] {
        let stsz = find(&file, b"stsz", track);
        let stco = find(&file, b"stco", track);
        assert_eq!(be32(&file, stsz + 12), 2);
        assert_eq!(be32(&file, stco + 8), 2);
        for (i, s) in samples.iter().enumerate() {
            let size = be32(&file, stsz + 16 + 4 * i);
            let at = be32(&file, stco + 12 + 4 * i);
            assert_eq!(&file[at..at + size], &s[..]);
        }
    }
    // 512 ticks per frame at 25 frames per second.
    let stts = find(&file, b"stts", 0);
    assert_eq!(be32(&file, stts + 12), 2);
    assert_eq!(be32(&file, stts + 16), 512);
    let mvhd = find(&file, b"mvhd", 0);
    assert_eq!(be32(&file, mvhd + 20), 80);
    // The enhancement refers to the base.
    let sbas = find(&file, b"sbas", 0);
    assert_eq!(be32(&file, sbas + 4), 1);
}

#[test]
fn the_colour_is_described() {
    let colour = ColourInfo {
        primaries: 9,
        transfer: 16,
        matrix: 9,
        full_range: true,
        ..Default::default()
    };
    let units = vec![vec![0u8, 0, 1, 1]];
    let file = mux_mp4(&units, &units, 320, 180, 25, Some(&colour)).unwrap();
    let colr = find(&file, b"colr", 0);
    assert_eq!(&file[colr + 4..colr + 15], &[b'n', b'c', b'l', b'x', 0, 9, 0, 16, 0, 9, 0x80]);
    let plain = mux_mp4(&units, &units, 320, 180, 25, None).unwrap();
    assert_eq!(file.len(), plain.len() + 19);
}

#[test]
fn nothing_to_mux() {
    assert_eq!(mux_mp4(&[], &[], 1, 1, 25, None).unwrap_err(), "no frames to mux");
    assert_eq!(
        mux_streams(&[], &[], &LcevcConfig::default(), 25, None).unwrap_err(),
        "no frames to mux"
    );
}

#[test]
fn streams_are_muxed_by_their_units() {
    let base = [0u8, 0, 0, 1, 0, 20 << 3, 0x50, 0, 0, 1, 0, 8, 1];
    let enh = build_nal_unit(true, &[(BLOCK_ENCODED_DATA, vec![1, 2, 3])]);
    let cfg = LcevcConfig { width: 1280, height: 720, ..Default::default() };
    let (file, count) = mux_streams(&base, &enh, &cfg, 25, None).unwrap();
    assert_eq!(count, 1);
    let whole = mux_mp4(&[base.to_vec()], &[enh.clone()], 320, 180, 25, None).unwrap();
    assert_eq!(file, whole);
}
