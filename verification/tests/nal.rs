use lcevc_enc::decoder::parse_nal;
use lcevc_enc::nal::{
    block_header_byte, block_header_custom, build_nal_unit, BLOCK_ENCODED_DATA,
    BLOCK_GLOBAL_CONFIG, BLOCK_PICTURE_CONFIG,
};

#[test]
fn nal_unit_roundtrip_matches_decoder() {
    // Payload bytes chosen to force emulation prevention patterns.
    let payload = vec![0x00, 0x00, 0x00, 0x01, 0x02, 0x03, 0x03, 0x04, 0xAA, 0x00, 0x00, 0x05];
    let nal = build_nal_unit(false, &[(BLOCK_ENCODED_DATA, payload)]);

    // Header.
    assert_eq!(&nal[0..3], &[0x00, 0x00, 0x01]);
    assert_eq!(nal[3], 0x79);
    assert_eq!(nal[4], 0xFF);
    // Stop byte.
    assert_eq!(*nal.last().unwrap(), 0x80);

    // Skip start code + header, drop 0x03 after two 0x00, drop last byte.
    let mut rbsp = Vec::new();
    let mut i = 3usize;
    let mut zeros = 0u32;
    while i < nal.len() - 1 {
        let b = nal[i];
        i += 1;
        if zeros == 2 && b == 3 {
            zeros = 0;
            continue;
        }
        if b == 0 {
            zeros += 1;
        } else {
            zeros = 0;
        }
        rbsp.push(b);
    }
    // Expect: header + payload with the inserted 0x03 removed.
    let mut expected = vec![0x79, 0xFF];
    // Block header: size 12 -> custom, then multibyte 12, then payload.
    expected.push(0xE3); // size 7 (custom) + type 3 (encoded data)
    expected.push(0x0C); // multibyte 12
    expected.extend_from_slice(&[
        0x00, 0x00, 0x00, 0x01, 0x02, 0x03, 0x03, 0x04, 0xAA, 0x00, 0x00, 0x05,
    ]);
    assert_eq!(rbsp, expected);
}

#[test]
fn small_block_headers() {
    // 2-byte payload: size type 2, type 3 (encoded data).
    assert_eq!(block_header_byte(BLOCK_ENCODED_DATA, 2), (2 << 5) | 3);
}

#[test]
fn custom_block_header() {
    assert_eq!(block_header_custom(BLOCK_ENCODED_DATA), 0xE3);
    assert_eq!(block_header_byte(BLOCK_ENCODED_DATA, 6), 0xE3);
}

#[test]
fn parsing_gives_the_blocks_back() {
    let blocks = vec![
        (BLOCK_GLOBAL_CONFIG, vec![1, 2, 3]),
        (BLOCK_PICTURE_CONFIG, vec![0, 0, 0, 0, 0, 0, 1]),
        (BLOCK_ENCODED_DATA, vec![7; 300]),
    ];
    for idr in [true, false] {
        let nal = build_nal_unit(idr, &blocks);
        assert_eq!(nal[3], if idr { 0x7B } else { 0x79 });
        let (got_idr, got) = parse_nal(&nal).unwrap();
        assert_eq!(got_idr, idr);
        assert_eq!(got, blocks);
    }
}

#[test]
fn broken_units_are_refused() {
    assert_eq!(parse_nal(&[0, 0]).unwrap_err(), "NAL too short");
    assert_eq!(parse_nal(&[1, 0, 1, 0x79, 0xFF, 0x80]).unwrap_err(), "missing start code");
    // A block of five bytes of which only two are there.
    let cut = [0u8, 0, 1, 0x79, 0xFF, 0xA3, 1, 2, 0x80];
    assert_eq!(parse_nal(&cut).unwrap_err(), "block overruns NAL");
}
