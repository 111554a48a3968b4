use lcevc_enc::base::vvc::{
    check_even, decode_args, decoded_picture, encoder_params, frame_encode_args, gop_encode_args,
    gop_input, gop_pictures, gop_size, next_params, vvc_options,
};
use lcevc_enc::base::vvenc_lib::{
    flush_step, frame_payload, hdr_mode, header_payload, vvenc_params, DecodedQueue, Popped,
};
use lcevc_enc::base::{
    encode_decode_base, encode_decode_base_gop, set_base_codec, write_yuv420, BaseCodec, BaseMode,
    BaseStep,
};
use lcevc_enc::config::{ChromaFormat, ColourInfo, LcevcConfig};
use lcevc_enc::frame::Picture;
use lcevc_enc::y4m::{frame_marker, header_end, starts_with_magic};
use lcevc_enc::yuv::{
    frame_bytes, read_yuv420_frame, read_yuv420_frame_file, size_countable, Y4mReader,
};

fn numbered(width: usize, height: usize, step: u16) -> Picture {
    let mut pic = Picture::new(width, height, ChromaFormat::C420);
    let mut v = 0;
    for plane in pic.planes.iter_mut() {
        for s in plane.data.iter_mut() {
            *s = v;
            v += step;
        }
    }
    pic
}

fn same(a: &Picture, b: &Picture) -> bool {
    a.planes.len() == b.planes.len()
        && a.planes.iter().zip(b.planes.iter()).all(|(x, y)| x.data == y.data)
}

#[test]
fn written_frames_are_read_back() {
    for (depth, step) in [(8u8, 5u16), (10, 40)] {
        let pic = numbered(6, 4, step);
        let mut bytes = Vec::new();
        write_yuv420(&pic, depth, &mut bytes).unwrap();
        assert_eq!(frame_bytes(6, 4, depth), Some(bytes.len()));
        let got = read_yuv420_frame(&bytes, 6, 4, depth).unwrap();
        assert!(same(&pic, &got));
    }
    let mut none = Vec::new();
    assert_eq!(
        write_yuv420(&numbered(2, 2, 1), 12, &mut none).unwrap_err(),
        "unsupported depth"
    );
}

#[test]
fn ten_bit_samples_are_little_endian() {
    let bytes = [0x34u8, 0x02, 1, 0, 2, 0, 3, 0, 4, 0, 5, 0];
    let pic = read_yuv420_frame(&bytes, 2, 2, 10).unwrap();
    assert_eq!(pic.planes[0].data, vec![0x234, 1, 2, 3]);
    assert_eq!(pic.planes[1].data, vec![4]);
}

#[test]
fn short_frames_are_refused() {
    let err = read_yuv420_frame(&[0; 3], 2, 2, 8).err().unwrap();
    assert_eq!(err, "input too short: need 4 bytes, have 3");
    let err = read_yuv420_frame(&[0; 5], 2, 2, 8).err().unwrap();
    assert_eq!(err, "input too short: need 6 bytes, have 5");
    let err = read_yuv420_frame(&[0; 6], 2, 2, 12).err().unwrap();
    assert_eq!(err, "unsupported bit depth 12");
    assert!(read_yuv420_frame_file(&[], 2, 2, 8).unwrap().is_none());
    let err = read_yuv420_frame_file(&[1], 2, 2, 8).err().unwrap();
    assert_eq!(err, "truncated frame: got 1 bytes, need 6");
    // With odd dimensions a frame of a stream has no room for its chroma.
    let err = read_yuv420_frame_file(&[0; 11], 3, 3, 8).err().unwrap();
    assert_eq!(err, "input too short: need 13 bytes, have 11");
    assert!(size_countable(1920, 1080));
    assert!(!size_countable(usize::MAX, 2));
    assert_eq!(frame_bytes(usize::MAX, 2, 8), None);
    // Sizes whose bytes are more than can be counted are short of data like others.
    let half = usize::MAX / 2;
    let err = read_yuv420_frame(&[0; 3], half, 2, 8).err().unwrap();
    assert_eq!(err, format!("input too short: need {} bytes, have 3", 2 * half));
    let err = read_yuv420_frame(&[0; 3], half, 2, 10).err().unwrap();
    assert_eq!(err, format!("input too short: need {} bytes, have 3", 4 * half as u128));
    let err = read_yuv420_frame_file(&[0; 3], half, 2, 8).err().unwrap();
    let need = 2 * half as u128 + 2 * (half as u128 / 2);
    assert_eq!(err, format!("truncated frame: got 3 bytes, need {need}"));
}

#[test]
fn y4m_headers() {
    let r = Y4mReader::new("YUV4MPEG2 W1280 H720 F30000:1001 Ip A1:1 C420jpeg", 8).unwrap();
    assert_eq!((r.width, r.height), (1280, 720));
    assert_eq!((r.fps_num, r.fps_den), (30000, 1001));
    assert_eq!(r.input_depth, 8);
    let r = Y4mReader::new("YUV4MPEG2 W16 H16 F25:0 C420p10", 8).unwrap();
    assert_eq!((r.fps_den, r.input_depth), (1, 10));
    for (line, message) in [
        ("YUV4MPEG2 W16x H16 F25:1", "y4m: bad W 16x"),
        ("YUV4MPEG2 W16 H F25:1", "y4m: bad H "),
        ("YUV4MPEG2 W16 H16 F25", "y4m: bad F"),
        ("YUV4MPEG2 W16 H16 Fa:1", "y4m: bad F a:1"),
        ("YUV4MPEG2 W16 H16 F25:1 C444", "y4m: unsupported colorspace 444"),
        ("YUV4MPEG2 W16 F25:1", "y4m: incomplete header: YUV4MPEG2 W16 F25:1"),
    ] {
        assert_eq!(Y4mReader::new(line, 8).err().unwrap(), message);
    }
    assert_eq!(
        Y4mReader::new("YUV4MPEG2 W16 H16 F25:1", 12).err().unwrap(),
        "unsupported encode depth 12"
    );
}

#[test]
fn y4m_frames() {
    let mut r = Y4mReader::new("YUV4MPEG2 W2 H2 F25:1 C420p10", 8).unwrap();
    let bytes = [0xFFu8, 0x03, 8, 0, 12, 0, 16, 0, 20, 0, 24, 0];
    let pic = r.next_frame(&bytes).unwrap().unwrap();
    // 10 bits are shifted to 8.
    assert_eq!(pic.planes[0].data, vec![255, 2, 3, 4]);
    assert_eq!(pic.planes[2].data, vec![6]);
    assert_eq!(
        r.next_frame(&bytes[..4]).err().unwrap(),
        "truncated frame: got 4 bytes, need 12"
    );
    assert!(r.next_frame(&[]).unwrap().is_none());
    assert!(r.next_frame(&bytes).unwrap().is_none());
}

#[test]
fn y4m_framing() {
    assert!(frame_marker(b"FRAME\n"));
    assert!(!frame_marker(b"FRAMEX"));
    assert!(!frame_marker(b"FRAM"));
    assert!(starts_with_magic(b"YUV4MPEG2 W"));
    assert!(!starts_with_magic(b"YUV4MPEG"));
    assert_eq!(header_end(b"YUV4", false).unwrap(), None);
    assert_eq!(header_end(b"YUV4\nx", false).unwrap(), Some(4));
    assert_eq!(header_end(b"", true).unwrap_err(), "y4m: unexpected EOF in header");
    assert_eq!(header_end(&[0; 65537], false).unwrap_err(), "y4m: header too long");
}

#[test]
fn vvc_options_from_text() {
    let o = vvc_options("preset=fast,qp=27");
    assert_eq!((o.preset.as_str(), o.qp.as_str()), ("fast", "27"));
    let o = vvc_options("");
    assert_eq!((o.preset.as_str(), o.qp.as_str()), ("faster", "30"));
    let o = vvc_options("qp=20,other,qp=22");
    assert_eq!((o.preset.as_str(), o.qp.as_str()), ("faster", "22"));
    assert_eq!(
        encoder_params(8, true),
        "internalbitdepth=10:inputbitdepth=10:threads=8:mtprofile=3"
    );
    assert_eq!(encoder_params(8, false), "internalbitdepth=10:inputbitdepth=10:threads=8");
}

#[test]
fn base_groups() {
    assert!(check_even(16, 8).is_ok());
    assert_eq!(
        check_even(15, 8).unwrap_err(),
        "VVC base requires even dimensions, got 15x8"
    );
    assert!(gop_size(&[]).unwrap().is_none());
    let frames = vec![numbered(4, 2, 3), numbered(4, 2, 7)];
    assert_eq!(gop_size(&frames).unwrap(), Some((4, 2)));
    let bytes = gop_input(&frames);
    let back = gop_pictures(&bytes, 2, 4, 2, ChromaFormat::C420);
    assert!(same(&frames[0], &back[0]) && same(&frames[1], &back[1]));
    let mixed = vec![numbered(4, 2, 3), numbered(2, 2, 7)];
    assert_eq!(
        gop_size(&mixed).unwrap_err(),
        "base GOP frames have inconsistent dimensions"
    );
    let input = encode_decode_base_gop(&frames).unwrap().unwrap();
    assert_eq!((input.width, input.height, input.bytes), (4, 2, bytes));
    assert!(encode_decode_base_gop(&[]).unwrap().is_none());
}

#[test]
fn decoded_bases() {
    let pic = numbered(4, 2, 3);
    let mut bytes = Vec::new();
    write_yuv420(&pic, 8, &mut bytes).unwrap();
    assert!(same(&pic, &decoded_picture(&bytes, 4, 2, ChromaFormat::C420, 8).unwrap()));
    assert_eq!(
        decoded_picture(&bytes[..5], 4, 2, ChromaFormat::C420, 8).err().unwrap(),
        "decoded base too small: 5 < 12"
    );
    assert_eq!(
        decoded_picture(&bytes, 4, 2, ChromaFormat::C420, 9).err().unwrap(),
        "unsupported depth 9"
    );
}

#[test]
fn base_codec_selection() {
    let cfg = LcevcConfig::default();
    let planes = numbered(4, 2, 3).planes;
    let mut codec = BaseCodec::default();
    assert!(matches!(encode_decode_base(&codec, &cfg, &planes), BaseStep::Decoded(_)));
    set_base_codec(&mut codec, BaseMode::Vvc, "qp=20", "base.266");
    assert_eq!((codec.extra.as_str(), codec.base_out.as_str()), ("qp=20", "base.266"));
    match encode_decode_base(&codec, &cfg, &planes) {
        BaseStep::Encode(p) => assert!(same(&p, &numbered(4, 2, 3))),
        BaseStep::Decoded(_) => panic!("the base goes to the encoder"),
    }
}

#[test]
fn encoder_parameters() {
    let p = vvenc_params(-1, 0, None, true);
    let get = |p: &Vec<(String, String)>, name: &str| {
        p.iter().find(|e| e.0 == name).map(|e| e.1.clone())
    };
    assert_eq!(p.len(), 9);
    assert_eq!(get(&p, "threads").unwrap(), "-1");
    assert_eq!(get(&p, "refreshsec").unwrap(), "1");
    assert_eq!(get(&p, "mtprofile").unwrap(), "3");
    assert_eq!(get(&p, "hdr"), None);
    let colour = |t: &str, m: &str| ColourInfo {
        transfer_name: t.to_string(),
        matrix_name: m.to_string(),
        ..Default::default()
    };
    assert_eq!(hdr_mode(&colour("smpte2084", "bt2020nc")), "pq_2020");
    assert_eq!(hdr_mode(&colour("smpte2084", "bt709")), "pq");
    assert_eq!(hdr_mode(&colour("arib-std-b67", "bt2020nc")), "hlg_2020");
    assert_eq!(hdr_mode(&colour("arib-std-b67", "bt709")), "hlg");
    assert_eq!(hdr_mode(&colour("bt709", "bt709")), "");
    let p = vvenc_params(4, 10, Some(&colour("smpte2084", "bt2020nc")), false);
    assert_eq!(get(&p, "hdr").unwrap(), "pq_2020");
    assert_eq!(get(&p, "mtprofile").unwrap(), "0");
}

#[test]
fn payloads_of_the_encoder() {
    let buffer = [1u8, 2, 3, 4];
    assert_eq!(header_payload(0, 2, &buffer).unwrap(), vec![1, 2]);
    assert_eq!(header_payload(-3, 2, &buffer).unwrap_err(), "vvenc_get_headers failed: -3");
    assert_eq!(header_payload(0, 5, &buffer).unwrap_err(), "vvenc header payload overflow");
    let au = frame_payload(0, 3, &buffer, 7, true).unwrap().unwrap();
    assert_eq!((au.data, au.poc, au.rap), (vec![1, 2, 3], 7, true));
    assert!(frame_payload(0, 0, &buffer, 7, true).unwrap().is_none());
    assert_eq!(frame_payload(1, 0, &buffer, 7, true).err().unwrap(), "vvenc_encode failed: 1");
    assert_eq!(
        frame_payload(0, 9, &buffer, 7, true).err().unwrap(),
        "vvenc AU payload overflow"
    );
    let mut out = Vec::new();
    assert_eq!(
        flush_step(&mut out, 2, 0, false, &buffer, 0, false).unwrap_err(),
        "vvenc flush failed: 2"
    );
    assert!(!flush_step(&mut out, 0, 2, false, &buffer, 1, false).unwrap());
    assert!(flush_step(&mut out, 0, 0, true, &buffer, 2, false).unwrap());
    assert!(flush_step(&mut out, 2, 0, false, &buffer, 2, false).unwrap());
    assert_eq!(out.len(), 1);
}

#[test]
fn the_queue_is_first_in_first_out() {
    let mut q = DecodedQueue::new();
    assert!(matches!(q.pop(), Popped::Wait));
    q.push(numbered(2, 2, 1));
    q.push(numbered(4, 2, 1));
    match q.pop() {
        Popped::Frame(f) => assert_eq!(f.width, 2),
        _ => panic!("a frame is there"),
    }
    q.end();
    assert!(matches!(q.pop(), Popped::Frame(_)));
    assert!(matches!(q.pop(), Popped::Ended));
}

#[test]
fn arguments_of_the_codec() {
    let o = vvc_options("preset=slow,qp=22");
    let args = gop_encode_args(320, 180, &o, "threads=4");
    assert_eq!(
        args.join(" "),
        "-hide_banner -loglevel error -y -f rawvideo -pix_fmt yuv420p10le -s 320x180 -r 25 -i - \
         -c:v libvvenc -preset slow -qp 22 -vvenc-params threads=4 -f vvc pipe:1"
    );
    let colour = ColourInfo {
        primaries_name: "bt2020".to_string(),
        transfer_name: "smpte2084".to_string(),
        matrix_name: "bt2020nc".to_string(),
        ..Default::default()
    };
    let args = frame_encode_args(320, 180, &o, "threads=4", "in.yuv", "out.266", Some(&colour));
    assert_eq!(
        args.join(" "),
        "-hide_banner -loglevel error -y -f rawvideo -pix_fmt yuv420p10le -s 320x180 -i in.yuv \
         -c:v libvvenc -preset slow -qp 22 -vvenc-params threads=4 -color_primaries bt2020 \
         -color_trc smpte2084 -colorspace bt2020nc out.266"
    );
    assert_eq!(
        decode_args("-", "pipe:1").join(" "),
        "-hide_banner -loglevel error -y -i - -f rawvideo -pix_fmt yuv420p10le pipe:1"
    );
    assert_eq!(next_params(0, 8).unwrap(), encoder_params(8, true));
    assert_eq!(next_params(1, 8).unwrap(), encoder_params(8, false));
    assert!(next_params(2, 8).is_none());
}
