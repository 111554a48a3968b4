use lcevc_enc::base::BaseMode;
use lcevc_enc::cli::{
    parse_args, parse_on_off, parse_scaling, parse_size, usage, Names, Parsed, Settings,
};
use lcevc_enc::config::{
    ChromaFormat, ScalingMode, TileDimensions, TransformType, UpsampleType,
};
use lcevc_enc::frame::Picture;
use lcevc_enc::session::{
    base_mode_of, base_options, check_passed, check_size, compare, dump_picture, encoder_config,
    gop_frames, input_of, mux_only_paths, mux_paths, output_of, rounded_rate, source_format,
    stream_settings, target_bytes, wants_frame, Difference, SourceFormat,
};
use lcevc_enc::yuv::Y4mReader;

fn parse(args: &[&str]) -> Result<Parsed, String> {
    let mut all = vec!["lcevc_enc".to_string()];
    all.extend(args.iter().map(|a| a.to_string()));
    let fractions: Vec<bool> = all.iter().map(|a| a.parse::<f64>().is_ok()).collect();
    parse_args(&all, &fractions)
}

fn chosen(args: &[&str]) -> (Settings, Names) {
    match parse(args).unwrap() {
        Parsed::Run(s, n) => (s, n),
        Parsed::Help => panic!("no help was asked for"),
    }
}

fn refused(args: &[&str]) -> String {
    parse(args).err().unwrap()
}

#[test]
fn defaults_of_the_command_line() {
    let (s, n) = chosen(&[]);
    assert_eq!((s.width, s.height, s.fps, s.frames), (0, 0, 30, u32::MAX));
    assert_eq!((s.sw_l1, s.sw_l2), (512, 128));
    assert_eq!(s.transform, TransformType::Dds);
    assert_eq!(s.upsampler, UpsampleType::Linear);
    assert_eq!((s.scaling_l1, s.scaling_l2), (ScalingMode::Scale2D, ScalingMode::Scale2D));
    assert!(s.predicted_average && !s.temporal);
    assert_eq!((s.temporal_sw_modifier, s.bit_depth, s.base_gop), (48, 8, 30));
    assert_eq!(n.base_mode, "raw");
    assert_eq!((n.vvc_preset.as_str(), n.vvc_qp.as_str()), ("medium", "30"));
    assert!(n.input.is_none() && n.qm_beta.is_none());
}

#[test]
fn options_of_the_command_line() {
    let (s, n) = chosen(&[
        "-i", "in.yuv", "-s", "1280x720", "-f", "25", "--frames", "10", "-o", "out", "--base-out",
        "base.266", "--base-mode", "vvc", "--step-width-l1", "600", "--step-width-l2", "+70",
        "--transform", "2x2", "--upsampler", "modified-cubic", "--scaling-l1", "0",
        "--scaling-l2", "1", "--predicted-average", "off", "--temporal", "on",
        "--temporal-sw-modifier", "20", "--tiles", "96x64", "--tile-size-compression", "2",
        "--bit-depth", "10", "--input-format", "y4m", "--mux", "f.mp4", "--mux-only",
        "--base-gop", "8", "--base-gop-seconds", "1.5", "--target-kbps", "900", "--qm-beta",
        "0.25", "--vvc-preset", "slow", "--vvc-qp", "22", "--verify", "--no-psnr", "--no-rdoq",
        "--dump-base", "--dump-recon",
    ]);
    assert_eq!((s.width, s.height, s.fps, s.frames), (1280, 720, 25, 10));
    assert_eq!((s.sw_l1, s.sw_l2), (600, 70));
    assert_eq!(s.transform, TransformType::Dd);
    assert_eq!(s.upsampler, UpsampleType::ModifiedCubic);
    assert_eq!((s.scaling_l1, s.scaling_l2), (ScalingMode::Scale0D, ScalingMode::Scale1D));
    assert!(!s.predicted_average && s.temporal);
    assert_eq!((s.tiles, s.custom_tile), (TileDimensions::Custom, Some((96, 64))));
    assert_eq!((s.temporal_sw_modifier, s.tile_size_compression, s.bit_depth), (20, 2, 10));
    assert!(s.mux_only && s.verify && s.no_psnr && s.no_rdoq && s.dump_base && s.dump_recon);
    assert_eq!((s.base_gop, s.target_kbps), (8, Some(900)));
    assert_eq!(n.input.as_deref(), Some("in.yuv"));
    assert_eq!(n.output.as_deref(), Some("out"));
    assert_eq!(n.base_out.as_deref(), Some("base.266"));
    assert_eq!(n.base_mode, "vvc");
    assert_eq!(n.input_format.as_deref(), Some("y4m"));
    assert_eq!(n.mux_out.as_deref(), Some("f.mp4"));
    assert_eq!(n.base_gop_seconds.as_deref(), Some("1.5"));
    assert_eq!(n.qm_beta.as_deref(), Some("0.25"));
    assert_eq!((n.vvc_preset.as_str(), n.vvc_qp.as_str()), ("slow", "22"));
}

#[test]
fn refused_options() {
    assert_eq!(refused(&["--wat"]), format!("unknown option --wat\n{}", usage()));
    assert_eq!(refused(&["-i"]), "missing value for -i");
    assert_eq!(refused(&["--qm-beta"]), "missing value for --qm-beta");
    for (option, value, message) in [
        ("-s", "1280", "expected WxH"),
        ("-s", "ax720", "bad width"),
        ("-s", "1280xb", "bad height"),
        ("-f", "-1", "bad fps"),
        ("--frames", "4294967296", "bad frames"),
        ("--step-width-l1", "", "bad step width"),
        ("--step-width-l2", "+", "bad step width"),
        ("--transform", "8x8", "bad transform"),
        ("--upsampler", "sinc", "bad upsampler"),
        ("--scaling-l1", "3", "bad scaling mode"),
        ("--temporal", "maybe", "expected on/off"),
        ("--temporal-sw-modifier", "256", "bad modifier"),
        ("--tiles", "some", "expected WxH"),
        ("--tile-size-compression", "x", "bad compression"),
        ("--bit-depth", "x", "bad bit depth"),
        ("--bit-depth", "9", "bit depth must be 8 or 10"),
        ("--base-gop", "x", "bad base-gop"),
        ("--base-gop-seconds", "x", "bad base-gop-seconds"),
        ("--target-kbps", "1.5", "bad target-kbps"),
        ("--qm-beta", "x", "bad qm-beta"),
    ] {
        assert_eq!(refused(&[option, value]), message);
    }
    // The first mistake is the one that is reported.
    assert_eq!(refused(&["--qm-beta", "x", "--wat"]), "bad qm-beta");
    assert!(matches!(parse(&["-h", "--wat"]).unwrap(), Parsed::Help));
    assert!(usage().starts_with("usage: lcevc_enc -i input.yuv"));
}

#[test]
fn values_of_options() {
    assert_eq!(parse_size("16x8").unwrap(), (16, 8));
    assert_eq!(parse_size("16").unwrap_err(), "expected WxH");
    assert_eq!(parse_scaling("1").unwrap(), ScalingMode::Scale1D);
    assert!(parse_on_off("true").unwrap());
    assert!(!parse_on_off("0").unwrap());
}

#[test]
fn names_and_formats() {
    assert_eq!(base_mode_of("raw").unwrap(), BaseMode::Raw);
    assert_eq!(base_mode_of("vvc").unwrap(), BaseMode::Vvc);
    assert_eq!(base_mode_of("hevc").unwrap_err(), "unknown base mode hevc");
    assert_eq!(base_options("slow", "22"), "preset=slow,qp=22");
    for stdin in [false, true] {
        assert_eq!(source_format(None, stdin, true).unwrap(), SourceFormat::Y4m);
        assert_eq!(source_format(None, stdin, false).unwrap(), SourceFormat::Raw);
        assert_eq!(source_format(Some("raw"), stdin, true).unwrap(), SourceFormat::Raw);
        assert_eq!(source_format(Some("y4m"), stdin, false).unwrap(), SourceFormat::Y4m);
    }
    let err = source_format(Some("avi"), false, false).unwrap_err();
    assert_eq!(err, "unknown input format avi");
    assert_eq!(source_format(Some("avi"), true, true).unwrap(), SourceFormat::Y4m);
    assert_eq!(source_format(Some("avi"), true, false).unwrap(), SourceFormat::Raw);
}

#[test]
fn a_header_gives_size_and_rate() {
    let (s, _) = chosen(&["-s", "16x16", "-f", "60"]);
    let r = Y4mReader::new("YUV4MPEG2 W1280 H720 F30000:1001", 8).unwrap();
    let t = stream_settings(s, Some(&r));
    assert_eq!((t.width, t.height, t.fps), (1280, 720, 30));
    let u = stream_settings(s, None);
    assert_eq!((u.width, u.height, u.fps), (16, 16, 60));
    assert_eq!(rounded_rate(5, 2), 3);
    assert_eq!(rounded_rate(u32::MAX, 1), u32::MAX);
    assert_eq!(rounded_rate(1, 3), 0);
}

#[test]
fn what_a_session_needs() {
    let (s, n) = chosen(&[]);
    assert_eq!(input_of(&n).unwrap_err(), format!("missing input\n{}", usage()));
    assert_eq!(check_size(&s).unwrap_err(), format!("missing size\n{}", usage()));
    assert_eq!(output_of(&n), "out.lcevc");
    assert_eq!(mux_only_paths(&n).err().unwrap(), "--mux-only requires --mux FILE");
    assert!(mux_paths(&n).unwrap().is_none());
    let (_, n) = chosen(&["--mux", "f.mp4"]);
    assert_eq!(mux_only_paths(&n).err().unwrap(), "--mux-only requires --base-out");
    assert_eq!(mux_paths(&n).err().unwrap(), "--mux requires --base-mode vvc");
    let (_, n) = chosen(&["--mux", "f.mp4", "--base-mode", "vvc"]);
    assert_eq!(mux_paths(&n).err().unwrap(), "--mux requires --base-out");
    let (_, n) = chosen(&["--mux", "f.mp4", "--base-mode", "vvc", "--base-out", "b"]);
    let p = mux_paths(&n).unwrap().unwrap();
    assert_eq!((p.mux.as_str(), p.base.as_str()), ("f.mp4", "b"));
}

#[test]
fn settings_become_a_configuration() {
    let (s, _) = chosen(&["-s", "1280x720", "-f", "60", "--temporal", "on"]);
    let c = encoder_config(&s).unwrap();
    assert_eq!((c.width, c.height, c.level), (1280, 720, 2));
    assert!(c.temporal_enabled);
    let (s, _) = chosen(&["-s", "1282x720"]);
    assert_eq!(
        encoder_config(&s).err().unwrap(),
        "resolution 1282x720 not aligned for this configuration (needs 16x16)"
    );
}

#[test]
fn frames_are_counted() {
    for (frames, gop) in [(10u32, 30usize), (10, 4), (1, 1), (7, 2)] {
        let mut read = 0u32;
        loop {
            let mut in_gop = 0usize;
            while wants_frame(read, in_gop, gop, frames) {
                read += 1;
                in_gop += 1;
            }
            assert!(in_gop <= gop);
            if in_gop == 0 {
                break;
            }
        }
        assert_eq!(read, frames);
    }
    // A GOP is filled as long as frames are wanted.
    assert!(wants_frame(20, 20, 30, 40));
    assert!(!wants_frame(30, 30, 30, 40));
    assert!(wants_frame(39, 9, 30, 40));
    assert!(!wants_frame(40, 10, 30, 40));
    assert_eq!(gop_frames(0), 1);
    assert_eq!(gop_frames(30), 30);
}

#[test]
fn bytes_of_a_bit_rate() {
    assert_eq!(target_bytes(800, 25), 4000);
    assert_eq!(target_bytes(0, 25), 0);
    assert_eq!(target_bytes(8, 0), 1000);
}

#[test]
fn pictures_are_compared() {
    let a = Picture::new(4, 2, ChromaFormat::C420);
    let mut b = Picture::new(4, 2, ChromaFormat::C420);
    assert_eq!(compare(&a, &b), Difference { samples: 12, largest: 0, sse: 0 });
    b.planes[0].data[3] = 5;
    b.planes[2].data[0] = 2;
    let d = compare(&a, &b);
    assert_eq!(d, Difference { samples: 12, largest: 5, sse: 29 });
    assert_eq!(check_passed(&d).unwrap_err(), "self-check failed: reconstruction mismatch");
}

#[test]
fn dumps_have_ten_bits() {
    let mut p = Picture::new(2, 1, ChromaFormat::Monochrome);
    p.planes[0].data = vec![255, 300];
    assert_eq!(dump_picture(&p, 8), vec![0xFC, 3, 0xFC, 3]);
    assert_eq!(dump_picture(&p, 10), vec![255, 0, 0x2C, 1]);
}
