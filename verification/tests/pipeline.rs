use lcevc_enc::config::{
    ChromaFormat, LcevcConfig, ScalingMode, TileDimensions, TransformType, UpsampleType,
};
use lcevc_enc::decoder::{decode_frame, parse_nal};
use lcevc_enc::dequant::LogTable;
use lcevc_enc::encoder::{EncodedFrame, Encoder, RateStep};
use lcevc_enc::frame::{Picture, PlaneS16};
use lcevc_enc::nal::{BLOCK_GLOBAL_CONFIG, BLOCK_SEQUENCE_CONFIG};
use lcevc_enc::session::{check_passed, compare};

fn logs() -> LogTable {
    let entries: Vec<u16> = (0..32768u32)
        .map(|w| if w == 0 { 0 } else { (4096.0 * (w as f64).ln()).floor() as u16 })
        .collect();
    LogTable::from_entries(entries).unwrap()
}

fn source(width: usize, height: usize, chroma: ChromaFormat, depth: u8, seed: u32) -> Picture {
    let mut pic = Picture::new(width, height, chroma);
    let mut state = seed.wrapping_mul(2654435761).wrapping_add(12345);
    for plane in pic.planes.iter_mut() {
        let w = plane.width;
        for (i, v) in plane.data.iter_mut().enumerate() {
            state = state.wrapping_mul(1664525).wrapping_add(1013904223);
            let ramp = (i % w) as u32 * 2 + (i / w) as u32;
            let noise = (state >> 24) % 24;
            *v = ((ramp + noise + 40) % (1 << depth)) as u16;
        }
    }
    pic
}

fn buffers(cfg: &LcevcConfig) -> Vec<PlaneS16> {
    (0..cfg.num_planes())
        .map(|p| {
            let (w, h) = cfg.plane_dimensions(0, p);
            PlaneS16::new(w as usize, h as usize)
        })
        .collect()
}

fn config() -> LcevcConfig {
    LcevcConfig { width: 64, height: 48, ..Default::default() }
}

/// Encode some frames and decode them again; every picture must come out as the encoder
/// shows it.
fn check_stream(cfg: &LcevcConfig, frames: u32, sw1: u32, sw2: u32) -> Vec<EncodedFrame> {
    cfg.validate().unwrap();
    let mut enc = Encoder::new(cfg.clone(), sw1, sw2, logs());
    let mut tb = buffers(cfg);
    let table = logs();
    let mut out = Vec::new();
    for i in 0..frames {
        let src = source(
            cfg.width as usize,
            cfg.height as usize,
            cfg.chroma,
            cfg.enhancement_depth,
            i / 2 + 1,
        );
        let frame = enc.encode_frame(&src).unwrap();
        assert_eq!(frame.idr, i == 0);
        let nal = frame.to_nal_unit(cfg);
        let (idr, blocks) = parse_nal(&nal).unwrap();
        assert_eq!(idr, frame.idr);
        let shown = decode_frame(cfg, &blocks, &frame.base_picture, &mut tb, &table).unwrap();
        let d = compare(&shown, &frame.output);
        assert_eq!(d.largest, 0, "frame {i} of {cfg:?}");
        assert!(check_passed(&d).is_ok());
        out.push(frame);
    }
    out
}

#[test]
fn decoded_stream_is_the_encoders_picture() {
    let frames = check_stream(&config(), 3, 512, 128);
    assert!(frames.iter().all(|f| f.byte_count > 0));
}

#[test]
fn selfcheck_scaling_modes() {
    for (l1, l2) in [
        (ScalingMode::Scale2D, ScalingMode::Scale2D),
        (ScalingMode::Scale1D, ScalingMode::Scale2D),
        (ScalingMode::Scale0D, ScalingMode::Scale2D),
        (ScalingMode::Scale2D, ScalingMode::Scale1D),
        (ScalingMode::Scale0D, ScalingMode::Scale1D),
        (ScalingMode::Scale1D, ScalingMode::Scale1D),
        (ScalingMode::Scale0D, ScalingMode::Scale0D),
    ] {
        let cfg = LcevcConfig { scaling_l1: l1, scaling_l2: l2, ..config() };
        check_stream(&cfg, 2, 512, 128);
    }
}

#[test]
fn selfcheck_transforms_and_upsamplers() {
    for transform in [TransformType::Dd, TransformType::Dds] {
        for upsampler in [
            UpsampleType::Nearest,
            UpsampleType::Linear,
            UpsampleType::Cubic,
            UpsampleType::ModifiedCubic,
        ] {
            for predicted_average in [true, false] {
                let cfg = LcevcConfig { transform, upsampler, predicted_average, ..config() };
                check_stream(&cfg, 1, 256, 64);
            }
        }
    }
}

#[test]
fn selfcheck_with_an_l1_filter_without_effect() {
    for (transform, first, second) in [(TransformType::Dd, 5, 11), (TransformType::Dds, 0, 0)] {
        let cfg = LcevcConfig {
            transform,
            level1_filtering_signalled: true,
            level1_filtering_first_coefficient: first,
            level1_filtering_second_coefficient: second,
            ..config()
        };
        check_stream(&cfg, 2, 512, 128);
    }
}

#[test]
fn selfcheck_temporal() {
    let cfg = LcevcConfig { temporal_enabled: true, ..config() };
    let frames = check_stream(&cfg, 5, 512, 128);
    assert!(frames[0].temporal_refresh);
    let cfg = LcevcConfig {
        temporal_enabled: true,
        transform: TransformType::Dd,
        chroma: ChromaFormat::Monochrome,
        ..config()
    };
    check_stream(&cfg, 4, 512, 128);
}

#[test]
fn a_dropped_frame_leaves_the_temporal_buffers() {
    let cfg = LcevcConfig {
        temporal_enabled: true,
        scaling_l1: ScalingMode::Scale0D,
        scaling_l2: ScalingMode::Scale0D,
        ..config()
    };
    cfg.validate().unwrap();
    let mut enc = Encoder::new(cfg.clone(), 512, 128, logs());
    let table = logs();
    let mut tb = buffers(&cfg);
    let src = source(64, 48, cfg.chroma, 8, 1);
    let mut blurred = source(64, 48, cfg.chroma, 8, 1);
    for plane in blurred.planes.iter_mut() {
        for v in plane.data.iter_mut() {
            *v = *v / 16 * 16;
        }
    }
    // A base that is the source itself leaves nothing to enhance.
    for (base, dropped) in [(&blurred, false), (&src, true), (&blurred, false), (&src, true)] {
        let before: Vec<Vec<i16>> = tb.iter().map(|p| p.data.clone()).collect();
        let frame = enc.encode_frame_with_base(&src, base).unwrap();
        let chunks = frame.residual_chunks.iter().flatten().flatten().flatten();
        assert!(chunks.clone().all(|c| c.entropy_enabled != dropped));
        let (_, blocks) = parse_nal(&frame.to_nal_unit(&cfg)).unwrap();
        let shown = decode_frame(&cfg, &blocks, base, &mut tb, &table).unwrap();
        assert_eq!(compare(&shown, &frame.output).largest, 0);
        let after: Vec<Vec<i16>> = tb.iter().map(|p| p.data.clone()).collect();
        assert_eq!(before == after, dropped);
        assert!(after.iter().flatten().any(|&v| v != 0));
    }
}

#[test]
fn selfcheck_temporal_extremes() {
    // Black and white sources over a black base: residuals and temporal buffers as large as
    // they get.
    for (sw1, sw2) in [(32767, 64), (32767, 4096), (512, 128)] {
        let cfg = LcevcConfig {
            temporal_enabled: true,
            scaling_l1: ScalingMode::Scale0D,
            scaling_l2: ScalingMode::Scale0D,
            ..config()
        };
        cfg.validate().unwrap();
        let mut enc = Encoder::new(cfg.clone(), sw1, sw2, logs());
        let table = logs();
        let mut tb = buffers(&cfg);
        let black = Picture::new(64, 48, cfg.chroma);
        for (i, level) in [250u16, 255, 255, 0, 255, 128].iter().enumerate() {
            let mut src = Picture::new(64, 48, cfg.chroma);
            for plane in src.planes.iter_mut() {
                for (k, v) in plane.data.iter_mut().enumerate() {
                    *v = level.saturating_sub((k % 3) as u16);
                }
            }
            let frame = enc.encode_frame_with_base(&src, &black).unwrap();
            let (_, blocks) = parse_nal(&frame.to_nal_unit(&cfg)).unwrap();
            let shown = decode_frame(&cfg, &blocks, &black, &mut tb, &table).unwrap();
            assert_eq!(compare(&shown, &frame.output).largest, 0, "frame {i}");
        }
    }
}

#[test]
fn selfcheck_ten_bits() {
    let cfg = LcevcConfig { base_depth: 10, enhancement_depth: 10, ..config() };
    check_stream(&cfg, 2, 256, 64);
}

#[test]
fn tiled_streams_are_written() {
    let cfg = LcevcConfig {
        tile_dimensions: TileDimensions::Custom,
        custom_tile_size: Some((32, 32)),
        ..config()
    };
    cfg.validate().unwrap();
    for compression in [0u8, 1, 2] {
        let cfg = LcevcConfig { tile_size_compression: compression, ..cfg.clone() };
        let mut enc = Encoder::new(cfg.clone(), 512, 128, logs());
        let src = source(64, 48, ChromaFormat::C420, 8, 7);
        let frame = enc.encode_frame(&src).unwrap();
        assert_eq!(frame.residual_chunks[0][1][0].len(), 4);
        let nal = frame.to_nal_unit(&cfg);
        let (_, blocks) = parse_nal(&nal).unwrap();
        assert_eq!(blocks.len(), 4);
        assert_eq!(blocks[3].1, frame.encoded_data);
    }
}

#[test]
fn only_the_first_frame_has_the_headers() {
    let cfg = config();
    let mut enc = Encoder::new(cfg.clone(), 512, 128, logs());
    let src = source(64, 48, ChromaFormat::C420, 8, 3);
    let first = enc.encode_frame(&src).unwrap().to_nal_unit(&cfg);
    let second = enc.encode_frame(&src).unwrap().to_nal_unit(&cfg);
    let (_, a) = parse_nal(&first).unwrap();
    let (_, b) = parse_nal(&second).unwrap();
    assert_eq!(a[0].0, BLOCK_SEQUENCE_CONFIG);
    assert_eq!(a[1].0, BLOCK_GLOBAL_CONFIG);
    assert_eq!(a.len(), 4);
    assert_eq!(b.len(), 2);
}

#[test]
fn an_invalid_configuration_is_refused() {
    let cfg = LcevcConfig { width: 65, ..config() };
    let mut enc = Encoder::new(cfg, 512, 128, logs());
    let src = source(65, 48, ChromaFormat::C420, 8, 3);
    let err = enc.encode_frame(&src).err().unwrap();
    assert_eq!(err, "resolution 65x48 not aligned for this configuration (needs 16x16)");
}

#[test]
fn a_reset_encoder_starts_again() {
    let cfg = LcevcConfig { temporal_enabled: true, ..config() };
    let mut enc = Encoder::new(cfg, 512, 128, logs());
    let src = source(64, 48, ChromaFormat::C420, 8, 3);
    let a = enc.encode_frame(&src).unwrap();
    let b = enc.encode_frame(&src).unwrap();
    assert!(a.idr && !b.idr);
    assert_eq!(enc.stats.frames, 2);
    enc.reset();
    assert_eq!(enc.stats.frames, 0);
    let c = enc.encode_frame(&src).unwrap();
    assert!(c.idr);
    assert_eq!(c.encoded_data, a.encoded_data);
}

#[test]
fn rate_control_takes_at_most_four_tries() {
    let cfg = config();
    let mut enc = Encoder::new(cfg.clone(), 512, 128, logs());
    let src = source(64, 48, ChromaFormat::C420, 8, 9);
    let base = lcevc_enc::base::lossless_base(&cfg, &src);
    for target in [200usize, 2000] {
        let mut search = enc.start_rate_search(target);
        let mut tries = 0;
        let done = loop {
            tries += 1;
            match enc.encode_frame_rc(&src, &base, search).unwrap() {
                RateStep::Again(next) => search = next,
                RateStep::Done(best) => break best,
            }
        };
        assert!(tries <= 4);
        assert_eq!(done.size, done.frame.byte_count);
    }
    // Tries are not counted as frames.
    assert_eq!(enc.stats.frames, 0);
}

#[test]
fn a_stream_without_its_blocks_is_refused() {
    let cfg = config();
    let src = source(64, 48, ChromaFormat::C420, 8, 3);
    let base = lcevc_enc::base::lossless_base(&cfg, &src);
    let mut tb = buffers(&cfg);
    let err = decode_frame(&cfg, &[], &base, &mut tb, &logs()).err().unwrap();
    assert_eq!(err, "no picture config");
}

#[test]
fn the_lossless_base_is_the_downscaled_source() {
    let cfg = LcevcConfig {
        scaling_l1: ScalingMode::Scale0D,
        scaling_l2: ScalingMode::Scale0D,
        ..config()
    };
    let src = source(64, 48, ChromaFormat::C420, 8, 3);
    let base = lcevc_enc::base::lossless_base(&cfg, &src);
    assert_eq!(compare(&base, &src).sse, 0);
    let cfg = config();
    let base = lcevc_enc::base::lossless_base(&cfg, &src);
    assert_eq!((base.width, base.height), (16, 12));
}
