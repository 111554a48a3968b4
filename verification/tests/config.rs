use lcevc_enc::config::{
    level_for_sample_rate, ChromaFormat, LcevcConfig, ScalingMode, TileDimensions, TransformType,
    UpsampleType, RESOLUTION_CUSTOM,
};
use lcevc_enc::decoder::{parse_global_config, parse_picture_config};
use lcevc_enc::payload::{write_encoded_data, write_picture_config, Chunk};
use lcevc_enc::stream::parse_encoded;

#[test]
fn rules_of_a_configuration() {
    let ok = LcevcConfig { width: 64, height: 48, ..Default::default() };
    assert!(ok.validate().is_ok());
    let zero = LcevcConfig { width: 0, ..ok.clone() };
    assert_eq!(zero.validate().unwrap_err(), "zero resolution");
    let custom = LcevcConfig { tile_dimensions: TileDimensions::Custom, ..ok.clone() };
    assert_eq!(
        custom.validate().unwrap_err(),
        "custom tile size required for TileDimensions::Custom"
    );
    let empty = LcevcConfig { custom_tile_size: Some((0, 32)), ..custom.clone() };
    assert_eq!(empty.validate().unwrap_err(), "invalid custom tile size");
    let odd = LcevcConfig { height: 50, ..ok.clone() };
    assert_eq!(
        odd.validate().unwrap_err(),
        "resolution 64x50 not aligned for this configuration (needs 16x16)"
    );
    let tile = LcevcConfig { custom_tile_size: Some((34, 32)), ..custom };
    assert_eq!(
        tile.validate().unwrap_err(),
        "tile dimensions 34x32 (plane 0) not divisible by transform size 4"
    );
}

#[test]
fn dimensions_of_the_layers() {
    let cfg = LcevcConfig { width: 1280, height: 720, ..Default::default() };
    assert_eq!(cfg.loq_dimensions(), [(1280, 720), (640, 360), (320, 180)]);
    assert_eq!(cfg.plane_dimensions(0, 1), (640, 360));
    assert_eq!(cfg.plane_dimensions(2, 2), (160, 90));
    assert_eq!(cfg.num_planes(), 3);
    assert_eq!(cfg.num_layers(), 16);
    let tiled = LcevcConfig { tile_dimensions: TileDimensions::T512x256, ..cfg };
    assert_eq!(tiled.num_tiles(0, 0), 9);
    assert_eq!(tiled.tile_dimensions_plane(1), (256, 128));
}

#[test]
fn levels() {
    assert_eq!(level_for_sample_rate(1280, 720, 30), 1);
    assert_eq!(level_for_sample_rate(1920, 1080, 60), 2);
    assert_eq!(level_for_sample_rate(3840, 2160, 60), 3);
    assert_eq!(level_for_sample_rate(7680, 4320, 60), 4);
}

#[test]
fn resolutions() {
    let hd = LcevcConfig { width: 1920, height: 1080, ..Default::default() };
    assert!(hd.resolution_type() < 63);
    let odd = LcevcConfig { width: 1922, height: 1080, ..Default::default() };
    assert_eq!(odd.resolution_type(), RESOLUTION_CUSTOM);
}

#[test]
fn global_config_is_read_back() {
    let cfg = LcevcConfig {
        width: 1920,
        height: 1080,
        transform: TransformType::Dd,
        upsampler: UpsampleType::ModifiedCubic,
        scaling_l1: ScalingMode::Scale0D,
        scaling_l2: ScalingMode::Scale1D,
        base_depth: 10,
        enhancement_depth: 10,
        temporal_enabled: true,
        predicted_average: false,
        ..Default::default()
    };
    let bytes = cfg.write_global_config();
    let mut got = LcevcConfig::default();
    parse_global_config(&bytes, &mut got).unwrap();
    assert_eq!((got.width, got.height), (1920, 1080));
    assert_eq!(got.transform, TransformType::Dd);
    assert_eq!(got.upsampler, UpsampleType::ModifiedCubic);
    assert_eq!(got.scaling_l1, ScalingMode::Scale0D);
    assert_eq!(got.scaling_l2, ScalingMode::Scale1D);
    assert_eq!(got.chroma, ChromaFormat::C420);
    assert_eq!(got.enhancement_depth, 10);
    assert!(got.temporal_enabled);
    assert!(!got.predicted_average);
}

#[test]
fn picture_config_is_read_back() {
    let cfg = LcevcConfig::default();
    let matrices = [vec![3u8; 16], vec![200u8; 16]];
    let bytes = write_picture_config(&cfg, 512, 128, true, &matrices);
    assert_eq!(bytes.len(), 37);
    let got = parse_picture_config(&bytes, &cfg).unwrap();
    assert_eq!((got.step_width_l1, got.step_width_l2), (512, 128));
    assert!(got.temporal_refresh);
    assert_eq!(got.quant_matrix.unwrap(), matrices);
}

#[test]
fn optional_parts_of_a_global_config_are_read_back() {
    for (width, height) in [(1920u16, 1080u16), (1922, 1082)] {
        for tiles in [
            TileDimensions::Untiled,
            TileDimensions::T512x256,
            TileDimensions::T1024x512,
            TileDimensions::Custom,
        ] {
            for (modifier, multiplier, filter) in
                [(48u8, 64u8, false), (17, 64, true), (48, 200, true), (99, 3, false)]
            {
                let cfg = LcevcConfig {
                    width,
                    height,
                    tile_dimensions: tiles,
                    custom_tile_size: Some((320, 192)),
                    per_tile_entropy_compression: true,
                    tile_size_compression: 2,
                    temporal_step_width_modifier: modifier,
                    chroma_step_width_multiplier: multiplier,
                    level1_filtering_signalled: filter,
                    level1_filtering_first_coefficient: 5,
                    level1_filtering_second_coefficient: 11,
                    ..Default::default()
                };
                let bytes = cfg.write_global_config();
                let mut got = LcevcConfig::default();
                parse_global_config(&bytes, &mut got).unwrap();
                assert_eq!((got.width, got.height), (width, height));
                assert_eq!(got.tile_dimensions, tiles);
                assert_eq!(got.temporal_step_width_modifier, modifier);
                assert_eq!(got.chroma_step_width_multiplier, multiplier);
                assert_eq!(got.level1_filtering_signalled, filter);
                if filter {
                    assert_eq!(got.level1_filtering_first_coefficient, 5);
                    assert_eq!(got.level1_filtering_second_coefficient, 11);
                }
                if tiles != TileDimensions::Untiled {
                    assert!(got.per_tile_entropy_compression);
                    assert_eq!(got.tile_size_compression, 2);
                }
                if tiles == TileDimensions::Custom {
                    assert_eq!(got.custom_tile_size, Some((320, 192)));
                }
                for n in 0..bytes.len() {
                    let err = parse_global_config(&bytes[..n], &mut got).unwrap_err();
                    assert_eq!(err, "eof");
                }
            }
        }
    }
}

#[test]
fn encoded_data_is_read_back() {
    let cfg = LcevcConfig { transform: TransformType::Dd, ..Default::default() };
    let chunk = |n: usize| Chunk {
        entropy_enabled: n % 3 != 0,
        rle_only: n % 2 == 0,
        data: if n % 3 != 0 { vec![n as u8; n * 5] } else { Vec::new() },
    };
    // Two LOQs of four layers per plane, and a chunk of temporal signals.
    let residual: Vec<Vec<Vec<Vec<Chunk>>>> = (0..3usize)
        .map(|p| {
            (0..2usize)
                .map(|q| (0..4usize).map(|l| vec![chunk(9 * p + 4 * q + l)]).collect())
                .collect()
        })
        .collect();
    let temporal: Vec<Vec<Chunk>> = (0..3usize).map(|p| vec![chunk(9 * p + 8)]).collect();
    let block = write_encoded_data(&cfg, &residual, &temporal, true);
    let got = parse_encoded(&block, 3, 4, true).unwrap();
    assert_eq!(got.len(), 27);
    for (n, c) in got.iter().enumerate() {
        let want = chunk(n);
        assert_eq!((c.entropy_enabled, c.rle_only), (want.entropy_enabled, want.rle_only));
        assert_eq!(c.data, want.data);
    }
}
