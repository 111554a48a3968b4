use lcevc_enc::config::{ScalingMode, UpsampleType};
use lcevc_enc::frame::{sample_to_s16, Plane, PlaneS16};
use lcevc_enc::upscale::{downscale_plane, upscale_1d, upscale_2d, upscale_plane};

#[test]
fn bilinear_1d_matches_hand_calc() {
    // Source: [0, 64, 128, 192] at fixed point: (v-128)*128.
    let mut src = PlaneS16::new(4, 1);
    let vals = [0u8, 64, 128, 192];
    for (i, &v) in vals.iter().enumerate() {
        src.set(i, 0, sample_to_s16(v as u16, 8));
    }
    let dst = upscale_1d(&src, &[0, 12288, 4096, 0], false);
    // Fixed point: -16384, -8192, 0, 8192. Pel block (right edge, width 4):
    // [-16384,-16384,-16384,-8192,0,8192,8192,8192]
    // out[2i] = (pel[i+1]*4096 + pel[i+2]*12288 + 0x2000) >> 14
    // out[2i+1] = (pel[i+2]*12288 + pel[i+3]*4096 + 0x2000) >> 14
    let exp = [-16384i16, -14336, -10240, -6144, -2048, 2048, 6144, 8192];
    for i in 0..8 {
        assert_eq!(dst.get(i, 0), exp[i], "out {i}");
    }
}

#[test]
fn nearest_kernel_copies() {
    // Nearest kernel: dst(2i) = pel[i+2], dst(2i+1) = pel[i+1].
    let mut src = PlaneS16::new(4, 1);
    let vals = [10i16, 20, 30, 40];
    for (i, &v) in vals.iter().enumerate() {
        src.set(i, 0, v);
    }
    let dst = upscale_1d(&src, &[0, 16384, 0, 0], false);
    // pel = [10,10,10,20,30,40,40,40]
    // out[2i] = pel[i+2] (k2 at position i+2), out[2i+1] = pel[i+2]
    let exp = [10i16, 10, 20, 20, 30, 30, 40, 40];
    for i in 0..8 {
        assert_eq!(dst.get(i, 0), exp[i], "out {i}");
    }
}

#[test]
fn downscale_2x2_average() {
    let mut src = Plane::new(4, 4);
    for y in 0..4 {
        for x in 0..4 {
            src.set(x, y, if (x / 2 + y / 2) % 2 == 0 { 100 } else { 200 });
        }
    }
    let dst = downscale_plane(&src, ScalingMode::Scale2D, 8);
    assert_eq!(dst.width, 2);
    assert_eq!(dst.height, 2);
    assert_eq!(dst.get(0, 0), 100);
    assert_eq!(dst.get(1, 0), 200);
    assert_eq!(dst.get(0, 1), 200);
    assert_eq!(dst.get(1, 1), 100);
}

#[test]
fn debug_upscale_1d_smooth() {
    // 640 wide, row 0 = smooth gradient.
    let mut base = Plane::new(640, 1);
    for x in 0..640 {
        base.set(x, 0, (80 + x / 32) as u16);
    }
    let s16 = base.to_s16(8);
    let dst = upscale_plane(&s16, ScalingMode::Scale1D, &[0, 12288, 4096, 0], false);
    let mut bad = Vec::new();
    for x in 0..1280 {
        let v = dst.get(x, 0);
        if v == 0 || v == sample_to_s16(128, 8) || v == sample_to_s16(0, 8) {
            bad.push((x, v));
        }
    }
    println!("bad positions: {bad:?}");
    assert!(bad.is_empty(), "garbage found");
}

#[test]
fn a_flat_plane_stays_flat() {
    for kind in [
        UpsampleType::Nearest,
        UpsampleType::Linear,
        UpsampleType::Cubic,
        UpsampleType::ModifiedCubic,
    ] {
        let mut src = PlaneS16::new(6, 4);
        for y in 0..4 {
            for x in 0..6 {
                src.set(x, y, 1280);
            }
        }
        let dst = upscale_2d(&src, &kind.kernel(), true);
        assert_eq!((dst.width, dst.height), (12, 8));
        for y in 0..8 {
            for x in 0..12 {
                assert_eq!(dst.get(x, y), 1280);
            }
        }
    }
}

#[test]
fn no_scaling_copies() {
    let mut src = Plane::new(2, 1);
    src.set(0, 0, 7);
    src.set(1, 0, 9);
    let same = downscale_plane(&src, ScalingMode::Scale0D, 8);
    assert_eq!(same.data, vec![7, 9]);
    let half = downscale_plane(&src, ScalingMode::Scale1D, 8);
    assert_eq!(half.data, vec![8]);
}

#[test]
fn nearest_kernel_copies_into_blocks() {
    let mut src = PlaneS16::new(3, 2);
    for y in 0..2 {
        for x in 0..3 {
            src.set(x, y, (100 * y + 7 * x) as i16 - 50);
        }
    }
    let dst = upscale_2d(&src, &UpsampleType::Nearest.kernel(), false);
    for y in 0..4 {
        for x in 0..6 {
            assert_eq!(dst.get(x, y), src.get(x / 2, y / 2));
        }
    }
}

#[test]
fn predicted_average_keeps_the_source() {
    let mut src = PlaneS16::new(5, 4);
    for y in 0..4 {
        for x in 0..5 {
            src.set(x, y, ((x * 1777 + y * 911) % 4001) as i16 - 2000);
        }
    }
    let kernel = UpsampleType::ModifiedCubic.kernel();
    let wide = upscale_1d(&src, &kernel, true);
    let both = upscale_2d(&src, &kernel, true);
    for y in 0..4 {
        for x in 0..5 {
            let pair = wide.get(2 * x, y) as i32 + wide.get(2 * x + 1, y) as i32;
            assert_eq!((pair + 1) >> 1, src.get(x, y) as i32);
            let mut four = 0;
            for (dx, dy) in [(0, 0), (1, 0), (0, 1), (1, 1)] {
                four += both.get(2 * x + dx, 2 * y + dy) as i32;
            }
            assert_eq!((four + 2) >> 2, src.get(x, y) as i32);
        }
    }
}
