use lcevc_enc::frame::{s16_to_sample, sample_to_s16};
use lcevc_enc::simd::{s16_to_samples, samples_to_s16, sse_diff_u16};

fn scalar_samples_to_s16(data: &[u16], depth: u8) -> Vec<i16> {
    data.iter().map(|&v| sample_to_s16(v, depth)).collect()
}

fn scalar_s16_to_samples(data: &[i16], depth: u8) -> Vec<u16> {
    data.iter().map(|&v| s16_to_sample(v, depth)).collect()
}

#[test]
fn conversions_match_scalar() {
    for depth in [8u8, 10u8] {
        let data: Vec<u16> = (0..300u16).map(|i| (i * 7) % (1u16 << depth)).collect();
        let mut out = vec![0i16; data.len()];
        samples_to_s16(&data, &mut out, depth);
        assert_eq!(out, scalar_samples_to_s16(&data, depth), "to_s16 depth {depth}");

        let mut back = vec![0u16; data.len()];
        s16_to_samples(&out, &mut back, depth);
        assert_eq!(back, scalar_s16_to_samples(&out, depth), "s16_to depth {depth}");
        assert_eq!(back, data);
    }
}

#[test]
fn sse_diff_matches_scalar() {
    let a: Vec<u16> = (0..300u16).map(|i| (i * 13) % 1024).collect();
    let b: Vec<u16> = (0..300u16).map(|i| (i * 29) % 1024).collect();
    let scalar: u64 = a
        .iter()
        .zip(&b)
        .map(|(&x, &y)| {
            let d = x as i64 - y as i64;
            (d * d) as u64
        })
        .sum();
    assert_eq!(sse_diff_u16(&a, &b), scalar);
}

#[test]
fn fixed_point_samples() {
    assert_eq!(sample_to_s16(0, 8), -16384);
    assert_eq!(sample_to_s16(128, 8), 0);
    assert_eq!(sample_to_s16(255, 8), 127 * 128);
    assert_eq!(s16_to_sample(64, 8), 128);
    assert_eq!(s16_to_sample(95, 8), 128);
    assert_eq!(s16_to_sample(96, 8), 129);
    assert_eq!(s16_to_sample(-33, 8), 127);
    assert_eq!(s16_to_sample(-32, 8), 128);
    assert_eq!(s16_to_sample(24, 10), 513);
    assert_eq!(s16_to_sample(23, 10), 512);
    assert_eq!(s16_to_sample(3, 14), 8193);
    assert_eq!(s16_to_sample(32767, 8), 255);
    assert_eq!(s16_to_sample(-32768, 8), 0);
}
