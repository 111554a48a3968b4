use lcevc_enc::transform::{
    forward_dd_1d, forward_dd_2d, forward_dds_1d, forward_dds_2d, inverse_dd_1d, inverse_dd_2d,
    inverse_dds_1d, inverse_dds_2d, residual_index, residual_position, sat16, ForwardTransform,
};

#[test]
fn dd2d_forward_inverse_exact() {
    // Forward: num = H^T r; decoder inverse: H num = H H^T r = 4 r.
    for r in [[3i16, -7, 12, 4], [1, 1, 1, 1], [0, 0, 0, 0], [-8, 1, 0, -2]] {
        let (num, d) = forward_dd_2d(&r);
        assert_eq!(d, 4);
        let num16: [i16; 4] = num.map(|x| x as i16);
        let got = inverse_dd_2d(&num16);
        for i in 0..4 {
            assert_eq!(got[i], r[i] * 4, "residual {i}");
        }
    }
}

#[test]
fn dd1d_forward_inverse_exact() {
    for r in [[1i16, 2, 3, 4], [5, -3, 2, 9], [0, 0, 0, 0], [-8, 1, 0, -2]] {
        let (num, d) = forward_dd_1d(&r);
        assert_eq!(d, 4);
        let num16: [i16; 4] = num.map(|x| x as i16);
        let got = inverse_dd_1d(&num16);
        for i in 0..4 {
            assert_eq!(got[i], r[i] * 4, "residual {i}");
        }
    }
}

#[test]
fn dds2d_forward_inverse_exact() {
    let r: [i16; 16] = [1, 2, 3, 4, 5, 6, 7, 8, 9, 10, 11, 12, 13, 14, 15, 16];
    let (num, d) = forward_dds_2d(&r);
    assert_eq!(d, 16);
    let num16: [i16; 16] = num.map(|x| x as i16);
    let got = inverse_dds_2d(&num16);
    for i in 0..16 {
        assert_eq!(got[i], r[i] * 16, "residual {i}");
    }
}

#[test]
fn dds1d_forward_inverse_exact() {
    let r: [i16; 16] = [1, 2, 3, 4, 5, 6, 7, 8, 9, 10, 11, 12, 13, 14, 15, 16];
    let (num, d) = forward_dds_1d(&r);
    assert_eq!(d, 16);
    let num16: [i16; 16] = num.map(|x| x as i16);
    let got = inverse_dds_1d(&num16);
    for i in 0..16 {
        assert_eq!(got[i], r[i] * 16, "residual {i}");
    }
}

#[test]
fn residual_layout_roundtrip() {
    for size in [2usize, 4] {
        for y in 0..size {
            for x in 0..size {
                let i = residual_index(size, x, y);
                assert!(i < size * size);
                assert_eq!(residual_position(size, i), (x, y));
            }
        }
    }
}

#[test]
fn dds_1d_matrix_matches_decoder_mapping() {
    // c = [8,0,...]: group 0 = [8,0,0,0]: a0 = 8, h0 = v0 = d0 = 8,
    // groups 1..3 zero: a = [8,0,0,0], h = v = d = [8,0,0,0].
    // residuals[0..3] (a-quadrant) = a0+a1+a3, a0-a1-a3, a1+a2-a3,
    // a2-a1+a3 = [8, 8, 0, 0].
    let mut c = [0i16; 16];
    c[0] = 8;
    let r = inverse_dds_1d(&c);
    assert_eq!(&r[0..4], &[8, 8, 0, 0]);
    // h-quadrant = [8, 8, 0, 0] too (h0 = 8).
    assert_eq!(&r[4..8], &[8, 8, 0, 0]);
}

#[test]
fn inverse_saturates() {
    assert_eq!(sat16(40000), 32767);
    assert_eq!(sat16(-40000), -32768);
    assert_eq!(inverse_dd_2d(&[32767, 32767, 0, 0])[0], 32767);
}

#[test]
fn a_transform_applies_its_kind() {
    let t = ForwardTransform::new(0, false);
    assert_eq!(t.layers(), 4);
    let (num, d) = t.apply(&[3, -7, 12, 4]);
    assert_eq!(d, 4);
    assert_eq!(num, forward_dd_2d(&[3, -7, 12, 4]).0.to_vec());
    let t = ForwardTransform::new(1, true);
    assert_eq!(t.layers(), 16);
    let mut c = [0i16; 16];
    c[0] = 8;
    assert_eq!(t.inverse(&c), inverse_dds_1d(&c).to_vec());
}
