//! Configuration blocks are read back as they were written.
use crate::bitstream;
use crate::config;
use crate::config::{LcevcConfig, TileDimensions, RESOLUTION_CUSTOM};
use crate::decoder;
use crate::decoder::PictureModel;
use crate::payload;
use crate::resolution;
use vstd::prelude::*;

verus! {

/// A number at the end of a bit string that stands at the start of others.
proof fn peel_bits(bits: Seq<bool>, a: Seq<bool>, v: nat, n: nat)
    requires
        bitstream::has_at(bits, 0, a + bitstream::bits_of(v, n)),
        v < bitstream::two_pow(n),
    ensures
        bitstream::has_at(bits, 0, a),
        decoder::field(bits, a.len() as int, n as int) == v,
        (a + bitstream::bits_of(v, n)).len() == a.len() + n,
{
    bitstream::lemma_has_at_concat(bits, 0, a, bitstream::bits_of(v, n));
    bitstream::law_bits_roundtrip(v, n);
}

/// A bit at the end of a bit string that stands at the start of others.
proof fn peel_bit(bits: Seq<bool>, a: Seq<bool>, b: bool)
    requires
        bitstream::has_at(bits, 0, a.push(b)),
    ensures
        bitstream::has_at(bits, 0, a),
        bits[a.len() as int] == b,
{
    let n = a.len() as int;
    assert(a.push(b) =~= a + seq![b]);
    bitstream::lemma_has_at_concat(bits, 0, a, seq![b]);
    assert(bits.subrange(n, n + 1)[0] == b);
}

/// The fixed part of a picture configuration, read back.
proof fn lemma_picture_head(b: Seq<bool>, sw1: u32, sw2: u32, refresh: bool)
    requires
        bitstream::has_at(b, 0, payload::picture_head_bits(sw1, sw2, refresh)),
    ensures
        payload::picture_head_bits(sw1, sw2, refresh).len() == 40,
        !b[0],
        decoder::field(b, 1, 3) == 5,
        b[6] == refresh,
        b[7],
        decoder::field(b, 8, 15) == payload::step_code(sw2),
        decoder::field(b, 24, 15) == payload::step_code(sw1),
{
    bitstream::lemma_two_pow_values();
    bitstream::lemma_bits_of_len(5, 3);
    bitstream::lemma_bits_of_len(payload::step_code(sw2), 15);
    bitstream::lemma_bits_of_len(payload::step_code(sw1), 15);
    let s0 = Seq::<bool>::empty();
    let s1 = s0.push(false);
    let s2 = s1 + bitstream::bits_of(5, 3);
    let s3 = s2.push(false);
    let s4 = s3.push(false);
    let s5 = s4.push(refresh);
    let s6 = s5.push(true);
    let s7 = s6 + bitstream::bits_of(payload::step_code(sw2), 15);
    let s8 = s7.push(false);
    let s9 = s8 + bitstream::bits_of(payload::step_code(sw1), 15);
    peel_bit(b, s9, false);
    peel_bits(b, s8, payload::step_code(sw1), 15);
    peel_bit(b, s7, false);
    peel_bits(b, s6, payload::step_code(sw2), 15);
    peel_bit(b, s5, true);
    peel_bit(b, s4, refresh);
    peel_bit(b, s3, false);
    peel_bit(b, s2, false);
    peel_bits(b, s1, 5, 3);
    peel_bit(b, s0, false);
}

/// The bytes of a picture configuration: the five of its head, and both matrices.
proof fn lemma_picture_bytes(head: Seq<bool>, matrix0: Seq<u8>, matrix1: Seq<u8>)
    requires
        head.len() == 40,
    ensures
        ({
            let data = bitstream::pack(
                payload::with_bytes(payload::with_bytes(head, matrix0), matrix1),
            );
            let n = matrix0.len() as int;
            &&& data.len() == 5 + n + matrix1.len()
            &&& bitstream::has_at(bitstream::bytes_bits(data), 0, head)
            &&& data.subrange(5, 5 + n) == matrix0
            &&& data.subrange(5 + n, 5 + n + matrix1.len()) == matrix1
        }),
{
    let bits = payload::with_bytes(payload::with_bytes(head, matrix0), matrix1);
    let data = bitstream::pack(bits);
    let b = bitstream::bytes_bits(data);
    let n = matrix0.len() as int;
    bitstream::lemma_pack(bits);
    assert(bits.len() == 40 + 8 * n + 8 * matrix1.len());
    assert(bitstream::padding(bits.len()) =~= Seq::empty());
    assert(b =~= bits);
    assert(b.subrange(0, 40) =~= head);
    let h = bitstream::pack(head);
    bitstream::lemma_pack(head);
    assert(bitstream::padding(head.len()) =~= Seq::empty());
    assert(bitstream::bytes_bits(h) =~= head);
    bitstream::lemma_bytes_bits_add(h, matrix0);
    bitstream::lemma_bytes_bits_add(h + matrix0, matrix1);
    bitstream::lemma_bytes_bits_injective(data, h + matrix0 + matrix1);
    assert(data.subrange(5, 5 + n) =~= matrix0);
    assert(data.subrange(5 + n, 5 + n + matrix1.len()) =~= matrix1);
}

/// A picture configuration block is read back as it was written: refresh flag, step widths up to
/// the largest that fits fifteen bits, and both matrices.
pub proof fn law_picture_config_roundtrip(
    c: LcevcConfig,
    sw1: u32,
    sw2: u32,
    refresh: bool,
    matrix0: Seq<u8>,
    matrix1: Seq<u8>,
)
    requires
        matrix0.len() == config::layers_of(c.transform),
        matrix1.len() == config::layers_of(c.transform),
    ensures
        decoder::parsed_picture(
            bitstream::pack(payload::picture_config_bits(sw1, sw2, refresh, matrix0, matrix1)),
            c,
        ) == Ok::<PictureModel, Seq<char>>(
            PictureModel {
                enabled: true,
                refresh,
                signalling: c.temporal_enabled && !refresh,
                step_l1: payload::step_code(sw1) as u32,
                step_l2: payload::step_code(sw2) as u32,
                matrices: Some((matrix0, matrix1)),
            },
        ),
{
    let n = config::layers_of(c.transform) as int;
    let data = bitstream::pack(payload::picture_config_bits(sw1, sw2, refresh, matrix0, matrix1));
    let b = bitstream::bytes_bits(data);
    let head = payload::picture_head_bits(sw1, sw2, refresh);
    assert(head.subrange(0, head.len() as int) =~= head);
    lemma_picture_head(head, sw1, sw2, refresh);
    lemma_picture_bytes(head, matrix0, matrix1);
    lemma_picture_head(b, sw1, sw2, refresh);
    assert(decoder::picture_config_len(b, n) == 5 + 2 * n);
}

/// Configurations that a global configuration block can carry to a reader: the numbers fit
/// their fields (depths of 8, 10, 12 or 14 bits among them), custom tiles have a size, and the
/// picture is not 0x0, for which the table of resolutions has a reserved type.
pub open spec fn carried_globally(c: LcevcConfig) -> bool {
    &&& (c.base_depth == 8 || c.base_depth == 10 || c.base_depth == 12 || c.base_depth == 14)
    &&& (c.enhancement_depth == 8 || c.enhancement_depth == 10 || c.enhancement_depth == 12
        || c.enhancement_depth == 14)
    &&& c.user_data < 4
    &&& c.level1_filtering_signalled ==> c.level1_filtering_first_coefficient < 16
        && c.level1_filtering_second_coefficient < 16
    &&& c.tile_dimensions == TileDimensions::Custom ==> c.custom_tile_size is Some
    &&& c.tile_dimensions != TileDimensions::Untiled ==> c.tile_size_compression < 4
    &&& !(c.width == 0 && c.height == 0)
}

/// What a reader that starts from the configuration `d` has after the global configuration of
/// `c`.
pub open spec fn carried(c: LcevcConfig, d: LcevcConfig) -> LcevcConfig {
    let filtered = c.level1_filtering_signalled;
    let tiled = c.tile_dimensions != TileDimensions::Untiled;
    LcevcConfig {
        width: c.width,
        height: c.height,
        chroma: c.chroma,
        base_depth: c.base_depth,
        enhancement_depth: c.enhancement_depth,
        transform: c.transform,
        upsampler: c.upsampler,
        scaling_l1: c.scaling_l1,
        scaling_l2: c.scaling_l2,
        tile_dimensions: c.tile_dimensions,
        custom_tile_size: if c.tile_dimensions == TileDimensions::Custom {
            c.custom_tile_size
        } else {
            d.custom_tile_size
        },
        per_tile_entropy_compression: if tiled {
            c.per_tile_entropy_compression
        } else {
            d.per_tile_entropy_compression
        },
        tile_size_compression: if tiled {
            c.tile_size_compression
        } else {
            d.tile_size_compression
        },
        predicted_average: c.predicted_average,
        temporal_enabled: c.temporal_enabled,
        temporal_tile_intra_signalling: c.temporal_tile_intra_signalling,
        temporal_step_width_modifier: c.temporal_step_width_modifier,
        chroma_step_width_multiplier: c.chroma_step_width_multiplier,
        user_data: c.user_data,
        loq1_use_enhanced_depth: c.loq1_use_enhanced_depth,
        level1_filtering_signalled: c.level1_filtering_signalled,
        level1_filtering_first_coefficient: if filtered {
            c.level1_filtering_first_coefficient
        } else {
            d.level1_filtering_first_coefficient
        },
        level1_filtering_second_coefficient: if filtered {
            c.level1_filtering_second_coefficient
        } else {
            d.level1_filtering_second_coefficient
        },
        ..d
    }
}

/// What a reader has after the first four bytes.
#[verifier::opaque]
spec fn head_carried(c: LcevcConfig, d: LcevcConfig) -> LcevcConfig {
    LcevcConfig {
        width: d.width,
        height: d.height,
        custom_tile_size: d.custom_tile_size,
        per_tile_entropy_compression: d.per_tile_entropy_compression,
        tile_size_compression: d.tile_size_compression,
        temporal_step_width_modifier: d.temporal_step_width_modifier,
        chroma_step_width_multiplier: d.chroma_step_width_multiplier,
        level1_filtering_first_coefficient: d.level1_filtering_first_coefficient,
        level1_filtering_second_coefficient: d.level1_filtering_second_coefficient,
        ..carried(c, d)
    }
}

/// The first two bytes of a global configuration, read back.
proof fn lemma_first_bytes(b: Seq<bool>, c: LcevcConfig)
    requires
        bitstream::has_at(b, 0, config::picture_bits(c)),
        carried_globally(c),
    ensures
        config::picture_bits(c).len() == 16,
        b[0] == (config::planes_of(c.chroma) == 3),
        decoder::field(b, 1, 6) == config::resolution_code(c.width, c.height),
        b[7] == (config::transform_code(c.transform) == 1),
        decoder::field(b, 8, 2) == config::chroma_code(c.chroma),
        decoder::field(b, 10, 2) == c.base_depth / 2 - 4,
        decoder::field(b, 12, 2) == c.enhancement_depth / 2 - 4,
        b[14] == (c.temporal_step_width_modifier != 48),
        b[15] == c.predicted_average,
{
    bitstream::lemma_two_pow_values();
    lemma_resolution_type(c.width, c.height, 1);
    let code = config::resolution_code(c.width, c.height) as nat;
    let t = config::transform_code(c.transform);
    let ch = config::chroma_code(c.chroma);
    let bd = (c.base_depth / 2 - 4) as nat;
    let ed = (c.enhancement_depth / 2 - 4) as nat;
    bitstream::lemma_bits_of_len(code, 6);
    bitstream::lemma_bits_of_len(t, 1);
    bitstream::lemma_bits_of_len(ch, 2);
    bitstream::lemma_bits_of_len(bd, 2);
    bitstream::lemma_bits_of_len(ed, 2);
    let s0 = Seq::<bool>::empty();
    let s1 = s0.push(config::planes_of(c.chroma) == 3);
    let s2 = s1 + bitstream::bits_of(code, 6);
    let s3 = s2 + bitstream::bits_of(t, 1);
    let s4 = s3 + bitstream::bits_of(ch, 2);
    let s5 = s4 + bitstream::bits_of(bd, 2);
    let s6 = s5 + bitstream::bits_of(ed, 2);
    let s7 = s6.push(c.temporal_step_width_modifier != 48);
    peel_bit(b, s7, c.predicted_average);
    peel_bit(b, s6, c.temporal_step_width_modifier != 48);
    peel_bits(b, s5, ed, 2);
    peel_bits(b, s4, bd, 2);
    peel_bits(b, s3, ch, 2);
    peel_bits(b, s2, t, 1);
    peel_bits(b, s1, code, 6);
    peel_bit(b, s0, config::planes_of(c.chroma) == 3);
    let one = b.subrange(7, 8);
    assert(one.drop_last() =~= Seq::empty());
    assert(bitstream::bits_value(one.drop_last()) == 0);
    assert(one.last() == b[7]);
}

/// The third and fourth byte of a global configuration, read back after the first two.
proof fn lemma_next_bytes(b: Seq<bool>, s0: Seq<bool>, c: LcevcConfig)
    requires
        s0.len() == 16,
        c.user_data < 4,
        ({
            let s = s0;
            let s = s.push(c.temporal_tile_intra_signalling);
            let s = s.push(c.temporal_enabled);
            let s = s + bitstream::bits_of(config::upsample_code(c.upsampler), 3);
            let s = s.push(c.level1_filtering_signalled);
            let s = s + bitstream::bits_of(config::scaling_code(c.scaling_l1), 2);
            let s = s + bitstream::bits_of(config::scaling_code(c.scaling_l2), 2);
            let s = s + bitstream::bits_of(config::tile_code(c.tile_dimensions), 2);
            let s = s + bitstream::bits_of(c.user_data as nat, 2);
            let s = s.push(c.loq1_use_enhanced_depth);
            let s = s.push(c.chroma_step_width_multiplier != 64);
            bitstream::has_at(b, 0, s)
        }),
    ensures
        bitstream::has_at(b, 0, s0),
        b.len() >= 32,
        b[16] == c.temporal_tile_intra_signalling,
        b[17] == c.temporal_enabled,
        decoder::field(b, 18, 3) == config::upsample_code(c.upsampler),
        b[21] == c.level1_filtering_signalled,
        decoder::field(b, 22, 2) == config::scaling_code(c.scaling_l1),
        decoder::field(b, 24, 2) == config::scaling_code(c.scaling_l2),
        decoder::field(b, 26, 2) == config::tile_code(c.tile_dimensions),
        decoder::field(b, 28, 2) == c.user_data,
        b[30] == c.loq1_use_enhanced_depth,
        b[31] == (c.chroma_step_width_multiplier != 64),
{
    bitstream::lemma_two_pow_values();
    let up = config::upsample_code(c.upsampler);
    let l1 = config::scaling_code(c.scaling_l1);
    let l2 = config::scaling_code(c.scaling_l2);
    let tile = config::tile_code(c.tile_dimensions);
    let user = c.user_data as nat;
    bitstream::lemma_bits_of_len(up, 3);
    bitstream::lemma_bits_of_len(l1, 2);
    bitstream::lemma_bits_of_len(l2, 2);
    bitstream::lemma_bits_of_len(tile, 2);
    bitstream::lemma_bits_of_len(user, 2);
    let s1 = s0.push(c.temporal_tile_intra_signalling);
    let s2 = s1.push(c.temporal_enabled);
    let s3 = s2 + bitstream::bits_of(up, 3);
    let s4 = s3.push(c.level1_filtering_signalled);
    let s5 = s4 + bitstream::bits_of(l1, 2);
    let s6 = s5 + bitstream::bits_of(l2, 2);
    let s7 = s6 + bitstream::bits_of(tile, 2);
    let s8 = s7 + bitstream::bits_of(user, 2);
    let s9 = s8.push(c.loq1_use_enhanced_depth);
    peel_bit(b, s9, c.chroma_step_width_multiplier != 64);
    peel_bit(b, s8, c.loq1_use_enhanced_depth);
    peel_bits(b, s7, user, 2);
    peel_bits(b, s6, tile, 2);
    peel_bits(b, s5, l2, 2);
    peel_bits(b, s4, l1, 2);
    peel_bit(b, s3, c.level1_filtering_signalled);
    peel_bits(b, s2, up, 3);
    peel_bit(b, s1, c.temporal_enabled);
    peel_bit(b, s0, c.temporal_tile_intra_signalling);
}

/// Length of the first two bytes.
proof fn lemma_first_len(c: LcevcConfig)
    ensures
        config::picture_bits(c).len() == 16,
{
    let code = config::resolution_code(c.width, c.height) as nat;
    bitstream::lemma_bits_of_len(code, 6);
    bitstream::lemma_bits_of_len(config::transform_code(c.transform), 1);
    bitstream::lemma_bits_of_len(config::chroma_code(c.chroma), 2);
    bitstream::lemma_bits_of_len((c.base_depth / 2 - 4) as nat, 2);
    bitstream::lemma_bits_of_len((c.enhancement_depth / 2 - 4) as nat, 2);
}

/// Length of the first four bytes.
proof fn lemma_head_len(c: LcevcConfig)
    ensures
        config::global_head_bits(c).len() == 32,
{
    lemma_first_len(c);
    bitstream::lemma_bits_of_len(config::upsample_code(c.upsampler), 3);
    bitstream::lemma_bits_of_len(config::scaling_code(c.scaling_l1), 2);
    bitstream::lemma_bits_of_len(config::scaling_code(c.scaling_l2), 2);
    bitstream::lemma_bits_of_len(config::tile_code(c.tile_dimensions), 2);
    bitstream::lemma_bits_of_len(c.user_data as nat, 2);
}

/// The fields of the first four bytes say what the configuration says.
proof fn lemma_head_fields(b: Seq<bool>, c: LcevcConfig, d: LcevcConfig)
    requires
        carried_globally(c),
        b[7] == (config::transform_code(c.transform) == 1),
        decoder::field(b, 8, 2) == config::chroma_code(c.chroma),
        decoder::field(b, 10, 2) == c.base_depth / 2 - 4,
        decoder::field(b, 12, 2) == c.enhancement_depth / 2 - 4,
        b[15] == c.predicted_average,
        b[16] == c.temporal_tile_intra_signalling,
        b[17] == c.temporal_enabled,
        decoder::field(b, 18, 3) == config::upsample_code(c.upsampler),
        b[21] == c.level1_filtering_signalled,
        decoder::field(b, 22, 2) == config::scaling_code(c.scaling_l1),
        decoder::field(b, 24, 2) == config::scaling_code(c.scaling_l2),
        decoder::field(b, 26, 2) == config::tile_code(c.tile_dimensions),
        decoder::field(b, 28, 2) == c.user_data,
        b[30] == c.loq1_use_enhanced_depth,
    ensures
        decoder::with_head(d, b) == head_carried(c, d),
{
    reveal(decoder::with_head);
    reveal(head_carried);
}

/// The first four bytes of a global configuration, read back.
proof fn lemma_head(b: Seq<bool>, c: LcevcConfig, d: LcevcConfig)
    requires
        bitstream::has_at(b, 0, config::global_head_bits(c)),
        carried_globally(c),
    ensures
        b.len() >= 32,
        decoder::field(b, 1, 6) == config::resolution_code(c.width, c.height),
        b[0] == (config::planes_of(c.chroma) == 3),
        b[14] == (c.temporal_step_width_modifier != 48),
        b[21] == c.level1_filtering_signalled,
        decoder::tiling_from(decoder::field(b, 26, 2)) == c.tile_dimensions,
        b[31] == (c.chroma_step_width_multiplier != 64),
        decoder::with_head(d, b) == head_carried(c, d),
{
    lemma_first_len(c);
    lemma_next_bytes(b, config::picture_bits(c), c);
    lemma_first_bytes(b, c);
    lemma_head_fields(b, c, d);
}

/// Every size has a resolution type.
proof fn lemma_resolution_type(w: u16, h: u16, i: int)
    requires
        1 <= i <= 63,
        forall|k: int| 1 <= k < i ==> #[trigger] resolution::standard_size(k) != (w, h),
    ensures
        config::is_resolution_type(w, h, config::resolution_code(w, h)),
    decreases 63 - i,
{
    if i == 63 {
        assert(config::is_resolution_type(w, h, 63));
    } else if resolution::standard_size(i) == (w, h) {
        assert(config::is_resolution_type(w, h, i));
    } else {
        lemma_resolution_type(w, h, i + 1);
    }
}

/// The bytes between the head and the resolution of a global configuration.
spec fn step_bits(c: LcevcConfig) -> Seq<bool> {
    let s = config::global_head_bits(c);
    let s = if config::planes_of(c.chroma) == 3 {
        s + bitstream::bits_of(1, 4) + bitstream::bits_of(0, 4)
    } else {
        s
    };
    if c.temporal_step_width_modifier != 48 {
        s + bitstream::bits_of(c.temporal_step_width_modifier as nat, 8)
    } else {
        s
    }
}

/// The optional bytes of a global configuration, read back.
proof fn lemma_steps(b: Seq<bool>, c: LcevcConfig, at: int)
    requires
        bitstream::has_at(b, 0, step_bits(c)),
        carried_globally(c),
        at == 32 + (if config::planes_of(c.chroma) == 3 {
            8int
        } else {
            0int
        }),
    ensures
        bitstream::has_at(b, 0, config::global_head_bits(c)),
        step_bits(c).len() == at + (if c.temporal_step_width_modifier != 48 {
            8int
        } else {
            0int
        }),
        c.temporal_step_width_modifier != 48 ==> decoder::field(b, at, 8)
            == c.temporal_step_width_modifier,
{
    bitstream::lemma_two_pow_values();
    bitstream::lemma_bits_of_len(1, 4);
    bitstream::lemma_bits_of_len(0, 4);
    bitstream::lemma_bits_of_len(c.temporal_step_width_modifier as nat, 8);
    lemma_head_len(c);
    let s0 = config::global_head_bits(c);
    let s1 = s0 + bitstream::bits_of(1, 4);
    let s2 = if config::planes_of(c.chroma) == 3 {
        s1 + bitstream::bits_of(0, 4)
    } else {
        s0
    };
    if c.temporal_step_width_modifier != 48 {
        peel_bits(b, s2, c.temporal_step_width_modifier as nat, 8);
    }
    if config::planes_of(c.chroma) == 3 {
        peel_bits(b, s1, 0, 4);
        peel_bits(b, s0, 1, 4);
    }
}

/// The bits of a global configuration up to the L1 filter.
spec fn filter_bits(c: LcevcConfig) -> Seq<bool> {
    let s = step_bits(c);
    if c.level1_filtering_signalled {
        s + bitstream::bits_of(c.level1_filtering_first_coefficient as nat, 4) + bitstream::bits_of(
            c.level1_filtering_second_coefficient as nat,
            4,
        )
    } else {
        s
    }
}

/// The bits of a global configuration up to the size of custom tiles.
spec fn tile_size_bits(c: LcevcConfig) -> Seq<bool> {
    let s = filter_bits(c);
    if c.tile_dimensions == TileDimensions::Custom {
        s + bitstream::bits_of((c.custom_tile_size->0).0 as nat, 16) + bitstream::bits_of(
            (c.custom_tile_size->0).1 as nat,
            16,
        )
    } else {
        s
    }
}

/// The bits of a global configuration up to the tiling parameters.
spec fn tile_bits(c: LcevcConfig) -> Seq<bool> {
    let s = tile_size_bits(c);
    if c.tile_dimensions != TileDimensions::Untiled {
        (s + bitstream::bits_of(0, 5)).push(c.per_tile_entropy_compression) + bitstream::bits_of(
            c.tile_size_compression as nat,
            2,
        )
    } else {
        s
    }
}

/// The bits of a global configuration up to a custom resolution.
spec fn size_bits(c: LcevcConfig) -> Seq<bool> {
    let s = tile_bits(c);
    if config::resolution_code(c.width, c.height) == RESOLUTION_CUSTOM {
        s + bitstream::bits_of(c.width as nat, 16) + bitstream::bits_of(c.height as nat, 16)
    } else {
        s
    }
}

/// The L1 filter, read back.
proof fn lemma_filter(b: Seq<bool>, c: LcevcConfig)
    requires
        bitstream::has_at(b, 0, filter_bits(c)),
        carried_globally(c),
    ensures
        bitstream::has_at(b, 0, step_bits(c)),
        filter_bits(c).len() == step_bits(c).len() + (if c.level1_filtering_signalled {
            8int
        } else {
            0int
        }),
        c.level1_filtering_signalled ==> decoder::field(b, step_bits(c).len() as int, 4)
            == c.level1_filtering_first_coefficient && decoder::field(
            b,
            step_bits(c).len() as int + 4,
            4,
        ) == c.level1_filtering_second_coefficient,
{
    bitstream::lemma_two_pow_values();
    if c.level1_filtering_signalled {
        let first = c.level1_filtering_first_coefficient as nat;
        let second = c.level1_filtering_second_coefficient as nat;
        bitstream::lemma_bits_of_len(first, 4);
        bitstream::lemma_bits_of_len(second, 4);
        peel_bits(b, step_bits(c) + bitstream::bits_of(first, 4), second, 4);
        peel_bits(b, step_bits(c), first, 4);
    }
}

/// The size of custom tiles, read back.
proof fn lemma_tile_size(b: Seq<bool>, c: LcevcConfig)
    requires
        bitstream::has_at(b, 0, tile_size_bits(c)),
        carried_globally(c),
    ensures
        bitstream::has_at(b, 0, filter_bits(c)),
        tile_size_bits(c).len() == filter_bits(c).len() + (if c.tile_dimensions
            == TileDimensions::Custom {
            32int
        } else {
            0int
        }),
        c.tile_dimensions == TileDimensions::Custom ==> decoder::field(
            b,
            filter_bits(c).len() as int,
            16,
        ) == (c.custom_tile_size->0).0 && decoder::field(b, filter_bits(c).len() as int + 16, 16) == (
        c.custom_tile_size->0).1,
{
    bitstream::lemma_two_pow_values();
    if c.tile_dimensions == TileDimensions::Custom {
        let w = (c.custom_tile_size->0).0 as nat;
        let h = (c.custom_tile_size->0).1 as nat;
        bitstream::lemma_bits_of_len(w, 16);
        bitstream::lemma_bits_of_len(h, 16);
        peel_bits(b, filter_bits(c) + bitstream::bits_of(w, 16), h, 16);
        peel_bits(b, filter_bits(c), w, 16);
    }
}

/// The tiling parameters, read back.
proof fn lemma_tiles(b: Seq<bool>, c: LcevcConfig)
    requires
        bitstream::has_at(b, 0, tile_bits(c)),
        carried_globally(c),
    ensures
        bitstream::has_at(b, 0, tile_size_bits(c)),
        tile_bits(c).len() == tile_size_bits(c).len() + (if c.tile_dimensions
            != TileDimensions::Untiled {
            8int
        } else {
            0int
        }),
        c.tile_dimensions != TileDimensions::Untiled ==> b[tile_size_bits(c).len() as int + 5]
            == c.per_tile_entropy_compression && decoder::field(b, tile_size_bits(c).len() as int + 6, 2)
            == c.tile_size_compression,
{
    bitstream::lemma_two_pow_values();
    if c.tile_dimensions != TileDimensions::Untiled {
        let s0 = tile_size_bits(c);
        let s1 = s0 + bitstream::bits_of(0, 5);
        let compression = c.tile_size_compression as nat;
        bitstream::lemma_bits_of_len(0, 5);
        bitstream::lemma_bits_of_len(compression, 2);
        peel_bits(b, s1.push(c.per_tile_entropy_compression), compression, 2);
        peel_bit(b, s1, c.per_tile_entropy_compression);
        peel_bits(b, s0, 0, 5);
    }
}

/// A custom resolution, read back.
proof fn lemma_size(b: Seq<bool>, c: LcevcConfig)
    requires
        bitstream::has_at(b, 0, size_bits(c)),
    ensures
        bitstream::has_at(b, 0, tile_bits(c)),
        ({
            let at = tile_bits(c).len() as int;
            if config::resolution_code(c.width, c.height) == RESOLUTION_CUSTOM {
                &&& size_bits(c).len() == at + 32
                &&& b.len() >= at + 32
                &&& decoder::field(b, at, 16) == c.width
                &&& decoder::field(b, at + 16, 16) == c.height
            } else {
                size_bits(c).len() == at
            }
        }),
{
    bitstream::lemma_two_pow_values();
    if config::resolution_code(c.width, c.height) == RESOLUTION_CUSTOM {
        let w = c.width as nat;
        let h = c.height as nat;
        bitstream::lemma_bits_of_len(w, 16);
        bitstream::lemma_bits_of_len(h, 16);
        peel_bits(b, tile_bits(c) + bitstream::bits_of(w, 16), h, 16);
        peel_bits(b, tile_bits(c), w, 16);
    }
}

/// The chroma step width multiplier, read back.
proof fn lemma_multiplier(b: Seq<bool>, c: LcevcConfig)
    requires
        bitstream::has_at(b, 0, config::global_bits(c)),
    ensures
        bitstream::has_at(b, 0, size_bits(c)),
        c.chroma_step_width_multiplier != 64 ==> b.len() >= size_bits(c).len() + 8
            && decoder::field(b, size_bits(c).len() as int, 8) == c.chroma_step_width_multiplier,
{
    bitstream::lemma_two_pow_values();
    let mult = c.chroma_step_width_multiplier as nat;
    if mult != 64 {
        bitstream::lemma_bits_of_len(mult, 8);
        assert(config::global_bits(c) == size_bits(c) + bitstream::bits_of(mult, 8));
        peel_bits(b, size_bits(c), mult, 8);
    } else {
        assert(config::global_bits(c) == size_bits(c));
    }
}

/// Where the parts of a global configuration stand, read back.
proof fn lemma_layout(b: Seq<bool>, c: LcevcConfig, d: LcevcConfig)
    requires
        bitstream::has_at(b, 0, config::global_bits(c)),
        carried_globally(c),
    ensures
        b.len() >= 32,
        b.len() >= decoder::resolution_at(b),
        decoder::field(b, 1, 6) == config::resolution_code(c.width, c.height),
        decoder::with_head(d, b) == head_carried(c, d),
        modes_found(b, c),
        tiles_found(b, c),
        config::resolution_code(c.width, c.height) == RESOLUTION_CUSTOM ==> b.len()
            >= decoder::resolution_at(b) + 32 && decoder::field(b, decoder::resolution_at(b), 16)
            == c.width && decoder::field(b, decoder::resolution_at(b) + 16, 16) == c.height,
        b[31] == (c.chroma_step_width_multiplier != 64),
        b[31] ==> b.len() >= decoder::multiplier_at(b) + 8 && decoder::field(
            b,
            decoder::multiplier_at(b),
            8,
        ) == c.chroma_step_width_multiplier,
{
    lemma_multiplier(b, c);
    lemma_size(b, c);
    lemma_tiles(b, c);
    lemma_tile_size(b, c);
    lemma_filter(b, c);
    let at: int = 32 + (if config::planes_of(c.chroma) == 3 {
        8int
    } else {
        0int
    });
    lemma_steps(b, c, at);
    lemma_head(b, c, d);
    assert(decoder::filter_at(b) == step_bits(c).len());
    assert(decoder::tiles_at(b) == filter_bits(c).len());
    assert(decoder::resolution_at(b) == tile_bits(c).len());
    assert(decoder::multiplier_at(b) == size_bits(c).len());
    reveal(modes_found);
    reveal(tiles_found);
}

/// A global configuration block is read back as it was written, where a reader starts from the
/// step widths that go without saying.
pub proof fn law_global_config_roundtrip(c: LcevcConfig, d: LcevcConfig)
    requires
        carried_globally(c),
        c.temporal_step_width_modifier == 48 ==> d.temporal_step_width_modifier == 48,
        c.chroma_step_width_multiplier == 64 ==> d.chroma_step_width_multiplier == 64,
    ensures
        decoder::parsed_global(d, bitstream::pack(config::global_bits(c))) == Ok::<
            LcevcConfig,
            Seq<char>,
        >(carried(c, d)),
{
    let bits = config::global_bits(c);
    let b = bitstream::bytes_bits(bitstream::pack(bits));
    bitstream::lemma_pack(bits);
    assert(b.subrange(0, bits.len() as int) =~= bits);
    lemma_resolution_type(c.width, c.height, 1);
    lemma_layout(b, c, d);
    lemma_with_modes(b, c, d);
    lemma_with_tiles(b, c, d);
    lemma_with_resolution(b, c, d, decoder::resolution_at(b));
    lemma_with_multiplier(b, c, d);
}

/// The temporal step width modifier and the L1 filter stand in a global configuration.
#[verifier::opaque]
spec fn modes_found(b: Seq<bool>, c: LcevcConfig) -> bool {
    &&& b[14] == (c.temporal_step_width_modifier != 48)
    &&& b[14] ==> decoder::field(b, decoder::filter_at(b) - 8, 8) == c.temporal_step_width_modifier
    &&& b[21] == c.level1_filtering_signalled
    &&& b[21] ==> decoder::field(b, decoder::filter_at(b), 4)
        == c.level1_filtering_first_coefficient && decoder::field(b, decoder::filter_at(b) + 4, 4)
        == c.level1_filtering_second_coefficient
}

/// The tiling parameters stand in a global configuration.
#[verifier::opaque]
spec fn tiles_found(b: Seq<bool>, c: LcevcConfig) -> bool {
    &&& decoder::tiling_from(decoder::field(b, 26, 2)) == c.tile_dimensions
    &&& c.tile_dimensions == TileDimensions::Custom ==> decoder::field(b, decoder::tiles_at(b), 16)
        == (c.custom_tile_size->0).0 && decoder::field(b, decoder::tiles_at(b) + 16, 16) == (
    c.custom_tile_size->0).1
    &&& c.tile_dimensions != TileDimensions::Untiled ==> b[decoder::resolution_at(b) - 3]
        == c.per_tile_entropy_compression && decoder::field(b, decoder::resolution_at(b) - 2, 2)
        == c.tile_size_compression
}

/// What a reader has after the L1 filter.
#[verifier::opaque]
spec fn modes_carried(c: LcevcConfig, d: LcevcConfig) -> LcevcConfig {
    LcevcConfig {
        width: d.width,
        height: d.height,
        custom_tile_size: d.custom_tile_size,
        per_tile_entropy_compression: d.per_tile_entropy_compression,
        tile_size_compression: d.tile_size_compression,
        chroma_step_width_multiplier: d.chroma_step_width_multiplier,
        ..carried(c, d)
    }
}

/// The optional bytes bring the temporal step width modifier and the L1 filter.
proof fn lemma_with_modes(b: Seq<bool>, c: LcevcConfig, d: LcevcConfig)
    requires
        c.temporal_step_width_modifier == 48 ==> d.temporal_step_width_modifier == 48,
        modes_found(b, c),
    ensures
        decoder::with_modes(head_carried(c, d), b) == modes_carried(c, d),
{
    reveal(decoder::with_modes);
    reveal(head_carried);
    reveal(modes_carried);
    reveal(modes_found);
}

/// What a reader has after the tiling parameters.
#[verifier::opaque]
spec fn tiles_carried(c: LcevcConfig, d: LcevcConfig) -> LcevcConfig {
    LcevcConfig {
        width: d.width,
        height: d.height,
        chroma_step_width_multiplier: d.chroma_step_width_multiplier,
        ..carried(c, d)
    }
}

/// The tiling parameters complete those of a reader.
proof fn lemma_with_tiles(b: Seq<bool>, c: LcevcConfig, d: LcevcConfig)
    requires
        carried_globally(c),
        tiles_found(b, c),
    ensures
        decoder::with_tiles(modes_carried(c, d), b) == tiles_carried(c, d),
{
    reveal(decoder::with_tiles);
    reveal(modes_carried);
    reveal(tiles_carried);
    reveal(tiles_found);
}

/// What a reader has after the resolution.
#[verifier::opaque]
spec fn size_carried(c: LcevcConfig, d: LcevcConfig) -> LcevcConfig {
    LcevcConfig {
        chroma_step_width_multiplier: d.chroma_step_width_multiplier,
        ..carried(c, d)
    }
}

/// The chroma step width multiplier completes a configuration.
proof fn lemma_with_multiplier(b: Seq<bool>, c: LcevcConfig, d: LcevcConfig)
    requires
        c.chroma_step_width_multiplier == 64 ==> d.chroma_step_width_multiplier == 64,
        b[31] == (c.chroma_step_width_multiplier != 64),
        b[31] ==> b.len() >= decoder::multiplier_at(b) + 8 && decoder::field(
            b,
            decoder::multiplier_at(b),
            8,
        ) == c.chroma_step_width_multiplier,
    ensures
        decoder::with_multiplier(size_carried(c, d), b) == Ok::<LcevcConfig, Seq<char>>(
            carried(c, d),
        ),
{
    reveal(decoder::with_multiplier);
    reveal(size_carried);
}

/// The resolution completes a configuration, save for the chroma step width multiplier.
proof fn lemma_with_resolution(b: Seq<bool>, c: LcevcConfig, d: LcevcConfig, at: int)
    requires
        carried_globally(c),
        config::is_resolution_type(
            c.width,
            c.height,
            config::resolution_code(c.width, c.height),
        ),
        config::resolution_code(c.width, c.height) == RESOLUTION_CUSTOM ==> b.len() >= at + 32
            && decoder::field(b, at, 16) == c.width && decoder::field(b, at + 16, 16) == c.height,
    ensures
        decoder::with_resolution(
            tiles_carried(c, d),
            b,
            config::resolution_code(c.width, c.height) as nat,
            at,
        ) == Ok::<LcevcConfig, Seq<char>>(size_carried(c, d)),
{
    reveal(decoder::with_resolution);
    reveal(tiles_carried);
    reveal(size_carried);
    let code = config::resolution_code(c.width, c.height);
    if 51 <= code < 63 {
        resolution::lemma_reserved(code);
    }
}

/// Configuration blocks are short.
pub proof fn lemma_config_sizes(c: LcevcConfig)
    ensures
        bitstream::pack(config::sequence_bits(c)).len() <= 4,
        bitstream::pack(config::global_bits(c)).len() <= 17,
{
    bitstream::lemma_bits_of_len(c.profile as nat, 4);
    bitstream::lemma_bits_of_len(c.level as nat, 4);
    bitstream::lemma_bits_of_len(c.sublevel as nat, 2);
    bitstream::lemma_bits_of_len(0, 5);
    bitstream::lemma_bits_of_len(0, 3);
    bitstream::lemma_bits_of_len(0, 7);
    bitstream::lemma_pack(config::sequence_bits(c));
    lemma_head_len(c);
    bitstream::lemma_bits_of_len(1, 4);
    bitstream::lemma_bits_of_len(0, 4);
    bitstream::lemma_bits_of_len(c.temporal_step_width_modifier as nat, 8);
    bitstream::lemma_bits_of_len(c.level1_filtering_first_coefficient as nat, 4);
    bitstream::lemma_bits_of_len(c.level1_filtering_second_coefficient as nat, 4);
    bitstream::lemma_bits_of_len((c.custom_tile_size->0).0 as nat, 16);
    bitstream::lemma_bits_of_len((c.custom_tile_size->0).1 as nat, 16);
    bitstream::lemma_bits_of_len(c.tile_size_compression as nat, 2);
    bitstream::lemma_bits_of_len(c.width as nat, 16);
    bitstream::lemma_bits_of_len(c.height as nat, 16);
    bitstream::lemma_bits_of_len(c.chroma_step_width_multiplier as nat, 8);
    bitstream::lemma_pack(config::global_bits(c));
}

} // verus!
