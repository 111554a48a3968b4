//! How settings reach the parts that use them, and where the headers of a stream have them.
use crate::bitstream;
use crate::cli::Settings;
use crate::config;
use crate::config::{ChromaFormat, LcevcConfig};
use crate::encoder;
use crate::encoder::EncoderModel;
use crate::frame::Raster;
use crate::payload;
use crate::picture;
use crate::picture::FrameJob;
use crate::plane;
use crate::plane::PlaneJob;
use crate::session;
use vstd::prelude::*;

verus! {

/// The settings of the command line go into the configuration under their own names, and the
/// level follows from the samples per second.
pub proof fn law_settings_carried(s: Settings)
    ensures
        ({
            let c = session::config_of(s);
            &&& s.width <= 65535 ==> c.width == s.width
            &&& s.height <= 65535 ==> c.height == s.height
            &&& c.base_depth == s.bit_depth && c.enhancement_depth == s.bit_depth
            &&& c.transform == s.transform && c.upsampler == s.upsampler
            &&& c.scaling_l1 == s.scaling_l1 && c.scaling_l2 == s.scaling_l2
            &&& c.tile_dimensions == s.tiles && c.custom_tile_size == s.custom_tile
            &&& c.tile_size_compression == s.tile_size_compression
            &&& c.predicted_average == s.predicted_average
            &&& c.temporal_enabled == s.temporal
            &&& c.temporal_step_width_modifier == s.temporal_sw_modifier
            &&& c.chroma == ChromaFormat::C420 && c.chroma_step_width_multiplier == 64
            &&& c.level <= 1 <==> s.width * s.height * s.fps <= 29_410_000
            &&& c.level <= 2 <==> s.width * s.height * s.fps <= 124_560_000
            &&& c.level <= 3 <==> s.width * s.height * s.fps <= 527_650_000
        }),
{
}

/// A frame is coded with the step widths that were asked for, each for its LOQ, and with the
/// matrices and buffers of the encoder. The buffers are refreshed in the first frame, and in
/// every frame where there is no temporal prediction.
pub proof fn law_job_handed_on(
    m: EncoderModel,
    source: Seq<Raster<u16>>,
    base: Seq<Raster<u16>>,
    sw1: u32,
    sw2: u32,
    p: int,
)
    ensures
        ({
            let j = picture::plane_job(encoder::frame_job(m, source, base, sw1, sw2), p);
            &&& j.config == m.config && j.plane == p
            &&& j.source == source[p] && j.base == base[p] && j.tb == m.tbs[p]
            &&& j.step_l1 == sw1 && j.step_l2 == sw2
            &&& j.matrix0 == m.matrix0 && j.matrix1 == m.matrix1
            &&& j.rdoq == m.rdoq && j.logs == m.logs
            &&& m.frame_index == 0 ==> j.refresh
            &&& !m.config.temporal_enabled ==> j.refresh
            &&& m.frame_index > 0 && m.config.temporal_enabled ==> !j.refresh
        }),
{
}

/// LOQ1 of a plane depends on its own step width and matrix only, and on no temporal buffer. The
/// step widths of LOQ0 do not depend on those of LOQ1. The picture without enhancement depends on
/// the base alone.
pub proof fn law_loqs_apart(j: PlaneJob, k: PlaneJob)
    requires
        j.config == k.config,
        j.plane == k.plane,
        j.refresh == k.refresh,
        j.rdoq == k.rdoq,
        j.logs == k.logs,
    ensures
        j.source == k.source && j.base == k.base && j.step_l1 == k.step_l1 && j.matrix1 == k.matrix1
            ==> plane::loq1_end(j) == plane::loq1_end(k),
        j.step_l2 == k.step_l2 && j.matrix0 == k.matrix0 ==> plane::loq0_model(j).inter
            == plane::loq0_model(k).inter && plane::loq0_model(j).intra == plane::loq0_model(
            k,
        ).intra,
        j.base == k.base ==> plane::base_only(j) == plane::base_only(k) && plane::loq1_model(j).pred
            == plane::loq1_model(k).pred,
{
}

/// The value of some bits of a string.
pub open spec fn bits_at(s: Seq<bool>, from: int, n: int) -> nat {
    bitstream::bits_value(s.subrange(from, from + n))
}

proof fn lemma_field(s: Seq<bool>, from: int, v: nat, n: nat)
    requires
        0 <= from,
        from + n <= s.len(),
        v < bitstream::two_pow(n),
        s.subrange(from, from + n) == bitstream::bits_of(v, n),
    ensures
        bits_at(s, from, n as int) == v,
{
    bitstream::law_bits_roundtrip(v, n);
}

proof fn lemma_small_powers()
    ensures
        bitstream::two_pow(1) == 2,
        bitstream::two_pow(2) == 4,
        bitstream::two_pow(3) == 8,
        bitstream::two_pow(4) == 16,
        bitstream::two_pow(6) == 64,
        bitstream::two_pow(15) == 32768,
{
    reveal_with_fuel(bitstream::two_pow, 16);
}

proof fn lemma_len(v: nat, n: nat)
    ensures
        bitstream::bits_of(v, n).len() == n,
    decreases n,
{
    if n > 0 {
        lemma_len(v / 2, (n - 1) as nat);
    }
}

/// The head of a picture configuration has 40 bits: the mode of its matrices in the three bits
/// from bit 1 on, which is 5, one for each LOQ. Whether the temporal buffer is refreshed is bit 6,
/// and bit 7 says that LOQ1 has a step width of its own. The step width of LOQ0 has the 15 bits
/// from bit 8 on and that of LOQ1 the 15 bits from bit 24 on, each at most 32767.
pub proof fn law_picture_head_read(sw1: u32, sw2: u32, refresh: bool)
    ensures
        ({
            let s = payload::picture_head_bits(sw1, sw2, refresh);
            &&& s.len() == 40
            &&& !s[0] && bits_at(s, 1, 3) == 5 && !s[4] && !s[5]
            &&& s[6] == refresh
            &&& s[7] && !s[23] && !s[39]
            &&& bits_at(s, 8, 15) == (if sw2 < 32767 {
                sw2 as nat
            } else {
                32767
            })
            &&& bits_at(s, 24, 15) == (if sw1 < 32767 {
                sw1 as nat
            } else {
                32767
            })
        }),
{
    let s = payload::picture_head_bits(sw1, sw2, refresh);
    let a = payload::step_code(sw2);
    let b = payload::step_code(sw1);
    lemma_len(5, 3);
    lemma_len(a, 15);
    lemma_len(b, 15);
    lemma_small_powers();
    assert(s.subrange(1, 4) =~= bitstream::bits_of(5, 3));
    lemma_field(s, 1, 5, 3);
    assert(s.subrange(8, 23) =~= bitstream::bits_of(a, 15));
    assert(s.subrange(24, 39) =~= bitstream::bits_of(b, 15));
    lemma_field(s, 8, a, 15);
    lemma_field(s, 24, b, 15);
}

/// The configuration of a sequence begins with the profile and the level, four bits each.
pub proof fn law_sequence_head_read(c: LcevcConfig)
    requires
        c.profile < 16,
        c.level < 16,
    ensures
        bits_at(config::sequence_bits(c), 0, 4) == c.profile,
        bits_at(config::sequence_bits(c), 4, 4) == c.level,
{
    let s = config::sequence_bits(c);
    lemma_len(c.profile as nat, 4);
    lemma_len(c.level as nat, 4);
    lemma_len(c.sublevel as nat, 2);
    lemma_len(0, 5);
    lemma_len(0, 3);
    lemma_len(0, 7);
    lemma_small_powers();
    assert(s.subrange(0, 4) =~= bitstream::bits_of(c.profile as nat, 4));
    assert(s.subrange(4, 8) =~= bitstream::bits_of(c.level as nat, 4));
    lemma_field(s, 0, c.profile as nat, 4);
    lemma_field(s, 4, c.level as nat, 4);
}

/// The fields of the first 16 bits of a global configuration.
proof fn lemma_first_fields(
    f: bool,
    res: Seq<bool>,
    t: Seq<bool>,
    c: Seq<bool>,
    b: Seq<bool>,
    e: Seq<bool>,
    m: bool,
    a: bool,
)
    requires
        res.len() == 6,
        t.len() == 1,
        c.len() == 2,
        b.len() == 2,
        e.len() == 2,
    ensures
        ({
            let s = (Seq::<bool>::empty().push(f) + res + t + c + b + e).push(m).push(a);
            &&& s.len() == 16
            &&& s[0] == f && s[14] == m && s[15] == a
            &&& s.subrange(7, 8) == t
            &&& s.subrange(8, 10) == c
            &&& s.subrange(10, 12) == b
            &&& s.subrange(12, 14) == e
        }),
{
    let s = (Seq::<bool>::empty().push(f) + res + t + c + b + e).push(m).push(a);
    assert(s.subrange(7, 8) =~= t);
    assert(s.subrange(8, 10) =~= c);
    assert(s.subrange(10, 12) =~= b);
    assert(s.subrange(12, 14) =~= e);
}

/// The fields of the next 16 bits of a global configuration.
proof fn lemma_next_fields(
    p: Seq<bool>,
    i: bool,
    t: bool,
    u: Seq<bool>,
    f: bool,
    one: Seq<bool>,
    two: Seq<bool>,
    tile: Seq<bool>,
    user: Seq<bool>,
    d: bool,
    m: bool,
)
    requires
        p.len() == 16,
        u.len() == 3,
        one.len() == 2,
        two.len() == 2,
        tile.len() == 2,
        user.len() == 2,
    ensures
        ({
            let s = ((p.push(i).push(t) + u).push(f) + one + two + tile + user).push(d).push(m);
            &&& s.len() == 32
            &&& s.subrange(0, 16) == p
            &&& s[16] == i && s[17] == t && s[21] == f && s[30] == d && s[31] == m
            &&& s.subrange(18, 21) == u
            &&& s.subrange(22, 24) == one
            &&& s.subrange(24, 26) == two
            &&& s.subrange(26, 28) == tile
            &&& s.subrange(28, 30) == user
        }),
{
    let s = ((p.push(i).push(t) + u).push(f) + one + two + tile + user).push(d).push(m);
    assert(s.subrange(0, 16) =~= p);
    assert(s.subrange(18, 21) =~= u);
    assert(s.subrange(22, 24) =~= one);
    assert(s.subrange(24, 26) =~= two);
    assert(s.subrange(26, 28) =~= tile);
    assert(s.subrange(28, 30) =~= user);
}

/// The first 16 bits of a global configuration, field by field.
#[verifier::spinoff_prover]
#[verifier::rlimit(40)]
pub proof fn law_picture_bits_read(c: LcevcConfig)
    requires
        8 <= c.base_depth <= 14 && c.base_depth % 2 == 0,
        8 <= c.enhancement_depth <= 14 && c.enhancement_depth % 2 == 0,
    ensures
        ({
            let s = config::picture_bits(c);
            &&& s.len() == 16
            &&& s[0] == (config::planes_of(c.chroma) == 3)
            &&& bits_at(s, 7, 1) == config::transform_code(c.transform)
            &&& bits_at(s, 8, 2) == config::chroma_code(c.chroma)
            &&& 2 * bits_at(s, 10, 2) + 8 == c.base_depth
            &&& 2 * bits_at(s, 12, 2) + 8 == c.enhancement_depth
            &&& s[14] == (c.temporal_step_width_modifier != 48)
            &&& s[15] == c.predicted_average
        }),
{
    let s = config::picture_bits(c);
    let base = (c.base_depth / 2 - 4) as nat;
    let enh = (c.enhancement_depth / 2 - 4) as nat;
    let res = config::resolution_code(c.width, c.height) as nat;
    let transform = config::transform_code(c.transform);
    let chroma = config::chroma_code(c.chroma);
    lemma_len(res, 6);
    lemma_len(transform, 1);
    lemma_len(chroma, 2);
    lemma_len(base, 2);
    lemma_len(enh, 2);
    lemma_first_fields(
        config::planes_of(c.chroma) == 3,
        bitstream::bits_of(res, 6),
        bitstream::bits_of(transform, 1),
        bitstream::bits_of(chroma, 2),
        bitstream::bits_of(base, 2),
        bitstream::bits_of(enh, 2),
        c.temporal_step_width_modifier != 48,
        c.predicted_average,
    );
    lemma_small_powers();
    lemma_field(s, 7, transform, 1);
    lemma_field(s, 8, chroma, 2);
    lemma_field(s, 10, base, 2);
    lemma_field(s, 12, enh, 2);
}

/// The next 16 bits of a global configuration, field by field.
#[verifier::spinoff_prover]
#[verifier::rlimit(40)]
pub proof fn law_global_head_read(c: LcevcConfig)
    requires
        c.user_data < 4,
    ensures
        ({
            let s = config::global_head_bits(c);
            &&& s.len() == 32
            &&& s.subrange(0, 16) == config::picture_bits(c)
            &&& s[16] == c.temporal_tile_intra_signalling
            &&& s[17] == c.temporal_enabled
            &&& bits_at(s, 18, 3) == config::upsample_code(c.upsampler)
            &&& s[21] == c.level1_filtering_signalled
            &&& bits_at(s, 22, 2) == config::scaling_code(c.scaling_l1)
            &&& bits_at(s, 24, 2) == config::scaling_code(c.scaling_l2)
            &&& bits_at(s, 26, 2) == config::tile_code(c.tile_dimensions)
            &&& bits_at(s, 28, 2) == c.user_data
            &&& s[30] == c.loq1_use_enhanced_depth
            &&& s[31] == (c.chroma_step_width_multiplier != 64)
        }),
{
    let s = config::global_head_bits(c);
    let p = config::picture_bits(c);
    let up = config::upsample_code(c.upsampler);
    let one = config::scaling_code(c.scaling_l1);
    let two = config::scaling_code(c.scaling_l2);
    let tile = config::tile_code(c.tile_dimensions);
    let user = c.user_data as nat;
    lemma_picture_len(c);
    lemma_len(up, 3);
    lemma_len(one, 2);
    lemma_len(two, 2);
    lemma_len(tile, 2);
    lemma_len(user, 2);
    lemma_next_fields(
        p,
        c.temporal_tile_intra_signalling,
        c.temporal_enabled,
        bitstream::bits_of(up, 3),
        c.level1_filtering_signalled,
        bitstream::bits_of(one, 2),
        bitstream::bits_of(two, 2),
        bitstream::bits_of(tile, 2),
        bitstream::bits_of(user, 2),
        c.loq1_use_enhanced_depth,
        c.chroma_step_width_multiplier != 64,
    );
    lemma_small_powers();
    lemma_field(s, 18, up, 3);
    lemma_field(s, 22, one, 2);
    lemma_field(s, 24, two, 2);
    lemma_field(s, 26, tile, 2);
    lemma_field(s, 28, user, 2);
}

proof fn lemma_picture_len(c: LcevcConfig)
    ensures
        config::picture_bits(c).len() == 16,
{
    lemma_len(config::resolution_code(c.width, c.height) as nat, 6);
    lemma_len(config::transform_code(c.transform), 1);
    lemma_len(config::chroma_code(c.chroma), 2);
    lemma_len((c.base_depth / 2 - 4) as nat, 2);
    lemma_len((c.enhancement_depth / 2 - 4) as nat, 2);
}

/// The layers of a frame in the stream, plane by plane: those of LOQ1, those of LOQ0, and behind
/// them the temporal signals where they are sent.
pub proof fn law_layer_order(f: FrameJob, p: int, q: int, l: int)
    requires
        0 <= p < picture::planes(f),
        0 <= q < 2,
        0 <= l < picture::layers(f),
    ensures
        ({
            let n = picture::layers(f);
            let m: int = if picture::signalling(f) {
                2 * n + 1
            } else {
                2 * n
            };
            let all = picture::frame_layers(f);
            let k = p * m + q * n + l;
            let last = p * m + 2 * n;
            &&& all.len() == picture::planes(f) * m
            &&& 0 <= k < all.len()
            &&& all[k].len() == config::tile_count(f.config, 1 - q, p) as nat
            &&& forall|t: int|
                0 <= t < all[k].len() ==> #[trigger] all[k][t] == picture::frame_chunk(
                    f,
                    p,
                    q,
                    l,
                    t,
                )
            &&& picture::signalling(f) ==> {
                &&& 0 <= last < all.len()
                &&& all[last].len() == config::tile_count(f.config, 0, p) as nat
                &&& forall|t: int|
                    0 <= t < all[last].len() ==> #[trigger] all[last][t] == picture::frame_signals(
                        f,
                        p,
                        t,
                    )
            }
        }),
{
    let n = picture::layers(f);
    let m = payload::layers_per_plane(n, picture::signalling(f));
    let planes = picture::planes(f);
    let r = q * n + l;
    assert(0 <= r < 2 * n) by (nonlinear_arith)
        requires
            0 <= q < 2,
            0 <= l < n,
            r == q * n + l,
    ;
    assert(p * m + m <= planes * m) by (nonlinear_arith)
        requires
            p + 1 <= planes,
            m >= 0,
    ;
    assert(p * m >= 0) by (nonlinear_arith)
        requires
            p >= 0,
            m >= 0,
    ;
    vstd::arithmetic::div_mod::lemma_fundamental_div_mod_converse(p * m + r, m, p, r);
    vstd::arithmetic::div_mod::lemma_fundamental_div_mod_converse(r, n, q, l);
    if picture::signalling(f) {
        vstd::arithmetic::div_mod::lemma_fundamental_div_mod_converse(p * m + 2 * n, m, p, 2 * n);
    }
}

/// Behind the head of a picture configuration stand the matrices of LOQ0 and of LOQ1, a byte for
/// each layer.
pub proof fn law_matrices_follow(
    sw1: u32,
    sw2: u32,
    refresh: bool,
    matrix0: Seq<u8>,
    matrix1: Seq<u8>,
)
    ensures
        ({
            let s = payload::picture_config_bits(sw1, sw2, refresh, matrix0, matrix1);
            let n = 8 * matrix0.len() as int;
            let m = 8 * matrix1.len() as int;
            &&& s.len() == 40 + n + m
            &&& s.subrange(0, 40) == payload::picture_head_bits(sw1, sw2, refresh)
            &&& s.subrange(40, 40 + n) == bitstream::bytes_bits(matrix0)
            &&& s.subrange(40 + n, 40 + n + m) == bitstream::bytes_bits(matrix1)
        }),
{
    law_picture_head_read(sw1, sw2, refresh);
    let h = payload::picture_head_bits(sw1, sw2, refresh);
    let s = payload::picture_config_bits(sw1, sw2, refresh, matrix0, matrix1);
    let n = 8 * matrix0.len() as int;
    let m = 8 * matrix1.len() as int;
    assert(s.subrange(0, 40) =~= h);
    assert(s.subrange(40, 40 + n) =~= bitstream::bytes_bits(matrix0));
    assert(s.subrange(40 + n, 40 + n + m) =~= bitstream::bytes_bits(matrix1));
}

} // verus!
