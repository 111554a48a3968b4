//! Mirror decoder: decodes an LCEVC enhancement stream (plus base pictures) bit-exactly. Used
//! for self-verification and as an oracle when debugging the format.
use crate::bitstream;
use crate::config;
use crate::config::{
    ChromaFormat, LcevcConfig, ScalingMode, TileDimensions, TransformType, UpsampleType,
};
use crate::dequant;
use crate::dequant::LogTable;
use crate::encoder;
use crate::entropy::huffman::BitReader;
use crate::frame;
use crate::frame::{Picture, Plane, PlaneS16, Raster};
use crate::nal;
use crate::payload;
use crate::payload::{Chunk, ChunkModel};
use crate::picture;
use crate::reconstruct;
use crate::reconstruct::DecodeJob;
use crate::resolution;
use crate::stream;
use crate::text;
use vstd::prelude::*;

verus! {

/// The bytes from `a` up to `b`.
pub(crate) fn copy_range(s: &[u8], a: usize, b: usize) -> (out: Vec<u8>)
    requires
        a <= b <= s@.len(),
    ensures
        out@ == s@.subrange(a as int, b as int),
{
    let mut out: Vec<u8> = Vec::new();
    let mut i: usize = a;
    while i < b
        invariant
            a <= i <= b <= s@.len(),
            out@ == s@.subrange(a as int, i as int),
        decreases b - i,
    {
        out.push(s[i]);
        i = i + 1;
        assert(out@ =~= s@.subrange(a as int, i as int));
    }
    out
}

/// Read 7-bit groups from a position on: the value and the position after it.
pub(crate) fn read_multibyte(data: &[u8], pos: usize) -> (r: Option<(usize, usize)>)
    requires
        pos <= data@.len(),
    ensures
        match r {
            Some((v, p)) => bitstream::groups7_at(data@, pos as int, 0, usize::MAX + 1) == Some(
                (v as int, p as int),
            ) && pos < p <= data@.len(),
            None => bitstream::groups7_at(data@, pos as int, 0, usize::MAX + 1) is None,
        },
{
    let mut acc: usize = 0;
    let mut n: usize = pos;
    while n < data.len()
        invariant
            pos <= n <= data@.len(),
            bitstream::groups7_at(data@, pos as int, 0, usize::MAX + 1) == bitstream::groups7_at(
                data@,
                n as int,
                acc as int,
                usize::MAX + 1,
            ),
        decreases data@.len() - n,
    {
        let b: u8 = data[n];
        let m: u128 = usize::MAX as u128 + 1;
        let wide: u128 = (acc as u128 * 128 + (b % 128) as u128) % m;
        acc = wide as usize;
        n = n + 1;
        if b < 128 {
            return Some((acc, n));
        }
    }
    None
}

/// Un-escape the bytes from `pos` up to the last one: remove 0x03 after two 0x00, and drop the
/// RBSP stop byte.
fn unescape_rbsp(nal: &[u8], pos: usize) -> (rbsp: Vec<u8>)
    requires
        nal@.len() >= 1,
        pos <= nal@.len(),
    ensures
        rbsp@ == nal::unescape(nal@, pos as int, nal@.len() - 1, 0),
{
    let ghost total = nal::unescape(nal@, pos as int, nal@.len() - 1, 0);
    let end: usize = nal.len() - 1;
    let mut rbsp: Vec<u8> = Vec::new();
    let mut zeros: usize = 0;
    let mut i: usize = pos;
    assert(rbsp@ + nal::unescape(nal@, i as int, end as int, zeros as int) =~= total);
    while i < end
        invariant
            end == nal@.len() - 1,
            zeros <= i,
            rbsp@ + nal::unescape(nal@, i as int, end as int, zeros as int) == total,
        decreases end - i,
    {
        let b: u8 = nal[i];
        let ghost before = rbsp@;
        let ghost rest = nal::unescape(nal@, i as int, end as int, zeros as int);
        if zeros == 2 && b == 3 {
            zeros = 0;
        } else {
            if b == 0 {
                zeros = zeros + 1;
            } else {
                zeros = 0;
            }
            rbsp.push(b);
        }
        i = i + 1;
        assert(rbsp@ + nal::unescape(nal@, i as int, end as int, zeros as int) =~= before + rest);
    }
    assert(rbsp@ =~= total);
    rbsp
}

/// Split bytes into blocks.
fn read_blocks(rbsp: &Vec<u8>) -> (r: Option<Vec<(u8, Vec<u8>)>>)
    ensures
        match r {
            Some(v) => nal::split_blocks(rbsp@, 0) == Some(nal::blocks_view(v@)),
            None => nal::split_blocks(rbsp@, 0) is None,
        },
{
    let ghost total = nal::split_blocks(rbsp@, 0);
    let mut blocks: Vec<(u8, Vec<u8>)> = Vec::new();
    let mut off: usize = 0;
    proof {
        assert(nal::blocks_view(blocks@) =~= Seq::empty());
        if total is Some {
            assert(nal::blocks_view(blocks@) + total->0 =~= total->0);
        }
    }
    while off < rbsp.len()
        invariant
            off <= rbsp@.len(),
            match nal::split_blocks(rbsp@, off as int) {
                None => total is None,
                Some(rest) => total == Some(nal::blocks_view(blocks@) + rest),
            },
            total == nal::split_blocks(rbsp@, 0),
        decreases rbsp@.len() - off,
    {
        let ghost start = off as int;
        let ghost before = nal::blocks_view(blocks@);
        proof {
            nal::lemma_extent(rbsp@, start);
        }
        let header: u8 = rbsp[off];
        let at: Option<(usize, usize)> = if header >= 224 {
            read_multibyte(rbsp.as_slice(), off + 1)
        } else {
            Some(((header / 32) as usize, off + 1))
        };
        let (size, from) = match at {
            Some(x) => x,
            None => {
                return None;
            },
        };
        if size > rbsp.len() - from {
            return None;
        }
        let payload = copy_range(rbsp.as_slice(), from, from + size);
        let ghost block = (header % 32, payload@);
        blocks.push((header % 32, payload));
        off = from + size;
        proof {
            assert(nal::blocks_view(blocks@) =~= before.push(block));
            let rest = nal::split_blocks(rbsp@, off as int);
            if rest is Some {
                assert(before + (seq![block] + rest->0) =~= before.push(block) + rest->0);
            }
        }
    }
    assert(nal::blocks_view(blocks@) + Seq::empty() =~= nal::blocks_view(blocks@));
    Some(blocks)
}

/// Parse the NAL-unit framing (start code, header, blocks) and return the process blocks as
/// (payload_type, payload) tuples. A NAL unit that is cut short is an error.
pub fn parse_nal(nal: &[u8]) -> (r: Result<(bool, Vec<(u8, Vec<u8>)>), String>)
    ensures
        match r {
            Ok((idr, blocks)) => nal::parsed_nal(nal@) == Ok::<
                (bool, Seq<(u8, Seq<u8>)>),
                Seq<char>,
            >((idr, nal::blocks_view(blocks@))),
            Err(text) => nal::parsed_nal(nal@) == Err::<(bool, Seq<(u8, Seq<u8>)>), Seq<char>>(
                text@,
            ),
        },
{
    if nal.len() < 5 {
        return Err("NAL too short".to_string());
    }
    let pos: usize = if nal[0] == 0 && nal[1] == 0 && nal[2] == 1 {
        3
    } else if nal[0] == 0 && nal[1] == 0 && nal[2] == 0 && nal[3] == 1 {
        4
    } else {
        return Err("missing start code".to_string());
    };
    if nal.len() < pos + 2 {
        return Err("NAL too short".to_string());
    }
    let b0: u8 = nal[pos];
    let b1: u8 = nal[pos + 1];
    if b0 < 64 || b0 >= 128 || b0 % 2 != 1 || b1 != 0xFF {
        return Err("bad NAL header".to_string());
    }
    let rbsp = unescape_rbsp(nal, pos + 2);
    match read_blocks(&rbsp) {
        Some(blocks) => Ok((b0 / 2 % 32 == nal::NAL_TYPE_IDR, blocks)),
        None => Err("block overruns NAL".to_string()),
    }
}

/// The number in the `n` bits from `at` on.
pub open spec fn field(bits: Seq<bool>, at: int, n: int) -> nat {
    bitstream::bits_value(bits.subrange(at, at + n))
}

pub open spec fn chroma_from(code: nat) -> ChromaFormat {
    if code == 0 {
        ChromaFormat::Monochrome
    } else if code == 1 {
        ChromaFormat::C420
    } else if code == 2 {
        ChromaFormat::C422
    } else {
        ChromaFormat::C444
    }
}

pub open spec fn upsampler_from(code: nat) -> UpsampleType {
    if code == 0 {
        UpsampleType::Nearest
    } else if code == 1 {
        UpsampleType::Linear
    } else if code == 2 {
        UpsampleType::Cubic
    } else {
        UpsampleType::ModifiedCubic
    }
}

pub open spec fn scaling_from(code: nat) -> ScalingMode {
    if code == 0 {
        ScalingMode::Scale0D
    } else if code == 1 {
        ScalingMode::Scale1D
    } else {
        ScalingMode::Scale2D
    }
}

pub open spec fn tiling_from(code: nat) -> TileDimensions {
    if code == 0 {
        TileDimensions::Untiled
    } else if code == 1 {
        TileDimensions::T512x256
    } else if code == 2 {
        TileDimensions::T1024x512
    } else {
        TileDimensions::Custom
    }
}

/// A configuration with what the first 32 bits of a global configuration say.
#[verifier::opaque]
pub open spec fn with_head(c: LcevcConfig, b: Seq<bool>) -> LcevcConfig {
    LcevcConfig {
        transform: if b[7] {
            TransformType::Dds
        } else {
            TransformType::Dd
        },
        chroma: chroma_from(field(b, 8, 2)),
        base_depth: (8 + 2 * field(b, 10, 2)) as u8,
        enhancement_depth: (8 + 2 * field(b, 12, 2)) as u8,
        predicted_average: b[15],
        temporal_tile_intra_signalling: b[16],
        temporal_enabled: b[17],
        upsampler: upsampler_from(field(b, 18, 3)),
        level1_filtering_signalled: b[21],
        scaling_l1: scaling_from(field(b, 22, 2)),
        scaling_l2: scaling_from(field(b, 24, 2)),
        tile_dimensions: tiling_from(field(b, 26, 2)),
        user_data: field(b, 28, 2) as u8,
        loq1_use_enhanced_depth: b[30],
        ..c
    }
}

/// Where the L1 filter coefficients follow in a global configuration: after its first 32 bits,
/// the plane mode and the temporal step width modifier, each of which has a byte if a flag says
/// so.
pub open spec fn filter_at(b: Seq<bool>) -> int {
    32 + (if b[0] {
        8int
    } else {
        0int
    }) + (if b[14] {
        8int
    } else {
        0int
    })
}

/// Where the tiling parameters follow: after the byte of the L1 filter, if a flag says so.
pub open spec fn tiles_at(b: Seq<bool>) -> int {
    filter_at(b) + (if b[21] {
        8int
    } else {
        0int
    })
}

/// Where the resolution follows: after the size of custom tiles, and a byte for all tiles.
pub open spec fn resolution_at(b: Seq<bool>) -> int {
    tiles_at(b) + (match tiling_from(field(b, 26, 2)) {
        TileDimensions::Untiled => 0int,
        TileDimensions::Custom => 40,
        _ => 8,
    })
}

/// Where the chroma step width multiplier follows: after a custom resolution.
pub open spec fn multiplier_at(b: Seq<bool>) -> int {
    resolution_at(b) + (if field(b, 1, 6) == 63 {
        32int
    } else {
        0int
    })
}

/// A configuration with the temporal step width modifier and the L1 filter of a global
/// configuration.
#[verifier::opaque]
pub open spec fn with_modes(c: LcevcConfig, b: Seq<bool>) -> LcevcConfig {
    LcevcConfig {
        temporal_step_width_modifier: if b[14] {
            field(b, filter_at(b) - 8, 8) as u8
        } else {
            c.temporal_step_width_modifier
        },
        level1_filtering_first_coefficient: if b[21] {
            field(b, filter_at(b), 4) as u8
        } else {
            c.level1_filtering_first_coefficient
        },
        level1_filtering_second_coefficient: if b[21] {
            field(b, filter_at(b) + 4, 4) as u8
        } else {
            c.level1_filtering_second_coefficient
        },
        ..c
    }
}

/// A configuration with the tiling parameters of a global configuration.
#[verifier::opaque]
pub open spec fn with_tiles(c: LcevcConfig, b: Seq<bool>) -> LcevcConfig {
    let tiling = tiling_from(field(b, 26, 2));
    if tiling == TileDimensions::Untiled {
        c
    } else {
        LcevcConfig {
            custom_tile_size: if tiling == TileDimensions::Custom {
                Some((field(b, tiles_at(b), 16) as u16, field(b, tiles_at(b) + 16, 16) as u16))
            } else {
                c.custom_tile_size
            },
            per_tile_entropy_compression: b[resolution_at(b) - 3],
            tile_size_compression: field(b, resolution_at(b) - 2, 2) as u8,
            ..c
        }
    }
}

/// A configuration with a resolution: one of the table, or one that follows at a position.
#[verifier::opaque]
pub open spec fn with_resolution(c: LcevcConfig, b: Seq<bool>, code: nat, at: int) -> Result<
    LcevcConfig,
    Seq<char>,
> {
    if 0 < code < 51 {
        let (w, h) = resolution::standard_size(code as int);
        Ok(LcevcConfig { width: w, height: h, ..c })
    } else if code == 63 {
        if b.len() < at + 32 {
            Err("eof"@)
        } else {
            Ok(
                LcevcConfig {
                    width: field(b, at, 16) as u16,
                    height: field(b, at + 16, 16) as u16,
                    ..c
                },
            )
        }
    } else {
        Err("unsupported resolution type "@ + text::decimal(code))
    }
}

/// A configuration with the chroma step width multiplier of a global configuration.
#[verifier::opaque]
pub open spec fn with_multiplier(c: LcevcConfig, b: Seq<bool>) -> Result<LcevcConfig, Seq<char>> {
    if !b[31] {
        Ok(c)
    } else if b.len() < multiplier_at(b) + 8 {
        Err("eof"@)
    } else {
        Ok(
            LcevcConfig {
                chroma_step_width_multiplier: field(b, multiplier_at(b), 8) as u8,
                ..c
            },
        )
    }
}

/// A configuration with what a global configuration block says, or what is wrong with the
/// block.
pub open spec fn parsed_global(c: LcevcConfig, data: Seq<u8>) -> Result<LcevcConfig, Seq<char>> {
    let b = bitstream::bytes_bits(data);
    if b.len() < 32 || b.len() < resolution_at(b) {
        Err("eof"@)
    } else {
        match with_resolution(
            with_tiles(with_modes(with_head(c, b), b), b),
            b,
            field(b, 1, 6),
            resolution_at(b),
        ) {
            Ok(d) => with_multiplier(d, b),
            Err(e) => Err(e),
        }
    }
}

/// Read a number of which all bits are there.
fn read_field(r: &mut BitReader, n: u32) -> (v: u64)
    requires
        old(r).wf(),
        0 <= old(r).pos(),
        old(r).pos() + n <= old(r).bits().len(),
        n <= 32,
    ensures
        final(r).wf(),
        final(r).bits() == old(r).bits(),
        final(r).pos() == old(r).pos() + n,
        v == field(old(r).bits(), old(r).pos(), n as int),
        v < bitstream::two_pow(n as nat),
{
    proof {
        let s = r.bits().subrange(r.pos(), r.pos() + n);
        bitstream::lemma_bits_value_bound(s);
        bitstream::lemma_two_pow_mono(n as nat, 32);
        bitstream::lemma_two_pow_values();
    }
    match r.read_bits(n) {
        Some(v) => v,
        None => 0,
    }
}

/// Read a bit that is there.
fn read_flag(r: &mut BitReader) -> (v: bool)
    requires
        old(r).wf(),
        0 <= old(r).pos() < old(r).bits().len(),
    ensures
        final(r).wf(),
        final(r).bits() == old(r).bits(),
        final(r).pos() == old(r).pos() + 1,
        v == old(r).bits()[old(r).pos()],
{
    match r.read_bit() {
        Some(v) => v,
        None => false,
    }
}

/// Read the first 32 bits of a global configuration: resolution type, and whether bytes for
/// plane mode, temporal step width modifier and chroma multiplier follow.
fn read_head(r: &mut BitReader, cfg: &mut LcevcConfig) -> (f: (u8, bool, bool, bool))
    requires
        old(r).wf(),
        old(r).pos() == 0,
        old(r).bits().len() >= 32,
    ensures
        final(r).wf(),
        final(r).bits() == old(r).bits(),
        final(r).pos() == 32,
        *final(cfg) == with_head(*old(cfg), old(r).bits()),
        f.0 == field(old(r).bits(), 1, 6),
        f.1 == old(r).bits()[0],
        f.2 == old(r).bits()[14],
        f.3 == old(r).bits()[31],
        final(cfg).level1_filtering_signalled == old(r).bits()[21],
        final(cfg).tile_dimensions == tiling_from(field(old(r).bits(), 26, 2)),
{
    proof {
        reveal(with_head);
        bitstream::lemma_two_pow_values();
    }
    let plane_mode: bool = read_flag(r);
    let res_type: u8 = read_field(r, 6) as u8;
    cfg.transform = if read_flag(r) {
        TransformType::Dds
    } else {
        TransformType::Dd
    };
    let chroma: u64 = read_field(r, 2);
    cfg.chroma = if chroma == 0 {
        ChromaFormat::Monochrome
    } else if chroma == 1 {
        ChromaFormat::C420
    } else if chroma == 2 {
        ChromaFormat::C422
    } else {
        ChromaFormat::C444
    };
    let base_depth: u8 = read_field(r, 2) as u8;
    cfg.base_depth = 8 + 2 * base_depth;
    let depth: u8 = read_field(r, 2) as u8;
    cfg.enhancement_depth = 8 + 2 * depth;
    let modifier: bool = read_flag(r);
    cfg.predicted_average = read_flag(r);
    cfg.temporal_tile_intra_signalling = read_flag(r);
    cfg.temporal_enabled = read_flag(r);
    let upsampler: u64 = read_field(r, 3);
    cfg.upsampler = if upsampler == 0 {
        UpsampleType::Nearest
    } else if upsampler == 1 {
        UpsampleType::Linear
    } else if upsampler == 2 {
        UpsampleType::Cubic
    } else {
        UpsampleType::ModifiedCubic
    };
    cfg.level1_filtering_signalled = read_flag(r);
    let scaling_l1: u64 = read_field(r, 2);
    cfg.scaling_l1 = scaling_of(scaling_l1);
    let scaling_l2: u64 = read_field(r, 2);
    cfg.scaling_l2 = scaling_of(scaling_l2);
    let tiling: u64 = read_field(r, 2);
    cfg.tile_dimensions = if tiling == 0 {
        TileDimensions::Untiled
    } else if tiling == 1 {
        TileDimensions::T512x256
    } else if tiling == 2 {
        TileDimensions::T1024x512
    } else {
        TileDimensions::Custom
    };
    cfg.user_data = read_field(r, 2) as u8;
    cfg.loq1_use_enhanced_depth = read_flag(r);
    let multiplier: bool = read_flag(r);
    (res_type, plane_mode, modifier, multiplier)
}

fn scaling_of(code: u64) -> (m: ScalingMode)
    ensures
        m == scaling_from(code as nat),
{
    if code == 0 {
        ScalingMode::Scale0D
    } else if code == 1 {
        ScalingMode::Scale1D
    } else {
        ScalingMode::Scale2D
    }
}

/// Read the plane mode, the temporal step width modifier and the L1 filter of a global
/// configuration.
fn read_modes(r: &mut BitReader, cfg: &mut LcevcConfig, plane_mode: bool, modifier: bool)
    requires
        old(r).wf(),
        old(r).pos() == 32,
        old(r).bits().len() >= 32,
        old(r).bits().len() >= tiles_at(old(r).bits()),
        plane_mode == old(r).bits()[0],
        modifier == old(r).bits()[14],
        old(cfg).level1_filtering_signalled == old(r).bits()[21],
    ensures
        final(r).wf(),
        final(r).bits() == old(r).bits(),
        final(r).pos() == tiles_at(old(r).bits()),
        *final(cfg) == with_modes(*old(cfg), old(r).bits()),
        final(cfg).tile_dimensions == old(cfg).tile_dimensions,
{
    proof {
        reveal(with_modes);
        bitstream::lemma_two_pow_values();
    }
    if plane_mode {
        let _plane_type: u64 = read_field(r, 8);
    }
    if modifier {
        cfg.temporal_step_width_modifier = read_field(r, 8) as u8;
    }
    if cfg.level1_filtering_signalled {
        cfg.level1_filtering_first_coefficient = read_field(r, 4) as u8;
        cfg.level1_filtering_second_coefficient = read_field(r, 4) as u8;
    }
}

/// Read the tiling parameters of a global configuration.
fn read_tiles(r: &mut BitReader, cfg: &mut LcevcConfig)
    requires
        old(r).wf(),
        old(r).bits().len() >= 32,
        old(r).pos() == tiles_at(old(r).bits()),
        old(r).bits().len() >= resolution_at(old(r).bits()),
        old(cfg).tile_dimensions == tiling_from(field(old(r).bits(), 26, 2)),
    ensures
        final(r).wf(),
        final(r).bits() == old(r).bits(),
        final(r).pos() == resolution_at(old(r).bits()),
        *final(cfg) == with_tiles(*old(cfg), old(r).bits()),
{
    proof {
        reveal(with_tiles);
        bitstream::lemma_two_pow_values();
    }
    match cfg.tile_dimensions {
        TileDimensions::Untiled => {
            return;
        },
        TileDimensions::Custom => {
            let width: u16 = read_field(r, 16) as u16;
            let height: u16 = read_field(r, 16) as u16;
            cfg.custom_tile_size = Some((width, height));
        },
        _ => {},
    }
    let _reserved: u64 = read_field(r, 5);
    cfg.per_tile_entropy_compression = read_flag(r);
    cfg.tile_size_compression = read_field(r, 2) as u8;
}

/// The bytes of the tiling parameters.
fn tile_bytes(tiling: TileDimensions) -> (n: usize)
    ensures
        8 * n == (match tiling {
            TileDimensions::Untiled => 0int,
            TileDimensions::Custom => 40,
            _ => 8,
        }),
{
    match tiling {
        TileDimensions::Untiled => 0,
        TileDimensions::Custom => 5,
        _ => 1,
    }
}

fn unsupported_resolution(res_type: u8) -> (text: String)
    ensures
        text@ == "unsupported resolution type "@ + text::decimal(res_type as nat),
{
    let mut text = "unsupported resolution type ".to_string();
    text::push_decimal(&mut text, res_type as u64);
    text
}

/// Parse the global configuration block.
pub fn parse_global_config(data: &[u8], cfg: &mut LcevcConfig) -> (r: Result<(), String>)
    ensures
        match r {
            Ok(_) => parsed_global(*old(cfg), data@) == Ok::<LcevcConfig, Seq<char>>(*final(cfg)),
            Err(text) => parsed_global(*old(cfg), data@) == Err::<LcevcConfig, Seq<char>>(text@),
        },
{
    if data.len() < 4 {
        return Err("eof".to_string());
    }
    proof {
        bitstream::lemma_two_pow_values();
    }
    let mut r = BitReader::new(data);
    let (res_type, plane_mode, modifier, multiplier) = read_head(&mut r, cfg);
    let bytes: usize = bytes_before_resolution(
        plane_mode,
        modifier,
        cfg.level1_filtering_signalled,
        cfg.tile_dimensions,
        Ghost(r.bits()),
    );
    if data.len() < bytes {
        return Err("eof".to_string());
    }
    read_modes(&mut r, cfg, plane_mode, modifier);
    read_tiles(&mut r, cfg);
    let left: usize = data.len() - bytes;
    match read_resolution(&mut r, cfg, res_type, left) {
        Ok(_) => {},
        Err(e) => {
            return Err(e);
        },
    }
    read_multiplier(&mut r, cfg, multiplier)
}

/// How many bytes of a global configuration stand before its resolution.
fn bytes_before_resolution(
    plane_mode: bool,
    modifier: bool,
    filtered: bool,
    tiling: TileDimensions,
    Ghost(b): Ghost<Seq<bool>>,
) -> (n: usize)
    requires
        plane_mode == b[0],
        modifier == b[14],
        filtered == b[21],
        tiling == tiling_from(field(b, 26, 2)),
    ensures
        8 * n == resolution_at(b),
{
    let plane_bytes: usize = if plane_mode {
        1
    } else {
        0
    };
    let modifier_bytes: usize = if modifier {
        1
    } else {
        0
    };
    let filter_bytes: usize = if filtered {
        1
    } else {
        0
    };
    4 + plane_bytes + modifier_bytes + filter_bytes + tile_bytes(tiling)
}

/// Read the chroma step width multiplier at the end of a global configuration.
fn read_multiplier(r: &mut BitReader, cfg: &mut LcevcConfig, multiplier: bool) -> (res: Result<
    (),
    String,
>)
    requires
        old(r).wf(),
        0 <= old(r).pos() <= old(r).bits().len(),
        old(r).pos() == multiplier_at(old(r).bits()),
        multiplier == old(r).bits()[31],
    ensures
        match res {
            Ok(_) => with_multiplier(*old(cfg), old(r).bits()) == Ok::<LcevcConfig, Seq<char>>(
                *final(cfg),
            ),
            Err(text) => with_multiplier(*old(cfg), old(r).bits()) == Err::<
                LcevcConfig,
                Seq<char>,
            >(text@),
        },
{
    proof {
        reveal(with_multiplier);
        bitstream::lemma_two_pow_values();
        if r.pos() + 8 <= r.bits().len() {
            bitstream::lemma_bits_value_bound(r.bits().subrange(r.pos(), r.pos() + 8));
        }
    }
    if multiplier {
        match r.read_bits(8) {
            Some(v) => {
                cfg.chroma_step_width_multiplier = v as u8;
            },
            None => {
                return Err("eof".to_string());
            },
        }
    }
    Ok(())
}

/// Read the resolution of a global configuration, with `left` bytes of it left.
fn read_resolution(r: &mut BitReader, cfg: &mut LcevcConfig, res_type: u8, left: usize) -> (res:
    Result<(), String>)
    requires
        old(r).wf(),
        0 <= old(r).pos(),
        old(r).bits().len() == old(r).pos() + 8 * left,
    ensures
        final(r).wf(),
        final(r).bits() == old(r).bits(),
        match res {
            Ok(_) => {
                &&& with_resolution(*old(cfg), old(r).bits(), res_type as nat, old(r).pos()) == Ok::<
                    LcevcConfig,
                    Seq<char>,
                >(*final(cfg))
                &&& res_type == 63 ==> left >= 4
                &&& final(r).pos() == old(r).pos() + (if res_type == 63 {
                    32int
                } else {
                    0int
                })
            },
            Err(text) => with_resolution(
                *old(cfg),
                old(r).bits(),
                res_type as nat,
                old(r).pos(),
            ) == Err::<LcevcConfig, Seq<char>>(text@),
        },
{
    proof {
        reveal(with_resolution);
        bitstream::lemma_two_pow_values();
    }
    if res_type < 51 && res_type > 0 {
        let (w, h) = resolution::standard_resolution(res_type as usize);
        cfg.width = w;
        cfg.height = h;
    } else if res_type == 63 {
        if left < 4 {
            return Err("eof".to_string());
        }
        cfg.width = read_field(r, 16) as u16;
        cfg.height = read_field(r, 16) as u16;
    } else {
        return Err(unsupported_resolution(res_type));
    }
    Ok(())
}

/// Picture configuration extracted from the picture config block.
pub struct PictureConfig {
    pub entropy_enabled: bool,
    pub temporal_refresh: bool,
    pub temporal_signalling_present: bool,
    pub step_width_l1: u32,
    pub step_width_l2: u32,
    pub quant_matrix: Option<[Vec<u8>; 2]>,
}

/// What a picture configuration says.
#[verifier::ext_equal]
pub struct PictureModel {
    pub enabled: bool,
    pub refresh: bool,
    pub signalling: bool,
    pub step_l1: u32,
    pub step_l2: u32,
    pub matrices: Option<(Seq<u8>, Seq<u8>)>,
}

impl View for PictureConfig {
    type V = PictureModel;

    open spec fn view(&self) -> PictureModel {
        PictureModel {
            enabled: self.entropy_enabled,
            refresh: self.temporal_refresh,
            signalling: self.temporal_signalling_present,
            step_l1: self.step_width_l1,
            step_l2: self.step_width_l2,
            matrices: match self.quant_matrix {
                Some(q) => Some((q@[0]@, q@[1]@)),
                None => None,
            },
        }
    }
}

/// Bytes of a picture configuration before its matrices.
pub open spec fn matrices_at(b: Seq<bool>) -> int {
    if b[7] {
        5
    } else {
        3
    }
}

/// Whether a quantization matrix mode carries a matrix for LOQ0.
pub open spec fn carries_loq0(mode: nat) -> bool {
    mode == 2 || mode == 3 || mode == 5
}

/// Whether a quantization matrix mode carries a matrix for LOQ1.
pub open spec fn carries_loq1(mode: nat) -> bool {
    mode == 4 || mode == 5
}

/// The matrices of a picture configuration. Where only LOQ1 has one, that of LOQ0 is zero;
/// where only LOQ0 has one, that of LOQ1 is empty.
pub open spec fn parsed_matrices(data: Seq<u8>, mode: nat, at: int, n: int) -> Option<
    (Seq<u8>, Seq<u8>),
> {
    let next = if carries_loq0(mode) {
        at + n
    } else {
        at
    };
    if carries_loq1(mode) {
        Some(
            (
                if carries_loq0(mode) {
                    data.subrange(at, at + n)
                } else {
                    Seq::new(n as nat, |i: int| 0u8)
                },
                data.subrange(next, next + n),
            ),
        )
    } else if carries_loq0(mode) {
        Some((data.subrange(at, at + n), Seq::empty()))
    } else {
        None
    }
}

/// Bytes of a picture configuration with its matrices.
pub open spec fn picture_config_len(b: Seq<bool>, n: int) -> int {
    let mode = field(b, 1, 3);
    matrices_at(b) + (if carries_loq0(mode) {
        n
    } else {
        0
    }) + (if carries_loq1(mode) {
        n
    } else {
        0
    })
}

/// What a picture configuration block says, or what is wrong with it.
pub open spec fn parsed_picture(data: Seq<u8>, c: LcevcConfig) -> Result<PictureModel, Seq<char>> {
    let b = bitstream::bytes_bits(data);
    let n = config::layers_of(c.transform) as int;
    if data.len() == 0 {
        Err("eof"@)
    } else if b[0] {
        Ok(
            PictureModel {
                enabled: false,
                refresh: false,
                signalling: c.temporal_enabled,
                step_l1: 32767,
                step_l2: 0,
                matrices: None,
            },
        )
    } else if data.len() < picture_config_len(b, n) {
        Err("eof"@)
    } else {
        Ok(
            PictureModel {
                enabled: true,
                refresh: b[6],
                signalling: c.temporal_enabled && !b[6],
                step_l1: if b[7] {
                    field(b, 24, 15) as u32
                } else {
                    32767
                },
                step_l2: field(b, 8, 15) as u32,
                matrices: parsed_matrices(data, field(b, 1, 3), matrices_at(b), n),
            },
        )
    }
}

/// `n` zero bytes.
fn zero_bytes(n: usize) -> (v: Vec<u8>)
    ensures
        v@ == Seq::new(n as nat, |i: int| 0u8),
{
    let v: Vec<u8> = vec![0u8; n];
    assert(v@ =~= Seq::new(n as nat, |i: int| 0u8));
    v
}

/// Parse the picture configuration block.
pub fn parse_picture_config(data: &[u8], cfg: &LcevcConfig) -> (r: Result<PictureConfig, String>)
    ensures
        match r {
            Ok(pc) => parsed_picture(data@, *cfg) == Ok::<PictureModel, Seq<char>>(pc@),
            Err(text) => parsed_picture(data@, *cfg) == Err::<PictureModel, Seq<char>>(text@),
        },
{
    let ghost b = bitstream::bytes_bits(data@);
    if data.len() == 0 {
        return Err("eof".to_string());
    }
    proof {
        bitstream::lemma_two_pow_values();
    }
    let mut r = BitReader::new(data);
    let no_enhancement: bool = read_flag(&mut r);
    if no_enhancement {
        return Ok(
            PictureConfig {
                entropy_enabled: false,
                temporal_refresh: false,
                temporal_signalling_present: cfg.temporal_enabled,
                step_width_l1: 32767,
                step_width_l2: 0,
                quant_matrix: None,
            },
        );
    }
    let n: usize = cfg.num_layers();
    let mode: u64 = read_field(&mut r, 3);
    let _offset_signalled: bool = read_flag(&mut r);
    let _picture_type: bool = read_flag(&mut r);
    let refresh: bool = read_flag(&mut r);
    let l1_enabled: bool = read_flag(&mut r);
    let loq0: bool = mode == 2 || mode == 3 || mode == 5;
    let loq1: bool = mode == 4 || mode == 5;
    let at: usize = if l1_enabled {
        5
    } else {
        3
    };
    let next: usize = if loq0 {
        at + n
    } else {
        at
    };
    let end: usize = if loq1 {
        next + n
    } else {
        next
    };
    if data.len() < end {
        return Err("eof".to_string());
    }
    let step_l2: u32 = read_field(&mut r, 15) as u32;
    let _dither: bool = read_flag(&mut r);
    let step_l1: u32 = if l1_enabled {
        read_field(&mut r, 15) as u32
    } else {
        32767
    };
    // Custom quant matrices: mode 2/3/5 carry LOQ0, 4/5 carry LOQ1.
    let quant_matrix: Option<[Vec<u8>; 2]> = if loq1 {
        let first: Vec<u8> = if loq0 {
            copy_range(data, at, next)
        } else {
            zero_bytes(n)
        };
        Some([first, copy_range(data, next, end)])
    } else if loq0 {
        Some([copy_range(data, at, next), Vec::new()])
    } else {
        None
    };
    Ok(
        PictureConfig {
            entropy_enabled: true,
            temporal_refresh: refresh,
            temporal_signalling_present: cfg.temporal_enabled && !refresh,
            step_width_l1: step_l1,
            step_width_l2: step_l2,
            quant_matrix,
        },
    )
}

/// The chunks of an encoded-data block, with the shape that they were read in.
#[verifier::ext_equal]
pub struct EncodedModel {
    pub chunks: Seq<ChunkModel>,
    pub planes: int,
    pub layers: int,
    pub signalling: bool,
}

/// What has been read of the blocks of a frame.
#[verifier::ext_equal]
pub struct HeaderModel {
    pub config: LcevcConfig,
    pub picture: Option<PictureModel>,
    pub encoded: Option<EncodedModel>,
}

/// What is known after one more block, or what is wrong with it. Blocks of other types are
/// passed over.
#[verifier::opaque]
pub open spec fn header_step(s: HeaderModel, block: (u8, Seq<u8>)) -> Result<
    HeaderModel,
    Seq<char>,
> {
    let planes = config::planes_of(s.config.chroma) as int;
    let layers = config::layers_of(s.config.transform) as int;
    if block.0 == 1 {
        match parsed_global(s.config, block.1) {
            Ok(c) => Ok(HeaderModel { config: c, ..s }),
            Err(e) => Err(e),
        }
    } else if block.0 == 2 {
        match parsed_picture(block.1, s.config) {
            Ok(p) => Ok(HeaderModel { picture: Some(p), ..s }),
            Err(e) => Err(e),
        }
    } else if block.0 == 3 || block.0 == 4 {
        match s.picture {
            None => Err("no picture config"@),
            Some(p) => if block.0 == 4 {
                Err("tiled mirror decode not implemented"@)
            } else {
                match stream::parsed_encoded(block.1, planes, layers, p.signalling) {
                    Ok(chunks) => Ok(
                        HeaderModel {
                            encoded: Some(
                                EncodedModel {
                                    chunks,
                                    planes,
                                    layers,
                                    signalling: p.signalling,
                                },
                            ),
                            ..s
                        },
                    ),
                    Err(e) => Err(e),
                }
            },
        }
    } else {
        Ok(s)
    }
}

/// What is known after the first `k` blocks.
pub open spec fn header_after(c: LcevcConfig, blocks: Seq<(u8, Seq<u8>)>, k: int) -> Result<
    HeaderModel,
    Seq<char>,
>
    decreases k,
{
    if k <= 0 {
        Ok(
            HeaderModel {
                config: LcevcConfig { colour: None, ..c },
                picture: None,
                encoded: None,
            },
        )
    } else {
        match header_after(c, blocks, k - 1) {
            Ok(s) => header_step(s, blocks[k - 1]),
            Err(e) => Err(e),
        }
    }
}

/// The quantization matrix of a LOQ: that of the picture, where it has whole matrices.
pub open spec fn matrix_of(c: LcevcConfig, p: PictureModel, loq: int) -> Seq<u8> {
    let n = config::layers_of(c.transform);
    if p.matrices is Some && (p.matrices->0).0.len() == n && (p.matrices->0).1.len() == n {
        if loq == 0 {
            (p.matrices->0).0
        } else {
            (p.matrices->0).1
        }
    } else {
        encoder::default_matrix_of(c, loq)
    }
}

/// The job of decoding a plane.
pub open spec fn plane_decode(
    h: HeaderModel,
    base: Seq<Raster<u16>>,
    tb: Raster<i16>,
    p: int,
    logs: Seq<u16>,
) -> DecodeJob {
    let c = h.config;
    let pic = h.picture->0;
    let e = h.encoded->0;
    let n = config::layers_of(c.transform) as int;
    let from = p * payload::layers_per_plane(e.layers, e.signalling);
    DecodeJob {
        config: c,
        plane: p,
        base: base[p],
        tb,
        step_l1: pic.step_l1,
        step_l2: pic.step_l2,
        refresh: pic.refresh,
        matrix0: matrix_of(c, pic, 0),
        matrix1: matrix_of(c, pic, 1),
        chunks: e.chunks.subrange(from, from + 2 * n),
        temporal: if c.temporal_enabled && !pic.refresh {
            Some(e.chunks[from + 2 * n])
        } else {
            None
        },
        logs,
    }
}

/// The planes of a frame that have been decoded.
#[verifier::ext_equal]
pub struct DecodeState {
    pub output: Seq<Raster<u16>>,
    pub tbs: Seq<Raster<i16>>,
    pub error: Option<Seq<char>>,
}

/// The state after the first `n` planes. Decoding stops at the first error.
pub open spec fn planes_after(
    h: HeaderModel,
    base: Seq<Raster<u16>>,
    tbs: Seq<Raster<i16>>,
    logs: Seq<u16>,
    n: int,
) -> DecodeState
    decreases n,
{
    if n <= 0 {
        DecodeState { output: Seq::empty(), tbs, error: None }
    } else {
        let s = planes_after(h, base, tbs, logs, n - 1);
        if s.error is Some {
            s
        } else {
            let (out, tb) = reconstruct::plane_outcome(
                plane_decode(h, base, s.tbs[n - 1], n - 1, logs),
            );
            match out {
                Ok(r) => DecodeState {
                    output: s.output.push(r),
                    tbs: s.tbs.update(n - 1, tb),
                    error: None,
                },
                Err(e) => DecodeState { tbs: s.tbs.update(n - 1, tb), error: Some(e), ..s },
            }
        }
    }
}

/// What is missing for decoding, if anything, after all blocks have been read.
pub open spec fn header_error(h: HeaderModel, bases: int, buffers: int) -> Option<Seq<char>> {
    let planes = config::planes_of(h.config.chroma);
    if h.picture is None {
        Some("no picture config"@)
    } else if h.encoded is None {
        Some("no encoded data"@)
    } else {
        let e = h.encoded->0;
        let on = h.config.temporal_enabled && !h.picture->0.refresh;
        if e.planes < planes || e.layers != config::layers_of(h.config.transform) || (on
            && !e.signalling) {
            Some("encoded data of another configuration"@)
        } else if bases < planes || buffers < planes {
            Some("missing plane"@)
        } else {
            None
        }
    }
}

/// Whether none of the chunks of a frame carries data: the encoder has dropped its enhancement.
pub open spec fn carries_nothing(chunks: Seq<ChunkModel>) -> bool {
    forall|k: int| 0 <= k < chunks.len() ==> !(#[trigger] chunks[k]).enabled
}

/// A decoded frame: its planes, or what is wrong, and the temporal buffers after it. A frame
/// that carries nothing leaves them untouched.
pub open spec fn decoded_frame(
    c: LcevcConfig,
    blocks: Seq<(u8, Seq<u8>)>,
    base: Seq<Raster<u16>>,
    tbs: Seq<Raster<i16>>,
    logs: Seq<u16>,
) -> (Result<Seq<Raster<u16>>, Seq<char>>, Seq<Raster<i16>>) {
    match header_after(c, blocks, blocks.len() as int) {
        Err(e) => (Err(e), tbs),
        Ok(h) => match header_error(h, base.len() as int, tbs.len() as int) {
            Some(e) => (Err(e), tbs),
            None => {
                let s = planes_after(
                    h,
                    base,
                    tbs,
                    logs,
                    config::planes_of(h.config.chroma) as int,
                );
                (
                    match s.error {
                        Some(e) => Err(e),
                        None => Ok(s.output),
                    },
                    if carries_nothing((h.encoded->0).chunks) {
                        tbs
                    } else {
                        s.tbs
                    },
                )
            },
        },
    }
}

/// What has been read of the blocks of a frame.
struct Header {
    config: LcevcConfig,
    picture: Option<PictureConfig>,
    chunks: Option<Vec<Chunk>>,
    planes: usize,
    layers: usize,
    signalling: bool,
}

impl Header {
    spec fn model(&self) -> HeaderModel {
        HeaderModel {
            config: self.config,
            picture: match self.picture {
                Some(p) => Some(p@),
                None => None,
            },
            encoded: match self.chunks {
                Some(c) => Some(
                    EncodedModel {
                        chunks: payload::tiles_view(c@),
                        planes: self.planes as int,
                        layers: self.layers as int,
                        signalling: self.signalling,
                    },
                ),
                None => None,
            },
        }
    }

    /// Chunks are there for all layers of the shape that they were read in.
    spec fn wf(&self) -> bool {
        &&& 1 <= self.config.enhancement_depth <= 14
        &&& self.chunks matches Some(c) ==> {
            &&& 1 <= self.planes <= 3
            &&& self.layers == 4 || self.layers == 16
            &&& c@.len() == stream::layer_count(
                self.planes as int,
                self.layers as int,
                self.signalling,
            )
        }
    }

    /// Take up one more block.
    fn step(&mut self, payload_type: u8, block: &Vec<u8>) -> (r: Result<(), String>)
        requires
            old(self).wf(),
        ensures
            match r {
                Ok(_) => header_step(old(self).model(), (payload_type, block@)) == Ok::<
                    HeaderModel,
                    Seq<char>,
                >(final(self).model()) && final(self).wf(),
                Err(text) => header_step(old(self).model(), (payload_type, block@)) == Err::<
                    HeaderModel,
                    Seq<char>,
                >(text@),
            },
    {
        proof {
            reveal(header_step);
        }
        if payload_type == 1 {
            proof {
                lemma_depth(self.config, block@);
            }
            parse_global_config(block.as_slice(), &mut self.config)
        } else if payload_type == 2 {
            match parse_picture_config(block.as_slice(), &self.config) {
                Ok(p) => {
                    self.picture = Some(p);
                    Ok(())
                },
                Err(text) => Err(text),
            }
        } else if payload_type == 3 || payload_type == 4 {
            let signalling: bool = match &self.picture {
                Some(p) => p.temporal_signalling_present,
                None => {
                    return Err("no picture config".to_string());
                },
            };
            if payload_type == 4 {
                return Err("tiled mirror decode not implemented".to_string());
            }
            let planes: usize = self.config.num_planes();
            let layers: usize = self.config.num_layers();
            match stream::parse_encoded(block.as_slice(), planes, layers, signalling) {
                Ok(chunks) => {
                    proof {
                        stream::lemma_parsed_len(
                            block@,
                            planes as int,
                            layers as int,
                            signalling,
                        );
                    }
                    self.planes = planes;
                    self.layers = layers;
                    self.signalling = signalling;
                    self.chunks = Some(chunks);
                    Ok(())
                },
                Err(text) => Err(text),
            }
        } else {
            Ok(())
        }
    }
}

/// A global configuration says a depth of 8 to 14 bits.
proof fn lemma_depth(c: LcevcConfig, data: Seq<u8>)
    ensures
        parsed_global(c, data) matches Ok(d) ==> 8 <= d.enhancement_depth <= 14,
{
    reveal(with_head);
    reveal(with_modes);
    reveal(with_tiles);
    reveal(with_resolution);
    reveal(with_multiplier);
    let b = bitstream::bytes_bits(data);
    if b.len() >= 32 {
        bitstream::lemma_bits_value_bound(b.subrange(12, 14));
        bitstream::lemma_two_pow_values();
    }
}

/// Read the blocks of a frame.
fn read_header(cfg: &LcevcConfig, blocks: &[(u8, Vec<u8>)]) -> (r: Result<Header, String>)
    requires
        1 <= cfg.enhancement_depth <= 14,
    ensures
        match r {
            Ok(h) => header_after(*cfg, nal::blocks_view(blocks@), blocks@.len() as int) == Ok::<
                HeaderModel,
                Seq<char>,
            >(h.model()) && h.wf(),
            Err(text) => header_after(*cfg, nal::blocks_view(blocks@), blocks@.len() as int)
                == Err::<HeaderModel, Seq<char>>(text@),
        },
{
    let ghost view = nal::blocks_view(blocks@);
    let mut h = Header {
        config: cfg.without_colour(),
        picture: None,
        chunks: None,
        planes: 0,
        layers: 0,
        signalling: false,
    };
    let mut k: usize = 0;
    while k < blocks.len()
        invariant
            k <= blocks@.len(),
            view == nal::blocks_view(blocks@),
            h.wf(),
            header_after(*cfg, view, k as int) == Ok::<HeaderModel, Seq<char>>(h.model()),
        decreases blocks@.len() - k,
    {
        let payload_type: u8 = blocks[k].0;
        assert(view[k as int] == (payload_type, blocks@[k as int].1@));
        match h.step(payload_type, &blocks[k].1) {
            Ok(_) => {},
            Err(text) => {
                proof {
                    lemma_header_stops(*cfg, view, k + 1, blocks@.len() as int, text@);
                }
                return Err(text);
            },
        }
        k = k + 1;
    }
    Ok(h)
}

/// An error stays.
proof fn lemma_header_stops(
    c: LcevcConfig,
    blocks: Seq<(u8, Seq<u8>)>,
    k: int,
    n: int,
    e: Seq<char>,
)
    requires
        0 < k <= n,
        header_after(c, blocks, k) == Err::<HeaderModel, Seq<char>>(e),
    ensures
        header_after(c, blocks, n) == Err::<HeaderModel, Seq<char>>(e),
    decreases n - k,
{
    if k < n {
        lemma_header_stops(c, blocks, k + 1, n, e);
    }
}

/// An error stays.
proof fn lemma_planes_stop(
    h: HeaderModel,
    base: Seq<Raster<u16>>,
    tbs: Seq<Raster<i16>>,
    logs: Seq<u16>,
    k: int,
    n: int,
)
    requires
        0 <= k <= n,
        planes_after(h, base, tbs, logs, k).error is Some,
    ensures
        planes_after(h, base, tbs, logs, n) == planes_after(h, base, tbs, logs, k),
    decreases n - k,
{
    if k < n {
        assert(planes_after(h, base, tbs, logs, k + 1) == planes_after(h, base, tbs, logs, k));
        lemma_planes_stop(h, base, tbs, logs, k + 1, n);
    }
}

/// The matrices to dequantize with.
fn choose_matrices(cfg: &LcevcConfig, p: &PictureConfig) -> (m: [Vec<u8>; 2])
    ensures
        m@[0]@ == matrix_of(*cfg, p@, 0),
        m@[1]@ == matrix_of(*cfg, p@, 1),
        m@[0]@.len() == config::layers_of(cfg.transform),
        m@[1]@.len() == config::layers_of(cfg.transform),
{
    let n: usize = cfg.num_layers();
    match &p.quant_matrix {
        Some(q) => {
            if q[0].len() == n && q[1].len() == n {
                return [
                    copy_range(q[0].as_slice(), 0, n),
                    copy_range(q[1].as_slice(), 0, n),
                ];
            }
        },
        None => {},
    }
    let flat: bool = cfg.scaling_l2 == ScalingMode::Scale1D;
    [
        dequant::default_quant_matrix(n == 16, flat, 0),
        dequant::default_quant_matrix(n == 16, flat, 1),
    ]
}

/// Whether none of the chunks carries data.
fn nothing_carried(chunks: &Vec<Chunk>) -> (r: bool)
    ensures
        r == carries_nothing(payload::tiles_view(chunks@)),
{
    let ghost list = payload::tiles_view(chunks@);
    let mut k: usize = 0;
    while k < chunks.len()
        invariant
            k <= chunks@.len(),
            list == payload::tiles_view(chunks@),
            forall|i: int| 0 <= i < k ==> !(#[trigger] list[i]).enabled,
        decreases chunks@.len() - k,
    {
        assert(list[k as int] == chunks@[k as int]@);
        if chunks[k].entropy_enabled {
            return false;
        }
        k = k + 1;
    }
    true
}

/// Decode the planes of a frame, up to the first error.
fn decode_planes(
    h: &Header,
    picture: &PictureConfig,
    chunks: &Vec<Chunk>,
    base: &Picture,
    buffers: &mut Vec<PlaneS16>,
    logs: &LogTable,
) -> (r: Result<Vec<Plane>, String>)
    requires
        h.wf(),
        h.model().picture == Some(picture@),
        h.chunks == Some(*chunks),
        header_error(
            h.model(),
            base.planes@.len() as int,
            old(buffers)@.len() as int,
        ) is None,
        forall|p: int|
            0 <= p < base.planes@.len() ==> reconstruct::small_enough(#[trigger] base.planes@[p]@),
        forall|p: int| 0 <= p < old(buffers)@.len() ==> #[trigger] old(buffers)@[p]@.wf(),
    ensures
        ({
            let s = planes_after(
                h.model(),
                frame::planes_view(base.planes@),
                picture::buffers_view(old(buffers)@),
                logs@,
                config::planes_of(h.config.chroma) as int,
            );
            &&& picture::buffers_view(final(buffers)@) == s.tbs
            &&& match r {
                Ok(planes) => s.error is None && frame::planes_view(planes@) == s.output,
                Err(text) => s.error == Some(text@),
            }
        }),
        forall|p: int| 0 <= p < final(buffers)@.len() ==> #[trigger] final(buffers)@[p]@.wf(),
{
    let cfg = &h.config;
    let ghost m = h.model();
    let ghost bases = frame::planes_view(base.planes@);
    let ghost start = picture::buffers_view(buffers@);
    let matrices = choose_matrices(cfg, picture);
    let on: bool = cfg.temporal_enabled && !picture.temporal_refresh;
    let n: usize = cfg.num_planes();
    let l: usize = cfg.num_layers();
    let per_plane: usize = 2 * l + (if h.signalling {
        1usize
    } else {
        0usize
    });
    let have: usize = chunks.len();
    let mut out: Vec<Plane> = Vec::new();
    let mut p: usize = 0;
    assert(frame::planes_view(out@) =~= Seq::empty());
    while p < n
        invariant
            p <= n == config::planes_of(cfg.chroma),
            l == config::layers_of(cfg.transform),
            cfg == &h.config,
            m == h.model(),
            h.wf(),
            m.picture == Some(picture@),
            h.chunks == Some(*chunks),
            have == chunks@.len(),
            header_error(m, base.planes@.len() as int, start.len() as int) is None,
            buffers@.len() == start.len(),
            start == picture::buffers_view(old(buffers)@),
            bases == frame::planes_view(base.planes@),
            per_plane == payload::layers_per_plane(l as int, h.signalling),
            on == (cfg.temporal_enabled && !picture.temporal_refresh),
            matrices@[0]@ == matrix_of(*cfg, picture@, 0),
            matrices@[1]@ == matrix_of(*cfg, picture@, 1),
            matrices@[0]@.len() == l,
            matrices@[1]@.len() == l,
            forall|p: int|
                0 <= p < base.planes@.len() ==> reconstruct::small_enough(
                    #[trigger] base.planes@[p]@,
                ),
            forall|p: int| 0 <= p < buffers@.len() ==> #[trigger] buffers@[p]@.wf(),
            ({
                let s = planes_after(m, bases, start, logs@, p as int);
                &&& s.error is None
                &&& frame::planes_view(out@) == s.output
                &&& picture::buffers_view(buffers@) == s.tbs
            }),
        decreases n - p,
    {
        let ghost s = planes_after(m, bases, start, logs@, p as int);
        let ghost before = buffers@;
        let ghost list = payload::tiles_view(chunks@);
        proof {
            let k = per_plane as int;
            assert(0 <= p * k && p * k + k <= h.planes * k) by (nonlinear_arith)
                requires
                    0 <= p < h.planes,
                    k > 0,
            ;
        }
        let from: usize = p * per_plane;
        let ghost j = plane_decode(m, bases, s.tbs[p as int], p as int, logs@);
        proof {
            assert(bases[p as int] == base.planes@[p as int]@);
            assert(s.tbs[p as int] == buffers@[p as int]@);
            assert(reconstruct::small_enough(base.planes@[p as int]@));
            assert(j.chunks =~= list.subrange(from as int, from + 2 * l));
            assert forall|i: int| 0 <= i < j.chunks.len() implies #[trigger] j.chunks[i]
                == chunks@[from + i]@ by {
                assert(j.chunks[i] == list[from + i]);
            }
        }
        let mut tb = buffers[p].duplicate();
        let temporal: Option<&Chunk> = if on {
            assert(list[from + 2 * l] == chunks@[from + 2 * l]@);
            Some(&chunks[from + 2 * l])
        } else {
            None
        };
        let r = reconstruct::apply_chunks(
            cfg,
            &base.planes[p],
            &mut tb,
            chunks,
            from,
            temporal,
            picture.step_width_l1,
            picture.step_width_l2,
            picture.temporal_refresh,
            &matrices,
            p,
            logs,
            Ghost(j),
        );
        let ghost after = tb@;
        buffers.set(p, tb);
        proof {
            assert(picture::buffers_view(buffers@) =~= s.tbs.update(p as int, after));
            assert forall|i: int| 0 <= i < buffers@.len() implies #[trigger] buffers@[i]@.wf() by {
                if i != p {
                    assert(before[i]@.wf());
                }
            }
        }
        match r {
            Ok(plane) => {
                let ghost made = frame::planes_view(out@);
                let ghost view = plane@;
                out.push(plane);
                assert(frame::planes_view(out@) =~= made.push(view));
            },
            Err(text) => {
                proof {
                    lemma_planes_stop(m, bases, start, logs@, p + 1, n as int);
                }
                return Err(text);
            },
        }
        p = p + 1;
    }
    Ok(out)
}

/// Run the mirror decoder over one frame. `blocks` is the parsed NAL content; `base` the
/// decoded base picture. Blocks that are cut short or do not fit together are an error.
pub fn decode_frame(
    cfg_in: &LcevcConfig,
    blocks: &[(u8, Vec<u8>)],
    base: &Picture,
    temporal_buffers: &mut Vec<PlaneS16>,
    logs: &LogTable,
) -> (r: Result<Picture, String>)
    requires
        1 <= cfg_in.enhancement_depth <= 14,
        forall|p: int|
            0 <= p < base.planes@.len() ==> reconstruct::small_enough(#[trigger] base.planes@[p]@),
        forall|p: int|
            0 <= p < old(temporal_buffers)@.len() ==> #[trigger] old(temporal_buffers)@[p]@.wf(),
    ensures
        ({
            let d = decoded_frame(
                *cfg_in,
                nal::blocks_view(blocks@),
                frame::planes_view(base.planes@),
                picture::buffers_view(old(temporal_buffers)@),
                logs@,
            );
            let h = header_after(*cfg_in, nal::blocks_view(blocks@), blocks@.len() as int);
            &&& picture::buffers_view(final(temporal_buffers)@) == d.1
            &&& match r {
                Ok(p) => {
                    &&& d.0 == Ok::<Seq<Raster<u16>>, Seq<char>>(frame::planes_view(p.planes@))
                    &&& h matches Ok(m) && p.width == m.config.width && p.height
                        == m.config.height
                },
                Err(text) => d.0 == Err::<Seq<Raster<u16>>, Seq<char>>(text@),
            }
        }),
        forall|p: int|
            0 <= p < final(temporal_buffers)@.len()
                ==> #[trigger] final(temporal_buffers)@[p]@.wf(),
{
    let h = match read_header(cfg_in, blocks) {
        Ok(h) => h,
        Err(text) => {
            return Err(text);
        },
    };
    let picture = match &h.picture {
        Some(p) => p,
        None => {
            return Err("no picture config".to_string());
        },
    };
    let chunks = match &h.chunks {
        Some(c) => c,
        None => {
            return Err("no encoded data".to_string());
        },
    };
    let n: usize = h.config.num_planes();
    let on: bool = h.config.temporal_enabled && !picture.temporal_refresh;
    if h.planes < n || h.layers != h.config.num_layers() || (on && !h.signalling) {
        return Err("encoded data of another configuration".to_string());
    }
    if base.planes.len() < n || temporal_buffers.len() < n {
        return Err("missing plane".to_string());
    }
    let idle: bool = nothing_carried(chunks);
    let decoded = if idle {
        let mut scratch = picture::copy_buffers(temporal_buffers);
        decode_planes(&h, picture, chunks, base, &mut scratch, logs)
    } else {
        decode_planes(&h, picture, chunks, base, temporal_buffers, logs)
    };
    match decoded {
        Ok(planes) => Ok(
            Picture {
                width: h.config.width as usize,
                height: h.config.height as usize,
                planes,
            },
        ),
        Err(text) => Err(text),
    }
}

} // verus!
