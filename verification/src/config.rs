//! LCEVC stream configuration: the global/sequence parameters plus defaults and validation
//! rules.
use crate::bitstream;
use crate::bitstream::BitWriter;
use crate::text;
use crate::resolution;
use vstd::prelude::*;

pub use crate::resolution::{RESOLUTIONS, RESOLUTION_CUSTOM};

verus! {

#[derive(Clone, Copy, PartialEq, Eq, Debug, Structural)]
pub enum TransformType {
    /// 2x2 directional decomposition transform (4 layers).
    Dd,
    /// 4x4 directional decomposition transform (16 layers).
    Dds,
}

impl TransformType {
    pub fn layers(self) -> (n: usize)
        ensures
            n == layers_of(self),
    {
        match self {
            TransformType::Dd => 4,
            TransformType::Dds => 16,
        }
    }

    pub fn tu_size(self) -> (n: usize)
        ensures
            n == tu_size_of(self),
    {
        match self {
            TransformType::Dd => 2,
            TransformType::Dds => 4,
        }
    }

    pub fn to_bit(self) -> (b: u8)
        ensures
            b == transform_code(self),
    {
        match self {
            TransformType::Dd => 0,
            TransformType::Dds => 1,
        }
    }
}

/// Coefficient layers of a transform.
pub open spec fn layers_of(t: TransformType) -> nat {
    match t {
        TransformType::Dd => 4,
        TransformType::Dds => 16,
    }
}

/// Side of a transform unit, in samples.
pub open spec fn tu_size_of(t: TransformType) -> nat {
    match t {
        TransformType::Dd => 2,
        TransformType::Dds => 4,
    }
}

pub open spec fn transform_code(t: TransformType) -> nat {
    match t {
        TransformType::Dd => 0,
        TransformType::Dds => 1,
    }
}

#[derive(Clone, Copy, PartialEq, Eq, Debug, Structural)]
pub enum UpsampleType {
    Nearest,
    Linear,
    Cubic,
    ModifiedCubic,
}

impl UpsampleType {
    pub fn to_bit(self) -> (b: u8)
        ensures
            b == upsample_code(self),
    {
        match self {
            UpsampleType::Nearest => 0,
            UpsampleType::Linear => 1,
            UpsampleType::Cubic => 2,
            UpsampleType::ModifiedCubic => 3,
        }
    }

    /// Kernel taps: {k0, k1, k2, k3}.
    pub fn kernel(self) -> (k: [i16; 4])
        ensures
            k@ == kernel_of(self),
    {
        let k: [i16; 4] = match self {
            UpsampleType::Nearest => [0, 16384, 0, 0],
            UpsampleType::Linear => [0, 12288, 4096, 0],
            UpsampleType::Cubic => [-1382, 14285, 3942, -461],
            UpsampleType::ModifiedCubic => [-2360, 15855, 4165, -1276],
        };
        assert(k@ =~= kernel_of(self));
        k
    }
}

pub open spec fn upsample_code(u: UpsampleType) -> nat {
    match u {
        UpsampleType::Nearest => 0,
        UpsampleType::Linear => 1,
        UpsampleType::Cubic => 2,
        UpsampleType::ModifiedCubic => 3,
    }
}

/// Kernel taps.
pub open spec fn kernel_of(u: UpsampleType) -> Seq<i16> {
    match u {
        UpsampleType::Nearest => seq![0i16, 16384, 0, 0],
        UpsampleType::Linear => seq![0i16, 12288, 4096, 0],
        UpsampleType::Cubic => seq![-1382i16, 14285i16, 3942i16, -461i16],
        UpsampleType::ModifiedCubic => seq![-2360i16, 15855i16, 4165i16, -1276i16],
    }
}

#[derive(Clone, Copy, PartialEq, Eq, Debug, Structural)]
pub enum ScalingMode {
    /// No scaling.
    Scale0D,
    /// 2:1 horizontally only.
    Scale1D,
    /// 2:1 in both dimensions.
    Scale2D,
}

impl ScalingMode {
    pub fn to_bit(self) -> (b: u8)
        ensures
            b == scaling_code(self),
    {
        match self {
            ScalingMode::Scale0D => 0,
            ScalingMode::Scale1D => 1,
            ScalingMode::Scale2D => 2,
        }
    }
}

pub open spec fn scaling_code(s: ScalingMode) -> nat {
    match s {
        ScalingMode::Scale0D => 0,
        ScalingMode::Scale1D => 1,
        ScalingMode::Scale2D => 2,
    }
}

#[derive(Clone, Copy, PartialEq, Eq, Debug, Structural)]
pub enum ChromaFormat {
    Monochrome,
    C420,
    C422,
    C444,
}

impl ChromaFormat {
    pub fn to_bit(self) -> (b: u8)
        ensures
            b == chroma_code(self),
    {
        match self {
            ChromaFormat::Monochrome => 0,
            ChromaFormat::C420 => 1,
            ChromaFormat::C422 => 2,
            ChromaFormat::C444 => 3,
        }
    }

    pub fn num_planes(self) -> (n: usize)
        ensures
            n == planes_of(self),
    {
        match self {
            ChromaFormat::Monochrome => 1,
            _ => 3,
        }
    }

    /// Luma sample shifts to chroma dimensions.
    pub fn shift(self) -> (s: (u32, u32))
        ensures
            s == chroma_shift(self),
    {
        match self {
            ChromaFormat::Monochrome => (0, 0),
            ChromaFormat::C420 => (1, 1),
            ChromaFormat::C422 => (1, 0),
            ChromaFormat::C444 => (0, 0),
        }
    }
}

pub open spec fn chroma_code(c: ChromaFormat) -> nat {
    match c {
        ChromaFormat::Monochrome => 0,
        ChromaFormat::C420 => 1,
        ChromaFormat::C422 => 2,
        ChromaFormat::C444 => 3,
    }
}

pub open spec fn planes_of(c: ChromaFormat) -> nat {
    match c {
        ChromaFormat::Monochrome => 1,
        _ => 3,
    }
}

/// Whether chroma has half the width, and half the height, as binary logarithms.
pub open spec fn chroma_shift(c: ChromaFormat) -> (u32, u32) {
    match c {
        ChromaFormat::Monochrome => (0, 0),
        ChromaFormat::C420 => (1, 1),
        ChromaFormat::C422 => (1, 0),
        ChromaFormat::C444 => (0, 0),
    }
}

#[derive(Clone, Copy, PartialEq, Eq, Debug, Structural)]
pub enum TileDimensions {
    Untiled,
    T512x256,
    T1024x512,
    Custom,
}

impl TileDimensions {
    pub fn to_bit(self) -> (b: u8)
        ensures
            b == tile_code(self),
    {
        match self {
            TileDimensions::Untiled => 0,
            TileDimensions::T512x256 => 1,
            TileDimensions::T1024x512 => 2,
            TileDimensions::Custom => 3,
        }
    }

    pub fn default_size(self) -> (s: Option<(u16, u16)>)
        ensures
            s == default_tile_size(self),
    {
        match self {
            TileDimensions::T512x256 => Some((512, 256)),
            TileDimensions::T1024x512 => Some((1024, 512)),
            _ => None,
        }
    }
}

pub open spec fn tile_code(t: TileDimensions) -> nat {
    match t {
        TileDimensions::Untiled => 0,
        TileDimensions::T512x256 => 1,
        TileDimensions::T1024x512 => 2,
        TileDimensions::Custom => 3,
    }
}

pub open spec fn default_tile_size(t: TileDimensions) -> Option<(u16, u16)> {
    match t {
        TileDimensions::T512x256 => Some((512u16, 256u16)),
        TileDimensions::T1024x512 => Some((1024u16, 512u16)),
        _ => None,
    }
}

/// Quantization-matrix mode (picture config, 3 bits).
#[derive(Clone, Copy, PartialEq, Eq, Debug, Structural)]
pub enum QuantMatrixMode {
    UsePrevious,
    UseDefault,
    CustomBoth,
    CustomLoq0,
    CustomLoq1,
    CustomBothUnique,
}

/// Colour metadata carried from the source into the VVC base VUI and the MP4 `colr` box. The
/// name fields are the ffmpeg option names (e.g. "bt2020", "smpte2084", "bt2020nc"); the
/// numeric fields are the CICP values used by the MP4 nclx box.
#[derive(Clone, PartialEq, Eq, Debug, Default)]
pub struct ColourInfo {
    pub primaries_name: String,
    pub transfer_name: String,
    pub matrix_name: String,
    pub primaries: u16,
    pub transfer: u16,
    pub matrix: u16,
    pub full_range: bool,
}

/// The full encoder configuration, held constant for the stream.
#[derive(Clone, Debug)]
pub struct LcevcConfig {
    pub width: u16,
    pub height: u16,
    pub profile: u8,
    pub level: u8,
    pub sublevel: u8,
    pub chroma: ChromaFormat,
    /// Bits per sample, base layer (8, 10, 12, 14).
    pub base_depth: u8,
    /// Bits per sample, enhanced output.
    pub enhancement_depth: u8,
    pub transform: TransformType,
    pub upsampler: UpsampleType,
    /// Base -> L1.
    pub scaling_l1: ScalingMode,
    /// L1 -> L2.
    pub scaling_l2: ScalingMode,
    pub tile_dimensions: TileDimensions,
    pub custom_tile_size: Option<(u16, u16)>,
    /// compression_type_entropy_enabled_per_tile_flag.
    pub per_tile_entropy_compression: bool,
    /// compression_type_size_per_tile (0..2).
    pub tile_size_compression: u8,
    pub predicted_average: bool,
    pub temporal_enabled: bool,
    pub temporal_tile_intra_signalling: bool,
    pub temporal_step_width_modifier: u8,
    pub chroma_step_width_multiplier: u8,
    /// 0 = disabled, 1 = 2 bits, 2 = 6 bits.
    pub user_data: u8,
    pub colour: Option<ColourInfo>,
    pub loq1_use_enhanced_depth: bool,
    pub level1_filtering_signalled: bool,
    /// Signalled value (0..15).
    pub level1_filtering_first_coefficient: u8,
    pub level1_filtering_second_coefficient: u8,
}

impl Default for LcevcConfig {
    fn default() -> (c: Self)
        ensures
            c.width == 1920 && c.height == 1080,
            c.profile == 0 && c.level == 3 && c.sublevel == 0,
            c.chroma == ChromaFormat::C420,
            c.base_depth == 8 && c.enhancement_depth == 8,
            c.transform == TransformType::Dds,
            c.upsampler == UpsampleType::Linear,
            c.scaling_l1 == ScalingMode::Scale2D && c.scaling_l2 == ScalingMode::Scale2D,
            c.tile_dimensions == TileDimensions::Untiled,
            c.custom_tile_size is None,
            !c.per_tile_entropy_compression,
            c.tile_size_compression == 0,
            c.predicted_average,
            !c.temporal_enabled && !c.temporal_tile_intra_signalling,
            c.temporal_step_width_modifier == 48,
            c.chroma_step_width_multiplier == 64,
            c.user_data == 0,
            c.colour is None,
            !c.loq1_use_enhanced_depth,
            !c.level1_filtering_signalled,
            c.level1_filtering_first_coefficient == 0,
            c.level1_filtering_second_coefficient == 0,
    {
        LcevcConfig {
            width: 1920,
            height: 1080,
            profile: 0,
            level: 3,
            sublevel: 0,
            chroma: ChromaFormat::C420,
            base_depth: 8,
            enhancement_depth: 8,
            transform: TransformType::Dds,
            upsampler: UpsampleType::Linear,
            scaling_l1: ScalingMode::Scale2D,
            scaling_l2: ScalingMode::Scale2D,
            tile_dimensions: TileDimensions::Untiled,
            custom_tile_size: None,
            per_tile_entropy_compression: false,
            tile_size_compression: 0,
            predicted_average: true,
            temporal_enabled: false,
            temporal_tile_intra_signalling: false,
            temporal_step_width_modifier: 48,
            chroma_step_width_multiplier: 64,
            user_data: 0,
            colour: None,
            loq1_use_enhanced_depth: false,
            level1_filtering_signalled: false,
            level1_filtering_first_coefficient: 0,
            level1_filtering_second_coefficient: 0,
        }
    }
}

/// Dimensions one scaling step down, rounded up.
pub open spec fn scaled_down(d: (int, int), m: ScalingMode) -> (int, int) {
    match m {
        ScalingMode::Scale0D => d,
        ScalingMode::Scale1D => ((d.0 + 1) / 2, d.1),
        ScalingMode::Scale2D => ((d.0 + 1) / 2, (d.1 + 1) / 2),
    }
}

/// Luma dimensions of LOQ0 (L2), LOQ1 (L1) and LOQ2 (base).
pub open spec fn loq_size(c: LcevcConfig, loq: int) -> (int, int) {
    let full = (c.width as int, c.height as int);
    let half = scaled_down(full, c.scaling_l2);
    if loq == 0 {
        full
    } else if loq == 1 {
        half
    } else {
        scaled_down(half, c.scaling_l1)
    }
}

/// Luma dimensions turned into those of a plane: chroma dimensions are rounded up.
pub open spec fn in_plane(d: (int, int), chroma: ChromaFormat, plane: int) -> (int, int) {
    let (h, v) = chroma_shift(chroma);
    if plane > 0 {
        (
            if h == 1 {
                (d.0 + 1) / 2
            } else {
                d.0
            },
            if v == 1 {
                (d.1 + 1) / 2
            } else {
                d.1
            },
        )
    } else {
        d
    }
}

/// Dimensions of a plane at a LOQ.
pub open spec fn plane_size(c: LcevcConfig, loq: int, plane: int) -> (int, int) {
    in_plane(loq_size(c, loq), c.chroma, plane)
}

/// The tile size of a plane: the whole plane where the picture is not tiled.
pub open spec fn tile_size(c: LcevcConfig, plane: int) -> (int, int) {
    if c.tile_dimensions == TileDimensions::Untiled {
        plane_size(c, 0, plane)
    } else {
        let (w, h) = luma_tile_size(c);
        in_plane((w as int, h as int), c.chroma, plane)
    }
}

/// The luma tile size of a tiled picture.
pub open spec fn luma_tile_size(c: LcevcConfig) -> (u16, u16) {
    match c.tile_dimensions {
        TileDimensions::Custom => c.custom_tile_size->0,
        _ => default_tile_size(c.tile_dimensions)->0,
    }
}

/// A custom tile size is given where the configuration asks for one.
pub open spec fn tile_size_known(c: LcevcConfig) -> bool {
    c.tile_dimensions == TileDimensions::Custom ==> c.custom_tile_size is Some
}

/// Horizontal and vertical alignment that whole transforms need after scaling and chroma
/// subsampling.
pub open spec fn alignment(c: LcevcConfig) -> (int, int) {
    let t = tu_size_of(c.transform) as int;
    (
        t * (if c.scaling_l2 != ScalingMode::Scale0D {
            2int
        } else {
            1int
        }) * (if chroma_shift(c.chroma).0 == 1 {
            2int
        } else {
            1int
        }),
        t * (if c.scaling_l2 == ScalingMode::Scale2D {
            2int
        } else {
            1int
        }) * (if chroma_shift(c.chroma).1 == 1 {
            2int
        } else {
            1int
        }),
    )
}

pub open spec fn misaligned_message(c: LcevcConfig) -> Seq<char> {
    let (h, v) = alignment(c);
    "resolution "@ + text::decimal(c.width as nat) + "x"@ + text::decimal(c.height as nat)
        + " not aligned for this configuration (needs "@ + text::decimal(h as nat) + "x"@
        + text::decimal(v as nat) + ")"@
}

pub open spec fn bad_tile_message(c: LcevcConfig, plane: int) -> Seq<char> {
    let (w, h) = tile_size(c, plane);
    "tile dimensions "@ + text::decimal(w as nat) + "x"@ + text::decimal(h as nat) + " (plane "@
        + text::decimal(plane as nat) + ") not divisible by transform size "@ + text::decimal(
        tu_size_of(c.transform),
    )
}

/// The tiles of a plane hold whole transforms.
pub open spec fn tile_fits(c: LcevcConfig, plane: int) -> bool {
    let (w, h) = tile_size(c, plane);
    let t = tu_size_of(c.transform) as int;
    w % t == 0 && h % t == 0
}

/// What is wrong with a configuration, if anything: the first rule that it breaks.
pub open spec fn config_error(c: LcevcConfig) -> Option<Seq<char>> {
    let (h, v) = alignment(c);
    if c.width == 0 || c.height == 0 {
        Some("zero resolution"@)
    } else if !tile_size_known(c) {
        Some("custom tile size required for TileDimensions::Custom"@)
    } else if c.tile_dimensions == TileDimensions::Custom && ((c.custom_tile_size->0).0 == 0
        || (c.custom_tile_size->0).1 == 0) {
        Some("invalid custom tile size"@)
    } else if c.width as int % h != 0 || c.height as int % v != 0 {
        Some(misaligned_message(c))
    } else if c.tile_dimensions == TileDimensions::Untiled {
        None
    } else if !tile_fits(c, 0) {
        Some(bad_tile_message(c, 0))
    } else if planes_of(c.chroma) == 3 && !tile_fits(c, 1) {
        Some(bad_tile_message(c, 1))
    } else {
        None
    }
}

/// The resolution type of a picture size.
pub open spec fn is_resolution_type(w: u16, h: u16, t: int) -> bool {
    if t == RESOLUTION_CUSTOM {
        forall|i: int| 1 <= i < 63 ==> #[trigger] resolution::standard_size(i) != (w, h)
    } else {
        &&& 1 <= t < 63
        &&& resolution::standard_size(t) == (w, h)
        &&& forall|i: int| 1 <= i < t ==> #[trigger] resolution::standard_size(i) != (w, h)
    }
}

/// Half of a dimension, rounded up.
fn half_up(v: u16) -> (r: u16)
    ensures
        r == (v as int + 1) / 2,
{
    v / 2 + v % 2
}

impl LcevcConfig {
    pub fn num_planes(&self) -> (n: usize)
        ensures
            n == planes_of(self.chroma),
    {
        self.chroma.num_planes()
    }

    pub fn num_layers(&self) -> (n: usize)
        ensures
            n == layers_of(self.transform),
    {
        self.transform.layers()
    }

    pub fn tu_size(&self) -> (n: usize)
        ensures
            n == tu_size_of(self.transform),
    {
        self.transform.tu_size()
    }

    pub fn is_tiled(&self) -> (r: bool)
        ensures
            r == (self.tile_dimensions != TileDimensions::Untiled),
    {
        self.tile_dimensions != TileDimensions::Untiled
    }

    /// Validate the configuration against the constraints of a decoder.
    pub fn validate(&self) -> (r: Result<(), String>)
        ensures
            match r {
                Ok(_) => config_error(*self) is None,
                Err(e) => config_error(*self) == Some(e@),
            },
    {
        if self.width == 0 || self.height == 0 {
            return Err("zero resolution".to_string());
        }
        if self.tile_dimensions == TileDimensions::Custom {
            match self.custom_tile_size {
                None => {
                    return Err("custom tile size required for TileDimensions::Custom".to_string());
                },
                Some((tw, th)) => {
                    if tw == 0 || th == 0 {
                        return Err("invalid custom tile size".to_string());
                    }
                },
            }
        }
        // Width and height must be whole transforms after scaling and chroma subsampling.
        let t: u32 = self.tu_size() as u32;
        let (hshift, vshift) = self.chroma.shift();
        let hori: u32 = t * (if self.scaling_l2 != ScalingMode::Scale0D {
            2u32
        } else {
            1u32
        }) * (if hshift == 1 {
            2u32
        } else {
            1u32
        });
        let vert: u32 = t * (if self.scaling_l2 == ScalingMode::Scale2D {
            2u32
        } else {
            1u32
        }) * (if vshift == 1 {
            2u32
        } else {
            1u32
        });
        if self.width as u32 % hori != 0 || self.height as u32 % vert != 0 {
            let mut e: String = "resolution ".to_string();
            text::push_decimal(&mut e, self.width as u64);
            e.append("x");
            text::push_decimal(&mut e, self.height as u64);
            e.append(" not aligned for this configuration (needs ");
            text::push_decimal(&mut e, hori as u64);
            e.append("x");
            text::push_decimal(&mut e, vert as u64);
            e.append(")");
            return Err(e);
        }
        // Tiled picture: tile dimensions must be divisible by the transform size for every
        // plane.
        if self.is_tiled() {
            let mut p: usize = 0;
            let n: usize = self.num_planes();
            let ts: u16 = self.tu_size() as u16;
            while p < n
                invariant
                    p <= n,
                    n == planes_of(self.chroma),
                    ts == tu_size_of(self.transform),
                    self.tile_dimensions != TileDimensions::Untiled,
                    tile_size_known(*self),
                    p > 0 ==> tile_fits(*self, 0),
                    p > 1 ==> tile_fits(*self, 1),
                    config_error(*self) == (if !tile_fits(*self, 0) {
                        Some(bad_tile_message(*self, 0))
                    } else if planes_of(self.chroma) == 3 && !tile_fits(*self, 1) {
                        Some(bad_tile_message(*self, 1))
                    } else {
                        None
                    }),
                decreases n - p,
            {
                let (tw, th) = self.tile_dimensions_plane(p);
                if tw % ts != 0 || th % ts != 0 {
                    let mut e: String = "tile dimensions ".to_string();
                    text::push_decimal(&mut e, tw as u64);
                    e.append("x");
                    text::push_decimal(&mut e, th as u64);
                    e.append(" (plane ");
                    text::push_decimal(&mut e, p as u64);
                    e.append(") not divisible by transform size ");
                    text::push_decimal(&mut e, ts as u64);
                    return Err(e);
                }
                p = p + 1;
            }
        }
        Ok(())
    }

    /// Resolution type code for the configured picture size.
    pub fn resolution_type(&self) -> (t: u8)
        ensures
            is_resolution_type(self.width, self.height, t as int),
    {
        let mut i: usize = 1;
        while i < 63
            invariant
                1 <= i <= 63,
                forall|k: int|
                    1 <= k < i ==> #[trigger] resolution::standard_size(k) != (self.width, self.height),
            decreases 63 - i,
        {
            let (w, h) = resolution::standard_resolution(i);
            if w == self.width && h == self.height {
                return i as u8;
            }
            i = i + 1;
        }
        RESOLUTION_CUSTOM
    }

    /// Dimensions of LOQ0 (L2), LOQ1 (L1) and LOQ2 (base) in luma samples.
    pub fn loq_dimensions(&self) -> (dims: [(u16, u16); 3])
        ensures
            forall|loq: int|
                0 <= loq < 3 ==> (
                #[trigger] dims@[loq].0 as int, dims@[loq].1 as int) == loq_size(*self, loq),
    {
        let w: u16 = self.width;
        let h: u16 = self.height;
        let (w1, h1) = match self.scaling_l2 {
            ScalingMode::Scale0D => (w, h),
            ScalingMode::Scale1D => (half_up(w), h),
            ScalingMode::Scale2D => (half_up(w), half_up(h)),
        };
        let (w2, h2) = match self.scaling_l1 {
            ScalingMode::Scale0D => (w1, h1),
            ScalingMode::Scale1D => (half_up(w1), h1),
            ScalingMode::Scale2D => (half_up(w1), half_up(h1)),
        };
        let dims: [(u16, u16); 3] = [(w, h), (w1, h1), (w2, h2)];
        assert(dims@[0] == (w, h) && dims@[1] == (w1, h1) && dims@[2] == (w2, h2));
        dims
    }

    /// The dimensions of a plane from those of luma.
    fn plane_of(&self, d: (u16, u16), plane: usize) -> (r: (u16, u16))
        ensures
            (r.0 as int, r.1 as int) == in_plane((d.0 as int, d.1 as int), self.chroma, plane as int),
    {
        if plane == 0 {
            return d;
        }
        let (hshift, vshift) = self.chroma.shift();
        let w: u16 = if hshift == 1 {
            half_up(d.0)
        } else {
            d.0
        };
        let h: u16 = if vshift == 1 {
            half_up(d.1)
        } else {
            d.1
        };
        (w, h)
    }

    /// Plane dimensions (luma or chroma) for a given LOQ.
    pub fn plane_dimensions(&self, loq: usize, plane: usize) -> (r: (u16, u16))
        requires
            loq < 3,
        ensures
            (r.0 as int, r.1 as int) == plane_size(*self, loq as int, plane as int),
    {
        let dims = self.loq_dimensions();
        assert((dims@[loq as int].0 as int, dims@[loq as int].1 as int) == loq_size(
            *self,
            loq as int,
        ));
        self.plane_of(dims[loq], plane)
    }

    /// Tile dimensions per plane (chroma tiles are the chroma-sized tiles).
    pub fn tile_dimensions_plane(&self, plane: usize) -> (r: (u16, u16))
        requires
            tile_size_known(*self),
        ensures
            (r.0 as int, r.1 as int) == tile_size(*self, plane as int),
    {
        if !self.is_tiled() {
            return self.plane_dimensions(0, plane);
        }
        let luma: (u16, u16) = match self.tile_dimensions {
            TileDimensions::Custom => match self.custom_tile_size {
                Some(s) => s,
                None => (0, 0),
            },
            TileDimensions::T512x256 => (512, 256),
            _ => (1024, 512),
        };
        self.plane_of(luma, plane)
    }

    /// Number of tiles for a plane at a given LOQ.
    pub fn num_tiles(&self, loq: usize, plane: usize) -> (n: usize)
        requires
            loq < 3,
            tile_size_known(*self),
            tile_size(*self, plane as int).0 > 0,
            tile_size(*self, plane as int).1 > 0,
        ensures
            n == tile_count(*self, loq as int, plane as int),
    {
        let (pw, ph) = self.plane_dimensions(loq, plane);
        let (tw, th) = self.tile_dimensions_plane(plane);
        let across: u32 = (pw as u32 + tw as u32 - 1) / tw as u32;
        let down: u32 = (ph as u32 + th as u32 - 1) / th as u32;
        proof {
            lemma_ceil_div(pw as int, tw as int);
            lemma_ceil_div(ph as int, th as int);
            assert(across * down <= 65535 * 65535) by (nonlinear_arith)
                requires
                    0 <= across <= 65535,
                    0 <= down <= 65535,
            ;
        }
        across as usize * down as usize
    }

    /// Sample depth of the enhanced output (8 or 10 bits).
    pub fn sample_depth(&self) -> (d: u8)
        ensures
            d == self.enhancement_depth,
    {
        self.enhancement_depth
    }

    pub fn is_8bit(&self) -> (r: bool)
        ensures
            r == (self.base_depth == 8 && self.enhancement_depth == 8),
    {
        self.base_depth == 8 && self.enhancement_depth == 8
    }

    /// Write the sequence configuration payload (block type 0).
    pub fn write_sequence_config(&self) -> (out: Vec<u8>)
        ensures
            out@ == bitstream::pack(sequence_bits(*self)),
    {
        let mut w = BitWriter::new();
        w.write_bits(self.profile as u64, 4);
        w.write_bits(self.level as u64, 4);
        w.write_bits(self.sublevel as u64, 2);
        w.write_bit(false);  // conformance_window_flag
        w.write_bits(0, 5);  // reserved
        if self.profile == 15 || self.level == 15 {
            // extended_profile_idc (3), extended_level_idc (7), reserved (1)
            w.write_bits(0, 3);
            w.write_bits(0, 7);
            w.write_bit(false);
        }
        w.finish()
    }

    /// Write the global configuration payload (block type 1).
    pub fn write_global_config(&self) -> (out: Vec<u8>)
        requires
            self.base_depth >= 8,
            self.enhancement_depth >= 8,
            tile_size_known(*self),
        ensures
            out@ == bitstream::pack(global_bits(*self)),
    {
        let mut w = BitWriter::new();
        let res_type: u8 = self.resolution_type();
        proof {
            lemma_resolution_type_unique(self.width, self.height, res_type as int);
        }
        let plane_mode_flag: bool = self.num_planes() == 3;
        self.write_picture_bytes(&mut w, plane_mode_flag, res_type);
        self.write_mode_bytes(&mut w);
        self.write_global_tail(&mut w, plane_mode_flag, res_type);
        w.finish()
    }

    /// Write the first two bytes of the global configuration.
    fn write_picture_bytes(&self, w: &mut BitWriter, plane_mode_flag: bool, res_type: u8)
        requires
            old(w).wf(),
            old(w)@ == Seq::<bool>::empty(),
            self.base_depth >= 8,
            self.enhancement_depth >= 8,
            plane_mode_flag == (planes_of(self.chroma) == 3),
            res_type == resolution_code(self.width, self.height),
        ensures
            final(w).wf(),
            final(w)@ == picture_bits(*self),
            final(w)@.len() == 16,
    {
        w.write_bit(plane_mode_flag);
        w.write_bits(res_type as u64, 6);
        w.write_bits(self.transform.to_bit() as u64, 1);
        w.write_bits(self.chroma.to_bit() as u64, 2);
        w.write_bits((self.base_depth / 2 - 4) as u64, 2);
        w.write_bits((self.enhancement_depth / 2 - 4) as u64, 2);
        w.write_bit(self.temporal_step_width_modifier != 48);
        w.write_bit(self.predicted_average);
    }

    /// Write the third and fourth byte of the global configuration.
    #[verifier::rlimit(60)]
    fn write_mode_bytes(&self, w: &mut BitWriter)
        requires
            old(w).wf(),
            old(w)@ == picture_bits(*self),
            old(w)@.len() == 16,
        ensures
            final(w).wf(),
            final(w)@ == global_head_bits(*self),
            final(w)@.len() == 32,
    {
        w.write_bit(self.temporal_tile_intra_signalling);
        w.write_bit(self.temporal_enabled);
        w.write_bits(self.upsampler.to_bit() as u64, 3);
        w.write_bit(self.level1_filtering_signalled);
        w.write_bits(self.scaling_l1.to_bit() as u64, 2);
        w.write_bits(self.scaling_l2.to_bit() as u64, 2);
        w.write_bits(self.tile_dimensions.to_bit() as u64, 2);
        w.write_bits(self.user_data as u64, 2);
        w.write_bit(self.loq1_use_enhanced_depth);
        w.write_bit(self.chroma_step_width_multiplier != 64);
    }

    /// Write what follows the first four bytes of the global configuration.
    fn write_global_tail(&self, w: &mut BitWriter, plane_mode_flag: bool, res_type: u8)
        requires
            old(w).wf(),
            old(w)@ == global_head_bits(*self),
            old(w)@.len() == 32,
            tile_size_known(*self),
            plane_mode_flag == (planes_of(self.chroma) == 3),
            res_type == resolution_code(self.width, self.height),
        ensures
            final(w).wf(),
            final(w)@ == global_bits(*self),
            final(w)@.len() <= 1000,
    {
        // Plane type byte: [plane_type:4][reserved:4], plane_type 1 = YUV (3 planes).
        if plane_mode_flag {
            w.write_bits(1, 4);
            w.write_bits(0, 4);
        }
        if self.temporal_step_width_modifier != 48 {
            w.write_byte(self.temporal_step_width_modifier);
        }
        // Level-1 filtering coefficients.
        if self.level1_filtering_signalled {
            w.write_bits(self.level1_filtering_first_coefficient as u64, 4);
            w.write_bits(self.level1_filtering_second_coefficient as u64, 4);
        }
        // Tiling data.
        if self.is_tiled() {
            if self.tile_dimensions == TileDimensions::Custom {
                if let Some((tw, th)) = self.custom_tile_size {
                    w.write_u16(tw);
                    w.write_u16(th);
                }
            }
            w.write_bits(0, 5);  // reserved
            w.write_bit(self.per_tile_entropy_compression);
            w.write_bits(self.tile_size_compression as u64, 2);
        }
        // Custom resolution.
        if res_type == RESOLUTION_CUSTOM {
            w.write_u16(self.width);
            w.write_u16(self.height);
        }
        if self.chroma_step_width_multiplier != 64 {
            w.write_byte(self.chroma_step_width_multiplier);
        }
    }

    /// The configuration without its colour description, which no coded sample depends on.
    pub fn without_colour(&self) -> (c: LcevcConfig)
        ensures
            c == (LcevcConfig { colour: None, ..*self }),
    {
        LcevcConfig {
            width: self.width,
            height: self.height,
            profile: self.profile,
            level: self.level,
            sublevel: self.sublevel,
            chroma: self.chroma,
            base_depth: self.base_depth,
            enhancement_depth: self.enhancement_depth,
            transform: self.transform,
            upsampler: self.upsampler,
            scaling_l1: self.scaling_l1,
            scaling_l2: self.scaling_l2,
            tile_dimensions: self.tile_dimensions,
            custom_tile_size: self.custom_tile_size,
            per_tile_entropy_compression: self.per_tile_entropy_compression,
            tile_size_compression: self.tile_size_compression,
            predicted_average: self.predicted_average,
            temporal_enabled: self.temporal_enabled,
            temporal_tile_intra_signalling: self.temporal_tile_intra_signalling,
            temporal_step_width_modifier: self.temporal_step_width_modifier,
            chroma_step_width_multiplier: self.chroma_step_width_multiplier,
            user_data: self.user_data,
            colour: None,
            loq1_use_enhanced_depth: self.loq1_use_enhanced_depth,
            level1_filtering_signalled: self.level1_filtering_signalled,
            level1_filtering_first_coefficient: self.level1_filtering_first_coefficient,
            level1_filtering_second_coefficient: self.level1_filtering_second_coefficient,
        }
    }
}

proof fn lemma_ceil_div(a: int, b: int)
    requires
        0 <= a <= 65535,
        0 < b <= 65535,
    ensures
        0 <= (a + b - 1) / b <= 65535,
{
    if a > 0 {
        assert((a + b - 1) / b <= a) by (nonlinear_arith)
            requires
                0 < b,
                0 < a,
        ;
    } else {
        vstd::arithmetic::div_mod::lemma_basic_div(b - 1, b);
    }
    vstd::arithmetic::div_mod::lemma_div_pos_is_pos(a + b - 1, b);
}

/// Number of tiles of a plane: the tiles across, rounded up, times the tiles down.
pub open spec fn tile_count(c: LcevcConfig, loq: int, plane: int) -> int {
    let (w, h) = plane_size(c, loq, plane);
    let (tw, th) = tile_size(c, plane);
    ((w + tw - 1) / tw) * ((h + th - 1) / th)
}

/// The resolution type of a picture size.
pub open spec fn resolution_code(w: u16, h: u16) -> int {
    choose|t: int| is_resolution_type(w, h, t)
}

pub proof fn lemma_resolution_type_unique(w: u16, h: u16, t: int)
    requires
        is_resolution_type(w, h, t),
    ensures
        resolution_code(w, h) == t,
{
    let u = resolution_code(w, h);
    if u < t {
        assert(resolution::standard_size(u) == (w, h));
    } else if t < u {
        assert(resolution::standard_size(t) == (w, h));
    }
}

/// The bits of the sequence configuration.
pub open spec fn sequence_bits(c: LcevcConfig) -> Seq<bool> {
    let s = Seq::<bool>::empty();
    let s = s + bitstream::bits_of(c.profile as nat, 4);
    let s = s + bitstream::bits_of(c.level as nat, 4);
    let s = s + bitstream::bits_of(c.sublevel as nat, 2);
    let s = s.push(false);
    let s = s + bitstream::bits_of(0, 5);
    if c.profile == 15 || c.level == 15 {
        (s + bitstream::bits_of(0, 3) + bitstream::bits_of(0, 7)).push(false)
    } else {
        s
    }
}

/// The first two bytes of the global configuration.
pub open spec fn picture_bits(c: LcevcConfig) -> Seq<bool> {
    let s = Seq::<bool>::empty();
    let s = s.push(planes_of(c.chroma) == 3);
    let s = s + bitstream::bits_of(resolution_code(c.width, c.height) as nat, 6);
    let s = s + bitstream::bits_of(transform_code(c.transform), 1);
    let s = s + bitstream::bits_of(chroma_code(c.chroma), 2);
    let s = s + bitstream::bits_of((c.base_depth / 2 - 4) as nat, 2);
    let s = s + bitstream::bits_of((c.enhancement_depth / 2 - 4) as nat, 2);
    let s = s.push(c.temporal_step_width_modifier != 48);
    s.push(c.predicted_average)
}

/// The first four bytes of the global configuration.
pub open spec fn global_head_bits(c: LcevcConfig) -> Seq<bool> {
    let s = picture_bits(c);
    let s = s.push(c.temporal_tile_intra_signalling);
    let s = s.push(c.temporal_enabled);
    let s = s + bitstream::bits_of(upsample_code(c.upsampler), 3);
    let s = s.push(c.level1_filtering_signalled);
    let s = s + bitstream::bits_of(scaling_code(c.scaling_l1), 2);
    let s = s + bitstream::bits_of(scaling_code(c.scaling_l2), 2);
    let s = s + bitstream::bits_of(tile_code(c.tile_dimensions), 2);
    let s = s + bitstream::bits_of(c.user_data as nat, 2);
    let s = s.push(c.loq1_use_enhanced_depth);
    s.push(c.chroma_step_width_multiplier != 64)
}

/// The bits of the global configuration.
pub open spec fn global_bits(c: LcevcConfig) -> Seq<bool> {
    let s = global_head_bits(c);
    let s = if planes_of(c.chroma) == 3 {
        s + bitstream::bits_of(1, 4) + bitstream::bits_of(0, 4)
    } else {
        s
    };
    let s = if c.temporal_step_width_modifier != 48 {
        s + bitstream::bits_of(c.temporal_step_width_modifier as nat, 8)
    } else {
        s
    };
    let s = if c.level1_filtering_signalled {
        s + bitstream::bits_of(c.level1_filtering_first_coefficient as nat, 4) + bitstream::bits_of(
            c.level1_filtering_second_coefficient as nat,
            4,
        )
    } else {
        s
    };
    let s = if c.tile_dimensions != TileDimensions::Untiled {
        let s = if c.tile_dimensions == TileDimensions::Custom {
            s + bitstream::bits_of((c.custom_tile_size->0).0 as nat, 16) + bitstream::bits_of(
                (c.custom_tile_size->0).1 as nat,
                16,
            )
        } else {
            s
        };
        (s + bitstream::bits_of(0, 5)).push(c.per_tile_entropy_compression) + bitstream::bits_of(
            c.tile_size_compression as nat,
            2,
        )
    } else {
        s
    };
    let s = if resolution_code(c.width, c.height) == RESOLUTION_CUSTOM {
        s + bitstream::bits_of(c.width as nat, 16) + bitstream::bits_of(c.height as nat, 16)
    } else {
        s
    };
    if c.chroma_step_width_multiplier != 64 {
        s + bitstream::bits_of(c.chroma_step_width_multiplier as nat, 8)
    } else {
        s
    }
}

/// The level_idc of a sample rate.
pub open spec fn level_of(samples: int) -> u8 {
    if samples <= 29_410_000 {
        1
    } else if samples <= 124_560_000 {
        2
    } else if samples <= 527_650_000 {
        3
    } else {
        4
    }
}

/// Derive a level_idc from the output sample rate.
pub fn level_for_sample_rate(width: u32, height: u32, fps: u32) -> (level: u8)
    ensures
        level == level_of(width * height * fps),
{
    proof {
        assert(width * height <= 0xffff_ffff * 0xffff_ffff) by (nonlinear_arith)
            requires
                0 <= width <= 0xffff_ffff,
                0 <= height <= 0xffff_ffff,
        ;
        assert((width * height) * fps <= 0xffff_ffff * 0xffff_ffff * 0xffff_ffff) by (nonlinear_arith)
            requires
                0 <= width * height <= 0xffff_ffff * 0xffff_ffff,
                0 <= fps <= 0xffff_ffff,
        ;
        assert((width * height) * fps >= 0) by (nonlinear_arith)
            requires
                0 <= width * height,
                0 <= fps,
        ;
    }
    let area: u128 = width as u128 * height as u128;
    let samples: u128 = area * fps as u128;
    if samples <= 29_410_000 {
        1
    } else if samples <= 124_560_000 {
        2
    } else if samples <= 527_650_000 {
        3
    } else {
        4
    }
}

/// Convenience: a multibyte as a byte vector (used for chunk sizes).
pub fn multibyte_bytes(value: u64) -> (out: Vec<u8>)
    ensures
        out@ == bitstream::multibyte(value as nat),
{
    bitstream::multibyte_groups(value)
}

} // verus!
