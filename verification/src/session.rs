//! The decisions of one encoding session: what the options of the command line come to, which
//! frames are read, and how the results are compared and put together.
use crate::annexb;
use crate::base::BaseMode;
use crate::cli::{Names, Settings, USAGE};
use crate::config;
use crate::config::{ChromaFormat, ColourInfo, LcevcConfig};
use crate::frame;
use crate::frame::{Picture, Raster};
use crate::mp4;
use crate::simd;
use crate::text;
use crate::y4m::Y4mReader;
use crate::yuv;
use vstd::prelude::*;

verus! {

/// The base codec that a name stands for.
pub fn base_mode_of(name: &str) -> (r: Result<BaseMode, String>)
    ensures
        match r {
            Ok(BaseMode::Raw) => name@ == "raw"@,
            Ok(BaseMode::Vvc) => name@ == "vvc"@,
            Err(e) => name@ != "raw"@ && name@ != "vvc"@ && e@ == "unknown base mode "@ + name@,
        },
{
    if text::same(name, "raw") {
        Ok(BaseMode::Raw)
    } else if text::same(name, "vvc") {
        Ok(BaseMode::Vvc)
    } else {
        let mut s = "unknown base mode ".to_string();
        s.append(name);
        Err(s)
    }
}

/// The options for the VVC encoder.
pub fn base_options(preset: &str, qp: &str) -> (s: String)
    ensures
        s@ == "preset="@ + preset@ + ",qp="@ + qp@,
{
    let mut s = "preset=".to_string();
    s.append(preset);
    s.append(",qp=");
    s.append(qp);
    s
}

/// How the input is laid out.
#[derive(Clone, Copy, Debug, PartialEq, Eq, Structural)]
pub enum SourceFormat {
    Raw,
    Y4m,
}

/// The format of the input: the one that was asked for, else Y4M where the input starts with
/// its magic. A format that is not known is refused for a file; stdin is taken as if none had
/// been asked for.
pub fn source_format(asked: Option<&str>, stdin: bool, magic: bool) -> (r: Result<
    SourceFormat,
    String,
>)
    ensures
        ({
            let probed = if magic {
                SourceFormat::Y4m
            } else {
                SourceFormat::Raw
            };
            match asked {
                None => r == Ok::<SourceFormat, String>(probed),
                Some(name) => if name@ == "y4m"@ {
                    r == Ok::<SourceFormat, String>(SourceFormat::Y4m)
                } else if name@ == "raw"@ {
                    r == Ok::<SourceFormat, String>(SourceFormat::Raw)
                } else if stdin {
                    r == Ok::<SourceFormat, String>(probed)
                } else {
                    r matches Err(e) && e@ == "unknown input format "@ + name@
                },
            }
        }),
{
    let probed = if magic {
        SourceFormat::Y4m
    } else {
        SourceFormat::Raw
    };
    match asked {
        None => Ok(probed),
        Some(name) => if text::same(name, "y4m") {
            Ok(SourceFormat::Y4m)
        } else if text::same(name, "raw") {
            Ok(SourceFormat::Raw)
        } else if stdin {
            Ok(probed)
        } else {
            let mut s = "unknown input format ".to_string();
            s.append(name);
            Err(s)
        },
    }
}

/// A ratio rounded to the nearest number, halves up.
pub open spec fn nearest_ratio(num: int, den: int) -> int {
    (2 * num + den) / (2 * den)
}

/// The frame rate of a stream, rounded to frames per second.
pub fn rounded_rate(num: u32, den: u32) -> (fps: u32)
    requires
        den > 0,
    ensures
        fps == nearest_ratio(num as int, den as int),
{
    let n: u64 = num as u64;
    let d: u64 = den as u64;
    let q: u64 = (2 * n + d) / (2 * d);
    proof {
        assert(q <= n + 1) by (nonlinear_arith)
            requires
                q == (2 * n + d) / (2 * d),
                d >= 1,
        ;
        assert(n == 0xffff_ffff ==> q <= n) by (nonlinear_arith)
            requires
                q == (2 * n + d) / (2 * d),
                d >= 1,
        ;
    }
    q as u32
}

/// The settings after a Y4M header: it gives the size and the frame rate.
pub open spec fn streamed(s: Settings, y4m: Option<Y4mReader>) -> Settings {
    match y4m {
        None => s,
        Some(r) => Settings {
            width: (r.width as int % 0x1_0000_0000) as u32,
            height: (r.height as int % 0x1_0000_0000) as u32,
            fps: if r.fps_num != 0 {
                nearest_ratio(r.fps_num as int, r.fps_den as int) as u32
            } else {
                s.fps
            },
            ..s
        },
    }
}

/// Take size and frame rate from a Y4M header.
pub fn stream_settings(s: Settings, y4m: Option<&Y4mReader>) -> (r: Settings)
    requires
        y4m matches Some(h) ==> h.fps_den > 0,
    ensures
        r == streamed(
            s,
            match y4m {
                Some(h) => Some(*h),
                None => None,
            },
        ),
{
    match y4m {
        None => s,
        Some(h) => {
            let fps: u32 = if h.fps_num != 0 {
                rounded_rate(h.fps_num, h.fps_den)
            } else {
                s.fps
            };
            Settings {
                width: (h.width as u64 % 0x1_0000_0000) as u32,
                height: (h.height as u64 % 0x1_0000_0000) as u32,
                fps,
                ..s
            }
        },
    }
}

fn with_usage(message: &str) -> (s: String)
    ensures
        s@ == message@ + "\n"@ + USAGE@,
{
    let mut s = message.to_string();
    s.append("\n");
    s.append(USAGE);
    s
}

/// A session needs an input.
pub fn input_of(n: &Names) -> (r: Result<String, String>)
    ensures
        match r {
            Ok(s) => n@.input == Some(s@),
            Err(e) => n@.input is None && e@ == "missing input"@ + "\n"@ + USAGE@,
        },
{
    match &n.input {
        Some(s) => Ok(s.clone()),
        None => Err(with_usage("missing input")),
    }
}

/// A session needs the size of its pictures.
pub fn check_size(s: &Settings) -> (r: Result<(), String>)
    ensures
        match r {
            Ok(_) => s.width != 0 && s.height != 0,
            Err(e) => (s.width == 0 || s.height == 0) && e@ == "missing size"@ + "\n"@ + USAGE@,
        },
{
    if s.width == 0 || s.height == 0 {
        Err(with_usage("missing size"))
    } else {
        Ok(())
    }
}

/// Where the enhancement stream goes.
pub fn output_of(n: &Names) -> (s: String)
    ensures
        s@ == (match n@.output {
            Some(t) => t,
            None => "out.lcevc"@,
        }),
{
    match &n.output {
        Some(s) => s.clone(),
        None => "out.lcevc".to_string(),
    }
}

/// The configuration of the stream. Dimensions have 16 bits.
pub open spec fn config_of(s: Settings) -> LcevcConfig {
    LcevcConfig {
        width: (s.width % 65536) as u16,
        height: (s.height % 65536) as u16,
        profile: 0,
        level: config::level_of(s.width * s.height * s.fps),
        sublevel: 0,
        chroma: ChromaFormat::C420,
        base_depth: s.bit_depth,
        enhancement_depth: s.bit_depth,
        transform: s.transform,
        upsampler: s.upsampler,
        scaling_l1: s.scaling_l1,
        scaling_l2: s.scaling_l2,
        tile_dimensions: s.tiles,
        custom_tile_size: s.custom_tile,
        per_tile_entropy_compression: false,
        tile_size_compression: s.tile_size_compression,
        predicted_average: s.predicted_average,
        temporal_enabled: s.temporal,
        temporal_tile_intra_signalling: false,
        temporal_step_width_modifier: s.temporal_sw_modifier,
        chroma_step_width_multiplier: 64,
        user_data: 0,
        colour: None,
        loq1_use_enhanced_depth: false,
        level1_filtering_signalled: false,
        level1_filtering_first_coefficient: 0,
        level1_filtering_second_coefficient: 0,
    }
}

/// The configuration of the stream, if it is valid.
pub fn encoder_config(s: &Settings) -> (r: Result<LcevcConfig, String>)
    ensures
        match r {
            Ok(c) => c == config_of(*s) && config::config_error(c) is None,
            Err(e) => config::config_error(config_of(*s)) == Some(e@),
        },
{
    let cfg = LcevcConfig {
        width: (s.width % 65536) as u16,
        height: (s.height % 65536) as u16,
        profile: 0,
        level: config::level_for_sample_rate(s.width, s.height, s.fps),
        sublevel: 0,
        chroma: ChromaFormat::C420,
        base_depth: s.bit_depth,
        enhancement_depth: s.bit_depth,
        transform: s.transform,
        upsampler: s.upsampler,
        scaling_l1: s.scaling_l1,
        scaling_l2: s.scaling_l2,
        tile_dimensions: s.tiles,
        custom_tile_size: s.custom_tile,
        per_tile_entropy_compression: false,
        tile_size_compression: s.tile_size_compression,
        predicted_average: s.predicted_average,
        temporal_enabled: s.temporal,
        temporal_tile_intra_signalling: false,
        temporal_step_width_modifier: s.temporal_sw_modifier,
        chroma_step_width_multiplier: 64,
        user_data: 0,
        colour: None,
        loq1_use_enhanced_depth: false,
        level1_filtering_signalled: false,
        level1_filtering_first_coefficient: 0,
        level1_filtering_second_coefficient: 0,
    };
    match cfg.validate() {
        Ok(_) => Ok(cfg),
        Err(e) => Err(e),
    }
}

/// Where the streams of a file to mux are, and where it goes.
pub struct MuxPaths {
    pub mux: String,
    pub base: String,
}

/// The paths of a run that only muxes: both are needed.
pub fn mux_only_paths(n: &Names) -> (r: Result<MuxPaths, String>)
    ensures
        match r {
            Ok(p) => n@.mux_out == Some(p.mux@) && n@.base_out == Some(p.base@),
            Err(e) => if n@.mux_out is None {
                e@ == "--mux-only requires --mux FILE"@
            } else {
                n@.base_out is None && e@ == "--mux-only requires --base-out"@
            },
        },
{
    let mux = match &n.mux_out {
        Some(m) => m.clone(),
        None => {
            return Err("--mux-only requires --mux FILE".to_string());
        },
    };
    match &n.base_out {
        Some(b) => Ok(MuxPaths { mux, base: b.clone() }),
        None => Err("--mux-only requires --base-out".to_string()),
    }
}

/// The paths of a run that muxes after encoding: none where it was not asked to.
pub fn mux_paths(n: &Names) -> (r: Result<Option<MuxPaths>, String>)
    ensures
        match r {
            Ok(None) => n@.mux_out is None,
            Ok(Some(p)) => {
                &&& n@.mux_out == Some(p.mux@)
                &&& n@.base_mode == "vvc"@
                &&& n@.base_out == Some(p.base@)
            },
            Err(e) => {
                &&& n@.mux_out is Some
                &&& if n@.base_mode != "vvc"@ {
                    e@ == "--mux requires --base-mode vvc"@
                } else {
                    n@.base_out is None && e@ == "--mux requires --base-out"@
                }
            },
        },
{
    let mux = match &n.mux_out {
        Some(m) => m.clone(),
        None => {
            return Ok(None);
        },
    };
    if !text::same(n.base_mode.as_str(), "vvc") {
        return Err("--mux requires --base-mode vvc".to_string());
    }
    match &n.base_out {
        Some(b) => Ok(Some(MuxPaths { mux, base: b.clone() })),
        None => Err("--mux requires --base-out".to_string()),
    }
}

/// Frames per base GOP; at least one.
pub fn gop_frames(base_gop: usize) -> (n: usize)
    ensures
        n == (if base_gop > 1 {
            base_gop
        } else {
            1
        }),
{
    if base_gop > 1 {
        base_gop
    } else {
        1
    }
}

/// Whether one more frame goes into a GOP that has `in_gop` frames, when `read` frames were read
/// in all, those of the GOP among them.
pub open spec fn wants_more(read: int, in_gop: int, gop: int, frames: int) -> bool {
    in_gop < gop && read < frames
}

/// Whether one more frame goes into the GOP.
pub fn wants_frame(read: u32, in_gop: usize, gop: usize, frames: u32) -> (r: bool)
    ensures
        r == wants_more(read as int, in_gop as int, gop as int, frames as int),
{
    in_gop < gop && read < frames
}

/// No more frames are read than were asked for, and a GOP is left short only when all of them
/// were read.
pub proof fn law_frames_counted(read: int, in_gop: int, gop: int, frames: int)
    requires
        0 <= in_gop <= read,
        gop >= 1,
    ensures
        wants_more(read, in_gop, gop, frames) ==> read + 1 <= frames,
        !wants_more(read, in_gop, gop, frames) && in_gop < gop ==> read >= frames,
{
}

/// Bytes per frame for a bit rate.
pub open spec fn bytes_per_frame(kbps: int, fps: int) -> int {
    let bytes = kbps * 1000 / 8;
    (if bytes > 1 {
        bytes
    } else {
        1
    }) / (if fps > 1 {
        fps
    } else {
        1
    })
}

/// Bytes per frame for a bit rate in kbit/s.
pub fn target_bytes(kbps: u32, fps: u32) -> (n: u64)
    ensures
        n == bytes_per_frame(kbps as int, fps as int),
{
    let bytes: u64 = kbps as u64 * 1000 / 8;
    let bytes: u64 = if bytes > 1 {
        bytes
    } else {
        1
    };
    let rate: u64 = if fps > 1 {
        fps as u64
    } else {
        1
    };
    bytes / rate
}

/// The pieces of a stream.
pub open spec fn cut(d: Seq<u8>, at: Seq<(int, int)>) -> Seq<Seq<u8>> {
    Seq::new(at.len(), |i: int| d.subrange(at[i].0, at[i].0 + at[i].1))
}

fn cut_pieces(data: &[u8], at: &Vec<(usize, usize)>) -> (out: Vec<Vec<u8>>)
    requires
        forall|i: int|
            0 <= i < at@.len() ==> (#[trigger] at@[i]).0 + at@[i].1 <= data@.len(),
    ensures
        mp4::views(out@) == cut(data@, annexb::ranges(at@)),
{
    let mut out: Vec<Vec<u8>> = Vec::new();
    let mut i: usize = 0;
    while i < at.len()
        invariant
            i <= at@.len(),
            forall|j: int| 0 <= j < at@.len() ==> (#[trigger] at@[j]).0 + at@[j].1 <= data@.len(),
            out@.len() == i,
            forall|j: int|
                0 <= j < i ==> (#[trigger] out@[j])@ == data@.subrange(
                    at@[j].0 as int,
                    at@[j].0 + at@[j].1,
                ),
        decreases at@.len() - i,
    {
        let have: usize = data.len();
        let start: usize = at[i].0;
        let len: usize = at[i].1;
        let end: usize = start + len;
        let mut piece: Vec<u8> = Vec::new();
        let mut k: usize = start;
        assert(piece@ =~= data@.subrange(start as int, start as int));
        while k < end
            invariant
                start <= k <= end <= data@.len(),
                piece@ == data@.subrange(start as int, k as int),
            decreases end - k,
        {
            piece.push(data[k]);
            k = k + 1;
            assert(piece@ =~= data@.subrange(start as int, k as int));
        }
        out.push(piece);
        i = i + 1;
    }
    assert(mp4::views(out@) =~= cut(data@, annexb::ranges(at@)));
    out
}

/// Mux a base stream and an enhancement stream: the access units of the one and the NAL units
/// of the other are the samples. Also says how many access units there are.
pub fn mux_streams(
    base_data: &[u8],
    lcevc_data: &[u8],
    cfg: &LcevcConfig,
    fps: u32,
    colour: Option<&ColourInfo>,
) -> (r: Result<(Vec<u8>, usize), String>)
    ensures
        ({
            let base = cut(base_data@, annexb::all_access_units(base_data@));
            let enh = cut(lcevc_data@, annexb::units_from(lcevc_data@, 0));
            let (width, height) = config::loq_size(*cfg, 2);
            match r {
                Ok((bytes, count)) => {
                    &&& mp4::frame_count(base, enh) > 0
                    &&& mp4::movie_fits(base, enh, fps as int)
                    &&& bytes@ == mp4::movie_file(
                        base,
                        enh,
                        width,
                        height,
                        fps as int,
                        mp4::given_colour(colour),
                    )
                    &&& count == base.len()
                },
                Err(e) => if mp4::frame_count(base, enh) == 0 {
                    e@ == "no frames to mux"@
                } else {
                    e@ == "movie too large"@ && !mp4::movie_fits(base, enh, fps as int)
                },
            }
        }),
{
    let aus = annexb::split_aus(base_data);
    let nals = annexb::split_lcevc_nals(lcevc_data);
    proof {
        annexb::lemma_access_units_inside(base_data@);
        assert forall|i: int| 0 <= i < aus@.len() implies (#[trigger] aus@[i]).0 + aus@[i].1
            <= base_data@.len() by {
            assert(annexb::ranges(aus@)[i] == (aus@[i].0 as int, aus@[i].1 as int));
        }
        assert forall|i: int| 0 <= i < nals@.len() implies (#[trigger] nals@[i]).0 + nals@[i].1
            <= lcevc_data@.len() by {
            assert(annexb::ranges(nals@)[i] == (nals@[i].0 as int, nals@[i].1 as int));
            annexb::law_units_side_by_side(lcevc_data@, i);
        }
    }
    let base_aus = cut_pieces(base_data, &aus);
    let enh_nals = cut_pieces(lcevc_data, &nals);
    let dims = cfg.loq_dimensions();
    let width: u16 = dims[2].0;
    let height: u16 = dims[2].1;
    assert((dims@[2].0 as int, dims@[2].1 as int) == config::loq_size(*cfg, 2));
    match mp4::mux_mp4(base_aus.as_slice(), enh_nals.as_slice(), width, height, fps, colour) {
        Ok(bytes) => Ok((bytes, base_aus.len())),
        Err(e) => Err(e),
    }
}

/// How far two pictures are apart.
#[derive(Clone, Copy, Debug, PartialEq, Eq, Structural)]
pub struct Difference {
    pub samples: u64,
    /// The largest difference of two samples.
    pub largest: u64,
    /// The sum of the squares of the differences.
    pub sse: u64,
}

/// The difference of two samples.
pub open spec fn apart(a: u16, b: u16) -> int {
    if a > b {
        a - b
    } else {
        b - a
    }
}

/// The largest difference of the first `k` samples.
pub open spec fn largest_apart(a: Seq<u16>, b: Seq<u16>, k: int) -> int
    decreases k,
{
    if k <= 0 {
        0
    } else {
        let rest = largest_apart(a, b, k - 1);
        let d = apart(a[k - 1], b[k - 1]);
        if d > rest {
            d
        } else {
            rest
        }
    }
}

/// As many samples as both have.
pub open spec fn common(a: Seq<u16>, b: Seq<u16>) -> int {
    if a.len() < b.len() {
        a.len() as int
    } else {
        b.len() as int
    }
}

/// How far the first `n` planes of two pictures are apart: samples, largest difference, and sum
/// of squares.
pub open spec fn difference(a: Seq<Raster<u16>>, b: Seq<Raster<u16>>, n: int) -> (int, int, int)
    decreases n,
{
    if n <= 0 {
        (0, 0, 0)
    } else {
        let (samples, largest, sse) = difference(a, b, n - 1);
        let k = common(a[n - 1].data, b[n - 1].data);
        let here = largest_apart(a[n - 1].data, b[n - 1].data, k);
        (
            samples + k,
            if here > largest {
                here
            } else {
                largest
            },
            sse + simd::squared_diff(a[n - 1].data, b[n - 1].data, k),
        )
    }
}

/// How many samples planes have.
pub open spec fn sample_count(a: Seq<Raster<u16>>, n: int) -> int
    decreases n,
{
    if n <= 0 {
        0
    } else {
        sample_count(a, n - 1) + a[n - 1].data.len()
    }
}

proof fn lemma_sample_count(a: Seq<Raster<u16>>, i: int, n: int)
    requires
        0 <= i <= n,
    ensures
        0 <= sample_count(a, i) <= sample_count(a, n),
    decreases n,
{
    if n > i {
        lemma_sample_count(a, i, n - 1);
    } else if n > 0 {
        lemma_sample_count(a, n - 1, n - 1);
    }
}

/// Compare two pictures, plane by plane and sample by sample.
pub fn compare(a: &Picture, b: &Picture) -> (d: Difference)
    requires
        a.planes@.len() <= b.planes@.len(),
        sample_count(frame::planes_view(a.planes@), a.planes@.len() as int) <= 0xffff_ffff,
    ensures
        (d.samples as int, d.largest as int, d.sse as int) == difference(
            frame::planes_view(a.planes@),
            frame::planes_view(b.planes@),
            a.planes@.len() as int,
        ),
{
    let ghost pa = frame::planes_view(a.planes@);
    let ghost pb = frame::planes_view(b.planes@);
    let mut samples: u64 = 0;
    let mut largest: u64 = 0;
    let mut sse: u64 = 0;
    let mut p: usize = 0;
    while p < a.planes.len()
        invariant
            p <= a.planes@.len() <= b.planes@.len(),
            pa == frame::planes_view(a.planes@),
            pb == frame::planes_view(b.planes@),
            sample_count(pa, a.planes@.len() as int) <= 0xffff_ffff,
            samples <= sample_count(pa, p as int),
            sse <= samples * 0xfffe_0001,
            (samples as int, largest as int, sse as int) == difference(pa, pb, p as int),
        decreases a.planes@.len() - p,
    {
        let x = &a.planes[p].data;
        let y = &b.planes[p].data;
        let n: usize = if x.len() < y.len() {
            x.len()
        } else {
            y.len()
        };
        proof {
            assert(x@ == pa[p as int].data);
            assert(y@ == pb[p as int].data);
            lemma_sample_count(pa, p + 1, a.planes@.len() as int);
        }
        let ghost before = (samples as int, sse as int);
        let mut here: u64 = 0;
        let mut i: usize = 0;
        while i < n
            invariant
                i <= n,
                n == common(x@, y@),
                samples == before.0 + i,
                here == largest_apart(x@, y@, i as int),
                here <= 0xffff,
                sse == before.1 + simd::squared_diff(x@, y@, i as int),
                sse <= samples * 0xfffe_0001,
                before.0 + n <= 0xffff_ffff,
            decreases n - i,
        {
            let d: u64 = if x[i] > y[i] {
                (x[i] - y[i]) as u64
            } else {
                (y[i] - x[i]) as u64
            };
            proof {
                assert(0 <= d * d <= 0xfffe_0001) by (nonlinear_arith)
                    requires
                        0 <= d <= 0xffff,
                ;
                let u = x@[i as int] - y@[i as int];
                assert(u * u == d * d) by (nonlinear_arith)
                    requires
                        u == d || u == -d,
                ;
            }
            sse = sse + d * d;
            if d > here {
                here = d;
            }
            samples = samples + 1;
            i = i + 1;
        }
        if here > largest {
            largest = here;
        }
        p = p + 1;
    }
    Difference { samples, largest, sse }
}

/// The self-check needs two frames, and passes where the decoded picture is the encoder's.
pub fn check_passed(d: &Difference) -> (r: Result<(), String>)
    ensures
        match r {
            Ok(_) => d.largest == 0,
            Err(e) => d.largest > 0 && e@ == "self-check failed: reconstruction mismatch"@,
        },
{
    if d.largest > 0 {
        Err("self-check failed: reconstruction mismatch".to_string())
    } else {
        Ok(())
    }
}

/// A comparison finds no difference only where every sample is the same.
pub proof fn law_no_difference(a: Seq<Raster<u16>>, b: Seq<Raster<u16>>, n: int)
    requires
        0 <= n <= a.len(),
        n <= b.len(),
        difference(a, b, n).1 == 0,
        forall|p: int| 0 <= p < n ==> (#[trigger] a[p]).data.len() == b[p].data.len(),
    ensures
        forall|p: int| 0 <= p < n ==> (#[trigger] a[p]).data == b[p].data,
    decreases n,
{
    if n > 0 {
        let x = a[n - 1].data;
        let y = b[n - 1].data;
        let k = common(x, y);
        lemma_largest_positive(a, b, n - 1);
        law_no_difference(a, b, n - 1);
        assert forall|i: int| 0 <= i < x.len() implies x[i] == y[i] by {
            lemma_largest(x, y, k, i);
        }
        assert(x =~= y);
    }
}

proof fn lemma_largest_positive(a: Seq<Raster<u16>>, b: Seq<Raster<u16>>, n: int)
    ensures
        difference(a, b, n).1 >= 0,
    decreases n,
{
    if n > 0 {
        lemma_largest_positive(a, b, n - 1);
    }
}

proof fn lemma_largest(x: Seq<u16>, y: Seq<u16>, k: int, i: int)
    requires
        0 <= i < k,
    ensures
        largest_apart(x, y, k) >= apart(x[i], y[i]),
    decreases k,
{
    if i < k - 1 {
        lemma_largest(x, y, k - 1, i);
    }
}

/// A sample of a dump with 10 bits: 8-bit samples are scaled up.
pub open spec fn dumped(v: u16, depth: u8) -> u16 {
    if depth == 8 {
        (frame::clamp(v as int, 0, 255) * 4) as u16
    } else {
        frame::clamp(v as int, 0, 1023) as u16
    }
}

/// The bytes of a dump: 16 bits per sample, from plane `k` on.
pub open spec fn dump_bytes(planes: Seq<Raster<u16>>, depth: u8, k: int) -> Seq<u8>
    decreases planes.len() - k,
{
    if k < 0 || k >= planes.len() {
        Seq::empty()
    } else {
        yuv::sample_bytes(
            Seq::new(planes[k].data.len(), |i: int| dumped(planes[k].data[i], depth)),
            true,
        ) + dump_bytes(planes, depth, k + 1)
    }
}

/// Dump a reconstructed picture as yuv420p10le.
pub fn dump_picture(recon: &Picture, depth: u8) -> (out: Vec<u8>)
    ensures
        out@ == dump_bytes(frame::planes_view(recon.planes@), depth, 0),
{
    let ghost planes = frame::planes_view(recon.planes@);
    let mut out: Vec<u8> = Vec::new();
    let mut k: usize = 0;
    assert(out@ + dump_bytes(planes, depth, 0) =~= dump_bytes(planes, depth, 0));
    while k < recon.planes.len()
        invariant
            k <= recon.planes@.len(),
            planes == frame::planes_view(recon.planes@),
            out@ + dump_bytes(planes, depth, k as int) == dump_bytes(planes, depth, 0),
        decreases recon.planes@.len() - k,
    {
        let source = &recon.planes[k].data;
        let mut data: Vec<u16> = Vec::new();
        let mut i: usize = 0;
        while i < source.len()
            invariant
                i <= source@.len(),
                data@ == Seq::new(i as nat, |j: int| dumped(source@[j], depth)),
            decreases source@.len() - i,
        {
            let v: u16 = source[i];
            let w: u16 = if depth == 8 {
                (if v > 255 {
                    255
                } else {
                    v
                }) * 4
            } else if v > 1023 {
                1023
            } else {
                v
            };
            data.push(w);
            i = i + 1;
            assert(data@ =~= Seq::new(i as nat, |j: int| dumped(source@[j], depth)));
        }
        let ghost before = out@;
        yuv::push_samples(&mut out, &data, true);
        k = k + 1;
        proof {
            assert(data@ =~= Seq::new(
                planes[k - 1].data.len(),
                |i: int| dumped(planes[k - 1].data[i], depth),
            ));
            assert(out@ + dump_bytes(planes, depth, k as int) =~= before + (yuv::sample_bytes(
                data@,
                true,
            ) + dump_bytes(planes, depth, k as int)));
        }
    }
    assert(out@ =~= dump_bytes(planes, depth, 0));
    out
}

} // verus!
