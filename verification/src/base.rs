//! Base codec interface.
//!
//! The LCEVC enhancement layer requires the *decoded* base pictures to compute the enhancement
//! residuals. A base is either lossless (the downscaled source is used directly), or it goes
//! through an external VVC encoder and decoder.
use crate::coding;
use crate::config;
use crate::config::LcevcConfig;
use crate::encoder;
use crate::frame;
use crate::frame::{Picture, Plane, Raster};
use crate::geometry;
use crate::plane;
use crate::upscale;
use vstd::prelude::*;

pub mod vvc;
pub mod vvenc_lib;
pub use crate::yuv::write_yuv420;

verus! {

/// Base codec selection.
#[derive(Clone, Copy, Debug, PartialEq, Eq, Structural)]
pub enum BaseMode {
    /// Lossless base (decoded base == base target).
    Raw,
    /// VVC encode + decode by an external codec.
    Vvc,
}

/// The base codec in use: extra encoder options, and where its bitstream is saved (nowhere if
/// empty).
pub struct BaseCodec {
    pub mode: BaseMode,
    pub extra: String,
    pub base_out: String,
}

impl Default for BaseCodec {
    fn default() -> (c: Self)
        ensures
            c.mode == BaseMode::Raw,
            c.extra@ == Seq::<char>::empty(),
            c.base_out@ == Seq::<char>::empty(),
    {
        BaseCodec { mode: BaseMode::Raw, extra: String::new(), base_out: String::new() }
    }
}

/// Configure the base codec used by `encode_decode_base`. `extra` may carry extra encoder
/// options; `base_out` is the path to save the VVC base bitstream to (empty to discard).
pub fn set_base_codec(codec: &mut BaseCodec, mode: BaseMode, extra: &str, base_out: &str)
    ensures
        final(codec).mode == mode,
        final(codec).extra@ == extra@,
        final(codec).base_out@ == base_out@,
{
    codec.mode = mode;
    codec.extra = extra.to_string();
    codec.base_out = base_out.to_string();
}

/// What is left to do to a base picture.
pub enum BaseStep {
    /// The base is lossless: this is the decoded picture.
    Decoded(Picture),
    /// The picture is to be encoded and decoded by the external codec.
    Encode(Picture),
}

/// The planes of a base picture: the targets, and black planes where there is none.
pub open spec fn assembled(c: LcevcConfig, targets: Seq<Raster<u16>>) -> Seq<Raster<u16>> {
    Seq::new(
        config::planes_of(c.chroma),
        |p: int|
            if p < targets.len() {
                targets[p]
            } else {
                let (w, h) = frame::picture_plane_size(
                    targets[0].width,
                    targets[0].height,
                    c.chroma,
                    p,
                );
                frame::zero_plane(w, h)
            },
    )
}

/// Assemble a base picture from its planes.
fn assemble(cfg: &LcevcConfig, base_targets: &Vec<Plane>) -> (base: Picture)
    requires
        1 <= base_targets@.len() <= config::planes_of(cfg.chroma),
        base_targets@[0].width * base_targets@[0].height <= usize::MAX,
    ensures
        frame::planes_view(base.planes@) == assembled(*cfg, frame::planes_view(base_targets@)),
        base.width == base_targets@[0].width,
        base.height == base_targets@[0].height,
{
    let mut base = Picture::new(base_targets[0].width, base_targets[0].height, cfg.chroma);
    let ghost black = base.planes@;
    let mut p: usize = 0;
    while p < base_targets.len()
        invariant
            p <= base_targets@.len() <= black.len(),
            base.planes@.len() == black.len(),
            base.width == base_targets@[0].width,
            base.height == base_targets@[0].height,
            forall|i: int|
                0 <= i < black.len() ==> #[trigger] base.planes@[i]@ == (if i < p {
                    base_targets@[i]@
                } else {
                    black[i]@
                }),
        decreases base_targets@.len() - p,
    {
        base.planes.set(p, base_targets[p].duplicate());
        p = p + 1;
    }
    assert(frame::planes_view(base.planes@) =~= assembled(*cfg, frame::planes_view(base_targets@)));
    base
}

/// Encode and decode the base picture: a lossless base is returned as it is.
pub fn encode_decode_base(codec: &BaseCodec, cfg: &LcevcConfig, base_targets: &Vec<Plane>) -> (r:
    BaseStep)
    requires
        1 <= base_targets@.len() <= config::planes_of(cfg.chroma),
        base_targets@[0].width * base_targets@[0].height <= usize::MAX,
    ensures
        ({
            let p = match r {
                BaseStep::Decoded(p) => p,
                BaseStep::Encode(p) => p,
            };
            &&& (r is Decoded) == (codec.mode == BaseMode::Raw)
            &&& frame::planes_view(p.planes@) == assembled(*cfg, frame::planes_view(base_targets@))
            &&& p.width == base_targets@[0].width
            &&& p.height == base_targets@[0].height
        }),
{
    let base = assemble(cfg, base_targets);
    match codec.mode {
        BaseMode::Raw => BaseStep::Decoded(base),
        BaseMode::Vvc => BaseStep::Encode(base),
    }
}

/// What the external codec is given for a GOP.
pub struct GopInput {
    pub width: usize,
    pub height: usize,
    pub bytes: Vec<u8>,
}

/// Encode a sequence (GOP) of base pictures in a single invocation of the external encoder so
/// that inter prediction is used between frames: the input for it, or nothing for an empty GOP.
pub fn encode_decode_base_gop(frames: &[Picture]) -> (r: Result<Option<GopInput>, String>)
    ensures
        match r {
            Ok(None) => frames@.len() == 0,
            Ok(Some(g)) => {
                &&& frames@.len() > 0
                &&& vvc::consistent(frames@)
                &&& g.width == frames@[0].width && g.width % 2 == 0
                &&& g.height == frames@[0].height && g.height % 2 == 0
                &&& g.bytes@ == vvc::gop_bytes(frames@, 0)
            },
            Err(e) => {
                &&& frames@.len() > 0
                &&& if frames@[0].width % 2 != 0 || frames@[0].height % 2 != 0 {
                    e@ == vvc::odd_text(
                        vvc::low32(frames@[0].width) as nat,
                        vvc::low32(frames@[0].height) as nat,
                    )
                } else {
                    e@ == "base GOP frames have inconsistent dimensions"@ && !vvc::consistent(
                        frames@,
                    )
                }
            },
        },
{
    match vvc::gop_size(frames) {
        Ok(None) => Ok(None),
        Ok(Some(d)) => Ok(
            Some(GopInput { width: d.0, height: d.1, bytes: vvc::gop_input(frames) }),
        ),
        Err(e) => Err(e),
    }
}

/// The planes of the base of a source: each plane downscaled twice.
pub open spec fn targets(c: LcevcConfig, source: Seq<Raster<u16>>) -> Seq<Raster<u16>> {
    let depth = c.enhancement_depth as int;
    Seq::new(
        config::planes_of(c.chroma),
        |p: int|
            upscale::downscaled(
                upscale::downscaled(source[p], c.scaling_l2, depth),
                c.scaling_l1,
                depth,
            ),
    )
}

/// Reference pyramid: the base planes of a source.
pub fn base_targets(cfg: &LcevcConfig, source: &Picture) -> (out: Vec<Plane>)
    requires
        config::config_error(*cfg) is None,
        1 <= cfg.enhancement_depth <= 14,
        encoder::picture_fits(*source, *cfg, 0),
    ensures
        frame::planes_view(out@) == targets(*cfg, frame::planes_view(source.planes@)),
        out@.len() == config::planes_of(cfg.chroma),
        forall|p: int| 0 <= p < out@.len() ==> coding::sized(#[trigger] out@[p]@, *cfg, 2, p),
{
    let ghost planes = frame::planes_view(source.planes@);
    let depth: u8 = cfg.sample_depth();
    let n: usize = cfg.num_planes();
    let mut out: Vec<Plane> = Vec::new();
    let mut p: usize = 0;
    while p < n
        invariant
            p <= n == config::planes_of(cfg.chroma),
            config::config_error(*cfg) is None,
            depth == cfg.enhancement_depth,
            1 <= cfg.enhancement_depth <= 14,
            encoder::picture_fits(*source, *cfg, 0),
            planes == frame::planes_view(source.planes@),
            out@.len() == p,
            forall|i: int|
                0 <= i < p ==> #[trigger] out@[i]@ == targets(*cfg, planes)[i] && coding::sized(
                    out@[i]@,
                    *cfg,
                    2,
                    i,
                ),
        decreases n - p,
    {
        proof {
            geometry::lemma_planes(*cfg, p as int);
            assert(coding::sized(source.planes@[p as int]@, *cfg, 0, p as int));
        }
        let l1_target = upscale::downscale_plane(&source.planes[p], cfg.scaling_l2, depth);
        proof {
            plane::lemma_downscaled_size(source.planes@[p as int]@, cfg.scaling_l2, depth as int);
        }
        let base_target = upscale::downscale_plane(&l1_target, cfg.scaling_l1, depth);
        proof {
            plane::lemma_downscaled_size(l1_target@, cfg.scaling_l1, depth as int);
        }
        out.push(base_target);
        p = p + 1;
    }
    assert(frame::planes_view(out@) =~= targets(*cfg, planes));
    out
}

/// The lossless base of a source.
pub fn lossless_base(cfg: &LcevcConfig, source: &Picture) -> (base: Picture)
    requires
        config::config_error(*cfg) is None,
        1 <= cfg.enhancement_depth <= 14,
        encoder::picture_fits(*source, *cfg, 0),
    ensures
        frame::planes_view(base.planes@) == targets(*cfg, frame::planes_view(source.planes@)),
        encoder::picture_fits(base, *cfg, 2),
        base.width == config::plane_size(*cfg, 2, 0).0,
        base.height == config::plane_size(*cfg, 2, 0).1,
{
    let planes = base_targets(cfg, source);
    proof {
        geometry::lemma_planes(*cfg, 0);
        assert(coding::sized(planes@[0]@, *cfg, 2, 0));
        let w = planes@[0].width;
        let h = planes@[0].height;
        assert(w * h <= 65535 * 65535) by (nonlinear_arith)
            requires
                0 < w <= 65535,
                0 < h <= 65535,
        ;
    }
    let base = assemble(cfg, &planes);
    proof {
        let all = targets(*cfg, frame::planes_view(source.planes@));
        assert(assembled(*cfg, all) =~= all);
        assert forall|p: int| 0 <= p < base.planes@.len() implies coding::sized(
            #[trigger] base.planes@[p]@,
            *cfg,
            2,
            p,
        ) by {
            assert(frame::planes_view(base.planes@)[p] == all[p]);
            assert(planes@[p]@ == all[p]);
        }
    }
    base
}

} // verus!
