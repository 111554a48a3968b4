//! The LCEVC frame encoder: reference-pyramid construction, residual coding with exact
//! decoder-mirror reconstruction, temporal prediction and chunk generation.
//!
//! Pipeline per frame (a decoder's pipeline in reverse):
//!
//! 1. The source picture is downscaled to the LOQ1 (L1) and LOQ2 (base) resolutions using the
//!    configured scaling modes.
//! 2. The base picture is encoded and decoded by the base codec.
//! 3. L1: decoded base -> upscale -> residual vs L1 target -> transform, quantize,
//!    entropy-encode, and reconstruct (dequant + inverse transform + optional L1 filter) ->
//!    combined intermediate picture.
//! 4. L2: combined intermediate -> upscale -> residual vs source -> transform, quantize,
//!    entropy-encode, reconstruct (with optional temporal prediction) -> output picture.
//! 5. Per-layer (value, zero-run) event lists become coefficient chunks; per-plane temporal
//!    signals become the temporal chunk.
use crate::base;
use crate::bitstream;
use crate::coding;
use crate::config;
use crate::config::{LcevcConfig, ScalingMode, TileDimensions};
use crate::dequant;
use crate::dequant::LogTable;
use crate::frame;
use crate::frame::{Picture, PlaneS16, Raster};
use crate::nal;
use crate::payload;
use crate::payload::Chunk;
use crate::picture;
use crate::picture::FrameJob;
use crate::plane;
use crate::rate;
use crate::rate::RatePlan;
use vstd::prelude::*;

verus! {

/// Per-frame encoding results.
pub struct EncodedFrame {
    pub idr: bool,
    pub picture_config: Vec<u8>,
    /// payload_encoded_data or _tiled
    pub encoded_data: Vec<u8>,
    /// residual[plane][loq 0=L1,1=L2][layer] -> tiles
    pub residual_chunks: Vec<Vec<Vec<Vec<Chunk>>>>,
    /// temporal[plane] -> tiles
    pub temporal_chunks: Vec<Vec<Chunk>>,
    pub temporal_signalling_present: bool,
    pub temporal_refresh: bool,
    pub output: Picture,
    /// Decoded base picture (LOQ2 resolution) used for this frame.
    pub base_picture: Picture,
    /// Total encoded enhancement bytes for this frame (payloads only).
    pub byte_count: usize,
}

/// Accumulated statistics.
#[derive(Clone, Copy, Debug)]
pub struct EncoderStats {
    pub frames: u32,
    pub l1_events: u64,
    pub l2_events: u64,
    pub l1_chunks: u64,
    pub l2_chunks: u64,
    pub bytes: u64,
}

/// Statistics before the first frame.
pub open spec fn no_stats() -> EncoderStats {
    EncoderStats { frames: 0, l1_events: 0, l2_events: 0, l1_chunks: 0, l2_chunks: 0, bytes: 0 }
}

impl Default for EncoderStats {
    fn default() -> (s: Self)
        ensures
            s == no_stats(),
    {
        EncoderStats { frames: 0, l1_events: 0, l2_events: 0, l1_chunks: 0, l2_chunks: 0, bytes: 0 }
    }
}

/// The LCEVC encoder: a configuration, step widths, and what is kept from frame to frame.
pub struct Encoder {
    pub config: LcevcConfig,
    pub step_width_l1: u32,
    pub step_width_l2: u32,
    /// Per LOQ (0 = L2, 1 = L1).
    pub quant_matrix: [Vec<u8>; 2],
    pub stats: EncoderStats,
    /// Coefficient energies of the last frame per LOQ (0 = L2, 1 = L1): sums of squared
    /// transform numerators.
    pub energy: [Vec<u128>; 2],
    /// Rate-distortion optimized quantization (default on).
    pub rdoq: bool,
    frame_index: u32,
    /// Per plane at LOQ0 resolution.
    temporal_buffers: Vec<PlaneS16>,
    /// The step widths that rate control chose last.
    rc_prev_sw1: u32,
    rc_prev_sw2: u32,
    logs: LogTable,
}

/// What an encoder holds.
#[verifier::ext_equal]
pub struct EncoderModel {
    pub config: LcevcConfig,
    pub step_l1: u32,
    pub step_l2: u32,
    pub matrix0: Seq<u8>,
    pub matrix1: Seq<u8>,
    pub stats: EncoderStats,
    pub energy0: Seq<u128>,
    pub energy1: Seq<u128>,
    pub rdoq: bool,
    pub frame_index: u32,
    pub tbs: Seq<Raster<i16>>,
    pub prev_sw1: u32,
    pub prev_sw2: u32,
    pub logs: Seq<u16>,
}

impl View for Encoder {
    type V = EncoderModel;

    closed spec fn view(&self) -> EncoderModel {
        EncoderModel {
            config: self.config,
            step_l1: self.step_width_l1,
            step_l2: self.step_width_l2,
            matrix0: self.quant_matrix@[0]@,
            matrix1: self.quant_matrix@[1]@,
            stats: self.stats,
            energy0: self.energy@[0]@,
            energy1: self.energy@[1]@,
            rdoq: self.rdoq,
            frame_index: self.frame_index,
            tbs: picture::buffers_view(self.temporal_buffers@),
            prev_sw1: self.rc_prev_sw1,
            prev_sw2: self.rc_prev_sw2,
            logs: self.logs@,
        }
    }
}

/// An encoder that can code frames: temporal buffers of the picture's dimensions, a matrix entry
/// per layer, and a sample depth that fixed-point values can hold.
pub open spec fn usable(m: EncoderModel) -> bool {
    &&& m.tbs.len() == config::planes_of(m.config.chroma)
    &&& forall|p: int| 0 <= p < m.tbs.len() ==> coding::sized(#[trigger] m.tbs[p], m.config, 0, p)
    &&& m.matrix0.len() == config::layers_of(m.config.transform)
    &&& m.matrix1.len() == config::layers_of(m.config.transform)
    &&& 1 <= m.config.enhancement_depth <= 14
}

/// A picture with the planes of a configuration at a LOQ.
pub open spec fn picture_fits(p: Picture, c: LcevcConfig, loq: int) -> bool {
    &&& p.planes@.len() == config::planes_of(c.chroma)
    &&& forall|i: int|
        0 <= i < p.planes@.len() ==> coding::sized(#[trigger] p.planes@[i]@, c, loq, i)
}

/// The temporal buffer is refreshed by the first frame, and where there is no temporal
/// prediction.
pub open spec fn refreshes(m: EncoderModel) -> bool {
    m.frame_index == 0 || !m.config.temporal_enabled
}

/// The job of coding a frame with the given step widths.
pub open spec fn frame_job(
    m: EncoderModel,
    source: Seq<Raster<u16>>,
    base: Seq<Raster<u16>>,
    sw1: u32,
    sw2: u32,
) -> FrameJob {
    FrameJob {
        config: m.config,
        source,
        base,
        step_l1: sw1,
        step_l2: sw2,
        matrix0: m.matrix0,
        matrix1: m.matrix1,
        refresh: refreshes(m),
        tbs: m.tbs,
        rdoq: m.rdoq,
        logs: m.logs,
    }
}

/// The picture configuration of a coded frame.
pub open spec fn frame_config(f: FrameJob) -> Seq<u8> {
    bitstream::pack(
        payload::picture_config_bits(f.step_l1, f.step_l2, f.refresh, f.matrix0, f.matrix1),
    )
}

/// The encoded data of a coded frame.
pub open spec fn frame_data(f: FrameJob) -> Seq<u8> {
    payload::encoded_payload(f.config, picture::frame_layers(f))
}

/// What a frame is encoded to.
pub open spec fn frame_encoded(
    e: EncodedFrame,
    f: FrameJob,
    idr: bool,
    base_size: (usize, usize),
) -> bool {
    &&& e.idr == idr
    &&& e.picture_config@ == frame_config(f)
    &&& e.encoded_data@ == frame_data(f)
    &&& picture::chunks_match(e.residual_chunks@, e.temporal_chunks@, f)
    &&& e.temporal_signalling_present == picture::signalling(f)
    &&& e.temporal_refresh == f.refresh
    &&& e.output.width == f.config.width
    &&& e.output.height == f.config.height
    &&& frame::planes_view(e.output.planes@) == picture::shown(f)
    &&& (e.base_picture.width, e.base_picture.height) == base_size
    &&& frame::planes_view(e.base_picture.planes@) == f.base
    &&& e.byte_count == frame_size(f)
}

/// The size of a coded frame's payloads in bytes.
pub open spec fn frame_size(f: FrameJob) -> usize {
    (frame_config(f).len() as usize).wrapping_add(frame_data(f).len() as usize)
}

/// The energies of a LOQ over all planes of a frame.
pub open spec fn energies(f: FrameJob, loq: int) -> Seq<u128> {
    Seq::new(16, |l: int| picture::frame_energy(f, loq, l, picture::planes(f)) as u128)
}

/// The statistics after a frame. Counters wrap around.
pub open spec fn more_stats(s: EncoderStats, f: FrameJob) -> EncoderStats {
    EncoderStats {
        frames: s.frames.wrapping_add(1),
        l1_events: s.l1_events,
        l2_events: s.l2_events,
        l1_chunks: s.l1_chunks.wrapping_add(
            picture::chunk_total(f, 1, picture::planes(f)) as u64,
        ),
        l2_chunks: s.l2_chunks.wrapping_add(
            picture::chunk_total(f, 0, picture::planes(f)) as u64,
        ),
        bytes: s.bytes.wrapping_add(frame_size(f) as u64),
    }
}

/// An encoder after a frame.
pub open spec fn after_frame(m: EncoderModel, f: FrameJob) -> EncoderModel {
    EncoderModel {
        stats: more_stats(m.stats, f),
        energy0: energies(f, 0),
        energy1: energies(f, 1),
        frame_index: m.frame_index.wrapping_add(1),
        tbs: picture::next_buffers(f),
        ..m
    }
}

/// The outcome of encoding a frame: an invalid configuration is refused and changes nothing.
pub open spec fn frame_outcome(
    r: Result<EncodedFrame, String>,
    before: EncoderModel,
    after: EncoderModel,
    f: FrameJob,
    base_size: (usize, usize),
) -> bool {
    match r {
        Ok(e) => {
            &&& config::config_error(before.config) is None
            &&& frame_encoded(e, f, before.frame_index == 0, base_size)
            &&& after == after_frame(before, f)
        },
        Err(text) => {
            &&& config::config_error(before.config) == Some(text@)
            &&& after == before
        },
    }
}

/// The temporal buffers of a new encoder.
pub open spec fn new_buffers(c: LcevcConfig) -> Seq<Raster<i16>> {
    Seq::new(
        config::planes_of(c.chroma),
        |p: int| frame::zero_raster(config::plane_size(c, 0, p).0, config::plane_size(c, 0, p).1),
    )
}

/// The default quantization matrix of a LOQ.
pub open spec fn default_matrix_of(c: LcevcConfig, loq: int) -> Seq<u8> {
    dequant::default_matrix(
        config::layers_of(c.transform) == 16,
        c.scaling_l2 == ScalingMode::Scale1D,
        loq,
    )
}

impl Encoder {
    /// An encoder before its first frame.
    pub fn new(config: LcevcConfig, step_width_l1: u32, step_width_l2: u32, logs: LogTable) -> (e:
        Encoder)
        ensures
            e@ == (EncoderModel {
                config,
                step_l1: step_width_l1,
                step_l2: step_width_l2,
                matrix0: default_matrix_of(config, 0),
                matrix1: default_matrix_of(config, 1),
                stats: no_stats(),
                energy0: plane::no_energy(),
                energy1: plane::no_energy(),
                rdoq: true,
                frame_index: 0,
                tbs: new_buffers(config),
                prev_sw1: step_width_l1,
                prev_sw2: step_width_l2,
                logs: logs@,
            }),
            1 <= config.enhancement_depth <= 14 ==> usable(e@),
    {
        let dds: bool = config.num_layers() == 16;
        let flat: bool = config.scaling_l2 == ScalingMode::Scale1D;
        let qm0 = dequant::default_quant_matrix(dds, flat, 0);
        let qm1 = dequant::default_quant_matrix(dds, flat, 1);
        let n: usize = config.num_planes();
        let mut buffers: Vec<PlaneS16> = Vec::new();
        let mut p: usize = 0;
        while p < n
            invariant
                p <= n,
                buffers@.len() == p,
                forall|i: int|
                    0 <= i < p ==> #[trigger] buffers@[i]@ == frame::zero_raster(
                        config::plane_size(config, 0, i).0,
                        config::plane_size(config, 0, i).1,
                    ) && buffers@[i]@.wf(),
            decreases n - p,
        {
            let (w, h) = config.plane_dimensions(0, p);
            assert(w * h <= 65535 * 65535) by (nonlinear_arith)
                requires
                    0 <= w <= 65535,
                    0 <= h <= 65535,
            ;
            buffers.push(PlaneS16::new(w as usize, h as usize));
            p = p + 1;
        }
        let e0 = plane::zero_energy();
        let e1 = plane::zero_energy();
        let e = Encoder {
            config,
            step_width_l1,
            step_width_l2,
            quant_matrix: [qm0, qm1],
            stats: EncoderStats::default(),
            energy: [e0, e1],
            rdoq: true,
            frame_index: 0,
            temporal_buffers: buffers,
            rc_prev_sw1: step_width_l1,
            rc_prev_sw2: step_width_l2,
            logs,
        };
        proof {
            assert(e@.tbs =~= new_buffers(config));
            assert forall|p: int| 0 <= p < e@.tbs.len() implies coding::sized(
                #[trigger] e@.tbs[p],
                config,
                0,
                p,
            ) by {
                assert(e@.tbs[p] == buffers@[p]@);
            }
        }
        e
    }

    pub fn config(&self) -> (c: &LcevcConfig)
        ensures
            *c == self@.config,
    {
        &self.config
    }

    /// Encode one frame with a pre-decoded base picture and explicit L1/L2 step widths.
    fn encode_frame_inner(
        &mut self,
        source: &Picture,
        base_picture: &Picture,
        sw_l1: u32,
        sw_l2: u32,
    ) -> (r: Result<EncodedFrame, String>)
        requires
            usable(old(self)@),
            config::config_error(old(self)@.config) is None ==> picture_fits(
                *source,
                old(self)@.config,
                0,
            ) && picture_fits(*base_picture, old(self)@.config, 2),
        ensures
            frame_outcome(
                r,
                old(self)@,
                final(self)@,
                frame_job(
                    old(self)@,
                    frame::planes_view(source.planes@),
                    frame::planes_view(base_picture.planes@),
                    sw_l1,
                    sw_l2,
                ),
                (base_picture.width, base_picture.height),
            ),
            usable(final(self)@),
    {
        match self.config.validate() {
            Ok(_) => {},
            Err(text) => {
                return Err(text);
            },
        }
        let ghost m = self@;
        let ghost f = frame_job(
            m,
            frame::planes_view(source.planes@),
            frame::planes_view(base_picture.planes@),
            sw_l1,
            sw_l2,
        );
        let idr: bool = self.frame_index == 0;
        let temporal_refresh: bool = idr || !self.config.temporal_enabled;
        let temporal_signalling: bool = self.config.temporal_enabled && !temporal_refresh;
        proof {
            assert(picture::frame_ok(f)) by {
                assert forall|p: int| 0 <= p < picture::planes(f) implies plane::job_ok(
                    #[trigger] picture::plane_job(f, p),
                ) by {
                    assert(coding::sized(source.planes@[p]@, m.config, 0, p));
                    assert(coding::sized(base_picture.planes@[p]@, m.config, 2, p));
                    assert(coding::sized(m.tbs[p], m.config, 0, p));
                }
            }
        }
        let parts = picture::code_frame(
            &self.config,
            &source.planes,
            &base_picture.planes,
            sw_l1,
            sw_l2,
            &self.quant_matrix,
            temporal_refresh,
            &self.temporal_buffers,
            self.rdoq,
            &self.logs,
            Ghost(f),
        );
        proof {
            picture::lemma_frame_layers(parts.residual@, parts.temporal@, f);
            picture::lemma_chunk_total(f, 1, picture::planes(f));
            picture::lemma_chunk_total(f, 0, picture::planes(f));
        }
        // The picture config must signal the matrix the frame was actually quantized with.
        let picture_config = payload::write_picture_config(
            &self.config,
            sw_l1,
            sw_l2,
            temporal_refresh,
            &self.quant_matrix,
        );
        let encoded_data = payload::write_encoded_data(
            &self.config,
            parts.residual.as_slice(),
            parts.temporal.as_slice(),
            temporal_signalling,
        );
        let byte_count: usize = picture_config.len().wrapping_add(encoded_data.len());
        self.stats.frames = self.stats.frames.wrapping_add(1);
        self.stats.l1_chunks = self.stats.l1_chunks.wrapping_add(parts.chunks_l1);
        self.stats.l2_chunks = self.stats.l2_chunks.wrapping_add(parts.chunks_l2);
        self.stats.bytes = self.stats.bytes.wrapping_add(byte_count as u64);
        self.frame_index = self.frame_index.wrapping_add(1);
        let ghost e1 = parts.energy_l1@;
        let ghost e2 = parts.energy_l2@;
        self.energy = [parts.energy_l2, parts.energy_l1];
        self.temporal_buffers = parts.tbs;
        let output = Picture {
            width: self.config.width as usize,
            height: self.config.height as usize,
            planes: parts.output,
        };
        proof {
            assert(e1 =~= energies(f, 1));
            assert(e2 =~= energies(f, 0));
            assert(self@ =~= after_frame(m, f));
            assert forall|p: int| 0 <= p < self@.tbs.len() implies coding::sized(
                #[trigger] self@.tbs[p],
                m.config,
                0,
                p,
            ) by {
                assert(self@.tbs[p] == self.temporal_buffers@[p]@);
            }
        }
        Ok(
            EncodedFrame {
                idr,
                picture_config,
                encoded_data,
                residual_chunks: parts.residual,
                temporal_chunks: parts.temporal,
                temporal_signalling_present: temporal_signalling,
                temporal_refresh,
                output,
                base_picture: base_picture.duplicate(),
                byte_count,
            },
        )
    }

    /// Encode one frame with a pre-decoded base picture and the encoder's step widths.
    pub fn encode_frame_with_base(&mut self, source: &Picture, base_picture: &Picture) -> (r:
        Result<EncodedFrame, String>)
        requires
            usable(old(self)@),
            config::config_error(old(self)@.config) is None ==> picture_fits(
                *source,
                old(self)@.config,
                0,
            ) && picture_fits(*base_picture, old(self)@.config, 2),
        ensures
            frame_outcome(
                r,
                old(self)@,
                final(self)@,
                frame_job(
                    old(self)@,
                    frame::planes_view(source.planes@),
                    frame::planes_view(base_picture.planes@),
                    old(self)@.step_l1,
                    old(self)@.step_l2,
                ),
                (base_picture.width, base_picture.height),
            ),
            usable(final(self)@),
    {
        let sw1: u32 = self.step_width_l1;
        let sw2: u32 = self.step_width_l2;
        self.encode_frame_inner(source, base_picture, sw1, sw2)
    }

    /// Encode one frame on top of a lossless base: the source, downscaled twice.
    pub fn encode_frame(&mut self, source: &Picture) -> (r: Result<EncodedFrame, String>)
        requires
            usable(old(self)@),
            config::config_error(old(self)@.config) is None ==> picture_fits(
                *source,
                old(self)@.config,
                0,
            ),
        ensures
            frame_outcome(
                r,
                old(self)@,
                final(self)@,
                frame_job(
                    old(self)@,
                    frame::planes_view(source.planes@),
                    base::targets(old(self)@.config, frame::planes_view(source.planes@)),
                    old(self)@.step_l1,
                    old(self)@.step_l2,
                ),
                (
                    config::plane_size(old(self)@.config, 2, 0).0 as usize,
                    config::plane_size(old(self)@.config, 2, 0).1 as usize,
                ),
            ),
            usable(final(self)@),
    {
        match self.config.validate() {
            Ok(_) => {},
            Err(text) => {
                return Err(text);
            },
        }
        let base_picture = base::lossless_base(&self.config, source);
        self.encode_frame_with_base(source, &base_picture)
    }

    /// Begin rate control for a frame: the step widths of the frame before are tried first.
    pub fn start_rate_search(&self, target_bytes: usize) -> (s: RateSearch)
        ensures
            s.plan == (RatePlan {
                target: target_bytes,
                stage: 0,
                sw1: self@.prev_sw1,
                sw2: self@.prev_sw2,
            }),
            s.best is None,
            picture::buffers_view(s.buffers@) == self@.tbs,
    {
        RateSearch {
            plan: RatePlan {
                target: target_bytes,
                stage: 0,
                sw1: self.rc_prev_sw1,
                sw2: self.rc_prev_sw2,
            },
            best: None,
            buffers: picture::copy_buffers(&self.temporal_buffers),
        }
    }

    /// Rate-controlled encode: make one try with the step widths of the search, and decide
    /// whether another one is needed so the payload fits its target. Every try starts from the
    /// temporal buffers that the search began with, and is not counted as a frame.
    pub fn encode_frame_rc(
        &mut self,
        source: &Picture,
        base_picture: &Picture,
        search: RateSearch,
    ) -> (r: Result<RateStep, String>)
        requires
            usable(start_of_try(old(self)@, search)),
            config::config_error(old(self)@.config) is None ==> picture_fits(
                *source,
                old(self)@.config,
                0,
            ) && picture_fits(*base_picture, old(self)@.config, 2),
        ensures
            rate_outcome(
                r,
                start_of_try(old(self)@, search),
                final(self)@,
                search,
                frame_job(
                    start_of_try(old(self)@, search),
                    frame::planes_view(source.planes@),
                    frame::planes_view(base_picture.planes@),
                    search.plan.sw1,
                    search.plan.sw2,
                ),
                (base_picture.width, base_picture.height),
            ),
            usable(final(self)@),
    {
        let index: u32 = self.frame_index;
        let stats: EncoderStats = self.stats;
        self.temporal_buffers = picture::copy_buffers(&search.buffers);
        let ghost start = start_of_try(old(self)@, search);
        assert(self@ =~= start);
        let frame = match self.encode_frame_inner(
            source,
            base_picture,
            search.plan.sw1,
            search.plan.sw2,
        ) {
            Ok(f) => f,
            Err(text) => {
                return Err(text);
            },
        };
        self.frame_index = index;
        self.stats = stats;
        let size: usize = frame.byte_count;
        let next = rate::decide(&search.plan, size);
        let target: usize = search.plan.target;
        let keep: bool = match &search.best {
            Some(b) => rate::is_better(size, b.size, target),
            None => true,
        };
        let tried = Candidate { frame, sw1: search.plan.sw1, sw2: search.plan.sw2, size };
        let best: Candidate = if keep {
            tried
        } else {
            match search.best {
                Some(b) => b,
                None => tried,
            }
        };
        match next {
            Some(plan) => Ok(
                RateStep::Again(RateSearch { plan, best: Some(best), buffers: search.buffers }),
            ),
            None => {
                self.rc_prev_sw1 = best.sw1;
                self.rc_prev_sw2 = best.sw2;
                Ok(RateStep::Done(best))
            },
        }
    }

    /// Use other quantization matrices (L2 and L1) from the next frame on.
    pub fn set_quant_matrix(&mut self, l2: Vec<u8>, l1: Vec<u8>)
        requires
            l2@.len() == config::layers_of(old(self)@.config.transform),
            l1@.len() == config::layers_of(old(self)@.config.transform),
        ensures
            final(self)@ == (EncoderModel { matrix0: l2@, matrix1: l1@, ..old(self)@ }),
            usable(old(self)@) ==> usable(final(self)@),
    {
        self.quant_matrix = [l2, l1];
        assert(self@ =~= EncoderModel { matrix0: l2@, matrix1: l1@, ..old(self)@ });
    }

    /// Reset state (temporal buffers etc.), used before a new sequence.
    pub fn reset(&mut self)
        ensures
            final(self)@ == (EncoderModel {
                frame_index: 0,
                tbs: cleared(old(self)@.tbs),
                stats: no_stats(),
                ..old(self)@
            }),
    {
        let mut buffers: Vec<PlaneS16> = Vec::new();
        let mut p: usize = 0;
        while p < self.temporal_buffers.len()
            invariant
                p <= self.temporal_buffers@.len(),
                buffers@.len() == p,
                forall|i: int|
                    0 <= i < p ==> #[trigger] buffers@[i]@ == cleared_raster(
                        self.temporal_buffers@[i]@,
                    ),
            decreases self.temporal_buffers@.len() - p,
        {
            let tb = &self.temporal_buffers[p];
            let data: Vec<i16> = vec![0i16; tb.data.len()];
            let zero = PlaneS16 { width: tb.width, height: tb.height, data };
            assert(zero@ =~= cleared_raster(tb@));
            buffers.push(zero);
            p = p + 1;
        }
        let ghost before = self@;
        self.frame_index = 0;
        self.stats = EncoderStats::default();
        assert(picture::buffers_view(buffers@) =~= cleared(before.tbs));
        self.temporal_buffers = buffers;
        assert(self@ =~= (EncoderModel {
            frame_index: 0,
            tbs: cleared(before.tbs),
            stats: no_stats(),
            ..before
        }));
    }
}

/// A plane of zeros in the place of another.
pub open spec fn cleared_raster(r: Raster<i16>) -> Raster<i16> {
    Raster { data: Seq::new(r.data.len(), |i: int| 0i16), ..r }
}

/// Planes of zeros in the place of others.
pub open spec fn cleared(tbs: Seq<Raster<i16>>) -> Seq<Raster<i16>> {
    Seq::new(tbs.len(), |p: int| cleared_raster(tbs[p]))
}

/// A try of rate control.
pub struct Candidate {
    pub frame: EncodedFrame,
    pub sw1: u32,
    pub sw2: u32,
    pub size: usize,
}

/// Rate control in progress: what to try next, the best try so far, and the temporal buffers
/// that every try starts from.
pub struct RateSearch {
    pub plan: RatePlan,
    pub best: Option<Candidate>,
    pub buffers: Vec<PlaneS16>,
}

/// What a try of rate control leads to.
pub enum RateStep {
    /// Another try is needed.
    Again(RateSearch),
    /// The frame to send.
    Done(Candidate),
}

/// The encoder at the start of a try.
pub open spec fn start_of_try(m: EncoderModel, s: RateSearch) -> EncoderModel {
    EncoderModel { tbs: picture::buffers_view(s.buffers@), ..m }
}

/// The best try: the new one, or the one from before where the new one is not better.
pub open spec fn best_try(
    best: Candidate,
    s: RateSearch,
    f: FrameJob,
    idr: bool,
    base_size: (usize, usize),
) -> bool {
    let size = frame_size(f);
    if s.best is None || rate::better(size, s.best->0.size, s.plan.target) {
        &&& frame_encoded(best.frame, f, idr, base_size)
        &&& best.sw1 == s.plan.sw1
        &&& best.sw2 == s.plan.sw2
        &&& best.size == size
    } else {
        best == s.best->0
    }
}

/// The encoder after a try: the frame counter and the statistics are those from before.
pub open spec fn after_try(m: EncoderModel, f: FrameJob) -> EncoderModel {
    EncoderModel { frame_index: m.frame_index, stats: m.stats, ..after_frame(m, f) }
}

/// The outcome of a try.
pub open spec fn rate_outcome(
    r: Result<RateStep, String>,
    before: EncoderModel,
    after: EncoderModel,
    s: RateSearch,
    f: FrameJob,
    base_size: (usize, usize),
) -> bool {
    let idr = before.frame_index == 0;
    let next = rate::next_plan(s.plan, frame_size(f));
    match r {
        Ok(RateStep::Again(n)) => {
            &&& config::config_error(before.config) is None
            &&& next == Some(n.plan)
            &&& n.best is Some
            &&& best_try(n.best->0, s, f, idr, base_size)
            &&& n.buffers == s.buffers
            &&& after == after_try(before, f)
        },
        Ok(RateStep::Done(c)) => {
            &&& config::config_error(before.config) is None
            &&& next is None
            &&& best_try(c, s, f, idr, base_size)
            &&& after == (EncoderModel {
                prev_sw1: c.sw1,
                prev_sw2: c.sw2,
                ..after_try(before, f)
            })
        },
        Err(text) => {
            &&& config::config_error(before.config) == Some(text@)
            &&& after == before
        },
    }
}

/// The process blocks of a frame: the configuration goes with IDR frames only.
pub open spec fn frame_blocks(
    c: LcevcConfig,
    idr: bool,
    picture_config: Seq<u8>,
    encoded_data: Seq<u8>,
) -> Seq<(u8, Seq<u8>)> {
    let data_type = if c.tile_dimensions == TileDimensions::Untiled {
        nal::BLOCK_ENCODED_DATA
    } else {
        nal::BLOCK_ENCODED_DATA_TILED
    };
    (if idr {
        seq![
            (nal::BLOCK_SEQUENCE_CONFIG, bitstream::pack(config::sequence_bits(c))),
            (nal::BLOCK_GLOBAL_CONFIG, bitstream::pack(config::global_bits(c))),
        ]
    } else {
        Seq::empty()
    }) + seq![(nal::BLOCK_PICTURE_CONFIG, picture_config), (data_type, encoded_data)]
}

impl EncodedFrame {
    /// The NAL unit of the frame.
    pub fn to_nal_unit(&self, cfg: &LcevcConfig) -> (out: Vec<u8>)
        requires
            cfg.base_depth >= 8,
            cfg.enhancement_depth >= 8,
            config::tile_size_known(*cfg),
        ensures
            out@ == nal::nal_unit(
                self.idr,
                frame_blocks(*cfg, self.idr, self.picture_config@, self.encoded_data@),
            ),
    {
        let mut payloads: Vec<(u8, Vec<u8>)> = Vec::new();
        if self.idr {
            payloads.push((nal::BLOCK_SEQUENCE_CONFIG, cfg.write_sequence_config()));
            payloads.push((nal::BLOCK_GLOBAL_CONFIG, cfg.write_global_config()));
        }
        let data_type: u8 = if cfg.is_tiled() {
            nal::BLOCK_ENCODED_DATA_TILED
        } else {
            nal::BLOCK_ENCODED_DATA
        };
        payloads.push((nal::BLOCK_PICTURE_CONFIG, copy_bytes(&self.picture_config)));
        payloads.push((data_type, copy_bytes(&self.encoded_data)));
        assert(nal::blocks_view(payloads@) =~= frame_blocks(
            *cfg,
            self.idr,
            self.picture_config@,
            self.encoded_data@,
        ));
        nal::build_nal_unit(self.idr, payloads.as_slice())
    }
}

fn copy_bytes(v: &Vec<u8>) -> (out: Vec<u8>)
    ensures
        out@ == v@,
{
    let mut out: Vec<u8> = Vec::new();
    nal::append_bytes(&mut out, v);
    assert(out@ =~= v@);
    out
}

} // verus!
