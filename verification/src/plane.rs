//! Coding of one plane of a frame: LOQ1 on top of the upscaled base, LOQ0 on top of the
//! upscaled LOQ1 reconstruction, and the chunks that carry both.
use crate::coding;
use crate::coding::{LoqBuffers, LoqCoder, LoqModel, LoqState, TileCode, TuMode};
use crate::config;
use crate::config::{LcevcConfig, ScalingMode, TileDimensions};
use crate::dequant;
use crate::dequant::{DequantTable, LogTable};
use crate::entropy::rle;
use crate::frame;
use crate::frame::{Plane, PlaneS16, Raster};
use crate::geometry;
use crate::payload::{Chunk, ChunkModel};
use crate::runs;
use crate::simd;
use crate::transform;
use crate::transform::ForwardTransform;
use crate::upscale;
use vstd::prelude::*;

verus! {

/// What the coding of a plane depends on.
#[verifier::ext_equal]
pub struct PlaneJob {
    pub config: LcevcConfig,
    pub plane: int,
    pub source: Raster<u16>,
    pub base: Raster<u16>,
    pub step_l1: u32,
    pub step_l2: u32,
    /// Quantization matrix of LOQ0.
    pub matrix0: Seq<u8>,
    /// Quantization matrix of LOQ1.
    pub matrix1: Seq<u8>,
    /// The temporal buffer is refreshed, not added to.
    pub refresh: bool,
    pub tb: Raster<i16>,
    pub rdoq: bool,
    pub logs: Seq<u16>,
}

/// TUs are visited block by block where pictures are tiled or predicted in time.
pub open spec fn block_order(c: LcevcConfig) -> bool {
    c.temporal_enabled || c.tile_dimensions != TileDimensions::Untiled
}

/// The transform of a LOQ that is reached by a scaling step.
pub open spec fn transform_of(c: LcevcConfig, scaling: ScalingMode) -> ForwardTransform {
    transform::transform_for(
        config::transform_code(c.transform) as u8,
        scaling == ScalingMode::Scale1D,
    )
}

/// No coefficient energy.
pub open spec fn no_energy() -> Seq<u128> {
    Seq::new(16, |i: int| 0u128)
}

/// The base picture upscaled to LOQ1.
pub open spec fn loq1_pred(j: PlaneJob) -> Raster<i16> {
    let c = j.config;
    upscale::upscaled(
        frame::fixed_of_plane(j.base, c.enhancement_depth as int),
        c.scaling_l1,
        config::kernel_of(c.upsampler),
        c.predicted_average,
    )
}

/// The dequantization table of LOQ1.
pub open spec fn loq1_table(
    c: LcevcConfig,
    plane: int,
    step: u32,
    matrix: Seq<u8>,
    refresh: bool,
    logs: Seq<u16>,
) -> Seq<Seq<dequant::DequantLayer>> {
    dequant::table_of(
        dequant::loq_step(
            dequant::wrap32(step as int),
            plane,
            false,
            c.chroma_step_width_multiplier as int,
        ),
        matrix,
        c.temporal_enabled,
        false,
        refresh,
        c.temporal_step_width_modifier as int,
        -1,
        false,
        logs,
    )
}

/// The dequantization table of LOQ0, with temporal prediction or without.
pub open spec fn loq0_table(
    c: LcevcConfig,
    plane: int,
    step: u32,
    matrix: Seq<u8>,
    temporal: bool,
    refresh: bool,
    logs: Seq<u16>,
) -> Seq<Seq<dequant::DequantLayer>> {
    dequant::table_of(
        dequant::loq_step(
            dequant::wrap32(step as int),
            plane,
            true,
            c.chroma_step_width_multiplier as int,
        ),
        matrix,
        temporal,
        true,
        refresh,
        c.temporal_step_width_modifier as int,
        -1,
        false,
        logs,
    )
}

/// How LOQ1 is coded: towards the downscaled source, through the L1 filter where it is on.
pub open spec fn loq1_model(j: PlaneJob) -> LoqModel {
    let c = j.config;
    let depth = c.enhancement_depth as int;
    let table = loq1_table(c, j.plane, j.step_l1, j.matrix1, j.refresh, j.logs);
    LoqModel {
        target: frame::fixed_of_plane(upscale::downscaled(j.source, c.scaling_l2, depth), depth),
        pred: loq1_pred(j),
        inter: table[0],
        intra: table[1],
        forward: transform_of(c, c.scaling_l1),
        side: config::tu_size_of(c.transform) as int,
        deblock: c.level1_filtering_signalled,
        corner: c.level1_filtering_first_coefficient as int,
        edge: c.level1_filtering_second_coefficient as int,
        rdoq: j.rdoq,
        mode: TuMode::Plain,
    }
}

pub open spec fn loq1_start(j: PlaneJob) -> LoqState {
    LoqState {
        recon: loq1_pred(j),
        tb: frame::zero_raster(0, 0),
        energy: no_energy(),
        levels: Seq::empty(),
        signals: Seq::empty(),
    }
}

/// LOQ1 after its first `k` tiles.
pub open spec fn loq1_state(j: PlaneJob, k: int) -> LoqState {
    coding::loq_state(
        loq1_model(j),
        j.config,
        1,
        j.plane,
        block_order(j.config),
        loq1_start(j),
        k,
    )
}

pub open spec fn loq1_end(j: PlaneJob) -> LoqState {
    loq1_state(j, config::tile_count(j.config, 1, j.plane))
}

/// What temporal prediction does to LOQ0.
pub open spec fn loq0_mode(c: LcevcConfig, refresh: bool) -> TuMode {
    if !c.temporal_enabled {
        TuMode::Plain
    } else if refresh {
        TuMode::Refresh
    } else {
        TuMode::Predicted
    }
}

/// How LOQ0 is coded: towards the source, on top of the upscaled LOQ1 reconstruction.
pub open spec fn loq0_model(j: PlaneJob) -> LoqModel {
    let c = j.config;
    LoqModel {
        target: frame::fixed_of_plane(j.source, c.enhancement_depth as int),
        pred: upscale::upscaled(
            loq1_end(j).recon,
            c.scaling_l2,
            config::kernel_of(c.upsampler),
            c.predicted_average,
        ),
        inter: loq0_table(
            c,
            j.plane,
            j.step_l2,
            j.matrix0,
            c.temporal_enabled,
            j.refresh,
            j.logs,
        )[0],
        intra: loq0_table(c, j.plane, j.step_l2, j.matrix0, false, false, j.logs)[1],
        forward: transform_of(c, c.scaling_l2),
        side: config::tu_size_of(c.transform) as int,
        deblock: false,
        corner: 0,
        edge: 0,
        rdoq: j.rdoq,
        mode: loq0_mode(c, j.refresh),
    }
}

pub open spec fn loq0_start(j: PlaneJob) -> LoqState {
    LoqState {
        recon: loq0_model(j).pred,
        tb: j.tb,
        energy: no_energy(),
        levels: Seq::empty(),
        signals: Seq::empty(),
    }
}

/// LOQ0 after its first `k` tiles.
pub open spec fn loq0_state(j: PlaneJob, k: int) -> LoqState {
    coding::loq_state(
        loq0_model(j),
        j.config,
        0,
        j.plane,
        block_order(j.config),
        loq0_start(j),
        k,
    )
}

pub open spec fn loq0_end(j: PlaneJob) -> LoqState {
    loq0_state(j, config::tile_count(j.config, 0, j.plane))
}

/// The reconstructed plane.
pub open spec fn plane_output(j: PlaneJob) -> Raster<u16> {
    frame::samples_of_plane(loq0_end(j).recon, j.config.enhancement_depth as int)
}

/// The plane that a decoder shows without any residual: the base, upscaled twice.
pub open spec fn base_only(j: PlaneJob) -> Raster<u16> {
    frame::samples_of_plane(
        upscale::upscaled(
            loq1_pred(j),
            j.config.scaling_l2,
            config::kernel_of(j.config.upsampler),
            j.config.predicted_average,
        ),
        j.config.enhancement_depth as int,
    )
}

/// A chunk that carries nothing.
pub open spec fn empty_chunk() -> ChunkModel {
    ChunkModel { enabled: false, rle_only: false, data: Seq::empty() }
}

/// A chunk that carries data.
pub open spec fn full_chunk(data: Seq<u8>) -> ChunkModel {
    ChunkModel { enabled: true, rle_only: false, data }
}

/// The chunk of a layer of one tile. The zeros at the end of an L1 layer are entered twice.
#[verifier::opaque]
pub open spec fn layer_chunk(levels: Seq<Seq<i16>>, layer: int, loq: int) -> ChunkModel {
    full_chunk(
        rle::coefficient_chunk(runs::layer_events(runs::layer_column(levels, layer), loq == 1)),
    )
}

/// The chunk of a layer of the `k`-th tile of a LOQ.
pub open spec fn residual_chunk(j: PlaneJob, loq: int, layer: int, k: int) -> ChunkModel {
    layer_chunk(
        if loq == 1 {
            loq1_state(j, k + 1).levels
        } else {
            loq0_state(j, k + 1).levels
        },
        layer,
        loq,
    )
}

/// The chunk of the temporal signals of the `k`-th tile.
pub open spec fn signal_chunk(j: PlaneJob, signalling: bool, k: int) -> ChunkModel {
    if signalling {
        full_chunk(rle::temporal_chunk(runs::signal_runs(loq0_state(j, k + 1).signals)))
    } else {
        empty_chunk()
    }
}

/// The planes that a job works on have the dimensions of the configuration, and its matrices
/// have an entry per layer.
pub open spec fn job_ok(j: PlaneJob) -> bool {
    let c = j.config;
    &&& config::config_error(c) is None
    &&& 0 <= j.plane < config::planes_of(c.chroma)
    &&& 1 <= c.enhancement_depth <= 14
    &&& coding::sized(j.source, c, 0, j.plane)
    &&& coding::sized(j.base, c, 2, j.plane)
    &&& c.temporal_enabled ==> coding::sized(j.tb, c, 0, j.plane)
    &&& j.matrix0.len() == config::layers_of(c.transform)
    &&& j.matrix1.len() == config::layers_of(c.transform)
}

/// The chunks of a LOQ: one per layer and tile.
pub open spec fn loq_chunks_match(chunks: Seq<Vec<Chunk>>, j: PlaneJob, loq: int) -> bool {
    let tiles = config::tile_count(j.config, loq, j.plane);
    &&& chunks.len() == config::layers_of(j.config.transform)
    &&& forall|l: int| 0 <= l < chunks.len() ==> #[trigger] chunks[l]@.len() == tiles
    &&& forall|l: int, k: int|
        0 <= l < chunks.len() && 0 <= k < tiles ==> #[trigger] chunks[l]@[k]@ == residual_chunk(
            j,
            loq,
            l,
            k,
        )
}

/// The chunks of the temporal signals: one per LOQ0 tile.
pub open spec fn signal_chunks_match(chunks: Seq<Chunk>, j: PlaneJob, signalling: bool) -> bool {
    &&& chunks.len() == config::tile_count(j.config, 0, j.plane)
    &&& forall|k: int|
        0 <= k < chunks.len() ==> #[trigger] chunks[k]@ == signal_chunk(j, signalling, k)
}

/// A coded plane.
pub struct PlaneResult {
    /// residual[loq 0=L1,1=L2][layer] -> tiles
    pub residual: Vec<Vec<Vec<Chunk>>>,
    pub temporal: Vec<Chunk>,
    pub output: Plane,
    pub tb: PlaneS16,
    pub base_only: Plane,
    pub base_only_sse: u64,
    pub energy_l1: Vec<u128>,
    pub energy_l2: Vec<u128>,
    pub chunks_l1: u64,
    pub chunks_l2: u64,
}

/// The dimensions of an upscaled plane.
pub proof fn lemma_upscaled_size(
    src: Raster<i16>,
    mode: ScalingMode,
    k: Seq<i16>,
    pa: bool,
)
    requires
        src.wf(),
    ensures
        upscale::upscaled(src, mode, k, pa).wf(),
        (upscale::upscaled(src, mode, k, pa).width, upscale::upscaled(src, mode, k, pa).height)
            == geometry::scaled_up((src.width, src.height), mode),
{
    match mode {
        ScalingMode::Scale0D => {},
        ScalingMode::Scale1D => {
            upscale::lemma_raster_of(
                2 * src.width,
                src.height,
                |x: int, y: int| upscale::wide_pel(src, k, pa, x, y) as i16,
            );
        },
        ScalingMode::Scale2D => {
            upscale::lemma_raster_of(
                2 * src.width,
                2 * src.height,
                |x: int, y: int| upscale::both_pel(src, k, pa, x, y) as i16,
            );
        },
    }
}

/// The dimensions of a downscaled plane.
pub proof fn lemma_downscaled_size(src: Raster<u16>, mode: ScalingMode, depth: int)
    requires
        src.wf(),
    ensures
        (
            upscale::downscaled(src, mode, depth).width,
            upscale::downscaled(src, mode, depth).height,
        ) == config::scaled_down((src.width, src.height), mode),
{
}

/// The chunk of a layer of a tile.
fn write_layer_chunk(code: &TileCode, layer: usize, loq: usize) -> (chunk: Chunk)
    requires
        coding::tile_code_ok(*code, 4) || coding::tile_code_ok(*code, 16),
        coding::tile_code_ok(*code, 4) ==> layer < 4,
        layer < 16,
    ensures
        chunk@ == layer_chunk(runs::coeffs_view(code.levels@), layer as int, loq as int),
        chunk.entropy_enabled,
{
    let ghost view = runs::coeffs_view(code.levels@);
    let ghost column = runs::layer_column(view, layer as int);
    proof {
        assert forall|i: int| 0 <= i < code.levels@.len() implies layer
            < #[trigger] code.levels@[i]@.len() && -8192 <= column[i] <= 8191 by {
            assert(view[i] == code.levels@[i]@);
            if coding::tile_code_ok(*code, 4) {
                assert(coding::levels_fit(code.levels@[i]@, 4));
            } else {
                assert(coding::levels_fit(code.levels@[i]@, 16));
            }
            assert(-8192 <= code.levels@[i]@[layer as int] <= 8191);
        }
        runs::lemma_layer_events(column, loq == 1);
        reveal(layer_chunk);
    }
    let events = runs::events_of_layer(&code.levels, layer, loq == 1);
    if events.len() == 0 {
        Chunk { entropy_enabled: false, rle_only: false, data: Vec::new() }
    } else {
        let data = rle::write_coefficient_chunk(events.as_slice());
        Chunk { entropy_enabled: true, rle_only: false, data }
    }
}

/// The chunks of a LOQ, per layer and tile, and how many carry data.
fn write_loq_chunks(codes: &Vec<TileCode>, layers: usize, loq: usize, Ghost(j): Ghost<PlaneJob>) -> (r:
    (Vec<Vec<Chunk>>, u64))
    requires
        loq <= 1,
        layers == config::layers_of(j.config.transform),
        codes@.len() == config::tile_count(j.config, loq as int, j.plane),
        codes@.len() <= 0x1_0000_0000,
        forall|k: int|
            0 <= k < codes@.len() ==> coding::tile_code_ok(#[trigger] codes@[k], layers as int),
        forall|k: int|
            0 <= k < codes@.len() ==> runs::coeffs_view((#[trigger] codes@[k]).levels@) == (
            if loq == 1 {
                loq1_state(j, k + 1).levels
            } else {
                loq0_state(j, k + 1).levels
            }),
    ensures
        loq_chunks_match(r.0@, j, loq as int),
        r.1 == layers * codes@.len(),
{
    let mut out: Vec<Vec<Chunk>> = Vec::new();
    let mut count: u64 = 0;
    let mut l: usize = 0;
    while l < layers
        invariant
            l <= layers,
            layers == 4 || layers == 16,
            loq <= 1,
            layers == config::layers_of(j.config.transform),
            codes@.len() == config::tile_count(j.config, loq as int, j.plane),
            codes@.len() <= 0x1_0000_0000,
            forall|k: int|
                0 <= k < codes@.len() ==> coding::tile_code_ok(#[trigger] codes@[k], layers as int),
            forall|k: int|
                0 <= k < codes@.len() ==> runs::coeffs_view((#[trigger] codes@[k]).levels@) == (
                if loq == 1 {
                    loq1_state(j, k + 1).levels
                } else {
                    loq0_state(j, k + 1).levels
                }),
            out@.len() == l,
            forall|a: int| 0 <= a < l ==> #[trigger] out@[a]@.len() == codes@.len(),
            forall|a: int, k: int|
                0 <= a < l && 0 <= k < codes@.len() ==> #[trigger] out@[a]@[k]@ == residual_chunk(
                    j,
                    loq as int,
                    a,
                    k,
                ),
            count == l * codes@.len(),
        decreases layers - l,
    {
        let mut tiles: Vec<Chunk> = Vec::new();
        let mut k: usize = 0;
        proof {
            let n = codes@.len();
            assert(l * n <= 16 * 0x1_0000_0000) by (nonlinear_arith)
                requires
                    0 <= l <= 16,
                    0 <= n <= 0x1_0000_0000,
            ;
        }
        while k < codes.len()
            invariant
                k <= codes@.len() <= 0x1_0000_0000,
                l < layers,
                layers == 4 || layers == 16,
                loq <= 1,
                forall|k: int|
                    0 <= k < codes@.len() ==> coding::tile_code_ok(
                        #[trigger] codes@[k],
                        layers as int,
                    ),
                forall|k: int|
                    0 <= k < codes@.len() ==> runs::coeffs_view((#[trigger] codes@[k]).levels@)
                        == (if loq == 1 {
                        loq1_state(j, k + 1).levels
                    } else {
                        loq0_state(j, k + 1).levels
                    }),
                tiles@.len() == k,
                forall|a: int|
                    0 <= a < k ==> #[trigger] tiles@[a]@ == residual_chunk(
                        j,
                        loq as int,
                        l as int,
                        a,
                    ),
                count == l * codes@.len() + k,
                l * codes@.len() <= 16 * 0x1_0000_0000,
            decreases codes@.len() - k,
        {
            proof {
                assert(coding::tile_code_ok(codes@[k as int], layers as int));
                if layers == 16 {
                    assert(coding::levels_fit(codes@[k as int].levels@[0]@, 16));
                }
            }
            let chunk = write_layer_chunk(&codes[k], l, loq);
            if chunk.entropy_enabled {
                count = count + 1;
            }
            tiles.push(chunk);
            k = k + 1;
        }
        proof {
            assert((l + 1) * codes@.len() == l * codes@.len() + codes@.len()) by (nonlinear_arith);
        }
        out.push(tiles);
        l = l + 1;
    }
    (out, count)
}

/// The chunks of the temporal signals, one per tile.
fn write_signal_chunks(codes: &Vec<TileCode>, signalling: bool, Ghost(j): Ghost<PlaneJob>) -> (out:
    Vec<Chunk>)
    requires
        codes@.len() == config::tile_count(j.config, 0, j.plane),
        forall|k: int|
            0 <= k < codes@.len() ==> 1 <= (#[trigger] codes@[k]).signals@.len() <= 0x3fff_ffff
                && codes@[k].signals@ == loq0_state(j, k + 1).signals,
        forall|k: int, i: int|
            0 <= k < codes@.len() && 0 <= i < codes@[k].signals@.len()
                ==> #[trigger] codes@[k].signals@[i] <= 1,
    ensures
        signal_chunks_match(out@, j, signalling),
{
    let mut out: Vec<Chunk> = Vec::new();
    let mut k: usize = 0;
    while k < codes.len()
        invariant
            k <= codes@.len(),
            forall|k: int|
                0 <= k < codes@.len() ==> 1 <= (#[trigger] codes@[k]).signals@.len() <= 0x3fff_ffff
                    && codes@[k].signals@ == loq0_state(j, k + 1).signals,
            forall|k: int, i: int|
                0 <= k < codes@.len() && 0 <= i < codes@[k].signals@.len()
                    ==> #[trigger] codes@[k].signals@[i] <= 1,
            out@.len() == k,
            forall|a: int| 0 <= a < k ==> #[trigger] out@[a]@ == signal_chunk(j, signalling, a),
        decreases codes@.len() - k,
    {
        if signalling {
            let signals = &codes[k].signals;
            assert(1 <= codes@[k as int].signals@.len());
            let list = runs::runs_of_signals(signals);
            proof {
                runs::law_signal_runs(signals@);
            }
            let data = rle::write_temporal_chunk(list.as_slice());
            out.push(Chunk { entropy_enabled: true, rle_only: false, data });
        } else {
            let c = Chunk { entropy_enabled: false, rle_only: false, data: Vec::new() };
            assert(c@ =~= empty_chunk());
            out.push(c);
        }
        k = k + 1;
    }
    out
}

/// Every signal of a LOQ is 0 or 1.
pub proof fn lemma_signals(
    m: LoqModel,
    c: LcevcConfig,
    t: geometry::Tile,
    order: bool,
    s: LoqState,
    k: int,
)
    ensures
        forall|i: int|
            0 <= i < coding::tile_state(m, c, t, order, s, k).signals.len()
                ==> #[trigger] coding::tile_state(m, c, t, order, s, k).signals[i] <= 1,
    decreases k,
{
    if k > 0 {
        lemma_signals(m, c, t, order, s, k - 1);
        let before = coding::tile_state(m, c, t, order, s, k - 1).signals;
        let now = coding::tile_state(m, c, t, order, s, k).signals;
        assert(now.drop_last() == before && now.last() <= 1);
        assert forall|i: int| 0 <= i < now.len() implies #[trigger] now[i] <= 1 by {
            if i < before.len() {
                assert(before[i] <= 1);
            }
        }
    }
}

pub fn zero_energy() -> (e: Vec<u128>)
    ensures
        e@ == no_energy(),
        coding::energy_below(e@, 0),
{
    let e: Vec<u128> = vec![0u128; 16];
    assert(e@ =~= no_energy());
    e
}

/// The dimensions of the planes of LOQ1, for a job.
pub proof fn lemma_loq1_sizes(j: PlaneJob)
    requires
        job_ok(j),
    ensures
        coding::sized(loq1_pred(j), j.config, 1, j.plane),
        coding::sized(loq1_model(j).target, j.config, 1, j.plane),
        upscale::scalable(j.source),
        upscale::scalable(frame::fixed_of_plane(j.base, j.config.enhancement_depth as int)),
{
    let c = j.config;
    let depth = c.enhancement_depth as int;
    geometry::lemma_planes(c, j.plane);
    lemma_upscaled_size(
        frame::fixed_of_plane(j.base, depth),
        c.scaling_l1,
        config::kernel_of(c.upsampler),
        c.predicted_average,
    );
    lemma_downscaled_size(j.source, c.scaling_l2, depth);
    let small = upscale::downscaled(j.source, c.scaling_l2, depth);
    assert(small.width * small.height >= 0) by (nonlinear_arith)
        requires
            small.width >= 0,
            small.height >= 0,
    ;
    assert(small.wf());
}

/// Code LOQ1 of a plane: its buffers and the codes of its tiles.
fn code_loq1(
    cfg: &LcevcConfig,
    source: &Plane,
    pred: &PlaneS16,
    sw_l1: u32,
    matrix: &Vec<u8>,
    temporal_refresh: bool,
    plane: usize,
    rdoq: bool,
    logs: &LogTable,
    Ghost(j): Ghost<PlaneJob>,
) -> (r: (LoqBuffers, Vec<TileCode>))
    requires
        job_ok(j),
        j.config == *cfg,
        j.plane == plane,
        j.source == source@,
        j.step_l1 == sw_l1,
        j.matrix1 == matrix@,
        j.refresh == temporal_refresh,
        j.rdoq == rdoq,
        j.logs == logs@,
        pred@ == loq1_pred(j),
    ensures
        r.0.recon@ == loq1_end(j).recon,
        r.0.energy@ == loq1_end(j).energy,
        coding::sized(r.0.recon@, *cfg, 1, plane as int),
        coding::energy_below(r.0.energy@, 0x400_0000_0000_0000_0000_0000_0000),
        r.1@.len() == config::tile_count(*cfg, 1, plane as int),
        forall|k: int|
            0 <= k < r.1@.len() ==> coding::tile_code_ok(
                #[trigger] r.1@[k],
                config::layers_of(cfg.transform) as int,
            ),
        forall|k: int|
            0 <= k < r.1@.len() ==> runs::coeffs_view((#[trigger] r.1@[k]).levels@) == loq1_state(
                j,
                k + 1,
            ).levels,
{
    proof {
        lemma_loq1_sizes(j);
    }
    let depth: u8 = cfg.sample_depth();
    let small = upscale::downscale_plane(source, cfg.scaling_l2, depth);
    let target = small.to_s16(depth);
    let sw1: i32 = dequant::loq_step_width(
        dequant::wrap_i32(sw_l1 as i64),
        plane,
        false,
        cfg.chroma_step_width_multiplier,
    );
    let table = DequantTable::compute(
        sw1,
        matrix.as_slice(),
        cfg.temporal_enabled,
        false,
        temporal_refresh,
        cfg.temporal_step_width_modifier,
        -1,
        false,
        logs,
    );
    let coder = LoqCoder {
        target: &target,
        pred,
        inter: &table,
        intra: &table,
        forward: ForwardTransform::new(
            cfg.transform.to_bit(),
            cfg.scaling_l1 == ScalingMode::Scale1D,
        ),
        side: cfg.tu_size(),
        deblock: cfg.level1_filtering_signalled,
        corner: cfg.level1_filtering_first_coefficient,
        edge: cfg.level1_filtering_second_coefficient,
        rdoq,
        mode: TuMode::Plain,
    };
    let mut b = LoqBuffers {
        recon: pred.duplicate(),
        tb: PlaneS16::zeros(0, 0),
        energy: zero_energy(),
    };
    proof {
        assert(coder.model() =~= loq1_model(j));
        assert(coding::start_state(b) =~= loq1_start(j));
    }
    let order: bool = cfg.temporal_enabled || cfg.is_tiled();
    let codes = coder.process_loq_tiles(cfg, 1, plane, order, &mut b);
    (b, codes)
}

/// Code LOQ0 of a plane on top of the upscaled LOQ1 reconstruction.
fn code_loq0(
    cfg: &LcevcConfig,
    source: &Plane,
    pred: &PlaneS16,
    sw_l2: u32,
    matrix: &Vec<u8>,
    temporal_refresh: bool,
    tb: PlaneS16,
    plane: usize,
    rdoq: bool,
    logs: &LogTable,
    Ghost(j): Ghost<PlaneJob>,
) -> (r: (LoqBuffers, Vec<TileCode>))
    requires
        job_ok(j),
        j.config == *cfg,
        j.plane == plane,
        j.source == source@,
        j.step_l2 == sw_l2,
        j.matrix0 == matrix@,
        j.refresh == temporal_refresh,
        j.tb == tb@,
        j.rdoq == rdoq,
        j.logs == logs@,
        pred@ == loq0_model(j).pred,
        coding::sized(pred@, *cfg, 0, plane as int),
    ensures
        r.0.recon@ == loq0_end(j).recon,
        r.0.tb@ == loq0_end(j).tb,
        r.0.energy@ == loq0_end(j).energy,
        coding::sized(r.0.recon@, *cfg, 0, plane as int),
        cfg.temporal_enabled ==> coding::sized(r.0.tb@, *cfg, 0, plane as int),
        !cfg.temporal_enabled ==> r.0.tb@ == tb@,
        coding::energy_below(r.0.energy@, 0x400_0000_0000_0000_0000_0000_0000),
        r.1@.len() == config::tile_count(*cfg, 0, plane as int),
        forall|k: int|
            0 <= k < r.1@.len() ==> coding::tile_code_ok(
                #[trigger] r.1@[k],
                config::layers_of(cfg.transform) as int,
            ),
        forall|k: int|
            0 <= k < r.1@.len() ==> runs::coeffs_view((#[trigger] r.1@[k]).levels@) == loq0_state(
                j,
                k + 1,
            ).levels && r.1@[k].signals@ == loq0_state(j, k + 1).signals,
{
    let depth: u8 = cfg.sample_depth();
    let target = source.to_s16(depth);
    let sw2: i32 = dequant::loq_step_width(
        dequant::wrap_i32(sw_l2 as i64),
        plane,
        true,
        cfg.chroma_step_width_multiplier,
    );
    let inter = DequantTable::compute(
        sw2,
        matrix.as_slice(),
        cfg.temporal_enabled,
        true,
        temporal_refresh,
        cfg.temporal_step_width_modifier,
        -1,
        false,
        logs,
    );
    let intra = DequantTable::compute(
        sw2,
        matrix.as_slice(),
        false,
        true,
        false,
        cfg.temporal_step_width_modifier,
        -1,
        false,
        logs,
    );
    let mode: TuMode = if !cfg.temporal_enabled {
        TuMode::Plain
    } else if temporal_refresh {
        TuMode::Refresh
    } else {
        TuMode::Predicted
    };
    let coder = LoqCoder {
        target: &target,
        pred,
        inter: &inter,
        intra: &intra,
        forward: ForwardTransform::new(
            cfg.transform.to_bit(),
            cfg.scaling_l2 == ScalingMode::Scale1D,
        ),
        side: cfg.tu_size(),
        deblock: false,
        corner: 0,
        edge: 0,
        rdoq,
        mode,
    };
    let mut b = LoqBuffers { recon: pred.duplicate(), tb, energy: zero_energy() };
    proof {
        assert(coder.model() =~= loq0_model(j));
        assert(coding::start_state(b) =~= loq0_start(j));
    }
    let order: bool = cfg.temporal_enabled || cfg.is_tiled();
    let codes = coder.process_loq_tiles(cfg, 0, plane, order, &mut b);
    (b, codes)
}

/// The chunks of a plane: those of both LOQs, those of the temporal signals, and how many of
/// each LOQ carry data.
fn write_plane_chunks(
    cfg: &LcevcConfig,
    codes1: &Vec<TileCode>,
    codes0: &Vec<TileCode>,
    temporal_signalling: bool,
    plane: usize,
    Ghost(j): Ghost<PlaneJob>,
) -> (r: (Vec<Vec<Vec<Chunk>>>, Vec<Chunk>, u64, u64))
    requires
        j.config == *cfg,
        j.plane == plane,
        config::config_error(*cfg) is None,
        plane < config::planes_of(cfg.chroma),
        codes1@.len() == config::tile_count(*cfg, 1, plane as int),
        codes0@.len() == config::tile_count(*cfg, 0, plane as int),
        forall|k: int|
            0 <= k < codes1@.len() ==> coding::tile_code_ok(
                #[trigger] codes1@[k],
                config::layers_of(cfg.transform) as int,
            ),
        forall|k: int|
            0 <= k < codes0@.len() ==> coding::tile_code_ok(
                #[trigger] codes0@[k],
                config::layers_of(cfg.transform) as int,
            ),
        forall|k: int|
            0 <= k < codes1@.len() ==> runs::coeffs_view((#[trigger] codes1@[k]).levels@)
                == loq1_state(j, k + 1).levels,
        forall|k: int|
            0 <= k < codes0@.len() ==> runs::coeffs_view((#[trigger] codes0@[k]).levels@)
                == loq0_state(j, k + 1).levels && codes0@[k].signals@ == loq0_state(
                j,
                k + 1,
            ).signals,
    ensures
        r.0@.len() == 2,
        loq_chunks_match(r.0@[0]@, j, 1),
        loq_chunks_match(r.0@[1]@, j, 0),
        signal_chunks_match(r.1@, j, temporal_signalling),
        r.2 == config::layers_of(cfg.transform) * config::tile_count(*cfg, 1, plane as int),
        r.3 == config::layers_of(cfg.transform) * config::tile_count(*cfg, 0, plane as int),
        r.2 <= 0x10_0000_0000,
        r.3 <= 0x10_0000_0000,
{
    let layers: usize = cfg.num_layers();
    proof {
        coding::lemma_tile_count(*cfg, 0, plane as int);
        coding::lemma_tile_count(*cfg, 1, plane as int);
    }
    let (l1_chunks, chunks_l1) = write_loq_chunks(codes1, layers, 1, Ghost(j));
    let (l2_chunks, chunks_l2) = write_loq_chunks(codes0, layers, 0, Ghost(j));
    proof {
        assert forall|k: int, i: int|
            0 <= k < codes0@.len() && 0 <= i < codes0@[k].signals@.len() implies #[trigger] codes0@[k].signals@[i]
            <= 1 by {
            let t = geometry::tile_at(*cfg, 0, plane as int, k);
            lemma_signals(
                loq0_model(j),
                *cfg,
                t,
                block_order(*cfg),
                loq0_state(j, k),
                geometry::tile_tus(*cfg, t),
            );
            assert(codes0@[k].signals@ == loq0_state(j, k + 1).signals);
        }
        lemma_chunk_count(layers as int, codes1@.len() as int);
        lemma_chunk_count(layers as int, codes0@.len() as int);
    }
    let temporal = write_signal_chunks(codes0, temporal_signalling, Ghost(j));
    let mut residual: Vec<Vec<Vec<Chunk>>> = Vec::new();
    residual.push(l1_chunks);
    residual.push(l2_chunks);
    (residual, temporal, chunks_l1, chunks_l2)
}

/// What a plane is coded to: chunks, reconstruction, temporal buffer and statistics.
pub open spec fn plane_coded(r: PlaneResult, j: PlaneJob, signalling: bool) -> bool {
    let layers = config::layers_of(j.config.transform) as int;
    &&& r.residual@.len() == 2
    &&& loq_chunks_match(r.residual@[0]@, j, 1)
    &&& loq_chunks_match(r.residual@[1]@, j, 0)
    &&& signal_chunks_match(r.temporal@, j, signalling)
    &&& r.output@ == plane_output(j)
    &&& r.tb@ == loq0_end(j).tb
    &&& r.base_only@ == base_only(j)
    &&& r.base_only_sse == simd::squared_diff(
        j.source.data,
        base_only(j).data,
        j.source.data.len() as int,
    )
    &&& r.energy_l1@ == loq1_end(j).energy
    &&& r.energy_l2@ == loq0_end(j).energy
    &&& r.chunks_l1 == layers * config::tile_count(j.config, 1, j.plane)
    &&& r.chunks_l2 == layers * config::tile_count(j.config, 0, j.plane)
}

/// Code one plane of a frame.
pub fn process_plane(
    cfg: &LcevcConfig,
    source: &Plane,
    base: &Plane,
    temporal_refresh: bool,
    temporal_signalling: bool,
    sw_l1: u32,
    sw_l2: u32,
    qm: &[Vec<u8>; 2],
    tb: PlaneS16,
    plane: usize,
    rdoq: bool,
    logs: &LogTable,
) -> (r: PlaneResult)
    requires
        job_ok(
            PlaneJob {
                config: *cfg,
                plane: plane as int,
                source: source@,
                base: base@,
                step_l1: sw_l1,
                step_l2: sw_l2,
                matrix0: qm@[0]@,
                matrix1: qm@[1]@,
                refresh: temporal_refresh,
                tb: tb@,
                rdoq,
                logs: logs@,
            },
        ),
    ensures
        plane_coded(
            r,
            PlaneJob {
                config: *cfg,
                plane: plane as int,
                source: source@,
                base: base@,
                step_l1: sw_l1,
                step_l2: sw_l2,
                matrix0: qm@[0]@,
                matrix1: qm@[1]@,
                refresh: temporal_refresh,
                tb: tb@,
                rdoq,
                logs: logs@,
            },
            temporal_signalling,
        ),
        coding::sized(r.output@, *cfg, 0, plane as int),
        coding::sized(r.base_only@, *cfg, 0, plane as int),
        cfg.temporal_enabled ==> coding::sized(r.tb@, *cfg, 0, plane as int),
        !cfg.temporal_enabled ==> r.tb@ == tb@,
        coding::energy_below(r.energy_l1@, 0x400_0000_0000_0000_0000_0000_0000),
        coding::energy_below(r.energy_l2@, 0x400_0000_0000_0000_0000_0000_0000),
        r.chunks_l1 <= 0x10_0000_0000,
        r.chunks_l2 <= 0x10_0000_0000,
{
    let ghost j = PlaneJob {
        config: *cfg,
        plane: plane as int,
        source: source@,
        base: base@,
        step_l1: sw_l1,
        step_l2: sw_l2,
        matrix0: qm@[0]@,
        matrix1: qm@[1]@,
        refresh: temporal_refresh,
        tb: tb@,
        rdoq,
        logs: logs@,
    };
    proof {
        lemma_loq1_sizes(j);
        geometry::lemma_planes(*cfg, plane as int);
    }
    let depth: u8 = cfg.sample_depth();
    let kernel = cfg.upsampler.kernel();
    let base_s16 = base.to_s16(depth);
    let l1_pred = upscale::upscale_plane(
        &base_s16,
        cfg.scaling_l1,
        &kernel,
        cfg.predicted_average,
    );
    let (b1, codes1) = code_loq1(
        cfg,
        source,
        &l1_pred,
        sw_l1,
        &qm[1],
        temporal_refresh,
        plane,
        rdoq,
        logs,
        Ghost(j),
    );
    proof {
        lemma_upscaled_size(b1.recon@, cfg.scaling_l2, kernel@, cfg.predicted_average);
        lemma_upscaled_size(l1_pred@, cfg.scaling_l2, kernel@, cfg.predicted_average);
    }
    let l2_pred = upscale::upscale_plane(
        &b1.recon,
        cfg.scaling_l2,
        &kernel,
        cfg.predicted_average,
    );
    // Base-only prediction: the pure base upscaled (no residual).
    let plain = upscale::upscale_plane(&l1_pred, cfg.scaling_l2, &kernel, cfg.predicted_average);
    let plain = plain.to_plane(depth);
    proof {
        let (w, h) = config::plane_size(*cfg, 0, plane as int);
        assert(0 <= w * h <= 65535 * 65535) by (nonlinear_arith)
            requires
                0 < w <= 65535,
                0 < h <= 65535,
        ;
    }
    let sse: u64 = simd::sse_diff_u16(source.data.as_slice(), plain.data.as_slice());
    let (b0, codes0) = code_loq0(
        cfg,
        source,
        &l2_pred,
        sw_l2,
        &qm[0],
        temporal_refresh,
        tb,
        plane,
        rdoq,
        logs,
        Ghost(j),
    );
    let (residual, temporal, chunks_l1, chunks_l2) = write_plane_chunks(
        cfg,
        &codes1,
        &codes0,
        temporal_signalling,
        plane,
        Ghost(j),
    );
    let output = b0.recon.to_plane(depth);
    PlaneResult {
        residual,
        temporal,
        output,
        tb: b0.tb,
        base_only: plain,
        base_only_sse: sse,
        energy_l1: b1.energy,
        energy_l2: b0.energy,
        chunks_l1,
        chunks_l2,
    }
}

proof fn lemma_chunk_count(layers: int, tiles: int)
    requires
        0 <= layers <= 16,
        0 <= tiles <= 0x1_0000_0000,
    ensures
        layers * tiles <= 0x10_0000_0000,
{
    assert(layers * tiles <= 16 * 0x1_0000_0000) by (nonlinear_arith)
        requires
            0 <= layers <= 16,
            0 <= tiles <= 0x1_0000_0000,
    ;
}

} // verus!
