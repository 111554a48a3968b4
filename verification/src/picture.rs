//! Coding of all planes of a frame: the chunks of the enhancement, the reconstruction, and the
//! decision whether the enhancement is worth sending.
use crate::coding;
use crate::config;
use crate::config::LcevcConfig;
use crate::dequant::LogTable;
use crate::frame;
use crate::frame::{Plane, PlaneS16, Raster};
use crate::geometry;
use crate::payload;
use crate::payload::{Chunk, ChunkModel};
use crate::plane;
use crate::plane::{PlaneJob, PlaneResult};
use crate::simd;
use vstd::prelude::*;

verus! {

/// What the coding of a frame depends on.
#[verifier::ext_equal]
pub struct FrameJob {
    pub config: LcevcConfig,
    pub source: Seq<Raster<u16>>,
    pub base: Seq<Raster<u16>>,
    pub step_l1: u32,
    pub step_l2: u32,
    pub matrix0: Seq<u8>,
    pub matrix1: Seq<u8>,
    pub refresh: bool,
    pub tbs: Seq<Raster<i16>>,
    pub rdoq: bool,
    pub logs: Seq<u16>,
}

/// The part of a frame job that is about one plane.
pub open spec fn plane_job(f: FrameJob, p: int) -> PlaneJob {
    PlaneJob {
        config: f.config,
        plane: p,
        source: f.source[p],
        base: f.base[p],
        step_l1: f.step_l1,
        step_l2: f.step_l2,
        matrix0: f.matrix0,
        matrix1: f.matrix1,
        refresh: f.refresh,
        tb: f.tbs[p],
        rdoq: f.rdoq,
        logs: f.logs,
    }
}

/// Number of planes of a frame.
pub open spec fn planes(f: FrameJob) -> int {
    config::planes_of(f.config.chroma) as int
}

/// Number of coefficient layers of a frame.
pub open spec fn layers(f: FrameJob) -> int {
    config::layers_of(f.config.transform) as int
}

/// Temporal signals are sent unless the temporal buffer is refreshed.
pub open spec fn signalling(f: FrameJob) -> bool {
    f.config.temporal_enabled && !f.refresh
}

/// A job for as many planes as the configuration has, each fit to be coded.
pub open spec fn frame_ok(f: FrameJob) -> bool {
    &&& f.source.len() == planes(f)
    &&& f.base.len() == planes(f)
    &&& f.tbs.len() == planes(f)
    &&& forall|p: int| 0 <= p < planes(f) ==> plane::job_ok(#[trigger] plane_job(f, p))
}

/// The sum of squared differences of the first `n` planes.
pub open spec fn total_error(a: Seq<Raster<u16>>, b: Seq<Raster<u16>>, n: int) -> int
    decreases n,
{
    if n <= 0 {
        0
    } else {
        total_error(a, b, n - 1) + simd::squared_diff(
            a[n - 1].data,
            b[n - 1].data,
            a[n - 1].data.len() as int,
        )
    }
}

/// The planes with the enhancement.
pub open spec fn enhanced(f: FrameJob) -> Seq<Raster<u16>> {
    Seq::new(planes(f) as nat, |p: int| plane::plane_output(plane_job(f, p)))
}

/// The planes without the enhancement.
pub open spec fn plain(f: FrameJob) -> Seq<Raster<u16>> {
    Seq::new(planes(f) as nat, |p: int| plane::base_only(plane_job(f, p)))
}

/// The enhancement is dropped where it does not bring the reconstruction closer to the source.
#[verifier::opaque]
pub open spec fn dropped(f: FrameJob) -> bool {
    total_error(f.source, enhanced(f), planes(f)) >= total_error(f.source, plain(f), planes(f))
}

/// The chunk of a layer of one tile: `q` is 0 for L1 and 1 for L2.
pub open spec fn frame_chunk(f: FrameJob, p: int, q: int, l: int, k: int) -> ChunkModel {
    if dropped(f) {
        plane::empty_chunk()
    } else {
        plane::residual_chunk(plane_job(f, p), 1 - q, l, k)
    }
}

/// The chunk of the temporal signals of one tile.
pub open spec fn frame_signals(f: FrameJob, p: int, k: int) -> ChunkModel {
    if dropped(f) {
        plane::empty_chunk()
    } else {
        plane::signal_chunk(plane_job(f, p), signalling(f), k)
    }
}

/// The planes that a decoder shows.
pub open spec fn shown(f: FrameJob) -> Seq<Raster<u16>> {
    if dropped(f) {
        plain(f)
    } else {
        enhanced(f)
    }
}

/// The temporal buffers after the frame. A dropped frame leaves them as they were.
pub open spec fn next_buffers(f: FrameJob) -> Seq<Raster<i16>> {
    if dropped(f) && f.config.temporal_enabled {
        f.tbs
    } else {
        Seq::new(planes(f) as nat, |p: int| plane::loq0_end(plane_job(f, p)).tb)
    }
}

/// The energies of a LOQ's coefficients over the first `n` planes: `loq` is 0 for L2 and 1 for
/// L1.
pub open spec fn frame_energy(f: FrameJob, loq: int, l: int, n: int) -> int
    decreases n,
{
    if n <= 0 {
        0
    } else {
        let j = plane_job(f, n - 1);
        frame_energy(f, loq, l, n - 1) + (if loq == 1 {
            plane::loq1_end(j).energy[l]
        } else {
            plane::loq0_end(j).energy[l]
        })
    }
}

/// The chunks of the `k`-th layer of the stream.
pub open spec fn frame_layer(f: FrameJob, k: int) -> Seq<ChunkModel> {
    let m = payload::layers_per_plane(layers(f), signalling(f));
    let p = k / m;
    let r = k % m;
    if r < 2 * layers(f) {
        let q = r / layers(f);
        Seq::new(
            config::tile_count(f.config, 1 - q, p) as nat,
            |t: int| frame_chunk(f, p, q, r % layers(f), t),
        )
    } else {
        Seq::new(config::tile_count(f.config, 0, p) as nat, |t: int| frame_signals(f, p, t))
    }
}

/// All layers of the stream.
pub open spec fn frame_layers(f: FrameJob) -> Seq<Seq<ChunkModel>> {
    Seq::new(
        (planes(f) * payload::layers_per_plane(layers(f), signalling(f))) as nat,
        |k: int| frame_layer(f, k),
    )
}

/// Chunks of a frame: `residual[p][q][l][k]` and `temporal[p][k]`.
pub open spec fn chunks_match(
    residual: Seq<Vec<Vec<Vec<Chunk>>>>,
    temporal: Seq<Vec<Chunk>>,
    f: FrameJob,
) -> bool {
    &&& residual.len() == planes(f)
    &&& temporal.len() == planes(f)
    &&& forall|p: int| 0 <= p < planes(f) ==> #[trigger] residual[p]@.len() == 2
    &&& forall|p: int, q: int|
        0 <= p < planes(f) && 0 <= q < 2 ==> #[trigger] residual[p]@[q]@.len() == layers(f)
    &&& forall|p: int, q: int, l: int|
        0 <= p < planes(f) && 0 <= q < 2 && 0 <= l < layers(f)
            ==> #[trigger] residual[p]@[q]@[l]@.len() == config::tile_count(f.config, 1 - q, p)
    &&& forall|p: int, q: int, l: int, k: int|
        0 <= p < planes(f) && 0 <= q < 2 && 0 <= l < layers(f) && 0 <= k < config::tile_count(
            f.config,
            1 - q,
            p,
        ) ==> #[trigger] residual[p]@[q]@[l]@[k]@ == frame_chunk(f, p, q, l, k)
    &&& forall|p: int|
        0 <= p < planes(f) ==> #[trigger] temporal[p]@.len() == config::tile_count(f.config, 0, p)
    &&& forall|p: int, k: int|
        0 <= p < planes(f) && 0 <= k < config::tile_count(f.config, 0, p)
            ==> #[trigger] temporal[p]@[k]@ == frame_signals(f, p, k)
}

/// The coded planes of a frame.
pub struct FrameParts {
    pub residual: Vec<Vec<Vec<Vec<Chunk>>>>,
    pub temporal: Vec<Vec<Chunk>>,
    pub output: Vec<Plane>,
    pub tbs: Vec<PlaneS16>,
    pub energy_l1: Vec<u128>,
    pub energy_l2: Vec<u128>,
    pub chunks_l1: u64,
    pub chunks_l2: u64,
}

/// The planes of fixed-point values.
pub open spec fn buffers_view(tbs: Seq<PlaneS16>) -> Seq<Raster<i16>> {
    Seq::new(tbs.len(), |i: int| tbs[i]@)
}

/// Chunks that carry data, over the first `n` planes.
pub open spec fn chunk_total(f: FrameJob, loq: int, n: int) -> int
    decreases n,
{
    if n <= 0 {
        0
    } else {
        chunk_total(f, loq, n - 1) + layers(f) * config::tile_count(f.config, loq, n - 1)
    }
}

/// Chunks can be counted.
pub proof fn lemma_chunk_total(f: FrameJob, loq: int, n: int)
    requires
        config::config_error(f.config) is None,
        0 <= n <= planes(f),
        loq == 0 || loq == 1,
    ensures
        0 <= chunk_total(f, loq, n) <= 0x10_0000_0000 * n,
    decreases n,
{
    if n > 0 {
        lemma_chunk_total(f, loq, n - 1);
        coding::lemma_tile_count(f.config, loq, n - 1);
        let a = layers(f);
        let b = config::tile_count(f.config, loq, n - 1);
        assert(0 <= a * b <= 16 * 0x1_0000_0000) by (nonlinear_arith)
            requires
                0 <= a <= 16,
                0 <= b <= 0x1_0000_0000,
        ;
    }
}

/// What a frame is coded to.
pub open spec fn parts_match(r: FrameParts, f: FrameJob) -> bool {
    &&& chunks_match(r.residual@, r.temporal@, f)
    &&& frame::planes_view(r.output@) == shown(f)
    &&& buffers_view(r.tbs@) == next_buffers(f)
    &&& r.energy_l1@.len() == 16
    &&& r.energy_l2@.len() == 16
    &&& forall|l: int|
        0 <= l < 16 ==> #[trigger] r.energy_l1@[l] == frame_energy(f, 1, l, planes(f))
    &&& forall|l: int|
        0 <= l < 16 ==> #[trigger] r.energy_l2@[l] == frame_energy(f, 0, l, planes(f))
    &&& r.chunks_l1 == chunk_total(f, 1, planes(f))
    &&& r.chunks_l2 == chunk_total(f, 0, planes(f))
}

/// `n` chunks that carry nothing.
fn empty_tiles(n: usize) -> (out: Vec<Chunk>)
    ensures
        out@.len() == n,
        forall|k: int| 0 <= k < n ==> #[trigger] out@[k]@ == plane::empty_chunk(),
{
    let mut out: Vec<Chunk> = Vec::new();
    let mut k: usize = 0;
    while k < n
        invariant
            k <= n,
            out@.len() == k,
            forall|i: int| 0 <= i < k ==> #[trigger] out@[i]@ == plane::empty_chunk(),
        decreases n - k,
    {
        let c = Chunk { entropy_enabled: false, rle_only: false, data: Vec::new() };
        assert(c@ =~= plane::empty_chunk());
        out.push(c);
        k = k + 1;
    }
    out
}

/// Chunks that carry nothing, in the place of those of some layers.
fn empty_layers(like: &Vec<Vec<Chunk>>) -> (out: Vec<Vec<Chunk>>)
    ensures
        out@.len() == like@.len(),
        forall|l: int| 0 <= l < out@.len() ==> #[trigger] out@[l]@.len() == like@[l]@.len(),
        forall|l: int, k: int|
            0 <= l < out@.len() && 0 <= k < out@[l]@.len() ==> #[trigger] out@[l]@[k]@
                == plane::empty_chunk(),
{
    let mut out: Vec<Vec<Chunk>> = Vec::new();
    let mut l: usize = 0;
    while l < like.len()
        invariant
            l <= like@.len(),
            out@.len() == l,
            forall|a: int| 0 <= a < l ==> #[trigger] out@[a]@.len() == like@[a]@.len(),
            forall|a: int, k: int|
                0 <= a < l && 0 <= k < out@[a]@.len() ==> #[trigger] out@[a]@[k]@
                    == plane::empty_chunk(),
        decreases like@.len() - l,
    {
        out.push(empty_tiles(like[l].len()));
        l = l + 1;
    }
    out
}

/// Error of planes against a source, over all planes.
fn error_of(source: &Vec<Plane>, other: &Vec<Plane>, Ghost(f): Ghost<FrameJob>) -> (e: u128)
    requires
        frame_ok(f),
        frame::planes_view(source@) == f.source,
        other@.len() == planes(f),
        forall|p: int|
            0 <= p < planes(f) ==> coding::sized(#[trigger] other@[p]@, f.config, 0, p),
    ensures
        e == total_error(f.source, frame::planes_view(other@), planes(f)),
{
    let ghost a = f.source;
    let ghost b = frame::planes_view(other@);
    let mut e: u128 = 0;
    let mut p: usize = 0;
    while p < other.len()
        invariant
            p <= other@.len() == planes(f),
            frame_ok(f),
            a == f.source,
            frame::planes_view(source@) == a,
            b == frame::planes_view(other@),
            forall|p: int|
                0 <= p < planes(f) ==> coding::sized(#[trigger] other@[p]@, f.config, 0, p),
            e == total_error(a, b, p as int),
            e <= 0x1_0000_0000_0000_0000 * p,
        decreases other@.len() - p,
    {
        proof {
            assert(plane::job_ok(plane_job(f, p as int)));
            assert(a[p as int] == source@[p as int]@);
            assert(b[p as int] == other@[p as int]@);
            assert(coding::sized(other@[p as int]@, f.config, 0, p as int));
            lemma_samples(f.config, p as int);
        }
        let sse: u64 = simd::sse_diff_u16(source[p].data.as_slice(), other[p].data.as_slice());
        e = e + sse as u128;
        p = p + 1;
    }
    e
}

/// The samples of a plane can be counted.
proof fn lemma_samples(c: LcevcConfig, p: int)
    requires
        config::config_error(c) is None,
        0 <= p < config::planes_of(c.chroma),
    ensures
        ({
            let (w, h) = config::plane_size(c, 0, p);
            0 <= w * h <= 0x1_0000_0000
        }),
{
    geometry::lemma_planes(c, p);
    let (w, h) = config::plane_size(c, 0, p);
    assert(0 <= w * h <= 65535 * 65535) by (nonlinear_arith)
        requires
            0 < w <= 65535,
            0 < h <= 65535,
    ;
}

/// The coded planes of a frame before anything is dropped.
struct RawParts {
    residual: Vec<Vec<Vec<Vec<Chunk>>>>,
    temporal: Vec<Vec<Chunk>>,
    output: Vec<Plane>,
    plain: Vec<Plane>,
    tbs: Vec<PlaneS16>,
    energy_l1: Vec<u128>,
    energy_l2: Vec<u128>,
    chunks_l1: u64,
    chunks_l2: u64,
}

/// The chunks of a plane.
spec fn plane_chunks_match(
    residual: Seq<Vec<Vec<Chunk>>>,
    temporal: Seq<Chunk>,
    f: FrameJob,
    p: int,
) -> bool {
    &&& residual.len() == 2
    &&& plane::loq_chunks_match(residual[0]@, plane_job(f, p), 1)
    &&& plane::loq_chunks_match(residual[1]@, plane_job(f, p), 0)
    &&& plane::signal_chunks_match(temporal, plane_job(f, p), signalling(f))
}

/// The planes of a frame that have been coded.
spec fn planes_match(r: RawParts, f: FrameJob, n: int) -> bool {
    &&& r.output@.len() == n
    &&& r.plain@.len() == n
    &&& r.tbs@.len() == n
    &&& forall|p: int|
        0 <= p < n ==> #[trigger] r.output@[p]@ == plane::plane_output(plane_job(f, p))
            && coding::sized(r.output@[p]@, f.config, 0, p)
    &&& forall|p: int|
        0 <= p < n ==> #[trigger] r.plain@[p]@ == plane::base_only(plane_job(f, p))
            && coding::sized(r.plain@[p]@, f.config, 0, p)
    &&& forall|p: int|
        0 <= p < n ==> #[trigger] r.tbs@[p]@ == plane::loq0_end(plane_job(f, p)).tb && (
        coding::sized(r.tbs@[p]@, f.config, 0, p) || r.tbs@[p]@ == f.tbs[p])
}

/// The energies of a frame over the first `n` planes.
spec fn energy_match(e: Seq<u128>, f: FrameJob, loq: int, n: int) -> bool {
    &&& e.len() == 16
    &&& forall|l: int|
        0 <= l < 16 ==> #[trigger] e[l] == frame_energy(f, loq, l, n) && e[l]
            <= 0x400_0000_0000_0000_0000_0000_0000 * n
}

spec fn raw_match(r: RawParts, f: FrameJob, n: int) -> bool {
    &&& r.residual@.len() == n
    &&& r.temporal@.len() == n
    &&& forall|p: int|
        0 <= p < n ==> plane_chunks_match(#[trigger] r.residual@[p]@, r.temporal@[p]@, f, p)
    &&& planes_match(r, f, n)
    &&& energy_match(r.energy_l1@, f, 1, n)
    &&& energy_match(r.energy_l2@, f, 0, n)
    &&& r.chunks_l1 == chunk_total(f, 1, n)
    &&& r.chunks_l2 == chunk_total(f, 0, n)
    &&& r.chunks_l1 <= 0x10_0000_0000 * n
    &&& r.chunks_l2 <= 0x10_0000_0000 * n
}

/// Add up energies.
fn add_energy(sum: &mut Vec<u128>, e: &Vec<u128>, Ghost(f): Ghost<FrameJob>, loq: usize, p: usize)
    requires
        p < 3,
        energy_match(old(sum)@, f, loq as int, p as int),
        coding::energy_below(e@, 0x400_0000_0000_0000_0000_0000_0000),
        loq == 1 ==> e@ == plane::loq1_end(plane_job(f, p as int)).energy,
        loq != 1 ==> e@ == plane::loq0_end(plane_job(f, p as int)).energy,
    ensures
        energy_match(final(sum)@, f, loq as int, p + 1),
{
    let ghost before = sum@;
    let mut l: usize = 0;
    while l < 16
        invariant
            l <= 16,
            p < 3,
            energy_match(before, f, loq as int, p as int),
            coding::energy_below(e@, 0x400_0000_0000_0000_0000_0000_0000),
            sum@.len() == 16,
            forall|i: int|
                0 <= i < 16 ==> #[trigger] sum@[i] == (if i < l {
                    before[i] + e@[i]
                } else {
                    before[i] as int
                }),
        decreases 16 - l,
    {
        assert(before[l as int] <= 0x400_0000_0000_0000_0000_0000_0000 * p);
        assert(e@[l as int] <= 0x400_0000_0000_0000_0000_0000_0000);
        let v: u128 = sum[l] + e[l];
        sum.set(l, v);
        l = l + 1;
    }
    proof {
        assert forall|i: int| 0 <= i < 16 implies #[trigger] sum@[i] == frame_energy(
            f,
            loq as int,
            i,
            p + 1,
        ) && sum@[i] <= 0x400_0000_0000_0000_0000_0000_0000 * (p + 1) by {
            assert(before[i] == frame_energy(f, loq as int, i, p as int));
            assert(e@[i] <= 0x400_0000_0000_0000_0000_0000_0000);
        }
    }
}

/// Take up the result of one more plane.
fn take_plane(parts: &mut RawParts, r: PlaneResult, Ghost(f): Ghost<FrameJob>, p: usize)
    requires
        p < planes(f),
        raw_match(*old(parts), f, p as int),
        plane::plane_coded(r, plane_job(f, p as int), signalling(f)),
        coding::sized(r.output@, f.config, 0, p as int),
        coding::sized(r.base_only@, f.config, 0, p as int),
        f.config.temporal_enabled ==> coding::sized(r.tb@, f.config, 0, p as int),
        !f.config.temporal_enabled ==> r.tb@ == f.tbs[p as int],
        coding::energy_below(r.energy_l1@, 0x400_0000_0000_0000_0000_0000_0000),
        coding::energy_below(r.energy_l2@, 0x400_0000_0000_0000_0000_0000_0000),
        r.chunks_l1 <= 0x10_0000_0000,
        r.chunks_l2 <= 0x10_0000_0000,
    ensures
        raw_match(*final(parts), f, p + 1),
{
    parts.residual.push(r.residual);
    parts.temporal.push(r.temporal);
    parts.output.push(r.output);
    parts.plain.push(r.base_only);
    parts.tbs.push(r.tb);
    add_energy(&mut parts.energy_l1, &r.energy_l1, Ghost(f), 1, p);
    add_energy(&mut parts.energy_l2, &r.energy_l2, Ghost(f), 0, p);
    parts.chunks_l1 = parts.chunks_l1 + r.chunks_l1;
    parts.chunks_l2 = parts.chunks_l2 + r.chunks_l2;
}

/// Code the planes of a frame.
fn code_planes(
    cfg: &LcevcConfig,
    source: &Vec<Plane>,
    base: &Vec<Plane>,
    sw_l1: u32,
    sw_l2: u32,
    qm: &[Vec<u8>; 2],
    temporal_refresh: bool,
    tbs: &Vec<PlaneS16>,
    rdoq: bool,
    logs: &LogTable,
    Ghost(f): Ghost<FrameJob>,
) -> (r: RawParts)
    requires
        frame_ok(f),
        f.config == *cfg,
        f.source == frame::planes_view(source@),
        f.base == frame::planes_view(base@),
        f.step_l1 == sw_l1,
        f.step_l2 == sw_l2,
        f.matrix0 == qm@[0]@,
        f.matrix1 == qm@[1]@,
        f.refresh == temporal_refresh,
        f.tbs == buffers_view(tbs@),
        f.rdoq == rdoq,
        f.logs == logs@,
    ensures
        raw_match(r, f, planes(f)),
{
    let mut parts = RawParts {
        residual: Vec::new(),
        temporal: Vec::new(),
        output: Vec::new(),
        plain: Vec::new(),
        tbs: Vec::new(),
        energy_l1: plane::zero_energy(),
        energy_l2: plane::zero_energy(),
        chunks_l1: 0,
        chunks_l2: 0,
    };
    let n: usize = cfg.num_planes();
    let temporal_signalling: bool = cfg.temporal_enabled && !temporal_refresh;
    let mut p: usize = 0;
    while p < n
        invariant
            p <= n == planes(f),
            frame_ok(f),
            f.config == *cfg,
            f.source == frame::planes_view(source@),
            f.base == frame::planes_view(base@),
            f.step_l1 == sw_l1,
            f.step_l2 == sw_l2,
            f.matrix0 == qm@[0]@,
            f.matrix1 == qm@[1]@,
            f.refresh == temporal_refresh,
            f.tbs == buffers_view(tbs@),
            f.rdoq == rdoq,
            f.logs == logs@,
            temporal_signalling == signalling(f),
            raw_match(parts, f, p as int),
        decreases n - p,
    {
        let tb = tbs[p].duplicate();
        proof {
            assert(plane::job_ok(plane_job(f, p as int)));
            assert(f.source[p as int] == source@[p as int]@);
            assert(f.base[p as int] == base@[p as int]@);
            assert(f.tbs[p as int] == tb@);
        }
        let r = plane::process_plane(
            cfg,
            &source[p],
            &base[p],
            temporal_refresh,
            temporal_signalling,
            sw_l1,
            sw_l2,
            qm,
            tb,
            p,
            rdoq,
            logs,
        );
        take_plane(&mut parts, r, Ghost(f), p);
        p = p + 1;
    }
    parts
}

/// Chunks that carry nothing, in the place of those of a frame.
fn empty_chunks(r: &RawParts, Ghost(f): Ghost<FrameJob>) -> (out: (
    Vec<Vec<Vec<Vec<Chunk>>>>,
    Vec<Vec<Chunk>>,
))
    requires
        raw_match(*r, f, planes(f)),
        dropped(f),
    ensures
        chunks_match(out.0@, out.1@, f),
{
    let mut residual: Vec<Vec<Vec<Vec<Chunk>>>> = Vec::new();
    let mut temporal: Vec<Vec<Chunk>> = Vec::new();
    let n: usize = r.residual.len();
    let mut p: usize = 0;
    while p < n
        invariant
            p <= n == planes(f),
            raw_match(*r, f, planes(f)),
            dropped(f),
            residual@.len() == p,
            temporal@.len() == p,
            forall|a: int| 0 <= a < p ==> #[trigger] residual@[a]@.len() == 2,
            forall|a: int, q: int|
                0 <= a < p && 0 <= q < 2 ==> #[trigger] residual@[a]@[q]@.len() == layers(f),
            forall|a: int, q: int, l: int|
                0 <= a < p && 0 <= q < 2 && 0 <= l < layers(f)
                    ==> #[trigger] residual@[a]@[q]@[l]@.len() == config::tile_count(
                    f.config,
                    1 - q,
                    a,
                ),
            forall|a: int, q: int, l: int, k: int|
                0 <= a < p && 0 <= q < 2 && 0 <= l < layers(f) && 0 <= k < config::tile_count(
                    f.config,
                    1 - q,
                    a,
                ) ==> #[trigger] residual@[a]@[q]@[l]@[k]@ == plane::empty_chunk(),
            forall|a: int|
                0 <= a < p ==> #[trigger] temporal@[a]@.len() == config::tile_count(
                    f.config,
                    0,
                    a,
                ),
            forall|a: int, k: int|
                0 <= a < p && 0 <= k < config::tile_count(f.config, 0, a)
                    ==> #[trigger] temporal@[a]@[k]@ == plane::empty_chunk(),
        decreases n - p,
    {
        assert(plane_chunks_match(r.residual@[p as int]@, r.temporal@[p as int]@, f, p as int));
        let l1 = empty_layers(&r.residual[p][0]);
        let l2 = empty_layers(&r.residual[p][1]);
        let mut both: Vec<Vec<Vec<Chunk>>> = Vec::new();
        both.push(l1);
        both.push(l2);
        residual.push(both);
        temporal.push(empty_tiles(r.temporal[p].len()));
        p = p + 1;
    }
    (residual, temporal)
}

/// Code a frame.
pub(crate) fn code_frame(
    cfg: &LcevcConfig,
    source: &Vec<Plane>,
    base: &Vec<Plane>,
    sw_l1: u32,
    sw_l2: u32,
    qm: &[Vec<u8>; 2],
    temporal_refresh: bool,
    tbs: &Vec<PlaneS16>,
    rdoq: bool,
    logs: &LogTable,
    Ghost(f): Ghost<FrameJob>,
) -> (r: FrameParts)
    requires
        frame_ok(f),
        f.config == *cfg,
        f.source == frame::planes_view(source@),
        f.base == frame::planes_view(base@),
        f.step_l1 == sw_l1,
        f.step_l2 == sw_l2,
        f.matrix0 == qm@[0]@,
        f.matrix1 == qm@[1]@,
        f.refresh == temporal_refresh,
        f.tbs == buffers_view(tbs@),
        f.rdoq == rdoq,
        f.logs == logs@,
        forall|p: int| 0 <= p < planes(f) ==> coding::sized(#[trigger] f.tbs[p], *cfg, 0, p),
    ensures
        parts_match(r, f),
        forall|p: int| 0 <= p < planes(f) ==> coding::sized(#[trigger] r.tbs@[p]@, *cfg, 0, p),
{
    let raw = code_planes(
        cfg,
        source,
        base,
        sw_l1,
        sw_l2,
        qm,
        temporal_refresh,
        tbs,
        rdoq,
        logs,
        Ghost(f),
    );
    let plain_sse: u128 = error_of(source, &raw.plain, Ghost(f));
    let recon_sse: u128 = error_of(source, &raw.output, Ghost(f));
    proof {
        reveal(dropped);
        assert(frame::planes_view(raw.plain@) =~= plain(f));
        assert(frame::planes_view(raw.output@) =~= enhanced(f));
        assert(buffers_view(raw.tbs@) =~= Seq::new(
            planes(f) as nat,
            |p: int| plane::loq0_end(plane_job(f, p)).tb,
        ));
    }
    // Adaptive enhancement: if the residual does not improve the reconstruction over the
    // base-only prediction, drop it entirely (zero chunks). A decoder then outputs the base
    // as-is and the overhead is just the per-frame headers.
    if recon_sse >= plain_sse {
        let (residual, temporal) = empty_chunks(&raw, Ghost(f));
        let tbs = if cfg.temporal_enabled {
            copy_buffers(tbs)
        } else {
            raw.tbs
        };
        assert forall|p: int| 0 <= p < planes(f) implies coding::sized(
            #[trigger] tbs@[p]@,
            *cfg,
            0,
            p,
        ) by {
            assert(coding::sized(f.tbs[p], *cfg, 0, p));
        }
        FrameParts {
            residual,
            temporal,
            output: raw.plain,
            tbs,
            energy_l1: raw.energy_l1,
            energy_l2: raw.energy_l2,
            chunks_l1: raw.chunks_l1,
            chunks_l2: raw.chunks_l2,
        }
    } else {
        proof {
            lemma_raw_chunks(raw.residual@, raw.temporal@, f);
        }
        FrameParts {
            residual: raw.residual,
            temporal: raw.temporal,
            output: raw.output,
            tbs: raw.tbs,
            energy_l1: raw.energy_l1,
            energy_l2: raw.energy_l2,
            chunks_l1: raw.chunks_l1,
            chunks_l2: raw.chunks_l2,
        }
    }
}

/// The chunks of all planes, where nothing is dropped.
proof fn lemma_raw_chunks(
    residual: Seq<Vec<Vec<Vec<Chunk>>>>,
    temporal: Seq<Vec<Chunk>>,
    f: FrameJob,
)
    requires
        residual.len() == planes(f),
        temporal.len() == planes(f),
        forall|p: int|
            0 <= p < planes(f) ==> plane_chunks_match(
                #[trigger] residual[p]@,
                temporal[p]@,
                f,
                p,
            ),
        !dropped(f),
    ensures
        chunks_match(residual, temporal, f),
{
    assert forall|p: int, q: int| 0 <= p < planes(f) && 0 <= q < 2 implies #[trigger] residual[p]@[q]@.len()
        == layers(f) by {
        assert(plane_chunks_match(residual[p]@, temporal[p]@, f, p));
    }
    assert forall|p: int, q: int, l: int|
        0 <= p < planes(f) && 0 <= q < 2 && 0 <= l < layers(f) implies #[trigger] residual[p]@[q]@[l]@.len()
        == config::tile_count(f.config, 1 - q, p) by {
        assert(plane_chunks_match(residual[p]@, temporal[p]@, f, p));
        assert(plane::loq_chunks_match(residual[p]@[q]@, plane_job(f, p), 1 - q));
    }
    assert forall|p: int, q: int, l: int, k: int|
        0 <= p < planes(f) && 0 <= q < 2 && 0 <= l < layers(f) && 0 <= k < config::tile_count(
            f.config,
            1 - q,
            p,
        ) implies #[trigger] residual[p]@[q]@[l]@[k]@ == frame_chunk(f, p, q, l, k) by {
        assert(plane_chunks_match(residual[p]@, temporal[p]@, f, p));
        assert(plane::loq_chunks_match(residual[p]@[q]@, plane_job(f, p), 1 - q));
    }
    assert forall|p: int| 0 <= p < planes(f) implies #[trigger] temporal[p]@.len()
        == config::tile_count(f.config, 0, p) by {
        assert(plane_chunks_match(residual[p]@, temporal[p]@, f, p));
    }
    assert forall|p: int, k: int|
        0 <= p < planes(f) && 0 <= k < config::tile_count(
            f.config,
            0,
            p,
        ) implies #[trigger] temporal[p]@[k]@ == frame_signals(f, p, k) by {
        assert(plane_chunks_match(residual[p]@, temporal[p]@, f, p));
    }
}

/// A copy of temporal buffers.
pub fn copy_buffers(tbs: &Vec<PlaneS16>) -> (out: Vec<PlaneS16>)
    ensures
        buffers_view(out@) == buffers_view(tbs@),
        out@.len() == tbs@.len(),
        forall|p: int| 0 <= p < out@.len() ==> #[trigger] out@[p]@ == tbs@[p]@,
{
    let mut out: Vec<PlaneS16> = Vec::new();
    let mut p: usize = 0;
    while p < tbs.len()
        invariant
            p <= tbs@.len(),
            out@.len() == p,
            forall|a: int| 0 <= a < p ==> #[trigger] out@[a]@ == tbs@[a]@,
        decreases tbs@.len() - p,
    {
        out.push(tbs[p].duplicate());
        p = p + 1;
    }
    assert(buffers_view(out@) =~= buffers_view(tbs@));
    out
}

/// A layer of the stream, from the chunks.
proof fn lemma_frame_layer(
    residual: Seq<Vec<Vec<Vec<Chunk>>>>,
    temporal: Seq<Vec<Chunk>>,
    f: FrameJob,
    k: int,
)
    requires
        chunks_match(residual, temporal, f),
        config::config_error(f.config) is None,
        0 <= k < planes(f) * payload::layers_per_plane(layers(f), signalling(f)),
    ensures
        payload::stream_layer(residual, temporal, layers(f), signalling(f), k) == frame_layer(f, k),
        frame_layer(f, k).len() <= 0x1_0000_0000,
{
    let m = payload::layers_per_plane(layers(f), signalling(f));
    let a = payload::stream_layer(residual, temporal, layers(f), signalling(f), k);
    let b = frame_layer(f, k);
    let p = k / m;
    let r = k % m;
    vstd::arithmetic::div_mod::lemma_fundamental_div_mod(k, m);
    vstd::arithmetic::div_mod::lemma_mod_bound(k, m);
    let n = planes(f);
    assert(0 <= p < n) by (nonlinear_arith)
        requires
            k == m * p + r,
            0 <= r < m,
            0 <= k < n * m,
    ;
    coding::lemma_tile_count(f.config, 0, p);
    coding::lemma_tile_count(f.config, 1, p);
    if r < 2 * layers(f) {
        let q = r / layers(f);
        let l = r % layers(f);
        lemma_two_rows(r, layers(f));
        let tiles = residual[p]@[q]@[l]@;
        assert(tiles.len() == config::tile_count(f.config, 1 - q, p));
        assert forall|t: int| 0 <= t < tiles.len() implies a[t] == b[t] by {
            assert(residual[p]@[q]@[l]@[t]@ == frame_chunk(f, p, q, l, t));
        }
        assert(a =~= b);
    } else {
        let tiles = temporal[p]@;
        assert(tiles.len() == config::tile_count(f.config, 0, p));
        assert forall|t: int| 0 <= t < tiles.len() implies a[t] == b[t] by {
            assert(temporal[p]@[t]@ == frame_signals(f, p, t));
        }
        assert(a =~= b);
    }
}

/// The layers of the stream, from the chunks.
pub proof fn lemma_frame_layers(
    residual: Seq<Vec<Vec<Vec<Chunk>>>>,
    temporal: Seq<Vec<Chunk>>,
    f: FrameJob,
)
    requires
        chunks_match(residual, temporal, f),
        config::config_error(f.config) is None,
    ensures
        payload::stream_layers(residual, temporal, planes(f), layers(f), signalling(f))
            == frame_layers(f),
        payload::chunks_complete(residual, temporal, planes(f), layers(f), signalling(f)),
        payload::tile_lists_bounded(frame_layers(f)),
{
    let a = payload::stream_layers(residual, temporal, planes(f), layers(f), signalling(f));
    let b = frame_layers(f);
    assert(a.len() == b.len());
    assert forall|k: int| 0 <= k < b.len() implies a[k] == #[trigger] b[k] && b[k].len()
        <= 0x1_0000_0000 by {
        lemma_frame_layer(residual, temporal, f, k);
    }
    assert(a =~= b);
    assert forall|p: int, q: int, l: int|
        0 <= p < planes(f) && 0 <= q < 2 && 0 <= l < layers(f) implies #[trigger] residual[p]@[q]@[l]@.len()
        >= 1 by {
        lemma_one_tile(f.config, 1 - q, p);
    }
    assert forall|p: int| 0 <= p < planes(f) implies #[trigger] temporal[p]@.len() >= 1 by {
        lemma_one_tile(f.config, 0, p);
    }
}

proof fn lemma_two_rows(r: int, n: int)
    requires
        0 <= r < 2 * n,
        n > 0,
    ensures
        0 <= r / n < 2,
        0 <= r % n < n,
{
    vstd::arithmetic::div_mod::lemma_fundamental_div_mod(r, n);
    vstd::arithmetic::div_mod::lemma_mod_bound(r, n);
    let q = r / n;
    assert(0 <= q < 2) by (nonlinear_arith)
        requires
            r == n * q + r % n,
            0 <= r % n < n,
            0 <= r < 2 * n,
    ;
}

/// Every plane has a tile.
proof fn lemma_one_tile(c: LcevcConfig, loq: int, p: int)
    requires
        config::config_error(c) is None,
        0 <= p < config::planes_of(c.chroma),
        loq == 0 || loq == 1,
    ensures
        config::tile_count(c, loq, p) >= 1,
{
    geometry::lemma_planes(c, p);
    geometry::lemma_tile_size(c, p);
    let (w, h) = config::plane_size(c, loq, p);
    let (tw, th) = config::tile_size(c, p);
    let a = (w + tw - 1) / tw;
    let b = (h + th - 1) / th;
    assert(a >= 1) by (nonlinear_arith)
        requires
            w >= 1,
            tw >= 1,
            a == (w + tw - 1) / tw,
    ;
    assert(b >= 1) by (nonlinear_arith)
        requires
            h >= 1,
            th >= 1,
            b == (h + th - 1) / th,
    ;
    assert(a * b >= 1) by (nonlinear_arith)
        requires
            a >= 1,
            b >= 1,
    ;
}

} // verus!
