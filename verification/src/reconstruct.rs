//! What a decoder makes of the chunks of a plane: levels and temporal signals per TU, and the
//! reconstruction of both LOQs.
use crate::blocks;
use crate::config;
use crate::config::{LcevcConfig, ScalingMode};
use crate::dequant;
use crate::dequant::{DequantLayer, DequantTable, LogTable};
use crate::entropy::rle;
use crate::entropy::rle::{CoeffEvent, TemporalRun};
use crate::frame;
use crate::frame::{Plane, PlaneS16, Raster};
use crate::payload::{Chunk, ChunkModel};
use crate::plane;
use crate::quant;
use crate::runs;
use crate::transform;
use crate::transform::ForwardTransform;
use crate::tu;
use crate::tu::TuState;
use crate::upscale;
use vstd::prelude::*;

verus! {

/// The coefficient of the `i`-th TU: zero after the last event.
pub open spec fn coeff_at(events: Seq<CoeffEvent>, i: int) -> i16 {
    let all = runs::expanded(events);
    if i < all.len() {
        all[i]
    } else {
        0
    }
}

/// The coefficients of a layer, one per TU.
pub open spec fn layer_coeffs(c: ChunkModel, total: int) -> Seq<i16> {
    if c.enabled {
        let events = rle::chunk_events(c.data, c.rle_only, total);
        Seq::new(total as nat, |i: int| coeff_at(events, i))
    } else {
        runs::zero_coeffs(total)
    }
}

/// The first events stand for the first coefficients.
pub proof fn lemma_expanded_prefix(events: Seq<CoeffEvent>, k: int, i: int)
    requires
        0 <= k <= events.len(),
        0 <= i < runs::expanded(events.subrange(0, k)).len(),
    ensures
        i < runs::expanded(events).len(),
        runs::expanded(events)[i] == runs::expanded(events.subrange(0, k))[i],
    decreases events.len(),
{
    if k < events.len() {
        let d = events.drop_last();
        assert(d.subrange(0, k) =~= events.subrange(0, k));
        lemma_expanded_prefix(d, k, i);
    } else {
        assert(events.subrange(0, k) =~= events);
    }
}

/// The first `total` coefficients of an event list, as far as the first `k` events reach.
spec fn filled(out: Seq<i16>, events: Seq<CoeffEvent>, k: int, total: int) -> bool {
    let part = runs::expanded(events.subrange(0, k));
    &&& out.len() == (if part.len() < total {
        part.len() as int
    } else {
        total
    })
    &&& forall|i: int| 0 <= i < out.len() ==> #[trigger] out[i] == part[i]
}

/// Expand events into the coefficients of `total` TUs.
fn expand_events(events: &Vec<CoeffEvent>, total: usize) -> (out: Vec<i16>)
    ensures
        out@ == Seq::new(total as nat, |i: int| coeff_at(events@, i)),
{
    let mut out: Vec<i16> = Vec::new();
    let mut k: usize = 0;
    assert(events@.subrange(0, 0) =~= Seq::empty());
    while k < events.len() && out.len() < total
        invariant
            k <= events@.len(),
            filled(out@, events@, k as int, total as int),
        decreases events@.len() - k,
    {
        let ev: CoeffEvent = events[k];
        let ghost part = runs::expanded(events@.subrange(0, k as int));
        let ghost more = runs::expanded(events@.subrange(0, k + 1));
        proof {
            assert(events@.subrange(0, k + 1).drop_last() =~= events@.subrange(0, k as int));
            assert(more =~= part.push(ev.value) + runs::zero_coeffs(ev.zero_run as int));
        }
        out.push(ev.value);
        let mut z: u32 = 0;
        while z < ev.zero_run && out.len() < total
            invariant
                z <= ev.zero_run,
                more == part.push(ev.value) + runs::zero_coeffs(ev.zero_run as int),
                out@.len() == part.len() + 1 + z,
                out@.len() <= total,
                forall|i: int| 0 <= i < out@.len() ==> #[trigger] out@[i] == more[i],
            decreases ev.zero_run - z,
        {
            out.push(0);
            z = z + 1;
        }
        k = k + 1;
    }
    let ghost reached = out@.len() as int;
    let ghost at = k as int;
    proof {
        if k == events@.len() {
            assert(events@.subrange(0, k as int) =~= events@);
        }
        assert forall|i: int| 0 <= i < reached implies #[trigger] out@[i] == coeff_at(
            events@,
            i,
        ) by {
            lemma_expanded_prefix(events@, at, i);
        }
        assert forall|i: int| reached <= i < total implies coeff_at(events@, i) == 0 by {
            assert(reached < total);
        }
    }
    while out.len() < total
        invariant
            reached <= out@.len() <= total,
            forall|i: int| 0 <= i < out@.len() ==> #[trigger] out@[i] == coeff_at(events@, i),
            forall|i: int| reached <= i < total ==> coeff_at(events@, i) == 0,
        decreases total - out@.len(),
    {
        out.push(0);
    }
    assert(out@ =~= Seq::new(total as nat, |i: int| coeff_at(events@, i)));
    out
}

/// Decode the residual chunk payload (three Huffman tables + data) into one coefficient per TU.
fn decode_residual_chunk(chunk: &Chunk, total_tu: usize) -> (out: Vec<i16>)
    ensures
        out@ == layer_coeffs(chunk@, total_tu as int),
        out@.len() == total_tu,
{
    if chunk.entropy_enabled {
        let events = rle::decode_coefficient_chunk(
            chunk.data.as_slice(),
            chunk.rle_only,
            total_tu,
        );
        expand_events(&events, total_tu)
    } else {
        let out: Vec<i16> = vec![0i16; total_tu];
        assert(out@ =~= runs::zero_coeffs(total_tu as int));
        out
    }
}

/// TUs that a run is held for: a run of none still takes one.
pub open spec fn held(r: TemporalRun) -> int {
    if r.count == 0 {
        1
    } else {
        r.count as int
    }
}

/// The signals of runs, one per TU.
pub open spec fn held_signals(list: Seq<TemporalRun>) -> Seq<u8>
    decreases list.len(),
{
    if list.len() == 0 {
        Seq::empty()
    } else {
        held_signals(list.drop_last()) + runs::same_signals(list.last().signal, held(list.last()))
    }
}

/// The signal of the `i`-th TU: that of the last run after all runs, and intra without runs.
pub open spec fn signal_at(list: Seq<TemporalRun>, i: int) -> u8 {
    let all = held_signals(list);
    if list.len() == 0 {
        1
    } else if i < all.len() {
        all[i]
    } else {
        list.last().signal
    }
}

proof fn lemma_held_prefix(list: Seq<TemporalRun>, k: int, i: int)
    requires
        0 <= k <= list.len(),
        0 <= i < held_signals(list.subrange(0, k)).len(),
    ensures
        i < held_signals(list).len(),
        held_signals(list)[i] == held_signals(list.subrange(0, k))[i],
    decreases list.len(),
{
    if k < list.len() {
        let d = list.drop_last();
        assert(d.subrange(0, k) =~= list.subrange(0, k));
        lemma_held_prefix(d, k, i);
    } else {
        assert(list.subrange(0, k) =~= list);
    }
}

spec fn signals_filled(out: Seq<u8>, list: Seq<TemporalRun>, k: int, total: int) -> bool {
    let part = held_signals(list.subrange(0, k));
    &&& out.len() == (if part.len() < total {
        part.len() as int
    } else {
        total
    })
    &&& forall|i: int| 0 <= i < out.len() ==> #[trigger] out[i] == part[i]
}

/// Expand runs into the signals of `total` TUs.
fn expand_signals(list: &Vec<TemporalRun>, total: usize) -> (out: Vec<u8>)
    ensures
        out@ == Seq::new(total as nat, |i: int| signal_at(list@, i)),
{
    let mut out: Vec<u8> = Vec::new();
    let mut k: usize = 0;
    assert(list@.subrange(0, 0) =~= Seq::empty());
    while k < list.len() && out.len() < total
        invariant
            k <= list@.len(),
            signals_filled(out@, list@, k as int, total as int),
        decreases list@.len() - k,
    {
        let signal: u8 = list[k].signal;
        let count: u32 = if list[k].count == 0 {
            1
        } else {
            list[k].count
        };
        let ghost part = held_signals(list@.subrange(0, k as int));
        let ghost more = held_signals(list@.subrange(0, k + 1));
        proof {
            assert(list@.subrange(0, k + 1).drop_last() =~= list@.subrange(0, k as int));
        }
        let mut z: u32 = 0;
        while z < count && out.len() < total
            invariant
                z <= count,
                more == part + runs::same_signals(signal, count as int),
                out@.len() == part.len() + z,
                out@.len() <= total,
                forall|i: int| 0 <= i < out@.len() ==> #[trigger] out@[i] == more[i],
            decreases count - z,
        {
            out.push(signal);
            z = z + 1;
        }
        k = k + 1;
    }
    let ghost reached = out@.len() as int;
    let ghost at = k as int;
    let last: u8 = if list.len() == 0 {
        1
    } else {
        list[list.len() - 1].signal
    };
    proof {
        if k == list@.len() {
            assert(list@.subrange(0, k as int) =~= list@);
        }
        assert forall|i: int| 0 <= i < reached implies #[trigger] out@[i] == signal_at(
            list@,
            i,
        ) by {
            lemma_held_prefix(list@, at, i);
        }
        assert forall|i: int| reached <= i < total implies signal_at(list@, i) == last by {
            assert(reached < total);
        }
    }
    while out.len() < total
        invariant
            reached <= out@.len() <= total,
            forall|i: int| 0 <= i < out@.len() ==> #[trigger] out@[i] == signal_at(list@, i),
            forall|i: int| reached <= i < total ==> signal_at(list@, i) == last,
        decreases total - out@.len(),
    {
        out.push(last);
    }
    assert(out@ =~= Seq::new(total as nat, |i: int| signal_at(list@, i)));
    out
}

/// What the reconstruction of a LOQ depends on.
#[verifier::ext_equal]
pub struct DecodeModel {
    pub pred: Raster<i16>,
    /// Dequantization for inter and for intra.
    pub rows: Seq<Seq<DequantLayer>>,
    pub forward: ForwardTransform,
    pub side: int,
    /// Dimensions of the plane.
    pub width: int,
    pub height: int,
    pub block_order: bool,
    /// The temporal buffer takes part.
    pub temporal: bool,
    /// Coefficients per layer and TU.
    pub coeffs: Seq<Seq<i16>>,
    /// Temporal signals per TU.
    pub signals: Seq<u8>,
}

/// The levels of the `i`-th TU.
pub open spec fn tu_levels(coeffs: Seq<Seq<i16>>, i: int) -> Seq<i16> {
    Seq::new(coeffs.len(), |l: int| coeffs[l][i])
}

/// Reconstruction and temporal buffer after one more TU.
///
/// Without temporal buffer the residual is added to the reconstruction. With it, inter adds the
/// residual to the temporal buffer and intra replaces it; the reconstruction is prediction plus
/// the new temporal buffer. All sums saturate.
#[verifier::opaque]
pub open spec fn decoded_tu(
    m: DecodeModel,
    recon: Raster<i16>,
    tb: Raster<i16>,
    i: int,
    x: int,
    y: int,
) -> (Raster<i16>, Raster<i16>) {
    let n = m.side;
    let intra = m.signals[i] == 1;
    let row = if intra {
        m.rows[1]
    } else {
        m.rows[0]
    };
    let rec = quant::decoded_residual(m.forward, row, tu_levels(m.coeffs, i));
    let pred = blocks::block_of(m.pred, x, y, n);
    let kept = blocks::block_of(tb, x, y, n);
    if !m.temporal {
        (
            blocks::with_block(
                recon,
                x,
                y,
                n,
                blocks::saturated_sum(blocks::block_of(recon, x, y, n), rec),
            ),
            tb,
        )
    } else if intra {
        (
            blocks::with_block(recon, x, y, n, blocks::saturated_sum(pred, rec)),
            blocks::with_block(tb, x, y, n, rec),
        )
    } else {
        let next = blocks::saturated_sum(kept, rec);
        (
            blocks::with_block(recon, x, y, n, blocks::saturated_sum(pred, next)),
            blocks::with_block(tb, x, y, n, next),
        )
    }
}

/// TUs of a plane.
pub open spec fn total_tus(m: DecodeModel) -> int {
    tu::tu_count(m.width, m.height, m.side)
}

/// Reconstruction and temporal buffer after the first `k` TUs.
pub open spec fn decoded_state(m: DecodeModel, recon: Raster<i16>, tb: Raster<i16>, k: int) -> (
    Raster<i16>,
    Raster<i16>,
)
    decreases k,
{
    if k <= 0 {
        (recon, tb)
    } else {
        let (r, t) = decoded_state(m, recon, tb, k - 1);
        let (x, y) = tu::tu_position(m.width, m.height, 0, 0, m.side, m.block_order, k - 1);
        decoded_tu(m, r, t, k - 1, x, y)
    }
}

/// A plane that has all TUs of the given dimensions.
pub open spec fn covers<A>(r: Raster<A>, width: int, height: int, side: int) -> bool {
    &&& r.wf()
    &&& (width / side) * side <= r.width
    &&& (height / side) * side <= r.height
}

proof fn lemma_covered(width: int, height: int, side: int, order: bool, i: int)
    requires
        0 <= width,
        0 <= height,
        side == 2 || side == 4,
        0 <= i < tu::tu_count(width, height, side),
    ensures
        ({
            let (x, y) = tu::tu_position(width, height, 0, 0, side, order, i);
            &&& 0 <= x && x + side <= (width / side) * side
            &&& 0 <= y && y + side <= (height / side) * side
        }),
{
    tu::lemma_tu_inside(width, height, side, order, i);
    let (x, y) = if order {
        tu::block_tu(width, height, side, i)
    } else {
        tu::raster_tu(width, side, i)
    };
    let a = width / side;
    let b = height / side;
    assert(0 <= x * side && x * side + side <= a * side) by (nonlinear_arith)
        requires
            0 <= x < a,
            side > 0,
    ;
    assert(0 <= y * side && y * side + side <= b * side) by (nonlinear_arith)
        requires
            0 <= y < b,
            side > 0,
    ;
}

/// What the reconstruction of a LOQ needs at hand.
struct LoqDecoder<'a> {
    pred: &'a PlaneS16,
    table: &'a DequantTable,
    forward: ForwardTransform,
    side: usize,
    width: usize,
    height: usize,
    block_order: bool,
    temporal: bool,
    coeffs: &'a Vec<Vec<i16>>,
    signals: &'a Vec<u8>,
}

impl<'a> LoqDecoder<'a> {
    spec fn model(&self) -> DecodeModel {
        DecodeModel {
            pred: self.pred@,
            rows: dequant::table_view(*self.table),
            forward: self.forward,
            side: self.side as int,
            width: self.width as int,
            height: self.height as int,
            block_order: self.block_order,
            temporal: self.temporal,
            coeffs: runs::coeffs_view(self.coeffs@),
            signals: self.signals@,
        }
    }

    spec fn wf(&self) -> bool {
        let total = tu::tu_count(self.width as int, self.height as int, self.side as int);
        &&& self.side == 2 || self.side == 4
        &&& self.width <= 65535 && self.height <= 65535
        &&& transform::transform_len(self.forward) == self.side * self.side
        &&& dequant::table_ok(dequant::table_view(*self.table), self.side * self.side)
        &&& covers(self.pred@, self.width as int, self.height as int, self.side as int)
        &&& self.coeffs@.len() == self.side * self.side
        &&& forall|l: int| 0 <= l < self.coeffs@.len() ==> #[trigger] self.coeffs@[l]@.len() == total
        &&& self.signals@.len() == total
    }

    /// The levels of a TU.
    fn levels(&self, i: usize) -> (levels: Vec<i16>)
        requires
            self.wf(),
            i < tu::tu_count(self.width as int, self.height as int, self.side as int),
        ensures
            levels@ == tu_levels(self.model().coeffs, i as int),
            levels@.len() == self.side * self.side,
    {
        let ghost all = tu_levels(self.model().coeffs, i as int);
        let mut levels: Vec<i16> = Vec::new();
        let mut l: usize = 0;
        while l < self.coeffs.len()
            invariant
                l <= self.coeffs@.len(),
                self.wf(),
                i < tu::tu_count(self.width as int, self.height as int, self.side as int),
                all == tu_levels(self.model().coeffs, i as int),
                levels@ == all.subrange(0, l as int),
            decreases self.coeffs@.len() - l,
        {
            assert(self.coeffs@[l as int]@.len() == tu::tu_count(
                self.width as int,
                self.height as int,
                self.side as int,
            ));
            levels.push(self.coeffs[l][i]);
            l = l + 1;
            assert(levels@ =~= all.subrange(0, l as int));
        }
        assert(levels@ =~= all);
        levels
    }

    /// Reconstruct a TU.
    fn decode_tu(&self, recon: &mut PlaneS16, tb: &mut PlaneS16, i: usize, x: usize, y: usize)
        requires
            self.wf(),
            i < tu::tu_count(self.width as int, self.height as int, self.side as int),
            blocks::inside(self.pred@, x as int, y as int, self.side as int),
            blocks::inside(old(recon)@, x as int, y as int, self.side as int),
            self.temporal ==> blocks::inside(old(tb)@, x as int, y as int, self.side as int),
        ensures
            (final(recon)@, final(tb)@) == decoded_tu(
                self.model(),
                old(recon)@,
                old(tb)@,
                i as int,
                x as int,
                y as int,
            ),
            final(recon)@.wf(),
            final(recon)@.width == old(recon)@.width,
            final(recon)@.height == old(recon)@.height,
            self.temporal ==> final(tb)@.wf(),
            !self.temporal ==> final(tb)@ == old(tb)@,
            final(tb)@.width == old(tb)@.width,
            final(tb)@.height == old(tb)@.height,
    {
        let levels = self.levels(i);
        let intra: bool = self.signals[i] == 1;
        let row: &Vec<DequantLayer> = if intra {
            &self.table.layers[1]
        } else {
            &self.table.layers[0]
        };
        proof {
            reveal(decoded_tu);
            let t = dequant::table_view(*self.table);
            assert(row@ == (if intra {
                t[1]
            } else {
                t[0]
            }));
            assert forall|l: int| 0 <= l < row@.len() implies #[trigger] row@[l].step_width >= 1 by {
                assert(t[0][l].step_width >= 1);
                assert(t[1][l].step_width >= 1);
            }
        }
        let rec = quant::decode_levels(&levels, row, &self.forward);
        if !self.temporal {
            blocks::commit_residual(recon, x, y, self.side, &rec);
        } else {
            let pred = blocks::read_block(self.pred, x, y, self.side);
            if intra {
                let sum = blocks::add_values(&pred, &rec);
                blocks::set_block(recon, x, y, self.side, &sum);
                blocks::set_block(tb, x, y, self.side, &rec);
            } else {
                let kept = blocks::read_block(tb, x, y, self.side);
                let next = blocks::add_values(&kept, &rec);
                let sum = blocks::add_values(&pred, &next);
                blocks::set_block(recon, x, y, self.side, &sum);
                blocks::set_block(tb, x, y, self.side, &next);
            }
        }
    }

    /// Walk the TUs of a LOQ.
    fn decode_all(&self, recon: &mut PlaneS16, tb: &mut PlaneS16)
        requires
            self.wf(),
            covers(old(recon)@, self.width as int, self.height as int, self.side as int),
            self.temporal ==> covers(
                old(tb)@,
                self.width as int,
                self.height as int,
                self.side as int,
            ),
        ensures
            (final(recon)@, final(tb)@) == decoded_state(
                self.model(),
                old(recon)@,
                old(tb)@,
                total_tus(self.model()),
            ),
            final(recon)@.wf(),
            final(recon)@.width == old(recon)@.width,
            final(recon)@.height == old(recon)@.height,
            old(tb)@.wf() ==> final(tb)@.wf(),
            final(tb)@.width == old(tb)@.width,
            final(tb)@.height == old(tb)@.height,
    {
        let shift: u32 = if self.side == 2 {
            1
        } else {
            2
        };
        let ghost m = self.model();
        let ghost r0 = recon@;
        let ghost t0 = tb@;
        proof {
            let a = m.width / m.side;
            let b = m.height / m.side;
            if m.side == 2 {
                assert(0 <= m.width / 2 <= 32767 && 0 <= m.height / 2 <= 32767);
            } else {
                assert(0 <= m.width / 4 <= 32767 && 0 <= m.height / 4 <= 32767);
            }
            assert(0 <= a * b <= 32767 * 32767) by (nonlinear_arith)
                requires
                    0 <= a <= 32767,
                    0 <= b <= 32767,
            ;
        }
        let tus = TuState::new(self.width, self.height, 0, 0, shift);
        let mut i: usize = 0;
        while i < tus.tu_total
            invariant
                i <= tus.tu_total,
                tus.wf(),
                tus.width == self.width,
                tus.height == self.height,
                tus.x_offset == 0,
                tus.y_offset == 0,
                tu::tu_side(tus.tu_width_shift) == self.side,
                tus.tu_total == total_tus(m),
                m == self.model(),
                self.wf(),
                covers(recon@, self.width as int, self.height as int, self.side as int),
                recon@.width == r0.width,
                recon@.height == r0.height,
                t0.wf() ==> tb@.wf(),
                tb@.width == t0.width,
                tb@.height == t0.height,
                self.temporal ==> covers(
                    tb@,
                    self.width as int,
                    self.height as int,
                    self.side as int,
                ),
                (recon@, tb@) == decoded_state(m, r0, t0, i as int),
            decreases tus.tu_total - i,
        {
            proof {
                lemma_covered(m.width, m.height, m.side, m.block_order, i as int);
            }
            let (x, y) = tus.surface_or_block_position(i, self.block_order);
            self.decode_tu(recon, tb, i, x, y);
            i = i + 1;
        }
    }
}

/// What a decoder knows of a plane.
#[verifier::ext_equal]
pub struct DecodeJob {
    pub config: LcevcConfig,
    pub plane: int,
    pub base: Raster<u16>,
    pub tb: Raster<i16>,
    pub step_l1: u32,
    pub step_l2: u32,
    pub refresh: bool,
    pub matrix0: Seq<u8>,
    pub matrix1: Seq<u8>,
    /// The chunks of the layers of LOQ1 and LOQ0.
    pub chunks: Seq<ChunkModel>,
    /// The chunk of the temporal signals, where it is used.
    pub temporal: Option<ChunkModel>,
    pub logs: Seq<u16>,
}

/// The coefficients of the layers of a LOQ, whose chunks start at `from`.
pub open spec fn loq_coeffs(chunks: Seq<ChunkModel>, from: int, n: nat, total: int) -> Seq<
    Seq<i16>,
> {
    Seq::new(n, |l: int| layer_coeffs(chunks[from + l], total))
}

/// TUs of a plane at a LOQ.
pub open spec fn plane_tus(c: LcevcConfig, loq: int, plane: int) -> int {
    let (w, h) = config::plane_size(c, loq, plane);
    tu::tu_count(w, h, config::tu_size_of(c.transform) as int)
}

pub open spec fn upscaled_by(c: LcevcConfig, r: Raster<i16>, mode: ScalingMode) -> Raster<i16> {
    upscale::upscaled(r, mode, config::kernel_of(c.upsampler), c.predicted_average)
}

/// The prediction of LOQ1.
pub open spec fn pred1(j: DecodeJob) -> Raster<i16> {
    upscaled_by(
        j.config,
        frame::fixed_of_plane(j.base, j.config.enhancement_depth as int),
        j.config.scaling_l1,
    )
}

/// How LOQ1 is decoded.
pub open spec fn loq1_decode(j: DecodeJob) -> DecodeModel {
    let c = j.config;
    let (w, h) = config::plane_size(c, 1, j.plane);
    let total = plane_tus(c, 1, j.plane);
    DecodeModel {
        pred: pred1(j),
        rows: plane::loq1_table(c, j.plane, j.step_l1, j.matrix1, j.refresh, j.logs),
        forward: plane::transform_of(c, c.scaling_l1),
        side: config::tu_size_of(c.transform) as int,
        width: w,
        height: h,
        block_order: plane::block_order(c),
        temporal: false,
        coeffs: loq_coeffs(j.chunks, 0, config::layers_of(c.transform), total),
        signals: runs::same_signals(1, total),
    }
}

/// The reconstruction of LOQ1.
pub open spec fn recon1(j: DecodeJob) -> Raster<i16> {
    decoded_state(
        loq1_decode(j),
        pred1(j),
        frame::zero_raster(0, 0),
        plane_tus(j.config, 1, j.plane),
    ).0
}

/// The prediction of LOQ0.
pub open spec fn pred0(j: DecodeJob) -> Raster<i16> {
    upscaled_by(j.config, recon1(j), j.config.scaling_l2)
}

/// The runs of temporal signals; nothing where their chunk cannot be decoded.
pub open spec fn temporal_runs(j: DecodeJob) -> Option<Seq<TemporalRun>> {
    match j.temporal {
        Some(t) => if t.enabled && !t.rle_only {
            rle::chunk_runs(t.data, plane_tus(j.config, 0, j.plane))
        } else {
            Some(Seq::empty())
        },
        None => Some(Seq::empty()),
    }
}

/// How LOQ0 is decoded.
pub open spec fn loq0_decode(j: DecodeJob) -> DecodeModel {
    let c = j.config;
    let n = config::layers_of(c.transform);
    let (w, h) = config::plane_size(c, 0, j.plane);
    let total = plane_tus(c, 0, j.plane);
    let list = temporal_runs(j)->0;
    DecodeModel {
        pred: pred0(j),
        rows: plane::loq0_table(
            c,
            j.plane,
            j.step_l2,
            j.matrix0,
            c.temporal_enabled,
            j.refresh,
            j.logs,
        ),
        forward: plane::transform_of(c, c.scaling_l2),
        side: config::tu_size_of(c.transform) as int,
        width: w,
        height: h,
        block_order: plane::block_order(c),
        temporal: c.temporal_enabled,
        coeffs: loq_coeffs(j.chunks, n as int, n, total),
        signals: Seq::new(total as nat, |i: int| signal_at(list, i)),
    }
}

/// The reconstruction of LOQ0 and the temporal buffer after it.
pub open spec fn recon0(j: DecodeJob) -> (Raster<i16>, Raster<i16>) {
    decoded_state(loq0_decode(j), pred0(j), j.tb, plane_tus(j.config, 0, j.plane))
}

/// The planes are large enough for all TUs.
pub open spec fn planes_cover(j: DecodeJob) -> bool {
    let c = j.config;
    let s = config::tu_size_of(c.transform) as int;
    let (w1, h1) = config::plane_size(c, 1, j.plane);
    let (w0, h0) = config::plane_size(c, 0, j.plane);
    &&& covers(pred1(j), w1, h1, s)
    &&& covers(pred0(j), w0, h0, s)
    &&& c.temporal_enabled ==> covers(j.tb, w0, h0, s)
}

/// What becomes of a plane: samples and temporal buffer, or an error and what it leaves in the
/// temporal buffer.
#[verifier::opaque]
pub open spec fn plane_outcome(j: DecodeJob) -> (Result<Raster<u16>, Seq<char>>, Raster<i16>) {
    if !planes_cover(j) {
        (Err("plane too small"@), j.tb)
    } else if temporal_runs(j) is None {
        (Err("temporal decode failed"@), frame::zero_raster(pred0(j).width, pred0(j).height))
    } else {
        (
            Ok(frame::samples_of_plane(recon0(j).0, j.config.enhancement_depth as int)),
            recon0(j).1,
        )
    }
}

/// Dimensions that can be upscaled twice.
pub open spec fn small_enough<A>(r: Raster<A>) -> bool {
    r.wf() && r.width <= 0x0fff_ffff && r.height <= 0x0fff_ffff
}

/// A job with the chunks of all layers, and a matrix entry per layer.
pub open spec fn decode_ok(j: DecodeJob) -> bool {
    let n = config::layers_of(j.config.transform);
    &&& 1 <= j.config.enhancement_depth <= 14
    &&& small_enough(j.base)
    &&& j.matrix0.len() == n
    &&& j.matrix1.len() == n
    &&& j.chunks.len() == 2 * n
}

/// The coefficients of the layers of a LOQ.
fn decode_coeffs(
    chunks: &Vec<Chunk>,
    from: usize,
    n: usize,
    total: usize,
    Ghost(list): Ghost<Seq<ChunkModel>>,
    Ghost(base): Ghost<int>,
) -> (out: Vec<Vec<i16>>)
    requires
        from + n <= chunks@.len(),
        0 <= base,
        base + n <= list.len(),
        forall|l: int| 0 <= l < n ==> #[trigger] list[base + l] == chunks@[from + l]@,
    ensures
        runs::coeffs_view(out@) == loq_coeffs(list, base, n as nat, total as int),
        out@.len() == n,
        forall|l: int| 0 <= l < n ==> #[trigger] out@[l]@.len() == total,
{
    let ghost all = loq_coeffs(list, base, n as nat, total as int);
    let have: usize = chunks.len();
    let mut out: Vec<Vec<i16>> = Vec::new();
    let mut l: usize = 0;
    while l < n
        invariant
            l <= n,
            from + n <= have == chunks@.len(),
            forall|l: int| 0 <= l < n ==> #[trigger] list[base + l] == chunks@[from + l]@,
            all == loq_coeffs(list, base, n as nat, total as int),
            out@.len() == l,
            forall|k: int|
                0 <= k < l ==> #[trigger] out@[k]@ == all[k] && out@[k]@.len() == total,
        decreases n - l,
    {
        assert(list[base + l] == chunks@[from + l]@);
        out.push(decode_residual_chunk(&chunks[from + l], total));
        l = l + 1;
    }
    assert(runs::coeffs_view(out@) =~= all);
    out
}

/// Reconstruct LOQ1 of a plane.
fn decode_loq1(
    cfg: &LcevcConfig,
    pred: &PlaneS16,
    chunks: &Vec<Chunk>,
    from: usize,
    step: u32,
    matrix: &Vec<u8>,
    refresh: bool,
    plane: usize,
    logs: &LogTable,
    Ghost(j): Ghost<DecodeJob>,
) -> (recon: PlaneS16)
    requires
        decode_ok(j),
        j.config == *cfg,
        j.plane == plane,
        j.step_l1 == step,
        j.matrix1 == matrix@,
        j.refresh == refresh,
        j.logs == logs@,
        pred@ == pred1(j),
        from + j.chunks.len() <= chunks@.len(),
        forall|l: int| 0 <= l < j.chunks.len() ==> #[trigger] j.chunks[l] == chunks@[from + l]@,
        covers(
            pred@,
            config::plane_size(*cfg, 1, plane as int).0,
            config::plane_size(*cfg, 1, plane as int).1,
            config::tu_size_of(cfg.transform) as int,
        ),
    ensures
        recon@ == recon1(j),
        recon@.wf(),
        recon@.width == pred@.width,
        recon@.height == pred@.height,
{
    let n: usize = cfg.num_layers();
    let (w, h) = cfg.plane_dimensions(1, plane);
    let total: usize = tu_total(w, h, cfg.tu_size());
    let sw: i32 = dequant::loq_step_width(
        dequant::wrap_i32(step as i64),
        plane,
        false,
        cfg.chroma_step_width_multiplier,
    );
    let table = DequantTable::compute(
        sw,
        matrix.as_slice(),
        cfg.temporal_enabled,
        false,
        refresh,
        cfg.temporal_step_width_modifier,
        -1,
        false,
        logs,
    );
    let coeffs = decode_coeffs(chunks, from, n, total, Ghost(j.chunks), Ghost(0));
    let signals: Vec<u8> = vec![1u8; total];
    assert(signals@ =~= runs::same_signals(1, total as int));
    let d = LoqDecoder {
        pred,
        table: &table,
        forward: ForwardTransform::new(
            cfg.transform.to_bit(),
            cfg.scaling_l1 == ScalingMode::Scale1D,
        ),
        side: cfg.tu_size(),
        width: w as usize,
        height: h as usize,
        block_order: cfg.temporal_enabled || cfg.is_tiled(),
        temporal: false,
        coeffs: &coeffs,
        signals: &signals,
    };
    assert(d.model() =~= loq1_decode(j));
    let mut recon = pred.duplicate();
    let mut none = PlaneS16::zeros(0, 0);
    d.decode_all(&mut recon, &mut none);
    recon
}

/// TUs of a plane.
fn tu_total(w: u16, h: u16, side: usize) -> (n: usize)
    requires
        side == 2 || side == 4,
    ensures
        n == tu::tu_count(w as int, h as int, side as int),
        n <= 0x3fff_ffff,
{
    let a: usize = w as usize / side;
    let b: usize = h as usize / side;
    assert(0 <= a * b <= 32767 * 32767) by (nonlinear_arith)
        requires
            0 <= a <= 32767,
            0 <= b <= 32767,
    ;
    a * b
}

/// Reconstruct LOQ0 of a plane, with the runs of its temporal signals.
fn decode_loq0(
    cfg: &LcevcConfig,
    pred: &PlaneS16,
    tb: &mut PlaneS16,
    chunks: &Vec<Chunk>,
    from: usize,
    list: &Vec<TemporalRun>,
    step: u32,
    matrix: &Vec<u8>,
    refresh: bool,
    plane: usize,
    logs: &LogTable,
    Ghost(j): Ghost<DecodeJob>,
) -> (recon: PlaneS16)
    requires
        decode_ok(j),
        j.config == *cfg,
        j.plane == plane,
        j.tb == old(tb)@,
        j.step_l2 == step,
        j.matrix0 == matrix@,
        j.refresh == refresh,
        j.logs == logs@,
        temporal_runs(j) == Some(list@),
        pred@ == pred0(j),
        from + config::layers_of(cfg.transform) <= chunks@.len(),
        forall|l: int|
            0 <= l < config::layers_of(cfg.transform) ==> #[trigger] j.chunks[config::layers_of(
                cfg.transform,
            ) + l] == chunks@[from + l]@,
        planes_cover(j),
    ensures
        (recon@, final(tb)@) == recon0(j),
        recon@.wf(),
        old(tb)@.wf() ==> final(tb)@.wf(),
{
    let n: usize = cfg.num_layers();
    let (w, h) = cfg.plane_dimensions(0, plane);
    let total: usize = tu_total(w, h, cfg.tu_size());
    let sw: i32 = dequant::loq_step_width(
        dequant::wrap_i32(step as i64),
        plane,
        true,
        cfg.chroma_step_width_multiplier,
    );
    let table = DequantTable::compute(
        sw,
        matrix.as_slice(),
        cfg.temporal_enabled,
        true,
        refresh,
        cfg.temporal_step_width_modifier,
        -1,
        false,
        logs,
    );
    let coeffs = decode_coeffs(chunks, from, n, total, Ghost(j.chunks), Ghost(n as int));
    let signals = expand_signals(list, total);
    let d = LoqDecoder {
        pred,
        table: &table,
        forward: ForwardTransform::new(
            cfg.transform.to_bit(),
            cfg.scaling_l2 == ScalingMode::Scale1D,
        ),
        side: cfg.tu_size(),
        width: w as usize,
        height: h as usize,
        block_order: cfg.temporal_enabled || cfg.is_tiled(),
        temporal: cfg.temporal_enabled,
        coeffs: &coeffs,
        signals: &signals,
    };
    assert(d.model() =~= loq0_decode(j));
    let mut recon = pred.duplicate();
    d.decode_all(&mut recon, tb);
    recon
}

/// Whether a plane has all TUs of the given dimensions.
fn has_all(p: &PlaneS16, w: u16, h: u16, side: usize) -> (b: bool)
    requires
        p@.wf(),
        side == 2 || side == 4,
    ensures
        b == covers(p@, w as int, h as int, side as int),
{
    let a: usize = w as usize / side;
    let b: usize = h as usize / side;
    if side == 2 {
        assert(a * side == 2 * a && b * side == 2 * b);
    } else {
        assert(a * side == 4 * a && b * side == 4 * b);
    }
    a * side <= p.width && b * side <= p.height
}

/// Decode one plane: add what the chunks of both LOQs carry to the upscaled base. `from` is
/// where its chunks start; the temporal chunk is used where one is given.
pub(crate) fn apply_chunks(
    cfg: &LcevcConfig,
    base: &Plane,
    tb: &mut PlaneS16,
    chunks: &Vec<Chunk>,
    from: usize,
    temporal: Option<&Chunk>,
    step_l1: u32,
    step_l2: u32,
    refresh: bool,
    matrices: &[Vec<u8>; 2],
    plane: usize,
    logs: &LogTable,
    Ghost(j): Ghost<DecodeJob>,
) -> (r: Result<Plane, String>)
    requires
        decode_ok(j),
        j.config == *cfg,
        j.plane == plane,
        j.base == base@,
        j.tb == old(tb)@,
        j.step_l1 == step_l1,
        j.step_l2 == step_l2,
        j.refresh == refresh,
        j.matrix0 == matrices@[0]@,
        j.matrix1 == matrices@[1]@,
        j.logs == logs@,
        old(tb)@.wf(),
        from + j.chunks.len() <= chunks@.len(),
        forall|l: int| 0 <= l < j.chunks.len() ==> #[trigger] j.chunks[l] == chunks@[from + l]@,
        match temporal {
            Some(t) => j.temporal == Some(t@),
            None => j.temporal is None,
        },
    ensures
        final(tb)@ == plane_outcome(j).1,
        final(tb)@.wf(),
        match r {
            Ok(p) => plane_outcome(j).0 == Ok::<Raster<u16>, Seq<char>>(p@),
            Err(text) => plane_outcome(j).0 == Err::<Raster<u16>, Seq<char>>(text@),
        },
{
    proof {
        reveal(plane_outcome);
    }
    let n: usize = cfg.num_layers();
    let have: usize = chunks.len();
    let side: usize = cfg.tu_size();
    let depth: u8 = cfg.sample_depth();
    let kernel = cfg.upsampler.kernel();
    let base_s16 = base.to_s16(depth);
    let l1_pred = upscale::upscale_plane(&base_s16, cfg.scaling_l1, &kernel, cfg.predicted_average);
    proof {
        plane::lemma_upscaled_size(base_s16@, cfg.scaling_l1, kernel@, cfg.predicted_average);
    }
    let (w1, h1) = cfg.plane_dimensions(1, plane);
    let (w0, h0) = cfg.plane_dimensions(0, plane);
    if !has_all(&l1_pred, w1, h1, side) {
        return Err("plane too small".to_string());
    }
    let l1_recon = decode_loq1(
        cfg,
        &l1_pred,
        chunks,
        from,
        step_l1,
        &matrices[1],
        refresh,
        plane,
        logs,
        Ghost(j),
    );
    let l2_pred = upscale::upscale_plane(
        &l1_recon,
        cfg.scaling_l2,
        &kernel,
        cfg.predicted_average,
    );
    proof {
        plane::lemma_upscaled_size(l1_recon@, cfg.scaling_l2, kernel@, cfg.predicted_average);
    }
    if !has_all(&l2_pred, w0, h0, side) {
        return Err("plane too small".to_string());
    }
    if cfg.temporal_enabled && !has_all(tb, w0, h0, side) {
        return Err("plane too small".to_string());
    }
    let total: usize = tu_total(w0, h0, side);
    let list: Vec<TemporalRun> = match temporal {
        Some(t) => if t.entropy_enabled && !t.rle_only {
            match rle::decode_temporal_chunk(t.data.as_slice(), total as u32) {
                Some(v) => v,
                None => {
                    let data: Vec<i16> = vec![0i16; l2_pred.data.len()];
                    *tb = PlaneS16 { width: l2_pred.width, height: l2_pred.height, data };
                    assert(tb@.data =~= frame::zero_raster(
                        l2_pred@.width,
                        l2_pred@.height,
                    ).data);
                    return Err("temporal decode failed".to_string());
                },
            }
        } else {
            Vec::new()
        },
        None => Vec::new(),
    };
    assert(temporal_runs(j) == Some(list@));
    assert forall|l: int| 0 <= l < n implies #[trigger] j.chunks[config::layers_of(cfg.transform)
        + l] == chunks@[(from + n) + l]@ by {
        assert(j.chunks[n + l] == chunks@[from + (n + l)]@);
    }
    let recon = decode_loq0(
        cfg,
        &l2_pred,
        tb,
        chunks,
        from + n,
        &list,
        step_l2,
        &matrices[0],
        refresh,
        plane,
        logs,
        Ghost(j),
    );
    Ok(recon.to_plane(depth))
}

} // verus!
