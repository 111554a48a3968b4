//! What was encoded decodes to what the encoder reconstructed.
use crate::bitstream;
use crate::blocks;
use crate::coding;
use crate::coding::{LoqModel, LoqState, TuMode};
use crate::config;
use crate::config::{LcevcConfig, TileDimensions, TransformType};
use crate::decoder;
use crate::decoder::{EncodedModel, HeaderModel, PictureModel};
use crate::dequant;
use crate::encoder;
use crate::entropy::rle;
use crate::entropy::rle::TemporalRun;
use crate::entropy::roundtrip;
use crate::frame;
use crate::frame::Raster;
use crate::geometry;
use crate::geometry::Tile;
use crate::header_laws;
use crate::nal;
use crate::payload;
use crate::picture;
use crate::picture::FrameJob;
use crate::plane;
use crate::plane::PlaneJob;
use crate::quant;
use crate::reconstruct;
use crate::reconstruct::{DecodeJob, DecodeModel};
use crate::runs;
use crate::stream;
use crate::transform;
use crate::tu;
use vstd::prelude::*;

verus! {

/// The code lengths of a layer's chunk fit its table headers.
pub open spec fn layer_fits(levels: Seq<Seq<i16>>, layer: int, loq: int) -> bool {
    roundtrip::tables_fit(
        rle::coeff_tables(
            rle::events_symbols(
                runs::layer_events(runs::layer_column(levels, layer), loq == 1),
            ),
        ),
    )
}

/// Levels of TUs in the range that the quantizer keeps to.
pub open spec fn levels_in_range(levels: Seq<Seq<i16>>, n: int) -> bool {
    forall|i: int| 0 <= i < levels.len() ==> coding::levels_fit(#[trigger] levels[i], n)
}

/// A reader of a layer's chunk has the coefficients of the layer.
proof fn lemma_layer_read(levels: Seq<Seq<i16>>, n: int, layer: int, loq: int)
    requires
        0 < levels.len() <= 0x3fff_ffff,
        levels_in_range(levels, n),
        0 <= layer < n,
        layer_fits(levels, layer, loq),
    ensures
        reconstruct::layer_coeffs(
            stream::sent(plane::layer_chunk(levels, layer, loq)),
            levels.len() as int,
        ) == runs::layer_column(levels, layer),
{
    let s = runs::layer_column(levels, layer);
    let twice = loq == 1;
    let events = runs::layer_events(s, twice);
    let total = levels.len() as int;
    assert forall|i: int| 0 <= i < s.len() implies -8192 <= #[trigger] s[i] <= 8191 by {
        assert(coding::levels_fit(levels[i], n));
        assert(-8192 <= levels[i][layer] <= 8191);
    }
    runs::lemma_layer_events(s, twice);
    roundtrip::law_coefficient_chunk_roundtrip(events, total);
    runs::law_events_expand(s);
    runs::lemma_run_state_bound(s);
    reveal(plane::layer_chunk);
    let c = stream::sent(plane::layer_chunk(levels, layer, loq));
    assert(c.data == rle::coefficient_chunk(events));
    let got = reconstruct::layer_coeffs(c, total);
    assert forall|i: int| 0 <= i < total implies got[i] == s[i] by {
        assert(got[i] == reconstruct::coeff_at(events, i));
    }
    assert(got =~= s);
}

/// Levels and signals of earlier TUs stay.
proof fn lemma_levels_kept(
    m: LoqModel,
    c: LcevcConfig,
    t: Tile,
    order: bool,
    s: LoqState,
    k: int,
    n: int,
)
    requires
        0 <= k < n,
    ensures
        coding::tile_state(m, c, t, order, s, n).levels.len() == n,
        coding::tile_state(m, c, t, order, s, n).signals.len() == n,
        coding::tile_state(m, c, t, order, s, n).levels[k] == coding::tile_state(
            m,
            c,
            t,
            order,
            s,
            k + 1,
        ).levels[k],
        coding::tile_state(m, c, t, order, s, n).signals[k] == coding::tile_state(
            m,
            c,
            t,
            order,
            s,
            k + 1,
        ).signals[k],
        coding::tile_state(m, c, t, order, s, k).levels.len() == k,
        coding::tile_state(m, c, t, order, s, k).signals.len() == k,
    decreases n,
{
    if n > 1 {
        if k < n - 1 {
            lemma_levels_kept(m, c, t, order, s, k, n - 1);
        } else {
            lemma_levels_kept(m, c, t, order, s, 0, n - 1);
            if k > 0 {
                lemma_levels_kept(m, c, t, order, s, k - 1, n - 1);
            }
        }
    } else {
        assert(coding::tile_state(m, c, t, order, s, 0).levels.len() == 0);
    }
}

/// The L1 filter of a LOQ is off or has no effect.
spec fn filter_idle(m: LoqModel) -> bool {
    !m.deblock || transform::transform_len(m.forward) != 16 || (m.corner == 0 && m.edge == 0)
}

/// Without an effect of the L1 filter, the encoder reconstructs blocks as a decoder does.
proof fn lemma_filter_idle(m: LoqModel)
    requires
        filter_idle(m),
    ensures
        forall|row: Seq<dequant::DequantLayer>, levels: Seq<i16>| #[trigger]
            quant::reconstructed(m.forward, row, levels, m.deblock, m.corner, m.edge)
                == quant::decoded_residual(m.forward, row, levels),
{
    assert forall|row: Seq<dequant::DequantLayer>, levels: Seq<i16>| #[trigger]
        quant::reconstructed(m.forward, row, levels, m.deblock, m.corner, m.edge)
            == quant::decoded_residual(m.forward, row, levels) by {
        let r = quant::decoded_residual(m.forward, row, levels);
        if m.corner == 0 && m.edge == 0 {
            assert(quant::filtered(r, 0, 0) =~= r);
        }
    }
}

/// A decoder's view of a LOQ that an encoder coded as a single tile.
spec fn mirrors(
    d: DecodeModel,
    m: LoqModel,
    c: LcevcConfig,
    t: Tile,
    order: bool,
    s: LoqState,
    total: int,
) -> bool {
    let end = coding::tile_state(m, c, t, order, s, total);
    &&& d.pred == m.pred
    &&& d.rows.len() == 2
    &&& d.forward == m.forward
    &&& d.side == m.side
    &&& m.side == config::tu_size_of(c.transform)
    &&& t.x == 0 && t.y == 0
    &&& d.width == t.width && d.height == t.height
    &&& d.block_order == order
    &&& total == tu::tu_count(d.width, d.height, d.side)
    &&& filter_idle(m)
    &&& forall|i: int| 0 <= i < total ==> reconstruct::tu_levels(d.coeffs, i) == #[trigger] end.levels[i]
}

/// Without temporal buffer, decoder and encoder have the same reconstruction after every TU.
proof fn lemma_plain_states(
    d: DecodeModel,
    m: LoqModel,
    c: LcevcConfig,
    t: Tile,
    order: bool,
    s: LoqState,
    total: int,
    tb: Raster<i16>,
    k: int,
)
    requires
        mirrors(d, m, c, t, order, s, total),
        m.mode == TuMode::Plain,
        !d.temporal,
        d.rows[1] == m.inter,
        d.signals.len() == total,
        forall|i: int| 0 <= i < total ==> #[trigger] d.signals[i] == 1,
        0 <= k <= total,
    ensures
        reconstruct::decoded_state(d, s.recon, tb, k).0 == coding::tile_state(
            m,
            c,
            t,
            order,
            s,
            k,
        ).recon,
        reconstruct::decoded_state(d, s.recon, tb, k).1 == tb,
    decreases k,
{
    if k > 0 {
        lemma_plain_states(d, m, c, t, order, s, total, tb, k - 1);
        lemma_levels_kept(m, c, t, order, s, k - 1, total);
        let end = coding::tile_state(m, c, t, order, s, total);
        let before = coding::tile_state(m, c, t, order, s, k - 1);
        let (x, y) = geometry::tile_position(c, t, order, k - 1);
        lemma_filter_idle(m);
        reveal(coding::tu_outcome);
        reveal(reconstruct::decoded_tu);
        assert(reconstruct::tu_levels(d.coeffs, k - 1) == end.levels[k - 1]);
        assert(d.signals[k - 1] == 1);
    }
}

/// A block is not touched by another one that is replaced.
proof fn lemma_apart(r: Raster<i16>, x: int, y: int, n: int, values: Seq<i16>, x2: int, y2: int)
    requires
        blocks::inside(r, x, y, n),
        blocks::inside(r, x2, y2, n),
        x + n <= x2 || x2 + n <= x || y + n <= y2 || y2 + n <= y,
    ensures
        blocks::block_of(blocks::with_block(r, x, y, n, values), x2, y2, n) == blocks::block_of(
            r,
            x2,
            y2,
            n,
        ),
{
    blocks::lemma_with_block(r, x, y, n, values);
    let out = blocks::with_block(r, x, y, n, values);
    let a = blocks::block_of(out, x2, y2, n);
    let b = blocks::block_of(r, x2, y2, n);
    assert forall|i: int| 0 <= i < n * n implies a[i] == b[i] by {
        transform::law_residual_layout(n, 0, 0, i);
        let (px, py) = transform::position_at(n, i);
        assert(r.has(x2 + px, y2 + py));
    }
    assert(a =~= b);
}

/// Different TUs of a tile in block order are apart.
proof fn lemma_positions_apart(c: LcevcConfig, t: Tile, i: int, k: int)
    requires
        0 <= i < geometry::tile_tus(c, t),
        0 <= k < geometry::tile_tus(c, t),
        i != k,
    ensures
        ({
            let n = config::tu_size_of(c.transform) as int;
            let (x, y) = geometry::tile_position(c, t, true, i);
            let (x2, y2) = geometry::tile_position(c, t, true, k);
            x + n <= x2 || x2 + n <= x || y + n <= y2 || y2 + n <= y
        }),
{
    let n = config::tu_size_of(c.transform) as int;
    let w = t.width as int;
    let h = t.height as int;
    tu::lemma_tu_inside(w, h, n, true, i);
    tu::lemma_tu_inside(w, h, n, true, k);
    let (a, b) = tu::block_tu(w, h, n, i);
    let (a2, b2) = tu::block_tu(w, h, n, k);
    tu::law_block_order(w, h, n, a, b, i);
    tu::law_block_order(w, h, n, a2, b2, k);
    assert(a != a2 || b != b2);
    if a < a2 {
        assert(a * n + n <= a2 * n) by (nonlinear_arith)
            requires
                a + 1 <= a2,
                n > 0,
        ;
    } else if a2 < a {
        assert(a2 * n + n <= a * n) by (nonlinear_arith)
            requires
                a2 + 1 <= a,
                n > 0,
        ;
    } else if b < b2 {
        assert(b * n + n <= b2 * n) by (nonlinear_arith)
            requires
                b + 1 <= b2,
                n > 0,
        ;
    } else {
        assert(b2 * n + n <= b * n) by (nonlinear_arith)
            requires
                b2 + 1 <= b,
                n > 0,
        ;
    }
}

/// Planes that a tile fills.
spec fn filled_by<A>(r: Raster<A>, t: Tile) -> bool {
    r.wf() && r.width == t.width && r.height == t.height
}

/// A tile of whole TUs at the origin.
spec fn whole_tile(c: LcevcConfig, t: Tile) -> bool {
    &&& t.x == 0 && t.y == 0
    &&& t.width as int % config::tu_size_of(c.transform) as int == 0
    &&& t.height as int % config::tu_size_of(c.transform) as int == 0
}

/// The buffers keep their dimensions while a tile is coded.
proof fn lemma_sizes_kept(
    m: LoqModel,
    c: LcevcConfig,
    t: Tile,
    order: bool,
    s: LoqState,
    k: int,
)
    requires
        filled_by(s.recon, t),
        m.mode != TuMode::Plain ==> filled_by(s.tb, t),
    ensures
        filled_by(coding::tile_state(m, c, t, order, s, k).recon, t),
        m.mode != TuMode::Plain ==> filled_by(coding::tile_state(m, c, t, order, s, k).tb, t),
    decreases k,
{
    if k > 0 {
        lemma_sizes_kept(m, c, t, order, s, k - 1);
        let before = coding::tile_state(m, c, t, order, s, k - 1);
        let (x, y) = geometry::tile_position(c, t, order, k - 1);
        coding::lemma_outcome_size(m, before.recon, before.tb, before.energy, x, y);
    }
}

/// TUs that have not been coded yet are as they were.
proof fn lemma_untouched(
    m: LoqModel,
    c: LcevcConfig,
    t: Tile,
    s: LoqState,
    total: int,
    k: int,
    i: int,
)
    requires
        m.mode != TuMode::Predicted,
        m.side == config::tu_size_of(c.transform),
        whole_tile(c, t),
        filled_by(s.recon, t),
        m.mode != TuMode::Plain ==> filled_by(s.tb, t),
        total == geometry::tile_tus(c, t),
        0 <= k <= i < total,
    ensures
        ({
            let (x, y) = geometry::tile_position(c, t, true, i);
            blocks::block_of(coding::tile_state(m, c, t, true, s, k).recon, x, y, m.side)
                == blocks::block_of(s.recon, x, y, m.side)
        }),
    decreases k,
{
    if k > 0 {
        lemma_untouched(m, c, t, s, total, k - 1, i);
        lemma_sizes_kept(m, c, t, true, s, k - 1);
        let before = coding::tile_state(m, c, t, true, s, k - 1);
        let (x, y) = geometry::tile_position(c, t, true, k - 1);
        let (x2, y2) = geometry::tile_position(c, t, true, i);
        geometry::lemma_tile_position(c, t, true, k - 1);
        geometry::lemma_tile_position(c, t, true, i);
        lemma_positions_apart(c, t, k - 1, i);
        reveal(coding::tu_outcome);
        let o = coding::plain_tu(m, before.recon, before.tb, before.energy, x, y);
        let residual = blocks::residual_between(
            blocks::block_of(m.target, x, y, m.side),
            blocks::block_of(m.pred, x, y, m.side),
        );
        let rec = coding::coded_block(m, m.inter, residual).1;
        lemma_apart(
            before.recon,
            x,
            y,
            m.side,
            blocks::saturated_sum(blocks::block_of(before.recon, x, y, m.side), rec),
            x2,
            y2,
        );
    }
}

/// On a refresh frame, decoder and encoder have the same reconstruction and temporal buffer
/// after every TU.
proof fn lemma_refresh_states(
    d: DecodeModel,
    m: LoqModel,
    c: LcevcConfig,
    t: Tile,
    s: LoqState,
    total: int,
    k: int,
)
    requires
        mirrors(d, m, c, t, true, s, total),
        m.mode == TuMode::Refresh,
        d.temporal,
        d.rows[1] == m.inter,
        d.signals.len() == total,
        forall|i: int| 0 <= i < total ==> #[trigger] d.signals[i] == 1,
        whole_tile(c, t),
        filled_by(s.recon, t),
        filled_by(s.tb, t),
        s.recon == m.pred,
        0 <= k <= total,
    ensures
        reconstruct::decoded_state(d, s.recon, s.tb, k) == (
            coding::tile_state(m, c, t, true, s, k).recon,
            coding::tile_state(m, c, t, true, s, k).tb,
        ),
    decreases k,
{
    if k > 0 {
        lemma_refresh_states(d, m, c, t, s, total, k - 1);
        lemma_levels_kept(m, c, t, true, s, k - 1, total);
        lemma_untouched(m, c, t, s, total, k - 1, k - 1);
        let end = coding::tile_state(m, c, t, true, s, total);
        let (x, y) = geometry::tile_position(c, t, true, k - 1);
        lemma_filter_idle(m);
        reveal(coding::tu_outcome);
        reveal(reconstruct::decoded_tu);
        assert(reconstruct::tu_levels(d.coeffs, k - 1) == end.levels[k - 1]);
        assert(d.signals[k - 1] == 1);
    }
}

/// On a predicted frame, decoder and encoder have the same reconstruction and temporal buffer
/// after every TU.
proof fn lemma_predicted_states(
    d: DecodeModel,
    m: LoqModel,
    c: LcevcConfig,
    t: Tile,
    s: LoqState,
    total: int,
    k: int,
)
    requires
        mirrors(d, m, c, t, true, s, total),
        m.mode == TuMode::Predicted,
        d.temporal,
        d.rows[0] == m.inter,
        d.rows[1] == m.intra,
        d.signals == coding::tile_state(m, c, t, true, s, total).signals,
        0 <= k <= total,
    ensures
        reconstruct::decoded_state(d, s.recon, s.tb, k) == (
            coding::tile_state(m, c, t, true, s, k).recon,
            coding::tile_state(m, c, t, true, s, k).tb,
        ),
    decreases k,
{
    if k > 0 {
        lemma_predicted_states(d, m, c, t, s, total, k - 1);
        lemma_levels_kept(m, c, t, true, s, k - 1, total);
        let end = coding::tile_state(m, c, t, true, s, total);
        lemma_filter_idle(m);
        reveal(coding::tu_outcome);
        reveal(reconstruct::decoded_tu);
        assert(reconstruct::tu_levels(d.coeffs, k - 1) == end.levels[k - 1]);
    }
}

/// Levels are in the range that a chunk can carry.
proof fn lemma_levels_of(m: LoqModel, row: Seq<dequant::DequantLayer>, residual: Seq<i16>)
    ensures
        coding::levels_fit(
            quant::levels_of(m.forward, row, residual, m.rdoq),
            transform::transform_len(m.forward) as int,
        ),
{
}

/// The levels of a tile are in the range that chunks can carry.
proof fn lemma_tile_levels(
    m: LoqModel,
    c: LcevcConfig,
    t: Tile,
    order: bool,
    s: LoqState,
    k: int,
)
    ensures
        levels_in_range(
            coding::tile_state(m, c, t, order, s, k).levels,
            transform::transform_len(m.forward) as int,
        ),
    decreases k,
{
    if k > 0 {
        lemma_tile_levels(m, c, t, order, s, k - 1);
        let before = coding::tile_state(m, c, t, order, s, k - 1);
        let now = coding::tile_state(m, c, t, order, s, k);
        let (x, y) = geometry::tile_position(c, t, order, k - 1);
        reveal(coding::tu_outcome);
        let n = m.side;
        let target = blocks::block_of(m.target, x, y, n);
        let pred = blocks::block_of(m.pred, x, y, n);
        let kept = blocks::block_of(before.tb, x, y, n);
        let plain = blocks::residual_between(target, pred);
        lemma_levels_of(m, m.inter, blocks::residual_between_sum(target, pred, kept));
        lemma_levels_of(m, m.intra, plain);
        lemma_levels_of(m, m.inter, plain);
        assert forall|i: int| 0 <= i < now.levels.len() implies coding::levels_fit(
            #[trigger] now.levels[i],
            transform::transform_len(m.forward) as int,
        ) by {
            if i < before.levels.len() {
                assert(now.levels[i] == before.levels[i]);
            }
        }
    }
}

/// A decoder has the levels of a LOQ.
proof fn lemma_loq_read(
    chunks: Seq<payload::ChunkModel>,
    from: int,
    levels: Seq<Seq<i16>>,
    n: nat,
    loq: int,
    total: int,
)
    requires
        0 < total <= 0x3fff_ffff,
        levels.len() == total,
        levels_in_range(levels, n as int),
        0 <= from,
        from + n <= chunks.len(),
        forall|l: int|
            0 <= l < n ==> #[trigger] chunks[from + l] == stream::sent(
                plane::layer_chunk(levels, l, loq),
            ),
        forall|l: int| 0 <= l < n ==> #[trigger] layer_fits(levels, l, loq),
    ensures
        forall|i: int|
            0 <= i < total ==> reconstruct::tu_levels(
                reconstruct::loq_coeffs(chunks, from, n, total),
                i,
            ) == #[trigger] levels[i],
{
    let coeffs = reconstruct::loq_coeffs(chunks, from, n, total);
    assert forall|l: int| 0 <= l < n implies #[trigger] coeffs[l] == runs::layer_column(
        levels,
        l,
    ) by {
        assert(layer_fits(levels, l, loq));
        assert(chunks[from + l] == stream::sent(plane::layer_chunk(levels, l, loq)));
        lemma_layer_read(levels, n as int, l, loq);
    }
    assert forall|i: int| 0 <= i < total implies reconstruct::tu_levels(coeffs, i)
        == #[trigger] levels[i] by {
        assert(coding::levels_fit(levels[i], n as int));
        let a = reconstruct::tu_levels(coeffs, i);
        assert forall|l: int| 0 <= l < n implies a[l] == levels[i][l] by {
            assert(coeffs[l] == runs::layer_column(levels, l));
        }
        assert(a =~= levels[i]);
    }
}

/// Signals that are held for their run, where no run is empty.
proof fn lemma_held(list: Seq<TemporalRun>)
    requires
        forall|i: int| 0 <= i < list.len() ==> #[trigger] list[i].count > 0,
    ensures
        reconstruct::held_signals(list) == runs::expanded_signals(list),
    decreases list.len(),
{
    if list.len() > 0 {
        assert forall|i: int| 0 <= i < list.drop_last().len() implies #[trigger] list.drop_last()[i].count
            > 0 by {
            assert(list[i].count > 0);
        }
        lemma_held(list.drop_last());
        assert(list.last().count > 0);
    }
}

/// A decoder has the temporal signals of a plane.
proof fn lemma_signals_read(signals: Seq<u8>, list: Seq<TemporalRun>)
    requires
        0 < signals.len() <= 0x3fff_ffff,
        forall|i: int| 0 <= i < signals.len() ==> #[trigger] signals[i] <= 1,
        list == runs::signal_runs(signals),
    ensures
        Seq::new(signals.len(), |i: int| reconstruct::signal_at(list, i)) == signals,
{
    runs::law_signal_runs(signals);
    assert forall|i: int| 0 <= i < list.len() implies #[trigger] list[i].count > 0 by {
        assert(list[i].signal <= 1);
    }
    lemma_held(list);
    assert(Seq::new(signals.len(), |i: int| reconstruct::signal_at(list, i)) =~= signals);
}

/// A decoder's job that has been handed what an encoder's job made.
pub open spec fn receives(d: DecodeJob, j: PlaneJob) -> bool {
    let n = config::layers_of(j.config.transform) as int;
    &&& header_laws::carried(j.config, d.config) == d.config
    &&& d.plane == j.plane
    &&& d.base == j.base
    &&& d.tb == j.tb
    &&& d.step_l1 == j.step_l1
    &&& d.step_l2 == j.step_l2
    &&& d.refresh == j.refresh
    &&& d.matrix0 == j.matrix0
    &&& d.matrix1 == j.matrix1
    &&& d.logs == j.logs
    &&& d.chunks.len() == 2 * n
    &&& forall|l: int|
        0 <= l < n ==> #[trigger] d.chunks[l] == stream::sent(plane::residual_chunk(j, 1, l, 0))
    &&& forall|l: int|
        0 <= l < n ==> #[trigger] d.chunks[n + l] == stream::sent(
            plane::residual_chunk(j, 0, l, 0),
        )
    &&& d.temporal == (if j.config.temporal_enabled && !j.refresh {
        Some(stream::sent(plane::signal_chunk(j, true, 0)))
    } else {
        None
    })
}

/// A configuration whose L1 filter is off or has no effect: it weakens 4x4 blocks only, and by
/// its coefficients.
pub open spec fn unfiltered(c: LcevcConfig) -> bool {
    !c.level1_filtering_signalled || c.transform == TransformType::Dd || (
    c.level1_filtering_first_coefficient == 0 && c.level1_filtering_second_coefficient == 0)
}

/// Jobs whose chunks a decoder can read as one tile: no tiles, and no effect of the L1 filter.
pub open spec fn plain_job(j: PlaneJob) -> bool {
    &&& j.config.tile_dimensions == TileDimensions::Untiled
    &&& unfiltered(j.config)
}

/// The code lengths of all chunks of a plane fit their table headers.
pub open spec fn chunks_fit(j: PlaneJob) -> bool {
    let n = config::layers_of(j.config.transform) as int;
    &&& forall|l: int| 0 <= l < n ==> #[trigger] layer_fits(plane::loq1_state(j, 1).levels, l, 1)
    &&& forall|l: int| 0 <= l < n ==> #[trigger] layer_fits(plane::loq0_state(j, 1).levels, l, 0)
    &&& plane::loq0_mode(j.config, j.refresh) == TuMode::Predicted ==> roundtrip::tables_fit(
        rle::size_tables(rle::runs_symbols(runs::signal_runs(plane::loq0_state(j, 1).signals))),
    )
}

/// The only tile of a LOQ.
proof fn lemma_single_tile(c: LcevcConfig, loq: int, p: int)
    requires
        config::config_error(c) is None,
        0 <= p < config::planes_of(c.chroma),
        loq == 0 || loq == 1,
        c.tile_dimensions == TileDimensions::Untiled,
    ensures
        config::tile_count(c, loq, p) == 1,
        ({
            let t = geometry::tile_at(c, loq, p, 0);
            &&& whole_tile(c, t)
            &&& (t.width as int, t.height as int) == config::plane_size(c, loq, p)
            &&& 1 <= geometry::tile_tus(c, t) <= 0x3fff_ffff
            &&& geometry::tile_tus(c, t) == reconstruct::plane_tus(c, loq, p)
        }),
{
    geometry::lemma_untiled(c, loq, p);
    geometry::lemma_tile(c, loq, p, 0);
    geometry::lemma_planes(c, p);
}

/// Both rows of a table are the same where there is no temporal prediction.
proof fn lemma_rows_same(
    sw: int,
    matrix: Seq<u8>,
    temporal: bool,
    loq_is_zero: bool,
    refresh: bool,
    modifier: int,
    logs: Seq<u16>,
)
    requires
        !loq_is_zero || !temporal || refresh,
    ensures
        ({
            let t = dequant::table_of(
                sw,
                matrix,
                temporal,
                loq_is_zero,
                refresh,
                modifier,
                -1,
                false,
                logs,
            );
            t.len() == 2 && t[0] == t[1]
        }),
{
}

/// A decoder reconstructs LOQ1 as the encoder did.
proof fn lemma_loq1(d: DecodeJob, j: PlaneJob)
    requires
        plane::job_ok(j),
        plain_job(j),
        receives(d, j),
        chunks_fit(j),
    ensures
        reconstruct::pred1(d) == plane::loq1_pred(j),
        reconstruct::recon1(d) == plane::loq1_end(j).recon,
        coding::sized(plane::loq1_pred(j), j.config, 1, j.plane),
        coding::sized(plane::loq1_end(j).recon, j.config, 1, j.plane),
{
    let c = j.config;
    let p = j.plane;
    let n = config::layers_of(c.transform);
    lemma_single_tile(c, 1, p);
    plane::lemma_loq1_sizes(j);
    let t = geometry::tile_at(c, 1, p, 0);
    let total = geometry::tile_tus(c, t);
    let m = plane::loq1_model(j);
    let s = plane::loq1_start(j);
    let order = plane::block_order(c);
    let dm = reconstruct::loq1_decode(d);
    assert(coding::loq_state(m, c, 1, p, order, s, 0) == s);
    assert(plane::loq1_state(j, 1) == coding::tile_state(m, c, t, order, s, total));
    let levels = coding::tile_state(m, c, t, order, s, total).levels;
    lemma_tile_levels(m, c, t, order, s, total);
    lemma_levels_kept(m, c, t, order, s, 0, total);
    assert forall|l: int| 0 <= l < n implies #[trigger] d.chunks[0 + l] == stream::sent(
        plane::layer_chunk(levels, l, 1),
    ) by {
        assert(d.chunks[l] == stream::sent(plane::residual_chunk(j, 1, l, 0)));
    }
    lemma_loq_read(d.chunks, 0, levels, n, 1, total);
    lemma_rows_same(
        dequant::loq_step(
            dequant::wrap32(j.step_l1 as int),
            p,
            false,
            c.chroma_step_width_multiplier as int,
        ),
        j.matrix1,
        c.temporal_enabled,
        false,
        j.refresh,
        c.temporal_step_width_modifier as int,
        j.logs,
    );
    assert(reconstruct::plane_tus(d.config, 1, p) == total);
    assert(mirrors(dm, m, c, t, order, s, total));
    lemma_plain_states(dm, m, c, t, order, s, total, frame::zero_raster(0, 0), total);
    lemma_sizes_kept(m, c, t, order, s, total);
}

/// The signals that a decoder has for a plane.
proof fn lemma_loq0_signals(d: DecodeJob, j: PlaneJob, total: int)
    requires
        plane::job_ok(j),
        plain_job(j),
        receives(d, j),
        chunks_fit(j),
        total == reconstruct::plane_tus(j.config, 0, j.plane),
        1 <= total <= 0x3fff_ffff,
        plane::loq0_state(j, 1).signals.len() == total,
        forall|i: int|
            0 <= i < total ==> #[trigger] plane::loq0_state(j, 1).signals[i] <= 1,
    ensures
        reconstruct::temporal_runs(d) is Some,
        ({
            let dm = reconstruct::loq0_decode(d);
            let mode = plane::loq0_mode(j.config, j.refresh);
            &&& dm.signals.len() == total
            &&& mode == TuMode::Predicted ==> dm.signals == plane::loq0_state(j, 1).signals
            &&& mode != TuMode::Predicted ==> forall|i: int|
                0 <= i < total ==> #[trigger] dm.signals[i] == 1
        }),
{
    assert(reconstruct::plane_tus(d.config, 0, j.plane) == total);
    if plane::loq0_mode(j.config, j.refresh) == TuMode::Predicted {
        let signals = plane::loq0_state(j, 1).signals;
        let list = runs::signal_runs(signals);
        runs::law_signal_runs(signals);
        roundtrip::law_temporal_chunk_roundtrip(list, total);
        assert(d.temporal == Some(stream::sent(plane::signal_chunk(j, true, 0))));
        assert(reconstruct::temporal_runs(d) == Some(list));
        lemma_signals_read(signals, list);
        assert(reconstruct::loq0_decode(d).signals =~= signals);
    } else {
        assert(reconstruct::temporal_runs(d) == Some(Seq::<TemporalRun>::empty()));
    }
}

/// The prediction of LOQ0 is that of the encoder.
proof fn lemma_loq0_pred(d: DecodeJob, j: PlaneJob)
    requires
        plane::job_ok(j),
        receives(d, j),
        reconstruct::recon1(d) == plane::loq1_end(j).recon,
        coding::sized(plane::loq1_end(j).recon, j.config, 1, j.plane),
    ensures
        reconstruct::pred0(d) == plane::loq0_model(j).pred,
        coding::sized(plane::loq0_model(j).pred, j.config, 0, j.plane),
{
    let c = j.config;
    geometry::lemma_planes(c, j.plane);
    plane::lemma_upscaled_size(
        plane::loq1_end(j).recon,
        c.scaling_l2,
        config::kernel_of(c.upsampler),
        c.predicted_average,
    );
}

/// Both LOQs have the levels of as many TUs as their planes have, and LOQ0 has a signal for each.
pub proof fn lemma_counts(j: PlaneJob)
    requires
        plane::job_ok(j),
        plain_job(j),
    ensures
        plane::loq1_state(j, 1).levels.len() == reconstruct::plane_tus(j.config, 1, j.plane),
        plane::loq0_state(j, 1).levels.len() == reconstruct::plane_tus(j.config, 0, j.plane),
        plane::loq0_state(j, 1).signals.len() == reconstruct::plane_tus(j.config, 0, j.plane),
        forall|i: int|
            0 <= i < plane::loq0_state(j, 1).signals.len() ==> #[trigger] plane::loq0_state(
                j,
                1,
            ).signals[i] <= 1,
{
    let c = j.config;
    let p = j.plane;
    lemma_single_tile(c, 1, p);
    let t = geometry::tile_at(c, 1, p, 0);
    let m = plane::loq1_model(j);
    let s = plane::loq1_start(j);
    let order = plane::block_order(c);
    assert(coding::loq_state(m, c, 1, p, order, s, 0) == s);
    lemma_levels_kept(m, c, t, order, s, 0, geometry::tile_tus(c, t));
    lemma_loq0_state(j);
    lemma_single_tile(c, 0, p);
}

/// LOQ0 as the code of its only tile.
proof fn lemma_loq0_state(j: PlaneJob)
    requires
        plane::job_ok(j),
        plain_job(j),
    ensures
        ({
            let t = geometry::tile_at(j.config, 0, j.plane, 0);
            let total = geometry::tile_tus(j.config, t);
            let end = coding::tile_state(
                plane::loq0_model(j),
                j.config,
                t,
                plane::block_order(j.config),
                plane::loq0_start(j),
                total,
            );
            &&& plane::loq0_state(j, 1) == end
            &&& plane::loq0_end(j) == end
            &&& end.levels.len() == total
            &&& end.signals.len() == total
            &&& levels_in_range(end.levels, config::layers_of(j.config.transform) as int)
            &&& forall|i: int| 0 <= i < total ==> #[trigger] end.signals[i] <= 1
        }),
{
    let c = j.config;
    let p = j.plane;
    lemma_single_tile(c, 0, p);
    let t = geometry::tile_at(c, 0, p, 0);
    let total = geometry::tile_tus(c, t);
    let m = plane::loq0_model(j);
    let s = plane::loq0_start(j);
    let order = plane::block_order(c);
    assert(coding::loq_state(m, c, 0, p, order, s, 0) == s);
    lemma_tile_levels(m, c, t, order, s, total);
    lemma_levels_kept(m, c, t, order, s, 0, total);
    plane::lemma_signals(m, c, t, order, s, total);
}

/// A decoder has the levels of LOQ0.
proof fn lemma_loq0_levels(d: DecodeJob, j: PlaneJob, total: int)
    requires
        plane::job_ok(j),
        plain_job(j),
        receives(d, j),
        chunks_fit(j),
        total == reconstruct::plane_tus(j.config, 0, j.plane),
    ensures
        forall|i: int|
            0 <= i < total ==> reconstruct::tu_levels(reconstruct::loq0_decode(d).coeffs, i)
                == #[trigger] plane::loq0_state(j, 1).levels[i],
{
    let n = config::layers_of(j.config.transform);
    lemma_single_tile(j.config, 0, j.plane);
    lemma_loq0_state(j);
    let levels = plane::loq0_state(j, 1).levels;
    assert forall|l: int| 0 <= l < n implies #[trigger] d.chunks[n + l] == stream::sent(
        plane::layer_chunk(levels, l, 0),
    ) by {
        assert(d.chunks[n + l] == stream::sent(plane::residual_chunk(j, 0, l, 0)));
    }
    lemma_loq_read(d.chunks, n as int, levels, n, 0, total);
    assert(reconstruct::plane_tus(d.config, 0, j.plane) == total);
}

/// A decoder reconstructs LOQ0 as the encoder did, and has its temporal buffer.
proof fn lemma_loq0(d: DecodeJob, j: PlaneJob)
    requires
        plane::job_ok(j),
        plain_job(j),
        receives(d, j),
        chunks_fit(j),
        reconstruct::recon1(d) == plane::loq1_end(j).recon,
        coding::sized(plane::loq1_end(j).recon, j.config, 1, j.plane),
    ensures
        reconstruct::pred0(d) == plane::loq0_model(j).pred,
        coding::sized(plane::loq0_model(j).pred, j.config, 0, j.plane),
        reconstruct::temporal_runs(d) is Some,
        reconstruct::recon0(d) == (plane::loq0_end(j).recon, plane::loq0_end(j).tb),
{
    let c = j.config;
    let p = j.plane;
    lemma_single_tile(c, 0, p);
    lemma_loq0_pred(d, j);
    lemma_loq0_state(j);
    let t = geometry::tile_at(c, 0, p, 0);
    let total = geometry::tile_tus(c, t);
    let m = plane::loq0_model(j);
    let s = plane::loq0_start(j);
    let order = plane::block_order(c);
    let dm = reconstruct::loq0_decode(d);
    lemma_loq0_levels(d, j, total);
    lemma_loq0_signals(d, j, total);
    assert(reconstruct::plane_tus(d.config, 0, p) == total);
    assert(mirrors(dm, m, c, t, order, s, total));
    lemma_loq0_rows(d, j);
    if m.mode == TuMode::Plain {
        lemma_plain_states(dm, m, c, t, order, s, total, j.tb, total);
        lemma_plain_buffer(m, c, t, order, s, total);
    } else if m.mode == TuMode::Refresh {
        lemma_refresh_states(dm, m, c, t, s, total, total);
    } else {
        lemma_predicted_states(dm, m, c, t, s, total, total);
    }
}

/// A decoder dequantizes LOQ0 as the encoder did.
proof fn lemma_loq0_rows(d: DecodeJob, j: PlaneJob)
    requires
        receives(d, j),
    ensures
        ({
            let rows = reconstruct::loq0_decode(d).rows;
            let m = plane::loq0_model(j);
            &&& rows.len() == 2
            &&& rows[0] == m.inter
            &&& m.mode == TuMode::Predicted ==> rows[1] == m.intra
            &&& m.mode != TuMode::Predicted ==> rows[1] == m.inter
        }),
{
    let c = j.config;
    let sw = dequant::loq_step(
        dequant::wrap32(j.step_l2 as int),
        j.plane,
        true,
        c.chroma_step_width_multiplier as int,
    );
    let modifier = c.temporal_step_width_modifier as int;
    if plane::loq0_mode(c, j.refresh) != TuMode::Predicted {
        lemma_rows_same(sw, j.matrix0, c.temporal_enabled, true, j.refresh, modifier, j.logs);
    }
}

/// Without temporal prediction the temporal buffer stays.
proof fn lemma_plain_buffer(
    m: LoqModel,
    c: LcevcConfig,
    t: Tile,
    order: bool,
    s: LoqState,
    k: int,
)
    requires
        m.mode == TuMode::Plain,
    ensures
        coding::tile_state(m, c, t, order, s, k).tb == s.tb,
    decreases k,
{
    if k > 0 {
        lemma_plain_buffer(m, c, t, order, s, k - 1);
        reveal(coding::tu_outcome);
    }
}

/// A plane decodes to the encoder's reconstruction, and leaves the encoder's temporal buffer.
pub proof fn law_plane_selfcheck(d: DecodeJob, j: PlaneJob)
    requires
        plane::job_ok(j),
        plain_job(j),
        receives(d, j),
        chunks_fit(j),
    ensures
        reconstruct::plane_outcome(d) == (
            Ok::<Raster<u16>, Seq<char>>(plane::plane_output(j)),
            plane::loq0_end(j).tb,
        ),
{
    reveal(reconstruct::plane_outcome);
    let c = j.config;
    let p = j.plane;
    let side = config::tu_size_of(c.transform) as int;
    lemma_loq1(d, j);
    lemma_loq0(d, j);
    geometry::lemma_planes(c, p);
    let (w1, h1) = config::plane_size(c, 1, p);
    let (w0, h0) = config::plane_size(c, 0, p);
    assert(config::plane_size(d.config, 1, p) == (w1, h1));
    assert(config::plane_size(d.config, 0, p) == (w0, h0));
    lemma_whole(w1, side);
    lemma_whole(h1, side);
    lemma_whole(w0, side);
    lemma_whole(h0, side);
    assert(reconstruct::planes_cover(d));
}

proof fn lemma_whole(n: int, side: int)
    requires
        side == 2 || side == 4,
        n % side == 0,
    ensures
        (n / side) * side == n,
{
    if side == 2 {
        assert((n / 2) * 2 == n);
    } else {
        assert((n / 4) * 4 == n);
    }
}

/// A block that is replaced by itself.
proof fn lemma_same_block(r: Raster<i16>, x: int, y: int, n: int)
    requires
        r.wf(),
        n == 2 || n == 4,
    ensures
        blocks::with_block(r, x, y, n, blocks::block_of(r, x, y, n)) == r,
{
    let values = blocks::block_of(r, x, y, n);
    blocks::lemma_with_block(r, x, y, n, values);
    let out = blocks::with_block(r, x, y, n, values);
    assert forall|px: int, py: int| #[trigger] out.has(px, py) implies out.at(px, py) == r.at(
        px,
        py,
    ) by {
        assert(r.has(px, py));
        if x <= px < x + n && y <= py < y + n {
            transform::law_residual_layout(n, px - x, py - y, 0);
            blocks::lemma_index_inside(n, px - x, py - y);
        }
    }
    blocks::lemma_raster_equal(out, r);
}

/// Zero levels make a zero residual.
proof fn lemma_zero_residual(t: transform::ForwardTransform, row: Seq<dequant::DequantLayer>)
    ensures
        ({
            let n = transform::transform_len(t) as int;
            quant::decoded_residual(t, row, runs::zero_coeffs(n)) == runs::zero_coeffs(n)
        }),
{
    let n = transform::transform_len(t) as int;
    let dq = quant::dequantized_all(runs::zero_coeffs(n), row);
    assert(dq =~= runs::zero_coeffs(n));
    let c = transform::ints(dq);
    assert(c =~= Seq::new(n as nat, |i: int| 0int));
    transform::lemma_inverse_zero(t);
    assert(quant::decoded_residual(t, row, runs::zero_coeffs(n)) =~= runs::zero_coeffs(n));
}

/// Adding nothing to a block.
proof fn lemma_add_zero(a: Seq<i16>)
    ensures
        blocks::saturated_sum(a, runs::zero_coeffs(a.len() as int)) == a,
{
    assert(blocks::saturated_sum(a, runs::zero_coeffs(a.len() as int)) =~= a);
}

/// Without coefficients the reconstruction stays the prediction.
proof fn lemma_empty_states(d: DecodeModel, tb: Raster<i16>, k: int)
    requires
        d.pred.wf(),
        d.side == 2 || d.side == 4,
        transform::transform_len(d.forward) == d.side * d.side,
        0 <= k <= d.signals.len(),
        forall|i: int| 0 <= i < d.signals.len() ==> #[trigger] d.signals[i] == 1,
        forall|i: int|
            0 <= i < d.signals.len() ==> #[trigger] reconstruct::tu_levels(d.coeffs, i)
                == runs::zero_coeffs(d.side * d.side),
    ensures
        reconstruct::decoded_state(d, d.pred, tb, k).0 == d.pred,
    decreases k,
{
    if k > 0 {
        lemma_empty_states(d, tb, k - 1);
        let (x, y) = tu::tu_position(d.width, d.height, 0, 0, d.side, d.block_order, k - 1);
        reveal(reconstruct::decoded_tu);
        assert(d.signals[k - 1] == 1);
        assert(reconstruct::tu_levels(d.coeffs, k - 1) == runs::zero_coeffs(d.side * d.side));
        lemma_zero_residual(d.forward, d.rows[1]);
        lemma_add_zero(blocks::block_of(d.pred, x, y, d.side));
        lemma_same_block(d.pred, x, y, d.side);
    }
}

/// Chunks that carry nothing have no coefficients.
proof fn lemma_empty_coeffs(chunks: Seq<payload::ChunkModel>, from: int, n: nat, total: int)
    requires
        0 <= from,
        from + n <= chunks.len(),
        forall|l: int| 0 <= l < chunks.len() ==> !(#[trigger] chunks[l]).enabled,
    ensures
        forall|i: int|
            0 <= i < total ==> #[trigger] reconstruct::tu_levels(
                reconstruct::loq_coeffs(chunks, from, n, total),
                i,
            ) == runs::zero_coeffs(n as int),
{
    let coeffs = reconstruct::loq_coeffs(chunks, from, n, total);
    assert forall|i: int| 0 <= i < total implies #[trigger] reconstruct::tu_levels(coeffs, i)
        == runs::zero_coeffs(n as int) by {
        let a = reconstruct::tu_levels(coeffs, i);
        assert forall|l: int| 0 <= l < n implies a[l] == 0 by {
            assert(!chunks[from + l].enabled);
            assert(coeffs[l] == runs::zero_coeffs(total));
        }
        assert(a =~= runs::zero_coeffs(n as int));
    }
}

/// A decoder's job that has been handed nothing but the base.
pub open spec fn receives_base(d: DecodeJob, j: PlaneJob) -> bool {
    let n = config::layers_of(j.config.transform) as int;
    &&& header_laws::carried(j.config, d.config) == d.config
    &&& d.plane == j.plane
    &&& d.base == j.base
    &&& d.tb == j.tb
    &&& d.chunks.len() == 2 * n
    &&& forall|l: int| 0 <= l < 2 * n ==> !(#[trigger] d.chunks[l]).enabled
    &&& d.temporal matches Some(t) ==> !t.enabled
}

/// A plane without enhancement decodes to the upscaled base.
pub proof fn law_plane_without_enhancement(d: DecodeJob, j: PlaneJob)
    requires
        plane::job_ok(j),
        receives_base(d, j),
    ensures
        reconstruct::plane_outcome(d).0 == Ok::<Raster<u16>, Seq<char>>(plane::base_only(j)),
{
    reveal(reconstruct::plane_outcome);
    let c = j.config;
    let p = j.plane;
    let n = config::layers_of(c.transform);
    let side = config::tu_size_of(c.transform) as int;
    geometry::lemma_planes(c, p);
    plane::lemma_loq1_sizes(j);
    let (w1, h1) = config::plane_size(c, 1, p);
    let (w0, h0) = config::plane_size(c, 0, p);
    assert(config::plane_size(d.config, 1, p) == (w1, h1));
    assert(config::plane_size(d.config, 0, p) == (w0, h0));
    let total1 = reconstruct::plane_tus(d.config, 1, p);
    let total0 = reconstruct::plane_tus(d.config, 0, p);
    lemma_tus_nonneg(w1, h1, side);
    lemma_tus_nonneg(w0, h0, side);
    let d1 = reconstruct::loq1_decode(d);
    let d0 = reconstruct::loq0_decode(d);
    assert(reconstruct::pred1(d) == plane::loq1_pred(j));
    lemma_empty_coeffs(d.chunks, 0, n, total1);
    lemma_empty_states(d1, frame::zero_raster(0, 0), total1);
    assert(reconstruct::recon1(d) == reconstruct::pred1(d));
    plane::lemma_upscaled_size(
        plane::loq1_pred(j),
        c.scaling_l2,
        config::kernel_of(c.upsampler),
        c.predicted_average,
    );
    assert(reconstruct::temporal_runs(d) == Some(Seq::<TemporalRun>::empty()));
    lemma_empty_coeffs(d.chunks, n as int, n, total0);
    lemma_empty_states(d0, d.tb, total0);
    lemma_whole(w1, side);
    lemma_whole(h1, side);
    lemma_whole(w0, side);
    lemma_whole(h0, side);
    assert(reconstruct::planes_cover(d));
}

proof fn lemma_tus_nonneg(w: int, h: int, side: int)
    requires
        w >= 0,
        h >= 0,
        side == 2 || side == 4,
    ensures
        tu::tu_count(w, h, side) >= 0,
{
    let a = w / side;
    let b = h / side;
    if side == 2 {
        assert(w / 2 >= 0 && h / 2 >= 0);
    } else {
        assert(w / 4 >= 0 && h / 4 >= 0);
    }
    assert(a * b >= 0) by (nonlinear_arith)
        requires
            a >= 0,
            b >= 0,
    ;
}

/// A frame that a decoder can take apart: no tiles, no effect of the L1 filter, and step widths
/// and sizes that the stream can carry.
pub open spec fn frame_plain(f: FrameJob) -> bool {
    &&& f.config.tile_dimensions == TileDimensions::Untiled
    &&& unfiltered(f.config)
    &&& f.step_l1 <= 0x7FFF
    &&& f.step_l2 <= 0x7FFF
    &&& forall|k: int|
        0 <= k < picture::frame_layers(f).len() ==> (#[trigger] picture::frame_layers(
            f,
        )[k])[0].data.len() <= usize::MAX
}

/// Where the enhancement is not dropped, code lengths fit the table headers of all chunks.
pub open spec fn frame_fits(f: FrameJob) -> bool {
    !picture::dropped(f) ==> forall|p: int|
        0 <= p < picture::planes(f) ==> chunks_fit(#[trigger] picture::plane_job(f, p))
}

/// What a decoder has read of a frame.
spec fn frame_header(f: FrameJob, c: LcevcConfig) -> HeaderModel {
    HeaderModel {
        config: c,
        picture: Some(
            PictureModel {
                enabled: true,
                refresh: f.refresh,
                signalling: c.temporal_enabled && !f.refresh,
                step_l1: f.step_l1,
                step_l2: f.step_l2,
                matrices: Some((f.matrix0, f.matrix1)),
            },
        ),
        encoded: Some(
            EncodedModel {
                chunks: stream::sent_from(picture::frame_layers(f), 0),
                planes: picture::planes(f),
                layers: picture::layers(f),
                signalling: picture::signalling(f),
            },
        ),
    }
}

/// A layer of a frame's stream, by plane and place in the plane.
proof fn lemma_layer_at(f: FrameJob, p: int, r: int)
    requires
        config::config_error(f.config) is None,
        f.config.tile_dimensions == TileDimensions::Untiled,
        0 <= p < picture::planes(f),
        0 <= r < payload::layers_per_plane(picture::layers(f), picture::signalling(f)),
    ensures
        ({
            let n = picture::layers(f);
            let m = payload::layers_per_plane(n, picture::signalling(f));
            let all = picture::frame_layers(f);
            &&& 0 <= p * m + r < all.len()
            &&& all[p * m + r].len() == 1
            &&& r < n ==> all[p * m + r][0] == picture::frame_chunk(f, p, 0, r, 0)
            &&& n <= r < 2 * n ==> all[p * m + r][0] == picture::frame_chunk(f, p, 1, r - n, 0)
            &&& r == 2 * n ==> all[p * m + r][0] == picture::frame_signals(f, p, 0)
        }),
{
    let n = picture::layers(f);
    let m = payload::layers_per_plane(n, picture::signalling(f));
    let planes = picture::planes(f);
    vstd::arithmetic::div_mod::lemma_fundamental_div_mod_converse(p * m + r, m, p, r);
    assert(0 <= p * m + r < planes * m) by (nonlinear_arith)
        requires
            0 <= p < planes,
            0 <= r < m,
    ;
    geometry::lemma_untiled(f.config, 0, p);
    geometry::lemma_untiled(f.config, 1, p);
    if r < n {
        vstd::arithmetic::div_mod::lemma_fundamental_div_mod_converse(r, n, 0, r);
    } else if r < 2 * n {
        vstd::arithmetic::div_mod::lemma_fundamental_div_mod_converse(r, n, 1, r - n);
    }
}

/// Every layer of a frame's stream has one chunk, and all have the same flags.
proof fn lemma_frame_flags(f: FrameJob, k: int)
    requires
        config::config_error(f.config) is None,
        f.config.tile_dimensions == TileDimensions::Untiled,
        0 <= k < picture::frame_layers(f).len(),
    ensures
        picture::frame_layers(f)[k].len() == 1,
        picture::frame_layers(f)[k][0].enabled == !picture::dropped(f),
        !picture::frame_layers(f)[k][0].rle_only,
{
    reveal(plane::layer_chunk);
    let m = payload::layers_per_plane(picture::layers(f), picture::signalling(f));
    let p = k / m;
    let r = k % m;
    vstd::arithmetic::div_mod::lemma_fundamental_div_mod(k, m);
    vstd::arithmetic::div_mod::lemma_mod_bound(k, m);
    let planes = picture::planes(f);
    assert(0 <= p < planes) by (nonlinear_arith)
        requires
            k == m * p + r,
            0 <= r < m,
            0 <= k < planes * m,
    ;
    assert(p * m + r == k) by (nonlinear_arith)
        requires
            k == m * p + r,
    ;
    lemma_layer_at(f, p, r);
}

/// The encoded data of a frame, read back.
proof fn lemma_frame_data(f: FrameJob)
    requires
        config::config_error(f.config) is None,
        frame_plain(f),
    ensures
        stream::parsed_encoded(
            encoder::frame_data(f),
            picture::planes(f),
            picture::layers(f),
            picture::signalling(f),
        ) == Ok::<Seq<payload::ChunkModel>, Seq<char>>(
            stream::sent_from(picture::frame_layers(f), 0),
        ),
{
    let all = picture::frame_layers(f);
    let planes = picture::planes(f);
    let n = picture::layers(f);
    let signalling = picture::signalling(f);
    let m = payload::layers_per_plane(n, signalling);
    assert(planes * m >= 0) by (nonlinear_arith)
        requires
            planes >= 0,
            m >= 0,
    ;
    assert(all.len() == stream::layer_count(planes, n, signalling));
    assert forall|k: int| 0 <= k < all.len() implies #[trigger] all[k].len() >= 1
        && all[k][0].data.len() <= usize::MAX by {
        lemma_frame_flags(f, k);
    }
    stream::law_encoded_data_roundtrip(all, planes, n, signalling);
}

/// The configuration of a decoder once it has read a frame.
pub open spec fn config_after(c: LcevcConfig, idr: bool, d: LcevcConfig) -> LcevcConfig {
    let own = LcevcConfig { colour: None, ..d };
    if idr {
        header_laws::carried(c, own)
    } else {
        own
    }
}

/// A decoder that can take up a frame: an IDR frame brings the configuration, save for step
/// widths that go without saying; any other frame needs it from before.
pub open spec fn decoder_ready(c: LcevcConfig, idr: bool, d: LcevcConfig) -> bool {
    if idr {
        &&& header_laws::carried_globally(c)
        &&& c.temporal_step_width_modifier == 48 ==> d.temporal_step_width_modifier == 48
        &&& c.chroma_step_width_multiplier == 64 ==> d.chroma_step_width_multiplier == 64
    } else {
        header_laws::carried(c, d) == d
    }
}

/// The picture configuration of a frame, read back.
proof fn lemma_frame_config(f: FrameJob, c: LcevcConfig)
    requires
        frame_plain(f),
        f.matrix0.len() == config::layers_of(f.config.transform),
        f.matrix1.len() == config::layers_of(f.config.transform),
        header_laws::carried(f.config, c) == c,
    ensures
        decoder::parsed_picture(encoder::frame_config(f), c) == Ok::<PictureModel, Seq<char>>(
            frame_header(f, c).picture->0,
        ),
{
    header_laws::law_picture_config_roundtrip(
        c,
        f.step_l1,
        f.step_l2,
        f.refresh,
        f.matrix0,
        f.matrix1,
    );
}

/// A decoder reads the blocks of a frame.
proof fn lemma_frame_header(f: FrameJob, idr: bool, d: LcevcConfig)
    requires
        config::config_error(f.config) is None,
        frame_plain(f),
        f.matrix0.len() == config::layers_of(f.config.transform),
        f.matrix1.len() == config::layers_of(f.config.transform),
        decoder_ready(f.config, idr, d),
    ensures
        ({
            let blocks = encoder::frame_blocks(
                f.config,
                idr,
                encoder::frame_config(f),
                encoder::frame_data(f),
            );
            decoder::header_after(d, blocks, blocks.len() as int) == Ok::<HeaderModel, Seq<char>>(
                frame_header(f, config_after(f.config, idr, d)),
            )
        }),
        header_laws::carried(f.config, config_after(f.config, idr, d)) == config_after(
            f.config,
            idr,
            d,
        ),
{
    let c = f.config;
    let own = LcevcConfig { colour: None, ..d };
    let after = config_after(c, idr, d);
    let blocks = encoder::frame_blocks(c, idr, encoder::frame_config(f), encoder::frame_data(f));
    let k: int = if idr {
        2
    } else {
        0
    };
    let h0 = no_header(own);
    let h1 = no_header(after);
    let h2 = HeaderModel { encoded: None, ..frame_header(f, after) };
    if idr {
        lemma_global_step(c, own);
        lemma_sequence_step(h0, bitstream::pack(config::sequence_bits(c)));
        lemma_step(d, blocks, 0, h0, h0);
        lemma_step(d, blocks, 1, h0, h1);
    }
    lemma_picture_step(f, after);
    lemma_step(d, blocks, k, h1, h2);
    lemma_data_step(f, after);
    lemma_step(d, blocks, k + 1, h2, frame_header(f, after));
    assert(blocks.len() == k + 2);
}

/// A decoder that has read nothing yet.
spec fn no_header(c: LcevcConfig) -> HeaderModel {
    HeaderModel { config: c, picture: None, encoded: None }
}

/// One more block.
proof fn lemma_step(
    d: LcevcConfig,
    blocks: Seq<(u8, Seq<u8>)>,
    k: int,
    h: HeaderModel,
    next: HeaderModel,
)
    requires
        0 <= k < blocks.len(),
        decoder::header_after(d, blocks, k) == Ok::<HeaderModel, Seq<char>>(h),
        decoder::header_step(h, blocks[k]) == Ok::<HeaderModel, Seq<char>>(next),
    ensures
        decoder::header_after(d, blocks, k + 1) == Ok::<HeaderModel, Seq<char>>(next),
{
}

/// The sequence configuration block is passed over.
proof fn lemma_sequence_step(h: HeaderModel, data: Seq<u8>)
    ensures
        decoder::header_step(h, (nal::BLOCK_SEQUENCE_CONFIG, data)) == Ok::<
            HeaderModel,
            Seq<char>,
        >(h),
{
    reveal(decoder::header_step);
}

/// The global configuration block.
proof fn lemma_global_step(c: LcevcConfig, own: LcevcConfig)
    requires
        header_laws::carried_globally(c),
        c.temporal_step_width_modifier == 48 ==> own.temporal_step_width_modifier == 48,
        c.chroma_step_width_multiplier == 64 ==> own.chroma_step_width_multiplier == 64,
    ensures
        decoder::header_step(
            no_header(own),
            (nal::BLOCK_GLOBAL_CONFIG, bitstream::pack(config::global_bits(c))),
        ) == Ok::<HeaderModel, Seq<char>>(no_header(header_laws::carried(c, own))),
{
    reveal(decoder::header_step);
    header_laws::law_global_config_roundtrip(c, own);
}

/// The picture configuration block.
proof fn lemma_picture_step(f: FrameJob, c: LcevcConfig)
    requires
        frame_plain(f),
        f.matrix0.len() == config::layers_of(f.config.transform),
        f.matrix1.len() == config::layers_of(f.config.transform),
        header_laws::carried(f.config, c) == c,
    ensures
        decoder::header_step(
            no_header(c),
            (nal::BLOCK_PICTURE_CONFIG, encoder::frame_config(f)),
        ) == Ok::<HeaderModel, Seq<char>>(
            (HeaderModel { encoded: None, ..frame_header(f, c) }),
        ),
{
    reveal(decoder::header_step);
    lemma_frame_config(f, c);
}

/// The encoded-data block.
proof fn lemma_data_step(f: FrameJob, c: LcevcConfig)
    requires
        config::config_error(f.config) is None,
        frame_plain(f),
        header_laws::carried(f.config, c) == c,
    ensures
        decoder::header_step(
            (HeaderModel { encoded: None, ..frame_header(f, c) }),
            (nal::BLOCK_ENCODED_DATA, encoder::frame_data(f)),
        ) == Ok::<HeaderModel, Seq<char>>(frame_header(f, c)),
{
    reveal(decoder::header_step);
    lemma_frame_data(f);
}

/// What a decoder of a frame is handed for a plane.
spec fn handed(f: FrameJob, c: LcevcConfig, p: int) -> DecodeJob {
    decoder::plane_decode(frame_header(f, c), f.base, f.tbs[p], p, f.logs)
}

/// The parameters that a decoder is handed for a plane.
proof fn lemma_handed_parameters(f: FrameJob, c: LcevcConfig, p: int)
    requires
        f.matrix0.len() == config::layers_of(f.config.transform),
        f.matrix1.len() == config::layers_of(f.config.transform),
        header_laws::carried(f.config, c) == c,
    ensures
        ({
            let d = handed(f, c, p);
            &&& d.config == c
            &&& d.plane == p
            &&& d.base == f.base[p]
            &&& d.tb == f.tbs[p]
            &&& d.step_l1 == f.step_l1
            &&& d.step_l2 == f.step_l2
            &&& d.refresh == f.refresh
            &&& d.matrix0 == f.matrix0
            &&& d.matrix1 == f.matrix1
            &&& d.logs == f.logs
        }),
{
}

/// The chunks that a decoder is handed for a plane are a part of those that were sent.
proof fn lemma_handed_slice(f: FrameJob, c: LcevcConfig, p: int)
    requires
        header_laws::carried(f.config, c) == c,
    ensures
        ({
            let d = handed(f, c, p);
            let n = picture::layers(f);
            let from = p * payload::layers_per_plane(n, picture::signalling(f));
            let list = stream::sent_from(picture::frame_layers(f), 0);
            &&& d.chunks == list.subrange(from, from + 2 * n)
            &&& d.temporal == (if picture::signalling(f) {
                Some(list[from + 2 * n])
            } else {
                None
            })
        }),
{
}

/// A chunk that was sent.
proof fn lemma_sent_at(all: Seq<Seq<payload::ChunkModel>>, i: int)
    requires
        0 <= i < all.len(),
    ensures
        stream::sent_from(all, 0).len() == all.len(),
        stream::sent_from(all, 0)[i] == stream::sent(all[i][0]),
{
}

/// A chunk that a decoder is handed for a plane.
proof fn lemma_handed_chunk(f: FrameJob, c: LcevcConfig, p: int, r: int)
    requires
        config::config_error(f.config) is None,
        f.config.tile_dimensions == TileDimensions::Untiled,
        header_laws::carried(f.config, c) == c,
        0 <= p < picture::planes(f),
        0 <= r < 2 * picture::layers(f),
    ensures
        handed(f, c, p).chunks.len() == 2 * picture::layers(f),
        r < picture::layers(f) ==> handed(f, c, p).chunks[r] == stream::sent(
            picture::frame_chunk(f, p, 0, r, 0),
        ),
        r >= picture::layers(f) ==> handed(f, c, p).chunks[r] == stream::sent(
            picture::frame_chunk(f, p, 1, r - picture::layers(f), 0),
        ),
{
    let n = picture::layers(f);
    let m = payload::layers_per_plane(n, picture::signalling(f));
    let all = picture::frame_layers(f);
    lemma_handed_slice(f, c, p);
    lemma_layer_at(f, p, 0);
    lemma_layer_at(f, p, m - 1);
    lemma_layer_at(f, p, r);
    lemma_sent_at(all, p * m + r);
}

/// The chunk of temporal signals that a decoder is handed for a plane.
proof fn lemma_handed_signals(f: FrameJob, c: LcevcConfig, p: int)
    requires
        config::config_error(f.config) is None,
        f.config.tile_dimensions == TileDimensions::Untiled,
        header_laws::carried(f.config, c) == c,
        0 <= p < picture::planes(f),
    ensures
        handed(f, c, p).temporal == (if picture::signalling(f) {
            Some(stream::sent(picture::frame_signals(f, p, 0)))
        } else {
            None
        }),
{
    let n = picture::layers(f);
    let m = payload::layers_per_plane(n, picture::signalling(f));
    lemma_handed_slice(f, c, p);
    if picture::signalling(f) {
        lemma_layer_at(f, p, 2 * n);
        lemma_sent_at(picture::frame_layers(f), p * m + 2 * n);
    }
}

/// The chunks that a decoder is handed for a plane.
proof fn lemma_handed_chunks(f: FrameJob, c: LcevcConfig, p: int)
    requires
        config::config_error(f.config) is None,
        f.config.tile_dimensions == TileDimensions::Untiled,
        header_laws::carried(f.config, c) == c,
        0 <= p < picture::planes(f),
    ensures
        handed(f, c, p).chunks.len() == 2 * picture::layers(f),
        forall|l: int|
            0 <= l < picture::layers(f) ==> #[trigger] handed(f, c, p).chunks[l] == stream::sent(
                picture::frame_chunk(f, p, 0, l, 0),
            ),
        forall|l: int|
            0 <= l < picture::layers(f) ==> #[trigger] handed(f, c, p).chunks[picture::layers(f)
                + l] == stream::sent(picture::frame_chunk(f, p, 1, l, 0)),
{
    let d = handed(f, c, p);
    let n = picture::layers(f);
    lemma_handed_chunk(f, c, p, 0);
    assert forall|l: int| 0 <= l < n implies #[trigger] d.chunks[l] == stream::sent(
        picture::frame_chunk(f, p, 0, l, 0),
    ) by {
        lemma_handed_chunk(f, c, p, l);
    }
    assert forall|l: int| 0 <= l < n implies #[trigger] d.chunks[n + l] == stream::sent(
        picture::frame_chunk(f, p, 1, l, 0),
    ) by {
        lemma_handed_chunk(f, c, p, n + l);
    }
}

/// A decoder is handed what the encoder made of a plane.
proof fn lemma_plane_received(f: FrameJob, c: LcevcConfig, p: int)
    requires
        picture::frame_ok(f),
        frame_plain(f),
        header_laws::carried(f.config, c) == c,
        0 <= p < picture::planes(f),
    ensures
        !picture::dropped(f) ==> receives(handed(f, c, p), picture::plane_job(f, p)),
        picture::dropped(f) ==> receives_base(handed(f, c, p), picture::plane_job(f, p)),
{
    let j = picture::plane_job(f, p);
    let n = picture::layers(f);
    let d = handed(f, c, p);
    assert(plane::job_ok(j));
    lemma_handed_parameters(f, c, p);
    lemma_handed_chunks(f, c, p);
    lemma_handed_signals(f, c, p);
    if picture::dropped(f) {
        assert forall|l: int| 0 <= l < 2 * n implies !(#[trigger] d.chunks[l]).enabled by {
            if l < n {
                assert(d.chunks[l] == stream::sent(picture::frame_chunk(f, p, 0, l, 0)));
            } else {
                assert(d.chunks[n + (l - n)] == stream::sent(
                    picture::frame_chunk(f, p, 1, l - n, 0),
                ));
            }
        }
    }
}

/// A plane of a frame decodes to the one that the encoder shows.
proof fn lemma_plane_shown(f: FrameJob, c: LcevcConfig, p: int)
    requires
        picture::frame_ok(f),
        frame_plain(f),
        frame_fits(f),
        header_laws::carried(f.config, c) == c,
        0 <= p < picture::planes(f),
    ensures
        reconstruct::plane_outcome(handed(f, c, p)).0 == Ok::<Raster<u16>, Seq<char>>(
            picture::shown(f)[p],
        ),
        !picture::dropped(f) ==> reconstruct::plane_outcome(handed(f, c, p)).1
            == plane::loq0_end(picture::plane_job(f, p)).tb,
{
    let j = picture::plane_job(f, p);
    let d = handed(f, c, p);
    assert(plane::job_ok(j));
    lemma_plane_received(f, c, p);
    if picture::dropped(f) {
        law_plane_without_enhancement(d, j);
    } else {
        assert(chunks_fit(j));
        law_plane_selfcheck(d, j);
    }
}

/// The planes of a frame that have been decoded are those that the encoder shows.
proof fn lemma_frame_planes(f: FrameJob, c: LcevcConfig, n: int)
    requires
        picture::frame_ok(f),
        frame_plain(f),
        frame_fits(f),
        header_laws::carried(f.config, c) == c,
        0 <= n <= picture::planes(f),
    ensures
        ({
            let s = decoder::planes_after(frame_header(f, c), f.base, f.tbs, f.logs, n);
            &&& s.error is None
            &&& s.output == picture::shown(f).subrange(0, n)
            &&& s.tbs.len() == f.tbs.len()
            &&& forall|i: int| n <= i < f.tbs.len() ==> #[trigger] s.tbs[i] == f.tbs[i]
            &&& !picture::dropped(f) ==> forall|i: int|
                0 <= i < n ==> #[trigger] s.tbs[i] == plane::loq0_end(picture::plane_job(f, i)).tb
        }),
    decreases n,
{
    let h = frame_header(f, c);
    if n > 0 {
        lemma_frame_planes(f, c, n - 1);
        let p = n - 1;
        let before = decoder::planes_after(h, f.base, f.tbs, f.logs, p);
        assert(before.tbs[p] == f.tbs[p]);
        lemma_plane_shown(f, c, p);
        let shown = picture::shown(f);
        assert(shown.subrange(0, n) =~= shown.subrange(0, p).push(shown[p]));
    } else {
        assert(picture::shown(f).subrange(0, 0) =~= Seq::empty());
    }
}

/// The frames whose chunks carry nothing are those whose enhancement was dropped.
proof fn lemma_carries_nothing(f: FrameJob)
    requires
        config::config_error(f.config) is None,
        f.config.tile_dimensions == TileDimensions::Untiled,
    ensures
        decoder::carries_nothing(stream::sent_from(picture::frame_layers(f), 0))
            == picture::dropped(f),
{
    let all = picture::frame_layers(f);
    let sent = stream::sent_from(all, 0);
    lemma_layer_at(f, 0, 0);
    assert forall|k: int| 0 <= k < sent.len() implies (#[trigger] sent[k]).enabled
        == !picture::dropped(f) by {
        lemma_sent_at(all, k);
        lemma_frame_flags(f, k);
    }
    lemma_sent_at(all, 0);
    assert(sent[0].enabled == !picture::dropped(f));
}

/// Without temporal prediction, the encoder leaves the temporal buffer of a plane alone.
proof fn lemma_idle_buffer(j: PlaneJob)
    requires
        plane::job_ok(j),
        plain_job(j),
        !j.config.temporal_enabled,
    ensures
        plane::loq0_end(j).tb == j.tb,
{
    let c = j.config;
    lemma_single_tile(c, 0, j.plane);
    let t = geometry::tile_at(c, 0, j.plane, 0);
    let m = plane::loq0_model(j);
    let s = plane::loq0_start(j);
    let order = plane::block_order(c);
    assert(coding::loq_state(m, c, 0, j.plane, order, s, 0) == s);
    lemma_plain_buffer(m, c, t, order, s, geometry::tile_tus(c, t));
}

/// A frame decodes to the picture that the encoder shows, whether its enhancement was dropped or
/// not, and the decoder is left with the encoder's temporal buffers.
pub proof fn law_frame_selfcheck(f: FrameJob, idr: bool, d: LcevcConfig)
    requires
        picture::frame_ok(f),
        frame_plain(f),
        frame_fits(f),
        decoder_ready(f.config, idr, d),
    ensures
        ({
            let blocks = encoder::frame_blocks(
                f.config,
                idr,
                encoder::frame_config(f),
                encoder::frame_data(f),
            );
            decoder::decoded_frame(d, blocks, f.base, f.tbs, f.logs) == (
                Ok::<Seq<Raster<u16>>, Seq<char>>(picture::shown(f)),
                picture::next_buffers(f),
            )
        }),
{
    assert(plane::job_ok(picture::plane_job(f, 0)));
    lemma_frame_header(f, idr, d);
    let c = config_after(f.config, idr, d);
    let n = picture::planes(f);
    lemma_frame_planes(f, c, n);
    lemma_carries_nothing(f);
    let shown = picture::shown(f);
    assert(shown.subrange(0, n) =~= shown);
    let s = decoder::planes_after(frame_header(f, c), f.base, f.tbs, f.logs, n);
    assert(decoder::header_error(frame_header(f, c), f.base.len() as int, f.tbs.len() as int)
        is None);
    if !picture::dropped(f) {
        assert(s.tbs =~= picture::next_buffers(f));
    } else if !f.config.temporal_enabled {
        assert forall|p: int| 0 <= p < n implies #[trigger] picture::next_buffers(f)[p]
            == f.tbs[p] by {
            assert(plane::job_ok(picture::plane_job(f, p)));
            lemma_idle_buffer(picture::plane_job(f, p));
        }
        assert(picture::next_buffers(f) =~= f.tbs);
    }
}

/// The NAL unit of a frame is parsed into its blocks, which decode to the picture that the
/// encoder shows.
pub proof fn law_nal_selfcheck(f: FrameJob, idr: bool, d: LcevcConfig)
    requires
        picture::frame_ok(f),
        frame_plain(f),
        frame_fits(f),
        decoder_ready(f.config, idr, d),
        encoder::frame_config(f).len() <= usize::MAX,
        encoder::frame_data(f).len() <= usize::MAX,
    ensures
        ({
            let blocks = encoder::frame_blocks(
                f.config,
                idr,
                encoder::frame_config(f),
                encoder::frame_data(f),
            );
            &&& nal::parsed_nal(nal::nal_unit(idr, blocks)) == Ok::<
                (bool, Seq<(u8, Seq<u8>)>),
                Seq<char>,
            >((idr, blocks))
            &&& decoder::decoded_frame(d, blocks, f.base, f.tbs, f.logs).0 == Ok::<
                Seq<Raster<u16>>,
                Seq<char>,
            >(picture::shown(f))
        }),
{
    let blocks = encoder::frame_blocks(
        f.config,
        idr,
        encoder::frame_config(f),
        encoder::frame_data(f),
    );
    header_laws::lemma_config_sizes(f.config);
    assert forall|i: int| 0 <= i < blocks.len() implies #[trigger] blocks[i].0 < 32
        && blocks[i].1.len() <= usize::MAX by {
    }
    nal::law_nal_roundtrip(idr, blocks);
    law_frame_selfcheck(f, idr, d);
}

/// The blocks of frame `k` of a stream: the first one is an IDR.
pub open spec fn stream_blocks(fs: Seq<FrameJob>, k: int) -> Seq<(u8, Seq<u8>)> {
    encoder::frame_blocks(
        fs[k].config,
        k == 0,
        encoder::frame_config(fs[k]),
        encoder::frame_data(fs[k]),
    )
}

/// The temporal buffers of a decoder before frame `k` of a stream.
pub open spec fn stream_buffers(
    fs: Seq<FrameJob>,
    d: LcevcConfig,
    start: Seq<Raster<i16>>,
    k: int,
) -> Seq<Raster<i16>>
    decreases k,
{
    if k <= 0 {
        start
    } else {
        decoder::decoded_frame(
            d,
            stream_blocks(fs, k - 1),
            fs[k - 1].base,
            stream_buffers(fs, d, start, k - 1),
            fs[k - 1].logs,
        ).1
    }
}

/// A stream of frames, each coded with the temporal buffers that the one before it left, decodes
/// frame by frame to the pictures that the encoder shows.
pub proof fn law_stream_selfcheck(fs: Seq<FrameJob>, d: LcevcConfig, k: int)
    requires
        0 <= k < fs.len(),
        forall|i: int|
            0 <= i <= k ==> {
                &&& picture::frame_ok(#[trigger] fs[i])
                &&& frame_plain(fs[i])
                &&& frame_fits(fs[i])
                &&& decoder_ready(fs[i].config, i == 0, d)
            },
        forall|i: int|
            0 < i <= k ==> (#[trigger] fs[i]).tbs == picture::next_buffers(fs[i - 1]),
    ensures
        stream_buffers(fs, d, fs[0].tbs, k) == fs[k].tbs,
        decoder::decoded_frame(
            d,
            stream_blocks(fs, k),
            fs[k].base,
            stream_buffers(fs, d, fs[0].tbs, k),
            fs[k].logs,
        ).0 == Ok::<Seq<Raster<u16>>, Seq<char>>(picture::shown(fs[k])),
    decreases k,
{
    if k > 0 {
        law_stream_selfcheck(fs, d, k - 1);
        law_frame_selfcheck(fs[k - 1], k - 1 == 0, d);
    }
    law_frame_selfcheck(fs[k], k == 0, d);
}

} // verus!
