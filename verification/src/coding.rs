//! Coding of one LOQ of a plane: every transform unit is predicted, quantized and reconstructed
//! in the order in which a decoder visits it.
use crate::blocks;
use crate::config;
use crate::config::LcevcConfig;
use crate::dequant;
use crate::dequant::{DequantLayer, DequantTable, TemporalSignal};
use crate::frame::{PlaneS16, Raster};
use crate::geometry;
use crate::geometry::Tile;
use crate::quant;
use crate::runs;
use crate::transform;
use crate::transform::ForwardTransform;
use crate::tu::TuState;
use vstd::prelude::*;

verus! {

/// What temporal prediction does to a LOQ.
#[derive(Clone, Copy, Debug, PartialEq, Eq, Structural)]
pub enum TuMode {
    /// No temporal prediction, and no temporal buffer.
    Plain,
    /// No temporal prediction: the temporal buffer is set to the residual.
    Refresh,
    /// Each TU adds its residual to the temporal buffer (inter) or replaces it (intra).
    Predicted,
}

/// What the coding of a LOQ starts from.
#[verifier::ext_equal]
pub struct LoqModel {
    pub target: Raster<i16>,
    pub pred: Raster<i16>,
    /// Dequantization without an intra decision.
    pub inter: Seq<DequantLayer>,
    /// Dequantization of intra TUs.
    pub intra: Seq<DequantLayer>,
    pub forward: ForwardTransform,
    pub side: int,
    pub deblock: bool,
    pub corner: int,
    pub edge: int,
    pub rdoq: bool,
    pub mode: TuMode,
}

/// A coded TU, and the buffers after it.
#[verifier::ext_equal]
pub struct TuOutcome {
    pub levels: Seq<i16>,
    pub signal: TemporalSignal,
    pub recon: Raster<i16>,
    pub tb: Raster<i16>,
    pub energy: Seq<u128>,
}

/// Levels and reconstructed residual of a residual block, with the rows of one signal.
pub open spec fn coded_block(m: LoqModel, row: Seq<DequantLayer>, residual: Seq<i16>) -> (
    Seq<i16>,
    Seq<i16>,
) {
    let levels = quant::levels_of(m.forward, row, residual, m.rdoq);
    (levels, quant::reconstructed(m.forward, row, levels, m.deblock, m.corner, m.edge))
}

/// A TU that is not predicted from the temporal buffer.
pub open spec fn plain_tu(
    m: LoqModel,
    recon: Raster<i16>,
    tb: Raster<i16>,
    energy: Seq<u128>,
    x: int,
    y: int,
) -> TuOutcome {
    let n = m.side;
    let residual = blocks::residual_between(
        blocks::block_of(m.target, x, y, n),
        blocks::block_of(m.pred, x, y, n),
    );
    let (levels, rec) = coded_block(m, m.inter, residual);
    TuOutcome {
        levels,
        signal: TemporalSignal::Intra,
        recon: blocks::with_block(
            recon,
            x,
            y,
            n,
            blocks::saturated_sum(blocks::block_of(recon, x, y, n), rec),
        ),
        tb: if m.mode == TuMode::Refresh {
            blocks::with_block(tb, x, y, n, rec)
        } else {
            tb
        },
        energy: quant::more_energy(energy, transform::forward_of(m.forward, residual)),
    }
}

/// A TU that is coded on top of the temporal buffer or in its place, whichever has the smaller
/// error. In a tie the temporal buffer is kept.
pub open spec fn predicted_tu(
    m: LoqModel,
    recon: Raster<i16>,
    tb: Raster<i16>,
    energy: Seq<u128>,
    x: int,
    y: int,
) -> TuOutcome {
    let n = m.side;
    let target = blocks::block_of(m.target, x, y, n);
    let pred = blocks::block_of(m.pred, x, y, n);
    let kept = blocks::block_of(tb, x, y, n);
    let inter_residual = blocks::residual_between_sum(target, pred, kept);
    let intra_residual = blocks::residual_between(target, pred);
    let (inter_levels, inter_rec) = coded_block(m, m.inter, inter_residual);
    let (intra_levels, intra_rec) = coded_block(m, m.intra, intra_residual);
    let inter_error = blocks::squared_error(
        blocks::saturated_sum(pred, kept),
        inter_rec,
        target,
        n * n,
    );
    let intra_error = blocks::squared_error(pred, intra_rec, target, n * n);
    let inter_wins = inter_error <= intra_error;
    let next = if inter_wins {
        blocks::saturated_sum(kept, inter_rec)
    } else {
        intra_rec
    };
    TuOutcome {
        levels: if inter_wins {
            inter_levels
        } else {
            intra_levels
        },
        signal: if inter_wins {
            TemporalSignal::Inter
        } else {
            TemporalSignal::Intra
        },
        recon: blocks::with_block(recon, x, y, n, blocks::saturated_sum(pred, next)),
        tb: blocks::with_block(tb, x, y, n, next),
        energy: quant::more_energy(
            quant::more_energy(energy, transform::forward_of(m.forward, inter_residual)),
            transform::forward_of(m.forward, intra_residual),
        ),
    }
}

/// How a TU is coded.
#[verifier::opaque]
pub open spec fn tu_outcome(
    m: LoqModel,
    recon: Raster<i16>,
    tb: Raster<i16>,
    energy: Seq<u128>,
    x: int,
    y: int,
) -> TuOutcome {
    if m.mode == TuMode::Predicted {
        predicted_tu(m, recon, tb, energy, x, y)
    } else {
        plain_tu(m, recon, tb, energy, x, y)
    }
}

/// The state of a LOQ while it is coded: its buffers, and the TUs of the tile at hand.
#[verifier::ext_equal]
pub struct LoqState {
    pub recon: Raster<i16>,
    pub tb: Raster<i16>,
    pub energy: Seq<u128>,
    pub levels: Seq<Seq<i16>>,
    pub signals: Seq<u8>,
}

/// The state after the first `k` TUs of a tile.
pub open spec fn tile_state(
    m: LoqModel,
    c: LcevcConfig,
    t: Tile,
    block_order: bool,
    s: LoqState,
    k: int,
) -> LoqState
    decreases k,
{
    if k <= 0 {
        LoqState { levels: Seq::empty(), signals: Seq::empty(), ..s }
    } else {
        let before = tile_state(m, c, t, block_order, s, k - 1);
        let (x, y) = geometry::tile_position(c, t, block_order, k - 1);
        let o = tu_outcome(m, before.recon, before.tb, before.energy, x, y);
        LoqState {
            recon: o.recon,
            tb: o.tb,
            energy: o.energy,
            levels: before.levels.push(o.levels),
            signals: before.signals.push(dequant::signal_index(o.signal) as u8),
        }
    }
}

/// The state after the first `k` tiles of a plane.
pub open spec fn loq_state(
    m: LoqModel,
    c: LcevcConfig,
    loq: int,
    plane: int,
    block_order: bool,
    s: LoqState,
    k: int,
) -> LoqState
    decreases k,
{
    if k <= 0 {
        s
    } else {
        let t = geometry::tile_at(c, loq, plane, k - 1);
        tile_state(
            m,
            c,
            t,
            block_order,
            loq_state(m, c, loq, plane, block_order, s, k - 1),
            geometry::tile_tus(c, t),
        )
    }
}

/// Coefficient energies that are at most `b`.
pub open spec fn energy_below(e: Seq<u128>, b: int) -> bool {
    e.len() == 16 && forall|l: int| 0 <= l < 16 ==> #[trigger] e[l] <= b
}

proof fn lemma_energy_grows(e: Seq<u128>, t: ForwardTransform, r: Seq<i16>, b: int)
    requires
        energy_below(e, b),
        r.len() == transform::transform_len(t),
        b <= 0x100_0000_0000_0000_0000_0000_0000_0000,
    ensures
        energy_below(quant::more_energy(e, transform::forward_of(t, r)), b + 0x400_0000_0000),
{
    transform::lemma_forward_bound(t, r);
    let nums = transform::forward_of(t, r);
    let next = quant::more_energy(e, nums);
    assert forall|l: int| 0 <= l < 16 implies #[trigger] next[l] <= b + 0x400_0000_0000 by {
        assert(e[l] <= b);
        if l < nums.len() {
            let v = nums[l];
            assert(0 <= v * v <= 0x400_0000_0000) by (nonlinear_arith)
                requires
                    -0x20_0000 <= v <= 0x20_0000,
            ;
        }
    }
}

/// What the coding of a LOQ needs at hand.
pub struct LoqCoder<'a> {
    pub target: &'a PlaneS16,
    pub pred: &'a PlaneS16,
    pub inter: &'a DequantTable,
    pub intra: &'a DequantTable,
    pub forward: ForwardTransform,
    pub side: usize,
    pub deblock: bool,
    pub corner: u8,
    pub edge: u8,
    pub rdoq: bool,
    pub mode: TuMode,
}

/// The buffers of a LOQ.
pub struct LoqBuffers {
    pub recon: PlaneS16,
    pub tb: PlaneS16,
    pub energy: Vec<u128>,
}

/// Levels and temporal signals of the TUs of a tile.
pub struct TileCode {
    pub levels: Vec<Vec<i16>>,
    pub signals: Vec<u8>,
}

impl<'a> LoqCoder<'a> {
    pub open spec fn model(&self) -> LoqModel {
        LoqModel {
            target: self.target@,
            pred: self.pred@,
            inter: dequant::table_view(*self.inter)[0],
            intra: dequant::table_view(*self.intra)[1],
            forward: self.forward,
            side: self.side as int,
            deblock: self.deblock,
            corner: self.corner as int,
            edge: self.edge as int,
            rdoq: self.rdoq,
            mode: self.mode,
        }
    }

    /// The tables have a row entry per layer of the transform, which fits the block size.
    pub open spec fn wf(&self) -> bool {
        &&& self.side == 2 || self.side == 4
        &&& transform::transform_len(self.forward) == self.side * self.side
        &&& dequant::table_ok(dequant::table_view(*self.inter), self.side * self.side)
        &&& dequant::table_ok(dequant::table_view(*self.intra), self.side * self.side)
    }

    /// All planes have the block at (x, y).
    pub open spec fn block_inside(&self, b: LoqBuffers, x: int, y: int) -> bool {
        &&& blocks::inside(self.target@, x, y, self.side as int)
        &&& blocks::inside(self.pred@, x, y, self.side as int)
        &&& blocks::inside(b.recon@, x, y, self.side as int)
        &&& self.mode != TuMode::Plain ==> blocks::inside(b.tb@, x, y, self.side as int)
    }

    /// Code one TU without temporal prediction.
    fn encode_tu(&self, b: &mut LoqBuffers, x: usize, y: usize) -> (r: (Vec<i16>, TemporalSignal))
        requires
            self.wf(),
            self.mode != TuMode::Predicted,
            self.block_inside(*old(b), x as int, y as int),
            quant::energy_ok(old(b).energy@),
        ensures
            ({
                let o = plain_tu(
                    self.model(),
                    old(b).recon@,
                    old(b).tb@,
                    old(b).energy@,
                    x as int,
                    y as int,
                );
                &&& r.0@ == o.levels
                &&& r.1 == o.signal
                &&& final(b).recon@ == o.recon
                &&& final(b).tb@ == o.tb
                &&& final(b).energy@ == o.energy
            }),
            levels_fit(r.0@, self.side * self.side),
    {
        let target = blocks::read_block(self.target, x, y, self.side);
        let pred = blocks::read_block(self.pred, x, y, self.side);
        let residual = blocks::residual_of(&target, &pred);
        let (levels, rec) = quant::encode_tu_residual(
            &residual,
            self.inter,
            &self.forward,
            TemporalSignal::Inter,
            self.deblock,
            self.corner,
            self.edge,
            &mut b.energy,
            self.rdoq,
        );
        blocks::commit_residual(&mut b.recon, x, y, self.side, &rec);
        if self.mode == TuMode::Refresh {
            blocks::set_block(&mut b.tb, x, y, self.side, &rec);
        }
        (levels, TemporalSignal::Intra)
    }

    /// Code one TU with the temporal buffer: an inter and an intra trial, of which the one with
    /// the smaller error is kept.
    fn encode_predicted_tu(&self, b: &mut LoqBuffers, x: usize, y: usize) -> (r: (
        Vec<i16>,
        TemporalSignal,
    ))
        requires
            self.wf(),
            self.mode == TuMode::Predicted,
            self.block_inside(*old(b), x as int, y as int),
            energy_below(old(b).energy@, 0x80_0000_0000_0000_0000_0000_0000_0000),
        ensures
            ({
                let o = predicted_tu(
                    self.model(),
                    old(b).recon@,
                    old(b).tb@,
                    old(b).energy@,
                    x as int,
                    y as int,
                );
                &&& r.0@ == o.levels
                &&& r.1 == o.signal
                &&& final(b).recon@ == o.recon
                &&& final(b).tb@ == o.tb
                &&& final(b).energy@ == o.energy
            }),
            levels_fit(r.0@, self.side * self.side),
    {
        let target = blocks::read_block(self.target, x, y, self.side);
        let pred = blocks::read_block(self.pred, x, y, self.side);
        let kept = blocks::read_block(&b.tb, x, y, self.side);
        let inter_residual = blocks::residual_of_sum(&target, &pred, &kept);
        proof {
            lemma_energy_grows(
                b.energy@,
                self.forward,
                inter_residual@,
                0x80_0000_0000_0000_0000_0000_0000_0000,
            );
            assert(self.side * self.side <= 16) by (nonlinear_arith)
                requires
                    self.side == 2 || self.side == 4,
            ;
        }
        let (inter_levels, inter_rec) = quant::encode_tu_residual(
            &inter_residual,
            self.inter,
            &self.forward,
            TemporalSignal::Inter,
            self.deblock,
            self.corner,
            self.edge,
            &mut b.energy,
            self.rdoq,
        );
        let sum = blocks::add_values(&pred, &kept);
        let inter_error: u64 = blocks::block_error(&sum, &inter_rec, &target);
        let intra_residual = blocks::residual_of(&target, &pred);
        let (intra_levels, intra_rec) = quant::encode_tu_residual(
            &intra_residual,
            self.intra,
            &self.forward,
            TemporalSignal::Intra,
            self.deblock,
            self.corner,
            self.edge,
            &mut b.energy,
            self.rdoq,
        );
        let intra_error: u64 = blocks::block_sse(
            self.pred,
            x,
            y,
            self.side,
            &intra_rec,
            self.target,
        );
        let ghost before = b.tb@;
        if inter_error <= intra_error {
            blocks::add_block(&mut b.tb, x, y, self.side, &inter_rec);
            proof {
                blocks::lemma_block_of_with(
                    before,
                    x as int,
                    y as int,
                    self.side as int,
                    blocks::saturated_sum(kept@, inter_rec@),
                );
            }
            blocks::set_recon_from_tb(&mut b.recon, self.pred, &b.tb, x, y, self.side);
            (inter_levels, TemporalSignal::Inter)
        } else {
            blocks::set_block(&mut b.tb, x, y, self.side, &intra_rec);
            proof {
                blocks::lemma_block_of_with(
                    before,
                    x as int,
                    y as int,
                    self.side as int,
                    intra_rec@,
                );
            }
            blocks::set_recon_from_tb(&mut b.recon, self.pred, &b.tb, x, y, self.side);
            (intra_levels, TemporalSignal::Intra)
        }
    }
}

/// Levels of one TU in the range that the quantizer keeps to.
pub open spec fn levels_fit(levels: Seq<i16>, n: int) -> bool {
    levels.len() == n && forall|l: int|
        0 <= l < levels.len() ==> -8192 <= #[trigger] levels[l] <= 8191
}

/// Planes of the dimensions of a LOQ.
pub open spec fn sized<A>(r: Raster<A>, c: LcevcConfig, loq: int, plane: int) -> bool {
    &&& r.wf()
    &&& (r.width, r.height) == config::plane_size(c, loq, plane)
}

impl<'a> LoqCoder<'a> {
    /// All planes have the dimensions of the LOQ.
    pub open spec fn fits(&self, b: LoqBuffers, c: LcevcConfig, loq: int, plane: int) -> bool {
        &&& self.wf()
        &&& self.side == config::tu_size_of(c.transform)
        &&& sized(self.target@, c, loq, plane)
        &&& sized(self.pred@, c, loq, plane)
        &&& sized(b.recon@, c, loq, plane)
        &&& self.mode != TuMode::Plain ==> sized(b.tb@, c, loq, plane)
    }

    /// Code one TU.
    fn code_tu(&self, b: &mut LoqBuffers, x: usize, y: usize, Ghost(limit): Ghost<int>) -> (r: (
        Vec<i16>,
        TemporalSignal,
    ))
        requires
            self.wf(),
            self.block_inside(*old(b), x as int, y as int),
            energy_below(old(b).energy@, limit),
            limit <= 0x80_0000_0000_0000_0000_0000_0000_0000,
        ensures
            ({
                let o = tu_outcome(
                    self.model(),
                    old(b).recon@,
                    old(b).tb@,
                    old(b).energy@,
                    x as int,
                    y as int,
                );
                &&& r.0@ == o.levels
                &&& r.1 == o.signal
                &&& final(b).recon@ == o.recon
                &&& final(b).tb@ == o.tb
                &&& final(b).energy@ == o.energy
            }),
            levels_fit(r.0@, self.side * self.side),
            final(b).recon@.wf(),
            final(b).recon@.width == old(b).recon@.width,
            final(b).recon@.height == old(b).recon@.height,
            self.mode != TuMode::Plain ==> final(b).tb@.wf(),
            self.mode == TuMode::Plain ==> final(b).tb@ == old(b).tb@,
            final(b).tb@.width == old(b).tb@.width,
            final(b).tb@.height == old(b).tb@.height,
            energy_below(final(b).energy@, limit + 0x800_0000_0000),
    {
        let ghost m = self.model();
        proof {
            reveal(tu_outcome);
            let n = m.side;
            let target = blocks::block_of(m.target, x as int, y as int, n);
            let pred = blocks::block_of(m.pred, x as int, y as int, n);
            let kept = blocks::block_of(b.tb@, x as int, y as int, n);
            let plain = blocks::residual_between(target, pred);
            let inter = blocks::residual_between_sum(target, pred, kept);
            if m.mode == TuMode::Predicted {
                lemma_energy_grows(b.energy@, m.forward, inter, limit);
                lemma_energy_grows(
                    quant::more_energy(b.energy@, transform::forward_of(m.forward, inter)),
                    m.forward,
                    plain,
                    limit + 0x400_0000_0000,
                );
            } else {
                lemma_energy_grows(b.energy@, m.forward, plain, limit);
            }
            lemma_outcome_size(m, b.recon@, b.tb@, b.energy@, x as int, y as int);
        }
        if self.mode == TuMode::Predicted {
            self.encode_predicted_tu(b, x, y)
        } else {
            self.encode_tu(b, x, y)
        }
    }

    /// Code the TUs of a tile.
    fn code_tile(
        &self,
        cfg: &LcevcConfig,
        loq: usize,
        plane: usize,
        tile: Tile,
        block_order: bool,
        b: &mut LoqBuffers,
        Ghost(start): Ghost<LoqState>,
        Ghost(limit): Ghost<int>,
    ) -> (code: TileCode)
        requires
            self.fits(*old(b), *cfg, loq as int, plane as int),
            geometry::tile_inside(*cfg, loq as int, plane as int, tile),
            geometry::tile_tus(*cfg, tile) <= 0x3fff_ffff,
            config::plane_size(*cfg, loq as int, plane as int).0 <= 65535,
            config::plane_size(*cfg, loq as int, plane as int).1 <= 65535,
            old(b).recon@ == start.recon,
            old(b).tb@ == start.tb,
            old(b).energy@ == start.energy,
            energy_below(start.energy, limit),
            limit <= 0x40_0000_0000_0000_0000_0000_0000_0000,
        ensures
            ({
                let n = geometry::tile_tus(*cfg, tile);
                let end = tile_state(self.model(), *cfg, tile, block_order, start, n);
                &&& runs::coeffs_view(code.levels@) == end.levels
                &&& code.signals@ == end.signals
                &&& final(b).recon@ == end.recon
                &&& final(b).tb@ == end.tb
                &&& final(b).energy@ == end.energy
                &&& code.levels@.len() == n
                &&& code.signals@.len() == n
            }),
            tile_levels_fit(code.levels@, self.side * self.side),
            self.fits(*final(b), *cfg, loq as int, plane as int),
            self.mode == TuMode::Plain ==> final(b).tb@ == old(b).tb@,
            energy_below(final(b).energy@, limit + 0x200_0000_0000_0000_0000),
    {
        let ghost m = self.model();
        let shift: u32 = if self.side == 2 {
            1
        } else {
            2
        };
        let tus = TuState::new(tile.width, tile.height, tile.x, tile.y, shift);
        let mut levels: Vec<Vec<i16>> = Vec::new();
        let mut signals: Vec<u8> = Vec::new();
        let mut i: usize = 0;
        assert(runs::coeffs_view(levels@) =~= Seq::empty());
        while i < tus.tu_total
            invariant
                i <= tus.tu_total,
                tus.wf(),
                tus.width == tile.width,
                tus.height == tile.height,
                tus.x_offset == tile.x,
                tus.y_offset == tile.y,
                crate::tu::tu_side(tus.tu_width_shift) == self.side,
                tus.tu_total == geometry::tile_tus(*cfg, tile),
                tus.tu_total <= 0x3fff_ffff,
                m == self.model(),
                self.fits(*b, *cfg, loq as int, plane as int),
                self.mode == TuMode::Plain ==> b.tb@ == start.tb,
                geometry::tile_inside(*cfg, loq as int, plane as int, tile),
                config::plane_size(*cfg, loq as int, plane as int).0 <= 65535,
                config::plane_size(*cfg, loq as int, plane as int).1 <= 65535,
                energy_below(b.energy@, limit + 0x800_0000_0000 * i),
                limit <= 0x40_0000_0000_0000_0000_0000_0000_0000,
                ({
                    let now = tile_state(m, *cfg, tile, block_order, start, i as int);
                    &&& runs::coeffs_view(levels@) == now.levels
                    &&& signals@ == now.signals
                    &&& b.recon@ == now.recon
                    &&& b.tb@ == now.tb
                    &&& b.energy@ == now.energy
                }),
                levels@.len() == i,
                signals@.len() == i,
                tile_levels_fit(levels@, self.side * self.side),
            decreases tus.tu_total - i,
        {
            proof {
                geometry::lemma_tile_position(*cfg, tile, block_order, i as int);
            }
            let (x, y) = tus.surface_or_block_position(i, block_order);
            let ghost before = levels@;
            let (tu_levels, signal) = self.code_tu(
                b,
                x,
                y,
                Ghost(limit + 0x800_0000_0000 * i),
            );
            let index: usize = signal.index();
            signals.push(index as u8);
            levels.push(tu_levels);
            proof {
                assert(runs::coeffs_view(levels@) =~= runs::coeffs_view(before).push(tu_levels@));
            }
            i = i + 1;
        }
        TileCode { levels, signals }
    }

    /// Iterate over the tiles of a LOQ for one plane, coding every TU.
    pub fn process_loq_tiles(
        &self,
        cfg: &LcevcConfig,
        loq: usize,
        plane: usize,
        block_order: bool,
        b: &mut LoqBuffers,
    ) -> (codes: Vec<TileCode>)
        requires
            config::config_error(*cfg) is None,
            plane < config::planes_of(cfg.chroma),
            loq <= 1,
            self.fits(*old(b), *cfg, loq as int, plane as int),
            energy_below(old(b).energy@, 0),
        ensures
            ({
                let s = start_state(*old(b));
                let n = config::tile_count(*cfg, loq as int, plane as int);
                let end = loq_state(
                    self.model(),
                    *cfg,
                    loq as int,
                    plane as int,
                    block_order,
                    s,
                    n,
                );
                &&& final(b).recon@ == end.recon
                &&& final(b).tb@ == end.tb
                &&& final(b).energy@ == end.energy
                &&& codes@.len() == n
                &&& codes_match(
                    codes@,
                    self.model(),
                    *cfg,
                    loq as int,
                    plane as int,
                    block_order,
                    s,
                )
            }),
            forall|k: int|
                0 <= k < codes@.len() ==> tile_code_ok(#[trigger] codes@[k], self.side * self.side),
            self.fits(*final(b), *cfg, loq as int, plane as int),
            self.mode == TuMode::Plain ==> final(b).tb@ == old(b).tb@,
            energy_below(final(b).energy@, 0x400_0000_0000_0000_0000_0000_0000),
    {
        let ghost m = self.model();
        let ghost s = start_state(*b);
        proof {
            geometry::lemma_planes(*cfg, plane as int);
            geometry::lemma_tile_size(*cfg, plane as int);
        }
        let n: usize = cfg.num_tiles(loq, plane);
        proof {
            lemma_tile_count(*cfg, loq as int, plane as int);
        }
        let mut codes: Vec<TileCode> = Vec::new();
        let mut k: usize = 0;
        while k < n
            invariant
                k <= n <= 0x1_0000_0000,
                n == config::tile_count(*cfg, loq as int, plane as int),
                config::config_error(*cfg) is None,
                plane < config::planes_of(cfg.chroma),
                loq <= 1,
                m == self.model(),
                self.fits(*b, *cfg, loq as int, plane as int),
                self.mode == TuMode::Plain ==> b.tb@ == s.tb,
                config::plane_size(*cfg, loq as int, plane as int).0 <= 65535,
                config::plane_size(*cfg, loq as int, plane as int).1 <= 65535,
                energy_below(b.energy@, 0x200_0000_0000_0000_0000 * k),
                ({
                    let now = loq_state(
                        m,
                        *cfg,
                        loq as int,
                        plane as int,
                        block_order,
                        s,
                        k as int,
                    );
                    &&& b.recon@ == now.recon
                    &&& b.tb@ == now.tb
                    &&& b.energy@ == now.energy
                }),
                codes@.len() == k,
                codes_match(codes@, m, *cfg, loq as int, plane as int, block_order, s),
                forall|k: int|
                    0 <= k < codes@.len() ==> tile_code_ok(
                        #[trigger] codes@[k],
                        self.side * self.side,
                    ),
            decreases n - k,
        {
            let tile = geometry::tile_of(cfg, loq, plane, k);
            let ghost now = loq_state(
                m,
                *cfg,
                loq as int,
                plane as int,
                block_order,
                s,
                k as int,
            );
            let code = self.code_tile(
                cfg,
                loq,
                plane,
                tile,
                block_order,
                b,
                Ghost(now),
                Ghost(0x200_0000_0000_0000_0000 * k),
            );
            codes.push(code);
            k = k + 1;
        }
        codes
    }
}

/// The state before the first tile.
pub open spec fn start_state(b: LoqBuffers) -> LoqState {
    LoqState {
        recon: b.recon@,
        tb: b.tb@,
        energy: b.energy@,
        levels: Seq::empty(),
        signals: Seq::empty(),
    }
}

/// The codes of tiles are those of the states after each.
pub open spec fn codes_match(
    codes: Seq<TileCode>,
    m: LoqModel,
    c: LcevcConfig,
    loq: int,
    plane: int,
    block_order: bool,
    s: LoqState,
) -> bool {
    forall|k: int|
        0 <= k < codes.len() ==> {
            &&& runs::coeffs_view((#[trigger] codes[k]).levels@) == loq_state(
                m,
                c,
                loq,
                plane,
                block_order,
                s,
                k + 1,
            ).levels
            &&& codes[k].signals@ == loq_state(m, c, loq, plane, block_order, s, k + 1).signals
        }
}

/// Levels of TUs in the range that the quantizer keeps to.
pub open spec fn tile_levels_fit(levels: Seq<Vec<i16>>, n: int) -> bool {
    forall|i: int| 0 <= i < levels.len() ==> levels_fit(#[trigger] levels[i]@, n)
}

/// The code of a tile: at least one TU, with a level per layer and a signal each.
pub open spec fn tile_code_ok(code: TileCode, n: int) -> bool {
    &&& 1 <= code.levels@.len() <= 0x3fff_ffff
    &&& code.signals@.len() == code.levels@.len()
    &&& tile_levels_fit(code.levels@, n)
}

/// A coded TU keeps the dimensions of the buffers.
pub proof fn lemma_outcome_size(
    m: LoqModel,
    recon: Raster<i16>,
    tb: Raster<i16>,
    energy: Seq<u128>,
    x: int,
    y: int,
)
    requires
        recon.wf(),
        m.mode != TuMode::Plain ==> tb.wf(),
    ensures
        ({
            let o = tu_outcome(m, recon, tb, energy, x, y);
            &&& o.recon.wf() && o.recon.width == recon.width && o.recon.height == recon.height
            &&& m.mode != TuMode::Plain ==> o.tb.wf()
            &&& m.mode == TuMode::Plain ==> o.tb == tb
            &&& o.tb.width == tb.width && o.tb.height == tb.height
        }),
{
    reveal(tu_outcome);
    let n = m.side;
    if m.mode == TuMode::Predicted {
        let target = blocks::block_of(m.target, x, y, n);
        let pred = blocks::block_of(m.pred, x, y, n);
        let kept = blocks::block_of(tb, x, y, n);
        let (inter_levels, inter_rec) = coded_block(
            m,
            m.inter,
            blocks::residual_between_sum(target, pred, kept),
        );
        let (intra_levels, intra_rec) = coded_block(
            m,
            m.intra,
            blocks::residual_between(target, pred),
        );
        let a = blocks::saturated_sum(kept, inter_rec);
        blocks::lemma_with_block(tb, x, y, n, a);
        blocks::lemma_with_block(tb, x, y, n, intra_rec);
        blocks::lemma_with_block(recon, x, y, n, blocks::saturated_sum(pred, a));
        blocks::lemma_with_block(recon, x, y, n, blocks::saturated_sum(pred, intra_rec));
    } else {
        let residual = blocks::residual_between(
            blocks::block_of(m.target, x, y, n),
            blocks::block_of(m.pred, x, y, n),
        );
        let (levels, rec) = coded_block(m, m.inter, residual);
        blocks::lemma_with_block(
            recon,
            x,
            y,
            n,
            blocks::saturated_sum(blocks::block_of(recon, x, y, n), rec),
        );
        if m.mode == TuMode::Refresh {
            blocks::lemma_with_block(tb, x, y, n, rec);
        }
    }
}

pub proof fn lemma_tile_count(c: LcevcConfig, loq: int, plane: int)
    requires
        config::config_error(c) is None,
        0 <= plane < config::planes_of(c.chroma),
        loq == 0 || loq == 1,
    ensures
        0 <= config::tile_count(c, loq, plane) <= 0x1_0000_0000,
{
    geometry::lemma_planes(c, plane);
    geometry::lemma_tile_size(c, plane);
    let (w, h) = config::plane_size(c, loq, plane);
    let (tw, th) = config::tile_size(c, plane);
    let a = (w + tw - 1) / tw;
    let b = (h + th - 1) / th;
    assert(0 <= a <= 65535) by (nonlinear_arith)
        requires
            0 < w <= 65535,
            0 < tw,
            a == (w + tw - 1) / tw,
    ;
    assert(0 <= b <= 65535) by (nonlinear_arith)
        requires
            0 < h <= 65535,
            0 < th,
            b == (h + th - 1) / th,
    ;
    assert(0 <= a * b <= 65535 * 65535) by (nonlinear_arith)
        requires
            0 <= a <= 65535,
            0 <= b <= 65535,
    ;
}

} // verus!
