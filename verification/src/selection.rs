//! What is kept is what is closer to the source: of two ways to code a TU, and of a picture with
//! and without its enhancement.
use crate::blocks;
use crate::coding;
use crate::coding::{LoqModel, TuMode};
use crate::dequant::TemporalSignal;
use crate::frame::Raster;
use crate::picture;
use crate::picture::FrameJob;
use crate::quant;
use crate::simd;
use crate::transform;
use vstd::prelude::*;

verus! {

/// The squared distance of two planes at a position.
pub open spec fn gap_at(a: Raster<i16>, b: Raster<i16>, x: int, y: int) -> int {
    (a.at(x, y) - b.at(x, y)) * (a.at(x, y) - b.at(x, y))
}

/// The squared distance of two planes over a row of a block.
pub open spec fn gap_row(a: Raster<i16>, b: Raster<i16>, x: int, y: int, n: int) -> int {
    let two = gap_at(a, b, x, y) + gap_at(a, b, x + 1, y);
    if n == 2 {
        two
    } else {
        two + gap_at(a, b, x + 2, y) + gap_at(a, b, x + 3, y)
    }
}

/// The squared distance of two planes over a block.
pub open spec fn gap(a: Raster<i16>, b: Raster<i16>, x: int, y: int, n: int) -> int {
    let two = gap_row(a, b, x, y, n) + gap_row(a, b, x, y + 1, n);
    if n == 2 {
        two
    } else {
        two + gap_row(a, b, x, y + 2, n) + gap_row(a, b, x, y + 3, n)
    }
}

/// A plane that has, in a block, the sums of two planes.
pub open spec fn sums_in(
    sum: Raster<i16>,
    a: Raster<i16>,
    b: Raster<i16>,
    x: int,
    y: int,
    n: int,
) -> bool {
    forall|px: int, py: int|
        x <= px < x + n && y <= py < y + n ==> #[trigger] sum.at(px, py) == a.at(px, py) + b.at(
            px,
            py,
        )
}

/// The squared error of a block is the distance of planes over it.
proof fn lemma_error_is_gap(
    p: Seq<i16>,
    e: Seq<i16>,
    t: Seq<i16>,
    a: Raster<i16>,
    b: Raster<i16>,
    x: int,
    y: int,
    n: int,
)
    requires
        n == 2 || n == 4,
        p.len() == n * n,
        e.len() == n * n,
        t.len() == n * n,
        forall|i: int|
            0 <= i < n * n ==> #[trigger] p[i] + e[i] == a.at(
                x + transform::position_at(n, i).0,
                y + transform::position_at(n, i).1,
            ),
        forall|i: int|
            0 <= i < n * n ==> #[trigger] t[i] == b.at(
                x + transform::position_at(n, i).0,
                y + transform::position_at(n, i).1,
            ),
    ensures
        blocks::squared_error(p, e, t, n * n) == gap(a, b, x, y, n),
{
    reveal_with_fuel(blocks::squared_error, 17);
    assert(p[0] + e[0] == a.at(x, y) && p[1] + e[1] == a.at(x + 1, y));
    assert(p[2] + e[2] == a.at(x, y + 1) && p[3] + e[3] == a.at(x + 1, y + 1));
    assert(t[0] == b.at(x, y) && t[1] == b.at(x + 1, y));
    assert(t[2] == b.at(x, y + 1) && t[3] == b.at(x + 1, y + 1));
    if n == 4 {
        assert(p[4] + e[4] == a.at(x + 2, y) && p[5] + e[5] == a.at(x + 3, y));
        assert(p[6] + e[6] == a.at(x + 2, y + 1) && p[7] + e[7] == a.at(x + 3, y + 1));
        assert(p[8] + e[8] == a.at(x, y + 2) && p[9] + e[9] == a.at(x + 1, y + 2));
        assert(p[10] + e[10] == a.at(x, y + 3) && p[11] + e[11] == a.at(x + 1, y + 3));
        assert(p[12] + e[12] == a.at(x + 2, y + 2) && p[13] + e[13] == a.at(x + 3, y + 2));
        assert(p[14] + e[14] == a.at(x + 2, y + 3) && p[15] + e[15] == a.at(x + 3, y + 3));
        assert(t[4] == b.at(x + 2, y) && t[5] == b.at(x + 3, y));
        assert(t[6] == b.at(x + 2, y + 1) && t[7] == b.at(x + 3, y + 1));
        assert(t[8] == b.at(x, y + 2) && t[9] == b.at(x + 1, y + 2));
        assert(t[10] == b.at(x, y + 3) && t[11] == b.at(x + 1, y + 3));
        assert(t[12] == b.at(x + 2, y + 2) && t[13] == b.at(x + 3, y + 2));
        assert(t[14] == b.at(x + 2, y + 3) && t[15] == b.at(x + 3, y + 3));
    }
}

/// The error of a picture counts every sample of every plane by the square of its difference: a
/// picture has no error against itself, and with another value for one sample the error changes
/// by what the squares of that sample do.
pub proof fn law_error_by_sample(
    a: Seq<Raster<u16>>,
    b: Seq<Raster<u16>>,
    c: Seq<Raster<u16>>,
    n: int,
    p: int,
    i: int,
)
    requires
        0 <= p < n,
        n <= b.len(),
        b.len() == c.len(),
        0 <= i < a[p].data.len(),
        forall|q: int| 0 <= q < n && q != p ==> #[trigger] b[q] == c[q],
        forall|j: int|
            0 <= j < a[p].data.len() && j != i ==> #[trigger] b[p].data[j] == c[p].data[j],
    ensures
        picture::total_error(a, a, n) == 0,
        picture::total_error(a, b, n) - picture::total_error(a, c, n) == (a[p].data[i]
            - b[p].data[i]) * (a[p].data[i] - b[p].data[i]) - (a[p].data[i] - c[p].data[i]) * (
        a[p].data[i] - c[p].data[i]),
{
    lemma_no_error(a, n);
    lemma_error_planes(a, b, c, n, p, i);
}

proof fn lemma_no_error(a: Seq<Raster<u16>>, n: int)
    ensures
        picture::total_error(a, a, n) == 0,
    decreases n,
{
    if n > 0 {
        lemma_no_error(a, n - 1);
        lemma_no_diff(a[n - 1].data, a[n - 1].data.len() as int);
    }
}

proof fn lemma_no_diff(a: Seq<u16>, n: int)
    ensures
        simd::squared_diff(a, a, n) == 0,
    decreases n,
{
    if n > 0 {
        lemma_no_diff(a, n - 1);
    }
}

proof fn lemma_error_planes(
    a: Seq<Raster<u16>>,
    b: Seq<Raster<u16>>,
    c: Seq<Raster<u16>>,
    n: int,
    p: int,
    i: int,
)
    requires
        0 <= p,
        0 <= i < a[p].data.len(),
        forall|q: int| 0 <= q < n && q != p ==> #[trigger] b[q] == c[q],
        forall|j: int|
            0 <= j < a[p].data.len() && j != i ==> #[trigger] b[p].data[j] == c[p].data[j],
    ensures
        picture::total_error(a, b, n) - picture::total_error(a, c, n) == (if p < n {
            (a[p].data[i] - b[p].data[i]) * (a[p].data[i] - b[p].data[i]) - (a[p].data[i]
                - c[p].data[i]) * (a[p].data[i] - c[p].data[i])
        } else {
            0
        }),
    decreases n,
{
    if n > 0 {
        lemma_error_planes(a, b, c, n - 1, p, i);
        if p == n - 1 {
            lemma_error_samples(a[p].data, b[p].data, c[p].data, a[p].data.len() as int, i);
        } else {
            assert(b[n - 1] == c[n - 1]);
        }
    }
}

proof fn lemma_error_samples(a: Seq<u16>, b: Seq<u16>, c: Seq<u16>, n: int, i: int)
    requires
        0 <= i,
        forall|j: int| 0 <= j < n && j != i ==> #[trigger] b[j] == c[j],
    ensures
        simd::squared_diff(a, b, n) - simd::squared_diff(a, c, n) == (if i < n {
            (a[i] - b[i]) * (a[i] - b[i]) - (a[i] - c[i]) * (a[i] - c[i])
        } else {
            0
        }),
    decreases n,
{
    if n > 0 {
        lemma_error_samples(a, b, c, n - 1, i);
        if i != n - 1 {
            assert(b[n - 1] == c[n - 1]);
        }
    }
}

/// What is shown of a frame is never further from the source than the picture without
/// enhancement nor than the enhanced one, and the enhancement is only kept where it is closer.
pub proof fn law_shown_is_closest(f: FrameJob)
    ensures
        ({
            let n = picture::planes(f);
            let kept = picture::total_error(f.source, picture::shown(f), n);
            &&& kept <= picture::total_error(f.source, picture::plain(f), n)
            &&& kept <= picture::total_error(f.source, picture::enhanced(f), n)
            &&& kept < picture::total_error(f.source, picture::plain(f), n) ==> picture::shown(f)
                == picture::enhanced(f)
            &&& !(kept < picture::total_error(f.source, picture::plain(f), n)) ==> picture::shown(
                f,
            ) == picture::plain(f)
        }),
{
    reveal(picture::dropped);
}

/// A replaced block, value by value.
proof fn lemma_block_values(r: Raster<i16>, x: int, y: int, n: int, values: Seq<i16>, i: int)
    requires
        blocks::inside(r, x, y, n),
        0 <= i < n * n,
    ensures
        ({
            let (dx, dy) = transform::position_at(n, i);
            &&& 0 <= dx < n && 0 <= dy < n
            &&& blocks::with_block(r, x, y, n, values).at(x + dx, y + dy) == values[i]
            &&& blocks::block_of(r, x, y, n)[i] == r.at(x + dx, y + dy)
        }),
{
    let (dx, dy) = transform::position_at(n, i);
    transform::law_residual_layout(n, 0, 0, i);
    blocks::lemma_with_block(r, x, y, n, values);
    assert(r.has(x + dx, y + dy));
}

/// The model that codes a TU afresh, in place of what the temporal buffer has.
pub open spec fn afresh(m: LoqModel) -> LoqModel {
    LoqModel { inter: m.intra, mode: TuMode::Refresh, ..m }
}

/// The model that codes a TU on top of another prediction.
pub open spec fn on_top(m: LoqModel, pred: Raster<i16>) -> LoqModel {
    LoqModel { pred, mode: TuMode::Refresh, ..m }
}

/// What two ways to code a TU need: the block lies in all planes, and no sum leaves 16 bits.
pub open spec fn two_ways(
    m: LoqModel,
    both: Raster<i16>,
    recon: Raster<i16>,
    tb: Raster<i16>,
    energy: Seq<u128>,
    x: int,
    y: int,
) -> bool {
    let fresh = coding::tu_outcome(afresh(m), m.pred, tb, energy, x, y);
    let more = coding::tu_outcome(on_top(m, both), both, tb, energy, x, y);
    &&& m.mode == TuMode::Predicted
    &&& blocks::inside(m.target, x, y, m.side)
    &&& blocks::inside(m.pred, x, y, m.side)
    &&& blocks::inside(both, x, y, m.side)
    &&& blocks::inside(recon, x, y, m.side)
    &&& blocks::inside(tb, x, y, m.side)
    &&& transform::transform_len(m.forward) == m.side * m.side
    &&& m.inter.len() == m.side * m.side
    &&& m.intra.len() == m.side * m.side
    &&& sums_in(both, m.pred, tb, x, y, m.side)
    &&& forall|px: int, py: int|
        x <= px < x + m.side && y <= py < y + m.side ==> {
            &&& -32768 <= #[trigger] m.pred.at(px, py) + fresh.tb.at(px, py) <= 32767
            &&& -32768 <= both.at(px, py) + more.tb.at(px, py) <= 32767
            &&& -32768 <= tb.at(px, py) + more.tb.at(px, py) <= 32767
        }
}

/// Of the two ways to code a TU, on top of the temporal buffer or afresh, the one that comes
/// closer to the target is taken, and in a tie the first: its levels are sent, and the temporal
/// buffer has afterwards what the samples have on top of the prediction.
pub proof fn law_closer_way_taken(
    m: LoqModel,
    both: Raster<i16>,
    recon: Raster<i16>,
    tb: Raster<i16>,
    energy: Seq<u128>,
    x: int,
    y: int,
)
    requires
        two_ways(m, both, recon, tb, energy, x, y),
    ensures
        ({
            let fresh = coding::tu_outcome(afresh(m), m.pred, tb, energy, x, y);
            let more = coding::tu_outcome(on_top(m, both), both, tb, energy, x, y);
            let out = coding::tu_outcome(m, recon, tb, energy, x, y);
            let kept = gap(more.recon, m.target, x, y, m.side) <= gap(
                fresh.recon,
                m.target,
                x,
                y,
                m.side,
            );
            &&& kept ==> out.signal == TemporalSignal::Inter && out.levels == more.levels
                && sums_in(out.tb, tb, more.tb, x, y, m.side)
            &&& !kept ==> out.signal == TemporalSignal::Intra && out.levels == fresh.levels
                && out.tb == fresh.tb
            &&& sums_in(out.recon, m.pred, out.tb, x, y, m.side)
        }),
{
    let n = m.side;
    let (more_rec, fresh_rec) = lemma_ways_apart(m, both, recon, tb, energy, x, y);
    let fresh = coding::tu_outcome(afresh(m), m.pred, tb, energy, x, y);
    let more = coding::tu_outcome(on_top(m, both), both, tb, energy, x, y);
    assert forall|px: int, py: int| x <= px < x + n && y <= py < y + n implies {
        &&& -32768 <= #[trigger] m.pred.at(px, py) + fresh.tb.at(px, py) <= 32767
        &&& -32768 <= both.at(px, py) + more.tb.at(px, py) <= 32767
        &&& -32768 <= tb.at(px, py) + more.tb.at(px, py) <= 32767
    } by {}
    lemma_ways_compared(m.target, m.pred, both, recon, tb, x, y, n, more_rec, fresh_rec);
}

/// The blocks that two ways to code a TU add, and which of them is taken.
#[verifier::spinoff_prover]
proof fn lemma_ways_apart(
    m: LoqModel,
    both: Raster<i16>,
    recon: Raster<i16>,
    tb: Raster<i16>,
    energy: Seq<u128>,
    x: int,
    y: int,
) -> (recs: (Seq<i16>, Seq<i16>))
    requires
        two_ways(m, both, recon, tb, energy, x, y),
    ensures
        ({
            let n = m.side;
            let (more_rec, fresh_rec) = recs;
            let fresh = coding::tu_outcome(afresh(m), m.pred, tb, energy, x, y);
            let more = coding::tu_outcome(on_top(m, both), both, tb, energy, x, y);
            let out = coding::tu_outcome(m, recon, tb, energy, x, y);
            let target = blocks::block_of(m.target, x, y, n);
            let pred = blocks::block_of(m.pred, x, y, n);
            let kept = blocks::block_of(tb, x, y, n);
            let sum = blocks::block_of(both, x, y, n);
            let wins = blocks::squared_error(sum, more_rec, target, n * n)
                <= blocks::squared_error(pred, fresh_rec, target, n * n);
            let next = if wins {
                blocks::saturated_sum(kept, more_rec)
            } else {
                fresh_rec
            };
            &&& more_rec.len() == n * n
            &&& fresh_rec.len() == n * n
            &&& more.tb == blocks::with_block(tb, x, y, n, more_rec)
            &&& fresh.tb == blocks::with_block(tb, x, y, n, fresh_rec)
            &&& more.recon == blocks::with_block(
                both,
                x,
                y,
                n,
                blocks::saturated_sum(sum, more_rec),
            )
            &&& fresh.recon == blocks::with_block(
                m.pred,
                x,
                y,
                n,
                blocks::saturated_sum(pred, fresh_rec),
            )
            &&& out.signal == (if wins {
                TemporalSignal::Inter
            } else {
                TemporalSignal::Intra
            })
            &&& out.levels == (if wins {
                more.levels
            } else {
                fresh.levels
            })
            &&& out.tb == blocks::with_block(tb, x, y, n, next)
            &&& out.recon == blocks::with_block(recon, x, y, n, blocks::saturated_sum(pred, next))
        }),
{
    reveal(coding::tu_outcome);
    let n = m.side;
    let target = blocks::block_of(m.target, x, y, n);
    let pred = blocks::block_of(m.pred, x, y, n);
    let kept = blocks::block_of(tb, x, y, n);
    let sum = blocks::block_of(both, x, y, n);
    let inter_residual = blocks::residual_between_sum(target, pred, kept);
    let intra_residual = blocks::residual_between(target, pred);
    assert forall|i: int| 0 <= i < n * n implies #[trigger] sum[i] == pred[i] + kept[i] by {
        lemma_block_values(both, x, y, n, sum, i);
        lemma_block_values(m.pred, x, y, n, sum, i);
        lemma_block_values(tb, x, y, n, sum, i);
    }
    assert(blocks::residual_between(target, sum) =~= inter_residual);
    assert(blocks::saturated_sum(pred, kept) =~= sum);
    (
        coding::coded_block(m, m.inter, inter_residual).1,
        coding::coded_block(m, m.intra, intra_residual).1,
    )
}

/// The distances of two ways to code a TU, and the sums that the better one leaves.
#[verifier::spinoff_prover]
proof fn lemma_ways_compared(
    aim: Raster<i16>,
    base: Raster<i16>,
    both: Raster<i16>,
    recon: Raster<i16>,
    tb: Raster<i16>,
    x: int,
    y: int,
    n: int,
    more_rec: Seq<i16>,
    fresh_rec: Seq<i16>,
)
    requires
        blocks::inside(aim, x, y, n),
        blocks::inside(base, x, y, n),
        blocks::inside(both, x, y, n),
        blocks::inside(recon, x, y, n),
        blocks::inside(tb, x, y, n),
        sums_in(both, base, tb, x, y, n),
        more_rec.len() == n * n,
        fresh_rec.len() == n * n,
        ({
            let fresh_tb = blocks::with_block(tb, x, y, n, fresh_rec);
            let more_tb = blocks::with_block(tb, x, y, n, more_rec);
            forall|px: int, py: int|
                x <= px < x + n && y <= py < y + n ==> {
                    &&& -32768 <= #[trigger] base.at(px, py) + fresh_tb.at(px, py) <= 32767
                    &&& -32768 <= both.at(px, py) + more_tb.at(px, py) <= 32767
                    &&& -32768 <= tb.at(px, py) + more_tb.at(px, py) <= 32767
                }
        }),
    ensures
        ({
            let target = blocks::block_of(aim, x, y, n);
            let pred = blocks::block_of(base, x, y, n);
            let kept = blocks::block_of(tb, x, y, n);
            let sum = blocks::block_of(both, x, y, n);
            let more_recon = blocks::with_block(
                both,
                x,
                y,
                n,
                blocks::saturated_sum(sum, more_rec),
            );
            let fresh_recon = blocks::with_block(
                base,
                x,
                y,
                n,
                blocks::saturated_sum(pred, fresh_rec),
            );
            let next = blocks::saturated_sum(kept, more_rec);
            let next_tb = blocks::with_block(tb, x, y, n, next);
            let more_tb = blocks::with_block(tb, x, y, n, more_rec);
            let fresh_tb = blocks::with_block(tb, x, y, n, fresh_rec);
            let next_recon = blocks::with_block(
                recon,
                x,
                y,
                n,
                blocks::saturated_sum(pred, next),
            );
            let other_recon = blocks::with_block(
                recon,
                x,
                y,
                n,
                blocks::saturated_sum(pred, fresh_rec),
            );
            &&& blocks::squared_error(sum, more_rec, target, n * n) == gap(more_recon, aim, x, y, n)
            &&& blocks::squared_error(pred, fresh_rec, target, n * n) == gap(
                fresh_recon,
                aim,
                x,
                y,
                n,
            )
            &&& sums_in(next_tb, tb, more_tb, x, y, n)
            &&& sums_in(next_recon, base, next_tb, x, y, n)
            &&& sums_in(other_recon, base, fresh_tb, x, y, n)
        }),
{
    let target = blocks::block_of(aim, x, y, n);
    let pred = blocks::block_of(base, x, y, n);
    let kept = blocks::block_of(tb, x, y, n);
    let sum = blocks::block_of(both, x, y, n);
    let more_sum = blocks::saturated_sum(sum, more_rec);
    let fresh_sum = blocks::saturated_sum(pred, fresh_rec);
    let next = blocks::saturated_sum(kept, more_rec);
    let next_sum = blocks::saturated_sum(pred, next);
    let more_recon = blocks::with_block(both, x, y, n, more_sum);
    let fresh_recon = blocks::with_block(base, x, y, n, fresh_sum);
    let fresh_tb = blocks::with_block(tb, x, y, n, fresh_rec);
    assert forall|i: int| 0 <= i < n * n implies {
        &&& #[trigger] sum[i] + more_rec[i] == more_sum[i]
        &&& pred[i] + fresh_rec[i] == fresh_sum[i]
        &&& kept[i] + more_rec[i] == next[i]
        &&& pred[i] + next[i] == next_sum[i]
    } by {
        let (dx, dy) = transform::position_at(n, i);
        lemma_block_values(tb, x, y, n, more_rec, i);
        lemma_block_values(tb, x, y, n, fresh_rec, i);
        lemma_block_values(base, x, y, n, sum, i);
        lemma_block_values(both, x, y, n, sum, i);
        let inner = base.at(x + dx, y + dy) + fresh_tb.at(x + dx, y + dy);
        assert(-32768 <= inner <= 32767);
    }
    assert forall|i: int| 0 <= i < n * n implies #[trigger] sum[i] + more_rec[i] == more_recon.at(
        x + transform::position_at(n, i).0,
        y + transform::position_at(n, i).1,
    ) by {
        lemma_block_values(both, x, y, n, more_sum, i);
    }
    assert forall|i: int| 0 <= i < n * n implies #[trigger] pred[i] + fresh_rec[i]
        == fresh_recon.at(
        x + transform::position_at(n, i).0,
        y + transform::position_at(n, i).1,
    ) by {
        assert(sum[i] + more_rec[i] == more_sum[i]);
        lemma_block_values(base, x, y, n, fresh_sum, i);
    }
    lemma_error_is_gap(sum, more_rec, target, more_recon, aim, x, y, n);
    lemma_error_is_gap(pred, fresh_rec, target, fresh_recon, aim, x, y, n);
    let next_tb = blocks::with_block(tb, x, y, n, next);
    let more_tb = blocks::with_block(tb, x, y, n, more_rec);
    let next_recon = blocks::with_block(recon, x, y, n, next_sum);
    let other_recon = blocks::with_block(recon, x, y, n, fresh_sum);
    assert forall|px: int, py: int| x <= px < x + n && y <= py < y + n implies next_tb.at(px, py)
        == tb.at(px, py) + more_tb.at(px, py) && next_recon.at(px, py) == base.at(px, py)
        + next_tb.at(px, py) && other_recon.at(px, py) == base.at(px, py) + fresh_tb.at(
        px,
        py,
    ) by {
        let i = lemma_index_of(x, y, n, px, py);
        assert(sum[i] + more_rec[i] == more_sum[i]);
        lemma_block_values(tb, x, y, n, next, i);
        lemma_block_values(tb, x, y, n, more_rec, i);
        lemma_block_values(tb, x, y, n, fresh_rec, i);
        lemma_block_values(recon, x, y, n, next_sum, i);
        lemma_block_values(recon, x, y, n, fresh_sum, i);
        lemma_block_values(base, x, y, n, sum, i);
    }
}

/// The index of a position of a block.
proof fn lemma_index_of(x: int, y: int, n: int, px: int, py: int) -> (i: int)
    requires
        n == 2 || n == 4,
        x <= px < x + n,
        y <= py < y + n,
    ensures
        0 <= i < n * n,
        transform::position_at(n, i) == (px - x, py - y),
{
    let i = transform::index_at(n, px - x, py - y);
    transform::law_residual_layout(n, px - x, py - y, 0);
    if n == 2 {
        assert(0 <= i < 4);
    } else {
        assert(0 <= i < 16);
    }
    i
}

/// What a level costs when levels are refined: the square of its error, and a sixteenth of the
/// squared step width for every bit, where zero takes none, a level of up to 32 takes 9 and any
/// other takes 17.
pub proof fn law_cost_of_level(c: int, num: int, denom: int, sw: int, off: int)
    ensures
        ({
            let error = quant::level_value(c, sw, off) * denom - num;
            let rest = quant::level_cost(c, num, denom, sw, off) - error * error;
            let bit = (sw * sw) / 16;
            &&& 16 * bit <= sw * sw < 16 * bit + 16
            &&& c == 0 ==> rest == 0
            &&& c != 0 && -32 <= c <= 32 ==> rest == 9 * bit * (denom * denom)
            &&& !(-32 <= c <= 32) ==> rest == 17 * bit * (denom * denom)
        }),
{
    let bit = (sw * sw) / 16;
    let d = denom * denom;
    assert(bit * 0 * d == 0) by (nonlinear_arith);
    assert(bit * 9 * d == 9 * bit * d && bit * 17 * d == 17 * bit * d) by (nonlinear_arith);
}

} // verus!
