//! What the enhancement is for: it brings the reconstruction to the source, up to a margin that
//! the step widths give.
use crate::blocks;
use crate::coding;
use crate::coding::{LoqModel, LoqState, TuMode};
use crate::config;
use crate::config::{LcevcConfig, TileDimensions};
use crate::dequant::{DequantLayer, TemporalSignal};
use crate::frame;
use crate::frame::Raster;
use crate::geometry;
use crate::geometry::Tile;
use crate::plane;
use crate::plane::PlaneJob;
use crate::quant;
use crate::transform;
use crate::transform::ForwardTransform;
use crate::tu;
use crate::upscale;
use vstd::prelude::*;

verus! {

/// How far a dequantized coefficient can lie from the exact one: four step widths, of which two
/// are for a level that is chosen because it is cheaper, and twice the offset.
pub open spec fn level_margin(layer: DequantLayer) -> int {
    4 * layer.step_width + 2 * quant::abs(layer.offset as int)
}

/// Step widths with which no coefficient of a block of 16-bit residuals reaches the limits of a
/// level.
pub open spec fn coarse_enough(layer: DequantLayer) -> bool {
    layer.step_width >= 1 && 32768 + quant::abs(layer.offset as int) <= 8189 * layer.step_width
}

/// The margins of the first `n` layers together.
pub open spec fn block_margin(row: Seq<DequantLayer>, n: int) -> int
    decreases n,
{
    if n <= 0 {
        0
    } else {
        block_margin(row, n - 1) + level_margin(row[n - 1])
    }
}

/// The quantizer is within two step widths and twice the offset of the coefficient.
proof fn lemma_quantized_near(num: int, denom: int, sw: int, off: int)
    requires
        denom > 0,
        sw > 0,
        quant::abs(num) <= denom * 32768,
        32768 + quant::abs(off) <= 8189 * sw,
    ensures
        ({
            let q = quant::quantized(num, denom, sw, -off);
            &&& -8191 < q < 8190
            &&& quant::abs(denom * quant::level_value(q, sw, off) - num) <= denom * (2 * sw + 2
                * quant::abs(off))
        }),
{
    let a = quant::abs(num);
    let dz = -off;
    let s = denom * sw;
    let z = denom * quant::abs(2 * dz + sw);
    let o = denom * quant::abs(off);
    assert(s > 0) by (nonlinear_arith)
        requires
            denom > 0,
            sw > 0,
            s == denom * sw,
    ;
    assert(0 <= z <= 2 * o + s) by (nonlinear_arith)
        requires
            denom > 0,
            sw > 0,
            s == denom * sw,
            o == denom * quant::abs(off),
            z == denom * quant::abs(2 * dz + sw),
            quant::abs(2 * dz + sw) <= 2 * quant::abs(off) + sw,
            quant::abs(2 * dz + sw) >= 0,
    ;
    assert(denom * (2 * sw + 2 * quant::abs(off)) == 2 * s + 2 * o) by (nonlinear_arith)
        requires
            s == denom * sw,
            o == denom * quant::abs(off),
    ;
    assert(o >= 0) by (nonlinear_arith)
        requires
            denom > 0,
            o == denom * quant::abs(off),
            quant::abs(off) >= 0,
    ;
    assert(2 * denom * sw == 2 * s) by (nonlinear_arith)
        requires
            s == denom * sw,
    ;
    let q = (2 * a + z) / (2 * s);
    vstd::arithmetic::div_mod::lemma_fundamental_div_mod(2 * a + z, 2 * s);
    vstd::arithmetic::div_mod::lemma_mod_bound(2 * a + z, 2 * s);
    assert(2 * s * q == 2 * (q * s)) by (nonlinear_arith);
    assert(denom * 32768 + o <= 8189 * s) by (nonlinear_arith)
        requires
            denom > 0,
            s == denom * sw,
            o == denom * quant::abs(off),
            32768 + quant::abs(off) <= 8189 * sw,
    ;
    assert(a <= denom * 32768);
    assert(2 * a + z <= 16379 * s);
    assert(0 <= q < 8190) by (nonlinear_arith)
        requires
            2 * (q * s) <= 2 * a + z < 2 * (q * s) + 2 * s,
            2 * a + z <= 16379 * s,
            0 <= 2 * a + z,
            s > 0,
    ;
    if num != 0 {
        let level = quant::quantized(num, denom, sw, -off);
        assert(quant::abs(level) == q);
        let v = quant::level_value(level, sw, off);
        if q > 0 {
            assert(denom * (q * sw + off) == q * s + denom * off) by (nonlinear_arith)
                requires
                    s == denom * sw,
            ;
            assert(denom * (-(q * sw + off)) == -(denom * (q * sw + off))) by (nonlinear_arith);
            assert((-q) * sw == -(q * sw)) by (nonlinear_arith);
            assert(v == q * sw + off || v == -(q * sw + off));
            assert(-o <= denom * off <= o) by (nonlinear_arith)
                requires
                    denom > 0,
                    o == denom * quant::abs(off),
                    -quant::abs(off) <= off <= quant::abs(off),
            ;
        } else {
            assert(q * s == 0) by (nonlinear_arith)
                requires
                    q == 0,
            ;
            assert(denom * v == 0) by (nonlinear_arith)
                requires
                    v == 0,
            ;
        }
    } else {
        assert(denom * 0 == 0);
    }
}

/// A level that is refined for its cost stays within two more step widths.
proof fn lemma_refined_near(q0: int, num: int, denom: int, sw: int, off: int, b: int)
    requires
        denom > 0,
        sw > 0,
        -8191 < q0 < 8190,
        quant::abs(denom * quant::level_value(q0, sw, off) - num) <= b,
    ensures
        ({
            let q = quant::refined(q0, num, denom, sw, off);
            &&& -8192 <= q <= 8191
            &&& quant::abs(denom * quant::level_value(q, sw, off) - num) <= b + 2 * (denom * sw)
        }),
{
    quant::law_refined_cheapest(q0, num, denom, sw, off, q0);
    let q = quant::refined(q0, num, denom, sw, off);
    let e0 = quant::level_value(q0, sw, off) * denom - num;
    let e = quant::level_value(q, sw, off) * denom - num;
    assert(quant::level_value(q0, sw, off) * denom == denom * quant::level_value(q0, sw, off))
        by (nonlinear_arith);
    assert(quant::level_value(q, sw, off) * denom == denom * quant::level_value(q, sw, off))
        by (nonlinear_arith);
    let lambda = (sw * sw) / 16;
    let d2 = denom * denom;
    let s = denom * sw;
    let x0 = quant::level_bits(q0);
    let x = quant::level_bits(q);
    assert(0 <= x0 <= 17 && 0 <= x);
    assert(16 * lambda <= sw * sw && lambda >= 0) by (nonlinear_arith)
        requires
            lambda == (sw * sw) / 16,
            sw > 0,
    ;
    assert(d2 > 0) by (nonlinear_arith)
        requires
            d2 == denom * denom,
            denom > 0,
    ;
    assert(lambda * x * d2 >= 0) by (nonlinear_arith)
        requires
            lambda >= 0,
            x >= 0,
            d2 > 0,
    ;
    assert(16 * (lambda * x0 * d2) <= 17 * (s * s)) by {
        assert(16 * (lambda * x0) <= 17 * (sw * sw)) by (nonlinear_arith)
            requires
                16 * lambda <= sw * sw,
                lambda >= 0,
                0 <= x0 <= 17,
        ;
        assert(16 * (lambda * x0) * d2 <= 17 * (sw * sw) * d2) by (nonlinear_arith)
            requires
                16 * (lambda * x0) <= 17 * (sw * sw),
                d2 > 0,
        ;
        assert((sw * sw) * d2 == s * s) by (nonlinear_arith)
            requires
                d2 == denom * denom,
                s == denom * sw,
        ;
        assert(17 * (sw * sw) * d2 == 17 * ((sw * sw) * d2)) by (nonlinear_arith);
        assert(16 * (lambda * x0) * d2 == 16 * (lambda * x0 * d2)) by (nonlinear_arith);
    }
    assert(e * e + lambda * x * d2 <= e0 * e0 + lambda * x0 * d2);
    assert(s > 0) by (nonlinear_arith)
        requires
            s == denom * sw,
            denom > 0,
            sw > 0,
    ;
    assert(e * e <= e0 * e0 + 2 * (s * s)) by {
        assert(s * s >= 0) by (nonlinear_arith);
    }
    let m = quant::abs(e);
    let m0 = quant::abs(e0);
    assert(m * m == e * e) by (nonlinear_arith)
        requires
            m == e || m == -e,
    ;
    assert(m0 * m0 == e0 * e0) by (nonlinear_arith)
        requires
            m0 == e0 || m0 == -e0,
    ;
    assert(m <= m0 + 2 * s) by (nonlinear_arith)
        requires
            m >= 0,
            m0 >= 0,
            m * m <= m0 * m0 + 2 * (s * s),
            s > 0,
    ;
}

/// A coded coefficient is dequantized to within its margin of the exact one, `num / denom`.
pub proof fn law_level_near(num: int, denom: int, layer: DequantLayer, rdoq: bool)
    requires
        denom > 0,
        quant::abs(num) <= denom * 32768,
        coarse_enough(layer),
    ensures
        ({
            let q = quant::level_of(num, denom, layer, rdoq);
            &&& -8192 <= q <= 8191
            &&& quant::abs(denom * quant::dequantized(q, layer) - num) <= denom * level_margin(
                layer,
            )
        }),
{
    let sw = layer.step_width as int;
    let off = layer.offset as int;
    let q0 = quant::quantized(num, denom, sw, -off);
    let b = denom * (2 * sw + 2 * quant::abs(off));
    lemma_quantized_near(num, denom, sw, off);
    if rdoq {
        lemma_refined_near(q0, num, denom, sw, off, b);
    }
    let q = quant::level_of(num, denom, layer, rdoq);
    let v = quant::level_value(q, sw, off);
    let e = denom * v - num;
    assert(denom * level_margin(layer) == b + 2 * (denom * sw)) by (nonlinear_arith)
        requires
            b == denom * (2 * sw + 2 * quant::abs(off)),
            level_margin(layer) == 4 * sw + 2 * quant::abs(off),
    ;
    assert(denom * sw >= denom) by (nonlinear_arith)
        requires
            denom > 0,
            sw >= 1,
    ;
    assert(b >= 0) by (nonlinear_arith)
        requires
            b == denom * (2 * sw + 2 * quant::abs(off)),
            denom > 0,
            sw > 0,
            quant::abs(off) >= 0,
    ;
    assert(quant::abs(e) <= denom * level_margin(layer));
    // The limits of 16 bits lie at most one step outside of the exact coefficient.
    if v > 32767 {
        assert(denom * 32767 <= denom * v) by (nonlinear_arith)
            requires
                denom > 0,
                v > 32767,
        ;
    } else if v < -32768 {
        assert(denom * v <= denom * (-32768)) by (nonlinear_arith)
            requires
                denom > 0,
                v < -32768,
        ;
    }
}

/// The sum of the distances between `d` times some values and others.
spec fn distance(d: int, a: Seq<int>, b: Seq<int>, n: int) -> int
    decreases n,
{
    if n <= 0 {
        0
    } else {
        distance(d, a, b, n - 1) + quant::abs(d * a[n - 1] - b[n - 1])
    }
}

/// The distances of a group of four values.
spec fn group_distance(a: Seq<int>, b: Seq<int>, i: int) -> int {
    quant::abs(16 * a[4 * i] - b[4 * i]) + quant::abs(16 * a[4 * i + 1] - b[4 * i + 1])
        + quant::abs(16 * a[4 * i + 2] - b[4 * i + 2]) + quant::abs(
        16 * a[4 * i + 3] - b[4 * i + 3],
    )
}

proof fn lemma_group_near(k: int, a: Seq<int>, b: Seq<int>, i: int)
    ensures
        quant::abs(16 * transform::group(k, a, i) - transform::group(k, b, i)) <= group_distance(
            a,
            b,
            i,
        ),
{
}

proof fn lemma_groups_distance(a: Seq<int>, b: Seq<int>)
    ensures
        distance(16, a, b, 16) == group_distance(a, b, 0) + group_distance(a, b, 1)
            + group_distance(a, b, 2) + group_distance(a, b, 3),
{
    reveal_with_fuel(distance, 17);
}

proof fn lemma_rows_near(
    k: int,
    a0: int,
    a1: int,
    a2: int,
    a3: int,
    b0: int,
    b1: int,
    b2: int,
    b3: int,
)
    ensures
        ({
            let sum = quant::abs(16 * a0 - b0) + quant::abs(16 * a1 - b1) + quant::abs(16 * a2 - b2)
                + quant::abs(16 * a3 - b3);
            &&& quant::abs(
                16 * transform::hadamard(k, a0, a1, a2, a3) - transform::hadamard(
                    k,
                    b0,
                    b1,
                    b2,
                    b3,
                ),
            ) <= sum
            &&& quant::abs(
                16 * transform::inverse_pass_1d(k, a0, a1, a2, a3) - transform::inverse_pass_1d(
                    k,
                    b0,
                    b1,
                    b2,
                    b3,
                ),
            ) <= sum
        }),
{
}

/// The inverse transform adds up the errors of its coefficients at most.
proof fn lemma_inverse_near(t: ForwardTransform, a: Seq<int>, b: Seq<int>, i: int)
    requires
        0 <= i < transform::transform_len(t),
    ensures
        ({
            let n = transform::transform_len(t) as int;
            quant::abs(
                n * transform::inverse_exact(t, a)[i] - transform::inverse_exact(t, b)[i],
            ) <= distance(n, a, b, n)
        }),
{
    let n = transform::transform_len(t) as int;
    if n == 4 {
        reveal_with_fuel(distance, 5);
    } else {
        lemma_groups_distance(a, b);
        let g = i / 4;
        lemma_group_near(g, a, b, 0);
        lemma_group_near(g, a, b, 1);
        lemma_group_near(g, a, b, 2);
        lemma_group_near(g, a, b, 3);
        lemma_rows_near(
            i % 4,
            transform::group(g, a, 0),
            transform::group(g, a, 1),
            transform::group(g, a, 2),
            transform::group(g, a, 3),
            transform::group(g, b, 0),
            transform::group(g, b, 1),
            transform::group(g, b, 2),
            transform::group(g, b, 3),
        );
        assert(n == 16);
    }
}

/// The numerators of the coefficients of 16-bit residuals.
proof fn lemma_numerators(t: ForwardTransform, r: Seq<i16>, l: int)
    requires
        r.len() == transform::transform_len(t),
        0 <= l < transform::transform_len(t),
    ensures
        quant::abs(transform::forward_of(t, r)[l]) <= transform::transform_len(t) * 32768,
        transform::forward_of(t, r).len() == transform::transform_len(t),
{
    let s = transform::ints(r);
    assert forall|i: int| 0 <= i < s.len() implies -32768 <= #[trigger] s[i] <= 32767 by {}
}

/// The distances of dequantized coefficients are within the margins.
proof fn lemma_distance(
    t: ForwardTransform,
    row: Seq<DequantLayer>,
    r: Seq<i16>,
    rdoq: bool,
    n: int,
)
    requires
        r.len() == transform::transform_len(t),
        row.len() == transform::transform_len(t),
        0 <= n <= transform::transform_len(t),
        forall|l: int| 0 <= l < row.len() ==> coarse_enough(#[trigger] row[l]),
    ensures
        ({
            let d = transform::transform_len(t) as int;
            let dq = quant::dequantized_all(quant::levels_of(t, row, r, rdoq), row);
            distance(d, transform::ints(dq), transform::forward_of(t, r), n) <= d * block_margin(
                row,
                n,
            )
        }),
    decreases n,
{
    let d = transform::transform_len(t) as int;
    if n > 0 {
        lemma_distance(t, row, r, rdoq, n - 1);
        lemma_numerators(t, r, n - 1);
        assert(coarse_enough(row[n - 1]));
        let nums = transform::forward_of(t, r);
        law_level_near(nums[n - 1], d, row[n - 1], rdoq);
        let levels = quant::levels_of(t, row, r, rdoq);
        let dq = quant::dequantized_all(levels, row);
        assert(levels[n - 1] == quant::level_of(nums[n - 1], d, row[n - 1], rdoq));
        assert(dq[n - 1] == quant::dequantized(levels[n - 1] as int, row[n - 1]));
        assert(d * block_margin(row, n) == d * block_margin(row, n - 1) + d * level_margin(
            row[n - 1],
        )) by (nonlinear_arith)
            requires
                block_margin(row, n) == block_margin(row, n - 1) + level_margin(row[n - 1]),
        ;
    } else {
        assert(d * 0 == 0);
    }
}

/// A residual block that was transformed, quantized and reconstructed is itself again, up to the
/// margins of its coefficients.
pub proof fn law_residual_near(
    t: ForwardTransform,
    row: Seq<DequantLayer>,
    r: Seq<i16>,
    rdoq: bool,
    i: int,
)
    requires
        r.len() == transform::transform_len(t),
        row.len() == transform::transform_len(t),
        forall|l: int| 0 <= l < row.len() ==> coarse_enough(#[trigger] row[l]),
        0 <= i < r.len(),
    ensures
        quant::abs(
            quant::decoded_residual(t, row, quant::levels_of(t, row, r, rdoq))[i] - r[i],
        ) <= block_margin(row, row.len() as int),
{
    let n = transform::transform_len(t) as int;
    let dq = transform::ints(quant::dequantized_all(quant::levels_of(t, row, r, rdoq), row));
    let nums = transform::forward_of(t, r);
    lemma_inverse_near(t, dq, nums, i);
    lemma_distance(t, row, r, rdoq, n);
    transform::law_transform_exact(t, transform::ints(r));
    let v = transform::inverse_exact(t, dq)[i];
    assert(transform::inverse_exact(t, nums)[i] == n * r[i]);
    let m = block_margin(row, n);
    assert(quant::abs(v - r[i]) <= m) by (nonlinear_arith)
        requires
            -(n * m) <= n * v - n * r[i] <= n * m,
            n == 4 || n == 16,
    ;
}

/// How far the TU at (x, y) may be from its target: the margin of the dequantization that it
/// goes through.
pub open spec fn tu_margin(m: LoqModel) -> int {
    let inter = block_margin(m.inter, m.inter.len() as int);
    let intra = block_margin(m.intra, m.intra.len() as int);
    if m.mode == TuMode::Predicted && intra > inter {
        intra
    } else {
        inter
    }
}

/// Dequantization for all layers, with steps that keep levels off their limits, and no L1
/// filter.
pub open spec fn plainly_coded(m: LoqModel) -> bool {
    let n = transform::transform_len(m.forward);
    &&& n == m.side * m.side
    &&& m.side == 2 || m.side == 4
    &&& !m.deblock
    &&& m.inter.len() == n
    &&& forall|l: int| 0 <= l < n ==> coarse_enough(#[trigger] m.inter[l])
    &&& m.mode == TuMode::Predicted ==> m.intra.len() == n && forall|l: int|
        0 <= l < n ==> coarse_enough(#[trigger] m.intra[l])
}

/// What is missing at a position fits 16 bits, with the temporal buffer and without.
pub open spec fn missing_fits(m: LoqModel, tb: Raster<i16>, px: int, py: int) -> bool {
    &&& -32768 <= m.target.at(px, py) - m.pred.at(px, py) <= 32767
    &&& m.mode == TuMode::Predicted ==> -32768 <= m.target.at(px, py) - m.pred.at(px, py) - tb.at(
        px,
        py,
    ) <= 32767
}

/// The place of a position in the residual layout.
proof fn lemma_place_in_block(r: Raster<i16>, x: int, y: int, n: int, px: int, py: int)
    requires
        blocks::inside(r, x, y, n),
        x <= px < x + n,
        y <= py < y + n,
    ensures
        ({
            let i = transform::index_at(n, px - x, py - y);
            0 <= i < n * n && blocks::block_of(r, x, y, n)[i] == r.at(px, py)
        }),
        r.has(px, py),
        blocks::block_of(r, x, y, n).len() == n * n,
{
    let i = transform::index_at(n, px - x, py - y);
    transform::law_residual_layout(n, px - x, py - y, 0);
    if n == 2 {
        assert(0 <= i < 4);
    } else {
        assert(0 <= i < 16);
    }
}

/// A replaced block, at a position.
proof fn lemma_replaced(
    r: Raster<i16>,
    x: int,
    y: int,
    n: int,
    values: Seq<i16>,
    px: int,
    py: int,
)
    requires
        blocks::inside(r, x, y, n),
        x <= px < x + n,
        y <= py < y + n,
    ensures
        blocks::with_block(r, x, y, n, values).at(px, py) == values[transform::index_at(
            n,
            px - x,
            py - y,
        )],
{
    blocks::lemma_with_block(r, x, y, n, values);
    assert(r.has(px, py));
}

/// A TU without temporal prediction, at a position.
proof fn lemma_plain_near(
    m: LoqModel,
    recon: Raster<i16>,
    tb: Raster<i16>,
    energy: Seq<u128>,
    x: int,
    y: int,
    px: int,
    py: int,
)
    requires
        plainly_coded(m),
        m.mode != TuMode::Predicted,
        blocks::inside(recon, x, y, m.side),
        blocks::inside(m.target, x, y, m.side),
        blocks::inside(m.pred, x, y, m.side),
        m.mode != TuMode::Plain ==> blocks::inside(tb, x, y, m.side),
        x <= px < x + m.side,
        y <= py < y + m.side,
        recon.at(px, py) == m.pred.at(px, py),
        missing_fits(m, tb, px, py),
    ensures
        ({
            let o = coding::plain_tu(m, recon, tb, energy, x, y);
            let b = block_margin(m.inter, m.inter.len() as int);
            &&& quant::abs(o.recon.at(px, py) - m.target.at(px, py)) <= b
            &&& m.mode != TuMode::Plain ==> quant::abs(
                m.pred.at(px, py) + o.tb.at(px, py) - m.target.at(px, py),
            ) <= b
        }),
{
    let n = m.side;
    let i = transform::index_at(n, px - x, py - y);
    let target = blocks::block_of(m.target, x, y, n);
    let pred = blocks::block_of(m.pred, x, y, n);
    let now = blocks::block_of(recon, x, y, n);
    lemma_place_in_block(m.target, x, y, n, px, py);
    lemma_place_in_block(m.pred, x, y, n, px, py);
    lemma_place_in_block(recon, x, y, n, px, py);
    let plain = blocks::residual_between(target, pred);
    law_residual_near(m.forward, m.inter, plain, m.rdoq, i);
    let rec = coding::coded_block(m, m.inter, plain).1;
    assert(plain[i] == m.target.at(px, py) - m.pred.at(px, py));
    lemma_replaced(recon, x, y, n, blocks::saturated_sum(now, rec), px, py);
    if m.mode == TuMode::Refresh {
        lemma_replaced(tb, x, y, n, rec, px, py);
    }
}

/// A TU with temporal prediction, at a position.
proof fn lemma_predicted_near(
    m: LoqModel,
    recon: Raster<i16>,
    tb: Raster<i16>,
    energy: Seq<u128>,
    x: int,
    y: int,
    px: int,
    py: int,
)
    requires
        plainly_coded(m),
        m.mode == TuMode::Predicted,
        blocks::inside(recon, x, y, m.side),
        blocks::inside(m.target, x, y, m.side),
        blocks::inside(m.pred, x, y, m.side),
        blocks::inside(tb, x, y, m.side),
        x <= px < x + m.side,
        y <= py < y + m.side,
        missing_fits(m, tb, px, py),
    ensures
        ({
            let o = coding::predicted_tu(m, recon, tb, energy, x, y);
            &&& quant::abs(o.recon.at(px, py) - m.target.at(px, py)) <= tu_margin(m)
            &&& quant::abs(m.pred.at(px, py) + o.tb.at(px, py) - m.target.at(px, py)) <= tu_margin(
                m,
            )
        }),
{
    let n = m.side;
    let i = transform::index_at(n, px - x, py - y);
    let target = blocks::block_of(m.target, x, y, n);
    let pred = blocks::block_of(m.pred, x, y, n);
    let kept = blocks::block_of(tb, x, y, n);
    lemma_place_in_block(m.target, x, y, n, px, py);
    lemma_place_in_block(m.pred, x, y, n, px, py);
    lemma_place_in_block(tb, x, y, n, px, py);
    let plain = blocks::residual_between(target, pred);
    let more = blocks::residual_between_sum(target, pred, kept);
    law_residual_near(m.forward, m.inter, more, m.rdoq, i);
    law_residual_near(m.forward, m.intra, plain, m.rdoq, i);
    let inter_rec = coding::coded_block(m, m.inter, more).1;
    let intra_rec = coding::coded_block(m, m.intra, plain).1;
    assert(plain[i] == m.target.at(px, py) - m.pred.at(px, py));
    assert(more[i] == m.target.at(px, py) - m.pred.at(px, py) - tb.at(px, py));
    let o = coding::predicted_tu(m, recon, tb, energy, x, y);
    let next = if o.signal == TemporalSignal::Inter {
        blocks::saturated_sum(kept, inter_rec)
    } else {
        intra_rec
    };
    lemma_replaced(recon, x, y, n, blocks::saturated_sum(pred, next), px, py);
    lemma_replaced(tb, x, y, n, next, px, py);
}

/// A coded TU is near its target: at every position the reconstruction lies within the margin
/// of the target, and so does the prediction plus the temporal buffer that is kept. It takes
/// TUs that are coded once: the reconstruction is the prediction before.
pub proof fn law_tu_near_target(
    m: LoqModel,
    recon: Raster<i16>,
    tb: Raster<i16>,
    energy: Seq<u128>,
    x: int,
    y: int,
    px: int,
    py: int,
)
    requires
        plainly_coded(m),
        blocks::inside(recon, x, y, m.side),
        blocks::inside(m.target, x, y, m.side),
        blocks::inside(m.pred, x, y, m.side),
        m.mode != TuMode::Plain ==> blocks::inside(tb, x, y, m.side),
        x <= px < x + m.side,
        y <= py < y + m.side,
        m.mode != TuMode::Predicted ==> recon.at(px, py) == m.pred.at(px, py),
        missing_fits(m, tb, px, py),
    ensures
        ({
            let o = coding::tu_outcome(m, recon, tb, energy, x, y);
            &&& quant::abs(o.recon.at(px, py) - m.target.at(px, py)) <= tu_margin(m)
            &&& m.mode != TuMode::Plain ==> quant::abs(
                m.pred.at(px, py) + o.tb.at(px, py) - m.target.at(px, py),
            ) <= tu_margin(m)
        }),
{
    reveal(coding::tu_outcome);
    if m.mode == TuMode::Predicted {
        lemma_predicted_near(m, recon, tb, energy, x, y, px, py);
    } else {
        lemma_plain_near(m, recon, tb, energy, x, y, px, py);
    }
}

/// A position of the `i`-th TU of a tile.
pub open spec fn in_tu(c: LcevcConfig, t: Tile, order: bool, i: int, px: int, py: int) -> bool {
    let n = config::tu_size_of(c.transform) as int;
    let (x, y) = geometry::tile_position(c, t, order, i);
    x <= px < x + n && y <= py < y + n
}

/// A tile of whole TUs at the origin.
pub open spec fn whole(c: LcevcConfig, t: Tile) -> bool {
    &&& t.x == 0 && t.y == 0
    &&& t.width as int % config::tu_size_of(c.transform) as int == 0
    &&& t.height as int % config::tu_size_of(c.transform) as int == 0
}

/// The TU of a column and row, in the order of a tile.
spec fn tu_index(w: int, h: int, s: int, order: bool, x: int, y: int) -> int {
    if order {
        tu::block_index(w, h, s, x, y)
    } else {
        y * (w / s) + x
    }
}

proof fn lemma_tu_index(w: int, h: int, s: int, order: bool, x: int, y: int)
    requires
        0 <= w,
        0 <= h,
        s == 2 || s == 4,
        0 <= x < w / s,
        0 <= y < h / s,
    ensures
        0 <= tu_index(w, h, s, order, x, y) < tu::tu_count(w, h, s),
        (if order {
            tu::block_tu(w, h, s, tu_index(w, h, s, order, x, y))
        } else {
            tu::raster_tu(w, s, tu_index(w, h, s, order, x, y))
        }) == (x, y),
{
    let a = w / s;
    let b = h / s;
    let i = y * a + x;
    assert(0 <= i < a * b) by (nonlinear_arith)
        requires
            0 <= x < a,
            0 <= y < b,
            i == y * a + x,
    ;
    vstd::arithmetic::div_mod::lemma_fundamental_div_mod_converse(i, a, y, x);
    tu::law_block_order(w, h, s, x, y, i);
}

proof fn lemma_index_back(w: int, h: int, s: int, order: bool, i: int)
    requires
        0 <= w,
        0 <= h,
        s == 2 || s == 4,
        0 <= i < tu::tu_count(w, h, s),
    ensures
        ({
            let (x, y) = if order {
                tu::block_tu(w, h, s, i)
            } else {
                tu::raster_tu(w, s, i)
            };
            tu_index(w, h, s, order, x, y) == i
        }),
{
    tu::lemma_tu_inside(w, h, s, order, i);
    if order {
        let (x, y) = tu::block_tu(w, h, s, i);
        tu::law_block_order(w, h, s, x, y, i);
    } else {
        let a = w / s;
        vstd::arithmetic::div_mod::lemma_fundamental_div_mod(i, a);
        assert(a * (i / a) == (i / a) * a) by (nonlinear_arith);
    }
}

/// A position belongs to one TU only.
proof fn lemma_one_tu(c: LcevcConfig, t: Tile, order: bool, i: int, k: int, px: int, py: int)
    requires
        whole(c, t),
        0 <= i < geometry::tile_tus(c, t),
        0 <= k < geometry::tile_tus(c, t),
        in_tu(c, t, order, i, px, py),
        in_tu(c, t, order, k, px, py),
    ensures
        i == k,
{
    let n = config::tu_size_of(c.transform) as int;
    let w = t.width as int;
    let h = t.height as int;
    lemma_index_back(w, h, n, order, i);
    lemma_index_back(w, h, n, order, k);
    let (a, b) = if order {
        tu::block_tu(w, h, n, i)
    } else {
        tu::raster_tu(w, n, i)
    };
    let (a2, b2) = if order {
        tu::block_tu(w, h, n, k)
    } else {
        tu::raster_tu(w, n, k)
    };
    assert(a == a2 && b == b2) by (nonlinear_arith)
        requires
            a * n <= px < a * n + n,
            a2 * n <= px < a2 * n + n,
            b * n <= py < b * n + n,
            b2 * n <= py < b2 * n + n,
            n > 0,
    ;
}

/// Every position of a tile belongs to a TU.
proof fn lemma_some_tu(c: LcevcConfig, t: Tile, order: bool, px: int, py: int) -> (i: int)
    requires
        whole(c, t),
        0 <= px < t.width,
        0 <= py < t.height,
    ensures
        0 <= i < geometry::tile_tus(c, t),
        in_tu(c, t, order, i, px, py),
{
    let n = config::tu_size_of(c.transform) as int;
    let w = t.width as int;
    let h = t.height as int;
    let x = px / n;
    let y = py / n;
    if n == 2 {
        assert(0 <= x < w / 2 && 0 <= y < h / 2);
    } else {
        assert(0 <= x < w / 4 && 0 <= y < h / 4);
    }
    lemma_tu_index(w, h, n, order, x, y);
    vstd::arithmetic::div_mod::lemma_fundamental_div_mod(px, n);
    vstd::arithmetic::div_mod::lemma_fundamental_div_mod(py, n);
    assert(n * x == x * n && n * y == y * n) by (nonlinear_arith);
    tu_index(w, h, n, order, x, y)
}

/// A TU changes nothing outside of its block.
proof fn lemma_outside(
    m: LoqModel,
    recon: Raster<i16>,
    tb: Raster<i16>,
    energy: Seq<u128>,
    x: int,
    y: int,
    px: int,
    py: int,
)
    requires
        recon.wf(),
        recon.has(px, py),
        m.mode != TuMode::Plain ==> tb.wf() && tb.has(px, py),
        !(x <= px < x + m.side && y <= py < y + m.side),
    ensures
        coding::tu_outcome(m, recon, tb, energy, x, y).recon.at(px, py) == recon.at(px, py),
        coding::tu_outcome(m, recon, tb, energy, x, y).tb.at(px, py) == tb.at(px, py),
{
    reveal(coding::tu_outcome);
    assert forall|values: Seq<i16>| #[trigger]
        blocks::with_block(recon, x, y, m.side, values).at(px, py) == recon.at(px, py) by {
        blocks::lemma_with_block(recon, x, y, m.side, values);
    }
    if m.mode != TuMode::Plain {
        assert forall|values: Seq<i16>| #[trigger]
            blocks::with_block(tb, x, y, m.side, values).at(px, py) == tb.at(px, py) by {
            blocks::lemma_with_block(tb, x, y, m.side, values);
        }
    }
}

/// A plane of the size of a tile.
pub open spec fn filled<A>(r: Raster<A>, t: Tile) -> bool {
    r.wf() && r.width == t.width && r.height == t.height
}

/// What a tile starts from: the reconstruction is the prediction, and what is missing fits 16
/// bits.
pub open spec fn tile_starts(m: LoqModel, c: LcevcConfig, t: Tile, s: LoqState) -> bool {
    &&& plainly_coded(m)
    &&& m.side == config::tu_size_of(c.transform)
    &&& whole(c, t)
    &&& filled(m.target, t)
    &&& filled(m.pred, t)
    &&& s.recon == m.pred
    &&& m.mode != TuMode::Plain ==> filled(s.tb, t)
    &&& forall|px: int, py: int|
        0 <= px < t.width && 0 <= py < t.height ==> #[trigger] missing_fits(m, s.tb, px, py)
}

/// A position after the first `k` TUs: near the target where its TU was coded, and as it was
/// where not.
spec fn settled(
    m: LoqModel,
    c: LcevcConfig,
    t: Tile,
    order: bool,
    s: LoqState,
    k: int,
    i: int,
    px: int,
    py: int,
) -> bool {
    let now = coding::tile_state(m, c, t, order, s, k);
    if i < k {
        &&& quant::abs(now.recon.at(px, py) - m.target.at(px, py)) <= tu_margin(m)
        &&& m.mode != TuMode::Plain ==> quant::abs(
            m.pred.at(px, py) + now.tb.at(px, py) - m.target.at(px, py),
        ) <= tu_margin(m)
    } else {
        now.recon.at(px, py) == s.recon.at(px, py) && now.tb.at(px, py) == s.tb.at(px, py)
    }
}

proof fn lemma_sizes(m: LoqModel, c: LcevcConfig, t: Tile, order: bool, s: LoqState, k: int)
    requires
        filled(s.recon, t),
        m.mode != TuMode::Plain ==> filled(s.tb, t),
    ensures
        filled(coding::tile_state(m, c, t, order, s, k).recon, t),
        m.mode != TuMode::Plain ==> filled(coding::tile_state(m, c, t, order, s, k).tb, t),
    decreases k,
{
    if k > 0 {
        lemma_sizes(m, c, t, order, s, k - 1);
        let before = coding::tile_state(m, c, t, order, s, k - 1);
        let (x, y) = geometry::tile_position(c, t, order, k - 1);
        coding::lemma_outcome_size(m, before.recon, before.tb, before.energy, x, y);
    }
}

proof fn lemma_settled(
    m: LoqModel,
    c: LcevcConfig,
    t: Tile,
    order: bool,
    s: LoqState,
    k: int,
    i: int,
    px: int,
    py: int,
)
    requires
        tile_starts(m, c, t, s),
        0 <= k <= geometry::tile_tus(c, t),
        0 <= i < geometry::tile_tus(c, t),
        in_tu(c, t, order, i, px, py),
    ensures
        settled(m, c, t, order, s, k, i, px, py),
    decreases k,
{
    geometry::lemma_tile_position(c, t, order, i);
    if k > 0 {
        lemma_settled(m, c, t, order, s, k - 1, i, px, py);
        lemma_sizes(m, c, t, order, s, k - 1);
        let before = coding::tile_state(m, c, t, order, s, k - 1);
        let (x, y) = geometry::tile_position(c, t, order, k - 1);
        geometry::lemma_tile_position(c, t, order, k - 1);
        assert(before.recon.has(px, py));
        if i == k - 1 {
            assert(missing_fits(m, s.tb, px, py));
            law_tu_near_target(m, before.recon, before.tb, before.energy, x, y, px, py);
        } else {
            if in_tu(c, t, order, k - 1, px, py) {
                lemma_one_tu(c, t, order, i, k - 1, px, py);
            }
            lemma_outside(m, before.recon, before.tb, before.energy, x, y, px, py);
        }
    }
}

/// A coded tile is near its target everywhere: the reconstruction lies within the margin of the
/// step widths of what was to be coded, and so does the prediction plus the temporal buffer.
pub proof fn law_tile_near_target(
    m: LoqModel,
    c: LcevcConfig,
    t: Tile,
    order: bool,
    s: LoqState,
    px: int,
    py: int,
)
    requires
        tile_starts(m, c, t, s),
        0 <= px < t.width,
        0 <= py < t.height,
    ensures
        ({
            let end = coding::tile_state(m, c, t, order, s, geometry::tile_tus(c, t));
            &&& quant::abs(end.recon.at(px, py) - m.target.at(px, py)) <= tu_margin(m)
            &&& m.mode != TuMode::Plain ==> quant::abs(
                m.pred.at(px, py) + end.tb.at(px, py) - m.target.at(px, py),
            ) <= tu_margin(m)
        }),
{
    let i = lemma_some_tu(c, t, order, px, py);
    lemma_settled(m, c, t, order, s, geometry::tile_tus(c, t), i, px, py);
}

/// The single tile of a plane that is not tiled.
proof fn lemma_whole_plane(j: PlaneJob, loq: int)
    requires
        plane::job_ok(j),
        j.config.tile_dimensions == TileDimensions::Untiled,
        loq == 0 || loq == 1,
    ensures
        ({
            let c = j.config;
            let t = geometry::tile_at(c, loq, j.plane, 0);
            &&& whole(c, t)
            &&& config::tile_count(c, loq, j.plane) == 1
            &&& (t.width as int, t.height as int) == config::plane_size(c, loq, j.plane)
        }),
{
    geometry::lemma_untiled(j.config, loq, j.plane);
    geometry::lemma_planes(j.config, j.plane);
}

/// The planes that LOQ0 of a plane starts from have its size.
proof fn lemma_loq0_planes(j: PlaneJob)
    requires
        plane::job_ok(j),
        j.config.tile_dimensions == TileDimensions::Untiled,
    ensures
        coding::sized(plane::loq0_model(j).pred, j.config, 0, j.plane),
        coding::sized(plane::loq0_model(j).target, j.config, 0, j.plane),
{
    let c = j.config;
    let t = geometry::tile_at(c, 1, j.plane, 0);
    let m = plane::loq1_model(j);
    let s = plane::loq1_start(j);
    let order = plane::block_order(c);
    lemma_whole_plane(j, 1);
    plane::lemma_loq1_sizes(j);
    geometry::lemma_planes(c, j.plane);
    lemma_sizes(m, c, t, order, s, geometry::tile_tus(c, t));
    assert(plane::loq1_state(j, 0) == s);
    assert(plane::loq1_end(j) == coding::tile_state(m, c, t, order, s, geometry::tile_tus(c, t)));
    plane::lemma_upscaled_size(
        plane::loq1_end(j).recon,
        c.scaling_l2,
        config::kernel_of(c.upsampler),
        c.predicted_average,
    );
}

/// What is missing from the prediction of a plane fits 16 bits everywhere.
pub open spec fn plane_fits(m: LoqModel, tb: Raster<i16>, size: (int, int)) -> bool {
    &&& plainly_coded(m)
    &&& forall|px: int, py: int|
        0 <= px < size.0 && 0 <= py < size.1 ==> #[trigger] missing_fits(m, tb, px, py)
}

/// LOQ1 of a plane comes out near the downscaled source: within the margin of its step widths.
pub proof fn law_loq1_near_source(j: PlaneJob, px: int, py: int)
    requires
        plane::job_ok(j),
        j.config.tile_dimensions == TileDimensions::Untiled,
        plane_fits(
            plane::loq1_model(j),
            plane::loq1_start(j).tb,
            config::plane_size(j.config, 1, j.plane),
        ),
        0 <= px < config::plane_size(j.config, 1, j.plane).0,
        0 <= py < config::plane_size(j.config, 1, j.plane).1,
    ensures
        ({
            let depth = j.config.enhancement_depth as int;
            let small = upscale::downscaled(j.source, j.config.scaling_l2, depth);
            quant::abs(
                plane::loq1_end(j).recon.at(px, py) - frame::fixed_of_plane(small, depth).at(
                    px,
                    py,
                ),
            ) <= tu_margin(plane::loq1_model(j))
        }),
{
    let c = j.config;
    let t = geometry::tile_at(c, 1, j.plane, 0);
    let m = plane::loq1_model(j);
    let s = plane::loq1_start(j);
    let order = plane::block_order(c);
    lemma_whole_plane(j, 1);
    plane::lemma_loq1_sizes(j);
    assert(tile_starts(m, c, t, s));
    law_tile_near_target(m, c, t, order, s, px, py);
    assert(plane::loq1_state(j, 0) == s);
    assert(plane::loq1_end(j) == coding::tile_state(m, c, t, order, s, geometry::tile_tus(c, t)));
}

/// An enhanced plane comes out near its source: within the margin of the step widths of LOQ0.
/// With temporal prediction the upscaled picture plus the temporal buffer does, too.
pub proof fn law_plane_near_source(j: PlaneJob, px: int, py: int)
    requires
        plane::job_ok(j),
        j.config.tile_dimensions == TileDimensions::Untiled,
        plane_fits(plane::loq0_model(j), j.tb, config::plane_size(j.config, 0, j.plane)),
        0 <= px < config::plane_size(j.config, 0, j.plane).0,
        0 <= py < config::plane_size(j.config, 0, j.plane).1,
    ensures
        ({
            let c = j.config;
            let end = plane::loq0_end(j);
            let source = frame::fixed_of_plane(j.source, c.enhancement_depth as int);
            let predicted = upscale::upscaled(
                plane::loq1_end(j).recon,
                c.scaling_l2,
                config::kernel_of(c.upsampler),
                c.predicted_average,
            );
            &&& quant::abs(end.recon.at(px, py) - source.at(px, py)) <= tu_margin(
                plane::loq0_model(j),
            )
            &&& c.temporal_enabled ==> quant::abs(
                predicted.at(px, py) + end.tb.at(px, py) - source.at(px, py),
            ) <= tu_margin(plane::loq0_model(j))
        }),
{
    let c = j.config;
    let t = geometry::tile_at(c, 0, j.plane, 0);
    let m = plane::loq0_model(j);
    let s = plane::loq0_start(j);
    let order = plane::block_order(c);
    lemma_whole_plane(j, 0);
    lemma_loq0_planes(j);
    assert(tile_starts(m, c, t, s));
    law_tile_near_target(m, c, t, order, s, px, py);
    assert(plane::loq0_state(j, 0) == s);
    assert(plane::loq0_end(j) == coding::tile_state(m, c, t, order, s, geometry::tile_tus(c, t)));
}

/// A residual is what is missing: added to what it was taken from it gives the target, value by
/// value, where it fits 16 bits, and otherwise it is as close to that as 16 bits allow.
pub proof fn law_residual_completes(target: Seq<i16>, pred: Seq<i16>, more: Seq<i16>, i: int)
    requires
        target.len() == pred.len(),
        more.len() == pred.len(),
        0 <= i < target.len(),
    ensures
        ({
            let alone = blocks::residual_between(target, pred)[i];
            let both = blocks::residual_between_sum(target, pred, more)[i];
            let missing = target[i] - pred[i];
            let still = target[i] - pred[i] - more[i];
            &&& -32768 <= missing <= 32767 ==> blocks::saturated_sum(
                pred,
                blocks::residual_between(target, pred),
            )[i] == target[i] && alone + pred[i] == target[i]
            &&& missing > 32767 ==> alone == 32767
            &&& missing < -32768 ==> alone == -32768
            &&& -32768 <= still <= 32767 ==> both + pred[i] + more[i] == target[i]
            &&& still > 32767 ==> both == 32767
            &&& still < -32768 ==> both == -32768
        }),
{
}

} // verus!
