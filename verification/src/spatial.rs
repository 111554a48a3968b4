//! What the coefficients of a transform and the strengths of the L1 filter stand for in the
//! picture: patterns over the samples of a block.
use crate::blocks;
use crate::coding;
use crate::coding::{LoqModel, TuMode};
use crate::frame::Raster;
use crate::quant;
use crate::transform;
use crate::transform::ForwardTransform;
use vstd::prelude::*;

verus! {

/// A value, negated where a pattern is dark.
pub open spec fn turned(dark: bool, v: int) -> int {
    if dark {
        -v
    } else {
        v
    }
}

/// Whether the pattern of a coefficient is dark in column `i` of a block. In a 2x2 block the
/// lowest bit of the coefficient tells the columns apart. In a 4x4 block the lowest bit tells the
/// halves of the block apart, and bit 2 tells the columns of a half apart.
pub open spec fn dark_column(t: ForwardTransform, k: int, i: int) -> bool {
    match t {
        ForwardTransform::Dd2D => k % 2 == 1 && i == 1,
        ForwardTransform::Dd1D => (k == 1 || k == 2) && i == 1,
        ForwardTransform::Dds2D => (k % 2 == 1 && i >= 2) != ((k / 4) % 2 == 1 && i % 2 == 1),
        ForwardTransform::Dds1D => (k % 2 == 1 && i >= 2) != ((k / 4) % 2 == 1 && i % 2 == 1),
    }
}

/// The value of a row `j` in the pattern of a coefficient. With scaling in both directions it
/// counts with its sign. With scaling of columns only, the two rows of a pair have averages of
/// their own, and their horizontal details are split into sum and difference.
pub open spec fn row_part(t: ForwardTransform, k: int, j: int, v: int) -> int {
    match t {
        ForwardTransform::Dd2D => turned(k / 2 == 1 && j == 1, v),
        ForwardTransform::Dd1D => if k == 0 {
            if j == 0 {
                2 * v
            } else {
                0
            }
        } else if k == 3 {
            if j == 1 {
                2 * v
            } else {
                0
            }
        } else {
            turned(k == 2 && j == 1, v)
        },
        ForwardTransform::Dds2D => turned(
            ((k / 2) % 2 == 1 && j >= 2) != (k / 8 == 1 && j % 2 == 1),
            v,
        ),
        ForwardTransform::Dds1D => {
            let pair = turned((k / 2) % 2 == 1 && j >= 2, v);
            if k / 4 == 0 {
                if j % 2 == 0 {
                    2 * pair
                } else {
                    0
                }
            } else if k / 4 == 2 {
                if j % 2 == 1 {
                    2 * pair
                } else {
                    0
                }
            } else {
                turned(k / 4 == 3 && j % 2 == 1, pair)
            }
        },
    }
}

/// A row of a block under the columns of a pattern.
pub open spec fn row_sum(t: ForwardTransform, k: int, r: Raster<i16>, x: int, y: int, j: int) -> int {
    let two = turned(dark_column(t, k, 0), r.at(x, y + j) as int) + turned(
        dark_column(t, k, 1),
        r.at(x + 1, y + j) as int,
    );
    if transform::transform_len(t) == 4 {
        two
    } else {
        two + turned(dark_column(t, k, 2), r.at(x + 2, y + j) as int) + turned(
            dark_column(t, k, 3),
            r.at(x + 3, y + j) as int,
        )
    }
}

/// A block of a plane under the pattern of a coefficient.
pub open spec fn pattern_sum(t: ForwardTransform, k: int, r: Raster<i16>, x: int, y: int) -> int {
    let two = row_part(t, k, 0, row_sum(t, k, r, x, y, 0)) + row_part(
        t,
        k,
        1,
        row_sum(t, k, r, x, y, 1),
    );
    if transform::transform_len(t) == 4 {
        two
    } else {
        two + row_part(t, k, 2, row_sum(t, k, r, x, y, 2)) + row_part(
            t,
            k,
            3,
            row_sum(t, k, r, x, y, 3),
        )
    }
}

proof fn lemma_block_small(r: Raster<i16>, x: int, y: int)
    ensures
        ({
            let s = transform::ints(blocks::block_of(r, x, y, 2));
            &&& s.len() == 4
            &&& s[0] == r.at(x, y) && s[1] == r.at(x + 1, y)
            &&& s[2] == r.at(x, y + 1) && s[3] == r.at(x + 1, y + 1)
        }),
{
}

proof fn lemma_block_large(r: Raster<i16>, x: int, y: int)
    ensures
        ({
            let s = transform::ints(blocks::block_of(r, x, y, 4));
            &&& s.len() == 16
            &&& s[0] == r.at(x, y) && s[1] == r.at(x + 1, y)
            &&& s[2] == r.at(x, y + 1) && s[3] == r.at(x + 1, y + 1)
            &&& s[4] == r.at(x + 2, y) && s[5] == r.at(x + 3, y)
            &&& s[6] == r.at(x + 2, y + 1) && s[7] == r.at(x + 3, y + 1)
            &&& s[8] == r.at(x, y + 2) && s[9] == r.at(x + 1, y + 2)
            &&& s[10] == r.at(x, y + 3) && s[11] == r.at(x + 1, y + 3)
            &&& s[12] == r.at(x + 2, y + 2) && s[13] == r.at(x + 3, y + 2)
            &&& s[14] == r.at(x + 2, y + 3) && s[15] == r.at(x + 3, y + 3)
        }),
{
}

/// Every coefficient is the sum of the samples of its block under its pattern.
pub proof fn law_coefficient_patterns(
    t: ForwardTransform,
    k: int,
    r: Raster<i16>,
    x: int,
    y: int,
    n: int,
)
    requires
        n == 2 || n == 4,
        transform::transform_len(t) == n * n,
        0 <= k < n * n,
    ensures
        transform::forward_of(t, blocks::block_of(r, x, y, n))[k] == pattern_sum(t, k, r, x, y),
{
    if n == 2 {
        lemma_block_small(r, x, y);
        if k == 0 {
        } else if k == 1 {
        } else if k == 2 {
        } else {
        }
    } else {
        lemma_block_large(r, x, y);
        lemma_large_pattern(t, k, r, x, y);
    }
}

proof fn lemma_large_pattern(t: ForwardTransform, k: int, r: Raster<i16>, x: int, y: int)
    requires
        transform::transform_len(t) == 16,
        0 <= k < 16,
    ensures
        transform::forward_of(t, blocks::block_of(r, x, y, 4))[k] == pattern_sum(t, k, r, x, y),
{
    lemma_block_large(r, x, y);
    if k / 4 == 0 {
        assert(k == 0 || k == 1 || k == 2 || k == 3);
    } else if k / 4 == 1 {
        assert(k == 4 || k == 5 || k == 6 || k == 7);
    } else if k / 4 == 2 {
        assert(k == 8 || k == 9 || k == 10 || k == 11);
    } else {
        assert(k == 12 || k == 13 || k == 14 || k == 15);
    }
}

/// The filter weakens the corners of a 4x4 block by the strength of corners and the rest of its
/// border by the strength of sides, in sixteenths and rounded down. The middle stays.
pub proof fn law_filter_weakens_border(
    r: Seq<i16>,
    corner: int,
    side: int,
    x: int,
    y: int,
)
    requires
        r.len() == 16,
        0 <= corner < 16,
        0 <= side < 16,
        0 <= x < 4,
        0 <= y < 4,
    ensures
        ({
            let i = transform::index_at(4, x, y);
            let v = quant::filtered(r, corner, side)[i] as int;
            let on_column = x == 0 || x == 3;
            let on_row = y == 0 || y == 3;
            let kept = if on_column && on_row {
                16 - corner
            } else if on_column || on_row {
                16 - side
            } else {
                16
            };
            &&& 16 * v <= r[i] * kept < 16 * v + 16
            &&& !on_column && !on_row ==> v == r[i]
        }),
{
    let i = transform::index_at(4, x, y);
    let w = quant::filter_weight(i, corner, side);
    if x == 0 {
    } else if x == 1 {
    } else if x == 2 {
    } else {
    }
    if y == 0 {
    } else if y == 1 {
    } else if y == 2 {
    } else {
    }
    let v = r[i] as int;
    assert(-32768 * 16 <= v * w <= 32767 * 16) by (nonlinear_arith)
        requires
            -32768 <= v <= 32767,
            0 <= w <= 16,
    ;
}

/// A plane that has, in a block, what is missing from a prediction to a target.
pub open spec fn differs_in(
    d: Raster<i16>,
    target: Raster<i16>,
    pred: Raster<i16>,
    x: int,
    y: int,
    n: int,
) -> bool {
    forall|px: int, py: int|
        x <= px < x + n && y <= py < y + n ==> #[trigger] d.at(px, py) == target.at(px, py)
            - pred.at(px, py)
}

/// The block of what is missing is the residual block.
proof fn lemma_missing_block(
    d: Raster<i16>,
    target: Raster<i16>,
    pred: Raster<i16>,
    x: int,
    y: int,
    n: int,
)
    requires
        n == 2 || n == 4,
        differs_in(d, target, pred, x, y, n),
    ensures
        blocks::residual_between(
            blocks::block_of(target, x, y, n),
            blocks::block_of(pred, x, y, n),
        ) == blocks::block_of(d, x, y, n),
{
    let r = blocks::residual_between(
        blocks::block_of(target, x, y, n),
        blocks::block_of(pred, x, y, n),
    );
    let b = blocks::block_of(d, x, y, n);
    assert forall|i: int| 0 <= i < n * n implies r[i] == b[i] by {
        transform::law_residual_layout(n, 0, 0, i);
        let (dx, dy) = transform::position_at(n, i);
        assert(d.at(x + dx, y + dy) == target.at(x + dx, y + dy) - pred.at(x + dx, y + dy));
    }
    assert(r =~= b);
}

/// The energy of a layer grows with every TU by the square of its coefficient: the sum of what is
/// missing in the block under the pattern of the layer.
pub proof fn law_energy_of_tu(
    m: LoqModel,
    d: Raster<i16>,
    recon: Raster<i16>,
    tb: Raster<i16>,
    energy: Seq<u128>,
    x: int,
    y: int,
    l: int,
)
    requires
        m.mode != TuMode::Predicted,
        m.side == 2 || m.side == 4,
        transform::transform_len(m.forward) == m.side * m.side,
        differs_in(d, m.target, m.pred, x, y, m.side),
        energy.len() == 16,
        energy[l] <= 0x100_0000_0000_0000_0000_0000_0000_0000,
        0 <= l < m.side * m.side,
    ensures
        ({
            let c = pattern_sum(m.forward, l, d, x, y);
            coding::tu_outcome(m, recon, tb, energy, x, y).energy[l] == energy[l] + c * c
        }),
{
    reveal(coding::tu_outcome);
    let n = m.side;
    lemma_missing_block(d, m.target, m.pred, x, y, n);
    let block = blocks::block_of(d, x, y, n);
    law_coefficient_patterns(m.forward, l, d, x, y, n);
    transform::lemma_forward_bound(m.forward, block);
    let c = transform::forward_of(m.forward, block)[l];
    assert(0 <= c * c <= 0x400_0000_0000) by (nonlinear_arith)
        requires
            -0x20_0000 <= c <= 0x20_0000,
    ;
}

} // verus!
