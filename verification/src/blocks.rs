//! Transform blocks of fixed-point planes, as sequences in the residual layout: reading, writing
//! and comparing them.
use crate::frame;
use crate::frame::{PlaneS16, Raster};
use crate::transform;
use crate::upscale;
use vstd::prelude::*;

verus! {

/// The values of the `n`x`n` block at (x, y), in the residual layout.
pub open spec fn block_of(r: Raster<i16>, x: int, y: int, n: int) -> Seq<i16> {
    Seq::new(
        (n * n) as nat,
        |i: int| r.at(x + transform::position_at(n, i).0, y + transform::position_at(n, i).1),
    )
}

/// The plane with the block at (x, y) replaced.
pub open spec fn with_block(r: Raster<i16>, x: int, y: int, n: int, values: Seq<i16>) -> Raster<
    i16,
> {
    upscale::raster_of(
        r.width,
        r.height,
        |px: int, py: int|
            if x <= px < x + n && y <= py < y + n {
                values[transform::index_at(n, px - x, py - y)]
            } else {
                r.at(px, py)
            },
    )
}

/// What is missing from a prediction to a target, value by value.
pub open spec fn residual_between(target: Seq<i16>, pred: Seq<i16>) -> Seq<i16> {
    Seq::new(target.len(), |i: int| frame::clamp16(target[i] - pred[i]) as i16)
}

/// What is missing from the sum of two predictions to a target, value by value.
pub open spec fn residual_between_sum(target: Seq<i16>, pred: Seq<i16>, more: Seq<i16>) -> Seq<
    i16,
> {
    Seq::new(target.len(), |i: int| frame::clamp16(target[i] - (pred[i] + more[i])) as i16)
}

/// The sum of two blocks, value by value, with saturation.
pub open spec fn saturated_sum(a: Seq<i16>, b: Seq<i16>) -> Seq<i16> {
    Seq::new(a.len(), |i: int| frame::clamp16(a[i] + b[i]) as i16)
}

/// The squared error of a prediction and a residual over the first `k` values of a block.
pub open spec fn squared_error(pred: Seq<i16>, residual: Seq<i16>, target: Seq<i16>, k: int) -> int
    decreases k,
{
    if k <= 0 {
        0
    } else {
        squared_error(pred, residual, target, k - 1) + (pred[k - 1] + residual[k - 1]
            - target[k - 1]) * (pred[k - 1] + residual[k - 1] - target[k - 1])
    }
}

/// A block size with the whole block inside the plane.
pub open spec fn inside<A>(r: Raster<A>, x: int, y: int, n: int) -> bool {
    &&& r.wf()
    &&& n == 2 || n == 4
    &&& 0 <= x && x + n <= r.width
    &&& 0 <= y && y + n <= r.height
}

/// Two planes with the same values at the same positions are the same.
pub proof fn lemma_raster_equal<A>(a: Raster<A>, b: Raster<A>)
    requires
        a.wf(),
        b.wf(),
        a.width == b.width,
        a.height == b.height,
        forall|x: int, y: int| #[trigger] a.has(x, y) ==> a.at(x, y) == b.at(x, y),
    ensures
        a == b,
{
    assert forall|i: int| 0 <= i < a.data.len() implies a.data[i] == b.data[i] by {
        let w = a.width;
        assert(w > 0) by (nonlinear_arith)
            requires
                0 <= i < w * a.height,
                w >= 0,
                a.height >= 0,
        ;
        vstd::arithmetic::div_mod::lemma_fundamental_div_mod(i, w);
        vstd::arithmetic::div_mod::lemma_mod_bound(i, w);
        let x = i % w;
        let y = i / w;
        assert(0 <= y < a.height) by (nonlinear_arith)
            requires
                i == w * y + x,
                0 <= x < w,
                0 <= i < w * a.height,
        ;
        assert(y * w + x == i) by (nonlinear_arith)
            requires
                i == w * y + x,
        ;
        assert(a.has(x, y));
    }
    assert(a.data =~= b.data);
}

/// A plane after a block was replaced, at every position.
pub proof fn lemma_with_block(r: Raster<i16>, x: int, y: int, n: int, values: Seq<i16>)
    requires
        r.wf(),
    ensures
        with_block(r, x, y, n, values).wf(),
        with_block(r, x, y, n, values).width == r.width,
        with_block(r, x, y, n, values).height == r.height,
        forall|px: int, py: int| #[trigger]
            r.has(px, py) ==> with_block(r, x, y, n, values).at(px, py) == (if x <= px < x + n && y
                <= py < y + n {
                values[transform::index_at(n, px - x, py - y)]
            } else {
                r.at(px, py)
            }),
{
    let f = |px: int, py: int|
        if x <= px < x + n && y <= py < y + n {
            values[transform::index_at(n, px - x, py - y)]
        } else {
            r.at(px, py)
        };
    upscale::lemma_raster_of(r.width, r.height, f);
    assert forall|px: int, py: int| #[trigger] r.has(px, py) implies with_block(
        r,
        x,
        y,
        n,
        values,
    ).at(px, py) == (if x <= px < x + n && y <= py < y + n {
        values[transform::index_at(n, px - x, py - y)]
    } else {
        r.at(px, py)
    }) by {
        assert(upscale::raster_of(r.width, r.height, f).at(px, py) == f(px, py));
    }
}

/// The block that was written is the block that is read.
pub proof fn lemma_block_of_with(r: Raster<i16>, x: int, y: int, n: int, values: Seq<i16>)
    requires
        inside(r, x, y, n),
        values.len() == n * n,
    ensures
        block_of(with_block(r, x, y, n, values), x, y, n) == values,
{
    lemma_with_block(r, x, y, n, values);
    let out = with_block(r, x, y, n, values);
    assert forall|i: int| 0 <= i < values.len() implies block_of(out, x, y, n)[i]
        == values[i] by {
        transform::law_residual_layout(n, 0, 0, i);
        let (px, py) = transform::position_at(n, i);
        assert(r.has(x + px, y + py));
    }
    assert(block_of(out, x, y, n) =~= values);
}

/// The block at (x, y), in the residual layout.
pub fn read_block(plane: &PlaneS16, x: usize, y: usize, n: usize) -> (values: Vec<i16>)
    requires
        inside(plane@, x as int, y as int, n as int),
    ensures
        values@ == block_of(plane@, x as int, y as int, n as int),
        values@.len() == n * n,
{
    let total: usize = if n == 2 {
        4
    } else {
        16
    };
    let mut values: Vec<i16> = Vec::new();
    let mut i: usize = 0;
    while i < total
        invariant
            i <= total,
            total == n * n,
            inside(plane@, x as int, y as int, n as int),
            values@.len() == i,
            forall|k: int|
                0 <= k < i ==> #[trigger] values@[k] == block_of(
                    plane@,
                    x as int,
                    y as int,
                    n as int,
                )[k],
        decreases total - i,
    {
        proof {
            transform::law_residual_layout(n as int, 0, 0, i as int);
        }
        let (px, py) = transform::residual_position(n, i);
        values.push(plane.get(x + px, y + py));
        i = i + 1;
    }
    assert(values@ =~= block_of(plane@, x as int, y as int, n as int));
    values
}

/// Overwrite a block of a plane (temporal buffer intra update).
pub fn set_block(plane: &mut PlaneS16, x: usize, y: usize, n: usize, values: &Vec<i16>)
    requires
        inside(old(plane)@, x as int, y as int, n as int),
        values@.len() == n * n,
    ensures
        final(plane)@ == with_block(old(plane)@, x as int, y as int, n as int, values@),
        inside(final(plane)@, x as int, y as int, n as int),
        final(plane)@.width == old(plane)@.width,
        final(plane)@.height == old(plane)@.height,
{
    let ghost before = plane@;
    let ghost bx = x as int;
    let ghost by = y as int;
    let ghost s = n as int;
    let total: usize = if n == 2 {
        4
    } else {
        16
    };
    let mut i: usize = 0;
    while i < total
        invariant
            i <= total,
            total == n * n,
            values@.len() == total,
            bx == x,
            by == y,
            s == n,
            inside(before, bx, by, s),
            plane@.wf(),
            plane@.width == before.width,
            plane@.height == before.height,
            forall|px: int, py: int| #[trigger]
                before.has(px, py) ==> plane@.at(px, py) == (if bx <= px < bx + s && by <= py < by
                    + s && transform::index_at(s, px - bx, py - by) < i {
                    values@[transform::index_at(s, px - bx, py - by)]
                } else {
                    before.at(px, py)
                }),
        decreases total - i,
    {
        proof {
            transform::law_residual_layout(s, 0, 0, i as int);
        }
        let ghost here = plane@;
        let (dx, dy) = transform::residual_position(n, i);
        plane.set(x + dx, y + dy, values[i]);
        proof {
            frame::lemma_with(here, x + dx, y + dy, values@[i as int]);
            assert forall|px: int, py: int| #[trigger] before.has(px, py) implies plane@.at(px, py)
                == (if bx <= px < bx + s && by <= py < by + s && transform::index_at(
                s,
                px - bx,
                py - by,
            ) < i + 1 {
                values@[transform::index_at(s, px - bx, py - by)]
            } else {
                before.at(px, py)
            }) by {
                assert(here.has(px, py));
                if bx <= px < bx + s && by <= py < by + s {
                    transform::law_residual_layout(s, px - bx, py - by, i as int);
                }
            }
        }
        i = i + 1;
    }
    proof {
        lemma_with_block(before, bx, by, s, values@);
        let out = with_block(before, bx, by, s, values@);
        assert forall|px: int, py: int| #[trigger] plane@.has(px, py) implies plane@.at(px, py)
            == out.at(px, py) by {
            assert(before.has(px, py));
            if bx <= px < bx + s && by <= py < by + s {
                lemma_index_inside(s, px - bx, py - by);
            }
        }
        lemma_raster_equal(plane@, out);
    }
}

pub proof fn lemma_index_inside(n: int, x: int, y: int)
    requires
        n == 2 || n == 4,
        0 <= x < n,
        0 <= y < n,
    ensures
        0 <= transform::index_at(n, x, y) < n * n,
{
    if n == 4 {
        assert(x / 2 <= 1 && y / 2 <= 1);
    }
}

/// The sum of two blocks with saturation.
pub fn add_values(a: &Vec<i16>, b: &Vec<i16>) -> (sum: Vec<i16>)
    requires
        a@.len() == b@.len(),
    ensures
        sum@ == saturated_sum(a@, b@),
        sum@.len() == a@.len(),
{
    let mut sum: Vec<i16> = Vec::new();
    let mut i: usize = 0;
    while i < a.len()
        invariant
            i <= a@.len() == b@.len(),
            sum@.len() == i,
            forall|k: int| 0 <= k < i ==> #[trigger] sum@[k] == saturated_sum(a@, b@)[k],
        decreases a@.len() - i,
    {
        sum.push(frame::clamp_i16(a[i] as i64 + b[i] as i64));
        i = i + 1;
    }
    assert(sum@ =~= saturated_sum(a@, b@));
    sum
}

/// The residual of a target against a prediction.
pub fn residual_of(target: &Vec<i16>, pred: &Vec<i16>) -> (r: Vec<i16>)
    requires
        target@.len() == pred@.len(),
    ensures
        r@ == residual_between(target@, pred@),
        r@.len() == target@.len(),
{
    let mut r: Vec<i16> = Vec::new();
    let mut i: usize = 0;
    while i < target.len()
        invariant
            i <= target@.len() == pred@.len(),
            r@.len() == i,
            forall|k: int| 0 <= k < i ==> #[trigger] r@[k] == residual_between(target@, pred@)[k],
        decreases target@.len() - i,
    {
        r.push(frame::clamp_i16(target[i] as i64 - pred[i] as i64));
        i = i + 1;
    }
    assert(r@ =~= residual_between(target@, pred@));
    r
}

/// The residual of a target against the sum of two predictions.
pub fn residual_of_sum(target: &Vec<i16>, pred: &Vec<i16>, more: &Vec<i16>) -> (r: Vec<i16>)
    requires
        target@.len() == pred@.len(),
        target@.len() == more@.len(),
    ensures
        r@ == residual_between_sum(target@, pred@, more@),
        r@.len() == target@.len(),
{
    let mut r: Vec<i16> = Vec::new();
    let mut i: usize = 0;
    while i < target.len()
        invariant
            i <= target@.len() == pred@.len(),
            target@.len() == more@.len(),
            r@.len() == i,
            forall|k: int|
                0 <= k < i ==> #[trigger] r@[k] == residual_between_sum(
                    target@,
                    pred@,
                    more@,
                )[k],
        decreases target@.len() - i,
    {
        r.push(frame::clamp_i16(target[i] as i64 - (pred[i] as i64 + more[i] as i64)));
        i = i + 1;
    }
    assert(r@ =~= residual_between_sum(target@, pred@, more@));
    r
}

/// SSE of a reconstructed block (prediction + residual) vs the target.
pub fn block_error(pred: &Vec<i16>, residual: &Vec<i16>, target: &Vec<i16>) -> (sse: u64)
    requires
        pred@.len() == residual@.len(),
        pred@.len() == target@.len(),
        pred@.len() <= 16,
    ensures
        sse == squared_error(pred@, residual@, target@, pred@.len() as int),
{
    let mut sse: u64 = 0;
    let mut i: usize = 0;
    while i < pred.len()
        invariant
            i <= pred@.len() <= 16,
            pred@.len() == residual@.len(),
            pred@.len() == target@.len(),
            sse == squared_error(pred@, residual@, target@, i as int),
            sse <= 0x4_0000_0000 * i,
        decreases pred@.len() - i,
    {
        let d: i64 = pred[i] as i64 + residual[i] as i64 - target[i] as i64;
        assert(0 <= d * d <= 0x4_0000_0000) by (nonlinear_arith)
            requires
                -0x1_8000 <= d <= 0x1_8000,
        ;
        sse = sse + (d * d) as u64;
        i = i + 1;
    }
    sse
}

/// SSE of a block of a plane, with a residual, vs the target.
pub fn block_sse(
    pred: &PlaneS16,
    x: usize,
    y: usize,
    tu_size: usize,
    residual: &Vec<i16>,
    target: &PlaneS16,
) -> (sse: u64)
    requires
        inside(pred@, x as int, y as int, tu_size as int),
        inside(target@, x as int, y as int, tu_size as int),
        residual@.len() == tu_size * tu_size,
    ensures
        sse == squared_error(
            block_of(pred@, x as int, y as int, tu_size as int),
            residual@,
            block_of(target@, x as int, y as int, tu_size as int),
            tu_size * tu_size,
        ),
{
    let p = read_block(pred, x, y, tu_size);
    let t = read_block(target, x, y, tu_size);
    assert(tu_size * tu_size <= 16) by (nonlinear_arith)
        requires
            tu_size == 2 || tu_size == 4,
    ;
    block_error(&p, residual, &t)
}

/// Add a reconstructed residual block to a plane (with saturation).
pub fn commit_residual(plane: &mut PlaneS16, x: usize, y: usize, tu_size: usize, residual: &Vec<i16>)
    requires
        inside(old(plane)@, x as int, y as int, tu_size as int),
        residual@.len() == tu_size * tu_size,
    ensures
        final(plane)@ == with_block(
            old(plane)@,
            x as int,
            y as int,
            tu_size as int,
            saturated_sum(block_of(old(plane)@, x as int, y as int, tu_size as int), residual@),
        ),
        inside(final(plane)@, x as int, y as int, tu_size as int),
        final(plane)@.width == old(plane)@.width,
        final(plane)@.height == old(plane)@.height,
{
    let here = read_block(plane, x, y, tu_size);
    let sum = add_values(&here, residual);
    set_block(plane, x, y, tu_size, &sum);
}

/// Add a residual block to a plane (temporal buffer inter update).
pub fn add_block(plane: &mut PlaneS16, x: usize, y: usize, tu_size: usize, residual: &Vec<i16>)
    requires
        inside(old(plane)@, x as int, y as int, tu_size as int),
        residual@.len() == tu_size * tu_size,
    ensures
        final(plane)@ == with_block(
            old(plane)@,
            x as int,
            y as int,
            tu_size as int,
            saturated_sum(block_of(old(plane)@, x as int, y as int, tu_size as int), residual@),
        ),
        inside(final(plane)@, x as int, y as int, tu_size as int),
        final(plane)@.width == old(plane)@.width,
        final(plane)@.height == old(plane)@.height,
{
    commit_residual(plane, x, y, tu_size, residual);
}

/// Set a block of the reconstruction to the prediction plus the temporal buffer.
pub fn set_recon_from_tb(
    recon: &mut PlaneS16,
    pred: &PlaneS16,
    tb: &PlaneS16,
    x: usize,
    y: usize,
    tu_size: usize,
)
    requires
        inside(old(recon)@, x as int, y as int, tu_size as int),
        inside(pred@, x as int, y as int, tu_size as int),
        inside(tb@, x as int, y as int, tu_size as int),
    ensures
        final(recon)@ == with_block(
            old(recon)@,
            x as int,
            y as int,
            tu_size as int,
            saturated_sum(
                block_of(pred@, x as int, y as int, tu_size as int),
                block_of(tb@, x as int, y as int, tu_size as int),
            ),
        ),
        inside(final(recon)@, x as int, y as int, tu_size as int),
        final(recon)@.width == old(recon)@.width,
        final(recon)@.height == old(recon)@.height,
{
    let p = read_block(pred, x, y, tu_size);
    let t = read_block(tb, x, y, tu_size);
    let sum = add_values(&p, &t);
    set_block(recon, x, y, tu_size, &sum);
}

} // verus!
