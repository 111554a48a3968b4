//! Upscaling.
//!
//! The upscaler operates on the signed fixed-point planes. Both the 1D (horizontal 2:1) and 2D
//! (both axes 2:1) variants clamp at the edges, convolve with the 4-tap kernel (two phases),
//! round `(acc + 0x2000) >> 14`, and optionally apply the predicted-average (PA) modification.
use crate::bitstream;
use crate::config::ScalingMode;
use crate::frame;
use crate::frame::{Plane, PlaneS16, Raster};
use vstd::prelude::*;

verus! {

/// The rectangle whose value at (x, y) is `f(x, y)`.
pub open spec fn raster_of<A>(width: int, height: int, f: spec_fn(int, int) -> A) -> Raster<A> {
    Raster {
        width,
        height,
        data: Seq::new((width * height) as nat, |i: int| f(i % width, i / width)),
    }
}

pub proof fn lemma_raster_of<A>(width: int, height: int, f: spec_fn(int, int) -> A)
    requires
        width >= 0,
        height >= 0,
    ensures
        raster_of(width, height, f).wf(),
        forall|x: int, y: int|
            0 <= x < width && 0 <= y < height ==> #[trigger] raster_of(width, height, f).at(x, y)
                == f(x, y),
{
    assert(width * height >= 0) by (nonlinear_arith)
        requires
            width >= 0,
            height >= 0,
    ;
    assert forall|x: int, y: int| 0 <= x < width && 0 <= y < height implies #[trigger] raster_of(
        width,
        height,
        f,
    ).at(x, y) == f(x, y) by {
        lemma_place(width, height, x, y);
    }
}

/// The column and the row of an index.
pub proof fn lemma_place(width: int, height: int, x: int, y: int)
    requires
        0 <= x < width,
        0 <= y < height,
    ensures
        (y * width + x) % width == x,
        (y * width + x) / width == y,
        0 <= y * width + x < width * height,
{
    frame::lemma_index(width, height, x, y);
    vstd::arithmetic::div_mod::lemma_fundamental_div_mod_converse(y * width + x, width, y, x);
}

/// The source value nearest to a position, which may lie outside.
pub open spec fn pel(src: Raster<i16>, x: int, y: int) -> int {
    src.at(frame::clamp(x, 0, src.width - 1), frame::clamp(y, 0, src.height - 1)) as int
}

/// One phase of the kernel over five neighbours; the middle one is the source position.
pub open spec fn taps(k: Seq<i16>, phase: int, a: int, b: int, c: int, d: int, e: int) -> int {
    let acc = if phase == 0 {
        a * k[3] + b * k[2] + c * k[1] + d * k[0]
    } else {
        b * k[0] + c * k[1] + d * k[2] + e * k[3]
    };
    frame::clamp((acc + 0x2000) / 16384, -16384, 16383)
}

/// A row at twice the width, at column `x`.
pub open spec fn doubled(k: Seq<i16>, f: spec_fn(int) -> int, x: int) -> int {
    let s = x / 2;
    taps(k, x % 2, f(s - 2), f(s - 1), f(s), f(s + 1), f(s + 2))
}

/// The horizontally upscaled plane before the predicted average.
#[verifier::opaque]
pub open spec fn wide_raw(src: Raster<i16>, k: Seq<i16>, x: int, y: int) -> int {
    doubled(k, |c: int| pel(src, c, y), x)
}

/// The horizontally upscaled plane.
pub open spec fn wide_pel(src: Raster<i16>, k: Seq<i16>, pa: bool, x: int, y: int) -> int {
    let v = wide_raw(src, k, x, y);
    if pa {
        let s = x / 2;
        let mean = (wide_raw(src, k, 2 * s, y) + wide_raw(src, k, 2 * s + 1, y) + 1) / 2;
        frame::clamp16(v + (pel(src, s, y) - mean))
    } else {
        v
    }
}

pub open spec fn upscaled_1d(src: Raster<i16>, k: Seq<i16>, pa: bool) -> Raster<i16> {
    raster_of(2 * src.width, src.height, |x: int, y: int| wide_pel(src, k, pa, x, y) as i16)
}

/// A column at twice the height, at row `y`.
pub open spec fn tall_raw(src: Raster<i16>, k: Seq<i16>, c: int, y: int) -> int {
    doubled(k, |r: int| pel(src, c, r), y)
}

/// The plane upscaled on both axes before the predicted average.
#[verifier::opaque]
pub open spec fn both_raw(src: Raster<i16>, k: Seq<i16>, x: int, y: int) -> int {
    doubled(k, |c: int| tall_raw(src, k, c, y), x)
}

/// What the predicted average adds to the four values of a block: the distance of their mean
/// from the source value.
pub open spec fn block_shift(src: Raster<i16>, k: Seq<i16>, s: int, t: int) -> int {
    let sum = both_raw(src, k, 2 * s, 2 * t) + both_raw(src, k, 2 * s + 1, 2 * t) + both_raw(
        src,
        k,
        2 * s,
        2 * t + 1,
    ) + both_raw(src, k, 2 * s + 1, 2 * t + 1);
    pel(src, s, t) - (sum + 2) / 4
}

/// The plane upscaled on both axes.
pub open spec fn both_pel(src: Raster<i16>, k: Seq<i16>, pa: bool, x: int, y: int) -> int {
    let v = both_raw(src, k, x, y);
    if pa {
        frame::clamp16(v + block_shift(src, k, x / 2, y / 2))
    } else {
        v
    }
}

pub open spec fn upscaled_2d(src: Raster<i16>, k: Seq<i16>, pa: bool) -> Raster<i16> {
    raster_of(2 * src.width, 2 * src.height, |x: int, y: int| both_pel(src, k, pa, x, y) as i16)
}

/// The upscaled plane for a scaling mode.
pub open spec fn upscaled(src: Raster<i16>, mode: ScalingMode, k: Seq<i16>, pa: bool) -> Raster<
    i16,
> {
    match mode {
        ScalingMode::Scale0D => src,
        ScalingMode::Scale1D => upscaled_1d(src, k, pa),
        ScalingMode::Scale2D => upscaled_2d(src, k, pa),
    }
}

/// The nearest-neighbour kernel copies every source value twice along a row, and into a 2x2
/// block where both axes are doubled. It holds for values that fit the 15 bits of the
/// convolution.
pub proof fn law_nearest_copies(src: Raster<i16>, k: Seq<i16>, x: int, y: int)
    requires
        src.wf(),
        k.len() == 4 && k[0] == 0 && k[1] == 16384 && k[2] == 0 && k[3] == 0,
        forall|i: int| 0 <= i < src.data.len() ==> -16384 <= #[trigger] src.data[i] <= 16383,
        0 <= x < 2 * src.width,
    ensures
        0 <= y < src.height ==> upscaled_1d(src, k, false).at(x, y) == src.at(x / 2, y),
        0 <= y < 2 * src.height ==> upscaled_2d(src, k, false).at(x, y) == src.at(x / 2, y / 2),
{
    reveal(wide_raw);
    reveal(both_raw);
    if 0 <= y < src.height {
        frame::lemma_index(src.width, src.height, x / 2, y);
        assert(pel(src, x / 2, y) == src.at(x / 2, y));
        assert(wide_pel(src, k, false, x, y) == src.at(x / 2, y));
        lemma_raster_of(
            2 * src.width,
            src.height,
            |x: int, y: int| wide_pel(src, k, false, x, y) as i16,
        );
    }
    if 0 <= y < 2 * src.height {
        frame::lemma_index(src.width, src.height, x / 2, y / 2);
        assert(pel(src, x / 2, y / 2) == src.at(x / 2, y / 2));
        assert(tall_raw(src, k, x / 2, y) == src.at(x / 2, y / 2));
        assert(both_pel(src, k, false, x, y) == src.at(x / 2, y / 2));
        lemma_raster_of(
            2 * src.width,
            2 * src.height,
            |x: int, y: int| both_pel(src, k, false, x, y) as i16,
        );
    }
}

proof fn lemma_flat_taps(k: Seq<i16>, phase: int, v: int)
    requires
        k[0] + k[1] + k[2] + k[3] == 16384,
        -16384 <= v <= 16383,
    ensures
        taps(k, phase, v, v, v, v, v) == v,
{
    let sum = k[0] + k[1] + k[2] + k[3];
    assert(v * k[3] + v * k[2] + v * k[1] + v * k[0] == v * sum) by (nonlinear_arith)
        requires
            sum == k[0] + k[1] + k[2] + k[3],
    ;
    assert((v * 16384 + 0x2000) / 16384 == v);
}

/// A flat plane stays flat in every scaling mode, with the predicted average or without, under
/// a kernel whose taps add up to one (16384) and for a value of 15 bits.
pub proof fn law_flat_stays_flat(
    src: Raster<i16>,
    mode: ScalingMode,
    k: Seq<i16>,
    pa: bool,
    v: i16,
    x: int,
    y: int,
)
    requires
        src.wf(),
        forall|i: int| 0 <= i < src.data.len() ==> #[trigger] src.data[i] == v,
        k[0] + k[1] + k[2] + k[3] == 16384,
        -16384 <= v <= 16383,
        0 <= x < upscaled(src, mode, k, pa).width,
        0 <= y < upscaled(src, mode, k, pa).height,
    ensures
        upscaled(src, mode, k, pa).at(x, y) == v,
{
    assert(src.width > 0 && src.height > 0);
    assert forall|c: int, r: int| #[trigger] pel(src, c, r) == v by {
        let cx = frame::clamp(c, 0, src.width - 1);
        let cy = frame::clamp(r, 0, src.height - 1);
        frame::lemma_index(src.width, src.height, cx, cy);
    }
    lemma_flat_taps(k, 0, v as int);
    lemma_flat_taps(k, 1, v as int);
    assert(forall|c: int, r: int| #[trigger] wide_raw(src, k, c, r) == v) by {
        reveal(wide_raw);
    }
    assert(forall|c: int, r: int| #[trigger] tall_raw(src, k, c, r) == v);
    assert(forall|c: int, r: int| #[trigger] both_raw(src, k, c, r) == v) by {
        reveal(both_raw);
    }
    match mode {
        ScalingMode::Scale0D => {
            frame::lemma_index(src.width, src.height, x, y);
        },
        ScalingMode::Scale1D => {
            lemma_raster_of(
                2 * src.width,
                src.height,
                |x: int, y: int| wide_pel(src, k, pa, x, y) as i16,
            );
        },
        ScalingMode::Scale2D => {
            lemma_raster_of(
                2 * src.width,
                2 * src.height,
                |x: int, y: int| both_pel(src, k, pa, x, y) as i16,
            );
        },
    }
}

/// Under the predicted average, the values that stand for one source value average to it: the
/// two of a row, for a source value of 15 bits, and the four of a block, where none of them
/// saturates.
pub proof fn law_predicted_average(src: Raster<i16>, k: Seq<i16>, s: int, t: int)
    ensures
        -16384 <= pel(src, s, t) <= 16383 ==> (wide_pel(src, k, true, 2 * s, t) + wide_pel(
            src,
            k,
            true,
            2 * s + 1,
            t,
        ) + 1) / 2 == pel(src, s, t),
        (forall|i: int, j: int|
            0 <= i <= 1 && 0 <= j <= 1 ==> -32768 <= #[trigger] both_raw(
                src,
                k,
                2 * s + i,
                2 * t + j,
            ) + block_shift(src, k, s, t) <= 32767) ==> (both_pel(src, k, true, 2 * s, 2 * t)
            + both_pel(src, k, true, 2 * s + 1, 2 * t) + both_pel(src, k, true, 2 * s, 2 * t + 1)
            + both_pel(src, k, true, 2 * s + 1, 2 * t + 1) + 2) / 4 == pel(src, s, t),
{
    assert(forall|x: int| -16384 <= #[trigger] wide_raw(src, k, x, t) <= 16383) by {
        reveal(wide_raw);
    }
    let shift = block_shift(src, k, s, t);
    if forall|i: int, j: int|
        0 <= i <= 1 && 0 <= j <= 1 ==> -32768 <= #[trigger] both_raw(src, k, 2 * s + i, 2 * t + j)
            + shift <= 32767 {
        assert(-32768 <= both_raw(src, k, 2 * s + 0, 2 * t + 0) + shift <= 32767);
        assert(-32768 <= both_raw(src, k, 2 * s + 1, 2 * t + 0) + shift <= 32767);
        assert(-32768 <= both_raw(src, k, 2 * s + 0, 2 * t + 1) + shift <= 32767);
        assert(-32768 <= both_raw(src, k, 2 * s + 1, 2 * t + 1) + shift <= 32767);
    }
}

/// `sum / 16384`, rounded to the nearest number, halves up, and limited to 15 bits.
pub open spec fn rounded(sum: int) -> int {
    frame::clamp((sum + 8192) / 16384, -16384, 16383)
}

/// Columns of a plane at twice their height: row `2t` is made of rows `t - 2` to `t + 1` with the
/// taps of the kernel backwards, row `2t + 1` of rows `t - 1` to `t + 2` with its taps in order.
/// Rows beyond the plane repeat its first or last one.
pub open spec fn columns_doubled(v: Raster<i16>, src: Raster<i16>, k: Seq<i16>) -> bool {
    &&& v.wf()
    &&& v.width == src.width
    &&& v.height == 2 * src.height
    &&& forall|c: int, y: int|
        0 <= c < src.width && 0 <= y < 2 * src.height ==> {
            let t = y / 2;
            let row = |r: int| src.at(c, frame::clamp(r, 0, src.height - 1)) as int;
            (#[trigger] v.at(c, y)) == rounded(
                if y % 2 == 0 {
                    row(t - 2) * k[3] + row(t - 1) * k[2] + row(t) * k[1] + row(t + 1) * k[0]
                } else {
                    row(t - 1) * k[0] + row(t) * k[1] + row(t + 1) * k[2] + row(t + 2) * k[3]
                },
            )
        }
}

/// A row at twice its width: column `2s` is made of columns `s - 2` to `s + 1` with the taps of
/// the kernel backwards, column `2s + 1` of columns `s - 1` to `s + 2` with its taps in order.
/// Columns beyond the plane repeat its first or last one.
pub proof fn law_rows_doubled(src: Raster<i16>, k: Seq<i16>, s: int, y: int)
    requires
        src.wf(),
        0 <= s < src.width,
        0 <= y < src.height,
    ensures
        ({
            let col = |c: int| src.at(frame::clamp(c, 0, src.width - 1), y) as int;
            let d = upscaled_1d(src, k, false);
            &&& d.width == 2 * src.width && d.height == src.height
            &&& d.at(2 * s, y) == rounded(
                col(s - 2) * k[3] + col(s - 1) * k[2] + col(s) * k[1] + col(s + 1) * k[0],
            )
            &&& d.at(2 * s + 1, y) == rounded(
                col(s - 1) * k[0] + col(s) * k[1] + col(s + 1) * k[2] + col(s + 2) * k[3],
            )
        }),
{
    reveal(wide_raw);
    lemma_raster_of(
        2 * src.width,
        src.height,
        |x: int, y: int| wide_pel(src, k, false, x, y) as i16,
    );
    assert((2 * s) / 2 == s && (2 * s) % 2 == 0 && (2 * s + 1) / 2 == s && (2 * s + 1) % 2 == 1);
    let d = upscaled_1d(src, k, false);
    assert(d.at(2 * s, y) == wide_pel(src, k, false, 2 * s, y) as i16);
    assert(d.at(2 * s + 1, y) == wide_pel(src, k, false, 2 * s + 1, y) as i16);
}

/// To double a plane on both axes is to double its columns, and then the rows of what comes of
/// it.
pub proof fn law_columns_then_rows(src: Raster<i16>, v: Raster<i16>, k: Seq<i16>)
    requires
        src.wf(),
        src.width > 0,
        src.height > 0,
        columns_doubled(v, src, k),
    ensures
        upscaled_2d(src, k, false) == upscaled_1d(v, k, false),
{
    let both = upscaled_2d(src, k, false);
    let wide = upscaled_1d(v, k, false);
    lemma_raster_of(
        2 * src.width,
        2 * src.height,
        |x: int, y: int| both_pel(src, k, false, x, y) as i16,
    );
    assert forall|c: int, y: int| 0 <= y < 2 * src.height implies #[trigger] tall_raw(
        src,
        k,
        frame::clamp(c, 0, src.width - 1),
        y,
    ) == pel(v, c, y) by {
        let cx = frame::clamp(c, 0, src.width - 1);
        assert(v.at(cx, y) == pel(v, c, y));
    }
    assert forall|c: int, y: int| #[trigger] tall_raw(src, k, c, y) == tall_raw(
        src,
        k,
        frame::clamp(c, 0, src.width - 1),
        y,
    ) by {
        assert(forall|r: int| pel(src, c, r) == pel(src, frame::clamp(c, 0, src.width - 1), r));
    }
    assert forall|x: int, y: int|
        0 <= x < 2 * src.width && 0 <= y < 2 * src.height implies both_pel(src, k, false, x, y)
        == wide_pel(v, k, false, x, y) by {
        reveal(wide_raw);
        reveal(both_raw);
        let s = x / 2;
        assert(tall_raw(src, k, s - 2, y) == pel(v, s - 2, y));
        assert(tall_raw(src, k, s - 1, y) == pel(v, s - 1, y));
        assert(tall_raw(src, k, s, y) == pel(v, s, y));
        assert(tall_raw(src, k, s + 1, y) == pel(v, s + 1, y));
        assert(tall_raw(src, k, s + 2, y) == pel(v, s + 2, y));
    }
    assert forall|i: int| 0 <= i < both.data.len() implies both.data[i] == wide.data[i] by {
        let w = 2 * src.width;
        let h = 2 * src.height;
        assert(0 <= i % w < w && 0 <= i / w < h) by (nonlinear_arith)
            requires
                0 <= i < w * h,
                w > 0,
        ;
    }
    assert(both.data =~= wide.data);
}

/// On a plane whose rows are constant, doubling both axes doubles the column of row values as
/// doubling a row does: both axes are treated alike. It takes a kernel whose taps add up to one
/// (16384).
pub proof fn law_axes_alike(
    src: Raster<i16>,
    column: Raster<i16>,
    k: Seq<i16>,
    x: int,
    y: int,
)
    requires
        src.wf(),
        column.wf(),
        column.width == src.height,
        column.height == 1,
        forall|c: int, r: int|
            0 <= c < src.width && 0 <= r < src.height ==> #[trigger] src.at(c, r) == column.at(
                r,
                0,
            ),
        k[0] + k[1] + k[2] + k[3] == 16384,
        0 <= x < 2 * src.width,
        0 <= y < 2 * src.height,
    ensures
        upscaled_2d(src, k, false).at(x, y) == upscaled_1d(column, k, false).at(y, 0),
{
    lemma_raster_of(
        2 * src.width,
        2 * src.height,
        |x: int, y: int| both_pel(src, k, false, x, y) as i16,
    );
    lemma_raster_of(
        2 * column.width,
        1,
        |x: int, y: int| wide_pel(column, k, false, x, y) as i16,
    );
    let v = wide_raw(column, k, y, 0);
    assert forall|c: int| #[trigger] tall_raw(src, k, c, y) == v by {
        reveal(wide_raw);
        assert forall|r: int| #[trigger] pel(src, c, r) == pel(column, r, 0) by {
            let cx = frame::clamp(c, 0, src.width - 1);
            let cy = frame::clamp(r, 0, src.height - 1);
            assert(src.at(cx, cy) == column.at(cy, 0));
        }
        let t = y / 2;
        assert(pel(src, c, t - 2) == pel(column, t - 2, 0));
        assert(pel(src, c, t - 1) == pel(column, t - 1, 0));
        assert(pel(src, c, t) == pel(column, t, 0));
        assert(pel(src, c, t + 1) == pel(column, t + 1, 0));
        assert(pel(src, c, t + 2) == pel(column, t + 2, 0));
    }
    assert(-16384 <= v <= 16383) by {
        reveal(wide_raw);
    }
    lemma_flat_taps(k, x % 2, v);
    assert(both_raw(src, k, x, y) == v) by {
        reveal(both_raw);
        let s = x / 2;
        assert(tall_raw(src, k, s - 2, y) == v);
        assert(tall_raw(src, k, s - 1, y) == v);
        assert(tall_raw(src, k, s, y) == v);
        assert(tall_raw(src, k, s + 1, y) == v);
        assert(tall_raw(src, k, s + 2, y) == v);
    }
}

/// The predicted average moves the values that stand for one source value by one amount: the
/// differences between them are those of the plain upscaling, where none of them saturates.
pub proof fn law_average_moves_blocks(
    src: Raster<i16>,
    k: Seq<i16>,
    s: int,
    t: int,
    i: int,
    j: int,
)
    requires
        src.wf(),
        0 <= s < src.width,
        0 <= t < src.height,
        0 <= i <= 1,
        0 <= j <= 1,
    ensures
        ({
            let moved = upscaled_1d(src, k, true);
            let plain = upscaled_1d(src, k, false);
            -32768 < moved.at(2 * s, t) < 32767 && -32768 < moved.at(2 * s + i, t) < 32767
                ==> moved.at(2 * s + i, t) - moved.at(2 * s, t) == plain.at(2 * s + i, t)
                - plain.at(2 * s, t)
        }),
        ({
            let moved = upscaled_2d(src, k, true);
            let plain = upscaled_2d(src, k, false);
            -32768 < moved.at(2 * s, 2 * t) < 32767 && -32768 < moved.at(2 * s + i, 2 * t + j)
                < 32767 ==> moved.at(2 * s + i, 2 * t + j) - moved.at(2 * s, 2 * t) == plain.at(
                2 * s + i,
                2 * t + j,
            ) - plain.at(2 * s, 2 * t)
        }),
{
    lemma_raster_of(2 * src.width, src.height, |x: int, y: int| wide_pel(src, k, true, x, y) as i16);
    lemma_raster_of(2 * src.width, src.height, |x: int, y: int| wide_pel(src, k, false, x, y) as i16);
    lemma_raster_of(
        2 * src.width,
        2 * src.height,
        |x: int, y: int| both_pel(src, k, true, x, y) as i16,
    );
    lemma_raster_of(
        2 * src.width,
        2 * src.height,
        |x: int, y: int| both_pel(src, k, false, x, y) as i16,
    );
    assert(forall|x: int, y: int| -16384 <= #[trigger] wide_raw(src, k, x, y) <= 16383) by {
        reveal(wide_raw);
    }
    assert(forall|x: int, y: int| -16384 <= #[trigger] both_raw(src, k, x, y) <= 16383) by {
        reveal(both_raw);
    }
    assert((2 * s + i) / 2 == s && (2 * t + j) / 2 == t && (2 * s) / 2 == s && (2 * t) / 2 == t);
}

/// Dimensions that can be doubled.
pub open spec fn scalable<A>(src: Raster<A>) -> bool {
    src.wf() && src.width <= 0x3fff_ffff && src.height <= 0x3fff_ffff
}

/// One phase of the kernel.
fn convolve(kernel: &[i16; 4], phase: usize, a: i16, b: i16, c: i16, d: i16, e: i16) -> (v: i16)
    requires
        phase <= 1,
    ensures
        v == taps(kernel@, phase as int, a as int, b as int, c as int, d as int, e as int),
{
    proof {
        lemma_product(a, kernel@[3]);
        lemma_product(b, kernel@[2]);
        lemma_product(c, kernel@[1]);
        lemma_product(d, kernel@[0]);
        lemma_product(b, kernel@[0]);
        lemma_product(d, kernel@[2]);
        lemma_product(e, kernel@[3]);
    }
    let acc: i64 = if phase == 0 {
        a as i64 * kernel[3] as i64 + b as i64 * kernel[2] as i64 + c as i64 * kernel[1] as i64
            + d as i64 * kernel[0] as i64
    } else {
        b as i64 * kernel[0] as i64 + c as i64 * kernel[1] as i64 + d as i64 * kernel[2] as i64
            + e as i64 * kernel[3] as i64
    };
    frame::clamp_i64(frame::floor_div(acc + 0x2000, 16384), -16384, 16383) as i16
}

proof fn lemma_product(a: i16, b: i16)
    ensures
        -0x4000_0000 <= a * b <= 0x4000_0000,
{
    assert(-0x4000_0000 <= a * b <= 0x4000_0000) by (nonlinear_arith)
        requires
            -0x8000 <= a <= 0x7fff,
            -0x8000 <= b <= 0x7fff,
    ;
}

/// A neighbour's coordinate, clamped at the edges.
fn neighbour(v: usize, offset: usize, n: usize) -> (r: usize)
    requires
        v < n <= 0x3fff_ffff,
        offset <= 4,
    ensures
        r == frame::clamp(v + offset - 2, 0, n - 1),
{
    let s: usize = v + offset;
    if s < 2 {
        0
    } else if s - 2 > n - 1 {
        n - 1
    } else {
        s - 2
    }
}

/// The source value nearest to a position `dx - 2`, `dy - 2` away.
fn load(src: &PlaneS16, x: usize, dx: usize, y: usize, dy: usize) -> (v: i16)
    requires
        scalable(src@),
        src@.has(x as int, y as int),
        dx <= 4,
        dy <= 4,
    ensures
        v == pel(src@, x + dx - 2, y + dy - 2),
{
    let sx: usize = neighbour(x, dx, src.width);
    let sy: usize = neighbour(y, dy, src.height);
    src.get(sx, sy)
}

/// The horizontally upscaled value at column `2 * x + phase`.
fn horizontal(src: &PlaneS16, kernel: &[i16; 4], x: usize, phase: usize, y: usize) -> (v: i16)
    requires
        scalable(src@),
        src@.has(x as int, y as int),
        phase <= 1,
    ensures
        v == wide_raw(src@, kernel@, 2 * x + phase, y as int),
{
    proof {
        reveal(wide_raw);
    }
    assert((2 * x + phase) / 2 == x && (2 * x + phase) % 2 == phase);
    convolve(
        kernel,
        phase,
        load(src, x, 0, y, 2),
        load(src, x, 1, y, 2),
        load(src, x, 2, y, 2),
        load(src, x, 3, y, 2),
        load(src, x, 4, y, 2),
    )
}

/// The vertically upscaled value of the column `dx - 2` away, at row `2 * y + phase`.
fn vertical(
    src: &PlaneS16,
    kernel: &[i16; 4],
    x: usize,
    dx: usize,
    y: usize,
    phase: usize,
) -> (v: i16)
    requires
        scalable(src@),
        src@.has(x as int, y as int),
        dx <= 4,
        phase <= 1,
    ensures
        v == tall_raw(src@, kernel@, x + dx - 2, 2 * y + phase),
{
    assert((2 * y + phase) / 2 == y && (2 * y + phase) % 2 == phase);
    convolve(
        kernel,
        phase,
        load(src, x, dx, y, 0),
        load(src, x, dx, y, 1),
        load(src, x, dx, y, 2),
        load(src, x, dx, y, 3),
        load(src, x, dx, y, 4),
    )
}

/// The value upscaled on both axes at (2 * x + px, 2 * y + py).
fn diagonal(
    src: &PlaneS16,
    kernel: &[i16; 4],
    x: usize,
    px: usize,
    y: usize,
    py: usize,
) -> (v: i16)
    requires
        scalable(src@),
        src@.has(x as int, y as int),
        px <= 1,
        py <= 1,
    ensures
        v == both_raw(src@, kernel@, 2 * x + px, 2 * y + py),
{
    proof {
        reveal(both_raw);
    }
    assert((2 * x + px) / 2 == x && (2 * x + px) % 2 == px);
    convolve(
        kernel,
        px,
        vertical(src, kernel, x, 0, y, py),
        vertical(src, kernel, x, 1, y, py),
        vertical(src, kernel, x, 2, y, py),
        vertical(src, kernel, x, 3, y, py),
        vertical(src, kernel, x, 4, y, py),
    )
}

/// One value of the horizontally upscaled plane.
fn pixel_1d(src: &PlaneS16, kernel: &[i16; 4], apply_pa: bool, x: usize, y: usize) -> (v: i16)
    requires
        scalable(src@),
        0 <= x < 2 * src@.width,
        0 <= y < src@.height,
    ensures
        v == wide_pel(src@, kernel@, apply_pa, x as int, y as int),
{
    let s: usize = x / 2;
    let v: i16 = horizontal(src, kernel, s, x % 2, y);
    if apply_pa {
        let v0: i64 = horizontal(src, kernel, s, 0, y) as i64;
        let v1: i64 = horizontal(src, kernel, s, 1, y) as i64;
        let mean: i64 = frame::floor_div(v0 + v1 + 1, 2);
        let base: i64 = src.get(s, y) as i64;
        frame::clamp_i16(v as i64 + (base - mean))
    } else {
        v
    }
}

/// One value of the plane upscaled on both axes.
fn pixel_2d(src: &PlaneS16, kernel: &[i16; 4], apply_pa: bool, x: usize, y: usize) -> (v: i16)
    requires
        scalable(src@),
        0 <= x < 2 * src@.width,
        0 <= y < 2 * src@.height,
    ensures
        v == both_pel(src@, kernel@, apply_pa, x as int, y as int),
{
    let s: usize = x / 2;
    let t: usize = y / 2;
    let v: i16 = diagonal(src, kernel, s, x % 2, t, y % 2);
    if apply_pa {
        let v00: i64 = diagonal(src, kernel, s, 0, t, 0) as i64;
        let v10: i64 = diagonal(src, kernel, s, 1, t, 0) as i64;
        let v01: i64 = diagonal(src, kernel, s, 0, t, 1) as i64;
        let v11: i64 = diagonal(src, kernel, s, 1, t, 1) as i64;
        let mean: i64 = frame::floor_div(v00 + v10 + v01 + v11 + 2, 4);
        let base: i64 = src.get(s, t) as i64;
        frame::clamp_i16(v as i64 + (base - mean))
    } else {
        v
    }
}

/// 2:1 horizontal upscale.
pub fn upscale_1d(src: &PlaneS16, kernel: &[i16; 4], apply_pa: bool) -> (dst: PlaneS16)
    requires
        scalable(src@),
    ensures
        dst@ == upscaled_1d(src@, kernel@, apply_pa),
        dst@.wf(),
{
    let width: usize = src.width * 2;
    let height: usize = src.height;
    let ghost f = |x: int, y: int| wide_pel(src@, kernel@, apply_pa, x, y) as i16;
    let mut data: Vec<i16> = Vec::new();
    let mut y: usize = 0;
    while y < height
        invariant
            y <= height,
            width == 2 * src@.width,
            height == src@.height,
            scalable(src@),
            f == (|x: int, y: int| wide_pel(src@, kernel@, apply_pa, x, y) as i16),
            data@.len() == y * width,
            forall|i: int|
                0 <= i < data@.len() ==> #[trigger] data@[i] == f(i % width as int, i / width as int),
        decreases height - y,
    {
        let mut x: usize = 0;
        while x < width
            invariant
                x <= width,
                y < height,
                width == 2 * src@.width,
                height == src@.height,
                scalable(src@),
                f == (|x: int, y: int| wide_pel(src@, kernel@, apply_pa, x, y) as i16),
                data@.len() == y * width + x,
                forall|i: int|
                    0 <= i < data@.len() ==> #[trigger] data@[i] == f(
                        i % width as int,
                        i / width as int,
                    ),
            decreases width - x,
        {
            proof {
                lemma_place(width as int, height as int, x as int, y as int);
            }
            data.push(pixel_1d(src, kernel, apply_pa, x, y));
            x = x + 1;
        }
        assert(y * width + width == (y + 1) * width) by (nonlinear_arith);
        y = y + 1;
    }
    let dst = PlaneS16 { width, height, data };
    proof {
        assert(height * width == width * height) by (nonlinear_arith);
        assert(dst@.data =~= upscaled_1d(src@, kernel@, apply_pa).data);
    }
    dst
}

/// 2:1 vertical + horizontal upscale.
pub fn upscale_2d(src: &PlaneS16, kernel: &[i16; 4], apply_pa: bool) -> (dst: PlaneS16)
    requires
        scalable(src@),
    ensures
        dst@ == upscaled_2d(src@, kernel@, apply_pa),
        dst@.wf(),
{
    let width: usize = src.width * 2;
    let height: usize = src.height * 2;
    let ghost f = |x: int, y: int| both_pel(src@, kernel@, apply_pa, x, y) as i16;
    let mut data: Vec<i16> = Vec::new();
    let mut y: usize = 0;
    while y < height
        invariant
            y <= height,
            width == 2 * src@.width,
            height == 2 * src@.height,
            scalable(src@),
            f == (|x: int, y: int| both_pel(src@, kernel@, apply_pa, x, y) as i16),
            data@.len() == y * width,
            forall|i: int|
                0 <= i < data@.len() ==> #[trigger] data@[i] == f(i % width as int, i / width as int),
        decreases height - y,
    {
        let mut x: usize = 0;
        while x < width
            invariant
                x <= width,
                y < height,
                width == 2 * src@.width,
                height == 2 * src@.height,
                scalable(src@),
                f == (|x: int, y: int| both_pel(src@, kernel@, apply_pa, x, y) as i16),
                data@.len() == y * width + x,
                forall|i: int|
                    0 <= i < data@.len() ==> #[trigger] data@[i] == f(
                        i % width as int,
                        i / width as int,
                    ),
            decreases width - x,
        {
            proof {
                lemma_place(width as int, height as int, x as int, y as int);
            }
            data.push(pixel_2d(src, kernel, apply_pa, x, y));
            x = x + 1;
        }
        assert(y * width + width == (y + 1) * width) by (nonlinear_arith);
        y = y + 1;
    }
    let dst = PlaneS16 { width, height, data };
    proof {
        assert(height * width == width * height) by (nonlinear_arith);
        assert(dst@.data =~= upscaled_2d(src@, kernel@, apply_pa).data);
    }
    dst
}

/// Upscale a plane with the given scaling mode.
pub fn upscale_plane(
    src: &PlaneS16,
    mode: ScalingMode,
    kernel: &[i16; 4],
    apply_pa: bool,
) -> (dst: PlaneS16)
    requires
        scalable(src@),
    ensures
        dst@ == upscaled(src@, mode, kernel@, apply_pa),
        dst@.wf(),
{
    match mode {
        ScalingMode::Scale0D => src.duplicate(),
        ScalingMode::Scale1D => upscale_1d(src, kernel, apply_pa),
        ScalingMode::Scale2D => upscale_2d(src, kernel, apply_pa),
    }
}

/// The average of the up to four samples that a downscaled sample stands for, rounded.
pub open spec fn box_average(src: Raster<u16>, x: int, y: int) -> int {
    let sx = frame::clamp(2 * x, 0, src.width - 1);
    let sy = frame::clamp(2 * y, 0, src.height - 1);
    let right = 2 * x + 1 < src.width;
    let below = 2 * y + 1 < src.height;
    let sum = src.at(sx, sy) as int + (if right {
        src.at(sx + 1, sy) as int
    } else {
        0
    }) + (if below {
        src.at(sx, sy + 1) as int
    } else {
        0
    }) + (if right && below {
        src.at(sx + 1, sy + 1) as int
    } else {
        0
    });
    let n: int = (if right {
        2int
    } else {
        1int
    }) * (if below {
        2int
    } else {
        1int
    });
    (sum + n / 2) / n
}

/// The downscaled plane for a scaling mode.
pub open spec fn downscaled(src: Raster<u16>, mode: ScalingMode, depth: int) -> Raster<u16> {
    match mode {
        ScalingMode::Scale0D => src,
        _ => raster_of(
            (src.width + 1) / 2,
            if mode == ScalingMode::Scale2D {
                (src.height + 1) / 2
            } else {
                src.height
            },
            |x: int, y: int| frame::saturated_sample(box_average(src, x, y), depth) as u16,
        ),
    }
}

/// A downscaled sample is the rounded average of the 2x2 block of source samples from twice its
/// column and twice its row on, for samples that the depth can hold. Samples beyond the plane
/// repeat its last column or row.
pub proof fn law_box_average(
    src: Raster<u16>,
    mode: ScalingMode,
    depth: int,
    x: int,
    y: int,
)
    requires
        src.wf(),
        mode != ScalingMode::Scale0D,
        0 <= depth <= 16,
        forall|i: int|
            0 <= i < src.data.len() ==> #[trigger] src.data[i] < bitstream::two_pow(depth as nat),
        0 <= x < downscaled(src, mode, depth).width,
        0 <= y < downscaled(src, mode, depth).height,
    ensures
        ({
            let left = frame::clamp(2 * x, 0, src.width - 1);
            let right = frame::clamp(2 * x + 1, 0, src.width - 1);
            let upper = frame::clamp(2 * y, 0, src.height - 1);
            let lower = frame::clamp(2 * y + 1, 0, src.height - 1);
            let sum = src.at(left, upper) + src.at(right, upper) + src.at(left, lower) + src.at(
                right,
                lower,
            );
            let d = downscaled(src, mode, depth).at(x, y);
            4 * d - 2 <= sum < 4 * d + 2
        }),
        downscaled(src, mode, depth).width == (src.width + 1) / 2,
        downscaled(src, mode, depth).height == (if mode == ScalingMode::Scale2D {
            (src.height + 1) / 2
        } else {
            src.height
        }),
{
    let d = downscaled(src, mode, depth);
    lemma_raster_of(
        d.width,
        d.height,
        |x: int, y: int| frame::saturated_sample(box_average(src, x, y), depth) as u16,
    );
    let left = frame::clamp(2 * x, 0, src.width - 1);
    let right = frame::clamp(2 * x + 1, 0, src.width - 1);
    let upper = frame::clamp(2 * y, 0, src.height - 1);
    let lower = frame::clamp(2 * y + 1, 0, src.height - 1);
    frame::lemma_index(src.width, src.height, left, upper);
    frame::lemma_index(src.width, src.height, right, upper);
    frame::lemma_index(src.width, src.height, left, lower);
    frame::lemma_index(src.width, src.height, right, lower);
    bitstream::lemma_two_pow_mono(depth as nat, 16);
    bitstream::lemma_two_pow_values();
    let top = bitstream::two_pow(depth as nat);
    assert(src.at(left, upper) < top && src.at(right, upper) < top);
    assert(src.at(left, lower) < top && src.at(right, lower) < top);
    let b = box_average(src, x, y);
    assert(d.at(x, y) == frame::saturated_sample(b, depth) as u16);
    let a0 = src.at(left, upper) as int;
    let a1 = src.at(right, upper) as int;
    let a2 = src.at(left, lower) as int;
    let a3 = src.at(right, lower) as int;
    if 2 * x + 1 < src.width && 2 * y + 1 < src.height {
        assert(b == (a0 + a1 + a2 + a3 + 2) / 4);
    } else if 2 * x + 1 < src.width {
        assert(b == (a0 + a1 + 1) / 2);
        assert(a2 == a0 && a3 == a1);
    } else if 2 * y + 1 < src.height {
        assert(b == (a0 + a2 + 1) / 2);
        assert(a1 == a0 && a3 == a2);
    } else {
        assert(b == a0 / 1);
        assert(a1 == a0 && a2 == a0 && a3 == a0);
    }
    assert(0 <= b < top);
}

/// One sample of the downscaled plane.
fn average(src: &Plane, x: usize, y: usize, depth: u8) -> (v: u16)
    requires
        scalable(src@),
        0 <= 2 * x <= src@.width,
        src@.width > 0,
        0 <= y < src@.height,
        depth <= 30,
    ensures
        v == frame::saturated_sample(box_average(src@, x as int, y as int), depth as int),
{
    let sx: usize = if 2 * x > src.width - 1 {
        src.width - 1
    } else {
        2 * x
    };
    let sy: usize = if 2 * y > src.height - 1 {
        src.height - 1
    } else {
        2 * y
    };
    let mut acc: i32 = src.get(sx, sy) as i32;
    let mut n: i32 = 1;
    let right: bool = 2 * x + 1 < src.width;
    if right {
        acc = acc + src.get(sx + 1, sy) as i32;
        n = n + 1;
    }
    if 2 * y + 1 < src.height {
        acc = acc + src.get(sx, sy + 1) as i32;
        n = n + 1;
        if right {
            acc = acc + src.get(sx + 1, sy + 1) as i32;
            n = n + 1;
        }
    }
    frame::sat_sample((acc + n / 2) / n, depth)
}

/// Downscale a plane by 2:1 in one or both dimensions using a 2x2 box average (encoder-side
/// choice; not part of the bitstream format).
pub fn downscale_plane(src: &Plane, mode: ScalingMode, depth: u8) -> (dst: Plane)
    requires
        scalable(src@),
        depth <= 30,
    ensures
        dst@ == downscaled(src@, mode, depth as int),
        dst@.wf(),
{
    if mode == ScalingMode::Scale0D {
        return src.duplicate();
    }
    let width: usize = (src.width + 1) / 2;
    let height: usize = if mode == ScalingMode::Scale2D {
        (src.height + 1) / 2
    } else {
        src.height
    };
    let ghost f = |x: int, y: int|
        frame::saturated_sample(box_average(src@, x, y), depth as int) as u16;
    let mut data: Vec<u16> = Vec::new();
    let mut y: usize = 0;
    while y < height
        invariant
            y <= height,
            height <= src@.height,
            width == (src@.width + 1) / 2,
            scalable(src@),
            depth <= 30,
            f == (|x: int, y: int|
                frame::saturated_sample(box_average(src@, x, y), depth as int) as u16),
            data@.len() == y * width,
            forall|i: int|
                0 <= i < data@.len() ==> #[trigger] data@[i] == f(i % width as int, i / width as int),
        decreases height - y,
    {
        let mut x: usize = 0;
        while x < width
            invariant
                x <= width,
                y < height,
                height <= src@.height,
                width == (src@.width + 1) / 2,
                scalable(src@),
                depth <= 30,
                f == (|x: int, y: int|
                    frame::saturated_sample(box_average(src@, x, y), depth as int) as u16),
                data@.len() == y * width + x,
                forall|i: int|
                    0 <= i < data@.len() ==> #[trigger] data@[i] == f(
                        i % width as int,
                        i / width as int,
                    ),
            decreases width - x,
        {
            proof {
                lemma_place(width as int, height as int, x as int, y as int);
            }
            data.push(average(src, x, y, depth));
            x = x + 1;
        }
        assert(y * width + width == (y + 1) * width) by (nonlinear_arith);
        y = y + 1;
    }
    let dst = Plane { width, height, data };
    proof {
        assert(height * width == width * height) by (nonlinear_arith);
        assert(dst@.data =~= downscaled(src@, mode, depth as int).data);
    }
    dst
}

} // verus!
