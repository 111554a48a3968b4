//! Transform module.
//!
//! A decoder applies fixed integer inverse transforms (the "directional decomposition
//! transform"). The encoder uses the exact algebraic inverses so that `forward(inverse(c)) == c`
//! in exact arithmetic.
//!
//! Residual layout: for a 2x2 transform the residual index is row-major (`x + 2*y`). For a 4x4
//! transform the residual buffer is stored in a 2x2 grid of 2x2 sub-blocks:
//!
//! ```text
//! [ 0  1  4  5 ]
//! [ 2  3  6  7 ]
//! [ 8  9 12 13 ]
//! [10 11 14 15 ]
//! ```
//!
//! i.e. `index = (x & 1) | ((y & 1) << 1) | ((x >> 1) << 2) | ((y >> 1) << 3)`.
use crate::frame;
use vstd::prelude::*;

verus! {

/// The side of the transform block that a size stands for.
pub open spec fn block_side(tu_size: int) -> int {
    if tu_size == 2 {
        2
    } else {
        4
    }
}

/// The residual index of a position inside a transform block.
pub open spec fn index_at(tu_size: int, x: int, y: int) -> int {
    if tu_size == 2 {
        x + 2 * y
    } else {
        x % 2 + 2 * (y % 2) + 4 * (x / 2) + 8 * (y / 2)
    }
}

/// The position that a residual index stands for.
pub open spec fn position_at(tu_size: int, index: int) -> (int, int) {
    if tu_size == 2 {
        (index % 2, index / 2)
    } else {
        (index % 2 + 2 * ((index / 4) % 2), (index / 2) % 2 + 2 * (index / 8))
    }
}

/// Map a sample position inside a transform block to the residual buffer index.
pub fn residual_index(tu_size: usize, x: usize, y: usize) -> (i: usize)
    requires
        x < block_side(tu_size as int),
        y < block_side(tu_size as int),
    ensures
        i == index_at(tu_size as int, x as int, y as int),
        i < block_side(tu_size as int) * block_side(tu_size as int),
{
    if tu_size == 2 {
        x + 2 * y
    } else {
        x % 2 + 2 * (y % 2) + 4 * (x / 2) + 8 * (y / 2)
    }
}

/// Inverse of residual_index.
pub fn residual_position(tu_size: usize, index: usize) -> (p: (usize, usize))
    requires
        index < block_side(tu_size as int) * block_side(tu_size as int),
    ensures
        (p.0 as int, p.1 as int) == position_at(tu_size as int, index as int),
{
    if tu_size == 2 {
        (index % 2, index / 2)
    } else {
        (index % 2 + 2 * ((index / 4) % 2), (index / 2) % 2 + 2 * (index / 8))
    }
}

/// Positions and residual indices of a block correspond one to one.
pub proof fn law_residual_layout(tu_size: int, x: int, y: int, index: int)
    requires
        0 <= x < block_side(tu_size),
        0 <= y < block_side(tu_size),
        0 <= index < block_side(tu_size) * block_side(tu_size),
    ensures
        position_at(tu_size, index_at(tu_size, x, y)) == (x, y),
        ({
            let (px, py) = position_at(tu_size, index);
            0 <= px < block_side(tu_size) && 0 <= py < block_side(tu_size) && index_at(
                tu_size,
                px,
                py,
            ) == index
        }),
{
    if tu_size != 2 {
        lemma_layout_4(x % 2, y % 2, x / 2, y / 2);
        let i = index;
        lemma_layout_4(i % 2, (i / 2) % 2, (i / 4) % 2, i / 8);
        assert((i / 2) / 2 == i / 4 && (i / 4) / 2 == i / 8);
    }
}

/// Four binary digits and the number that they make up.
proof fn lemma_layout_4(a: int, b: int, c: int, d: int)
    requires
        0 <= a < 2,
        0 <= b < 2,
        0 <= c < 2,
        0 <= d < 2,
    ensures
        ({
            let i = a + 2 * b + 4 * c + 8 * d;
            i % 2 == a && i / 2 == b + 2 * c + 4 * d && (i / 2) % 2 == b && i / 4 == c + 2 * d && (i
                / 4) % 2 == c && i / 8 == d
        }),
        (a + 2 * c) % 2 == a && (a + 2 * c) / 2 == c,
        (b + 2 * d) % 2 == b && (b + 2 * d) / 2 == d,
{
}

/// Row `k` of the 4-point Hadamard transform.
pub open spec fn hadamard(k: int, a: int, b: int, c: int, d: int) -> int {
    if k == 0 {
        a + b + c + d
    } else if k == 1 {
        a - b + c - d
    } else if k == 2 {
        a + b - c - d
    } else {
        a - b - c + d
    }
}

/// Row `k` of the 2x2 inverse transform for 1D scaling.
pub open spec fn inverse_row_1d(k: int, a: int, b: int, c: int, d: int) -> int {
    if k == 0 {
        a + b + c
    } else if k == 1 {
        a - b - c
    } else if k == 2 {
        d + b - c
    } else {
        d - b + c
    }
}

/// Row `k` of its exact inverse, times four.
pub open spec fn forward_row_1d(k: int, a: int, b: int, c: int, d: int) -> int {
    if k == 0 {
        2 * (a + b)
    } else if k == 1 {
        a - b + c - d
    } else if k == 2 {
        a - b - c + d
    } else {
        2 * (c + d)
    }
}

/// Row `k` of the second pass of the 4x4 inverse transform for 1D scaling.
pub open spec fn inverse_pass_1d(k: int, a: int, b: int, c: int, d: int) -> int {
    if k == 0 {
        a + b + d
    } else if k == 1 {
        a - b - d
    } else if k == 2 {
        b + c - d
    } else {
        c - b + d
    }
}

/// Row `k` of its exact inverse, times four.
pub open spec fn forward_pass_1d(k: int, a: int, b: int, c: int, d: int) -> int {
    if k == 0 {
        2 * (a + b)
    } else if k == 1 {
        a - b + c - d
    } else if k == 2 {
        2 * (c + d)
    } else {
        a - b - c + d
    }
}

/// Group `i` of four values under row `k` of the Hadamard transform.
pub open spec fn group(k: int, c: Seq<int>, i: int) -> int {
    hadamard(k, c[4 * i], c[4 * i + 1], c[4 * i + 2], c[4 * i + 3])
}

/// Group `i` of four values under row `k` of the forward pass for 1D scaling.
pub open spec fn group_1d(k: int, r: Seq<int>, i: int) -> int {
    forward_pass_1d(k, r[4 * i], r[4 * i + 1], r[4 * i + 2], r[4 * i + 3])
}

/// Select the forward transform for a transform type and scaling mode.
#[derive(Clone, Copy, PartialEq, Eq, Debug, Structural)]
pub enum ForwardTransform {
    Dd1D,
    Dd2D,
    Dds1D,
    Dds2D,
}

/// Coefficients of a transform.
pub open spec fn transform_len(t: ForwardTransform) -> nat {
    match t {
        ForwardTransform::Dd1D => 4,
        ForwardTransform::Dd2D => 4,
        ForwardTransform::Dds1D => 16,
        ForwardTransform::Dds2D => 16,
    }
}

/// The inverse transform, without saturation.
pub open spec fn inverse_exact(t: ForwardTransform, c: Seq<int>) -> Seq<int> {
    match t {
        ForwardTransform::Dd2D => Seq::new(4, |n: int| group(n, c, 0)),
        ForwardTransform::Dd1D => Seq::new(4, |n: int| inverse_row_1d(n, c[0], c[1], c[2], c[3])),
        ForwardTransform::Dds2D => Seq::new(
            16,
            |n: int|
                hadamard(
                    n % 4,
                    group(n / 4, c, 0),
                    group(n / 4, c, 1),
                    group(n / 4, c, 2),
                    group(n / 4, c, 3),
                ),
        ),
        ForwardTransform::Dds1D => Seq::new(
            16,
            |n: int|
                inverse_pass_1d(
                    n % 4,
                    group(n / 4, c, 0),
                    group(n / 4, c, 1),
                    group(n / 4, c, 2),
                    group(n / 4, c, 3),
                ),
        ),
    }
}

/// The numerators of the forward transform; their denominator is the number of coefficients.
pub open spec fn forward_exact(t: ForwardTransform, r: Seq<int>) -> Seq<int> {
    match t {
        ForwardTransform::Dd2D => Seq::new(4, |n: int| group(n, r, 0)),
        ForwardTransform::Dd1D => Seq::new(4, |n: int| forward_row_1d(n, r[0], r[1], r[2], r[3])),
        ForwardTransform::Dds2D => Seq::new(
            16,
            |n: int|
                hadamard(
                    n % 4,
                    group(n / 4, r, 0),
                    group(n / 4, r, 1),
                    group(n / 4, r, 2),
                    group(n / 4, r, 3),
                ),
        ),
        ForwardTransform::Dds1D => Seq::new(
            16,
            |n: int|
                hadamard(
                    n % 4,
                    group_1d(n / 4, r, 0),
                    group_1d(n / 4, r, 1),
                    group_1d(n / 4, r, 2),
                    group_1d(n / 4, r, 3),
                ),
        ),
    }
}

/// Values as integers.
pub open spec fn ints(s: Seq<i16>) -> Seq<int> {
    Seq::new(s.len(), |i: int| s[i] as int)
}

/// Every value limited to 16 bits.
pub open spec fn saturated(s: Seq<int>) -> Seq<i16> {
    Seq::new(s.len(), |i: int| frame::clamp16(s[i]) as i16)
}

/// The inverse transform as a decoder applies it.
pub open spec fn inverse_of(t: ForwardTransform, c: Seq<i16>) -> Seq<i16> {
    saturated(inverse_exact(t, ints(c)))
}

/// The inverse transform of nothing is nothing.
pub proof fn lemma_inverse_zero(t: ForwardTransform)
    ensures
        inverse_exact(t, Seq::new(transform_len(t), |i: int| 0int)) == Seq::new(
            transform_len(t),
            |i: int| 0int,
        ),
{
    let z = Seq::new(transform_len(t), |i: int| 0int);
    let r = inverse_exact(t, z);
    assert(r.len() == z.len());
    assert forall|i: int| 0 <= i < z.len() implies r[i] == 0 by {
    }
    assert(r =~= z);
}


/// The forward transform of a residual block.
pub open spec fn forward_of(t: ForwardTransform, r: Seq<i16>) -> Seq<int> {
    forward_exact(t, ints(r))
}

/// The numerators of the forward transforms stay far from the limits of 32 bits.
pub proof fn lemma_forward_bound(t: ForwardTransform, r: Seq<i16>)
    requires
        r.len() == transform_len(t),
    ensures
        forward_of(t, r).len() == transform_len(t),
        forall|n: int|
            0 <= n < transform_len(t) ==> -0x20_0000 <= #[trigger] forward_of(t, r)[n] <= 0x20_0000,
{
    let s = ints(r);
    assert forall|n: int| 0 <= n < transform_len(t) implies -0x20_0000 <= #[trigger] forward_of(
        t,
        r,
    )[n] <= 0x20_0000 by {
        assert forall|i: int| 0 <= i < s.len() implies -32768 <= #[trigger] s[i] <= 32767 by {}
    }
}

fn had(k: usize, a: i32, b: i32, c: i32, d: i32) -> (v: i32)
    requires
        -0x40_0000 <= a <= 0x40_0000,
        -0x40_0000 <= b <= 0x40_0000,
        -0x40_0000 <= c <= 0x40_0000,
        -0x40_0000 <= d <= 0x40_0000,
    ensures
        v == hadamard(k as int, a as int, b as int, c as int, d as int),
{
    if k == 0 {
        a + b + c + d
    } else if k == 1 {
        a - b + c - d
    } else if k == 2 {
        a + b - c - d
    } else {
        a - b - c + d
    }
}

/// Limit to 16 bits.
pub fn sat16(v: i32) -> (r: i16)
    ensures
        r == frame::clamp16(v as int),
{
    frame::clamp_i16(v as i64)
}

/// 2x2 transform, scaling mode 0 (none) or 2 (2D).
pub fn inverse_dd_2d(c: &[i16; 4]) -> (r: [i16; 4])
    ensures
        r@ == inverse_of(ForwardTransform::Dd2D, c@),
{
    let a: i32 = c[0] as i32;
    let b: i32 = c[1] as i32;
    let e: i32 = c[2] as i32;
    let d: i32 = c[3] as i32;
    let r: [i16; 4] = [
        sat16(a + b + e + d),
        sat16(a - b + e - d),
        sat16(a + b - e - d),
        sat16(a - b - e + d),
    ];
    assert(r@ =~= inverse_of(ForwardTransform::Dd2D, c@));
    r
}

/// 2x2 transform, scaling mode 1 (1D horizontal).
pub fn inverse_dd_1d(c: &[i16; 4]) -> (r: [i16; 4])
    ensures
        r@ == inverse_of(ForwardTransform::Dd1D, c@),
{
    let a: i32 = c[0] as i32;
    let b: i32 = c[1] as i32;
    let e: i32 = c[2] as i32;
    let d: i32 = c[3] as i32;
    let r: [i16; 4] = [sat16(a + b + e), sat16(a - b - e), sat16(d + b - e), sat16(d - b + e)];
    assert(r@ =~= inverse_of(ForwardTransform::Dd1D, c@));
    r
}

/// Stage-1 value `k` of the coefficient group `i`.
fn h4_group(c: &[i16; 16], i: usize, k: usize) -> (v: i32)
    requires
        i < 4,
    ensures
        v == group(k as int, ints(c@), i as int),
        -0x2_0000 <= v <= 0x2_0000,
{
    had(k, c[4 * i] as i32, c[4 * i + 1] as i32, c[4 * i + 2] as i32, c[4 * i + 3] as i32)
}

/// 4x4 transform, scaling mode 2 (2D). Stage 1 groups coefficients c[4i..4i+3]; stage 2 applies
/// the 4-point Hadamard to each of the four component vectors.
pub fn inverse_dds_2d(c: &[i16; 16]) -> (r: [i16; 16])
    ensures
        r@ == inverse_of(ForwardTransform::Dds2D, c@),
{
    let mut r: [i16; 16] = [0i16; 16];
    let mut n: usize = 0;
    while n < 16
        invariant
            n <= 16,
            forall|m: int|
                0 <= m < n ==> #[trigger] r@[m] == inverse_of(ForwardTransform::Dds2D, c@)[m],
        decreases 16 - n,
    {
        let k: usize = n / 4;
        let v: i32 = had(
            n % 4,
            h4_group(c, 0, k),
            h4_group(c, 1, k),
            h4_group(c, 2, k),
            h4_group(c, 3, k),
        );
        r[n] = sat16(v);
        n = n + 1;
    }
    assert(r@ =~= inverse_of(ForwardTransform::Dds2D, c@));
    r
}

/// 4x4 transform, scaling mode 1 (1D horizontal). The second pass is
///   r0 = x0+x1+x3, r1 = x0-x1-x3, r2 = x1+x2-x3, r3 = x2-x1+x3
/// for each component vector.
pub fn inverse_dds_1d(c: &[i16; 16]) -> (r: [i16; 16])
    ensures
        r@ == inverse_of(ForwardTransform::Dds1D, c@),
{
    let mut r: [i16; 16] = [0i16; 16];
    let mut n: usize = 0;
    while n < 16
        invariant
            n <= 16,
            forall|m: int|
                0 <= m < n ==> #[trigger] r@[m] == inverse_of(ForwardTransform::Dds1D, c@)[m],
        decreases 16 - n,
    {
        let k: usize = n / 4;
        let x0: i32 = h4_group(c, 0, k);
        let x1: i32 = h4_group(c, 1, k);
        let x2: i32 = h4_group(c, 2, k);
        let x3: i32 = h4_group(c, 3, k);
        let v: i32 = if n % 4 == 0 {
            x0 + x1 + x3
        } else if n % 4 == 1 {
            x0 - x1 - x3
        } else if n % 4 == 2 {
            x1 + x2 - x3
        } else {
            x2 - x1 + x3
        };
        r[n] = sat16(v);
        n = n + 1;
    }
    assert(r@ =~= inverse_of(ForwardTransform::Dds1D, c@));
    r
}

/// Numerators as integers.
pub open spec fn wide(s: Seq<i32>) -> Seq<int> {
    Seq::new(s.len(), |i: int| s[i] as int)
}

/// Forward 2x2 (2D): C = H4^-1 R = H4 R / 4. Returns the numerators and the denominator.
pub fn forward_dd_2d(r: &[i16; 4]) -> (o: ([i32; 4], i32))
    ensures
        wide(o.0@) == forward_of(ForwardTransform::Dd2D, r@),
        o.1 == 4,
{
    let a: i32 = r[0] as i32;
    let b: i32 = r[1] as i32;
    let e: i32 = r[2] as i32;
    let d: i32 = r[3] as i32;
    let c: [i32; 4] = [a + b + e + d, a - b + e - d, a + b - e - d, a - b - e + d];
    assert(wide(c@) =~= forward_of(ForwardTransform::Dd2D, r@));
    (c, 4)
}

/// Forward 2x2 (1D): c0=(r0+r1)/2, c1=(r0-r1+r2-r3)/4, c2=(r0-r1-r2+r3)/4, c3=(r2+r3)/2.
/// All numerators are scaled by 4 (denominator 4).
pub fn forward_dd_1d(r: &[i16; 4]) -> (o: ([i32; 4], i32))
    ensures
        wide(o.0@) == forward_of(ForwardTransform::Dd1D, r@),
        o.1 == 4,
{
    let a: i32 = r[0] as i32;
    let b: i32 = r[1] as i32;
    let e: i32 = r[2] as i32;
    let d: i32 = r[3] as i32;
    let c: [i32; 4] = [2 * (a + b), a - b + e - d, a - b - e + d, 2 * (e + d)];
    assert(wide(c@) =~= forward_of(ForwardTransform::Dd1D, r@));
    (c, 4)
}

/// Forward 4x4 (2D): both stages are H4 (scaled by 1/4 each), total /16.
pub fn forward_dds_2d(r: &[i16; 16]) -> (o: ([i32; 16], i32))
    ensures
        wide(o.0@) == forward_of(ForwardTransform::Dds2D, r@),
        o.1 == 16,
{
    let mut c: [i32; 16] = [0i32; 16];
    let mut n: usize = 0;
    while n < 16
        invariant
            n <= 16,
            forall|m: int|
                0 <= m < n ==> #[trigger] c@[m] == forward_of(ForwardTransform::Dds2D, r@)[m],
        decreases 16 - n,
    {
        let k: usize = n / 4;
        let v: i32 = had(
            n % 4,
            h4_group(r, 0, k),
            h4_group(r, 1, k),
            h4_group(r, 2, k),
            h4_group(r, 3, k),
        );
        c[n] = v;
        n = n + 1;
    }
    assert(wide(c@) =~= forward_of(ForwardTransform::Dds2D, r@));
    (c, 16)
}

/// Four times component `k` of the residual quadrant `i`, for 1D scaling.
fn stage_1d(r: &[i16; 16], i: usize, k: usize) -> (v: i32)
    requires
        i < 4,
    ensures
        v == group_1d(k as int, ints(r@), i as int),
        -0x2_0000 <= v <= 0x2_0000,
{
    let r0: i32 = r[4 * i] as i32;
    let r1: i32 = r[4 * i + 1] as i32;
    let r2: i32 = r[4 * i + 2] as i32;
    let r3: i32 = r[4 * i + 3] as i32;
    if k == 0 {
        2 * (r0 + r1)
    } else if k == 1 {
        r0 - r1 + r2 - r3
    } else if k == 2 {
        2 * (r2 + r3)
    } else {
        r0 - r1 - r2 + r3
    }
}

/// Forward 4x4 (1D): stage 2 is the inverse of the 1D second pass, stage 1 is H4, giving a
/// total denominator of 16.
pub fn forward_dds_1d(r: &[i16; 16]) -> (o: ([i32; 16], i32))
    ensures
        wide(o.0@) == forward_of(ForwardTransform::Dds1D, r@),
        o.1 == 16,
{
    let mut c: [i32; 16] = [0i32; 16];
    let mut n: usize = 0;
    while n < 16
        invariant
            n <= 16,
            forall|m: int|
                0 <= m < n ==> #[trigger] c@[m] == forward_of(ForwardTransform::Dds1D, r@)[m],
        decreases 16 - n,
    {
        let k: usize = n / 4;
        let v: i32 = had(
            n % 4,
            stage_1d(r, 0, k),
            stage_1d(r, 1, k),
            stage_1d(r, 2, k),
            stage_1d(r, 3, k),
        );
        c[n] = v;
        n = n + 1;
    }
    assert(wide(c@) =~= forward_of(ForwardTransform::Dds1D, r@));
    (c, 16)
}

fn four(s: &[i16]) -> (a: [i16; 4])
    requires
        s@.len() == 4,
    ensures
        a@ == s@,
{
    let a: [i16; 4] = [s[0], s[1], s[2], s[3]];
    assert(a@ =~= s@);
    a
}

fn sixteen(s: &[i16]) -> (a: [i16; 16])
    requires
        s@.len() == 16,
    ensures
        a@ == s@,
{
    let mut a: [i16; 16] = [0i16; 16];
    let mut i: usize = 0;
    while i < 16
        invariant
            i <= 16,
            s@.len() == 16,
            forall|k: int| 0 <= k < i ==> #[trigger] a@[k] == s@[k],
        decreases 16 - i,
    {
        a[i] = s[i];
        i = i + 1;
    }
    assert(a@ =~= s@);
    a
}

/// The transform of a type code and a scaling: type 0 is the 2x2 transform, any other the 4x4.
pub open spec fn transform_for(transform_type: u8, scaling_1d: bool) -> ForwardTransform {
    if transform_type == 0 {
        if scaling_1d {
            ForwardTransform::Dd1D
        } else {
            ForwardTransform::Dd2D
        }
    } else if transform_type == 1 && scaling_1d {
        ForwardTransform::Dds1D
    } else {
        ForwardTransform::Dds2D
    }
}

impl ForwardTransform {
    pub fn new(transform_type: u8, scaling_1d: bool) -> (t: Self)
        ensures
            t == transform_for(transform_type, scaling_1d),
    {
        if transform_type == 0 {
            if scaling_1d {
                ForwardTransform::Dd1D
            } else {
                ForwardTransform::Dd2D
            }
        } else if transform_type == 1 && scaling_1d {
            ForwardTransform::Dds1D
        } else {
            ForwardTransform::Dds2D
        }
    }

    /// Number of coefficient layers.
    pub fn layers(&self) -> (n: usize)
        ensures
            n == transform_len(*self),
    {
        match self {
            ForwardTransform::Dd1D => 4,
            ForwardTransform::Dd2D => 4,
            ForwardTransform::Dds1D => 16,
            ForwardTransform::Dds2D => 16,
        }
    }

    /// Apply the forward transform; returns (numerators, denominator).
    pub fn apply(&self, r: &[i16]) -> (o: (Vec<i32>, i32))
        requires
            r@.len() == transform_len(*self),
        ensures
            wide(o.0@) == forward_of(*self, r@),
            o.0@.len() == transform_len(*self),
            o.1 == transform_len(*self),
    {
        let mut out: Vec<i32> = Vec::new();
        match self {
            ForwardTransform::Dd1D => {
                let (c, d) = forward_dd_1d(&four(r));
                out.push(c[0]);
                out.push(c[1]);
                out.push(c[2]);
                out.push(c[3]);
                assert(out@ =~= c@);
                (out, d)
            },
            ForwardTransform::Dd2D => {
                let (c, d) = forward_dd_2d(&four(r));
                out.push(c[0]);
                out.push(c[1]);
                out.push(c[2]);
                out.push(c[3]);
                assert(out@ =~= c@);
                (out, d)
            },
            ForwardTransform::Dds1D => {
                let (c, d) = forward_dds_1d(&sixteen(r));
                (list_of(&c), d)
            },
            ForwardTransform::Dds2D => {
                let (c, d) = forward_dds_2d(&sixteen(r));
                (list_of(&c), d)
            },
        }
    }

    /// Apply the inverse transform as a decoder does (used in the reconstruction loop).
    pub fn inverse(&self, c: &[i16]) -> (out: Vec<i16>)
        requires
            c@.len() == transform_len(*self),
        ensures
            out@ == inverse_of(*self, c@),
            out@.len() == transform_len(*self),
    {
        let mut out: Vec<i16> = Vec::new();
        match self {
            ForwardTransform::Dd1D => {
                let r = inverse_dd_1d(&four(c));
                out.push(r[0]);
                out.push(r[1]);
                out.push(r[2]);
                out.push(r[3]);
                assert(out@ =~= r@);
            },
            ForwardTransform::Dd2D => {
                let r = inverse_dd_2d(&four(c));
                out.push(r[0]);
                out.push(r[1]);
                out.push(r[2]);
                out.push(r[3]);
                assert(out@ =~= r@);
            },
            ForwardTransform::Dds1D => {
                let r = inverse_dds_1d(&sixteen(c));
                push_all(&mut out, &r);
                assert(out@ =~= r@);
            },
            ForwardTransform::Dds2D => {
                let r = inverse_dds_2d(&sixteen(c));
                push_all(&mut out, &r);
                assert(out@ =~= r@);
            },
        }
        out
    }
}

fn list_of(a: &[i32; 16]) -> (out: Vec<i32>)
    ensures
        out@ == a@,
{
    let mut out: Vec<i32> = Vec::new();
    let mut i: usize = 0;
    while i < 16
        invariant
            i <= 16,
            out@ == a@.subrange(0, i as int),
        decreases 16 - i,
    {
        out.push(a[i]);
        i = i + 1;
        assert(out@ =~= a@.subrange(0, i as int));
    }
    assert(out@ =~= a@);
    out
}

fn push_all(out: &mut Vec<i16>, a: &[i16; 16])
    ensures
        final(out)@ == old(out)@ + a@,
{
    let ghost start = out@;
    let mut i: usize = 0;
    assert(out@ =~= start + a@.subrange(0, 0));
    while i < 16
        invariant
            i <= 16,
            out@ == start + a@.subrange(0, i as int),
        decreases 16 - i,
    {
        out.push(a[i]);
        i = i + 1;
        assert(out@ =~= start + a@.subrange(0, i as int));
    }
    assert(a@.subrange(0, i as int) =~= a@);
}

/// Every value times a factor.
pub open spec fn scaled(k: int, s: Seq<int>) -> Seq<int> {
    Seq::new(s.len(), |i: int| k * s[i])
}

/// In exact arithmetic the transforms undo each other, up to the denominator.
pub proof fn law_transform_exact(t: ForwardTransform, s: Seq<int>)
    requires
        s.len() == transform_len(t),
    ensures
        inverse_exact(t, forward_exact(t, s)) == scaled(transform_len(t) as int, s),
        forward_exact(t, inverse_exact(t, s)) == scaled(transform_len(t) as int, s),
{
    let f = forward_exact(t, s);
    let i = inverse_exact(t, s);
    if transform_len(t) == 4 {
        assert(inverse_exact(t, f) =~= scaled(4, s)) by {
            lemma_small_undo(t, s);
        }
        assert(forward_exact(t, i) =~= scaled(4, s)) by {
            lemma_small_undo(t, s);
        }
    } else {
        lemma_large_undo(t, s);
        assert(inverse_exact(t, f) =~= scaled(16, s));
        assert(forward_exact(t, i) =~= scaled(16, s));
    }
}

proof fn lemma_small_undo(t: ForwardTransform, s: Seq<int>)
    requires
        s.len() == 4,
        transform_len(t) == 4,
    ensures
        forall|n: int|
            0 <= n < 4 ==> #[trigger] inverse_exact(t, forward_exact(t, s))[n] == 4 * s[n],
        forall|n: int|
            0 <= n < 4 ==> #[trigger] forward_exact(t, inverse_exact(t, s))[n] == 4 * s[n],
{
    let f = forward_exact(t, s);
    let i = inverse_exact(t, s);
    let a = f[0] + f[1] + f[2] + f[3] + i[0] + i[1] + i[2] + i[3];
    let b = s[0] + s[1] + s[2] + s[3];
}

/// The Hadamard transform undoes itself, up to four.
proof fn lemma_hadamard_undo(k: int, a: int, b: int, c: int, d: int)
    requires
        0 <= k < 4,
    ensures
        hadamard(
            k,
            hadamard(0, a, b, c, d),
            hadamard(1, a, b, c, d),
            hadamard(2, a, b, c, d),
            hadamard(3, a, b, c, d),
        ) == 4 * (if k == 0 {
            a
        } else if k == 1 {
            b
        } else if k == 2 {
            c
        } else {
            d
        }),
{
}

proof fn lemma_pass_undo(k: int, a: int, b: int, c: int, d: int)
    requires
        0 <= k < 4,
    ensures
        inverse_pass_1d(
            k,
            forward_pass_1d(0, a, b, c, d),
            forward_pass_1d(1, a, b, c, d),
            forward_pass_1d(2, a, b, c, d),
            forward_pass_1d(3, a, b, c, d),
        ) == 4 * (if k == 0 {
            a
        } else if k == 1 {
            b
        } else if k == 2 {
            c
        } else {
            d
        }),
        forward_pass_1d(
            k,
            inverse_pass_1d(0, a, b, c, d),
            inverse_pass_1d(1, a, b, c, d),
            inverse_pass_1d(2, a, b, c, d),
            inverse_pass_1d(3, a, b, c, d),
        ) == 4 * (if k == 0 {
            a
        } else if k == 1 {
            b
        } else if k == 2 {
            c
        } else {
            d
        }),
{
}

proof fn lemma_large_undo(t: ForwardTransform, s: Seq<int>)
    requires
        s.len() == 16,
        transform_len(t) == 16,
    ensures
        forall|n: int|
            0 <= n < 16 ==> #[trigger] inverse_exact(t, forward_exact(t, s))[n] == 16 * s[n],
        forall|n: int|
            0 <= n < 16 ==> #[trigger] forward_exact(t, inverse_exact(t, s))[n] == 16 * s[n],
{
    let f = forward_exact(t, s);
    let v = inverse_exact(t, s);
    assert forall|n: int| 0 <= n < 16 implies #[trigger] inverse_exact(t, f)[n] == 16 * s[n] by {
        let k = n / 4;
        let j = n % 4;
        lemma_group_of_forward(t, s, k, 0);
        lemma_group_of_forward(t, s, k, 1);
        lemma_group_of_forward(t, s, k, 2);
        lemma_group_of_forward(t, s, k, 3);
        lemma_hadamard_undo(j, s[4 * k], s[4 * k + 1], s[4 * k + 2], s[4 * k + 3]);
        lemma_pass_undo(j, s[4 * k], s[4 * k + 1], s[4 * k + 2], s[4 * k + 3]);
        assert(n == 4 * k + j);
        lemma_scale_rows(
            j,
            group(k, f, 0),
            group(k, f, 1),
            group(k, f, 2),
            group(k, f, 3),
            if t == ForwardTransform::Dds2D {
                group(0, s, k)
            } else {
                group_1d(0, s, k)
            },
            if t == ForwardTransform::Dds2D {
                group(1, s, k)
            } else {
                group_1d(1, s, k)
            },
            if t == ForwardTransform::Dds2D {
                group(2, s, k)
            } else {
                group_1d(2, s, k)
            },
            if t == ForwardTransform::Dds2D {
                group(3, s, k)
            } else {
                group_1d(3, s, k)
            },
        );
    }
    assert forall|n: int| 0 <= n < 16 implies #[trigger] forward_exact(t, v)[n] == 16 * s[n] by {
        let i = n / 4;
        let j = n % 4;
        lemma_group_of_inverse(t, s, i, 0);
        lemma_group_of_inverse(t, s, i, 1);
        lemma_group_of_inverse(t, s, i, 2);
        lemma_group_of_inverse(t, s, i, 3);
        lemma_hadamard_undo(j, s[4 * i], s[4 * i + 1], s[4 * i + 2], s[4 * i + 3]);
        assert(n == 4 * i + j);
    }
}

/// Rows are linear: four times the arguments give four times the value.
proof fn lemma_scale_rows(
    j: int,
    a: int,
    b: int,
    c: int,
    d: int,
    a1: int,
    b1: int,
    c1: int,
    d1: int,
)
    requires
        a == 4 * a1,
        b == 4 * b1,
        c == 4 * c1,
        d == 4 * d1,
    ensures
        hadamard(j, a, b, c, d) == 4 * hadamard(j, a1, b1, c1, d1),
        inverse_pass_1d(j, a, b, c, d) == 4 * inverse_pass_1d(j, a1, b1, c1, d1),
{
}

/// Group `i` of the forward transform, under row `k`, is component `i` of quadrant `k`.
proof fn lemma_group_of_forward(t: ForwardTransform, s: Seq<int>, k: int, i: int)
    requires
        s.len() == 16,
        transform_len(t) == 16,
        0 <= k < 4,
        0 <= i < 4,
    ensures
        group(k, forward_exact(t, s), i) == 4 * (if t == ForwardTransform::Dds2D {
            group(i, s, k)
        } else {
            group_1d(i, s, k)
        }),
{
    let f = forward_exact(t, s);
    assert((4 * i) / 4 == i && (4 * i) % 4 == 0);
    assert((4 * i + 1) / 4 == i && (4 * i + 1) % 4 == 1);
    assert((4 * i + 2) / 4 == i && (4 * i + 2) % 4 == 2);
    assert((4 * i + 3) / 4 == i && (4 * i + 3) % 4 == 3);
    if t == ForwardTransform::Dds2D {
        lemma_hadamard_undo(k, group(i, s, 0), group(i, s, 1), group(i, s, 2), group(i, s, 3));
    } else {
        lemma_hadamard_undo(
            k,
            group_1d(i, s, 0),
            group_1d(i, s, 1),
            group_1d(i, s, 2),
            group_1d(i, s, 3),
        );
    }
}

/// Quadrant `k` of the inverse transform, under forward row `i`, is row `k` of group `i`.
proof fn lemma_group_of_inverse(t: ForwardTransform, s: Seq<int>, i: int, k: int)
    requires
        s.len() == 16,
        transform_len(t) == 16,
        0 <= k < 4,
        0 <= i < 4,
    ensures
        (if t == ForwardTransform::Dds2D {
            group(i, inverse_exact(t, s), k)
        } else {
            group_1d(i, inverse_exact(t, s), k)
        }) == 4 * group(k, s, i),
{
    let v = inverse_exact(t, s);
    assert((4 * k) / 4 == k && (4 * k) % 4 == 0);
    assert((4 * k + 1) / 4 == k && (4 * k + 1) % 4 == 1);
    assert((4 * k + 2) / 4 == k && (4 * k + 2) % 4 == 2);
    assert((4 * k + 3) / 4 == k && (4 * k + 3) % 4 == 3);
    if t == ForwardTransform::Dds2D {
        lemma_hadamard_undo(i, group(k, s, 0), group(k, s, 1), group(k, s, 2), group(k, s, 3));
    } else {
        lemma_pass_undo(i, group(k, s, 0), group(k, s, 1), group(k, s, 2), group(k, s, 3));
    }
}

} // verus!
