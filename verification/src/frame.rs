//! Picture plane representations used by the encoder.
//!
//! The LCEVC decoding pipeline operates on signed 16-bit "fixed point" planes: a `depth`-bit
//! sample v is represented as `(v << (15 - depth)) - 0x4000`. Residuals from the transform are
//! added directly in this domain, and the conversion back to samples is
//! `((v + 2^(13-depth)) >> (15-depth)) + 2^(depth-1)` (saturated).
use crate::bitstream;
use crate::config;
use crate::config::ChromaFormat;
use vstd::prelude::*;

verus! {

/// A rectangle of values, row by row.
#[verifier::ext_equal]
pub struct Raster<A> {
    pub width: int,
    pub height: int,
    pub data: Seq<A>,
}

impl<A> Raster<A> {
    /// As many values as the dimensions say.
    pub open spec fn wf(self) -> bool {
        &&& self.width >= 0
        &&& self.height >= 0
        &&& self.data.len() == self.width * self.height
    }

    /// The value in column `x` of row `y`.
    pub open spec fn at(self, x: int, y: int) -> A {
        self.data[y * self.width + x]
    }

    /// The rectangle with one value replaced.
    pub open spec fn with(self, x: int, y: int, v: A) -> Raster<A> {
        Raster { data: self.data.update(y * self.width + x, v), ..self }
    }

    pub open spec fn has(self, x: int, y: int) -> bool {
        0 <= x < self.width && 0 <= y < self.height
    }
}

/// The index of a position inside a rectangle.
pub proof fn lemma_index(w: int, h: int, x: int, y: int)
    requires
        0 <= x < w,
        0 <= y < h,
    ensures
        0 <= y * w + x < w * h,
        y * w <= y * w + x < (y + 1) * w,
        (y + 1) * w <= w * h,
{
    assert(0 <= y * w && y * w + w <= w * h && (y + 1) * w == y * w + w) by (nonlinear_arith)
        requires
            0 <= x < w,
            0 <= y < h,
    ;
}

/// Different positions have different indices.
pub proof fn lemma_index_injective(w: int, x: int, y: int, x2: int, y2: int)
    requires
        0 <= x < w,
        0 <= x2 < w,
        y * w + x == y2 * w + x2,
    ensures
        x == x2,
        y == y2,
{
    assert(y == y2) by (nonlinear_arith)
        requires
            0 <= x < w,
            0 <= x2 < w,
            y * w + x == y2 * w + x2,
    ;
}

/// A raster after one replacement, at every position.
pub proof fn lemma_with<A>(r: Raster<A>, x: int, y: int, v: A)
    requires
        r.wf(),
        r.has(x, y),
    ensures
        r.with(x, y, v).wf(),
        forall|x2: int, y2: int| #[trigger]
            r.has(x2, y2) ==> r.with(x, y, v).at(x2, y2) == (if x2 == x && y2 == y {
                v
            } else {
                r.at(x2, y2)
            }),
{
    lemma_index(r.width, r.height, x, y);
    assert forall|x2: int, y2: int| #[trigger] r.has(x2, y2) implies r.with(x, y, v).at(x2, y2)
        == (if x2 == x && y2 == y {
        v
    } else {
        r.at(x2, y2)
    }) by {
        lemma_index(r.width, r.height, x2, y2);
        if y * r.width + x == y2 * r.width + x2 {
            lemma_index_injective(r.width, x, y, x2, y2);
        }
    }
}

/// The low 16 bits of a number, as a signed number.
pub open spec fn wrap16(v: int) -> int {
    (v + 32768) % 65536 - 32768
}

/// A number limited to a range.
pub open spec fn clamp(v: int, lo: int, hi: int) -> int {
    if v < lo {
        lo
    } else if v > hi {
        hi
    } else {
        v
    }
}

/// A number limited to 16 bits.
pub open spec fn clamp16(v: int) -> int {
    clamp(v, -32768, 32767)
}

/// A sample in the fixed-point domain.
pub open spec fn fixed_of_sample(v: int, depth: int) -> int {
    wrap16(v * bitstream::two_pow((15 - depth) as nat) - 0x4000)
}

/// What is added to a fixed-point value before it is cut down to a sample: `2^(13-depth)`, a
/// quarter of a sample step. At 14 bits that is less than the smallest step of the domain.
pub open spec fn sample_rounding(depth: int) -> int {
    if depth <= 13 {
        bitstream::two_pow((13 - depth) as nat) as int
    } else {
        0
    }
}

/// The sample of a fixed-point value:
/// `((v + 2^(13-depth)) >> (15-depth)) + 2^(depth-1)`, limited to the depth.
pub open spec fn sample_of_fixed(v: int, depth: int) -> int {
    saturated_sample(
        (v + sample_rounding(depth)) / (bitstream::two_pow(
            (15 - depth) as nat,
        ) as int) + bitstream::two_pow((depth - 1) as nat),
        depth,
    )
}

/// A number limited to the samples of a depth.
pub open spec fn saturated_sample(v: int, depth: int) -> int {
    clamp(v, 0, bitstream::two_pow(depth as nat) - 1) % 65536
}

/// A signed 16-bit fixed-point plane (row-major).
#[derive(Clone, Debug)]
pub struct PlaneS16 {
    pub width: usize,
    pub height: usize,
    pub data: Vec<i16>,
}

impl View for PlaneS16 {
    type V = Raster<i16>;

    open spec fn view(&self) -> Raster<i16> {
        Raster { width: self.width as int, height: self.height as int, data: self.data@ }
    }
}

/// A plane of zeros.
pub open spec fn zero_raster(width: int, height: int) -> Raster<i16> {
    Raster { width, height, data: Seq::new((width * height) as nat, |i: int| 0i16) }
}

impl PlaneS16 {
    pub fn new(width: usize, height: usize) -> (p: Self)
        requires
            width * height <= usize::MAX,
        ensures
            p@.wf(),
            p@ == zero_raster(width as int, height as int),
    {
        assert(width * height >= 0) by (nonlinear_arith)
            requires
                0 <= width,
                0 <= height,
        ;
        let data: Vec<i16> = vec![0i16; width * height];
        let p = PlaneS16 { width, height, data };
        assert(p@.data =~= Seq::new((width * height) as nat, |i: int| 0i16));
        p
    }

    pub fn zeros(width: usize, height: usize) -> (p: Self)
        requires
            width * height <= usize::MAX,
        ensures
            p@.wf(),
            p@ == zero_raster(width as int, height as int),
    {
        Self::new(width, height)
    }

    pub fn get(&self, x: usize, y: usize) -> (v: i16)
        requires
            self@.wf(),
            self@.has(x as int, y as int),
        ensures
            v == self@.at(x as int, y as int),
    {
        proof {
            lemma_index(self.width as int, self.height as int, x as int, y as int);
        }
        let n: usize = self.data.len();
        self.data[y * self.width + x]
    }

    pub fn set(&mut self, x: usize, y: usize, v: i16)
        requires
            old(self)@.wf(),
            old(self)@.has(x as int, y as int),
        ensures
            final(self)@.wf(),
            final(self)@ == old(self)@.with(x as int, y as int, v),
    {
        proof {
            lemma_index(self.width as int, self.height as int, x as int, y as int);
        }
        let n: usize = self.data.len();
        let i: usize = y * self.width + x;
        self.data.set(i, v);
    }

    /// A copy of the plane.
    pub fn duplicate(&self) -> (p: Self)
        ensures
            p@ == self@,
    {
        let mut data: Vec<i16> = Vec::new();
        let mut i: usize = 0;
        while i < self.data.len()
            invariant
                i <= self.data@.len(),
                data@ == self.data@.subrange(0, i as int),
            decreases self.data@.len() - i,
        {
            data.push(self.data[i]);
            i = i + 1;
            assert(data@ =~= self.data@.subrange(0, i as int));
        }
        assert(data@ =~= self.data@);
        PlaneS16 { width: self.width, height: self.height, data }
    }
}

/// Two to the power `n`.
pub fn pow2_i64(n: u8) -> (p: i64)
    requires
        n <= 31,
    ensures
        p == bitstream::two_pow(n as nat),
{
    let mut p: i64 = 1;
    let mut i: u8 = 0;
    while i < n
        invariant
            i <= n <= 31,
            p == bitstream::two_pow(i as nat),
            1 <= p <= 0x8000_0000,
        decreases n - i,
    {
        proof {
            bitstream::lemma_two_pow_mono((i + 1) as nat, 31);
            bitstream::lemma_two_pow_values();
        }
        p = p * 2;
        i = i + 1;
    }
    p
}

/// Limit to a range.
pub fn clamp_i64(v: i64, lo: i64, hi: i64) -> (r: i64)
    ensures
        r == clamp(v as int, lo as int, hi as int),
{
    if v < lo {
        lo
    } else if v > hi {
        hi
    } else {
        v
    }
}

/// Limit to 16 bits.
pub fn clamp_i16(v: i64) -> (r: i16)
    ensures
        r == clamp16(v as int),
{
    clamp_i64(v, -32768, 32767) as i16
}

/// The low 16 bits, as a signed number.
pub fn wrap_i16(v: i64) -> (r: i16)
    requires
        -0x1000_0000_0000_0000 <= v <= 0x1000_0000_0000_0000,
    ensures
        r == wrap16(v as int),
{
    let q: i64 = floor_div(v + 32768, 65536);
    (v - q * 65536) as i16
}

proof fn lemma_fixed_bound(v: int, depth: int)
    requires
        0 <= v < 65536,
        0 <= depth <= 15,
    ensures
        0 <= v * bitstream::two_pow((15 - depth) as nat) <= 65535 * 32768,
        1 <= bitstream::two_pow((15 - depth) as nat) <= 32768,
{
    bitstream::lemma_two_pow_mono((15 - depth) as nat, 15);
    bitstream::lemma_two_pow_pos((15 - depth) as nat);
    bitstream::lemma_two_pow_values();
    let p = bitstream::two_pow((15 - depth) as nat);
    assert(0 <= v * p <= 65535 * 32768) by (nonlinear_arith)
        requires
            0 <= v < 65536,
            1 <= p <= 32768,
    ;
}

/// Convert a sample to the internal signed fixed-point representation.
pub fn sample_to_s16(v: u16, depth: u8) -> (r: i16)
    requires
        depth <= 15,
    ensures
        r == fixed_of_sample(v as int, depth as int),
{
    proof {
        lemma_fixed_bound(v as int, depth as int);
    }
    wrap_i16(v as i64 * pow2_i64(15 - depth) - 0x4000)
}

/// Convert a fixed-point value back to a sample of the given depth.
pub fn s16_to_sample(v: i16, depth: u8) -> (r: u16)
    requires
        1 <= depth <= 14,
    ensures
        r == sample_of_fixed(v as int, depth as int),
{
    let rounding: i64 = if depth <= 13 {
        pow2_i64(13 - depth)
    } else {
        0
    };
    let unit: i64 = pow2_i64(15 - depth);
    let mid: i64 = pow2_i64(depth - 1);
    proof {
        lemma_fixed_bound(0, depth as int);
        if depth <= 13 {
            bitstream::lemma_two_pow_mono((13 - depth) as nat, 15);
            bitstream::lemma_two_pow_pos((13 - depth) as nat);
        }
        bitstream::lemma_two_pow_mono((depth - 1) as nat, 15);
        bitstream::lemma_two_pow_values();
        lemma_floor_bound(v as int + rounding, unit as int);
    }
    sat_sample_i64(floor_div(v as i64 + rounding, unit) + mid, depth)
}

proof fn lemma_floor_bound(a: int, d: int)
    requires
        -0x1_0000_0000 <= a <= 0x1_0000_0000,
        1 <= d,
    ensures
        -0x1_0000_0000 <= a / d <= 0x1_0000_0000,
{
    assert(-0x1_0000_0000 <= a / d <= 0x1_0000_0000) by (nonlinear_arith)
        requires
            -0x1_0000_0000 <= a <= 0x1_0000_0000,
            1 <= d,
    ;
}

/// Division that rounds down.
pub fn floor_div(a: i64, d: i64) -> (q: i64)
    requires
        d > 0,
        a > i64::MIN,
    ensures
        q == a as int / d as int,
{
    if a >= 0 {
        a / d
    } else {
        let q: i64 = -((-a) / d);
        let r: i64 = (-a) % d;
        proof {
            vstd::arithmetic::div_mod::lemma_fundamental_div_mod(-a as int, d as int);
            vstd::arithmetic::div_mod::lemma_mod_bound(-a as int, d as int);
            let n = (-a as int) / (d as int);
            let m = (-a as int) % (d as int);
            assert(d * n == n * d) by (nonlinear_arith);
            assert(0 <= n <= -a) by (nonlinear_arith)
                requires
                    n == (-a as int) / (d as int),
                    d >= 1,
                    -a as int >= 0,
            ;
            if m == 0 {
                assert(a == (-n) * d) by (nonlinear_arith)
                    requires
                        -a == n * d + m,
                        m == 0,
                ;
                vstd::arithmetic::div_mod::lemma_fundamental_div_mod_converse(
                    a as int,
                    d as int,
                    -n,
                    0,
                );
            } else {
                assert(a == (-n - 1) * d + (d - m)) by (nonlinear_arith)
                    requires
                        -a == n * d + m,
                ;
                vstd::arithmetic::div_mod::lemma_fundamental_div_mod_converse(
                    a as int,
                    d as int,
                    -n - 1,
                    d - m,
                );
                assert(n < -a) by (nonlinear_arith)
                    requires
                        -a == n * d + m,
                        m > 0,
                        d >= 1,
                        n >= 0,
                ;
            }
        }
        if r == 0 {
            q
        } else {
            q - 1
        }
    }
}

fn sat_sample_i64(v: i64, depth: u8) -> (r: u16)
    requires
        depth <= 30,
    ensures
        r == saturated_sample(v as int, depth as int),
{
    let top: i64 = pow2_i64(depth) - 1;
    proof {
        bitstream::lemma_two_pow_pos(depth as nat);
    }
    (clamp_i64(v, 0, top) % 65536) as u16
}

/// Limit to the samples of a depth.
pub fn sat_sample(v: i32, depth: u8) -> (r: u16)
    requires
        depth <= 30,
    ensures
        r == saturated_sample(v as int, depth as int),
{
    sat_sample_i64(v as i64, depth)
}

/// Limit to 15 bits.
pub fn sat_s15(v: i32) -> (r: i16)
    ensures
        r == clamp(v as int, -16384, 16383),
{
    clamp_i64(v as i64, -16384, 16383) as i16
}

/// An unsigned sample plane (source/base/output); sample depth is carried by the configuration
/// (8 or 10 bits).
#[derive(Clone, Debug)]
pub struct Plane {
    pub width: usize,
    pub height: usize,
    pub data: Vec<u16>,
}

impl View for Plane {
    type V = Raster<u16>;

    open spec fn view(&self) -> Raster<u16> {
        Raster { width: self.width as int, height: self.height as int, data: self.data@ }
    }
}

/// A plane of zero samples.
pub open spec fn zero_plane(width: int, height: int) -> Raster<u16> {
    Raster { width, height, data: Seq::new((width * height) as nat, |i: int| 0u16) }
}

/// Samples in the fixed-point domain.
pub open spec fn fixed_of_plane(p: Raster<u16>, depth: int) -> Raster<i16> {
    Raster {
        width: p.width,
        height: p.height,
        data: Seq::new(p.data.len(), |i: int| fixed_of_sample(p.data[i] as int, depth) as i16),
    }
}

/// Fixed-point values as samples.
pub open spec fn samples_of_plane(p: Raster<i16>, depth: int) -> Raster<u16> {
    Raster {
        width: p.width,
        height: p.height,
        data: Seq::new(p.data.len(), |i: int| sample_of_fixed(p.data[i] as int, depth) as u16),
    }
}

impl Plane {
    pub fn new(width: usize, height: usize) -> (p: Self)
        requires
            width * height <= usize::MAX,
        ensures
            p@.wf(),
            p@ == zero_plane(width as int, height as int),
    {
        assert(width * height >= 0) by (nonlinear_arith)
            requires
                0 <= width,
                0 <= height,
        ;
        let data: Vec<u16> = vec![0u16; width * height];
        let p = Plane { width, height, data };
        assert(p@.data =~= Seq::new((width * height) as nat, |i: int| 0u16));
        p
    }

    pub fn get(&self, x: usize, y: usize) -> (v: u16)
        requires
            self@.wf(),
            self@.has(x as int, y as int),
        ensures
            v == self@.at(x as int, y as int),
    {
        proof {
            lemma_index(self.width as int, self.height as int, x as int, y as int);
        }
        let n: usize = self.data.len();
        self.data[y * self.width + x]
    }

    pub fn set(&mut self, x: usize, y: usize, v: u16)
        requires
            old(self)@.wf(),
            old(self)@.has(x as int, y as int),
        ensures
            final(self)@.wf(),
            final(self)@ == old(self)@.with(x as int, y as int, v),
    {
        proof {
            lemma_index(self.width as int, self.height as int, x as int, y as int);
        }
        let n: usize = self.data.len();
        let i: usize = y * self.width + x;
        self.data.set(i, v);
    }

    /// Convert to the internal signed fixed-point representation.
    pub fn to_s16(&self, depth: u8) -> (p: PlaneS16)
        requires
            depth <= 15,
        ensures
            p@ == fixed_of_plane(self@, depth as int),
    {
        let mut data: Vec<i16> = Vec::new();
        let mut i: usize = 0;
        while i < self.data.len()
            invariant
                i <= self.data@.len(),
                depth <= 15,
                data@.len() == i,
                forall|k: int|
                    0 <= k < i ==> #[trigger] data@[k] == fixed_of_sample(
                        self.data@[k] as int,
                        depth as int,
                    ),
            decreases self.data@.len() - i,
        {
            data.push(sample_to_s16(self.data[i], depth));
            i = i + 1;
        }
        let p = PlaneS16 { width: self.width, height: self.height, data };
        assert(p@.data =~= fixed_of_plane(self@, depth as int).data);
        p
    }

    /// A copy of the plane.
    pub fn duplicate(&self) -> (p: Self)
        ensures
            p@ == self@,
    {
        let mut data: Vec<u16> = Vec::new();
        let mut i: usize = 0;
        while i < self.data.len()
            invariant
                i <= self.data@.len(),
                data@ == self.data@.subrange(0, i as int),
            decreases self.data@.len() - i,
        {
            data.push(self.data[i]);
            i = i + 1;
            assert(data@ =~= self.data@.subrange(0, i as int));
        }
        assert(data@ =~= self.data@);
        Plane { width: self.width, height: self.height, data }
    }
}

impl PlaneS16 {
    /// Convert back to samples of the given depth.
    pub fn to_plane(&self, depth: u8) -> (p: Plane)
        requires
            1 <= depth <= 14,
        ensures
            p@ == samples_of_plane(self@, depth as int),
    {
        let mut data: Vec<u16> = Vec::new();
        let mut i: usize = 0;
        while i < self.data.len()
            invariant
                i <= self.data@.len(),
                1 <= depth <= 14,
                data@.len() == i,
                forall|k: int|
                    0 <= k < i ==> #[trigger] data@[k] == sample_of_fixed(
                        self.data@[k] as int,
                        depth as int,
                    ),
            decreases self.data@.len() - i,
        {
            data.push(s16_to_sample(self.data[i], depth));
            i = i + 1;
        }
        let p = Plane { width: self.width, height: self.height, data };
        assert(p@.data =~= samples_of_plane(self@, depth as int).data);
        p
    }
}

/// One full picture: one plane, or three.
#[derive(Clone, Debug)]
pub struct Picture {
    pub width: usize,
    pub height: usize,
    pub planes: Vec<Plane>,
}

/// The planes of a picture.
pub open spec fn planes_view(planes: Seq<Plane>) -> Seq<Raster<u16>> {
    Seq::new(planes.len(), |i: int| planes[i]@)
}

/// Dimensions of a plane of a picture.
pub open spec fn picture_plane_size(
    width: int,
    height: int,
    chroma: ChromaFormat,
    plane: int,
) -> (int, int) {
    config::in_plane((width, height), chroma, plane)
}

impl Picture {
    /// A black picture with the planes of a chroma format.
    pub fn new(width: usize, height: usize, chroma: ChromaFormat) -> (p: Self)
        requires
            width * height <= usize::MAX,
        ensures
            p.width == width,
            p.height == height,
            p.planes@.len() == config::planes_of(chroma),
            forall|i: int|
                0 <= i < p.planes@.len() ==> #[trigger] p.planes@[i]@ == zero_plane(
                    picture_plane_size(width as int, height as int, chroma, i).0,
                    picture_plane_size(width as int, height as int, chroma, i).1,
                ) && p.planes@[i]@.wf(),
    {
        let (hshift, vshift) = chroma.shift();
        let nplanes: usize = chroma.num_planes();
        let cw: usize = if hshift == 1 {
            width / 2 + width % 2
        } else {
            width
        };
        let ch: usize = if vshift == 1 {
            height / 2 + height % 2
        } else {
            height
        };
        proof {
            assert(cw * ch <= width * height) by (nonlinear_arith)
                requires
                    0 <= cw <= width,
                    0 <= ch <= height,
            ;
        }
        let mut planes: Vec<Plane> = Vec::new();
        let mut p: usize = 0;
        while p < nplanes
            invariant
                p <= nplanes,
                cw * ch <= width * height <= usize::MAX,
                (cw as int, ch as int) == picture_plane_size(width as int, height as int, chroma, 1),
                (hshift, vshift) == config::chroma_shift(chroma),
                planes@.len() == p,
                forall|i: int|
                    0 <= i < p ==> #[trigger] planes@[i]@ == zero_plane(
                        picture_plane_size(width as int, height as int, chroma, i).0,
                        picture_plane_size(width as int, height as int, chroma, i).1,
                    ) && planes@[i]@.wf(),
            decreases nplanes - p,
        {
            if p == 0 {
                planes.push(Plane::new(width, height));
            } else {
                assert(picture_plane_size(width as int, height as int, chroma, p as int) == (
                    cw as int,
                    ch as int,
                ));
                planes.push(Plane::new(cw, ch));
            }
            p = p + 1;
        }
        Picture { width, height, planes }
    }
}

/// Copies of planes.
pub fn copy_planes(planes: &Vec<Plane>) -> (out: Vec<Plane>)
    ensures
        planes_view(out@) == planes_view(planes@),
        out@.len() == planes@.len(),
{
    let mut out: Vec<Plane> = Vec::new();
    let mut p: usize = 0;
    while p < planes.len()
        invariant
            p <= planes@.len(),
            out@.len() == p,
            forall|i: int| 0 <= i < p ==> #[trigger] out@[i]@ == planes@[i]@,
        decreases planes@.len() - p,
    {
        out.push(planes[p].duplicate());
        p = p + 1;
    }
    assert(planes_view(out@) =~= planes_view(planes@));
    out
}

impl Picture {
    /// A copy of the picture.
    pub fn duplicate(&self) -> (p: Self)
        ensures
            p.width == self.width,
            p.height == self.height,
            planes_view(p.planes@) == planes_view(self.planes@),
            p.planes@.len() == self.planes@.len(),
    {
        Picture { width: self.width, height: self.height, planes: copy_planes(&self.planes) }
    }
}

proof fn lemma_rounded_down(v: int, unit: int, rounding: int, mid: int)
    requires
        0 <= rounding < unit,
        unit * mid == 16384,
        0 <= v < 2 * mid,
    ensures
        -16384 <= v * unit - 0x4000 < 16384,
        (v * unit - 0x4000 + rounding) / unit + mid == v,
{
    assert(0 <= v * unit <= 2 * 16384 - unit) by (nonlinear_arith)
        requires
            0 <= v <= 2 * mid - 1,
            unit * mid == 16384,
            unit >= 1,
    ;
    let f = v * unit - 0x4000;
    assert(f + rounding == (v - mid) * unit + rounding) by (nonlinear_arith)
        requires
            f == v * unit - 16384,
            unit * mid == 16384,
    ;
    vstd::arithmetic::div_mod::lemma_fundamental_div_mod_converse(f + rounding, unit, v - mid, rounding);
}

/// A sample survives the way into the fixed-point domain and back.
pub proof fn law_sample_roundtrip(v: int, depth: int)
    requires
        1 <= depth <= 14,
        0 <= v < bitstream::two_pow(depth as nat),
    ensures
        sample_of_fixed(fixed_of_sample(v, depth), depth) == v,
{
    let unit = bitstream::two_pow((15 - depth) as nat) as int;
    let rounding = sample_rounding(depth);
    let mid = bitstream::two_pow((depth - 1) as nat) as int;
    assert(unit * mid == 16384) by {
        bitstream::lemma_two_pow_add((15 - depth) as nat, (depth - 1) as nat);
        assert(((15 - depth) as nat + (depth - 1) as nat) as nat == 14);
        bitstream::lemma_two_pow_values();
    }
    bitstream::lemma_two_pow_pos((15 - depth) as nat);
    if depth <= 13 {
        bitstream::lemma_two_pow_pos((13 - depth) as nat);
        bitstream::lemma_two_pow_add((13 - depth) as nat, 2);
        bitstream::lemma_two_pow_values();
        assert(unit == rounding * 4);
    }
    lemma_rounded_down(v, unit, rounding, mid);
    let top = bitstream::two_pow(depth as nat) as int;
    assert(top <= 16384) by {
        bitstream::lemma_two_pow_mono(depth as nat, 14);
        bitstream::lemma_two_pow_values();
    }
    assert(fixed_of_sample(v, depth) == v * unit - 0x4000);
    assert(clamp(v, 0, top - 1) % 65536 == v);
}

} // verus!
