//! Quantization and reconstruction of transform units.
use crate::dequant;
use crate::dequant::{DequantLayer, DequantTable, TemporalSignal};
use crate::frame;
use crate::transform;
use crate::transform::ForwardTransform;
use vstd::prelude::*;

verus! {

pub open spec fn abs(v: int) -> int {
    if v < 0 {
        -v
    } else {
        v
    }
}

/// A level within the range that a stream can carry.
pub open spec fn limit_level(q: int) -> int {
    frame::clamp(q, -8192, 8191)
}

/// The level of the exact coefficient `num / denom`: `round((|c| + dz) / sw)` with its sign.
pub open spec fn quantized(num: int, denom: int, sw: int, dz: int) -> int {
    if num == 0 {
        0
    } else {
        let q = (2 * abs(num) + denom * abs(2 * dz + sw)) / (2 * denom * sw);
        limit_level(
            if num < 0 {
                -q
            } else {
                q
            },
        )
    }
}

/// The value of a level: zero stays zero, and other levels are moved by the offset away from
/// zero.
pub open spec fn level_value(c: int, sw: int, off: int) -> int {
    if c > 0 {
        c * sw + off
    } else if c < 0 {
        c * sw - off
    } else {
        0
    }
}

/// Bits that a level is taken to cost.
pub open spec fn level_bits(c: int) -> int {
    if c == 0 {
        0
    } else if abs(c) <= 32 {
        9
    } else {
        17
    }
}

/// The rate-distortion cost of a level, times `denom * denom`: the square of its error, and a
/// sixteenth of the squared step width for each bit.
pub open spec fn level_cost(c: int, num: int, denom: int, sw: int, off: int) -> int {
    let e = level_value(c, sw, off) * denom - num;
    e * e + ((sw * sw) / 16) * level_bits(c) * (denom * denom)
}

/// The level that is chosen in place of `q0`: the cheapest of its neighbours and itself, the
/// lower one on a tie, or zero where that is cheaper still for a small level.
pub open spec fn refined(q0: int, num: int, denom: int, sw: int, off: int) -> int {
    let lambda = (sw * sw) / 16;
    if q0 == 0 && num * num <= lambda * 9 * (denom * denom) {
        0
    } else {
        let a = q0 - 1;
        let b = if level_cost(q0, num, denom, sw, off) < level_cost(a, num, denom, sw, off) {
            q0
        } else {
            a
        };
        let c = if level_cost(q0 + 1, num, denom, sw, off) < level_cost(b, num, denom, sw, off) {
            q0 + 1
        } else {
            b
        };
        limit_level(
            if abs(q0) <= 2 && num * num < level_cost(c, num, denom, sw, off) {
                0
            } else {
                c
            },
        )
    }
}

/// The level of one coefficient.
pub open spec fn level_of(num: int, denom: int, layer: DequantLayer, rdoq: bool) -> int {
    let sw = layer.step_width as int;
    let off = layer.offset as int;
    let q = quantized(num, denom, sw, -off);
    if rdoq {
        refined(q, num, denom, sw, off)
    } else {
        q
    }
}

/// The levels of a residual block.
pub open spec fn levels_of(
    t: ForwardTransform,
    row: Seq<DequantLayer>,
    residual: Seq<i16>,
    rdoq: bool,
) -> Seq<i16> {
    let nums = transform::forward_of(t, residual);
    let n = transform::transform_len(t);
    Seq::new(n, |l: int| level_of(nums[l], n as int, row[l], rdoq) as i16)
}

/// The dequantized value of a level.
pub open spec fn dequantized(c: int, layer: DequantLayer) -> int {
    frame::clamp16(level_value(c, layer.step_width as int, layer.offset as int))
}

/// The dequantized values of levels.
pub open spec fn dequantized_all(levels: Seq<i16>, row: Seq<DequantLayer>) -> Seq<i16> {
    Seq::new(levels.len(), |l: int| dequantized(levels[l] as int, row[l]) as i16)
}

/// The residual block that a decoder makes of levels.
pub open spec fn decoded_residual(
    t: ForwardTransform,
    row: Seq<DequantLayer>,
    levels: Seq<i16>,
) -> Seq<i16> {
    transform::inverse_of(t, dequantized_all(levels, row))
}

/// The strength of the L1 filter at a residual index, in sixteenths: corners and sides of the
/// block are weakened, the middle is kept.
pub open spec fn filter_weight(i: int, corner: int, side: int) -> int {
    if i == 0 || i == 5 || i == 10 || i == 15 {
        16 - corner
    } else if i == 1 || i == 4 || i == 7 || i == 13 || i == 2 || i == 8 || i == 11 || i == 14 {
        16 - side
    } else {
        16
    }
}

/// A 4x4 residual block after the L1 filter.
pub open spec fn filtered(r: Seq<i16>, corner: int, side: int) -> Seq<i16> {
    Seq::new(
        r.len(),
        |i: int| frame::clamp16((r[i] * filter_weight(i, corner, side)) / 16) as i16,
    )
}

/// The residual block that the encoder reconstructs: that of a decoder, through the L1 filter
/// where it is on and the block is 4x4.
pub open spec fn reconstructed(
    t: ForwardTransform,
    row: Seq<DequantLayer>,
    levels: Seq<i16>,
    deblock: bool,
    corner: int,
    side: int,
) -> Seq<i16> {
    let r = decoded_residual(t, row, levels);
    if deblock && transform::transform_len(t) == 16 {
        filtered(r, corner, side)
    } else {
        r
    }
}

/// Coefficient energies with those of one more block: the squares of the numerators.
pub open spec fn more_energy(energy: Seq<u128>, nums: Seq<int>) -> Seq<u128> {
    Seq::new(
        energy.len(),
        |l: int|
            if l < nums.len() {
                (energy[l] + nums[l] * nums[l]) as u128
            } else {
                energy[l]
            },
    )
}

/// What the quantizer divides, and what it divides by.
pub open spec fn quantizer_fraction(num: int, denom: int, sw: int, dz: int) -> (int, int) {
    (2 * abs(num) + denom * abs(2 * dz + sw), 2 * denom * sw)
}

/// The fractions of transform units fit the arithmetic of the quantizer.
proof fn lemma_quantize_bounds(num: int, denom: int, sw: int, dz: int)
    requires
        -0x20_0000 <= num <= 0x20_0000,
        denom == 4 || denom == 16,
        1 <= sw <= 32767,
        -32768 <= dz <= 32768,
    ensures
        ({
            let (n, d) = quantizer_fraction(num, denom, sw, dz);
            n <= u64::MAX && n / d <= i32::MAX
        }),
{
    let a = abs(2 * dz + sw);
    assert(0 <= a <= 98303);
    let n = 2 * abs(num) + denom * a;
    let d = 2 * denom * sw;
    assert(0 <= denom * a <= 16 * 98303) by (nonlinear_arith)
        requires
            denom == 4 || denom == 16,
            0 <= a <= 98303,
    ;
    assert(8 <= d <= 32 * 32767) by (nonlinear_arith)
        requires
            d == 2 * denom * sw,
            denom == 4 || denom == 16,
            1 <= sw <= 32767,
    ;
    assert(0 <= n / d <= n) by (nonlinear_arith)
        requires
            n >= 0,
            d >= 8,
    ;
}

/// Deadzone quantizer for the exact rational coefficient `num / denom`, using the step width
/// and deadzone of the reconstruction.
pub fn quantize(num: i32, denom: i32, step_width: i32, deadzone: i32) -> (q: i16)
    requires
        denom >= 1,
        step_width >= 1,
        num != 0 ==> ({
            let (n, d) = quantizer_fraction(
                num as int,
                denom as int,
                step_width as int,
                deadzone as int,
            );
            n <= u64::MAX && n / d <= i32::MAX
        }),
    ensures
        q == quantized(num as int, denom as int, step_width as int, deadzone as int),
        -8192 <= q <= 8191,
{
    if num == 0 {
        return 0;
    }
    let a: u64 = if num < 0 {
        (-(num as i64)) as u64
    } else {
        num as u64
    };
    let z: i64 = 2 * deadzone as i64 + step_width as i64;
    let zabs: u64 = if z < 0 {
        (-z) as u64
    } else {
        z as u64
    };
    proof {
        assert(denom * zabs >= 0) by (nonlinear_arith)
            requires
                denom >= 1,
                zabs >= 0,
        ;
        assert(2 <= 2 * denom * step_width <= 2 * 0x7fff_ffff * 0x7fff_ffff) by (nonlinear_arith)
            requires
                1 <= denom <= 0x7fff_ffff,
                1 <= step_width <= 0x7fff_ffff,
        ;
        assert(2 * denom * step_width == (2 * denom) * step_width);
    }
    let numerator: u64 = 2 * a + denom as u64 * zabs;
    let denominator: u64 = 2 * denom as u64 * step_width as u64;
    let q: i64 = (numerator / denominator) as i64;
    let signed: i64 = if num < 0 {
        -q
    } else {
        q
    };
    frame::clamp_i64(signed, -8192, 8191) as i16
}

/// How far the value of a level lies from the exact coefficient `num / denom`, times `denom`.
pub open spec fn level_error(c: int, num: int, denom: int, sw: int, dz: int) -> int {
    abs(num - denom * level_value(c, sw, -dz))
}

/// The distance `|x - k * s|` is least at the multiple that `x` rounds to, or at the last one
/// that is allowed.
proof fn lemma_nearest_multiple(x: int, s: int, last: int, k: int)
    requires
        s > 0,
        k <= last,
    ensures
        ({
            let q = (2 * x + s) / (2 * s);
            let m = if q <= last {
                q
            } else {
                last
            };
            abs(x - m * s) <= abs(x - k * s)
        }),
{
    let q = (2 * x + s) / (2 * s);
    vstd::arithmetic::div_mod::lemma_fundamental_div_mod(2 * x + s, 2 * s);
    assert(2 * s * q == 2 * (q * s)) by (nonlinear_arith);
    assert(-s <= 2 * (x - q * s) < s);
    if k < q {
        assert(k * s <= (q - 1) * s) by (nonlinear_arith)
            requires
                k <= q - 1,
                s > 0,
        ;
        assert((q - 1) * s == q * s - s) by (nonlinear_arith);
        if last < q {
            assert(k * s <= last * s <= (q - 1) * s) by (nonlinear_arith)
                requires
                    k <= last <= q - 1,
                    s > 0,
            ;
        }
    } else if k > q {
        assert(k * s >= (q + 1) * s) by (nonlinear_arith)
            requires
                k >= q + 1,
                s > 0,
        ;
        assert((q + 1) * s == q * s + s) by (nonlinear_arith);
    }
}

/// The error of a nonzero level, by its magnitude: for a level of the sign of the coefficient
/// it is that of the magnitudes, for one of the other sign the two distances add up.
proof fn lemma_level_error(c: int, num: int, denom: int, sw: int, dz: int)
    requires
        c != 0,
        num != 0,
    ensures
        (c > 0) == (num > 0) ==> level_error(c, num, denom, sw, dz) == abs(
            abs(num) + denom * dz - abs(c) * (denom * sw),
        ),
        (c > 0) != (num > 0) ==> level_error(c, num, denom, sw, dz) == abs(
            abs(num) - denom * dz + abs(c) * (denom * sw),
        ),
{
    let m = abs(c);
    assert(denom * (m * sw - dz) == m * (denom * sw) - denom * dz) by (nonlinear_arith);
    assert(level_value(c, sw, -dz) == if c > 0 {
        m * sw - dz
    } else {
        -(m * sw - dz)
    }) by {
        assert((-m) * sw == -(m * sw)) by (nonlinear_arith);
    }
    assert(denom * (-(m * sw - dz)) == -(denom * (m * sw - dz))) by (nonlinear_arith);
}

/// The rounding of the quantizer in terms of the shifted magnitude and the scaled step width.
proof fn lemma_quantized_magnitude(num: int, denom: int, sw: int, dz: int)
    requires
        num != 0,
        denom > 0,
        sw > 0,
        2 * dz + sw >= 0,
    ensures
        ({
            let x = abs(num) + denom * dz;
            let s = denom * sw;
            let q = (2 * x + s) / (2 * s);
            let last = if num > 0 {
                8191int
            } else {
                8192
            };
            &&& s > 0
            &&& q >= 0
            &&& abs(quantized(num, denom, sw, dz)) == if q <= last {
                q
            } else {
                last
            }
            &&& quantized(num, denom, sw, dz) != 0 ==> (quantized(num, denom, sw, dz) > 0) == (num
                > 0)
        }),
{
    let x = abs(num) + denom * dz;
    let s = denom * sw;
    assert(s > 0) by (nonlinear_arith)
        requires
            denom > 0,
            sw > 0,
            s == denom * sw,
    ;
    assert(denom * (2 * dz + sw) == 2 * (denom * dz) + s) by (nonlinear_arith)
        requires
            s == denom * sw,
    ;
    assert(denom * (2 * dz + sw) >= 0) by (nonlinear_arith)
        requires
            denom > 0,
            2 * dz + sw >= 0,
    ;
    assert(2 * denom * sw == 2 * s) by (nonlinear_arith)
        requires
            s == denom * sw,
    ;
    let n = 2 * x + s;
    assert(n / (2 * s) >= 0) by (nonlinear_arith)
        requires
            n >= 0,
            s > 0,
    ;
}

/// Of the nonzero levels with the sign of the coefficient, none has a value nearer to the
/// coefficient than the one that is chosen. Where zero is chosen, this holds for deadzones that
/// are not negative: those draw the values of the other levels towards zero.
pub proof fn law_nearest_level(num: int, denom: int, sw: int, dz: int, k: int)
    requires
        denom > 0,
        sw > 0,
        2 * dz + sw >= 0,
        k != 0 && (k > 0) == (num > 0) && num != 0,
        k == limit_level(k),
        quantized(num, denom, sw, dz) == 0 ==> dz >= 0,
    ensures
        level_error(quantized(num, denom, sw, dz), num, denom, sw, dz) <= level_error(
            k,
            num,
            denom,
            sw,
            dz,
        ),
{
    let q = quantized(num, denom, sw, dz);
    let x = abs(num) + denom * dz;
    let s = denom * sw;
    let last = if num > 0 {
        8191int
    } else {
        8192
    };
    lemma_quantized_magnitude(num, denom, sw, dz);
    lemma_nearest_multiple(x, s, last, abs(k));
    lemma_level_error(k, num, denom, sw, dz);
    if q != 0 {
        lemma_level_error(q, num, denom, sw, dz);
    } else {
        assert(denom * dz >= 0) by (nonlinear_arith)
            requires
                denom > 0,
                dz >= 0,
        ;
        assert(abs(q) * s == 0) by (nonlinear_arith)
            requires
                abs(q) == 0,
        ;
        assert(level_error(q, num, denom, sw, dz) == abs(num));
    }
}

/// The quantizer picks the distortion-minimizing level: none that a stream can carry has a
/// value nearer to the coefficient. Left out are the coefficients below half of the first
/// value that are still rounded up to it, and those above half of it that are rounded down to
/// zero: the deadzone moves the first value, but not zero. A deadzone wider than a step is left
/// out too: it takes the values of levels past zero.
pub proof fn law_nearest_of_all(num: int, denom: int, sw: int, dz: int, k: int)
    requires
        denom > 0,
        sw > 0,
        -sw <= 2 * dz,
        dz <= sw,
        k == limit_level(k),
        quantized(num, denom, sw, dz) == 0 ==> 2 * abs(num) <= denom * (sw - dz),
        quantized(num, denom, sw, dz) != 0 ==> 2 * abs(num) >= denom * (sw - dz),
    ensures
        level_error(quantized(num, denom, sw, dz), num, denom, sw, dz) <= level_error(
            k,
            num,
            denom,
            sw,
            dz,
        ),
{
    let q = quantized(num, denom, sw, dz);
    let x = abs(num) + denom * dz;
    let s = denom * sw;
    let first = denom * (sw - dz);
    assert(denom * (sw - dz) == s - denom * dz) by (nonlinear_arith)
        requires
            s == denom * sw,
    ;
    assert(first >= 0) by (nonlinear_arith)
        requires
            first == denom * (sw - dz),
            denom > 0,
            dz <= sw,
    ;
    assert(denom * 0 == 0);
    if num != 0 {
        lemma_quantized_magnitude(num, denom, sw, dz);
    }
    if num != 0 && k != 0 {
        lemma_level_error(k, num, denom, sw, dz);
        assert(abs(k) * s >= s) by (nonlinear_arith)
            requires
                abs(k) >= 1,
                s > 0,
        ;
    }
    if q == 0 {
        assert(level_error(q, num, denom, sw, dz) == abs(num));
    } else {
        lemma_level_error(q, num, denom, sw, dz);
        let one = if num > 0 {
            1int
        } else {
            -1
        };
        law_nearest_level(num, denom, sw, dz, one);
        lemma_level_error(one, num, denom, sw, dz);
        assert(abs(one) * s == s) by (nonlinear_arith)
            requires
                abs(one) == 1,
        ;
        assert(level_error(q, num, denom, sw, dz) <= abs(num));
        if k != 0 && (k > 0) == (num > 0) {
            law_nearest_level(num, denom, sw, dz, k);
        }
    }
}

/// The square of an error.
fn square(e: i64) -> (r: u128)
    requires
        -0x100_0000_0000 <= e <= 0x100_0000_0000,
    ensures
        r == e * e,
        r <= 0x100_0000_0000 * 0x100_0000_0000,
{
    let m: u128 = if e < 0 {
        (-e) as u128
    } else {
        e as u128
    };
    assert(e * e == m * m) by (nonlinear_arith)
        requires
            m == e || m == -e,
    ;
    assert(0 <= m * m <= 0x100_0000_0000 * 0x100_0000_0000) by (nonlinear_arith)
        requires
            0 <= m <= 0x100_0000_0000,
    ;
    m * m
}

proof fn lemma_cost_bounds(c: int, num: int, denom: int, sw: int, off: int)
    requires
        -8193 <= c <= 8192,
        -0x20_0000 <= num <= 0x20_0000,
        denom == 4 || denom == 16,
        1 <= sw <= 32767,
        -32768 <= off <= 32767,
    ensures
        -0x1100_0000 <= c * sw <= 0x1100_0000,
        -0x1200_0000 <= level_value(c, sw, off) <= 0x1200_0000,
        -0x100_0000_0000 <= level_value(c, sw, off) * denom - num <= 0x100_0000_0000,
        0 <= sw * sw <= 0x4000_0000,
        0 <= (sw * sw) / 16 <= 0x400_0000,
        0 <= ((sw * sw) / 16) * level_bits(c) * (denom * denom) <= 0x400_0000 * 17 * 256,
{
    assert(-0x1100_0000 <= c * sw <= 0x1100_0000) by (nonlinear_arith)
        requires
            -8193 <= c <= 8192,
            1 <= sw <= 32767,
    ;
    let v = level_value(c, sw, off);
    assert(-0x1200_0000 * 16 <= v * denom <= 0x1200_0000 * 16) by (nonlinear_arith)
        requires
            -0x1200_0000 <= v <= 0x1200_0000,
            denom == 4 || denom == 16,
    ;
    assert(0 <= sw * sw <= 0x4000_0000) by (nonlinear_arith)
        requires
            1 <= sw <= 32767,
    ;
    let lambda = (sw * sw) / 16;
    let bits = level_bits(c);
    assert(0 <= lambda * bits <= 0x400_0000 * 17) by (nonlinear_arith)
        requires
            0 <= lambda <= 0x400_0000,
            0 <= bits <= 17,
    ;
    let d2 = denom * denom;
    assert(d2 == 16 || d2 == 256);
    let lb = lambda * bits;
    assert(0 <= lb * d2 <= 0x400_0000 * 17 * 256) by (nonlinear_arith)
        requires
            0 <= lb <= 0x400_0000 * 17,
            0 <= d2 <= 256,
    ;
}

/// The rate-distortion cost of a level.
fn cost(c: i64, num: i64, denom: i64, sw: i64, off: i64) -> (r: u128)
    requires
        -8193 <= c <= 8192,
        -0x20_0000 <= num <= 0x20_0000,
        denom == 4 || denom == 16,
        1 <= sw <= 32767,
        -32768 <= off <= 32767,
    ensures
        r == level_cost(c as int, num as int, denom as int, sw as int, off as int),
{
    proof {
        lemma_cost_bounds(c as int, num as int, denom as int, sw as int, off as int);
    }
    let dq: i64 = if c > 0 {
        c * sw + off
    } else if c < 0 {
        c * sw - off
    } else {
        0
    };
    let e: i64 = dq * denom - num;
    let bits: i64 = if c == 0 {
        0
    } else if c <= 32 && c >= -32 {
        9
    } else {
        17
    };
    let lambda: i64 = (sw * sw) / 16;
    let d2: i64 = denom * denom;
    let rate: i64 = lambda * bits * d2;
    square(e) + rate as u128
}

/// Refine a level with a rate-distortion cost. The transform is Hadamard-based (orthogonal up
/// to a constant absorbed in the weight of a bit), so the error of a level change is the square
/// of the change of the dequantized value times a constant. Bits are estimated from the
/// coefficient magnitude (1 LSB byte for |q| <= 32, else LSB+MSB).
fn refine(q0: i16, num: i32, denom: i32, step_width: i16, offset: i16) -> (q: i16)
    requires
        -8192 <= q0 <= 8191,
        -0x20_0000 <= num <= 0x20_0000,
        denom == 4 || denom == 16,
        1 <= step_width,
    ensures
        q == refined(q0 as int, num as int, denom as int, step_width as int, offset as int),
        -8192 <= q <= 8191,
{
    let sw: i64 = step_width as i64;
    let off: i64 = offset as i64;
    let n: i64 = num as i64;
    let d: i64 = denom as i64;
    let q: i64 = q0 as i64;
    proof {
        lemma_cost_bounds(0, n as int, d as int, sw as int, off as int);
        lemma_cost_bounds(1, n as int, d as int, sw as int, off as int);
        let l = (sw * sw) / 16;
        assert(l * level_bits(1) * (d * d) == l * 9 * (d * d));
        assert(0 <= l * 9 <= 0x400_0000 * 9);
        assert(d * d == 16 || d * d == 256) by (nonlinear_arith)
            requires
                d == 4 || d == 16,
        ;
    }
    let lambda: i64 = (sw * sw) / 16;
    let d2: i64 = d * d;
    let zero_cost: u128 = square(n);
    if q == 0 {
        let limit: i64 = lambda * 9 * d2;
        if zero_cost <= limit as u128 {
            return 0;
        }
    }
    let mut best: i64 = q - 1;
    let mut best_cost: u128 = cost(q - 1, n, d, sw, off);
    let c1: u128 = cost(q, n, d, sw, off);
    if c1 < best_cost {
        best_cost = c1;
        best = q;
    }
    let c2: u128 = cost(q + 1, n, d, sw, off);
    if c2 < best_cost {
        best_cost = c2;
        best = q + 1;
    }
    // Also consider full zeroing for small levels.
    if q <= 2 && q >= -2 && zero_cost < best_cost {
        best = 0;
    }
    frame::clamp_i64(best, -8192, 8191) as i16
}

/// The refined level is the cheapest of the level and its neighbours, and no dearer than zero
/// where the level is small. Left out are the two ends of the range, where a neighbour cannot
/// be coded.
pub proof fn law_refined_cheapest(q0: int, num: int, denom: int, sw: int, off: int, k: int)
    requires
        -8192 < q0 < 8191,
        sw > 0,
        q0 - 1 <= k <= q0 + 1 || (k == 0 && abs(q0) <= 2),
    ensures
        level_cost(refined(q0, num, denom, sw, off), num, denom, sw, off) <= level_cost(
            k,
            num,
            denom,
            sw,
            off,
        ),
{
    let lambda = (sw * sw) / 16;
    let d2 = denom * denom;
    let e = level_value(k, sw, off) * denom - num;
    assert(e * e >= 0) by (nonlinear_arith);
    assert(d2 >= 0) by (nonlinear_arith)
        requires
            d2 == denom * denom,
    ;
    assert(sw * sw >= 0) by (nonlinear_arith);
    let z = level_value(0, sw, off) * denom - num;
    assert(z == -num);
    assert(z * z == num * num) by (nonlinear_arith)
        requires
            z == -num,
    ;
    assert(lambda * level_bits(0) * d2 == 0) by (nonlinear_arith)
        requires
            level_bits(0) == 0,
    ;
    assert(level_cost(0, num, denom, sw, off) == num * num);
    if q0 == 0 && num * num <= lambda * 9 * d2 {
        assert(k != 0 ==> level_bits(k) == 9);
    }
}

/// The dequantized value of a level.
pub fn dequantize(c: i16, layer: &DequantLayer) -> (v: i16)
    requires
        layer.step_width >= 1,
    ensures
        v == dequantized(c as int, *layer),
{
    let sw: i64 = layer.step_width as i64;
    let off: i64 = layer.offset as i64;
    let c: i64 = c as i64;
    assert(-0x8000_0000 <= c * sw <= 0x8000_0000) by (nonlinear_arith)
        requires
            -32768 <= c <= 32767,
            1 <= sw <= 32767,
    ;
    let v: i64 = if c > 0 {
        c * sw + off
    } else if c < 0 {
        c * sw - off
    } else {
        0
    };
    frame::clamp_i16(v)
}

/// Dequantize the levels of a block and apply the inverse transform.
pub fn decode_levels(
    levels: &Vec<i16>,
    row: &Vec<DequantLayer>,
    forward: &ForwardTransform,
) -> (r: Vec<i16>)
    requires
        levels@.len() == transform::transform_len(*forward),
        row@.len() == levels@.len(),
        forall|l: int| 0 <= l < row@.len() ==> #[trigger] row@[l].step_width >= 1,
    ensures
        r@ == decoded_residual(*forward, row@, levels@),
        r@.len() == levels@.len(),
{
    let mut dq: Vec<i16> = Vec::new();
    let mut l: usize = 0;
    while l < levels.len()
        invariant
            l <= levels@.len() == row@.len(),
            forall|l: int| 0 <= l < row@.len() ==> #[trigger] row@[l].step_width >= 1,
            dq@.len() == l,
            forall|k: int|
                0 <= k < l ==> #[trigger] dq@[k] == dequantized(levels@[k] as int, row@[k]),
        decreases levels@.len() - l,
    {
        assert(row@[l as int].step_width >= 1);
        dq.push(dequantize(levels[l], &row[l]));
        l = l + 1;
    }
    assert(dq@ =~= dequantized_all(levels@, row@));
    forward.inverse(dq.as_slice())
}

/// Weaken the corners and sides of a 4x4 residual block.
fn deblock_residual(r: &Vec<i16>, corner: u8, side: u8) -> (out: Vec<i16>)
    ensures
        out@ == filtered(r@, corner as int, side as int),
{
    let mut out: Vec<i16> = Vec::new();
    let mut i: usize = 0;
    while i < r.len()
        invariant
            i <= r@.len(),
            out@.len() == i,
            forall|k: int|
                0 <= k < i ==> #[trigger] out@[k] == frame::clamp16(
                    (r@[k] * filter_weight(k, corner as int, side as int)) / 16,
                ),
        decreases r@.len() - i,
    {
        let weight: i64 = if i == 0 || i == 5 || i == 10 || i == 15 {
            16 - corner as i64
        } else if i == 1 || i == 4 || i == 7 || i == 13 || i == 2 || i == 8 || i == 11 || i == 14 {
            16 - side as i64
        } else {
            16
        };
        let v: i64 = r[i] as i64;
        assert(-32768 * 256 <= v * weight <= 32768 * 256) by (nonlinear_arith)
            requires
                -32768 <= v <= 32767,
                -239 <= weight <= 16,
        ;
        out.push(frame::clamp_i16(frame::floor_div(v * weight, 16)));
        i = i + 1;
    }
    assert(out@ =~= filtered(r@, corner as int, side as int));
    out
}

proof fn lemma_energy_step(e: u128, num: int)
    requires
        e <= 0x100_0000_0000_0000_0000_0000_0000_0000,
        -0x20_0000 <= num <= 0x20_0000,
    ensures
        0 <= num * num <= 0x400_0000_0000,
{
    assert(0 <= num * num <= 0x400_0000_0000) by (nonlinear_arith)
        requires
            -0x20_0000 <= num <= 0x20_0000,
    ;
}

/// Energies far from the limit of their type.
pub open spec fn energy_ok(energy: Seq<u128>) -> bool {
    energy.len() == 16 && forall|l: int|
        0 <= l < 16 ==> #[trigger] energy[l] <= 0x100_0000_0000_0000_0000_0000_0000_0000
}

/// Quantize and reconstruct an already-built residual block: its levels, and the residual that
/// they are reconstructed to. The energy of its coefficients is added up.
pub fn encode_tu_residual(
    residual: &Vec<i16>,
    table: &DequantTable,
    forward: &ForwardTransform,
    signal: TemporalSignal,
    deblock: bool,
    deblock_corner: u8,
    deblock_side: u8,
    energy: &mut Vec<u128>,
    rdoq: bool,
) -> (r: (Vec<i16>, Vec<i16>))
    requires
        residual@.len() == transform::transform_len(*forward),
        dequant::table_ok(dequant::table_view(*table), residual@.len() as int),
        energy_ok(old(energy)@),
    ensures
        r.0@ == levels_of(
            *forward,
            dequant::table_view(*table)[dequant::signal_index(signal)],
            residual@,
            rdoq,
        ),
        r.0@.len() == residual@.len(),
        forall|l: int| 0 <= l < r.0@.len() ==> -8192 <= #[trigger] r.0@[l] <= 8191,
        r.1@ == reconstructed(
            *forward,
            dequant::table_view(*table)[dequant::signal_index(signal)],
            r.0@,
            deblock,
            deblock_corner as int,
            deblock_side as int,
        ),
        r.1@.len() == residual@.len(),
        final(energy)@ == more_energy(
            old(energy)@,
            transform::forward_of(*forward, residual@),
        ),
{
    let (nums, denom) = forward.apply(residual.as_slice());
    let ghost exact = transform::forward_of(*forward, residual@);
    let row: &Vec<DequantLayer> = &table.layers[signal.index()];
    let ghost model = dequant::table_view(*table)[dequant::signal_index(signal)];
    proof {
        transform::lemma_forward_bound(*forward, residual@);
        assert(model == row@);
        assert(forall|l: int| 0 <= l < row@.len() ==> #[trigger] row@[l].step_width >= 1) by {
            assert forall|l: int| 0 <= l < row@.len() implies #[trigger] row@[l].step_width
                >= 1 by {
                assert(dequant::table_view(*table)[0][l].step_width >= 1);
                assert(dequant::table_view(*table)[1][l].step_width >= 1);
            }
        }
    }
    let n: usize = forward.layers();
    let mut coeffs: Vec<i16> = Vec::new();
    let mut l: usize = 0;
    let ghost before = energy@;
    while l < n
        invariant
            l <= n == nums@.len(),
            n == residual@.len() == row@.len(),
            n == 4 || n == 16,
            denom == n,
            transform::wide(nums@) == exact,
            forall|k: int| 0 <= k < n ==> -0x20_0000 <= #[trigger] exact[k] <= 0x20_0000,
            forall|k: int| 0 <= k < n ==> #[trigger] row@[k].step_width >= 1,
            energy_ok(before),
            energy@.len() == 16,
            forall|k: int|
                0 <= k < 16 ==> #[trigger] energy@[k] == (if k < l {
                    before[k] + exact[k] * exact[k]
                } else {
                    before[k] as int
                }),
            coeffs@.len() == l,
            forall|k: int|
                0 <= k < l ==> #[trigger] coeffs@[k] == level_of(exact[k], n as int, row@[k], rdoq)
                    && -8192 <= coeffs@[k] <= 8191,
        decreases n - l,
    {
        let num: i32 = nums[l];
        proof {
            assert(exact[l as int] == num);
            assert(row@[l as int].step_width >= 1);
            lemma_energy_step(before[l as int], num as int);
            assert(before[l as int] <= 0x100_0000_0000_0000_0000_0000_0000_0000);
        }
        let square: i64 = num as i64 * num as i64;
        let e: u128 = energy[l];
        energy.set(l, e + square as u128);
        let layer: DequantLayer = row[l];
        proof {
            lemma_quantize_bounds(
                num as int,
                denom as int,
                layer.step_width as int,
                -(layer.offset as int),
            );
        }
        let q: i16 = quantize(num, denom, layer.step_width as i32, -(layer.offset as i32));
        if rdoq {
            coeffs.push(refine(q, num, denom, layer.step_width, layer.offset));
        } else {
            coeffs.push(q);
        }
        l = l + 1;
    }
    proof {
        assert(coeffs@ =~= levels_of(*forward, model, residual@, rdoq));
        assert(energy@ =~= more_energy(before, exact));
    }
    let rec = decode_levels(&coeffs, row, forward);
    if deblock && n == 16 {
        let out = deblock_residual(&rec, deblock_corner, deblock_side);
        (coeffs, out)
    } else {
        (coeffs, rec)
    }
}

} // verus!
